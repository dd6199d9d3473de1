//! A small map from strings to values, kept in insertion order.
use crate::parse::moves::{lemma_lex_total, lex_le};
use crate::text::{str_eq, views};
use vstd::utf8::encode_utf8;
use vstd::prelude::*;

verus! {

broadcast use vstd::seq_lib::group_to_multiset_ensures;

/// Keys and values at the same indices; no key occurs twice.
pub struct KeyMap<V> {
    keys: Vec<String>,
    vals: Vec<V>,
}

/// `i` is where `k` is kept.
pub open spec fn key_at(keys: Seq<String>, k: Seq<char>, i: int) -> bool {
    0 <= i < keys.len() && keys[i]@ == k
}

impl<V> KeyMap<V> {
    #[verifier::type_invariant]
    spec fn inv(self) -> bool {
        &&& self.keys@.len() == self.vals@.len()
        &&& forall|i: int, j: int|
            0 <= i < self.keys@.len() && 0 <= j < self.keys@.len() && i != j ==> self.keys@[i]@
                != self.keys@[j]@
    }

    /// The keys, in insertion order.
    pub closed spec fn key_seq(&self) -> Seq<Seq<char>> {
        self.keys@.map_values(|k: String| k@)
    }

    /// The map from keys to values.
    pub closed spec fn view(&self) -> Map<Seq<char>, V> {
        Map::new(
            |k: Seq<char>| exists|i: int| key_at(self.keys@, k, i),
            |k: Seq<char>| self.vals@[choose|i: int| key_at(self.keys@, k, i)],
        )
    }

    /// An empty map.
    pub fn new() -> (r: Self)
        ensures
            r.view() == Map::<Seq<char>, V>::empty(),
            r.key_seq() == Seq::<Seq<char>>::empty(),
    {
        let r = KeyMap { keys: Vec::new(), vals: Vec::new() };
        assert(r.view() =~= Map::<Seq<char>, V>::empty());
        assert(r.key_seq() =~= Seq::<Seq<char>>::empty());
        r
    }

    /// Where `k` is kept.
    fn find(&self, k: &str) -> (r: Option<usize>)
        ensures
            match r {
                Some(i) => key_at(self.keys@, k@, i as int),
                None => forall|i: int| !key_at(self.keys@, k@, i),
            },
    {
        proof {
            use_type_invariant(self);
        }
        let mut i: usize = 0;
        while i < self.keys.len()
            invariant
                i <= self.keys@.len(),
                forall|j: int| 0 <= j < i ==> self.keys@[j]@ != k@,
            decreases self.keys@.len() - i,
        {
            if str_eq(self.keys[i].as_str(), k) {
                return Some(i);
            }
            i += 1;
        }
        None
    }

    /// The value of the key at index `i`.
    proof fn lemma_value_at(&self, k: Seq<char>, i: int)
        requires
            key_at(self.keys@, k, i),
            self.inv(),
        ensures
            self.view().dom().contains(k),
            self.view()[k] == self.vals@[i],
    {
        let j = choose|j: int| key_at(self.keys@, k, j);
        assert(key_at(self.keys@, k, j));
        assert(i == j);
    }

    /// The value of `k`, if any.
    pub fn get(&self, k: &str) -> (r: Option<&V>)
        ensures
            match r {
                Some(v) => self.view().dom().contains(k@) && self.view()[k@] == *v,
                None => !self.view().dom().contains(k@),
            },
    {
        proof {
            use_type_invariant(self);
        }
        match self.find(k) {
            Some(i) => {
                proof {
                    self.lemma_value_at(k@, i as int);
                }
                Some(&self.vals[i])
            },
            None => None,
        }
    }

    /// How many keys have a value.
    pub fn len(&self) -> (r: usize)
        ensures
            r == self.view().dom().len(),
            r == self.key_seq().len(),
            self.view().dom().finite(),
    {
        proof {
            use_type_invariant(self);
            let ks = self.key_seq();
            assert(ks.no_duplicates()) by {
                assert forall|i: int, j: int| 0 <= i < ks.len() && 0 <= j < ks.len() && i != j implies ks[i] != ks[j] by {
                    assert(ks[i] == self.keys@[i]@ && ks[j] == self.keys@[j]@);
                }
            }
            ks.unique_seq_to_set();
            assert forall|q: Seq<char>| self.view().dom().contains(q) <==> ks.to_set().contains(q) by {
                if self.view().dom().contains(q) {
                    let j = choose|j: int| key_at(self.keys@, q, j);
                    assert(ks[j] == q);
                }
                if ks.to_set().contains(q) {
                    let j = choose|j: int| 0 <= j < ks.len() && ks[j] == q;
                    assert(key_at(self.keys@, q, j));
                }
            }
            assert(self.view().dom() =~= ks.to_set());
        }
        self.keys.len()
    }

    /// Every key of the sequence has a value.
    pub proof fn lemma_key_seq_dom(&self, j: int)
        requires
            0 <= j < self.key_seq().len(),
        ensures
            self.view().dom().contains(self.key_seq()[j]),
    {
        assert(key_at(self.keys@, self.keys@[j]@, j));
    }

    /// The `i`-th key in insertion order, and its value.
    pub fn entry(&self, i: usize) -> (r: (&String, &V))
        requires
            i < self.key_seq().len(),
        ensures
            r.0@ == self.key_seq()[i as int],
            self.view().dom().contains(r.0@),
            self.view()[r.0@] == *r.1,
    {
        proof {
            use_type_invariant(self);
            self.lemma_value_at(self.keys@[i as int]@, i as int);
        }
        (&self.keys[i], &self.vals[i])
    }

    /// Whether `k` has a value.
    pub fn contains(&self, k: &str) -> (r: bool)
        ensures
            r == self.view().dom().contains(k@),
    {
        self.find(k).is_some()
    }

    /// Sets the value of `k`, replacing any previous one.
    pub fn insert(&mut self, k: String, v: V)
        ensures
            final(self).view() == old(self).view().insert(k@, v),
    {
        proof {
            use_type_invariant(&*self);
        }
        let ghost old_keys = self.keys@;
        let ghost old_vals = self.vals@;
        let ghost old_view = self.view();
        match self.find(k.as_str()) {
            Some(i) => {
                let mut tmp = KeyMap { keys: Vec::new(), vals: Vec::new() };
                std::mem::swap(&mut tmp, self);
                let KeyMap { mut keys, mut vals } = tmp;
                vals.set(i, v);
                *self = KeyMap { keys, vals };
                proof {
                    assert forall|q: Seq<char>|
                        #![auto]
                        self.view().dom().contains(q) == old_view.insert(k@, v).dom().contains(q)
                        by {
                        if q != k@ {
                            if exists|j: int| key_at(old_keys, q, j) {
                                let j = choose|j: int| key_at(old_keys, q, j);
                                assert(key_at(self.keys@, q, j));
                            }
                        } else {
                            assert(key_at(self.keys@, q, i as int));
                        }
                    }
                    assert forall|q: Seq<char>|
                        #![auto]
                        self.view().dom().contains(q) implies self.view()[q] == old_view.insert(
                            k@,
                            v,
                        )[q] by {
                        let j = choose|j: int| key_at(self.keys@, q, j);
                        assert(key_at(self.keys@, q, j));
                        self.lemma_value_at(q, j);
                        if q == k@ {
                            assert(j == i);
                        } else {
                            assert(key_at(old_keys, q, j));
                            let jo = choose|jo: int| key_at(old_keys, q, jo);
                            assert(key_at(old_keys, q, jo));
                            assert(jo == j);
                        }
                    }
                    assert(self.view() =~= old_view.insert(k@, v));
                }
            },
            None => {
                let mut tmp = KeyMap { keys: Vec::new(), vals: Vec::new() };
                std::mem::swap(&mut tmp, self);
                let KeyMap { mut keys, mut vals } = tmp;
                let ghost kv = k@;
                keys.push(k);
                vals.push(v);
                assert forall|a: int, b: int|
                    0 <= a < keys@.len() && 0 <= b < keys@.len() && a != b implies keys@[a]@
                    != keys@[b]@ by {
                    if a < old_keys.len() {
                        assert(!key_at(old_keys, kv, a));
                    }
                    if b < old_keys.len() {
                        assert(!key_at(old_keys, kv, b));
                    }
                }
                *self = KeyMap { keys, vals };
                proof {
                    let n = old_keys.len() as int;
                    assert forall|q: Seq<char>|
                        #![auto]
                        self.view().dom().contains(q) == old_view.insert(kv, v).dom().contains(q)
                        by {
                        if q != kv {
                            if exists|j: int| key_at(old_keys, q, j) {
                                let j = choose|j: int| key_at(old_keys, q, j);
                                assert(key_at(self.keys@, q, j));
                            }
                            if exists|j: int| key_at(self.keys@, q, j) {
                                let j = choose|j: int| key_at(self.keys@, q, j);
                                assert(key_at(old_keys, q, j));
                            }
                        } else {
                            assert(key_at(self.keys@, q, n));
                        }
                    }
                    assert forall|q: Seq<char>|
                        #![auto]
                        self.view().dom().contains(q) implies self.view()[q] == old_view.insert(
                            kv,
                            v,
                        )[q] by {
                        let j = choose|j: int| key_at(self.keys@, q, j);
                        assert(key_at(self.keys@, q, j));
                        self.lemma_value_at(q, j);
                        if q == kv {
                            assert(j == n);
                        } else {
                            assert(key_at(old_keys, q, j));
                            let jo = choose|jo: int| key_at(old_keys, q, jo);
                            assert(key_at(old_keys, q, jo));
                            assert(jo == j);
                        }
                    }
                    assert(self.view() =~= old_view.insert(kv, v));
                }
            },
        }
    }

    /// Takes the value of `k` out of the map.
    pub fn remove(&mut self, k: &str) -> (r: Option<V>)
        ensures
            final(self).view() == old(self).view().remove(k@),
            match r {
                Some(v) => old(self).view().dom().contains(k@) && old(self).view()[k@] == v,
                None => !old(self).view().dom().contains(k@),
            },
    {
        proof {
            use_type_invariant(&*self);
        }
        let ghost old_keys = self.keys@;
        let ghost old_vals = self.vals@;
        let ghost old_view = self.view();
        match self.find(k) {
            Some(i) => {
                proof {
                    self.lemma_value_at(k@, i as int);
                }
                let mut tmp = KeyMap { keys: Vec::new(), vals: Vec::new() };
                std::mem::swap(&mut tmp, self);
                let KeyMap { mut keys, mut vals } = tmp;
                let v = vals.remove(i);
                keys.remove(i);
                assert forall|a: int, b: int|
                    0 <= a < keys@.len() && 0 <= b < keys@.len() && a != b implies keys@[a]@
                    != keys@[b]@ by {
                    let oa = if a < i { a } else { a + 1 };
                    let ob = if b < i { b } else { b + 1 };
                    assert(keys@[a] == old_keys[oa]);
                    assert(keys@[b] == old_keys[ob]);
                }
                *self = KeyMap { keys, vals };
                proof {
                    assert forall|q: Seq<char>|
                        #![auto]
                        self.view().dom().contains(q) == old_view.remove(k@).dom().contains(q) by {
                        if exists|j: int| key_at(old_keys, q, j) {
                            let j = choose|j: int| key_at(old_keys, q, j);
                            if q != k@ {
                                assert(j != i);
                                let nj = if j < i { j } else { j - 1 };
                                assert(key_at(self.keys@, q, nj));
                            }
                        }
                        if exists|j: int| key_at(self.keys@, q, j) {
                            let j = choose|j: int| key_at(self.keys@, q, j);
                            let oj = if j < i { j } else { j + 1 };
                            assert(key_at(old_keys, q, oj));
                            assert(oj != i);
                        }
                    }
                    assert forall|q: Seq<char>|
                        #![auto]
                        self.view().dom().contains(q) implies self.view()[q] == old_view.remove(
                            k@,
                        )[q] by {
                        let j = choose|j: int| key_at(self.keys@, q, j);
                        assert(key_at(self.keys@, q, j));
                        self.lemma_value_at(q, j);
                        let oj = if j < i { j } else { j + 1 };
                        assert(key_at(old_keys, q, oj));
                        let jo = choose|jo: int| key_at(old_keys, q, jo);
                        assert(key_at(old_keys, q, jo));
                        assert(jo == oj);
                    }
                    assert(self.view() =~= old_view.remove(k@));
                }
                Some(v)
            },
            None => {
                assert(old_view.remove(k@) =~= old_view);
                None
            },
        }
    }
}

/// Whether `a` sorts before `b` or with it, byte by byte.
pub fn str_le(a: &str, b: &str) -> (r: bool)
    ensures
        r == lex_le(encode_utf8(a@), encode_utf8(b@)),
{
    let x = a.as_bytes();
    let y = b.as_bytes();
    let mut i: usize = 0;
    assert(x@.skip(0) =~= x@);
    assert(y@.skip(0) =~= y@);
    while i < x.len() && i < y.len() && x[i] == y[i]
        invariant
            i <= x@.len(),
            i <= y@.len(),
            lex_le(x@, y@) == lex_le(x@.skip(i as int), y@.skip(i as int)),
        decreases x@.len() - i,
    {
        assert(x@.skip(i as int).drop_first() =~= x@.skip(i + 1));
        assert(y@.skip(i as int).drop_first() =~= y@.skip(i + 1));
        i += 1;
    }
    if i == x.len() {
        true
    } else if i == y.len() {
        false
    } else {
        x[i] < y[i]
    }
}

/// The keys sorted byte-wise, each one once.
pub open spec fn sorted_text(s: Seq<Seq<char>>) -> bool {
    &&& forall|i: int|
        0 <= i < s.len() - 1 ==> lex_le(encode_utf8(#[trigger] s[i]), encode_utf8(s[i + 1]))
    &&& s.no_duplicates()
}

impl<V> KeyMap<V> {
    /// The keys, in byte-wise order.
    pub fn sorted_keys(&self) -> (r: Vec<String>)
        ensures
            views(r@).to_multiset() == self.key_seq().to_multiset(),
            sorted_text(views(r@)),
            forall|i: int| 0 <= i < r@.len() ==> self.view().dom().contains(#[trigger] r@[i]@),
            forall|k: Seq<char>| #[trigger] self.view().dom().contains(k) ==> views(r@).contains(k),
    {
        let mut out: Vec<String> = Vec::new();
        let mut k: usize = 0;
        let ghost ks = self.key_seq();
        assert(ks =~= views(self.keys@));
        assert(views(out@) =~= ks.take(0));
        proof {
            use_type_invariant(self);
            assert forall|i: int, j: int| 0 <= i < ks.len() && 0 <= j < ks.len() && i != j implies ks[i]
                != ks[j] by {
                assert(ks[i] == self.keys@[i]@ && ks[j] == self.keys@[j]@);
            }
        }
        while k < self.keys.len()
            invariant
                k <= self.keys@.len(),
                ks == views(self.keys@),
                ks.no_duplicates(),
                views(out@).to_multiset() == ks.take(k as int).to_multiset(),
                sorted_text(views(out@)),
            decreases self.keys@.len() - k,
        {
            let x = self.keys[k].clone();
            let mut p: usize = 0;
            while p < out.len() && str_le(out[p].as_str(), x.as_str())
                invariant
                    p <= out@.len(),
                    p > 0 ==> lex_le(encode_utf8(out@[p - 1]@), encode_utf8(x@)),
                decreases out@.len() - p,
            {
                p += 1;
            }
            let ghost old_out = out@;
            proof {
                assert(!views(old_out).contains(ks[k as int])) by {
                    if views(old_out).contains(ks[k as int]) {
                        assert(views(old_out).to_multiset().contains(ks[k as int]));
                        assert(ks.take(k as int).contains(ks[k as int]));
                        let j = choose|j: int| 0 <= j < k && ks.take(k as int)[j] == ks[k as int];
                        assert(ks[j] == ks[k as int]);
                    }
                }
                assert(x@ == ks[k as int]);
                if p < old_out.len() {
                    lemma_lex_total(encode_utf8(x@), encode_utf8(old_out[p as int]@));
                }
            }
            out.insert(p, x);
            assert(views(out@) =~= views(old_out).insert(p as int, ks[k as int]));
            assert(ks.take(k + 1) =~= ks.take(k as int).push(ks[k as int]));
            assert(views(out@).no_duplicates()) by {
                let v = views(out@);
                let w = views(old_out);
                assert forall|i: int, j: int| 0 <= i < v.len() && 0 <= j < v.len() && i != j implies v[i]
                    != v[j] by {
                    if i != p && j != p {
                        let a = if i < p { i } else { i - 1 };
                        let b = if j < p { j } else { j - 1 };
                        assert(v[i] == w[a] && v[j] == w[b]);
                    } else if i == p {
                        let b = if j < p { j } else { j - 1 };
                        assert(v[j] == w[b]);
                    } else {
                        let a = if i < p { i } else { i - 1 };
                        assert(v[i] == w[a]);
                    }
                }
            }
            assert forall|i: int| 0 <= i < views(out@).len() - 1 implies lex_le(
                encode_utf8(#[trigger] views(out@)[i]),
                encode_utf8(views(out@)[i + 1]),
            ) by {
                if i + 1 < p {
                    assert(out@[i] == old_out[i] && out@[i + 1] == old_out[i + 1]);
                } else if i + 1 == p {
                    assert(out@[i] == old_out[i]);
                } else if i == p {
                    assert(out@[i + 1] == old_out[i]);
                } else {
                    assert(out@[i] == old_out[i - 1] && out@[i + 1] == old_out[i]);
                }
            }
            k += 1;
        }
        assert(ks.take(self.keys@.len() as int) =~= ks);
        proof {
            use_type_invariant(self);
            assert forall|i: int| 0 <= i < out@.len() implies self.view().dom().contains(
                #[trigger] out@[i]@,
            ) by {
                assert(views(out@)[i] == out@[i]@);
                assert(views(out@).to_multiset().contains(out@[i]@));
                assert(ks.contains(out@[i]@));
                let j = choose|j: int| 0 <= j < ks.len() && ks[j] == out@[i]@;
                assert(key_at(self.keys@, out@[i]@, j));
            }
            assert forall|q: Seq<char>| #[trigger] self.view().dom().contains(q) implies views(
                out@,
            ).contains(q) by {
                let j = choose|j: int| key_at(self.keys@, q, j);
                assert(ks[j] == q);
                assert(ks.to_multiset().contains(q));
            }
        }
        out
    }
}

} // verus!
