//! Byte and string helpers shared by the parsers.
use vstd::prelude::*;
use vstd::string::*;
use vstd::utf8::*;

verus! {

broadcast use vstd::utf8::group_utf8_lib;

/// Byte-wise equality of two slices.
pub fn bytes_eq(a: &[u8], b: &[u8]) -> (r: bool)
    ensures
        r == (a@ == b@),
{
    if a.len() != b.len() {
        return false;
    }
    let mut i: usize = 0;
    while i < a.len()
        invariant
            a@.len() == b@.len(),
            i <= a@.len(),
            forall|j: int| 0 <= j < i ==> a@[j] == b@[j],
        decreases a@.len() - i,
    {
        if a[i] != b[i] {
            return false;
        }
        i += 1;
    }
    assert(a@ =~= b@);
    true
}

/// Equality of two string slices, by their characters.
pub fn str_eq(a: &str, b: &str) -> (r: bool)
    ensures
        r == (a@ == b@),
{
    let r = bytes_eq(a.as_bytes(), b.as_bytes());
    proof {
        if r {
            assert(decode_utf8(encode_utf8(a@)) == a@);
            assert(decode_utf8(encode_utf8(b@)) == b@);
        }
    }
    r
}

} // verus!

verus! {

/// The character of a decimal digit.
pub open spec fn digit_char(d: nat) -> char {
    if d == 0 { '0' }
    else if d == 1 { '1' }
    else if d == 2 { '2' }
    else if d == 3 { '3' }
    else if d == 4 { '4' }
    else if d == 5 { '5' }
    else if d == 6 { '6' }
    else if d == 7 { '7' }
    else if d == 8 { '8' }
    else { '9' }
}

/// Decimal representation of a natural number, without leading zeros.
pub open spec fn dec_nat(n: nat) -> Seq<char>
    decreases n,
{
    if n < 10 {
        seq![digit_char(n)]
    } else {
        dec_nat(n / 10).push(digit_char(n % 10))
    }
}

/// Decimal representation of an integer, as `Display` renders it.
pub open spec fn dec_int(i: int) -> Seq<char> {
    if i < 0 {
        seq!['-'] + dec_nat((-i) as nat)
    } else {
        dec_nat(i as nat)
    }
}

/// Appends one character to a string (`String::push`).
#[verifier::external_body]
pub(crate) fn push_char(s: &mut String, c: char)
    ensures
        final(s)@ == old(s)@.push(c),
{
    s.push(c);
}

/// Appends a string slice to a string.
pub fn push_str(s: &mut String, t: &str)
    ensures
        final(s)@ == old(s)@ + t@,
{
    s.append(t);
}

fn digit(d: u64) -> (c: char)
    requires
        d < 10,
    ensures
        c == digit_char(d as nat),
{
    if d == 0 { '0' }
    else if d == 1 { '1' }
    else if d == 2 { '2' }
    else if d == 3 { '3' }
    else if d == 4 { '4' }
    else if d == 5 { '5' }
    else if d == 6 { '6' }
    else if d == 7 { '7' }
    else if d == 8 { '8' }
    else { '9' }
}

/// Appends the decimal representation of `n`.
pub fn push_u64(s: &mut String, n: u64)
    ensures
        final(s)@ == old(s)@ + dec_nat(n as nat),
    decreases n,
{
    if n >= 10 {
        push_u64(s, n / 10);
        push_char(s, digit(n % 10));
        assert(dec_nat(n as nat) == dec_nat((n / 10) as nat).push(digit_char((n % 10) as nat)));
    } else {
        push_char(s, digit(n));
    }
}

/// Appends the decimal representation of `i`.
pub fn push_i64(s: &mut String, i: i64)
    ensures
        final(s)@ == old(s)@ + dec_int(i as int),
{
    if i < 0 {
        push_char(s, '-');
        let u: u64 = if i == i64::MIN { 9223372036854775808u64 } else { (-i) as u64 };
        push_u64(s, u);
    } else {
        push_u64(s, i as u64);
    }
}

/// The decimal representation of `i`.
pub fn i64_to_string(i: i64) -> (r: String)
    ensures
        r@ == dec_int(i as int),
{
    let mut s = String::new();
    push_i64(&mut s, i);
    s
}

/// An owned copy of a string slice.
pub fn to_string(s: &str) -> (r: String)
    ensures
        r@ == s@,
{
    s.to_owned()
}

} // verus!

verus! {

/// An ASCII decimal digit.
pub open spec fn is_digit(b: u8) -> bool {
    48 <= b <= 57
}

/// Numerical value of a sequence of ASCII digits (most significant first).
pub open spec fn digits_value(s: Seq<u8>) -> nat
    decreases s.len(),
{
    if s.len() == 0 {
        0
    } else {
        digits_value(s.drop_last()) * 10 + (s.last() - 48) as nat
    }
}

/// A non-empty sequence of ASCII digits.
pub open spec fn all_digits(s: Seq<u8>) -> bool {
    s.len() > 0 && forall|i: int| 0 <= i < s.len() ==> is_digit(#[trigger] s[i])
}

/// The integer that `i64::from_str` reads from these bytes: an optional sign then digits, within
/// range.
pub open spec fn i64_of(b: Seq<u8>) -> Option<i64> {
    let v = signed_value(b);
    if all_digits(unsigned_part(b)) && i64::MIN <= v <= i64::MAX {
        Some(v as i64)
    } else {
        None
    }
}

/// The digits after an optional leading sign.
pub open spec fn unsigned_part(b: Seq<u8>) -> Seq<u8> {
    if b.len() > 0 && (b[0] == 45 || b[0] == 43) { b.skip(1) } else { b }
}

/// The value of the digits, negated after a leading `-`.
pub open spec fn signed_value(b: Seq<u8>) -> int {
    if b.len() > 0 && b[0] == 45 {
        -(digits_value(unsigned_part(b)) as int)
    } else {
        digits_value(unsigned_part(b)) as int
    }
}

/// Adding a digit never decreases the value.
pub proof fn lemma_digits_value_prefix(s: Seq<u8>, i: int, j: int)
    requires
        0 <= i <= j <= s.len(),
        forall|k: int| 0 <= k < s.len() ==> is_digit(#[trigger] s[k]),
    ensures
        digits_value(s.take(i)) <= digits_value(s.take(j)),
    decreases j - i,
{
    if i < j {
        lemma_digits_value_prefix(s, i, j - 1);
        assert(s.take(j).drop_last() =~= s.take(j - 1));
    }
}

/// Parses a signed decimal integer, as `i64::from_str` does.
pub fn parse_i64(b: &[u8]) -> (r: Option<i64>)
    ensures
        r == i64_of(b@),
{
    let n = b.len();
    let neg = n > 0 && b[0] == 45u8;
    let start: usize = if n > 0 && (b[0] == 45u8 || b[0] == 43u8) { 1 } else { 0 };
    let ghost d = unsigned_part(b@);
    assert(d =~= b@.skip(start as int));
    if start == n {
        return None;
    }
    let mut acc: u64 = 0;
    let mut i: usize = start;
    while i < n
        invariant
            start <= i <= n,
            n == b@.len(),
            d =~= b@.skip(start as int),
            d == unsigned_part(b@),
            forall|k: int| start <= k < i ==> is_digit(#[trigger] b@[k]),
            acc == digits_value(d.take(i - start)),
            acc <= 9223372036854775808u64,
        decreases n - i,
    {
        if !(48u8 <= b[i] && b[i] <= 57u8) {
            assert(!is_digit(d[i - start]));
            assert(!all_digits(d));
            assert(i64_of(b@).is_none());
            return None;
        }
        assert(d.take(i - start + 1).drop_last() =~= d.take(i - start));
        let dv = (b[i] - 48u8) as u64;
        if acc > 922337203685477580u64 || (acc == 922337203685477580u64 && dv > 8) {
            // The value of the digits read so far already exceeds 2^63.
            assert(digits_value(d.take(i - start + 1)) > 9223372036854775808);
            proof {
                if all_digits(d) {
                    lemma_digits_value_prefix(d, i - start + 1, d.len() as int);
                    assert(d.take(d.len() as int) =~= d);
                }
            }
            assert(i64_of(b@).is_none());
            return None;
        }
        acc = acc * 10 + dv;
        i += 1;
    }
    assert(d.take(n - start) =~= d);
    assert(all_digits(d));
    if neg {
        let v: i128 = 0i128 - (acc as i128);
        Some(v as i64)
    } else if acc <= 9223372036854775807u64 {
        Some(acc as i64)
    } else {
        None
    }
}

} // verus!

verus! {

/// Whether `s` holds the character `c`.
pub fn str_has_char(s: &str, c: char) -> (r: bool)
    ensures
        r == s@.contains(c),
{
    let mut found = false;
    for x in it: s.chars()
        invariant
            it.seq() == s@,
            found == (exists|j: int| 0 <= j < it.index() && s@[j] == c),
    {
        if x == c {
            found = true;
        }
    }
    found
}

} // verus!

verus! {

/// ASCII whitespace, as `char::is_ascii_whitespace` defines it.
pub open spec fn is_ascii_ws(c: char) -> bool {
    c == ' ' || c == '\t' || c == '\n' || c == '\x0C' || c == '\r'
}

/// Unicode `White_Space`, as `char::is_whitespace` defines it.
pub open spec fn is_unicode_ws(c: char) -> bool {
    ('\t' <= c <= '\r') || c == ' ' || c == '\u{85}' || c == '\u{a0}' || c == '\u{1680}' || (
    '\u{2000}' <= c <= '\u{200a}') || c == '\u{2028}' || c == '\u{2029}' || c == '\u{202f}' || c
        == '\u{205f}' || c == '\u{3000}'
}

/// Whitespace of either kind.
pub open spec fn is_ws(c: char, ascii: bool) -> bool {
    if ascii { is_ascii_ws(c) } else { is_unicode_ws(c) }
}

/// `char::is_whitespace`.
pub fn char_is_whitespace(c: char) -> (r: bool)
    ensures
        r == is_unicode_ws(c),
{
    ('\t' <= c && c <= '\r') || c == ' ' || c == '\u{85}' || c == '\u{a0}' || c == '\u{1680}' || (
    '\u{2000}' <= c && c <= '\u{200a}') || c == '\u{2028}' || c == '\u{2029}' || c == '\u{202f}'
        || c == '\u{205f}' || c == '\u{3000}'
}

/// `char::is_ascii_whitespace`.
pub fn char_is_ascii_whitespace(c: char) -> (r: bool)
    ensures
        r == is_ascii_ws(c),
{
    c == ' ' || c == '\t' || c == '\n' || c == '\x0C' || c == '\r'
}

/// The words of `s` (maximal runs without whitespace), scanning from the left with the word
/// under construction `cur` and the words already found `acc`.
pub open spec fn words_from(s: Seq<char>, ascii: bool, cur: Seq<char>, acc: Seq<Seq<char>>) -> Seq<
    Seq<char>,
>
    decreases s.len(),
{
    if s.len() == 0 {
        if cur.len() > 0 { acc.push(cur) } else { acc }
    } else if is_ws(s[0], ascii) {
        words_from(s.drop_first(), ascii, Seq::empty(), if cur.len() > 0 { acc.push(cur) } else { acc })
    } else {
        words_from(s.drop_first(), ascii, cur.push(s[0]), acc)
    }
}

/// The words of `s`, as `split_whitespace` (or `split_ascii_whitespace`) yields them.
pub open spec fn words(s: Seq<char>, ascii: bool) -> Seq<Seq<char>> {
    words_from(s, ascii, Seq::empty(), Seq::empty())
}

/// The views of a sequence of strings.
pub open spec fn views(v: Seq<String>) -> Seq<Seq<char>> {
    v.map_values(|w: String| w@)
}

/// Splits `s` into its words.
pub fn split_words(s: &str, ascii: bool) -> (r: Vec<String>)
    ensures
        views(r@) == words(s@, ascii),
{
    let mut acc: Vec<String> = Vec::new();
    let mut cur = String::new();
    assert(s@.skip(0) =~= s@);
    assert(views(acc@) =~= Seq::<Seq<char>>::empty());
    for x in it: s.chars()
        invariant
            it.seq() == s@,
            words(s@, ascii) == words_from(s@.skip(it.index() as int), ascii, cur@, views(acc@)),
    {
        let ghost i = it.index();
        let ghost rest = s@.skip(i);
        assert(rest.drop_first() =~= s@.skip(i + 1));
        assert(rest.len() > 0);
        assert(rest[0] == x);
        let ghost acc0 = views(acc@);
        let ghost cur0 = cur@;
        let ws = if ascii { char_is_ascii_whitespace(x) } else { char_is_whitespace(x) };
        if ws {
            if !cur.as_str().is_empty() {
                let ghost before = views(acc@);
                let w = cur;
                acc.push(w);
                cur = String::new();
                assert(views(acc@) =~= before.push(w@));
            } else {
                assert(cur@ =~= Seq::<char>::empty());
            }
            assert(is_ws(x, ascii));
        } else {
            push_char(&mut cur, x);
            assert(!is_ws(x, ascii));
        }
        assert(words_from(rest, ascii, cur0, acc0) == words_from(
            s@.skip(i + 1),
            ascii,
            cur@,
            views(acc@),
        ));
    }
    assert(s@.skip(s@.len() as int) =~= Seq::<char>::empty());
    if !cur.as_str().is_empty() {
        let ghost before = views(acc@);
        let w = cur;
        acc.push(w);
        assert(views(acc@) =~= before.push(w@));
    }
    acc
}

} // verus!

verus! {

/// `s` without leading whitespace.
pub open spec fn trim_start(s: Seq<char>) -> Seq<char>
    decreases s.len(),
{
    if s.len() > 0 && is_unicode_ws(s[0]) {
        trim_start(s.drop_first())
    } else {
        s
    }
}

/// `s` without trailing whitespace.
pub open spec fn trim_end(s: Seq<char>) -> Seq<char>
    decreases s.len(),
{
    if s.len() > 0 && is_unicode_ws(s.last()) {
        trim_end(s.drop_last())
    } else {
        s
    }
}

/// `s` without leading and trailing whitespace, as `str::trim` yields it.
pub open spec fn trim(s: Seq<char>) -> Seq<char> {
    trim_end(trim_start(s))
}

/// The characters of `s`.
pub fn chars_vec(s: &str) -> (r: Vec<char>)
    ensures
        r@ == s@,
{
    let mut v: Vec<char> = Vec::new();
    for c in it: s.chars()
        invariant
            it.seq() == s@,
            v@ == s@.take(it.index() as int),
    {
        assert(s@.take(it.index() + 1) =~= s@.take(it.index() as int).push(c));
        v.push(c);
    }
    assert(s@.take(s@.len() as int) =~= s@);
    v
}

/// Bounds `(lo, hi)` such that `trim(v) == v[lo..hi]`.
pub fn trim_bounds(v: &Vec<char>) -> (r: (usize, usize))
    ensures
        r.0 <= r.1 <= v@.len(),
        trim(v@) == v@.subrange(r.0 as int, r.1 as int),
{
    let n = v.len();
    let mut lo: usize = 0;
    assert(v@.skip(0) =~= v@);
    while lo < n && char_is_whitespace(v[lo])
        invariant
            lo <= n,
            n == v@.len(),
            trim_start(v@) == trim_start(v@.skip(lo as int)),
        decreases n - lo,
    {
        assert(v@.skip(lo as int).drop_first() =~= v@.skip(lo + 1));
        lo += 1;
    }
    let ghost t = v@.skip(lo as int);
    assert(trim_start(v@) == t);
    let mut hi: usize = n;
    assert(t.take(t.len() as int) =~= t);
    while hi > lo && char_is_whitespace(v[hi - 1])
        invariant
            lo <= hi <= n,
            n == v@.len(),
            t == v@.skip(lo as int),
            trim_end(t) == trim_end(t.take(hi - lo)),
        decreases hi,
    {
        assert(t.take(hi - lo).drop_last() =~= t.take(hi - 1 - lo));
        hi -= 1;
    }
    assert(t.take(hi - lo) =~= v@.subrange(lo as int, hi as int));
    (lo, hi)
}

} // verus!

verus! {

/// `i` is the first index of `c` in `s`.
pub open spec fn is_first(s: Seq<char>, c: char, i: int) -> bool {
    0 <= i < s.len() && s[i] == c && forall|j: int| 0 <= j < i ==> s[j] != c
}

/// The index of the first `c` in `s`, or the length of `s` when there is none.
pub open spec fn first_pos(s: Seq<char>, c: char) -> int
    decreases s.len(),
{
    if s.len() == 0 {
        0
    } else if s[0] == c {
        0
    } else {
        1 + first_pos(s.drop_first(), c)
    }
}

/// `first_pos` is the first index of `c`.
pub proof fn lemma_first_pos(s: Seq<char>, c: char, i: int)
    requires
        is_first(s, c, i),
    ensures
        first_pos(s, c) == i,
    decreases i,
{
    if i > 0 {
        assert(s[0] != c);
        assert(is_first(s.drop_first(), c, i - 1));
        lemma_first_pos(s.drop_first(), c, i - 1);
    }
}

/// Splits `s` around the first `c`, as `str::split_once` does.
pub fn split_once_char(s: &str, c: char) -> (r: Option<(String, String)>)
    ensures
        r is None <==> !s@.contains(c),
        r matches Some((a, b)) ==> a@ == s@.take(first_pos(s@, c)) && b@ == s@.skip(
            first_pos(s@, c) + 1,
        ),
{
    let v = chars_vec(s);
    let mut i: usize = 0;
    while i < v.len() && v[i] != c
        invariant
            i <= v@.len(),
            v@ == s@,
            forall|j: int| 0 <= j < i ==> v@[j] != c,
        decreases v@.len() - i,
    {
        i += 1;
    }
    if i == v.len() {
        assert(!s@.contains(c));
        return None;
    }
    assert(s@[i as int] == c);
    assert(is_first(s@, c, i as int));
    proof {
        lemma_first_pos(s@, c, i as int);
    }
    let mut a = String::new();
    let mut j: usize = 0;
    while j < i
        invariant
            j <= i < v@.len(),
            v@ == s@,
            a@ == s@.take(j as int),
        decreases i - j,
    {
        assert(s@.take(j + 1) =~= s@.take(j as int).push(v@[j as int]));
        push_char(&mut a, v[j]);
        j += 1;
    }
    let mut b = String::new();
    let mut j: usize = i + 1;
    assert(s@.subrange(i + 1, i + 1) =~= Seq::<char>::empty());
    while j < v.len()
        invariant
            i + 1 <= j <= v@.len(),
            v@ == s@,
            b@ == s@.subrange(i + 1, j as int),
        decreases v@.len() - j,
    {
        assert(s@.subrange(i + 1, j + 1) =~= s@.subrange(i + 1, j as int).push(v@[j as int]));
        push_char(&mut b, v[j]);
        j += 1;
    }
    assert(s@.subrange(i + 1, s@.len() as int) =~= s@.skip(i + 1));
    Some((a, b))
}

/// Hands out a string for the rest of the program run (`String::leak`).
#[verifier::external_body]
pub(crate) fn leak_string(s: String) -> (r: &'static str)
    ensures
        r@ == s@,
{
    s.leak()
}

} // verus!

verus! {

/// Encoding distributes over concatenation.
pub proof fn lemma_encode_concat(a: Seq<char>, b: Seq<char>)
    ensures
        encode_utf8(a + b) == encode_utf8(a) + encode_utf8(b),
    decreases a.len(),
{
    if a.len() == 0 {
        assert(a + b =~= b);
        assert(encode_utf8(a) + encode_utf8(b) =~= encode_utf8(b));
    } else {
        assert((a + b).drop_first() =~= a.drop_first() + b);
        lemma_encode_concat(a.drop_first(), b);
        assert(encode_utf8(a + b) =~= encode_utf8(a) + encode_utf8(b));
    }
}

/// An ASCII byte of a valid encoding starts a character.
pub proof fn lemma_ascii_boundary(b: Seq<u8>, i: int)
    requires
        valid_utf8(b),
        0 <= i < b.len(),
        b[i] < 128,
    ensures
        is_char_boundary(b, i),
{
    assert(is_leading_byte_width_1(b[i]));
}

/// The bytes of `s` from `from` to `to`, as a string slice.
pub fn str_slice(s: &str, from: usize, to: usize) -> (r: &str)
    requires
        from <= to <= s.spec_bytes().len(),
        is_char_boundary(s.spec_bytes(), from as int),
        is_char_boundary(s.spec_bytes(), to as int),
    ensures
        r.spec_bytes() == s.spec_bytes().subrange(from as int, to as int),
        r@ == decode_utf8(s.spec_bytes().subrange(from as int, to as int)),
{
    let ghost sb = s.spec_bytes();
    assert(valid_utf8(sb));
    let (a, _) = s.split_at(to);
    let ghost ab = a.spec_bytes();
    assert(ab =~= sb.subrange(0, to as int));
    assert(valid_utf8(ab));
    proof {
        if from < to {
            assert(ab[from as int] == sb[from as int]);
            is_char_boundary_iff_not_is_continuation_byte(sb, from as int);
            is_char_boundary_iff_not_is_continuation_byte(ab, from as int);
        } else {
            is_char_boundary_start_end_of_seq(ab);
        }
    }
    let (_, b) = a.split_at(from);
    assert(b.spec_bytes() =~= sb.subrange(from as int, to as int));
    assert(decode_utf8(encode_utf8(b@)) == b@);
    b
}

/// `s` as a string, when its bytes are valid UTF-8 (`std::str::from_utf8`).
#[verifier::external_body]
pub(crate) fn utf8_str(s: &[u8]) -> (r: Option<&str>)
    ensures
        r is Some <==> valid_utf8(s@),
        r matches Some(t) ==> t.spec_bytes() == s@,
{
    std::str::from_utf8(s).ok()
}

/// `b` starts with `p`.
pub open spec fn starts_with(b: Seq<u8>, p: Seq<u8>) -> bool {
    b.len() >= p.len() && b.take(p.len() as int) == p
}

/// `b` ends with `p`.
pub open spec fn ends_with(b: Seq<u8>, p: Seq<u8>) -> bool {
    b.len() >= p.len() && b.skip(b.len() - p.len()) == p
}

/// Whether `b` starts with `p`.
pub fn bytes_starts_with(b: &[u8], p: &[u8]) -> (r: bool)
    ensures
        r == starts_with(b@, p@),
{
    if b.len() < p.len() {
        return false;
    }
    let r = bytes_eq(&b[0..p.len()], p);
    assert(b@.subrange(0, p@.len() as int) =~= b@.take(p@.len() as int));
    r
}

/// Whether `b` ends with `p`.
pub fn bytes_ends_with(b: &[u8], p: &[u8]) -> (r: bool)
    ensures
        r == ends_with(b@, p@),
{
    if b.len() < p.len() {
        return false;
    }
    let r = bytes_eq(&b[b.len() - p.len()..b.len()], p);
    assert(b@.subrange(b@.len() - p@.len(), b@.len() as int) =~= b@.skip(b@.len() - p@.len()));
    r
}

} // verus!
