//! Tables of aligned columns, rendered once all rows are known.
use std::collections::VecDeque;
use vstd::prelude::*;
use vstd::string::*;
use vstd::utf8::encode_utf8;

verus! {

/// Column alignment.
#[derive(Clone, Copy, Debug, PartialEq, Eq, Structural)]
pub enum Align {
    Left,
    Right,
}

/// A rendered cell: its visible width and its bytes.
pub type CellView = (usize, Seq<u8>);

/// Bytes that do not count in a cell's width start with an ASCII control character.
pub open spec fn is_control(b: u8) -> bool {
    b < 32 || b == 127
}

/// The visible width of pieces written one after the other: a piece that starts with a control
/// character (a color code) counts for nothing.
pub open spec fn visible_len(pieces: Seq<Seq<u8>>) -> int
    decreases pieces.len(),
{
    if pieces.len() == 0 {
        0
    } else {
        visible_len(pieces.drop_last()) + (if pieces.last().len() > 0 && !is_control(
            pieces.last()[0],
        ) {
            pieces.last().len() as int
        } else {
            0
        })
    }
}

/// The bytes of pieces written one after the other.
pub open spec fn concat(pieces: Seq<Seq<u8>>) -> Seq<u8>
    decreases pieces.len(),
{
    if pieces.len() == 0 {
        Seq::empty()
    } else {
        concat(pieces.drop_last()) + pieces.last()
    }
}

/// `n` spaces.
pub open spec fn spaces(n: int) -> Seq<u8> {
    Seq::new(n as nat, |i: int| 32u8)
}

/// The padding of a cell: up to its column width, at most 128 spaces.
pub open spec fn pad(width: usize, len: usize) -> Seq<u8> {
    let p = width - len;
    spaces(if p < 128 {
        p
    } else {
        128
    })
}

/// The mathematical value of a [`Table`].
pub struct TableView {
    pub rows: Seq<Seq<CellView>>,
    pub widths: Seq<usize>,
    pub have_header: bool,
    pub lineend: Seq<u8>,
    pub aligns: Seq<Align>,
    pub margins: Seq<Seq<u8>>,
    pub last: usize,
    pub tabs: bool,
}

/// The cells of a row from column `i` on: empty columns are skipped, the others are separated
/// by a tab or by their margin, and padded to their width on the side opposite to their
/// alignment (a left-aligned last column is not padded).
pub open spec fn render_cells(t: TableView, row: Seq<CellView>, i: int, first: bool) -> Seq<u8>
    decreases t.widths.len() - i,
{
    if i < 0 || i >= t.widths.len() {
        Seq::empty()
    } else if t.widths[i] == 0 {
        render_cells(t, row, i + 1, first)
    } else {
        cell_sep(t, i, first) + cell_body(t, row[i], i) + render_cells(t, row, i + 1, false)
    }
}

/// What comes before the cell of column `i`: nothing for the first shown cell, else a tab or
/// the column's margin.
pub open spec fn cell_sep(t: TableView, i: int, first: bool) -> Seq<u8> {
    if first {
        Seq::empty()
    } else if t.tabs {
        seq![9u8]
    } else {
        t.margins[i]
    }
}

/// The cell of column `i`, padded to the column's width on the side opposite to its alignment
/// (a left-aligned last column and tab-separated cells are not padded).
pub open spec fn cell_body(t: TableView, cell: CellView, i: int) -> Seq<u8> {
    let (len, bytes) = cell;
    if t.tabs {
        bytes
    } else {
        match t.aligns[i] {
            Align::Right => pad(t.widths[i], len) + bytes,
            Align::Left => bytes + (if i < t.widths.len() - 1 {
                pad(t.widths[i], len)
            } else {
                Seq::empty()
            }),
        }
    }
}

/// The rendering of the first `k` rows, each followed by the line end.
pub open spec fn render_rows(t: TableView, k: int) -> Seq<u8>
    decreases k,
{
    if k <= 0 {
        Seq::empty()
    } else {
        render_rows(t, k - 1) + render_cells(t, t.rows[k - 1], 0, true) + t.lineend
    }
}

/// A table with `N` columns.
pub struct Table<const N: usize> {
    rows: VecDeque<Vec<(usize, Vec<u8>)>>,
    widths: Vec<usize>,
    have_header: bool,
    lineend: Vec<u8>,
    aligns: Vec<Align>,
    margins: Vec<&'static str>,
    last: usize,
    tabs: bool,
}

/// The value of a row.
pub open spec fn row_view(r: Vec<(usize, Vec<u8>)>) -> Seq<CellView> {
    r@.map_values(|c: (usize, Vec<u8>)| (c.0, c.1@))
}

/// The new widths after a row: the widest cell of each column.
pub open spec fn widen(widths: Seq<usize>, row: Seq<CellView>) -> Seq<usize> {
    Seq::new(
        widths.len(),
        |i: int|
            if row[i].0 > widths[i] {
                row[i].0
            } else {
                widths[i]
            },
    )
}

/// The rows after one more: past `last` rows, the oldest row goes (the header stays first).
pub open spec fn keep_last(rows: Seq<Seq<CellView>>, last: usize, have_header: bool) -> Seq<
    Seq<CellView>,
> {
    if rows.len() > last {
        if have_header && rows.len() >= 2 {
            seq![rows[0]] + rows.skip(2)
        } else {
            rows.skip(1)
        }
    } else {
        rows
    }
}

/// The cell that pieces written one after the other give.
pub open spec fn cell_of(pieces: Seq<Seq<u8>>) -> CellView {
    (visible_len(pieces) as usize, concat(pieces))
}

/// The bytes of the pieces of each cell.
pub open spec fn cells_view(cells: Seq<Vec<String>>) -> Seq<Seq<Seq<u8>>> {
    cells.map_values(|c: Vec<String>| c@.map_values(|s: String| encode_utf8(s@)))
}

/// The table after one more row.
pub open spec fn add_row(t: TableView, row: Seq<CellView>) -> TableView {
    TableView {
        rows: keep_last(t.rows.push(row), t.last, t.have_header),
        widths: widen(t.widths, row),
        ..t
    }
}

impl<const N: usize> Table<N> {
    /// The table as plain values.
    pub closed spec fn view(&self) -> TableView {
        TableView {
            rows: self.rows@.map_values(|r: Vec<(usize, Vec<u8>)>| row_view(r)),
            widths: self.widths@,
            have_header: self.have_header,
            lineend: self.lineend@,
            aligns: self.aligns@,
            margins: self.margins@.map_values(|m: &'static str| m.spec_bytes()),
            last: self.last,
            tabs: self.tabs,
        }
    }

    /// Every column is known, and every cell fits in its column.
    pub closed spec fn wf(&self) -> bool {
        &&& self.widths@.len() == N
        &&& self.aligns@.len() == N
        &&& self.margins@.len() == N
        &&& forall|k: int| 0 <= k < self.rows@.len() ==> #[trigger] self.rows@[k]@.len() == N
        &&& forall|k: int, i: int|
            0 <= k < self.rows@.len() && 0 <= i < N ==> #[trigger] self.rows@[k]@[i].0
                <= self.widths@[i]
    }

    /// An empty table: right-aligned columns after two spaces, lines ending with `clr`.
    pub fn new(clr: &str, tabs: bool) -> (r: Self)
        ensures
            r.wf(),
            r.view().rows == Seq::<Seq<CellView>>::empty(),
            r.view().widths == Seq::new(N as nat, |i: int| 0usize),
            !r.view().have_header,
            r.view().lineend == clr.spec_bytes().push(10u8),
            r.view().aligns == Seq::new(N as nat, |i: int| Align::Right),
            r.view().margins == Seq::new(N as nat, |i: int| encode_utf8("  "@)),
            r.view().last == usize::MAX,
            r.view().tabs == tabs,
    {
        let mut widths: Vec<usize> = Vec::new();
        let mut aligns: Vec<Align> = Vec::new();
        let mut margins: Vec<&'static str> = Vec::new();
        let mut i: usize = 0;
        while i < N
            invariant
                i <= N,
                widths@ == Seq::new(i as nat, |j: int| 0usize),
                aligns@ == Seq::new(i as nat, |j: int| Align::Right),
                margins@ == Seq::new(i as nat, |j: int| "  "),
            decreases N - i,
        {
            widths.push(0);
            aligns.push(Align::Right);
            margins.push("  ");
            assert(widths@ =~= Seq::new((i + 1) as nat, |j: int| 0usize));
            assert(aligns@ =~= Seq::new((i + 1) as nat, |j: int| Align::Right));
            assert(margins@ =~= Seq::new((i + 1) as nat, |j: int| "  "));
            i += 1;
        }
        let mut lineend: Vec<u8> = Vec::new();
        let c = clr.as_bytes();
        let mut j: usize = 0;
        while j < c.len()
            invariant
                j <= c@.len(),
                lineend@ == c@.take(j as int),
            decreases c@.len() - j,
        {
            lineend.push(c[j]);
            assert(lineend@ =~= c@.take(j + 1));
            j += 1;
        }
        assert(c@.take(c@.len() as int) =~= c@);
        lineend.push(10u8);
        let r = Table {
            rows: VecDeque::new(),
            widths,
            have_header: false,
            lineend,
            aligns,
            margins,
            last: usize::MAX,
            tabs,
        };
        assert(r.view().rows =~= Seq::<Seq<CellView>>::empty());
        assert(r.view().margins =~= Seq::new(N as nat, |i: int| encode_utf8("  "@)));
        r
    }
}

impl<const N: usize> Table<N> {
    /// Sets the alignment of a column.
    pub fn align(self, col: usize, align: Align) -> (r: Self)
        requires
            self.wf(),
            col < N,
        ensures
            r.wf(),
            r.view() == (TableView { aligns: self.view().aligns.update(col as int, align), ..self.view() }),
    {
        let mut t = self;
        t.aligns.set(col, align);
        t
    }

    /// Sets the margin printed left of a column (the first printed column has none).
    pub fn margin(self, col: usize, margin: &'static str) -> (r: Self)
        requires
            self.wf(),
            col < N,
        ensures
            r.wf(),
            r.view() == (TableView {
                margins: self.view().margins.update(col as int, margin.spec_bytes()),
                ..self.view()
            }),
    {
        let mut t = self;
        t.margins.set(col, margin);
        assert(t.view().margins =~= self.view().margins.update(col as int, margin.spec_bytes()));
        t
    }

    /// Keeps only the last `last` rows (besides the header).
    pub fn last(self, last: usize) -> (r: Self)
        requires
            self.wf(),
        ensures
            r.wf(),
            r.view() == (TableView { last, ..self.view() }),
    {
        let mut t = self;
        t.last = last;
        t
    }

    /// The cell that pieces give: their bytes, and their width without color codes.
    fn make_cell(pieces: &Vec<String>) -> (r: (usize, Vec<u8>))
        ensures
            (r.0, r.1@) == cell_of(pieces@.map_values(|s: String| encode_utf8(s@))),
    {
        let ghost pv = pieces@.map_values(|s: String| encode_utf8(s@));
        let mut content: Vec<u8> = Vec::new();
        let mut len: usize = 0;
        let mut j: usize = 0;
        while j < pieces.len()
            invariant
                j <= pieces@.len(),
                pv == pieces@.map_values(|s: String| encode_utf8(s@)),
                content@ == concat(pv.take(j as int)),
                len == visible_len(pv.take(j as int)),
                len <= content@.len(),
            decreases pieces@.len() - j,
        {
            let b = pieces[j].as_str().as_bytes();
            assert(pv.take(j + 1).drop_last() =~= pv.take(j as int));
            assert(b@ == pv[j as int]);
            let start = content.len();
            let mut q: usize = 0;
            while q < b.len()
                invariant
                    q <= b@.len(),
                    start <= content@.len(),
                    content@ == concat(pv.take(j as int)) + b@.take(q as int),
                decreases b@.len() - q,
            {
                content.push(b[q]);
                assert(b@.take(q + 1) =~= b@.take(q as int).push(b@[q as int]));
                q += 1;
            }
            assert(b@.take(b@.len() as int) =~= b@);
            let cl = content.len();
            assert(len + b@.len() <= cl);
            if b.len() > 0 && !(b[0] < 32u8 || b[0] == 127u8) {
                len = len + b.len();
            }
            j += 1;
        }
        assert(pv.take(pieces@.len() as int) =~= pv);
        (len, content)
    }

    /// Adds a row; each cell is made of pieces written one after the other, and pieces that
    /// start with a control character (color codes) take no width.
    pub fn row(&mut self, cells: Vec<Vec<String>>)
        requires
            old(self).wf(),
            cells@.len() == N,
            old(self).view().have_header && old(self).view().rows.len() + 1 > old(self).view().last
                ==> old(self).view().rows.len() >= 1,
        ensures
            final(self).wf(),
            final(self).view() == add_row(
                old(self).view(),
                Seq::new(N as nat, |i: int| cell_of(cells_view(cells@)[i])),
            ),
    {
        let ghost t0 = self.view();
        let ghost newrow = Seq::new(N as nat, |i: int| cell_of(cells_view(cells@)[i]));
        let mut r: Vec<(usize, Vec<u8>)> = Vec::new();
        let mut i: usize = 0;
        while i < N
            invariant
                i <= N,
                cells@.len() == N,
                self.wf(),
                row_view(r) == newrow.take(i as int),
                r@.len() == i,
                t0.widths.len() == N,
                self.widths@ == Seq::new(N as nat, |k: int| if k < i { widen(t0.widths, newrow)[k] } else { t0.widths[k] }),
                self.rows@ == old(self).rows@,
                self.aligns@ == old(self).aligns@,
                self.margins@ == old(self).margins@,
                self.last == old(self).last,
                self.have_header == old(self).have_header,
                self.lineend@ == old(self).lineend@,
                self.tabs == old(self).tabs,
                t0 == old(self).view(),
                newrow == Seq::new(N as nat, |k: int| cell_of(cells_view(cells@)[k])),
            decreases N - i,
        {
            let c = Self::make_cell(&cells[i]);
            let ghost cv = (c.0, c.1@);
            assert(cells_view(cells@)[i as int] == cells@[i as int]@.map_values(|s: String| encode_utf8(s@)));
            assert(newrow[i as int] == cv);
            assert(widen(t0.widths, newrow)[i as int] == if cv.0 > t0.widths[i as int] { cv.0 } else { t0.widths[i as int] });
            if c.0 > self.widths[i] {
                self.widths.set(i, c.0);
            }
            let ghost r0 = r@;
            r.push(c);
            assert(r@ == r0.push((cv.0, r@[i as int].1)));
            assert(row_view(r) =~= newrow.take(i + 1));
            assert(self.widths@ =~= Seq::new(N as nat, |k: int| if k < i + 1 { widen(t0.widths, newrow)[k] } else { t0.widths[k] }));
            i += 1;
        }
        assert(row_view(r) =~= newrow);
        assert(self.widths@ =~= widen(t0.widths, newrow));
        self.rows.push_back(r);
        if self.rows.len() > self.last {
            if self.have_header {
                let h = self.rows.pop_front();
                self.rows.pop_front();
                match h {
                    Some(h) => self.rows.push_front(h),
                    None => {},
                }
            } else {
                self.rows.pop_front();
            }
        }
        assert(self.view().rows =~= keep_last(t0.rows.push(newrow), t0.last, t0.have_header));
        assert(self.view() =~= add_row(t0, newrow));
    }
}

/// The row of a header: each title with its byte length as width.
pub open spec fn header_row(titles: Seq<&str>) -> Seq<CellView> {
    titles.map_values(|t: &str| (t.spec_bytes().len() as usize, t.spec_bytes()))
}

/// The table after a header: a blank row first when rows were already added, then the titles,
/// which do not count against `last`.
pub open spec fn add_header(t: TableView, enabled: bool, titles: Seq<&str>) -> TableView {
    if !enabled {
        t
    } else {
        let t1 = if t.rows.len() > 0 {
            add_row(t, Seq::new(t.widths.len(), |i: int| (0usize, Seq::<u8>::empty())))
        } else {
            t
        };
        TableView {
            rows: t1.rows.push(header_row(titles)),
            widths: widen(t1.widths, header_row(titles)),
            last: if t1.last == usize::MAX {
                usize::MAX
            } else {
                (t1.last + 1) as usize
            },
            have_header: true,
            ..t1
        }
    }
}

/// Appends bytes.
fn push_bytes(out: &mut Vec<u8>, b: &[u8])
    ensures
        final(out)@ == old(out)@ + b@,
{
    let mut q: usize = 0;
    while q < b.len()
        invariant
            q <= b@.len(),
            out@ == old(out)@ + b@.take(q as int),
        decreases b@.len() - q,
    {
        out.push(b[q]);
        assert(b@.take(q + 1) =~= b@.take(q as int).push(b@[q as int]));
        q += 1;
    }
    assert(b@.take(b@.len() as int) =~= b@);
}

/// Appends spaces.
fn push_spaces(out: &mut Vec<u8>, n: usize)
    ensures
        final(out)@ == old(out)@ + spaces(n as int),
{
    let mut q: usize = 0;
    while q < n
        invariant
            q <= n,
            out@ == old(out)@ + spaces(q as int),
        decreases n - q,
    {
        out.push(32u8);
        assert(spaces(q + 1) =~= spaces(q as int).push(32u8));
        q += 1;
    }
}

impl<const N: usize> Table<N> {
    /// Adds a section header, when enabled.
    pub fn header(&mut self, enabled: bool, titles: Vec<&str>)
        requires
            old(self).wf(),
            titles@.len() == N,
        ensures
            final(self).wf(),
            final(self).view() == add_header(old(self).view(), enabled, titles@),
    {
        if !enabled {
            return;
        }
        let ghost t0 = self.view();
        if self.rows.len() > 0 {
            let mut blank: Vec<Vec<String>> = Vec::new();
            let mut i: usize = 0;
            while i < N
                invariant
                    i <= N,
                    blank@.len() == i,
                    forall|k: int| 0 <= k < i ==> (#[trigger] blank@[k])@.len() == 0,
                decreases N - i,
            {
                blank.push(Vec::new());
                i += 1;
            }
            assert forall|k: int| 0 <= k < N implies #[trigger] cell_of(cells_view(blank@)[k]) == (
                0usize,
                Seq::<u8>::empty(),
            ) by {
                assert(cells_view(blank@)[k] =~= Seq::<Seq<u8>>::empty());
            }
            assert(Seq::new(N as nat, |i: int| cell_of(cells_view(blank@)[i])) =~= Seq::new(
                t0.widths.len(),
                |i: int| (0usize, Seq::<u8>::empty()),
            ));
            self.row(blank);
        }
        let ghost t1 = self.view();
        let ghost a1 = self.aligns@;
        let ghost m1 = self.margins@;
        let ghost l1 = self.lineend@;
        assert(self.wf());
        self.last = self.last.saturating_add(1);
        self.have_header = true;
        let ghost last2 = self.last;
        let ghost hrow = header_row(titles@);
        let mut r: Vec<(usize, Vec<u8>)> = Vec::new();
        let mut i: usize = 0;
        while i < N
            invariant
                i <= N,
                titles@.len() == N,
                r@.len() == i,
                row_view(r) == hrow.take(i as int),
                hrow == header_row(titles@),
                t1.widths.len() == N,
                self.aligns@ == a1,
                self.margins@ == m1,
                self.lineend@ == l1,
                a1.len() == N,
                m1.len() == N,
                self.last == last2,
                self.have_header,
                self.tabs == t1.tabs,
                forall|j: int| 0 <= j < N ==> t1.widths[j] <= #[trigger] self.widths@[j],
                self.widths@ == Seq::new(
                    N as nat,
                    |k: int|
                        if k < i {
                            widen(t1.widths, hrow)[k]
                        } else {
                            t1.widths[k]
                        },
                ),
                self.rows@.map_values(|r: Vec<(usize, Vec<u8>)>| row_view(r)) == t1.rows,
                forall|k: int| 0 <= k < self.rows@.len() ==> #[trigger] self.rows@[k]@.len() == N,
                forall|k: int, j: int|
                    0 <= k < self.rows@.len() && 0 <= j < N ==> #[trigger] self.rows@[k]@[j].0
                        <= t1.widths[j],
            decreases N - i,
        {
            let t = titles[i];
            let b = t.as_bytes();
            let mut content: Vec<u8> = Vec::new();
            push_bytes(&mut content, b);
            let n = b.len();
            if n > self.widths[i] {
                self.widths.set(i, n);
            }
            let ghost r0 = r@;
            r.push((n, content));
            assert(r@ == r0.push((n, r@[i as int].1)));
            assert(row_view(r) =~= hrow.take(i + 1));
            assert(self.widths@ =~= Seq::new(
                N as nat,
                |k: int|
                    if k < i + 1 {
                        widen(t1.widths, hrow)[k]
                    } else {
                        t1.widths[k]
                    },
            ));
            i += 1;
        }
        assert(row_view(r) =~= hrow);
        assert(self.widths@ =~= widen(t1.widths, hrow));
        self.rows.push_back(r);
        assert(self.view().rows =~= t1.rows.push(hrow));
        assert(self.view() =~= add_header(t0, enabled, titles@));
    }

    /// Appends the cell of column `i`, with what comes before it.
    fn push_cell(&self, out: &mut Vec<u8>, i: usize, len: usize, bytes: &[u8], first: bool)
        requires
            self.wf(),
            i < N,
            len <= self.widths@[i as int],
        ensures
            final(out)@ == old(out)@ + cell_sep(self.view(), i as int, first) + cell_body(
                self.view(),
                (len, bytes@),
                i as int,
            ),
    {
        let ghost t = self.view();
        let ghost o0 = out@;
        if self.tabs {
            if !first {
                out.push(9u8);
            }
            push_bytes(out, bytes);
            assert(out@ =~= o0 + cell_sep(t, i as int, first) + cell_body(t, (len, bytes@), i as int));
        } else {
            if !first {
                let m = self.margins[i];
                assert(t.margins[i as int] == m.spec_bytes());
                push_bytes(out, m.as_bytes());
            }
            assert(out@ =~= o0 + cell_sep(t, i as int, first));
            let ghost o1 = out@;
            let p = self.widths[i] - len;
            let pn: usize = if p < 128 {
                p
            } else {
                128
            };
            match self.aligns[i] {
                Align::Right => {
                    push_spaces(out, pn);
                    push_bytes(out, bytes);
                },
                Align::Left => {
                    push_bytes(out, bytes);
                    if i < N - 1 {
                        push_spaces(out, pn);
                    }
                },
            }
            assert(out@ =~= o1 + cell_body(t, (len, bytes@), i as int));
        }
    }

    /// The whole table, aligned.
    pub fn render(&self) -> (r: Vec<u8>)
        requires
            self.wf(),
        ensures
            r@ == render_rows(self.view(), self.view().rows.len() as int),
    {
        let ghost t = self.view();
        let mut out: Vec<u8> = Vec::new();
        let mut k: usize = 0;
        while k < self.rows.len()
            invariant
                self.wf(),
                t == self.view(),
                k <= self.rows@.len(),
                out@ == render_rows(t, k as int),
            decreases self.rows@.len() - k,
        {
            let row = &self.rows[k];
            let ghost rv = t.rows[k as int];
            assert(rv == row_view(*row));
            let ghost before = out@;
            let mut first = true;
            let mut i: usize = 0;
            while i < N
                invariant
                    self.wf(),
                    t == self.view(),
                    i <= N,
                    row@.len() == N,
                    rv == row_view(*row),
                    forall|j: int| 0 <= j < N ==> (#[trigger] row@[j]).0 <= self.widths@[j],
                    before + render_cells(t, rv, 0, true) == out@ + render_cells(t, rv, i as int, first),
                decreases N - i,
            {
                if self.widths[i] != 0 {
                    let ghost o0 = out@;
                    assert(rv[i as int] == (row@[i as int].0, row@[i as int].1@));
                    self.push_cell(&mut out, i, row[i].0, row[i].1.as_slice(), first);
                    let ghost x = cell_sep(t, i as int, first);
                    let ghost y = cell_body(t, rv[i as int], i as int);
                    let ghost z = render_cells(t, rv, i + 1, false);
                    assert(o0 + (x + y + z) =~= o0 + x + y + z);
                    first = false;
                }
                i += 1;
            }
            push_bytes(&mut out, self.lineend.as_slice());
            k += 1;
        }
        out
    }
}


/// With `--last N`, a table never holds more than `N` rows besides its header: adding a row
/// keeps within the limit, keeps the header first, and keeps the new row unless the limit leaves
/// no room for it.
pub proof fn lemma_table_last(t: TableView, row: Seq<CellView>)
    requires
        t.rows.len() <= t.last,
    ensures
        add_row(t, row).rows.len() <= t.last,
        add_row(t, row).last == t.last,
        t.have_header && t.rows.len() >= 1 ==> add_row(t, row).rows[0] == t.rows[0],
        t.last >= 1 && (t.have_header ==> t.last >= 2) && (t.have_header ==> t.rows.len() >= 1)
            ==> add_row(t, row).rows.last() == row,
{
    let r = t.rows.push(row);
    if r.len() > t.last && t.have_header && r.len() >= 3 {
        assert((seq![r[0]] + r.skip(2)).last() == r.last());
    }
}

} // verus!
