use vstd::prelude::*;

use std::collections::HashMap;

use crate::address::CellRef;
use crate::text::{chars_of, string_of, trim, trim_bounds};

verus! {

#[verifier::external_type_specification]
#[verifier::external_body]
pub struct ExUtf8Error(std::str::Utf8Error);

/// Where the CSV reader stands between two characters: the rows finished so
/// far, the fields of the current row, the text of the current field, whether
/// that field started with a quote, and whether the reader is inside quotes.
pub struct CsvState {
    pub rows: Seq<Seq<Seq<char>>>,
    pub row: Seq<Seq<char>>,
    pub field: Seq<char>,
    pub quoted: bool,
    pub in_quotes: bool,
}

/// The state before the first character.
pub open spec fn csv_start() -> CsvState {
    CsvState { rows: seq![], row: seq![], field: seq![], quoted: false, in_quotes: false }
}

/// A field ends: quoted fields are kept verbatim, unquoted ones are trimmed.
pub open spec fn csv_end_field(st: CsvState) -> CsvState {
    CsvState {
        row: st.row.push(if st.quoted { st.field } else { trim(st.field) }),
        field: seq![],
        quoted: false,
        ..st
    }
}

/// A row ends, ending its last field first.
pub open spec fn csv_end_row(st: CsvState) -> CsvState {
    let s = csv_end_field(st);
    CsvState { rows: s.rows.push(s.row), row: seq![], ..s }
}

/// `c` becomes part of the current field.
pub open spec fn csv_push(st: CsvState, c: char) -> CsvState {
    CsvState { field: st.field.push(c), ..st }
}

/// The character after position `i` is `c`.
pub open spec fn next_is(chars: Seq<char>, i: int, c: char) -> bool {
    i + 1 < chars.len() && chars[i + 1] == c
}

/// How the reader moves on at position `i`: the new state and the position
/// of the next character to read.
pub open spec fn csv_step(chars: Seq<char>, i: int, st: CsvState) -> (CsvState, int) {
    let c = chars[i];
    if st.in_quotes {
        if c == '"' && next_is(chars, i, '"') {
            (csv_push(st, '"'), i + 2)
        } else if c == '"' {
            (CsvState { in_quotes: false, ..st }, i + 1)
        } else {
            (csv_push(st, c), i + 1)
        }
    } else if c == '"' && st.field.len() == 0 && !st.quoted {
        (CsvState { in_quotes: true, quoted: true, ..st }, i + 1)
    } else if c == ',' {
        (csv_end_field(st), i + 1)
    } else if c == '\n' {
        (csv_end_row(st), i + 1)
    } else if c == '\r' {
        if next_is(chars, i, '\n') {
            (st, i + 1)
        } else {
            (csv_end_row(st), i + 1)
        }
    } else {
        (csv_push(st, c), i + 1)
    }
}

/// The rows once the input is used up: a pending row is kept unless it is
/// completely empty.
pub open spec fn csv_finish(st: CsvState) -> Seq<Seq<Seq<char>>> {
    if st.field.len() > 0 || st.quoted || st.row.len() > 0 {
        csv_end_row(st).rows
    } else {
        st.rows
    }
}

/// The rows read from `chars[i..]` when the reader is in state `st` at `i`.
pub open spec fn csv_from(chars: Seq<char>, i: int, st: CsvState) -> Seq<Seq<Seq<char>>>
    decreases chars.len() - i,
{
    if i < 0 || i >= chars.len() {
        csv_finish(st)
    } else {
        let (next, j) = csv_step(chars, i, st);
        csv_from(chars, j, next)
    }
}

/// The rows of fields in CSV text.
pub open spec fn csv_rows(chars: Seq<char>) -> Seq<Seq<Seq<char>>> {
    csv_from(chars, 0, csv_start())
}

struct CsvReader {
    rows: Vec<Vec<String>>,
    row: Vec<String>,
    field: Vec<char>,
    quoted: bool,
    in_quotes: bool,
}

impl CsvReader {
    spec fn state(&self) -> CsvState {
        CsvState {
            rows: self.rows.deep_view(),
            row: self.row.deep_view(),
            field: self.field@,
            quoted: self.quoted,
            in_quotes: self.in_quotes,
        }
    }

    fn end_field(&mut self)
        ensures
            final(self).state() == csv_end_field(old(self).state()),
    {
        let value = if self.quoted {
            string_of(&self.field, 0, self.field.len())
        } else {
            let (a, b) = trim_bounds(&self.field, 0, self.field.len());
            string_of(&self.field, a, b)
        };
        proof {
            assert(self.field@.subrange(0, self.field@.len() as int) == self.field@);
        }
        let ghost old_row = self.row.deep_view();
        self.row.push(value);
        assert(self.row.deep_view() == old_row.push(value@));
        self.field = Vec::new();
        self.quoted = false;
    }

    fn end_row(&mut self)
        ensures
            final(self).state() == csv_end_row(old(self).state()),
    {
        self.end_field();
        let ghost old_rows = self.rows.deep_view();
        let mut row: Vec<String> = Vec::new();
        std::mem::swap(&mut row, &mut self.row);
        self.rows.push(row);
        assert(self.rows.deep_view() == old_rows.push(row.deep_view()));
        assert(self.row.deep_view() =~= Seq::<Seq<char>>::empty());
    }
}

/// Splits CSV text into rows of fields. Fields may be quoted with `"`, which
/// lets them hold commas and line breaks; `""` inside quotes is one literal
/// quote. Unquoted fields are trimmed of surrounding white space, quoted ones
/// are kept verbatim. Rows end at `\n`, `\r\n` or a lone `\r`.
pub fn parse_csv(input: &str) -> (res: Vec<Vec<String>>)
    ensures
        res.deep_view() == csv_rows(input@),
{
    let chars = chars_of(input);
    let mut rd = CsvReader {
        rows: Vec::new(),
        row: Vec::new(),
        field: Vec::new(),
        quoted: false,
        in_quotes: false,
    };
    assert(rd.rows.deep_view() =~= Seq::<Seq<Seq<char>>>::empty());
    assert(rd.row.deep_view() =~= Seq::<Seq<char>>::empty());
    assert(rd.state() == csv_start());
    let n = chars.len();
    let mut i: usize = 0;
    while i < n
        invariant
            n == chars.len(),
            i <= n,
            csv_from(chars@, i as int, rd.state()) == csv_rows(chars@),
        decreases n - i,
    {
        let ghost before = rd.state();
        let c = chars[i];
        let next_quote = i + 1 < n && chars[i + 1] == '"';
        let next_newline = i + 1 < n && chars[i + 1] == '\n';
        let mut j = i + 1;
        if rd.in_quotes {
            if c == '"' && next_quote {
                rd.field.push('"');
                j = i + 2;
            } else if c == '"' {
                rd.in_quotes = false;
            } else {
                rd.field.push(c);
            }
        } else if c == '"' && rd.field.len() == 0 && !rd.quoted {
            rd.in_quotes = true;
            rd.quoted = true;
        } else if c == ',' {
            rd.end_field();
        } else if c == '\n' {
            rd.end_row();
        } else if c == '\r' {
            if !next_newline {
                rd.end_row();
            }
        } else {
            rd.field.push(c);
        }
        assert(csv_step(chars@, i as int, before) == (rd.state(), j as int));
        i = j;
    }
    if rd.field.len() > 0 || rd.quoted || rd.row.len() > 0 {
        rd.end_row();
    }
    rd.rows
}

broadcast use vstd::std_specs::hash::group_hash_axioms;

/// The hash key under which a cell is stored: the column in the high 32 bits,
/// the row in the low 32 bits.
pub open spec fn cell_key(c: CellRef) -> u64 {
    (c.col as int * 0x1_0000_0000 + c.row as int) as u64
}

/// The cell stored under a hash key.
pub open spec fn key_cell(k: u64) -> CellRef {
    CellRef { col: (k / 0x1_0000_0000) as u32, row: (k % 0x1_0000_0000) as u32 }
}

proof fn lemma_key_cell(c: CellRef)
    ensures
        key_cell(cell_key(c)) == c,
        0 <= c.col as int * 0x1_0000_0000 + c.row as int <= u64::MAX,
{
    let k = c.col as int * 0x1_0000_0000 + c.row as int;
    assert(k / 0x1_0000_0000 == c.col && k % 0x1_0000_0000 == c.row) by (nonlinear_arith)
        requires
            k == c.col as int * 0x1_0000_0000 + c.row as int,
            0 <= c.row < 0x1_0000_0000,
    ;
}

proof fn lemma_cell_key(k: u64)
    ensures
        cell_key(key_cell(k)) == k,
{
    let q = k as int / 0x1_0000_0000;
    let r = k as int % 0x1_0000_0000;
    assert(q * 0x1_0000_0000 + r == k && 0 <= q < 0x1_0000_0000 && 0 <= r < 0x1_0000_0000)
        by (nonlinear_arith)
        requires
            q == k as int / 0x1_0000_0000,
            r == k as int % 0x1_0000_0000,
            0 <= k <= u64::MAX,
    ;
}

fn key_of(c: CellRef) -> (k: u64)
    ensures
        k == cell_key(c),
{
    proof {
        lemma_key_cell(c);
    }
    c.col as u64 * 0x1_0000_0000 + c.row as u64
}

/// A sparse grid of raw cell text, keyed by address. Formula text such as
/// `=SUM(A1:A3)` is stored as written, not evaluated.
#[derive(Debug)]
pub struct Grid {
    cells: HashMap<u64, String>,
}

impl View for Grid {
    type V = Map<CellRef, Seq<char>>;

    closed spec fn view(&self) -> Map<CellRef, Seq<char>> {
        Map::new(
            |c: CellRef| self.cells@.contains_key(cell_key(c)),
            |c: CellRef| self.cells@[cell_key(c)]@,
        )
    }
}

impl Default for Grid {
    fn default() -> (g: Grid)
        ensures
            g@ == Map::<CellRef, Seq<char>>::empty(),
            g@.dom().finite(),
    {
        Grid::new()
    }
}

/// Places the first `n` fields of row `r`, skipping empty ones; a later field
/// replaces an earlier one at the same address.
pub open spec fn place_fields(
    m: Map<CellRef, Seq<char>>,
    row: Seq<Seq<char>>,
    r: int,
    n: int,
) -> Map<CellRef, Seq<char>>
    decreases n,
{
    if n <= 0 {
        m
    } else {
        let m2 = place_fields(m, row, r, n - 1);
        if row[n - 1].len() == 0 {
            m2
        } else {
            m2.insert(CellRef { col: (n - 1) as u32, row: r as u32 }, row[n - 1])
        }
    }
}

/// The cells that the first `n` rows fill.
pub open spec fn place_rows(rows: Seq<Seq<Seq<char>>>, n: int) -> Map<CellRef, Seq<char>>
    decreases n,
{
    if n <= 0 {
        Map::empty()
    } else {
        place_fields(place_rows(rows, n - 1), rows[n - 1], n - 1, rows[n - 1].len() as int)
    }
}

/// The grid of the CSV text `chars`: each non-empty field at its column and
/// row index.
pub open spec fn csv_grid(chars: Seq<char>) -> Map<CellRef, Seq<char>> {
    let rows = csv_rows(chars);
    place_rows(rows, rows.len() as int)
}

/// Decodes `bytes` as UTF-8 (`std::str::from_utf8`).
#[verifier::external_body]
fn decode_utf8(bytes: &[u8]) -> (res: Result<&str, std::str::Utf8Error>)
    ensures
        res is Ok <==> vstd::utf8::valid_utf8(bytes@),
        res matches Ok(s) ==> s@ == vstd::utf8::decode_utf8(bytes@),
{
    std::str::from_utf8(bytes)
}

impl Grid {
    proof fn lemma_len(&self)
        ensures
            self@.dom().finite(),
            self@.dom().len() == self.cells@.len(),
    {
        let d = self.cells@.dom();
        let f = |k: u64| key_cell(k);
        assert(d.finite());
        assert forall|a: u64, b: u64| d.contains(a) && d.contains(b) && f(a) == f(b) implies a
            == b by {
            lemma_cell_key(a);
            lemma_cell_key(b);
        }
        assert(vstd::relations::injective_on(f, d));
        assert forall|c: CellRef| #[trigger] self@.dom().contains(c) <==> d.map(f).contains(c) by {
            if self@.dom().contains(c) {
                lemma_key_cell(c);
                assert(d.contains(cell_key(c)));
            }
            if d.map(f).contains(c) {
                let k = choose|k: u64| d.contains(k) && f(k) == c;
                lemma_cell_key(k);
            }
        }
        assert(d.map(f) == self@.dom());
        vstd::set_lib::lemma_map_size(d, self@.dom(), f);
    }

    /// The cells of a grid are finitely many.
    pub proof fn lemma_view_finite(&self)
        ensures
            self@.dom().finite(),
    {
        self.lemma_len();
    }

    pub fn new() -> (g: Grid)
        ensures
            g@ == Map::<CellRef, Seq<char>>::empty(),
            g@.dom().finite(),
    {
        let g = Grid { cells: HashMap::new() };
        assert(g@ =~= Map::<CellRef, Seq<char>>::empty());
        g
    }

    /// The raw text stored at `cell`, if any.
    pub fn get(&self, cell: CellRef) -> (res: Option<&str>)
        ensures
            match res {
                Some(s) => self@.contains_key(cell) && s@ == self@[cell],
                None => !self@.contains_key(cell),
            },
    {
        let k = key_of(cell);
        match self.cells.get(&k) {
            Some(s) => Some(s.as_str()),
            None => None,
        }
    }

    /// Stores `value` at `cell`, replacing what was there.
    pub fn set(&mut self, cell: CellRef, value: String)
        ensures
            final(self)@ == old(self)@.insert(cell, value@),
            final(self)@.dom().finite(),
            final(self)@.len() == old(self)@.len() + if old(self)@.contains_key(cell) {
                0int
            } else {
                1int
            },
    {
        proof {
            self.lemma_len();
        }
        let k = key_of(cell);
        let ghost v = value@;
        self.cells.insert(k, value);
        proof {
            assert forall|c: CellRef| #![auto] c != cell implies cell_key(c) != k by {
                lemma_key_cell(c);
                lemma_key_cell(cell);
            }
        }
        assert(self@ =~= old(self)@.insert(cell, v));
        proof {
            self.lemma_len();
            lemma_set_then_get(old(self)@, cell, v, cell);
        }
    }

    /// The cell holds text that starts with `=`.
    pub fn is_formula(&self, cell: CellRef) -> (res: bool)
        ensures
            res == (self@.contains_key(cell) && self@[cell].len() > 0 && self@[cell][0] == '='),
    {
        match self.get(cell) {
            Some(text) => {
                let chars = chars_of(text);
                chars.len() > 0 && chars[0] == '='
            },
            None => false,
        }
    }

    /// The number of stored cells.
    pub fn len(&self) -> (res: usize)
        ensures
            res == self@.len(),
            self@.dom().finite(),
    {
        proof {
            self.lemma_len();
        }
        self.cells.len()
    }

    /// No cell is stored.
    pub fn is_empty(&self) -> (res: bool)
        ensures
            res == (self@.len() == 0),
            self@.dom().finite(),
    {
        proof {
            self.lemma_len();
        }
        self.cells.is_empty()
    }

    /// The grid of CSV text: each non-empty field is stored at its column and
    /// row index; empty fields leave their cell unset.
    pub fn from_csv(text: &str) -> (g: Grid)
        ensures
            g@ == csv_grid(text@),
    {
        let rows = parse_csv(text);
        let ghost rv = rows.deep_view();
        let mut g = Grid::new();
        let mut r: usize = 0;
        while r < rows.len()
            invariant
                r <= rows.len(),
                rv == rows.deep_view(),
                g@ == place_rows(rv, r as int),
            decreases rows.len() - r,
        {
            let row = &rows[r];
            let ghost before = g@;
            let mut c: usize = 0;
            while c < row.len()
                invariant
                    r < rows.len(),
                    c <= row.len(),
                    rv == rows.deep_view(),
                    row.deep_view() == rv[r as int],
                    before == place_rows(rv, r as int),
                    g@ == place_fields(before, rv[r as int], r as int, c as int),
                decreases row.len() - c,
            {
                let value = &row[c];
                assert(value@ == rv[r as int][c as int]);
                if !value.as_str().is_empty() {
                    g.set(CellRef::new(c as u32, r as u32), value.clone());
                }
                c += 1;
            }
            r += 1;
        }
        g
    }

    /// Reads a grid from CSV bytes, which must be UTF-8.
    pub fn from_reader(bytes: &[u8]) -> (res: Result<Grid, std::str::Utf8Error>)
        ensures
            res is Ok <==> vstd::utf8::valid_utf8(bytes@),
            res matches Ok(g) ==> g@ == csv_grid(vstd::utf8::decode_utf8(bytes@)),
    {
        match decode_utf8(bytes) {
            Ok(text) => Ok(Grid::from_csv(text)),
            Err(e) => Err(e),
        }
    }
}


proof fn lemma_place_fields(
    m: Map<CellRef, Seq<char>>,
    row: Seq<Seq<char>>,
    r: int,
    n: int,
    c: CellRef,
)
    requires
        0 <= r <= u32::MAX,
        0 <= n <= row.len(),
        row.len() <= u32::MAX + 1,
    ensures
        ({
            let here = c.row == r && c.col < n && row[c.col as int].len() > 0;
            let m2 = place_fields(m, row, r, n);
            &&& m2.contains_key(c) <==> (here || m.contains_key(c))
            &&& here ==> m2[c] == row[c.col as int]
            &&& !here && m.contains_key(c) ==> m2[c] == m[c]
        }),
    decreases n,
{
    if n > 0 {
        lemma_place_fields(m, row, r, n - 1, c);
    }
}

proof fn lemma_place_rows(rows: Seq<Seq<Seq<char>>>, n: int, c: CellRef)
    requires
        0 <= n <= rows.len(),
        rows.len() <= u32::MAX + 1,
        forall|i: int| 0 <= i < rows.len() ==> #[trigger] rows[i].len() <= u32::MAX + 1,
    ensures
        ({
            let here = c.row < n && c.col < rows[c.row as int].len()
                && rows[c.row as int][c.col as int].len() > 0;
            &&& place_rows(rows, n).contains_key(c) <==> here
            &&& here ==> place_rows(rows, n)[c] == rows[c.row as int][c.col as int]
        }),
    decreases n,
{
    if n > 0 {
        lemma_place_rows(rows, n - 1, c);
        lemma_place_fields(
            place_rows(rows, n - 1),
            rows[n - 1],
            n - 1,
            rows[n - 1].len() as int,
            c,
        );
    }
}

/// In the grid read from CSV text, the cell at column `j` and row `i` holds
/// field `j` of row `i` exactly when that field exists and is non-empty; no
/// other cell is set. (Row and field counts up to `2^32`, the range of cell
/// indices.)
pub proof fn lemma_csv_grid_cells(chars: Seq<char>, c: CellRef)
    requires
        csv_rows(chars).len() <= u32::MAX + 1,
        forall|i: int|
            0 <= i < csv_rows(chars).len() ==> #[trigger] csv_rows(chars)[i].len() <= u32::MAX
                + 1,
    ensures
        ({
            let rows = csv_rows(chars);
            let here = c.row < rows.len() && c.col < rows[c.row as int].len()
                && rows[c.row as int][c.col as int].len() > 0;
            &&& csv_grid(chars).contains_key(c) <==> here
            &&& here ==> csv_grid(chars)[c] == rows[c.row as int][c.col as int]
        }),
{
    let rows = csv_rows(chars);
    lemma_place_rows(rows, rows.len() as int, c);
}


/// Storing text in a cell and reading it back gives that text, every
/// other cell keeps what it held, and the number of cells grows by one
/// exactly when the cell was unset (`set` then `get` and `len`, over the
/// grid's view).
pub proof fn lemma_set_then_get(g: Map<CellRef, Seq<char>>, c: CellRef, v: Seq<char>, d: CellRef)
    ensures
        g.insert(c, v).contains_key(c),
        g.insert(c, v)[c] == v,
        d != c ==> (g.insert(c, v).contains_key(d) <==> g.contains_key(d)),
        d != c && g.contains_key(d) ==> g.insert(c, v)[d] == g[d],
        g.dom().finite() ==> g.insert(c, v).dom().finite() && g.insert(c, v).len() == g.len()
            + if g.contains_key(c) {
            0int
        } else {
            1int
        },
{
    if g.dom().finite() {
        assert(g.insert(c, v).dom() == g.dom().insert(c));
        if g.contains_key(c) {
            assert(g.dom().insert(c) == g.dom());
        }
    }
}

/// The grid after a sequence of `set` calls, in order.
pub open spec fn apply_sets(
    g: Map<CellRef, Seq<char>>,
    writes: Seq<(CellRef, Seq<char>)>,
) -> Map<CellRef, Seq<char>>
    decreases writes.len(),
{
    if writes.len() == 0 {
        g
    } else {
        apply_sets(g, writes.drop_last()).insert(writes.last().0, writes.last().1)
    }
}

/// A value stored in a cell is still what `get` reads there after any
/// number of later `set` calls on other cells.
pub proof fn lemma_set_survives_later_sets(
    g: Map<CellRef, Seq<char>>,
    c: CellRef,
    v: Seq<char>,
    writes: Seq<(CellRef, Seq<char>)>,
)
    requires
        forall|i: int| 0 <= i < writes.len() ==> (#[trigger] writes[i]).0 != c,
    ensures
        apply_sets(g.insert(c, v), writes).contains_key(c),
        apply_sets(g.insert(c, v), writes)[c] == v,
    decreases writes.len(),
{
    if writes.len() > 0 {
        let w = writes.drop_last();
        assert forall|i: int| 0 <= i < w.len() implies (#[trigger] w[i]).0 != c by {
            assert(w[i] == writes[i]);
        }
        lemma_set_survives_later_sets(g, c, v, w);
        assert(writes[writes.len() - 1].0 != c);
    }
}


/// The body of a quoted CSV field: each `"` written twice.
pub open spec fn escape(f: Seq<char>) -> Seq<char>
    decreases f.len(),
{
    if f.len() == 0 {
        seq![]
    } else {
        (if f[0] == '"' {
            seq!['"', '"']
        } else {
            seq![f[0]]
        }) + escape(f.drop_first())
    }
}

/// A field written in quotes.
pub open spec fn quote_field(f: Seq<char>) -> Seq<char> {
    seq!['"'] + escape(f) + seq!['"']
}

/// A row of fields, each quoted, separated by commas.
pub open spec fn quoted_row(r: Seq<Seq<char>>) -> Seq<char>
    decreases r.len(),
{
    if r.len() == 0 {
        seq![]
    } else if r.len() == 1 {
        quote_field(r[0])
    } else {
        quote_field(r[0]) + seq![','] + quoted_row(r.drop_first())
    }
}

/// Rows written as quoted rows separated by line breaks.
pub open spec fn quoted_csv(rows: Seq<Seq<Seq<char>>>) -> Seq<char>
    decreases rows.len(),
{
    if rows.len() == 0 {
        seq![]
    } else if rows.len() == 1 {
        quoted_row(rows[0])
    } else {
        quoted_row(rows[0]) + seq!['\n'] + quoted_csv(rows.drop_first())
    }
}

proof fn lemma_sub_split(chars: Seq<char>, i: int, j: int, a: Seq<char>, b: Seq<char>)
    requires
        0 <= i <= j <= chars.len(),
        chars.subrange(i, j) == a + b,
    ensures
        i + a.len() + b.len() == j,
        chars.subrange(i, i + a.len()) == a,
        chars.subrange(i + a.len(), j) == b,
{
    assert(chars.subrange(i, j).len() == j - i);
    assert(chars.subrange(i, i + a.len()) =~= chars.subrange(i, j).subrange(0, a.len() as int));
    assert((a + b).subrange(0, a.len() as int) =~= a);
    assert(chars.subrange(i + a.len(), j) =~= chars.subrange(i, j).subrange(
        a.len() as int,
        j - i,
    ));
    assert((a + b).subrange(a.len() as int, (a + b).len() as int) =~= b);
}

proof fn lemma_read_escaped(chars: Seq<char>, i: int, f: Seq<char>, st: CsvState)
    requires
        st.in_quotes,
        0 <= i,
        i + escape(f).len() < chars.len(),
        chars.subrange(i, i + escape(f).len()) == escape(f),
        chars[i + escape(f).len()] == '"',
        !next_is(chars, i + escape(f).len(), '"'),
    ensures
        csv_from(chars, i, st) == csv_from(
            chars,
            i + escape(f).len(),
            CsvState { field: st.field + f, ..st },
        ),
    decreases f.len(),
{
    let e = escape(f);
    if f.len() == 0 {
        assert(st.field + f =~= st.field);
        assert(CsvState { field: st.field + f, ..st } == st);
    } else {
        let rest = f.drop_first();
        let h = if f[0] == '"' {
            seq!['"', '"']
        } else {
            seq![f[0]]
        };
        assert(e == h + escape(rest));
        let k = i + e.len();
        lemma_sub_split(chars, i, k, h, escape(rest));
        assert(chars[i] == chars.subrange(i, i + h.len())[0]);
        let st2 = csv_push(st, f[0]);
        if f[0] == '"' {
            assert(chars[i + 1] == chars.subrange(i, i + h.len())[1]);
            assert(csv_step(chars, i, st) == (st2, i + 2));
        } else {
            assert(csv_step(chars, i, st) == (st2, i + 1));
        }
        lemma_read_escaped(chars, i + h.len(), rest, st2);
        assert(st2.field + rest =~= st.field + f);
    }
}

proof fn lemma_read_quoted_field(chars: Seq<char>, i: int, f: Seq<char>, st: CsvState)
    requires
        !st.in_quotes,
        !st.quoted,
        st.field.len() == 0,
        0 <= i,
        i + quote_field(f).len() <= chars.len(),
        chars.subrange(i, i + quote_field(f).len()) == quote_field(f),
        ({
            let j = i + quote_field(f).len();
            j == chars.len() || chars[j] != '"'
        }),
    ensures
        csv_from(chars, i, st) == csv_from(
            chars,
            i + quote_field(f).len(),
            CsvState { field: f, quoted: true, in_quotes: false, ..st },
        ),
{
    let e = escape(f);
    let j = i + quote_field(f).len();
    lemma_sub_split(chars, i, j, seq!['"'] + e, seq!['"']);
    lemma_sub_split(chars, i, j - 1, seq!['"'], e);
    assert(chars[i] == chars.subrange(i, i + 1)[0]);
    assert(chars[j - 1] == chars.subrange(j - 1, j)[0]);
    let st1 = CsvState { in_quotes: true, quoted: true, ..st };
    assert(csv_step(chars, i, st) == (st1, i + 1));
    lemma_read_escaped(chars, i + 1, f, st1);
    let st2 = CsvState { field: st1.field + f, ..st1 };
    assert(st1.field + f =~= f);
    let st3 = CsvState { in_quotes: false, ..st2 };
    assert(csv_step(chars, j - 1, st2) == (st3, j));
    assert(st3 == CsvState { field: f, quoted: true, in_quotes: false, ..st });
}

proof fn lemma_read_quoted_row(chars: Seq<char>, i: int, r: Seq<Seq<char>>, st: CsvState)
    requires
        r.len() >= 1,
        !st.in_quotes,
        !st.quoted,
        st.field.len() == 0,
        0 <= i,
        i + quoted_row(r).len() <= chars.len(),
        chars.subrange(i, i + quoted_row(r).len()) == quoted_row(r),
        ({
            let j = i + quoted_row(r).len();
            j == chars.len() || chars[j] != '"'
        }),
    ensures
        csv_from(chars, i, st) == csv_from(
            chars,
            i + quoted_row(r).len(),
            CsvState { row: st.row + r.drop_last(), field: r.last(), quoted: true, in_quotes: false, ..st },
        ),
    decreases r.len(),
{
    let j = i + quoted_row(r).len();
    if r.len() == 1 {
        lemma_read_quoted_field(chars, i, r[0], st);
        assert(st.row + r.drop_last() =~= st.row);
    } else {
        let q = quote_field(r[0]);
        let rest = r.drop_first();
        assert(quoted_row(r) == q + seq![','] + quoted_row(rest));
        lemma_sub_split(chars, i, j, q + seq![','], quoted_row(rest));
        lemma_sub_split(chars, i, i + q.len() + 1, q, seq![',']);
        let k = i + q.len();
        assert(chars[k] == chars.subrange(k, k + 1)[0]);
        lemma_read_quoted_field(chars, i, r[0], st);
        let st2 = CsvState { field: r[0], quoted: true, in_quotes: false, ..st };
        let st3 = csv_end_field(st2);
        assert(csv_step(chars, k, st2) == (st3, k + 1));
        lemma_read_quoted_row(chars, k + 1, rest, st3);
        assert(st3.row + rest.drop_last() =~= st.row + r.drop_last());
        assert(rest.last() == r.last());
    }
}

/// The line breaks that end a CSV row: `\n`, `\r\n` or a lone `\r`.
pub open spec fn is_line_break(eol: Seq<char>) -> bool {
    eol == seq!['\n'] || eol == seq!['\r', '\n'] || eol == seq!['\r']
}

/// Rows written as quoted rows separated by the line break `eol`.
pub open spec fn quoted_csv_with(rows: Seq<Seq<Seq<char>>>, eol: Seq<char>) -> Seq<char>
    decreases rows.len(),
{
    if rows.len() == 0 {
        seq![]
    } else if rows.len() == 1 {
        quoted_row(rows[0])
    } else {
        quoted_row(rows[0]) + eol + quoted_csv_with(rows.drop_first(), eol)
    }
}

proof fn lemma_quoted_csv_newline(rows: Seq<Seq<Seq<char>>>)
    ensures
        quoted_csv(rows) == quoted_csv_with(rows, seq!['\n']),
    decreases rows.len(),
{
    if rows.len() > 1 {
        lemma_quoted_csv_newline(rows.drop_first());
    }
}

proof fn lemma_quoted_csv_starts(rows: Seq<Seq<Seq<char>>>, eol: Seq<char>)
    requires
        rows.len() >= 1,
        rows[0].len() >= 1,
    ensures
        quoted_csv_with(rows, eol).len() > 0,
        quoted_csv_with(rows, eol)[0] == '"',
{
    let r = rows[0];
    let q = quote_field(r[0]);
    assert(q[0] == '"');
    if r.len() > 1 {
        assert(quoted_row(r) == q + seq![','] + quoted_row(r.drop_first()));
    }
    assert(quoted_row(r)[0] == '"');
    if rows.len() > 1 {
        assert(quoted_csv_with(rows, eol) == quoted_row(r) + eol + quoted_csv_with(
            rows.drop_first(),
            eol,
        ));
    }
}

proof fn lemma_read_line_break(chars: Seq<char>, j: int, eol: Seq<char>, st: CsvState)
    requires
        is_line_break(eol),
        !st.in_quotes,
        0 <= j,
        j + eol.len() <= chars.len(),
        chars.subrange(j, j + eol.len()) == eol,
        j + eol.len() == chars.len() || chars[j + eol.len()] == '"',
    ensures
        csv_from(chars, j, st) == csv_from(chars, j + eol.len(), csv_end_row(st)),
{
    assert(chars[j] == chars.subrange(j, j + eol.len())[0]);
    if eol == seq!['\r', '\n'] {
        assert(chars[j + 1] == chars.subrange(j, j + eol.len())[1]);
        assert(csv_step(chars, j, st) == (st, j + 1));
        assert(csv_from(chars, j, st) == csv_from(chars, j + 1, st));
        assert(csv_step(chars, j + 1, st) == (csv_end_row(st), j + 2));
    } else {
        assert(csv_step(chars, j, st) == (csv_end_row(st), j + 1));
    }
}

proof fn lemma_read_quoted_lines(
    chars: Seq<char>,
    i: int,
    rows: Seq<Seq<Seq<char>>>,
    st: CsvState,
    eol: Seq<char>,
    tail: Seq<char>,
)
    requires
        forall|k: int| 0 <= k < rows.len() ==> (#[trigger] rows[k]).len() >= 1,
        is_line_break(eol),
        tail == Seq::<char>::empty() || (tail == eol && rows.len() >= 1),
        st.row.len() == 0,
        st.field.len() == 0,
        !st.quoted,
        !st.in_quotes,
        0 <= i,
        i + quoted_csv_with(rows, eol).len() + tail.len() == chars.len(),
        chars.subrange(i, chars.len() as int) == quoted_csv_with(rows, eol) + tail,
    ensures
        csv_from(chars, i, st) == st.rows + rows,
    decreases rows.len(),
{
    let n = chars.len() as int;
    if rows.len() == 0 {
        assert(st.rows + rows =~= st.rows);
    } else {
        let r = rows[0];
        assert(r.len() >= 1);
        let j = i + quoted_row(r).len();
        let st2 = CsvState {
            row: st.row + r.drop_last(),
            field: r.last(),
            quoted: true,
            in_quotes: false,
            ..st
        };
        assert(st.row + r.drop_last() =~= r.drop_last());
        assert(r.drop_last().push(r.last()) =~= r);
        if rows.len() == 1 {
            lemma_sub_split(chars, i, n, quoted_row(r), tail);
            if tail.len() > 0 {
                assert(chars[j] == chars.subrange(j, n)[0]);
            }
            lemma_read_quoted_row(chars, i, r, st);
            assert(st.rows + rows =~= st.rows.push(r));
            if tail.len() > 0 {
                lemma_read_line_break(chars, j, eol, st2);
            }
        } else {
            let rest = rows.drop_first();
            let more = quoted_csv_with(rest, eol);
            let k = j + eol.len();
            assert(quoted_csv_with(rows, eol) + tail =~= (quoted_row(r) + eol) + (more + tail));
            lemma_sub_split(chars, i, n, quoted_row(r) + eol, more + tail);
            lemma_sub_split(chars, i, k, quoted_row(r), eol);
            assert(chars[j] == chars.subrange(j, k)[0]);
            lemma_read_quoted_row(chars, i, r, st);
            assert(rest[0] == rows[1]);
            lemma_quoted_csv_starts(rest, eol);
            assert(chars[k] == chars.subrange(k, n)[0]);
            lemma_read_line_break(chars, j, eol, st2);
            let st3 = csv_end_row(st2);
            assert(st3.rows == st.rows.push(r));
            assert forall|m: int| 0 <= m < rest.len() implies (#[trigger] rest[m]).len() >= 1 by {
                assert(rest[m] == rows[m + 1]);
            }
            lemma_read_quoted_lines(chars, k, rest, st3, eol, tail);
            assert(st.rows.push(r) + rest =~= st.rows + rows);
        }
    }
}

/// Rows written with every field quoted (inner quotes doubled), fields
/// separated by commas and rows by line breaks, read back exactly: commas,
/// line breaks, quotes and surrounding spaces inside a field are kept.
pub proof fn lemma_quoted_csv_round_trip(rows: Seq<Seq<Seq<char>>>)
    requires
        forall|k: int| 0 <= k < rows.len() ==> (#[trigger] rows[k]).len() >= 1,
    ensures
        csv_rows(quoted_csv(rows)) == rows,
{
    lemma_quoted_csv_newline(rows);
    lemma_quoted_csv_line_breaks_round_trip(rows, seq!['\n']);
}

/// The same holds whichever line break ends the rows, `\n`, `\r\n` or a
/// lone `\r`, and with one more after the last row: the line break is never
/// part of a field.
pub proof fn lemma_quoted_csv_line_breaks_round_trip(rows: Seq<Seq<Seq<char>>>, eol: Seq<char>)
    requires
        forall|k: int| 0 <= k < rows.len() ==> (#[trigger] rows[k]).len() >= 1,
        is_line_break(eol),
    ensures
        csv_rows(quoted_csv_with(rows, eol)) == rows,
        rows.len() > 0 ==> csv_rows(quoted_csv_with(rows, eol) + eol) == rows,
{
    let chars = quoted_csv_with(rows, eol);
    let empty = Seq::<char>::empty();
    assert(chars + empty =~= chars);
    assert(chars.subrange(0, chars.len() as int) == chars);
    lemma_read_quoted_lines(chars, 0, rows, csv_start(), eol, empty);
    assert(csv_start().rows + rows =~= rows);
    if rows.len() > 0 {
        let full = chars + eol;
        assert(full.subrange(0, full.len() as int) == full);
        lemma_read_quoted_lines(full, 0, rows, csv_start(), eol, eol);
    }
}


/// The position of the first `c` in `s`, or `s.len()` if there is none.
pub open spec fn index_of(s: Seq<char>, c: char) -> int
    decreases s.len(),
{
    if s.len() == 0 {
        0
    } else if s[0] == c {
        0
    } else {
        1 + index_of(s.drop_first(), c)
    }
}

pub proof fn lemma_index_of(s: Seq<char>, c: char)
    ensures
        0 <= index_of(s, c) <= s.len(),
        forall|j: int| 0 <= j < index_of(s, c) ==> s[j] != c,
        index_of(s, c) < s.len() ==> s[index_of(s, c)] == c,
    decreases s.len(),
{
    if s.len() > 0 && s[0] != c {
        lemma_index_of(s.drop_first(), c);
        assert forall|j: int| 0 <= j < index_of(s, c) implies s[j] != c by {
            if j > 0 {
                assert(s[j] == s.drop_first()[j - 1]);
            }
        }
    }
}

/// `s` cut at every `c` (the pieces between them; one piece if there is no
/// `c`).
pub open spec fn split_on(s: Seq<char>, c: char) -> Seq<Seq<char>>
    decreases s.len(),
{
    let k = index_of(s, c);
    if k >= s.len() {
        seq![s]
    } else {
        proof {
            lemma_index_of(s, c);
        }
        seq![s.take(k)] + split_on(s.skip(k + 1), c)
    }
}

/// A line without its `\r` of a `\r\n` ending.
pub open spec fn strip_cr(l: Seq<char>) -> Seq<char> {
    if l.len() > 0 && l.last() == '\r' {
        l.drop_last()
    } else {
        l
    }
}

/// The lines of `s` as `str::lines` gives them: cut at `\n`, a `\r` before
/// the `\n` removed, and a final line break adding no empty line.
pub open spec fn text_lines(s: Seq<char>) -> Seq<Seq<char>> {
    let ps = split_on(s, '\n');
    let ps2 = if ps.last().len() == 0 {
        ps.drop_last()
    } else {
        ps
    };
    ps2.map_values(|l: Seq<char>| strip_cr(l))
}

/// A line cut at commas, each field trimmed.
pub open spec fn plain_row(l: Seq<char>) -> Seq<Seq<char>> {
    split_on(l, ',').map_values(|f: Seq<char>| trim(f))
}

proof fn lemma_split_on_len(s: Seq<char>, c: char)
    ensures
        split_on(s, c).len() >= 1,
    decreases s.len(),
{
    lemma_index_of(s, c);
    if index_of(s, c) < s.len() {
        lemma_split_on_len(s.skip(index_of(s, c) + 1), c);
    }
}

/// Plain characters (no quote, comma or line break) join the current field.
proof fn lemma_read_plain(chars: Seq<char>, i: int, j: int, st: CsvState)
    requires
        0 <= i <= j <= chars.len(),
        !st.in_quotes,
        forall|k: int|
            i <= k < j ==> #[trigger] chars[k] != '"' && chars[k] != ',' && chars[k] != '\n'
                && chars[k] != '\r',
    ensures
        csv_from(chars, i, st) == csv_from(
            chars,
            j,
            CsvState { field: st.field + chars.subrange(i, j), ..st },
        ),
    decreases j - i,
{
    if i == j {
        assert(st.field + chars.subrange(i, j) =~= st.field);
        assert(CsvState { field: st.field + chars.subrange(i, j), ..st } == st);
    } else {
        let st2 = csv_push(st, chars[i]);
        assert(csv_step(chars, i, st) == (st2, i + 1));
        lemma_read_plain(chars, i + 1, j, st2);
        assert(st2.field + chars.subrange(i + 1, j) =~= st.field + chars.subrange(i, j));
    }
}

/// A quote-free line with no line-break characters: its comma-separated
/// fields go to the row, the last one stays pending.
proof fn lemma_read_plain_line(chars: Seq<char>, i: int, l: Seq<char>, st: CsvState)
    requires
        !st.in_quotes,
        !st.quoted,
        st.field.len() == 0,
        0 <= i,
        i + l.len() <= chars.len(),
        chars.subrange(i, i + l.len()) == l,
        forall|m: int|
            0 <= m < l.len() ==> #[trigger] l[m] != '"' && l[m] != '\n' && l[m] != '\r',
    ensures
        ({
            let fs = split_on(l, ',');
            csv_from(chars, i, st) == csv_from(
                chars,
                i + l.len(),
                CsvState {
                    row: st.row + fs.drop_last().map_values(|f: Seq<char>| trim(f)),
                    field: fs.last(),
                    ..st
                },
            )
        }),
    decreases l.len(),
{
    let fs = split_on(l, ',');
    let k = index_of(l, ',');
    lemma_index_of(l, ',');
    assert forall|m: int| 0 <= m < l.len() implies chars[i + m] == l[m] by {
        assert(chars.subrange(i, i + l.len())[m] == chars[i + m]);
    }
    assert forall|kk: int| i <= kk < i + k implies #[trigger] chars[kk] != '"' && chars[kk] != ','
        && chars[kk] != '\n' && chars[kk] != '\r' by {
        assert(chars[kk] == l[kk - i]);
    }
    if k >= l.len() {
        lemma_read_plain(chars, i, i + l.len(), st);
        assert(st.field + chars.subrange(i, i + l.len()) =~= l);
        assert(fs == seq![l]);
        assert(fs.drop_last().map_values(|f: Seq<char>| trim(f)) =~= Seq::<Seq<char>>::empty());
        assert(st.row + Seq::<Seq<char>>::empty() =~= st.row);
    } else {
        let rest = l.skip(k + 1);
        lemma_read_plain(chars, i, i + k, st);
        let st2 = CsvState { field: st.field + chars.subrange(i, i + k), ..st };
        assert(st2.field =~= l.take(k));
        assert(chars[i + k] == ',');
        let st3 = csv_end_field(st2);
        assert(csv_step(chars, i + k, st2) == (st3, i + k + 1));
        assert(chars.subrange(i + k + 1, i + k + 1 + rest.len()) =~= rest);
        lemma_read_plain_line(chars, i + k + 1, rest, st3);
        let fr = split_on(rest, ',');
        lemma_split_on_len(rest, ',');
        assert(fs == seq![l.take(k)] + fr);
        assert(fs.drop_last() =~= seq![l.take(k)] + fr.drop_last());
        assert(st3.row + fr.drop_last().map_values(|f: Seq<char>| trim(f)) =~= st.row
            + fs.drop_last().map_values(|f: Seq<char>| trim(f)));
        assert(fs.last() == fr.last());
    }
}

/// Quote-free text from position `i` to the end, where every `\r` comes
/// right before a `\n`.
spec fn plain_from(chars: Seq<char>, i: int) -> bool {
    forall|k: int|
        i <= k < chars.len() ==> #[trigger] chars[k] != '"' && (chars[k] == '\r' ==> k + 1
            < chars.len() && chars[k + 1] == '\n')
}

proof fn lemma_read_plain_lines(chars: Seq<char>, i: int, st: CsvState)
    requires
        0 <= i <= chars.len(),
        plain_from(chars, i),
        st.row.len() == 0,
        st.field.len() == 0,
        !st.quoted,
        !st.in_quotes,
    ensures
        csv_from(chars, i, st) == st.rows + text_lines(chars.subrange(i, chars.len() as int)).map_values(
            |l: Seq<char>| plain_row(l),
        ),
    decreases chars.len() - i,
{
    let n = chars.len() as int;
    let t = chars.subrange(i, n);
    let k = index_of(t, '\n');
    lemma_index_of(t, '\n');
    assert forall|m: int| 0 <= m < t.len() implies t[m] == chars[i + m] by {}
    let ps = split_on(t, '\n');
    if k >= t.len() {
        assert(ps == seq![t]);
        // No line break: no `\r` either.
        assert forall|m: int| 0 <= m < t.len() implies #[trigger] t[m] != '"' && t[m] != '\n'
            && t[m] != '\r' by {
            assert(chars[i + m] == t[m]);
            if t[m] == '\r' {
                assert(t[m + 1] == chars[i + m + 1]);
            }
        }
        lemma_read_plain_line(chars, i, t, st);
        let fs = split_on(t, ',');
        lemma_split_on_len(t, ',');
        let st2 = CsvState {
            row: st.row + fs.drop_last().map_values(|f: Seq<char>| trim(f)),
            field: fs.last(),
            ..st
        };
        if t.len() == 0 {
            assert(text_lines(t) =~= Seq::<Seq<char>>::empty());
            lemma_index_of(t, ',');
            assert(fs == seq![t]);
            assert(st2.row =~= Seq::<Seq<char>>::empty());
            assert(st.rows + Seq::<Seq<Seq<char>>>::empty() =~= st.rows);
            assert(csv_from(chars, n, st2) == st.rows);
            assert(text_lines(t).map_values(|l: Seq<char>| plain_row(l)) =~= Seq::<Seq<Seq<char>>>::empty());
        } else {
            assert(strip_cr(t) == t);
            assert(text_lines(t) =~= seq![t]);
            lemma_index_of(t, ',');
            if index_of(t, ',') >= t.len() {
                assert(fs == seq![t]);
                assert(st2.field.len() > 0);
            } else {
                lemma_split_on_len(t.skip(index_of(t, ',') + 1), ',');
                assert(st2.row.len() > 0);
            }
            let st3 = csv_end_row(st2);
            assert(st2.row.push(trim(st2.field)) =~= plain_row(t));
            assert(st.rows + seq![t].map_values(|l: Seq<char>| plain_row(l)) =~= st.rows.push(plain_row(t)));
            assert(csv_from(chars, n, st2) == st.rows.push(plain_row(t)));
        }
        assert(i + t.len() == n);
    } else {
        let p = t.take(k);
        let rest = t.skip(k + 1);
        let l = strip_cr(p);
        assert(chars[i + k] == '\n');
        assert forall|m: int| 0 <= m < l.len() implies #[trigger] l[m] != '"' && l[m] != '\n'
            && l[m] != '\r' by {
            assert(l[m] == p[m] && p[m] == t[m] && t[m] == chars[i + m]);
            if l[m] == '\r' {
                assert(chars[i + m + 1] == '\n');
                assert(t[m + 1] == chars[i + m + 1]);
                if m + 1 < k {
                    assert(t[m + 1] != '\n');
                }
                assert(m + 1 == k);
                assert(p.len() > 0 && p.last() == '\r');
                assert(l.len() == k - 1);
            }
        }
        assert(chars.subrange(i, i + l.len()) =~= l);
        lemma_read_plain_line(chars, i, l, st);
        let fs = split_on(l, ',');
        let st2 = CsvState {
            row: st.row + fs.drop_last().map_values(|f: Seq<char>| trim(f)),
            field: fs.last(),
            ..st
        };
        let st3 = csv_end_row(st2);
        let j = i + l.len();
        if l.len() < p.len() {
            assert(j == i + k - 1);
            assert(chars[j] == '\r');
            assert(csv_step(chars, j, st2) == (st2, j + 1));
        }
        assert(csv_step(chars, i + k, st2) == (st3, i + k + 1));
        lemma_split_on_len(l, ',');
        assert(st2.row.push(trim(st2.field)) =~= plain_row(l));
        assert(plain_from(chars, i + k + 1));
        lemma_read_plain_lines(chars, i + k + 1, st3);
        assert(chars.subrange(i + k + 1, n) =~= rest);
        lemma_split_on_len(rest, '\n');
        let pr = split_on(rest, '\n');
        assert(ps == seq![p] + pr);
        assert(ps.last() == pr.last());
        let pr2 = if pr.last().len() == 0 {
            pr.drop_last()
        } else {
            pr
        };
        let ps2 = if ps.last().len() == 0 {
            ps.drop_last()
        } else {
            ps
        };
        assert(ps2 =~= seq![p] + pr2);
        assert(text_lines(t) =~= seq![l] + text_lines(rest));
        assert(st.rows + text_lines(t).map_values(|l: Seq<char>| plain_row(l)) =~= st.rows.push(
            plain_row(l),
        ) + text_lines(rest).map_values(|l: Seq<char>| plain_row(l)));
        assert(st3.rows == st.rows.push(plain_row(l)));
        assert(csv_from(chars, i + k, st2) == csv_from(chars, i + k + 1, st3));
        assert(csv_from(chars, i, st) == csv_from(chars, i + k, st2));
    }
}

/// CSV text without quotes, where every `\r` is part of a `\r\n`, reads as
/// its lines (as `str::lines` gives them), each cut at commas with every
/// field trimmed.
pub proof fn lemma_plain_csv(s: Seq<char>)
    requires
        forall|k: int| 0 <= k < s.len() ==> #[trigger] s[k] != '"',
        forall|k: int| 0 <= k < s.len() && #[trigger] s[k] == '\r' ==> k + 1 < s.len() && s[k + 1] == '\n',
    ensures
        csv_rows(s) == text_lines(s).map_values(|l: Seq<char>| plain_row(l)),
{
    assert(plain_from(s, 0));
    lemma_read_plain_lines(s, 0, csv_start());
    assert(s.subrange(0, s.len() as int) == s);
    assert(csv_start().rows + text_lines(s).map_values(|l: Seq<char>| plain_row(l)) =~= text_lines(
        s,
    ).map_values(|l: Seq<char>| plain_row(l)));
}

} // verus!
