use vstd::prelude::*;

use crate::address::{a1_text, expand_range, range_cells, CellRef};
use crate::grid::Grid;
use crate::text::{
    ascii_upper, chars_of, is_space, lemma_trim_empty_iff_space, push_char, push_str, trim,
    trim_bounds, upper,
};

verus! {

/// Everything that can go wrong turning a cell into a number: the formula
/// text failing to parse, a reference cycle, a function nobody defined, a
/// cell that is not numeric, a bare range, or an aggregate of no values.
#[derive(Debug, Clone, PartialEq)]
pub enum EvalError {
    CircularReference(CellRef),
    ParseError(String),
    UnknownFunction(String),
    NotANumber(String),
    RangeOutsideFunction,
    EmptyAggregate(String),
}

/// The message text of an evaluation error.
pub open spec fn eval_error_text(e: EvalError) -> Seq<char> {
    match e {
        EvalError::CircularReference(c) => "circular reference at "@ + a1_text(c),
        EvalError::ParseError(msg) => msg@,
        EvalError::UnknownFunction(name) => "unknown function: "@ + name@,
        EvalError::NotANumber(text) => "not a number: "@ + text@,
        EvalError::RangeOutsideFunction => "a cell range can only appear as a function argument"@,
        EvalError::EmptyAggregate(name) => name@ + " needs at least one value"@,
    }
}

impl EvalError {
    /// The error as a sentence, such as `circular reference at A1`. A cycle
    /// through the last column or row has no A1 text.
    pub fn message(&self) -> (res: String)
        requires
            self matches EvalError::CircularReference(c) ==> c.col < u32::MAX && c.row
                < u32::MAX,
        ensures
            res@ == eval_error_text(*self),
    {
        match self {
            EvalError::CircularReference(c) => {
                let mut out = "circular reference at ".to_owned();
                let cell = c.to_string();
                push_str(&mut out, cell.as_str());
                out
            },
            EvalError::ParseError(msg) => msg.clone(),
            EvalError::UnknownFunction(name) => {
                let mut out = "unknown function: ".to_owned();
                push_str(&mut out, name.as_str());
                out
            },
            EvalError::NotANumber(text) => {
                let mut out = "not a number: ".to_owned();
                push_str(&mut out, text.as_str());
                out
            },
            EvalError::RangeOutsideFunction => {
                "a cell range can only appear as a function argument".to_owned()
            },
            EvalError::EmptyAggregate(name) => {
                let mut out = name.clone();
                push_str(&mut out, " needs at least one value");
                out
            },
        }
    }
}

/// A cell is blank when it is unset or holds only white space.
pub open spec fn blank(g: Map<CellRef, Seq<char>>, cell: CellRef) -> bool {
    !g.contains_key(cell) || trim(g[cell]).len() == 0
}

/// The cell is unset or holds only white space.
pub fn cell_is_blank(grid: &Grid, cell: CellRef) -> (res: bool)
    ensures
        res == blank(grid@, cell),
{
    match grid.get(cell) {
        Some(raw) => {
            let chars = chars_of(raw);
            let (a, b) = trim_bounds(&chars, 0, chars.len());
            assert(chars@.subrange(0, chars@.len() as int) == chars@);
            a == b
        },
        None => true,
    }
}

/// A cell is blank exactly when it is unset or every character of its text
/// is white space: text with anything else in it, such as `0`, is a value.
pub proof fn lemma_blank_iff_all_space(g: Map<CellRef, Seq<char>>, cell: CellRef)
    ensures
        blank(g, cell) <==> (!g.contains_key(cell) || forall|k: int|
            0 <= k < g[cell].len() ==> is_space(#[trigger] g[cell][k])),
{
    if g.contains_key(cell) {
        lemma_trim_empty_iff_space(g[cell]);
    }
}

/// The cells of the range from `start` to `end` that hold a value: every
/// non-blank cell of the rectangle, in reading order.
pub fn nonblank_cells(grid: &Grid, start: CellRef, end: CellRef) -> (res: Vec<CellRef>)
    ensures
        res@ == range_cells(start, end).filter(|c: CellRef| !blank(grid@, c)),
{
    let cells = expand_range(start, end);
    let ghost pred = |c: CellRef| !blank(grid@, c);
    let mut res: Vec<CellRef> = Vec::new();
    let mut i: usize = 0;
    while i < cells.len()
        invariant
            i <= cells.len(),
            cells@ == range_cells(start, end),
            pred == (|c: CellRef| !blank(grid@, c)),
            res@ == cells@.take(i as int).filter(pred),
        decreases cells.len() - i,
    {
        let c = cells[i];
        proof {
            reveal_with_fuel(Seq::<_>::filter, 1);
            assert(cells@.take(i + 1).drop_last() == cells@.take(i as int));
            assert(cells@.take(i + 1).last() == c);
        }
        if !cell_is_blank(grid, c) {
            res.push(c);
        }
        i += 1;
    }
    assert(cells@.take(cells.len() as int) == cells@);
    res
}

/// A cell is among the non-blank cells of a range exactly when it lies in
/// the range, is set, and its text has a character that is not white space.
pub proof fn lemma_nonblank_member(
    g: Map<CellRef, Seq<char>>,
    start: CellRef,
    end: CellRef,
    c: CellRef,
)
    ensures
        range_cells(start, end).filter(|x: CellRef| !blank(g, x)).contains(c) <==> {
            &&& range_cells(start, end).contains(c)
            &&& g.contains_key(c)
            &&& exists|k: int| 0 <= k < g[c].len() && !is_space(#[trigger] g[c][k])
        },
{
    let cells = range_cells(start, end);
    let pred = |x: CellRef| !blank(g, x);
    let kept = cells.filter(pred);
    lemma_blank_iff_all_space(g, c);
    if kept.contains(c) {
        cells.lemma_filter_contains_rev(pred, c);
        let i = choose|i: int| 0 <= i < kept.len() && kept[i] == c;
        cells.lemma_filter_pred(pred, i);
    }
    if cells.contains(c) && !blank(g, c) {
        let i = choose|i: int| 0 <= i < cells.len() && cells[i] == c;
        cells.lemma_filter_contains(pred, i);
    }
}

/// The functions a formula can call.
#[derive(Debug, Clone, Copy, PartialEq, Eq, Structural)]
pub enum Aggregate {
    Sum,
    Count,
    Average,
    Min,
    Max,
}

/// The upper-case name of an aggregate function.
pub open spec fn aggregate_name(a: Aggregate) -> Seq<char> {
    match a {
        Aggregate::Sum => "SUM"@,
        Aggregate::Count => "COUNT"@,
        Aggregate::Average => "AVERAGE"@,
        Aggregate::Min => "MIN"@,
        Aggregate::Max => "MAX"@,
    }
}

/// Whether an aggregate has no result without values.
pub open spec fn needs_values(a: Aggregate) -> bool {
    a == Aggregate::Average || a == Aggregate::Min || a == Aggregate::Max
}

fn name_of(a: Aggregate) -> (res: String)
    ensures
        res@ == aggregate_name(a),
{
    match a {
        Aggregate::Sum => "SUM".to_owned(),
        Aggregate::Count => "COUNT".to_owned(),
        Aggregate::Average => "AVERAGE".to_owned(),
        Aggregate::Min => "MIN".to_owned(),
        Aggregate::Max => "MAX".to_owned(),
    }
}

/// The function a call names, matched without regard to ASCII case; an
/// unknown name is reported in upper case.
pub fn aggregate_named(name: &str) -> (res: Result<Aggregate, EvalError>)
    ensures
        res matches Ok(a) ==> upper(name@) == aggregate_name(a),
        res is Err <==> (forall|a: Aggregate| upper(name@) != aggregate_name(a)),
        res matches Err(e) ==> e matches EvalError::UnknownFunction(s) && s@ == upper(name@),
{
    let chars = chars_of(name);
    let mut up = String::new();
    let mut i: usize = 0;
    while i < chars.len()
        invariant
            i <= chars.len(),
            chars@ == name@,
            up@ == upper(name@).take(i as int),
        decreases chars.len() - i,
    {
        let c = chars[i];
        let u = if 'a' <= c && c <= 'z' {
            ((c as u32 - 32) as u8) as char
        } else {
            c
        };
        assert(u == ascii_upper(c));
        push_char(&mut up, u);
        assert(upper(name@).take(i + 1) == upper(name@).take(i as int).push(u));
        i += 1;
    }
    assert(upper(name@).take(i as int) == upper(name@));
    let all = [Aggregate::Sum, Aggregate::Count, Aggregate::Average, Aggregate::Min, Aggregate::Max];
    let mut k: usize = 0;
    while k < 5
        invariant
            k <= 5,
            up@ == upper(name@),
            all@ == seq![Aggregate::Sum, Aggregate::Count, Aggregate::Average, Aggregate::Min, Aggregate::Max],
            forall|j: int| 0 <= j < k ==> up@ != aggregate_name(#[trigger] all@[j]),
        decreases 5 - k,
    {
        let a = all[k];
        if up == name_of(a) {
            return Ok(a);
        }
        k += 1;
    }
    assert forall|a: Aggregate| upper(name@) != aggregate_name(a) by {
        match a {
            Aggregate::Sum => assert(all@[0] == a),
            Aggregate::Count => assert(all@[1] == a),
            Aggregate::Average => assert(all@[2] == a),
            Aggregate::Min => assert(all@[3] == a),
            Aggregate::Max => assert(all@[4] == a),
        }
    }
    Err(EvalError::UnknownFunction(up))
}

/// Whether an aggregate can be taken of `count` values: `AVERAGE`, `MIN` and
/// `MAX` need at least one, `SUM` and `COUNT` do not.
pub fn check_values(a: Aggregate, count: usize) -> (res: Result<(), EvalError>)
    ensures
        res is Err <==> count == 0 && needs_values(a),
        res matches Err(e) ==> e matches EvalError::EmptyAggregate(s) && s@ == aggregate_name(a),
{
    if count == 0 && (a == Aggregate::Average || a == Aggregate::Min || a == Aggregate::Max) {
        Err(EvalError::EmptyAggregate(name_of(a)))
    } else {
        Ok(())
    }
}

} // verus!
