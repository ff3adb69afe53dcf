use vstd::prelude::*;

use crate::text::{
    all_alpha, all_digits, ascii_upper, chars_of, is_alpha, is_alpha_char, is_digit, is_digit_char,
    is_space, lemma_trim_no_space, push_char, trim, trim_bounds, trim_end, trim_start, upper,
};

verus! {

/// A spreadsheet cell address, stored zero-based so it can be used directly as
/// a grid index: `A1` is column 0, row 0.
#[derive(Debug, Clone, Copy, PartialEq, Eq, Structural, Hash, PartialOrd, Ord)]
pub struct CellRef {
    pub col: u32,
    pub row: u32,
}

/// The value of a letter as a column digit: `A` (or `a`) is 1, `Z` is 26.
pub open spec fn letter_value(c: char) -> int {
    if 'a' <= c && c <= 'z' {
        c as int - 'a' as int + 1
    } else {
        c as int - 'A' as int + 1
    }
}

/// The column number spelled by `s` in bijective base 26 (`A` = 1, `Z` = 26,
/// `AA` = 27, ...).
pub open spec fn letters_value(s: Seq<char>) -> int
    decreases s.len(),
{
    if s.len() == 0 {
        0
    } else {
        letters_value(s.drop_last()) * 26 + letter_value(s.last())
    }
}

/// The number written by the decimal digits `s`.
pub open spec fn digits_value(s: Seq<char>) -> int
    decreases s.len(),
{
    if s.len() == 0 {
        0
    } else {
        digits_value(s.drop_last()) * 10 + (s.last() as int - '0' as int)
    }
}

/// The index of the first digit of `s` at or after `i`, or `s.len()` if none.
pub open spec fn first_digit_from(s: Seq<char>, i: int) -> int
    decreases s.len() - i,
{
    if i >= s.len() {
        s.len() as int
    } else if is_digit(s[i]) {
        i
    } else {
        first_digit_from(s, i + 1)
    }
}

/// The letters part of trimmed A1 text: everything before the first digit.
pub open spec fn a1_letters(s: Seq<char>) -> Seq<char> {
    trim(s).take(first_digit_from(trim(s), 0))
}

/// The digits part of trimmed A1 text: everything from the first digit on.
pub open spec fn a1_digits(s: Seq<char>) -> Seq<char> {
    trim(s).skip(first_digit_from(trim(s), 0))
}

/// `s`, once trimmed, is one or more ASCII letters followed by one or more
/// digits spelling a row number from 1 to `u32::MAX`.
pub open spec fn a1_shaped(s: Seq<char>) -> bool {
    &&& a1_letters(s).len() > 0
    &&& a1_digits(s).len() > 0
    &&& all_alpha(a1_letters(s))
    &&& all_digits(a1_digits(s))
    &&& 1 <= digits_value(a1_digits(s)) <= u32::MAX
}

/// A1 text whose column letters spell a number past `u32::MAX`: reading it
/// overflows the column arithmetic.
pub open spec fn a1_overflows(s: Seq<char>) -> bool {
    a1_shaped(s) && letters_value(a1_letters(s)) > u32::MAX
}

/// The cell that A1 text names, if it names one.
pub open spec fn a1_cell(s: Seq<char>) -> Option<CellRef> {
    if a1_shaped(s) {
        Some(
            CellRef {
                col: (letters_value(a1_letters(s)) - 1) as u32,
                row: (digits_value(a1_digits(s)) - 1) as u32,
            },
        )
    } else {
        None
    }
}

/// The upper-case letter for column digit `d` (0 is `A`, 25 is `Z`).
pub open spec fn letter_for(d: int) -> char {
    (d + 'A' as int) as char
}

/// The column letters of the 1-based column number `n`.
pub open spec fn col_letters(n: int) -> Seq<char>
    decreases n,
{
    if n <= 0 {
        seq![]
    } else {
        col_letters((n - 1) / 26).push(letter_for((n - 1) % 26))
    }
}

/// The decimal digit character for `d` in `0..10`.
pub open spec fn digit_for(d: int) -> char {
    (d + '0' as int) as char
}

/// The decimal representation of `n`, without leading zeros.
pub open spec fn decimal(n: int) -> Seq<char>
    decreases n,
{
    if n < 10 {
        seq![digit_for(n)]
    } else {
        decimal(n / 10).push(digit_for(n % 10))
    }
}

/// The A1 text of a cell: upper-case column letters, then the 1-based row.
pub open spec fn a1_text(c: CellRef) -> Seq<char> {
    col_letters(c.col + 1) + decimal(c.row + 1)
}

proof fn lemma_letters_value_mono(s: Seq<char>, i: int)
    requires
        0 <= i <= s.len(),
        all_alpha(s),
    ensures
        0 <= letters_value(s.take(i)) <= letters_value(s),
    decreases s.len(),
{
    if s.len() > 0 {
        let t = s.drop_last();
        assert(all_alpha(t)) by {
            assert forall|k: int| 0 <= k < t.len() implies is_alpha(#[trigger] t[k]) by {
                assert(t[k] == s[k]);
            }
        }
        assert(is_alpha(s[s.len() - 1]));
        if i == s.len() {
            assert(s.take(i) == s);
            lemma_letters_value_mono(t, 0);
            assert(t.take(0) == s.take(0));
        } else {
            lemma_letters_value_mono(t, i);
            assert(t.take(i) == s.take(i));
        }
    } else {
        assert(s.take(i) == s);
    }
}

proof fn lemma_digits_value_mono(s: Seq<char>, i: int)
    requires
        0 <= i <= s.len(),
        all_digits(s),
    ensures
        0 <= digits_value(s.take(i)) <= digits_value(s),
    decreases s.len(),
{
    if s.len() > 0 {
        let t = s.drop_last();
        assert(all_digits(t)) by {
            assert forall|k: int| 0 <= k < t.len() implies is_digit(#[trigger] t[k]) by {
                assert(t[k] == s[k]);
            }
        }
        assert(is_digit(s[s.len() - 1]));
        if i == s.len() {
            assert(s.take(i) == s);
            lemma_digits_value_mono(t, 0);
            assert(t.take(0) == s.take(0));
        } else {
            lemma_digits_value_mono(t, i);
            assert(t.take(i) == s.take(i));
        }
    } else {
        assert(s.take(i) == s);
    }
}

impl CellRef {
    pub fn new(col: u32, row: u32) -> (res: CellRef)
        ensures
            res == (CellRef { col, row }),
    {
        CellRef { col, row }
    }

    /// Reads A1 text as `parse` does, but gives `None` instead of
    /// overflowing when the column letters spell a number past `u32::MAX`;
    /// otherwise `Some` of what `parse` gives.
    pub fn try_parse(s: &str) -> (res: Option<Option<CellRef>>)
        ensures
            res is None <==> a1_overflows(s@),
            res matches Some(c) ==> c == a1_cell(s@),
    {
        let chars = chars_of(s);
        let (lo, hi) = trim_bounds(&chars, 0, chars.len());
        let ghost t = trim(s@);
        assert(chars@.subrange(0, chars@.len() as int) == s@);
        assert(t == chars@.subrange(lo as int, hi as int));

        // Find the first digit.
        let mut k = lo;
        while k < hi && !is_digit_char(chars[k])
            invariant
                lo <= k <= hi <= chars.len(),
                t == chars@.subrange(lo as int, hi as int),
                first_digit_from(t, 0) == first_digit_from(t, k - lo),
            decreases hi - k,
        {
            k += 1;
        }
        assert(first_digit_from(t, 0) == k - lo);
        let ghost letters = t.take(k - lo);
        let ghost digits = t.skip(k - lo);
        assert(letters == a1_letters(s@));
        assert(digits == a1_digits(s@));
        assert(letters == chars@.subrange(lo as int, k as int));
        assert(digits == chars@.subrange(k as int, hi as int));
        if k == lo || k == hi {
            return Some(None);
        }
        // The letters part must be letters only.

        let mut i = lo;
        while i < k
            invariant
                lo <= i <= k <= hi <= chars.len(),
                letters == chars@.subrange(lo as int, k as int),
                letters == a1_letters(s@),
                forall|j: int| 0 <= j < i - lo ==> is_alpha(#[trigger] letters[j]),
            decreases k - i,
        {
            if !is_alpha_char(chars[i]) {
                assert(letters[i - lo] == chars@[i as int]);
                return Some(None);
            }
            i += 1;
        }
        assert(all_alpha(letters));
        // The digits part must be digits only.
        let mut i = k;
        while i < hi
            invariant
                lo <= k <= i <= hi <= chars.len(),
                digits == chars@.subrange(k as int, hi as int),
                digits == a1_digits(s@),
                forall|j: int| 0 <= j < i - k ==> is_digit(#[trigger] digits[j]),
            decreases hi - i,
        {
            if !is_digit_char(chars[i]) {
                assert(digits[i - k] == chars@[i as int]);
                return Some(None);
            }
            i += 1;
        }
        assert(all_digits(digits));
        // The row number, rejected once it passes u32::MAX.
        let mut row: u64 = 0;
        let mut i = k;
        while i < hi
            invariant
                lo <= k <= i <= hi <= chars.len(),
                digits == chars@.subrange(k as int, hi as int),
                all_digits(digits),
                digits == a1_digits(s@),
                row == digits_value(digits.take(i - k)),
                row <= u32::MAX,
            decreases hi - i,
        {
            let d = chars[i];
            assert(digits.take(i + 1 - k).drop_last() == digits.take(i - k));
            assert(digits.take(i + 1 - k).last() == d);
            assert(is_digit(digits[i - k]));
            row = row * 10 + (d as u64 - '0' as u64);
            if row > 0xffff_ffff {
                proof {
                    lemma_digits_value_mono(digits, i + 1 - k);
                }
                return Some(None);
            }
            i += 1;
        }
        assert(digits.take(hi - k) == digits);
        if row == 0 {
            return Some(None);
        }
        assert(a1_shaped(s@));
        // The column number, which must fit in u32.
        let mut col: u64 = 0;
        let mut i = lo;
        while i < k
            invariant
                lo <= i <= k <= hi <= chars.len(),
                letters == chars@.subrange(lo as int, k as int),
                all_alpha(letters),
                letters == a1_letters(s@),
                a1_shaped(s@),
                col == letters_value(letters.take(i - lo)),
                col <= u32::MAX,
            decreases k - i,
        {
            let c = chars[i];
            assert(letters.take(i + 1 - lo).drop_last() == letters.take(i - lo));
            assert(letters.take(i + 1 - lo).last() == c);
            assert(is_alpha(letters[i - lo]));
            proof {
                lemma_letters_value_mono(letters, i + 1 - lo);
            }
            let upper = if 'a' <= c && c <= 'z' {
                c as u64 - 'a' as u64
            } else {
                c as u64 - 'A' as u64
            };
            col = col * 26 + upper + 1;
            if col > 0xffff_ffff {
                return None;
            }
            i += 1;
        }
        assert(letters.take(k - lo) == letters);
        proof {
            lemma_letters_value_mono(letters, 1);
            assert(letters.take(1).drop_last() == letters.take(0));
            assert(letters.take(1).last() == letters[0]);
            assert(is_alpha(letters[0]));
            assert(letters_value(letters.take(0)) == 0);
            assert(letter_value(letters[0]) >= 1);
            assert(letters_value(letters.take(1)) >= 1);
        }
        Some(Some(CellRef { col: (col - 1) as u32, row: (row - 1) as u32 }))
    }

    /// Parses A1-style references such as `A1`, `b12` or `AA7`, ignoring
    /// surrounding white space. Anything that is not letters followed by a
    /// positive row number gives `None`.
    pub fn parse(s: &str) -> (res: Option<CellRef>)
        requires
            !a1_overflows(s@),
        ensures
            res == a1_cell(s@),
    {
        match CellRef::try_parse(s) {
            Some(c) => c,
            // Not reached: `requires` rules out the overflow.
            None => None,
        }
    }
}


proof fn lemma_col_letters(n: int)
    requires
        n >= 1,
    ensures
        col_letters(n).len() >= 1,
        all_alpha(col_letters(n)),
        forall|k: int|
            0 <= k < col_letters(n).len() ==> 'A' <= #[trigger] col_letters(n)[k] <= 'Z',
        letters_value(col_letters(n)) == n,
    decreases n,
{
    let q = (n - 1) / 26;
    let r = (n - 1) % 26;
    let s = col_letters(n);
    assert(s == col_letters(q).push(letter_for(r)));
    if q >= 1 {
        lemma_col_letters(q);
    }
    assert(s.drop_last() == col_letters(q));
    assert(letter_for(r) as int == r + 65);
    assert(s.last() == letter_for(r));
    vstd::arithmetic::div_mod::lemma_fundamental_div_mod(n - 1, 26);
    assert(letters_value(s) == letters_value(col_letters(q)) * 26 + r + 1);
    assert forall|k: int| 0 <= k < s.len() implies 'A' <= #[trigger] s[k] <= 'Z' by {
        if k < s.len() - 1 {
            assert(s[k] == col_letters(q)[k]);
        }
    }
    assert(all_alpha(s)) by {
        assert forall|k: int| 0 <= k < s.len() implies is_alpha(#[trigger] s[k]) by {
            assert('A' <= s[k] <= 'Z');
        }
    }
}

proof fn lemma_decimal(n: int)
    requires
        n >= 0,
    ensures
        decimal(n).len() >= 1,
        all_digits(decimal(n)),
        digits_value(decimal(n)) == n,
    decreases n,
{
    let s = decimal(n);
    if n >= 10 {
        lemma_decimal(n / 10);
        assert(s.drop_last() == decimal(n / 10));
        assert(digit_for(n % 10) as int == n % 10 + 48);
        assert(s.last() == digit_for(n % 10));
        vstd::arithmetic::div_mod::lemma_fundamental_div_mod(n, 10);
        assert(digits_value(s) == digits_value(decimal(n / 10)) * 10 + n % 10);
        assert forall|k: int| 0 <= k < s.len() implies is_digit(#[trigger] s[k]) by {
            if k < s.len() - 1 {
                assert(s[k] == decimal(n / 10)[k]);
            }
        }
    } else {
        assert(digit_for(n) as int == n + 48);
        assert(s.drop_last() == Seq::<char>::empty());
        assert(s.last() == digit_for(n));
        assert(digits_value(s.drop_last()) == 0);
        assert(digits_value(s) == digits_value(s.drop_last()) * 10 + (s.last() as int - 48));
    }
}

proof fn lemma_first_digit_concat(a: Seq<char>, b: Seq<char>, i: int)
    requires
        0 <= i <= a.len(),
        forall|k: int| 0 <= k < a.len() ==> !is_digit(#[trigger] a[k]),
        b.len() > 0,
        is_digit(b[0]),
    ensures
        first_digit_from(a + b, i) == a.len(),
    decreases a.len() - i,
{
    if i < a.len() {
        assert((a + b)[i] == a[i]);
        lemma_first_digit_concat(a, b, i + 1);
    } else {
        assert((a + b)[i] == b[0]);
    }
}

/// Reading back the A1 text of a cell gives that cell again, and the text
/// never overflows the column arithmetic.
pub proof fn lemma_a1_round_trip(c: CellRef)
    requires
        c.col < u32::MAX,
        c.row < u32::MAX,
    ensures
        a1_cell(a1_text(c)) == Some(c),
        !a1_overflows(a1_text(c)),
{
    let l = col_letters(c.col + 1);
    let d = decimal(c.row + 1);
    let s = a1_text(c);
    lemma_col_letters(c.col + 1);
    lemma_decimal(c.row + 1);
    assert(s == l + d);
    assert forall|k: int| 0 <= k < s.len() implies !is_space(#[trigger] s[k]) by {
        if k < l.len() {
            assert(s[k] == l[k]);
            assert('A' <= l[k] <= 'Z');
        } else {
            assert(s[k] == d[k - l.len()]);
            assert(is_digit(d[k - l.len()]));
        }
    }
    lemma_trim_no_space(s);
    assert forall|k: int| 0 <= k < l.len() implies !is_digit(#[trigger] l[k]) by {
        assert('A' <= l[k] <= 'Z');
    }
    assert(is_digit(d[0]));
    lemma_first_digit_concat(l, d, 0);
    assert(s.take(l.len() as int) == l);
    assert(s.skip(l.len() as int) == d);
}

/// The A1 text of a cell is a word: an upper-case letter, then letters and
/// digits only.
pub proof fn lemma_a1_text_word(c: CellRef)
    requires
        c.col < u32::MAX,
        c.row < u32::MAX,
    ensures
        a1_text(c).len() > 0,
        'A' <= a1_text(c)[0] <= 'Z',
        forall|k: int| 0 <= k < a1_text(c).len() ==> is_alpha(#[trigger] a1_text(c)[k]) || is_digit(a1_text(c)[k]),
{
    let l = col_letters(c.col + 1);
    let d = decimal(c.row + 1);
    let s = a1_text(c);
    lemma_col_letters(c.col + 1);
    lemma_decimal(c.row + 1);
    assert(s[0] == l[0]);
    assert forall|k: int| 0 <= k < s.len() implies is_alpha(#[trigger] s[k]) || is_digit(s[k]) by {
        if k < l.len() {
            assert(s[k] == l[k]);
            assert('A' <= l[k] <= 'Z');
        } else {
            assert(s[k] == d[k - l.len()]);
            assert(is_digit(d[k - l.len()]));
        }
    }
}

/// Appends the column letters of `n` to `out`.
fn push_col_letters(n: u32, out: &mut String)
    ensures
        final(out)@ == old(out)@ + col_letters(n as int),
    decreases n,
{
    if n > 0 {
        let q = (n - 1) / 26;
        let r = ((n - 1) % 26) as u8;
        push_col_letters(q, out);
        let c = (65u8 + r) as char;
        assert(c == letter_for((n - 1) % 26));
        push_char(out, c);
        assert(old(out)@ + col_letters(n as int) == old(out)@ + col_letters(q as int) + seq![c]);
    } else {
        assert(old(out)@ + col_letters(n as int) == old(out)@);
    }
}

/// Appends the decimal digits of `n` to `out`.
fn push_decimal(n: u32, out: &mut String)
    ensures
        final(out)@ == old(out)@ + decimal(n as int),
    decreases n,
{
    if n >= 10 {
        push_decimal(n / 10, out);
    }
    let c = (48u8 + (n % 10) as u8) as char;
    assert(c == digit_for((n % 10) as int));
    push_char(out, c);
    if n >= 10 {
        assert(old(out)@ + decimal(n as int) == old(out)@ + decimal((n / 10) as int) + seq![c]);
    } else {
        assert(decimal(n as int) == seq![c]);
    }
}

impl CellRef {
    /// The A1 text of the cell, such as `B2` for column 1, row 1.
    pub fn to_string(&self) -> (res: String)
        requires
            self.col < u32::MAX,
            self.row < u32::MAX,
        ensures
            res@ == a1_text(*self),
    {
        let mut out = String::new();
        push_col_letters(self.col + 1, &mut out);
        push_decimal(self.row + 1, &mut out);
        out
    }
}


/// The cells of row `r` from column `c0` to column `c1`, left to right.
pub open spec fn row_cells(r: u32, c0: u32, c1: u32) -> Seq<CellRef> {
    Seq::new(
        (c1 - c0 + 1) as nat,
        |j: int| CellRef { col: (c0 + j) as u32, row: r },
    )
}

/// The cells of rows `r0..=r1` and columns `c0..=c1`, row by row.
pub open spec fn rect_cells(r0: u32, r1: int, c0: u32, c1: u32) -> Seq<CellRef>
    decreases r1 - r0 + 1,
{
    if r1 < r0 {
        seq![]
    } else {
        rect_cells(r0, r1 - 1, c0, c1) + row_cells(r1 as u32, c0, c1)
    }
}

pub open spec fn min_u32(a: u32, b: u32) -> u32 {
    if a <= b { a } else { b }
}

pub open spec fn max_u32(a: u32, b: u32) -> u32 {
    if a <= b { b } else { a }
}

/// The cells of the rectangle spanned by two corners, in reading order.
pub open spec fn range_cells(a: CellRef, b: CellRef) -> Seq<CellRef> {
    rect_cells(
        min_u32(a.row, b.row),
        max_u32(a.row, b.row) as int,
        min_u32(a.col, b.col),
        max_u32(a.col, b.col),
    )
}

/// Every cell of the rectangle with corners `start` and `end` (in either
/// order), row by row from the top, each row from left to right.
pub fn expand_range(start: CellRef, end: CellRef) -> (res: Vec<CellRef>)
    ensures
        res@ == range_cells(start, end),
{
    let r0 = if start.row <= end.row { start.row } else { end.row };
    let r1 = if start.row <= end.row { end.row } else { start.row };
    let c0 = if start.col <= end.col { start.col } else { end.col };
    let c1 = if start.col <= end.col { end.col } else { start.col };
    let mut res: Vec<CellRef> = Vec::new();
    let mut r: u64 = r0 as u64;
    while r <= r1 as u64
        invariant
            r0 <= r <= r1 as u64 + 1,
            c0 <= c1,
            res@ == rect_cells(r0, r - 1, c0, c1),
        decreases r1 as u64 + 1 - r,
    {
        let ghost before = res@;
        let mut c: u64 = c0 as u64;
        while c <= c1 as u64
            invariant
                r0 <= r <= r1,
                c0 <= c <= c1 as u64 + 1,
                c0 <= c1,
                before == rect_cells(r0, r - 1, c0, c1),
                res@ == before + row_cells(r as u32, c0, c1).take(c - c0),
            decreases c1 as u64 + 1 - c,
        {
            res.push(CellRef { col: c as u32, row: r as u32 });
            assert(row_cells(r as u32, c0, c1).take(c + 1 - c0) == row_cells(
                r as u32,
                c0,
                c1,
            ).take(c - c0).push(CellRef { col: c as u32, row: r as u32 }));
            c += 1;
        }
        assert(row_cells(r as u32, c0, c1).take(c1 + 1 - c0) == row_cells(r as u32, c0, c1));
        r += 1;
    }
    res
}


proof fn lemma_col_letters_canonical(l: Seq<char>)
    requires
        forall|k: int| 0 <= k < l.len() ==> 'A' <= #[trigger] l[k] <= 'Z',
    ensures
        col_letters(letters_value(l)) == l,
        letters_value(l) >= 0,
        l.len() > 0 ==> letters_value(l) >= 1,
    decreases l.len(),
{
    if l.len() > 0 {
        let p = l.drop_last();
        let c = l.last();
        assert forall|k: int| 0 <= k < p.len() implies 'A' <= #[trigger] p[k] <= 'Z' by {
            assert(p[k] == l[k]);
        }
        lemma_col_letters_canonical(p);
        let v = letters_value(p);
        let d = c as int - 'A' as int;
        assert(0 <= d < 26);
        let n = letters_value(l);
        assert(n == v * 26 + d + 1);
        assert((n - 1) / 26 == v && (n - 1) % 26 == d) by (nonlinear_arith)
            requires
                n - 1 == v * 26 + d,
                0 <= d < 26,
                v >= 0,
        ;
        assert(letter_for(d) == c);
        assert(col_letters(n) == col_letters(v).push(c));
        assert(l == p.push(c));
    } else {
        assert(col_letters(0) == Seq::<char>::empty());
    }
}

proof fn lemma_decimal_canonical(d: Seq<char>)
    requires
        d.len() > 0,
        all_digits(d),
        d.len() > 1 ==> d[0] != '0',
    ensures
        decimal(digits_value(d)) == d,
    decreases d.len(),
{
    let p = d.drop_last();
    let c = d.last();
    let v = digits_value(p);
    let e = c as int - '0' as int;
    assert(is_digit(d[d.len() - 1]));
    assert(0 <= e < 10);
    let n = digits_value(d);
    assert(n == v * 10 + e);
    assert(digit_for(e) == c);
    if p.len() == 0 {
        assert(v == 0);
        assert(decimal(n) == seq![c]);
        assert(d == seq![c]);
    } else {
        assert(all_digits(p)) by {
            assert forall|k: int| 0 <= k < p.len() implies is_digit(#[trigger] p[k]) by {
                assert(p[k] == d[k]);
            }
        }
        lemma_decimal_canonical(p);
        lemma_digits_value_mono(p, 1);
        assert(p.take(1).drop_last() == p.take(0));
        assert(p.take(1).last() == p[0]);
        assert(p[0] == d[0]);
        assert(digits_value(p.take(0)) == 0);
        assert(v >= 1);
        assert(n / 10 == v && n % 10 == e) by (nonlinear_arith)
            requires
                n == v * 10 + e,
                0 <= e < 10,
        ;
        assert(decimal(n) == decimal(v).push(c));
        assert(d == p.push(c));
    }
}

/// Canonical A1 text, upper-case column letters followed by a row number
/// without leading zeros, reads as a cell whose A1 text is that same text.
pub proof fn lemma_a1_canonical(letters: Seq<char>, digits: Seq<char>)
    requires
        letters.len() > 0,
        forall|k: int| 0 <= k < letters.len() ==> 'A' <= #[trigger] letters[k] <= 'Z',
        letters_value(letters) <= u32::MAX,
        digits.len() > 0,
        all_digits(digits),
        digits[0] != '0',
        digits_value(digits) <= u32::MAX,
    ensures
        !a1_overflows(letters + digits),
        a1_cell(letters + digits) matches Some(c) && a1_text(c) == letters + digits,
{
    let s = letters + digits;
    lemma_col_letters_canonical(letters);
    lemma_decimal_canonical(digits);
    assert forall|k: int| 0 <= k < s.len() implies !is_space(#[trigger] s[k]) by {
        if k < letters.len() {
            assert(s[k] == letters[k]);
        } else {
            assert(s[k] == digits[k - letters.len()]);
            assert(is_digit(digits[k - letters.len()]));
        }
    }
    lemma_trim_no_space(s);
    assert forall|k: int| 0 <= k < letters.len() implies !is_digit(#[trigger] letters[k]) by {
        assert('A' <= letters[k] <= 'Z');
    }
    assert(is_digit(digits[0]));
    lemma_first_digit_concat(letters, digits, 0);
    assert(s.take(letters.len() as int) == letters);
    assert(s.skip(letters.len() as int) == digits);
    assert(all_alpha(letters)) by {
        assert forall|k: int| 0 <= k < letters.len() implies is_alpha(#[trigger] letters[k]) by {
            assert('A' <= letters[k] <= 'Z');
        }
    }
    lemma_digits_value_mono(digits, 1);
    assert(digits.take(1).drop_last() == digits.take(0));
    assert(digits.take(1).last() == digits[0]);
    assert(digits_value(digits.take(0)) == 0);
}

/// The cells of a range are exactly those inside the rectangle its corners
/// span, each once, and there are as many as its width times its height.
pub proof fn lemma_range_cells(a: CellRef, b: CellRef, c: CellRef)
    ensures
        range_cells(a, b).contains(c) <==> (min_u32(a.col, b.col) <= c.col <= max_u32(a.col, b.col)
            && min_u32(a.row, b.row) <= c.row <= max_u32(a.row, b.row)),
        range_cells(a, b).len() == (max_u32(a.col, b.col) - min_u32(a.col, b.col) + 1) * (
        max_u32(a.row, b.row) - min_u32(a.row, b.row) + 1),
        range_cells(a, b).no_duplicates(),
{
    let r0 = min_u32(a.row, b.row);
    let r1 = max_u32(a.row, b.row);
    let c0 = min_u32(a.col, b.col);
    let c1 = max_u32(a.col, b.col);
    lemma_rect_len(r0, r1 as int, c0, c1);
    lemma_rect_contains(r0, r1 as int, c0, c1, c);
    lemma_rect_distinct(r0, r1 as int, c0, c1);
}

proof fn lemma_rect_len(r0: u32, r1: int, c0: u32, c1: u32)
    requires
        c0 <= c1,
        r1 <= u32::MAX,
    ensures
        rect_cells(r0, r1, c0, c1).len() == if r1 < r0 {
            0
        } else {
            (c1 - c0 + 1) * (r1 - r0 + 1)
        },
    decreases r1 - r0 + 1,
{
    if r1 >= r0 {
        lemma_rect_len(r0, r1 - 1, c0, c1);
        let prev = rect_cells(r0, r1 - 1, c0, c1);
        let w = c1 - c0 + 1;
        assert(row_cells(r1 as u32, c0, c1).len() == w);
        if r1 - 1 < r0 {
            assert(w * (r1 - r0 + 1) == w) by (nonlinear_arith)
                requires
                    r1 == r0,
            ;
        } else {
            assert(w * (r1 - r0) + w == w * (r1 - r0 + 1)) by (nonlinear_arith);
        }
    }
}

proof fn lemma_rect_contains(r0: u32, r1: int, c0: u32, c1: u32, c: CellRef)
    requires
        c0 <= c1,
        r1 <= u32::MAX,
    ensures
        rect_cells(r0, r1, c0, c1).contains(c) <==> (c0 <= c.col <= c1 && r0 <= c.row <= r1),
    decreases r1 - r0 + 1,
{
    let s = rect_cells(r0, r1, c0, c1);
    if r1 >= r0 {
        let prev = rect_cells(r0, r1 - 1, c0, c1);
        let row = row_cells(r1 as u32, c0, c1);
        lemma_rect_contains(r0, r1 - 1, c0, c1, c);
        assert(s == prev + row);
        if s.contains(c) {
            let k = choose|k: int| 0 <= k < s.len() && s[k] == c;
            if k >= prev.len() {
                assert(row[k - prev.len()] == c);
            } else {
                assert(prev[k] == c);
            }
        }
        if c0 <= c.col <= c1 && r0 <= c.row <= r1 - 1 {
            let k = choose|k: int| 0 <= k < prev.len() && prev[k] == c;
            assert(s[k] == c);
        }
        if c0 <= c.col <= c1 && c.row == r1 {
            assert(row[c.col - c0] == c);
            assert(s[prev.len() + c.col - c0] == c);
        }
    }
}

proof fn lemma_rect_distinct(r0: u32, r1: int, c0: u32, c1: u32)
    requires
        c0 <= c1,
        r1 <= u32::MAX,
    ensures
        rect_cells(r0, r1, c0, c1).no_duplicates(),
        forall|k: int|
            0 <= k < rect_cells(r0, r1, c0, c1).len() ==> (#[trigger] rect_cells(
                r0,
                r1,
                c0,
                c1,
            )[k]).row <= r1,
    decreases r1 - r0 + 1,
{
    let s = rect_cells(r0, r1, c0, c1);
    if r1 >= r0 {
        let prev = rect_cells(r0, r1 - 1, c0, c1);
        let row = row_cells(r1 as u32, c0, c1);
        lemma_rect_distinct(r0, r1 - 1, c0, c1);
        assert(s == prev + row);
        assert forall|k: int| 0 <= k < s.len() implies (#[trigger] s[k]).row <= r1 by {
            if k < prev.len() {
                assert(s[k] == prev[k]);
            } else {
                assert(s[k] == row[k - prev.len()]);
            }
        }
        assert forall|i: int, j: int| 0 <= i < s.len() && 0 <= j < s.len() && i != j implies s[i]
            != s[j] by {
            if i < prev.len() && j < prev.len() {
                assert(s[i] == prev[i] && s[j] == prev[j]);
            } else if i >= prev.len() && j >= prev.len() {
                assert(s[i] == row[i - prev.len()] && s[j] == row[j - prev.len()]);
            } else if i < prev.len() {
                assert(s[i] == prev[i] && prev[i].row <= r1 - 1);
                assert(s[j] == row[j - prev.len()]);
            } else {
                assert(s[j] == prev[j] && prev[j].row <= r1 - 1);
                assert(s[i] == row[i - prev.len()]);
            }
        }
    }
}


proof fn lemma_upper_char(c: char)
    ensures
        is_space(ascii_upper(c)) == is_space(c),
        is_digit(ascii_upper(c)) == is_digit(c),
        is_alpha(ascii_upper(c)) == is_alpha(c),
        is_alpha(c) ==> letter_value(ascii_upper(c)) == letter_value(c),
        !is_alpha(c) ==> ascii_upper(c) == c,
{
}

proof fn lemma_upper_trim_start(s: Seq<char>)
    ensures
        trim_start(upper(s)) == upper(trim_start(s)),
    decreases s.len(),
{
    if s.len() > 0 {
        lemma_upper_char(s[0]);
        assert(upper(s).drop_first() == upper(s.drop_first()));
        lemma_upper_trim_start(s.drop_first());
    }
}

proof fn lemma_upper_trim_end(s: Seq<char>)
    ensures
        trim_end(upper(s)) == upper(trim_end(s)),
    decreases s.len(),
{
    if s.len() > 0 {
        lemma_upper_char(s.last());
        assert(upper(s).drop_last() == upper(s.drop_last()));
        lemma_upper_trim_end(s.drop_last());
    }
}

proof fn lemma_upper_first_digit(t: Seq<char>, i: int)
    requires
        0 <= i,
    ensures
        first_digit_from(upper(t), i) == first_digit_from(t, i),
    decreases t.len() - i,
{
    assert(upper(t).len() == t.len());
    if i < t.len() {
        lemma_upper_char(t[i]);
        assert(upper(t)[i] == ascii_upper(t[i]));
        lemma_upper_first_digit(t, i + 1);
    }
}

proof fn lemma_upper_letters(l: Seq<char>)
    requires
        all_alpha(l),
    ensures
        all_alpha(upper(l)),
        letters_value(upper(l)) == letters_value(l),
    decreases l.len(),
{
    assert forall|k: int| 0 <= k < l.len() implies is_alpha(#[trigger] upper(l)[k]) by {
        lemma_upper_char(l[k]);
    }
    if l.len() > 0 {
        let p = l.drop_last();
        assert(all_alpha(p)) by {
            assert forall|k: int| 0 <= k < p.len() implies is_alpha(#[trigger] p[k]) by {
                assert(p[k] == l[k]);
            }
        }
        assert(upper(l).drop_last() == upper(p));
        lemma_upper_letters(p);
        lemma_upper_char(l.last());
    }
}

proof fn lemma_upper_alpha_back(l: Seq<char>)
    requires
        all_alpha(upper(l)),
    ensures
        all_alpha(l),
{
    assert forall|k: int| 0 <= k < l.len() implies is_alpha(#[trigger] l[k]) by {
        lemma_upper_char(l[k]);
        assert(upper(l)[k] == ascii_upper(l[k]));
    }
}

proof fn lemma_upper_digits(d: Seq<char>)
    ensures
        all_digits(upper(d)) == all_digits(d),
        all_digits(d) ==> upper(d) == d,
{
    if all_digits(d) {
        assert forall|k: int| 0 <= k < d.len() implies #[trigger] upper(d)[k] == d[k] by {
            lemma_upper_char(d[k]);
        }
        assert(upper(d) == d);
    }
    if all_digits(upper(d)) {
        assert forall|k: int| 0 <= k < d.len() implies is_digit(#[trigger] d[k]) by {
            lemma_upper_char(d[k]);
            assert(upper(d)[k] == ascii_upper(d[k]));
        }
    }
}

/// Reading A1 text does not depend on the case of its letters: `b12` names
/// the same cell as `B12`, and overflows exactly when it does.
pub proof fn lemma_a1_case_insensitive(s: Seq<char>)
    ensures
        a1_cell(upper(s)) == a1_cell(s),
        a1_overflows(upper(s)) == a1_overflows(s),
{
    lemma_upper_trim_start(s);
    lemma_upper_trim_end(trim_start(s));
    let t = trim(s);
    assert(trim(upper(s)) == upper(t));
    lemma_upper_first_digit(t, 0);
    let k = first_digit_from(t, 0);
    lemma_first_digit_bounds(t, 0);
    assert(upper(t).take(k) == upper(t.take(k)));
    assert(upper(t).skip(k) == upper(t.skip(k)));
    let l = t.take(k);
    let d = t.skip(k);
    assert(a1_letters(upper(s)) == upper(l));
    assert(a1_digits(upper(s)) == upper(d));
    lemma_upper_digits(d);
    if all_alpha(l) {
        lemma_upper_letters(l);
    }
    if all_alpha(upper(l)) {
        lemma_upper_alpha_back(l);
    }
}

proof fn lemma_first_digit_bounds(t: Seq<char>, i: int)
    requires
        0 <= i <= t.len(),
    ensures
        i <= first_digit_from(t, i) <= t.len(),
    decreases t.len() - i,
{
    if i < t.len() && !is_digit(t[i]) {
        lemma_first_digit_bounds(t, i + 1);
    }
}

} // verus!
