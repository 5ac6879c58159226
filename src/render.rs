use vstd::prelude::*;
use vstd::string::StringExecFns;

use crossterm::style::Stylize;

use crate::game::{Game, Hint};
use crate::line::Square;

verus! {

/// Row `k` of `buffer` after an object is placed at (`row`, `col`): the rows of `object`
/// replace `width` cells each, starting at column `col`.
pub open spec fn placed_row<T>(old_row: Seq<T>, obj_row: Seq<T>, col: int, width: int) -> Seq<T> {
    old_row.take(col) + obj_row + old_row.skip(col + width)
}

/// Copies `object` into `buffer` with its top left corner at (`row`, `col`). Each row of
/// the object replaces as many cells as the object's first row has.
pub fn place_object<T>(object: Vec<Vec<T>>, row: usize, col: usize, buffer: &mut Vec<Vec<T>>)
    requires
        object@.len() >= 1,
        row + object@.len() <= old(buffer)@.len(),
        forall|i: int| 0 <= i < object@.len() ==> col + object@[0]@.len() <= (#[trigger] old(buffer)@[row + i])@.len(),
    ensures
        final(buffer)@.len() == old(buffer)@.len(),
        forall|k: int| 0 <= k < old(buffer)@.len() && !(row <= k < row + object@.len()) ==> #[trigger] final(buffer)@[k] == old(buffer)@[k],
        forall|i: int| 0 <= i < object@.len() ==> (#[trigger] final(buffer)@[row + i])@ == placed_row(
            old(buffer)@[row + i]@,
            object@[i]@,
            col as int,
            object@[0]@.len() as int,
        ),
{
    let n = object.len();
    let obj_cols = object[0].len();
    let blen = buffer.len();
    let ghost obj = object@;
    let mut object = object;
    let mut i: usize = 0;
    while i < n
        invariant
            n == obj.len() >= 1,
            obj_cols == obj[0]@.len(),
            row + n <= buffer@.len(),
            buffer@.len() == old(buffer)@.len() == blen,
            i <= n,
            object@ == obj.skip(i as int),
            forall|k: int| 0 <= k < old(buffer)@.len() && !(row <= k < row + i) ==> #[trigger] buffer@[k] == old(buffer)@[k],
            forall|a: int| 0 <= a < n ==> col + obj_cols <= (#[trigger] old(buffer)@[row + a])@.len(),
            forall|a: int| 0 <= a < i ==> (#[trigger] buffer@[row + a])@ == placed_row(
                old(buffer)@[row + a]@,
                obj[a]@,
                col as int,
                obj_cols as int,
            ),
        decreases n - i,
    {
        let mut obj_row = object.remove(0);
        assert(obj_row == obj[i as int]);
        let ghost b0 = buffer@;
        let mut r = buffer.remove(row + i);
        assert(r == old(buffer)@[row + i]);
        let ghost r0 = r@;
        let rlen = r.len();
        assert(col + obj_cols <= rlen);
        let mut tail = r.split_off(col + obj_cols);
        r.truncate(col);
        r.append(&mut obj_row);
        r.append(&mut tail);
        assert(r@ =~= placed_row(r0, obj[i as int]@, col as int, obj_cols as int));
        buffer.insert(row + i, r);
        assert(buffer@ =~= b0.update(row + i, buffer@[row + i]));
        assert(object@ =~= obj.skip(i + 1));
        i = i + 1;
    }
}

/// The rows of `buffer`, each the concatenation of its strings, joined by newlines.
pub open spec fn joined(buffer: Seq<Seq<String>>) -> Seq<char>
    decreases buffer.len(),
{
    if buffer.len() == 0 {
        seq![]
    } else if buffer.len() == 1 {
        concat(buffer[0])
    } else {
        joined(buffer.drop_last()) + seq!['\n'] + concat(buffer.last())
    }
}

/// The concatenation of `row`.
pub open spec fn concat(row: Seq<String>) -> Seq<char>
    decreases row.len(),
{
    if row.len() == 0 { seq![] } else { concat(row.drop_last()) + row.last()@ }
}

/// The strings of `buffer` row by row, rows separated by newlines.
pub fn double_vec_to_string(buffer: Vec<Vec<String>>) -> (r: String)
    ensures
        r@ == joined(buffer@.map_values(|row: Vec<String>| row@)),
{
    let ghost rows = buffer@.map_values(|row: Vec<String>| row@);
    let mut out = String::from_str("");
    proof {
        reveal_strlit("");
    }
    let mut i: usize = 0;
    while i < buffer.len()
        invariant
            rows == buffer@.map_values(|row: Vec<String>| row@),
            i <= buffer@.len(),
            out@ == joined(rows.take(i as int)),
        decreases buffer@.len() - i,
    {
        if i > 0 {
            out.append("\n");
            proof {
                reveal_strlit("\n");
            }
        }
        let ghost before = out@;
        let inner = &buffer[i];
        let mut j: usize = 0;
        while j < inner.len()
            invariant
                i < buffer@.len(),
                inner == buffer@[i as int],
                j <= inner@.len(),
                out@ == before + concat(inner@.take(j as int)),
            decreases inner@.len() - j,
        {
            out.append(inner[j].as_str());
            assert(inner@.take(j + 1).drop_last() =~= inner@.take(j as int));
            j = j + 1;
        }
        assert(inner@.take(j as int) =~= inner@);
        assert(rows.take(i + 1).drop_last() =~= rows.take(i as int));
        assert(rows[i as int] == inner@);
        if i == 0 {
            assert(before =~= seq![]);
        }
        i = i + 1;
    }
    assert(rows.take(i as int) =~= rows);
    out
}

/// `m` with rows and columns exchanged: `r[j][i]` is `m[i][j]`.
fn transpose(matrix: Vec<Vec<String>>) -> (r: Vec<Vec<String>>)
    requires
        matrix@.len() >= 1,
        forall|i: int| 0 <= i < matrix@.len() ==> (#[trigger] matrix@[i])@.len() == matrix@[0]@.len(),
    ensures
        r@.len() == matrix@[0]@.len(),
        forall|j: int| 0 <= j < r@.len() ==> (#[trigger] r@[j])@.len() == matrix@.len(),
        forall|i: int, j: int| 0 <= i < matrix@.len() && 0 <= j < matrix@[0]@.len() ==> r@[j]@[i] == matrix@[i]@[j],
{
    let rows = matrix.len();
    let cols = matrix[0].len();
    let mut transposed: Vec<Vec<String>> = Vec::new();
    let mut j: usize = 0;
    while j < cols
        invariant
            rows == matrix@.len() >= 1,
            cols == matrix@[0]@.len(),
            forall|i: int| 0 <= i < matrix@.len() ==> (#[trigger] matrix@[i])@.len() == cols,
            j <= cols,
            transposed@.len() == j,
            forall|b: int| 0 <= b < j ==> (#[trigger] transposed@[b])@.len() == rows,
            forall|a: int, b: int| 0 <= a < rows && 0 <= b < j ==> transposed@[b]@[a] == matrix@[a]@[b],
        decreases cols - j,
    {
        let mut column: Vec<String> = Vec::new();
        let mut i: usize = 0;
        while i < rows
            invariant
                rows == matrix@.len(),
                forall|a: int| 0 <= a < matrix@.len() ==> (#[trigger] matrix@[a])@.len() == cols,
                j < cols,
                i <= rows,
                column@.len() == i,
                forall|a: int| 0 <= a < i ==> column@[a] == matrix@[a]@[j as int],
            decreases rows - i,
        {
            column.push(matrix[i][j].clone());
            i = i + 1;
        }
        transposed.push(column);
        j = j + 1;
    }
    transposed
}

/// The decimal digit `d`.
pub open spec fn digit_char(d: int) -> char {
    ((d + 48) as u8) as char
}

/// `n` written in decimal.
pub open spec fn dec_digits(n: int) -> Seq<char>
    decreases n,
{
    if n < 10 || n <= 0 { seq![digit_char(n)] } else { dec_digits(n / 10).push(digit_char(n % 10)) }
}

/// The widest segment of `h`, in decimal digits.
pub open spec fn hint_width(h: Seq<u32>) -> int
    decreases h.len(),
{
    if h.len() == 0 {
        0
    } else {
        let a = hint_width(h.drop_last());
        let b = dec_digits(h.last() as int).len() as int;
        if a >= b { a } else { b }
    }
}

/// The widest segment of all hints, in decimal digits.
pub open spec fn max_width(hints: Seq<Seq<u32>>) -> int
    decreases hints.len(),
{
    if hints.len() == 0 {
        0
    } else {
        let a = max_width(hints.drop_last());
        let b = hint_width(hints.last());
        if a >= b { a } else { b }
    }
}

/// The most segments of any hint.
pub open spec fn max_segments(hints: Seq<Seq<u32>>) -> int
    decreases hints.len(),
{
    if hints.len() == 0 {
        0
    } else {
        let a = max_segments(hints.drop_last());
        let b = hints.last().len() as int;
        if a >= b { a } else { b }
    }
}

/// The hints as sequences.
pub open spec fn hint_views(hints: Seq<Hint>) -> Seq<Seq<u32>> {
    hints.map_values(|h: Hint| h@)
}

/// Slot `j` of `ms` slots for `hint`, its segments pushed to the right: empty before them.
pub open spec fn hint_segment(hint: Seq<u32>, ms: int, j: int) -> Option<u32> {
    if j < ms - hint.len() { None } else { Some(hint[j - (ms - hint.len())]) }
}

/// A slot's text: its segment in decimal, right-aligned in `w` characters.
pub open spec fn padded(seg: Option<u32>, w: int) -> Seq<char> {
    let d = match seg {
        Some(x) => dec_digits(x as int),
        None => seq![],
    };
    Seq::new((w - d.len()) as nat, |i: int| ' ') + d
}

/// Each character of `s` with the shade `dark`.
pub open spec fn shade(s: Seq<char>, dark: bool) -> Seq<(char, bool)> {
    Seq::new(s.len(), |i: int| (s[i], dark))
}

/// The first `j` slots of a hint's margin, each character with its shade: slots alternate
/// light and dark, starting light.
pub open spec fn hint_cells(hint: Seq<u32>, ms: int, w: int, j: int) -> Seq<(char, bool)>
    decreases j,
{
    if j <= 0 {
        seq![]
    } else {
        hint_cells(hint, ms, w, j - 1) + shade(padded(hint_segment(hint, ms, j - 1), w), (j - 1) % 2 == 1)
    }
}

proof fn lemma_dec_len(n: int)
    ensures
        dec_digits(n).len() >= 1,
    decreases n,
{
    if !(n < 10 || n <= 0) {
        lemma_dec_len(n / 10);
    }
}

proof fn lemma_hint_width(h: Seq<u32>, k: int)
    requires
        0 <= k < h.len(),
    ensures
        dec_digits(h[k] as int).len() <= hint_width(h),
    decreases h.len(),
{
    if k < h.len() - 1 {
        lemma_hint_width(h.drop_last(), k);
    }
}

proof fn lemma_max_width(hints: Seq<Seq<u32>>, i: int)
    requires
        0 <= i < hints.len(),
    ensures
        hint_width(hints[i]) <= max_width(hints),
        hints[i].len() <= max_segments(hints),
    decreases hints.len(),
{
    if i < hints.len() - 1 {
        lemma_max_width(hints.drop_last(), i);
    }
}

/// A hint with a segment makes the widest segment at least one digit wide.
proof fn lemma_width_positive(hints: Seq<Seq<u32>>, i: int)
    requires
        0 <= i < hints.len(),
        hints[i].len() > 0,
    ensures
        max_width(hints) >= 1,
{
    lemma_hint_width(hints[i], 0);
    lemma_dec_len(hints[i][0] as int);
    lemma_max_width(hints, i);
}

proof fn lemma_hint_cells_len(hint: Seq<u32>, ms: int, w: int, j: int)
    requires
        hint.len() <= ms,
        0 <= j <= ms,
        0 <= w,
        forall|k: int| 0 <= k < hint.len() ==> dec_digits(#[trigger] hint[k] as int).len() <= w,
    ensures
        hint_cells(hint, ms, w, j).len() == j * w,
    decreases j,
{
    if j > 0 {
        lemma_hint_cells_len(hint, ms, w, j - 1);
        assert((j - 1) * w + w == j * w) by (nonlinear_arith);
        let seg = hint_segment(hint, ms, j - 1);
        match seg {
            Some(x) => {
                assert(dec_digits(hint[j - 1 - (ms - hint.len())] as int).len() <= w);
            },
            None => {},
        }
        assert(padded(seg, w).len() == w);
        assert(shade(padded(seg, w), (j - 1) % 2 == 1).len() == w);
    } else {
        assert(j * w == 0) by (nonlinear_arith)
            requires j == 0;
    }
}

/// `n` in decimal.
fn decimal(n: u32) -> (r: Vec<char>)
    ensures
        r@ == dec_digits(n as int),
    decreases n,
{
    let d: u8 = (n % 10) as u8;
    let c = (d + 48) as char;
    if n < 10 {
        let mut v: Vec<char> = Vec::new();
        v.push(c);
        v
    } else {
        let mut v = decimal(n / 10);
        v.push(c);
        v
    }
}

/// The widest segment of `h`, in decimal digits.
fn hint_digits(h: &Hint) -> (r: usize)
    ensures
        r == hint_width(h@),
{
    let mut w: usize = 0;
    let mut k: usize = 0;
    while k < h.len()
        invariant
            k <= h@.len(),
            w == hint_width(h@.take(k as int)),
            w <= 10,
        decreases h@.len() - k,
    {
        let d = decimal(h[k]).len();
        proof {
            assert(h@.take(k + 1).drop_last() =~= h@.take(k as int));
            lemma_dec_short(h@[k as int] as int);
        }
        if d > w {
            w = d;
        }
        k = k + 1;
    }
    assert(h@.take(k as int) =~= h@);
    w
}

proof fn lemma_dec_short(n: int)
    requires
        0 <= n <= u32::MAX,
    ensures
        dec_digits(n).len() <= 10,
{
    reveal_with_fuel(pow10, 11);
    assert(pow10(10) == 10000000000);
    lemma_dec_bound(n, 10);
}

proof fn lemma_dec_bound(n: int, k: int)
    requires
        0 <= n,
        1 <= k,
        n < pow10(k),
    ensures
        dec_digits(n).len() <= k,
    decreases k,
{
    if n >= 10 {
        assert(n / 10 < pow10(k - 1)) by {
            assert(pow10(k) == 10 * pow10(k - 1));
        }
        if k - 1 >= 1 {
            lemma_dec_bound(n / 10, k - 1);
        } else {
            assert(pow10(0) == 1);
        }
    }
}

pub open spec fn pow10(k: int) -> int
    decreases k,
{
    if k <= 0 { 1 } else { 10 * pow10(k - 1) }
}

/// The characters of each hint's margin, each with its shade (`true` for dark): every
/// hint takes as many slots as the longest hint, segments pushed to the right, each slot
/// as wide as the widest segment.
pub fn hint_layout(hints: &[Hint]) -> (r: Vec<Vec<(char, bool)>>)
    requires
        exists|i: int| 0 <= i < hints@.len() && (#[trigger] hints@[i])@.len() > 0,
    ensures
        r@.len() == hints@.len(),
        forall|i: int| 0 <= i < hints@.len() ==> (#[trigger] r@[i])@ == hint_cells(
            hints@[i]@,
            max_segments(hint_views(hints@)),
            max_width(hint_views(hints@)),
            max_segments(hint_views(hints@)),
        ),
{
    let ghost hv = hint_views(hints@);
    let mut w: usize = 0;
    let mut ms: usize = 0;
    let mut i: usize = 0;
    while i < hints.len()
        invariant
            hv == hint_views(hints@),
            i <= hints@.len(),
            w == max_width(hv.take(i as int)),
            ms == max_segments(hv.take(i as int)),
            w <= 10,
        decreases hints@.len() - i,
    {
        let hw = hint_digits(&hints[i]);
        let hl = hints[i].len();
        proof {
            assert(hv.take(i + 1).drop_last() =~= hv.take(i as int));
            if hints@[i as int]@.len() > 0 {
                assert(hw <= 10) by {
                    let h = hints@[i as int]@;
                    assert forall|k: int| 0 <= k < h.len() implies dec_digits(h[k] as int).len() <= 10 by {
                        lemma_dec_short(h[k] as int);
                    }
                    lemma_width_le(h, 10);
                }
            } else {
                assert(hw == 0);
            }
        }
        if hw > w {
            w = hw;
        }
        if hl > ms {
            ms = hl;
        }
        i = i + 1;
    }
    assert(hv.take(i as int) =~= hv);
    let mut out: Vec<Vec<(char, bool)>> = Vec::new();
    let mut i: usize = 0;
    while i < hints.len()
        invariant
            hv == hint_views(hints@),
            w == max_width(hv),
            ms == max_segments(hv),
            i <= hints@.len(),
            out@.len() == i,
            forall|a: int| 0 <= a < i ==> (#[trigger] out@[a])@ == hint_cells(hints@[a]@, ms as int, w as int, ms as int),
        decreases hints@.len() - i,
    {
        let hint = &hints[i];
        let ghost h = hint@;
        proof {
            assert(hv[i as int] == h);
            lemma_max_width(hv, i as int);
        }
        let segments = hint.len();
        let mut row: Vec<(char, bool)> = Vec::new();
        let mut dark_grey = false;
        let mut j: usize = 0;
        while j < ms
            invariant
                h == hint@,
                segments == h.len() <= ms,
                hint_width(h) <= w,
                j <= ms,
                dark_grey == (j % 2 == 1),
                row@ == hint_cells(h, ms as int, w as int, j as int),
            decreases ms - j,
        {
            let digits: Vec<char> = if j < ms - segments {
                Vec::new()
            } else {
                proof {
                    lemma_hint_width(h, j - (ms - segments));
                }
                decimal(hint[j - (ms - segments)])
            };
            assert(digits@.len() <= w);
            let ghost before = row@;
            let pad = w - digits.len();
            let mut t: usize = 0;
            while t < pad
                invariant
                    t <= pad,
                    row@ == before + shade(Seq::new(t as nat, |x: int| ' '), dark_grey),
                decreases pad - t,
            {
                row.push((' ', dark_grey));
                t = t + 1;
                assert(row@ =~= before + shade(Seq::new(t as nat, |x: int| ' '), dark_grey));
            }
            let ghost mid = row@;
            let mut t: usize = 0;
            while t < digits.len()
                invariant
                    t <= digits@.len(),
                    row@ == mid + shade(digits@.take(t as int), dark_grey),
                decreases digits@.len() - t,
            {
                row.push((digits[t], dark_grey));
                t = t + 1;
                assert(row@ =~= mid + shade(digits@.take(t as int), dark_grey));
            }
            proof {
                let seg = hint_segment(h, ms as int, j as int);
                assert(digits@ == match seg {
                    Some(x) => dec_digits(x as int),
                    None => Seq::<char>::empty(),
                });
                assert(digits@.take(digits@.len() as int) =~= digits@);
                assert(row@ =~= before + shade(padded(seg, w as int), dark_grey));
            }
            dark_grey = !dark_grey;
            j = j + 1;
        }
        out.push(row);
        i = i + 1;
    }
    out
}

proof fn lemma_width_le(h: Seq<u32>, b: int)
    requires
        0 <= b,
        forall|k: int| 0 <= k < h.len() ==> dec_digits(#[trigger] h[k] as int).len() <= b,
    ensures
        hint_width(h) <= b,
    decreases h.len(),
{
    if h.len() > 0 {
        lemma_width_le(h.drop_last(), b);
        assert(dec_digits(h[h.len() - 1] as int).len() <= b);
    }
}

/// Relies on crossterm's `Stylize::on_white` and the `Display` of `StyledContent`: `text`
/// on a white background. The escape sequences depend on the `NO_COLOR` variable.
#[verifier::external_body]
fn on_white(text: &str) -> String {
    text.on_white().to_string()
}

/// Relies on crossterm's `Stylize::black` and `Stylize::on_white` and the `Display` of
/// `StyledContent`: `text` in black on white. The escape sequences depend on `NO_COLOR`.
#[verifier::external_body]
fn black_on_white(text: &str) -> String {
    text.black().on_white().to_string()
}

/// Relies on crossterm's `Stylize::black` and `Stylize::on_dark_grey` and the `Display` of
/// `StyledContent`: `c` in black on dark grey. The escape sequences depend on `NO_COLOR`.
#[verifier::external_body]
fn black_on_dark_grey(c: char) -> String {
    c.black().on_dark_grey().to_string()
}

/// Relies on crossterm's `Stylize::black` and `Stylize::on_grey` and the `Display` of
/// `StyledContent`: `c` in black on grey. The escape sequences depend on `NO_COLOR`.
#[verifier::external_body]
fn black_on_grey(c: char) -> String {
    c.black().on_grey().to_string()
}

/// The number of characters of every rendered hint margin.
pub open spec fn margin_width(hints: Seq<Hint>) -> int {
    max_segments(hint_views(hints)) * max_width(hint_views(hints))
}

proof fn lemma_margin_rows(hints: Seq<Hint>, i: int)
    requires
        0 <= i < hints.len(),
    ensures
        hint_cells(hints[i]@, max_segments(hint_views(hints)), max_width(hint_views(hints)), max_segments(hint_views(hints))).len()
            == margin_width(hints),
{
    let hv = hint_views(hints);
    assert(hv[i] == hints[i]@);
    lemma_max_width(hv, i);
    let h = hints[i]@;
    assert forall|k: int| 0 <= k < h.len() implies dec_digits(#[trigger] h[k] as int).len() <= max_width(hv) by {
        lemma_hint_width(h, k);
    }
    assert(max_segments(hv) >= 0 && max_width(hv) >= 0) by {
        lemma_nonneg(hv);
    }
    lemma_hint_cells_len(h, max_segments(hv), max_width(hv), max_segments(hv));
}

proof fn lemma_nonneg(hints: Seq<Seq<u32>>)
    ensures
        max_segments(hints) >= 0,
        max_width(hints) >= 0,
    decreases hints.len(),
{
    if hints.len() > 0 {
        lemma_nonneg(hints.drop_last());
    }
}

impl Game {
    /// The margin of `hints`, one row of styled characters per hint: the layout of
    /// `hint_layout`, light slots on grey and dark ones on dark grey.
    pub fn render_hints(hints: &[Hint]) -> (r: Vec<Vec<String>>)
        requires
            exists|i: int| 0 <= i < hints@.len() && (#[trigger] hints@[i])@.len() > 0,
        ensures
            r@.len() == hints@.len(),
            forall|i: int| 0 <= i < hints@.len() ==> (#[trigger] r@[i])@.len() == margin_width(hints@),
    {
        let layout = hint_layout(hints);
        let mut out: Vec<Vec<String>> = Vec::new();
        let mut i: usize = 0;
        while i < layout.len()
            invariant
                layout@.len() == hints@.len(),
                forall|a: int| 0 <= a < hints@.len() ==> (#[trigger] layout@[a])@ == hint_cells(
                    hints@[a]@,
                    max_segments(hint_views(hints@)),
                    max_width(hint_views(hints@)),
                    max_segments(hint_views(hints@)),
                ),
                i <= layout@.len(),
                out@.len() == i,
                forall|a: int| 0 <= a < i ==> (#[trigger] out@[a])@.len() == margin_width(hints@),
            decreases layout@.len() - i,
        {
            let cells = &layout[i];
            let mut row: Vec<String> = Vec::new();
            let mut j: usize = 0;
            while j < cells.len()
                invariant
                    j <= cells@.len(),
                    row@.len() == j,
                decreases cells@.len() - j,
            {
                let (c, dark) = cells[j];
                if dark {
                    row.push(black_on_dark_grey(c));
                } else {
                    row.push(black_on_grey(c));
                }
                j = j + 1;
            }
            proof {
                lemma_margin_rows(hints@, i as int);
            }
            out.push(row);
            i = i + 1;
        }
        out
    }

    /// The grid, one styled string per cell: blank on white for an unknown cell, a black
    /// square for a filled one, a black cross for an empty one.
    pub fn render_grid(&self) -> (r: Vec<Vec<String>>)
        requires
            self.wf(),
        ensures
            r@.len() == self.rows,
            forall|i: int| 0 <= i < self.rows ==> (#[trigger] r@[i])@.len() == self.cols,
    {
        let mut out: Vec<Vec<String>> = Vec::new();
        let mut i: usize = 0;
        while i < self.rows
            invariant
                self.wf(),
                i <= self.rows,
                out@.len() == i,
                forall|a: int| 0 <= a < i ==> (#[trigger] out@[a])@.len() == self.cols,
            decreases self.rows - i,
        {
            let mut row: Vec<String> = Vec::new();
            let mut j: usize = 0;
            while j < self.grid[i].len()
                invariant
                    self.wf(),
                    i < self.rows,
                    j <= self.grid@[i as int]@.len(),
                    row@.len() == j,
                decreases self.grid@[i as int]@.len() - j,
            {
                let cell = match self.grid[i][j] {
                    Square::Unknown => on_white(" "),
                    Square::Filled => black_on_white("■"),
                    Square::Empty => black_on_white("X"),
                };
                row.push(cell);
                j = j + 1;
            }
            out.push(row);
            i = i + 1;
        }
        out
    }

    /// The whole picture: the column hints above the grid, the row hints to its left, and
    /// blanks in the corner. Records where the grid starts in `grid_pos`.
    pub fn render_all(&mut self) -> (r: Vec<Vec<String>>)
        requires
            old(self).wf(),
            old(self).rows >= 1,
            old(self).cols >= 1,
            exists|i: int| 0 <= i < old(self).row_hints@.len() && (#[trigger] old(self).row_hints@[i])@.len() > 0,
            exists|i: int| 0 <= i < old(self).col_hints@.len() && (#[trigger] old(self).col_hints@[i])@.len() > 0,
            margin_width(old(self).col_hints@) + old(self).rows <= usize::MAX,
            margin_width(old(self).row_hints@) + old(self).cols <= usize::MAX,
        ensures
            final(self).grid_pos == Some((margin_width(old(self).col_hints@) as usize, margin_width(old(self).row_hints@) as usize)),
            final(self).rows == old(self).rows,
            final(self).cols == old(self).cols,
            final(self).grid == old(self).grid,
            final(self).row_hints == old(self).row_hints,
            final(self).col_hints == old(self).col_hints,
            r@.len() == margin_width(old(self).col_hints@) + old(self).rows,
            forall|i: int| 0 <= i < r@.len() ==> (#[trigger] r@[i])@.len() == margin_width(old(self).row_hints@) + old(self).cols,
            forall|i: int, j: int| 0 <= i < margin_width(old(self).col_hints@) && 0 <= j < margin_width(old(self).row_hints@)
                ==> r@[i]@[j]@ == seq![' '],
    {
        let rendered_row_hints = Self::render_hints(self.row_hints.as_slice());
        let col_margin = Self::render_hints(self.col_hints.as_slice());
        proof {
            assert(col_margin@[0]@.len() == margin_width(self.col_hints@));
        }
        let rendered_col_hints = transpose(col_margin);
        proof {
            let k = choose|k: int| 0 <= k < self.col_hints@.len() && (#[trigger] self.col_hints@[k])@.len() > 0;
            let hv = hint_views(self.col_hints@);
            assert(hv[k] == self.col_hints@[k]@);
            lemma_width_positive(hv, k);
            lemma_max_width(hv, k);
            let a = max_segments(hv);
            let b = max_width(hv);
            assert(a * b >= 1) by (nonlinear_arith)
                requires a >= 1, b >= 1;
            assert(rendered_col_hints@[0]@.len() == self.cols);
        }
        let top = rendered_col_hints.len();
        let left = rendered_row_hints[0].len();
        let height = top + rendered_row_hints.len();
        let width = rendered_col_hints[0].len() + left;
        let ghost mc = margin_width(self.col_hints@);
        let ghost mr = margin_width(self.row_hints@);
        assert(top == mc && left == mr && height == mc + self.rows && width == self.cols + mr);
        let mut rendered_game: Vec<Vec<String>> = Vec::new();
        let mut i: usize = 0;
        while i < height
            invariant
                i <= height,
                rendered_game@.len() == i,
                forall|a: int| 0 <= a < i ==> (#[trigger] rendered_game@[a])@.len() == width,
                forall|a: int, b: int| 0 <= a < i && 0 <= b < width ==> rendered_game@[a]@[b]@ == seq![' '],
            decreases height - i,
        {
            let mut row: Vec<String> = Vec::new();
            let mut j: usize = 0;
            while j < width
                invariant
                    j <= width,
                    row@.len() == j,
                    forall|b: int| 0 <= b < j ==> row@[b]@ == seq![' '],
                decreases width - j,
            {
                let blank = String::from_str(" ");
                proof {
                    reveal_strlit(" ");
                }
                row.push(blank);
                j = j + 1;
            }
            rendered_game.push(row);
            i = i + 1;
        }
        let ghost g0 = rendered_game@;
        place_object(rendered_col_hints, 0, left, &mut rendered_game);
        proof {
            assert forall|a: int| 0 <= a < height implies (#[trigger] rendered_game@[a])@.len() == width by {
                if a < top {
                    assert(rendered_game@[0 + a]@.len() == width);
                }
            }
            assert forall|a: int, b: int| 0 <= a < top && 0 <= b < left implies rendered_game@[a]@[b]@ == seq![' '] by {
                assert(rendered_game@[0 + a]@ == placed_row(g0[0 + a]@, rendered_col_hints@[a]@, left as int, self.cols as int));
            }
        }
        let ghost g1 = rendered_game@;
        place_object(rendered_row_hints, top, 0, &mut rendered_game);
        proof {
            assert forall|a: int| 0 <= a < height implies (#[trigger] rendered_game@[a])@.len() == width by {
                if a >= top {
                    assert(rendered_game@[top + (a - top)]@.len() == width);
                }
            }
            assert forall|a: int, b: int| 0 <= a < top && 0 <= b < left implies rendered_game@[a]@[b]@ == seq![' '] by {
                assert(rendered_game@[a] == g1[a]);
            }
        }
        self.grid_pos = Some((top, left));
        let grid = self.render_grid();
        let ghost g2 = rendered_game@;
        place_object(grid, top, left, &mut rendered_game);
        proof {
            assert forall|a: int| 0 <= a < height implies (#[trigger] rendered_game@[a])@.len() == width by {
                if a >= top {
                    assert(rendered_game@[top + (a - top)]@.len() == width);
                }
            }
            assert forall|a: int, b: int| 0 <= a < top && 0 <= b < left implies rendered_game@[a]@[b]@ == seq![' '] by {
                assert(rendered_game@[a] == g2[a]);
            }
        }
        rendered_game
    }
}

} // verus!
