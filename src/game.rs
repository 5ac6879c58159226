use vstd::prelude::*;

use crate::line::{matches_hint, Square};
use crate::placement::{lemma_matches_overlay, overlay, solvable, valid_placement};
use crate::refine::{
    completion, fully_known, lemma_refine_settles, lemma_refine_sound, refined, try_refine_line,
};

verus! {

/// The lengths of the filled segments of one line, in order.
pub type Hint = Vec<u32>;

/// For one cell of a line: the index in the hint of the segment that covers it, if any.
pub type SegmentPlacement = Option<usize>;

/// A nonogram: the hints of its rows and columns and what is known of each cell.
pub struct Game {
    pub rows: usize,
    pub cols: usize,
    pub col_hints: Vec<Hint>,
    pub row_hints: Vec<Hint>,
    /// Where the grid was drawn by the last full render, as (row, column).
    pub grid_pos: Option<(usize, usize)>,
    pub grid: Vec<Vec<Square>>,
}

/// One line of the grid.
#[derive(Clone, Copy, Debug, PartialEq, Eq, Structural)]
pub enum Job {
    Row(usize),
    Col(usize),
}

/// Why solving stopped before every line was decided.
#[derive(Clone, Copy, Debug, PartialEq, Eq, Structural)]
pub enum SolveError {
    /// A full pass changed no cell while some line was still undecided.
    Stuck,
    /// Some line has no placement of its hint that agrees with it.
    Contradiction,
}

/// `sol` solves the puzzle of `game`: a fully known grid of the game's size in which every
/// row and every column has a valid placement of its hint.
pub open spec fn is_solution(game: Game, sol: Seq<Seq<Square>>) -> bool {
    &&& sol.len() == game.rows
    &&& forall|r: int| 0 <= r < game.rows ==> (#[trigger] sol[r]).len() == game.cols && fully_known(sol[r])
        && solvable(game.row_hint(r), sol[r])
    &&& forall|c: int| 0 <= c < game.cols ==> solvable(game.col_hint(c), #[trigger] col_of(sol, c))
}

/// Every known cell of `g` is the same in `sol`.
pub open spec fn agrees(g: Seq<Seq<Square>>, sol: Seq<Seq<Square>>) -> bool {
    forall|r: int, c: int| 0 <= r < g.len() && 0 <= c < g[r].len() && g[r][c] != Square::Unknown
        ==> #[trigger] sol[r][c] == g[r][c]
}

/// A fully known line with a valid placement of its hint matches the hint.
pub proof fn lemma_known_solvable_matches(hint: Seq<u32>, s: Seq<Square>)
    requires
        fully_known(s),
        solvable(hint, s),
    ensures
        matches_hint(hint, s),
{
    let q = choose|q: Seq<int>| valid_placement(hint, s, q);
    assert(overlay(s, hint, q) =~= s);
    lemma_matches_overlay(hint, s, q);
}

/// Every row and column of a solution matches its hint.
pub proof fn lemma_solution_matches(game: Game, sol: Seq<Seq<Square>>)
    requires
        is_solution(game, sol),
    ensures
        forall|r: int| 0 <= r < game.rows ==> matches_hint(game.row_hint(r), #[trigger] sol[r]),
        forall|c: int| 0 <= c < game.cols ==> matches_hint(game.col_hint(c), #[trigger] col_of(sol, c)),
{
    assert forall|r: int| 0 <= r < game.rows implies matches_hint(game.row_hint(r), #[trigger] sol[r]) by {
        lemma_known_solvable_matches(game.row_hint(r), sol[r]);
    }
    assert forall|c: int| 0 <= c < game.cols implies matches_hint(game.col_hint(c), #[trigger] col_of(sol, c)) by {
        assert forall|r: int| 0 <= r < col_of(sol, c).len() implies col_of(sol, c)[r] != Square::Unknown by {
            assert(sol[r].len() == game.cols && fully_known(sol[r]));
        }
        lemma_known_solvable_matches(game.col_hint(c), col_of(sol, c));
    }
}

proof fn lemma_row_completion(game: Game, g: Seq<Seq<Square>>, sol: Seq<Seq<Square>>, i: int)
    requires
        is_solution(game, sol),
        agrees(g, sol),
        g.len() == game.rows,
        forall|r: int| 0 <= r < g.len() ==> (#[trigger] g[r]).len() == game.cols,
        0 <= i < game.rows,
    ensures
        completion(game.row_hint(i), g[i], sol[i]),
{
    assert(sol[i].len() == game.cols);
    assert forall|j: int| 0 <= j < g[i].len() && g[i][j] != Square::Unknown implies sol[i][j] == g[i][j] by {
        assert(sol[i][j] == g[i][j]);
    }
}

proof fn lemma_col_completion(game: Game, g: Seq<Seq<Square>>, sol: Seq<Seq<Square>>, c: int)
    requires
        is_solution(game, sol),
        agrees(g, sol),
        g.len() == game.rows,
        forall|r: int| 0 <= r < g.len() ==> (#[trigger] g[r]).len() == game.cols,
        0 <= c < game.cols,
    ensures
        completion(game.col_hint(c), col_of(g, c), col_of(sol, c)),
{
    assert forall|r: int| 0 <= r < col_of(sol, c).len() implies col_of(sol, c)[r] != Square::Unknown by {
        assert(sol[r].len() == game.cols && fully_known(sol[r]));
    }
    assert forall|r: int| 0 <= r < g.len() && col_of(g, c)[r] != Square::Unknown implies col_of(sol, c)[r] == col_of(g, c)[r] by {
        assert(g[r].len() == game.cols);
        assert(sol[r][c] == g[r][c]);
    }
}

/// A grid whose rows are fully known agrees with at most one solution: so `solve` on a
/// puzzle with two solutions that agree with the start never returns `Ok`.
pub proof fn lemma_known_grid_one_solution(game: Game, g: Seq<Seq<Square>>, s1: Seq<Seq<Square>>, s2: Seq<Seq<Square>>)
    requires
        is_solution(game, s1),
        is_solution(game, s2),
        g.len() == game.rows,
        forall|r: int| 0 <= r < g.len() ==> (#[trigger] g[r]).len() == game.cols && fully_known(g[r]),
        agrees(g, s1),
        agrees(g, s2),
    ensures
        s1 == s2,
{
    assert forall|r: int| 0 <= r < s1.len() implies s1[r] == s2[r] by {
        assert(g[r].len() == game.cols && fully_known(g[r]));
        assert(s1[r].len() == game.cols);
        assert(s2[r].len() == game.cols);
        assert forall|c: int| 0 <= c < s1[r].len() implies s1[r][c] == s2[r][c] by {
            assert(s1[r][c] == g[r][c]);
            assert(s2[r][c] == g[r][c]);
        }
        assert(s1[r] =~= s2[r]);
    }
    assert(s1 =~= s2);
}

/// The grid `g` after the trace record `rec`: its line replaced by the record's cells.
pub open spec fn apply_record(g: Seq<Seq<Square>>, rec: (Job, Vec<Square>)) -> Seq<Seq<Square>> {
    match rec.0 {
        Job::Row(i) => g.update(i as int, rec.1@),
        Job::Col(i) => Seq::new(g.len(), |r: int| g[r].update(i as int, rec.1@[r])),
    }
}

/// The grid `g` after the trace records `recs`, in order.
pub open spec fn replay(g: Seq<Seq<Square>>, recs: Seq<(Job, Vec<Square>)>) -> Seq<Seq<Square>>
    decreases recs.len(),
{
    if recs.len() == 0 { g } else { apply_record(replay(g, recs.drop_last()), recs.last()) }
}

/// Each record of `recs`, replayed from `g`, changes the grid.
pub open spec fn each_record_changes(g: Seq<Seq<Square>>, recs: Seq<(Job, Vec<Square>)>) -> bool {
    forall|k: int| 0 <= k < recs.len() ==>
        apply_record(replay(g, recs.take(k)), #[trigger] recs[k]) != replay(g, recs.take(k))
}

/// A trace record names a line of a `rows` by `cols` grid and holds cells for it.
pub open spec fn trace_record_fits(rec: (Job, Vec<Square>), rows: int, cols: int) -> bool {
    match rec.0 {
        Job::Row(i) => i < rows && rec.1@.len() == cols,
        Job::Col(i) => i < cols && rec.1@.len() == rows,
    }
}

/// Number of `Unknown` cells of a line.
pub open spec fn line_unknowns(s: Seq<Square>) -> int
    decreases s.len(),
{
    if s.len() == 0 {
        0
    } else {
        line_unknowns(s.drop_last()) + if s.last() == Square::Unknown { 1int } else { 0int }
    }
}

/// Number of `Unknown` cells of a grid.
pub open spec fn grid_unknowns(g: Seq<Seq<Square>>) -> int
    decreases g.len(),
{
    if g.len() == 0 { 0 } else { grid_unknowns(g.drop_last()) + line_unknowns(g.last()) }
}

/// Column `c` of the grid `g`.
pub open spec fn col_of(g: Seq<Seq<Square>>, c: int) -> Seq<Square> {
    Seq::new(g.len(), |r: int| g[r][c])
}

/// `b` keeps every known cell of `a`.
pub open spec fn line_refines(a: Seq<Square>, b: Seq<Square>) -> bool {
    a.len() == b.len() && forall|j: int| 0 <= j < a.len() && a[j] != Square::Unknown ==> b[j] == a[j]
}

/// `h` keeps every known cell of `g`.
pub open spec fn grid_refines(g: Seq<Seq<Square>>, h: Seq<Seq<Square>>) -> bool {
    g.len() == h.len() && forall|r: int| 0 <= r < g.len() ==> line_refines(g[r], h[r])
}

proof fn lemma_line_unknowns(a: Seq<Square>, b: Seq<Square>)
    requires
        line_refines(a, b),
    ensures
        line_unknowns(b) <= line_unknowns(a),
        a != b ==> line_unknowns(b) < line_unknowns(a),
        0 <= line_unknowns(b) <= b.len(),
    decreases a.len(),
{
    if a.len() > 0 {
        lemma_line_unknowns(a.drop_last(), b.drop_last());
        assert(a.last() != Square::Unknown ==> b.last() == a.last());
        if a != b && a.drop_last() == b.drop_last() {
            if a.last() == b.last() {
                assert forall|j: int| 0 <= j < a.len() implies a[j] == b[j] by {
                    if j < a.len() - 1 {
                        assert(a[j] == a.drop_last()[j]);
                        assert(b[j] == b.drop_last()[j]);
                    }
                }
                assert(a =~= b);
            }
        }
    } else {
        assert(a =~= b);
    }
}

proof fn lemma_grid_unknowns(g: Seq<Seq<Square>>, h: Seq<Seq<Square>>)
    requires
        grid_refines(g, h),
    ensures
        0 <= grid_unknowns(h),
        grid_unknowns(h) <= grid_unknowns(g),
        g != h ==> grid_unknowns(h) < grid_unknowns(g),
    decreases g.len(),
{
    if g.len() > 0 {
        lemma_grid_unknowns(g.drop_last(), h.drop_last());
        lemma_line_unknowns(g.last(), h.last());
        if g != h && g.drop_last() == h.drop_last() {
            if g.last() == h.last() {
                assert forall|j: int| 0 <= j < g.len() implies g[j] == h[j] by {
                    if j < g.len() - 1 {
                        assert(g[j] == g.drop_last()[j]);
                        assert(h[j] == h.drop_last()[j]);
                    }
                }
                assert(g =~= h);
            }
        }
    } else {
        assert(g =~= h);
    }
}

proof fn lemma_grid_bound(g: Seq<Seq<Square>>, cols: int)
    requires
        forall|r: int| 0 <= r < g.len() ==> #[trigger] g[r].len() == cols,
        cols >= 0,
    ensures
        0 <= grid_unknowns(g) <= g.len() * cols,
    decreases g.len(),
{
    if g.len() > 0 {
        lemma_grid_bound(g.drop_last(), cols);
        lemma_line_unknowns(g.last(), g.last());
        assert((g.len() - 1) * cols + cols == g.len() * cols) by (nonlinear_arith);
    }
}

impl Game {
    /// The grid as rows of cells.
    pub open spec fn cells(&self) -> Seq<Seq<Square>> {
        self.grid@.map_values(|row: Vec<Square>| row@)
    }

    /// Row `r` of the grid.
    pub open spec fn row_view(&self, r: int) -> Seq<Square> {
        self.cells()[r]
    }

    /// Column `c` of the grid.
    pub open spec fn col_view(&self, c: int) -> Seq<Square> {
        col_of(self.cells(), c)
    }

    pub open spec fn row_hint(&self, r: int) -> Seq<u32> {
        self.row_hints@[r]@
    }

    pub open spec fn col_hint(&self, c: int) -> Seq<u32> {
        self.col_hints@[c]@
    }

    /// The sizes agree: one hint per row and per column, every row as long as there are
    /// columns, and lines short enough for the line functions.
    pub open spec fn wf(&self) -> bool {
        &&& self.rows == self.row_hints@.len() == self.grid@.len()
        &&& self.cols == self.col_hints@.len()
        &&& self.rows < u32::MAX
        &&& self.cols < u32::MAX
        &&& forall|r: int| 0 <= r < self.rows ==> (#[trigger] self.grid@[r])@.len() == self.cols
    }

    /// A grid of `Unknown` cells with one row per row hint and one column per column hint.
    pub fn new(col_hints: Vec<Hint>, row_hints: Vec<Hint>) -> (r: Game)
        requires
            col_hints@.len() < u32::MAX,
            row_hints@.len() < u32::MAX,
        ensures
            r.wf(),
            r.rows == row_hints@.len(),
            r.cols == col_hints@.len(),
            r.row_hints@ == row_hints@,
            r.col_hints@ == col_hints@,
            r.grid_pos is None,
            forall|i: int, j: int| 0 <= i < r.rows && 0 <= j < r.cols ==> r.grid@[i]@[j] == Square::Unknown,
    {
        let cols = col_hints.len();
        let rows = row_hints.len();
        let mut grid: Vec<Vec<Square>> = Vec::new();
        let mut i: usize = 0;
        while i < rows
            invariant
                i <= rows,
                grid@.len() == i,
                forall|a: int| 0 <= a < i ==> (#[trigger] grid@[a])@.len() == cols,
                forall|a: int, b: int| 0 <= a < i && 0 <= b < cols ==> grid@[a]@[b] == Square::Unknown,
            decreases rows - i,
        {
            let mut row: Vec<Square> = Vec::new();
            let mut j: usize = 0;
            while j < cols
                invariant
                    j <= cols,
                    row@.len() == j,
                    forall|b: int| 0 <= b < j ==> row@[b] == Square::Unknown,
                decreases cols - j,
            {
                row.push(Square::Unknown);
                j = j + 1;
            }
            grid.push(row);
            i = i + 1;
        }
        Game { rows, cols, col_hints, row_hints, grid_pos: None, grid }
    }

    /// Gets a row as a line and its corresponding hint
    pub fn get_row(&self, i: usize) -> (r: (Hint, Vec<Square>))
        requires
            self.wf(),
            i < self.rows,
        ensures
            r.0@ == self.row_hint(i as int),
            r.1@ == self.row_view(i as int),
    {
        (vstd::slice::slice_to_vec(self.row_hints[i].as_slice()), vstd::slice::slice_to_vec(self.grid[i].as_slice()))
    }

    /// Replaces row `i` with `row`.
    pub fn set_row(&mut self, i: usize, row: Vec<Square>)
        requires
            old(self).wf(),
            i < old(self).rows,
            row@.len() == old(self).cols,
        ensures
            final(self).wf(),
            final(self).cells() == old(self).cells().update(i as int, row@),
            final(self).rows == old(self).rows,
            final(self).cols == old(self).cols,
            final(self).row_hints == old(self).row_hints,
            final(self).col_hints == old(self).col_hints,
            final(self).grid_pos == old(self).grid_pos,
    {
        let ghost row_view = row@;
        self.grid[i] = row;
        assert(self.cells() =~= old(self).cells().update(i as int, row_view));
    }

    /// Gets a column as a line and its corresponding hint
    pub fn get_col(&self, i: usize) -> (r: (Hint, Vec<Square>))
        requires
            self.wf(),
            i < self.cols,
        ensures
            r.0@ == self.col_hint(i as int),
            r.1@ == self.col_view(i as int),
    {
        let mut col: Vec<Square> = Vec::new();
        let mut r: usize = 0;
        while r < self.rows
            invariant
                self.wf(),
                i < self.cols,
                r <= self.rows,
                col@ == self.col_view(i as int).take(r as int),
            decreases self.rows - r,
        {
            assert(self.cells()[r as int] == self.grid@[r as int]@);
            col.push(self.grid[r][i]);
            r = r + 1;
            assert(col@ =~= self.col_view(i as int).take(r as int));
        }
        assert(self.col_view(i as int).take(r as int) =~= self.col_view(i as int));
        (vstd::slice::slice_to_vec(self.col_hints[i].as_slice()), col)
    }

    /// Replaces column `i` with `col`.
    pub fn set_col(&mut self, i: usize, col: Vec<Square>)
        requires
            old(self).wf(),
            i < old(self).cols,
            col@.len() == old(self).rows,
        ensures
            final(self).wf(),
            final(self).cells() == Seq::new(old(self).rows as nat, |r: int| old(self).cells()[r].update(i as int, col@[r])),
            final(self).rows == old(self).rows,
            final(self).cols == old(self).cols,
            final(self).row_hints == old(self).row_hints,
            final(self).col_hints == old(self).col_hints,
            final(self).grid_pos == old(self).grid_pos,
    {
        let ghost g0 = self.cells();
        let mut r: usize = 0;
        while r < self.rows
            invariant
                self.wf(),
                self.rows == old(self).rows,
                self.cols == old(self).cols,
                self.row_hints == old(self).row_hints,
                self.col_hints == old(self).col_hints,
                self.grid_pos == old(self).grid_pos,
                g0 == old(self).cells(),
                i < self.cols,
                col@.len() == self.rows,
                r <= self.rows,
                forall|a: int| 0 <= a < r ==> #[trigger] self.cells()[a] == g0[a].update(i as int, col@[a]),
                forall|a: int| r <= a < self.rows ==> #[trigger] self.cells()[a] == g0[a],
            decreases self.rows - r,
        {
            assert(self.cells()[r as int] == self.grid@[r as int]@);
            let mut row = vstd::slice::slice_to_vec(self.grid[r].as_slice());
            row[i] = col[r];
            assert(row@ == g0[r as int].update(i as int, col@[r as int]));
            let ghost before = self.cells();
            let ghost new_row = row@;
            self.grid[r] = row;
            assert(self.cells() =~= before.update(r as int, new_row));
            r = r + 1;
        }
        assert(self.cells() =~= Seq::new(old(self).rows as nat, |a: int| g0[a].update(i as int, col@[a])));
    }
}

/// A fully known line is kept as it is by any refinement.
proof fn lemma_known_line_kept(a: Seq<Square>, b: Seq<Square>)
    requires
        line_refines(a, b),
        fully_known(a),
    ensures
        b == a,
{
    assert(b =~= a);
}

/// Lines of `s0` marked solved are the same in any refinement `s1` of its grid.
proof fn lemma_solved_unchanged(s0: Solver, s1: Solver)
    requires
        s0.wf(),
        s1.game.rows == s0.game.rows,
        s1.game.cols == s0.game.cols,
        grid_refines(s0.game.cells(), s1.game.cells()),
    ensures
        forall|i: int| 0 <= i < s0.game.rows && s0.solved_rows@[i] ==>
            #[trigger] s1.game.row_view(i) == s0.game.row_view(i),
        forall|i: int| 0 <= i < s0.game.cols && s0.solved_cols@[i] ==>
            #[trigger] s1.game.col_view(i) == s0.game.col_view(i),
{
    let g0 = s0.game.cells();
    let g1 = s1.game.cells();
    assert forall|i: int| 0 <= i < s0.game.rows && s0.solved_rows@[i] implies
        #[trigger] s1.game.row_view(i) == s0.game.row_view(i) by {
        assert(line_refines(g0[i], g1[i]));
        lemma_known_line_kept(g0[i], g1[i]);
    }
    assert forall|i: int| 0 <= i < s0.game.cols && s0.solved_cols@[i] implies
        #[trigger] s1.game.col_view(i) == s0.game.col_view(i) by {
        assert forall|j: int| 0 <= j < col_of(g0, i).len() && col_of(g0, i)[j] != Square::Unknown
            implies col_of(g1, i)[j] == col_of(g0, i)[j] by {
            assert(line_refines(g0[j], g1[j]));
        }
        lemma_known_line_kept(col_of(g0, i), col_of(g1, i));
    }
}

proof fn lemma_grid_refines_trans(a: Seq<Seq<Square>>, b: Seq<Seq<Square>>, c: Seq<Seq<Square>>)
    requires
        grid_refines(a, b),
        grid_refines(b, c),
    ensures
        grid_refines(a, c),
{
    assert forall|r: int| 0 <= r < a.len() implies line_refines(a[r], c[r]) by {
        assert(line_refines(a[r], b[r]));
        assert(line_refines(b[r], c[r]));
    }
}

/// Whether every flag is set.
fn all_true(v: &Vec<bool>) -> (r: bool)
    ensures
        r == forall|i: int| 0 <= i < v@.len() ==> v@[i],
{
    let mut i: usize = 0;
    while i < v.len()
        invariant
            i <= v@.len(),
            forall|j: int| 0 <= j < i ==> v@[j],
        decreases v@.len() - i,
    {
        if !v[i] {
            return false;
        }
        i = i + 1;
    }
    true
}

/// Solves a game by refining its lines until every line is decided.
pub struct Solver {
    pub game: Game,
    pub solved_rows: Vec<bool>,
    pub solved_cols: Vec<bool>,
}

impl Solver {
    /// The game is well formed, there is one flag per line, and a line whose flag is
    /// set is fully known and matches its hint.
    pub open spec fn wf(&self) -> bool {
        &&& self.game.wf()
        &&& self.solved_rows@.len() == self.game.rows
        &&& self.solved_cols@.len() == self.game.cols
        &&& forall|r: int| 0 <= r < self.game.rows && #[trigger] self.solved_rows@[r] ==>
            fully_known(self.game.row_view(r)) && matches_hint(self.game.row_hint(r), self.game.row_view(r))
        &&& forall|c: int| 0 <= c < self.game.cols && #[trigger] self.solved_cols@[c] ==>
            fully_known(self.game.col_view(c)) && matches_hint(self.game.col_hint(c), self.game.col_view(c))
    }

    /// Refining any line not marked solved changes nothing.
    pub open spec fn at_fixpoint(&self) -> bool {
        &&& forall|r: int| 0 <= r < self.game.rows && !self.solved_rows@[r] ==>
            solvable(self.game.row_hint(r), #[trigger] self.game.row_view(r))
            && refined(self.game.row_hint(r), self.game.row_view(r)) == self.game.row_view(r)
        &&& forall|c: int| 0 <= c < self.game.cols && !self.solved_cols@[c] ==>
            solvable(self.game.col_hint(c), #[trigger] self.game.col_view(c))
            && refined(self.game.col_hint(c), self.game.col_view(c)) == self.game.col_view(c)
    }

    /// Every line is marked solved.
    pub open spec fn all_solved(&self) -> bool {
        &&& forall|r: int| 0 <= r < self.solved_rows@.len() ==> self.solved_rows@[r]
        &&& forall|c: int| 0 <= c < self.solved_cols@.len() ==> self.solved_cols@[c]
    }

    /// A solver for `game` with no line marked solved.
    pub fn new(game: Game) -> (r: Self)
        requires
            game.wf(),
        ensures
            r.wf(),
            r.game == game,
            forall|i: int| 0 <= i < r.solved_rows@.len() ==> !r.solved_rows@[i],
            forall|i: int| 0 <= i < r.solved_cols@.len() ==> !r.solved_cols@[i],
    {
        let rows = game.rows;
        let cols = game.cols;
        let mut solved_rows: Vec<bool> = Vec::new();
        let mut i: usize = 0;
        while i < rows
            invariant
                i <= rows,
                solved_rows@.len() == i,
                forall|j: int| 0 <= j < i ==> !solved_rows@[j],
            decreases rows - i,
        {
            solved_rows.push(false);
            i = i + 1;
        }
        let mut solved_cols: Vec<bool> = Vec::new();
        let mut i: usize = 0;
        while i < cols
            invariant
                i <= cols,
                solved_cols@.len() == i,
                forall|j: int| 0 <= j < i ==> !solved_cols@[j],
            decreases cols - i,
        {
            solved_cols.push(false);
            i = i + 1;
        }
        Solver { game, solved_rows, solved_cols }
    }

    /// Refines every unsolved row, then every unsolved column, pass after pass, until
    /// every line is solved (`Ok` with the number of passes) or a pass changes nothing
    /// (`Stuck`). Each line that changes is appended to `trace` with its new cells.
    pub fn solve(&mut self, trace: &mut Vec<(Job, Vec<Square>)>) -> (r: Result<u64, SolveError>)
        requires
            old(self).wf(),
        ensures
            final(self).wf(),
            final(self).game.rows == old(self).game.rows,
            final(self).game.cols == old(self).game.cols,
            final(self).game.row_hints == old(self).game.row_hints,
            final(self).game.col_hints == old(self).game.col_hints,
            grid_refines(old(self).game.cells(), final(self).game.cells()),
            forall|i: int| 0 <= i < old(self).game.rows && old(self).solved_rows@[i] ==>
                final(self).solved_rows@[i] && #[trigger] final(self).game.row_view(i) == old(self).game.row_view(i),
            forall|i: int| 0 <= i < old(self).game.cols && old(self).solved_cols@[i] ==>
                final(self).solved_cols@[i] && #[trigger] final(self).game.col_view(i) == old(self).game.col_view(i),
            final(trace)@.len() >= old(trace)@.len(),
            final(trace)@.take(old(trace)@.len() as int) == old(trace)@,
            forall|k: int| old(trace)@.len() <= k < final(trace)@.len() ==>
                trace_record_fits(#[trigger] final(trace)@[k], old(self).game.rows as int, old(self).game.cols as int),
            replay(old(self).game.cells(), final(trace)@.skip(old(trace)@.len() as int)) == final(self).game.cells(),
            each_record_changes(old(self).game.cells(), final(trace)@.skip(old(trace)@.len() as int)),
            forall|sol: Seq<Seq<Square>>| #[trigger] is_solution(old(self).game, sol) && agrees(old(self).game.cells(), sol)
                ==> agrees(final(self).game.cells(), sol),
            (exists|sol: Seq<Seq<Square>>| #[trigger] is_solution(old(self).game, sol) && agrees(old(self).game.cells(), sol))
                ==> r != Err::<u64, SolveError>(SolveError::Contradiction),
            r matches Ok(passes) ==> {
                &&& final(self).all_solved()
                &&& 1 <= passes <= old(self).game.rows * old(self).game.cols + 1
                &&& forall|i: int| 0 <= i < final(self).game.rows ==>
                    matches_hint(final(self).game.row_hint(i), #[trigger] final(self).game.row_view(i))
                &&& forall|i: int| 0 <= i < final(self).game.cols ==>
                    matches_hint(final(self).game.col_hint(i), #[trigger] final(self).game.col_view(i))
            },
            r == Err::<u64, SolveError>(SolveError::Stuck) ==> !final(self).all_solved() && final(self).at_fixpoint(),
            r == Err::<u64, SolveError>(SolveError::Contradiction) ==>
                (exists|i: int| 0 <= i < final(self).game.rows
                    && !solvable(final(self).game.row_hint(i), #[trigger] final(self).game.row_view(i)))
                || (exists|i: int| 0 <= i < final(self).game.cols
                    && !solvable(final(self).game.col_hint(i), #[trigger] final(self).game.col_view(i))),
    {
        let ghost g_orig = self.game.cells();
        let ghost t0 = trace@;
        let ghost total = grid_unknowns(g_orig);
        let rows = self.game.rows;
        let cols = self.game.cols;
        proof {
            lemma_grid_bound(g_orig, cols as int);
            assert(rows * cols <= u32::MAX * u32::MAX) by (nonlinear_arith)
                requires rows < u32::MAX, cols < u32::MAX;
            assert(grid_refines(g_orig, g_orig));
            assert(trace@.take(t0.len() as int) =~= t0);
            assert(trace@.skip(t0.len() as int) =~= Seq::<(Job, Vec<Square>)>::empty());
        }
        let mut passes: u64 = 0;
        loop
            invariant
                self.wf(),
                self.game.rows == rows == old(self).game.rows,
                self.game.cols == cols == old(self).game.cols,
                self.game.row_hints == old(self).game.row_hints,
                self.game.col_hints == old(self).game.col_hints,
                g_orig == old(self).game.cells(),
                t0 == old(trace)@,
                total == grid_unknowns(g_orig),
                total <= rows * cols <= u32::MAX * u32::MAX,
                grid_refines(g_orig, self.game.cells()),
                0 <= grid_unknowns(self.game.cells()),
                passes + grid_unknowns(self.game.cells()) <= total,
                trace@.len() >= t0.len(),
                trace@.take(t0.len() as int) == t0,
                forall|k: int| t0.len() <= k < trace@.len() ==> trace_record_fits(#[trigger] trace@[k], rows as int, cols as int),
                replay(g_orig, trace@.skip(t0.len() as int)) == self.game.cells(),
                each_record_changes(g_orig, trace@.skip(t0.len() as int)),
                forall|sol: Seq<Seq<Square>>| #[trigger] is_solution(old(self).game, sol) && agrees(g_orig, sol)
                    ==> agrees(self.game.cells(), sol),
                old(self).wf(),
                forall|r: int| 0 <= r < rows && old(self).solved_rows@[r] ==> #[trigger] self.solved_rows@[r],
                forall|c: int| 0 <= c < cols && old(self).solved_cols@[c] ==> #[trigger] self.solved_cols@[c],
            decreases grid_unknowns(self.game.cells()),
        {
            let ghost g_start = self.game.cells();
            let mut puzzle_changed = false;
            let mut i: usize = 0;
            while i < rows
                invariant
                    self.wf(),
                    self.game.rows == rows == old(self).game.rows,
                    self.game.cols == cols == old(self).game.cols,
                    self.game.row_hints == old(self).game.row_hints,
                    self.game.col_hints == old(self).game.col_hints,
                    i <= rows,
                    g_orig == old(self).game.cells(),
                    t0 == old(trace)@,
                    total == grid_unknowns(g_orig),
                    total <= rows * cols <= u32::MAX * u32::MAX,
                    passes + grid_unknowns(g_start) <= total,
                    grid_refines(g_orig, self.game.cells()),
                    grid_refines(g_start, self.game.cells()),
                    0 <= grid_unknowns(self.game.cells()) <= grid_unknowns(g_start),
                    puzzle_changed ==> grid_unknowns(self.game.cells()) < grid_unknowns(g_start),
                    !puzzle_changed ==> self.game.cells() == g_start,
                    !puzzle_changed ==> forall|r: int| 0 <= r < i && !self.solved_rows@[r] ==>
                        solvable(self.game.row_hint(r), #[trigger] self.game.row_view(r))
                        && refined(self.game.row_hint(r), self.game.row_view(r)) == self.game.row_view(r),
                    trace@.len() >= t0.len(),
                    trace@.take(t0.len() as int) == t0,
                    forall|k: int| t0.len() <= k < trace@.len() ==> trace_record_fits(#[trigger] trace@[k], rows as int, cols as int),
                replay(g_orig, trace@.skip(t0.len() as int)) == self.game.cells(),
                each_record_changes(g_orig, trace@.skip(t0.len() as int)),
                forall|sol: Seq<Seq<Square>>| #[trigger] is_solution(old(self).game, sol) && agrees(g_orig, sol)
                    ==> agrees(self.game.cells(), sol),
                    old(self).wf(),
                forall|r: int| 0 <= r < rows && old(self).solved_rows@[r] ==> #[trigger] self.solved_rows@[r],
                    forall|c: int| 0 <= c < cols && old(self).solved_cols@[c] ==> #[trigger] self.solved_cols@[c],
                decreases rows - i,
            {
                if self.solved_rows[i] {
                    i = i + 1;
                    continue;
                }
                let (hint, line) = self.game.get_row(i);
                let ghost g = self.game.cells();
                let hint_len = hint.len();
                assert(hint@.len() == hint_len);
                let (new_row, solved, line_changed) = match try_refine_line(line.as_slice(), hint.as_slice()) {
                    Some(t) => t,
                    None => {
                        proof {
                            lemma_solved_unchanged(*old(self), *self);
                            if exists|sol: Seq<Seq<Square>>| #[trigger] is_solution(old(self).game, sol) && agrees(old(self).game.cells(), sol) {
                                let sol = choose|sol: Seq<Seq<Square>>| #[trigger] is_solution(old(self).game, sol) && agrees(old(self).game.cells(), sol);
                                lemma_row_completion(old(self).game, g, sol, i as int);
                                lemma_refine_sound(hint@, line@, sol[i as int]);
                            }
                        }
                        return Err(SolveError::Contradiction);
                    },
                };
                proof {
                    lemma_refine_settles(hint@, line@);
                    assert(line_refines(g[i as int], new_row@));
                }
                self.solved_rows[i] = solved;
                puzzle_changed = puzzle_changed || line_changed;
                if !line_changed {
                    proof {
                        assert(new_row@ == g[i as int]);
                    }
                    i = i + 1;
                    continue;
                }
                let ghost nr = new_row@;
                let ghost app = trace@.skip(t0.len() as int);
                let rec = (Job::Row(i), vstd::slice::slice_to_vec(new_row.as_slice()));
                let ghost grec = rec;
                trace.push(rec);
                self.game.set_row(i, new_row);
                proof {
                    let g2 = self.game.cells();
                    assert(g2 == g.update(i as int, nr));
                    let app2 = trace@.skip(t0.len() as int);
                    assert(app2 =~= app.push(grec));
                    assert(app2.drop_last() =~= app);
                    assert(apply_record(g, grec) == g2);
                    assert(g2 != g) by {
                        assert(g2[i as int] != g[i as int]);
                    }
                    assert forall|k: int| 0 <= k < app2.len() implies
                        apply_record(replay(g_orig, app2.take(k)), #[trigger] app2[k]) != replay(g_orig, app2.take(k)) by {
                        if k == app.len() {
                            assert(app2.take(k) =~= app);
                        } else {
                            assert(app2.take(k) =~= app.take(k));
                            assert(app2[k] == app[k]);
                        }
                    }
                    assert forall|sol: Seq<Seq<Square>>| #[trigger] is_solution(old(self).game, sol) && agrees(g_orig, sol)
                        implies agrees(g2, sol) by {
                        lemma_row_completion(old(self).game, g, sol, i as int);
                        lemma_refine_sound(hint@, line@, sol[i as int]);
                        assert forall|r: int, c: int| 0 <= r < g2.len() && 0 <= c < g2[r].len() && g2[r][c] != Square::Unknown
                            implies #[trigger] sol[r][c] == g2[r][c] by {
                            if r != i {
                                assert(g2[r] == g[r]);
                            }
                        }
                    }
                    assert forall|r: int| 0 <= r < g.len() implies line_refines(g[r], g2[r]) by {}
                    assert(grid_refines(g, g2));
                    lemma_grid_refines_trans(g_orig, g, g2);
                    lemma_grid_refines_trans(g_start, g, g2);
                    assert(g2[i as int] != g[i as int]);
                    lemma_grid_unknowns(g, g2);
                    assert forall|c: int| 0 <= c < cols && #[trigger] self.solved_cols@[c] implies
                        col_of(g2, c) == col_of(g, c) by {
                        assert(fully_known(col_of(g, c)));
                        assert(col_of(g, c)[i as int] != Square::Unknown);
                        assert(col_of(g2, c) =~= col_of(g, c));
                    }
                    assert(trace@.take(t0.len() as int) =~= t0);
                }
                i = i + 1;
            }
            let mut i: usize = 0;
            while i < cols
                invariant
                    self.wf(),
                    self.game.rows == rows == old(self).game.rows,
                    self.game.cols == cols == old(self).game.cols,
                    self.game.row_hints == old(self).game.row_hints,
                    self.game.col_hints == old(self).game.col_hints,
                    i <= cols,
                    g_orig == old(self).game.cells(),
                    t0 == old(trace)@,
                    total == grid_unknowns(g_orig),
                    total <= rows * cols <= u32::MAX * u32::MAX,
                    passes + grid_unknowns(g_start) <= total,
                    grid_refines(g_orig, self.game.cells()),
                    grid_refines(g_start, self.game.cells()),
                    0 <= grid_unknowns(self.game.cells()) <= grid_unknowns(g_start),
                    puzzle_changed ==> grid_unknowns(self.game.cells()) < grid_unknowns(g_start),
                    !puzzle_changed ==> self.game.cells() == g_start,
                    !puzzle_changed ==> forall|r: int| 0 <= r < rows && !self.solved_rows@[r] ==>
                        solvable(self.game.row_hint(r), #[trigger] self.game.row_view(r))
                        && refined(self.game.row_hint(r), self.game.row_view(r)) == self.game.row_view(r),
                    !puzzle_changed ==> forall|c: int| 0 <= c < i && !self.solved_cols@[c] ==>
                        solvable(self.game.col_hint(c), #[trigger] self.game.col_view(c))
                        && refined(self.game.col_hint(c), self.game.col_view(c)) == self.game.col_view(c),
                    trace@.len() >= t0.len(),
                    trace@.take(t0.len() as int) == t0,
                    forall|k: int| t0.len() <= k < trace@.len() ==> trace_record_fits(#[trigger] trace@[k], rows as int, cols as int),
                replay(g_orig, trace@.skip(t0.len() as int)) == self.game.cells(),
                each_record_changes(g_orig, trace@.skip(t0.len() as int)),
                forall|sol: Seq<Seq<Square>>| #[trigger] is_solution(old(self).game, sol) && agrees(g_orig, sol)
                    ==> agrees(self.game.cells(), sol),
                    old(self).wf(),
                forall|r: int| 0 <= r < rows && old(self).solved_rows@[r] ==> #[trigger] self.solved_rows@[r],
                    forall|c: int| 0 <= c < cols && old(self).solved_cols@[c] ==> #[trigger] self.solved_cols@[c],
                decreases cols - i,
            {
                if self.solved_cols[i] {
                    i = i + 1;
                    continue;
                }
                let (hint, line) = self.game.get_col(i);
                let ghost g = self.game.cells();
                let hint_len = hint.len();
                assert(hint@.len() == hint_len);
                let (new_col, solved, line_changed) = match try_refine_line(line.as_slice(), hint.as_slice()) {
                    Some(t) => t,
                    None => {
                        proof {
                            lemma_solved_unchanged(*old(self), *self);
                            if exists|sol: Seq<Seq<Square>>| #[trigger] is_solution(old(self).game, sol) && agrees(old(self).game.cells(), sol) {
                                let sol = choose|sol: Seq<Seq<Square>>| #[trigger] is_solution(old(self).game, sol) && agrees(old(self).game.cells(), sol);
                                lemma_col_completion(old(self).game, g, sol, i as int);
                                lemma_refine_sound(hint@, line@, col_of(sol, i as int));
                            }
                        }
                        return Err(SolveError::Contradiction);
                    },
                };
                proof {
                    lemma_refine_settles(hint@, line@);
                    assert(line_refines(col_of(g, i as int), new_col@));
                }
                self.solved_cols[i] = solved;
                puzzle_changed = puzzle_changed || line_changed;
                if !line_changed {
                    proof {
                        assert(new_col@ == col_of(g, i as int));
                    }
                    i = i + 1;
                    continue;
                }
                let ghost nc = new_col@;
                let ghost app = trace@.skip(t0.len() as int);
                let rec = (Job::Col(i), vstd::slice::slice_to_vec(new_col.as_slice()));
                let ghost grec = rec;
                trace.push(rec);
                self.game.set_col(i, new_col);
                proof {
                    let g2 = self.game.cells();
                    let app2 = trace@.skip(t0.len() as int);
                    assert(app2 =~= app.push(grec));
                    assert(app2.drop_last() =~= app);
                    assert(apply_record(g, grec) =~= g2);
                    assert forall|r: int| 0 <= r < g.len() implies line_refines(g[r], g2[r]) by {
                        assert(g2[r] == g[r].update(i as int, nc[r]));
                        assert(col_of(g, i as int)[r] == g[r][i as int]);
                    }
                    assert(grid_refines(g, g2));
                    lemma_grid_refines_trans(g_orig, g, g2);
                    lemma_grid_refines_trans(g_start, g, g2);
                    assert(exists|r: int| 0 <= r < nc.len() && nc[r] != col_of(g, i as int)[r]) by {
                        if forall|r: int| 0 <= r < nc.len() ==> nc[r] == col_of(g, i as int)[r] {
                            assert(nc =~= col_of(g, i as int));
                        }
                    }
                    let r0 = choose|r: int| 0 <= r < nc.len() && nc[r] != col_of(g, i as int)[r];
                    assert(g2[r0][i as int] != g[r0][i as int]);
                    lemma_grid_unknowns(g, g2);
                    assert forall|r: int| 0 <= r < rows && #[trigger] self.solved_rows@[r] implies g2[r] == g[r] by {
                        assert(fully_known(g[r]));
                        assert(col_of(g, i as int)[r] == g[r][i as int]);
                        assert(g2[r] =~= g[r]);
                    }
                    assert forall|c: int| 0 <= c < cols && c != i && #[trigger] self.solved_cols@[c] implies
                        col_of(g2, c) == col_of(g, c) by {
                        assert(col_of(g2, c) =~= col_of(g, c));
                    }
                    assert(col_of(g2, i as int) =~= nc);
                    assert(trace@.take(t0.len() as int) =~= t0);
                    assert(g2 != g);
                    assert forall|k: int| 0 <= k < app2.len() implies
                        apply_record(replay(g_orig, app2.take(k)), #[trigger] app2[k]) != replay(g_orig, app2.take(k)) by {
                        if k == app.len() {
                            assert(app2.take(k) =~= app);
                        } else {
                            assert(app2.take(k) =~= app.take(k));
                            assert(app2[k] == app[k]);
                        }
                    }
                    assert forall|sol: Seq<Seq<Square>>| #[trigger] is_solution(old(self).game, sol) && agrees(g_orig, sol)
                        implies agrees(g2, sol) by {
                        lemma_col_completion(old(self).game, g, sol, i as int);
                        lemma_refine_sound(hint@, line@, col_of(sol, i as int));
                        assert forall|r: int, c: int| 0 <= r < g2.len() && 0 <= c < g2[r].len() && g2[r][c] != Square::Unknown
                            implies #[trigger] sol[r][c] == g2[r][c] by {
                            assert(g2[r] == g[r].update(i as int, nc[r]));
                            if c == i {
                                assert(nc[r] == refined(hint@, line@)[r]);
                                assert(col_of(sol, i as int)[r] == sol[r][c]);
                            }
                        }
                    }
                }
                i = i + 1;
            }
            passes = passes + 1;
            proof {
                lemma_solved_unchanged(*old(self), *self);
            }
            if all_true(&self.solved_rows) && all_true(&self.solved_cols) {
                proof {
                    assert forall|r: int| 0 <= r < rows implies
                        matches_hint(self.game.row_hint(r), #[trigger] self.game.row_view(r)) by {
                        assert(self.solved_rows@[r]);
                    }
                    assert forall|c: int| 0 <= c < cols implies
                        matches_hint(self.game.col_hint(c), #[trigger] self.game.col_view(c)) by {
                        assert(self.solved_cols@[c]);
                    }
                }
                return Ok(passes);
            }
            if !puzzle_changed {
                return Err(SolveError::Stuck);
            }
        }
    }
}

} // verus!
