use vstd::prelude::*;

use crate::game::{Game, SegmentPlacement};
use crate::line::{matches_hint, Square};
use crate::placement::{
    cells, covered, covers, left_positions, lemma_left_exists, lemma_leftmost_unique,
    lemma_left_least, lemma_matches_overlay, lemma_mirror, lemma_one_owner, lemma_right_greatest,
    leftmost, overlay, placed_prefix, right_positions, solvable, valid_placement,
};

verus! {

/// How many segments of the per-cell placement `p` end before cell `i`: the index of
/// the next segment when `i` lies in a gap.
pub open spec fn gaps_passed(p: Seq<Option<usize>>, i: int) -> int
    decreases i,
{
    if i <= 0 {
        0
    } else {
        gaps_passed(p, i - 1) + if p[i - 1] is Some && p[i] is None { 1int } else { 0int }
    }
}

/// Both placements put cell `i` in the same segment.
pub open spec fn forced_filled(l: Seq<Option<usize>>, r: Seq<Option<usize>>, i: int) -> bool {
    l[i] is Some && l[i] == r[i]
}

/// Both placements put cell `i` in the gap before the same segment.
pub open spec fn forced_empty(l: Seq<Option<usize>>, r: Seq<Option<usize>>, i: int) -> bool {
    l[i] is None && r[i] is None && gaps_passed(l, i) == gaps_passed(r, i)
}

/// Cell `i` of `line` after the overlap rule on the placements `l` and `r`.
pub open spec fn overlap_cell(l: Seq<Option<usize>>, r: Seq<Option<usize>>, line: Seq<Square>, i: int) -> Square {
    if forced_filled(l, r, i) {
        Square::Filled
    } else if forced_empty(l, r, i) {
        Square::Empty
    } else {
        line[i]
    }
}

/// `line` after the overlap rule on the placements `l` and `r`.
pub open spec fn overlap_line(l: Seq<Option<usize>>, r: Seq<Option<usize>>, line: Seq<Square>) -> Seq<Square> {
    Seq::new(line.len(), |i: int| overlap_cell(l, r, line, i))
}

/// Every cell of the line is forced one way or the other.
pub open spec fn all_forced(l: Seq<Option<usize>>, r: Seq<Option<usize>>, n: int) -> bool {
    forall|i: int| 0 <= i < n ==> forced_filled(l, r, i) || forced_empty(l, r, i)
}

/// The leftmost placement, cell by cell.
pub open spec fn left_cells(hint: Seq<u32>, line: Seq<Square>) -> Seq<Option<usize>> {
    cells(hint, left_positions(hint, line), line.len() as int)
}

/// The rightmost placement, cell by cell.
pub open spec fn right_cells(hint: Seq<u32>, line: Seq<Square>) -> Seq<Option<usize>> {
    cells(hint, right_positions(hint, line), line.len() as int)
}

/// `line` refined with `hint`: the cells forced by the leftmost and rightmost placements.
pub open spec fn refined(hint: Seq<u32>, line: Seq<Square>) -> Seq<Square> {
    overlap_line(left_cells(hint, line), right_cells(hint, line), line)
}

/// Refining `line` with `hint` decides every cell.
pub open spec fn refine_solves(hint: Seq<u32>, line: Seq<Square>) -> bool {
    all_forced(left_cells(hint, line), right_cells(hint, line), line.len() as int)
}

/// No cell of `line` is `Unknown`.
pub open spec fn fully_known(line: Seq<Square>) -> bool {
    forall|i: int| 0 <= i < line.len() ==> line[i] != Square::Unknown
}

/// Applies the overlap rule to `line`, given the leftmost and rightmost placements, and
/// says whether every cell was forced and whether any cell changed.
fn overlap(left_sol: &Vec<SegmentPlacement>, right_sol: &Vec<SegmentPlacement>, line: &[Square]) -> (r: (Vec<Square>, bool, bool))
    requires
        left_sol@.len() == line@.len(),
        right_sol@.len() == line@.len(),
    ensures
        r.0@ == overlap_line(left_sol@, right_sol@, line@),
        r.1 == all_forced(left_sol@, right_sol@, line@.len() as int),
        r.2 == (r.0@ != line@),
{
    let ghost l = left_sol@;
    let ghost rs = right_sol@;
    let n = line.len();
    let mut new_line = vstd::slice::slice_to_vec(line);
    let mut solved = true;
    let mut changed = false;
    let mut left_sol_next_seg: usize = 0;
    let mut right_sol_next_seg: usize = 0;
    let mut i: usize = 0;
    while i < n
        invariant
            n == line@.len() == l.len() == rs.len(),
            l == left_sol@,
            rs == right_sol@,
            i <= n,
            new_line@.len() == n,
            forall|j: int| 0 <= j < i ==> new_line@[j] == overlap_cell(l, rs, line@, j),
            forall|j: int| i <= j < n ==> new_line@[j] == line@[j],
            left_sol_next_seg == gaps_passed(l, i - 1),
            right_sol_next_seg == gaps_passed(rs, i - 1),
            left_sol_next_seg <= i,
            right_sol_next_seg <= i,
            solved == all_forced(l, rs, i as int),
            changed == exists|j: int| 0 <= j < i && new_line@[j] != line@[j],
        decreases n - i,
    {
        if i > 0 && left_sol[i - 1].is_some() && left_sol[i].is_none() {
            left_sol_next_seg = left_sol_next_seg + 1;
        }
        if i > 0 && right_sol[i - 1].is_some() && right_sol[i].is_none() {
            right_sol_next_seg = right_sol_next_seg + 1;
        }
        assert(left_sol_next_seg == gaps_passed(l, i as int));
        assert(right_sol_next_seg == gaps_passed(rs, i as int));
        let ghost before = new_line@;
        if left_sol[i].is_some() && left_sol[i] == right_sol[i] {
            if new_line[i] != Square::Filled {
                changed = true;
            }
            new_line[i] = Square::Filled;
        } else if left_sol[i].is_none() && right_sol[i].is_none() && left_sol_next_seg == right_sol_next_seg {
            if new_line[i] != Square::Empty {
                changed = true;
            }
            new_line[i] = Square::Empty;
        } else {
            solved = false;
        }
        proof {
            assert(new_line@[i as int] == overlap_cell(l, rs, line@, i as int));
            if changed {
                if !(exists|j: int| 0 <= j < i && before[j] != line@[j]) {
                    assert(new_line@[i as int] != line@[i as int]);
                }
            }
        }
        i = i + 1;
    }
    assert(new_line@ =~= overlap_line(l, rs, line@));
    if changed {
        let ghost j = choose|j: int| 0 <= j < n && new_line@[j] != line@[j];
        assert(new_line@[j] != line@[j]);
    } else {
        assert forall|j: int| 0 <= j < n implies new_line@[j] == line@[j] by {}
        assert(new_line@ =~= line@);
    }
    (new_line, solved, changed)
}

/// A `Filled` cell lies in a segment of every valid placement, and an `Empty` one in
/// none: so the overlap rule never changes a known cell.
proof fn lemma_known_kept(hint: Seq<u32>, line: Seq<Square>)
    requires
        solvable(hint, line),
    ensures
        forall|i: int| 0 <= i < line.len() && line[i] != Square::Unknown ==> #[trigger] refined(hint, line)[i] == line[i],
{
    lemma_left_exists(hint, line);
    let lp = left_positions(hint, line);
    let l = left_cells(hint, line);
    assert forall|i: int| 0 <= i < line.len() && line[i] != Square::Unknown implies #[trigger] refined(hint, line)[i] == line[i] by {
        if line[i] == Square::Empty {
            if covered(hint, lp, i) {
                let k = choose|k: int| #[trigger] covers(hint, lp, k, i);
                assert(covers(hint, lp, k, i));
            }
            assert(l[i] is None);
        } else {
            assert(covered(hint, lp, i));
            assert(l[i] is Some);
        }
    }
}

/// Refines `line` with `hint`, or `None` when no placement of the hint agrees with it.
pub(crate) fn try_refine_line(line: &[Square], hint: &[u32]) -> (r: Option<(Vec<Square>, bool, bool)>)
    requires
        line@.len() < usize::MAX,
    ensures
        r is None <==> !solvable(hint@, line@),
        r matches Some(t) ==> t.0@ == refined(hint@, line@) && t.1 == refine_solves(hint@, line@)
            && t.2 == (refined(hint@, line@) != line@),
{
    let left_sol = match Game::place_all_left(hint, line) {
        Some(s) => s,
        None => {
            return None;
        },
    };
    let right_sol = match Game::place_all_right(hint, line) {
        Some(s) => s,
        None => {
            return None;
        },
    };
    Some(overlap(&left_sol, &right_sol, line))
}

/// Two valid placements on a fully known line agree up to segment `m`, and segment
/// `m` of `p` does not start before that of `q`.
proof fn lemma_not_before(hint: Seq<u32>, line: Seq<Square>, p: Seq<int>, q: Seq<int>, m: int)
    requires
        valid_placement(hint, line, p),
        valid_placement(hint, line, q),
        fully_known(line),
        0 <= m < hint.len(),
        forall|k: int| 0 <= k < m ==> p[k] == q[k],
    ensures
        q[m] <= p[m],
{
    if p[m] < q[m] {
        let x = p[m];
        assert(covers(hint, p, m, x));
        assert(line[x] == Square::Filled);
        let k = choose|k: int| #[trigger] covers(hint, q, k, x);
        if k < m {
            assert(p[k] + hint[k] < p[m]);
        } else if k > m {
            assert(q[m] + hint[m] < q[k]);
        }
    }
}

proof fn lemma_unique_upto(hint: Seq<u32>, line: Seq<Square>, p: Seq<int>, q: Seq<int>, m: int)
    requires
        valid_placement(hint, line, p),
        valid_placement(hint, line, q),
        fully_known(line),
        0 <= m <= hint.len(),
    ensures
        forall|k: int| 0 <= k < m ==> p[k] == q[k],
    decreases m,
{
    if m > 0 {
        lemma_unique_upto(hint, line, p, q, m - 1);
        lemma_not_before(hint, line, p, q, m - 1);
        lemma_not_before(hint, line, q, p, m - 1);
    }
}

/// A fully known line has at most one valid placement.
proof fn lemma_known_unique(hint: Seq<u32>, line: Seq<Square>, p: Seq<int>, q: Seq<int>)
    requires
        valid_placement(hint, line, p),
        valid_placement(hint, line, q),
        fully_known(line),
    ensures
        p == q,
{
    lemma_unique_upto(hint, line, p, q, hint.len() as int);
    assert(p =~= q);
}

/// Refining a line never changes a known cell. Once refining decides every cell, the
/// refined line matches the hint, and refining it again changes nothing and decides
/// every cell again.
pub proof fn lemma_refine_settles(hint: Seq<u32>, line: Seq<Square>)
    requires
        solvable(hint, line),
        hint.len() <= usize::MAX,
    ensures
        forall|i: int| 0 <= i < line.len() && line[i] != Square::Unknown ==> #[trigger] refined(hint, line)[i] == line[i],
        refine_solves(hint, line) ==> {
            let nl = refined(hint, line);
            &&& fully_known(nl)
            &&& matches_hint(hint, nl)
            &&& solvable(hint, nl)
            &&& refined(hint, nl) == nl
            &&& refine_solves(hint, nl)
        },
{
    lemma_known_kept(hint, line);
    if refine_solves(hint, line) {
        let n = line.len() as int;
        let nl = refined(hint, line);
        lemma_left_exists(hint, line);
        let lp = left_positions(hint, line);
        let c = cells(hint, lp, n);
        assert(left_cells(hint, line) == c);
        assert forall|i: int| 0 <= i < n implies (nl[i] == Square::Filled <==> covered(hint, lp, i))
            && nl[i] != Square::Unknown by {
            assert(c[i] is Some <==> covered(hint, lp, i));
        }
        assert(valid_placement(hint, nl, lp));
        assert(overlay(nl, hint, lp) =~= nl);
        lemma_matches_overlay(hint, nl, lp);
        lemma_left_exists(hint, nl);
        lemma_known_unique(hint, nl, left_positions(hint, nl), lp);
        lemma_mirror(hint, nl);
        lemma_known_unique(hint, nl, right_positions(hint, nl), lp);
        assert(left_cells(hint, nl) == c);
        assert(right_cells(hint, nl) == c);
        assert forall|i: int| 0 <= i < n implies #[trigger] refined(hint, nl)[i] == nl[i] by {
            assert(c[i] is Some <==> covered(hint, lp, i));
        }
        assert(refined(hint, nl) =~= nl);
        assert forall|i: int| 0 <= i < n implies forced_filled(c, c, i) || forced_empty(c, c, i) by {}
    }
}

/// On a line with exactly one valid placement, the leftmost and the rightmost
/// placements are the same.
pub proof fn lemma_single_completion(hint: Seq<u32>, line: Seq<Square>)
    requires
        exists|q: Seq<int>| valid_placement(hint, line, q)
            && forall|p: Seq<int>| valid_placement(hint, line, p) ==> p == q,
        hint.len() <= usize::MAX,
    ensures
        left_cells(hint, line) == right_cells(hint, line),
{
    let q = choose|q: Seq<int>| valid_placement(hint, line, q)
        && forall|p: Seq<int>| valid_placement(hint, line, p) ==> p == q;
    assert(leftmost(hint, line, q));
    lemma_leftmost_unique(hint, line, q);
    lemma_mirror(hint, line);
}

/// In the cells of a placement, a covered cell's count of passed gaps is its segment,
/// and an uncovered cell's count is the segment that comes next.
proof fn lemma_gaps(hint: Seq<u32>, line: Seq<Square>, pos: Seq<int>, i: int)
    requires
        placed_prefix(hint, line, pos),
        pos.len() == hint.len(),
        0 <= i < line.len(),
    ensures
        ({
            let c = cells(hint, pos, line.len() as int);
            let g = gaps_passed(c, i);
            &&& covered(hint, pos, i) ==> covers(hint, pos, g, i)
            &&& !covered(hint, pos, i) ==> 0 <= g <= pos.len() && (g == 0 || pos[g - 1] + hint[g - 1] <= i)
                && (g == pos.len() || i < pos[g])
        }),
    decreases i,
{
    let n = line.len() as int;
    let c = cells(hint, pos, n);
    let h = pos.len() as int;
    if covered(hint, pos, i) {
        let k = choose|k: int| #[trigger] covers(hint, pos, k, i);
        lemma_one_owner(hint, line, pos, k, i);
    }
    if i == 0 {
        assert(gaps_passed(c, 0) == 0);
        if covered(hint, pos, i) {
            let k = choose|k: int| #[trigger] covers(hint, pos, k, i);
            if k > 0 {
                assert(pos[0] + hint[0] < pos[k]);
            }
            assert(covers(hint, pos, 0, 0));
        } else if h > 0 {
            if pos[0] == 0 {
                assert(covers(hint, pos, 0, 0));
            }
        }
    } else {
        lemma_gaps(hint, line, pos, i - 1);
        let g0 = gaps_passed(c, i - 1);
        if covered(hint, pos, i - 1) {
            assert(covers(hint, pos, g0, i - 1));
            lemma_one_owner(hint, line, pos, g0, i - 1);
            assert(c[i - 1] is Some);
            if covered(hint, pos, i) {
                let k = choose|k: int| #[trigger] covers(hint, pos, k, i);
                if k < g0 {
                    assert(pos[k] + hint[k] < pos[g0]);
                } else if k > g0 {
                    assert(pos[g0] + hint[g0] < pos[k]);
                }
                assert(k == g0);
                assert(c[i] is Some);
                assert(gaps_passed(c, i) == g0);
                assert(covers(hint, pos, gaps_passed(c, i), i));
            } else {
                assert(c[i] is None);
                assert(gaps_passed(c, i) == g0 + 1);
                assert(!covers(hint, pos, g0, i));
                if g0 + 1 < h {
                    assert(pos[g0] + hint[g0] < pos[g0 + 1]);
                }
            }
        } else {
            assert(c[i - 1] is None);
            assert(gaps_passed(c, i) == g0);
            if covered(hint, pos, i) {
                let k = choose|k: int| #[trigger] covers(hint, pos, k, i);
                if k < g0 {
                    if k < g0 - 1 {
                        assert(pos[k] + hint[k] < pos[g0 - 1]);
                    }
                    assert(false);
                } else if k > g0 {
                    assert(pos[g0] + hint[g0] < pos[k]);
                    assert(false);
                }
                assert(covers(hint, pos, gaps_passed(c, i), i));
            } else {
                if g0 < h && i == pos[g0] {
                    assert(covers(hint, pos, g0, i));
                }
            }
        }
    }
}

/// Refinement is sound for placements: a cell it leaves `Filled` lies in a segment of
/// every valid placement, and one it leaves `Empty` lies in none.
proof fn lemma_refine_sound_placement(hint: Seq<u32>, line: Seq<Square>, q: Seq<int>)
    requires
        valid_placement(hint, line, q),
        hint.len() <= usize::MAX,
    ensures
        forall|i: int| 0 <= i < line.len() ==>
            (#[trigger] refined(hint, line)[i] == Square::Filled ==> covered(hint, q, i))
            && (refined(hint, line)[i] == Square::Empty ==> !covered(hint, q, i)),
{
    let n = line.len() as int;
    let h = hint.len() as int;
    lemma_left_exists(hint, line);
    lemma_mirror(hint, line);
    lemma_left_least(hint, line, q);
    lemma_right_greatest(hint, line, q);
    let lp = left_positions(hint, line);
    let rp = right_positions(hint, line);
    let lc = left_cells(hint, line);
    let rc = right_cells(hint, line);
    assert forall|i: int| 0 <= i < n implies
        (#[trigger] refined(hint, line)[i] == Square::Filled ==> covered(hint, q, i))
        && (refined(hint, line)[i] == Square::Empty ==> !covered(hint, q, i)) by {
        lemma_gaps(hint, line, lp, i);
        lemma_gaps(hint, line, rp, i);
        if forced_filled(lc, rc, i) {
            let k = gaps_passed(lc, i);
            assert(covered(hint, lp, i));
            assert(covered(hint, rp, i));
            let kl = choose|k: int| #[trigger] covers(hint, lp, k, i);
            let kr = choose|k: int| #[trigger] covers(hint, rp, k, i);
            lemma_one_owner(hint, line, lp, kl, i);
            lemma_one_owner(hint, line, rp, kr, i);
            assert(kl == kr);
            assert(lp[kl] <= q[kl] && q[kl] <= rp[kl]);
            assert(covers(hint, q, kl, i));
        } else if forced_empty(lc, rc, i) {
            let g = gaps_passed(lc, i);
            assert(!covered(hint, lp, i));
            assert(!covered(hint, rp, i));
            if covered(hint, q, i) {
                let k = choose|k: int| #[trigger] covers(hint, q, k, i);
                if k < g {
                    assert(q[k] <= rp[k]);
                    if k < g - 1 {
                        assert(rp[k] + hint[k] < rp[g - 1]);
                    }
                } else {
                    assert(lp[k] <= q[k]);
                    if k > g {
                        assert(lp[g] + hint[g] < lp[k]);
                    }
                }
            }
        } else {
            if line[i] == Square::Empty && covered(hint, q, i) {
                let k = choose|k: int| #[trigger] covers(hint, q, k, i);
                assert(covers(hint, q, k, i));
            }
        }
    }
}

/// A completion of `line` for `hint`: a fully known line that keeps every known cell of
/// `line` and has a valid placement of `hint`.
pub open spec fn completion(hint: Seq<u32>, line: Seq<Square>, s: Seq<Square>) -> bool {
    &&& s.len() == line.len()
    &&& fully_known(s)
    &&& solvable(hint, s)
    &&& forall|i: int| 0 <= i < line.len() && line[i] != Square::Unknown ==> s[i] == line[i]
}

/// Refinement is sound: a line with a completion is solvable, and every cell that
/// refining it decides is the same in every completion.
pub proof fn lemma_refine_sound(hint: Seq<u32>, line: Seq<Square>, s: Seq<Square>)
    requires
        completion(hint, line, s),
        hint.len() <= usize::MAX,
    ensures
        solvable(hint, line),
        forall|i: int| 0 <= i < line.len() && #[trigger] refined(hint, line)[i] != Square::Unknown
            ==> refined(hint, line)[i] == s[i],
{
    let q = choose|q: Seq<int>| valid_placement(hint, s, q);
    assert forall|i: int| 0 <= i < s.len() implies (s[i] == Square::Filled <==> covered(hint, q, i)) by {
        if covered(hint, q, i) {
            let k = choose|k: int| #[trigger] covers(hint, q, k, i);
            assert(covers(hint, q, k, i));
        }
    }
    assert forall|k: int, i: int| covers(hint, q, k, i) implies line[i] != Square::Empty by {
        assert(s[i] != Square::Empty);
    }
    assert(valid_placement(hint, line, q));
    lemma_refine_sound_placement(hint, line, q);
    assert forall|i: int| 0 <= i < line.len() && #[trigger] refined(hint, line)[i] != Square::Unknown
        implies refined(hint, line)[i] == s[i] by {
        assert(refined(hint, line)[i] == Square::Filled ==> covered(hint, q, i));
    }
}

impl Game {
    /// Refines `line` with `hint` by the overlap rule on its two extreme placements: a cell
    /// that the leftmost and the rightmost placements put in the same segment becomes
    /// `Filled`, one that both leave in the gap before the same segment becomes `Empty`,
    /// the others keep their state. This is sound, not complete: some cells fixed in every
    /// completion may stay `Unknown`. Returns the new line, whether every cell is now decided, and whether any cell
    /// changed.
    pub fn refine_line(line: &[Square], hint: &[u32]) -> (r: (Vec<Square>, bool, bool))
        requires
            line@.len() < usize::MAX,
            solvable(hint@, line@),
        ensures
            r.0@ == refined(hint@, line@),
            r.1 == refine_solves(hint@, line@),
            r.2 == (r.0@ != line@),
            forall|i: int| 0 <= i < line@.len() && line@[i] != Square::Unknown ==> r.0@[i] == line@[i],
            r.1 ==> fully_known(r.0@),
    {
        proof {
            lemma_known_kept(hint@, line@);
        }
        match try_refine_line(line, hint) {
            Some(t) => t,
            None => (Vec::new(), false, false),
        }
    }
}

} // verus!
