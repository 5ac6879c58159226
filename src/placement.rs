use vstd::prelude::*;

use crate::game::{Game, SegmentPlacement};
use crate::line::{hint_view, matches_hint, runs, Square};

verus! {

/// Segment `k` of a placement `pos` covers cell `i`.
pub open spec fn covers(hint: Seq<u32>, pos: Seq<int>, k: int, i: int) -> bool {
    0 <= k < pos.len() && pos[k] <= i < pos[k] + hint[k]
}

/// Some segment of `pos` covers cell `i`.
pub open spec fn covered(hint: Seq<u32>, pos: Seq<int>, i: int) -> bool {
    exists|k: int| covers(hint, pos, k, i)
}

/// The first `pos.len()` segments of `hint` start at `pos`: each inside the line, in
/// order with at least one cell between two of them, none over an `Empty` cell.
pub open spec fn placed_prefix(hint: Seq<u32>, line: Seq<Square>, pos: Seq<int>) -> bool {
    &&& pos.len() <= hint.len()
    &&& forall|k: int| 0 <= k < pos.len() ==> hint[k] >= 1 && 0 <= pos[k] && pos[k] + hint[k] <= line.len()
    &&& forall|k1: int, k2: int| 0 <= k1 < k2 < pos.len() ==> pos[k1] + hint[k1] < pos[k2]
    &&& forall|k: int, i: int| covers(hint, pos, k, i) ==> line[i] != Square::Empty
}

/// `pos` places every segment of `hint` on `line`, and every `Filled` cell of the line
/// lies in a segment: a completion of the line that agrees with it.
pub open spec fn valid_placement(hint: Seq<u32>, line: Seq<Square>, pos: Seq<int>) -> bool {
    &&& placed_prefix(hint, line, pos)
    &&& pos.len() == hint.len()
    &&& forall|i: int| 0 <= i < line.len() && line[i] == Square::Filled ==> covered(hint, pos, i)
}

/// `line` with the cells of every segment of `pos` set to `Filled`.
pub open spec fn overlay(line: Seq<Square>, hint: Seq<u32>, pos: Seq<int>) -> Seq<Square> {
    Seq::new(line.len(), |i: int| if covered(hint, pos, i) { Square::Filled } else { line[i] })
}

pub open spec fn sum(s: Seq<int>) -> int
    decreases s.len(),
{
    if s.len() == 0 { 0 } else { sum(s.drop_last()) + s.last() }
}

pub open spec fn count_filled(s: Seq<Square>) -> int
    decreases s.len(),
{
    if s.len() == 0 {
        0
    } else {
        count_filled(s.drop_last()) + if s.last() == Square::Filled { 1int } else { 0int }
    }
}

proof fn lemma_sum_runs(s: Seq<Square>)
    ensures
        sum(runs(s)) == count_filled(s),
        s.len() > 0 && s.last() == Square::Filled ==> runs(s).len() > 0,
    decreases s.len(),
{
    if s.len() > 0 {
        let d = s.drop_last();
        lemma_sum_runs(d);
        let r = runs(d);
        if s.last() == Square::Filled {
            if s.len() >= 2 && s[s.len() - 2] == Square::Filled {
                assert(d.last() == Square::Filled);
                let u = r.update(r.len() - 1, r.last() + 1);
                assert(u.drop_last() == r.drop_last());
            } else {
                assert(r.push(1).drop_last() == r);
            }
        }
    }
}

proof fn lemma_count_more(a: Seq<Square>, b: Seq<Square>, j: int)
    requires
        a.len() == b.len(),
        forall|i: int| 0 <= i < a.len() && a[i] == Square::Filled ==> b[i] == Square::Filled,
        0 <= j < a.len(),
        b[j] == Square::Filled,
        a[j] != Square::Filled,
    ensures
        count_filled(a) < count_filled(b),
    decreases a.len(),
{
    lemma_count_le(a.drop_last(), b.drop_last());
    if j < a.len() - 1 {
        lemma_count_more(a.drop_last(), b.drop_last(), j);
    }
}

proof fn lemma_count_le(a: Seq<Square>, b: Seq<Square>)
    requires
        a.len() == b.len(),
        forall|i: int| 0 <= i < a.len() && a[i] == Square::Filled ==> b[i] == Square::Filled,
    ensures
        count_filled(a) <= count_filled(b),
    decreases a.len(),
{
    if a.len() > 0 {
        lemma_count_le(a.drop_last(), b.drop_last());
    }
}

/// On a line whose `Filled` cells are exactly those of the segments, the runs are
/// the hint: stated for every prefix, in a gap after `m` segments or inside segment `m`.
proof fn lemma_runs_of_segments(hint: Seq<u32>, pos: Seq<int>, s: Seq<Square>, n: int)
    requires
        placed_prefix(hint, s, pos),
        pos.len() == hint.len(),
        0 <= n <= s.len(),
        forall|i: int| 0 <= i < s.len() ==> (s[i] == Square::Filled <==> covered(hint, pos, i)),
    ensures
        forall|m: int|
            0 <= m <= pos.len() && (m == 0 || pos[m - 1] + hint[m - 1] <= n) && (m == pos.len() || n <= pos[m])
                ==> runs(s.take(n)) == hint_view(hint.take(m)),
        forall|m: int|
            0 <= m < pos.len() && pos[m] < n <= pos[m] + hint[m]
                ==> runs(s.take(n)) == hint_view(hint.take(m)).push(n - pos[m]),
    decreases n,
{
    if n > 0 {
        lemma_runs_of_segments(hint, pos, s, n - 1);
        let t = s.take(n);
        assert(t.drop_last() == s.take(n - 1));
        assert forall|m: int|
            0 <= m < pos.len() && pos[m] < n <= pos[m] + hint[m]
            implies runs(t) == hint_view(hint.take(m)).push(n - pos[m]) by {
            assert(covers(hint, pos, m, n - 1));
            if n - 1 > pos[m] {
                assert(covers(hint, pos, m, n - 2));
                let r = hint_view(hint.take(m)).push(n - 1 - pos[m]);
                assert(r.update(r.len() - 1, r.last() + 1) == hint_view(hint.take(m)).push(n - pos[m]));
            } else {
                if n >= 2 {
                    if covered(hint, pos, n - 2) {
                        let k = choose|k: int| #[trigger] covers(hint, pos, k, n - 2);
                        if k < m {
                            assert(pos[k] + hint[k] < pos[m]);
                        } else if k > m {
                            assert(pos[m] + hint[m] < pos[k]);
                        }
                    }
                }
            }
        }
        assert forall|m: int|
            0 <= m <= pos.len() && (m == 0 || pos[m - 1] + hint[m - 1] <= n) && (m == pos.len() || n <= pos[m])
            implies runs(t) == hint_view(hint.take(m)) by {
            if m > 0 && pos[m - 1] + hint[m - 1] == n {
                assert(hint.take(m).drop_last() == hint.take(m - 1));
                assert(hint_view(hint.take(m)) == hint_view(hint.take(m - 1)).push(hint[m - 1] as int));
            } else {
                if covered(hint, pos, n - 1) {
                    let k = choose|k: int| #[trigger] covers(hint, pos, k, n - 1);
                    if k < m {
                        if k < m - 1 {
                            assert(pos[k] + hint[k] < pos[m - 1]);
                        }
                    } else if k > m {
                        assert(pos[m] + hint[m] < pos[k]);
                    }
                }
            }
        }
    } else {
        assert forall|m: int|
            0 <= m <= pos.len() && (m == 0 || pos[m - 1] + hint[m - 1] <= n) && (m == pos.len() || n <= pos[m])
            implies runs(s.take(n)) == hint_view(hint.take(m)) by {
            assert(m == 0);
            assert(hint_view(hint.take(0)) =~= seq![]);
        }
    }
}

/// With every segment placed, the matcher accepts the overlaid line exactly when the
/// placement is valid.
pub proof fn lemma_matches_overlay(hint: Seq<u32>, line: Seq<Square>, pos: Seq<int>)
    requires
        placed_prefix(hint, line, pos),
        pos.len() == hint.len(),
    ensures
        matches_hint(hint, overlay(line, hint, pos)) <==> valid_placement(hint, line, pos),
{
    let o = overlay(line, hint, pos);
    let c = Seq::new(line.len(), |i: int| if covered(hint, pos, i) { Square::Filled } else { Square::Empty });
    assert(placed_prefix(hint, c, pos));
    lemma_runs_of_segments(hint, pos, c, c.len() as int);
    assert(c.take(c.len() as int) == c);
    assert(hint.take(hint.len() as int) == hint);
    if valid_placement(hint, line, pos) {
        assert(placed_prefix(hint, o, pos));
        lemma_runs_of_segments(hint, pos, o, o.len() as int);
        assert(o.take(o.len() as int) == o);
    }
    if matches_hint(hint, o) && !valid_placement(hint, line, pos) {
        let j = choose|j: int| 0 <= j < line.len() && line[j] == Square::Filled && !covered(hint, pos, j);
        lemma_sum_runs(o);
        lemma_sum_runs(c);
        lemma_count_more(c, o, j);
    }
}

/// Some placement of `hint` on `line` is valid.
pub open spec fn solvable(hint: Seq<u32>, line: Seq<Square>) -> bool {
    exists|pos: Seq<int>| valid_placement(hint, line, pos)
}

/// `a` comes before `b` in lexicographic order.
pub open spec fn lex_lt(a: Seq<int>, b: Seq<int>) -> bool {
    exists|j: int| 0 <= j < a.len() && j < b.len() && a.take(j) == b.take(j) && #[trigger] a[j] < b[j]
}

/// `pos` is the valid placement that comes first in lexicographic order of start
/// positions: every segment as far left as the later ones allow.
pub open spec fn leftmost(hint: Seq<u32>, line: Seq<Square>, pos: Seq<int>) -> bool {
    &&& valid_placement(hint, line, pos)
    &&& forall|q: Seq<int>| valid_placement(hint, line, q) ==> q == pos || lex_lt(pos, q)
}

/// The start positions of the leftmost placement.
pub open spec fn left_positions(hint: Seq<u32>, line: Seq<Square>) -> Seq<int> {
    choose|pos: Seq<int>| leftmost(hint, line, pos)
}

/// The segment that covers cell `i`, if any.
pub open spec fn owner(hint: Seq<u32>, pos: Seq<int>, i: int) -> Option<usize> {
    if covered(hint, pos, i) {
        Some((choose|k: int| covers(hint, pos, k, i)) as usize)
    } else {
        None
    }
}

/// The per-cell view of a placement on a line of `n` cells.
pub open spec fn cells(hint: Seq<u32>, pos: Seq<int>, n: int) -> Seq<Option<usize>> {
    Seq::new(n as nat, |i: int| owner(hint, pos, i))
}

/// Start positions read as integers.
pub open spec fn ints(v: Seq<usize>) -> Seq<int> {
    v.map_values(|x: usize| x as int)
}

/// No cell of `line` in `[start, start + n)` is `Empty`.
pub open spec fn window_free(line: Seq<Square>, start: int, n: int) -> bool {
    forall|x: int| start <= x < start + n ==> line[x] != Square::Empty
}

proof fn lemma_lex_asym(a: Seq<int>, b: Seq<int>)
    requires
        lex_lt(a, b),
    ensures
        !lex_lt(b, a),
{
    let j1 = choose|j: int| 0 <= j < a.len() && j < b.len() && a.take(j) == b.take(j) && #[trigger] a[j] < b[j];
    if lex_lt(b, a) {
        let j2 = choose|j: int| 0 <= j < b.len() && j < a.len() && b.take(j) == a.take(j) && #[trigger] b[j] < a[j];
        if j1 < j2 {
            assert(b.take(j2)[j1] == a.take(j2)[j1]);
        } else if j2 < j1 {
            assert(b.take(j1)[j2] == a.take(j1)[j2]);
        }
    }
}

/// The leftmost placement is unique.
pub proof fn lemma_leftmost_unique(hint: Seq<u32>, line: Seq<Square>, pos: Seq<int>)
    requires
        leftmost(hint, line, pos),
    ensures
        left_positions(hint, line) == pos,
{
    let c = left_positions(hint, line);
    assert(leftmost(hint, line, c));
    if c != pos {
        assert(lex_lt(pos, c));
        assert(lex_lt(c, pos));
        lemma_lex_asym(pos, c);
    }
}

/// Segments of a placed prefix do not overlap.
pub proof fn lemma_one_owner(hint: Seq<u32>, line: Seq<Square>, pos: Seq<int>, k: int, i: int)
    requires
        placed_prefix(hint, line, pos),
        covers(hint, pos, k, i),
    ensures
        owner(hint, pos, i) == Some(k as usize),
{
    let c = choose|k2: int| covers(hint, pos, k2, i);
    if c < k {
        assert(pos[c] + hint[c] < pos[k]);
    } else if c > k {
        assert(pos[k] + hint[k] < pos[c]);
    }
}

fn can_seg_be_placed(segment: u32, line: &[Square], start_index: usize) -> (r: bool)
    requires
        start_index + segment <= line@.len(),
    ensures
        r == window_free(line@, start_index as int, segment as int),
{
    let n = line.len();
    assert(start_index + segment <= n);
    let end = start_index + segment as usize;
    let mut x: usize = start_index;
    while x < end
        invariant
            end == start_index + segment,
            start_index <= x <= end <= line@.len(),
            window_free(line@, start_index as int, x - start_index),
        decreases end - x,
    {
        if line[x] == Square::Empty {
            assert(line@[x as int] == Square::Empty);
            return false;
        }
        x = x + 1;
    }
    true
}

/// The first start at or after `search_start_index` whose window holds no `Empty` cell.
fn place_segment_left(segment: u32, line: &[Square], search_start_index: usize) -> (r: Option<usize>)
    requires
        1 <= segment <= line@.len(),
    ensures
        r matches Some(p) ==> search_start_index <= p && p + segment <= line@.len()
            && window_free(line@, p as int, segment as int),
        forall|j: int|
            search_start_index <= j && j + segment <= line@.len()
                && (r matches Some(p) ==> j < p) ==> !window_free(line@, j, segment as int),
{
    let end = line.len() - segment as usize + 1;
    let mut i: usize = search_start_index;
    while i < end
        invariant
            end == line@.len() + 1 - segment,
            search_start_index <= i || i == search_start_index,
            forall|j: int| search_start_index <= j < i ==> !window_free(line@, j, segment as int),
        decreases end - i,
    {
        if can_seg_be_placed(segment, line, i) {
            return Some(i);
        }
        i = i + 1;
    }
    None
}

/// The placement that the start positions `pos` give, cell by cell.
fn place_segment_positions(positions: &Vec<usize>, hint: &[u32], size: usize, Ghost(line): Ghost<Seq<Square>>) -> (r: Vec<SegmentPlacement>)
    requires
        valid_placement(hint@, line, ints(positions@)),
        size == line.len(),
    ensures
        r@ == cells(hint@, ints(positions@), size as int),
{
    let ghost pos = ints(positions@);
    let mut v: Vec<SegmentPlacement> = Vec::new();
    let mut i: usize = 0;
    while i < size
        invariant
            i <= size,
            v@.len() == i,
            forall|x: int| 0 <= x < i ==> v@[x] is None,
        decreases size - i,
    {
        v.push(None);
        i = i + 1;
    }
    let mut k: usize = 0;
    while k < positions.len()
        invariant
            valid_placement(hint@, line, pos),
            pos == ints(positions@),
            size == line.len(),
            k <= positions@.len(),
            v@.len() == size,
            forall|x: int| 0 <= x < size ==>
                (#[trigger] v@[x] matches Some(c) ==> c < k && covers(hint@, pos, c as int, x)),
            forall|x: int, c: int| 0 <= c < k && covers(hint@, pos, c, x) ==> v@[x] is Some,
        decreases positions@.len() - k,
    {
        let p = positions[k];
        let seg = hint[k] as usize;
        assert(pos[k as int] == p);
        let mut x: usize = p;
        while x < p + seg
            invariant
                valid_placement(hint@, line, pos),
                pos == ints(positions@),
                size == line.len(),
                k < positions@.len(),
                p == pos[k as int],
                seg == hint@[k as int],
                p <= x <= p + seg <= size,
                v@.len() == size,
                forall|y: int| 0 <= y < size ==>
                    (#[trigger] v@[y] matches Some(c) ==> c <= k && covers(hint@, pos, c as int, y)),
                forall|y: int, c: int| 0 <= c < k && covers(hint@, pos, c, y) ==> v@[y] is Some,
                forall|y: int| p <= y < x ==> v@[y] is Some,
            decreases p + seg - x,
        {
            v[x] = Some(k);
            x = x + 1;
        }
        k = k + 1;
    }
    assert forall|x: int| 0 <= x < size implies v@[x] == owner(hint@, pos, x) by {
        if v@[x] is Some {
            lemma_one_owner(hint@, line, pos, v@[x]->0 as int, x);
        }
    }
    assert(v@ =~= cells(hint@, pos, size as int));
    v
}

/// On a line with some segments filled in, a window holds an `Empty` cell exactly where
/// it does on the line itself.
proof fn lemma_free_overlay(hint: Seq<u32>, line: Seq<Square>, pre: Seq<int>, j: int, n: int)
    requires
        placed_prefix(hint, line, pre),
        0 <= j,
        j + n <= line.len(),
    ensures
        window_free(overlay(line, hint, pre), j, n) <==> window_free(line, j, n),
{
    let o = overlay(line, hint, pre);
    if window_free(line, j, n) {
        assert forall|x: int| j <= x < j + n implies o[x] != Square::Empty by {
            assert(line[x] != Square::Empty);
        }
    }
    if window_free(o, j, n) {
        assert forall|x: int| j <= x < j + n implies line[x] != Square::Empty by {
            assert(o[x] != Square::Empty);
            if covered(hint, pre, x) {
                let k = choose|k: int| #[trigger] covers(hint, pre, k, x);
                assert(covers(hint, pre, k, x));
            }
        }
    }
}

/// What a valid placement that extends `pre` says of the next segment.
proof fn lemma_next_start(hint: Seq<u32>, line: Seq<Square>, pre: Seq<int>, t: Seq<int>)
    requires
        valid_placement(hint, line, pre + t),
        pre.len() < hint.len(),
    ensures
        t.len() == hint.len() - pre.len(),
        t.len() >= 1,
        (pre + t)[pre.len() as int] == t[0],
        hint[pre.len() as int] >= 1,
        0 <= t[0],
        t[0] + hint[pre.len() as int] <= line.len(),
        window_free(line, t[0], hint[pre.len() as int] as int),
        pre.len() > 0 ==> pre.last() + hint[pre.len() - 1] < t[0],
{
    let q = pre + t;
    let k = pre.len() as int;
    assert(q[k] == t[0]);
    assert forall|x: int| t[0] <= x < t[0] + hint[k] implies line[x] != Square::Empty by {
        assert(covers(hint, q, k, x));
    }
    if k > 0 {
        assert(q[k - 1] == pre.last());
    }
}

proof fn lemma_lex_cons(x: int, a: Seq<int>, b: Seq<int>)
    requires
        lex_lt(a, b),
    ensures
        lex_lt(seq![x] + a, seq![x] + b),
{
    let j = choose|j: int| 0 <= j < a.len() && j < b.len() && a.take(j) == b.take(j) && #[trigger] a[j] < b[j];
    let a2 = seq![x] + a;
    let b2 = seq![x] + b;
    assert(a2.take(j + 1) =~= seq![x] + a.take(j));
    assert(b2.take(j + 1) =~= seq![x] + b.take(j));
    assert(a2[j + 1] < b2[j + 1]);
}

/// Places segments `hint_index..` of `hint`, each as far left as the later ones allow,
/// on `line`: the line `orig` with the segments `pre` already placed filled in. The
/// search starts at `start_index`, one cell past the last segment placed.
fn rec_place_left(
    hint: &[u32],
    hint_index: usize,
    line: &[Square],
    start_index: usize,
    Ghost(orig): Ghost<Seq<Square>>,
    Ghost(pre): Ghost<Seq<int>>,
) -> (r: Option<Vec<usize>>)
    requires
        orig.len() < usize::MAX,
        pre.len() == hint_index <= hint@.len(),
        placed_prefix(hint@, orig, pre),
        line@ == overlay(orig, hint@, pre),
        start_index == if hint_index == 0 { 0 } else { pre.last() + hint@[hint_index - 1] + 1 },
    ensures
        r is None <==> !exists|s: Seq<int>| valid_placement(hint@, orig, pre + s),
        r matches Some(v) ==> valid_placement(hint@, orig, pre + ints(v@)) && forall|t: Seq<int>|
            valid_placement(hint@, orig, #[trigger] (pre + t)) ==> t == ints(v@) || lex_lt(ints(v@), t),
    decreases hint@.len() - hint_index,
{
    if hint_index >= hint.len() {
        let ok = Game::check_line(hint, line);
        proof {
            lemma_matches_overlay(hint@, orig, pre);
            let e = Seq::<int>::empty();
            assert(pre + e =~= pre);
            assert(ints(Seq::<usize>::empty()) =~= e);
            assert forall|t: Seq<int>| valid_placement(hint@, orig, #[trigger] (pre + t)) implies t == e by {
                assert((pre + t).len() == hint@.len());
                assert(t =~= e);
            }
        }
        if ok {
            return Some(Vec::new());
        } else {
            return None;
        }
    }
    let seg = hint[hint_index];
    if seg == 0 || seg as usize > line.len() {
        // a segment of length zero never matches a run, and a longer one does not fit
        proof {
            assert forall|t: Seq<int>| !valid_placement(hint@, orig, #[trigger] (pre + t)) by {
                if valid_placement(hint@, orig, pre + t) {
                    lemma_next_start(hint@, orig, pre, t);
                }
            }
        }
        return None;
    }
    let end = line.len() - seg as usize + 1;
    let next_index = hint_index + 1;
    let mut i: usize = start_index;
    while i < end
        invariant
            orig.len() < usize::MAX,
            pre.len() == hint_index < hint@.len(),
            placed_prefix(hint@, orig, pre),
            line@ == overlay(orig, hint@, pre),
            start_index == if hint_index == 0 { 0 } else { pre.last() + hint@[hint_index - 1] + 1 },
            start_index <= i,
            seg == hint@[hint_index as int],
            1 <= seg <= line@.len(),
            end == line@.len() - seg + 1,
            next_index == hint_index + 1,
            forall|t: Seq<int>| valid_placement(hint@, orig, #[trigger] (pre + t)) ==> t[0] >= i,
        decreases end - i,
    {
        let p = match place_segment_left(seg, line, i) {
            None => {
                proof {
                    assert forall|t: Seq<int>| !valid_placement(hint@, orig, #[trigger] (pre + t)) by {
                        if valid_placement(hint@, orig, pre + t) {
                            lemma_next_start(hint@, orig, pre, t);
                            lemma_free_overlay(hint@, orig, pre, t[0], seg as int);
                        }
                    }
                }
                return None;
            },
            Some(p) => p,
        };
        proof {
            lemma_free_overlay(hint@, orig, pre, p as int, seg as int);
        }
        let n = line.len();
        assert(p + seg <= n);
        let seg_end = p + seg as usize;
        let mut new_line = vstd::slice::slice_to_vec(line);
        let mut x: usize = p;
        while x < seg_end
            invariant
                p + seg <= line@.len(),
                seg_end == p + seg,
                p <= x <= p + seg,
                new_line@.len() == line@.len(),
                forall|y: int| 0 <= y < line@.len() ==> #[trigger] new_line@[y] == if p <= y < x {
                    Square::Filled
                } else {
                    line@[y]
                },
            decreases p + seg - x,
        {
            new_line[x] = Square::Filled;
            x = x + 1;
        }
        let ghost npre = pre.push(p as int);
        proof {
            assert forall|k: int| 0 <= k < pre.len() implies npre[k] == pre[k] by {}
            assert forall|k1: int, k2: int| 0 <= k1 < k2 < npre.len() implies npre[k1] + hint@[k1] < npre[k2] by {
                if k2 == pre.len() && k1 < pre.len() - 1 {
                    assert(pre[k1] + hint@[k1] < pre[pre.len() - 1]);
                }
            }
            assert forall|k: int, y: int| covers(hint@, npre, k, y) implies orig[y] != Square::Empty by {
                if k < pre.len() {
                    assert(covers(hint@, pre, k, y));
                }
            }
            assert(placed_prefix(hint@, orig, npre));
            assert forall|y: int| 0 <= y < orig.len() implies new_line@[y] == overlay(orig, hint@, npre)[y] by {
                if p <= y < p + seg {
                    assert(covers(hint@, npre, pre.len() as int, y));
                } else {
                    if covered(hint@, npre, y) {
                        let k = choose|k: int| #[trigger] covers(hint@, npre, k, y);
                        assert(covers(hint@, pre, k, y));
                    }
                    if covered(hint@, pre, y) {
                        let k = choose|k: int| #[trigger] covers(hint@, pre, k, y);
                        assert(covers(hint@, npre, k, y));
                    }
                }
            }
            assert(new_line@ =~= overlay(orig, hint@, npre));
        }
        let next = rec_place_left(
            hint,
            next_index,
            new_line.as_slice(),
            p + seg as usize + 1,
            Ghost(orig),
            Ghost(npre),
        );
        match next {
            None => {
                proof {
                    assert forall|t: Seq<int>| valid_placement(hint@, orig, #[trigger] (pre + t)) implies t[0] >= i + 1 by {
                        lemma_next_start(hint@, orig, pre, t);
                        if t[0] < p {
                            lemma_free_overlay(hint@, orig, pre, t[0], seg as int);
                        } else if t[0] == p {
                            assert(pre + t =~= npre + t.skip(1));
                        }
                    }
                }
                i = i + 1;
            },
            Some(mut rest) => {
                let mut v: Vec<usize> = Vec::new();
                v.push(p);
                let ghost rv = rest@;
                v.append(&mut rest);
                proof {
                    let iv = ints(v@);
                    assert(iv =~= seq![p as int] + ints(rv));
                    assert(pre + iv =~= npre + ints(rv));
                    assert forall|t: Seq<int>| valid_placement(hint@, orig, #[trigger] (pre + t)) implies t == iv || lex_lt(iv, t) by {
                        lemma_next_start(hint@, orig, pre, t);
                        if t[0] < p {
                            lemma_free_overlay(hint@, orig, pre, t[0], seg as int);
                        } else if t[0] == p {
                            assert(pre + t =~= npre + t.skip(1));
                            assert(t =~= seq![p as int] + t.skip(1));
                            if t.skip(1) != ints(rv) {
                                lemma_lex_cons(p as int, ints(rv), t.skip(1));
                            }
                        } else {
                            assert(iv.take(0) =~= t.take(0));
                            assert(iv[0] < t[0]);
                        }
                    }
                }
                return Some(v);
            },
        }
    }
    proof {
        assert forall|t: Seq<int>| !valid_placement(hint@, orig, #[trigger] (pre + t)) by {
            if valid_placement(hint@, orig, pre + t) {
                lemma_next_start(hint@, orig, pre, t);
            }
        }
    }
    None
}

/// `s` read from right to left.
pub open spec fn reversed<A>(s: Seq<A>) -> Seq<A> {
    Seq::new(s.len(), |i: int| s[s.len() - 1 - i])
}

/// The start positions, on the reversed line with the reversed hint, of the segments
/// `pos` on a line of `n` cells.
pub open spec fn rev_pos(hint: Seq<u32>, pos: Seq<int>, n: int) -> Seq<int> {
    Seq::new(pos.len(), |k: int| n - pos[pos.len() - 1 - k] - hint[pos.len() - 1 - k])
}

/// The start positions of the rightmost placement: the leftmost one of the reversed
/// line and hint, read back.
pub open spec fn right_positions(hint: Seq<u32>, line: Seq<Square>) -> Seq<int> {
    rev_pos(reversed(hint), left_positions(reversed(hint), reversed(line)), line.len() as int)
}

/// A per-cell placement of a reversed line with a hint of `h` segments, read back:
/// cells reversed, segment `k` renamed `h - k - 1`.
pub open spec fn mirror(c: Seq<Option<usize>>, h: int) -> Seq<Option<usize>> {
    Seq::new(c.len(), |i: int|
        match c[c.len() - 1 - i] {
            Some(k) => Some((h - k - 1) as usize),
            None => None,
        })
}

/// A placement read from the other end is a placement of the reversed line and hint.
pub proof fn lemma_rev_valid(hint: Seq<u32>, line: Seq<Square>, pos: Seq<int>)
    requires
        valid_placement(hint, line, pos),
    ensures
        valid_placement(reversed(hint), reversed(line), rev_pos(hint, pos, line.len() as int)),
        forall|k: int, i: int| 0 <= i < line.len() ==>
            (covers(hint, pos, k, i) <==> #[trigger] covers(reversed(hint), rev_pos(hint, pos, line.len() as int), pos.len() - 1 - k, line.len() - 1 - i)),
{
    let n = line.len() as int;
    let h = pos.len() as int;
    let rh = reversed(hint);
    let rl = reversed(line);
    let rp = rev_pos(hint, pos, n);
    assert forall|k: int, i: int| 0 <= i < n implies
        (covers(hint, pos, k, i) <==> #[trigger] covers(rh, rp, h - 1 - k, n - 1 - i)) by {
        if 0 <= k < h {
            assert(rp[h - 1 - k] == n - pos[k] - hint[k]);
            assert(rh[h - 1 - k] == hint[k]);
        }
    }
    assert forall|k1: int, k2: int| 0 <= k1 < k2 < rp.len() implies rp[k1] + rh[k1] < rp[k2] by {
        assert(pos[h - 1 - k2] + hint[h - 1 - k2] < pos[h - 1 - k1]);
    }
    assert forall|k: int, i: int| covers(rh, rp, k, i) implies rl[i] != Square::Empty by {
        assert(covers(hint, pos, h - 1 - k, n - 1 - i));
    }
    assert forall|i: int| 0 <= i < n && rl[i] == Square::Filled implies covered(rh, rp, i) by {
        assert(line[n - 1 - i] == Square::Filled);
        let k = choose|k: int| #[trigger] covers(hint, pos, k, n - 1 - i);
        assert(covers(rh, rp, h - 1 - k, i));
    }
}

proof fn lemma_rev_rev<A>(s: Seq<A>)
    ensures
        reversed(reversed(s)) == s,
{
    assert(reversed(reversed(s)) =~= s);
}

/// A line and hint have a valid placement exactly when their reversals do.
proof fn lemma_rev_solvable(hint: Seq<u32>, line: Seq<Square>)
    ensures
        solvable(hint, line) <==> solvable(reversed(hint), reversed(line)),
{
    lemma_rev_rev(hint);
    lemma_rev_rev(line);
    if solvable(hint, line) {
        let q = choose|q: Seq<int>| valid_placement(hint, line, q);
        lemma_rev_valid(hint, line, q);
    }
    if solvable(reversed(hint), reversed(line)) {
        let q = choose|q: Seq<int>| valid_placement(reversed(hint), reversed(line), q);
        lemma_rev_valid(reversed(hint), reversed(line), q);
    }
}

/// The rightmost placement is valid, and its cells are those of the leftmost placement
/// of the reversed line and hint, read back with each segment `i` renamed
/// `hint.len() - i - 1`.
pub proof fn lemma_mirror(hint: Seq<u32>, line: Seq<Square>)
    requires
        solvable(hint, line),
        hint.len() <= usize::MAX,
    ensures
        valid_placement(hint, line, right_positions(hint, line)),
        cells(hint, right_positions(hint, line), line.len() as int) == mirror(
            cells(reversed(hint), left_positions(reversed(hint), reversed(line)), line.len() as int),
            hint.len() as int,
        ),
{
    let rh = reversed(hint);
    let rl = reversed(line);
    let n = line.len() as int;
    lemma_rev_solvable(hint, line);
    let q = choose|q: Seq<int>| valid_placement(rh, rl, q);
    lemma_left_exists(rh, rl);
    let lp = left_positions(rh, rl);
    lemma_rev_valid(rh, rl, lp);
    lemma_rev_rev(hint);
    lemma_rev_rev(line);
    let rp = right_positions(hint, line);
    assert(rp == rev_pos(rh, lp, n));
    let h = hint.len() as int;
    let c = cells(rh, lp, n);
    assert forall|i: int| 0 <= i < n implies #[trigger] cells(hint, rp, n)[i] == mirror(c, h)[i] by {
        let j = n - 1 - i;
        if covered(rh, lp, j) {
            let k = choose|k: int| #[trigger] covers(rh, lp, k, j);
            lemma_one_owner(rh, rl, lp, k, j);
            assert(covers(reversed(rh), rev_pos(rh, lp, n), lp.len() - 1 - k, n - 1 - j));
            lemma_one_owner(hint, line, rp, h - 1 - k, i);
        } else {
            if covered(hint, rp, i) {
                let k = choose|k: int| #[trigger] covers(hint, rp, k, i);
                assert(covers(reversed(rh), rev_pos(rh, lp, n), lp.len() - 1 - (h - 1 - k), n - 1 - j));
            }
        }
    }
    assert(cells(hint, rp, n) =~= mirror(c, h));
}

/// When some placement is valid, the leftmost one exists.
pub proof fn lemma_left_exists(hint: Seq<u32>, line: Seq<Square>)
    requires
        solvable(hint, line),
    ensures
        leftmost(hint, line, left_positions(hint, line)),
{
    let q = choose|q: Seq<int>| valid_placement(hint, line, q);
    assert forall|r: Seq<int>| valid_placement(hint, line, r) implies r.take(0) == q.take(0) || lex_lt(q.take(0), r.take(0)) by {
        assert(r.take(0) =~= q.take(0));
    }
    let m = lemma_lex_min(hint, line, q, 0);
    lemma_leftmost_unique(hint, line, m);
}

/// The least integer at least `lo` with property `p`, given one such integer `x`.
proof fn lemma_least(p: spec_fn(int) -> bool, lo: int, x: int) -> (m: int)
    requires
        p(x),
        lo <= x,
        forall|y: int| #[trigger] p(y) ==> lo <= y,
    ensures
        p(m),
        forall|y: int| #[trigger] p(y) ==> m <= y,
    decreases x - lo,
{
    if exists|y: int| #[trigger] p(y) && y < x {
        let y = choose|y: int| #[trigger] p(y) && y < x;
        lemma_least(p, lo, y)
    } else {
        x
    }
}

/// From a valid placement `q` whose first `j` starts come first among all valid
/// placements, the leftmost placement.
proof fn lemma_lex_min(hint: Seq<u32>, line: Seq<Square>, q: Seq<int>, j: int) -> (m: Seq<int>)
    requires
        valid_placement(hint, line, q),
        0 <= j <= hint.len(),
        forall|r: Seq<int>| #[trigger] valid_placement(hint, line, r) ==> r.take(j) == q.take(j) || lex_lt(q.take(j), r.take(j)),
    ensures
        leftmost(hint, line, m),
    decreases hint.len() - j,
{
    if j == hint.len() {
        assert forall|r: Seq<int>| valid_placement(hint, line, r) implies r == q || lex_lt(q, r) by {
            assert(r.take(j) == r);
            assert(q.take(j) == q);
        }
        q
    } else {
        let p = |x: int| exists|r: Seq<int>| valid_placement(hint, line, r) && r.take(j) == q.take(j) && r[j] == x;
        assert(p(q[j]));
        assert forall|y: int| #[trigger] p(y) implies 0 <= y by {
            let r = choose|r: Seq<int>| valid_placement(hint, line, r) && r.take(j) == q.take(j) && r[j] == y;
        }
        let mv = lemma_least(p, 0, q[j]);
        let q2 = choose|r: Seq<int>| valid_placement(hint, line, r) && r.take(j) == q.take(j) && r[j] == mv;
        assert forall|r: Seq<int>| #[trigger] valid_placement(hint, line, r) implies
            r.take(j + 1) == q2.take(j + 1) || lex_lt(q2.take(j + 1), r.take(j + 1)) by {
            if r.take(j) == q.take(j) {
                assert(p(r[j]));
                if r[j] == mv {
                    assert(r.take(j + 1) =~= r.take(j).push(r[j]));
                    assert(q2.take(j + 1) =~= q2.take(j).push(q2[j]));
                } else {
                    assert(q2.take(j + 1).take(j) =~= r.take(j + 1).take(j));
                    assert(q2.take(j + 1)[j] < r.take(j + 1)[j]);
                }
            } else {
                let w = choose|w: int| 0 <= w < q.take(j).len() && w < r.take(j).len()
                    && q.take(j).take(w) == r.take(j).take(w) && #[trigger] q.take(j)[w] < r.take(j)[w];
                assert(q2.take(j + 1).take(w) =~= q.take(j).take(w));
                assert(r.take(j + 1).take(w) =~= r.take(j).take(w));
                assert(q2.take(j + 1)[w] == q.take(j)[w]);
                assert(r.take(j + 1)[w] == r.take(j)[w]);
            }
        }
        lemma_lex_min(hint, line, q2, j + 1)
    }
}

/// The start of each segment taken from whichever of `a` and `b` starts it first.
pub open spec fn min_pos(a: Seq<int>, b: Seq<int>) -> Seq<int> {
    Seq::new(a.len(), |k: int| if a[k] <= b[k] { a[k] } else { b[k] })
}

/// Two valid placements give a valid placement when each segment takes the smaller start.
proof fn lemma_min_valid(hint: Seq<u32>, line: Seq<Square>, a: Seq<int>, b: Seq<int>)
    requires
        valid_placement(hint, line, a),
        valid_placement(hint, line, b),
    ensures
        valid_placement(hint, line, min_pos(a, b)),
{
    let m = min_pos(a, b);
    assert forall|k1: int, k2: int| 0 <= k1 < k2 < m.len() implies m[k1] + hint[k1] < m[k2] by {
        assert(a[k1] + hint[k1] < a[k2]);
        assert(b[k1] + hint[k1] < b[k2]);
    }
    assert forall|k: int, i: int| covers(hint, m, k, i) implies line[i] != Square::Empty by {
        if a[k] <= b[k] {
            assert(covers(hint, a, k, i));
        } else {
            assert(covers(hint, b, k, i));
        }
    }
    assert forall|x: int| 0 <= x < line.len() && line[x] == Square::Filled implies covered(hint, m, x) by {
        let ka = choose|k: int| #[trigger] covers(hint, a, k, x);
        let kb = choose|k: int| #[trigger] covers(hint, b, k, x);
        if ka == kb {
            assert(covers(hint, m, ka, x));
        } else if ka < kb {
            if a[ka] <= b[ka] {
                assert(covers(hint, m, ka, x));
            } else {
                assert(a[ka] + hint[ka] < a[kb]);
                assert(covers(hint, m, kb, x));
            }
        } else {
            if b[kb] <= a[kb] {
                assert(covers(hint, m, kb, x));
            } else {
                assert(b[kb] + hint[kb] < b[ka]);
                assert(covers(hint, m, ka, x));
            }
        }
    }
}

/// Every segment of the leftmost placement starts no later than in any valid placement.
pub proof fn lemma_left_least(hint: Seq<u32>, line: Seq<Square>, q: Seq<int>)
    requires
        valid_placement(hint, line, q),
    ensures
        forall|k: int| 0 <= k < hint.len() ==> #[trigger] left_positions(hint, line)[k] <= q[k],
{
    lemma_left_exists(hint, line);
    let l = left_positions(hint, line);
    let m = min_pos(l, q);
    lemma_min_valid(hint, line, l, q);
    if m != l {
        assert(lex_lt(l, m));
        let j = choose|j: int| 0 <= j < l.len() && j < m.len() && l.take(j) == m.take(j) && #[trigger] l[j] < m[j];
        assert(false);
    }
    assert forall|k: int| 0 <= k < hint.len() implies #[trigger] l[k] <= q[k] by {
        assert(m[k] == l[k]);
    }
}

/// Every segment of the rightmost placement starts no earlier than in any valid placement.
pub proof fn lemma_right_greatest(hint: Seq<u32>, line: Seq<Square>, q: Seq<int>)
    requires
        valid_placement(hint, line, q),
    ensures
        forall|k: int| 0 <= k < hint.len() ==> q[k] <= #[trigger] right_positions(hint, line)[k],
{
    let n = line.len() as int;
    let h = hint.len() as int;
    let rh = reversed(hint);
    let rl = reversed(line);
    lemma_rev_valid(hint, line, q);
    let rq = rev_pos(hint, q, n);
    lemma_left_least(rh, rl, rq);
    lemma_left_exists(rh, rl);
    let lp = left_positions(rh, rl);
    assert forall|k: int| 0 <= k < h implies q[k] <= #[trigger] right_positions(hint, line)[k] by {
        let j = h - 1 - k;
        assert(lp[j] <= rq[j]);
        assert(rq[j] == n - q[k] - hint[k]);
        assert(rh[j] == hint[k]);
        assert(lp.len() == h);
    }
}

/// A copy of `s` from right to left.
fn reverse_copy<T: Copy>(s: &[T]) -> (r: Vec<T>)
    ensures
        r@ == reversed(s@),
{
    let n = s.len();
    let mut r: Vec<T> = Vec::new();
    let mut i: usize = 0;
    while i < n
        invariant
            n == s@.len(),
            i <= n,
            r@ == reversed(s@).take(i as int),
        decreases n - i,
    {
        r.push(s[n - 1 - i]);
        i = i + 1;
        assert(r@ =~= reversed(s@).take(i as int));
    }
    assert(reversed(s@).take(n as int) =~= reversed(s@));
    r
}

impl Game {
    /// The placement of every segment of `hint` on `line` as far left as possible, cell
    /// by cell, or `None` when no placement agrees with the line.
    pub fn place_all_left(hint: &[u32], line: &[Square]) -> (r: Option<Vec<SegmentPlacement>>)
        requires
            line@.len() < usize::MAX,
        ensures
            r is Some <==> solvable(hint@, line@),
            r matches Some(v) ==> v@ == cells(hint@, left_positions(hint@, line@), line@.len() as int),
    {
        let ghost e = Seq::<int>::empty();
        proof {
            assert forall|y: int| 0 <= y < line@.len() implies !covered(hint@, e, y) by {}
            assert(overlay(line@, hint@, e) =~= line@);
            assert forall|s: Seq<int>| #[trigger] (e + s) == s by {
                assert(e + s =~= s);
            }
        }
        let positions = rec_place_left(hint, 0, line, 0, Ghost(line@), Ghost(e));
        match positions {
            None => {
                proof {
                    if solvable(hint@, line@) {
                        let q = choose|q: Seq<int>| valid_placement(hint@, line@, q);
                        assert(e + q == q);
                    }
                }
                None
            },
            Some(positions) => {
                proof {
                    let pos = ints(positions@);
                    assert(e + pos == pos);
                    assert forall|q: Seq<int>| valid_placement(hint@, line@, q) implies q == pos || lex_lt(pos, q) by {
                        assert(e + q == q);
                    }
                    lemma_leftmost_unique(hint@, line@, pos);
                }
                Some(place_segment_positions(&positions, hint, line.len(), Ghost(line@)))
            },
        }
    }

    /// The placement of every segment of `hint` on `line` as far right as possible, cell
    /// by cell, or `None` when no placement agrees with the line: the leftmost placement
    /// of the reversed line and hint, read back.
    pub fn place_all_right(hint: &[u32], line: &[Square]) -> (r: Option<Vec<SegmentPlacement>>)
        requires
            line@.len() < usize::MAX,
        ensures
            r is Some <==> solvable(hint@, line@),
            r matches Some(v) ==> v@ == cells(hint@, right_positions(hint@, line@), line@.len() as int),
            r matches Some(v) ==> v@ == mirror(
                cells(reversed(hint@), left_positions(reversed(hint@), reversed(line@)), line@.len() as int),
                hint@.len() as int,
            ),
    {
        let reverse_line = reverse_copy(line);
        let reverse_hint = reverse_copy(hint);
        let placements = Game::place_all_left(reverse_hint.as_slice(), reverse_line.as_slice());
        proof {
            lemma_rev_solvable(hint@, line@);
        }
        match placements {
            None => None,
            Some(placements) => {
                let ghost rh = reverse_hint@;
                let ghost rl = reverse_line@;
                let ghost lp = left_positions(rh, rl);
                let h = hint.len();
                proof {
                    lemma_left_exists(rh, rl);
                    lemma_mirror(hint@, line@);
                }
                let n = placements.len();
                let mut v: Vec<SegmentPlacement> = Vec::new();
                let mut i: usize = 0;
                while i < n
                    invariant
                        n == placements@.len() == line@.len(),
                        h == hint@.len() == rh.len(),
                        leftmost(rh, rl, lp),
                        placements@ == cells(rh, lp, n as int),
                        i <= n,
                        v@ == mirror(placements@, h as int).take(i as int),
                    decreases n - i,
                {
                    let c = placements[n - 1 - i];
                    let m = match c {
                        Some(k) => {
                            proof {
                                let j = n - 1 - i;
                                assert(covered(rh, lp, j));
                                let kk = choose|kk: int| covers(rh, lp, kk, j);
                                assert(k == kk);
                            }
                            Some(h - k - 1)
                        },
                        None => None,
                    };
                    v.push(m);
                    i = i + 1;
                    assert(v@ =~= mirror(placements@, h as int).take(i as int));
                }
                assert(mirror(placements@, h as int).take(n as int) =~= mirror(placements@, h as int));
                Some(v)
            },
        }
    }
}

} // verus!
