use vstd::prelude::*;

use crate::game::Game;

verus! {

/// The state of one cell of the grid.
#[derive(Clone, Copy, Debug, PartialEq, Eq, Structural)]
pub enum Square {
    Unknown,
    Filled,
    Empty,
}

/// The lengths of the maximal runs of `Filled` cells in `s`, left to right.
pub open spec fn runs(s: Seq<Square>) -> Seq<int>
    decreases s.len(),
{
    if s.len() == 0 {
        seq![]
    } else {
        let r = runs(s.drop_last());
        if s.last() != Square::Filled {
            r
        } else if s.len() >= 2 && s[s.len() - 2] == Square::Filled {
            r.update(r.len() - 1, r.last() + 1)
        } else {
            r.push(1)
        }
    }
}

/// A hint read as a sequence of integers.
pub open spec fn hint_view(h: Seq<u32>) -> Seq<int> {
    h.map_values(|x: u32| x as int)
}

/// Run lengths read as integers.
pub open spec fn counts_view(c: Seq<usize>) -> Seq<int> {
    c.map_values(|x: usize| x as int)
}

/// Whether the lengths of the `Filled` runs of `line` are exactly `hint`.
pub open spec fn matches_hint(hint: Seq<u32>, line: Seq<Square>) -> bool {
    runs(line) == hint_view(hint)
}

impl Game {
    /// Whether the `Filled` runs of `line` are exactly `hint`.
    pub fn check_line(hint: &[u32], line: &[Square]) -> (r: bool)
        ensures
            r == matches_hint(hint@, line@),
    {
        let mut segments: Vec<usize> = Vec::new();
        let mut curr: usize = 0;
        let mut i: usize = 0;
        while i < line.len()
            invariant
                i <= line@.len(),
                curr <= i,
                curr > 0 <==> (i > 0 && line@[i - 1] == Square::Filled),
                runs(line@.take(i as int)) == if curr > 0 {
                    counts_view(segments@).push(curr as int)
                } else {
                    counts_view(segments@)
                },
            decreases line@.len() - i,
        {
            assert(line@.take(i + 1).drop_last() == line@.take(i as int));
            if line[i] == Square::Filled {
                curr = curr + 1;
            } else {
                if curr != 0 {
                    segments.push(curr);
                    assert(counts_view(segments@) == counts_view(segments@.drop_last()).push(curr as int));
                }
                curr = 0;
            }
            i = i + 1;
        }
        assert(line@.take(i as int) == line@);
        if curr != 0 {
            segments.push(curr);
            assert(counts_view(segments@) == counts_view(segments@.drop_last()).push(curr as int));
        }
        if segments.len() != hint.len() {
            return false;
        }
        let mut j: usize = 0;
        while j < hint.len()
            invariant
                j <= hint@.len() == segments@.len(),
                runs(line@) == counts_view(segments@),
                forall|m: int| 0 <= m < j ==> segments@[m] == hint@[m] as usize,
            decreases hint@.len() - j,
        {
            if segments[j] != hint[j] as usize {
                assert(counts_view(segments@)[j as int] != hint_view(hint@)[j as int]);
                return false;
            }
            j = j + 1;
        }
        assert(counts_view(segments@) =~= hint_view(hint@));
        true
    }
}

} // verus!
