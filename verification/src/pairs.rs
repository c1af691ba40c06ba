//! The operand pairs that a list of numbers offers.
//!
//! Two numbers at different positions of a list form a pair. Where a number
//! occurs more than once, pairs at different positions hold the same numbers,
//! and trying each of them again would only repeat work. So of the positions
//! that hold equal numbers only the first counts, with one exception: the
//! position right behind the first operand always counts, which is what pairs
//! a repeated number with itself.

use vstd::prelude::*;
use crate::sorting::is_sorted;

verus! {

/// Position `k` holds another number than the position before it.
pub open spec fn run_start(s: Seq<u32>, k: int) -> bool {
    k == 0 || s[k] != s[k - 1]
}

/// The pair of positions `i < j` is one that the enumeration keeps.
pub open spec fn selected(s: Seq<u32>, i: int, j: int) -> bool {
    &&& 0 <= i < j < s.len()
    &&& run_start(s, i)
    &&& (j == i + 1 || run_start(s, j))
}

/// The kept pairs of positions from `(i, j)` on, by ascending first and then
/// ascending second position.
pub open spec fn positions_from(s: Seq<u32>, i: int, j: int) -> Seq<(int, int)>
    decreases s.len() - i, s.len() - j,
{
    if i < 0 || j <= i || i + 1 >= s.len() {
        Seq::empty()
    } else if j >= s.len() {
        positions_from(s, i + 1, i + 2)
    } else if selected(s, i, j) {
        seq![(i, j)] + positions_from(s, i, j + 1)
    } else {
        positions_from(s, i, j + 1)
    }
}

/// All kept pairs of positions of `s`.
pub open spec fn pair_positions(s: Seq<u32>) -> Seq<(int, int)> {
    positions_from(s, 0, 1)
}

/// The numbers at a pair of positions, the one at the later position first.
pub open spec fn pair_at(s: Seq<u32>, p: (int, int)) -> (u32, u32) {
    (s[p.1], s[p.0])
}

/// The numbers at each of the pairs of positions `ps`.
pub open spec fn values_at(s: Seq<u32>, ps: Seq<(int, int)>) -> Seq<(u32, u32)> {
    ps.map_values(|p: (int, int)| pair_at(s, p))
}

/// The operand pairs of `s`, in the order in which they are tried.
pub open spec fn pair_values(s: Seq<u32>) -> Seq<(u32, u32)> {
    values_at(s, pair_positions(s))
}

/// The pair `p` holds the numbers at two different positions of `s`, the one
/// at the later position first.
pub open spec fn drawn_from(s: Seq<u32>, p: (u32, u32)) -> bool {
    exists|i: int, j: int| 0 <= i < j < s.len() && p == #[trigger] pair_at(s, (i, j))
}

/// `p` comes before `q`: by the smaller operand first, then by the larger.
pub open spec fn pair_lt(p: (u32, u32), q: (u32, u32)) -> bool {
    p.1 < q.1 || (p.1 == q.1 && p.0 < q.0)
}

/// The most pairs that `n` numbers can offer: `n * (n - 1) / 2`.
pub open spec fn pair_limit(n: nat) -> nat
    decreases n,
{
    if n <= 1 {
        0
    } else {
        (n - 1) as nat + pair_limit((n - 1) as nat)
    }
}

/// Position `(a, b)` is `(i, j)` or comes after it.
spec fn at_or_after(a: int, b: int, i: int, j: int) -> bool {
    a > i || (a == i && b >= j)
}

/// The first position that holds the same number as position `k` of a sorted
/// sequence.
spec fn first_of(s: Seq<u32>, k: int) -> int
    decreases k,
{
    if k <= 0 || s[k] != s[k - 1] {
        k
    } else {
        first_of(s, k - 1)
    }
}

proof fn lemma_first_of(s: Seq<u32>, k: int)
    requires
        0 <= k < s.len(),
    ensures
        0 <= first_of(s, k) <= k,
        run_start(s, first_of(s, k)),
        s[first_of(s, k)] == s[k],
    decreases k,
{
    if k > 0 && s[k] == s[k - 1] {
        lemma_first_of(s, k - 1);
    }
}

/// A row whose first position is not kept yields nothing.
proof fn lemma_row_skipped(s: Seq<u32>, i: int, j: int)
    requires
        0 <= i < j,
        i + 1 < s.len(),
        !run_start(s, i),
    ensures
        positions_from(s, i, j) == positions_from(s, i + 1, i + 2),
    decreases s.len() - j,
{
    if j < s.len() {
        lemma_row_skipped(s, i, j + 1);
    }
}

/// Every enumerated pair of positions is a kept one, at or after the start.
proof fn lemma_positions_selected(s: Seq<u32>, i: int, j: int)
    requires
        0 <= i < j,
    ensures
        forall|k: int|
            0 <= k < positions_from(s, i, j).len() ==> {
                let p = #[trigger] positions_from(s, i, j)[k];
                selected(s, p.0, p.1) && at_or_after(p.0, p.1, i, j)
            },
    decreases s.len() - i, s.len() - j,
{
    if i + 1 >= s.len() {
    } else if j >= s.len() {
        lemma_positions_selected(s, i + 1, i + 2);
        assert(positions_from(s, i, j) == positions_from(s, i + 1, i + 2));
    } else {
        lemma_positions_selected(s, i, j + 1);
        let rest = positions_from(s, i, j + 1);
        assert forall|k: int| 0 <= k < positions_from(s, i, j).len() implies {
            let p = #[trigger] positions_from(s, i, j)[k];
            selected(s, p.0, p.1) && at_or_after(p.0, p.1, i, j)
        } by {
            if selected(s, i, j) && k > 0 {
                assert(positions_from(s, i, j)[k] == rest[k - 1]);
            }
        }
    }
}

/// The enumeration runs through the positions in ascending order.
proof fn lemma_positions_ascending(s: Seq<u32>, i: int, j: int)
    requires
        0 <= i < j,
    ensures
        forall|k: int, l: int|
            0 <= k < l < positions_from(s, i, j).len() ==> {
                let p = #[trigger] positions_from(s, i, j)[k];
                let q = #[trigger] positions_from(s, i, j)[l];
                p.0 < q.0 || (p.0 == q.0 && p.1 < q.1)
            },
    decreases s.len() - i, s.len() - j,
{
    if i + 1 >= s.len() {
    } else if j >= s.len() {
        lemma_positions_ascending(s, i + 1, i + 2);
        assert(positions_from(s, i, j) == positions_from(s, i + 1, i + 2));
    } else {
        lemma_positions_ascending(s, i, j + 1);
        lemma_positions_selected(s, i, j + 1);
        let rest = positions_from(s, i, j + 1);
        assert forall|k: int, l: int| 0 <= k < l < positions_from(s, i, j).len() implies {
            let p = #[trigger] positions_from(s, i, j)[k];
            let q = #[trigger] positions_from(s, i, j)[l];
            p.0 < q.0 || (p.0 == q.0 && p.1 < q.1)
        } by {
            if selected(s, i, j) {
                assert(positions_from(s, i, j)[l] == rest[l - 1]);
            }
        }
    }
}

/// Every kept pair of positions at or after the start is enumerated.
proof fn lemma_positions_complete(s: Seq<u32>, i: int, j: int, a: int, b: int)
    requires
        0 <= i < j,
        selected(s, a, b),
        at_or_after(a, b, i, j),
    ensures
        positions_from(s, i, j).contains((a, b)),
    decreases s.len() - i, s.len() - j,
{
    if i + 1 >= s.len() {
    } else if j >= s.len() {
        lemma_positions_complete(s, i + 1, i + 2, a, b);
    } else if a == i && b == j {
        assert(positions_from(s, i, j)[0] == (a, b));
    } else {
        lemma_positions_complete(s, i, j + 1, a, b);
        let rest = positions_from(s, i, j + 1);
        let k = choose|k: int| 0 <= k < rest.len() && rest[k] == (a, b);
        if selected(s, i, j) {
            assert(positions_from(s, i, j)[k + 1] == (a, b));
        }
    }
}

/// From `(i, j)` on there are no more kept pairs than positions.
proof fn lemma_positions_len(s: Seq<u32>, i: int, j: int)
    requires
        0 <= i < j <= s.len(),
        i + 1 < s.len(),
    ensures
        positions_from(s, i, j).len() <= (s.len() - j) + pair_limit((s.len() - 1 - i) as nat),
    decreases s.len() - i, s.len() - j,
{
    if j < s.len() {
        lemma_positions_len(s, i, j + 1);
    } else if i + 2 < s.len() {
        lemma_positions_len(s, i + 1, i + 2);
    } else {
        assert(positions_from(s, i + 1, i + 2).len() == 0);
    }
}

/// A list of `n` numbers offers at most `pair_limit(n)` pairs.
pub proof fn lemma_pair_count(s: Seq<u32>)
    ensures
        pair_values(s).len() <= pair_limit(s.len()),
        s.len() < 2 ==> pair_values(s).len() == 0,
{
    if s.len() >= 2 {
        lemma_positions_len(s, 0, 1);
    }
}

/// Every operand pair holds the numbers at two different positions.
pub proof fn lemma_pairs_drawn(s: Seq<u32>)
    ensures
        forall|k: int| 0 <= k < pair_values(s).len() ==> drawn_from(s, #[trigger] pair_values(s)[k]),
{
    lemma_positions_selected(s, 0, 1);
    assert forall|k: int| 0 <= k < pair_values(s).len() implies drawn_from(
        s,
        #[trigger] pair_values(s)[k],
    ) by {
        let p = pair_positions(s)[k];
        assert(selected(s, p.0, p.1));
    }
}

/// The pairing of a sorted list: the numbers at any two different positions
/// are offered as a pair; nothing else is offered; and the pairs come in
/// strictly ascending order, so that none is offered twice, however often a
/// number occurs in the list. Each pair has its larger number first.
pub proof fn law_pairing(s: Seq<u32>)
    requires
        is_sorted(s),
    ensures
        forall|i: int, j: int|
            0 <= i < j < s.len() ==> pair_values(s).contains(#[trigger] pair_at(s, (i, j))),
        forall|k: int| 0 <= k < pair_values(s).len() ==> drawn_from(s, #[trigger] pair_values(s)[k]),
        forall|k: int|
            0 <= k < pair_values(s).len() ==> (#[trigger] pair_values(s)[k]).0 >= pair_values(s)[k].1,
        forall|k: int, l: int|
            0 <= k < l < pair_values(s).len() ==> pair_lt(
                #[trigger] pair_values(s)[k],
                #[trigger] pair_values(s)[l],
            ),
        pair_values(s).no_duplicates(),
{
    let ps = pair_positions(s);
    let vs = pair_values(s);
    lemma_pairs_drawn(s);
    lemma_positions_selected(s, 0, 1);
    lemma_positions_ascending(s, 0, 1);
    assert forall|i: int, j: int| 0 <= i < j < s.len() implies vs.contains(
        #[trigger] pair_at(s, (i, j)),
    ) by {
        lemma_first_of(s, i);
        lemma_first_of(s, j);
        let a = first_of(s, i);
        let b = if s[j] == s[i] {
            a + 1
        } else {
            first_of(s, j)
        };
        assert(selected(s, a, b));
        lemma_positions_complete(s, 0, 1, a, b);
        let k = choose|k: int| 0 <= k < ps.len() && ps[k] == (a, b);
        assert(vs[k] == pair_at(s, (i, j)));
    }
    assert forall|k: int| 0 <= k < vs.len() implies (#[trigger] vs[k]).0 >= vs[k].1 by {
        let p = ps[k];
        assert(selected(s, p.0, p.1));
    }
    assert forall|k: int, l: int| 0 <= k < l < vs.len() implies pair_lt(
        #[trigger] vs[k],
        #[trigger] vs[l],
    ) by {
        let p = ps[k];
        let q = ps[l];
        assert(selected(s, p.0, p.1) && selected(s, q.0, q.1));
        if p.0 < q.0 {
            assert(s[p.0] <= s[q.0 - 1] < s[q.0]);
        } else {
            assert(s[p.1] <= s[q.1 - 1] < s[q.1]);
        }
    }
}

/// A cursor over the operand pairs of a list of numbers.
///
/// It holds two positions in the list. [`next`](Self::next) hands out the
/// pair under the cursor and moves on to the next kept pair.
pub struct NumberListPairIterator<'a> {
    numbers: &'a Vec<u32>,
    i: usize,
    j: usize,
    done: bool,
}

impl<'a> NumberListPairIterator<'a> {
    /// The list that the cursor runs over.
    pub closed spec fn numbers(&self) -> Seq<u32> {
        self.numbers@
    }

    /// The cursor is spent, or rests on a kept pair.
    pub closed spec fn wf(&self) -> bool {
        !self.done ==> {
            &&& self.i < self.j
            &&& run_start(self.numbers@, self.i as int)
            &&& self.j < self.numbers@.len() ==> selected(self.numbers@, self.i as int, self.j as int)
            &&& self.j >= self.numbers@.len() ==> self.i + 1 >= self.numbers@.len()
        }
    }

    /// The pairs that the cursor has yet to hand out.
    pub closed spec fn remaining(&self) -> Seq<(u32, u32)> {
        if self.done {
            Seq::empty()
        } else {
            values_at(self.numbers@, positions_from(self.numbers@, self.i as int, self.j as int))
        }
    }

    /// A cursor on the first pair of `numbers`.
    pub fn new(numbers: &'a Vec<u32>) -> (r: Self)
        ensures
            r.wf(),
            r.numbers() == numbers@,
            r.remaining() == pair_values(numbers@),
    {
        Self { numbers, i: 0, j: 1, done: false }
    }

    /// Moves the second position to the next one that is kept, and on to the
    /// next row where this row has no more.
    fn advance_j(&mut self)
        requires
            !old(self).done,
            old(self).i < old(self).j < old(self).numbers@.len(),
            run_start(old(self).numbers@, old(self).i as int),
        ensures
            final(self).wf(),
            final(self).numbers == old(self).numbers,
            final(self).remaining() == values_at(
                old(self).numbers@,
                positions_from(old(self).numbers@, old(self).i as int, old(self).j + 1),
            ),
    {
        let ghost s = self.numbers@;
        let ghost target = positions_from(s, self.i as int, self.j + 1);
        let n = self.numbers.len();
        loop
            invariant
                !self.done,
                self.numbers == old(self).numbers,
                s == self.numbers@,
                s == old(self).numbers@,
                n == s.len(),
                self.i == old(self).i,
                self.i < self.j < n,
                run_start(s, self.i as int),
                target == positions_from(s, old(self).i as int, old(self).j + 1),
                positions_from(s, self.i as int, self.j + 1) == target,
            decreases n - self.j,
        {
            self.j += 1;
            if self.j >= n {
                self.advance_i();
                return ;
            }
            if self.numbers[self.j] != self.numbers[self.j - 1] {
                return ;
            }
        }
    }

    /// Moves the first position to the next one that is kept, and the second
    /// right behind it.
    fn advance_i(&mut self)
        requires
            !old(self).done,
            old(self).i + 1 < old(self).numbers@.len(),
        ensures
            final(self).wf(),
            final(self).numbers == old(self).numbers,
            final(self).remaining() == values_at(
                old(self).numbers@,
                positions_from(old(self).numbers@, old(self).i + 1, old(self).i + 2),
            ),
    {
        let ghost s = self.numbers@;
        let ghost target = positions_from(s, self.i + 1, self.i + 2);
        let n = self.numbers.len();
        loop
            invariant
                !self.done,
                self.numbers == old(self).numbers,
                s == self.numbers@,
                s == old(self).numbers@,
                n == s.len(),
                self.i + 1 < n,
                target == positions_from(s, old(self).i + 1, old(self).i + 2),
                positions_from(s, self.i + 1, self.i + 2) == target,
            decreases n - self.i,
        {
            self.i += 1;
            self.j = self.i + 1;
            if self.j >= n {
                self.done = true;
                return ;
            }
            if self.numbers[self.i] != self.numbers[self.i - 1] {
                return ;
            }
            proof {
                lemma_row_skipped(s, self.i as int, self.j as int);
            }
        }
    }

    /// Hands out the pair under the cursor, the larger number first where the
    /// list is sorted, and moves the cursor on. `None` when no pair is left.
    pub fn next(&mut self) -> (r: Option<(u32, u32)>)
        requires
            old(self).wf(),
        ensures
            final(self).wf(),
            final(self).numbers() == old(self).numbers(),
            match r {
                Some(p) => old(self).remaining() == seq![p] + final(self).remaining(),
                None => old(self).remaining().len() == 0 && final(self).remaining().len() == 0,
            },
    {
        if self.done || self.j >= self.numbers.len() {
            return None;
        }
        let pair = (self.numbers[self.j], self.numbers[self.i]);
        let ghost s = self.numbers@;
        let ghost here = (self.i as int, self.j as int);
        let ghost rest = positions_from(s, self.i as int, self.j + 1);
        self.advance_j();
        assert(values_at(s, seq![here] + rest) == seq![pair] + values_at(s, rest));
        Some(pair)
    }
}

} // verus!
