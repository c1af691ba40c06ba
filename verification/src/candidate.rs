//! One state of the search: the numbers that are left, and the operations
//! that led to them.

use vstd::prelude::*;
use vstd::string::StringExecFns;
use crate::number_list::{has_operands, law_substitution, substituted, NumberList};
use crate::operation::Operation;
use crate::text::{decimal, push_decimal};

verus! {

/// How far `a` and `b` are apart.
pub open spec fn distance_between(a: u32, b: u32) -> u32 {
    if a > b {
        (a - b) as u32
    } else {
        (b - a) as u32
    }
}

/// The distance does not depend on the order of its arguments, and it is zero
/// exactly between equal numbers.
pub proof fn law_distance(a: u32, b: u32)
    ensures
        distance_between(a, b) == distance_between(b, a),
        distance_between(a, b) == 0 <==> a == b,
{
}

/// The operations of a trace as text, each followed by a comma and a space.
pub open spec fn trace_text(ops: Seq<Operation>) -> Seq<char>
    decreases ops.len(),
{
    if ops.len() == 0 {
        Seq::empty()
    } else {
        trace_text(ops.drop_last()) + ops.last().text() + ", "@
    }
}

/// The mark behind a trace: three stars for a hit, else the distance, with two
/// stars up to 5 and one star up to 10.
pub open spec fn marker_text(distance: Option<u32>) -> Seq<char> {
    match distance {
        None => "[No distance]"@,
        Some(d) => if d == 0 {
            " ***"@
        } else if d <= 5 {
            "[dist = "@ + decimal(d as nat) + "] **"@
        } else if d <= 10 {
            "[dist = "@ + decimal(d as nat) + "] *"@
        } else {
            "[dist = "@ + decimal(d as nat) + "]"@
        },
    }
}

/// What a [`Candidate`] stands for.
pub struct CandidateView {
    pub numbers: Seq<u32>,
    pub ops: Seq<Operation>,
    pub goal: u32,
}

impl CandidateView {
    /// The number that the last operation produced.
    pub open spec fn result(self) -> Option<u32> {
        if self.ops.len() == 0 {
            None
        } else {
            self.ops.last().outcome()
        }
    }

    /// How far the last result is from the goal.
    pub open spec fn distance(self) -> Option<u32> {
        match self.result() {
            Some(v) => Some(distance_between(v, self.goal)),
            None => None,
        }
    }

    /// The state after one more operation.
    pub open spec fn with_operation(self, op: Operation) -> CandidateView {
        CandidateView {
            numbers: substituted(self.numbers, op),
            ops: self.ops.push(op),
            goal: self.goal,
        }
    }

    /// The state as a line of text: its trace and its mark.
    pub open spec fn text(self) -> Seq<char> {
        trace_text(self.ops) + marker_text(self.distance())
    }
}

/// The numbers that are left of `numbers` when `ops` have been applied to
/// them, one after the other.
pub open spec fn replay(numbers: Seq<u32>, ops: Seq<Operation>) -> Seq<u32>
    decreases ops.len(),
{
    if ops.len() == 0 {
        numbers
    } else {
        substituted(replay(numbers, ops.drop_last()), ops.last())
    }
}

/// Each of `ops` can be applied to `numbers` when its turn comes: it has a
/// result, and its operands are among the numbers that are left by then.
pub open spec fn playable(numbers: Seq<u32>, ops: Seq<Operation>) -> bool
    decreases ops.len(),
{
    ops.len() == 0 || {
        &&& playable(numbers, ops.drop_last())
        &&& ops.last().outcome() is Some
        &&& has_operands(replay(numbers, ops.drop_last()), ops.last())
    }
}

impl CandidateView {
    /// The candidate is a state of the game that starts with `numbers`: its
    /// operations have their larger operand first, can be applied to
    /// `numbers` in order, and leave its own numbers.
    pub open spec fn descends_from(self, numbers: Seq<u32>) -> bool {
        &&& forall|i: int| 0 <= i < self.ops.len() ==> (#[trigger] self.ops[i]).wf()
        &&& playable(numbers, self.ops)
        &&& self.numbers == replay(numbers, self.ops)
    }
}

/// The root of a game descends from its numbers, and so does every child of
/// a candidate that does: the operations of a candidate, applied in order to
/// the numbers of the game, give the numbers of the candidate. A child has
/// one number fewer than its parent, and the result of the operation that led
/// to it.
pub proof fn law_candidates_descend(numbers: Seq<u32>, goal: u32, c: CandidateView, op: Operation)
    requires
        c.descends_from(numbers),
        op.wf(),
        op.outcome() is Some,
        has_operands(c.numbers, op),
    ensures
        (CandidateView { numbers, ops: Seq::empty(), goal }).descends_from(numbers),
        c.with_operation(op).descends_from(numbers),
        c.with_operation(op).numbers.len() == c.numbers.len() - 1,
        c.with_operation(op).result() == op.outcome(),
        c.with_operation(op).goal == c.goal,
{
    let child = c.with_operation(op);
    assert(child.ops.drop_last() == c.ops);
    law_substitution(c.numbers, op);
}

/// A node of the search tree.
pub struct Candidate {
    pub numbers: NumberList,
    pub ops: Vec<Operation>,
    pub goal: u32,
}

impl View for Candidate {
    type V = CandidateView;

    open spec fn view(&self) -> CandidateView {
        CandidateView { numbers: self.numbers@, ops: self.ops@, goal: self.goal }
    }
}

impl Candidate {
    /// The root of a search: nothing has been applied yet.
    pub fn new(goal: u32, numbers: NumberList) -> (r: Self)
        ensures
            r@ == (CandidateView { numbers: numbers@, ops: Seq::empty(), goal }),
    {
        Self { ops: Vec::new(), numbers, goal }
    }

    /// The number that the last operation produced: `None` at the root.
    pub fn result(&self) -> (r: Option<u32>)
        ensures
            r == self@.result(),
    {
        if self.ops.len() == 0 {
            None
        } else {
            self.ops[self.ops.len() - 1].result()
        }
    }

    /// How far the last result is from the goal: `None` at the root.
    pub fn distance(&self) -> (r: Option<u32>)
        ensures
            r == self@.distance(),
    {
        match self.result() {
            Some(result) => {
                if result > self.goal {
                    Some(result - self.goal)
                } else {
                    Some(self.goal - result)
                }
            },
            None => None,
        }
    }

    /// The child that `op` leads to. The candidate itself stays as it is.
    pub fn with_operation(&self, op: Operation) -> (r: Self)
        requires
            op.legal(),
            op.outcome() is Some,
            has_operands(self.numbers@, op),
        ensures
            r@ == self@.with_operation(op),
    {
        let numbers = self.numbers.substitute_operation(&op);
        let mut ops = self.ops.clone();
        ops.push(op);
        Self { ops, numbers, goal: self.goal }
    }

    /// The candidate as a line of text, such as `7 × 8 = 56,  ***`.
    pub fn render(&self) -> (r: String)
        ensures
            r@ == self@.text(),
    {
        let mut out = String::new();
        let mut k: usize = 0;
        while k < self.ops.len()
            invariant
                k <= self.ops@.len(),
                out@ == trace_text(self.ops@.take(k as int)),
            decreases self.ops@.len() - k,
        {
            assert(self.ops@.take(k + 1).drop_last() == self.ops@.take(k as int));
            self.ops[k].write_to(&mut out);
            out.append(", ");
            k += 1;
        }
        assert(self.ops@.take(self.ops@.len() as int) == self.ops@);
        match self.distance() {
            None => out.append("[No distance]"),
            Some(dist) => {
                if dist == 0 {
                    out.append(" ***");
                } else {
                    out.append("[dist = ");
                    push_decimal(&mut out, dist as u64);
                    if dist <= 5 {
                        out.append("] **");
                    } else if dist <= 10 {
                        out.append("] *");
                    } else {
                        out.append("]");
                    }
                }
            },
        }
        out
    }
}

impl Clone for Candidate {
    fn clone(&self) -> (r: Self)
        ensures
            r@ == self@,
    {
        Self { numbers: self.numbers.clone(), ops: self.ops.clone(), goal: self.goal }
    }
}

} // verus!
