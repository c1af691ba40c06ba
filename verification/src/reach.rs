//! What can be reached with the numbers of a game, and that the search
//! finds it.
//!
//! The search leaves out every candidate whose numbers it has met before.
//! This module proves that nothing is lost by that: where the goal can be
//! reached at all, the search reports a hit. The one exception is a game
//! that has its goal among its numbers: there a hit can leave numbers that
//! were met before, and go unnoticed.

use vstd::prelude::*;
use vstd::multiset::group_multiset_axioms;
use vstd::seq_lib::{to_multiset_contains, to_multiset_remove};
use crate::candidate::{law_distance, playable, replay, CandidateView};
use crate::number_list::{
    has_operands, law_substitution, lemma_drawn_has_operands, operands, substituted,
};
use crate::operation::{Operation, OperationType};
use crate::pairs::{drawn_from, law_pairing, lemma_pairs_drawn, pair_at, pair_values};
use crate::search::{
    attempt, consider, count_won, expand_pair, expand_pairs, initial, law_reports_are_sound,
    law_step_decreases_weight, run, search, step, weight, without_first, ReportKind, ReportView,
    SearchState,
};
use crate::sorting::is_sorted;

verus! {

/// The operation `op` can be applied to the numbers `s`: it has its larger
/// operand first, it has a result, and `s` hold its operands.
pub open spec fn usable(s: Seq<u32>, op: Operation) -> bool {
    op.wf() && op.outcome() is Some && has_operands(s, op)
}

/// Some `k` operations can be applied to the numbers `s` one after the other,
/// and the last of them gives `goal`.
pub open spec fn reach(s: Seq<u32>, goal: u32, k: nat) -> bool
    decreases k,
{
    k > 0 && exists|op: Operation|
        #[trigger] usable(s, op) && if k == 1 {
            op.outcome() == Some(goal)
        } else {
            reach(substituted(s, op), goal, (k - 1) as nat)
        }
}

/// The goal can be reached from the numbers `s`.
pub open spec fn reachable(s: Seq<u32>, goal: u32) -> bool {
    exists|k: nat| reach(s, goal, k)
}

/// The operations `ops` lead from the numbers `s` to `goal`: each has its
/// larger operand first and can be applied when its turn comes, and the last
/// of them gives `goal`.
pub open spec fn leads_to(s: Seq<u32>, ops: Seq<Operation>, goal: u32) -> bool {
    &&& ops.len() > 0
    &&& forall|i: int| 0 <= i < ops.len() ==> (#[trigger] ops[i]).wf()
    &&& playable(s, ops)
    &&& ops.last().outcome() == Some(goal)
}

/// The first of a row of operations can be applied to the numbers that the
/// row starts with, and the others to what it leaves.
proof fn lemma_playable_front(s: Seq<u32>, ops: Seq<Operation>)
    requires
        ops.len() > 0,
        playable(s, ops),
    ensures
        ops[0].outcome() is Some,
        has_operands(s, ops[0]),
        playable(substituted(s, ops[0]), ops.skip(1)),
        replay(s, ops) == replay(substituted(s, ops[0]), ops.skip(1)),
    decreases ops.len(),
{
    let front = ops.drop_last();
    let next = substituted(s, ops[0]);
    if ops.len() == 1 {
        assert(replay(s, front) == s);
        assert(replay(next, ops.skip(1)) == next);
    } else {
        lemma_playable_front(s, front);
        assert(ops.skip(1).drop_last() == front.skip(1));
        assert(ops.skip(1).last() == ops.last());
    }
}

/// A row of operations that leads to the goal shows that the goal can be
/// reached.
pub proof fn lemma_leads_to_reach(s: Seq<u32>, ops: Seq<Operation>, goal: u32)
    requires
        leads_to(s, ops, goal),
    ensures
        reach(s, goal, ops.len()),
        reachable(s, goal),
    decreases ops.len(),
{
    lemma_playable_front(s, ops);
    assert(usable(s, ops[0]));
    if ops.len() > 1 {
        let rest = ops.skip(1);
        assert forall|i: int| 0 <= i < rest.len() implies (#[trigger] rest[i]).wf() by {
            assert(rest[i] == ops[i + 1]);
        }
        assert(rest.last() == ops.last());
        lemma_leads_to_reach(substituted(s, ops[0]), rest, goal);
    }
}

/// An operation that can be applied, and a row of operations that can be
/// applied to what it leaves, make a row that can be applied.
proof fn lemma_playable_behind(s: Seq<u32>, op: Operation, rest: Seq<Operation>)
    requires
        op.outcome() is Some,
        has_operands(s, op),
        playable(substituted(s, op), rest),
    ensures
        playable(s, seq![op] + rest),
        replay(s, seq![op] + rest) == replay(substituted(s, op), rest),
    decreases rest.len(),
{
    let ops = seq![op] + rest;
    let next = substituted(s, op);
    if rest.len() == 0 {
        assert(ops.drop_last() == Seq::<Operation>::empty());
        assert(ops.last() == op);
        assert(playable(s, ops.drop_last()));
        assert(replay(s, ops.drop_last()) == s);
        assert(replay(next, rest) == next);
    } else {
        let front = seq![op] + rest.drop_last();
        lemma_playable_behind(s, op, rest.drop_last());
        assert(ops.drop_last() == front);
        assert(ops.last() == rest.last());
        assert(replay(s, ops) == substituted(replay(s, front), rest.last()));
        assert(replay(next, rest) == substituted(replay(next, rest.drop_last()), rest.last()));
    }
}

/// Where the goal can be reached in `k` operations, there is a row of `k`
/// operations that leads to it.
pub proof fn lemma_reach_leads_to(s: Seq<u32>, goal: u32, k: nat) -> (ops: Seq<Operation>)
    requires
        reach(s, goal, k),
    ensures
        leads_to(s, ops, goal),
        ops.len() == k,
    decreases k,
{
    let op = choose|op: Operation|
        #[trigger] usable(s, op) && if k == 1 {
            op.outcome() == Some(goal)
        } else {
            reach(substituted(s, op), goal, (k - 1) as nat)
        };
    let rest = if k == 1 {
        Seq::<Operation>::empty()
    } else {
        lemma_reach_leads_to(substituted(s, op), goal, (k - 1) as nat)
    };
    lemma_playable_behind(s, op, rest);
    let ops = seq![op] + rest;
    if k > 1 {
        assert(ops.last() == rest.last());
    }
    assert forall|i: int| 0 <= i < ops.len() implies (#[trigger] ops[i]).wf() by {
        if i > 0 {
            assert(ops[i] == rest[i - 1]);
        }
    }
    ops
}

/// The goal can be reached exactly if some row of operations leads to it.
pub proof fn law_reachable_by_operations(s: Seq<u32>, goal: u32)
    ensures
        reachable(s, goal) <==> exists|ops: Seq<Operation>| leads_to(s, ops, goal),
{
    if reachable(s, goal) {
        let k = choose|k: nat| reach(s, goal, k);
        let ops = lemma_reach_leads_to(s, goal, k);
        assert(leads_to(s, ops, goal));
    }
    if exists|ops: Seq<Operation>| leads_to(s, ops, goal) {
        let ops = choose|ops: Seq<Operation>| leads_to(s, ops, goal);
        lemma_leads_to_reach(s, ops, goal);
    }
}

/// Numbers from which something can be reached are at least two.
proof fn lemma_usable_needs_two(s: Seq<u32>, op: Operation)
    requires
        usable(s, op),
    ensures
        s.len() >= 2,
        substituted(s, op).contains(op.outcome().unwrap()),
        forall|x: u32| #[trigger] substituted(s, op).contains(x) ==> x == op.outcome().unwrap() || s.contains(x),
{
    broadcast use group_multiset_axioms;

    law_substitution(s, op);
    let next = substituted(s, op);
    let v = op.outcome().unwrap();
    to_multiset_contains(next, v);
    assert(next.contains(v));
    assert forall|x: u32| #[trigger] next.contains(x) implies x == v || s.contains(x) by {
        to_multiset_contains(next, x);
        to_multiset_contains(s, x);
    }
}

/// In a sorted list the operands of a usable operation stand at two
/// positions, the smaller before the larger.
proof fn lemma_operands_drawn(s: Seq<u32>, op: Operation)
    requires
        is_sorted(s),
        usable(s, op),
    ensures
        drawn_from(s, (op.op1, op.op2)),
{
    broadcast use group_multiset_axioms;

    let m = s.to_multiset();
    assert(operands(op).count(op.op1) <= m.count(op.op1));
    assert(operands(op).count(op.op2) <= m.count(op.op2));
    to_multiset_contains(s, op.op1);
    let j = choose|j: int| 0 <= j < s.len() && s[j] == op.op1;
    if op.op1 == op.op2 {
        let without = s.remove(j);
        to_multiset_remove(s, j);
        to_multiset_contains(without, op.op1);
        let r = choose|r: int| 0 <= r < without.len() && without[r] == op.op1;
        let i = if r < j {
            r
        } else {
            r + 1
        };
        assert(s[i] == op.op1);
        if i < j {
            assert((op.op1, op.op2) == pair_at(s, (i, j)));
        } else {
            assert((op.op1, op.op2) == pair_at(s, (j, i)));
        }
    } else {
        to_multiset_contains(s, op.op2);
        let i = choose|i: int| 0 <= i < s.len() && s[i] == op.op2;
        assert(i < j) by {
            if j <= i {
                assert(s[j] <= s[i]);
            }
        }
        assert((op.op1, op.op2) == pair_at(s, (i, j)));
    }
}

/// A candidate with the numbers `list` waits in the queue of `st`.
spec fn pending(st: SearchState, list: Seq<u32>) -> bool {
    exists|i: int| 0 <= i < st.queue.len() && (#[trigger] st.queue[i]).numbers == list
}

/// The search has reported a hit.
spec fn has_won(st: SearchState) -> bool {
    count_won(st.reports) >= 1
}

/// The candidates that wait belong to the game for `goal`, their numbers are
/// sorted, and no list that waits or was seen holds the goal itself.
spec fn clean(st: SearchState, goal: u32) -> bool {
    &&& forall|i: int|
        0 <= i < st.queue.len() ==> {
            let c = #[trigger] st.queue[i];
            c.goal == goal && is_sorted(c.numbers) && !c.numbers.contains(goal)
        }
    &&& forall|l: Seq<u32>| #[trigger] st.seen.contains(l) ==> !l.contains(goal)
}

/// Some list that waits reaches the goal in `k` operations or fewer.
spec fn within(st: SearchState, goal: u32, k: nat) -> bool {
    exists|l: Seq<u32>, n: nat| n <= k && pending(st, l) && #[trigger] reach(l, goal, n)
}

/// For every list that was seen and reaches the goal, a list that waits
/// reaches it in as many operations or fewer.
spec fn answered(st: SearchState, goal: u32) -> bool {
    forall|l: Seq<u32>, k: nat|
        st.seen.contains(l) && #[trigger] reach(l, goal, k) ==> within(st, goal, k)
}

/// From `a` to `b` the search has only gone on: what waited still waits in
/// its place, what was seen is still seen, what is newly seen waits, and no
/// hit is forgotten.
spec fn grows(a: SearchState, b: SearchState) -> bool {
    &&& a.queue.len() <= b.queue.len()
    &&& forall|i: int| 0 <= i < a.queue.len() ==> #[trigger] b.queue[i] == a.queue[i]
    &&& forall|l: Seq<u32>| #[trigger] a.seen.contains(l) ==> b.seen.contains(l)
    &&& forall|l: Seq<u32>| #[trigger] b.seen.contains(l) ==> a.seen.contains(l) || pending(b, l)
    &&& count_won(a.reports) <= count_won(b.reports)
}

/// What trying `op` on `base` between `before` and `after` has brought: a
/// hit, if `op` gives the goal; else the child was seen before, or it waits
/// now, or it has a single number left.
spec fn effect(
    before: SearchState,
    after: SearchState,
    base: CandidateView,
    op: Operation,
    goal: u32,
) -> bool {
    let child = substituted(base.numbers, op);
    if op.outcome() == Some(goal) {
        has_won(after)
    } else {
        before.seen.contains(child) || pending(after, child) || child.len() <= 1
    }
}

proof fn lemma_grows_pending(a: SearchState, b: SearchState, l: Seq<u32>)
    requires
        grows(a, b),
        pending(a, l),
    ensures
        pending(b, l),
{
    let i = choose|i: int| 0 <= i < a.queue.len() && (#[trigger] a.queue[i]).numbers == l;
    assert(b.queue[i].numbers == l);
}

proof fn lemma_grows_transitive(a: SearchState, b: SearchState, c: SearchState)
    requires
        grows(a, b),
        grows(b, c),
    ensures
        grows(a, c),
{
    assert forall|l: Seq<u32>| #[trigger] c.seen.contains(l) implies a.seen.contains(l) || pending(
        c,
        l,
    ) by {
        if b.seen.contains(l) && !a.seen.contains(l) {
            lemma_grows_pending(b, c, l);
        }
    }
}

/// What holds of an effect holds of it between an earlier and a later state.
proof fn lemma_effect_widens(
    a: SearchState,
    b: SearchState,
    c: SearchState,
    d: SearchState,
    base: CandidateView,
    op: Operation,
    goal: u32,
)
    requires
        grows(a, b),
        effect(b, c, base, op, goal),
        grows(b, c),
        grows(c, d),
    ensures
        effect(a, d, base, op, goal),
{
    let child = substituted(base.numbers, op);
    if op.outcome() != Some(goal) {
        if b.seen.contains(child) && !a.seen.contains(child) {
            lemma_grows_pending(b, c, child);
        }
        if pending(c, child) {
            lemma_grows_pending(c, d, child);
        }
    }
}

/// Looking at a candidate lets the search go on, and keeps it clean.
proof fn lemma_consider_grows(st: SearchState, c: CandidateView, goal: u32)
    requires
        clean(st, goal),
        c.goal == goal,
        is_sorted(c.numbers),
        c.distance() == Some(0u32) || !c.numbers.contains(goal),
    ensures
        grows(st, consider(st, c)),
        clean(consider(st, c), goal),
{
    let after = consider(st, c);
    if after.reports != st.reports {
        assert(after.reports.drop_last() == st.reports);
    }
    if after.queue != st.queue {
        assert(after.queue[st.queue.len() as int].numbers == c.numbers);
        assert forall|l: Seq<u32>| #[trigger] after.seen.contains(l) implies st.seen.contains(l)
            || pending(after, l) by {}
    } else {
        assert(after.seen == st.seen);
    }
}

/// What looking at a candidate brings.
proof fn lemma_consider_effect(st: SearchState, c: CandidateView, goal: u32)
    requires
        clean(st, goal),
        c.goal == goal,
        c.distance() is Some,
    ensures
        c.distance() == Some(0u32) && c.numbers.contains(goal) ==> has_won(consider(st, c)),
        c.distance() != Some(0u32) ==> st.seen.contains(c.numbers) || pending(
            consider(st, c),
            c.numbers,
        ) || c.numbers.len() <= 1,
{
    let after = consider(st, c);
    if c.distance() == Some(0u32) && c.numbers.contains(goal) {
        assert(!st.seen.contains(c.numbers));
        assert(after.reports.drop_last() == st.reports);
    } else if c.distance() != Some(0u32) && !st.seen.contains(c.numbers) && c.numbers.len() > 1 {
        assert(after.queue[st.queue.len() as int].numbers == c.numbers);
    }
}

/// What trying one operation on a candidate brings.
proof fn lemma_attempt_goes_on(st: SearchState, base: CandidateView, op: Operation, goal: u32)
    requires
        clean(st, goal),
        base.goal == goal,
        is_sorted(base.numbers),
        !base.numbers.contains(goal),
        op.wf(),
        has_operands(base.numbers, op),
    ensures
        grows(st, attempt(st, base, op)),
        clean(attempt(st, base, op), goal),
        op.outcome() is Some ==> effect(st, attempt(st, base, op), base, op, goal),
{
    if op.outcome() is Some {
        let child = base.with_operation(op);
        assert(child.ops.last() == op);
        law_distance(op.outcome().unwrap(), goal);
        lemma_usable_needs_two(base.numbers, op);
        law_substitution(base.numbers, op);
        lemma_consider_grows(st, child, goal);
        lemma_consider_effect(st, child, goal);
    }
}

/// Whether `op` is one of the operations that are tried on the pair `pair`.
spec fn tried_on(pair: (u32, u32), op: Operation) -> bool {
    op.wf() && op.outcome() is Some && pair == (op.op1, op.op2)
}

/// What trying the four operators on one pair brings.
proof fn lemma_expand_pair_goes_on(st: SearchState, base: CandidateView, pair: (u32, u32), goal: u32)
    requires
        clean(st, goal),
        base.goal == goal,
        is_sorted(base.numbers),
        !base.numbers.contains(goal),
        drawn_from(base.numbers, pair),
    ensures
        grows(st, expand_pair(st, base, pair)),
        clean(expand_pair(st, base, pair), goal),
        forall|op: Operation| #[trigger]
            tried_on(pair, op) ==> effect(st, expand_pair(st, base, pair), base, op, goal),
{
    let add = Operation::normalized(pair.0, pair.1, OperationType::Addition);
    let mul = Operation::normalized(pair.0, pair.1, OperationType::Multiplication);
    let sub = Operation::normalized(pair.0, pair.1, OperationType::Subtraction);
    let div = Operation::normalized(pair.0, pair.1, OperationType::Division);
    let s1 = attempt(st, base, add);
    let s2 = attempt(s1, base, mul);
    let s3 = attempt(s2, base, sub);
    let s4 = attempt(s3, base, div);
    lemma_drawn_has_operands(base.numbers, pair, add);
    lemma_drawn_has_operands(base.numbers, pair, mul);
    lemma_drawn_has_operands(base.numbers, pair, sub);
    lemma_drawn_has_operands(base.numbers, pair, div);
    lemma_attempt_goes_on(st, base, add, goal);
    lemma_attempt_goes_on(s1, base, mul, goal);
    lemma_attempt_goes_on(s2, base, sub, goal);
    lemma_attempt_goes_on(s3, base, div, goal);
    lemma_grows_transitive(st, s1, s2);
    lemma_grows_transitive(st, s2, s3);
    lemma_grows_transitive(st, s3, s4);
    lemma_grows_transitive(s1, s2, s3);
    lemma_grows_transitive(s1, s3, s4);
    lemma_grows_transitive(s2, s3, s4);
    assert(grows(st, st) && grows(s4, s4));
    assert forall|op: Operation| #[trigger] tried_on(pair, op) implies effect(
        st,
        s4,
        base,
        op,
        goal,
    ) by {
        match op.op_type {
            OperationType::Addition => {
                assert(op == add);
                lemma_effect_widens(st, st, s1, s4, base, op, goal);
            },
            OperationType::Multiplication => {
                assert(op == mul);
                lemma_effect_widens(st, s1, s2, s4, base, op, goal);
            },
            OperationType::Subtraction => {
                assert(op == sub);
                lemma_effect_widens(st, s2, s3, s4, base, op, goal);
            },
            OperationType::Division => {
                assert(op == div);
                lemma_effect_widens(st, s3, s4, s4, base, op, goal);
            },
        }
    }
}

/// Whether `op` is one of the operations that are tried on the pairs `pairs`.
spec fn tried_among(pairs: Seq<(u32, u32)>, op: Operation) -> bool {
    op.wf() && op.outcome() is Some && pairs.contains((op.op1, op.op2))
}

/// What trying the four operators on each of some pairs brings.
proof fn lemma_expand_pairs_goes_on(
    st: SearchState,
    base: CandidateView,
    pairs: Seq<(u32, u32)>,
    goal: u32,
)
    requires
        clean(st, goal),
        base.goal == goal,
        is_sorted(base.numbers),
        !base.numbers.contains(goal),
        forall|k: int| 0 <= k < pairs.len() ==> drawn_from(base.numbers, #[trigger] pairs[k]),
    ensures
        grows(st, expand_pairs(st, base, pairs)),
        clean(expand_pairs(st, base, pairs), goal),
        forall|op: Operation| #[trigger]
            tried_among(pairs, op) ==> effect(st, expand_pairs(st, base, pairs), base, op, goal),
    decreases pairs.len(),
{
    if pairs.len() > 0 {
        let front = pairs.drop_last();
        let mid = expand_pairs(st, base, front);
        let after = expand_pairs(st, base, pairs);
        assert forall|k: int| 0 <= k < front.len() implies drawn_from(
            base.numbers,
            #[trigger] front[k],
        ) by {
            assert(front[k] == pairs[k]);
        }
        lemma_expand_pairs_goes_on(st, base, front, goal);
        lemma_expand_pair_goes_on(mid, base, pairs.last(), goal);
        lemma_grows_transitive(st, mid, after);
        assert(grows(st, st) && grows(after, after));
        assert forall|op: Operation| #[trigger] tried_among(pairs, op) implies effect(
            st,
            after,
            base,
            op,
            goal,
        ) by {
            let k = choose|k: int| 0 <= k < pairs.len() && pairs[k] == (op.op1, op.op2);
            if k < front.len() {
                assert(front[k] == (op.op1, op.op2));
                assert(tried_among(front, op));
                lemma_effect_widens(st, st, mid, after, base, op, goal);
            } else {
                assert(tried_on(pairs.last(), op));
                lemma_effect_widens(st, mid, after, after, base, op, goal);
            }
        }
    }
}

/// What one step of the search brings: every operation that can be applied
/// to the numbers of the candidate that leaves the queue has its effect.
proof fn lemma_step_goes_on(st: SearchState, goal: u32)
    requires
        clean(st, goal),
        st.queue.len() > 0,
    ensures
        grows(without_first(st), step(st)),
        clean(step(st), goal),
        count_won(st.reports) <= count_won(step(st).reports),
        forall|op: Operation| #[trigger]
            usable(st.queue[0].numbers, op) ==> effect(
                without_first(st),
                step(st),
                st.queue[0],
                op,
                goal,
            ),
{
    let base = st.queue[0];
    let rest = without_first(st);
    let pairs = pair_values(base.numbers);
    assert forall|i: int| 0 <= i < rest.queue.len() implies {
        let c = #[trigger] rest.queue[i];
        c.goal == goal && is_sorted(c.numbers) && !c.numbers.contains(goal)
    } by {
        assert(rest.queue[i] == st.queue[i + 1]);
    }
    lemma_pairs_drawn(base.numbers);
    law_pairing(base.numbers);
    lemma_expand_pairs_goes_on(rest, base, pairs, goal);
    assert forall|op: Operation| #[trigger] usable(base.numbers, op) implies effect(
        rest,
        step(st),
        base,
        op,
        goal,
    ) by {
        lemma_operands_drawn(base.numbers, op);
        let (i, j) = choose|i: int, j: int|
            0 <= i < j < base.numbers.len() && (op.op1, op.op2) == #[trigger] pair_at(
                base.numbers,
                (i, j),
            );
        assert(pairs.contains(pair_at(base.numbers, (i, j))));
        assert(tried_among(pairs, op));
    }
}

/// A step keeps the goal within reach: unless it brings a hit, some list that
/// waits after it reaches the goal in as few operations as one did before.
proof fn lemma_step_within(st: SearchState, goal: u32, k: nat)
    requires
        clean(st, goal),
        answered(st, goal),
        st.queue.len() > 0,
        within(st, goal, k),
    ensures
        has_won(step(st)) || within(step(st), goal, k),
    decreases k,
{
    let (l, n) = choose|l: Seq<u32>, n: nat| n <= k && pending(st, l) && #[trigger] reach(l, goal, n);
    let i = choose|i: int| 0 <= i < st.queue.len() && (#[trigger] st.queue[i]).numbers == l;
    let rest = without_first(st);
    let after = step(st);
    lemma_step_goes_on(st, goal);
    if i > 0 {
        assert(rest.queue[i - 1] == st.queue[i]);
        lemma_grows_pending(rest, after, l);
    } else {
        let op = choose|op: Operation|
            #[trigger] usable(l, op) && if n == 1 {
                op.outcome() == Some(goal)
            } else {
                reach(substituted(l, op), goal, (n - 1) as nat)
            };
        let child = substituted(l, op);
        assert(effect(rest, after, st.queue[0], op, goal));
        if op.outcome() != Some(goal) {
            let fewer = (n - 1) as nat;
            assert(reach(child, goal, fewer));
            let next = choose|next: Operation| #[trigger] usable(child, next);
            lemma_usable_needs_two(child, next);
            if !pending(after, child) {
                assert(st.seen.contains(child));
                lemma_step_within(st, goal, fewer);
            }
        }
    }
}

/// A step keeps the seen lists answered, unless it brings a hit.
proof fn lemma_step_answered(st: SearchState, goal: u32)
    requires
        clean(st, goal),
        answered(st, goal),
        st.queue.len() > 0,
    ensures
        has_won(step(st)) || answered(step(st), goal),
{
    let rest = without_first(st);
    let after = step(st);
    lemma_step_goes_on(st, goal);
    if !has_won(after) {
        assert forall|l: Seq<u32>, k: nat|
            after.seen.contains(l) && #[trigger] reach(l, goal, k) implies within(after, goal, k) by {
            if st.seen.contains(l) {
                lemma_step_within(st, goal, k);
            } else {
                assert(pending(after, l));
            }
        }
    }
}

/// A search in which the goal is within reach ends with a hit.
proof fn lemma_run_finds(st: SearchState, goal: u32, k: nat)
    requires
        clean(st, goal),
        has_won(st) || (answered(st, goal) && within(st, goal, k)),
    ensures
        has_won(run(st)),
    decreases weight(st.queue),
{
    if st.queue.len() > 0 {
        law_step_decreases_weight(st);
        lemma_step_goes_on(st, goal);
        if !has_won(st) {
            lemma_step_within(st, goal, k);
            lemma_step_answered(st, goal);
        }
        lemma_run_finds(step(st), goal, k);
    }
}

/// Among reports with a hit there is one that is marked as won.
proof fn lemma_won_report(reports: Seq<ReportView>) -> (k: int)
    requires
        count_won(reports) >= 1,
    ensures
        0 <= k < reports.len(),
        reports[k].kind == ReportKind::Won,
    decreases reports.len(),
{
    if reports.last().kind == ReportKind::Won {
        reports.len() - 1
    } else {
        lemma_won_report(reports.drop_last())
    }
}

/// The search is complete. Where the goal is not one of the numbers of the
/// game, the search reports a hit exactly if the goal can be reached: that
/// it leaves out every candidate whose numbers it has met before loses no
/// goal.
pub proof fn law_search_finds_what_can_be_reached(goal: u32, numbers: Seq<u32>)
    requires
        is_sorted(numbers),
        !numbers.contains(goal),
    ensures
        count_won(search(goal, numbers).reports) >= 1 <==> reachable(numbers, goal),
{
    law_hit_can_be_reached(goal, numbers);
    if reachable(numbers, goal) {
        let st = initial(goal, numbers);
        let k = choose|k: nat| reach(numbers, goal, k);
        assert(st.queue[0].numbers == numbers);
        lemma_run_finds(st, goal, k);
    }
}

/// A hit is never reported in error: where the search reports one, the goal
/// can be reached.
pub proof fn law_hit_can_be_reached(goal: u32, numbers: Seq<u32>)
    ensures
        count_won(search(goal, numbers).reports) >= 1 ==> reachable(numbers, goal),
{
    let reports = search(goal, numbers).reports;
    if count_won(reports) >= 1 {
        law_reports_are_sound(goal, numbers);
        let k = lemma_won_report(reports);
        let c = reports[k].candidate;
        assert(c.result() == Some(goal));
        lemma_leads_to_reach(numbers, c.ops, goal);
    }
}

} // verus!
