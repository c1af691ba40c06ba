//! The search as a mathematical object.
//!
//! A search is a sequence of states. Each step takes the oldest candidate off
//! the queue and tries every operation on every operand pair of its numbers.
//! What the solver computes is stated against the functions of this module,
//! and the properties of the search are proved of them.

use vstd::prelude::*;
use crate::candidate::{law_candidates_descend, CandidateView};
use crate::number_list::{law_substitution, lemma_drawn_has_operands};
use crate::operation::{Operation, OperationType};
use crate::pairs::{drawn_from, lemma_pair_count, lemma_pairs_drawn, pair_limit, pair_values};
use crate::text::decimal;

verus! {

/// Why a candidate is reported.
#[derive(Clone, Copy, Debug, PartialEq, Eq, Structural)]
pub enum ReportKind {
    /// It reaches the goal.
    Won,
    /// It comes closer to the goal than any candidate before it.
    Found,
}

/// What a report stands for.
#[verifier::ext_equal]
pub struct ReportView {
    pub kind: ReportKind,
    pub candidate: CandidateView,
}

impl ReportView {
    /// The report as a line of text.
    pub open spec fn text(self) -> Seq<char> {
        match self.kind {
            ReportKind::Won => "WON!!! "@ + self.candidate.text(),
            ReportKind::Found => "FOUND: "@ + self.candidate.text(),
        }
    }
}

/// The line that closes a search with `solutions` hits.
pub open spec fn summary_text(solutions: nat) -> Seq<char> {
    "Solutions found: "@ + decimal(solutions)
}

/// A state of the search.
#[verifier::ext_equal]
pub struct SearchState {
    /// The candidates that wait to be expanded, the oldest first.
    pub queue: Seq<CandidateView>,
    /// The lists of numbers that have been put on the queue.
    pub seen: Set<Seq<u32>>,
    /// The smallest distance from the goal that was met so far.
    pub best_distance: u32,
    /// The candidates that were reported so far, the oldest first.
    pub reports: Seq<ReportView>,
}

/// The state in which a search starts: the numbers of the game wait to be
/// expanded, and the distance to beat is the goal itself.
pub open spec fn initial(goal: u32, numbers: Seq<u32>) -> SearchState {
    SearchState {
        queue: seq![CandidateView { numbers, ops: Seq::empty(), goal }],
        seen: Set::empty(),
        best_distance: goal,
        reports: Seq::empty(),
    }
}

/// Whether the candidate `c` is a hit that the state `st` has not met before.
pub open spec fn wins(st: SearchState, c: CandidateView) -> bool {
    !st.seen.contains(c.numbers) && c.distance() == Some(0u32)
}

/// The state after the candidate `c` has been looked at.
///
/// A candidate whose numbers were seen before changes nothing. A hit is
/// reported and goes no further. Any other candidate is reported if it comes
/// closer to the goal than all before it, and is put on the queue, its numbers
/// marked as seen, if it has more than one number left.
pub open spec fn consider(st: SearchState, c: CandidateView) -> SearchState {
    if st.seen.contains(c.numbers) {
        st
    } else {
        match c.distance() {
            None => st,
            Some(d) => if d == 0 {
                SearchState {
                    best_distance: 0,
                    reports: st.reports.push(ReportView { kind: ReportKind::Won, candidate: c }),
                    ..st
                }
            } else {
                let noted = if d < st.best_distance {
                    SearchState {
                        best_distance: d,
                        reports: st.reports.push(
                            ReportView { kind: ReportKind::Found, candidate: c },
                        ),
                        ..st
                    }
                } else {
                    st
                };
                if c.numbers.len() > 1 {
                    SearchState {
                        seen: noted.seen.insert(c.numbers),
                        queue: noted.queue.push(c),
                        ..noted
                    }
                } else {
                    noted
                }
            },
        }
    }
}

/// The state after `op` has been tried on `base`: an operation without a
/// result is passed over.
pub open spec fn attempt(st: SearchState, base: CandidateView, op: Operation) -> SearchState {
    if op.outcome() is Some {
        consider(st, base.with_operation(op))
    } else {
        st
    }
}

/// The state after the four operators have been tried on one operand pair of
/// `base`: addition, multiplication, subtraction and division, in this order.
pub open spec fn expand_pair(st: SearchState, base: CandidateView, pair: (u32, u32)) -> SearchState {
    let added = attempt(st, base, Operation::normalized(pair.0, pair.1, OperationType::Addition));
    let multiplied = attempt(
        added,
        base,
        Operation::normalized(pair.0, pair.1, OperationType::Multiplication),
    );
    let subtracted = attempt(
        multiplied,
        base,
        Operation::normalized(pair.0, pair.1, OperationType::Subtraction),
    );
    attempt(subtracted, base, Operation::normalized(pair.0, pair.1, OperationType::Division))
}

/// The state after the operand pairs `pairs` of `base` have been tried, one
/// after the other.
pub open spec fn expand_pairs(
    st: SearchState,
    base: CandidateView,
    pairs: Seq<(u32, u32)>,
) -> SearchState
    decreases pairs.len(),
{
    if pairs.len() == 0 {
        st
    } else {
        expand_pair(expand_pairs(st, base, pairs.drop_last()), base, pairs.last())
    }
}

/// The state with the oldest candidate taken off the queue.
pub open spec fn without_first(st: SearchState) -> SearchState {
    SearchState { queue: st.queue.drop_first(), ..st }
}

/// One step of the search: the oldest candidate leaves the queue and is
/// expanded.
pub open spec fn step(st: SearchState) -> SearchState {
    expand_pairs(without_first(st), st.queue[0], pair_values(st.queue[0].numbers))
}

/// A bound on the number of steps that a candidate with `n` numbers can
/// cause: its own, and those of all that descend from it.
pub open spec fn weight_of(n: nat) -> nat
    decreases n,
{
    if n == 0 {
        1
    } else {
        1 + 4 * pair_limit(n) * weight_of((n - 1) as nat)
    }
}

/// A bound on the number of steps that are left when `queue` waits.
pub open spec fn weight(queue: Seq<CandidateView>) -> nat
    decreases queue.len(),
{
    if queue.len() == 0 {
        0
    } else {
        weight(queue.drop_last()) + weight_of(queue.last().numbers.len())
    }
}

/// The state in which the search that starts in `st` ends: the queue is empty.
pub open spec fn run(st: SearchState) -> SearchState
    decreases weight(st.queue),
    via run_decreases
{
    if st.queue.len() == 0 {
        st
    } else {
        run(step(st))
    }
}

#[via_fn]
proof fn run_decreases(st: SearchState) {
    if st.queue.len() != 0 {
        law_step_decreases_weight(st);
    }
}

/// The lists of numbers that the search from `st` expands, in this order.
pub open spec fn expansions(st: SearchState) -> Seq<Seq<u32>>
    decreases weight(st.queue),
    via expansions_decreases
{
    if st.queue.len() == 0 {
        Seq::empty()
    } else {
        seq![st.queue[0].numbers] + expansions(step(st))
    }
}

#[via_fn]
proof fn expansions_decreases(st: SearchState) {
    if st.queue.len() != 0 {
        law_step_decreases_weight(st);
    }
}

/// The whole search for `goal` with the numbers `numbers`.
pub open spec fn search(goal: u32, numbers: Seq<u32>) -> SearchState {
    run(initial(goal, numbers))
}

/// The number of hits among `reports`.
pub open spec fn count_won(reports: Seq<ReportView>) -> nat
    decreases reports.len(),
{
    if reports.len() == 0 {
        0
    } else {
        count_won(reports.drop_last()) + if reports.last().kind == ReportKind::Won {
            1nat
        } else {
            0nat
        }
    }
}

/// There are no more hits than reports.
pub proof fn lemma_count_won_bound(reports: Seq<ReportView>)
    ensures
        count_won(reports) <= reports.len(),
    decreases reports.len(),
{
    if reports.len() > 0 {
        lemma_count_won_bound(reports.drop_last());
    }
}

proof fn lemma_weight_push(queue: Seq<CandidateView>, c: CandidateView)
    ensures
        weight(queue.push(c)) == weight(queue) + weight_of(c.numbers.len()),
{
    assert(queue.push(c).drop_last() == queue);
}

proof fn lemma_weight_drop_first(queue: Seq<CandidateView>)
    requires
        queue.len() > 0,
    ensures
        weight(queue) == weight_of(queue[0].numbers.len()) + weight(queue.drop_first()),
    decreases queue.len(),
{
    let front = queue.drop_last();
    let rest = queue.drop_first();
    if queue.len() == 1 {
        assert(weight(front) == 0);
        assert(weight(rest) == 0);
    } else {
        lemma_weight_drop_first(front);
        assert(rest.drop_last() == front.drop_first());
        assert(rest.last() == queue.last());
        assert(weight(rest) == weight(rest.drop_last()) + weight_of(rest.last().numbers.len()));
    }
}

/// A candidate that is considered adds at most its own weight.
proof fn lemma_consider_weight(st: SearchState, c: CandidateView)
    ensures
        weight(consider(st, c).queue) <= weight(st.queue) + weight_of(c.numbers.len()),
{
    lemma_weight_push(st.queue, c);
}

proof fn lemma_attempt_weight(st: SearchState, base: CandidateView, pair: (u32, u32), op: Operation)
    requires
        drawn_from(base.numbers, pair),
        (op.op1 == pair.0 && op.op2 == pair.1) || (op.op1 == pair.1 && op.op2 == pair.0),
    ensures
        weight(attempt(st, base, op).queue) <= weight(st.queue) + weight_of(
            (base.numbers.len() - 1) as nat,
        ),
{
    if op.outcome() is Some {
        lemma_drawn_has_operands(base.numbers, pair, op);
        law_substitution(base.numbers, op);
        lemma_consider_weight(st, base.with_operation(op));
    }
}

proof fn lemma_expand_pair_weight(st: SearchState, base: CandidateView, pair: (u32, u32))
    requires
        drawn_from(base.numbers, pair),
    ensures
        weight(expand_pair(st, base, pair).queue) <= weight(st.queue) + 4 * weight_of(
            (base.numbers.len() - 1) as nat,
        ),
{
    let add = Operation::normalized(pair.0, pair.1, OperationType::Addition);
    let mul = Operation::normalized(pair.0, pair.1, OperationType::Multiplication);
    let sub = Operation::normalized(pair.0, pair.1, OperationType::Subtraction);
    let div = Operation::normalized(pair.0, pair.1, OperationType::Division);
    let added = attempt(st, base, add);
    let multiplied = attempt(added, base, mul);
    let subtracted = attempt(multiplied, base, sub);
    lemma_attempt_weight(st, base, pair, add);
    lemma_attempt_weight(added, base, pair, mul);
    lemma_attempt_weight(multiplied, base, pair, sub);
    lemma_attempt_weight(subtracted, base, pair, div);
}

proof fn lemma_expand_pairs_weight(st: SearchState, base: CandidateView, pairs: Seq<(u32, u32)>)
    requires
        forall|k: int| 0 <= k < pairs.len() ==> drawn_from(base.numbers, #[trigger] pairs[k]),
    ensures
        weight(expand_pairs(st, base, pairs).queue) <= weight(st.queue) + 4 * pairs.len()
            * weight_of((base.numbers.len() - 1) as nat),
    decreases pairs.len(),
{
    let w = weight_of((base.numbers.len() - 1) as nat);
    if pairs.len() > 0 {
        let front = pairs.drop_last();
        assert forall|k: int| 0 <= k < front.len() implies drawn_from(
            base.numbers,
            #[trigger] front[k],
        ) by {
            assert(front[k] == pairs[k]);
        }
        lemma_expand_pairs_weight(st, base, front);
        lemma_expand_pair_weight(expand_pairs(st, base, front), base, pairs.last());
        assert(4 * front.len() * w + 4 * w == 4 * pairs.len() * w) by (nonlinear_arith)
            requires
                front.len() + 1 == pairs.len(),
        ;
    } else {
        assert(4 * pairs.len() * w == 0) by (nonlinear_arith)
            requires
                pairs.len() == 0,
        ;
    }
}

/// Every step of the search takes the weight of the queue down: the candidate
/// that leaves weighs more than all the children that it can leave behind,
/// each of which has one number fewer. So every search ends, whatever the
/// numbers and the goal.
pub proof fn law_step_decreases_weight(st: SearchState)
    requires
        st.queue.len() > 0,
    ensures
        weight(step(st).queue) < weight(st.queue),
{
    let base = st.queue[0];
    let n = base.numbers.len();
    let pairs = pair_values(base.numbers);
    let w = weight_of((n - 1) as nat);
    lemma_weight_drop_first(st.queue);
    lemma_pairs_drawn(base.numbers);
    lemma_pair_count(base.numbers);
    lemma_expand_pairs_weight(without_first(st), base, pairs);
    if n == 0 {
        assert(4 * pairs.len() * w == 0) by (nonlinear_arith)
            requires
                pairs.len() == 0,
        ;
    } else {
        assert(4 * pairs.len() * w <= 4 * pair_limit(n) * w) by (nonlinear_arith)
            requires
                pairs.len() <= pair_limit(n),
                w >= 0,
        ;
    }
}

/// The lists of numbers of the candidates of a queue.
pub open spec fn lists(queue: Seq<CandidateView>) -> Seq<Seq<u32>> {
    queue.map_values(|c: CandidateView| c.numbers)
}

/// The lists that were expanded (`past`) and those that wait are all
/// different; each of them was marked as seen, or is as long as the list that
/// the search began with (`bound`), and none is longer.
spec fn apart(st: SearchState, bound: nat, past: Seq<Seq<u32>>) -> bool {
    let trace = past + lists(st.queue);
    &&& trace.no_duplicates()
    &&& forall|k: int|
        0 <= k < trace.len() ==> (#[trigger] trace[k]).len() <= bound && (st.seen.contains(trace[k])
            || trace[k].len() == bound)
}

proof fn lemma_consider_apart(st: SearchState, c: CandidateView, bound: nat, past: Seq<Seq<u32>>)
    requires
        apart(st, bound, past),
        c.numbers.len() < bound,
    ensures
        apart(consider(st, c), bound, past),
{
    let after = consider(st, c);
    let before = past + lists(st.queue);
    let trace = past + lists(after.queue);
    if after.queue == st.queue {
        assert forall|k: int| 0 <= k < trace.len() implies (#[trigger] trace[k]).len() <= bound && (
        after.seen.contains(trace[k]) || trace[k].len() == bound) by {
            assert(st.seen.contains(before[k]) || before[k].len() == bound);
        }
    } else {
        assert(after.queue == st.queue.push(c));
        assert(trace == before.push(c.numbers));
        assert forall|k: int| 0 <= k < trace.len() implies (#[trigger] trace[k]).len() <= bound && (
        after.seen.contains(trace[k]) || trace[k].len() == bound) by {
            if k < before.len() {
                assert(st.seen.contains(before[k]) || before[k].len() == bound);
            }
        }
        assert forall|k: int, l: int| 0 <= k < trace.len() && 0 <= l < trace.len() && k
            != l implies trace[k] != trace[l] by {
            if k < before.len() && l < before.len() {
                assert(before[k] != before[l]);
            } else if k < before.len() {
                assert(st.seen.contains(before[k]) || before[k].len() == bound);
            } else {
                assert(st.seen.contains(before[l]) || before[l].len() == bound);
            }
        }
    }
}

proof fn lemma_attempt_apart(
    st: SearchState,
    base: CandidateView,
    pair: (u32, u32),
    op: Operation,
    bound: nat,
    past: Seq<Seq<u32>>,
)
    requires
        apart(st, bound, past),
        base.numbers.len() <= bound,
        drawn_from(base.numbers, pair),
        (op.op1 == pair.0 && op.op2 == pair.1) || (op.op1 == pair.1 && op.op2 == pair.0),
    ensures
        apart(attempt(st, base, op), bound, past),
{
    if op.outcome() is Some {
        lemma_drawn_has_operands(base.numbers, pair, op);
        law_substitution(base.numbers, op);
        lemma_consider_apart(st, base.with_operation(op), bound, past);
    }
}

proof fn lemma_expand_pair_apart(
    st: SearchState,
    base: CandidateView,
    pair: (u32, u32),
    bound: nat,
    past: Seq<Seq<u32>>,
)
    requires
        apart(st, bound, past),
        base.numbers.len() <= bound,
        drawn_from(base.numbers, pair),
    ensures
        apart(expand_pair(st, base, pair), bound, past),
{
    let add = Operation::normalized(pair.0, pair.1, OperationType::Addition);
    let mul = Operation::normalized(pair.0, pair.1, OperationType::Multiplication);
    let sub = Operation::normalized(pair.0, pair.1, OperationType::Subtraction);
    let div = Operation::normalized(pair.0, pair.1, OperationType::Division);
    let added = attempt(st, base, add);
    let multiplied = attempt(added, base, mul);
    let subtracted = attempt(multiplied, base, sub);
    lemma_attempt_apart(st, base, pair, add, bound, past);
    lemma_attempt_apart(added, base, pair, mul, bound, past);
    lemma_attempt_apart(multiplied, base, pair, sub, bound, past);
    lemma_attempt_apart(subtracted, base, pair, div, bound, past);
}

proof fn lemma_expand_pairs_apart(
    st: SearchState,
    base: CandidateView,
    pairs: Seq<(u32, u32)>,
    bound: nat,
    past: Seq<Seq<u32>>,
)
    requires
        apart(st, bound, past),
        base.numbers.len() <= bound,
        forall|k: int| 0 <= k < pairs.len() ==> drawn_from(base.numbers, #[trigger] pairs[k]),
    ensures
        apart(expand_pairs(st, base, pairs), bound, past),
    decreases pairs.len(),
{
    if pairs.len() > 0 {
        let front = pairs.drop_last();
        assert forall|k: int| 0 <= k < front.len() implies drawn_from(
            base.numbers,
            #[trigger] front[k],
        ) by {
            assert(front[k] == pairs[k]);
        }
        lemma_expand_pairs_apart(st, base, front, bound, past);
        lemma_expand_pair_apart(expand_pairs(st, base, front), base, pairs.last(), bound, past);
    }
}

proof fn lemma_step_apart(st: SearchState, bound: nat, past: Seq<Seq<u32>>)
    requires
        apart(st, bound, past),
        st.queue.len() > 0,
    ensures
        apart(step(st), bound, past.push(st.queue[0].numbers)),
{
    let base = st.queue[0];
    let before = past + lists(st.queue);
    assert(before[past.len() as int] == base.numbers);
    assert(past.push(base.numbers) + lists(without_first(st).queue) == before);
    lemma_pairs_drawn(base.numbers);
    lemma_expand_pairs_apart(
        without_first(st),
        base,
        pair_values(base.numbers),
        bound,
        past.push(base.numbers),
    );
}

proof fn lemma_expansions_apart(st: SearchState, bound: nat, past: Seq<Seq<u32>>)
    requires
        apart(st, bound, past),
    ensures
        (past + expansions(st)).no_duplicates(),
    decreases weight(st.queue),
{
    if st.queue.len() == 0 {
        assert(past + expansions(st) == past + lists(st.queue));
    } else {
        let first = st.queue[0].numbers;
        law_step_decreases_weight(st);
        lemma_step_apart(st, bound, past);
        lemma_expansions_apart(step(st), bound, past.push(first));
        assert(past + expansions(st) == past.push(first) + expansions(step(st)));
    }
}

/// No list of numbers is expanded twice in one search: a candidate whose
/// numbers were met before never reaches the queue.
pub proof fn law_no_list_expanded_twice(goal: u32, numbers: Seq<u32>)
    ensures
        expansions(initial(goal, numbers)).no_duplicates(),
{
    let st = initial(goal, numbers);
    let past = Seq::<Seq<u32>>::empty();
    assert(past + lists(st.queue) == seq![numbers]);
    lemma_expansions_apart(st, numbers.len(), past);
    assert(past + expansions(st) == expansions(st));
}

/// A game with fewer than two numbers has nothing to try: its search expands
/// the numbers of the game, finds no pair among them, reports nothing, and
/// ends.
pub proof fn law_nothing_to_try(goal: u32, numbers: Seq<u32>)
    requires
        numbers.len() < 2,
    ensures
        search(goal, numbers).reports.len() == 0,
        search(goal, numbers).best_distance == goal,
        expansions(initial(goal, numbers)) == seq![numbers],
{
    let st = initial(goal, numbers);
    lemma_pair_count(numbers);
    assert(step(st) == without_first(st));
    assert(run(st) == run(step(st)));
    assert(expansions(step(st)) == Seq::<Seq<u32>>::empty());
}

/// A search ends with nothing left to expand.
pub proof fn law_search_ends(st: SearchState)
    ensures
        run(st).queue.len() == 0,
    decreases weight(st.queue),
{
    if st.queue.len() != 0 {
        law_step_decreases_weight(st);
        law_search_ends(step(st));
    }
}

/// The distance of the `k`-th of `reports` from its goal.
pub open spec fn reported_distance(reports: Seq<ReportView>, k: int) -> u32 {
    reports[k].candidate.distance().unwrap()
}

/// What holds of the reports of a search for `goal` with `numbers`.
///
/// Each reported candidate is a state of this game, with a distance from the
/// goal; it is reported as a hit exactly if the distance is zero; and each
/// report but a hit comes closer to the goal than every report before it.
pub open spec fn reports_sound(reports: Seq<ReportView>, goal: u32, numbers: Seq<u32>) -> bool {
    &&& forall|k: int|
        0 <= k < reports.len() ==> {
            let r = #[trigger] reports[k];
            &&& r.candidate.goal == goal
            &&& r.candidate.descends_from(numbers)
            &&& r.candidate.distance() is Some
            &&& r.kind == ReportKind::Won <==> r.candidate.result() == Some(goal)
            &&& r.kind == ReportKind::Found ==> reported_distance(reports, k) < goal
        }
    &&& forall|k: int, l: int|
        0 <= k < l < reports.len() ==> {
            ||| reports[l].kind == ReportKind::Won
            ||| #[trigger] reported_distance(reports, l) < #[trigger] reported_distance(reports, k)
        }
}

/// The reports are sound, the candidates that wait are states of the game,
/// and the distance to beat is that of the last report.
spec fn grounded(st: SearchState, goal: u32, numbers: Seq<u32>) -> bool {
    &&& reports_sound(st.reports, goal, numbers)
    &&& forall|k: int|
        0 <= k < st.queue.len() ==> (#[trigger] st.queue[k]).goal == goal
            && st.queue[k].descends_from(numbers)
    &&& st.best_distance <= goal
    &&& forall|k: int|
        0 <= k < st.reports.len() ==> st.best_distance <= #[trigger] reported_distance(
            st.reports,
            k,
        )
    &&& st.reports.len() > 0 ==> st.best_distance == reported_distance(
        st.reports,
        st.reports.len() - 1,
    )
}

proof fn lemma_consider_grounded(st: SearchState, c: CandidateView, goal: u32, numbers: Seq<u32>)
    requires
        grounded(st, goal, numbers),
        c.goal == goal,
        c.descends_from(numbers),
    ensures
        grounded(consider(st, c), goal, numbers),
{
    let after = consider(st, c);
    if after.reports != st.reports {
        let d = c.distance().unwrap();
        assert(after.reports.len() == st.reports.len() + 1);
        assert(after.reports.last().candidate == c);
        assert(d == 0 <==> c.result() == Some(goal));
        assert forall|k: int| 0 <= k < st.reports.len() implies after.reports[k] == st.reports[k]
            && reported_distance(after.reports, k) == reported_distance(st.reports, k) by {}
        assert forall|k: int, l: int| 0 <= k < l < after.reports.len() implies {
            ||| after.reports[l].kind == ReportKind::Won
            ||| #[trigger] reported_distance(after.reports, l) < #[trigger] reported_distance(
                after.reports,
                k,
            )
        } by {
            if l < st.reports.len() {
                assert(st.reports[l].kind == ReportKind::Won || reported_distance(st.reports, l)
                    < reported_distance(st.reports, k));
            } else {
                assert(st.best_distance <= reported_distance(st.reports, k));
            }
        }
        assert forall|k: int| 0 <= k < after.reports.len() implies after.best_distance
            <= #[trigger] reported_distance(after.reports, k) by {
            if k < st.reports.len() {
                assert(st.best_distance <= reported_distance(st.reports, k));
            }
        }
    }
}

proof fn lemma_attempt_grounded(
    st: SearchState,
    base: CandidateView,
    pair: (u32, u32),
    op: Operation,
    goal: u32,
    numbers: Seq<u32>,
)
    requires
        grounded(st, goal, numbers),
        base.goal == goal,
        base.descends_from(numbers),
        drawn_from(base.numbers, pair),
        op.wf(),
        (op.op1 == pair.0 && op.op2 == pair.1) || (op.op1 == pair.1 && op.op2 == pair.0),
    ensures
        grounded(attempt(st, base, op), goal, numbers),
{
    if op.outcome() is Some {
        lemma_drawn_has_operands(base.numbers, pair, op);
        law_candidates_descend(numbers, goal, base, op);
        lemma_consider_grounded(st, base.with_operation(op), goal, numbers);
    }
}

proof fn lemma_expand_pair_grounded(
    st: SearchState,
    base: CandidateView,
    pair: (u32, u32),
    goal: u32,
    numbers: Seq<u32>,
)
    requires
        grounded(st, goal, numbers),
        base.goal == goal,
        base.descends_from(numbers),
        drawn_from(base.numbers, pair),
    ensures
        grounded(expand_pair(st, base, pair), goal, numbers),
{
    let add = Operation::normalized(pair.0, pair.1, OperationType::Addition);
    let mul = Operation::normalized(pair.0, pair.1, OperationType::Multiplication);
    let sub = Operation::normalized(pair.0, pair.1, OperationType::Subtraction);
    let div = Operation::normalized(pair.0, pair.1, OperationType::Division);
    let added = attempt(st, base, add);
    let multiplied = attempt(added, base, mul);
    let subtracted = attempt(multiplied, base, sub);
    lemma_attempt_grounded(st, base, pair, add, goal, numbers);
    lemma_attempt_grounded(added, base, pair, mul, goal, numbers);
    lemma_attempt_grounded(multiplied, base, pair, sub, goal, numbers);
    lemma_attempt_grounded(subtracted, base, pair, div, goal, numbers);
}

proof fn lemma_expand_pairs_grounded(
    st: SearchState,
    base: CandidateView,
    pairs: Seq<(u32, u32)>,
    goal: u32,
    numbers: Seq<u32>,
)
    requires
        grounded(st, goal, numbers),
        base.goal == goal,
        base.descends_from(numbers),
        forall|k: int| 0 <= k < pairs.len() ==> drawn_from(base.numbers, #[trigger] pairs[k]),
    ensures
        grounded(expand_pairs(st, base, pairs), goal, numbers),
    decreases pairs.len(),
{
    if pairs.len() > 0 {
        let front = pairs.drop_last();
        assert forall|k: int| 0 <= k < front.len() implies drawn_from(
            base.numbers,
            #[trigger] front[k],
        ) by {
            assert(front[k] == pairs[k]);
        }
        lemma_expand_pairs_grounded(st, base, front, goal, numbers);
        lemma_expand_pair_grounded(expand_pairs(st, base, front), base, pairs.last(), goal, numbers);
    }
}

proof fn lemma_run_grounded(st: SearchState, goal: u32, numbers: Seq<u32>)
    requires
        grounded(st, goal, numbers),
    ensures
        grounded(run(st), goal, numbers),
    decreases weight(st.queue),
{
    if st.queue.len() != 0 {
        let base = st.queue[0];
        let rest = without_first(st);
        assert forall|k: int| 0 <= k < rest.queue.len() implies (#[trigger] rest.queue[k]).goal
            == goal && rest.queue[k].descends_from(numbers) by {
            assert(rest.queue[k] == st.queue[k + 1]);
        }
        lemma_pairs_drawn(base.numbers);
        lemma_expand_pairs_grounded(rest, base, pair_values(base.numbers), goal, numbers);
        law_step_decreases_weight(st);
        lemma_run_grounded(step(st), goal, numbers);
    }
}

/// What a search reports is true of the game. Every reported candidate is a
/// state of the game: its operations, applied in order to the numbers of the
/// game, each have a result, find their operands, and leave the numbers of
/// the candidate. A candidate is reported as a hit exactly if its last result
/// is the goal. Every other report is closer to the goal than the goal is to
/// zero, and closer than every report before it; after a hit only hits are
/// reported.
pub proof fn law_reports_are_sound(goal: u32, numbers: Seq<u32>)
    ensures
        reports_sound(search(goal, numbers).reports, goal, numbers),
{
    let st = initial(goal, numbers);
    assert(st.queue[0].ops.len() == 0);
    lemma_run_grounded(st, goal, numbers);
}

} // verus!
