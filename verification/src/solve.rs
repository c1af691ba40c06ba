//! The solver: a breadth-first search over the candidates of a game.

use std::collections::VecDeque;
use vstd::prelude::*;
use vstd::string::StringExecFns;
use crate::candidate::{Candidate, CandidateView};
use crate::number_list::{has_operands, lemma_drawn_has_operands, NumberList};
use crate::operation::{Operation, OperationType};
use crate::pairs::{drawn_from, pair_values};
use crate::reach::{law_search_finds_what_can_be_reached, reachable};
use crate::search::{
    attempt, consider, count_won, expand_pair, expand_pairs, initial, law_reports_are_sound,
    law_step_decreases_weight, lemma_count_won_bound, reports_sound, run, search, step,
    summary_text, weight, wins, without_first, ReportKind, ReportView, SearchState,
};
use crate::sorting::canonical;
use crate::text::push_decimal;
use crate::visited::VisitedSet;

verus! {

/// A game: the goal, and the numbers to reach it with.
#[derive(Debug)]
pub struct Game {
    pub goal: u32,
    pub numbers: NumberList,
}

impl Game {
    /// The game for `goal` with the given numbers, in whichever order.
    pub fn new(goal: u32, numbers: Vec<u32>) -> (r: Self)
        ensures
            r.goal == goal,
            r.numbers@ == canonical(numbers@),
    {
        Self { goal, numbers: NumberList::new(numbers) }
    }
}

/// A candidate that the search found worth telling, and why.
pub struct Report {
    pub kind: ReportKind,
    pub candidate: Candidate,
}

impl View for Report {
    type V = ReportView;

    open spec fn view(&self) -> ReportView {
        ReportView { kind: self.kind, candidate: self.candidate@ }
    }
}

impl Report {
    /// The report as a line of text: `WON!!!` or `FOUND:`, and the candidate.
    pub fn render(&self) -> (r: String)
        ensures
            r@ == self@.text(),
    {
        let mut out = String::new();
        match self.kind {
            ReportKind::Won => out.append("WON!!! "),
            ReportKind::Found => out.append("FOUND: "),
        }
        let ghost head = out@;
        let line = self.candidate.render();
        out.append(line.as_str());
        assert(out@ == head + self.candidate@.text());
        out
    }
}

/// What each of `reports` stands for.
pub open spec fn reports_view(reports: Seq<Report>) -> Seq<ReportView> {
    reports.map_values(|r: Report| r@)
}

/// What each candidate of `queue` stands for.
pub open spec fn queue_view(queue: Seq<Candidate>) -> Seq<CandidateView> {
    queue.map_values(|c: Candidate| c@)
}

/// What a search has to remember from one candidate to the next.
pub struct SolverState {
    candidates: VecDeque<Candidate>,
    seen_lists: VisitedSet,
    best_distance: u32,
    reports: Vec<Report>,
}

impl View for SolverState {
    type V = SearchState;

    closed spec fn view(&self) -> SearchState {
        SearchState {
            queue: queue_view(self.candidates@),
            seen: self.seen_lists@,
            best_distance: self.best_distance,
            reports: reports_view(self.reports@),
        }
    }
}

impl SolverState {
    /// The state is fit for use. Every state that this module hands out is.
    pub closed spec fn wf(&self) -> bool {
        self.seen_lists.wf()
    }

    /// The state in which the search for `game` starts.
    pub fn new(game: Game) -> (r: Self)
        ensures
            r.wf(),
            r@ == initial(game.goal, game.numbers@),
    {
        let mut candidates = VecDeque::new();
        candidates.push_front(Candidate::new(game.goal, game.numbers.clone()));
        let r = Self {
            best_distance: game.goal,
            candidates,
            seen_lists: VisitedSet::new(),
            reports: Vec::new(),
        };
        assert(r@ =~~= initial(game.goal, game.numbers@));
        r
    }

    /// Looks at a candidate: reports it where it is a hit or the closest so
    /// far, and puts it on the queue where it is new and can be expanded.
    /// Returns whether it is a hit.
    pub fn add_candidate(&mut self, candidate: Candidate) -> (won: bool)
        requires
            old(self).wf(),
            !old(self)@.seen.contains(candidate@.numbers) ==> candidate@.distance() is Some,
        ensures
            final(self).wf(),
            final(self)@ == consider(old(self)@, candidate@),
            won == wins(old(self)@, candidate@),
            count_won(final(self)@.reports) == count_won(old(self)@.reports) + if won {
                1nat
            } else {
                0nat
            },
            final(self)@.reports.len() >= old(self)@.reports.len() + if won {
                1nat
            } else {
                0nat
            },
    {
        if self.seen_lists.contains(&candidate.numbers) {
            return false;
        }
        let ghost c = candidate@;
        let ghost before = self@;
        let dist = candidate.distance().unwrap();
        if dist == 0 {
            self.reports.push(Report { kind: ReportKind::Won, candidate });
            self.best_distance = 0;
            proof {
                let report = ReportView { kind: ReportKind::Won, candidate: c };
                assert(self@.reports =~= before.reports.push(report));
                assert(self@.reports.drop_last() == before.reports);
                assert(self@ =~~= consider(before, c));
            }
            return true;
        } else if dist < self.best_distance {
            self.reports.push(Report { kind: ReportKind::Found, candidate: candidate.clone() });
            self.best_distance = dist;
            proof {
                let report = ReportView { kind: ReportKind::Found, candidate: c };
                assert(self@.reports =~= before.reports.push(report));
                assert(self@.reports.drop_last() == before.reports);
            }
        }
        if candidate.numbers.len() > 1 {
            let ghost queue = self@.queue;
            self.seen_lists.insert(candidate.numbers.clone());
            self.candidates.push_back(candidate);
            assert(self@.queue =~= queue.push(c));
        }
        assert(self@ =~~= consider(before, c));
        false
    }

    /// Tries `op` on `base`: the child that it leads to is looked at, unless
    /// `op` has no result. Returns whether the child is a hit.
    pub fn try_operation(&mut self, base: &Candidate, op: Operation) -> (won: bool)
        requires
            old(self).wf(),
            has_operands(base@.numbers, op),
        ensures
            final(self).wf(),
            final(self)@ == attempt(old(self)@, base@, op),
            won == (op.outcome() is Some && wins(old(self)@, base@.with_operation(op))),
            count_won(final(self)@.reports) == count_won(old(self)@.reports) + if won {
                1nat
            } else {
                0nat
            },
            final(self)@.reports.len() >= old(self)@.reports.len() + if won {
                1nat
            } else {
                0nat
            },
    {
        if op.result().is_some() {
            let child = base.with_operation(op);
            self.add_candidate(child)
        } else {
            false
        }
    }

    /// Takes the oldest candidate off the queue. `None` when the queue is
    /// empty: the search is over.
    pub fn next_candidate(&mut self) -> (r: Option<Candidate>)
        requires
            old(self).wf(),
        ensures
            final(self).wf(),
            match r {
                Some(base) => {
                    &&& old(self)@.queue.len() > 0
                    &&& base@ == old(self)@.queue[0]
                    &&& final(self)@ == without_first(old(self)@)
                },
                None => old(self)@.queue.len() == 0 && final(self)@ == old(self)@,
            },
    {
        let ghost before = self@;
        let r = self.candidates.pop_front();
        proof {
            if r is Some {
                assert(self@ =~~= without_first(before));
            } else {
                assert(self@ =~~= before);
            }
        }
        r
    }

    /// Expands `base`: tries the four operators on each of its operand
    /// pairs. Returns the number of hits among its children.
    pub fn expand(&mut self, base: &Candidate) -> (hits: usize)
        requires
            old(self).wf(),
        ensures
            final(self).wf(),
            final(self)@ == expand_pairs(old(self)@, base@, pair_values(base@.numbers)),
            count_won(final(self)@.reports) == count_won(old(self)@.reports) + hits,
    {
        let pairs = base.numbers.build_pairs();
        let mut hits: usize = 0;
        let mut k: usize = 0;
        assert(pairs@.take(0) == Seq::<(u32, u32)>::empty());
        while k < pairs.len()
            invariant
                self.wf(),
                k <= pairs@.len(),
                pairs@ == pair_values(base@.numbers),
                forall|i: int| 0 <= i < pairs@.len() ==> drawn_from(base@.numbers, #[trigger] pairs@[i]),
                self@ == expand_pairs(old(self)@, base@, pairs@.take(k as int)),
                count_won(self@.reports) == count_won(old(self)@.reports) + hits,
                self@.reports.len() >= old(self)@.reports.len() + hits,
            decreases pairs@.len() - k,
        {
            let ghost at_pair = self@;
            let (op1, op2) = pairs[k];
            let addition = Operation::new(op1, op2, OperationType::Addition);
            let multiplication = Operation::new(op1, op2, OperationType::Multiplication);
            let subtraction = Operation::new(op1, op2, OperationType::Subtraction);
            let division = Operation::new(op1, op2, OperationType::Division);
            proof {
                let pair = pairs@[k as int];
                lemma_drawn_has_operands(base@.numbers, pair, addition);
                lemma_drawn_has_operands(base@.numbers, pair, multiplication);
                lemma_drawn_has_operands(base@.numbers, pair, subtraction);
                lemma_drawn_has_operands(base@.numbers, pair, division);
            }
            if self.try_operation(base, addition) {
                assert(self.reports@.len() == self.reports.len());
                hits += 1;
            }
            if self.try_operation(base, multiplication) {
                assert(self.reports@.len() == self.reports.len());
                hits += 1;
            }
            if self.try_operation(base, subtraction) {
                assert(self.reports@.len() == self.reports.len());
                hits += 1;
            }
            if self.try_operation(base, division) {
                assert(self.reports@.len() == self.reports.len());
                hits += 1;
            }
            proof {
                let upto = pairs@.take(k + 1);
                assert(upto.drop_last() == pairs@.take(k as int));
                assert(upto.last() == pairs@[k as int]);
                assert(self@ == expand_pair(at_pair, base@, pairs@[k as int]));
            }
            k += 1;
        }
        assert(pairs@.take(pairs@.len() as int) == pairs@);
        hits
    }

    /// The smallest distance from the goal that was met so far.
    pub fn best_distance(&self) -> (r: u32)
        ensures
            r == self@.best_distance,
    {
        self.best_distance
    }

    /// The number of candidates that wait to be expanded.
    pub fn pending(&self) -> (r: usize)
        ensures
            r == self@.queue.len(),
    {
        self.candidates.len()
    }

    /// The candidates that were reported so far, the oldest first.
    pub fn reports(&self) -> (r: &Vec<Report>)
        ensures
            reports_view(r@) == self@.reports,
    {
        &self.reports
    }

    /// Ends the search and hands over its reports.
    pub fn into_reports(self) -> (r: Vec<Report>)
        ensures
            reports_view(r@) == self@.reports,
    {
        self.reports
    }
}

/// What a search has found.
pub struct Outcome {
    /// The candidates that were reported, in the order in which they were met.
    pub reports: Vec<Report>,
    /// The number of hits among them.
    pub solutions: usize,
}

impl Outcome {
    /// The line that closes the search, such as `Solutions found: 0`.
    pub fn summary(&self) -> (r: String)
        ensures
            r@ == summary_text(self.solutions as nat),
    {
        let mut out = String::new();
        out.append("Solutions found: ");
        push_decimal(&mut out, self.solutions as u64);
        out
    }
}

/// Searches breadth-first for ways to reach the goal of `game` with its
/// numbers, and returns every hit and every candidate that came closer to the
/// goal than all before it.
///
/// What is returned is what the search of [`crate::search`] reports. Every
/// reported candidate is a state of the game, and where the goal is not one
/// of the numbers of the game, there is a hit exactly if the goal can be
/// reached at all.
pub fn solve(game: Game) -> (r: Outcome)
    ensures
        reports_view(r.reports@) == search(game.goal, game.numbers@).reports,
        r.solutions == count_won(search(game.goal, game.numbers@).reports),
        reports_sound(reports_view(r.reports@), game.goal, game.numbers@),
        !game.numbers@.contains(game.goal) ==> (r.solutions >= 1 <==> reachable(
            game.numbers@,
            game.goal,
        )),
{
    let ghost start = initial(game.goal, game.numbers@);
    proof {
        use_type_invariant(&game.numbers);
        law_reports_are_sound(game.goal, game.numbers@);
        if !game.numbers@.contains(game.goal) {
            law_search_finds_what_can_be_reached(game.goal, game.numbers@);
        }
    }
    let mut state = SolverState::new(game);
    let mut solutions: usize = 0;
    loop
        invariant
            state.wf(),
            run(state@) == run(start),
            solutions == count_won(state@.reports),
        ensures
            state@ == run(start),
        decreases weight(state@.queue),
    {
        let ghost before = state@;
        match state.next_candidate() {
            None => {
                break ;
            },
            Some(base) => {
                let hits = state.expand(&base);
                proof {
                    assert(state@ == step(before));
                    law_step_decreases_weight(before);
                    lemma_count_won_bound(state@.reports);
                }
                assert(state.reports@.len() == state.reports.len());
                solutions += hits;
            },
        }
    }
    Outcome { reports: state.into_reports(), solutions }
}

} // verus!
