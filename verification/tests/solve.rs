use countdown::candidate::Candidate;
use countdown::number_list::NumberList;
use countdown::operation::{Operation, OperationType};
use countdown::search::ReportKind;
use countdown::solve::{solve, Game, Outcome, SolverState};

fn replay(start: &NumberList, candidate: &Candidate) -> NumberList {
    let mut numbers = start.clone();
    for op in &candidate.ops {
        assert!(op.is_possible());
        let normal = Operation::new(op.op1, op.op2, op.op_type);
        assert_eq!((normal.op1, normal.op2), (op.op1, op.op2));
        numbers = numbers.substitute_operation(op);
    }
    numbers
}

fn lines(outcome: &Outcome) -> Vec<String> {
    outcome.reports.iter().map(|r| r.render()).collect()
}

fn distances(outcome: &Outcome) -> Vec<u32> {
    outcome
        .reports
        .iter()
        .map(|r| r.candidate.distance().unwrap())
        .collect()
}

/// Whether `goal` is the result of some operation on the way down from
/// `numbers`, by trying everything.
fn reachable(numbers: &[u32], goal: u32) -> bool {
    for i in 0..numbers.len() {
        for j in (i + 1)..numbers.len() {
            let (a, b) = (numbers[i].max(numbers[j]), numbers[i].min(numbers[j]));
            let mut results = vec![a + b, a * b];
            if a > b {
                results.push(a - b);
            }
            if b != 0 && a % b == 0 {
                results.push(a / b);
            }
            for value in results {
                if value == goal {
                    return true;
                }
                let mut rest: Vec<u32> = (0..numbers.len())
                    .filter(|k| *k != i && *k != j)
                    .map(|k| numbers[k])
                    .collect();
                rest.push(value);
                if reachable(&rest, goal) {
                    return true;
                }
            }
        }
    }
    false
}

fn check_reports(start: &NumberList, goal: u32, outcome: &Outcome) {
    let mut hits = 0;
    for report in &outcome.reports {
        let candidate = &report.candidate;
        assert_eq!(candidate.goal, goal);
        assert!(!candidate.ops.is_empty());
        assert!(replay(start, candidate) == candidate.numbers);
        assert_eq!(candidate.numbers.len() + candidate.ops.len(), start.len());
        assert_eq!(candidate.result(), candidate.ops.last().unwrap().result());
        if report.kind == ReportKind::Won {
            hits += 1;
            assert_eq!(candidate.result(), Some(goal));
            assert_eq!(candidate.distance(), Some(0));
        } else {
            assert!(candidate.distance().unwrap() > 0);
        }
    }
    assert_eq!(hits, outcome.solutions);
    let mut best = goal;
    for report in &outcome.reports {
        let distance = report.candidate.distance().unwrap();
        if report.kind == ReportKind::Found {
            assert!(distance < best);
        }
        best = distance;
    }
}

#[test]
fn closest_to_508_is_509() {
    let numbers = vec![6, 1, 7, 8, 9];
    assert!(!reachable(&numbers, 508));
    let game = Game::new(508, numbers);
    let start = game.numbers.clone();
    let outcome = solve(game);
    check_reports(&start, 508, &outcome);
    assert_eq!(outcome.solutions, 0);
    assert_eq!(outcome.reports.len(), 21);
    assert_eq!(
        outcome.reports.last().unwrap().render(),
        "FOUND: 6 - 1 = 5, 8 × 7 = 56, 56 × 9 = 504, 504 + 5 = 509, [dist = 1] **"
    );
    assert_eq!(outcome.reports.last().unwrap().candidate.numbers.as_slice(), &[509]);
    assert_eq!(
        distances(&outcome),
        vec![
            501, 500, 499, 498, 495, 466, 460, 454, 452, 445, 436, 427, 404, 391, 172, 130, 76,
            4, 3, 2, 1
        ]
    );
    assert_eq!(outcome.summary(), "Solutions found: 0");
}

#[test]
fn reaches_504() {
    let numbers = vec![6, 1, 7, 8, 9];
    assert!(reachable(&numbers, 504));
    let game = Game::new(504, numbers);
    let start = game.numbers.clone();
    let outcome = solve(game);
    check_reports(&start, 504, &outcome);
    assert_eq!(outcome.solutions, 13);
    assert_eq!(outcome.reports.len(), 30);
    let won: Vec<String> = outcome
        .reports
        .iter()
        .filter(|r| r.kind == ReportKind::Won)
        .map(|r| r.render())
        .collect();
    assert_eq!(won[0], "WON!!! 8 × 7 = 56, 56 × 9 = 504,  ***");
    assert_eq!(
        won[12],
        "WON!!! 7 + 1 = 8, 8 × 6 = 48, 48 + 8 = 56, 56 × 9 = 504,  ***"
    );
    assert_eq!(outcome.summary(), "Solutions found: 13");
}

#[test]
fn unsolvable_482() {
    let numbers = vec![50, 25, 6, 5, 10];
    assert!(!reachable(&numbers, 482));
    let game = Game::new(482, numbers);
    let start = game.numbers.clone();
    let outcome = solve(game);
    check_reports(&start, 482, &outcome);
    assert_eq!(outcome.solutions, 0);
    assert_eq!(outcome.summary(), "Solutions found: 0");
    assert_eq!(
        lines(&outcome),
        vec![
            "FOUND: 6 + 5 = 11, [dist = 471]",
            "FOUND: 6 × 5 = 30, [dist = 452]",
            "FOUND: 10 × 5 = 50, [dist = 432]",
            "FOUND: 25 × 5 = 125, [dist = 357]",
            "FOUND: 50 × 5 = 250, [dist = 232]",
            "FOUND: 50 × 6 = 300, [dist = 182]",
            "FOUND: 50 × 10 = 500, [dist = 18]",
            "FOUND: 50 × 10 = 500, 500 - 5 = 495, [dist = 13]",
            "FOUND: 50 × 10 = 500, 500 - 6 = 494, [dist = 12]",
            "FOUND: 50 × 10 = 500, 500 - 25 = 475, [dist = 7] *",
            "FOUND: 25 + 5 = 30, 10 + 6 = 16, 30 × 16 = 480, [dist = 2] **",
            "FOUND: 25 - 6 = 19, 50 × 10 = 500, 500 - 19 = 481, [dist = 1] **",
        ]
    );
}

#[test]
fn repeated_numbers_are_tried_once() {
    let game = Game::new(24, vec![3, 3, 8, 8]);
    let start = game.numbers.clone();
    let outcome = solve(game);
    check_reports(&start, 24, &outcome);
    assert_eq!(outcome.solutions, 3);
    assert_eq!(
        lines(&outcome),
        vec![
            "FOUND: 3 + 3 = 6, [dist = 18]",
            "FOUND: 3 × 3 = 9, [dist = 15]",
            "FOUND: 8 + 3 = 11, [dist = 13]",
            "WON!!! 8 × 3 = 24,  ***",
            "WON!!! 8 + 3 = 11, 8 × 3 = 24,  ***",
            "WON!!! 8 - 3 = 5, 8 × 3 = 24,  ***",
        ]
    );
}

#[test]
fn nothing_to_expand() {
    for numbers in [vec![], vec![7], vec![3]] {
        let outcome = solve(Game::new(7, numbers));
        assert_eq!(outcome.solutions, 0);
        assert!(outcome.reports.is_empty());
        assert_eq!(outcome.summary(), "Solutions found: 0");
    }
}

#[test]
fn two_numbers() {
    let outcome = solve(Game::new(10, vec![5, 5]));
    assert_eq!(outcome.solutions, 1);
    assert_eq!(lines(&outcome), vec!["WON!!! 5 + 5 = 10,  ***"]);

    let outcome = solve(Game::new(12, vec![4, 3]));
    assert_eq!(outcome.solutions, 1);
    assert_eq!(
        lines(&outcome),
        vec!["FOUND: 4 + 3 = 7, [dist = 5] **", "WON!!! 4 × 3 = 12,  ***"]
    );
}

#[test]
fn zero_among_the_numbers() {
    let outcome = solve(Game::new(5, vec![0, 5, 2]));
    let start = NumberList::new(vec![0, 5, 2]);
    check_reports(&start, 5, &outcome);
    assert_eq!(outcome.solutions, 2);
    assert_eq!(
        lines(&outcome),
        vec![
            "FOUND: 2 + 0 = 2, [dist = 3] **",
            "FOUND: 5 + 2 = 7, [dist = 2] **",
            "WON!!! 2 × 0 = 0, 5 + 0 = 5,  ***",
            "WON!!! 2 × 0 = 0, 5 - 0 = 5,  ***",
        ]
    );
    for report in &outcome.reports {
        for op in &report.candidate.ops {
            assert!(!(op.op_type == OperationType::Division && op.op2 == 0));
        }
    }
}

#[test]
fn results_beyond_u32_are_passed_over() {
    let numbers = vec![65536, 65536, 2];
    let game = Game::new(u32::MAX, numbers);
    let start = game.numbers.clone();
    let outcome = solve(game);
    check_reports(&start, u32::MAX, &outcome);
    assert_eq!(outcome.solutions, 0);
    assert_eq!(
        lines(&outcome),
        vec![
            "FOUND: 65536 + 2 = 65538, [dist = 4294901757]",
            "FOUND: 65536 × 2 = 131072, [dist = 4294836223]",
            "FOUND: 65536 + 2 = 65538, 65538 + 65536 = 131074, [dist = 4294836221]",
            "FOUND: 65536 × 2 = 131072, 131072 + 65536 = 196608, [dist = 4294770687]",
            "FOUND: 65536 - 2 = 65534, 65536 × 65534 = 4294836224, [dist = 131071]",
        ]
    );
}

#[test]
fn largest_goal() {
    let outcome = solve(Game::new(u32::MAX, vec![u32::MAX, 1, 2]));
    assert_eq!(outcome.solutions, 2);
    assert_eq!(
        lines(&outcome),
        vec![
            "FOUND: 2 + 1 = 3, [dist = 4294967292]",
            "FOUND: 4294967295 - 1 = 4294967294, [dist = 1] **",
            "WON!!! 2 - 1 = 1, 4294967295 × 1 = 4294967295,  ***",
            "WON!!! 2 - 1 = 1, 4294967295 ÷ 1 = 4294967295,  ***",
        ]
    );
    let outcome = solve(Game::new(u32::MAX, vec![65535, 65537, 70000]));
    assert_eq!(outcome.solutions, 1);
    assert_eq!(
        lines(&outcome),
        vec![
            "FOUND: 65537 + 65535 = 131072, [dist = 4294836223]",
            "WON!!! 65537 × 65535 = 4294967295,  ***",
        ]
    );
}

#[test]
fn goal_zero() {
    let outcome = solve(Game::new(0, vec![0, 0]));
    assert_eq!(outcome.solutions, 2);
    assert_eq!(
        lines(&outcome),
        vec!["WON!!! 0 + 0 = 0,  ***", "WON!!! 0 × 0 = 0,  ***"]
    );
}

#[test]
fn game_sorts_its_numbers() {
    let game = Game::new(508, vec![6, 1, 7, 8, 9]);
    assert_eq!(game.goal, 508);
    assert_eq!(game.numbers.as_slice(), &[1, 6, 7, 8, 9]);
}

fn root_of(goal: u32) -> Candidate {
    Candidate::new(goal, NumberList::new(vec![4, 5, 6]))
}

#[test]
fn add_candidate_tells_a_hit() {
    let mut state = SolverState::new(Game::new(20, vec![4, 5, 6]));
    let hit = root_of(20).with_operation(Operation::new(4, 5, OperationType::Multiplication));
    assert_eq!(hit.distance(), Some(0));
    assert!(state.add_candidate(hit));

    let mut state = SolverState::new(Game::new(21, vec![4, 5, 6]));
    let near = root_of(21).with_operation(Operation::new(4, 5, OperationType::Multiplication));
    assert_eq!(near.distance(), Some(1));
    assert!(!state.add_candidate(near));
}

#[test]
fn try_operation_passes_over_what_has_no_result() {
    let mut state = SolverState::new(Game::new(0, vec![5, 5, 6]));
    let root = Candidate::new(0, NumberList::new(vec![5, 5, 6]));
    assert!(!state.try_operation(&root, Operation::new(5, 5, OperationType::Subtraction)));
    assert!(!state.try_operation(&root, Operation::new(6, 5, OperationType::Division)));
    assert!(!state.try_operation(&root, Operation::new(6, 5, OperationType::Subtraction)));

    let mut state = SolverState::new(Game::new(1, vec![5, 5, 6]));
    let root = Candidate::new(1, NumberList::new(vec![5, 5, 6]));
    assert!(state.try_operation(&root, Operation::new(6, 5, OperationType::Subtraction)));
    assert!(state.try_operation(&root, Operation::new(5, 5, OperationType::Division)));
}

#[test]
fn six_numbers() {
    let numbers = vec![25, 50, 75, 100, 3, 6];
    let game = Game::new(952, numbers);
    let start = game.numbers.clone();
    let outcome = solve(game);
    check_reports(&start, 952, &outcome);
    assert_eq!(outcome.solutions, 2);
    assert_eq!(outcome.reports.len(), 16);
    assert_eq!(
        lines(&outcome)[13..],
        [
            "FOUND: 25 - 6 = 19, 50 × 19 = 950, 950 + 3 = 953, [dist = 1] **",
            "WON!!! 75 × 3 = 225, 100 + 6 = 106, 225 × 106 = 23850, 23850 - 50 = 23800, 23800 ÷ 25 = 952,  ***",
            "WON!!! 100 + 3 = 103, 75 × 6 = 450, 450 ÷ 50 = 9, 103 × 9 = 927, 927 + 25 = 952,  ***",
        ]
    );
}

#[test]
fn no_list_is_expanded_twice() {
    for (goal, numbers) in [
        (508, vec![6, 1, 7, 8, 9]),
        (482, vec![50, 25, 6, 5, 10]),
        (24, vec![3, 3, 8, 8]),
        (7, vec![2, 2, 2, 2, 2]),
    ] {
        let mut state = SolverState::new(Game::new(goal, numbers.clone()));
        let mut expanded: Vec<Vec<u32>> = Vec::new();
        let mut hits = 0;
        while let Some(base) = state.next_candidate() {
            assert!(base.numbers.len() >= 2);
            expanded.push(base.numbers.as_slice().to_vec());
            hits += state.expand(&base);
        }
        assert_eq!(state.pending(), 0);
        let mut unique = expanded.clone();
        unique.sort();
        unique.dedup();
        assert_eq!(unique.len(), expanded.len());
        let mut sorted_numbers = numbers.clone();
        sorted_numbers.sort();
        assert_eq!(expanded[0], sorted_numbers);

        let outcome = solve(Game::new(goal, numbers));
        assert_eq!(outcome.solutions, hits);
        assert_eq!(
            state.into_reports().iter().map(|r| r.render()).collect::<Vec<String>>(),
            lines(&outcome)
        );
    }
}

#[test]
fn state_can_be_read() {
    let mut state = SolverState::new(Game::new(21, vec![4, 5, 6]));
    assert_eq!(state.best_distance(), 21);
    assert_eq!(state.pending(), 1);
    assert!(state.reports().is_empty());

    let root = state.next_candidate().unwrap();
    assert_eq!(state.pending(), 0);
    assert_eq!(root.numbers.as_slice(), &[4, 5, 6]);
    assert_eq!(state.expand(&root), 0);
    assert_eq!(state.best_distance(), 1);
    assert_eq!(
        state.reports().iter().map(|r| r.render()).collect::<Vec<String>>(),
        vec!["FOUND: 5 + 4 = 9, [dist = 12]", "FOUND: 5 × 4 = 20, [dist = 1] **"]
    );
    // [6, 9] [6, 20] [1, 6] | [4, 11] [4, 30] [2, 4] | [5, 10] [5, 24] [2, 5]
    // 4 - 5 and the divisions have no result but 6 - 4 = 2, 6 - 5 = 1, 5 - 4 = 1
    assert_eq!(state.pending(), 9);
}

#[test]
fn a_seen_list_is_not_queued_again() {
    let mut state = SolverState::new(Game::new(100, vec![2, 3, 4]));
    let root = state.next_candidate().unwrap();
    let first = root.with_operation(Operation::new(2, 3, OperationType::Addition));
    assert!(!state.add_candidate(first));
    assert_eq!(state.pending(), 1);
    assert_eq!(state.reports().len(), 1);

    // 2 + 3 = 5 once more leaves the same numbers
    let again = root.with_operation(Operation::new(3, 2, OperationType::Addition));
    assert!(!state.add_candidate(again));
    assert_eq!(state.pending(), 1);
    assert_eq!(state.reports().len(), 1);

    // 4 + 2 = 6 leaves others
    let other = root.with_operation(Operation::new(4, 2, OperationType::Addition));
    assert!(!state.add_candidate(other));
    assert_eq!(state.pending(), 2);
    assert_eq!(state.reports().len(), 2);
    assert_eq!(state.best_distance(), 94);
}

#[test]
fn a_single_number_is_not_queued() {
    let mut state = SolverState::new(Game::new(100, vec![2, 3]));
    let root = state.next_candidate().unwrap();
    let last = root.with_operation(Operation::new(2, 3, OperationType::Multiplication));
    assert_eq!(last.numbers.len(), 1);
    assert!(!state.add_candidate(last));
    assert_eq!(state.pending(), 0);
    assert_eq!(state.best_distance(), 94);
    assert_eq!(state.reports().len(), 1);
}

#[test]
fn a_hit_is_found_whenever_the_goal_can_be_reached() {
    for a in 0..6u32 {
        for b in a..6 {
            for c in b..6 {
                for goal in 0..40u32 {
                    if goal == a || goal == b || goal == c {
                        continue;
                    }
                    let outcome = solve(Game::new(goal, vec![c, a, b]));
                    assert_eq!(outcome.solutions >= 1, reachable(&[a, b, c], goal));
                }
            }
        }
    }
    for (goal, numbers) in [
        (13, vec![1, 2, 3, 4]),
        (97, vec![1, 2, 3, 4]),
        (101, vec![2, 2, 5, 5]),
        (100, vec![2, 2, 5, 5]),
        (31, vec![7, 7, 7, 7]),
        (48, vec![7, 7, 7, 7]),
    ] {
        let outcome = solve(Game::new(goal, numbers.clone()));
        assert_eq!(outcome.solutions >= 1, reachable(&numbers, goal));
    }
}

#[test]
fn a_goal_among_the_numbers_can_go_unnoticed() {
    // 5 × 1 = 5 leaves 3 and 5, which 3 × 1 = 3 has left before
    assert!(reachable(&[5, 3, 1], 5));
    let outcome = solve(Game::new(5, vec![5, 3, 1]));
    assert_eq!(outcome.solutions, 0);
}
