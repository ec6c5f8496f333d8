use algoooo::ranking::{Attempt, SubmissionCounts};

#[test]
fn fresh_counts_are_zero() {
    let counts = SubmissionCounts::new();
    assert_eq!(counts.user_count(1), 0);
    assert_eq!(counts.problem_count(-5), 0);
}

#[test]
fn attempts_carry_counts_before_them() {
    let mut counts = SubmissionCounts::new();
    let results = vec![(1, 7, true), (1, 8, false), (2, 7, true), (1, 7, false)];
    assert!(counts.can_plan_contest(&results));
    let attempts = counts.plan_contest(&results);
    assert_eq!(
        attempts,
        vec![
            Attempt { user_id: 1, problem_id: 7, is_solved: true, user_submissions: 0, problem_submissions: 0 },
            Attempt { user_id: 1, problem_id: 8, is_solved: false, user_submissions: 1, problem_submissions: 0 },
            Attempt { user_id: 2, problem_id: 7, is_solved: true, user_submissions: 0, problem_submissions: 1 },
            Attempt { user_id: 1, problem_id: 7, is_solved: false, user_submissions: 2, problem_submissions: 2 },
        ]
    );
    assert_eq!(counts.user_count(1), 3);
    assert_eq!(counts.user_count(2), 1);
    assert_eq!(counts.user_count(3), 0);
    assert_eq!(counts.problem_count(7), 3);
    assert_eq!(counts.problem_count(8), 1);
}

#[test]
fn empty_contest_changes_nothing() {
    let mut counts = SubmissionCounts::new();
    counts.plan_contest(&vec![(4, 4, true)]);
    let attempts = counts.plan_contest(&Vec::new());
    assert!(attempts.is_empty());
    assert_eq!(counts.user_count(4), 1);
    assert_eq!(counts.problem_count(4), 1);
}

#[test]
fn counts_carry_over_between_contests() {
    let first = vec![(1, 10, true), (2, 10, false)];
    let second = vec![(2, 11, true), (1, 10, true), (3, 11, false)];

    let mut in_two_runs = SubmissionCounts::new();
    in_two_runs.plan_contest(&first);
    let second_attempts = in_two_runs.plan_contest(&second);

    let mut in_one_run = SubmissionCounts::new();
    let joined: Vec<(i32, i32, bool)> = first.iter().chain(second.iter()).copied().collect();
    let joined_attempts = in_one_run.plan_contest(&joined);

    assert_eq!(second_attempts[..], joined_attempts[first.len()..]);
    for id in [1, 2, 3, 10, 11] {
        assert_eq!(in_two_runs.user_count(id), in_one_run.user_count(id));
        assert_eq!(in_two_runs.problem_count(id), in_one_run.problem_count(id));
    }
    assert_eq!(second_attempts[1].user_submissions, 1);
    assert_eq!(second_attempts[1].problem_submissions, 2);
}

#[test]
fn ordinary_contests_can_be_planned() {
    let counts = SubmissionCounts::new();
    assert!(counts.can_plan_contest(&Vec::new()));
    assert!(counts.can_plan_contest(&vec![(i32::MIN, i32::MAX, false), (i32::MIN, i32::MAX, true)]));
}
