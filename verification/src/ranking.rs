//! The submission counts that the rating schedule reads.
//!
//! Ratings are replayed contest by contest. Within a contest every
//! (user, problem, solved) result is weighed by how many results the user
//! and the problem had before it, over all earlier contests and the earlier
//! results of the same contest. This module keeps those counts and hands
//! out, for each result, the two counts that apply to it.

use std::collections::HashMap;
use vstd::prelude::*;

verus! {

broadcast use vstd::std_specs::hash::group_hash_axioms;

/// How many results of `results` belong to user `user_id`.
pub open spec fn user_occurrences(results: Seq<(i32, i32, bool)>, user_id: i32) -> int
    decreases results.len(),
{
    if results.len() == 0 {
        0
    } else {
        user_occurrences(results.drop_last(), user_id) + if results.last().0 == user_id {
            1int
        } else {
            0int
        }
    }
}

/// How many results of `results` belong to problem `problem_id`.
pub open spec fn problem_occurrences(results: Seq<(i32, i32, bool)>, problem_id: i32) -> int
    decreases results.len(),
{
    if results.len() == 0 {
        0
    } else {
        problem_occurrences(results.drop_last(), problem_id) + if results.last().1
            == problem_id {
            1int
        } else {
            0int
        }
    }
}

/// The count that `counts` holds for `id`; an id it never saw has count 0.
pub open spec fn count_of(counts: Map<i32, i32>, id: i32) -> int {
    if counts.contains_key(id) {
        counts[id] as int
    } else {
        0
    }
}

/// One contest result together with the counts that weigh it: the number
/// of results its user and its problem had before it.
#[derive(Debug, Clone, Copy, PartialEq, Eq)]
pub struct Attempt {
    pub user_id: i32,
    pub problem_id: i32,
    pub is_solved: bool,
    pub user_submissions: i32,
    pub problem_submissions: i32,
}

/// Submission counts per user and per problem.
pub struct SubmissionCounts {
    users: HashMap<i32, i32>,
    problems: HashMap<i32, i32>,
}

impl SubmissionCounts {
    /// The counts are never negative.
    #[verifier::type_invariant]
    spec fn counts_non_negative(self) -> bool {
        &&& forall|id: i32| #[trigger] self.users@.contains_key(id) ==> self.users@[id] >= 0
        &&& forall|id: i32| #[trigger] self.problems@.contains_key(id) ==> self.problems@[id] >= 0
    }

    /// The number of results counted so far for user `user_id`.
    pub closed spec fn user_submissions(&self, user_id: i32) -> int {
        count_of(self.users@, user_id)
    }

    /// The number of results counted so far for problem `problem_id`.
    pub closed spec fn problem_submissions(&self, problem_id: i32) -> int {
        count_of(self.problems@, problem_id)
    }

    /// Whether the results of a contest can all be counted: no count would
    /// go past `i32::MAX`.
    pub open spec fn can_count(&self, results: Seq<(i32, i32, bool)>) -> bool {
        forall|i: int|
            0 <= i < results.len() ==> {
                &&& self.user_submissions(results[i].0) + user_occurrences(
                    results.take(i),
                    results[i].0,
                ) < i32::MAX
                &&& self.problem_submissions(results[i].1) + problem_occurrences(
                    results.take(i),
                    results[i].1,
                ) < i32::MAX
            }
    }

    /// Counts that are 0 for every user and every problem.
    pub fn new() -> (counts: Self)
        ensures
            forall|id: i32| #[trigger] counts.user_submissions(id) == 0,
            forall|id: i32| #[trigger] counts.problem_submissions(id) == 0,
    {
        SubmissionCounts { users: HashMap::new(), problems: HashMap::new() }
    }

    /// The number of results counted so far for user `user_id`.
    pub fn user_count(&self, user_id: i32) -> (count: i32)
        ensures
            count == self.user_submissions(user_id),
            count >= 0,
    {
        proof {
            use_type_invariant(self);
        }
        match self.users.get(&user_id) {
            Some(count) => *count,
            None => 0,
        }
    }

    /// The number of results counted so far for problem `problem_id`.
    pub fn problem_count(&self, problem_id: i32) -> (count: i32)
        ensures
            count == self.problem_submissions(problem_id),
            count >= 0,
    {
        proof {
            use_type_invariant(self);
        }
        match self.problems.get(&problem_id) {
            Some(count) => *count,
            None => 0,
        }
    }

    /// Counts one more result of user `user_id` on problem `problem_id`.
    fn record(&mut self, user_id: i32, problem_id: i32)
        requires
            old(self).user_submissions(user_id) < i32::MAX,
            old(self).problem_submissions(problem_id) < i32::MAX,
        ensures
            forall|id: i32| #[trigger]
                final(self).user_submissions(id) == old(self).user_submissions(id) + if id
                    == user_id {
                    1int
                } else {
                    0int
                },
            forall|id: i32| #[trigger]
                final(self).problem_submissions(id) == old(self).problem_submissions(id) + if id
                    == problem_id {
                    1int
                } else {
                    0int
                },
    {
        proof {
            use_type_invariant(&*self);
        }
        let user_count = self.user_count(user_id);
        let problem_count = self.problem_count(problem_id);
        let mut users: HashMap<i32, i32> = HashMap::new();
        std::mem::swap(&mut users, &mut self.users);
        users.insert(user_id, user_count + 1);
        self.users = users;
        let mut problems: HashMap<i32, i32> = HashMap::new();
        std::mem::swap(&mut problems, &mut self.problems);
        problems.insert(problem_id, problem_count + 1);
        self.problems = problems;
    }

    /// Whether `plan_contest` can count all of `results`: `true` exactly
    /// when no count would go past `i32::MAX`.
    pub fn can_plan_contest(&self, results: &Vec<(i32, i32, bool)>) -> (ok: bool)
        ensures
            ok == self.can_count(results@),
    {
        proof {
            use_type_invariant(self);
        }
        let mut trial = SubmissionCounts { users: self.users.clone(), problems: self.problems.clone() };
        let mut i: usize = 0;
        while i < results.len()
            invariant
                i <= results.len(),
                forall|id: i32| #[trigger]
                    trial.user_submissions(id) == self.user_submissions(id) + user_occurrences(
                        results@.take(i as int),
                        id,
                    ),
                forall|id: i32| #[trigger]
                    trial.problem_submissions(id) == self.problem_submissions(id)
                        + problem_occurrences(results@.take(i as int), id),
                forall|j: int|
                    0 <= j < i ==> {
                        &&& self.user_submissions(results@[j].0) + user_occurrences(
                            results@.take(j),
                            results@[j].0,
                        ) < i32::MAX
                        &&& self.problem_submissions(results@[j].1) + problem_occurrences(
                            results@.take(j),
                            results@[j].1,
                        ) < i32::MAX
                    },
            decreases results.len() - i,
        {
            let (user_id, problem_id, _) = results[i];
            if trial.user_count(user_id) == i32::MAX || trial.problem_count(problem_id) == i32::MAX {
                return false;
            }
            proof {
                lemma_occurrences_step(results@, i as int);
            }
            trial.record(user_id, problem_id);
            i = i + 1;
        }
        true
    }

    /// Counts the results of one contest, in order, and returns each result
    /// with the counts of its user and its problem just before it.
    pub fn plan_contest(&mut self, results: &Vec<(i32, i32, bool)>) -> (attempts: Vec<Attempt>)
        requires
            old(self).can_count(results@),
        ensures
            attempts.len() == results.len(),
            forall|i: int|
                0 <= i < results.len() ==> {
                    let attempt = #[trigger] attempts[i];
                    &&& attempt.user_id == results@[i].0
                    &&& attempt.problem_id == results@[i].1
                    &&& attempt.is_solved == results@[i].2
                    &&& attempt.user_submissions == old(self).user_submissions(results@[i].0)
                        + user_occurrences(results@.take(i), results@[i].0)
                    &&& attempt.problem_submissions == old(self).problem_submissions(
                        results@[i].1,
                    ) + problem_occurrences(results@.take(i), results@[i].1)
                },
            forall|id: i32| #[trigger]
                final(self).user_submissions(id) == old(self).user_submissions(id)
                    + user_occurrences(results@, id),
            forall|id: i32| #[trigger]
                final(self).problem_submissions(id) == old(self).problem_submissions(id)
                    + problem_occurrences(results@, id),
    {
        let mut attempts: Vec<Attempt> = Vec::new();
        let mut i: usize = 0;
        while i < results.len()
            invariant
                i <= results.len(),
                old(self).can_count(results@),
                attempts.len() == i,
                forall|j: int|
                    0 <= j < i ==> {
                        let attempt = #[trigger] attempts[j];
                        &&& attempt.user_id == results@[j].0
                        &&& attempt.problem_id == results@[j].1
                        &&& attempt.is_solved == results@[j].2
                        &&& attempt.user_submissions == old(self).user_submissions(results@[j].0)
                            + user_occurrences(results@.take(j), results@[j].0)
                        &&& attempt.problem_submissions == old(self).problem_submissions(
                            results@[j].1,
                        ) + problem_occurrences(results@.take(j), results@[j].1)
                    },
                forall|id: i32| #[trigger]
                    self.user_submissions(id) == old(self).user_submissions(id) + user_occurrences(
                        results@.take(i as int),
                        id,
                    ),
                forall|id: i32| #[trigger]
                    self.problem_submissions(id) == old(self).problem_submissions(id)
                        + problem_occurrences(results@.take(i as int), id),
            decreases results.len() - i,
        {
            let (user_id, problem_id, is_solved) = results[i];
            let user_submissions = self.user_count(user_id);
            let problem_submissions = self.problem_count(problem_id);
            proof {
                lemma_occurrences_step(results@, i as int);
            }
            self.record(user_id, problem_id);
            attempts.push(
                Attempt { user_id, problem_id, is_solved, user_submissions, problem_submissions },
            );
            i = i + 1;
        }
        proof {
            assert(results@.take(results.len() as int) =~= results@);
        }
        attempts
    }
}

/// A contest can be counted exactly when no running count would pass
/// `i32::MAX`: for every result, the count of its user before the contest
/// plus the earlier results of that user in the contest stays below
/// `i32::MAX`, and so does the same sum for its problem. Nothing else, such
/// as earlier contests or the size of the contest, keeps a contest from
/// being counted.
pub proof fn lemma_can_count_iff_no_overflow(
    counts: SubmissionCounts,
    results: Seq<(i32, i32, bool)>,
)
    ensures
        counts.can_count(results) <==> forall|i: int|
            0 <= i < results.len() ==> #[trigger] counts.user_submissions(results[i].0)
                + user_occurrences(results.take(i), results[i].0) < i32::MAX
                && counts.problem_submissions(results[i].1) + problem_occurrences(
                results.take(i),
                results[i].1,
            ) < i32::MAX,
{
}

/// No results count nothing, and a single result counts once for its own
/// user and its own problem and for no other id. With the additivity of
/// counts below, this fixes the count of every id in every run of results.
pub proof fn lemma_occurrences_base(result: (i32, i32, bool), id: i32)
    ensures
        user_occurrences(Seq::empty(), id) == 0,
        problem_occurrences(Seq::empty(), id) == 0,
        user_occurrences(seq![result], id) == if result.0 == id {
            1int
        } else {
            0int
        },
        problem_occurrences(seq![result], id) == if result.1 == id {
            1int
        } else {
            0int
        },
{
    assert(seq![result].drop_last() =~= Seq::<(i32, i32, bool)>::empty());
}

/// Counts add up over contests: the count of an id in two runs of results,
/// one after the other, is the sum of its counts in each run.
pub proof fn lemma_occurrences_additive(
    first: Seq<(i32, i32, bool)>,
    second: Seq<(i32, i32, bool)>,
    id: i32,
)
    ensures
        user_occurrences(first + second, id) == user_occurrences(first, id) + user_occurrences(
            second,
            id,
        ),
        problem_occurrences(first + second, id) == problem_occurrences(first, id)
            + problem_occurrences(second, id),
    decreases second.len(),
{
    if second.len() > 0 {
        lemma_occurrences_additive(first, second.drop_last(), id);
        assert((first + second).drop_last() =~= first + second.drop_last());
    } else {
        assert(first + second =~= first);
    }
}

/// Planning two contests one after the other weighs every result of the
/// second exactly as planning all their results in one run would: before
/// result `i` of the second contest, an id has been counted as often as
/// before result `first.len() + i` of the joined run.
pub proof fn lemma_plan_in_two_runs(
    first: Seq<(i32, i32, bool)>,
    second: Seq<(i32, i32, bool)>,
    i: int,
    id: i32,
)
    requires
        0 <= i <= second.len(),
    ensures
        user_occurrences((first + second).take(first.len() + i), id) == user_occurrences(
            first,
            id,
        ) + user_occurrences(second.take(i), id),
        problem_occurrences((first + second).take(first.len() + i), id) == problem_occurrences(
            first,
            id,
        ) + problem_occurrences(second.take(i), id),
{
    assert((first + second).take(first.len() + i) =~= first + second.take(i));
    lemma_occurrences_additive(first, second.take(i), id);
}

/// Counting one more result adds one to the count of its user and of its
/// problem, and to no other.
proof fn lemma_occurrences_step(results: Seq<(i32, i32, bool)>, i: int)
    requires
        0 <= i < results.len(),
    ensures
        forall|id: i32| #[trigger]
            user_occurrences(results.take(i + 1), id) == user_occurrences(results.take(i), id)
                + if results[i].0 == id {
                1int
            } else {
                0int
            },
        forall|id: i32| #[trigger]
            problem_occurrences(results.take(i + 1), id) == problem_occurrences(
                results.take(i),
                id,
            ) + if results[i].1 == id {
                1int
            } else {
                0int
            },
{
    assert(results.take(i + 1).drop_last() =~= results.take(i));
}

} // verus!
