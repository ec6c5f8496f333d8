//! Choices made while the contest table is rendered.

use vstd::prelude::*;

verus! {

/// The index of the contest with the most problems; among several with
/// that many, the last one.
pub open spec fn last_longest_index(lists: Seq<Vec<String>>) -> int
    decreases lists.len(),
{
    if lists.len() <= 1 {
        0
    } else {
        let best = last_longest_index(lists.drop_last());
        if lists.last().len() >= lists[best].len() {
            lists.len() - 1
        } else {
            best
        }
    }
}

/// Returns the letters that head the columns of the contest table: the
/// problem letters of the contest with the most problems (the last of
/// them on a tie), or none when there is no contest. `contests` holds,
/// for each contest, the letters of its problems in order.
pub fn problem_letters(contests: &Vec<Vec<String>>) -> (letters: Vec<String>)
    ensures
        contests.len() == 0 ==> letters@ == Seq::<String>::empty(),
        contests.len() > 0 ==> letters@ == contests@[last_longest_index(contests@)]@,
{
    if contests.len() == 0 {
        return Vec::new();
    }
    let mut best: usize = 0;
    let mut i: usize = 1;
    while i < contests.len()
        invariant
            1 <= i <= contests.len(),
            best == last_longest_index(contests@.take(i as int)),
            best < i,
        decreases contests.len() - i,
    {
        proof {
            assert(contests@.take(i + 1).drop_last() =~= contests@.take(i as int));
        }
        if contests[i].len() >= contests[best].len() {
            best = i;
        }
        i = i + 1;
    }
    proof {
        assert(contests@.take(contests.len() as int) =~= contests@);
    }
    let chosen = &contests[best];
    let mut letters: Vec<String> = Vec::new();
    let mut j: usize = 0;
    while j < chosen.len()
        invariant
            j <= chosen.len(),
            letters@ =~= chosen@.take(j as int),
        decreases chosen.len() - j,
    {
        letters.push(chosen[j].clone());
        j = j + 1;
    }
    proof {
        assert(chosen@.take(chosen.len() as int) =~= chosen@);
    }
    letters
}

/// The contest whose letters head the table has at least as many problems
/// as any other, and more than every contest after it.
pub proof fn lemma_last_longest(lists: Seq<Vec<String>>)
    requires
        lists.len() > 0,
    ensures
        0 <= last_longest_index(lists) < lists.len(),
        forall|j: int|
            0 <= j < lists.len() ==> (#[trigger] lists[j]).len() <= lists[last_longest_index(
                lists,
            )].len(),
        forall|j: int|
            last_longest_index(lists) < j < lists.len() ==> (#[trigger] lists[j]).len()
                < lists[last_longest_index(lists)].len(),
    decreases lists.len(),
{
    if lists.len() > 1 {
        lemma_last_longest(lists.drop_last());
        assert forall|j: int| 0 <= j < lists.len() - 1 implies #[trigger] lists[j] == lists.drop_last()[j] by {}
    }
}

} // verus!
