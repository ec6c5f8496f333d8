//! Naming and filtering while contests are imported.

use vstd::prelude::*;

verus! {

/// The lowercase alphabet, in order; letter `d` stands for digit `d`.
pub open spec fn alphabet() -> Seq<char> {
    seq!['a', 'b', 'c', 'd', 'e', 'f', 'g', 'h', 'i', 'j', 'k', 'l', 'm',
         'n', 'o', 'p', 'q', 'r', 's', 't', 'u', 'v', 'w', 'x', 'y', 'z']
}

/// The letters of problem number `n` (counted from 0): `a`..`z`, then
/// `aa`..`az`, `ba`.., that is `n + 1` written in bijective base 26.
/// A negative number has no letters.
pub open spec fn letters_of(n: int) -> Seq<char>
    decreases n + 1,
{
    if n < 0 {
        seq![]
    } else {
        letters_of(n / 26 - 1).push(alphabet()[n % 26])
    }
}

/// Returns the letters that name problem number `n` of a contest.
pub fn number_to_letter(n: isize) -> (letters: String)
    ensures
        letters@ == letters_of(n as int),
{
    let alphabet_str = "abcdefghijklmnopqrstuvwxyz";
    proof {
        reveal_strlit("abcdefghijklmnopqrstuvwxyz");
        assert(alphabet_str@ =~= alphabet());
    }
    let mut result = String::new();
    let mut m: isize = n;
    while m >= 0
        invariant
            m <= n,
            alphabet_str@ == alphabet(),
            alphabet_str.is_ascii(),
            letters_of(n as int) == letters_of(m as int) + result@,
        decreases m + 1,
    {
        let d: usize = (m % 26) as usize;
        let piece = alphabet_str.substring_ascii(d, d + 1);
        let mut next = piece.to_owned();
        next.append(result.as_str());
        proof {
            assert(piece@ =~= seq![alphabet()[m as int % 26]]);
            assert(letters_of(m as int) == letters_of(m as int / 26 - 1).push(alphabet()[m as int % 26]));
            assert(letters_of(m as int) + result@ =~= letters_of(m as int / 26 - 1) + next@);
        }
        result = next;
        m = m / 26 - 1;
    }
    result
}

/// The number that a word of lowercase letters stands for in bijective
/// base 26, with `a` as 1 and `z` as 26.
pub open spec fn letters_value(s: Seq<char>) -> int
    decreases s.len(),
{
    if s.len() == 0 {
        0
    } else {
        letters_value(s.drop_last()) * 26 + (s.last() as int - 96)
    }
}

/// Reading the letters of problem `n` back gives `n + 1`.
pub proof fn lemma_letters_value(n: int)
    requires
        n >= 0,
    ensures
        letters_value(letters_of(n)) == n + 1,
    decreases n,
{
    let rest = n / 26 - 1;
    let s = letters_of(n);
    assert(s.drop_last() =~= letters_of(rest));
    assert(s.last() == alphabet()[n % 26]);
    assert(alphabet()[n % 26] as int == 97 + n % 26);
    if rest >= 0 {
        lemma_letters_value(rest);
    } else {
        assert(letters_value(s.drop_last()) == 0);
    }
    assert(letters_value(s) == letters_value(s.drop_last()) * 26 + (s.last() as int - 96));
    assert(n == (n / 26) * 26 + n % 26);
}

/// Two problems of a contest never share their letters: distinct
/// non-negative numbers are named by distinct words.
pub proof fn lemma_letters_injective(a: int, b: int)
    requires
        a >= 0,
        b >= 0,
        letters_of(a) == letters_of(b),
    ensures
        a == b,
{
    lemma_letters_value(a);
    lemma_letters_value(b);
}

/// The name of a problem is a non-empty word of lowercase letters; a
/// negative number gets the empty word.
pub proof fn lemma_letters_shape(n: int)
    ensures
        n >= 0 <==> letters_of(n).len() > 0,
        forall|i: int| 0 <= i < letters_of(n).len() ==> 'a' <= #[trigger] letters_of(n)[i] <= 'z',
    decreases n + 1,
{
    if n >= 0 {
        lemma_letters_shape(n / 26 - 1);
        let s = letters_of(n);
        assert forall|i: int| 0 <= i < s.len() implies 'a' <= #[trigger] s[i] <= 'z' by {
            if i < s.len() - 1 {
                assert(s[i] == letters_of(n / 26 - 1)[i]);
            }
        }
    }
}

/// Returns the letters of the problems of a contest with `count` problems,
/// in the order in which the judge lists them: problem `i` gets
/// `number_to_letter(i)`, and no two problems share their letters.
pub fn contest_letters(count: usize) -> (letters: Vec<String>)
    requires
        count <= isize::MAX as usize + 1,
    ensures
        letters.len() == count,
        forall|i: int| 0 <= i < count ==> (#[trigger] letters[i])@ == letters_of(i),
        forall|i: int, j: int|
            0 <= i < count && 0 <= j < count && i != j ==> (#[trigger] letters[i])@
                != (#[trigger] letters[j])@,
{
    let mut letters: Vec<String> = Vec::new();
    let mut index: usize = 0;
    while index < count
        invariant
            index <= count,
            count <= isize::MAX as usize + 1,
            letters.len() == index,
            forall|i: int| 0 <= i < index ==> (#[trigger] letters[i])@ == letters_of(i),
        decreases count - index,
    {
        letters.push(number_to_letter(index as isize));
        index = index + 1;
    }
    proof {
        assert forall|i: int, j: int|
            0 <= i < count && 0 <= j < count && i != j implies (#[trigger] letters[i])@
                != (#[trigger] letters[j])@ by {
            if letters[i]@ == letters[j]@ {
                lemma_letters_injective(i, j);
            }
        }
    }
    letters
}

/// Whether a contest that the judge lists is imported: only individual
/// contests, and only those that are not stored yet.
pub fn should_import_contest(individual: bool, already_stored: bool) -> (import: bool)
    ensures
        import == (individual && !already_stored),
{
    individual && !already_stored
}

/// Whether a submission of an imported contest is stored: only one made
/// while the contest ran, on a problem that is stored.
pub fn should_store_submission(during_contest: bool, problem_known: bool) -> (store: bool)
    ensures
        store == (during_contest && problem_known),
{
    during_contest && problem_known
}

} // verus!
