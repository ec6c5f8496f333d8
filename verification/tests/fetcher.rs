use algoooo::fetcher::{contest_letters, number_to_letter, should_import_contest, should_store_submission};

#[test]
fn first_problems_get_single_letters() {
    assert_eq!(number_to_letter(0), "a");
    assert_eq!(number_to_letter(1), "b");
    assert_eq!(number_to_letter(25), "z");
}

#[test]
fn letters_continue_after_z() {
    assert_eq!(number_to_letter(26), "aa");
    assert_eq!(number_to_letter(27), "ab");
    assert_eq!(number_to_letter(51), "az");
    assert_eq!(number_to_letter(52), "ba");
    assert_eq!(number_to_letter(701), "zz");
    assert_eq!(number_to_letter(702), "aaa");
    assert_eq!(number_to_letter(18277), "zzz");
    assert_eq!(number_to_letter(18278), "aaaa");
}

#[test]
fn negative_numbers_have_no_letters() {
    assert_eq!(number_to_letter(-1), "");
    assert_eq!(number_to_letter(-26), "");
    assert_eq!(number_to_letter(isize::MIN), "");
}

#[test]
fn largest_number_gets_lowercase_letters() {
    let letters = number_to_letter(isize::MAX);
    assert!(!letters.is_empty());
    assert!(letters.chars().all(|c| c.is_ascii_lowercase()));
}

#[test]
fn contest_letters_in_order() {
    assert_eq!(contest_letters(0), Vec::<String>::new());
    assert_eq!(contest_letters(3), vec!["a".to_string(), "b".to_string(), "c".to_string()]);
    let many = contest_letters(30);
    assert_eq!(many.len(), 30);
    assert_eq!(many[25], "z");
    assert_eq!(many[26], "aa");
    assert_eq!(many[29], "ad");
}

#[test]
fn contest_letters_are_distinct() {
    let many = contest_letters(800);
    for i in 0..many.len() {
        assert_eq!(many[i], number_to_letter(i as isize));
        for j in (i + 1)..many.len() {
            assert_ne!(many[i], many[j]);
        }
    }
}

#[test]
fn only_new_individual_contests_are_imported() {
    assert!(should_import_contest(true, false));
    assert!(!should_import_contest(true, true));
    assert!(!should_import_contest(false, false));
    assert!(!should_import_contest(false, true));
}

#[test]
fn only_submissions_during_contest_on_known_problems_are_stored() {
    assert!(should_store_submission(true, true));
    assert!(!should_store_submission(true, false));
    assert!(!should_store_submission(false, true));
    assert!(!should_store_submission(false, false));
}
