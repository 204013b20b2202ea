use prefix_scores::Solution;

fn run(words: &[&str]) -> Vec<i32> {
    Solution::sum_prefix_scores(words.iter().map(|w| w.to_string()).collect())
}

#[test]
fn empty_collection() {
    assert_eq!(run(&[]), Vec::<i32>::new());
}

#[test]
fn single_letter() {
    assert_eq!(run(&["a"]), vec![1]);
}

#[test]
fn duplicate_single_letter() {
    assert_eq!(run(&["a", "a"]), vec![2, 2]);
}

#[test]
fn single_word_scores_its_length() {
    assert_eq!(run(&["hello"]), vec![5]);
}

#[test]
fn empty_word() {
    assert_eq!(run(&[""]), vec![0]);
}

#[test]
fn empty_word_beside_letter() {
    assert_eq!(run(&["", "a"]), vec![0, 1]);
}

#[test]
fn two_words_sharing_one_letter() {
    assert_eq!(run(&["aa", "ab"]), vec![3, 3]);
}

#[test]
fn shared_two_letter_prefix() {
    assert_eq!(run(&["abc", "abd"]), vec![5, 5]);
}

#[test]
fn four_words() {
    assert_eq!(run(&["abc", "ab", "bc", "b"]), vec![5, 4, 3, 2]);
}

#[test]
fn output_length_matches_input_length() {
    let words = ["ab", "cd", "cde", "", "x", "cd"];
    assert_eq!(run(&words).len(), words.len());
}

#[test]
fn repeated_query_scores_alike() {
    // The same word queried before and after another word scores the same.
    let r = run(&["xy", "ab", "xy"]);
    assert_eq!(r[0], r[2]);
    assert_eq!(r, vec![4, 2, 4]);
}

#[test]
fn scoring_twice_gives_the_same_result() {
    let words = ["abc", "ab", "bc", "b"];
    assert_eq!(run(&words), run(&words));
}

#[test]
fn inserting_more_words_never_lowers_a_score() {
    let alone = run(&["ab"]);
    let with_more = run(&["ab", "abc", "ad"]);
    assert_eq!(alone[0], 2);
    assert!(with_more[0] >= alone[0]);
    assert_eq!(with_more, vec![5, 6, 4]);
}

#[test]
fn swapping_entries_moves_only_their_scores() {
    let r = run(&["abc", "ab", "bc", "b"]);
    let swapped = run(&["abc", "b", "bc", "ab"]);
    assert_eq!(swapped[0], r[0]);
    assert_eq!(swapped[2], r[2]);
    assert_eq!(swapped[1], r[3]);
    assert_eq!(swapped[3], r[1]);
}
