use lib::longest_substring::find;

#[test]
fn repeated_pattern() {
    assert_eq!(find("abcabcbb".to_string()), 3);
}

#[test]
fn one_letter_repeated() {
    assert_eq!(find("bbbbb".to_string()), 1);
}

#[test]
fn window_in_the_middle() {
    assert_eq!(find("pwwkew".to_string()), 3);
}

#[test]
fn empty_string() {
    assert_eq!(find(String::new()), 0);
}

#[test]
fn window_restarts_after_old_duplicate() {
    assert_eq!(find("dvdf".to_string()), 3);
    assert_eq!(find("abba".to_string()), 2);
}

#[test]
fn all_distinct() {
    assert_eq!(find("abcdef".to_string()), 6);
}

#[test]
fn counts_characters_not_bytes() {
    assert_eq!(find("ééa".to_string()), 2);
    assert_eq!(find("日本語日".to_string()), 3);
}
