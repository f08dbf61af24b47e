use bad_games::encode::word_to_int;
use bad_games::pool::build_reverse_map;
use bad_games::report::{display_mask, join_words, mask_binary, render_chain};

fn strings(ws: &[&str]) -> Vec<String> {
    ws.iter().map(|w| w.to_string()).collect()
}

#[test]
fn join_puts_separator_between_words() {
    assert_eq!(join_words(&strings(&["act", "cat", "tac"]), "/"), "act/cat/tac");
    assert_eq!(join_words(&strings(&["one"]), ", "), "one");
    assert_eq!(join_words(&Vec::new(), "/"), "");
}

#[test]
fn binary_literal_has_twenty_six_digits() {
    assert_eq!(mask_binary(0), "0".repeat(26));
    assert_eq!(mask_binary(1), format!("{}1", "0".repeat(25)));
    assert_eq!(mask_binary(1 << 25), format!("1{}", "0".repeat(25)));
    assert_eq!(mask_binary(0b101), format!("{:026b}", 0b101));
}

#[test]
fn display_uses_words_or_binary_fallback() {
    let groups = build_reverse_map(&strings(&["act", "cat", "dog"]));
    assert_eq!(display_mask(&groups, word_to_int("tac"), "/"), "act/cat");
    assert_eq!(display_mask(&groups, word_to_int("tac"), "_"), "act_cat");
    assert_eq!(display_mask(&groups, word_to_int("god"), "/"), "dog");
    assert_eq!(display_mask(&groups, 2, "/"), format!("{:026b}", 2));
}

#[test]
fn chain_record_format() {
    let answers = build_reverse_map(&strings(&["a"]));
    let guesses = build_reverse_map(&strings(&["bbbb", "cccc", "dd", "d"]));
    let chain = vec![word_to_int("bbbb"), word_to_int("cccc"), word_to_int("d")];
    assert_eq!(render_chain(&answers, &guesses, 1, &chain), "a -> bbbb, cccc, dd/d");
    let lone = render_chain(&answers, &guesses, 1 << 4, &vec![2]);
    assert_eq!(lone, format!("{:026b} -> bbbb", 1 << 4));
}
