use bad_games::dispatch::search_all_answers;
use bad_games::encode::word_to_int;
use bad_games::pool::{build_pool, build_reverse_map, find_group, insert_sorted};
use bad_games::search::{can_play, get_all_that_can_play, search_for_bad_games};

fn strings(ws: &[&str]) -> Vec<String> {
    ws.iter().map(|w| w.to_string()).collect()
}

fn alphabet_words() -> Vec<String> {
    (b'a'..=b'z').map(|c| (c as char).to_string()).collect()
}

#[test]
fn encode_sets_one_bit_per_letter() {
    assert_eq!(word_to_int(""), 0);
    assert_eq!(word_to_int("a"), 1);
    assert_eq!(word_to_int("b"), 2);
    assert_eq!(word_to_int("z"), 1 << 25);
    assert_eq!(word_to_int("abc"), 0b111);
    assert_eq!(word_to_int("abcdefghijklmnopqrstuvwxyz"), (1 << 26) - 1);
}

#[test]
fn encode_ignores_order_repetition_and_other_characters() {
    assert_eq!(word_to_int("hello"), word_to_int("leho"));
    assert_eq!(word_to_int("hello"), word_to_int("h-e'l l0o!"));
    assert_eq!(word_to_int("ABC"), 0);
    assert_eq!(word_to_int("aBc"), 0b101);
    assert_eq!(word_to_int("é9a"), 1);
}

#[test]
fn encode_is_stable_and_anagrams_collide() {
    assert_eq!(word_to_int("crane"), word_to_int("crane"));
    assert_eq!(word_to_int("act"), word_to_int("cat"));
    assert_eq!(word_to_int("act"), 0b101 | (1 << 19));
    assert_ne!(word_to_int("act"), word_to_int("acts"));
}

#[test]
fn can_play_requires_no_shared_letter() {
    assert!(can_play(0b010, 0b101));
    assert!(!can_play(0b011, 0b001));
    assert!(can_play(0, u32::MAX));
}

#[test]
fn playable_guesses_keep_their_order() {
    let guesses = vec![1, 2, 3, 4, 6, 8];
    assert_eq!(get_all_that_can_play(&guesses, 0b001), vec![2, 4, 6, 8]);
    assert_eq!(get_all_that_can_play(&guesses, 0), guesses);
    assert_eq!(get_all_that_can_play(&guesses, 0b1111), Vec::<u32>::new());
}

#[test]
fn insert_sorted_keeps_distinct_ascending() {
    let mut v = vec![2, 5, 9];
    insert_sorted(&mut v, 5);
    assert_eq!(v, vec![2, 5, 9]);
    insert_sorted(&mut v, 1);
    insert_sorted(&mut v, 7);
    insert_sorted(&mut v, 10);
    assert_eq!(v, vec![1, 2, 5, 7, 9, 10]);
}

#[test]
fn pool_is_distinct_masks_ascending() {
    let words = strings(&["cat", "act", "b", "aaaa", "tac", "zz"]);
    let pool = build_pool(&words);
    assert_eq!(pool, vec![1, 2, word_to_int("act"), 1 << 25]);
    assert_eq!(build_pool(&Vec::new()), Vec::<u32>::new());
}

#[test]
fn reverse_index_keeps_every_spelling() {
    let words = strings(&["act", "b", "cat", "tac", "zz", "z"]);
    let groups = build_reverse_map(&words);
    let masks: Vec<u32> = groups.iter().map(|g| g.mask).collect();
    assert_eq!(masks, vec![2, word_to_int("act"), 1 << 25]);
    assert_eq!(groups[0].words, strings(&["b"]));
    assert_eq!(groups[1].words, strings(&["act", "cat", "tac"]));
    assert_eq!(groups[2].words, strings(&["zz", "z"]));
    assert_eq!(find_group(&groups, word_to_int("cat")), Some(1));
    assert_eq!(find_group(&groups, 1 << 25), Some(2));
    assert_eq!(find_group(&groups, 2), Some(0));
    assert_eq!(find_group(&groups, 1), None);
    assert_eq!(find_group(&Vec::new(), 1), None);
}

#[test]
fn single_letters_pair_up_around_z() {
    let pool = build_pool(&alphabet_words());
    let answer = word_to_int("z");
    let chains = search_for_bad_games(&pool, answer, 2, true);
    assert_eq!(chains.len(), 25 * 24 / 2);
    for a in 0..25u32 {
        for b in (a + 1)..25u32 {
            assert!(chains.contains(&vec![1 << a, 1 << b]));
        }
    }
    for c in &chains {
        assert_eq!(c.len(), 2);
        assert_eq!(c[0] & answer, 0);
        assert_eq!(c[1] & answer, 0);
        assert_eq!(c[0] & c[1], 0);
        assert!(c[0] < c[1]);
    }
}

#[test]
fn full_alphabet_answer_has_no_bad_game() {
    let pool = build_pool(&alphabet_words());
    let answer = word_to_int("abcdefghijklmnopqrstuvwxyz");
    assert!(search_for_bad_games(&pool, answer, 2, true).is_empty());
    assert!(search_for_bad_games(&pool, answer, 1, false).is_empty());
}

#[test]
fn two_guesses_canonical_reports_one_order() {
    let pool = build_pool(&strings(&["bbbb", "cccc"]));
    let chains = search_for_bad_games(&pool, word_to_int("a"), 2, true);
    assert_eq!(chains, vec![vec![word_to_int("bbbb"), word_to_int("cccc")]]);
}

#[test]
fn two_guesses_unconstrained_reports_both_orders() {
    let pool = build_pool(&strings(&["bbbb", "cccc"]));
    let chains = search_for_bad_games(&pool, word_to_int("a"), 2, false);
    assert_eq!(chains.len(), 2);
    assert!(chains.contains(&vec![2, 4]));
    assert!(chains.contains(&vec![4, 2]));
}

#[test]
fn budget_beyond_free_letters_gives_nothing() {
    let pool = build_pool(&alphabet_words());
    let answer = word_to_int("abcdefghijklmnopqrstuvw");
    assert_eq!(search_for_bad_games(&pool, answer, 3, true), vec![vec![1 << 23, 1 << 24, 1 << 25]]);
    assert!(search_for_bad_games(&pool, answer, 4, true).is_empty());
    assert!(search_for_bad_games(&pool, answer, 4, false).is_empty());
}

#[test]
fn zero_budget_reports_the_empty_chain() {
    let pool = build_pool(&strings(&["ab", "cd"]));
    assert_eq!(search_for_bad_games(&pool, 0, 0, true), vec![Vec::<u32>::new()]);
}

#[test]
fn dead_end_prunes_shorter_chains() {
    let pool = build_pool(&strings(&["ab", "bc", "cd"]));
    let chains = search_for_bad_games(&pool, 0, 2, true);
    assert_eq!(chains, vec![vec![word_to_int("ab"), word_to_int("cd")]]);
    assert!(search_for_bad_games(&pool, 0, 3, true).is_empty());
}

#[test]
fn unconstrained_three_guesses_give_all_orders() {
    let pool = build_pool(&strings(&["b", "c", "d", "ab"]));
    let chains = search_for_bad_games(&pool, word_to_int("a"), 3, false);
    assert_eq!(chains.len(), 6);
    let canonical = search_for_bad_games(&pool, word_to_int("a"), 3, true);
    assert_eq!(canonical, vec![vec![2, 4, 8]]);
}

#[test]
fn parallel_search_matches_each_answer() {
    let pool = build_pool(&strings(&["bbbb", "cccc", "ad"]));
    let answers = vec![word_to_int("a"), word_to_int("b"), word_to_int("e")];
    let all = search_all_answers(&pool, &answers, 2, true);
    assert_eq!(all.len(), 3);
    for (i, a) in answers.iter().enumerate() {
        assert_eq!(all[i], search_for_bad_games(&pool, *a, 2, true));
    }
    assert_eq!(all[0], vec![vec![2, 4]]);
    assert_eq!(all[1], vec![vec![4, word_to_int("ad")]]);
    assert_eq!(all[2].len(), 3);
}

#[test]
fn repeated_runs_report_the_same_chains() {
    let words = strings(&["ab", "cd", "ef", "gh", "ac", "bd"]);
    let pool = build_pool(&words);
    let answers = vec![0, word_to_int("z"), word_to_int("a")];
    let first = search_all_answers(&pool, &answers, 2, false);
    let second = search_all_answers(&pool, &answers, 2, false);
    for i in 0..answers.len() {
        let mut x = first[i].clone();
        let mut y = second[i].clone();
        x.sort();
        y.sort();
        assert_eq!(x, y);
    }
}
