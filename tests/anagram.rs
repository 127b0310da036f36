use anagram::{count, factorial, get_next, is_anagram, next_arrangement, occurences, LastArrangement};

#[test]
fn test_factorial() {
    assert_eq!(factorial(1), 1);
    assert_eq!(factorial(2 * 2), 24);
    assert_eq!(factorial(14), 87178291200);
    assert_eq!(factorial(12), 479001600);
}

#[test]
fn test_anagram_count() {
    assert_eq!(count("at"), 2);
    assert_eq!(count("ordeals"), 5040);
    assert_eq!(
        count("abcdefghijklmnopqrstuvwxyz"),
        403291461126605635584000000
    );
    assert_eq!(count("abcdefghijklmabcdefghijklm"), 49229914688306352000000);
    assert_eq!(count("abcdABCDabcd"), 29937600);
}

#[test]
fn test_is_anagram() {
    assert_eq!(is_anagram("hello", "olleh"), true);
    assert_eq!(is_anagram("hello", "ooo"), false);
    assert_eq!(is_anagram("helicopter", "copterheli"), true);
    assert_eq!(is_anagram("hacker", "hackes"), false);
}

#[test]
fn test_occurences() {
    assert_eq!(occurences("forxxorfxdofr", "for"), 3);
    assert_eq!(occurences("hellohelloleh", "hel"), 3);
    assert_eq!(occurences("oofooflolhi", "oo"), 2);
    assert_eq!(occurences("rustiscool", "st"), 1);
    assert_eq!(occurences("thegrandopeningscenerywasgreat", "grand"), 1);
    assert_eq!(occurences("anagrams", "smargana"), 1);
}

#[test]
fn test_get_next() {
    assert_eq!(get_next("abc"), "acb");
    assert_eq!(get_next("bac"), "bca");
    assert_eq!(get_next("aaa"), "aaa");
    assert_eq!(get_next("cba"), "abc");
    assert_eq!(get_next("218765"), "251678");
    assert_eq!(get_next("1234"), "1243");
    assert_eq!(get_next("4321"), "1234");
    assert_eq!(get_next("534976"), "536479");
}

#[test]
fn factorial_edges() {
    assert_eq!(factorial(0), 1);
    assert_eq!(factorial(34), 295232799039604140847618609643520000000);
}

#[test]
fn count_divides_by_factorials_of_repeats() {
    assert_eq!(count("aaab"), 4);
    assert_eq!(count("aaabbc"), 60);
    assert_eq!(count("aaaa"), 1);
}

#[test]
fn count_short_words() {
    assert_eq!(count(""), 1);
    assert_eq!(count("x"), 1);
}

#[test]
fn count_distinct_is_factorial() {
    assert_eq!(count("abcdefghij"), factorial(10));
}

#[test]
fn count_ignores_order() {
    assert_eq!(count("ordeals"), count("slaedro"));
    assert_eq!(count("aaabbc"), count("cbabaa"));
}

#[test]
fn occurences_empty_pattern() {
    assert_eq!(occurences("abc", ""), 4);
    assert_eq!(occurences("", ""), 1);
}

#[test]
fn occurences_pattern_longer_than_word() {
    assert_eq!(occurences("ab", "abc"), 0);
    assert_eq!(occurences("", "a"), 0);
}

#[test]
fn occurences_pattern_order_irrelevant() {
    assert_eq!(occurences("forxxorfxdofr", "rof"), 3);
    assert_eq!(occurences("forxxorfxdofr", "ofr"), 3);
}

#[test]
fn occurences_whole_word() {
    assert_eq!(occurences("abc", "cab"), 1);
    assert_eq!(occurences("aaaa", "aa"), 3);
}

#[test]
fn is_anagram_documented_cases() {
    assert!(is_anagram("rustiscool", "oolcsistru"));
    assert!(is_anagram("", ""));
    assert!(is_anagram("word", "word"));
    assert_eq!(is_anagram("ab", "abc"), false);
}

#[test]
fn is_anagram_symmetric() {
    assert_eq!(is_anagram("hacker", "hackes"), is_anagram("hackes", "hacker"));
    assert_eq!(is_anagram("hello", "olleh"), is_anagram("olleh", "hello"));
}

#[test]
fn is_anagram_checksum_collision() {
    assert!(is_anagram("bb", "ac"));
}

#[test]
fn next_arrangement_unchanged_at_last() {
    assert_eq!(next_arrangement("cba", LastArrangement::Unchanged), "cba");
    assert_eq!(next_arrangement("abc", LastArrangement::Unchanged), "acb");
    assert_eq!(next_arrangement("cba", LastArrangement::WrapAround), "abc");
}

#[test]
fn get_next_empty_and_single() {
    assert_eq!(get_next(""), "");
    assert_eq!(get_next("z"), "z");
}

#[test]
fn get_next_repeated_characters() {
    assert_eq!(get_next("abca"), "acab");
    assert_eq!(get_next("aabb"), "abab");
    assert_eq!(get_next("bbaa"), "aabb");
}

#[test]
fn get_next_cycles_through_every_arrangement() {
    let start = String::from("aabc");
    let mut word = start.clone();
    let mut seen: Vec<String> = Vec::new();
    for _ in 0..count(&start) {
        assert!(!seen.contains(&word));
        seen.push(word.clone());
        let next = get_next(&word);
        if next != start {
            assert!(next > word);
        }
        word = next;
    }
    assert_eq!(word, start);
    assert_eq!(seen.len(), 12);
}
