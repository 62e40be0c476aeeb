use katas::strings::{
    last_word, longest_word, normalize_and_capitalize, reverse_words, unique_chars,
};

#[test]
fn test_last_word() {
    assert_eq!(last_word("the quick brown fox"), "fox");
    assert_eq!(last_word("single"), "single");
    assert_eq!(last_word(""), "");
    assert_eq!(last_word("   "), "");
    assert_eq!(last_word("trailing spaces   "), "spaces");
}

#[test]
fn test_longest_word() {
    assert_eq!(longest_word("a bb ccc"), "ccc");
    assert_eq!(longest_word("one two six ten"), "ten");
    assert_eq!(longest_word(""), "");
}

#[test]
fn test_reverse_words() {
    assert_eq!(reverse_words("the quick brown fox"), "fox brown quick the");
    assert_eq!(reverse_words("  spaced   out  "), "out spaced");
    assert_eq!(reverse_words(""), "");
    assert_eq!(reverse_words("one"), "one");
}

#[test]
fn test_normalize_and_capitalize() {
    assert_eq!(normalize_and_capitalize("  hello   WORLD  "), "Hello World");
    assert_eq!(normalize_and_capitalize("rUsT iS fUn"), "Rust Is Fun");
    assert_eq!(normalize_and_capitalize(""), "");
}

#[test]
fn test_normalize_and_capitalize_cyrillic() {
    assert_eq!(normalize_and_capitalize("пРеВеД МеДвЕд"), "Превед Медвед");
}

#[test]
fn test_unique_chars() {
    assert!(unique_chars("abcdef"));
    assert!(!unique_chars("hello"));
    assert!(!unique_chars("Aa"));
    assert!(unique_chars(""));
    assert!(!unique_chars("abca"));
}
