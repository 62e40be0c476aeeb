use katas::frequencies::{
    filter_and_sort_names, group_students_by_grade, top_k_most_common_letters, word_frequencies,
};

#[test]
fn test_word_frequencies() {
    let r = word_frequencies("the quick the lazy the quick fox");
    assert_eq!(
        r,
        vec![
            ("the".to_string(), 3),
            ("quick".to_string(), 2),
            ("fox".to_string(), 1),
            ("lazy".to_string(), 1),
        ]
    );
}

#[test]
fn test_word_frequencies_case_insensitive() {
    let r = word_frequencies("The THE the");
    assert_eq!(r, vec![("the".to_string(), 3)]);
}

#[test]
fn test_word_frequencies_empty() {
    assert_eq!(word_frequencies("   "), Vec::new());
}

#[test]
fn test_top_k_most_common_letters() {
    let r = top_k_most_common_letters("Hello", 2);
    assert_eq!(r, vec![('l', 2), ('e', 1)]);
}

#[test]
fn test_top_k_letters_ignores_punctuation() {
    let r = top_k_most_common_letters("a.a!b 7", 5);
    assert_eq!(r, vec![('a', 2), ('b', 1)]);
}

#[test]
fn test_top_k_letters_alphabetical_ties() {
    let r = top_k_most_common_letters("badc", 3);
    assert_eq!(r, vec![('a', 1), ('b', 1), ('c', 1)]);
}

#[test]
fn test_filter_and_sort_names() {
    let names = vec![
        "bernard".to_string(),
        "Al".to_string(),
        "celia".to_string(),
        "Bo".to_string(),
    ];
    let r = filter_and_sort_names(names, 3);
    assert_eq!(r, vec!["bernard".to_string(), "celia".to_string()]);
}

#[test]
fn test_filter_and_sort_names_case_insensitive_order() {
    let names = vec!["Delta".to_string(), "apple".to_string(), "Charlie".to_string()];
    let r = filter_and_sort_names(names, 1);
    assert_eq!(
        r,
        vec!["apple".to_string(), "Charlie".to_string(), "Delta".to_string()]
    );
}

#[test]
fn test_group_students_by_grade() {
    let students = vec![
        ("zoe".to_string(), 2),
        ("Amy".to_string(), 1),
        ("bea".to_string(), 2),
        ("cal".to_string(), 1),
    ];
    let m = group_students_by_grade(students);
    assert_eq!(m.len(), 2);
    assert_eq!(m[&1], vec!["Amy".to_string(), "cal".to_string()]);
    assert_eq!(m[&2], vec!["bea".to_string(), "zoe".to_string()]);
    assert!(m.get(&3).is_none());
}
