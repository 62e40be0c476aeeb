use katas::generics::{longest_string, notify, Article, Book, Pair, Summarize, Tweet};

#[test]
fn test_pair_max() {
    let p = Pair::new(3, 9);
    assert_eq!(*p.max(), 9);
    let q = Pair::new(10, 2);
    assert_eq!(*q.max(), 10);
    let r = Pair::new(5, 5);
    assert_eq!(*r.max(), 5);
}

#[test]
fn test_article_summary() {
    let a = Article::new(
        "Verified Katas".to_string(),
        "A. Writer".to_string(),
        "body".to_string(),
    );
    assert_eq!(a.summary(), "Verified Katas by A. Writer");
}

#[test]
fn test_tweet_summary() {
    let t = Tweet::new("rustacean".to_string(), "so concurrent".to_string());
    assert_eq!(t.summary(), "@rustacean: so concurrent");
}

#[test]
fn test_notify() {
    let t = Tweet::new("u".to_string(), "m".to_string());
    assert_eq!(notify(&t), "Breaking news: @u: m");
}

#[test]
fn test_longest_string() {
    assert_eq!(longest_string("long enough", "short"), "long enough");
    assert_eq!(longest_string("tie", "pie"), "pie");
    assert_eq!(longest_string("", "x"), "x");
}

#[test]
fn test_book_longest_word() {
    let b = Book::new("title", "a frog leapt over");
    assert_eq!(b.longest_word(), Some("leapt"));
    let empty = Book::new("title", "");
    assert_eq!(empty.longest_word(), None);
    let spaces = Book::new("title", "   ");
    assert_eq!(spaces.longest_word(), None);
}
