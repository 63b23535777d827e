use artha_core::categorization::{tokenize, CategorizationMemory, TokenBinding};

#[test]
fn tokens_are_lowercase_words_longer_than_two_bytes() {
    assert_eq!(tokenize("UPI/Swiggy-Order #42 at BLR"), vec!["upi", "swiggy", "order", "blr"]);
    assert_eq!(tokenize("a bb ccc"), vec!["ccc"]);
    assert_eq!(tokenize(""), Vec::<String>::new());
    assert_eq!(tokenize("--- ///"), Vec::<String>::new());
    assert_eq!(tokenize("Caf\u{e9} \u{e9}1 xy"), vec!["caf\u{e9}", "\u{e9}1"]);
}

#[test]
fn tokenization_is_repeatable() {
    let text = "AMAZON Pay * Groceries 2026";
    assert_eq!(tokenize(text), tokenize(text));
}

#[test]
fn suggestion_is_first_bound_token() {
    let mut memory = CategorizationMemory::new();
    assert_eq!(memory.suggest("Swiggy order"), None);
    memory.learn("order", "Shopping");
    memory.learn("swiggy", "Dining");
    assert_eq!(memory.suggest("Swiggy order"), Some("Dining".to_string()));
    assert_eq!(memory.suggest("order from swiggy"), Some("Shopping".to_string()));
    assert_eq!(memory.suggest("unknown words only"), None);
}

#[test]
fn learning_makes_the_category_the_suggestion() {
    let mut memory = CategorizationMemory::new();
    memory.learn("Swiggy order", "Dining");
    assert_eq!(memory.suggest("Swiggy order"), Some("Dining".to_string()));
    memory.learn("Swiggy order", "Takeaway");
    assert_eq!(memory.suggest("Swiggy order"), Some("Takeaway".to_string()));
    assert_eq!(memory.suggest("SWIGGY"), Some("Takeaway".to_string()));
}

#[test]
fn hit_counts_grow_with_every_reinforcement() {
    let mut memory = CategorizationMemory::new();
    assert_eq!(memory.hit_count("swiggy"), 0);
    memory.learn("Swiggy order", "Dining");
    assert_eq!(memory.hit_count("swiggy"), 1);
    memory.learn("swiggy swiggy", "Takeaway");
    assert_eq!(memory.hit_count("swiggy"), 3);
    assert_eq!(memory.hit_count("order"), 1);
    assert_eq!(memory.len(), 2);
}

#[test]
fn load_keeps_the_later_of_two_entries() {
    let rows = vec![
        TokenBinding { token: "rent".to_string(), category: "Housing".to_string(), hit_count: 4 },
        TokenBinding { token: "cafe".to_string(), category: "Dining".to_string(), hit_count: 0 },
        TokenBinding { token: "rent".to_string(), category: "Home".to_string(), hit_count: 9 },
    ];
    let memory = CategorizationMemory::load(rows);
    assert_eq!(memory.len(), 2);
    assert_eq!(memory.suggest("Rent for May"), Some("Home".to_string()));
    assert_eq!(memory.hit_count("rent"), 9);
    assert_eq!(memory.hit_count("cafe"), 1);
}

#[test]
fn a_lowercase_form_may_hold_a_combining_mark() {
    assert!('\u{130}'.is_alphanumeric());
    assert!(!'\u{307}'.is_alphanumeric());
    assert_eq!(tokenize("\u{130}\u{130}"), vec!["i\u{307}i\u{307}"]);
}

#[test]
fn length_is_measured_after_lowercasing() {
    assert_eq!("\u{212A}1".len(), 4);
    assert_eq!(tokenize("\u{212A}1"), Vec::<String>::new());
    assert_eq!(tokenize("\u{212A}12"), vec!["k12"]);
}

#[test]
fn tokens_are_their_own_lowercase_form() {
    for token in tokenize("NEFT-HDFC0001234 Amazon Pay India PVT ltd \u{3a3}\u{391}\u{3a3} 2026") {
        assert_eq!(token.to_lowercase(), token);
        assert!(token.len() > 2);
        assert!(token.chars().all(|c| c.is_alphanumeric()));
    }
}
