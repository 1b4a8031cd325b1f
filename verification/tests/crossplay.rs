use wordgames::crossplay::Crossplay;

fn strings(words: &[&str]) -> Vec<String> {
    words.iter().map(|w| w.to_string()).collect()
}

#[test]
fn free_letter_from_the_rack_is_accepted() {
    let game = Crossplay::new("art*", "c.t");
    assert!(game.accepts("cat"));
    assert_eq!(game.solve(&strings(&["cat"])), strings(&["cat"]));
}

#[test]
fn wildcard_stands_in_for_a_letter_the_rack_lacks() {
    let game = Crossplay::new("art*", "c.t");
    assert!(game.accepts("cut"));
    assert!(game.accepts("cot"));
    let game = Crossplay::new("art", "c.t");
    assert!(game.accepts("cat"));
    assert!(!game.accepts("cut"));
}

#[test]
fn fixed_letters_must_match() {
    let game = Crossplay::new("art*", "c.t");
    assert!(!game.accepts("bat"));
    assert!(!game.accepts("car"));
    assert!(!game.accepts("Cat"));
}

#[test]
fn word_must_have_the_length_of_the_pattern() {
    let game = Crossplay::new("art*", "c.t");
    assert!(!game.accepts("ct"));
    assert!(!game.accepts("cart"));
    assert!(!game.accepts(""));
    let game = Crossplay::new("art*", "");
    assert!(game.accepts(""));
    assert!(!game.accepts("a"));
}

#[test]
fn fixed_letters_need_no_rack() {
    let game = Crossplay::new("", "cat");
    assert!(game.accepts("cat"));
    assert!(!game.accepts("cot"));
}

#[test]
fn rack_letter_is_spent_once_per_use() {
    let game = Crossplay::new("a", "..");
    assert!(!game.accepts("aa"));
    let game = Crossplay::new("aa", "..");
    assert!(game.accepts("aa"));
    let game = Crossplay::new("ab", "..");
    assert!(game.accepts("ab"));
    assert!(game.accepts("ba"));
    assert!(!game.accepts("bb"));
}

#[test]
fn each_letter_short_takes_one_wildcard() {
    let game = Crossplay::new("a*", "...");
    assert!(game.accepts("abb"));
    assert!(!game.accepts("aba"));
    assert!(!game.accepts("abc"));
    let game = Crossplay::new("a**", "...");
    assert!(game.accepts("abc"));
    assert!(game.accepts("aba"));
    assert!(!game.accepts("bcd"));
}

#[test]
fn one_wildcard_covers_one_letter_however_often_it_is_short() {
    let game = Crossplay::new("*", "...");
    assert!(game.accepts("bbb"));
    assert!(!game.accepts("bbc"));
}

#[test]
fn wildcard_mark_in_a_word_is_not_supplied_by_the_rack() {
    let game = Crossplay::new("**", "..");
    assert!(game.accepts("a*"));
    let game = Crossplay::new("*", ".");
    assert!(game.accepts("*"));
    let game = Crossplay::new("a", "..");
    assert!(!game.accepts("a*"));
}

#[test]
fn matches_keep_the_order_of_the_list() {
    let game = Crossplay::new("art*", "c.t");
    let dict = strings(&["cut", "dog", "cat", "cart", "cot", "bat"]);
    assert_eq!(game.solve(&dict), strings(&["cut", "cat", "cot"]));
}
