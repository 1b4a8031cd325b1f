use wordgames::spelling_bee::SpellingBee;

fn strings(words: &[&str]) -> Vec<String> {
    words.iter().map(|w| w.to_string()).collect()
}

#[test]
fn word_with_a_letter_outside_the_allowed_ones_is_excluded() {
    let bee = SpellingBee::new('o', "olfeinr");
    assert!(!bee.accepts("reinforce"));
    assert_eq!(bee.solve(&strings(&["reinforce"])), strings(&[]));
}

#[test]
fn long_word_of_allowed_letters_with_the_centre_is_included() {
    let bee = SpellingBee::new('o', "olfeinrg");
    assert!(bee.accepts("reoffering"));
    assert_eq!(bee.solve(&strings(&["reinforce", "reoffering"])), strings(&["reoffering"]));
    let bee = SpellingBee::new('o', "olfeinr");
    assert!(bee.accepts("feloniefier"));
    assert!(!bee.accepts("reoffering"));
}

#[test]
fn word_must_have_more_than_eight_letters() {
    let bee = SpellingBee::new('o', "on");
    assert!(!bee.accepts("onononon"));
    assert!(bee.accepts("ononononn"));
    assert!(!bee.accepts(""));
}

#[test]
fn word_must_use_the_centre_letter() {
    let bee = SpellingBee::new('o', "olfeinr");
    assert!(!bee.accepts("refinerieel"));
    assert!(bee.accepts("refinerieol"));
}

#[test]
fn centre_letter_must_be_allowed_too() {
    let bee = SpellingBee::new('o', "n");
    assert!(!bee.accepts("ononononn"));
}

#[test]
fn accepted_words_keep_the_order_of_the_list() {
    let bee = SpellingBee::new('o', "on");
    let dict = strings(&["nnnnnnnno", "short", "onnnnnnnn", "nnnnnnnnn", "nnnnnnnno"]);
    assert_eq!(bee.solve(&dict), strings(&["nnnnnnnno", "onnnnnnnn", "nnnnnnnno"]));
}
