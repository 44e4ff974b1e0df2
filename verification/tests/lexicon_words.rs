use word_game::AllowedWords;
use word_game::ValidWords;

#[test]
fn scenario_cat_dog() {
    let mut lexicon = AllowedWords::new("cat".to_string());
    lexicon.add("dog".to_string());

    assert_eq!(lexicon.size(), 2);
    assert!(lexicon.contains("cat".to_string()));
    assert!(lexicon.contains("dog".to_string()));
    assert!(!lexicon.contains("fish".to_string()));
}

#[test]
fn duplicates_are_kept_and_counted() {
    let mut lexicon = AllowedWords::new("cat".to_string());
    lexicon.add("cat".to_string());
    lexicon.add("cat".to_string());

    assert_eq!(lexicon.size(), 3);
    assert!(lexicon.contains("cat".to_string()));
}

#[test]
fn membership_is_exact_match() {
    let lexicon = AllowedWords::new("cat".to_string());

    assert!(!lexicon.contains("ca".to_string()));
    assert!(!lexicon.contains("cats".to_string()));
    assert!(!lexicon.contains("Cat".to_string()));
    assert!(!lexicon.contains("".to_string()));
}
