use dom::parse::rest_of;
use dom::string_map::StringMap;
use dom::text::{at, contains_word, from_chars, same_chars, skip, to_chars, trimmed, CharClass};

#[test]
fn chars_and_back() {
    let v = to_chars("aé日 x");
    assert_eq!(v, vec!['a', 'é', '日', ' ', 'x']);
    assert_eq!(from_chars(&v, 1, 3), "é日");
    assert_eq!(from_chars(&v, 2, 2), "");
    assert_eq!(from_chars(&v, 0, 5), "aé日 x");
    assert_eq!(rest_of("aé日 x", 2), "日 x");
    assert_eq!(rest_of("aé日 x", 5), "");
}

#[test]
fn classes() {
    assert!(CharClass::Letter.contains('a'));
    assert!(CharClass::Letter.contains('Z'));
    assert!(CharClass::Letter.contains('é'));
    assert!(CharClass::Letter.contains('日'));
    assert!(!CharClass::Letter.contains('1'));
    assert!(!CharClass::Letter.contains('<'));
    assert!(!CharClass::Letter.contains('_'));
    assert!(!CharClass::Letter.contains(' '));
    assert!(CharClass::Space.contains(' '));
    assert!(CharClass::Space.contains('\n'));
    assert!(CharClass::Space.contains('\u{b}'));
    assert!(CharClass::Space.contains('\u{a0}'));
    assert!(!CharClass::Space.contains('a'));
    assert!(!CharClass::Space.contains('\u{1c}'));
    assert!(CharClass::NonSpace.contains('a'));
    assert!(!CharClass::NonSpace.contains('\t'));
    assert!(CharClass::Except('"').contains('a'));
    assert!(!CharClass::Except('"').contains('"'));
}

#[test]
fn skipping_and_looking() {
    let v = to_chars("abc  d");
    assert_eq!(skip(&v, 0, CharClass::Letter), 3);
    assert_eq!(skip(&v, 3, CharClass::Letter), 3);
    assert_eq!(skip(&v, 3, CharClass::Space), 5);
    assert_eq!(skip(&v, 5, CharClass::NonSpace), 6);
    assert_eq!(skip(&v, 6, CharClass::Letter), 6);
    assert_eq!(skip(&v, 0, CharClass::Except('d')), 5);
    assert!(at(&v, 5, 'd'));
    assert!(!at(&v, 5, 'e'));
    assert!(!at(&v, 6, 'd'));
    assert!(same_chars(&v, 0, 3, &['a', 'b', 'c']));
    assert!(!same_chars(&v, 0, 3, &['a', 'b']));
    assert!(!same_chars(&v, 0, 3, &['a', 'b', 'd']));
}

#[test]
fn trimming() {
    assert_eq!(trimmed(&to_chars("  a b \n")), "a b");
    assert_eq!(trimmed(&to_chars("a")), "a");
    assert_eq!(trimmed(&to_chars(" \t\n")), "");
    assert_eq!(trimmed(&to_chars("")), "");
    assert_eq!(trimmed(&to_chars("\u{2003}x\u{2003}")), "x");
}

#[test]
fn words() {
    assert!(contains_word("inline bold", "bold"));
    assert!(contains_word("inline bold", "inline"));
    assert!(!contains_word("inline bold", "inline bold"));
    assert!(!contains_word("inline bold", "in"));
    assert!(!contains_word("inline bold", ""));
    assert!(!contains_word("", ""));
    assert!(!contains_word("   ", ""));
    assert!(contains_word("  a  ", "a"));
    assert!(contains_word("a", "a"));
    assert!(!contains_word("ab", "a"));
    assert!(!contains_word("ab", "b"));
}

#[test]
fn string_maps() {
    let mut map: StringMap<u32> = StringMap::new();
    assert_eq!(map.len(), 0);
    assert_eq!(map.get("a"), None);
    map.insert("a".to_string(), 1);
    map.insert("b".to_string(), 2);
    map.insert("a".to_string(), 3);
    assert_eq!(map.len(), 2);
    assert_eq!(map.get("a"), Some(&3));
    assert_eq!(map.get("b"), Some(&2));
    assert_eq!(map.get("c"), None);
    assert_eq!(map.position("b"), Some(1));
    assert_eq!(map.position("c"), None);
    assert_eq!(map.key(0), "a");
    assert_eq!(map.value(0), &3);
    assert_eq!(map.key(1), "b");
    let copy = map.clone();
    assert_eq!(copy.len(), 2);
    assert_eq!(copy.get("a"), Some(&3));
}
