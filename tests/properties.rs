use seeborg::dictionary::Dictionary;
use seeborg::text::{split_sentences, split_words};
use std::collections::HashMap;

fn strings(v: &[&str]) -> Vec<String> {
    v.iter().map(|s| s.to_string()).collect()
}

fn index_of(d: &Dictionary) -> HashMap<String, Vec<usize>> {
    d.index_entries().into_iter().collect()
}

fn crab_dict() -> Dictionary {
    let mut d = Dictionary::from_parts(
        strings(&[
            "hey there everyone",
            "everyone is a crab",
            "crabs are great",
            "there are many crabs",
            "crabs",
        ]),
        vec![],
    )
    .unwrap();
    d.rebuild_indices();
    d
}

#[test]
fn split_sentences_keeps_dotted_tokens() {
    assert_eq!(
        vec!["Hi.", "This is a test.", "We.cant.split.this."],
        split_sentences("Hi. This is a test. We.cant.split.this.")
    );
}

#[test]
fn split_sentences_trims_and_drops_empty() {
    assert_eq!(vec!["a b.", "c  d"], split_sentences("  a b.   c  d \n"));
    assert_eq!(Vec::<String>::new(), split_sentences(""));
    assert_eq!(Vec::<String>::new(), split_sentences(" \t "));
    assert_eq!(vec!["why?!", "yes"], split_sentences("why?!\n\tyes"));
}

#[test]
fn split_words_edges() {
    assert_eq!(Vec::<String>::new(), split_words(""));
    assert_eq!(Vec::<String>::new(), split_words(",.!?: \n"));
    assert_eq!(vec!["a", "b", "c"], split_words("a:b,c"));
    assert_eq!(vec!["don't", "x-y"], split_words("don't x-y"));
}

#[test]
fn known_words_are_lowercased() {
    let mut d = Dictionary::new_empty();
    d.learn("hello world");
    assert_eq!(vec!["hello", "world"], d.known_words("HeLLo WORLD"));
}

#[test]
fn reset_then_rebuild() {
    let mut d = Dictionary::new_empty();
    d.learn("b one. a two.");
    d.reset_indices();
    assert!(d.needs_to_build_indices());
    assert_eq!(None, d.respond_with_draws("one", 0, 0, 0));
    d.rebuild_indices();
    assert_eq!(strings(&["a two.", "b one."]), d.sentences());
    assert_eq!(Some(&vec![1]), index_of(&d).get("one"));
}

#[test]
fn learn_lowercases_and_reports() {
    let mut d = Dictionary::new_empty();
    assert!(d.learn("HELLO there."));
    assert_eq!(strings(&["hello there."]), d.sentences());
    assert!(!d.learn("Hello THERE."));
    assert!(!d.learn(""));
    assert_eq!(1, d.sentences().len());
}

#[test]
fn learn_example_two() {
    let mut d = Dictionary::new_empty();
    d.learn("Hey there, everyone!");
    d.learn("How is everyone doing today?!");
    assert_eq!(
        strings(&["hey there, everyone!", "how is everyone doing today?!"]),
        d.sentences()
    );
    assert_eq!(Some(&vec![0, 1]), index_of(&d).get("everyone"));
}

#[test]
fn learn_same_text_twice() {
    let mut d = Dictionary::new_empty();
    assert!(d.learn("Same thing. Same thing."));
    assert_eq!(1, d.sentences().len());
    let before = index_of(&d);
    assert!(!d.learn("Same thing."));
    assert_eq!(1, d.sentences().len());
    assert_eq!(before, index_of(&d));
}

#[test]
fn repeated_word_listed_once() {
    let mut d = Dictionary::new_empty();
    d.learn("go go go");
    assert_eq!(Some(&vec![0]), index_of(&d).get("go"));
}

#[test]
fn rebuild_twice_same_as_once() {
    let mut d = Dictionary::new_empty();
    d.learn("Zebra time. apple pie! Banana split? apple Pie!");
    d.rebuild_indices();
    let sentences = d.sentences();
    let index = index_of(&d);
    assert_eq!(strings(&["apple pie!", "banana split?", "zebra time."]), sentences);
    d.rebuild_indices();
    assert_eq!(sentences, d.sentences());
    assert_eq!(index, index_of(&d));
}

#[test]
fn rebuild_sorts_by_lowercase_and_is_stable() {
    let mut d = Dictionary::from_parts(strings(&["b", "B", "a", "A"]), vec![]).unwrap();
    assert!(d.needs_to_build_indices());
    d.rebuild_indices();
    assert_eq!(strings(&["a", "A", "b", "B"]), d.sentences());
    assert!(!d.needs_to_build_indices());
    assert_eq!(Some(&vec![0, 1]), index_of(&d).get("a"));
}

#[test]
fn index_is_consistent_after_rebuild() {
    let d = crab_dict();
    for (w, ps) in d.index_entries() {
        for p in ps {
            assert!(split_words(&d.sentences()[p].to_lowercase()).contains(&w));
        }
    }
}

#[test]
fn parts_round_trip() {
    let d = crab_dict();
    let e = Dictionary::from_parts(d.sentences(), d.index_entries()).unwrap();
    assert_eq!(d.sentences(), e.sentences());
    assert_eq!(index_of(&d), index_of(&e));
    assert!(d.eq(&e));
}

#[test]
fn store_equality_ignores_entry_order() {
    let a = Dictionary::from_parts(
        strings(&["x y"]),
        vec![("x".to_string(), vec![0]), ("y".to_string(), vec![0])],
    )
    .unwrap();
    let b = Dictionary::from_parts(
        strings(&["x y"]),
        vec![("y".to_string(), vec![0]), ("x".to_string(), vec![0])],
    )
    .unwrap();
    let c = Dictionary::from_parts(strings(&["x y"]), vec![("x".to_string(), vec![0])]).unwrap();
    let d = Dictionary::from_parts(strings(&["y x"]), vec![("y".to_string(), vec![0]), ("x".to_string(), vec![0])])
        .unwrap();
    assert!(a.eq(&b));
    assert!(!a.eq(&c));
    assert!(!b.eq(&d));
}

#[test]
fn from_parts_rejects_bad_index() {
    assert!(Dictionary::from_parts(strings(&["a"]), vec![("a".to_string(), vec![1])]).is_none());
    assert!(Dictionary::from_parts(
        strings(&["a"]),
        vec![("a".to_string(), vec![0]), ("a".to_string(), vec![0])]
    )
    .is_none());
}

#[test]
fn respond_example_three() {
    let d = crab_dict();
    assert_eq!(
        Some("everyone".to_string()),
        d.respond_with_draws("Hey there everyone!", 2, 0, 1)
    );
    let mut learned = Dictionary::new_empty();
    learned.learn("hey there everyone. everyone is a crab");
    assert_eq!(strings(&["hey there everyone.", "everyone is a crab"]), learned.sentences());
    assert_eq!(
        Some("everyone".to_string()),
        learned.respond_with_draws("Hey there everyone!", 2, 1, 0)
    );
}

#[test]
fn respond_splices_two_sentences() {
    let d = crab_dict();
    assert_eq!(
        vec!["crabs", "crabs are great", "everyone is a crab", "hey there everyone", "there are many crabs"],
        d.sentences()
    );
    assert_eq!(
        Some("there are great".to_string()),
        d.respond_with_draws("are", 0, 1, 0)
    );
    assert_eq!(
        Some("hey there are many crabs".to_string()),
        d.respond_with_draws("there", 0, 0, 1)
    );
}

#[test]
fn respond_example_four() {
    let d = crab_dict();
    for a in [2u64, 5, 8] {
        assert_eq!(None, d.respond_with_draws("hey there crab people", a, 0, 1));
    }
}

#[test]
fn no_response_without_known_words() {
    let d = crab_dict();
    assert_eq!(None, d.respond_with_draws("nothing shared here", 5, 6, 7));
    assert_eq!(None, Dictionary::new_empty().respond_with_draws("crabs", 0, 0, 0));
}
