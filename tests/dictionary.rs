use rand::rngs::mock::StepRng;
use rand::RngCore;
use seeborg::dictionary::Dictionary;
use seeborg::index::{insert_word_into_indices, Indices};
use seeborg::respond::{get_words_left_of_pivot, get_words_right_of_pivot_inclusive, RandomSource};
use seeborg::text::{split_sentences, split_words};
use std::collections::HashMap;

struct Step(StepRng);

impl RandomSource for Step {
    fn next_u64(&mut self) -> u64 {
        self.0.next_u64()
    }
}

fn step(initial: u64, increment: u64) -> Step {
    Step(StepRng::new(initial, increment))
}

fn strings(v: &[&str]) -> Vec<String> {
    v.iter().map(|s| s.to_string()).collect()
}

fn entries(pairs: &[(&str, &[usize])]) -> Vec<(String, Vec<usize>)> {
    pairs.iter().map(|(w, ps)| (w.to_string(), ps.to_vec())).collect()
}

fn as_map(e: Vec<(String, Vec<usize>)>) -> HashMap<String, Vec<usize>> {
    e.into_iter().collect()
}

fn map_of(pairs: &[(&str, &[usize])]) -> HashMap<String, Vec<usize>> {
    as_map(entries(pairs))
}

fn dict(sentences: &[&str], index: &[(&str, &[usize])]) -> Dictionary {
    Dictionary::from_parts(strings(sentences), entries(index)).unwrap()
}

#[test]
fn test_split_sentences() {
    assert_eq!(
        vec![
            "Hi.",
            "This sentence is going to be split.",
            "We.cant.split.things.that.look.like.urls.",
            "That's a single sentence.",
            "Lol!",
            "A single sentence!!!!",
            "Look at this image: https://imgur.com/gallery/PXSNky0"
        ],
        split_sentences(
            "Hi. This sentence is going to be split. \
            We.cant.split.things.that.look.like.urls. That's a single sentence. \
            Lol! A single sentence!!!! Look at this image: https://imgur.com/gallery/PXSNky0"
        ),
    );
}

#[test]
fn test_dictionary_rebuild_indices() {
    let mut d = dict(
        &["this is a test.", "this is is not a trick!", "hello world!"],
        &[],
    );
    d.rebuild_indices();
    assert_eq!(
        vec![
            "hello world!".to_string(),
            "this is a test.".to_string(),
            "this is is not a trick!".to_string(),
        ],
        d.sentences()
    );
    assert_eq!(
        map_of(&[
            ("this", &[1, 2]),
            ("is", &[1, 2]),
            ("a", &[1, 2]),
            ("test", &[1]),
            ("not", &[2]),
            ("trick", &[2]),
            ("hello", &[0]),
            ("world", &[0]),
        ]),
        as_map(d.index_entries())
    );
}

#[test]
fn test_split_words() {
    assert_eq!(
        vec!["Hello", "world", "This", "is", "a", "test", "I", "am", "a", "test"],
        split_words("...Hello world!!!!This is a test? I.am.a.test.")
    );
}

#[test]
fn test_needs_to_build_indices() {
    assert!(dict(&["hello world"], &[]).needs_to_build_indices());
    assert!(!dict(&["hello world"], &[("hello", &[0]), ("world", &[0])]).needs_to_build_indices());
    assert!(!dict(&[], &[]).needs_to_build_indices());
}

#[test]
fn test_knows_sentence() {
    let d = dict(
        &["hello world", "i am a little teapot.", "my name is foo...", "short and stout"],
        &[
            ("hello", &[0]),
            ("world", &[0]),
            ("i", &[1]),
            ("am", &[1]),
            ("a", &[1]),
            ("little", &[1]),
            ("teapot", &[1]),
            ("my", &[2]),
            ("name", &[2]),
            ("is", &[2]),
            ("foo", &[2]),
            ("short", &[3]),
            ("and", &[3]),
            ("stout", &[3]),
        ],
    );
    assert!(d.knows_sentence(&"my name is foo...".to_string()));
    assert!(d.knows_sentence(&"i am a little teapot.".to_string()));
    assert!(d.knows_sentence(&"short and stout".to_string()));
    assert!(!d.knows_sentence(&"i shouldn't know this".to_string()));
    assert!(!d.knows_sentence(&"".to_string()));
    assert!(!d.knows_sentence(&"0".to_string()));
    assert!(!d.knows_sentence(&"a".to_string()));
}

#[test]
fn test_knows_word() {
    let d = dict(
        &["and i am a little teapot", "my name is josh and i am a little teapot"],
        &[
            ("and", &[0, 1]),
            ("i", &[0, 1]),
            ("am", &[0, 1]),
            ("a", &[0, 1]),
            ("little", &[0, 1]),
            ("teapot", &[0, 1]),
            ("my", &[1]),
            ("name", &[1]),
            ("is", &[1]),
            ("josh", &[1]),
        ],
    );
    assert!(d.knows_word("and"));
    assert!(d.knows_word("teapot"));
    assert!(d.knows_word("josh"));
    assert!(!d.knows_word("rat"));
    assert!(!d.knows_word("dog"));
    assert!(!d.knows_word(" "));
    assert!(!d.knows_word(""));
}

#[test]
fn test_insert_word_into_indices() {
    let mut indices = Indices::from_entries(entries(&[("joy", &[1, 2])])).unwrap();
    insert_word_into_indices(&mut indices, "john", 10);
    assert_eq!(map_of(&[("joy", &[1, 2]), ("john", &[10])]), as_map(indices.entries()));
    insert_word_into_indices(&mut indices, "john", 20);
    assert_eq!(map_of(&[("joy", &[1, 2]), ("john", &[10, 20])]), as_map(indices.entries()));
    insert_word_into_indices(&mut indices, "joy", 1);
    assert_eq!(map_of(&[("joy", &[1, 2]), ("john", &[10, 20])]), as_map(indices.entries()));
    insert_word_into_indices(&mut indices, "joy", 6);
    assert_eq!(map_of(&[("joy", &[1, 2, 6]), ("john", &[10, 20])]), as_map(indices.entries()));
}

#[test]
fn test_learn() {
    let mut d = dict(&[], &[]);
    d.learn("Hey there, everyone!");
    assert_eq!(strings(&["hey there, everyone!"]), d.sentences());
    assert_eq!(
        map_of(&[("hey", &[0]), ("there", &[0]), ("everyone", &[0])]),
        as_map(d.index_entries())
    );
    d.learn("How is everyone doing today?!");
    assert_eq!(
        strings(&["hey there, everyone!", "how is everyone doing today?!"]),
        d.sentences()
    );
    assert_eq!(
        map_of(&[
            ("hey", &[0]),
            ("there", &[0]),
            ("everyone", &[0, 1]),
            ("how", &[1]),
            ("is", &[1]),
            ("doing", &[1]),
            ("today", &[1]),
        ]),
        as_map(d.index_entries())
    );
    d.learn("I've been doing fine today, what about you?");
    assert_eq!(
        strings(&[
            "hey there, everyone!",
            "how is everyone doing today?!",
            "i've been doing fine today, what about you?"
        ]),
        d.sentences()
    );
    assert_eq!(
        map_of(&[
            ("hey", &[0]),
            ("there", &[0]),
            ("everyone", &[0, 1]),
            ("how", &[1]),
            ("is", &[1]),
            ("doing", &[1, 2]),
            ("today", &[1, 2]),
            ("i've", &[2]),
            ("been", &[2]),
            ("fine", &[2]),
            ("what", &[2]),
            ("about", &[2]),
            ("you", &[2]),
        ]),
        as_map(d.index_entries())
    );
}

fn crab_dict() -> Dictionary {
    dict(
        &[
            "hey there everyone",
            "everyone is a crab",
            "crabs are great",
            "there are many crabs",
            "crabs",
        ],
        &[
            ("hey", &[0]),
            ("there", &[0, 3]),
            ("everyone", &[0, 1]),
            ("is", &[1]),
            ("a", &[1]),
            ("crab", &[1]),
            ("crabs", &[2, 3, 4]),
            ("are", &[2, 3]),
            ("great", &[3]),
            ("many", &[3]),
        ],
    )
}

#[test]
fn test_respond() {
    let d = crab_dict();
    assert_eq!(
        Some("everyone".to_string()),
        d.respond_to("Hey there everyone!", &mut step(2, 1))
    );
    assert_eq!(
        Some("hey there everyone".to_string()),
        d.respond_to("Hey there everyone!", &mut step(8, 10))
    );
    assert_eq!(None, d.respond_to("hey there crab people", &mut step(2, 7)));
    assert_eq!(
        Some("crabs".to_string()),
        d.respond_to("hey there crabs people", &mut step(2, 7))
    );
}

#[test]
fn test_known_words() {
    let d = dict(
        &["hello world!", "i love pizza."],
        &[("hello", &[0]), ("world", &[0]), ("i", &[1]), ("love", &[1]), ("pizza", &[1])],
    );
    let empty: Vec<&str> = vec![];
    assert_eq!(vec!["i", "love", "pizza"], d.known_words("I Love Pizza"));
    assert_eq!(vec!["i", "pizza"], d.known_words("I Hate Pizza!"));
    assert_eq!(vec!["i", "love"], d.known_words("I Love You"));
    assert_eq!(empty, d.known_words("foo likes cake"));
    assert_eq!(empty, d.known_words("pizzacake"));
}

#[test]
fn test_sentences_with_word() {
    let d = dict(
        &["hello world!", "i love pizza.", "pizza is like, cool"],
        &[
            ("hello", &[0]),
            ("world", &[0]),
            ("i", &[1]),
            ("love", &[1]),
            ("pizza", &[1, 2]),
            ("is", &[2]),
            ("like", &[2]),
            ("cool", &[2]),
        ],
    );
    let empty: Vec<&str> = vec![];
    assert_eq!(vec!["i love pizza.", "pizza is like, cool"], d.sentences_with_word("pizza"));
    assert_eq!(vec!["i love pizza."], d.sentences_with_word("love"));
    assert_eq!(empty, d.sentences_with_word("nonexisting"));
    assert_eq!(empty, d.sentences_with_word("luve"));
    assert_eq!(empty, d.sentences_with_word(""));
}

#[test]
fn test_get_words_left_of_pivot() {
    assert_eq!(
        Some(strings(&["this", "is", "a"])),
        get_words_left_of_pivot("this is a test yeah this is a test", "test")
    );
    assert_eq!(Some(Vec::<String>::new()), get_words_left_of_pivot("this", "this"));
    assert_eq!(Some(Vec::<String>::new()), get_words_left_of_pivot("this this", "this"));
    assert_eq!(None, get_words_left_of_pivot("i am a little teapot", "fox"));
    assert_eq!(None, get_words_left_of_pivot("abc def ghi jkl", "abc def"));
}

#[test]
fn test_get_words_right_of_pivot_inclusive() {
    assert_eq!(
        Some(strings(&["test", "yeah", "this", "is", "a", "test"])),
        get_words_right_of_pivot_inclusive("this is a test yeah this is a test", "test")
    );
    assert_eq!(Some(strings(&["this"])), get_words_right_of_pivot_inclusive("this", "this"));
    assert_eq!(
        Some(strings(&["this", "this"])),
        get_words_right_of_pivot_inclusive("this this", "this")
    );
    assert_eq!(None, get_words_left_of_pivot("i am a little teapot", "fox"));
    assert_eq!(None, get_words_right_of_pivot_inclusive("abc def ghi jkl", "abc def"));
}
