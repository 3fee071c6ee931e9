use chat_searcher::chars::{same_text, to_chars};
use chat_searcher::lemmatizer::Lemmatizer;
use chat_searcher::text::{contains_text, lemma_of_word, lemmas_of_text, take_word};

#[test]
fn characters_of_a_string() {
    assert_eq!(to_chars("aб1"), vec!['a', 'б', '1']);
    assert_eq!(to_chars(""), Vec::<char>::new());
}

#[test]
fn strings_compare_by_their_characters() {
    assert!(same_text("abc", "abc"));
    assert!(!same_text("abc", "abd"));
    assert!(!same_text("abc", "ab"));
    assert!(same_text("", ""));
}

#[test]
fn word_is_a_run_of_alphanumeric_characters() {
    let chars = to_chars("ab1, cd");
    assert_eq!(take_word(&chars, 0), ("ab1".to_string(), 3));
    assert_eq!(take_word(&chars, 1), ("b1".to_string(), 3));
    assert_eq!(take_word(&chars, 3), (String::new(), 3));
    assert_eq!(take_word(&chars, 5), ("cd".to_string(), 7));
    assert_eq!(take_word(&chars, 7), (String::new(), 7));
}

#[test]
fn word_is_looked_up_by_its_lowercase_form() {
    let lemmatizer = Lemmatizer::from_table("кот\tкоты\n");
    assert_eq!(lemma_of_word(&lemmatizer, "КОТЫ"), "кот");
    assert_eq!(lemma_of_word(&lemmatizer, "Коты"), "кот");
    assert_eq!(lemma_of_word(&lemmatizer, "Собака"), "собака");
}

#[test]
fn short_words_are_left_out() {
    let lemmatizer = Lemmatizer::default();
    // three bytes or less are left out, four bytes count
    assert_eq!(
        lemmas_of_text(&lemmatizer, "a an the that я да"),
        vec!["that".to_string(), "да".to_string()]
    );
}

#[test]
fn words_are_split_at_any_other_character() {
    let lemmatizer = Lemmatizer::default();
    assert_eq!(
        lemmas_of_text(&lemmatizer, "Hello,world!!  foo_bar2000 (test)"),
        vec!["hello", "world", "bar2000", "test"]
    );
    assert_eq!(lemmas_of_text(&lemmatizer, ""), Vec::<String>::new());
    assert_eq!(lemmas_of_text(&lemmatizer, " ,;"), Vec::<String>::new());
}

#[test]
fn words_are_lemmatized_and_repeated_as_they_occur() {
    let lemmatizer = Lemmatizer::from_table("идти\tшёл\tшла\n");
    assert_eq!(
        lemmas_of_text(&lemmatizer, "Она шла, он ШЁЛ; я шла"),
        vec!["она", "идти", "он", "идти", "идти"]
    );
}

#[test]
fn list_membership() {
    let list = vec!["one".to_string(), "two".to_string()];
    assert!(contains_text(&list, "one"));
    assert!(contains_text(&list, "two"));
    assert!(!contains_text(&list, "three"));
    assert!(!contains_text(&[], "one"));
}
