use chat_searcher::lemmatizer::{DictionaryLoadError, Lemmatizer};
use flate2::write::GzEncoder;
use flate2::Compression;
use std::io::Write;

fn gzip(data: &[u8]) -> Vec<u8> {
    let mut encoder = GzEncoder::new(Vec::new(), Compression::default());
    encoder.write_all(data).unwrap();
    encoder.finish().unwrap()
}

const TABLE: &str = "идти\tшёл\tшла\tидут\nкот\tкота\tкоты\n\nбежать\tбежит\n";

#[test]
fn form_maps_to_its_lemma() {
    let lemmatizer = Lemmatizer::from_table(TABLE);
    assert_eq!(lemmatizer.lemmatize("шёл"), "идти");
    assert_eq!(lemmatizer.lemmatize("шла"), "идти");
    assert_eq!(lemmatizer.lemmatize("идут"), "идти");
    assert_eq!(lemmatizer.lemmatize("кота"), "кот");
    assert_eq!(lemmatizer.lemmatize("коты"), "кот");
    assert_eq!(lemmatizer.lemmatize("бежит"), "бежать");
}

#[test]
fn unknown_word_is_its_own_lemma() {
    let lemmatizer = Lemmatizer::from_table(TABLE);
    assert_eq!(lemmatizer.lemmatize("собака"), "собака");
    assert_eq!(lemmatizer.lemmatize(""), "");
    assert_eq!(lemmatizer.lemmatize("hello"), "hello");
}

#[test]
fn lemma_is_no_entry_unless_listed_as_a_form() {
    let lemmatizer = Lemmatizer::from_table("be\tis\tare\nis\tisses\n");
    assert_eq!(lemmatizer.lemmatize("is"), "be");
    assert_eq!(lemmatizer.lemmatize("be"), "be");
    assert_eq!(lemmatizer.lemmatize("isses"), "is");
}

#[test]
fn lookup_is_exact() {
    let lemmatizer = Lemmatizer::from_table("кот\tкота\n");
    assert_eq!(lemmatizer.lemmatize("Кота"), "Кота");
    assert_eq!(lemmatizer.lemmatize("кота "), "кота ");
}

#[test]
fn later_line_wins() {
    let lemmatizer = Lemmatizer::from_table("a\tx\nb\tx\n");
    assert_eq!(lemmatizer.lemmatize("x"), "b");
}

#[test]
fn last_line_needs_no_line_feed() {
    let lemmatizer = Lemmatizer::from_table("a\tx\nb\ty");
    assert_eq!(lemmatizer.lemmatize("x"), "a");
    assert_eq!(lemmatizer.lemmatize("y"), "b");
}

#[test]
fn line_without_forms_adds_nothing() {
    let lemmatizer = Lemmatizer::from_table("alone\n\n\nb\ty\n");
    assert_eq!(lemmatizer.lemmatize("alone"), "alone");
    assert_eq!(lemmatizer.lemmatize(""), "");
    assert_eq!(lemmatizer.lemmatize("y"), "b");
}

#[test]
fn empty_field_is_a_form() {
    let lemmatizer = Lemmatizer::from_table("a\t\tx\n");
    assert_eq!(lemmatizer.lemmatize(""), "a");
    assert_eq!(lemmatizer.lemmatize("x"), "a");
}

#[test]
fn empty_table_gives_empty_dictionary() {
    let lemmatizer = Lemmatizer::from_table("");
    assert_eq!(lemmatizer.lemmatize("word"), "word");
}

#[test]
fn default_dictionary_is_empty() {
    let lemmatizer = Lemmatizer::default();
    assert_eq!(lemmatizer.lemmatize("шёл"), "шёл");
}

#[test]
fn loads_a_compressed_table() {
    let raw = gzip(TABLE.as_bytes());
    assert_ne!(raw.as_slice(), TABLE.as_bytes());
    let lemmatizer = Lemmatizer::new(&raw).unwrap();
    assert_eq!(lemmatizer.lemmatize("шёл"), "идти");
    assert_eq!(lemmatizer.lemmatize("коты"), "кот");
    assert_eq!(lemmatizer.lemmatize("собака"), "собака");
}

#[test]
fn uncompressed_data_is_refused() {
    assert!(matches!(
        Lemmatizer::new(TABLE.as_bytes()),
        Err(DictionaryLoadError::Decompression)
    ));
    assert!(matches!(Lemmatizer::new(&[]), Err(DictionaryLoadError::Decompression)));
}

#[test]
fn damaged_stream_is_refused() {
    let mut raw = gzip(TABLE.as_bytes());
    raw.truncate(raw.len() / 2);
    assert!(matches!(Lemmatizer::new(&raw), Err(DictionaryLoadError::Decompression)));
}

#[test]
fn compressed_data_that_is_not_text_is_refused() {
    let raw = gzip(&[0xff, 0xfe, 0x00, 0xc0]);
    assert!(matches!(Lemmatizer::new(&raw), Err(DictionaryLoadError::Decompression)));
}
