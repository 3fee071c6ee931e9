use chat_searcher::deserialization::{Message, TextEntity};
use chat_searcher::index::{lemmas_of_thread, ThreadIndex};
use chat_searcher::lemmatizer::Lemmatizer;
use chat_searcher::query::{QueryError, QueryLexError, QueryParseError, SearchQuery};
use chat_searcher::searcher::{
    check_messages, DeserializationError, MessageResult, Searcher, Text, ThreadSearchResult,
};
use chat_searcher::threads::{order_by_first, reconstruct_threads};
use std::sync::Arc;

fn message(id: usize, text: &str, date_unixtime: u32, reply: Option<usize>) -> Message {
    Message {
        id,
        text_entities: vec![TextEntity::Lemmatizable(text.to_string())],
        date_unixtime,
        reply_to_message_id: reply,
    }
}

fn dictionary() -> Arc<Lemmatizer> {
    Arc::new(Lemmatizer::from_table("привет\tприветы\tпривета\nкошка\tкошки\tкошку\n"))
}

fn plain(text: &str) -> Text {
    Text::Plain(text.to_string())
}

fn marked(text: &str) -> Text {
    Text::Highlight(text.to_string())
}

fn words(list: &[&str]) -> Vec<String> {
    list.iter().map(|word| word.to_string()).collect()
}

/// The first and last message of every result, in the order of the results.
fn ranges(searcher: &Searcher, results: &[ThreadSearchResult]) -> Vec<(usize, usize)> {
    results
        .iter()
        .map(|result| searcher.get_thread_messages(result.thread_id as usize))
        .collect()
}

fn three_messages() -> Searcher {
    Searcher::new(
        dictionary(),
        vec![
            message(0, "Доброе утро", 100, None),
            message(1, "И тебе привета!", 200, Some(0)),
            message(2, "Всем ПРИВЕТ", 300, None),
        ],
    )
    .unwrap()
}

fn chat() -> Searcher {
    Searcher::new(
        dictionary(),
        vec![
            message(0, "У меня есть кошка", 10, None),
            message(1, "А у меня собака", 20, None),
            message(2, "Люблю кошки!", 30, Some(1)),
            message(3, "Покажи кошку, привет", 40, Some(0)),
            message(4, "Привет всем", 50, None),
            message(5, "собака лает", 60, Some(2)),
            message(6, "тишина", 50, None),
        ],
    )
    .unwrap()
}

#[test]
fn scenario_three_messages() {
    let searcher = three_messages();
    assert_eq!(searcher.message_count(), 3);
    assert_eq!(searcher.thread_count(), 2);
    let results = searcher.find_threads("привет".to_string()).unwrap();
    assert_eq!(results.len(), 2);
    // the thread of message 2 is the more recent one
    assert_eq!(ranges(&searcher, &results), vec![(2, 2), (0, 1)]);
    assert_eq!(results[0].thread_id, 1);
    assert_eq!(results[1].thread_id, 0);
    assert_eq!(results[0].date_unixtime, 300);
    assert_eq!(results[0].title_text, "Всем ПРИВЕТ");
    assert_eq!(results[0].score, 0);
    assert_eq!(results[1].date_unixtime, 100);
    assert_eq!(results[1].title_text, "Доброе утро");
    assert_eq!(results[1].score, 0);
    assert_ne!(results[0].thread_id, results[1].thread_id);
}

#[test]
fn scenario_empty_range() {
    let searcher = three_messages();
    assert_eq!(searcher.get_message_range(5, 3, Vec::new()), Vec::<MessageResult>::new());
    assert_eq!(searcher.get_message_range(1, 0, words(&["привет"])), Vec::<MessageResult>::new());
}

#[test]
fn scenario_highlight() {
    let searcher = three_messages();
    assert_eq!(
        searcher.highlight_substrings("hello, world", &words(&["world"])),
        vec![plain("hello"), plain(","), plain(" "), marked("world")]
    );
}

#[test]
fn highlight_edge_cases() {
    let searcher = three_messages();
    let queries = words(&["привет", "world"]);
    assert_eq!(searcher.highlight_substrings("", &queries), Vec::<Text>::new());
    // a text that starts with a separator starts with an empty word
    assert_eq!(
        searcher.highlight_substrings(", a", &queries),
        vec![plain(""), plain(","), plain(" "), plain("a")]
    );
    assert_eq!(
        searcher.highlight_substrings("World!", &queries),
        vec![marked("World"), plain("!")]
    );
    assert_eq!(
        searcher.highlight_substrings("a  b", &queries),
        vec![plain("a"), plain(" "), plain(" "), plain("b")]
    );
    // the word is shown as written, and compared by its lemma
    assert_eq!(
        searcher.highlight_substrings("Приветы, мир", &queries),
        vec![marked("Приветы"), plain(","), plain(" "), plain("мир")]
    );
    assert_eq!(searcher.highlight_substrings("world", &[]), vec![plain("world")]);
    // short words are marked too when they are asked for
    assert_eq!(
        searcher.highlight_substrings("to be", &words(&["be"])),
        vec![plain("to"), plain(" "), marked("be")]
    );
}

#[test]
fn segments_that_are_not_split_stay_plain() {
    let searcher = three_messages();
    let text = vec![
        TextEntity::Lemmatizable("see world ".to_string()),
        TextEntity::Illemmatizable("http://world".to_string()),
        TextEntity::Lemmatizable("".to_string()),
        TextEntity::Illemmatizable("world".to_string()),
    ];
    assert_eq!(
        searcher.get_highlighted_text(&text, &words(&["world"])),
        vec![
            plain("see"),
            plain(" "),
            marked("world"),
            plain(" "),
            plain("http://world"),
            plain("world"),
        ]
    );
    assert_eq!(searcher.get_highlighted_text(&Vec::new(), &words(&["world"])), Vec::<Text>::new());
}

#[test]
fn query_words_are_lemmas_of_long_words() {
    let searcher = three_messages();
    assert_eq!(
        searcher.get_query_words("(Приветы | я) & кошку & the".to_string()),
        words(&["привет", "кошка"])
    );
    assert_eq!(searcher.get_query_words("".to_string()), Vec::<String>::new());
}

#[test]
fn message_range_shows_messages_with_replies() {
    let searcher = three_messages();
    let shown = searcher.get_message_range(0, 2, words(&["привет"]));
    assert_eq!(
        shown,
        vec![
            MessageResult {
                message_id: 0,
                text: vec![plain("Доброе"), plain(" "), plain("утро")],
                reply_to_text: None,
            },
            MessageResult {
                message_id: 1,
                text: vec![
                    plain("И"),
                    plain(" "),
                    plain("тебе"),
                    plain(" "),
                    marked("привета"),
                    plain("!"),
                ],
                reply_to_text: Some("Доброе утро".to_string()),
            },
            MessageResult {
                message_id: 2,
                text: vec![plain("Всем"), plain(" "), marked("ПРИВЕТ")],
                reply_to_text: None,
            },
        ]
    );
    let one = searcher.get_message_range(1, 1, Vec::new());
    assert_eq!(one.len(), 1);
    assert_eq!(one[0].message_id, 1);
}

#[test]
fn threads_follow_reply_chains() {
    let searcher = chat();
    assert_eq!(searcher.thread_count(), 4);
    // the threads are numbered in the order of their first messages
    let found: Vec<(usize, usize)> =
        (0..searcher.thread_count()).map(|t| searcher.get_thread_messages(t)).collect();
    assert_eq!(found, vec![(0, 3), (1, 5), (4, 4), (6, 6)]);
}

#[test]
fn word_query_finds_threads_by_lemma() {
    let searcher = chat();
    let results = searcher.find_threads("кошка".to_string()).unwrap();
    // newest first: the thread of message 1 (date 20), then that of message 0 (date 10)
    assert_eq!(ranges(&searcher, &results), vec![(1, 5), (0, 3)]);
    let results = searcher.find_threads("КОШКУ".to_string()).unwrap();
    assert_eq!(ranges(&searcher, &results), vec![(1, 5), (0, 3)]);
    let results = searcher.find_threads("слон".to_string()).unwrap();
    assert!(results.is_empty());
}

#[test]
fn and_query_intersects() {
    let searcher = chat();
    let results = searcher.find_threads("кошка & привет".to_string()).unwrap();
    assert_eq!(ranges(&searcher, &results), vec![(0, 3)]);
    let results = searcher.find_threads("кошка & собака".to_string()).unwrap();
    assert_eq!(ranges(&searcher, &results), vec![(1, 5)]);
    let results = searcher.find_threads("тишина & привет".to_string()).unwrap();
    assert!(results.is_empty());
}

#[test]
fn or_query_unites() {
    let searcher = chat();
    let results = searcher.find_threads("привет | собака".to_string()).unwrap();
    assert_eq!(ranges(&searcher, &results), vec![(4, 4), (1, 5), (0, 3)]);
    let results = searcher.find_threads("(тишина | привет) & (кошка | тишина)".to_string()).unwrap();
    assert_eq!(ranges(&searcher, &results), vec![(6, 6), (0, 3)]);
}

#[test]
fn equally_recent_threads_come_by_thread_number() {
    let searcher = chat();
    let results = searcher.find_threads("тишина | привет".to_string()).unwrap();
    assert_eq!(results.len(), 3);
    assert_eq!(results[0].date_unixtime, 50);
    assert_eq!(results[1].date_unixtime, 50);
    assert_eq!(results[0].thread_id, 2);
    assert_eq!(results[1].thread_id, 3);
    assert_eq!(results[2].date_unixtime, 10);
    assert_eq!(results[2].thread_id, 0);
}

#[test]
fn threads_of_a_parsed_query_are_ascending() {
    let searcher = chat();
    let cat = SearchQuery::Word("Кошки".to_string());
    let hello = SearchQuery::Word("привет".to_string());
    let by_cat = searcher.find_threads_by_query(&cat);
    let by_hello = searcher.find_threads_by_word("ПРИВЕТ");
    assert_eq!(by_cat.len(), 2);
    assert_eq!(by_hello.len(), 2);
    assert!(by_cat.windows(2).all(|pair| pair[0] < pair[1]));
    assert!(by_hello.windows(2).all(|pair| pair[0] < pair[1]));
    let both = searcher.find_threads_by_query(&SearchQuery::And((Box::new(cat), Box::new(hello))));
    assert_eq!(both.len(), 1);
    assert_eq!(searcher.get_thread_messages(both[0]), (0, 3));
    assert!(by_cat.contains(&both[0]) && by_hello.contains(&both[0]));
    let results = searcher.thread_results(&by_cat);
    assert_eq!(ranges(&searcher, &results), vec![(1, 5), (0, 3)]);
    assert_eq!(results[0].title_text(), "А у меня собака");
    assert_eq!(results[1].title_text(), "У меня есть кошка");
    assert_eq!(searcher.thread_results(&Vec::new()), Vec::<ThreadSearchResult>::new());
    let all: Vec<usize> = (0..searcher.thread_count()).collect();
    let dates: Vec<u32> =
        searcher.thread_results(&all).iter().map(|result| result.date_unixtime).collect();
    assert_eq!(dates, vec![50, 50, 20, 10]);
}

#[test]
fn shown_message_spells_its_text() {
    let searcher = three_messages();
    let shown = searcher.get_message_range(1, 1, words(&["привет"]));
    assert_eq!(shown[0].text(), "И тебе привета!");
    assert_eq!(shown[0].reply_to_text(), Some("Доброе утро".to_string()));
    assert_eq!(shown[0].text[4].as_str(), "привета");
    let shown = searcher.get_message_range(0, 0, Vec::new());
    assert_eq!(shown[0].text(), "Доброе утро");
    assert_eq!(shown[0].reply_to_text(), None);
}

#[test]
fn short_words_are_not_indexed() {
    let searcher = Searcher::new(dictionary(), vec![message(0, "the cat sat", 1, None)]).unwrap();
    assert!(searcher.find_threads("cat".to_string()).unwrap().is_empty());
    assert!(searcher.find_threads("the".to_string()).unwrap().is_empty());
    let searcher = Searcher::new(dictionary(), vec![message(0, "good cats", 1, None)]).unwrap();
    assert_eq!(searcher.find_threads("cats".to_string()).unwrap().len(), 1);
    assert_eq!(searcher.find_threads("GOOD".to_string()).unwrap().len(), 1);
}

#[test]
fn segments_that_are_not_split_are_not_indexed() {
    let messages = vec![Message {
        id: 0,
        text_entities: vec![
            TextEntity::Illemmatizable("hidden".to_string()),
            TextEntity::Lemmatizable("shown".to_string()),
        ],
        date_unixtime: 5,
        reply_to_message_id: None,
    }];
    let searcher = Searcher::new(dictionary(), messages).unwrap();
    assert!(searcher.find_threads("hidden".to_string()).unwrap().is_empty());
    let results = searcher.find_threads("shown".to_string()).unwrap();
    assert_eq!(results.len(), 1);
    assert_eq!(results[0].title_text, "hiddenshown");
    assert_eq!(results[0].date_unixtime, 5);
}

#[test]
fn query_errors_are_handed_on() {
    let searcher = three_messages();
    assert_eq!(searcher.find_threads("(привет".to_string()), Err(QueryError::Parse(QueryParseError::UnmatchedOpen)));
    assert_eq!(searcher.find_threads("привет)".to_string()), Err(QueryError::Parse(QueryParseError::UnmatchedClose)));
    assert_eq!(searcher.find_threads("".to_string()), Err(QueryError::Parse(QueryParseError::Empty)));
    assert_eq!(searcher.find_threads("& a".to_string()), Err(QueryError::Parse(QueryParseError::UnexpectedToken)));
    assert_eq!(
        searcher.find_threads("привет!".to_string()),
        Err(QueryError::Lex(QueryLexError { character: '!' }))
    );
}

#[test]
fn faulty_message_lists_are_refused() {
    assert_eq!(check_messages(&Vec::new()), Err(DeserializationError::NoMessages));
    assert!(matches!(
        Searcher::new(dictionary(), Vec::new()),
        Err(DeserializationError::NoMessages)
    ));
    let misnumbered = vec![message(0, "a", 1, None), message(2, "b", 2, None)];
    assert_eq!(
        check_messages(&misnumbered),
        Err(DeserializationError::MisnumberedMessage { position: 1 })
    );
    assert!(matches!(
        Searcher::new(dictionary(), misnumbered),
        Err(DeserializationError::MisnumberedMessage { position: 1 })
    ));
    let forward = vec![message(0, "a", 1, Some(1)), message(1, "b", 2, None)];
    assert_eq!(check_messages(&forward), Err(DeserializationError::ForwardReply { position: 0 }));
    let to_itself = vec![message(0, "a", 1, None), message(1, "b", 2, Some(1))];
    assert_eq!(check_messages(&to_itself), Err(DeserializationError::ForwardReply { position: 1 }));
    // the first faulty message decides
    let both = vec![message(0, "a", 1, Some(3)), message(5, "b", 2, None)];
    assert_eq!(check_messages(&both), Err(DeserializationError::ForwardReply { position: 0 }));
    assert_eq!(check_messages(&vec![message(0, "a", 1, None)]), Ok(()));
}

#[test]
fn reconstructed_threads_are_ascending() {
    let messages = vec![
        message(0, "", 0, None),
        message(1, "", 0, Some(0)),
        message(2, "", 0, None),
        message(3, "", 0, Some(1)),
        message(4, "", 0, Some(2)),
        message(5, "", 0, Some(0)),
    ];
    assert_eq!(reconstruct_threads(&messages), vec![vec![0, 1, 3, 5], vec![2, 4]]);
}

#[test]
fn groups_are_put_in_the_order_of_their_first_members() {
    let groups = vec![vec![4, 7], vec![0, 9], vec![2], vec![1, 3, 5]];
    assert_eq!(
        order_by_first(groups, 10),
        vec![vec![0, 9], vec![1, 3, 5], vec![2], vec![4, 7]]
    );
    assert_eq!(order_by_first(Vec::new(), 3), Vec::<Vec<usize>>::new());
}

#[test]
fn thread_lemmas_are_distinct_in_first_occurrence_order() {
    let lemmatizer = Lemmatizer::from_table("кошка\tкошки\tкошку\n");
    let messages = vec![
        message(0, "кошки и собаки", 0, None),
        message(1, "другое", 0, None),
        message(2, "Собаки, кошку! слоны", 0, Some(0)),
    ];
    assert_eq!(
        lemmas_of_thread(&lemmatizer, &messages, &vec![0, 2]),
        vec!["кошка", "собаки", "слоны"]
    );
    assert_eq!(lemmas_of_thread(&lemmatizer, &messages, &vec![1]), vec!["другое"]);
    assert_eq!(lemmas_of_thread(&lemmatizer, &messages, &Vec::new()), Vec::<String>::new());
}

#[test]
fn index_lists_threads_in_ascending_order() {
    let lists = vec![
        words(&["a", "b"]),
        words(&["b", "c", "b"]),
        words(&[]),
        words(&["a", "c"]),
    ];
    let index = ThreadIndex::build(&lists);
    assert_eq!(index.get("a"), vec![0, 3]);
    assert_eq!(index.get("b"), vec![0, 1]);
    assert_eq!(index.get("c"), vec![1, 3]);
    assert_eq!(index.get("d"), Vec::<usize>::new());
}

#[test]
fn searchers_share_a_dictionary() {
    let lemmatizer = dictionary();
    let first = Searcher::new(lemmatizer.clone(), vec![message(0, "приветы", 1, None)]).unwrap();
    let second = Searcher::new(lemmatizer, vec![message(0, "кошки", 1, None)]).unwrap();
    assert_eq!(first.find_threads("привет".to_string()).unwrap().len(), 1);
    assert_eq!(second.find_threads("привет".to_string()).unwrap().len(), 0);
    assert_eq!(second.find_threads("кошка".to_string()).unwrap().len(), 1);
}
