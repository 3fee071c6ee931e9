use chat_searcher::lemmatizer::Lemmatizer;
use chat_searcher::ranking::{is_newer, merge_ranked, rank, rank_range};
use chat_searcher::searcher::Searcher;

#[test]
fn more_recent_thread_is_ranked_higher() {
    assert!(is_newer((20, 5), (10, 1)));
    assert!(!is_newer((10, 1), (20, 5)));
    assert!(is_newer((10, 1), (10, 2)));
    assert!(!is_newer((10, 2), (10, 1)));
    assert!(!is_newer((10, 1), (10, 1)));
}

#[test]
fn ranking_sorts_by_date_then_number() {
    let list = vec![(5, 0), (9, 1), (5, 2), (1, 3), (9, 4), (7, 5), (5, 6)];
    assert_eq!(rank(&list), vec![(9, 1), (9, 4), (7, 5), (5, 0), (5, 2), (5, 6), (1, 3)]);
    assert_eq!(rank(&Vec::new()), Vec::<(u32, usize)>::new());
    assert_eq!(rank(&vec![(3, 7)]), vec![(3, 7)]);
    assert_eq!(rank(&vec![(1, 0), (2, 1)]), vec![(2, 1), (1, 0)]);
}

#[test]
fn ranking_a_part_of_a_list() {
    let list = vec![(5, 0), (9, 1), (5, 2), (1, 3), (9, 4)];
    assert_eq!(rank_range(&list, 1, 4), vec![(9, 1), (5, 2), (1, 3)]);
    assert_eq!(rank_range(&list, 2, 2), Vec::<(u32, usize)>::new());
}

#[test]
fn merging_ranked_lists() {
    let left = vec![(9, 1), (5, 0), (1, 3)];
    let right = vec![(9, 4), (7, 5), (5, 2)];
    assert_eq!(
        merge_ranked(&left, &right),
        vec![(9, 1), (9, 4), (7, 5), (5, 0), (5, 2), (1, 3)]
    );
    assert_eq!(merge_ranked(&left, &Vec::new()), left);
    assert_eq!(merge_ranked(&Vec::new(), &right), right);
}

#[test]
fn large_ranking_is_sorted() {
    let list: Vec<(u32, usize)> = (0..1000usize).map(|i| (((i * 7919) % 101) as u32, i)).collect();
    let ranked = rank(&list);
    assert_eq!(ranked.len(), list.len());
    assert!(ranked.windows(2).all(|pair| is_newer(pair[0], pair[1])));
    let mut expected = list.clone();
    expected.sort_by(|a, b| b.0.cmp(&a.0).then(a.1.cmp(&b.1)));
    assert_eq!(ranked, expected);
}

fn shared<T: Send + Sync>() {}

#[test]
fn searcher_can_be_shared_between_threads() {
    shared::<Searcher>();
    shared::<Lemmatizer>();
}
