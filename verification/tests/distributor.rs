use rubx::distributor::{gather, join_partials, Pool, TextFile};
use rubx::rux_debug::MessageErr;
use rubx::rux_texts::{
    text_files_find, text_files_find_any, work_through, worker_count, workers_for,
};

fn texts(items: &[&str]) -> Vec<String> {
    items.iter().map(|item| String::from(*item)).collect()
}

fn readable(path: &str, lines: &[&str]) -> TextFile {
    TextFile { path: String::from(path), read: Ok(lines.concat()) }
}

fn unreadable(path: &str, reason: &str) -> TextFile {
    TextFile { path: String::from(path), read: Err(Box::new(MessageErr::new(reason))) }
}

#[test]
fn search_many_fails_when_one_file_is_unreadable() {
    let files = vec![
        readable("A", &["alpha\n"]),
        unreadable("B", "B cannot be read"),
        readable("C", &["alpha\n"]),
    ];
    let found = text_files_find_any(files, texts(&["alpha"]));
    assert_eq!(found, Err(Box::new(MessageErr::new("B cannot be read"))));
}

#[test]
fn search_many_fails_with_the_failure_met_first() {
    let files = vec![
        unreadable("A", "A cannot be read"),
        readable("B", &["alpha\n"]),
        unreadable("C", "C cannot be read"),
        readable("D", &["alpha\n"]),
    ];
    let found = text_files_find_any(files, texts(&["alpha"]));
    assert_eq!(found, Err(Box::new(MessageErr::new("C cannot be read"))));
}

#[test]
fn search_many_without_a_match_gives_no_list() {
    let files = vec![readable("A", &["alpha\n"]), readable("B", &[]), readable("C", &["beta\n"])];
    assert_eq!(text_files_find_any(files, texts(&["gamma"])), Ok(None));
    assert_eq!(text_files_find_any(vec![], texts(&["gamma"])), Ok(None));
    assert_eq!(text_files_find(vec![readable("A", &["a"])], String::from("b")), Ok(None));
}

#[test]
fn search_many_reports_the_last_file_first() {
    let files = vec![
        readable("A", &["alpha\n", "beta alpha\n"]),
        readable("B", &["nothing\n"]),
        readable("C", &["an alpha\n"]),
    ];
    let found = text_files_find_any(files, texts(&["alpha"]));
    assert_eq!(
        found,
        Ok(Some(texts(&[
            "(C)[1,3,3,5]an alpha",
            "(A)[1,0,0,5]alpha",
            "(A)[2,5,11,5]beta alpha",
        ])))
    );
}

#[test]
fn search_many_for_one_pattern_is_search_for_a_list_of_one() {
    let files = vec![readable("A", &["alpha\n"]), readable("B", &["beta\n"])];
    let found = text_files_find(files, String::from("a"));
    assert_eq!(found, Ok(Some(texts(&["(B)[1,3,3,1]beta", "(A)[1,0,0,1]alpha"]))));
}

#[test]
fn pool_hands_each_item_out_once_last_in_first_out() {
    let mut pool = Pool::new(texts(&["a", "b", "c"]));
    assert_eq!(pool.len(), 3);
    assert_eq!(pool.take(), Some(String::from("c")));
    assert_eq!(pool.take(), Some(String::from("b")));
    assert_eq!(pool.len(), 1);
    assert_eq!(pool.take(), Some(String::from("a")));
    assert_eq!(pool.take(), None);
    assert_eq!(pool.take(), None);
    assert_eq!(pool.len(), 0);
}

#[test]
fn worker_drains_the_pool() {
    let mut pool = Pool::new(vec![readable("A", &["x\n"]), readable("B", &["y x\n"])]);
    let outcome = work_through(&mut pool, &texts(&["x"]));
    assert_eq!(outcome, Ok(Some(texts(&["(B)[1,2,2,1]y x", "(A)[1,0,0,1]x"]))));
    assert_eq!(pool.len(), 0);
    let outcome = work_through(&mut pool, &texts(&["x"]));
    assert_eq!(outcome, Ok(None));
}

#[test]
fn worker_stops_at_an_unreadable_file() {
    let mut pool = Pool::new(vec![
        readable("A", &["x\n"]),
        unreadable("B", "B cannot be read"),
        readable("C", &["x\n"]),
    ]);
    let outcome = work_through(&mut pool, &texts(&["x"]));
    assert_eq!(outcome, Err(Box::new(MessageErr::new("B cannot be read"))));
    assert_eq!(pool.len(), 1);
    let outcome = work_through(&mut pool, &texts(&["x"]));
    assert_eq!(outcome, Ok(Some(texts(&["(A)[1,0,0,1]x"]))));
}

#[test]
fn gather_appends_what_was_found() {
    let mut partial: Option<Vec<String>> = None;
    gather(&mut partial, None);
    assert_eq!(partial, None);
    gather(&mut partial, Some(texts(&["a", "b"])));
    assert_eq!(partial, Some(texts(&["a", "b"])));
    gather(&mut partial, None);
    assert_eq!(partial, Some(texts(&["a", "b"])));
    gather(&mut partial, Some(texts(&["c"])));
    assert_eq!(partial, Some(texts(&["a", "b", "c"])));
    let mut empty: Option<Vec<String>> = None;
    gather(&mut empty, Some(vec![]));
    assert_eq!(empty, Some(vec![]));
}

#[test]
fn join_merges_in_the_order_of_the_workers() {
    let joined = join_partials(vec![
        Ok(Some(texts(&["one", "two"]))),
        Ok(None),
        Ok(Some(texts(&["three"]))),
        Ok(None),
    ]);
    assert_eq!(joined, Ok(Some(texts(&["one", "two", "three"]))));
    assert_eq!(join_partials(vec![Ok(None), Ok(None)]), Ok(None));
    assert_eq!(join_partials(vec![]), Ok(None));
}

#[test]
fn join_fails_with_the_first_failure_and_drops_the_rest() {
    let joined = join_partials(vec![
        Ok(Some(texts(&["one"]))),
        Err(Box::new(MessageErr::new("second worker"))),
        Ok(Some(texts(&["three"]))),
        Err(Box::new(MessageErr::new("fourth worker"))),
    ]);
    assert_eq!(joined, Err(Box::new(MessageErr::new("second worker"))));
}

#[test]
fn there_is_at_least_one_worker() {
    assert!(worker_count() >= 1);
    assert_eq!(worker_count(), std::cmp::max(1, num_cpus::get()));
}

#[test]
fn there_is_one_worker_for_each_processor() {
    assert_eq!(workers_for(0), 1);
    assert_eq!(workers_for(1), 1);
    assert_eq!(workers_for(2), 2);
    assert_eq!(workers_for(64), 64);
    assert_eq!(workers_for(usize::MAX), usize::MAX);
    assert_eq!(worker_count(), workers_for(num_cpus::get()));
}
