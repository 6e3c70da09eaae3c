use source_fast::index::PersistentIndex;
use source_fast::model::IndexError;
use source_fast::search::PathFilter;

fn fresh() -> PersistentIndex {
    PersistentIndex::open_or_create(":memory:").unwrap()
}

const LIB_PATH: &str = "/ws_zqx/src/lib.rs";
const MAIN_PATH: &str = "/ws_zqx/src/main.rs";

#[test]
fn fresh_index_finds_indexed_content() {
    let mut idx = fresh();
    idx.index_path(LIB_PATH, 100, b"pub fn calculate_sum(a: i32, b: i32) -> i32 { a + b }")
        .unwrap();
    idx.index_path(MAIN_PATH, 100, b"fn main() { println!(\"hello world\"); }").unwrap();
    idx.flush(true).unwrap();

    let hits = idx.search("calculate_sum").unwrap();
    assert_eq!(hits.len(), 1);
    assert_eq!(hits[0].path, LIB_PATH);

    let hits = idx.search("hello world").unwrap();
    assert_eq!(hits.len(), 1);
    assert_eq!(hits[0].path, MAIN_PATH);
}

#[test]
fn absent_content_yields_nothing() {
    let mut idx = fresh();
    idx.index_path(MAIN_PATH, 100, b"fn main() { println!(\"hello\"); }").unwrap();
    idx.flush(true).unwrap();
    assert!(idx.search("xyz_nonexistent_pattern_123").unwrap().is_empty());
}

#[test]
fn short_queries_return_empty() {
    let mut idx = fresh();
    idx.index_path(LIB_PATH, 100, b"abcdefgh").unwrap();
    idx.flush(true).unwrap();
    assert!(idx.search("").unwrap().is_empty());
    assert!(idx.search("a").unwrap().is_empty());
    assert!(idx.search("ab").unwrap().is_empty());
    assert_eq!(idx.search("abc").unwrap().len(), 1);
}

#[test]
fn substring_of_indexed_text_is_found() {
    let mut idx = fresh();
    let content = b"the quick brown fox jumps over the lazy dog";
    idx.index_path(LIB_PATH, 100, content).unwrap();
    idx.flush(true).unwrap();
    // every contiguous substring of length >= 3 finds the file
    assert_eq!(idx.search("quick brown").unwrap().len(), 1);
    assert_eq!(idx.search("he lazy d").unwrap().len(), 1);
    assert_eq!(idx.search("dog").unwrap().len(), 1);
}

#[test]
fn tiny_files_index_without_content() {
    let mut idx = fresh();
    idx.index_path(LIB_PATH, 100, b"ab").unwrap();
    idx.flush(true).unwrap();
    // not searchable by content
    assert!(idx.search("abx").unwrap().is_empty());
    // but present and searchable by path
    let hits = idx.search_files("lib").unwrap();
    assert_eq!(hits.len(), 1);
    assert_eq!(hits[0].path, LIB_PATH);
}

#[test]
fn binary_files_are_not_indexed_for_content() {
    let mut idx = fresh();
    let mut payload = b"calculate_sum_marker ".to_vec();
    payload.push(0);
    payload.extend_from_slice(b" more bytes");
    idx.index_path("/ws_zqx/bin.dat", 100, &payload).unwrap();
    idx.index_path(LIB_PATH, 100, b"calculate_sum_marker text file").unwrap();
    idx.flush(true).unwrap();
    let hits = idx.search("calculate_sum_marker").unwrap();
    assert_eq!(hits.len(), 1);
    assert_eq!(hits[0].path, LIB_PATH);
}

#[test]
fn deletion_removes_all_content() {
    let mut idx = fresh();
    let p = "/ws_zqx/to_delete.rs";
    idx.index_path(p, 100, b"fn unique_deletable_function() {}").unwrap();
    idx.flush(true).unwrap();
    assert_eq!(idx.search("unique_deletable_function").unwrap().len(), 1);

    idx.remove_path(p).unwrap();
    idx.flush(true).unwrap();
    assert!(idx.search("unique_deletable_function").unwrap().is_empty());
    assert!(idx.search_files("to_delete").unwrap().is_empty());
}

#[test]
fn rename_moves_content_to_new_path() {
    let mut idx = fresh();
    let old_p = "/ws_zqx/old_name.rs";
    let new_p = "/ws_zqx/new_name.rs";
    idx.index_path(old_p, 100, b"fn renamed_function_content() {}").unwrap();
    idx.flush(true).unwrap();

    // the incremental diff of a rename emits both paths: the source is
    // gone from disk (remove), the destination exists (upsert)
    idx.remove_path(old_p).unwrap();
    idx.index_path(new_p, 200, b"fn renamed_function_content() {}").unwrap();
    idx.flush(true).unwrap();

    let hits = idx.search("renamed_function_content").unwrap();
    assert_eq!(hits.len(), 1);
    assert_eq!(hits[0].path, new_p);
}

#[test]
fn checked_out_away_content_disappears() {
    let mut idx = fresh();
    let p = "/ws_zqx/feature.rs";
    idx.index_path(p, 100, b"fn feature_only() {}").unwrap();
    idx.flush(true).unwrap();
    assert_eq!(idx.search("feature_only").unwrap().len(), 1);

    idx.remove_path(p).unwrap();
    idx.flush(true).unwrap();
    assert!(idx.search("feature_only").unwrap().is_empty());
}

#[test]
fn stale_mtime_is_a_no_op() {
    let mut idx = fresh();
    idx.index_path(LIB_PATH, 100, b"first_content_aaa").unwrap();
    idx.flush(true).unwrap();

    // an older snapshot of the file must not overwrite the newer rows
    idx.index_path(LIB_PATH, 50, b"second_content_bbb").unwrap();
    idx.flush(true).unwrap();
    assert_eq!(idx.search("first_content_aaa").unwrap().len(), 1);
    assert!(idx.search("second_content_bbb").unwrap().is_empty());

    // an equal mtime is also stale
    idx.index_path(LIB_PATH, 100, b"second_content_bbb").unwrap();
    idx.flush(true).unwrap();
    assert!(idx.search("second_content_bbb").unwrap().is_empty());
}

#[test]
fn newer_mtime_replaces_old_postings() {
    let mut idx = fresh();
    idx.index_path(LIB_PATH, 100, b"first_content_aaa").unwrap();
    idx.flush(true).unwrap();
    idx.index_path(LIB_PATH, 200, b"third_content_ccc").unwrap();
    idx.flush(true).unwrap();
    // the old trigrams left every posting; the new ones are live
    assert!(idx.search("first_content_aaa").unwrap().is_empty());
    assert_eq!(idx.search("third_content_ccc").unwrap().len(), 1);
    // still exactly one file row under the path
    assert_eq!(idx.search_files("lib.rs").unwrap().len(), 1);
}

#[test]
fn rebuilt_index_answers_identically() {
    let queries = ["quick brown", "lazy", "calculate_sum", "nothing_here_zz"];
    let mut answers: Vec<Vec<Vec<String>>> = Vec::new();
    for _round in 0..2 {
        let mut idx = fresh();
        idx.index_path(LIB_PATH, 100, b"the quick brown fox calculate_sum").unwrap();
        idx.index_path(MAIN_PATH, 100, b"over the lazy dog").unwrap();
        idx.flush(true).unwrap();
        let mut per_query = Vec::new();
        for q in queries.iter() {
            let mut paths: Vec<String> =
                idx.search(q).unwrap().into_iter().map(|h| h.path).collect();
            paths.sort();
            per_query.push(paths);
        }
        answers.push(per_query);
    }
    assert_eq!(answers[0], answers[1]);
}

#[test]
fn path_search_is_case_insensitive_and_sorted() {
    let mut idx = fresh();
    idx.index_path("/ws_zqx/src/Utils/Helpers.rs", 100, b"pub fn help() {}").unwrap();
    idx.index_path("/ws_zqx/src/aaa.rs", 100, b"pub fn a() {}").unwrap();
    idx.index_path("/ws_zqx/src/zzz.rs", 100, b"pub fn z() {}").unwrap();
    idx.flush(true).unwrap();

    let hits = idx.search_files("helpers").unwrap();
    assert_eq!(hits.len(), 1);
    assert_eq!(hits[0].path, "/ws_zqx/src/Utils/Helpers.rs");

    let hits = idx.search_files("SRC").unwrap();
    assert_eq!(hits.len(), 3);
    assert_eq!(hits[0].path, "/ws_zqx/src/Utils/Helpers.rs");
    assert_eq!(hits[1].path, "/ws_zqx/src/aaa.rs");
    assert_eq!(hits[2].path, "/ws_zqx/src/zzz.rs");

    assert!(idx.search_files("").unwrap().is_empty());
}

#[test]
fn regex_filter_narrows_hits() {
    let mut idx = fresh();
    idx.index_path(LIB_PATH, 100, b"fn process_data_filtered() {}").unwrap();
    idx.index_path(MAIN_PATH, 100, b"fn process_data_filtered() {}").unwrap();
    idx.flush(true).unwrap();

    let all = idx.search("process_data_filtered").unwrap();
    assert_eq!(all.len(), 2);

    let f = PathFilter::new("main").unwrap();
    let hits = idx.search_filtered("process_data_filtered", Some(&f)).unwrap();
    assert_eq!(hits.len(), 1);
    assert_eq!(hits[0].path, MAIN_PATH);

    assert!(PathFilter::new("(unclosed").is_err());
}

#[test]
fn disabled_writes_acknowledge_without_applying() {
    let mut idx = fresh();
    // a demoted process acknowledges its queued jobs without applying them
    idx.index_path(LIB_PATH, 100, b"silent_drop_marker").unwrap();
    idx.flush(false).unwrap();
    assert!(idx.search("silent_drop_marker").unwrap().is_empty());
    // an empty batch with writes disabled acknowledges nothing at all
    let jobs = Vec::new();
    let replies = idx.process_batch(&jobs, false);
    assert!(replies.is_empty());
    // the same job applies once writes are enabled
    idx.index_path(LIB_PATH, 100, b"silent_drop_marker").unwrap();
    idx.flush(true).unwrap();
    assert_eq!(idx.search("silent_drop_marker").unwrap().len(), 1);
}

#[test]
fn jobs_in_one_batch_apply_in_arrival_order() {
    // upsert then remove in the same batch: the remove wins
    let mut idx = fresh();
    idx.index_path(LIB_PATH, 100, b"ordered_marker_one").unwrap();
    idx.remove_path(LIB_PATH).unwrap();
    idx.flush(true).unwrap();
    assert!(idx.search("ordered_marker_one").unwrap().is_empty());
    assert!(idx.search_files("lib.rs").unwrap().is_empty());

    // remove then upsert in the same batch: the upsert wins
    let mut idx = fresh();
    idx.remove_path(LIB_PATH).unwrap();
    idx.index_path(LIB_PATH, 100, b"ordered_marker_two").unwrap();
    idx.flush(true).unwrap();
    assert_eq!(idx.search("ordered_marker_two").unwrap().len(), 1);

    // two upserts of one path in a batch: mtimes decide, in order
    let mut idx = fresh();
    idx.index_path(LIB_PATH, 100, b"ordered_marker_three").unwrap();
    idx.index_path(LIB_PATH, 200, b"ordered_marker_four").unwrap();
    idx.flush(true).unwrap();
    assert!(idx.search("ordered_marker_three").unwrap().is_empty());
    assert_eq!(idx.search("ordered_marker_four").unwrap().len(), 1);
}

#[test]
fn normalized_queueing_pins_the_stored_key() {
    let mut idx = fresh();
    idx.index_normalized("/pinned_zqx/key.rs".to_string(), 100, b"pinned_path_marker")
        .unwrap();
    idx.flush(true).unwrap();
    let hits = idx.search("pinned_path_marker").unwrap();
    assert_eq!(hits.len(), 1);
    assert_eq!(hits[0].path, "/pinned_zqx/key.rs");

    idx.remove_normalized("/pinned_zqx/key.rs".to_string()).unwrap();
    idx.flush(true).unwrap();
    assert!(idx.search("pinned_path_marker").unwrap().is_empty());
}

#[test]
fn meta_is_last_write_wins() {
    let mut idx = fresh();
    assert!(idx.get_meta("git_head").unwrap().is_none());
    idx.set_meta("git_head", "abc123").unwrap();
    assert_eq!(idx.get_meta("git_head").unwrap().unwrap(), "abc123");
    idx.set_meta("git_head", "def456").unwrap();
    assert_eq!(idx.get_meta("git_head").unwrap().unwrap(), "def456");
}

#[test]
fn error_messages_carry_their_text() {
    let e = IndexError::Io("could not open".to_string());
    assert_eq!(e.message(), "could not open");
    let e = IndexError::Db("locked".to_string());
    assert_eq!(e.message(), "locked");
    let e = IndexError::Encode("bad blob".to_string());
    assert_eq!(e.message(), "bad blob");
}
