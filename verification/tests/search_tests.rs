use notemancy_server::reply::Failure;
use notemancy_server::search::{
    configure, delete_by_relpath, delete_from_search_index, id_for, index_all_notes,
    index_settings, init_meilisearch, is_indexed, make_document, pending_notes, search_notes,
    search_request, search_result, task_result, update_search_index, ClientSettings, IndexState,
    NoteDoc, NoteEntry, SearchError, SearchHit, SearchRequest, SearchResponse, SearchResult,
    TaskOutcome, RESULT_LIMIT, TASK_TIMEOUT_SECS,
};

fn note(relpath: &str, title: &str) -> NoteEntry {
    NoteEntry { relpath: relpath.to_string(), title: title.to_string() }
}

fn doc(relpath: &str, title: &str, content: &str) -> NoteDoc {
    NoteDoc {
        id: relpath.to_string(),
        title: title.to_string(),
        content: content.to_string(),
        path: relpath.to_string(),
    }
}

fn read(relpath: &str, title: &str, content: &str) -> (NoteEntry, Result<String, String>) {
    (note(relpath, title), Ok(content.to_string()))
}

fn keys(list: &[&str]) -> Vec<String> {
    list.iter().map(|k| k.to_string()).collect()
}

#[test]
fn the_engine_is_reached_at_the_local_default() {
    assert_eq!(
        init_meilisearch(None, None),
        ClientSettings { url: "http://localhost:7700".to_string(), api_key: None }
    );
    assert_eq!(
        init_meilisearch(Some("http://search:7700".to_string()), Some("k".to_string())),
        ClientSettings { url: "http://search:7700".to_string(), api_key: Some("k".to_string()) }
    );
}

#[test]
fn the_limits_of_the_engine() {
    assert_eq!(RESULT_LIMIT, 10);
    assert_eq!(TASK_TIMEOUT_SECS, 60);
}

#[test]
fn the_index_searches_titles_and_contents() {
    let settings = index_settings();
    assert_eq!(settings.searchable, keys(&["title", "content"]));
    assert_eq!(settings.filterable, keys(&["id", "path"]));
}

#[test]
fn a_task_is_judged_by_how_it_ended() {
    assert_eq!(task_result(TaskOutcome::Succeeded), Ok(()));
    assert_eq!(
        task_result(TaskOutcome::Failed("index missing".to_string())),
        Err(SearchError::RemoteTaskFailure("index missing".to_string()))
    );
    assert_eq!(
        task_result(TaskOutcome::TimedOut),
        Err(SearchError::RemoteTaskFailure(
            "the search engine did not finish the task in time".to_string()
        ))
    );
}

#[test]
fn the_index_is_configured_when_every_step_succeeded() {
    assert_eq!(configure(vec![]), Ok(IndexState::Configured));
    assert_eq!(
        configure(vec![TaskOutcome::Succeeded, TaskOutcome::Succeeded, TaskOutcome::Succeeded]),
        Ok(IndexState::Configured)
    );
}

#[test]
fn the_first_failed_step_of_the_setup_is_the_error() {
    assert_eq!(
        configure(vec![
            TaskOutcome::Succeeded,
            TaskOutcome::Failed("first".to_string()),
            TaskOutcome::Failed("second".to_string()),
        ]),
        Err(SearchError::RemoteTaskFailure("first".to_string()))
    );
    assert_eq!(
        configure(vec![TaskOutcome::TimedOut, TaskOutcome::Failed("late".to_string())]),
        Err(SearchError::RemoteTaskFailure(
            "the search engine did not finish the task in time".to_string()
        ))
    );
}

#[test]
fn the_key_of_a_note_is_its_path() {
    assert_eq!(id_for("docs/a.md"), "docs/a.md");
    assert_eq!(id_for(""), "");
    assert_eq!(
        make_document(&note("docs/a.md", "A"), "body".to_string()),
        doc("docs/a.md", "A", "body")
    );
}

#[test]
fn keys_are_looked_up_as_they_are() {
    let existing = keys(&["a.md", "b.md"]);
    assert!(is_indexed(&existing, &"a.md".to_string()));
    assert!(is_indexed(&existing, &"b.md".to_string()));
    assert!(!is_indexed(&existing, &"A.md".to_string()));
    assert!(!is_indexed(&vec![], &"a.md".to_string()));
}

#[test]
fn only_notes_that_the_index_lacks_are_added() {
    let existing = keys(&["a.md"]);
    let reads = vec![
        read("a.md", "A", "old"),
        read("b.md", "B", "bee"),
        read("dir/c.md", "C", "sea"),
    ];
    let docs = index_all_notes(IndexState::Configured, &existing, reads);
    assert_eq!(docs, Ok(vec![doc("b.md", "B", "bee"), doc("dir/c.md", "C", "sea")]));
}

#[test]
fn a_second_run_adds_nothing() {
    let mut existing = keys(&["a.md"]);
    let first = index_all_notes(
        IndexState::Configured,
        &existing,
        vec![read("a.md", "A", "x"), read("b.md", "B", "y"), read("c.md", "C", "z")],
    )
    .unwrap();
    assert_eq!(first.len(), 2);
    for d in &first {
        existing.push(d.id.clone());
    }
    let second = index_all_notes(
        IndexState::Configured,
        &existing,
        vec![read("a.md", "A", "x"), read("b.md", "B", "y"), read("c.md", "C", "z")],
    );
    assert_eq!(second, Ok(vec![]));
    let notes = vec![note("a.md", "A"), note("b.md", "B"), note("c.md", "C")];
    assert_eq!(pending_notes(IndexState::Configured, &existing, &notes), Ok(vec![]));
}

#[test]
fn an_empty_vault_has_nothing_to_add() {
    assert_eq!(index_all_notes(IndexState::Configured, &vec![], vec![]), Ok(vec![]));
}

#[test]
fn a_note_that_cannot_be_read_stops_the_run() {
    let reads = vec![
        read("a.md", "A", "x"),
        (note("b.md", "B"), Err("b is gone".to_string())),
        (note("c.md", "C"), Err("c is gone".to_string())),
    ];
    assert_eq!(
        index_all_notes(IndexState::Configured, &vec![], reads),
        Err(SearchError::IoFailure("b is gone".to_string()))
    );
}

#[test]
fn a_note_in_the_index_need_not_be_read() {
    let reads = vec![(note("a.md", "A"), Err("unread".to_string())), read("b.md", "B", "y")];
    assert_eq!(
        index_all_notes(IndexState::Configured, &keys(&["a.md"]), reads),
        Ok(vec![doc("b.md", "B", "y")])
    );
}

#[test]
fn the_notes_still_to_read() {
    let notes = vec![note("a.md", "A"), note("b.md", "B"), note("c.md", "C"), note("b.md", "B")];
    assert_eq!(
        pending_notes(IndexState::Configured, &keys(&["c.md"]), &notes),
        Ok(keys(&["a.md", "b.md", "b.md"]))
    );
    assert_eq!(pending_notes(IndexState::Configured, &vec![], &vec![]), Ok(vec![]));
}

#[test]
fn nothing_is_done_before_the_index_is_set_up() {
    let state = IndexState::Unconfigured;
    assert_eq!(
        index_all_notes(state, &vec![], vec![read("a.md", "A", "x")]),
        Err(SearchError::NotReady)
    );
    assert_eq!(pending_notes(state, &vec![], &vec![note("a.md", "A")]), Err(SearchError::NotReady));
    assert_eq!(update_search_index(state, "a", "b", "c", "d"), Err(SearchError::NotReady));
    assert_eq!(delete_from_search_index(state, "a"), Err(SearchError::NotReady));
    assert_eq!(delete_by_relpath(state, "a", &vec![]), Err(SearchError::NotReady));
    let refused = Failure { status: 500, message: "MeiliSearch client not initialized".to_string() };
    assert_eq!(search_request(state, "q"), Err(refused.clone()));
    assert_eq!(search_notes(state, "q", Ok(vec![])), Err(refused));
}

#[test]
fn search_errors_in_words() {
    assert_eq!(SearchError::NotReady.message(), "MeiliSearch client not initialized");
    assert_eq!(SearchError::RemoteTaskFailure("t".to_string()).message(), "t");
    assert_eq!(SearchError::IoFailure("i".to_string()).message(), "i");
}

#[test]
fn a_note_is_put_into_the_index_under_its_key() {
    assert_eq!(
        update_search_index(IndexState::Configured, "id-1", "Title", "dir/n.md", "Body"),
        Ok(NoteDoc {
            id: "id-1".to_string(),
            title: "Title".to_string(),
            content: "Body".to_string(),
            path: "dir/n.md".to_string(),
        })
    );
}

#[test]
fn a_note_is_deleted_by_its_key() {
    assert_eq!(
        delete_from_search_index(IndexState::Configured, "dir/n.md"),
        Ok("dir/n.md".to_string())
    );
}

#[test]
fn deleting_a_path_without_a_document_does_nothing() {
    assert_eq!(delete_by_relpath(IndexState::Configured, "gone.md", &vec![]), Ok(vec![]));
    let others = vec![doc("a.md", "A", "x"), doc("b.md", "B", "y")];
    assert_eq!(delete_by_relpath(IndexState::Configured, "gone.md", &others), Ok(vec![]));
}

#[test]
fn deleting_a_path_deletes_each_document_that_has_it() {
    let hits = vec![
        NoteDoc {
            id: "1".to_string(),
            title: "A".to_string(),
            content: "x".to_string(),
            path: "a.md".to_string(),
        },
        doc("b.md", "B", "y"),
        NoteDoc {
            id: "7".to_string(),
            title: "A".to_string(),
            content: "x".to_string(),
            path: "a.md".to_string(),
        },
        doc("a.md", "A", "x"),
    ];
    assert_eq!(
        delete_by_relpath(IndexState::Configured, "a.md", &hits),
        Ok(keys(&["1", "7", "a.md"]))
    );
}

#[test]
fn a_query_asks_for_ten_marked_hits() {
    assert_eq!(
        search_request(IndexState::Configured, "brown fox"),
        Ok(SearchRequest {
            query: "brown fox".to_string(),
            limit: 10,
            highlight_pre_tag: "<em>".to_string(),
            highlight_post_tag: "</em>".to_string(),
        })
    );
}

#[test]
fn the_engines_excerpt_is_preferred() {
    let hit = SearchHit {
        doc: doc("a.md", "A", "The quick brown fox jumps"),
        highlighted: Some("The quick <em>brown</em> fox".to_string()),
    };
    assert_eq!(
        search_result(hit, "brown"),
        SearchResult {
            title: "A".to_string(),
            path: "a.md".to_string(),
            snippet: "The quick <em>brown</em> fox".to_string(),
        }
    );
}

#[test]
fn an_excerpt_is_cut_where_the_engine_sent_none() {
    let hit = SearchHit { doc: doc("a.md", "A", "The quick brown fox jumps"), highlighted: None };
    assert_eq!(
        search_result(hit, "BROWN"),
        SearchResult {
            title: "A".to_string(),
            path: "a.md".to_string(),
            snippet: "...The quick brown fox jumps...".to_string(),
        }
    );
}

#[test]
fn a_result_page_has_a_line_for_each_hit() {
    let hits = vec![
        SearchHit { doc: doc("b.md", "B", "second body"), highlighted: None },
        SearchHit {
            doc: doc("a.md", "A", "first body"),
            highlighted: Some("<em>first</em> body".to_string()),
        },
    ];
    let page = search_notes(IndexState::Configured, "body", Ok(hits));
    assert_eq!(
        page,
        Ok(SearchResponse {
            results: vec![
                SearchResult {
                    title: "B".to_string(),
                    path: "b.md".to_string(),
                    snippet: "...second body...".to_string(),
                },
                SearchResult {
                    title: "A".to_string(),
                    path: "a.md".to_string(),
                    snippet: "<em>first</em> body".to_string(),
                },
            ]
        })
    );
    assert_eq!(
        search_notes(IndexState::Configured, "body", Ok(vec![])),
        Ok(SearchResponse { results: vec![] })
    );
}

#[test]
fn a_failed_query_is_an_internal_error() {
    assert_eq!(
        search_notes(IndexState::Configured, "q", Err("Timeout".to_string())),
        Err(Failure { status: 500, message: "Search failed: Timeout".to_string() })
    );
}
