//! Keeping a search index in step with the notes of a vault.
//!
//! The index lives in a search engine that the caller talks to. This module
//! decides what the caller sends: which notes the index still lacks, the
//! document of each, the keys to delete, and the lines of a result page.

use vstd::prelude::*;

use crate::reply::{internal_error, Failure, INTERNAL_SERVER_ERROR};
use crate::snippet::{extract_snippet, snippet_spec};

verus! {

/// The address of the search engine where none is configured.
pub open spec fn default_url() -> Seq<char> {
    "http://localhost:7700"@
}

/// The name of the index that holds the notes.
pub open spec fn index_name() -> Seq<char> {
    "notes"@
}

/// The field of a document that is its key in the index.
pub open spec fn primary_key() -> Seq<char> {
    "id"@
}

/// How many hits a query asks for.
pub const RESULT_LIMIT: usize = 10;

/// How many seconds the caller waits for the engine to finish a change of the
/// index before it counts the change as failed.
pub const TASK_TIMEOUT_SECS: u64 = 60;

/// What the caller needs to reach the search engine.
#[derive(Clone, Debug, PartialEq, Eq)]
pub struct ClientSettings {
    pub url: String,
    pub api_key: Option<String>,
}

/// Settles how the search engine is reached, from what the environment
/// holds: the configured address, or the local default where none is
/// configured, and the key if there is one.
pub fn init_meilisearch(url: Option<String>, api_key: Option<String>) -> (settings: ClientSettings)
    ensures
        settings.url@ == (match url {
            Some(u) => u@,
            None => default_url(),
        }),
        settings.api_key == api_key,
{
    let url = match url {
        Some(u) => u,
        None => "http://localhost:7700".to_owned(),
    };
    ClientSettings { url, api_key }
}

/// Whether the index is ready for documents.
#[derive(Clone, Copy, Debug, PartialEq, Eq, Structural)]
pub enum IndexState {
    /// No client exists yet, or the index has not been set up.
    Unconfigured,
    /// The index exists and has its settings.
    Configured,
}

/// Why an operation on the index failed.
#[derive(Clone, Debug, PartialEq, Eq)]
pub enum SearchError {
    /// The operation was asked for before the index was set up.
    NotReady,
    /// The engine reported that a change of the index failed, or did not
    /// finish it in time; the text is what the engine said of it.
    RemoteTaskFailure(String),
    /// A note could not be read; the text is that of the failed read.
    IoFailure(String),
}

impl SearchError {
    /// The error in words.
    pub open spec fn message_spec(self) -> Seq<char> {
        match self {
            SearchError::NotReady => "MeiliSearch client not initialized"@,
            SearchError::RemoteTaskFailure(m) => m@,
            SearchError::IoFailure(m) => m@,
        }
    }

    /// The error in words.
    pub fn message(&self) -> (m: String)
        ensures
            m@ == self.message_spec(),
    {
        match self {
            SearchError::NotReady => "MeiliSearch client not initialized".to_owned(),
            SearchError::RemoteTaskFailure(m) => m.clone(),
            SearchError::IoFailure(m) => m.clone(),
        }
    }
}

/// How a change of the index ended at the engine.
#[derive(Clone, Debug, PartialEq, Eq)]
pub enum TaskOutcome {
    Succeeded,
    /// The engine gave the change up, with this diagnostic.
    Failed(String),
    /// The engine did not finish the change within `TASK_TIMEOUT_SECS`.
    TimedOut,
}

/// What is said of a change that did not finish in time.
pub open spec fn timeout_message() -> Seq<char> {
    "the search engine did not finish the task in time"@
}

/// Judges a change of the index by how it ended: a change that failed or
/// did not finish in time is an error, never passed over.
pub fn task_result(outcome: TaskOutcome) -> (r: Result<(), SearchError>)
    ensures
        match outcome {
            TaskOutcome::Succeeded => r is Ok,
            TaskOutcome::Failed(m) => r matches Err(SearchError::RemoteTaskFailure(e)) && e@ == m@,
            TaskOutcome::TimedOut => r matches Err(SearchError::RemoteTaskFailure(e)) && e@
                == timeout_message(),
        },
{
    match outcome {
        TaskOutcome::Succeeded => Ok(()),
        TaskOutcome::Failed(m) => Err(SearchError::RemoteTaskFailure(m)),
        TaskOutcome::TimedOut => Err(
            SearchError::RemoteTaskFailure(
                "the search engine did not finish the task in time".to_owned(),
            ),
        ),
    }
}

/// The settings that the index is given when it is set up.
#[derive(Clone, Debug, PartialEq, Eq)]
pub struct IndexSettings {
    pub searchable: Vec<String>,
    pub filterable: Vec<String>,
}

/// The settings of the notes index: titles and contents are searched, keys
/// and paths can be filtered by.
pub fn index_settings() -> (settings: IndexSettings)
    ensures
        settings.searchable@.len() == 2,
        settings.searchable@[0]@ == "title"@,
        settings.searchable@[1]@ == "content"@,
        settings.filterable@.len() == 2,
        settings.filterable@[0]@ == "id"@,
        settings.filterable@[1]@ == "path"@,
{
    let mut searchable: Vec<String> = Vec::new();
    searchable.push("title".to_owned());
    searchable.push("content".to_owned());
    let mut filterable: Vec<String> = Vec::new();
    filterable.push("id".to_owned());
    filterable.push("path".to_owned());
    IndexSettings { searchable, filterable }
}

/// The first change among `outcomes` that did not succeed, if there is one.
pub open spec fn first_failure(outcomes: Seq<TaskOutcome>) -> Option<int>
    decreases outcomes.len(),
{
    if outcomes.len() == 0 {
        None
    } else {
        match first_failure(outcomes.drop_last()) {
            Some(i) => Some(i),
            None => if outcomes.last() is Succeeded {
                None
            } else {
                Some(outcomes.len() - 1)
            },
        }
    }
}

/// Sets the index up, given how each step of the setup ended at the engine:
/// the index is configured when every step succeeded, whatever the state
/// before; the first step that did not succeed is the error.
pub fn configure(outcomes: Vec<TaskOutcome>) -> (r: Result<IndexState, SearchError>)
    ensures
        match first_failure(outcomes@) {
            None => r == Ok::<IndexState, SearchError>(IndexState::Configured),
            Some(i) => 0 <= i < outcomes@.len() && (match outcomes@[i] {
                TaskOutcome::Failed(m) => r matches Err(SearchError::RemoteTaskFailure(e)) && e@
                    == m@,
                _ => r matches Err(SearchError::RemoteTaskFailure(e)) && e@ == timeout_message(),
            }),
        },
{
    let ghost all = outcomes@;
    proof {
        assert(all.take(0) =~= Seq::<TaskOutcome>::empty());
    }
    for outcome in it: outcomes
        invariant
            it.seq() == all,
            first_failure(all.take(it.index())) is None,
    {
        proof {
            assert(all.take(it.index() + 1).drop_last() =~= all.take(it.index()));
            assert(all.take(it.index() + 1).last() == outcome);
        }
        match task_result(outcome) {
            Ok(_) => {},
            Err(e) => {
                proof {
                    lemma_first_failure_prefix(all, it.index() + 1);
                }
                return Err(e);
            },
        }
    }
    proof {
        assert(all.take(all.len() as int) =~= all);
    }
    Ok(IndexState::Configured)
}

/// A failure found among the first `n` changes is the first of them all.
proof fn lemma_first_failure_prefix(outcomes: Seq<TaskOutcome>, n: int)
    requires
        0 <= n <= outcomes.len(),
        first_failure(outcomes.take(n)) is Some,
    ensures
        first_failure(outcomes) == first_failure(outcomes.take(n)),
    decreases outcomes.len() - n,
{
    if n < outcomes.len() {
        assert(outcomes.take(n + 1).drop_last() =~= outcomes.take(n));
        lemma_first_failure_prefix(outcomes, n + 1);
    } else {
        assert(outcomes.take(n) =~= outcomes);
    }
}

/// A note as the storage layer lists it.
#[derive(Clone, Debug, PartialEq, Eq)]
pub struct NoteEntry {
    pub relpath: String,
    pub title: String,
}

/// A note as the index holds it.
#[derive(Clone, Debug, PartialEq, Eq)]
pub struct NoteDoc {
    pub id: String,
    pub title: String,
    pub content: String,
    pub path: String,
}

/// A document as a mathematical value.
pub struct DocView {
    pub id: Seq<char>,
    pub title: Seq<char>,
    pub content: Seq<char>,
    pub path: Seq<char>,
}

impl View for NoteDoc {
    type V = DocView;

    open spec fn view(&self) -> DocView {
        DocView { id: self.id@, title: self.title@, content: self.content@, path: self.path@ }
    }
}

/// The documents of a list, each by its view.
pub open spec fn docs_view(docs: Seq<NoteDoc>) -> Seq<DocView> {
    Seq::new(docs.len(), |i: int| docs[i]@)
}

/// The key under which a note stands in the index: its relative path, as it
/// is. Indexing a note again writes over its document, and a note is deleted
/// by its path without a lookup.
pub fn id_for(relpath: &str) -> (id: String)
    ensures
        id@ == relpath@,
{
    relpath.to_owned()
}

/// The document of a note with this body.
pub open spec fn document_of(relpath: Seq<char>, title: Seq<char>, content: Seq<char>) -> DocView {
    DocView { id: relpath, title: title, content: content, path: relpath }
}

/// Builds the document of a note from its listing and its body without the
/// metadata block.
pub fn make_document(note: &NoteEntry, content: String) -> (doc: NoteDoc)
    ensures
        doc@ == document_of(note.relpath@, note.title@, content@),
{
    NoteDoc {
        id: id_for(note.relpath.as_str()),
        title: note.title.clone(),
        content,
        path: note.relpath.clone(),
    }
}

/// A listed note with what came of reading its body.
pub struct ReadView {
    pub relpath: Seq<char>,
    pub title: Seq<char>,
    pub content: Result<Seq<char>, Seq<char>>,
}

/// A listed note with what came of reading its body, as a mathematical value.
pub open spec fn read_view(read: (NoteEntry, Result<String, String>)) -> ReadView {
    ReadView {
        relpath: read.0.relpath@,
        title: read.0.title@,
        content: match read.1 {
            Ok(c) => Ok(c@),
            Err(e) => Err(e@),
        },
    }
}

/// The notes of a list with what came of reading each.
pub open spec fn reads_view(reads: Seq<(NoteEntry, Result<String, String>)>) -> Seq<ReadView> {
    Seq::new(reads.len(), |i: int| read_view(reads[i]))
}

/// The texts of a list of keys.
pub open spec fn keys_view(keys: Seq<String>) -> Seq<Seq<char>> {
    Seq::new(keys.len(), |i: int| keys[i]@)
}

/// The documents to add to an index that holds `existing`: one for each
/// note whose path is no key of the index yet, in the order of the notes. The
/// first such note whose body could not be read is the error.
pub open spec fn documents(existing: Seq<Seq<char>>, reads: Seq<ReadView>) -> Result<
    Seq<DocView>,
    Seq<char>,
>
    decreases reads.len(),
{
    if reads.len() == 0 {
        Ok(Seq::empty())
    } else if existing.contains(reads[0].relpath) {
        documents(existing, reads.drop_first())
    } else {
        match reads[0].content {
            Err(e) => Err(e),
            Ok(c) => match documents(existing, reads.drop_first()) {
                Ok(rest) => Ok(seq![document_of(reads[0].relpath, reads[0].title, c)] + rest),
                Err(e) => Err(e),
            },
        }
    }
}

/// Tells whether a key is among the keys of the index.
pub fn is_indexed(existing: &Vec<String>, key: &String) -> (r: bool)
    ensures
        r == keys_view(existing@).contains(key@),
{
    let mut i: usize = 0;
    while i < existing.len()
        invariant
            i <= existing.len(),
            forall|k: int| 0 <= k < i ==> existing@[k]@ != key@,
        decreases existing.len() - i,
    {
        if existing[i] == *key {
            proof {
                assert(keys_view(existing@)[i as int] == key@);
            }
            return true;
        }
        i += 1;
    }
    proof {
        if keys_view(existing@).contains(key@) {
            let k = choose|k: int| 0 <= k < keys_view(existing@).len() && keys_view(existing@)[k] == key@;
            assert(existing@[k]@ == key@);
        }
    }
    false
}

/// What is added in front of the documents still to come.
pub open spec fn after(done: Seq<DocView>, rest: Result<Seq<DocView>, Seq<char>>) -> Result<
    Seq<DocView>,
    Seq<char>,
> {
    match rest {
        Ok(more) => Ok(done + more),
        Err(e) => Err(e),
    }
}

/// Brings the index up to the notes of the vault: given the keys that the
/// index holds and the listed notes with their bodies, gives the documents to
/// add. Notes that the index holds already are passed over, so that a second
/// run after the first has nothing to add. Before the index is set up nothing
/// is done.
pub fn index_all_notes(
    state: IndexState,
    existing: &Vec<String>,
    reads: Vec<(NoteEntry, Result<String, String>)>,
) -> (r: Result<Vec<NoteDoc>, SearchError>)
    ensures
        state == IndexState::Unconfigured ==> r matches Err(SearchError::NotReady),
        state == IndexState::Configured ==> (match documents(
            keys_view(existing@),
            reads_view(reads@),
        ) {
            Ok(docs) => r matches Ok(found) && docs_view(found@) == docs,
            Err(e) => r matches Err(SearchError::IoFailure(m)) && m@ == e,
        }),
{
    if state == IndexState::Unconfigured {
        return Err(SearchError::NotReady);
    }
    let ghost all = reads_view(reads@);
    let ghost keys = keys_view(existing@);
    let ghost raw = reads@;
    let mut docs: Vec<NoteDoc> = Vec::new();
    proof {
        assert(all.skip(0) =~= all);
        assert(docs_view(docs@) =~= Seq::<DocView>::empty());
        assert(after(docs_view(docs@), documents(keys, all)) == documents(keys, all)) by {
            match documents(keys, all) {
                Ok(d) => {
                    assert(Seq::<DocView>::empty() + d =~= d);
                },
                Err(e) => {},
            }
        }
    }
    for read in it: reads
        invariant
            state == IndexState::Configured,
            it.seq() == raw,
            all == reads_view(raw),
            keys == keys_view(existing@),
            after(docs_view(docs@), documents(keys, all.skip(it.index()))) == documents(keys, all),
    {
        let ghost tail = all.skip(it.index());
        let ghost done = docs_view(docs@);
        proof {
            assert(tail[0] == read_view(read));
            assert(tail.drop_first() =~= all.skip(it.index() + 1));
        }
        let (note, content) = read;
        if !is_indexed(existing, &note.relpath) {
            match content {
                Err(e) => {
                    return Err(SearchError::IoFailure(e));
                },
                Ok(c) => {
                    let doc = make_document(&note, c);
                    docs.push(doc);
                    proof {
                        assert(docs_view(docs@) =~= done + seq![doc@]);
                        match documents(keys, tail.drop_first()) {
                            Ok(more) => {
                                assert(done + (seq![doc@] + more) =~= (done + seq![doc@]) + more);
                            },
                            Err(e) => {},
                        }
                    }
                },
            }
        }
    }
    proof {
        assert(all.skip(all.len() as int) =~= Seq::<ReadView>::empty());
        assert(docs_view(docs@) + Seq::<DocView>::empty() =~= docs_view(docs@));
    }
    Ok(docs)
}

/// The keys of a list of documents.
pub open spec fn ids_of(docs: Seq<DocView>) -> Seq<Seq<char>> {
    Seq::new(docs.len(), |i: int| docs[i].id)
}

/// Every note that was listed is in the index once the documents of a run
/// have been added to it.
pub proof fn lemma_documents_cover(existing: Seq<Seq<char>>, reads: Seq<ReadView>, i: int)
    requires
        documents(existing, reads) is Ok,
        0 <= i < reads.len(),
    ensures
        (existing + ids_of(documents(existing, reads)->Ok_0)).contains(reads[i].relpath),
    decreases reads.len(),
{
    let docs = documents(existing, reads)->Ok_0;
    let held = existing + ids_of(docs);
    let rest = reads.drop_first();
    if existing.contains(reads[0].relpath) {
        if i == 0 {
            let k = choose|k: int| 0 <= k < existing.len() && existing[k] == reads[0].relpath;
            assert(held[k] == reads[0].relpath);
        } else {
            lemma_documents_cover(existing, rest, i - 1);
            assert(rest[i - 1] == reads[i]);
        }
    } else {
        let more = documents(existing, rest)->Ok_0;
        if i == 0 {
            assert(docs[0].id == reads[0].relpath);
            assert(held[existing.len() as int] == ids_of(docs)[0]);
        } else {
            lemma_documents_cover(existing, rest, i - 1);
            assert(rest[i - 1] == reads[i]);
            let before = existing + ids_of(more);
            let k = choose|k: int| 0 <= k < before.len() && before[k] == reads[i].relpath;
            if k < existing.len() {
                assert(held[k] == reads[i].relpath);
            } else {
                assert(docs[k - existing.len() + 1] == more[k - existing.len()]);
                assert(held[k + 1] == ids_of(docs)[k - existing.len() + 1]);
            }
        }
    }
}

/// Where the index holds every listed note, a run has nothing to add.
pub proof fn lemma_documents_none(existing: Seq<Seq<char>>, reads: Seq<ReadView>)
    requires
        forall|i: int| 0 <= i < reads.len() ==> existing.contains(#[trigger] reads[i].relpath),
    ensures
        documents(existing, reads) == Ok::<Seq<DocView>, Seq<char>>(Seq::empty()),
    decreases reads.len(),
{
    if reads.len() > 0 {
        let rest = reads.drop_first();
        assert(existing.contains(reads[0].relpath));
        assert forall|i: int| 0 <= i < rest.len() implies existing.contains(
            #[trigger] rest[i].relpath,
        ) by {
            assert(rest[i] == reads[i + 1]);
            assert(existing.contains(reads[i + 1].relpath));
        }
        lemma_documents_none(existing, rest);
    }
}

/// Bringing the index up to the vault twice adds nothing the second time:
/// once the documents of a run are in the index, a run over the same notes
/// gives none.
pub proof fn lemma_resync_idempotent(existing: Seq<Seq<char>>, reads: Seq<ReadView>)
    requires
        documents(existing, reads) is Ok,
    ensures
        documents(existing + ids_of(documents(existing, reads)->Ok_0), reads) == Ok::<
            Seq<DocView>,
            Seq<char>,
        >(Seq::empty()),
{
    let held = existing + ids_of(documents(existing, reads)->Ok_0);
    assert forall|i: int| 0 <= i < reads.len() implies held.contains(#[trigger] reads[i].relpath) by {
        lemma_documents_cover(existing, reads, i);
    }
    lemma_documents_none(held, reads);
}


/// The paths among `paths` that are no key of an index that holds
/// `existing`, in order.
pub open spec fn missing(existing: Seq<Seq<char>>, paths: Seq<Seq<char>>) -> Seq<Seq<char>>
    decreases paths.len(),
{
    if paths.len() == 0 {
        Seq::empty()
    } else if existing.contains(paths.last()) {
        missing(existing, paths.drop_last())
    } else {
        missing(existing, paths.drop_last()).push(paths.last())
    }
}

/// The paths of a list of notes.
pub open spec fn paths_of(notes: Seq<NoteEntry>) -> Seq<Seq<char>> {
    Seq::new(notes.len(), |i: int| notes[i].relpath@)
}

/// Tells which of the listed notes the index still lacks, so that only their
/// bodies need to be read. Before the index is set up nothing is done.
pub fn pending_notes(state: IndexState, existing: &Vec<String>, notes: &Vec<NoteEntry>) -> (r: Result<
    Vec<String>,
    SearchError,
>)
    ensures
        state == IndexState::Unconfigured ==> r matches Err(SearchError::NotReady),
        state == IndexState::Configured ==> (r matches Ok(paths) && keys_view(paths@) == missing(
            keys_view(existing@),
            paths_of(notes@),
        )),
{
    if state == IndexState::Unconfigured {
        return Err(SearchError::NotReady);
    }
    let ghost all = paths_of(notes@);
    let ghost keys = keys_view(existing@);
    let mut paths: Vec<String> = Vec::new();
    let mut i: usize = 0;
    proof {
        assert(all.take(0) =~= Seq::<Seq<char>>::empty());
        assert(keys_view(paths@) =~= Seq::<Seq<char>>::empty());
    }
    while i < notes.len()
        invariant
            i <= notes.len(),
            all == paths_of(notes@),
            keys == keys_view(existing@),
            keys_view(paths@) == missing(keys, all.take(i as int)),
        decreases notes.len() - i,
    {
        proof {
            assert(all.take(i as int + 1).drop_last() =~= all.take(i as int));
            assert(all.take(i as int + 1).last() == notes@[i as int].relpath@);
        }
        if !is_indexed(existing, &notes[i].relpath) {
            let ghost before = keys_view(paths@);
            let path = notes[i].relpath.clone();
            paths.push(path);
            proof {
                assert(keys_view(paths@) =~= before.push(notes@[i as int].relpath@));
            }
        }
        i += 1;
    }
    proof {
        assert(all.take(i as int) =~= all);
    }
    Ok(paths)
}

/// Gives the document to put into the index for one note, in place of the
/// one that has its key, if there is one. Before the index is set up nothing
/// is done.
pub fn update_search_index(state: IndexState, id: &str, title: &str, path: &str, content: &str) -> (r:
    Result<NoteDoc, SearchError>)
    ensures
        state == IndexState::Unconfigured ==> r matches Err(SearchError::NotReady),
        state == IndexState::Configured ==> (r matches Ok(doc) && doc@ == (DocView {
            id: id@,
            title: title@,
            content: content@,
            path: path@,
        })),
{
    if state == IndexState::Unconfigured {
        return Err(SearchError::NotReady);
    }
    Ok(
        NoteDoc {
            id: id.to_owned(),
            title: title.to_owned(),
            content: content.to_owned(),
            path: path.to_owned(),
        },
    )
}

/// Gives the key to delete from the index for one note: its key as it is.
/// Before the index is set up nothing is done.
pub fn delete_from_search_index(state: IndexState, id: &str) -> (r: Result<String, SearchError>)
    ensures
        state == IndexState::Unconfigured ==> r matches Err(SearchError::NotReady),
        state == IndexState::Configured ==> (r matches Ok(key) && key@ == id@),
{
    if state == IndexState::Unconfigured {
        return Err(SearchError::NotReady);
    }
    Ok(id.to_owned())
}

/// The keys of the documents among `docs` whose path is `relpath`, in order.
pub open spec fn matching_ids(relpath: Seq<char>, docs: Seq<DocView>) -> Seq<Seq<char>>
    decreases docs.len(),
{
    if docs.len() == 0 {
        Seq::empty()
    } else if docs.last().path == relpath {
        matching_ids(relpath, docs.drop_last()).push(docs.last().id)
    } else {
        matching_ids(relpath, docs.drop_last())
    }
}

/// Gives the keys to delete from the index for the note of a path, from the
/// documents that the engine found for that path: the key of each document
/// that has the path. Where none has it there is nothing to delete, and that
/// is no error. Before the index is set up nothing is done.
pub fn delete_by_relpath(state: IndexState, relpath: &str, hits: &Vec<NoteDoc>) -> (r: Result<
    Vec<String>,
    SearchError,
>)
    ensures
        state == IndexState::Unconfigured ==> r matches Err(SearchError::NotReady),
        state == IndexState::Configured ==> (r matches Ok(keys) && keys_view(keys@) == matching_ids(
            relpath@,
            docs_view(hits@),
        )),
        state == IndexState::Configured && hits@.len() == 0 ==> (r matches Ok(keys) && keys@.len()
            == 0),
{
    if state == IndexState::Unconfigured {
        return Err(SearchError::NotReady);
    }
    let wanted = relpath.to_owned();
    let ghost all = docs_view(hits@);
    let mut keys: Vec<String> = Vec::new();
    let mut i: usize = 0;
    proof {
        assert(all.take(0) =~= Seq::<DocView>::empty());
        assert(keys_view(keys@) =~= Seq::<Seq<char>>::empty());
    }
    while i < hits.len()
        invariant
            i <= hits.len(),
            all == docs_view(hits@),
            wanted@ == relpath@,
            keys@.len() <= i,
            keys_view(keys@) == matching_ids(relpath@, all.take(i as int)),
        decreases hits.len() - i,
    {
        proof {
            assert(all.take(i as int + 1).drop_last() =~= all.take(i as int));
            assert(all.take(i as int + 1).last() == hits@[i as int]@);
        }
        if hits[i].path == wanted {
            let ghost before = keys_view(keys@);
            let key = hits[i].id.clone();
            keys.push(key);
            proof {
                assert(keys_view(keys@) =~= before.push(hits@[i as int].id@));
            }
        }
        i += 1;
    }
    proof {
        assert(all.take(i as int) =~= all);
    }
    Ok(keys)
}

/// Where no document has the path, there is nothing to delete.
pub proof fn lemma_no_match_no_delete(relpath: Seq<char>, docs: Seq<DocView>)
    requires
        forall|i: int| 0 <= i < docs.len() ==> (#[trigger] docs[i]).path != relpath,
    ensures
        matching_ids(relpath, docs).len() == 0,
    decreases docs.len(),
{
    if docs.len() > 0 {
        let rest = docs.drop_last();
        assert(docs.last() == docs[docs.len() - 1]);
        assert forall|i: int| 0 <= i < rest.len() implies (#[trigger] rest[i]).path != relpath by {
            assert(rest[i] == docs[i]);
        }
        lemma_no_match_no_delete(relpath, rest);
    }
}

/// What the engine is asked for one query.
#[derive(Clone, Debug, PartialEq, Eq)]
pub struct SearchRequest {
    pub query: String,
    pub limit: usize,
    pub highlight_pre_tag: String,
    pub highlight_post_tag: String,
}

/// What is said where a query comes before the index is set up.
pub open spec fn not_ready_message() -> Seq<char> {
    "MeiliSearch client not initialized"@
}

/// Puts a query to the engine: the text as it is, ten hits at most, matches
/// marked as emphasis. Before the index is set up the query is refused.
pub fn search_request(state: IndexState, q: &str) -> (r: Result<SearchRequest, Failure>)
    ensures
        state == IndexState::Unconfigured ==> (r matches Err(f) && f.status == INTERNAL_SERVER_ERROR
            && f.message@ == not_ready_message()),
        state == IndexState::Configured ==> (r matches Ok(request) && request.query@ == q@
            && request.limit == RESULT_LIMIT && request.highlight_pre_tag@ == "<em>"@
            && request.highlight_post_tag@ == "</em>"@),
{
    if state == IndexState::Unconfigured {
        return Err(internal_error("MeiliSearch client not initialized".to_owned()));
    }
    Ok(
        SearchRequest {
            query: q.to_owned(),
            limit: RESULT_LIMIT,
            highlight_pre_tag: "<em>".to_owned(),
            highlight_post_tag: "</em>".to_owned(),
        },
    )
}

/// One document that the engine found, with the excerpt of its content that
/// the engine marked up, if it sent one.
#[derive(Clone, Debug, PartialEq, Eq)]
pub struct SearchHit {
    pub doc: NoteDoc,
    pub highlighted: Option<String>,
}

/// One line of a result page.
#[derive(Clone, Debug, PartialEq, Eq)]
pub struct SearchResult {
    pub title: String,
    pub path: String,
    pub snippet: String,
}

/// A result page.
#[derive(Clone, Debug, PartialEq, Eq)]
pub struct SearchResponse {
    pub results: Vec<SearchResult>,
}

/// A line of a result page as a mathematical value.
pub struct ResultView {
    pub title: Seq<char>,
    pub path: Seq<char>,
    pub snippet: Seq<char>,
}

impl View for SearchResult {
    type V = ResultView;

    open spec fn view(&self) -> ResultView {
        ResultView { title: self.title@, path: self.path@, snippet: self.snippet@ }
    }
}

/// The lines of a result page, each by its view.
pub open spec fn results_view(results: Seq<SearchResult>) -> Seq<ResultView> {
    Seq::new(results.len(), |i: int| results[i]@)
}

/// The line that a hit gives for a query: the engine's excerpt where it sent
/// one, else an excerpt cut from the content.
pub open spec fn result_of(hit: SearchHit, q: Seq<char>) -> ResultView {
    ResultView {
        title: hit.doc.title@,
        path: hit.doc.path@,
        snippet: match hit.highlighted {
            Some(h) => h@,
            None => snippet_spec(hit.doc.content@, q),
        },
    }
}

/// The text that begins the report of a query that the engine failed.
pub open spec fn search_failed_prefix() -> Seq<char> {
    "Search failed: "@
}

/// Turns one hit into a line of the result page.
pub fn search_result(hit: SearchHit, q: &str) -> (line: SearchResult)
    ensures
        line@ == result_of(hit, q@),
{
    let SearchHit { doc, highlighted } = hit;
    let snippet = match highlighted {
        Some(h) => h,
        None => extract_snippet(doc.content.as_str(), q),
    };
    SearchResult { title: doc.title, path: doc.path, snippet }
}

/// Answers the search route from what the engine found for the query, or
/// from its failure: one line for each hit, in the engine's order. A failure
/// of the engine is reported with its text under the status of an internal
/// error, and so is a query that comes before the index is set up.
pub fn search_notes(state: IndexState, q: &str, found: Result<Vec<SearchHit>, String>) -> (r: Result<
    SearchResponse,
    Failure,
>)
    ensures
        state == IndexState::Unconfigured ==> (r matches Err(f) && f.status == INTERNAL_SERVER_ERROR
            && f.message@ == not_ready_message()),
        state == IndexState::Configured ==> (match found {
            Ok(hits) => r matches Ok(page) && results_view(page.results@) == Seq::new(
                hits@.len(),
                |i: int| result_of(hits@[i], q@),
            ),
            Err(e) => r matches Err(f) && f.status == INTERNAL_SERVER_ERROR && f.message@
                == search_failed_prefix() + e@,
        }),
{
    if state == IndexState::Unconfigured {
        return Err(internal_error("MeiliSearch client not initialized".to_owned()));
    }
    match found {
        Err(e) => {
            let mut message = "Search failed: ".to_owned();
            message.append(e.as_str());
            Err(internal_error(message))
        },
        Ok(hits) => {
            let ghost all = hits@;
            let mut results: Vec<SearchResult> = Vec::new();
            for hit in it: hits
                invariant
                    it.seq() == all,
                    results@.len() == it.index(),
                    forall|k: int|
                        0 <= k < results@.len() ==> (#[trigger] results@[k])@ == result_of(all[k], q@),
            {
                let line = search_result(hit, q);
                results.push(line);
            }
            proof {
                assert(results_view(results@) =~= Seq::new(
                    all.len(),
                    |i: int| result_of(all[i], q@),
                ));
            }
            Ok(SearchResponse { results })
        },
    }
}

} // verus!
