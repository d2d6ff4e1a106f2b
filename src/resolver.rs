use vstd::prelude::*;

use crate::content_type::{content_type_of, detect_content_type, lemma_extension_under, ContentType};
use crate::request_path::{
    clean, clean_request_path, has_parent_segment, is_absolute, is_accepted, is_safe_path,
    lemma_clean_safe, lemma_normalized_safe, lemma_segments_dir, normalize, normalized, segments,
};
use crate::text::last_index_of;

verus! {

/// Why a file could not be served; the text says which.
#[derive(Debug)]
pub struct LoadError(pub String);

/// A resolved content fragment: the file's text and the type to serve it as.
#[derive(Debug)]
pub struct Page {
    pub content_type: ContentType,
    pub contents: String,
}

/// The file that request path `p` names: cleaned, then normalized.
pub open spec fn target_of(p: Seq<char>) -> Seq<char> {
    normalized(clean(p))
}

/// Where a request path is looked for, in order: under "pages/", then under
/// "public/", each with the path's target. A refused path has no candidates
/// at all, so nothing is read for it.
pub open spec fn candidates_of(p: Seq<char>) -> Seq<Seq<char>> {
    if is_accepted(p) {
        seq!["pages/"@ + target_of(p), "public/"@ + target_of(p)]
    } else {
        Seq::empty()
    }
}

/// The message of the not-found error for request path `p`.
pub open spec fn failure_of(p: Seq<char>) -> Seq<char> {
    if is_accepted(p) {
        "failed to load any of "@ + candidates_of(p)[0] + ", "@ + candidates_of(p)[1]
    } else {
        "refused path "@ + p
    }
}

/// Where a lookup stands: the candidates, the index of the one to read next,
/// and the message to give if none can be read.
pub struct LookupState {
    pub candidates: Seq<Seq<char>>,
    pub next: nat,
    pub failure: Seq<char>,
}

/// The lookup of request path `p`, before anything is read.
pub open spec fn start_state(p: Seq<char>) -> LookupState {
    LookupState { candidates: candidates_of(p), next: 0, failure: failure_of(p) }
}

/// What a lookup asks for, or ends with.
pub enum ActionModel {
    Read(Seq<char>),
    Found(ContentType, Seq<char>),
    NotFound(Seq<char>),
}

/// What to do in state `st`: read the next candidate, or, with none left,
/// end with not found.
pub open spec fn action_at(st: LookupState) -> ActionModel {
    if st.next < st.candidates.len() {
        ActionModel::Read(st.candidates[st.next as int])
    } else {
        ActionModel::NotFound(st.failure)
    }
}

/// `st` with its current candidate given up.
pub open spec fn advance(st: LookupState) -> LookupState {
    LookupState { next: st.next + 1, ..st }
}

/// The page that reading `path` with result `contents` gives.
pub open spec fn found(path: Seq<char>, contents: Seq<char>) -> ActionModel {
    ActionModel::Found(content_type_of(path), contents)
}

/// How a lookup from `st` ends when each read of a path in `files` returns
/// that entry, and each read of another path fails.
pub open spec fn run(st: LookupState, files: Map<Seq<char>, Seq<char>>) -> ActionModel
    decreases st.candidates.len() - st.next,
{
    if st.next < st.candidates.len() {
        let path = st.candidates[st.next as int];
        if files.contains_key(path) {
            found(path, files[path])
        } else {
            run(advance(st), files)
        }
    } else {
        ActionModel::NotFound(st.failure)
    }
}

/// How `run` steps: with no candidate left it ends as `action_at` says;
/// a readable current candidate is what `on_read` then returns; an
/// unreadable one leaves the rest to the state `on_read` moves to.
pub proof fn lemma_run_steps(st: LookupState, files: Map<Seq<char>, Seq<char>>)
    ensures
        st.next >= st.candidates.len() ==> run(st, files) == action_at(st),
        st.next < st.candidates.len() && files.contains_key(st.candidates[st.next as int])
            ==> run(st, files) == found(
            st.candidates[st.next as int],
            files[st.candidates[st.next as int]],
        ),
        st.next < st.candidates.len() && !files.contains_key(st.candidates[st.next as int])
            ==> run(st, files) == run(advance(st), files),
{
}

/// When the "pages" candidate can be read, it is served, whatever "public"
/// holds.
pub proof fn lemma_pages_take_precedence(p: Seq<char>, files: Map<Seq<char>, Seq<char>>)
    requires
        is_accepted(p),
        files.contains_key("pages/"@ + target_of(p)),
    ensures
        run(start_state(p), files) == found("pages/"@ + target_of(p), files["pages/"@ + target_of(p)]),
{
}

/// When the "pages" candidate cannot be read and the "public" one can, the
/// "public" one is served.
pub proof fn lemma_public_serves_the_rest(p: Seq<char>, files: Map<Seq<char>, Seq<char>>)
    requires
        is_accepted(p),
        !files.contains_key("pages/"@ + target_of(p)),
        files.contains_key("public/"@ + target_of(p)),
    ensures
        run(start_state(p), files) == found("public/"@ + target_of(p), files["public/"@ + target_of(p)]),
{
    let st = start_state(p);
    assert(run(st, files) == run(advance(st), files));
}

/// When no candidate can be read, the lookup ends with not found.
pub proof fn lemma_nothing_readable_is_not_found(p: Seq<char>, files: Map<Seq<char>, Seq<char>>)
    requires
        forall|i: int| 0 <= i < candidates_of(p).len() ==> !files.contains_key(candidates_of(p)[i]),
    ensures
        run(start_state(p), files) == ActionModel::NotFound(failure_of(p)),
{
    let st = start_state(p);
    if is_accepted(p) {
        assert(!files.contains_key(st.candidates[0]));
        assert(!files.contains_key(st.candidates[1]));
        assert(run(st, files) == run(advance(st), files));
        assert(run(advance(st), files) == run(advance(advance(st)), files));
    }
}

/// A path with a ".." segment, or an absolute one, is refused outright: the
/// first step is not found, so nothing is read at all.
pub proof fn lemma_traversal_refused(p: Seq<char>, files: Map<Seq<char>, Seq<char>>)
    requires
        has_parent_segment(p) || is_absolute(p),
    ensures
        action_at(start_state(p)) == ActionModel::NotFound(failure_of(p)),
        run(start_state(p), files) == ActionModel::NotFound(failure_of(p)),
{
}

/// Every read that a lookup asks for is a safe path under "pages/" or
/// "public/", so no read leaves the content root.
pub proof fn lemma_candidates_confined(p: Seq<char>)
    ensures
        forall|i: int|
            0 <= i < candidates_of(p).len() ==> (candidates_of(p)[i] == "pages/"@ + target_of(p)
                || candidates_of(p)[i] == "public/"@ + target_of(p)),
        candidates_of(p).len() > 0 ==> is_safe_path(target_of(p)),
{
    if is_accepted(p) {
        lemma_clean_safe(p);
        lemma_normalized_safe(clean(p));
    }
}

/// A page found under either root has the content type of the path's
/// target.
pub proof fn lemma_candidate_type(p: Seq<char>)
    ensures
        forall|i: int|
            0 <= i < candidates_of(p).len() ==> content_type_of(candidates_of(p)[i])
                == content_type_of(target_of(p)),
{
    if is_accepted(p) {
        reveal_strlit("pages/");
        reveal_strlit("public/");
        let pages = seq!['p', 'a', 'g', 'e', 's'];
        let public = seq!['p', 'u', 'b', 'l', 'i', 'c'];
        assert("pages/"@ =~= pages + seq!['/']);
        assert("public/"@ =~= public + seq!['/']);
        reveal_with_fuel(last_index_of, 8);
        assert(!pages.contains('/')) by {
            if pages.contains('/') {
                let j = choose|j: int| 0 <= j < pages.len() && pages[j] == '/';
                assert(j < 5);
            }
        }
        assert(!public.contains('/')) by {
            if public.contains('/') {
                let j = choose|j: int| 0 <= j < public.len() && public[j] == '/';
                assert(j < 6);
            }
        }
        lemma_segments_dir(pages);
        lemma_segments_dir(public);
        lemma_extension_under(pages, target_of(p));
        lemma_extension_under(public, target_of(p));
    }
}

/// The next step of a lookup.
pub enum Action {
    /// Read the file at this path, relative to the content root, and hand
    /// the outcome to `Lookup::on_read`.
    Read(String),
    /// The lookup is over.
    Done(Result<Page, LoadError>),
}

impl View for Action {
    type V = ActionModel;

    open spec fn view(&self) -> ActionModel {
        match self {
            Action::Read(p) => ActionModel::Read(p@),
            Action::Done(Ok(page)) => ActionModel::Found(page.content_type, page.contents@),
            Action::Done(Err(e)) => ActionModel::NotFound(e.0@),
        }
    }
}

/// An ongoing lookup of one request path. The candidates are tried in order
/// and the first that can be read wins.
pub struct Lookup {
    candidates: Vec<String>,
    next: usize,
    failure: String,
}

impl View for Lookup {
    type V = LookupState;

    closed spec fn view(&self) -> LookupState {
        LookupState {
            candidates: Seq::new(self.candidates@.len(), |i: int| self.candidates@[i]@),
            next: self.next as nat,
            failure: self.failure@,
        }
    }
}

impl Lookup {
    /// Starts the lookup of request path `path`.
    pub fn new(path: &str) -> (r: Lookup)
        ensures
            r@ == start_state(path@),
    {
        if let Some(cleaned) = clean_request_path(path) {
            let name = normalize(cleaned.as_str());
            let first = String::from_str("pages/").concat(name.as_str());
            let second = String::from_str("public/").concat(name.as_str());
            let failure = String::from_str("failed to load any of ").concat(first.as_str()).concat(
                ", ",
            ).concat(second.as_str());
            let candidates = vec![first, second];
            let r = Lookup { candidates, next: 0, failure };
            assert(r@.candidates =~= candidates_of(path@));
            r
        } else {
            let failure = String::from_str("refused path ").concat(path);
            let r = Lookup { candidates: Vec::new(), next: 0, failure };
            assert(r@.candidates =~= candidates_of(path@));
            r
        }
    }

    /// What to do now: read the current candidate, or, with none left, end
    /// with not found.
    pub fn next_action(&self) -> (r: Action)
        requires
            self@.next <= self@.candidates.len(),
        ensures
            r@ == action_at(self@),
    {
        if self.next < self.candidates.len() {
            Action::Read(self.candidates[self.next].clone())
        } else {
            Action::Done(Err(LoadError(self.failure.clone())))
        }
    }

    /// Takes the outcome of reading the current candidate. A read that
    /// succeeded ends the lookup with that file; one that failed moves on to
    /// the next candidate.
    pub fn on_read(&mut self, outcome: Result<String, LoadError>) -> (r: Action)
        requires
            old(self)@.next < old(self)@.candidates.len(),
        ensures
            match outcome {
                Ok(contents) => {
                    &&& *final(self) == *old(self)
                    &&& r@ == found(old(self)@.candidates[old(self)@.next as int], contents@)
                },
                Err(_) => {
                    &&& final(self)@ == advance(old(self)@)
                    &&& r@ == action_at(final(self)@)
                },
            },
            final(self)@.next <= final(self)@.candidates.len(),
    {
        match outcome {
            Ok(contents) => {
                let content_type = detect_content_type(self.candidates[self.next].as_str());
                Action::Done(Ok(Page { content_type, contents }))
            },
            Err(_) => {
                let n: usize = self.candidates.len();
                assert(self.next < n);
                self.next = self.next + 1;
                self.next_action()
            },
        }
    }
}

} // verus!
