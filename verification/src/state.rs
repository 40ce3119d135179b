//! The app's state: the access token, the caches of listings and of document
//! scans, and the generation counter by which a running scan learns it was
//! cancelled.

use vstd::prelude::*;
use crate::drive::{DriveFile, DriveFileView, file_views, copy_files};
use crate::text::{opt_text, trim, trimmed, is_blank_text, copy_opt_text};

verus! {

/// Whether an access token is set.
#[derive(PartialEq, Eq, Structural, Debug, Clone, Copy)]
pub struct AuthState {
    pub connected: bool,
}

/// The last scan result of a document, with the modification time it was made for.
pub struct CachedDocScan {
    pub modified_time: Option<String>,
    pub has_images: bool,
}

pub struct CachedDocScanView {
    pub modified_time: Option<Seq<char>>,
    pub has_images: bool,
}

impl View for CachedDocScan {
    type V = CachedDocScanView;

    open spec fn view(&self) -> CachedDocScanView {
        CachedDocScanView { modified_time: opt_text(self.modified_time), has_images: self.has_images }
    }
}

/// `i` is the first position of `key` in `s`.
pub open spec fn is_first_key<V>(s: Seq<(String, V)>, key: Seq<char>, i: int) -> bool {
    &&& 0 <= i < s.len()
    &&& s[i].0@ == key
    &&& forall|j: int| 0 <= j < i ==> s[j].0@ != key
}

/// The first position of `key` in `s`, if it occurs.
pub open spec fn key_index<V>(s: Seq<(String, V)>, key: Seq<char>) -> Option<int> {
    if exists|i: int| #[trigger] is_first_key(s, key, i) {
        Some(choose|i: int| #[trigger] is_first_key(s, key, i))
    } else {
        None
    }
}

proof fn lemma_first_key_unique<V>(s: Seq<(String, V)>, key: Seq<char>, i: int)
    requires
        is_first_key(s, key, i),
    ensures
        key_index(s, key) == Some(i),
{
    let k = choose|k: int| #[trigger] is_first_key(s, key, k);
    if k < i {
        assert(s[k].0@ != key);
    } else if i < k {
        assert(s[i].0@ != key);
    }
}

proof fn lemma_key_present<V>(s: Seq<(String, V)>, key: Seq<char>, i: int)
    requires
        0 <= i < s.len(),
        s[i].0@ == key,
    ensures
        key_index(s, key) is Some,
    decreases i,
{
    if exists|j: int| 0 <= j < i && s[j].0@ == key {
        let j = choose|j: int| 0 <= j < i && s[j].0@ == key;
        lemma_key_present(s, key, j);
    } else {
        assert(is_first_key(s, key, i));
    }
}

proof fn lemma_same_keys<V>(s: Seq<(String, V)>, t: Seq<(String, V)>, key: Seq<char>)
    requires
        s.len() == t.len(),
        forall|j: int| 0 <= j < s.len() ==> (#[trigger] s[j]).0@ == t[j].0@,
    ensures
        key_index(s, key) == key_index(t, key),
{
    if exists|i: int| #[trigger] is_first_key(s, key, i) {
        let i = choose|i: int| #[trigger] is_first_key(s, key, i);
        assert(is_first_key(t, key, i)) by {
            assert forall|j: int| 0 <= j < i implies t[j].0@ != key by {
                assert(s[j].0@ != key);
            }
        }
        lemma_first_key_unique(s, key, i);
        lemma_first_key_unique(t, key, i);
    } else if exists|i: int| #[trigger] is_first_key(t, key, i) {
        let i = choose|i: int| #[trigger] is_first_key(t, key, i);
        assert(is_first_key(s, key, i)) by {
            assert forall|j: int| 0 <= j < i implies s[j].0@ != key by {
                assert(t[j].0@ != key);
            }
        }
    }
}

proof fn lemma_push_key<V>(s: Seq<(String, V)>, entry: (String, V), key: Seq<char>)
    requires
        key_index(s, entry.0@) is None,
    ensures
        key == entry.0@ ==> key_index(s.push(entry), key) == Some(s.len() as int),
        key != entry.0@ ==> key_index(s.push(entry), key) == key_index(s, key),
{
    let t = s.push(entry);
    assert forall|j: int| 0 <= j < s.len() implies s[j].0@ != entry.0@ by {
        if s[j].0@ == entry.0@ {
            lemma_key_present(s, entry.0@, j);
        }
    }
    if key == entry.0@ {
        assert(is_first_key(t, key, s.len() as int)) by {
            assert forall|j: int| 0 <= j < s.len() implies t[j].0@ != key by {
                assert(t[j] == s[j]);
            }
        }
        lemma_first_key_unique(t, key, s.len() as int);
    } else {
        if exists|i: int| #[trigger] is_first_key(s, key, i) {
            let i = choose|i: int| #[trigger] is_first_key(s, key, i);
            assert(is_first_key(t, key, i)) by {
                assert forall|j: int| 0 <= j < i implies t[j].0@ != key by {
                    assert(t[j] == s[j]);
                    assert(s[j].0@ != key);
                }
            }
            lemma_first_key_unique(t, key, i);
        } else if exists|i: int| #[trigger] is_first_key(t, key, i) {
            let i = choose|i: int| #[trigger] is_first_key(t, key, i);
            assert(i < s.len());
            assert(is_first_key(s, key, i)) by {
                assert forall|j: int| 0 <= j < i implies s[j].0@ != key by {
                    assert(t[j] == s[j]);
                }
            }
        }
    }
}

/// The first position of `key` among the entries.
fn find_key<V>(s: &Vec<(String, V)>, key: &str) -> (r: Option<usize>)
    ensures
        match r {
            Some(i) => key_index(s@, key@) == Some(i as int),
            None => key_index(s@, key@) is None,
        },
{
    let mut i: usize = 0;
    while i < s.len()
        invariant
            i <= s@.len(),
            forall|j: int| 0 <= j < i ==> (#[trigger] s@[j]).0@ != key@,
        decreases s@.len() - i,
    {
        if crate::text::same_text(s[i].0.as_str(), key) {
            proof {
                lemma_first_key_unique(s@, key@, i as int);
            }
            return Some(i);
        }
        i = i + 1;
    }
    proof {
        if exists|k: int| #[trigger] is_first_key(s@, key@, k) {
            let k = choose|k: int| #[trigger] is_first_key(s@, key@, k);
            assert(s@[k].0@ != key@);
        }
    }
    None
}

/// The listings by folder id that the entries hold: the first entry for an id.
pub open spec fn listing_map(s: Seq<(String, Vec<DriveFile>)>) -> Map<Seq<char>, Seq<DriveFileView>> {
    Map::new(
        |k: Seq<char>| key_index(s, k) is Some,
        |k: Seq<char>| file_views(s[key_index(s, k)->0].1@),
    )
}

/// The document scans by document id that the entries hold: the first entry for an id.
pub open spec fn scan_map(s: Seq<(String, CachedDocScan)>) -> Map<Seq<char>, CachedDocScanView> {
    Map::new(
        |k: Seq<char>| key_index(s, k) is Some,
        |k: Seq<char>| s[key_index(s, k)->0].1@,
    )
}

/// The generation after `g`: one more, wrapping at the top as an atomic add does.
pub open spec fn next_generation(g: u64) -> u64 {
    if g == u64::MAX {
        0
    } else {
        (g + 1) as u64
    }
}

fn bump_generation(g: u64) -> (r: u64)
    ensures
        r == next_generation(g),
{
    if g == u64::MAX {
        0
    } else {
        g + 1
    }
}

/// A listing of the children of a folder.
pub struct DriveListResponse {
    pub parent_id: String,
    pub files: Vec<DriveFile>,
}

/// The folder listed when none is named.
pub const ROOT_FOLDER: &'static str = "root";

/// The folder to list: `parent_id`, or the Drive root where none is named.
pub fn resolve_parent_id(parent_id: Option<String>) -> (p: String)
    ensures
        p@ == match parent_id {
            Some(id) => id@,
            None => ROOT_FOLDER@,
        },
{
    match parent_id {
        Some(id) => id,
        None => ROOT_FOLDER.to_owned(),
    }
}

/// The state of the app.
pub struct AppState {
    access_token: Option<String>,
    scan_cache: Vec<(String, CachedDocScan)>,
    drive_cache: Vec<(String, Vec<DriveFile>)>,
    scan_generation: u64,
}

pub struct AppStateView {
    pub access_token: Option<Seq<char>>,
    pub scan_cache: Map<Seq<char>, CachedDocScanView>,
    pub drive_cache: Map<Seq<char>, Seq<DriveFileView>>,
    pub scan_generation: u64,
}

impl View for AppState {
    type V = AppStateView;

    closed spec fn view(&self) -> AppStateView {
        AppStateView {
            access_token: opt_text(self.access_token),
            scan_cache: scan_map(self.scan_cache@),
            drive_cache: listing_map(self.drive_cache@),
            scan_generation: self.scan_generation,
        }
    }
}

/// The state after a cancellation: every scan running so far is stale.
pub open spec fn cancelled(s: AppStateView) -> AppStateView {
    AppStateView { scan_generation: next_generation(s.scan_generation), ..s }
}

/// The state after the token is cleared: no token, empty caches, and every
/// scan running so far stale.
pub open spec fn cleared(s: AppStateView) -> AppStateView {
    AppStateView {
        access_token: None,
        scan_cache: Map::empty(),
        drive_cache: Map::empty(),
        scan_generation: next_generation(s.scan_generation),
    }
}

/// The state after the listing of `parent_id` is recorded.
pub open spec fn with_listing(s: AppStateView, parent_id: Seq<char>, files: Seq<DriveFileView>) -> AppStateView {
    AppStateView { drive_cache: s.drive_cache.insert(parent_id, files), ..s }
}

/// The state after the scan of document `doc_id` is recorded.
pub open spec fn with_doc_scan(s: AppStateView, doc_id: Seq<char>, entry: CachedDocScanView) -> AppStateView {
    AppStateView { scan_cache: s.scan_cache.insert(doc_id, entry), ..s }
}

/// A scan of generation `generation` is stale in state `s`.
pub open spec fn is_stale(s: AppStateView, generation: u64) -> bool {
    s.scan_generation != generation
}

impl AppState {
    /// No token, empty caches, generation zero.
    pub fn new() -> (s: AppState)
        ensures
            s@ == (AppStateView {
                access_token: None,
                scan_cache: Map::empty(),
                drive_cache: Map::empty(),
                scan_generation: 0,
            }),
    {
        let s = AppState { access_token: None, scan_cache: Vec::new(), drive_cache: Vec::new(), scan_generation: 0 };
        assert(s@.scan_cache =~= Map::empty());
        assert(s@.drive_cache =~= Map::empty());
        s
    }

    /// Sets the token to `token` trimmed; a token that is blank is refused and
    /// the state left as it was.
    pub fn set_access_token(&mut self, token: &str) -> (r: Result<AuthState, String>)
        ensures
            match r {
                Ok(a) => !is_blank_text(token@) && a.connected
                    && final(self)@ == (AppStateView { access_token: Some(trimmed(token@)), ..old(self)@ }),
                Err(e) => is_blank_text(token@) && e@ == "Access token cannot be empty."@
                    && final(self)@ == old(self)@,
            },
    {
        let cleaned = trim(token);
        if cleaned.as_str().unicode_len() == 0 {
            return Err("Access token cannot be empty.".to_owned());
        }
        self.access_token = Some(cleaned);
        Ok(AuthState { connected: true })
    }

    /// Clears the token and both caches, and makes every running scan stale.
    pub fn clear_access_token(&mut self) -> (a: AuthState)
        ensures
            !a.connected,
            final(self)@ == cleared(old(self)@),
    {
        self.access_token = None;
        self.scan_cache = Vec::new();
        self.drive_cache = Vec::new();
        self.scan_generation = bump_generation(self.scan_generation);
        assert(self@.scan_cache =~= Map::empty());
        assert(self@.drive_cache =~= Map::empty());
        AuthState { connected: false }
    }

    /// Whether a token is set.
    pub fn get_auth_state(&self) -> (a: AuthState)
        ensures
            a.connected == (self@.access_token is Some),
    {
        AuthState { connected: self.access_token.is_some() }
    }

    /// The token, or the error that none is set.
    pub fn read_token(&self) -> (r: Result<String, String>)
        ensures
            match r {
                Ok(t) => self@.access_token == Some(t@),
                Err(e) => self@.access_token is None && e@ == "Google access token is not configured."@,
            },
    {
        match &self.access_token {
            Some(t) => Ok(t.clone()),
            None => Err("Google access token is not configured.".to_owned()),
        }
    }

    /// Makes every running scan stale.
    pub fn cancel_scan(&mut self)
        ensures
            final(self)@ == cancelled(old(self)@),
    {
        self.scan_generation = bump_generation(self.scan_generation);
    }

    /// The current generation.
    pub fn scan_generation(&self) -> (g: u64)
        ensures
            g == self@.scan_generation,
    {
        self.scan_generation
    }

    /// Starts a scan: every running scan becomes stale, and the new scan's
    /// generation is returned.
    pub fn begin_scan(&mut self) -> (g: u64)
        requires
            old(self)@.scan_generation < u64::MAX,
        ensures
            g == old(self)@.scan_generation + 1,
            final(self)@ == cancelled(old(self)@),
    {
        self.scan_generation = self.scan_generation + 1;
        self.scan_generation
    }

    /// Whether the scan of generation `generation` is stale.
    pub fn scan_cancelled(&self, generation: u64) -> (b: bool)
        ensures
            b == is_stale(self@, generation),
    {
        self.scan_generation != generation
    }

    /// The recorded listing of `parent_id`, if any.
    pub fn cached_listing(&self, parent_id: &str) -> (r: Option<Vec<DriveFile>>)
        ensures
            match r {
                Some(files) => self@.drive_cache.contains_key(parent_id@)
                    && file_views(files@) == self@.drive_cache[parent_id@],
                None => !self@.drive_cache.contains_key(parent_id@),
            },
    {
        match find_key(&self.drive_cache, parent_id) {
            Some(i) => Some(copy_files(&self.drive_cache[i].1)),
            None => None,
        }
    }

    /// Records `files` as the listing of `parent_id`, in place of any earlier one.
    pub fn store_listing(&mut self, parent_id: &str, files: Vec<DriveFile>)
        ensures
            final(self)@ == with_listing(old(self)@, parent_id@, file_views(files@)),
    {
        let ghost old_s = self.drive_cache@;
        let ghost fv = file_views(files@);
        let key = parent_id.to_owned();
        match find_key(&self.drive_cache, parent_id) {
            Some(i) => {
                self.drive_cache.set(i, (key, files));
                proof {
                    let new_s = self.drive_cache@;
                    assert forall|j: int| 0 <= j < old_s.len() implies (#[trigger] old_s[j]).0@ == new_s[j].0@ by {}
                    assert forall|k: Seq<char>| true implies key_index(new_s, k) == key_index(old_s, k) by {
                        lemma_same_keys(old_s, new_s, k);
                    }
                }
            },
            None => {
                let ghost entry = (key, files);
                self.drive_cache.push((key, files));
                proof {
                    assert forall|k: Seq<char>| true implies (k == parent_id@ ==> key_index(self.drive_cache@, k) == Some(old_s.len() as int))
                        && (k != parent_id@ ==> key_index(self.drive_cache@, k) == key_index(old_s, k)) by {
                        lemma_push_key(old_s, entry, k);
                    }
                    assert forall|k: Seq<char>| key_index(old_s, k) is Some implies self.drive_cache@[key_index(old_s, k)->0] == old_s[key_index(old_s, k)->0] by {
                        let i = choose|i: int| #[trigger] is_first_key(old_s, k, i);
                    }
                }
            },
        }
        assert(self@.drive_cache =~= old(self)@.drive_cache.insert(parent_id@, fv));
    }

    /// Records the listing `files` of `parent_id` and gives it back as the answer.
    pub fn record_listing(&mut self, parent_id: String, files: Vec<DriveFile>) -> (r: DriveListResponse)
        ensures
            final(self)@ == with_listing(old(self)@, parent_id@, file_views(files@)),
            r.parent_id@ == parent_id@,
            file_views(r.files@) == file_views(files@),
    {
        let stored = copy_files(&files);
        self.store_listing(parent_id.as_str(), stored);
        DriveListResponse { parent_id, files }
    }

    /// The recorded scan of document `doc_id`, if any.
    pub fn cached_scan(&self, doc_id: &str) -> (r: Option<CachedDocScan>)
        ensures
            match r {
                Some(c) => self@.scan_cache.contains_key(doc_id@) && c@ == self@.scan_cache[doc_id@],
                None => !self@.scan_cache.contains_key(doc_id@),
            },
    {
        match find_key(&self.scan_cache, doc_id) {
            Some(i) => {
                let c = &self.scan_cache[i].1;
                Some(CachedDocScan { modified_time: copy_opt_text(&c.modified_time), has_images: c.has_images })
            },
            None => None,
        }
    }

    /// Records that document `doc_id`, as of `modified_time`, has images or not,
    /// in place of any earlier record.
    pub fn store_scan(&mut self, doc_id: &str, modified_time: Option<String>, has_images: bool)
        ensures
            final(self)@ == with_doc_scan(
                old(self)@,
                doc_id@,
                CachedDocScanView { modified_time: opt_text(modified_time), has_images },
            ),
    {
        let ghost old_s = self.scan_cache@;
        let ghost cv = CachedDocScanView { modified_time: opt_text(modified_time), has_images };
        let key = doc_id.to_owned();
        let entry = CachedDocScan { modified_time, has_images };
        match find_key(&self.scan_cache, doc_id) {
            Some(i) => {
                self.scan_cache.set(i, (key, entry));
                proof {
                    let new_s = self.scan_cache@;
                    assert forall|j: int| 0 <= j < old_s.len() implies (#[trigger] old_s[j]).0@ == new_s[j].0@ by {}
                    assert forall|k: Seq<char>| true implies key_index(new_s, k) == key_index(old_s, k) by {
                        lemma_same_keys(old_s, new_s, k);
                    }
                }
            },
            None => {
                let ghost pair = (key, entry);
                self.scan_cache.push((key, entry));
                proof {
                    assert forall|k: Seq<char>| true implies (k == doc_id@ ==> key_index(self.scan_cache@, k) == Some(old_s.len() as int))
                        && (k != doc_id@ ==> key_index(self.scan_cache@, k) == key_index(old_s, k)) by {
                        lemma_push_key(old_s, pair, k);
                    }
                    assert forall|k: Seq<char>| key_index(old_s, k) is Some implies self.scan_cache@[key_index(old_s, k)->0] == old_s[key_index(old_s, k)->0] by {
                        let i = choose|i: int| #[trigger] is_first_key(old_s, k, i);
                    }
                }
            },
        }
        assert(self@.scan_cache =~= old(self)@.scan_cache.insert(doc_id@, cv));
    }
}

} // verus!
