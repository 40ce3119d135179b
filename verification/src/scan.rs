//! A scan of a folder for Google Docs with images: the walk over the folders,
//! the documents answered from the cache, the results as they come in, and the
//! final report.

use vstd::prelude::*;
use crate::drive::{DriveFile, DriveFileView, file_views};
use crate::folders::{collect_matching_folder_ids, matching_folders};
use crate::order::{sort_matches, sorted_by_key, with_key};
use crate::state::{AppState, AppStateView, CachedDocScanView, is_stale, with_doc_scan};
use crate::text::{is_blank, is_blank_text, opt_text, texts, usize_text, decimal};

verus! {

pub const MSG_READING_FOLDERS: &'static str = "正在读取目录...";
pub const MSG_CACHED_RESULT: &'static str = "使用缓存结果";
pub const MSG_SCAN_CANCELLED: &'static str = "扫描已取消";
pub const MSG_CHECKING_DOC: &'static str = "正在检查文档";
pub const MSG_FOLDERS_READ_PREFIX: &'static str = "正在读取目录，已读取 ";
pub const MSG_FOLDERS_READ_SUFFIX: &'static str = " 个文件夹";

/// The folder scanned when none is named.
pub const DEFAULT_ROOT: &'static str = "root";

/// How far a scan has come.
pub struct ScanProgress {
    pub folder_id: String,
    pub total_files: usize,
    pub total_docs: usize,
    pub scanned_folders: usize,
    pub checked_docs: usize,
    pub scanned_docs: usize,
    pub cache_hits: usize,
    pub failed_docs: usize,
    pub docs_with_images: usize,
    pub current_file_name: Option<String>,
    pub cancelled: bool,
    pub message: String,
}

pub struct ScanProgressView {
    pub folder_id: Seq<char>,
    pub total_files: nat,
    pub total_docs: nat,
    pub scanned_folders: nat,
    pub checked_docs: nat,
    pub scanned_docs: nat,
    pub cache_hits: nat,
    pub failed_docs: nat,
    pub docs_with_images: nat,
    pub current_file_name: Option<Seq<char>>,
    pub cancelled: bool,
    pub message: Seq<char>,
}

impl View for ScanProgress {
    type V = ScanProgressView;

    open spec fn view(&self) -> ScanProgressView {
        ScanProgressView {
            folder_id: self.folder_id@,
            total_files: self.total_files as nat,
            total_docs: self.total_docs as nat,
            scanned_folders: self.scanned_folders as nat,
            checked_docs: self.checked_docs as nat,
            scanned_docs: self.scanned_docs as nat,
            cache_hits: self.cache_hits as nat,
            failed_docs: self.failed_docs as nat,
            docs_with_images: self.docs_with_images as nat,
            current_file_name: opt_text(self.current_file_name),
            cancelled: self.cancelled,
            message: self.message@,
        }
    }
}

/// The views of a sequence of progress reports.
pub open spec fn progress_views(v: Seq<ScanProgress>) -> Seq<ScanProgressView> {
    v.map_values(|p: ScanProgress| p@)
}

/// A document whose scan failed, and why.
pub struct ScanFailure {
    pub id: String,
    pub name: String,
    pub reason: String,
}

pub struct ScanFailureView {
    pub id: Seq<char>,
    pub name: Seq<char>,
    pub reason: Seq<char>,
}

impl View for ScanFailure {
    type V = ScanFailureView;

    open spec fn view(&self) -> ScanFailureView {
        ScanFailureView { id: self.id@, name: self.name@, reason: self.reason@ }
    }
}

/// The views of a sequence of failures.
pub open spec fn failure_views(v: Seq<ScanFailure>) -> Seq<ScanFailureView> {
    v.map_values(|f: ScanFailure| f@)
}

/// The report of a finished scan.
pub struct ScanResult {
    pub folder_id: String,
    pub recursive: bool,
    pub total_files: usize,
    pub total_docs: usize,
    pub scanned_docs: usize,
    pub cache_hits: usize,
    pub failed_docs: usize,
    pub docs_with_images: usize,
    pub matches: Vec<DriveFile>,
    pub matching_folder_ids: Vec<String>,
    pub failures: Vec<ScanFailure>,
}

/// The folder a scan starts from: `folder_id`, or the Drive root where it is blank.
pub open spec fn scan_root(folder_id: Seq<char>) -> Seq<char> {
    if is_blank_text(folder_id) {
        DEFAULT_ROOT@
    } else {
        folder_id
    }
}

/// The folder a scan starts from: `folder_id`, or the Drive root where it is blank.
pub fn resolve_scan_root(folder_id: String) -> (root: String)
    ensures
        root@ == scan_root(folder_id@),
{
    if is_blank(folder_id.as_str()) {
        DEFAULT_ROOT.to_owned()
    } else {
        folder_id
    }
}

/// The progress of a scan that only knows its root.
pub open spec fn empty_progress(root: Seq<char>, message: Seq<char>) -> ScanProgressView {
    ScanProgressView {
        folder_id: root,
        total_files: 0,
        total_docs: 0,
        scanned_folders: 0,
        checked_docs: 0,
        scanned_docs: 0,
        cache_hits: 0,
        failed_docs: 0,
        docs_with_images: 0,
        current_file_name: None,
        cancelled: false,
        message,
    }
}

/// The progress shown as a scan starts reading folders.
pub fn initial_progress(root: &str) -> (p: ScanProgress)
    ensures
        p@ == empty_progress(root@, MSG_READING_FOLDERS@),
{
    ScanProgress {
        folder_id: root.to_owned(),
        total_files: 0,
        total_docs: 0,
        scanned_folders: 0,
        checked_docs: 0,
        scanned_docs: 0,
        cache_hits: 0,
        failed_docs: 0,
        docs_with_images: 0,
        current_file_name: None,
        cancelled: false,
        message: MSG_READING_FOLDERS.to_owned(),
    }
}

/// The number of Google Docs among `files`.
pub open spec fn doc_count(files: Seq<DriveFileView>) -> nat
    decreases files.len(),
{
    if files.len() == 0 {
        0
    } else {
        doc_count(files.drop_last()) + if files.last().is_google_doc { 1nat } else { 0nat }
    }
}

/// The ids of the folders among `files`, in order.
pub open spec fn folder_ids(files: Seq<DriveFileView>) -> Seq<Seq<char>>
    decreases files.len(),
{
    if files.len() == 0 {
        Seq::empty()
    } else if files.last().is_folder {
        folder_ids(files.drop_last()).push(files.last().id)
    } else {
        folder_ids(files.drop_last())
    }
}

/// The message while folders are read.
pub open spec fn folders_read_message(scanned_folders: nat) -> Seq<char> {
    MSG_FOLDERS_READ_PREFIX@ + decimal(scanned_folders) + MSG_FOLDERS_READ_SUFFIX@
}

/// The walk after the children of the folder handed out last came in: they
/// join the files, their Google Docs are counted, and in a recursive walk
/// their folders join the folders to read.
pub open spec fn absorbed(w: FolderWalkView, children: Seq<DriveFileView>) -> FolderWalkView {
    FolderWalkView {
        remaining: if w.recursive {
            w.remaining + folder_ids(children)
        } else {
            w.remaining
        },
        collected: w.collected + children,
        scanned_folders: w.scanned_folders + 1,
        discovered_docs: w.discovered_docs + doc_count(children),
        pending: false,
        ..w
    }
}

/// The walk over the folders of a scan, breadth first from the root.
pub struct FolderWalk {
    root: String,
    recursive: bool,
    queue: Vec<String>,
    head: usize,
    collected: Vec<DriveFile>,
    scanned_folders: usize,
    discovered_docs: usize,
    pending: bool,
}

pub struct FolderWalkView {
    pub root: Seq<char>,
    pub recursive: bool,
    /// The folders still to read, in order.
    pub remaining: Seq<Seq<char>>,
    /// Every file listed so far, in order.
    pub collected: Seq<DriveFileView>,
    pub scanned_folders: nat,
    pub discovered_docs: nat,
    /// A folder was handed out and its children are awaited.
    pub pending: bool,
}

impl View for FolderWalk {
    type V = FolderWalkView;

    closed spec fn view(&self) -> FolderWalkView {
        FolderWalkView {
            root: self.root@,
            recursive: self.recursive,
            remaining: texts(self.queue@).subrange(self.head as int, self.queue@.len() as int),
            collected: file_views(self.collected@),
            scanned_folders: self.scanned_folders as nat,
            discovered_docs: self.discovered_docs as nat,
            pending: self.pending,
        }
    }
}

impl FolderWalk {
    #[verifier::type_invariant]
    spec fn walk_bounds(self) -> bool {
        &&& self.head <= self.queue@.len()
        &&& self.scanned_folders + (if self.pending { 1int } else { 0int }) <= self.head
        &&& self.discovered_docs <= self.collected@.len()
    }

    /// A walk that has only the root to read.
    pub fn new(root: &str, recursive: bool) -> (w: FolderWalk)
        ensures
            w@ == (FolderWalkView {
                root: root@,
                recursive,
                remaining: seq![root@],
                collected: Seq::empty(),
                scanned_folders: 0,
                discovered_docs: 0,
                pending: false,
            }),
    {
        let mut queue: Vec<String> = Vec::new();
        queue.push(root.to_owned());
        let w = FolderWalk {
            root: root.to_owned(),
            recursive,
            queue,
            head: 0,
            collected: Vec::new(),
            scanned_folders: 0,
            discovered_docs: 0,
            pending: false,
        };
        assert(w@.remaining =~= seq![root@]);
        assert(w@.collected =~= Seq::<DriveFileView>::empty());
        w
    }

    /// The next folder to read, or `None` when none is left.
    pub fn next_folder(&mut self) -> (next: Option<String>)
        requires
            !old(self)@.pending,
        ensures
            match next {
                Some(id) => old(self)@.remaining.len() > 0 && id@ == old(self)@.remaining[0]
                    && final(self)@ == (FolderWalkView {
                        remaining: old(self)@.remaining.drop_first(),
                        pending: true,
                        ..old(self)@
                    }),
                None => old(self)@.remaining.len() == 0 && final(self)@ == old(self)@,
            },
    {
        proof {
            use_type_invariant(&*self);
        }
        if self.head < self.queue.len() {
            let id = self.queue[self.head].clone();
            let ghost before = texts(self.queue@).subrange(self.head as int, self.queue@.len() as int);
            self.head = self.head + 1;
            self.pending = true;
            assert(texts(self.queue@).subrange(self.head as int, self.queue@.len() as int) =~= before.drop_first());
            Some(id)
        } else {
            None
        }
    }

    /// The next folder to read for the scan of generation `generation`:
    /// `None` when none is left or the scan was cancelled, and then the walk is
    /// as it was.
    pub fn next_folder_unless_cancelled(&mut self, state: &AppState, generation: u64) -> (next: Option<String>)
        requires
            !old(self)@.pending,
        ensures
            match next {
                Some(id) => !is_stale(state@, generation) && old(self)@.remaining.len() > 0
                    && id@ == old(self)@.remaining[0]
                    && final(self)@ == (FolderWalkView {
                        remaining: old(self)@.remaining.drop_first(),
                        pending: true,
                        ..old(self)@
                    }),
                None => (is_stale(state@, generation) || old(self)@.remaining.len() == 0) && final(self)@ == old(self)@,
            },
    {
        if state.scan_cancelled(generation) {
            return None;
        }
        self.next_folder()
    }

    /// Takes in the children of the folder handed out last: they join the files,
    /// their Google Docs are counted, and in a recursive walk their folders join
    /// the folders to read. Gives the progress to show.
    pub fn absorb_children(&mut self, children: Vec<DriveFile>) -> (p: ScanProgress)
        requires
            old(self)@.pending,
        ensures
            final(self)@ == absorbed(old(self)@, file_views(children@)),
            p@ == (ScanProgressView {
                total_files: final(self)@.collected.len(),
                total_docs: final(self)@.discovered_docs,
                scanned_folders: final(self)@.scanned_folders,
                ..empty_progress(old(self)@.root, folders_read_message(final(self)@.scanned_folders))
            }),
    {
        let mut taken = FolderWalk::new("", false);
        std::mem::swap(self, &mut taken);
        proof {
            use_type_invariant(&taken);
        }
        let FolderWalk { root, recursive, mut queue, head, mut collected, scanned_folders, discovered_docs, pending } = taken;
        let ghost cv = file_views(children@);
        let ghost old_remaining = texts(queue@).subrange(head as int, queue@.len() as int);
        let ghost old_collected = file_views(collected@);
        let mut count: usize = 0;
        let mut ids: Vec<String> = Vec::new();
        let mut i: usize = 0;
        while i < children.len()
            invariant
                i <= children@.len(),
                cv == file_views(children@),
                count == doc_count(cv.subrange(0, i as int)),
                count <= i,
                texts(ids@) == folder_ids(cv.subrange(0, i as int)),
            decreases children@.len() - i,
        {
            let ghost sub = cv.subrange(0, i + 1);
            assert(sub.drop_last() =~= cv.subrange(0, i as int));
            assert(sub.last() == children@[i as int]@);
            if children[i].is_google_doc {
                count = count + 1;
            }
            if children[i].is_folder {
                ids.push(children[i].id.clone());
                assert(texts(ids@) =~= folder_ids(sub));
            }
            i = i + 1;
        }
        assert(cv.subrange(0, children@.len() as int) =~= cv);
        if recursive {
            crate::folders::push_texts(&mut queue, &ids);
            assert(texts(queue@).subrange(head as int, queue@.len() as int) =~= old_remaining + texts(ids@));
        }
        let mut children = children;
        collected.append(&mut children);
        assert(file_views(collected@) =~= old_collected + cv);
        let total: usize = collected.len();
        assert(discovered_docs + count <= total);
        let scanned_folders = scanned_folders + 1;
        let discovered_docs = discovered_docs + count;
        let mut message = MSG_FOLDERS_READ_PREFIX.to_owned();
        let n = usize_text(scanned_folders);
        message.append(n.as_str());
        message.append(MSG_FOLDERS_READ_SUFFIX);
        let p = ScanProgress {
            folder_id: root.clone(),
            total_files: collected.len(),
            total_docs: discovered_docs,
            scanned_folders,
            checked_docs: 0,
            scanned_docs: 0,
            cache_hits: 0,
            failed_docs: 0,
            docs_with_images: 0,
            current_file_name: None,
            cancelled: false,
            message,
        };
        *self = FolderWalk { root, recursive, queue, head, collected, scanned_folders, discovered_docs, pending: false };
        p
    }

    /// Every file listed by the walk, in order.
    pub fn into_files(self) -> (files: Vec<DriveFile>)
        ensures
            file_views(files@) == self@.collected,
    {
        self.collected
    }
}

/// The Google Docs among `files`, in order.
pub open spec fn google_docs(files: Seq<DriveFileView>) -> Seq<DriveFileView>
    decreases files.len(),
{
    if files.len() == 0 {
        Seq::empty()
    } else if files.last().is_google_doc {
        google_docs(files.drop_last()).push(files.last())
    } else {
        google_docs(files.drop_last())
    }
}

/// The cache answers for `doc`: the scan is not forced and the cache holds a
/// result made for the document's current modification time.
pub open spec fn is_cache_hit(state: AppStateView, doc: DriveFileView, force: bool) -> bool {
    &&& !force
    &&& state.scan_cache.contains_key(doc.id)
    &&& state.scan_cache[doc.id].modified_time == doc.modified_time
}

/// What the cache answers for the documents of a scan.
pub struct CachePass {
    /// The documents the cache answered.
    pub hits: nat,
    /// Those of them that have images, marked so.
    pub matches: Seq<DriveFileView>,
    /// The documents left to fetch, in order.
    pub to_scan: Seq<DriveFileView>,
    /// The progress shown for each answered document, in order.
    pub progress: Seq<ScanProgressView>,
}

/// The progress shown for a document answered from the cache.
pub open spec fn cached_progress(root: Seq<char>, total_files: nat, total_docs: nat, hits: nat, with_images: nat) -> ScanProgressView {
    ScanProgressView {
        total_files,
        total_docs,
        checked_docs: hits,
        cache_hits: hits,
        docs_with_images: with_images,
        ..empty_progress(root, MSG_CACHED_RESULT@)
    }
}

/// `doc` marked as found to have images or not.
pub open spec fn with_images_flag(doc: DriveFileView, has_images: bool) -> DriveFileView {
    DriveFileView { has_images: Some(has_images), ..doc }
}

/// The cache's answers for `docs`, taken in order.
pub open spec fn cache_pass(
    docs: Seq<DriveFileView>,
    state: AppStateView,
    force: bool,
    root: Seq<char>,
    total_files: nat,
    total_docs: nat,
) -> CachePass
    decreases docs.len(),
{
    if docs.len() == 0 {
        CachePass { hits: 0, matches: Seq::empty(), to_scan: Seq::empty(), progress: Seq::empty() }
    } else {
        let p = cache_pass(docs.drop_last(), state, force, root, total_files, total_docs);
        let d = docs.last();
        if is_cache_hit(state, d, force) {
            let m = if state.scan_cache[d.id].has_images {
                p.matches.push(with_images_flag(d, true))
            } else {
                p.matches
            };
            CachePass {
                hits: p.hits + 1,
                matches: m,
                to_scan: p.to_scan,
                progress: p.progress.push(cached_progress(root, total_files, total_docs, p.hits + 1, m.len())),
            }
        } else {
            CachePass { to_scan: p.to_scan.push(d), ..p }
        }
    }
}

pub(crate) proof fn lemma_cache_pass_bounds(
    docs: Seq<DriveFileView>,
    state: AppStateView,
    force: bool,
    root: Seq<char>,
    total_files: nat,
    total_docs: nat,
)
    ensures
        cache_pass(docs, state, force, root, total_files, total_docs).hits
            + cache_pass(docs, state, force, root, total_files, total_docs).to_scan.len() == docs.len(),
        cache_pass(docs, state, force, root, total_files, total_docs).progress.len()
            == cache_pass(docs, state, force, root, total_files, total_docs).hits,
        cache_pass(docs, state, force, root, total_files, total_docs).matches.len()
            <= cache_pass(docs, state, force, root, total_files, total_docs).hits,
        force ==> cache_pass(docs, state, force, root, total_files, total_docs).to_scan == docs,
    decreases docs.len(),
{
    if docs.len() > 0 {
        lemma_cache_pass_bounds(docs.drop_last(), state, force, root, total_files, total_docs);
        if force {
            assert(docs.drop_last().push(docs.last()) =~= docs);
        }
    }
}

/// A scan of the documents of a folder, once its files are known.
pub struct ScanSession {
    root: String,
    recursive: bool,
    total_files: usize,
    total_docs: usize,
    checked_docs: usize,
    scanned_docs: usize,
    cache_hits: usize,
    failed_docs: usize,
    matches: Vec<DriveFile>,
    failures: Vec<ScanFailure>,
    to_scan: Vec<DriveFile>,
    outcomes: Vec<Option<Result<bool, String>>>,
    cached_matches: Ghost<Seq<DriveFileView>>,
    stopped: bool,
    all_files: Vec<DriveFile>,
}

pub struct ScanSessionView {
    pub root: Seq<char>,
    pub recursive: bool,
    pub total_files: nat,
    pub total_docs: nat,
    pub checked_docs: nat,
    pub scanned_docs: nat,
    pub cache_hits: nat,
    pub failed_docs: nat,
    /// The matches, in the order they were found.
    pub matches: Seq<DriveFileView>,
    /// The failures, in the order they came in.
    pub failures: Seq<ScanFailureView>,
    /// The documents left to fetch, by slot.
    pub to_scan: Seq<DriveFileView>,
    /// What came in for each slot of `to_scan`: nothing yet, whether the
    /// document has images, or the reason its fetch failed.
    pub outcomes: Seq<Option<Result<bool, Seq<char>>>>,
    /// The matches that the cache answered.
    pub cached_matches: Seq<DriveFileView>,
    /// The scan learned that it was cancelled and takes no more results.
    pub stopped: bool,
    pub all_files: Seq<DriveFileView>,
}

/// The view of a fetch result.
pub open spec fn result_view(r: Result<bool, String>) -> Result<bool, Seq<char>> {
    match r {
        Ok(b) => Ok(b),
        Err(e) => Err(e@),
    }
}

/// The view of the outcome for one slot.
pub open spec fn outcome_view(o: Option<Result<bool, String>>) -> Option<Result<bool, Seq<char>>> {
    match o {
        Some(Ok(b)) => Some(Ok(b)),
        Some(Err(e)) => Some(Err(e@)),
        None => None,
    }
}

impl View for ScanSession {
    type V = ScanSessionView;

    closed spec fn view(&self) -> ScanSessionView {
        ScanSessionView {
            root: self.root@,
            recursive: self.recursive,
            total_files: self.total_files as nat,
            total_docs: self.total_docs as nat,
            checked_docs: self.checked_docs as nat,
            scanned_docs: self.scanned_docs as nat,
            cache_hits: self.cache_hits as nat,
            failed_docs: self.failed_docs as nat,
            matches: file_views(self.matches@),
            failures: failure_views(self.failures@),
            to_scan: file_views(self.to_scan@),
            outcomes: self.outcomes@.map_values(|o: Option<Result<bool, String>>| outcome_view(o)),
            cached_matches: self.cached_matches@,
            stopped: self.stopped,
            all_files: file_views(self.all_files@),
        }
    }
}

/// The number of the first `n` slots that have an outcome.
pub open spec fn answered_count(outcomes: Seq<Option<Result<bool, Seq<char>>>>, n: nat) -> nat
    decreases n,
{
    if n == 0 {
        0
    } else {
        answered_count(outcomes, (n - 1) as nat) + if outcomes[n - 1] is Some { 1nat } else { 0nat }
    }
}

/// The number of the first `n` slots answered with whether there are images.
pub open spec fn ok_count(outcomes: Seq<Option<Result<bool, Seq<char>>>>, n: nat) -> nat
    decreases n,
{
    if n == 0 {
        0
    } else {
        ok_count(outcomes, (n - 1) as nat) + if outcomes[n - 1] matches Some(Ok(_)) { 1nat } else { 0nat }
    }
}

/// The number of the first `n` slots whose fetch failed.
pub open spec fn err_count(outcomes: Seq<Option<Result<bool, Seq<char>>>>, n: nat) -> nat
    decreases n,
{
    if n == 0 {
        0
    } else {
        err_count(outcomes, (n - 1) as nat) + if outcomes[n - 1] matches Some(Err(_)) { 1nat } else { 0nat }
    }
}

/// The documents of the first `n` slots found to have images, marked so.
pub open spec fn found_images(
    docs: Seq<DriveFileView>,
    outcomes: Seq<Option<Result<bool, Seq<char>>>>,
    n: nat,
) -> Seq<DriveFileView>
    decreases n,
{
    if n == 0 {
        Seq::empty()
    } else if outcomes[n - 1] == Some(Ok::<bool, Seq<char>>(true)) {
        found_images(docs, outcomes, (n - 1) as nat).push(with_images_flag(docs[n - 1], true))
    } else {
        found_images(docs, outcomes, (n - 1) as nat)
    }
}

/// The failures of the first `n` slots.
pub open spec fn found_failures(
    docs: Seq<DriveFileView>,
    outcomes: Seq<Option<Result<bool, Seq<char>>>>,
    n: nat,
) -> Seq<ScanFailureView>
    decreases n,
{
    if n == 0 {
        Seq::empty()
    } else {
        let prev = found_failures(docs, outcomes, (n - 1) as nat);
        match outcomes[n - 1] {
            Some(Err(reason)) => prev.push(ScanFailureView { id: docs[n - 1].id, name: docs[n - 1].name, reason }),
            _ => prev,
        }
    }
}

/// `m` is a Google Doc of `all_files`, marked as having images.
pub open spec fn is_found_image_of(all_files: Seq<DriveFileView>, m: DriveFileView) -> bool {
    exists|d: DriveFileView| #[trigger] google_docs(all_files).contains(d) && m == with_images_flag(d, true)
}

/// Every slot has an outcome.
pub open spec fn all_answered(s: ScanSessionView) -> bool {
    forall|i: int| 0 <= i < s.outcomes.len() ==> (#[trigger] s.outcomes[i]) is Some
}

/// The counts, matches and failures of a session agree with the cache's
/// answers and the outcomes of its slots, and every document it holds is a
/// Google Doc of its files.
pub open spec fn session_consistent(s: ScanSessionView) -> bool {
    let n = s.outcomes.len();
    &&& n == s.to_scan.len()
    &&& s.total_docs == s.cache_hits + n
    &&& s.checked_docs == s.cache_hits + answered_count(s.outcomes, n)
    &&& s.scanned_docs == ok_count(s.outcomes, n)
    &&& s.failed_docs == err_count(s.outcomes, n)
    &&& s.matches.to_multiset() == (s.cached_matches + found_images(s.to_scan, s.outcomes, n)).to_multiset()
    &&& s.failures.to_multiset() == found_failures(s.to_scan, s.outcomes, n).to_multiset()
    &&& forall|i: int| 0 <= i < n ==> #[trigger] google_docs(s.all_files).contains(s.to_scan[i])
    &&& forall|i: int| 0 <= i < s.cached_matches.len() ==> is_found_image_of(s.all_files, #[trigger] s.cached_matches[i])
}

/// The session of a scan of `root` over `all_files`, right after the cache
/// answered what it could.
pub open spec fn begun_session(
    root: Seq<char>,
    recursive: bool,
    all_files: Seq<DriveFileView>,
    state: AppStateView,
    force: bool,
) -> ScanSessionView {
    let docs = google_docs(all_files);
    let pass = cache_pass(docs, state, force, root, all_files.len(), docs.len());
    ScanSessionView {
        root,
        recursive,
        total_files: all_files.len(),
        total_docs: docs.len(),
        checked_docs: pass.hits,
        scanned_docs: 0,
        cache_hits: pass.hits,
        failed_docs: 0,
        matches: pass.matches,
        failures: Seq::empty(),
        to_scan: pass.to_scan,
        outcomes: Seq::new(pass.to_scan.len(), |i: int| None),
        cached_matches: pass.matches,
        stopped: false,
        all_files,
    }
}

/// Slot `slot` is waiting for its outcome and the session takes results.
pub open spec fn is_open_slot(s: ScanSessionView, slot: int) -> bool {
    &&& !s.stopped
    &&& 0 <= slot < s.to_scan.len()
    &&& s.outcomes[slot] is None
}

/// The session after the answer `has_images` for slot `slot` came in.
pub open spec fn recorded_answer(s: ScanSessionView, slot: int, has_images: bool) -> ScanSessionView {
    ScanSessionView {
        checked_docs: s.checked_docs + 1,
        scanned_docs: s.scanned_docs + 1,
        outcomes: s.outcomes.update(slot, Some(Ok(has_images))),
        matches: if has_images { s.matches.push(with_images_flag(s.to_scan[slot], true)) } else { s.matches },
        ..s
    }
}

/// The session after fetching the document of slot `slot` failed for `reason`.
pub open spec fn recorded_failure(s: ScanSessionView, slot: int, reason: Seq<char>) -> ScanSessionView {
    ScanSessionView {
        checked_docs: s.checked_docs + 1,
        failed_docs: s.failed_docs + 1,
        outcomes: s.outcomes.update(slot, Some(Err(reason))),
        failures: s.failures.push(ScanFailureView { id: s.to_scan[slot].id, name: s.to_scan[slot].name, reason }),
        ..s
    }
}

/// The progress shown after the result for a document came in.
pub open spec fn checked_progress(s: ScanSessionView, doc_name: Seq<char>) -> ScanProgressView {
    ScanProgressView {
        total_files: s.total_files,
        total_docs: s.total_docs,
        checked_docs: s.checked_docs,
        scanned_docs: s.scanned_docs,
        cache_hits: s.cache_hits,
        failed_docs: s.failed_docs,
        docs_with_images: s.matches.len(),
        current_file_name: Some(doc_name),
        ..empty_progress(s.root, MSG_CHECKING_DOC@)
    }
}

/// The progress shown when a scan learns that it was cancelled.
pub open spec fn cancelled_progress_of(s: ScanSessionView) -> ScanProgressView {
    ScanProgressView {
        total_files: s.total_files,
        total_docs: s.total_docs,
        checked_docs: s.checked_docs,
        scanned_docs: s.scanned_docs,
        cache_hits: s.cache_hits,
        failed_docs: s.failed_docs,
        docs_with_images: s.matches.len(),
        cancelled: true,
        ..empty_progress(s.root, MSG_SCAN_CANCELLED@)
    }
}

pub(crate) proof fn lemma_outcome_counts(outcomes: Seq<Option<Result<bool, Seq<char>>>>, n: nat)
    requires
        n <= outcomes.len(),
    ensures
        answered_count(outcomes, n) <= n,
        ok_count(outcomes, n) + err_count(outcomes, n) == answered_count(outcomes, n),
        (forall|i: int| 0 <= i < n ==> (#[trigger] outcomes[i]) is Some) ==> answered_count(outcomes, n) == n,
        (forall|i: int| 0 <= i < n ==> (#[trigger] outcomes[i]) is None) ==> answered_count(outcomes, n) == 0
            && ok_count(outcomes, n) == 0 && err_count(outcomes, n) == 0,
    decreases n,
{
    if n > 0 {
        lemma_outcome_counts(outcomes, (n - 1) as nat);
    }
}

pub(crate) proof fn lemma_found_none(docs: Seq<DriveFileView>, outcomes: Seq<Option<Result<bool, Seq<char>>>>, n: nat)
    requires
        n <= outcomes.len(),
        forall|i: int| 0 <= i < n ==> (#[trigger] outcomes[i]) is None,
    ensures
        found_images(docs, outcomes, n) == Seq::<DriveFileView>::empty(),
        found_failures(docs, outcomes, n) == Seq::<ScanFailureView>::empty(),
    decreases n,
{
    if n > 0 {
        lemma_found_none(docs, outcomes, (n - 1) as nat);
    }
}

pub(crate) proof fn lemma_found_failures_len(docs: Seq<DriveFileView>, outcomes: Seq<Option<Result<bool, Seq<char>>>>, n: nat)
    ensures
        found_failures(docs, outcomes, n).len() == err_count(outcomes, n),
    decreases n,
{
    if n > 0 {
        lemma_found_failures_len(docs, outcomes, (n - 1) as nat);
    }
}

pub(crate) proof fn lemma_found_images_origin(
    docs: Seq<DriveFileView>,
    outcomes: Seq<Option<Result<bool, Seq<char>>>>,
    n: nat,
    x: DriveFileView,
)
    requires
        n <= docs.len(),
        found_images(docs, outcomes, n).contains(x),
    ensures
        exists|k: int| 0 <= k < n && x == with_images_flag(#[trigger] docs[k], true),
    decreases n,
{
    let prev = found_images(docs, outcomes, (n - 1) as nat);
    if outcomes[n - 1] == Some(Ok::<bool, Seq<char>>(true)) {
        if x == with_images_flag(docs[n - 1], true) {
        } else {
            let full = prev.push(with_images_flag(docs[n - 1], true));
            let j = choose|j: int| 0 <= j < full.len() && #[trigger] full[j] == x;
            assert(prev[j] == x);
            lemma_found_images_origin(docs, outcomes, (n - 1) as nat, x);
        }
    } else {
        lemma_found_images_origin(docs, outcomes, (n - 1) as nat, x);
    }
}

pub(crate) proof fn lemma_outcome_update(
    docs: Seq<DriveFileView>,
    outcomes: Seq<Option<Result<bool, Seq<char>>>>,
    k: int,
    out: Result<bool, Seq<char>>,
    n: nat,
)
    requires
        0 <= k < outcomes.len(),
        n <= outcomes.len(),
        outcomes[k] is None,
    ensures
        ({
            let o2 = outcomes.update(k, Some(out));
            &&& n <= k ==> answered_count(o2, n) == answered_count(outcomes, n)
                && ok_count(o2, n) == ok_count(outcomes, n)
                && err_count(o2, n) == err_count(outcomes, n)
                && found_images(docs, o2, n) == found_images(docs, outcomes, n)
                && found_failures(docs, o2, n) == found_failures(docs, outcomes, n)
            &&& n > k ==> answered_count(o2, n) == answered_count(outcomes, n) + 1
                && ok_count(o2, n) == ok_count(outcomes, n) + if out is Ok { 1nat } else { 0nat }
                && err_count(o2, n) == err_count(outcomes, n) + if out is Err { 1nat } else { 0nat }
                && found_images(docs, o2, n).to_multiset() == if out == Ok::<bool, Seq<char>>(true) {
                    found_images(docs, outcomes, n).to_multiset().insert(with_images_flag(docs[k], true))
                } else {
                    found_images(docs, outcomes, n).to_multiset()
                }
                && found_failures(docs, o2, n).to_multiset() == match out {
                    Err(reason) => found_failures(docs, outcomes, n).to_multiset().insert(
                        ScanFailureView { id: docs[k].id, name: docs[k].name, reason },
                    ),
                    Ok(_) => found_failures(docs, outcomes, n).to_multiset(),
                }
        }),
    decreases n,
{
    broadcast use vstd::multiset::group_multiset_axioms;
    broadcast use vstd::seq_lib::to_multiset_build;

    let o2 = outcomes.update(k, Some(out));
    if n > 0 {
        lemma_outcome_update(docs, outcomes, k, out, (n - 1) as nat);
        let m = (n - 1) as nat;
        let fi = found_images(docs, outcomes, m);
        let fi2 = found_images(docs, o2, m);
        let ff = found_failures(docs, outcomes, m);
        let ff2 = found_failures(docs, o2, m);
        if m == k {
            assert(o2[m as int] == Some(out));
        } else if m > k {
            assert(o2[m as int] == outcomes[m as int]);
            if outcomes[m as int] == Some(Ok::<bool, Seq<char>>(true)) {
                let y = with_images_flag(docs[m as int], true);
                assert(fi2.push(y).to_multiset() =~= fi2.to_multiset().insert(y));
                assert(fi.push(y).to_multiset() =~= fi.to_multiset().insert(y));
            }
            match outcomes[m as int] {
                Some(Err(reason)) => {
                    let y = ScanFailureView { id: docs[m as int].id, name: docs[m as int].name, reason };
                    assert(ff2.push(y).to_multiset() =~= ff2.to_multiset().insert(y));
                    assert(ff.push(y).to_multiset() =~= ff.to_multiset().insert(y));
                },
                _ => {},
            }
        } else {
            assert(o2[m as int] == outcomes[m as int]);
        }
    }
}

/// Where the cache's answers come from: every document left to fetch is one
/// of `docs`, and every cached match is one of `docs` marked as having images.
pub(crate) proof fn lemma_cache_pass_origin(
    docs: Seq<DriveFileView>,
    state: AppStateView,
    force: bool,
    root: Seq<char>,
    total_files: nat,
    total_docs: nat,
)
    ensures
        forall|i: int| 0 <= i < cache_pass(docs, state, force, root, total_files, total_docs).to_scan.len()
            ==> docs.contains(#[trigger] cache_pass(docs, state, force, root, total_files, total_docs).to_scan[i]),
        forall|i: int| 0 <= i < cache_pass(docs, state, force, root, total_files, total_docs).matches.len()
            ==> exists|d: DriveFileView| docs.contains(d)
                && #[trigger] cache_pass(docs, state, force, root, total_files, total_docs).matches[i] == with_images_flag(d, true),
    decreases docs.len(),
{
    if docs.len() > 0 {
        let rest = docs.drop_last();
        lemma_cache_pass_origin(rest, state, force, root, total_files, total_docs);
        let p = cache_pass(rest, state, force, root, total_files, total_docs);
        let q = cache_pass(docs, state, force, root, total_files, total_docs);
        assert forall|x: DriveFileView| rest.contains(x) implies docs.contains(x) by {
            let j = choose|j: int| 0 <= j < rest.len() && rest[j] == x;
            assert(docs[j] == x);
        }
        assert(docs.contains(docs.last())) by {
            assert(docs[docs.len() - 1] == docs.last());
        }
        assert forall|i: int| 0 <= i < q.to_scan.len() implies docs.contains(#[trigger] q.to_scan[i]) by {
            if i < p.to_scan.len() {
                assert(q.to_scan[i] == p.to_scan[i]);
            }
        }
        assert forall|i: int| 0 <= i < q.matches.len() implies exists|d: DriveFileView| docs.contains(d)
            && #[trigger] q.matches[i] == with_images_flag(d, true) by {
            if i < p.matches.len() {
                assert(q.matches[i] == p.matches[i]);
                let d = choose|d: DriveFileView| rest.contains(d) && p.matches[i] == with_images_flag(d, true);
                assert(docs.contains(d));
            } else {
                assert(q.matches[i] == with_images_flag(docs.last(), true));
            }
        }
    }
}

/// Recording an outcome for an open slot keeps a session consistent.
pub(crate) proof fn lemma_record_consistent(s: ScanSessionView, slot: int, out: Result<bool, Seq<char>>)
    requires
        session_consistent(s),
        is_open_slot(s, slot),
    ensures
        session_consistent(match out {
            Ok(h) => recorded_answer(s, slot, h),
            Err(reason) => recorded_failure(s, slot, reason),
        }),
{
    broadcast use vstd::seq_lib::to_multiset_build;
    broadcast use vstd::multiset::group_multiset_axioms;

    let n = s.outcomes.len();
    let o2 = s.outcomes.update(slot, Some(out));
    lemma_outcome_update(s.to_scan, s.outcomes, slot, out, n);
    let f = found_images(s.to_scan, s.outcomes, n);
    let f2 = found_images(s.to_scan, o2, n);
    vstd::seq_lib::lemma_multiset_commutative(s.cached_matches, f);
    vstd::seq_lib::lemma_multiset_commutative(s.cached_matches, f2);
    match out {
        Ok(h) => {
            let t = recorded_answer(s, slot, h);
            assert(t.outcomes == o2);
            if h {
                assert(t.matches.to_multiset() =~= (s.cached_matches + f2).to_multiset());
            }
        },
        Err(reason) => {
            let t = recorded_failure(s, slot, reason);
            assert(t.outcomes == o2);
        },
    }
}

/// A session is consistent right after the cache answered what it could.
pub(crate) proof fn lemma_begun_consistent(
    root: Seq<char>,
    recursive: bool,
    all_files: Seq<DriveFileView>,
    state: AppStateView,
    force: bool,
)
    ensures
        session_consistent(begun_session(root, recursive, all_files, state, force)),
{
    let docs = google_docs(all_files);
    let v = begun_session(root, recursive, all_files, state, force);
    lemma_cache_pass_bounds(docs, state, force, root, all_files.len(), docs.len());
    lemma_cache_pass_origin(docs, state, force, root, all_files.len(), docs.len());
    lemma_outcome_counts(v.outcomes, v.outcomes.len());
    lemma_found_none(v.to_scan, v.outcomes, v.outcomes.len());
    assert(v.cached_matches + Seq::<DriveFileView>::empty() =~= v.cached_matches);
    assert forall|i: int| 0 <= i < v.cached_matches.len() implies is_found_image_of(v.all_files, #[trigger] v.cached_matches[i]) by {
        let d = choose|d: DriveFileView| docs.contains(d) && v.cached_matches[i] == with_images_flag(d, true);
    }
}

/// In a consistent session the counts balance: every answered document is
/// counted once, from the cache, fetched, or failed, and there is one failure
/// per failed document; once every slot is answered, every Google Doc is.
pub(crate) proof fn lemma_consistent_counts(s: ScanSessionView)
    requires
        session_consistent(s),
    ensures
        s.cache_hits + s.scanned_docs + s.failed_docs == s.checked_docs,
        s.failures.len() == s.failed_docs,
        s.checked_docs <= s.total_docs,
        all_answered(s) ==> s.checked_docs == s.total_docs,
{
    let n = s.outcomes.len();
    lemma_outcome_counts(s.outcomes, n);
    lemma_found_failures_len(s.to_scan, s.outcomes, n);
    vstd::seq_lib::to_multiset_len(s.failures);
    vstd::seq_lib::to_multiset_len(found_failures(s.to_scan, s.outcomes, n));
}

impl ScanSession {
    #[verifier::type_invariant]
    spec fn session_bounds(self) -> bool {
        session_consistent(self@)
    }

    /// Starts the document phase of a scan of `root` over `all_files`: the
    /// Google Docs among them are found, and those the cache answers (unless
    /// `force`) are counted, the ones with images taken as matches; the rest
    /// are left to fetch. Gives the progress to show for each answered document.
    pub fn begin(root: String, recursive: bool, all_files: Vec<DriveFile>, state: &AppState, force: bool) -> (r: (ScanSession, Vec<ScanProgress>))
        ensures
            r.0@ == begun_session(root@, recursive, file_views(all_files@), state@, force),
            progress_views(r.1@) == cache_pass(
                google_docs(file_views(all_files@)),
                state@,
                force,
                root@,
                all_files@.len() as nat,
                google_docs(file_views(all_files@)).len(),
            ).progress,
    {
        let ghost fv = file_views(all_files@);
        let mut total_docs: usize = 0;
        let mut i: usize = 0;
        while i < all_files.len()
            invariant
                i <= all_files@.len(),
                fv == file_views(all_files@),
                total_docs == google_docs(fv.subrange(0, i as int)).len(),
                total_docs <= i,
            decreases all_files@.len() - i,
        {
            let ghost sub = fv.subrange(0, i + 1);
            assert(sub.drop_last() =~= fv.subrange(0, i as int));
            assert(sub.last() == all_files@[i as int]@);
            if all_files[i].is_google_doc {
                total_docs = total_docs + 1;
            }
            i = i + 1;
        }
        assert(fv.subrange(0, all_files@.len() as int) =~= fv);
        let total_files = all_files.len();
        let ghost docs = google_docs(fv);
        let mut cache_hits: usize = 0;
        let mut matches: Vec<DriveFile> = Vec::new();
        let mut to_scan: Vec<DriveFile> = Vec::new();
        let mut progress: Vec<ScanProgress> = Vec::new();
        let mut i: usize = 0;
        assert(file_views(matches@) =~= Seq::<DriveFileView>::empty());
        assert(file_views(to_scan@) =~= Seq::<DriveFileView>::empty());
        assert(progress_views(progress@) =~= Seq::<ScanProgressView>::empty());
        while i < all_files.len()
            invariant
                i <= all_files@.len(),
                fv == file_views(all_files@),
                total_files == fv.len(),
                total_docs == google_docs(fv).len(),
                ({
                    let pass = cache_pass(google_docs(fv.subrange(0, i as int)), state@, force, root@, total_files as nat, total_docs as nat);
                    &&& cache_hits == pass.hits
                    &&& file_views(matches@) == pass.matches
                    &&& file_views(to_scan@) == pass.to_scan
                    &&& progress_views(progress@) == pass.progress
                }),
                google_docs(fv.subrange(0, i as int)).len() <= total_docs,
            decreases all_files@.len() - i,
        {
            let ghost sub = fv.subrange(0, i + 1);
            let ghost prev_docs = google_docs(fv.subrange(0, i as int));
            let ghost prev = cache_pass(prev_docs, state@, force, root@, total_files as nat, total_docs as nat);
            assert(sub.drop_last() =~= fv.subrange(0, i as int));
            assert(sub.last() == all_files@[i as int]@);
            proof {
                lemma_cache_pass_bounds(prev_docs, state@, force, root@, total_files as nat, total_docs as nat);
                lemma_google_docs_prefix(fv, i as int);
            }
            if all_files[i].is_google_doc {
                let doc = all_files[i].duplicate();
                let ghost d = doc@;
                let ghost new_docs = prev_docs.push(d);
                assert(new_docs.drop_last() =~= prev_docs);
                let cached = if force { None } else { state.cached_scan(doc.id.as_str()) };
                let hit = match &cached {
                    Some(c) => crate::text::same_opt_text(&c.modified_time, &doc.modified_time),
                    None => false,
                };
                if hit {
                    let has_images = match &cached {
                        Some(c) => c.has_images,
                        None => false,
                    };
                    cache_hits = cache_hits + 1;
                    if has_images {
                        let mut matched = doc;
                        matched.has_images = Some(true);
                        matches.push(matched);
                        assert(file_views(matches@) =~= prev.matches.push(with_images_flag(d, true)));
                    }
                    let p = ScanProgress {
                        folder_id: root.clone(),
                        total_files,
                        total_docs,
                        scanned_folders: 0,
                        checked_docs: cache_hits,
                        scanned_docs: 0,
                        cache_hits,
                        failed_docs: 0,
                        docs_with_images: matches.len(),
                        current_file_name: None,
                        cancelled: false,
                        message: MSG_CACHED_RESULT.to_owned(),
                    };
                    progress.push(p);
                    assert(progress_views(progress@) =~= prev.progress.push(p@));
                } else {
                    to_scan.push(doc);
                    assert(file_views(to_scan@) =~= prev.to_scan.push(d));
                }
            }
            i = i + 1;
        }
        assert(fv.subrange(0, all_files@.len() as int) =~= fv);
        proof {
            lemma_cache_pass_bounds(google_docs(fv), state@, force, root@, total_files as nat, total_docs as nat);
            lemma_cache_pass_origin(google_docs(fv), state@, force, root@, total_files as nat, total_docs as nat);
        }
        let ghost cached = file_views(matches@);
        let mut outcomes: Vec<Option<Result<bool, String>>> = Vec::new();
        let mut j: usize = 0;
        while j < to_scan.len()
            invariant
                j <= to_scan@.len(),
                outcomes@.len() == j,
                forall|k: int| 0 <= k < j ==> (#[trigger] outcomes@[k]) is None,
            decreases to_scan@.len() - j,
        {
            outcomes.push(None);
            j = j + 1;
        }
        let ghost ov = outcomes@.map_values(|o: Option<Result<bool, String>>| outcome_view(o));
        let failures: Vec<ScanFailure> = Vec::new();
        proof {
            let bv = begun_session(root@, recursive, fv, state@, force);
            lemma_begun_consistent(root@, recursive, fv, state@, force);
            assert(ov =~= bv.outcomes);
            assert(failure_views(failures@) =~= bv.failures);
        }
        let session = ScanSession {
            root,
            recursive,
            total_files,
            total_docs,
            checked_docs: cache_hits,
            scanned_docs: 0,
            cache_hits,
            failed_docs: 0,
            matches,
            failures,
            to_scan,
            outcomes,
            cached_matches: Ghost(cached),
            stopped: false,
            all_files,
        };
        (session, progress)
    }

    /// An empty session over no files, with every count zero.
    fn placeholder() -> (s: ScanSession)
        ensures
            s@ == (ScanSessionView {
                root: Seq::empty(),
                recursive: false,
                total_files: 0,
                total_docs: 0,
                checked_docs: 0,
                scanned_docs: 0,
                cache_hits: 0,
                failed_docs: 0,
                matches: Seq::empty(),
                failures: Seq::empty(),
                to_scan: Seq::empty(),
                outcomes: Seq::empty(),
                cached_matches: Seq::empty(),
                stopped: false,
                all_files: Seq::empty(),
            }),
    {
        let matches: Vec<DriveFile> = Vec::new();
        let failures: Vec<ScanFailure> = Vec::new();
        let to_scan: Vec<DriveFile> = Vec::new();
        let outcomes: Vec<Option<Result<bool, String>>> = Vec::new();
        let all_files: Vec<DriveFile> = Vec::new();
        let root = String::new();
        let ghost empty_view = ScanSessionView {
            root: Seq::empty(),
            recursive: false,
            total_files: 0,
            total_docs: 0,
            checked_docs: 0,
            scanned_docs: 0,
            cache_hits: 0,
            failed_docs: 0,
            matches: Seq::empty(),
            failures: Seq::empty(),
            to_scan: Seq::empty(),
            outcomes: Seq::empty(),
            cached_matches: Seq::empty(),
            stopped: false,
            all_files: Seq::empty(),
        };
        proof {
            assert(file_views(matches@) =~= Seq::<DriveFileView>::empty());
            assert(failure_views(failures@) =~= Seq::<ScanFailureView>::empty());
            assert(file_views(to_scan@) =~= Seq::<DriveFileView>::empty());
            assert(outcomes@.map_values(|o: Option<Result<bool, String>>| outcome_view(o))
                =~= Seq::<Option<Result<bool, Seq<char>>>>::empty());
            assert(file_views(all_files@) =~= Seq::<DriveFileView>::empty());
            assert(Seq::<DriveFileView>::empty() + found_images(Seq::empty(), Seq::empty(), 0)
                =~= Seq::<DriveFileView>::empty());
            assert(session_consistent(empty_view));
        }
        let s = ScanSession {
            root,
            recursive: false,
            total_files: 0,
            total_docs: 0,
            checked_docs: 0,
            scanned_docs: 0,
            cache_hits: 0,
            failed_docs: 0,
            matches,
            failures,
            to_scan,
            outcomes,
            cached_matches: Ghost(Seq::empty()),
            stopped: false,
            all_files,
        };
        assert(s@ == empty_view);
        s
    }

    /// How many documents have been answered so far.
    pub fn checked_docs(&self) -> (n: usize)
        ensures
            n == self@.checked_docs,
    {
        self.checked_docs
    }

    /// How many Google Docs the scan covers.
    pub fn total_docs(&self) -> (n: usize)
        ensures
            n == self@.total_docs,
    {
        self.total_docs
    }

    /// The documents that the cache did not answer, to be fetched.
    pub fn docs_to_scan(&self) -> (docs: Vec<DriveFile>)
        ensures
            file_views(docs@) == self@.to_scan,
    {
        crate::drive::copy_files(&self.to_scan)
    }

    /// Whether slot `slot` waits for its outcome and the session takes results.
    pub fn is_open_slot(&self, slot: usize) -> (b: bool)
        ensures
            b == is_open_slot(self@, slot as int),
    {
        proof {
            use_type_invariant(self);
        }
        if self.stopped || slot >= self.to_scan.len() {
            return false;
        }
        assert(self@.outcomes[slot as int] == outcome_view(self.outcomes@[slot as int]));
        self.outcomes[slot].is_none()
    }

    /// Takes in the fetch result for the document of slot `slot`: with an
    /// answer, the cache records it and a document with images becomes a
    /// match; with an error, the document is listed as failed with the reason.
    /// Gives the progress to show.
    pub fn record_result(&mut self, state: &mut AppState, slot: usize, result: Result<bool, String>) -> (p: ScanProgress)
        requires
            is_open_slot(old(self)@, slot as int),
        ensures
            match result {
                Ok(h) => {
                    &&& final(self)@ == recorded_answer(old(self)@, slot as int, h)
                    &&& final(state)@ == with_doc_scan(
                        old(state)@,
                        old(self)@.to_scan[slot as int].id,
                        CachedDocScanView { modified_time: old(self)@.to_scan[slot as int].modified_time, has_images: h },
                    )
                },
                Err(reason) => {
                    &&& final(self)@ == recorded_failure(old(self)@, slot as int, reason@)
                    &&& final(state)@ == old(state)@
                },
            },
            session_consistent(final(self)@),
            p@ == checked_progress(final(self)@, old(self)@.to_scan[slot as int].name),
    {
        let mut taken = ScanSession::placeholder();
        std::mem::swap(self, &mut taken);
        proof {
            use_type_invariant(&taken);
        }
        let ghost before = taken@;
        let ScanSession {
            root,
            recursive,
            total_files,
            total_docs,
            checked_docs,
            scanned_docs,
            cache_hits,
            failed_docs,
            mut matches,
            mut failures,
            to_scan,
            mut outcomes,
            cached_matches,
            stopped,
            all_files,
        } = taken;
        let ghost n = before.outcomes.len();
        let ghost out = result_view(result);
        let ghost after_outcomes = before.outcomes.update(slot as int, Some(out));
        proof {
            lemma_outcome_update(before.to_scan, before.outcomes, slot as int, out, n);
            lemma_outcome_counts(after_outcomes, n);
        }
        let doc = to_scan[slot].duplicate();
        let doc_name = doc.name.clone();
        let ghost dv = doc@;
        let ghost old_matches = file_views(matches@);
        let ghost old_failures = failure_views(failures@);
        let checked_docs = checked_docs + 1;
        let mut scanned_docs = scanned_docs;
        let mut failed_docs = failed_docs;
        match result {
            Ok(has_images) => {
                scanned_docs = scanned_docs + 1;
                let modified = crate::text::copy_opt_text(&doc.modified_time);
                state.store_scan(doc.id.as_str(), modified, has_images);
                if has_images {
                    let mut matched = doc;
                    matched.has_images = Some(true);
                    matches.push(matched);
                    assert(file_views(matches@) =~= old_matches.push(with_images_flag(dv, true)));
                }
                outcomes.set(slot, Some(Ok(has_images)));
            },
            Err(reason) => {
                failed_docs = failed_docs + 1;
                let kept = reason.clone();
                failures.push(ScanFailure { id: doc.id, name: doc.name, reason });
                assert(failure_views(failures@) =~= old_failures.push(
                    ScanFailureView { id: dv.id, name: dv.name, reason: kept@ },
                ));
                outcomes.set(slot, Some(Err(kept)));
            },
        }
        let p = ScanProgress {
            folder_id: root.clone(),
            total_files,
            total_docs,
            scanned_folders: 0,
            checked_docs,
            scanned_docs,
            cache_hits,
            failed_docs,
            docs_with_images: matches.len(),
            current_file_name: Some(doc_name),
            cancelled: false,
            message: MSG_CHECKING_DOC.to_owned(),
        };
        let ghost target = match out {
            Ok(h) => recorded_answer(before, slot as int, h),
            Err(e) => recorded_failure(before, slot as int, e),
        };
        proof {
            lemma_record_consistent(before, slot as int, out);
            assert(outcomes@.map_values(|o: Option<Result<bool, String>>| outcome_view(o)) =~= target.outcomes);
            assert(file_views(matches@) =~= target.matches);
            assert(failure_views(failures@) =~= target.failures);
            assert(dv == before.to_scan[slot as int]);
        }
        let next = ScanSession {
            root,
            recursive,
            total_files,
            total_docs,
            checked_docs,
            scanned_docs,
            cache_hits,
            failed_docs,
            matches,
            failures,
            to_scan,
            outcomes,
            cached_matches,
            stopped,
            all_files,
        };
        assert(next@ == target);
        *self = next;
        p
    }

    /// Checks whether the scan of generation `generation` was cancelled: if
    /// so, the session takes no more results and the progress to show is given.
    pub fn check_cancelled(&mut self, state: &AppState, generation: u64) -> (r: Option<ScanProgress>)
        ensures
            match r {
                Some(p) => is_stale(state@, generation) && p@ == cancelled_progress_of(old(self)@)
                    && final(self)@ == (ScanSessionView { stopped: true, ..old(self)@ }),
                None => !is_stale(state@, generation) && final(self)@ == old(self)@,
            },
    {
        proof {
            use_type_invariant(&*self);
        }
        if state.scan_cancelled(generation) {
            let p = self.cancelled_progress();
            self.stopped = true;
            Some(p)
        } else {
            None
        }
    }

    /// The progress to show when the scan learns that it was cancelled.
    pub fn cancelled_progress(&self) -> (p: ScanProgress)
        ensures
            p@ == cancelled_progress_of(self@),
    {
        ScanProgress {
            folder_id: self.root.clone(),
            total_files: self.total_files,
            total_docs: self.total_docs,
            scanned_folders: 0,
            checked_docs: self.checked_docs,
            scanned_docs: self.scanned_docs,
            cache_hits: self.cache_hits,
            failed_docs: self.failed_docs,
            docs_with_images: self.matches.len(),
            current_file_name: None,
            cancelled: true,
            message: MSG_SCAN_CANCELLED.to_owned(),
        }
    }

    /// The report: the counts, the matches ordered by lower-cased name then id
    /// (equal keys in the order they were found), every folder that leads to
    /// a match, and the failures.
    pub fn finish(self) -> (r: ScanResult)
        ensures
            r.folder_id@ == self@.root,
            r.recursive == self@.recursive,
            r.total_files == self@.total_files,
            r.total_docs == self@.total_docs,
            r.scanned_docs == self@.scanned_docs,
            r.cache_hits == self@.cache_hits,
            r.failed_docs == self@.failed_docs,
            r.cache_hits + r.scanned_docs + r.failed_docs == self@.checked_docs,
            r.cache_hits + r.scanned_docs + r.failed_docs <= r.total_docs,
            all_answered(self@) ==> r.cache_hits + r.scanned_docs + r.failed_docs == r.total_docs,
            r.failed_docs == r.failures@.len(),
            r.docs_with_images == r.matches@.len(),
            file_views(r.matches@).to_multiset() == (self@.cached_matches + found_images(
                self@.to_scan,
                self@.outcomes,
                self@.outcomes.len(),
            )).to_multiset(),
            forall|i: int| 0 <= i < r.matches@.len() ==> is_found_image_of(self@.all_files, #[trigger] file_views(r.matches@)[i]),
            sorted_by_key(file_views(r.matches@)),
            forall|k: (Seq<char>, Seq<char>)| #[trigger] with_key(file_views(r.matches@), k) == with_key(self@.matches, k),
            texts(r.matching_folder_ids@).no_duplicates(),
            texts(r.matching_folder_ids@).to_set() == matching_folders(self@.all_files, file_views(r.matches@)),
            failure_views(r.failures@) == self@.failures,
            failure_views(r.failures@).to_multiset() == found_failures(self@.to_scan, self@.outcomes, self@.outcomes.len()).to_multiset(),
    {
        proof {
            use_type_invariant(&self);
            lemma_consistent_counts(self@);
        }
        let matches = sort_matches(&self.matches);
        let matching_folder_ids = collect_matching_folder_ids(self.all_files.as_slice(), matches.as_slice());
        let docs_with_images = matches.len();
        proof {
            let v = self@;
            let n = v.outcomes.len();
            let found = found_images(v.to_scan, v.outcomes, n);
            let all = v.cached_matches + found;
            let rm = file_views(matches@);
            assert forall|i: int| 0 <= i < rm.len() implies is_found_image_of(v.all_files, #[trigger] rm[i]) by {
                let x = rm[i];
                vstd::seq_lib::to_multiset_contains(rm, x);
                assert(rm.contains(x));
                vstd::seq_lib::to_multiset_contains(all, x);
                let j = choose|j: int| 0 <= j < all.len() && all[j] == x;
                if j < v.cached_matches.len() {
                    assert(v.cached_matches[j] == x);
                } else {
                    assert(found[j - v.cached_matches.len()] == x);
                    assert(found.contains(x));
                    lemma_found_images_origin(v.to_scan, v.outcomes, n, x);
                    let k = choose|k: int| 0 <= k < n && x == with_images_flag(#[trigger] v.to_scan[k], true);
                    assert(google_docs(v.all_files).contains(v.to_scan[k]));
                }
            }
        }
        ScanResult {
            folder_id: self.root,
            recursive: self.recursive,
            total_files: self.total_files,
            total_docs: self.total_docs,
            scanned_docs: self.scanned_docs,
            cache_hits: self.cache_hits,
            failed_docs: self.failed_docs,
            docs_with_images,
            matches,
            matching_folder_ids,
            failures: self.failures,
        }
    }
}

proof fn lemma_google_docs_prefix(files: Seq<DriveFileView>, i: int)
    requires
        0 <= i < files.len(),
    ensures
        google_docs(files.subrange(0, i + 1)) == if files[i].is_google_doc {
            google_docs(files.subrange(0, i)).push(files[i])
        } else {
            google_docs(files.subrange(0, i))
        },
        google_docs(files.subrange(0, i + 1)).len() <= google_docs(files).len(),
{
    assert(files.subrange(0, i + 1).drop_last() =~= files.subrange(0, i));
    lemma_google_docs_monotone(files, i + 1);
}

proof fn lemma_google_docs_monotone(files: Seq<DriveFileView>, n: int)
    requires
        0 <= n <= files.len(),
    ensures
        google_docs(files.subrange(0, n)).len() <= google_docs(files).len(),
    decreases files.len() - n,
{
    if n < files.len() {
        lemma_google_docs_monotone(files, n + 1);
        assert(files.subrange(0, n + 1).drop_last() =~= files.subrange(0, n));
    } else {
        assert(files.subrange(0, n) =~= files);
    }
}

} // verus!
