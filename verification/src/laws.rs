//! Properties that hold across the operations of the library.

use vstd::prelude::*;
use crate::drive::{
    DriveFileRawView, DriveFileView, DriveOwnerView, DRIVE_FOLDER_MIME, GOOGLE_DOC_MIME, file_from_raw, owner_labels,
};
use crate::json::{
    JsonValue, document_has_image, is_image_object, json_get, json_path, object_map_has_image, EMBEDDED_OBJECT,
    IMAGE_PROPERTIES, INLINE_OBJECTS, INLINE_OBJECT_PROPERTIES, POSITIONED_OBJECTS, POSITIONED_OBJECT_PROPERTIES,
};
use crate::order::text_lt;
use crate::folders::{is_parent_link, matching_folders, reached_within, seed_ids};
use crate::scan::{
    absorbed, folder_ids, FolderWalkView,
    all_answered, begun_session, cache_pass, doc_count, google_docs, is_open_slot, lemma_begun_consistent,
    lemma_cache_pass_bounds, lemma_consistent_counts, lemma_record_consistent, recorded_answer, recorded_failure,
    session_consistent, ScanSessionView,
};
use crate::state::{
    AppStateView, CachedDocScanView, cancelled, cleared, is_stale, next_generation, with_doc_scan, with_listing,
};

verus! {

/// A recorded listing is what a later lookup of the same folder gives back,
/// and the listings of other folders stay as they were.
pub proof fn law_listing_read_back(s: AppStateView, parent_id: Seq<char>, files: Seq<DriveFileView>, other: Seq<char>)
    ensures
        with_listing(s, parent_id, files).drive_cache.contains_key(parent_id),
        with_listing(s, parent_id, files).drive_cache[parent_id] == files,
        other != parent_id ==> (with_listing(s, parent_id, files).drive_cache.contains_key(other)
            == s.drive_cache.contains_key(other)),
        other != parent_id && s.drive_cache.contains_key(other) ==> with_listing(s, parent_id, files).drive_cache[other]
            == s.drive_cache[other],
{
}

/// A recorded document scan is what a later lookup of the same document gives
/// back, and the records of other documents stay as they were.
pub proof fn law_doc_scan_read_back(s: AppStateView, doc_id: Seq<char>, entry: CachedDocScanView, other: Seq<char>)
    ensures
        with_doc_scan(s, doc_id, entry).scan_cache.contains_key(doc_id),
        with_doc_scan(s, doc_id, entry).scan_cache[doc_id] == entry,
        other != doc_id ==> (with_doc_scan(s, doc_id, entry).scan_cache.contains_key(other)
            == s.scan_cache.contains_key(other)),
        other != doc_id && s.scan_cache.contains_key(other) ==> with_doc_scan(s, doc_id, entry).scan_cache[other]
            == s.scan_cache[other],
{
}

/// Clearing the token forgets it and both caches, and any scan that was
/// running is then stale.
pub proof fn law_clear_forgets(s: AppStateView, listing: Seq<char>, doc: Seq<char>)
    ensures
        cleared(s).access_token is None,
        !cleared(s).drive_cache.contains_key(listing),
        !cleared(s).scan_cache.contains_key(doc),
        is_stale(cleared(s), s.scan_generation),
{
}

/// After a cancellation the scan that was running is stale.
pub proof fn law_cancel_stales_running_scan(s: AppStateView)
    ensures
        is_stale(cancelled(s), s.scan_generation),
{
}

/// Starting a scan makes the scan that was running stale, and the new scan
/// is not stale until the next cancellation or start.
pub proof fn law_new_scan_supersedes(s: AppStateView)
    requires
        s.scan_generation < u64::MAX,
    ensures
        is_stale(cancelled(s), s.scan_generation),
        !is_stale(cancelled(s), (s.scan_generation + 1) as u64),
        next_generation(s.scan_generation) == s.scan_generation + 1,
{
}

/// Every parent of a match is a matching folder, and every recorded parent of
/// a matching folder is one too.
pub proof fn law_matching_folders_closed(
    files: Seq<DriveFileView>,
    matches: Seq<DriveFileView>,
    child: Seq<char>,
    parent: Seq<char>,
)
    ensures
        seed_ids(matches).contains(parent) ==> matching_folders(files, matches).contains(parent),
        matching_folders(files, matches).contains(child) && is_parent_link(files, child, parent)
            ==> matching_folders(files, matches).contains(parent),
{
    if seed_ids(matches).contains(parent) {
        assert(reached_within(files, matches, 0).contains(parent));
    }
    if matching_folders(files, matches).contains(child) && is_parent_link(files, child, parent) {
        let n = choose|n: nat| #[trigger] reached_within(files, matches, n).contains(child);
        let prev = reached_within(files, matches, n);
        assert(reached_within(files, matches, n + 1) == prev.union(
            Set::new(|z: Seq<char>| exists|w: Seq<char>| prev.contains(w) && #[trigger] is_parent_link(files, w, z)),
        ));
        assert(reached_within(files, matches, n + 1).contains(parent));
    }
}

/// At the start of the document phase every Google Doc is either answered
/// from the cache or left to fetch, one progress report is given per cached
/// answer, the counts balance, and a forced scan fetches every document.
pub proof fn law_every_doc_is_answered_or_fetched(
    root: Seq<char>,
    recursive: bool,
    all_files: Seq<DriveFileView>,
    s: AppStateView,
    force: bool,
)
    ensures
        begun_session(root, recursive, all_files, s, force).cache_hits
            + begun_session(root, recursive, all_files, s, force).to_scan.len()
            == begun_session(root, recursive, all_files, s, force).total_docs,
        begun_session(root, recursive, all_files, s, force).cache_hits
            + begun_session(root, recursive, all_files, s, force).scanned_docs
            + begun_session(root, recursive, all_files, s, force).failed_docs
            == begun_session(root, recursive, all_files, s, force).checked_docs,
        cache_pass(google_docs(all_files), s, force, root, all_files.len(), google_docs(all_files).len()).progress.len()
            == begun_session(root, recursive, all_files, s, force).cache_hits,
        force ==> begun_session(root, recursive, all_files, s, force).to_scan == google_docs(all_files),
{
    lemma_cache_pass_bounds(google_docs(all_files), s, force, root, all_files.len(), google_docs(all_files).len());
}

/// A scan's session is consistent when it starts and stays so as each
/// answer or failure comes in for an open slot; in a consistent session the
/// counts balance, and once every slot is answered every Google Doc is counted.
pub proof fn law_scan_counts_balance(
    root: Seq<char>,
    recursive: bool,
    all_files: Seq<DriveFileView>,
    st: AppStateView,
    force: bool,
    s: ScanSessionView,
    slot: int,
    has_images: bool,
    reason: Seq<char>,
)
    ensures
        session_consistent(begun_session(root, recursive, all_files, st, force)),
        session_consistent(s) && is_open_slot(s, slot) ==> session_consistent(recorded_answer(s, slot, has_images)),
        session_consistent(s) && is_open_slot(s, slot) ==> session_consistent(recorded_failure(s, slot, reason)),
        session_consistent(s) ==> s.cache_hits + s.scanned_docs + s.failed_docs == s.checked_docs
            && s.failures.len() == s.failed_docs,
        session_consistent(s) && all_answered(s) ==> s.cache_hits + s.scanned_docs + s.failed_docs == s.total_docs,
{
    lemma_begun_consistent(root, recursive, all_files, st, force);
    if session_consistent(s) {
        lemma_consistent_counts(s);
        if is_open_slot(s, slot) {
            lemma_record_consistent(s, slot, Ok(has_images));
            lemma_record_consistent(s, slot, Err(reason));
        }
    }
}

/// The number of Google Docs in two lists together is the sum of their counts,
/// so the documents counted while folders are read are those of the files read.
pub proof fn law_doc_count_adds(a: Seq<DriveFileView>, b: Seq<DriveFileView>)
    ensures
        doc_count(a + b) == doc_count(a) + doc_count(b),
    decreases b.len(),
{
    if b.len() > 0 {
        law_doc_count_adds(a, b.drop_last());
        assert((a + b).drop_last() =~= a + b.drop_last());
    } else {
        assert(a + b =~= a);
    }
}

/// A folder's child is a folder.
pub open spec fn is_folder_file(f: DriveFileView) -> bool {
    f.is_folder
}

/// A listed file is a Google Doc.
pub open spec fn is_doc_file(f: DriveFileView) -> bool {
    f.is_google_doc
}

/// The id of a file.
pub open spec fn id_of(f: DriveFileView) -> Seq<char> {
    f.id
}

proof fn lemma_folder_ids_filter(files: Seq<DriveFileView>)
    ensures
        folder_ids(files) == files.filter(|f: DriveFileView| is_folder_file(f)).map_values(|f: DriveFileView| id_of(f)),
    decreases files.len(),
{
    reveal(Seq::filter);
    if files.len() > 0 {
        lemma_folder_ids_filter(files.drop_last());
        let r = files.drop_last().filter(|f: DriveFileView| is_folder_file(f));
        if files.last().is_folder {
            assert(r.push(files.last()).map_values(|f: DriveFileView| id_of(f))
                =~= r.map_values(|f: DriveFileView| id_of(f)).push(files.last().id));
        }
    } else {
        assert(files.filter(|f: DriveFileView| is_folder_file(f)).map_values(|f: DriveFileView| id_of(f))
            =~= Seq::<Seq<char>>::empty());
    }
}

proof fn lemma_doc_count_filter(files: Seq<DriveFileView>)
    ensures
        doc_count(files) == files.filter(|f: DriveFileView| is_doc_file(f)).len(),
        google_docs(files) == files.filter(|f: DriveFileView| is_doc_file(f)),
    decreases files.len(),
{
    reveal(Seq::filter);
    if files.len() > 0 {
        lemma_doc_count_filter(files.drop_last());
    }
}

/// A recursive walk queues every child that is a folder, in the order listed
/// and nothing else, after the folders still to read; a walk that is not
/// recursive queues none. Every child joins the files read, and the Google
/// Docs counted grow by the number of children that are Google Docs.
pub proof fn law_walk_queues_every_subfolder(w: FolderWalkView, children: Seq<DriveFileView>, k: int)
    ensures
        w.recursive ==> absorbed(w, children).remaining
            == w.remaining + children.filter(|f: DriveFileView| is_folder_file(f)).map_values(|f: DriveFileView| id_of(f)),
        w.recursive && 0 <= k < children.len() && children[k].is_folder
            ==> absorbed(w, children).remaining.subrange(w.remaining.len() as int, absorbed(w, children).remaining.len() as int)
                .contains(children[k].id),
        w.recursive ==> absorbed(w, children).remaining.len()
            == w.remaining.len() + children.filter(|f: DriveFileView| is_folder_file(f)).len(),
        !w.recursive ==> absorbed(w, children).remaining == w.remaining,
        absorbed(w, children).collected == w.collected + children,
        absorbed(w, children).discovered_docs
            == w.discovered_docs + children.filter(|f: DriveFileView| is_doc_file(f)).len(),
{
    broadcast use vstd::seq_lib::group_filter_ensures;

    lemma_folder_ids_filter(children);
    lemma_doc_count_filter(children);
    if w.recursive && 0 <= k < children.len() && children[k].is_folder {
        let fl = children.filter(|f: DriveFileView| is_folder_file(f));
        assert(is_folder_file(children[k]));
        assert(fl.contains(children[k]));
        let j = choose|j: int| 0 <= j < fl.len() && fl[j] == children[k];
        let rem = absorbed(w, children).remaining;
        assert(rem.subrange(w.remaining.len() as int, rem.len() as int)[j] == children[k].id);
    }
}

/// The Google Docs of a listing are exactly its files that are Google Docs,
/// in order.
pub proof fn law_google_docs_are_the_docs(files: Seq<DriveFileView>)
    ensures
        google_docs(files) == files.filter(|f: DriveFileView| is_doc_file(f)),
{
    lemma_doc_count_filter(files);
}

/// A document the cache cannot answer: the scan is forced, the cache has no
/// record of it, or the record was made for another modification time.
pub open spec fn needs_fetch(state: AppStateView, force: bool, d: DriveFileView) -> bool {
    force || !state.scan_cache.contains_key(d.id) || state.scan_cache[d.id].modified_time != d.modified_time
}

proof fn lemma_cache_pass_to_scan(
    docs: Seq<DriveFileView>,
    st: AppStateView,
    force: bool,
    root: Seq<char>,
    total_files: nat,
    total_docs: nat,
)
    ensures
        cache_pass(docs, st, force, root, total_files, total_docs).to_scan
            == docs.filter(|d: DriveFileView| needs_fetch(st, force, d)),
    decreases docs.len(),
{
    reveal(Seq::filter);
    if docs.len() > 0 {
        lemma_cache_pass_to_scan(docs.drop_last(), st, force, root, total_files, total_docs);
    }
}

/// The documents a scan leaves to fetch are exactly its Google Docs that the
/// cache cannot answer, in listed order: a document whose cached record was
/// made for any other modification time, or that has no record, or any
/// document of a forced scan, is fetched; and the cache answers the rest.
pub proof fn law_cache_answers_only_unchanged_docs(
    root: Seq<char>,
    recursive: bool,
    all_files: Seq<DriveFileView>,
    st: AppStateView,
    force: bool,
    k: int,
)
    ensures
        begun_session(root, recursive, all_files, st, force).to_scan
            == all_files.filter(|f: DriveFileView| is_doc_file(f)).filter(|d: DriveFileView| needs_fetch(st, force, d)),
        begun_session(root, recursive, all_files, st, force).cache_hits
            + all_files.filter(|f: DriveFileView| is_doc_file(f)).filter(|d: DriveFileView| needs_fetch(st, force, d)).len()
            == all_files.filter(|f: DriveFileView| is_doc_file(f)).len(),
        0 <= k < all_files.len() && all_files[k].is_google_doc && needs_fetch(st, force, all_files[k])
            ==> begun_session(root, recursive, all_files, st, force).to_scan.contains(all_files[k]),
{
    broadcast use vstd::seq_lib::group_filter_ensures;

    let docs = google_docs(all_files);
    lemma_doc_count_filter(all_files);
    lemma_cache_pass_to_scan(docs, st, force, root, all_files.len(), docs.len());
    lemma_cache_pass_bounds(docs, st, force, root, all_files.len(), docs.len());
    if 0 <= k < all_files.len() && all_files[k].is_google_doc && needs_fetch(st, force, all_files[k]) {
        assert(is_doc_file(all_files[k]));
        assert(docs.contains(all_files[k]));
        let j = choose|j: int| 0 <= j < docs.len() && docs[j] == all_files[k];
        assert(docs.filter(|d: DriveFileView| needs_fetch(st, force, d)).contains(docs[j]));
    }
}

/// The object that `key` names in `v`, when `v` is an object that has it.
proof fn lemma_path3(v: JsonValue, a: Seq<char>, b: Seq<char>, c: Seq<char>)
    ensures
        (json_path(v, seq![a, b, c]) is Some) <==> (json_get(v, a) matches Some(x)
            && json_get(x, b) matches Some(y) && json_get(y, c) is Some),
{
    reveal_with_fuel(json_path, 4);
    let p = seq![a, b, c];
    assert(p.drop_first() =~= seq![b, c]);
    assert(p.drop_first().drop_first() =~= seq![c]);
    assert(p.drop_first().drop_first().drop_first() =~= Seq::<Seq<char>>::empty());
}

/// An object of a document embeds an image exactly when it has
/// `inlineObjectProperties.embeddedObject.imageProperties` or
/// `positionedObjectProperties.embeddedObject.imageProperties`.
pub proof fn law_image_object_has_image_properties(o: JsonValue)
    ensures
        is_image_object(o) <==> (
            (json_get(o, INLINE_OBJECT_PROPERTIES@) matches Some(x) && json_get(x, EMBEDDED_OBJECT@) matches Some(y)
                && json_get(y, IMAGE_PROPERTIES@) is Some)
            || (json_get(o, POSITIONED_OBJECT_PROPERTIES@) matches Some(x) && json_get(x, EMBEDDED_OBJECT@) matches Some(y)
                && json_get(y, IMAGE_PROPERTIES@) is Some)),
{
    lemma_path3(o, INLINE_OBJECT_PROPERTIES@, EMBEDDED_OBJECT@, IMAGE_PROPERTIES@);
    lemma_path3(o, POSITIONED_OBJECT_PROPERTIES@, EMBEDDED_OBJECT@, IMAGE_PROPERTIES@);
}

/// An object map holds an image as soon as one of its members is an image
/// object, whatever the others are; a map none of whose members is one (an
/// empty map among them) holds none, and so does anything that is not an
/// object.
pub proof fn law_object_map_image_is_any_member(members: Vec<(String, JsonValue)>, i: int, v: Option<JsonValue>)
    ensures
        0 <= i < members@.len() && is_image_object(members@[i].1)
            ==> object_map_has_image(Some(JsonValue::Object(members))),
        (forall|k: int| 0 <= k < members@.len() ==> !#[trigger] is_image_object(members@[k].1))
            ==> !object_map_has_image(Some(JsonValue::Object(members))),
        members@.len() == 0 ==> !object_map_has_image(Some(JsonValue::Object(members))),
        !(v matches Some(JsonValue::Object(_))) ==> !object_map_has_image(v),
{
}

/// A document holds an image exactly when its inline objects or its
/// positioned objects hold one.
pub proof fn law_document_image_is_inline_or_positioned(doc: JsonValue)
    ensures
        document_has_image(doc) <==> object_map_has_image(json_get(doc, INLINE_OBJECTS@))
            || object_map_has_image(json_get(doc, POSITIONED_OBJECTS@)),
{
}

/// The text order is the lexicographic order of `str`: `a` comes before `b`
/// exactly when `a` is a proper prefix of `b`, or at the first position where
/// they differ the code point of `a` is lower.
pub proof fn law_text_order_is_lexicographic(a: Seq<char>, b: Seq<char>)
    ensures
        text_lt(a, b) <==> ((a.len() < b.len() && a == b.subrange(0, a.len() as int))
            || exists|i: int| 0 <= i < a.len() && i < b.len() && a.subrange(0, i) == b.subrange(0, i)
                && (#[trigger] a[i] as u32) < (b[i] as u32)),
    decreases a.len(),
{
    let prefix = a.len() < b.len() && a == b.subrange(0, a.len() as int);
    let differs = exists|i: int| 0 <= i < a.len() && i < b.len() && a.subrange(0, i) == b.subrange(0, i)
        && (#[trigger] a[i] as u32) < (b[i] as u32);
    if a.len() == 0 {
        if b.len() > 0 {
            assert(a =~= b.subrange(0, 0));
        }
    } else if b.len() == 0 {
    } else if a[0] != b[0] {
        if (a[0] as u32) < (b[0] as u32) {
            assert(a.subrange(0, 0) =~= b.subrange(0, 0));
        } else {
            if prefix {
                assert(a[0] == b.subrange(0, a.len() as int)[0]);
            }
            if differs {
                let i = choose|i: int| 0 <= i < a.len() && i < b.len() && a.subrange(0, i) == b.subrange(0, i)
                    && (#[trigger] a[i] as u32) < (b[i] as u32);
                if i > 0 {
                    assert(a.subrange(0, i)[0] == b.subrange(0, i)[0]);
                }
                assert(a[0] as u32 == b[0] as u32 ==> a[0] == b[0]);
            }
        }
    } else {
        let a1 = a.drop_first();
        let b1 = b.drop_first();
        law_text_order_is_lexicographic(a1, b1);
        if a1.len() < b1.len() && a1 == b1.subrange(0, a1.len() as int) {
            let pb = b.subrange(0, a.len() as int);
            assert(a =~= pb) by {
                assert forall|j: int| 0 <= j < a.len() implies #[trigger] a[j] == pb[j] by {
                    if j > 0 {
                        assert(a[j] == a1[j - 1]);
                        assert(b1.subrange(0, a1.len() as int)[j - 1] == b[j]);
                    }
                }
            }
        }
        if exists|i: int| 0 <= i < a1.len() && i < b1.len() && a1.subrange(0, i) == b1.subrange(0, i)
            && (#[trigger] a1[i] as u32) < (b1[i] as u32) {
            let i = choose|i: int| 0 <= i < a1.len() && i < b1.len() && a1.subrange(0, i) == b1.subrange(0, i)
                && (#[trigger] a1[i] as u32) < (b1[i] as u32);
            let sa = a.subrange(0, i + 1);
            let sb = b.subrange(0, i + 1);
            assert(sa =~= sb) by {
                assert forall|j: int| 0 <= j < i + 1 implies #[trigger] sa[j] == sb[j] by {
                    if j > 0 {
                        assert(a1.subrange(0, i)[j - 1] == b1.subrange(0, i)[j - 1]);
                    }
                }
            }
            assert(a[i + 1] == a1[i]);
        }
        if prefix {
            let pb1 = b1.subrange(0, a1.len() as int);
            assert(a1 =~= pb1) by {
                assert forall|j: int| 0 <= j < a1.len() implies #[trigger] a1[j] == pb1[j] by {
                    assert(a[j + 1] == b.subrange(0, a.len() as int)[j + 1]);
                }
            }
        }
        if differs {
            let i = choose|i: int| 0 <= i < a.len() && i < b.len() && a.subrange(0, i) == b.subrange(0, i)
                && (#[trigger] a[i] as u32) < (b[i] as u32);
            assert(i > 0);
            let ta = a1.subrange(0, i - 1);
            let tb = b1.subrange(0, i - 1);
            assert(ta =~= tb) by {
                assert forall|j: int| 0 <= j < i - 1 implies #[trigger] ta[j] == tb[j] by {
                    assert(a.subrange(0, i)[j + 1] == b.subrange(0, i)[j + 1]);
                }
            }
            assert(a1[i - 1] == a[i]);
            assert(b1[i - 1] == b[i]);
        }
    }
}

/// The name an owner is shown by, where it has one.
pub open spec fn shown_owner_name(o: DriveOwnerView) -> Option<Seq<char>> {
    if o.display_name is Some {
        o.display_name
    } else {
        o.email_address
    }
}

proof fn lemma_owner_labels(owners: Seq<DriveOwnerView>)
    ensures
        owner_labels(owners) == owners.filter_map(|o: DriveOwnerView| shown_owner_name(o)),
    decreases owners.len(),
{
    if owners.len() > 0 {
        lemma_owner_labels(owners.drop_last());
        let rest = owner_labels(owners.drop_last());
        match shown_owner_name(owners.last()) {
            Some(l) => {
                assert(rest.push(l) =~= rest + seq![l]);
            },
            None => {},
        }
    }
}

/// The app's record of a listed file keeps its id, name, MIME type, times,
/// size and links as listed, knows nothing yet of images, lists the parents
/// (none where the listing gives none), names each owner by display name
/// or else e-mail address in listed order, and marks folders and Google Docs
/// by their MIME types.
pub proof fn law_record_keeps_listed_fields(r: DriveFileRawView)
    ensures
        file_from_raw(r).id == r.id,
        file_from_raw(r).name == r.name,
        file_from_raw(r).mime_type == r.mime_type,
        file_from_raw(r).modified_time == r.modified_time,
        file_from_raw(r).size == r.size,
        file_from_raw(r).web_view_link == r.web_view_link,
        file_from_raw(r).icon_link == r.icon_link,
        file_from_raw(r).has_images is None,
        file_from_raw(r).parent_ids == match r.parents {
            Some(p) => p,
            None => Seq::empty(),
        },
        file_from_raw(r).owner_names == match r.owners {
            Some(o) => o.filter_map(|x: DriveOwnerView| shown_owner_name(x)),
            None => Seq::empty(),
        },
        file_from_raw(r).is_folder <==> r.mime_type == DRIVE_FOLDER_MIME@,
        file_from_raw(r).is_google_doc <==> r.mime_type == GOOGLE_DOC_MIME@,
{
    match r.owners {
        Some(o) => lemma_owner_labels(o),
        None => {},
    }
}

} // verus!
