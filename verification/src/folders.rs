//! The folders that lead to matching documents: every folder reachable from a
//! match by following parent links through the scanned files.

use vstd::prelude::*;
use crate::drive::{DriveFile, DriveFileView, file_views};
use crate::text::{texts, copy_texts};

verus! {

/// The parents recorded for `id`: those of the last file listed with that id.
pub open spec fn parents_of(files: Seq<DriveFileView>, id: Seq<char>) -> Option<Seq<Seq<char>>>
    decreases files.len(),
{
    if files.len() == 0 {
        None
    } else if files.last().id == id {
        Some(files.last().parent_ids)
    } else {
        parents_of(files.drop_last(), id)
    }
}

/// `parent` is among the parents recorded for `child`.
pub open spec fn is_parent_link(files: Seq<DriveFileView>, child: Seq<char>, parent: Seq<char>) -> bool {
    match parents_of(files, child) {
        Some(p) => p.contains(parent),
        None => false,
    }
}

/// The parent ids of the matches.
pub open spec fn seed_ids(matches: Seq<DriveFileView>) -> Set<Seq<char>> {
    Set::new(|x: Seq<char>| exists|i: int| 0 <= i < matches.len() && (#[trigger] matches[i]).parent_ids.contains(x))
}

/// The folders reached from the matches' parents in at most `n` parent links.
pub open spec fn reached_within(files: Seq<DriveFileView>, matches: Seq<DriveFileView>, n: nat) -> Set<Seq<char>>
    decreases n,
{
    if n == 0 {
        seed_ids(matches)
    } else {
        let prev = reached_within(files, matches, (n - 1) as nat);
        prev.union(Set::new(|x: Seq<char>| exists|y: Seq<char>| prev.contains(y) && #[trigger] is_parent_link(files, y, x)))
    }
}

/// `x` is reached from the matches' parents by following parent links.
pub open spec fn is_matching_folder(files: Seq<DriveFileView>, matches: Seq<DriveFileView>, x: Seq<char>) -> bool {
    exists|n: nat| #[trigger] reached_within(files, matches, n).contains(x)
}

/// Every folder reached from the matches' parents by following parent links.
pub open spec fn matching_folders(files: Seq<DriveFileView>, matches: Seq<DriveFileView>) -> Set<Seq<char>> {
    Set::new(|x: Seq<char>| is_matching_folder(files, matches, x))
}

/// All parent ids that the files list, in order.
pub open spec fn all_parent_ids(files: Seq<DriveFileView>) -> Seq<Seq<char>>
    decreases files.len(),
{
    if files.len() == 0 {
        Seq::empty()
    } else {
        all_parent_ids(files.drop_last()) + files.last().parent_ids
    }
}

proof fn lemma_concat_contains(a: Seq<Seq<char>>, b: Seq<Seq<char>>, x: Seq<char>)
    ensures
        (a.contains(x) || b.contains(x)) ==> (a + b).contains(x),
{
    if a.contains(x) {
        let k = choose|k: int| 0 <= k < a.len() && a[k] == x;
        assert((a + b)[k] == x);
    } else if b.contains(x) {
        let k = choose|k: int| 0 <= k < b.len() && b[k] == x;
        assert((a + b)[a.len() + k] == x);
    }
}

proof fn lemma_file_parents_listed(files: Seq<DriveFileView>, i: int, x: Seq<char>)
    requires
        0 <= i < files.len(),
        files[i].parent_ids.contains(x),
    ensures
        all_parent_ids(files).contains(x),
    decreases files.len(),
{
    lemma_concat_contains(all_parent_ids(files.drop_last()), files.last().parent_ids, x);
    if i < files.len() - 1 {
        assert(files.drop_last()[i] == files[i]);
        lemma_file_parents_listed(files.drop_last(), i, x);
    }
}

proof fn lemma_parents_listed(files: Seq<DriveFileView>, id: Seq<char>, x: Seq<char>)
    requires
        is_parent_link(files, id, x),
    ensures
        all_parent_ids(files).contains(x),
    decreases files.len(),
{
    lemma_concat_contains(all_parent_ids(files.drop_last()), files.last().parent_ids, x);
    if files.last().id != id {
        lemma_parents_listed(files.drop_last(), id, x);
    }
}

proof fn lemma_reach_step(files: Seq<DriveFileView>, matches: Seq<DriveFileView>, n: nat, y: Seq<char>, x: Seq<char>)
    requires
        reached_within(files, matches, n).contains(y),
        is_parent_link(files, y, x),
    ensures
        reached_within(files, matches, n + 1).contains(x),
{
    let prev = reached_within(files, matches, n);
    assert(reached_within(files, matches, (n + 1) as nat) == prev.union(
        Set::new(|z: Seq<char>| exists|w: Seq<char>| prev.contains(w) && #[trigger] is_parent_link(files, w, z)),
    ));
}

proof fn lemma_closed_contains_reach(
    files: Seq<DriveFileView>,
    matches: Seq<DriveFileView>,
    vis: Set<Seq<char>>,
    n: nat,
)
    requires
        forall|x: Seq<char>| #[trigger] seed_ids(matches).contains(x) ==> vis.contains(x),
        forall|y: Seq<char>, x: Seq<char>| vis.contains(y) && #[trigger] is_parent_link(files, y, x) ==> vis.contains(x),
    ensures
        forall|x: Seq<char>| #[trigger] reached_within(files, matches, n).contains(x) ==> vis.contains(x),
    decreases n,
{
    if n > 0 {
        let prev = reached_within(files, matches, (n - 1) as nat);
        lemma_closed_contains_reach(files, matches, vis, (n - 1) as nat);
        assert forall|x: Seq<char>| #[trigger] reached_within(files, matches, n).contains(x) implies vis.contains(x) by {
            if !prev.contains(x) {
                let y = choose|y: Seq<char>| prev.contains(y) && #[trigger] is_parent_link(files, y, x);
                assert(vis.contains(y));
            }
        }
    }
}

proof fn lemma_nodup_len_bound(a: Seq<Seq<char>>, u: Seq<Seq<char>>)
    requires
        a.no_duplicates(),
        forall|x: Seq<char>| a.contains(x) ==> u.contains(x),
    ensures
        a.len() <= u.len(),
{
    a.unique_seq_to_set();
    u.lemma_cardinality_of_set();
    assert(a.to_set().subset_of(u.to_set()));
    vstd::set_lib::lemma_len_subset(a.to_set(), u.to_set());
}

/// Whether `id` is among `v`.
fn contains_text(v: &Vec<String>, id: &String) -> (r: bool)
    ensures
        r == texts(v@).contains(id@),
{
    let mut i: usize = 0;
    while i < v.len()
        invariant
            i <= v@.len(),
            forall|k: int| 0 <= k < i ==> v@[k]@ != id@,
        decreases v@.len() - i,
    {
        if v[i] == *id {
            assert(texts(v@)[i as int] == id@);
            return true;
        }
        i = i + 1;
    }
    assert(!texts(v@).contains(id@)) by {
        if texts(v@).contains(id@) {
            let k = choose|k: int| 0 <= k < texts(v@).len() && texts(v@)[k] == id@;
            assert(v@[k]@ == id@);
        }
    }
    false
}

/// The index of the last file with id `id`, whose parents `parents_of` gives.
fn last_index_of(files: &[DriveFile], id: &String) -> (r: Option<usize>)
    ensures
        match r {
            Some(k) => k < files@.len() && parents_of(file_views(files@), id@) == Some(files@[k as int]@.parent_ids),
            None => parents_of(file_views(files@), id@) is None,
        },
{
    let ghost fv = file_views(files@);
    let mut j: usize = files.len();
    assert(fv.subrange(0, j as int) =~= fv);
    while j > 0
        invariant
            j <= files@.len(),
            fv == file_views(files@),
            parents_of(fv, id@) == parents_of(fv.subrange(0, j as int), id@),
        decreases j,
    {
        let ghost sub = fv.subrange(0, j as int);
        assert(sub.drop_last() =~= fv.subrange(0, j - 1));
        assert(sub.last() == files@[j - 1]@);
        if files[j - 1].id == *id {
            return Some(j - 1);
        }
        j = j - 1;
    }
    assert(fv.subrange(0, 0).len() == 0);
    None
}

/// Appends the texts of `items` to `queue`.
pub(crate) fn push_texts(queue: &mut Vec<String>, items: &Vec<String>)
    ensures
        final(queue)@ == old(queue)@ + items@,
{
    let ghost start = queue@;
    let mut i: usize = 0;
    while i < items.len()
        invariant
            i <= items@.len(),
            queue@ == start + items@.subrange(0, i as int),
        decreases items@.len() - i,
    {
        queue.push(items[i].clone());
        i = i + 1;
        assert(queue@ =~= start + items@.subrange(0, i as int));
    }
    assert(items@.subrange(0, items@.len() as int) =~= items@);
}

/// A text is still waiting in `queue` at or after `head`.
spec fn waiting(queue: Seq<String>, head: int, x: Seq<char>) -> bool {
    exists|k: int| head <= k < queue.len() && (#[trigger] queue[k])@ == x
}

/// The ids of every folder reached from a match's parents by following the
/// parent links that `all_files` records (for an id listed twice, the last
/// listing's parents), each once.
pub fn collect_matching_folder_ids(all_files: &[DriveFile], matches: &[DriveFile]) -> (ids: Vec<String>)
    ensures
        texts(ids@).no_duplicates(),
        texts(ids@).to_set() == matching_folders(file_views(all_files@), file_views(matches@)),
{
    let ghost fv = file_views(all_files@);
    let ghost mv = file_views(matches@);
    let ghost u = all_parent_ids(fv) + all_parent_ids(mv);
    let mut visited: Vec<String> = Vec::new();
    let mut mi: usize = 0;
    while mi < matches.len()
        invariant
            fv == file_views(all_files@),
            mv == file_views(matches@),
            u == all_parent_ids(fv) + all_parent_ids(mv),
            mi <= matches@.len(),
            texts(visited@).no_duplicates(),
            forall|x: Seq<char>| #[trigger] texts(visited@).contains(x) ==> u.contains(x) && is_matching_folder(fv, mv, x),
            forall|y: Seq<char>, x: Seq<char>|
                texts(visited@).contains(y) && #[trigger] is_parent_link(fv, y, x) ==> texts(visited@).contains(x),
            forall|i: int, x: Seq<char>|
                0 <= i < mi && #[trigger] mv[i].parent_ids.contains(x) ==> texts(visited@).contains(x),
        decreases matches@.len() - mi,
    {
        let mut queue: Vec<String> = copy_texts(&matches[mi].parent_ids);
        let mut head: usize = 0;
        proof {
            assert(mv[mi as int] == matches@[mi as int]@);
            assert forall|k: int| 0 <= k < queue@.len() implies u.contains(#[trigger] queue@[k]@)
                && is_matching_folder(fv, mv, queue@[k]@) by {
                let x = queue@[k]@;
                assert(mv[mi as int].parent_ids[k] == x);
                lemma_file_parents_listed(mv, mi as int, x);
                lemma_concat_contains(all_parent_ids(fv), all_parent_ids(mv), x);
                assert(seed_ids(mv).contains(x));
                assert(reached_within(fv, mv, 0).contains(x));
            }
            assert forall|x: Seq<char>| mv[mi as int].parent_ids.contains(x) implies waiting(queue@, 0, x) by {
                let k = choose|k: int| 0 <= k < mv[mi as int].parent_ids.len() && mv[mi as int].parent_ids[k] == x;
                assert(queue@[k]@ == x);
            }
        }
        while head < queue.len()
            invariant
                fv == file_views(all_files@),
                mv == file_views(matches@),
                u == all_parent_ids(fv) + all_parent_ids(mv),
                mi < matches@.len(),
                head <= queue@.len(),
                texts(visited@).no_duplicates(),
                forall|x: Seq<char>| #[trigger] texts(visited@).contains(x) ==> u.contains(x) && is_matching_folder(fv, mv, x),
                forall|k: int| 0 <= k < queue@.len() ==> u.contains(#[trigger] queue@[k]@) && is_matching_folder(fv, mv, queue@[k]@),
                forall|y: Seq<char>, x: Seq<char>|
                    texts(visited@).contains(y) && #[trigger] is_parent_link(fv, y, x) ==> texts(visited@).contains(x) || waiting(queue@, head as int, x),
                forall|i: int, x: Seq<char>|
                    0 <= i < mi && #[trigger] mv[i].parent_ids.contains(x) ==> texts(visited@).contains(x),
                forall|x: Seq<char>|
                    #[trigger] mv[mi as int].parent_ids.contains(x) ==> texts(visited@).contains(x) || waiting(queue@, head as int, x),
            decreases u.len() - visited@.len(), queue@.len() - head,
        {
            let ghost old_vis = texts(visited@);
            let ghost old_queue = queue@;
            let ghost old_head = head as int;
            proof {
                lemma_nodup_len_bound(old_vis, u);
            }
            let folder_id = queue[head].clone();
            head = head + 1;
            if contains_text(&visited, &folder_id) {
                proof {
                    assert forall|x: Seq<char>| waiting(old_queue, old_head, x) implies old_vis.contains(x) || waiting(queue@, head as int, x) by {
                        let k = choose|k: int| old_head <= k < old_queue.len() && (#[trigger] old_queue[k])@ == x;
                        if k == old_head {
                        } else {
                            assert(queue@[k]@ == x);
                        }
                    }
                }
                continue;
            }
            let ghost x0 = folder_id@;
            visited.push(folder_id.clone());
            proof {
                assert(texts(visited@) =~= old_vis.push(x0));
                assert forall|a: int, b: int| 0 <= a < b < texts(visited@).len() implies texts(visited@)[a] != texts(visited@)[b] by {
                    if b == old_vis.len() {
                        assert(old_vis[a] == texts(visited@)[a]);
                    }
                }
                assert(texts(visited@)[old_vis.len() as int] == x0);
                assert(old_queue[old_head]@ == x0);
                assert forall|x: Seq<char>| #[trigger] texts(visited@).contains(x) implies old_vis.contains(x) || x == x0 by {
                    let j = choose|j: int| 0 <= j < texts(visited@).len() && texts(visited@)[j] == x;
                    if j < old_vis.len() {
                        assert(old_vis[j] == x);
                    }
                }
            }
            match last_index_of(all_files, &folder_id) {
                Some(k) => {
                    push_texts(&mut queue, &all_files[k].parent_ids);
                    proof {
                        let p = fv[k as int].parent_ids;
                        assert(fv[k as int] == all_files@[k as int]@);
                        assert(texts(all_files@[k as int].parent_ids@) == p);
                        assert forall|t: int| 0 <= t < queue@.len() implies u.contains(#[trigger] queue@[t]@)
                            && is_matching_folder(fv, mv, queue@[t]@) by {
                            if t >= old_queue.len() {
                                let x = queue@[t]@;
                                assert(p[t - old_queue.len()] == x);
                                assert(is_parent_link(fv, x0, x));
                                lemma_parents_listed(fv, x0, x);
                                lemma_concat_contains(all_parent_ids(fv), all_parent_ids(mv), x);
                                assert(is_matching_folder(fv, mv, x0));
                                let n = choose|n: nat| #[trigger] reached_within(fv, mv, n).contains(x0);
                                lemma_reach_step(fv, mv, n, x0, x);
                            } else {
                                assert(queue@[t] == old_queue[t]);
                            }
                        }
                        assert forall|x: Seq<char>| waiting(old_queue, old_head, x) implies texts(visited@).contains(x) || waiting(queue@, head as int, x) by {
                            let j = choose|j: int| old_head <= j < old_queue.len() && (#[trigger] old_queue[j])@ == x;
                            if j == old_head {
                                assert(texts(visited@)[old_vis.len() as int] == x);
                            } else {
                                assert(queue@[j] == old_queue[j]);
                            }
                        }
                        assert forall|x: Seq<char>| is_parent_link(fv, x0, x) implies waiting(queue@, head as int, x) by {
                            let j = choose|j: int| 0 <= j < p.len() && p[j] == x;
                            assert(queue@[old_queue.len() + j]@ == x);
                        }
                        assert forall|x: Seq<char>| old_vis.contains(x) implies texts(visited@).contains(x) by {
                            let j = choose|j: int| 0 <= j < old_vis.len() && old_vis[j] == x;
                            assert(texts(visited@)[j] == x);
                        }
                    }
                },
                None => {
                    proof {
                        assert forall|x: Seq<char>| waiting(old_queue, old_head, x) implies texts(visited@).contains(x) || waiting(queue@, head as int, x) by {
                            let j = choose|j: int| old_head <= j < old_queue.len() && (#[trigger] old_queue[j])@ == x;
                            if j == old_head {
                                assert(texts(visited@)[old_vis.len() as int] == x);
                            }
                        }
                        assert forall|x: Seq<char>| old_vis.contains(x) implies texts(visited@).contains(x) by {
                            let j = choose|j: int| 0 <= j < old_vis.len() && old_vis[j] == x;
                            assert(texts(visited@)[j] == x);
                        }
                    }
                },
            }
            proof {
                lemma_nodup_len_bound(texts(visited@), u);
            }
        }
        mi = mi + 1;
    }
    proof {
        let vis = texts(visited@);
        let target = matching_folders(fv, mv);
        assert forall|x: Seq<char>| #[trigger] seed_ids(mv).contains(x) implies vis.to_set().contains(x) by {
            let i = choose|i: int| 0 <= i < mv.len() && (#[trigger] mv[i]).parent_ids.contains(x);
        }
        assert forall|y: Seq<char>, x: Seq<char>| vis.to_set().contains(y) && #[trigger] is_parent_link(fv, y, x) implies vis.to_set().contains(x) by {
        }
        assert forall|x: Seq<char>| target.contains(x) implies vis.to_set().contains(x) by {
            let n = choose|n: nat| #[trigger] reached_within(fv, mv, n).contains(x);
            lemma_closed_contains_reach(fv, mv, vis.to_set(), n);
        }
        assert(vis.to_set() =~= target);
    }
    visited
}

} // verus!
