//! The order in which matches are reported: by lower-cased name, then by id,
//! each compared character by character.

use vstd::prelude::*;
use crate::drive::{DriveFile, DriveFileView, file_views};
use crate::text::{chars_of, lowercase, to_lowercase};

verus! {

broadcast use vstd::seq_lib::to_multiset_insert;

/// `a` comes before `b`: at the first character where they differ the code
/// point of `a` is lower, or `a` is a proper prefix of `b`. This is the order of
/// `str` comparison, as UTF-8 preserves the order of code points.
pub open spec fn text_lt(a: Seq<char>, b: Seq<char>) -> bool
    decreases a.len(),
{
    if a.len() == 0 {
        b.len() > 0
    } else if b.len() == 0 {
        false
    } else if a[0] != b[0] {
        (a[0] as u32) < (b[0] as u32)
    } else {
        text_lt(a.drop_first(), b.drop_first())
    }
}

/// The sort key of a match: its name lower-cased, then its id.
pub open spec fn match_key(f: DriveFileView) -> (Seq<char>, Seq<char>) {
    (lowercase(f.name), f.id)
}

/// `a` sorts before `b`.
pub open spec fn key_lt(a: (Seq<char>, Seq<char>), b: (Seq<char>, Seq<char>)) -> bool {
    text_lt(a.0, b.0) || (a.0 == b.0 && text_lt(a.1, b.1))
}

/// The files are in the order of their sort keys.
pub open spec fn sorted_by_key(files: Seq<DriveFileView>) -> bool {
    forall|a: int, b: int| 0 <= a < b < files.len() ==> !key_lt(match_key(files[b]), match_key(files[a]))
}

/// Whether a file has the sort key `k`.
pub open spec fn has_key(k: (Seq<char>, Seq<char>)) -> spec_fn(DriveFileView) -> bool {
    |f: DriveFileView| match_key(f) == k
}

/// The files with sort key `k`, in order.
pub open spec fn with_key(files: Seq<DriveFileView>, k: (Seq<char>, Seq<char>)) -> Seq<DriveFileView> {
    files.filter(has_key(k))
}

proof fn lemma_with_key_single(x: DriveFileView, k: (Seq<char>, Seq<char>))
    ensures
        with_key(seq![x], k) == if match_key(x) == k { seq![x] } else { Seq::<DriveFileView>::empty() },
{
    reveal(Seq::filter);
    assert(seq![x].drop_last() =~= Seq::<DriveFileView>::empty());
    assert(Seq::<DriveFileView>::empty().filter(has_key(k)) =~= Seq::<DriveFileView>::empty());
    if match_key(x) == k {
        assert(Seq::<DriveFileView>::empty().push(x) =~= seq![x]);
    }
}

proof fn lemma_with_key_push(s: Seq<DriveFileView>, x: DriveFileView, k: (Seq<char>, Seq<char>))
    ensures
        with_key(s.push(x), k) == if match_key(x) == k { with_key(s, k).push(x) } else { with_key(s, k) },
{
    assert(s.push(x) =~= s + seq![x]);
    Seq::filter_distributes_over_add(s, seq![x], has_key(k));
    lemma_with_key_single(x, k);
    if match_key(x) == k {
        assert(with_key(s, k) + seq![x] =~= with_key(s, k).push(x));
    } else {
        assert(with_key(s, k) + Seq::<DriveFileView>::empty() =~= with_key(s, k));
    }
}

proof fn lemma_with_key_none(s: Seq<DriveFileView>, k: (Seq<char>, Seq<char>))
    requires
        forall|j: int| 0 <= j < s.len() ==> match_key(#[trigger] s[j]) != k,
    ensures
        with_key(s, k) == Seq::<DriveFileView>::empty(),
{
    if with_key(s, k).len() > 0 {
        let e = with_key(s, k)[0];
        assert(with_key(s, k).contains(e));
        s.lemma_filter_contains_rev(has_key(k), e);
        s.lemma_filter_pred(has_key(k), 0);
        let j = choose|j: int| 0 <= j < s.len() && s[j] == e;
        assert(match_key(s[j]) != k);
    }
    assert(with_key(s, k) =~= Seq::<DriveFileView>::empty());
}

proof fn lemma_with_key_insert(s: Seq<DriveFileView>, pos: int, x: DriveFileView, k: (Seq<char>, Seq<char>))
    requires
        0 <= pos <= s.len(),
        forall|j: int| pos <= j < s.len() ==> match_key(#[trigger] s[j]) != match_key(x),
    ensures
        with_key(s.insert(pos, x), k) == if match_key(x) == k { with_key(s, k).push(x) } else { with_key(s, k) },
{
    let pre = s.subrange(0, pos);
    let post = s.subrange(pos, s.len() as int);
    assert(s =~= pre + post);
    assert(s.insert(pos, x) =~= (pre + seq![x]) + post);
    Seq::filter_distributes_over_add(pre + seq![x], post, has_key(k));
    Seq::filter_distributes_over_add(pre, seq![x], has_key(k));
    Seq::filter_distributes_over_add(pre, post, has_key(k));
    lemma_with_key_single(x, k);
    if match_key(x) == k {
        assert forall|j: int| 0 <= j < post.len() implies match_key(#[trigger] post[j]) != k by {
            assert(post[j] == s[pos + j]);
        }
        lemma_with_key_none(post, k);
        assert(with_key(s, k) =~= with_key(pre, k));
        assert(with_key(pre, k) + seq![x] + Seq::<DriveFileView>::empty() =~= with_key(s, k).push(x));
    } else {
        assert(with_key(pre, k) + Seq::<DriveFileView>::empty() =~= with_key(pre, k));
    }
}

proof fn lemma_text_lt_trans(a: Seq<char>, b: Seq<char>, c: Seq<char>)
    requires
        text_lt(a, b),
        text_lt(b, c),
    ensures
        text_lt(a, c),
    decreases a.len(),
{
    if a.len() > 0 && a[0] == b[0] && b[0] == c[0] {
        lemma_text_lt_trans(a.drop_first(), b.drop_first(), c.drop_first());
    }
}

proof fn lemma_text_lt_irreflexive(a: Seq<char>)
    ensures
        !text_lt(a, a),
    decreases a.len(),
{
    if a.len() > 0 {
        lemma_text_lt_irreflexive(a.drop_first());
    }
}

proof fn lemma_key_lt_trans(a: (Seq<char>, Seq<char>), b: (Seq<char>, Seq<char>), c: (Seq<char>, Seq<char>))
    requires
        key_lt(a, b),
        key_lt(b, c),
    ensures
        key_lt(a, c),
{
    if text_lt(a.0, b.0) && text_lt(b.0, c.0) {
        lemma_text_lt_trans(a.0, b.0, c.0);
    } else if !text_lt(a.0, b.0) && !text_lt(b.0, c.0) {
        lemma_text_lt_trans(a.1, b.1, c.1);
    }
}

/// Whether `a` comes before `b` in `text_lt` order.
fn text_less(a: &Vec<char>, b: &Vec<char>) -> (r: bool)
    ensures
        r == text_lt(a@, b@),
{
    let mut i: usize = 0;
    assert(a@.subrange(0, a@.len() as int) =~= a@);
    assert(b@.subrange(0, b@.len() as int) =~= b@);
    while i < a.len() && i < b.len() && a[i] == b[i]
        invariant
            i <= a@.len(),
            i <= b@.len(),
            text_lt(a@, b@) == text_lt(a@.subrange(i as int, a@.len() as int), b@.subrange(i as int, b@.len() as int)),
        decreases a@.len() - i,
    {
        let ghost sa = a@.subrange(i as int, a@.len() as int);
        let ghost sb = b@.subrange(i as int, b@.len() as int);
        assert(sa.drop_first() =~= a@.subrange(i + 1, a@.len() as int));
        assert(sb.drop_first() =~= b@.subrange(i + 1, b@.len() as int));
        i = i + 1;
    }
    let ghost sa = a@.subrange(i as int, a@.len() as int);
    let ghost sb = b@.subrange(i as int, b@.len() as int);
    if i == a.len() {
        i < b.len()
    } else if i == b.len() {
        false
    } else {
        assert(sa[0] == a@[i as int] && sb[0] == b@[i as int]);
        (a[i] as u32) < (b[i] as u32)
    }
}

fn same_chars(a: &Vec<char>, b: &Vec<char>) -> (r: bool)
    ensures
        r == (a@ == b@),
{
    if a.len() != b.len() {
        return false;
    }
    let mut i: usize = 0;
    while i < a.len()
        invariant
            a@.len() == b@.len(),
            i <= a@.len(),
            forall|k: int| 0 <= k < i ==> a@[k] == b@[k],
        decreases a@.len() - i,
    {
        if a[i] != b[i] {
            return false;
        }
        i = i + 1;
    }
    assert(a@ =~= b@);
    true
}

/// The sort key of a file, as characters.
struct SortKey {
    name: Vec<char>,
    id: Vec<char>,
}

spec fn key_of(k: SortKey) -> (Seq<char>, Seq<char>) {
    (k.name@, k.id@)
}

fn sort_key(f: &DriveFile) -> (k: SortKey)
    ensures
        key_of(k) == match_key(f@),
{
    let lowered = to_lowercase(f.name.as_str());
    SortKey { name: chars_of(lowered.as_str()), id: chars_of(f.id.as_str()) }
}

fn key_less(a: &SortKey, b: &SortKey) -> (r: bool)
    ensures
        r == key_lt(key_of(*a), key_of(*b)),
{
    text_less(&a.name, &b.name) || (same_chars(&a.name, &b.name) && text_less(&a.id, &b.id))
}

/// The matches in the order of their lower-cased names, then their ids; those
/// with equal keys in the order given.
pub fn sort_matches(matches: &Vec<DriveFile>) -> (sorted: Vec<DriveFile>)
    ensures
        file_views(sorted@).to_multiset() == file_views(matches@).to_multiset(),
        sorted_by_key(file_views(sorted@)),
        forall|k: (Seq<char>, Seq<char>)| #[trigger] with_key(file_views(sorted@), k) == with_key(file_views(matches@), k),
{
    let mut sorted: Vec<DriveFile> = Vec::new();
    let mut keys: Vec<SortKey> = Vec::new();
    let mut i: usize = 0;
    assert(file_views(sorted@) =~= Seq::<DriveFileView>::empty());
    assert(file_views(matches@.subrange(0, 0)) =~= Seq::<DriveFileView>::empty());
    assert(file_views(sorted@) == file_views(matches@.subrange(0, 0)));
    while i < matches.len()
        invariant
            i <= matches@.len(),
            keys@.len() == sorted@.len(),
            forall|k: int| 0 <= k < keys@.len() ==> key_of(#[trigger] keys@[k]) == match_key(sorted@[k]@),
            file_views(sorted@).to_multiset() == file_views(matches@.subrange(0, i as int)).to_multiset(),
            forall|a: int, b: int| 0 <= a < b < keys@.len() ==> !key_lt(key_of(keys@[b]), key_of(keys@[a])),
            forall|kk: (Seq<char>, Seq<char>)| #[trigger] with_key(file_views(sorted@), kk)
                == with_key(file_views(matches@.subrange(0, i as int)), kk),
        decreases matches@.len() - i,
    {
        let f = matches[i].duplicate();
        let k = sort_key(&f);
        let mut pos: usize = 0;
        while pos < keys.len() && !key_less(&k, &keys[pos])
            invariant
                pos <= keys@.len(),
                forall|j: int| 0 <= j < pos ==> !key_lt(key_of(k), key_of(#[trigger] keys@[j])),
            decreases keys@.len() - pos,
        {
            pos = pos + 1;
        }
        let ghost old_keys = keys@;
        let ghost old_sorted = sorted@;
        let ghost kx = key_of(k);
        proof {
            if pos < old_keys.len() {
                assert(key_lt(kx, key_of(old_keys[pos as int])));
            }
            assert(forall|j: int| 0 <= j < pos ==> !key_lt(kx, key_of(#[trigger] old_keys[j])));
        }
        let ghost fx = f@;
        keys.insert(pos, k);
        sorted.insert(pos, f);
        proof {
            assert forall|k2: int| 0 <= k2 < keys@.len() implies key_of(#[trigger] keys@[k2]) == match_key(sorted@[k2]@) by {
                if k2 < pos {
                    assert(keys@[k2] == old_keys[k2] && sorted@[k2] == old_sorted[k2]);
                } else if k2 > pos {
                    assert(keys@[k2] == old_keys[k2 - 1] && sorted@[k2] == old_sorted[k2 - 1]);
                }
            }
            assert forall|a: int, b: int| 0 <= a < b < keys@.len() implies !key_lt(key_of(keys@[b]), key_of(keys@[a])) by {
                assert(key_of(keys@[pos as int]) == kx);
                if b < pos {
                    assert(keys@[a] == old_keys[a] && keys@[b] == old_keys[b]);
                } else if b == pos {
                    assert(keys@[a] == old_keys[a]);
                    assert(!key_lt(kx, key_of(old_keys[a])));
                } else if a == pos {
                    assert(keys@[b] == old_keys[b - 1]);
                    if b - 1 == pos {
                        lemma_text_lt_irreflexive(key_of(old_keys[pos as int]).0);
                        lemma_text_lt_irreflexive(key_of(old_keys[pos as int]).1);
                    }
                    assert(!key_lt(key_of(old_keys[b - 1]), key_of(old_keys[pos as int])));
                    if key_lt(key_of(old_keys[b - 1]), kx) {
                        lemma_key_lt_trans(key_of(old_keys[b - 1]), kx, key_of(old_keys[pos as int]));
                    }
                } else if a < pos {
                    assert(keys@[a] == old_keys[a] && keys@[b] == old_keys[b - 1]);
                } else {
                    assert(keys@[a] == old_keys[a - 1] && keys@[b] == old_keys[b - 1]);
                }
            }
            assert(file_views(sorted@) =~= file_views(old_sorted).insert(pos as int, fx));
            assert(matches@.subrange(0, i + 1) =~= matches@.subrange(0, i as int).push(matches@[i as int]));
            assert(file_views(matches@.subrange(0, i + 1)) =~= file_views(matches@.subrange(0, i as int)).push(fx));
            vstd::seq_lib::to_multiset_build(file_views(matches@.subrange(0, i as int)), fx);
            let ov = file_views(old_sorted);
            assert(fx == matches@[i as int]@);
            assert forall|j: int| pos <= j < ov.len() implies match_key(#[trigger] ov[j]) != match_key(fx) by {
                assert(key_of(old_keys[j]) == match_key(ov[j]));
                if match_key(ov[j]) == kx {
                    if j == pos {
                        lemma_text_lt_irreflexive(kx.0);
                        lemma_text_lt_irreflexive(kx.1);
                    } else {
                        assert(!key_lt(key_of(old_keys[j]), key_of(old_keys[pos as int])));
                    }
                }
            }
            assert forall|kk: (Seq<char>, Seq<char>)| #[trigger] with_key(file_views(sorted@), kk)
                == with_key(file_views(matches@.subrange(0, i + 1)), kk) by {
                lemma_with_key_insert(ov, pos as int, fx, kk);
                lemma_with_key_push(file_views(matches@.subrange(0, i as int)), fx, kk);
            }
        }
        i = i + 1;
    }
    proof {
        assert(matches@.subrange(0, matches@.len() as int) =~= matches@);
        assert forall|a: int, b: int| 0 <= a < b < file_views(sorted@).len() implies !key_lt(
            match_key(file_views(sorted@)[b]),
            match_key(file_views(sorted@)[a]),
        ) by {
            assert(key_of(keys@[a]) == match_key(sorted@[a]@));
            assert(key_of(keys@[b]) == match_key(sorted@[b]@));
        }
    }
    sorted
}

} // verus!
