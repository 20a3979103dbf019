//! Tree scanning: turning an ordered directory listing into the ordered
//! sequence of candidate file paths.
//!
//! The filesystem walk itself is not done here; the caller hands in the
//! entries it encountered, in traversal order, each as a path plus a
//! directory flag.  An entry is kept iff it is a file lying under the scan
//! root, none of its ancestor folders below the root has a name in the
//! skip-folder set, and its file name qualifies by extension.

use vstd::prelude::*;

use crate::config::ScanConfig;
use crate::filter::SLASH;
use crate::filter::qualifies;
use crate::filter::set_has;
use crate::filter::set_contains;
use crate::filter::should_collect;

verus! {

/// One entry of the directory walk: the path as walked and whether the entry
/// is a directory.
pub struct FsEntry {
    pub path: Vec<u8>,
    pub is_dir: bool,
}

/// Whether `pre` is a prefix of `p`.
pub open spec fn starts_with(p: Seq<u8>, pre: Seq<u8>) -> bool {
    pre.len() <= p.len() && p.take(pre.len() as int) == pre
}

/// The root path normalized to end in a separator; paths below the root are
/// exactly the proper extensions of this prefix.
pub open spec fn root_prefix(root: Seq<u8>) -> Seq<u8> {
    if root.len() > 0 && root[root.len() - 1] == SLASH {
        root
    } else {
        root.push(SLASH)
    }
}

/// Whether `p` lies strictly below the root directory.
pub open spec fn under_root(p: Seq<u8>, root: Seq<u8>) -> bool {
    starts_with(p, root_prefix(root))
}

/// The part of `p` below the root.
pub open spec fn rel_of(p: Seq<u8>, root: Seq<u8>) -> Seq<u8> {
    p.skip(root_prefix(root).len() as int)
}

/// No separator occurs in `p` at positions `[a, b)`.
pub open spec fn no_slash_in(p: Seq<u8>, a: int, b: int) -> bool {
    forall|j: int| a <= j < b ==> p[j] != SLASH
}

/// `[i, j)` delimits a directory-name segment of `p`: it is flanked by the
/// path's start or a separator on the left, by a separator on the right, and
/// holds no separator itself.
pub open spec fn dir_seg_at(p: Seq<u8>, i: int, j: int) -> bool {
    &&& 0 <= i <= j < p.len()
    &&& (i == 0 || p[i - 1] == SLASH)
    &&& p[j] == SLASH
    &&& no_slash_in(p, i, j)
}

/// `[i, j)` delimits any segment of `p`, the trailing file name included.
pub open spec fn seg_at(p: Seq<u8>, i: int, j: int) -> bool {
    &&& 0 <= i <= j <= p.len()
    &&& (i == 0 || p[i - 1] == SLASH)
    &&& (j == p.len() || p[j] == SLASH)
    &&& no_slash_in(p, i, j)
}

/// No ancestor-folder name of `p` (every segment but the last) is in `skips`.
pub open spec fn ancestors_clear(p: Seq<u8>, skips: Seq<Seq<u8>>) -> bool {
    forall|i: int, j: int| dir_seg_at(p, i, j) ==> !set_has(skips, p.subrange(i, j))
}

/// Index where the file name (the part after the last separator) starts.
pub open spec fn name_start(p: Seq<u8>) -> int
    decreases p.len(),
{
    if p.len() == 0 {
        0
    } else if p[p.len() - 1] == SLASH {
        p.len() as int
    } else {
        name_start(p.drop_last())
    }
}

/// The file name of `p`: everything after the last separator.
pub open spec fn file_name(p: Seq<u8>) -> Seq<u8> {
    p.subrange(name_start(p), p.len() as int)
}

pub proof fn lemma_name_start_props(p: Seq<u8>)
    ensures
        0 <= name_start(p) <= p.len(),
        no_slash_in(p, name_start(p), p.len() as int),
        name_start(p) == 0 || p[name_start(p) - 1] == SLASH,
    decreases p.len(),
{
    if p.len() > 0 && p[p.len() - 1] != SLASH {
        lemma_name_start_props(p.drop_last());
        assert(forall|j: int|
            name_start(p) <= j < p.len() - 1 ==> p.drop_last()[j] == p[j]);
    }
}

/// The file name is the final segment, and the only candidate for it.
pub proof fn lemma_final_segment_is_file_name(p: Seq<u8>, i: int)
    requires
        seg_at(p, i, p.len() as int),
    ensures
        i == name_start(p),
        p.subrange(i, p.len() as int) == file_name(p),
{
    lemma_name_start_props(p);
    let s = name_start(p);
    if i < s {
        assert(p[s - 1] == SLASH);
    } else if i > s {
        assert(p[i - 1] == SLASH);
    }
}

/// Whether one walk entry is kept as a candidate file.
pub open spec fn keeps(
    e: FsEntry,
    root: Seq<u8>,
    valid: Seq<Seq<u8>>,
    skip: Seq<Seq<u8>>,
    folders: Seq<Seq<u8>>,
) -> bool {
    &&& !e.is_dir
    &&& under_root(e.path@, root)
    &&& ancestors_clear(rel_of(e.path@, root), folders)
    &&& qualifies(file_name(rel_of(e.path@, root)), valid, skip)
}

/// The candidate paths produced by a scan of `entries`, in traversal order.
pub open spec fn scan_spec(
    entries: Seq<FsEntry>,
    root: Seq<u8>,
    valid: Seq<Seq<u8>>,
    skip: Seq<Seq<u8>>,
    folders: Seq<Seq<u8>>,
) -> Seq<Seq<u8>>
    decreases entries.len(),
{
    if entries.len() == 0 {
        Seq::empty()
    } else {
        let rest = scan_spec(entries.drop_last(), root, valid, skip, folders);
        if keeps(entries.last(), root, valid, skip, folders) {
            rest.push(entries.last().path@)
        } else {
            rest
        }
    }
}

/// Every candidate path comes from a kept entry of the walk.
pub proof fn lemma_scan_spec_membership(
    entries: Seq<FsEntry>,
    root: Seq<u8>,
    valid: Seq<Seq<u8>>,
    skip: Seq<Seq<u8>>,
    folders: Seq<Seq<u8>>,
    p: Seq<u8>,
)
    requires
        scan_spec(entries, root, valid, skip, folders).contains(p),
    ensures
        exists|k: int|
            0 <= k < entries.len() && keeps(#[trigger] entries[k], root, valid, skip, folders)
                && entries[k].path@ == p,
    decreases entries.len(),
{
    let found = scan_spec(entries, root, valid, skip, folders);
    let rest = scan_spec(entries.drop_last(), root, valid, skip, folders);
    if keeps(entries.last(), root, valid, skip, folders) && entries.last().path@ == p {
        assert(entries[entries.len() - 1].path@ == p);
    } else {
        assert(rest.contains(p)) by {
            let t = choose|t: int| 0 <= t < found.len() && found[t] == p;
            assert(rest[t] == p);
        }
        lemma_scan_spec_membership(entries.drop_last(), root, valid, skip, folders, p);
        let k = choose|k: int|
            0 <= k < entries.drop_last().len() && keeps(
                #[trigger] entries.drop_last()[k],
                root,
                valid,
                skip,
                folders,
            ) && entries.drop_last()[k].path@ == p;
        assert(entries[k] == entries.drop_last()[k]);
    }
}

/// A skipped folder name never appears as a segment of a candidate path below
/// the root: not as an ancestor folder, and — as long as no skip-folder name
/// itself carries a qualifying extension — not as a file name either.
pub proof fn lemma_skipped_folder_absent(
    entries: Seq<FsEntry>,
    root: Seq<u8>,
    valid: Seq<Seq<u8>>,
    skip: Seq<Seq<u8>>,
    folders: Seq<Seq<u8>>,
    p: Seq<u8>,
    i: int,
    j: int,
)
    requires
        forall|f: Seq<u8>| set_has(folders, f) ==> !qualifies(f, valid, skip),
        scan_spec(entries, root, valid, skip, folders).contains(p),
        seg_at(rel_of(p, root), i, j),
    ensures
        !set_has(folders, rel_of(p, root).subrange(i, j)),
{
    lemma_scan_spec_membership(entries, root, valid, skip, folders, p);
    let k = choose|k: int|
        0 <= k < entries.len() && keeps(#[trigger] entries[k], root, valid, skip, folders)
            && entries[k].path@ == p;
    let rel = rel_of(p, root);
    if j < rel.len() {
        assert(dir_seg_at(rel, i, j));
    } else {
        lemma_final_segment_is_file_name(rel, i);
    }
}

/// Denying an extension that the allow set does not contain has no effect on
/// the scan: the candidate list is unchanged for every walk.
pub proof fn lemma_skip_absent_scan_unchanged(
    entries: Seq<FsEntry>,
    root: Seq<u8>,
    valid: Seq<Seq<u8>>,
    skip: Seq<Seq<u8>>,
    folders: Seq<Seq<u8>>,
    e: Seq<u8>,
)
    requires
        !set_has(valid, e),
    ensures
        scan_spec(entries, root, valid, skip.push(e), folders) == scan_spec(
            entries,
            root,
            valid,
            skip,
            folders,
        ),
    decreases entries.len(),
{
    if entries.len() > 0 {
        lemma_skip_absent_scan_unchanged(entries.drop_last(), root, valid, skip, folders, e);
        crate::filter::lemma_skip_absent_is_noop(
            file_name(rel_of(entries.last().path@, root)),
            valid,
            skip,
            e,
        );
        assert(keeps(entries.last(), root, valid, skip.push(e), folders) == keeps(
            entries.last(),
            root,
            valid,
            skip,
            folders,
        ));
    }
}

/// A scan yields no candidate iff no walked entry is kept.
pub proof fn lemma_empty_scan(
    entries: Seq<FsEntry>,
    root: Seq<u8>,
    valid: Seq<Seq<u8>>,
    skip: Seq<Seq<u8>>,
    folders: Seq<Seq<u8>>,
)
    ensures
        (scan_spec(entries, root, valid, skip, folders).len() == 0) <==> (forall|k: int|
            0 <= k < entries.len() ==> !keeps(#[trigger] entries[k], root, valid, skip, folders)),
    decreases entries.len(),
{
    if entries.len() > 0 {
        lemma_empty_scan(entries.drop_last(), root, valid, skip, folders);
        assert(forall|k: int|
            0 <= k < entries.drop_last().len() ==> entries.drop_last()[k] == entries[k]);
        if scan_spec(entries, root, valid, skip, folders).len() == 0 {
            assert(!keeps(entries[entries.len() - 1], root, valid, skip, folders));
        } else {
            if !keeps(entries.last(), root, valid, skip, folders) {
                assert(exists|k: int|
                    0 <= k < entries.drop_last().len() && keeps(
                        #[trigger] entries.drop_last()[k],
                        root,
                        valid,
                        skip,
                        folders,
                    ));
                let k = choose|k: int|
                    0 <= k < entries.drop_last().len() && keeps(
                        #[trigger] entries.drop_last()[k],
                        root,
                        valid,
                        skip,
                        folders,
                    );
                assert(keeps(entries[k], root, valid, skip, folders));
            }
        }
    }
}

/// Copies `p[a..b]` out into a fresh byte string.
pub fn copy_range(p: &Vec<u8>, a: usize, b: usize) -> (r: Vec<u8>)
    requires
        a <= b <= p@.len(),
    ensures
        r@ == p@.subrange(a as int, b as int),
{
    let mut out: Vec<u8> = Vec::new();
    let mut k: usize = a;
    while k < b
        invariant
            a <= k <= b <= p@.len(),
            out@.len() == k - a,
            forall|t: int| 0 <= t < out@.len() ==> out@[t] == p@[a + t],
        decreases b - k,
    {
        out.push(p[k]);
        k += 1;
    }
    proof {
        assert(out@ =~= p@.subrange(a as int, b as int));
    }
    out
}

/// The root path with a trailing separator ensured.
pub fn make_root_prefix(root: &Vec<u8>) -> (r: Vec<u8>)
    ensures
        r@ == root_prefix(root@),
{
    let mut out = copy_range(root, 0, root.len());
    proof {
        assert(out@ =~= root@);
    }
    if root.len() == 0 || root[root.len() - 1] != SLASH {
        out.push(SLASH);
        proof {
            assert(out@ =~= root_prefix(root@));
        }
    }
    out
}

/// Whether `pre` is a prefix of `p`.
pub fn is_prefix(p: &Vec<u8>, pre: &Vec<u8>) -> (r: bool)
    ensures
        r == starts_with(p@, pre@),
{
    let m = pre.len();
    if m > p.len() {
        return false;
    }
    let mut k: usize = 0;
    while k < m
        invariant
            m == pre@.len() <= p@.len(),
            k <= m,
            forall|t: int| 0 <= t < k ==> p@[t] == pre@[t],
        decreases m - k,
    {
        if p[k] != pre[k] {
            assert(p@.take(m as int)[k as int] != pre@[k as int]);
            return false;
        }
        k += 1;
    }
    proof {
        assert(p@.take(m as int) =~= pre@);
    }
    true
}

/// The file name (everything after the last separator) of `p`.
pub fn file_name_of(p: &Vec<u8>) -> (r: Vec<u8>)
    ensures
        r@ == file_name(p@),
{
    let n = p.len();
    let mut i: usize = n;
    proof {
        assert(p@.take(n as int) =~= p@);
        lemma_name_start_props(p@);
    }
    while i > 0
        invariant
            n == p@.len(),
            i <= n,
            name_start(p@) == name_start(p@.take(i as int)),
            0 <= name_start(p@) <= n,
        decreases i,
    {
        proof {
            assert(p@.take(i as int).drop_last() =~= p@.take(i - 1));
        }
        if p[i - 1] == SLASH {
            assert(name_start(p@) == i);
            return copy_range(p, i, n);
        }
        i -= 1;
    }
    assert(name_start(p@) == 0);
    copy_range(p, 0, n)
}

/// Whether no ancestor-folder name of `rel` is in the skip-folder set.
pub fn dirs_clear(rel: &Vec<u8>, skip_folders: &Vec<Vec<u8>>) -> (r: bool)
    ensures
        r == ancestors_clear(rel@, skip_folders.deep_view()),
{
    let n = rel.len();
    let mut start: usize = 0;
    let mut k: usize = 0;
    while k < n
        invariant
            n == rel@.len(),
            start <= k <= n,
            start == 0 || rel@[start - 1] == SLASH,
            no_slash_in(rel@, start as int, k as int),
            forall|i: int, j: int|
                dir_seg_at(rel@, i, j) && j < k ==> !set_has(
                    skip_folders.deep_view(),
                    rel@.subrange(i, j),
                ),
        decreases n - k,
    {
        if rel[k] == SLASH {
            let seg = copy_range(rel, start, k);
            if set_contains(skip_folders, &seg) {
                assert(dir_seg_at(rel@, start as int, k as int));
                return false;
            }
            proof {
                assert forall|i: int, j: int|
                    dir_seg_at(rel@, i, j) && j < k + 1 implies !set_has(
                    skip_folders.deep_view(),
                    rel@.subrange(i, j),
                ) by {
                    if j == k {
                        if i < start {
                            assert(rel@[start - 1] == SLASH);
                        } else if i > start {
                            assert(rel@[i - 1] == SLASH);
                        }
                        assert(i == start);
                    }
                }
            }
            start = k + 1;
        } else {
            proof {
                assert forall|i: int, j: int|
                    dir_seg_at(rel@, i, j) && j < k + 1 implies !set_has(
                    skip_folders.deep_view(),
                    rel@.subrange(i, j),
                ) by {
                    if j == k {
                        assert(rel@[j] == SLASH);
                    }
                }
            }
        }
        k += 1;
    }
    true
}

/// Scans the walked entries and returns, in traversal order, the paths of the
/// files to be collected: the files under `root` whose ancestor folders avoid
/// the skip-folder set and whose extension qualifies.
pub fn find_files(root: &Vec<u8>, entries: &Vec<FsEntry>, config: &ScanConfig) -> (out: Vec<
    Vec<u8>,
>)
    ensures
        out.deep_view() == scan_spec(
            entries@,
            root@,
            config.valid(),
            config.skip(),
            config.folders(),
        ),
{
    let prefix = make_root_prefix(root);
    let n = entries.len();
    let mut out: Vec<Vec<u8>> = Vec::new();
    let mut i: usize = 0;
    proof {
        assert(entries@.take(0) =~= Seq::<FsEntry>::empty());
    }
    while i < n
        invariant
            n == entries@.len(),
            i <= n,
            prefix@ == root_prefix(root@),
            out.deep_view() == scan_spec(
                entries@.take(i as int),
                root@,
                config.valid(),
                config.skip(),
                config.folders(),
            ),
        decreases n - i,
    {
        proof {
            assert(entries@.take(i + 1).drop_last() =~= entries@.take(i as int));
            assert(entries@.take(i + 1).last() == entries@[i as int]);
        }
        let e = &entries[i];
        if !e.is_dir && is_prefix(&e.path, &prefix) {
            let rel = copy_range(&e.path, prefix.len(), e.path.len());
            proof {
                assert(rel@ =~= rel_of(e.path@, root@));
            }
            if dirs_clear(&rel, &config.skip_folders) {
                let name = file_name_of(&rel);
                if should_collect(config, &name) {
                    assert(keeps(
                        entries@[i as int],
                        root@,
                        config.valid(),
                        config.skip(),
                        config.folders(),
                    ));
                    let p = copy_range(&e.path, 0, e.path.len());
                    proof {
                        assert(p@ =~= e.path@);
                    }
                    out.push(p);
                    proof {
                        assert(out.deep_view() =~~= scan_spec(
                            entries@.take(i + 1),
                            root@,
                            config.valid(),
                            config.skip(),
                            config.folders(),
                        ));
                    }
                } else {
                    assert(!keeps(
                        entries@[i as int],
                        root@,
                        config.valid(),
                        config.skip(),
                        config.folders(),
                    ));
                }
            }
        }
        i += 1;
    }
    proof {
        assert(entries@.take(n as int) =~= entries@);
    }
    out
}

} // verus!
