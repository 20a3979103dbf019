//! Content loading support: display-path computation and the fan-in stage
//! that restores candidate order after parallel reads.
//!
//! The file reads themselves are not done here; the caller reads each
//! candidate independently (in any order, across any number of workers) and
//! hands back one indexed result per candidate.  The fan-in stage puts the
//! contents back into candidate order, so the report order never depends on
//! worker completion order.

use vstd::prelude::*;

use crate::report::FileRecord;
use crate::scanner::rel_of;
use crate::scanner::under_root;

verus! {

/// Failure of display-path computation: a candidate path does not lie under
/// the scan root even though root-relative display was requested.
#[derive(Debug, PartialEq, Eq, Structural, Clone, Copy)]
pub enum PathError {
    NotUnderRoot,
}

/// One worker's result: the candidate's position in the scan order and the
/// content read for it (`None` where the read failed).
pub struct LoadResult {
    pub index: usize,
    pub content: Option<Vec<u8>>,
}

/// The display path written to the report for a candidate: the path itself in
/// full-path mode, its part below the root otherwise, and nothing where the
/// candidate does not lie under the root.
pub open spec fn display_of(path: Seq<u8>, use_full_path: bool, root: Seq<u8>) -> Option<Seq<u8>> {
    if use_full_path {
        Some(path)
    } else if under_root(path, root) {
        Some(rel_of(path, root))
    } else {
        None
    }
}

/// Computes a candidate's display path; fails iff root-relative display is
/// requested and the candidate is not under the root.
pub fn display_path(path: &Vec<u8>, use_full_path: bool, root: &Vec<u8>) -> (r: Result<
    Vec<u8>,
    PathError,
>)
    ensures
        match display_of(path@, use_full_path, root@) {
            Some(d) => r is Ok && r.unwrap()@ == d,
            None => r == Result::<Vec<u8>, PathError>::Err(PathError::NotUnderRoot),
        },
{
    if use_full_path {
        let out = crate::scanner::copy_range(path, 0, path.len());
        proof {
            assert(out@ =~= path@);
        }
        Ok(out)
    } else {
        let prefix = crate::scanner::make_root_prefix(root);
        if crate::scanner::is_prefix(path, &prefix) {
            let out = crate::scanner::copy_range(path, prefix.len(), path.len());
            proof {
                assert(out@ =~= rel_of(path@, root@));
            }
            Ok(out)
        } else {
            Err(PathError::NotUnderRoot)
        }
    }
}

/// Whether some result carries scan position `j`.
pub open spec fn has_index(results: Seq<LoadResult>, j: int) -> bool {
    exists|i: int| 0 <= i < results.len() && (#[trigger] results[i]).index == j
}

/// Whether the results carry an entry for every scan position `0..n`.
pub open spec fn covers(results: Seq<LoadResult>, n: int) -> bool {
    forall|j: int| 0 <= j < n ==> has_index(results, j)
}

/// The content that the results associate with scan position `j`: the content
/// of the first result carrying that index.
pub open spec fn value_at(results: Seq<LoadResult>, j: int) -> Option<Seq<u8>>
    decreases results.len(),
{
    if results.len() == 0 {
        None
    } else if results.first().index == j {
        results.first().content.deep_view()
    } else {
        value_at(results.drop_first(), j)
    }
}

/// `value_at` is the content of the first result with the given index.
pub proof fn lemma_value_at_first(results: Seq<LoadResult>, i: int, j: int)
    requires
        0 <= i < results.len(),
        results[i].index == j,
        forall|t: int| 0 <= t < i ==> (#[trigger] results[t]).index != j,
    ensures
        value_at(results, j) == results[i].content.deep_view(),
    decreases results.len(),
{
    if i > 0 {
        lemma_value_at_first(results.drop_first(), i - 1, j);
    }
}

/// Restores scan order after the parallel fan-out: returns the contents in
/// index order.  The caller must hand back a result for every position.
pub fn reorder_by_index(results: &Vec<LoadResult>, n: usize) -> (out: Vec<Option<Vec<u8>>>)
    requires
        covers(results@, n as int),
    ensures
        out@.len() == n,
        forall|j: int| 0 <= j < n ==> (#[trigger] out@[j]).deep_view() == value_at(results@, j),
{
    let m = results.len();
    let mut out: Vec<Option<Vec<u8>>> = Vec::new();
    let mut j: usize = 0;
    while j < n
        invariant
            covers(results@, n as int),
            m == results@.len(),
            j <= n,
            out@.len() == j,
            forall|t: int| 0 <= t < j ==> (#[trigger] out@[t]).deep_view() == value_at(results@, t),
        decreases n - j,
    {
        let mut i: usize = 0;
        let mut found = false;
        while i < m && !found
            invariant
                m == results@.len(),
                i <= m,
                !found ==> forall|t: int| 0 <= t < i ==> (#[trigger] results@[t]).index != j,
                found ==> i < m && results@[i as int].index == j && (forall|t: int|
                    0 <= t < i ==> (#[trigger] results@[t]).index != j),
            decreases m - i + (if found { 0int } else { 1int }),
        {
            if results[i].index == j {
                found = true;
            } else {
                i += 1;
            }
        }
        proof {
            assert(has_index(results@, j as int));
            assert(found);
            lemma_value_at_first(results@, i as int, j as int);
        }
        match &results[i].content {
            Some(c) => {
                let copy = crate::scanner::copy_range(c, 0, c.len());
                proof {
                    assert(copy@ =~= c@);
                    assert(copy.deep_view() =~= c.deep_view());
                }
                out.push(Some(copy));
            },
            None => {
                out.push(None);
            },
        }
        j += 1;
    }
    out
}

/// Pairs each candidate path with its content into one record per candidate,
/// in scan order.  Fails iff root-relative display is requested and some
/// candidate does not lie under the root.
pub fn build_records(
    paths: &Vec<Vec<u8>>,
    contents: &Vec<Option<Vec<u8>>>,
    use_full_path: bool,
    root: &Vec<u8>,
) -> (r: Result<Vec<FileRecord>, PathError>)
    requires
        contents@.len() == paths@.len(),
    ensures
        (r is Ok) <==> (forall|k: int|
            0 <= k < paths@.len() ==> display_of(
                (#[trigger] paths@[k])@,
                use_full_path,
                root@,
            ) is Some),
        r is Ok ==> {
            let rs = r.unwrap()@;
            &&& rs.len() == paths@.len()
            &&& forall|k: int|
                0 <= k < rs.len() ==> (#[trigger] rs[k]).display_path@ == display_of(
                    paths@[k]@,
                    use_full_path,
                    root@,
                ).unwrap() && rs[k].content.deep_view() == contents@[k].deep_view()
        },
        r is Err ==> r == Result::<Vec<FileRecord>, PathError>::Err(PathError::NotUnderRoot),
{
    let n = paths.len();
    let mut out: Vec<FileRecord> = Vec::new();
    let mut k: usize = 0;
    while k < n
        invariant
            n == paths@.len() == contents@.len(),
            k <= n,
            out@.len() == k,
            forall|t: int|
                0 <= t < k ==> display_of((#[trigger] paths@[t])@, use_full_path, root@) is Some,
            forall|t: int|
                0 <= t < k ==> (#[trigger] out@[t]).display_path@ == display_of(
                    paths@[t]@,
                    use_full_path,
                    root@,
                ).unwrap() && out@[t].content.deep_view() == contents@[t].deep_view(),
        decreases n - k,
    {
        let disp = match display_path(&paths[k], use_full_path, root) {
            Ok(d) => d,
            Err(e) => {
                assert(display_of(paths@[k as int]@, use_full_path, root@) is None);
                return Err(PathError::NotUnderRoot);
            },
        };
        let content = match &contents[k] {
            Some(c) => {
                let copy = crate::scanner::copy_range(c, 0, c.len());
                proof {
                    assert(copy@ =~= c@);
                    assert(copy.deep_view() =~= c.deep_view());
                }
                Some(copy)
            },
            None => None,
        };
        out.push(FileRecord { display_path: disp, content });
        k += 1;
    }
    Ok(out)
}

/// The fan-in output is determined by what each index carries, never by the
/// order in which workers delivered: two result lists that agree on the
/// content of every index (each covering all positions) reorder to the same
/// contents.
pub proof fn lemma_order_invariance(r1: Seq<LoadResult>, r2: Seq<LoadResult>, n: int)
    requires
        covers(r1, n),
        covers(r2, n),
        forall|i1: int, i2: int|
            0 <= i1 < r1.len() && 0 <= i2 < r2.len() && (#[trigger] r1[i1]).index == (
            #[trigger] r2[i2]).index ==> r1[i1].content.deep_view() == r2[i2].content.deep_view(),
    ensures
        forall|j: int| 0 <= j < n ==> value_at(r1, j) == value_at(r2, j),
{
    assert forall|j: int| 0 <= j < n implies value_at(r1, j) == value_at(r2, j) by {
        let i1 = choose|i: int| 0 <= i < r1.len() && (#[trigger] r1[i]).index == j;
        let i2 = choose|i: int| 0 <= i < r2.len() && (#[trigger] r2[i]).index == j;
        lemma_value_at_some(r1, j);
        lemma_value_at_some(r2, j);
    }
}

/// Where some result carries index `j`, `value_at` equals the content of one
/// result carrying `j`.
proof fn lemma_value_at_some(results: Seq<LoadResult>, j: int)
    requires
        has_index(results, j),
    ensures
        exists|i: int|
            0 <= i < results.len() && (#[trigger] results[i]).index == j && value_at(results, j)
                == results[i].content.deep_view(),
    decreases results.len(),
{
    if results.first().index == j {
        assert(results[0].index == j && value_at(results, j) == results[0].content.deep_view());
    } else {
        let w = choose|i: int| 0 <= i < results.len() && (#[trigger] results[i]).index == j;
        assert(results.drop_first()[w - 1].index == j);
        lemma_value_at_some(results.drop_first(), j);
        let i = choose|i: int|
            0 <= i < results.drop_first().len() && (#[trigger] results.drop_first()[i]).index == j
                && value_at(results.drop_first(), j) == results.drop_first()[
            i].content.deep_view();
        assert(results[i + 1].index == j && value_at(results, j) == results[i
            + 1].content.deep_view());
    }
}

} // verus!
