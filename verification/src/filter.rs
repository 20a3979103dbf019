//! Path filtering: the pure predicates deciding whether a directory is
//! descended into and whether a file is collected.
//!
//! A file name's extension is the suffix starting at the last `.`, provided
//! that dot is not the first byte of the name (so dot-files such as
//! `.gitignore` have no extension).  Extensions are compared on their
//! ASCII-lowercased form, leading dot included, against the allow and deny
//! sets of the configuration.

use vstd::prelude::*;

use crate::config::ScanConfig;

verus! {

/// `46` is `.` and `47` is `/` in ASCII; named here once.
pub const DOT: u8 = 46;

/// The path separator byte.
pub const SLASH: u8 = 47;

/// Membership of a byte string in a sequence of byte strings.
pub open spec fn set_has(set: Seq<Seq<u8>>, x: Seq<u8>) -> bool {
    exists|i: int| 0 <= i < set.len() && set[i] == x
}

/// ASCII lowercasing of one byte: `A`..`Z` map to `a`..`z`, all else is kept.
pub open spec fn lower_byte(b: u8) -> u8 {
    if 65 <= b && b <= 90 {
        (b + 32) as u8
    } else {
        b
    }
}

/// ASCII lowercasing of a byte string.
pub open spec fn lower_bytes(s: Seq<u8>) -> Seq<u8> {
    s.map_values(|b: u8| lower_byte(b))
}

/// Index of the last `.` in `name`, or `-1` if there is none.
pub open spec fn last_dot(name: Seq<u8>) -> int
    decreases name.len(),
{
    if name.len() == 0 {
        -1
    } else if name[name.len() - 1] == DOT {
        name.len() - 1
    } else {
        last_dot(name.drop_last())
    }
}

/// The extension of a file name, leading dot included: the suffix starting at
/// the last `.`, unless the name has no dot or its only role is to lead a
/// dot-file (last dot at index 0).
pub open spec fn extension_of(name: Seq<u8>) -> Option<Seq<u8>> {
    if last_dot(name) >= 1 {
        Some(name.subrange(last_dot(name), name.len() as int))
    } else {
        None
    }
}

/// The collection predicate: a file name qualifies iff it has an extension
/// whose lowercased form is in the allow set and not in the deny set.
pub open spec fn qualifies(name: Seq<u8>, valid: Seq<Seq<u8>>, skip: Seq<Seq<u8>>) -> bool {
    match extension_of(name) {
        Some(e) => set_has(valid, lower_bytes(e)) && !set_has(skip, lower_bytes(e)),
        None => false,
    }
}

/// Byte-string equality.
pub fn bytes_eq(a: &Vec<u8>, b: &Vec<u8>) -> (r: bool)
    ensures
        r == (a@ == b@),
{
    if a.len() != b.len() {
        assert(a@ != b@);
        return false;
    }
    let n = a.len();
    let mut i: usize = 0;
    while i < n
        invariant
            n == a.len() == b.len(),
            i <= n,
            forall|j: int| 0 <= j < i ==> a@[j] == b@[j],
        decreases n - i,
    {
        if a[i] != b[i] {
            return false;
        }
        i += 1;
    }
    proof {
        assert(a@ =~= b@);
    }
    true
}

/// Membership test against a list of byte strings.
pub fn set_contains(set: &Vec<Vec<u8>>, x: &Vec<u8>) -> (r: bool)
    ensures
        r == set_has(set.deep_view(), x@),
{
    let n = set.len();
    let mut i: usize = 0;
    while i < n
        invariant
            n == set.len(),
            i <= n,
            forall|j: int| 0 <= j < i ==> set.deep_view()[j] != x@,
        decreases n - i,
    {
        if bytes_eq(&set[i], x) {
            assert(set.deep_view()[i as int] == x@);
            return true;
        }
        assert(set.deep_view()[i as int] == set@[i as int]@);
        i += 1;
    }
    false
}

/// ASCII lowercasing.
pub fn to_lower(s: &Vec<u8>) -> (r: Vec<u8>)
    ensures
        r@ == lower_bytes(s@),
{
    let n = s.len();
    let mut out: Vec<u8> = Vec::new();
    let mut i: usize = 0;
    while i < n
        invariant
            n == s.len(),
            i <= n,
            out@.len() == i,
            forall|j: int| 0 <= j < i ==> out@[j] == lower_byte(s@[j]),
        decreases n - i,
    {
        let b = s[i];
        if 65 <= b && b <= 90 {
            out.push(b + 32);
        } else {
            out.push(b);
        }
        i += 1;
    }
    proof {
        assert(out@ =~= lower_bytes(s@));
    }
    out
}

/// The lowercased extension of a file name, or `None` where the name has no
/// extension.
pub fn extension_lower(name: &Vec<u8>) -> (r: Option<Vec<u8>>)
    ensures
        match extension_of(name@) {
            Some(e) => r is Some && r.unwrap()@ == lower_bytes(e),
            None => r is None,
        },
{
    let n = name.len();
    let mut i: usize = n;
    proof {
        assert(name@.take(n as int) =~= name@);
    }
    while i > 0
        invariant
            n == name.len(),
            i <= n,
            last_dot(name@) == last_dot(name@.take(i as int)),
        decreases i,
    {
        proof {
            assert(name@.take(i as int).drop_last() =~= name@.take(i - 1));
        }
        if name[i - 1] == DOT {
            assert(last_dot(name@) == i - 1);
            if i - 1 >= 1 {
                let mut ext: Vec<u8> = Vec::new();
                let mut j: usize = i - 1;
                while j < n
                    invariant
                        n == name.len(),
                        i - 1 <= j <= n,
                        1 <= i - 1 < n,
                        ext@.len() == j - (i - 1),
                        forall|k: int| 0 <= k < ext@.len() ==> ext@[k] == lower_byte(
                            name@[i - 1 + k],
                        ),
                    decreases n - j,
                {
                    let b = name[j];
                    if 65 <= b && b <= 90 {
                        ext.push(b + 32);
                    } else {
                        ext.push(b);
                    }
                    j += 1;
                }
                proof {
                    let e = extension_of(name@).unwrap();
                    assert(ext@ =~= lower_bytes(e));
                }
                return Some(ext);
            } else {
                return None;
            }
        }
        i -= 1;
    }
    proof {
        assert(name@.take(0) =~= Seq::<u8>::empty());
    }
    None
}

/// Decides whether a traversal should descend into a directory entry: it
/// should iff the folder's name is not in the skip-folder set.
pub fn should_descend(config: &ScanConfig, folder_name: &Vec<u8>) -> (r: bool)
    ensures
        r == !set_has(config.folders(), folder_name@),
{
    !set_contains(&config.skip_folders, folder_name)
}

/// Decides whether a file is collected: it is iff its lowercased extension
/// (leading dot included) is in the allow set and not in the deny set.
pub fn should_collect(config: &ScanConfig, file_name: &Vec<u8>) -> (r: bool)
    ensures
        r == qualifies(file_name@, config.valid(), config.skip()),
{
    match extension_lower(file_name) {
        Some(ext) => {
            set_contains(&config.valid_extensions, &ext) && !set_contains(
                &config.skip_extensions,
                &ext,
            )
        },
        None => false,
    }
}

/// Denying an extension that the allow set does not contain changes nothing:
/// for every file name, the collection predicate with the extension added to
/// the deny set equals the predicate without it.
pub proof fn lemma_skip_absent_is_noop(
    name: Seq<u8>,
    valid: Seq<Seq<u8>>,
    skip: Seq<Seq<u8>>,
    e: Seq<u8>,
)
    requires
        !set_has(valid, e),
    ensures
        qualifies(name, valid, skip.push(e)) == qualifies(name, valid, skip),
{
    match extension_of(name) {
        Some(x) => {
            let l = lower_bytes(x);
            if l == e {
                assert(!set_has(valid, l));
            } else {
                assert(set_has(skip.push(e), l) == set_has(skip, l)) by {
                    if set_has(skip, l) {
                        let i = choose|i: int| 0 <= i < skip.len() && skip[i] == l;
                        assert(skip.push(e)[i] == l);
                    }
                    if set_has(skip.push(e), l) {
                        let i = choose|i: int| 0 <= i < skip.push(e).len() && skip.push(e)[i] == l;
                        assert(i < skip.len());
                        assert(skip[i] == l);
                    }
                }
            }
        },
        None => {},
    }
}

} // verus!
