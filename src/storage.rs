//! Filesystem capacity for a path: the mount whose mount point is the
//! longest prefix of the path is the one that holds it.

use vstd::prelude::*;
use crate::text::{chars_of, has_prefix_at};
use crate::units::{difference, usage, usage_text, BYTES_PER_GB};

verus! {

/// One mounted filesystem, with its capacity in bytes.
#[derive(Debug)]
pub struct MountEntry {
    pub mount_point: String,
    pub total_space: u64,
    pub available_space: u64,
}

/// Whether the mount point of `m` is a prefix of `path`.
pub open spec fn covers(m: MountEntry, path: Seq<char>) -> bool {
    m.mount_point@.is_prefix_of(path)
}

/// Whether entry `i` is the one chosen for `path`: it covers the path, no
/// entry that covers it has a longer mount point, and every earlier entry
/// that covers it has a shorter one (the first of equals wins).
pub open spec fn is_chosen(ms: Seq<MountEntry>, path: Seq<char>, i: int) -> bool {
    &&& 0 <= i < ms.len()
    &&& covers(ms[i], path)
    &&& forall|j: int|
        0 <= j < ms.len() && covers(#[trigger] ms[j], path) ==> ms[j].mount_point@.len()
            <= ms[i].mount_point@.len()
    &&& forall|j: int|
        0 <= j < i && covers(#[trigger] ms[j], path) ==> ms[j].mount_point@.len()
            < ms[i].mount_point@.len()
}

/// Chooses the entry that holds `path`, by longest mount-point prefix.
pub fn select_mount(mounts: &[MountEntry], path: &str) -> (r: Option<usize>)
    ensures
        match r {
            Some(i) => is_chosen(mounts@, path@, i as int),
            None => forall|j: int| 0 <= j < mounts@.len() ==> !covers(#[trigger] mounts@[j], path@),
        },
{
    let p = chars_of(path);
    let mut best: Option<usize> = None;
    let mut best_len: usize = 0;
    let mut k: usize = 0;
    while k < mounts.len()
        invariant
            k <= mounts@.len(),
            p@ == path@,
            match best {
                Some(i) => {
                    &&& i < k
                    &&& best_len == mounts@[i as int].mount_point@.len()
                    &&& covers(mounts@[i as int], path@)
                    &&& forall|j: int|
                        0 <= j < k && covers(#[trigger] mounts@[j], path@)
                            ==> mounts@[j].mount_point@.len() <= best_len
                    &&& forall|j: int|
                        0 <= j < i && covers(#[trigger] mounts@[j], path@)
                            ==> mounts@[j].mount_point@.len() < best_len
                },
                None => forall|j: int| 0 <= j < k ==> !covers(#[trigger] mounts@[j], path@),
            },
        decreases mounts@.len() - k,
    {
        let m = chars_of(mounts[k].mount_point.as_str());
        assert(p@.subrange(0, p@.len() as int) =~= p@);
        if has_prefix_at(&p, 0, p.len(), &m) {
            let better = match best {
                Some(_) => m.len() > best_len,
                None => true,
            };
            if better {
                best = Some(k);
                best_len = m.len();
            }
        }
        k = k + 1;
    }
    best
}

/// `path` in parentheses, after a space.
pub open spec fn path_suffix(path: Seq<char>) -> Seq<char> {
    " ("@ + path + ")"@
}

/// The storage field for `path` when entry `m` holds it: used (total less
/// available) and total in decimal gigabytes, then the path. Amounts are
/// rounded as for swap: the exact quotient to a tenth, a tie to the even
/// digit, which on an exact tie can differ from printing the float quotient
/// with `{:.1}`.
pub open spec fn capacity_text(m: MountEntry, path: Seq<char>) -> Seq<char> {
    usage_text(m.total_space - m.available_space, m.total_space as int, BYTES_PER_GB as nat)
        + path_suffix(path)
}

/// The storage field for `path` when no entry holds it.
pub open spec fn no_mount_text(path: Seq<char>) -> Seq<char> {
    "N/A ("@ + path + ")"@
}

/// The storage field for `path` over the mounted filesystems `ms`.
pub open spec fn storage_field(ms: Seq<MountEntry>, path: Seq<char>) -> Seq<char> {
    if exists|i: int| is_chosen(ms, path, i) {
        capacity_text(ms[choose|i: int| is_chosen(ms, path, i)], path)
    } else {
        no_mount_text(path)
    }
}

/// At most one entry is chosen for a path.
pub proof fn lemma_chosen_unique(ms: Seq<MountEntry>, path: Seq<char>, i: int, c: int)
    requires
        is_chosen(ms, path, i),
        is_chosen(ms, path, c),
    ensures
        i == c,
{
    if c < i {
        assert(covers(ms[c], path));
    } else if c > i {
        assert(covers(ms[i], path));
    }
}

pub fn get_storage(path: &str, mounts: &[MountEntry]) -> (r: String)
    ensures
        r@ == storage_field(mounts@, path@),
{
    match select_mount(mounts, path) {
        Some(i) => {
            let m = &mounts[i];
            let (neg, used) = difference(m.total_space, m.available_space);
            let mut r = usage(neg, used, m.total_space, BYTES_PER_GB);
            r.append(" (");
            r.append(path);
            r.append(")");
            proof {
                let c = choose|c: int| is_chosen(mounts@, path@, c);
                lemma_chosen_unique(mounts@, path@, i as int, c);
            }
            assert(r@ =~= capacity_text(mounts@[i as int], path@));
            r
        },
        None => {
            let mut r = String::from_str("N/A (");
            r.append(path);
            r.append(")");
            assert(r@ =~= no_mount_text(path@));
            assert(!exists|i: int| is_chosen(mounts@, path@, i)) by {
                assert forall|i: int| !is_chosen(mounts@, path@, i) by {
                    if 0 <= i < mounts@.len() {
                        assert(!covers(mounts@[i], path@));
                    }
                }
            }
            r
        },
    }
}

} // verus!
