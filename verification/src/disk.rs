//! Which disk holds the root file system.
//!
//! Mount points are compared as paths are: by their components. On Unix a
//! path's components ignore repeated separators, a trailing separator and any
//! `.` that does not begin the path, so `/`, `//` and `/./` all name the root.
use vstd::prelude::*;

verus! {

/// The byte `/`.
pub const SLASH: u8 = 0x2f;

/// The byte `.`.
pub const DOT: u8 = 0x2e;

/// The path whose bytes are `p` has the components of `/` alone: it begins
/// with `/`, and past that holds only separators and `.` components.
pub open spec fn names_root(p: Seq<u8>) -> bool {
    &&& p.len() > 0
    &&& p[0] == SLASH
    &&& forall|i: int| 0 <= i < p.len() ==> #[trigger] p[i] == SLASH || p[i] == DOT
    &&& forall|i: int| 0 < i < p.len() && #[trigger] p[i] == DOT ==> p[i - 1] == SLASH
}

/// What naming `/` means, component by component: a relative path never
/// does; a path with a normal component (a byte other than `/` and `.`, as in
/// `/boot`) or a parent component `..` never does; `/` and any run of
/// separators always do, and `/.` added to a path that names `/` leaves it
/// naming `/`.
pub proof fn lemma_root_components(p: Seq<u8>)
    ensures
        p.len() == 0 || p[0] != SLASH ==> !names_root(p),
        (exists|i: int| 0 <= i < p.len() && p[i] != SLASH && p[i] != DOT) ==> !names_root(p),
        (exists|i: int| #![trigger p[i], p[i + 1]] 0 <= i < p.len() - 1 && p[i] == DOT && p[i + 1] == DOT) ==> !names_root(p),
        p.len() > 0 && (forall|i: int| 0 <= i < p.len() ==> p[i] == SLASH) ==> names_root(p),
        names_root(p) ==> names_root(p + seq![SLASH, DOT]),
{
    if exists|i: int| #![trigger p[i], p[i + 1]] 0 <= i < p.len() - 1 && p[i] == DOT && p[i + 1] == DOT {
        let i = choose|i: int| #![trigger p[i], p[i + 1]] 0 <= i < p.len() - 1 && p[i] == DOT && p[i + 1] == DOT;
        assert(p[i + 1] == DOT);
    }
    if exists|i: int| 0 <= i < p.len() && p[i] != SLASH && p[i] != DOT {
        let i = choose|i: int| 0 <= i < p.len() && p[i] != SLASH && p[i] != DOT;
        assert(!(p[i] == SLASH || p[i] == DOT));
    }
    if names_root(p) {
        let q = p + seq![SLASH, DOT];
        assert forall|i: int| 0 <= i < q.len() implies #[trigger] q[i] == SLASH || q[i] == DOT by {
            if i < p.len() {
                assert(q[i] == p[i]);
            }
        }
        assert forall|i: int| 0 < i < q.len() && #[trigger] q[i] == DOT implies q[i - 1] == SLASH by {
            if i < p.len() {
                assert(q[i] == p[i]);
                assert(q[i - 1] == p[i - 1]);
            }
        }
    }
}

/// Whether the mount point whose bytes are `path` is `/`.
pub fn is_root_mount_point(path: &[u8]) -> (res: bool)
    ensures
        res == names_root(path@),
        path@.len() == 0 || path@[0] != SLASH ==> !res,
        (exists|i: int| 0 <= i < path@.len() && path@[i] != SLASH && path@[i] != DOT) ==> !res,
        (exists|i: int| #![trigger path@[i], path@[i + 1]] 0 <= i < path@.len() - 1 && path@[i] == DOT && path@[i + 1] == DOT) ==> !res,
        path@.len() > 0 && (forall|i: int| 0 <= i < path@.len() ==> path@[i] == SLASH) ==> res,
{
    proof {
        lemma_root_components(path@);
    }
    let n = path.len();
    if n == 0 || path[0] != SLASH {
        return false;
    }
    let mut i: usize = 1;
    while i < n
        invariant
            1 <= i <= n == path@.len(),
            path@[0] == SLASH,
            forall|j: int| 0 <= j < i ==> #[trigger] path@[j] == SLASH || path@[j] == DOT,
            forall|j: int| 0 < j < i && #[trigger] path@[j] == DOT ==> path@[j - 1] == SLASH,
        decreases n - i,
    {
        let b = path[i];
        if b != SLASH && b != DOT {
            return false;
        }
        if b == DOT && path[i - 1] != SLASH {
            return false;
        }
        i = i + 1;
    }
    true
}

/// The position of the first mount point in `mount_points` that is `/`.
pub fn root_disk(mount_points: &[Vec<u8>]) -> (res: Option<usize>)
    ensures
        match res {
            Some(i) => {
                &&& i < mount_points@.len()
                &&& names_root(mount_points@[i as int]@)
                &&& forall|j: int| 0 <= j < i ==> !names_root(#[trigger] mount_points@[j]@)
            },
            None => forall|j: int|
                0 <= j < mount_points@.len() ==> !names_root(#[trigger] mount_points@[j]@),
        },
{
    let mut i: usize = 0;
    while i < mount_points.len()
        invariant
            i <= mount_points@.len(),
            forall|j: int| 0 <= j < i ==> !names_root(#[trigger] mount_points@[j]@),
        decreases mount_points@.len() - i,
    {
        if is_root_mount_point(mount_points[i].as_slice()) {
            return Some(i);
        }
        i = i + 1;
    }
    None
}

} // verus!
