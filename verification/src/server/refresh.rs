//! The progress of a refresh of the cache: the status of each root as it is
//! probed and scanned, and the report sent to the clients.
use vstd::prelude::*;

verus! {

/// Where a root stands in the refresh.
#[derive(Debug, Clone, Copy, PartialEq, Eq, Structural)]
pub enum RootStatus {
    Pending,
    Loading,
    Done,
    Error,
}

/// A root and where it stands.
#[derive(Debug)]
pub struct RootInfo {
    pub path: String,
    pub status: RootStatus,
}

/// The progress of a refresh: the roots, the directories scanned so far out of
/// all, the errors met, and whether it is done.
#[derive(Debug)]
pub struct Refreshing {
    pub roots: Vec<RootInfo>,
    pub total_dirs: usize,
    pub done_dirs: usize,
    pub num_errors: usize,
    pub is_done: bool,
}

/// The report of a refresh: each root with its status, and the counts given.
pub fn make_refreshing(
    done_dirs: usize,
    total_dirs: usize,
    roots: &[String],
    root_status: &[RootStatus],
    num_errors: usize,
    is_done: bool,
) -> (r: Refreshing)
    requires
        roots@.len() == root_status@.len(),
    ensures
        r.roots@.len() == roots@.len(),
        forall|k: int|
            0 <= k < roots@.len() ==> (#[trigger] r.roots@[k]).path@ == roots@[k]@
                && r.roots@[k].status == root_status@[k],
        r.total_dirs == total_dirs,
        r.done_dirs == done_dirs,
        r.num_errors == num_errors,
        r.is_done == is_done,
{
    let mut infos: Vec<RootInfo> = Vec::new();
    let mut k: usize = 0;
    while k < roots.len()
        invariant
            roots@.len() == root_status@.len(),
            k <= roots@.len(),
            infos@.len() == k,
            forall|j: int|
                0 <= j < k ==> (#[trigger] infos@[j]).path@ == roots@[j]@ && infos@[j].status
                    == root_status@[j],
        decreases roots@.len() - k,
    {
        infos.push(RootInfo { path: roots[k].clone(), status: root_status[k] });
        k += 1;
    }
    Refreshing { roots: infos, total_dirs, done_dirs, num_errors, is_done }
}

/// Every root is being probed.
pub fn probe_start(root_status: &mut [RootStatus])
    ensures
        final(root_status)@.len() == old(root_status)@.len(),
        forall|k: int|
            0 <= k < final(root_status)@.len() ==> #[trigger] final(root_status)@[k]
                == RootStatus::Loading,
{
    let mut k: usize = 0;
    while k < root_status.len()
        invariant
            root_status@.len() == old(root_status)@.len(),
            k <= root_status@.len(),
            forall|j: int| 0 <= j < k ==> #[trigger] root_status@[j] == RootStatus::Loading,
        decreases root_status@.len() - k,
    {
        root_status[k] = RootStatus::Loading;
        k += 1;
    }
}

/// A root has been probed: it is pending where it could be opened, in error
/// otherwise.
pub fn probe_result(root_status: &mut [RootStatus], i: usize, opened: bool)
    requires
        i < old(root_status)@.len(),
    ensures
        final(root_status)@ == old(root_status)@.update(
            i as int,
            if opened {
                RootStatus::Pending
            } else {
                RootStatus::Error
            },
        ),
{
    root_status[i] = if opened {
        RootStatus::Pending
    } else {
        RootStatus::Error
    };
}

/// The shallow scan of a root begins: a root in error is skipped (false);
/// a pending one is being loaded (true).
pub fn shallow_begin(root_status: &mut [RootStatus], i: usize) -> (scan: bool)
    requires
        i < old(root_status)@.len(),
        old(root_status)@[i as int] == RootStatus::Pending || old(root_status)@[i as int]
            == RootStatus::Error,
    ensures
        scan == (old(root_status)@[i as int] == RootStatus::Pending),
        scan ==> final(root_status)@ == old(root_status)@.update(i as int, RootStatus::Loading),
        !scan ==> final(root_status)@ == old(root_status)@,
{
    if root_status[i] == RootStatus::Error {
        return false;
    }
    root_status[i] = RootStatus::Loading;
    true
}

/// The shallow scan of a root ended: done where the walk succeeded, in error
/// otherwise.
pub fn shallow_end(root_status: &mut [RootStatus], i: usize, walked: bool)
    requires
        i < old(root_status)@.len(),
    ensures
        final(root_status)@ == old(root_status)@.update(
            i as int,
            if walked {
                RootStatus::Done
            } else {
                RootStatus::Error
            },
        ),
{
    root_status[i] = if walked {
        RootStatus::Done
    } else {
        RootStatus::Error
    };
}

} // verus!
