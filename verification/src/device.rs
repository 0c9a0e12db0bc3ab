//! Which device a path lives on, whether two paths share one, and how much space is free.
use vstd::prelude::*;

use crate::paths::{FsPath, PathV, add_path, parent_of, paths_view, root_comp};
use crate::text::{push_spelled, utf8_lossy};

verus! {

/// A path and all its ancestors, nearest first.
pub open spec fn ancestry(p: PathV) -> Seq<PathV>
    decreases p.len(),
{
    match parent_of(p) {
        Some(q) => if q.len() < p.len() {
            seq![p] + ancestry(q)
        } else {
            seq![p]
        },
        None => seq![p],
    }
}

/// A path and all its ancestors, nearest first: the places to ask for a device.
pub fn ancestors(path: &FsPath) -> (r: Vec<FsPath>)
    ensures
        paths_view(r@) == ancestry(path@),
{
    let mut out: Vec<FsPath> = Vec::new();
    let mut cur = path.clone();
    add_path(&mut out, path.clone());
    assert(paths_view(out@) =~= seq![path@]);
    loop
        invariant
            paths_view(out@).len() > 0,
            paths_view(out@).last() == cur@,
            ancestry(path@) == paths_view(out@).drop_last() + ancestry(cur@),
        ensures
            ancestry(path@) == paths_view(out@).drop_last() + ancestry(cur@),
            parent_of(cur@) is None,
            paths_view(out@).len() > 0,
            paths_view(out@).last() == cur@,
        decreases cur@.len(),
    {
        match cur.parent() {
            Some(p) => {
                let ghost before = paths_view(out@);
                add_path(&mut out, p.clone());
                assert(paths_view(out@).drop_last() =~= before);
                assert(before.drop_last() + (seq![cur@] + ancestry(p@)) =~= before + ancestry(p@));
                cur = p;
            },
            None => {
                break;
            },
        }
    }
    assert(paths_view(out@) =~= paths_view(out@).drop_last() + seq![cur@]);
    out
}

/// The first device that is known.
pub open spec fn first_known(devices: Seq<Option<u64>>) -> Option<u64>
    decreases devices.len(),
{
    if devices.len() == 0 {
        None
    } else {
        match devices[0] {
            Some(d) => Some(d),
            None => first_known(devices.subrange(1, devices.len() as int)),
        }
    }
}

/// The device of the file system that holds `path`. `devices` are those of the path and its
/// ancestors, nearest first, where they exist: a path that does not exist yet is judged by where it
/// would be created.
pub fn fs_device(path: &FsPath, devices: &Vec<Option<u64>>) -> (r: Result<u64, String>)
    ensures
        match first_known(devices@) {
            Some(d) => r == Ok::<u64, String>(d),
            None => r matches Err(e) && e@ == "cannot resolve "@ + utf8_lossy(path.spelled()),
        },
{
    let mut i: usize = 0;
    assert(devices@.subrange(0, devices@.len() as int) =~= devices@);
    while i < devices.len()
        invariant
            0 <= i <= devices@.len(),
            first_known(devices@) == first_known(devices@.subrange(i as int, devices@.len() as int)),
        decreases devices@.len() - i,
    {
        let ghost rest = devices@.subrange(i as int, devices@.len() as int);
        assert(rest[0] == devices@[i as int]);
        if let Some(d) = devices[i] {
            return Ok(d);
        }
        assert(rest.subrange(1, rest.len() as int) =~= devices@.subrange(i + 1, devices@.len() as int));
        i = i + 1;
    }
    let mut s = String::from_str("cannot resolve ");
    push_spelled(&mut s, path);
    Err(s)
}

/// Whether `a` and `b` live on the same file system.
pub fn same_filesystem(
    a: &FsPath,
    a_devices: &Vec<Option<u64>>,
    b: &FsPath,
    b_devices: &Vec<Option<u64>>,
) -> (r: Result<bool, String>)
    ensures
        match (first_known(a_devices@), first_known(b_devices@)) {
            (Some(x), Some(y)) => r == Ok::<bool, String>(x == y),
            (Some(_), None) => r matches Err(e) && e@ == "cannot resolve "@ + utf8_lossy(b.spelled()),
            (None, _) => r matches Err(e) && e@ == "cannot resolve "@ + utf8_lossy(a.spelled()),
        },
{
    match fs_device(a, a_devices) {
        Ok(x) => match fs_device(b, b_devices) {
            Ok(y) => Ok(x == y),
            Err(e) => Err(e),
        },
        Err(e) => Err(e),
    }
}

/// Whether `a` and `b` sit on different devices, the cue that scanning them at once overlaps
/// independent work instead of contending for one disk head. What is not known stays sequential.
pub fn different_devices(
    a: &FsPath,
    a_devices: &Vec<Option<u64>>,
    b: &FsPath,
    b_devices: &Vec<Option<u64>>,
) -> (r: bool)
    ensures
        r == match (first_known(a_devices@), first_known(b_devices@)) {
            (Some(x), Some(y)) => x != y,
            _ => false,
        },
{
    match fs_device(a, a_devices) {
        Ok(x) => match fs_device(b, b_devices) {
            Ok(y) => x != y,
            Err(_) => false,
        },
        Err(_) => false,
    }
}

/// The bytes free to ordinary writes: blocks available, times the size of one.
pub fn available_bytes(blocks_available: u64, block_size: u64) -> (r: u64)
    requires
        blocks_available * block_size <= u64::MAX,
    ensures
        r == blocks_available * block_size,
{
    blocks_available * block_size
}

// ── laws ─────────────────────────────────────────────────────────────────────

/// The places to ask for a device are all beginnings of a path, the longest first, down to the root.
pub proof fn every_beginning_is_asked(p: PathV)
    requires
        p.len() > 0,
        p[0] == root_comp(),
        forall|i: int| 0 < i < p.len() ==> #[trigger] p[i] != root_comp(),
    ensures
        ancestry(p).len() == p.len(),
        forall|k: int| 0 <= k < p.len() ==> #[trigger] ancestry(p)[k] == p.subrange(0, p.len() - k),
    decreases p.len(),
{
    assert(p.last() == p[p.len() - 1]);
    if p.len() > 1 {
        let q = p.drop_last();
        every_beginning_is_asked(q);
        assert forall|k: int| 0 <= k < p.len() implies #[trigger] ancestry(p)[k] == p.subrange(0, p.len() - k) by {
            if k == 0 {
                assert(p.subrange(0, p.len() as int) =~= p);
            } else {
                assert(ancestry(p)[k] == ancestry(q)[k - 1]);
                assert(q.subrange(0, q.len() - (k - 1)) =~= p.subrange(0, p.len() - k));
            }
        }
    } else {
        assert(ancestry(p) =~= seq![p]);
        assert(p.subrange(0, 1) =~= p);
    }
}

/// A path is judged by the nearest place whose device is known.
pub proof fn the_nearest_device_counts(devices: Seq<Option<u64>>, k: int, d: u64)
    requires
        0 <= k < devices.len(),
        devices[k] == Some(d),
        forall|i: int| 0 <= i < k ==> #[trigger] devices[i] is None,
    ensures
        first_known(devices) == Some(d),
    decreases k,
{
    if k > 0 {
        assert(devices[0] is None);
        let rest = devices.subrange(1, devices.len() as int);
        assert forall|i: int| 0 <= i < k - 1 implies #[trigger] rest[i] is None by {
            assert(devices[i + 1] is None);
        }
        the_nearest_device_counts(rest, k - 1, d);
    }
}

/// Where no place has a known device, the path has none.
pub proof fn no_device_is_made_up(devices: Seq<Option<u64>>)
    requires
        forall|i: int| 0 <= i < devices.len() ==> #[trigger] devices[i] is None,
    ensures
        first_known(devices) is None,
    decreases devices.len(),
{
    if devices.len() > 0 {
        assert(devices[0] is None);
        let rest = devices.subrange(1, devices.len() as int);
        assert forall|i: int| 0 <= i < rest.len() implies #[trigger] rest[i] is None by {
            assert(devices[i + 1] is None);
        }
        no_device_is_made_up(rest);
    }
}

} // verus!
