//! The on-disk size policy: cluster rounding.
//!
//! A file's logical length is rounded up to the next multiple of the volume's
//! cluster size to obtain the bytes it consumes on storage. Querying the
//! volume for its cluster size, like all filesystem access, is the shell's
//! concern; the rounding itself is the policy and lives here.
use vstd::prelude::*;

verus! {

/// The logical size of a file: the length its metadata reports, or 0 where
/// the metadata could not be read — a bad entry never fails a scan.
pub fn size_or_zero(reported: Option<u64>) -> (r: u64)
    ensures
        match reported {
            Some(len) => r == len,
            None => r == 0,
        },
{
    match reported {
        Some(len) => len,
        None => 0,
    }
}

/// `size` rounded up to the next multiple of `cluster_size`.
pub open spec fn rounded_up(size: int, cluster_size: int) -> int {
    ((size + cluster_size - 1) / cluster_size) * cluster_size
}

/// Bytes consumed on storage by a file of logical length `size`, under the
/// cluster-rounding policy: the smallest multiple of `cluster_size` at or
/// above `size`.
pub fn on_disk_size(size: u64, cluster_size: u64) -> (r: u64)
    requires
        cluster_size >= 1,
        size + cluster_size - 1 <= u64::MAX,
    ensures
        r as int == rounded_up(size as int, cluster_size as int),
        size <= r < size + cluster_size,
        r as int % cluster_size as int == 0,
{
    proof {
        lemma_rounded_up_bounds(size as int, cluster_size as int);
    }
    ((size + (cluster_size - 1)) / cluster_size) * cluster_size
}

/// The rounded-up size is the smallest multiple of the cluster size at or
/// above the given size: it is a multiple, at least the size, and less than
/// one cluster above it.
pub proof fn lemma_rounded_up_bounds(size: int, cluster_size: int)
    requires
        size >= 0,
        cluster_size >= 1,
    ensures
        size <= rounded_up(size, cluster_size) < size + cluster_size,
        rounded_up(size, cluster_size) % cluster_size == 0,
{
    let x = size + cluster_size - 1;
    let q = x / cluster_size;
    vstd::arithmetic::div_mod::lemma_fundamental_div_mod(x, cluster_size);
    vstd::arithmetic::div_mod::lemma_mod_bound(x, cluster_size);
    assert(q * cluster_size == x - x % cluster_size);
    vstd::arithmetic::div_mod::lemma_mod_multiples_basic(q, cluster_size);
}

} // verus!
