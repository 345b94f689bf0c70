//! Compaction heuristics used to decide when to rebuild the log.

use vstd::prelude::*;

verus! {

/// The stale-ratio threshold numerator: a log a third dead is worth rewriting.
pub const RATIO_NUMERATOR: u64 = 33;

/// One mebibyte: logs below this size are never rewritten for their ratio.
pub const RATIO_SIZE_GATE: u64 = 1_048_576;

/// Absolute stale-byte bound past which compaction always fires.
pub const STALE_LIMIT: u64 = 8_388_608;

/// The compaction decision: a zero-length log never compacts; otherwise the
/// log is rewritten when at least 33% of it is stale and it exceeds 1 MiB, or
/// when more than 8 MiB are stale regardless of the ratio.
pub open spec fn spec_should_compact(total_bytes: u64, stale_bytes: u64) -> bool {
    if total_bytes == 0 {
        false
    } else {
        (100 * stale_bytes >= RATIO_NUMERATOR * total_bytes && total_bytes > RATIO_SIZE_GATE)
            || stale_bytes > STALE_LIMIT
    }
}

/// Returns `true` when the ratio of stale records justifies rewriting the log.
pub fn should_compact(total_bytes: u64, stale_bytes: u64) -> (r: bool)
    ensures
        r == spec_should_compact(total_bytes, stale_bytes),
{
    if total_bytes == 0 {
        return false;
    }
    let ratio_hit = (stale_bytes as u128) * 100 >= (total_bytes as u128) * 33;
    (ratio_hit && total_bytes > RATIO_SIZE_GATE) || stale_bytes > STALE_LIMIT
}

} // verus!
