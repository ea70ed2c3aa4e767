use crate::view::{IdCounter, ID_BLOCK_LEN};
use rand::{thread_rng, Rng};
use vstd::arithmetic::div_mod::lemma_fundamental_div_mod;
use vstd::prelude::*;

verus! {

/// The spacing of start values: every start is a multiple of it.
pub const START_STRIDE: u32 = 1_000_000;

/// Where the range of parallel start values begins, in strides.
pub const PARALLEL_OFFSET: u32 = 1000;

/// The start values that `gen_id_start_value` may draw: a multiple of
/// `START_STRIDE`, from 1 to 999 strides for sequential execution and from
/// 1001 to 1999 strides for parallel execution.
pub open spec fn is_start_value(sequential: bool, v: u32) -> bool {
    let k = v / START_STRIDE;
    let offset: int = if sequential {
        0
    } else {
        PARALLEL_OFFSET as int
    };
    &&& v % START_STRIDE == 0
    &&& 1 + offset <= k < 1000 + offset
}

/// Relies on rand's `Rng::gen_range` (0.7) on the thread-local generator: it
/// returns a number in `[low, high)`, and panics unless `low < high`.
#[verifier::external_body]
fn random_in_range(low: u32, high: u32) -> (r: u32)
    requires
        low < high,
    ensures
        low <= r < high,
{
    thread_rng().gen_range(low, high)
}

/// A random start for the identifiers of one execution attempt, drawn anew
/// each time and from disjoint ranges for sequential and parallel execution,
/// so that an identifier that leaks from one attempt into another shows.
pub fn gen_id_start_value(sequential: bool) -> (r: u32)
    ensures
        is_start_value(sequential, r),
{
    let offset: u32 = if sequential {
        0
    } else {
        PARALLEL_OFFSET
    };
    let k = random_in_range(1 + offset, 1000 + offset);
    let r = k * START_STRIDE;
    assert(r / START_STRIDE == k && r % START_STRIDE == 0) by (nonlinear_arith)
        requires
            r == k * 1_000_000,
            START_STRIDE == 1_000_000,
    ;
    r
}

/// Identifiers minted in a sequential attempt and in a parallel attempt never
/// coincide: every sequential one is below every parallel one.
pub proof fn lemma_attempt_ranges_disjoint(
    sequential: IdCounter,
    parallel: IdCounter,
    seq_id: u64,
    par_id: u64,
)
    requires
        sequential.wf(),
        parallel.wf(),
        is_start_value(true, sequential.start as u32),
        is_start_value(false, parallel.start as u32),
        sequential.start <= seq_id < sequential.next,
        parallel.start <= par_id < parallel.next,
    ensures
        seq_id < par_id,
{
    let s = sequential.start as u32;
    let p = parallel.start as u32;
    lemma_fundamental_div_mod(s as int, 1_000_000);
    lemma_fundamental_div_mod(p as int, 1_000_000);
    assert(ID_BLOCK_LEN == 1_000_000);
}

} // verus!
