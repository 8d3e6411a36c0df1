//! The comparison core: which inputs of a batch made the two programs
//! diverge, and how a test-case count is cut into batches.

use vstd::prelude::*;
use vstd::arithmetic::div_mod::lemma_fundamental_div_mod_converse;
use crate::stringproc::normalize;
use crate::stringproc::process_str;

verus! {

/// Number of test cases used when the caller names none.
pub const DEFAULT_TEST_COUNT: usize = 100;

/// Number of inputs run and compared together before progress is reported.
pub const DEFAULT_BATCH_SIZE: usize = 10;

/// Nominal per-run time limit in milliseconds when the caller names none.
pub const DEFAULT_TIME_LIMIT_MS: i64 = 2000;

/// Two outcome texts count as equal when they normalize to the same text.
pub open spec fn outputs_match(a: Seq<char>, b: Seq<char>) -> bool {
    normalize(a) == normalize(b)
}

/// One input on which the two programs diverged, with the original
/// (non-normalized) outcome texts for reporting.
#[derive(Clone, Debug)]
pub struct Mismatch {
    /// Position of the input within its batch.
    pub index: usize,
    /// The generated test input.
    pub input: String,
    /// What the reference program answered.
    pub reference_output: String,
    /// What the candidate program answered.
    pub candidate_output: String,
}

/// Compares the two programs' outcome texts index by index and returns one
/// mismatch record, carrying the original texts, for exactly every index
/// whose outputs are not normalization-equal, in index order.
pub fn compare_batch(
    inputs: &Vec<String>,
    reference: &Vec<String>,
    candidate: &Vec<String>,
) -> (r: Vec<Mismatch>)
    requires
        inputs@.len() == reference@.len(),
        inputs@.len() == candidate@.len(),
    ensures
        // Every record marks a real divergence and carries the originals.
        forall|k: int| 0 <= k < r@.len() ==> {
            let i = #[trigger] r@[k].index as int;
            &&& 0 <= i < inputs@.len()
            &&& !outputs_match(reference@[i]@, candidate@[i]@)
            &&& r@[k].input@ == inputs@[i]@
            &&& r@[k].reference_output@ == reference@[i]@
            &&& r@[k].candidate_output@ == candidate@[i]@
        },
        // Records come in strictly increasing input order: one per divergence.
        forall|k1: int, k2: int| 0 <= k1 < k2 < r@.len()
            ==> r@[k1].index < r@[k2].index,
        // Every divergence is recorded.
        forall|i: int| 0 <= i < inputs@.len()
            && !outputs_match(reference@[i]@, candidate@[i]@)
            ==> exists|k: int| 0 <= k < r@.len() && #[trigger] r@[k].index as int == i,
{
    let n = inputs.len();
    let mut r: Vec<Mismatch> = Vec::new();
    let mut i: usize = 0;
    while i < n
        invariant
            n == inputs@.len(),
            n == reference@.len(),
            n == candidate@.len(),
            i <= n,
            forall|k: int| 0 <= k < r@.len() ==> {
                let ix = #[trigger] r@[k].index as int;
                &&& 0 <= ix < i
                &&& !outputs_match(reference@[ix]@, candidate@[ix]@)
                &&& r@[k].input@ == inputs@[ix]@
                &&& r@[k].reference_output@ == reference@[ix]@
                &&& r@[k].candidate_output@ == candidate@[ix]@
            },
            forall|k1: int, k2: int| 0 <= k1 < k2 < r@.len()
                ==> r@[k1].index < r@[k2].index,
            forall|j: int| 0 <= j < i
                && !outputs_match(reference@[j]@, candidate@[j]@)
                ==> exists|k: int| 0 <= k < r@.len() && #[trigger] r@[k].index as int == j,
        decreases n - i,
    {
        let pr = process_str(reference[i].as_str());
        let pc = process_str(candidate[i].as_str());
        if !(pr == pc) {
            let ghost prev = r@;
            let rec = Mismatch {
                index: i,
                input: inputs[i].clone(),
                reference_output: reference[i].clone(),
                candidate_output: candidate[i].clone(),
            };
            r.push(rec);
            proof {
                assert(r@[r@.len() - 1].index as int == i as int);
                assert forall|j: int|
                    0 <= j < i + 1 && !outputs_match(reference@[j]@, candidate@[j]@)
                    implies exists|k: int|
                        0 <= k < r@.len() && #[trigger] r@[k].index as int == j by {
                    if j < i {
                        let k = choose|k: int|
                            0 <= k < prev.len() && #[trigger] prev[k].index as int == j;
                        assert(r@[k].index as int == j);
                    } else {
                        assert(r@[r@.len() - 1].index as int == j);
                    }
                }
            }
        } else {
            proof {
                assert(outputs_match(reference@[i as int]@, candidate@[i as int]@));
            }
        }
        i = i + 1;
    }
    r
}

/// How many batches a run of `tc` test cases takes at `batch` per batch.
pub open spec fn spec_batch_count(tc: int, batch: int) -> int {
    tc / batch + if tc % batch == 0 {
        0int
    } else {
        1int
    }
}

/// Cuts `tc` test cases into consecutive batch sizes: every batch is full
/// except the last, which holds the remaining cases.
pub fn batch_sizes(tc: usize, batch: usize) -> (r: Vec<usize>)
    requires
        batch >= 1,
    ensures
        r@.len() == spec_batch_count(tc as int, batch as int),
        forall|i: int| 0 <= i < r@.len() ==> 1 <= #[trigger] r@[i] <= batch,
        forall|i: int| 0 <= i < r@.len() ==> #[trigger] r@[i] as int == if i + 1
            < r@.len() {
            batch as int
        } else {
            tc as int - i * (batch as int)
        },
{
    let mut r: Vec<usize> = Vec::new();
    let mut rem: usize = tc;
    proof {
        assert(r@.len() * (batch as int) == 0) by (nonlinear_arith)
            requires r@.len() == 0;
    }
    while rem > batch
        invariant
            batch >= 1,
            tc as int == r@.len() * (batch as int) + rem,
            forall|i: int| 0 <= i < r@.len() ==> #[trigger] r@[i] == batch,
        decreases rem,
    {
        r.push(batch);
        rem = rem - batch;
        proof {
            assert(r@.len() * (batch as int)
                == (r@.len() - 1) * (batch as int) + (batch as int)) by (nonlinear_arith);
        }
    }
    let ghost full = r@.len() as int;
    if rem > 0 {
        r.push(rem);
        proof {
            if rem < batch {
                lemma_fundamental_div_mod_converse(
                    tc as int,
                    batch as int,
                    full,
                    rem as int,
                );
            } else {
                assert((full + 1) * (batch as int)
                    == full * (batch as int) + (batch as int)) by (nonlinear_arith);
                lemma_fundamental_div_mod_converse(
                    tc as int,
                    batch as int,
                    full + 1,
                    0,
                );
            }
        }
    } else {
        proof {
            lemma_fundamental_div_mod_converse(tc as int, batch as int, full, 0);
            if full > 0 {
                assert(full * (batch as int)
                    == (full - 1) * (batch as int) + (batch as int)) by (nonlinear_arith);
            }
        }
    }
    r
}

} // verus!
