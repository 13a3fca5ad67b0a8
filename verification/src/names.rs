//! The names of the files that carry the phase boundaries.
//!
//! All names derive from the input file's name: `mrtmp.<name>-<m>` for map
//! input `m`, `mrtmp.<name>-<m>-<r>` for the intermediate file of map input
//! `m` and partition `r`, `mrtmp.<name>-res-<r>` for partition `r`'s partial
//! result, and `mrtmp.<name>` for the final result.

use crate::num::dec_digits;
use crate::num::u64_to_string;
use vstd::prelude::*;
use vstd::string::StringExecFns;

verus! {

/// The name of map input `job_count`.
pub open spec fn map_filename_spec(filename: Seq<char>, job_count: nat) -> Seq<char> {
    "mrtmp."@ + filename + "-"@ + dec_digits(job_count)
}

/// The name of the intermediate file written by map input `map_job` for
/// partition `reduce_job`.
pub open spec fn reduce_filename_spec(filename: Seq<char>, map_job: nat, reduce_job: nat) -> Seq<
    char,
> {
    map_filename_spec(filename, map_job) + "-"@ + dec_digits(reduce_job)
}

/// The name of partition `job_count`'s partial result.
pub open spec fn merge_filename_spec(filename: Seq<char>, job_count: nat) -> Seq<char> {
    "mrtmp."@ + filename + "-res-"@ + dec_digits(job_count)
}

/// The name of the final result.
pub open spec fn result_filename_spec(filename: Seq<char>) -> Seq<char> {
    "mrtmp."@ + filename
}

/// Builds the name of one map input.
pub fn map_filename(filename: &str, job_count: usize) -> (r: String)
    ensures
        r@ == map_filename_spec(filename@, job_count as nat),
{
    let mut s = String::from_str("mrtmp.");
    s.append(filename);
    s.append("-");
    let n = u64_to_string(job_count as u64);
    s.append(n.as_str());
    proof {
        assert(s@ =~= map_filename_spec(filename@, job_count as nat));
    }
    s
}

/// Builds the name of one intermediate file.
pub fn reduce_filename(filename: &str, map_job: usize, reduce_job: usize) -> (r: String)
    ensures
        r@ == reduce_filename_spec(filename@, map_job as nat, reduce_job as nat),
{
    let mut s = map_filename(filename, map_job);
    s.append("-");
    let n = u64_to_string(reduce_job as u64);
    s.append(n.as_str());
    proof {
        assert(s@ =~= reduce_filename_spec(filename@, map_job as nat, reduce_job as nat));
    }
    s
}

/// Builds the name of one partial result.
pub fn merge_filename(filename: &str, job_count: usize) -> (r: String)
    ensures
        r@ == merge_filename_spec(filename@, job_count as nat),
{
    let mut s = String::from_str("mrtmp.");
    s.append(filename);
    s.append("-res-");
    let n = u64_to_string(job_count as u64);
    s.append(n.as_str());
    proof {
        assert(s@ =~= merge_filename_spec(filename@, job_count as nat));
    }
    s
}

/// Builds the name of the final result.
pub fn result_filename(filename: &str) -> (r: String)
    ensures
        r@ == result_filename_spec(filename@),
{
    let mut s = String::from_str("mrtmp.");
    s.append(filename);
    proof {
        assert(s@ =~= result_filename_spec(filename@));
    }
    s
}

} // verus!
