//! Per-file outcomes of a run and their summary.
//!
//! Each file ends in exactly one outcome: its patches were saved, it could
//! not be decoded, it was too small to host a patch, or writing failed.
//! Only the first is a success; the others are per-file skips that never
//! abort the batch. The summary counts each reason separately, so skip
//! reasons stay distinguishable after the run.

use vstd::prelude::*;

verus! {

/// What happened to one source file.
#[derive(Clone, Copy, Debug, PartialEq, Eq, Structural)]
pub enum FileOutcome {
    /// The file's patches were cut and written; `patches` is how many.
    Saved { patches: u32 },
    /// The file could not be decoded as an image.
    DecodeFailed,
    /// The image was smaller than the requested patch resolution.
    TooSmall,
    /// A patch of this file could not be written.
    WriteFailed,
}

/// How many outcomes of `s` were saved files.
pub open spec fn count_saved(s: Seq<FileOutcome>) -> int
    decreases s.len(),
{
    if s.len() == 0 {
        0
    } else {
        count_saved(s.drop_last()) + if s.last() is Saved {
            1int
        } else {
            0int
        }
    }
}

/// How many outcomes of `s` failed to decode.
pub open spec fn count_decode_failed(s: Seq<FileOutcome>) -> int
    decreases s.len(),
{
    if s.len() == 0 {
        0
    } else {
        count_decode_failed(s.drop_last()) + if s.last() is DecodeFailed {
            1int
        } else {
            0int
        }
    }
}

/// How many outcomes of `s` were too small to crop.
pub open spec fn count_too_small(s: Seq<FileOutcome>) -> int
    decreases s.len(),
{
    if s.len() == 0 {
        0
    } else {
        count_too_small(s.drop_last()) + if s.last() is TooSmall {
            1int
        } else {
            0int
        }
    }
}

/// How many outcomes of `s` failed while writing.
pub open spec fn count_write_failed(s: Seq<FileOutcome>) -> int
    decreases s.len(),
{
    if s.len() == 0 {
        0
    } else {
        count_write_failed(s.drop_last()) + if s.last() is WriteFailed {
            1int
        } else {
            0int
        }
    }
}

/// The summary of a finished run, one counter per outcome kind.
#[derive(Clone, Copy, Debug, PartialEq, Eq, Structural)]
pub struct RunReport {
    pub files_saved: usize,
    pub decode_failures: usize,
    pub too_small: usize,
    pub write_failures: usize,
}

/// Count every outcome kind of a finished run; the four counters add up
/// to the number of files, since each file ends in exactly one outcome.
pub fn summarize(outcomes: &Vec<FileOutcome>) -> (r: RunReport)
    ensures
        r.files_saved == count_saved(outcomes@),
        r.decode_failures == count_decode_failed(outcomes@),
        r.too_small == count_too_small(outcomes@),
        r.write_failures == count_write_failed(outcomes@),
        r.files_saved + r.decode_failures + r.too_small + r.write_failures == outcomes@.len(),
{
    let mut saved: usize = 0;
    let mut decode: usize = 0;
    let mut small: usize = 0;
    let mut write: usize = 0;
    let mut i: usize = 0;
    while i < outcomes.len()
        invariant
            i <= outcomes@.len(),
            saved == count_saved(outcomes@.subrange(0, i as int)),
            decode == count_decode_failed(outcomes@.subrange(0, i as int)),
            small == count_too_small(outcomes@.subrange(0, i as int)),
            write == count_write_failed(outcomes@.subrange(0, i as int)),
            saved + decode + small + write == i,
        decreases outcomes@.len() - i,
    {
        proof {
            assert(outcomes@.subrange(0, i as int + 1).drop_last() =~= outcomes@.subrange(
                0,
                i as int,
            ));
            assert(outcomes@.subrange(0, i as int + 1).last() == outcomes@[i as int]);
        }
        match outcomes[i] {
            FileOutcome::Saved { patches: _ } => {
                saved = saved + 1;
            },
            FileOutcome::DecodeFailed => {
                decode = decode + 1;
            },
            FileOutcome::TooSmall => {
                small = small + 1;
            },
            FileOutcome::WriteFailed => {
                write = write + 1;
            },
        }
        i = i + 1;
    }
    proof {
        assert(outcomes@.subrange(0, outcomes@.len() as int) =~= outcomes@);
    }
    RunReport { files_saved: saved, decode_failures: decode, too_small: small, write_failures: write }
}

} // verus!
