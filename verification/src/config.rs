//! Run configuration: the split strategy and the parameters of a run.
//!
//! The strategy is a closed choice made once per run: either a single
//! centered patch, or patches at sampled candidate positions inside a disc.
//! Paths are carried as byte strings (segments joined by `/` are split by
//! the caller where needed), so the configuration stays plain data.

use vstd::prelude::*;

use crate::point::COORD_LIMIT;

verus! {

/// How one image is split into patches.
#[derive(Clone, Copy, Debug)]
pub enum SplitType {
    /// Patches at sampled candidate positions: `sample_size` draws inside a
    /// disc of radius `scaling`, optionally merged with `threshold`.
    Circular { sample_size: usize, threshold: Option<i64>, scaling: i64 },
    /// A single patch cut from the image center.
    Center,
}

impl SplitType {
    /// The strategy's parameters are in the range the geometry works with.
    pub open spec fn wf(self) -> bool {
        match self {
            SplitType::Center => true,
            SplitType::Circular { sample_size, threshold, scaling } => {
                &&& 0 <= scaling <= COORD_LIMIT
                &&& (threshold is Some ==> 0 <= threshold->0 <= COORD_LIMIT)
            },
        }
    }

    /// Runtime form of `wf`, for callers outside verified code.
    pub fn is_wf(&self) -> (r: bool)
        ensures
            r == self.wf(),
    {
        match self {
            SplitType::Center => true,
            SplitType::Circular { sample_size: _, threshold, scaling } => {
                let t_ok = match threshold {
                    Some(t) => 0 <= *t && *t <= COORD_LIMIT,
                    None => true,
                };
                t_ok && 0 <= *scaling && *scaling <= COORD_LIMIT
            },
        }
    }
}

/// Everything one run needs: the files to crop, where the output goes, the
/// scan root that relative names are computed against, the patch
/// resolution, and the chosen strategy. Paths are segment lists.
pub struct ParamConfig {
    pub files: Vec<Vec<Vec<u8>>>,
    pub target: Vec<Vec<u8>>,
    pub prefix: Vec<Vec<u8>>,
    pub split_size: (u32, u32),
    pub split_type: SplitType,
}

impl ParamConfig {
    pub fn new(
        files: Vec<Vec<Vec<u8>>>,
        prefix: Vec<Vec<u8>>,
        target: Vec<Vec<u8>>,
        split_size: (u32, u32),
        split_type: SplitType,
    ) -> (r: ParamConfig)
        ensures
            r.files == files,
            r.prefix == prefix,
            r.target == target,
            r.split_size == split_size,
            r.split_type == split_type,
    {
        ParamConfig { files, target, prefix, split_size, split_type }
    }
}

/// Step-by-step assembly of a `ParamConfig`; `build` chooses `Circular`
/// exactly when both a sample size and a scaling were given.
pub struct ParamBuilder {
    pub files: Option<Vec<Vec<Vec<u8>>>>,
    pub target: Option<Vec<Vec<u8>>>,
    pub prefix: Option<Vec<Vec<u8>>>,
    pub split_size: Option<(u32, u32)>,
    pub sample_size: Option<usize>,
    pub threshold: Option<i64>,
    pub scaling: Option<i64>,
}

impl ParamBuilder {
    pub fn new() -> (r: ParamBuilder)
        ensures
            r.files is None,
            r.target is None,
            r.prefix is None,
            r.split_size is None,
            r.sample_size is None,
            r.threshold is None,
            r.scaling is None,
    {
        ParamBuilder {
            files: None,
            target: None,
            prefix: None,
            split_size: None,
            sample_size: None,
            threshold: None,
            scaling: None,
        }
    }

    pub fn files(self, files: Vec<Vec<Vec<u8>>>) -> (r: ParamBuilder)
        ensures
            r == (ParamBuilder { files: Some(files), ..self }),
    {
        ParamBuilder { files: Some(files), ..self }
    }

    pub fn target(self, target: Vec<Vec<u8>>) -> (r: ParamBuilder)
        ensures
            r == (ParamBuilder { target: Some(target), ..self }),
    {
        ParamBuilder { target: Some(target), ..self }
    }

    pub fn prefix(self, prefix: Vec<Vec<u8>>) -> (r: ParamBuilder)
        ensures
            r == (ParamBuilder { prefix: Some(prefix), ..self }),
    {
        ParamBuilder { prefix: Some(prefix), ..self }
    }

    pub fn split_size(self, split_size: (u32, u32)) -> (r: ParamBuilder)
        ensures
            r == (ParamBuilder { split_size: Some(split_size), ..self }),
    {
        ParamBuilder { split_size: Some(split_size), ..self }
    }

    pub fn sample_size(self, sample_size: usize) -> (r: ParamBuilder)
        ensures
            r == (ParamBuilder { sample_size: Some(sample_size), ..self }),
    {
        ParamBuilder { sample_size: Some(sample_size), ..self }
    }

    pub fn threshold(self, threshold: i64) -> (r: ParamBuilder)
        ensures
            r == (ParamBuilder { threshold: Some(threshold), ..self }),
    {
        ParamBuilder { threshold: Some(threshold), ..self }
    }

    pub fn scaling(self, scaling: i64) -> (r: ParamBuilder)
        ensures
            r == (ParamBuilder { scaling: Some(scaling), ..self }),
    {
        ParamBuilder { scaling: Some(scaling), ..self }
    }

    /// The finished configuration. The strategy is `Circular` exactly when
    /// both a sample size and a scaling were set, carrying the threshold as
    /// given; the patch resolution defaults to 64 by 64.
    pub fn build(self) -> (r: ParamConfig)
        requires
            self.files is Some,
            self.prefix is Some,
            self.target is Some,
        ensures
            r.files == self.files->0,
            r.prefix == self.prefix->0,
            r.target == self.target->0,
            r.split_size == if self.split_size is Some {
                self.split_size->0
            } else {
                (64u32, 64u32)
            },
            r.split_type == if self.sample_size is Some && self.scaling is Some {
                SplitType::Circular {
                    sample_size: self.sample_size->0,
                    threshold: self.threshold,
                    scaling: self.scaling->0,
                }
            } else {
                SplitType::Center
            },
    {
        let ParamBuilder { files, target, prefix, split_size, sample_size, threshold, scaling } =
            self;
        let split_type = match (sample_size, scaling) {
            (Some(size), Some(sc)) => SplitType::Circular {
                sample_size: size,
                threshold,
                scaling: sc,
            },
            _ => SplitType::Center,
        };
        let size = match split_size {
            Some(s) => s,
            None => (64, 64),
        };
        ParamConfig::new(files.unwrap(), prefix.unwrap(), target.unwrap(), size, split_type)
    }
}

} // verus!
