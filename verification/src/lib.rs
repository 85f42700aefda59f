//! A vector-path to point-sequence converter.
//!
//! Given a path description made of move / line / horizontal / vertical /
//! quadratic / cubic segments (absolute or relative), the library produces a
//! flattened, deduplicated sequence of sample points whose density is
//! proportional to each segment's arc length relative to the whole path's
//! length.
//!
//! All coordinates are fixed-point numbers: an `i128` holding the value
//! scaled by [`fixed::SCALE`] (`10^12`).  The pipeline, leaves first:
//! tokenizer ([`tokenize`]), canonicalizer ([`canonical`]), coordinate mapper
//! ([`cartesian`]), arc-length engine ([`arclen`]), adaptive sampler
//! ([`sample`]) and deduplicator ([`dedup`]).

pub mod arclen;
pub mod canonical;
pub mod cartesian;
pub mod dedup;
pub mod error;
pub mod fixed;
pub mod sample;
pub mod tokenize;

use vstd::prelude::*;
use crate::canonical::{Pt, spec_canonicalize, canonicalize};
use crate::cartesian::{spec_to_cartesian, to_cartesian};
use crate::arclen::{spec_total_len, total_length};
use crate::sample::{spec_sample_all, sample_all, pts_bounded};
use crate::dedup::{spec_dedup, dedup_points};
use crate::error::PathError;
use crate::tokenize::{spec_tokenize, tokenize};

verus! {

/// What converting a path text with budget `n` yields: tokenize,
/// canonicalize, map to Cartesian coordinates, measure, sample in proportion
/// to length, deduplicate.  A path whose total arc length is zero has no
/// length shares to distribute and is rejected as degenerate.
pub open spec fn spec_convert(s: Seq<u8>, n: u32) -> Result<Seq<Pt>, PathError> {
    match spec_tokenize(s) {
        Err(e) => Err(e),
        Ok(toks) => match spec_canonicalize(toks) {
            Err(e) => Err(e),
            Ok(cmds) => {
                let cart = spec_to_cartesian(cmds);
                let total = spec_total_len(cart);
                if total == 0 {
                    Err(PathError::DegeneratePath)
                } else {
                    Ok(spec_dedup(spec_sample_all(cart, total, n)))
                }
            },
        },
    }
}

/// Convert one path description into its deduplicated sample points.
///
/// The input is the path text; `n` is the total sample budget for the whole
/// path.  On success the points come back in first-occurrence path order, in
/// fixed point ([`fixed::SCALE`] units per coordinate unit).  Each error
/// value names the first failure the scan meets, as [`spec_convert`] states.
pub fn convert_path(input: &[u8], n: u32) -> (r: Result<Vec<Pt>, PathError>)
    ensures
        r matches Ok(v) ==> spec_convert(input@, n) == Ok::<Seq<Pt>, PathError>(v@)
            && pts_bounded(v@),
        r matches Err(e) ==> spec_convert(input@, n) == Err::<Seq<Pt>, PathError>(e),
{
    let toks = match tokenize(input) {
        Ok(t) => t,
        Err(e) => { return Err(e); },
    };
    let cmds = match canonicalize(&toks) {
        Ok(c) => c,
        Err(e) => { return Err(e); },
    };
    let cart = to_cartesian(&cmds);
    let total: i128 = total_length(&cart);
    if total == 0 {
        return Err(PathError::DegeneratePath);
    }
    let samples = sample_all(&cart, total, n);
    let points = dedup_points(&samples);
    Ok(points)
}

} // verus!
