//! The command surface as the command line hands it over, and the rules
//! that turn an embed request into a concrete configuration.

use vstd::prelude::*;

use crate::settings::{OutputMode, Settings};

verus! {

/// The parsed top-level invocation.
pub struct Arguments {
    pub command: Option<Commands>,
}

/// The three operations: embed data into a video, download a video, or
/// extract data from a video.
pub enum Commands {
    Embed(EmbedParams),
    Download(DownloadParams),
    Dislodge(DislodgeParams),
}

/// A named bundle of embed parameters.
#[derive(Clone, Copy, PartialEq, Eq, Structural, Debug)]
pub enum EmbedPreset {
    /// Balanced compression resistance.
    Optimal,
    /// Maximum compression resistance.
    Paranoid,
    /// Fast encoding and small output.
    MaxEfficiency,
}

/// The packing mode as named on the command line.
#[derive(Clone, Copy, PartialEq, Eq, Structural, Debug)]
pub enum EmbedOutputMode {
    Colored,
    Binary,
}

impl From<EmbedOutputMode> for OutputMode {
    fn from(mode: EmbedOutputMode) -> (r: OutputMode) {
        match mode {
            EmbedOutputMode::Colored => OutputMode::Color,
            EmbedOutputMode::Binary => OutputMode::Binary,
        }
    }
}

impl vstd::std_specs::convert::FromSpecImpl<EmbedOutputMode> for OutputMode {
    open spec fn obeys_from_spec() -> bool {
        true
    }

    open spec fn from_spec(mode: EmbedOutputMode) -> OutputMode {
        match mode {
            EmbedOutputMode::Colored => OutputMode::Color,
            EmbedOutputMode::Binary => OutputMode::Binary,
        }
    }
}

/// Parameters of an embed request; absent fields fall back to preset or
/// default values.
pub struct EmbedParams {
    pub in_path: Option<String>,
    pub preset: Option<EmbedPreset>,
    pub mode: Option<EmbedOutputMode>,
    pub block_size: Option<i32>,
    pub threads: Option<usize>,
    pub fps: Option<i32>,
    pub resolution: Option<String>,
}

/// Parameters of a download request.
pub struct DownloadParams {
    pub url: Option<String>,
}

/// Parameters of a dislodge request.
pub struct DislodgeParams {
    pub in_path: Option<String>,
    pub out_path: Option<String>,
}

} // verus!
