//! The configuration of each command, as plain values.  The surrounding
//! application parses its command line into these.

use vstd::prelude::*;

verus! {

/// Configuration of the crop run: where the position folders are, which
/// position to scan, the rectangle table, the output store, and whether to
/// record the background median.
pub struct CropArgs {
    pub input: String,
    pub pos: u32,
    pub bbox: String,
    pub output: String,
    pub background: bool,
}

/// Configuration of the conversion from an acquisition file to frame
/// images: the source file, the position and timepoint selections, the
/// output directory, and whether to skip confirmation.
pub struct ConvertArgs {
    pub input: String,
    pub pos: String,
    pub time: String,
    pub output: String,
    pub yes: bool,
}

/// Configuration of the per-crop intensity report.
pub struct ExpressionArgs {
    pub input: String,
    pub pos: u32,
    pub channel: u32,
    pub output: String,
}

/// Configuration of the cell-presence prediction over stored crops.
pub struct KillArgs {
    pub input: String,
    pub pos: u32,
    pub model: String,
    pub output: String,
    pub batch_size: usize,
    pub cpu: bool,
}

/// Configuration of the movie rendering of one crop.
pub struct MovieArgs {
    pub input: String,
    pub pos: u32,
    pub crop: u32,
    pub channel: u32,
    pub time: String,
    pub output: String,
    pub fps: u32,
    pub colormap: String,
    pub spots: Option<String>,
    pub ffmpeg: String,
}

/// Configuration of the spot detection over stored crops.
pub struct SpotArgs {
    pub input: String,
    pub pos: u32,
    pub channel: u32,
    pub output: String,
    pub crop: String,
    pub model: String,
    pub cpu: bool,
}

/// Configuration of the segmentation and per-cell analysis.
pub struct TissueArgs {
    pub input: String,
    pub pos: u32,
    pub channel_phase: u32,
    pub channel_fluorescence: u32,
    pub method: String,
    pub model: String,
    pub output: String,
    pub masks: Option<String>,
    pub batch_size: usize,
    pub cpu: bool,
}

} // verus!
