//! The configuration record shared by an embed or dislodge run, and the
//! tagged payload it consumes.

use vstd::prelude::*;

verus! {

/// How payload units are packed into blocks: one bit per block (`Binary`,
/// black/white) or three bytes per block (`Color`, one per channel).
#[derive(Clone, Copy, PartialEq, Eq, Structural, Debug)]
pub enum OutputMode {
    Color,
    Binary,
}

/// A payload tagged with its packing mode. Exactly one of `bytes` (Color
/// mode) and `binary` (Binary mode) is populated; the other stays empty.
pub struct Data {
    pub bytes: Vec<u8>,
    pub binary: Vec<bool>,
    pub out_mode: OutputMode,
}

impl Data {
    /// An empty payload of the given mode.
    pub fn new_out_mode(out_mode: OutputMode) -> (r: Data)
        ensures
            r.bytes@ == Seq::<u8>::empty(),
            r.binary@ == Seq::<bool>::empty(),
            r.out_mode == out_mode,
    {
        Data { bytes: Vec::new(), binary: Vec::new(), out_mode }
    }

    /// A Binary-mode payload holding the given bit sequence.
    pub fn from_binary(binary: Vec<bool>) -> (r: Data)
        ensures
            r.bytes@ == Seq::<u8>::empty(),
            r.binary@ == binary@,
            r.out_mode == OutputMode::Binary,
    {
        Data { bytes: Vec::new(), binary, out_mode: OutputMode::Binary }
    }

    /// A Color-mode payload holding the given byte sequence.
    pub fn from_color(bytes: Vec<u8>) -> (r: Data)
        ensures
            r.bytes@ == bytes@,
            r.binary@ == Seq::<bool>::empty(),
            r.out_mode == OutputMode::Color,
    {
        Data { bytes, binary: Vec::new(), out_mode: OutputMode::Color }
    }

    /// The number of payload units carried: bits in Binary mode, bytes in
    /// Color mode.
    pub open spec fn unit_count(self) -> int {
        match self.out_mode {
            OutputMode::Binary => self.binary@.len() as int,
            OutputMode::Color => self.bytes@.len() as int,
        }
    }
}

/// The configuration of one embed or dislodge run: block size, worker count,
/// frame dimensions and the frame rate handed to the container writer.
///
/// The frame rate is carried as a whole number of frames per second; it only
/// rides along to the container writer and never enters the codec.
#[derive(Clone, Copy, PartialEq, Eq, Structural, Debug)]
pub struct Settings {
    pub size: i32,
    pub threads: usize,
    pub width: i32,
    pub fps: i32,
    pub height: i32,
}

impl Settings {
    pub fn new(size: i32, threads: usize, fps: i32, width: i32, height: i32) -> (r: Settings)
        ensures
            r == (Settings { size, threads, width, fps, height }),
    {
        Settings { size, threads, fps, width, height }
    }

    /// What every data-frame operation assumes of a configuration: a positive
    /// block size dividing both frame dimensions, at least one worker,
    /// dimensions bounded so that all pixel indexing stays well within
    /// machine range, and a frame large enough that the four essential
    /// instruction words (128 bits at block size 5) fit in frame zero.
    ///
    /// Frames between 128 and 159 header blocks truncate the fixed end
    /// marker; the header's sanity check then reports the marker as absent
    /// rather than mismatched. A floor of 160 blocks would keep the whole
    /// header, but would rule out configurations the codec is meant to
    /// serve, such as 64 x 64 frames, whose 144 header blocks carry all
    /// four essential words.
    pub open spec fn valid(self) -> bool {
        &&& 1 <= self.size
        &&& 1 <= self.threads
        &&& self.size <= self.width <= 16384
        &&& self.size <= self.height <= 16384
        &&& self.width % self.size == 0
        &&& self.height % self.size == 0
        &&& (self.width / 5) * (self.height / 5) >= 128
    }
}

} // verus!
