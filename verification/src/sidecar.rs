//! Index of a soundfont file kept beside it, so that presets and sample
//! locations can be read without parsing the whole file.
use vstd::prelude::*;

verus! {

/// The index of one soundfont file.
pub struct SidecarIndex {
    pub file_path: String,
    pub file_size: u64,
    /// Modification time, as a unix timestamp.
    pub file_mtime: u64,
    /// An optional hash of the file, for a stronger staleness check.
    pub file_hash: Option<String>,
    pub presets: Vec<IndexPreset>,
    pub samples: Vec<IndexSample>,
}

/// A preset of the soundfont.
pub struct IndexPreset {
    pub bank: u16,
    pub preset: u16,
    pub name: String,
    /// Indices into the index's samples.
    pub regions: Vec<usize>,
}

/// Where a sample lies in the soundfont file and how to read it.
pub struct IndexSample {
    pub id: usize,
    /// Byte offset in the file.
    pub offset: u64,
    /// Length in bytes.
    pub byte_len: u64,
    pub sample_rate: u32,
    pub bits: u16,
    pub channels: u8,
    pub loop_start: u64,
    pub loop_end: u64,
    pub root_key: i8,
}

} // verus!
