use vstd::prelude::*;

verus! {

/// Compression settings of a sorted string table.
pub struct SSTableConfig {
    pub compression_enabled: bool,
    pub compression_level: i32,
}

impl SSTableConfig {
    pub fn new(compression_enabled: bool, compression_level: i32) -> (r: Self)
        ensures
            r.compression_enabled == compression_enabled,
            r.compression_level == compression_level,
    {
        Self { compression_enabled, compression_level }
    }

    pub fn compression_enabled(&self) -> (r: bool)
        ensures
            r == self.compression_enabled,
    {
        self.compression_enabled
    }

    pub fn compression_level(&self) -> (r: i32)
        ensures
            r == self.compression_level,
    {
        self.compression_level
    }
}

} // verus!
