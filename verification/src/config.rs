use vstd::prelude::*;

verus! {

/// Storage settings: whether blocks are compressed, at which level, and where
/// the data lives.
pub struct Config<'a> {
    compression_enabled: bool,
    compression_level: i32,
    data_path: &'a str,
}

impl<'a> Config<'a> {
    pub fn new(data_path: &'a str, compression_enabled: bool, compression_level: i32) -> (r: Self)
        ensures
            r.spec_compression_enabled() == compression_enabled,
            r.spec_compression_level() == compression_level,
            r.spec_data_path() == data_path,
    {
        Self { compression_enabled, compression_level, data_path }
    }

    /// Whether compression is switched on.
    pub closed spec fn spec_compression_enabled(&self) -> bool {
        self.compression_enabled
    }

    /// The compression level.
    pub closed spec fn spec_compression_level(&self) -> i32 {
        self.compression_level
    }

    /// The data directory.
    pub closed spec fn spec_data_path(&self) -> &'a str {
        self.data_path
    }

    pub fn compression_enabled(&self) -> (r: bool)
        ensures
            r == self.spec_compression_enabled(),
    {
        self.compression_enabled
    }

    pub fn compression_level(&self) -> (r: i32)
        ensures
            r == self.spec_compression_level(),
    {
        self.compression_level
    }

    pub fn data_path(&self) -> (r: &str)
        ensures
            r == self.spec_data_path(),
    {
        self.data_path
    }
}

} // verus!
