use vstd::prelude::*;
use crate::sstable::config::SSTableConfig;

verus! {

/// Settings of a tree: memtable capacity, data directory and table settings.
pub struct LSMConfig<'a> {
    mem_cap: u64,
    data_path: &'a str,
    sstable_config: SSTableConfig,
}

impl<'a> LSMConfig<'a> {
    /// The memtable capacity the configuration was made with.
    pub closed spec fn spec_mem_cap(&self) -> u64 {
        self.mem_cap
    }

    /// The data directory the configuration was made with.
    pub closed spec fn spec_data_path(&self) -> &'a str {
        self.data_path
    }

    /// The table settings the configuration was made with.
    pub closed spec fn spec_sstable_config(&self) -> SSTableConfig {
        self.sstable_config
    }

    pub fn new(mem_cap: u64, data_path: &'a str, sstable_config: SSTableConfig) -> (r: Self)
        ensures
            r.spec_mem_cap() == mem_cap,
            r.spec_data_path() == data_path,
            r.spec_sstable_config() == sstable_config,
    {
        Self { mem_cap, data_path, sstable_config }
    }

    pub fn data_path(&self) -> (r: &str)
        ensures
            r == self.spec_data_path(),
    {
        self.data_path
    }

    pub fn mem_cap(&self) -> (r: u64)
        ensures
            r == self.spec_mem_cap(),
    {
        self.mem_cap
    }

    pub fn sstable_config(&self) -> (r: &SSTableConfig)
        ensures
            *r == self.spec_sstable_config(),
    {
        &self.sstable_config
    }
}

} // verus!
