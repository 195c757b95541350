use lsm::config::Config;
use lsm::lsm::config::LSMConfig;
use lsm::sstable::config::SSTableConfig;

#[test]
fn config_keeps_its_settings() {
    let c = Config::new("./data", true, 3);
    assert!(c.compression_enabled());
    assert_eq!(c.compression_level(), 3);
    assert_eq!(c.data_path(), "./data");
}

#[test]
fn lsm_config_keeps_its_settings() {
    let c = LSMConfig::new(1000, "db", SSTableConfig::new(false, -1));
    assert_eq!(c.mem_cap(), 1000);
    assert_eq!(c.data_path(), "db");
    assert!(!c.sstable_config().compression_enabled());
    assert_eq!(c.sstable_config().compression_level(), -1);
}
