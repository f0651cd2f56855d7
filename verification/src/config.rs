//! Store configuration: where the log lives and how large one segment may
//! grow. Reading overrides from the environment is the application's job;
//! the library only coalesces the values it is handed with the defaults.

use vstd::prelude::*;

verus! {

/// Configuration of one store instance.
pub struct StoreConfig {
    pub log_dir: String,
    pub max_log_file_size: u64,
}

impl Default for StoreConfig {
    fn default() -> (r: Self)
        ensures
            r.log_dir@ == "/tmp/bitcask/"@,
            r.max_log_file_size == 2_000_000_000u64,
    {
        StoreConfig { log_dir: "/tmp/bitcask/".to_owned(), max_log_file_size: 2_000_000_000 }
    }
}

/// Coalesce explicit overrides with the defaults.
pub fn get_store_config(log_dir: Option<String>, max_log_file_size: Option<u64>) -> (r:
    StoreConfig)
    ensures
        match log_dir {
            Some(d) => r.log_dir == d,
            None => r.log_dir@ == "/tmp/bitcask/"@,
        },
        match max_log_file_size {
            Some(m) => r.max_log_file_size == m,
            None => r.max_log_file_size == 2_000_000_000u64,
        },
{
    let dir = match log_dir {
        Some(d) => d,
        None => "/tmp/bitcask/".to_owned(),
    };
    let max = match max_log_file_size {
        Some(m) => m,
        None => 2_000_000_000,
    };
    StoreConfig { log_dir: dir, max_log_file_size: max }
}

} // verus!
