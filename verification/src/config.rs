//! Server configuration and its defaults.

use crate::utils::str_eq;
use vstd::prelude::*;

verus! {

/// The options the server recognises. The two options that hold a fraction,
/// the page cache size and the share of spillover readers to reap, are read
/// where the storage engine is opened and are not part of this record.
#[derive(Debug)]
pub struct Config {
    pub server_name: String,
    pub database_path: String,
    pub sqlite_read_pool_size: usize,
    pub sqlite_wal_clean_timer: bool,
    pub sqlite_wal_clean_second_interval: u32,
    pub sqlite_wal_clean_second_timeout: u32,
    pub sqlite_spillover_reap_interval_secs: u32,
    pub max_request_size: u32,
    pub max_concurrent_requests: u16,
    pub allow_registration: bool,
    pub allow_encryption: bool,
    pub allow_federation: bool,
    pub allow_jaeger: bool,
    pub tracing_flame: bool,
    pub jwt_secret: Option<String>,
    pub trusted_servers: Vec<String>,
    pub log: String,
    /// The keys that were given and are not recognised.
    pub catchall: Vec<String>,
}

/// The characters of each string of a list.
pub open spec fn strings_view(list: Seq<String>) -> Seq<Seq<char>> {
    list.map_values(|s: String| s@)
}

/// Whether a configuration key is still read but no longer wanted.
pub open spec fn is_deprecated_key(key: Seq<char>) -> bool {
    key == "cache_capacity"@
}

/// The test by which the deprecated keys are picked out of a list.
pub open spec fn deprecated_keys() -> spec_fn(Seq<char>) -> bool {
    |key: Seq<char>| is_deprecated_key(key)
}

impl Config {
    /// The configuration with the two required options as given and every
    /// other option at its default.
    pub fn new(server_name: String, database_path: String) -> (c: Config)
        ensures
            c.server_name == server_name,
            c.database_path == database_path,
            c.sqlite_read_pool_size >= 1,
            c.sqlite_wal_clean_timer,
            c.sqlite_wal_clean_second_interval == 3600,
            c.sqlite_wal_clean_second_timeout == 2,
            c.sqlite_spillover_reap_interval_secs == 60,
            c.max_request_size == 20 * 1024 * 1024,
            c.max_concurrent_requests == 100,
            c.allow_registration,
            c.allow_encryption,
            !c.allow_federation,
            !c.allow_jaeger,
            !c.tracing_flame,
            c.jwt_secret is None,
            c.trusted_servers@.len() == 0,
            c.log@ == "info,state_res=warn,rocket=off,_=off,sled=off"@,
            c.catchall@.len() == 0,
    {
        Config {
            server_name,
            database_path,
            sqlite_read_pool_size: default_sqlite_read_pool_size(),
            sqlite_wal_clean_timer: true_fn(),
            sqlite_wal_clean_second_interval: default_sqlite_wal_clean_second_interval(),
            sqlite_wal_clean_second_timeout: default_sqlite_wal_clean_second_timeout(),
            sqlite_spillover_reap_interval_secs: default_sqlite_spillover_reap_interval_secs(),
            max_request_size: default_max_request_size(),
            max_concurrent_requests: default_max_concurrent_requests(),
            allow_registration: true_fn(),
            allow_encryption: true_fn(),
            allow_federation: false_fn(),
            allow_jaeger: false_fn(),
            tracing_flame: false_fn(),
            jwt_secret: None,
            trusted_servers: Vec::new(),
            log: default_log(),
            catchall: Vec::new(),
        }
    }

    /// The unrecognised keys that are deprecated, in the order given: one
    /// warning is due for each.
    pub fn warn_deprecated(&self) -> (r: Vec<String>)
        ensures
            strings_view(r@) == strings_view(self.catchall@).filter(deprecated_keys()),
    {
        let mut out: Vec<String> = Vec::new();
        let mut i: usize = 0;
        let ghost keys = strings_view(self.catchall@);
        let ghost deprecated = deprecated_keys();
        proof {
            reveal(Seq::filter);
            assert(keys.take(0) =~= Seq::empty());
            assert(strings_view(out@) =~= Seq::empty());
        }
        while i < self.catchall.len()
            invariant
                i <= self.catchall@.len(),
                keys == strings_view(self.catchall@),
                deprecated == deprecated_keys(),
                strings_view(out@) == keys.take(i as int).filter(deprecated),
            decreases self.catchall@.len() - i,
        {
            let ghost out_before = out@;
            let hit = str_eq(self.catchall[i].as_str(), "cache_capacity");
            if hit {
                out.push(self.catchall[i].clone());
            }
            proof {
                reveal(Seq::filter);
                assert(keys.take(i + 1).drop_last() =~= keys.take(i as int));
                assert(keys.take(i + 1).last() == self.catchall@[i as int]@);
                if hit {
                    assert(strings_view(out@) =~= strings_view(out_before).push(
                        self.catchall@[i as int]@,
                    ));
                }
            }
            i = i + 1;
        }
        assert(keys.take(i as int) =~= keys);
        out
    }

    /// Whether the request size limit is below one kibibyte, which calls for
    /// a notice at startup.
    pub fn max_request_size_is_small(&self) -> (r: bool)
        ensures
            r == (self.max_request_size < 1024),
    {
        self.max_request_size < 1024
    }
}

/// Default for switches that are off unless configured.
pub fn false_fn() -> (r: bool)
    ensures
        !r,
{
    false
}

/// Default for switches that are on unless configured.
pub fn true_fn() -> (r: bool)
    ensures
        r,
{
    true
}

/// The number of logical processors, as the `num_cpus` crate reports it.
/// Trusted: nothing is claimed of the number.
#[verifier::external_body]
fn cpu_count() -> usize {
    num_cpus::get()
}

/// The number of reader connections on a machine with `processors` logical
/// processors: one for each, and at least one.
pub fn read_pool_size_for(processors: usize) -> (r: usize)
    ensures
        r == if processors < 1 {
            1usize
        } else {
            processors
        },
{
    if processors < 1 {
        1
    } else {
        processors
    }
}

/// One reader connection per processor, and at least one. How many
/// processors there are is the machine's to say: [`read_pool_size_for`]
/// gives the size for each number of them.
pub fn default_sqlite_read_pool_size() -> (r: usize)
    ensures
        r >= 1,
{
    read_pool_size_for(cpu_count())
}

/// The write-ahead log is truncated once an hour.
pub fn default_sqlite_wal_clean_second_interval() -> (r: u32)
    ensures
        r == 3600,
{
    60 * 60
}

/// Truncation waits two seconds for the exclusive lock.
pub fn default_sqlite_wal_clean_second_timeout() -> (r: u32)
    ensures
        r == 2,
{
    2
}

/// Spillover readers are reaped once a minute.
pub fn default_sqlite_spillover_reap_interval_secs() -> (r: u32)
    ensures
        r == 60,
{
    60
}

/// Requests may be up to 20 MiB long.
pub fn default_max_request_size() -> (r: u32)
    ensures
        r == 20 * 1024 * 1024,
{
    20 * 1024 * 1024
}

/// A hundred requests may be in flight at once.
pub fn default_max_concurrent_requests() -> (r: u16)
    ensures
        r == 100,
{
    100
}

/// The default log filter.
pub fn default_log() -> (r: String)
    ensures
        r@ == "info,state_res=warn,rocket=off,_=off,sled=off"@,
{
    "info,state_res=warn,rocket=off,_=off,sled=off".to_owned()
}

} // verus!
