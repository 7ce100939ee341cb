use conduit::config::{
    default_log, default_max_concurrent_requests, default_max_request_size,
    default_sqlite_read_pool_size, default_sqlite_spillover_reap_interval_secs,
    default_sqlite_wal_clean_second_interval, default_sqlite_wal_clean_second_timeout, false_fn,
    read_pool_size_for, true_fn, Config,
};
use conduit::database::check_sled_or_sqlite_db;
use conduit::error::Error;
use conduit::globals::{generate_keypair, split_keypair, Globals, RotationHandler};
use conduit::tree::Tree;

fn config() -> Config {
    Config::new("example.org".to_owned(), "/var/lib/conduit".to_owned())
}

fn globals() -> Globals {
    let (globals, outcome) = Globals::load(Tree::new(), Tree::new(), config());
    outcome.unwrap();
    globals
}

#[test]
fn defaults_are_as_documented() {
    assert!(!false_fn());
    assert!(true_fn());
    assert!(default_sqlite_read_pool_size() >= 1);
    assert_eq!(default_sqlite_wal_clean_second_interval(), 3600);
    assert_eq!(default_sqlite_wal_clean_second_timeout(), 2);
    assert_eq!(default_sqlite_spillover_reap_interval_secs(), 60);
    assert_eq!(default_max_request_size(), 20 * 1024 * 1024);
    assert_eq!(default_max_concurrent_requests(), 100);
    assert_eq!(default_log(), "info,state_res=warn,rocket=off,_=off,sled=off");
}

#[test]
fn a_new_config_has_the_defaults() {
    let config = config();
    assert_eq!(config.server_name, "example.org");
    assert_eq!(config.database_path, "/var/lib/conduit");
    assert!(config.sqlite_wal_clean_timer);
    assert!(config.allow_registration);
    assert!(config.allow_encryption);
    assert!(!config.allow_federation);
    assert!(!config.allow_jaeger);
    assert!(!config.tracing_flame);
    assert_eq!(config.max_request_size, 20 * 1024 * 1024);
    assert_eq!(config.max_concurrent_requests, 100);
    assert_eq!(config.jwt_secret, None);
    assert!(config.trusted_servers.is_empty());
    assert!(!config.max_request_size_is_small());
}

#[test]
fn a_small_request_size_is_noticed() {
    let mut config = config();
    config.max_request_size = 1023;
    assert!(config.max_request_size_is_small());
    config.max_request_size = 1024;
    assert!(!config.max_request_size_is_small());
}

#[test]
fn deprecated_keys_are_found() {
    let mut config = config();
    assert!(config.warn_deprecated().is_empty());
    config.catchall = vec![
        "unknown".to_owned(),
        "cache_capacity".to_owned(),
        "other".to_owned(),
    ];
    assert_eq!(config.warn_deprecated(), vec!["cache_capacity".to_owned()]);
}

#[test]
fn an_old_database_alone_is_refused() {
    assert!(matches!(check_sled_or_sqlite_db(false, false), Ok(false)));
    assert!(matches!(check_sled_or_sqlite_db(false, true), Ok(false)));
    assert!(matches!(check_sled_or_sqlite_db(true, true), Ok(true)));
    match check_sled_or_sqlite_db(true, false) {
        Err(Error::BadConfig(message)) => {
            assert_eq!(message, "sled database detected, migrate to sqlite")
        }
        _ => panic!("an old database was accepted"),
    }
}

#[test]
fn the_counter_grows_by_one() {
    let mut globals = globals();
    assert_eq!(globals.current_count().unwrap(), 0);
    let mut last = 0;
    for expected in 1..=20_u64 {
        let count = globals.next_count().unwrap();
        assert_eq!(count, expected);
        assert!(count > last);
        last = count;
        assert_eq!(globals.current_count().unwrap(), expected);
    }
    assert_eq!(globals.globals.get(b"c"), Some(20_u64.to_be_bytes().to_vec()));
}

#[test]
fn an_unreadable_counter_is_reported() {
    let mut globals = globals();
    globals.globals.insert(b"c", &[1, 2, 3]);
    match globals.current_count() {
        Err(Error::BadDatabase(message)) => assert_eq!(message, "Count has invalid bytes."),
        _ => panic!("an unreadable counter was read"),
    }
    match globals.next_count() {
        Err(Error::BadDatabase(message)) => assert_eq!(message, "Count has invalid bytes."),
        _ => panic!("an unreadable counter was counted on"),
    }
    assert_eq!(globals.globals.get(b"c"), Some(vec![1, 2, 3]));
    assert!(!globals.counter_is_readable());
}

#[test]
fn the_version_is_zero_until_it_is_bumped() {
    let mut globals = globals();
    assert_eq!(globals.database_version().unwrap(), 0);
    globals.bump_database_version(3);
    assert_eq!(globals.database_version().unwrap(), 3);
    assert_eq!(globals.globals.get(b"version"), Some(3_u64.to_be_bytes().to_vec()));
    globals.globals.insert(b"version", b"seven");
    match globals.database_version() {
        Err(Error::BadDatabase(message)) => {
            assert_eq!(message, "Database version id is invalid.")
        }
        _ => panic!("an unreadable version was read"),
    }
}

#[test]
fn a_key_pair_is_made_and_kept() {
    let (first, outcome) = Globals::load(Tree::new(), Tree::new(), config());
    outcome.unwrap();
    assert!(first.keypair().is_some());
    let stored = first.globals.get(b"keypair").unwrap();
    let separator = stored.iter().position(|&b| b == 0xff).unwrap();
    assert_eq!(separator, 8);
    assert!(stored[..8].iter().all(|b| b.is_ascii_alphanumeric()));
    let (second, outcome) = Globals::load(first.globals, Tree::new(), config());
    outcome.unwrap();
    assert_eq!(second.globals.get(b"keypair"), Some(stored));
    assert_eq!(
        second.keypair().unwrap().public_key(),
        first.keypair.unwrap().public_key()
    );
}

#[test]
fn a_broken_key_pair_is_deleted() {
    let mut tree = Tree::new();
    tree.insert(b"keypair", b"version\xffnot a key");
    tree.insert(b"c", &4_u64.to_be_bytes());
    let (globals, outcome) = Globals::load(tree, Tree::new(), config());
    match outcome {
        Err(Error::BadDatabase(message)) => {
            assert_eq!(message, "Private or public keys are invalid.")
        }
        _ => panic!("a broken key pair was loaded"),
    }
    assert!(globals.keypair().is_none());
    assert_eq!(globals.globals.get(b"keypair"), None);
    assert_eq!(globals.globals.get(b"c"), Some(4_u64.to_be_bytes().to_vec()));
}

#[test]
fn key_pair_bytes_are_split_at_the_first_separator() {
    let (version, document) = split_keypair(b"abc\xff\x01\xff\x02").unwrap();
    assert_eq!(version, "abc");
    assert_eq!(document, vec![1, 0xff, 2]);
    match split_keypair(b"no separator") {
        Err(Error::BadDatabase(message)) => {
            assert_eq!(message, "Invalid keypair format in database.")
        }
        _ => panic!("key pair bytes without a document were split"),
    }
    match split_keypair(b"\xfe\xffdocument") {
        Err(Error::BadDatabase(message)) => {
            assert_eq!(message, "Invalid version bytes in keypair.")
        }
        _ => panic!("key pair bytes with a broken version were split"),
    }
}

#[test]
fn generate_keypair_keeps_what_is_there() {
    assert_eq!(generate_keypair(Some(b"kept")), Some(b"kept".to_vec()));
    let fresh = generate_keypair(None).unwrap();
    assert_eq!(fresh[8], 0xff);
    assert!(fresh.len() > 9);
}

#[test]
fn outdated_signing_keys_are_pruned() {
    let mut globals = globals();
    globals.add_signing_key_at(100, "remote.org", 1_000, b"{\"old\":1}").unwrap();
    globals.add_signing_key_at(100, "remote.org", 2_000, b"{\"new\":1}").unwrap();
    assert_eq!(globals.servertimeout_signingkey.len(), 2);
    assert_eq!(
        globals.signing_keys_for_at(500, "remote.org").unwrap(),
        Some(b"{\"old\":1}".to_vec())
    );
    assert_eq!(
        globals.signing_keys_for_at(1_000, "remote.org").unwrap(),
        Some(b"{\"new\":1}".to_vec())
    );
    assert_eq!(globals.signing_keys_for_at(2_000, "remote.org").unwrap(), None);
    assert_eq!(globals.signing_keys_for_at(0, "other.org").unwrap(), None);
    globals.add_signing_key_at(1_500, "remote.org", 3_000, b"{}").unwrap();
    let mut key = b"remote.org\xff".to_vec();
    key.extend_from_slice(&1_000_u64.to_be_bytes());
    assert_eq!(globals.servertimeout_signingkey.get(&key), None);
    assert_eq!(globals.servertimeout_signingkey.len(), 2);
}

#[test]
fn an_unreadable_signing_key_row_is_reported() {
    let mut globals = globals();
    globals.servertimeout_signingkey.insert(b"remote.org\xffshort", b"{}");
    match globals.signing_keys_for_at(0, "remote.org") {
        Err(Error::BadDatabase(message)) => {
            assert_eq!(message, "Invalid signing key valid until bytes")
        }
        _ => panic!("an unreadable row was read"),
    }
    match globals.add_signing_key_at(0, "remote.org", 5, b"{}") {
        Err(Error::BadDatabase(message)) => {
            assert_eq!(message, "Invalid signing key valid until bytes")
        }
        _ => panic!("an unreadable row was pruned"),
    }
}

#[test]
fn signing_keys_of_another_server_are_not_found() {
    let mut globals = globals();
    globals.add_signing_key_at(0, "a.org.evil", 100, b"{\"evil\":1}").unwrap();
    assert_eq!(globals.signing_keys_for_at(0, "a.org").unwrap(), None);
    assert_eq!(
        globals.signing_keys_for_at(0, "a.org.evil").unwrap(),
        Some(b"{\"evil\":1}".to_vec())
    );
    // Pruning the keys of one server leaves those of the other.
    globals.add_signing_key_at(200, "a.org", 300, b"{\"good\":1}").unwrap();
    assert_eq!(globals.servertimeout_signingkey.len(), 2);
    assert_eq!(globals.signing_keys_for_at(200, "a.org").unwrap(), Some(b"{\"good\":1}".to_vec()));
}

#[test]
fn signing_keys_follow_the_clock() {
    let mut globals = globals();
    globals.add_signing_key("remote.org", u64::MAX, b"{\"k\":1}").unwrap();
    assert_eq!(globals.signing_keys_for("remote.org").unwrap(), Some(b"{\"k\":1}".to_vec()));
    globals.add_signing_key("gone.org", 1, b"{}").unwrap();
    assert_eq!(globals.signing_keys_for("gone.org").unwrap(), None);
}

#[test]
fn media_files_are_named_in_hex() {
    let globals = globals();
    assert_eq!(globals.get_media_file(&[0x00, 0x0f, 0xa5, 0xff]), "000fa5ff");
    assert_eq!(globals.get_media_file(b""), "");
}

#[test]
fn the_rotate_signal_releases_every_waiter() {
    let mut rotate = RotationHandler::new();
    rotate.watch(3);
    rotate.watch(4);
    let mut woken = rotate.fire();
    woken.sort();
    assert_eq!(woken, vec![3, 4]);
    assert_eq!(rotate.fire(), Vec::<u64>::new());
}

#[test]
fn globals_hand_out_the_configuration() {
    let globals = globals();
    assert_eq!(globals.server_name(), "example.org");
    assert_eq!(globals.max_request_size(), 20 * 1024 * 1024);
    assert!(globals.allow_registration());
    assert!(globals.allow_encryption());
    assert!(!globals.allow_federation());
}

#[test]
fn the_read_pool_has_a_reader_for_each_processor() {
    assert_eq!(read_pool_size_for(0), 1);
    assert_eq!(read_pool_size_for(1), 1);
    assert_eq!(read_pool_size_for(8), 8);
    assert_eq!(read_pool_size_for(usize::MAX), usize::MAX);
    assert_eq!(default_sqlite_read_pool_size(), read_pool_size_for(num_cpus::get()));
}
