//! Server-wide state: the counter, the schema version, the signing key pair,
//! the cache of remote signing keys and the rotate signal.

use crate::config::Config;
use crate::error::Error;
use crate::tree::{keys_of, listing, remove_all, rows_of, with_prefix, Tree, Watch};
use crate::utils::{
    after_first_field, after_first_field_of, append, be_bytes, be_value, first_field,
    first_field_of, incremented, is_random_string, lemma_be_bytes_len, lemma_be_value_of_bytes,
    lemma_pow256_values, millis_since_unix_epoch, random_string, string_from_bytes, to_vec,
    u64_from_bytes, u64_to_be_bytes, SEPARATOR,
};
use ruma::signatures::Ed25519KeyPair;
use vstd::prelude::*;
use vstd::utf8::*;

verus! {

/// The key of the counter in the tree `global`: the letter `c`.
pub open spec fn counter_key() -> Seq<u8> {
    seq![0x63u8]
}

/// The key of the schema version in the tree `global`: the word `version`.
pub open spec fn version_key() -> Seq<u8> {
    seq![0x76u8, 0x65u8, 0x72u8, 0x73u8, 0x69u8, 0x6fu8, 0x6eu8]
}

/// The key of the signing key pair in the tree `global`: the word `keypair`.
pub open spec fn keypair_key() -> Seq<u8> {
    seq![0x6bu8, 0x65u8, 0x79u8, 0x70u8, 0x61u8, 0x69u8, 0x72u8]
}

fn counter_key_bytes() -> (r: Vec<u8>)
    ensures
        r@ == counter_key(),
{
    let r: Vec<u8> = vec![0x63u8];
    assert(r@ =~= counter_key());
    r
}

fn version_key_bytes() -> (r: Vec<u8>)
    ensures
        r@ == version_key(),
{
    let r: Vec<u8> = vec![0x76u8, 0x65u8, 0x72u8, 0x73u8, 0x69u8, 0x6fu8, 0x6eu8];
    assert(r@ =~= version_key());
    r
}

fn keypair_key_bytes() -> (r: Vec<u8>)
    ensures
        r@ == keypair_key(),
{
    let r: Vec<u8> = vec![0x6bu8, 0x65u8, 0x79u8, 0x70u8, 0x61u8, 0x69u8, 0x72u8];
    assert(r@ =~= keypair_key());
    r
}

#[verifier::external_type_specification]
#[verifier::external_body]
pub struct ExEd25519KeyPair(Ed25519KeyPair);

#[verifier::external_type_specification]
#[verifier::external_body]
pub struct ExEd25519KeyPairParseError(ruma::signatures::Ed25519KeyPairParseError);

/// `Ed25519KeyPair::generate` of ruma's signatures: a freshly drawn key pair
/// as a PKCS#8 document. Trusted: nothing is claimed of the bytes. The call
/// panics where the system's random number generator fails.
#[verifier::external_body]
fn generate_key_document() -> Vec<u8> {
    Ed25519KeyPair::generate().to_vec()
}

/// Whether ruma's signatures read a key pair out of the PKCS#8 document,
/// under the given version.
pub uninterp spec fn keypair_accepted(document: Seq<u8>, version: Seq<char>) -> bool;

/// `Ed25519KeyPair::from_der` of ruma's signatures. Trusted: whether the
/// document is accepted depends on the document and the version alone;
/// nothing is claimed of which documents are.
#[verifier::external_body]
fn keypair_from_der(document: &[u8], version: String) -> (r: Result<
    Ed25519KeyPair,
    ruma::signatures::Ed25519KeyPairParseError,
>)
    ensures
        r is Ok == keypair_accepted(document@, version@),
{
    Ed25519KeyPair::from_der(document, version)
}

/// Whether stored key pair bytes hold a key pair that can be loaded: they
/// can be split, and the document is accepted under its version.
pub open spec fn keypair_loads(bytes: Seq<u8>) -> Result<(), Error> {
    match keypair_fault(bytes) {
        Some(e) => Err(e),
        None => if keypair_accepted(
            after_first_field(bytes)->Some_0,
            decode_utf8(first_field(bytes)),
        ) {
            Ok(())
        } else {
            Err(Error::BadDatabase("Private or public keys are invalid."))
        },
    }
}

/// What is stored for a key pair: its version, a separator, and its PKCS#8
/// document.
pub open spec fn keypair_bytes(version: Seq<char>, document: Seq<u8>) -> Seq<u8> {
    encode_utf8(version).push(SEPARATOR) + document
}

/// Keeps the stored key pair, or makes the bytes of a new one under a random
/// version of eight characters.
pub fn generate_keypair(old_value: Option<&[u8]>) -> (r: Option<Vec<u8>>)
    ensures
        r is Some,
        match old_value {
            Some(bytes) => r->Some_0@ == bytes@,
            None => exists|version: Seq<char>, document: Seq<u8>|
                is_random_string(version, 8) && r->Some_0@ == keypair_bytes(version, document),
        },
{
    match old_value {
        Some(bytes) => Some(to_vec(bytes)),
        None => {
            let version = random_string(8);
            let document = generate_key_document();
            let mut value: Vec<u8> = Vec::new();
            append(&mut value, version.as_str().as_bytes());
            value.push(SEPARATOR);
            append(&mut value, document.as_slice());
            assert(value@ =~= keypair_bytes(version@, document@));
            Some(value)
        },
    }
}

/// Why stored key pair bytes cannot be read, if they cannot: the version
/// before the first separator must be UTF-8, and a document must follow.
pub open spec fn keypair_fault(bytes: Seq<u8>) -> Option<Error> {
    if !valid_utf8(first_field(bytes)) {
        Some(Error::BadDatabase("Invalid version bytes in keypair."))
    } else if after_first_field(bytes) is None {
        Some(Error::BadDatabase("Invalid keypair format in database."))
    } else {
        None
    }
}

/// Splits stored key pair bytes into the version and the document.
pub fn split_keypair(bytes: &[u8]) -> (r: Result<(String, Vec<u8>), Error>)
    ensures
        match r {
            Ok(parts) => keypair_fault(bytes@) is None && parts.0@ == decode_utf8(
                first_field(bytes@),
            ) && Some(parts.1@) == after_first_field(bytes@),
            Err(e) => keypair_fault(bytes@) == Some(e),
        },
{
    let version = match string_from_bytes(first_field_of(bytes).as_slice()) {
        Ok(version) => version,
        Err(_) => {
            return Err(Error::bad_database("Invalid version bytes in keypair."));
        },
    };
    match after_first_field_of(bytes) {
        Some(document) => Ok((version, document)),
        None => Err(Error::bad_database("Invalid keypair format in database.")),
    }
}

/// The hexadecimal digit of a number below sixteen.
pub open spec fn hex_digit(n: u8) -> char {
    if n < 10 {
        ((0x30 + n) as u8) as char
    } else {
        ((0x61 + (n - 10)) as u8) as char
    }
}

/// The bytes in lower-case hexadecimal digits, two for each byte.
pub open spec fn hex(bytes: Seq<u8>) -> Seq<char>
    decreases bytes.len(),
{
    if bytes.len() == 0 {
        Seq::empty()
    } else {
        hex(bytes.drop_last()).push(hex_digit(bytes.last() / 16)).push(hex_digit(bytes.last() % 16))
    }
}

/// The hexadecimal digit of a number below sixteen.
fn hex_digit_of(n: u8) -> (r: char)
    requires
        n < 16,
    ensures
        r == hex_digit(n),
{
    if n < 10 {
        (0x30u8 + n) as char
    } else {
        (0x61u8 + (n - 10)) as char
    }
}

/// The waiters on the global rotate signal, which releases every long poll
/// at once.
pub struct RotationHandler {
    waiting: Vec<u64>,
}

impl RotationHandler {
    /// Who waits for the signal.
    pub closed spec fn waiting(&self) -> Set<u64> {
        self.waiting@.to_set()
    }

    /// A signal that nobody waits for.
    pub fn new() -> (r: RotationHandler)
        ensures
            r.waiting() == Set::<u64>::empty(),
    {
        let r = RotationHandler { waiting: Vec::new() };
        assert(r.waiting() =~= Set::<u64>::empty());
        r
    }

    /// Registers `waiter` for the next signal.
    pub fn watch(&mut self, waiter: u64)
        ensures
            final(self).waiting() == old(self).waiting().insert(waiter),
    {
        let ghost before = self.waiting@;
        self.waiting.push(waiter);
        assert forall|id: u64|
            self.waiting@.contains(id) == before.to_set().insert(waiter).contains(id) by {
            crate::tree::lemma_push_contains(before, waiter, id);
        }
        assert(self.waiting() =~= old(self).waiting().insert(waiter));
    }

    /// Gives the signal: every waiter is handed out to be woken, and none
    /// is left.
    pub fn fire(&mut self) -> (r: Vec<u64>)
        ensures
            r@.to_set() == old(self).waiting(),
            final(self).waiting() == Set::<u64>::empty(),
    {
        let mut out: Vec<u64> = Vec::new();
        std::mem::swap(&mut out, &mut self.waiting);
        assert(self.waiting() =~= Set::<u64>::empty());
        out
    }
}

/// Server-wide state.
pub struct Globals {
    /// The tree `global`.
    pub globals: Tree,
    /// The configuration the server was started with.
    pub config: Config,
    /// The key pair this server signs with, once it was loaded.
    pub keypair: Option<Ed25519KeyPair>,
    /// ServerName + valid-until -> the server's verify keys
    pub servertimeout_signingkey: Tree,
    /// The signal that releases every long poll.
    pub rotate: RotationHandler,
}

/// The number stored under `key`, if eight bytes are stored there.
pub open spec fn stored_number(m: Map<Seq<u8>, Seq<u8>>, key: Seq<u8>) -> Option<nat> {
    if m.contains_key(key) && m[key].len() == 8 {
        Some(be_value(m[key]))
    } else {
        None
    }
}

/// The value of the counter; zero before it was first incremented.
pub open spec fn count_of(m: Map<Seq<u8>, Seq<u8>>) -> nat {
    match stored_number(m, counter_key()) {
        Some(n) => n,
        None => 0,
    }
}

/// The counter can be read: nothing is stored for it yet, or eight bytes.
pub open spec fn counter_readable(m: Map<Seq<u8>, Seq<u8>>) -> bool {
    m.contains_key(counter_key()) ==> m[counter_key()].len() == 8
}

/// The error for a counter that cannot be read.
pub open spec fn count_fault() -> Error {
    Error::BadDatabase("Count has invalid bytes.")
}

/// The call failed because the counter cannot be read.
pub open spec fn is_count_fault<T>(r: Result<T, Error>) -> bool {
    match r {
        Ok(_) => false,
        Err(e) => e == count_fault(),
    }
}

/// The table `global` after the counter was incremented `n` times.
pub open spec fn counted(m: Map<Seq<u8>, Seq<u8>>, n: nat) -> Map<Seq<u8>, Seq<u8>>
    decreases n,
{
    if n == 0 {
        m
    } else {
        let before = counted(m, (n - 1) as nat);
        before.insert(counter_key(), be_bytes(count_of(before) + 1, 8))
    }
}

/// The counts that are handed out grow strictly: the `n`-th increment
/// returns the count at the start and `n`, so of two increments the later
/// one returns the greater count, as long as the counter is not exhausted.
pub proof fn lemma_counts_grow(m: Map<Seq<u8>, Seq<u8>>, earlier: nat, later: nat)
    requires
        earlier < later,
        count_of(m) + later <= u64::MAX,
    ensures
        count_of(counted(m, earlier)) == count_of(m) + earlier,
        count_of(counted(m, later)) == count_of(m) + later,
        count_of(counted(m, earlier)) < count_of(counted(m, later)),
    decreases later,
{
    if earlier > 0 {
        lemma_counts_grow(m, (earlier - 1) as nat, earlier);
    }
    if later - 1 > earlier {
        lemma_counts_grow(m, earlier, (later - 1) as nat);
    }
    let before = counted(m, (later - 1) as nat);
    assert(count_of(before) == count_of(m) + later - 1);
    lemma_be_bytes_len(count_of(before) + 1, 8);
    lemma_pow256_values();
    lemma_be_value_of_bytes(count_of(before) + 1, 8);
}

/// The valid-until time in a key of the signing key cache: eight bytes
/// after the key's first separator.
pub open spec fn valid_until_of(key: Seq<u8>) -> Result<u64, Error> {
    match after_first_field(key) {
        None => Err(Error::BadDatabase("Invalid signing keys.")),
        Some(bytes) => if bytes.len() == 8 {
            Ok(be_value(bytes) as u64)
        } else {
            Err(Error::BadDatabase("Invalid signing key valid until bytes"))
        },
    }
}

/// The key of a server's verify keys that are valid until `valid_until_ts`.
pub open spec fn signing_key_key(origin: Seq<u8>, valid_until_ts: u64) -> Seq<u8> {
    origin.push(SEPARATOR) + be_bytes(valid_until_ts as nat, 8)
}

/// What pruning finds when it walks the rows of a server: the keys whose
/// time has passed, up to the first key that cannot be read, and the error
/// for that key.
pub open spec fn outdated(rows: Seq<(Seq<u8>, Seq<u8>)>, now: u64) -> (Seq<Seq<u8>>, Option<Error>)
    decreases rows.len(),
{
    if rows.len() == 0 {
        (Seq::empty(), None)
    } else {
        let before = outdated(rows.drop_last(), now);
        if before.1 is Some {
            before
        } else {
            match valid_until_of(rows.last().0) {
                Err(e) => (before.0, Some(e)),
                Ok(valid_until) => if now > valid_until {
                    (before.0.push(rows.last().0), None)
                } else {
                    before
                },
            }
        }
    }
}

/// What a look-up finds when it walks the rows of a server: the value of the
/// first row that is still valid, unless a row before it cannot be read.
pub open spec fn still_valid(rows: Seq<(Seq<u8>, Seq<u8>)>, now: u64) -> Result<
    Option<Seq<u8>>,
    Error,
>
    decreases rows.len(),
{
    if rows.len() == 0 {
        Ok(None)
    } else {
        match still_valid(rows.drop_last(), now) {
            Err(e) => Err(e),
            Ok(Some(found)) => Ok(Some(found)),
            Ok(None) => match valid_until_of(rows.last().0) {
                Err(e) => Err(e),
                Ok(valid_until) => if valid_until > now {
                    Ok(Some(rows.last().1))
                } else {
                    Ok(None)
                },
            },
        }
    }
}

/// The signing key cache after the keys of `origin` were pruned at `now` and
/// new keys were to be stored, and the error that stopped it, if any.
pub open spec fn signing_key_outcome(
    cache: Map<Seq<u8>, Seq<u8>>,
    now: u64,
    origin: Seq<u8>,
    valid_until_ts: u64,
    verify_keys: Seq<u8>,
) -> (Map<Seq<u8>, Seq<u8>>, Option<Error>) {
    let found = outdated(listing(cache, with_prefix(origin.push(SEPARATOR))), now);
    match found.1 {
        Some(e) => (remove_all(cache, found.0), Some(e)),
        None => (
            remove_all(cache, found.0).insert(signing_key_key(origin, valid_until_ts), verify_keys),
            None,
        ),
    }
}

/// The verify keys of `origin` that a look-up at `now` finds.
pub open spec fn valid_keys_at(cache: Map<Seq<u8>, Seq<u8>>, now: u64, origin: Seq<u8>) -> Result<
    Option<Seq<u8>>,
    Error,
> {
    still_valid(listing(cache, with_prefix(origin.push(SEPARATOR))), now)
}

/// The bytes behind the result of a look-up.
pub open spec fn found_view(r: Result<Option<Vec<u8>>, Error>) -> Result<Option<Seq<u8>>, Error> {
    match r {
        Ok(Some(value)) => Ok(Some(value@)),
        Ok(None) => Ok(None),
        Err(e) => Err(e),
    }
}

/// The error of a result, if it is one.
pub open spec fn error_of(r: Result<(), Error>) -> Option<Error> {
    match r {
        Ok(_) => None,
        Err(e) => Some(e),
    }
}

/// Reads the valid-until time out of a key of the signing key cache.
fn read_valid_until(key: &[u8]) -> (r: Result<u64, Error>)
    ensures
        match r {
            Ok(t) => valid_until_of(key@) == Ok::<u64, Error>(t),
            Err(e) => valid_until_of(key@) == Err::<u64, Error>(e),
        },
{
    match after_first_field_of(key) {
        None => Err(Error::bad_database("Invalid signing keys.")),
        Some(bytes) => match u64_from_bytes(bytes.as_slice()) {
            Ok(t) => Ok(t),
            Err(_) => Err(Error::bad_database("Invalid signing key valid until bytes")),
        },
    }
}

/// Once pruning has met a key that cannot be read, the rows after it change
/// nothing.
proof fn lemma_outdated_stops(rows: Seq<(Seq<u8>, Seq<u8>)>, n: int, now: u64)
    requires
        0 <= n <= rows.len(),
        outdated(rows.take(n), now).1 is Some,
    ensures
        outdated(rows, now) == outdated(rows.take(n), now),
    decreases rows.len() - n,
{
    if n < rows.len() {
        assert(rows.take(n + 1).drop_last() =~= rows.take(n));
        lemma_outdated_stops(rows, n + 1, now);
    } else {
        assert(rows.take(n) =~= rows);
    }
}

/// Once a look-up has found valid keys or a key that cannot be read, the
/// rows after it change nothing.
proof fn lemma_still_valid_stops(rows: Seq<(Seq<u8>, Seq<u8>)>, n: int, now: u64)
    requires
        0 <= n <= rows.len(),
        still_valid(rows.take(n), now) != Ok::<Option<Seq<u8>>, Error>(None),
    ensures
        still_valid(rows, now) == still_valid(rows.take(n), now),
    decreases rows.len() - n,
{
    if n < rows.len() {
        assert(rows.take(n + 1).drop_last() =~= rows.take(n));
        lemma_still_valid_stops(rows, n + 1, now);
    } else {
        assert(rows.take(n) =~= rows);
    }
}

impl Globals {
    /// The trees are well formed.
    pub open spec fn wf(&self) -> bool {
        self.globals.wf() && self.servertimeout_signingkey.wf()
    }

    /// Whether a signing key pair was loaded.
    pub open spec fn has_keypair(&self) -> bool {
        self.keypair is Some
    }

    /// Takes over the trees and the configuration, and reads the signing key
    /// pair out of the tree `global`, where one is made first if none is
    /// stored. A stored key pair that can be split and is accepted is
    /// loaded and stays as it is stored. One that cannot be read is deleted
    /// and reported; the server cannot run without one.
    pub fn load(globals: Tree, server_keys: Tree, config: Config) -> (r: (Globals, Result<(), Error>))
        requires
            globals.wf(),
            server_keys.wf(),
        ensures
            r.0.wf(),
            r.0.config == config,
            r.0.servertimeout_signingkey == server_keys,
            r.0.rotate.waiting() == Set::<u64>::empty(),
            r.1 is Ok == r.0.has_keypair(),
            r.1 is Err ==> r.0.globals@ == globals@.remove(keypair_key()),
            r.1 is Ok ==> r.0.globals@.contains_key(keypair_key()) && r.0.globals@.remove(
                keypair_key(),
            ) == globals@.remove(keypair_key()),
            globals@.contains_key(keypair_key()) && r.1 is Ok ==> r.0.globals@ == globals@,
            globals@.contains_key(keypair_key()) ==> r.1 == keypair_loads(globals@[keypair_key()]),
            !globals@.contains_key(keypair_key()) ==> exists|version: Seq<char>, document: Seq<u8>|
                is_random_string(version, 8) && r.1 == keypair_loads(
                    #[trigger] keypair_bytes(version, document),
                ) && (r.1 is Ok ==> r.0.globals@ == globals@.insert(
                    keypair_key(),
                    keypair_bytes(version, document),
                )),
    {
        let mut globals = globals;
        let key = keypair_key_bytes();
        let stored = globals.get(key.as_slice());
        let bytes = match &stored {
            Some(bytes) => generate_keypair(Some(bytes.as_slice())),
            None => generate_keypair(None),
        }.unwrap();
        let ghost start = globals@;
        if stored.is_none() {
            globals.insert(key.as_slice(), bytes.as_slice());
            assert(globals@.remove(keypair_key()) =~= start.remove(keypair_key()));
        } else {
            assert(globals@ =~= start);
        }
        let parsed = match split_keypair(bytes.as_slice()) {
            Ok((version, document)) => match keypair_from_der(document.as_slice(), version) {
                Ok(keypair) => Ok(keypair),
                Err(_) => Err(Error::bad_database("Private or public keys are invalid.")),
            },
            Err(e) => Err(e),
        };
        match parsed {
            Ok(keypair) => (
                Globals {
                    globals,
                    config,
                    keypair: Some(keypair),
                    servertimeout_signingkey: server_keys,
                    rotate: RotationHandler::new(),
                },
                Ok(()),
            ),
            Err(e) => {
                let ghost before = globals@;
                globals.remove(key.as_slice());
                assert(globals@ =~= start.remove(keypair_key()));
                (
                    Globals {
                        globals,
                        config,
                        keypair: None,
                        servertimeout_signingkey: server_keys,
                        rotate: RotationHandler::new(),
                    },
                    Err(e),
                )
            },
        }
    }

    /// Returns this server's keypair.
    pub fn keypair(&self) -> (r: Option<&Ed25519KeyPair>)
        ensures
            r is Some == self.has_keypair(),
    {
        self.keypair.as_ref()
    }

    /// Increments the counter, which can be read, and returns its new value.
    pub(crate) fn advance_count(&mut self) -> (r: u64)
        requires
            old(self).wf(),
            counter_readable(old(self).globals@),
            count_of(old(self).globals@) < u64::MAX,
        ensures
            final(self).wf(),
            r == count_of(old(self).globals@) + 1,
            count_of(final(self).globals@) == r,
            counter_readable(final(self).globals@),
            final(self).globals@ == old(self).globals@.insert(
                counter_key(),
                be_bytes(count_of(old(self).globals@) + 1, 8),
            ),
            final(self).globals.watch() == old(self).globals.watch(),
            final(self).config == old(self).config,
            final(self).servertimeout_signingkey == old(self).servertimeout_signingkey,
            final(self).rotate == old(self).rotate,
            final(self).has_keypair() == old(self).has_keypair(),
    {
        let key = counter_key_bytes();
        let ghost stored = old(self).globals.stored(counter_key());
        assert(incremented(stored) == count_of(old(self).globals@) + 1);
        let bytes = self.globals.increment(key.as_slice());
        proof {
            lemma_be_bytes_len(incremented(stored), 8);
            lemma_pow256_values();
            lemma_be_value_of_bytes(incremented(stored), 8);
        }
        crate::utils::u64_from_be_bytes(bytes.as_slice())
    }

    /// Whether the counter can be read.
    pub fn counter_is_readable(&self) -> (r: bool)
        requires
            self.wf(),
        ensures
            r == counter_readable(self.globals@),
    {
        let key = counter_key_bytes();
        match self.globals.get(key.as_slice()) {
            None => true,
            Some(bytes) => bytes.len() == 8,
        }
    }

    /// Increments the counter and returns its new value, which is greater
    /// than every value returned before. A counter that cannot be read is
    /// reported and left as it is.
    pub fn next_count(&mut self) -> (r: Result<u64, Error>)
        requires
            old(self).wf(),
            count_of(old(self).globals@) < u64::MAX,
        ensures
            final(self).wf(),
            if counter_readable(old(self).globals@) {
                &&& r == Ok::<u64, Error>((count_of(old(self).globals@) + 1) as u64)
                &&& count_of(final(self).globals@) == count_of(old(self).globals@) + 1
                &&& counter_readable(final(self).globals@)
                &&& final(self).globals@ == old(self).globals@.insert(
                    counter_key(),
                    be_bytes(count_of(old(self).globals@) + 1, 8),
                )
                &&& final(self).globals@ == counted(old(self).globals@, 1)
            } else {
                r == Err::<u64, Error>(count_fault()) && *final(self) == *old(self)
            },
            final(self).globals.watch() == old(self).globals.watch(),
            final(self).config == old(self).config,
            final(self).servertimeout_signingkey == old(self).servertimeout_signingkey,
            final(self).rotate == old(self).rotate,
            final(self).has_keypair() == old(self).has_keypair(),
    {
        proof {
            reveal_with_fuel(counted, 2);
        }
        if !self.counter_is_readable() {
            return Err(Error::bad_database("Count has invalid bytes."));
        }
        Ok(self.advance_count())
    }

    /// The value of the counter: zero before the first increment.
    pub fn current_count(&self) -> (r: Result<u64, Error>)
        requires
            self.wf(),
        ensures
            match r {
                Ok(n) => n == count_of(self.globals@) && (self.globals@.contains_key(counter_key())
                    ==> self.globals@[counter_key()].len() == 8),
                Err(e) => e == Error::BadDatabase("Count has invalid bytes.")
                    && self.globals@.contains_key(counter_key())
                    && self.globals@[counter_key()].len() != 8,
            },
    {
        let key = counter_key_bytes();
        match self.globals.get(key.as_slice()) {
            None => Ok(0),
            Some(bytes) => match u64_from_bytes(bytes.as_slice()) {
                Ok(n) => {
                    proof {
                        crate::utils::lemma_be_bytes_of_value(bytes@);
                    }
                    Ok(n)
                },
                Err(_) => Err(Error::bad_database("Count has invalid bytes.")),
            },
        }
    }

    /// The schema version of the database: zero where none is stored.
    pub fn database_version(&self) -> (r: Result<u64, Error>)
        requires
            self.wf(),
        ensures
            match r {
                Ok(n) => if self.globals@.contains_key(version_key()) {
                    self.globals@[version_key()].len() == 8 && n == be_value(
                        self.globals@[version_key()],
                    )
                } else {
                    n == 0
                },
                Err(e) => e == Error::BadDatabase("Database version id is invalid.")
                    && self.globals@.contains_key(version_key())
                    && self.globals@[version_key()].len() != 8,
            },
    {
        let key = version_key_bytes();
        match self.globals.get(key.as_slice()) {
            None => Ok(0),
            Some(bytes) => match u64_from_bytes(bytes.as_slice()) {
                Ok(n) => Ok(n),
                Err(_) => Err(Error::bad_database("Database version id is invalid.")),
            },
        }
    }

    /// Records that the database has reached the schema version `new_version`.
    pub fn bump_database_version(&mut self, new_version: u64)
        requires
            old(self).wf(),
        ensures
            final(self).wf(),
            final(self).globals@ == old(self).globals@.insert(
                version_key(),
                be_bytes(new_version as nat, 8),
            ),
            final(self).globals.watch() == old(self).globals.watch().fire(version_key()),
            final(self).config == old(self).config,
            final(self).servertimeout_signingkey == old(self).servertimeout_signingkey,
            final(self).rotate == old(self).rotate,
            final(self).has_keypair() == old(self).has_keypair(),
    {
        let key = version_key_bytes();
        let value = u64_to_be_bytes(new_version);
        self.globals.insert(key.as_slice(), value.as_slice());
    }

    /// Forgets the verify keys of `origin` whose time has passed at `now`, and
    /// stores `verify_keys` as its keys valid until `valid_until_ts`. Pruning
    /// stops at the first key of the server that cannot be read, and nothing
    /// is stored then.
    pub fn add_signing_key_at(
        &mut self,
        now: u64,
        origin: &str,
        valid_until_ts: u64,
        verify_keys: &[u8],
    ) -> (r: Result<(), Error>)
        requires
            old(self).wf(),
        ensures
            final(self).wf(),
            final(self).globals == old(self).globals,
            final(self).config == old(self).config,
            final(self).rotate == old(self).rotate,
            final(self).has_keypair() == old(self).has_keypair(),
            (final(self).servertimeout_signingkey@, error_of(r)) == signing_key_outcome(
                old(self).servertimeout_signingkey@,
                now,
                encode_utf8(origin@),
                valid_until_ts,
                verify_keys@,
            ),
            final(self).servertimeout_signingkey.watch() == ({
                let cache = old(self).servertimeout_signingkey;
                let found = outdated(
                    listing(cache@, with_prefix(encode_utf8(origin@).push(SEPARATOR))),
                    now,
                );
                if found.1 is Some {
                    cache.watch().fire_all(found.0)
                } else {
                    cache.watch().fire_all(found.0).fire(
                        signing_key_key(encode_utf8(origin@), valid_until_ts),
                    )
                }
            }),
    {
        let mut prefix = to_vec(origin.as_bytes());
        prefix.push(SEPARATOR);
        let rows = self.servertimeout_signingkey.scan_prefix(prefix.as_slice());
        let ghost list = rows_of(rows@);
        let ghost cache = old(self).servertimeout_signingkey;
        let mut i: usize = 0;
        assert(list.take(0) =~= Seq::empty());
        while i < rows.len()
            invariant
                i <= rows@.len(),
                list == rows_of(rows@),
                list == listing(cache@, with_prefix(encode_utf8(origin@).push(SEPARATOR))),
                cache == old(self).servertimeout_signingkey,
                self.wf(),
                self.globals == old(self).globals,
                self.config == old(self).config,
                self.rotate == old(self).rotate,
                self.keypair == old(self).keypair,
                outdated(list.take(i as int), now).1 is None,
                self.servertimeout_signingkey@ == remove_all(
                    cache@,
                    outdated(list.take(i as int), now).0,
                ),
                self.servertimeout_signingkey.watch() == cache.watch().fire_all(
                    outdated(list.take(i as int), now).0,
                ),
            decreases rows@.len() - i,
        {
            proof {
                assert(list.take(i + 1).drop_last() =~= list.take(i as int));
                assert(list.take(i + 1).last() == list[i as int]);
            }
            let ghost gone = outdated(list.take(i as int), now).0;
            let valid_until = match read_valid_until(rows[i].0.as_slice()) {
                Ok(t) => t,
                Err(e) => {
                    proof {
                        assert(list[i as int].0 == rows@[i as int].0@);
                        assert(valid_until_of(list[i as int].0) == Err::<u64, Error>(e));
                        assert(outdated(list.take(i + 1), now) == (gone, Some(e)));
                        lemma_outdated_stops(list, i + 1, now);
                    }
                    return Err(e);
                },
            };
            if now > valid_until {
                self.servertimeout_signingkey.remove(rows[i].0.as_slice());
                assert(gone.push(list[i as int].0).drop_last() =~= gone);
            }
            i = i + 1;
        }
        assert(list.take(i as int) =~= list);
        let mut key = to_vec(origin.as_bytes());
        key.push(SEPARATOR);
        append(&mut key, u64_to_be_bytes(valid_until_ts).as_slice());
        self.servertimeout_signingkey.insert(key.as_slice(), verify_keys);
        Ok(())
    }

    /// Remove the outdated keys and insert the new ones, by the system
    /// clock: what [`Globals::add_signing_key_at`] does at some time `now`.
    pub fn add_signing_key(&mut self, origin: &str, valid_until_ts: u64, verify_keys: &[u8]) -> (r:
        Result<(), Error>)
        requires
            old(self).wf(),
        ensures
            final(self).wf(),
            final(self).globals == old(self).globals,
            final(self).config == old(self).config,
            exists|now: u64|
                (final(self).servertimeout_signingkey@, error_of(r)) == #[trigger] signing_key_outcome(
                    old(self).servertimeout_signingkey@,
                    now,
                    encode_utf8(origin@),
                    valid_until_ts,
                    verify_keys@,
                ),
    {
        let now = millis_since_unix_epoch();
        let r = self.add_signing_key_at(now, origin, valid_until_ts, verify_keys);
        r
    }

    /// The verify keys of `origin` that are still valid at `now`: the value
    /// of the first of its rows whose time has not passed.
    pub fn signing_keys_for_at(&self, now: u64, origin: &str) -> (r: Result<Option<Vec<u8>>, Error>)
        requires
            self.wf(),
        ensures
            found_view(r) == valid_keys_at(
                self.servertimeout_signingkey@,
                now,
                encode_utf8(origin@),
            ),
    {
        let mut prefix = to_vec(origin.as_bytes());
        prefix.push(SEPARATOR);
        let rows = self.servertimeout_signingkey.scan_prefix(prefix.as_slice());
        let ghost list = rows_of(rows@);
        let mut i: usize = 0;
        assert(list.take(0) =~= Seq::empty());
        while i < rows.len()
            invariant
                i <= rows@.len(),
                list == rows_of(rows@),
                list == listing(
                    self.servertimeout_signingkey@,
                    with_prefix(encode_utf8(origin@).push(SEPARATOR)),
                ),
                still_valid(list.take(i as int), now) == Ok::<Option<Seq<u8>>, Error>(None),
            decreases rows@.len() - i,
        {
            proof {
                assert(list.take(i + 1).drop_last() =~= list.take(i as int));
                assert(list.take(i + 1).last() == list[i as int]);
            }
            let valid_until = match read_valid_until(rows[i].0.as_slice()) {
                Ok(t) => t,
                Err(e) => {
                    proof {
                        assert(list.take(rows@.len() as int) =~= list);
                        lemma_still_valid_stops(list, i + 1, now);
                    }
                    return Err(e);
                },
            };
            if valid_until > now {
                proof {
                    assert(list.take(rows@.len() as int) =~= list);
                    lemma_still_valid_stops(list, i + 1, now);
                }
                return Ok(Some(to_vec(rows[i].1.as_slice())));
            }
            i = i + 1;
        }
        assert(list.take(i as int) =~= list);
        Ok(None)
    }

    /// The verify keys of `origin` that are still valid by the system clock:
    /// what [`Globals::signing_keys_for_at`] finds at some time `now`.
    pub fn signing_keys_for(&self, origin: &str) -> (r: Result<Option<Vec<u8>>, Error>)
        requires
            self.wf(),
        ensures
            exists|now: u64|
                found_view(r) == #[trigger] valid_keys_at(
                    self.servertimeout_signingkey@,
                    now,
                    encode_utf8(origin@),
                ),
    {
        let now = millis_since_unix_epoch();
        let r = self.signing_keys_for_at(now, origin);
        r
    }

    /// The name of the file that holds the media stored under `key`: the
    /// key in lower-case hexadecimal digits.
    pub fn get_media_file(&self, key: &[u8]) -> (r: String)
        ensures
            r@ == hex(key@),
    {
        let mut name = String::new();
        let mut i: usize = 0;
        assert(key@.take(0) =~= Seq::empty());
        while i < key.len()
            invariant
                i <= key@.len(),
                name@ == hex(key@.take(i as int)),
            decreases key@.len() - i,
        {
            proof {
                assert(key@.take(i + 1).drop_last() =~= key@.take(i as int));
                assert(key@.take(i + 1).last() == key@[i as int]);
            }
            let byte = key[i];
            name.push(hex_digit_of(byte / 16));
            name.push(hex_digit_of(byte % 16));
            i = i + 1;
        }
        assert(key@.take(i as int) =~= key@);
        name
    }

    /// The name of this server.
    pub fn server_name(&self) -> (r: &str)
        ensures
            r@ == self.config.server_name@,
    {
        self.config.server_name.as_str()
    }

    /// The longest request the server accepts, in bytes.
    pub fn max_request_size(&self) -> (r: u32)
        ensures
            r == self.config.max_request_size,
    {
        self.config.max_request_size
    }

    /// Whether new accounts may be registered.
    pub fn allow_registration(&self) -> (r: bool)
        ensures
            r == self.config.allow_registration,
    {
        self.config.allow_registration
    }

    /// Whether encrypted rooms may be created.
    pub fn allow_encryption(&self) -> (r: bool)
        ensures
            r == self.config.allow_encryption,
    {
        self.config.allow_encryption
    }

    /// Whether the server talks to other servers.
    pub fn allow_federation(&self) -> (r: bool)
        ensures
            r == self.config.allow_federation,
    {
        self.config.allow_federation
    }
}

} // verus!
