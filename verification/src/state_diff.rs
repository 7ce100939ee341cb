//! The compacted state store: how a room's resolved state is written as a
//! chain of diff layers, and read back.
//!
//! A row of the tree `shortstatehash_statediff` is keyed by a short state
//! hash and holds one layer: the hash of the parent layer (zero for a full
//! snapshot), the entries the layer adds, and, after a separator of eight
//! zero bytes, the entries it removes.

use crate::error::Error;
use crate::state_laws::{base, keyed_set, lemma_chain_linked, lemma_chain_stable, lemma_placed_chain, tight};
use crate::state_set::{lemma_ascending_unique, strictly_ascending, StateSet};
use crate::tree::Tree;
use crate::utils::{
    append, be_bytes, be_decode, be_encode, be_value, lemma_be_bytes_len, lemma_be_bytes_of_value,
    lemma_be_value_concat, lemma_be_value_of_bytes, lemma_pow256_values, pow256,
    u64_from_be_bytes, u64_to_be_bytes,
};
use lru_cache::LruCache;
use vstd::prelude::*;
use vstd::slice::slice_subrange;

verus! {

/// One layer as it is stored.
pub ghost struct Layer {
    /// The hash of the layer below, or zero.
    pub parent: u64,
    pub added: Set<u128>,
    pub removed: Set<u128>,
}

/// The sixteen bytes of `value` at offset `i`, read as an entry.
pub open spec fn window(value: Seq<u8>, i: int) -> u128 {
    be_value(value.subrange(i, i + 16)) as u128
}

/// The first eight of the sixteen bytes at offset `i` are zero: here the
/// added entries end.
pub open spec fn is_separator(value: Seq<u8>, i: int) -> bool {
    be_value(value.subrange(i, i + 8)) == 0
}

/// The entries added, read from offset `i` on.
pub open spec fn added_from(value: Seq<u8>, i: int) -> Set<u128>
    decreases value.len() - i,
{
    if i < 0 || i + 16 > value.len() || is_separator(value, i) {
        Set::empty()
    } else {
        added_from(value, i + 16).insert(window(value, i))
    }
}

/// The offset of the first removed entry when reading added entries from
/// offset `i` on, or the length of `value` if nothing is removed.
pub open spec fn removed_start(value: Seq<u8>, i: int) -> int
    decreases value.len() - i,
{
    if i < 0 || i + 16 > value.len() {
        value.len() as int
    } else if is_separator(value, i) {
        i + 8
    } else {
        removed_start(value, i + 16)
    }
}

/// The entries removed, read from offset `i` on.
pub open spec fn removed_from(value: Seq<u8>, i: int) -> Set<u128>
    decreases value.len() - i,
{
    if i < 0 || i + 16 > value.len() {
        Set::empty()
    } else {
        removed_from(value, i + 16).insert(window(value, i))
    }
}

/// The layer that a row's value of at least eight bytes holds. Bytes that
/// fill no whole entry at the end are not read.
pub open spec fn layer_of(value: Seq<u8>) -> Layer {
    Layer {
        parent: be_value(value.subrange(0, 8)) as u64,
        added: added_from(value, 8),
        removed: removed_from(value, removed_start(value, 8)),
    }
}

/// The bytes of a run of entries.
pub open spec fn entries_bytes(elems: Seq<u128>) -> Seq<u8>
    decreases elems.len(),
{
    if elems.len() == 0 {
        Seq::empty()
    } else {
        entries_bytes(elems.drop_last()) + be_bytes(elems.last() as nat, 16)
    }
}

/// The value of the row that holds a layer.
pub open spec fn layer_bytes(parent: u64, added: Seq<u128>, removed: Seq<u128>) -> Seq<u8> {
    be_bytes(parent as nat, 8) + entries_bytes(added) + if removed.len() > 0 {
        be_bytes(0, 8) + entries_bytes(removed)
    } else {
        Seq::empty()
    }
}

/// The key of the row of a short state hash.
pub open spec fn hash_key(shortstatehash: u64) -> Seq<u8> {
    be_bytes(shortstatehash as nat, 8)
}

/// Reads the layer out of a row's value.
fn parse_layer(value: &[u8]) -> (r: (u64, StateSet, StateSet))
    requires
        value@.len() >= 8,
    ensures
        r.0 == layer_of(value@).parent,
        r.1.wf(),
        r.1@ == layer_of(value@).added,
        r.2.wf(),
        r.2@ == layer_of(value@).removed,
{
    proof {
        lemma_be_bytes_of_value(value@.subrange(0, 8));
        lemma_pow256_values();
    }
    let parent = u64_from_be_bytes(slice_subrange(value, 0, 8));
    let mut added = StateSet::new();
    let mut removed = StateSet::new();
    let mut add_mode = true;
    let mut i: usize = 8;
    let ghost layer = layer_of(value@);
    while value.len() - i >= 16
        invariant
            8 <= i <= value@.len(),
            added.wf(),
            removed.wf(),
            layer == layer_of(value@),
            add_mode ==> removed@ == Set::<u128>::empty() && layer.added == added@.union(
                added_from(value@, i as int),
            ) && layer.removed == removed_from(value@, removed_start(value@, i as int)),
            !add_mode ==> layer.added == added@ && layer.removed == removed@.union(
                removed_from(value@, i as int),
            ),
        decreases value@.len() - i,
    {
        let ghost added_before = added@;
        let ghost removed_before = removed@;
        if add_mode && be_decode(slice_subrange(value, i, i + 8)) == 0 {
            proof {
                assert(added_before.union(Set::empty()) =~= added_before);
                assert(removed_before.union(removed_from(value@, i + 8)) =~= removed_from(
                    value@,
                    i + 8,
                ));
            }
            add_mode = false;
            i = i + 8;
        } else {
            proof {
                lemma_be_bytes_of_value(value@.subrange(i as int, i + 16));
                lemma_pow256_values();
            }
            let e = be_decode(slice_subrange(value, i, i + 16));
            if add_mode {
                added.insert(e);
                assert(added_before.insert(e).union(added_from(value@, i + 16))
                    =~= added_before.union(added_from(value@, i as int)));
            } else {
                removed.insert(e);
                assert(removed_before.insert(e).union(removed_from(value@, i + 16))
                    =~= removed_before.union(removed_from(value@, i as int)));
            }
            i = i + 16;
        }
    }
    proof {
        if add_mode {
            assert(added@.union(Set::empty()) =~= added@);
            assert(removed@ =~= removed_from(value@, value@.len() as int));
        } else {
            assert(removed@.union(Set::empty()) =~= removed@);
        }
    }
    (parent, added, removed)
}

proof fn lemma_entries_bytes_push(elems: Seq<u128>, e: u128)
    ensures
        entries_bytes(elems.push(e)) == entries_bytes(elems) + be_bytes(e as nat, 16),
{
    assert(elems.push(e).drop_last() =~= elems);
}

/// Appends the bytes of the entries of `set`, in ascending order.
fn append_entries(out: &mut Vec<u8>, set: &StateSet)
    ensures
        final(out)@ == old(out)@ + entries_bytes(set.elems()),
{
    let items = set.as_slice();
    let mut i: usize = 0;
    assert(out@ =~= old(out)@ + entries_bytes(items@.take(0)));
    while i < items.len()
        invariant
            i <= items@.len(),
            out@ == old(out)@ + entries_bytes(items@.take(i as int)),
        decreases items@.len() - i,
    {
        let bytes = be_encode(items[i], 16);
        let ghost before = out@;
        append(out, bytes.as_slice());
        proof {
            lemma_entries_bytes_push(items@.take(i as int), items@[i as int]);
            assert(items@.take(i + 1) =~= items@.take(i as int).push(items@[i as int]));
            assert(out@ =~= old(out)@ + entries_bytes(items@.take(i + 1)));
        }
        i = i + 1;
    }
    assert(items@.take(i as int) =~= items@);
}

/// The value of the row that holds a layer.
fn encode_layer(parent: u64, added: &StateSet, removed: &StateSet) -> (r: Vec<u8>)
    requires
        removed.wf(),
    ensures
        r@ == layer_bytes(parent, added.elems(), removed.elems()),
{
    let mut out = u64_to_be_bytes(parent);
    append_entries(&mut out, added);
    proof {
        removed.lemma_elems();
    }
    if removed.len() > 0 {
        let zero = u64_to_be_bytes(0);
        let ghost head = out@;
        append(&mut out, zero.as_slice());
        append_entries(&mut out, removed);
        assert(out@ =~= head + (be_bytes(0, 8) + entries_bytes(removed.elems())));
    } else {
        assert(out@ =~= out@ + Seq::<u8>::empty());
    }
    out
}

/// What is known of a room's state at one layer of a chain.
#[derive(Debug)]
pub struct StateInfo {
    /// The short state hash of the layer.
    pub shortstatehash: u64,
    /// The resolved state at this layer.
    pub full_state: StateSet,
    /// What this layer adds to the layer below.
    pub added: StateSet,
    /// What this layer removes from the layer below.
    pub removed: StateSet,
}

/// A [`StateInfo`] as plain sets.
pub ghost struct StateInfoView {
    pub shortstatehash: u64,
    pub full_state: Set<u128>,
    pub added: Set<u128>,
    pub removed: Set<u128>,
}

impl View for StateInfo {
    type V = StateInfoView;

    open spec fn view(&self) -> StateInfoView {
        StateInfoView {
            shortstatehash: self.shortstatehash,
            full_state: self.full_state@,
            added: self.added@,
            removed: self.removed@,
        }
    }
}

impl StateInfo {
    /// Its three sets are well formed.
    pub open spec fn wf(&self) -> bool {
        self.full_state.wf() && self.added.wf() && self.removed.wf()
    }
}

impl Clone for StateInfo {
    fn clone(&self) -> (r: StateInfo)
        ensures
            r@ == self@,
            r.wf() == self.wf(),
            r.added.elems() == self.added.elems(),
            r.removed.elems() == self.removed.elems(),
    {
        StateInfo {
            shortstatehash: self.shortstatehash,
            full_state: self.full_state.clone(),
            added: self.added.clone(),
            removed: self.removed.clone(),
        }
    }
}

/// A chain of layers as plain sets.
pub open spec fn infos_view(infos: Seq<StateInfo>) -> Seq<StateInfoView> {
    infos.map_values(|info: StateInfo| info@)
}

/// Every layer of the chain is well formed.
pub open spec fn infos_wf(infos: Seq<StateInfo>) -> bool {
    forall|i: int| 0 <= i < infos.len() ==> (#[trigger] infos[i]).wf()
}

/// Why a chain cannot be read.
pub enum LoadFault {
    /// No row is stored for a hash on the chain.
    Missing,
    /// A row on the chain is too short to name its parent.
    Truncated,
    /// A layer names a parent that is not older than itself.
    ParentNotOlder,
}

/// The error that reports a fault.
pub open spec fn fault_error(fault: LoadFault) -> Error {
    match fault {
        LoadFault::Missing => Error::BadDatabase("State hash does not exist"),
        LoadFault::Truncated => Error::BadDatabase("State diff in db is invalid."),
        LoadFault::ParentNotOlder => Error::BadDatabase("State diff parent is not older."),
    }
}

/// The resolved state of a layer that adds and removes on top of `base`.
pub open spec fn apply(base: Set<u128>, added: Set<u128>, removed: Set<u128>) -> Set<u128> {
    base.union(added).difference(removed)
}

/// The chain of layers from the root down to `shortstatehash`, each with the
/// state resolved at it: the root's state is what it adds, and every other
/// layer applies its diff to the state of its parent.
pub open spec fn chain(rows: Map<Seq<u8>, Seq<u8>>, shortstatehash: u64) -> Result<
    Seq<StateInfoView>,
    LoadFault,
>
    decreases shortstatehash,
{
    let key = hash_key(shortstatehash);
    if !rows.contains_key(key) {
        Err(LoadFault::Missing)
    } else if rows[key].len() < 8 {
        Err(LoadFault::Truncated)
    } else {
        let layer = layer_of(rows[key]);
        if layer.parent == 0 {
            Ok(
                seq![
                    StateInfoView {
                        shortstatehash,
                        full_state: layer.added,
                        added: layer.added,
                        removed: layer.removed,
                    },
                ],
            )
        } else if layer.parent >= shortstatehash {
            Err(LoadFault::ParentNotOlder)
        } else {
            match chain(rows, layer.parent) {
                Err(fault) => Err(fault),
                Ok(below) => Ok(
                    below.push(
                        StateInfoView {
                            shortstatehash,
                            full_state: apply(below.last().full_state, layer.added, layer.removed),
                            added: layer.added,
                            removed: layer.removed,
                        },
                    ),
                ),
            }
        }
    }
}

/// A chain that was read holds at least one layer, and ends in the layer
/// asked for.
pub proof fn lemma_chain_shape(rows: Map<Seq<u8>, Seq<u8>>, shortstatehash: u64)
    ensures
        chain(rows, shortstatehash) matches Ok(c) ==> c.len() > 0 && c.last().shortstatehash
            == shortstatehash,
    decreases shortstatehash,
{
    let key = hash_key(shortstatehash);
    if rows.contains_key(key) && rows[key].len() >= 8 {
        let layer = layer_of(rows[key]);
        if layer.parent != 0 && layer.parent < shortstatehash {
            lemma_chain_shape(rows, layer.parent);
        }
    }
}

/// The state of `base` with `added` put in and `removed` taken out.
fn resolve(base: &StateSet, added: &StateSet, removed: &StateSet) -> (r: StateSet)
    requires
        base.wf(),
    ensures
        r.wf(),
        r@ == apply(base@, added@, removed@),
{
    let mut state = base.clone();
    let add = added.as_slice();
    let mut i: usize = 0;
    proof {
        assert(state@ =~= base@.union(add@.take(0).to_set()));
    }
    while i < add.len()
        invariant
            i <= add@.len(),
            state.wf(),
            state@ == base@.union(add@.take(i as int).to_set()),
        decreases add@.len() - i,
    {
        let ghost before = state@;
        state.insert(add[i]);
        proof {
            let seen = add@.take(i as int);
            assert(add@.take(i + 1) =~= seen.push(add@[i as int]));
            assert forall|y: u128|
                state@.contains(y) == base@.union(add@.take(i + 1).to_set()).contains(
                    y,
                ) by {
                crate::tree::lemma_push_contains(seen, add@[i as int], y);
            }
            assert(state@ =~= base@.union(add@.take(i + 1).to_set()));
        }
        i = i + 1;
    }
    assert(add@.take(i as int) =~= add@);
    let del = removed.as_slice();
    let mut j: usize = 0;
    let ghost merged = state@;
    proof {
        assert(state@ =~= merged.difference(del@.take(0).to_set()));
    }
    while j < del.len()
        invariant
            j <= del@.len(),
            state.wf(),
            state@ == merged.difference(del@.take(j as int).to_set()),
        decreases del@.len() - j,
    {
        state.remove(del[j]);
        proof {
            let seen = del@.take(j as int);
            assert(del@.take(j + 1) =~= seen.push(del@[j as int]));
            assert forall|y: u128|
                state@.contains(y) == merged.difference(del@.take(j + 1).to_set()).contains(
                    y,
                ) by {
                crate::tree::lemma_push_contains(seen, del@[j as int], y);
            }
            assert(state@ =~= merged.difference(del@.take(j + 1).to_set()));
        }
        j = j + 1;
    }
    assert(del@.take(j as int) =~= del@);
    proof {
        added.lemma_elems_set();
        removed.lemma_elems_set();
    }
    state
}


#[verifier::external_type_specification]
#[verifier::external_body]
#[verifier::reject_recursive_types(K)]
#[verifier::reject_recursive_types(V)]
#[verifier::reject_recursive_types(S)]
pub struct ExLruCache<K: Eq + std::hash::Hash, V, S: std::hash::BuildHasher>(LruCache<K, V, S>);

/// The chains that a cache of loaded chains holds, by short state hash.
pub uninterp spec fn cached(cache: LruCache<u64, Vec<StateInfo>>) -> Map<u64, Seq<StateInfo>>;

/// The number of chains that a cache was made to hold.
pub uninterp spec fn cache_capacity(cache: LruCache<u64, Vec<StateInfo>>) -> nat;

/// Every chain in the cache is the chain that the rows spell out.
pub open spec fn cache_valid(cache: LruCache<u64, Vec<StateInfo>>, rows: Map<Seq<u8>, Seq<u8>>) -> bool {
    forall|k: u64| #[trigger]
        cached(cache).contains_key(k) ==> infos_wf(cached(cache)[k]) && chain(rows, k) == Ok::<
            Seq<StateInfoView>,
            LoadFault,
        >(infos_view(cached(cache)[k]))
}

/// `LruCache::new`. Trusted: the new cache is empty and keeps the capacity
/// it was given.
#[verifier::external_body]
pub(crate) fn new_state_cache(capacity: usize) -> (r: LruCache<u64, Vec<StateInfo>>)
    ensures
        forall|k: u64| !(#[trigger] cached(r).contains_key(k)),
        cache_capacity(r) == capacity,
{
    LruCache::new(capacity)
}

/// `LruCache::get_mut`, handing out a copy. Trusted: a look-up changes
/// neither what the cache holds nor its capacity, and finds a chain exactly
/// when the cache holds one under the hash.
#[verifier::external_body]
fn cache_get(cache: &mut LruCache<u64, Vec<StateInfo>>, shortstatehash: u64) -> (r: Option<
    Vec<StateInfo>,
>)
    ensures
        cached(*final(cache)) == cached(*old(cache)),
        cache_capacity(*final(cache)) == cache_capacity(*old(cache)),
        match r {
            Some(infos) => cached(*old(cache)).contains_key(shortstatehash) && infos_view(infos@)
                == infos_view(cached(*old(cache))[shortstatehash]) && infos_wf(infos@) == infos_wf(
                cached(*old(cache))[shortstatehash],
            ),
            None => !cached(*old(cache)).contains_key(shortstatehash),
        },
{
    cache.get_mut(&shortstatehash).map(|infos| infos.clone())
}

/// `LruCache::insert`. Trusted: afterwards the cache holds nothing but the
/// new chain and chains it held before, unchanged; which of the old ones
/// were evicted is left open. A cache with room for at least one chain
/// holds the new one.
#[verifier::external_body]
fn cache_insert(cache: &mut LruCache<u64, Vec<StateInfo>>, shortstatehash: u64, infos: Vec<StateInfo>)
    ensures
        cache_capacity(*final(cache)) == cache_capacity(*old(cache)),
        forall|k: u64| #[trigger]
            cached(*final(cache)).contains_key(k) ==> if k == shortstatehash {
                cached(*final(cache))[k] == infos@
            } else {
                cached(*old(cache)).contains_key(k) && cached(*final(cache))[k] == cached(
                    *old(cache),
                )[k]
            },
        cache_capacity(*old(cache)) > 0 ==> cached(*final(cache)).contains_key(shortstatehash),
{
    cache.insert(shortstatehash, infos);
}

/// A copy of a chain.
fn clone_infos(infos: &Vec<StateInfo>) -> (r: Vec<StateInfo>)
    ensures
        infos_view(r@) == infos_view(infos@),
        infos_wf(r@) == infos_wf(infos@),
{
    let mut out: Vec<StateInfo> = Vec::new();
    let mut i: usize = 0;
    while i < infos.len()
        invariant
            i <= infos@.len(),
            out@.len() == i,
            forall|k: int| 0 <= k < i ==> (#[trigger] out@[k])@ == infos@[k]@ && out@[k].wf()
                == infos@[k].wf(),
        decreases infos@.len() - i,
    {
        out.push(infos[i].clone());
        i = i + 1;
    }
    assert(infos_view(out@) =~= infos_view(infos@));
    proof {
        if infos_wf(infos@) {
            assert forall|k: int| 0 <= k < out@.len() implies (#[trigger] out@[k]).wf() by {
                assert(infos@[k].wf());
            }
        }
        if infos_wf(out@) {
            assert forall|k: int| 0 <= k < infos@.len() implies (#[trigger] infos@[k]).wf() by {
                assert(out@[k].wf());
            }
        }
    }
    out
}

/// Loads the chain of layers from the root down to `shortstatehash`, with the
/// state resolved at each layer. Chains already loaded are taken from `lru`.
pub fn load_shortstatehash_info(
    shortstatehash: u64,
    statediffs: &Tree,
    lru: &mut LruCache<u64, Vec<StateInfo>>,
) -> (r: Result<Vec<StateInfo>, Error>)
    requires
        statediffs.wf(),
        cache_valid(*old(lru), statediffs@),
    ensures
        cache_valid(*final(lru), statediffs@),
        cache_capacity(*final(lru)) == cache_capacity(*old(lru)),
        forall|k: u64| #[trigger]
            cached(*final(lru)).contains_key(k) ==> cached(*old(lru)).contains_key(k) || k
                <= shortstatehash,
        match r {
            Ok(infos) => infos_wf(infos@) && chain(statediffs@, shortstatehash) == Ok::<
                Seq<StateInfoView>,
                LoadFault,
            >(infos_view(infos@)),
            Err(e) => chain(statediffs@, shortstatehash) matches Err(fault) && e == fault_error(
                fault,
            ),
        },
    decreases shortstatehash,
{
    match cache_get(lru, shortstatehash) {
        Some(result) => {
            assert(cached(*lru).contains_key(shortstatehash));
            return Ok(result);
        },
        None => {},
    }
    let key = u64_to_be_bytes(shortstatehash);
    let value = match statediffs.get(key.as_slice()) {
        Some(value) => value,
        None => {
            return Err(Error::bad_database("State hash does not exist"));
        },
    };
    if value.len() < 8 {
        return Err(Error::bad_database("State diff in db is invalid."));
    }
    let (parent, added, removed) = parse_layer(value.as_slice());
    let response = if parent != 0 {
        if parent >= shortstatehash {
            return Err(Error::bad_database("State diff parent is not older."));
        }
        let mut response = match load_shortstatehash_info(parent, statediffs, lru) {
            Ok(response) => response,
            Err(e) => {
                return Err(e);
            },
        };
        proof {
            lemma_chain_shape(statediffs@, parent);
        }
        let ghost below = response@;
        let state = resolve(&response[response.len() - 1].full_state, &added, &removed);
        let info = StateInfo { shortstatehash, full_state: state, added, removed };
        response.push(info);
        proof {
            assert(infos_view(response@) =~= infos_view(below).push(info@));
            assert(infos_view(below).last() == below.last()@);
        }
        response
    } else {
        let mut response: Vec<StateInfo> = Vec::new();
        let info = StateInfo { shortstatehash, full_state: added.clone(), added, removed };
        response.push(info);
        proof {
            assert(infos_view(response@) =~= seq![info@]);
        }
        response
    };
    let copy = clone_infos(&response);
    cache_insert(lru, shortstatehash, copy);
    Ok(response)
}

/// The most entries that the layers of a chain and a new diff may hold
/// together for the diff to be placed.
pub const MAX_WEIGHT: u128 = 0x4000_0000_0000_0000;

/// The number of entries a layer adds and removes.
pub open spec fn diff_size(info: StateInfoView) -> nat {
    info.added.len() + info.removed.len()
}

/// The number of entries that the layers of a chain add and remove.
pub open spec fn weight(parents: Seq<StateInfoView>) -> nat
    decreases parents.len(),
{
    if parents.len() == 0 {
        0
    } else {
        weight(parents.drop_last()) + diff_size(parents.last())
    }
}

/// The diff that does to the layer below a parent what the parent's diff
/// and then the diff `(added, removed)` do: what both add is added, unless
/// the other removes it again, and what both remove is removed, unless the
/// other adds it again.
pub open spec fn fold(
    parent_added: Set<u128>,
    parent_removed: Set<u128>,
    added: Set<u128>,
    removed: Set<u128>,
) -> (Set<u128>, Set<u128>) {
    let kept = parent_added.difference(removed);
    let gone = parent_removed.union(removed.difference(parent_added));
    (kept.union(added.difference(gone)), gone.difference(added))
}

/// A diff of `diffsum` entries is too large to sit on a parent layer of
/// `parent_diff` entries, given the size of the diff to its sibling.
pub open spec fn too_large(diffsum: nat, diff_to_sibling: nat, parent_diff: nat) -> bool {
    diffsum * diffsum >= 2 * diff_to_sibling * parent_diff
}

/// Where a diff comes to rest: the layers that stay below it, and the diff
/// as it is written on top of them.
pub ghost struct Placement {
    pub parents: Seq<StateInfoView>,
    pub added: Set<u128>,
    pub removed: Set<u128>,
}

/// Places a diff on a chain of parent layers. On a chain of more than three
/// layers, or on a parent that the diff is too large for, the diff is folded
/// into the parent's and placed on the rest of the chain. With no layer
/// left, what is added becomes a full snapshot.
pub open spec fn place(
    added: Set<u128>,
    removed: Set<u128>,
    diff_to_sibling: nat,
    parents: Seq<StateInfoView>,
) -> Placement
    decreases parents.len(),
{
    let diffsum = added.len() + removed.len();
    if parents.len() == 0 {
        Placement { parents, added, removed: Set::empty() }
    } else if parents.len() > 3 || too_large(diffsum, diff_to_sibling, diff_size(parents.last())) {
        let folded = fold(parents.last().added, parents.last().removed, added, removed);
        place(folded.0, folded.1, diffsum, parents.drop_last())
    } else {
        Placement { parents, added, removed }
    }
}

/// The entries of a finite set in ascending order.
pub open spec fn ascending_seq(s: Set<u128>) -> Seq<u128> {
    choose|q: Seq<u128>| strictly_ascending(q) && q.to_set() == s
}

/// The value of the row that a placement writes.
pub open spec fn placement_bytes(p: Placement) -> Seq<u8> {
    layer_bytes(
        if p.parents.len() == 0 {
            0
        } else {
            p.parents.last().shortstatehash
        },
        ascending_seq(p.added),
        ascending_seq(p.removed),
    )
}

pub proof fn lemma_ascending_seq(set: &StateSet)
    requires
        set.wf(),
    ensures
        ascending_seq(set@) == set.elems(),
{
    set.lemma_elems();
    let q = ascending_seq(set@);
    assert(strictly_ascending(set.elems()) && set.elems().to_set() == set@);
    lemma_ascending_unique(q, set.elems());
}

/// Folds the diff `(added, removed)` into the diff of its parent.
fn fold_into(
    parent_added: StateSet,
    parent_removed: StateSet,
    added: &StateSet,
    removed: &StateSet,
) -> (r: (StateSet, StateSet))
    requires
        parent_added.wf(),
        parent_removed.wf(),
        added.wf(),
        removed.wf(),
    ensures
        r.0.wf(),
        r.1.wf(),
        (r.0@, r.1@) == fold(parent_added@, parent_removed@, added@, removed@),
{
    let mut parent_new = parent_added;
    let mut parent_gone = parent_removed;
    let ghost pa = parent_new@;
    let ghost pr = parent_gone@;
    let del = removed.as_slice();
    let add = added.as_slice();
    proof {
        removed.lemma_elems();
        added.lemma_elems();
    }
    let mut i: usize = 0;
    proof {
        assert(parent_new@ =~= pa.difference(del@.take(0).to_set()));
        assert(parent_gone@ =~= pr.union(del@.take(0).to_set().difference(pa)));
    }
    while i < del.len()
        invariant
            i <= del@.len(),
            strictly_ascending(del@),
            parent_new.wf(),
            parent_gone.wf(),
            parent_new@ == pa.difference(del@.take(i as int).to_set()),
            parent_gone@ == pr.union(del@.take(i as int).to_set().difference(pa)),
        decreases del@.len() - i,
    {
        let x = del[i];
        let ghost seen = del@.take(i as int);
        let was_added = parent_new.remove(x);
        if !was_added {
            parent_gone.insert(x);
        }
        proof {
            if seen.contains(x) {
                let k = choose|k: int| 0 <= k < seen.len() && seen[k] == x;
                assert(del@[k] < del@[i as int]);
            }
            assert(del@.take(i + 1) =~= seen.push(x));
            assert forall|y: u128|
                del@.take(i + 1).to_set().contains(y) <==> (seen.to_set().contains(y) || y
                    == x) by {
                crate::tree::lemma_push_contains(seen, x, y);
            }
            assert(parent_new@ =~= pa.difference(del@.take(i + 1).to_set()));
            assert(parent_gone@ =~= pr.union(del@.take(i + 1).to_set().difference(pa)));
        }
        i = i + 1;
    }
    assert(del@.take(i as int) =~= del@);
    let ghost kept = parent_new@;
    let ghost gone = parent_gone@;
    let mut j: usize = 0;
    proof {
        assert(parent_new@ =~= kept.union(add@.take(0).to_set().difference(gone)));
        assert(parent_gone@ =~= gone.difference(add@.take(0).to_set()));
    }
    while j < add.len()
        invariant
            j <= add@.len(),
            strictly_ascending(add@),
            parent_new.wf(),
            parent_gone.wf(),
            parent_new@ == kept.union(add@.take(j as int).to_set().difference(gone)),
            parent_gone@ == gone.difference(add@.take(j as int).to_set()),
        decreases add@.len() - j,
    {
        let x = add[j];
        let ghost seen = add@.take(j as int);
        let was_gone = parent_gone.remove(x);
        if !was_gone {
            parent_new.insert(x);
        }
        proof {
            if seen.contains(x) {
                let k = choose|k: int| 0 <= k < seen.len() && seen[k] == x;
                assert(add@[k] < add@[j as int]);
            }
            assert(add@.take(j + 1) =~= seen.push(x));
            assert forall|y: u128|
                add@.take(j + 1).to_set().contains(y) <==> (seen.to_set().contains(y) || y
                    == x) by {
                crate::tree::lemma_push_contains(seen, x, y);
            }
            assert(parent_new@ =~= kept.union(add@.take(j + 1).to_set().difference(gone)));
            assert(parent_gone@ =~= gone.difference(add@.take(j + 1).to_set()));
        }
        j = j + 1;
    }
    assert(add@.take(j as int) =~= add@);
    (parent_new, parent_gone)
}


/// The diff and the layers of the chain hold few enough entries together.
pub open spec fn place_fits(
    added: Set<u128>,
    removed: Set<u128>,
    parents: Seq<StateInfoView>,
) -> bool {
    added.len() + removed.len() + weight(parents) <= MAX_WEIGHT
}

proof fn lemma_weight_take(parents: Seq<StateInfoView>, i: int)
    requires
        0 <= i <= parents.len(),
    ensures
        weight(parents.take(i)) <= weight(parents),
        i < parents.len() ==> weight(parents.take(i + 1)) == weight(parents.take(i)) + diff_size(
            parents[i],
        ),
    decreases parents.len() - i,
{
    if i < parents.len() {
        assert(parents.take(i + 1).drop_last() =~= parents.take(i));
        lemma_weight_take(parents, i + 1);
    } else {
        assert(parents.take(i) =~= parents);
    }
}

proof fn lemma_fold_size(
    parent_added: Set<u128>,
    parent_removed: Set<u128>,
    added: Set<u128>,
    removed: Set<u128>,
)
    requires
        parent_added.finite(),
        parent_removed.finite(),
        added.finite(),
        removed.finite(),
    ensures
        fold(parent_added, parent_removed, added, removed).0.finite(),
        fold(parent_added, parent_removed, added, removed).1.finite(),
        fold(parent_added, parent_removed, added, removed).0.len() + fold(
            parent_added,
            parent_removed,
            added,
            removed,
        ).1.len() <= parent_added.len() + parent_removed.len() + added.len() + removed.len(),
{
    let kept = parent_added.difference(removed);
    let gone = parent_removed.union(removed.difference(parent_added));
    vstd::set_lib::lemma_len_difference(parent_added, removed);
    vstd::set_lib::lemma_len_difference(removed, parent_added);
    vstd::set_lib::lemma_len_union(parent_removed, removed.difference(parent_added));
    vstd::set_lib::lemma_len_difference(added, gone);
    vstd::set_lib::lemma_len_union(kept, added.difference(gone));
    vstd::set_lib::lemma_len_difference(gone, added);
}

/// The number of entries in the diff and in the layers of the chain, if it
/// is at most [`MAX_WEIGHT`].
fn total_weight(added: &StateSet, removed: &StateSet, parents: &Vec<StateInfo>) -> (r: Option<u128>)
    requires
        added.wf(),
        removed.wf(),
        infos_wf(parents@),
    ensures
        r is Some == place_fits(added@, removed@, infos_view(parents@)),
        r matches Some(w) ==> w == added@.len() + removed@.len() + weight(infos_view(parents@)),
{
    let ghost views = infos_view(parents@);
    let mut total: u128 = added.len() as u128 + removed.len() as u128;
    if total > MAX_WEIGHT {
        return None;
    }
    let mut i: usize = 0;
    proof {
        assert(views.take(0) =~= Seq::empty());
    }
    while i < parents.len()
        invariant
            i <= parents@.len(),
            infos_wf(parents@),
            views == infos_view(parents@),
            total == added@.len() + removed@.len() + weight(views.take(i as int)),
            total <= MAX_WEIGHT,
        decreases parents@.len() - i,
    {
        assert(parents@[i as int].wf());
        let size = parents[i].added.len() as u128 + parents[i].removed.len() as u128;
        proof {
            lemma_weight_take(views, i as int);
            lemma_weight_take(views, i + 1);
            assert(views[i as int] == parents@[i as int]@);
        }
        total = total + size;
        if total > MAX_WEIGHT {
            return None;
        }
        i = i + 1;
    }
    assert(views.take(i as int) =~= views);
    Some(total)
}

/// Writes the layer of `current` where [`place`] puts it.
fn place_layer(
    current: u64,
    statediffnew: StateSet,
    statediffremoved: StateSet,
    diff_to_sibling: u128,
    parent_states: Vec<StateInfo>,
    statediffs: &mut Tree,
)
    requires
        statediffnew.wf(),
        statediffremoved.wf(),
        infos_wf(parent_states@),
        old(statediffs).wf(),
        place_fits(statediffnew@, statediffremoved@, infos_view(parent_states@)),
        diff_to_sibling <= u64::MAX,
    ensures
        final(statediffs).wf(),
        final(statediffs)@ == old(statediffs)@.insert(
            hash_key(current),
            placement_bytes(
                place(
                    statediffnew@,
                    statediffremoved@,
                    diff_to_sibling as nat,
                    infos_view(parent_states@),
                ),
            ),
        ),
        final(statediffs).watch() == old(statediffs).watch().fire(hash_key(current)),
    decreases parent_states@.len(),
{
    let mut parent_states = parent_states;
    let ghost parents = infos_view(parent_states@);
    let key = u64_to_be_bytes(current);
    let diffsum: u128 = statediffnew.len() as u128 + statediffremoved.len() as u128;
    proof {
        lemma_ascending_seq(&statediffnew);
        lemma_ascending_seq(&statediffremoved);
    }
    if parent_states.len() == 0 {
        let nothing = StateSet::new();
        proof {
            lemma_ascending_seq(&nothing);
        }
        let value = encode_layer(0, &statediffnew, &nothing);
        statediffs.insert(key.as_slice(), value.as_slice());
        return ;
    }
    let deep = parent_states.len() > 3;
    let ghost full = parent_states@;
    let parent = parent_states.pop().unwrap();
    assert(parent == full.last());
    assert(full.last().wf());
    assert(infos_view(parent_states@) =~= parents.drop_last());
    assert(parents.last() == parent@);
    assert(infos_wf(parent_states@)) by {
        assert forall|i: int| 0 <= i < parent_states@.len() implies (
        #[trigger] parent_states@[i]).wf() by {
            assert(full[i].wf());
        }
    }
    let parent_diff: u128 = parent.added.len() as u128 + parent.removed.len() as u128;
    proof {
        assert(parent_diff == diff_size(parents.last()));
        assert(diffsum * diffsum <= 0x4000_0000_0000_0000 * 0x4000_0000_0000_0000)
            by (nonlinear_arith)
            requires
                diffsum <= 0x4000_0000_0000_0000,
        ;
        assert(2 * diff_to_sibling * parent_diff <= 2 * 0xffff_ffff_ffff_ffff
            * 0x4000_0000_0000_0000) by (nonlinear_arith)
            requires
                diff_to_sibling <= 0xffff_ffff_ffff_ffff,
                parent_diff <= 0x4000_0000_0000_0000,
        ;
    }
    if deep || diffsum * diffsum >= 2 * diff_to_sibling * parent_diff {
        proof {
            lemma_fold_size(parent.added@, parent.removed@, statediffnew@, statediffremoved@);
        }
        let (parent_new, parent_removed) = fold_into(
            parent.added,
            parent.removed,
            &statediffnew,
            &statediffremoved,
        );
        place_layer(current, parent_new, parent_removed, diffsum, parent_states, statediffs);
    } else {
        let value = encode_layer(parent.shortstatehash, &statediffnew, &statediffremoved);
        statediffs.insert(key.as_slice(), value.as_slice());
    }
}

/// Writes the layer of `current_shortstatehash`, whose state differs from
/// the state at the end of `parent_states` by `statediffnew` and
/// `statediffremoved`, where [`place`] puts it. Nothing is written where the
/// diff and the chain hold more than [`MAX_WEIGHT`] entries together.
pub fn update_shortstatehash_level(
    current_shortstatehash: u64,
    statediffnew: StateSet,
    statediffremoved: StateSet,
    diff_to_sibling: usize,
    parent_states: Vec<StateInfo>,
    statediffs: &mut Tree,
) -> (r: Result<(), Error>)
    requires
        statediffnew.wf(),
        statediffremoved.wf(),
        infos_wf(parent_states@),
        old(statediffs).wf(),
    ensures
        final(statediffs).wf(),
        place_fits(statediffnew@, statediffremoved@, infos_view(parent_states@)) ==> r is Ok
            && final(statediffs)@ == old(statediffs)@.insert(
            hash_key(current_shortstatehash),
            placement_bytes(
                place(
                    statediffnew@,
                    statediffremoved@,
                    diff_to_sibling as nat,
                    infos_view(parent_states@),
                ),
            ),
        ) && final(statediffs).watch() == old(statediffs).watch().fire(
            hash_key(current_shortstatehash),
        ),
        !place_fits(statediffnew@, statediffremoved@, infos_view(parent_states@)) ==> r == Err::<
            (),
            Error,
        >(Error::BadDatabase("State diff is too large."))
            && final(statediffs)@ == old(statediffs)@
            && final(statediffs).watch() == old(statediffs).watch(),
{
    match total_weight(&statediffnew, &statediffremoved, &parent_states) {
        None => Err(Error::bad_database("State diff is too large.")),
        Some(_) => {
            place_layer(
                current_shortstatehash,
                statediffnew,
                statediffremoved,
                diff_to_sibling as u128,
                parent_states,
                statediffs,
            );
            Ok(())
        },
    }
}


/// The chain that a new state is saved on: the chain of its parent, or no
/// layer at all for the first state of a room.
pub open spec fn parents_of(rows: Map<Seq<u8>, Seq<u8>>, parent: Option<u64>) -> Result<
    Seq<StateInfoView>,
    LoadFault,
> {
    match parent {
        Some(shortstatehash) => chain(rows, shortstatehash),
        None => Ok(Seq::empty()),
    }
}

/// The rows after `new_state` was saved under `current` on the chain
/// `parents`: the diff of the new state against the state at the end of the
/// chain is placed on the chain.
pub open spec fn saved(
    rows: Map<Seq<u8>, Seq<u8>>,
    current: u64,
    parents: Seq<StateInfoView>,
    new_state: Set<u128>,
) -> Map<Seq<u8>, Seq<u8>> {
    rows.insert(
        hash_key(current),
        placement_bytes(
            place(
                new_state.difference(base(parents)),
                base(parents).difference(new_state),
                2,
                parents,
            ),
        ),
    )
}

/// Saves `new_state` as the resolved state with the hash `current`, whose
/// parent in the room is `parent`: the state is written as a diff layer on
/// the parent's chain, where [`place`] puts it.
///
/// The state is read back from the new layer as it was saved, over at most
/// four layers, as long as the parent is older, the parent's chain is tight
/// and no entry has the short state key zero.
pub fn save_state(
    current: u64,
    parent: Option<u64>,
    new_state: &StateSet,
    statediffs: &mut Tree,
    lru: &mut LruCache<u64, Vec<StateInfo>>,
) -> (r: Result<(), Error>)
    requires
        new_state.wf(),
        old(statediffs).wf(),
        cache_valid(*old(lru), old(statediffs)@),
    ensures
        final(statediffs).wf(),
        cache_capacity(*final(lru)) == cache_capacity(*old(lru)),
        forall|k: u64| #[trigger]
            cached(*final(lru)).contains_key(k) ==> cached(*old(lru)).contains_key(k) || (parent
                matches Some(p) && k <= p),
        (forall|k: u64| #[trigger] cached(*final(lru)).contains_key(k) ==> k < current)
            ==> cache_valid(*final(lru), final(statediffs)@),
        match parents_of(old(statediffs)@, parent) {
            Err(fault) => r == Err::<(), Error>(fault_error(fault))
                && final(statediffs)@ == old(statediffs)@
                && final(statediffs).watch() == old(statediffs).watch(),
            Ok(parents) => {
                let added = new_state@.difference(base(parents));
                let removed = base(parents).difference(new_state@);
                if place_fits(added, removed, parents) {
                    &&& r is Ok
                    &&& final(statediffs)@ == saved(old(statediffs)@, current, parents, new_state@)
                    &&& final(statediffs).watch() == old(statediffs).watch().fire(
                        hash_key(current),
                    )
                    &&& (tight(parents) && keyed_set(new_state@) && (parents.len() > 0
                        ==> parents[0].shortstatehash != 0 && parents.last().shortstatehash
                        < current)) ==> (chain(final(statediffs)@, current) matches Ok(c)
                        && c.last().full_state == new_state@ && c.len() <= 4 && tight(c))
                } else {
                    &&& r == Err::<(), Error>(Error::BadDatabase("State diff is too large."))
                    &&& final(statediffs)@ == old(statediffs)@
                    &&& final(statediffs).watch() == old(statediffs).watch()
                }
            },
        },
{
    let ghost rows = statediffs@;
    let parent_states: Vec<StateInfo> = match parent {
        None => Vec::new(),
        Some(shortstatehash) => match load_shortstatehash_info(shortstatehash, statediffs, lru) {
            Ok(infos) => infos,
            Err(e) => {
                return Err(e);
            },
        },
    };
    let ghost parents = infos_view(parent_states@);
    proof {
        if parent is None {
            assert(parents =~= Seq::empty());
        }
    }
    let (statediffnew, statediffremoved) = if parent_states.len() > 0 {
        let last = &parent_states[parent_states.len() - 1];
        assert(last.wf());
        assert(parents.last() == last@);
        (new_state.difference(&last.full_state), last.full_state.difference(new_state))
    } else {
        let nothing = StateSet::new();
        let all = new_state.clone();
        proof {
            assert(all@ =~= new_state@.difference(base(parents)));
            assert(nothing@ =~= base(parents).difference(new_state@));
        }
        (all, nothing)
    };
    let r = update_shortstatehash_level(
        current,
        statediffnew,
        statediffremoved,
        2,
        parent_states,
        statediffs,
    );
    proof {
        let added = new_state@.difference(base(parents));
        let removed = base(parents).difference(new_state@);
        let value = placement_bytes(place(added, removed, 2, parents));
        if r is Ok {
            if forall|k: u64| #[trigger] cached(*lru).contains_key(k) ==> k < current {
                assert forall|k: u64| #[trigger] cached(*lru).contains_key(k) implies chain(
                    statediffs@,
                    k,
                ) == chain(rows, k) by {
                    lemma_chain_stable(rows, current, value, k);
                }
            }
            if tight(parents) && keyed_set(new_state@) && (parents.len() > 0
                ==> parents[0].shortstatehash != 0 && parents.last().shortstatehash < current) {
                new_state.lemma_elems();
                if parent is Some {
                    lemma_chain_linked(rows, parent->Some_0);
                }
                lemma_placed_chain(rows, current, added, removed, 2, parents);
                assert(apply(base(parents), added, removed) =~= new_state@);
            }
        }
    }
    r
}

} // verus!
