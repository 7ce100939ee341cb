//! What holds of the compacted state store: a layer is read back as it was
//! written, and the state written on a chain is the state read from it.

use crate::state_diff::{
    added_from, apply, ascending_seq, chain, entries_bytes, fold, hash_key, is_separator,
    layer_bytes, layer_of, parents_of, place, placement_bytes, removed_from, removed_start, saved,
    window, Layer, LoadFault, Placement, StateInfoView,
};
use crate::state_set::{lemma_ascending_unique, strictly_ascending};
use crate::utils::{
    be_bytes, be_value, lemma_be_bytes_len, lemma_be_bytes_of_value, lemma_be_value_concat,
    lemma_be_value_of_bytes, lemma_pow256_values, pow256,
};
use vstd::prelude::*;

verus! {

/// The least entry whose short state key is not zero.
pub open spec fn first_keyed_entry() -> u128 {
    0x1_0000_0000_0000_0000
}

/// No entry of the run has the short state key zero, which on disk would be
/// read as the separator.
pub open spec fn keyed(elems: Seq<u128>) -> bool {
    forall|i: int| 0 <= i < elems.len() ==> elems[i] >= first_keyed_entry()
}

/// No entry of the set has the short state key zero.
pub open spec fn keyed_set(s: Set<u128>) -> bool {
    forall|e: u128| s.contains(e) ==> e >= first_keyed_entry()
}

proof fn lemma_entries_bytes_len(elems: Seq<u128>)
    ensures
        entries_bytes(elems).len() == 16 * elems.len(),
    decreases elems.len(),
{
    if elems.len() > 0 {
        lemma_entries_bytes_len(elems.drop_last());
        lemma_be_bytes_len(elems.last() as nat, 16);
    }
}

proof fn lemma_entries_bytes_front(elems: Seq<u128>)
    requires
        elems.len() > 0,
    ensures
        entries_bytes(elems) == be_bytes(elems[0] as nat, 16) + entries_bytes(elems.skip(1)),
    decreases elems.len(),
{
    if elems.len() == 1 {
        assert(elems.drop_last() =~= Seq::empty());
        assert(elems.skip(1) =~= Seq::empty());
        assert(entries_bytes(elems) =~= be_bytes(elems[0] as nat, 16) + entries_bytes(
            elems.skip(1),
        ));
    } else {
        lemma_entries_bytes_front(elems.drop_last());
        assert(elems.drop_last().skip(1) =~= elems.skip(1).drop_last());
        assert(entries_bytes(elems) =~= be_bytes(elems[0] as nat, 16) + entries_bytes(
            elems.skip(1),
        ));
    }
}

/// The upper eight bytes of an entry's encoding hold its short state key.
proof fn lemma_high_half(e: u128)
    ensures
        be_bytes(e as nat, 16).len() == 16,
        be_value(be_bytes(e as nat, 16)) == e,
        be_value(be_bytes(e as nat, 16).subrange(0, 8)) == e / first_keyed_entry(),
{
    let bytes = be_bytes(e as nat, 16);
    lemma_be_bytes_len(e as nat, 16);
    lemma_pow256_values();
    lemma_be_value_of_bytes(e as nat, 16);
    let high = bytes.subrange(0, 8);
    let low = bytes.subrange(8, 16);
    assert(bytes =~= high + low);
    lemma_be_value_concat(high, low);
    lemma_be_bytes_of_value(low);
    lemma_be_bytes_of_value(high);
    let h = be_value(high) as int;
    let l = be_value(low) as int;
    let x = e as int;
    assert(x == h * 0x1_0000_0000_0000_0000 + l);
    assert(x / 0x1_0000_0000_0000_0000 == h) by (nonlinear_arith)
        requires
            x == h * 0x1_0000_0000_0000_0000 + l,
            0 <= l < 0x1_0000_0000_0000_0000,
    ;
}

/// Reading added entries where a run of entries was written, followed by
/// the end of the value or by a separator, gives the run back.
proof fn lemma_scan_added(value: Seq<u8>, i: int, elems: Seq<u128>)
    requires
        0 <= i,
        i + 16 * elems.len() <= value.len(),
        value.subrange(i, i + 16 * elems.len()) == entries_bytes(elems),
        keyed(elems),
        i + 16 * elems.len() + 16 > value.len() || is_separator(value, i + 16 * elems.len()),
    ensures
        added_from(value, i) == elems.to_set(),
        removed_start(value, i) == if i + 16 * elems.len() + 16 > value.len() {
            value.len() as int
        } else {
            i + 16 * elems.len() + 8
        },
    decreases elems.len(),
{
    if elems.len() == 0 {
        assert(elems.to_set() =~= Set::empty());
    } else {
        let e = elems[0];
        let rest = elems.skip(1);
        let run = value.subrange(i, i + 16 * elems.len());
        lemma_entries_bytes_front(elems);
        lemma_entries_bytes_len(rest);
        lemma_high_half(e);
        assert(value.subrange(i, i + 16) =~= be_bytes(e as nat, 16)) by {
            assert(run.subrange(0, 16) =~= be_bytes(e as nat, 16));
            assert(run.subrange(0, 16) =~= value.subrange(i, i + 16));
        }
        assert(value.subrange(i, i + 8) =~= be_bytes(e as nat, 16).subrange(0, 8));
        assert(e / first_keyed_entry() != 0);
        assert(!is_separator(value, i));
        assert(window(value, i) == e);
        assert(value.subrange(i + 16, i + 16 + 16 * rest.len()) =~= entries_bytes(rest)) by {
            assert(run.subrange(16, 16 * (elems.len() as int)) =~= entries_bytes(rest));
            assert(run.subrange(16, 16 * (elems.len() as int)) =~= value.subrange(
                i + 16,
                i + 16 + 16 * rest.len(),
            ));
        }
        lemma_scan_added(value, i + 16, rest);
        assert(elems.to_set() =~= rest.to_set().insert(e)) by {
            assert forall|y: u128| elems.contains(y) <==> (rest.contains(y) || y == e) by {
                if elems.contains(y) {
                    let j = choose|j: int| 0 <= j < elems.len() && elems[j] == y;
                    if j > 0 {
                        assert(rest[j - 1] == y);
                    }
                }
                if rest.contains(y) {
                    let j = choose|j: int| 0 <= j < rest.len() && rest[j] == y;
                    assert(elems[j + 1] == y);
                }
            }
        }
    }
}

/// Reading removed entries where a run of entries ends the value gives the
/// run back.
proof fn lemma_scan_removed(value: Seq<u8>, i: int, elems: Seq<u128>)
    requires
        0 <= i,
        i + 16 * elems.len() == value.len(),
        value.subrange(i, i + 16 * elems.len()) == entries_bytes(elems),
    ensures
        removed_from(value, i) == elems.to_set(),
    decreases elems.len(),
{
    if elems.len() == 0 {
        assert(elems.to_set() =~= Set::empty());
    } else {
        let e = elems[0];
        let rest = elems.skip(1);
        let run = value.subrange(i, i + 16 * elems.len());
        lemma_entries_bytes_front(elems);
        lemma_entries_bytes_len(rest);
        lemma_high_half(e);
        assert(value.subrange(i, i + 16) =~= be_bytes(e as nat, 16)) by {
            assert(run.subrange(0, 16) =~= be_bytes(e as nat, 16));
            assert(run.subrange(0, 16) =~= value.subrange(i, i + 16));
        }
        assert(window(value, i) == e);
        assert(value.subrange(i + 16, i + 16 + 16 * rest.len()) =~= entries_bytes(rest)) by {
            assert(run.subrange(16, 16 * (elems.len() as int)) =~= entries_bytes(rest));
            assert(run.subrange(16, 16 * (elems.len() as int)) =~= value.subrange(
                i + 16,
                i + 16 + 16 * rest.len(),
            ));
        }
        lemma_scan_removed(value, i + 16, rest);
        assert(elems.to_set() =~= rest.to_set().insert(e)) by {
            assert forall|y: u128| elems.contains(y) <==> (rest.contains(y) || y == e) by {
                if elems.contains(y) {
                    let j = choose|j: int| 0 <= j < elems.len() && elems[j] == y;
                    if j > 0 {
                        assert(rest[j - 1] == y);
                    }
                }
                if rest.contains(y) {
                    let j = choose|j: int| 0 <= j < rest.len() && rest[j] == y;
                    assert(elems[j + 1] == y);
                }
            }
        }
    }
}

/// A layer is read back as it was written, as long as no added entry has
/// the short state key zero.
pub proof fn lemma_layer_round_trip(parent: u64, added: Seq<u128>, removed: Seq<u128>)
    requires
        keyed(added),
    ensures
        layer_bytes(parent, added, removed).len() >= 8,
        layer_of(layer_bytes(parent, added, removed)) == (Layer {
            parent,
            added: added.to_set(),
            removed: removed.to_set(),
        }),
{
    let value = layer_bytes(parent, added, removed);
    let head = be_bytes(parent as nat, 8);
    lemma_be_bytes_len(parent as nat, 8);
    lemma_be_bytes_len(0, 8);
    lemma_entries_bytes_len(added);
    lemma_entries_bytes_len(removed);
    lemma_pow256_values();
    lemma_be_value_of_bytes(parent as nat, 8);
    lemma_be_value_of_bytes(0, 8);
    let mid: int = 8 + 16 * (added.len() as int);
    assert(value.subrange(0, 8) =~= head);
    assert(value.subrange(8, mid) =~= entries_bytes(added));
    if removed.len() > 0 {
        assert(value.len() == mid + 8 + 16 * removed.len());
        assert(value.subrange(mid, mid + 8) =~= be_bytes(0, 8));
        assert(is_separator(value, mid));
        lemma_scan_added(value, 8, added);
        assert(value.subrange(mid + 8, mid + 8 + 16 * removed.len()) =~= entries_bytes(removed));
        lemma_scan_removed(value, mid + 8, removed);
    } else {
        assert(value.len() == mid);
        lemma_scan_added(value, 8, added);
        assert(removed.to_set() =~= Set::empty());
    }
}

/// No added entry that is read back has the short state key zero.
pub proof fn lemma_added_keyed(value: Seq<u8>, i: int)
    requires
        0 <= i,
    ensures
        keyed_set(added_from(value, i)),
    decreases value.len() - i,
{
    if i + 16 <= value.len() && !is_separator(value, i) {
        lemma_added_keyed(value, i + 16);
        let bytes = value.subrange(i, i + 16);
        let high = bytes.subrange(0, 8);
        let low = bytes.subrange(8, 16);
        assert(bytes =~= high + low);
        assert(high =~= value.subrange(i, i + 8));
        lemma_be_value_concat(high, low);
        lemma_be_bytes_of_value(bytes);
        lemma_pow256_values();
        assert(be_value(high) >= 1);
        assert(be_value(high) * pow256(8) >= pow256(8)) by (nonlinear_arith)
            requires
                be_value(high) >= 1,
        ;
    }
}


pub proof fn lemma_hash_key_injective(a: u64, b: u64)
    requires
        hash_key(a) == hash_key(b),
    ensures
        a == b,
{
    lemma_pow256_values();
    lemma_be_value_of_bytes(a as nat, 8);
    lemma_be_value_of_bytes(b as nat, 8);
}

/// Writing the row of a hash changes the chain of no older hash.
pub proof fn lemma_chain_stable(
    rows: Map<Seq<u8>, Seq<u8>>,
    shortstatehash: u64,
    value: Seq<u8>,
    older: u64,
)
    requires
        older < shortstatehash,
    ensures
        chain(rows.insert(hash_key(shortstatehash), value), older) == chain(rows, older),
    decreases older,
{
    if hash_key(older) == hash_key(shortstatehash) {
        lemma_hash_key_injective(older, shortstatehash);
    }
    let key = hash_key(older);
    if rows.contains_key(key) && rows[key].len() >= 8 {
        let layer = layer_of(rows[key]);
        if layer.parent != 0 && layer.parent < older {
            lemma_chain_stable(rows, shortstatehash, value, layer.parent);
        }
    }
}

proof fn lemma_scan_finite(value: Seq<u8>, i: int)
    requires
        0 <= i,
    ensures
        added_from(value, i).finite(),
        removed_from(value, i).finite(),
    decreases value.len() - i,
{
    if i + 16 <= value.len() {
        lemma_scan_finite(value, i + 16);
    }
}

proof fn lemma_removed_start_nonnegative(value: Seq<u8>, i: int)
    requires
        0 <= i,
    ensures
        0 <= removed_start(value, i),
    decreases value.len() - i,
{
    if i + 16 <= value.len() && !is_separator(value, i) {
        lemma_removed_start_nonnegative(value, i + 16);
    }
}

/// The state below a diff that is placed on `parents`: the state of the
/// last layer, or nothing.
pub open spec fn base(parents: Seq<StateInfoView>) -> Set<u128> {
    if parents.len() == 0 {
        Set::empty()
    } else {
        parents.last().full_state
    }
}

/// Every layer of `c` is the chain's layer at its depth: the rows spell out
/// each beginning of `c` as the chain of the hash it ends in. The hashes
/// grow along the chain, each layer's state is its diff applied to the
/// state below, and its sets are finite.
pub open spec fn linked(rows: Map<Seq<u8>, Seq<u8>>, c: Seq<StateInfoView>) -> bool {
    &&& forall|i: int|
        0 <= i < c.len() ==> chain(rows, (#[trigger] c[i]).shortstatehash) == Ok::<
            Seq<StateInfoView>,
            LoadFault,
        >(c.take(i + 1))
    &&& forall|i: int|
        1 <= i < c.len() ==> c[i - 1].shortstatehash < (#[trigger] c[i]).shortstatehash
    &&& forall|i: int|
        1 <= i < c.len() ==> (#[trigger] c[i]).full_state == apply(
            c[i - 1].full_state,
            c[i].added,
            c[i].removed,
        )
    &&& c.len() > 0 ==> c[0].full_state == c[0].added
    &&& forall|i: int|
        0 <= i < c.len() ==> {
            let info = #[trigger] c[i];
            info.full_state.finite() && info.added.finite() && info.removed.finite()
                && keyed_set(info.added)
        }
}

/// A chain that the rows spell out is linked.
pub proof fn lemma_chain_linked(rows: Map<Seq<u8>, Seq<u8>>, shortstatehash: u64)
    ensures
        chain(rows, shortstatehash) matches Ok(c) ==> linked(rows, c) && c.len() > 0
            && c.last().shortstatehash == shortstatehash,
    decreases shortstatehash,
{
    let key = hash_key(shortstatehash);
    if rows.contains_key(key) && rows[key].len() >= 8 {
        let value = rows[key];
        let layer = layer_of(value);
        lemma_scan_finite(value, 8);
        lemma_removed_start_nonnegative(value, 8);
        lemma_scan_finite(value, removed_start(value, 8));
        lemma_added_keyed(value, 8);
        if layer.parent == 0 {
            let c = chain(rows, shortstatehash)->Ok_0;
            assert(c.take(1) =~= c);
        } else if layer.parent < shortstatehash {
            lemma_chain_linked(rows, layer.parent);
            if chain(rows, layer.parent) is Ok {
                let below = chain(rows, layer.parent)->Ok_0;
                let c = chain(rows, shortstatehash)->Ok_0;
                assert(c.drop_last() =~= below);
                assert forall|i: int| 0 <= i < c.len() implies chain(
                    rows,
                    (#[trigger] c[i]).shortstatehash,
                ) == Ok::<Seq<StateInfoView>, LoadFault>(c.take(i + 1)) by {
                    if i < below.len() {
                        assert(c[i] == below[i]);
                        assert(c.take(i + 1) =~= below.take(i + 1));
                    } else {
                        assert(c.take(i + 1) =~= c);
                    }
                }
                assert forall|i: int| 0 <= i < c.len() implies {
                    let info = #[trigger] c[i];
                    info.full_state.finite() && info.added.finite() && info.removed.finite()
                        && keyed_set(info.added)
                } by {
                    if i < below.len() {
                        assert(c[i] == below[i]);
                    }
                }
                assert forall|i: int| 1 <= i < c.len() implies (#[trigger] c[i]).full_state
                    == apply(c[i - 1].full_state, c[i].added, c[i].removed) by {
                    if i < below.len() {
                        assert(c[i] == below[i]);
                        assert(c[i - 1] == below[i - 1]);
                    }
                }
                assert forall|i: int| 1 <= i < c.len() implies c[i - 1].shortstatehash < (
                #[trigger] c[i]).shortstatehash by {
                    if i < below.len() {
                        assert(c[i] == below[i]);
                        assert(c[i - 1] == below[i - 1]);
                    }
                }
            }
        }
    }
}

/// No layer of the chain adds what is already there or removes what is
/// not, and the root removes nothing.
pub open spec fn tight(c: Seq<StateInfoView>) -> bool {
    &&& c.len() > 0 ==> c[0].removed == Set::<u128>::empty()
    &&& forall|i: int|
        1 <= i < c.len() ==> (#[trigger] c[i]).added.disjoint(c[i - 1].full_state)
            && c[i].removed.subset_of(c[i - 1].full_state)
}

/// Folding a diff into its parent's gives the diff from the layer below the
/// parent, and again one that adds only what was not there and removes only
/// what was.
pub proof fn lemma_fold_sound(
    below: Set<u128>,
    parent_added: Set<u128>,
    parent_removed: Set<u128>,
    added: Set<u128>,
    removed: Set<u128>,
)
    requires
        parent_added.disjoint(below),
        parent_removed.subset_of(below),
        added.disjoint(apply(below, parent_added, parent_removed)),
        removed.subset_of(apply(below, parent_added, parent_removed)),
    ensures
        apply(
            below,
            fold(parent_added, parent_removed, added, removed).0,
            fold(parent_added, parent_removed, added, removed).1,
        ) == apply(apply(below, parent_added, parent_removed), added, removed),
        fold(parent_added, parent_removed, added, removed).0.disjoint(below),
        fold(parent_added, parent_removed, added, removed).1.subset_of(below),
{
    let f = fold(parent_added, parent_removed, added, removed);
    let state = apply(below, parent_added, parent_removed);
    assert forall|x: u128| apply(below, f.0, f.1).contains(x) == apply(
        state,
        added,
        removed,
    ).contains(x) by {
        if added.contains(x) {
            assert(!state.contains(x));
        }
        if removed.contains(x) {
            assert(state.contains(x));
        }
    }
    assert(apply(below, f.0, f.1) =~= apply(state, added, removed));
    assert forall|x: u128| f.0.contains(x) implies !below.contains(x) by {
        if added.contains(x) {
            assert(!state.contains(x));
        }
    }
    assert forall|x: u128| f.1.contains(x) implies below.contains(x) by {
        if removed.contains(x) {
            assert(state.contains(x));
        }
    }
}

/// Where a diff comes to rest, it gives the state it gave where it was put.
pub proof fn lemma_place_sound(
    rows: Map<Seq<u8>, Seq<u8>>,
    added: Set<u128>,
    removed: Set<u128>,
    diff_to_sibling: nat,
    parents: Seq<StateInfoView>,
)
    requires
        linked(rows, parents),
        tight(parents),
        added.finite(),
        removed.finite(),
        keyed_set(added),
        added.disjoint(base(parents)),
        removed.subset_of(base(parents)),
    ensures
        ({
            let p = place(added, removed, diff_to_sibling, parents);
            &&& p.parents.len() <= 3
            &&& p.parents.len() <= parents.len()
            &&& p.parents == parents.take(p.parents.len() as int)
            &&& p.added.finite()
            &&& p.removed.finite()
            &&& keyed_set(p.added)
            &&& apply(base(p.parents), p.added, p.removed) == apply(base(parents), added, removed)
            &&& p.added.disjoint(base(p.parents))
            &&& p.removed.subset_of(base(p.parents))
        }),
    decreases parents.len(),
{
    let diffsum = added.len() + removed.len();
    if parents.len() == 0 {
        assert(removed =~= Set::empty());
        assert(parents.take(0) =~= parents);
    } else if parents.len() > 3 || crate::state_diff::too_large(
        diffsum,
        diff_to_sibling,
        crate::state_diff::diff_size(parents.last()),
    ) {
        let parent = parents.last();
        let rest = parents.drop_last();
        let below = base(rest);
        let last = parents.len() - 1;
        assert(parent == parents[last]);
        if parents.len() == 1 {
            assert(parent.full_state =~= apply(below, parent.added, parent.removed));
        } else {
            assert(rest.last() == parents[last - 1]);
            assert(parents[last].full_state == apply(
                parents[last - 1].full_state,
                parents[last].added,
                parents[last].removed,
            ));
            assert(parents[last].added.disjoint(parents[last - 1].full_state));
        }
        lemma_fold_sound(below, parent.added, parent.removed, added, removed);
        let f = fold(parent.added, parent.removed, added, removed);
        assert(f.0.finite() && f.1.finite());
        assert(keyed_set(f.0));
        assert(linked(rows, rest)) by {
            assert forall|i: int| 0 <= i < rest.len() implies chain(
                rows,
                (#[trigger] rest[i]).shortstatehash,
            ) == Ok::<Seq<StateInfoView>, LoadFault>(rest.take(i + 1)) by {
                assert(rest[i] == parents[i]);
                assert(rest.take(i + 1) =~= parents.take(i + 1));
            }
            assert forall|i: int| 0 <= i < rest.len() implies {
                let info = #[trigger] rest[i];
                info.full_state.finite() && info.added.finite() && info.removed.finite()
                    && keyed_set(info.added)
            } by {
                assert(rest[i] == parents[i]);
            }
            assert forall|i: int| 1 <= i < rest.len() implies (#[trigger] rest[i]).full_state
                == apply(rest[i - 1].full_state, rest[i].added, rest[i].removed) by {
                assert(rest[i] == parents[i]);
                assert(rest[i - 1] == parents[i - 1]);
            }
            assert forall|i: int| 1 <= i < rest.len() implies rest[i - 1].shortstatehash < (
            #[trigger] rest[i]).shortstatehash by {
                assert(rest[i] == parents[i]);
                assert(rest[i - 1] == parents[i - 1]);
            }
            if rest.len() > 0 {
                assert(rest[0] == parents[0]);
            }
        }
        assert(tight(rest)) by {
            assert forall|i: int| 1 <= i < rest.len() implies (#[trigger] rest[i]).added.disjoint(
                rest[i - 1].full_state,
            ) && rest[i].removed.subset_of(rest[i - 1].full_state) by {
                assert(rest[i] == parents[i]);
                assert(rest[i - 1] == parents[i - 1]);
            }
            if rest.len() > 0 {
                assert(rest[0] == parents[0]);
            }
        }
        lemma_place_sound(rows, f.0, f.1, diffsum, rest);
        let p = place(f.0, f.1, diffsum, rest);
        assert(rest.take(p.parents.len() as int) =~= parents.take(p.parents.len() as int));
    } else {
        assert(parents.take(parents.len() as int) =~= parents);
    }
}

proof fn lemma_max_exists(s: Set<u128>)
    requires
        s.finite(),
        s.len() > 0,
    ensures
        exists|m: u128| s.contains(m) && forall|x: u128| s.contains(x) ==> x <= m,
    decreases s.len(),
{
    vstd::set::axiom_set_choose_len(s);
    let x = s.choose();
    let rest = s.remove(x);
    vstd::set::axiom_set_remove_len(s, x);
    vstd::set::axiom_set_remove_finite(s, x);
    if rest.len() == 0 {
        rest.lemma_len0_is_empty();
        assert forall|y: u128| s.contains(y) implies y <= x by {
            if y != x {
                assert(rest.contains(y));
            }
        }
    } else {
        lemma_max_exists(rest);
        let m0 = choose|m: u128| rest.contains(m) && forall|y: u128| rest.contains(y) ==> y <= m;
        let m = if x > m0 {
            x
        } else {
            m0
        };
        assert forall|y: u128| s.contains(y) implies y <= m by {
            if y != x {
                assert(rest.contains(y));
            }
        }
        assert(s.contains(m));
    }
}

/// A finite set has its entries in ascending order.
pub proof fn lemma_ascending_exists(s: Set<u128>)
    requires
        s.finite(),
    ensures
        strictly_ascending(ascending_seq(s)),
        ascending_seq(s).to_set() == s,
    decreases s.len(),
{
    if s.len() == 0 {
        s.lemma_len0_is_empty();
        let q = Seq::<u128>::empty();
        assert(q.to_set() =~= s);
        assert(strictly_ascending(q) && q.to_set() == s);
    } else {
        lemma_max_exists(s);
        let m = choose|m: u128| s.contains(m) && forall|x: u128| s.contains(x) ==> x <= m;
        let rest = s.remove(m);
        vstd::set::axiom_set_remove_len(s, m);
        vstd::set::axiom_set_remove_finite(s, m);
        lemma_ascending_exists(rest);
        let q0 = ascending_seq(rest);
        let q = q0.push(m);
        assert forall|i: int, j: int| 0 <= i < j < q.len() implies q[i] < q[j] by {
            if j == q0.len() {
                assert(q0.contains(q0[i]));
                assert(rest.contains(q0[i]));
            } else {
                assert(q0[i] < q0[j]);
            }
        }
        assert forall|y: u128| q.contains(y) == s.contains(y) by {
            crate::tree::lemma_push_contains(q0, m, y);
            assert(q0.contains(y) == rest.contains(y));
        }
        assert(q.to_set() =~= s);
        assert(strictly_ascending(q) && q.to_set() == s);
    }
}

/// The chain of a layer that was placed: the layers it rests on, and on top
/// the layer itself, whose state is the state that the diff gave on the
/// chain it was placed on. No chain so written is longer than four layers.
pub proof fn lemma_placed_chain(
    rows: Map<Seq<u8>, Seq<u8>>,
    current: u64,
    added: Set<u128>,
    removed: Set<u128>,
    diff_to_sibling: nat,
    parents: Seq<StateInfoView>,
)
    requires
        linked(rows, parents),
        tight(parents),
        parents.len() > 0 ==> parents[0].shortstatehash != 0 && parents.last().shortstatehash
            < current,
        added.finite(),
        removed.finite(),
        keyed_set(added),
        added.disjoint(base(parents)),
        removed.subset_of(base(parents)),
    ensures
        ({
            let p = place(added, removed, diff_to_sibling, parents);
            let written = rows.insert(hash_key(current), placement_bytes(p));
            let top = StateInfoView {
                shortstatehash: current,
                full_state: apply(base(parents), added, removed),
                added: p.added,
                removed: p.removed,
            };
            &&& chain(written, current) == Ok::<Seq<StateInfoView>, LoadFault>(p.parents.push(top))
            &&& p.parents.push(top).len() <= 4
            &&& tight(p.parents.push(top))
            &&& linked(written, p.parents.push(top))
        }),
{
    let p = place(added, removed, diff_to_sibling, parents);
    let value = placement_bytes(p);
    let written = rows.insert(hash_key(current), value);
    let top = StateInfoView {
        shortstatehash: current,
        full_state: apply(base(parents), added, removed),
        added: p.added,
        removed: p.removed,
    };
    lemma_place_sound(rows, added, removed, diff_to_sibling, parents);
    lemma_ascending_exists(p.added);
    lemma_ascending_exists(p.removed);
    let a = ascending_seq(p.added);
    let r = ascending_seq(p.removed);
    assert(keyed(a)) by {
        assert forall|i: int| 0 <= i < a.len() implies a[i] >= first_keyed_entry() by {
            assert(a.contains(a[i]));
            assert(p.added.contains(a[i]));
        }
    }
    let n = p.parents.len() as int;
    let parent_hash = if n == 0 {
        0u64
    } else {
        p.parents.last().shortstatehash
    };
    lemma_layer_round_trip(parent_hash, a, r);
    assert(written[hash_key(current)] == value);
    if n == 0 {
        assert(p.removed =~= Set::empty());
        assert(p.added =~= apply(base(parents), added, removed));
        assert(p.parents.push(top) =~= seq![top]);
    } else {
        assert(p.parents.last() == parents[n - 1]);
        assert(parents[n - 1].shortstatehash <= parents.last().shortstatehash) by {
            lemma_hashes_grow(rows, parents, n - 1, parents.len() - 1);
        }
        assert(parent_hash != 0) by {
            lemma_hashes_grow(rows, parents, 0, n - 1);
        }
        lemma_chain_stable(rows, current, value, parent_hash);
        assert(chain(rows, parents[n - 1].shortstatehash) == Ok::<Seq<StateInfoView>, LoadFault>(
            parents.take(n),
        ));
    }
    let c = p.parents.push(top);
    assert(chain(written, current) == Ok::<Seq<StateInfoView>, LoadFault>(c));
    assert(tight(c)) by {
        assert forall|i: int| 1 <= i < c.len() implies (#[trigger] c[i]).added.disjoint(
            c[i - 1].full_state,
        ) && c[i].removed.subset_of(c[i - 1].full_state) by {
            if i < n {
                assert(c[i] == parents[i]);
                assert(c[i - 1] == parents[i - 1]);
            } else {
                assert(c[i - 1] == p.parents.last());
            }
        }
        if n > 0 {
            assert(c[0] == parents[0]);
        }
    }
    lemma_chain_linked(written, current);
}

proof fn lemma_hashes_grow(rows: Map<Seq<u8>, Seq<u8>>, c: Seq<StateInfoView>, i: int, j: int)
    requires
        linked(rows, c),
        0 <= i <= j < c.len(),
    ensures
        c[i].shortstatehash <= c[j].shortstatehash,
    decreases j - i,
{
    if i < j {
        lemma_hashes_grow(rows, c, i, j - 1);
        assert(c[j - 1].shortstatehash < c[j].shortstatehash);
    }
}


/// Every chain that can be read from the rows is tight, at most four layers
/// deep, and rooted at a hash that is not zero.
pub open spec fn store_sound(rows: Map<Seq<u8>, Seq<u8>>) -> bool {
    forall|shortstatehash: u64|
        (#[trigger] chain(rows, shortstatehash)) matches Ok(c) ==> tight(c) && c.len() <= 4
            && c[0].shortstatehash != 0
}

/// No row is stored for `current` or for a later hash.
pub open spec fn newest(rows: Map<Seq<u8>, Seq<u8>>, current: u64) -> bool {
    forall|later: u64| later >= current ==> !rows.contains_key(#[trigger] hash_key(later))
}

/// A store without rows is sound.
pub proof fn lemma_empty_store_sound()
    ensures
        store_sound(Map::<Seq<u8>, Seq<u8>>::empty()),
{
}

/// Saving a state under a hash newer than every stored one keeps the store
/// sound: every chain stays tight and at most four layers deep, and the new
/// chain ends in the state that was saved.
pub proof fn lemma_save_keeps_store_sound(
    rows: Map<Seq<u8>, Seq<u8>>,
    current: u64,
    parent: Option<u64>,
    new_state: Set<u128>,
)
    requires
        store_sound(rows),
        newest(rows, current),
        current != 0,
        new_state.finite(),
        keyed_set(new_state),
        parents_of(rows, parent) is Ok,
    ensures
        store_sound(saved(rows, current, parents_of(rows, parent)->Ok_0, new_state)),
        chain(
            saved(rows, current, parents_of(rows, parent)->Ok_0, new_state),
            current,
        ) matches Ok(c) && c.last().full_state == new_state,
{
    let parents = parents_of(rows, parent)->Ok_0;
    let written = saved(rows, current, parents, new_state);
    let added = new_state.difference(base(parents));
    let removed = base(parents).difference(new_state);
    let value = placement_bytes(place(added, removed, 2, parents));
    if parent is Some {
        let p = parent->Some_0;
        lemma_chain_linked(rows, p);
        assert(rows.contains_key(hash_key(p)));
        if p >= current {
            assert(!rows.contains_key(hash_key(p)));
        }
    } else {
        assert(parents =~= Seq::empty());
    }
    assert(linked(rows, parents));
    lemma_placed_chain(rows, current, added, removed, 2, parents);
    assert(apply(base(parents), added, removed) =~= new_state);
    assert forall|h: u64| (#[trigger] chain(written, h)) is Ok implies ({
        let c = chain(written, h)->Ok_0;
        tight(c) && c.len() <= 4 && c[0].shortstatehash != 0
    }) by {
        if h < current {
            lemma_chain_stable(rows, current, value, h);
        } else if h > current {
            if hash_key(h) == hash_key(current) {
                lemma_hash_key_injective(h, current);
            }
            assert(!rows.contains_key(hash_key(h)));
        } else {
            let c = chain(written, h)->Ok_0;
            let p = place(added, removed, 2, parents);
            if p.parents.len() > 0 {
                assert(c[0] == p.parents[0]);
                lemma_place_sound(rows, added, removed, 2, parents);
                assert(p.parents[0] == parents[0]);
            }
        }
    }
}

} // verus!
