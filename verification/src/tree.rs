//! The ordered byte-keyed tree: the one abstraction every table is built on.
//!
//! A tree maps byte keys to byte values and keeps its keys in lexicographic
//! order. It also holds the watchers registered on its key prefixes: an
//! insert or a remove wakes every watcher whose prefix begins the key.

use crate::order::{
    compare, lemma_lex_asymmetric, lemma_lex_le_lt, lemma_lex_transitive, lemma_prefix_block,
    lemma_prefix_le, lex_le, lex_lt, KeyOrder,
};
use crate::utils::{be_bytes, bytes_eq, increment, incremented, starts_with, to_vec};
use vstd::prelude::*;

verus! {

/// The keys of `rows` stand in strictly ascending order.
pub open spec fn ascending(rows: Seq<(Seq<u8>, Seq<u8>)>) -> bool {
    forall|i: int, j: int|
        #![trigger rows[i], rows[j]]
        0 <= i < j < rows.len() ==> lex_lt(rows[i].0, rows[j].0)
}

/// Some row of `rows` has the key `key`.
pub open spec fn has_row(rows: Seq<(Seq<u8>, Seq<u8>)>, key: Seq<u8>) -> bool {
    exists|i: int| 0 <= i < rows.len() && (#[trigger] rows[i]).0 == key
}

/// The index of a row of `rows` with the key `key`.
pub open spec fn row_index(rows: Seq<(Seq<u8>, Seq<u8>)>, key: Seq<u8>) -> int {
    choose|i: int| 0 <= i < rows.len() && (#[trigger] rows[i]).0 == key
}

/// The map that the rows spell out.
pub open spec fn map_of(rows: Seq<(Seq<u8>, Seq<u8>)>) -> Map<Seq<u8>, Seq<u8>> {
    Map::new(|key: Seq<u8>| has_row(rows, key), |key: Seq<u8>| rows[row_index(rows, key)].1)
}

/// `list` holds, in ascending key order, exactly the entries of `m` whose
/// key is selected.
pub open spec fn is_listing(
    list: Seq<(Seq<u8>, Seq<u8>)>,
    m: Map<Seq<u8>, Seq<u8>>,
    selected: spec_fn(Seq<u8>) -> bool,
) -> bool {
    &&& ascending(list)
    &&& forall|i: int|
        0 <= i < list.len() ==> {
            let row = #[trigger] list[i];
            m.contains_key(row.0) && m[row.0] == row.1 && selected(row.0)
        }
    &&& forall|key: Seq<u8>| #[trigger]
        m.contains_key(key) && selected(key) ==> has_row(list, key)
}

/// `key` is the least key of `m` that begins with `prefix`.
pub open spec fn is_first_with_prefix(
    m: Map<Seq<u8>, Seq<u8>>,
    prefix: Seq<u8>,
    key: Seq<u8>,
) -> bool {
    &&& m.contains_key(key)
    &&& prefix.is_prefix_of(key)
    &&& forall|other: Seq<u8>| #[trigger]
        m.contains_key(other) && prefix.is_prefix_of(other) ==> lex_le(key, other)
}

/// The least key of `m` that begins with `prefix`, if any key does.
pub open spec fn first_with_prefix(m: Map<Seq<u8>, Seq<u8>>, prefix: Seq<u8>) -> Option<Seq<u8>> {
    if exists|key: Seq<u8>| is_first_with_prefix(m, prefix, key) {
        Some(choose|key: Seq<u8>| is_first_with_prefix(m, prefix, key))
    } else {
        None
    }
}

/// At most one key is the least that begins with a prefix.
pub proof fn lemma_first_with_prefix_unique(
    m: Map<Seq<u8>, Seq<u8>>,
    prefix: Seq<u8>,
    key: Seq<u8>,
)
    requires
        is_first_with_prefix(m, prefix, key),
    ensures
        first_with_prefix(m, prefix) == Some(key),
{
    let other = choose|other: Seq<u8>| is_first_with_prefix(m, prefix, other);
    assert(lex_le(key, other));
    assert(lex_le(other, key));
    if key != other {
        lemma_lex_asymmetric(key, other);
    }
}

/// The map after the rows were stored in it one after the other.
pub open spec fn put_all(m: Map<Seq<u8>, Seq<u8>>, rows: Seq<(Seq<u8>, Seq<u8>)>) -> Map<
    Seq<u8>,
    Seq<u8>,
>
    decreases rows.len(),
{
    if rows.len() == 0 {
        m
    } else {
        put_all(m, rows.drop_last()).insert(rows.last().0, rows.last().1)
    }
}

/// The map after the keys were deleted from it.
pub open spec fn remove_all(m: Map<Seq<u8>, Seq<u8>>, keys: Seq<Seq<u8>>) -> Map<Seq<u8>, Seq<u8>>
    decreases keys.len(),
{
    if keys.len() == 0 {
        m
    } else {
        remove_all(m, keys.drop_last()).remove(keys.last())
    }
}

/// The keys of a list of rows.
pub open spec fn keys_of(rows: Seq<(Seq<u8>, Seq<u8>)>) -> Seq<Seq<u8>> {
    rows.map_values(|row: (Seq<u8>, Seq<u8>)| row.0)
}

/// The test that every key passes.
pub open spec fn every_key() -> spec_fn(Seq<u8>) -> bool {
    |key: Seq<u8>| true
}

/// The test that the keys beginning with `prefix` pass.
pub open spec fn with_prefix(prefix: Seq<u8>) -> spec_fn(Seq<u8>) -> bool {
    |key: Seq<u8>| prefix.is_prefix_of(key)
}

/// The test that the keys at or after `from` pass.
pub open spec fn at_or_after(from: Seq<u8>) -> spec_fn(Seq<u8>) -> bool {
    |key: Seq<u8>| lex_le(from, key)
}

/// The test that the keys before `from` pass.
pub open spec fn before(from: Seq<u8>) -> spec_fn(Seq<u8>) -> bool {
    |key: Seq<u8>| lex_lt(key, from)
}

/// The entries of `m` whose key is selected, in ascending key order.
pub open spec fn listing(m: Map<Seq<u8>, Seq<u8>>, selected: spec_fn(Seq<u8>) -> bool) -> Seq<
    (Seq<u8>, Seq<u8>),
> {
    choose|list: Seq<(Seq<u8>, Seq<u8>)>| is_listing(list, m, selected)
}

/// The selected entries of a map stand in ascending order in one way only.
pub proof fn lemma_listing_unique(
    a: Seq<(Seq<u8>, Seq<u8>)>,
    b: Seq<(Seq<u8>, Seq<u8>)>,
    m: Map<Seq<u8>, Seq<u8>>,
    selected: spec_fn(Seq<u8>) -> bool,
)
    requires
        is_listing(a, m, selected),
        is_listing(b, m, selected),
    ensures
        a == b,
    decreases a.len(),
{
    if a.len() == 0 {
        if b.len() > 0 {
            let row = b[0];
            assert(m.contains_key(row.0) && selected(row.0));
            assert(has_row(a, row.0));
        }
        assert(a =~= b);
    } else {
        let la = a.len() - 1;
        let key = a[la].0;
        assert(m.contains_key(key) && selected(key));
        assert(has_row(b, key));
        let j = row_index(b, key);
        let lb = b.len() - 1;
        let other = b[lb].0;
        assert(m.contains_key(other) && selected(other));
        assert(has_row(a, other));
        let i = row_index(a, other);
        if j < lb {
            assert(lex_lt(b[j].0, b[lb].0));
            if i < la {
                assert(lex_lt(a[i].0, a[la].0));
                lemma_lex_asymmetric(key, other);
            } else {
                lemma_lex_asymmetric(key, other);
            }
        }
        assert(j == lb);
        assert(a[la] == b[lb]);
        let rest = m.remove(key);
        let a0 = a.drop_last();
        let b0 = b.drop_last();
        assert(is_listing(a0, rest, selected)) by {
            assert forall|x: int, y: int| 0 <= x < y < a0.len() implies lex_lt(
                (#[trigger] a0[x]).0,
                (#[trigger] a0[y]).0,
            ) by {
                assert(lex_lt(a[x].0, a[y].0));
            }
            assert forall|x: int| 0 <= x < a0.len() implies {
                let row = #[trigger] a0[x];
                rest.contains_key(row.0) && rest[row.0] == row.1 && selected(row.0)
            } by {
                let row = a[x];
                assert(m.contains_key(row.0) && m[row.0] == row.1 && selected(row.0));
                assert(lex_lt(a[x].0, a[la].0));
                lemma_lex_asymmetric(a[x].0, key);
            }
            assert forall|k: Seq<u8>| #[trigger]
                rest.contains_key(k) && selected(k) implies has_row(a0, k) by {
                assert(m.contains_key(k) && selected(k));
                let x = row_index(a, k);
                assert(a0[x].0 == k);
            }
        }
        assert(is_listing(b0, rest, selected)) by {
            assert forall|x: int, y: int| 0 <= x < y < b0.len() implies lex_lt(
                (#[trigger] b0[x]).0,
                (#[trigger] b0[y]).0,
            ) by {
                assert(lex_lt(b[x].0, b[y].0));
            }
            assert forall|x: int| 0 <= x < b0.len() implies {
                let row = #[trigger] b0[x];
                rest.contains_key(row.0) && rest[row.0] == row.1 && selected(row.0)
            } by {
                let row = b[x];
                assert(m.contains_key(row.0) && m[row.0] == row.1 && selected(row.0));
                assert(lex_lt(b[x].0, b[lb].0));
                lemma_lex_asymmetric(b[x].0, key);
            }
            assert forall|k: Seq<u8>| #[trigger]
                rest.contains_key(k) && selected(k) implies has_row(b0, k) by {
                assert(m.contains_key(k) && selected(k));
                let x = row_index(b, k);
                assert(b0[x].0 == k);
            }
        }
        lemma_listing_unique(a0, b0, rest, selected);
        assert(a =~= a0.push(a[la]));
        assert(b =~= b0.push(b[lb]));
    }
}

/// A list of the selected entries is the listing.
pub proof fn lemma_is_the_listing(
    list: Seq<(Seq<u8>, Seq<u8>)>,
    m: Map<Seq<u8>, Seq<u8>>,
    selected: spec_fn(Seq<u8>) -> bool,
)
    requires
        is_listing(list, m, selected),
    ensures
        listing(m, selected) == list,
{
    lemma_listing_unique(listing(m, selected), list, m, selected);
}

/// The rows at the beginning of `rows` whose key begins with `prefix`, up
/// to the first row whose key does not.
pub open spec fn leading(rows: Seq<(Seq<u8>, Seq<u8>)>, prefix: Seq<u8>) -> Seq<(Seq<u8>, Seq<u8>)>
    decreases rows.len(),
{
    if rows.len() == 0 || !prefix.is_prefix_of(rows[0].0) {
        Seq::empty()
    } else {
        seq![rows[0]] + leading(rows.skip(1), prefix)
    }
}

proof fn lemma_leading(rows: Seq<(Seq<u8>, Seq<u8>)>, prefix: Seq<u8>, n: int)
    requires
        0 <= n <= rows.len(),
        forall|i: int| 0 <= i < n ==> prefix.is_prefix_of((#[trigger] rows[i]).0),
        n < rows.len() ==> !prefix.is_prefix_of(rows[n].0),
    ensures
        leading(rows, prefix) == rows.take(n),
    decreases rows.len(),
{
    if n == 0 {
        assert(rows.take(0) =~= Seq::empty());
    } else {
        let rest = rows.skip(1);
        assert forall|i: int| 0 <= i < n - 1 implies prefix.is_prefix_of(
            (#[trigger] rest[i]).0,
        ) by {
            assert(rest[i] == rows[i + 1]);
        }
        lemma_leading(rest, prefix, n - 1);
        assert(rows.take(n) =~= seq![rows[0]] + rest.take(n - 1));
    }
}

/// The rows whose key is selected, in the order they stand in.
spec fn selected_rows(rows: Seq<(Seq<u8>, Seq<u8>)>, selected: spec_fn(Seq<u8>) -> bool) -> Seq<
    (Seq<u8>, Seq<u8>),
>
    decreases rows.len(),
{
    if rows.len() == 0 {
        Seq::empty()
    } else if selected(rows.last().0) {
        selected_rows(rows.drop_last(), selected).push(rows.last())
    } else {
        selected_rows(rows.drop_last(), selected)
    }
}

proof fn lemma_selected_rows(rows: Seq<(Seq<u8>, Seq<u8>)>, selected: spec_fn(Seq<u8>) -> bool)
    requires
        ascending(rows),
    ensures
        ascending(selected_rows(rows, selected)),
        forall|row: (Seq<u8>, Seq<u8>)|
            (#[trigger] selected_rows(rows, selected).contains(row)) ==> (rows.contains(row)
                && selected(row.0)),
        forall|row: (Seq<u8>, Seq<u8>)|
            (#[trigger] rows.contains(row)) && selected(row.0) ==> selected_rows(
                rows,
                selected,
            ).contains(row),
    decreases rows.len(),
{
    if rows.len() > 0 {
        let rest = rows.drop_last();
        let last = rows.last();
        assert(ascending(rest)) by {
            assert forall|i: int, j: int| 0 <= i < j < rest.len() implies lex_lt(
                (#[trigger] rest[i]).0,
                (#[trigger] rest[j]).0,
            ) by {
                assert(lex_lt(rows[i].0, rows[j].0));
            }
        }
        lemma_selected_rows(rest, selected);
        let picked = selected_rows(rest, selected);
        let out = selected_rows(rows, selected);
        assert forall|row: (Seq<u8>, Seq<u8>)|
            out.contains(row) <==> (rows.contains(row) && selected(row.0)) by {
            assert(rows =~= rest.push(last));
            lemma_push_contains(rest, last, row);
            if selected(last.0) {
                lemma_push_contains(picked, last, row);
            }
            if picked.contains(row) {
                assert(rest.contains(row) && selected(row.0));
            }
            if rest.contains(row) && selected(row.0) {
                assert(picked.contains(row));
            }
        }
        if selected(last.0) {
            assert forall|i: int, j: int| 0 <= i < j < out.len() implies lex_lt(
                (#[trigger] out[i]).0,
                (#[trigger] out[j]).0,
            ) by {
                if j == picked.len() {
                    assert(picked.contains(picked[i]));
                    assert(rest.contains(picked[i]));
                    let k = choose|k: int| 0 <= k < rest.len() && rest[k] == picked[i];
                    assert(lex_lt(rows[k].0, rows[rows.len() - 1].0));
                } else {
                    assert(lex_lt(picked[i].0, picked[j].0));
                }
            }
        }
    }
}

/// The map after the counter under `key` was incremented, if it can be.
pub open spec fn bumped(m: Map<Seq<u8>, Seq<u8>>, key: Seq<u8>) -> Map<Seq<u8>, Seq<u8>> {
    let stored = if m.contains_key(key) {
        Some(m[key])
    } else {
        None
    };
    if incremented(stored) <= u64::MAX {
        m.insert(key, be_bytes(incremented(stored), 8))
    } else {
        m
    }
}

/// The byte strings behind a list of owned rows.
pub open spec fn rows_of(list: Seq<(Vec<u8>, Vec<u8>)>) -> Seq<(Seq<u8>, Seq<u8>)> {
    Seq::new(list.len(), |i: int| (list[i].0@, list[i].1@))
}

pub proof fn lemma_map_of_row(rows: Seq<(Seq<u8>, Seq<u8>)>, i: int)
    requires
        ascending(rows),
        0 <= i < rows.len(),
    ensures
        map_of(rows).contains_key(rows[i].0),
        map_of(rows)[rows[i].0] == rows[i].1,
{
    let j = row_index(rows, rows[i].0);
    if j < i {
        lemma_lex_asymmetric(rows[j].0, rows[i].0);
    } else if i < j {
        lemma_lex_asymmetric(rows[i].0, rows[j].0);
    }
}

proof fn lemma_absent_row(rows: Seq<(Seq<u8>, Seq<u8>)>, at: int, key: Seq<u8>)
    requires
        0 <= at <= rows.len(),
        forall|i: int| 0 <= i < at ==> lex_lt((#[trigger] rows[i]).0, key),
        forall|i: int| at <= i < rows.len() ==> lex_lt(key, (#[trigger] rows[i]).0),
    ensures
        !map_of(rows).contains_key(key),
{
    if has_row(rows, key) {
        let j = row_index(rows, key);
        if j < at {
            lemma_lex_asymmetric(rows[j].0, key);
        } else {
            lemma_lex_asymmetric(key, rows[j].0);
        }
    }
}

proof fn lemma_insert_row(rows: Seq<(Seq<u8>, Seq<u8>)>, at: int, key: Seq<u8>, value: Seq<u8>)
    requires
        ascending(rows),
        0 <= at <= rows.len(),
        forall|i: int| 0 <= i < at ==> lex_lt((#[trigger] rows[i]).0, key),
        forall|i: int| at <= i < rows.len() ==> lex_lt(key, (#[trigger] rows[i]).0),
    ensures
        ascending(rows.insert(at, (key, value))),
        map_of(rows.insert(at, (key, value))) == map_of(rows).insert(key, value),
{
    let new = rows.insert(at, (key, value));
    assert forall|i: int, j: int| 0 <= i < j < new.len() implies lex_lt(
        (#[trigger] new[i]).0,
        (#[trigger] new[j]).0,
    ) by {
        let oi = if i < at {
            i
        } else {
            i - 1
        };
        let oj = if j < at {
            j
        } else {
            j - 1
        };
        if i != at && j != at {
            assert(lex_lt(rows[oi].0, rows[oj].0));
        } else if i == at {
            assert(lex_lt(key, rows[oj].0));
        } else {
            assert(lex_lt(rows[oi].0, key));
        }
    }
    let target = map_of(rows).insert(key, value);
    assert forall|k: Seq<u8>| map_of(new).contains_key(k) == target.contains_key(k) by {
        if has_row(new, k) {
            let i = row_index(new, k);
            if i < at {
                assert(rows[i].0 == k);
            } else if i > at {
                assert(rows[i - 1].0 == k);
            }
        }
        if has_row(rows, k) {
            let i = row_index(rows, k);
            if i < at {
                assert(new[i].0 == k);
            } else {
                assert(new[i + 1].0 == k);
            }
        }
        if k == key {
            assert(new[at].0 == k);
        }
    }
    assert forall|k: Seq<u8>| map_of(new).contains_key(k) implies map_of(new)[k] == target[k] by {
        if k == key {
            lemma_map_of_row(new, at);
        } else {
            let i = row_index(rows, k);
            lemma_map_of_row(rows, i);
            if i < at {
                lemma_map_of_row(new, i);
            } else {
                lemma_map_of_row(new, i + 1);
            }
        }
    }
    assert(map_of(new) =~= target);
}

proof fn lemma_update_row(rows: Seq<(Seq<u8>, Seq<u8>)>, at: int, value: Seq<u8>)
    requires
        ascending(rows),
        0 <= at < rows.len(),
    ensures
        ascending(rows.update(at, (rows[at].0, value))),
        map_of(rows.update(at, (rows[at].0, value))) == map_of(rows).insert(rows[at].0, value),
{
    let key = rows[at].0;
    let new = rows.update(at, (key, value));
    assert forall|i: int, j: int| 0 <= i < j < new.len() implies lex_lt(
        (#[trigger] new[i]).0,
        (#[trigger] new[j]).0,
    ) by {
        assert(lex_lt(rows[i].0, rows[j].0));
    }
    let target = map_of(rows).insert(key, value);
    assert forall|k: Seq<u8>| map_of(new).contains_key(k) == target.contains_key(k) by {
        if has_row(new, k) {
            let i = row_index(new, k);
            assert(rows[i].0 == k);
        }
        if has_row(rows, k) {
            let i = row_index(rows, k);
            assert(new[i].0 == k);
        }
        if k == key {
            assert(new[at].0 == k);
        }
    }
    assert forall|k: Seq<u8>| map_of(new).contains_key(k) implies map_of(new)[k] == target[k] by {
        let i = row_index(new, k);
        lemma_map_of_row(new, i);
        if i != at {
            assert(rows[i].0 == k);
            lemma_map_of_row(rows, i);
        }
    }
    assert(map_of(new) =~= target);
}

proof fn lemma_remove_row(rows: Seq<(Seq<u8>, Seq<u8>)>, at: int)
    requires
        ascending(rows),
        0 <= at < rows.len(),
    ensures
        ascending(rows.remove(at)),
        map_of(rows.remove(at)) == map_of(rows).remove(rows[at].0),
{
    let key = rows[at].0;
    let new = rows.remove(at);
    assert forall|i: int, j: int| 0 <= i < j < new.len() implies lex_lt(
        (#[trigger] new[i]).0,
        (#[trigger] new[j]).0,
    ) by {
        let oi = if i < at {
            i
        } else {
            i + 1
        };
        let oj = if j < at {
            j
        } else {
            j + 1
        };
        assert(lex_lt(rows[oi].0, rows[oj].0));
    }
    let target = map_of(rows).remove(key);
    assert forall|k: Seq<u8>| map_of(new).contains_key(k) == target.contains_key(k) by {
        if has_row(new, k) {
            let i = row_index(new, k);
            let oi = if i < at {
                i
            } else {
                i + 1
            };
            assert(rows[oi].0 == k);
            if oi < at {
                lemma_lex_asymmetric(rows[oi].0, key);
            } else {
                lemma_lex_asymmetric(key, rows[oi].0);
            }
        }
        if has_row(rows, k) && k != key {
            let i = row_index(rows, k);
            if i < at {
                assert(new[i].0 == k);
            } else {
                assert(new[i - 1].0 == k);
            }
        }
    }
    assert forall|k: Seq<u8>| map_of(new).contains_key(k) implies map_of(new)[k] == target[k] by {
        let i = row_index(new, k);
        lemma_map_of_row(new, i);
        let oi = if i < at {
            i
        } else {
            i + 1
        };
        assert(rows[oi].0 == k);
        lemma_map_of_row(rows, oi);
    }
    assert(map_of(new) =~= target);
}

/// Who waits on a tree, and who has been woken and not yet collected.
pub ghost struct Watch {
    /// The registered pairs of prefix and waiter.
    pub waiting: Set<(Seq<u8>, u64)>,
    /// The waiters that a mutation has woken.
    pub woken: Set<u64>,
}

impl Watch {
    /// Nobody waits and nobody was woken.
    pub open spec fn idle() -> Watch {
        Watch { waiting: Set::empty(), woken: Set::empty() }
    }

    /// The state after `waiter` registers on `prefix`.
    pub open spec fn register(self, prefix: Seq<u8>, waiter: u64) -> Watch {
        Watch { waiting: self.waiting.insert((prefix, waiter)), woken: self.woken }
    }

    /// The state after a mutation of `key`: every registration whose prefix
    /// begins `key` leaves, and its waiter is woken.
    pub open spec fn fire(self, key: Seq<u8>) -> Watch {
        Watch {
            waiting: Set::new(
                |w: (Seq<u8>, u64)| self.waiting.contains(w) && !w.0.is_prefix_of(key),
            ),
            woken: Set::new(
                |id: u64|
                    self.woken.contains(id) || exists|prefix: Seq<u8>|
                        #![trigger self.waiting.contains((prefix, id))]
                        self.waiting.contains((prefix, id)) && prefix.is_prefix_of(key),
            ),
        }
    }

    /// The state after `waiter` registers on each of the prefixes.
    pub open spec fn register_each(self, prefixes: Seq<Seq<u8>>, waiter: u64) -> Watch
        decreases prefixes.len(),
    {
        if prefixes.len() == 0 {
            self
        } else {
            self.register_each(prefixes.drop_last(), waiter).register(prefixes.last(), waiter)
        }
    }

    /// The state after mutations of `keys`, in order.
    pub open spec fn fire_all(self, keys: Seq<Seq<u8>>) -> Watch
        decreases keys.len(),
    {
        if keys.len() == 0 {
            self
        } else {
            self.fire_all(keys.drop_last()).fire(keys.last())
        }
    }

    /// The state after the woken waiters were collected.
    pub open spec fn drained(self) -> Watch {
        Watch { waiting: self.waiting, woken: Set::empty() }
    }
}

/// A mutation of a key wakes whoever waits on one of its prefixes.
pub proof fn lemma_fire_wakes(watch: Watch, prefix: Seq<u8>, waiter: u64, key: Seq<u8>)
    requires
        watch.waiting.contains((prefix, waiter)),
        prefix.is_prefix_of(key),
    ensures
        watch.fire(key).woken.contains(waiter),
{
}

/// Watcher liveness: whoever has registered on a prefix is woken once a
/// key that begins with the prefix is mutated, whatever other keys are
/// mutated before and after.
pub proof fn lemma_watcher_liveness(
    watch: Watch,
    prefix: Seq<u8>,
    waiter: u64,
    keys: Seq<Seq<u8>>,
    at: int,
)
    requires
        0 <= at < keys.len(),
        prefix.is_prefix_of(keys[at]),
    ensures
        watch.register(prefix, waiter).fire_all(keys).woken.contains(waiter),
{
    lemma_stays_or_wakes(watch.register(prefix, waiter), prefix, waiter, keys, at);
}

proof fn lemma_stays_or_wakes(
    watch: Watch,
    prefix: Seq<u8>,
    waiter: u64,
    keys: Seq<Seq<u8>>,
    at: int,
)
    requires
        watch.waiting.contains((prefix, waiter)) || watch.woken.contains(waiter),
    ensures
        watch.fire_all(keys).waiting.contains((prefix, waiter)) || watch.fire_all(
            keys,
        ).woken.contains(waiter),
        0 <= at < keys.len() && prefix.is_prefix_of(keys[at]) ==> watch.fire_all(
            keys,
        ).woken.contains(waiter),
    decreases keys.len(),
{
    if keys.len() > 0 {
        let rest = keys.drop_last();
        lemma_stays_or_wakes(watch, prefix, waiter, rest, at);
        let mid = watch.fire_all(rest);
        if 0 <= at < rest.len() {
            assert(rest[at] == keys[at]);
        }
        if mid.waiting.contains((prefix, waiter)) && prefix.is_prefix_of(keys.last()) {
            lemma_fire_wakes(mid, prefix, waiter, keys.last());
        }
    }
}

struct Entry {
    key: Vec<u8>,
    value: Vec<u8>,
}

struct Watcher {
    prefix: Vec<u8>,
    waiter: u64,
}

/// An ordered map from byte keys to byte values, with prefix watchers.
pub struct Tree {
    entries: Vec<Entry>,
    watchers: Vec<Watcher>,
    woken: Vec<u64>,
}

impl View for Tree {
    type V = Map<Seq<u8>, Seq<u8>>;

    /// The contents: which value each key holds.
    closed spec fn view(&self) -> Map<Seq<u8>, Seq<u8>> {
        map_of(self.rows())
    }
}

impl Tree {
    closed spec fn rows(&self) -> Seq<(Seq<u8>, Seq<u8>)> {
        Seq::new(self.entries@.len(), |i: int| (self.entries@[i].key@, self.entries@[i].value@))
    }

    closed spec fn watcher_rows(&self) -> Seq<(Seq<u8>, u64)> {
        Seq::new(
            self.watchers@.len(),
            |i: int| (self.watchers@[i].prefix@, self.watchers@[i].waiter),
        )
    }

    /// The entries in key order.
    pub closed spec fn ordered(&self) -> Seq<(Seq<u8>, Seq<u8>)> {
        self.rows()
    }

    /// The ordered entries list the whole tree.
    pub proof fn lemma_ordered(&self)
        requires
            self.wf(),
        ensures
            is_listing(self.ordered(), self@, every_key()),
            self.ordered() == listing(self@, every_key()),
    {
        self.lemma_range_listing(0, self.rows().len() as int, every_key());
        assert(self.rows().subrange(0, self.rows().len() as int) =~= self.rows());
        lemma_is_the_listing(self.ordered(), self@, every_key());
    }

    /// Whatever keys are selected, the tree's entries with those keys can
    /// be listed in order.
    pub proof fn lemma_listing_exists(&self, selected: spec_fn(Seq<u8>) -> bool)
        requires
            self.wf(),
        ensures
            is_listing(listing(self@, selected), self@, selected),
    {
        lemma_selected_rows(self.rows(), selected);
        let list = selected_rows(self.rows(), selected);
        assert(is_listing(list, self@, selected)) by {
            assert forall|i: int| 0 <= i < list.len() implies {
                let row = #[trigger] list[i];
                self@.contains_key(row.0) && self@[row.0] == row.1 && selected(row.0)
            } by {
                let row = list[i];
                assert(list.contains(row));
                assert(self.rows().contains(row) && selected(row.0));
                let j = choose|j: int| 0 <= j < self.rows().len() && self.rows()[j] == row;
                lemma_map_of_row(self.rows(), j);
            }
            assert forall|key: Seq<u8>| #[trigger]
                self@.contains_key(key) && selected(key) implies has_row(list, key) by {
                let j = row_index(self.rows(), key);
                let row = self.rows()[j];
                assert(self.rows().contains(row) && selected(row.0));
                assert(list.contains(row));
                let i = choose|i: int| 0 <= i < list.len() && list[i] == row;
                assert(list[i].0 == key);
            }
        }
    }

    /// The tree keeps its keys in strictly ascending order.
    pub closed spec fn wf(&self) -> bool {
        ascending(self.rows())
    }

    /// The watchers of this tree.
    pub closed spec fn watch(&self) -> Watch {
        Watch { waiting: self.watcher_rows().to_set(), woken: self.woken@.to_set() }
    }

    /// The tree is as it is made: it holds no row, nobody waits on it and
    /// nobody was woken.
    pub open spec fn fresh(&self) -> bool {
        self@ == Map::<Seq<u8>, Seq<u8>>::empty() && self.watch() == Watch::idle()
    }

    /// An empty tree that nobody watches.
    pub fn new() -> (t: Tree)
        ensures
            t.wf(),
            t@ == Map::<Seq<u8>, Seq<u8>>::empty(),
            t.watch() == Watch::idle(),
    {
        let t = Tree { entries: Vec::new(), watchers: Vec::new(), woken: Vec::new() };
        assert(t@ =~= Map::<Seq<u8>, Seq<u8>>::empty());
        assert(t.watch().waiting =~= Set::empty());
        assert(t.watch().woken =~= Set::empty());
        t
    }

    /// The tree that holds the given rows, a later row replacing an earlier
    /// one with the same key.
    pub fn from_rows(rows: &Vec<(Vec<u8>, Vec<u8>)>) -> (t: Tree)
        ensures
            t.wf(),
            t@ == put_all(Map::<Seq<u8>, Seq<u8>>::empty(), rows_of(rows@)),
            t.watch() == Watch::idle(),
    {
        let mut t = Tree { entries: Vec::new(), watchers: Vec::new(), woken: Vec::new() };
        let mut i: usize = 0;
        let ghost list = rows_of(rows@);
        assert(list.take(0) =~= Seq::empty());
        assert(t@ =~= Map::<Seq<u8>, Seq<u8>>::empty());
        while i < rows.len()
            invariant
                i <= rows@.len(),
                list == rows_of(rows@),
                t.wf(),
                t@ == put_all(Map::<Seq<u8>, Seq<u8>>::empty(), list.take(i as int)),
                t.watchers@.len() == 0,
                t.woken@.len() == 0,
            decreases rows@.len() - i,
        {
            t.put(rows[i].0.as_slice(), rows[i].1.as_slice());
            i = i + 1;
            assert(list.take(i as int).drop_last() =~= list.take(i - 1));
        }
        assert(list.take(i as int) =~= list);
        assert(t.watch().waiting =~= Set::empty());
        assert(t.watch().woken =~= Set::empty());
        t
    }

    /// The number of entries.
    pub fn len(&self) -> (n: usize)
        requires
            self.wf(),
        ensures
            n == self@.dom().len(),
            n == listing(self@, every_key()).len(),
            self@.dom().finite(),
    {
        proof {
            self.lemma_dom_len();
            self.lemma_ordered();
        }
        self.entries.len()
    }

    proof fn lemma_dom_len(&self)
        requires
            self.wf(),
        ensures
            self@.dom().finite(),
            self@.dom().len() == self.entries@.len(),
    {
        lemma_rows_dom(self.rows());
    }

    /// The index of the first entry whose key is not below `key`.
    fn lower_bound(&self, key: &[u8]) -> (at: usize)
        requires
            self.wf(),
        ensures
            at <= self.entries@.len(),
            forall|i: int| 0 <= i < at ==> lex_lt((#[trigger] self.rows()[i]).0, key@),
            forall|i: int|
                at <= i < self.entries@.len() ==> lex_le(key@, (#[trigger] self.rows()[i]).0),
    {
        let mut lo: usize = 0;
        let mut hi: usize = self.entries.len();
        while lo < hi
            invariant
                self.wf(),
                lo <= hi <= self.entries@.len(),
                forall|i: int| 0 <= i < lo ==> lex_lt((#[trigger] self.rows()[i]).0, key@),
                forall|i: int|
                    hi <= i < self.entries@.len() ==> lex_le(key@, (#[trigger] self.rows()[i]).0),
            decreases hi - lo,
        {
            let mid = lo + (hi - lo) / 2;
            let ghost rows = self.rows();
            match compare(self.entries[mid].key.as_slice(), key) {
                KeyOrder::Less => {
                    assert forall|i: int| 0 <= i < mid + 1 implies lex_lt(
                        (#[trigger] rows[i]).0,
                        key@,
                    ) by {
                        if i < mid {
                            assert(lex_lt(rows[i].0, rows[mid as int].0));
                            lemma_lex_transitive(rows[i].0, rows[mid as int].0, key@);
                        }
                    }
                    lo = mid + 1;
                },
                _ => {
                    assert forall|i: int| mid <= i < rows.len() implies lex_le(
                        key@,
                        (#[trigger] rows[i]).0,
                    ) by {
                        assert(lex_le(key@, rows[mid as int].0));
                        if i > mid {
                            assert(lex_lt(rows[mid as int].0, rows[i].0));
                            lemma_lex_le_lt(key@, rows[mid as int].0, rows[i].0);
                        }
                    }
                    hi = mid;
                },
            }
        }
        lo
    }

    /// Where `key` stands: its index if it is present, else where it would go.
    fn locate(&self, key: &[u8]) -> (r: (usize, bool))
        requires
            self.wf(),
        ensures
            r.0 <= self.entries@.len(),
            r.1 ==> r.0 < self.entries@.len() && self.rows()[r.0 as int].0 == key@,
            r.1 == self@.contains_key(key@),
            forall|i: int| 0 <= i < r.0 ==> lex_lt((#[trigger] self.rows()[i]).0, key@),
            !r.1 ==> forall|i: int|
                r.0 <= i < self.entries@.len() ==> lex_lt(key@, (#[trigger] self.rows()[i]).0),
    {
        let at = self.lower_bound(key);
        let found = at < self.entries.len() && bytes_eq(self.entries[at].key.as_slice(), key);
        proof {
            let rows = self.rows();
            if found {
                lemma_map_of_row(rows, at as int);
            } else {
                assert forall|i: int| at <= i < rows.len() implies lex_lt(
                    key@,
                    (#[trigger] rows[i]).0,
                ) by {
                    assert(lex_le(key@, rows[at as int].0));
                    if i > at {
                        assert(lex_lt(rows[at as int].0, rows[i].0));
                        lemma_lex_le_lt(key@, rows[at as int].0, rows[i].0);
                    }
                }
                lemma_absent_row(rows, at as int, key@);
            }
        }
        (at, found)
    }

    /// The value stored under `key`, if any.
    pub fn get(&self, key: &[u8]) -> (r: Option<Vec<u8>>)
        requires
            self.wf(),
        ensures
            match r {
                Some(value) => self@.contains_key(key@) && self@[key@] == value@,
                None => !self@.contains_key(key@),
            },
    {
        let (at, found) = self.locate(key);
        if found {
            proof {
                lemma_map_of_row(self.rows(), at as int);
            }
            Some(to_vec(self.entries[at].value.as_slice()))
        } else {
            None
        }
    }

    /// Whether `key` holds a value.
    pub fn contains_key(&self, key: &[u8]) -> (r: bool)
        requires
            self.wf(),
        ensures
            r == self@.contains_key(key@),
    {
        let (_, found) = self.locate(key);
        found
    }

    /// Wakes the watchers whose prefix begins `key`.
    fn fire(&mut self, key: &[u8])
        ensures
            final(self).entries == old(self).entries,
            final(self).watch() == old(self).watch().fire(key@),
    {
        let ghost before = self.watcher_rows();
        let ghost woken_before = self.woken@;
        let mut kept: Vec<Watcher> = Vec::new();
        let mut i: usize = 0;
        while i < self.watchers.len()
            invariant
                i <= self.watchers@.len(),
                self.entries == old(self).entries,
                self.watchers == old(self).watchers,
                self.watcher_rows() == before,
                forall|w: (Seq<u8>, u64)|
                    kept_rows(kept@).contains(w) <==> stays_upto(before, key@, i as int, w),
                forall|id: u64|
                    self.woken@.contains(id) <==> (woken_before.contains(id) || wakes_upto(
                        before,
                        key@,
                        i as int,
                        id,
                    )),
            decreases self.watchers@.len() - i,
        {
            let ghost kept_before = kept_rows(kept@);
            let ghost woken_mid = self.woken@;
            let hit = starts_with(key, self.watchers[i].prefix.as_slice());
            let ghost row = before[i as int];
            assert(row == (self.watchers@[i as int].prefix@, self.watchers@[i as int].waiter));
            if hit {
                let id = self.watchers[i].waiter;
                self.woken.push(id);
                assert(self.woken@ == woken_mid.push(row.1));
            } else {
                let w = Watcher {
                    prefix: to_vec(self.watchers[i].prefix.as_slice()),
                    waiter: self.watchers[i].waiter,
                };
                kept.push(w);
                assert(kept_rows(kept@) =~= kept_before.push(row));
            }
            proof {
                assert forall|w: (Seq<u8>, u64)|
                    kept_rows(kept@).contains(w) <==> stays_upto(before, key@, i + 1, w) by {
                    lemma_stays_step(before, key@, i as int, w);
                    lemma_push_contains(kept_before, row, w);
                }
                assert forall|id: u64|
                    self.woken@.contains(id) <==> (woken_before.contains(id) || wakes_upto(
                        before,
                        key@,
                        i + 1,
                        id,
                    )) by {
                    lemma_wakes_step(before, key@, i as int, id);
                    lemma_push_contains(woken_mid, row.1, id);
                }
            }
            i = i + 1;
        }
        self.watchers = kept;
        proof {
            let start = old(self).watch();
            let end = self.watch();
            let n = before.len() as int;
            assert(self.watcher_rows() =~= kept_rows(kept@));
            assert forall|w: (Seq<u8>, u64)|
                end.waiting.contains(w) == start.fire(key@).waiting.contains(w) by {
                if start.waiting.contains(w) && !w.0.is_prefix_of(key@) {
                    let j = choose|j: int| 0 <= j < before.len() && before[j] == w;
                    assert(before[j] == w);
                    assert(stays_upto(before, key@, n, w));
                }
                if stays_upto(before, key@, n, w) {
                    let j = choose|j: int|
                        0 <= j < n && #[trigger] before[j] == w && !w.0.is_prefix_of(key@);
                    assert(before.contains(w));
                }
            }
            assert(end.waiting =~= start.fire(key@).waiting);
            assert forall|id: u64|
                end.woken.contains(id) == start.fire(key@).woken.contains(id) by {
                if wakes_upto(before, key@, n, id) {
                    let j = choose|j: int|
                        0 <= j < n && (#[trigger] before[j]).1 == id && before[j].0.is_prefix_of(
                            key@,
                        );
                    assert(before.contains(before[j]));
                    assert(start.waiting.contains((before[j].0, id)));
                }
                if start.fire(key@).woken.contains(id) && !start.woken.contains(id) {
                    let prefix = choose|prefix: Seq<u8>|
                        #![trigger start.waiting.contains((prefix, id))]
                        start.waiting.contains((prefix, id)) && prefix.is_prefix_of(key@);
                    let j = choose|j: int| 0 <= j < before.len() && before[j] == (prefix, id);
                    assert(before[j].1 == id);
                    assert(wakes_upto(before, key@, n, id));
                }
            }
            assert(end.woken =~= start.fire(key@).woken);
        }
    }

    /// Stores `value` under `key`, replacing what was there, and wakes the
    /// watchers of the key.
    pub fn insert(&mut self, key: &[u8], value: &[u8])
        requires
            old(self).wf(),
        ensures
            final(self).wf(),
            final(self)@ == old(self)@.insert(key@, value@),
            final(self).watch() == old(self).watch().fire(key@),
    {
        self.put(key, value);
        self.fire(key);
    }

    /// Stores `value` under `key` and wakes nobody.
    fn put(&mut self, key: &[u8], value: &[u8])
        requires
            old(self).wf(),
        ensures
            final(self).wf(),
            final(self)@ == old(self)@.insert(key@, value@),
            final(self).watchers == old(self).watchers,
            final(self).woken == old(self).woken,
    {
        let (at, found) = self.locate(key);
        let ghost rows = self.rows();
        let entry = Entry { key: to_vec(key), value: to_vec(value) };
        if found {
            self.entries[at] = entry;
            proof {
                lemma_update_row(rows, at as int, value@);
                assert(self.rows() =~= rows.update(at as int, (key@, value@)));
            }
        } else {
            self.entries.insert(at, entry);
            proof {
                lemma_insert_row(rows, at as int, key@, value@);
                assert(self.rows() =~= rows.insert(at as int, (key@, value@)));
            }
        }
    }

    /// Deletes `key` and wakes the watchers of the key.
    pub fn remove(&mut self, key: &[u8])
        requires
            old(self).wf(),
        ensures
            final(self).wf(),
            final(self)@ == old(self)@.remove(key@),
            final(self).watch() == old(self).watch().fire(key@),
    {
        let (at, found) = self.locate(key);
        let ghost rows = self.rows();
        if found {
            self.entries.remove(at);
            proof {
                lemma_remove_row(rows, at as int);
                assert(self.rows() =~= rows.remove(at as int));
            }
        } else {
            assert(self@ =~= self@.remove(key@));
        }
        self.fire(key);
    }

    /// Deletes every entry. Watchers stay as they are.
    pub fn clear(&mut self)
        ensures
            final(self).wf(),
            final(self)@ == Map::<Seq<u8>, Seq<u8>>::empty(),
            final(self).watch() == old(self).watch(),
    {
        self.entries = Vec::new();
        assert(self@ =~= Map::<Seq<u8>, Seq<u8>>::empty());
    }

    /// Adds one to the eight-byte big-endian counter under `key` and returns
    /// its new bytes. A missing or unreadable counter counts as zero.
    pub fn increment(&mut self, key: &[u8]) -> (r: Vec<u8>)
        requires
            old(self).wf(),
            incremented(old(self).stored(key@)) <= u64::MAX,
        ensures
            final(self).wf(),
            r@ == be_bytes(incremented(old(self).stored(key@)), 8),
            final(self)@ == old(self)@.insert(key@, r@),
            final(self).watch() == old(self).watch(),
    {
        let stored = self.get(key);
        let next = match &stored {
            Some(bytes) => increment(Some(bytes.as_slice())),
            None => increment(None),
        };
        let bytes = next.unwrap();
        self.put(key, bytes.as_slice());
        bytes
    }

    /// Adds one to the counter under `key` like [`Tree::increment`], unless
    /// the counter has reached `u64::MAX`: then nothing changes and nothing
    /// is returned.
    pub fn try_increment(&mut self, key: &[u8]) -> (r: Option<Vec<u8>>)
        requires
            old(self).wf(),
        ensures
            final(self).wf(),
            final(self)@ == bumped(old(self)@, key@),
            final(self).watch() == old(self).watch(),
            r is Some == (incremented(old(self).stored(key@)) <= u64::MAX),
            r matches Some(bytes) ==> bytes@ == be_bytes(incremented(old(self).stored(key@)), 8),
    {
        let stored = self.get(key);
        let exhausted = match &stored {
            Some(bytes) => bytes.len() == 8 && crate::utils::u64_from_be_bytes(bytes.as_slice())
                == u64::MAX,
            None => false,
        };
        if exhausted {
            None
        } else {
            Some(self.increment(key))
        }
    }

    /// What `key` holds, if anything.
    pub open spec fn stored(&self, key: Seq<u8>) -> Option<Seq<u8>> {
        if self@.contains_key(key) {
            Some(self@[key])
        } else {
            None
        }
    }

    /// Every entry, in key order.
    pub fn iter(&self) -> (r: Vec<(Vec<u8>, Vec<u8>)>)
        requires
            self.wf(),
        ensures
            rows_of(r@) == self.ordered(),
            rows_of(r@) == listing(self@, every_key()),
            is_listing(rows_of(r@), self@, every_key()),
    {
        let out = self.copy_rows(0, self.entries.len());
        proof {
            let rows = self.rows();
            let list = rows_of(out@);
            assert(list =~= rows);
            self.lemma_ordered();
            lemma_is_the_listing(list, self@, every_key());
        }
        out
    }

    /// Copies the entries at indices `from..to`.
    fn copy_rows(&self, from: usize, to: usize) -> (r: Vec<(Vec<u8>, Vec<u8>)>)
        requires
            from <= to <= self.entries@.len(),
        ensures
            rows_of(r@) == self.rows().subrange(from as int, to as int),
    {
        let mut out: Vec<(Vec<u8>, Vec<u8>)> = Vec::new();
        let mut i: usize = from;
        while i < to
            invariant
                from <= i <= to <= self.entries@.len(),
                out@.len() == i - from,
                rows_of(out@) == self.rows().subrange(from as int, i as int),
            decreases to - i,
        {
            let row = (
                to_vec(self.entries[i].key.as_slice()),
                to_vec(self.entries[i].value.as_slice()),
            );
            let ghost out_before = out@;
            out.push(row);
            i = i + 1;
            assert forall|k: int| 0 <= k < out@.len() implies rows_of(out@)[k] == self.rows()[from
                + k] by {
                if k < out_before.len() {
                    assert(rows_of(out_before)[k] == self.rows().subrange(
                        from as int,
                        i - 1,
                    )[k]);
                }
            }
            assert(rows_of(out@) =~= self.rows().subrange(from as int, i as int));
        }
        assert(rows_of(out@) =~= self.rows().subrange(from as int, to as int));
        out
    }

    /// The entries from `from` on in ascending order, or, backwards, the
    /// entries below `from` in descending order.
    pub fn iter_from(&self, from: &[u8], backwards: bool) -> (r: Vec<(Vec<u8>, Vec<u8>)>)
        requires
            self.wf(),
        ensures
            !backwards ==> is_listing(rows_of(r@), self@, at_or_after(from@)) && rows_of(r@)
                == listing(self@, at_or_after(from@)),
            backwards ==> is_listing(rows_of(r@).reverse(), self@, before(from@)) && rows_of(
                r@,
            ).reverse() == listing(self@, before(from@)),
    {
        let at = self.lower_bound(from);
        let ghost rows = self.rows();
        if backwards {
            let mut out: Vec<(Vec<u8>, Vec<u8>)> = Vec::new();
            let mut i: usize = at;
            while i > 0
                invariant
                    i <= at <= self.entries@.len(),
                    rows == self.rows(),
                    out@.len() == at - i,
                    forall|k: int| 0 <= k < out@.len() ==> rows_of(out@)[k] == rows[at - 1 - k],
                decreases i,
            {
                i = i - 1;
                let row = (
                    to_vec(self.entries[i].key.as_slice()),
                    to_vec(self.entries[i].value.as_slice()),
                );
                let ghost out_before = out@;
                out.push(row);
                assert forall|k: int| 0 <= k < out@.len() implies rows_of(out@)[k] == rows[at - 1
                    - k] by {
                    if k < out_before.len() {
                        assert(rows_of(out_before)[k] == rows[at - 1 - k]);
                    }
                }
            }
            proof {
                let list = rows_of(out@).reverse();
                assert(list =~= rows.subrange(0, at as int));
                self.lemma_range_listing(0, at as int, before(from@));
                lemma_is_the_listing(list, self@, before(from@));
            }
            out
        } else {
            let out = self.copy_rows(at, self.entries.len());
            proof {
                self.lemma_range_listing(at as int, rows.len() as int, at_or_after(from@));
                lemma_is_the_listing(rows_of(out@), self@, at_or_after(from@));
            }
            out
        }
    }

    /// A run of rows lists the selected entries when it holds every selected
    /// row and no other.
    proof fn lemma_range_listing(&self, from: int, to: int, selected: spec_fn(Seq<u8>) -> bool)
        requires
            self.wf(),
            0 <= from <= to <= self.rows().len(),
            forall|i: int|
                0 <= i < self.rows().len() ==> (selected((#[trigger] self.rows()[i]).0) <==> from
                    <= i < to),
        ensures
            is_listing(self.rows().subrange(from, to), self@, selected),
    {
        let rows = self.rows();
        let list = rows.subrange(from, to);
        assert forall|i: int, j: int| 0 <= i < j < list.len() implies lex_lt(
            (#[trigger] list[i]).0,
            (#[trigger] list[j]).0,
        ) by {
            assert(lex_lt(rows[from + i].0, rows[from + j].0));
        }
        assert forall|i: int| 0 <= i < list.len() implies {
            let row = #[trigger] list[i];
            self@.contains_key(row.0) && self@[row.0] == row.1 && selected(row.0)
        } by {
            lemma_map_of_row(rows, from + i);
            assert(selected(rows[from + i].0));
        }
        assert forall|key: Seq<u8>| #[trigger]
            self@.contains_key(key) && selected(key) implies has_row(list, key) by {
            let i = row_index(rows, key);
            assert(selected(rows[i].0));
            assert(list[i - from].0 == key);
        }
    }

    /// The entries whose key begins with `prefix`, in ascending order.
    pub fn scan_prefix(&self, prefix: &[u8]) -> (r: Vec<(Vec<u8>, Vec<u8>)>)
        requires
            self.wf(),
        ensures
            is_listing(rows_of(r@), self@, with_prefix(prefix@)),
            rows_of(r@) == listing(self@, with_prefix(prefix@)),
    {
        let at = self.lower_bound(prefix);
        let ghost rows = self.rows();
        let mut end: usize = at;
        while end < self.entries.len() && starts_with(
            self.entries[end].key.as_slice(),
            prefix,
        )
            invariant
                at <= end <= self.entries@.len(),
                rows == self.rows(),
                forall|i: int| at <= i < end ==> prefix@.is_prefix_of((#[trigger] rows[i]).0),
            decreases self.entries@.len() - end,
        {
            end = end + 1;
        }
        let out = self.copy_rows(at, end);
        proof {
            assert forall|i: int| 0 <= i < rows.len() implies (prefix@.is_prefix_of(
                (#[trigger] rows[i]).0,
            ) <==> at <= i < end) by {
                if i < at {
                    assert(lex_lt(rows[i].0, prefix@));
                    if prefix@.is_prefix_of(rows[i].0) {
                        lemma_prefix_le(prefix@, rows[i].0);
                        lemma_lex_asymmetric(rows[i].0, prefix@);
                    }
                } else if i >= end {
                    assert(!prefix@.is_prefix_of(rows[end as int].0));
                    assert(lex_le(prefix@, rows[end as int].0));
                    if i > end {
                        assert(lex_lt(rows[end as int].0, rows[i].0));
                        lemma_prefix_block(prefix@, rows[end as int].0, rows[i].0);
                    }
                }
            }
            self.lemma_range_listing(at as int, end as int, with_prefix(prefix@));
            lemma_is_the_listing(rows_of(out@), self@, with_prefix(prefix@));
        }
        out
    }

    /// The entries from `from` on in ascending order, up to the first whose
    /// key does not begin with `prefix`.
    pub fn scan_from(&self, from: &[u8], prefix: &[u8]) -> (r: Vec<(Vec<u8>, Vec<u8>)>)
        requires
            self.wf(),
        ensures
            rows_of(r@) == leading(listing(self@, at_or_after(from@)), prefix@),
    {
        let at = self.lower_bound(from);
        let ghost rows = self.rows();
        let mut end: usize = at;
        while end < self.entries.len() && starts_with(
            self.entries[end].key.as_slice(),
            prefix,
        )
            invariant
                at <= end <= self.entries@.len(),
                rows == self.rows(),
                forall|i: int| at <= i < end ==> prefix@.is_prefix_of((#[trigger] rows[i]).0),
            decreases self.entries@.len() - end,
        {
            end = end + 1;
        }
        let out = self.copy_rows(at, end);
        proof {
            let tail = rows.subrange(at as int, rows.len() as int);
            self.lemma_range_listing(at as int, rows.len() as int, at_or_after(from@));
            lemma_is_the_listing(tail, self@, at_or_after(from@));
            assert forall|i: int| 0 <= i < end - at implies prefix@.is_prefix_of(
                (#[trigger] tail[i]).0,
            ) by {
                assert(tail[i] == rows[at + i]);
            }
            lemma_leading(tail, prefix@, end - at);
            assert(tail.take(end - at) =~= rows.subrange(at as int, end as int));
        }
        out
    }

    /// The entry with the least key that begins with `prefix`, if there is one.
    pub fn first_with_prefix(&self, prefix: &[u8]) -> (r: Option<(Vec<u8>, Vec<u8>)>)
        requires
            self.wf(),
        ensures
            match r {
                Some(row) => first_with_prefix(self@, prefix@) == Some(row.0@) && self@[row.0@]
                    == row.1@,
                None => first_with_prefix(self@, prefix@) is None && forall|key: Seq<u8>| #[trigger]
                    self@.contains_key(key) ==> !prefix@.is_prefix_of(key),
            },
    {
        let at = self.lower_bound(prefix);
        let ghost rows = self.rows();
        if at < self.entries.len() && starts_with(self.entries[at].key.as_slice(), prefix) {
            let row = (
                to_vec(self.entries[at].key.as_slice()),
                to_vec(self.entries[at].value.as_slice()),
            );
            proof {
                lemma_map_of_row(rows, at as int);
                assert forall|other: Seq<u8>| #[trigger]
                    self@.contains_key(other) && prefix@.is_prefix_of(other) implies lex_le(
                    row.0@,
                    other,
                ) by {
                    let i = row_index(rows, other);
                    if i < at {
                        lemma_prefix_le(prefix@, other);
                        lemma_lex_asymmetric(other, prefix@);
                    } else if i > at {
                        assert(lex_lt(rows[at as int].0, rows[i].0));
                    }
                }
                lemma_first_with_prefix_unique(self@, prefix@, row.0@);
            }
            Some(row)
        } else {
            proof {
                assert forall|key: Seq<u8>| #[trigger] self@.contains_key(key) implies !prefix@.is_prefix_of(
                    key,
                ) by {
                    let i = row_index(rows, key);
                    if prefix@.is_prefix_of(key) {
                        lemma_prefix_le(prefix@, key);
                        if i < at {
                            lemma_lex_asymmetric(key, prefix@);
                        } else {
                            assert(at < rows.len());
                            assert(lex_le(prefix@, rows[at as int].0));
                            if i > at {
                                assert(lex_lt(rows[at as int].0, rows[i].0));
                                lemma_prefix_block(prefix@, rows[at as int].0, rows[i].0);
                            }
                        }
                    }
                }
            }
            None
        }
    }

    /// Registers `waiter` to be woken by the next mutation of a key that
    /// begins with `prefix`.
    pub fn watch_prefix(&mut self, prefix: &[u8], waiter: u64)
        ensures
            final(self).wf() == old(self).wf(),
            final(self)@ == old(self)@,
            final(self).watch() == old(self).watch().register(prefix@, waiter),
    {
        let ghost before = self.watcher_rows();
        self.watchers.push(Watcher { prefix: to_vec(prefix), waiter });
        proof {
            let after = self.watcher_rows();
            assert(after =~= before.push((prefix@, waiter)));
            assert forall|w: (Seq<u8>, u64)|
                after.to_set().contains(w) == before.to_set().insert((prefix@, waiter)).contains(
                    w,
                ) by {
                if before.contains(w) {
                    let j = choose|j: int| 0 <= j < before.len() && before[j] == w;
                    assert(after[j] == w);
                }
                if w == (prefix@, waiter) {
                    assert(after[before.len() as int] == w);
                }
            }
            assert(after.to_set() =~= before.to_set().insert((prefix@, waiter)));
        }
    }

    /// Hands out the waiters woken since the last call.
    pub fn take_woken(&mut self) -> (r: Vec<u64>)
        ensures
            final(self).wf() == old(self).wf(),
            final(self)@ == old(self)@,
            r@.to_set() == old(self).watch().woken,
            final(self).watch() == old(self).watch().drained(),
    {
        let mut out: Vec<u64> = Vec::new();
        std::mem::swap(&mut out, &mut self.woken);
        assert(self.woken@.to_set() =~= Set::empty());
        out
    }
}

/// One of the first `i` registrations is `w`, and a mutation of `key` leaves it.
spec fn stays_upto(before: Seq<(Seq<u8>, u64)>, key: Seq<u8>, i: int, w: (Seq<u8>, u64)) -> bool {
    exists|j: int| 0 <= j < i && #[trigger] before[j] == w && !w.0.is_prefix_of(key)
}

/// One of the first `i` registrations belongs to `id`, and a mutation of
/// `key` wakes it.
spec fn wakes_upto(before: Seq<(Seq<u8>, u64)>, key: Seq<u8>, i: int, id: u64) -> bool {
    exists|j: int| 0 <= j < i && (#[trigger] before[j]).1 == id && before[j].0.is_prefix_of(key)
}

proof fn lemma_stays_step(before: Seq<(Seq<u8>, u64)>, key: Seq<u8>, i: int, w: (Seq<u8>, u64))
    requires
        0 <= i < before.len(),
    ensures
        stays_upto(before, key, i + 1, w) <==> (stays_upto(before, key, i, w) || (before[i] == w
            && !w.0.is_prefix_of(key))),
{
    if stays_upto(before, key, i + 1, w) {
        let j = choose|j: int|
            0 <= j < i + 1 && #[trigger] before[j] == w && !w.0.is_prefix_of(key);
        if j < i {
            assert(stays_upto(before, key, i, w));
        }
    }
    if stays_upto(before, key, i, w) {
        let j = choose|j: int| 0 <= j < i && #[trigger] before[j] == w && !w.0.is_prefix_of(key);
        assert(0 <= j < i + 1 && before[j] == w);
    }
    if before[i] == w && !w.0.is_prefix_of(key) {
        assert(stays_upto(before, key, i + 1, w));
    }
}

proof fn lemma_wakes_step(before: Seq<(Seq<u8>, u64)>, key: Seq<u8>, i: int, id: u64)
    requires
        0 <= i < before.len(),
    ensures
        wakes_upto(before, key, i + 1, id) <==> (wakes_upto(before, key, i, id) || (before[i].1
            == id && before[i].0.is_prefix_of(key))),
{
    if wakes_upto(before, key, i + 1, id) {
        let j = choose|j: int|
            0 <= j < i + 1 && (#[trigger] before[j]).1 == id && before[j].0.is_prefix_of(key);
        if j < i {
            assert(wakes_upto(before, key, i, id));
        }
    }
    if wakes_upto(before, key, i, id) {
        let j = choose|j: int|
            0 <= j < i && (#[trigger] before[j]).1 == id && before[j].0.is_prefix_of(key);
        assert(0 <= j < i + 1 && before[j].1 == id);
    }
    if before[i].1 == id && before[i].0.is_prefix_of(key) {
        assert(wakes_upto(before, key, i + 1, id));
    }
}

/// What a sequence holds after one more element was pushed.
pub proof fn lemma_push_contains<T>(s: Seq<T>, x: T, w: T)
    ensures
        s.push(x).contains(w) <==> (s.contains(w) || w == x),
{
    if s.contains(w) {
        let j = choose|j: int| 0 <= j < s.len() && s[j] == w;
        assert(s.push(x)[j] == w);
    }
    if w == x {
        assert(s.push(x)[s.len() as int] == w);
    }
    if s.push(x).contains(w) {
        let j = choose|j: int| 0 <= j < s.push(x).len() && s.push(x)[j] == w;
        if j < s.len() {
            assert(s[j] == w);
        }
    }
}

/// The pairs of prefix and waiter behind a list of watchers.
spec fn kept_rows(list: Seq<Watcher>) -> Seq<(Seq<u8>, u64)> {
    Seq::new(list.len(), |i: int| (list[i].prefix@, list[i].waiter))
}

/// Rows in ascending order spell out a finite map with one key per row.
proof fn lemma_rows_dom(rows: Seq<(Seq<u8>, Seq<u8>)>)
    requires
        ascending(rows),
    ensures
        map_of(rows).dom().finite(),
        map_of(rows).dom().len() == rows.len(),
    decreases rows.len(),
{
    if rows.len() == 0 {
        assert(map_of(rows).dom() =~= Set::empty());
    } else {
        let last = rows.len() - 1;
        let rest = rows.remove(last);
        lemma_remove_row(rows, last);
        lemma_rows_dom(rest);
        lemma_map_of_row(rows, last);
        assert(map_of(rows).dom() =~= map_of(rest).dom().insert(rows[last].0));
        assert(!map_of(rest).dom().contains(rows[last].0));
    }
}

} // verus!
