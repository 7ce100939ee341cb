//! Sets of compressed state entries.
//!
//! One entry of a room's resolved state is sixteen bytes: a short state key
//! followed by a short event id, both big-endian. Read as one number it is a
//! `u128`, and a set of them is kept as a strictly ascending vector, so that
//! equal sets are stored, and written to disk, in one way only.

use vstd::prelude::*;

verus! {

/// The entry that maps `shortstatekey` to `shorteventid`.
pub open spec fn entry_of(shortstatekey: u64, shorteventid: u64) -> u128 {
    (shortstatekey as nat * 0x1_0000_0000_0000_0000 + shorteventid as nat) as u128
}

/// The entry that maps `shortstatekey` to `shorteventid`.
pub fn entry(shortstatekey: u64, shorteventid: u64) -> (e: u128)
    ensures
        e == entry_of(shortstatekey, shorteventid),
        shortstatekey_of(e) == shortstatekey,
        shorteventid_of(e) == shorteventid,
{
    (shortstatekey as u128) * 0x1_0000_0000_0000_0000 + (shorteventid as u128)
}

/// The short state key of an entry: its upper eight bytes.
pub open spec fn shortstatekey_of(e: u128) -> u64 {
    (e / 0x1_0000_0000_0000_0000) as u64
}

/// The short event id of an entry: its lower eight bytes.
pub open spec fn shorteventid_of(e: u128) -> u64 {
    (e % 0x1_0000_0000_0000_0000) as u64
}

/// The short state key of an entry.
pub fn shortstatekey(e: u128) -> (k: u64)
    ensures
        k == shortstatekey_of(e),
{
    (e / 0x1_0000_0000_0000_0000) as u64
}

/// The short event id of an entry.
pub fn shorteventid(e: u128) -> (id: u64)
    ensures
        id == shorteventid_of(e),
{
    (e % 0x1_0000_0000_0000_0000) as u64
}

/// Each element of `s` is below the next.
pub open spec fn strictly_ascending(s: Seq<u128>) -> bool {
    forall|i: int, j: int| 0 <= i < j < s.len() ==> s[i] < s[j]
}

pub proof fn lemma_insert_to_set(s: Seq<u128>, at: int, x: u128)
    requires
        0 <= at <= s.len(),
    ensures
        s.insert(at, x).to_set() == s.to_set().insert(x),
{
    let t = s.insert(at, x);
    assert forall|y: u128| t.contains(y) == s.to_set().insert(x).contains(y) by {
        if s.contains(y) {
            let j = choose|j: int| 0 <= j < s.len() && s[j] == y;
            if j < at {
                assert(t[j] == y);
            } else {
                assert(t[j + 1] == y);
            }
        }
        if y == x {
            assert(t[at] == y);
        }
        if t.contains(y) {
            let j = choose|j: int| 0 <= j < t.len() && t[j] == y;
            if j < at {
                assert(s[j] == y);
            } else if j > at {
                assert(s[j - 1] == y);
            }
        }
    }
    assert(t.to_set() =~= s.to_set().insert(x));
}

pub proof fn lemma_remove_to_set(s: Seq<u128>, at: int)
    requires
        strictly_ascending(s),
        0 <= at < s.len(),
    ensures
        s.remove(at).to_set() == s.to_set().remove(s[at]),
        strictly_ascending(s.remove(at)),
{
    let t = s.remove(at);
    assert forall|y: u128| t.contains(y) == s.to_set().remove(s[at]).contains(y) by {
        if s.contains(y) && y != s[at] {
            let j = choose|j: int| 0 <= j < s.len() && s[j] == y;
            if j < at {
                assert(t[j] == y);
            } else {
                assert(t[j - 1] == y);
            }
        }
        if t.contains(y) {
            let j = choose|j: int| 0 <= j < t.len() && t[j] == y;
            if j < at {
                assert(s[j] == y);
            } else {
                assert(s[j + 1] == y);
            }
        }
    }
    assert(t.to_set() =~= s.to_set().remove(s[at]));
}

proof fn lemma_ascending_no_duplicates(s: Seq<u128>)
    requires
        strictly_ascending(s),
    ensures
        s.no_duplicates(),
        s.to_set().finite(),
        s.to_set().len() == s.len(),
{
    assert forall|i: int, j: int| 0 <= i < s.len() && 0 <= j < s.len() && i != j implies s[i]
        != s[j] by {
        if i < j {
            assert(s[i] < s[j]);
        } else {
            assert(s[j] < s[i]);
        }
    }
    vstd::seq_lib::seq_to_set_is_finite(s);
    s.unique_seq_to_set();
}

/// A set holds its elements in one ascending sequence only.
pub proof fn lemma_ascending_unique(a: Seq<u128>, b: Seq<u128>)
    requires
        strictly_ascending(a),
        strictly_ascending(b),
        a.to_set() == b.to_set(),
    ensures
        a == b,
    decreases a.len(),
{
    lemma_ascending_no_duplicates(a);
    lemma_ascending_no_duplicates(b);
    if a.len() > 0 {
        let la = a.len() - 1;
        let lb = b.len() - 1;
        assert(a.to_set().contains(a[la]));
        assert(b.contains(a[la]));
        assert(b.to_set().contains(b[lb]));
        assert(a.contains(b[lb]));
        let i = choose|i: int| 0 <= i < b.len() && b[i] == a[la];
        let j = choose|j: int| 0 <= j < a.len() && a[j] == b[lb];
        if i < lb {
            assert(b[i] < b[lb]);
        }
        if j < la {
            assert(a[j] < a[la]);
        }
        assert(a[la] == b[lb]);
        lemma_remove_to_set(a, la);
        lemma_remove_to_set(b, lb);
        lemma_ascending_unique(a.remove(la), b.remove(lb));
        assert(a =~= a.remove(la).push(a[la]));
        assert(b =~= b.remove(lb).push(b[lb]));
    } else {
        assert(a =~= b);
    }
}

/// A finite set of state entries.
#[derive(Debug)]
pub struct StateSet {
    items: Vec<u128>,
}

impl View for StateSet {
    type V = Set<u128>;

    closed spec fn view(&self) -> Set<u128> {
        self.items@.to_set()
    }
}

impl Clone for StateSet {
    fn clone(&self) -> (r: StateSet)
        ensures
            r.wf() == self.wf(),
            r@ == self@,
            r.elems() == self.elems(),
    {
        StateSet { items: self.items.clone() }
    }
}

impl StateSet {
    /// The entries in ascending order: the order in which they are written.
    pub closed spec fn elems(&self) -> Seq<u128> {
        self.items@
    }

    /// The entries are held in strictly ascending order.
    pub closed spec fn wf(&self) -> bool {
        strictly_ascending(self.items@)
    }

    /// The ordered entries are the entries of the set.
    pub proof fn lemma_elems_set(&self)
        ensures
            self.elems().to_set() == self@,
    {
    }

    /// How the ordered entries stand to the set.
    pub proof fn lemma_elems(&self)
        requires
            self.wf(),
        ensures
            strictly_ascending(self.elems()),
            self.elems().to_set() == self@,
            self@.finite(),
            self@.len() == self.elems().len(),
    {
        lemma_ascending_no_duplicates(self.items@);
    }

    /// The empty set.
    pub fn new() -> (s: StateSet)
        ensures
            s.wf(),
            s@ == Set::<u128>::empty(),
    {
        let s = StateSet { items: Vec::new() };
        assert(s@ =~= Set::<u128>::empty());
        s
    }

    /// The number of entries.
    pub fn len(&self) -> (n: usize)
        requires
            self.wf(),
        ensures
            n == self@.len(),
            self@.finite(),
    {
        proof {
            lemma_ascending_no_duplicates(self.items@);
        }
        self.items.len()
    }

    /// Whether the set is empty.
    pub fn is_empty(&self) -> (r: bool)
        requires
            self.wf(),
        ensures
            r == (self@ == Set::<u128>::empty()),
    {
        proof {
            lemma_ascending_no_duplicates(self.items@);
            if self.items@.len() == 0 {
                assert(self@ =~= Set::<u128>::empty());
            } else {
                assert(self.items@.contains(self.items@[0]));
            }
        }
        self.items.len() == 0
    }

    /// The entries in ascending order.
    pub fn as_slice(&self) -> (r: &[u128])
        ensures
            r@ == self.elems(),
    {
        self.items.as_slice()
    }

    /// The index of the first entry that is not below `x`.
    fn lower_bound(&self, x: u128) -> (at: usize)
        requires
            self.wf(),
        ensures
            at <= self.items@.len(),
            forall|i: int| 0 <= i < at ==> self.items@[i] < x,
            forall|i: int| at <= i < self.items@.len() ==> x <= self.items@[i],
    {
        let mut lo: usize = 0;
        let mut hi: usize = self.items.len();
        while lo < hi
            invariant
                self.wf(),
                lo <= hi <= self.items@.len(),
                forall|i: int| 0 <= i < lo ==> self.items@[i] < x,
                forall|i: int| hi <= i < self.items@.len() ==> x <= self.items@[i],
            decreases hi - lo,
        {
            let mid = lo + (hi - lo) / 2;
            if self.items[mid] < x {
                assert forall|i: int| 0 <= i < mid + 1 implies self.items@[i] < x by {
                    if i < mid {
                        assert(self.items@[i] < self.items@[mid as int]);
                    }
                }
                lo = mid + 1;
            } else {
                assert forall|i: int| mid <= i < self.items@.len() implies x
                    <= self.items@[i] by {
                    if i > mid {
                        assert(self.items@[mid as int] < self.items@[i]);
                    }
                }
                hi = mid;
            }
        }
        lo
    }

    /// Whether `x` is in the set.
    pub fn contains(&self, x: u128) -> (r: bool)
        requires
            self.wf(),
        ensures
            r == self@.contains(x),
    {
        let at = self.lower_bound(x);
        let found = at < self.items.len() && self.items[at] == x;
        proof {
            if self.items@.contains(x) {
                let j = choose|j: int| 0 <= j < self.items@.len() && self.items@[j] == x;
                if j > at {
                    assert(self.items@[at as int] < self.items@[j]);
                }
            }
            if found {
                assert(self.items@[at as int] == x);
            }
        }
        found
    }

    /// Adds `x`. Returns whether it was new.
    pub fn insert(&mut self, x: u128) -> (r: bool)
        requires
            old(self).wf(),
        ensures
            final(self).wf(),
            final(self)@ == old(self)@.insert(x),
            r == !old(self)@.contains(x),
    {
        let at = self.lower_bound(x);
        let ghost before = self.items@;
        if at < self.items.len() && self.items[at] == x {
            assert(before.contains(x));
            assert(self@ =~= self@.insert(x));
            false
        } else {
            proof {
                if before.contains(x) {
                    let j = choose|j: int| 0 <= j < before.len() && before[j] == x;
                    if j > at {
                        assert(before[at as int] < before[j]);
                    }
                }
                lemma_insert_to_set(before, at as int, x);
            }
            self.items.insert(at, x);
            assert forall|i: int, j: int| 0 <= i < j < self.items@.len() implies self.items@[i]
                < self.items@[j] by {
                let oi = if i < at {
                    i
                } else {
                    i - 1
                };
                let oj = if j < at {
                    j
                } else {
                    j - 1
                };
                if i != at && j != at {
                    assert(before[oi] < before[oj]);
                }
            }
            true
        }
    }

    /// Takes `x` out. Returns whether it was there.
    pub fn remove(&mut self, x: u128) -> (r: bool)
        requires
            old(self).wf(),
        ensures
            final(self).wf(),
            final(self)@ == old(self)@.remove(x),
            r == old(self)@.contains(x),
    {
        let at = self.lower_bound(x);
        let ghost before = self.items@;
        if at < self.items.len() && self.items[at] == x {
            proof {
                assert(before.contains(x));
                lemma_remove_to_set(before, at as int);
            }
            self.items.remove(at);
            true
        } else {
            proof {
                if before.contains(x) {
                    let j = choose|j: int| 0 <= j < before.len() && before[j] == x;
                    if j > at {
                        assert(before[at as int] < before[j]);
                    }
                }
                assert(self@ =~= self@.remove(x));
            }
            false
        }
    }

    /// The entries of this set whose short state key is not `key`.
    pub fn without_key(&self, key: u64) -> (r: StateSet)
        requires
            self.wf(),
        ensures
            r.wf(),
            r@ == Set::new(|e: u128| self@.contains(e) && shortstatekey_of(e) != key),
    {
        let mut out: Vec<u128> = Vec::new();
        let mut i: usize = 0;
        while i < self.items.len()
            invariant
                self.wf(),
                i <= self.items@.len(),
                strictly_ascending(out@),
                forall|k: int| 0 <= k < out@.len() ==> i > 0 && out@[k] <= self.items@[i - 1],
                forall|y: u128|
                    #![trigger out@.contains(y)]
                    #![trigger self.items@.take(i as int).contains(y)]
                    out@.contains(y) <==> (self.items@.take(i as int).contains(y)
                        && shortstatekey_of(y) != key),
            decreases self.items@.len() - i,
        {
            let x = self.items[i];
            let ghost out_before = out@;
            let ghost seen = self.items@.take(i as int);
            let keep = shortstatekey(x) != key;
            if keep {
                out.push(x);
            }
            proof {
                assert(self.items@.take(i + 1) =~= seen.push(x));
                assert forall|k: int| 0 <= k < out@.len() implies out@[k] <= self.items@[i as int] by {
                    if k < out_before.len() {
                        assert(out_before[k] <= self.items@[i - 1]);
                        assert(self.items@[i - 1] < self.items@[i as int]);
                    }
                }
                assert forall|a: int, b: int| 0 <= a < b < out@.len() implies out@[a] < out@[b] by {
                    if b == out_before.len() {
                        assert(out_before[a] <= self.items@[i - 1]);
                        assert(self.items@[i - 1] < self.items@[i as int]);
                    } else {
                        assert(out_before[a] < out_before[b]);
                    }
                }
                assert forall|y: u128|
                    #![trigger out@.contains(y)]
                    #![trigger seen.push(x).contains(y)]
                    out@.contains(y) <==> (seen.push(x).contains(y) && shortstatekey_of(y)
                        != key) by {
                    crate::tree::lemma_push_contains(seen, x, y);
                    assert(out_before.contains(y) <==> (seen.contains(y) && shortstatekey_of(y)
                        != key));
                    if keep {
                        crate::tree::lemma_push_contains(out_before, x, y);
                    }
                }
            }
            i = i + 1;
        }
        let r = StateSet { items: out };
        proof {
            assert(self.items@.take(i as int) =~= self.items@);
            assert forall|e: u128|
                r@.contains(e) == (self@.contains(e) && shortstatekey_of(e) != key) by {
                assert(out@.contains(e) <==> (self.items@.contains(e) && shortstatekey_of(e)
                    != key));
            }
            assert(r@ =~= Set::new(|e: u128| self@.contains(e) && shortstatekey_of(e) != key));
        }
        r
    }

    /// The entries of this set that are not in `other`.
    pub fn difference(&self, other: &StateSet) -> (r: StateSet)
        requires
            self.wf(),
            other.wf(),
        ensures
            r.wf(),
            r@ == self@.difference(other@),
    {
        let mut out: Vec<u128> = Vec::new();
        let mut i: usize = 0;
        while i < self.items.len()
            invariant
                self.wf(),
                other.wf(),
                i <= self.items@.len(),
                strictly_ascending(out@),
                forall|k: int| 0 <= k < out@.len() ==> i > 0 && out@[k] <= self.items@[i - 1],
                forall|y: u128|
                    out@.contains(y) <==> (self.items@.take(i as int).contains(y)
                        && !other@.contains(y)),
            decreases self.items@.len() - i,
        {
            let x = self.items[i];
            let ghost out_before = out@;
            let ghost seen = self.items@.take(i as int);
            let keep = !other.contains(x);
            if keep {
                out.push(x);
            }
            proof {
                assert(self.items@.take(i + 1) =~= seen.push(x));
                assert forall|k: int| 0 <= k < out@.len() implies out@[k] <= self.items@[i as int] by {
                    if k < out_before.len() {
                        assert(out_before[k] <= self.items@[i - 1]);
                        assert(self.items@[i - 1] < self.items@[i as int]);
                    }
                }
                assert forall|a: int, b: int| 0 <= a < b < out@.len() implies out@[a] < out@[b] by {
                    if b == out_before.len() {
                        assert(out_before[a] <= self.items@[i - 1]);
                        assert(self.items@[i - 1] < self.items@[i as int]);
                    } else {
                        assert(out_before[a] < out_before[b]);
                    }
                }
                assert forall|y: u128|
                    out@.contains(y) <==> (seen.push(x).contains(y) && !other@.contains(y)) by {
                    crate::tree::lemma_push_contains(seen, x, y);
                    if keep {
                        crate::tree::lemma_push_contains(out_before, x, y);
                    }
                }
            }
            i = i + 1;
        }
        let r = StateSet { items: out };
        proof {
            assert(self.items@.take(i as int) =~= self.items@);
            assert(r@ =~= self@.difference(other@));
        }
        r
    }
}

} // verus!
