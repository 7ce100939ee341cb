//! The lexicographic order on byte strings, by which every tree is sorted.

use vstd::prelude::*;

verus! {

/// `a` and `b` hold the same bytes at every index below `i`.
pub open spec fn agree(a: Seq<u8>, b: Seq<u8>, i: int) -> bool {
    &&& 0 <= i <= a.len()
    &&& i <= b.len()
    &&& forall|j: int| 0 <= j < i ==> a[j] == b[j]
}

/// `a` sorts before `b`, and index `i` shows it: up to there they agree, and
/// there `a` ends or holds the smaller byte.
pub open spec fn differ_at(a: Seq<u8>, b: Seq<u8>, i: int) -> bool {
    &&& agree(a, b, i)
    &&& i < b.len()
    &&& (i == a.len() || a[i] < b[i])
}

/// `a` sorts strictly before `b`.
pub open spec fn lex_lt(a: Seq<u8>, b: Seq<u8>) -> bool {
    exists|i: int| differ_at(a, b, i)
}

/// `a` sorts before `b` or is `b`.
pub open spec fn lex_le(a: Seq<u8>, b: Seq<u8>) -> bool {
    a == b || lex_lt(a, b)
}

/// How one key stands to another.
#[derive(Clone, Copy, Debug, PartialEq, Eq, Structural)]
pub enum KeyOrder {
    Less,
    Equal,
    Greater,
}

pub proof fn lemma_lex_asymmetric(a: Seq<u8>, b: Seq<u8>)
    requires
        lex_lt(a, b),
    ensures
        !lex_lt(b, a),
        a != b,
{
    let i = choose|i: int| differ_at(a, b, i);
    if lex_lt(b, a) {
        let j = choose|j: int| differ_at(b, a, j);
        if i < j {
            assert(b[i] == a[i]);
        } else if j < i {
            assert(a[j] == b[j]);
        }
    }
}

pub proof fn lemma_lex_transitive(a: Seq<u8>, b: Seq<u8>, c: Seq<u8>)
    requires
        lex_lt(a, b),
        lex_lt(b, c),
    ensures
        lex_lt(a, c),
{
    let i = choose|i: int| differ_at(a, b, i);
    let j = choose|j: int| differ_at(b, c, j);
    let k = if i <= j {
        i
    } else {
        j
    };
    assert(differ_at(a, c, k));
}

/// Any two keys are equal or one sorts before the other.
pub proof fn lemma_lex_total(a: Seq<u8>, b: Seq<u8>)
    ensures
        lex_lt(a, b) || a == b || lex_lt(b, a),
{
    lemma_first_difference(a, b, 0);
}

proof fn lemma_first_difference(a: Seq<u8>, b: Seq<u8>, i: int)
    requires
        agree(a, b, i),
    ensures
        lex_lt(a, b) || a == b || lex_lt(b, a),
    decreases a.len() - i,
{
    if i == a.len() {
        if i == b.len() {
            assert(a =~= b);
        } else {
            assert(differ_at(a, b, i));
        }
    } else if i == b.len() {
        assert(agree(b, a, i));
        assert(differ_at(b, a, i));
    } else if a[i] < b[i] {
        assert(differ_at(a, b, i));
    } else if b[i] < a[i] {
        assert(agree(b, a, i));
        assert(differ_at(b, a, i));
    } else {
        lemma_first_difference(a, b, i + 1);
    }
}

/// `a <= b < c` gives `a < c`.
pub proof fn lemma_lex_le_lt(a: Seq<u8>, b: Seq<u8>, c: Seq<u8>)
    requires
        lex_le(a, b),
        lex_lt(b, c),
    ensures
        lex_lt(a, c),
{
    if a != b {
        lemma_lex_transitive(a, b, c);
    }
}

/// A key sorts at or after each of its prefixes.
pub proof fn lemma_prefix_le(prefix: Seq<u8>, key: Seq<u8>)
    requires
        prefix.is_prefix_of(key),
    ensures
        lex_le(prefix, key),
{
    if prefix.len() == key.len() {
        assert(prefix =~= key);
    } else {
        assert forall|j: int| 0 <= j < prefix.len() implies prefix[j] == key[j] by {
            assert(key.subrange(0, prefix.len() as int)[j] == key[j]);
        }
        assert(differ_at(prefix, key, prefix.len() as int));
    }
}

/// The keys that begin with one prefix stand together: once a key at or
/// after the prefix does not begin with it, no later key does.
pub proof fn lemma_prefix_block(prefix: Seq<u8>, key: Seq<u8>, later: Seq<u8>)
    requires
        lex_le(prefix, key),
        !prefix.is_prefix_of(key),
        lex_lt(key, later),
    ensures
        !prefix.is_prefix_of(later),
{
    if prefix == key {
        assert(key.subrange(0, prefix.len() as int) =~= prefix);
    }
    let i = choose|i: int| differ_at(prefix, key, i);
    if i == prefix.len() {
        assert(key.subrange(0, prefix.len() as int) =~= prefix);
    }
    let j = choose|j: int| differ_at(key, later, j);
    if prefix.is_prefix_of(later) {
        let head = later.subrange(0, prefix.len() as int);
        if j > i {
            assert(head[i] == later[i]);
        } else {
            assert(head[j] == later[j]);
        }
    }
}

/// Compares two keys byte by byte.
pub fn compare(a: &[u8], b: &[u8]) -> (r: KeyOrder)
    ensures
        match r {
            KeyOrder::Less => lex_lt(a@, b@),
            KeyOrder::Equal => a@ == b@,
            KeyOrder::Greater => lex_lt(b@, a@),
        },
{
    let mut i: usize = 0;
    while i < a.len() && i < b.len()
        invariant
            agree(a@, b@, i as int),
        decreases a@.len() - i,
    {
        if a[i] < b[i] {
            assert(differ_at(a@, b@, i as int));
            return KeyOrder::Less;
        }
        if a[i] > b[i] {
            assert(agree(b@, a@, i as int));
            assert(differ_at(b@, a@, i as int));
            return KeyOrder::Greater;
        }
        i = i + 1;
    }
    if i < b.len() {
        assert(differ_at(a@, b@, i as int));
        KeyOrder::Less
    } else if i < a.len() {
        assert(agree(b@, a@, i as int));
        assert(differ_at(b@, a@, i as int));
        KeyOrder::Greater
    } else {
        assert(a@ =~= b@);
        KeyOrder::Equal
    }
}


/// The byte strings behind a list of keys.
pub open spec fn list_view(list: Seq<Vec<u8>>) -> Seq<Seq<u8>> {
    Seq::new(list.len(), |i: int| list[i]@)
}

/// The byte strings behind a list of lists of keys.
pub open spec fn lists_view(lists: Seq<Vec<Vec<u8>>>) -> Seq<Seq<Seq<u8>>> {
    Seq::new(lists.len(), |i: int| list_view(lists[i]@))
}

/// Where a reader of `list` that stands at `pos` comes to rest when it
/// looks for `target`: at the first key from `pos` on that is not below
/// `target`, or at the end.
pub open spec fn rest_at(list: Seq<Seq<u8>>, pos: int, target: Seq<u8>) -> int
    decreases list.len() - pos,
{
    if pos < 0 || pos >= list.len() || !lex_lt(list[pos], target) {
        pos
    } else {
        rest_at(list, pos + 1, target)
    }
}

/// Looks for `target` in the lists from list `j` on, each read from where
/// its reader stands: the readers as they are left, and whether every list
/// had the target. The search ends at the first list that has it not, and
/// the readers of the lists after that one stay where they are.
pub open spec fn seek(
    lists: Seq<Seq<Seq<u8>>>,
    readers: Seq<int>,
    target: Seq<u8>,
    j: int,
) -> (Seq<int>, bool)
    decreases lists.len() - j,
{
    if j < 0 || j >= lists.len() || j >= readers.len() {
        (readers, true)
    } else {
        let pos = rest_at(lists[j], readers[j], target);
        let moved = readers.update(j, pos);
        if 0 <= pos < lists[j].len() && lists[j][pos] == target {
            seek(lists, moved, target, j + 1)
        } else {
            (moved, false)
        }
    }
}

/// The keys of `first`, in order, that every one of the lists has. Each
/// list is read by one reader that only moves forward, as is right for
/// lists in ascending order.
pub open spec fn common(
    first: Seq<Seq<u8>>,
    lists: Seq<Seq<Seq<u8>>>,
    readers: Seq<int>,
    from: int,
) -> Seq<Seq<u8>>
    decreases first.len() - from,
{
    if from < 0 || from >= first.len() {
        Seq::empty()
    } else {
        let found = seek(lists, readers, first[from], 0);
        let rest = common(first, lists, found.0, from + 1);
        if found.1 {
            seq![first[from]] + rest
        } else {
            rest
        }
    }
}

/// The keys stand in strictly ascending order.
pub open spec fn ascending_keys(list: Seq<Seq<u8>>) -> bool {
    forall|i: int, j: int|
        #![trigger list[i], list[j]]
        0 <= i < j < list.len() ==> lex_lt(list[i], list[j])
}

/// Every one of the lists holds the key.
pub open spec fn held_by_all(lists: Seq<Seq<Seq<u8>>>, key: Seq<u8>) -> bool {
    forall|m: int| 0 <= m < lists.len() ==> (#[trigger] lists[m]).contains(key)
}

/// Every one of the lists from list `j` on holds the key.
spec fn held_from(lists: Seq<Seq<Seq<u8>>>, key: Seq<u8>, j: int) -> bool {
    forall|m: int| j <= m < lists.len() ==> (#[trigger] lists[m]).contains(key)
}

/// Each reader stands in its list, and every key that it has passed is
/// below `bound`.
spec fn behind(lists: Seq<Seq<Seq<u8>>>, readers: Seq<int>, bound: Seq<u8>) -> bool {
    &&& readers.len() == lists.len()
    &&& forall|m: int|
        0 <= m < lists.len() ==> 0 <= (#[trigger] readers[m]) <= lists[m].len()
    &&& forall|m: int, k: int|
        0 <= m < lists.len() && 0 <= k < readers[m] ==> lex_lt(#[trigger] lists[m][k], bound)
}

proof fn lemma_rest_at(list: Seq<Seq<u8>>, pos: int, target: Seq<u8>)
    requires
        0 <= pos <= list.len(),
    ensures
        pos <= rest_at(list, pos, target) <= list.len(),
        forall|k: int| pos <= k < rest_at(list, pos, target) ==> lex_lt(#[trigger] list[k], target),
        rest_at(list, pos, target) < list.len() ==> !lex_lt(
            list[rest_at(list, pos, target)],
            target,
        ),
    decreases list.len() - pos,
{
    if pos < list.len() && lex_lt(list[pos], target) {
        lemma_rest_at(list, pos + 1, target);
    }
}

proof fn lemma_seek(lists: Seq<Seq<Seq<u8>>>, readers: Seq<int>, target: Seq<u8>, j: int)
    requires
        forall|m: int| 0 <= m < lists.len() ==> ascending_keys(#[trigger] lists[m]),
        behind(lists, readers, target),
        0 <= j <= lists.len(),
    ensures
        behind(lists, seek(lists, readers, target, j).0, target),
        seek(lists, readers, target, j).1 == held_from(lists, target, j),
    decreases lists.len() - j,
{
    if j < lists.len() {
        let list = lists[j];
        let pos = rest_at(list, readers[j], target);
        let moved = readers.update(j, pos);
        lemma_rest_at(list, readers[j], target);
        assert(behind(lists, moved, target)) by {
            assert forall|m: int, k: int|
                0 <= m < lists.len() && 0 <= k < moved[m] implies lex_lt(
                #[trigger] lists[m][k],
                target,
            ) by {
                if m == j && k >= readers[j] {
                    assert(lex_lt(list[k], target));
                }
            }
        }
        if 0 <= pos < list.len() && list[pos] == target {
            lemma_seek(lists, moved, target, j + 1);
            assert(list.contains(target));
            assert(held_from(lists, target, j) == held_from(lists, target, j + 1)) by {
                if held_from(lists, target, j + 1) {
                    assert forall|m: int| j <= m < lists.len() implies (
                    #[trigger] lists[m]).contains(target) by {
                        if m > j {
                            assert(lists[m].contains(target));
                        }
                    }
                }
            }
        } else {
            if list.contains(target) {
                let k = choose|k: int| 0 <= k < list.len() && list[k] == target;
                assert(ascending_keys(list));
                if k < pos {
                    assert(lex_lt(list[k], target));
                    lemma_lex_asymmetric(list[k], target);
                } else if k > pos {
                    assert(lex_lt(list[pos], list[k]));
                }
            }
            assert(!held_from(lists, target, j)) by {
                if held_from(lists, target, j) {
                    assert(lists[j].contains(target));
                }
            }
        }
    }
}

/// Some key of `first` from index `from` on is `key`.
spec fn among(first: Seq<Seq<u8>>, from: int, key: Seq<u8>) -> bool {
    exists|i: int| from <= i < first.len() && #[trigger] first[i] == key
}

proof fn lemma_common_from(
    first: Seq<Seq<u8>>,
    lists: Seq<Seq<Seq<u8>>>,
    readers: Seq<int>,
    from: int,
    key: Seq<u8>,
)
    requires
        ascending_keys(first),
        forall|m: int| 0 <= m < lists.len() ==> ascending_keys(#[trigger] lists[m]),
        0 <= from <= first.len(),
        from < first.len() ==> behind(lists, readers, first[from]),
    ensures
        common(first, lists, readers, from).contains(key) == (among(first, from, key)
            && held_by_all(lists, key)),
    decreases first.len() - from,
{
    if from < first.len() {
        let x = first[from];
        let found = seek(lists, readers, x, 0);
        let rest = common(first, lists, found.0, from + 1);
        lemma_seek(lists, readers, x, 0);
        if from + 1 < first.len() {
            let next = first[from + 1];
            assert(lex_lt(first[from], first[from + 1]));
            assert(behind(lists, found.0, next)) by {
                assert forall|m: int, k: int|
                    0 <= m < lists.len() && 0 <= k < found.0[m] implies lex_lt(
                    #[trigger] lists[m][k],
                    next,
                ) by {
                    lemma_lex_transitive(lists[m][k], x, next);
                }
            }
        }
        lemma_common_from(first, lists, found.0, from + 1, key);
        assert(held_from(lists, x, 0) == held_by_all(lists, x));
        assert(among(first, from, key) == (key == x || among(first, from + 1, key))) by {
            if among(first, from, key) {
                let i = choose|i: int| from <= i < first.len() && #[trigger] first[i] == key;
                if i > from {
                    assert(among(first, from + 1, key));
                }
            }
            if among(first, from + 1, key) {
                let i = choose|i: int| from + 1 <= i < first.len() && #[trigger] first[i] == key;
                assert(from <= i < first.len() && first[i] == key);
            }
            if key == x {
                assert(from <= from < first.len() && first[from] == key);
            }
        }
        if found.1 {
            let whole = seq![x] + rest;
            assert(whole.contains(key) == (key == x || rest.contains(key))) by {
                if key == x {
                    assert(whole[0] == key);
                }
                if rest.contains(key) {
                    let i = choose|i: int| 0 <= i < rest.len() && rest[i] == key;
                    assert(whole[i + 1] == key);
                }
                if whole.contains(key) {
                    let i = choose|i: int| 0 <= i < whole.len() && whole[i] == key;
                    if i > 0 {
                        assert(rest[i - 1] == key);
                    }
                }
            }
        }
    } else {
        assert(!common(first, lists, readers, from).contains(key));
    }
}

/// On lists in ascending order, one forward pass finds what the lists have
/// in common: the result holds exactly the keys of the first list that
/// every other list holds too.
pub proof fn lemma_common_of_ascending(first: Seq<Seq<u8>>, lists: Seq<Seq<Seq<u8>>>, key: Seq<u8>)
    requires
        ascending_keys(first),
        forall|m: int| 0 <= m < lists.len() ==> ascending_keys(#[trigger] lists[m]),
    ensures
        common(first, lists, Seq::new(lists.len(), |i: int| 0int), 0).contains(key) == (
        first.contains(key) && held_by_all(lists, key)),
{
    let start = Seq::new(lists.len(), |i: int| 0int);
    if first.len() > 0 {
        assert(behind(lists, start, first[0]));
    }
    lemma_common_from(first, lists, start, 0, key);
    assert(among(first, 0, key) == first.contains(key)) by {
        if first.contains(key) {
            let i = choose|i: int| 0 <= i < first.len() && first[i] == key;
            assert(0 <= i < first.len() && first[i] == key);
        }
    }
}

/// Moves a reader to where it comes to rest when it looks for `target`.
fn advance(list: &Vec<Vec<u8>>, pos: usize, target: &[u8]) -> (r: usize)
    requires
        pos <= list@.len(),
    ensures
        r == rest_at(list_view(list@), pos as int, target@),
        pos <= r <= list@.len(),
{
    let mut at: usize = pos;
    while at < list.len()
        invariant
            pos <= at <= list@.len(),
            rest_at(list_view(list@), pos as int, target@) == rest_at(
                list_view(list@),
                at as int,
                target@,
            ),
        decreases list@.len() - at,
    {
        assert(list_view(list@)[at as int] == list@[at as int]@);
        match compare(list[at].as_slice(), target) {
            KeyOrder::Less => {
                // Keep searching
                at = at + 1;
            },
            // We went too far, or the element is in both lists
            _ => {
                proof {
                    if lex_lt(list@[at as int]@, target@) {
                        lemma_lex_asymmetric(list@[at as int]@, target@);
                    }
                }
                return at;
            },
        }
    }
    at
}

/// The elements of the first list that every other list has too, in the
/// order of the first list. The lists are read once from front to back, as
/// is right for lists in ascending lexicographic order. `None` where there
/// is no list at all.
pub fn common_elements(iterators: Vec<Vec<Vec<u8>>>) -> (r: Option<Vec<Vec<u8>>>)
    ensures
        iterators@.len() == 0 ==> r is None,
        iterators@.len() > 0 ==> (r matches Some(found) && list_view(found@) == common(
            lists_view(iterators@)[0],
            lists_view(iterators@).skip(1),
            Seq::new(lists_view(iterators@).skip(1).len(), |i: int| 0int),
            0,
        )),
{
    if iterators.len() == 0 {
        return None;
    }
    let ghost all = lists_view(iterators@);
    let ghost first = all[0];
    let ghost others = all.skip(1);
    let mut readers: Vec<usize> = Vec::new();
    let mut k: usize = 1;
    while k < iterators.len()
        invariant
            1 <= k <= iterators@.len(),
            readers@.len() == k - 1,
            forall|i: int| 0 <= i < readers@.len() ==> readers@[i] == 0,
        decreases iterators@.len() - k,
    {
        readers.push(0);
        k = k + 1;
    }
    let mut out: Vec<Vec<u8>> = Vec::new();
    let mut t: usize = 0;
    let ghost start = Seq::new(others.len(), |i: int| 0int);
    proof {
        assert(positions(readers@) =~= start);
        assert(list_view(out@) =~= Seq::empty());
        assert(Seq::<Seq<u8>>::empty() + common(first, others, start, 0) =~= common(
            first,
            others,
            start,
            0,
        ));
    }
    while t < iterators[0].len()
        invariant
            iterators@.len() > 0,
            all == lists_view(iterators@),
            first == all[0],
            others == all.skip(1),
            t <= first.len(),
            first.len() == iterators@[0]@.len(),
            readers@.len() == iterators@.len() - 1,
            forall|i: int|
                0 <= i < readers@.len() ==> (#[trigger] readers@[i]) <= iterators@[i + 1]@.len(),
            common(first, others, start, 0) == list_view(out@) + common(
                first,
                others,
                positions(readers@),
                t as int,
            ),
        decreases first.len() - t,
    {
        let target = iterators[0][t].as_slice();
        assert(first[t as int] == target@) by {
            assert(all[0] == list_view(iterators@[0]@));
        }
        let ghost before = positions(readers@);
        let mut in_all = true;
        let mut j: usize = 0;
        while j < readers.len() && in_all
            invariant
                iterators@.len() > 0,
                all == lists_view(iterators@),
                others == all.skip(1),
                j <= readers@.len(),
                readers@.len() == iterators@.len() - 1,
                forall|i: int|
                    0 <= i < readers@.len() ==> (#[trigger] readers@[i]) <= iterators@[i
                        + 1]@.len(),
                in_all ==> seek(others, before, target@, 0) == seek(
                    others,
                    positions(readers@),
                    target@,
                    j as int,
                ),
                !in_all ==> seek(others, before, target@, 0) == (positions(readers@), false),
            decreases readers@.len() - j + if in_all {
                1int
            } else {
                0int
            },
        {
            let ghost pos_before = positions(readers@);
            assert(others[j as int] == list_view(iterators@[j + 1]@)) by {
                assert(all[j + 1] == list_view(iterators@[j + 1]@));
            }
            let at = advance(&iterators[j + 1], readers[j], target);
            readers[j] = at;
            assert(positions(readers@) =~= pos_before.update(j as int, at as int));
            let hit = at < iterators[j + 1].len() && crate::utils::bytes_eq(
                iterators[j + 1][at].as_slice(),
                target,
            );
            proof {
                if at < iterators@[j + 1]@.len() {
                    assert(others[j as int][at as int] == iterators@[j + 1]@[at as int]@);
                }
            }
            if hit {
                j = j + 1;
            } else {
                in_all = false;
            }
        }
        let ghost found = seek(others, before, target@, 0);
        proof {
            assert(found == (positions(readers@), in_all));
        }
        if in_all {
            let ghost out_before = list_view(out@);
            out.push(crate::utils::to_vec(target));
            proof {
                assert(list_view(out@) =~= out_before.push(target@));
                let rest = common(first, others, positions(readers@), t + 1);
                assert(out_before + (seq![first[t as int]] + rest) =~= out_before.push(target@)
                    + rest);
            }
        }
        t = t + 1;
    }
    proof {
        assert(list_view(out@) + Seq::<Seq<u8>>::empty() =~= list_view(out@));
    }
    Some(out)
}

/// Where the readers stand.
pub open spec fn positions(readers: Seq<usize>) -> Seq<int> {
    Seq::new(readers.len(), |i: int| readers[i] as int)
}

} // verus!
