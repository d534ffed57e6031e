//! The order of a directory listing.
//!
//! Entries are listed by key, ascending; a key is a byte string and keys are
//! compared byte by byte. Entries with the same key stay in the order in which
//! the directory was enumerated.

use vstd::prelude::*;

verus! {

/// `a` is at most `b`, byte by byte; a proper prefix comes first.
pub open spec fn lex_le(a: Seq<u8>, b: Seq<u8>) -> bool
    decreases a.len(),
{
    if a.len() == 0 {
        true
    } else if b.len() == 0 {
        false
    } else if a[0] != b[0] {
        a[0] < b[0]
    } else {
        lex_le(a.drop_first(), b.drop_first())
    }
}

/// Entry `i` is listed before entry `j`: its key is smaller, or the keys are
/// the same and `i` was enumerated first.
pub open spec fn precedes(keys: Seq<Seq<u8>>, i: int, j: int) -> bool {
    !lex_le(keys[j], keys[i]) || (lex_le(keys[i], keys[j]) && i < j)
}

/// `order` lists every index of `keys` once, each before all that it precedes.
pub open spec fn is_listing_order(order: Seq<int>, keys: Seq<Seq<u8>>) -> bool {
    &&& order.len() == keys.len()
    &&& forall|k: int| 0 <= k < order.len() ==> 0 <= #[trigger] order[k] < keys.len()
    &&& forall|i: int| 0 <= i < keys.len() ==> order.contains(i)
    &&& forall|a: int, b: int|
        0 <= a < b < order.len() ==> precedes(keys, #[trigger] order[a], #[trigger] order[b])
}

/// How many leading entries of `order` have a key that is at most `key`.
pub open spec fn insertion_point(order: Seq<int>, keys: Seq<Seq<u8>>, key: Seq<u8>) -> int
    decreases order.len(),
{
    if order.len() == 0 {
        0
    } else if lex_le(keys[order[0]], key) {
        1 + insertion_point(order.drop_first(), keys, key)
    } else {
        0
    }
}

/// The listing order of `keys`: that of all but the last entry, with the last
/// entry put behind every entry whose key is at most its own.
pub open spec fn stable_order(keys: Seq<Seq<u8>>) -> Seq<int>
    decreases keys.len(),
{
    if keys.len() == 0 {
        Seq::empty()
    } else {
        let prev = stable_order(keys.drop_last());
        prev.insert(insertion_point(prev, keys, keys.last()), keys.len() - 1)
    }
}

/// The items in the given order.
pub open spec fn arrange<T>(items: Seq<T>, order: Seq<int>) -> Seq<T> {
    Seq::new(order.len(), |i: int| items[order[i]])
}

/// The byte strings held by a vector of keys.
pub open spec fn key_views(keys: Seq<Vec<u8>>) -> Seq<Seq<u8>> {
    Seq::new(keys.len(), |i: int| keys[i]@)
}

/// The positions held by a vector of indices.
pub open spec fn indices(order: Seq<usize>) -> Seq<int> {
    Seq::new(order.len(), |i: int| order[i] as int)
}

/// Every key is at most itself.
pub proof fn lemma_lex_le_reflexive(a: Seq<u8>)
    ensures
        lex_le(a, a),
    decreases a.len(),
{
    if a.len() > 0 {
        lemma_lex_le_reflexive(a.drop_first());
    }
}

/// Of two keys one is at most the other.
pub proof fn lemma_lex_le_total(a: Seq<u8>, b: Seq<u8>)
    ensures
        lex_le(a, b) || lex_le(b, a),
    decreases a.len(),
{
    if a.len() > 0 && b.len() > 0 && a[0] == b[0] {
        lemma_lex_le_total(a.drop_first(), b.drop_first());
    }
}

/// The order of keys is transitive.
pub proof fn lemma_lex_le_transitive(a: Seq<u8>, b: Seq<u8>, c: Seq<u8>)
    requires
        lex_le(a, b),
        lex_le(b, c),
    ensures
        lex_le(a, c),
    decreases a.len(),
{
    if a.len() > 0 && a[0] == b[0] && b[0] == c[0] {
        lemma_lex_le_transitive(a.drop_first(), b.drop_first(), c.drop_first());
    }
}

/// Keys that are at most each other are the same key.
pub proof fn lemma_lex_le_antisymmetric(a: Seq<u8>, b: Seq<u8>)
    requires
        lex_le(a, b),
        lex_le(b, a),
    ensures
        a == b,
    decreases a.len(),
{
    if a.len() > 0 {
        lemma_lex_le_antisymmetric(a.drop_first(), b.drop_first());
        assert(a =~= seq![a[0]] + a.drop_first());
        assert(b =~= seq![b[0]] + b.drop_first());
    } else {
        assert(a =~= b);
    }
}

/// The insertion point lies behind exactly the leading entries whose key is
/// at most `key`.
pub proof fn lemma_insertion_point(order: Seq<int>, keys: Seq<Seq<u8>>, key: Seq<u8>)
    ensures
        0 <= insertion_point(order, keys, key) <= order.len(),
        forall|k: int|
            0 <= k < insertion_point(order, keys, key) ==> lex_le(keys[#[trigger] order[k]], key),
        insertion_point(order, keys, key) < order.len() ==> !lex_le(
            keys[order[insertion_point(order, keys, key)]],
            key,
        ),
    decreases order.len(),
{
    if order.len() > 0 && lex_le(keys[order[0]], key) {
        let rest = order.drop_first();
        lemma_insertion_point(rest, keys, key);
        let p = insertion_point(order, keys, key);
        assert forall|k: int| 0 <= k < p implies lex_le(keys[#[trigger] order[k]], key) by {
            if k > 0 {
                assert(order[k] == rest[k - 1]);
            }
        }
        if p < order.len() {
            assert(order[p] == rest[p - 1]);
        }
    }
}

/// A position is the insertion point once every entry before it has a key
/// that is at most `key` and the entry at it, if any, has not.
pub proof fn lemma_insertion_point_is(
    order: Seq<int>,
    keys: Seq<Seq<u8>>,
    key: Seq<u8>,
    p: int,
)
    requires
        0 <= p <= order.len(),
        forall|k: int| 0 <= k < p ==> lex_le(keys[#[trigger] order[k]], key),
        p < order.len() ==> !lex_le(keys[order[p]], key),
    ensures
        insertion_point(order, keys, key) == p,
{
    lemma_insertion_point(order, keys, key);
    let q = insertion_point(order, keys, key);
    if q < p {
        assert(lex_le(keys[order[q]], key));
    } else if p < q {
        assert(lex_le(keys[order[p]], key));
    }
}

/// `stable_order` is a listing order: a permutation of the indices in which
/// keys ascend and equal keys keep their enumeration order.
pub proof fn lemma_stable_order_is_listing_order(keys: Seq<Seq<u8>>)
    ensures
        is_listing_order(stable_order(keys), keys),
    decreases keys.len(),
{
    if keys.len() > 0 {
        let init = keys.drop_last();
        let prev = stable_order(init);
        let key = keys.last();
        let last = keys.len() - 1;
        let p = insertion_point(prev, keys, key);
        let order = stable_order(keys);
        lemma_stable_order_is_listing_order(init);
        lemma_insertion_point(prev, keys, key);
        assert(order == prev.insert(p, last));
        assert forall|k: int| 0 <= k < prev.len() implies keys[#[trigger] prev[k]]
            == init[prev[k]] by {}
        // No entry from the insertion point on has a key that is at most `key`.
        assert forall|k: int| p <= k < prev.len() implies !lex_le(keys[#[trigger] prev[k]], key) by {
            if k > p && lex_le(keys[prev[k]], key) {
                assert(precedes(init, prev[p], prev[k]));
                lemma_lex_le_total(keys[prev[p]], keys[prev[k]]);
                lemma_lex_le_transitive(keys[prev[p]], keys[prev[k]], key);
            }
        }
        assert forall|a: int, b: int| 0 <= a < b < order.len() implies precedes(
            keys,
            #[trigger] order[a],
            #[trigger] order[b],
        ) by {
            if a == p {
                assert(order[b] == prev[b - 1]);
            } else if b == p {
                assert(order[a] == prev[a]);
            } else {
                let a0 = if a < p { a } else { a - 1 };
                let b0 = if b < p { b } else { b - 1 };
                assert(order[a] == prev[a0] && order[b] == prev[b0]);
                assert(precedes(init, prev[a0], prev[b0]));
            }
        }
        assert forall|k: int| 0 <= k < order.len() implies 0 <= #[trigger] order[k]
            < keys.len() by {
            if k < p {
                assert(order[k] == prev[k]);
            } else if k > p {
                assert(order[k] == prev[k - 1]);
            }
        }
        assert forall|i: int| 0 <= i < keys.len() implies order.contains(i) by {
            if i == last {
                assert(order[p] == i);
            } else {
                assert(prev.contains(i));
                let k = choose|k: int| 0 <= k < prev.len() && prev[k] == i;
                if k < p {
                    assert(order[k] == i);
                } else {
                    assert(order[k + 1] == i);
                }
            }
        }
    }
}

/// The listing order has a place for each key.
pub proof fn lemma_stable_order_len(keys: Seq<Seq<u8>>)
    ensures
        stable_order(keys).len() == keys.len(),
{
    lemma_stable_order_is_listing_order(keys);
}

/// In a listing order the keys ascend.
pub proof fn lemma_listing_order_ascends(order: Seq<int>, keys: Seq<Seq<u8>>)
    requires
        is_listing_order(order, keys),
    ensures
        forall|a: int, b: int|
            0 <= a <= b < order.len() ==> lex_le(
                keys[#[trigger] order[a]],
                keys[#[trigger] order[b]],
            ),
{
    assert forall|a: int, b: int| 0 <= a <= b < order.len() implies lex_le(
        keys[#[trigger] order[a]],
        keys[#[trigger] order[b]],
    ) by {
        if a == b {
            lemma_lex_le_reflexive(keys[order[a]]);
        } else {
            assert(precedes(keys, order[a], order[b]));
            lemma_lex_le_total(keys[order[a]], keys[order[b]]);
        }
    }
}

/// The keys have one listing order only.
pub proof fn lemma_listing_order_unique(order: Seq<int>, keys: Seq<Seq<u8>>)
    requires
        is_listing_order(order, keys),
    ensures
        order == stable_order(keys),
    decreases keys.len(),
{
    if keys.len() == 0 {
        assert(order =~= stable_order(keys));
    } else {
        let init = keys.drop_last();
        let key = keys.last();
        let last = keys.len() - 1;
        assert(order.contains(last));
        let p = choose|p: int| 0 <= p < order.len() && order[p] == last;
        let rest = order.remove(p);
        // No index stands at two places.
        assert forall|a: int, b: int| 0 <= a < b < order.len() implies order[a] != order[b] by {
            assert(precedes(keys, order[a], order[b]));
            lemma_lex_le_reflexive(keys[order[a]]);
        }
        assert forall|k: int| 0 <= k < rest.len() implies 0 <= #[trigger] rest[k] < init.len() by {
            if k < p {
                assert(rest[k] == order[k]);
            } else {
                assert(rest[k] == order[k + 1]);
            }
        }
        assert forall|a: int, b: int| 0 <= a < b < rest.len() implies precedes(
            init,
            #[trigger] rest[a],
            #[trigger] rest[b],
        ) by {
            let a0 = if a < p { a } else { a + 1 };
            let b0 = if b < p { b } else { b + 1 };
            assert(rest[a] == order[a0] && rest[b] == order[b0]);
            assert(precedes(keys, order[a0], order[b0]));
        }
        assert forall|i: int| 0 <= i < init.len() implies rest.contains(i) by {
            assert(order.contains(i));
            let k = choose|k: int| 0 <= k < order.len() && order[k] == i;
            if k < p {
                assert(rest[k] == i);
            } else {
                assert(rest[k - 1] == i);
            }
        }
        lemma_listing_order_unique(rest, init);
        assert forall|k: int| 0 <= k < p implies lex_le(keys[#[trigger] rest[k]], key) by {
            assert(rest[k] == order[k]);
            assert(precedes(keys, order[k], order[p]));
            lemma_lex_le_total(keys[order[k]], key);
        }
        if p < rest.len() {
            assert(rest[p] == order[p + 1]);
            assert(precedes(keys, order[p], order[p + 1]));
        }
        lemma_insertion_point_is(rest, keys, key, p);
        assert(order =~= rest.insert(p, last));
    }
}

/// `from` tells for each place of a rearranged sequence the place that its
/// item had before: every place is named once.
pub open spec fn is_rearrangement(from: Seq<int>, len: int) -> bool {
    &&& from.len() == len
    &&& forall|i: int| 0 <= i < len ==> 0 <= #[trigger] from[i] < len
    &&& forall|i: int, j: int| 0 <= i < j < len ==> #[trigger] from[i] != #[trigger] from[j]
    &&& forall|j: int| 0 <= j < len ==> from.contains(j)
}

/// No two entries have the same key.
pub open spec fn has_distinct_keys(keys: Seq<Seq<u8>>) -> bool {
    forall|i: int, j: int| 0 <= i < j < keys.len() ==> #[trigger] keys[i] != #[trigger] keys[j]
}

/// Where no two keys are the same, the listing does not depend on the order
/// in which the items come: items that are rearranged are listed as before.
pub proof fn lemma_listing_of_rearranged<T>(
    items: Seq<T>,
    keys: Seq<Seq<u8>>,
    moved: Seq<T>,
    moved_keys: Seq<Seq<u8>>,
    from: Seq<int>,
)
    requires
        items.len() == keys.len(),
        moved.len() == keys.len(),
        moved_keys.len() == keys.len(),
        is_rearrangement(from, keys.len() as int),
        forall|i: int| 0 <= i < keys.len() ==> #[trigger] moved[i] == items[from[i]],
        forall|i: int| 0 <= i < keys.len() ==> #[trigger] moved_keys[i] == keys[from[i]],
        has_distinct_keys(keys),
    ensures
        arrange(moved, stable_order(moved_keys)) == arrange(items, stable_order(keys)),
{
    let n = keys.len() as int;
    let order = stable_order(moved_keys);
    let back = Seq::new(keys.len(), |k: int| from[order[k]]);
    lemma_stable_order_is_listing_order(moved_keys);
    assert forall|a: int, b: int| 0 <= a < b < n implies precedes(
        keys,
        #[trigger] back[a],
        #[trigger] back[b],
    ) by {
        let u = order[a];
        let v = order[b];
        assert(precedes(moved_keys, u, v));
        assert(moved_keys[u] == keys[from[u]] && moved_keys[v] == keys[from[v]]);
        if lex_le(moved_keys[v], moved_keys[u]) {
            lemma_lex_le_antisymmetric(moved_keys[u], moved_keys[v]);
            assert(u < v);
            assert(from[u] != from[v]);
            if from[u] < from[v] {
                assert(keys[from[u]] != keys[from[v]]);
            } else {
                assert(keys[from[v]] != keys[from[u]]);
            }
        }
    }
    assert forall|j: int| 0 <= j < n implies back.contains(j) by {
        assert(from.contains(j));
        let i = choose|i: int| 0 <= i < from.len() && from[i] == j;
        assert(order.contains(i));
        let k = choose|k: int| 0 <= k < order.len() && order[k] == i;
        assert(back[k] == j);
    }
    lemma_listing_order_unique(back, keys);
    assert(arrange(moved, order) =~= arrange(items, back));
}

/// The order with every index from `from` on moved up by one, to make room
/// for a new entry at `from`.
pub open spec fn shifted(order: Seq<int>, from: int) -> Seq<int> {
    Seq::new(order.len(), |k: int| if order[k] >= from { order[k] + 1 } else { order[k] })
}

/// Two orders whose entries have the same keys, place by place, have the same
/// insertion point.
pub proof fn lemma_insertion_point_by_keys(
    order1: Seq<int>,
    keys1: Seq<Seq<u8>>,
    order2: Seq<int>,
    keys2: Seq<Seq<u8>>,
    key: Seq<u8>,
)
    requires
        order1.len() == order2.len(),
        forall|j: int| 0 <= j < order1.len() ==> keys1[#[trigger] order1[j]] == keys2[order2[j]],
    ensures
        insertion_point(order1, keys1, key) == insertion_point(order2, keys2, key),
    decreases order1.len(),
{
    if order1.len() > 0 {
        let rest1 = order1.drop_first();
        let rest2 = order2.drop_first();
        assert(keys1[order1[0]] == keys2[order2[0]]);
        assert forall|j: int| 0 <= j < rest1.len() implies keys1[#[trigger] rest1[j]]
            == keys2[rest2[j]] by {
            assert(rest1[j] == order1[j + 1]);
            assert(rest2[j] == order2[j + 1]);
        }
        lemma_insertion_point_by_keys(rest1, keys1, rest2, keys2, key);
    }
}

/// Where the insertion point moves when one more entry, `at`, is put into
/// the order at `place`: one up where the new entry comes to stand before it,
/// nowhere otherwise.
pub proof fn lemma_insertion_point_after_insert(
    order: Seq<int>,
    keys: Seq<Seq<u8>>,
    key: Seq<u8>,
    place: int,
    at: int,
)
    requires
        0 <= place <= order.len(),
        place < order.len() ==> lex_le(keys[at], keys[order[place]]),
    ensures
        insertion_point(order.insert(place, at), keys, key) == if place < insertion_point(
            order,
            keys,
            key,
        ) || (place == insertion_point(order, keys, key) && lex_le(keys[at], key)) {
            insertion_point(order, keys, key) + 1
        } else {
            insertion_point(order, keys, key)
        },
{
    let ip = insertion_point(order, keys, key);
    let grown = order.insert(place, at);
    lemma_insertion_point(order, keys, key);
    if place < ip || (place == ip && lex_le(keys[at], key)) {
        if place < ip {
            assert(lex_le(keys[order[place]], key));
            lemma_lex_le_transitive(keys[at], keys[order[place]], key);
        }
        assert forall|j: int| 0 <= j < ip + 1 implies lex_le(keys[#[trigger] grown[j]], key) by {
            if j < place {
                assert(grown[j] == order[j]);
            } else if j > place {
                assert(grown[j] == order[j - 1]);
            }
        }
        if ip + 1 < grown.len() {
            assert(grown[ip + 1] == order[ip]);
        }
        lemma_insertion_point_is(grown, keys, key, ip + 1);
    } else {
        assert forall|j: int| 0 <= j < ip implies lex_le(keys[#[trigger] grown[j]], key) by {
            assert(grown[j] == order[j]);
        }
        if ip == place {
            assert(grown[ip] == at);
        } else {
            assert(grown[ip] == order[ip]);
        }
        lemma_insertion_point_is(grown, keys, key, ip);
    }
}

/// Two insertions at places in ascending order can be made in either order.
pub proof fn lemma_insert_twice(order: Seq<int>, i: int, a: int, j: int, b: int)
    requires
        0 <= i <= j <= order.len(),
    ensures
        order.insert(i, a).insert(j + 1, b) == order.insert(j, b).insert(i, a),
{
    assert(order.insert(i, a).insert(j + 1, b) =~= order.insert(j, b).insert(i, a));
}

/// A new entry changes the listing order in one way only: it takes a place
/// of its own, and all other entries keep their places among each other.
pub proof fn lemma_stable_order_insert(keys: Seq<Seq<u8>>, at: int, key: Seq<u8>) -> (place: int)
    requires
        0 <= at <= keys.len(),
    ensures
        0 <= place <= keys.len(),
        stable_order(keys.insert(at, key)) == shifted(stable_order(keys), at).insert(place, at),
    decreases keys.len() - at,
{
    let grown = keys.insert(at, key);
    let n = keys.len() as int;
    if at == n {
        assert(grown.drop_last() =~= keys);
        let place = insertion_point(stable_order(keys), grown, key);
        lemma_insertion_point(stable_order(keys), grown, key);
        lemma_stable_order_len(keys);
        assert(shifted(stable_order(keys), at) =~= stable_order(keys)) by {
            lemma_stable_order_is_listing_order(keys);
        }
        place
    } else {
        let init = keys.drop_last();
        let last_key = keys.last();
        let prev = stable_order(init);
        let moved = shifted(prev, at);
        let k0 = lemma_stable_order_insert(init, at, key);
        lemma_stable_order_len(init);
        let grown_prev = moved.insert(k0, at);
        let ip = insertion_point(prev, keys, last_key);
        assert(grown.drop_last() =~= init.insert(at, key));
        assert(grown.last() == last_key);
        assert(grown[at] == key);
        assert(stable_order(grown) == grown_prev.insert(
            insertion_point(grown_prev, grown, last_key),
            n,
        ));
        assert(0 <= ip <= prev.len()) by {
            lemma_insertion_point(prev, keys, last_key);
        }
        assert(shifted(stable_order(keys), at) =~= moved.insert(ip, n));
        assert(insertion_point(moved, grown, last_key) == ip) by {
            assert forall|j: int| 0 <= j < moved.len() implies grown[#[trigger] moved[j]]
                == keys[prev[j]] by {
                lemma_stable_order_is_listing_order(init);
            }
            lemma_insertion_point_by_keys(moved, grown, prev, keys, last_key);
        }
        assert(k0 < moved.len() ==> lex_le(grown[at], grown[moved[k0]])) by {
            if k0 < moved.len() {
                let sorted = init.insert(at, key);
                lemma_stable_order_is_listing_order(sorted);
                assert(grown_prev[k0] == at && grown_prev[k0 + 1] == moved[k0]);
                assert(precedes(sorted, grown_prev[k0], grown_prev[k0 + 1]));
                lemma_lex_le_total(sorted[at], sorted[moved[k0]]);
                assert(sorted[moved[k0]] == grown[moved[k0]]);
            }
        }
        lemma_insertion_point_after_insert(moved, grown, last_key, k0, at);
        if k0 < ip || (k0 == ip && lex_le(key, last_key)) {
            lemma_insert_twice(moved, k0, at, ip, n);
            k0
        } else {
            lemma_insert_twice(moved, ip, n, k0, at);
            k0 + 1
        }
    }
}

/// Whether `a` is at most `b`, byte by byte.
pub fn key_le(a: &Vec<u8>, b: &Vec<u8>) -> (r: bool)
    ensures
        r == lex_le(a@, b@),
{
    let mut i: usize = 0;
    assert(a@.skip(0) =~= a@ && b@.skip(0) =~= b@);
    while i < a.len() && i < b.len()
        invariant
            i <= a@.len(),
            i <= b@.len(),
            lex_le(a@, b@) == lex_le(a@.skip(i as int), b@.skip(i as int)),
        decreases a@.len() - i,
    {
        let ghost ra = a@.skip(i as int);
        let ghost rb = b@.skip(i as int);
        assert(ra[0] == a@[i as int] && rb[0] == b@[i as int]);
        assert(ra.drop_first() =~= a@.skip(i + 1) && rb.drop_first() =~= b@.skip(i + 1));
        if a[i] != b[i] {
            return a[i] < b[i];
        }
        i += 1;
    }
    i == a.len()
}

/// The order in which the entries with the given keys are listed: for each
/// place of the listing, the index of the entry that stands there.
pub fn listing_order(keys: &Vec<Vec<u8>>) -> (order: Vec<usize>)
    ensures
        is_listing_order(indices(order@), key_views(keys@)),
        indices(order@) == stable_order(key_views(keys@)),
{
    let ghost all = key_views(keys@);
    let n: usize = keys.len();
    let mut order: Vec<usize> = Vec::new();
    let mut i: usize = 0;
    assert(indices(order@) =~= stable_order(all.take(0)));
    while i < n
        invariant
            i <= n,
            n == keys@.len(),
            all == key_views(keys@),
            order@.len() == i,
            indices(order@) == stable_order(all.take(i as int)),
        decreases n - i,
    {
        let ghost upto = all.take(i + 1);
        let ghost prev = indices(order@);
        proof {
            assert(upto.drop_last() =~= all.take(i as int));
            lemma_stable_order_is_listing_order(all.take(i as int));
        }
        let mut pos: usize = 0;
        let mut scanning = true;
        while scanning && pos < i
            invariant
                pos <= i,
                i < n,
                n == keys@.len(),
                all == key_views(keys@),
                upto == all.take(i + 1),
                order@.len() == i,
                prev == indices(order@),
                is_listing_order(prev, all.take(i as int)),
                forall|k: int| 0 <= k < pos ==> lex_le(upto[#[trigger] prev[k]], upto.last()),
                !scanning ==> pos < i && !lex_le(upto[prev[pos as int]], upto.last()),
            decreases (i - pos) + (if scanning { 1int } else { 0int }),
        {
            let at: usize = order[pos];
            assert(prev[pos as int] == at);
            assert(upto[at as int] == keys@[at as int]@);
            assert(upto.last() == keys@[i as int]@);
            if key_le(&keys[at], &keys[i]) {
                pos += 1;
            } else {
                scanning = false;
            }
        }
        proof {
            lemma_insertion_point_is(prev, upto, upto.last(), pos as int);
        }
        order.insert(pos, i);
        assert(indices(order@) =~= prev.insert(pos as int, i as int));
        i += 1;
    }
    proof {
        assert(all.take(n as int) =~= all);
        lemma_stable_order_is_listing_order(all);
    }
    order
}

} // verus!
