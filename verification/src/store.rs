//! The host's key/value store, and what the book takes to be true of it.

use vstd::prelude::*;
use crate::model::views;

verus! {

/// The key/value store that the host hands to the book: a `cosmwasm_std::Storage`,
/// reached through the namespaces of `cosmwasm_storage`. Keys live in namespaces; a
/// key of one namespace never meets a key of another.
///
/// What is stated of it below is believed, not proved. It holds of a store that
/// keeps what it is given and lists its keys in the order of byte strings, as
/// `cosmwasm_std::MemoryStorage` does and as the `Storage` trait asks of every store.
#[verifier::external_body]
pub struct Store<'a> {
    inner: &'a mut dyn cosmwasm_std::Storage,
}

/// What the store holds: the value under each pair of namespace and key. The key is
/// written without the namespace's length-prefixed name, which the store puts in
/// front of it.
pub uninterp spec fn entries(s: Store) -> Map<(Seq<u8>, Seq<u8>), Seq<u8>>;

/// All the values that a store can hold.
pub type Entries = Map<(Seq<u8>, Seq<u8>), Seq<u8>>;

/// `a` comes before `b` in the order of byte strings: at the first place where they
/// differ `a` has the smaller byte, or `a` ends there and `b` goes on.
pub open spec fn bytes_lt(a: Seq<u8>, b: Seq<u8>) -> bool
    decreases a.len(),
{
    if b.len() == 0 {
        false
    } else if a.len() == 0 {
        true
    } else if a[0] != b[0] {
        a[0] < b[0]
    } else {
        bytes_lt(a.drop_first(), b.drop_first())
    }
}

/// `r` lists the namespace `namespace` of `m`: every key of the namespace once, with
/// its value, by ascending key.
pub open spec fn is_listing(r: Seq<(Seq<u8>, Seq<u8>)>, m: Entries, namespace: Seq<u8>) -> bool {
    &&& forall|i: int|
        0 <= i < r.len() ==> m.contains_key((namespace, (#[trigger] r[i]).0)) && m[(
            namespace,
            r[i].0,
        )] == r[i].1
    &&& forall|k: Seq<u8>| #[trigger]
        m.contains_key((namespace, k)) ==> exists|i: int| 0 <= i < r.len() && (#[trigger] r[i]).0 == k
    &&& forall|i: int, j: int| 0 <= i < j < r.len() ==> bytes_lt((#[trigger] r[i]).0, (#[trigger] r[j]).0)
}

impl<'a> Store<'a> {
    /// Takes a store from the host for as long as the book works on it. Nothing is
    /// claimed of what it holds.
    #[verifier::external_body]
    pub fn new<S: cosmwasm_std::Storage>(storage: &'a mut S) -> (s: Store<'a>) {
        Store { inner: storage }
    }

    /// `cosmwasm_storage::ReadonlyPrefixedStorage::get`, on a view of the store made
    /// with `ReadonlyPrefixedStorage::new`: the value under `key` in `namespace`, if
    /// there is one. It reads the store under the namespace's length-prefixed name
    /// followed by the key, which is a different place for each pair of the two.
    #[verifier::external_body]
    pub(crate) fn get(&self, namespace: &[u8], key: &[u8]) -> (r: Option<Vec<u8>>)
        requires
            namespace@.len() < 0xFFFF,
        ensures
            r is Some == entries(*self).contains_key((namespace@, key@)),
            r is Some ==> r->Some_0@ == entries(*self)[(namespace@, key@)],
    {
        cosmwasm_storage::ReadonlyPrefixedStorage::new(&*self.inner, namespace).get(key)
    }

    /// `cosmwasm_storage::PrefixedStorage::set`, on a view made with
    /// `PrefixedStorage::new`: `value` now stands under `key` in `namespace`, and
    /// nothing else has changed. `cosmwasm_std::MemoryStorage` panics on an empty
    /// value, which is left out.
    #[verifier::external_body]
    pub(crate) fn set(&mut self, namespace: &[u8], key: &[u8], value: &[u8])
        requires
            namespace@.len() < 0xFFFF,
            value@.len() > 0,
        ensures
            entries(*final(self)) == entries(*old(self)).insert((namespace@, key@), value@),
    {
        cosmwasm_storage::PrefixedStorage::new(&mut *self.inner, namespace).set(key, value)
    }

    /// `cosmwasm_storage::PrefixedStorage::remove`, on a view made with
    /// `PrefixedStorage::new`: nothing stands under `key` in `namespace` any more,
    /// and nothing else has changed.
    #[verifier::external_body]
    pub(crate) fn remove(&mut self, namespace: &[u8], key: &[u8])
        requires
            namespace@.len() < 0xFFFF,
        ensures
            entries(*final(self)) == entries(*old(self)).remove((namespace@, key@)),
    {
        cosmwasm_storage::PrefixedStorage::new(&mut *self.inner, namespace).remove(key)
    }

    /// `cosmwasm_storage::ReadonlyPrefixedStorage::range` over the whole namespace in
    /// `cosmwasm_std::Order::Ascending`, collected: each key of the namespace, without
    /// the namespace's name, and its value, by ascending key. A namespace that ends
    /// in the byte 255 is left out: the range that the call reads for it reaches past
    /// the namespace, to keys that are shorter than the namespace's name, and the
    /// call panics on such a key.
    #[verifier::external_body]
    pub(crate) fn range(&self, namespace: &[u8]) -> (r: Vec<(Vec<u8>, Vec<u8>)>)
        requires
            namespace@.len() < 0xFFFF,
            namespace@.len() == 0 || namespace@[namespace@.len() - 1] != 0xFF,
        ensures
            is_listing(views(r@), entries(*self), namespace@),
    {
        cosmwasm_storage::ReadonlyPrefixedStorage::new(&*self.inner, namespace).range(
            None,
            None,
            cosmwasm_std::Order::Ascending,
        ).collect()
    }
}

/// The one listing of the namespace `namespace` of `m`.
pub open spec fn listing(m: Entries, namespace: Seq<u8>) -> Seq<(Seq<u8>, Seq<u8>)> {
    choose|r: Seq<(Seq<u8>, Seq<u8>)>| is_listing(r, m, namespace)
}

/// No byte string comes before itself.
pub proof fn lemma_bytes_lt_irreflexive(a: Seq<u8>)
    ensures
        !bytes_lt(a, a),
    decreases a.len(),
{
    if a.len() > 0 {
        lemma_bytes_lt_irreflexive(a.drop_first());
    }
}

/// What comes before a byte string comes before all that the string comes before.
pub proof fn lemma_bytes_lt_transitive(a: Seq<u8>, b: Seq<u8>, c: Seq<u8>)
    requires
        bytes_lt(a, b),
        bytes_lt(b, c),
    ensures
        bytes_lt(a, c),
    decreases a.len(),
{
    if a.len() > 0 && a[0] == b[0] && b[0] == c[0] {
        lemma_bytes_lt_transitive(a.drop_first(), b.drop_first(), c.drop_first());
    }
}

/// Two listings of one namespace agree on their first `n` entries.
proof fn lemma_listings_agree(
    r1: Seq<(Seq<u8>, Seq<u8>)>,
    r2: Seq<(Seq<u8>, Seq<u8>)>,
    m: Entries,
    namespace: Seq<u8>,
    n: int,
)
    requires
        is_listing(r1, m, namespace),
        is_listing(r2, m, namespace),
        0 <= n <= r1.len(),
    ensures
        n <= r2.len(),
        forall|i: int| 0 <= i < n ==> r1[i] == r2[i],
    decreases n,
{
    if n > 0 {
        lemma_listings_agree(r1, r2, m, namespace, n - 1);
        let i = n - 1;
        let k1 = r1[i].0;
        assert(m.contains_key((namespace, k1)));
        let j = choose|j: int| 0 <= j < r2.len() && (#[trigger] r2[j]).0 == k1;
        if j < i {
            assert(r1[j] == r2[j]);
            assert(bytes_lt(r1[j].0, r1[i].0));
            lemma_bytes_lt_irreflexive(k1);
        }
        assert(i < r2.len());
        let k2 = r2[i].0;
        assert(m.contains_key((namespace, k2)));
        let h = choose|h: int| 0 <= h < r1.len() && (#[trigger] r1[h]).0 == k2;
        if h < i {
            assert(r1[h] == r2[h]);
            assert(bytes_lt(r2[h].0, r2[i].0));
            lemma_bytes_lt_irreflexive(k2);
        }
        if j > i {
            assert(bytes_lt(r2[i].0, r2[j].0));
            if h > i {
                assert(bytes_lt(r1[i].0, r1[h].0));
                lemma_bytes_lt_transitive(k1, k2, k1);
            }
            lemma_bytes_lt_irreflexive(k1);
        }
        assert(j == i);
        assert(r1[i].1 == m[(namespace, k1)]);
        assert(r2[i].1 == m[(namespace, k1)]);
    }
}

/// A namespace has one listing only.
pub proof fn lemma_listing_unique(r: Seq<(Seq<u8>, Seq<u8>)>, m: Entries, namespace: Seq<u8>)
    requires
        is_listing(r, m, namespace),
    ensures
        r == listing(m, namespace),
{
    let l = listing(m, namespace);
    lemma_listings_agree(r, l, m, namespace, r.len() as int);
    lemma_listings_agree(l, r, m, namespace, l.len() as int);
    assert(r =~= l);
}

/// The namespace `namespace` of `m` can be listed: it holds finitely many keys.
pub open spec fn listable(m: Entries, namespace: Seq<u8>) -> bool {
    exists|r: Seq<(Seq<u8>, Seq<u8>)>| is_listing(r, m, namespace)
}

/// The listing of a namespace that can be listed is a listing of it.
pub proof fn lemma_listing_lists(m: Entries, namespace: Seq<u8>)
    requires
        listable(m, namespace),
    ensures
        is_listing(listing(m, namespace), m, namespace),
{
}

/// Of two different byte strings one comes before the other.
pub proof fn lemma_bytes_lt_total(a: Seq<u8>, b: Seq<u8>)
    ensures
        a == b || bytes_lt(a, b) || bytes_lt(b, a),
    decreases a.len(),
{
    if a.len() == 0 || b.len() == 0 {
        if a.len() == 0 && b.len() == 0 {
            assert(a =~= b);
        }
    } else if a[0] == b[0] {
        lemma_bytes_lt_total(a.drop_first(), b.drop_first());
        if a.drop_first() == b.drop_first() {
            assert(a =~= seq![a[0]] + a.drop_first());
            assert(b =~= seq![b[0]] + b.drop_first());
        }
    }
}

/// How many keys of the listing `r`, counted on from `k` without a gap, come
/// before `key`.
pub open spec fn keys_before(r: Seq<(Seq<u8>, Seq<u8>)>, key: Seq<u8>, k: int) -> int
    decreases r.len() - k,
{
    if 0 <= k < r.len() && bytes_lt(r[k].0, key) {
        keys_before(r, key, k + 1)
    } else {
        k
    }
}

/// Where `keys_before` stops: within the listing, behind keys that all come before
/// `key`, and at a key that does not.
proof fn lemma_keys_before(r: Seq<(Seq<u8>, Seq<u8>)>, key: Seq<u8>, k: int)
    requires
        0 <= k <= r.len(),
    ensures
        k <= keys_before(r, key, k) <= r.len(),
        forall|i: int| k <= i < keys_before(r, key, k) ==> bytes_lt((#[trigger] r[i]).0, key),
        keys_before(r, key, k) < r.len() ==> !bytes_lt(r[keys_before(r, key, k)].0, key),
    decreases r.len() - k,
{
    if k < r.len() && bytes_lt(r[k].0, key) {
        lemma_keys_before(r, key, k + 1);
    }
}

/// A namespace that can be listed can still be listed after a value has been stored.
pub proof fn lemma_listable_insert(
    m: Entries,
    namespace: Seq<u8>,
    place: (Seq<u8>, Seq<u8>),
    value: Seq<u8>,
)
    requires
        listable(m, namespace),
    ensures
        listable(m.insert(place, value), namespace),
{
    let r = listing(m, namespace);
    let after = m.insert(place, value);
    let key = place.1;
    if place.0 != namespace {
        assert(is_listing(r, after, namespace));
    } else if m.contains_key(place) {
        let i = choose|i: int| 0 <= i < r.len() && (#[trigger] r[i]).0 == key;
        let q = r.update(i, (key, value));
        assert forall|k: Seq<u8>| #[trigger] after.contains_key((namespace, k)) implies exists|
            h: int,
        |
            0 <= h < q.len() && (#[trigger] q[h]).0 == k by {
            if k == key {
                assert(q[i].0 == k);
            } else {
                assert(m.contains_key((namespace, k)));
                let h = choose|h: int| 0 <= h < r.len() && (#[trigger] r[h]).0 == k;
                assert(q[h].0 == k);
            }
        }
        assert forall|a: int, b: int| 0 <= a < b < q.len() implies bytes_lt(
            (#[trigger] q[a]).0,
            (#[trigger] q[b]).0,
        ) by {
            assert(bytes_lt(r[a].0, r[b].0));
        }
        assert forall|h: int| 0 <= h < q.len() implies after.contains_key(
            (namespace, (#[trigger] q[h]).0),
        ) && after[(namespace, q[h].0)] == q[h].1 by {
            if h != i {
                assert(q[h] == r[h]);
                if h < i {
                    assert(bytes_lt(r[h].0, r[i].0));
                } else {
                    assert(bytes_lt(r[i].0, r[h].0));
                }
                lemma_bytes_lt_irreflexive(key);
            }
        }
        assert(is_listing(q, after, namespace));
    } else {
        lemma_keys_before(r, key, 0);
        let p = keys_before(r, key, 0);
        let q = r.insert(p, (key, value));
        assert forall|h: int| p <= h < r.len() implies bytes_lt(key, (#[trigger] r[h]).0) by {
            assert(m.contains_key((namespace, r[h].0)));
            lemma_bytes_lt_total(key, r[p].0);
            assert(m.contains_key((namespace, r[p].0)));
            if h > p {
                assert(bytes_lt(r[p].0, r[h].0));
                lemma_bytes_lt_transitive(key, r[p].0, r[h].0);
            }
        }
        assert forall|k: Seq<u8>| #[trigger] after.contains_key((namespace, k)) implies exists|
            h: int,
        |
            0 <= h < q.len() && (#[trigger] q[h]).0 == k by {
            if k == key {
                assert(q[p].0 == k);
            } else {
                assert(m.contains_key((namespace, k)));
                let h = choose|h: int| 0 <= h < r.len() && (#[trigger] r[h]).0 == k;
                if h < p {
                    assert(q[h].0 == k);
                } else {
                    assert(q[h + 1].0 == k);
                }
            }
        }
        assert forall|a: int, b: int| 0 <= a < b < q.len() implies bytes_lt(
            (#[trigger] q[a]).0,
            (#[trigger] q[b]).0,
        ) by {
            if b < p {
                assert(bytes_lt(r[a].0, r[b].0));
            } else if b == p {
                assert(bytes_lt(r[a].0, key));
            } else if a < p {
                assert(bytes_lt(r[a].0, r[b - 1].0));
            } else if a == p {
                assert(bytes_lt(key, r[b - 1].0));
            } else {
                assert(bytes_lt(r[a - 1].0, r[b - 1].0));
            }
        }
        assert forall|h: int| 0 <= h < q.len() implies after.contains_key(
            (namespace, (#[trigger] q[h]).0),
        ) && after[(namespace, q[h].0)] == q[h].1 by {
            if h < p {
                assert(q[h] == r[h]);
            } else if h > p {
                assert(q[h] == r[h - 1]);
            }
        }
        assert(is_listing(q, after, namespace));
    }
}

/// A namespace that can be listed can still be listed after a value has been taken
/// out.
pub proof fn lemma_listable_remove(m: Entries, namespace: Seq<u8>, place: (Seq<u8>, Seq<u8>))
    requires
        listable(m, namespace),
    ensures
        listable(m.remove(place), namespace),
{
    let r = listing(m, namespace);
    let after = m.remove(place);
    let key = place.1;
    if place.0 != namespace || !m.contains_key(place) {
        assert(after.dom() =~= m.dom() || place.0 != namespace);
        assert forall|h: int| 0 <= h < r.len() implies after.contains_key(
            (namespace, (#[trigger] r[h]).0),
        ) && after[(namespace, r[h].0)] == r[h].1 by {
            assert(m.contains_key((namespace, r[h].0)));
        }
        assert(is_listing(r, after, namespace));
    } else {
        let i = choose|i: int| 0 <= i < r.len() && (#[trigger] r[i]).0 == key;
        let q = r.remove(i);
        assert forall|h: int| 0 <= h < q.len() implies after.contains_key(
            (namespace, (#[trigger] q[h]).0),
        ) && after[(namespace, q[h].0)] == q[h].1 by {
            if h < i {
                assert(q[h] == r[h]);
                assert(bytes_lt(r[h].0, r[i].0));
            } else {
                assert(q[h] == r[h + 1]);
                assert(bytes_lt(r[i].0, r[h + 1].0));
            }
            lemma_bytes_lt_irreflexive(key);
        }
        assert forall|k: Seq<u8>| #[trigger] after.contains_key((namespace, k)) implies exists|
            h: int,
        |
            0 <= h < q.len() && (#[trigger] q[h]).0 == k by {
            assert(m.contains_key((namespace, k)));
            let h = choose|h: int| 0 <= h < r.len() && (#[trigger] r[h]).0 == k;
            if h < i {
                assert(q[h].0 == k);
            } else {
                assert(q[h - 1].0 == k);
            }
        }
        assert forall|a: int, b: int| 0 <= a < b < q.len() implies bytes_lt(
            (#[trigger] q[a]).0,
            (#[trigger] q[b]).0,
        ) by {
            let a0 = if a < i { a } else { a + 1 };
            let b0 = if b < i { b } else { b + 1 };
            assert(bytes_lt(r[a0].0, r[b0].0));
        }
        assert(is_listing(q, after, namespace));
    }
}

} // verus!
