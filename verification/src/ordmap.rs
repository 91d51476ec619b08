//! Ordered maps and sets: the entries are kept in ascending order of their
//! keys, and no key occurs twice.
use vstd::prelude::*;

verus! {

/// A strict total order.
pub trait Ordered: Sized {
    spec fn lt(self, other: Self) -> bool;

    proof fn lt_irreflexive(a: Self)
        ensures
            !a.lt(a),
    ;

    proof fn lt_transitive(a: Self, b: Self, c: Self)
        requires
            a.lt(b),
            b.lt(c),
        ensures
            a.lt(c),
    ;

    proof fn lt_total(a: Self, b: Self)
        ensures
            a.lt(b) || a == b || b.lt(a),
    ;
}

/// A type whose values are told apart, and put in order, by what they stand for.
pub trait OrdKey: Sized {
    type Key: Ordered;

    spec fn key(&self) -> Self::Key;

    fn twin(&self) -> (r: Self)
        ensures
            r.key() == self.key(),
    ;

    fn before(&self, other: &Self) -> (r: bool)
        ensures
            r == self.key().lt(other.key()),
    ;

    fn same(&self, other: &Self) -> (r: bool)
        ensures
            r == (self.key() == other.key()),
    ;
}

/// A value with a mathematical model that a duplicate shares.
pub trait Model: Sized {
    type M;

    spec fn model(&self) -> Self::M;

    fn duplicate(&self) -> (r: Self)
        ensures
            r.model() == self.model(),
    ;
}

/// The keys of `s` are strictly ascending.
pub open spec fn ascending<K: Ordered, V>(s: Seq<(K, V)>) -> bool {
    forall|i: int, j: int| 0 <= i < j < s.len() ==> (#[trigger] s[i]).0.lt((#[trigger] s[j]).0)
}

/// Whether `k` is the key of an entry of `s`.
pub open spec fn has_entry<K, V>(s: Seq<(K, V)>, k: K) -> bool {
    exists|i: int| 0 <= i < s.len() && (#[trigger] s[i]).0 == k
}

/// Where `k` stands in `s`.
pub open spec fn entry_index<K, V>(s: Seq<(K, V)>, k: K) -> int {
    choose|i: int| 0 <= i < s.len() && (#[trigger] s[i]).0 == k
}

/// The map whose entries are listed in `s`.
pub open spec fn map_of<K, V>(s: Seq<(K, V)>) -> Map<K, V> {
    Map::new(|k: K| has_entry(s, k), |k: K| s[entry_index(s, k)].1)
}

/// The entries of a finite map in ascending order of their keys.
pub open spec fn listed<K: Ordered, V>(m: Map<K, V>) -> Seq<(K, V)> {
    choose|s: Seq<(K, V)>| #[trigger] ascending(s) && map_of(s) == m
}

pub proof fn lemma_ascending_index<K: Ordered, V>(s: Seq<(K, V)>, i: int)
    requires
        ascending(s),
        0 <= i < s.len(),
    ensures
        map_of(s).contains_key(s[i].0),
        map_of(s)[s[i].0] == s[i].1,
        entry_index(s, s[i].0) == i,
{
    let k = s[i].0;
    assert(has_entry(s, k));
    let j = entry_index(s, k);
    assert(0 <= j < s.len() && s[j].0 == k);
    K::lt_irreflexive(k);
    if j < i {
        assert(s[j].0.lt(s[i].0));
    } else if i < j {
        assert(s[i].0.lt(s[j].0));
    }
}

pub proof fn lemma_map_of_size<K: Ordered, V>(s: Seq<(K, V)>)
    requires
        ascending(s),
    ensures
        map_of(s).dom().finite(),
        map_of(s).len() == s.len(),
        s.len() == 0 ==> map_of(s) == Map::<K, V>::empty(),
        s.len() > 0 ==> map_of(s) == map_of(s.drop_last()).insert(s.last().0, s.last().1),
        s.len() > 0 ==> !map_of(s.drop_last()).contains_key(s.last().0),
    decreases s.len(),
{
    if s.len() == 0 {
        assert(map_of(s) =~= Map::<K, V>::empty());
    } else {
        let t = s.drop_last();
        let k = s.last().0;
        assert(ascending(t));
        lemma_map_of_size(t);
        assert(!has_entry(t, k)) by {
            if has_entry(t, k) {
                let j = entry_index(t, k);
                assert(t[j] == s[j]);
                assert(s[j].0.lt(s[s.len() - 1].0));
                K::lt_irreflexive(k);
            }
        }
        assert forall|q: K| map_of(s).contains_key(q) == #[trigger] map_of(t).insert(
            k,
            s.last().1,
        ).contains_key(q) by {
            if has_entry(t, q) {
                let j = entry_index(t, q);
                assert(t[j] == s[j]);
            }
            if has_entry(s, q) {
                let j = entry_index(s, q);
                if j < s.len() - 1 {
                    assert(t[j] == s[j]);
                }
            }
            assert(s[s.len() - 1].0 == k);
        }
        assert forall|q: K| map_of(s).contains_key(q) implies #[trigger] map_of(s)[q] == map_of(t).insert(
            k,
            s.last().1,
        )[q] by {
            let j = entry_index(s, q);
            lemma_ascending_index(s, j);
            if j < s.len() - 1 {
                assert(t[j] == s[j]);
                lemma_ascending_index(t, j);
                assert(q != k);
            }
        }
        assert(map_of(s) =~= map_of(t).insert(k, s.last().1));
        assert(map_of(s).dom() =~= map_of(t).dom().insert(k));
    }
}

/// An ascending list of entries is determined by the map it lists.
pub proof fn lemma_listing_unique<K: Ordered, V>(s: Seq<(K, V)>, t: Seq<(K, V)>)
    requires
        ascending(s),
        ascending(t),
        map_of(s) == map_of(t),
    ensures
        s == t,
    decreases s.len(),
{
    lemma_map_of_size(s);
    lemma_map_of_size(t);
    if s.len() == 0 {
        assert(s =~= t);
    } else {
        let a = s.last();
        let b = t.last();
        lemma_ascending_index(s, s.len() - 1);
        lemma_ascending_index(t, t.len() - 1);
        assert(has_entry(t, a.0));
        assert(has_entry(s, b.0));
        let i = entry_index(t, a.0);
        let j = entry_index(s, b.0);
        assert(a.0 == b.0) by {
            if i < t.len() - 1 && j < s.len() - 1 {
                assert(t[i].0.lt(t[t.len() - 1].0));
                assert(s[j].0.lt(s[s.len() - 1].0));
                K::lt_transitive(a.0, b.0, a.0);
                K::lt_irreflexive(a.0);
            }
        }
        let s0 = s.drop_last();
        let t0 = t.drop_last();
        assert(ascending(s0));
        assert(ascending(t0));
        assert(map_of(s0) =~= map_of(s).remove(a.0));
        assert(map_of(t0) =~= map_of(t).remove(a.0));
        lemma_listing_unique(s0, t0);
        assert(s =~= s0.push(a));
        assert(t =~= t0.push(b));
    }
}

/// An ascending list is the listing of the map that it stands for.
pub proof fn lemma_listed<K: Ordered, V>(s: Seq<(K, V)>)
    requires
        ascending(s),
    ensures
        listed(map_of(s)) == s,
{
    let t = listed(map_of(s));
    assert(ascending(s) && map_of(s) == map_of(s));
    lemma_listing_unique(s, t);
}

proof fn lemma_insert_entry<K: Ordered, V>(s: Seq<(K, V)>, pos: int, k: K, v: V)
    requires
        ascending(s),
        0 <= pos <= s.len(),
        forall|i: int| 0 <= i < pos ==> (#[trigger] s[i]).0.lt(k),
        forall|i: int| pos <= i < s.len() ==> k.lt((#[trigger] s[i]).0),
    ensures
        ascending(s.insert(pos, (k, v))),
        map_of(s.insert(pos, (k, v))) == map_of(s).insert(k, v),
        !map_of(s).contains_key(k),
{
    let t = s.insert(pos, (k, v));
    K::lt_irreflexive(k);
    assert forall|i: int, j: int| 0 <= i < j < t.len() implies (#[trigger] t[i]).0.lt(
        (#[trigger] t[j]).0,
    ) by {
        let si = if i < pos {
            i
        } else {
            i - 1
        };
        let sj = if j < pos {
            j
        } else {
            j - 1
        };
        if i != pos {
            assert(t[i] == s[si]);
        }
        if j != pos {
            assert(t[j] == s[sj]);
        }
        if i != pos && j != pos {
            assert(s[si].0.lt(s[sj].0));
        }
    }
    assert(!has_entry(s, k));
    assert(t[pos] == (k, v));
    assert forall|q: K| map_of(t).contains_key(q) == #[trigger] map_of(s).insert(k, v).contains_key(
        q,
    ) by {
        if has_entry(s, q) {
            let i = entry_index(s, q);
            if i < pos {
                assert(t[i] == s[i]);
            } else {
                assert(t[i + 1] == s[i]);
            }
        }
        if has_entry(t, q) {
            let i = entry_index(t, q);
            if i < pos {
                assert(t[i] == s[i]);
            } else if i > pos {
                assert(t[i] == s[i - 1]);
            }
        }
    }
    assert forall|q: K| map_of(t).contains_key(q) implies #[trigger] map_of(t)[q] == map_of(
        s,
    ).insert(k, v)[q] by {
        let i = entry_index(t, q);
        lemma_ascending_index(t, i);
        if i < pos {
            assert(t[i] == s[i]);
            lemma_ascending_index(s, i);
        } else if i > pos {
            assert(t[i] == s[i - 1]);
            lemma_ascending_index(s, i - 1);
        }
    }
    assert(map_of(t) =~= map_of(s).insert(k, v));
}

proof fn lemma_update_entry<K: Ordered, V>(s: Seq<(K, V)>, pos: int, k: K, v: V)
    requires
        ascending(s),
        0 <= pos < s.len(),
        s[pos].0 == k,
    ensures
        ascending(s.update(pos, (k, v))),
        map_of(s.update(pos, (k, v))) == map_of(s).insert(k, v),
        map_of(s).contains_key(k),
        map_of(s)[k] == s[pos].1,
{
    let t = s.update(pos, (k, v));
    lemma_ascending_index(s, pos);
    assert(forall|i: int| 0 <= i < s.len() ==> (#[trigger] t[i]).0 == s[i].0);
    assert(ascending(t)) by {
        assert forall|i: int, j: int| 0 <= i < j < t.len() implies (#[trigger] t[i]).0.lt(
            (#[trigger] t[j]).0,
        ) by {
            assert(s[i].0.lt(s[j].0));
        }
    }
    assert forall|q: K| map_of(t).contains_key(q) == #[trigger] map_of(s).insert(k, v).contains_key(
        q,
    ) by {
        if has_entry(s, q) {
            let i = entry_index(s, q);
            assert(t[i].0 == q);
        }
        if has_entry(t, q) {
            let i = entry_index(t, q);
            assert(s[i].0 == q);
        }
    }
    assert forall|q: K| map_of(t).contains_key(q) implies #[trigger] map_of(t)[q] == map_of(
        s,
    ).insert(k, v)[q] by {
        let i = entry_index(t, q);
        lemma_ascending_index(t, i);
        lemma_ascending_index(s, i);
    }
    assert(map_of(t) =~= map_of(s).insert(k, v));
}

proof fn lemma_remove_entry<K: Ordered, V>(s: Seq<(K, V)>, pos: int, k: K)
    requires
        ascending(s),
        0 <= pos < s.len(),
        s[pos].0 == k,
    ensures
        ascending(s.remove(pos)),
        map_of(s.remove(pos)) == map_of(s).remove(k),
        map_of(s).contains_key(k),
        map_of(s)[k] == s[pos].1,
{
    let t = s.remove(pos);
    lemma_ascending_index(s, pos);
    assert forall|i: int, j: int| 0 <= i < j < t.len() implies (#[trigger] t[i]).0.lt(
        (#[trigger] t[j]).0,
    ) by {
        let si = if i < pos {
            i
        } else {
            i + 1
        };
        let sj = if j < pos {
            j
        } else {
            j + 1
        };
        assert(t[i] == s[si]);
        assert(t[j] == s[sj]);
        assert(s[si].0.lt(s[sj].0));
    }
    assert forall|q: K| map_of(t).contains_key(q) == #[trigger] map_of(s).remove(k).contains_key(
        q,
    ) by {
        if has_entry(s, q) && q != k {
            let i = entry_index(s, q);
            if i < pos {
                assert(t[i] == s[i]);
            } else {
                assert(t[i - 1] == s[i]);
            }
        }
        if has_entry(t, q) {
            let i = entry_index(t, q);
            let si = if i < pos {
                i
            } else {
                i + 1
            };
            assert(t[i] == s[si]);
            lemma_ascending_index(s, si);
            lemma_ascending_index(s, pos);
            assert(q != k);
        }
    }
    assert forall|q: K| map_of(t).contains_key(q) implies #[trigger] map_of(t)[q] == map_of(
        s,
    ).remove(k)[q] by {
        let i = entry_index(t, q);
        let si = if i < pos {
            i
        } else {
            i + 1
        };
        lemma_ascending_index(t, i);
        assert(t[i] == s[si]);
        lemma_ascending_index(s, si);
    }
    assert(map_of(t) =~= map_of(s).remove(k));
}

proof fn lemma_position<K: Ordered, V>(s: Seq<(K, V)>, k: K) -> (pos: int)
    requires
        ascending(s),
        !has_entry(s, k),
    ensures
        0 <= pos <= s.len(),
        forall|i: int| 0 <= i < pos ==> (#[trigger] s[i]).0.lt(k),
        forall|i: int| pos <= i < s.len() ==> k.lt((#[trigger] s[i]).0),
    decreases s.len(),
{
    if s.len() == 0 {
        0
    } else {
        let last = s.len() - 1;
        K::lt_total(s[last].0, k);
        assert(s[last].0 != k);
        if s[last].0.lt(k) {
            assert forall|i: int| 0 <= i < s.len() implies (#[trigger] s[i]).0.lt(k) by {
                if i < last {
                    assert(s[i].0.lt(s[last].0));
                    K::lt_transitive(s[i].0, s[last].0, k);
                }
            }
            s.len() as int
        } else {
            let t = s.drop_last();
            assert(!has_entry(t, k)) by {
                if has_entry(t, k) {
                    let j = entry_index(t, k);
                    assert(s[j].0 == k);
                }
            }
            let pos = lemma_position(t, k);
            assert forall|i: int| 0 <= i < pos implies (#[trigger] s[i]).0.lt(k) by {
                assert(t[i] == s[i]);
            }
            assert forall|i: int| pos <= i < s.len() implies k.lt((#[trigger] s[i]).0) by {
                if i < last {
                    assert(t[i] == s[i]);
                }
            }
            pos
        }
    }
}

/// Every finite map has a listing in ascending order.
pub proof fn lemma_listed_finite<K: Ordered, V>(m: Map<K, V>)
    requires
        m.dom().finite(),
    ensures
        ascending(listed(m)),
        map_of(listed(m)) == m,
        listed(m).len() == m.len(),
    decreases m.len(),
{
    if m.len() == 0 {
        let s = Seq::<(K, V)>::empty();
        assert(m.dom() =~= Set::<K>::empty());
        lemma_map_of_size(s);
        assert(map_of(s) =~= m);
        lemma_listed(s);
    } else {
        let k = m.dom().choose();
        let rest = m.remove(k);
        lemma_listed_finite(rest);
        let s = listed(rest);
        assert(!has_entry(s, k)) by {
            assert(!map_of(s).contains_key(k));
        }
        let pos = lemma_position(s, k);
        lemma_insert_entry(s, pos, k, m[k]);
        let t = s.insert(pos, (k, m[k]));
        assert(map_of(t) =~= m);
        lemma_listed(t);
        lemma_map_of_size(t);
    }
}

/// A new entry goes into the listing at one place.
pub proof fn lemma_listed_insert<K: Ordered, V>(m: Map<K, V>, k: K, v: V) -> (pos: int)
    requires
        m.dom().finite(),
        !m.contains_key(k),
    ensures
        0 <= pos <= listed(m).len(),
        listed(m.insert(k, v)) == listed(m).insert(pos, (k, v)),
{
    lemma_listed_finite(m);
    let s = listed(m);
    assert(!has_entry(s, k)) by {
        assert(!map_of(s).contains_key(k));
    }
    let pos = lemma_position(s, k);
    lemma_insert_entry(s, pos, k, v);
    lemma_listed(s.insert(pos, (k, v)));
    pos
}

/// The sum of the weights of the first `n` entries.
pub open spec fn entries_weight<K, V>(s: Seq<(K, V)>, w: spec_fn(V) -> nat, n: int) -> nat
    decreases n,
{
    if n <= 0 || n > s.len() {
        0
    } else {
        entries_weight(s, w, n - 1) + w(s[n - 1].1)
    }
}

/// The sum of the weights of all values of a finite map.
pub open spec fn weight<K: Ordered, V>(m: Map<K, V>, w: spec_fn(V) -> nat) -> nat {
    entries_weight(listed(m), w, listed(m).len() as int)
}

pub proof fn lemma_weight_grows<K, V>(s: Seq<(K, V)>, w: spec_fn(V) -> nat, i: int, j: int)
    requires
        0 <= i <= j <= s.len(),
    ensures
        entries_weight(s, w, i) <= entries_weight(s, w, j),
    decreases j - i,
{
    if i < j {
        lemma_weight_grows(s, w, i, j - 1);
    }
}

proof fn lemma_weight_prefix<K, V>(
    s: Seq<(K, V)>,
    t: Seq<(K, V)>,
    w: spec_fn(V) -> nat,
    n: int,
)
    requires
        0 <= n <= s.len(),
        n <= t.len(),
        forall|i: int| 0 <= i < n ==> s[i] == t[i],
    ensures
        entries_weight(s, w, n) == entries_weight(t, w, n),
    decreases n,
{
    if n > 0 {
        lemma_weight_prefix(s, t, w, n - 1);
    }
}

proof fn lemma_weight_insert_at<K, V>(
    s: Seq<(K, V)>,
    w: spec_fn(V) -> nat,
    pos: int,
    e: (K, V),
    n: int,
)
    requires
        0 <= pos <= s.len(),
        pos < n <= s.len() + 1,
    ensures
        entries_weight(s.insert(pos, e), w, n) == entries_weight(s, w, n - 1) + w(e.1),
    decreases n,
{
    let t = s.insert(pos, e);
    if n == pos + 1 {
        lemma_weight_prefix(s, t, w, pos);
        assert(t[pos] == e);
    } else {
        lemma_weight_insert_at(s, w, pos, e, n - 1);
        assert(t[n - 1] == s[n - 2]);
    }
}

/// A new entry adds its weight.
pub proof fn lemma_weight_insert<K: Ordered, V>(
    m: Map<K, V>,
    w: spec_fn(V) -> nat,
    k: K,
    v: V,
)
    requires
        m.dom().finite(),
        !m.contains_key(k),
    ensures
        weight(m.insert(k, v), w) == weight(m, w) + w(v),
{
    let pos = lemma_listed_insert(m, k, v);
    let s = listed(m);
    lemma_weight_insert_at(s, w, pos, (k, v), s.len() as int + 1);
}

/// An entry that leaves takes its weight with it.
pub proof fn lemma_weight_remove<K: Ordered, V>(m: Map<K, V>, w: spec_fn(V) -> nat, k: K)
    requires
        m.dom().finite(),
        m.contains_key(k),
    ensures
        weight(m.remove(k), w) + w(m[k]) == weight(m, w),
{
    lemma_weight_insert(m.remove(k), w, k, m[k]);
    assert(m.remove(k).insert(k, m[k]) =~= m);
}

/// A map whose entries are kept in ascending order of their keys.
#[derive(Debug, PartialEq, Eq)]
pub struct OrdMap<K: OrdKey, V: Model> {
    items: Vec<(K, V)>,
}

/// The entries of `items`: what each key stands for, and the model of its value.
pub open spec fn modelled<K: OrdKey, V: Model>(items: Seq<(K, V)>) -> Seq<(K::Key, V::M)> {
    Seq::new(items.len(), |i: int| (items[i].0.key(), items[i].1.model()))
}

impl<K: OrdKey, V: Model> View for OrdMap<K, V> {
    type V = Map<K::Key, V::M>;

    closed spec fn view(&self) -> Map<K::Key, V::M> {
        map_of(modelled(self.items@))
    }
}

impl<K: OrdKey, V: Model> OrdMap<K, V> {
    #[verifier::type_invariant]
    spec fn wf(self) -> bool {
        ascending(modelled(self.items@))
    }

    /// The empty map.
    pub fn new() -> (r: Self)
        ensures
            r@ == Map::<K::Key, V::M>::empty(),
    {
        let r = OrdMap { items: Vec::new() };
        proof {
            lemma_map_of_size(modelled(r.items@));
        }
        r
    }

    /// The number of entries.
    pub fn len(&self) -> (r: usize)
        ensures
            self@.dom().finite(),
            r == self@.len(),
            r == listed(self@).len(),
            ascending(listed(self@)),
            map_of(listed(self@)) == self@,
    {
        proof {
            use_type_invariant(self);
            lemma_map_of_size(modelled(self.items@));
            lemma_listed(modelled(self.items@));
        }
        self.items.len()
    }

    pub fn is_empty(&self) -> (r: bool)
        ensures
            r == (self@ == Map::<K::Key, V::M>::empty()),
    {
        proof {
            use_type_invariant(self);
            lemma_map_of_size(modelled(self.items@));
            if self.items@.len() > 0 {
                assert(self@.contains_key(self.items@[0].0.key())) by {
                    lemma_ascending_index(modelled(self.items@), 0);
                }
            }
        }
        self.items.len() == 0
    }

    /// The key of the entry number `i`, in ascending order.
    pub fn key_at(&self, i: usize) -> (r: K)
        requires
            i < listed(self@).len(),
        ensures
            r.key() == listed(self@)[i as int].0,
    {
        proof {
            use_type_invariant(self);
            lemma_listed(modelled(self.items@));
        }
        self.items[i].0.twin()
    }

    /// The value of the entry number `i`, in ascending order of the keys.
    pub fn value_at(&self, i: usize) -> (r: &V)
        requires
            i < listed(self@).len(),
        ensures
            r.model() == listed(self@)[i as int].1,
    {
        proof {
            use_type_invariant(self);
            lemma_listed(modelled(self.items@));
        }
        &self.items[i].1
    }

    /// The number of keys before `key`.
    fn locate(&self, key: &K) -> (pos: usize)
        ensures
            pos <= self.items@.len(),
            forall|i: int| 0 <= i < pos ==> (#[trigger] self.items@[i]).0.key().lt(key.key()),
            forall|i: int|
                pos <= i < self.items@.len() ==> !(#[trigger] self.items@[i]).0.key().lt(key.key()),
    {
        proof {
            use_type_invariant(self);
        }
        let mut lo: usize = 0;
        let mut hi: usize = self.items.len();
        while lo < hi
            invariant
                lo <= hi <= self.items@.len(),
                ascending(modelled(self.items@)),
                forall|i: int| 0 <= i < lo ==> (#[trigger] self.items@[i]).0.key().lt(key.key()),
                forall|i: int|
                    hi <= i < self.items@.len() ==> !(#[trigger] self.items@[i]).0.key().lt(key.key()),
            decreases hi - lo,
        {
            let mid: usize = lo + (hi - lo) / 2;
            let ghost e = modelled(self.items@);
            if self.items[mid].0.before(key) {
                proof {
                    assert forall|i: int| 0 <= i < mid + 1 implies (
                    #[trigger] self.items@[i]).0.key().lt(key.key()) by {
                        if i < mid {
                            assert(e[i].0.lt(e[mid as int].0));
                            K::Key::lt_transitive(e[i].0, e[mid as int].0, key.key());
                        }
                    }
                }
                lo = mid + 1;
            } else {
                proof {
                    assert forall|i: int| mid <= i < self.items@.len() implies !(
                    #[trigger] self.items@[i]).0.key().lt(key.key()) by {
                        if i > mid && self.items@[i].0.key().lt(key.key()) {
                            assert(e[mid as int].0.lt(e[i].0));
                            K::Key::lt_transitive(e[mid as int].0, e[i].0, key.key());
                        }
                    }
                }
                hi = mid;
            }
        }
        lo
    }

    /// The value under `key`.
    pub fn get(&self, key: &K) -> (r: Option<&V>)
        ensures
            r is Some <==> self@.contains_key(key.key()),
            r is Some ==> r->Some_0.model() == self@[key.key()],
    {
        proof {
            use_type_invariant(self);
        }
        let pos: usize = self.locate(key);
        let ghost e = modelled(self.items@);
        if pos < self.items.len() && self.items[pos].0.same(key) {
            proof {
                lemma_ascending_index(e, pos as int);
            }
            Some(&self.items[pos].1)
        } else {
            proof {
                if has_entry(e, key.key()) {
                    let i = entry_index(e, key.key());
                    K::Key::lt_irreflexive(key.key());
                    assert(self.items@[i].0.key() == key.key());
                    assert(i > pos);
                    assert(e[pos as int].0.lt(e[i].0));
                    assert(!self.items@[pos as int].0.key().lt(key.key()));
                }
            }
            None
        }
    }

    pub fn contains_key(&self, key: &K) -> (r: bool)
        ensures
            r == self@.contains_key(key.key()),
    {
        self.get(key).is_some()
    }

    /// Puts `value` under `key`, in place of any value that was there, which is
    /// handed back.
    pub fn insert(&mut self, key: K, value: V) -> (r: Option<V>)
        ensures
            final(self)@ == old(self)@.insert(key.key(), value.model()),
            r is Some <==> old(self)@.contains_key(key.key()),
            r is Some ==> r->Some_0.model() == old(self)@[key.key()],
    {
        let pos: usize = self.locate(&key);
        let mut items: Vec<(K, V)> = Vec::new();
        proof {
            use_type_invariant(&*self);
        }
        let ghost e = modelled(self.items@);
        let ghost before = self.items@;
        std::mem::swap(&mut items, &mut self.items);
        if pos < items.len() && items[pos].0.same(&key) {
            let removed: (K, V) = items.remove(pos);
            items.insert(pos, (key, value));
            proof {
                lemma_update_entry(e, pos as int, key.key(), value.model());
                assert(modelled(items@) =~= e.update(pos as int, (key.key(), value.model())));
            }
            self.items = items;
            Some(removed.1)
        } else {
            items.insert(pos, (key, value));
            proof {
                assert forall|i: int| 0 <= i < pos implies (#[trigger] e[i]).0.lt(key.key()) by {
                    assert(before[i].0.key().lt(key.key()));
                }
                assert forall|i: int| pos <= i < e.len() implies key.key().lt((#[trigger] e[i]).0) by {
                    assert(!before[i].0.key().lt(key.key()));
                    K::Key::lt_total(e[i].0, key.key());
                    if e[i].0 == key.key() {
                        assert(i > pos);
                        assert(e[pos as int].0.lt(e[i].0));
                        assert(!before[pos as int].0.key().lt(key.key()));
                    }
                }
                lemma_insert_entry(e, pos as int, key.key(), value.model());
                assert(modelled(items@) =~= e.insert(pos as int, (key.key(), value.model())));
            }
            self.items = items;
            None
        }
    }

    /// Takes the entry under `key` out.
    pub fn remove(&mut self, key: &K) -> (r: Option<V>)
        ensures
            final(self)@ == old(self)@.remove(key.key()),
            r is Some <==> old(self)@.contains_key(key.key()),
            r is Some ==> r->Some_0.model() == old(self)@[key.key()],
    {
        let pos: usize = self.locate(key);
        let mut items: Vec<(K, V)> = Vec::new();
        proof {
            use_type_invariant(&*self);
        }
        let ghost e = modelled(self.items@);
        let ghost before = self.items@;
        std::mem::swap(&mut items, &mut self.items);
        if pos < items.len() && items[pos].0.same(key) {
            let removed: (K, V) = items.remove(pos);
            proof {
                lemma_remove_entry(e, pos as int, key.key());
                assert(modelled(items@) =~= e.remove(pos as int));
            }
            self.items = items;
            Some(removed.1)
        } else {
            proof {
                if has_entry(e, key.key()) {
                    let i = entry_index(e, key.key());
                    K::Key::lt_irreflexive(key.key());
                    assert(before[i].0.key() == key.key());
                    assert(i > pos);
                    assert(e[pos as int].0.lt(e[i].0));
                    assert(!before[pos as int].0.key().lt(key.key()));
                }
                assert(map_of(e).remove(key.key()) =~= map_of(e));
            }
            self.items = items;
            None
        }
    }

    /// Takes every entry out.
    pub fn clear(&mut self)
        ensures
            final(self)@ == Map::<K::Key, V::M>::empty(),
    {
        proof {
            lemma_map_of_size(modelled(Seq::<(K, V)>::empty()));
        }
        self.items = Vec::new();
    }

    /// A map with the same entries.
    pub fn copy(&self) -> (r: Self)
        ensures
            r@ == self@,
    {
        proof {
            use_type_invariant(self);
        }
        let mut items: Vec<(K, V)> = Vec::with_capacity(self.items.len());
        let mut i: usize = 0;
        while i < self.items.len()
            invariant
                i <= self.items@.len(),
                modelled(items@) == modelled(self.items@).subrange(0, i as int),
            decreases self.items@.len() - i,
        {
            let ghost before = items@;
            items.push((self.items[i].0.twin(), self.items[i].1.duplicate()));
            proof {
                assert(modelled(items@) =~= modelled(before).push(modelled(self.items@)[i as int]));
                assert(modelled(self.items@).subrange(0, i + 1) =~= modelled(self.items@).subrange(
                    0,
                    i as int,
                ).push(modelled(self.items@)[i as int]));
            }
            i = i + 1;
        }
        proof {
            assert(modelled(self.items@).subrange(0, i as int) =~= modelled(self.items@));
        }
        OrdMap { items }
    }
}

impl<K: OrdKey, V: Model> Clone for OrdMap<K, V> {
    fn clone(&self) -> (r: Self)
        ensures
            r@ == self@,
    {
        self.copy()
    }
}

impl Model for () {
    type M = ();

    open spec fn model(&self) -> () {
        ()
    }

    fn duplicate(&self) -> (r: Self) {
    }
}

/// A set whose members are kept in ascending order.
#[derive(Debug, PartialEq, Eq)]
pub struct OrdSet<K: OrdKey> {
    map: OrdMap<K, ()>,
}

/// The members of a finite set in ascending order.
pub open spec fn members<K: Ordered>(s: Set<K>) -> Seq<K> {
    let l = listed(Map::<K, ()>::new(|k: K| s.contains(k), |k: K| ()));
    Seq::new(l.len(), |i: int| l[i].0)
}

impl<K: OrdKey> View for OrdSet<K> {
    type V = Set<K::Key>;

    closed spec fn view(&self) -> Set<K::Key> {
        self.map@.dom()
    }
}

impl<K: OrdKey> OrdSet<K> {
    proof fn lemma_as_map(self)
        ensures
            self.map@ == Map::<K::Key, ()>::new(|k: K::Key| self@.contains(k), |k: K::Key| ()),
    {
        assert(self.map@ =~= Map::<K::Key, ()>::new(|k: K::Key| self@.contains(k), |k: K::Key| ()));
    }

    /// The empty set.
    pub fn new() -> (r: Self)
        ensures
            r@ == Set::<K::Key>::empty(),
    {
        let r = OrdSet { map: OrdMap::new() };
        assert(r@ =~= Set::<K::Key>::empty());
        r
    }

    /// The number of members.
    pub fn len(&self) -> (r: usize)
        ensures
            self@.finite(),
            r == self@.len(),
            r == members(self@).len(),
            forall|k: K::Key| self@.contains(k) <==> members(self@).contains(k),
            forall|i: int, j: int|
                0 <= i < j < members(self@).len() ==> (#[trigger] members(self@)[i]).lt(
                    #[trigger] members(self@)[j],
                ),
    {
        proof {
            self.lemma_as_map();
        }
        let r: usize = self.map.len();
        proof {
            let l = listed(self.map@);
            let ms = members(self@);
            assert forall|k: K::Key| self@.contains(k) <==> ms.contains(k) by {
                if self@.contains(k) {
                    assert(map_of(l).contains_key(k));
                    let i = entry_index(l, k);
                    assert(ms[i] == k);
                }
                if ms.contains(k) {
                    let i = choose|i: int| 0 <= i < ms.len() && ms[i] == k;
                    lemma_ascending_index(l, i);
                }
            }
            assert forall|i: int, j: int| 0 <= i < j < ms.len() implies (#[trigger] ms[i]).lt(
                #[trigger] ms[j],
            ) by {
                assert(l[i].0.lt(l[j].0));
            }
        }
        r
    }

    pub fn is_empty(&self) -> (r: bool)
        ensures
            r == (self@ == Set::<K::Key>::empty()),
    {
        let r: bool = self.map.is_empty();
        proof {
            if self@ == Set::<K::Key>::empty() {
                assert(self.map@ =~= Map::<K::Key, ()>::empty());
            }
            if r {
                assert(self@ =~= Set::<K::Key>::empty());
            }
        }
        r
    }

    pub fn contains(&self, key: &K) -> (r: bool)
        ensures
            r == self@.contains(key.key()),
    {
        self.map.contains_key(key)
    }

    /// The member number `i`, in ascending order.
    pub fn at(&self, i: usize) -> (r: K)
        requires
            i < members(self@).len(),
        ensures
            r.key() == members(self@)[i as int],
    {
        proof {
            self.lemma_as_map();
        }
        self.map.key_at(i)
    }

    /// Puts `key` in; whether it was not there before.
    pub fn insert(&mut self, key: K) -> (r: bool)
        ensures
            final(self)@ == old(self)@.insert(key.key()),
            r == !old(self)@.contains(key.key()),
    {
        let ghost before = self@;
        let r: bool = self.map.insert(key, ()).is_none();
        assert(self@ =~= before.insert(key.key()));
        r
    }

    /// Takes every member out.
    pub fn clear(&mut self)
        ensures
            final(self)@ == Set::<K::Key>::empty(),
    {
        self.map.clear();
        assert(self@ =~= Set::<K::Key>::empty());
    }

    /// A set with the same members.
    pub fn copy(&self) -> (r: Self)
        ensures
            r@ == self@,
    {
        OrdSet { map: self.map.copy() }
    }

    /// Whether two sets have the same members.
    pub fn same(&self, other: &Self) -> (r: bool)
        ensures
            r == (self@ == other@),
    {
        let count: usize = self.len();
        if count != other.len() {
            return false;
        }
        let mut i: usize = 0;
        while i < count
            invariant
                i <= count,
                count == members(self@).len(),
                forall|k: K::Key| self@.contains(k) <==> members(self@).contains(k),
                forall|j: int| 0 <= j < i ==> other@.contains(#[trigger] members(self@)[j]),
            decreases count - i,
        {
            let key: K = self.at(i);
            if !other.contains(&key) {
                assert(members(self@).contains(key.key()));
                return false;
            }
            i = i + 1;
        }
        proof {
            assert(self@.subset_of(other@)) by {
                assert forall|k: K::Key| self@.contains(k) implies other@.contains(k) by {
                    let j = choose|j: int|
                        0 <= j < members(self@).len() && members(self@)[j] == k;
                    assert(other@.contains(members(self@)[j]));
                }
            }
            vstd::set_lib::lemma_subset_equality(self@, other@);
        }
        true
    }
}

impl<K: OrdKey> Clone for OrdSet<K> {
    fn clone(&self) -> (r: Self)
        ensures
            r@ == self@,
    {
        self.copy()
    }
}

// ---------------------------------------------------------------------------
// Keys.
// ---------------------------------------------------------------------------

/// Byte strings of one length, compared at the first byte in which they differ.
pub open spec fn bytes_lt(a: Seq<u8>, b: Seq<u8>) -> bool {
    exists|i: int| #[trigger] first_lower(a, b, i)
}

/// `a` and `b` agree before position `i`, and `a` has the lower byte there.
pub open spec fn first_lower(a: Seq<u8>, b: Seq<u8>, i: int) -> bool {
    &&& 0 <= i < a.len()
    &&& i < b.len()
    &&& a[i] < b[i]
    &&& forall|j: int| 0 <= j < i ==> #[trigger] a[j] == b[j]
}

proof fn lemma_bytes_total(a: Seq<u8>, b: Seq<u8>, k: int)
    requires
        a.len() == b.len(),
        0 <= k <= a.len(),
        forall|j: int| 0 <= j < k ==> a[j] == b[j],
    ensures
        bytes_lt(a, b) || a == b || bytes_lt(b, a),
    decreases a.len() - k,
{
    if k == a.len() {
        assert(a =~= b);
    } else if a[k] < b[k] {
        assert(first_lower(a, b, k));
    } else if b[k] < a[k] {
        assert(first_lower(b, a, k));
    } else {
        lemma_bytes_total(a, b, k + 1);
    }
}

impl Ordered for [u8; 32] {
    open spec fn lt(self, other: Self) -> bool {
        bytes_lt(self@, other@)
    }

    proof fn lt_irreflexive(a: Self) {
        assert(a.lt(a) == bytes_lt(a@, a@));
    }

    proof fn lt_transitive(a: Self, b: Self, c: Self) {
        let i = choose|i: int| first_lower(a@, b@, i);
        let j = choose|j: int| first_lower(b@, c@, j);
        let k = if i < j {
            i
        } else {
            j
        };
        assert forall|m: int| 0 <= m < k implies #[trigger] a@[m] == c@[m] by {
            assert(a@[m] == b@[m]);
            assert(b@[m] == c@[m]);
        }
        if i < j {
            assert(b@[i] == c@[i]);
        } else if j < i {
            assert(a@[j] == b@[j]);
        }
        assert(first_lower(a@, c@, k));
    }

    proof fn lt_total(a: Self, b: Self) {
        lemma_bytes_total(a@, b@, 0);
        if a@ == b@ {
            crate::bytes::lemma_array_eq(a, b);
        }
    }
}

impl OrdKey for [u8; 32] {
    type Key = [u8; 32];

    open spec fn key(&self) -> [u8; 32] {
        *self
    }

    fn twin(&self) -> (r: Self) {
        *self
    }

    fn before(&self, other: &Self) -> (r: bool) {
        let mut i: usize = 0;
        assert(Ordered::lt(*self, *other) == bytes_lt(self@, other@));
        assert(self.key() == *self && other.key() == *other);
        while i < 32
            invariant
                self.key() == *self,
                other.key() == *other,
                Ordered::lt(*self, *other) == bytes_lt(self@, other@),
                i <= 32,
                forall|j: int| 0 <= j < i ==> self@[j] == other@[j],
            decreases 32 - i,
        {
            if self[i] < other[i] {
                assert(first_lower(self@, other@, i as int));
                return true;
            }
            if self[i] > other[i] {
                proof {
                    if bytes_lt(self@, other@) {
                        let k = choose|k: int| first_lower(self@, other@, k);
                        assert(k > i ==> self@[i as int] == other@[i as int]);
                    }
                }
                return false;
            }
            i = i + 1;
        }
        proof {
            if bytes_lt(self@, other@) {
                let k = choose|k: int| first_lower(self@, other@, k);
                assert(self@[k] == other@[k]);
            }
        }
        false
    }

    fn same(&self, other: &Self) -> (r: bool) {
        assert(self.key() == *self);
        assert(other.key() == *other);
        crate::bytes::same_array(self, other)
    }
}

impl Ordered for u8 {
    open spec fn lt(self, other: Self) -> bool {
        self < other
    }

    proof fn lt_irreflexive(a: Self) {
    }

    proof fn lt_transitive(a: Self, b: Self, c: Self) {
    }

    proof fn lt_total(a: Self, b: Self) {
    }
}

impl Ordered for u64 {
    open spec fn lt(self, other: Self) -> bool {
        self < other
    }

    proof fn lt_irreflexive(a: Self) {
    }

    proof fn lt_transitive(a: Self, b: Self, c: Self) {
    }

    proof fn lt_total(a: Self, b: Self) {
    }
}

impl OrdKey for u64 {
    type Key = u64;

    open spec fn key(&self) -> u64 {
        *self
    }

    fn twin(&self) -> (r: Self) {
        *self
    }

    fn before(&self, other: &Self) -> (r: bool) {
        *self < *other
    }

    fn same(&self, other: &Self) -> (r: bool) {
        *self == *other
    }
}

/// Texts, compared at the first character in which they differ; a text stands
/// before its continuations.
pub open spec fn text_lt(a: Seq<char>, b: Seq<char>) -> bool {
    exists|i: int| #[trigger] parts_at(a, b, i)
}

/// `a` and `b` agree before position `i`, where `b` goes on and `a` ends or has
/// the lower character.
pub open spec fn parts_at(a: Seq<char>, b: Seq<char>, i: int) -> bool {
    &&& 0 <= i <= a.len()
    &&& i < b.len()
    &&& forall|j: int| 0 <= j < i ==> a[j] == b[j]
    &&& i < a.len() ==> a[i] < b[i]
}

impl Ordered for Seq<char> {
    open spec fn lt(self, other: Self) -> bool {
        text_lt(self, other)
    }

    proof fn lt_irreflexive(a: Self) {
        assert(a.lt(a) == text_lt(a, a));
    }

    proof fn lt_transitive(a: Self, b: Self, c: Self) {
        let i = choose|i: int| parts_at(a, b, i);
        let j = choose|j: int| parts_at(b, c, j);
        if i <= j {
            assert(parts_at(a, c, i));
        } else {
            assert(parts_at(a, c, j));
        }
    }

    proof fn lt_total(a: Self, b: Self) {
        lemma_texts_part(a, b, 0);
    }
}

proof fn lemma_texts_part(a: Seq<char>, b: Seq<char>, n: int)
    requires
        0 <= n <= a.len(),
        n <= b.len(),
        forall|j: int| 0 <= j < n ==> a[j] == b[j],
    ensures
        text_lt(a, b) || a == b || text_lt(b, a),
    decreases a.len() - n,
{
    if n == a.len() && n == b.len() {
        assert(a =~= b);
    } else if n == a.len() {
        assert(parts_at(a, b, n));
    } else if n == b.len() {
        assert(parts_at(b, a, n));
    } else if a[n] < b[n] {
        assert(parts_at(a, b, n));
    } else if b[n] < a[n] {
        assert(parts_at(b, a, n));
    } else {
        lemma_texts_part(a, b, n + 1);
    }
}

impl OrdKey for String {
    type Key = Seq<char>;

    open spec fn key(&self) -> Seq<char> {
        self@
    }

    fn twin(&self) -> (r: Self) {
        self.as_str().to_owned()
    }

    fn before(&self, other: &Self) -> (r: bool) {
        let a: &str = self.as_str();
        let b: &str = other.as_str();
        let n: usize = a.unicode_len();
        let m: usize = b.unicode_len();
        let mut i: usize = 0;
        assert(self@.lt(other@) == text_lt(self@, other@));
        while i < n && i < m
            invariant
                self@.lt(other@) == text_lt(self@, other@),
                a@ == self@,
                b@ == other@,
                n == a@.len(),
                m == b@.len(),
                i <= n,
                i <= m,
                forall|j: int| 0 <= j < i ==> a@[j] == b@[j],
            decreases n - i,
        {
            let c: char = a.get_char(i);
            let d: char = b.get_char(i);
            if (c as u32) < (d as u32) {
                assert(parts_at(a@, b@, i as int));
                return true;
            }
            if (d as u32) < (c as u32) {
                proof {
                    if text_lt(a@, b@) {
                        let k = choose|k: int| parts_at(a@, b@, k);
                        assert(a@[i as int] != b@[i as int]);
                    }
                }
                return false;
            }
            i = i + 1;
        }
        proof {
            if i < m {
                assert(parts_at(a@, b@, i as int));
            } else if text_lt(a@, b@) {
                let k = choose|k: int| parts_at(a@, b@, k);
                assert(a@[k] == b@[k]);
            }
        }
        i < m
    }

    fn same(&self, other: &Self) -> (r: bool) {
        *self == *other
    }
}

impl Model for String {
    type M = Seq<char>;

    open spec fn model(&self) -> Seq<char> {
        self@
    }

    fn duplicate(&self) -> (r: Self) {
        self.as_str().to_owned()
    }
}

impl Model for bool {
    type M = bool;

    open spec fn model(&self) -> bool {
        *self
    }

    fn duplicate(&self) -> (r: Self) {
        *self
    }
}

impl Model for Vec<u64> {
    type M = Seq<u64>;

    open spec fn model(&self) -> Seq<u64> {
        self@
    }

    fn duplicate(&self) -> (r: Self) {
        crate::bytes::copy_vec(self)
    }
}

impl Model for [u8; 32] {
    type M = [u8; 32];

    open spec fn model(&self) -> [u8; 32] {
        *self
    }

    fn duplicate(&self) -> (r: Self) {
        *self
    }
}

} // verus!
