//! Keyed tables: the storage maps of the pallets, held as association lists
//! whose keys are pairwise distinct.

use vstd::prelude::*;

verus! {

/// Keys of a [`Table`]: two keys are the same key exactly when their views
/// are equal.
pub trait TableKey: View + Sized {
    /// Whether `self` and `other` are the same key.
    fn same(&self, other: &Self) -> (b: bool)
        ensures
            b == (self@ == other@),
    ;

    /// A copy of the key.
    fn copy_key(&self) -> (r: Self)
        ensures
            r@ == self@,
    ;
}

/// Values that can be copied with their view kept.
pub trait Duplicate: View + Sized {
    /// A copy of the value.
    fn duplicate(&self) -> (r: Self)
        ensures
            r@ == self@,
    ;
}

impl TableKey for u32 {
    fn same(&self, other: &Self) -> (b: bool) {
        *self == *other
    }

    fn copy_key(&self) -> (r: Self) {
        *self
    }
}

impl TableKey for u64 {
    fn same(&self, other: &Self) -> (b: bool) {
        *self == *other
    }

    fn copy_key(&self) -> (r: Self) {
        *self
    }
}

/// Whether two byte strings are equal.
pub fn bytes_eq(a: &Vec<u8>, b: &Vec<u8>) -> (r: bool)
    ensures
        r == (a@ == b@),
{
    if a.len() != b.len() {
        return false;
    }
    let n = a.len();
    let mut i: usize = 0;
    while i < n
        invariant
            n == a@.len(),
            n == b@.len(),
            i <= n,
            forall|j: int| 0 <= j < i ==> a@[j] == b@[j],
        decreases n - i,
    {
        if a[i] != b[i] {
            return false;
        }
        i = i + 1;
    }
    assert(a@ =~= b@);
    true
}

/// A copy of a byte string.
pub fn copy_bytes(a: &Vec<u8>) -> (r: Vec<u8>)
    ensures
        r@ == a@,
{
    let mut r: Vec<u8> = Vec::new();
    let n = a.len();
    let mut i: usize = 0;
    while i < n
        invariant
            n == a@.len(),
            i <= n,
            r@ =~= a@.subrange(0, i as int),
        decreases n - i,
    {
        r.push(a[i]);
        i = i + 1;
    }
    assert(r@ =~= a@);
    r
}

impl TableKey for Vec<u8> {
    fn same(&self, other: &Self) -> (b: bool) {
        bytes_eq(self, other)
    }

    fn copy_key(&self) -> (r: Self) {
        copy_bytes(self)
    }
}

impl TableKey for (u32, u32) {
    fn same(&self, other: &Self) -> (b: bool) {
        self.0 == other.0 && self.1 == other.1
    }

    fn copy_key(&self) -> (r: Self) {
        (self.0, self.1)
    }
}

impl TableKey for (u32, u64) {
    fn same(&self, other: &Self) -> (b: bool) {
        self.0 == other.0 && self.1 == other.1
    }

    fn copy_key(&self) -> (r: Self) {
        (self.0, self.1)
    }
}

impl TableKey for (u64, u32) {
    fn same(&self, other: &Self) -> (b: bool) {
        self.0 == other.0 && self.1 == other.1
    }

    fn copy_key(&self) -> (r: Self) {
        (self.0, self.1)
    }
}

impl TableKey for (u32, Vec<u8>) {
    fn same(&self, other: &Self) -> (b: bool) {
        self.0 == other.0 && bytes_eq(&self.1, &other.1)
    }

    fn copy_key(&self) -> (r: Self) {
        (self.0, copy_bytes(&self.1))
    }
}

impl TableKey for (u32, u64, Vec<u8>) {
    fn same(&self, other: &Self) -> (b: bool) {
        self.0 == other.0 && self.1 == other.1 && bytes_eq(&self.2, &other.2)
    }

    fn copy_key(&self) -> (r: Self) {
        (self.0, self.1, copy_bytes(&self.2))
    }
}

impl TableKey for (u32, u32, Vec<u8>) {
    fn same(&self, other: &Self) -> (b: bool) {
        self.0 == other.0 && self.1 == other.1 && bytes_eq(&self.2, &other.2)
    }

    fn copy_key(&self) -> (r: Self) {
        (self.0, self.1, copy_bytes(&self.2))
    }
}

impl Duplicate for Vec<u8> {
    fn duplicate(&self) -> (r: Self) {
        copy_bytes(self)
    }
}

/// A copy of a list of accounts.
pub fn copy_accounts(a: &Vec<u64>) -> (r: Vec<u64>)
    ensures
        r@ == a@,
{
    let mut r: Vec<u64> = Vec::new();
    let n = a.len();
    let mut i: usize = 0;
    while i < n
        invariant
            n == a@.len(),
            i <= n,
            r@ =~= a@.subrange(0, i as int),
        decreases n - i,
    {
        r.push(a[i]);
        i = i + 1;
    }
    assert(r@ =~= a@);
    r
}

/// Whether `a` is one of the accounts of `v`.
pub fn contains_account(v: &Vec<u64>, a: u64) -> (r: bool)
    ensures
        r == v@.contains(a),
{
    let n = v.len();
    let mut i: usize = 0;
    while i < n
        invariant
            n == v@.len(),
            i <= n,
            forall|j: int| 0 <= j < i ==> v@[j] != a,
        decreases n - i,
    {
        if v[i] == a {
            assert(v@[i as int] == a);
            return true;
        }
        i = i + 1;
    }
    false
}

impl Duplicate for Vec<u64> {
    fn duplicate(&self) -> (r: Self) {
        copy_accounts(self)
    }
}

impl Duplicate for u128 {
    fn duplicate(&self) -> (r: Self) {
        *self
    }
}

impl Duplicate for () {
    fn duplicate(&self) -> (r: Self) {
    }
}

/// Whether `k` is the key of some entry of `s`.
pub open spec fn has_key<A, B>(s: Seq<(A, B)>, k: A) -> bool {
    exists|i: int| 0 <= i < s.len() && s[i].0 == k
}

/// Whether the entries of `s` have pairwise distinct keys.
pub open spec fn keys_distinct<A, B>(s: Seq<(A, B)>) -> bool {
    forall|i: int, j: int| 0 <= i < s.len() && 0 <= j < s.len() && i != j ==> s[i].0 != s[j].0
}

/// The map that a list of entries with distinct keys stands for.
pub open spec fn entries_map<A, B>(s: Seq<(A, B)>) -> Map<A, B> {
    Map::new(
        |k: A| has_key(s, k),
        |k: A| s[choose|i: int| 0 <= i < s.len() && s[i].0 == k].1,
    )
}

/// An entry of a list with distinct keys is what the map holds at its key.
pub proof fn lemma_entry_in_map<A, B>(s: Seq<(A, B)>, i: int)
    requires
        keys_distinct(s),
        0 <= i < s.len(),
    ensures
        entries_map(s).dom().contains(s[i].0),
        entries_map(s)[s[i].0] == s[i].1,
{
    assert(has_key(s, s[i].0));
    let j = choose|j: int| 0 <= j < s.len() && s[j].0 == s[i].0;
    assert(j == i);
}

/// Pushing an entry under a fresh key inserts it into the map.
pub proof fn lemma_push_fresh<A, B>(s: Seq<(A, B)>, k: A, v: B)
    requires
        keys_distinct(s),
        !has_key(s, k),
    ensures
        keys_distinct(s.push((k, v))),
        entries_map(s.push((k, v))) =~= entries_map(s).insert(k, v),
{
    let t = s.push((k, v));
    assert forall|i: int, j: int| 0 <= i < t.len() && 0 <= j < t.len() && i != j implies t[i].0
        != t[j].0 by {
        if i < s.len() && j < s.len() {
            assert(t[i] == s[i] && t[j] == s[j]);
        } else if i < s.len() {
            assert(t[i] == s[i]);
        } else {
            assert(t[j] == s[j]);
        }
    }
    assert forall|x: A| #[trigger] entries_map(t).dom().contains(x) == entries_map(s).insert(
        k,
        v,
    ).dom().contains(x) by {
        if has_key(t, x) && x != k {
            let i = choose|i: int| 0 <= i < t.len() && t[i].0 == x;
            assert(i < s.len());
            assert(s[i].0 == x);
        }
        if has_key(s, x) {
            let i = choose|i: int| 0 <= i < s.len() && s[i].0 == x;
            assert(t[i].0 == x);
        }
        if x == k {
            assert(t[s.len() as int].0 == k);
        }
    }
    assert forall|x: A| #[trigger] entries_map(t).dom().contains(x) implies entries_map(t)[x]
        == entries_map(s).insert(k, v)[x] by {
        let i = choose|i: int| 0 <= i < t.len() && t[i].0 == x;
        lemma_entry_in_map(t, i);
        if x == k {
            assert(t[s.len() as int].0 == k);
            lemma_entry_in_map(t, s.len() as int);
        } else {
            assert(i < s.len());
            assert(t[i] == s[i]);
            lemma_entry_in_map(s, i);
        }
    }
}

/// Replacing the value of an entry replaces it in the map.
pub proof fn lemma_update_value<A, B>(s: Seq<(A, B)>, i: int, v: B)
    requires
        keys_distinct(s),
        0 <= i < s.len(),
    ensures
        keys_distinct(s.update(i, (s[i].0, v))),
        entries_map(s.update(i, (s[i].0, v))) =~= entries_map(s).insert(s[i].0, v),
{
    let t = s.update(i, (s[i].0, v));
    assert forall|a: int, b: int| 0 <= a < t.len() && 0 <= b < t.len() && a != b implies t[a].0
        != t[b].0 by {
        assert(t[a].0 == s[a].0 && t[b].0 == s[b].0);
    }
    assert forall|x: A| #[trigger] entries_map(t).dom().contains(x) == entries_map(s).insert(
        s[i].0,
        v,
    ).dom().contains(x) by {
        if has_key(t, x) {
            let j = choose|j: int| 0 <= j < t.len() && t[j].0 == x;
            assert(s[j].0 == x);
        }
        if has_key(s, x) {
            let j = choose|j: int| 0 <= j < s.len() && s[j].0 == x;
            assert(t[j].0 == x);
        }
        assert(t[i].0 == s[i].0);
    }
    assert forall|x: A| #[trigger] entries_map(t).dom().contains(x) implies entries_map(t)[x]
        == entries_map(s).insert(s[i].0, v)[x] by {
        let j = choose|j: int| 0 <= j < t.len() && t[j].0 == x;
        lemma_entry_in_map(t, j);
        if j != i {
            assert(t[j] == s[j]);
            lemma_entry_in_map(s, j);
        }
    }
}

/// A table from keys to values, kept as a list of entries whose keys are
/// pairwise distinct, in the order in which the keys were first inserted.
pub struct Table<K, V> {
    items: Vec<(K, V)>,
}

impl<K: TableKey, V: View> Table<K, V> {
    /// The entries, each key and value taken by its view.
    pub closed spec fn entries(&self) -> Seq<(K::V, V::V)> {
        self.items@.map_values(|e: (K, V)| (e.0@, e.1@))
    }

    /// The map that the table stands for.
    pub open spec fn view(&self) -> Map<K::V, V::V> {
        entries_map(self.entries())
    }

    /// The table's invariant: no key occurs twice.
    pub open spec fn wf(&self) -> bool {
        keys_distinct(self.entries())
    }

    /// An empty table.
    pub fn new() -> (t: Self)
        ensures
            t.wf(),
            t.entries() == Seq::<(K::V, V::V)>::empty(),
            t@ =~= Map::<K::V, V::V>::empty(),
    {
        let t = Table { items: Vec::new() };
        assert(t.entries() =~= Seq::<(K::V, V::V)>::empty());
        t
    }

    /// The number of entries.
    pub fn len(&self) -> (n: usize)
        ensures
            n == self.entries().len(),
    {
        self.items.len()
    }

    /// The key of the entry at `i`.
    pub fn key_at(&self, i: usize) -> (k: &K)
        requires
            i < self.entries().len(),
        ensures
            k@ == self.entries()[i as int].0,
    {
        &self.items[i].0
    }

    /// The value of the entry at `i`.
    pub fn value_at(&self, i: usize) -> (v: &V)
        requires
            i < self.entries().len(),
        ensures
            v@ == self.entries()[i as int].1,
    {
        &self.items[i].1
    }

    /// The position of the entry with key `k`.
    pub fn find(&self, k: &K) -> (r: Option<usize>)
        requires
            self.wf(),
        ensures
            match r {
                Some(i) => {
                    &&& i < self.entries().len()
                    &&& self.entries()[i as int].0 == k@
                    &&& self@.dom().contains(k@)
                    &&& self@[k@] == self.entries()[i as int].1
                },
                None => !self@.dom().contains(k@),
            },
    {
        let n = self.items.len();
        let mut i: usize = 0;
        while i < n
            invariant
                self.wf(),
                n == self.entries().len(),
                i <= n,
                forall|j: int| 0 <= j < i ==> self.entries()[j].0 != k@,
            decreases n - i,
        {
            if self.items[i].0.same(k) {
                proof {
                    lemma_entry_in_map(self.entries(), i as int);
                }
                return Some(i);
            }
            i = i + 1;
        }
        None
    }

    /// Whether the table holds key `k`.
    pub fn contains_key(&self, k: &K) -> (b: bool)
        requires
            self.wf(),
        ensures
            b == self@.dom().contains(k@),
    {
        self.find(k).is_some()
    }

    /// The value held under key `k`.
    pub fn get(&self, k: &K) -> (r: Option<&V>)
        requires
            self.wf(),
        ensures
            match r {
                Some(v) => self@.dom().contains(k@) && v@ == self@[k@],
                None => !self@.dom().contains(k@),
            },
    {
        match self.find(k) {
            Some(i) => Some(&self.items[i].1),
            None => None,
        }
    }

    /// Puts `v` under key `k`, in place of the value held there, if any.
    pub fn insert(&mut self, k: K, v: V)
        requires
            old(self).wf(),
        ensures
            final(self).wf(),
            final(self)@ =~= old(self)@.insert(k@, v@),
            old(self)@.dom().contains(k@) ==> final(self).entries().len() == old(self).entries().len(),
            !old(self)@.dom().contains(k@)
                ==> final(self).entries() == old(self).entries().push((k@, v@)),
            forall|i: int|
                0 <= i < old(self).entries().len() && old(self).entries()[i].0 != k@
                    ==> #[trigger] final(self).entries()[i] == old(self).entries()[i],
            forall|i: int|
                0 <= i < old(self).entries().len() && old(self).entries()[i].0 == k@
                    ==> #[trigger] final(self).entries()[i] == (k@, v@),
    {
        match self.find(&k) {
            Some(i) => {
                let ghost s = self.entries();
                self.items.set(i, (k, v));
                proof {
                    lemma_update_value(s, i as int, v@);
                    assert(self.entries() =~= s.update(i as int, (s[i as int].0, v@)));
                    assert forall|j: int| 0 <= j < s.len() && s[j].0 == k@ implies j == i by {}
                }
            },
            None => {
                let ghost s = self.entries();
                proof {
                    if has_key(s, k@) {
                        let j = choose|j: int| 0 <= j < s.len() && s[j].0 == k@;
                        lemma_entry_in_map(s, j);
                    }
                }
                let ghost kv = k@;
                let ghost vv = v@;
                self.items.push((k, v));
                proof {
                    lemma_push_fresh(s, kv, vv);
                    assert(self.entries() =~= s.push((kv, vv)));
                }
            },
        }
    }

    /// Puts `v` in the entry at `i`, keeping its key.
    pub fn set_value_at(&mut self, i: usize, v: V)
        requires
            old(self).wf(),
            i < old(self).entries().len(),
        ensures
            final(self).wf(),
            final(self).entries() == old(self).entries().update(
                i as int,
                (old(self).entries()[i as int].0, v@),
            ),
            final(self)@ =~= old(self)@.insert(old(self).entries()[i as int].0, v@),
    {
        let ghost s = self.entries();
        let k = self.items[i].0.copy_key();
        self.items.set(i, (k, v));
        proof {
            lemma_update_value(s, i as int, v@);
            assert(self.entries() =~= s.update(i as int, (s[i as int].0, v@)));
        }
    }
}

} // verus!
