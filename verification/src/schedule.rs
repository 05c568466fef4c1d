//! Time indexes: the blocks at which festivals start, end or expire, as
//! tables keyed by block and festival.

use vstd::prelude::*;
use crate::table::{Table, keys_distinct};

verus! {

/// A time index: block and festival, in the order they were indexed.
pub type TimeIndex = Seq<((u64, u32), ())>;

/// The festivals that an index holds for block `b`, in order.
pub open spec fn ids_at(s: TimeIndex, b: u64) -> Seq<u32>
    decreases s.len(),
{
    if s.len() == 0 {
        Seq::empty()
    } else {
        let p = ids_at(s.drop_last(), b);
        if s.last().0.0 == b {
            p.push(s.last().0.1)
        } else {
            p
        }
    }
}

/// The index without its entries for block `b`.
pub open spec fn without_block(s: TimeIndex, b: u64) -> TimeIndex
    decreases s.len(),
{
    if s.len() == 0 {
        Seq::empty()
    } else {
        let p = without_block(s.drop_last(), b);
        if s.last().0.0 == b {
            p
        } else {
            p.push(s.last())
        }
    }
}

/// Every festival held for a block comes from an entry of the index.
pub proof fn lemma_ids_at_entries(s: TimeIndex, b: u64)
    ensures
        forall|k: int| #![trigger ids_at(s, b)[k]] 0 <= k < ids_at(s, b).len() ==> exists|j: int| #![trigger s[j]] 0 <= j < s.len() && s[j].0 == (b, ids_at(s, b)[k]),
        forall|j: int| 0 <= j < s.len() && s[j].0.0 == b ==> ids_at(s, b).contains(#[trigger] s[j].0.1),
    decreases s.len(),
{
    if s.len() > 0 {
        let p = s.drop_last();
        lemma_ids_at_entries(p, b);
        let ip = ids_at(p, b);
        let is = ids_at(s, b);
        assert forall|k: int| #![trigger is[k]] 0 <= k < is.len() implies exists|j: int| #![trigger s[j]] 0 <= j < s.len() && s[j].0 == (b, is[k]) by {
            if k < ip.len() {
                assert(is[k] == ip[k]);
                let j = choose|j: int| #![trigger p[j]] 0 <= j < p.len() && p[j].0 == (b, ip[k]);
                assert(s[j] == p[j]);
            } else {
                assert(s[s.len() - 1].0 == (b, is[k]));
            }
        }
        assert forall|j: int| 0 <= j < s.len() && s[j].0.0 == b implies is.contains(#[trigger] s[j].0.1) by {
            if j < p.len() {
                assert(s[j] == p[j]);
                assert(ip.contains(p[j].0.1));
                let k = choose|k: int| 0 <= k < ip.len() && ip[k] == p[j].0.1;
                assert(is[k] == ip[k]);
            } else {
                assert(is[is.len() - 1] == s[j].0.1);
            }
        }
    }
}

/// The entries left after removing a block are entries of the index, and
/// exactly those not for that block.
pub proof fn lemma_without_block_entries(s: TimeIndex, b: u64)
    ensures
        forall|k: int| #![trigger without_block(s, b)[k]] 0 <= k < without_block(s, b).len() ==> exists|j: int| #![trigger s[j]] 0 <= j < s.len() && s[j] == without_block(s, b)[k],
        forall|k: int| 0 <= k < without_block(s, b).len() ==> (#[trigger] without_block(s, b)[k]).0.0 != b,
        forall|j: int| 0 <= j < s.len() && s[j].0.0 != b ==> without_block(s, b).contains(#[trigger] s[j]),
    decreases s.len(),
{
    if s.len() > 0 {
        let p = s.drop_last();
        lemma_without_block_entries(p, b);
        let wp = without_block(p, b);
        let ws = without_block(s, b);
        assert forall|k: int| #![trigger ws[k]] 0 <= k < ws.len() implies exists|j: int| #![trigger s[j]] 0 <= j < s.len() && s[j] == ws[k] by {
            if k < wp.len() {
                assert(ws[k] == wp[k]);
                let j = choose|j: int| #![trigger p[j]] 0 <= j < p.len() && p[j] == wp[k];
                assert(s[j] == p[j]);
            } else {
                assert(s[s.len() - 1] == ws[k]);
            }
        }
        assert forall|k: int| 0 <= k < ws.len() implies (#[trigger] ws[k]).0.0 != b by {
            if k < wp.len() {
                assert(ws[k] == wp[k]);
            }
        }
        assert forall|j: int| 0 <= j < s.len() && s[j].0.0 != b implies ws.contains(#[trigger] s[j]) by {
            if j < p.len() {
                assert(s[j] == p[j]);
                assert(wp.contains(p[j]));
                let k = choose|k: int| 0 <= k < wp.len() && wp[k] == p[j];
                assert(ws[k] == wp[k]);
            } else {
                assert(ws[ws.len() - 1] == s[j]);
            }
        }
    }
}

/// The festivals indexed for block `b`, in index order.
pub fn ids_at_block(idx: &Table<(u64, u32), ()>, b: u64) -> (r: Vec<u32>)
    ensures
        r@ == ids_at(idx.entries(), b),
{
    let ghost s = idx.entries();
    let mut r: Vec<u32> = Vec::new();
    let n = idx.len();
    let mut i: usize = 0;
    while i < n
        invariant
            n == s.len(),
            s == idx.entries(),
            i <= n,
            r@ == ids_at(s.take(i as int), b),
        decreases n - i,
    {
        proof {
            assert(s.take(i + 1).drop_last() =~= s.take(i as int));
            assert(s.take(i + 1).last() == s[i as int]);
        }
        let key = idx.key_at(i);
        if key.0 == b {
            r.push(key.1);
        }
        i = i + 1;
    }
    assert(s.take(n as int) =~= s);
    r
}

/// The index without its entries for block `b`.
pub fn remove_block(idx: &Table<(u64, u32), ()>, b: u64) -> (r: Table<(u64, u32), ()>)
    requires
        idx.wf(),
    ensures
        r.wf(),
        r.entries() == without_block(idx.entries(), b),
{
    let ghost s = idx.entries();
    let mut r: Table<(u64, u32), ()> = Table::new();
    let n = idx.len();
    let mut i: usize = 0;
    while i < n
        invariant
            n == s.len(),
            s == idx.entries(),
            keys_distinct(s),
            i <= n,
            r.wf(),
            r.entries() == without_block(s.take(i as int), b),
        decreases n - i,
    {
        proof {
            assert(s.take(i + 1).drop_last() =~= s.take(i as int));
            assert(s.take(i + 1).last() == s[i as int]);
        }
        let key = idx.key_at(i);
        if key.0 != b {
            let k = (key.0, key.1);
            proof {
                lemma_without_block_entries(s.take(i as int), b);
                if r@.dom().contains(k) {
                    let rs = r.entries();
                    let t = choose|t: int| 0 <= t < rs.len() && rs[t].0 == k;
                    let j = choose|j: int| #![trigger s.take(i as int)[j]] 0 <= j < i && s.take(i as int)[j] == rs[t];
                    assert(s[j].0 == s[i as int].0);
                }
                assert(s[i as int] == (k, ()));
            }
            r.insert(k, ());
        }
        i = i + 1;
    }
    assert(s.take(n as int) =~= s);
    r
}

} // verus!
