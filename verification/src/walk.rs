//! The order in which the runtime's storage walks the entries under a
//! prefix: by the bytes of their hashed keys, the hash of the encoded key
//! followed by the encoded key itself.

use vstd::prelude::*;
use crate::hashing::{blake2_128, blake2_128_of, le_bytes_u32};
use crate::market::{lemma_lex_irreflexive, lemma_lex_transitive, lex_less, lex_lt};

verus! {

/// The storage key that a `Blake2_128Concat` hasher makes of the encoded
/// key `encoded`: its 16-byte Blake2 hash, then the encoding itself.
pub open spec fn hashed_key(encoded: Seq<u8>) -> Seq<u8> {
    blake2_128_of(encoded) + encoded
}

/// The eight little-endian bytes of `x`.
pub open spec fn le_bytes_u64(x: u64) -> Seq<u8> {
    le_bytes_u32((x % 0x1_0000_0000) as u32) + le_bytes_u32((x / 0x1_0000_0000) as u32)
}

/// The SCALE compact encoding of a length `n` below 2^32.
pub open spec fn compact_len(n: nat) -> Seq<u8> {
    if n < 0x40 {
        seq![(n * 4) as u8]
    } else if n < 0x4000 {
        seq![((n * 4 + 1) % 0x100) as u8, ((n * 4 + 1) / 0x100) as u8]
    } else if n < 0x4000_0000 {
        le_bytes_u32((n * 4 + 2) as u32)
    } else {
        seq![3u8] + le_bytes_u32(n as u32)
    }
}

/// The SCALE encoding of a byte string: its compact length, then its bytes.
pub open spec fn scale_bytes(b: Seq<u8>) -> Seq<u8> {
    compact_len(b.len()) + b
}

/// Computes [`le_bytes_u32`].
pub fn encode_u32(x: u32) -> (r: Vec<u8>)
    ensures
        r@ == le_bytes_u32(x),
{
    let mut r: Vec<u8> = Vec::new();
    r.push((x % 0x100) as u8);
    r.push(((x / 0x100) % 0x100) as u8);
    r.push(((x / 0x1_0000) % 0x100) as u8);
    r.push((x / 0x100_0000) as u8);
    assert(r@ =~= le_bytes_u32(x));
    r
}

/// Computes [`le_bytes_u64`].
pub fn encode_u64(x: u64) -> (r: Vec<u8>)
    ensures
        r@ == le_bytes_u64(x),
{
    let mut r = encode_u32((x % 0x1_0000_0000) as u32);
    let mut high = encode_u32((x / 0x1_0000_0000) as u32);
    r.append(&mut high);
    r
}

/// Computes [`scale_bytes`].
pub fn encode_bytes(b: &Vec<u8>) -> (r: Vec<u8>)
    requires
        b@.len() <= u32::MAX,
    ensures
        r@ == scale_bytes(b@),
{
    let n = b.len() as u32;
    let mut r: Vec<u8> = if n < 0x40 {
        let mut v: Vec<u8> = Vec::new();
        v.push((n * 4) as u8);
        v
    } else if n < 0x4000 {
        let mut v: Vec<u8> = Vec::new();
        v.push(((n * 4 + 1) % 0x100) as u8);
        v.push(((n * 4 + 1) / 0x100) as u8);
        v
    } else if n < 0x4000_0000 {
        encode_u32(n * 4 + 2)
    } else {
        let mut v: Vec<u8> = Vec::new();
        v.push(3u8);
        let mut t = encode_u32(n);
        v.append(&mut t);
        v
    };
    assert(r@ =~= compact_len(b@.len()));
    let mut i: usize = 0;
    let ghost prefix = r@;
    while i < b.len()
        invariant
            i <= b@.len(),
            r@ == prefix + b@.take(i as int),
        decreases b@.len() - i,
    {
        r.push(b[i]);
        assert(b@.take(i + 1) =~= b@.take(i as int).push(b@[i as int]));
        i = i + 1;
    }
    assert(b@.take(b@.len() as int) =~= b@);
    r
}

/// Computes [`hashed_key`].
pub fn hash_key(encoded: Vec<u8>) -> (r: Vec<u8>)
    ensures
        r@ == hashed_key(encoded@),
{
    let mut r = blake2_128(encoded.as_slice());
    let mut e = encoded;
    r.append(&mut e);
    r
}

/// The position of the entry of `s` with the least key, the first such
/// among equal keys.
pub open spec fn least_key_index<T>(s: Seq<(Seq<u8>, T)>) -> int
    decreases s.len(),
{
    if s.len() <= 1 {
        0
    } else {
        let m = least_key_index(s.drop_last());
        if lex_lt(s.last().0, s[m].0) {
            s.len() - 1
        } else {
            m
        }
    }
}

/// The least key of a nonempty list sits at one of its positions, and no
/// key comes before it.
pub proof fn lemma_least_key_index<T>(s: Seq<(Seq<u8>, T)>)
    requires
        s.len() > 0,
    ensures
        0 <= least_key_index(s) < s.len(),
        forall|j: int| 0 <= j < s.len() ==> !lex_lt(#[trigger] s[j].0, s[least_key_index(s)].0),
    decreases s.len(),
{
    if s.len() == 1 {
        lemma_lex_irreflexive(s[0].0);
    } else {
        let p = s.drop_last();
        lemma_least_key_index(p);
        let m = least_key_index(p);
        let k = least_key_index(s);
        assert forall|j: int| 0 <= j < s.len() implies !lex_lt(#[trigger] s[j].0, s[k].0) by {
            if j < s.len() - 1 {
                assert(p[j] == s[j]);
                if k == s.len() - 1 && lex_lt(s[j].0, s[k].0) {
                    lemma_lex_transitive(s[j].0, s[k].0, s[m].0);
                }
            } else if k == s.len() - 1 {
                lemma_lex_irreflexive(s[j].0);
            }
        }
    }
}

/// The entries of `s` in the order a storage walk yields them: by their
/// keys, least first.
pub open spec fn key_order<T>(s: Seq<(Seq<u8>, T)>) -> Seq<(Seq<u8>, T)>
    decreases s.len(),
{
    if s.len() == 0 {
        Seq::empty()
    } else {
        let m = least_key_index(s);
        proof {
            lemma_least_key_index(s);
        }
        seq![s[m]] + key_order(s.remove(m))
    }
}

/// The values of a list of keyed entries.
pub open spec fn key_values<T>(s: Seq<(Seq<u8>, T)>) -> Seq<T> {
    s.map_values(|x: (Seq<u8>, T)| x.1)
}

/// A list of entries with byte-string keys as mathematical values.
pub open spec fn keyed_view<T>(v: Seq<(Vec<u8>, T)>) -> Seq<(Seq<u8>, T)> {
    v.map_values(|x: (Vec<u8>, T)| (x.0@, x.1))
}

/// The sum of `f` over the values of a list of keyed entries.
pub open spec fn value_sum<T>(s: Seq<(Seq<u8>, T)>, f: spec_fn(T) -> int) -> int
    decreases s.len(),
{
    if s.len() == 0 {
        0
    } else {
        value_sum(s.drop_last(), f) + f(s.last().1)
    }
}

/// Taking an entry out of a list takes its value out of the sum.
proof fn lemma_value_sum_remove<T>(s: Seq<(Seq<u8>, T)>, f: spec_fn(T) -> int, m: int)
    requires
        0 <= m < s.len(),
    ensures
        value_sum(s, f) == value_sum(s.remove(m), f) + f(s[m].1),
    decreases s.len(),
{
    if m == s.len() - 1 {
        assert(s.remove(m) =~= s.drop_last());
    } else {
        lemma_value_sum_remove(s.drop_last(), f, m);
        assert(s.drop_last().remove(m) =~= s.remove(m).drop_last());
        assert(s.remove(m).last() == s.last());
    }
}

/// Walking the entries in key order does not change what their values sum
/// to.
pub proof fn lemma_key_order_sum<T>(s: Seq<(Seq<u8>, T)>, f: spec_fn(T) -> int)
    ensures
        value_sum(key_order(s), f) == value_sum(s, f),
    decreases s.len(),
{
    if s.len() > 0 {
        let m = least_key_index(s);
        lemma_least_key_index(s);
        lemma_key_order_sum(s.remove(m), f);
        lemma_value_sum_prepend(s[m], key_order(s.remove(m)), f);
        lemma_value_sum_remove(s, f, m);
    }
}

/// The sum of a list with an entry put in front.
proof fn lemma_value_sum_prepend<T>(x: (Seq<u8>, T), s: Seq<(Seq<u8>, T)>, f: spec_fn(T) -> int)
    ensures
        value_sum(seq![x] + s, f) == f(x.1) + value_sum(s, f),
    decreases s.len(),
{
    let t = seq![x] + s;
    if s.len() > 0 {
        lemma_value_sum_prepend(x, s.drop_last(), f);
        assert(t.drop_last() =~= seq![x] + s.drop_last());
        assert(t.last() == s.last());
    } else {
        assert(t.drop_last() =~= Seq::<(Seq<u8>, T)>::empty());
        assert(t.last() == x);
        assert(value_sum(t.drop_last(), f) == 0);
    }
}

/// Sorts `v` into [`key_order`].
pub fn sort_by_key<T: Copy>(v: Vec<(Vec<u8>, T)>) -> (r: Vec<(Vec<u8>, T)>)
    ensures
        keyed_view(r@) == key_order(keyed_view(v@)),
{
    let ghost whole = keyed_view(v@);
    let mut rest = v;
    let mut out: Vec<(Vec<u8>, T)> = Vec::new();
    while rest.len() > 0
        invariant
            keyed_view(out@) + key_order(keyed_view(rest@)) == key_order(whole),
        decreases rest@.len(),
    {
        let ghost rv = keyed_view(rest@);
        let mut m: usize = 0;
        let mut j: usize = 1;
        proof {
            assert(rv.take(1).len() == 1);
        }
        while j < rest.len()
            invariant
                rv == keyed_view(rest@),
                rv.len() > 0,
                1 <= j <= rest@.len(),
                m == least_key_index(rv.take(j as int)),
            decreases rest@.len() - j,
        {
            proof {
                lemma_least_key_index(rv.take(j as int));
                assert(rv.take(j + 1).drop_last() =~= rv.take(j as int));
            }
            if lex_less(&rest[j].0, &rest[m].0) {
                m = j;
            }
            j = j + 1;
        }
        assert(rv.take(j as int) =~= rv);
        proof {
            lemma_least_key_index(rv);
        }
        let entry = rest.remove(m);
        let ghost before = keyed_view(out@);
        out.push(entry);
        proof {
            assert(keyed_view(rest@) =~= rv.remove(m as int));
            assert(keyed_view(out@) =~= before.push(rv[m as int]));
            assert(key_order(rv) == seq![rv[m as int]] + key_order(rv.remove(m as int)));
            assert(before + key_order(rv) =~= before.push(rv[m as int]) + key_order(rv.remove(m as int)));
        }
    }
    assert(key_order(keyed_view(rest@)) =~= Seq::<(Seq<u8>, T)>::empty());
    assert(keyed_view(out@) + Seq::<(Seq<u8>, T)>::empty() =~= keyed_view(out@));
    out
}

/// The key under which the runtime stores the entry of id `f` of a block
/// index: the hashed little-endian bytes of the id.
pub open spec fn id_key(f: u32) -> Seq<u8> {
    hashed_key(le_bytes_u32(f))
}

/// The ids `ids` of a block index in the order in which the runtime walks
/// them: by their keys.
pub open spec fn id_walk(ids: Seq<u32>) -> Seq<u32> {
    key_values(key_order(ids.map_values(|f: u32| (id_key(f), f))))
}

/// Computes [`id_walk`].
pub fn walk_ids(ids: &Vec<u32>) -> (r: Vec<u32>)
    ensures
        r@ == id_walk(ids@),
{
    let mut keyed: Vec<(Vec<u8>, u32)> = Vec::new();
    let n = ids.len();
    let mut i: usize = 0;
    while i < n
        invariant
            n == ids@.len(),
            i <= n,
            keyed_view(keyed@) == ids@.take(i as int).map_values(|f: u32| (id_key(f), f)),
        decreases n - i,
    {
        let f = ids[i];
        let k = hash_key(encode_u32(f));
        let ghost before = keyed_view(keyed@);
        keyed.push((k, f));
        assert(keyed_view(keyed@) =~= before.push((id_key(f), f)));
        assert(ids@.take(i + 1).map_values(|f: u32| (id_key(f), f)) =~= ids@.take(i as int).map_values(
            |f: u32| (id_key(f), f),
        ).push((id_key(f), f)));
        i = i + 1;
    }
    assert(ids@.take(n as int) =~= ids@);
    let sorted = sort_by_key(keyed);
    let mut r: Vec<u32> = Vec::new();
    let m = sorted.len();
    let mut t: usize = 0;
    while t < m
        invariant
            m == sorted@.len(),
            t <= m,
            r@ == key_values(keyed_view(sorted@)).take(t as int),
        decreases m - t,
    {
        r.push(sorted[t].1);
        assert(key_values(keyed_view(sorted@)).take(t + 1) =~= key_values(keyed_view(sorted@)).take(t as int).push(
            sorted@[t as int].1,
        ));
        t = t + 1;
    }
    assert(key_values(keyed_view(sorted@)).take(m as int) =~= key_values(keyed_view(sorted@)));
    r
}

} // verus!
