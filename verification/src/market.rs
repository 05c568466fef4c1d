//! The prediction market that settles a festival: stakes placed on movies
//! are totalled per movie, the movies with the largest total win, and the
//! stakes on winning movies share the festival's lockup.

use vstd::prelude::*;
use crate::table::{Table, bytes_eq, copy_bytes, lemma_entry_in_map};

verus! {

/// Lexicographic order on byte strings, the order of `Vec<u8>` in Rust: a
/// proper prefix comes first.
pub open spec fn lex_lt(a: Seq<u8>, b: Seq<u8>) -> bool
    decreases a.len(),
{
    if b.len() == 0 {
        false
    } else if a.len() == 0 {
        true
    } else if a[0] < b[0] {
        true
    } else if a[0] > b[0] {
        false
    } else {
        lex_lt(a.drop_first(), b.drop_first())
    }
}

/// No byte string comes before itself.
pub proof fn lemma_lex_irreflexive(a: Seq<u8>)
    ensures
        !lex_lt(a, a),
    decreases a.len(),
{
    if a.len() > 0 {
        lemma_lex_irreflexive(a.drop_first());
    }
}

/// The lexicographic order is transitive.
pub proof fn lemma_lex_transitive(a: Seq<u8>, b: Seq<u8>, c: Seq<u8>)
    requires
        lex_lt(a, b),
        lex_lt(b, c),
    ensures
        lex_lt(a, c),
    decreases a.len(),
{
    if a.len() > 0 && a[0] == b[0] && b[0] == c[0] {
        lemma_lex_transitive(a.drop_first(), b.drop_first(), c.drop_first());
    }
}

/// Two different byte strings are ordered one way or the other.
pub proof fn lemma_lex_total(a: Seq<u8>, b: Seq<u8>)
    requires
        a != b,
    ensures
        lex_lt(a, b) || lex_lt(b, a),
    decreases a.len(),
{
    if a.len() == 0 && b.len() == 0 {
        assert(a =~= b);
    } else if a.len() > 0 && b.len() > 0 && a[0] == b[0] {
        if a.drop_first() == b.drop_first() {
            assert(a.drop_first().len() == b.drop_first().len());
            assert forall|i: int| 0 <= i < a.len() implies a[i] == b[i] by {
                if i > 0 {
                    assert(a[i] == a.drop_first()[i - 1]);
                    assert(b[i] == b.drop_first()[i - 1]);
                }
            }
            assert(a =~= b);
        } else {
            lemma_lex_total(a.drop_first(), b.drop_first());
        }
    }
}

/// A common prefix does not change how two byte strings compare.
proof fn lemma_lex_skip(a: Seq<u8>, b: Seq<u8>, i: int)
    requires
        0 <= i <= a.len(),
        i <= b.len(),
        forall|j: int| 0 <= j < i ==> a[j] == b[j],
    ensures
        lex_lt(a, b) == lex_lt(a.skip(i), b.skip(i)),
    decreases i,
{
    if i == 0 {
        assert(a.skip(0) =~= a);
        assert(b.skip(0) =~= b);
    } else {
        assert(a[0] == b[0]);
        lemma_lex_skip(a.drop_first(), b.drop_first(), i - 1);
        assert(a.drop_first().skip(i - 1) =~= a.skip(i));
        assert(b.drop_first().skip(i - 1) =~= b.skip(i));
    }
}

/// Whether `a` comes before `b` in the order of `Vec<u8>`.
pub fn lex_less(a: &Vec<u8>, b: &Vec<u8>) -> (r: bool)
    ensures
        r == lex_lt(a@, b@),
{
    let mut i: usize = 0;
    while i < a.len() && i < b.len()
        invariant
            i <= a@.len(),
            i <= b@.len(),
            forall|j: int| 0 <= j < i ==> a@[j] == b@[j],
        decreases a@.len() - i,
    {
        if a[i] != b[i] {
            proof {
                lemma_lex_skip(a@, b@, i as int);
                assert(a@.skip(i as int)[0] == a@[i as int]);
                assert(b@.skip(i as int)[0] == b@[i as int]);
            }
            return a[i] < b[i];
        }
        i = i + 1;
    }
    proof {
        lemma_lex_skip(a@, b@, i as int);
    }
    i == a.len() && i < b.len()
}

/// The byte strings of a list of byte vectors.
pub open spec fn byte_strings(v: Seq<Vec<u8>>) -> Seq<Seq<u8>> {
    v.map_values(|x: Vec<u8>| x@)
}

/// The stakes of a list, each movie taken by its bytes.
pub open spec fn stake_view(v: Seq<(Vec<u8>, u128)>) -> Seq<(Seq<u8>, u128)> {
    v.map_values(|x: (Vec<u8>, u128)| (x.0@, x.1))
}

/// The sum of all stakes.
pub open spec fn stake_sum(s: Seq<(Seq<u8>, u128)>) -> int
    decreases s.len(),
{
    if s.len() == 0 {
        0
    } else {
        stake_sum(s.drop_last()) + s.last().1
    }
}

/// The total staked on each movie that received a stake.
pub open spec fn stake_totals(s: Seq<(Seq<u8>, u128)>) -> Map<Seq<u8>, int>
    decreases s.len(),
{
    if s.len() == 0 {
        Map::empty()
    } else {
        let p = stake_totals(s.drop_last());
        let e = s.last();
        p.insert(
            e.0,
            (if p.dom().contains(e.0) {
                p[e.0]
            } else {
                0
            }) + e.1,
        )
    }
}

/// The winning movies: those with a total no other movie exceeds.
pub open spec fn winning_set(s: Seq<(Seq<u8>, u128)>) -> Set<Seq<u8>> {
    Set::new(
        |m: Seq<u8>|
            stake_totals(s).dom().contains(m) && forall|m2: Seq<u8>| #[trigger]
                stake_totals(s).dom().contains(m2) ==> stake_totals(s)[m2] <= stake_totals(s)[m],
    )
}

/// The sum of the stakes placed on movies of `w`.
pub open spec fn stake_on(s: Seq<(Seq<u8>, u128)>, w: Set<Seq<u8>>) -> int
    decreases s.len(),
{
    if s.len() == 0 {
        0
    } else {
        stake_on(s.drop_last(), w) + (if w.contains(s.last().0) {
            s.last().1 as int
        } else {
            0
        })
    }
}

/// Whether `r` is the list of winners in the order the market reports them:
/// every winner once, the last in byte order first, then the others in
/// increasing byte order.
pub open spec fn is_winner_list(r: Seq<Seq<u8>>, w: Set<Seq<u8>>) -> bool {
    &&& r.len() > 0
    &&& forall|i: int| 0 <= i < r.len() ==> w.contains(#[trigger] r[i])
    &&& forall|m: Seq<u8>| w.contains(m) ==> r.contains(m)
    &&& forall|i: int| 1 <= i < r.len() ==> lex_lt(#[trigger] r[i], r[0])
    &&& forall|i: int, j: int| 1 <= i < j < r.len() ==> lex_lt(#[trigger] r[i], #[trigger] r[j])
}

/// Sums and totals only grow along a list of stakes.
pub proof fn lemma_stake_bounds(s: Seq<(Seq<u8>, u128)>, w: Set<Seq<u8>>)
    ensures
        stake_sum(s) >= 0,
        0 <= stake_on(s, w) <= stake_sum(s),
        forall|m: Seq<u8>| #[trigger]
            stake_totals(s).dom().contains(m) ==> 0 <= stake_totals(s)[m] <= stake_sum(s),
    decreases s.len(),
{
    if s.len() > 0 {
        let p = s.drop_last();
        lemma_stake_bounds(p, w);
        assert forall|m: Seq<u8>| #[trigger]
            stake_totals(s).dom().contains(m) implies 0 <= stake_totals(s)[m] <= stake_sum(s) by {
            if m != s.last().0 {
                assert(stake_totals(p).dom().contains(m));
            } else if stake_totals(p).dom().contains(m) {
                assert(stake_totals(p)[m] <= stake_sum(p));
            }
        }
    }
}

/// A prefix of a list of stakes sums to no more than the list.
pub proof fn lemma_stake_sum_prefix(s: Seq<(Seq<u8>, u128)>, i: int)
    requires
        0 <= i <= s.len(),
    ensures
        stake_sum(s.take(i)) <= stake_sum(s),
    decreases s.len() - i,
{
    if i < s.len() {
        lemma_stake_sum_prefix(s, i + 1);
        assert(s.take(i + 1).drop_last() =~= s.take(i));
        lemma_stake_bounds(s.take(i), Set::empty());
    } else {
        assert(s.take(i) =~= s);
    }
}

/// Whether `m` is one of the byte strings of `list`.
pub fn contains_bytes(list: &Vec<Vec<u8>>, m: &Vec<u8>) -> (r: bool)
    ensures
        r == byte_strings(list@).contains(m@),
{
    let n = list.len();
    let mut i: usize = 0;
    while i < n
        invariant
            n == list@.len(),
            i <= n,
            forall|j: int| 0 <= j < i ==> list@[j]@ != m@,
        decreases n - i,
    {
        if bytes_eq(&list[i], m) {
            assert(byte_strings(list@)[i as int] == m@);
            return true;
        }
        i = i + 1;
    }
    proof {
        if byte_strings(list@).contains(m@) {
            let j = choose|j: int| 0 <= j < byte_strings(list@).len() && byte_strings(list@)[j] == m@;
            assert(list@[j]@ == m@);
        }
    }
    false
}

/// The total staked on each movie, in a table.
fn accumulate(stakes: &Vec<(Vec<u8>, u128)>) -> (acc: Table<Vec<u8>, u128>)
    requires
        stake_sum(stake_view(stakes@)) <= u128::MAX,
    ensures
        acc.wf(),
        acc@.dom() =~= stake_totals(stake_view(stakes@)).dom(),
        forall|m: Seq<u8>| #[trigger]
            acc@.dom().contains(m) ==> acc@[m] == stake_totals(stake_view(stakes@))[m],
{
    let ghost s = stake_view(stakes@);
    let mut acc: Table<Vec<u8>, u128> = Table::new();
    let n = stakes.len();
    let mut i: usize = 0;
    while i < n
        invariant
            n == stakes@.len(),
            s == stake_view(stakes@),
            stake_sum(s) <= u128::MAX,
            i <= n,
            acc.wf(),
            acc@.dom() =~= stake_totals(s.take(i as int)).dom(),
            forall|m: Seq<u8>| #[trigger]
                acc@.dom().contains(m) ==> acc@[m] == stake_totals(s.take(i as int))[m],
        decreases n - i,
    {
        let ghost p = s.take(i as int);
        let ghost q = s.take(i + 1);
        proof {
            assert(q.drop_last() =~= p);
            assert(q.last() == s[i as int]);
            lemma_stake_sum_prefix(s, i + 1);
            lemma_stake_bounds(q, Set::empty());
        }
        let movie = &stakes[i].0;
        let amount = stakes[i].1;
        assert(s[i as int] == (movie@, amount));
        match acc.find(movie) {
            Some(j) => {
                let cur = *acc.value_at(j);
                assert(stake_totals(q).dom().contains(movie@));
                let next = cur + amount;
                acc.set_value_at(j, next);
            },
            None => {
                let key = copy_bytes(movie);
                acc.insert(key, amount);
            },
        }
        i = i + 1;
    }
    assert(s.take(n as int) =~= s);
    acc
}

/// Whether `m` is the key of one of the first `i` entries, with total `best`.
spec fn top_among(es: Seq<(Seq<u8>, u128)>, i: int, best: u128, m: Seq<u8>) -> bool {
    exists|j: int| 0 <= j < i && es[j].0 == m && es[j].1 == best
}

/// The winning movies of a list of stakes, as the market reports them.
///
/// The list holds every movie whose total stake no other movie exceeds,
/// each once: first the one that comes last in byte order, then the others
/// in increasing byte order.
pub fn get_winning_options(stakes: &Vec<(Vec<u8>, u128)>) -> (r: Vec<Vec<u8>>)
    requires
        stakes@.len() > 0,
        stake_sum(stake_view(stakes@)) <= u128::MAX,
    ensures
        is_winner_list(byte_strings(r@), winning_set(stake_view(stakes@))),
{
    let ghost s = stake_view(stakes@);
    let ghost w = winning_set(s);
    let acc = accumulate(stakes);
    let ghost es = acc.entries();
    proof {
        assert(s.len() > 0);
        assert(stake_totals(s).dom().contains(s.last().0));
        assert(acc@.dom().contains(s.last().0));
    }
    assert(es.len() > 0);
    // The largest total.
    let n = acc.len();
    let mut best: u128 = *acc.value_at(0);
    let mut i: usize = 1;
    while i < n
        invariant
            n == es.len(),
            es == acc.entries(),
            1 <= i <= n,
            exists|j: int| 0 <= j < i && es[j].1 == best,
            forall|j: int| 0 <= j < i ==> es[j].1 <= best,
        decreases n - i,
    {
        let v = *acc.value_at(i);
        if v > best {
            best = v;
        }
        i = i + 1;
    }
    proof {
        assert forall|m: Seq<u8>| acc@.dom().contains(m) implies acc@[m] <= best by {
            let j = choose|j: int| 0 <= j < es.len() && es[j].0 == m;
            lemma_entry_in_map(es, j);
        }
    }
    // The movies with the largest total, in table order.
    let mut tops: Vec<Vec<u8>> = Vec::new();
    let mut i: usize = 0;
    while i < n
        invariant
            n == es.len(),
            es == acc.entries(),
            acc.wf(),
            i <= n,
            forall|m: Seq<u8>| acc@.dom().contains(m) ==> acc@[m] <= best,
            forall|k: int| 0 <= k < tops@.len() ==> top_among(es, i as int, best, #[trigger] tops@[k]@),
            forall|j: int| 0 <= j < i && es[j].1 == best ==> byte_strings(tops@).contains(#[trigger] es[j].0),
            forall|a: int, b: int| 0 <= a < b < tops@.len() ==> tops@[a]@ != tops@[b]@,
        decreases n - i,
    {
        let ghost old_tops = tops@;
        if *acc.value_at(i) == best {
            let key = copy_bytes(acc.key_at(i));
            tops.push(key);
            proof {
                assert(tops@[old_tops.len() as int]@ == es[i as int].0);
                assert forall|a: int, b: int| 0 <= a < b < tops@.len() implies tops@[a]@ != tops@[b]@ by {
                    if b == old_tops.len() {
                        let j = choose|j: int| 0 <= j < i && #[trigger] tops@[a]@ == es[j].0;
                        assert(j != i);
                    } else {
                        assert(tops@[a] == old_tops[a] && tops@[b] == old_tops[b]);
                    }
                }
                assert forall|k: int| 0 <= k < tops@.len() implies top_among(es, i + 1, best, #[trigger] tops@[k]@) by {
                    if k < old_tops.len() {
                        assert(tops@[k] == old_tops[k]);
                        assert(top_among(es, i as int, best, old_tops[k]@));
                    } else {
                        assert(tops@[k]@ == es[i as int].0 && es[i as int].1 == best);
                    }
                }
                assert forall|j: int| 0 <= j < i + 1 && es[j].1 == best implies byte_strings(tops@).contains(#[trigger] es[j].0) by {
                    if j < i {
                        let k = choose|k: int| 0 <= k < old_tops.len() && byte_strings(old_tops)[k] == es[j].0;
                        assert(byte_strings(tops@)[k] == es[j].0);
                    } else {
                        assert(byte_strings(tops@)[old_tops.len() as int] == es[j].0);
                    }
                }
            }
        } else {
            proof {
                assert forall|k: int| 0 <= k < tops@.len() implies top_among(es, i + 1, best, #[trigger] tops@[k]@) by {
                    assert(top_among(es, i as int, best, tops@[k]@));
                }
            }
        }
        i = i + 1;
    }
    // `tops` holds exactly the winners.
    let ghost top0 = es[choose|j: int| 0 <= j < es.len() && es[j].1 == best].0;
    proof {
        assert forall|m: Seq<u8>| w.contains(m) == byte_strings(tops@).contains(m) by {
            if w.contains(m) {
                assert(acc@.dom().contains(m));
                let j = choose|j: int| 0 <= j < es.len() && es[j].0 == m;
                lemma_entry_in_map(es, j);
                let j0 = choose|j: int| 0 <= j < es.len() && es[j].1 == best;
                lemma_entry_in_map(es, j0);
                assert(acc@[es[j0].0] == best);
                assert(stake_totals(s)[es[j0].0] <= stake_totals(s)[m]);
            }
            if byte_strings(tops@).contains(m) {
                let k = choose|k: int| 0 <= k < tops@.len() && byte_strings(tops@)[k] == m;
                assert(tops@[k]@ == m);
                assert(top_among(es, n as int, best, tops@[k]@));
                let j = choose|j: int| 0 <= j < n && es[j].0 == m && es[j].1 == best;
                lemma_entry_in_map(es, j);
                assert forall|m2: Seq<u8>| #[trigger] stake_totals(s).dom().contains(m2) implies stake_totals(s)[m2] <= stake_totals(s)[m] by {
                    assert(acc@.dom().contains(m2));
                }
            }
        }
    }
    // Selection sort into increasing byte order.
    let mut rest = tops;
    let mut sorted: Vec<Vec<u8>> = Vec::new();
    while rest.len() > 0
        invariant
            forall|a: int, b: int| 0 <= a < b < rest@.len() ==> rest@[a]@ != rest@[b]@,
            forall|a: int, b: int| 0 <= a < b < sorted@.len() ==> lex_lt(#[trigger] sorted@[a]@, #[trigger] sorted@[b]@),
            forall|a: int, b: int| 0 <= a < sorted@.len() && 0 <= b < rest@.len() ==> lex_lt(#[trigger] sorted@[a]@, #[trigger] rest@[b]@),
            forall|m: Seq<u8>| w.contains(m) == (byte_strings(sorted@).contains(m) || byte_strings(rest@).contains(m)),
        decreases rest@.len(),
    {
        let len = rest.len();
        let mut k: usize = 0;
        let mut j: usize = 1;
        while j < len
            invariant
                len == rest@.len(),
                forall|a: int, b: int| 0 <= a < b < rest@.len() ==> rest@[a]@ != rest@[b]@,
                k < j <= len,
                forall|t: int| 0 <= t < j && t != k ==> lex_lt(rest@[k as int]@, #[trigger] rest@[t]@),
            decreases len - j,
        {
            if lex_less(&rest[j], &rest[k]) {
                proof {
                    assert forall|t: int| 0 <= t < j + 1 && t != j implies lex_lt(rest@[j as int]@, #[trigger] rest@[t]@) by {
                        if t != k {
                            lemma_lex_transitive(rest@[j as int]@, rest@[k as int]@, rest@[t]@);
                        }
                    }
                }
                k = j;
            } else {
                proof {
                    lemma_lex_total(rest@[j as int]@, rest@[k as int]@);
                }
            }
            j = j + 1;
        }
        let ghost old_rest = rest@;
        let ghost old_sorted = sorted@;
        let m = rest.remove(k);
        proof {
            assert forall|t: int| 0 <= t < rest@.len() implies #[trigger] rest@[t] == old_rest[if t < k {
                t
            } else {
                t + 1
            }] by {}
        }
        sorted.push(m);
        proof {
            assert(sorted@[old_sorted.len() as int] == old_rest[k as int]);
            assert forall|a: int, b: int| 0 <= a < b < rest@.len() implies rest@[a]@ != rest@[b]@ by {
                let a2 = if a < k { a } else { a + 1 };
                let b2 = if b < k { b } else { b + 1 };
                assert(rest@[a] == old_rest[a2]);
                assert(rest@[b] == old_rest[b2]);
            }
            assert forall|a: int, b: int| 0 <= a < b < sorted@.len() implies lex_lt(#[trigger] sorted@[a]@, #[trigger] sorted@[b]@) by {
                if b == old_sorted.len() {
                    assert(sorted@[a] == old_sorted[a]);
                } else {
                    assert(sorted@[a] == old_sorted[a] && sorted@[b] == old_sorted[b]);
                }
            }
            assert forall|a: int, b: int| 0 <= a < sorted@.len() && 0 <= b < rest@.len() implies lex_lt(#[trigger] sorted@[a]@, #[trigger] rest@[b]@) by {
                let b2 = if b < k { b } else { b + 1 };
                assert(rest@[b] == old_rest[b2]);
                if a < old_sorted.len() {
                    assert(sorted@[a] == old_sorted[a]);
                } else {
                    assert(b2 != k);
                }
            }
            assert forall|x: Seq<u8>| w.contains(x) == (byte_strings(sorted@).contains(x) || byte_strings(rest@).contains(x)) by {
                if byte_strings(old_sorted).contains(x) {
                    let t = choose|t: int| 0 <= t < old_sorted.len() && byte_strings(old_sorted)[t] == x;
                    assert(byte_strings(sorted@)[t] == x);
                }
                if byte_strings(old_rest).contains(x) {
                    let t = choose|t: int| 0 <= t < old_rest.len() && byte_strings(old_rest)[t] == x;
                    if t == k {
                        assert(byte_strings(sorted@)[old_sorted.len() as int] == x);
                    } else {
                        let t2 = if t < k { t } else { t - 1 };
                        assert(rest@[t2] == old_rest[t]);
                        assert(byte_strings(rest@)[t2] == x);
                    }
                }
                if byte_strings(sorted@).contains(x) {
                    let t = choose|t: int| 0 <= t < sorted@.len() && byte_strings(sorted@)[t] == x;
                    if t < old_sorted.len() {
                        assert(sorted@[t] == old_sorted[t]);
                        assert(byte_strings(old_sorted)[t] == x);
                    } else {
                        assert(byte_strings(old_rest)[k as int] == x);
                    }
                }
                if byte_strings(rest@).contains(x) {
                    let t = choose|t: int| 0 <= t < rest@.len() && byte_strings(rest@)[t] == x;
                    let t2 = if t < k { t } else { t + 1 };
                    assert(rest@[t] == old_rest[t2]);
                    assert(byte_strings(old_rest)[t2] == x);
                }
            }
        }
    }
    // The last in byte order first, then the others in increasing order.
    proof {
        let j0 = choose|j: int| 0 <= j < es.len() && es[j].1 == best;
        assert(byte_strings(tops@).contains(es[j0].0) ==> w.contains(top0));
        assert(byte_strings(sorted@).contains(top0));
    }
    let last = sorted.len() - 1;
    let mut r: Vec<Vec<u8>> = Vec::new();
    r.push(copy_bytes(&sorted[last]));
    let mut i: usize = 0;
    while i < last
        invariant
            last + 1 == sorted@.len(),
            i <= last,
            r@.len() == i + 1,
            r@[0]@ == sorted@[last as int]@,
            forall|t: int| 1 <= t < r@.len() ==> #[trigger] r@[t]@ == sorted@[t - 1]@,
        decreases last - i,
    {
        r.push(copy_bytes(&sorted[i]));
        i = i + 1;
    }
    proof {
        let rb = byte_strings(r@);
        assert forall|t: int| 0 <= t < rb.len() implies w.contains(#[trigger] rb[t]) by {
            let t2 = if t == 0 { last as int } else { t - 1 };
            assert(rb[t] == sorted@[t2]@);
            assert(byte_strings(sorted@)[t2] == rb[t]);
        }
        assert forall|x: Seq<u8>| w.contains(x) implies rb.contains(x) by {
            let t = choose|t: int| 0 <= t < sorted@.len() && byte_strings(sorted@)[t] == x;
            if t == last {
                assert(rb[0] == x);
            } else {
                assert(rb[t + 1] == x);
            }
        }
        assert forall|t: int| 1 <= t < rb.len() implies lex_lt(#[trigger] rb[t], rb[0]) by {
            assert(rb[t] == sorted@[t - 1]@);
        }
        assert forall|a: int, b: int| 1 <= a < b < rb.len() implies lex_lt(#[trigger] rb[a], #[trigger] rb[b]) by {
            assert(rb[a] == sorted@[a - 1]@);
            assert(rb[b] == sorted@[b - 1]@);
        }
    }
    r
}

/// The sum of the stakes placed on the movies of `winners`.
pub fn get_winners_total_lockup(stakes: &Vec<(Vec<u8>, u128)>, winners: &Vec<Vec<u8>>) -> (r: u128)
    requires
        stake_sum(stake_view(stakes@)) <= u128::MAX,
    ensures
        r == stake_on(stake_view(stakes@), byte_strings(winners@).to_set()),
{
    let ghost s = stake_view(stakes@);
    let ghost w = byte_strings(winners@).to_set();
    let n = stakes.len();
    let mut total: u128 = 0;
    let mut i: usize = 0;
    while i < n
        invariant
            n == stakes@.len(),
            s == stake_view(stakes@),
            w == byte_strings(winners@).to_set(),
            stake_sum(s) <= u128::MAX,
            i <= n,
            total == stake_on(s.take(i as int), w),
        decreases n - i,
    {
        let ghost q = s.take(i + 1);
        proof {
            assert(q.drop_last() =~= s.take(i as int));
            lemma_stake_sum_prefix(s, i + 1);
            lemma_stake_bounds(q, w);
        }
        if contains_bytes(winners, &stakes[i].0) {
            total = total + stakes[i].1;
        }
        i = i + 1;
    }
    assert(s.take(n as int) =~= s);
    total
}

/// The reward of a winning stake of `user_lockup`, out of a festival lockup
/// of `total_lockup` when the winning stakes sum to `winner_lockup`:
/// per mille of the winners' share, times the lockup in thousands.
pub open spec fn simple_reward(total_lockup: int, user_lockup: int, winner_lockup: int) -> int {
    (user_lockup * 1000) / winner_lockup * (total_lockup / 1000)
}

/// Computes [`simple_reward`].
pub fn calculate_simple_reward(total_lockup: u128, user_lockup: u128, winner_lockup: u128) -> (r: u128)
    requires
        winner_lockup > 0,
        user_lockup * 1000 <= u128::MAX,
        simple_reward(total_lockup as int, user_lockup as int, winner_lockup as int) <= u128::MAX,
    ensures
        r == simple_reward(total_lockup as int, user_lockup as int, winner_lockup as int),
        user_lockup <= winner_lockup ==> r <= total_lockup,
{
    let share = user_lockup * 1000 / winner_lockup;
    proof {
        if user_lockup <= winner_lockup {
            lemma_reward_bounded(total_lockup as int, user_lockup as int, winner_lockup as int);
        }
    }
    share * (total_lockup / 1000)
}

/// The reward of a stake within the winners' total is at most the lockup.
pub proof fn lemma_reward_bounded(total_lockup: int, user_lockup: int, winner_lockup: int)
    requires
        0 <= user_lockup <= winner_lockup,
        winner_lockup > 0,
        total_lockup >= 0,
    ensures
        0 <= simple_reward(total_lockup, user_lockup, winner_lockup) <= total_lockup,
{
    lemma_share_at_most_thousand(user_lockup, winner_lockup);
    let q = (user_lockup * 1000) / winner_lockup;
    let t = total_lockup / 1000;
    assert(q >= 0) by (nonlinear_arith)
        requires
            user_lockup >= 0,
            winner_lockup > 0,
            q == (user_lockup * 1000) / winner_lockup,
    ;
    assert(0 <= q * t <= 1000 * t) by (nonlinear_arith)
        requires
            0 <= q <= 1000,
            t >= 0,
    ;
}

/// A share of a part in a whole is at most one thousand per mille.
proof fn lemma_share_at_most_thousand(u: int, w: int)
    requires
        0 <= u <= w,
        w > 0,
    ensures
        (u * 1000) / w <= 1000,
{
    assert((u * 1000) / w <= (w * 1000) / w) by (nonlinear_arith)
        requires
            0 <= u <= w,
            w > 0,
    ;
    assert((w * 1000) / w == 1000) by (nonlinear_arith)
        requires
            w > 0,
    ;
}

/// The sum of the rewards of the stakes on movies of `w`, out of a lockup
/// of `total_lockup` when those stakes sum to `winner_lockup`.
pub open spec fn reward_total(s: Seq<(Seq<u8>, u128)>, w: Set<Seq<u8>>, total_lockup: int, winner_lockup: int) -> int
    decreases s.len(),
{
    if s.len() == 0 {
        0
    } else {
        reward_total(s.drop_last(), w, total_lockup, winner_lockup) + (if w.contains(s.last().0) {
            simple_reward(total_lockup, s.last().1 as int, winner_lockup)
        } else {
            0
        })
    }
}

/// The sum of the per mille shares of the stakes on movies of `w`.
spec fn share_total(s: Seq<(Seq<u8>, u128)>, w: Set<Seq<u8>>, winner_lockup: int) -> int
    decreases s.len(),
{
    if s.len() == 0 {
        0
    } else {
        share_total(s.drop_last(), w, winner_lockup) + (if w.contains(s.last().0) {
            (s.last().1 * 1000) / winner_lockup
        } else {
            0
        })
    }
}

/// The shares, rounded down, add up to no more than the stakes allow.
proof fn lemma_share_total_bound(s: Seq<(Seq<u8>, u128)>, w: Set<Seq<u8>>, d: int)
    requires
        d > 0,
    ensures
        share_total(s, w, d) >= 0,
        share_total(s, w, d) * d <= 1000 * stake_on(s, w),
    decreases s.len(),
{
    if s.len() > 0 {
        let p = s.drop_last();
        lemma_share_total_bound(p, w, d);
        if w.contains(s.last().0) {
            let a = s.last().1 as int;
            let q = (a * 1000) / d;
            let sp = share_total(p, w, d);
            let op = stake_on(p, w);
            assert(q >= 0 && q * d <= a * 1000) by (nonlinear_arith)
                requires
                    d > 0,
                    a >= 0,
                    q == (a * 1000) / d,
            ;
            assert((sp + q) * d <= 1000 * (op + a)) by (nonlinear_arith)
                requires
                    sp * d <= 1000 * op,
                    q * d <= a * 1000,
            ;
        }
    }
}

/// Every reward is the share times the lockup in thousands.
proof fn lemma_reward_total_factor(s: Seq<(Seq<u8>, u128)>, w: Set<Seq<u8>>, total: int, d: int)
    ensures
        reward_total(s, w, total, d) == share_total(s, w, d) * (total / 1000),
    decreases s.len(),
{
    if s.len() > 0 {
        let p = s.drop_last();
        lemma_reward_total_factor(p, w, total, d);
        let sp = share_total(p, w, d);
        let t = total / 1000;
        if w.contains(s.last().0) {
            let q = (s.last().1 * 1000) / d;
            assert(sp * t + q * t == (sp + q) * t) by (nonlinear_arith);
        }
    }
}

/// The rewards of the winning stakes never exceed the lockup they are paid
/// from: the shares, rounded down, add up to at most a thousand per mille,
/// and each is paid in whole thousandths of the lockup.
pub proof fn lemma_rewards_within_lockup(s: Seq<(Seq<u8>, u128)>, w: Set<Seq<u8>>, total_lockup: int)
    requires
        stake_on(s, w) > 0,
        total_lockup >= 0,
    ensures
        0 <= reward_total(s, w, total_lockup, stake_on(s, w)) <= total_lockup,
{
    let d = stake_on(s, w);
    lemma_share_total_bound(s, w, d);
    lemma_reward_total_factor(s, w, total_lockup, d);
    let st = share_total(s, w, d);
    assert(st <= 1000) by (nonlinear_arith)
        requires
            st * d <= 1000 * d,
            d > 0,
    ;
    let t = total_lockup / 1000;
    assert(0 <= st * t <= 1000 * t) by (nonlinear_arith)
        requires
            0 <= st <= 1000,
            t >= 0,
    ;
}

/// A list in the market's winner order holds exactly the winners.
pub proof fn lemma_winner_list_set(r: Seq<Seq<u8>>, w: Set<Seq<u8>>)
    requires
        is_winner_list(r, w),
    ensures
        r.to_set() =~= w,
{
    assert forall|m: Seq<u8>| r.to_set().contains(m) == w.contains(m) by {
        if r.contains(m) {
            let i = choose|i: int| 0 <= i < r.len() && r[i] == m;
            assert(w.contains(r[i]));
        }
    }
}

/// A stake fits the reward's arithmetic exactly when it is at most the
/// largest value over a thousand.
pub proof fn lemma_per_mille_fits(a: u128)
    ensures
        (a * 1000 <= u128::MAX) == (a <= u128::MAX / 1000),
{
    let m = u128::MAX as int;
    assert((a * 1000 <= m) == (a <= m / 1000)) by (nonlinear_arith)
        requires
            m == 340282366920938463463374607431768211455,
            a >= 0,
    ;
}

} // verus!
