//! The festival pallet: accounts create festivals, add registered movies to
//! them, and stake on movies while a festival is active; when it ends, the
//! stakes on the winning movies share what was staked.

use vstd::prelude::*;
use crate::dispatch::{
    Currency, CurrencyOp, DispatchError, Recorded, paid_until_refused, payout_transfers, ExistenceRequirement, Origin, account_of_pallet, ensure_signed, fits,
    fits_limit, next_id, pallet_account,
};
use crate::market::{
    byte_strings, calculate_simple_reward, contains_bytes, get_winners_total_lockup,
    get_winning_options, is_winner_list, lemma_per_mille_fits, lemma_reward_bounded,
    lemma_rewards_within_lockup, lemma_stake_bounds, lemma_winner_list_set, reward_total,
    simple_reward, stake_on, stake_sum, stake_view, winning_set,
};
use crate::movie;
use crate::schedule::{TimeIndex, ids_at, ids_at_block, lemma_ids_at_entries, lemma_without_block_entries, remove_block, without_block};
use crate::table::{Duplicate, Table, copy_bytes, has_key, keys_distinct, lemma_entry_in_map};
use crate::hashing::le_bytes_u32;
use crate::walk::{
    id_walk, walk_ids, encode_bytes, encode_u32, encode_u64, hash_key, hashed_key, key_order, key_values, keyed_view,
    le_bytes_u64, lemma_key_order_sum, scale_bytes, sort_by_key, value_sum,
};

verus! {

/// Where a festival stands.
#[derive(Clone, Copy, Debug, PartialEq, Eq)]
pub enum FestivalStatus {
    New,
    Approved,
    Declined,
    Active,
    Inactive,
}

/// A festival.
#[derive(Debug)]
pub struct Festival {
    pub owner: u64,
    pub id: u32,
    pub name: Vec<u8>,
    pub description: Vec<u8>,
    pub status: FestivalStatus,
    pub min_entry: u128,
}

/// A festival as a mathematical value.
pub struct FestivalView {
    pub owner: u64,
    pub id: u32,
    pub name: Seq<u8>,
    pub description: Seq<u8>,
    pub status: FestivalStatus,
    pub min_entry: u128,
}

impl View for Festival {
    type V = FestivalView;

    open spec fn view(&self) -> FestivalView {
        FestivalView {
            owner: self.owner,
            id: self.id,
            name: self.name@,
            description: self.description@,
            status: self.status,
            min_entry: self.min_entry,
        }
    }
}

impl Duplicate for Festival {
    fn duplicate(&self) -> (r: Self) {
        Festival {
            owner: self.owner,
            id: self.id,
            name: copy_bytes(&self.name),
            description: copy_bytes(&self.description),
            status: self.status,
            min_entry: self.min_entry,
        }
    }
}

/// A category of festivals.
#[derive(Debug)]
pub struct Category {
    pub name: Vec<u8>,
    pub description: Vec<u8>,
}

/// A category as a mathematical value.
pub struct CategoryView {
    pub name: Seq<u8>,
    pub description: Seq<u8>,
}

impl View for Category {
    type V = CategoryView;

    open spec fn view(&self) -> CategoryView {
        CategoryView { name: self.name@, description: self.description@ }
    }
}

impl Duplicate for Category {
    fn duplicate(&self) -> (r: Self) {
        Category { name: copy_bytes(&self.name), description: copy_bytes(&self.description) }
    }
}

/// A curator's vote and bet; no call stores one.
#[derive(Debug)]
pub struct CuratingVote {
    pub vote: Vec<u8>,
    pub bet: u128,
}

/// Errors of the festival pallet.
#[derive(Clone, Copy, Debug, PartialEq, Eq)]
pub enum Error {
    NoAvailableMovieId,
    Overflow,
    Underflow,
    BadMetadata,
    FestivalNotFound,
    MovieNotFound,
    MovieAlreadyInFestival,
    FestivalNotActive,
    LockedAmountInferiorToMinEntry,
    PastStartDate,
    FestivalPeriodTooShort,
    InsuficientBalance,
    FestivalHooksError,
}

/// What the festival pallet reports to the outside world.
#[derive(Clone, Debug, PartialEq, Eq)]
pub enum Event {
    /// A festival got this id and belongs to this account.
    FestivalCreated(u32, u64),
    /// The account added the movie with this key to the festival.
    MovieAddedToFestival(u32, Vec<u8>, u64),
    /// The account staked on the movie with this key in the festival.
    VotedForMovieInFestival(u32, Vec<u8>, u64),
    /// A concluded festival's winning stakes sum to this.
    TestEvent(u128),
}

/// An event as a mathematical value.
pub enum EventView {
    FestivalCreated(u32, u64),
    MovieAddedToFestival(u32, Seq<u8>, u64),
    VotedForMovieInFestival(u32, Seq<u8>, u64),
    TestEvent(int),
}

impl View for Event {
    type V = EventView;

    open spec fn view(&self) -> EventView {
        match self {
            Event::FestivalCreated(f, who) => EventView::FestivalCreated(*f, *who),
            Event::MovieAddedToFestival(f, m, who) => EventView::MovieAddedToFestival(*f, m@, *who),
            Event::VotedForMovieInFestival(f, m, who) => EventView::VotedForMovieInFestival(*f, m@, *who),
            Event::TestEvent(amount) => EventView::TestEvent(*amount as int),
        }
    }
}

/// A list of events as mathematical values.
pub open spec fn event_views(s: Seq<Event>) -> Seq<EventView> {
    s.map_values(|e: Event| e@)
}

/// The constants the runtime gives the pallet.
#[derive(Clone, Copy, Debug)]
pub struct Config {
    /// The longest name or description stored.
    pub string_limit: u32,
    /// The longest movie key.
    pub movie_string_limit: u32,
    /// The fewest blocks a festival lasts.
    pub min_festival_duration: u64,
    /// The identifier of the pallet, from which its account is derived.
    pub pallet_id: [u8; 8],
}

/// The stakes of the voting tracker: festival, voter and movie, then amount.
pub type Stakes = Seq<((u32, u64, Seq<u8>), u128)>;

/// The storage of the festival pallet.
pub struct Pallet {
    config: Config,
    festivals: Table<u32, Festival>,
    categories: Table<u32, Category>,
    next_festival_id: u32,
    next_category_id: u32,
    movies_in_festival: Table<(u32, Vec<u8>), ()>,
    voting_tracker: Table<(u32, u64, Vec<u8>), u128>,
    festival_start_time: Table<(u64, u32), ()>,
    festival_end_time: Table<(u64, u32), ()>,
    owned_festivals: Table<(u64, u32), Festival>,
    total_lockup: Table<u32, u128>,
    events: Vec<Event>,
}

/// The storage of the festival pallet as a mathematical value.
#[verifier::ext_equal]
pub struct FestivalState {
    pub config: Config,
    /// The festivals, by id.
    pub festivals: Map<u32, FestivalView>,
    /// The categories, by id.
    pub categories: Map<u32, CategoryView>,
    /// The id the next festival gets.
    pub next_festival_id: u32,
    /// The id the next category gets.
    pub next_category_id: u32,
    /// The movies of each festival.
    pub movies_in_festival: Set<(u32, Seq<u8>)>,
    /// The stakes, in the order they were first placed.
    pub voting_tracker: Stakes,
    /// The blocks at which festivals start.
    pub festival_start_time: TimeIndex,
    /// The blocks at which festivals end.
    pub festival_end_time: TimeIndex,
    /// The festivals of each owner, as they were created.
    pub owned_festivals: Map<(u64, u32), FestivalView>,
    /// What was staked in each festival, where anything was.
    pub total_lockup: Map<u32, u128>,
}

/// The account of the pallet.
pub open spec fn treasury(st: FestivalState) -> u64 {
    pallet_account(st.config.pallet_id@) as u64
}

/// What was staked in festival `f`.
pub open spec fn lockup_of(st: FestivalState, f: u32) -> int {
    lockup_value(st.total_lockup, f)
}

/// The stakes placed in festival `f`, as movie and amount, in order.
pub open spec fn stakes_of(s: Stakes, f: u32) -> Seq<(Seq<u8>, u128)>
    decreases s.len(),
{
    if s.len() == 0 {
        Seq::empty()
    } else {
        let p = stakes_of(s.drop_last(), f);
        if s.last().0.0 == f {
            p.push((s.last().0.2, s.last().1))
        } else {
            p
        }
    }
}

/// The value of a lockup map at `f`, zero where nothing is stored.
pub open spec fn lockup_value(m: Map<u32, u128>, f: u32) -> int {
    if m.dom().contains(f) {
        m[f] as int
    } else {
        0
    }
}

/// Whether the lockup of every festival is the sum of its stakes.
pub open spec fn lockups_match(lockup: Map<u32, u128>, s: Stakes) -> bool {
    forall|f: u32| #[trigger] lockup_value(lockup, f) == stake_sum(stakes_of(s, f))
}

/// Whether every entry of a time index names a festival.
pub open spec fn index_names_festivals(idx: TimeIndex, festivals: Map<u32, FestivalView>) -> bool {
    &&& keys_distinct(idx)
    &&& forall|i: int| 0 <= i < idx.len() ==> festivals.dom().contains(#[trigger] idx[i].0.1)
}

/// Whether every festival id is below the counter.
pub open spec fn ids_below(festivals: Map<u32, FestivalView>, next: u32) -> bool {
    forall|f: u32| #[trigger] festivals.dom().contains(f) ==> f < next
}

/// What holds of the storage after every call: festival ids are below the
/// counter, every time index entry names a festival, and the lockup of
/// every festival is the sum of the stakes placed in it.
pub open spec fn festival_invariant(st: FestivalState) -> bool {
    &&& ids_below(st.festivals, st.next_festival_id)
    &&& index_names_festivals(st.festival_start_time, st.festivals)
    &&& index_names_festivals(st.festival_end_time, st.festivals)
    &&& keys_distinct(st.voting_tracker)
    &&& lockups_match(st.total_lockup, st.voting_tracker)
    &&& stakes_fit(st.voting_tracker)
}

/// Why creating a category fails, if it does.
pub open spec fn create_category_error(st: FestivalState, name: Seq<u8>, description: Seq<u8>) -> Option<Error> {
    if st.next_category_id == u32::MAX {
        Some(Error::Overflow)
    } else if !fits(name, st.config.string_limit) || !fits(description, st.config.string_limit) {
        Some(Error::BadMetadata)
    } else {
        None
    }
}

/// The storage after a category is created.
pub open spec fn category_created(st: FestivalState, name: Seq<u8>, description: Seq<u8>) -> FestivalState {
    FestivalState {
        categories: st.categories.insert(st.next_category_id, CategoryView { name, description }),
        next_category_id: (st.next_category_id + 1) as u32,
        ..st
    }
}

/// Whether creating a festival gets as far as measuring its period: the
/// id counter is not exhausted, the texts fit and the start lies ahead.
pub open spec fn reaches_period_check(st: FestivalState, name: Seq<u8>, description: Seq<u8>, start_block: u64, now: u64) -> bool {
    &&& st.next_festival_id < u32::MAX
    &&& fits(name, st.config.string_limit)
    &&& fits(description, st.config.string_limit)
    &&& now < start_block
}

/// Why creating a festival fails, if it does.
pub open spec fn create_festival_error(
    st: FestivalState,
    name: Seq<u8>,
    description: Seq<u8>,
    start_block: u64,
    end_block: u64,
    now: u64,
) -> Option<Error> {
    if st.next_festival_id == u32::MAX {
        Some(Error::Overflow)
    } else if !fits(name, st.config.string_limit) || !fits(description, st.config.string_limit) {
        Some(Error::BadMetadata)
    } else if !(now < start_block) {
        Some(Error::PastStartDate)
    } else if end_block - start_block < st.config.min_festival_duration {
        Some(Error::FestivalPeriodTooShort)
    } else {
        None
    }
}

/// The festival that `who` creates next.
pub open spec fn new_festival(
    st: FestivalState,
    who: u64,
    name: Seq<u8>,
    description: Seq<u8>,
    min_entry: u128,
) -> FestivalView {
    FestivalView {
        owner: who,
        id: st.next_festival_id,
        name,
        description,
        status: FestivalStatus::New,
        min_entry,
    }
}

/// The storage after `who` creates a festival: it is stored, indexed under
/// its owner, its start block and its end block.
pub open spec fn festival_created(
    st: FestivalState,
    who: u64,
    name: Seq<u8>,
    description: Seq<u8>,
    min_entry: u128,
    start_block: u64,
    end_block: u64,
) -> FestivalState {
    let id = st.next_festival_id;
    let fest = new_festival(st, who, name, description, min_entry);
    FestivalState {
        festivals: st.festivals.insert(id, fest),
        next_festival_id: (id + 1) as u32,
        owned_festivals: st.owned_festivals.insert((who, id), fest),
        festival_start_time: st.festival_start_time.push(((start_block, id), ())),
        festival_end_time: st.festival_end_time.push(((end_block, id), ())),
        ..st
    }
}

/// Why adding movie `movie` to festival `f` fails, if it does.
pub open spec fn add_movie_error(
    st: FestivalState,
    movies: movie::MovieState,
    f: u32,
    movie: Seq<u8>,
) -> Option<Error> {
    if !fits(movie, st.config.movie_string_limit) {
        Some(Error::BadMetadata)
    } else if !st.festivals.dom().contains(f) {
        Some(Error::FestivalNotFound)
    } else if !movies.movies.dom().contains(movie) {
        Some(Error::MovieNotFound)
    } else if st.movies_in_festival.contains((f, movie)) {
        Some(Error::MovieAlreadyInFestival)
    } else {
        None
    }
}

/// The stakes after `amount` more is placed under key `k`.
pub open spec fn add_stake(s: Stakes, k: (u32, u64, Seq<u8>), amount: u128) -> Stakes {
    if has_key(s, k) {
        let i = choose|i: int| 0 <= i < s.len() && s[i].0 == k;
        s.update(i, (k, (s[i].1 + amount) as u128))
    } else {
        s.push((k, amount))
    }
}

/// Why `who` cannot stake `amount` on movie `movie` in festival `f`, if so
/// (the transfer of the stake aside).
pub open spec fn vote_error(st: FestivalState, f: u32, movie: Seq<u8>, amount: u128) -> Option<Error> {
    if !st.festivals.dom().contains(f) {
        Some(Error::FestivalNotFound)
    } else if !fits(movie, st.config.movie_string_limit) {
        Some(Error::BadMetadata)
    } else if st.festivals[f].status != FestivalStatus::Active {
        Some(Error::FestivalNotActive)
    } else if !st.movies_in_festival.contains((f, movie)) {
        Some(Error::MovieNotFound)
    } else if st.festivals[f].min_entry > amount {
        Some(Error::LockedAmountInferiorToMinEntry)
    } else {
        None
    }
}

/// The storage after `who` stakes `amount` on `movie` in festival `f`.
pub open spec fn voted(st: FestivalState, who: u64, f: u32, movie: Seq<u8>, amount: u128) -> FestivalState {
    FestivalState {
        voting_tracker: add_stake(st.voting_tracker, (f, who, movie), amount),
        total_lockup: st.total_lockup.insert(f, (lockup_of(st, f) + amount) as u128),
        ..st
    }
}

/// The festival with its status replaced.
pub open spec fn with_status(fest: FestivalView, status: FestivalStatus) -> FestivalView {
    FestivalView { status, ..fest }
}

/// The storage after the festivals starting at block `now` are activated.
pub open spec fn activated(st: FestivalState, now: u64) -> FestivalState {
    FestivalState {
        festivals: Map::new(
            |f: u32| st.festivals.dom().contains(f),
            |f: u32|
                if ids_at(st.festival_start_time, now).contains(f) {
                    with_status(st.festivals[f], FestivalStatus::Active)
                } else {
                    st.festivals[f]
                },
        ),
        ..st
    }
}

/// The winning movies of festival `f`.
pub open spec fn winners_of(st: FestivalState, f: u32) -> Set<Seq<u8>> {
    winning_set(stakes_of(st.voting_tracker, f))
}

/// What the stakes on the winning movies of festival `f` sum to.
pub open spec fn winners_lockup(st: FestivalState, f: u32) -> int {
    stake_on(stakes_of(st.voting_tracker, f), winners_of(st, f))
}

/// Whether the market of festival `f` can be settled: the winning stakes
/// sum to more than zero, and each of them times a thousand fits the
/// balance type.
pub open spec fn payable(st: FestivalState, f: u32) -> bool {
    let s = stakes_of(st.voting_tracker, f);
    &&& winners_lockup(st, f) > 0
    &&& forall|j: int|
        0 <= j < s.len() && winners_of(st, f).contains(#[trigger] s[j].0) ==> s[j].1 * 1000 <= u128::MAX
}

/// The payouts to the voters of festival `f` whose movie is in `w`, in the
/// order of the stakes: each gets [`simple_reward`] of its stake.
pub open spec fn payouts_in(s: Stakes, f: u32, w: Set<Seq<u8>>, total: int, d: int) -> Seq<(u64, u128)>
    decreases s.len(),
{
    if s.len() == 0 {
        Seq::empty()
    } else {
        let p = payouts_in(s.drop_last(), f, w, total, d);
        let e = s.last();
        if e.0.0 == f && w.contains(e.0.2) {
            p.push((e.0.1, simple_reward(total, e.1 as int, d) as u128))
        } else {
            p
        }
    }
}

/// The key under which the runtime stores the voting tracker's entry of
/// `voter` on `movie`: the hashed SCALE encoding of the pair.
pub open spec fn stake_key(voter: u64, movie: Seq<u8>) -> Seq<u8> {
    hashed_key(le_bytes_u64(voter) + scale_bytes(movie))
}

/// The payouts of [`payouts_in`], each with the key of its stake.
pub open spec fn keyed_payouts_in(s: Stakes, f: u32, w: Set<Seq<u8>>, total: int, d: int) -> Seq<(Seq<u8>, (u64, u128))>
    decreases s.len(),
{
    if s.len() == 0 {
        Seq::empty()
    } else {
        let p = keyed_payouts_in(s.drop_last(), f, w, total, d);
        let e = s.last();
        if e.0.0 == f && w.contains(e.0.2) {
            p.push((stake_key(e.0.1, e.0.2), (e.0.1, simple_reward(total, e.1 as int, d) as u128)))
        } else {
            p
        }
    }
}

/// The payouts that settle festival `f`, in the order in which the
/// runtime walks the festival's stakes: by the keys of their entries.
pub open spec fn festival_payouts(st: FestivalState, f: u32) -> Seq<(u64, u128)> {
    key_values(
        key_order(keyed_payouts_in(st.voting_tracker, f, winners_of(st, f), lockup_of(st, f), winners_lockup(st, f))),
    )
}

/// Whether the movie of every stake has a length that its encoding can
/// state.
pub open spec fn stakes_fit(s: Stakes) -> bool {
    forall|i: int| 0 <= i < s.len() ==> (#[trigger] s[i]).0.2.len() <= u32::MAX
}

/// The sum of a list of payouts.
pub open spec fn payout_sum(p: Seq<(u64, u128)>) -> int
    decreases p.len(),
{
    if p.len() == 0 {
        0
    } else {
        payout_sum(p.drop_last()) + p.last().1
    }
}

/// Why festival `f` cannot be concluded, if so: it is missing, it is not
/// active, or its market cannot be settled.
pub open spec fn conclude_check(st: FestivalState, f: u32) -> Option<Error> {
    if !st.festivals.dom().contains(f) {
        Some(Error::FestivalNotFound)
    } else if st.festivals[f].status != FestivalStatus::Active {
        Some(Error::FestivalNotActive)
    } else if stakes_of(st.voting_tracker, f).len() > 0 && !payable(st, f) {
        Some(Error::FestivalHooksError)
    } else {
        None
    }
}

/// The first reason, in order, why one of the festivals `ids` cannot be
/// concluded.
pub open spec fn conclude_error(st: FestivalState, ids: Seq<u32>) -> Option<Error>
    decreases ids.len(),
{
    if ids.len() == 0 {
        None
    } else {
        match conclude_error(st, ids.drop_last()) {
            Some(e) => Some(e),
            None => conclude_check(st, ids.last()),
        }
    }
}

/// The payouts that settle the festivals `ids`, in order.
pub open spec fn all_payouts(st: FestivalState, ids: Seq<u32>) -> Seq<(u64, u128)>
    decreases ids.len(),
{
    if ids.len() == 0 {
        Seq::empty()
    } else {
        all_payouts(st, ids.drop_last()) + festival_payouts(st, ids.last())
    }
}

/// The storage after the festivals ending at block `now` are concluded:
/// they become inactive and leave the end index.
pub open spec fn concluded(st: FestivalState, now: u64) -> FestivalState {
    FestivalState {
        festivals: Map::new(
            |f: u32| st.festivals.dom().contains(f),
            |f: u32|
                if ids_at(st.festival_end_time, now).contains(f) {
                    with_status(st.festivals[f], FestivalStatus::Inactive)
                } else {
                    st.festivals[f]
                },
        ),
        festival_end_time: without_block(st.festival_end_time, now),
        ..st
    }
}

/// The events that concluding the festivals `ids` deposits: for each that
/// received stakes, in order, what its winning stakes sum to.
pub open spec fn conclusion_events(st: FestivalState, ids: Seq<u32>) -> Seq<EventView>
    decreases ids.len(),
{
    if ids.len() == 0 {
        Seq::empty()
    } else {
        let prev = conclusion_events(st, ids.drop_last());
        let f = ids.last();
        if stakes_of(st.voting_tracker, f).len() > 0 {
            prev.push(EventView::TestEvent(winners_lockup(st, f)))
        } else {
            prev
        }
    }
}

/// The storage after creating a category fails with `e`: the id is taken
/// from the counter before the texts are checked, so a text too long leaves
/// it used up.
pub open spec fn category_create_failed(st: FestivalState, e: Error) -> FestivalState {
    if e is Overflow {
        st
    } else {
        FestivalState { next_category_id: (st.next_category_id + 1) as u32, ..st }
    }
}

/// The storage after creating a festival fails with `e`: the id is taken
/// from the counter before the texts and the dates are checked, so every
/// failure but its overflow leaves it used up.
pub open spec fn festival_create_failed(st: FestivalState, e: Error) -> FestivalState {
    if e is Overflow {
        st
    } else {
        FestivalState { next_festival_id: (st.next_festival_id + 1) as u32, ..st }
    }
}

/// The storage with the festivals of `ids` given status `status`.
spec fn statuses_set(st: FestivalState, ids: Seq<u32>, status: FestivalStatus) -> FestivalState {
    FestivalState {
        festivals: Map::new(
            |f: u32| st.festivals.dom().contains(f),
            |f: u32|
                if ids.contains(f) {
                    with_status(st.festivals[f], status)
                } else {
                    st.festivals[f]
                },
        ),
        ..st
    }
}

impl View for Pallet {
    type V = FestivalState;

    closed spec fn view(&self) -> FestivalState {
        FestivalState {
            config: self.config,
            festivals: self.festivals@,
            categories: self.categories@,
            next_festival_id: self.next_festival_id,
            next_category_id: self.next_category_id,
            movies_in_festival: self.movies_in_festival@.dom(),
            voting_tracker: self.voting_tracker.entries(),
            festival_start_time: self.festival_start_time.entries(),
            festival_end_time: self.festival_end_time.entries(),
            owned_festivals: self.owned_festivals@,
            total_lockup: self.total_lockup@,
        }
    }
}

/// The sum of stakes grows by the stake pushed.
proof fn lemma_stake_sum_push(p: Seq<(Seq<u8>, u128)>, x: (Seq<u8>, u128))
    ensures
        stake_sum(p.push(x)) == stake_sum(p) + x.1,
{
    assert(p.push(x).drop_last() =~= p);
}

/// The stakes of a festival, one entry at a time.
proof fn lemma_stakes_of_unfold(s: Stakes, g: u32)
    requires
        s.len() > 0,
    ensures
        stake_sum(stakes_of(s, g)) == stake_sum(stakes_of(s.drop_last(), g)) + (if s.last().0.0 == g {
            s.last().1 as int
        } else {
            0
        }),
{
    if s.last().0.0 == g {
        lemma_stake_sum_push(stakes_of(s.drop_last(), g), (s.last().0.2, s.last().1));
    }
}

/// Stakes are summed per festival: the stakes of a festival grow by what
/// is added under its key.
proof fn lemma_stakes_update(s: Stakes, i: int, v: u128, g: u32)
    requires
        0 <= i < s.len(),
    ensures
        stake_sum(stakes_of(s.update(i, (s[i].0, v)), g)) == stake_sum(stakes_of(s, g)) + (if s[i].0.0
            == g {
            v - s[i].1
        } else {
            0
        }),
    decreases s.len(),
{
    let t = s.update(i, (s[i].0, v));
    lemma_stakes_of_unfold(s, g);
    lemma_stakes_of_unfold(t, g);
    if i == s.len() - 1 {
        assert(t.drop_last() =~= s.drop_last());
    } else {
        assert(t.drop_last() =~= s.drop_last().update(i, (s[i].0, v)));
        lemma_stakes_update(s.drop_last(), i, v, g);
    }
}

/// A single stake of a festival is at most the sum of its stakes.
proof fn lemma_stake_within_sum(s: Stakes, i: int)
    requires
        0 <= i < s.len(),
    ensures
        s[i].1 <= stake_sum(stakes_of(s, s[i].0.0)),
    decreases s.len(),
{
    let f = s[i].0.0;
    lemma_stake_bounds(stakes_of(s.drop_last(), f), Set::empty());
    lemma_stakes_of_unfold(s, f);
    if i < s.len() - 1 {
        lemma_stake_within_sum(s.drop_last(), i);
    }
}

/// A stake on a winning movie is at most the winners' total, and is one of
/// the festival's stakes.
proof fn lemma_stake_on_entry(s: Stakes, f: u32, w: Set<Seq<u8>>, i: int)
    requires
        0 <= i < s.len(),
        s[i].0.0 == f,
        w.contains(s[i].0.2),
    ensures
        s[i].1 <= stake_on(stakes_of(s, f), w),
        stakes_of(s, f).contains((s[i].0.2, s[i].1)),
    decreases s.len(),
{
    let p = s.drop_last();
    let sp = stakes_of(p, f);
    lemma_stake_bounds(sp, w);
    if s.last().0.0 == f {
        let x = (s.last().0.2, s.last().1);
        assert(sp.push(x).drop_last() =~= sp);
        assert(stakes_of(s, f)[sp.len() as int] == x);
    }
    if i < s.len() - 1 {
        lemma_stake_on_entry(p, f, w, i);
        assert(p[i] == s[i]);
        let j = choose|j: int| 0 <= j < sp.len() && sp[j] == (s[i].0.2, s[i].1);
        if s.last().0.0 == f {
            assert(stakes_of(s, f)[j] == sp[j]);
        }
    }
}

/// The payouts of a festival add up to the rewards of its winning stakes.
proof fn lemma_payout_sum(s: Stakes, f: u32, w: Set<Seq<u8>>, total: int, d: int)
    requires
        d > 0,
        0 <= total <= u128::MAX,
        forall|i: int| 0 <= i < s.len() && s[i].0.0 == f && w.contains(s[i].0.2) ==> #[trigger] s[i].1 <= d,
    ensures
        payout_sum(payouts_in(s, f, w, total, d)) == reward_total(stakes_of(s, f), w, total, d),
    decreases s.len(),
{
    if s.len() > 0 {
        let p = s.drop_last();
        assert forall|i: int| 0 <= i < p.len() && p[i].0.0 == f && w.contains(p[i].0.2) implies #[trigger] p[i].1 <= d by {
            assert(s[i] == p[i]);
        }
        lemma_payout_sum(p, f, w, total, d);
        let e = s.last();
        let pp = payouts_in(p, f, w, total, d);
        let sp = stakes_of(p, f);
        if e.0.0 == f {
            let x = (e.0.2, e.1);
            assert(sp.push(x).drop_last() =~= sp);
            if w.contains(e.0.2) {
                assert(s[s.len() - 1] == e);
                lemma_reward_bounded(total, e.1 as int, d);
                let y = (e.0.1, simple_reward(total, e.1 as int, d) as u128);
                assert(pp.push(y).drop_last() =~= pp);
            }
        }
    }
}

/// The first failure among a prefix of the festivals is the first failure
/// among all of them.
proof fn lemma_conclude_error_prefix(st: FestivalState, ids: Seq<u32>, k: int)
    requires
        0 <= k <= ids.len(),
        conclude_error(st, ids.take(k)) is Some,
    ensures
        conclude_error(st, ids) == conclude_error(st, ids.take(k)),
    decreases ids.len(),
{
    if k == ids.len() {
        assert(ids.take(k) =~= ids);
    } else {
        assert(ids.drop_last().take(k) =~= ids.take(k));
        lemma_conclude_error_prefix(st, ids.drop_last(), k);
    }
}

/// A festival without stakes pays nothing.
proof fn lemma_payouts_without_stakes(s: Stakes, f: u32, w: Set<Seq<u8>>, total: int, d: int)
    requires
        stakes_of(s, f).len() == 0,
    ensures
        payouts_in(s, f, w, total, d) == Seq::<(u64, u128)>::empty(),
    decreases s.len(),
{
    if s.len() > 0 {
        if s.last().0.0 == f {
            assert(stakes_of(s, f).len() > 0);
        }
        lemma_payouts_without_stakes(s.drop_last(), f, w, total, d);
    }
}

/// The keyed payouts carry the payouts of [`payouts_in`].
proof fn lemma_keyed_payouts(s: Stakes, f: u32, w: Set<Seq<u8>>, total: int, d: int)
    ensures
        key_values(keyed_payouts_in(s, f, w, total, d)) == payouts_in(s, f, w, total, d),
    decreases s.len(),
{
    if s.len() > 0 {
        lemma_keyed_payouts(s.drop_last(), f, w, total, d);
        let k = keyed_payouts_in(s.drop_last(), f, w, total, d);
        let e = s.last();
        let x = (stake_key(e.0.1, e.0.2), (e.0.1, simple_reward(total, e.1 as int, d) as u128));
        assert(key_values(k.push(x)) =~= key_values(k).push(x.1));
    }
}

/// The sum of the payouts of a keyed list.
proof fn lemma_payout_sum_values(k: Seq<(Seq<u8>, (u64, u128))>)
    ensures
        payout_sum(key_values(k)) == value_sum(k, |p: (u64, u128)| p.1 as int),
    decreases k.len(),
{
    if k.len() > 0 {
        lemma_payout_sum_values(k.drop_last());
        assert(key_values(k).drop_last() =~= key_values(k.drop_last()));
    }
}

/// The payouts of a festival, walked in key order, sum to the payouts
/// in the order of the stakes.
proof fn lemma_festival_payouts_sum(st: FestivalState, f: u32)
    ensures
        payout_sum(festival_payouts(st, f)) == payout_sum(
            payouts_in(st.voting_tracker, f, winners_of(st, f), lockup_of(st, f), winners_lockup(st, f)),
        ),
{
    let k = keyed_payouts_in(st.voting_tracker, f, winners_of(st, f), lockup_of(st, f), winners_lockup(st, f));
    let g = |p: (u64, u128)| p.1 as int;
    lemma_payout_sum_values(key_order(k));
    lemma_key_order_sum(k, g);
    lemma_payout_sum_values(k);
    lemma_keyed_payouts(st.voting_tracker, f, winners_of(st, f), lockup_of(st, f), winners_lockup(st, f));
}

/// A festival without stakes has no payouts in any order.
proof fn lemma_no_stakes_no_payouts(st: FestivalState, f: u32)
    requires
        payouts_in(st.voting_tracker, f, winners_of(st, f), lockup_of(st, f), winners_lockup(st, f)).len() == 0,
    ensures
        festival_payouts(st, f) == Seq::<(u64, u128)>::empty(),
{
    let k = keyed_payouts_in(st.voting_tracker, f, winners_of(st, f), lockup_of(st, f), winners_lockup(st, f));
    lemma_keyed_payouts(st.voting_tracker, f, winners_of(st, f), lockup_of(st, f), winners_lockup(st, f));
    assert(key_values(k).len() == k.len());
    assert(key_order(k) =~= Seq::<(Seq<u8>, (u64, u128))>::empty());
    assert(festival_payouts(st, f) =~= Seq::<(u64, u128)>::empty());
}

/// The payouts that settle a festival never exceed what was staked in it.
pub proof fn lemma_payouts_within_lockup(st: FestivalState, f: u32)
    requires
        festival_invariant(st),
        payable(st, f),
    ensures
        0 <= payout_sum(festival_payouts(st, f)) <= lockup_of(st, f),
{
    let s = st.voting_tracker;
    let w = winners_of(st, f);
    let d = winners_lockup(st, f);
    let total = lockup_of(st, f);
    assert forall|i: int| 0 <= i < s.len() && s[i].0.0 == f && w.contains(s[i].0.2) implies #[trigger] s[i].1 <= d by {
        lemma_stake_on_entry(s, f, w, i);
    }
    assert(total <= u128::MAX);
    lemma_payout_sum(s, f, w, total, d);
    lemma_rewards_within_lockup(stakes_of(s, f), w, total);
    lemma_festival_payouts_sum(st, f);
}

impl Pallet {
    /// The events deposited so far, oldest first.
    pub closed spec fn event_log(&self) -> Seq<EventView> {
        event_views(self.events@)
    }

    /// The invariant of the storage: tables without repeated keys, and
    /// [`festival_invariant`].
    pub closed spec fn wf(&self) -> bool {
        &&& self.festivals.wf()
        &&& self.categories.wf()
        &&& self.movies_in_festival.wf()
        &&& self.voting_tracker.wf()
        &&& self.festival_start_time.wf()
        &&& self.festival_end_time.wf()
        &&& self.owned_festivals.wf()
        &&& self.total_lockup.wf()
        &&& festival_invariant(self@)
    }

    /// The well-formed storage satisfies the invariant.
    pub proof fn lemma_wf_invariant(&self)
        requires
            self.wf(),
        ensures
            festival_invariant(self@),
    {
    }

    /// Empty storage.
    pub fn new(config: Config) -> (p: Self)
        ensures
            p.wf(),
            p@.config == config,
            p@.festivals == Map::<u32, FestivalView>::empty(),
            p@.categories == Map::<u32, CategoryView>::empty(),
            p@.next_festival_id == 0,
            p@.next_category_id == 0,
            p@.movies_in_festival == Set::<(u32, Seq<u8>)>::empty(),
            p@.voting_tracker == Stakes::empty(),
            p@.festival_start_time == TimeIndex::empty(),
            p@.festival_end_time == TimeIndex::empty(),
            p@.owned_festivals == Map::<(u64, u32), FestivalView>::empty(),
            p@.total_lockup == Map::<u32, u128>::empty(),
            p.event_log() == Seq::<EventView>::empty(),
    {
        let p = Pallet {
            config,
            festivals: Table::new(),
            categories: Table::new(),
            next_festival_id: 0,
            next_category_id: 0,
            movies_in_festival: Table::new(),
            voting_tracker: Table::new(),
            festival_start_time: Table::new(),
            festival_end_time: Table::new(),
            owned_festivals: Table::new(),
            total_lockup: Table::new(),
            events: Vec::new(),
        };
        assert(p@.movies_in_festival =~= Set::<(u32, Seq<u8>)>::empty());
        assert(p.event_log() =~= Seq::<EventView>::empty());
        p
    }

    /// Hands out the events deposited so far and forgets them.
    pub fn take_events(&mut self) -> (r: Vec<Event>)
        ensures
            event_views(r@) == old(self).event_log(),
            final(self).event_log() == Seq::<EventView>::empty(),
            final(self)@ == old(self)@,
            final(self).wf() == old(self).wf(),
    {
        let mut taken: Vec<Event> = Vec::new();
        std::mem::swap(&mut taken, &mut self.events);
        assert(self.event_log() =~= Seq::<EventView>::empty());
        taken
    }

    /// Appends `e` to the deposited events.
    fn deposit_event(&mut self, e: Event)
        ensures
            final(self).event_log() == old(self).event_log().push(e@),
            final(self)@ == old(self)@,
            final(self).wf() == old(self).wf(),
    {
        let ghost before = self.events@;
        self.events.push(e);
        assert(event_views(self.events@) =~= event_views(before).push(e@));
    }

    /// The account of the pallet, which holds the stakes.
    pub fn account_id(&self) -> (r: u64)
        ensures
            r == treasury(self@),
    {
        account_of_pallet(self.config.pallet_id)
    }

    /// Creates a category, returning its id.
    pub fn do_create_category(&mut self, who: u64, name: Vec<u8>, description: Vec<u8>) -> (r: Result<u32, Error>)
        requires
            old(self).wf(),
        ensures
            final(self).wf(),
            match create_category_error(old(self)@, name@, description@) {
                Some(e) => r == Err::<u32, Error>(e) && final(self)@ == category_create_failed(old(self)@, e)
                    && final(self).event_log() == old(self).event_log(),
                None => r == Ok::<u32, Error>(old(self)@.next_category_id) && final(self)@
                    == category_created(old(self)@, name@, description@)
                    && final(self).event_log() == old(self).event_log(),
            },
    {
        let ghost pre = self@;
        let category_id = self.next_category_id;
        let next = match next_id(category_id) {
            Some(n) => n,
            None => return Err(Error::Overflow),
        };
        self.next_category_id = next;
        assert(self@ =~= category_create_failed(pre, Error::BadMetadata));
        let limit = self.config.string_limit;
        if !fits_limit(&name, limit) || !fits_limit(&description, limit) {
            return Err(Error::BadMetadata);
        }
        let category = Category { name, description };
        self.categories.insert(category_id, category);
        assert(self@ =~= category_created(pre, name@, description@));
        Ok(category_id)
    }

    /// The call that creates a category.
    pub fn create_category(&mut self, origin: Origin, name: Vec<u8>, description: Vec<u8>) -> (r: Result<(), DispatchError<Error>>)
        requires
            old(self).wf(),
        ensures
            final(self).wf(),
            match origin {
                Origin::Signed(who) => match create_category_error(old(self)@, name@, description@) {
                    Some(e) => r == Err::<(), DispatchError<Error>>(DispatchError::Module(e)) && final(self)@ == category_create_failed(old(self)@, e)
                    && final(self).event_log() == old(self).event_log(),
                    None => r == Ok::<(), DispatchError<Error>>(()) && final(self)@ == category_created(old(self)@, name@, description@)
                    && final(self).event_log() == old(self).event_log(),
                },
                _ => r == Err::<(), DispatchError<Error>>(DispatchError::BadOrigin) && final(self)@ == old(self)@
                    && final(self).event_log() == old(self).event_log(),
            },
    {
        let who = ensure_signed(origin)?;
        match self.do_create_category(who, name, description) {
            Ok(_) => Ok(()),
            Err(e) => Err(DispatchError::Module(e)),
        }
    }

    /// `who` creates a festival running from `start_block` to `end_block`,
    /// at block `now`; returns its id.
    pub fn do_create_festival(
        &mut self,
        who: u64,
        name: Vec<u8>,
        description: Vec<u8>,
        min_ticket_price: u128,
        start_block: u64,
        end_block: u64,
        now: u64,
    ) -> (r: Result<u32, Error>)
        requires
            old(self).wf(),
            reaches_period_check(old(self)@, name@, description@, start_block, now) ==> start_block <= end_block,
        ensures
            final(self).wf(),
            r is Ok ==> ({
                let fest = final(self)@.festivals[old(self)@.next_festival_id];
                &&& final(self)@.festivals.dom().contains(old(self)@.next_festival_id)
                &&& fest.owner == who && fest.name == name@ && fest.description == description@
                &&& fest.min_entry == min_ticket_price && fest.status == FestivalStatus::New
            }),
            match create_festival_error(old(self)@, name@, description@, start_block, end_block, now) {
                Some(e) => r == Err::<u32, Error>(e) && final(self)@ == festival_create_failed(old(self)@, e)
                    && final(self).event_log() == old(self).event_log(),
                None => r == Ok::<u32, Error>(old(self)@.next_festival_id) && final(self)@
                    == festival_created(old(self)@, who, name@, description@, min_ticket_price, start_block, end_block)
                    && final(self).event_log() == old(self).event_log().push(
                        EventView::FestivalCreated(old(self)@.next_festival_id, who),
                    ),
            },
    {
        let ghost pre = self@;
        let festival_id = self.next_festival_id;
        let next = match next_id(festival_id) {
            Some(n) => n,
            None => return Err(Error::Overflow),
        };
        self.next_festival_id = next;
        assert(self@ =~= festival_create_failed(pre, Error::BadMetadata));
        let limit = self.config.string_limit;
        if !fits_limit(&name, limit) || !fits_limit(&description, limit) {
            return Err(Error::BadMetadata);
        }
        if !(now < start_block) {
            return Err(Error::PastStartDate);
        }
        if end_block - start_block < self.config.min_festival_duration {
            return Err(Error::FestivalPeriodTooShort);
        }
        let festival = Festival {
            owner: who,
            id: festival_id,
            name,
            description,
            status: FestivalStatus::New,
            min_entry: min_ticket_price,
        };
        proof {
            assert(!self.festival_end_time@.dom().contains((end_block, festival_id))) by {
                if self.festival_end_time@.dom().contains((end_block, festival_id)) {
                    let i = choose|i: int| 0 <= i < pre.festival_end_time.len() && pre.festival_end_time[i].0 == (end_block, festival_id);
                    assert(pre.festivals.dom().contains(pre.festival_end_time[i].0.1));
                }
            }
            assert(!self.festival_start_time@.dom().contains((start_block, festival_id))) by {
                if self.festival_start_time@.dom().contains((start_block, festival_id)) {
                    let i = choose|i: int| 0 <= i < pre.festival_start_time.len() && pre.festival_start_time[i].0 == (start_block, festival_id);
                    assert(pre.festivals.dom().contains(pre.festival_start_time[i].0.1));
                }
            }
        }
        self.festival_end_time.insert((end_block, festival_id), ());
        let owned = festival.duplicate();
        self.festivals.insert(festival_id, festival);
        self.owned_festivals.insert((who, festival_id), owned);
        self.festival_start_time.insert((start_block, festival_id), ());
        proof {
            let post = festival_created(pre, who, name@, description@, min_ticket_price, start_block, end_block);
            assert(self@ =~= post);
        }
        self.deposit_event(Event::FestivalCreated(festival_id, who));
        Ok(festival_id)
    }

    /// The call that creates a festival; the category list is not used.
    pub fn create_festival(
        &mut self,
        origin: Origin,
        name: Vec<u8>,
        description: Vec<u8>,
        categories: Vec<u32>,
        min_entry: u128,
        start_block: u64,
        end_block: u64,
        now: u64,
    ) -> (r: Result<(), DispatchError<Error>>)
        requires
            old(self).wf(),
            reaches_period_check(old(self)@, name@, description@, start_block, now) ==> start_block <= end_block,
        ensures
            final(self).wf(),
            r is Ok ==> ({
                let fest = final(self)@.festivals[old(self)@.next_festival_id];
                &&& final(self)@.festivals.dom().contains(old(self)@.next_festival_id)
                &&& origin == Origin::Signed(fest.owner) && fest.name == name@ && fest.description == description@
                &&& fest.min_entry == min_entry && fest.status == FestivalStatus::New
            }),
            match origin {
                Origin::Signed(who) => match create_festival_error(old(self)@, name@, description@, start_block, end_block, now) {
                    Some(e) => r == Err::<(), DispatchError<Error>>(DispatchError::Module(e)) && final(self)@ == festival_create_failed(old(self)@, e)
                    && final(self).event_log() == old(self).event_log(),
                    None => r == Ok::<(), DispatchError<Error>>(()) && final(self)@
                        == festival_created(old(self)@, who, name@, description@, min_entry, start_block, end_block)
                        && final(self).event_log() == old(self).event_log().push(
                            EventView::FestivalCreated(old(self)@.next_festival_id, who),
                        ),
                },
                _ => r == Err::<(), DispatchError<Error>>(DispatchError::BadOrigin) && final(self)@ == old(self)@
                    && final(self).event_log() == old(self).event_log(),
            },
    {
        let who = ensure_signed(origin)?;
        match self.do_create_festival(who, name, description, min_entry, start_block, end_block, now) {
            Ok(_) => Ok(()),
            Err(e) => Err(DispatchError::Module(e)),
        }
    }

    /// Adds the registered movie with key `movie_id` to festival
    /// `festival_id`.
    pub fn do_add_movie(&mut self, who: u64, festival_id: u32, movie_id: Vec<u8>, movies: &movie::Pallet) -> (r: Result<(), Error>)
        requires
            old(self).wf(),
            movies.wf(),
        ensures
            final(self).wf(),
            match add_movie_error(old(self)@, movies.view(), festival_id, movie_id@) {
                Some(e) => r == Err::<(), Error>(e) && final(self)@ == old(self)@
                    && final(self).event_log() == old(self).event_log(),
                None => r == Ok::<(), Error>(()) && final(self)@ == (FestivalState {
                    movies_in_festival: old(self)@.movies_in_festival.insert((festival_id, movie_id@)),
                    ..old(self)@
                }) && final(self).event_log() == old(self).event_log().push(
                    EventView::MovieAddedToFestival(festival_id, movie_id@, who),
                ),
            },
    {
        let ghost pre = self@;
        if !fits_limit(&movie_id, self.config.movie_string_limit) {
            return Err(Error::BadMetadata);
        }
        if !self.festivals.contains_key(&festival_id) {
            return Err(Error::FestivalNotFound);
        }
        if !movies.contains_movie(&movie_id) {
            return Err(Error::MovieNotFound);
        }
        let added = copy_bytes(&movie_id);
        let key = (festival_id, movie_id);
        if self.movies_in_festival.contains_key(&key) {
            return Err(Error::MovieAlreadyInFestival);
        }
        self.movies_in_festival.insert(key, ());
        proof {
            assert(self@ =~= FestivalState {
                movies_in_festival: pre.movies_in_festival.insert((festival_id, movie_id@)),
                ..pre
            });
        }
        self.deposit_event(Event::MovieAddedToFestival(festival_id, added, who));
        Ok(())
    }

    /// The call that adds a registered movie to a festival.
    pub fn add_movie(&mut self, origin: Origin, festival_id: u32, movie_id: Vec<u8>, movies: &movie::Pallet) -> (r: Result<(), DispatchError<Error>>)
        requires
            old(self).wf(),
            movies.wf(),
        ensures
            final(self).wf(),
            match origin {
                Origin::Signed(who) => match add_movie_error(old(self)@, movies.view(), festival_id, movie_id@) {
                    Some(e) => r == Err::<(), DispatchError<Error>>(DispatchError::Module(e)) && final(self)@ == old(self)@
                    && final(self).event_log() == old(self).event_log(),
                    None => r == Ok::<(), DispatchError<Error>>(()) && final(self)@ == (FestivalState {
                        movies_in_festival: old(self)@.movies_in_festival.insert((festival_id, movie_id@)),
                        ..old(self)@
                    }) && final(self).event_log() == old(self).event_log().push(
                        EventView::MovieAddedToFestival(festival_id, movie_id@, who),
                    ),
                },
                _ => r == Err::<(), DispatchError<Error>>(DispatchError::BadOrigin) && final(self)@ == old(self)@
                    && final(self).event_log() == old(self).event_log(),
            },
    {
        let who = ensure_signed(origin)?;
        match self.do_add_movie(who, festival_id, movie_id, movies) {
            Ok(()) => Ok(()),
            Err(e) => Err(DispatchError::Module(e)),
        }
    }

    /// `who` stakes `amount` on movie `movie_id` in festival `festival_id`:
    /// the amount is transferred to the pallet's account, then added to the
    /// voter's stake and to the festival's lockup. When the runtime refuses
    /// the transfer the call fails with `InsuficientBalance` and changes
    /// nothing.
    pub fn do_vote_for<C: Currency>(
        &mut self,
        currency: &mut Recorded<C>,
        who: u64,
        festival_id: u32,
        movie_id: Vec<u8>,
        amount: u128,
    ) -> (r: Result<(), Error>)
        requires
            old(self).wf(),
            vote_error(old(self)@, festival_id, movie_id@, amount) is None ==> lockup_of(old(self)@, festival_id)
                + amount <= u128::MAX,
        ensures
            final(self).wf(),
            match vote_error(old(self)@, festival_id, movie_id@, amount) {
                Some(e) => r == Err::<(), Error>(e) && final(self)@ == old(self)@
                    && final(self).event_log() == old(self).event_log()
                    && final(currency).ops() == old(currency).ops(),
                None => {
                    &&& final(currency).ops() == old(currency).ops().push(
                        CurrencyOp::Transfer(who, treasury(old(self)@), amount, ExistenceRequirement::AllowDeath, r is Ok),
                    )
                    &&& r is Ok ==> final(self)@ == voted(old(self)@, who, festival_id, movie_id@, amount)
                        && final(self).event_log() == old(self).event_log().push(
                        EventView::VotedForMovieInFestival(festival_id, movie_id@, who),
                    )
                    &&& !(r is Ok) ==> r == Err::<(), Error>(Error::InsuficientBalance) && final(self)@ == old(self)@
                        && final(self).event_log() == old(self).event_log()
                },
            },
    {
        let ghost pre = self@;
        let (status, min_entry) = match self.festivals.get(&festival_id) {
            Some(f) => (f.status, f.min_entry),
            None => return Err(Error::FestivalNotFound),
        };
        if !fits_limit(&movie_id, self.config.movie_string_limit) {
            return Err(Error::BadMetadata);
        }
        match status {
            FestivalStatus::Active => {},
            _ => return Err(Error::FestivalNotActive),
        }
        if !self.movies_in_festival.contains_key(&(festival_id, copy_bytes(&movie_id))) {
            return Err(Error::MovieNotFound);
        }
        if min_entry > amount {
            return Err(Error::LockedAmountInferiorToMinEntry);
        }
        let treasury_account = self.account_id();
        if !currency.transfer(who, treasury_account, amount, ExistenceRequirement::AllowDeath) {
            return Err(Error::InsuficientBalance);
        }
        let ghost s = pre.voting_tracker;
        let ghost k = (festival_id, who, movie_id@);
        let staked = copy_bytes(&movie_id);
        let key = (festival_id, who, movie_id);
        match self.voting_tracker.find(&key) {
            Some(i) => {
                let cur = *self.voting_tracker.value_at(i);
                proof {
                    lemma_stake_within_sum(s, i as int);
                }
                self.voting_tracker.set_value_at(i, cur + amount);
                proof {
                    lemma_stakes_update(s, i as int, (cur + amount) as u128, festival_id);
                    assert forall|g: u32| #[trigger] lockup_value(pre.total_lockup, g) + (if g == festival_id {
                        amount as int
                    } else {
                        0
                    }) == stake_sum(stakes_of(self.voting_tracker.entries(), g)) by {
                        lemma_stakes_update(s, i as int, (cur + amount) as u128, g);
                    }
                    assert(has_key(s, k));
                    let j = choose|j: int| 0 <= j < s.len() && s[j].0 == k;
                    assert(j == i);
                    assert(self.voting_tracker.entries() == add_stake(s, k, amount));
                }
            },
            None => {
                self.voting_tracker.insert(key, amount);
                proof {
                    assert(!has_key(s, k)) by {
                        if has_key(s, k) {
                            let j = choose|j: int| 0 <= j < s.len() && s[j].0 == k;
                            lemma_entry_in_map(s, j);
                        }
                    }
                    let t = self.voting_tracker.entries();
                    assert(t == s.push((k, amount)));
                    assert forall|g: u32| #[trigger] lockup_value(pre.total_lockup, g) + (if g == festival_id {
                        amount as int
                    } else {
                        0
                    }) == stake_sum(stakes_of(t, g)) by {
                        assert(t.drop_last() =~= s);
                        lemma_stakes_of_unfold(t, g);
                    }
                }
            },
        }
        let lock = match self.total_lockup.get(&festival_id) {
            Some(v) => *v,
            None => 0,
        };
        self.total_lockup.insert(festival_id, lock + amount);
        proof {
            let post = voted(pre, who, festival_id, movie_id@, amount);
            assert(self@ =~= post);
            assert forall|g: u32| #[trigger] lockup_value(self@.total_lockup, g) == stake_sum(stakes_of(self@.voting_tracker, g)) by {
                assert(lockup_value(pre.total_lockup, g) + (if g == festival_id {
                    amount as int
                } else {
                    0
                }) == stake_sum(stakes_of(self@.voting_tracker, g)));
            }
        }
        self.deposit_event(Event::VotedForMovieInFestival(festival_id, staked, who));
        Ok(())
    }

    /// The call by which the account that signed it stakes on a movie.
    pub fn vote_for<C: Currency>(
        &mut self,
        origin: Origin,
        festival_id: u32,
        movie_id: Vec<u8>,
        amount: u128,
        currency: &mut Recorded<C>,
    ) -> (r: Result<(), DispatchError<Error>>)
        requires
            old(self).wf(),
            vote_error(old(self)@, festival_id, movie_id@, amount) is None ==> lockup_of(old(self)@, festival_id)
                + amount <= u128::MAX,
        ensures
            final(self).wf(),
            match origin {
                Origin::Signed(who) => match vote_error(old(self)@, festival_id, movie_id@, amount) {
                    Some(e) => r == Err::<(), DispatchError<Error>>(DispatchError::Module(e)) && final(self)@ == old(self)@
                        && final(self).event_log() == old(self).event_log()
                        && final(currency).ops() == old(currency).ops(),
                    None => {
                        &&& final(currency).ops() == old(currency).ops().push(
                            CurrencyOp::Transfer(who, treasury(old(self)@), amount, ExistenceRequirement::AllowDeath, r is Ok),
                        )
                        &&& r is Ok ==> final(self)@ == voted(old(self)@, who, festival_id, movie_id@, amount)
                            && final(self).event_log() == old(self).event_log().push(
                            EventView::VotedForMovieInFestival(festival_id, movie_id@, who),
                        )
                        &&& !(r is Ok) ==> r == Err::<(), DispatchError<Error>>(DispatchError::Module(Error::InsuficientBalance))
                            && final(self)@ == old(self)@ && final(self).event_log() == old(self).event_log()
                    },
                },
                _ => r == Err::<(), DispatchError<Error>>(DispatchError::BadOrigin) && final(self)@ == old(self)@
                    && final(self).event_log() == old(self).event_log()
                    && final(currency).ops() == old(currency).ops(),
            },
    {
        let who = ensure_signed(origin)?;
        match self.do_vote_for(currency, who, festival_id, movie_id, amount) {
            Ok(()) => Ok(()),
            Err(e) => Err(DispatchError::Module(e)),
        }
    }

    /// The stakes placed in festival `festival_id`, as movie and amount, in
    /// the order they were first placed.
    pub fn festival_stakes(&self, festival_id: u32) -> (r: Vec<(Vec<u8>, u128)>)
        ensures
            stake_view(r@) == stakes_of(self@.voting_tracker, festival_id),
    {
        let ghost s = self@.voting_tracker;
        let mut r: Vec<(Vec<u8>, u128)> = Vec::new();
        let n = self.voting_tracker.len();
        let mut i: usize = 0;
        while i < n
            invariant
                n == s.len(),
                s == self@.voting_tracker,
                i <= n,
                stake_view(r@) == stakes_of(s.take(i as int), festival_id),
            decreases n - i,
        {
            proof {
                assert(s.take(i + 1).drop_last() =~= s.take(i as int));
                assert(s.take(i + 1).last() == s[i as int]);
            }
            let key = self.voting_tracker.key_at(i);
            if key.0 == festival_id {
                let amount = *self.voting_tracker.value_at(i);
                let ghost old_r = r@;
                r.push((copy_bytes(&key.2), amount));
                proof {
                    assert(stake_view(r@) =~= stake_view(old_r).push((key.2@, amount)));
                }
            }
            i = i + 1;
        }
        assert(s.take(n as int) =~= s);
        r
    }

    /// The winning movies of festival `festival_id`, as the market reports
    /// them: the one last in byte order first, then the others in
    /// increasing byte order.
    pub fn get_winning_options(&self, festival_id: u32) -> (r: Vec<Vec<u8>>)
        requires
            self.wf(),
            stakes_of(self@.voting_tracker, festival_id).len() > 0,
        ensures
            is_winner_list(byte_strings(r@), winners_of(self@, festival_id)),
    {
        let stakes = self.festival_stakes(festival_id);
        assert(stake_sum(stake_view(stakes@)) == lockup_of(self@, festival_id));
        get_winning_options(&stakes)
    }

    /// What the stakes on the movies of `winning_movies` in festival
    /// `festival_id` sum to.
    pub fn get_winners_total_lockup(&self, festival_id: u32, winning_movies: &Vec<Vec<u8>>) -> (r: u128)
        requires
            self.wf(),
        ensures
            r == stake_on(stakes_of(self@.voting_tracker, festival_id), byte_strings(winning_movies@).to_set()),
    {
        let stakes = self.festival_stakes(festival_id);
        assert(stake_sum(stake_view(stakes@)) == lockup_of(self@, festival_id));
        get_winners_total_lockup(&stakes, winning_movies)
    }

    /// What was staked in festival `festival_id`.
    pub fn total_lockup(&self, festival_id: u32) -> (r: u128)
        requires
            self.wf(),
        ensures
            r == lockup_of(self@, festival_id),
    {
        match self.total_lockup.get(&festival_id) {
            Some(v) => *v,
            None => 0,
        }
    }

    /// The payouts that settle the market of festival `festival_id`, one per
    /// winning stake, in the order in which the runtime walks the stakes,
    /// or `None` when its arithmetic cannot be carried out (the winning
    /// stakes sum to zero, or a winning stake times a thousand overflows).
    /// These are the payouts that [`Pallet::conclude_festival`] transfers
    /// from the pallet's account, with `AllowDeath`, after depositing
    /// `TestEvent` of the winners' lockup.
    pub fn resolve_market(&self, festival_id: u32) -> (r: Option<Vec<(u64, u128)>>)
        requires
            self.wf(),
            stakes_of(self@.voting_tracker, festival_id).len() > 0,
        ensures
            r is Some <==> payable(self@, festival_id),
            r matches Some(p) ==> p@ == festival_payouts(self@, festival_id),
    {
        let ghost st = self@;
        let ghost w = winners_of(st, festival_id);
        let stakes = self.festival_stakes(festival_id);
        let ghost s = stake_view(stakes@);
        assert(stake_sum(s) == lockup_of(st, festival_id));
        let winning_opts = get_winning_options(&stakes);
        proof {
            lemma_winner_list_set(byte_strings(winning_opts@), w);
        }
        let winner_sum = get_winners_total_lockup(&stakes, &winning_opts);
        if winner_sum == 0 {
            return None;
        }
        let n = stakes.len();
        let mut j: usize = 0;
        while j < n
            invariant
                n == s.len(),
                s == stake_view(stakes@),
                s == stakes_of(st.voting_tracker, festival_id),
                st == self@,
                w == winners_of(st, festival_id),
                byte_strings(winning_opts@).to_set() == w,
                j <= n,
                forall|t: int| 0 <= t < j && w.contains(#[trigger] s[t].0) ==> s[t].1 * 1000 <= u128::MAX,
            decreases n - j,
        {
            let amount = stakes[j].1;
            proof {
                lemma_per_mille_fits(amount);
                assert(s[j as int] == (stakes@[j as int].0@, amount));
            }
            if contains_bytes(&winning_opts, &stakes[j].0) && amount > u128::MAX / 1000 {
                proof {
                    let sk = stakes_of(st.voting_tracker, festival_id);
                    assert(sk == s);
                    assert(w.contains(sk[j as int].0));
                    assert(!(sk[j as int].1 * 1000 <= u128::MAX));
                }
                return None;
            }
            j = j + 1;
        }
        let total = self.total_lockup(festival_id);
        let ghost tr = st.voting_tracker;
        let mut keyed: Vec<(Vec<u8>, (u64, u128))> = Vec::new();
        let m = self.voting_tracker.len();
        let mut i: usize = 0;
        while i < m
            invariant
                m == tr.len(),
                tr == self@.voting_tracker,
                st == self@,
                self.wf(),
                byte_strings(winning_opts@).to_set() == w,
                w == winners_of(st, festival_id),
                winner_sum == winners_lockup(st, festival_id),
                winner_sum > 0,
                total == lockup_of(st, festival_id),
                payable(st, festival_id),
                i <= m,
                keyed_view(keyed@) == keyed_payouts_in(tr.take(i as int), festival_id, w, total as int, winner_sum as int),
            decreases m - i,
        {
            proof {
                assert(tr.take(i + 1).drop_last() =~= tr.take(i as int));
                assert(tr.take(i + 1).last() == tr[i as int]);
            }
            let key = self.voting_tracker.key_at(i);
            if key.0 == festival_id && contains_bytes(&winning_opts, &key.2) {
                let amount = *self.voting_tracker.value_at(i);
                proof {
                    lemma_stake_on_entry(tr, festival_id, w, i as int);
                    let sk = stakes_of(tr, festival_id);
                    let t = choose|t: int| 0 <= t < sk.len() && sk[t] == (key.2@, amount);
                    assert(w.contains(sk[t].0));
                }
                proof {
                    lemma_reward_bounded(total as int, amount as int, winner_sum as int);
                }
                let reward = calculate_simple_reward(total, amount, winner_sum);
                assert(tr[i as int].0.2 == key.2@);
                let mut encoded = encode_u64(key.1);
                let mut movie = encode_bytes(&key.2);
                encoded.append(&mut movie);
                let stake = hash_key(encoded);
                let ghost before = keyed_view(keyed@);
                keyed.push((stake, (key.1, reward)));
                assert(keyed_view(keyed@) =~= before.push((stake@, (key.1, reward))));
            }
            i = i + 1;
        }
        assert(tr.take(m as int) =~= tr);
        let sorted = sort_by_key(keyed);
        let mut payouts: Vec<(u64, u128)> = Vec::new();
        let n = sorted.len();
        let mut t: usize = 0;
        while t < n
            invariant
                n == sorted@.len(),
                t <= n,
                payouts@ == key_values(keyed_view(sorted@)).take(t as int),
            decreases n - t,
        {
            payouts.push(sorted[t].1);
            assert(key_values(keyed_view(sorted@)).take(t + 1) =~= key_values(keyed_view(sorted@)).take(t as int).push(
                sorted@[t as int].1,
            ));
            t = t + 1;
        }
        assert(key_values(keyed_view(sorted@)).take(n as int) =~= key_values(keyed_view(sorted@)));
        Some(payouts)
    }

    /// Gives the festivals of `ids` status `status`.
    fn set_statuses(&mut self, ids: &Vec<u32>, status: FestivalStatus)
        requires
            old(self).wf(),
            forall|k: int| 0 <= k < ids@.len() ==> old(self)@.festivals.dom().contains(#[trigger] ids@[k]),
        ensures
            final(self).wf(),
            final(self)@ == statuses_set(old(self)@, ids@, status),
            final(self).event_log() == old(self).event_log(),
    {
        let ghost pre = self@;
        let ghost ev = self.events@;
        let n = ids.len();
        let mut j: usize = 0;
        while j < n
            invariant
                n == ids@.len(),
                forall|k: int| 0 <= k < ids@.len() ==> pre.festivals.dom().contains(#[trigger] ids@[k]),
                j <= n,
                self.wf(),
                self@ == statuses_set(pre, ids@.take(j as int), status),
                self.events@ == ev,
            decreases n - j,
        {
            let f = ids[j];
            let fest = match self.festivals.get(&f) {
                Some(x) => x.duplicate(),
                None => {
                    assert(pre.festivals.dom().contains(ids@[j as int]));
                    return;
                },
            };
            let updated = Festival { status, ..fest };
            self.festivals.insert(f, updated);
            proof {
                let next = statuses_set(pre, ids@.take(j + 1), status);
                let t1 = ids@.take(j + 1);
                let t0 = ids@.take(j as int);
                assert forall|x: u32| #[trigger] t1.contains(x) == (t0.contains(x) || x == f) by {
                    if t1.contains(x) {
                        let k = choose|k: int| 0 <= k < t1.len() && t1[k] == x;
                        if k < j {
                            assert(t0[k] == x);
                        }
                    }
                    if t0.contains(x) {
                        let k = choose|k: int| 0 <= k < t0.len() && t0[k] == x;
                        assert(t1[k] == x);
                    }
                    if x == f {
                        assert(t1[j as int] == x);
                    }
                }
                assert(self@.festivals =~= next.festivals);
                assert(self@ =~= next);
            }
            j = j + 1;
        }
        assert(ids@.take(n as int) =~= ids@);
    }

    /// The festivals indexed for block `now` in `idx`, which all exist.
    fn indexed_festivals(&self, idx: &Table<(u64, u32), ()>, now: u64) -> (ids: Vec<u32>)
        requires
            self.wf(),
            index_names_festivals(idx.entries(), self@.festivals),
        ensures
            ids@ == ids_at(idx.entries(), now),
            forall|k: int| 0 <= k < ids@.len() ==> self@.festivals.dom().contains(#[trigger] ids@[k]),
    {
        let ids = ids_at_block(idx, now);
        proof {
            let s = idx.entries();
            lemma_ids_at_entries(s, now);
            assert forall|k: int| 0 <= k < ids@.len() implies self@.festivals.dom().contains(#[trigger] ids@[k]) by {
                let t = choose|t: int| #![trigger s[t]] 0 <= t < s.len() && s[t].0 == (now, ids@[k]);
                assert(self@.festivals.dom().contains(s[t].0.1));
            }
        }
        ids
    }

    /// Activates the festivals that start at block `now`; their start
    /// entries stay in the index.
    pub fn activate_festival(&mut self, now: u64) -> (r: Result<(), Error>)
        requires
            old(self).wf(),
        ensures
            final(self).wf(),
            r is Ok,
            final(self)@ == activated(old(self)@, now),
            final(self).event_log() == old(self).event_log(),
    {
        let ghost pre = self@;
        let ids = self.indexed_festivals(&self.festival_start_time, now);
        self.set_statuses(&ids, FestivalStatus::Active);
        assert(self@ =~= activated(pre, now));
        Ok(())
    }

    /// Concludes the festivals that end at block `now`, in the order in
    /// which the runtime walks the end index: each must be active; the
    /// market of each that received stakes is settled by transfers from
    /// the pallet's account; then each becomes inactive and
    /// leaves the end index. Returns the payouts made. A festival that
    /// cannot be concluded fails the call and changes nothing; so does a
    /// payout the runtime refuses (`FestivalHooksError`), though payouts
    /// made before it stand until the runtime discards the block.
    pub fn conclude_festival<C: Currency>(&mut self, now: u64, currency: &mut Recorded<C>) -> (r: Result<Vec<(u64, u128)>, Error>)
        requires
            old(self).wf(),
        ensures
            final(self).wf(),
            match conclude_error(old(self)@, id_walk(ids_at(old(self)@.festival_end_time, now))) {
                Some(e) => r == Err::<Vec<(u64, u128)>, Error>(e) && final(self)@ == old(self)@
                    && final(self).event_log() == old(self).event_log()
                    && final(currency).ops() == old(currency).ops(),
                None => {
                    let p = all_payouts(old(self)@, id_walk(ids_at(old(self)@.festival_end_time, now)));
                    let t = treasury(old(self)@);
                    ||| r matches Ok(q) && q@ == p && final(self)@ == concluded(old(self)@, now)
                        && final(self).event_log() == old(self).event_log() + conclusion_events(
                            old(self)@,
                            id_walk(ids_at(old(self)@.festival_end_time, now)),
                        ) && final(currency).ops() == old(currency).ops() + payout_transfers(
                            t,
                            p,
                            ExistenceRequirement::AllowDeath,
                        )
                    ||| r == Err::<Vec<(u64, u128)>, Error>(Error::FestivalHooksError) && final(self)@ == old(self)@
                        && final(self).event_log() == old(self).event_log()
                        && paid_until_refused(old(currency).ops(), final(currency).ops(), t, p, ExistenceRequirement::AllowDeath)
                },
            },
    {
        let ghost pre = self@;
        let ghost ev0 = self.events@;
        let ids = self.indexed_festivals(&self.festival_end_time, now);
        let order = walk_ids(&ids);
        let n = order.len();
        let mut payouts: Vec<(u64, u128)> = Vec::new();
        let mut pending: Vec<Event> = Vec::new();
        let mut i: usize = 0;
        while i < n
            invariant
                n == order@.len(),
                order@ == id_walk(ids_at(pre.festival_end_time, now)),
                ids@ == ids_at(pre.festival_end_time, now),
                self@ == pre,
                self.events@ == ev0,
                self.wf(),
                i <= n,
                conclude_error(pre, order@.take(i as int)) is None,
                payouts@ == all_payouts(pre, order@.take(i as int)),
                event_views(pending@) == conclusion_events(pre, order@.take(i as int)),
            decreases n - i,
        {
            let ghost t1 = order@.take(i + 1);
            proof {
                assert(t1.drop_last() =~= order@.take(i as int));
                assert(t1.last() == order@[i as int]);
            }
            let f = order[i];
            let status = match self.festivals.get(&f) {
                Some(x) => x.status,
                None => {
                    proof {
                        lemma_conclude_error_prefix(pre, order@, i + 1);
                    }
                    return Err(Error::FestivalNotFound);
                },
            };
            match status {
                FestivalStatus::Active => {},
                _ => {
                    proof {
                        lemma_conclude_error_prefix(pre, order@, i + 1);
                    }
                    return Err(Error::FestivalNotActive);
                },
            }
            let stakes = self.festival_stakes(f);
            assert(stakes@.len() == stakes_of(pre.voting_tracker, f).len());
            if stakes.len() > 0 {
                match self.resolve_market(f) {
                    Some(p) => {
                        let opts = self.get_winning_options(f);
                        let won = self.get_winners_total_lockup(f, &opts);
                        proof {
                            lemma_winner_list_set(byte_strings(opts@), winners_of(pre, f));
                        }
                        let ghost earlier = pending@;
                        pending.push(Event::TestEvent(won));
                        assert(event_views(pending@) =~= event_views(earlier).push(
                            EventView::TestEvent(winners_lockup(pre, f)),
                        ));
                        let mut p = p;
                        let ghost before = payouts@;
                        let ghost pv = p@;
                        payouts.append(&mut p);
                        assert(payouts@ =~= before + pv);
                    },
                    None => {
                        proof {
                            lemma_conclude_error_prefix(pre, order@, i + 1);
                        }
                        return Err(Error::FestivalHooksError);
                    },
                }
            } else {
                proof {
                    lemma_payouts_without_stakes(pre.voting_tracker, f, winners_of(pre, f), lockup_of(pre, f), winners_lockup(pre, f));
                    lemma_no_stakes_no_payouts(pre, f);
                    assert(payouts@ =~= payouts@ + festival_payouts(pre, f));
                }
            }
            i = i + 1;
        }
        proof {
            assert(order@.take(n as int) =~= order@);
        }
        let treasury_account = self.account_id();
        let m = payouts.len();
        let mut k: usize = 0;
        let ghost ops0 = currency.ops();
        while k < m
            invariant
                m == payouts@.len(),
                self@ == pre,
                self.events@ == ev0,
                self.wf(),
                k <= m,
                conclude_error(pre, id_walk(ids_at(pre.festival_end_time, now))) is None,
                treasury_account == treasury(pre),
                payouts@ == all_payouts(pre, id_walk(ids_at(pre.festival_end_time, now))),
                pre == old(self)@,
                ops0 == old(currency).ops(),
                currency.ops() == ops0 + payout_transfers(treasury_account, payouts@.take(k as int), ExistenceRequirement::AllowDeath),
            decreases m - k,
        {
            let (dest, amount) = payouts[k];
            let ghost before = currency.ops();
            let ok = currency.transfer(treasury_account, dest, amount, ExistenceRequirement::AllowDeath);
            proof {
                let q = payouts@.take(k + 1);
                assert(payout_transfers(treasury_account, q, ExistenceRequirement::AllowDeath) =~= payout_transfers(
                    treasury_account,
                    payouts@.take(k as int),
                    ExistenceRequirement::AllowDeath,
                ).push(CurrencyOp::Transfer(treasury_account, dest, amount, ExistenceRequirement::AllowDeath, true)));
                assert(payouts@[k as int] == (dest, amount));
            }
            if !ok {
                proof {
                    assert(currency.ops() =~= ops0 + payout_transfers(
                        treasury_account,
                        payouts@.take(k as int),
                        ExistenceRequirement::AllowDeath,
                    ).push(CurrencyOp::Transfer(treasury_account, dest, amount, ExistenceRequirement::AllowDeath, false)));
                    let kk = k as int;
                    assert(0 <= kk < payouts@.len() && currency.ops() == ops0 + payout_transfers(
                        treasury_account,
                        payouts@.take(kk),
                        ExistenceRequirement::AllowDeath,
                    ).push(
                        CurrencyOp::Transfer(treasury_account, payouts@[kk].0, payouts@[kk].1, ExistenceRequirement::AllowDeath, false),
                    ));
                    assert(paid_until_refused(ops0, currency.ops(), treasury_account, payouts@, ExistenceRequirement::AllowDeath));
                }
                return Err(Error::FestivalHooksError);
            }
            k = k + 1;
        }
        assert(payouts@.take(m as int) =~= payouts@);
        self.set_statuses(&ids, FestivalStatus::Inactive);
        let remaining = remove_block(&self.festival_end_time, now);
        self.festival_end_time = remaining;
        let ghost deposited = pending@;
        self.events.append(&mut pending);
        assert(event_views(self.events@) =~= event_views(ev0) + event_views(deposited));
        proof {
            let st = self@;
            lemma_without_block_entries(pre.festival_end_time, now);
            assert forall|i: int| 0 <= i < st.festival_end_time.len() implies st.festivals.dom().contains(
                #[trigger] st.festival_end_time[i].0.1,
            ) by {
                let e = st.festival_end_time[i];
                let idx = pre.festival_end_time;
                let j = choose|j: int| #![trigger idx[j]] 0 <= j < idx.len() && idx[j] == e;
                assert(pre.festivals.dom().contains(idx[j].0.1));
            }
            assert(self@ =~= concluded(pre, now));
        }
        Ok(payouts)
    }

    /// What the runtime does at the end of block `now`: conclude the
    /// festivals ending there, then activate those starting there. Returns
    /// the payouts made.
    pub fn on_finalize<C: Currency>(&mut self, now: u64, currency: &mut Recorded<C>) -> (r: Result<Vec<(u64, u128)>, Error>)
        requires
            old(self).wf(),
        ensures
            final(self).wf(),
            match conclude_error(old(self)@, id_walk(ids_at(old(self)@.festival_end_time, now))) {
                Some(e) => r == Err::<Vec<(u64, u128)>, Error>(e) && final(self)@ == old(self)@
                    && final(self).event_log() == old(self).event_log()
                    && final(currency).ops() == old(currency).ops(),
                None => {
                    let p = all_payouts(old(self)@, id_walk(ids_at(old(self)@.festival_end_time, now)));
                    let t = treasury(old(self)@);
                    ||| r matches Ok(q) && q@ == p && final(self)@ == activated(concluded(old(self)@, now), now)
                        && final(self).event_log() == old(self).event_log() + conclusion_events(
                            old(self)@,
                            id_walk(ids_at(old(self)@.festival_end_time, now)),
                        ) && final(currency).ops() == old(currency).ops() + payout_transfers(
                            t,
                            p,
                            ExistenceRequirement::AllowDeath,
                        )
                    ||| r == Err::<Vec<(u64, u128)>, Error>(Error::FestivalHooksError) && final(self)@ == old(self)@
                        && final(self).event_log() == old(self).event_log()
                        && paid_until_refused(old(currency).ops(), final(currency).ops(), t, p, ExistenceRequirement::AllowDeath)
                },
            },
    {
        let payouts = self.conclude_festival(now, currency)?;
        let activation = self.activate_festival(now);
        match activation {
            Ok(()) => Ok(payouts),
            Err(e) => Err(e),
        }
    }

    /// What the runtime does at the start of a block: nothing; the weight
    /// used is zero.
    pub fn on_initialize(&self, now: u64) -> (weight: u64)
        ensures
            weight == 0,
    {
        0
    }

    /// The constants of the runtime.
    pub fn config(&self) -> (c: Config)
        ensures
            c == self@.config,
    {
        self.config
    }

    /// The festival with id `festival_id`.
    pub fn festival(&self, festival_id: u32) -> (r: Option<Festival>)
        requires
            self.wf(),
        ensures
            match r {
                Some(f) => self@.festivals.dom().contains(festival_id) && f@ == self@.festivals[festival_id],
                None => !self@.festivals.dom().contains(festival_id),
            },
    {
        match self.festivals.get(&festival_id) {
            Some(f) => Some(f.duplicate()),
            None => None,
        }
    }

    /// The category with id `category_id`.
    pub fn category(&self, category_id: u32) -> (r: Option<Category>)
        requires
            self.wf(),
        ensures
            match r {
                Some(c) => self@.categories.dom().contains(category_id) && c@ == self@.categories[category_id],
                None => !self@.categories.dom().contains(category_id),
            },
    {
        match self.categories.get(&category_id) {
            Some(c) => Some(c.duplicate()),
            None => None,
        }
    }

    /// The id the next festival gets.
    pub fn next_festival_id(&self) -> (r: u32)
        ensures
            r == self@.next_festival_id,
    {
        self.next_festival_id
    }

    /// The id the next category gets.
    pub fn next_category_id(&self) -> (r: u32)
        ensures
            r == self@.next_category_id,
    {
        self.next_category_id
    }

    /// Whether movie `movie_id` is in festival `festival_id`.
    pub fn movies_in_festival(&self, festival_id: u32, movie_id: &Vec<u8>) -> (r: bool)
        requires
            self.wf(),
        ensures
            r == self@.movies_in_festival.contains((festival_id, movie_id@)),
    {
        self.movies_in_festival.contains_key(&(festival_id, copy_bytes(movie_id)))
    }

    /// Whether festival `festival_id` is indexed to start at `block`.
    pub fn festival_start_time(&self, block: u64, festival_id: u32) -> (r: bool)
        requires
            self.wf(),
        ensures
            r == has_key(self@.festival_start_time, (block, festival_id)),
    {
        let r = self.festival_start_time.contains_key(&(block, festival_id));
        proof {
            let s = self@.festival_start_time;
            if has_key(s, (block, festival_id)) {
                let i = choose|i: int| 0 <= i < s.len() && s[i].0 == (block, festival_id);
                lemma_entry_in_map(s, i);
            }
        }
        r
    }

    /// Whether festival `festival_id` is indexed to end at `block`.
    pub fn festival_end_time(&self, block: u64, festival_id: u32) -> (r: bool)
        requires
            self.wf(),
        ensures
            r == has_key(self@.festival_end_time, (block, festival_id)),
    {
        let r = self.festival_end_time.contains_key(&(block, festival_id));
        proof {
            let s = self@.festival_end_time;
            if has_key(s, (block, festival_id)) {
                let i = choose|i: int| 0 <= i < s.len() && s[i].0 == (block, festival_id);
                lemma_entry_in_map(s, i);
            }
        }
        r
    }

    /// The festival `festival_id` of `owner`, as it was created.
    pub fn owned_festivals(&self, owner: u64, festival_id: u32) -> (r: Option<Festival>)
        requires
            self.wf(),
        ensures
            match r {
                Some(f) => self@.owned_festivals.dom().contains((owner, festival_id)) && f@
                    == self@.owned_festivals[(owner, festival_id)],
                None => !self@.owned_festivals.dom().contains((owner, festival_id)),
            },
    {
        match self.owned_festivals.get(&(owner, festival_id)) {
            Some(f) => Some(f.duplicate()),
            None => None,
        }
    }

    /// What `voter` has staked on `movie_id` in festival `festival_id`.
    pub fn voting_tracker(&self, festival_id: u32, voter: u64, movie_id: &Vec<u8>) -> (r: u128)
        requires
            self.wf(),
        ensures
            r == (if has_key(self@.voting_tracker, (festival_id, voter, movie_id@)) {
                crate::table::entries_map(self@.voting_tracker)[(festival_id, voter, movie_id@)]
            } else {
                0
            }),
    {
        match self.voting_tracker.find(&(festival_id, voter, copy_bytes(movie_id))) {
            Some(i) => {
                proof {
                    assert(has_key(self@.voting_tracker, (festival_id, voter, movie_id@)));
                }
                *self.voting_tracker.value_at(i)
            },
            None => {
                proof {
                    let s = self@.voting_tracker;
                    if has_key(s, (festival_id, voter, movie_id@)) {
                        let i = choose|i: int| 0 <= i < s.len() && s[i].0 == (festival_id, voter, movie_id@);
                        lemma_entry_in_map(s, i);
                    }
                }
                0
            },
        }
    }
}

} // verus!
