//! The anonymous festival pallet: votes are cast encrypted through polling
//! stations, decrypted by the station member each voter delegated, and
//! counted once the decryption period has expired; the stakes on the
//! winning movies share what was staked.

use vstd::prelude::*;
use crate::dispatch::{
    Currency, CurrencyOp, DispatchError, ExistenceRequirement, Origin, Recorded, account_of_pallet,
    ensure_signed, fits, paid_until_refused, payout_transfers,
    fits_limit, next_id, pallet_account,
};
use crate::market::{
    byte_strings, calculate_simple_reward, contains_bytes, get_winners_total_lockup,
    get_winning_options, is_winner_list, lemma_per_mille_fits, lemma_reward_bounded,
    lemma_rewards_within_lockup, lemma_stake_bounds, lemma_winner_list_set, reward_total,
    simple_reward, stake_on, stake_sum, stake_view, winning_set,
};
use crate::movie;
use crate::hashing::le_bytes_u32;
use crate::walk::{
    encode_bytes, encode_u32, hash_key, hashed_key, id_walk, key_order, key_values, keyed_view,
    lemma_key_order_sum, scale_bytes, sort_by_key, value_sum, walk_ids,
};
use crate::schedule::{
    TimeIndex, ids_at, ids_at_block, lemma_ids_at_entries, lemma_without_block_entries,
    remove_block, without_block,
};
use crate::table::{
    Duplicate, Table, copy_bytes, entries_map, has_key, keys_distinct, lemma_entry_in_map,
};

verus! {

/// Where an anonymous festival stands.
#[derive(Clone, Copy, Debug, PartialEq, Eq)]
pub enum AnonFestivalStatus {
    RecentlyCreated,
    WaitingForStationMember,
    Open,
    OnDecryption,
    Counting,
    NormalFinish,
    AbnormalFinish,
}

/// Whether a vote has been decrypted.
#[derive(Clone, Copy, Debug, PartialEq, Eq)]
pub enum AnonVoteStatus {
    Encrypted,
    Decrypted,
}

/// An anonymous festival.
#[derive(Debug)]
pub struct AnonFestival {
    pub creator: u64,
    pub name: Vec<u8>,
    pub description: Vec<u8>,
    pub status: AnonFestivalStatus,
    pub min_entry: u128,
}

/// An anonymous festival as a mathematical value.
pub struct AnonFestivalView {
    pub creator: u64,
    pub name: Seq<u8>,
    pub description: Seq<u8>,
    pub status: AnonFestivalStatus,
    pub min_entry: u128,
}

impl View for AnonFestival {
    type V = AnonFestivalView;

    open spec fn view(&self) -> AnonFestivalView {
        AnonFestivalView {
            creator: self.creator,
            name: self.name@,
            description: self.description@,
            status: self.status,
            min_entry: self.min_entry,
        }
    }
}

impl Duplicate for AnonFestival {
    fn duplicate(&self) -> (r: Self) {
        AnonFestival {
            creator: self.creator,
            name: copy_bytes(&self.name),
            description: copy_bytes(&self.description),
            status: self.status,
            min_entry: self.min_entry,
        }
    }
}

/// A vote: cast encrypted, with the key of its owner, through a polling
/// station whose member `delegated_encryptor` decrypts it.
#[derive(Debug)]
pub struct AnonVote {
    pub owner: u64,
    pub owner_pub_key: Vec<u8>,
    pub anon_fest_id: u32,
    pub pooling_station: u32,
    pub delegated_encryptor: u64,
    pub enc_vote: Vec<u8>,
    pub raw_vote: Vec<u8>,
    pub vote_status: AnonVoteStatus,
    pub amount: u128,
}

/// A vote as a mathematical value.
pub struct AnonVoteView {
    pub owner: u64,
    pub owner_pub_key: Seq<u8>,
    pub anon_fest_id: u32,
    pub pooling_station: u32,
    pub delegated_encryptor: u64,
    pub enc_vote: Seq<u8>,
    pub raw_vote: Seq<u8>,
    pub vote_status: AnonVoteStatus,
    pub amount: u128,
}

impl View for AnonVote {
    type V = AnonVoteView;

    open spec fn view(&self) -> AnonVoteView {
        AnonVoteView {
            owner: self.owner,
            owner_pub_key: self.owner_pub_key@,
            anon_fest_id: self.anon_fest_id,
            pooling_station: self.pooling_station,
            delegated_encryptor: self.delegated_encryptor,
            enc_vote: self.enc_vote@,
            raw_vote: self.raw_vote@,
            vote_status: self.vote_status,
            amount: self.amount,
        }
    }
}

impl Duplicate for AnonVote {
    fn duplicate(&self) -> (r: Self) {
        AnonVote {
            owner: self.owner,
            owner_pub_key: copy_bytes(&self.owner_pub_key),
            anon_fest_id: self.anon_fest_id,
            pooling_station: self.pooling_station,
            delegated_encryptor: self.delegated_encryptor,
            enc_vote: copy_bytes(&self.enc_vote),
            raw_vote: copy_bytes(&self.raw_vote),
            vote_status: self.vote_status,
            amount: self.amount,
        }
    }
}

/// A polling station of an anonymous festival.
#[derive(Debug)]
pub struct PollingStation {
    pub owner: u64,
    pub anon_fest_id: u32,
    pub name: Vec<u8>,
    pub description: Vec<u8>,
}

/// A polling station as a mathematical value.
pub struct PollingStationView {
    pub owner: u64,
    pub anon_fest_id: u32,
    pub name: Seq<u8>,
    pub description: Seq<u8>,
}

impl View for PollingStation {
    type V = PollingStationView;

    open spec fn view(&self) -> PollingStationView {
        PollingStationView {
            owner: self.owner,
            anon_fest_id: self.anon_fest_id,
            name: self.name@,
            description: self.description@,
        }
    }
}

impl Duplicate for PollingStation {
    fn duplicate(&self) -> (r: Self) {
        PollingStation {
            owner: self.owner,
            anon_fest_id: self.anon_fest_id,
            name: copy_bytes(&self.name),
            description: copy_bytes(&self.description),
        }
    }
}

/// Errors of the anonymous festival pallet.
#[derive(Clone, Copy, Debug, PartialEq, Eq)]
pub enum Error {
    NoneValue,
    StorageOverflow,
    BadMetadata,
    Overflow,
    InvalidFestivalId,
    AnonFestivalNotFound,
    FestivalNotFound,
    MovieNotFound,
    MovieAlreadyInFestival,
    PastStartDate,
    FestivalPeriodTooShort,
    InsuficientBalance,
    FestivalNotActive,
    InvalidVote,
    NoPermission,
    AlreadyDecrypted,
}

/// What the anonymous festival pallet reports to the outside world.
#[derive(Clone, Debug, PartialEq, Eq)]
pub enum Event {
    /// Declared for the runtime; no call deposits it.
    SomethingStored(u32, u64),
    /// The account added the movie with this key to the festival.
    MovieAddedToFestival(u32, Vec<u8>, u64),
    /// A festival got this id and belongs to this account.
    FestivalCreated(u32, u64),
}

/// An event as a mathematical value.
pub enum EventView {
    SomethingStored(u32, u64),
    MovieAddedToFestival(u32, Seq<u8>, u64),
    FestivalCreated(u32, u64),
}

impl View for Event {
    type V = EventView;

    open spec fn view(&self) -> EventView {
        match self {
            Event::SomethingStored(n, who) => EventView::SomethingStored(*n, *who),
            Event::MovieAddedToFestival(f, m, who) => EventView::MovieAddedToFestival(*f, m@, *who),
            Event::FestivalCreated(f, who) => EventView::FestivalCreated(*f, *who),
        }
    }
}

/// A list of events as mathematical values.
pub open spec fn event_views(s: Seq<Event>) -> Seq<EventView> {
    s.map_values(|e: Event| e@)
}

/// The constants the runtime gives the pallet.
#[derive(Clone, Copy, Debug)]
pub struct Config {
    /// The longest name or description stored.
    pub string_limit: u32,
    /// The longest movie key.
    pub movie_string_limit: u32,
    /// The fewest blocks a festival lasts.
    pub min_festival_duration: u64,
    /// The blocks between the end of a festival and the count of its votes.
    pub max_decryption_period: u64,
    /// The least collateral a station member reserves.
    pub min_member_slash_amount: u128,
    /// What a voter pays the member decrypting its vote.
    pub station_member_payout: u128,
    /// The identifier of the pallet, from which its account is derived.
    pub pallet_id: [u8; 8],
}

/// The votes: festival and vote id, then the vote, in the order cast.
pub type Votes = Seq<((u32, u32), AnonVoteView)>;

/// The decrypted votes: festival, vote id and decrypted content, then the
/// amount staked, in the order decrypted.
pub type DecryptedVotes = Seq<((u32, u32, Seq<u8>), u128)>;

/// The storage of the anonymous festival pallet.
pub struct Pallet {
    config: Config,
    festival_start_time: Table<(u64, u32), ()>,
    festival_end_time: Table<(u64, u32), ()>,
    festival_expiration: Table<(u64, u32), ()>,
    polling_stations: Table<u32, PollingStation>,
    polling_station_members: Table<(u32, u64), Vec<u8>>,
    anon_festivals: Table<u32, AnonFestival>,
    anon_votes: Table<(u32, u32), AnonVote>,
    decrypted_votes: Table<(u32, u32, Vec<u8>), u128>,
    movies_in_festival: Table<(u32, Vec<u8>), ()>,
    owned_festivals: Table<u64, u32>,
    next_polling_station_id: u32,
    next_anon_festival_id: u32,
    next_anon_vote_id: u32,
    total_lockup: Table<u32, u128>,
    events: Vec<Event>,
}

/// The storage of the anonymous festival pallet as a mathematical value.
#[verifier::ext_equal]
pub struct AnonState {
    pub config: Config,
    /// The blocks at which festivals open.
    pub festival_start_time: TimeIndex,
    /// The blocks at which festivals close for voting.
    pub festival_end_time: TimeIndex,
    /// The blocks at which the votes of festivals are counted.
    pub festival_expiration: TimeIndex,
    /// The polling stations, by id.
    pub polling_stations: Map<u32, PollingStationView>,
    /// The public key of each member of each station.
    pub polling_station_members: Map<(u32, u64), Seq<u8>>,
    /// The festivals, by id.
    pub anon_festivals: Map<u32, AnonFestivalView>,
    /// The votes, in the order cast.
    pub anon_votes: Votes,
    /// The decrypted votes, in the order decrypted.
    pub decrypted_votes: DecryptedVotes,
    /// The movies of each festival.
    pub movies_in_festival: Set<(u32, Seq<u8>)>,
    /// The last festival each account created.
    pub owned_festivals: Map<u64, u32>,
    /// The id the next station gets.
    pub next_polling_station_id: u32,
    /// The id the next festival gets.
    pub next_anon_festival_id: u32,
    /// The id the next vote gets.
    pub next_anon_vote_id: u32,
    /// What was staked in each festival, where anything was.
    pub total_lockup: Map<u32, u128>,
}

/// The account of the pallet.
pub open spec fn treasury(st: AnonState) -> u64 {
    pallet_account(st.config.pallet_id@) as u64
}

/// The votes by festival and vote id.
pub open spec fn votes_map(st: AnonState) -> Map<(u32, u32), AnonVoteView> {
    entries_map(st.anon_votes)
}

/// The value of a lockup map at `f`, zero where nothing is stored.
pub open spec fn lockup_value(m: Map<u32, u128>, f: u32) -> int {
    if m.dom().contains(f) {
        m[f] as int
    } else {
        0
    }
}

/// What was staked in festival `f`.
pub open spec fn lockup_of(st: AnonState, f: u32) -> int {
    lockup_value(st.total_lockup, f)
}

/// What the votes cast in festival `f` stake.
pub open spec fn vote_sum(s: Votes, f: u32) -> int
    decreases s.len(),
{
    if s.len() == 0 {
        0
    } else {
        vote_sum(s.drop_last(), f) + (if s.last().0.0 == f {
            s.last().1.amount as int
        } else {
            0
        })
    }
}

/// What the decrypted votes of festival `f` stake.
pub open spec fn decrypted_vote_sum(s: Votes, f: u32) -> int
    decreases s.len(),
{
    if s.len() == 0 {
        0
    } else {
        decrypted_vote_sum(s.drop_last(), f) + (if s.last().0.0 == f && s.last().1.vote_status
            == AnonVoteStatus::Decrypted {
            s.last().1.amount as int
        } else {
            0
        })
    }
}

/// The decrypted votes of festival `f`, as content and amount, in order.
pub open spec fn decrypted_stakes(d: DecryptedVotes, f: u32) -> Seq<(Seq<u8>, u128)>
    decreases d.len(),
{
    if d.len() == 0 {
        Seq::empty()
    } else {
        let p = decrypted_stakes(d.drop_last(), f);
        if d.last().0.0 == f {
            p.push((d.last().0.2, d.last().1))
        } else {
            p
        }
    }
}

/// Whether every entry of a time index names a festival.
pub open spec fn index_names_festivals(idx: TimeIndex, festivals: Map<u32, AnonFestivalView>) -> bool {
    &&& keys_distinct(idx)
    &&& forall|i: int| 0 <= i < idx.len() ==> festivals.dom().contains(#[trigger] idx[i].0.1)
}

/// Whether the votes have distinct keys, with ids below the counter.
pub open spec fn votes_keyed(s: Votes, next: u32) -> bool {
    &&& keys_distinct(s)
    &&& forall|i: int| 0 <= i < s.len() ==> (#[trigger] s[i]).0.1 < next
}

/// Whether the lockup of every festival is what its votes stake.
pub open spec fn lockups_match(lockup: Map<u32, u128>, s: Votes) -> bool {
    forall|f: u32| #[trigger] lockup_value(lockup, f) == vote_sum(s, f)
}

/// Whether every decrypted vote is recorded in its vote, and the decrypted
/// votes of every festival stake what its decrypted votes do.
pub open spec fn decryptions_match(d: DecryptedVotes, s: Votes) -> bool {
    &&& keys_distinct(d)
    &&& forall|f: u32| #[trigger] stake_sum(decrypted_stakes(d, f)) == decrypted_vote_sum(s, f)
    &&& forall|i: int|
        0 <= i < d.len() ==> {
            let k = (#[trigger] d[i]).0;
            let m = entries_map(s);
            &&& m.dom().contains((k.0, k.1))
            &&& m[(k.0, k.1)].vote_status == AnonVoteStatus::Decrypted
            &&& m[(k.0, k.1)].raw_vote == k.2
            &&& m[(k.0, k.1)].amount == d[i].1
        }
}

/// What holds of the storage after every call: festival ids are below the
/// counter and every time index entry names a festival; votes have
/// distinct ids below the counter; the lockup of every festival is what
/// its votes stake; and every decrypted vote is recorded, with its content
/// and amount, in its vote.
pub open spec fn anon_invariant(st: AnonState) -> bool {
    &&& forall|f: u32| #[trigger] st.anon_festivals.dom().contains(f) ==> f < st.next_anon_festival_id
    &&& index_names_festivals(st.festival_start_time, st.anon_festivals)
    &&& index_names_festivals(st.festival_end_time, st.anon_festivals)
    &&& index_names_festivals(st.festival_expiration, st.anon_festivals)
    &&& votes_keyed(st.anon_votes, st.next_anon_vote_id)
    &&& lockups_match(st.total_lockup, st.anon_votes)
    &&& decryptions_match(st.decrypted_votes, st.anon_votes)
    &&& decrypted_fit(st.decrypted_votes)
}

/// Whether creating a festival gets as far as measuring its period: the
/// id counter is not exhausted, the texts fit and the start lies ahead.
pub open spec fn reaches_period_check(st: AnonState, name: Seq<u8>, description: Seq<u8>, start_block: u64, now: u64) -> bool {
    &&& st.next_anon_festival_id < u32::MAX
    &&& fits(name, st.config.string_limit)
    &&& fits(description, st.config.string_limit)
    &&& now < start_block
}

/// Why creating a festival fails, if it does.
pub open spec fn create_anon_festival_error(
    st: AnonState,
    name: Seq<u8>,
    description: Seq<u8>,
    start_block: u64,
    end_block: u64,
    now: u64,
) -> Option<Error> {
    if st.next_anon_festival_id == u32::MAX {
        Some(Error::Overflow)
    } else if !fits(name, st.config.string_limit) || !fits(description, st.config.string_limit) {
        Some(Error::BadMetadata)
    } else if !(now < start_block) {
        Some(Error::PastStartDate)
    } else if end_block - start_block < st.config.min_festival_duration {
        Some(Error::FestivalPeriodTooShort)
    } else {
        None
    }
}

/// The storage after `who` creates a festival: it is stored, becomes the
/// one `who` owns, and is indexed under its start, its end, and its end
/// plus the decryption period.
pub open spec fn anon_festival_created(
    st: AnonState,
    who: u64,
    name: Seq<u8>,
    description: Seq<u8>,
    min_entry: u128,
    start_block: u64,
    end_block: u64,
) -> AnonState {
    let id = st.next_anon_festival_id;
    AnonState {
        anon_festivals: st.anon_festivals.insert(
            id,
            AnonFestivalView {
                creator: who,
                name,
                description,
                status: AnonFestivalStatus::RecentlyCreated,
                min_entry,
            },
        ),
        owned_festivals: st.owned_festivals.insert(who, id),
        festival_start_time: st.festival_start_time.push(((start_block, id), ())),
        festival_end_time: st.festival_end_time.push(((end_block, id), ())),
        festival_expiration: st.festival_expiration.push(
            (((end_block + st.config.max_decryption_period) as u64, id), ()),
        ),
        next_anon_festival_id: (id + 1) as u32,
        ..st
    }
}

/// The storage after creating a festival fails with `e`. The id is taken
/// from the counter before the texts are checked, and the festival is
/// stored and indexed under its start before the dates are checked; so a
/// text too long leaves the id used up, and a date refused leaves the
/// festival stored and indexed under its start as well, owned by nobody and
/// indexed under no end.
pub open spec fn anon_festival_create_failed(
    st: AnonState,
    e: Error,
    who: u64,
    name: Seq<u8>,
    description: Seq<u8>,
    min_entry: u128,
    start_block: u64,
) -> AnonState {
    let id = st.next_anon_festival_id;
    if e is Overflow {
        st
    } else if e is BadMetadata {
        AnonState { next_anon_festival_id: (id + 1) as u32, ..st }
    } else {
        AnonState {
            anon_festivals: st.anon_festivals.insert(
                id,
                AnonFestivalView {
                    creator: who,
                    name,
                    description,
                    status: AnonFestivalStatus::RecentlyCreated,
                    min_entry,
                },
            ),
            festival_start_time: st.festival_start_time.push(((start_block, id), ())),
            next_anon_festival_id: (id + 1) as u32,
            ..st
        }
    }
}

/// Why adding movie `movie` to festival `f` fails, if it does.
pub open spec fn add_movie_error(st: AnonState, movies: movie::MovieState, f: u32, movie: Seq<u8>) -> Option<Error> {
    if !fits(movie, st.config.movie_string_limit) {
        Some(Error::BadMetadata)
    } else if !st.anon_festivals.dom().contains(f) {
        Some(Error::FestivalNotFound)
    } else if !movies.movies.dom().contains(movie) {
        Some(Error::MovieNotFound)
    } else if st.movies_in_festival.contains((f, movie)) {
        Some(Error::MovieAlreadyInFestival)
    } else {
        None
    }
}

/// Why creating a polling station fails, if it does.
pub open spec fn create_station_error(st: AnonState, f: u32, name: Seq<u8>, description: Seq<u8>) -> Option<Error> {
    if !st.anon_festivals.dom().contains(f) {
        Some(Error::InvalidFestivalId)
    } else if st.next_polling_station_id == u32::MAX {
        Some(Error::Overflow)
    } else if !fits(name, st.config.string_limit) || !fits(description, st.config.string_limit) {
        Some(Error::BadMetadata)
    } else {
        None
    }
}

/// The storage after creating a polling station fails with `e`: the id is
/// taken from the counter before the texts are checked, so a text too long
/// leaves it used up.
pub open spec fn station_create_failed(st: AnonState, e: Error) -> AnonState {
    if e is BadMetadata {
        AnonState { next_polling_station_id: (st.next_polling_station_id + 1) as u32, ..st }
    } else {
        st
    }
}

/// The storage after `who` creates a polling station for festival `f`.
pub open spec fn station_created(st: AnonState, who: u64, f: u32, name: Seq<u8>, description: Seq<u8>) -> AnonState {
    AnonState {
        polling_stations: st.polling_stations.insert(
            st.next_polling_station_id,
            PollingStationView { owner: who, anon_fest_id: f, name, description },
        ),
        next_polling_station_id: (st.next_polling_station_id + 1) as u32,
        ..st
    }
}

/// Why `who` cannot join station `station`, if so (the reserve aside).
pub open spec fn add_member_error(st: AnonState, who: u64, station: u32, collateral: u128) -> Option<Error> {
    if !st.polling_stations.dom().contains(station) {
        Some(Error::BadMetadata)
    } else if st.polling_station_members.dom().contains((station, who)) {
        Some(Error::BadMetadata)
    } else if collateral < st.config.min_member_slash_amount {
        Some(Error::InsuficientBalance)
    } else {
        None
    }
}

/// Why `who` cannot decrypt vote `vote_id` of festival `f`, if so.
pub open spec fn decrypt_error(st: AnonState, who: u64, f: u32, vote_id: u32) -> Option<Error> {
    if !votes_map(st).dom().contains((f, vote_id)) {
        Some(Error::InvalidVote)
    } else if votes_map(st)[(f, vote_id)].delegated_encryptor != who {
        Some(Error::NoPermission)
    } else if votes_map(st)[(f, vote_id)].vote_status != AnonVoteStatus::Encrypted {
        Some(Error::AlreadyDecrypted)
    } else {
        None
    }
}

/// The votes with the vote under key `k` replaced by `v`.
pub open spec fn replace_vote(s: Votes, k: (u32, u32), v: AnonVoteView) -> Votes {
    let i = choose|i: int| 0 <= i < s.len() && s[i].0 == k;
    s.update(i, (k, v))
}

/// The storage after vote `vote_id` of festival `f` is decrypted as
/// `raw_vote`: the vote records its content, and its stake joins the
/// decrypted votes.
pub open spec fn vote_decrypted(st: AnonState, f: u32, vote_id: u32, raw_vote: Seq<u8>) -> AnonState {
    let v = votes_map(st)[(f, vote_id)];
    AnonState {
        anon_votes: replace_vote(
            st.anon_votes,
            (f, vote_id),
            AnonVoteView { raw_vote, vote_status: AnonVoteStatus::Decrypted, ..v },
        ),
        decrypted_votes: st.decrypted_votes.push(((f, vote_id, raw_vote), v.amount)),
        ..st
    }
}

/// Why a vote in festival `f` through station `station` cannot be cast,
/// if so, up to the check of the voter's key.
pub open spec fn vote_open_error(st: AnonState, f: u32, station: u32) -> Option<Error> {
    if !st.anon_festivals.dom().contains(f) {
        Some(Error::FestivalNotFound)
    } else if st.anon_festivals[f].status != AnonFestivalStatus::Open {
        Some(Error::FestivalNotActive)
    } else if !st.polling_stations.dom().contains(station) {
        Some(Error::InvalidFestivalId)
    } else {
        None
    }
}

/// Why a vote delegated to `delegate` cannot be cast, if so: the checks of
/// [`vote_open_error`], the vote counter, and the delegate's membership.
pub open spec fn vote_error(st: AnonState, f: u32, station: u32, delegate: u64) -> Option<Error> {
    if vote_open_error(st, f, station) is Some {
        vote_open_error(st, f, station)
    } else if st.next_anon_vote_id == u32::MAX {
        Some(Error::Overflow)
    } else if !st.polling_station_members.dom().contains((station, delegate)) {
        Some(Error::Overflow)
    } else {
        None
    }
}

/// Why a vote that pays its delegate cannot be cast, if so (the transfers
/// aside): the checks of [`vote_open_error`] and the vote counter.
pub open spec fn vote2_error(st: AnonState, f: u32, station: u32) -> Option<Error> {
    if vote_open_error(st, f, station) is Some {
        vote_open_error(st, f, station)
    } else if st.next_anon_vote_id == u32::MAX {
        Some(Error::Overflow)
    } else {
        None
    }
}

/// The storage with the next vote id used up.
pub open spec fn vote_id_taken(st: AnonState) -> AnonState {
    AnonState { next_anon_vote_id: (st.next_anon_vote_id + 1) as u32, ..st }
}

/// The storage after casting a vote fails: the vote id is taken once the
/// festival and the station are found, before the delegate's membership is
/// checked, so a delegate who is no member leaves it used up.
pub open spec fn vote_failed(st: AnonState, f: u32, station: u32) -> AnonState {
    if vote_open_error(st, f, station) is None && st.next_anon_vote_id < u32::MAX {
        vote_id_taken(st)
    } else {
        st
    }
}

/// The storage after `who` casts an encrypted vote staking `amount`.
pub open spec fn vote_cast(
    st: AnonState,
    who: u64,
    f: u32,
    station: u32,
    delegate: u64,
    pub_key: Seq<u8>,
    encrypted_vote: Seq<u8>,
    amount: u128,
) -> AnonState {
    let id = st.next_anon_vote_id;
    AnonState {
        anon_votes: st.anon_votes.push(
            (
                (f, id),
                AnonVoteView {
                    owner: who,
                    owner_pub_key: pub_key,
                    anon_fest_id: f,
                    pooling_station: station,
                    delegated_encryptor: delegate,
                    enc_vote: encrypted_vote,
                    raw_vote: encrypted_vote,
                    vote_status: AnonVoteStatus::Encrypted,
                    amount,
                },
            ),
        ),
        next_anon_vote_id: (id + 1) as u32,
        total_lockup: st.total_lockup.insert(f, (lockup_of(st, f) + amount) as u128),
        ..st
    }
}

/// The festival with its status replaced.
pub open spec fn with_status(fest: AnonFestivalView, status: AnonFestivalStatus) -> AnonFestivalView {
    AnonFestivalView { status, ..fest }
}

/// The festivals with those of `ids` given status `status`.
pub open spec fn statuses_set(
    festivals: Map<u32, AnonFestivalView>,
    ids: Seq<u32>,
    status: AnonFestivalStatus,
) -> Map<u32, AnonFestivalView> {
    Map::new(
        |f: u32| festivals.dom().contains(f),
        |f: u32|
            if ids.contains(f) {
                with_status(festivals[f], status)
            } else {
                festivals[f]
            },
    )
}

/// The sums of votes, one vote at a time.
proof fn lemma_vote_sums_unfold(s: Votes, g: u32)
    requires
        s.len() > 0,
    ensures
        vote_sum(s, g) == vote_sum(s.drop_last(), g) + (if s.last().0.0 == g {
            s.last().1.amount as int
        } else {
            0
        }),
        decrypted_vote_sum(s, g) == decrypted_vote_sum(s.drop_last(), g) + (if s.last().0.0 == g
            && s.last().1.vote_status == AnonVoteStatus::Decrypted {
            s.last().1.amount as int
        } else {
            0
        }),
{
}

/// Replacing a vote by one with the same key and amount keeps what the
/// votes stake, and changes what the decrypted votes stake by its status.
proof fn lemma_vote_sums_update(s: Votes, i: int, v: AnonVoteView, g: u32)
    requires
        0 <= i < s.len(),
        v.amount == s[i].1.amount,
    ensures
        vote_sum(s.update(i, (s[i].0, v)), g) == vote_sum(s, g),
        decrypted_vote_sum(s.update(i, (s[i].0, v)), g) == decrypted_vote_sum(s, g) + (if s[i].0.0 == g {
            (if v.vote_status == AnonVoteStatus::Decrypted {
                v.amount as int
            } else {
                0
            }) - (if s[i].1.vote_status == AnonVoteStatus::Decrypted {
                s[i].1.amount as int
            } else {
                0
            })
        } else {
            0
        }),
    decreases s.len(),
{
    let t = s.update(i, (s[i].0, v));
    lemma_vote_sums_unfold(s, g);
    lemma_vote_sums_unfold(t, g);
    if i == s.len() - 1 {
        assert(t.drop_last() =~= s.drop_last());
    } else {
        assert(t.drop_last() =~= s.drop_last().update(i, (s[i].0, v)));
        lemma_vote_sums_update(s.drop_last(), i, v, g);
    }
}

/// The decrypted votes stake no more than all votes.
proof fn lemma_decrypted_within_votes(s: Votes, g: u32)
    ensures
        0 <= decrypted_vote_sum(s, g) <= vote_sum(s, g),
    decreases s.len(),
{
    if s.len() > 0 {
        lemma_decrypted_within_votes(s.drop_last(), g);
    }
}

/// The decrypted stakes, one entry at a time.
proof fn lemma_decrypted_stakes_unfold(d: DecryptedVotes, g: u32)
    requires
        d.len() > 0,
    ensures
        stake_sum(decrypted_stakes(d, g)) == stake_sum(decrypted_stakes(d.drop_last(), g)) + (if d.last().0.0 == g {
            d.last().1 as int
        } else {
            0
        }),
{
    let p = decrypted_stakes(d.drop_last(), g);
    if d.last().0.0 == g {
        assert(p.push((d.last().0.2, d.last().1)).drop_last() =~= p);
    }
}

/// The storage after the festivals starting at block `now` open; their
/// start entries leave the index.
pub open spec fn activated(st: AnonState, now: u64) -> AnonState {
    AnonState {
        anon_festivals: statuses_set(st.anon_festivals, ids_at(st.festival_start_time, now), AnonFestivalStatus::Open),
        festival_start_time: without_block(st.festival_start_time, now),
        ..st
    }
}

/// Why festival `f` cannot close for voting, if so.
pub open spec fn close_check(st: AnonState, f: u32) -> Option<Error> {
    if !st.anon_festivals.dom().contains(f) {
        Some(Error::FestivalNotFound)
    } else if st.anon_festivals[f].status != AnonFestivalStatus::Open {
        Some(Error::FestivalNotActive)
    } else {
        None
    }
}

/// The first reason, in order, why one of the festivals `ids` cannot close.
pub open spec fn close_error(st: AnonState, ids: Seq<u32>) -> Option<Error>
    decreases ids.len(),
{
    if ids.len() == 0 {
        None
    } else {
        match close_error(st, ids.drop_last()) {
            Some(e) => Some(e),
            None => close_check(st, ids.last()),
        }
    }
}

/// The storage after the festivals ending at block `now` close for voting
/// and await decryption; their end entries leave the index.
pub open spec fn closed(st: AnonState, now: u64) -> AnonState {
    AnonState {
        anon_festivals: statuses_set(st.anon_festivals, ids_at(st.festival_end_time, now), AnonFestivalStatus::OnDecryption),
        festival_end_time: without_block(st.festival_end_time, now),
        ..st
    }
}

/// The decrypted votes of festival `f`, as content and amount.
pub open spec fn stakes_of(st: AnonState, f: u32) -> Seq<(Seq<u8>, u128)> {
    decrypted_stakes(st.decrypted_votes, f)
}

/// The winning contents of festival `f`.
pub open spec fn winners_of(st: AnonState, f: u32) -> Set<Seq<u8>> {
    winning_set(stakes_of(st, f))
}

/// What the decrypted votes for the winners of festival `f` stake.
pub open spec fn winners_lockup(st: AnonState, f: u32) -> int {
    stake_on(stakes_of(st, f), winners_of(st, f))
}

/// Whether the market of festival `f` can be settled: the winning stakes
/// sum to more than zero, and each of them times a thousand fits the
/// balance type.
pub open spec fn payable(st: AnonState, f: u32) -> bool {
    let s = stakes_of(st, f);
    &&& winners_lockup(st, f) > 0
    &&& forall|j: int|
        0 <= j < s.len() && winners_of(st, f).contains(#[trigger] s[j].0) ==> s[j].1 * 1000 <= u128::MAX
}

/// Why the votes of festival `f` cannot be counted, if so: it is missing,
/// it is not awaiting decryption, or its market cannot be settled.
pub open spec fn count_check(st: AnonState, f: u32) -> Option<Error> {
    if !st.anon_festivals.dom().contains(f) {
        Some(Error::FestivalNotFound)
    } else if st.anon_festivals[f].status != AnonFestivalStatus::OnDecryption {
        Some(Error::FestivalNotActive)
    } else if stakes_of(st, f).len() > 0 && !payable(st, f) {
        Some(Error::Overflow)
    } else {
        None
    }
}

/// The first reason, in order, why the votes of one of the festivals `ids`
/// cannot be counted.
pub open spec fn count_error(st: AnonState, ids: Seq<u32>) -> Option<Error>
    decreases ids.len(),
{
    if ids.len() == 0 {
        None
    } else {
        match count_error(st, ids.drop_last()) {
            Some(e) => Some(e),
            None => count_check(st, ids.last()),
        }
    }
}

/// The payouts to the owners of the decrypted votes of festival `f` whose
/// content is in `w`, in the order decrypted: each gets
/// [`simple_reward`] of its stake.
pub open spec fn payouts_in(
    d: DecryptedVotes,
    votes: Map<(u32, u32), AnonVoteView>,
    f: u32,
    w: Set<Seq<u8>>,
    total: int,
    win: int,
) -> Seq<(u64, u128)>
    decreases d.len(),
{
    if d.len() == 0 {
        Seq::empty()
    } else {
        let p = payouts_in(d.drop_last(), votes, f, w, total, win);
        let e = d.last();
        if e.0.0 == f && w.contains(e.0.2) {
            p.push((votes[(e.0.0, e.0.1)].owner, simple_reward(total, e.1 as int, win) as u128))
        } else {
            p
        }
    }
}

/// The key under which the runtime stores the decrypted vote `vote_id`
/// with content `raw_vote`: the hashed SCALE encoding of the pair.
pub open spec fn decrypted_key(vote_id: u32, raw_vote: Seq<u8>) -> Seq<u8> {
    hashed_key(le_bytes_u32(vote_id) + scale_bytes(raw_vote))
}

/// The payouts of [`payouts_in`], each with the key of its decrypted vote.
pub open spec fn keyed_payouts_in(
    d: DecryptedVotes,
    votes: Map<(u32, u32), AnonVoteView>,
    f: u32,
    w: Set<Seq<u8>>,
    total: int,
    win: int,
) -> Seq<(Seq<u8>, (u64, u128))>
    decreases d.len(),
{
    if d.len() == 0 {
        Seq::empty()
    } else {
        let p = keyed_payouts_in(d.drop_last(), votes, f, w, total, win);
        let e = d.last();
        if e.0.0 == f && w.contains(e.0.2) {
            p.push(
                (
                    decrypted_key(e.0.1, e.0.2),
                    (votes[(e.0.0, e.0.1)].owner, simple_reward(total, e.1 as int, win) as u128),
                ),
            )
        } else {
            p
        }
    }
}

/// The payouts that settle festival `f`, in the order in which the
/// runtime walks the festival's decrypted votes: by the keys of their
/// entries.
pub open spec fn festival_payouts(st: AnonState, f: u32) -> Seq<(u64, u128)> {
    key_values(
        key_order(
            keyed_payouts_in(st.decrypted_votes, votes_map(st), f, winners_of(st, f), lockup_of(st, f), winners_lockup(st, f)),
        ),
    )
}

/// Whether the content of every decrypted vote has a length that its
/// encoding can state.
pub open spec fn decrypted_fit(d: DecryptedVotes) -> bool {
    forall|i: int| 0 <= i < d.len() ==> (#[trigger] d[i]).0.2.len() <= u32::MAX
}

/// The payouts that settle the festivals `ids`, in order.
pub open spec fn all_payouts(st: AnonState, ids: Seq<u32>) -> Seq<(u64, u128)>
    decreases ids.len(),
{
    if ids.len() == 0 {
        Seq::empty()
    } else {
        all_payouts(st, ids.drop_last()) + festival_payouts(st, ids.last())
    }
}

/// The sum of a list of payouts.
pub open spec fn payout_sum(p: Seq<(u64, u128)>) -> int
    decreases p.len(),
{
    if p.len() == 0 {
        0
    } else {
        payout_sum(p.drop_last()) + p.last().1
    }
}

/// The storage after the votes of the festivals expiring at block `now`
/// are counted: they finish normally and leave the expiration index.
pub open spec fn counted(st: AnonState, now: u64) -> AnonState {
    AnonState {
        anon_festivals: statuses_set(st.anon_festivals, ids_at(st.festival_expiration, now), AnonFestivalStatus::NormalFinish),
        festival_expiration: without_block(st.festival_expiration, now),
        ..st
    }
}

/// A stake on a winning content is at most the winners' total, and is one
/// of the festival's stakes.
proof fn lemma_stake_on_entry(d: DecryptedVotes, f: u32, w: Set<Seq<u8>>, i: int)
    requires
        0 <= i < d.len(),
        d[i].0.0 == f,
        w.contains(d[i].0.2),
    ensures
        d[i].1 <= stake_on(decrypted_stakes(d, f), w),
        decrypted_stakes(d, f).contains((d[i].0.2, d[i].1)),
    decreases d.len(),
{
    let p = d.drop_last();
    let sp = decrypted_stakes(p, f);
    lemma_stake_bounds(sp, w);
    if d.last().0.0 == f {
        let x = (d.last().0.2, d.last().1);
        assert(sp.push(x).drop_last() =~= sp);
        assert(decrypted_stakes(d, f)[sp.len() as int] == x);
    }
    if i < d.len() - 1 {
        lemma_stake_on_entry(p, f, w, i);
        assert(p[i] == d[i]);
        let j = choose|j: int| 0 <= j < sp.len() && sp[j] == (d[i].0.2, d[i].1);
        if d.last().0.0 == f {
            assert(decrypted_stakes(d, f)[j] == sp[j]);
        }
    }
}

/// The payouts of a festival add up to the rewards of its winning stakes.
proof fn lemma_payout_sum(d: DecryptedVotes, votes: Map<(u32, u32), AnonVoteView>, f: u32, w: Set<Seq<u8>>, total: int, win: int)
    requires
        win > 0,
        0 <= total <= u128::MAX,
        forall|i: int| 0 <= i < d.len() && d[i].0.0 == f && w.contains(d[i].0.2) ==> #[trigger] d[i].1 <= win,
    ensures
        payout_sum(payouts_in(d, votes, f, w, total, win)) == reward_total(decrypted_stakes(d, f), w, total, win),
    decreases d.len(),
{
    if d.len() > 0 {
        let p = d.drop_last();
        assert forall|i: int| 0 <= i < p.len() && p[i].0.0 == f && w.contains(p[i].0.2) implies #[trigger] p[i].1 <= win by {
            assert(d[i] == p[i]);
        }
        lemma_payout_sum(p, votes, f, w, total, win);
        let e = d.last();
        let pp = payouts_in(p, votes, f, w, total, win);
        let sp = decrypted_stakes(p, f);
        if e.0.0 == f {
            let x = (e.0.2, e.1);
            assert(sp.push(x).drop_last() =~= sp);
            if w.contains(e.0.2) {
                assert(d[d.len() - 1] == e);
                lemma_reward_bounded(total, e.1 as int, win);
                let y = (votes[(e.0.0, e.0.1)].owner, simple_reward(total, e.1 as int, win) as u128);
                assert(pp.push(y).drop_last() =~= pp);
            }
        }
    }
}

/// The keyed payouts carry the payouts of [`payouts_in`].
proof fn lemma_keyed_payouts(d: DecryptedVotes, votes: Map<(u32, u32), AnonVoteView>, f: u32, w: Set<Seq<u8>>, total: int, win: int)
    ensures
        key_values(keyed_payouts_in(d, votes, f, w, total, win)) == payouts_in(d, votes, f, w, total, win),
    decreases d.len(),
{
    if d.len() > 0 {
        lemma_keyed_payouts(d.drop_last(), votes, f, w, total, win);
        let k = keyed_payouts_in(d.drop_last(), votes, f, w, total, win);
        let e = d.last();
        let x = (
            decrypted_key(e.0.1, e.0.2),
            (votes[(e.0.0, e.0.1)].owner, simple_reward(total, e.1 as int, win) as u128),
        );
        assert(key_values(k.push(x)) =~= key_values(k).push(x.1));
    }
}

/// The sum of the payouts of a keyed list.
proof fn lemma_payout_sum_values(k: Seq<(Seq<u8>, (u64, u128))>)
    ensures
        payout_sum(key_values(k)) == value_sum(k, |p: (u64, u128)| p.1 as int),
    decreases k.len(),
{
    if k.len() > 0 {
        lemma_payout_sum_values(k.drop_last());
        assert(key_values(k).drop_last() =~= key_values(k.drop_last()));
    }
}

/// The payouts of a festival, walked in key order, sum to the payouts in
/// the order of decryption.
proof fn lemma_festival_payouts_sum(st: AnonState, f: u32)
    ensures
        payout_sum(festival_payouts(st, f)) == payout_sum(
            payouts_in(st.decrypted_votes, votes_map(st), f, winners_of(st, f), lockup_of(st, f), winners_lockup(st, f)),
        ),
{
    let k = keyed_payouts_in(st.decrypted_votes, votes_map(st), f, winners_of(st, f), lockup_of(st, f), winners_lockup(st, f));
    let g = |p: (u64, u128)| p.1 as int;
    lemma_payout_sum_values(key_order(k));
    lemma_key_order_sum(k, g);
    lemma_payout_sum_values(k);
    lemma_keyed_payouts(st.decrypted_votes, votes_map(st), f, winners_of(st, f), lockup_of(st, f), winners_lockup(st, f));
}

/// A festival without payouts in the order of decryption has none in any
/// order.
proof fn lemma_no_stakes_no_payouts(st: AnonState, f: u32)
    requires
        payouts_in(st.decrypted_votes, votes_map(st), f, winners_of(st, f), lockup_of(st, f), winners_lockup(st, f)).len() == 0,
    ensures
        festival_payouts(st, f) == Seq::<(u64, u128)>::empty(),
{
    let k = keyed_payouts_in(st.decrypted_votes, votes_map(st), f, winners_of(st, f), lockup_of(st, f), winners_lockup(st, f));
    lemma_keyed_payouts(st.decrypted_votes, votes_map(st), f, winners_of(st, f), lockup_of(st, f), winners_lockup(st, f));
    assert(key_values(k).len() == k.len());
    assert(key_order(k) =~= Seq::<(Seq<u8>, (u64, u128))>::empty());
    assert(festival_payouts(st, f) =~= Seq::<(u64, u128)>::empty());
}

/// The payouts that settle a festival never exceed what was staked in it.
pub proof fn lemma_payouts_within_lockup(st: AnonState, f: u32)
    requires
        anon_invariant(st),
        payable(st, f),
    ensures
        0 <= payout_sum(festival_payouts(st, f)) <= lockup_of(st, f),
{
    let d = st.decrypted_votes;
    let w = winners_of(st, f);
    let win = winners_lockup(st, f);
    let total = lockup_of(st, f);
    assert forall|i: int| 0 <= i < d.len() && d[i].0.0 == f && w.contains(d[i].0.2) implies #[trigger] d[i].1 <= win by {
        lemma_stake_on_entry(d, f, w, i);
    }
    assert(total <= u128::MAX);
    lemma_payout_sum(d, votes_map(st), f, w, total, win);
    lemma_rewards_within_lockup(stakes_of(st, f), w, total);
    lemma_festival_payouts_sum(st, f);
}

/// The decrypted votes of a festival stake no more than its lockup.
proof fn lemma_decrypted_within_lockup(st: AnonState, f: u32)
    requires
        anon_invariant(st),
    ensures
        stake_sum(stakes_of(st, f)) <= lockup_of(st, f) <= u128::MAX,
{
    lemma_decrypted_within_votes(st.anon_votes, f);
    assert(stake_sum(decrypted_stakes(st.decrypted_votes, f)) == decrypted_vote_sum(st.anon_votes, f));
    assert(lockup_value(st.total_lockup, f) == vote_sum(st.anon_votes, f));
}

/// A festival without decrypted votes pays nothing.
proof fn lemma_payouts_without_stakes(d: DecryptedVotes, votes: Map<(u32, u32), AnonVoteView>, f: u32, w: Set<Seq<u8>>, total: int, win: int)
    requires
        decrypted_stakes(d, f).len() == 0,
    ensures
        payouts_in(d, votes, f, w, total, win) == Seq::<(u64, u128)>::empty(),
    decreases d.len(),
{
    if d.len() > 0 {
        if d.last().0.0 == f {
            assert(decrypted_stakes(d, f).len() > 0);
        }
        lemma_payouts_without_stakes(d.drop_last(), votes, f, w, total, win);
    }
}

/// The first failure among a prefix of the festivals is the first failure
/// among all of them.
proof fn lemma_close_error_prefix(st: AnonState, ids: Seq<u32>, k: int)
    requires
        0 <= k <= ids.len(),
        close_error(st, ids.take(k)) is Some,
    ensures
        close_error(st, ids) == close_error(st, ids.take(k)),
    decreases ids.len(),
{
    if k == ids.len() {
        assert(ids.take(k) =~= ids);
    } else {
        assert(ids.drop_last().take(k) =~= ids.take(k));
        lemma_close_error_prefix(st, ids.drop_last(), k);
    }
}

/// The first failure among a prefix of the festivals is the first failure
/// among all of them.
proof fn lemma_count_error_prefix(st: AnonState, ids: Seq<u32>, k: int)
    requires
        0 <= k <= ids.len(),
        count_error(st, ids.take(k)) is Some,
    ensures
        count_error(st, ids) == count_error(st, ids.take(k)),
    decreases ids.len(),
{
    if k == ids.len() {
        assert(ids.take(k) =~= ids);
    } else {
        assert(ids.drop_last().take(k) =~= ids.take(k));
        lemma_count_error_prefix(st, ids.drop_last(), k);
    }
}

impl View for Pallet {
    type V = AnonState;

    closed spec fn view(&self) -> AnonState {
        AnonState {
            config: self.config,
            festival_start_time: self.festival_start_time.entries(),
            festival_end_time: self.festival_end_time.entries(),
            festival_expiration: self.festival_expiration.entries(),
            polling_stations: self.polling_stations@,
            polling_station_members: self.polling_station_members@,
            anon_festivals: self.anon_festivals@,
            anon_votes: self.anon_votes.entries(),
            decrypted_votes: self.decrypted_votes.entries(),
            movies_in_festival: self.movies_in_festival@.dom(),
            owned_festivals: self.owned_festivals@,
            next_polling_station_id: self.next_polling_station_id,
            next_anon_festival_id: self.next_anon_festival_id,
            next_anon_vote_id: self.next_anon_vote_id,
            total_lockup: self.total_lockup@,
        }
    }
}

impl Pallet {
    /// The events deposited so far, oldest first.
    pub closed spec fn event_log(&self) -> Seq<EventView> {
        event_views(self.events@)
    }

    /// The invariant of the storage: tables without repeated keys, and
    /// [`anon_invariant`].
    pub closed spec fn wf(&self) -> bool {
        &&& self.festival_start_time.wf()
        &&& self.festival_end_time.wf()
        &&& self.festival_expiration.wf()
        &&& self.polling_stations.wf()
        &&& self.polling_station_members.wf()
        &&& self.anon_festivals.wf()
        &&& self.anon_votes.wf()
        &&& self.decrypted_votes.wf()
        &&& self.movies_in_festival.wf()
        &&& self.owned_festivals.wf()
        &&& self.total_lockup.wf()
        &&& anon_invariant(self@)
    }

    /// The well-formed storage satisfies the invariant.
    pub proof fn lemma_wf_invariant(&self)
        requires
            self.wf(),
        ensures
            anon_invariant(self@),
    {
    }

    /// Empty storage.
    pub fn new(config: Config) -> (p: Self)
        ensures
            p.wf(),
            p@.config == config,
            p@.festival_start_time == TimeIndex::empty(),
            p@.festival_end_time == TimeIndex::empty(),
            p@.festival_expiration == TimeIndex::empty(),
            p@.polling_stations == Map::<u32, PollingStationView>::empty(),
            p@.polling_station_members == Map::<(u32, u64), Seq<u8>>::empty(),
            p@.anon_festivals == Map::<u32, AnonFestivalView>::empty(),
            p@.anon_votes == Votes::empty(),
            p@.decrypted_votes == DecryptedVotes::empty(),
            p@.movies_in_festival == Set::<(u32, Seq<u8>)>::empty(),
            p@.owned_festivals == Map::<u64, u32>::empty(),
            p@.next_polling_station_id == 0,
            p@.next_anon_festival_id == 0,
            p@.next_anon_vote_id == 0,
            p@.total_lockup == Map::<u32, u128>::empty(),
            p.event_log() == Seq::<EventView>::empty(),
    {
        let p = Pallet {
            config,
            festival_start_time: Table::new(),
            festival_end_time: Table::new(),
            festival_expiration: Table::new(),
            polling_stations: Table::new(),
            polling_station_members: Table::new(),
            anon_festivals: Table::new(),
            anon_votes: Table::new(),
            decrypted_votes: Table::new(),
            movies_in_festival: Table::new(),
            owned_festivals: Table::new(),
            next_polling_station_id: 0,
            next_anon_festival_id: 0,
            next_anon_vote_id: 0,
            total_lockup: Table::new(),
            events: Vec::new(),
        };
        assert(p@.movies_in_festival =~= Set::<(u32, Seq<u8>)>::empty());
        assert(p.event_log() =~= Seq::<EventView>::empty());
        p
    }

    /// Hands out the events deposited so far and forgets them.
    pub fn take_events(&mut self) -> (r: Vec<Event>)
        ensures
            event_views(r@) == old(self).event_log(),
            final(self).event_log() == Seq::<EventView>::empty(),
            final(self)@ == old(self)@,
            final(self).wf() == old(self).wf(),
    {
        let mut taken: Vec<Event> = Vec::new();
        std::mem::swap(&mut taken, &mut self.events);
        assert(self.event_log() =~= Seq::<EventView>::empty());
        taken
    }

    /// Appends `e` to the deposited events.
    fn deposit_event(&mut self, e: Event)
        ensures
            final(self).event_log() == old(self).event_log().push(e@),
            final(self)@ == old(self)@,
            final(self).wf() == old(self).wf(),
    {
        let ghost before = self.events@;
        self.events.push(e);
        assert(event_views(self.events@) =~= event_views(before).push(e@));
    }

    /// The account of the pallet, which holds the stakes.
    pub fn account_id(&self) -> (r: u64)
        ensures
            r == treasury(self@),
    {
        account_of_pallet(self.config.pallet_id)
    }

    /// Whether `(b, f)` is fresh in a time index that names only festivals
    /// below the counter, for the next festival `f`.
    proof fn lemma_fresh_in_index(idx: TimeIndex, festivals: Map<u32, AnonFestivalView>, next: u32, b: u64)
        requires
            index_names_festivals(idx, festivals),
            forall|f: u32| #[trigger] festivals.dom().contains(f) ==> f < next,
        ensures
            !has_key(idx, (b, next)),
    {
        if has_key(idx, (b, next)) {
            let i = choose|i: int| 0 <= i < idx.len() && idx[i].0 == (b, next);
            assert(festivals.dom().contains(idx[i].0.1));
        }
    }

    /// `who` creates a festival running from `start_block` to `end_block`,
    /// at block `now`; returns its id.
    pub fn do_create_anon_festival(
        &mut self,
        who: u64,
        name: Vec<u8>,
        description: Vec<u8>,
        min_ticket_price: u128,
        start_block: u64,
        end_block: u64,
        now: u64,
    ) -> (r: Result<u32, Error>)
        requires
            old(self).wf(),
            reaches_period_check(old(self)@, name@, description@, start_block, now) ==> start_block <= end_block,
            create_anon_festival_error(old(self)@, name@, description@, start_block, end_block, now) is None
                ==> end_block + old(self)@.config.max_decryption_period <= u64::MAX,
        ensures
            final(self).wf(),
            r is Ok ==> ({
                let fest = final(self)@.anon_festivals[old(self)@.next_anon_festival_id];
                &&& final(self)@.anon_festivals.dom().contains(old(self)@.next_anon_festival_id)
                &&& fest.creator == who && fest.name == name@ && fest.description == description@
                &&& fest.min_entry == min_ticket_price
            }),
            match create_anon_festival_error(old(self)@, name@, description@, start_block, end_block, now) {
                Some(e) => r == Err::<u32, Error>(e) && final(self)@ == anon_festival_create_failed(
                    old(self)@,
                    e,
                    who,
                    name@,
                    description@,
                    min_ticket_price,
                    start_block,
                ) && final(self).event_log() == old(self).event_log(),
                None => r == Ok::<u32, Error>(old(self)@.next_anon_festival_id) && final(self)@
                    == anon_festival_created(old(self)@, who, name@, description@, min_ticket_price, start_block, end_block)
                    && final(self).event_log() == old(self).event_log().push(
                        EventView::FestivalCreated(old(self)@.next_anon_festival_id, who),
                    ),
            },
    {
        let ghost pre = self@;
        let anon_fest_id = self.next_anon_festival_id;
        let next = match next_id(anon_fest_id) {
            Some(n) => n,
            None => return Err(Error::Overflow),
        };
        self.next_anon_festival_id = next;
        assert(self@ =~= anon_festival_create_failed(
            pre,
            Error::BadMetadata,
            who,
            name@,
            description@,
            min_ticket_price,
            start_block,
        ));
        let limit = self.config.string_limit;
        if !fits_limit(&name, limit) || !fits_limit(&description, limit) {
            return Err(Error::BadMetadata);
        }
        let anon_fest = AnonFestival {
            creator: who,
            name,
            description,
            min_entry: min_ticket_price,
            status: AnonFestivalStatus::RecentlyCreated,
        };
        proof {
            Self::lemma_fresh_in_index(pre.festival_start_time, pre.anon_festivals, anon_fest_id, start_block);
            if self.festival_start_time@.dom().contains((start_block, anon_fest_id)) {
                let i = choose|i: int| 0 <= i < pre.festival_start_time.len() && pre.festival_start_time[i].0 == (start_block, anon_fest_id);
                lemma_entry_in_map(pre.festival_start_time, i);
            }
        }
        self.anon_festivals.insert(anon_fest_id, anon_fest);
        self.festival_start_time.insert((start_block, anon_fest_id), ());
        proof {
            let failed = anon_festival_create_failed(
                pre,
                Error::PastStartDate,
                who,
                name@,
                description@,
                min_ticket_price,
                start_block,
            );
            assert(self@ =~= failed);
            assert(failed == anon_festival_create_failed(
                pre,
                Error::FestivalPeriodTooShort,
                who,
                name@,
                description@,
                min_ticket_price,
                start_block,
            ));
        }
        if !(now < start_block) {
            return Err(Error::PastStartDate);
        }
        if end_block - start_block < self.config.min_festival_duration {
            return Err(Error::FestivalPeriodTooShort);
        }
        let expiration = end_block + self.config.max_decryption_period;
        proof {
            Self::lemma_fresh_in_index(pre.festival_end_time, pre.anon_festivals, anon_fest_id, end_block);
            Self::lemma_fresh_in_index(pre.festival_expiration, pre.anon_festivals, anon_fest_id, expiration);
            if self.festival_end_time@.dom().contains((end_block, anon_fest_id)) {
                let i = choose|i: int| 0 <= i < pre.festival_end_time.len() && pre.festival_end_time[i].0 == (end_block, anon_fest_id);
                lemma_entry_in_map(pre.festival_end_time, i);
            }
            if self.festival_expiration@.dom().contains((expiration, anon_fest_id)) {
                let i = choose|i: int| 0 <= i < pre.festival_expiration.len() && pre.festival_expiration[i].0 == (expiration, anon_fest_id);
                lemma_entry_in_map(pre.festival_expiration, i);
            }
        }
        self.owned_festivals.insert(who, anon_fest_id);
        self.festival_end_time.insert((end_block, anon_fest_id), ());
        self.festival_expiration.insert((expiration, anon_fest_id), ());
        proof {
            assert(self@ =~= anon_festival_created(pre, who, name@, description@, min_ticket_price, start_block, end_block));
        }
        self.deposit_event(Event::FestivalCreated(anon_fest_id, who));
        Ok(anon_fest_id)
    }

    /// The call that creates a festival.
    pub fn create_anon_festival(
        &mut self,
        origin: Origin,
        name: Vec<u8>,
        description: Vec<u8>,
        min_entry: u128,
        start_block: u64,
        end_block: u64,
        now: u64,
    ) -> (r: Result<(), DispatchError<Error>>)
        requires
            old(self).wf(),
            reaches_period_check(old(self)@, name@, description@, start_block, now) ==> start_block <= end_block,
            create_anon_festival_error(old(self)@, name@, description@, start_block, end_block, now) is None
                ==> end_block + old(self)@.config.max_decryption_period <= u64::MAX,
        ensures
            final(self).wf(),
            r is Ok ==> ({
                let fest = final(self)@.anon_festivals[old(self)@.next_anon_festival_id];
                &&& final(self)@.anon_festivals.dom().contains(old(self)@.next_anon_festival_id)
                &&& origin == Origin::Signed(fest.creator) && fest.name == name@ && fest.description == description@
                &&& fest.min_entry == min_entry
            }),
            match origin {
                Origin::Signed(who) => match create_anon_festival_error(old(self)@, name@, description@, start_block, end_block, now) {
                    Some(e) => r == Err::<(), DispatchError<Error>>(DispatchError::Module(e))
                        && final(self)@ == anon_festival_create_failed(
                        old(self)@,
                        e,
                        who,
                        name@,
                        description@,
                        min_entry,
                        start_block,
                    ) && final(self).event_log() == old(self).event_log(),
                    None => r == Ok::<(), DispatchError<Error>>(()) && final(self)@
                        == anon_festival_created(old(self)@, who, name@, description@, min_entry, start_block, end_block)
                        && final(self).event_log() == old(self).event_log().push(
                            EventView::FestivalCreated(old(self)@.next_anon_festival_id, who),
                        ),
                },
                _ => r == Err::<(), DispatchError<Error>>(DispatchError::BadOrigin) && final(self)@ == old(self)@
                    && final(self).event_log() == old(self).event_log(),
            },
    {
        let who = ensure_signed(origin)?;
        match self.do_create_anon_festival(who, name, description, min_entry, start_block, end_block, now) {
            Ok(_) => Ok(()),
            Err(e) => Err(DispatchError::Module(e)),
        }
    }

    /// Adds the registered movie with key `movie_id` to festival
    /// `anon_fest_id`.
    pub fn do_add_movie(&mut self, who: u64, anon_fest_id: u32, movie_id: Vec<u8>, movies: &movie::Pallet) -> (r: Result<(), Error>)
        requires
            old(self).wf(),
            movies.wf(),
        ensures
            final(self).wf(),
            match add_movie_error(old(self)@, movies.view(), anon_fest_id, movie_id@) {
                Some(e) => r == Err::<(), Error>(e) && final(self)@ == old(self)@
                    && final(self).event_log() == old(self).event_log(),
                None => r == Ok::<(), Error>(()) && final(self)@ == (AnonState {
                    movies_in_festival: old(self)@.movies_in_festival.insert((anon_fest_id, movie_id@)),
                    ..old(self)@
                }) && final(self).event_log() == old(self).event_log().push(
                    EventView::MovieAddedToFestival(anon_fest_id, movie_id@, who),
                ),
            },
    {
        let ghost pre = self@;
        if !fits_limit(&movie_id, self.config.movie_string_limit) {
            return Err(Error::BadMetadata);
        }
        if !self.anon_festivals.contains_key(&anon_fest_id) {
            return Err(Error::FestivalNotFound);
        }
        if !movies.contains_movie(&movie_id) {
            return Err(Error::MovieNotFound);
        }
        let added = copy_bytes(&movie_id);
        let key = (anon_fest_id, movie_id);
        if self.movies_in_festival.contains_key(&key) {
            return Err(Error::MovieAlreadyInFestival);
        }
        self.movies_in_festival.insert(key, ());
        proof {
            assert(self@ =~= AnonState {
                movies_in_festival: pre.movies_in_festival.insert((anon_fest_id, movie_id@)),
                ..pre
            });
        }
        self.deposit_event(Event::MovieAddedToFestival(anon_fest_id, added, who));
        Ok(())
    }

    /// The call to add a movie to a festival, which does nothing and
    /// succeeds, whoever makes it.
    pub fn add_movie(&mut self, origin: Origin, anon_fest_id: u32, movie_id: Vec<u8>) -> (r: Result<(), DispatchError<Error>>)
        ensures
            final(self).event_log() == old(self).event_log(),
            r == Ok::<(), DispatchError<Error>>(()),
            final(self)@ == old(self)@,
    {
        Ok(())
    }

    /// `who` creates a polling station for festival `anon_festival_id`;
    /// returns its id.
    pub fn do_create_polling_station(
        &mut self,
        who: u64,
        anon_festival_id: u32,
        name: Vec<u8>,
        description: Vec<u8>,
    ) -> (r: Result<u32, Error>)
        requires
            old(self).wf(),
        ensures
            final(self).event_log() == old(self).event_log(),
            final(self).wf(),
            r is Ok ==> ({
                let station = final(self)@.polling_stations[old(self)@.next_polling_station_id];
                &&& final(self)@.polling_stations.dom().contains(old(self)@.next_polling_station_id)
                &&& station.owner == who && station.anon_fest_id == anon_festival_id
                &&& station.name == name@ && station.description == description@
            }),
            match create_station_error(old(self)@, anon_festival_id, name@, description@) {
                Some(e) => r == Err::<u32, Error>(e) && final(self)@ == station_create_failed(old(self)@, e),
                None => r == Ok::<u32, Error>(old(self)@.next_polling_station_id) && final(self)@
                    == station_created(old(self)@, who, anon_festival_id, name@, description@),
            },
    {
        let ghost pre = self@;
        if !self.anon_festivals.contains_key(&anon_festival_id) {
            return Err(Error::InvalidFestivalId);
        }
        let station_id = self.next_polling_station_id;
        let next = match next_id(station_id) {
            Some(n) => n,
            None => return Err(Error::Overflow),
        };
        self.next_polling_station_id = next;
        assert(self@ =~= station_create_failed(pre, Error::BadMetadata));
        let limit = self.config.string_limit;
        if !fits_limit(&name, limit) || !fits_limit(&description, limit) {
            return Err(Error::BadMetadata);
        }
        let station = PollingStation { owner: who, anon_fest_id: anon_festival_id, name, description };
        self.polling_stations.insert(station_id, station);
        proof {
            assert(self@ =~= station_created(pre, who, anon_festival_id, name@, description@));
        }
        Ok(station_id)
    }

    /// The call that creates a polling station.
    pub fn create_polling_station(
        &mut self,
        origin: Origin,
        anon_festival_id: u32,
        name: Vec<u8>,
        description: Vec<u8>,
    ) -> (r: Result<(), DispatchError<Error>>)
        requires
            old(self).wf(),
        ensures
            final(self).event_log() == old(self).event_log(),
            final(self).wf(),
            r is Ok ==> ({
                let station = final(self)@.polling_stations[old(self)@.next_polling_station_id];
                &&& final(self)@.polling_stations.dom().contains(old(self)@.next_polling_station_id)
                &&& origin == Origin::Signed(station.owner) && station.anon_fest_id == anon_festival_id
                &&& station.name == name@ && station.description == description@
            }),
            match origin {
                Origin::Signed(who) => match create_station_error(old(self)@, anon_festival_id, name@, description@) {
                    Some(e) => r == Err::<(), DispatchError<Error>>(DispatchError::Module(e))
                        && final(self)@ == station_create_failed(old(self)@, e),
                    None => r == Ok::<(), DispatchError<Error>>(()) && final(self)@
                        == station_created(old(self)@, who, anon_festival_id, name@, description@),
                },
                _ => r == Err::<(), DispatchError<Error>>(DispatchError::BadOrigin) && final(self)@ == old(self)@,
            },
    {
        let who = ensure_signed(origin)?;
        match self.do_create_polling_station(who, anon_festival_id, name, description) {
            Ok(_) => Ok(()),
            Err(e) => Err(DispatchError::Module(e)),
        }
    }

    /// The account that signed the call joins station `station_id` as a
    /// member with public key `pub_key_hex_string`, reserving
    /// `member_collateral`. When the runtime refuses the reserve the call
    /// fails with its error and changes nothing.
    pub fn add_station_member<C: Currency>(
        &mut self,
        origin: Origin,
        station_id: u32,
        pub_key_hex_string: Vec<u8>,
        member_collateral: u128,
        currency: &mut Recorded<C>,
    ) -> (r: Result<(), DispatchError<Error>>)
        requires
            old(self).wf(),
            origin matches Origin::Signed(who) && add_member_error(old(self)@, who, station_id, member_collateral)
                is None ==> pub_key_hex_string@.len() == 32,
        ensures
            final(self).event_log() == old(self).event_log(),
            final(self).wf(),
            match origin {
                Origin::Signed(who) => match add_member_error(old(self)@, who, station_id, member_collateral) {
                    Some(e) => r == Err::<(), DispatchError<Error>>(DispatchError::Module(e)) && final(self)@ == old(self)@
                        && final(currency).ops() == old(currency).ops(),
                    None => {
                        &&& final(currency).ops() == old(currency).ops().push(
                            CurrencyOp::Reserve(who, member_collateral, r is Ok),
                        )
                        &&& r is Ok ==> final(self)@ == (AnonState {
                            polling_station_members: old(self)@.polling_station_members.insert(
                                (station_id, who),
                                pub_key_hex_string@,
                            ),
                            ..old(self)@
                        })
                        &&& !(r is Ok) ==> r == Err::<(), DispatchError<Error>>(DispatchError::Currency)
                            && final(self)@ == old(self)@
                    },
                },
                _ => r == Err::<(), DispatchError<Error>>(DispatchError::BadOrigin) && final(self)@ == old(self)@
                    && final(currency).ops() == old(currency).ops(),
            },
    {
        let who = ensure_signed(origin)?;
        let ghost pre = self@;
        if !self.polling_stations.contains_key(&station_id) {
            return Err(DispatchError::Module(Error::BadMetadata));
        }
        if self.polling_station_members.contains_key(&(station_id, who)) {
            return Err(DispatchError::Module(Error::BadMetadata));
        }
        if member_collateral < self.config.min_member_slash_amount {
            return Err(DispatchError::Module(Error::InsuficientBalance));
        }
        if !currency.reserve(who, member_collateral) {
            return Err(DispatchError::Currency);
        }
        self.polling_station_members.insert((station_id, who), pub_key_hex_string);
        proof {
            assert(self@ =~= AnonState {
                polling_station_members: pre.polling_station_members.insert((station_id, who), pub_key_hex_string@),
                ..pre
            });
        }
        Ok(())
    }

    /// The station member that the voter delegated decrypts vote `vote_id`
    /// of festival `fest_id` as `raw_vote`.
    pub fn decrypt_vote(&mut self, origin: Origin, fest_id: u32, vote_id: u32, raw_vote: Vec<u8>) -> (r: Result<(), DispatchError<Error>>)
        requires
            old(self).wf(),
            origin matches Origin::Signed(who) && decrypt_error(old(self)@, who, fest_id, vote_id) is None
                ==> raw_vote@.len() <= u32::MAX,
        ensures
            final(self).event_log() == old(self).event_log(),
            final(self).wf(),
            match origin {
                Origin::Signed(who) => match decrypt_error(old(self)@, who, fest_id, vote_id) {
                    Some(e) => r == Err::<(), DispatchError<Error>>(DispatchError::Module(e)) && final(self)@ == old(self)@,
                    None => r == Ok::<(), DispatchError<Error>>(()) && final(self)@
                        == vote_decrypted(old(self)@, fest_id, vote_id, raw_vote@),
                },
                _ => r == Err::<(), DispatchError<Error>>(DispatchError::BadOrigin) && final(self)@ == old(self)@,
            },
    {
        let who = ensure_signed(origin)?;
        let ghost pre = self@;
        let ghost s = pre.anon_votes;
        let i = match self.anon_votes.find(&(fest_id, vote_id)) {
            Some(i) => i,
            None => return Err(DispatchError::Module(Error::InvalidVote)),
        };
        let vote = self.anon_votes.value_at(i).duplicate();
        proof {
            lemma_entry_in_map(s, i as int);
        }
        if who != vote.delegated_encryptor {
            return Err(DispatchError::Module(Error::NoPermission));
        }
        match vote.vote_status {
            AnonVoteStatus::Encrypted => {},
            _ => return Err(DispatchError::Module(Error::AlreadyDecrypted)),
        }
        let amount = vote.amount;
        let dkey = (fest_id, vote_id, copy_bytes(&raw_vote));
        let updated = AnonVote { raw_vote, vote_status: AnonVoteStatus::Decrypted, ..vote };
        let ghost nv = updated@;
        self.anon_votes.set_value_at(i, updated);
        proof {
            let d = pre.decrypted_votes;
            assert(!has_key(d, dkey@)) by {
                if has_key(d, dkey@) {
                    let j = choose|j: int| 0 <= j < d.len() && d[j].0 == dkey@;
                    assert(entries_map(s)[(fest_id, vote_id)].vote_status == AnonVoteStatus::Decrypted);
                }
            }
            if self.decrypted_votes@.dom().contains(dkey@) {
                let j = choose|j: int| 0 <= j < d.len() && d[j].0 == dkey@;
                lemma_entry_in_map(d, j);
            }
        }
        self.decrypted_votes.insert(dkey, amount);
        proof {
            let t = self@.anon_votes;
            let d = pre.decrypted_votes;
            let d2 = self@.decrypted_votes;
            assert(t == s.update(i as int, (s[i as int].0, nv)));
            crate::table::lemma_update_value(s, i as int, nv);
            assert(d2 == d.push((dkey@, amount)));
            assert(has_key(s, (fest_id, vote_id)));
            let j = choose|j: int| 0 <= j < s.len() && s[j].0 == (fest_id, vote_id);
            assert(j == i);
            assert(self@ =~= vote_decrypted(pre, fest_id, vote_id, raw_vote@));
            // The invariant.
            assert forall|f: u32| #[trigger] lockup_value(self@.total_lockup, f) == vote_sum(t, f) by {
                lemma_vote_sums_update(s, i as int, nv, f);
            }
            assert forall|f: u32| #[trigger] stake_sum(decrypted_stakes(d2, f)) == decrypted_vote_sum(t, f) by {
                lemma_vote_sums_update(s, i as int, nv, f);
                assert(d2.drop_last() =~= d);
                lemma_decrypted_stakes_unfold(d2, f);
            }
            assert forall|k: int| 0 <= k < d2.len() implies {
                let key = (#[trigger] d2[k]).0;
                let m = entries_map(t);
                &&& m.dom().contains((key.0, key.1))
                &&& m[(key.0, key.1)].vote_status == AnonVoteStatus::Decrypted
                &&& m[(key.0, key.1)].raw_vote == key.2
                &&& m[(key.0, key.1)].amount == d2[k].1
            } by {
                if k < d.len() {
                    assert(d2[k] == d[k]);
                    let key = d[k].0;
                    if (key.0, key.1) == (fest_id, vote_id) {
                        assert(entries_map(s)[(fest_id, vote_id)].vote_status == AnonVoteStatus::Decrypted);
                    }
                }
            }
            assert forall|k: int| 0 <= k < t.len() implies (#[trigger] t[k]).0.1 < self@.next_anon_vote_id by {
                assert(t[k].0 == s[k].0);
            }
            assert forall|k: int| 0 <= k < d2.len() implies (#[trigger] d2[k]).0.2.len() <= u32::MAX by {
                if k < d.len() {
                    assert(d2[k] == d[k]);
                }
            }
        }
        Ok(())
    }

    /// Stores the vote of `who` under the next vote id and adds its stake
    /// to the festival's lockup.
    fn record_vote(
        &mut self,
        who: u64,
        anon_fest_id: u32,
        polling_station_id: u32,
        delegated_encryptor: u64,
        pub_key_hex: Vec<u8>,
        encrypted_vote: Vec<u8>,
        amount: u128,
        anon_vote_id: u32,
    )
        requires
            old(self).wf(),
            old(self)@.next_anon_vote_id == anon_vote_id + 1,
            votes_keyed(old(self)@.anon_votes, anon_vote_id),
            lockup_of(old(self)@, anon_fest_id) + amount <= u128::MAX,
        ensures
            final(self).event_log() == old(self).event_log(),
            final(self).wf(),
            final(self)@ == vote_cast(
                AnonState { next_anon_vote_id: anon_vote_id, ..old(self)@ },
                who,
                anon_fest_id,
                polling_station_id,
                delegated_encryptor,
                pub_key_hex@,
                encrypted_vote@,
                amount,
            ),
    {
        let ghost pre = self@;
        let ghost s = pre.anon_votes;
        let anon_vote = AnonVote {
            owner: who,
            owner_pub_key: pub_key_hex,
            anon_fest_id,
            pooling_station: polling_station_id,
            delegated_encryptor,
            raw_vote: copy_bytes(&encrypted_vote),
            enc_vote: encrypted_vote,
            vote_status: AnonVoteStatus::Encrypted,
            amount,
        };
        let ghost nv = anon_vote@;
        proof {
            if self.anon_votes@.dom().contains((anon_fest_id, anon_vote_id)) {
                let j = choose|j: int| 0 <= j < s.len() && s[j].0 == (anon_fest_id, anon_vote_id);
                assert(s[j].0.1 < anon_vote_id);
            }
        }
        self.anon_votes.insert((anon_fest_id, anon_vote_id), anon_vote);
        let lock = match self.total_lockup.get(&anon_fest_id) {
            Some(v) => *v,
            None => 0,
        };
        self.total_lockup.insert(anon_fest_id, lock + amount);
        proof {
            let t = self@.anon_votes;
            assert(t == s.push(((anon_fest_id, anon_vote_id), nv)));
            assert(t.drop_last() =~= s);
            assert(self@ =~= vote_cast(AnonState { next_anon_vote_id: anon_vote_id, ..pre }, who, anon_fest_id, polling_station_id, delegated_encryptor, pub_key_hex@, encrypted_vote@, amount));
            assert forall|f: u32| #[trigger] lockup_value(self@.total_lockup, f) == vote_sum(t, f) by {
                lemma_vote_sums_unfold(t, f);
                assert(lockup_value(pre.total_lockup, f) == vote_sum(s, f));
            }
            assert forall|f: u32| #[trigger] stake_sum(decrypted_stakes(self@.decrypted_votes, f)) == decrypted_vote_sum(t, f) by {
                lemma_vote_sums_unfold(t, f);
            }
            let d = self@.decrypted_votes;
            assert forall|k: int| 0 <= k < d.len() implies {
                let key = (#[trigger] d[k]).0;
                let m = entries_map(t);
                &&& m.dom().contains((key.0, key.1))
                &&& m[(key.0, key.1)].vote_status == AnonVoteStatus::Decrypted
                &&& m[(key.0, key.1)].raw_vote == key.2
                &&& m[(key.0, key.1)].amount == d[k].1
            } by {
                let key = d[k].0;
                assert(entries_map(s).dom().contains((key.0, key.1)));
                crate::table::lemma_push_fresh(s, (anon_fest_id, anon_vote_id), nv);
            }
            assert forall|k: int| 0 <= k < t.len() implies (#[trigger] t[k]).0.1 < self@.next_anon_vote_id by {
                if k < s.len() {
                    assert(t[k] == s[k]);
                }
            }
        }
    }

    /// The account that signed the call casts an encrypted vote staking
    /// `amount` in festival `anon_fest_id`, through polling station
    /// `polling_station_id`, to be decrypted by its member
    /// `delegated_encryptor`.
    pub fn vote(
        &mut self,
        origin: Origin,
        anon_fest_id: u32,
        polling_station_id: u32,
        delegated_encryptor: u64,
        pub_key_hex: Vec<u8>,
        encrypted_vote: Vec<u8>,
        amount: u128,
    ) -> (r: Result<(), DispatchError<Error>>)
        requires
            old(self).wf(),
            origin is Signed && vote_open_error(old(self)@, anon_fest_id, polling_station_id) is None
                ==> pub_key_hex@.len() == 32,
            origin is Signed && vote_error(old(self)@, anon_fest_id, polling_station_id, delegated_encryptor)
                is None ==> lockup_of(old(self)@, anon_fest_id) + amount <= u128::MAX,
        ensures
            final(self).event_log() == old(self).event_log(),
            final(self).wf(),
            r is Ok ==> ({
                let v = votes_map(final(self)@)[(anon_fest_id, old(self)@.next_anon_vote_id)];
                &&& votes_map(final(self)@).dom().contains((anon_fest_id, old(self)@.next_anon_vote_id))
                &&& origin == Origin::Signed(v.owner) && v.owner_pub_key == pub_key_hex@
                &&& v.enc_vote == encrypted_vote@ && v.raw_vote == encrypted_vote@
                &&& v.pooling_station == polling_station_id && v.delegated_encryptor == delegated_encryptor
                &&& v.amount == amount && v.vote_status == AnonVoteStatus::Encrypted
            }),
            match origin {
                Origin::Signed(who) => match vote_error(old(self)@, anon_fest_id, polling_station_id, delegated_encryptor) {
                    Some(e) => r == Err::<(), DispatchError<Error>>(DispatchError::Module(e))
                        && final(self)@ == vote_failed(old(self)@, anon_fest_id, polling_station_id),
                    None => r == Ok::<(), DispatchError<Error>>(()) && final(self)@ == vote_cast(
                        old(self)@,
                        who,
                        anon_fest_id,
                        polling_station_id,
                        delegated_encryptor,
                        pub_key_hex@,
                        encrypted_vote@,
                        amount,
                    ),
                },
                _ => r == Err::<(), DispatchError<Error>>(DispatchError::BadOrigin) && final(self)@ == old(self)@,
            },
    {
        let who = ensure_signed(origin)?;
        let status = match self.anon_festivals.get(&anon_fest_id) {
            Some(f) => f.status,
            None => return Err(DispatchError::Module(Error::FestivalNotFound)),
        };
        match status {
            AnonFestivalStatus::Open => {},
            _ => return Err(DispatchError::Module(Error::FestivalNotActive)),
        }
        if !self.polling_stations.contains_key(&polling_station_id) {
            return Err(DispatchError::Module(Error::InvalidFestivalId));
        }
        let next = match next_id(self.next_anon_vote_id) {
            Some(n) => n,
            None => return Err(DispatchError::Module(Error::Overflow)),
        };
        let ghost pre = self@;
        proof {
            self.lemma_wf_invariant();
        }
        let ghost key_view = pub_key_hex@;
        let ghost content_view = encrypted_vote@;
        let anon_vote_id = self.next_anon_vote_id;
        self.next_anon_vote_id = next;
        assert(self@ =~= vote_id_taken(pre));
        if !self.polling_station_members.contains_key(&(polling_station_id, delegated_encryptor)) {
            return Err(DispatchError::Module(Error::Overflow));
        }
        self.record_vote(who, anon_fest_id, polling_station_id, delegated_encryptor, pub_key_hex, encrypted_vote, amount, anon_vote_id);
        assert(AnonState { next_anon_vote_id: anon_vote_id, ..vote_id_taken(pre) } =~= pre);
        proof {
            crate::laws::lemma_vote_stored_as_cast(
                pre,
                who,
                anon_fest_id,
                polling_station_id,
                delegated_encryptor,
                key_view,
                content_view,
                amount,
            );
        }
        Ok(())
    }

    /// Like [`Pallet::vote`], without the check of the delegate's
    /// membership, and with payments: the voter pays the delegate the
    /// station member payout, and the pallet's account its stake. The vote id
    /// is taken before the payments: when the runtime refuses one, the call
    /// fails with the currency's error, the id stays used up, and nothing
    /// else of the pallet's storage changes.
    pub fn vote2<C: Currency>(
        &mut self,
        origin: Origin,
        anon_fest_id: u32,
        polling_station_id: u32,
        delegated_encryptor: u64,
        pub_key_hex: Vec<u8>,
        encrypted_vote: Vec<u8>,
        amount: u128,
        currency: &mut Recorded<C>,
    ) -> (r: Result<(), DispatchError<Error>>)
        requires
            old(self).wf(),
            origin is Signed ==> pub_key_hex@.len() == 32,
            origin is Signed && vote2_error(old(self)@, anon_fest_id, polling_station_id) is None
                ==> lockup_of(old(self)@, anon_fest_id) + amount <= u128::MAX,
        ensures
            final(self).event_log() == old(self).event_log(),
            final(self).wf(),
            r is Ok ==> ({
                let v = votes_map(final(self)@)[(anon_fest_id, old(self)@.next_anon_vote_id)];
                &&& votes_map(final(self)@).dom().contains((anon_fest_id, old(self)@.next_anon_vote_id))
                &&& origin == Origin::Signed(v.owner) && v.owner_pub_key == pub_key_hex@
                &&& v.enc_vote == encrypted_vote@ && v.raw_vote == encrypted_vote@
                &&& v.pooling_station == polling_station_id && v.delegated_encryptor == delegated_encryptor
                &&& v.amount == amount && v.vote_status == AnonVoteStatus::Encrypted
            }),
            match origin {
                Origin::Signed(who) => match vote2_error(old(self)@, anon_fest_id, polling_station_id) {
                    Some(e) => r == Err::<(), DispatchError<Error>>(DispatchError::Module(e)) && final(self)@ == old(self)@
                        && final(currency).ops() == old(currency).ops(),
                    None => {
                        let payout = CurrencyOp::Transfer(
                            who,
                            delegated_encryptor,
                            old(self)@.config.station_member_payout,
                            ExistenceRequirement::AllowDeath,
                            true,
                        );
                        let stake = CurrencyOp::Transfer(
                            who,
                            treasury(old(self)@),
                            amount,
                            ExistenceRequirement::AllowDeath,
                            true,
                        );
                        ||| r == Ok::<(), DispatchError<Error>>(()) && final(currency).ops() == old(currency).ops().push(
                            payout,
                        ).push(stake) && final(self)@ == vote_cast(
                            old(self)@,
                            who,
                            anon_fest_id,
                            polling_station_id,
                            delegated_encryptor,
                            pub_key_hex@,
                            encrypted_vote@,
                            amount,
                        )
                        ||| r == Err::<(), DispatchError<Error>>(DispatchError::Currency) && final(self)@ == vote_id_taken(
                            old(self)@,
                        ) && (final(currency).ops() == old(currency).ops().push(
                            CurrencyOp::Transfer(
                                who,
                                delegated_encryptor,
                                old(self)@.config.station_member_payout,
                                ExistenceRequirement::AllowDeath,
                                false,
                            ),
                        ) || final(currency).ops() == old(currency).ops().push(payout).push(
                            CurrencyOp::Transfer(who, treasury(old(self)@), amount, ExistenceRequirement::AllowDeath, false),
                        ))
                    },
                },
                _ => r == Err::<(), DispatchError<Error>>(DispatchError::BadOrigin) && final(self)@ == old(self)@
                    && final(currency).ops() == old(currency).ops(),
            },
    {
        let who = ensure_signed(origin)?;
        let status = match self.anon_festivals.get(&anon_fest_id) {
            Some(f) => f.status,
            None => return Err(DispatchError::Module(Error::FestivalNotFound)),
        };
        match status {
            AnonFestivalStatus::Open => {},
            _ => return Err(DispatchError::Module(Error::FestivalNotActive)),
        }
        if !self.polling_stations.contains_key(&polling_station_id) {
            return Err(DispatchError::Module(Error::InvalidFestivalId));
        }
        let next = match next_id(self.next_anon_vote_id) {
            Some(n) => n,
            None => return Err(DispatchError::Module(Error::Overflow)),
        };
        let ghost pre = self@;
        proof {
            self.lemma_wf_invariant();
        }
        let ghost key_view = pub_key_hex@;
        let ghost content_view = encrypted_vote@;
        let anon_vote_id = self.next_anon_vote_id;
        self.next_anon_vote_id = next;
        assert(self@ =~= vote_id_taken(pre));
        if !currency.transfer(who, delegated_encryptor, self.config.station_member_payout, ExistenceRequirement::AllowDeath) {
            return Err(DispatchError::Currency);
        }
        let treasury_account = self.account_id();
        if !currency.transfer(who, treasury_account, amount, ExistenceRequirement::AllowDeath) {
            return Err(DispatchError::Currency);
        }
        self.record_vote(who, anon_fest_id, polling_station_id, delegated_encryptor, pub_key_hex, encrypted_vote, amount, anon_vote_id);
        assert(AnonState { next_anon_vote_id: anon_vote_id, ..vote_id_taken(pre) } =~= pre);
        proof {
            crate::laws::lemma_vote_stored_as_cast(
                pre,
                who,
                anon_fest_id,
                polling_station_id,
                delegated_encryptor,
                key_view,
                content_view,
                amount,
            );
        }
        Ok(())
    }

    /// Gives the festivals of `ids` status `status`.
    fn set_statuses(&mut self, ids: &Vec<u32>, status: AnonFestivalStatus)
        requires
            old(self).wf(),
            forall|k: int| 0 <= k < ids@.len() ==> old(self)@.anon_festivals.dom().contains(#[trigger] ids@[k]),
        ensures
            final(self).event_log() == old(self).event_log(),
            final(self).wf(),
            final(self)@ == (AnonState { anon_festivals: statuses_set(old(self)@.anon_festivals, ids@, status), ..old(self)@ }),
    {
        let ghost pre = self@;
        let ghost ev = self.events@;
        let n = ids.len();
        let mut j: usize = 0;
        while j < n
            invariant
                n == ids@.len(),
                forall|k: int| 0 <= k < ids@.len() ==> pre.anon_festivals.dom().contains(#[trigger] ids@[k]),
                j <= n,
                self.wf(),
                self@ == (AnonState { anon_festivals: statuses_set(pre.anon_festivals, ids@.take(j as int), status), ..pre }),
                self.events@ == ev,
            decreases n - j,
        {
            let f = ids[j];
            let fest = match self.anon_festivals.get(&f) {
                Some(x) => x.duplicate(),
                None => {
                    assert(pre.anon_festivals.dom().contains(ids@[j as int]));
                    return;
                },
            };
            let updated = AnonFestival { status, ..fest };
            self.anon_festivals.insert(f, updated);
            proof {
                let t1 = ids@.take(j + 1);
                let t0 = ids@.take(j as int);
                assert forall|x: u32| #[trigger] t1.contains(x) == (t0.contains(x) || x == f) by {
                    if t1.contains(x) {
                        let k = choose|k: int| 0 <= k < t1.len() && t1[k] == x;
                        if k < j {
                            assert(t0[k] == x);
                        }
                    }
                    if t0.contains(x) {
                        let k = choose|k: int| 0 <= k < t0.len() && t0[k] == x;
                        assert(t1[k] == x);
                    }
                    if x == f {
                        assert(t1[j as int] == x);
                    }
                }
                assert(self@.anon_festivals =~= statuses_set(pre.anon_festivals, t1, status));
                assert(self@ =~= AnonState { anon_festivals: statuses_set(pre.anon_festivals, t1, status), ..pre });
            }
            j = j + 1;
        }
        assert(ids@.take(n as int) =~= ids@);
    }

    /// The festivals indexed for block `now` in `idx`, which all exist.
    fn indexed_festivals(&self, idx: &Table<(u64, u32), ()>, now: u64) -> (ids: Vec<u32>)
        requires
            self.wf(),
            index_names_festivals(idx.entries(), self@.anon_festivals),
        ensures
            ids@ == ids_at(idx.entries(), now),
            forall|k: int| 0 <= k < ids@.len() ==> self@.anon_festivals.dom().contains(#[trigger] ids@[k]),
    {
        let ids = ids_at_block(idx, now);
        proof {
            let s = idx.entries();
            lemma_ids_at_entries(s, now);
            assert forall|k: int| 0 <= k < ids@.len() implies self@.anon_festivals.dom().contains(#[trigger] ids@[k]) by {
                let t = choose|t: int| #![trigger s[t]] 0 <= t < s.len() && s[t].0 == (now, ids@[k]);
                assert(self@.anon_festivals.dom().contains(s[t].0.1));
            }
        }
        ids
    }

    /// The entries of a well-formed index without block `now` still name
    /// festivals.
    proof fn lemma_index_without_block(idx: TimeIndex, festivals: Map<u32, AnonFestivalView>, now: u64)
        requires
            index_names_festivals(idx, festivals),
            keys_distinct(without_block(idx, now)),
        ensures
            index_names_festivals(without_block(idx, now), festivals),
    {
        lemma_without_block_entries(idx, now);
        let w = without_block(idx, now);
        assert forall|i: int| 0 <= i < w.len() implies festivals.dom().contains(#[trigger] w[i].0.1) by {
            let e = w[i];
            let j = choose|j: int| #![trigger idx[j]] 0 <= j < idx.len() && idx[j] == e;
            assert(festivals.dom().contains(idx[j].0.1));
        }
    }

    /// Opens the festivals that start at block `now`, removing their start
    /// entries.
    pub fn activate_festival(&mut self, now: u64) -> (r: Result<(), Error>)
        requires
            old(self).wf(),
        ensures
            final(self).event_log() == old(self).event_log(),
            final(self).wf(),
            r is Ok,
            final(self)@ == activated(old(self)@, now),
    {
        let ghost pre = self@;
        let ids = self.indexed_festivals(&self.festival_start_time, now);
        self.set_statuses(&ids, AnonFestivalStatus::Open);
        let remaining = remove_block(&self.festival_start_time, now);
        self.festival_start_time = remaining;
        proof {
            Self::lemma_index_without_block(pre.festival_start_time, self@.anon_festivals, now);
            assert(self@ =~= activated(pre, now));
        }
        Ok(())
    }

    /// Closes the festivals that end at block `now` for voting: each must be
    /// open, and then awaits decryption; their end entries are removed. A
    /// festival that cannot close fails the call and changes nothing.
    pub fn conclude_festival(&mut self, now: u64) -> (r: Result<(), Error>)
        requires
            old(self).wf(),
        ensures
            final(self).event_log() == old(self).event_log(),
            final(self).wf(),
            match close_error(old(self)@, ids_at(old(self)@.festival_end_time, now)) {
                Some(e) => r == Err::<(), Error>(e) && final(self)@ == old(self)@,
                None => r == Ok::<(), Error>(()) && final(self)@ == closed(old(self)@, now),
            },
    {
        let ghost pre = self@;
        let ids = self.indexed_festivals(&self.festival_end_time, now);
        let n = ids.len();
        let mut i: usize = 0;
        while i < n
            invariant
                n == ids@.len(),
                ids@ == ids_at(pre.festival_end_time, now),
                self@ == pre,
                self.wf(),
                i <= n,
                close_error(pre, ids@.take(i as int)) is None,
            decreases n - i,
        {
            proof {
                assert(ids@.take(i + 1).drop_last() =~= ids@.take(i as int));
                assert(ids@.take(i + 1).last() == ids@[i as int]);
            }
            let f = ids[i];
            let status = match self.anon_festivals.get(&f) {
                Some(x) => x.status,
                None => {
                    proof {
                        lemma_close_error_prefix(pre, ids@, i + 1);
                    }
                    return Err(Error::FestivalNotFound);
                },
            };
            match status {
                AnonFestivalStatus::Open => {},
                _ => {
                    proof {
                        lemma_close_error_prefix(pre, ids@, i + 1);
                    }
                    return Err(Error::FestivalNotActive);
                },
            }
            i = i + 1;
        }
        assert(ids@.take(n as int) =~= ids@);
        self.set_statuses(&ids, AnonFestivalStatus::OnDecryption);
        let remaining = remove_block(&self.festival_end_time, now);
        self.festival_end_time = remaining;
        proof {
            Self::lemma_index_without_block(pre.festival_end_time, self@.anon_festivals, now);
            assert(self@ =~= closed(pre, now));
        }
        Ok(())
    }

    /// The decrypted votes of festival `anon_fest_id`, as content and
    /// amount, in the order decrypted.
    pub fn decrypted_stakes_of(&self, anon_fest_id: u32) -> (r: Vec<(Vec<u8>, u128)>)
        ensures
            stake_view(r@) == stakes_of(self@, anon_fest_id),
    {
        let ghost s = self@.decrypted_votes;
        let mut r: Vec<(Vec<u8>, u128)> = Vec::new();
        let n = self.decrypted_votes.len();
        let mut i: usize = 0;
        while i < n
            invariant
                n == s.len(),
                s == self@.decrypted_votes,
                i <= n,
                stake_view(r@) == decrypted_stakes(s.take(i as int), anon_fest_id),
            decreases n - i,
        {
            proof {
                assert(s.take(i + 1).drop_last() =~= s.take(i as int));
                assert(s.take(i + 1).last() == s[i as int]);
            }
            let key = self.decrypted_votes.key_at(i);
            if key.0 == anon_fest_id {
                let amount = *self.decrypted_votes.value_at(i);
                let ghost old_r = r@;
                r.push((copy_bytes(&key.2), amount));
                proof {
                    assert(stake_view(r@) =~= stake_view(old_r).push((key.2@, amount)));
                }
            }
            i = i + 1;
        }
        assert(s.take(n as int) =~= s);
        r
    }

    /// The winning contents of festival `fest_id`, as the market reports
    /// them: the one last in byte order first, then the others in
    /// increasing byte order.
    pub fn get_winning_options(&self, fest_id: u32) -> (r: Vec<Vec<u8>>)
        requires
            self.wf(),
            stakes_of(self@, fest_id).len() > 0,
        ensures
            is_winner_list(byte_strings(r@), winners_of(self@, fest_id)),
    {
        let stakes = self.decrypted_stakes_of(fest_id);
        proof {
            lemma_decrypted_within_lockup(self@, fest_id);
        }
        get_winning_options(&stakes)
    }

    /// What the decrypted votes of festival `festival_id` for the contents
    /// of `winning_movies` stake.
    pub fn get_winners_total_lockup(&self, festival_id: u32, winning_movies: &Vec<Vec<u8>>) -> (r: u128)
        requires
            self.wf(),
        ensures
            r == stake_on(stakes_of(self@, festival_id), byte_strings(winning_movies@).to_set()),
    {
        let stakes = self.decrypted_stakes_of(festival_id);
        proof {
            lemma_decrypted_within_lockup(self@, festival_id);
        }
        get_winners_total_lockup(&stakes, winning_movies)
    }

    /// What was staked in festival `festival_id`.
    pub fn total_lockup(&self, festival_id: u32) -> (r: u128)
        requires
            self.wf(),
        ensures
            r == lockup_of(self@, festival_id),
    {
        match self.total_lockup.get(&festival_id) {
            Some(v) => *v,
            None => 0,
        }
    }

    /// The payouts that settle the market of festival `fest_id`, one per
    /// winning decrypted vote to the vote's owner, in the order in which the
    /// runtime walks the decrypted votes, or `None` when its arithmetic
    /// cannot be carried out (the winning stakes sum to zero, or a winning
    /// stake times a thousand overflows). These are the payouts that
    /// [`Pallet::count_votes`] transfers from the pallet's account, with
    /// `KeepAlive`.
    pub fn resolve_market(&self, fest_id: u32) -> (r: Option<Vec<(u64, u128)>>)
        requires
            self.wf(),
            stakes_of(self@, fest_id).len() > 0,
        ensures
            r is Some <==> payable(self@, fest_id),
            r matches Some(p) ==> p@ == festival_payouts(self@, fest_id),
    {
        let ghost st = self@;
        let ghost w = winners_of(st, fest_id);
        let stakes = self.decrypted_stakes_of(fest_id);
        let ghost s = stake_view(stakes@);
        proof {
            lemma_decrypted_within_lockup(st, fest_id);
        }
        let winning_opts = get_winning_options(&stakes);
        proof {
            lemma_winner_list_set(byte_strings(winning_opts@), w);
        }
        let winner_sum = get_winners_total_lockup(&stakes, &winning_opts);
        if winner_sum == 0 {
            return None;
        }
        let n = stakes.len();
        let mut j: usize = 0;
        while j < n
            invariant
                n == s.len(),
                s == stake_view(stakes@),
                s == stakes_of(st, fest_id),
                st == self@,
                w == winners_of(st, fest_id),
                byte_strings(winning_opts@).to_set() == w,
                j <= n,
                forall|t: int| 0 <= t < j && w.contains(#[trigger] s[t].0) ==> s[t].1 * 1000 <= u128::MAX,
            decreases n - j,
        {
            let amount = stakes[j].1;
            proof {
                lemma_per_mille_fits(amount);
                assert(s[j as int] == (stakes@[j as int].0@, amount));
            }
            if contains_bytes(&winning_opts, &stakes[j].0) && amount > u128::MAX / 1000 {
                proof {
                    assert(w.contains(s[j as int].0));
                    assert(!(s[j as int].1 * 1000 <= u128::MAX));
                }
                return None;
            }
            j = j + 1;
        }
        let total = self.total_lockup(fest_id);
        let ghost dv = st.decrypted_votes;
        let mut keyed: Vec<(Vec<u8>, (u64, u128))> = Vec::new();
        let m = self.decrypted_votes.len();
        let mut i: usize = 0;
        while i < m
            invariant
                m == dv.len(),
                dv == self@.decrypted_votes,
                st == self@,
                self.wf(),
                byte_strings(winning_opts@).to_set() == w,
                w == winners_of(st, fest_id),
                winner_sum == winners_lockup(st, fest_id),
                winner_sum > 0,
                total == lockup_of(st, fest_id),
                payable(st, fest_id),
                i <= m,
                keyed_view(keyed@) == keyed_payouts_in(dv.take(i as int), votes_map(st), fest_id, w, total as int, winner_sum as int),
            decreases m - i,
        {
            proof {
                assert(dv.take(i + 1).drop_last() =~= dv.take(i as int));
                assert(dv.take(i + 1).last() == dv[i as int]);
            }
            let key = self.decrypted_votes.key_at(i);
            if key.0 == fest_id && contains_bytes(&winning_opts, &key.2) {
                let amount = *self.decrypted_votes.value_at(i);
                proof {
                    lemma_stake_on_entry(dv, fest_id, w, i as int);
                    let sk = stakes_of(st, fest_id);
                    let t = choose|t: int| 0 <= t < sk.len() && sk[t] == (key.2@, amount);
                    assert(w.contains(sk[t].0));
                    assert(votes_map(st).dom().contains((key.0, key.1)));
                }
                let owner = match self.anon_votes.get(&(key.0, key.1)) {
                    Some(v) => v.owner,
                    None => return None,
                };
                proof {
                    lemma_reward_bounded(total as int, amount as int, winner_sum as int);
                }
                let reward = calculate_simple_reward(total, amount, winner_sum);
                assert(dv[i as int].0.2 == key.2@);
                let mut encoded = encode_u32(key.1);
                let mut content = encode_bytes(&key.2);
                encoded.append(&mut content);
                let vote_key = hash_key(encoded);
                let ghost before = keyed_view(keyed@);
                keyed.push((vote_key, (owner, reward)));
                assert(keyed_view(keyed@) =~= before.push((vote_key@, (owner, reward))));
            }
            i = i + 1;
        }
        assert(dv.take(m as int) =~= dv);
        let sorted = sort_by_key(keyed);
        let mut payouts: Vec<(u64, u128)> = Vec::new();
        let n = sorted.len();
        let mut t: usize = 0;
        while t < n
            invariant
                n == sorted@.len(),
                t <= n,
                payouts@ == key_values(keyed_view(sorted@)).take(t as int),
            decreases n - t,
        {
            payouts.push(sorted[t].1);
            assert(key_values(keyed_view(sorted@)).take(t + 1) =~= key_values(keyed_view(sorted@)).take(t as int).push(
                sorted@[t as int].1,
            ));
            t = t + 1;
        }
        assert(key_values(keyed_view(sorted@)).take(n as int) =~= key_values(keyed_view(sorted@)));
        Some(payouts)
    }

    /// Counts the votes of the festivals whose decryption period expires at
    /// block `now`, in the order in which the runtime walks the expiration
    /// index: each must await decryption; the market of each with
    /// decrypted votes is settled by transfers from the pallet's account to
    /// the owners of the winning votes; then each finishes normally and
    /// leaves the expiration index. Returns the payouts made. A festival
    /// whose votes cannot be counted fails the call and changes nothing; so
    /// does a payout the runtime refuses (`InsuficientBalance`), though
    /// payouts made before it stand until the runtime discards the block.
    pub fn count_votes<C: Currency>(&mut self, now: u64, currency: &mut Recorded<C>) -> (r: Result<Vec<(u64, u128)>, Error>)
        requires
            old(self).wf(),
        ensures
            final(self).event_log() == old(self).event_log(),
            final(self).wf(),
            match count_error(old(self)@, id_walk(ids_at(old(self)@.festival_expiration, now))) {
                Some(e) => r == Err::<Vec<(u64, u128)>, Error>(e) && final(self)@ == old(self)@
                    && final(currency).ops() == old(currency).ops(),
                None => {
                    let p = all_payouts(old(self)@, id_walk(ids_at(old(self)@.festival_expiration, now)));
                    let t = treasury(old(self)@);
                    ||| r matches Ok(q) && q@ == p && final(self)@ == counted(old(self)@, now)
                        && final(currency).ops() == old(currency).ops() + payout_transfers(t, p, ExistenceRequirement::KeepAlive)
                    ||| r == Err::<Vec<(u64, u128)>, Error>(Error::InsuficientBalance) && final(self)@ == old(self)@
                        && paid_until_refused(old(currency).ops(), final(currency).ops(), t, p, ExistenceRequirement::KeepAlive)
                },
            },
    {
        let ghost pre = self@;
        let ids = self.indexed_festivals(&self.festival_expiration, now);
        let order = walk_ids(&ids);
        let n = order.len();
        let mut payouts: Vec<(u64, u128)> = Vec::new();
        let mut i: usize = 0;
        while i < n
            invariant
                n == order@.len(),
                order@ == id_walk(ids_at(pre.festival_expiration, now)),
                ids@ == ids_at(pre.festival_expiration, now),
                self@ == pre,
                self.wf(),
                i <= n,
                count_error(pre, order@.take(i as int)) is None,
                payouts@ == all_payouts(pre, order@.take(i as int)),
            decreases n - i,
        {
            let ghost t1 = order@.take(i + 1);
            proof {
                assert(t1.drop_last() =~= order@.take(i as int));
                assert(t1.last() == order@[i as int]);
            }
            let f = order[i];
            let status = match self.anon_festivals.get(&f) {
                Some(x) => x.status,
                None => {
                    proof {
                        lemma_count_error_prefix(pre, order@, i + 1);
                    }
                    return Err(Error::FestivalNotFound);
                },
            };
            match status {
                AnonFestivalStatus::OnDecryption => {},
                _ => {
                    proof {
                        lemma_count_error_prefix(pre, order@, i + 1);
                    }
                    return Err(Error::FestivalNotActive);
                },
            }
            let stakes = self.decrypted_stakes_of(f);
            if stakes.len() > 0 {
                match self.resolve_market(f) {
                    Some(p) => {
                        let mut p = p;
                        let ghost before = payouts@;
                        let ghost pv = p@;
                        payouts.append(&mut p);
                        assert(payouts@ =~= before + pv);
                    },
                    None => {
                        proof {
                            lemma_count_error_prefix(pre, order@, i + 1);
                        }
                        return Err(Error::Overflow);
                    },
                }
            } else {
                proof {
                    lemma_payouts_without_stakes(pre.decrypted_votes, votes_map(pre), f, winners_of(pre, f), lockup_of(pre, f), winners_lockup(pre, f));
                    lemma_no_stakes_no_payouts(pre, f);
                    assert(payouts@ =~= payouts@ + festival_payouts(pre, f));
                }
            }
            i = i + 1;
        }
        proof {
            assert(order@.take(n as int) =~= order@);
        }
        let treasury_account = self.account_id();
        let m = payouts.len();
        let mut k: usize = 0;
        let ghost ops0 = currency.ops();
        while k < m
            invariant
                m == payouts@.len(),
                self@ == pre,
                self.wf(),
                k <= m,
                count_error(pre, id_walk(ids_at(pre.festival_expiration, now))) is None,
                treasury_account == treasury(pre),
                payouts@ == all_payouts(pre, id_walk(ids_at(pre.festival_expiration, now))),
                pre == old(self)@,
                ops0 == old(currency).ops(),
                currency.ops() == ops0 + payout_transfers(treasury_account, payouts@.take(k as int), ExistenceRequirement::KeepAlive),
            decreases m - k,
        {
            let (dest, amount) = payouts[k];
            let ok = currency.transfer(treasury_account, dest, amount, ExistenceRequirement::KeepAlive);
            proof {
                let q = payouts@.take(k + 1);
                assert(payout_transfers(treasury_account, q, ExistenceRequirement::KeepAlive) =~= payout_transfers(
                    treasury_account,
                    payouts@.take(k as int),
                    ExistenceRequirement::KeepAlive,
                ).push(CurrencyOp::Transfer(treasury_account, dest, amount, ExistenceRequirement::KeepAlive, true)));
                assert(payouts@[k as int] == (dest, amount));
            }
            if !ok {
                proof {
                    let kk = k as int;
                    assert(0 <= kk < payouts@.len() && currency.ops() == ops0 + payout_transfers(
                        treasury_account,
                        payouts@.take(kk),
                        ExistenceRequirement::KeepAlive,
                    ).push(CurrencyOp::Transfer(treasury_account, payouts@[kk].0, payouts@[kk].1, ExistenceRequirement::KeepAlive, false)));
                    assert(paid_until_refused(ops0, currency.ops(), treasury_account, payouts@, ExistenceRequirement::KeepAlive));
                }
                return Err(Error::InsuficientBalance);
            }
            k = k + 1;
        }
        assert(payouts@.take(m as int) =~= payouts@);
        self.set_statuses(&ids, AnonFestivalStatus::NormalFinish);
        let remaining = remove_block(&self.festival_expiration, now);
        self.festival_expiration = remaining;
        proof {
            Self::lemma_index_without_block(pre.festival_expiration, self@.anon_festivals, now);
            assert(self@ =~= counted(pre, now));
        }
        Ok(payouts)
    }

    /// What the runtime does at the end of block `now`: close the festivals
    /// ending there, open those starting there, then count the votes of
    /// those expiring there. Returns the payouts made. When closing fails
    /// nothing changes; when counting fails, the closings and openings
    /// stand.
    pub fn on_finalize<C: Currency>(&mut self, now: u64, currency: &mut Recorded<C>) -> (r: Result<Vec<(u64, u128)>, Error>)
        requires
            old(self).wf(),
        ensures
            final(self).event_log() == old(self).event_log(),
            final(self).wf(),
            match close_error(old(self)@, ids_at(old(self)@.festival_end_time, now)) {
                Some(e) => r == Err::<Vec<(u64, u128)>, Error>(e) && final(self)@ == old(self)@
                    && final(currency).ops() == old(currency).ops(),
                None => {
                    let opened = activated(closed(old(self)@, now), now);
                    match count_error(opened, id_walk(ids_at(opened.festival_expiration, now))) {
                        Some(e) => r == Err::<Vec<(u64, u128)>, Error>(e) && final(self)@ == opened
                            && final(currency).ops() == old(currency).ops(),
                        None => {
                            let p = all_payouts(opened, id_walk(ids_at(opened.festival_expiration, now)));
                            let t = treasury(opened);
                            ||| r matches Ok(q) && q@ == p && final(self)@ == counted(opened, now)
                                && final(currency).ops() == old(currency).ops() + payout_transfers(t, p, ExistenceRequirement::KeepAlive)
                            ||| r == Err::<Vec<(u64, u128)>, Error>(Error::InsuficientBalance) && final(self)@ == opened
                                && paid_until_refused(old(currency).ops(), final(currency).ops(), t, p, ExistenceRequirement::KeepAlive)
                        },
                    }
                },
            },
    {
        self.conclude_festival(now)?;
        let activation = self.activate_festival(now);
        match activation {
            Ok(()) => {},
            Err(e) => return Err(e),
        }
        self.count_votes(now, currency)
    }

    /// What the runtime does at the start of a block: the weight it uses.
    pub fn on_initialize(&self, now: u64) -> (weight: u64)
        ensures
            weight == 10_000,
    {
        10_000
    }

    /// The constants of the runtime.
    pub fn config(&self) -> (c: Config)
        ensures
            c == self@.config,
    {
        self.config
    }

    /// The festival with id `fest_id`.
    pub fn anon_festival(&self, fest_id: u32) -> (r: Option<AnonFestival>)
        requires
            self.wf(),
        ensures
            match r {
                Some(f) => self@.anon_festivals.dom().contains(fest_id) && f@ == self@.anon_festivals[fest_id],
                None => !self@.anon_festivals.dom().contains(fest_id),
            },
    {
        match self.anon_festivals.get(&fest_id) {
            Some(f) => Some(f.duplicate()),
            None => None,
        }
    }

    /// The vote `vote_id` of festival `fest_id`.
    pub fn anon_vote(&self, fest_id: u32, vote_id: u32) -> (r: Option<AnonVote>)
        requires
            self.wf(),
        ensures
            match r {
                Some(v) => votes_map(self@).dom().contains((fest_id, vote_id)) && v@ == votes_map(self@)[(fest_id, vote_id)],
                None => !votes_map(self@).dom().contains((fest_id, vote_id)),
            },
    {
        match self.anon_votes.get(&(fest_id, vote_id)) {
            Some(v) => Some(v.duplicate()),
            None => None,
        }
    }

    /// The polling station with id `station_id`.
    pub fn polling_station(&self, station_id: u32) -> (r: Option<PollingStation>)
        requires
            self.wf(),
        ensures
            match r {
                Some(p) => self@.polling_stations.dom().contains(station_id) && p@ == self@.polling_stations[station_id],
                None => !self@.polling_stations.dom().contains(station_id),
            },
    {
        match self.polling_stations.get(&station_id) {
            Some(p) => Some(p.duplicate()),
            None => None,
        }
    }

    /// The public key of `member` in station `station_id`.
    pub fn polling_station_member(&self, station_id: u32, member: u64) -> (r: Option<Vec<u8>>)
        requires
            self.wf(),
        ensures
            match r {
                Some(k) => self@.polling_station_members.dom().contains((station_id, member)) && k@
                    == self@.polling_station_members[(station_id, member)],
                None => !self@.polling_station_members.dom().contains((station_id, member)),
            },
    {
        match self.polling_station_members.get(&(station_id, member)) {
            Some(k) => Some(copy_bytes(k)),
            None => None,
        }
    }

    /// The stake of vote `vote_id` of festival `fest_id` decrypted as
    /// `raw_vote`, zero where there is none.
    pub fn decrypted_vote(&self, fest_id: u32, vote_id: u32, raw_vote: &Vec<u8>) -> (r: u128)
        requires
            self.wf(),
        ensures
            r == (if has_key(self@.decrypted_votes, (fest_id, vote_id, raw_vote@)) {
                entries_map(self@.decrypted_votes)[(fest_id, vote_id, raw_vote@)]
            } else {
                0
            }),
    {
        match self.decrypted_votes.find(&(fest_id, vote_id, copy_bytes(raw_vote))) {
            Some(i) => {
                proof {
                    assert(has_key(self@.decrypted_votes, (fest_id, vote_id, raw_vote@)));
                }
                *self.decrypted_votes.value_at(i)
            },
            None => {
                proof {
                    let s = self@.decrypted_votes;
                    if has_key(s, (fest_id, vote_id, raw_vote@)) {
                        let i = choose|i: int| 0 <= i < s.len() && s[i].0 == (fest_id, vote_id, raw_vote@);
                        lemma_entry_in_map(s, i);
                    }
                }
                0
            },
        }
    }

    /// Whether movie `movie_id` is in festival `fest_id`.
    pub fn movies_in_festival(&self, fest_id: u32, movie_id: &Vec<u8>) -> (r: bool)
        requires
            self.wf(),
        ensures
            r == self@.movies_in_festival.contains((fest_id, movie_id@)),
    {
        self.movies_in_festival.contains_key(&(fest_id, copy_bytes(movie_id)))
    }

    /// Whether festival `fest_id` is indexed in `idx` for `block`.
    fn indexed(idx: &Table<(u64, u32), ()>, block: u64, fest_id: u32) -> (r: bool)
        requires
            idx.wf(),
        ensures
            r == has_key(idx.entries(), (block, fest_id)),
    {
        let r = idx.contains_key(&(block, fest_id));
        proof {
            let s = idx.entries();
            if has_key(s, (block, fest_id)) {
                let i = choose|i: int| 0 <= i < s.len() && s[i].0 == (block, fest_id);
                lemma_entry_in_map(s, i);
            }
        }
        r
    }

    /// Whether festival `fest_id` is indexed to open at `block`.
    pub fn festival_start_time(&self, block: u64, fest_id: u32) -> (r: bool)
        requires
            self.wf(),
        ensures
            r == has_key(self@.festival_start_time, (block, fest_id)),
    {
        Self::indexed(&self.festival_start_time, block, fest_id)
    }

    /// Whether festival `fest_id` is indexed to close at `block`.
    pub fn festival_end_time(&self, block: u64, fest_id: u32) -> (r: bool)
        requires
            self.wf(),
        ensures
            r == has_key(self@.festival_end_time, (block, fest_id)),
    {
        Self::indexed(&self.festival_end_time, block, fest_id)
    }

    /// Whether the votes of festival `fest_id` are indexed to be counted at
    /// `block`.
    pub fn festival_expiration(&self, block: u64, fest_id: u32) -> (r: bool)
        requires
            self.wf(),
        ensures
            r == has_key(self@.festival_expiration, (block, fest_id)),
    {
        Self::indexed(&self.festival_expiration, block, fest_id)
    }

    /// The last festival `owner` created.
    pub fn owned_festivals(&self, owner: u64) -> (r: Option<u32>)
        requires
            self.wf(),
        ensures
            match r {
                Some(f) => self@.owned_festivals.dom().contains(owner) && f == self@.owned_festivals[owner],
                None => !self@.owned_festivals.dom().contains(owner),
            },
    {
        match self.owned_festivals.get(&owner) {
            Some(f) => Some(*f),
            None => None,
        }
    }

    /// The id the next polling station gets.
    pub fn next_polling_station_id(&self) -> (r: u32)
        ensures
            r == self@.next_polling_station_id,
    {
        self.next_polling_station_id
    }

    /// The id the next festival gets.
    pub fn next_anon_festival_id(&self) -> (r: u32)
        ensures
            r == self@.next_anon_festival_id,
    {
        self.next_anon_festival_id
    }

    /// The id the next vote gets.
    pub fn next_anon_vote_id(&self) -> (r: u32)
        ensures
            r == self@.next_anon_vote_id,
    {
        self.next_anon_vote_id
    }
}

} // verus!
