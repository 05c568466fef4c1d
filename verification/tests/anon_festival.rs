use std::collections::HashMap;

use festival_pallets::anon_festival::{AnonFestivalStatus, AnonVoteStatus, Config, Error, Event, Pallet};
use festival_pallets::dispatch::{account_of_pallet, Currency, Recorded, DispatchError, ExistenceRequirement, Origin};
use festival_pallets::movie;

struct Bank {
    free: HashMap<u64, u128>,
    reserved: HashMap<u64, u128>,
}

impl Bank {
    fn new(funds: &[(u64, u128)]) -> Bank {
        Bank { free: funds.iter().cloned().collect(), reserved: HashMap::new() }
    }
    fn balance(&self, who: u64) -> u128 {
        *self.free.get(&who).unwrap_or(&0)
    }
}

impl Currency for Bank {
    fn transfer(&mut self, source: u64, dest: u64, value: u128, _existence: ExistenceRequirement) -> bool {
        let have = self.balance(source);
        if have < value {
            return false;
        }
        self.free.insert(source, have - value);
        let d = self.balance(dest);
        self.free.insert(dest, d + value);
        true
    }
    fn reserve(&mut self, who: u64, value: u128) -> bool {
        let have = self.balance(who);
        if have < value {
            return false;
        }
        self.free.insert(who, have - value);
        *self.reserved.entry(who).or_insert(0) += value;
        true
    }
}

const PALLET_ID: [u8; 8] = *b"anonfest";

fn pallet() -> Pallet {
    Pallet::new(Config {
        string_limit: 50,
        movie_string_limit: 32,
        min_festival_duration: 10,
        max_decryption_period: 5,
        min_member_slash_amount: 100,
        station_member_payout: 7,
        pallet_id: PALLET_ID,
    })
}

fn key() -> Vec<u8> {
    vec![0xab; 32]
}

fn with_open_festival(bank: &mut Recorded<Bank>) -> Pallet {
    let mut p = pallet();
    assert_eq!(p.do_create_anon_festival(1, b"Anon".to_vec(), b"Desc".to_vec(), 10, 5, 20, 1), Ok(0));
    assert_eq!(p.do_create_polling_station(1, 0, b"Station".to_vec(), b"s".to_vec()), Ok(0));
    assert_eq!(p.add_station_member(Origin::Signed(9), 0, key(), 100, bank), Ok(()));
    assert_eq!(p.activate_festival(5), Ok(()));
    p
}

#[test]
fn create_anon_festival_indexes_it() {
    let mut p = pallet();
    assert_eq!(p.create_anon_festival(Origin::Signed(1), b"Anon".to_vec(), b"Desc".to_vec(), 10, 5, 20, 1), Ok(()));
    let f = p.anon_festival(0).unwrap();
    assert_eq!(f.creator, 1);
    assert_eq!(f.status, AnonFestivalStatus::RecentlyCreated);
    assert!(p.festival_start_time(5, 0));
    assert!(p.festival_end_time(20, 0));
    assert!(p.festival_expiration(25, 0));
    assert_eq!(p.owned_festivals(1), Some(0));
    assert_eq!(p.next_anon_festival_id(), 1);
}

#[test]
fn create_anon_festival_errors_leave_partial_writes() {
    let mut p = pallet();
    assert_eq!(p.do_create_anon_festival(1, b"Anon".to_vec(), b"Desc".to_vec(), 10, 1, 20, 1), Err(Error::PastStartDate));
    assert_eq!(
        p.do_create_anon_festival(1, b"Anon".to_vec(), b"Desc".to_vec(), 10, 5, 9, 1),
        Err(Error::FestivalPeriodTooShort)
    );
    assert_eq!(p.do_create_anon_festival(1, vec![0u8; 51], b"Desc".to_vec(), 10, 5, 20, 1), Err(Error::BadMetadata));
    // the festivals refused on their dates are stored and indexed under their start only
    assert_eq!(p.next_anon_festival_id(), 3);
    assert_eq!(p.anon_festival(0).unwrap().status, AnonFestivalStatus::RecentlyCreated);
    assert!(p.festival_start_time(1, 0));
    assert!(p.festival_start_time(5, 1));
    assert!(!p.festival_end_time(20, 0));
    assert!(!p.festival_expiration(25, 0));
    assert!(p.anon_festival(2).is_none());
    assert_eq!(p.owned_festivals(1), None);
    assert_eq!(p.take_events(), vec![]);
}

#[test]
fn polling_station_and_members() {
    let mut bank = Recorded::new(Bank::new(&[(9, 1000), (8, 50)]));
    let mut p = pallet();
    assert_eq!(p.do_create_polling_station(1, 0, b"S".to_vec(), b"s".to_vec()), Err(Error::InvalidFestivalId));
    p.do_create_anon_festival(1, b"Anon".to_vec(), b"Desc".to_vec(), 10, 5, 20, 1).unwrap();
    assert_eq!(p.create_polling_station(Origin::Signed(1), 0, b"S".to_vec(), b"s".to_vec()), Ok(()));
    assert_eq!(p.polling_station(0).unwrap().anon_fest_id, 0);
    assert_eq!(
        p.add_station_member(Origin::Signed(9), 3, key(), 100, &mut bank),
        Err(DispatchError::Module(Error::BadMetadata))
    );
    assert_eq!(
        p.add_station_member(Origin::Signed(9), 0, key(), 99, &mut bank),
        Err(DispatchError::Module(Error::InsuficientBalance))
    );
    assert_eq!(p.add_station_member(Origin::Signed(8), 0, key(), 100, &mut bank), Err(DispatchError::Currency));
    assert_eq!(p.add_station_member(Origin::Signed(9), 0, key(), 100, &mut bank), Ok(()));
    assert_eq!(bank.currency.reserved.get(&9), Some(&100));
    assert_eq!(p.polling_station_member(0, 9), Some(key()));
    assert_eq!(
        p.add_station_member(Origin::Signed(9), 0, key(), 100, &mut bank),
        Err(DispatchError::Module(Error::BadMetadata))
    );
}

#[test]
fn add_movie_call_does_nothing() {
    let mut p = pallet();
    assert_eq!(p.add_movie(Origin::Unsigned, 4, b"m".to_vec()), Ok(()));
    assert_eq!(p.next_anon_festival_id(), 0);
    assert_eq!(p.take_events(), vec![]);
}

#[test]
fn do_add_movie_checks() {
    let mut movies = movie::Pallet::new(movie::Config { string_limit: 50, movie_string_limit: 32 });
    let t = vec![b'x'; 4];
    movies
        .do_create_movie(
            9, t.clone(), t.clone(), t.clone(), 0, t.clone(), t.clone(), t.clone(), t.clone(), 0, t.clone(),
            t.clone(), t.clone(), t.clone(), t.clone(), t.clone(), t.clone(), [3u8; 32], None,
        )
        .unwrap();
    let k = movies.random_value(0, &[3u8; 32], None);
    let mut p = pallet();
    assert_eq!(p.do_add_movie(1, 0, k.clone(), &movies), Err(Error::FestivalNotFound));
    p.do_create_anon_festival(1, b"Anon".to_vec(), b"Desc".to_vec(), 10, 5, 20, 1).unwrap();
    assert_eq!(p.do_add_movie(1, 0, b"nope".to_vec(), &movies), Err(Error::MovieNotFound));
    assert_eq!(p.do_add_movie(1, 0, k.clone(), &movies), Ok(()));
    assert!(p.movies_in_festival(0, &k));
    assert_eq!(p.do_add_movie(1, 0, k.clone(), &movies), Err(Error::MovieAlreadyInFestival));
    assert_eq!(p.take_events(), vec![Event::FestivalCreated(0, 1), Event::MovieAddedToFestival(0, k.clone(), 1)]);
}

#[test]
fn votes_are_checked() {
    let mut bank = Recorded::new(Bank::new(&[(9, 1000)]));
    let mut p = pallet();
    p.do_create_anon_festival(1, b"Anon".to_vec(), b"Desc".to_vec(), 10, 5, 20, 1).unwrap();
    p.do_create_polling_station(1, 0, b"S".to_vec(), b"s".to_vec()).unwrap();
    p.add_station_member(Origin::Signed(9), 0, key(), 100, &mut bank).unwrap();
    assert_eq!(
        p.vote(Origin::Signed(2), 0, 0, 9, key(), b"enc".to_vec(), 5),
        Err(DispatchError::Module(Error::FestivalNotActive))
    );
    p.activate_festival(5).unwrap();
    assert!(!p.festival_start_time(5, 0));
    assert_eq!(
        p.vote(Origin::Signed(2), 1, 0, 9, key(), b"enc".to_vec(), 5),
        Err(DispatchError::Module(Error::FestivalNotFound))
    );
    assert_eq!(
        p.vote(Origin::Signed(2), 0, 3, 9, key(), b"enc".to_vec(), 5),
        Err(DispatchError::Module(Error::InvalidFestivalId))
    );
    assert_eq!(
        p.vote(Origin::Signed(2), 0, 0, 8, key(), b"enc".to_vec(), 5),
        Err(DispatchError::Module(Error::Overflow))
    );
    // the vote id is taken before the delegate's membership is checked
    assert_eq!(p.next_anon_vote_id(), 1);
    assert_eq!(p.vote(Origin::Signed(2), 0, 0, 9, key(), b"enc".to_vec(), 5), Ok(()));
    let v = p.anon_vote(0, 1).unwrap();
    assert_eq!(v.owner, 2);
    assert_eq!(v.vote_status, AnonVoteStatus::Encrypted);
    assert_eq!(v.raw_vote, b"enc".to_vec());
    assert_eq!(p.total_lockup(0), 5);
}

#[test]
fn vote2_pays_delegate_and_treasury() {
    let mut bank = Recorded::new(Bank::new(&[(9, 1000), (3, 60_000), (4, 3)]));
    let mut p = with_open_festival(&mut bank);
    let treasury = account_of_pallet(PALLET_ID);
    assert_eq!(p.account_id(), treasury);
    assert_eq!(
        p.vote2(Origin::Signed(4), 0, 0, 9, key(), b"e".to_vec(), 1, &mut bank),
        Err(DispatchError::Currency)
    );
    assert_eq!(p.next_anon_vote_id(), 1);
    assert_eq!(p.total_lockup(0), 0);
    assert_eq!(p.vote2(Origin::Signed(3), 0, 0, 9, key(), b"e".to_vec(), 50_000, &mut bank), Ok(()));
    assert_eq!(p.anon_vote(0, 1).unwrap().owner, 3);
    assert_eq!(bank.currency.balance(9), 907);
    assert_eq!(bank.currency.balance(treasury), 50_000);
    assert_eq!(p.total_lockup(0), 50_000);
}

#[test]
fn decryption_rules() {
    let mut bank = Recorded::new(Bank::new(&[(9, 1000)]));
    let mut p = with_open_festival(&mut bank);
    p.vote(Origin::Signed(2), 0, 0, 9, key(), b"enc".to_vec(), 5).unwrap();
    assert_eq!(p.decrypt_vote(Origin::Signed(9), 0, 4, b"m".to_vec()), Err(DispatchError::Module(Error::InvalidVote)));
    assert_eq!(p.decrypt_vote(Origin::Signed(2), 0, 0, b"m".to_vec()), Err(DispatchError::Module(Error::NoPermission)));
    assert_eq!(p.decrypt_vote(Origin::Signed(9), 0, 0, b"m".to_vec()), Ok(()));
    assert_eq!(p.anon_vote(0, 0).unwrap().vote_status, AnonVoteStatus::Decrypted);
    assert_eq!(p.anon_vote(0, 0).unwrap().raw_vote, b"m".to_vec());
    assert_eq!(p.decrypted_vote(0, 0, &b"m".to_vec()), 5);
    assert_eq!(
        p.decrypt_vote(Origin::Signed(9), 0, 0, b"n".to_vec()),
        Err(DispatchError::Module(Error::AlreadyDecrypted))
    );
}

#[test]
fn anon_festival_round() {
    let mut bank = Recorded::new(Bank::new(&[(9, 1000), (2, 200_000), (3, 200_000)]));
    let treasury = account_of_pallet(PALLET_ID);
    let mut p = with_open_festival(&mut bank);
    assert_eq!(p.anon_festival(0).unwrap().status, AnonFestivalStatus::Open);
    p.vote(Origin::Signed(2), 0, 0, 9, key(), b"a1".to_vec(), 100_000).unwrap();
    p.vote2(Origin::Signed(3), 0, 0, 9, key(), b"b1".to_vec(), 50_000, &mut bank).unwrap();
    bank.currency.free.insert(treasury, 150_000);
    assert_eq!(p.on_finalize(20, &mut bank), Ok(vec![]));
    assert_eq!(p.anon_festival(0).unwrap().status, AnonFestivalStatus::OnDecryption);
    p.decrypt_vote(Origin::Signed(9), 0, 0, b"movie-a".to_vec()).unwrap();
    p.decrypt_vote(Origin::Signed(9), 0, 1, b"movie-b".to_vec()).unwrap();
    assert_eq!(p.get_winning_options(0), vec![b"movie-a".to_vec()]);
    assert_eq!(p.resolve_market(0), Some(vec![(2, 150_000)]));
    assert_eq!(p.on_finalize(25, &mut bank), Ok(vec![(2, 150_000)]));
    assert_eq!(bank.currency.balance(2), 350_000);
    assert_eq!(p.anon_festival(0).unwrap().status, AnonFestivalStatus::NormalFinish);
    assert!(!p.festival_expiration(25, 0));
}

#[test]
fn count_without_funds_is_refused() {
    let mut bank = Recorded::new(Bank::new(&[(9, 1000), (2, 200_000)]));
    let mut p = with_open_festival(&mut bank);
    p.vote(Origin::Signed(2), 0, 0, 9, key(), b"a1".to_vec(), 100_000).unwrap();
    p.conclude_festival(20).unwrap();
    p.decrypt_vote(Origin::Signed(9), 0, 0, b"movie-a".to_vec()).unwrap();
    assert_eq!(p.count_votes(25, &mut bank), Err(Error::InsuficientBalance));
    assert_eq!(p.anon_festival(0).unwrap().status, AnonFestivalStatus::OnDecryption);
    assert!(p.festival_expiration(25, 0));
}

#[test]
fn closing_a_festival_not_open_fails() {
    let mut p = pallet();
    p.do_create_anon_festival(1, b"Anon".to_vec(), b"Desc".to_vec(), 10, 5, 20, 1).unwrap();
    assert_eq!(p.conclude_festival(20), Err(Error::FestivalNotActive));
    assert!(p.festival_end_time(20, 0));
    assert_eq!(p.on_initialize(1), 10_000);
}

#[test]
fn only_creation_and_movies_deposit_events() {
    let mut bank = Recorded::new(Bank::new(&[(9, 1000), (2, 1000)]));
    let mut p = with_open_festival(&mut bank);
    assert_eq!(p.take_events(), vec![Event::FestivalCreated(0, 1)]);
    assert_eq!(p.vote(Origin::Signed(2), 0, 0, 9, key(), b"enc".to_vec(), 50), Ok(()));
    assert_eq!(p.take_events(), vec![]);
}

#[test]
fn vote2_refused_stake_keeps_the_payout() {
    let mut bank = Recorded::new(Bank::new(&[(9, 1000), (5, 10)]));
    let mut p = with_open_festival(&mut bank);
    assert_eq!(
        p.vote2(Origin::Signed(5), 0, 0, 9, key(), b"e".to_vec(), 100, &mut bank),
        Err(DispatchError::Currency)
    );
    assert_eq!(bank.currency.balance(5), 3);
    assert_eq!(bank.currency.balance(9), 907);
    assert_eq!(p.next_anon_vote_id(), 1);
    assert!(p.anon_vote(0, 0).is_none());
    assert_eq!(p.total_lockup(0), 0);
}

#[test]
fn counted_payouts_follow_the_storage_walk() {
    let mut bank = Recorded::new(Bank::new(&[(9, 1000), (2, 10_000), (3, 10_000), (4, 10_000)]));
    let treasury = account_of_pallet(PALLET_ID);
    let mut p = with_open_festival(&mut bank);
    for voter in [2u64, 3, 4] {
        p.vote(Origin::Signed(voter), 0, 0, 9, key(), b"x".to_vec(), 1_000).unwrap();
    }
    bank.currency.free.insert(treasury, 3_000);
    p.on_finalize(20, &mut bank).unwrap();
    for vote_id in 0..3u32 {
        p.decrypt_vote(Origin::Signed(9), 0, vote_id, b"m".to_vec()).unwrap();
    }
    let mut ids = vec![0u32, 1, 2];
    ids.sort_by_key(|v| {
        let mut encoded = v.to_le_bytes().to_vec();
        encoded.push(4);
        encoded.push(b'm');
        let mut k = sp_io::hashing::blake2_128(&encoded).to_vec();
        k.extend(encoded);
        k
    });
    assert_eq!(ids, vec![1, 0, 2]);
    let expected: Vec<(u64, u128)> = ids.iter().map(|v| (2 + *v as u64, 999)).collect();
    assert_eq!(p.resolve_market(0), Some(expected.clone()));
    assert_eq!(p.on_finalize(25, &mut bank), Ok(expected));
}
