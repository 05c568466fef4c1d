use std::collections::HashMap;

use festival_pallets::dispatch::{account_of_pallet, Currency, Recorded, DispatchError, ExistenceRequirement, Origin};
use festival_pallets::festival::{Config, Error, Event, FestivalStatus, Pallet};
use festival_pallets::movie;

struct Ledger {
    free: HashMap<u64, u128>,
    reserved: HashMap<u64, u128>,
}

impl Ledger {
    fn new(funds: &[(u64, u128)]) -> Ledger {
        Ledger { free: funds.iter().cloned().collect(), reserved: HashMap::new() }
    }
    fn balance(&self, who: u64) -> u128 {
        *self.free.get(&who).unwrap_or(&0)
    }
}

impl Currency for Ledger {
    fn transfer(&mut self, source: u64, dest: u64, value: u128, _existence: ExistenceRequirement) -> bool {
        let have = self.balance(source);
        if have < value {
            return false;
        }
        self.free.insert(source, have - value);
        let d = self.balance(dest);
        self.free.insert(dest, d + value);
        true
    }
    fn reserve(&mut self, who: u64, value: u128) -> bool {
        let have = self.balance(who);
        if have < value {
            return false;
        }
        self.free.insert(who, have - value);
        *self.reserved.entry(who).or_insert(0) += value;
        true
    }
}

const PALLET_ID: [u8; 8] = *b"festival";

fn setup() -> (movie::Pallet, Pallet, Vec<u8>, Vec<u8>) {
    let mut movies = movie::Pallet::new(movie::Config { string_limit: 50, movie_string_limit: 32 });
    let t = vec![b'x'; 4];
    let mut keys = vec![];
    for (i, seed) in [[1u8; 32], [2u8; 32]].iter().enumerate() {
        movies
            .do_create_movie(
                9, b"Movie".to_vec(), t.clone(), t.clone(), 0, t.clone(), t.clone(), t.clone(), t.clone(), 0,
                t.clone(), t.clone(), t.clone(), t.clone(), t.clone(), t.clone(), t.clone(), *seed, None,
            )
            .unwrap();
        keys.push(movies.random_value(i as u32, seed, None));
    }
    let fest = Pallet::new(Config {
        string_limit: 50,
        movie_string_limit: 32,
        min_festival_duration: 10,
        pallet_id: PALLET_ID,
    });
    (movies, fest, keys[0].clone(), keys[1].clone())
}

#[test]
fn create_festival_indexes_it() {
    let (_, mut fest, _, _) = setup();
    assert_eq!(
        fest.create_festival(Origin::Signed(1), b"Fest".to_vec(), b"Desc".to_vec(), vec![3], 10, 5, 20, 1),
        Ok(())
    );
    let f = fest.festival(0).unwrap();
    assert_eq!(f.owner, 1);
    assert_eq!(f.status, FestivalStatus::New);
    assert_eq!(f.min_entry, 10);
    assert!(fest.festival_start_time(5, 0));
    assert!(fest.festival_end_time(20, 0));
    assert!(fest.owned_festivals(1, 0).is_some());
    assert_eq!(fest.next_festival_id(), 1);
}

#[test]
fn create_festival_errors() {
    let (_, mut fest, _, _) = setup();
    assert_eq!(
        fest.do_create_festival(1, b"Fest".to_vec(), b"Desc".to_vec(), 10, 1, 20, 1),
        Err(Error::PastStartDate)
    );
    assert_eq!(
        fest.do_create_festival(1, b"Fest".to_vec(), b"Desc".to_vec(), 10, 5, 14, 1),
        Err(Error::FestivalPeriodTooShort)
    );
    assert_eq!(
        fest.do_create_festival(1, vec![0u8; 51], b"Desc".to_vec(), 10, 5, 20, 1),
        Err(Error::BadMetadata)
    );
    // each refused festival used up an id
    assert_eq!(fest.next_festival_id(), 3);
    assert!(fest.festival(0).is_none());
    assert!(!fest.festival_start_time(5, 0));
    assert_eq!(fest.do_create_category(1, vec![0u8; 51], b"d".to_vec()), Err(Error::BadMetadata));
    assert_eq!(fest.next_category_id(), 1);
}

#[test]
fn create_category_counts_ids() {
    let (_, mut fest, _, _) = setup();
    assert_eq!(fest.do_create_category(1, b"Drama".to_vec(), b"d".to_vec()), Ok(0));
    assert_eq!(fest.do_create_category(1, b"Comedy".to_vec(), b"c".to_vec()), Ok(1));
    assert_eq!(fest.category(1).unwrap().name, b"Comedy".to_vec());
    assert_eq!(fest.create_category(Origin::Unsigned, b"x".to_vec(), b"y".to_vec()), Err(DispatchError::BadOrigin));
    assert_eq!(fest.next_category_id(), 2);
}

#[test]
fn add_movie_checks() {
    let (movies, mut fest, k1, _) = setup();
    fest.do_create_festival(1, b"Fest".to_vec(), b"Desc".to_vec(), 10, 5, 20, 1).unwrap();
    assert_eq!(fest.do_add_movie(1, 7, k1.clone(), &movies), Err(Error::FestivalNotFound));
    assert_eq!(fest.do_add_movie(1, 0, b"nope".to_vec(), &movies), Err(Error::MovieNotFound));
    assert_eq!(fest.do_add_movie(1, 0, vec![0u8; 33], &movies), Err(Error::BadMetadata));
    assert_eq!(fest.add_movie(Origin::Signed(1), 0, k1.clone(), &movies), Ok(()));
    assert!(fest.movies_in_festival(0, &k1));
    assert_eq!(fest.do_add_movie(1, 0, k1.clone(), &movies), Err(Error::MovieAlreadyInFestival));
}

#[test]
fn festival_market_round() {
    let (movies, mut fest, k1, k2) = setup();
    let treasury = account_of_pallet(PALLET_ID);
    assert_eq!(fest.account_id(), treasury);
    let mut ledger = Recorded::new(Ledger::new(&[(2, 200_000), (3, 200_000), (4, 200_000), (5, 10)]));
    fest.do_create_festival(1, b"Fest".to_vec(), b"Desc".to_vec(), 10, 5, 20, 1).unwrap();
    fest.do_add_movie(1, 0, k1.clone(), &movies).unwrap();
    fest.do_add_movie(1, 0, k2.clone(), &movies).unwrap();
    assert_eq!(fest.do_vote_for(&mut ledger, 2, 0, k1.clone(), 100_000), Err(Error::FestivalNotActive));
    assert_eq!(fest.on_finalize(5, &mut ledger), Ok(vec![]));
    assert_eq!(fest.festival(0).unwrap().status, FestivalStatus::Active);
    assert!(fest.festival_start_time(5, 0));
    assert_eq!(fest.vote_for(Origin::Signed(2), 0, k1.clone(), 60_000, &mut ledger), Ok(()));
    assert_eq!(fest.vote_for(Origin::Signed(2), 0, k1.clone(), 40_000, &mut ledger), Ok(()));
    assert_eq!(fest.vote_for(Origin::Signed(3), 0, k2.clone(), 50_000, &mut ledger), Ok(()));
    assert_eq!(fest.do_vote_for(&mut ledger, 4, 0, k1.clone(), 5), Err(Error::LockedAmountInferiorToMinEntry));
    assert_eq!(fest.do_vote_for(&mut ledger, 5, 0, k1.clone(), 100), Err(Error::InsuficientBalance));
    assert_eq!(fest.do_vote_for(&mut ledger, 4, 0, b"other".to_vec(), 100), Err(Error::MovieNotFound));
    assert_eq!(fest.do_vote_for(&mut ledger, 4, 3, k1.clone(), 100), Err(Error::FestivalNotFound));
    assert_eq!(fest.voting_tracker(0, 2, &k1), 100_000);
    assert_eq!(fest.total_lockup(0), 150_000);
    assert_eq!(ledger.currency.balance(treasury), 150_000);
    assert_eq!(fest.get_winning_options(0), vec![k1.clone()]);
    assert_eq!(fest.get_winners_total_lockup(0, &vec![k1.clone()]), 100_000);
    assert_eq!(fest.resolve_market(0), Some(vec![(2, 150_000)]));
    assert_eq!(fest.on_finalize(20, &mut ledger), Ok(vec![(2, 150_000)]));
    assert_eq!(ledger.currency.balance(2), 250_000);
    assert_eq!(ledger.currency.balance(treasury), 0);
    assert_eq!(fest.festival(0).unwrap().status, FestivalStatus::Inactive);
    assert!(!fest.festival_end_time(20, 0));
}

#[test]
fn conclude_inactive_festival_fails() {
    let (_, mut fest, _, _) = setup();
    let mut ledger = Recorded::new(Ledger::new(&[]));
    fest.do_create_festival(1, b"Fest".to_vec(), b"Desc".to_vec(), 10, 5, 20, 1).unwrap();
    assert_eq!(fest.conclude_festival(20, &mut ledger), Err(Error::FestivalNotActive));
    assert!(fest.festival_end_time(20, 0));
    assert_eq!(fest.activate_festival(5), Ok(()));
    assert_eq!(fest.conclude_festival(20, &mut ledger), Ok(vec![]));
    assert_eq!(fest.festival(0).unwrap().status, FestivalStatus::Inactive);
}

#[test]
fn zero_stakes_cannot_be_settled() {
    let (movies, mut fest, k1, _) = setup();
    let mut ledger = Recorded::new(Ledger::new(&[(2, 10)]));
    fest.do_create_festival(1, b"Fest".to_vec(), b"Desc".to_vec(), 0, 5, 20, 1).unwrap();
    fest.do_add_movie(1, 0, k1.clone(), &movies).unwrap();
    fest.activate_festival(5).unwrap();
    assert_eq!(fest.do_vote_for(&mut ledger, 2, 0, k1.clone(), 0), Ok(()));
    assert_eq!(fest.resolve_market(0), None);
    assert_eq!(fest.on_finalize(20, &mut ledger), Err(Error::FestivalHooksError));
    assert_eq!(fest.festival(0).unwrap().status, FestivalStatus::Active);
}

#[test]
fn refused_payout_changes_nothing() {
    let (movies, mut fest, k1, _) = setup();
    let mut ledger = Recorded::new(Ledger::new(&[(2, 200_000)]));
    fest.do_create_festival(1, b"Fest".to_vec(), b"Desc".to_vec(), 0, 5, 20, 1).unwrap();
    fest.do_add_movie(1, 0, k1.clone(), &movies).unwrap();
    fest.activate_festival(5).unwrap();
    fest.do_vote_for(&mut ledger, 2, 0, k1.clone(), 100_000).unwrap();
    ledger.currency.free.insert(account_of_pallet(PALLET_ID), 0);
    assert_eq!(fest.on_finalize(20, &mut ledger), Err(Error::FestivalHooksError));
    assert_eq!(fest.festival(0).unwrap().status, FestivalStatus::Active);
    assert!(fest.festival_end_time(20, 0));
}

#[test]
fn on_initialize_weight() {
    let (_, fest, _, _) = setup();
    assert_eq!(fest.on_initialize(3), 0);
}

#[test]
fn festival_events_in_order() {
    let (movies, mut fest, k1, k2) = setup();
    let mut ledger = Recorded::new(Ledger::new(&[(2, 200_000), (3, 200_000)]));
    fest.do_create_festival(1, b"Fest".to_vec(), b"Desc".to_vec(), 10, 5, 20, 1).unwrap();
    fest.do_create_category(1, b"Drama".to_vec(), b"d".to_vec()).unwrap();
    fest.do_add_movie(1, 0, k1.clone(), &movies).unwrap();
    fest.do_add_movie(1, 0, k2.clone(), &movies).unwrap();
    assert_eq!(fest.do_add_movie(1, 0, k2.clone(), &movies), Err(Error::MovieAlreadyInFestival));
    fest.on_finalize(5, &mut ledger).unwrap();
    fest.vote_for(Origin::Signed(2), 0, k1.clone(), 70_000, &mut ledger).unwrap();
    fest.vote_for(Origin::Signed(3), 0, k2.clone(), 30_000, &mut ledger).unwrap();
    assert_eq!(
        fest.take_events(),
        vec![
            Event::FestivalCreated(0, 1),
            Event::MovieAddedToFestival(0, k1.clone(), 1),
            Event::MovieAddedToFestival(0, k2.clone(), 1),
            Event::VotedForMovieInFestival(0, k1.clone(), 2),
            Event::VotedForMovieInFestival(0, k2.clone(), 3),
        ]
    );
    assert_eq!(fest.on_finalize(20, &mut ledger), Ok(vec![(2, 100_000)]));
    assert_eq!(fest.take_events(), vec![Event::TestEvent(70_000)]);
}

#[test]
fn festival_without_stakes_concludes_silently() {
    let (_, mut fest, _, _) = setup();
    let mut ledger = Recorded::new(Ledger::new(&[]));
    fest.do_create_festival(1, b"Fest".to_vec(), b"Desc".to_vec(), 10, 5, 20, 1).unwrap();
    fest.on_finalize(5, &mut ledger).unwrap();
    assert_eq!(fest.take_events(), vec![Event::FestivalCreated(0, 1)]);
    assert_eq!(fest.on_finalize(20, &mut ledger), Ok(vec![]));
    assert_eq!(fest.take_events(), vec![]);
}

fn stake_key(voter: u64, movie: &[u8]) -> Vec<u8> {
    let mut encoded = voter.to_le_bytes().to_vec();
    encoded.push((movie.len() * 4) as u8);
    encoded.extend_from_slice(movie);
    let mut key = sp_io::hashing::blake2_128(&encoded).to_vec();
    key.extend(encoded);
    key
}

fn id_key(id: u32) -> Vec<u8> {
    let encoded = id.to_le_bytes().to_vec();
    let mut key = sp_io::hashing::blake2_128(&encoded).to_vec();
    key.extend(encoded);
    key
}

#[test]
fn payouts_follow_the_storage_walk() {
    let (movies, mut fest, k1, _) = setup();
    let mut ledger = Recorded::new(Ledger::new(&[(2, 50_000), (3, 50_000), (4, 50_000)]));
    fest.do_create_festival(1, b"Fest".to_vec(), b"Desc".to_vec(), 0, 5, 20, 1).unwrap();
    fest.do_add_movie(1, 0, k1.clone(), &movies).unwrap();
    fest.activate_festival(5).unwrap();
    for voter in [2u64, 3, 4] {
        fest.do_vote_for(&mut ledger, voter, 0, k1.clone(), 10_000).unwrap();
    }
    let mut voters = vec![2u64, 3, 4];
    voters.sort_by_key(|v| stake_key(*v, &k1));
    assert_eq!(voters, vec![2, 4, 3]);
    let expected: Vec<(u64, u128)> = voters.iter().map(|v| (*v, 9_990)).collect();
    assert_eq!(fest.resolve_market(0), Some(expected.clone()));
    assert_eq!(fest.on_finalize(20, &mut ledger), Ok(expected));
}

#[test]
fn festivals_conclude_in_walk_order() {
    let (movies, mut fest, k1, _) = setup();
    let mut ledger = Recorded::new(Ledger::new(&[(2, 50_000), (3, 50_000), (4, 50_000)]));
    for f in 0..3u32 {
        fest.do_create_festival(1, b"Fest".to_vec(), b"Desc".to_vec(), 0, 5, 20, 1).unwrap();
        fest.do_add_movie(1, f, k1.clone(), &movies).unwrap();
    }
    fest.activate_festival(5).unwrap();
    for f in 0..3u32 {
        fest.do_vote_for(&mut ledger, 2 + f as u64, f, k1.clone(), 1_000 * (f as u128 + 1)).unwrap();
    }
    fest.take_events();
    let mut ids = vec![0u32, 1, 2];
    ids.sort_by_key(|f| id_key(*f));
    assert_eq!(ids, vec![0, 2, 1]);
    let lockups: Vec<Event> = ids.iter().map(|f| Event::TestEvent(1_000 * (*f as u128 + 1))).collect();
    let payouts: Vec<(u64, u128)> = ids.iter().map(|f| (2 + *f as u64, 1_000 * (*f as u128 + 1))).collect();
    assert_eq!(fest.on_finalize(20, &mut ledger), Ok(payouts));
    assert_eq!(fest.take_events(), lockups);
}
