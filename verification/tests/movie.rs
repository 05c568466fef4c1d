use festival_pallets::dispatch::{DispatchError, Origin};
use festival_pallets::movie::{Config, Error, Event, Pallet};

fn texts(n: usize) -> Vec<Vec<u8>> {
    (0..n).map(|i| vec![b'a' + i as u8; 3]).collect()
}

fn create(p: &mut Pallet, who: Origin, name: Vec<u8>, seed: [u8; 32]) -> Result<(), DispatchError<Error>> {
    let t = texts(13);
    p.create_movie(
        who, name, t[0].clone(), t[1].clone(), 1, t[2].clone(), t[3].clone(), t[4].clone(), t[5].clone(), 7,
        t[6].clone(), t[7].clone(), t[8].clone(), t[9].clone(), t[10].clone(), t[11].clone(), t[12].clone(), seed,
        Some(2),
    )
}

#[test]
fn create_movie_stores_under_hashed_key() {
    let mut p = Pallet::new(Config { string_limit: 50, movie_string_limit: 32 });
    let seed = [7u8; 32];
    assert_eq!(create(&mut p, Origin::Signed(1), b"Movie".to_vec(), seed), Ok(()));
    assert_eq!(p.next_movie_id(), 1);
    let key = p.random_value(0, &seed, Some(2));
    assert_eq!(key.len(), 16);
    let m = p.movie(&key).unwrap();
    assert_eq!(m.owner, 1);
    assert_eq!(m.name, b"Movie".to_vec());
    assert_eq!(m.description, texts(13)[1]);
    assert_eq!(m.link, texts(13)[11]);
}

#[test]
fn movie_keys_differ_by_id() {
    let p = Pallet::new(Config { string_limit: 50, movie_string_limit: 32 });
    let seed = [7u8; 32];
    assert_eq!(p.random_value(0, &seed, None), vec![203, 167, 119, 48, 244, 192, 90, 17, 55, 181, 203, 76, 41, 123, 215, 56]);
    assert_eq!(p.random_value(1, &seed, None), vec![204, 47, 105, 227, 198, 169, 241, 5, 85, 101, 214, 113, 204, 154, 237, 166]);
}

#[test]
fn create_movie_bad_metadata_uses_up_the_id() {
    let mut p = Pallet::new(Config { string_limit: 4, movie_string_limit: 32 });
    assert_eq!(
        create(&mut p, Origin::Signed(1), b"too long".to_vec(), [0u8; 32]),
        Err(DispatchError::Module(Error::BadMetadata))
    );
    assert_eq!(p.next_movie_id(), 1);
    assert!(p.movie(&p.random_value(0, &[0u8; 32], Some(2))).is_none());
    assert_eq!(p.take_events(), vec![]);
}

#[test]
fn create_movie_needs_signed_origin() {
    let mut p = Pallet::new(Config { string_limit: 50, movie_string_limit: 32 });
    assert_eq!(create(&mut p, Origin::Root, b"Movie".to_vec(), [0u8; 32]), Err(DispatchError::BadOrigin));
    assert_eq!(p.next_movie_id(), 0);
}

#[test]
fn create_movie_deposits_event() {
    let mut p = Pallet::new(Config { string_limit: 50, movie_string_limit: 32 });
    assert_eq!(create(&mut p, Origin::Signed(4), b"One".to_vec(), [1u8; 32]), Ok(()));
    assert_eq!(create(&mut p, Origin::Signed(5), b"Two".to_vec(), [1u8; 32]), Ok(()));
    assert_eq!(create(&mut p, Origin::Signed(5), vec![b'z'; 51], [1u8; 32]), Err(DispatchError::Module(Error::BadMetadata)));
    assert_eq!(p.take_events(), vec![Event::MovieCreated(0, 4), Event::MovieCreated(1, 5)]);
    assert_eq!(p.take_events(), vec![]);
}
