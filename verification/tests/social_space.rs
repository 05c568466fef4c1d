use festival_pallets::dispatch::{DispatchError, Origin};
use festival_pallets::social_space::{Config, Error, Event, Pallet};

fn new_test_ext() -> Pallet {
    Pallet::new(Config { string_limit: 50 })
}

#[test]
fn test_create_space() {
    let mut social = new_test_ext();
    assert_eq!(social.create_space(Origin::Signed(1), vec![0u8, 10], vec![0u8, 10]), Ok(()));
}

#[test]
fn error_string_limit_space() {
    let mut social = new_test_ext();
    let my_string: &str = "some stringasdshadsabdjasbdhsagduasgduyasgdyuagsdyugasyudgasuydasyudgasyugdyuasgduysagduyasgdyuasgduyasgdyuagsuydgasyudgasuygduygadsdgasuygdsauya";
    let my_bytes: Vec<u8> = my_string.as_bytes().to_vec();
    assert_eq!(
        social.create_space(Origin::Signed(1), my_bytes, vec![0u8, 255]),
        Err(DispatchError::Module(Error::BadMetadata))
    );
    assert!(social.space(1).is_none());
}

#[test]
fn test_create_post() {
    let mut social = new_test_ext();
    let _ = social.create_space(Origin::Signed(2), vec![0u8, 10], vec![0u8, 10]);
    assert_eq!(social.create_post(Origin::Signed(2), vec![0u8, 10], vec![0u8, 10], vec![0u8, 10], 1), Ok(()));
}

#[test]
fn error_create_post_without_space() {
    let mut social = new_test_ext();
    assert_eq!(
        social.create_post(Origin::Signed(1), vec![0u8, 10], vec![0u8, 255], vec![0u8, 10], 1),
        Err(DispatchError::Module(Error::InexistentProfile))
    );
    assert_eq!(social.next_post_id(), 0);
}

#[test]
fn post_with_long_text_uses_up_its_id() {
    let mut social = new_test_ext();
    social.create_space(Origin::Signed(1), b"one".to_vec(), b"d".to_vec()).unwrap();
    assert_eq!(
        social.create_post(Origin::Signed(1), vec![0u8; 51], b"i".to_vec(), b"v".to_vec(), 1),
        Err(DispatchError::Module(Error::BadMetadata))
    );
    assert_eq!(social.next_post_id(), 1);
    assert!(social.post(0).is_none());
    assert_eq!(social.create_post(Origin::Signed(1), b"ok".to_vec(), b"i".to_vec(), b"v".to_vec(), 1), Ok(()));
    assert_eq!(social.post(1).unwrap().id, 1);
}

#[test]
fn follow_counts_and_lists() {
    let mut social = new_test_ext();
    social.create_space(Origin::Signed(1), b"one".to_vec(), b"d".to_vec()).unwrap();
    social.create_space(Origin::Signed(2), b"two".to_vec(), b"d".to_vec()).unwrap();
    assert_eq!(social.follow_space(Origin::Signed(2), 1), Ok(()));
    assert_eq!(social.space(1).unwrap().followers, 1);
    assert_eq!(social.space(2).unwrap().following, 1);
    assert_eq!(social.space_followers(1), vec![2]);
    assert_eq!(social.follow_space(Origin::Signed(2), 1), Err(DispatchError::Module(Error::AlreadyFollowing)));
    assert_eq!(social.follow_space(Origin::Signed(2), 3), Err(DispatchError::Module(Error::SpaceNotFound)));
    assert_eq!(social.follow_space(Origin::Signed(3), 1), Err(DispatchError::Module(Error::SpaceNotFound)));
}

#[test]
fn self_follow_counts_both() {
    let mut social = new_test_ext();
    social.create_space(Origin::Signed(1), b"one".to_vec(), b"d".to_vec()).unwrap();
    assert_eq!(social.follow_space(Origin::Signed(1), 1), Ok(()));
    let s = social.space(1).unwrap();
    assert_eq!((s.following, s.followers), (1, 1));
    assert_eq!(social.space_followers(1), vec![1]);
}

#[test]
fn space_created_once() {
    let mut social = new_test_ext();
    social.create_space(Origin::Signed(1), b"one".to_vec(), b"d".to_vec()).unwrap();
    assert_eq!(
        social.create_space(Origin::Signed(1), b"again".to_vec(), b"d".to_vec()),
        Err(DispatchError::Module(Error::ProfileAlreadyCreated))
    );
    assert_eq!(social.space(1).unwrap().name, b"one".to_vec());
    assert_eq!(social.create_space(Origin::Root, b"r".to_vec(), b"d".to_vec()), Err(DispatchError::BadOrigin));
}

#[test]
fn comments_on_posts_and_comments() {
    let mut social = new_test_ext();
    social.create_space(Origin::Signed(1), b"one".to_vec(), b"d".to_vec()).unwrap();
    social.create_post(Origin::Signed(1), b"hello".to_vec(), b"img".to_vec(), b"vid".to_vec(), 7).unwrap();
    let post = social.post(0).unwrap();
    assert_eq!((post.owner, post.id, post.date), (1, 0, 7));
    assert_eq!(
        social.comment_on_post(Origin::Signed(2), 5, b"hi".to_vec(), 8),
        Err(DispatchError::Module(Error::PostNotFound))
    );
    // the comment id is taken before the post is looked up
    assert_eq!(social.next_comment_id(), 2);
    assert_eq!(social.comment_on_post(Origin::Signed(2), 0, b"hi".to_vec(), 8), Ok(()));
    let c = social.comment(0, 2).unwrap();
    assert_eq!((c.owner, c.id, c.post_id, c.parent_comment_id, c.date), (2, 2, 0, 0, 8));
    assert_eq!(social.next_comment_id(), 3);
    assert_eq!(
        social.comment_on_comment(Origin::Signed(3), 0, 9, b"re".to_vec(), 9),
        Err(DispatchError::Module(Error::PostNotFound))
    );
    assert_eq!(social.next_comment_id(), 3);
    assert_eq!(social.comment_on_comment(Origin::Signed(3), 0, 2, b"re".to_vec(), 9), Ok(()));
    let r = social.comment(0, 3).unwrap();
    assert_eq!((r.parent_comment_id, r.id), (2, 3));
    assert_eq!(
        social.comment_on_post(Origin::Signed(2), 0, vec![0u8; 51], 8),
        Err(DispatchError::Module(Error::BadMetadata))
    );
    assert_eq!(social.next_comment_id(), 5);
    assert_eq!(
        social.comment_on_comment(Origin::Signed(3), 0, 2, vec![0u8; 51], 9),
        Err(DispatchError::Module(Error::BadMetadata))
    );
    assert_eq!(social.next_comment_id(), 6);
    assert!(social.comment(0, 5).is_none());
}

#[test]
fn social_events_in_order() {
    let mut social = new_test_ext();
    social.create_space(Origin::Signed(1), b"one".to_vec(), b"d".to_vec()).unwrap();
    social.create_space(Origin::Signed(2), b"two".to_vec(), b"d".to_vec()).unwrap();
    social.follow_space(Origin::Signed(2), 1).unwrap();
    social.create_post(Origin::Signed(1), b"hi".to_vec(), b"i".to_vec(), b"v".to_vec(), 3).unwrap();
    social.comment_on_post(Origin::Signed(2), 0, b"nice".to_vec(), 4).unwrap();
    social.comment_on_comment(Origin::Signed(1), 0, 1, b"thanks".to_vec(), 5).unwrap();
    assert_eq!(
        social.create_space(Origin::Signed(1), b"again".to_vec(), b"d".to_vec()),
        Err(DispatchError::Module(Error::ProfileAlreadyCreated))
    );
    assert_eq!(
        social.take_events(),
        vec![
            Event::SpaceCreated(1),
            Event::SpaceCreated(2),
            Event::SpaceFollowed(2, 1),
            Event::PostCreated(1, 0),
            Event::PostCommented(2, 0),
            Event::CommmentReplied(1, 1, 2),
        ]
    );
}

#[test]
fn following_counts_followed_spaces() {
    let mut social = new_test_ext();
    for who in 1..=3u64 {
        social.create_space(Origin::Signed(who), b"s".to_vec(), b"d".to_vec()).unwrap();
    }
    social.follow_space(Origin::Signed(1), 2).unwrap();
    social.follow_space(Origin::Signed(1), 3).unwrap();
    social.follow_space(Origin::Signed(2), 3).unwrap();
    assert_eq!(social.space(1).unwrap().following, 2);
    assert_eq!(social.space(2).unwrap().following, 1);
    assert_eq!(social.space(3).unwrap().following, 0);
    assert_eq!(social.space(3).unwrap().followers, 2);
    assert_eq!(social.space_followers(3), vec![1, 2]);
}
