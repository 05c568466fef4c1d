//! Laws that relate the calls of the pallets to one another.

use vstd::prelude::*;
use crate::anon_festival::{self, AnonState, AnonVoteStatus, decrypt_error, vote_decrypted, votes_map};
use crate::festival::{self, FestivalState, concluded};
use crate::movie::MovieState;
use crate::schedule::{ids_at, lemma_without_block_entries, without_block, TimeIndex};
use crate::social_space::{
    self, SocialState, create_space_error, follow_error, followed, followed_spaces,
    lemma_follow_adds_followed_space, social_invariant, space_created,
};
use crate::table::lemma_update_value;

verus! {

/// A space is opened once: after `who` opens a space, opening another one
/// for `who` is refused with `ProfileAlreadyCreated` (whatever its texts,
/// as long as they fit).
pub proof fn lemma_space_opened_once(
    st: SocialState,
    who: u64,
    name: Seq<u8>,
    description: Seq<u8>,
    name2: Seq<u8>,
    description2: Seq<u8>,
)
    requires
        create_space_error(st, who, name, description) is None,
        crate::dispatch::fits(name2, st.config.string_limit),
        crate::dispatch::fits(description2, st.config.string_limit),
    ensures
        create_space_error(space_created(st, who, name, description), who, name2, description2)
            == Some(social_space::Error::ProfileAlreadyCreated),
{
}

/// A space is followed once by the same account: after `who` follows
/// `target`, following it again is refused with `AlreadyFollowing`.
pub proof fn lemma_follow_once(st: SocialState, who: u64, target: u64)
    requires
        follow_error(st, who, target) is None,
    ensures
        follow_error(followed(st, who, target), who, target) == Some(social_space::Error::AlreadyFollowing),
{
    let post = followed(st, who, target);
    let list = st.space_followers[target].push(who);
    assert(post.space_followers[target] == list);
    assert(list[list.len() - 1] == who);
}

/// Following gives the target one more follower, counted and listed, and
/// the follower one more followed space, counted and found among the
/// spaces whose lists hold it.
pub proof fn lemma_follow_counts(st: SocialState, who: u64, target: u64)
    requires
        social_invariant(st),
        follow_error(st, who, target) is None,
    ensures
        followed(st, who, target).spaces[target].followers == st.spaces[target].followers + 1,
        followed(st, who, target).space_followers[target].len() == st.space_followers[target].len() + 1,
        followed(st, who, target).spaces[target].followers == followed(st, who, target).space_followers[target].len(),
        followed(st, who, target).spaces[who].following == st.spaces[who].following + 1,
        followed_spaces(followed(st, who, target).space_followers, who)
            == followed_spaces(st.space_followers, who).insert(target),
        followed(st, who, target).spaces[who].following
            == followed_spaces(followed(st, who, target).space_followers, who).len(),
{
    lemma_follow_adds_followed_space(st, who, target);
}

/// A vote is decrypted once: after its delegate decrypts it, decrypting it
/// again is refused with `AlreadyDecrypted`.
pub proof fn lemma_decrypt_once(st: AnonState, who: u64, f: u32, vote_id: u32, raw_vote: Seq<u8>)
    requires
        anon_festival::anon_invariant(st),
        decrypt_error(st, who, f, vote_id) is None,
    ensures
        decrypt_error(vote_decrypted(st, f, vote_id, raw_vote), who, f, vote_id)
            == Some(anon_festival::Error::AlreadyDecrypted),
{
    let s = st.anon_votes;
    let k = (f, vote_id);
    let v = votes_map(st)[k];
    let nv = anon_festival::AnonVoteView { raw_vote, vote_status: AnonVoteStatus::Decrypted, ..v };
    assert(crate::table::has_key(s, k));
    let i = choose|i: int| 0 <= i < s.len() && s[i].0 == k;
    lemma_update_value(s, i, nv);
    let post = vote_decrypted(st, f, vote_id, raw_vote);
    assert(post.anon_votes == s.update(i, (s[i].0, nv)));
    assert(votes_map(post) =~= votes_map(st).insert(k, nv));
}

/// No festival remains indexed for a block once that block is done with:
/// after the festivals ending at `now` are concluded, none is left to end
/// at `now`.
pub proof fn lemma_conclusion_clears_block(st: FestivalState, now: u64)
    ensures
        ids_at(concluded(st, now).festival_end_time, now).len() == 0,
{
    lemma_index_cleared(st.festival_end_time, now);
}

/// After the votes of the festivals expiring at `now` are counted, none is
/// left to count at `now`; after those closing at `now` close, none is left
/// to close at `now`.
pub proof fn lemma_count_clears_block(st: AnonState, now: u64)
    ensures
        ids_at(anon_festival::counted(st, now).festival_expiration, now).len() == 0,
        ids_at(anon_festival::closed(st, now).festival_end_time, now).len() == 0,
        ids_at(anon_festival::activated(st, now).festival_start_time, now).len() == 0,
{
    lemma_index_cleared(st.festival_expiration, now);
    lemma_index_cleared(st.festival_end_time, now);
    lemma_index_cleared(st.festival_start_time, now);
}

/// An index without block `b` holds no festival for `b`.
proof fn lemma_index_cleared(s: TimeIndex, b: u64)
    ensures
        ids_at(without_block(s, b), b).len() == 0,
{
    lemma_without_block_entries(s, b);
    let w = without_block(s, b);
    lemma_ids_at_empty(w, b);
}

/// An index whose entries are all for other blocks holds no festival for
/// `b`.
proof fn lemma_ids_at_empty(s: TimeIndex, b: u64)
    requires
        forall|k: int| 0 <= k < s.len() ==> (#[trigger] s[k]).0.0 != b,
    ensures
        ids_at(s, b).len() == 0,
    decreases s.len(),
{
    if s.len() > 0 {
        let p = s.drop_last();
        assert forall|k: int| 0 <= k < p.len() implies (#[trigger] p[k]).0.0 != b by {
            assert(p[k] == s[k]);
        }
        assert(s[s.len() - 1].0.0 != b);
        lemma_ids_at_empty(p, b);
    }
}

/// A movie is added to a festival once: after it is added, adding it again
/// is refused with `MovieAlreadyInFestival`.
pub proof fn lemma_movie_added_once(st: FestivalState, movies: MovieState, f: u32, movie: Seq<u8>)
    requires
        festival::add_movie_error(st, movies, f, movie) is None,
    ensures
        festival::add_movie_error(
            FestivalState { movies_in_festival: st.movies_in_festival.insert((f, movie)), ..st },
            movies,
            f,
            movie,
        ) == Some(festival::Error::MovieAlreadyInFestival),
{
}

/// A festival is stored as it was created: under the next festival id, it
/// belongs to its creator, carries that id, the name given as its name,
/// the description given as its description and the minimum entry given,
/// and is new; its owner's copy is the same festival.
pub proof fn lemma_festival_stored_as_created(
    st: FestivalState,
    who: u64,
    name: Seq<u8>,
    description: Seq<u8>,
    min_entry: u128,
    start_block: u64,
    end_block: u64,
)
    requires
        st.next_festival_id < u32::MAX,
    ensures
        ({
            let id = st.next_festival_id;
            let post = festival::festival_created(st, who, name, description, min_entry, start_block, end_block);
            let fest = post.festivals[id];
            &&& post.festivals.dom().contains(id)
            &&& fest.owner == who
            &&& fest.id == id
            &&& fest.name == name
            &&& fest.description == description
            &&& fest.min_entry == min_entry
            &&& fest.status == festival::FestivalStatus::New
            &&& post.owned_festivals[(who, id)] == fest
            &&& post.next_festival_id == id + 1
        }),
{
}

/// A post is stored as it was written: under the next post id, it belongs
/// to its author, carries that id, the content given as its content, the
/// image address given as its image and the video address given as its
/// video, the block given as its date, and no likes or dislikes.
pub proof fn lemma_post_stored_as_written(
    st: SocialState,
    who: u64,
    content: Seq<u8>,
    image_ipfs: Seq<u8>,
    video_ipfs: Seq<u8>,
    now: u64,
)
    ensures
        ({
            let id = st.next_post_id;
            let post = social_space::post_created(st, who, content, image_ipfs, video_ipfs, now).posts[id];
            &&& social_space::post_created(st, who, content, image_ipfs, video_ipfs, now).posts.dom().contains(id)
            &&& post.owner == who
            &&& post.id == id
            &&& post.content == content
            &&& post.image_ipfs == image_ipfs
            &&& post.video_ipfs == video_ipfs
            &&& post.date == now
            &&& post.likes == 0
            &&& post.dislikes == 0
        }),
{
}

/// A polling station is stored as it was opened: under the next station
/// id, it belongs to its creator, serves the festival given, and carries
/// the name given as its name and the description given as its
/// description.
pub proof fn lemma_station_stored_as_opened(st: AnonState, who: u64, f: u32, name: Seq<u8>, description: Seq<u8>)
    requires
        st.next_polling_station_id < u32::MAX,
    ensures
        ({
            let id = st.next_polling_station_id;
            let post = anon_festival::station_created(st, who, f, name, description);
            let station = post.polling_stations[id];
            &&& post.polling_stations.dom().contains(id)
            &&& station.owner == who
            &&& station.anon_fest_id == f
            &&& station.name == name
            &&& station.description == description
            &&& post.next_polling_station_id == id + 1
        }),
{
}

/// An anonymous festival is stored as it was created: under the next
/// festival id, it belongs to its creator, carries the name given as its
/// name, the description given as its description and the minimum entry
/// given, is recently created, and is the festival its creator owns.
pub proof fn lemma_anon_festival_stored_as_created(
    st: AnonState,
    who: u64,
    name: Seq<u8>,
    description: Seq<u8>,
    min_entry: u128,
    start_block: u64,
    end_block: u64,
)
    requires
        st.next_anon_festival_id < u32::MAX,
    ensures
        ({
            let id = st.next_anon_festival_id;
            let post = anon_festival::anon_festival_created(st, who, name, description, min_entry, start_block, end_block);
            let fest = post.anon_festivals[id];
            &&& post.anon_festivals.dom().contains(id)
            &&& fest.creator == who
            &&& fest.name == name
            &&& fest.description == description
            &&& fest.min_entry == min_entry
            &&& fest.status == anon_festival::AnonFestivalStatus::RecentlyCreated
            &&& post.owned_festivals[who] == id
            &&& post.next_anon_festival_id == id + 1
        }),
{
}

/// A vote is stored as it was cast: under its festival and the next vote
/// id, it belongs to the voter, carries the voter's key as its key, the
/// station and the delegate given, the encrypted vote given as its
/// encrypted content and, until decrypted, as its content, and the stake
/// given; it is encrypted. The festival's lockup grows by the stake.
pub proof fn lemma_vote_stored_as_cast(
    st: AnonState,
    who: u64,
    f: u32,
    station: u32,
    delegate: u64,
    pub_key: Seq<u8>,
    encrypted_vote: Seq<u8>,
    amount: u128,
)
    requires
        anon_festival::anon_invariant(st),
        st.next_anon_vote_id < u32::MAX,
        anon_festival::lockup_of(st, f) + amount <= u128::MAX,
    ensures
        ({
            let id = st.next_anon_vote_id;
            let post = anon_festival::vote_cast(st, who, f, station, delegate, pub_key, encrypted_vote, amount);
            let v = votes_map(post)[(f, id)];
            &&& votes_map(post).dom().contains((f, id))
            &&& v.owner == who
            &&& v.owner_pub_key == pub_key
            &&& v.anon_fest_id == f
            &&& v.pooling_station == station
            &&& v.delegated_encryptor == delegate
            &&& v.enc_vote == encrypted_vote
            &&& v.raw_vote == encrypted_vote
            &&& v.vote_status == AnonVoteStatus::Encrypted
            &&& v.amount == amount
            &&& anon_festival::lockup_of(post, f) == anon_festival::lockup_of(st, f) + amount
            &&& post.next_anon_vote_id == id + 1
        }),
{
    let s = st.anon_votes;
    let id = st.next_anon_vote_id;
    let post = anon_festival::vote_cast(st, who, f, station, delegate, pub_key, encrypted_vote, amount);
    let v = post.anon_votes.last().1;
    assert(!crate::table::has_key(s, (f, id))) by {
        if crate::table::has_key(s, (f, id)) {
            let j = choose|j: int| 0 <= j < s.len() && s[j].0 == (f, id);
            assert(s[j].0.1 < id);
        }
    }
    crate::table::lemma_push_fresh(s, (f, id), v);
    assert(post.anon_votes == s.push(((f, id), v)));
}

/// A movie is stored as it was registered: under the key given, it
/// belongs to its registrant and carries the name given as its name, the
/// description given as its description and the address given as its link.
pub proof fn lemma_movie_stored_as_registered(
    st: MovieState,
    key: Seq<u8>,
    who: u64,
    name: Seq<u8>,
    description: Seq<u8>,
    link: Seq<u8>,
)
    ensures
        ({
            let post = crate::movie::movie_created(st, key, who, name, description, link);
            let m = post.movies[key];
            &&& post.movies.dom().contains(key)
            &&& m.owner == who
            &&& m.name == name
            &&& m.description == description
            &&& m.link == link
            &&& post.config == st.config
        }),
{
}

/// A category is stored as it was created: under the next category id,
/// with the name given as its name and the description given as its
/// description.
pub proof fn lemma_category_stored_as_created(st: FestivalState, name: Seq<u8>, description: Seq<u8>)
    ensures
        ({
            let post = festival::category_created(st, name, description);
            &&& post.categories.dom().contains(st.next_category_id)
            &&& post.categories[st.next_category_id].name == name
            &&& post.categories[st.next_category_id].description == description
        }),
{
}

/// A space is stored as it was opened: under its owner, with the name
/// given as its name and the description given as its description, and
/// nobody followed or following.
pub proof fn lemma_space_stored_as_opened(st: SocialState, who: u64, name: Seq<u8>, description: Seq<u8>)
    ensures
        ({
            let post = space_created(st, who, name, description);
            let space = post.spaces[who];
            &&& post.spaces.dom().contains(who)
            &&& space.owner == who
            &&& space.name == name
            &&& space.description == description
            &&& space.following == 0
            &&& space.followers == 0
        }),
{
}

/// A comment is stored as it was written: under its post and the next
/// comment id, it belongs to its author, carries that id, the content
/// given, the post and the comment it answers (zero for none), and the
/// block given as its date.
pub proof fn lemma_comment_stored_as_written(
    st: SocialState,
    who: u64,
    post_id: u32,
    parent_comment_id: u32,
    content: Seq<u8>,
    now: u64,
)
    ensures
        ({
            let id = social_space::comment_id(st);
            let post = social_space::commented(st, who, post_id, parent_comment_id, content, now);
            let c = post.comments[(post_id, id)];
            &&& post.comments.dom().contains((post_id, id))
            &&& c.owner == who
            &&& c.id == id
            &&& c.content == content
            &&& c.post_id == post_id
            &&& c.parent_comment_id == parent_comment_id
            &&& c.date == now
        }),
{
}

/// Decrypting a vote records the content given as the vote's content and
/// marks it decrypted, keeps its encrypted content, key, owner and stake,
/// and adds its stake under that content to the decrypted votes.
pub proof fn lemma_decryption_records_content(st: AnonState, who: u64, f: u32, vote_id: u32, raw_vote: Seq<u8>)
    requires
        anon_festival::anon_invariant(st),
        decrypt_error(st, who, f, vote_id) is None,
    ensures
        ({
            let v = votes_map(st)[(f, vote_id)];
            let post = vote_decrypted(st, f, vote_id, raw_vote);
            let nv = votes_map(post)[(f, vote_id)];
            &&& votes_map(post).dom().contains((f, vote_id))
            &&& nv.raw_vote == raw_vote
            &&& nv.vote_status == AnonVoteStatus::Decrypted
            &&& nv.enc_vote == v.enc_vote
            &&& nv.owner_pub_key == v.owner_pub_key
            &&& nv.owner == v.owner
            &&& nv.amount == v.amount
            &&& post.decrypted_votes.last() == ((f, vote_id, raw_vote), v.amount)
        }),
{
    let s = st.anon_votes;
    let k = (f, vote_id);
    let v = votes_map(st)[k];
    let nv = anon_festival::AnonVoteView { raw_vote, vote_status: AnonVoteStatus::Decrypted, ..v };
    assert(crate::table::has_key(s, k));
    let i = choose|i: int| 0 <= i < s.len() && s[i].0 == k;
    lemma_update_value(s, i, nv);
    let post = vote_decrypted(st, f, vote_id, raw_vote);
    assert(post.anon_votes == s.update(i, (s[i].0, nv)));
    assert(votes_map(post) =~= votes_map(st).insert(k, nv));
}

} // verus!
