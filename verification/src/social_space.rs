//! The social-space pallet: each account may open one space, post in it,
//! follow other spaces, and comment on posts and on comments.

use vstd::prelude::*;
use crate::dispatch::{DispatchError, Origin, ensure_signed, fits, fits_limit, next_id};
use crate::table::{Duplicate, Table, contains_account, copy_accounts, copy_bytes};

verus! {

/// The space of an account.
#[derive(Debug)]
pub struct Space {
    pub owner: u64,
    pub name: Vec<u8>,
    pub description: Vec<u8>,
    pub following: u32,
    pub followers: u32,
}

/// A space as a mathematical value.
pub struct SpaceView {
    pub owner: u64,
    pub name: Seq<u8>,
    pub description: Seq<u8>,
    pub following: u32,
    pub followers: u32,
}

impl View for Space {
    type V = SpaceView;

    open spec fn view(&self) -> SpaceView {
        SpaceView {
            owner: self.owner,
            name: self.name@,
            description: self.description@,
            following: self.following,
            followers: self.followers,
        }
    }
}

impl Duplicate for Space {
    fn duplicate(&self) -> (r: Self) {
        Space {
            owner: self.owner,
            name: copy_bytes(&self.name),
            description: copy_bytes(&self.description),
            following: self.following,
            followers: self.followers,
        }
    }
}

/// A post.
#[derive(Debug)]
pub struct Post {
    pub owner: u64,
    pub id: u32,
    pub content: Vec<u8>,
    pub image_ipfs: Vec<u8>,
    pub video_ipfs: Vec<u8>,
    pub likes: u32,
    pub dislikes: u32,
    pub date: u64,
}

/// A post as a mathematical value.
pub struct PostView {
    pub owner: u64,
    pub id: u32,
    pub content: Seq<u8>,
    pub image_ipfs: Seq<u8>,
    pub video_ipfs: Seq<u8>,
    pub likes: u32,
    pub dislikes: u32,
    pub date: u64,
}

impl View for Post {
    type V = PostView;

    open spec fn view(&self) -> PostView {
        PostView {
            owner: self.owner,
            id: self.id,
            content: self.content@,
            image_ipfs: self.image_ipfs@,
            video_ipfs: self.video_ipfs@,
            likes: self.likes,
            dislikes: self.dislikes,
            date: self.date,
        }
    }
}

impl Duplicate for Post {
    fn duplicate(&self) -> (r: Self) {
        Post {
            owner: self.owner,
            id: self.id,
            content: copy_bytes(&self.content),
            image_ipfs: copy_bytes(&self.image_ipfs),
            video_ipfs: copy_bytes(&self.video_ipfs),
            likes: self.likes,
            dislikes: self.dislikes,
            date: self.date,
        }
    }
}

/// A comment on a post, or on another comment of the post.
#[derive(Debug)]
pub struct Comment {
    pub owner: u64,
    pub id: u32,
    pub content: Vec<u8>,
    pub post_id: u32,
    pub parent_comment_id: u32,
    pub likes: u32,
    pub dislikes: u32,
    pub date: u64,
}

/// A comment as a mathematical value.
pub struct CommentView {
    pub owner: u64,
    pub id: u32,
    pub content: Seq<u8>,
    pub post_id: u32,
    pub parent_comment_id: u32,
    pub likes: u32,
    pub dislikes: u32,
    pub date: u64,
}

impl View for Comment {
    type V = CommentView;

    open spec fn view(&self) -> CommentView {
        CommentView {
            owner: self.owner,
            id: self.id,
            content: self.content@,
            post_id: self.post_id,
            parent_comment_id: self.parent_comment_id,
            likes: self.likes,
            dislikes: self.dislikes,
            date: self.date,
        }
    }
}

impl Duplicate for Comment {
    fn duplicate(&self) -> (r: Self) {
        Comment {
            owner: self.owner,
            id: self.id,
            content: copy_bytes(&self.content),
            post_id: self.post_id,
            parent_comment_id: self.parent_comment_id,
            likes: self.likes,
            dislikes: self.dislikes,
            date: self.date,
        }
    }
}

/// Errors of the social-space pallet.
#[derive(Clone, Copy, Debug, PartialEq, Eq)]
pub enum Error {
    NoneValue,
    StorageOverflow,
    ProfileAlreadyCreated,
    BadMetadata,
    Overflow,
    SpaceNotFound,
    AlreadyFollowing,
    PostNotFound,
    InexistentProfile,
}

/// What the social-space pallet reports to the outside world.
#[derive(Clone, Copy, Debug, PartialEq, Eq, Structural)]
pub enum Event {
    /// Declared for the runtime; no call deposits it.
    SomethingStored(u32, u64),
    /// This account opened its space.
    SpaceCreated(u64),
    /// The first account follows the space of the second.
    SpaceFollowed(u64, u64),
    /// This account wrote the post with this id.
    PostCreated(u64, u32),
    /// This account commented on the post with this id.
    PostCommented(u64, u32),
    /// This account answered the first comment with the second.
    CommmentReplied(u64, u32, u32),
}

/// The constants the runtime gives the pallet.
#[derive(Clone, Copy, Debug)]
pub struct Config {
    /// The longest byte string the pallet stores.
    pub string_limit: u32,
}

/// The storage of the social-space pallet.
pub struct Pallet {
    config: Config,
    spaces: Table<u64, Space>,
    next_post_id: u32,
    next_comment_id: u32,
    posts: Table<u32, Post>,
    comments: Table<(u32, u32), Comment>,
    space_followers: Table<u64, Vec<u64>>,
    space_following: Table<u64, Vec<u64>>,
    events: Vec<Event>,
}

/// The storage of the social-space pallet as a mathematical value.
#[verifier::ext_equal]
pub struct SocialState {
    pub config: Config,
    /// The spaces, by owner.
    pub spaces: Map<u64, SpaceView>,
    /// The id the next post gets.
    pub next_post_id: u32,
    /// The counter the next comment id is taken from.
    pub next_comment_id: u32,
    /// The posts, by id.
    pub posts: Map<u32, PostView>,
    /// The comments, by post and comment id.
    pub comments: Map<(u32, u32), CommentView>,
    /// The followers of each space, in the order they followed it.
    pub space_followers: Map<u64, Seq<u64>>,
    /// Never written by any call.
    pub space_following: Map<u64, Seq<u64>>,
}

/// The spaces that `a` follows: those whose list of followers holds `a`.
pub open spec fn followed_spaces(space_followers: Map<u64, Seq<u64>>, a: u64) -> Set<u64> {
    space_followers.dom().filter(|b: u64| space_followers[b].contains(a))
}

/// Following changes only what the follower follows: `target` joins the
/// spaces that `who` follows, where it was not before, and the spaces any
/// other account follows stay as they were.
pub proof fn lemma_follow_adds_followed_space(st: SocialState, who: u64, target: u64)
    requires
        social_invariant(st),
        follow_error(st, who, target) is None,
    ensures
        !followed_spaces(st.space_followers, who).contains(target),
        followed_spaces(followed(st, who, target).space_followers, who)
            == followed_spaces(st.space_followers, who).insert(target),
        followed_spaces(followed(st, who, target).space_followers, who).len()
            == followed_spaces(st.space_followers, who).len() + 1,
        forall|a: u64| a != who ==> #[trigger] followed_spaces(followed(st, who, target).space_followers, a)
            == followed_spaces(st.space_followers, a),
{
    let f0 = st.space_followers;
    let f1 = followed(st, who, target).space_followers;
    assert forall|a: u64| a != who implies #[trigger] followed_spaces(f1, a) =~= followed_spaces(f0, a) by {
        assert forall|b: u64| f1.dom().contains(b) && f1[b].contains(a) <==> f0.dom().contains(b) && f0[b].contains(a) by {
            if b == target && f1[b].contains(a) {
                let i = choose|i: int| 0 <= i < f1[b].len() && f1[b][i] == a;
                assert(f0[b][i] == a);
            }
            if b == target && f0[b].contains(a) {
                let i = choose|i: int| 0 <= i < f0[b].len() && f0[b][i] == a;
                assert(f1[b][i] == a);
            }
        }
    }
    assert(followed_spaces(f1, who) =~= followed_spaces(f0, who).insert(target)) by {
        assert(f1[target][f1[target].len() - 1] == who);
        assert forall|b: u64| b != target && f0.dom().contains(b) implies f1[b] == f0[b] by {}
    }
    assert(followed_spaces(f0, who).finite());
}

/// What holds of the storage after every call: a space exists exactly when
/// its list of followers does; its follower count is the length of that
/// list, and its following count the number of spaces whose list holds its
/// owner; nobody follows a space twice; every follower has a space; every
/// post and comment is stored under its own id, below the counter.
pub open spec fn social_invariant(st: SocialState) -> bool {
    &&& st.spaces.dom() =~= st.space_followers.dom()
    &&& st.space_followers.dom().finite()
    &&& forall|a: u64| #[trigger]
        st.spaces.dom().contains(a) ==> st.spaces[a].followers == st.space_followers[a].len()
            && st.spaces[a].following == followed_spaces(st.space_followers, a).len()
    &&& forall|a: u64, i: int, j: int|
        st.space_followers.dom().contains(a) && 0 <= i < j < st.space_followers[a].len()
            ==> #[trigger] st.space_followers[a][i] != #[trigger] st.space_followers[a][j]
    &&& forall|a: u64, i: int|
        st.space_followers.dom().contains(a) && 0 <= i < st.space_followers[a].len()
            ==> st.spaces.dom().contains(#[trigger] st.space_followers[a][i])
    &&& forall|p: u32| #[trigger]
        st.posts.dom().contains(p) ==> p < st.next_post_id && st.posts[p].id == p
    &&& forall|k: (u32, u32)| #[trigger]
        st.comments.dom().contains(k) ==> 1 <= k.1 < st.next_comment_id && st.comments[k].id == k.1
            && st.comments[k].post_id == k.0
}

/// Why creating a space fails, if it does.
pub open spec fn create_space_error(st: SocialState, who: u64, name: Seq<u8>, description: Seq<u8>) -> Option<Error> {
    if !fits(name, st.config.string_limit) || !fits(description, st.config.string_limit) {
        Some(Error::BadMetadata)
    } else if st.spaces.dom().contains(who) {
        Some(Error::ProfileAlreadyCreated)
    } else {
        None
    }
}

/// The storage after `who` opens a space.
pub open spec fn space_created(st: SocialState, who: u64, name: Seq<u8>, description: Seq<u8>) -> SocialState {
    SocialState {
        spaces: st.spaces.insert(
            who,
            SpaceView { owner: who, name, description, following: 0, followers: 0 },
        ),
        space_followers: st.space_followers.insert(
            who,
            if st.space_followers.dom().contains(who) {
                st.space_followers[who]
            } else {
                Seq::empty()
            },
        ),
        ..st
    }
}

/// Why creating a post fails, if it does.
pub open spec fn create_post_error(
    st: SocialState,
    who: u64,
    content: Seq<u8>,
    image_ipfs: Seq<u8>,
    video_ipfs: Seq<u8>,
) -> Option<Error> {
    if !st.spaces.dom().contains(who) {
        Some(Error::InexistentProfile)
    } else if st.next_post_id == u32::MAX {
        Some(Error::Overflow)
    } else if !fits(content, st.config.string_limit) || !fits(image_ipfs, st.config.string_limit)
        || !fits(video_ipfs, st.config.string_limit) {
        Some(Error::BadMetadata)
    } else {
        None
    }
}

/// The storage after `who` posts at block `now`.
pub open spec fn post_created(
    st: SocialState,
    who: u64,
    content: Seq<u8>,
    image_ipfs: Seq<u8>,
    video_ipfs: Seq<u8>,
    now: u64,
) -> SocialState {
    SocialState {
        posts: st.posts.insert(
            st.next_post_id,
            PostView {
                owner: who,
                id: st.next_post_id,
                content,
                image_ipfs,
                video_ipfs,
                likes: 0,
                dislikes: 0,
                date: now,
            },
        ),
        next_post_id: (st.next_post_id + 1) as u32,
        ..st
    }
}

/// The storage after posting fails with `e`: the post id is taken from the
/// counter before the texts are checked, so a text too long leaves it used
/// up.
pub open spec fn post_create_failed(st: SocialState, e: Error) -> SocialState {
    if e is BadMetadata {
        SocialState { next_post_id: (st.next_post_id + 1) as u32, ..st }
    } else {
        st
    }
}

/// Why `who` cannot follow `target`, if so.
pub open spec fn follow_error(st: SocialState, who: u64, target: u64) -> Option<Error> {
    if !st.space_followers.dom().contains(target) {
        Some(Error::SpaceNotFound)
    } else if st.space_followers[target].contains(who) {
        Some(Error::AlreadyFollowing)
    } else if !st.spaces.dom().contains(target) || !st.spaces.dom().contains(who) {
        Some(Error::SpaceNotFound)
    } else if st.spaces[who].following == u32::MAX || st.spaces[target].followers == u32::MAX {
        Some(Error::Overflow)
    } else {
        None
    }
}

/// The storage after `who` follows `target`: `who` follows one more space,
/// `target` has one more follower, and `who` ends its list of followers.
pub open spec fn followed(st: SocialState, who: u64, target: u64) -> SocialState {
    let w = st.spaces[who];
    let s1 = st.spaces.insert(who, SpaceView { following: (w.following + 1) as u32, ..w });
    let t = s1[target];
    SocialState {
        spaces: s1.insert(target, SpaceView { followers: (t.followers + 1) as u32, ..t }),
        space_followers: st.space_followers.insert(target, st.space_followers[target].push(who)),
        ..st
    }
}

/// The id the next comment gets: the counter, where zero stands for one.
pub open spec fn comment_id(st: SocialState) -> u32 {
    if st.next_comment_id == 0 {
        1
    } else {
        st.next_comment_id
    }
}

/// The storage with the next comment id used up.
pub open spec fn comment_id_taken(st: SocialState) -> SocialState {
    SocialState { next_comment_id: (comment_id(st) + 1) as u32, ..st }
}

/// The storage after commenting on a post fails with `e`: the comment id is
/// taken first, so every failure but its overflow leaves it used up.
pub open spec fn comment_on_post_failed(st: SocialState, e: Error) -> SocialState {
    if e is Overflow {
        st
    } else {
        comment_id_taken(st)
    }
}

/// The storage after answering a comment fails with `e`: the comment id is
/// taken once the post and the comment are found, so a text too long
/// leaves it used up.
pub open spec fn comment_on_comment_failed(st: SocialState, e: Error) -> SocialState {
    if e is BadMetadata {
        comment_id_taken(st)
    } else {
        st
    }
}

/// Why commenting on a post fails, if it does.
pub open spec fn comment_on_post_error(st: SocialState, post_id: u32, content: Seq<u8>) -> Option<Error> {
    if comment_id(st) == u32::MAX {
        Some(Error::Overflow)
    } else if !fits(content, st.config.string_limit) {
        Some(Error::BadMetadata)
    } else if st.comments.dom().contains((post_id, comment_id(st))) {
        Some(Error::NoneValue)
    } else if !st.posts.dom().contains(post_id) {
        Some(Error::PostNotFound)
    } else {
        None
    }
}

/// Why answering a comment fails, if it does.
pub open spec fn comment_on_comment_error(
    st: SocialState,
    post_id: u32,
    parent_comment_id: u32,
    content: Seq<u8>,
) -> Option<Error> {
    if !st.posts.dom().contains(post_id) || !st.comments.dom().contains((post_id, parent_comment_id)) {
        Some(Error::PostNotFound)
    } else if comment_id(st) == u32::MAX {
        Some(Error::Overflow)
    } else if !fits(content, st.config.string_limit) {
        Some(Error::BadMetadata)
    } else {
        None
    }
}

/// The storage after `who` comments at block `now` on post `post_id`, as
/// an answer to comment `parent_comment_id` (zero for none).
pub open spec fn commented(
    st: SocialState,
    who: u64,
    post_id: u32,
    parent_comment_id: u32,
    content: Seq<u8>,
    now: u64,
) -> SocialState {
    let id = comment_id(st);
    SocialState {
        comments: st.comments.insert(
            (post_id, id),
            CommentView {
                owner: who,
                id,
                content,
                post_id,
                parent_comment_id,
                likes: 0,
                dislikes: 0,
                date: now,
            },
        ),
        next_comment_id: (id + 1) as u32,
        ..st
    }
}

impl View for Pallet {
    type V = SocialState;

    closed spec fn view(&self) -> SocialState {
        SocialState {
            config: self.config,
            spaces: self.spaces@,
            next_post_id: self.next_post_id,
            next_comment_id: self.next_comment_id,
            posts: self.posts@,
            comments: self.comments@,
            space_followers: self.space_followers@,
            space_following: self.space_following@,
        }
    }
}

impl Pallet {
    /// The events deposited so far, oldest first.
    pub closed spec fn event_log(&self) -> Seq<Event> {
        self.events@
    }

    /// The invariant of the storage: tables without repeated keys, and
    /// [`social_invariant`].
    pub closed spec fn wf(&self) -> bool {
        &&& self.spaces.wf()
        &&& self.posts.wf()
        &&& self.comments.wf()
        &&& self.space_followers.wf()
        &&& self.space_following.wf()
        &&& social_invariant(self@)
    }

    /// The well-formed storage satisfies the invariant.
    pub proof fn lemma_wf_invariant(&self)
        requires
            self.wf(),
        ensures
            social_invariant(self@),
    {
    }

    /// Empty storage.
    pub fn new(config: Config) -> (p: Self)
        ensures
            p.wf(),
            p@.config == config,
            p@.spaces == Map::<u64, SpaceView>::empty(),
            p@.posts == Map::<u32, PostView>::empty(),
            p@.comments == Map::<(u32, u32), CommentView>::empty(),
            p@.space_followers == Map::<u64, Seq<u64>>::empty(),
            p@.space_following == Map::<u64, Seq<u64>>::empty(),
            p@.next_post_id == 0,
            p@.next_comment_id == 0,
            p.event_log() == Seq::<Event>::empty(),
    {
        Pallet {
            config,
            spaces: Table::new(),
            next_post_id: 0,
            next_comment_id: 0,
            posts: Table::new(),
            comments: Table::new(),
            space_followers: Table::new(),
            space_following: Table::new(),
            events: Vec::new(),
        }
    }

    /// Hands out the events deposited so far and forgets them.
    pub fn take_events(&mut self) -> (r: Vec<Event>)
        ensures
            r@ == old(self).event_log(),
            final(self).event_log() == Seq::<Event>::empty(),
            final(self)@ == old(self)@,
            final(self).wf() == old(self).wf(),
    {
        let mut taken: Vec<Event> = Vec::new();
        std::mem::swap(&mut taken, &mut self.events);
        taken
    }

    /// Opens the space of `who`, with no followers and following nobody.
    pub fn do_create_space(&mut self, who: u64, name: Vec<u8>, description: Vec<u8>) -> (r: Result<(), Error>)
        requires
            old(self).wf(),
        ensures
            final(self).wf(),
            match create_space_error(old(self)@, who, name@, description@) {
                Some(e) => r == Err::<(), Error>(e) && final(self)@ == old(self)@
                    && final(self).event_log() == old(self).event_log(),
                None => r == Ok::<(), Error>(()) && final(self)@ == space_created(old(self)@, who, name@, description@)
                    && final(self).event_log() == old(self).event_log().push(Event::SpaceCreated(who)),
            },
    {
        let ghost pre = self@;
        let limit = self.config.string_limit;
        if !fits_limit(&name, limit) || !fits_limit(&description, limit) {
            return Err(Error::BadMetadata);
        }
        if self.spaces.contains_key(&who) {
            return Err(Error::ProfileAlreadyCreated);
        }
        let followers: Vec<u64> = match self.space_followers.get(&who) {
            Some(f) => copy_accounts(f),
            None => Vec::new(),
        };
        let space = Space { owner: who, name, description, following: 0, followers: 0 };
        self.space_followers.insert(who, followers);
        self.spaces.insert(who, space);
        self.events.push(Event::SpaceCreated(who));
        proof {
            assert(self@ =~= space_created(pre, who, name@, description@));
            assert(!pre.space_followers.dom().contains(who));
            let f0 = pre.space_followers;
            let f1 = self@.space_followers;
            assert forall|a: u64| a != who implies #[trigger] followed_spaces(f1, a) =~= followed_spaces(f0, a) by {}
            assert(followed_spaces(f1, who) =~= Set::<u64>::empty()) by {
                assert forall|b: u64| !followed_spaces(f1, who).contains(b) by {
                    if b != who && f0.dom().contains(b) && f0[b].contains(who) {
                        let i = choose|i: int| 0 <= i < f0[b].len() && f0[b][i] == who;
                        assert(pre.spaces.dom().contains(f0[b][i]));
                    }
                }
            }
            let st = self@;
            assert forall|a: u64| #[trigger] st.spaces.dom().contains(a) implies st.spaces[a].following
                == followed_spaces(st.space_followers, a).len() by {
                if a != who {
                    assert(followed_spaces(f1, a) == followed_spaces(f0, a));
                }
            }
        }
        Ok(())
    }

    /// The call that opens a space for the account that signed it.
    pub fn create_space(&mut self, origin: Origin, name: Vec<u8>, description: Vec<u8>) -> (r: Result<(), DispatchError<Error>>)
        requires
            old(self).wf(),
        ensures
            final(self).wf(),
            match origin {
                Origin::Signed(who) => match create_space_error(old(self)@, who, name@, description@) {
                    Some(e) => r == Err::<(), DispatchError<Error>>(DispatchError::Module(e)) && final(self)@ == old(self)@
                    && final(self).event_log() == old(self).event_log(),
                    None => r == Ok::<(), DispatchError<Error>>(()) && final(self)@ == space_created(old(self)@, who, name@, description@)
                    && final(self).event_log() == old(self).event_log().push(Event::SpaceCreated(who)),
                },
                _ => r == Err::<(), DispatchError<Error>>(DispatchError::BadOrigin) && final(self)@ == old(self)@
                    && final(self).event_log() == old(self).event_log(),
            },
    {
        let who = ensure_signed(origin)?;
        match self.do_create_space(who, name, description) {
            Ok(()) => Ok(()),
            Err(e) => Err(DispatchError::Module(e)),
        }
    }

    /// Posts in the space of `who`, dated block `now`.
    pub fn do_create_post(
        &mut self,
        who: u64,
        content: Vec<u8>,
        image_ipfs: Vec<u8>,
        movie_ipfs: Vec<u8>,
        now: u64,
    ) -> (r: Result<(), Error>)
        requires
            old(self).wf(),
        ensures
            final(self).wf(),
            r is Ok ==> ({
                let post = final(self)@.posts[old(self)@.next_post_id];
                &&& final(self)@.posts.dom().contains(old(self)@.next_post_id)
                &&& post.owner == who && post.content == content@ && post.image_ipfs == image_ipfs@
                &&& post.video_ipfs == movie_ipfs@ && post.date == now
            }),
            match create_post_error(old(self)@, who, content@, image_ipfs@, movie_ipfs@) {
                Some(e) => r == Err::<(), Error>(e) && final(self)@ == post_create_failed(old(self)@, e)
                    && final(self).event_log() == old(self).event_log(),
                None => r == Ok::<(), Error>(()) && final(self)@ == post_created(old(self)@, who, content@, image_ipfs@, movie_ipfs@, now)
                    && final(self).event_log() == old(self).event_log().push(Event::PostCreated(who, old(self)@.next_post_id)),
            },
    {
        let ghost pre = self@;
        if !self.spaces.contains_key(&who) {
            return Err(Error::InexistentProfile);
        }
        let post_id = self.next_post_id;
        let next = match next_id(post_id) {
            Some(n) => n,
            None => return Err(Error::Overflow),
        };
        self.next_post_id = next;
        assert(self@ =~= post_create_failed(pre, Error::BadMetadata));
        let limit = self.config.string_limit;
        if !fits_limit(&content, limit) || !fits_limit(&image_ipfs, limit) || !fits_limit(&movie_ipfs, limit) {
            return Err(Error::BadMetadata);
        }
        let post = Post {
            owner: who,
            id: post_id,
            content,
            image_ipfs,
            video_ipfs: movie_ipfs,
            likes: 0,
            dislikes: 0,
            date: now,
        };
        self.posts.insert(post_id, post);
        self.events.push(Event::PostCreated(who, post_id));
        proof {
            assert(self@ =~= post_created(pre, who, content@, image_ipfs@, movie_ipfs@, now));
        }
        Ok(())
    }

    /// The call that posts in the space of the account that signed it.
    pub fn create_post(
        &mut self,
        origin: Origin,
        content: Vec<u8>,
        image_ipfs: Vec<u8>,
        video_ipfs: Vec<u8>,
        now: u64,
    ) -> (r: Result<(), DispatchError<Error>>)
        requires
            old(self).wf(),
        ensures
            final(self).wf(),
            r is Ok ==> ({
                let post = final(self)@.posts[old(self)@.next_post_id];
                &&& final(self)@.posts.dom().contains(old(self)@.next_post_id)
                &&& origin == Origin::Signed(post.owner) && post.content == content@ && post.image_ipfs == image_ipfs@
                &&& post.video_ipfs == video_ipfs@ && post.date == now
            }),
            match origin {
                Origin::Signed(who) => match create_post_error(old(self)@, who, content@, image_ipfs@, video_ipfs@) {
                    Some(e) => r == Err::<(), DispatchError<Error>>(DispatchError::Module(e)) && final(self)@ == post_create_failed(old(self)@, e)
                    && final(self).event_log() == old(self).event_log(),
                    None => r == Ok::<(), DispatchError<Error>>(()) && final(self)@ == post_created(old(self)@, who, content@, image_ipfs@, video_ipfs@, now)
                    && final(self).event_log() == old(self).event_log().push(Event::PostCreated(who, old(self)@.next_post_id)),
                },
                _ => r == Err::<(), DispatchError<Error>>(DispatchError::BadOrigin) && final(self)@ == old(self)@
                    && final(self).event_log() == old(self).event_log(),
            },
    {
        let who = ensure_signed(origin)?;
        match self.do_create_post(who, content, image_ipfs, video_ipfs, now) {
            Ok(()) => Ok(()),
            Err(e) => Err(DispatchError::Module(e)),
        }
    }

    /// `who` follows the space of `target`.
    pub fn do_follow_space(&mut self, who: u64, target: u64) -> (r: Result<(), Error>)
        requires
            old(self).wf(),
        ensures
            final(self).wf(),
            match follow_error(old(self)@, who, target) {
                Some(e) => r == Err::<(), Error>(e) && final(self)@ == old(self)@
                    && final(self).event_log() == old(self).event_log(),
                None => r == Ok::<(), Error>(()) && final(self)@ == followed(old(self)@, who, target)
                    && final(self).event_log() == old(self).event_log().push(Event::SpaceFollowed(who, target)),
            },
    {
        let ghost pre = self@;
        let mut followers: Vec<u64> = match self.space_followers.get(&target) {
            Some(f) => copy_accounts(f),
            None => return Err(Error::SpaceNotFound),
        };
        if contains_account(&followers, who) {
            return Err(Error::AlreadyFollowing);
        }
        if !self.spaces.contains_key(&target) {
            return Err(Error::SpaceNotFound);
        }
        let who_space = match self.spaces.get(&who) {
            Some(s) => s.duplicate(),
            None => return Err(Error::SpaceNotFound),
        };
        let following = match next_id(who_space.following) {
            Some(n) => n,
            None => return Err(Error::Overflow),
        };
        let target_followers = match self.spaces.get(&target) {
            Some(s) => s.followers,
            None => return Err(Error::SpaceNotFound),
        };
        if target_followers == u32::MAX {
            return Err(Error::Overflow);
        }
        let updated_who = Space { following, ..who_space };
        self.spaces.insert(who, updated_who);
        let target_space = match self.spaces.get(&target) {
            Some(s) => s.duplicate(),
            None => return Err(Error::SpaceNotFound),
        };
        let count = target_space.followers + 1;
        let updated_target = Space { followers: count, ..target_space };
        self.spaces.insert(target, updated_target);
        followers.push(who);
        self.space_followers.insert(target, followers);
        self.events.push(Event::SpaceFollowed(who, target));
        proof {
            let post = followed(pre, who, target);
            assert(self@ =~= post);
            let st = self@;
            let f0 = pre.space_followers;
            let f1 = st.space_followers;
            lemma_follow_adds_followed_space(pre, who, target);
            assert forall|a: u64| #[trigger] st.spaces.dom().contains(a) implies st.spaces[a].following
                == followed_spaces(f1, a).len() by {
                if a != who {
                    assert(followed_spaces(f1, a) == followed_spaces(f0, a));
                    assert(pre.spaces.dom().contains(a));
                }
            }
            assert forall|a: u64| #[trigger]
                st.spaces.dom().contains(a) implies st.spaces[a].followers == st.space_followers[a].len() by {
                if a != target {
                    assert(pre.spaces.dom().contains(a));
                }
            }
            assert forall|a: u64, i: int, j: int|
                st.space_followers.dom().contains(a) && 0 <= i < j < st.space_followers[a].len()
                    implies #[trigger] st.space_followers[a][i] != #[trigger] st.space_followers[a][j] by {
                if a == target && j == pre.space_followers[target].len() {
                    assert(st.space_followers[a][i] == pre.space_followers[target][i]);
                    assert(pre.space_followers[target].contains(pre.space_followers[target][i]));
                } else if a == target {
                    assert(st.space_followers[a][i] == pre.space_followers[target][i]);
                    assert(st.space_followers[a][j] == pre.space_followers[target][j]);
                }
            }
            assert forall|a: u64, i: int|
                st.space_followers.dom().contains(a) && 0 <= i < st.space_followers[a].len()
                    implies st.spaces.dom().contains(#[trigger] st.space_followers[a][i]) by {
                if a == target && i < pre.space_followers[target].len() {
                    assert(st.space_followers[a][i] == pre.space_followers[target][i]);
                }
            }
        }
        Ok(())
    }

    /// The call by which the account that signed it follows `target`.
    pub fn follow_space(&mut self, origin: Origin, target: u64) -> (r: Result<(), DispatchError<Error>>)
        requires
            old(self).wf(),
        ensures
            final(self).wf(),
            match origin {
                Origin::Signed(who) => match follow_error(old(self)@, who, target) {
                    Some(e) => r == Err::<(), DispatchError<Error>>(DispatchError::Module(e)) && final(self)@ == old(self)@
                    && final(self).event_log() == old(self).event_log(),
                    None => r == Ok::<(), DispatchError<Error>>(()) && final(self)@ == followed(old(self)@, who, target)
                    && final(self).event_log() == old(self).event_log().push(Event::SpaceFollowed(who, target)),
                },
                _ => r == Err::<(), DispatchError<Error>>(DispatchError::BadOrigin) && final(self)@ == old(self)@
                    && final(self).event_log() == old(self).event_log(),
            },
    {
        let who = ensure_signed(origin)?;
        match self.do_follow_space(who, target) {
            Ok(()) => Ok(()),
            Err(e) => Err(DispatchError::Module(e)),
        }
    }

    /// The id of the next comment and the counter after it.
    fn take_comment_id(&self) -> (r: Option<(u32, u32)>)
        ensures
            match r {
                Some((id, next)) => id == comment_id(self@) && id < u32::MAX && next == id + 1,
                None => comment_id(self@) == u32::MAX,
            },
    {
        let id = if self.next_comment_id == 0 {
            1
        } else {
            self.next_comment_id
        };
        match next_id(id) {
            Some(n) => Some((id, n)),
            None => None,
        }
    }

    /// `who` comments on post `post_id` at block `now`.
    pub fn do_comment_on_post(&mut self, who: u64, post_id: u32, content: Vec<u8>, now: u64) -> (r: Result<(), Error>)
        requires
            old(self).wf(),
        ensures
            final(self).wf(),
            match comment_on_post_error(old(self)@, post_id, content@) {
                Some(e) => r == Err::<(), Error>(e) && final(self)@ == comment_on_post_failed(old(self)@, e)
                    && final(self).event_log() == old(self).event_log(),
                None => r == Ok::<(), Error>(()) && final(self)@ == commented(old(self)@, who, post_id, 0, content@, now)
                    && final(self).event_log() == old(self).event_log().push(Event::PostCommented(who, post_id)),
            },
    {
        let ghost pre = self@;
        let (id, next) = match self.take_comment_id() {
            Some(p) => p,
            None => return Err(Error::Overflow),
        };
        self.next_comment_id = next;
        assert(self@ =~= comment_id_taken(pre));
        if !fits_limit(&content, self.config.string_limit) {
            return Err(Error::BadMetadata);
        }
        if self.comments.contains_key(&(post_id, id)) {
            return Err(Error::NoneValue);
        }
        if !self.posts.contains_key(&post_id) {
            return Err(Error::PostNotFound);
        }
        let comment = Comment {
            owner: who,
            id,
            content,
            post_id,
            parent_comment_id: 0,
            likes: 0,
            dislikes: 0,
            date: now,
        };
        self.comments.insert((post_id, id), comment);
        self.events.push(Event::PostCommented(who, post_id));
        proof {
            assert(self@ =~= commented(pre, who, post_id, 0, content@, now));
        }
        Ok(())
    }

    /// The call by which the account that signed it comments on a post.
    pub fn comment_on_post(&mut self, origin: Origin, post_id: u32, content: Vec<u8>, now: u64) -> (r: Result<(), DispatchError<Error>>)
        requires
            old(self).wf(),
        ensures
            final(self).wf(),
            match origin {
                Origin::Signed(who) => match comment_on_post_error(old(self)@, post_id, content@) {
                    Some(e) => r == Err::<(), DispatchError<Error>>(DispatchError::Module(e)) && final(self)@ == comment_on_post_failed(old(self)@, e)
                    && final(self).event_log() == old(self).event_log(),
                    None => r == Ok::<(), DispatchError<Error>>(()) && final(self)@ == commented(old(self)@, who, post_id, 0, content@, now)
                    && final(self).event_log() == old(self).event_log().push(Event::PostCommented(who, post_id)),
                },
                _ => r == Err::<(), DispatchError<Error>>(DispatchError::BadOrigin) && final(self)@ == old(self)@
                    && final(self).event_log() == old(self).event_log(),
            },
    {
        let who = ensure_signed(origin)?;
        match self.do_comment_on_post(who, post_id, content, now) {
            Ok(()) => Ok(()),
            Err(e) => Err(DispatchError::Module(e)),
        }
    }

    /// `who` answers comment `parent_comment_id` of post `post_id` at block
    /// `now`.
    pub fn do_comment_on_comment(
        &mut self,
        who: u64,
        post_id: u32,
        parent_comment_id: u32,
        content: Vec<u8>,
        now: u64,
    ) -> (r: Result<(), Error>)
        requires
            old(self).wf(),
        ensures
            final(self).wf(),
            match comment_on_comment_error(old(self)@, post_id, parent_comment_id, content@) {
                Some(e) => r == Err::<(), Error>(e) && final(self)@ == comment_on_comment_failed(old(self)@, e)
                    && final(self).event_log() == old(self).event_log(),
                None => r == Ok::<(), Error>(()) && final(self)@ == commented(old(self)@, who, post_id, parent_comment_id, content@, now)
                    && final(self).event_log() == old(self).event_log().push(Event::CommmentReplied(who, parent_comment_id, comment_id(old(self)@))),
            },
    {
        let ghost pre = self@;
        if !(self.posts.contains_key(&post_id) && self.comments.contains_key(&(post_id, parent_comment_id))) {
            return Err(Error::PostNotFound);
        }
        let (id, next) = match self.take_comment_id() {
            Some(p) => p,
            None => return Err(Error::Overflow),
        };
        self.next_comment_id = next;
        assert(self@ =~= comment_id_taken(pre));
        if !fits_limit(&content, self.config.string_limit) {
            return Err(Error::BadMetadata);
        }
        let comment = Comment {
            owner: who,
            id,
            content,
            post_id,
            parent_comment_id,
            likes: 0,
            dislikes: 0,
            date: now,
        };
        self.comments.insert((post_id, id), comment);
        self.events.push(Event::CommmentReplied(who, parent_comment_id, id));
        proof {
            assert(self@ =~= commented(pre, who, post_id, parent_comment_id, content@, now));
        }
        Ok(())
    }

    /// The call by which the account that signed it answers a comment.
    pub fn comment_on_comment(
        &mut self,
        origin: Origin,
        post_id: u32,
        parent_comment_id: u32,
        content: Vec<u8>,
        now: u64,
    ) -> (r: Result<(), DispatchError<Error>>)
        requires
            old(self).wf(),
        ensures
            final(self).wf(),
            match origin {
                Origin::Signed(who) => match comment_on_comment_error(old(self)@, post_id, parent_comment_id, content@) {
                    Some(e) => r == Err::<(), DispatchError<Error>>(DispatchError::Module(e)) && final(self)@ == comment_on_comment_failed(old(self)@, e)
                    && final(self).event_log() == old(self).event_log(),
                    None => r == Ok::<(), DispatchError<Error>>(()) && final(self)@ == commented(old(self)@, who, post_id, parent_comment_id, content@, now)
                    && final(self).event_log() == old(self).event_log().push(Event::CommmentReplied(who, parent_comment_id, comment_id(old(self)@))),
                },
                _ => r == Err::<(), DispatchError<Error>>(DispatchError::BadOrigin) && final(self)@ == old(self)@
                    && final(self).event_log() == old(self).event_log(),
            },
    {
        let who = ensure_signed(origin)?;
        match self.do_comment_on_comment(who, post_id, parent_comment_id, content, now) {
            Ok(()) => Ok(()),
            Err(e) => Err(DispatchError::Module(e)),
        }
    }

    /// The constants of the runtime.
    pub fn config(&self) -> (c: Config)
        ensures
            c == self@.config,
    {
        self.config
    }

    /// The space of `who`.
    pub fn space(&self, who: u64) -> (r: Option<Space>)
        requires
            self.wf(),
        ensures
            match r {
                Some(s) => self@.spaces.dom().contains(who) && s@ == self@.spaces[who],
                None => !self@.spaces.dom().contains(who),
            },
    {
        match self.spaces.get(&who) {
            Some(s) => Some(s.duplicate()),
            None => None,
        }
    }

    /// The post with id `post_id`.
    pub fn post(&self, post_id: u32) -> (r: Option<Post>)
        requires
            self.wf(),
        ensures
            match r {
                Some(p) => self@.posts.dom().contains(post_id) && p@ == self@.posts[post_id],
                None => !self@.posts.dom().contains(post_id),
            },
    {
        match self.posts.get(&post_id) {
            Some(p) => Some(p.duplicate()),
            None => None,
        }
    }

    /// The comment with id `comment_id` on post `post_id`.
    pub fn comment(&self, post_id: u32, comment_id: u32) -> (r: Option<Comment>)
        requires
            self.wf(),
        ensures
            match r {
                Some(c) => self@.comments.dom().contains((post_id, comment_id)) && c@ == self@.comments[(post_id, comment_id)],
                None => !self@.comments.dom().contains((post_id, comment_id)),
            },
    {
        match self.comments.get(&(post_id, comment_id)) {
            Some(c) => Some(c.duplicate()),
            None => None,
        }
    }

    /// The followers of the space of `who`, empty where none are stored.
    pub fn space_followers(&self, who: u64) -> (r: Vec<u64>)
        requires
            self.wf(),
        ensures
            r@ == (if self@.space_followers.dom().contains(who) {
                self@.space_followers[who]
            } else {
                Seq::empty()
            }),
    {
        match self.space_followers.get(&who) {
            Some(f) => copy_accounts(f),
            None => Vec::new(),
        }
    }

    /// The id the next post gets.
    pub fn next_post_id(&self) -> (r: u32)
        ensures
            r == self@.next_post_id,
    {
        self.next_post_id
    }

    /// The counter the next comment id is taken from.
    pub fn next_comment_id(&self) -> (r: u32)
        ensures
            r == self@.next_comment_id,
    {
        self.next_comment_id
    }
}

} // verus!
