//! The movie pallet: accounts register movies, each stored under a key
//! drawn from the chain's randomness.

use vstd::prelude::*;
use crate::dispatch::{DispatchError, Origin, ensure_signed, fits, fits_limit, next_id};
use crate::hashing::{blake2_128, blake2_128_of, encode_seed_payload, seed_payload};
use crate::table::{Duplicate, Table, copy_bytes};

verus! {

/// A registered movie.
#[derive(Debug)]
pub struct Movie {
    pub owner: u64,
    pub name: Vec<u8>,
    pub description: Vec<u8>,
    pub link: Vec<u8>,
}

/// A movie as a mathematical value.
pub struct MovieView {
    pub owner: u64,
    pub name: Seq<u8>,
    pub description: Seq<u8>,
    pub link: Seq<u8>,
}

impl View for Movie {
    type V = MovieView;

    open spec fn view(&self) -> MovieView {
        MovieView { owner: self.owner, name: self.name@, description: self.description@, link: self.link@ }
    }
}

impl Duplicate for Movie {
    fn duplicate(&self) -> (r: Self) {
        Movie {
            owner: self.owner,
            name: copy_bytes(&self.name),
            description: copy_bytes(&self.description),
            link: copy_bytes(&self.link),
        }
    }
}

/// Errors of the movie pallet.
#[derive(Clone, Copy, Debug, PartialEq, Eq)]
pub enum Error {
    NoAvailableMovieId,
    Overflow,
    Underflow,
    BadMetadata,
}

/// What the movie pallet reports to the outside world.
#[derive(Clone, Copy, Debug, PartialEq, Eq, Structural)]
pub enum Event {
    /// A movie got this id and belongs to this account.
    MovieCreated(u32, u64),
}

/// The constants the runtime gives the pallet.
#[derive(Clone, Copy, Debug)]
pub struct Config {
    /// The longest byte string a movie stores.
    pub string_limit: u32,
    /// The longest movie key.
    pub movie_string_limit: u32,
}

/// The storage of the movie pallet.
pub struct Pallet {
    config: Config,
    movies: Table<Vec<u8>, Movie>,
    next_movie_id: u32,
    events: Vec<Event>,
}

/// The storage of the movie pallet as a mathematical value.
pub struct MovieState {
    /// The constants of the runtime.
    pub config: Config,
    /// The movies, by key.
    pub movies: Map<Seq<u8>, MovieView>,
    /// The id the next movie gets.
    pub next_movie_id: u32,
}

/// The key under which a movie with id `nonce` is stored.
pub open spec fn movie_key(seed: Seq<u8>, nonce: u32, extrinsic_index: Option<u32>) -> Seq<u8> {
    blake2_128_of(seed_payload(seed, nonce, extrinsic_index))
}

/// Whether every field fits the string bound.
pub open spec fn all_fit(fields: Seq<Seq<u8>>, limit: u32) -> bool {
    forall|i: int| 0 <= i < fields.len() ==> fits(#[trigger] fields[i], limit)
}

/// Why creating a movie fails, if it does: the id counter is exhausted, or a
/// field is too long.
pub open spec fn create_movie_error(st: MovieState, limit: u32, fields: Seq<Seq<u8>>) -> Option<Error> {
    if st.next_movie_id == u32::MAX {
        Some(Error::Overflow)
    } else if !all_fit(fields, limit) {
        Some(Error::BadMetadata)
    } else {
        None
    }
}

/// The storage after creating a movie fails with `e`: the id is taken from
/// the counter before the texts are checked, so a text too long leaves it
/// used up.
pub open spec fn create_movie_failed(st: MovieState, e: Error) -> MovieState {
    if e is BadMetadata {
        MovieState { next_movie_id: (st.next_movie_id + 1) as u32, ..st }
    } else {
        st
    }
}

/// The storage after `who` registers a movie with these texts under `key`.
pub open spec fn movie_created(st: MovieState, key: Seq<u8>, who: u64, name: Seq<u8>, description: Seq<u8>, link: Seq<u8>) -> MovieState {
    MovieState {
        movies: st.movies.insert(key, MovieView { owner: who, name, description, link }),
        next_movie_id: (st.next_movie_id + 1) as u32,
        ..st
    }
}

impl Pallet {
    /// The storage as a mathematical value.
    pub closed spec fn view(&self) -> MovieState {
        MovieState { config: self.config, movies: self.movies@, next_movie_id: self.next_movie_id }
    }

    /// The events deposited so far, oldest first.
    pub closed spec fn event_log(&self) -> Seq<Event> {
        self.events@
    }

    /// The invariant of the storage.
    pub closed spec fn wf(&self) -> bool {
        self.movies.wf()
    }

    /// Empty storage.
    pub fn new(config: Config) -> (p: Self)
        ensures
            p.wf(),
            p.view().config == config,
            p.view().movies == Map::<Seq<u8>, MovieView>::empty(),
            p.view().next_movie_id == 0,
            p.event_log() == Seq::<Event>::empty(),
    {
        Pallet { config, movies: Table::new(), next_movie_id: 0, events: Vec::new() }
    }

    /// Hands out the events deposited so far and forgets them.
    pub fn take_events(&mut self) -> (r: Vec<Event>)
        ensures
            r@ == old(self).event_log(),
            final(self).event_log() == Seq::<Event>::empty(),
            final(self).view() == old(self).view(),
            final(self).wf() == old(self).wf(),
    {
        let mut taken: Vec<Event> = Vec::new();
        std::mem::swap(&mut taken, &mut self.events);
        taken
    }

    /// The movie stored under `key`.
    pub fn movie(&self, key: &Vec<u8>) -> (r: Option<Movie>)
        requires
            self.wf(),
        ensures
            match r {
                Some(m) => self.view().movies.dom().contains(key@) && m@ == self.view().movies[key@],
                None => !self.view().movies.dom().contains(key@),
            },
    {
        match self.movies.get(key) {
            Some(m) => Some(m.duplicate()),
            None => None,
        }
    }

    /// Whether a movie is stored under `key`.
    pub fn contains_movie(&self, key: &Vec<u8>) -> (b: bool)
        requires
            self.wf(),
        ensures
            b == self.view().movies.dom().contains(key@),
    {
        self.movies.contains_key(key)
    }

    /// The constants of the runtime.
    pub fn config(&self) -> (c: Config)
        ensures
            c == self.view().config,
    {
        self.config
    }

    /// The id the next movie gets.
    pub fn next_movie_id(&self) -> (r: u32)
        ensures
            r == self.view().next_movie_id,
    {
        self.next_movie_id
    }

    /// The key under which the movie with id `nonce` is stored: the Blake2
    /// hash of the encoded seed, nonce and extrinsic index.
    pub fn random_value(&self, nonce: u32, random_seed: &[u8; 32], extrinsic_index: Option<u32>) -> (r: Vec<u8>)
        requires
            self.view().config.movie_string_limit >= 16,
        ensures
            r@ == movie_key(random_seed@, nonce, extrinsic_index),
            fits(r@, self.view().config.movie_string_limit),
    {
        let payload = encode_seed_payload(random_seed, nonce, extrinsic_index);
        blake2_128(payload.as_slice())
    }

    /// Registers a movie of `who`, returning its id.
    ///
    /// The id is taken from the counter; every text must fit the string
    /// bound. The movie keeps its name, its description and, as its link,
    /// the IPFS address; it is stored under [`movie_key`] of the runtime's
    /// random seed, the id and the extrinsic index. The id is taken
    /// before the texts are checked: a text too long fails the call with
    /// the id used up ([`create_movie_failed`]).
    pub fn do_create_movie(
        &mut self,
        who: u64,
        name: Vec<u8>,
        synopsis: Vec<u8>,
        movie_description: Vec<u8>,
        classification: u32,
        release: Vec<u8>,
        director: Vec<u8>,
        lang: Vec<u8>,
        country: Vec<u8>,
        rating: u32,
        aspect_ratio: Vec<u8>,
        tags: Vec<u8>,
        trailer: Vec<u8>,
        imdb: Vec<u8>,
        social: Vec<u8>,
        ipfs: Vec<u8>,
        link: Vec<u8>,
        random_seed: [u8; 32],
        extrinsic_index: Option<u32>,
    ) -> (r: Result<u32, Error>)
        requires
            old(self).wf(),
            create_movie_error(
                old(self).view(),
                old(self).view().config.string_limit,
                seq![name@, synopsis@, movie_description@, release@, director@, lang@, country@, aspect_ratio@, tags@, trailer@, imdb@, social@, link@, ipfs@],
            ) is None ==> old(self).view().config.movie_string_limit >= 16,
        ensures
            final(self).wf(),
            ({
                let err = create_movie_error(
                    old(self).view(),
                    old(self).view().config.string_limit,
                    seq![name@, synopsis@, movie_description@, release@, director@, lang@, country@, aspect_ratio@, tags@, trailer@, imdb@, social@, link@, ipfs@],
                );
                match err {
                    Some(e) => r == Err::<u32, Error>(e) && final(self).view() == create_movie_failed(old(self).view(), e)
                        && final(self).event_log() == old(self).event_log(),
                    None => {
                        let id = old(self).view().next_movie_id;
                        &&& r == Ok::<u32, Error>(id)
                        &&& final(self).event_log() == old(self).event_log().push(Event::MovieCreated(id, who))
                        &&& final(self).view() == movie_created(
                            old(self).view(),
                            movie_key(random_seed@, id, extrinsic_index),
                            who,
                            name@,
                            movie_description@,
                            ipfs@,
                        )
                    },
                }
            }),
    {
        let ghost fields = seq![name@, synopsis@, movie_description@, release@, director@, lang@, country@, aspect_ratio@, tags@, trailer@, imdb@, social@, link@, ipfs@];
        let movie_id = self.next_movie_id;
        let next = match next_id(movie_id) {
            Some(n) => n,
            None => return Err(Error::Overflow),
        };
        self.next_movie_id = next;
        let limit = self.config.string_limit;
        let fit = fits_limit(&name, limit) && fits_limit(&synopsis, limit) && fits_limit(
            &movie_description,
            limit,
        ) && fits_limit(&release, limit) && fits_limit(&director, limit) && fits_limit(&lang, limit)
            && fits_limit(&country, limit) && fits_limit(&aspect_ratio, limit) && fits_limit(
            &tags,
            limit,
        ) && fits_limit(&trailer, limit) && fits_limit(&imdb, limit) && fits_limit(&social, limit)
            && fits_limit(&link, limit) && fits_limit(&ipfs, limit);
        proof {
            if fit {
                assert forall|i: int| 0 <= i < fields.len() implies fits(#[trigger] fields[i], limit) by {}
            } else {
                assert(!all_fit(fields, limit)) by {
                    if all_fit(fields, limit) {
                        assert(fits(fields[0], limit));
                        assert(fits(fields[1], limit));
                        assert(fits(fields[2], limit));
                        assert(fits(fields[3], limit));
                        assert(fits(fields[4], limit));
                        assert(fits(fields[5], limit));
                        assert(fits(fields[6], limit));
                        assert(fits(fields[7], limit));
                        assert(fits(fields[8], limit));
                        assert(fits(fields[9], limit));
                        assert(fits(fields[10], limit));
                        assert(fits(fields[11], limit));
                        assert(fits(fields[12], limit));
                        assert(fits(fields[13], limit));
                    }
                }
            }
        }
        if !fit {
            return Err(Error::BadMetadata);
        }
        let movie = Movie { owner: who, name, description: movie_description, link: ipfs };
        let bounded_id = self.random_value(movie_id, &random_seed, extrinsic_index);
        self.movies.insert(bounded_id, movie);
        self.events.push(Event::MovieCreated(movie_id, who));
        Ok(movie_id)
    }

    /// The call that registers a movie for the account that signed it.
    pub fn create_movie(
        &mut self,
        origin: Origin,
        name: Vec<u8>,
        synopsis: Vec<u8>,
        movie_description: Vec<u8>,
        classification: u32,
        release: Vec<u8>,
        director: Vec<u8>,
        lang: Vec<u8>,
        country: Vec<u8>,
        rating: u32,
        aspect_ratio: Vec<u8>,
        tags: Vec<u8>,
        trailer: Vec<u8>,
        imdb: Vec<u8>,
        social: Vec<u8>,
        ipfs: Vec<u8>,
        link: Vec<u8>,
        random_seed: [u8; 32],
        extrinsic_index: Option<u32>,
    ) -> (r: Result<(), DispatchError<Error>>)
        requires
            old(self).wf(),
            create_movie_error(
                old(self).view(),
                old(self).view().config.string_limit,
                seq![name@, synopsis@, movie_description@, release@, director@, lang@, country@, aspect_ratio@, tags@, trailer@, imdb@, social@, link@, ipfs@],
            ) is None ==> old(self).view().config.movie_string_limit >= 16,
        ensures
            final(self).wf(),
            !(origin is Signed) ==> r == Err::<(), DispatchError<Error>>(DispatchError::BadOrigin)
                && final(self).view() == old(self).view() && final(self).event_log() == old(self).event_log(),
            origin is Signed ==> ({
                let err = create_movie_error(
                    old(self).view(),
                    old(self).view().config.string_limit,
                    seq![name@, synopsis@, movie_description@, release@, director@, lang@, country@, aspect_ratio@, tags@, trailer@, imdb@, social@, link@, ipfs@],
                );
                match err {
                    Some(e) => r == Err::<(), DispatchError<Error>>(DispatchError::Module(e))
                        && final(self).view() == create_movie_failed(old(self).view(), e)
                        && final(self).event_log() == old(self).event_log(),
                    None => {
                        let id = old(self).view().next_movie_id;
                        &&& r == Ok::<(), DispatchError<Error>>(())
                        &&& final(self).event_log() == old(self).event_log().push(
                            Event::MovieCreated(id, origin->Signed_0),
                        )
                        &&& final(self).view() == movie_created(
                            old(self).view(),
                            movie_key(random_seed@, id, extrinsic_index),
                            origin->Signed_0,
                            name@,
                            movie_description@,
                            ipfs@,
                        )
                    },
                }
            }),
    {
        let who = ensure_signed(origin)?;
        match self.do_create_movie(
            who,
            name,
            synopsis,
            movie_description,
            classification,
            release,
            director,
            lang,
            country,
            rating,
            aspect_ratio,
            tags,
            trailer,
            imdb,
            social,
            ipfs,
            link,
            random_seed,
            extrinsic_index,
        ) {
            Ok(_) => Ok(()),
            Err(e) => Err(DispatchError::Module(e)),
        }
    }
}

} // verus!
