//! The pagination state machine for the artist listing. The caller performs
//! one fetch per step and hands each decoded document to `on_page`; the
//! machine accumulates the items, decides whether the run is complete, and
//! names the page to request next. `PageStep::Continue` asks the caller to
//! wait the throttle delay and fetch again; `PageStep::Done` ends the run
//! with no further delay. A document that does not decode aborts the run:
//! the caller discards everything and reports the error.

use crate::decode::EnvelopeView;
use crate::decode::decode_envelope;
use crate::decode::spec_decode_envelope;
use crate::json::JsonValue;
use crate::records::Artist;
use crate::records::ArtistView;
use crate::records::DecodeError;
use crate::records::artist_views;
use vstd::prelude::*;

verus! {

/// Fixed pre-request throttle, in seconds, between one page fetch and the
/// next and before every tag fetch.
pub const THROTTLE_SECS: u64 = 1;

#[derive(Clone, Copy, PartialEq, Eq, Structural, Debug)]
pub enum PageStep {
    Continue { next_page: u64 },
    Done,
}

/// An envelope whose own page counter has reached the reported total ends
/// the run.
pub open spec fn terminal(env: EnvelopeView) -> bool {
    env.page >= env.total_pages
}

/// What the machine replies to one decoded envelope.
pub open spec fn spec_step(env: EnvelopeView) -> PageStep {
    if terminal(env) {
        PageStep::Done
    } else {
        PageStep::Continue { next_page: (env.page + 1) as u64 }
    }
}

/// All items served so far, in page order.
pub open spec fn collected_of(t: Seq<EnvelopeView>) -> Seq<ArtistView>
    decreases t.len(),
{
    if t.len() == 0 {
        Seq::empty()
    } else {
        collected_of(t.drop_last()) + t.last().artists
    }
}

pub struct Paginator {
    current_page: u64,
    artists: Vec<Artist>,
    done: bool,
    served: Ghost<Seq<EnvelopeView>>,
}

impl Paginator {
    /// The envelopes processed so far, in order: one per fetch the caller
    /// performed.
    pub closed spec fn served(self) -> Seq<EnvelopeView> {
        self.served@
    }

    pub closed spec fn collected(self) -> Seq<ArtistView> {
        artist_views(self.artists@)
    }

    pub closed spec fn spec_page(self) -> u64 {
        self.current_page
    }

    pub closed spec fn spec_done(self) -> bool {
        self.done
    }

    pub open spec fn inv(self) -> bool {
        &&& self.collected() == collected_of(self.served())
        &&& if self.spec_done() {
            &&& self.served().len() > 0
            &&& terminal(self.served().last())
            &&& forall|i: int|
                0 <= i < self.served().len() - 1 ==> !terminal(#[trigger] self.served()[i])
        } else {
            &&& forall|i: int| 0 <= i < self.served().len() ==> !terminal(#[trigger] self.served()[i])
            &&& (self.served().len() > 0 ==> self.spec_page() == self.served().last().page + 1)
        }
    }

    /// A fresh run that will request `start_page` first.
    pub fn new(start_page: u64) -> (r: Paginator)
        ensures
            r.inv(),
            !r.spec_done(),
            r.spec_page() == start_page,
            r.served() == Seq::<EnvelopeView>::empty(),
            r.collected() == Seq::<ArtistView>::empty(),
    {
        let r = Paginator {
            current_page: start_page,
            artists: Vec::new(),
            done: false,
            served: Ghost(Seq::empty()),
        };
        proof {
            assert(r.collected() =~= Seq::<ArtistView>::empty());
        }
        r
    }

    /// The page the caller should fetch next, while the run is not done.
    pub fn current_page(&self) -> (r: u64)
        ensures
            r == self.spec_page(),
    {
        self.current_page
    }

    pub fn is_done(&self) -> (r: bool)
        ensures
            r == self.spec_done(),
    {
        self.done
    }

    /// Feeds the machine the decoded document of the page just fetched.
    /// A well-formed envelope appends its items and either ends the run
    /// (its page counter reached the total) or names the next page; a
    /// malformed one aborts with its decode error and changes nothing.
    pub fn on_page(&mut self, doc: &JsonValue) -> (r: Result<PageStep, DecodeError>)
        requires
            old(self).inv(),
            !old(self).spec_done(),
        ensures
            final(self).inv(),
            match spec_decode_envelope(*doc) {
                Ok(env) => {
                    &&& r == Ok::<PageStep, DecodeError>(spec_step(env))
                    &&& final(self).served() == old(self).served().push(env)
                    &&& final(self).collected() == old(self).collected() + env.artists
                    &&& final(self).spec_done() == terminal(env)
                    &&& (!terminal(env) ==> final(self).spec_page() == env.page + 1)
                },
                Err(e) => {
                    &&& r == Err::<PageStep, DecodeError>(e)
                    &&& *final(self) == *old(self)
                },
            },
    {
        let env = match decode_envelope(doc) {
            Ok(env) => env,
            Err(e) => {
                return Err(e);
            },
        };
        let ghost ev = env@;
        let page = env.page;
        let total_pages = env.total_pages;
        let mut items = env.artists;
        let ghost old_collected = self.collected();
        self.artists.append(&mut items);
        proof {
            self.served@ = self.served@.push(ev);
            assert(self.served@.drop_last() =~= old(self).served());
            assert(self.served@.last() == ev);
            assert(artist_views(self.artists@) =~= old_collected + ev.artists);
            assert(self.collected() == collected_of(self.served()));
        }
        if page >= total_pages {
            self.done = true;
            Ok(PageStep::Done)
        } else {
            self.current_page = page + 1;
            Ok(PageStep::Continue { next_page: page + 1 })
        }
    }

    /// Hands back everything collected, once the run is done: the union of
    /// all served pages' items, in page order.
    pub fn into_artists(self) -> (r: Vec<Artist>)
        requires
            self.inv(),
            self.spec_done(),
        ensures
            artist_views(r@) == collected_of(self.served()),
    {
        self.artists
    }
}

/// A run in which every served envelope reports the same total `p` and the
/// pages arrive numbered consecutively from 1 performs exactly `p` fetches:
/// the machine stops the run at the `p`-th envelope and not before. Together
/// with `Paginator::inv`, which makes the collection the concatenation of
/// the served pages' items in page order, this pins the whole run's outcome.
pub proof fn lemma_run_fetches_every_page(t: Seq<EnvelopeView>, p: u64)
    requires
        p >= 1,
        t.len() >= 1,
        forall|i: int| 0 <= i < t.len() ==> (#[trigger] t[i]).total_pages == p,
        forall|i: int| 0 <= i < t.len() ==> (#[trigger] t[i]).page == 1 + i,
        forall|i: int| 0 <= i < t.len() - 1 ==> !terminal(#[trigger] t[i]),
        terminal(t.last()),
    ensures
        t.len() == p,
{
    let n = t.len() as int;
    assert(t[n - 1].page == n);
    assert(n >= p);
    if n > p {
        assert(!terminal(t[p - 1]));
        assert(t[p - 1].page == p);
        assert(false);
    }
}

/// A first envelope that reports a single page in total ends the run at
/// once: the reply is `Done`, so the caller fetches nothing further and
/// introduces no inter-page delay.
pub proof fn lemma_single_page_stops_immediately(env: EnvelopeView)
    requires
        env.page >= 1,
        env.total_pages <= 1,
    ensures
        spec_step(env) == PageStep::Done,
{
}

} // verus!
