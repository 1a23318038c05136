//! The latest-frame cache and the bounded multi-consumer fan-out.
//!
//! Publishing a completed frame is one logical operation with two effects:
//! the single-slot cache is overwritten, and the frame is delivered to
//! every open subscription. Each subscription owns a bounded FIFO queue;
//! when a subscriber's backlog is full, its own oldest frame is dropped and
//! counted as a miss — publishing never blocks, and no other subscriber is
//! affected. A consumer connecting late is handed the cached frame first.

use vstd::prelude::*;

verus! {

/// Default per-subscriber queue capacity.
pub const BROADCAST_CHANNEL_SIZE: usize = 16;

/// One viewer's side of the fan-out: the frames it has not yet consumed,
/// how many were dropped while it lagged, and whether it is still open.
pub struct Subscription {
    pub queue: Vec<Vec<u8>>,
    pub missed: u64,
    pub open: bool,
}

/// The mathematical image of a subscription.
pub ghost struct SubscriptionView {
    pub queue: Seq<Seq<u8>>,
    pub missed: u64,
    pub open: bool,
}

impl View for Subscription {
    type V = SubscriptionView;

    open spec fn view(&self) -> SubscriptionView {
        SubscriptionView {
            queue: self.queue@.map_values(|f: Vec<u8>| f@),
            missed: self.missed,
            open: self.open,
        }
    }
}

/// A fresh subscription: empty queue, no misses, open.
pub open spec fn fresh_sub() -> SubscriptionView {
    SubscriptionView { queue: Seq::empty(), missed: 0, open: true }
}

/// The publish side: the single-slot latest-frame cache plus every
/// subscription.
pub struct Hub {
    pub capacity: usize,
    pub latest: Option<Vec<u8>>,
    pub subs: Vec<Subscription>,
    pub closed: bool,
}

/// The mathematical image of the hub.
pub ghost struct HubView {
    pub capacity: int,
    pub latest: Option<Seq<u8>>,
    pub subs: Seq<SubscriptionView>,
    pub closed: bool,
}

impl View for Hub {
    type V = HubView;

    open spec fn view(&self) -> HubView {
        HubView {
            capacity: self.capacity as int,
            latest: match self.latest {
                Some(f) => Some(f@),
                None => None,
            },
            subs: self.subs@.map_values(|s: Subscription| s@),
            closed: self.closed,
        }
    }
}

impl HubView {
    pub open spec fn wf(self) -> bool {
        &&& self.capacity >= 1
        &&& forall|i: int| 0 <= i < self.subs.len() ==> self.subs[i].queue.len() <= self.capacity
    }
}

/// What one publish does to one subscription: a closed one is untouched; an
/// open one with room enqueues the frame; a full one loses its own oldest
/// frame, counts one miss, and then enqueues.
pub open spec fn spec_deliver(s: SubscriptionView, frame: Seq<u8>, cap: int) -> SubscriptionView {
    if !s.open {
        s
    } else if s.queue.len() < cap {
        SubscriptionView { queue: s.queue.push(frame), ..s }
    } else {
        SubscriptionView {
            queue: s.queue.skip(1).push(frame),
            missed: if s.missed == u64::MAX {
                s.missed
            } else {
                (s.missed + 1) as u64
            },
            ..s
        }
    }
}

/// One publish: overwrite the cache and deliver to every subscription.
pub open spec fn spec_publish(h: HubView, frame: Seq<u8>) -> HubView {
    HubView {
        latest: Some(frame),
        subs: h.subs.map_values(|s: SubscriptionView| spec_deliver(s, frame, h.capacity)),
        ..h
    }
}

/// One consumer connecting: a fresh subscription joins; the cache is what
/// it is handed on the way in.
pub open spec fn spec_connect(h: HubView) -> HubView {
    HubView { subs: h.subs.push(fresh_sub()), ..h }
}

/// An owned copy of a frame's bytes.
fn clone_bytes(v: &Vec<u8>) -> (r: Vec<u8>)
    ensures
        r@ == v@,
{
    let mut r: Vec<u8> = Vec::new();
    let mut i: usize = 0;
    while i < v.len()
        invariant
            i <= v@.len(),
            r@ == v@.subrange(0, i as int),
        decreases v@.len() - i,
    {
        let b = v[i];
        r.push(b);
        assert(r@ =~= v@.subrange(0, (i + 1) as int));
        i = i + 1;
    }
    proof {
        assert(v@.subrange(0, v@.len() as int) =~= v@);
    }
    r
}

/// What a receive yields.
pub enum RecvOutcome {
    /// The subscriber lagged: this many frames were dropped for it since it
    /// last consumed. Its queue is intact and consumable next.
    Lagged(u64),
    /// The oldest queued frame.
    Frame(Vec<u8>),
    /// Nothing queued right now; consume again after the next publish.
    Empty,
    /// The hub is shut down and the queue is drained: the stream has ended.
    Closed,
}

impl Hub {
    pub fn new(capacity: usize) -> (r: Hub)
        requires
            capacity >= 1,
        ensures
            r@.capacity == capacity as int,
            r@.latest is None,
            r@.subs == Seq::<SubscriptionView>::empty(),
            !r@.closed,
            r@.wf(),
    {
        let r = Hub { capacity, latest: None, subs: Vec::new(), closed: false };
        proof {
            assert(r@.subs =~= Seq::<SubscriptionView>::empty());
        }
        r
    }

    pub fn subscriber_count(&self) -> (n: usize)
        ensures
            n as int == self@.subs.len(),
    {
        self.subs.len()
    }

    /// Publish one completed frame: overwrite the cache, deliver to every
    /// open subscription, and charge any overflow to the lagging subscriber
    /// alone. Publishing with no subscribers just refreshes the cache.
    pub fn publish(&mut self, frame: Vec<u8>)
        requires
            old(self)@.wf(),
        ensures
            final(self)@ == spec_publish(old(self)@, frame@),
            final(self)@.wf(),
    {
        let ghost v = old(self)@;
        let cached = clone_bytes(&frame);
        self.latest = Some(cached);
        let n = self.subs.len();
        let mut i: usize = 0;
        while i < n
            invariant
                i <= n,
                n == self@.subs.len(),
                n == v.subs.len(),
                self.capacity == old(self).capacity,
                self.closed == old(self).closed,
                self@.latest == Some(frame@),
                v.wf(),
                v.capacity == self.capacity as int,
                forall|j: int|
                    0 <= j < i ==> self@.subs[j] == spec_deliver(v.subs[j], frame@, v.capacity),
                forall|j: int| i <= j < n ==> self@.subs[j] == v.subs[j],
            decreases n - i,
        {
            let ghost subs_pre = self@.subs;
            let mut s = self.subs.remove(i);
            let ghost s0 = s@;
            proof {
                assert(s0 == v.subs[i as int]);
                assert(s0.queue.len() <= v.capacity);
            }
            if s.open {
                let data = clone_bytes(&frame);
                let ghost q0 = s@.queue;
                s.queue.push(data);
                proof {
                    assert(s@.queue =~= q0.push(frame@));
                }
                if s.queue.len() > self.capacity {
                    let ghost q1 = s@.queue;
                    let _dropped = s.queue.remove(0);
                    proof {
                        assert(s@.queue =~= q1.skip(1));
                        assert(q1.skip(1) =~= q0.skip(1).push(frame@));
                    }
                    s.missed = if s.missed == u64::MAX {
                        s.missed
                    } else {
                        s.missed + 1
                    };
                }
            }
            proof {
                assert(s@ == spec_deliver(s0, frame@, v.capacity));
            }
            self.subs.insert(i, s);
            proof {
                assert(self@.subs =~= subs_pre.update(i as int, s@));
            }
            i = i + 1;
        }
        proof {
            assert(self@.subs =~= spec_publish(v, frame@).subs);
            assert forall|j: int|
                0 <= j < self@.subs.len() implies self@.subs[j].queue.len() <= self@.capacity by {
                assert(self@.subs[j] == spec_deliver(v.subs[j], frame@, v.capacity));
            }
        }
    }

    /// Open a new subscription with an empty queue; returns its handle.
    pub fn subscribe(&mut self) -> (id: usize)
        ensures
            id as int == old(self)@.subs.len(),
            final(self)@ == spec_connect(old(self)@),
            old(self)@.wf() ==> final(self)@.wf(),
    {
        let id = self.subs.len();
        self.subs.push(Subscription { queue: Vec::new(), missed: 0, open: true });
        proof {
            let s = self.subs@[self.subs@.len() - 1];
            assert(s@.queue =~= Seq::<Seq<u8>>::empty());
            assert(self@.subs =~= old(self)@.subs.push(fresh_sub()));
        }
        id
    }

    /// A consumer connecting: handed the cached latest frame — before
    /// anything published afterward — together with a fresh subscription.
    pub fn connect(&mut self) -> (r: (Option<Vec<u8>>, usize))
        ensures
            r.0 is Some <==> old(self)@.latest is Some,
            r.0 is Some ==> r.0->0@ == old(self)@.latest->0,
            r.1 as int == old(self)@.subs.len(),
            final(self)@ == spec_connect(old(self)@),
            old(self)@.wf() ==> final(self)@.wf(),
    {
        let courtesy = match &self.latest {
            Some(f) => Some(clone_bytes(f)),
            None => None,
        };
        let id = self.subscribe();
        (courtesy, id)
    }

    /// Consume from subscription `id`: a pending lag notice first, then the
    /// oldest queued frame, then end-of-stream once the hub is closed.
    pub fn recv(&mut self, id: usize) -> (out: RecvOutcome)
        requires
            id < old(self)@.subs.len(),
        ensures
            ({
                let pre = old(self)@;
                let post = final(self)@;
                let s0 = pre.subs[id as int];
                let s1 = post.subs[id as int];
                &&& post.capacity == pre.capacity
                &&& post.latest == pre.latest
                &&& post.closed == pre.closed
                &&& post.subs.len() == pre.subs.len()
                &&& forall|j: int|
                    0 <= j < pre.subs.len() && j != id ==> post.subs[j] == pre.subs[j]
                &&& s1.open == s0.open
                &&& match out {
                    RecvOutcome::Lagged(n) => n == s0.missed && n > 0 && s1.missed == 0
                        && s1.queue == s0.queue,
                    RecvOutcome::Frame(f) => s0.missed == 0 && s0.queue.len() > 0 && f@
                        == s0.queue[0] && s1.queue == s0.queue.skip(1) && s1.missed == 0,
                    RecvOutcome::Empty => s0.missed == 0 && s0.queue.len() == 0 && !pre.closed
                        && post == pre,
                    RecvOutcome::Closed => s0.missed == 0 && s0.queue.len() == 0 && pre.closed
                        && post == pre,
                }
            }),
    {
        let ghost v = old(self)@;
        let ghost subs_pre = self@.subs;
        let mut s = self.subs.remove(id);
        let ghost s0 = s@;
        let out: RecvOutcome;
        if s.missed > 0 {
            let n = s.missed;
            s.missed = 0;
            out = RecvOutcome::Lagged(n);
        } else if s.queue.len() > 0 {
            let ghost q0 = s@.queue;
            let f = s.queue.remove(0);
            proof {
                assert(f@ == q0[0]);
                assert(s@.queue =~= q0.skip(1));
            }
            out = RecvOutcome::Frame(f);
        } else if self.closed {
            out = RecvOutcome::Closed;
        } else {
            out = RecvOutcome::Empty;
        }
        self.subs.insert(id, s);
        proof {
            assert(self@.subs =~= subs_pre.update(id as int, s@));
            assert(s0 == v.subs[id as int]);
            if s@ == s0 {
                assert(self@.subs =~= v.subs);
            }
        }
        out
    }

    /// A consumer leaving: its subscription closes and its backlog is
    /// dropped; publishes no longer touch it.
    pub fn unsubscribe(&mut self, id: usize)
        requires
            id < old(self)@.subs.len(),
        ensures
            ({
                let pre = old(self)@;
                let post = final(self)@;
                &&& post.capacity == pre.capacity
                &&& post.latest == pre.latest
                &&& post.closed == pre.closed
                &&& post.subs.len() == pre.subs.len()
                &&& forall|j: int|
                    0 <= j < pre.subs.len() && j != id ==> post.subs[j] == pre.subs[j]
                &&& post.subs[id as int] == (SubscriptionView {
                    queue: Seq::empty(),
                    missed: 0,
                    open: false,
                })
            }),
    {
        let ghost subs_pre = self@.subs;
        let mut s = self.subs.remove(id);
        s.queue = Vec::new();
        s.missed = 0;
        s.open = false;
        proof {
            assert(s@.queue =~= Seq::<Seq<u8>>::empty());
        }
        self.subs.insert(id, s);
        proof {
            assert(self@.subs =~= subs_pre.update(id as int, s@));
        }
    }

    /// Tear the hub down: once every queue drains, consumers see
    /// end-of-stream.
    pub fn close(&mut self)
        ensures
            final(self)@ == (HubView { closed: true, ..old(self)@ }),
    {
        self.closed = true;
    }
}

/// Publishing keeps the hub well formed, touches no subscription count, and
/// refreshes the cache.
pub proof fn lemma_publish_wf(h: HubView, frame: Seq<u8>)
    requires
        h.wf(),
    ensures
        spec_publish(h, frame).wf(),
        spec_publish(h, frame).subs.len() == h.subs.len(),
        spec_publish(h, frame).latest == Some(frame),
        spec_publish(h, frame).capacity == h.capacity,
{
    let g = spec_publish(h, frame);
    assert forall|i: int| 0 <= i < g.subs.len() implies g.subs[i].queue.len() <= g.capacity by {
        assert(g.subs[i] == spec_deliver(h.subs[i], frame, h.capacity));
    }
}

/// Fan-out isolation, first half: one publish acts on every subscription
/// independently — each new state is a function of that subscription's own
/// old state and the frame alone, so one subscriber's backlog never delays
/// or affects another's delivery — and an open subscriber with spare room
/// receives the frame, losing nothing.
pub proof fn lemma_fan_out_isolation(h: HubView, frame: Seq<u8>, i: int)
    requires
        h.wf(),
        0 <= i < h.subs.len(),
    ensures
        spec_publish(h, frame).subs[i] == spec_deliver(h.subs[i], frame, h.capacity),
        h.subs[i].open && h.subs[i].queue.len() < h.capacity ==> spec_publish(h, frame).subs[i]
            == (SubscriptionView { queue: h.subs[i].queue.push(frame), ..h.subs[i] }),
{
}

/// Publish a whole sequence of frames, oldest first.
pub open spec fn spec_publish_all(h: HubView, frames: Seq<Seq<u8>>) -> HubView
    decreases frames.len(),
{
    if frames.len() == 0 {
        h
    } else {
        spec_publish_all(spec_publish(h, frames[0]), frames.skip(1))
    }
}

/// Fan-out isolation, second half: a subscriber that consumes keeps up — as
/// long as the frames fit in its spare room, it receives every published
/// frame, in publish order, with no miss counted, whatever any other
/// subscriber does.
pub proof fn lemma_receives_all_in_order(h: HubView, frames: Seq<Seq<u8>>, i: int)
    requires
        h.wf(),
        0 <= i < h.subs.len(),
        h.subs[i].open,
        h.subs[i].queue.len() + frames.len() <= h.capacity,
    ensures
        spec_publish_all(h, frames).subs.len() == h.subs.len(),
        spec_publish_all(h, frames).subs[i].queue == h.subs[i].queue + frames,
        spec_publish_all(h, frames).subs[i].missed == h.subs[i].missed,
        spec_publish_all(h, frames).wf(),
    decreases frames.len(),
{
    if frames.len() == 0 {
        assert(h.subs[i].queue + frames =~= h.subs[i].queue);
    } else {
        let h1 = spec_publish(h, frames[0]);
        lemma_publish_wf(h, frames[0]);
        assert(h1.subs[i] == spec_deliver(h.subs[i], frames[0], h.capacity));
        lemma_receives_all_in_order(h1, frames.skip(1), i);
        assert(h.subs[i].queue.push(frames[0]) + frames.skip(1) =~= h.subs[i].queue + frames);
    }
}

/// Fan-out isolation, the lagging side: a subscriber that never
/// consumes is charged for the overflow itself — once the frames published
/// exceed its spare room, its miss count has strictly grown, so its next
/// receive reports the lag instead of stalling the publisher.
pub proof fn lemma_starved_subscriber_lags(h: HubView, frames: Seq<Seq<u8>>, i: int)
    requires
        h.wf(),
        0 <= i < h.subs.len(),
        h.subs[i].open,
        h.subs[i].missed + frames.len() <= u64::MAX,
    ensures
        spec_publish_all(h, frames).subs.len() == h.subs.len(),
        spec_publish_all(h, frames).subs[i].open,
        spec_publish_all(h, frames).subs[i].missed >= h.subs[i].missed + frames.len() - (h.capacity
            - h.subs[i].queue.len()),
        spec_publish_all(h, frames).subs[i].missed >= h.subs[i].missed,
        spec_publish_all(h, frames).wf(),
    decreases frames.len(),
{
    if frames.len() > 0 {
        let h1 = spec_publish(h, frames[0]);
        lemma_publish_wf(h, frames[0]);
        assert(h1.subs[i] == spec_deliver(h.subs[i], frames[0], h.capacity));
        lemma_starved_subscriber_lags(h1, frames.skip(1), i);
    }
}

/// New-consumer courtesy law: a consumer connecting after a publish is
/// handed exactly that publish's frame — the cache — before anything newer;
/// its fresh queue is empty, so the first frame it then receives is the
/// next one published.
pub proof fn lemma_new_consumer_courtesy(h: HubView, f: Seq<u8>, g: Seq<u8>)
    requires
        h.wf(),
    ensures
        ({
            let h1 = spec_publish(h, f);
            let id = h1.subs.len() as int;
            let h2 = spec_connect(h1);
            &&& h1.latest == Some(f)
            &&& h2.subs[id] == fresh_sub()
            &&& spec_publish(h2, g).subs[id].queue == seq![g]
            &&& spec_publish(h2, g).subs[id].missed == 0
        }),
{
    let h1 = spec_publish(h, f);
    lemma_publish_wf(h, f);
    let id = h1.subs.len() as int;
    let h2 = spec_connect(h1);
    assert(h2.subs[id] == fresh_sub());
    assert(spec_publish(h2, g).subs[id] == spec_deliver(fresh_sub(), g, h2.capacity));
    assert(Seq::<Seq<u8>>::empty().push(g) =~= seq![g]);
}

/// What a consumer session does with one receive outcome.
pub enum SessionAction {
    /// Write these bytes to the viewer's socket; a write failure ends the
    /// session.
    Forward(Vec<u8>),
    /// Log the lag and keep the session alive.
    NoteLag(u64),
    /// Nothing to consume yet: wait for the next publish.
    Wait,
    /// End the session cleanly.
    End,
}

/// The session policy: forward every delivered frame, survive lag notices,
/// end only when the stream has closed.
pub fn session_action(out: RecvOutcome) -> (a: SessionAction)
    ensures
        (out matches RecvOutcome::Frame(f) ==> a matches SessionAction::Forward(g) && g@ == f@),
        (out matches RecvOutcome::Lagged(n) ==> a == SessionAction::NoteLag(n)),
        (out is Empty ==> a is Wait),
        (out is Closed ==> a is End),
{
    match out {
        RecvOutcome::Frame(f) => SessionAction::Forward(f),
        RecvOutcome::Lagged(n) => SessionAction::NoteLag(n),
        RecvOutcome::Empty => SessionAction::Wait,
        RecvOutcome::Closed => SessionAction::End,
    }
}

} // verus!
