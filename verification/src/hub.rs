//! The broadcast hub: one publish endpoint, one bounded FIFO queue per
//! subscription. Publishing fans a message out to every active subscription
//! with room; a full queue drops the new message for that subscriber alone,
//! so a slow consumer never delays the publisher. A subscription observes
//! only messages published after it was taken out.
//!
//! A ghost history of everything published, and a ghost record of everything
//! each subscriber was handed, tie delivery order to publish order.

use vstd::prelude::*;

use crate::messages::{Message, MessageView};

verus! {

/// `a` can be read off `b` in order (by dropping elements of `b`).
pub open spec fn is_subseq<A>(a: Seq<A>, b: Seq<A>) -> bool
    decreases a.len() + b.len(),
{
    if a.len() == 0 {
        true
    } else if b.len() == 0 {
        false
    } else {
        (a.last() == b.last() && is_subseq(a.drop_last(), b.drop_last())) || is_subseq(
            a,
            b.drop_last(),
        )
    }
}

pub proof fn lemma_subseq_push_both<A>(a: Seq<A>, b: Seq<A>, x: A)
    requires
        is_subseq(a, b),
    ensures
        is_subseq(a.push(x), b.push(x)),
{
    assert(a.push(x).drop_last() =~= a);
    assert(b.push(x).drop_last() =~= b);
}

pub proof fn lemma_subseq_push_right<A>(a: Seq<A>, b: Seq<A>, x: A)
    requires
        is_subseq(a, b),
    ensures
        is_subseq(a, b.push(x)),
{
    assert(b.push(x).drop_last() =~= b);
}

/// Dropping the last element on the left keeps the relation.
proof fn lemma_subseq_drop_left<A>(a: Seq<A>, x: A, b: Seq<A>)
    requires
        is_subseq(a.push(x), b),
    ensures
        is_subseq(a, b),
    decreases b.len(),
{
    assert(a.push(x).len() > 0);
    assert(b.len() > 0);
    assert(a.push(x).drop_last() =~= a);
    if a.push(x).last() == b.last() && is_subseq(a, b.drop_last()) {
        lemma_subseq_push_right(a, b.drop_last(), b.last());
        assert(b.drop_last().push(b.last()) =~= b);
    } else {
        lemma_subseq_drop_left(a, x, b.drop_last());
        lemma_subseq_push_right(a, b.drop_last(), b.last());
        assert(b.drop_last().push(b.last()) =~= b);
    }
}

/// A prefix of a subsequence is a subsequence.
pub proof fn lemma_subseq_prefix<A>(a: Seq<A>, b: Seq<A>, c: Seq<A>)
    requires
        is_subseq(a + b, c),
    ensures
        is_subseq(a, c),
    decreases b.len(),
{
    if b.len() == 0 {
        assert(a + b =~= a);
    } else {
        assert(a + b =~= (a + b.drop_last()).push(b.last()));
        lemma_subseq_drop_left(a + b.drop_last(), b.last(), c);
        lemma_subseq_prefix(a, b.drop_last(), c);
    }
}

/// Keeping only the elements some predicate selects keeps the relation.
pub proof fn lemma_subseq_filter<A>(a: Seq<A>, b: Seq<A>, p: spec_fn(A) -> bool)
    requires
        is_subseq(a, b),
    ensures
        is_subseq(a.filter(p), b.filter(p)),
    decreases a.len() + b.len(),
{
    reveal_with_fuel(Seq::filter, 2);
    if a.len() == 0 {
        assert(a.filter(p) =~= Seq::<A>::empty());
    } else if b.len() == 0 {
    } else {
        if a.last() == b.last() && is_subseq(a.drop_last(), b.drop_last()) {
            lemma_subseq_filter(a.drop_last(), b.drop_last(), p);
            if p(a.last()) {
                lemma_subseq_push_both(a.drop_last().filter(p), b.drop_last().filter(p), a.last());
            }
        } else {
            assert(is_subseq(a, b.drop_last()));
            lemma_subseq_filter(a, b.drop_last(), p);
            if p(b.last()) {
                lemma_subseq_push_right(a.filter(p), b.drop_last().filter(p), b.last());
            }
        }
    }
}

/// The mathematical values of a queue's messages.
pub open spec fn views_of(s: Seq<Message>) -> Seq<MessageView> {
    s.map_values(|m: Message| m@)
}

/// One session's private receive queue, with its ghost delivery record.
struct Subscription {
    active: bool,
    queue: Vec<Message>,
    delivered: Ghost<Seq<MessageView>>,
}

/// The shared broadcast mechanism distributing messages to all subscriptions.
pub struct Hub {
    capacity: usize,
    subs: Vec<Subscription>,
    history: Ghost<Seq<MessageView>>,
}

impl Hub {
    /// Everything published since the hub was made, in publish order.
    pub closed spec fn history(self) -> Seq<MessageView> {
        self.history@
    }

    /// How many subscriptions were ever taken out (tokens are never reused).
    pub closed spec fn sub_count(self) -> nat {
        self.subs@.len() as nat
    }

    /// Per-subscriber queue bound.
    pub closed spec fn cap(self) -> nat {
        self.capacity as nat
    }

    /// Is this subscription still attached?
    pub closed spec fn is_active(self, i: int) -> bool {
        self.subs@[i].active
    }

    /// What waits in subscription `i`'s queue, oldest first.
    pub closed spec fn queue_of(self, i: int) -> Seq<MessageView> {
        views_of(self.subs@[i].queue@)
    }

    /// Everything subscription `i` has been handed, oldest first.
    pub closed spec fn delivered_of(self, i: int) -> Seq<MessageView> {
        self.subs@[i].delivered@
    }

    /// Queues are bounded, and what each subscriber saw (handed out, then
    /// still queued) is a subsequence of the publish history.
    pub closed spec fn wf(self) -> bool {
        &&& self.capacity >= 1
        &&& forall|i: int|
            0 <= i < self.subs@.len() ==> (#[trigger] self.subs@[i]).queue@.len()
                <= self.capacity
        &&& forall|i: int|
            0 <= i < self.subs@.len() ==> is_subseq(
                (#[trigger] self.subs@[i]).delivered@ + views_of(self.subs@[i].queue@),
                self.history@,
            )
    }

    pub fn new(capacity: usize) -> (h: Hub)
        requires
            capacity >= 1,
        ensures
            h.wf(),
            h.sub_count() == 0,
            h.history() == Seq::<MessageView>::empty(),
            h.cap() == capacity,
    {
        Hub { capacity, subs: Vec::new(), history: Ghost(Seq::empty()) }
    }

    /// How many subscriptions were ever taken out; valid tokens lie below
    /// this.
    pub fn subscriber_count(&self) -> (n: usize)
        ensures
            n == self.sub_count(),
    {
        self.subs.len()
    }

    /// Take out a new private receive queue. It starts empty: only messages
    /// published after this call will ever appear on it.
    pub fn subscribe(&mut self) -> (token: usize)
        requires
            old(self).wf(),
        ensures
            final(self).wf(),
            token == old(self).sub_count(),
            final(self).sub_count() == old(self).sub_count() + 1,
            final(self).history() == old(self).history(),
            final(self).cap() == old(self).cap(),
            final(self).is_active(token as int),
            final(self).queue_of(token as int) == Seq::<MessageView>::empty(),
            final(self).delivered_of(token as int) == Seq::<MessageView>::empty(),
            forall|i: int| 0 <= i < old(self).sub_count() ==> final(self).is_active(i) == old(self).is_active(i) && final(self).queue_of(i) == old(self).queue_of(i) && final(self).delivered_of(i) == old(self).delivered_of(i),
    {
        let token = self.subs.len();
        let sub = Subscription { active: true, queue: Vec::new(), delivered: Ghost(Seq::empty()) };
        self.subs.push(sub);
        proof {
            assert(views_of(Seq::<Message>::empty()) =~= Seq::<MessageView>::empty());
            assert(Seq::<MessageView>::empty() + Seq::<MessageView>::empty()
                =~= Seq::<MessageView>::empty());
            assert forall|i: int| 0 <= i < self.subs@.len() implies is_subseq(
                (#[trigger] self.subs@[i]).delivered@ + views_of(self.subs@[i].queue@),
                self.history@,
            ) by {
                if i < self.subs@.len() - 1 {
                    assert(self.subs@[i] == old(self).subs@[i]);
                }
            }
        }
        token
    }

    /// Detach a subscription and drop whatever still waited on it.
    pub fn unsubscribe(&mut self, token: usize)
        requires
            old(self).wf(),
            token < old(self).sub_count(),
        ensures
            final(self).wf(),
            final(self).sub_count() == old(self).sub_count(),
            final(self).history() == old(self).history(),
            final(self).cap() == old(self).cap(),
            !final(self).is_active(token as int),
            final(self).queue_of(token as int) == Seq::<MessageView>::empty(),
            final(self).delivered_of(token as int) == old(self).delivered_of(token as int),
            forall|i: int| 0 <= i < old(self).sub_count() && i != token ==> final(self).is_active(i) == old(self).is_active(i) && final(self).queue_of(i) == old(self).queue_of(i) && final(self).delivered_of(i) == old(self).delivered_of(i),
    {
        let mut sub = self.subs.remove(token);
        sub.active = false;
        sub.queue = Vec::new();
        self.subs.insert(token, sub);
        proof {
            assert forall|i: int|
                0 <= i < self.subs@.len() && i != token implies self.subs@[i] == old(
                self,
            ).subs@[i] by {
                assert(self.subs@ =~= old(self).subs@.update(token as int, self.subs@[token as int]));
            }
            assert(views_of(Seq::<Message>::empty()) =~= Seq::<MessageView>::empty());
            let d = self.subs@[token as int].delivered@;
            assert(d + views_of(self.subs@[token as int].queue@) =~= d);
            let oq = old(self).subs@[token as int].queue@;
            assert(is_subseq(d + views_of(oq), self.history@));
            lemma_subseq_prefix(d, views_of(oq), self.history@);
        }
    }

    /// Publish one message: it joins the history and the queue of every
    /// active subscription that has room; a full queue drops it for that
    /// subscriber alone.
    pub fn publish(&mut self, m: &Message)
        requires
            old(self).wf(),
        ensures
            final(self).wf(),
            final(self).history() == old(self).history().push(m@),
            final(self).sub_count() == old(self).sub_count(),
            final(self).cap() == old(self).cap(),
            forall|i: int| 0 <= i < old(self).sub_count() ==> final(self).is_active(i) == old(self).is_active(i) && final(self).delivered_of(i) == old(self).delivered_of(i),
            forall|i: int| 0 <= i < old(self).sub_count() ==> final(self).queue_of(i) == (if old(self).is_active(i) && old(self).queue_of(i).len() < old(self).cap() { old(self).queue_of(i).push(m@) } else { old(self).queue_of(i) }),
    {
        let ghost n = self.subs@.len();
        let mut done: Vec<Subscription> = Vec::new();
        while self.subs.len() > 0
            invariant
                old(self).wf(),
                self.capacity == old(self).capacity,
                self.history == old(self).history,
                done@.len() + self.subs@.len() == n,
                n == old(self).subs@.len(),
                self.subs@ =~= old(self).subs@.skip(done@.len() as int),
                forall|i: int|
                    0 <= i < done@.len() ==> (#[trigger] done@[i]).active == old(
                        self,
                    ).subs@[i].active && done@[i].delivered@ == old(self).subs@[i].delivered@,
                forall|i: int|
                    0 <= i < done@.len() ==> views_of((#[trigger] done@[i]).queue@) == (if old(
                        self,
                    ).subs@[i].active && views_of(old(self).subs@[i].queue@).len() < old(
                        self,
                    ).cap() {
                        views_of(old(self).subs@[i].queue@).push(m@)
                    } else {
                        views_of(old(self).subs@[i].queue@)
                    }),
                forall|i: int|
                    0 <= i < done@.len() ==> (#[trigger] done@[i]).queue@.len() <= self.capacity,
            decreases self.subs@.len(),
        {
            let ghost k = done@.len() as int;
            let mut sub = self.subs.remove(0);
            proof {
                assert(old(self).subs@.skip(k)[0] == old(self).subs@[k]);
                assert(old(self).subs@.skip(k).remove(0) =~= old(self).subs@.skip(k + 1));
            }
            if sub.active && sub.queue.len() < self.capacity {
                let copy = m.duplicate();
                sub.queue.push(copy);
                proof {
                    assert(views_of(sub.queue@) =~= views_of(old(self).subs@[k].queue@).push(m@));
                }
            }
            done.push(sub);
        }
        self.subs = done;
        self.history = Ghost(self.history@.push(m@));
        proof {
            assert(old(self).subs@.skip(n as int) =~= Seq::<Subscription>::empty());
            assert forall|i: int| 0 <= i < self.subs@.len() implies is_subseq(
                (#[trigger] self.subs@[i]).delivered@ + views_of(self.subs@[i].queue@),
                self.history@,
            ) by {
                let d = old(self).subs@[i].delivered@;
                let vq = views_of(old(self).subs@[i].queue@);
                assert(is_subseq(d + vq, old(self).history@));
                if old(self).subs@[i].active && vq.len() < old(self).cap() {
                    lemma_subseq_push_both(d + vq, old(self).history@, m@);
                    assert((d + vq).push(m@) =~= d + vq.push(m@));
                } else {
                    lemma_subseq_push_right(d + vq, old(self).history@, m@);
                }
            }
        }
    }

    /// Hand out the oldest message waiting on this subscription, if any.
    pub fn recv(&mut self, token: usize) -> (r: Option<Message>)
        requires
            old(self).wf(),
            token < old(self).sub_count(),
        ensures
            final(self).wf(),
            final(self).sub_count() == old(self).sub_count(),
            final(self).history() == old(self).history(),
            final(self).cap() == old(self).cap(),
            final(self).is_active(token as int) == old(self).is_active(token as int),
            forall|i: int| 0 <= i < old(self).sub_count() && i != token ==> final(self).is_active(i) == old(self).is_active(i) && final(self).queue_of(i) == old(self).queue_of(i) && final(self).delivered_of(i) == old(self).delivered_of(i),
            match r {
                Some(m) => old(self).queue_of(token as int).len() > 0 && m@ == old(self).queue_of(token as int)[0] && final(self).queue_of(token as int) == old(self).queue_of(token as int).drop_first() && final(self).delivered_of(token as int) == old(self).delivered_of(token as int).push(m@),
                None => old(self).queue_of(token as int).len() == 0 && final(self).queue_of(token as int) == old(self).queue_of(token as int) && final(self).delivered_of(token as int) == old(self).delivered_of(token as int),
            },
    {
        let mut sub = self.subs.remove(token);
        let r: Option<Message>;
        if sub.queue.len() > 0 {
            let m = sub.queue.remove(0);
            proof {
                let oq = old(self).subs@[token as int].queue@;
                assert(views_of(sub.queue@) =~= views_of(oq).drop_first());
                assert(views_of(oq)[0] == m@);
                sub.delivered@ = sub.delivered@.push(m@);
            }
            r = Some(m);
        } else {
            proof {
                assert(views_of(sub.queue@) =~= Seq::<MessageView>::empty());
            }
            r = None;
        }
        self.subs.insert(token, sub);
        proof {
            assert forall|i: int|
                0 <= i < self.subs@.len() && i != token implies self.subs@[i] == old(
                self,
            ).subs@[i] by {
                assert(self.subs@ =~= old(self).subs@.update(token as int, self.subs@[token as int]));
            }
            let d = old(self).subs@[token as int].delivered@;
            let oq = views_of(old(self).subs@[token as int].queue@);
            let nd = self.subs@[token as int].delivered@;
            let nq = views_of(self.subs@[token as int].queue@);
            if oq.len() > 0 {
                assert(nd + nq =~= d + oq);
            } else {
                assert(nd + nq =~= d + oq);
            }
            assert(is_subseq(d + oq, self.history@));
        }
        r
    }
}

/// Per-subscriber delivery order is publish order: everything a subscriber
/// has been handed, followed by what still waits in its queue, reads off the
/// publish history in order. In particular no subscriber ever sees two
/// messages in the reverse of their publish order.
pub proof fn lemma_delivery_in_publish_order(h: &Hub, i: int)
    requires
        h.wf(),
        0 <= i < h.sub_count(),
    ensures
        is_subseq(h.delivered_of(i) + h.queue_of(i), h.history()),
        is_subseq(h.delivered_of(i), h.history()),
{
    lemma_subseq_prefix(h.delivered_of(i), h.queue_of(i), h.history());
}

/// The chat messages of one sender, in order.
pub open spec fn chats_from(s: Seq<MessageView>, sender: u128) -> Seq<MessageView> {
    s.filter(|m: MessageView| m is Chat && m->Chat_client_id == sender)
}

/// Per-sender ordering: any one sender's chat messages reach each subscriber
/// in the order that sender's messages were published.
pub proof fn lemma_per_sender_order(h: &Hub, i: int, sender: u128)
    requires
        h.wf(),
        0 <= i < h.sub_count(),
    ensures
        is_subseq(chats_from(h.delivered_of(i), sender), chats_from(h.history(), sender)),
{
    lemma_delivery_in_publish_order(h, i);
    lemma_subseq_filter(
        h.delivered_of(i),
        h.history(),
        |m: MessageView| m is Chat && m->Chat_client_id == sender,
    );
}

} // verus!
