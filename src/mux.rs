use crate::channel::{open_channel, send_or_return, share_sender, ChannelReceiver, ChannelSender};
use crate::setup::{check_tags, rejected_with, valid_tags, SetupError};
use crate::interleave::{
    from_part, is_interleaving, lemma_from_part_contains, lemma_from_part_push, lemma_interleaving_multiset,
    union_of,
};
use crate::tagged::{
    accepted_flags, attempted, delivered, lemma_nothing_refused, payloads_tagged, refused, wrap_all, Attempt, SendFailure,
    TaggedValue,
};
use vstd::prelude::*;

verus! {

/// The forwarding path of one input of a multiplexer: it wraps each payload
/// with its tag and sends it into the shared output channel.
///
/// It keeps, as ghost state, every payload handed to it and every send
/// attempt it made, with whether the channel took it.
#[verifier::reject_recursive_types(P)]
pub struct MuxRoute<P> {
    tag: usize,
    sender: ChannelSender<TaggedValue<P>>,
    input: Ghost<Seq<P>>,
    attempts: Ghost<Seq<Attempt<TaggedValue<P>>>>,
}

/// The failures among `attempts`, as the error handler gets them.
pub open spec fn failures_of<P>(attempts: Seq<Attempt<TaggedValue<P>>>) -> Seq<SendFailure<P>> {
    refused(attempts).map_values(|v: TaggedValue<P>| SendFailure { tag: v.tag, payload: v.payload })
}

impl<P> MuxRoute<P> {
    /// The tag this route wraps its payloads with.
    pub closed spec fn route_tag(&self) -> usize {
        self.tag
    }

    /// Every payload handed over so far, in order.
    pub closed spec fn input(&self) -> Seq<P> {
        self.input@
    }

    /// The send attempts made so far, in order.
    pub closed spec fn attempts(&self) -> Seq<Attempt<TaggedValue<P>>> {
        self.attempts@
    }

    /// The channel that the route's sending half belongs to.
    pub closed spec fn channel_id(&self) -> int {
        self.sender.id()
    }

    /// Every value handed to the route's sending half, in order.
    pub closed spec fn handed(&self) -> Seq<TaggedValue<P>> {
        self.sender.handed()
    }

    /// For every value handed to the route's sending half, whether the
    /// channel took it.
    pub closed spec fn accepted(&self) -> Seq<bool> {
        self.sender.accepted()
    }

    pub closed spec fn wf(&self) -> bool {
        &&& attempted(self.attempts@) == wrap_all(self.input@, self.tag)
        &&& self.sender.handed() == attempted(self.attempts@)
        &&& self.sender.accepted() == accepted_flags(self.attempts@)
    }

    /// What a well-formed route has handed to its channel: each payload it
    /// was given, wrapped with its tag, in order; its attempts record those
    /// values and what the channel answered to each.
    pub proof fn lemma_handed(&self)
        requires
            self.wf(),
        ensures
            self.handed() == wrap_all(self.input(), self.route_tag()),
            attempted(self.attempts()) == self.handed(),
            accepted_flags(self.attempts()) == self.accepted(),
    {
    }

    /// The tag this route wraps its payloads with.
    pub fn tag(&self) -> (r: usize)
        ensures
            r == self.route_tag(),
    {
        self.tag
    }

    /// Wraps `payload` with the route's tag and sends it. A closed output
    /// channel gives the payload back, with the tag, for the error handler.
    pub fn forward(&mut self, payload: P) -> (r: Option<SendFailure<P>>)
        requires
            old(self).wf(),
        ensures
            final(self).wf(),
            final(self).route_tag() == old(self).route_tag(),
            final(self).channel_id() == old(self).channel_id(),
            final(self).handed() == old(self).handed().push(TaggedValue { tag: old(self).route_tag(), payload }),
            final(self).accepted() == old(self).accepted().push(r is None),
            final(self).input() == old(self).input().push(payload),
            final(self).attempts() == old(self).attempts().push(
                Attempt { value: TaggedValue { tag: old(self).route_tag(), payload }, delivered: r is None },
            ),
            r matches Some(f) ==> f.tag == old(self).route_tag() && f.payload == payload,
    {
        let ghost p = payload;
        let ghost old_attempts = self.attempts@;
        let ghost old_input = self.input@;
        let res = send_or_return(&mut self.sender, TaggedValue { tag: self.tag, payload });
        let ghost v = TaggedValue { tag: self.tag, payload: p };
        let r = match res {
            Ok(()) => None,
            Err(back) => Some(SendFailure { tag: back.tag, payload: back.payload }),
        };
        proof {
            let a = Attempt { value: v, delivered: r is None };
            self.input@ = old_input.push(p);
            self.attempts@ = old_attempts.push(a);
            assert(attempted(self.attempts@) =~= attempted(old_attempts).push(v));
            assert(accepted_flags(self.attempts@) =~= accepted_flags(old_attempts).push(r is None));
            assert(wrap_all(self.input@, self.tag) =~= wrap_all(old_input, self.tag).push(v));
        }
        r
    }

    /// Forwards each payload of `payloads` in turn, as `forward` does, and
    /// gives the failures in the order they occurred.
    pub fn forward_all(&mut self, payloads: Vec<P>) -> (r: Vec<SendFailure<P>>)
        requires
            old(self).wf(),
        ensures
            final(self).wf(),
            final(self).route_tag() == old(self).route_tag(),
            final(self).input() == old(self).input() + payloads@,
            final(self).attempts().len() == old(self).attempts().len() + payloads@.len(),
            final(self).attempts().take(old(self).attempts().len() as int) == old(self).attempts(),
            r@ == failures_of(final(self).attempts().skip(old(self).attempts().len() as int)),
            attempted(final(self).attempts().skip(old(self).attempts().len() as int)) == wrap_all(
                payloads@,
                old(self).route_tag(),
            ),
            final(self).channel_id() == old(self).channel_id(),
            final(self).handed() == old(self).handed() + wrap_all(payloads@, old(self).route_tag()),
            final(self).accepted() == old(self).accepted() + accepted_flags(
                final(self).attempts().skip(old(self).attempts().len() as int),
            ),
            forall|k: int| 0 <= k < r@.len() ==> (#[trigger] r@[k]).tag == old(self).route_tag(),
    {
        let ghost all = payloads@;
        let ghost base = self.attempts@.len();
        let total: usize = payloads.len();
        let mut payloads = payloads;
        let mut pending: Vec<P> = Vec::new();
        while payloads.len() > 0
            invariant
                all.len() == total,
                payloads@.len() + pending@.len() == all.len(),
                payloads@ == all.take(payloads@.len() as int),
                forall|j: int| 0 <= j < pending@.len() ==> #[trigger] pending@[j] == all[all.len() - 1 - j],
            decreases payloads@.len(),
        {
            let p = payloads.pop().unwrap();
            pending.push(p);
            assert(payloads@ =~= all.take(payloads@.len() as int));
        }
        let mut failures: Vec<SendFailure<P>> = Vec::new();
        let mut done: usize = 0;
        assert(attempted(self.attempts().skip(base as int)) =~= wrap_all(all.take(0), self.route_tag()));
        assert(self.handed() =~= old(self).handed() + wrap_all(all.take(0), self.route_tag()));
        assert(self.accepted() =~= old(self).accepted() + accepted_flags(self.attempts().skip(base as int)));
        while pending.len() > 0
            invariant
                self.wf(),
                self.route_tag() == old(self).route_tag(),
                done + pending@.len() == all.len(),
                all.len() == total,
                self.input() == old(self).input() + all.take(done as int),
                self.attempts().len() == base + done,
                self.attempts().take(base as int) == old(self).attempts(),
                base == old(self).attempts().len(),
                failures@ == failures_of(self.attempts().skip(base as int)),
                attempted(self.attempts().skip(base as int)) == wrap_all(all.take(done as int), self.route_tag()),
                self.channel_id() == old(self).channel_id(),
                self.handed() == old(self).handed() + wrap_all(all.take(done as int), self.route_tag()),
                self.accepted() == old(self).accepted() + accepted_flags(self.attempts().skip(base as int)),
                forall|k: int| 0 <= k < failures@.len() ==> (#[trigger] failures@[k]).tag == self.route_tag(),
                forall|j: int| 0 <= j < pending@.len() ==> #[trigger] pending@[j] == all[all.len() - 1 - j],
            decreases pending@.len(),
        {
            let p = pending.pop().unwrap();
            assert(p == all[done as int]);
            let ghost before = self.attempts();
            let f = self.forward(p);
            proof {
                let a = self.attempts().last();
                let t = self.route_tag();
                let v = TaggedValue { tag: t, payload: p };
                assert(wrap_all(all.take(done + 1), t) =~= wrap_all(all.take(done as int), t).push(v)) by {
                    assert(all.take(done + 1) =~= all.take(done as int).push(p));
                }
                assert(attempted(self.attempts().skip(base as int)) =~= attempted(before.skip(base as int)).push(v));
                assert(self.handed() =~= old(self).handed() + wrap_all(all.take(done + 1), t));
                assert(accepted_flags(self.attempts().skip(base as int)) =~= accepted_flags(before.skip(base as int)).push(
                    a.delivered,
                ));
                assert(self.accepted() =~= old(self).accepted() + accepted_flags(self.attempts().skip(base as int)));
                assert(self.attempts().skip(base as int) =~= before.skip(base as int).push(a));
                assert(self.attempts().take(base as int) =~= before.take(base as int));
                lemma_failures_of_push(before.skip(base as int), a);
                assert(all.take(done + 1) =~= all.take(done as int).push(all[done as int]));
            }
            match f {
                Some(f) => failures.push(f),
                None => {},
            }
            done = done + 1;
        }
        assert(all.take(done as int) =~= all);
        failures
    }
}

/// Sets up a multiplexer over the inputs tagged `tags`, of a type with
/// `variant_count` variants: one route per input, in the order of `tags`,
/// all sending into one channel whose receiving half is returned. An
/// invalid declaration is rejected before the channel is made.
pub fn mux<P>(tags: Vec<usize>, variant_count: usize) -> (r: Result<
    (Vec<MuxRoute<P>>, ChannelReceiver<TaggedValue<P>>),
    SetupError,
>)
    ensures
        r is Ok <==> valid_tags(tags@, variant_count, true),
        r matches Err(e) ==> rejected_with(tags@, variant_count, true, e),
        r matches Ok((routes, receiver)) ==> {
            &&& routes@.len() == tags@.len()
            &&& forall|i: int| 0 <= i < tags@.len() ==> {
                &&& (#[trigger] routes@[i]).wf()
                &&& routes@[i].route_tag() == tags@[i]
                &&& routes@[i].input().len() == 0
                &&& routes@[i].attempts().len() == 0
                &&& routes@[i].handed().len() == 0
                &&& routes@[i].accepted().len() == 0
                &&& routes@[i].channel_id() == receiver.id()
            }
        },
{
    match check_tags(&tags, variant_count, true) {
        Err(e) => Err(e),
        Ok(()) => {
            let (tx, rx) = open_channel();
            let mut routes: Vec<MuxRoute<P>> = Vec::new();
            let mut i: usize = 0;
            while i < tags.len()
                invariant
                    i <= tags@.len(),
                    routes@.len() == i,
                    tx.id() == rx.id(),
                    forall|k: int| 0 <= k < i ==> {
                        &&& (#[trigger] routes@[k]).wf()
                        &&& routes@[k].route_tag() == tags@[k]
                        &&& routes@[k].input().len() == 0
                        &&& routes@[k].attempts().len() == 0
                        &&& routes@[k].handed().len() == 0
                        &&& routes@[k].accepted().len() == 0
                        &&& routes@[k].channel_id() == rx.id()
                    },
                decreases tags@.len() - i,
            {
                let route = MuxRoute {
                    tag: tags[i],
                    sender: share_sender(&tx),
                    input: Ghost(Seq::empty()),
                    attempts: Ghost(Seq::empty()),
                };
                assert(attempted(route.attempts@) =~= wrap_all(route.input@, route.tag));
                assert(attempted(route.attempts@) =~= route.sender.handed());
                assert(accepted_flags(route.attempts@) =~= route.sender.accepted());
                routes.push(route);
                i = i + 1;
            }
            Ok((routes, rx))
        },
    }
}

/// What each route delivered into the shared channel, in route order.
pub open spec fn deliveries<P>(routes: Seq<MuxRoute<P>>) -> Seq<Seq<TaggedValue<P>>> {
    routes.map_values(|r: MuxRoute<P>| delivered(r.attempts()))
}

/// What each route was given, wrapped with its tag, in route order.
pub open spec fn wrapped_inputs<P>(routes: Seq<MuxRoute<P>>) -> Seq<Seq<TaggedValue<P>>> {
    routes.map_values(|r: MuxRoute<P>| wrap_all(r.input(), r.route_tag()))
}

/// The payloads of a sequence of tagged values.
pub open spec fn payloads<P>(values: Seq<TaggedValue<P>>) -> Seq<P> {
    values.map_values(|v: TaggedValue<P>| v.payload)
}

/// Fan-in. The shared channel hands out what the routes delivered, merged
/// in some order that keeps each route's own order. Whatever that order:
/// the output holds exactly what the routes delivered, counted with
/// multiplicity; the payloads under one route's tag come out in the order
/// the route delivered them; and where no send of a route failed, those are
/// all the payloads handed to the route. Where no send of any route failed,
/// the output holds exactly the inputs' payloads, each wrapped with its
/// route's tag, counted with multiplicity.
pub proof fn lemma_fan_in<P>(routes: Seq<MuxRoute<P>>, out: Seq<TaggedValue<P>>, src: Seq<int>)
    requires
        forall|i: int| 0 <= i < routes.len() ==> (#[trigger] routes[i]).wf(),
        forall|i: int, j: int|
            0 <= i < routes.len() && 0 <= j < routes.len() && i != j
            ==> (#[trigger] routes[i]).route_tag() != (#[trigger] routes[j]).route_tag(),
        is_interleaving(out, deliveries(routes), src),
    ensures
        out.to_multiset() == union_of(deliveries(routes)),
        forall|i: int| 0 <= i < routes.len() ==> payloads_tagged(out, (#[trigger] routes[i]).route_tag())
            == payloads(delivered(routes[i].attempts())),
        forall|i: int| 0 <= i < routes.len() && refused((#[trigger] routes[i]).attempts()).len() == 0
            ==> payloads_tagged(out, routes[i].route_tag()) == routes[i].input(),
        (forall|i: int| 0 <= i < routes.len() ==> refused((#[trigger] routes[i]).attempts()).len() == 0)
            ==> out.to_multiset() == union_of(wrapped_inputs(routes)),
{
    lemma_interleaving_multiset(out, deliveries(routes), src);
    assert forall|k: int| 0 <= k < out.len() implies (#[trigger] out[k]).tag == routes[src[k]].route_tag() by {
        let p = src[k];
        lemma_from_part_contains(out, src, k);
        assert(from_part(out, src, p) == deliveries(routes)[p]);
        lemma_delivered_tag(routes[p]);
    }
    assert forall|i: int| 0 <= i < routes.len() implies payloads_tagged(out, (#[trigger] routes[i]).route_tag())
        == payloads(delivered(routes[i].attempts())) by {
        lemma_select_tag(out, src, i, routes[i].route_tag());
        assert(from_part(out, src, i) == deliveries(routes)[i]);
    }
    assert forall|i: int| 0 <= i < routes.len() && refused((#[trigger] routes[i]).attempts()).len() == 0
        implies payloads_tagged(out, routes[i].route_tag()) == routes[i].input() by {
        let r = routes[i];
        lemma_nothing_refused(r.attempts());
        assert(payloads(wrap_all(r.input(), r.route_tag())) =~= r.input());
    }
    if forall|i: int| 0 <= i < routes.len() ==> refused((#[trigger] routes[i]).attempts()).len() == 0 {
        assert forall|i: int| 0 <= i < routes.len() implies #[trigger] deliveries(routes)[i]
            == wrapped_inputs(routes)[i] by {
            lemma_nothing_refused(routes[i].attempts());
        }
        assert(deliveries(routes) =~= wrapped_inputs(routes));
    }
}

/// Every value a route delivered carries the route's tag.
proof fn lemma_delivered_tag<P>(r: MuxRoute<P>)
    requires
        r.wf(),
    ensures
        forall|x: TaggedValue<P>| delivered(r.attempts()).contains(x) ==> x.tag == r.route_tag(),
{
    assert forall|j: int| 0 <= j < r.attempts().len() implies (#[trigger] r.attempts()[j]).value.tag
        == r.route_tag() by {
        assert(attempted(r.attempts())[j] == r.attempts()[j].value);
        assert(attempted(r.attempts()).len() == r.attempts().len());
        assert(wrap_all(r.input(), r.route_tag()).len() == r.input().len());
        assert(wrap_all(r.input(), r.route_tag())[j].tag == r.route_tag());
    }
    lemma_delivered_from(r.attempts());
}

proof fn lemma_delivered_from<T>(a: Seq<Attempt<T>>)
    ensures
        forall|x: T| delivered(a).contains(x) ==> exists|j: int| 0 <= j < a.len() && (#[trigger] a[j]).value == x,
    decreases a.len(),
{
    if a.len() > 0 {
        lemma_delivered_from(a.drop_last());
        assert forall|x: T| delivered(a).contains(x) implies exists|j: int| 0 <= j < a.len() && (#[trigger] a[j]).value
            == x by {
            if delivered(a.drop_last()).contains(x) {
                let j = choose|j: int| 0 <= j < a.drop_last().len() && (#[trigger] a.drop_last()[j]).value == x;
                assert(a[j] == a.drop_last()[j]);
            } else {
                assert(a[a.len() - 1].value == x);
            }
        }
    }
}

/// Taking the values of one tag from an interleaving whose elements carry
/// the tag of their part, where only part `i` has tag `t`.
proof fn lemma_select_tag<P>(out: Seq<TaggedValue<P>>, src: Seq<int>, i: int, t: usize)
    requires
        src.len() == out.len(),
        forall|k: int| 0 <= k < out.len() ==> ((#[trigger] out[k]).tag == t <==> src[k] == i),
    ensures
        payloads_tagged(out, t) == payloads(from_part(out, src, i)),
    decreases out.len(),
{
    if out.len() == 0 {
        assert(payloads(from_part(out, src, i)) =~= Seq::empty());
    } else {
        let init = out.drop_last();
        let sinit = src.drop_last();
        assert(init.push(out.last()) =~= out);
        assert(sinit.push(src.last()) =~= src);
        lemma_from_part_push(init, sinit, out.last(), src.last());
        assert forall|k: int| 0 <= k < init.len() implies ((#[trigger] init[k]).tag == t <==> sinit[k] == i) by {
            assert(init[k] == out[k]);
            assert(sinit[k] == src[k]);
        }
        lemma_select_tag(init, sinit, i, t);
        assert(out[out.len() - 1].tag == t <==> src[src.len() - 1] == i);
        assert(payloads(from_part(out, src, i)) =~= if src.last() == i {
            payloads(from_part(init, sinit, i)).push(out.last().payload)
        } else {
            payloads(from_part(init, sinit, i))
        });
    }
}

proof fn lemma_failures_of_push<P>(attempts: Seq<Attempt<TaggedValue<P>>>, a: Attempt<TaggedValue<P>>)
    ensures
        failures_of(attempts.push(a)) == if a.delivered {
            failures_of(attempts)
        } else {
            failures_of(attempts).push(SendFailure { tag: a.value.tag, payload: a.value.payload })
        },
{
    assert(attempts.push(a).drop_last() =~= attempts);
    assert(failures_of(attempts.push(a)) =~= if a.delivered {
        failures_of(attempts)
    } else {
        failures_of(attempts).push(SendFailure { tag: a.value.tag, payload: a.value.payload })
    });
}

} // verus!
