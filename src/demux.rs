use crate::channel::{open_channel, send_or_return, ChannelReceiver, ChannelSender};
use crate::setup::{check_tags, covers, position, rejected_with, valid_tags, SetupError};
use crate::tagged::{
    attempted, delivered, lemma_nothing_refused, accepted_flags, payloads_tagged, refused, Attempt, SendFailure,
    TaggedValue,
};
use vstd::prelude::*;

verus! {

/// What became of one value handed to a demultiplexer.
#[derive(Debug)]
pub enum Dispatch<P> {
    /// The channel at this position took the payload.
    Delivered(usize),
    /// The channel of the value's tag was closed; the payload comes back.
    Failed(SendFailure<P>),
    /// The value's tag has no channel and unmatched values are discarded.
    Discarded,
}

/// `d` is what may become of `item` under `tags`.
pub open spec fn dispatch_fits<P>(tags: Seq<usize>, item: TaggedValue<P>, d: Dispatch<P>) -> bool {
    match d {
        Dispatch::Delivered(i) => i < tags.len() && tags[i as int] == item.tag,
        Dispatch::Failed(f) => tags.contains(item.tag) && f.tag == item.tag && f.payload == item.payload,
        Dispatch::Discarded => !tags.contains(item.tag),
    }
}

/// The attempts on the channel of `tag` that `outcomes` record for `items`:
/// one per value with that tag, in order, delivered where its outcome is.
pub open spec fn attempts_on<P>(items: Seq<TaggedValue<P>>, outcomes: Seq<Dispatch<P>>, tag: usize) -> Seq<
    Attempt<P>,
>
    decreases items.len(),
{
    if items.len() == 0 || outcomes.len() != items.len() {
        Seq::empty()
    } else {
        let before = attempts_on(items.drop_last(), outcomes.drop_last(), tag);
        if items.last().tag == tag {
            before.push(Attempt { value: items.last().payload, delivered: outcomes.last() is Delivered })
        } else {
            before
        }
    }
}

/// The payloads that `outcomes` hand back for the error handler under
/// `tag`, in order.
pub open spec fn reported<P>(outcomes: Seq<Dispatch<P>>, tag: usize) -> Seq<P>
    decreases outcomes.len(),
{
    if outcomes.len() == 0 {
        Seq::empty()
    } else {
        let before = reported(outcomes.drop_last(), tag);
        match outcomes.last() {
            Dispatch::Failed(f) => if f.tag == tag {
                before.push(f.payload)
            } else {
                before
            },
            _ => before,
        }
    }
}

/// Routes tagged values to one channel per declared tag.
///
/// It keeps, as ghost state, every value handed to it and, per channel, every
/// payload it tried to send there and whether the channel took it.
#[verifier::reject_recursive_types(P)]
pub struct Demultiplexer<P> {
    tags: Vec<usize>,
    variant_count: usize,
    discard_rest: bool,
    senders: Vec<ChannelSender<P>>,
    input: Ghost<Seq<TaggedValue<P>>>,
    attempts: Ghost<Seq<Seq<Attempt<P>>>>,
}

impl<P> Demultiplexer<P> {
    /// The declared tags; the channel at position `i` serves `tags()[i]`.
    pub closed spec fn tags(&self) -> Seq<usize> {
        self.tags@
    }

    /// How many variants the tagged type has: tags run below it.
    pub closed spec fn variant_count(&self) -> usize {
        self.variant_count
    }

    /// Whether values whose tag has no channel are discarded.
    pub closed spec fn discard_rest(&self) -> bool {
        self.discard_rest
    }

    /// Every value handed over so far, in order.
    pub closed spec fn input(&self) -> Seq<TaggedValue<P>> {
        self.input@
    }

    /// Per channel, the send attempts made on it, in order.
    pub closed spec fn attempts(&self) -> Seq<Seq<Attempt<P>>> {
        self.attempts@
    }

    /// Per channel, the channel that its sending half belongs to.
    pub closed spec fn channel_ids(&self) -> Seq<int> {
        self.senders@.map_values(|s: ChannelSender<P>| s.id())
    }

    /// Per channel, every payload handed to its sending half, in order.
    pub closed spec fn handed(&self) -> Seq<Seq<P>> {
        self.senders@.map_values(|s: ChannelSender<P>| s.handed())
    }

    /// Per channel, for every payload handed to its sending half, whether
    /// the channel took it.
    pub closed spec fn accepted(&self) -> Seq<Seq<bool>> {
        self.senders@.map_values(|s: ChannelSender<P>| s.accepted())
    }

    pub closed spec fn wf(&self) -> bool {
        &&& valid_tags(self.tags@, self.variant_count, self.discard_rest)
        &&& self.senders@.len() == self.tags@.len()
        &&& self.attempts@.len() == self.tags@.len()
        &&& forall|i: int| 0 <= i < self.tags@.len()
            ==> (#[trigger] self.senders@[i]).handed() == attempted(self.attempts@[i])
            && self.senders@[i].accepted() == accepted_flags(self.attempts@[i])
        &&& forall|i: int| 0 <= i < self.tags@.len()
            ==> attempted(#[trigger] self.attempts@[i]) == payloads_tagged(self.input@, self.tags@[i])
        &&& forall|k: int| 0 <= k < self.input@.len() ==> (#[trigger] self.input@[k]).tag < self.variant_count
    }

    /// The number of output channels.
    pub fn channel_count(&self) -> (r: usize)
        requires
            self.wf(),
        ensures
            r == self.tags().len(),
    {
        self.tags.len()
    }

    /// Routes one value: its payload goes to the channel of its tag. A closed
    /// channel gives the payload back, with the tag, for the error handler.
    /// A value whose tag has no channel is discarded, which can happen only
    /// when that was asked for.
    pub fn dispatch(&mut self, item: TaggedValue<P>) -> (r: Dispatch<P>)
        requires
            old(self).wf(),
            item.tag < old(self).variant_count(),
        ensures
            final(self).wf(),
            final(self).tags() == old(self).tags(),
            final(self).variant_count() == old(self).variant_count(),
            final(self).discard_rest() == old(self).discard_rest(),
            final(self).input() == old(self).input().push(item),
            final(self).channel_ids() == old(self).channel_ids(),
            final(self).handed().len() == old(self).handed().len(),
            forall|j: int| 0 <= j < old(self).tags().len() ==> #[trigger] final(self).handed()[j] == if old(
                self,
            ).tags()[j] == item.tag {
                old(self).handed()[j].push(item.payload)
            } else {
                old(self).handed()[j]
            },
            final(self).accepted().len() == old(self).accepted().len(),
            forall|j: int| 0 <= j < old(self).tags().len() ==> #[trigger] final(self).accepted()[j] == if old(
                self,
            ).tags()[j] == item.tag {
                old(self).accepted()[j].push(r is Delivered)
            } else {
                old(self).accepted()[j]
            },
            dispatch_fits(old(self).tags(), item, r),
            r is Discarded ==> final(self).attempts() == old(self).attempts(),
            r matches Dispatch::Delivered(i) ==> final(self).attempts() == old(self).attempts().update(
                i as int,
                old(self).attempts()[i as int].push(Attempt { value: item.payload, delivered: true }),
            ),
            r is Failed ==> exists|i: int| 0 <= i < old(self).tags().len()
                && old(self).tags()[i] == item.tag
                && final(self).attempts() == old(self).attempts().update(
                    i,
                    old(self).attempts()[i].push(Attempt { value: item.payload, delivered: false }),
                ),
    {
        let ghost whole = item;
        let TaggedValue { tag, payload } = item;
        proof {
            lemma_payloads_tagged_push(self.input@, whole);
        }
        match position(&self.tags, tag) {
            None => {
                proof {
                    self.input@ = self.input@.push(whole);
                    assert forall|j: int| 0 <= j < self.tags@.len() implies self.tags@[j] != whole.tag by {
                        if self.tags@[j] == whole.tag {
                            assert(self.tags@.contains(whole.tag));
                        }
                    }
                }
                Dispatch::Discarded
            },
            Some(i) => {
                let ghost old_input = self.input@;
                let ghost old_attempts = self.attempts@;
                let ghost old_senders = self.senders@;
                let sent = send_or_return(&mut self.senders[i], payload);
                proof {
                    assert(self.senders@ == old_senders.update(i as int, self.senders@[i as int]));
                    assert forall|j: int| 0 <= j < self.tags@.len() && j != i implies self.tags@[j] != whole.tag by {
                        assert(self.tags@.no_duplicates());
                    }
                    assert(self.channel_ids() =~= old(self).channel_ids());
                    assert(self.handed() =~= old(self).handed().update(
                        i as int,
                        old(self).handed()[i as int].push(whole.payload),
                    ));
                    assert(self.accepted() =~= old(self).accepted().update(
                        i as int,
                        old(self).accepted()[i as int].push(sent is Ok),
                    ));
                }
                match sent {
                    Ok(()) => {
                        proof {
                            let a = Attempt { value: whole.payload, delivered: true };
                            lemma_attempted_push(old_attempts[i as int], a);
                            assert(accepted_flags(old_attempts[i as int].push(a)) =~= accepted_flags(old_attempts[i as int]).push(a.delivered));
                            self.input@ = old_input.push(whole);
                            self.attempts@ = old_attempts.update(i as int, old_attempts[i as int].push(a));
                            self.lemma_other_channels_unchanged(old_input, old_attempts, whole, i as int);
                            self.lemma_handed_matches(old_senders, old_attempts, i as int);
                        }
                        Dispatch::Delivered(i)
                    },
                    Err(back) => {
                        proof {
                            let a = Attempt { value: whole.payload, delivered: false };
                            lemma_attempted_push(old_attempts[i as int], a);
                            assert(accepted_flags(old_attempts[i as int].push(a)) =~= accepted_flags(old_attempts[i as int]).push(a.delivered));
                            self.input@ = old_input.push(whole);
                            self.attempts@ = old_attempts.update(i as int, old_attempts[i as int].push(a));
                            self.lemma_other_channels_unchanged(old_input, old_attempts, whole, i as int);
                            self.lemma_handed_matches(old_senders, old_attempts, i as int);
                            assert(old_attempts[i as int] == old(self).attempts()[i as int]);
                            assert(old(self).tags()[i as int] == whole.tag);
                        }
                        Dispatch::Failed(SendFailure { tag, payload: back })
                    },
                }
            },
        }
    }

    /// Routes each value of `items` in turn, as `dispatch` does, and gives
    /// what became of each, in the same order.
    pub fn dispatch_all(&mut self, items: Vec<TaggedValue<P>>) -> (r: Vec<Dispatch<P>>)
        requires
            old(self).wf(),
            forall|k: int| 0 <= k < items@.len() ==> (#[trigger] items@[k]).tag < old(self).variant_count(),
        ensures
            final(self).wf(),
            final(self).tags() == old(self).tags(),
            final(self).variant_count() == old(self).variant_count(),
            final(self).discard_rest() == old(self).discard_rest(),
            final(self).input() == old(self).input() + items@,
            r@.len() == items@.len(),
            forall|k: int| 0 <= k < items@.len() ==> dispatch_fits(old(self).tags(), items@[k], #[trigger] r@[k]),
            forall|i: int| 0 <= i < old(self).tags().len() ==> #[trigger] final(self).attempts()[i]
                == old(self).attempts()[i] + attempts_on(items@, r@, old(self).tags()[i]),
            final(self).channel_ids() == old(self).channel_ids(),
            final(self).handed().len() == old(self).handed().len(),
            forall|i: int| 0 <= i < old(self).tags().len() ==> #[trigger] final(self).handed()[i]
                == old(self).handed()[i] + payloads_tagged(items@, old(self).tags()[i]),
            final(self).accepted().len() == old(self).accepted().len(),
            forall|i: int| 0 <= i < old(self).tags().len() ==> #[trigger] final(self).accepted()[i]
                == old(self).accepted()[i] + accepted_flags(attempts_on(items@, r@, old(self).tags()[i])),
    {
        let ghost all = items@;
        let mut items = items;
        let mut pending: Vec<TaggedValue<P>> = Vec::new();
        while items.len() > 0
            invariant
                items@.len() + pending@.len() == all.len(),
                items@ == all.take(items@.len() as int),
                forall|j: int| 0 <= j < pending@.len() ==> #[trigger] pending@[j] == all[all.len() - 1 - j],
            decreases items@.len(),
        {
            let item = items.pop().unwrap();
            pending.push(item);
            assert(items@ =~= all.take(items@.len() as int));
        }
        let mut results: Vec<Dispatch<P>> = Vec::new();
        assert forall|i: int| 0 <= i < old(self).tags().len() implies #[trigger] self.attempts()[i]
            == old(self).attempts()[i] + attempts_on(all.take(0), results@, old(self).tags()[i])
            && self.handed()[i] == old(self).handed()[i] + payloads_tagged(all.take(0), old(self).tags()[i]) by {
            assert(old(self).attempts()[i] + Seq::<Attempt<P>>::empty() =~= old(self).attempts()[i]);
            assert(old(self).handed()[i] + Seq::<P>::empty() =~= old(self).handed()[i]);
        }
        while pending.len() > 0
            invariant
                self.wf(),
                self.tags() == old(self).tags(),
                self.variant_count() == old(self).variant_count(),
                self.discard_rest() == old(self).discard_rest(),
                results@.len() + pending@.len() == all.len(),
                self.input() == old(self).input() + all.take(results@.len() as int),
                forall|j: int| 0 <= j < pending@.len() ==> #[trigger] pending@[j] == all[all.len() - 1 - j],
                forall|k: int| 0 <= k < all.len() ==> (#[trigger] all[k]).tag < old(self).variant_count(),
                forall|k: int| 0 <= k < results@.len() ==> dispatch_fits(old(self).tags(), all[k], #[trigger] results@[k]),
                forall|i: int| 0 <= i < old(self).tags().len() ==> #[trigger] self.attempts()[i]
                    == old(self).attempts()[i] + attempts_on(all.take(results@.len() as int), results@, old(self).tags()[i]),
                self.channel_ids() == old(self).channel_ids(),
                self.handed().len() == old(self).handed().len(),
                forall|i: int| 0 <= i < old(self).tags().len() ==> #[trigger] self.handed()[i]
                    == old(self).handed()[i] + payloads_tagged(all.take(results@.len() as int), old(self).tags()[i]),
            decreases pending@.len(),
        {
            let ghost k = results@.len() as int;
            let ghost before = self.attempts();
            let ghost before_results = results@;
            let item = pending.pop().unwrap();
            assert(item == all[k]);
            let d = self.dispatch(item);
            results.push(d);
            proof {
                assert(all.take(k + 1) =~= all.take(k).push(all[k]));
                assert(all.take(k + 1).drop_last() =~= all.take(k));
                assert(results@.drop_last() =~= before_results);
                lemma_payloads_tagged_push(all.take(k), all[k]);
                assert forall|i: int| 0 <= i < old(self).tags().len() implies #[trigger] self.handed()[i]
                    == old(self).handed()[i] + payloads_tagged(all.take(k + 1), old(self).tags()[i]) by {
                    let t = old(self).tags()[i];
                    if all[k].tag == t {
                        assert(old(self).handed()[i] + payloads_tagged(all.take(k), t).push(all[k].payload)
                            =~= (old(self).handed()[i] + payloads_tagged(all.take(k), t)).push(all[k].payload));
                    }
                }
                assert forall|i: int| 0 <= i < old(self).tags().len() implies #[trigger] self.attempts()[i]
                    == old(self).attempts()[i] + attempts_on(all.take(k + 1), results@, old(self).tags()[i]) by {
                    let t = old(self).tags()[i];
                    let prev = attempts_on(all.take(k), before_results, t);
                    if all[k].tag == t {
                        let a = Attempt { value: all[k].payload, delivered: d is Delivered };
                        assert(self.attempts()[i] == before[i].push(a)) by {
                            if d is Failed {
                                let j = choose|j: int| 0 <= j < old(self).tags().len()
                                    && old(self).tags()[j] == all[k].tag
                                    && self.attempts() == before.update(j, before[j].push(
                                        Attempt { value: all[k].payload, delivered: false },
                                    ));
                                assert(old(self).tags().no_duplicates());
                                assert(j == i);
                            } else if d is Discarded {
                                assert(old(self).tags().contains(t));
                            }
                        }
                        assert(old(self).attempts()[i] + prev.push(a) =~= (old(self).attempts()[i] + prev).push(a));
                    } else {
                        assert(self.attempts()[i] == before[i]) by {
                            if d is Failed {
                                let j = choose|j: int| 0 <= j < old(self).tags().len()
                                    && old(self).tags()[j] == all[k].tag
                                    && self.attempts() == before.update(j, before[j].push(
                                        Attempt { value: all[k].payload, delivered: false },
                                    ));
                                assert(j != i);
                            }
                        }
                    }
                }
            }
        }
        assert(all.take(all.len() as int) =~= all);
        proof {
            assert forall|i: int| 0 <= i < old(self).tags().len() implies #[trigger] self.accepted()[i]
                == old(self).accepted()[i] + accepted_flags(attempts_on(all, results@, old(self).tags()[i])) by {
                let added = attempts_on(all, results@, old(self).tags()[i]);
                assert(self.attempts()[i] == old(self).attempts()[i] + added);
                assert(self.accepted()[i] == self.senders@[i].accepted());
                assert(old(self).accepted()[i] == old(self).senders@[i].accepted());
                assert(accepted_flags(old(self).attempts()[i] + added) =~= accepted_flags(old(self).attempts()[i]) + accepted_flags(
                    added,
                ));
            }
        }
        results
    }

    proof fn lemma_handed_matches(
        &self,
        old_senders: Seq<ChannelSender<P>>,
        old_attempts: Seq<Seq<Attempt<P>>>,
        i: int,
    )
        requires
            0 <= i < self.tags@.len(),
            old_senders.len() == self.tags@.len(),
            old_attempts.len() == self.tags@.len(),
            self.senders@ == old_senders.update(i, self.senders@[i]),
            self.attempts@ == old_attempts.update(i, self.attempts@[i]),
            forall|j: int| 0 <= j < self.tags@.len()
                ==> (#[trigger] old_senders[j]).handed() == attempted(old_attempts[j])
                && old_senders[j].accepted() == accepted_flags(old_attempts[j]),
            self.senders@[i].handed() == attempted(self.attempts@[i]),
            self.senders@[i].accepted() == accepted_flags(self.attempts@[i]),
        ensures
            forall|j: int| 0 <= j < self.tags@.len()
                ==> (#[trigger] self.senders@[j]).handed() == attempted(self.attempts@[j])
                && self.senders@[j].accepted() == accepted_flags(self.attempts@[j]),
    {
        assert forall|j: int| 0 <= j < self.tags@.len() implies (#[trigger] self.senders@[j]).handed()
            == attempted(self.attempts@[j]) && self.senders@[j].accepted() == accepted_flags(self.attempts@[j]) by {
            if j != i {
                assert(self.senders@[j] == old_senders[j]);
                assert(self.attempts@[j] == old_attempts[j]);
            }
        }
    }

    proof fn lemma_other_channels_unchanged(
        &self,
        old_input: Seq<TaggedValue<P>>,
        old_attempts: Seq<Seq<Attempt<P>>>,
        item: TaggedValue<P>,
        i: int,
    )
        requires
            0 <= i < self.tags@.len(),
            self.tags@[i] == item.tag,
            self.tags@.no_duplicates(),
            old_attempts.len() == self.tags@.len(),
            self.input@ == old_input.push(item),
            forall|j: int| 0 <= j < self.tags@.len()
                ==> attempted(#[trigger] old_attempts[j]) == payloads_tagged(old_input, self.tags@[j]),
            attempted(self.attempts@[i]) == payloads_tagged(old_input, item.tag).push(item.payload),
            self.attempts@ == old_attempts.update(i, self.attempts@[i]),
        ensures
            forall|j: int| 0 <= j < self.tags@.len()
                ==> attempted(#[trigger] self.attempts@[j]) == payloads_tagged(self.input@, self.tags@[j]),
    {
        assert forall|j: int| 0 <= j < self.tags@.len() implies
            attempted(#[trigger] self.attempts@[j]) == payloads_tagged(self.input@, self.tags@[j]) by {
            lemma_payloads_tagged_push(old_input, item);
            if j != i {
                assert(self.tags@[j] != item.tag);
            }
        }
    }
}

/// Sets up a demultiplexer over the tags `tags` of a type with
/// `variant_count` variants: one channel per tag, the receiving halves in the
/// order of `tags`. Unless `discard_rest` is set, every variant needs a tag.
/// An invalid declaration is rejected before any channel is made.
pub fn demux<P>(tags: Vec<usize>, variant_count: usize, discard_rest: bool) -> (r: Result<
    (Demultiplexer<P>, Vec<ChannelReceiver<P>>),
    SetupError,
>)
    ensures
        r is Ok <==> valid_tags(tags@, variant_count, discard_rest),
        r matches Err(e) ==> rejected_with(tags@, variant_count, discard_rest, e),
        r matches Ok((d, receivers)) ==> {
            &&& d.wf()
            &&& d.tags() == tags@
            &&& d.variant_count() == variant_count
            &&& d.discard_rest() == discard_rest
            &&& d.input() == Seq::<TaggedValue<P>>::empty()
            &&& forall|i: int| 0 <= i < tags@.len() ==> (#[trigger] d.attempts()[i]).len() == 0
            &&& forall|i: int| 0 <= i < tags@.len() ==> (#[trigger] d.handed()[i]).len() == 0
            &&& forall|i: int| 0 <= i < tags@.len() ==> (#[trigger] d.accepted()[i]).len() == 0
            &&& d.channel_ids().len() == tags@.len()
            &&& receivers@.len() == tags@.len()
            &&& forall|i: int| 0 <= i < tags@.len() ==> (#[trigger] receivers@[i]).id() == d.channel_ids()[i]
        },
{
    match check_tags(&tags, variant_count, discard_rest) {
        Err(e) => Err(e),
        Ok(()) => {
            let mut senders: Vec<ChannelSender<P>> = Vec::new();
            let mut receivers: Vec<ChannelReceiver<P>> = Vec::new();
            let mut i: usize = 0;
            while i < tags.len()
                invariant
                    i <= tags@.len(),
                    senders@.len() == i,
                    receivers@.len() == i,
                    forall|k: int| 0 <= k < i ==> (#[trigger] senders@[k]).id() == receivers@[k].id(),
                    forall|k: int| 0 <= k < i ==> (#[trigger] senders@[k]).handed() == Seq::<P>::empty(),
                    forall|k: int| 0 <= k < i ==> (#[trigger] senders@[k]).accepted() == Seq::<bool>::empty(),
                decreases tags@.len() - i,
            {
                let (tx, rx) = open_channel();
                senders.push(tx);
                receivers.push(rx);
                i = i + 1;
            }
            let ghost n = tags@.len();
            let d = Demultiplexer {
                tags,
                variant_count,
                discard_rest,
                senders,
                input: Ghost(Seq::empty()),
                attempts: Ghost(Seq::new(n, |i: int| Seq::<Attempt<P>>::empty())),
            };
            assert forall|i: int| 0 <= i < d.tags@.len() implies attempted(#[trigger] d.attempts@[i])
                == payloads_tagged(d.input@, d.tags@[i]) && d.senders@[i].handed() == attempted(d.attempts@[i])
                && d.senders@[i].accepted() == accepted_flags(d.attempts@[i]) by {
                assert(attempted(d.attempts@[i]) =~= Seq::empty());
                assert(accepted_flags(d.attempts@[i]) =~= Seq::empty());
            }
            assert forall|i: int| 0 <= i < d.tags@.len() implies (#[trigger] receivers@[i]).id()
                == d.channel_ids()[i] && d.handed()[i].len() == 0 && d.accepted()[i].len() == 0 by {
                assert(d.senders@[i].id() == receivers@[i].id());
            }
            Ok((d, receivers))
        },
    }
}

/// Fan-out. For each declared tag, the payloads handed to its channel are
/// the payloads of exactly the input values with that tag, in input order;
/// the attempts record what the channel answered to each send; it took
/// those in `delivered`, the others went back for the
/// error handler, and where none went back the channel took them all. A
/// value whose tag has no channel was discarded, which happens only when
/// that was asked for.
pub proof fn lemma_fan_out<P>(d: Demultiplexer<P>, i: int)
    requires
        d.wf(),
        0 <= i < d.tags().len(),
    ensures
        d.handed()[i] == payloads_tagged(d.input(), d.tags()[i]),
        d.accepted()[i] == accepted_flags(d.attempts()[i]),
        attempted(d.attempts()[i]) == payloads_tagged(d.input(), d.tags()[i]),
        refused(d.attempts()[i]).len() == 0 ==> delivered(d.attempts()[i]) == payloads_tagged(
            d.input(),
            d.tags()[i],
        ),
        forall|k: int| 0 <= k < d.input().len() && !d.tags().contains(#[trigger] d.input()[k].tag)
            ==> d.discard_rest(),
{
    if refused(d.attempts()[i]).len() == 0 {
        lemma_nothing_refused(d.attempts()[i]);
    }
    assert forall|k: int| 0 <= k < d.input().len() && !d.tags().contains(#[trigger] d.input()[k].tag)
        implies d.discard_rest() by {
        if !d.discard_rest() {
            assert(covers(d.tags(), d.variant_count()));
        }
    }
}

/// Error reporting. Over a run of `dispatch_all`, the payloads that the
/// channel of a declared tag refused are exactly those handed back for the
/// error handler under that tag: each once, in order, and nothing else.
pub proof fn lemma_failures_reported<P>(
    tags: Seq<usize>,
    items: Seq<TaggedValue<P>>,
    outcomes: Seq<Dispatch<P>>,
    tag: usize,
)
    requires
        tags.contains(tag),
        outcomes.len() == items.len(),
        forall|k: int| 0 <= k < items.len() ==> dispatch_fits(tags, items[k], #[trigger] outcomes[k]),
    ensures
        refused(attempts_on(items, outcomes, tag)) == reported(outcomes, tag),
    decreases items.len(),
{
    if items.len() > 0 {
        let n = items.len() - 1;
        assert forall|k: int| 0 <= k < n implies dispatch_fits(
            tags,
            items.drop_last()[k],
            #[trigger] outcomes.drop_last()[k],
        ) by {
            assert(dispatch_fits(tags, items[k], outcomes[k]));
        }
        lemma_failures_reported(tags, items.drop_last(), outcomes.drop_last(), tag);
        assert(dispatch_fits(tags, items[n], outcomes[n]));
        let before = attempts_on(items.drop_last(), outcomes.drop_last(), tag);
        if items.last().tag == tag {
            let a = Attempt { value: items.last().payload, delivered: outcomes.last() is Delivered };
            assert(before.push(a).drop_last() =~= before);
        }
    }
}

proof fn lemma_payloads_tagged_push<P>(values: Seq<TaggedValue<P>>, item: TaggedValue<P>)
    ensures
        forall|t: usize| #[trigger] payloads_tagged(values.push(item), t) == if item.tag == t {
            payloads_tagged(values, t).push(item.payload)
        } else {
            payloads_tagged(values, t)
        },
{
    assert(values.push(item).drop_last() =~= values);
}

proof fn lemma_attempted_push<T>(attempts: Seq<Attempt<T>>, a: Attempt<T>)
    ensures
        attempted(attempts.push(a)) == attempted(attempts).push(a.value),
{
    assert(attempted(attempts.push(a)) =~= attempted(attempts).push(a.value));
}

} // verus!
