use vstd::prelude::*;

verus! {

/// A value of a closed sum type: the variant's tag and its payload.
#[derive(Debug)]
pub struct TaggedValue<P> {
    pub tag: usize,
    pub payload: P,
}

/// A payload that could not be delivered because the receiving half of its
/// channel was closed, with the tag it was routed under.
#[derive(Debug)]
pub struct SendFailure<P> {
    pub tag: usize,
    pub payload: P,
}

/// One delivery attempt on a channel: what was sent and whether the channel
/// took it.
pub struct Attempt<T> {
    pub value: T,
    pub delivered: bool,
}

/// The values of a sequence of attempts, in order.
pub open spec fn attempted<T>(attempts: Seq<Attempt<T>>) -> Seq<T> {
    attempts.map_values(|a: Attempt<T>| a.value)
}

/// For each attempt, in order, whether the channel took it.
pub open spec fn accepted_flags<T>(attempts: Seq<Attempt<T>>) -> Seq<bool> {
    attempts.map_values(|a: Attempt<T>| a.delivered)
}

/// The values that the channel took, in order.
pub open spec fn delivered<T>(attempts: Seq<Attempt<T>>) -> Seq<T>
    decreases attempts.len(),
{
    if attempts.len() == 0 {
        Seq::empty()
    } else if attempts.last().delivered {
        delivered(attempts.drop_last()).push(attempts.last().value)
    } else {
        delivered(attempts.drop_last())
    }
}

/// The values that the channel refused, in order.
pub open spec fn refused<T>(attempts: Seq<Attempt<T>>) -> Seq<T>
    decreases attempts.len(),
{
    if attempts.len() == 0 {
        Seq::empty()
    } else if attempts.last().delivered {
        refused(attempts.drop_last())
    } else {
        refused(attempts.drop_last()).push(attempts.last().value)
    }
}

/// The payloads of the values tagged `tag`, in their order.
pub open spec fn payloads_tagged<P>(values: Seq<TaggedValue<P>>, tag: usize) -> Seq<P>
    decreases values.len(),
{
    if values.len() == 0 {
        Seq::empty()
    } else if values.last().tag == tag {
        payloads_tagged(values.drop_last(), tag).push(values.last().payload)
    } else {
        payloads_tagged(values.drop_last(), tag)
    }
}

/// Each payload wrapped with `tag`.
pub open spec fn wrap_all<P>(payloads: Seq<P>, tag: usize) -> Seq<TaggedValue<P>> {
    payloads.map_values(|p: P| TaggedValue { tag, payload: p })
}

/// Where no attempt was refused, every attempt was delivered.
pub(crate) proof fn lemma_nothing_refused<T>(a: Seq<Attempt<T>>)
    requires
        refused(a).len() == 0,
    ensures
        delivered(a) == attempted(a),
    decreases a.len(),
{
    if a.len() > 0 {
        lemma_nothing_refused(a.drop_last());
        assert(attempted(a) =~= attempted(a.drop_last()).push(a.last().value));
    } else {
        assert(attempted(a) =~= Seq::empty());
    }
}

} // verus!
