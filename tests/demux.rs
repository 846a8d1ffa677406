use mux_stream::{demux, Demultiplexer, Dispatch, SetupError, TaggedValue};
use tokio::sync::mpsc::error::TryRecvError;
use tokio::sync::mpsc::UnboundedReceiver;

#[derive(Debug, PartialEq)]
enum Payload {
    Int(i32),
    Float(f64),
    Text(&'static str),
}

const A: usize = 0;
const B: usize = 1;
const C: usize = 2;

fn sample() -> Vec<TaggedValue<Payload>> {
    vec![
        TaggedValue { tag: A, payload: Payload::Int(123) },
        TaggedValue { tag: B, payload: Payload::Float(24.241) },
        TaggedValue { tag: C, payload: Payload::Text("Hello") },
        TaggedValue { tag: C, payload: Payload::Text("ABC") },
        TaggedValue { tag: A, payload: Payload::Int(811) },
    ]
}

fn setup(tags: Vec<usize>, rest: bool) -> (Demultiplexer<Payload>, Vec<UnboundedReceiver<Payload>>) {
    match demux(tags, 3, rest) {
        Ok((d, rxs)) => (d, rxs.into_iter().map(|rx| rx.into_inner()).collect()),
        Err(e) => panic!("setup failed: {:?}", e),
    }
}

#[test]
fn demux_works() {
    let (mut d, mut rxs) = setup(vec![A, B, C], false);
    let outcomes = d.dispatch_all(sample());
    assert_eq!(outcomes.len(), 5);
    drop(d);

    assert_eq!(rxs[0].try_recv().ok(), Some(Payload::Int(123)));
    assert_eq!(rxs[0].try_recv().ok(), Some(Payload::Int(811)));
    assert_eq!(rxs[0].try_recv().err(), Some(TryRecvError::Disconnected));

    assert_eq!(rxs[1].try_recv().ok(), Some(Payload::Float(24.241)));
    assert_eq!(rxs[1].try_recv().err(), Some(TryRecvError::Disconnected));

    assert_eq!(rxs[2].try_recv().ok(), Some(Payload::Text("Hello")));
    assert_eq!(rxs[2].try_recv().ok(), Some(Payload::Text("ABC")));
    assert_eq!(rxs[2].try_recv().err(), Some(TryRecvError::Disconnected));
}

#[test]
fn demux_panics_on_empty_arms() {
    assert_eq!(demux::<Payload>(vec![], 3, false).err(), Some(SetupError::NoTags));
    assert_eq!(demux::<Payload>(vec![], 3, true).err(), Some(SetupError::NoTags));
}

#[test]
fn demux_reports_each_outcome() {
    let (mut d, _rxs) = setup(vec![A, B, C], false);
    let outcomes = d.dispatch_all(sample());
    let channels: Vec<usize> = outcomes
        .iter()
        .map(|o| match o {
            Dispatch::Delivered(i) => *i,
            other => panic!("unexpected outcome {:?}", other),
        })
        .collect();
    assert_eq!(channels, vec![0, 1, 2, 2, 0]);
}

#[test]
fn demux_follows_declared_order() {
    let (mut d, mut rxs) = setup(vec![C, A, B], false);
    assert_eq!(d.channel_count(), 3);
    d.dispatch_all(sample());
    drop(d);
    assert_eq!(rxs[0].try_recv().ok(), Some(Payload::Text("Hello")));
    assert_eq!(rxs[1].try_recv().ok(), Some(Payload::Int(123)));
    assert_eq!(rxs[2].try_recv().ok(), Some(Payload::Float(24.241)));
}

#[test]
fn demux_rest_pattern_discards_unmatched() {
    let (mut d, mut rxs) = setup(vec![A, C], true);
    let outcomes = d.dispatch_all(sample());
    assert!(matches!(outcomes[1], Dispatch::Discarded));
    assert!(matches!(outcomes[0], Dispatch::Delivered(0)));
    assert!(matches!(outcomes[2], Dispatch::Delivered(1)));
    drop(d);
    assert_eq!(rxs[0].try_recv().ok(), Some(Payload::Int(123)));
    assert_eq!(rxs[0].try_recv().ok(), Some(Payload::Int(811)));
    assert_eq!(rxs[0].try_recv().err(), Some(TryRecvError::Disconnected));
    assert_eq!(rxs[1].try_recv().ok(), Some(Payload::Text("Hello")));
    assert_eq!(rxs[1].try_recv().ok(), Some(Payload::Text("ABC")));
    assert_eq!(rxs[1].try_recv().err(), Some(TryRecvError::Disconnected));
}

#[test]
fn demux_rest_pattern_fails_without_flag() {
    assert_eq!(demux::<Payload>(vec![A, C], 3, false).err(), Some(SetupError::NonExhaustive(B)));
}

#[test]
fn demux_output_streams_are_independent() {
    let (mut d, mut rxs) = setup(vec![A, B, C], false);
    d.dispatch_all(sample());
    drop(d);
    // The first receiver is never drained; the others still get everything.
    assert_eq!(rxs[1].try_recv().ok(), Some(Payload::Float(24.241)));
    assert_eq!(rxs[1].try_recv().err(), Some(TryRecvError::Disconnected));
    assert_eq!(rxs[2].try_recv().ok(), Some(Payload::Text("Hello")));
    assert_eq!(rxs[2].try_recv().ok(), Some(Payload::Text("ABC")));
    assert_eq!(rxs[2].try_recv().err(), Some(TryRecvError::Disconnected));
}

#[test]
fn demux_dropped_receiver_goes_to_error_handler() {
    let (mut d, mut rxs) = setup(vec![A, B, C], false);
    let first = d.dispatch(TaggedValue { tag: A, payload: Payload::Int(1) });
    assert!(matches!(first, Dispatch::Delivered(0)));
    let rx_a = rxs.remove(0);
    drop(rx_a);
    let outcomes = d.dispatch_all(sample());
    let mut failures = Vec::new();
    for o in outcomes {
        match o {
            Dispatch::Failed(f) => failures.push((f.tag, f.payload)),
            Dispatch::Delivered(i) => assert!(i == 1 || i == 2),
            Dispatch::Discarded => panic!("nothing should be discarded"),
        }
    }
    assert_eq!(failures, vec![(A, Payload::Int(123)), (A, Payload::Int(811))]);
    drop(d);
    assert_eq!(rxs[0].try_recv().ok(), Some(Payload::Float(24.241)));
    assert_eq!(rxs[1].try_recv().ok(), Some(Payload::Text("Hello")));
}

#[test]
fn demux_rejects_bad_declarations() {
    assert_eq!(demux::<Payload>(vec![A, 7, 9], 3, false).err(), Some(SetupError::UnknownTag(7)));
    assert_eq!(demux::<Payload>(vec![A, B, A, B], 3, false).err(), Some(SetupError::DuplicateTag(A)));
    assert_eq!(demux::<Payload>(vec![C], 3, false).err(), Some(SetupError::NonExhaustive(A)));
    assert!(demux::<Payload>(vec![C], 3, true).is_ok());
}
