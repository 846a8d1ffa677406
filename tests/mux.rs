use mux_stream::{mux, MuxRoute, SetupError, TaggedValue};
use std::collections::HashSet;
use tokio::sync::mpsc::error::TryRecvError;
use tokio::sync::mpsc::UnboundedReceiver;

#[derive(Debug, PartialEq, Clone, Copy, Eq, Hash)]
enum Payload {
    Int(i32),
    Byte(u8),
    Text(&'static str),
}

const A: usize = 0;
const B: usize = 1;
const C: usize = 2;

fn setup(tags: Vec<usize>) -> (Vec<MuxRoute<Payload>>, UnboundedReceiver<TaggedValue<Payload>>) {
    match mux(tags, 3) {
        Ok((routes, rx)) => (routes, rx.into_inner()),
        Err(e) => panic!("setup failed: {:?}", e),
    }
}

fn drain(rx: &mut UnboundedReceiver<TaggedValue<Payload>>) -> Vec<(usize, Payload)> {
    let mut out = Vec::new();
    while let Ok(v) = rx.try_recv() {
        out.push((v.tag, v.payload));
    }
    out
}

#[test]
fn mux_works() {
    let i32_values: HashSet<i32> = vec![123, 811].into_iter().collect();
    let u8_values: HashSet<u8> = vec![88].into_iter().collect();
    let str_values: HashSet<&'static str> = vec!["Hello", "ABC"].into_iter().collect();

    let (mut routes, mut rx) = setup(vec![A, B, C]);
    routes[0].forward_all(i32_values.iter().map(|x| Payload::Int(*x)).collect());
    routes[1].forward_all(u8_values.iter().map(|x| Payload::Byte(*x)).collect());
    routes[2].forward_all(str_values.iter().map(|x| Payload::Text(*x)).collect());
    drop(routes);

    let mut i32_results = HashSet::new();
    let mut u8_results = HashSet::new();
    let mut str_results = HashSet::new();
    for (tag, payload) in drain(&mut rx) {
        match (tag, payload) {
            (A, Payload::Int(x)) => i32_results.insert(x),
            (B, Payload::Byte(x)) => u8_results.insert(x),
            (C, Payload::Text(x)) => str_results.insert(x),
            other => panic!("unexpected value {:?}", other),
        };
    }
    assert_eq!(rx.try_recv().err(), Some(TryRecvError::Disconnected));

    assert_eq!(i32_results, i32_values);
    assert_eq!(u8_results, u8_values);
    assert_eq!(str_results, str_values);
}

#[test]
fn mux_keeps_order_within_a_tag() {
    let (mut routes, mut rx) = setup(vec![A, C]);
    assert_eq!(routes[0].tag(), A);
    assert_eq!(routes[1].tag(), C);
    assert!(routes[0].forward(Payload::Int(1)).is_none());
    assert!(routes[1].forward(Payload::Text("x")).is_none());
    assert!(routes[0].forward(Payload::Int(2)).is_none());
    assert!(routes[1].forward(Payload::Text("y")).is_none());
    assert!(routes[0].forward(Payload::Int(3)).is_none());
    let out = drain(&mut rx);
    let a: Vec<Payload> = out.iter().filter(|(t, _)| *t == A).map(|(_, p)| *p).collect();
    let c: Vec<Payload> = out.iter().filter(|(t, _)| *t == C).map(|(_, p)| *p).collect();
    assert_eq!(a, vec![Payload::Int(1), Payload::Int(2), Payload::Int(3)]);
    assert_eq!(c, vec![Payload::Text("x"), Payload::Text("y")]);
    assert_eq!(out.len(), 5);
}

#[test]
fn mux_input_streams_are_independent() {
    let (mut routes, mut rx) = setup(vec![A, B, C]);
    // The first input never produces anything; the others are forwarded anyway.
    routes[1].forward_all(vec![88, 25, 66, 11, 6, 0, 90].into_iter().map(Payload::Byte).collect());
    routes[2].forward_all(vec!["Hello", "ABC", "bla-bla-bla", "badam"].into_iter().map(Payload::Text).collect());
    let out = drain(&mut rx);
    assert_eq!(out.len(), 7 + 4);
    // The first route still holds its sender, so the channel stays open.
    assert_eq!(rx.try_recv().err(), Some(TryRecvError::Empty));
}

#[test]
fn mux_dropped_receiver_goes_to_error_handler() {
    let (mut routes, rx) = setup(vec![A, B]);
    drop(rx);
    let failures = routes[1].forward_all(vec![Payload::Byte(5), Payload::Byte(6)]);
    let got: Vec<(usize, Payload)> = failures.into_iter().map(|f| (f.tag, f.payload)).collect();
    assert_eq!(got, vec![(B, Payload::Byte(5)), (B, Payload::Byte(6))]);
    let one = routes[0].forward(Payload::Int(9)).map(|f| (f.tag, f.payload));
    assert_eq!(one, Some((A, Payload::Int(9))));
}

#[test]
fn mux_fails_on_empty_input_list() {
    assert_eq!(mux::<Payload>(vec![], 3).err(), Some(SetupError::NoTags));
}

#[test]
fn mux_rejects_bad_declarations() {
    assert_eq!(mux::<Payload>(vec![A, 3], 3).err(), Some(SetupError::UnknownTag(3)));
    assert_eq!(mux::<Payload>(vec![B, C, B], 3).err(), Some(SetupError::DuplicateTag(B)));
    assert!(mux::<Payload>(vec![B], 3).is_ok());
}
