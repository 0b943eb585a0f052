use bytes::Bytes;
use stream_merge::packet_stream::PacketStream;
use stream_merge::tournament_tree::{Mergeable, Tree};

fn stream(packets: &[(u64, &'static str)]) -> PacketStream {
    PacketStream::new(
        packets.iter().map(|(ts, name)| (*ts, Bytes::from_static(name.as_bytes()))).collect(),
    )
}

fn drain(tree: &mut Tree<PacketStream>) -> Vec<(u64, String)> {
    let mut out = Vec::new();
    while let Some((ts, frame)) = tree.pop() {
        out.push((*ts, String::from_utf8(frame.to_vec()).unwrap()));
    }
    out
}

fn named(packets: &[(u64, &str)]) -> Vec<(u64, String)> {
    packets.iter().map(|(ts, name)| (*ts, name.to_string())).collect()
}

#[test]
fn no_inputs_give_nothing() {
    let mut tree: Tree<PacketStream> = Tree::new(Vec::new());
    assert!(tree.pop().is_none());
    assert!(tree.pop().is_none());
}

#[test]
fn one_empty_input_gives_nothing() {
    let mut tree = Tree::new(vec![stream(&[])]);
    assert!(tree.pop().is_none());
    assert!(tree.pop().is_none());
}

#[test]
fn empty_inputs_never_win() {
    let mut tree = Tree::new(vec![
        stream(&[]),
        stream(&[(3, "b0"), (9, "b1")]),
        stream(&[]),
        stream(&[(1, "d0")]),
        stream(&[]),
    ]);
    assert_eq!(drain(&mut tree), named(&[(1, "d0"), (3, "b0"), (9, "b1")]));
    assert!(tree.pop().is_none());
}

#[test]
fn single_input_passes_through() {
    let mut tree = Tree::new(vec![stream(&[(1, "a"), (1, "b"), (2, "c"), (6, "d")])]);
    assert_eq!(drain(&mut tree), named(&[(1, "a"), (1, "b"), (2, "c"), (6, "d")]));
}

#[test]
fn equal_timestamps_go_to_the_earlier_input() {
    let mut tree = Tree::new(vec![
        stream(&[(5, "a0"), (5, "a1"), (7, "a2")]),
        stream(&[(5, "b0"), (7, "b1")]),
        stream(&[(4, "c0"), (5, "c1"), (7, "c2")]),
    ]);
    assert_eq!(
        drain(&mut tree),
        named(&[
            (4, "c0"),
            (5, "a0"),
            (5, "a1"),
            (5, "b0"),
            (5, "c1"),
            (7, "a2"),
            (7, "b1"),
            (7, "c2"),
        ])
    );
}

#[test]
fn equal_timestamps_across_seven_inputs() {
    let names = ["s0", "s1", "s2", "s3", "s4", "s5", "s6"];
    let inputs: Vec<PacketStream> =
        names.iter().map(|name| stream(&[(1, name), (1, name), (2, name)])).collect();
    let mut tree = Tree::new(inputs);
    let out = drain(&mut tree);
    let mut expected = Vec::new();
    for ts in [1u64, 2] {
        for name in names {
            expected.push((ts, name.to_string()));
            if ts == 1 {
                expected.push((ts, name.to_string()));
            }
        }
    }
    assert_eq!(out, expected);
}

#[test]
fn timestamp_of_the_far_end_ends_an_input() {
    // u64::MAX is the key of an input at its end: what is stamped so, and
    // what follows it, is never handed out
    let mut tree = Tree::new(vec![
        stream(&[(5, "a0"), (u64::MAX, "a1"), (7, "a2")]),
        stream(&[(6, "b0")]),
    ]);
    assert_eq!(drain(&mut tree), named(&[(5, "a0"), (6, "b0")]));
    assert!(tree.pop().is_none());
}

#[test]
fn merge_is_the_stable_sort_of_the_inputs() {
    // a fixed run of numbers that looks random
    let mut state: u64 = 0x2545_F491_4F6C_DD1D;
    let mut next = move || {
        state ^= state << 13;
        state ^= state >> 7;
        state ^= state << 17;
        state
    };
    for n_inputs in [2usize, 3, 5, 8, 13, 33] {
        let mut inputs = Vec::new();
        let mut all: Vec<(u64, Vec<u8>)> = Vec::new();
        let mut total = 0;
        for i in 0..n_inputs {
            let len = (next() % 40) as usize;
            let mut ts = 0u64;
            let mut packets = Vec::new();
            for j in 0..len {
                ts += next() % 3;
                let frame = vec![i as u8, j as u8];
                packets.push((ts, Bytes::from(frame.clone())));
                all.push((ts, frame));
            }
            total += len;
            inputs.push(PacketStream::new(packets));
        }
        all.sort_by_key(|(ts, _)| *ts);

        let mut tree = Tree::new(inputs);
        let mut out: Vec<(u64, Vec<u8>)> = Vec::new();
        while let Some((ts, frame)) = tree.pop() {
            out.push((*ts, frame.to_vec()));
        }
        assert_eq!(out.len(), total);
        assert!(out.windows(2).all(|pair| pair[0].0 <= pair[1].0));
        assert_eq!(out, all);
    }
}

#[test]
fn packet_stream_hands_out_what_it_was_given() {
    let mut input = stream(&[(2, "x"), (4, "y")]);
    assert_eq!(input.peek_timestamp(), 2);
    assert_eq!(input.peek_timestamp(), 2);
    assert_eq!(input.pop().map(|packet| packet.0), Some(2));
    assert_eq!(input.peek_timestamp(), 4);
    assert_eq!(input.pop().map(|packet| &packet.1[..]), Some(&b"y"[..]));
    assert_eq!(input.peek_timestamp(), u64::MAX);
    assert!(input.pop().is_none());
    assert!(input.pop().is_none());
    assert_eq!(input.peek_timestamp(), u64::MAX);
}
