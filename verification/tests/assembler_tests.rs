use overlay_router::assembler::FragmentAssembler;
use overlay_router::packet::Fragment;

/// The fragments of a payload, in index order.
fn fragments_of(payload: &[u8]) -> Vec<Fragment> {
    let total = (payload.len() + 127) / 128;
    let mut out = Vec::new();
    for i in 0..total {
        let base = i * 128;
        let len = if payload.len() - base >= 128 { 128 } else { payload.len() - base };
        let mut data = [0u8; 128];
        data[..len].copy_from_slice(&payload[base..base + len]);
        out.push(Fragment::new(i as u64, total as u64, len as u8, data));
    }
    out
}

#[test]
fn permuted_fragments_restore_the_payload() {
    let payload: Vec<u8> = (0..300u16).map(|b| (b % 251) as u8).collect();
    let frags = fragments_of(&payload);
    assert_eq!(frags.len(), 3);

    let mut assembler = FragmentAssembler::new();
    assert!(assembler.add_fragment(frags[2], 5, 1).is_none());
    assert!(assembler.add_fragment(frags[0], 5, 1).is_none());
    let out = assembler.add_fragment(frags[1], 5, 1).unwrap();
    assert_eq!(out, payload);
    assert_eq!(assembler.fragments.len(), 0);
}

#[test]
fn every_arrival_order_restores_the_payload() {
    let payload: Vec<u8> = (0..300u16).map(|b| (b % 241) as u8).collect();
    let frags = fragments_of(&payload);
    let orders = [
        [0, 1, 2],
        [0, 2, 1],
        [1, 0, 2],
        [1, 2, 0],
        [2, 0, 1],
        [2, 1, 0],
    ];
    for order in orders.iter() {
        let mut assembler = FragmentAssembler::new();
        assert!(assembler.add_fragment(frags[order[0]], 1, 1).is_none());
        assert!(assembler.add_fragment(frags[order[1]], 1, 1).is_none());
        let out = assembler.add_fragment(frags[order[2]], 1, 1).unwrap();
        assert_eq!(out, payload);
        assert_eq!(assembler.fragments.len(), 0);
    }
}

#[test]
fn duplicate_fragments_are_ignored() {
    let payload: Vec<u8> = (0..200u16).map(|b| b as u8).collect();
    let frags = fragments_of(&payload);
    assert_eq!(frags.len(), 2);

    let mut assembler = FragmentAssembler::new();
    assert!(assembler.add_fragment(frags[1], 7, 2).is_none());
    assert!(assembler.add_fragment(frags[1], 7, 2).is_none());
    let out = assembler.add_fragment(frags[0], 7, 2).unwrap();
    assert_eq!(out, payload);
}

#[test]
fn mismatched_total_is_ignored() {
    let payload: Vec<u8> = (0..200u16).map(|b| b as u8).collect();
    let frags = fragments_of(&payload);
    assert_eq!(frags.len(), 2);

    let mut assembler = FragmentAssembler::new();
    assert!(assembler.add_fragment(frags[0], 9, 3).is_none());
    // A fragment claiming a different total for the same session is
    // foreign or corrupt: it neither completes nor pollutes the entry.
    let mut alien = frags[1];
    alien.total_n_fragments = 5;
    assert!(assembler.add_fragment(alien, 9, 3).is_none());
    assert_eq!(assembler.fragments.len(), 1);
    assert_eq!(assembler.fragments[0].received.len(), 1);

    let out = assembler.add_fragment(frags[1], 9, 3).unwrap();
    assert_eq!(out, payload);
}

#[test]
fn single_fragment_completes_at_once() {
    let payload = b"short".to_vec();
    let frags = fragments_of(&payload);
    assert_eq!(frags.len(), 1);

    let mut assembler = FragmentAssembler::new();
    let out = assembler.add_fragment(frags[0], 1, 9).unwrap();
    assert_eq!(out, payload);
    assert_eq!(assembler.fragments.len(), 0);
}

#[test]
fn binary_payload_with_zero_bytes_survives() {
    let mut payload = vec![0u8; 150];
    payload[0] = 1;
    payload[149] = 2;
    let frags = fragments_of(&payload);

    let mut assembler = FragmentAssembler::new();
    assert!(assembler.add_fragment(frags[0], 3, 4).is_none());
    let out = assembler.add_fragment(frags[1], 3, 4).unwrap();
    assert_eq!(out, payload);
}

#[test]
fn sessions_are_kept_apart_by_origin() {
    let payload_a = vec![1u8; 130];
    let payload_b = vec![2u8; 130];
    let frags_a = fragments_of(&payload_a);
    let frags_b = fragments_of(&payload_b);

    let mut assembler = FragmentAssembler::new();
    assert!(assembler.add_fragment(frags_a[0], 1, 10).is_none());
    assert!(assembler.add_fragment(frags_b[0], 1, 11).is_none());
    let out_a = assembler.add_fragment(frags_a[1], 1, 10).unwrap();
    let out_b = assembler.add_fragment(frags_b[1], 1, 11).unwrap();
    assert_eq!(out_a, payload_a);
    assert_eq!(out_b, payload_b);
}
