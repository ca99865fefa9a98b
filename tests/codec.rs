use packet_codec::{
    DecodeError, ItemSpawn, Packet, PacketTag, SpawnKind, StateQuery, StateQueryResponse,
    UnionKind,
};

fn encode_packet(p: &Packet) -> Vec<u8> {
    let mut out = Vec::new();
    p.encode(&mut out);
    out
}

fn all_sample_packets() -> Vec<Packet> {
    vec![
        Packet::ItemSpawn(ItemSpawn { item_kind_hash: 0, kind: SpawnKind::Player(0) }),
        Packet::ItemSpawn(ItemSpawn { item_kind_hash: u64::MAX, kind: SpawnKind::Player(i32::MIN) }),
        Packet::ItemSpawn(ItemSpawn {
            item_kind_hash: 0x0123_4567_89ab_cdef,
            kind: SpawnKind::Location(1.5f32.to_bits(), (-250.25f32).to_bits()),
        }),
        Packet::ItemSpawn(ItemSpawn {
            item_kind_hash: 7,
            kind: SpawnKind::Location(f32::NAN.to_bits(), f32::INFINITY.to_bits()),
        }),
        Packet::StateQuery(StateQuery::LastSummonFrame),
        Packet::StateQuery(StateQuery::IsFighterExist(-1)),
        Packet::StateQuery(StateQuery::IsFighterExist(i32::MAX)),
        Packet::StateQueryResponse(StateQueryResponse::LastSummonFrame(0)),
        Packet::StateQueryResponse(StateQueryResponse::LastSummonFrame(u32::MAX)),
        Packet::StateQueryResponse(StateQueryResponse::IsFighterExist(true)),
        Packet::StateQueryResponse(StateQueryResponse::IsFighterExist(false)),
    ]
}

#[test]
fn scenario_item_spawn_bytes() {
    let p = Packet::ItemSpawn(ItemSpawn {
        item_kind_hash: 0x1122334455667788,
        kind: SpawnKind::Player(42),
    });
    let mut expected = vec![0x00u8];
    expected.extend_from_slice(&0x1122334455667788u64.to_le_bytes());
    expected.push(0x00);
    expected.extend_from_slice(&42i32.to_le_bytes());
    assert_eq!(encode_packet(&p), expected);
    assert_eq!(
        encode_packet(&p),
        vec![0x00, 0x88, 0x77, 0x66, 0x55, 0x44, 0x33, 0x22, 0x11, 0x00, 42, 0, 0, 0]
    );
}

#[test]
fn scenario_state_query_bytes() {
    let p = Packet::StateQuery(StateQuery::IsFighterExist(7));
    assert_eq!(encode_packet(&p), vec![0x01, 0x01, 7, 0, 0, 0]);
}

#[test]
fn scenario_state_query_response_bytes() {
    let p = Packet::StateQueryResponse(StateQueryResponse::LastSummonFrame(99));
    assert_eq!(encode_packet(&p), vec![0x02, 0x00, 99, 0, 0, 0]);
}

#[test]
fn scenario_unknown_packet_tag() {
    let err = PacketTag::decode(&[0x05], 0).unwrap_err();
    assert_eq!(err, DecodeError::InvalidTag { union_kind: UnionKind::PacketTag, value: 5 });
    assert!(err.message().contains("5"));
    // Bytes after the bad tag are never needed: the result is the same.
    assert_eq!(PacketTag::decode(&[0x05, 0x00, 0x01, 0x02], 0), Err(err));
    assert_eq!(Packet::decode(&[0x05], 0), Err(err));
    assert_eq!(Packet::decode(&[0x05, 1, 1, 1, 1, 1, 1, 1, 1, 1, 1, 1, 1, 1], 0), Err(err));
}

#[test]
fn packet_round_trip() {
    for p in all_sample_packets() {
        let bytes = encode_packet(&p);
        assert_eq!(Packet::decode(&bytes, 0), Ok((p, bytes.len())));
    }
}

#[test]
fn packet_round_trip_inside_a_stream() {
    let mut stream = vec![0xaa, 0xbb];
    let packets = all_sample_packets();
    for p in &packets {
        p.encode(&mut stream);
    }
    stream.push(0xcc);
    let mut pos = 2usize;
    for p in &packets {
        let (q, next) = Packet::decode(&stream, pos).unwrap();
        assert_eq!(q, *p);
        pos = next;
    }
    assert_eq!(pos, stream.len() - 1);
}

#[test]
fn payload_round_trips() {
    for kind in [SpawnKind::Player(-42), SpawnKind::Location(0x3fc0_0000, 0xbf80_0000)] {
        let mut out = Vec::new();
        kind.encode(&mut out);
        assert_eq!(SpawnKind::decode(&out, 0), Ok((kind, out.len())));
    }
    let spawn = ItemSpawn { item_kind_hash: 99, kind: SpawnKind::Player(3) };
    let mut out = Vec::new();
    spawn.encode(&mut out);
    assert_eq!(out.len(), 13);
    assert_eq!(ItemSpawn::decode(&out, 0), Ok((spawn, 13)));
    for q in [StateQuery::LastSummonFrame, StateQuery::IsFighterExist(12)] {
        let mut out = Vec::new();
        q.encode(&mut out);
        assert_eq!(StateQuery::decode(&out, 0), Ok((q, out.len())));
    }
    for r in [StateQueryResponse::LastSummonFrame(1234), StateQueryResponse::IsFighterExist(true)] {
        let mut out = Vec::new();
        r.encode(&mut out);
        assert_eq!(StateQueryResponse::decode(&out, 0), Ok((r, out.len())));
    }
    for t in [PacketTag::ItemSpawn, PacketTag::StateQuery, PacketTag::StateQueryResponse] {
        let mut out = Vec::new();
        t.encode(&mut out);
        assert_eq!(PacketTag::decode(&out, 0), Ok((t, 1)));
    }
}

#[test]
fn float_bits_survive() {
    let (x, y) = (3.25f32, -0.0f32);
    let spawn = SpawnKind::Location(x.to_bits(), y.to_bits());
    let mut out = Vec::new();
    spawn.encode(&mut out);
    assert_eq!(out[1..5], x.to_le_bytes());
    assert_eq!(out[5..9], y.to_le_bytes());
    match SpawnKind::decode(&out, 0).unwrap().0 {
        SpawnKind::Location(a, b) => {
            assert_eq!(f32::from_bits(a), x);
            assert_eq!(f32::from_bits(b).to_bits(), y.to_bits());
        }
        other => panic!("unexpected {:?}", other),
    }
}

#[test]
fn unknown_packet_tags_rejected() {
    for b in 3u8..=255 {
        let err = Packet::decode(&[b, 0, 0, 0, 0, 0, 0, 0, 0, 0, 0, 0, 0, 0, 0, 0, 0, 0], 0)
            .unwrap_err();
        assert_eq!(err, DecodeError::InvalidTag { union_kind: UnionKind::PacketTag, value: b });
        assert!(err.message().contains(&b.to_string()));
    }
    for b in 0u8..=2 {
        assert!(PacketTag::decode(&[b], 0).is_ok());
    }
}

#[test]
fn unknown_payload_tags_rejected() {
    for b in 2u8..=255 {
        let bytes = [b, 0, 0, 0, 0, 0, 0, 0, 0];
        let e1 = SpawnKind::decode(&bytes, 0).unwrap_err();
        let e2 = StateQuery::decode(&bytes, 0).unwrap_err();
        let e3 = StateQueryResponse::decode(&bytes, 0).unwrap_err();
        assert_eq!(e1, DecodeError::InvalidTag { union_kind: UnionKind::SpawnKind, value: b });
        assert_eq!(e2, DecodeError::InvalidTag { union_kind: UnionKind::StateQuery, value: b });
        assert_eq!(
            e3,
            DecodeError::InvalidTag { union_kind: UnionKind::StateQueryResponse, value: b }
        );
        for e in [e1, e2, e3] {
            assert!(e.message().contains(&b.to_string()));
        }
    }
}

#[test]
fn nested_bad_tag_aborts_packet() {
    let mut bytes = vec![0u8];
    bytes.extend_from_slice(&5u64.to_le_bytes());
    bytes.push(9);
    bytes.extend_from_slice(&[0, 0, 0, 0]);
    assert_eq!(
        Packet::decode(&bytes, 0),
        Err(DecodeError::InvalidTag { union_kind: UnionKind::SpawnKind, value: 9 })
    );
    assert_eq!(
        Packet::decode(&[1, 4], 0),
        Err(DecodeError::InvalidTag { union_kind: UnionKind::StateQuery, value: 4 })
    );
    assert_eq!(
        Packet::decode(&[2, 2, 1], 0),
        Err(DecodeError::InvalidTag { union_kind: UnionKind::StateQueryResponse, value: 2 })
    );
}

#[test]
fn truncated_input_is_unexpected_end() {
    for p in all_sample_packets() {
        let bytes = encode_packet(&p);
        for cut in 0..bytes.len() {
            assert_eq!(Packet::decode(&bytes[..cut], 0), Err(DecodeError::UnexpectedEnd));
        }
    }
    assert_eq!(Packet::decode(&[0], 5), Err(DecodeError::UnexpectedEnd));
    assert_eq!(PacketTag::decode(&[], 0), Err(DecodeError::UnexpectedEnd));
}

#[test]
fn encoded_length_depends_on_case_only() {
    let lens: Vec<usize> = all_sample_packets().iter().map(|p| encode_packet(p).len()).collect();
    assert_eq!(lens, vec![14, 14, 18, 18, 2, 6, 6, 6, 6, 3, 3]);
    for p in all_sample_packets() {
        let bytes = encode_packet(&p);
        let tag = match p {
            Packet::ItemSpawn(_) => 0,
            Packet::StateQuery(_) => 1,
            Packet::StateQueryResponse(_) => 2,
        };
        assert_eq!(bytes[0], tag);
    }
}

#[test]
fn response_flag_reads_any_nonzero_byte_as_true() {
    assert_eq!(
        StateQueryResponse::decode(&[1, 0], 0),
        Ok((StateQueryResponse::IsFighterExist(false), 2))
    );
    assert_eq!(
        StateQueryResponse::decode(&[1, 1], 0),
        Ok((StateQueryResponse::IsFighterExist(true), 2))
    );
    assert_eq!(
        StateQueryResponse::decode(&[1, 200], 0),
        Ok((StateQueryResponse::IsFighterExist(true), 2))
    );
    assert_eq!(encode_packet(&Packet::StateQueryResponse(StateQueryResponse::IsFighterExist(true))), vec![2, 1, 1]);
}

#[test]
fn signed_index_is_twos_complement() {
    let p = Packet::StateQuery(StateQuery::IsFighterExist(-2));
    assert_eq!(encode_packet(&p), vec![1, 1, 0xfe, 0xff, 0xff, 0xff]);
}

#[test]
fn decode_at_offset_returns_next_position() {
    let bytes = [0xff, 0xff, 2, 0, 0x10, 0x27, 0, 0, 0xee];
    assert_eq!(
        Packet::decode(&bytes, 2),
        Ok((Packet::StateQueryResponse(StateQueryResponse::LastSummonFrame(10000)), 8))
    );
}

#[test]
fn error_messages() {
    let e = DecodeError::InvalidTag { union_kind: UnionKind::PacketTag, value: 5 };
    assert_eq!(e.message(), "PacketTag tag '5' is out of range");
    let e = DecodeError::InvalidTag { union_kind: UnionKind::StateQueryResponse, value: 200 };
    assert_eq!(e.message(), "StateQueryResponse tag '200' is out of range");
    let e = DecodeError::InvalidTag { union_kind: UnionKind::SpawnKind, value: 40 };
    assert_eq!(e.message(), "SpawnKind tag '40' is out of range");
    let e = DecodeError::InvalidTag { union_kind: UnionKind::StateQuery, value: 0 };
    assert_eq!(e.message(), "StateQuery tag '0' is out of range");
    assert_eq!(DecodeError::UnexpectedEnd.message(), "input ended before the value was complete");
}
