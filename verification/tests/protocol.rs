use bloom::protocol::{DecodeError, Decoder, Flags, Header, HEADER_SIZE, MAGIC, VERSION};

fn push_u16(v: &mut Vec<u8>, x: u16) {
    v.extend_from_slice(&x.to_le_bytes());
}

fn push_u32(v: &mut Vec<u8>, x: u32) {
    v.extend_from_slice(&x.to_le_bytes());
}

fn push_f32(v: &mut Vec<u8>, x: f32) {
    v.extend_from_slice(&x.to_le_bytes());
}

fn header(node_count: u32, edge_count: u32, flags: u16) -> Vec<u8> {
    let mut v = Vec::new();
    push_u32(&mut v, MAGIC);
    push_u16(&mut v, VERSION);
    push_u32(&mut v, node_count);
    push_u32(&mut v, edge_count);
    push_u16(&mut v, flags);
    v
}

/// A two-node, one-edge buffer with labels "hi" and "λ!".
fn labeled_buffer() -> Vec<u8> {
    let mut v = header(2, 1, 2);
    let blob: &[u8] = "hiλ!".as_bytes(); // 2 + 3 bytes
    push_u32(&mut v, blob.len() as u32);
    push_u32(&mut v, 0); // label 0 starts at 0
    push_u32(&mut v, 2); // label 1 starts at 2
    v.extend_from_slice(blob);
    push_u32(&mut v, 10); // ids
    push_u32(&mut v, 20);
    push_f32(&mut v, 0.5); // scores
    push_f32(&mut v, -1.25);
    push_u16(&mut v, 1); // degrees
    push_u16(&mut v, 1);
    push_u32(&mut v, 10); // edge sources
    push_u32(&mut v, 20); // edge targets
    v
}

#[test]
fn header_parse_reads_all_fields() {
    let v = header(3, 7, 2);
    assert_eq!(v.len(), HEADER_SIZE);
    let h = Header::parse(&v).unwrap();
    assert_eq!(h.magic, MAGIC);
    assert_eq!(h.version, VERSION);
    assert_eq!(h.node_count, 3);
    assert_eq!(h.edge_count, 7);
    assert_eq!(h.flags, 2);
    assert!(h.has_flag(Flags::HasLabels));
    assert!(!h.has_flag(Flags::Compressed));
    assert!(!h.has_flag(Flags::HasWeights));
    assert!(!h.has_flag(Flags::Unset));
}

#[test]
fn decode_round_trips_hand_built_buffer() {
    let v = labeled_buffer();
    let mut d = Decoder::new(&v);
    let g = match d.decode_graph() {
        Ok(g) => g,
        Err(e) => panic!("decode failed: {:?}", e),
    };
    assert_eq!(g.node_count(), 2);
    assert_eq!(g.edge_count(), 1);
    let nodes = g.nodes();
    assert_eq!(nodes[0].id, 10);
    assert_eq!(nodes[1].id, 20);
    assert_eq!(nodes[0].label, "hi");
    assert_eq!(nodes[1].label, "λ!");
    assert_eq!(nodes[0].pagerank_bits, 0.5f32.to_bits());
    assert_eq!(nodes[1].pagerank_bits, (-1.25f32).to_bits());
    assert_eq!(f32::from_bits(nodes[1].pagerank_bits), -1.25);
    assert_eq!(nodes[0].degree, 1);
    assert_eq!(nodes[1].degree, 1);
    assert_eq!(nodes[0].x_bits, 0);
    assert_eq!(nodes[0].y_bits, 0);
    let edges = g.edges();
    assert_eq!(edges[0].source, 10);
    assert_eq!(edges[0].target, 20);
}

#[test]
fn decode_without_labels_gives_empty_labels() {
    let mut v = header(1, 0, 0);
    push_u32(&mut v, 42);
    push_f32(&mut v, 0.0);
    push_u16(&mut v, 0);
    let mut d = Decoder::new(&v);
    let g = match d.decode_graph() {
        Ok(g) => g,
        Err(e) => panic!("decode failed: {:?}", e),
    };
    assert_eq!(g.node_count(), 1);
    assert_eq!(g.nodes()[0].label, "");
    assert_eq!(g.nodes()[0].id, 42);
}

#[test]
fn empty_graph_decodes_to_nothing() {
    let v = header(0, 0, 0);
    let mut d = Decoder::new(&v);
    let g = match d.decode_graph() {
        Ok(g) => g,
        Err(e) => panic!("decode failed: {:?}", e),
    };
    assert_eq!(g.node_count(), 0);
    assert_eq!(g.edge_count(), 0);
}

#[test]
fn compressed_flag_is_tolerated() {
    let mut v = header(1, 0, 1); // Compressed bit set, no labels
    push_u32(&mut v, 7);
    push_f32(&mut v, 0.0);
    push_u16(&mut v, 0);
    let mut d = Decoder::new(&v);
    let g = match d.decode_graph() {
        Ok(g) => g,
        Err(e) => panic!("decode failed: {:?}", e),
    };
    assert_eq!(g.nodes()[0].id, 7);
    assert_eq!(g.nodes()[0].label, "");
}

#[test]
fn short_buffer_is_truncated() {
    let v = labeled_buffer();
    let short = &v[..10];
    let mut d = Decoder::new(short);
    match d.decode_graph() {
        Err(e) => assert_eq!(e, DecodeError::TruncatedBuffer),
        Ok(_) => panic!("decode of a 10-byte buffer succeeded"),
    }
}

#[test]
fn altered_magic_is_rejected() {
    let mut v = labeled_buffer();
    v[0] = 0xAA;
    v[1] = 0xBB;
    v[2] = 0xCC;
    v[3] = 0xDD;
    let mut d = Decoder::new(&v);
    match d.decode_graph() {
        Err(e) => assert_eq!(e, DecodeError::BadMagic),
        Ok(_) => panic!("decode with a wrong magic succeeded"),
    }
}

#[test]
fn wrong_version_is_rejected() {
    let mut v = labeled_buffer();
    v[4] = 9;
    let mut d = Decoder::new(&v);
    match d.decode_graph() {
        Err(e) => assert_eq!(e, DecodeError::UnsupportedVersion),
        Ok(_) => panic!("decode with version 9 succeeded"),
    }
}

#[test]
fn non_utf8_label_is_invalid_text() {
    let mut v = header(1, 0, 2);
    push_u32(&mut v, 2); // blob length
    push_u32(&mut v, 0); // label 0 at offset 0
    v.push(0xFF); // not valid UTF-8
    v.push(0xFE);
    push_u32(&mut v, 1);
    push_f32(&mut v, 0.0);
    push_u16(&mut v, 0);
    let mut d = Decoder::new(&v);
    match d.decode_graph() {
        Err(e) => assert_eq!(e, DecodeError::InvalidText),
        Ok(_) => panic!("decode of invalid UTF-8 succeeded"),
    }
}

#[test]
fn backwards_offsets_are_out_of_range() {
    let mut v = header(2, 0, 2);
    push_u32(&mut v, 4); // blob length
    push_u32(&mut v, 3); // label 0 at offset 3
    push_u32(&mut v, 1); // label 1 at offset 1: ends before it starts
    v.extend_from_slice(b"abcd");
    push_u32(&mut v, 1);
    push_u32(&mut v, 2);
    push_f32(&mut v, 0.0);
    push_f32(&mut v, 0.0);
    push_u16(&mut v, 0);
    push_u16(&mut v, 0);
    let mut d = Decoder::new(&v);
    match d.decode_graph() {
        Err(e) => assert_eq!(e, DecodeError::OutOfRange),
        Ok(_) => panic!("decode with backwards offsets succeeded"),
    }
}

#[test]
fn missing_payload_is_truncated() {
    let mut v = header(2, 1, 0);
    push_u32(&mut v, 1); // only one id of the declared two
    let mut d = Decoder::new(&v);
    match d.decode_graph() {
        Err(e) => assert_eq!(e, DecodeError::TruncatedBuffer),
        Ok(_) => panic!("decode of a cut-off payload succeeded"),
    }
}

#[test]
fn decoder_primitives_advance_in_order() {
    let mut v = Vec::new();
    push_u32(&mut v, 0xDEADBEEF);
    push_u16(&mut v, 0x1234);
    v.extend_from_slice(b"xyz");
    let mut d = Decoder::new(&v);
    assert_eq!(d.read_u32(), Ok(0xDEADBEEF));
    assert_eq!(d.read_u16(), Ok(0x1234));
    assert_eq!(d.read_bytes(3).unwrap(), b"xyz".to_vec());
    assert_eq!(d.read_u16(), Err(DecodeError::TruncatedBuffer));
}

#[test]
fn array_reads_split_columns() {
    let mut v = Vec::new();
    push_u32(&mut v, 1);
    push_u32(&mut v, 2);
    push_u32(&mut v, 3);
    push_u16(&mut v, 7);
    let mut d = Decoder::new(&v);
    assert_eq!(d.read_u32_array(3).unwrap(), vec![1, 2, 3]);
    assert_eq!(d.read_u16_array(1).unwrap(), vec![7]);
    assert!(d.read_u32_array(1).is_err());
}
