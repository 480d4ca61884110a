use bier_rust::bier::{
    bitstring_length, decode, encode, Bier, BierPacket, CodecError, MutableBierPacket,
};

fn sample(bsl: u8, words: usize) -> Bier {
    Bier {
        bift_id: 0xabcde,
        tc: 5,
        s: 1,
        ttl: 255,
        nibble: 2,
        version: 3,
        bsl,
        entropy: 0xfffff,
        oam: 1,
        rsv: 2,
        dscp4: 3,
        dscp2: 1,
        proto: 6,
        bfir_id: 0x1234,
        bitstring: vec![0x8000_0001; words],
        payload: vec![9, 8, 7],
    }
}

fn same(a: &Bier, b: &Bier) -> bool {
    a.bift_id == b.bift_id
        && a.tc == b.tc
        && a.s == b.s
        && a.ttl == b.ttl
        && a.nibble == b.nibble
        && a.version == b.version
        && a.bsl == b.bsl
        && a.entropy == b.entropy
        && a.oam == b.oam
        && a.rsv == b.rsv
        && a.dscp4 == b.dscp4
        && a.dscp2 == b.dscp2
        && a.proto == b.proto
        && a.bfir_id == b.bfir_id
        && a.bitstring == b.bitstring
        && a.payload == b.payload
}

#[test]
fn header_layout_bytes() {
    let h = sample(1, 2);
    let b = encode(&h).unwrap();
    assert_eq!(
        &b[..12],
        &[0xab, 0xcd, 0xeb, 0xff, 0x23, 0x1f, 0xff, 0xff, 0x63, 0x46, 0x12, 0x34]
    );
    assert_eq!(&b[12..20], &[0x80, 0, 0, 1, 0x80, 0, 0, 1]);
    assert_eq!(&b[20..], &[9, 8, 7]);
}

#[test]
fn round_trip_recovers_every_field() {
    for bsl in 1u8..=7 {
        let words = bitstring_length(bsl).unwrap();
        let mut h = sample(bsl, words);
        for (i, w) in h.bitstring.iter_mut().enumerate() {
            *w = (i as u32).wrapping_mul(0x9e37_79b9);
        }
        let bytes = encode(&h).unwrap();
        let back = decode(&bytes).unwrap();
        assert!(same(&h, &back));
    }
}

#[test]
fn bsl_for_256_bits_all_set() {
    let words = bitstring_length(3).unwrap();
    assert_eq!(words * 32, 256);
    let mut h = sample(3, words);
    h.bitstring = vec![u32::MAX; words];
    let bytes = encode(&h).unwrap();
    assert_eq!(bytes.len(), 12 + 32 + 3);
    let back = decode(&bytes).unwrap();
    assert_eq!(back.bitstring.len() * 32, 256);
    assert!(back.bitstring.iter().all(|w| *w == u32::MAX));
}

#[test]
fn bitstring_lengths() {
    assert_eq!(bitstring_length(0), None);
    assert_eq!(bitstring_length(1), Some(2));
    assert_eq!(bitstring_length(7), Some(128));
    assert_eq!(bitstring_length(8), None);
}

#[test]
fn encode_rejects_wide_fields() {
    let mut h = sample(1, 2);
    h.entropy = 1 << 20;
    assert_eq!(encode(&h).unwrap_err(), CodecError::FieldOverflow);
    let mut h = sample(1, 2);
    h.dscp4 = 16;
    assert_eq!(encode(&h).unwrap_err(), CodecError::FieldOverflow);
}

#[test]
fn encode_rejects_unsupported_bsl() {
    let h = sample(0, 1);
    assert_eq!(encode(&h).unwrap_err(), CodecError::UnsupportedBSL);
}

#[test]
fn encode_rejects_wrong_bitstring_length() {
    let h = sample(2, 3);
    assert_eq!(encode(&h).unwrap_err(), CodecError::BitStringLength);
}

#[test]
fn decode_rejects_short_buffers() {
    assert_eq!(decode(&[0u8; 11]).unwrap_err(), CodecError::TruncatedHeader);
    let bytes = encode(&sample(2, 4)).unwrap();
    assert_eq!(decode(&bytes[..12 + 15]).unwrap_err(), CodecError::TruncatedHeader);
}

#[test]
fn decode_rejects_unsupported_bsl() {
    let mut buf = [0u8; 40];
    buf[5] = 0x80;
    assert_eq!(decode(&buf).unwrap_err(), CodecError::UnsupportedBSL);
}

#[test]
fn dscp_is_one_six_bit_unit() {
    let mut h = sample(1, 2);
    assert_eq!(h.get_dscp(), 13);
    h.set_dscp(0x2d);
    assert_eq!(h.dscp4, 0xb);
    assert_eq!(h.dscp2, 1);
    assert_eq!(h.get_dscp(), 0x2d);
}

#[test]
fn packet_views_read_and_write_dscp_in_place() {
    let h = sample(1, 2);
    let bytes = encode(&h).unwrap();
    assert_eq!(BierPacket::new(&bytes).unwrap().get_dscp(), 13);
    let mut p = MutableBierPacket::new(bytes.clone()).unwrap();
    p.set_dscp(0x2d);
    assert_eq!(p.get_dscp(), 0x2d);
    let written = p.into_bytes();
    for i in 0..written.len() {
        if i != 8 && i != 9 {
            assert_eq!(written[i], bytes[i]);
        }
    }
    let back = decode(&written).unwrap();
    assert_eq!(back.dscp4, 0xb);
    assert_eq!(back.dscp2, 1);
    assert_eq!(back.oam, h.oam);
    assert_eq!(back.rsv, h.rsv);
    assert_eq!(back.proto, h.proto);
}

#[test]
fn packet_views_need_the_fixed_bytes() {
    assert!(BierPacket::new(&[0u8; 11]).is_none());
    assert!(MutableBierPacket::new(vec![0u8; 11]).is_none());
}
