use treebee::buffer::Buffer;
use treebee::com::BeeError;
use treebee::protocol::rdb::{
    encode_length_14, encode_length_32, encode_length_6, encode_length_64, intset_items,
    read_length_at, read_object_at, read_string_at, DecodeEvent, Entry, LenParse, ObjRead,
    RDBParser, RedisObject, StrRead, ZSetPair, ZSetPair2,
};

fn buf_of(bytes: &[u8]) -> Buffer {
    let mut b = Buffer::new();
    b.feed(bytes);
    b
}

fn header(version: &str) -> Vec<u8> {
    let mut v = b"REDIS".to_vec();
    v.extend_from_slice(version.as_bytes());
    v
}

#[test]
fn header_valid_advances_nine_bytes() {
    // "REDIS0009" then EOF then an 8-byte checksum: version 9 accepted.
    let mut bytes = header("0009");
    bytes.push(255);
    bytes.extend_from_slice(b"12345678");
    let mut buf = buf_of(&bytes);
    let mut p = RDBParser::new();
    assert_eq!(p.decode(&mut buf), Ok(DecodeEvent::EndOfStream));
    assert_eq!(buf.remaining(), 0);
}

#[test]
fn header_valid_low_version_has_no_checksum() {
    // Versions before the checksum era expect no trailing bytes.
    let mut bytes = header("0001");
    bytes.push(255);
    let mut buf = buf_of(&bytes);
    let mut p = RDBParser::new();
    assert_eq!(p.decode(&mut buf), Ok(DecodeEvent::EndOfStream));
    assert_eq!(buf.remaining(), 0);
}

#[test]
fn header_bad_version_fails_before_records() {
    let mut bytes = header("0099");
    bytes.push(0);
    bytes.extend_from_slice(&[3, b'f', b'o', b'o']);
    let mut buf = buf_of(&bytes);
    let before = buf.remaining();
    let mut p = RDBParser::new();
    assert_eq!(p.decode(&mut buf), Err(BeeError::BadVersion { version: 99 }));
    // Nothing was consumed.
    assert_eq!(buf.remaining(), before);
}

#[test]
fn header_version_zero_is_rejected() {
    let bytes = header("0000");
    let mut buf = buf_of(&bytes);
    let mut p = RDBParser::new();
    assert_eq!(p.decode(&mut buf), Err(BeeError::BadVersion { version: 0 }));
}

#[test]
fn header_bad_magic() {
    let mut bytes = b"RUBIS".to_vec();
    bytes.extend_from_slice(b"0009");
    let mut buf = buf_of(&bytes);
    let mut p = RDBParser::new();
    assert_eq!(
        p.decode(&mut buf),
        Err(BeeError::BadMagicString { head: b"RUBIS".to_vec() })
    );
}

fn minimal_stream() -> Vec<u8> {
    let mut bytes = header("0009");
    bytes.extend_from_slice(&[254, 0]); // SELECTDB 0
    bytes.push(0); // type tag: string
    bytes.extend_from_slice(&[3, b'f', b'o', b'o']); // key
    bytes.extend_from_slice(&[3, b'b', b'a', b'r']); // value
    bytes.push(255); // EOF
    bytes.extend_from_slice(b"12345678"); // checksum
    bytes
}

#[test]
fn minimal_stream_yields_one_entry() {
    let mut buf = buf_of(&minimal_stream());
    let mut p = RDBParser::new();
    let entry = Entry {
        key: b"foo".to_vec(),
        expire: None,
        data: RedisObject::Raw(b"bar".to_vec()),
    };
    assert_eq!(p.decode(&mut buf), Ok(DecodeEvent::Entry(entry)));
    assert_eq!(p.decode(&mut buf), Ok(DecodeEvent::EndOfStream));
    assert_eq!(buf.remaining(), 0);
}

#[test]
fn expire_ms_opcode_attaches_to_the_record() {
    let t: u64 = 1700000000123;
    let mut bytes = header("0009");
    bytes.extend_from_slice(&[254, 0]);
    bytes.push(252); // EXPIRETIME_MS
    bytes.extend_from_slice(&t.to_le_bytes());
    bytes.push(0);
    bytes.extend_from_slice(&[3, b'f', b'o', b'o']);
    bytes.extend_from_slice(&[3, b'b', b'a', b'r']);
    bytes.push(255);
    bytes.extend_from_slice(b"12345678");
    let mut buf = buf_of(&bytes);
    let mut p = RDBParser::new();
    match p.decode(&mut buf) {
        Ok(DecodeEvent::Entry(e)) => {
            assert_eq!(e.key, b"foo".to_vec());
            assert_eq!(e.expire, Some(t));
            assert_eq!(e.data, RedisObject::Raw(b"bar".to_vec()));
        }
        other => panic!("unexpected outcome: {:?}", other),
    }
    assert_eq!(p.decode(&mut buf), Ok(DecodeEvent::EndOfStream));
}

#[test]
fn expire_seconds_opcode_scales_to_milliseconds() {
    let secs: u32 = 1700000000;
    let mut bytes = header("0009");
    bytes.push(253); // EXPIRETIME (seconds)
    bytes.extend_from_slice(&secs.to_le_bytes());
    bytes.push(0);
    bytes.extend_from_slice(&[1, b'k']);
    bytes.extend_from_slice(&[1, b'v']);
    let mut buf = buf_of(&bytes);
    let mut p = RDBParser::new();
    match p.decode(&mut buf) {
        Ok(DecodeEvent::Entry(e)) => {
            assert_eq!(e.expire, Some(secs as u64 * 1000));
        }
        other => panic!("unexpected outcome: {:?}", other),
    }
}

#[test]
fn byte_at_a_time_matches_one_shot() {
    let bytes = minimal_stream();
    let mut buf = Buffer::new();
    let mut p = RDBParser::new();
    let mut events: Vec<DecodeEvent> = Vec::new();
    let mut fed = 0usize;
    loop {
        match p.decode(&mut buf) {
            Ok(DecodeEvent::EndOfStream) => {
                events.push(DecodeEvent::EndOfStream);
                break;
            }
            Ok(ev) => events.push(ev),
            Err(BeeError::More) => {
                assert!(fed < bytes.len(), "decoder still hungry after whole stream");
                buf.feed(&bytes[fed..fed + 1]);
                fed += 1;
            }
            Err(e) => panic!("unexpected error: {:?}", e),
        }
    }
    let entry = Entry {
        key: b"foo".to_vec(),
        expire: None,
        data: RedisObject::Raw(b"bar".to_vec()),
    };
    assert_eq!(
        events,
        vec![DecodeEvent::Entry(entry), DecodeEvent::EndOfStream]
    );
}

#[test]
fn module_tag_is_unsupported_and_consumes_nothing_further() {
    let mut bytes = header("0009");
    bytes.push(6); // module type tag
    bytes.extend_from_slice(&[3, b'f', b'o', b'o']);
    bytes.extend_from_slice(&[3, b'b', b'a', b'r']);
    let mut buf = buf_of(&bytes);
    let mut p = RDBParser::new();
    assert_eq!(
        p.decode(&mut buf),
        Err(BeeError::UnsupportedFeature { tag: 6 })
    );
    // The record was not committed; a retry sees the same tag, no later
    // bytes were interpreted as a fresh record.
    assert_eq!(
        p.decode(&mut buf),
        Err(BeeError::UnsupportedFeature { tag: 6 })
    );
}

#[test]
fn module_aux_opcode_is_unsupported() {
    let mut bytes = header("0009");
    bytes.push(247);
    let mut buf = buf_of(&bytes);
    let mut p = RDBParser::new();
    assert_eq!(
        p.decode(&mut buf),
        Err(BeeError::UnsupportedFeature { tag: 247 })
    );
}

#[test]
fn aux_fields_surface_as_events() {
    let mut bytes = header("0009");
    bytes.push(250);
    bytes.extend_from_slice(&[1, b'k']);
    bytes.extend_from_slice(&[1, b'v']);
    let mut buf = buf_of(&bytes);
    let mut p = RDBParser::new();
    assert_eq!(
        p.decode(&mut buf),
        Ok(DecodeEvent::Aux { key: b"k".to_vec(), value: b"v".to_vec() })
    );
}

#[test]
fn short_buffer_is_retryable_and_leaves_position_unchanged() {
    let mut buf = buf_of(b"REDIS00");
    let mut p = RDBParser::new();
    assert_eq!(p.decode(&mut buf), Err(BeeError::More));
    assert_eq!(buf.remaining(), 7);
    assert_eq!(p.decode(&mut buf), Err(BeeError::More));
    assert_eq!(buf.remaining(), 7);
}

#[test]
fn length_roundtrip_boundaries() {
    let cases6: [u64; 2] = [0, 63];
    for l in cases6 {
        let mut buf = buf_of(&encode_length_6(l));
        assert_eq!(read_length_at(&mut buf, 0), LenParse::Literal { value: l, used: 1 });
    }
    let cases14: [u64; 2] = [64, 16383];
    for l in cases14 {
        let buf = buf_of(&encode_length_14(l));
        assert_eq!(read_length_at(&buf, 0), LenParse::Literal { value: l, used: 2 });
    }
    let cases32: [u64; 2] = [16384, 4294967295];
    for l in cases32 {
        let buf = buf_of(&encode_length_32(l));
        assert_eq!(read_length_at(&buf, 0), LenParse::Literal { value: l, used: 5 });
    }
    let buf = buf_of(&encode_length_64(4294967296));
    assert_eq!(
        read_length_at(&buf, 0),
        LenParse::Literal { value: 4294967296, used: 9 }
    );
}

#[test]
fn length_unknown_class_is_not_a_number() {
    let buf = buf_of(&[0x82]);
    assert_eq!(read_length_at(&buf, 0), LenParse::BadClass);
    match read_string_at(&buf, 0) {
        StrRead::Fail { err } => assert_eq!(err, BeeError::NotNumber),
        other => panic!("unexpected outcome: {:?}", other),
    }
}

#[test]
fn integer_string_encodings_decode_to_decimal_text() {
    let cases8: [i8; 4] = [0, -1, 127, -128];
    for i in cases8 {
        let buf = buf_of(&[192, i as u8]);
        match read_string_at(&buf, 0) {
            StrRead::Bytes { value, used } => {
                assert_eq!(value, format!("{}", i).into_bytes());
                assert_eq!(used, 2);
            }
            other => panic!("unexpected outcome: {:?}", other),
        }
    }
    let cases16: [i16; 2] = [32767, -32768];
    for i in cases16 {
        let mut bytes = vec![193u8];
        bytes.extend_from_slice(&i.to_le_bytes());
        let buf = buf_of(&bytes);
        match read_string_at(&buf, 0) {
            StrRead::Bytes { value, used } => {
                assert_eq!(value, format!("{}", i).into_bytes());
                assert_eq!(used, 3);
            }
            other => panic!("unexpected outcome: {:?}", other),
        }
    }
    let mut bytes = vec![194u8];
    bytes.extend_from_slice(&2147483647i32.to_le_bytes());
    let buf = buf_of(&bytes);
    match read_string_at(&buf, 0) {
        StrRead::Bytes { value, used } => {
            assert_eq!(value, b"2147483647".to_vec());
            assert_eq!(used, 5);
        }
        other => panic!("unexpected outcome: {:?}", other),
    }
}

#[test]
fn invalid_encoding_selector_is_fatal() {
    let buf = buf_of(&[0xC4, 1, 2, 3]);
    match read_string_at(&buf, 0) {
        StrRead::Fail { err } => {
            assert_eq!(err, BeeError::InvalidEncodingSelector { selector: 4 })
        }
        other => panic!("unexpected outcome: {:?}", other),
    }
}

fn lzf_string(payload: &[u8], ulen: u64) -> Vec<u8> {
    let mut bytes = vec![0xC3u8];
    bytes.extend_from_slice(&encode_length_32(payload.len() as u64));
    bytes.extend_from_slice(&encode_length_32(ulen));
    bytes.extend_from_slice(payload);
    bytes
}

#[test]
fn lzf_roundtrip_through_string_decoder() {
    let data: Vec<u8> = b"abcabcabcabcabcabcabcabcabcabcabcabc".to_vec();
    let compressed = lzf::compress(&data).expect("compressible input");
    assert_ne!(compressed, data);
    let bytes = lzf_string(&compressed, data.len() as u64);
    let buf = buf_of(&bytes);
    match read_string_at(&buf, 0) {
        StrRead::Bytes { value, used } => {
            assert_eq!(value, data);
            assert_eq!(used, bytes.len());
        }
        other => panic!("unexpected outcome: {:?}", other),
    }
}

#[test]
fn truncated_lzf_payload_needs_more_data_not_failure() {
    let data: Vec<u8> = b"abcabcabcabcabcabcabcabcabcabcabcabc".to_vec();
    let compressed = lzf::compress(&data).expect("compressible input");
    let bytes = lzf_string(&compressed, data.len() as u64);
    let buf = buf_of(&bytes[..bytes.len() - 1]);
    assert_eq!(read_string_at(&buf, 0), StrRead::More);
}

#[test]
fn corrupt_lzf_payload_is_a_compression_failure() {
    // Declares four compressed bytes that do not decompress to ten bytes.
    let bytes = lzf_string(&[0xE0, 0xFF, 0xFF, 0xFF], 10);
    let buf = buf_of(&bytes);
    match read_string_at(&buf, 0) {
        StrRead::Fail { err } => assert_eq!(err, BeeError::CompressionFailure),
        other => panic!("unexpected outcome: {:?}", other),
    }
}

#[test]
fn list_and_set_objects_decode_in_order() {
    let payload = [2u8, 3, b'f', b'o', b'o', 3, b'b', b'a', b'r'];
    let buf = buf_of(&payload);
    match read_object_at(&buf, 0, 1) {
        ObjRead::Done { val, used } => {
            assert_eq!(val, RedisObject::List(vec![b"foo".to_vec(), b"bar".to_vec()]));
            assert_eq!(used, payload.len());
        }
        other => panic!("unexpected outcome: {:?}", other),
    }
    match read_object_at(&buf, 0, 2) {
        ObjRead::Done { val, .. } => {
            assert_eq!(val, RedisObject::SetVal(vec![b"foo".to_vec(), b"bar".to_vec()]));
        }
        other => panic!("unexpected outcome: {:?}", other),
    }
}

#[test]
fn set_keeps_duplicates_as_encoded() {
    let payload = [2u8, 1, b'a', 1, b'a'];
    let buf = buf_of(&payload);
    match read_object_at(&buf, 0, 2) {
        ObjRead::Done { val, .. } => {
            assert_eq!(val, RedisObject::SetVal(vec![b"a".to_vec(), b"a".to_vec()]));
        }
        other => panic!("unexpected outcome: {:?}", other),
    }
}

#[test]
fn hash_object_keeps_insertion_order() {
    let payload = [2u8, 1, b'a', 1, b'1', 1, b'b', 1, b'2'];
    let buf = buf_of(&payload);
    match read_object_at(&buf, 0, 4) {
        ObjRead::Done { val, used } => {
            assert_eq!(
                val,
                RedisObject::Hash(vec![
                    (b"a".to_vec(), b"1".to_vec()),
                    (b"b".to_vec(), b"2".to_vec()),
                ])
            );
            assert_eq!(used, payload.len());
        }
        other => panic!("unexpected outcome: {:?}", other),
    }
}

#[test]
fn sorted_set_textual_scores() {
    let mut payload = vec![2u8];
    payload.extend_from_slice(&[3, b'f', b'o', b'o']);
    payload.extend_from_slice(&[3, b'1', b'.', b'5']); // score text "1.5"
    payload.extend_from_slice(&[3, b'b', b'a', b'r']);
    payload.push(254); // +infinity marker
    let buf = buf_of(&payload);
    match read_object_at(&buf, 0, 3) {
        ObjRead::Done { val, .. } => {
            assert_eq!(
                val,
                RedisObject::ZSet(vec![
                    ZSetPair { member: b"foo".to_vec(), score: b"1.5".to_vec() },
                    ZSetPair { member: b"bar".to_vec(), score: b"inf".to_vec() },
                ])
            );
        }
        other => panic!("unexpected outcome: {:?}", other),
    }
}

#[test]
fn sorted_set_binary_scores_keep_bits() {
    let bits: u64 = 0x3FF8000000000000; // the IEEE-754 spelling of 1.5
    let mut payload = vec![1u8];
    payload.extend_from_slice(&[3, b'f', b'o', b'o']);
    payload.extend_from_slice(&bits.to_le_bytes());
    let buf = buf_of(&payload);
    match read_object_at(&buf, 0, 5) {
        ObjRead::Done { val, .. } => {
            assert_eq!(
                val,
                RedisObject::ZSet2(vec![ZSetPair2 { member: b"foo".to_vec(), score_bits: bits }])
            );
            assert_eq!(f64::from_bits(bits), 1.5);
        }
        other => panic!("unexpected outcome: {:?}", other),
    }
}

#[test]
fn intset_decodes_to_decimal_texts() {
    let mut blob = Vec::new();
    blob.extend_from_slice(&2u32.to_le_bytes()); // width
    blob.extend_from_slice(&2u32.to_le_bytes()); // count
    blob.extend_from_slice(&1i16.to_le_bytes());
    blob.extend_from_slice(&(-1i16).to_le_bytes());
    let items = intset_items(&blob).expect("well-formed integer set");
    assert_eq!(items, vec![b"1".to_vec(), b"-1".to_vec()]);

    // Wrapped as the usual single-string payload of a set object.
    let mut payload = vec![blob.len() as u8];
    payload.extend_from_slice(&blob);
    let buf = buf_of(&payload);
    match read_object_at(&buf, 0, 11) {
        ObjRead::Done { val, used } => {
            assert_eq!(val, RedisObject::SetVal(vec![b"1".to_vec(), b"-1".to_vec()]));
            assert_eq!(used, payload.len());
        }
        other => panic!("unexpected outcome: {:?}", other),
    }
}

#[test]
fn intset_bad_width_is_an_invalid_encoding() {
    let mut blob = Vec::new();
    blob.extend_from_slice(&3u32.to_le_bytes());
    blob.extend_from_slice(&0u32.to_le_bytes());
    assert!(intset_items(&blob).is_none());
    let mut payload = vec![blob.len() as u8];
    payload.extend_from_slice(&blob);
    let buf = buf_of(&payload);
    match read_object_at(&buf, 0, 11) {
        ObjRead::Fail { err } => {
            assert_eq!(err, BeeError::InvalidEncodingSelector { selector: 3 })
        }
        other => panic!("unexpected outcome: {:?}", other),
    }
}

#[test]
fn quicklist_and_stream_tags_are_unsupported() {
    let buf = buf_of(&[1u8, 1, b'x']);
    for tag in [9u8, 10, 12, 13, 14, 15, 7] {
        match read_object_at(&buf, 0, tag) {
            ObjRead::Fail { err } => {
                assert_eq!(err, BeeError::UnsupportedFeature { tag })
            }
            other => panic!("unexpected outcome: {:?}", other),
        }
    }
}

#[test]
fn idle_freq_and_resize_hints_are_consumed() {
    let mut bytes = header("0009");
    bytes.extend_from_slice(&[248, 5]); // IDLE 5
    bytes.extend_from_slice(&[249, 7]); // FREQ 7
    bytes.extend_from_slice(&[251, 4, 2]); // RESIZEDB hints
    bytes.push(0);
    bytes.extend_from_slice(&[1, b'k']);
    bytes.extend_from_slice(&[1, b'v']);
    let mut buf = buf_of(&bytes);
    let mut p = RDBParser::new();
    match p.decode(&mut buf) {
        Ok(DecodeEvent::Entry(e)) => {
            assert_eq!(e.key, b"k".to_vec());
            assert_eq!(e.data, RedisObject::Raw(b"v".to_vec()));
        }
        other => panic!("unexpected outcome: {:?}", other),
    }
}
