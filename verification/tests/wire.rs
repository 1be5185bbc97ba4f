use ratatosk_transport::wire::frame::{assemble, assemble_into, parse};
use ratatosk_transport::wire::header::{
    FrameType, Header, HANDSHAKE_SESSION_ID, HEADER_LEN, NONCE_LEN, TAG_LEN,
};
use ratatosk_transport::wire::pad::{pad_into, pad_to, unpad, PAD_MARKER, PAD_MARKER_LEN};
use ratatosk_transport::wire::size_class::SizeClass;
use ratatosk_transport::wire::WireError;

fn header() -> Header {
    Header::new(FrameType::Data, 77, 1234, [9u8; NONCE_LEN])
}

#[test]
fn round_trip_all_classes() {
    for class in SizeClass::ALL {
        let sealed = vec![0x5Au8; class.sealed_len()];
        let frame = assemble(&header(), &sealed).unwrap();
        assert_eq!(frame.len(), class.frame_len());

        let view = parse(&frame).unwrap();
        assert_eq!(view.class, class);
        assert_eq!(view.header, header());
        assert_eq!(view.sealed, &sealed[..]);
    }
}

#[test]
fn aad_matches_original_bytes() {
    let sealed = vec![0u8; SizeClass::S.sealed_len()];
    let frame = assemble(&header(), &sealed).unwrap();
    let view = parse(&frame).unwrap();
    assert_eq!(&view.aad()[..], &frame[..HEADER_LEN]);
}

#[test]
fn truncated_frame_is_rejected() {
    let sealed = vec![0u8; SizeClass::S.sealed_len()];
    let frame = assemble(&header(), &sealed).unwrap();
    assert!(parse(&frame[..frame.len() - 1]).is_err());
    assert!(parse(&frame[..HEADER_LEN]).is_err());
    assert!(parse(&[]).is_err());
}

#[test]
fn assemble_rejects_off_size_sealed() {
    assert!(assemble(&header(), &[0u8; 10]).is_err());
}

#[test]
fn parse_never_panics() {
    let mut state = 0x243f_6a88_85a3_08d3u64;
    for len in [0usize, 1, 41, 42, 4095, 4096, 4097, 65536] {
        for _ in 0..64 {
            let bytes: Vec<u8> = (0..len)
                .map(|_| {
                    state = state.wrapping_mul(6364136223846793005).wrapping_add(1);
                    (state >> 33) as u8
                })
                .collect();
            let _ = parse(&bytes);
        }
    }
}

fn sample() -> Header {
    let mut nonce = [0u8; NONCE_LEN];
    for (i, b) in nonce.iter_mut().enumerate() {
        *b = i as u8;
    }
    Header::new(FrameType::Data, 0xdead_beef_cafe_f00d, 0x0102_0304_0506_0708, nonce)
}

#[test]
fn header_len_matches_spec() {
    assert_eq!(HEADER_LEN, 42);
}

#[test]
fn round_trip() {
    let h = sample();
    assert_eq!(Header::decode(&h.encode()).unwrap(), h);
}

#[test]
fn big_endian_layout_is_stable() {
    let h = sample();
    let bytes = h.encode();
    assert_eq!(bytes[0], 0);
    assert_eq!(bytes[1], 0x02);
    assert_eq!(&bytes[2..10], &0xdead_beef_cafe_f00du64.to_be_bytes());
    assert_eq!(&bytes[10..18], &0x0102_0304_0506_0708u64.to_be_bytes());
}

#[test]
fn rejects_future_version() {
    let mut bytes = sample().encode();
    bytes[0] = 1;
    assert_eq!(Header::decode(&bytes), Err(WireError::UnsupportedVersion { got: 1 }));
}

#[test]
fn rejects_unknown_type() {
    let mut bytes = sample().encode();
    bytes[1] = 0x03;
    assert_eq!(Header::decode(&bytes), Err(WireError::UnknownFrameType { got: 0x03 }));
}

#[test]
fn handshake_header_carries_zero_session() {
    let h = Header::handshake([0u8; NONCE_LEN]);
    assert!(h.is_handshake());
    assert_eq!(h.session_id, HANDSHAKE_SESSION_ID);
    assert_eq!(h.counter, 0);
}

#[test]
fn round_trip_across_classes() {
    for class in SizeClass::ALL {
        for len in [0usize, 1, 2, 100, class.max_payload()] {
            let payload: Vec<u8> = (0..len).map(|i| (i % 251) as u8).collect();
            let mut buf = Vec::new();
            pad_into(&payload, class, &mut buf).unwrap();
            assert_eq!(buf.len(), class.plaintext_len());
            assert_eq!(unpad(&buf).unwrap(), &payload[..]);
        }
    }
}

#[test]
fn payload_ending_in_zeroes_survives() {
    let payload = vec![0u8; 64];
    let mut buf = Vec::new();
    pad_into(&payload, SizeClass::S, &mut buf).unwrap();
    assert_eq!(unpad(&buf).unwrap(), &payload[..]);
}

#[test]
fn payload_ending_in_marker_survives() {
    let payload = vec![PAD_MARKER; 8];
    let mut buf = Vec::new();
    pad_into(&payload, SizeClass::S, &mut buf).unwrap();
    assert_eq!(unpad(&buf).unwrap(), &payload[..]);
}

#[test]
fn oversized_payload_is_rejected() {
    let payload = vec![1u8; SizeClass::S.max_payload() + 1];
    let mut buf = Vec::new();
    assert!(matches!(
        pad_into(&payload, SizeClass::S, &mut buf),
        Err(WireError::PayloadTooLarge { .. })
    ));
}

#[test]
fn all_zero_plaintext_is_malformed() {
    assert_eq!(unpad(&[0u8; 32]), Err(WireError::MalformedPadding));
    assert_eq!(unpad(&[]), Err(WireError::MalformedPadding));
}

#[test]
fn wrong_marker_is_malformed() {
    let mut buf = vec![1u8, 2, 3, 0x7f];
    buf.resize(64, 0);
    assert_eq!(unpad(&buf), Err(WireError::MalformedPadding));
}

#[test]
fn pad_to_fills_exactly_the_requested_length() {
    for total in [1usize, 2, 64, 4096] {
        let mut buf = Vec::new();
        pad_to(b"", total, &mut buf).unwrap();
        assert_eq!(buf.len(), total);
        assert_eq!(unpad(&buf).unwrap(), b"");
    }
}

#[test]
fn pad_to_round_trips_a_handshake_sized_message() {
    let message = vec![0x5Au8; 300];
    let total = SizeClass::S.sealed_len();
    let mut buf = Vec::new();
    pad_to(&message, total, &mut buf).unwrap();
    assert_eq!(buf.len(), total);
    assert_eq!(unpad(&buf).unwrap(), &message[..]);
}

#[test]
fn pad_to_rejects_payload_without_room_for_the_marker() {
    let mut buf = Vec::new();
    assert!(matches!(
        pad_to(&[1u8; 8], 8, &mut buf),
        Err(WireError::PayloadTooLarge { got: 8, max: 7 })
    ));
    assert!(pad_to(&[], 0, &mut buf).is_err());
}

#[test]
fn pad_into_and_pad_to_agree() {
    for class in SizeClass::ALL {
        let payload = b"same payload";
        let mut a = Vec::new();
        let mut b = Vec::new();
        pad_into(payload, class, &mut a).unwrap();
        pad_to(payload, class.plaintext_len(), &mut b).unwrap();
        assert_eq!(a, b);
    }
}

#[test]
fn pad_appends_and_does_not_clobber() {
    let mut buf = vec![0xAAu8; 42];
    pad_into(b"hi", SizeClass::S, &mut buf).unwrap();
    assert_eq!(&buf[..42], &[0xAAu8; 42][..]);
    assert_eq!(buf.len(), 42 + SizeClass::S.plaintext_len());
}

#[test]
fn frame_lengths_match_spec() {
    assert_eq!(SizeClass::S.frame_len(), 4096);
    assert_eq!(SizeClass::M.frame_len(), 65536);
    assert_eq!(SizeClass::L.frame_len(), 1048576);
}

#[test]
fn classes_are_ordered_ascending() {
    let mut prev = 0;
    for c in SizeClass::ALL {
        assert!(c.frame_len() > prev);
        prev = c.frame_len();
    }
}

#[test]
fn layout_adds_up() {
    for c in SizeClass::ALL {
        assert_eq!(c.frame_len(), HEADER_LEN + c.plaintext_len() + TAG_LEN);
        assert_eq!(c.max_payload() + PAD_MARKER_LEN, c.plaintext_len());
    }
}

#[test]
fn smallest_for_picks_the_smallest() {
    assert_eq!(SizeClass::smallest_for(0), Some(SizeClass::S));
    assert_eq!(SizeClass::smallest_for(SizeClass::S.max_payload()), Some(SizeClass::S));
    assert_eq!(SizeClass::smallest_for(SizeClass::S.max_payload() + 1), Some(SizeClass::M));
    assert_eq!(SizeClass::smallest_for(SizeClass::M.max_payload() + 1), Some(SizeClass::L));
    assert_eq!(SizeClass::smallest_for(SizeClass::L.max_payload() + 1), None);
}

#[test]
fn from_frame_len_rejects_everything_else() {
    assert_eq!(SizeClass::from_frame_len(4096), Ok(SizeClass::S));
    assert!(SizeClass::from_frame_len(4095).is_err());
    assert!(SizeClass::from_frame_len(0).is_err());
    assert!(SizeClass::from_frame_len(usize::MAX).is_err());
}

#[test]
fn a_frame_is_appended_behind_what_is_there() {
    for class in SizeClass::ALL {
        let sealed = vec![5u8; class.sealed_len()];
        let mut out = vec![1u8, 2, 3];
        assert_eq!(assemble_into(&header(), &sealed, &mut out), Ok(()));
        let whole = [header().encode().to_vec(), sealed.clone()].concat();
        assert_eq!(out, [vec![1u8, 2, 3], whole.clone()].concat());
        assert_eq!(assemble(&header(), &sealed), Ok(whole));
    }
    let refused = Err(WireError::SealedLengthMismatch { got: 4_055, want: 4_054 });
    let mut out = vec![1u8, 2, 3];
    assert_eq!(assemble_into(&header(), &[0u8; 4_055], &mut out), refused);
    assert_eq!(out, vec![1u8, 2, 3]);
}
