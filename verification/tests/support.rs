use ratatosk_transport::chatmail::http::{body_of, dechunk, find, status_code, HttpError};
use ratatosk_transport::chatmail::json::{field, unescape};
use ratatosk_transport::chatmail::letter::{packet, unpacket, ARMOR_BEGIN};
use ratatosk_transport::chatmail::{build_message, parse_message, MessageError};
use ratatosk_transport::octets::{be_bytes_u32, be_bytes_u64, be_value};
use ratatosk_transport::sorted::SortedTable;
use ratatosk_transport::table::Table;
use ratatosk_transport::text::{
    chars_of, decimal, find_chars, parse_number, split_word, text_of, to_lower, trim, utf8_chars,
};
use ratatosk_transport::wire::{
    assemble_into, parse, unpad, FrameType, Header, SizeClass, WireError, HEADER_LEN,
};

#[test]
fn numbers_are_written_and_read_back() {
    for n in [0u64, 9, 10, 1_000, u64::MAX] {
        let text = decimal(n);
        assert_eq!(text, n.to_string());
        assert_eq!(parse_number(&chars_of(&text), 10, u64::MAX), Some(n));
    }
    assert_eq!(parse_number(&chars_of("fF"), 16, u64::MAX), Some(255));
    assert_eq!(parse_number(&chars_of("18446744073709551616"), 10, u64::MAX), None);
    assert_eq!(parse_number(&chars_of("256"), 10, 255), None);
    assert_eq!(parse_number(&chars_of(""), 10, 255), None);
    assert_eq!(parse_number(&chars_of("1a"), 10, 255), None);
}

#[test]
fn bytes_are_text_only_where_they_are_valid() {
    assert_eq!(utf8_chars("ящик".as_bytes()), Some(vec!['я', 'щ', 'и', 'к']));
    assert_eq!(utf8_chars(&[0xff, 0xfe]), None);
    assert_eq!(text_of(&['a', 'я']), "aя");
}

#[test]
fn text_is_searched_and_trimmed() {
    let hay = chars_of("abcabc");
    assert_eq!(find_chars(&hay, &chars_of("bc"), 0), Some(1));
    assert_eq!(find_chars(&hay, &chars_of("bc"), 2), Some(4));
    assert_eq!(find_chars(&hay, &chars_of("x"), 0), None);
    let padded = chars_of(" \t a b \n");
    assert_eq!(text_of(trim(&padded)), "a b");
    let words = chars_of("  SIZE 5 ");
    let (first, rest) = split_word(&words);
    assert_eq!(text_of(first), "SIZE");
    assert_eq!(text_of(split_word(rest).0), "5");
    assert_eq!(text_of(&to_lower(&chars_of("Content-LENGTH"))), "content-length");
}

#[test]
fn numbers_stand_with_the_high_byte_first() {
    assert_eq!(be_bytes_u64(0x0102_0304_0506_0708), [1, 2, 3, 4, 5, 6, 7, 8]);
    assert_eq!(be_bytes_u32(0xdead_beef), [0xde, 0xad, 0xbe, 0xef]);
    assert_eq!(be_value(&[1, 2, 3]), 0x0001_0203);
    assert_eq!(be_value(&be_bytes_u64(u64::MAX)), u64::MAX);
}

#[test]
fn a_table_keeps_one_row_for_a_name() {
    let mut table: Table<String, u8> = Table::new();
    assert_eq!(table.insert("b".to_owned(), 1), None);
    assert_eq!(table.insert("a".to_owned(), 2), None);
    assert_eq!(table.insert("b".to_owned(), 3), Some(1));
    assert_eq!(table.len(), 2);
    assert_eq!(table.name_at(0), "b");
    assert_eq!(*table.value_at(0), 3);
    assert_eq!(table.get(&"a".to_owned()), Some(&2));
    assert_eq!(table.remove(&"b".to_owned()), Some(3));
    assert!(!table.contains(&"b".to_owned()));
    let _ = table.insert("c".to_owned(), 4);
    assert_eq!((table.name_at(0).as_str(), table.name_at(1).as_str()), ("a", "c"));
}

#[test]
fn a_sorted_table_stands_in_order() {
    let mut table: SortedTable<[u8; 32], u8> = SortedTable::new();
    for n in [5u8, 1, 9, 5] {
        table.insert([n; 32], n + 100);
    }
    assert_eq!(table.len(), 3);
    let order: Vec<u8> = (0..table.len()).map(|i| table.name_at(i)[0]).collect();
    assert_eq!(order, vec![1, 5, 9]);
    assert_eq!(table.get(&[5; 32]), Some(&105));
    assert_eq!(table.remove(&[1; 32]), Some(101));
    assert_eq!(table.remove(&[1; 32]), None);
    table.clear();
    assert_eq!(table.len(), 0);

    let mut named: SortedTable<String, u8> = SortedTable::new();
    for name in ["wss://b", "wss://a", "wss://ab"] {
        named.insert(name.to_owned(), 0);
    }
    let order: Vec<&str> = (0..named.len()).map(|i| named.name_at(i).as_str()).collect();
    assert_eq!(order, vec!["wss://a", "wss://ab", "wss://b"]);
}

#[test]
fn every_frame_error_has_an_input() {
    let header = Header::new(FrameType::Data, 1, 2, [3u8; 24]);
    let sealed = vec![0u8; SizeClass::S.sealed_len()];
    let mut frame = vec![9u8];
    assert_eq!(assemble_into(&header, &sealed, &mut frame), Ok(()));
    assert_eq!(frame.len(), 1 + SizeClass::S.frame_len());
    assert_eq!(parse(&frame[1..]).unwrap().header, header);

    assert!(matches!(parse(&[0u8; HEADER_LEN]), Err(WireError::BadFrameLength { got: 42 })));
    let mut future = frame[1..].to_vec();
    future[0] = 7;
    assert!(matches!(parse(&future), Err(WireError::UnsupportedVersion { got: 7 })));
    let mut strange = frame[1..].to_vec();
    strange[1] = 9;
    assert!(matches!(parse(&strange), Err(WireError::UnknownFrameType { got: 9 })));
    assert!(matches!(
        Header::decode(&[0u8; 5]),
        Err(WireError::SealedLengthMismatch { got: 5, want: HEADER_LEN })
    ));
    assert!(matches!(
        assemble_into(&header, &[0u8; 10], &mut frame),
        Err(WireError::SealedLengthMismatch { got: 10, .. })
    ));
    assert_eq!(unpad(&[5u8]), Err(WireError::MalformedPadding));
}

#[test]
fn a_letter_between_addresses_that_hold_an_armor_line_still_builds() {
    let odd = "-----BEGIN PGP MESSAGE-----";
    assert!(build_message(odd, "b@nine.example", &[vec![1u8]]).is_ok());
    let unicode = build_message("ящик@пример", "b@nine.example", &[vec![1u8, 2]]).unwrap();
    assert_eq!(parse_message(unicode.as_bytes()), Ok(vec![vec![1u8, 2]]));
}

#[test]
fn a_letter_too_large_to_send_is_refused() {
    let huge = vec![0u8; 24_000_000];
    assert_eq!(
        build_message("a@nine.example", "b@nine.example", &[huge]),
        Err(MessageError::TooLarge)
    );
    assert_eq!(MessageError::Empty.text().is_empty(), false);
}

#[test]
fn a_packet_reads_back_whatever_it_holds() {
    for frame in [vec![], vec![0u8], vec![255u8; 1000]] {
        assert_eq!(unpacket(&packet(&frame)), Ok(frame));
    }
    assert_eq!(unpacket(&[]), Err(MessageError::NotOurPacket));
}

#[test]
fn a_letter_that_is_no_text_is_not_ours() {
    assert!(parse_message(&[0xff, 0xfe, 0xfd]).is_err());
}

#[test]
fn an_answer_is_framed_by_its_headers() {
    assert_eq!(body_of(b"HTTP/1.1 200 OK\r\n\r\nall of it"), Ok(b"all of it".to_vec()));
    assert_eq!(
        body_of(b"HTTP/1.1 200 OK\r\nContent-Length: 3\r\n\r\nabcdef"),
        Ok(b"abc".to_vec())
    );
    assert_eq!(
        body_of(b"HTTP/1.1 200 OK\r\nTransfer-Encoding: chunked\r\n\r\n3\r\nabc\r\n2\r\nde\r\n0\r\n"),
        Ok(b"abcde".to_vec())
    );
    assert_eq!(dechunk(b"zz\r\n"), Err(HttpError::BadLength));
    assert_eq!(find(b"abcabc", b"ca"), Some(2));
    assert_eq!(find(b"abc", b"x"), None);
    assert_eq!(status_code(&chars_of("HTTP/1.1 204 No Content")), Ok(204));
    assert_eq!(status_code(&chars_of("HTTP/1.1 x")), Err(HttpError::NotHttp));
    assert_eq!(HttpError::Status { code: 429 }.text().contains("429"), true);
}

#[test]
fn escapes_are_unfolded_until_the_closing_quote() {
    assert_eq!(unescape(&chars_of("a\\u044f\\/b\" rest")), Some("aя/b".to_owned()));
    assert_eq!(unescape(&chars_of("a\\q\"")), None);
    assert_eq!(field("{\"a\":\"\\b\\f\\r\"}", "a"), Some("\u{8}\u{c}\r".to_owned()));
}

#[test]
fn the_head_of_a_letter_does_not_depend_on_what_it_carries() {
    let head = |frames: &[Vec<u8>]| {
        let letter = build_message("a@nine.example", "b@nine.example", frames).unwrap();
        letter.split(ARMOR_BEGIN).next().unwrap().to_owned()
    };
    assert_eq!(head(&[vec![1u8; 5]]), head(&[vec![2u8; 4096], vec![3u8]]));
}
