use ratatosk_transport::chatmail::letter::{
    crc24, packet, unpacket, wrap, ARMOR_BEGIN, ARMOR_END, BOUNDARY, LINE_LEN,
};
use ratatosk_transport::chatmail::{
    build_message, parse_message, MessageError, MAX_MESSAGE_BYTES, SUBJECT,
};
use ratatosk_transport::wire::SizeClass;

#[test]
fn subject_is_constant() {
    assert_eq!(SUBJECT, "[...]");
}

#[test]
fn a_letter_with_a_chunk_fits_the_limit() {
    let frame = vec![0u8; SizeClass::L.frame_len()];
    let message = build_message("a@nine.example", "b@nine.example", &[frame]).unwrap();
    assert!(
        message.len() as u64 <= MAX_MESSAGE_BYTES,
        "письмо с чанком — {} байт при пределе {MAX_MESSAGE_BYTES}",
        message.len()
    );
}

#[test]
fn frames_survive_the_round_trip() {
    let frames = vec![vec![7u8; 4096], vec![9u8; 100], vec![0u8, 255u8, 128u8]];
    let message = build_message("a@nine.example", "b@nine.example", &frames).unwrap();
    assert_eq!(parse_message(message.as_bytes()).unwrap(), frames);
}

#[test]
fn the_envelope_is_the_one_the_server_asks_for() {
    let message = build_message("a@nine.example", "b@nine.example", &[vec![1u8; 64]]).unwrap();
    assert!(message.contains("Content-Type: multipart/encrypted;"));
    assert!(message.contains("protocol=\"application/pgp-encrypted\""));
    assert!(message.contains("Content-Type: application/pgp-encrypted; charset=\"utf-8\""));
    assert!(message.contains(&format!("\r\n\r\nVersion: 1\r\n--{BOUNDARY}\r\n")));
    assert_eq!(
        message.matches("Content-Transfer-Encoding: 7bit").count(),
        2,
        "обе части обязаны объявить кодировку"
    );
    assert!(message.contains(ARMOR_BEGIN));
    assert!(message.contains(ARMOR_END));
    assert!(message.trim_end().ends_with(&format!("--{BOUNDARY}--")));
}

#[test]
fn the_headers_say_nothing_about_the_conversation() {
    let message = build_message("a@nine.example", "b@nine.example", &[vec![1u8; 8]]).unwrap();
    let head = message.split("\r\n\r\n").next().unwrap();
    assert!(head.contains(&format!("Subject: {SUBJECT}")));
    for forbidden in ["Date:", "Message-ID:", "User-Agent:", "X-"] {
        assert!(!head.contains(forbidden), "лишний заголовок {forbidden}: {head}");
    }
}

#[test]
fn a_line_never_grows_past_the_rfc_limit() {
    let message =
        build_message("a@nine.example", "b@nine.example", &[vec![3u8; 5000]]).unwrap();
    let inside = message.split_once(ARMOR_BEGIN).unwrap().1.split_once(ARMOR_END).unwrap().0;
    for line in inside.split("\r\n") {
        assert!(line.len() <= LINE_LEN, "строка длиннее предела RFC 2045: {}", line.len());
    }
}

#[test]
fn a_message_that_lost_its_crlf_still_parses() {
    let message = build_message("a@nine.example", "b@nine.example", &[vec![5u8; 200]]).unwrap();
    let mangled = message.replace("\r\n", "\n");
    assert_eq!(parse_message(mangled.as_bytes()).unwrap(), vec![vec![5u8; 200]]);
}

#[test]
fn armor_headers_from_someone_else_do_not_confuse_us() {
    let frame = vec![42u8; 90];
    let encoded = wrap(&data_encoding::BASE64.encode(&packet(&frame)));
    let letter = format!(
        "Subject: x\r\n\r\n{ARMOR_BEGIN}\r\nVersion: OpenPrivacy 0.99\r\nComment: чужой\
         \r\n\r\n{encoded}\r\n=twTO\r\n{ARMOR_END}\r\n"
    );
    assert_eq!(parse_message(letter.as_bytes()).unwrap(), vec![frame]);
}

#[test]
fn the_frame_travels_inside_a_real_openpgp_packet() {
    let frame = vec![9u8; 4096];
    let packet = packet(&frame);

    assert_eq!(packet[0] & 0xC0, 0xC0, "современный формат пакета");
    assert_eq!(packet[0] & 0x3F, 18, "SEIPD");
    assert_eq!(packet[1], 0xFF, "пятибайтовая длина");
    let declared = u32::from_be_bytes([packet[2], packet[3], packet[4], packet[5]]) as usize;
    assert_eq!(
        declared,
        packet.len() - 6,
        "длина тела обязана сойтись с настоящей до байта: расхождение фильтр отвергнет молча"
    );
    assert_eq!(packet[6], 1, "версия SEIPD");
    assert_eq!(unpacket(&packet).unwrap(), frame);
}

#[test]
fn a_letter_from_a_real_pgp_client_is_not_ours() {
    let foreign = data_encoding::BASE64.encode(b"\x85\x01\x0cRSA-...");
    let letter = format!("{ARMOR_BEGIN}\r\n\r\n{foreign}\r\n=twTO\r\n{ARMOR_END}\r\n");
    assert_eq!(parse_message(letter.as_bytes()), Err(MessageError::NotOurPacket));
}

#[test]
fn a_packet_whose_length_does_not_match_is_refused() {
    let mut short = packet(&[7u8; 32]);
    short.truncate(short.len() - 4);
    assert_eq!(unpacket(&short), Err(MessageError::NotOurPacket));
}

#[test]
fn the_checksum_line_is_not_taken_for_data() {
    let frame = vec![1u8, 2u8, 3u8];
    let letter = build_message("a@nine.example", "b@nine.example", &[frame.clone()]).unwrap();
    assert!(letter.contains("\r\n="), "броня обязана нести контрольную сумму");
    assert_eq!(parse_message(letter.as_bytes()).unwrap(), vec![frame]);
}

#[test]
fn the_checksum_of_nothing_is_the_initial_value() {
    assert_eq!(crc24(&[]), [0xB7, 0x04, 0xCE]);
    assert_eq!(data_encoding::BASE64.encode(&crc24(&[])), "twTO");
}

#[test]
fn rubbish_is_refused_rather_than_guessed_at() {
    assert_eq!(parse_message(b"Subject: Ratatosk"), Err(MessageError::NoBody));
    assert_eq!(parse_message(b"Subject: x\r\n\r\nprivet"), Err(MessageError::NoBody));
    let cut = format!("Subject: x\r\n\r\n{ARMOR_BEGIN}\r\n\r\nAAAA\r\n");
    assert_eq!(parse_message(cut.as_bytes()), Err(MessageError::NoBody));
    let junk = format!("{ARMOR_BEGIN}\r\n\r\n!!!!\r\n{ARMOR_END}\r\n");
    assert_eq!(parse_message(junk.as_bytes()), Err(MessageError::NotBase64));
    let hollow = format!("{ARMOR_BEGIN}\r\n\r\n{ARMOR_END}\r\n");
    assert_eq!(parse_message(hollow.as_bytes()), Err(MessageError::Empty));
}

#[test]
fn an_empty_letter_is_not_sent_at_all() {
    assert_eq!(
        build_message("a@nine.example", "b@nine.example", &[]),
        Err(MessageError::Empty)
    );
}

#[test]
fn a_frame_stands_in_base64_under_its_armor() {
    let body = |frame: &[u8]| {
        let letter = build_message("a@b.cd", "e@f.gh", &[frame.to_vec()]).unwrap();
        letter.split("\r\n").skip_while(|line| *line != ARMOR_BEGIN).nth(2).unwrap().to_owned()
    };
    assert_eq!(body(&[0xfb]), "0v8AAAACAfs=");
    assert_eq!(body(&[0xfb, 0xef]), "0v8AAAADAfvv");
    assert_eq!(body(&[0xfb, 0xef, 0xbe]), "0v8AAAAEAfvvvg==");
}
