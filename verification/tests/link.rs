use ratatosk_transport::link::{
    class_of_tag, fnv_update, frame_kind, lane_of, pick, queued, read_frames, tag_of, write_frame,
    FrameReader, Head, Lane, Pick, Queued, Read, BULK_QUEUE, FNV_OFFSET, URGENT_QUEUE,
};
use ratatosk_transport::runner::TransportError;
use ratatosk_transport::wire::SizeClass;

#[test]
fn a_full_chunk_queue_refuses_instead_of_waiting() {
    assert_eq!((URGENT_QUEUE, BULK_QUEUE), (32, 8));
    assert_eq!(lane_of(SizeClass::L.frame_len()), Lane::Bulk);
    assert_eq!(lane_of(SizeClass::S.frame_len()), Lane::Urgent);
    assert_eq!(lane_of(17), Lane::Urgent);
    assert_eq!(queued(Queued::Taken), Ok(()));
    assert_eq!(
        queued(Queued::Full),
        Err(TransportError::Busy),
        "переполнение обязано отличаться от обрыва"
    );
    assert_eq!(queued(Queued::Closed), Err(TransportError::Unavailable));
}

#[test]
fn a_message_overtakes_the_chunks_already_queued() {
    assert_eq!(pick(Head::Frame, Head::Frame), Pick::Write(Lane::Urgent));
    assert_eq!(pick(Head::Empty, Head::Frame), Pick::Write(Lane::Bulk));
    assert_eq!(pick(Head::Empty, Head::Empty), Pick::Wait);
    assert_eq!(pick(Head::Closed, Head::Frame), Pick::Stop);
    assert_eq!(pick(Head::Empty, Head::Closed), Pick::Stop);
}

#[test]
fn a_tag_stands_for_one_size() {
    for class in SizeClass::ALL {
        assert_eq!(class_of_tag(tag_of(class)), Some(class));
    }
    assert_eq!(tag_of(SizeClass::L), 2);
    assert_eq!(class_of_tag(3), None);
}

#[test]
fn a_stream_of_frames_reads_back() {
    let small = vec![42u8; SizeClass::S.frame_len()];
    let middle = vec![7u8; SizeClass::M.frame_len()];
    let mut stream = write_frame(&small).unwrap();
    assert_eq!(stream.len(), SizeClass::S.frame_len() + 1);
    assert_eq!(stream[0], 0);
    stream.extend(write_frame(&middle).unwrap());
    assert_eq!(read_frames(&stream), vec![small.clone(), middle]);

    stream.truncate(stream.len() - 1);
    assert_eq!(read_frames(&stream), vec![small.clone()], "недочитанный кадр не отдаётся");

    let mut broken = write_frame(&small).unwrap();
    broken.push(9);
    broken.extend(write_frame(&small).unwrap());
    assert_eq!(read_frames(&broken), vec![small], "после чужого тега поток закрыт");
    assert_eq!(write_frame(&[0u8; 5]), None);
}

#[test]
fn a_frame_is_read_in_two_steps() {
    let mut reader = FrameReader::new();
    assert_eq!(reader.want(), 1);
    assert_eq!(reader.take(vec![0]), Read::More);
    assert_eq!(reader.want(), SizeClass::S.frame_len());
    let frame = vec![1u8; SizeClass::S.frame_len()];
    assert_eq!(reader.take(frame.clone()), Read::Frame(frame));
    assert_eq!(reader.take(vec![200]), Read::Close);
}

#[test]
fn a_frame_is_named_in_the_log() {
    assert_eq!(frame_kind(&[0]), "?");
    assert_eq!(frame_kind(&[0, 1]), "рукопожатие");
    assert_eq!(
        frame_kind(&[0, 2, 0, 0, 0, 0, 0, 0, 0xab, 0x0c]),
        "данные sid=ab0c"
    );
    assert_eq!(frame_kind(&[0, 9, 1, 2]), "неизвестно");
}

#[test]
fn the_fingerprint_is_the_known_one_and_ignores_cuts() {
    assert_eq!(fnv_update(FNV_OFFSET, b""), 0xcbf2_9ce4_8422_2325);
    assert_eq!(fnv_update(FNV_OFFSET, b"a"), 0xaf63_dc4c_8601_ec8c);
    assert_eq!(fnv_update(FNV_OFFSET, b"foobar"), 0x8594_4171_f739_67e8);
    assert_eq!(
        fnv_update(fnv_update(FNV_OFFSET, b"foo"), b"bar"),
        fnv_update(FNV_OFFSET, b"foobar")
    );
}
