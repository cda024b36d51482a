use minecraft_server::frame::{FrameDecoder, FrameError};

fn drain_all(d: &mut FrameDecoder) -> (Vec<Vec<u8>>, Option<FrameError>) {
    d.drain_frames()
}

#[test]
fn partial_frame_waits_for_more() {
    let mut d = FrameDecoder::new(1024);
    d.feed(&[3, 0]);
    assert_eq!(d.try_extract_frame(), Ok(None));
    assert_eq!(d.buffered_len(), 2);
    d.feed(&[7, 8, 5]);
    assert_eq!(d.try_extract_frame(), Ok(Some(vec![3, 0, 7, 8])));
    assert_eq!(d.buffered_len(), 1);
    assert_eq!(d.try_extract_frame(), Ok(None));
}

#[test]
fn two_frames_in_one_read() {
    let mut d = FrameDecoder::new(1024);
    d.feed(&[1, 0, 2, 1, 9, 4]);
    let (frames, err) = drain_all(&mut d);
    assert_eq!(frames, vec![vec![1, 0], vec![2, 1, 9]]);
    assert_eq!(err, None);
    assert_eq!(d.buffered_len(), 1);
}

#[test]
fn chunking_does_not_change_frames() {
    let stream: Vec<u8> = vec![1, 0, 3, 5, 6, 7, 0x80, 0x01]
        .into_iter()
        .chain(std::iter::repeat(4).take(128))
        .chain(vec![2, 1, 2, 1])
        .collect();
    let mut whole = FrameDecoder::new(1024);
    whole.feed(&stream);
    let (expected, err) = drain_all(&mut whole);
    assert_eq!(err, None);
    assert_eq!(expected.len(), 4);
    for size in 1..stream.len() {
        let mut d = FrameDecoder::new(1024);
        let mut got = Vec::new();
        for chunk in stream.chunks(size) {
            d.feed(chunk);
            let (frames, err) = drain_all(&mut d);
            assert_eq!(err, None);
            got.extend(frames);
        }
        assert_eq!(got, expected);
        assert_eq!(d.buffered_len(), whole.buffered_len());
    }
}

#[test]
fn oversized_frame_is_refused_before_its_body() {
    let mut d = FrameDecoder::new(16);
    d.feed(&[17]);
    assert_eq!(d.try_extract_frame(), Err(FrameError::FrameTooLarge));
    let mut huge = FrameDecoder::new(2097151);
    huge.feed(&[0xff, 0xff, 0xff, 0x07]);
    assert_eq!(huge.try_extract_frame(), Err(FrameError::FrameTooLarge));
    assert_eq!(huge.buffered_len(), 4);
    let mut neg = FrameDecoder::new(16);
    neg.feed(&[0xff, 0xff, 0xff, 0xff, 0x0f]);
    assert_eq!(neg.try_extract_frame(), Err(FrameError::FrameTooLarge));
}

#[test]
fn frame_at_the_maximum_is_accepted() {
    let mut d = FrameDecoder::new(3);
    assert_eq!(d.max_frame_length(), 3);
    d.feed(&[3, 0, 1, 2]);
    assert_eq!(d.try_extract_frame(), Ok(Some(vec![3, 0, 1, 2])));
}

#[test]
fn malformed_length_prefix() {
    let mut d = FrameDecoder::new(1024);
    d.feed(&[1, 0, 0xff, 0xff, 0xff, 0xff, 0xff]);
    let (frames, err) = drain_all(&mut d);
    assert_eq!(frames, vec![vec![1, 0]]);
    assert_eq!(err, Some(FrameError::MalformedVarInt));
}

#[test]
fn empty_frame_and_empty_feed() {
    let mut d = FrameDecoder::new(8);
    d.feed(&[]);
    assert_eq!(d.try_extract_frame(), Ok(None));
    d.feed(&[0]);
    assert_eq!(d.try_extract_frame(), Ok(Some(vec![0])));
}
