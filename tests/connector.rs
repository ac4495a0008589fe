use epdriver::display_connector::{
    poll_step, DisplayConnector, Error, SpiConnector, WireEvent, WireRecorder, MAX_BUSY_POLLS,
    TMP_BUFFER_SIZE,
};

fn connector(chunk_size: usize) -> SpiConnector<WireRecorder> {
    SpiConnector::new(WireRecorder::new(), chunk_size)
}

fn writes(c: &SpiConnector<WireRecorder>) -> Vec<Vec<u8>> {
    c.link()
        .events()
        .iter()
        .filter_map(|e| match e {
            WireEvent::Write(bytes) => Some(bytes.clone()),
            _ => None,
        })
        .collect()
}

fn generator(i: u32) -> u8 {
    (i * 7 + 3) as u8
}

#[test]
fn streamed_data_is_the_same_for_every_chunk_size() {
    let n: u32 = 50;
    let expected: Vec<u8> = (0..n).map(generator).collect();
    for chunk in [1usize, 7, n as usize + 1] {
        let mut c = connector(chunk);
        assert!(c.send_data_with(n, generator).is_ok());
        let chunks = writes(&c);
        let joined: Vec<u8> = chunks.concat();
        assert_eq!(joined, expected);
        for (k, piece) in chunks.iter().enumerate() {
            assert!(!piece.is_empty());
            if k + 1 < chunks.len() {
                assert_eq!(piece.len(), chunk);
            } else {
                assert!(piece.len() <= chunk);
            }
        }
        let events = c.link().events();
        assert_eq!(events[0], WireEvent::DcLine(true));
        assert_eq!(events[events.len() - 1], WireEvent::Pause(4));
    }
}

#[test]
fn streamed_data_longer_than_the_buffer_is_flushed_in_loads() {
    let n = TMP_BUFFER_SIZE as u32 + 5;
    let mut c = connector(4096);
    assert!(c.send_data_with(n, generator).is_ok());
    let joined: Vec<u8> = writes(&c).concat();
    assert_eq!(joined.len(), n as usize);
    assert!(joined.iter().enumerate().all(|(i, b)| *b == generator(i as u32)));
    let raises = c
        .link()
        .events()
        .iter()
        .filter(|e| **e == WireEvent::DcLine(true))
        .count();
    assert_eq!(raises, 2);
    // The buffer is reused by a second stream.
    assert!(c.send_data_with(3, generator).is_ok());
    let again: Vec<u8> = writes(&c).concat();
    assert_eq!(&again[n as usize..], &[3, 10, 17]);
}

#[test]
fn empty_stream_only_pauses() {
    let mut c = connector(8);
    assert!(c.send_data_with(0, generator).is_ok());
    assert_eq!(c.link().events(), &vec![WireEvent::Pause(4)]);
}

#[test]
fn command_lowers_the_line_writes_and_settles() {
    let mut c = connector(1);
    assert!(c.send_command(0x42).is_ok());
    assert_eq!(
        c.link().events(),
        &vec![WireEvent::DcLine(false), WireEvent::Write(vec![0x42]), WireEvent::Pause(4)]
    );
}

#[test]
fn data_is_chunked_to_the_transfer_size() {
    let mut c = connector(3);
    assert!(c.send_data(&[1, 2, 3, 4, 5, 6, 7]).is_ok());
    assert_eq!(
        c.link().events(),
        &vec![
            WireEvent::DcLine(true),
            WireEvent::Write(vec![1, 2, 3]),
            WireEvent::Write(vec![4, 5, 6]),
            WireEvent::Write(vec![7]),
        ]
    );
}

#[test]
fn reset_drives_high_low_high() {
    let mut c = connector(16);
    assert!(c.reset().is_ok());
    assert_eq!(
        c.link().events(),
        &vec![
            WireEvent::ResetLine(true),
            WireEvent::Pause(200),
            WireEvent::ResetLine(false),
            WireEvent::Pause(4),
            WireEvent::ResetLine(true),
            WireEvent::Pause(200),
        ]
    );
}

#[test]
fn delay_and_busy() {
    let mut c = connector(16);
    assert!(c.delay_ms(100).is_ok());
    assert_eq!(c.link().events(), &vec![WireEvent::Pause(100)]);
    assert_eq!(c.is_busy(), Ok(false));
}

#[test]
fn poll_step_decides_on_each_reading() {
    assert_eq!(poll_step(false, 0), Some(Ok(())));
    assert_eq!(poll_step(false, MAX_BUSY_POLLS), Some(Ok(())));
    assert_eq!(poll_step(true, 3), None);
    assert_eq!(poll_step(true, MAX_BUSY_POLLS), Some(Err(Error::BusyTimeout)));
}
