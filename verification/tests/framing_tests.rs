use jce_core::framing::{FrameError, JceFramer};

#[test]
fn test_frame_check_u4_be_inclusive() {
    let framer = JceFramer::new(4, true, false, 1024);
    // Length 10 (0x0000000A), inclusive -> packet is 10 bytes
    let mut data = vec![0x00, 0x00, 0x00, 0x0A];
    data.extend(vec![0xFF; 6]); // 4 bytes header + 6 bytes body = 10 bytes

    assert_eq!(framer.check_frame(&data), Ok(Some(10)));

    // Incomplete body
    assert_eq!(framer.check_frame(&data[..9]), Ok(None));

    // Incomplete header
    assert_eq!(framer.check_frame(&data[..2]), Ok(None));
}

#[test]
fn test_frame_check_u4_le_exclusive() {
    let framer = JceFramer::new(4, false, true, 1024);
    // Length 6 (0x06000000), exclusive -> body is 6 bytes -> total 10 bytes
    let mut data = vec![0x06, 0x00, 0x00, 0x00];
    data.extend(vec![0xFF; 6]);

    assert_eq!(framer.check_frame(&data), Ok(Some(10)));
}

#[test]
fn test_invalid_length_inclusive() {
    let framer = JceFramer::new(4, true, false, 1024);
    // Length 2 (0x00000002). Header is 4. Inclusive mode requires len >= 4.
    let data = vec![0x00, 0x00, 0x00, 0x02, 0xFF, 0xFF];

    match framer.check_frame(&data) {
        Err(FrameError::InvalidLength(2, 4)) => (),
        res => panic!("Expected InvalidLength error, got {:?}", res),
    }
}

#[test]
fn test_frame_too_large() {
    let framer = JceFramer::new(4, true, false, 100);
    // Length 101
    let data = vec![0x00, 0x00, 0x00, 0x65]; // 101

    match framer.check_frame(&data) {
        Err(FrameError::FrameTooLarge(101, 100)) => (),
        res => panic!("Expected FrameTooLarge error, got {:?}", res),
    }
}

#[test]
fn test_frame_check_u1_and_u2() {
    let framer = JceFramer::new(1, true, false, 1024);
    let data = vec![0x03, 0xAA, 0xBB];
    assert_eq!(framer.check_frame(&data), Ok(Some(3)));

    let framer = JceFramer::new(2, false, false, 1024);
    let data = vec![0x00, 0x02, 0xAA, 0xBB];
    assert_eq!(framer.check_frame(&data), Ok(Some(4)));
    assert_eq!(framer.check_frame(&data[..3]), Ok(None));
}
