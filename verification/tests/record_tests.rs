use iced_test_aya::record::{Data, COMMAND_LEN, PATH_LEN, RECORD_SIZE};

fn field<const N: usize>(text: &[u8]) -> [u8; N] {
    let mut out = [0u8; N];
    out[..text.len()].copy_from_slice(text);
    out
}

fn sample() -> Data {
    Data { uid: 1000, pid: 4321, command: field(b"true"), path: field(b"/bin/true") }
}

#[test]
fn record_is_88_bytes() {
    assert_eq!(RECORD_SIZE, 88);
    assert_eq!(4 + 4 + COMMAND_LEN + PATH_LEN, RECORD_SIZE);
    assert_eq!(sample().encode().len(), 88);
}

#[test]
fn encode_lays_fields_out_in_order() {
    let bytes = sample().encode();
    assert_eq!(&bytes[0..4], &[0xe8, 0x03, 0x00, 0x00]);
    assert_eq!(&bytes[4..8], &[0xe1, 0x10, 0x00, 0x00]);
    assert_eq!(&bytes[8..12], b"true");
    assert!(bytes[12..24].iter().all(|b| *b == 0));
    assert_eq!(&bytes[24..33], b"/bin/true");
    assert!(bytes[33..88].iter().all(|b| *b == 0));
}

#[test]
fn encode_stores_integers_least_significant_byte_first() {
    let data = Data { uid: 0x0102_0304, pid: 0xffff_fffe, command: [0; 16], path: [0; 64] };
    let bytes = data.encode();
    assert_eq!(&bytes[0..4], &[0x04, 0x03, 0x02, 0x01]);
    assert_eq!(&bytes[4..8], &[0xfe, 0xff, 0xff, 0xff]);
}

#[test]
fn decode_undoes_encode() {
    let mut data = sample();
    data.uid = u32::MAX;
    data.pid = 0;
    data.command = [0xab; 16];
    for (i, b) in data.path.iter_mut().enumerate() {
        *b = i as u8;
    }
    let back = Data::decode(&data.encode()).expect("one record");
    assert_eq!(back.uid, data.uid);
    assert_eq!(back.pid, data.pid);
    assert_eq!(back.command, data.command);
    assert_eq!(back.path, data.path);
}

#[test]
fn encode_undoes_decode() {
    let mut bytes = [0u8; 88];
    for (i, b) in bytes.iter_mut().enumerate() {
        *b = (i * 7 + 3) as u8;
    }
    let data = Data::decode(&bytes).expect("one record");
    assert_eq!(data.encode(), bytes);
}

#[test]
fn decode_rejects_a_short_span() {
    let bytes = sample().encode();
    assert!(Data::decode(&bytes[..87]).is_none());
    assert!(Data::decode(&bytes[..8]).is_none());
    assert!(Data::decode(&[]).is_none());
}

#[test]
fn decode_rejects_a_long_span() {
    let mut bytes = sample().encode().to_vec();
    bytes.push(0);
    assert!(Data::decode(&bytes).is_none());
    let mut two = sample().encode().to_vec();
    two.extend_from_slice(&sample().encode());
    assert!(Data::decode(&two).is_none());
}

#[test]
fn decode_accepts_exactly_one_record() {
    let data = Data::decode(&sample().encode()).expect("one record");
    assert_eq!(data.uid, 1000);
    assert_eq!(data.pid, 4321);
    assert_eq!(&data.command[..4], b"true");
    assert_eq!(&data.path[..9], b"/bin/true");
}

#[test]
fn clone_keeps_every_field() {
    let data = sample();
    let copy = data.clone();
    assert_eq!(copy.uid, data.uid);
    assert_eq!(copy.pid, data.pid);
    assert_eq!(copy.command, data.command);
    assert_eq!(copy.path, data.path);
}
