use kave::proto::Proto;

#[test]
fn write_null_is_null_and_a_line_feed() {
    let proto = Proto::new();
    assert_eq!(proto.write_null(), b"null\n".to_vec());
}

#[test]
fn write_echo_frames_the_message() {
    let proto = Proto::new();
    assert_eq!(proto.write_echo(b"hello world"), b"11:hello world\n".to_vec());
    assert_eq!(proto.write_echo(b"working!!!"), b"10:working!!!\n".to_vec());
}

#[test]
fn write_echo_of_nothing_is_an_empty_frame() {
    let proto = Proto::new();
    assert_eq!(proto.write_echo(b""), b"0:\n".to_vec());
    assert_eq!(proto.write_get_result(b""), b"0:\n".to_vec());
}

#[test]
fn write_get_result_frames_the_value() {
    let proto = Proto::new();
    assert_eq!(proto.write_get_result(b"my_value"), b"8:my_value\n".to_vec());
    assert_eq!(proto.write_get_result(b"found_value"), b"11:found_value\n".to_vec());
}

#[test]
fn write_get_result_keeps_every_byte() {
    let proto = Proto::new();
    let value = [0u8, 10, 58, 255, 13, 10];
    let mut expected = b"6:".to_vec();
    expected.extend_from_slice(&value);
    expected.push(b'\n');
    assert_eq!(proto.write_get_result(&value), expected);
}

#[test]
fn write_set_result_frames_the_length() {
    let proto = Proto::new();
    assert_eq!(proto.write_set_result(b"my_value"), b"1:8\n".to_vec());
    assert_eq!(proto.write_set_result(b"abc"), b"1:3\n".to_vec());
    assert_eq!(proto.write_set_result(b""), b"1:0\n".to_vec());
    assert_eq!(proto.write_set_result(&[7u8; 12]), b"2:12\n".to_vec());
    assert_eq!(proto.write_set_result(&vec![0u8; 1000]), b"4:1000\n".to_vec());
}

#[test]
fn write_echo_of_a_long_message() {
    let proto = Proto::new();
    let msg = vec![b'a'; 300];
    let mut expected = b"300:".to_vec();
    expected.extend_from_slice(&msg);
    expected.push(b'\n');
    assert_eq!(proto.write_echo(&msg), expected);
}
