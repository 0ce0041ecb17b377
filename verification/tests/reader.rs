use kave::error::Error;
use kave::proto::{Proto, ProtoOp, ProtoRead};

/// Drives a reader as a session does: asks for a request, and hands the
/// reader the next chunk whenever it needs bytes. Stops at an error or when
/// the chunks are used up.
fn drive(proto: &mut Proto, chunks: &[&[u8]]) -> (Vec<ProtoOp>, Option<Error>) {
    let mut ops = Vec::new();
    let mut next = 0;
    let mut got = proto.read();
    loop {
        match got {
            Err(e) => return (ops, Some(e)),
            Ok(Some(op)) => {
                ops.push(op);
                got = proto.read();
            }
            Ok(None) => {
                if next == chunks.len() {
                    return (ops, None);
                }
                got = proto.resume(ProtoRead::Read(chunks[next].to_vec()));
                next += 1;
            }
        }
    }
}

fn get(key: &str) -> ProtoOp {
    ProtoOp::Get { key: key.to_string() }
}

fn put(key: &str, value: &[u8]) -> ProtoOp {
    ProtoOp::Put { key: key.to_string(), value: value.to_vec() }
}

fn echo(msg: &[u8]) -> ProtoOp {
    ProtoOp::Echo { msg: msg.to_vec() }
}

#[test]
fn a_new_reader_asks_for_bytes() {
    let mut proto = Proto::new();
    assert_eq!(proto.read(), Ok(None));
    assert_eq!(proto.read(), Ok(None));
}

#[test]
fn reads_a_get() {
    let mut proto = Proto::new();
    assert_eq!(drive(&mut proto, &[b"GET:9:unset_key\n"]), (vec![get("unset_key")], None));
}

#[test]
fn reads_a_set() {
    let mut proto = Proto::new();
    assert_eq!(
        drive(&mut proto, &[b"SET:6:my_key:8:my_value\n"]),
        (vec![put("my_key", b"my_value")], None)
    );
}

#[test]
fn reads_an_echo() {
    let mut proto = Proto::new();
    assert_eq!(
        drive(&mut proto, &[b"ECHO:11:hello world\n"]),
        (vec![echo(b"hello world")], None)
    );
}

#[test]
fn resume_yields_the_request_at_once() {
    let mut proto = Proto::new();
    assert_eq!(proto.read(), Ok(None));
    assert_eq!(
        proto.resume(ProtoRead::Read(b"GET:3:key\n".to_vec())),
        Ok(Some(get("key")))
    );
    assert_eq!(proto.read(), Ok(None));
}

#[test]
fn a_request_is_yielded_before_its_line_feed_comes() {
    let mut proto = Proto::new();
    assert_eq!(proto.resume(ProtoRead::Read(b"GET:3:key".to_vec())), Ok(Some(get("key"))));
    assert_eq!(proto.read(), Ok(None));
    assert_eq!(proto.resume(ProtoRead::Read(b"\nGET:1:k\n".to_vec())), Ok(Some(get("k"))));
}

#[test]
fn empty_payloads_are_payloads() {
    let mut proto = Proto::new();
    assert_eq!(drive(&mut proto, &[b"ECHO:0:\n"]), (vec![echo(b"")], None));
    let mut proto = Proto::new();
    assert_eq!(drive(&mut proto, &[b"SET:1:k:0:\n"]), (vec![put("k", b"")], None));
    let mut proto = Proto::new();
    assert_eq!(drive(&mut proto, &[b"GET:0:\n"]), (vec![get("")], None));
}

#[test]
fn keys_may_hold_colons_and_line_feeds() {
    let mut proto = Proto::new();
    assert_eq!(
        drive(&mut proto, &[b"GET:5:a:b\nc\nGET:1:k\n"]),
        (vec![get("a:b\nc"), get("k")], None)
    );
    let mut proto = Proto::new();
    assert_eq!(
        drive(&mut proto, &[b"SET:3:\n:::3:\n:\n\nGET:3:\n::\n"]),
        (vec![put("\n::", b"\n:\n"), get("\n::")], None)
    );
}

#[test]
fn values_and_messages_may_hold_any_byte() {
    let mut request = b"SET:1:k:6:".to_vec();
    request.extend_from_slice(&[0, 255, 10, 58, 13, 128]);
    request.push(b'\n');
    let mut proto = Proto::new();
    assert_eq!(
        drive(&mut proto, &[&request]),
        (vec![put("k", &[0, 255, 10, 58, 13, 128])], None)
    );
    let mut proto = Proto::new();
    assert_eq!(
        drive(&mut proto, &[b"ECHO:4:\xff\xfe\n\n\n"]),
        (vec![echo(b"\xff\xfe\n\n")], None)
    );
}

#[test]
fn keys_are_text() {
    let mut proto = Proto::new();
    assert_eq!(
        drive(&mut proto, &["GET:6:héllo\n".as_bytes()]),
        (vec![get("héllo")], None)
    );
}

#[test]
fn leading_zeros_in_a_length_are_read() {
    let mut proto = Proto::new();
    assert_eq!(drive(&mut proto, &[b"GET:003:key\n"]), (vec![get("key")], None));
}

#[test]
fn two_requests_in_one_read() {
    let mut proto = Proto::new();
    assert_eq!(
        drive(&mut proto, &[b"SET:1:k:3:abc\nGET:1:k\n"]),
        (vec![put("k", b"abc"), get("k")], None)
    );
}

#[test]
fn three_requests_in_one_read_come_out_once_each() {
    let mut proto = Proto::new();
    assert_eq!(
        drive(&mut proto, &[b"ECHO:1:a\nECHO:1:b\nECHO:1:c\n"]),
        (vec![echo(b"a"), echo(b"b"), echo(b"c")], None)
    );
    assert_eq!(proto.read(), Ok(None));
}

#[test]
fn second_request_split_mid_key() {
    let mut proto = Proto::new();
    assert_eq!(
        drive(&mut proto, &[b"SET:1:k:3:abc\nGET:5:ab", b"cde\n"]),
        (vec![put("k", b"abc"), get("abcde")], None)
    );
}

#[test]
fn second_request_split_before_its_key() {
    let mut proto = Proto::new();
    assert_eq!(
        drive(&mut proto, &[b"SET:1:k:3:abc\nGET:1:", b"k\n"]),
        (vec![put("k", b"abc"), get("k")], None)
    );
}

#[test]
fn trailing_bytes_are_discarded() {
    let mut proto = Proto::new();
    assert_eq!(
        drive(&mut proto, &[b"GET:1:k and more\nGET:1:j\n"]),
        (vec![get("k"), get("j")], None)
    );
    let mut proto = Proto::new();
    assert_eq!(
        drive(&mut proto, &[b"SET:1:k:1:vGET:1:x", b" still the same line", b"\nECHO:2:hi\n"]),
        (vec![put("k", b"v"), echo(b"hi")], None)
    );
}

#[test]
fn trailing_bytes_across_reads_are_discarded() {
    let mut proto = Proto::new();
    assert_eq!(
        drive(&mut proto, &[b"GET:1:k", b"junk", b"", b"more", b"\n", b"GET:1:j\n"]),
        (vec![get("k"), get("j")], None)
    );
}

#[test]
fn split_reads_yield_what_one_read_yields() {
    let stream: &[u8] = b"SET:6:my_key:8:my_value\nGET:6:my_key\nECHO:11:hello world\n";
    let mut whole = Proto::new();
    let expected = drive(&mut whole, &[stream]);
    assert_eq!(
        expected,
        (vec![put("my_key", b"my_value"), get("my_key"), echo(b"hello world")], None)
    );
    // Every cut into two reads that leaves the first at least four bytes.
    for cut in 4..stream.len() {
        let mut proto = Proto::new();
        let got = drive(&mut proto, &[&stream[..cut], &stream[cut..]]);
        if got.1 == Some(Error::ShortOp) {
            continue;
        }
        assert_eq!(got, expected, "cut at {}", cut);
    }
}

#[test]
fn reads_of_four_bytes_yield_what_one_read_yields() {
    let stream: &[u8] = b"SET:6:my_key:8:my_value\nGET:6:my_key\nECHO:11:hello world\n";
    for size in 4..12 {
        let chunks: Vec<&[u8]> = stream.chunks(size).filter(|c| c.len() >= 4).collect();
        let total: usize = chunks.iter().map(|c| c.len()).sum();
        let mut proto = Proto::new();
        let got = drive(&mut proto, &chunks);
        assert_eq!(got.1, None, "size {}", size);
        if total == stream.len() {
            assert_eq!(
                got.0,
                vec![put("my_key", b"my_value"), get("my_key"), echo(b"hello world")]
            );
        }
    }
}

#[test]
fn one_byte_reads_behind_the_operation_name() {
    let request: &[u8] = b"SET:6:my_key:8:my_value\n";
    let mut chunks: Vec<&[u8]> = vec![&request[..4]];
    for i in 4..request.len() {
        chunks.push(&request[i..i + 1]);
    }
    let mut proto = Proto::new();
    assert_eq!(drive(&mut proto, &chunks), (vec![put("my_key", b"my_value")], None));
}

#[test]
fn one_byte_reads_of_an_echo() {
    let request: &[u8] = b"ECHO:11:hello world\n";
    let mut chunks: Vec<&[u8]> = vec![&request[..4]];
    for i in 4..request.len() {
        chunks.push(&request[i..i + 1]);
    }
    let mut proto = Proto::new();
    assert_eq!(drive(&mut proto, &chunks), (vec![echo(b"hello world")], None));
}

#[test]
fn an_operation_name_may_span_two_reads_behind_a_line_feed() {
    let mut proto = Proto::new();
    assert_eq!(
        drive(&mut proto, &[b"GET:1:k\nGE", b"T:1:j\n"]),
        (vec![get("k"), get("j")], None)
    );
    let mut proto = Proto::new();
    assert_eq!(
        drive(&mut proto, &[b"GET:1:k\nECH", b"O:1:j\n"]),
        (vec![get("k"), echo(b"j")], None)
    );
}

#[test]
fn a_first_read_shorter_than_four_bytes_fails() {
    let mut proto = Proto::new();
    assert_eq!(proto.resume(ProtoRead::Read(b"G".to_vec())), Err(Error::ShortOp));
    let mut proto = Proto::new();
    assert_eq!(proto.resume(ProtoRead::Read(b"GET".to_vec())), Err(Error::ShortOp));
    let mut proto = Proto::new();
    assert_eq!(proto.resume(ProtoRead::Read(Vec::new())), Err(Error::ShortOp));
}

#[test]
fn an_operation_name_over_three_reads_fails() {
    let mut proto = Proto::new();
    assert_eq!(
        drive(&mut proto, &[b"GET:1:k\nG", b"E", b"T:1:j\n"]),
        (vec![get("k")], Some(Error::ShortOp))
    );
}

#[test]
fn a_read_that_starts_short_of_a_name_fails() {
    let mut proto = Proto::new();
    assert_eq!(
        drive(&mut proto, &[b"GET:1:k\n", b"GET", b":1:j\n"]),
        (vec![get("k")], Some(Error::ShortOp))
    );
}

#[test]
fn an_unknown_operation_fails() {
    let mut proto = Proto::new();
    assert_eq!(proto.resume(ProtoRead::Read(b"working!!!".to_vec())), Err(Error::UnknownOp));
    let mut proto = Proto::new();
    assert_eq!(proto.resume(ProtoRead::Read(b"get:1:k\n".to_vec())), Err(Error::UnknownOp));
    let mut proto = Proto::new();
    assert_eq!(proto.resume(ProtoRead::Read(b"GET 1:k\n".to_vec())), Err(Error::UnknownOp));
    let mut proto = Proto::new();
    assert_eq!(
        drive(&mut proto, &[b"GET:1:k\nDEL:1:k\n"]),
        (vec![get("k")], Some(Error::UnknownOp))
    );
}

#[test]
fn a_length_field_opens_with_a_colon() {
    let mut proto = Proto::new();
    assert_eq!(proto.resume(ProtoRead::Read(b"ECHO 1:a\n".to_vec())), Err(Error::ExpectedColon));
    let mut proto = Proto::new();
    assert_eq!(
        proto.resume(ProtoRead::Read(b"SET:1:k 1:a\n".to_vec())),
        Err(Error::ExpectedColon)
    );
    let mut proto = Proto::new();
    assert_eq!(proto.resume(ProtoRead::Read(b"SET:1:k\n".to_vec())), Err(Error::ExpectedColon));
}

#[test]
fn a_length_is_a_decimal_number() {
    let mut proto = Proto::new();
    assert_eq!(proto.resume(ProtoRead::Read(b"GET:x:k\n".to_vec())), Err(Error::InvalidLength));
    let mut proto = Proto::new();
    assert_eq!(proto.resume(ProtoRead::Read(b"GET::k\n".to_vec())), Err(Error::InvalidLength));
    let mut proto = Proto::new();
    assert_eq!(proto.resume(ProtoRead::Read(b"GET:+1:k\n".to_vec())), Err(Error::InvalidLength));
    let mut proto = Proto::new();
    assert_eq!(
        proto.resume(ProtoRead::Read(b"SET:1:k:1\n:v\n".to_vec())),
        Err(Error::InvalidLength)
    );
    let mut proto = Proto::new();
    assert_eq!(
        proto.resume(ProtoRead::Read(b"ECHO:\xff:a\n".to_vec())),
        Err(Error::InvalidLength)
    );
}

#[test]
fn a_length_fits_a_usize() {
    let mut proto = Proto::new();
    assert_eq!(
        proto.resume(ProtoRead::Read(b"GET:340282366920938463463374607431768211456:k\n".to_vec())),
        Err(Error::LengthTooLarge)
    );
}

#[test]
fn a_bad_length_is_found_when_its_colon_comes() {
    let mut proto = Proto::new();
    assert_eq!(proto.resume(ProtoRead::Read(b"GET:1x".to_vec())), Ok(None));
    assert_eq!(proto.resume(ProtoRead::Read(b"y".to_vec())), Ok(None));
    assert_eq!(proto.resume(ProtoRead::Read(b":k\n".to_vec())), Err(Error::InvalidLength));
}

#[test]
fn a_key_is_valid_utf8() {
    let mut proto = Proto::new();
    assert_eq!(proto.resume(ProtoRead::Read(b"GET:2:\xff\xfe\n".to_vec())), Err(Error::InvalidKey));
    let mut proto = Proto::new();
    assert_eq!(
        proto.resume(ProtoRead::Read(b"GET:1:\xc3\xa9\n".to_vec())),
        Err(Error::InvalidKey)
    );
}

#[test]
fn the_key_of_a_set_is_checked_when_the_value_is_complete() {
    let mut proto = Proto::new();
    assert_eq!(proto.resume(ProtoRead::Read(b"SET:1:\xff:3:a".to_vec())), Ok(None));
    assert_eq!(proto.resume(ProtoRead::Read(b"bc".to_vec())), Err(Error::InvalidKey));
    let mut proto = Proto::new();
    assert_eq!(
        proto.resume(ProtoRead::Read(b"SET:1:\xff:x:abc\n".to_vec())),
        Err(Error::InvalidLength)
    );
}

#[test]
fn after_a_failure_the_reader_holds_nothing() {
    let mut proto = Proto::new();
    assert_eq!(
        proto.resume(ProtoRead::Read(b"NOPE\nGET:1:k\n".to_vec())),
        Err(Error::UnknownOp)
    );
    assert_eq!(proto.read(), Ok(None));
    assert_eq!(proto.resume(ProtoRead::Read(b"rest of line\nGET:1:j\n".to_vec())), Ok(Some(get("j"))));
}

#[test]
fn the_end_of_the_source_is_handed_out() {
    let mut proto = Proto::new();
    assert_eq!(proto.resume(ProtoRead::Eof), Ok(Some(ProtoOp::SysClose)));
    let mut proto = Proto::new();
    assert_eq!(proto.resume(ProtoRead::Read(b"GET:5:ab".to_vec())), Ok(None));
    assert_eq!(proto.resume(ProtoRead::Eof), Ok(Some(ProtoOp::SysClose)));
    assert_eq!(proto.read(), Ok(None));
}

#[test]
fn a_shutdown_is_handed_out() {
    let mut proto = Proto::new();
    assert_eq!(proto.resume(ProtoRead::Cancelled), Ok(Some(ProtoOp::Cancelled)));
    let mut proto = Proto::new();
    assert_eq!(proto.resume(ProtoRead::Read(b"SET:1:k:9:abc".to_vec())), Ok(None));
    assert_eq!(proto.resume(ProtoRead::Cancelled), Ok(Some(ProtoOp::Cancelled)));
}

#[test]
fn a_new_reader_stays_new_over_a_shutdown() {
    let mut proto = Proto::new();
    assert_eq!(proto.resume(ProtoRead::Cancelled), Ok(Some(ProtoOp::Cancelled)));
    assert_eq!(proto.read(), Ok(None));
    assert_eq!(proto.resume(ProtoRead::Read(b"GET:1:k\n".to_vec())), Ok(Some(get("k"))));
}

#[test]
fn a_payload_longer_than_the_buffer() {
    let value = vec![b'v'; 1000];
    let mut request = b"SET:3:big:1000:".to_vec();
    request.extend_from_slice(&value);
    request.push(b'\n');
    let chunks: Vec<&[u8]> = request.chunks(256).collect();
    let mut proto = Proto::new();
    assert_eq!(drive(&mut proto, &chunks), (vec![put("big", &value)], None));
}

#[test]
fn empty_reads_in_the_middle_of_a_request_change_nothing() {
    let mut proto = Proto::new();
    assert_eq!(
        drive(&mut proto, &[b"GET:3:", b"", b"ke", b"", b"y\n"]),
        (vec![get("key")], None)
    );
}

/// A small generator of numbers that look random, so that the tests need
/// no seed from outside.
fn next(state: &mut u64) -> u64 {
    *state = state.wrapping_mul(6364136223846793005).wrapping_add(1442695040888963407);
    *state >> 33
}

fn random_request(state: &mut u64, stream: &mut Vec<u8>) -> ProtoOp {
    let key_len = (next(state) % 6) as usize;
    let key: String = (0..key_len)
        .map(|_| ['a', ':', '\n', 'é', 'k', '0'][(next(state) % 6) as usize])
        .collect();
    let value_len = (next(state) % 12) as usize;
    let value: Vec<u8> = (0..value_len).map(|_| [b':', b'\n', 0, 255, b'v'][(next(state) % 5) as usize]).collect();
    let op = match next(state) % 3 {
        0 => {
            stream.extend_from_slice(format!("GET:{}:", key.len()).as_bytes());
            stream.extend_from_slice(key.as_bytes());
            get(&key)
        }
        1 => {
            stream.extend_from_slice(format!("SET:{}:", key.len()).as_bytes());
            stream.extend_from_slice(key.as_bytes());
            stream.extend_from_slice(format!(":{}:", value.len()).as_bytes());
            stream.extend_from_slice(&value);
            put(&key, &value)
        }
        _ => {
            stream.extend_from_slice(format!("ECHO:{}:", value.len()).as_bytes());
            stream.extend_from_slice(&value);
            echo(&value)
        }
    };
    let trailing = (next(state) % 4) as usize;
    for _ in 0..trailing {
        stream.push(b"x:7 "[(next(state) % 4) as usize]);
    }
    stream.push(b'\n');
    op
}

#[test]
fn random_cuts_yield_what_one_read_yields() {
    let mut state = 0x5eed_u64;
    for _ in 0..300 {
        let mut stream = Vec::new();
        let count = 1 + (next(&mut state) % 5) as usize;
        let expected: Vec<ProtoOp> =
            (0..count).map(|_| random_request(&mut state, &mut stream)).collect();

        let mut whole = Proto::new();
        assert_eq!(drive(&mut whole, &[&stream]), (expected.clone(), None));

        let mut cuts: Vec<usize> = vec![0, stream.len()];
        for _ in 0..(next(&mut state) % 8) {
            cuts.push((next(&mut state) as usize) % (stream.len() + 1));
        }
        cuts.sort();
        let chunks: Vec<&[u8]> = cuts.windows(2).map(|w| &stream[w[0]..w[1]]).collect();
        let mut proto = Proto::new();
        let got = drive(&mut proto, &chunks);
        if got.1 == Some(Error::ShortOp) {
            // The one way in which a cut can matter; the requests before it
            // are the right ones.
            assert_eq!(got.0[..], expected[..got.0.len()]);
        } else {
            assert_eq!(got, (expected, None));
        }
    }
}

#[test]
fn random_cuts_of_four_bytes_or_more_never_fail() {
    let mut state = 0xfeed_u64;
    for _ in 0..300 {
        let mut stream = Vec::new();
        let count = 1 + (next(&mut state) % 5) as usize;
        let expected: Vec<ProtoOp> =
            (0..count).map(|_| random_request(&mut state, &mut stream)).collect();
        let mut chunks: Vec<&[u8]> = Vec::new();
        let mut at = 0;
        while stream.len() - at >= 8 {
            let len = 4 + (next(&mut state) as usize) % (stream.len() - at - 7);
            chunks.push(&stream[at..at + len]);
            at += len;
        }
        chunks.push(&stream[at..]);
        let mut proto = Proto::new();
        assert_eq!(drive(&mut proto, &chunks), (expected, None));
    }
}

#[test]
fn one_request_in_random_pieces() {
    let mut state = 0xbead_u64;
    for _ in 0..300 {
        let mut stream = Vec::new();
        let expected = random_request(&mut state, &mut stream);
        let mut chunks: Vec<&[u8]> = vec![&stream[..4]];
        let mut at = 4;
        while at < stream.len() {
            let len = 1 + (next(&mut state) as usize) % 3;
            let end = (at + len).min(stream.len());
            chunks.push(&stream[at..end]);
            at = end;
        }
        let mut proto = Proto::new();
        assert_eq!(drive(&mut proto, &chunks), (vec![expected], None));
    }
}
