use minilzo::{decompress, Error};

fn noise_bytes(count: usize, seed: u64) -> Vec<u8> {
    let mut state: u64 = seed;
    let mut bytes: Vec<u8> = Vec::with_capacity(count);
    for _ in 0..count {
        state = (state * 1103515245 + 12345) % (1 << 31);
        bytes.push(((state >> 16) & 0xff) as u8);
    }
    bytes
}

#[test]
fn short_copy_repeats_four_bytes() {
    let stream = [21, b'a', b'b', b'c', b'd', 108, 0, 17, 0, 0];
    assert_eq!(Ok(b"abcdabcd".to_vec()), decompress(&stream, 8));
}

#[test]
fn copy_may_read_what_it_wrote() {
    let stream = [18, b'a', 224, 0, 17, 0, 0];
    assert_eq!(Ok(b"aaaaaaaaa".to_vec()), decompress(&stream, 9));
}

#[test]
fn low_tag_after_few_literals_copies_two_bytes() {
    let stream = [18, b'a', 0, 0, 17, 0, 0];
    assert_eq!(Ok(b"aaa".to_vec()), decompress(&stream, 3));
    let stream = [19, b'a', b'b', 4, 0, 17, 0, 0];
    assert_eq!(Ok(b"abab".to_vec()), decompress(&stream, 4));
}

#[test]
fn low_tag_after_a_run_copies_three_bytes_from_afar() {
    let data = noise_bytes(2049, 9);
    let mut stream: Vec<u8> = vec![0, 0, 0, 0, 0, 0, 0, 0, 246];
    stream.extend_from_slice(&data);
    stream.extend_from_slice(&[0, 0, 17, 0, 0]);
    let mut expected = data.clone();
    expected.extend_from_slice(&data[..3]);
    assert_eq!(Ok(expected), decompress(&stream, 2052));

    let mut near: Vec<u8> = vec![0, 0, 0, 0, 0, 0, 0, 0, 245];
    near.extend_from_slice(&data[..2048]);
    near.extend_from_slice(&[0, 0, 17, 0, 0]);
    assert_eq!(Err(Error::LookbehindOverrun), decompress(&near, 2051));
}

#[test]
fn low_tag_after_no_literal_is_a_run() {
    let stream = [21, b'a', b'b', b'c', b'd', 108, 0, 1, b'w', b'x', b'y', b'z', 17, 0, 0];
    assert_eq!(Ok(b"abcdabcdwxyz".to_vec()), decompress(&stream, 12));
}

#[test]
fn tail_literals_follow_their_copy() {
    let stream = [21, b'a', b'b', b'c', b'd', 110, 0, b'x', b'y', 17, 0, 0];
    assert_eq!(Ok(b"abcdabcdxy".to_vec()), decompress(&stream, 10));
    let stream = [21, b'a', b'b', b'c', b'd', 110, 0, b'x', b'y', 0, 0, 17, 0, 0];
    assert_eq!(Ok(b"abcdabcdxyyy".to_vec()), decompress(&stream, 12));
}

#[test]
fn medium_copy_with_a_long_count() {
    let stream = [18, b'q', 32, 0, 10, 0, 0, 17, 0, 0];
    let expected = vec![b'q'; 1 + 2 + 31 + 255 + 10];
    assert_eq!(Ok(expected), decompress(&stream, 299));
    let stream = [18, b'q', 35, 1, 0, b'r', 17, 0, 0];
    assert_eq!(Ok(b"qqqqqqr".to_vec()), decompress(&stream, 7));
}

#[test]
fn far_copy_reaches_beyond_16_kib() {
    let data = noise_bytes(16385, 4);
    let mut stream: Vec<u8> = vec![0];
    stream.extend_from_slice(&vec![0u8; 64]);
    stream.push(47);
    stream.extend_from_slice(&data);
    stream.extend_from_slice(&[18, 4, 0, 17, 0, 0]);
    let mut expected = data.clone();
    expected.extend_from_slice(&data[..4]);
    assert_eq!(Ok(expected), decompress(&stream, 16389));
}

#[test]
fn lookbehind_overrun_is_named() {
    let stream = [18, b'a', 108, 0, 17, 0, 0];
    assert_eq!(Err(Error::LookbehindOverrun), decompress(&stream, 5));
    let stream = [18, b'a', 32 + 2, 4, 0, 17, 0, 0];
    assert_eq!(Err(Error::LookbehindOverrun), decompress(&stream, 5));
    let stream = [21, b'a', b'b', b'c', b'd', 16 + 2, 4, 0, 17, 0, 0];
    assert_eq!(Err(Error::LookbehindOverrun), decompress(&stream, 8));
}

#[test]
fn lookbehind_is_tested_before_the_output() {
    let stream = [18, b'a', 108, 0, 17, 0, 0];
    assert_eq!(Err(Error::LookbehindOverrun), decompress(&stream, 1));
}

#[test]
fn output_overrun_is_named() {
    let stream = [21, b'a', b'b', b'c', b'd', 17, 0, 0];
    assert_eq!(Err(Error::OutputOverrun), decompress(&stream, 3));
    let stream = [21, b'a', b'b', b'c', b'd', 108, 0, 17, 0, 0];
    assert_eq!(Err(Error::OutputOverrun), decompress(&stream, 7));
    let stream = [21, b'a', b'b', b'c', b'd', 110, 0, b'x', b'y', 17, 0, 0];
    assert_eq!(Err(Error::OutputOverrun), decompress(&stream, 9));
    let stream = [2, b'a', b'b', b'c', b'd', b'e', 17, 0, 0];
    assert_eq!(Err(Error::OutputOverrun), decompress(&stream, 4));
}

#[test]
fn output_is_tested_before_the_input() {
    let stream = [2, b'a', b'b', b'c'];
    assert_eq!(Err(Error::OutputOverrun), decompress(&stream, 4));
    assert_eq!(Err(Error::InputOverrun), decompress(&stream, 5));
}

#[test]
fn huge_count_overruns_the_output() {
    let mut stream: Vec<u8> = vec![18, b'a', 32];
    stream.extend_from_slice(&vec![0u8; 100000]);
    stream.extend_from_slice(&[1, 0, 0, 17, 0, 0]);
    assert_eq!(Err(Error::OutputOverrun), decompress(&stream, 1000));
    assert_eq!(Err(Error::OutputOverrun), decompress(&stream, 25500034));
    assert_eq!(Ok(vec![b'a'; 25500035]), decompress(&stream, 25500035));
}

#[test]
fn output_not_consumed_is_named() {
    let stream = [21, b'a', b'b', b'c', b'd', 17, 0, 0];
    assert_eq!(Err(Error::OutputNotConsumed), decompress(&stream, 5));
    assert_eq!(Err(Error::OutputNotConsumed), decompress(&[17, 0, 0], 1));
}

#[test]
fn input_not_consumed_is_named() {
    let stream = [21, b'a', b'b', b'c', b'd', 17, 0, 0, 0];
    assert_eq!(Err(Error::InputNotConsumed), decompress(&stream, 4));
}

#[test]
fn output_is_tested_before_the_input_at_the_end() {
    let stream = [21, b'a', b'b', b'c', b'd', 17, 0, 0, 0];
    assert_eq!(Err(Error::OutputNotConsumed), decompress(&stream, 5));
}

#[test]
fn input_overrun_is_named() {
    assert_eq!(Err(Error::InputOverrun), decompress(&[], 0));
    assert_eq!(Err(Error::InputOverrun), decompress(&[21, b'a', b'b'], 4));
    assert_eq!(Err(Error::InputOverrun), decompress(&[17, 0], 0));
    assert_eq!(Err(Error::InputOverrun), decompress(&[21, b'a', b'b', b'c', b'd'], 4));
    assert_eq!(Err(Error::InputOverrun), decompress(&[21, b'a', b'b', b'c', b'd', 17, 0], 4));
    assert_eq!(Err(Error::InputOverrun), decompress(&[16, 0, 0], 0));
    assert_eq!(Err(Error::InputOverrun), decompress(&[0, 0, 0, 0], 100));
    assert_eq!(Err(Error::InputOverrun), decompress(&[18, b'a', 32, 0, 10, 0], 299));
    let stream = [21, b'a', b'b', b'c', b'd', 110, 0, b'x'];
    assert_eq!(Err(Error::InputOverrun), decompress(&stream, 10));
}

#[test]
fn end_marker_needs_no_count() {
    assert_eq!(Ok(Vec::new()), decompress(&[16, 5, 0, 0], 0));
    assert_eq!(Ok(vec![b'a']), decompress(&[18, b'a', 23, 0, 0], 1));
}
