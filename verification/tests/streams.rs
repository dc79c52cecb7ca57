use minilzo::bound::worst_case_len;
use minilzo::emit::{emit_stream, BackRef};
use minilzo::encode::encode;
use minilzo::plan::find_plan;
use minilzo::{compress, decompress, Error};

fn noise(count: usize, seed: u64) -> Vec<u8> {
    let mut state: u64 = seed;
    let mut bytes: Vec<u8> = Vec::with_capacity(count);
    for _ in 0..count {
        state = (state * 1103515245 + 12345) % (1 << 31);
        bytes.push(((state >> 16) & 0xff) as u8);
    }
    bytes
}

fn fingerprint(bytes: &[u8]) -> u64 {
    let mut hash: u64 = 0;
    for byte in bytes {
        hash = (hash * 31 + *byte as u64) % 1_000_000_007;
    }
    hash
}

fn mixed(count: usize) -> Vec<u8> {
    let source = noise(200000, 3);
    let mut out: Vec<u8> = Vec::new();
    let mut i: usize = 0;
    while out.len() < count {
        let v = source[i];
        i += 1;
        if v < 128 && out.len() > 10 {
            let start = (source[i] as usize * 256 + source[i + 1] as usize) % out.len();
            let len = 4 + (source[i + 2] % 60) as usize;
            i += 3;
            for j in 0..len {
                let byte = if start + j < out.len() { out[start + j] } else { 32 };
                out.push(byte);
            }
        } else {
            out.push(v);
        }
        if i > 190000 {
            break;
        }
    }
    out.truncate(count);
    out
}

#[test]
fn empty_input_is_the_end_marker_alone() {
    assert_eq!(vec![17u8, 0, 0], encode(&[]));
    assert_eq!(Err(Error::NotCompressible), compress(&[]));
    assert_eq!(Ok(Vec::new()), decompress(&[17, 0, 0], 0));
}

#[test]
fn three_bytes_take_the_first_byte_form() {
    assert_eq!(vec![20u8, b'f', b'o', b'o', 17, 0, 0], encode(b"foo"));
}

#[test]
fn first_byte_form_ends_at_238_literals() {
    let short: Vec<u8> = (0..238).map(|i| i as u8).collect();
    let stream = encode(&short);
    assert_eq!(238 + 4, stream.len());
    assert_eq!(255, stream[0]);
    assert_eq!(&short[..], &stream[1..239]);
    assert_eq!(&[17u8, 0, 0][..], &stream[239..]);

    let long: Vec<u8> = (0..239).map(|i| i as u8).collect();
    let stream = encode(&long);
    assert_eq!(239 + 5, stream.len());
    assert_eq!(&[0u8, 221][..], &stream[..2]);
    assert_eq!(&long[..], &stream[2..241]);
    assert_eq!(Ok(long), decompress(&stream, 239));
}

#[test]
fn ramp_stream_is_exact() {
    let ramp: Vec<u8> = (0..300).map(|i| (i % 256) as u8).collect();
    let stream = compress(&ramp).unwrap();
    assert_eq!(281, stream.len());
    assert_eq!(&[0u8, 238][..], &stream[..2]);
    assert_eq!(&ramp[..256], &stream[2..258]);
    let tail: Vec<u8> = vec![
        58, 252, 3, 13, 28, 29, 30, 31, 32, 33, 34, 35, 36, 37, 38, 39, 40, 41, 42, 43, 17, 0, 0,
    ];
    assert_eq!(&tail[..], &stream[258..]);
    assert_eq!(vec![BackRef { pos: 256, dist: 256, len: 28 }], find_plan(&ramp));
    assert_eq!(Ok(ramp), decompress(&stream, 300));
}

#[test]
fn short_form_stream_is_exact() {
    let input: Vec<u8> = b"abc".iter().cycle().take(60).cloned().collect();
    let expected: Vec<u8> = vec![
        3, 97, 98, 99, 97, 98, 99, 32, 3, 20, 0, 15, 97, 98, 99, 97, 98, 99, 97, 98, 99, 97, 98, 99, 97, 98, 99, 97,
        98, 99, 17, 0, 0,
    ];
    assert_eq!(Ok(expected), compress(&input));
}

#[test]
fn thousand_zeros_stream_is_exact() {
    let expected: Vec<u8> = vec![
        2, 0, 0, 0, 0, 0, 32, 0, 0, 0, 182, 16, 0, 12, 0, 0, 0, 0, 0, 0, 0, 0, 0, 0, 0, 0, 0, 0, 0, 17, 0, 0,
    ];
    assert_eq!(Ok(expected), compress(&[0u8; 1000]));
}

#[test]
fn far_distance_takes_the_widest_form() {
    let mut input = noise(20000, 1);
    let again: Vec<u8> = input[..64].to_vec();
    input.extend_from_slice(&again);
    input.extend_from_slice(&noise(30, 7));
    let plan = find_plan(&input);
    assert_eq!(BackRef { pos: 20005, dist: 20000, len: 59 }, plan[plan.len() - 1]);
    let stream = encode(&input);
    assert_eq!(20124, stream.len());
    let at = stream.len() - 3 - 30 - 2 - 4;
    assert_eq!(&[16u8, 50, 128, 56, 0, 12][..], &stream[at..at + 6]);
    assert_eq!(Err(Error::NotCompressible), compress(&input));
    assert_eq!(Ok(input), decompress(&stream, 20094));
}

#[test]
fn noise_is_not_compressible() {
    let input = noise(1000, 5);
    assert_eq!(Vec::<BackRef>::new(), find_plan(&input));
    let stream = encode(&input);
    assert_eq!(1008, stream.len());
    assert_eq!(&[0u8, 0, 0, 0, 217][..], &stream[..5]);
    assert_eq!(Err(Error::NotCompressible), compress(&input));
    assert_eq!(Ok(input), decompress(&stream, 1000));
}

#[test]
fn mixed_input_round_trip() {
    let input = mixed(120000);
    assert_eq!(120000, input.len());
    assert_eq!(667414442, fingerprint(&input));
    let stream = compress(&input).unwrap();
    assert_eq!(35400, stream.len());
    assert_eq!(39008143, fingerprint(&stream));
    assert_eq!(Ok(input), decompress(&stream, 120000));
}

#[test]
fn round_trip_at_every_small_length() {
    let source = mixed(600);
    for len in 0..600 {
        let input = &source[..len];
        let stream = encode(input);
        assert_eq!(Ok(input.to_vec()), decompress(&stream, len));
        assert!(stream.len() <= worst_case_len(len).unwrap());
        match compress(input) {
            Ok(data) => {
                assert!(data.len() < len);
                assert_eq!(stream, data);
            },
            Err(kind) => {
                assert_eq!(Error::NotCompressible, kind);
                assert!(stream.len() >= len);
            },
        }
    }
}

#[test]
fn round_trip_across_blocks() {
    let mut input = mixed(100000);
    input.extend_from_slice(&noise(3000, 11));
    input.extend_from_slice(&vec![7u8; 50000]);
    let stream = compress(&input).unwrap();
    assert_eq!(Ok(input), decompress(&stream, 153000));
}

#[test]
fn emitting_the_found_plan_gives_the_stream() {
    let input = mixed(5000);
    let plan = find_plan(&input);
    assert!(!plan.is_empty());
    assert_eq!(encode(&input), emit_stream(&input, &plan));
}

#[test]
fn cut_stream_overruns_at_every_offset() {
    let alice = "\r\n\r\n\r\n\r\n                ALICE'S ADVENTURES IN WONDERLAND\r\n";
    let stream = compress(alice.as_bytes()).unwrap();
    for cut in 0..stream.len() {
        assert_eq!(Err(Error::InputOverrun), decompress(&stream[..cut], alice.len()));
    }
    let input = mixed(3000);
    let stream = compress(&input).unwrap();
    for cut in 0..stream.len() {
        assert_eq!(Err(Error::InputOverrun), decompress(&stream[..cut], 3000));
    }
}

#[test]
fn stream_keeps_within_the_worst_case() {
    assert_eq!(Some(67), worst_case_len(0));
    assert_eq!(Some(15 + 67), worst_case_len(15));
    assert_eq!(Some(16 + 1 + 67), worst_case_len(16));
    assert_eq!(Some(131072 + 8192 + 67), worst_case_len(131072));
    assert_eq!(None, worst_case_len(usize::MAX));
    assert_eq!(None, worst_case_len(usize::MAX - 67));
    for len in [0usize, 1, 20, 21, 238, 239, 1000, 50000] {
        let input = noise(len, 13);
        assert!(encode(&input).len() <= worst_case_len(len).unwrap());
    }
}

#[test]
fn wrong_length_is_refused() {
    let input = mixed(2000);
    let stream = compress(&input).unwrap();
    for shorter in 0..2000 {
        assert_eq!(Err(Error::OutputOverrun), decompress(&stream, shorter));
    }
    for longer in 2001..2100 {
        assert_eq!(Err(Error::OutputNotConsumed), decompress(&stream, longer));
    }
    assert_eq!(Err(Error::OutputNotConsumed), decompress(&stream, usize::MAX));
    assert_eq!(Ok(input), decompress(&stream, 2000));
}

#[test]
fn small_inputs_are_not_compressible() {
    for len in 0..=20 {
        let zeros = vec![0u8; len];
        assert_eq!(Err(Error::NotCompressible), compress(&zeros));
        assert_eq!(Vec::<BackRef>::new(), find_plan(&zeros));
        assert_eq!(len + if len == 0 { 3 } else { 4 }, encode(&zeros).len());
    }
    assert_eq!(Vec::<BackRef>::new(), find_plan(&[0u8; 25]));
    assert_eq!(vec![BackRef { pos: 5, dist: 5, len: 12 }], find_plan(&[0u8; 30]));
    let expected: Vec<u8> = vec![
        2, 0, 0, 0, 0, 0, 42, 16, 0, 10, 0, 0, 0, 0, 0, 0, 0, 0, 0, 0, 0, 0, 0, 17, 0, 0,
    ];
    assert_eq!(Ok(expected), compress(&[0u8; 30]));
}
