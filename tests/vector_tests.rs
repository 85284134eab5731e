use bao::decode::{add_offset, allow_broken_pipe, cast_offset, into_io_error, SeekFrom, into_io, Error, Reader, State, StateNext, Subtree};
use bao::encode::{count_chunks, encode_outboard_to_vec, encode_to_vec, encoded_size, hash, outboard_size};
use bao::hash::{decode_len, encode_len, hash_node, left_len, Finalization, CHUNK_SIZE};
use bao::slice::{decode_slice, extract_slice};
use bao::whole::{decode_outboard_to_vec, decode_to_vec, hash_from_encoded};
use bao::writer::Writer;
use std::io::{Error as IoError, ErrorKind};

const SIZES: [usize; 14] = [0, 1, 10, 1023, 1024, 1025, 4095, 4096, 4097, 8191, 8192, 8193, 12288, 12289];

fn make_input(len: usize) -> Vec<u8> {
    let mut counter: u32 = 1;
    let mut output = Vec::with_capacity(len);
    while output.len() < len {
        let bytes = counter.to_le_bytes();
        let take = std::cmp::min(4, len - output.len());
        output.extend_from_slice(&bytes[..take]);
        counter += 1;
    }
    output
}

fn corrupt_hash(hash: &[u8; 32]) -> [u8; 32] {
    let mut bad = *hash;
    bad[0] ^= 1;
    bad
}

fn reader_read_all(reader: &mut Reader) -> Result<Vec<u8>, Error> {
    reader.read_to_end()
}

fn all_decode_implementations(encoded: &[u8], hash: &[u8; 32]) -> Result<Vec<u8>, Error> {
    let whole = decode_to_vec(&encoded.to_vec(), hash);
    let mut reader = Reader::new(encoded.to_vec(), *hash);
    let streamed = reader_read_all(&mut reader);
    assert_eq!(whole.is_ok(), streamed.is_ok());
    if let (Ok(a), Ok(b)) = (&whole, &streamed) {
        assert_eq!(a, b);
    }
    whole
}

#[test]
fn test_hash_vectors() {
    for &len in SIZES.iter() {
        let input = make_input(len);
        let h = hash(&input);
        let (encoded_hash, _) = encode_to_vec(&input);
        let (outboard_hash, _) = encode_outboard_to_vec(&input);
        assert_eq!(h, encoded_hash);
        assert_eq!(h, outboard_hash);
        // The incremental hasher gives the same answer.
        let mut writer = Writer::new();
        writer.write(&input);
        assert_eq!(h, writer.finish());
    }
}

#[test]
fn test_encode_vectors() {
    for &len in SIZES.iter() {
        let input = make_input(len);
        let (h, encoded) = encode_to_vec(&input);
        assert_eq!(encoded.len() as u128, encoded_size(len as u64));
        assert_eq!(&encoded[..8], &encode_len(len as u64)[..]);
        let output = all_decode_implementations(&encoded, &h).unwrap();
        assert_eq!(input, output);
        let bad = corrupt_hash(&h);
        assert_eq!(Err(Error::HashMismatch), decode_to_vec(&encoded, &bad));
        assert!(all_decode_implementations(&encoded, &bad).is_err());
        let step = std::cmp::max(1, encoded.len() / 40);
        let mut point = 0;
        while point < encoded.len() {
            let mut corrupt = encoded.clone();
            corrupt[point] ^= 1;
            assert!(all_decode_implementations(&corrupt, &h).is_err(), "corruption {}", point);
            point += step;
        }
    }
}

#[test]
fn test_outboard_vectors() {
    for &len in SIZES.iter() {
        let input = make_input(len);
        let (h, outboard) = encode_outboard_to_vec(&input);
        assert_eq!(outboard.len() as u128, outboard_size(len as u64));
        let mut reader = Reader::new_outboard(input.clone(), outboard.clone(), h);
        assert_eq!(input, reader.read_to_end().unwrap());
        assert_eq!(Ok(input.clone()), decode_outboard_to_vec(&input, &outboard, &h));
        assert_eq!(Err(Error::HashMismatch), decode_outboard_to_vec(&input, &outboard, &corrupt_hash(&h)));
        if len > 0 {
            let mut corrupt = input.clone();
            corrupt[len / 2] ^= 1;
            assert_eq!(Err(Error::HashMismatch), decode_outboard_to_vec(&corrupt, &outboard, &h));
            assert_eq!(Err(Error::Truncated), decode_outboard_to_vec(&input[1..].to_vec(), &outboard, &h));
        }
        let mut reader = Reader::new_outboard(input.clone(), outboard.clone(), corrupt_hash(&h));
        assert_eq!(Err(Error::HashMismatch), reader.read_to_end());
        let step = std::cmp::max(1, outboard.len() / 25);
        for point in (0..outboard.len()).step_by(step) {
            let mut corrupt = outboard.clone();
            corrupt[point] ^= 1;
            let mut reader = Reader::new_outboard(input.clone(), corrupt, h);
            assert!(reader.read_to_end().is_err(), "corruption {}", point);
        }
        let step = std::cmp::max(1, input.len() / 20);
        let mut point = 0;
        while point < input.len() {
            let mut corrupt = input.clone();
            corrupt[point] ^= 1;
            let mut reader = Reader::new_outboard(corrupt, outboard.clone(), h);
            assert_eq!(Err(Error::HashMismatch), reader.read_to_end(), "corruption {}", point);
            point += step;
        }
    }
}

fn check_seeks(len: usize, offsets: &[usize]) {
    let input = make_input(len);
    let (h, encoded) = encode_to_vec(&input);
    let (outboard_hash, outboard) = encode_outboard_to_vec(&input);
    assert_eq!(h, outboard_hash);
    for &seek in offsets {
        let capped = std::cmp::min(seek, input.len());
        let mut combined = Reader::new(encoded.clone(), h);
        assert_eq!(seek as u64, combined.seek(seek as u64).unwrap());
        assert_eq!(&input[capped..], &combined.read_to_end().unwrap()[..], "seek {}", seek);
        let mut outboard_reader = Reader::new_outboard(input.clone(), outboard.clone(), h);
        outboard_reader.seek(seek as u64).unwrap();
        assert_eq!(&input[capped..], &outboard_reader.read_to_end().unwrap()[..], "seek {}", seek);
    }
    let mut repeated: Vec<usize> = Vec::new();
    repeated.extend(offsets.iter());
    repeated.extend(offsets.iter().rev());
    for (&x, &y) in offsets.iter().zip(offsets.iter().rev()) {
        repeated.push(x);
        repeated.push(y);
    }
    let mut combined = Reader::new(encoded.clone(), h);
    let mut outboard_reader = Reader::new_outboard(input.clone(), outboard.clone(), h);
    for &seek in &repeated {
        let capped = std::cmp::min(seek, input.len());
        let capped_len = std::cmp::min(100, input.len() - capped);
        combined.seek(seek as u64).unwrap();
        let mut got = Vec::new();
        while got.len() < capped_len {
            let part = combined.read(capped_len - got.len()).unwrap();
            assert!(!part.is_empty());
            got.extend_from_slice(&part);
        }
        assert_eq!(&input[capped..][..capped_len], &got[..], "repeated seek {}", seek);
        outboard_reader.seek(seek as u64).unwrap();
        let mut got = Vec::new();
        while got.len() < capped_len {
            let part = outboard_reader.read(capped_len - got.len()).unwrap();
            assert!(!part.is_empty());
            got.extend_from_slice(&part);
        }
        assert_eq!(&input[capped..][..capped_len], &got[..], "repeated seek {}", seek);
    }
}

#[test]
fn test_seek_vectors() {
    for &len in SIZES.iter() {
        let offsets = [0, 1, 5, len / 2, len.saturating_sub(1), len, len + 1, 4095, 4096, 4097, 8193];
        check_seeks(len, &offsets);
    }
}

#[test]
fn seek_large_input() {
    check_seeks(1_000_000, &[0, 1, 4095, 4096, 4097, 500_000, 999_999, 1_000_000, 1_000_001]);
}

fn check_slice(input: &[u8], encoded: &Vec<u8>, h: &[u8; 32], start: u64, len: u64) -> Vec<u8> {
    let capped_start = std::cmp::min(input.len(), start as usize);
    let capped_len = std::cmp::min(input.len() - capped_start, len as usize);
    let expected = &input[capped_start..][..capped_len];
    let slice = extract_slice(encoded, start, len).unwrap();
    let output = decode_slice(&slice, h, start, len).unwrap();
    assert_eq!(expected, &output[..], "slice {} {}", start, len);
    assert!(decode_slice(&slice, &corrupt_hash(h), start, len).is_err());
    slice
}

#[test]
fn test_slice_vectors() {
    for &len in SIZES.iter() {
        let input = make_input(len);
        let (h, encoded) = encode_to_vec(&input);
        for &(start, slice_len) in [(0u64, 0u64), (0, 1), (1, 1), (4095, 2), (4096, 4096), (0, 100_000), (len as u64, 1), (len as u64 + 5, 10), (8191, 3)].iter() {
            let slice = check_slice(&input, &encoded, &h, start, slice_len);
            let step = std::cmp::max(1, slice.len() / 25);
            for point in (0..slice.len()).step_by(step) {
                let mut corrupt = slice.clone();
                corrupt[point] ^= 1;
                if let Ok(out) = decode_slice(&corrupt, &h, start, slice_len) {
                    panic!("corruption {} decoded {} bytes", point, out.len());
                }
            }
        }
    }
}

#[test]
fn slice_of_large_input() {
    let input = make_input(1_000_000);
    let (h, encoded) = encode_to_vec(&input);
    let slice = check_slice(&input, &encoded, &h, 5000, 100_000);
    assert!(slice.len() < encoded.len());
    let step = slice.len() / 30;
    let mut point = 0;
    while point < slice.len() {
        let mut corrupt = slice.clone();
        corrupt[point] ^= 1;
        assert!(decode_slice(&corrupt, &h, 5000, 100_000).is_err(), "corruption {}", point);
        point += step;
    }
}

#[test]
fn encoded_sizes_of_small_trees() {
    assert_eq!(8, encoded_size(0));
    assert_eq!(9, encoded_size(1));
    assert_eq!(1032, encoded_size(1024));
    assert_eq!(4104, encoded_size(4096));
    assert_eq!(8 + 64 + 4096 + 1, encoded_size(4097));
    assert_eq!(8 + 64 + 8192, encoded_size(8192));
    assert_eq!(8 + 128 + 12288, encoded_size(12288));
    assert_eq!(8 + 64 * 244 + 1_000_000, encoded_size(1_000_000));
    assert_eq!(8, outboard_size(0));
    assert_eq!(8 + 64, outboard_size(8192));
    assert_eq!(1, count_chunks(0));
    assert_eq!(1, count_chunks(4096));
    assert_eq!(2, count_chunks(4097));
    assert_eq!(u64::MAX / 4096 + 1, count_chunks(u64::MAX));
}

#[test]
fn left_lengths() {
    assert_eq!(4096, left_len(4097));
    assert_eq!(4096, left_len(8192));
    assert_eq!(8192, left_len(8193));
    assert_eq!(8192, left_len(12288));
    assert_eq!(1 << 63, left_len(u64::MAX));
}

#[test]
fn empty_input_root_is_the_empty_chunk() {
    let h = hash(&[]);
    assert_eq!(h, hash_node(&[], Finalization::Root(0)));
    assert_ne!(h, hash_node(&[], Finalization::NotRoot));
    let (eh, encoded) = encode_to_vec(&[]);
    assert_eq!(h, eh);
    assert_eq!(encoded, vec![0u8; 8]);
    assert_eq!(Ok(Vec::new()), decode_to_vec(&encoded, &h));
}

#[test]
fn two_chunk_tree_layout() {
    let input = make_input(8192);
    let (h, encoded) = encode_to_vec(&input);
    let left = hash_node(&input[..4096], Finalization::NotRoot);
    let right = hash_node(&input[4096..], Finalization::NotRoot);
    assert_eq!(&encoded[8..40], &left[..]);
    assert_eq!(&encoded[40..72], &right[..]);
    assert_eq!(&encoded[72..], &input[..]);
    let mut parent = left.to_vec();
    parent.extend_from_slice(&right);
    assert_eq!(h, hash_node(&parent, Finalization::Root(8192)));
    let three = make_input(3 * 4096);
    let (_, encoded) = encode_to_vec(&three);
    assert_eq!(8 + 64 + 64 + 3 * 4096, encoded.len());
}

#[test]
fn root_hash_binds_the_length() {
    let a = hash_node(b"abc", Finalization::Root(3));
    assert_ne!(a, hash_node(b"abc", Finalization::Root(4)));
    assert_ne!(a, hash_node(b"abc", Finalization::NotRoot));
    assert_ne!(hash(&make_input(5)), hash(&make_input(6)));
}

#[test]
fn length_header_round_trip() {
    assert_eq!([1, 0, 0, 0, 0, 0, 0, 0], encode_len(1));
    assert_eq!([0, 1, 0, 0, 0, 0, 0, 0x80], encode_len(0x8000_0000_0000_0100));
    assert_eq!(0x0807_0605_0403_0201, decode_len(&[1, 2, 3, 4, 5, 6, 7, 8]));
    for n in [0u64, 1, 4096, u64::MAX] {
        assert_eq!(n, decode_len(&encode_len(n)));
    }
}

#[test]
fn state_machine_steps() {
    let input = make_input(8193);
    let (h, encoded) = encode_to_vec(&input);
    let mut state = State::new(h);
    assert!(matches!(state.read_next(), StateNext::Header));
    let mut header = [0u8; 8];
    header.copy_from_slice(&encoded[..8]);
    state.feed_header(header);
    match state.len_next() {
        either::Either::Right(StateNext::Subtree { size, skip, finalization }) => {
            assert_eq!(8193, size);
            assert_eq!(0, skip);
            assert_eq!(Finalization::Root(8193), finalization);
        }
        _ => panic!("expected the root parent"),
    }
    let mut parent = [0u8; 64];
    parent.copy_from_slice(&encoded[8..72]);
    let mut bad = parent;
    bad[3] ^= 0x10;
    assert_eq!(Err(()), state.feed_parent(&bad));
    assert_eq!(Ok(()), state.feed_parent(&parent));
    assert!(matches!(state.len_next(), either::Either::Left(8193)));
    // The left subtree holds 8192 bytes and the right one a single byte.
    let (offset, next) = state.seek_next(8192);
    assert_eq!(8 + 64 + 64 + 8192, offset);
    assert!(matches!(next, StateNext::Done));
    assert_eq!(8192, state.position());
    let (offset, next) = state.seek_next(5000);
    assert_eq!(8, offset);
    assert!(matches!(next, StateNext::Subtree { size: 8193, skip: 5000, .. }));
    assert_eq!(Ok(()), state.feed_parent(&parent));
    let (offset, next) = state.seek_next(5000);
    assert_eq!(72, offset);
    assert!(matches!(next, StateNext::Subtree { size: 8192, skip: 5000, .. }));
    let (offset, next) = state.seek_next(100);
    assert_eq!(72, offset);
    assert!(matches!(next, StateNext::Done));
    assert_eq!(100, state.position());
    assert!(matches!(state.read_next(), StateNext::Subtree { size: 8192, skip: 100, .. }));
    let mut left_parent = [0u8; 64];
    left_parent.copy_from_slice(&encoded[72..136]);
    assert_eq!(Ok(()), state.feed_parent(&left_parent));
    match state.read_next() {
        StateNext::Chunk { size, skip, finalization } => {
            assert_eq!(4096, size);
            assert_eq!(100, skip);
            assert_eq!(Finalization::NotRoot, finalization);
            let chunk_hash = hash_node(&input[..4096], finalization);
            assert_eq!(Err(()), state.feed_subtree(corrupt_hash(&chunk_hash)));
            assert_eq!(Ok(()), state.feed_subtree(chunk_hash));
            assert_eq!(4096, state.position());
        }
        _ => panic!("expected the first chunk"),
    }
    let (_, next) = state.seek_next(9000);
    assert!(matches!(next, StateNext::Done));
    assert_eq!(9000, state.position());
    assert!(matches!(state.read_next(), StateNext::Done));
}

#[test]
fn subtree_helpers() {
    let s = Subtree { hash: [0; 32], start: 4096, end: 8193 };
    assert_eq!(4097, s.len());
    assert!(!s.is_root(8193));
    assert_eq!(Finalization::NotRoot, s.finalization(8193));
    let root = Subtree { hash: [0; 32], start: 0, end: 10 };
    assert!(root.is_root(10));
    assert_eq!(Finalization::Root(10), root.finalization(10));
    assert!(matches!(root.state_next(10, 3), StateNext::Chunk { size: 10, skip: 3, .. }));
    assert!(matches!(s.state_next(8193, 5000), StateNext::Subtree { size: 4097, skip: 904, .. }));
    assert_eq!(CHUNK_SIZE, 4096);
}

#[test]
fn offsets_and_errors() {
    assert_eq!(5, add_offset(2, 3).unwrap());
    assert_eq!(0, add_offset(2, -2).unwrap());
    assert_eq!(std::io::ErrorKind::InvalidInput, add_offset(2, -3).unwrap_err().kind());
    assert_eq!(std::io::ErrorKind::InvalidInput, add_offset(u64::MAX, 1).unwrap_err().kind());
    assert_eq!(u64::MAX, cast_offset(u64::MAX as u128).unwrap());
    assert!(cast_offset(u64::MAX as u128 + 1).is_err());
    assert_eq!(7, into_io(Ok::<u32, ()>(7)).unwrap());
    assert_eq!(std::io::ErrorKind::InvalidData, into_io(Err::<u32, ()>(())).unwrap_err().kind());
}

#[test]
fn truncated_encodings_fail() {
    let input = make_input(10_000);
    let (h, encoded) = encode_to_vec(&input);
    assert_eq!(Err(Error::Truncated), decode_to_vec(&encoded[..encoded.len() - 1].to_vec(), &h));
    assert_eq!(Err(Error::Truncated), decode_to_vec(&encoded[..5].to_vec(), &h));
    let mut reader = Reader::new(encoded[..100].to_vec(), h);
    assert_eq!(Err(Error::Truncated), reader.read_to_end());
    assert_eq!(Err(Error::Truncated), extract_slice(&encoded[..3].to_vec(), 0, 1));
}

#[test]
fn broken_pipe_is_a_clean_end() {
    assert!(allow_broken_pipe(Ok::<usize, IoError>(5)).is_ok());
    assert!(allow_broken_pipe(Err::<usize, IoError>(IoError::new(ErrorKind::BrokenPipe, "closed"))).is_ok());
    let other = allow_broken_pipe(Err::<usize, IoError>(IoError::new(ErrorKind::Other, "disk")));
    assert_eq!(ErrorKind::Other, other.unwrap_err().kind());
}

#[test]
fn hash_from_encoding_header_and_root() {
    for &len in [0usize, 1, 4096, 4097, 20_000].iter() {
        let input = make_input(len);
        let (h, encoded) = encode_to_vec(&input);
        assert_eq!(Ok(h), hash_from_encoded(&encoded));
        assert_eq!(Err(Error::Truncated), hash_from_encoded(&encoded[..4].to_vec()));
    }
}

#[test]
fn slice_layout_of_two_chunks() {
    let input = make_input(8192);
    let (h, encoded) = encode_to_vec(&input);
    // The first chunk alone: header, root parent, first chunk.
    let slice = extract_slice(&encoded, 10, 20).unwrap();
    assert_eq!(8 + 64 + 4096, slice.len());
    assert_eq!(&encoded[..8 + 64 + 4096], &slice[..]);
    assert_eq!(&input[10..30], &decode_slice(&slice, &h, 10, 20).unwrap()[..]);
    // A range across both chunks carries the whole encoding.
    let slice = extract_slice(&encoded, 4000, 200).unwrap();
    assert_eq!(encoded, slice);
    // A slice past the end carries the last chunk and decodes to nothing.
    let slice = extract_slice(&encoded, 9000, 5).unwrap();
    assert_eq!(8 + 64 + 4096, slice.len());
    assert_eq!(&encoded[8 + 64 + 4096..], &slice[8 + 64..]);
    assert_eq!(Vec::<u8>::new(), decode_slice(&slice, &h, 9000, 5).unwrap());
}

#[test]
fn writer_matches_hash_in_any_pieces() {
    for &len in SIZES.iter().chain([20_000usize, 65_537].iter()) {
        let input = make_input(len);
        let expected = hash(&input);
        let mut whole = Writer::new();
        whole.write(&input);
        assert_eq!(expected, whole.finish(), "input_len {}", len);
        for &piece in [1usize, 7, 4096, 5000].iter() {
            let mut writer = Writer::new();
            for part in input.chunks(piece) {
                writer.write(part);
            }
            writer.write(&[]);
            assert_eq!(expected, writer.finish(), "input_len {} piece {}", len, piece);
        }
    }
}

#[test]
fn relative_seeks() {
    let input = make_input(10_000);
    let (h, encoded) = encode_to_vec(&input);
    let mut reader = Reader::new(encoded.clone(), h);
    assert_eq!(9_990, reader.seek_from(SeekFrom::End(-10)).unwrap());
    assert_eq!(&input[9_990..], &reader.read_to_end().unwrap()[..]);
    assert_eq!(5_000, reader.seek_from(SeekFrom::Start(5_000)).unwrap());
    assert_eq!(5_100, reader.seek_from(SeekFrom::Current(100)).unwrap());
    assert_eq!(&input[5_100..5_110], &reader.read(10).unwrap()[..]);
    assert_eq!(5_110, reader.position());
    assert_eq!(ErrorKind::InvalidInput, reader.seek_from(SeekFrom::Current(-6_000)).unwrap_err().kind());
    assert_eq!(ErrorKind::InvalidInput, reader.seek_from(SeekFrom::End(-10_001)).unwrap_err().kind());
    assert_eq!(5_110, reader.position());
    let mut bad = Reader::new(encoded, corrupt_hash(&h));
    assert_eq!(ErrorKind::InvalidData, bad.seek_from(SeekFrom::End(0)).unwrap_err().kind());
    assert_eq!(Err(Error::HashMismatch), bad.read(1));
    assert_eq!(ErrorKind::UnexpectedEof, into_io_error(Error::Truncated).kind());
}

#[test]
fn error_kinds() {
    assert_eq!(ErrorKind::Other, cast_offset(u64::MAX as u128 + 1).unwrap_err().kind());
    assert_eq!(ErrorKind::InvalidData, into_io_error(Error::HashMismatch).kind());
    assert_eq!(ErrorKind::Other, into_io_error(Error::Overflow).kind());
    let input = make_input(10_000);
    let (h, encoded) = encode_to_vec(&input);
    let slice = extract_slice(&encoded, 100, 10).unwrap();
    assert_eq!(Err(Error::Truncated), decode_slice(&slice[..slice.len() - 1].to_vec(), &h, 100, 10));
    assert_eq!(Err(Error::HashMismatch), decode_slice(&slice, &corrupt_hash(&h), 100, 10));
    let (oh, outboard) = encode_outboard_to_vec(&input);
    assert_eq!(Err(Error::Truncated), decode_outboard_to_vec(&input, &outboard[..70].to_vec(), &oh));
}

// Drives the state machine over a whole encoding, as a streaming reader does.
fn drive_state(encoded: &[u8], h: [u8; 32], seek: Option<u64>) -> Result<Vec<u8>, ()> {
    let mut state = State::new(h);
    let mut offset: usize = 0;
    let mut out = Vec::new();
    let mut feed = |state: &mut State, next: StateNext, offset: &mut usize, out: &mut Vec<u8>| -> Result<(), ()> {
        match next {
            StateNext::Header => {
                let mut header = [0u8; 8];
                header.copy_from_slice(encoded.get(*offset..*offset + 8).ok_or(())?);
                *offset += 8;
                state.feed_header(header);
            }
            StateNext::Subtree { .. } => {
                let mut parent = [0u8; 64];
                parent.copy_from_slice(encoded.get(*offset..*offset + 64).ok_or(())?);
                *offset += 64;
                state.feed_parent(&parent)?;
            }
            StateNext::Chunk { size, skip, finalization } => {
                let chunk = encoded.get(*offset..*offset + size).ok_or(())?;
                *offset += size;
                state.feed_subtree(hash_node(chunk, finalization))?;
                out.extend_from_slice(&chunk[std::cmp::min(skip, size)..]);
            }
            StateNext::Done => {}
        }
        Ok(())
    };
    if let Some(target) = seek {
        loop {
            match state.len_next() {
                either::Either::Left(_) => break,
                either::Either::Right(next) => feed(&mut state, next, &mut offset, &mut Vec::new())?,
            }
        }
        loop {
            let (at, next) = state.seek_next(target);
            offset = at as usize;
            if matches!(next, StateNext::Done) {
                break;
            }
            feed(&mut state, next, &mut offset, &mut Vec::new())?;
        }
    }
    loop {
        let next = state.read_next();
        if matches!(next, StateNext::Done) {
            return Ok(out);
        }
        feed(&mut state, next, &mut offset, &mut out)?;
    }
}

#[test]
fn state_machine_drives_a_full_decode() {
    for &len in SIZES.iter().chain([100_000usize].iter()) {
        let input = make_input(len);
        let (h, encoded) = encode_to_vec(&input);
        assert_eq!(Ok(input.clone()), drive_state(&encoded, h, None), "input_len {}", len);
        assert_eq!(Err(()), drive_state(&encoded, corrupt_hash(&h), None));
        for &s in [0usize, 1, 4095, 4096, 4097, len / 2, len, len + 3].iter() {
            let capped = std::cmp::min(s, len);
            assert_eq!(Ok(input[capped..].to_vec()), drive_state(&encoded, h, Some(s as u64)), "seek {}", s);
        }
    }
}
