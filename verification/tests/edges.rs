use lz4_flex::block::{
    compress, decompress, decompress_into, decompress_scattered, DecompressError, MINMATCH,
    WINDOW_SIZE,
};

/// Decompress `fragments` into buffers of the given sizes that are filled with
/// 0xEE, and return the result and what the buffers hold afterwards.
fn scatter(fragments: &[&[u8]], sizes: &[usize]) -> (Result<usize, DecompressError>, Vec<u8>) {
    let mut buffers: Vec<Vec<u8>> = sizes.iter().map(|&n| vec![0xEEu8; n]).collect();
    let mut output: Vec<&mut [u8]> = buffers.iter_mut().map(|b| b.as_mut_slice()).collect();
    let res = decompress_scattered(fragments, &mut output);
    (res, buffers.concat())
}

fn push_length(block: &mut Vec<u8>, length: usize) {
    if length >= 15 {
        let mut rest = length - 15;
        while rest >= 255 {
            block.push(255);
            rest -= 255;
        }
        block.push(rest as u8);
    }
}

/// Write down a sequence; one without a match is the last of its block.
fn push_sequence(block: &mut Vec<u8>, literals: &[u8], matched: Option<(usize, usize)>) {
    let length = match matched {
        Some((_, length)) => length - MINMATCH,
        None => 0,
    };
    block.push((literals.len().min(15) * 16 + length.min(15)) as u8);
    push_length(block, literals.len());
    block.extend_from_slice(literals);
    if let Some((offset, _)) = matched {
        block.push((offset % 256) as u8);
        block.push((offset / 256) as u8);
        push_length(block, length);
    }
}

/// A block whose second sequence begins after exactly `first` bytes of output.
fn block_with_sequence_at(first: usize) -> (Vec<u8>, Vec<u8>) {
    let literals: Vec<u8> = (0..first - 4).map(|i| (i * 7 % 251) as u8).collect();
    let mut bytes = literals.clone();
    for _ in 0..4 {
        bytes.push(bytes[bytes.len() - 3]);
    }
    let mut block = Vec::new();
    push_sequence(&mut block, &literals, Some((3, 4)));
    push_sequence(&mut block, b"the end", None);
    bytes.extend_from_slice(b"the end");
    (block, bytes)
}

#[test]
fn constants_of_the_format() {
    assert_eq!(MINMATCH, 4);
    assert_eq!(WINDOW_SIZE, 64 * 1024);
}

#[test]
fn literals_and_an_overlapping_match() {
    // "ab", a match of 6 bytes at offset 2, then "!".
    let block = [0x22, b'a', b'b', 2, 0, 0x10, b'!'];
    let (res, bytes) = scatter(&[&block], &[12]);
    assert_eq!(res, Ok(9));
    assert_eq!(bytes, b"abababab!\xEE\xEE\xEE");

    for cut in 0..=block.len() {
        for split in 0..=9 {
            let (res, bytes) = scatter(&[&block[..cut], &block[cut..]], &[split, 9 - split]);
            assert_eq!(res, Ok(9));
            assert_eq!(bytes, b"abababab!");
        }
    }
}

#[test]
fn extended_lengths_count_every_byte() {
    // 15 + 255 + 0 literals, then a match of 4 + 15 + 255 + 2 bytes.
    let mut block = vec![0xFF, 255, 0];
    block.extend((0..270u32).map(|i| (i % 256) as u8));
    block.extend([14, 1, 255, 2]);
    block.push(0x00);
    let mut bytes: Vec<u8> = (0..270u32).map(|i| (i % 256) as u8).collect();
    for i in 0..276 {
        bytes.push(bytes[i]);
    }
    assert_eq!(decompress(&block, 600), Ok(bytes.clone()));
    for cut in [1, 2, 3, 100, 273, 274, 275, 276, 277, 278] {
        let (res, out) = scatter(&[&block[..cut], &block[cut..]], &[300, 246]);
        assert_eq!(res, Ok(546));
        assert_eq!(out, bytes);
    }
}

#[test]
fn empty_payload_needs_a_buffer() {
    assert_eq!(scatter(&[&[0x00]], &[0]).0, Ok(0));
    assert_eq!(scatter(&[&[0x00]], &[0, 0]).0, Ok(0));
    assert_eq!(
        scatter(&[&[0x00]], &[]).0,
        Err(DecompressError::OutputTooSmall { expected: 1, actual: 0 })
    );
    assert_eq!(
        scatter(&[&[], &[0x00]], &[]).0,
        Err(DecompressError::OutputTooSmall { expected: 1, actual: 0 })
    );
}

#[test]
fn empty_input_is_no_block() {
    let none: [&[u8]; 0] = [];
    assert_eq!(scatter(&none, &[]).0, Err(DecompressError::ExpectedAnotherByte));
    assert_eq!(scatter(&none, &[5]).0, Err(DecompressError::ExpectedAnotherByte));
    assert_eq!(scatter(&[&[]], &[5]).0, Err(DecompressError::ExpectedAnotherByte));
    assert_eq!(scatter(&[&[], &[]], &[5]).0, Err(DecompressError::ExpectedAnotherByte));
}

#[test]
fn block_that_ends_on_a_match() {
    let block = [0x14, b'a', 1, 0];
    assert_eq!(scatter(&[&block], &[20]).0, Err(DecompressError::ExpectedAnotherByte));
    assert_eq!(
        scatter(&[&block[..2], &block[2..]], &[20]).0,
        Err(DecompressError::ExpectedAnotherByte)
    );
    assert_eq!(
        scatter(&[&block[..], &[]], &[3, 17]).0,
        Err(DecompressError::ExpectedAnotherByte)
    );
}

#[test]
fn literals_cut_off() {
    let block = [0x50, b'a', b'b'];
    let (res, bytes) = scatter(&[&block], &[9]);
    assert_eq!(res, Err(DecompressError::LiteralOutOfBounds));
    assert_eq!(bytes, [0xEE; 9]);
    // Within the last fragment the whole run is missed at once, across an edge
    // the byte after the last one is.
    assert_eq!(
        scatter(&[&[], &block], &[4, 5]).0,
        Err(DecompressError::LiteralOutOfBounds)
    );
    let (res, bytes) = scatter(&[&block[..1], &block[1..]], &[9]);
    assert_eq!(res, Err(DecompressError::ExpectedAnotherByte));
    assert_eq!(bytes, b"ab\xEE\xEE\xEE\xEE\xEE\xEE\xEE");
}

#[test]
fn length_extension_cut_off() {
    assert_eq!(scatter(&[&[0xF0]], &[9]).0, Err(DecompressError::ExpectedAnotherByte));
    assert_eq!(scatter(&[&[0xF0, 255]], &[9]).0, Err(DecompressError::ExpectedAnotherByte));
    assert_eq!(
        scatter(&[&[0xF0], &[255]], &[9]).0,
        Err(DecompressError::ExpectedAnotherByte)
    );
    let block = [0x1F, b'a', 1, 0];
    assert_eq!(scatter(&[&block], &[99]).0, Err(DecompressError::ExpectedAnotherByte));
}

#[test]
fn match_header_cut_off() {
    let block = [0x10, b'a', 1];
    let (res, bytes) = scatter(&[&block], &[3]);
    assert_eq!(res, Err(DecompressError::ExpectedAnotherByte));
    assert_eq!(bytes, b"a\xEE\xEE");
}

#[test]
fn too_small_in_one_piece() {
    let literals = [0x40, 1, 2, 3, 4];
    let (res, bytes) = scatter(&[&literals], &[3]);
    assert_eq!(res, Err(DecompressError::OutputTooSmall { expected: 4, actual: 3 }));
    assert_eq!(bytes, [0xEE; 3]);

    let matched = [0x18, b'a', 1, 0, 0x00];
    let (res, bytes) = scatter(&[&matched], &[5]);
    assert_eq!(res, Err(DecompressError::OutputTooSmall { expected: 13, actual: 5 }));
    assert_eq!(bytes, b"a\xEE\xEE\xEE\xEE");
}

#[test]
fn too_small_in_several_pieces() {
    let literals = [0x40, 1, 2, 3, 4];
    let (res, bytes) = scatter(&[&literals], &[1, 2]);
    assert_eq!(res, Err(DecompressError::OutputTooSmall { expected: 4, actual: 3 }));
    assert_eq!(bytes, [1, 2, 3]);

    let matched = [0x18, b'a', 1, 0, 0x00];
    let (res, bytes) = scatter(&[&matched], &[2, 3]);
    assert_eq!(res, Err(DecompressError::OutputTooSmall { expected: 6, actual: 5 }));
    assert_eq!(bytes, b"aaaaa");
}

#[test]
fn offset_errors_across_edges() {
    // The byte-wise path reads the whole sequence before it looks at the offset.
    let zero = [0x1F, b'a', 0, 0];
    assert_eq!(scatter(&[&zero], &[99]).0, Err(DecompressError::OffsetZero));
    assert_eq!(
        scatter(&[&zero[..3], &zero[3..]], &[99]).0,
        Err(DecompressError::ExpectedAnotherByte)
    );
    let zero = [0x14, b'a', 0, 0, 0x00];
    assert_eq!(
        scatter(&[&zero[..3], &zero[3..]], &[99]).0,
        Err(DecompressError::OffsetZero)
    );
    let far = [0x14, b'a', 2, 0, 0x00];
    assert_eq!(scatter(&[&far], &[99]).0, Err(DecompressError::OffsetOutOfBounds));
    assert_eq!(
        scatter(&[&far[..3], &far[3..]], &[1, 98]).0,
        Err(DecompressError::OffsetOutOfBounds)
    );
}

/// A sequence that crosses a fragment edge may begin exactly one match window
/// into its buffer.
#[test]
fn straddling_sequence_at_the_window_edge() {
    let (block, bytes) = block_with_sequence_at(WINDOW_SIZE);
    let cut = block.len() - 3;
    let (res, out) = scatter(&[&block[..cut], &block[cut..]], &[bytes.len()]);
    assert_eq!(res, Ok(bytes.len()));
    assert_eq!(out, bytes);

    let (block, bytes) = block_with_sequence_at(WINDOW_SIZE + 10);
    let cut = block.len() - 3;
    let (res, out) = scatter(&[&block[..cut], &block[cut..]], &[10, bytes.len() - 10]);
    assert_eq!(res, Ok(bytes.len()));
    assert_eq!(out, bytes);
}

/// The last buffer may hold exactly one match window.
#[test]
fn full_last_buffer_of_window_size() {
    let (block, bytes) = block_with_sequence_at(WINDOW_SIZE + 10);
    let (res, out) = scatter(&[&block], &[10, WINDOW_SIZE]);
    assert_eq!(
        res,
        Err(DecompressError::OutputTooSmall {
            expected: WINDOW_SIZE + 11,
            actual: WINDOW_SIZE + 10
        })
    );
    assert_eq!(out, bytes[..WINDOW_SIZE + 10]);
}

/// The farthest match there is reaches over several small buffers.
#[test]
fn farthest_match() {
    let literals: Vec<u8> = (0..65_535u32).map(|i| (i * 31 % 253) as u8).collect();
    let mut block = Vec::new();
    push_sequence(&mut block, &literals, Some((65_535, 100)));
    push_sequence(&mut block, &[], None);
    let mut bytes = literals.clone();
    bytes.extend_from_slice(&literals[..100]);
    assert_eq!(decompress(&block, bytes.len()), Ok(bytes.clone()));
    let (res, out) = scatter(&[&block], &[20_000, 0, 20_000, 20_000, 5_535, 100]);
    assert_eq!(res, Ok(bytes.len()));
    assert_eq!(out, bytes);
}

#[test]
fn decompress_into_keeps_what_follows() {
    let mut out = [0xEE; 6];
    assert_eq!(decompress_into(&[0x30, 1, 2, 3], &mut out), Ok(3));
    assert_eq!(out, [1, 2, 3, 0xEE, 0xEE, 0xEE]);
    assert_eq!(
        decompress_into(&[0x30, 1, 2, 3], &mut out[..2]),
        Err(DecompressError::OutputTooSmall { expected: 3, actual: 2 })
    );
}

#[test]
fn decompress_errors() {
    assert_eq!(decompress(&[0x30, 1, 2, 3], 9), Ok(vec![1, 2, 3]));
    assert_eq!(
        decompress(&[0x30, 1, 2, 3], 2),
        Err(DecompressError::OutputTooSmall { expected: 3, actual: 2 })
    );
    assert_eq!(decompress(&[], 2), Err(DecompressError::ExpectedAnotherByte));
}

#[test]
fn compress_short_inputs() {
    assert_eq!(compress(b""), [0x00]);
    assert_eq!(compress(b"abc"), [0x30, b'a', b'b', b'c']);
    let eighteen = compress(&[9u8; 18]);
    assert_eq!(eighteen, [0x17, 9, 1, 0, 0x60, 9, 9, 9, 9, 9, 9]);
}

#[test]
fn compress_round_trip_of_many_lengths() {
    for n in 0..700usize {
        let bytes: Vec<u8> = (0..n).map(|i| (i * i / 13 % 7) as u8).collect();
        let block = compress(&bytes);
        assert_eq!(decompress(&block, n), Ok(bytes.clone()));
        let cut = block.len() / 2;
        let (res, out) = scatter(&[&block[..cut], &block[cut..]], &[n / 3, n - n / 3]);
        assert_eq!(res, Ok(n));
        assert_eq!(out, bytes);
    }
}

/// Cutting a block short never yields as many bytes as the whole.
#[test]
fn truncation_shows_at_every_length() {
    let bytes: Vec<u8> = (0..500usize).map(|i| (i * i / 13 % 7) as u8).collect();
    let block = compress(&bytes);
    for n in 0..block.len() {
        if let Ok(fewer) = decompress(&block[..n], bytes.len()) {
            assert!(fewer.len() < bytes.len());
            assert_eq!(fewer, bytes[..fewer.len()]);
        }
    }
}

/// A block that does not fit is refused with what there is room for and with
/// what is asked for in between, and what was written is the right beginning.
#[test]
fn too_small_at_every_size() {
    let bytes: Vec<u8> = (0..500usize).map(|i| (i * i / 13 % 7) as u8).collect();
    let block = compress(&bytes);
    for room in 0..bytes.len() {
        for sizes in [vec![room], vec![room / 2, room - room / 2]] {
            let (res, out) = scatter(&[&block], &sizes);
            match res {
                Err(DecompressError::OutputTooSmall { expected, actual }) => {
                    assert_eq!(actual, room);
                    assert!(room < expected && expected <= bytes.len());
                }
                other => panic!("{other:?}"),
            }
            let same = (0..room).take_while(|&i| out[i] == bytes[i]).count();
            assert!(out[same..].iter().all(|&b| b == 0xEE));
        }
    }
}

/// Fragments and buffers without a byte change neither result nor error.
#[test]
fn empty_parts_change_nothing() {
    for block in [
        vec![0x22, b'a', b'b', 2, 0, 0x10, b'!'],
        vec![0x22, b'a', b'b', 0, 0, 0x10, b'!'],
        vec![0x52, b'a', b'b', 2],
    ] {
        let plain = scatter(&[&block[..2], &block[2..]], &[4, 5]);
        for at in 0..=2 {
            let mut frags: Vec<&[u8]> = vec![&block[..2], &block[2..]];
            frags.insert(at, &[]);
            assert_eq!(scatter(&frags, &[4, 5]), plain);
            let mut sizes = vec![4, 5];
            sizes.insert(at, 0);
            assert_eq!(scatter(&[&block[..2], &block[2..]], &sizes), plain);
        }
    }
}

/// Fragments and buffers of one byte: every sequence is decoded byte by byte.
#[test]
fn byte_by_byte_agrees_with_one_piece() {
    let mut block = Vec::new();
    push_sequence(&mut block, b"abcdefghijklmnopqrst", Some((3, 40)));
    push_sequence(&mut block, b"", Some((60, 4)));
    push_sequence(&mut block, b"xyz", None);
    let whole = decompress(&block, 67).unwrap();
    assert_eq!(&whole[..24], b"abcdefghijklmnopqrstrstr");
    assert_eq!(&whole[60..], b"abcdxyz");

    let fragments: Vec<&[u8]> = block.chunks(1).collect();
    let (res, bytes) = scatter(&fragments, &[1; 67]);
    assert_eq!(res, Ok(67));
    assert_eq!(bytes, whole);

    // All room is filled before the error.
    let (res, bytes) = scatter(&fragments, &[1; 66]);
    assert_eq!(
        res,
        Err(DecompressError::OutputTooSmall {
            expected: 67,
            actual: 66
        })
    );
    assert_eq!(bytes, &whole[..66]);

    // The last literal is missing: the others have been written.
    let (res, bytes) = scatter(&fragments[..fragments.len() - 1], &[1; 67]);
    assert_eq!(res, Err(DecompressError::ExpectedAnotherByte));
    assert_eq!(&bytes[..66], &whole[..66]);
    assert_eq!(bytes[66], 0xEE);
}

/// Two runs of repeated bytes, and the block they are compressed into.
fn two_runs() -> (Vec<u8>, Vec<u8>) {
    let mut payload = b"abcabcabc".repeat(50);
    payload.extend_from_slice(&[7; 300]);
    let mut block = Vec::new();
    push_sequence(&mut block, b"abc", Some((3, 447)));
    push_sequence(&mut block, &[7], Some((1, 293)));
    push_sequence(&mut block, &[7; 6], None);
    (payload, block)
}

#[test]
fn compress_takes_matches_as_they_come() {
    let (payload, block) = two_runs();
    assert_eq!(compress(&payload), block);
    assert_eq!(
        block,
        [
            0x3F, b'a', b'b', b'c', 3, 0, 255, 173, 0x1F, 7, 1, 0, 255, 19, 0x60, 7, 7, 7, 7, 7, 7
        ]
    );
}

/// The last match starts at least twelve bytes from the end.
#[test]
fn compress_near_the_end() {
    assert_eq!(compress(b"aaaaaaaaaaaa")[0], 0xC0);
    assert_eq!(compress(b"aaaaaaaaaaaaa"), b"\x12a\x01\x00\x60aaaaaa");
}

#[test]
fn cut_off_at_every_position() {
    let (payload, block) = two_runs();
    for end in 0..block.len() {
        let res = decompress(&block[..end], payload.len());
        let (scattered, _) = scatter(&[&block[..end / 2], &block[end / 2..end]], &[300, 450]);
        assert_eq!(scattered.is_ok(), res.is_ok());
        // Only right after the literals of a sequence with a match.
        match end {
            4 => assert_eq!(res, Ok(payload[..3].to_vec())),
            10 => assert_eq!(res, Ok(payload[..451].to_vec())),
            _ => assert!(res.is_err()),
        }
    }
}
