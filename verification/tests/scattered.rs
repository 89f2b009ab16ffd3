use lz4_flex::block::{compress, decompress, decompress_scattered, DecompressError};

/// Decompress `compressed` split at the given fragment boundaries into
/// output buffers of the given sizes, returning the written bytes.
fn run(compressed: &[u8], input_splits: &[usize], output_sizes: &[usize]) -> Vec<u8> {
    try_run(compressed, input_splits, output_sizes).unwrap()
}

fn try_run(
    compressed: &[u8],
    input_splits: &[usize],
    output_sizes: &[usize],
) -> Result<Vec<u8>, DecompressError> {
    let mut fragments: Vec<&[u8]> = Vec::new();
    let mut prev = 0;
    for &split in input_splits {
        fragments.push(&compressed[prev..split]);
        prev = split;
    }
    fragments.push(&compressed[prev..]);

    let mut buffers: Vec<Vec<u8>> = output_sizes.iter().map(|&n| vec![0u8; n]).collect();
    let mut output: Vec<&mut [u8]> = buffers.iter_mut().map(|b| b.as_mut_slice()).collect();
    let written = decompress_scattered(&fragments, &mut output)?;
    let mut bytes = buffers.concat();
    bytes.truncate(written);
    Ok(bytes)
}

/// Text-like payload with matches at many distances, larger than the
/// 64 KiB window so far offsets and window-eviction both occur.
fn payload_200k() -> Vec<u8> {
    let mut state = 0x2545F4914F6CDD1Du64;
    let mut next = || {
        state = state.wrapping_mul(6364136223846793005).wrapping_add(1);
        state >> 33
    };
    let mut payload = Vec::new();
    while payload.len() < 200 * 1024 {
        let n = next();
        payload.extend_from_slice(
            format!("/section/{}/entry-{}?tag={:x};", n % 40, n % 3000, n).as_bytes(),
        );
    }
    payload.truncate(200 * 1024);
    payload
}

fn small_payload() -> Vec<u8> {
    b"abcabcabc"
        .repeat(50)
        .into_iter()
        .chain(vec![7u8; 300])
        .collect()
}

/// Incompressible input compresses to a single giant literal run whose
/// length rides in a multi-KiB tail of 255-bytes, exercising the length
/// readers on both decode paths.
#[test]
fn incompressible_long_length_extensions() {
    let mut state = 0x853C49E6748FEA9Bu64;
    let payload: Vec<u8> = (0..2 * 1024 * 1024)
        .map(|_| {
            state = state.wrapping_mul(6364136223846793005).wrapping_add(1);
            (state >> 33) as u8
        })
        .collect();
    let compressed = compress(&payload);

    let contiguous = run(&compressed, &[], &[payload.len()]);
    let scattered = run(
        &compressed,
        &[compressed.len() / 3],
        &[payload.len() / 2, payload.len() - payload.len() / 2],
    );

    assert_eq!(contiguous, payload);
    assert_eq!(scattered, payload);
}

#[test]
fn contiguous_matches_stock_decoder() {
    let payload = payload_200k();
    let compressed = compress(&payload);

    let out = run(&compressed, &[], &[payload.len()]);

    assert_eq!(out, payload);
}

#[test]
fn every_input_split_small() {
    let payload = small_payload();
    let compressed = compress(&payload);

    for split in 0..=compressed.len() {
        let out = run(&compressed, &[split], &[payload.len()]);
        assert_eq!(out, payload, "input split at {split}");
    }
}

#[test]
fn every_output_split_small() {
    let payload = small_payload();
    let compressed = compress(&payload);

    for split in 1..payload.len() {
        let out = run(&compressed, &[], &[split, payload.len() - split]);
        assert_eq!(out, payload, "output split at {split}");
    }
}

/// Output splits across a large payload: matches reach through the dict
/// into the previous buffer, including splits inside the 64 KiB window.
#[test]
fn output_splits_large_payload() {
    let payload = payload_200k();
    let compressed = compress(&payload);

    for split in [1, 100, 4096, 65535, 65536, 65537, 100_000, 199_999] {
        let out = run(&compressed, &[], &[split, payload.len() - split]);
        assert_eq!(out, payload, "output split at {split}");
    }
}

/// Small output buffers force the dict window to span several finished
/// buffers, exercising the assembled-window path.
#[test]
fn window_spanning_many_small_buffers() {
    let payload = payload_200k();
    let compressed = compress(&payload);
    let mut sizes = vec![10_000; payload.len() / 10_000];
    sizes.push(payload.len() % 10_000);

    let out = run(&compressed, &[], &sizes);

    assert_eq!(out, payload);
}

#[test]
fn scattered_input_and_output_together() {
    let payload = payload_200k();
    let compressed = compress(&payload);
    let input_splits: Vec<usize> = (997..compressed.len()).step_by(997).collect();
    let mut sizes = vec![33_333; payload.len() / 33_333];
    sizes.push(payload.len() % 33_333);

    let out = run(&compressed, &input_splits, &sizes);

    assert_eq!(out, payload);
}

#[test]
fn empty_fragments_and_buffers_are_skipped() {
    let payload = small_payload();
    let compressed = compress(&payload);
    let fragments: Vec<&[u8]> = vec![&[], &compressed[..7], &[], &compressed[7..], &[]];
    let mut a = vec![0u8; 0];
    let mut b = vec![0u8; 400];
    let mut c = vec![0u8; 0];
    let mut d = vec![0u8; payload.len() - 400];
    let mut output: Vec<&mut [u8]> = vec![&mut a, &mut b, &mut c, &mut d];

    let written = decompress_scattered(&fragments, &mut output).unwrap();

    assert_eq!(written, payload.len());
    assert_eq!([b, d].concat(), payload);
}

/// Surplus capacity in the last buffer: decode stops at the block's end
/// and reports how much was written.
#[test]
fn surplus_output_capacity() {
    let payload = small_payload();
    let compressed = compress(&payload);

    let single = run(&compressed, &[], &[payload.len() + 4096]);
    let scattered = run(&compressed, &[9], &[256, payload.len()]);

    assert_eq!(single, payload);
    assert_eq!(scattered, payload);
}

#[test]
fn truncated_input_errors() {
    let payload = small_payload();
    let compressed = compress(&payload);

    for cut in [1, 5, compressed.len() / 2] {
        let truncated = &compressed[..compressed.len() - cut];
        assert!(
            try_run(truncated, &[], &[payload.len()]).is_err(),
            "cut {cut} contiguous"
        );
        assert!(
            try_run(
                truncated,
                &[truncated.len() / 2],
                &[300, payload.len() - 300]
            )
            .is_err(),
            "cut {cut} scattered"
        );
    }
}

#[test]
fn output_too_small_errors() {
    let payload = small_payload();
    let compressed = compress(&payload);

    let contiguous = try_run(&compressed, &[], &[payload.len() - 1]);
    let scattered = try_run(&compressed, &[4], &[100, payload.len() - 101]);

    assert!(contiguous.is_err());
    assert!(scattered.is_err());
}

#[test]
fn offset_before_start_errors() {
    // Token 0x14: 1 literal, then a 4-byte match at offset 9 with only 1
    // byte of history.
    let block = [0x14, b'a', 0x09, 0x00, 0x10, b'b'];

    assert!(matches!(
        try_run(&block, &[], &[8]),
        Err(DecompressError::OffsetOutOfBounds)
    ));
    assert!(try_run(&block, &[3], &[2, 6]).is_err());
}

#[test]
fn offset_zero_errors() {
    let block = [0x14, b'a', 0x00, 0x00, 0x10, b'b'];

    assert!(matches!(
        try_run(&block, &[], &[8]),
        Err(DecompressError::OffsetZero)
    ));
    assert!(try_run(&block, &[3], &[2, 6]).is_err());
}

/// Randomized sweep: split points chosen from a deterministic generator,
/// checked against the stock contiguous decoder.
#[test]
fn randomized_splits_match_reference() {
    let payload = payload_200k();
    let compressed = compress(&payload);
    let reference = decompress(&compressed, payload.len()).unwrap();
    let mut state = 0x9E3779B97F4A7C15u64;
    let mut next = |bound: usize| {
        state = state.wrapping_mul(6364136223846793005).wrapping_add(1);
        ((state >> 33) as usize) % bound
    };

    for _ in 0..200 {
        let in_split = 1 + next(compressed.len() - 1);
        let out_split = 1 + next(payload.len() - 1);
        let out = run(
            &compressed,
            &[in_split],
            &[out_split, payload.len() - out_split],
        );
        assert_eq!(out, reference, "in_split {in_split} out_split {out_split}");
    }
}
