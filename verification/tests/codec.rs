use tracker_core::{ChunkedSource, Error, ReadLine};

/// Builds a source that yields the given writes one after another, each
/// write delivered on its own: a read never spans two writes.
fn source_of_writes(writes: &[&[u8]]) -> ChunkedSource {
    let mut data: Vec<u8> = Vec::new();
    let mut cuts: Vec<usize> = Vec::new();
    for w in writes {
        data.extend_from_slice(w);
        cuts.push(data.len());
    }
    ChunkedSource::new(data, cuts)
}

/// Builds a source that yields the given bytes one at a time.
fn source_of_single_bytes(bytes: &[u8]) -> ChunkedSource {
    let data = bytes.to_vec();
    let cuts: Vec<usize> = (1..=data.len()).collect();
    ChunkedSource::new(data, cuts)
}

#[test]
fn basic() {
    let writes: [&[u8]; 6] = [
        b"Hello\nWorld\nThis is a test\n",
        b"second write",
        b"second write",
        b"second write",
        b"ends here\n",
        b"\n",
    ];
    let reader = source_of_writes(&writes);

    let mut line_reader = ReadLine::new(reader, 64);

    let mut line = vec![0u8; 1024];
    loop {
        match line_reader.read_line(&mut line) {
            Ok(0) => break,
            Ok(n) => {
                println!("Read line: {:?}", std::str::from_utf8(&line[..n]).unwrap());
                assert!(&line[..n].ends_with(b"\n"));
            }
            Err(e) => println!("error: {e:?}"),
        }
    }
}

const STREAM: &[u8] =
    b"Hello\nWorld\nThis is a test\nsecond writesecond writesecond writeends here\n\n";

const FRAMES: [&[u8]; 5] = [
    b"Hello\n",
    b"World\n",
    b"This is a test\n",
    b"second writesecond writesecond writeends here\n",
    b"\n",
];

fn collect_frames(mut reader: ReadLine<ChunkedSource>, line_len: usize) -> Vec<Vec<u8>> {
    let mut line = vec![0u8; line_len];
    let mut frames: Vec<Vec<u8>> = Vec::new();
    loop {
        match reader.read_line(&mut line) {
            Ok(0) => break,
            Ok(n) => frames.push(line[..n].to_vec()),
            Err(e) => panic!("unexpected framing error: {e:?}"),
        }
    }
    // The terminal signal is idempotent: once the stream is exhausted,
    // every further call keeps returning 0.
    for _ in 0..3 {
        assert_eq!(reader.read_line(&mut line), Ok(0));
    }
    frames
}

#[test]
fn round_trip_one_byte_chunks() {
    let reader = ReadLine::new(source_of_single_bytes(STREAM), 64);
    let frames = collect_frames(reader, 1024);
    assert_eq!(frames.len(), FRAMES.len());
    for (got, expected) in frames.iter().zip(FRAMES.iter()) {
        assert_eq!(got.as_slice(), *expected);
    }
}

#[test]
fn round_trip_chunks_split_mid_delimiter() {
    // Cuts right before and after each delimiter, and a few odd ones.
    let mut cuts: Vec<usize> = Vec::new();
    for (i, b) in STREAM.iter().enumerate() {
        if *b == b'\n' {
            cuts.push(i);
            cuts.push(i + 1);
        }
    }
    cuts.push(3);
    cuts.push(40);
    let source = ChunkedSource::new(STREAM.to_vec(), cuts);
    let frames = collect_frames(ReadLine::new(source, 64), 1024);
    assert_eq!(frames.len(), FRAMES.len());
    for (got, expected) in frames.iter().zip(FRAMES.iter()) {
        assert_eq!(got.as_slice(), *expected);
    }
}

#[test]
fn round_trip_unsplit() {
    let source = ChunkedSource::new(STREAM.to_vec(), Vec::new());
    let frames = collect_frames(ReadLine::new(source, 64), 1024);
    assert_eq!(frames.len(), FRAMES.len());
    for (got, expected) in frames.iter().zip(FRAMES.iter()) {
        assert_eq!(got.as_slice(), *expected);
    }
}

#[test]
fn final_frame_may_lack_delimiter() {
    let source = source_of_single_bytes(b"one\ntail without end");
    let frames = collect_frames(ReadLine::new(source, 32), 32);
    assert_eq!(frames.len(), 2);
    assert_eq!(frames[0].as_slice(), b"one\n".as_slice());
    assert_eq!(frames[1].as_slice(), b"tail without end".as_slice());
}

#[test]
fn empty_stream_returns_zero_forever() {
    let source = ChunkedSource::new(Vec::new(), Vec::new());
    let mut reader = ReadLine::new(source, 16);
    let mut line = vec![0u8; 16];
    for _ in 0..4 {
        assert_eq!(reader.read_line(&mut line), Ok(0));
    }
}

#[test]
fn overflow_without_delimiter_fails_full() {
    // 20 bytes with no delimiter cannot frame within a capacity of 8.
    let source = source_of_single_bytes(b"aaaaaaaaaaaaaaaaaaaa");
    let mut reader = ReadLine::new(source, 8);
    let mut line = vec![0u8; 8];
    assert_eq!(reader.read_line(&mut line), Err(Error::Full));
}

#[test]
fn frame_exactly_at_capacity_fits() {
    // A 7-byte line plus its delimiter exactly fills a capacity of 8.
    let source = source_of_single_bytes(b"1234567\n");
    let mut reader = ReadLine::new(source, 8);
    let mut line = vec![0u8; 8];
    assert_eq!(reader.read_line(&mut line), Ok(8));
    assert_eq!(&line[..8], b"1234567\n");
    assert_eq!(reader.read_line(&mut line), Ok(0));
}

#[test]
fn undelimited_rest_exactly_at_capacity_drains() {
    // Exactly a capacity's worth of pending bytes with no delimiter is
    // still a valid final frame, not an overflow.
    let source = source_of_single_bytes(b"12345678");
    let mut reader = ReadLine::new(source, 8);
    let mut line = vec![0u8; 8];
    assert_eq!(reader.read_line(&mut line), Ok(8));
    assert_eq!(&line[..8], b"12345678");
    assert_eq!(reader.read_line(&mut line), Ok(0));
}

#[test]
fn delimiters_buffered_together_come_out_one_per_call() {
    let source = ChunkedSource::new(b"a\nb\nc\n".to_vec(), Vec::new());
    let mut reader = ReadLine::new(source, 32);
    let mut line = vec![0u8; 32];
    assert_eq!(reader.read_line(&mut line), Ok(2));
    assert_eq!(&line[..2], b"a\n");
    assert_eq!(reader.read_line(&mut line), Ok(2));
    assert_eq!(&line[..2], b"b\n");
    assert_eq!(reader.read_line(&mut line), Ok(2));
    assert_eq!(&line[..2], b"c\n");
    assert_eq!(reader.read_line(&mut line), Ok(0));
}

#[test]
fn read_all_lines_collects_every_frame() {
    let mut reader = ReadLine::new(source_of_single_bytes(STREAM), 64);
    let mut line = vec![0u8; 64];
    let frames = reader.read_all_lines(&mut line).unwrap();
    assert_eq!(frames.len(), FRAMES.len());
    for (got, expected) in frames.iter().zip(FRAMES.iter()) {
        assert_eq!(got.as_slice(), *expected);
    }
}

#[test]
fn read_all_lines_fails_full_like_the_single_call() {
    let mut reader = ReadLine::new(source_of_single_bytes(b"no delimiter anywhere"), 8);
    let mut line = vec![0u8; 8];
    assert_eq!(reader.read_all_lines(&mut line), Err(Error::Full));
}
