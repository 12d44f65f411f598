use elastic_buffered_stream::{ElasticBufferedReadStream, StreamError, CHUNK_SIZE};

fn pattern(len: usize) -> Vec<u8> {
    let mut bytes = Vec::with_capacity(len);
    for i in 0..len {
        bytes.push((i % 251) as u8);
    }
    bytes
}

#[test]
fn reads_give_the_source_back_and_count_its_bytes() {
    let source = pattern(3 * CHUNK_SIZE + 17);
    let mut stream = ElasticBufferedReadStream::new();
    for k in 0..source.len() {
        assert_eq!(stream.position(), k as u64);
        assert_eq!(stream.uncons_from(&source), Ok(source[k]));
    }
    assert_eq!(stream.position(), source.len() as u64);
    assert_eq!(stream.uncons_from(&source), Err(StreamError::EndOfInput));
    assert_eq!(stream.uncons_from(&source), Err(StreamError::EndOfInput));
    assert_eq!(stream.position(), source.len() as u64);
}

#[test]
fn an_empty_source_ends_at_once() {
    let mut stream = ElasticBufferedReadStream::new();
    assert_eq!(stream.uncons_from(&[]), Err(StreamError::EndOfInput));
    assert_eq!(stream.position(), 0);
    assert_eq!(stream.buffer_len(), 1);
    assert_eq!(stream.uncons_from(&[]), Err(StreamError::EndOfInput));
    assert_eq!(stream.buffer_len(), 1);
}

#[test]
fn a_source_of_one_chunk_ends_at_the_chunk_boundary() {
    let source = pattern(CHUNK_SIZE);
    let mut stream = ElasticBufferedReadStream::new();
    for k in 0..CHUNK_SIZE {
        assert_eq!(stream.uncons_from(&source), Ok(source[k]));
    }
    assert_eq!(stream.buffer_len(), 1);
    assert_eq!(stream.uncons_from(&source), Err(StreamError::EndOfInput));
    // The full chunk was released, the empty one that met the end remains.
    assert_eq!(stream.buffer_len(), 1);
    assert_eq!(stream.position(), CHUNK_SIZE as u64);
}

#[test]
fn a_checkpoint_brings_the_same_bytes_again() {
    let source = &b"This is the text !"[..];
    let mut stream = ElasticBufferedReadStream::new();
    for expected in b"This " {
        assert_eq!(stream.uncons_from(source), Ok(*expected));
    }
    assert_eq!(stream.position(), 5);
    let cp = stream.checkpoint();
    assert_eq!(cp.inner(), 5);

    let first = [
        stream.uncons_from(source),
        stream.uncons_from(source),
        stream.uncons_from(source),
    ];
    assert_eq!(first, [Ok(b'i'), Ok(b's'), Ok(b' ')]);
    assert_eq!(stream.position(), 8);

    stream.reset(cp);
    assert_eq!(stream.position(), 5);
    let second = [
        stream.uncons_from(source),
        stream.uncons_from(source),
        stream.uncons_from(source),
    ];
    assert_eq!(second, first);
}

#[test]
fn a_held_checkpoint_keeps_its_chunk() {
    let source = pattern(5 * CHUNK_SIZE);
    let mut stream = ElasticBufferedReadStream::new();
    for _ in 0..CHUNK_SIZE + 10 {
        stream.uncons_from(&source).unwrap();
    }
    let cp = stream.checkpoint();
    assert_eq!(cp.inner(), (CHUNK_SIZE + 10) as u64);

    for _ in 0..3 * CHUNK_SIZE {
        stream.uncons_from(&source).unwrap();
    }
    // The first chunk is gone, the one of the checkpoint and all behind it
    // are kept.
    assert_eq!(stream.buffer_len(), 4);
    assert_eq!(stream.position(), (4 * CHUNK_SIZE + 10) as u64);
    assert!(stream.can_reset(&cp));

    stream.reset(cp);
    assert_eq!(stream.position(), (CHUNK_SIZE + 10) as u64);
    for k in CHUNK_SIZE + 10..5 * CHUNK_SIZE {
        assert_eq!(stream.uncons_from(&source), Ok(source[k]));
    }
    assert_eq!(stream.uncons_from(&source), Err(StreamError::EndOfInput));
}

#[test]
fn a_dropped_checkpoint_lets_its_chunks_go() {
    let source = pattern(5 * CHUNK_SIZE);
    let mut stream = ElasticBufferedReadStream::new();
    let cp = stream.checkpoint();
    for _ in 0..2 * CHUNK_SIZE + 1 {
        stream.uncons_from(&source).unwrap();
    }
    assert_eq!(stream.buffer_len(), 3);

    drop(cp);
    // Nothing is released before the next chunk is fetched.
    for _ in 2 * CHUNK_SIZE + 1..3 * CHUNK_SIZE {
        stream.uncons_from(&source).unwrap();
    }
    assert_eq!(stream.buffer_len(), 3);
    stream.uncons_from(&source).unwrap();
    assert_eq!(stream.buffer_len(), 1);
    assert_eq!(stream.position(), (3 * CHUNK_SIZE + 1) as u64);
}

#[test]
fn the_oldest_held_checkpoint_decides() {
    let source = pattern(6 * CHUNK_SIZE);
    let mut stream = ElasticBufferedReadStream::new();
    for _ in 0..CHUNK_SIZE + 1 {
        stream.uncons_from(&source).unwrap();
    }
    let early = stream.checkpoint();
    for _ in 0..2 * CHUNK_SIZE {
        stream.uncons_from(&source).unwrap();
    }
    let late = stream.checkpoint();
    for _ in 0..CHUNK_SIZE {
        stream.uncons_from(&source).unwrap();
    }
    // The cursor stands in the fifth chunk; the first was released when
    // the third was fetched.
    assert_eq!(stream.buffer_len(), 4);

    drop(early);
    for _ in 0..CHUNK_SIZE {
        stream.uncons_from(&source).unwrap();
    }
    // Now the buffer begins with the chunk of `late`, the fourth.
    assert_eq!(stream.buffer_len(), 3);
    assert!(stream.can_reset(&late));
    stream.reset(late);
    assert_eq!(stream.position(), (3 * CHUNK_SIZE + 1) as u64);
    assert_eq!(
        stream.uncons_from(&source),
        Ok(source[3 * CHUNK_SIZE + 1])
    );
}

#[test]
fn a_clone_keeps_the_chunk_as_well() {
    let source = pattern(4 * CHUNK_SIZE);
    let mut stream = ElasticBufferedReadStream::new();
    let cp = stream.checkpoint();
    let copy = cp.clone();
    drop(cp);
    for _ in 0..3 * CHUNK_SIZE + 1 {
        stream.uncons_from(&source).unwrap();
    }
    assert_eq!(stream.buffer_len(), 4);
    assert!(stream.can_reset(&copy));
    stream.reset(copy);
    assert_eq!(stream.uncons_from(&source), Ok(source[0]));
}
