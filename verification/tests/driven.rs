use elastic_buffered_stream::{
    ElasticBufferedReadStream, ReadOutcome, Step, StreamError, CHUNK_SIZE,
};

fn pattern(len: usize) -> Vec<u8> {
    let mut bytes = Vec::with_capacity(len);
    for i in 0..len {
        bytes.push((i % 251) as u8);
    }
    bytes
}

#[test]
fn a_new_stream_stands_at_the_start() {
    let stream = ElasticBufferedReadStream::new();
    assert_eq!(stream.position(), 0);
    assert_eq!(stream.buffer_len(), 0);
    assert!(stream.has_room());
}

#[test]
fn the_first_request_asks_for_a_whole_chunk() {
    let mut stream = ElasticBufferedReadStream::new();
    assert_eq!(stream.uncons(), Step::Fetch(CHUNK_SIZE));
    assert_eq!(stream.buffer_len(), 0);
    assert_eq!(stream.position(), 0);
}

#[test]
fn short_reads_add_up() {
    let mut stream = ElasticBufferedReadStream::new();
    assert_eq!(stream.uncons(), Step::Fetch(CHUNK_SIZE));
    assert_eq!(stream.supply(ReadOutcome::Data(b"ab")), Ok(()));
    assert_eq!(stream.uncons(), Step::Fetch(CHUNK_SIZE - 2));
    assert_eq!(stream.supply(ReadOutcome::Data(b"c")), Ok(()));
    assert_eq!(stream.uncons(), Step::Fetch(CHUNK_SIZE - 3));
    assert_eq!(stream.buffer_len(), 0);

    assert_eq!(stream.supply(ReadOutcome::Data(b"")), Ok(()));
    assert_eq!(stream.buffer_len(), 1);
    assert_eq!(stream.uncons(), Step::Item(b'a'));
    assert_eq!(stream.uncons(), Step::Item(b'b'));
    assert_eq!(stream.position(), 2);
    assert_eq!(stream.uncons(), Step::Item(b'c'));
    assert_eq!(stream.uncons(), Step::EndOfInput);
    assert_eq!(stream.uncons(), Step::EndOfInput);
    assert_eq!(stream.position(), 3);
}

#[test]
fn an_interrupted_read_is_asked_for_again() {
    let mut stream = ElasticBufferedReadStream::new();
    assert_eq!(stream.uncons(), Step::Fetch(CHUNK_SIZE));
    assert_eq!(stream.supply(ReadOutcome::Interrupted), Ok(()));
    assert_eq!(stream.uncons(), Step::Fetch(CHUNK_SIZE));
    assert_eq!(stream.supply(ReadOutcome::Data(b"x")), Ok(()));
    assert_eq!(stream.supply(ReadOutcome::Interrupted), Ok(()));
    assert_eq!(stream.uncons(), Step::Fetch(CHUNK_SIZE - 1));
    assert_eq!(stream.supply(ReadOutcome::Data(b"")), Ok(()));
    assert_eq!(stream.uncons(), Step::Item(b'x'));
    assert_eq!(stream.uncons(), Step::EndOfInput);
}

#[test]
fn a_full_chunk_makes_its_bytes_readable() {
    let source = pattern(CHUNK_SIZE + 10);
    let mut stream = ElasticBufferedReadStream::new();
    assert_eq!(stream.uncons(), Step::Fetch(CHUNK_SIZE));
    assert_eq!(
        stream.supply(ReadOutcome::Data(&source[..CHUNK_SIZE])),
        Ok(())
    );
    assert_eq!(stream.buffer_len(), 1);
    for k in 0..CHUNK_SIZE {
        assert_eq!(stream.uncons(), Step::Item(source[k]));
    }
    assert_eq!(stream.position(), CHUNK_SIZE as u64);

    // Nothing refers to the first chunk any more: it goes when the next is
    // asked for.
    assert_eq!(stream.uncons(), Step::Fetch(CHUNK_SIZE));
    assert_eq!(stream.buffer_len(), 0);
    assert_eq!(
        stream.supply(ReadOutcome::Data(&source[CHUNK_SIZE..])),
        Ok(())
    );
    assert_eq!(stream.uncons(), Step::Fetch(CHUNK_SIZE - 10));
    assert_eq!(stream.supply(ReadOutcome::Data(&[])), Ok(()));
    assert_eq!(stream.buffer_len(), 1);
    for k in CHUNK_SIZE..CHUNK_SIZE + 10 {
        assert_eq!(stream.uncons(), Step::Item(source[k]));
    }
    assert_eq!(stream.uncons(), Step::EndOfInput);
    assert_eq!(stream.position(), (CHUNK_SIZE + 10) as u64);
}

#[test]
fn a_failure_of_the_source_comes_back() {
    let mut stream = ElasticBufferedReadStream::new();
    assert_eq!(stream.uncons(), Step::Fetch(CHUNK_SIZE));
    assert_eq!(stream.supply(ReadOutcome::Data(b"xy")), Ok(()));
    assert_eq!(
        stream.supply(ReadOutcome::Failed),
        Err(StreamError::TransportFailure)
    );

    // The chunk has joined the buffer, with zeros for what it lacked.
    assert_eq!(stream.buffer_len(), 1);
    assert_eq!(stream.uncons(), Step::Item(b'x'));
    assert_eq!(stream.uncons(), Step::Item(b'y'));
    assert_eq!(stream.uncons(), Step::Item(0));
    for _ in 3..CHUNK_SIZE {
        assert_eq!(stream.uncons(), Step::Item(0));
    }
    assert_eq!(stream.uncons(), Step::Fetch(CHUNK_SIZE));
}

#[test]
fn a_failure_before_any_byte_comes_back() {
    let mut stream = ElasticBufferedReadStream::new();
    assert_eq!(stream.uncons(), Step::Fetch(CHUNK_SIZE));
    assert_eq!(
        stream.supply(ReadOutcome::Failed),
        Err(StreamError::TransportFailure)
    );
    assert_eq!(stream.position(), 0);
}

#[test]
fn a_checkpoint_is_taken_at_the_cursor() {
    let mut stream = ElasticBufferedReadStream::new();
    let start = stream.checkpoint();
    assert_eq!(start.inner(), 0);
    assert!(stream.can_reset(&start));

    assert_eq!(stream.uncons(), Step::Fetch(CHUNK_SIZE));
    stream.supply(ReadOutcome::Data(b"hello")).unwrap();
    stream.supply(ReadOutcome::Data(b"")).unwrap();
    assert_eq!(stream.uncons(), Step::Item(b'h'));
    assert_eq!(stream.uncons(), Step::Item(b'e'));
    let middle = stream.checkpoint();
    assert_eq!(middle.inner(), 2);
    assert_eq!(stream.uncons(), Step::Item(b'l'));

    stream.reset(start);
    assert_eq!(stream.position(), 0);
    assert_eq!(stream.uncons(), Step::Item(b'h'));

    stream.reset(middle);
    assert_eq!(stream.position(), 2);
    assert_eq!(stream.uncons(), Step::Item(b'l'));
    assert_eq!(stream.uncons(), Step::Item(b'l'));
    assert_eq!(stream.uncons(), Step::Item(b'o'));
    let end = stream.checkpoint();
    assert_eq!(stream.uncons(), Step::EndOfInput);
    assert!(stream.can_reset(&end));
    stream.reset(end);
    assert_eq!(stream.uncons(), Step::EndOfInput);
}

#[test]
fn a_checkpoint_of_another_stream_may_be_out_of_reach() {
    let source = pattern(CHUNK_SIZE);
    let mut far = ElasticBufferedReadStream::new();
    for _ in 0..100 {
        assert!(far.uncons_from(&source).is_ok());
    }
    let foreign = far.checkpoint();

    let mut near = ElasticBufferedReadStream::new();
    assert!(!near.can_reset(&foreign));
    for _ in 0..99 {
        near.uncons_from(&source[..99]).unwrap();
    }
    assert_eq!(near.uncons_from(&source[..99]), Err(StreamError::EndOfInput));
    assert!(!near.can_reset(&foreign));
}

#[test]
fn going_back_while_a_chunk_is_filled_reads_what_is_buffered() {
    let source = pattern(CHUNK_SIZE);
    let mut stream = ElasticBufferedReadStream::new();
    let start = stream.checkpoint();
    for k in 0..CHUNK_SIZE {
        assert_eq!(stream.uncons_from(&source), Ok(source[k]));
    }
    assert_eq!(stream.uncons(), Step::Fetch(CHUNK_SIZE));
    stream.supply(ReadOutcome::Data(b"tail")).unwrap();

    assert!(stream.can_reset(&start));
    stream.reset(start);
    assert_eq!(stream.uncons(), Step::Item(source[0]));
    assert_eq!(stream.buffer_len(), 1);
}
