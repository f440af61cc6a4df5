use std::collections::VecDeque;
use std::io::{Cursor, Write};

use streams::{copy_into_many, IoError, MultiWriter, Sink};

/// Wraps a cursor so that it can stand among the sinks.
struct CursorSink(Cursor<Vec<u8>>);

impl Sink for CursorSink {
    fn write(&mut self, buf: &[u8]) -> Result<usize, IoError> {
        self.0.write(buf).map_err(|_| IoError::Failed(-1))
    }

    fn flush(&mut self) -> Result<(), IoError> {
        self.0.flush().map_err(|_| IoError::Failed(-1))
    }
}

/// Takes at most `step` bytes per write and fails once `limit` bytes are in.
struct Limited {
    data: Vec<u8>,
    step: usize,
    limit: usize,
    flushes: usize,
    fail_flush: bool,
}

impl Limited {
    fn new(step: usize, limit: usize) -> Self {
        Limited { data: Vec::new(), step, limit, flushes: 0, fail_flush: false }
    }
}

impl Sink for Limited {
    fn write(&mut self, buf: &[u8]) -> Result<usize, IoError> {
        if self.data.len() >= self.limit {
            return Err(IoError::Failed(28));
        }
        let n = buf.len().min(self.step).min(self.limit - self.data.len());
        self.data.extend_from_slice(&buf[..n]);
        Ok(n)
    }

    fn flush(&mut self) -> Result<(), IoError> {
        self.flushes += 1;
        if self.fail_flush {
            Err(IoError::Failed(5))
        } else {
            Ok(())
        }
    }
}

/// Accepts nothing, without reporting an error.
struct Stuck;

impl Sink for Stuck {
    fn write(&mut self, _buf: &[u8]) -> Result<usize, IoError> {
        Ok(0)
    }

    fn flush(&mut self) -> Result<(), IoError> {
        Ok(())
    }
}

#[test]
fn multi_writer() {
    let mut writers = vec![Vec::<u8>::new(), Vec::new(), Vec::new()];
    let mut multi_writer = MultiWriter {
        writers: writers.iter_mut().map(|o| o as &mut dyn Sink).collect(),
    };

    let input = b"Hello, world!";
    multi_writer.write_all(input).unwrap();

    for writer in writers {
        assert_eq!(writer[..], *b"Hello, world!");
    }
}

#[test]
fn copy_into_many_vec() {
    let input = b"Hello, world!";
    let mut writers = vec![Vec::<u8>::new(), Vec::new(), Vec::new()];

    copy_into_many(&mut &input[..], writers.iter_mut().map(|o| o as &mut dyn Sink).collect())
        .unwrap();

    for writer in writers {
        assert_eq!(writer[..], *b"Hello, world!");
    }
}

#[test]
fn copy_into_many_macro() {
    let input = b"Hello, world!";
    let mut writers = vec![Vec::<u8>::new(), Vec::new(), Vec::new()];

    copy_into_many(&mut &input[..], writers.iter_mut().collect()).unwrap();

    for writer in writers {
        assert_eq!(writer[..], *b"Hello, world!");
    }
}

#[test]
fn copy_into_all_macro() {
    let input = b"Hello, world!";
    let mut writer1 = Vec::new();
    let mut writer2 = CursorSink(Cursor::new(Vec::new()));
    let mut writer3 = VecDeque::new();

    let writers: Vec<&mut dyn Sink> = vec![&mut writer1, &mut writer2, &mut writer3];
    copy_into_many(&mut &input[..], writers).unwrap();

    assert_eq!(writer1, *b"Hello, world!");
    assert_eq!(writer2.0.into_inner(), *b"Hello, world!");
    assert_eq!(writer3, *b"Hello, world!");
}

#[test]
fn write_reports_whole_length_and_appends() {
    let mut a = b"ab".to_vec();
    let mut b = Vec::new();
    let mut multi_writer = MultiWriter::new(vec![&mut a, &mut b]);
    assert_eq!(multi_writer.write(b"cd"), Ok(2));
    assert_eq!(multi_writer.write(b"e"), Ok(1));
    drop(multi_writer);
    assert_eq!(a, b"abcde");
    assert_eq!(b, b"cde");
}

#[test]
fn write_completes_short_writes() {
    let mut a = Limited::new(3, 100);
    let mut b = Limited::new(1, 100);
    let mut multi_writer = MultiWriter::new(vec![&mut a, &mut b]);
    assert_eq!(multi_writer.write(b"Hello, world!"), Ok(13));
    drop(multi_writer);
    assert_eq!(a.data, b"Hello, world!");
    assert_eq!(b.data, b"Hello, world!");
}

#[test]
fn zero_sinks_write_is_no_op() {
    let mut multi_writer = MultiWriter::<Vec<u8>>::new(Vec::new());
    assert_eq!(multi_writer.write(b"Hello, world!"), Ok(13));
    assert_eq!(multi_writer.write(b""), Ok(0));
    assert_eq!(multi_writer.flush(), Ok(()));
}

#[test]
fn write_stops_at_first_failing_sink() {
    let mut a = Limited::new(100, 100);
    let mut b = Limited::new(2, 5);
    let mut c = Limited::new(100, 100);
    let writers: Vec<&mut dyn Sink> = vec![&mut a, &mut b, &mut c];
    let mut multi_writer = MultiWriter::new(writers);
    assert_eq!(multi_writer.write(b"Hello, world!"), Err(IoError::Failed(28)));
    drop(multi_writer);
    assert_eq!(a.data, b"Hello, world!");
    assert_eq!(b.data, b"Hello");
    assert!(c.data.is_empty());
}

#[test]
fn write_zero_is_an_error() {
    let mut a = Vec::new();
    let mut b = Stuck;
    let mut c = Vec::new();
    let writers: Vec<&mut dyn Sink> = vec![&mut a, &mut b, &mut c];
    let mut multi_writer = MultiWriter::new(writers);
    assert_eq!(multi_writer.write(b"x"), Err(IoError::WriteZero));
    assert_eq!(multi_writer.write_all(b"x"), Err(IoError::WriteZero));
    drop(multi_writer);
    assert_eq!(a, b"xx");
    assert!(c.is_empty());
}

#[test]
fn empty_write_to_stuck_sink_succeeds() {
    let mut b = Stuck;
    let mut multi_writer = MultiWriter::new(vec![&mut b]);
    assert_eq!(multi_writer.write(b""), Ok(0));
}

#[test]
fn flush_stops_at_first_failure() {
    let mut a = Limited::new(1, 1);
    let mut b = Limited::new(1, 1);
    b.fail_flush = true;
    let mut c = Limited::new(1, 1);
    let mut multi_writer = MultiWriter::new(vec![&mut a, &mut b, &mut c]);
    assert_eq!(multi_writer.flush(), Err(IoError::Failed(5)));
    drop(multi_writer);
    assert_eq!((a.flushes, b.flushes, c.flushes), (1, 1, 0));
}

#[test]
fn flush_reaches_every_sink() {
    let mut a = Limited::new(1, 1);
    let mut b = Limited::new(1, 1);
    let mut multi_writer = MultiWriter::new(vec![&mut a, &mut b]);
    assert_eq!(multi_writer.flush(), Ok(()));
    assert_eq!(multi_writer.flush(), Ok(()));
    drop(multi_writer);
    assert_eq!((a.flushes, b.flushes), (2, 2));
}

#[test]
fn copy_counts_every_byte_across_chunks() {
    let input: Vec<u8> = (0..20000u32).map(|i| (i % 251) as u8).collect();
    let mut a = Vec::new();
    let mut b = VecDeque::new();
    let writers: Vec<&mut dyn Sink> = vec![&mut a, &mut b];
    let mut multi_writer = MultiWriter::new(writers);
    assert_eq!(multi_writer.copy(&mut &input[..]), Ok(20000));
    drop(multi_writer);
    assert_eq!(a, input);
    assert_eq!(b, input);
}

#[test]
fn copy_empty_source_writes_nothing() {
    let mut a = b"keep".to_vec();
    let mut b = Vec::new();
    let empty: &[u8] = b"";
    assert_eq!(copy_into_many(&mut &empty[..], vec![&mut a, &mut b]), Ok(0));
    assert_eq!(a, b"keep");
    assert!(b.is_empty());
}

#[test]
fn copy_consumes_the_source() {
    let input = b"Hello, world!";
    let mut source: &[u8] = &input[..];
    let mut a = Vec::new();
    assert_eq!(copy_into_many(&mut source, vec![&mut a]), Ok(13));
    assert!(source.is_empty());
}

#[test]
fn copy_stops_at_failing_sink() {
    let mut a = Vec::new();
    let mut b = Limited::new(4, 4);
    let writers: Vec<&mut dyn Sink> = vec![&mut a, &mut b];
    let input = b"Hello, world!";
    assert_eq!(copy_into_many(&mut &input[..], writers), Err(IoError::Failed(28)));
    assert_eq!(a, b"Hello, world!");
    assert_eq!(b.data, b"Hell");
}
