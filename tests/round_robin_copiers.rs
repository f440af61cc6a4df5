use streams::{copy, next_offset, write_all, IoError, RoundRobinCopier, Sink, Source};

/// Takes bytes until `limit` are in, then fails every write.
struct Capped {
    data: Vec<u8>,
    limit: usize,
}

impl Sink for Capped {
    fn write(&mut self, buf: &[u8]) -> Result<usize, IoError> {
        if self.data.len() >= self.limit {
            return Err(IoError::Failed(28));
        }
        let n = buf.len().min(self.limit - self.data.len());
        self.data.extend_from_slice(&buf[..n]);
        Ok(n)
    }

    fn flush(&mut self) -> Result<(), IoError> {
        Ok(())
    }
}

/// A source that fails on its first read.
struct Broken;

impl Source for Broken {
    fn read(&mut self, _buf: &mut [u8]) -> Result<usize, IoError> {
        Err(IoError::Failed(5))
    }
}

#[test]
fn round_robin_copier() {
    let mut writers = vec![Vec::<u8>::new(), Vec::new(), Vec::new()];
    let mut copier = RoundRobinCopier::new(writers.iter_mut().map(|w| w as &mut dyn Sink).collect());

    let input = b"Hello, world!";

    copier.copy(&mut &input[..]).unwrap();
    copier.copy(&mut &input[..]).unwrap();
    copier.copy(&mut &input[..]).unwrap();
    copier.copy(&mut &input[..]).unwrap();

    drop(copier);
    assert_eq!(writers[0], b"Hello, world!Hello, world!");
    assert_eq!(writers[1], b"Hello, world!");
    assert_eq!(writers[2], b"Hello, world!");
}

#[test]
fn round_robin_deals_in_call_order() {
    let mut writers = vec![Vec::<u8>::new(), Vec::new()];
    let mut copier = RoundRobinCopier::new(writers.iter_mut().collect());
    for s in [&b"a"[..], b"bb", b"ccc", b"d", b"ee"] {
        assert_eq!(copier.copy(&mut &s[..]), Ok(s.len() as u64));
    }
    drop(copier);
    assert_eq!(writers[0], b"acccee");
    assert_eq!(writers[1], b"bbd");
}

#[test]
fn single_sink_takes_every_copy() {
    let mut only = Vec::new();
    let mut copier = RoundRobinCopier::new(vec![&mut only]);
    assert_eq!(copier.copy(&mut &b"ab"[..]), Ok(2));
    assert_eq!(copier.copy(&mut &b"cd"[..]), Ok(2));
    drop(copier);
    assert_eq!(only, b"abcd");
}

#[test]
fn cursor_moves_on_after_failure() {
    let mut a = Capped { data: Vec::new(), limit: 3 };
    let mut b = Capped { data: Vec::new(), limit: 100 };
    let writers: Vec<&mut dyn Sink> = vec![&mut a, &mut b];
    let mut copier = RoundRobinCopier::new(writers);
    assert_eq!(copier.copy(&mut &b"Hello"[..]), Err(IoError::Failed(28)));
    assert_eq!(copier.copy(&mut &b"world"[..]), Ok(5));
    drop(copier);
    assert_eq!(a.data, b"Hel");
    assert_eq!(b.data, b"world");
}

#[test]
fn cursor_moves_on_after_read_failure() {
    let mut writers = vec![Vec::<u8>::new(), Vec::new()];
    let mut copier = RoundRobinCopier::new(writers.iter_mut().collect());
    assert_eq!(copier.copy(&mut Broken), Err(IoError::Failed(5)));
    assert_eq!(copier.copy(&mut &b"x"[..]), Ok(1));
    drop(copier);
    assert!(writers[0].is_empty());
    assert_eq!(writers[1], b"x");
}

#[test]
fn round_robin_empty_source_reports_zero() {
    let mut writers = vec![b"keep".to_vec(), Vec::new()];
    let mut copier = RoundRobinCopier::new(writers.iter_mut().collect());
    assert_eq!(copier.copy(&mut &b""[..]), Ok(0));
    drop(copier);
    assert_eq!(writers[0], b"keep");
    assert!(writers[1].is_empty());
}

#[test]
fn round_robin_counts_large_source() {
    let input = vec![7u8; 30000];
    let mut writers = vec![Vec::<u8>::new(), Vec::new()];
    let mut copier = RoundRobinCopier::new(writers.iter_mut().collect());
    assert_eq!(copier.copy(&mut &input[..]), Ok(30000));
    drop(copier);
    assert_eq!(writers[0], input);
}

#[test]
fn copy_into_one_sink() {
    let mut out = b">".to_vec();
    assert_eq!(copy(&mut &b"abc"[..], &mut out), Ok(3));
    assert_eq!(out, b">abc");
}

#[test]
fn write_all_retries_short_writes() {
    let mut sink = Capped { data: Vec::new(), limit: 4 };
    assert_eq!(write_all(&mut sink, b"abc"), Ok(()));
    assert_eq!(write_all(&mut sink, b"de"), Err(IoError::Failed(28)));
    assert_eq!(sink.data, b"abcd");
}

#[test]
fn slice_source_reads_in_order() {
    let mut source: &[u8] = b"abcde";
    let mut buf = [0u8; 3];
    assert_eq!(source.read(&mut buf), Ok(3));
    assert_eq!(&buf, b"abc");
    assert_eq!(source.read(&mut buf), Ok(2));
    assert_eq!(&buf[..2], b"de");
    assert_eq!(source.read(&mut buf), Ok(0));
}

#[test]
fn next_offset_moves_on_by_reply() {
    assert_eq!(next_offset(3, 10, Ok(4)), Ok(7));
    assert_eq!(next_offset(0, 5, Ok(5)), Ok(5));
}

#[test]
fn next_offset_zero_reply_is_write_zero() {
    assert_eq!(next_offset(2, 10, Ok(0)), Err(IoError::WriteZero));
}

#[test]
fn next_offset_passes_error_on() {
    assert_eq!(next_offset(2, 10, Err(IoError::Failed(32))), Err(IoError::Failed(32)));
}

/// Gives its bytes in pieces of three, then fails.
struct FailsAfter {
    data: Vec<u8>,
    pos: usize,
}

impl Source for FailsAfter {
    fn read(&mut self, buf: &mut [u8]) -> Result<usize, IoError> {
        if self.pos >= self.data.len() {
            return Err(IoError::Failed(5));
        }
        let n = 3.min(buf.len()).min(self.data.len() - self.pos);
        buf[..n].copy_from_slice(&self.data[self.pos..self.pos + n]);
        self.pos += n;
        Ok(n)
    }
}

#[test]
fn read_error_leaves_sink_with_bytes_read() {
    let mut writers = vec![b">".to_vec(), Vec::new()];
    let mut copier = RoundRobinCopier::new(writers.iter_mut().collect());
    let mut source = FailsAfter { data: b"abcdefg".to_vec(), pos: 0 };
    assert_eq!(copier.copy(&mut source), Err(IoError::Failed(5)));
    drop(copier);
    assert_eq!(writers[0], b">abcdefg");
    assert!(writers[1].is_empty());
}
