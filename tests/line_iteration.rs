use std::io::{BufReader, Read};

use lines::linemapper::{self, LineCollector};
use lines::linereader::{self, LineReader};
use lines::source::{ChunkSource, SliceSource};

static TEN_LINES: &'static str = "one
two
three
four
five
six
seven
eight
nine
ten";

/// Feeds a reader's window from any `std::io::Read`.
struct ReadSource<R>(R);

impl<R: Read> ChunkSource for ReadSource<R> {
    fn fill(&mut self, window: &mut Vec<u8>) -> Result<usize, std::io::Error> {
        self.0.read(&mut window[..])
    }
}

fn collect_with_reader(data: &[u8], cap: usize) -> Vec<Vec<u8>> {
    let mut r = LineReader::with_capacity(cap, SliceSource::new(data));
    let mut out = Vec::new();
    loop {
        let line = r.read_line().unwrap();
        if line.is_empty() {
            break;
        }
        out.push(line.to_vec());
    }
    out
}

fn collect_with_mapper(data: &[u8]) -> Vec<Vec<u8>> {
    let mut c = LineCollector::new();
    linemapper::map_lines(SliceSource::new(data), &mut c).unwrap();
    c.into_lines()
}

#[test]
fn test_linemapper_lines() {
    let r = ReadSource(BufReader::new(TEN_LINES.as_bytes()));
    let mut c = LineCollector::new();
    linemapper::map_lines(r, &mut c).unwrap();
    let lines: Vec<String> = c
        .into_lines()
        .iter()
        .map(|l| String::from_utf8_lossy(l).into_owned())
        .collect();
    let expected: Vec<&str> = vec!["one\n", "two\n", "three\n", "four\n", "five\n", "six\n", "seven\n", "eight\n", "nine\n", "ten"];
    let actual: Vec<&str> = lines.iter().map(|s| &s[..]).collect();
    assert_eq!(expected, actual);
}

#[test]
fn test_linereader_lines() {
    let expected = ["one\n", "two\n", "three\n", "four\n", "five\n", "six\n", "seven\n", "eight\n", "nine\n", "ten"];
    let mut r = LineReader::new(ReadSource(BufReader::new(TEN_LINES.as_bytes())));
    let mut i = 0usize;
    loop {
        let line = r.read_line();
        match line {
            Ok(b) if b.is_empty() => break,
            _ => {
                let line = line.unwrap();
                assert_eq!(expected[i], &String::from_utf8_lossy(line)[..]);
                i += 1;
            }
        }
    }
    assert_eq!(i, expected.len());
}

#[test]
fn test_linemapper_linecount() {
    let r = ReadSource(BufReader::new(TEN_LINES.as_bytes()));
    assert_eq!(10usize, linemapper::count_lines(r).unwrap());
}

#[test]
fn test_linereader_linecount() {
    let r = ReadSource(BufReader::new(TEN_LINES.as_bytes()));
    // a window smaller than a line forces lines to be assembled across fills
    let r = LineReader::with_capacity(4, r);
    assert_eq!(10usize, linereader::count_lines(r).unwrap());
}

#[test]
fn ten_lines_from_memory_source() {
    let lines = collect_with_reader(TEN_LINES.as_bytes(), 65536);
    let expected: Vec<&[u8]> = vec![b"one\n", b"two\n", b"three\n", b"four\n", b"five\n", b"six\n", b"seven\n", b"eight\n", b"nine\n", b"ten"];
    assert_eq!(lines, expected);
    assert_eq!(linemapper::count_lines(SliceSource::new(TEN_LINES.as_bytes())).unwrap(), 10);
}

#[test]
fn empty_input_yields_no_line() {
    assert!(collect_with_reader(b"", 16).is_empty());
    assert!(collect_with_mapper(b"").is_empty());
    assert_eq!(linemapper::count_lines(SliceSource::new(b"")).unwrap(), 0);
    assert_eq!(linereader::count_lines(LineReader::new(SliceSource::new(b""))).unwrap(), 0);
}

#[test]
fn single_line_feed_is_one_line() {
    assert_eq!(collect_with_reader(b"\n", 16), vec![b"\n".to_vec()]);
    assert_eq!(collect_with_mapper(b"\n"), vec![b"\n".to_vec()]);
    assert_eq!(linemapper::count_lines(SliceSource::new(b"\n")).unwrap(), 1);
}

#[test]
fn count_matches_line_feeds_plus_fragment() {
    let cases: Vec<(&[u8], usize)> = vec![
        (b"a", 1),
        (b"a\n", 1),
        (b"a\nb", 2),
        (b"\n\n\n", 3),
        (b"\n\nx", 3),
        (b"abc\ndef\n", 2),
    ];
    for (data, n) in cases {
        assert_eq!(linemapper::count_lines(SliceSource::new(data)).unwrap(), n);
        for cap in 1usize..6 {
            let r = LineReader::with_capacity(cap, SliceSource::new(data));
            assert_eq!(linereader::count_lines(r).unwrap(), n);
        }
    }
}

#[test]
fn lines_concatenate_to_input_at_every_capacity() {
    let data = b"first line\n\nthird, rather longer than the window\nx\nunterminated tail";
    for cap in 1usize..20 {
        let lines = collect_with_reader(data, cap);
        assert_eq!(lines.concat(), data.to_vec());
        for (i, l) in lines.iter().enumerate() {
            let lf = l.iter().filter(|&&b| b == b'\n').count();
            if i + 1 < lines.len() {
                assert_eq!(lf, 1);
                assert_eq!(*l.last().unwrap(), b'\n');
            }
        }
    }
    assert_eq!(collect_with_mapper(data).concat(), data.to_vec());
}

#[test]
fn small_window_long_lines() {
    let data = b"a line much longer than four bytes\nand another one\n";
    let lines = collect_with_reader(data, 4);
    assert_eq!(lines, vec![b"a line much longer than four bytes\n".to_vec(), b"and another one\n".to_vec()]);
}

#[test]
fn read_line_after_end_stays_empty() {
    let mut r = LineReader::with_capacity(3, SliceSource::new(b"ab\ncd"));
    assert_eq!(r.read_line().unwrap(), b"ab\n");
    assert_eq!(r.read_line().unwrap(), b"cd");
    for _ in 0..5 {
        assert_eq!(r.read_line().unwrap(), b"");
    }
}

struct StopAfter {
    seen: Vec<Vec<u8>>,
    limit: usize,
}

impl linemapper::LineVisitor for StopAfter {
    fn visit(&mut self, line: &[u8]) -> bool {
        self.seen.push(line.to_vec());
        self.seen.len() < self.limit
    }
}

#[test]
fn map_lines_stops_when_visitor_asks() {
    let mut v = StopAfter { seen: Vec::new(), limit: 3 };
    linemapper::map_lines(SliceSource::new(TEN_LINES.as_bytes()), &mut v).unwrap();
    assert_eq!(v.seen, vec![b"one\n".to_vec(), b"two\n".to_vec(), b"three\n".to_vec()]);
}

struct Failing;

impl ChunkSource for Failing {
    fn fill(&mut self, _window: &mut Vec<u8>) -> Result<usize, std::io::Error> {
        Err(std::io::Error::new(std::io::ErrorKind::Other, "device error"))
    }
}

#[test]
fn source_error_is_passed_on() {
    assert!(linemapper::count_lines(Failing).is_err());
    let mut c = LineCollector::new();
    assert!(linemapper::map_lines(Failing, &mut c).is_err());
    assert!(c.into_lines().is_empty());
    let mut r = LineReader::new(Failing);
    assert!(r.read_line().is_err());
}

/// Delivers its bytes in one fill, then fails on every later fill.
struct FailsAfter {
    data: Vec<u8>,
    done: bool,
}

impl ChunkSource for FailsAfter {
    fn fill(&mut self, window: &mut Vec<u8>) -> Result<usize, std::io::Error> {
        if self.done {
            return Err(std::io::Error::new(std::io::ErrorKind::Other, "link lost"));
        }
        self.done = true;
        window[..self.data.len()].copy_from_slice(&self.data);
        Ok(self.data.len())
    }
}

#[test]
fn error_after_some_lines_keeps_visited_lines_and_drops_line_in_flight() {
    let src = FailsAfter { data: b"a\nb\npartial".to_vec(), done: false };
    let mut c = LineCollector::new();
    let err = linemapper::map_lines(src, &mut c).unwrap_err();
    assert_eq!(err.to_string(), "link lost");
    assert_eq!(c.into_lines(), vec![b"a\n".to_vec(), b"b\n".to_vec()]);
}

#[test]
fn read_line_passes_on_the_source_error_once() {
    let src = FailsAfter { data: b"x\nyz".to_vec(), done: false };
    let mut r = LineReader::new(src);
    assert_eq!(r.read_line().unwrap(), b"x\n");
    let err = r.read_line().unwrap_err();
    assert_eq!(err.kind(), std::io::ErrorKind::Other);
    assert_eq!(err.to_string(), "link lost");
}
