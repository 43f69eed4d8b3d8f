use textrope::rope::block::{BlockRange, Buffer};
use textrope::rope::iterator::{Chunks, Lines};
use textrope::rope::tree::{branch, leaf, Color};
use textrope::rope::{Error, Rope};

fn some_range(buf: &mut Buffer, bytes: &[u8]) -> BlockRange {
    let (range, written) = buf.append(bytes);
    assert_eq!(written, bytes.len());
    range
}

#[test]
fn end_to_end_example() {
    let rope = Rope::empty();
    let rope = rope.insert_at(0, "Hello ".to_string()).unwrap();
    let rope = rope.insert_at(6, "world".to_string()).unwrap();
    assert_eq!(rope.to_string(), "Hello world");

    let (left, right) = rope.split(6).unwrap();
    assert_eq!(left.to_string(), "Hello ");
    assert_eq!(right.to_string(), "world");

    let (updated, deleted) = rope.delete_at(0, 6).unwrap();
    assert_eq!(updated.to_string(), "world");
    assert_eq!(deleted.to_string(), "Hello ");
}

#[test]
fn round_trip() {
    for s in ["", "a", "hello\nworld\n", "\r\n\r\n", "many lines\nhere\n"] {
        let rope = Rope::from_string(s);
        assert_eq!(rope.to_string(), s);
        assert!(rope.is_balanced());
    }
}

#[test]
fn bounds_errors_leave_rope_unchanged() {
    let rope = Rope::from_string("hello");
    assert!(matches!(
        rope.insert_at(6, "x".to_string()),
        Err(Error::EOS)
    ));
    assert!(matches!(rope.delete_at(6, 0), Err(Error::EOS)));
    assert!(matches!(rope.delete_at(2, 4), Err(Error::EOS)));
    assert!(matches!(rope.split(6), Err(Error::EOS)));
    assert_eq!(rope.to_string(), "hello");
    assert!(rope.is_balanced());
}

#[test]
fn insert_empty_string_is_identity() {
    let rope = Rope::from_string("hello");
    for at in 0..=5 {
        let copy = rope.insert_at(at, String::new()).unwrap();
        assert_eq!(copy.to_string(), "hello");
    }
    // The empty no-op copy is taken before the bounds check.
    let copy = rope.insert_at(99, String::new()).unwrap();
    assert_eq!(copy.to_string(), "hello");
}

#[test]
fn split_correctness_all_offsets() {
    let s = "one\ntwo\nthree";
    let rope = Rope::from_string(s);
    for at in 0..=s.len() {
        let (l, r) = rope.split(at).unwrap();
        assert_eq!(l.to_string(), s[..at]);
        assert_eq!(r.to_string(), s[at..]);
        assert!(l.is_balanced() && r.is_balanced());
    }
}

#[test]
fn delete_correctness_all_ranges() {
    let s = "abcdefgh";
    let rope = Rope::from_string(s);
    for at in 0..=s.len() {
        for len in 0..=(s.len() - at) {
            let (u, d) = rope.delete_at(at, len).unwrap();
            let mut expected_u = String::new();
            expected_u.push_str(&s[..at]);
            expected_u.push_str(&s[at + len..]);
            assert_eq!(u.to_string(), expected_u);
            assert_eq!(d.to_string(), s[at..at + len]);
            assert!(u.is_balanced() && d.is_balanced());
        }
    }
}

#[test]
fn chunk_coverage_reproduces_content() {
    let s = "lines\nof\ntext that span\nchunks";
    // Snapshots from past edits share their leaves with the result.
    let rope = Rope::from_string(s)
        .insert_at(5, " and pieces".to_string())
        .unwrap();
    let expected = "lines and pieces\nof\ntext that span\nchunks".as_bytes();

    let mut collected: Vec<u8> = Vec::new();
    let mut it = Chunks::new(&rope, 0, rope.len());
    while let Some(chunk) = it.next() {
        assert!(chunk.len() > 0);
        collected.extend_from_slice(chunk.as_bytes());
    }
    assert_eq!(collected, expected);
    assert_eq!(rope.to_bytes(), expected);
}

#[test]
fn line_segmentation_counts() {
    // k terminators give exactly k + 1 lines, the trailing one empty when
    // the text ends on a terminator.
    let cases: Vec<(&str, usize)> = vec![
        ("", 0),
        ("no terminator", 0),
        ("one\n", 1),
        ("a\nb\nc", 2),
        ("\n\n\n", 3),
    ];
    for (s, k) in cases {
        let rope = Rope::from_string(s);
        assert_eq!(rope.line_terminator_count(), k);
        let mut lines = Lines::new(&rope, 0, k + 1);
        let mut n = 0;
        while let Some(line) = lines.next() {
            n += 1;
            // A terminator-trimmed line holds no terminator byte.
            let mut it = line.chunks();
            while let Some(chunk) = it.next() {
                assert!(!chunk.as_bytes().contains(&b'\n'));
            }
        }
        assert_eq!(n, k + 1);
    }
}

#[test]
fn trimmed_chunks_strip_crlf() {
    let rope = Rope::from_string("line one\r\n");
    let mut it = Chunks::new_trim_last_terminator(&rope, 0, rope.len());
    let chunk = it.next().unwrap();
    assert_eq!(chunk.as_bytes(), b"line one");
    assert!(it.next().is_none());

    let rope = Rope::from_string("\n");
    let mut it = Chunks::new_trim_last_terminator(&rope, 0, rope.len());
    assert!(it.next().is_none());
}

#[test]
fn block_buffer_append_and_substr() {
    let mut buf = Buffer::new();
    let (range, written) = buf.append(b"hello world");
    assert_eq!(written, 11);
    assert_eq!(range.len(), 11);
    assert_eq!(range.as_bytes(), b"hello world");

    let sub = range.substr(6, 11);
    assert_eq!(sub.as_bytes(), b"world");
    assert_eq!(sub.len(), 5);
    let subsub = sub.substr(0, 1);
    assert_eq!(subsub.as_bytes(), b"w");

    // A second append never rewrites bytes below the head.
    let (range2, written2) = buf.append(b"!!");
    assert_eq!(written2, 2);
    assert_eq!(range2.as_bytes(), b"!!");
    assert_eq!(range.as_bytes(), b"hello world");
}

#[test]
fn buffer_append_stops_at_capacity() {
    let mut buf = Buffer::new();
    let big = vec![b'x'; 5000];
    let (range, written) = buf.append(&big);
    assert_eq!(written, 4096);
    assert_eq!(range.len(), 4096);
    let (_, written2) = buf.append(&big);
    assert_eq!(written2, 0);
}

#[test]
fn imbalanced_tree_is_reported() {
    let mut buf = Buffer::new();
    // A red branch over a red branch breaks the red-black invariant.
    let inner = branch(
        Color::Red,
        leaf(some_range(&mut buf, b"ab")),
        leaf(some_range(&mut buf, b"cd")),
    );
    let node = branch(Color::Red, leaf(some_range(&mut buf, b"xy")), inner);
    let rope = Rope::from_node(node);
    assert!(!rope.is_balanced());
    assert!(rope.black_height().is_err());

    // Unequal black heights are reported too.
    let mut buf = Buffer::new();
    let tall = branch(
        Color::Black,
        leaf(some_range(&mut buf, b"ab")),
        leaf(some_range(&mut buf, b"cd")),
    );
    let node = branch(Color::Black, tall, leaf(some_range(&mut buf, b"xy")));
    let rope = Rope::from_node(node);
    assert!(!rope.is_balanced());

    let balanced = Rope::from_string("well formed");
    assert_eq!(balanced.black_height().unwrap(), 0);
    let two = Rope::from_node(branch(
        Color::Black,
        leaf(some_range(&mut buf, b"ef")),
        leaf(some_range(&mut buf, b"gh")),
    ));
    assert_eq!(two.black_height().unwrap(), 1);
}

#[test]
fn lines_past_the_end_are_empty() {
    // Requested line indices past the last line yield empty spans at the
    // end of the document: the iterator returns one line per requested
    // index, never fewer.
    let rope = Rope::from_string("one\ntwo");
    let mut lines = Lines::new(&rope, 0, 5);
    let mut got: Vec<(usize, usize)> = Vec::new();
    while let Some(line) = lines.next() {
        got.push((line.start, line.end));
    }
    assert_eq!(got, vec![(0, 4), (4, 7), (7, 7), (7, 7), (7, 7)]);

    let mut tail = Lines::new(&rope, 4, 6);
    let mut n = 0;
    while let Some(line) = tail.next() {
        assert_eq!((line.start, line.end), (7, 7));
        n += 1;
    }
    assert_eq!(n, 2);
}
