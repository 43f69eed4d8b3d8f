use textrope::rope::block::Buffer;
use textrope::rope::iterator::{ChunkAndRanges, Chunks, Lines};
use textrope::rope::tree::{branch, leaf, Color, Node};
use textrope::rope::Rope;

fn leaf_from(buf: &mut Buffer, bytes: &[u8]) -> Node {
    let (range, written) = buf.append(bytes);
    assert_eq!(written, bytes.len());
    leaf(range)
}

fn branch_b(left: Node, right: Node) -> Node {
    branch(Color::Black, left, right)
}

fn branch_r(left: Node, right: Node) -> Node {
    branch(Color::Red, left, right)
}

fn song_rope(buf: &mut Buffer, chunks: &[&[u8]]) -> Rope {
    Rope::from_node(branch_b(
        branch_b(
            branch_b(leaf_from(buf, chunks[0]), leaf_from(buf, chunks[1])),
            branch_r(
                branch_b(
                    branch_r(leaf_from(buf, chunks[2]), leaf_from(buf, chunks[3])),
                    leaf_from(buf, chunks[4]),
                ),
                branch_b(leaf_from(buf, chunks[5]), leaf_from(buf, chunks[6])),
            ),
        ),
        branch_b(
            branch_r(
                branch_b(
                    branch_r(leaf_from(buf, chunks[7]), leaf_from(buf, chunks[8])),
                    leaf_from(buf, chunks[9]),
                ),
                branch_b(leaf_from(buf, chunks[10]), leaf_from(buf, chunks[11])),
            ),
            branch_b(leaf_from(buf, chunks[12]), leaf_from(buf, chunks[13])),
        ),
    ))
}

#[test]
fn lines_empty_rope() {
    let rope = Rope::empty();
    let mut lines = Lines::new(&rope, 0, rope.line_terminator_count() + 1);
    while let Some(line) = lines.next() {
        let mut it = line.chunks();
        assert!(it.next().is_none());
    }
}

#[test]
fn chunks_empty_rope() {
    let rope = Rope::empty();
    let mut it = Chunks::new(&rope, 0, rope.len());
    assert!(it.next().is_none());
}

#[test]
fn chunks_basic() {
    let mut buf = Buffer::new();
    let chunks: Vec<&[u8]> = vec![
        b"This",
        b" is ",
        b"a song that",
        b" never ends.",
        b"\n",
        b"It just goes 'round ",
        b"and 'round, my friends.\n",
        b"Some people ",
        b"started singing it\n",
        b"not knowing",
        b"what it",
        b"was;\n",
        b"and they continue singing it forever",
        b" just because...\n",
    ];

    let rope = song_rope(&mut buf, &chunks);

    let mut it = Chunks::new(&rope, 0, rope.len());
    for (i, expected) in chunks.iter().enumerate() {
        let actual = it.next().unwrap();
        assert_eq!(actual.as_bytes(), *expected, "chunk={}", i);
    }
    assert!(it.next().is_none());

    let lens: Vec<usize> = (std::iter::once(0).chain(chunks.iter().map(|c| c.len())))
        .scan(0, |acc, x| {
            *acc += x;
            Some(*acc)
        })
        .collect();
    let ranges = lens.iter().zip(lens.iter().skip(1)).map(|(s, e)| (*s, *e));
    let expected = chunks.iter().zip(ranges);

    let mut it = ChunkAndRanges::new(&rope, 0, rope.len());
    for (i, expected) in expected.enumerate() {
        let (actual, start, end) = it.next().unwrap();
        assert_eq!(actual.as_bytes(), *expected.0, "chunk={}", i);
        assert_eq!((start, end), expected.1);
    }
    assert!(it.next().is_none());
}

#[test]
fn lines_basic() {
    let mut buf = Buffer::new();
    let chunks: Vec<&[u8]> = vec![
        b"This",
        b" is ",
        b"a song that",
        b" never ends.",
        b"\n\n",
        b"It just\ngoes 'round ",
        b"and\n'round, my friends.\n",
        b"Some\npeople ",
        b"started singing it\n",
        b"not\n\nknowing",
        b" what it ",
        b"was;\n",
        b"\nand\nthey\ncontinue\nsinging\n\nit\n\nforever\n",
        b" just because...\n",
    ];

    let rope = song_rope(&mut buf, &chunks);

    let expected: Vec<Vec<&[u8]>> = vec![
        vec![b"This", b" is ", b"a song that", b" never ends."],
        vec![],
        vec![b"It just"],
        vec![b"goes 'round ", b"and"],
        vec![b"'round, my friends."],
        vec![b"Some"],
        vec![b"people ", b"started singing it"],
        vec![b"not"],
        vec![],
        vec![b"knowing", b" what it ", b"was;"],
        vec![],
        vec![b"and"],
        vec![b"they"],
        vec![b"continue"],
        vec![b"singing"],
        vec![],
        vec![b"it"],
        vec![],
        vec![b"forever"],
        vec![b" just because..."],
        vec![],
    ];

    let mut lineiter = Lines::new(&rope, 0, rope.line_terminator_count() + 1);
    for (linenum, expected) in expected.iter().enumerate() {
        let mut actual: Vec<Vec<u8>> = Vec::with_capacity(chunks.len());
        println!("line={}", linenum);
        let line = lineiter.next().unwrap();
        let mut it = line.chunks();
        while let Some(chunk) = it.next() {
            actual.push(chunk.as_bytes().to_vec());
        }
        let expected: Vec<Vec<u8>> = expected.iter().map(|c| c.to_vec()).collect();
        assert_eq!(actual, expected, "line={}", linenum);
    }
    assert!(lineiter.next().is_none());
}
