//! Chunk and line traversal: finite sequences of byte-slice views over
//! an arbitrary byte or line range of a rope. Chunks are views borrowed
//! from the underlying blocks, bounded by leaf boundaries, so their sizes
//! reflect the tree's physical layout.

use super::block::BlockRange;
use super::tree::{line_count, Node};
use super::Rope;
use vstd::prelude::*;
use vstd::slice::slice_index_get;

verus! {

impl Node {
    /// The leaf-bounded chunk decomposition of `[from, to)` within this
    /// subtree, whose content starts at absolute offset `abs`: each
    /// element is one clipped leaf piece with its bytes and its absolute
    /// byte range, in document order.
    pub open spec fn chunks_at(&self, from: int, to: int, abs: int) -> Seq<(Seq<u8>, int, int)>
        decreases self,
    {
        if from >= to {
            Seq::empty()
        } else {
            match self {
                Node::Leaf { range, .. } => seq![
                    (range@.subrange(from, to), abs + from, abs + to),
                ],
                Node::Branch { left, right, .. } => {
                    let llen = left.content().len() as int;
                    if to <= llen {
                        left.chunks_at(from, to, abs)
                    } else if from >= llen {
                        right.chunks_at(from - llen, to - llen, abs + llen)
                    } else {
                        left.chunks_at(from, llen, abs) + right.chunks_at(0, to - llen, abs + llen)
                    }
                },
            }
        }
    }
}

/// The chunks of `[from, to)` of a rope: its leaf pieces clipped to the
/// range, in document order; the empty rope has none.
pub open spec fn rope_chunks(rope: &Rope, from: int, to: int) -> Seq<(Seq<u8>, int, int)> {
    match &rope.root.root {
        None => Seq::empty(),
        Some(n) => n.chunks_at(from, to, 0),
    }
}

/// The bytes and absolute ranges of collected chunk items.
pub open spec fn views_of(items: Seq<(BlockRange, usize, usize)>) -> Seq<(Seq<u8>, int, int)> {
    items.map_values(|it: (BlockRange, usize, usize)| (it.0@, it.1 as int, it.2 as int))
}

/// How long a chunk stays when a trailing line terminator, and a
/// carriage return just before it, are stripped: two bytes shorter for
/// `\r\n`, one for a bare `\n`, unchanged otherwise.
pub open spec fn trimmed_len(s: Seq<u8>) -> int {
    if s.len() > 0 && s.last() == 10u8 {
        if s.len() >= 2 && s[s.len() - 2] == 13u8 {
            s.len() - 2
        } else {
            s.len() - 1
        }
    } else {
        s.len() as int
    }
}

/// What trimming does to a chunk sequence: the last chunk is shortened
/// by its trailing terminator bytes, and dropped entirely when that
/// empties it; every other chunk is untouched.
pub open spec fn trim_views(items: Seq<(Seq<u8>, int, int)>) -> Seq<(Seq<u8>, int, int)> {
    if items.len() == 0 {
        items
    } else {
        let (v, s, e) = items.last();
        let tl = trimmed_len(v);
        if tl == v.len() {
            items
        } else if tl == 0 {
            items.drop_last()
        } else {
            items.drop_last().push((v.subrange(0, tl), s, s + tl))
        }
    }
}

/// The chunks cover `[from, to)` of `content` exactly: consecutive,
/// non-empty, in order, with no gaps or overlaps, and each chunk's bytes
/// are the corresponding slice of `content`.
pub open spec fn chunks_cover(
    items: Seq<(BlockRange, usize, usize)>,
    from: int,
    to: int,
    content: Seq<u8>,
) -> bool
    decreases items.len(),
{
    if items.len() == 0 {
        from == to
    } else {
        let (rg, s, e) = items[0];
        &&& rg.wf()
        &&& s == from
        &&& e == s + rg@.len()
        &&& e <= to
        &&& rg@.len() > 0
        &&& rg@ == content.subrange(s as int, e as int)
        &&& chunks_cover(items.drop_first(), e as int, to, content)
    }
}

/// The concatenation of the chunks' bytes, in order.
pub open spec fn chunks_concat(items: Seq<(BlockRange, usize, usize)>) -> Seq<u8>
    decreases items.len(),
{
    if items.len() == 0 {
        Seq::empty()
    } else {
        items[0].0@ + chunks_concat(items.drop_first())
    }
}

/// Chunks that cover a range concatenate to exactly that range's bytes:
/// the full content is reproduced in order, with no gaps or overlaps.
pub proof fn lemma_chunks_cover_concat(
    items: Seq<(BlockRange, usize, usize)>,
    from: int,
    to: int,
    content: Seq<u8>,
)
    requires
        chunks_cover(items, from, to, content),
        0 <= from,
        to <= content.len(),
    ensures
        chunks_concat(items) == content.subrange(from, to),
    decreases items.len(),
{
    if items.len() == 0 {
        assert(content.subrange(from, to) =~= Seq::<u8>::empty());
    } else {
        let e = items[0].2 as int;
        lemma_chunks_cover_concat(items.drop_first(), e, to, content);
        assert(chunks_concat(items) =~= content.subrange(from, to));
    }
}

/// Two covers of adjacent ranges concatenate to a cover of the union.
proof fn lemma_cover_join(
    s1: Seq<(BlockRange, usize, usize)>,
    s2: Seq<(BlockRange, usize, usize)>,
    a: int,
    b: int,
    c: int,
    content: Seq<u8>,
)
    requires
        chunks_cover(s1, a, b, content),
        chunks_cover(s2, b, c, content),
        b <= c,
    ensures
        chunks_cover(s1 + s2, a, c, content),
    decreases s1.len(),
{
    if s1.len() == 0 {
        assert(s1 + s2 =~= s2);
    } else {
        let e = s1[0].2 as int;
        lemma_cover_join(s1.drop_first(), s2, e, b, c, content);
        assert((s1 + s2).drop_first() =~= s1.drop_first() + s2);
    }
}

/// Collects the leaf-bounded chunks of `[from, to)` within the node,
/// whose content starts at absolute offset `abs` of the document `doc`.
fn collect_chunks(
    n: &Node,
    from: usize,
    to: usize,
    abs: usize,
    out: &mut Vec<(BlockRange, usize, usize)>,
    Ghost(doc): Ghost<Seq<u8>>,
)
    requires
        n.wf(),
        from <= to <= n.content().len(),
        abs + n.content().len() <= doc.len(),
        doc.len() <= usize::MAX,
        doc.subrange(abs as int, abs + n.content().len()) == n.content(),
    ensures
        final(out)@.len() >= old(out)@.len(),
        final(out)@.subrange(0, old(out)@.len() as int) == old(out)@,
        chunks_cover(final(out)@.skip(old(out)@.len() as int), abs + from, abs + to, doc),
        views_of(final(out)@.skip(old(out)@.len() as int)) == n.chunks_at(
            from as int,
            to as int,
            abs as int,
        ),
    decreases n,
{
    if from == to {
        proof {
            assert(out@.skip(old(out)@.len() as int) =~= Seq::<(BlockRange, usize, usize)>::empty());
            assert(out@.subrange(0, old(out)@.len() as int) =~= old(out)@);
            assert(views_of(out@.skip(old(out)@.len() as int)) =~= Seq::<(
                Seq<u8>,
                int,
                int,
            )>::empty());
        }
        return ;
    }
    match n {
        Node::Leaf { range, .. } => {
            let piece = range.substr(from, to);
            let s = abs + from;
            let e = abs + to;
            out.push((piece, s, e));
            proof {
                let appended = out@.skip(old(out)@.len() as int);
                assert(appended =~= seq![(piece, s, e)]);
                assert(doc.subrange(s as int, e as int) =~= doc.subrange(
                    abs as int,
                    abs + n.content().len(),
                ).subrange(from as int, to as int));
                assert(piece@ == doc.subrange(s as int, e as int));
                assert(appended.drop_first() =~= Seq::<(BlockRange, usize, usize)>::empty());
                assert(chunks_cover(appended.drop_first(), e as int, abs + to, doc));
                assert(chunks_cover(appended, abs + from, abs + to, doc));
                assert(views_of(appended) =~= n.chunks_at(from as int, to as int, abs as int));
                assert(out@.subrange(0, old(out)@.len() as int) =~= old(out)@);
            }
        },
        Node::Branch { left, right, .. } => {
            let llen = super::tree::node_len(&**left);
            proof {
                assert(n.content() == left.content() + right.content());
                assert(doc.subrange(abs as int, abs + llen) =~= doc.subrange(
                    abs as int,
                    abs + n.content().len(),
                ).subrange(0, llen as int));
                assert(doc.subrange(abs + llen, abs + n.content().len()) =~= doc.subrange(
                    abs as int,
                    abs + n.content().len(),
                ).subrange(llen as int, n.content().len() as int));
                assert(doc.subrange(abs as int, abs + llen) =~= left.content());
                assert(doc.subrange(abs + llen, abs + n.content().len()) =~= right.content());
            }
            let ghost before = out@;
            if to <= llen {
                collect_chunks(&**left, from, to, abs, out, Ghost(doc));
            } else if from >= llen {
                collect_chunks(&**right, from - llen, to - llen, abs + llen, out, Ghost(doc));
            } else {
                collect_chunks(&**left, from, llen, abs, out, Ghost(doc));
                let ghost after_left = out@;
                collect_chunks(&**right, 0, to - llen, abs + llen, out, Ghost(doc));
                proof {
                    let s1 = after_left.skip(before.len() as int);
                    let s2 = out@.skip(after_left.len() as int);
                    lemma_cover_join(s1, s2, abs + from, abs + llen, abs + to, doc);
                    assert(out@.skip(before.len() as int) =~= s1 + s2);
                    assert(out@.subrange(0, before.len() as int) =~= before);
                    assert(views_of(s1 + s2) =~= views_of(s1) + views_of(s2));
                    assert(views_of(out@.skip(before.len() as int)) =~= n.chunks_at(
                        from as int,
                        to as int,
                        abs as int,
                    ));
                }
            }
        },
    }
}

/// Where a chunk sequence ends: the end of its last chunk, or the start
/// position when it is empty.
pub open spec fn chunks_end(items: Seq<(BlockRange, usize, usize)>, from: int) -> int {
    if items.len() == 0 {
        from
    } else {
        items.last().2 as int
    }
}

/// A cover of `[from, to)` ends exactly at `to`.
proof fn lemma_cover_end(items: Seq<(BlockRange, usize, usize)>, from: int, to: int, content: Seq<u8>)
    requires
        chunks_cover(items, from, to, content),
    ensures
        chunks_end(items, from) == to,
    decreases items.len(),
{
    if items.len() > 0 {
        lemma_cover_end(items.drop_first(), items[0].2 as int, to, content);
        if items.len() > 1 {
            assert(items.drop_first().last() == items.last());
        }
    }
}

/// Replacing the last chunk of a cover by a non-empty prefix of it gives
/// a cover up to the shortened end.
proof fn lemma_cover_set_last(
    items: Seq<(BlockRange, usize, usize)>,
    from: int,
    to: int,
    content: Seq<u8>,
    item2: (BlockRange, usize, usize),
)
    requires
        chunks_cover(items, from, to, content),
        items.len() > 0,
        item2.1 == items.last().1,
        item2.0.wf(),
        item2.0@.len() > 0,
        item2.2 == item2.1 + item2.0@.len(),
        item2.2 <= to,
        item2.0@ == content.subrange(item2.1 as int, item2.2 as int),
    ensures
        chunks_cover(items.drop_last().push(item2), from, item2.2 as int, content),
    decreases items.len(),
{
    if items.len() == 1 {
        assert(items.drop_last().push(item2) =~= seq![item2]);
        assert(seq![item2].drop_first() =~= Seq::<(BlockRange, usize, usize)>::empty());
        assert(chunks_cover(seq![item2].drop_first(), item2.2 as int, item2.2 as int, content));
        assert(item2.1 == from);
        assert(chunks_cover(seq![item2], from, item2.2 as int, content));
    } else {
        lemma_cover_set_last(items.drop_first(), items[0].2 as int, to, content, item2);
        lemma_cover_index(items.drop_first(), items[0].2 as int, to, content, items.len() - 2);
        assert(items.drop_first().last() == items.last());
        assert((items.drop_last().push(item2)).drop_first() =~= items.drop_first().drop_last().push(
            item2,
        ));
        assert((items.drop_last().push(item2))[0] == items[0]);
        assert(items[0].2 <= item2.1);
        assert(chunks_cover(
            (items.drop_last().push(item2)).drop_first(),
            items[0].2 as int,
            item2.2 as int,
            content,
        ));
        assert(chunks_cover(items.drop_last().push(item2), from, item2.2 as int, content));
    }
}

/// Dropping the last chunk of a cover gives a cover up to its start.
proof fn lemma_cover_drop_last(
    items: Seq<(BlockRange, usize, usize)>,
    from: int,
    to: int,
    content: Seq<u8>,
)
    requires
        chunks_cover(items, from, to, content),
        items.len() > 0,
    ensures
        chunks_cover(items.drop_last(), from, items.last().1 as int, content),
    decreases items.len(),
{
    if items.len() == 1 {
        assert(items.drop_last() =~= Seq::<(BlockRange, usize, usize)>::empty());
    } else {
        lemma_cover_drop_last(items.drop_first(), items[0].2 as int, to, content);
        lemma_cover_index(items.drop_first(), items[0].2 as int, to, content, items.len() - 2);
        assert(items.drop_first().last() == items.last());
        assert(items.drop_last().drop_first() =~= items.drop_first().drop_last());
        assert(items.drop_last()[0] == items[0]);
        assert(items.drop_first().drop_last().len() > 0 ==> items.drop_first()[0] == items[1]);
    }
}

/// Every chunk of a cover is a well-formed, non-empty exact slice.
proof fn lemma_cover_index(
    items: Seq<(BlockRange, usize, usize)>,
    from: int,
    to: int,
    content: Seq<u8>,
    k: int,
)
    requires
        chunks_cover(items, from, to, content),
        0 <= k < items.len(),
    ensures
        items[k].0.wf(),
        items[k].0@.len() > 0,
        items[k].1 + items[k].0@.len() == items[k].2,
        items[k].2 <= to,
        from <= items[k].1,
        items[k].0@ == content.subrange(items[k].1 as int, items[k].2 as int),
    decreases k,
{
    if k > 0 {
        lemma_cover_index(items.drop_first(), items[0].2 as int, to, content, k - 1);
        assert(items.drop_first()[k - 1] == items[k]);
    }
}

/// Strips a trailing line terminator, and an optional carriage return
/// just before it, from the last chunk only; a chunk emptied by the
/// trimming is removed. A carriage return sitting in an earlier chunk is
/// left alone.
fn trim_last_terminator(
    items: &mut Vec<(BlockRange, usize, usize)>,
    Ghost(start): Ghost<int>,
    Ghost(end): Ghost<int>,
    Ghost(content): Ghost<Seq<u8>>,
)
    requires
        chunks_cover(old(items)@, start, end, content),
        0 <= start,
        end <= content.len(),
    ensures
        chunks_cover(final(items)@, start, chunks_end(final(items)@, start), content),
        views_of(final(items)@) == trim_views(views_of(old(items)@)),
        end - 2 <= chunks_end(final(items)@, start) <= end,
        old(items)@.len() > 0 && content[end - 1] == 10 ==> chunks_end(final(items)@, start) < end,
        chunks_end(final(items)@, start) < end ==> content[end - 1] == 10,
        chunks_end(final(items)@, start) == end - 2 ==> content[end - 2] == 13,
{
    let n = items.len();
    proof {
        lemma_cover_end(items@, start, end, content);
    }
    if n == 0 {
        proof {
            assert(views_of(items@).len() == 0);
            assert(views_of(items@) == trim_views(views_of(items@)));
        }
        return ;
    }
    proof {
        lemma_cover_index(items@, start, end, content, n - 1);
    }
    let last = match items.pop() {
        Some(l) => l,
        None => vstd::pervasive::unreached(),
    };
    let ghost full = old(items)@;
    proof {
        assert(items@.push(last) =~= full);
    }
    let bytes = last.0.as_bytes();
    let bl = bytes.len();
    let mut tl = bl;
    if *slice_index_get(bytes, bl - 1) == 10 {
        tl = bl - 1;
        if tl > 0 && *slice_index_get(bytes, tl - 1) == 13 {
            tl = tl - 1;
        }
    }
    proof {
        assert(last == full.last());
        assert(last.0@ == content.subrange(last.1 as int, last.2 as int));
        assert(last.2 == end);
        assert(content[end - 1] == last.0@[last.0@.len() - 1]);
        assert(views_of(full).last() == (last.0@, last.1 as int, last.2 as int));
        assert(trimmed_len(last.0@) == tl);
    }
    if tl == bl {
        items.push(last);
        proof {
            assert(items@ =~= full);
            assert(views_of(items@) == trim_views(views_of(full)));
        }
    } else if tl > 0 {
        let piece = last.0.substr(0, tl);
        let item2 = (piece, last.1, last.1 + tl);
        proof {
            assert(piece@ =~= content.subrange(item2.1 as int, item2.2 as int));
            lemma_cover_set_last(full, start, end, content, item2);
            assert(items@.push(item2) =~= full.drop_last().push(item2));
        }
        items.push(item2);
        proof {
            lemma_cover_end(items@, start, item2.2 as int, content);
            if tl == bl - 2 {
                assert(content[end - 2] == last.0@[last.0@.len() - 2]);
            }
            assert(views_of(full).drop_last() =~= views_of(full.drop_last()));
            assert(views_of(items@) =~= views_of(full).drop_last().push(
                (last.0@.subrange(0, tl as int), last.1 as int, last.1 + tl),
            ));
            assert(views_of(items@) == trim_views(views_of(full)));
        }
    } else {
        proof {
            lemma_cover_drop_last(full, start, end, content);
            assert(items@ =~= full.drop_last());
            lemma_cover_end(items@, start, last.1 as int, content);
            if last.0@.len() == 2 {
                assert(content[end - 2] == last.0@[0]);
            }
            assert(views_of(items@) =~= views_of(full).drop_last());
            assert(views_of(items@) == trim_views(views_of(full)));
        }
    }
}

/// A finite, non-restartable sequence of byte chunks over a byte range
/// of a rope, each chunk a shared view into its block bounded by leaf
/// boundaries, together with the absolute `[start, end)` range each
/// chunk covers. The views are gathered in one descent of the tree and
/// then yielded one at a time; no content byte is ever copied.
pub struct ChunkAndRanges {
    items: Vec<(BlockRange, usize, usize)>,
    idx: usize,
}

impl ChunkAndRanges {
    /// The chunks not yet yielded, oldest first.
    pub closed spec fn remaining(&self) -> Seq<(BlockRange, usize, usize)> {
        self.items@.skip(self.idx as int)
    }

    pub closed spec fn wf(&self) -> bool {
        self.idx <= self.items@.len()
    }

    /// All leaf-bounded chunks of `[start, end)`, in order; together they
    /// cover that range exactly, with no gaps or overlaps.
    pub fn new(rope: &Rope, start: usize, end: usize) -> (r: ChunkAndRanges)
        requires
            rope.wf(),
            start <= end <= rope@.len(),
        ensures
            r.wf(),
            chunks_cover(r.remaining(), start as int, end as int, rope@),
            views_of(r.remaining()) == rope_chunks(rope, start as int, end as int),
    {
        let mut items: Vec<(BlockRange, usize, usize)> = Vec::new();
        match &rope.root.root {
            None => {
                proof {
                    assert(views_of(items@) =~= Seq::<(Seq<u8>, int, int)>::empty());
                }
            },
            Some(n) => {
                proof {
                    assert(rope@.subrange(0, rope@.len() as int) =~= rope@);
                    super::tree::lemma_wf_metrics(&**n);
                }
                collect_chunks(&**n, start, end, 0, &mut items, Ghost(rope@));
            },
        }
        let r = ChunkAndRanges { items, idx: 0 };
        proof {
            assert(r.remaining() =~= r.items@);
        }
        r
    }

    /// Like [`Self::new`], but strips a trailing line terminator and an
    /// optional preceding carriage return from the last chunk only; a
    /// chunk emptied by the trimming is omitted. The chunks cover the
    /// range up to the trimmed end.
    pub fn new_trim_last_terminator(rope: &Rope, start: usize, end: usize) -> (r: ChunkAndRanges)
        requires
            rope.wf(),
            start <= end <= rope@.len(),
        ensures
            r.wf(),
            chunks_cover(
                r.remaining(),
                start as int,
                chunks_end(r.remaining(), start as int),
                rope@,
            ),
            views_of(r.remaining()) == trim_views(rope_chunks(rope, start as int, end as int)),
            end - 2 <= chunks_end(r.remaining(), start as int) <= end,
            start < end && rope@[end - 1] == 10 ==> chunks_end(r.remaining(), start as int) < end,
            chunks_end(r.remaining(), start as int) < end ==> rope@[end - 1] == 10,
            chunks_end(r.remaining(), start as int) == end - 2 ==> rope@[end - 2] == 13,
    {
        let mut items: Vec<(BlockRange, usize, usize)> = Vec::new();
        match &rope.root.root {
            None => {
                proof {
                    assert(views_of(items@) =~= Seq::<(Seq<u8>, int, int)>::empty());
                }
            },
            Some(n) => {
                proof {
                    assert(rope@.subrange(0, rope@.len() as int) =~= rope@);
                    super::tree::lemma_wf_metrics(&**n);
                }
                collect_chunks(&**n, start, end, 0, &mut items, Ghost(rope@));
                proof {
                    assert(items@.skip(0) =~= items@);
                }
            },
        }
        proof {
            if start < end {
                assert(items@.len() > 0);
            }
        }
        trim_last_terminator(&mut items, Ghost(start as int), Ghost(end as int), Ghost(rope@));
        let r = ChunkAndRanges { items, idx: 0 };
        proof {
            assert(r.remaining() =~= r.items@);
        }
        r
    }

    /// Yields the next chunk with its absolute byte range, or nothing
    /// once the range is exhausted.
    pub fn next(&mut self) -> (r: Option<(BlockRange, usize, usize)>)
        requires
            old(self).wf(),
        ensures
            final(self).wf(),
            old(self).remaining().len() == 0 ==> r is None && final(self).remaining()
                == old(self).remaining(),
            old(self).remaining().len() > 0 ==> r == Some(old(self).remaining()[0])
                && final(self).remaining() == old(self).remaining().drop_first(),
    {
        if self.idx < self.items.len() {
            let it = &self.items[self.idx];
            let out = (it.0.dup(), it.1, it.2);
            self.idx = self.idx + 1;
            proof {
                assert(self.remaining() =~= old(self).remaining().drop_first());
                assert(out == old(self).remaining()[0]);
            }
            Some(out)
        } else {
            None
        }
    }
}

/// The chunk sequence alone, without the absolute ranges.
pub struct Chunks {
    inner: ChunkAndRanges,
}

impl Chunks {
    pub closed spec fn remaining(&self) -> Seq<(BlockRange, usize, usize)> {
        self.inner.remaining()
    }

    pub closed spec fn wf(&self) -> bool {
        self.inner.wf()
    }

    /// All leaf-bounded chunks of `[start, end)`, in order.
    pub fn new(rope: &Rope, start: usize, end: usize) -> (r: Chunks)
        requires
            rope.wf(),
            start <= end <= rope@.len(),
        ensures
            r.wf(),
            chunks_cover(r.remaining(), start as int, end as int, rope@),
            views_of(r.remaining()) == rope_chunks(rope, start as int, end as int),
    {
        Chunks { inner: ChunkAndRanges::new(rope, start, end) }
    }

    /// Like [`Self::new`], but strips a trailing terminator from the
    /// last chunk; see [`ChunkAndRanges::new_trim_last_terminator`].
    pub fn new_trim_last_terminator(rope: &Rope, start: usize, end: usize) -> (r: Chunks)
        requires
            rope.wf(),
            start <= end <= rope@.len(),
        ensures
            r.wf(),
            chunks_cover(
                r.remaining(),
                start as int,
                chunks_end(r.remaining(), start as int),
                rope@,
            ),
            views_of(r.remaining()) == trim_views(rope_chunks(rope, start as int, end as int)),
            end - 2 <= chunks_end(r.remaining(), start as int) <= end,
            start < end && rope@[end - 1] == 10 ==> chunks_end(r.remaining(), start as int) < end,
            chunks_end(r.remaining(), start as int) < end ==> rope@[end - 1] == 10,
            chunks_end(r.remaining(), start as int) == end - 2 ==> rope@[end - 2] == 13,
    {
        Chunks { inner: ChunkAndRanges::new_trim_last_terminator(rope, start, end) }
    }

    /// Yields the next chunk, or nothing once the range is exhausted.
    pub fn next(&mut self) -> (r: Option<BlockRange>)
        requires
            old(self).wf(),
        ensures
            final(self).wf(),
            old(self).remaining().len() == 0 ==> r is None && final(self).remaining()
                == old(self).remaining(),
            old(self).remaining().len() > 0 ==> (r matches Some(rg) && rg
                == old(self).remaining()[0].0) && final(self).remaining()
                == old(self).remaining().drop_first(),
    {
        match self.inner.next() {
            None => None,
            Some((rg, _, _)) => Some(rg),
        }
    }
}

/// The spans are exactly the lines of `content`: one more span than
/// there are terminators, consecutive from the start to the end, every
/// span but the last ending in its terminator, and no terminator
/// anywhere else — in particular none embedded in a terminator-trimmed
/// line.
pub open spec fn line_spans_ok(spans: Seq<(usize, usize)>, content: Seq<u8>) -> bool {
    &&& spans.len() == line_count(content) + 1
    &&& spans[0].0 == 0
    &&& spans[spans.len() - 1].1 == content.len()
    &&& (forall|k: int|
        0 <= k < spans.len() ==> (#[trigger] spans[k]).0 <= spans[k].1 <= content.len())
    &&& (forall|k: int| 0 <= k < spans.len() - 1 ==> (#[trigger] spans[k]).1 == spans[k + 1].0)
    &&& (forall|k: int|
        0 <= k < spans.len() - 1 ==> (#[trigger] spans[k]).0 < spans[k].1 && content[spans[k].1
            - 1] == 10)
    &&& (forall|k: int, j: int|
        #![trigger spans[k], content[j]]
        0 <= k < spans.len() && spans[k].0 <= j < spans[k].1 - 1 ==> content[j] != 10)
    &&& (forall|j: int|
        spans[spans.len() - 1].0 <= j < spans[spans.len() - 1].1 ==> content[j] != 10)
}

/// Computes the line spans of the bytes: `[start, end)` per line, the
/// terminator included, the final unterminated remainder (possibly
/// empty) yielded as one line.
fn compute_spans(bytes: &[u8]) -> (spans: Vec<(usize, usize)>)
    ensures
        line_spans_ok(spans@, bytes@),
{
    let mut spans: Vec<(usize, usize)> = Vec::new();
    let mut start: usize = 0;
    let mut i: usize = 0;
    proof {
        assert(bytes@.subrange(0, 0) =~= Seq::<u8>::empty());
    }
    while i < bytes.len()
        invariant
            start <= i <= bytes@.len(),
            spans@.len() == line_count(bytes@.subrange(0, i as int)),
            spans@.len() == 0 ==> start == 0,
            spans@.len() >= 1 ==> spans@[0].0 == 0 && spans@[spans@.len() - 1].1 == start,
            forall|k: int|
                0 <= k < spans@.len() ==> (#[trigger] spans@[k]).0 < spans@[k].1 <= start,
            forall|k: int|
                0 <= k < spans@.len() - 1 ==> (#[trigger] spans@[k]).1 == spans@[k + 1].0,
            forall|k: int| 0 <= k < spans@.len() ==> bytes@[(#[trigger] spans@[k]).1 - 1] == 10,
            forall|k: int, j: int|
                #![trigger spans@[k], bytes@[j]]
                0 <= k < spans@.len() && spans@[k].0 <= j < spans@[k].1 - 1 ==> bytes@[j] != 10,
            forall|j: int| start <= j < i ==> bytes@[j] != 10,
        decreases bytes@.len() - i,
    {
        let b = *slice_index_get(bytes, i);
        proof {
            assert(bytes@.subrange(0, i + 1).drop_last() =~= bytes@.subrange(0, i as int));
            assert(bytes@.subrange(0, i + 1).last() == bytes@[i as int]);
        }
        if b == 10 {
            spans.push((start, i + 1));
            start = i + 1;
        }
        i = i + 1;
    }
    proof {
        assert(bytes@.subrange(0, bytes@.len() as int) =~= bytes@);
    }
    spans.push((start, bytes.len()));
    spans
}

/// One line of a rope: the byte span `[start, end)`, the terminator
/// included. The bytes are read through chunk iteration, never copied.
pub struct RopeLine<'a> {
    pub rope: &'a Rope,
    pub start: usize,
    pub end: usize,
}

impl<'a> RopeLine<'a> {
    pub open spec fn wf(&self) -> bool {
        &&& self.rope.wf()
        &&& self.start <= self.end <= self.rope@.len()
    }

    /// The chunks of this line, the trailing terminator (and a carriage
    /// return just before it) trimmed from the last chunk.
    pub fn chunks(&self) -> (r: Chunks)
        requires
            self.wf(),
        ensures
            r.wf(),
            chunks_cover(
                r.remaining(),
                self.start as int,
                chunks_end(r.remaining(), self.start as int),
                self.rope@,
            ),
            views_of(r.remaining()) == trim_views(rope_chunks(
                self.rope,
                self.start as int,
                self.end as int,
            )),
            self.end - 2 <= chunks_end(r.remaining(), self.start as int) <= self.end,
            self.start < self.end && self.rope@[self.end - 1] == 10 ==> chunks_end(
                r.remaining(),
                self.start as int,
            ) < self.end,
            chunks_end(r.remaining(), self.start as int) < self.end ==> self.rope@[self.end - 1]
                == 10,
            chunks_end(r.remaining(), self.start as int) == self.end - 2 ==> self.rope@[self.end
                - 2] == 13,
    {
        Chunks::new_trim_last_terminator(self.rope, self.start, self.end)
    }
}

/// A finite sequence of line spans over a line range of a rope. Line
/// count is terminator count plus one: the final unterminated remainder
/// is a line of its own, empty for a text ending on a terminator and for
/// the empty rope.
pub struct Lines<'a> {
    rope: &'a Rope,
    spans: Vec<(usize, usize)>,
    idx: usize,
    upto: usize,
    extra: usize,
    doc_len: usize,
}

impl<'a> Lines<'a> {
    /// Every line span of the rope, in order.
    pub closed spec fn all_spans(&self) -> Seq<(usize, usize)> {
        self.spans@
    }

    /// The spans not yet yielded: the real spans of the requested window,
    /// then one empty span at the end of the document for every requested
    /// index past the last line.
    pub closed spec fn remaining(&self) -> Seq<(usize, usize)> {
        self.spans@.subrange(self.idx as int, self.upto as int) + Seq::new(
            self.extra as nat,
            |i: int| (self.doc_len, self.doc_len),
        )
    }

    pub closed spec fn wf(&self) -> bool {
        &&& self.rope.wf()
        &&& self.idx <= self.upto <= self.spans@.len()
        &&& line_spans_ok(self.spans@, self.rope@)
        &&& self.doc_len == self.rope@.len()
    }

    pub closed spec fn rope_view(&self) -> Seq<u8> {
        self.rope@
    }

    /// The lines with indices in `[from_line, to_line)`: exactly
    /// `to_line - from_line` of them. An index past the last line yields
    /// the empty span at the end of the document; for the full range,
    /// exactly terminator count plus one real lines are yielded.
    pub fn new(rope: &'a Rope, from_line: usize, to_line: usize) -> (r: Lines<'a>)
        requires
            rope.wf(),
            from_line <= to_line,
        ensures
            r.wf(),
            r.rope_view() == rope@,
            line_spans_ok(r.all_spans(), rope@),
            r.remaining().len() == to_line - from_line,
            forall|k: int|
                0 <= k < r.remaining().len() ==> #[trigger] r.remaining()[k] == (
                if from_line + k <= line_count(rope@) {
                    r.all_spans()[from_line + k]
                } else {
                    (rope@.len() as usize, rope@.len() as usize)
                }),
    {
        let bytes = rope.to_bytes();
        let doc_len = bytes.len();
        let spans = compute_spans(bytes.as_slice());
        let n = spans.len();
        let lo = if from_line < n {
            from_line
        } else {
            n
        };
        let hi = if to_line < n {
            to_line
        } else {
            n
        };
        let extra = (to_line - from_line) - (hi - lo);
        let r = Lines { rope, spans, idx: lo, upto: hi, extra, doc_len };
        proof {
            assert(r.remaining().len() == to_line - from_line);
        }
        r
    }

    /// Yields the next line, or nothing once the range is exhausted.
    #[verifier::rlimit(50)]
    pub fn next(&mut self) -> (r: Option<RopeLine<'a>>)
        requires
            old(self).wf(),
        ensures
            final(self).wf(),
            final(self).all_spans() == old(self).all_spans(),
            final(self).rope_view() == old(self).rope_view(),
            old(self).remaining().len() == 0 ==> r is None && final(self).remaining() == old(
                self,
            ).remaining(),
            old(self).remaining().len() > 0 ==> (r matches Some(line) && line.wf() && line.start
                == old(self).remaining()[0].0 && line.end == old(self).remaining()[0].1 && line.rope@
                == old(self).rope_view()) && final(self).remaining()
                == old(self).remaining().drop_first(),
    {
        if self.idx < self.upto {
            let sp = self.spans[self.idx];
            self.idx = self.idx + 1;
            let line = RopeLine { rope: self.rope, start: sp.0, end: sp.1 };
            proof {
                assert(self.remaining() =~= old(self).remaining().drop_first());
                assert(old(self).remaining()[0] == sp);
            }
            Some(line)
        } else if self.extra > 0 {
            self.extra = self.extra - 1;
            let line = RopeLine { rope: self.rope, start: self.doc_len, end: self.doc_len };
            proof {
                assert(old(self).remaining()[0] == (self.doc_len, self.doc_len));
                assert(self.remaining() =~= old(self).remaining().drop_first());
            }
            Some(line)
        } else {
            proof {
                assert(self.remaining() =~= old(self).remaining());
                assert(self.remaining().len() == 0);
            }
            None
        }
    }
}

} // verus!
