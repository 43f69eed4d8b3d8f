//! The rope: an immutable value type over a persistent balanced tree of
//! byte chunks. Every mutation validates its offsets, delegates to the
//! tree and returns a new rope; the original stays valid and the two
//! share every untouched subtree.

pub mod block;
pub mod iterator;
pub mod tree;

use tree::{line_count, ImbalanceError, Node, Tree};
use vstd::prelude::*;
use vstd::string::StringSliceAdditionalSpecFns;
use vstd::utf8::{encode_utf8, encode_utf8_decode_utf8, valid_utf8};

verus! {

/// The error of the editing operations: an offset or range fell outside
/// `[0, len]`. Always locally recoverable; the rope is left untouched.
#[derive(Debug)]
pub enum Error {
    EOS,
}

/// An immutable sequence of bytes over a persistent balanced tree.
/// Mutating operations return new ropes in O(log n) node copies while
/// sharing all content bytes, so every earlier value stays valid.
pub struct Rope {
    pub root: Tree,
}

impl View for Rope {
    type V = Seq<u8>;

    open spec fn view(&self) -> Seq<u8> {
        self.root.content()
    }
}

/// Relies on `String::from_utf8`: returns the string whose UTF-8
/// encoding is exactly the given bytes, or nothing when the bytes are
/// not valid UTF-8.
#[verifier::external_body]
fn string_from_utf8(v: Vec<u8>) -> (r: Option<String>)
    ensures
        r matches Some(s) ==> encode_utf8(s@) == v@,
        valid_utf8(v@) ==> r is Some,
{
    String::from_utf8(v).ok()
}

impl Rope {
    /// Every node of the tree is well formed: valid ranges, non-empty
    /// leaves, metrics equal to the sums over the leaves.
    pub open spec fn wf(&self) -> bool {
        self.root.wf()
    }

    /// The tree satisfies the red-black invariant.
    pub open spec fn balanced(&self) -> bool {
        self.root.balanced()
    }

    /// The empty rope: no root at all.
    pub fn empty() -> (r: Rope)
        ensures
            r.wf(),
            r.balanced(),
            r@ == Seq::<u8>::empty(),
    {
        Rope { root: Tree { root: None } }
    }

    /// Builds a rope holding the UTF-8 bytes of the given string.
    pub fn from_string(text: &str) -> (r: Rope)
        ensures
            r.wf(),
            r.balanced(),
            r@ == text.spec_bytes(),
    {
        Rope { root: Tree::from_str(text) }
    }

    /// Wraps a tree node built by hand; meant for tests and diagnostics.
    pub fn from_node(node: Node) -> (r: Rope)
        ensures
            r@ == node.content(),
            r.wf() <==> node.wf(),
            r.balanced() <==> (node.rb_ok() && !node.is_red()),
    {
        Rope { root: Tree { root: Some(std::rc::Rc::new(node)) } }
    }

    /// A second handle to the same value, sharing the whole tree.
    pub fn snapshot(&self) -> (r: Rope)
        ensures
            r == *self,
    {
        match &self.root.root {
            None => Rope { root: Tree { root: None } },
            Some(n) => Rope { root: Tree { root: Some(block::rc_clone(n)) } },
        }
    }

    /// Total length in bytes, read from the root metrics.
    pub fn len(&self) -> (n: usize)
        requires
            self.wf(),
        ensures
            n == self@.len(),
    {
        self.root.len()
    }

    /// Total number of line terminators, read from the root metrics.
    pub fn line_terminator_count(&self) -> (n: usize)
        requires
            self.wf(),
        ensures
            n == line_count(self@),
    {
        self.root.line_terminator_count()
    }

    /// Inserts the string at the byte offset: the result holds the bytes
    /// before the offset, then the text, then the rest. Inserting the
    /// empty string returns a content-equal rope whatever the offset;
    /// any other text at an offset beyond the end is refused with EOS,
    /// and the rope itself is never changed. Offset `len` appends.
    pub fn insert_at(&self, offset: usize, text: String) -> (r: Result<Rope, Error>)
        requires
            self.wf(),
            self.balanced(),
            self@.len() + encode_utf8(text@).len() <= usize::MAX,
        ensures
            r is Err <==> (text@.len() > 0 && offset > self@.len()),
            text@.len() == 0 ==> (r matches Ok(nr) && nr@ == self@ && nr.wf() && nr.balanced()),
            offset <= self@.len() ==> (r matches Ok(nr) && nr.wf() && nr.balanced() && nr@
                == self@.subrange(0, offset as int) + encode_utf8(text@) + self@.subrange(
                offset as int,
                self@.len() as int,
            )),
    {
        if text.as_str().is_empty() {
            let copy = self.snapshot();
            proof {
                assert(encode_utf8(text@) =~= Seq::<u8>::empty());
                if offset <= self@.len() {
                    assert(self@.subrange(0, offset as int) + encode_utf8(text@) + self@.subrange(
                        offset as int,
                        self@.len() as int,
                    ) =~= self@);
                }
            }
            return Ok(copy);
        }
        let len = self.root.len();
        if offset > len {
            return Err(Error::EOS);
        }
        let root = self.root.insert_at(offset, text.as_str());
        Ok(Rope { root })
    }

    /// Removes the byte range `[offset, offset + len)`: returns both the
    /// rope with the gap closed and a standalone rope holding exactly the
    /// removed span. A range reaching beyond the end is refused with EOS
    /// and the rope itself is never changed.
    pub fn delete_at(&self, offset: usize, len: usize) -> (r: Result<(Rope, Rope), Error>)
        requires
            self.wf(),
            self.balanced(),
        ensures
            r is Err <==> offset + len > self@.len(),
            r matches Ok(pair) ==> {
                &&& pair.0.wf() && pair.0.balanced()
                &&& pair.1.wf() && pair.1.balanced()
                &&& pair.0@ == self@.subrange(0, offset as int) + self@.subrange(
                    offset + len,
                    self@.len() as int,
                )
                &&& pair.1@ == self@.subrange(offset as int, offset + len)
            },
    {
        let total = self.root.len();
        if offset > total || len > total - offset {
            return Err(Error::EOS);
        }
        let (updated, deleted) = self.root.delete_at(offset, len);
        Ok((Rope { root: updated }, Rope { root: deleted }))
    }

    /// Partitions the rope at the byte offset into two independent
    /// ropes; either side may be empty. An offset beyond the end is
    /// refused with EOS and the rope itself is never changed.
    pub fn split(&self, offset: usize) -> (r: Result<(Rope, Rope), Error>)
        requires
            self.wf(),
            self.balanced(),
        ensures
            r is Err <==> offset > self@.len(),
            r matches Ok(pair) ==> {
                &&& pair.0.wf() && pair.0.balanced()
                &&& pair.1.wf() && pair.1.balanced()
                &&& pair.0@ == self@.subrange(0, offset as int)
                &&& pair.1@ == self@.subrange(offset as int, self@.len() as int)
            },
    {
        let total = self.root.len();
        if offset > total {
            return Err(Error::EOS);
        }
        let (left, right) = self.root.split(offset);
        Ok((Rope { root: left }, Rope { root: right }))
    }

    /// Diagnostic: whether the tree satisfies the red-black invariant,
    /// derived from the black-height check.
    pub fn is_balanced(&self) -> (b: bool)
        requires
            self.wf(),
        ensures
            b == self.balanced(),
    {
        match self.root.black_height() {
            Ok(_) => true,
            Err(_) => false,
        }
    }

    /// Verifies the red-black invariant and reports the black height.
    pub fn black_height(&self) -> (r: Result<usize, ImbalanceError>)
        requires
            self.wf(),
        ensures
            r is Ok <==> self.balanced(),
            r matches Ok(h) ==> h == self.root.bh(),
    {
        self.root.black_height()
    }

    /// Materializes the whole content as one byte vector; O(n), meant
    /// for serialization and tests, never for the editing path.
    pub fn to_bytes(&self) -> (r: Vec<u8>)
        requires
            self.wf(),
        ensures
            r@ == self@,
    {
        self.root.to_bytes()
    }

    /// Materializes the whole content as a string; the content must be
    /// valid UTF-8, which splitting inside a multi-byte character can
    /// break.
    pub fn to_string(&self) -> (r: String)
        requires
            self.wf(),
            valid_utf8(self@),
        ensures
            encode_utf8(r@) == self@,
    {
        let bytes = self.root.to_bytes();
        match string_from_utf8(bytes) {
            Some(s) => s,
            None => vstd::pervasive::unreached(),
        }
    }
}

/// Materialization inverts construction: a rope built from a string
/// converts back to that very string, the empty string included. The
/// rope holds the string's UTF-8 encoding, and the encoding of what
/// `to_string` returns is the rope's content, so the two strings encode
/// alike and UTF-8 encoding is injective.
pub proof fn lemma_round_trip(s: Seq<char>, bytes: Seq<u8>, out: Seq<char>)
    requires
        bytes == encode_utf8(s),
        encode_utf8(out) == bytes,
    ensures
        out == s,
{
    encode_utf8_decode_utf8(s);
    encode_utf8_decode_utf8(out);
}

/// Inserting the empty text at any valid offset leaves the content
/// equal: the spliced sequence of an insertion is the original one.
pub proof fn lemma_insert_empty(content: Seq<u8>, at: int)
    requires
        0 <= at <= content.len(),
    ensures
        content.subrange(0, at) + Seq::<u8>::empty() + content.subrange(at, content.len() as int)
            == content,
{
    assert(content.subrange(0, at) + Seq::<u8>::empty() + content.subrange(
        at,
        content.len() as int,
    ) =~= content);
}

} // verus!
