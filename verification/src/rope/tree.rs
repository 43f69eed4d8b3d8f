//! The persistent balanced tree: a red-black tree of leaf/branch nodes
//! carrying aggregate metrics (byte length and line-terminator count).
//! Every operation is pure: it returns a new root and reuses untouched
//! subtrees through shared handles, so earlier roots stay valid forever.

use super::block::{rc_clone, BlockRange, Buffer};
use std::rc::Rc;
use vstd::prelude::*;
use vstd::string::StringSliceAdditionalSpecFns;
use vstd::slice::{slice_index_get, slice_subrange};

verus! {

/// Number of line terminators (`\n` bytes) in a byte sequence.
pub open spec fn line_count(s: Seq<u8>) -> nat
    decreases s.len(),
{
    if s.len() == 0 {
        0
    } else {
        line_count(s.drop_last()) + if s.last() == 10u8 {
            1nat
        } else {
            0nat
        }
    }
}

/// Line counts add up over concatenation.
pub proof fn lemma_line_count_concat(a: Seq<u8>, b: Seq<u8>)
    ensures
        line_count(a + b) == line_count(a) + line_count(b),
    decreases b.len(),
{
    if b.len() == 0 {
        assert(a + b =~= a);
    } else {
        assert((a + b).drop_last() =~= a + b.drop_last());
        assert((a + b).last() == b.last());
        lemma_line_count_concat(a, b.drop_last());
    }
}

/// A sequence has no more terminators than bytes.
pub proof fn lemma_line_count_le_len(s: Seq<u8>)
    ensures
        line_count(s) <= s.len(),
    decreases s.len(),
{
    if s.len() > 0 {
        lemma_line_count_le_len(s.drop_last());
    }
}

#[derive(Clone, Copy, PartialEq, Eq, Structural)]
pub enum Color {
    Red,
    Black,
}

/// Aggregate statistics of a subtree, kept on every node so that offset
/// and line lookups descend in logarithmic time.
#[derive(Clone, Copy)]
pub struct NodeMetrics {
    pub len: usize,
    pub line_terminator_count: usize,
}

/// A tree node: a leaf holds one immutable byte range, a branch holds a
/// color and two shared children plus the element-wise sum of their
/// metrics. Children are shared and immutable, so a node never knows its
/// parent.
pub enum Node {
    Leaf { range: BlockRange, metrics: NodeMetrics },
    Branch { color: Color, left: Rc<Node>, right: Rc<Node>, metrics: NodeMetrics },
}

impl Node {
    /// The byte sequence this subtree represents.
    pub open spec fn content(&self) -> Seq<u8>
        decreases self,
    {
        match self {
            Node::Leaf { range, .. } => range@,
            Node::Branch { left, right, .. } => left.content() + right.content(),
        }
    }

    pub open spec fn metrics(&self) -> NodeMetrics {
        match self {
            Node::Leaf { metrics, .. } => *metrics,
            Node::Branch { metrics, .. } => *metrics,
        }
    }

    /// Structural well-formedness: ranges are valid, leaves are never
    /// empty, and every cached metric equals the element-wise sum over
    /// the descendant leaves.
    pub open spec fn wf(&self) -> bool
        decreases self,
    {
        match self {
            Node::Leaf { range, metrics } => {
                &&& range.wf()
                &&& range@.len() > 0
                &&& metrics.len == range@.len()
                &&& metrics.line_terminator_count == line_count(range@)
            },
            Node::Branch { left, right, metrics, .. } => {
                &&& left.wf()
                &&& right.wf()
                &&& metrics.len == left.content().len() + right.content().len()
                &&& metrics.line_terminator_count == line_count(left.content()) + line_count(
                    right.content(),
                )
            },
        }
    }

    pub open spec fn is_red(&self) -> bool {
        self matches Node::Branch { color: Color::Red, .. }
    }

    /// Black height: the number of black branches on the path to the
    /// leftmost leaf.
    pub open spec fn bh(&self) -> nat
        decreases self,
    {
        match self {
            Node::Leaf { .. } => 0,
            Node::Branch { color, left, .. } => left.bh() + if color == Color::Black {
                1nat
            } else {
                0nat
            },
        }
    }

    /// The red-black invariant: both children of a red branch are black,
    /// and both children of any branch have equal black height.
    pub open spec fn rb_ok(&self) -> bool
        decreases self,
    {
        match self {
            Node::Leaf { .. } => true,
            Node::Branch { color, left, right, .. } => {
                &&& left.rb_ok()
                &&& right.rb_ok()
                &&& left.bh() == right.bh()
                &&& (color == Color::Red ==> !left.is_red() && !right.is_red())
            },
        }
    }

    /// A tree that is valid except that its root is red and carries a red
    /// right child; the transient shape repaired during joins.
    pub open spec fn right_red_violation(&self) -> bool {
        match self {
            Node::Branch { color, left, right, .. } => {
                &&& color == Color::Red
                &&& !left.is_red()
                &&& left.rb_ok()
                &&& right.is_red()
                &&& right.rb_ok()
                &&& left.bh() == right.bh()
            },
            _ => false,
        }
    }

    /// The mirror image: a red root carrying a red left child.
    pub open spec fn left_red_violation(&self) -> bool {
        match self {
            Node::Branch { color, left, right, .. } => {
                &&& color == Color::Red
                &&& left.is_red()
                &&& left.rb_ok()
                &&& !right.is_red()
                &&& right.rb_ok()
                &&& left.bh() == right.bh()
            },
            _ => false,
        }
    }
}

/// Cached metrics of a well-formed node agree with its content.
pub proof fn lemma_wf_metrics(n: &Node)
    requires
        n.wf(),
    ensures
        n.metrics().len == n.content().len(),
        n.metrics().line_terminator_count == line_count(n.content()),
{
    match n {
        Node::Leaf { .. } => {},
        Node::Branch { left, right, .. } => {
            lemma_line_count_concat(left.content(), right.content());
        },
    }
}

/// A well-formed subtree holds at least one byte.
pub proof fn lemma_content_nonempty(n: &Node)
    requires
        n.wf(),
    ensures
        n.content().len() >= 1,
    decreases n,
{
    match n {
        Node::Leaf { .. } => {},
        Node::Branch { left, .. } => {
            lemma_content_nonempty(&**left);
        },
    }
}

/// Black height never exceeds the byte length.
pub proof fn lemma_bh_le_len(n: &Node)
    requires
        n.wf(),
    ensures
        n.bh() <= n.content().len(),
    decreases n,
{
    match n {
        Node::Leaf { .. } => {},
        Node::Branch { left, right, .. } => {
            lemma_bh_le_len(&**left);
            lemma_content_nonempty(&**right);
        },
    }
}

fn is_red_exec(n: &Node) -> (b: bool)
    ensures
        b == n.is_red(),
{
    match n {
        Node::Branch { color: Color::Red, .. } => true,
        _ => false,
    }
}

/// Byte length of a subtree, read from its cached metrics.
pub fn node_len(n: &Node) -> (l: usize)
    requires
        n.wf(),
    ensures
        l == n.content().len(),
{
    metrics_of(n).len
}

fn metrics_of(n: &Node) -> (m: NodeMetrics)
    requires
        n.wf(),
    ensures
        m.len == n.content().len(),
        m.line_terminator_count == line_count(n.content()),
{
    proof {
        lemma_wf_metrics(n);
    }
    match n {
        Node::Leaf { metrics, .. } => *metrics,
        Node::Branch { metrics, .. } => *metrics,
    }
}

/// Black height of a valid subtree, found by walking the left spine.
fn bh_of(n: &Node) -> (h: usize)
    requires
        n.wf(),
        n.rb_ok(),
    ensures
        h == n.bh(),
    decreases n,
{
    match n {
        Node::Leaf { .. } => 0,
        Node::Branch { color, left, .. } => {
            let lh = bh_of(&**left);
            if *color == Color::Black {
                proof {
                    lemma_bh_le_len(n);
                    lemma_wf_metrics(n);
                }
                lh + 1
            } else {
                lh
            }
        },
    }
}

/// Builds a branch over two subtrees, with the summed metrics.
fn mk_branch(color: Color, left: Rc<Node>, right: Rc<Node>) -> (r: Rc<Node>)
    requires
        left.wf(),
        right.wf(),
        left.content().len() + right.content().len() <= usize::MAX,
    ensures
        r.wf(),
        r.content() == left.content() + right.content(),
        r.is_red() == (color == Color::Red),
        r.bh() == left.bh() + if color == Color::Black {
            1nat
        } else {
            0nat
        },
        r.rb_ok() <==> (left.rb_ok() && right.rb_ok() && left.bh() == right.bh() && (color
            == Color::Red ==> !left.is_red() && !right.is_red())),
        *r matches Node::Branch { color: c, left: l, right: rt, .. } && c == color && l == left
            && rt == right,
{
    let lm = metrics_of(&*left);
    let rm = metrics_of(&*right);
    proof {
        lemma_line_count_le_len(left.content());
        lemma_line_count_le_len(right.content());
    }
    let metrics = NodeMetrics {
        len: lm.len + rm.len,
        line_terminator_count: lm.line_terminator_count + rm.line_terminator_count,
    };
    Rc::new(Node::Branch { color, left, right, metrics })
}

/// Repaints a red root black; content and validity are preserved.
fn blacken(n: Rc<Node>) -> (r: Rc<Node>)
    requires
        n.wf(),
        n.rb_ok() || n.right_red_violation() || n.left_red_violation(),
    ensures
        r.wf(),
        r.rb_ok(),
        !r.is_red(),
        r.content() == n.content(),
{
    if is_red_exec(&*n) {
        match &*n {
            Node::Branch { left, right, .. } => {
                proof {
                    lemma_wf_metrics(&*n);
                }
                let r = mk_branch(Color::Black, rc_clone(left), rc_clone(right));
                proof {
                    assert(r.content() =~= n.content());
                }
                r
            },
            Node::Leaf { .. } => {
                proof {
                    assert(false);
                }
                vstd::pervasive::unreached()
            },
        }
    } else {
        n
    }
}

/// Joins a taller-or-equal left tree with a black-rooted right tree by
/// descending the right spine; the result keeps the left tree's black
/// height and is valid except for a possible red-red pair at its root
/// and right child.
fn join_right(l: &Rc<Node>, r: &Rc<Node>) -> (t: Rc<Node>)
    requires
        l.wf(),
        r.wf(),
        l.rb_ok(),
        r.rb_ok(),
        !r.is_red(),
        l.bh() >= r.bh(),
        l.content().len() + r.content().len() <= usize::MAX,
    ensures
        t.wf(),
        t.content() == l.content() + r.content(),
        t.bh() == l.bh(),
        t.rb_ok() || t.right_red_violation(),
        !l.is_red() ==> t.rb_ok(),
    decreases l,
{
    let lh = bh_of(&**l);
    let rh = bh_of(&**r);
    if !is_red_exec(&**l) && lh == rh {
        return mk_branch(Color::Red, rc_clone(l), rc_clone(r));
    }
    match &**l {
        Node::Leaf { .. } => {
            proof {
                assert(false);
            }
            vstd::pervasive::unreached()
        },
        Node::Branch { color, left: a, right: b, .. } => {
            proof {
                lemma_content_nonempty(&**a);
                lemma_content_nonempty(&**b);
            }
            let t0 = join_right(b, r);
            if *color == Color::Black && is_red_exec(&*t0) {
                match &*t0 {
                    Node::Branch { left: tl, right: tr, .. } => {
                        if is_red_exec(&**tr) {
                            // Red-red pair below: rotate it away. The result
                            // is a fully valid red branch over two new black
                            // branches.
                            match &**tr {
                                Node::Branch { left: tr1, right: tr2, .. } => {
                                    proof {
                                        assert(t0.wf());
                                        assert(tl.wf() && tr.wf());
                                        assert(tr1.wf() && tr2.wf());
                                        assert(t0.content() == tl.content() + tr.content());
                                        assert(tr.content() == tr1.content() + tr2.content());
                                        assert(t0.right_red_violation());
                                        assert(tr.rb_ok() && tr.is_red());
                                        assert(tr1.rb_ok() && tr2.rb_ok() && !tr1.is_red()
                                            && !tr2.is_red() && tr1.bh() == tr2.bh());
                                        assert(t0.content().len() == tl.content().len()
                                            + tr1.content().len() + tr2.content().len());
                                    }
                                    let nl = mk_branch(Color::Black, rc_clone(a), rc_clone(tl));
                                    let nr = mk_branch(Color::Black, rc_clone(tr1), rc_clone(tr2));
                                    let res = mk_branch(Color::Red, nl, nr);
                                    proof {
                                        assert(l.content() == a.content() + b.content());
                                        assert(t0.content() == b.content() + r.content());
                                        assert(res.content() == (a.content() + tl.content()) + (
                                        tr1.content() + tr2.content()));
                                        assert((a.content() + tl.content()) + tr.content()
                                            =~= a.content() + (tl.content() + tr.content()));
                                        assert(a.content() + (b.content() + r.content()) =~= (
                                        a.content() + b.content()) + r.content());
                                        assert(res.content() == l.content() + r.content());
                                    }
                                    res
                                },
                                Node::Leaf { .. } => {
                                    proof {
                                        assert(false);
                                    }
                                    vstd::pervasive::unreached()
                                },
                            }
                        } else {
                            let res = mk_branch(*color, rc_clone(a), t0);
                            proof {
                                assert(res.content() =~= l.content() + r.content());
                            }
                            res
                        }
                    },
                    Node::Leaf { .. } => {
                        proof {
                            assert(false);
                        }
                        vstd::pervasive::unreached()
                    },
                }
            } else {
                let res = mk_branch(*color, rc_clone(a), t0);
                proof {
                    assert(res.content() =~= l.content() + r.content());
                }
                res
            }
        },
    }
}

/// Joins a black-rooted left tree with a taller-or-equal right tree by
/// descending the left spine; the mirror image of [`join_right`].
fn join_left(l: &Rc<Node>, r: &Rc<Node>) -> (t: Rc<Node>)
    requires
        l.wf(),
        r.wf(),
        l.rb_ok(),
        r.rb_ok(),
        !l.is_red(),
        r.bh() >= l.bh(),
        l.content().len() + r.content().len() <= usize::MAX,
    ensures
        t.wf(),
        t.content() == l.content() + r.content(),
        t.bh() == r.bh(),
        t.rb_ok() || t.left_red_violation(),
        !r.is_red() ==> t.rb_ok(),
    decreases r,
{
    let lh = bh_of(&**l);
    let rh = bh_of(&**r);
    if !is_red_exec(&**r) && lh == rh {
        return mk_branch(Color::Red, rc_clone(l), rc_clone(r));
    }
    match &**r {
        Node::Leaf { .. } => {
            proof {
                assert(false);
            }
            vstd::pervasive::unreached()
        },
        Node::Branch { color, left: a, right: b, .. } => {
            proof {
                lemma_content_nonempty(&**a);
                lemma_content_nonempty(&**b);
            }
            let t0 = join_left(l, a);
            if *color == Color::Black && is_red_exec(&*t0) {
                match &*t0 {
                    Node::Branch { left: tl, right: tr, .. } => {
                        if is_red_exec(&**tl) {
                            // Red-red pair below: rotate it away.
                            match &**tl {
                                Node::Branch { left: tl1, right: tl2, .. } => {
                                    proof {
                                        assert(t0.wf());
                                        assert(tl.wf() && tr.wf());
                                        assert(tl1.wf() && tl2.wf());
                                        assert(t0.content() == tl.content() + tr.content());
                                        assert(tl.content() == tl1.content() + tl2.content());
                                        assert(t0.left_red_violation());
                                        assert(tl.rb_ok() && tl.is_red());
                                        assert(tl1.rb_ok() && tl2.rb_ok() && !tl1.is_red()
                                            && !tl2.is_red() && tl1.bh() == tl2.bh());
                                    }
                                    let nl = mk_branch(Color::Black, rc_clone(tl1), rc_clone(tl2));
                                    let nr = mk_branch(Color::Black, rc_clone(tr), rc_clone(b));
                                    let res = mk_branch(Color::Red, nl, nr);
                                    proof {
                                        assert(r.content() == a.content() + b.content());
                                        assert(t0.content() == l.content() + a.content());
                                        assert(res.content() == (tl1.content() + tl2.content()) + (
                                        tr.content() + b.content()));
                                        assert((tl1.content() + tl2.content()) + (tr.content()
                                            + b.content()) =~= ((tl1.content() + tl2.content())
                                            + tr.content()) + b.content());
                                        assert((l.content() + a.content()) + b.content()
                                            =~= l.content() + (a.content() + b.content()));
                                        assert(res.content() == l.content() + r.content());
                                    }
                                    res
                                },
                                Node::Leaf { .. } => {
                                    proof {
                                        assert(false);
                                    }
                                    vstd::pervasive::unreached()
                                },
                            }
                        } else {
                            let res = mk_branch(*color, t0, rc_clone(b));
                            proof {
                                assert(res.content() =~= l.content() + r.content());
                            }
                            res
                        }
                    },
                    Node::Leaf { .. } => {
                        proof {
                            assert(false);
                        }
                        vstd::pervasive::unreached()
                    },
                }
            } else {
                let res = mk_branch(*color, t0, rc_clone(b));
                proof {
                    assert(res.content() =~= l.content() + r.content());
                }
                res
            }
        },
    }
}

/// Joins two valid black-rooted trees into one valid black-rooted tree
/// whose content is the concatenation of the two.
fn join(l: &Rc<Node>, r: &Rc<Node>) -> (t: Rc<Node>)
    requires
        l.wf(),
        r.wf(),
        l.rb_ok(),
        r.rb_ok(),
        !l.is_red(),
        !r.is_red(),
        l.content().len() + r.content().len() <= usize::MAX,
    ensures
        t.wf(),
        t.rb_ok(),
        !t.is_red(),
        t.content() == l.content() + r.content(),
{
    let lh = bh_of(&**l);
    let rh = bh_of(&**r);
    let t0 = if lh >= rh {
        join_right(l, r)
    } else {
        join_left(l, r)
    };
    blacken(t0)
}

/// Whether an optional root is a valid tree: well-formed, red-black
/// balanced, and black at the root.
pub open spec fn opt_ok(o: &Option<Rc<Node>>) -> bool {
    match o {
        None => true,
        Some(n) => n.wf() && n.rb_ok() && !n.is_red(),
    }
}

/// The bytes of an optional root; absence means the empty sequence.
pub open spec fn opt_content(o: &Option<Rc<Node>>) -> Seq<u8> {
    match o {
        None => Seq::empty(),
        Some(n) => n.content(),
    }
}

fn join_opt(l: Option<Rc<Node>>, r: Option<Rc<Node>>) -> (t: Option<Rc<Node>>)
    requires
        opt_ok(&l),
        opt_ok(&r),
        opt_content(&l).len() + opt_content(&r).len() <= usize::MAX,
    ensures
        opt_ok(&t),
        opt_content(&t) == opt_content(&l) + opt_content(&r),
{
    proof {
        assert(opt_content(&l) + Seq::<u8>::empty() =~= opt_content(&l));
        assert(Seq::<u8>::empty() + opt_content(&r) =~= opt_content(&r));
    }
    match (l, r) {
        (None, rr) => rr,
        (ll, None) => ll,
        (Some(a), Some(b)) => Some(join(&a, &b)),
    }
}

/// Builds a leaf over a non-empty byte range, computing its metrics.
pub fn leaf(range: BlockRange) -> (n: Node)
    requires
        range.wf(),
        range@.len() > 0,
    ensures
        n.wf(),
        n.rb_ok(),
        !n.is_red(),
        n.bh() == 0,
        n.content() == range@,
{
    let len = range.len();
    let ltc = count_line_terminators(range.as_bytes());
    Node::Leaf { range, metrics: NodeMetrics { len, line_terminator_count: ltc } }
}

/// Builds a branch of the given color over two subtrees, with the
/// element-wise sum of their metrics.
pub fn branch(color: Color, left: Node, right: Node) -> (n: Node)
    requires
        left.wf(),
        right.wf(),
        left.content().len() + right.content().len() <= usize::MAX,
    ensures
        n.wf(),
        n.content() == left.content() + right.content(),
        n.is_red() == (color == Color::Red),
        n.bh() == left.bh() + if color == Color::Black {
            1nat
        } else {
            0nat
        },
        n.rb_ok() <==> (left.rb_ok() && right.rb_ok() && left.bh() == right.bh() && (color
            == Color::Red ==> !left.is_red() && !right.is_red())),
{
    let lm = metrics_of(&left);
    let rm = metrics_of(&right);
    proof {
        lemma_line_count_le_len(left.content());
        lemma_line_count_le_len(right.content());
    }
    let metrics = NodeMetrics {
        len: lm.len + rm.len,
        line_terminator_count: lm.line_terminator_count + rm.line_terminator_count,
    };
    Node::Branch { color, left: Rc::new(left), right: Rc::new(right), metrics }
}

fn count_line_terminators(s: &[u8]) -> (n: usize)
    ensures
        n == line_count(s@),
{
    let mut count: usize = 0;
    let mut i: usize = 0;
    proof {
        assert(s@.subrange(0, 0) =~= Seq::<u8>::empty());
    }
    while i < s.len()
        invariant
            i <= s@.len(),
            count <= i,
            count == line_count(s@.subrange(0, i as int)),
        decreases s@.len() - i,
    {
        let b = *slice_index_get(s, i);
        proof {
            assert(s@.subrange(0, i + 1).drop_last() =~= s@.subrange(0, i as int));
            assert(s@.subrange(0, i + 1).last() == s@[i as int]);
        }
        if b == 10u8 {
            count = count + 1;
        }
        i = i + 1;
    }
    proof {
        assert(s@.subrange(0, s@.len() as int) =~= s@);
    }
    count
}

/// Splits an optional root at a byte offset into two valid trees holding
/// exactly the bytes before and from the offset.
fn split_opt(o: &Option<Rc<Node>>, at: usize) -> (r: (Option<Rc<Node>>, Option<Rc<Node>>))
    requires
        opt_ok(o),
        at <= opt_content(o).len(),
    ensures
        opt_ok(&r.0),
        opt_ok(&r.1),
        opt_content(&r.0) == opt_content(o).subrange(0, at as int),
        opt_content(&r.1) == opt_content(o).subrange(at as int, opt_content(o).len() as int),
{
    proof {
        assert(Seq::<u8>::empty().subrange(0, 0) =~= Seq::<u8>::empty());
    }
    match o {
        None => (None, None),
        Some(n) => split_node(n, at),
    }
}

fn split_node(n: &Rc<Node>, at: usize) -> (r: (Option<Rc<Node>>, Option<Rc<Node>>))
    requires
        n.wf(),
        n.rb_ok(),
        at <= n.content().len(),
    ensures
        opt_ok(&r.0),
        opt_ok(&r.1),
        opt_content(&r.0) == n.content().subrange(0, at as int),
        opt_content(&r.1) == n.content().subrange(at as int, n.content().len() as int),
    decreases n,
{
    proof {
        lemma_wf_metrics(&**n);
    }
    match &**n {
        Node::Leaf { range, .. } => {
            let len = range.len();
            if at == 0 {
                let whole = blacken(rc_clone(n));
                proof {
                    assert(n.content().subrange(0, 0) =~= Seq::<u8>::empty());
                    assert(n.content().subrange(0, n.content().len() as int) =~= n.content());
                }
                (None, Some(whole))
            } else if at == len {
                let whole = blacken(rc_clone(n));
                proof {
                    assert(n.content().subrange(at as int, n.content().len() as int)
                        =~= Seq::<u8>::empty());
                    assert(n.content().subrange(0, at as int) =~= n.content());
                }
                (Some(whole), None)
            } else {
                let left_range = range.substr(0, at);
                let right_range = range.substr(at, len);
                let lf = Rc::new(leaf(left_range));
                let rf = Rc::new(leaf(right_range));
                (Some(lf), Some(rf))
            }
        },
        Node::Branch { left: a, right: b, .. } => {
            let am = metrics_of(&**a);
            proof {
                assert(n.content() == a.content() + b.content());
            }
            if at <= am.len {
                let (s1, s2) = split_node(a, at);
                let rb = blacken(rc_clone(b));
                proof {
                    lemma_wf_metrics(&**b);
                    assert(n.content().subrange(0, at as int) =~= a.content().subrange(
                        0,
                        at as int,
                    ));
                    assert(n.content().subrange(at as int, n.content().len() as int)
                        =~= a.content().subrange(at as int, a.content().len() as int)
                        + b.content());
                }
                let joined = join_opt(s2, Some(rb));
                (s1, joined)
            } else {
                let (s1, s2) = split_node(b, at - am.len);
                let la = blacken(rc_clone(a));
                proof {
                    lemma_wf_metrics(&**a);
                    assert(n.content().subrange(0, at as int) =~= a.content()
                        + b.content().subrange(0, at - am.len));
                    assert(n.content().subrange(at as int, n.content().len() as int)
                        =~= b.content().subrange(at - am.len, b.content().len() as int));
                }
                let joined = join_opt(Some(la), s1);
                (joined, s2)
            }
        },
    }
}

/// Bulk-builds a valid tree over the given bytes, chunking them into
/// leaves sized to the block capacity.
fn build(text: &[u8]) -> (r: Option<Rc<Node>>)
    ensures
        opt_ok(&r),
        opt_content(&r) == text@,
{
    let mut acc: Option<Rc<Node>> = None;
    let mut pos: usize = 0;
    proof {
        assert(text@.subrange(0, 0) =~= Seq::<u8>::empty());
    }
    while pos < text.len()
        invariant
            pos <= text@.len(),
            opt_ok(&acc),
            opt_content(&acc) == text@.subrange(0, pos as int),
        decreases text@.len() - pos,
    {
        let mut buf = Buffer::new();
        let rest = slice_subrange(text, pos, text.len());
        let (range, written) = buf.append(rest);
        proof {
            assert(written >= 1);
            assert(range@ =~= text@.subrange(pos as int, pos + written));
        }
        let lf = Rc::new(leaf(range));
        acc = join_opt(acc, Some(lf));
        proof {
            assert(text@.subrange(0, pos as int) + text@.subrange(pos as int, pos + written)
                =~= text@.subrange(0, pos + written));
        }
        pos = pos + written;
    }
    proof {
        assert(text@.subrange(0, text@.len() as int) =~= text@);
    }
    acc
}

/// Raised by the structural validity check when the red-black invariant
/// does not hold; a diagnostic, never produced by the editing operations.
#[derive(Debug)]
pub struct ImbalanceError;

/// Recursively verifies the red-black invariant and computes the black
/// height; used for diagnostics, never on the mutation path.
fn check_node(n: &Node) -> (r: Result<usize, ImbalanceError>)
    requires
        n.wf(),
    ensures
        r matches Ok(h) ==> n.rb_ok() && h == n.bh(),
        r is Err ==> !n.rb_ok(),
    decreases n,
{
    match n {
        Node::Leaf { .. } => Ok(0),
        Node::Branch { color, left, right, .. } => {
            let lh = match check_node(&**left) {
                Ok(h) => h,
                Err(e) => {
                    return Err(e);
                },
            };
            let rh = match check_node(&**right) {
                Ok(h) => h,
                Err(e) => {
                    return Err(e);
                },
            };
            if lh != rh {
                return Err(ImbalanceError);
            }
            if *color == Color::Red && (is_red_exec(&**left) || is_red_exec(&**right)) {
                return Err(ImbalanceError);
            }
            if *color == Color::Black {
                proof {
                    lemma_bh_le_len(n);
                    lemma_wf_metrics(n);
                }
                Ok(lh + 1)
            } else {
                Ok(lh)
            }
        },
    }
}

/// The tree: an optional shared root. Absence of a root is the empty
/// rope; a degenerate half-empty branch never exists.
pub struct Tree {
    pub root: Option<Rc<Node>>,
}

impl Tree {
    /// The byte sequence the tree represents.
    pub open spec fn content(&self) -> Seq<u8> {
        opt_content(&self.root)
    }

    /// Structural well-formedness of every node.
    pub open spec fn wf(&self) -> bool {
        match &self.root {
            None => true,
            Some(n) => n.wf(),
        }
    }

    /// The red-black invariant, root blackness included.
    pub open spec fn balanced(&self) -> bool {
        match &self.root {
            None => true,
            Some(n) => n.rb_ok() && !n.is_red(),
        }
    }

    /// The tree's black height; zero for the empty tree.
    pub open spec fn bh(&self) -> nat {
        match &self.root {
            None => 0,
            Some(n) => n.bh(),
        }
    }

    /// Bulk-builds a balanced tree from a string's bytes.
    pub fn from_str(text: &str) -> (r: Tree)
        ensures
            r.wf(),
            r.balanced(),
            r.content() == text.spec_bytes(),
    {
        Tree { root: build(text.as_bytes()) }
    }

    /// Total byte length, read from the root metrics.
    pub fn len(&self) -> (n: usize)
        requires
            self.wf(),
        ensures
            n == self.content().len(),
    {
        match &self.root {
            None => 0,
            Some(node) => metrics_of(&**node).len,
        }
    }

    /// Total number of line terminators, read from the root metrics.
    pub fn line_terminator_count(&self) -> (n: usize)
        requires
            self.wf(),
        ensures
            n == line_count(self.content()),
    {
        match &self.root {
            None => 0,
            Some(node) => metrics_of(&**node).line_terminator_count,
        }
    }

    /// Splits into two independent balanced trees at `at`.
    pub fn split(&self, at: usize) -> (r: (Tree, Tree))
        requires
            self.wf(),
            self.balanced(),
            at <= self.content().len(),
        ensures
            r.0.wf() && r.0.balanced(),
            r.1.wf() && r.1.balanced(),
            r.0.content() == self.content().subrange(0, at as int),
            r.1.content() == self.content().subrange(at as int, self.content().len() as int),
    {
        let (a, b) = split_opt(&self.root, at);
        (Tree { root: a }, Tree { root: b })
    }

    /// Inserts the string's bytes at `at`, returning the new tree; the
    /// original tree is untouched and both share every unchanged subtree.
    pub fn insert_at(&self, at: usize, text: &str) -> (r: Tree)
        requires
            self.wf(),
            self.balanced(),
            at <= self.content().len(),
            self.content().len() + text.spec_bytes().len() <= usize::MAX,
        ensures
            r.wf(),
            r.balanced(),
            r.content() == self.content().subrange(0, at as int) + text.spec_bytes()
                + self.content().subrange(at as int, self.content().len() as int),
    {
        let mid = build(text.as_bytes());
        let (a, b) = split_opt(&self.root, at);
        let left = join_opt(a, mid);
        let all = join_opt(left, b);
        Tree { root: all }
    }

    /// Removes `[at, at + len)`; returns both the tree with the gap
    /// closed and a standalone balanced tree holding exactly the removed
    /// span.
    pub fn delete_at(&self, at: usize, len: usize) -> (r: (Tree, Tree))
        requires
            self.wf(),
            self.balanced(),
            at + len <= self.content().len(),
        ensures
            r.0.wf() && r.0.balanced(),
            r.1.wf() && r.1.balanced(),
            r.0.content() == self.content().subrange(0, at as int) + self.content().subrange(
                at + len,
                self.content().len() as int,
            ),
            r.1.content() == self.content().subrange(at as int, at + len),
    {
        let (a, rest) = split_opt(&self.root, at);
        let (d, b) = split_opt(&rest, len);
        proof {
            let c = self.content();
            assert(opt_content(&d) =~= c.subrange(at as int, at + len));
            assert(opt_content(&b) =~= c.subrange(at + len, c.len() as int));
        }
        let updated = join_opt(a, b);
        (Tree { root: updated }, Tree { root: d })
    }

    /// Verifies the red-black invariant and reports the black height, or
    /// the imbalance found.
    pub fn black_height(&self) -> (r: Result<usize, ImbalanceError>)
        requires
            self.wf(),
        ensures
            r is Ok <==> self.balanced(),
            r matches Ok(h) ==> h == self.bh(),
    {
        match &self.root {
            None => Ok(0),
            Some(node) => {
                if is_red_exec(&**node) {
                    return Err(ImbalanceError);
                }
                match check_node(&**node) {
                    Ok(h) => Ok(h),
                    Err(e) => Err(e),
                }
            },
        }
    }

    /// Materializes the whole content as one byte vector.
    pub fn to_bytes(&self) -> (r: Vec<u8>)
        requires
            self.wf(),
        ensures
            r@ == self.content(),
    {
        let mut out: Vec<u8> = Vec::new();
        match &self.root {
            None => {
                proof {
                    assert(out@ =~= self.content());
                }
            },
            Some(node) => {
                proof {
                    lemma_wf_metrics(&**node);
                }
                push_node_bytes(&**node, &mut out);
                proof {
                    assert(out@ =~= self.content());
                }
            },
        }
        out
    }
}

fn push_node_bytes(n: &Node, out: &mut Vec<u8>)
    requires
        n.wf(),
        old(out)@.len() + n.content().len() <= usize::MAX,
    ensures
        final(out)@ == old(out)@ + n.content(),
    decreases n,
{
    match n {
        Node::Leaf { range, .. } => {
            let bytes = range.as_bytes();
            let mut i: usize = 0;
            proof {
                assert(out@ =~= old(out)@ + n.content().subrange(0, 0));
            }
            while i < bytes.len()
                invariant
                    i <= bytes@.len(),
                    bytes@ == n.content(),
                    old(out)@.len() + n.content().len() <= usize::MAX,
                    out@ == old(out)@ + n.content().subrange(0, i as int),
                decreases bytes@.len() - i,
            {
                out.push(*slice_index_get(bytes, i));
                proof {
                    assert(out@ =~= old(out)@ + n.content().subrange(0, i + 1));
                }
                i = i + 1;
            }
            proof {
                assert(out@ =~= old(out)@ + n.content());
            }
        },
        Node::Branch { left, right, .. } => {
            proof {
                lemma_wf_metrics(n);
            }
            push_node_bytes(&**left, out);
            push_node_bytes(&**right, out);
            proof {
                assert(out@ =~= old(out)@ + n.content());
            }
        },
    }
}

} // verus!
