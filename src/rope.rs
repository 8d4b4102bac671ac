use vstd::prelude::*;
use vstd::string::*;

verus! {

/// A leaf splits when a quarter of its length reaches this many characters.
pub const SPLIT_LENGTH: usize = 1000;

/// An internal node of at most this many characters is joined into a leaf.
pub const JOIN_LENGTH: usize = 500;

/// The child-length ratio at which rebalancing rebuilds a node instead of
/// descending into it, as a fraction: six fifths.
pub const REBALANCE_RATIO_NUMERATOR: usize = 6;

/// Denominator of the rebalancing ratio.
pub const REBALANCE_RATIO_DENOMINATOR: usize = 5;

/// Whether rebalancing rebuilds an internal node whose children have these
/// lengths: when either child is empty, or when either child is at least
/// `REBALANCE_RATIO_NUMERATOR / REBALANCE_RATIO_DENOMINATOR` times the other.
pub open spec fn needs_rebuild(left: nat, right: nat) -> bool {
    ||| left == 0
    ||| right == 0
    ||| left * REBALANCE_RATIO_DENOMINATOR >= right * REBALANCE_RATIO_NUMERATOR
    ||| right * REBALANCE_RATIO_DENOMINATOR >= left * REBALANCE_RATIO_NUMERATOR
}

/// Whether a ratio given as `(numerator, denominator)` is undefined or reaches
/// the rebalancing threshold.
fn ratio_reaches_threshold(ratio: Option<(usize, usize)>) -> (b: bool)
    ensures
        b == match ratio {
            None => true,
            Some((n, d)) => n * REBALANCE_RATIO_DENOMINATOR >= d * REBALANCE_RATIO_NUMERATOR,
        },
{
    match ratio {
        None => true,
        Some((n, d)) => (n as u128) * (REBALANCE_RATIO_DENOMINATOR as u128) >= (d as u128) * (
        REBALANCE_RATIO_NUMERATOR as u128),
    }
}

/// The two shapes a node can take.
enum Node {
    Leaf(String),
    Internal(Box<Rope>, Box<Rope>),
}

/// A node of a rope, and the rope that it roots. Lengths count characters.
/// Each node owns its children; a leaf owns its fragment.
pub struct Rope {
    length: usize,
    node: Node,
}

impl View for Rope {
    type V = Seq<char>;

    open spec fn view(&self) -> Seq<char> {
        self.text()
    }
}

impl Rope {
    /// The text that the rope represents: its leaves' fragments, left to right.
    pub closed spec fn text(self) -> Seq<char>
        decreases self,
    {
        match self.node {
            Node::Leaf(fragment) => fragment@,
            Node::Internal(left, right) => left.text() + right.text(),
        }
    }

    /// Whether the node holds its fragment directly.
    pub closed spec fn spec_is_leaf(self) -> bool {
        self.node is Leaf
    }

    /// The length that the node records for its subtree.
    pub closed spec fn spec_length(self) -> nat {
        self.length as nat
    }

    /// The left child of an internal node.
    pub closed spec fn left_child(self) -> Rope
        recommends
            !self.spec_is_leaf(),
    {
        match self.node {
            Node::Internal(left, _) => *left,
            Node::Leaf(_) => self,
        }
    }

    /// The right child of an internal node.
    pub closed spec fn right_child(self) -> Rope
        recommends
            !self.spec_is_leaf(),
    {
        match self.node {
            Node::Internal(_, right) => *right,
            Node::Leaf(_) => self,
        }
    }

    /// Every node records the length of the text below it.
    pub closed spec fn wf(self) -> bool
        decreases self,
    {
        match self.node {
            Node::Leaf(fragment) => self.length == fragment@.len(),
            Node::Internal(left, right) => {
                &&& left.wf()
                &&& right.wf()
                &&& self.length == left.length + right.length
            },
        }
    }

    /// The shape that construction gives a text: a leaf while a quarter of
    /// its length stays under `SPLIT_LENGTH`, else an internal node whose left
    /// child holds that quarter, each child again of this shape.
    pub closed spec fn is_canonical(self) -> bool
        decreases self,
    {
        match self.node {
            Node::Leaf(_) => self.length / 4 < SPLIT_LENGTH,
            Node::Internal(left, right) => {
                &&& self.length / 4 >= SPLIT_LENGTH
                &&& left.length == self.length / 4
                &&& left.is_canonical()
                &&& right.is_canonical()
            },
        }
    }

    /// Whether rebalancing this node succeeds: it fails on a leaf, and on a
    /// node that it descends into when a child fails.
    pub closed spec fn balance_succeeds(self) -> bool
        decreases self,
    {
        match self.node {
            Node::Leaf(_) => false,
            Node::Internal(left, right) => needs_rebuild(left.length as nat, right.length as nat) || (
            left.balance_succeeds() && right.balance_succeeds()),
        }
    }

    /// What rebalancing makes of this node: the text stays and the result is
    /// well-formed; a leaf stays as it is; a node whose children are too far
    /// apart in length is rebuilt; any other node keeps its shape and has its
    /// left child rebalanced, then its right one unless the left one failed.
    pub closed spec fn rebalanced_to(self, after: Rope) -> bool
        decreases self,
    {
        &&& after.wf()
        &&& after@ == self@
        &&& match self.node {
            Node::Leaf(_) => after == self,
            Node::Internal(left, right) => {
                if needs_rebuild(left.length as nat, right.length as nat) {
                    after.is_canonical()
                } else {
                    match after.node {
                        Node::Internal(left_after, right_after) => {
                            &&& left.rebalanced_to(*left_after)
                            &&& if left.balance_succeeds() {
                                right.rebalanced_to(*right_after)
                            } else {
                                *right_after == *right
                            }
                        },
                        Node::Leaf(_) => false,
                    }
                }
            },
        }
    }

    /// Two ropes of one shape: both leaves with the same fragment, or both
    /// internal with children of one shape, with the same recorded lengths.
    pub closed spec fn same_shape(self, other: Rope) -> bool
        decreases self,
    {
        &&& self.length == other.length
        &&& match (self.node, other.node) {
            (Node::Leaf(a), Node::Leaf(b)) => a@ == b@,
            (Node::Internal(l1, r1), Node::Internal(l2, r2)) => l1.same_shape(*l2) && r1.same_shape(
                *r2,
            ),
            _ => false,
        }
    }

    /// The recorded length of a well-formed rope is the length of its text.
    pub proof fn lemma_length_is_text_length(self)
        requires
            self.wf(),
        ensures
            self.spec_length() == self@.len(),
        decreases self,
    {
        match self.node {
            Node::Leaf(_) => {},
            Node::Internal(left, right) => {
                left.lemma_length_is_text_length();
                right.lemma_length_is_text_length();
            },
        }
    }

    /// Builds a rope from a text, splitting it as long as a quarter of a
    /// fragment reaches `SPLIT_LENGTH`.
    pub fn new(raw: &str) -> (rope: Rope)
        ensures
            rope.wf(),
            rope@ == raw@,
            rope.is_canonical(),
            rope.spec_length() == raw@.len(),
            rope.spec_is_leaf() <==> raw@.len() / 4 < SPLIT_LENGTH,
        decreases raw@.len(), 1nat,
    {
        let mut rope = Rope { length: raw.unicode_len(), node: Node::Leaf(raw.to_owned()) };
        rope.adjust();
        rope
    }

    /// Splits a leaf that is too long; joins an internal node that is short.
    fn adjust(&mut self)
        requires
            old(self).wf(),
        ensures
            final(self).wf(),
            final(self)@ == old(self)@,
            final(self).spec_length() == old(self).spec_length(),
            old(self).spec_is_leaf() ==> final(self).is_canonical(),
            !old(self).spec_is_leaf() && old(self).length <= JOIN_LENGTH ==> final(self).spec_is_leaf(),
            !old(self).spec_is_leaf() && old(self).length > JOIN_LENGTH ==> *final(self) == *old(self),
        decreases old(self).spec_length(), 0nat,
    {
        proof {
            self.lemma_length_is_text_length();
        }
        let next: Option<Node> = match &self.node {
            Node::Leaf(fragment) => {
                let length = self.length;
                let quarter = length >> 2;
                assert(quarter == length / 4) by (bit_vector)
                    requires
                        quarter == length >> 2,
                ;
                if quarter >= SPLIT_LENGTH {
                    let text = fragment.as_str();
                    let left = Rope::new(text.substring_char(0, quarter));
                    let right = Rope::new(text.substring_char(quarter, length));
                    proof {
                        left.lemma_length_is_text_length();
                        right.lemma_length_is_text_length();
                        assert(left@ + right@ =~= fragment@);
                    }
                    Some(Node::Internal(Box::new(left), Box::new(right)))
                } else {
                    None
                }
            },
            Node::Internal(left, right) => {
                if self.length <= JOIN_LENGTH {
                    let joined = left.to_string().concat(right.to_string().as_str());
                    Some(Node::Leaf(joined))
                } else {
                    None
                }
            },
        };
        if let Some(node) = next {
            self.node = node;
        }
    }

    /// Joins the whole subtree of an internal node into one fragment and
    /// adjusts it again, which may split it anew. Fails on a leaf, which it
    /// leaves as it is.
    pub fn build_tree(&mut self) -> (r: Result<(), ()>)
        requires
            old(self).wf(),
        ensures
            final(self).wf(),
            final(self)@ == old(self)@,
            r is Ok <==> !old(self).spec_is_leaf(),
            old(self).spec_is_leaf() ==> *final(self) == *old(self),
            !old(self).spec_is_leaf() ==> final(self).is_canonical(),
            !old(self).spec_is_leaf() ==> (final(self).spec_is_leaf() <==> old(self).spec_length() / 4
                < SPLIT_LENGTH),
    {
        if self.is_leaf() {
            return Err(());
        }
        proof {
            self.lemma_length_is_text_length();
        }
        let text = self.to_string();
        self.node = Node::Leaf(text);
        self.adjust();
        Ok(())
    }

    /// The ratio of the left child's length to the right child's, as
    /// `(numerator, denominator)`; `None` on a leaf or an empty right child.
    pub fn get_left_right_ratio(&self) -> (r: Option<(usize, usize)>)
        ensures
            r is Some <==> !self.spec_is_leaf() && self.right_child().spec_length() > 0,
            r matches Some((n, d)) ==> n == self.left_child().spec_length() && d
                == self.right_child().spec_length(),
    {
        match &self.node {
            Node::Leaf(_) => None,
            Node::Internal(left, right) => if right.length > 0 {
                Some((left.length, right.length))
            } else {
                None
            },
        }
    }

    /// The ratio of the right child's length to the left child's, as
    /// `(numerator, denominator)`; `None` on a leaf or an empty left child.
    pub fn get_right_left_ratio(&self) -> (r: Option<(usize, usize)>)
        ensures
            r is Some <==> !self.spec_is_leaf() && self.left_child().spec_length() > 0,
            r matches Some((n, d)) ==> n == self.right_child().spec_length() && d
                == self.left_child().spec_length(),
    {
        match &self.node {
            Node::Leaf(_) => None,
            Node::Internal(left, right) => if left.length > 0 {
                Some((right.length, left.length))
            } else {
                None
            },
        }
    }

    /// Rebalances the subtree: rebuilds a node whose children are too far
    /// apart in length, and otherwise descends into the left child and then
    /// the right one. Fails on a leaf, and passes on a child's failure.
    pub fn balance(&mut self) -> (r: Result<(), ()>)
        requires
            old(self).wf(),
        ensures
            final(self).wf(),
            final(self)@ == old(self)@,
            r is Ok <==> old(self).balance_succeeds(),
            old(self).rebalanced_to(*final(self)),
            old(self).spec_is_leaf() ==> r is Err && *final(self) == *old(self),
            old(self).is_canonical() ==> final(self).is_canonical(),
            old(self).is_canonical() && !old(self).spec_is_leaf() ==> r is Ok
                && final(self).same_shape(*old(self)),
        decreases *old(self),
    {
        proof {
            if old(self).is_canonical() && !old(self).spec_is_leaf() {
                old(self).lemma_canonical_needs_rebuild();
            }
        }
        if self.is_leaf() {
            return Err(());
        }
        let left_right = self.get_left_right_ratio();
        let right_left = self.get_right_left_ratio();
        if ratio_reaches_threshold(left_right) || ratio_reaches_threshold(right_left) {
            let r = self.build_tree();
            proof {
                if old(self).is_canonical() {
                    final(self).lemma_canonical_unique(*old(self));
                }
            }
            return r;
        }
        let mut node = Node::Leaf(String::new());
        std::mem::swap(&mut self.node, &mut node);
        match node {
            Node::Internal(mut left, mut right) => {
                let ghost left_before = *left;
                let ghost right_before = *right;
                proof {
                    left_before.lemma_length_is_text_length();
                    right_before.lemma_length_is_text_length();
                }
                let r = match (&mut *left).balance() {
                    Ok(()) => (&mut *right).balance(),
                    Err(()) => Err(()),
                };
                proof {
                    left.lemma_length_is_text_length();
                    right.lemma_length_is_text_length();
                }
                self.node = Node::Internal(left, right);
                r
            },
            Node::Leaf(fragment) => {
                self.node = Node::Leaf(fragment);
                Err(())
            },
        }
    }

    /// Whether the node holds its fragment directly.
    pub fn is_leaf(&self) -> (b: bool)
        ensures
            b == self.spec_is_leaf(),
    {
        match &self.node {
            Node::Leaf(_) => true,
            Node::Internal(_, _) => false,
        }
    }

    /// The number of characters in the rope's text.
    pub fn length(&self) -> (n: usize)
        ensures
            n == self.spec_length(),
    {
        self.length
    }

    /// The text of the rope as one string.
    pub fn to_string(&self) -> (s: String)
        ensures
            s@ == self@,
        decreases self,
    {
        match &self.node {
            Node::Leaf(fragment) => fragment.clone(),
            Node::Internal(left, right) => {
                let l = left.to_string();
                let r = right.to_string();
                l.concat(r.as_str())
            },
        }
    }
}

impl Rope {
    /// The fragment of a leaf; `None` on an internal node.
    pub closed spec fn fragment(self) -> Option<Seq<char>> {
        match self.node {
            Node::Leaf(fragment) => Some(fragment@),
            Node::Internal(_, _) => None,
        }
    }

    /// The two children of an internal node; `None` on a leaf.
    pub closed spec fn children(self) -> Option<(Rope, Rope)> {
        match self.node {
            Node::Leaf(_) => None,
            Node::Internal(left, right) => Some((*left, *right)),
        }
    }

    /// Every rope has the same shape as itself.
    pub proof fn lemma_same_shape_reflexive(self)
        ensures
            self.same_shape(self),
        decreases self,
    {
        match self.node {
            Node::Leaf(_) => {},
            Node::Internal(left, right) => {
                left.lemma_same_shape_reflexive();
                right.lemma_same_shape_reflexive();
            },
        }
    }

    /// Two well-formed ropes of the constructed shape that hold one text
    /// have one shape: construction and rebuilding depend on the text alone.
    pub proof fn lemma_canonical_unique(self, other: Rope)
        requires
            self.wf(),
            other.wf(),
            self.is_canonical(),
            other.is_canonical(),
            self@ == other@,
        ensures
            self.same_shape(other),
        decreases self,
    {
        self.lemma_length_is_text_length();
        other.lemma_length_is_text_length();
        match (self.node, other.node) {
            (Node::Internal(l1, r1), Node::Internal(l2, r2)) => {
                l1.lemma_length_is_text_length();
                l2.lemma_length_is_text_length();
                let q = l1.length as int;
                assert(l1@ =~= self@.subrange(0, q));
                assert(l2@ =~= other@.subrange(0, q));
                assert(r1@ =~= self@.subrange(q, self@.len() as int));
                assert(r2@ =~= other@.subrange(q, other@.len() as int));
                l1.lemma_canonical_unique(*l2);
                r1.lemma_canonical_unique(*r2);
            },
            _ => {},
        }
    }

    /// An internal node of the constructed shape always has children too far
    /// apart in length: its left child holds a quarter of the text.
    pub proof fn lemma_canonical_needs_rebuild(self)
        requires
            self.wf(),
            self.is_canonical(),
            !self.spec_is_leaf(),
        ensures
            needs_rebuild(self.left_child().spec_length(), self.right_child().spec_length()),
    {
        match self.node {
            Node::Internal(left, right) => {
                let n = self.length as int;
                let q = left.length as int;
                let r = right.length as int;
                assert(q == n / 4);
                assert(r >= 3 * q);
                assert(r * 5 >= q * 6);
            },
            Node::Leaf(_) => {},
        }
    }

    /// A rope that rebalancing fails on keeps failing once rebalanced.
    pub proof fn lemma_failure_persists(self, after: Rope)
        requires
            self.wf(),
            self.rebalanced_to(after),
            !self.balance_succeeds(),
        ensures
            !after.balance_succeeds(),
        decreases self,
    {
        match (self.node, after.node) {
            (Node::Internal(left, right), Node::Internal(left_after, right_after)) => {
                left.lemma_length_is_text_length();
                right.lemma_length_is_text_length();
                left_after.lemma_length_is_text_length();
                right_after.lemma_length_is_text_length();
                assert(!needs_rebuild(left.length as nat, right.length as nat));
                assert(left.rebalanced_to(*left_after));
                if left.balance_succeeds() {
                    assert(right.rebalanced_to(*right_after));
                }
                if !left.balance_succeeds() {
                    left.lemma_failure_persists(*left_after);
                } else {
                    right.lemma_failure_persists(*right_after);
                }
            },
            _ => {},
        }
    }
}

/// Flattening a rope built from a text gives that text back.
pub proof fn lemma_round_trip(raw: &str, built: Rope, flattened: String)
    requires
        built.wf(),
        built@ == raw@,
        built.is_canonical(),
        flattened@ == built@,
    ensures
        flattened@ == raw@,
{
}

/// In a well-formed rope every node records the length of its text, which
/// is the sum of its leaves' fragment lengths; a leaf records its fragment's.
pub proof fn lemma_length_invariant(rope: Rope)
    requires
        rope.wf(),
    ensures
        rope.spec_length() == rope@.len(),
        rope.fragment() matches Some(f) ==> rope.spec_length() == f.len(),
        rope.children() matches Some((l, r)) ==> rope.spec_length() == l.spec_length()
            + r.spec_length(),
{
    rope.lemma_length_is_text_length();
}

/// A node is a leaf exactly when it holds a fragment, and exactly when it
/// has no children.
pub proof fn lemma_leaf_exclusive(rope: Rope)
    ensures
        rope.spec_is_leaf() <==> rope.fragment() is Some,
        rope.spec_is_leaf() <==> rope.children() is None,
{
}

/// A rope built from a text whose quarter length reaches `SPLIT_LENGTH` is
/// an internal node, split after that quarter.
pub proof fn lemma_split_threshold(raw: &str, built: Rope)
    requires
        built.wf(),
        built@ == raw@,
        built.is_canonical(),
        raw@.len() / 4 >= SPLIT_LENGTH,
    ensures
        !built.spec_is_leaf(),
        built.left_child()@ == raw@.subrange(0, (raw@.len() / 4) as int),
        built.right_child()@ == raw@.subrange((raw@.len() / 4) as int, raw@.len() as int),
{
    built.lemma_length_is_text_length();
    built.left_child().lemma_length_is_text_length();
    let q = (raw@.len() / 4) as int;
    assert(built.left_child()@ =~= raw@.subrange(0, q));
    assert(built.right_child()@ =~= raw@.subrange(q, raw@.len() as int));
}

/// Rebuilding an internal node of at most `JOIN_LENGTH` characters gives a
/// leaf.
pub proof fn lemma_join_threshold(before: Rope, after: Rope)
    requires
        before.wf(),
        !before.spec_is_leaf(),
        before.spec_length() <= JOIN_LENGTH,
        after.wf(),
        after@ == before@,
        after.is_canonical(),
    ensures
        after.spec_is_leaf(),
{
    before.lemma_length_is_text_length();
    after.lemma_length_is_text_length();
}

/// A node joined at up to `JOIN_LENGTH` characters and adjusted again stays
/// a leaf: the join threshold lies below the split threshold's reach, so a
/// joined leaf never splits straight back.
pub proof fn lemma_hysteresis(rope: Rope)
    requires
        rope.wf(),
        rope.is_canonical(),
        rope.spec_length() <= JOIN_LENGTH,
    ensures
        rope.spec_is_leaf(),
        JOIN_LENGTH / 4 < SPLIT_LENGTH,
{
}

/// Rebalancing twice leaves the text as it was, and the second pass
/// changes no shape: it gives a rope of the first pass's shape.
pub proof fn lemma_rebalance_idempotent(rope: Rope, once: Rope, twice: Rope)
    requires
        rope.wf(),
        rope.rebalanced_to(once),
        once.rebalanced_to(twice),
    ensures
        twice@ == rope@,
        once.same_shape(twice),
    decreases rope,
{
    once.lemma_length_is_text_length();
    twice.lemma_length_is_text_length();
    match rope.node {
        Node::Leaf(_) => {
            once.lemma_same_shape_reflexive();
        },
        Node::Internal(left, right) => {
            if needs_rebuild(left.length as nat, right.length as nat) {
                if once.spec_is_leaf() {
                    once.lemma_same_shape_reflexive();
                } else {
                    once.lemma_canonical_needs_rebuild();
                    once.lemma_canonical_unique(twice);
                }
            } else {
                match once.node {
                    Node::Internal(left_once, right_once) => {
                        left.lemma_length_is_text_length();
                        right.lemma_length_is_text_length();
                        left_once.lemma_length_is_text_length();
                        assert(left.rebalanced_to(*left_once));
                        if left.balance_succeeds() {
                            assert(right.rebalanced_to(*right_once));
                        }
                        right_once.lemma_length_is_text_length();
                        assert(!needs_rebuild(left_once.length as nat, right_once.length as nat));
                        match twice.node {
                            Node::Internal(left_twice, right_twice) => {
                                assert(left_once.rebalanced_to(*left_twice));
                                lemma_rebalance_idempotent(*left, *left_once, *left_twice);
                                if left_once.balance_succeeds() {
                                    if !left.balance_succeeds() {
                                        left.lemma_failure_persists(*left_once);
                                    }
                                    assert(right.rebalanced_to(*right_once));
                                    assert(right_once.rebalanced_to(*right_twice));
                                    lemma_rebalance_idempotent(*right, *right_once, *right_twice);
                                } else {
                                    right_once.lemma_same_shape_reflexive();
                                }
                            },
                            Node::Leaf(_) => {},
                        }
                    },
                    Node::Leaf(_) => {},
                }
            }
        },
    }
}

} // verus!
