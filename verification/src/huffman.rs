//! Frequency-driven Huffman coding over the byte alphabet.
//!
//! The tree lives in an arena: nodes are addressed by index, children are
//! stored as indices, and every child's index is strictly below its
//! parent's, so walks and proofs descend along indices. The tree built from
//! a frequency table is a pure function of that table — the merge order
//! breaks frequency ties deterministically by age, oldest node first — so
//! an encoder and a decoder that start from the same counts always
//! reconstruct the same tree.

use crate::bitstream::{bits_msb_first, nth_bit, nth_bit32};
use crate::errors::{CodecError, CodecErrorKind};
use vstd::prelude::*;

verus! {

/// One arena slot: a leaf carrying a byte value, or a branch holding the
/// indices of its two children. `address` and `length` are the node's
/// Huffman code and code length once codes have been assigned.
#[derive(Clone, Copy, PartialEq, Eq, Structural, Debug)]
pub struct Node {
    /// Whether the node is a leaf; a leaf's value is read, a branch's
    /// children are followed.
    pub leaf: bool,
    /// The byte a leaf stands for; meaningless on branches.
    pub value: u8,
    /// The leaf's occurrence count, or the saturating sum of the children's.
    pub frequency: u32,
    /// The code leading to this node: the path from the root, one bit per
    /// step, 0 for left and 1 for right, most-significant bit first.
    pub address: u32,
    /// How many bits of `address` are in use.
    pub length: usize,
    /// The left child's arena index.
    pub left: Option<usize>,
    /// The right child's arena index.
    pub right: Option<usize>,
}

impl Node {
    /// Creates an empty node: not a leaf, zero value, frequency and code,
    /// no children.
    pub fn new() -> (r: Self)
        ensures
            r == (Node {
                leaf: false,
                value: 0,
                frequency: 0,
                address: 0,
                length: 0,
                left: None,
                right: None,
            }),
    {
        Node { leaf: false, value: 0, frequency: 0, address: 0, length: 0, left: None, right: None }
    }
}

impl Default for Node {
    /// An empty node, exactly as `new` builds it.
    fn default() -> (r: Self)
        ensures
            r == (Node {
                leaf: false,
                value: 0,
                frequency: 0,
                address: 0,
                length: 0,
                left: None,
                right: None,
            }),
    {
        Self::new()
    }
}

/// A structurally sound subtree rooted at index `i`: every branch has two
/// children, both stored strictly below their parent in the arena.
pub open spec fn subtree_wf(nodes: Seq<Node>, i: int) -> bool
    decreases i,
{
    if 0 <= i < nodes.len() {
        let n = nodes[i];
        if n.leaf {
            n.left is None && n.right is None
        } else {
            match (n.left, n.right) {
                (Some(l), Some(r)) => {
                    if (l as int) < i && (r as int) < i {
                        subtree_wf(nodes, l as int) && subtree_wf(nodes, r as int)
                    } else {
                        false
                    }
                },
                _ => false,
            }
        }
    } else {
        false
    }
}

/// The height of the subtree at `i`: 0 for a leaf, one more than the taller
/// child for a branch.
pub open spec fn spec_height(nodes: Seq<Node>, i: int) -> int
    decreases i,
{
    if 0 <= i < nodes.len() {
        let n = nodes[i];
        if n.leaf {
            0
        } else {
            match (n.left, n.right) {
                (Some(l), Some(r)) => {
                    if (l as int) < i && (r as int) < i {
                        let hl = spec_height(nodes, l as int);
                        let hr = spec_height(nodes, r as int);
                        1 + if hl > hr {
                            hl
                        } else {
                            hr
                        }
                    } else {
                        0
                    }
                },
                _ => 0,
            }
        }
    } else {
        0
    }
}

/// A height is never negative.
proof fn lemma_height_nonneg(nodes: Seq<Node>, i: int)
    ensures
        spec_height(nodes, i) >= 0,
    decreases i,
{
    if 0 <= i < nodes.len() {
        let n = nodes[i];
        if !n.leaf {
            match (n.left, n.right) {
                (Some(l), Some(r)) => {
                    if (l as int) < i && (r as int) < i {
                        lemma_height_nonneg(nodes, l as int);
                        lemma_height_nonneg(nodes, r as int);
                    }
                },
                _ => {},
            }
        }
    }
}

/// Two nodes agree on everything but their assigned code.
pub open spec fn same_shape(a: Node, b: Node) -> bool {
    &&& a.leaf == b.leaf
    &&& a.value == b.value
    &&& a.frequency == b.frequency
    &&& a.left == b.left
    &&& a.right == b.right
}

/// Two arenas agree node-for-node on everything but assigned codes.
pub open spec fn same_shapes(n1: Seq<Node>, n2: Seq<Node>) -> bool {
    &&& n1.len() == n2.len()
    &&& forall|j: int| 0 <= j < n1.len() ==> same_shape(n1[j], n2[j])
}

/// Well-formedness only reads the shape, so it carries across arenas of
/// equal shape.
proof fn lemma_same_shapes_wf(n1: Seq<Node>, n2: Seq<Node>, i: int)
    requires
        same_shapes(n1, n2),
        subtree_wf(n1, i),
    ensures
        subtree_wf(n2, i),
    decreases i,
{
    let n = n1[i];
    if !n.leaf {
        match (n.left, n.right) {
            (Some(l), Some(r)) => {
                lemma_same_shapes_wf(n1, n2, l as int);
                lemma_same_shapes_wf(n1, n2, r as int);
            },
            _ => {},
        }
    }
}

/// Height only reads the shape, so it carries across arenas of equal shape.
proof fn lemma_same_shapes_height(n1: Seq<Node>, n2: Seq<Node>, i: int)
    requires
        same_shapes(n1, n2),
        0 <= i < n1.len(),
    ensures
        spec_height(n2, i) == spec_height(n1, i),
    decreases i,
{
    let n = n1[i];
    if !n.leaf {
        match (n.left, n.right) {
            (Some(l), Some(r)) => {
                if (l as int) < i && (r as int) < i {
                    lemma_same_shapes_height(n1, n2, l as int);
                    lemma_same_shapes_height(n1, n2, r as int);
                }
            },
            _ => {},
        }
    }
}

/// A well-formed subtree stays well-formed when the arena grows on the
/// right, since it only mentions indices at or below its root.
proof fn lemma_wf_prefix(nodes: Seq<Node>, ext: Seq<Node>, i: int)
    requires
        subtree_wf(nodes, i),
        nodes.len() <= ext.len(),
        forall|j: int| 0 <= j < nodes.len() ==> ext[j] == nodes[j],
    ensures
        subtree_wf(ext, i),
    decreases i,
{
    let n = nodes[i];
    if !n.leaf {
        match (n.left, n.right) {
            (Some(l), Some(r)) => {
                lemma_wf_prefix(nodes, ext, l as int);
                lemma_wf_prefix(nodes, ext, r as int);
            },
            _ => {},
        }
    }
}

/// A leaf seeded for byte value `v` with frequency `f`.
pub open spec fn spec_leaf(v: int, f: u32) -> Node {
    Node {
        leaf: true,
        value: v as u8,
        frequency: f,
        address: 0,
        length: 0,
        left: None,
        right: None,
    }
}

/// One leaf per byte value, in value order.
pub open spec fn spec_initial_nodes(freqs: Seq<u32>) -> Seq<Node> {
    Seq::new(freqs.len(), |v: int| spec_leaf(v, freqs[v]))
}

/// The initial worklist: every leaf index, oldest first.
pub open spec fn spec_initial_active(n: int) -> Seq<usize> {
    Seq::new(n as nat, |i: int| i as usize)
}

/// Saturating frequency addition, as branch frequencies use it.
pub open spec fn sat_add(a: u32, b: u32) -> u32 {
    if a + b > u32::MAX {
        u32::MAX
    } else {
        (a + b) as u32
    }
}

/// The position, in the worklist, of the lowest-frequency node, scanning
/// from `j` with `best` the best position seen so far; a tie keeps the
/// earlier position, which is the older node.
pub open spec fn spec_scan_min(nodes: Seq<Node>, active: Seq<usize>, j: int, best: int) -> int
    decreases active.len() - j,
{
    if j < 0 || j >= active.len() {
        best
    } else {
        let nb = if nodes[active[j] as int].frequency < nodes[active[best] as int].frequency {
            j
        } else {
            best
        };
        spec_scan_min(nodes, active, j + 1, nb)
    }
}

/// One merge round: pop the two lowest-frequency roots — oldest first on
/// ties — and push a branch over them, the earlier pop as the left child.
pub open spec fn spec_merge_step(nodes: Seq<Node>, active: Seq<usize>) -> (Seq<Node>, Seq<usize>) {
    let p1 = spec_scan_min(nodes, active, 1, 0);
    let a = active[p1];
    let active1 = active.remove(p1);
    let p2 = spec_scan_min(nodes, active1, 1, 0);
    let b = active1[p2];
    let active2 = active1.remove(p2);
    let parent = Node {
        leaf: false,
        value: 0,
        frequency: sat_add(nodes[a as int].frequency, nodes[b as int].frequency),
        address: 0,
        length: 0,
        left: Some(a),
        right: Some(b),
    };
    (nodes.push(parent), active2.push(nodes.len() as usize))
}

/// The scan never leaves the worklist: its result is a valid position.
proof fn lemma_scan_min_in_range(nodes: Seq<Node>, active: Seq<usize>, j: int, best: int)
    requires
        0 <= best < active.len(),
        0 <= j,
    ensures
        0 <= spec_scan_min(nodes, active, j, best) < active.len(),
    decreases active.len() - j,
{
    if j < active.len() {
        let nb = if nodes[active[j] as int].frequency < nodes[active[best] as int].frequency {
            j
        } else {
            best
        };
        lemma_scan_min_in_range(nodes, active, j + 1, nb);
    }
}

/// Merging until a single root remains.
pub open spec fn spec_build(nodes: Seq<Node>, active: Seq<usize>) -> (Seq<Node>, Seq<usize>)
    decreases active.len(),
    via spec_build_decreases
{
    if active.len() <= 1 {
        (nodes, active)
    } else {
        let step = spec_merge_step(nodes, active);
        spec_build(step.0, step.1)
    }
}

#[via_fn]
proof fn spec_build_decreases(nodes: Seq<Node>, active: Seq<usize>) {
    if active.len() > 1 {
        lemma_scan_min_in_range(nodes, active, 1, 0);
        let p1 = spec_scan_min(nodes, active, 1, 0);
        let active1 = active.remove(p1);
        lemma_scan_min_in_range(nodes, active1, 1, 0);
    }
}

/// The arena the byte-alphabet tree build produces for these frequencies,
/// before codes are assigned.
pub open spec fn spec_tree_nodes(freqs: Seq<u32>) -> Seq<Node> {
    spec_build(spec_initial_nodes(freqs), spec_initial_active(freqs.len() as int)).0
}

/// The root index of that tree.
pub open spec fn spec_tree_root(freqs: Seq<u32>) -> int {
    spec_build(spec_initial_nodes(freqs), spec_initial_active(freqs.len() as int)).1[0] as int
}

/// Code assignment by traversal from `i`: the node keeps `addr`/`len`, a
/// left child appends a 0 bit, a right child a 1 bit.
pub open spec fn spec_assign(nodes: Seq<Node>, i: int, addr: u32, len: usize) -> Seq<Node>
    decreases i,
{
    if 0 <= i < nodes.len() {
        let n = nodes[i];
        let upd = Node {
            leaf: n.leaf,
            value: n.value,
            frequency: n.frequency,
            address: addr,
            length: len,
            left: n.left,
            right: n.right,
        };
        let base = nodes.update(i, upd);
        if n.leaf {
            base
        } else {
            match (n.left, n.right) {
                (Some(l), Some(r)) => {
                    if (l as int) < i && (r as int) < i {
                        let after_left = spec_assign(base, l as int, addr << 1, (len + 1) as usize);
                        spec_assign(after_left, r as int, (addr << 1) | 1, (len + 1) as usize)
                    } else {
                        base
                    }
                },
                _ => base,
            }
        }
    } else {
        nodes
    }
}

/// Assigning codes never changes any node's shape.
proof fn lemma_assign_shape(nodes: Seq<Node>, i: int, addr: u32, len: usize)
    ensures
        same_shapes(nodes, spec_assign(nodes, i, addr, len)),
    decreases i,
{
    if 0 <= i < nodes.len() {
        let n = nodes[i];
        let upd = Node {
            leaf: n.leaf,
            value: n.value,
            frequency: n.frequency,
            address: addr,
            length: len,
            left: n.left,
            right: n.right,
        };
        let base = nodes.update(i, upd);
        assert(same_shapes(nodes, base));
        if !n.leaf {
            match (n.left, n.right) {
                (Some(l), Some(r)) => {
                    if (l as int) < i && (r as int) < i {
                        let after_left = spec_assign(base, l as int, addr << 1, (len + 1) as usize);
                        lemma_assign_shape(base, l as int, addr << 1, (len + 1) as usize);
                        lemma_assign_shape(
                            after_left,
                            r as int,
                            (addr << 1) | 1,
                            (len + 1) as usize,
                        );
                    }
                },
                _ => {},
            }
        }
    }
}

/// The arena with codes assigned from the root, for these frequencies.
pub open spec fn spec_coded_nodes(freqs: Seq<u32>) -> Seq<Node> {
    spec_assign(spec_tree_nodes(freqs), spec_tree_root(freqs), 0, 0)
}

/// When the subtree's depth fits the budget, every code length the
/// assignment writes stays within 32 bits — and untouched nodes keep the
/// lengths they had.
proof fn lemma_assign_lengths_bounded(nodes: Seq<Node>, i: int, addr: u32, len: usize)
    requires
        subtree_wf(nodes, i),
        len + spec_height(nodes, i) <= 32,
        forall|j: int| 0 <= j < nodes.len() ==> (#[trigger] nodes[j]).length <= 32,
    ensures
        forall|j: int|
            0 <= j < nodes.len() ==> (#[trigger] spec_assign(nodes, i, addr, len)[j]).length
                <= 32,
    decreases i,
{
    let n = nodes[i];
    let upd = Node {
        leaf: n.leaf,
        value: n.value,
        frequency: n.frequency,
        address: addr,
        length: len,
        left: n.left,
        right: n.right,
    };
    let base = nodes.update(i, upd);
    if !n.leaf {
        match (n.left, n.right) {
            (Some(l), Some(r)) => {
                lemma_height_nonneg(nodes, l as int);
                lemma_height_nonneg(nodes, r as int);
                assert(same_shapes(nodes, base));
                lemma_same_shapes_wf(nodes, base, l as int);
                lemma_same_shapes_wf(nodes, base, r as int);
                lemma_same_shapes_height(nodes, base, l as int);
                lemma_same_shapes_height(nodes, base, r as int);
                lemma_assign_lengths_bounded(base, l as int, addr << 1, (len + 1) as usize);
                let after_left = spec_assign(base, l as int, addr << 1, (len + 1) as usize);
                lemma_assign_shape(base, l as int, addr << 1, (len + 1) as usize);
                lemma_same_shapes_wf(nodes, after_left, r as int);
                lemma_same_shapes_height(nodes, after_left, r as int);
                lemma_assign_lengths_bounded(
                    after_left,
                    r as int,
                    (addr << 1) | 1,
                    (len + 1) as usize,
                );
            },
            _ => {},
        }
    }
}

/// A byte-alphabet Huffman tree: the arena, its root, and whether every
/// code fit the 32-bit address word when codes were assigned.
pub struct HuffmanTree {
    /// The arena; leaves for byte values sit at indices 0 to 255.
    pub nodes: Vec<Node>,
    /// The root's arena index.
    pub root: usize,
    /// Whether codes were assigned: true exactly when the tree's height is
    /// at most 32.
    pub codes_ok: bool,
}

impl HuffmanTree {
    /// The arena holds a structurally sound tree under the root.
    pub open spec fn wf(&self) -> bool {
        subtree_wf(self.nodes@, self.root as int)
    }
}

/// The position of the lowest-frequency entry of the worklist, oldest
/// entry first on ties.
fn find_min(nodes: &Vec<Node>, active: &Vec<usize>) -> (r: usize)
    requires
        active@.len() >= 1,
        forall|k: int| 0 <= k < active@.len() ==> (active@[k] as int) < nodes@.len(),
    ensures
        r < active@.len(),
        r as int == spec_scan_min(nodes@, active@, 1, 0),
{
    let mut best: usize = 0;
    let mut j: usize = 1;
    while j < active.len()
        invariant
            1 <= j <= active@.len(),
            best < j,
            forall|k: int| 0 <= k < active@.len() ==> (active@[k] as int) < nodes@.len(),
            spec_scan_min(nodes@, active@, j as int, best as int) == spec_scan_min(
                nodes@,
                active@,
                1,
                0,
            ),
        decreases active@.len() - j,
    {
        let aj: usize = active[j];
        let ab: usize = active[best];
        if nodes[aj].frequency < nodes[ab].frequency {
            best = j;
        }
        j = j + 1;
    }
    best
}

/// The height of the subtree at `i`, measured in edges.
fn tree_height(nodes: &Vec<Node>, i: usize) -> (r: usize)
    requires
        subtree_wf(nodes@, i as int),
    ensures
        r == spec_height(nodes@, i as int),
        r <= i,
    decreases i,
{
    let n: Node = nodes[i];
    if n.leaf {
        0
    } else {
        match (n.left, n.right) {
            (Some(l), Some(rr)) => {
                let hl: usize = tree_height(nodes, l);
                let hr: usize = tree_height(nodes, rr);
                let m: usize = if hl > hr {
                    hl
                } else {
                    hr
                };
                m + 1
            },
            _ => 0,
        }
    }
}

/// Walks the subtree at `i`, storing each node's code: `addr` of `len`
/// bits here, one more trailing 0 or 1 bit below.
fn assign_codes(nodes: &mut Vec<Node>, i: usize, addr: u32, len: u8)
    requires
        subtree_wf(old(nodes)@, i as int),
        len <= 32,
        len + spec_height(old(nodes)@, i as int) <= 32,
        len < 32 ==> addr < (1u32 << (len as u32)),
    ensures
        final(nodes)@ == spec_assign(old(nodes)@, i as int, addr, len as usize),
    decreases i,
{
    let n: Node = nodes[i];
    let mut upd: Node = n;
    upd.address = addr;
    upd.length = len as usize;
    nodes[i] = upd;
    let ghost base = nodes@;
    if !n.leaf {
        match (n.left, n.right) {
            (Some(l), Some(rr)) => {
                proof {
                    lemma_height_nonneg(old(nodes)@, l as int);
                    lemma_height_nonneg(old(nodes)@, rr as int);
                    let hl = spec_height(old(nodes)@, l as int);
                    let hr = spec_height(old(nodes)@, rr as int);
                    assert(spec_height(old(nodes)@, i as int) == 1 + if hl > hr {
                        hl
                    } else {
                        hr
                    });
                    assert(same_shapes(old(nodes)@, base));
                    lemma_same_shapes_wf(old(nodes)@, base, l as int);
                    lemma_same_shapes_wf(old(nodes)@, base, rr as int);
                    lemma_same_shapes_height(old(nodes)@, base, l as int);
                    lemma_same_shapes_height(old(nodes)@, base, rr as int);
                    if len < 31 {
                        assert((addr << 1) < (1u32 << ((len + 1) as u32)) && ((addr << 1) | 1) < (
                        1u32 << ((len + 1) as u32))) by (bit_vector)
                            requires
                                addr < (1u32 << (len as u32)),
                                len < 31,
                        ;
                    }
                }
                assign_codes(nodes, l, addr << 1, len + 1);
                proof {
                    lemma_assign_shape(base, l as int, addr << 1, (len + 1) as usize);
                    assert(same_shapes(old(nodes)@, nodes@));
                    lemma_same_shapes_wf(old(nodes)@, nodes@, rr as int);
                    lemma_same_shapes_height(old(nodes)@, nodes@, rr as int);
                }
                assign_codes(nodes, rr, (addr << 1) | 1, len + 1);
                proof {
                    lemma_assign_shape(
                        spec_assign(base, l as int, addr << 1, (len + 1) as usize),
                        rr as int,
                        (addr << 1) | 1,
                        (len + 1) as usize,
                    );
                }
            },
            _ => {
                proof {
                    assert(false);
                }
            },
        }
    }
}

/// Some worklist root's subtree holds index `v`.
pub open spec fn covered(nodes: Seq<Node>, active: Seq<usize>, v: int) -> bool {
    exists|x: usize| active.contains(x) && in_subtree(nodes, x as int, v)
}

/// Every byte value's leaf lies under the root.
#[verifier::opaque]
pub open spec fn leaves_reachable(nodes: Seq<Node>, root: int) -> bool {
    forall|v: int| 0 <= v < 256 ==> in_subtree(nodes, root, v)
}

/// Removing one position keeps every other value present.
proof fn lemma_remove_keeps_others(s: Seq<usize>, p: int, x: usize)
    requires
        0 <= p < s.len(),
        s.contains(x),
        s[p] != x,
    ensures
        s.remove(p).contains(x),
{
    let w = choose|w: int| 0 <= w < s.len() && s[w] == x;
    if w < p {
        assert(s.remove(p)[w] == x);
    } else {
        assert(s.remove(p)[w - 1] == x);
    }
}

/// Every branch of a built tree carries the saturating sum of its two
/// children's frequencies, and both children sit below it in the arena.
#[verifier::opaque]
pub open spec fn branch_freqs_consistent(nodes: Seq<Node>) -> bool {
    forall|j: int|
        256 <= j < nodes.len() ==> ((#[trigger] nodes[j]).left matches Some(l)
            && nodes[j].right matches Some(rt) && (l as int) < j && (rt as int) < j
            && nodes[j].frequency == sat_add(
            nodes[l as int].frequency,
            nodes[rt as int].frequency,
        ))
}

/// Builds the byte-alphabet tree for a 256-entry frequency table: one leaf
/// per byte value, merged lowest-frequency-first with ties broken oldest
/// first, then codes assigned from the root. The result is a pure function
/// of the frequencies, so encoder and decoder rebuild identical trees.
pub fn create_huffman_tree(frequencies: &Vec<u32>) -> (r: HuffmanTree)
    requires
        frequencies@.len() == 256,
    ensures
        r.wf(),
        r.nodes@.len() == 511,
        r.root as int == spec_tree_root(frequencies@),
        r.codes_ok == (spec_height(spec_tree_nodes(frequencies@), spec_tree_root(frequencies@))
            <= 32),
        r.codes_ok ==> r.nodes@ == spec_coded_nodes(frequencies@),
        !r.codes_ok ==> r.nodes@ == spec_tree_nodes(frequencies@),
        forall|v: int|
            0 <= v < 256 ==> {
                &&& (#[trigger] r.nodes@[v]).leaf
                &&& r.nodes@[v].value == v
                &&& r.nodes@[v].frequency == frequencies@[v]
            },
        forall|j: int| 0 <= j < 511 ==> (#[trigger] r.nodes@[j]).length <= 32,
        branch_freqs_consistent(r.nodes@),
        leaves_reachable(r.nodes@, r.root as int),
{
    let mut nodes: Vec<Node> = Vec::new();
    let mut active: Vec<usize> = Vec::new();
    let mut v: usize = 0;
    while v < 256
        invariant
            v <= 256,
            frequencies@.len() == 256,
            nodes@ == spec_initial_nodes(frequencies@).take(v as int),
            active@ == spec_initial_active(256).take(v as int),
        decreases 256 - v,
    {
        nodes.push(
            Node {
                leaf: true,
                value: v as u8,
                frequency: frequencies[v],
                address: 0,
                length: 0,
                left: None,
                right: None,
            },
        );
        active.push(v);
        proof {
            assert(nodes@ =~= spec_initial_nodes(frequencies@).take(v + 1));
            assert(active@ =~= spec_initial_active(256).take(v + 1));
        }
        v = v + 1;
    }
    proof {
        assert(nodes@ =~= spec_initial_nodes(frequencies@));
        assert(active@ =~= spec_initial_active(256));
        assert forall|k: int| 0 <= k < active@.len() implies {
            &&& (active@[k] as int) < nodes@.len()
            &&& subtree_wf(nodes@, active@[k] as int)
        } by {
            assert(nodes@[k].leaf);
        }
        assert forall|v2: int| 0 <= v2 < 256 implies covered(nodes@, active@, v2) by {
            assert(active@[v2] == v2 as usize);
            assert(active@.contains(v2 as usize));
            assert(in_subtree(nodes@, v2, v2));
        }
    }
    let ghost init_nodes = nodes@;
    let ghost init_active = active@;
    while active.len() > 1
        invariant
            frequencies@.len() == 256,
            init_nodes == spec_initial_nodes(frequencies@),
            init_active == spec_initial_active(256),
            1 <= active@.len() <= 256,
            nodes@.len() == 256 + (256 - active@.len()),
            spec_build(nodes@, active@) == spec_build(init_nodes, init_active),
            forall|k: int|
                0 <= k < active@.len() ==> (active@[k] as int) < nodes@.len() && subtree_wf(
                    nodes@,
                    #[trigger] active@[k] as int,
                ),
            forall|j: int| 0 <= j < 256 ==> nodes@[j] == init_nodes[j],
            forall|j: int| 256 <= j < nodes@.len() ==> !(#[trigger] nodes@[j]).leaf,
            forall|j: int| 0 <= j < nodes@.len() ==> (#[trigger] nodes@[j]).length == 0,
            forall|j: int|
                256 <= j < nodes@.len() ==> ((#[trigger] nodes@[j]).left matches Some(l)
                    && nodes@[j].right matches Some(rt) && (l as int) < j && (rt as int) < j
                    && nodes@[j].frequency == sat_add(
                    nodes@[l as int].frequency,
                    nodes@[rt as int].frequency,
                )),
            forall|v2: int| 0 <= v2 < 256 ==> #[trigger] covered(nodes@, active@, v2),
        decreases active@.len(),
    {
        let ghost nodes_before = nodes@;
        let ghost active_before = active@;
        let p1: usize = find_min(&nodes, &active);
        let a: usize = active.remove(p1);
        let p2: usize = find_min(&nodes, &active);
        let b: usize = active.remove(p2);
        let fa: u32 = nodes[a].frequency;
        let fb: u32 = nodes[b].frequency;
        let fsum: u32 = if fa > u32::MAX - fb {
            u32::MAX
        } else {
            fa + fb
        };
        let parent = Node {
            leaf: false,
            value: 0,
            frequency: fsum,
            address: 0,
            length: 0,
            left: Some(a),
            right: Some(b),
        };
        let pidx: usize = nodes.len();
        nodes.push(parent);
        active.push(pidx);
        proof {
            assert(spec_merge_step(nodes_before, active_before) == (nodes@, active@));
            assert(spec_build(nodes_before, active_before) == spec_build(nodes@, active@));
            assert forall|k: int| 0 <= k < active@.len() implies (active@[k] as int)
                < nodes@.len() && subtree_wf(nodes@, #[trigger] active@[k] as int) by {
                let idx = active@[k] as int;
                if k < active@.len() - 1 {
                    lemma_wf_prefix(nodes_before, nodes@, idx);
                } else {
                    lemma_wf_prefix(nodes_before, nodes@, a as int);
                    lemma_wf_prefix(nodes_before, nodes@, b as int);
                }
            }
            assert forall|v2: int| 0 <= v2 < 256 implies covered(nodes@, active@, v2) by {
                assert(covered(nodes_before, active_before, v2));
                let x = choose|x: usize|
                    active_before.contains(x) && in_subtree(nodes_before, x as int, v2);
                assert(active_before.contains(x) && in_subtree(nodes_before, x as int, v2));
                let kx = choose|kx: int|
                    0 <= kx < active_before.len() && active_before[kx] == x;
                assert(0 <= kx < active_before.len() && active_before[kx] == x);
                assert((active_before[kx] as int) < nodes_before.len());
                if x == a || x == b {
                    lemma_in_subtree_prefix(nodes_before, nodes@, x as int, v2);
                    assert(in_subtree(nodes@, pidx as int, v2));
                    assert(active@[active@.len() - 1] == pidx);
                    assert(active@.contains(pidx));
                } else {
                    lemma_remove_keeps_others(active_before, p1 as int, x);
                    let active1 = active_before.remove(p1 as int);
                    lemma_remove_keeps_others(active1, p2 as int, x);
                    let rm2 = active1.remove(p2 as int);
                    assert(active@ == rm2.push(pidx));
                    let wx = choose|wx: int| 0 <= wx < rm2.len() && rm2[wx] == x;
                    assert(active@[wx] == x);
                    assert(active@.contains(x));
                    lemma_in_subtree_prefix(nodes_before, nodes@, x as int, v2);
                }
            }
        }
    }
    let root: usize = active[0];
    let h: usize = tree_height(&nodes, root);
    proof {
        assert(spec_build(nodes@, active@) == (nodes@, active@));
        assert(spec_tree_nodes(frequencies@) == nodes@);
        assert(spec_tree_root(frequencies@) == root as int);
        assert forall|v2: int| 0 <= v2 < 256 implies in_subtree(nodes@, root as int, v2) by {
            assert(covered(nodes@, active@, v2));
            let x = choose|x: usize| active@.contains(x) && in_subtree(nodes@, x as int, v2);
            assert(active@.contains(x) && in_subtree(nodes@, x as int, v2));
            let kx = choose|kx: int| 0 <= kx < active@.len() && active@[kx] == x;
            assert(0 <= kx < active@.len() && active@[kx] == x);
            assert(kx == 0);
            assert(x == root);
        }
        assert(leaves_reachable(nodes@, root as int)) by {
            reveal(leaves_reachable);
        }
    }
    if h <= 32 {
        proof {
            assert((1u32 << 0u32) == 1) by (bit_vector);
            lemma_assign_lengths_bounded(nodes@, root as int, 0, 0);
        }
        assign_codes(&mut nodes, root, 0, 0);
        proof {
            lemma_assign_shape(spec_tree_nodes(frequencies@), root as int, 0, 0);
            lemma_same_shapes_wf(spec_tree_nodes(frequencies@), nodes@, root as int);
            assert forall|v: int| 0 <= v < 256 implies {
                &&& (#[trigger] nodes@[v]).leaf
                &&& nodes@[v].value == v
                &&& nodes@[v].frequency == frequencies@[v]
            } by {
                assert(same_shape(spec_tree_nodes(frequencies@)[v], nodes@[v]));
                assert(spec_tree_nodes(frequencies@)[v] == init_nodes[v]);
                assert(init_nodes[v] == spec_leaf(v, frequencies@[v]));
            }
            assert(leaves_reachable(nodes@, root as int)) by {
                reveal(leaves_reachable);
                assert forall|v2: int| 0 <= v2 < 256 implies in_subtree(
                    nodes@,
                    root as int,
                    v2,
                ) by {
                    lemma_same_shapes_in_subtree(
                        spec_tree_nodes(frequencies@),
                        nodes@,
                        root as int,
                        v2,
                    );
                    assert(in_subtree(spec_tree_nodes(frequencies@), root as int, v2)) by {
                        reveal(leaves_reachable);
                    }
                }
            }
            assert(branch_freqs_consistent(nodes@)) by {
                reveal(branch_freqs_consistent);
                assert forall|j: int|
                    256 <= j < nodes@.len() implies ((#[trigger] nodes@[j]).left matches Some(l)
                        && nodes@[j].right matches Some(rt) && (l as int) < j && (rt as int) < j
                        && nodes@[j].frequency == sat_add(
                        nodes@[l as int].frequency,
                        nodes@[rt as int].frequency,
                    )) by {
                    assert(same_shape(spec_tree_nodes(frequencies@)[j], nodes@[j]));
                    let pre = spec_tree_nodes(frequencies@)[j];
                    match (pre.left, pre.right) {
                        (Some(l), Some(rt)) => {
                            assert(same_shape(
                                spec_tree_nodes(frequencies@)[l as int],
                                nodes@[l as int],
                            ));
                            assert(same_shape(
                                spec_tree_nodes(frequencies@)[rt as int],
                                nodes@[rt as int],
                            ));
                        },
                        _ => {},
                    }
                }
            }
        }
        HuffmanTree { nodes, root, codes_ok: true }
    } else {
        proof {
            assert forall|v: int| 0 <= v < 256 implies {
                &&& (#[trigger] nodes@[v]).leaf
                &&& nodes@[v].value == v
                &&& nodes@[v].frequency == frequencies@[v]
            } by {
                assert(nodes@[v] == init_nodes[v]);
                assert(init_nodes[v] == spec_leaf(v, frequencies@[v]));
            }
            assert(branch_freqs_consistent(nodes@)) by {
                reveal(branch_freqs_consistent);
            }
        }
        HuffmanTree { nodes, root, codes_ok: false }
    }
}

/// How often byte value `v` occurs in `s`, saturating at the largest count
/// a 32-bit frequency can hold.
pub open spec fn sat_count(s: Seq<u8>, v: int) -> int
    decreases s.len(),
{
    if s.len() == 0 {
        0
    } else {
        let p = sat_count(s.drop_last(), v);
        if s.last() == v {
            if p >= u32::MAX {
                p
            } else {
                p + 1
            }
        } else {
            p
        }
    }
}

/// The 256-entry frequency table of a byte buffer.
pub open spec fn spec_freqs_of(s: Seq<u8>) -> Seq<u32> {
    Seq::new(256, |v: int| sat_count(s, v) as u32)
}

/// The little-endian 32-bit value stored at byte offset `off`.
pub open spec fn le_u32_at(bytes: Seq<u8>, off: int) -> int {
    bytes[off] + 256 * (bytes[off + 1] as int) + 65536 * (bytes[off + 2] as int) + 16777216 * (
    bytes[off + 3] as int)
}

/// The 256 frequencies serialized at the front of an encoded buffer.
pub open spec fn spec_parsed_freqs(bytes: Seq<u8>) -> Seq<u32> {
    Seq::new(256, |v: int| le_u32_at(bytes, 4 * v) as u32)
}

/// The total symbol count a frequency table declares.
pub open spec fn spec_sum_freqs(freqs: Seq<u32>) -> int
    decreases freqs.len(),
{
    if freqs.len() == 0 {
        0
    } else {
        spec_sum_freqs(freqs.drop_last()) + freqs.last()
    }
}

/// The bits of a byte buffer read most-significant bit of each byte first,
/// the order this coder packs and walks its code stream in.
pub open spec fn msb_bits(bytes: Seq<u8>) -> Seq<bool> {
    Seq::new(8 * bytes.len(), |i: int| nth_bit(bytes[i / 8], (7 - i % 8) as u8))
}

/// The code of the leaf for byte value `v`, most-significant bit first.
pub open spec fn symbol_bits(nodes: Seq<Node>, v: int) -> Seq<bool> {
    bits_msb_first(nodes[v].address, nodes[v].length as nat)
}

/// The concatenated codes of a whole input.
pub open spec fn encoded_bits(nodes: Seq<Node>, input: Seq<u8>) -> Seq<bool>
    decreases input.len(),
{
    if input.len() == 0 {
        Seq::<bool>::empty()
    } else {
        encoded_bits(nodes, input.drop_last()) + symbol_bits(nodes, input.last() as int)
    }
}

/// What a decode walk yields: the decoded bytes, or the way it failed —
/// the bits ran out before the declared count, or the walk fell off a
/// branch with a missing child.
pub enum DecodeOutcome {
    /// All declared symbols were decoded.
    Done(Seq<u8>),
    /// The bit stream ended first.
    Truncated,
    /// A branch was missing the child the next bit asked for.
    BadTree,
}

/// Prefixes the decoded bytes of a successful outcome.
pub open spec fn prepend_outcome(prefix: Seq<u8>, o: DecodeOutcome) -> DecodeOutcome {
    match o {
        DecodeOutcome::Done(s) => DecodeOutcome::Done(prefix + s),
        other => other,
    }
}

/// Conses one decoded byte onto a successful outcome.
pub open spec fn cons_outcome(v: u8, o: DecodeOutcome) -> DecodeOutcome {
    match o {
        DecodeOutcome::Done(s) => DecodeOutcome::Done(seq![v] + s),
        other => other,
    }
}

/// The decode walk: from node `cur`, each bit steps left on 0 and right on
/// 1; reaching a leaf emits its value and restarts at the root, until
/// `count` symbols are out.
pub open spec fn walk_decode(
    nodes: Seq<Node>,
    root: int,
    cur: int,
    bits: Seq<bool>,
    count: int,
) -> DecodeOutcome
    decreases bits.len(),
{
    if count <= 0 {
        DecodeOutcome::Done(Seq::<u8>::empty())
    } else if bits.len() == 0 {
        DecodeOutcome::Truncated
    } else {
        let n = nodes[cur];
        let child = if bits[0] {
            n.right
        } else {
            n.left
        };
        match child {
            None => DecodeOutcome::BadTree,
            Some(ci) => {
                let m = nodes[ci as int];
                if m.leaf {
                    cons_outcome(
                        m.value,
                        walk_decode(nodes, root, root, bits.skip(1), count - 1),
                    )
                } else {
                    walk_decode(nodes, root, ci as int, bits.skip(1), count)
                }
            },
        }
    }
}

/// Prefixing then consing is consing into the prefix.
proof fn lemma_prepend_cons(prefix: Seq<u8>, v: u8, o: DecodeOutcome)
    ensures
        prepend_outcome(prefix, cons_outcome(v, o)) == prepend_outcome(prefix.push(v), o),
{
    match o {
        DecodeOutcome::Done(s) => {
            assert(prefix + (seq![v] + s) =~= prefix.push(v) + s);
        },
        _ => {},
    }
}

/// The decode walk only reads node shapes, so it carries across arenas of
/// equal shape.
proof fn lemma_walk_same_shapes(
    n1: Seq<Node>,
    n2: Seq<Node>,
    root: int,
    cur: int,
    bits: Seq<bool>,
    count: int,
)
    requires
        same_shapes(n1, n2),
        subtree_wf(n1, cur),
        subtree_wf(n1, root),
    ensures
        walk_decode(n1, root, cur, bits, count) == walk_decode(n2, root, cur, bits, count),
    decreases bits.len(),
{
    if count > 0 && bits.len() > 0 {
        let n = n1[cur];
        let child = if bits[0] {
            n.right
        } else {
            n.left
        };
        match child {
            None => {},
            Some(ci) => {
                let m = n1[ci as int];
                if m.leaf {
                    lemma_walk_same_shapes(n1, n2, root, root, bits.skip(1), count - 1);
                } else {
                    lemma_walk_same_shapes(n1, n2, root, ci as int, bits.skip(1), count);
                }
            },
        }
    }
}

/// Index `j` lies in the subtree rooted at `i`.
pub open spec fn in_subtree(nodes: Seq<Node>, i: int, j: int) -> bool
    decreases i,
{
    if 0 <= i < nodes.len() {
        if i == j {
            true
        } else if nodes[i].leaf {
            false
        } else {
            match (nodes[i].left, nodes[i].right) {
                (Some(l), Some(r)) => {
                    if (l as int) < i && (r as int) < i {
                        in_subtree(nodes, l as int, j) || in_subtree(nodes, r as int, j)
                    } else {
                        false
                    }
                },
                _ => false,
            }
        }
    } else {
        false
    }
}

/// Membership in a subtree only reads shapes.
proof fn lemma_same_shapes_in_subtree(n1: Seq<Node>, n2: Seq<Node>, i: int, j: int)
    requires
        same_shapes(n1, n2),
    ensures
        in_subtree(n1, i, j) == in_subtree(n2, i, j),
    decreases i,
{
    if 0 <= i < n1.len() {
        let n = n1[i];
        if i != j && !n.leaf {
            match (n.left, n.right) {
                (Some(l), Some(r)) => {
                    if (l as int) < i && (r as int) < i {
                        lemma_same_shapes_in_subtree(n1, n2, l as int, j);
                        lemma_same_shapes_in_subtree(n1, n2, r as int, j);
                    }
                },
                _ => {},
            }
        }
    }
}

/// A subtree member is a valid arena index.
proof fn lemma_in_subtree_bounds(nodes: Seq<Node>, i: int, j: int)
    requires
        in_subtree(nodes, i, j),
    ensures
        0 <= j < nodes.len(),
    decreases i,
{
    if 0 <= i < nodes.len() {
        let n = nodes[i];
        if i != j && !n.leaf {
            match (n.left, n.right) {
                (Some(l), Some(r)) => {
                    if (l as int) < i && (r as int) < i {
                        if in_subtree(nodes, l as int, j) {
                            lemma_in_subtree_bounds(nodes, l as int, j);
                        } else {
                            lemma_in_subtree_bounds(nodes, r as int, j);
                        }
                    }
                },
                _ => {},
            }
        }
    }
}

/// Membership survives growing the arena on the right.
proof fn lemma_in_subtree_prefix(nodes: Seq<Node>, ext: Seq<Node>, i: int, j: int)
    requires
        0 <= i < nodes.len(),
        in_subtree(nodes, i, j),
        nodes.len() <= ext.len(),
        forall|k: int| 0 <= k < nodes.len() ==> ext[k] == nodes[k],
    ensures
        in_subtree(ext, i, j),
    decreases i,
{
    let n = nodes[i];
    if i != j && !n.leaf {
        match (n.left, n.right) {
            (Some(l), Some(r)) => {
                if (l as int) < i && (r as int) < i {
                    if in_subtree(nodes, l as int, j) {
                        lemma_in_subtree_prefix(nodes, ext, l as int, j);
                    } else {
                        lemma_in_subtree_prefix(nodes, ext, r as int, j);
                    }
                }
            },
            _ => {},
        }
    }
}

/// Code assignment under `i` leaves every node outside that subtree alone.
proof fn lemma_assign_frame(nodes: Seq<Node>, i: int, addr: u32, len: usize, j: int)
    requires
        0 <= j < nodes.len(),
        !in_subtree(nodes, i, j),
    ensures
        spec_assign(nodes, i, addr, len)[j] == nodes[j],
    decreases i,
{
    if 0 <= i < nodes.len() {
        let n = nodes[i];
        let upd = Node {
            leaf: n.leaf,
            value: n.value,
            frequency: n.frequency,
            address: addr,
            length: len,
            left: n.left,
            right: n.right,
        };
        let base = nodes.update(i, upd);
        assert(same_shapes(nodes, base));
        if !n.leaf {
            match (n.left, n.right) {
                (Some(l), Some(r)) => {
                    if (l as int) < i && (r as int) < i {
                        lemma_same_shapes_in_subtree(nodes, base, l as int, j);
                        lemma_assign_frame(base, l as int, addr << 1, (len + 1) as usize, j);
                        let a1 = spec_assign(base, l as int, addr << 1, (len + 1) as usize);
                        lemma_assign_shape(base, l as int, addr << 1, (len + 1) as usize);
                        assert(same_shapes(nodes, a1));
                        lemma_same_shapes_in_subtree(nodes, a1, r as int, j);
                        lemma_assign_frame(a1, r as int, (addr << 1) | 1, (len + 1) as usize, j);
                    }
                },
                _ => {},
            }
        }
    }
}

/// Law: decoding inverts the code assignment symbol by symbol. In a
/// structurally sound tree, the walk that starts at branch `i` and follows
/// the code the assignment under `i` gave to leaf `j` — the bits of the
/// leaf's address past the `len` prefix bits — emits exactly that leaf's
/// byte, consumes exactly those bits, and carries on at the root with one
/// symbol fewer owed.
pub proof fn lemma_code_round_trip(
    nodes: Seq<Node>,
    root: int,
    i: int,
    addr: u32,
    len: u8,
    j: int,
    rest: Seq<bool>,
    count: int,
)
    requires
        subtree_wf(nodes, i),
        subtree_wf(nodes, root),
        !nodes[i].leaf,
        in_subtree(nodes, i, j),
        nodes[j].leaf,
        len + spec_height(nodes, i) <= 32,
        len < 32 ==> addr < (1u32 << (len as u32)),
        count >= 1,
    ensures
        ({
            let a = spec_assign(nodes, i, addr, len as usize);
            let aj = a[j].address;
            let mj = a[j].length;
            &&& (len as int) < mj <= 32
            &&& bits_msb_first(aj, mj as nat).take(len as int) == bits_msb_first(
                addr,
                len as nat,
            )
            &&& walk_decode(
                nodes,
                root,
                i,
                bits_msb_first(aj, mj as nat).skip(len as int) + rest,
                count,
            ) == cons_outcome(
                nodes[j].value,
                walk_decode(nodes, root, root, rest, count - 1),
            )
        }),
    decreases i,
{
    let n = nodes[i];
    let upd = Node {
        leaf: n.leaf,
        value: n.value,
        frequency: n.frequency,
        address: addr,
        length: len as usize,
        left: n.left,
        right: n.right,
    };
    let base = nodes.update(i, upd);
    assert(same_shapes(nodes, base));
    match (n.left, n.right) {
        (Some(l), Some(rr)) => {
            let li = l as int;
            let ri = rr as int;
            lemma_height_nonneg(nodes, li);
            lemma_height_nonneg(nodes, ri);
            let hl = spec_height(nodes, li);
            let hr = spec_height(nodes, ri);
            assert(spec_height(nodes, i) == 1 + if hl > hr {
                hl
            } else {
                hr
            });
            let caddr_l: u32 = addr << 1;
            let caddr_r: u32 = (addr << 1) | 1;
            if len < 31 {
                assert(caddr_l < (1u32 << ((len + 1) as u32)) && caddr_r < (1u32 << ((len
                    + 1) as u32))) by (bit_vector)
                    requires
                        caddr_l == addr << 1,
                        caddr_r == (addr << 1) | 1,
                        addr < (1u32 << (len as u32)),
                        len < 31,
                ;
            }
            lemma_same_shapes_wf(nodes, base, li);
            lemma_same_shapes_wf(nodes, base, ri);
            lemma_same_shapes_wf(nodes, base, root);
            lemma_same_shapes_height(nodes, base, li);
            lemma_same_shapes_height(nodes, base, ri);
            let a1 = spec_assign(base, li, caddr_l, (len + 1) as usize);
            lemma_assign_shape(base, li, caddr_l, (len + 1) as usize);
            assert(same_shapes(nodes, a1));
            let a = spec_assign(a1, ri, caddr_r, (len + 1) as usize);
            assert(spec_assign(nodes, i, addr, len as usize) == a);
            lemma_same_shapes_wf(nodes, a1, li);
            lemma_same_shapes_wf(nodes, a1, ri);
            lemma_same_shapes_wf(nodes, a1, root);
            lemma_same_shapes_height(nodes, a1, ri);
            if in_subtree(nodes, ri, j) {
                lemma_same_shapes_in_subtree(nodes, a1, ri, j);
                if nodes[ri].leaf {
                    assert(j == ri);
                    assert(a == a1.update(
                        ri,
                        (Node {
                            leaf: a1[ri].leaf,
                            value: a1[ri].value,
                            frequency: a1[ri].frequency,
                            address: caddr_r,
                            length: (len + 1) as usize,
                            left: a1[ri].left,
                            right: a1[ri].right,
                        }),
                    ));
                    lemma_leaf_code_step(nodes, root, i, addr, len, rr, caddr_r, true, rest, count);
                } else {
                    lemma_in_subtree_bounds(nodes, i, j);
                    assert(same_shape(nodes[j], a1[j]));
                    lemma_code_round_trip(a1, root, ri, caddr_r, (len + 1) as u8, j, rest, count);
                    lemma_branch_code_step(
                        nodes,
                        a1,
                        root,
                        i,
                        addr,
                        len,
                        rr,
                        caddr_r,
                        true,
                        j,
                        a[j].address,
                        a[j].length as int,
                        rest,
                        count,
                    );
                }
            } else {
                assert(in_subtree(nodes, li, j));
                lemma_in_subtree_bounds(nodes, li, j);
                lemma_same_shapes_in_subtree(nodes, a1, ri, j);
                lemma_assign_frame(a1, ri, caddr_r, (len + 1) as usize, j);
                assert(a[j] == a1[j]);
                if nodes[li].leaf {
                    assert(j == li);
                    assert(a1 == base.update(
                        li,
                        (Node {
                            leaf: base[li].leaf,
                            value: base[li].value,
                            frequency: base[li].frequency,
                            address: caddr_l,
                            length: (len + 1) as usize,
                            left: base[li].left,
                            right: base[li].right,
                        }),
                    ));
                    lemma_leaf_code_step(nodes, root, i, addr, len, l, caddr_l, false, rest, count);
                } else {
                    lemma_in_subtree_bounds(nodes, i, j);
                    assert(same_shape(nodes[j], base[j]));
                    lemma_same_shapes_in_subtree(nodes, base, li, j);
                    lemma_code_round_trip(base, root, li, caddr_l, (len + 1) as u8, j, rest, count);
                    lemma_branch_code_step(
                        nodes,
                        base,
                        root,
                        i,
                        addr,
                        len,
                        l,
                        caddr_l,
                        false,
                        j,
                        a[j].address,
                        a[j].length as int,
                        rest,
                        count,
                    );
                }
            }
        },
        _ => {},
    }
}

/// The step of `lemma_code_round_trip` where the child taken is itself the
/// leaf: its code is the parent's prefix plus one bit, and one walk step
/// consumes that bit and emits the leaf's byte.
proof fn lemma_leaf_code_step(
    nodes: Seq<Node>,
    root: int,
    i: int,
    addr: u32,
    len: u8,
    child: usize,
    caddr: u32,
    right: bool,
    rest: Seq<bool>,
    count: int,
)
    requires
        subtree_wf(nodes, i),
        !nodes[i].leaf,
        (child as int) < nodes.len(),
        nodes[child as int].leaf,
        (if right {
            nodes[i].right == Some(child) && caddr == (addr << 1) | 1
        } else {
            nodes[i].left == Some(child) && caddr == addr << 1
        }),
        len <= 31,
        count >= 1,
    ensures
        bits_msb_first(caddr, (len + 1) as nat).take(len as int) == bits_msb_first(
            addr,
            len as nat,
        ),
        walk_decode(
            nodes,
            root,
            i,
            bits_msb_first(caddr, (len + 1) as nat).skip(len as int) + rest,
            count,
        ) == cons_outcome(
            nodes[child as int].value,
            walk_decode(nodes, root, root, rest, count - 1),
        ),
{
    let b: u32 = if right {
        1
    } else {
        0
    };
    assert((addr << 1) | 0 == addr << 1) by (bit_vector);
    assert(caddr == (addr << 1) | b);
    assert(nth_bit32((addr << 1) | b, 0) == (b == 1)) by (bit_vector)
        requires
            b <= 1,
    ;
    assert(forall|t: u32|
        t < 31 ==> #[trigger] nth_bit32((addr << 1) | b, (t + 1) as u32) == nth_bit32(addr, t))
        by (bit_vector)
        requires
            b <= 1,
    ;
    let full = bits_msb_first(caddr, (len + 1) as nat);
    assert forall|k: int| 0 <= k < len implies full[k] == bits_msb_first(addr, len as nat)[k] by {
        let t: u32 = (len - 1 - k) as u32;
        assert(nth_bit32(caddr, (t + 1) as u32) == nth_bit32(addr, t));
    }
    assert(full.take(len as int) =~= bits_msb_first(addr, len as nat));
    let bits = full.skip(len as int) + rest;
    assert(bits[0] == full[len as int]);
    assert(full[len as int] == nth_bit32(caddr, 0));
    assert(bits.skip(1) =~= rest);
}

/// The step of `lemma_code_round_trip` where the child taken is a branch:
/// one walk step consumes the child's direction bit and the inductive walk
/// below the child finishes the code.
#[verifier::rlimit(30)]
proof fn lemma_branch_code_step(
    nodes: Seq<Node>,
    shaped: Seq<Node>,
    root: int,
    i: int,
    addr: u32,
    len: u8,
    child: usize,
    caddr: u32,
    right: bool,
    j: int,
    aj: u32,
    mj: int,
    rest: Seq<bool>,
    count: int,
)
    requires
        same_shapes(nodes, shaped),
        subtree_wf(nodes, i),
        subtree_wf(nodes, root),
        subtree_wf(nodes, child as int),
        !nodes[i].leaf,
        !nodes[child as int].leaf,
        (child as int) < nodes.len(),
        0 <= j < nodes.len(),
        (if right {
            nodes[i].right == Some(child) && caddr == (addr << 1) | 1
        } else {
            nodes[i].left == Some(child) && caddr == addr << 1
        }),
        len <= 31,
        count >= 1,
        (len + 1) < mj <= 32,
        aj == spec_assign(shaped, child as int, caddr, (len + 1) as usize)[j].address,
        mj == spec_assign(shaped, child as int, caddr, (len + 1) as usize)[j].length,
        bits_msb_first(aj, mj as nat).take(len + 1) == bits_msb_first(caddr, (len + 1) as nat),
        walk_decode(
            shaped,
            root,
            child as int,
            bits_msb_first(aj, mj as nat).skip(len + 1) + rest,
            count,
        ) == cons_outcome(shaped[j].value, walk_decode(shaped, root, root, rest, count - 1)),
    ensures
        bits_msb_first(aj, mj as nat).take(len as int) == bits_msb_first(addr, len as nat),
        walk_decode(nodes, root, i, bits_msb_first(aj, mj as nat).skip(len as int) + rest, count)
            == cons_outcome(nodes[j].value, walk_decode(nodes, root, root, rest, count - 1)),
{
    let b: u32 = if right {
        1
    } else {
        0
    };
    assert((addr << 1) | 0 == addr << 1) by (bit_vector);
    assert(caddr == (addr << 1) | b);
    assert(nth_bit32((addr << 1) | b, 0) == (b == 1)) by (bit_vector)
        requires
            b <= 1,
    ;
    assert(forall|t: u32|
        t < 31 ==> #[trigger] nth_bit32((addr << 1) | b, (t + 1) as u32) == nth_bit32(addr, t))
        by (bit_vector)
        requires
            b <= 1,
    ;
    let full = bits_msb_first(aj, mj as nat);
    let cpre = bits_msb_first(caddr, (len + 1) as nat);
    assert forall|k: int| 0 <= k < len implies full[k] == bits_msb_first(addr, len as nat)[k] by {
        assert(full[k] == full.take(len + 1)[k]);
        assert(cpre[k] == nth_bit32(caddr, (len + 1 - 1 - k) as u32));
        let t: u32 = (len - 1 - k) as u32;
        assert(nth_bit32(caddr, (t + 1) as u32) == nth_bit32(addr, t));
    }
    assert(full.take(len as int) =~= bits_msb_first(addr, len as nat));
    let bits = full.skip(len as int) + rest;
    assert(bits.len() > 0);
    assert(bits[0] == full[len as int]);
    assert(full[len as int] == full.take(len + 1)[len as int]);
    assert(cpre[len as int] == nth_bit32(caddr, 0));
    assert(bits[0] == (b == 1));
    assert(bits.skip(1) =~= full.skip(len + 1) + rest);
    assert(same_shapes(shaped, nodes));
    lemma_same_shapes_wf(nodes, shaped, child as int);
    lemma_same_shapes_wf(nodes, shaped, root);
    lemma_walk_same_shapes(
        shaped,
        nodes,
        root,
        child as int,
        full.skip(len + 1) + rest,
        count,
    );
    lemma_walk_same_shapes(shaped, nodes, root, root, rest, count - 1);
    assert(shaped[j].value == nodes[j].value);
}

/// A code stream starts with its first symbol's code.
proof fn lemma_encoded_bits_cons(nodes: Seq<Node>, input: Seq<u8>)
    requires
        input.len() > 0,
    ensures
        encoded_bits(nodes, input) == symbol_bits(nodes, input[0] as int) + encoded_bits(
            nodes,
            input.skip(1),
        ),
    decreases input.len(),
{
    if input.len() == 1 {
        assert(input.drop_last() =~= Seq::<u8>::empty());
        assert(input.skip(1) =~= Seq::<u8>::empty());
        assert(input.last() == input[0]);
        assert(Seq::<bool>::empty() + symbol_bits(nodes, input[0] as int) =~= symbol_bits(
            nodes,
            input[0] as int,
        ));
        assert(symbol_bits(nodes, input[0] as int) + Seq::<bool>::empty() =~= symbol_bits(
            nodes,
            input[0] as int,
        ));
    } else {
        let front = input.drop_last();
        lemma_encoded_bits_cons(nodes, front);
        assert(front[0] == input[0]);
        assert(front.skip(1) =~= input.skip(1).drop_last());
        assert(input.skip(1).last() == input.last());
        let s0 = symbol_bits(nodes, input[0] as int);
        let mid = encoded_bits(nodes, input.skip(1).drop_last());
        let sl = symbol_bits(nodes, input.last() as int);
        assert(encoded_bits(nodes, input) == (s0 + mid) + sl);
        assert(encoded_bits(nodes, input.skip(1)) == mid + sl);
        assert((s0 + mid) + sl =~= s0 + (mid + sl));
    }
}

/// Law: decoding inverts encoding across a whole stream. In a tree whose
/// byte leaves are all reachable from the (branch) root and whose height
/// fits the code word, walking the concatenation of an input's assigned
/// codes — with any trailing padding — from the root emits exactly the
/// input, one symbol per code.
pub proof fn lemma_encoded_bits_decode(nodes: Seq<Node>, root: int, input: Seq<u8>, pad: Seq<bool>)
    requires
        subtree_wf(nodes, root),
        !nodes[root].leaf,
        spec_height(nodes, root) <= 32,
        forall|v: int| 0 <= v < 256 ==> in_subtree(nodes, root, v),
        forall|v: int| 0 <= v < 256 ==> (#[trigger] nodes[v]).leaf && nodes[v].value == v,
    ensures
        walk_decode(
            nodes,
            root,
            root,
            encoded_bits(spec_assign(nodes, root, 0, 0), input) + pad,
            input.len() as int,
        ) == DecodeOutcome::Done(input),
    decreases input.len(),
{
    let a = spec_assign(nodes, root, 0, 0);
    if input.len() == 0 {
        assert(encoded_bits(a, input) =~= Seq::<bool>::empty());
        assert(walk_decode(nodes, root, root, encoded_bits(a, input) + pad, 0)
            == DecodeOutcome::Done(Seq::<u8>::empty()));
        assert(Seq::<u8>::empty() =~= input);
    } else {
        let v = input[0] as int;
        lemma_encoded_bits_cons(a, input);
        let rest = encoded_bits(a, input.skip(1)) + pad;
        assert(0u32 < (1u32 << 0u32)) by (bit_vector);
        lemma_code_round_trip(nodes, root, root, 0u32, 0u8, v, rest, input.len() as int);
        let cb = bits_msb_first(a[v].address, a[v].length as nat);
        assert(cb.skip(0) =~= cb);
        assert(cb == symbol_bits(a, v));
        assert(encoded_bits(a, input) + pad =~= cb.skip(0) + rest);
        lemma_encoded_bits_decode(nodes, root, input.skip(1), pad);
        assert(walk_decode(nodes, root, root, encoded_bits(a, input) + pad, input.len() as int)
            == cons_outcome(
            nodes[v].value,
            walk_decode(nodes, root, root, rest, input.len() - 1),
        ));
        assert(input.skip(1).len() as int == input.len() - 1);
        assert(seq![input[0]] + input.skip(1) =~= input);
    }
}

/// An append-only bit sink that packs bits into bytes starting at each
/// byte's most-significant bit, the order this coder's stream uses.
struct MsbPacker {
    /// The completed bytes.
    bytes: Vec<u8>,
    /// Bits of the byte in progress, newest at the least-significant end.
    next: u8,
    /// How many bits of `next` are in use.
    filled: u8,
}

/// The bits a partly-filled byte holds, oldest first.
spec fn pending_bits(next: u8, filled: u8) -> Seq<bool> {
    Seq::new(filled as nat, |k: int| nth_bit(next, (filled - 1 - k) as u8))
}

impl MsbPacker {
    /// All bits written so far, in order.
    spec fn view_bits(&self) -> Seq<bool> {
        msb_bits(self.bytes@) + pending_bits(self.next, self.filled)
    }

    spec fn wf(&self) -> bool {
        self.filled < 8
    }

    fn new() -> (r: Self)
        ensures
            r.wf(),
            r.view_bits() == Seq::<bool>::empty(),
            r.bytes@.len() == 0,
    {
        let r = MsbPacker { bytes: Vec::new(), next: 0, filled: 0 };
        proof {
            assert(r.view_bits() =~= Seq::<bool>::empty());
        }
        r
    }

    /// Appends one bit.
    fn push_msb_bit(&mut self, bit: u8)
        requires
            old(self).wf(),
            bit <= 1,
        ensures
            final(self).wf(),
            final(self).view_bits() == old(self).view_bits().push(bit == 1),
    {
        let ghost old_bytes = self.bytes@;
        let ghost old_next = self.next;
        let ghost old_filled = self.filled;
        let nx: u8 = (self.next << 1) | bit;
        proof {
            let x = old_next;
            assert(nth_bit((x << 1) | bit, 0) == (bit == 1)) by (bit_vector)
                requires
                    bit <= 1,
            ;
            assert(forall|k: u8|
                1 <= k < 8 ==> #[trigger] nth_bit((x << 1) | bit, k) == nth_bit(
                    x,
                    (k - 1) as u8,
                )) by (bit_vector)
                requires
                    bit <= 1,
            ;
        }
        if self.filled == 7 {
            self.bytes.push(nx);
            self.next = 0;
            self.filled = 0;
            proof {
                lemma_msb_bits_push(old_bytes, nx);
                assert(self.view_bits() =~= old(self).view_bits().push(bit == 1));
            }
        } else {
            self.next = nx;
            self.filled = self.filled + 1;
            proof {
                assert(self.view_bits() =~= old(self).view_bits().push(bit == 1));
            }
        }
    }

    /// Closes the stream: the byte in progress is padded with zero bits and
    /// flushed, and the byte buffer is handed out.
    fn finish(self) -> (r: Vec<u8>)
        requires
            self.wf(),
        ensures
            r@.len() == (self.view_bits().len() + 7) / 8,
            forall|i: int| 0 <= i < self.view_bits().len() ==> msb_bits(r@)[i] == self.view_bits()[i],
            forall|i: int|
                self.view_bits().len() <= i < 8 * r@.len() ==> !(#[trigger] msb_bits(r@)[i]),
    {
        let MsbPacker { mut bytes, next, filled } = self;
        let ghost old_bytes = bytes@;
        if filled != 0 {
            let s: u8 = 8 - filled;
            let tail: u8 = next << s;
            proof {
                assert(forall|k: u8|
                    k < 8 && k >= s ==> #[trigger] nth_bit(next << s, k) == nth_bit(
                        next,
                        (k - s) as u8,
                    )) by (bit_vector)
                    requires
                        s < 8,
                ;
                assert(forall|k: u8| k < s ==> !(#[trigger] nth_bit(next << s, k))) by (bit_vector)
                    requires
                        s < 8,
                ;
            }
            bytes.push(tail);
            proof {
                lemma_msb_bits_push(old_bytes, tail);
                vstd::arithmetic::div_mod::lemma_fundamental_div_mod(
                    8 * old_bytes.len() + filled as int + 7,
                    8,
                );
                lemma_div_split8(
                    8 * (old_bytes.len() as int) + filled + 7,
                    old_bytes.len() as int + 1,
                    (filled - 1) as int,
                );
            }
        } else {
            proof {
                lemma_div_split8(8 * (old_bytes.len() as int) + 7, old_bytes.len() as int, 7);
            }
        }
        bytes
    }
}

/// Splitting `8 * q + r` with `0 <= r < 8` recovers `q` and `r`.
proof fn lemma_div_split8(x: int, q: int, r: int)
    requires
        x == 8 * q + r,
        0 <= r < 8,
    ensures
        x / 8 == q,
        x % 8 == r,
{
    vstd::arithmetic::div_mod::lemma_fundamental_div_mod_converse_div(x, 8, q, r);
    vstd::arithmetic::div_mod::lemma_fundamental_div_mod_converse_mod(x, 8, q, r);
}

/// Appending a byte to a buffer keeps every old bit of the MSB-first view
/// and adds the byte's eight bits, most significant first.
proof fn lemma_msb_bits_push(bytes: Seq<u8>, byte: u8)
    ensures
        forall|i: int|
            0 <= i < 8 * bytes.len() ==> #[trigger] msb_bits(bytes.push(byte))[i] == msb_bits(
                bytes,
            )[i],
        forall|j: int|
            0 <= j < 8 ==> #[trigger] msb_bits(bytes.push(byte))[8 * bytes.len() + j] == nth_bit(
                byte,
                (7 - j) as u8,
            ),
{
    let n = bytes.len() as int;
    assert forall|i: int|
        0 <= i < 8 * n implies #[trigger] msb_bits(bytes.push(byte))[i] == msb_bits(bytes)[i] by {
        lemma_div8_in_range(i, n);
    }
    assert forall|j: int|
        0 <= j < 8 implies #[trigger] msb_bits(bytes.push(byte))[8 * n + j] == nth_bit(
        byte,
        (7 - j) as u8,
    ) by {
        lemma_div_split8(8 * n + j, n, j);
    }
}

/// `0 <= i < 8 * n` puts byte index `i / 8` strictly below `n`.
proof fn lemma_div8_in_range(i: int, n: int)
    requires
        0 <= i < 8 * n,
    ensures
        0 <= i / 8 < n,
        0 <= i % 8 < 8,
{
    vstd::arithmetic::div_mod::lemma_fundamental_div_mod(i, 8);
}

/// A saturated count stays between 0 and the 32-bit maximum.
proof fn lemma_sat_count_range(s: Seq<u8>, v: int)
    ensures
        0 <= sat_count(s, v) <= u32::MAX,
    decreases s.len(),
{
    if s.len() > 0 {
        lemma_sat_count_range(s.drop_last(), v);
    }
}

/// A saturated count never exceeds the buffer's length.
proof fn lemma_sat_count_le_len(s: Seq<u8>, v: int)
    ensures
        sat_count(s, v) <= s.len(),
    decreases s.len(),
{
    if s.len() > 0 {
        lemma_sat_count_le_len(s.drop_last(), v);
    }
}

/// An all-zero table totals zero.
proof fn lemma_sum_freqs_zero(f: Seq<u32>)
    requires
        forall|j: int| 0 <= j < f.len() ==> f[j] == 0u32,
    ensures
        spec_sum_freqs(f) == 0,
    decreases f.len(),
{
    if f.len() > 0 {
        lemma_sum_freqs_zero(f.drop_last());
    }
}

/// Bumping one table entry bumps the total by one.
proof fn lemma_sum_freqs_update(f1: Seq<u32>, f2: Seq<u32>, b: int)
    requires
        f1.len() == f2.len(),
        0 <= b < f1.len(),
        f2[b] as int == f1[b] + 1,
        forall|j: int| 0 <= j < f1.len() && j != b ==> f1[j] == f2[j],
    ensures
        spec_sum_freqs(f2) == spec_sum_freqs(f1) + 1,
    decreases f1.len(),
{
    if b == f1.len() - 1 {
        assert(f1.drop_last() =~= f2.drop_last());
    } else {
        lemma_sum_freqs_update(f1.drop_last(), f2.drop_last(), b);
    }
}

/// Short of saturation, the frequency table totals the input's length.
proof fn lemma_freqs_sum(input: Seq<u8>)
    requires
        input.len() < 0xFFFF_FFFF,
    ensures
        spec_sum_freqs(spec_freqs_of(input)) == input.len(),
    decreases input.len(),
{
    if input.len() == 0 {
        lemma_sum_freqs_zero(spec_freqs_of(input));
    } else {
        let pre = input.drop_last();
        lemma_freqs_sum(pre);
        let b = input.last() as int;
        lemma_sat_count_le_len(pre, b);
        assert forall|v: int|
            0 <= v < 256 && v != b implies spec_freqs_of(pre)[v] == spec_freqs_of(input)[v] by {
            lemma_sat_count_range(pre, v);
            lemma_sat_count_range(input, v);
        }
        assert(spec_freqs_of(input)[b] as int == spec_freqs_of(pre)[b] + 1) by {
            lemma_sat_count_range(pre, b);
            lemma_sat_count_range(input, b);
        }
        lemma_sum_freqs_update(spec_freqs_of(pre), spec_freqs_of(input), b);
    }
}

/// The shape of `encode`'s output for `input`: the 256 little-endian
/// saturated occurrence counts, then the concatenated codes of the
/// frequency table's tree, zero-padded to whole bytes.
pub open spec fn spec_encodes(input: Seq<u8>, out: Seq<u8>) -> bool {
    let freqs = spec_freqs_of(input);
    let nodes = spec_coded_nodes(freqs);
    let bits = encoded_bits(nodes, input);
    &&& out.len() == 1024 + (bits.len() + 7) / 8
    &&& forall|v: int| 0 <= v < 256 ==> le_u32_at(out, 4 * v) == sat_count(input, v)
    &&& forall|i: int| 0 <= i < bits.len() ==> msb_bits(out.skip(1024))[i] == bits[i]
    &&& forall|i: int|
        bits.len() <= i < 8 * (out.len() - 1024) ==> !(#[trigger] msb_bits(out.skip(1024))[i])
}

/// The byte-alphabet Huffman coder: a frequency table ahead of the code
/// stream, so the decoder can rebuild the identical tree.
pub struct Huffman {}

impl Huffman {
    /// Encodes a byte buffer: 256 little-endian 32-bit occurrence counts,
    /// then each input byte's code, packed most-significant bit first and
    /// zero-padded to a whole byte. Fails only when the tree of these
    /// frequencies is deeper than the 32-bit code word.
    pub fn encode(input: &Vec<u8>) -> (r: Result<Vec<u8>, CodecError>)
        ensures
            ({
                let freqs = spec_freqs_of(input@);
                let nodes = spec_coded_nodes(freqs);
                let bits = encoded_bits(nodes, input@);
                &&& (r is Ok <==> spec_height(spec_tree_nodes(freqs), spec_tree_root(freqs))
                    <= 32)
                &&& (r matches Ok(out) ==> {
                    &&& out@.len() == 1024 + (bits.len() + 7) / 8
                    &&& forall|v: int| 0 <= v < 256 ==> le_u32_at(out@, 4 * v) == sat_count(
                        input@,
                        v,
                    )
                    &&& forall|i: int|
                        0 <= i < bits.len() ==> msb_bits(out@.skip(1024))[i] == bits[i]
                    &&& forall|i: int|
                        bits.len() <= i < 8 * (out@.len() - 1024) ==> !(#[trigger] msb_bits(
                            out@.skip(1024),
                        )[i])
                })
                &&& (r matches Err(e) ==> e == (CodecError {
                    kind: CodecErrorKind::InvalidHuffmanTree,
                    offset: 0,
                }))
                &&& (r matches Ok(out) ==> spec_encodes(input@, out@))
            }),
    {
        let mut freqs: Vec<u32> = Vec::new();
        let mut z: usize = 0;
        while z < 256
            invariant
                z <= 256,
                freqs@.len() == z,
                forall|v: int| 0 <= v < z ==> freqs@[v] == 0u32,
            decreases 256 - z,
        {
            freqs.push(0);
            z = z + 1;
        }
        let mut i: usize = 0;
        proof {
            assert(input@.take(0) =~= Seq::<u8>::empty());
        }
        while i < input.len()
            invariant
                i <= input@.len(),
                freqs@.len() == 256,
                forall|v: int|
                    0 <= v < 256 ==> freqs@[v] as int == sat_count(input@.take(i as int), v),
            decreases input@.len() - i,
        {
            let b: usize = input[i] as usize;
            let f: u32 = freqs[b];
            let nf: u32 = if f == u32::MAX {
                f
            } else {
                f + 1
            };
            freqs[b] = nf;
            proof {
                assert(input@.take(i + 1).drop_last() =~= input@.take(i as int));
                assert(input@.take(i + 1).last() == input@[i as int]);
            }
            i = i + 1;
        }
        proof {
            assert(input@.take(input@.len() as int) =~= input@);
            assert forall|v: int| 0 <= v < 256 implies freqs@[v] == spec_freqs_of(input@)[v] by {
                lemma_sat_count_range(input@, v);
            }
            assert(freqs@ =~= spec_freqs_of(input@));
        }
        let mut out: Vec<u8> = Vec::new();
        let mut v: usize = 0;
        while v < 256
            invariant
                v <= 256,
                freqs@.len() == 256,
                freqs@ == spec_freqs_of(input@),
                out@.len() == 4 * v,
                forall|k: int| 0 <= k < v ==> le_u32_at(out@, 4 * k) == freqs@[k],
            decreases 256 - v,
        {
            let f: u32 = freqs[v];
            proof {
                assert((f & 0xFF) < 256 && ((f >> 8) & 0xFF) < 256 && ((f >> 16) & 0xFF) < 256 && (
                (f >> 24) & 0xFF) < 256 && (f & 0xFF) + 256 * ((f >> 8) & 0xFF) + 65536 * ((f >> 16)
                    & 0xFF) + 16777216 * ((f >> 24) & 0xFF) == f) by (bit_vector);
            }
            let b0: u8 = (f & 0xFF) as u8;
            let b1: u8 = ((f >> 8) & 0xFF) as u8;
            let b2: u8 = ((f >> 16) & 0xFF) as u8;
            let b3: u8 = ((f >> 24) & 0xFF) as u8;
            out.push(b0);
            out.push(b1);
            out.push(b2);
            out.push(b3);
            v = v + 1;
        }
        let tree = create_huffman_tree(&freqs);
        if !tree.codes_ok {
            return Err(CodecError { kind: CodecErrorKind::InvalidHuffmanTree, offset: 0 });
        }
        let ghost coded = spec_coded_nodes(spec_freqs_of(input@));
        proof {
            assert(tree.nodes@ == coded);
        }
        let mut packer = MsbPacker::new();
        let mut i: usize = 0;
        proof {
            assert(input@.take(0) =~= Seq::<u8>::empty());
        }
        while i < input.len()
            invariant
                i <= input@.len(),
                packer.wf(),
                tree.nodes@ == coded,
                tree.nodes@.len() == 511,
                forall|j: int| 0 <= j < 511 ==> (#[trigger] tree.nodes@[j]).length <= 32,
                packer.view_bits() == encoded_bits(coded, input@.take(i as int)),
            decreases input@.len() - i,
        {
            let b: usize = input[i] as usize;
            let node: Node = tree.nodes[b];
            let len: usize = node.length;
            let ghost sym_pat = symbol_bits(coded, b as int);
            let ghost bits_before = packer.view_bits();
            let mut k: usize = 0;
            proof {
                assert(bits_before + sym_pat.take(0) =~= bits_before);
            }
            while k < len
                invariant
                    k <= len,
                    len <= 32,
                    node == tree.nodes@[b as int],
                    0 <= b < tree.nodes@.len(),
                    len == node.length,
                    sym_pat == symbol_bits(tree.nodes@, b as int),
                    packer.wf(),
                    packer.view_bits() == bits_before + sym_pat.take(k as int),
                decreases len - k,
            {
                let shift: u32 = (len - 1 - k) as u32;
                let bit: u8 = if (node.address >> shift) & 1 == 1 {
                    1
                } else {
                    0
                };
                packer.push_msb_bit(bit);
                proof {
                    assert(sym_pat[k as int] == nth_bit32(node.address, shift));
                    assert(packer.view_bits() =~= bits_before + sym_pat.take(k + 1));
                }
                k = k + 1;
            }
            proof {
                assert(sym_pat.take(len as int) =~= sym_pat);
                assert(input@.take(i + 1).drop_last() =~= input@.take(i as int));
                assert(input@.take(i + 1).last() == input@[i as int]);
                assert(packer.view_bits() == encoded_bits(coded, input@.take(i + 1)));
            }
            i = i + 1;
        }
        proof {
            assert(input@.take(input@.len() as int) =~= input@);
        }
        let ghost table = out@;
        let ghost bits = packer.view_bits();
        let mut payload: Vec<u8> = packer.finish();
        let ghost pay = payload@;
        out.append(&mut payload);
        proof {
            assert(out@ == table + pay);
            assert(out@.skip(1024) =~= pay);
            assert(out@.len() == 1024 + pay.len());
            assert forall|k: int| 0 <= k < 256 implies le_u32_at(out@, 4 * k) == sat_count(
                input@,
                k,
            ) by {
                assert(le_u32_at(table, 4 * k) == spec_freqs_of(input@)[k]);
                lemma_sat_count_range(input@, k);
            }
        }
        Ok(out)
    }

    /// Walks the code stream after the frequency table, most-significant
    /// bit of each byte first, emitting a byte at each leaf until `count`
    /// symbols are out.
    fn walk_payload(tree: &HuffmanTree, payload: &[u8], count: u64) -> (r: Result<
        Vec<u8>,
        CodecError,
    >)
        requires
            tree.wf(),
        ensures
            (match walk_decode(
                tree.nodes@,
                tree.root as int,
                tree.root as int,
                msb_bits(payload@),
                count as int,
            ) {
                DecodeOutcome::Done(s) => r matches Ok(v) && v@ == s,
                DecodeOutcome::Truncated => r matches Err(e) && e.kind
                    == CodecErrorKind::TruncatedStream,
                DecodeOutcome::BadTree => r matches Err(e) && e.kind
                    == CodecErrorKind::InvalidHuffmanTree,
            }),
    {
        let ghost bits0 = msb_bits(payload@);
        let ghost root_g = tree.root as int;
        let ghost target = walk_decode(tree.nodes@, root_g, root_g, bits0, count as int);
        let mut out: Vec<u8> = Vec::new();
        if count == 0 {
            return Ok(out);
        }
        let n: usize = payload.len();
        let mut cur: usize = tree.root;
        let mut rem: u64 = count;
        let mut byte_i: usize = 0;
        let mut bit_i: u8 = 0;
        proof {
            assert(bits0.skip(0) =~= bits0);
            match walk_decode(tree.nodes@, root_g, root_g, bits0, rem as int) {
                DecodeOutcome::Done(s) => {
                    assert(Seq::<u8>::empty() + s =~= s);
                },
                _ => {},
            }
        }
        while byte_i < n
            invariant
                n == payload@.len(),
                bits0 == msb_bits(payload@),
                root_g == tree.root as int,
                bit_i < 8,
                byte_i <= n,
                bit_i != 0 ==> byte_i < n,
                rem >= 1,
                subtree_wf(tree.nodes@, cur as int),
                subtree_wf(tree.nodes@, root_g),
                target == walk_decode(tree.nodes@, root_g, root_g, bits0, count as int),
                target == prepend_outcome(
                    out@,
                    walk_decode(
                        tree.nodes@,
                        root_g,
                        cur as int,
                        bits0.skip(8 * byte_i + bit_i),
                        rem as int,
                    ),
                ),
            decreases 8 * (n - byte_i) - bit_i,
        {
            let pb: u8 = *vstd::slice::slice_index_get(payload, byte_i);
            let shift: u8 = 7 - bit_i;
            let bitv: u8 = (pb >> shift) & 1;
            let ghost pos: int = 8 * byte_i + bit_i;
            proof {
                lemma_div_split8(pos, byte_i as int, bit_i as int);
                assert((pb >> shift) & 1 <= 1) by (bit_vector);
                assert(bits0[pos] == (bitv == 1));
                assert(bits0.skip(pos)[0] == bits0[pos]);
                assert(bits0.skip(pos).skip(1) =~= bits0.skip(pos + 1));
            }
            let node: Node = tree.nodes[cur];
            let child_opt: Option<usize> = if bitv == 1 {
                node.right
            } else {
                node.left
            };
            match child_opt {
                None => {
                    return Err(
                        CodecError { kind: CodecErrorKind::InvalidHuffmanTree, offset: byte_i },
                    );
                },
                Some(ci) => {
                    let m: Node = tree.nodes[ci];
                    let ghost out_before = out@;
                    let ghost rem_before = rem as int;
                    if m.leaf {
                        out.push(m.value);
                        rem = rem - 1;
                        cur = tree.root;
                        proof {
                            lemma_prepend_cons(
                                out_before,
                                m.value,
                                walk_decode(
                                    tree.nodes@,
                                    root_g,
                                    root_g,
                                    bits0.skip(pos + 1),
                                    rem_before - 1,
                                ),
                            );
                        }
                        if rem == 0 {
                            proof {
                                assert(out@ + Seq::<u8>::empty() =~= out@);
                            }
                            return Ok(out);
                        }
                    } else {
                        cur = ci;
                    }
                    if bit_i == 7 {
                        bit_i = 0;
                        byte_i = byte_i + 1;
                    } else {
                        bit_i = bit_i + 1;
                    }
                },
            }
        }
        proof {
            assert(bits0.skip(8 * byte_i + bit_i) =~= Seq::<bool>::empty());
        }
        Err(CodecError { kind: CodecErrorKind::TruncatedStream, offset: n })
    }

    /// Decodes a buffer `encode` produced: rebuilds the tree from the
    /// 256-entry frequency table at the front, then walks the code stream
    /// until the declared symbol count is out.
    pub fn decode(input: &Vec<u8>) -> (r: Result<Vec<u8>, CodecError>)
        ensures
            input@.len() < 1024 ==> (r matches Err(e) && e.kind == CodecErrorKind::TruncatedStream),
            input@.len() >= 1024 ==> ({
                let freqs = spec_parsed_freqs(input@);
                let nodes = spec_tree_nodes(freqs);
                let root = spec_tree_root(freqs);
                match walk_decode(
                    nodes,
                    root,
                    root,
                    msb_bits(input@.skip(1024)),
                    spec_sum_freqs(freqs),
                ) {
                    DecodeOutcome::Done(s) => r matches Ok(v) && v@ == s,
                    DecodeOutcome::Truncated => r matches Err(e) && e.kind
                        == CodecErrorKind::TruncatedStream,
                    DecodeOutcome::BadTree => r matches Err(e) && e.kind
                        == CodecErrorKind::InvalidHuffmanTree,
                }
            }),
            forall|original: Seq<u8>|
                #![trigger spec_encodes(original, input@)]
                spec_encodes(original, input@) && original.len() < 0xFFFF_FFFF && spec_height(
                    spec_tree_nodes(spec_freqs_of(original)),
                    spec_tree_root(spec_freqs_of(original)),
                ) <= 32 ==> (r matches Ok(o) && o@ == original),
    {
        if input.len() < 1024 {
            return Err(CodecError { kind: CodecErrorKind::TruncatedStream, offset: input.len() });
        }
        let mut freqs: Vec<u32> = Vec::new();
        let mut v: usize = 0;
        while v < 256
            invariant
                v <= 256,
                input@.len() >= 1024,
                freqs@.len() == v,
                forall|k: int| 0 <= k < v ==> freqs@[k] as int == le_u32_at(input@, 4 * k),
            decreases 256 - v,
        {
            let x0: u32 = input[4 * v] as u32;
            let x1: u32 = input[4 * v + 1] as u32;
            let x2: u32 = input[4 * v + 2] as u32;
            let x3: u32 = input[4 * v + 3] as u32;
            let f: u32 = x0 | (x1 << 8) | (x2 << 16) | (x3 << 24);
            proof {
                assert(x0 | (x1 << 8) | (x2 << 16) | (x3 << 24) == x0 + 256 * x1 + 65536 * x2
                    + 16777216 * x3) by (bit_vector)
                    requires
                        x0 < 256,
                        x1 < 256,
                        x2 < 256,
                        x3 < 256,
                ;
            }
            freqs.push(f);
            v = v + 1;
        }
        proof {
            assert(freqs@ =~= spec_parsed_freqs(input@));
        }
        let mut total: u64 = 0;
        let mut k: usize = 0;
        proof {
            assert(freqs@.take(0) =~= Seq::<u32>::empty());
        }
        while k < 256
            invariant
                k <= 256,
                freqs@.len() == 256,
                total as int == spec_sum_freqs(freqs@.take(k as int)),
                total <= k * 0xFFFF_FFFF,
            decreases 256 - k,
        {
            total = total + (freqs[k] as u64);
            proof {
                assert(freqs@.take(k + 1).drop_last() =~= freqs@.take(k as int));
                assert(freqs@.take(k + 1).last() == freqs@[k as int]);
            }
            k = k + 1;
        }
        proof {
            assert(freqs@.take(256) =~= freqs@);
        }
        let tree = create_huffman_tree(&freqs);
        let payload: &[u8] = vstd::slice::slice_subrange(input.as_slice(), 1024, input.len());
        proof {
            assert(payload@ =~= input@.skip(1024));
            let shape = spec_tree_nodes(freqs@);
            let root = spec_tree_root(freqs@);
            assert(same_shapes(shape, tree.nodes@)) by {
                if tree.codes_ok {
                    lemma_assign_shape(shape, root, 0, 0);
                } else {
                    assert forall|j: int| 0 <= j < shape.len() implies same_shape(
                        shape[j],
                        tree.nodes@[j],
                    ) by {}
                }
            }
            assert(same_shapes(tree.nodes@, shape));
            lemma_same_shapes_wf(tree.nodes@, shape, root);
            lemma_walk_same_shapes(
                shape,
                tree.nodes@,
                root,
                root,
                msb_bits(payload@),
                total as int,
            );
        }
        let res = Self::walk_payload(&tree, payload, total);
        proof {
            let shape = spec_tree_nodes(freqs@);
            let root = spec_tree_root(freqs@);
            assert forall|original: Seq<u8>|
                spec_encodes(original, input@) && original.len() < 0xFFFF_FFFF && spec_height(
                    spec_tree_nodes(spec_freqs_of(original)),
                    spec_tree_root(spec_freqs_of(original)),
                ) <= 32 implies (res matches Ok(o) && o@ == original) by {
                assert(freqs@ =~= spec_freqs_of(original)) by {
                    assert forall|v2: int|
                        0 <= v2 < 256 implies freqs@[v2] == spec_freqs_of(original)[v2] by {
                        assert(le_u32_at(input@, 4 * v2) == sat_count(original, v2));
                        lemma_sat_count_range(original, v2);
                    }
                }
                lemma_freqs_sum(original);
                assert(total as int == original.len());
                assert(tree.codes_ok);
                assert(!shape[root].leaf) by {
                    reveal(leaves_reachable);
                    assert(in_subtree(tree.nodes@, root, 0));
                    assert(in_subtree(tree.nodes@, root, 1));
                    assert(same_shapes(tree.nodes@, shape));
                    lemma_same_shapes_in_subtree(tree.nodes@, shape, root, 0);
                    lemma_same_shapes_in_subtree(tree.nodes@, shape, root, 1);
                    if shape[root].leaf {
                        assert(root == 0 && root == 1);
                    }
                }
                assert forall|v2: int|
                    0 <= v2 < 256 implies in_subtree(shape, root, v2) by {
                    reveal(leaves_reachable);
                    assert(in_subtree(tree.nodes@, root, v2));
                    lemma_same_shapes_in_subtree(tree.nodes@, shape, root, v2);
                }
                assert forall|v2: int|
                    0 <= v2 < 256 implies (#[trigger] shape[v2]).leaf && shape[v2].value
                    == v2 by {
                    assert(same_shape(shape[v2], tree.nodes@[v2]));
                }
                let coded = spec_coded_nodes(freqs@);
                let bits = encoded_bits(coded, original);
                let m = msb_bits(payload@);
                assert(bits.len() <= m.len()) by {
                    vstd::arithmetic::div_mod::lemma_fundamental_div_mod(
                        bits.len() as int + 7,
                        8,
                    );
                }
                let pad = m.skip(bits.len() as int);
                assert(m =~= bits + pad);
                lemma_encoded_bits_decode(shape, root, original, pad);
                assert(spec_assign(shape, root, 0, 0) == coded);
                assert(walk_decode(shape, root, root, m, total as int)
                    == DecodeOutcome::Done(original));
            }
        }
        res
    }
}

/// A pair of inverse transforms between element alphabets, sharing one
/// error type.
pub trait Coder<I, O> {
    /// The error either direction reports.
    type Error;

    /// Transforms a buffer of `I` into a buffer of `O`.
    fn encode(input: &Vec<I>) -> Result<Vec<O>, Self::Error>;

    /// Inverts `encode` on buffers it produced.
    fn decode(input: &Vec<O>) -> Result<Vec<I>, Self::Error>;
}

impl Coder<u8, u8> for Huffman {
    type Error = CodecError;

    fn encode(input: &Vec<u8>) -> Result<Vec<u8>, CodecError> {
        Huffman::encode(input)
    }

    fn decode(input: &Vec<u8>) -> Result<Vec<u8>, CodecError> {
        Huffman::decode(input)
    }
}

} // verus!
