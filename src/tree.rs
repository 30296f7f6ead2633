use vstd::prelude::*;

use crate::code::{
    is_prefix, lemma_bits_determine, lemma_push_bit, pattern_bits, prefix_free, CodeTable,
    HuffmanCode,
};

verus! {

/// A node of the Huffman tree: a leaf carries a byte value, an internal node
/// carries two children. Every node carries a frequency.
#[derive(Debug)]
pub struct HuffmanTreeNode {
    pub left: Option<Box<HuffmanTreeNode>>,
    pub right: Option<Box<HuffmanTreeNode>>,
    pub freq: u32,
    pub value: u8,
}

/// A leaf node for `value` seen `freq` times.
pub open spec fn leaf(value: u8, freq: u32) -> HuffmanTreeNode {
    HuffmanTreeNode { left: None, right: None, freq, value }
}

/// The internal node built from two selected nodes: the one selected first
/// (the smaller) goes right, the one selected second goes left.
pub open spec fn merged(first: HuffmanTreeNode, second: HuffmanTreeNode) -> HuffmanTreeNode {
    HuffmanTreeNode {
        left: Some(Box::new(second)),
        right: Some(Box::new(first)),
        freq: (first.freq + second.freq) as u32,
        value: 0,
    }
}

/// How often `v` occurs in `s`.
pub open spec fn count(s: Seq<u8>, v: u8) -> nat
    decreases s.len(),
{
    if s.len() == 0 {
        0
    } else {
        count(s.drop_last(), v) + if s.last() == v {
            1nat
        } else {
            0nat
        }
    }
}

/// One leaf for each byte value below `n` that occurs in `s`, in ascending
/// order of value, each with its number of occurrences.
pub open spec fn spec_leaves(s: Seq<u8>, n: nat) -> Seq<HuffmanTreeNode>
    decreases n,
{
    if n == 0 {
        seq![]
    } else {
        let prev = spec_leaves(s, (n - 1) as nat);
        let v = (n - 1) as u8;
        if count(s, v) > 0 {
            prev.push(leaf(v, count(s, v) as u32))
        } else {
            prev
        }
    }
}

/// Sum of the frequencies of a sequence of nodes.
pub open spec fn total(s: Seq<HuffmanTreeNode>) -> int
    decreases s.len(),
{
    if s.len() == 0 {
        0
    } else {
        total(s.drop_last()) + s.last().freq
    }
}

/// `a` is selected before `b`: smaller frequency, ties broken by the smaller
/// byte value.
pub open spec fn precedes(a: HuffmanTreeNode, b: HuffmanTreeNode) -> bool {
    a.freq < b.freq || (a.freq == b.freq && a.value < b.value)
}

/// Index of the node selected first: the one that no other precedes, the
/// earliest one among equals.
pub open spec fn min_index(s: Seq<HuffmanTreeNode>) -> int
    decreases s.len(),
{
    if s.len() <= 1 {
        0
    } else {
        let m = min_index(s.drop_last());
        if precedes(s.last(), s[m]) {
            s.len() - 1
        } else {
            m
        }
    }
}

/// One merge step: the two selected nodes leave and their parent is appended.
pub open spec fn spec_join(s: Seq<HuffmanTreeNode>) -> Seq<HuffmanTreeNode> {
    let i = min_index(s);
    let s1 = s.remove(i);
    let j = min_index(s1);
    s1.remove(j).push(merged(s[i], s1[j]))
}

/// The node sequence after `n` merge steps, stopping at one node.
pub open spec fn merge_all(s: Seq<HuffmanTreeNode>, n: nat) -> Seq<HuffmanTreeNode>
    decreases n,
{
    if n == 0 || s.len() <= 1 {
        s
    } else {
        merge_all(spec_join(s), (n - 1) as nat)
    }
}

/// The tree built from `bytes`: none for empty input.
pub open spec fn spec_tree(bytes: Seq<u8>) -> Option<HuffmanTreeNode> {
    let s = spec_leaves(bytes, 256);
    let r = merge_all(s, s.len());
    if r.len() == 0 {
        None
    } else {
        Some(r[0])
    }
}

impl HuffmanTreeNode {
    pub open spec fn spec_is_leaf(&self) -> bool {
        self.left.is_none() && self.right.is_none()
    }

    pub fn is_leaf(&self) -> (r: bool)
        ensures
            r == self.spec_is_leaf(),
    {
        self.left.is_none() && self.right.is_none()
    }

    pub fn new(value: u8) -> (r: Self)
        ensures
            r == leaf(value, 0),
    {
        HuffmanTreeNode { left: None, right: None, freq: 0, value }
    }

    pub fn with_freq(value: u8, freq: u32) -> (r: Self)
        ensures
            r == leaf(value, freq),
    {
        HuffmanTreeNode { left: None, right: None, freq, value }
    }

    /// Builds the Huffman tree of `bytes`; `None` for empty input.
    pub fn build_tree(bytes: &[u8]) -> (r: Option<Self>)
        requires
            bytes@.len() <= u32::MAX,
        ensures
            r == spec_tree(bytes@),
            r.is_none() <==> bytes@.len() == 0,
    {
        let mut nodes = collect_nodes(bytes);
        let ghost init = nodes@;
        proof {
            lemma_leaves_empty(bytes@);
        }
        while nodes.len() > 1
            invariant
                merge_all(nodes@, nodes@.len()) == merge_all(init, init.len()),
                total(nodes@) <= u32::MAX,
                (nodes@.len() == 0) == (init.len() == 0),
            decreases nodes.len(),
        {
            let ghost before = nodes@;
            join_nodes(&mut nodes);
            proof {
                lemma_join_len(before);
                assert(merge_all(before, before.len()) == merge_all(nodes@, nodes@.len()));
            }
        }
        proof {
            assert(merge_all(nodes@, nodes@.len()) == nodes@);
        }
        nodes.pop()
    }
}

proof fn lemma_count_le(s: Seq<u8>, v: u8)
    ensures
        count(s, v) <= s.len(),
    decreases s.len(),
{
    if s.len() > 0 {
        lemma_count_le(s.drop_last(), v);
    }
}

/// Sum of the counts of the values below `n`.
spec fn count_sum(s: Seq<u8>, n: nat) -> int
    decreases n,
{
    if n == 0 {
        0
    } else {
        count_sum(s, (n - 1) as nat) + count(s, (n - 1) as u8)
    }
}

proof fn lemma_count_sum_step(s: Seq<u8>, n: nat)
    requires
        s.len() > 0,
        n <= 256,
    ensures
        count_sum(s, n) == count_sum(s.drop_last(), n) + if (s.last() as nat) < n {
            1int
        } else {
            0int
        },
    decreases n,
{
    if n > 0 {
        lemma_count_sum_step(s, (n - 1) as nat);
    }
}

proof fn lemma_count_sum_all(s: Seq<u8>)
    ensures
        count_sum(s, 256) == s.len(),
    decreases s.len(),
{
    if s.len() == 0 {
        lemma_count_sum_zero(s, 256);
    } else {
        lemma_count_sum_step(s, 256);
        lemma_count_sum_all(s.drop_last());
    }
}

proof fn lemma_count_sum_zero(s: Seq<u8>, n: nat)
    requires
        s.len() == 0,
    ensures
        count_sum(s, n) == 0,
    decreases n,
{
    if n > 0 {
        lemma_count_sum_zero(s, (n - 1) as nat);
    }
}

proof fn lemma_leaves_total(s: Seq<u8>, n: nat)
    requires
        n <= 256,
        s.len() <= u32::MAX,
    ensures
        total(spec_leaves(s, n)) == count_sum(s, n),
    decreases n,
{
    if n > 0 {
        lemma_leaves_total(s, (n - 1) as nat);
        let prev = spec_leaves(s, (n - 1) as nat);
        let v = (n - 1) as u8;
        if count(s, v) > 0 {
            lemma_count_le(s, v);
            assert(prev.push(leaf(v, count(s, v) as u32)).drop_last() == prev);
        }
    }
}

proof fn lemma_leaves_empty(s: Seq<u8>)
    requires
        s.len() <= u32::MAX,
    ensures
        (spec_leaves(s, 256).len() == 0) == (s.len() == 0),
{
    lemma_leaves_total(s, 256);
    lemma_count_sum_all(s);
    if s.len() == 0 {
        lemma_leaves_len_zero(s, 256);
    }
}

proof fn lemma_leaves_len_zero(s: Seq<u8>, n: nat)
    requires
        s.len() == 0,
    ensures
        spec_leaves(s, n).len() == 0,
    decreases n,
{
    if n > 0 {
        lemma_leaves_len_zero(s, (n - 1) as nat);
    }
}

proof fn lemma_total_nonneg(s: Seq<HuffmanTreeNode>)
    ensures
        total(s) >= 0,
    decreases s.len(),
{
    if s.len() > 0 {
        lemma_total_nonneg(s.drop_last());
    }
}

proof fn lemma_total_remove(s: Seq<HuffmanTreeNode>, i: int)
    requires
        0 <= i < s.len(),
    ensures
        total(s.remove(i)) == total(s) - s[i].freq,
    decreases s.len(),
{
    if i == s.len() - 1 {
        assert(s.remove(i) == s.drop_last());
    } else {
        lemma_total_remove(s.drop_last(), i);
        assert(s.remove(i).drop_last() == s.drop_last().remove(i));
    }
}

proof fn lemma_min_index_range(s: Seq<HuffmanTreeNode>)
    requires
        s.len() >= 1,
    ensures
        0 <= min_index(s) < s.len(),
    decreases s.len(),
{
    if s.len() > 1 {
        lemma_min_index_range(s.drop_last());
    }
}

proof fn lemma_join_len(s: Seq<HuffmanTreeNode>)
    requires
        s.len() >= 2,
    ensures
        spec_join(s).len() == s.len() - 1,
{
    lemma_min_index_range(s);
    lemma_min_index_range(s.remove(min_index(s)));
}

/// Index of the node that `min_index` selects.
fn find_min(nodes: &Vec<HuffmanTreeNode>) -> (r: usize)
    requires
        nodes@.len() >= 1,
    ensures
        r == min_index(nodes@),
        r < nodes@.len(),
{
    let mut best: usize = 0;
    let mut k: usize = 1;
    proof {
        assert(nodes@.take(1).len() == 1);
    }
    while k < nodes.len()
        invariant
            1 <= k <= nodes@.len(),
            best < k,
            best == min_index(nodes@.take(k as int)),
        decreases nodes@.len() - k,
    {
        let ghost t = nodes@.take(k as int + 1);
        proof {
            assert(t.drop_last() == nodes@.take(k as int));
        }
        let n = &nodes[k];
        let b = &nodes[best];
        if n.freq < b.freq || (n.freq == b.freq && n.value < b.value) {
            best = k;
        }
        k = k + 1;
    }
    proof {
        assert(nodes@.take(nodes@.len() as int) == nodes@);
    }
    best
}

/// One merge step: removes the two nodes selected by frequency (ties by byte
/// value, then by position) and appends their parent.
pub fn join_nodes(nodes: &mut Vec<HuffmanTreeNode>)
    requires
        old(nodes)@.len() >= 2,
        total(old(nodes)@) <= u32::MAX,
    ensures
        final(nodes)@ == spec_join(old(nodes)@),
        total(final(nodes)@) == total(old(nodes)@),
{
    let ghost s = nodes@;
    let i = find_min(nodes);
    let a = nodes.remove(i);
    let ghost s1 = nodes@;
    let j = find_min(nodes);
    let b = nodes.remove(j);
    proof {
        lemma_total_remove(s, i as int);
        lemma_total_remove(s1, j as int);
        lemma_total_nonneg(nodes@);
    }
    let freq = a.freq + b.freq;
    let ghost s2 = nodes@;
    nodes.push(HuffmanTreeNode { left: Some(Box::new(b)), right: Some(Box::new(a)), freq, value: 0 });
    proof {
        assert(nodes@.drop_last() == s2);
    }
}

/// One leaf per distinct byte value of `bytes`, in ascending order of value,
/// each with its number of occurrences.
pub fn collect_nodes(bytes: &[u8]) -> (r: Vec<HuffmanTreeNode>)
    requires
        bytes@.len() <= u32::MAX,
    ensures
        r@ == spec_leaves(bytes@, 256),
        total(r@) == bytes@.len(),
{
    let mut counts: Vec<u32> = vec![0u32; 256];
    let mut i: usize = 0;
    proof {
        assert forall|v: int| 0 <= v < 256 implies counts@[v] == count(bytes@.take(0), v as u8) by {
            assert(bytes@.take(0).len() == 0);
        }
    }
    while i < bytes.len()
        invariant
            i <= bytes@.len() <= u32::MAX,
            counts@.len() == 256,
            forall|v: int| 0 <= v < 256 ==> counts@[v] == count(bytes@.take(i as int), v as u8),
        decreases bytes@.len() - i,
    {
        let x = bytes[i];
        let ghost t = bytes@.take(i as int + 1);
        proof {
            assert(t.drop_last() == bytes@.take(i as int));
            lemma_count_le(bytes@.take(i as int), x);
        }
        let c = counts[x as usize];
        counts.set(x as usize, c + 1);
        i = i + 1;
        proof {
            assert forall|v: int| 0 <= v < 256 implies counts@[v] == count(t, v as u8) by {
                assert((v as u8 == x) == (v == x as int));
            }
        }
    }
    proof {
        assert(bytes@.take(i as int) == bytes@);
    }
    let mut nodes: Vec<HuffmanTreeNode> = Vec::new();
    let mut v: usize = 0;
    while v < 256
        invariant
            v <= 256,
            counts@.len() == 256,
            forall|w: int| 0 <= w < 256 ==> counts@[w] == count(bytes@, w as u8),
            nodes@ == spec_leaves(bytes@, v as nat),
        decreases 256 - v,
    {
        let c = counts[v];
        if c > 0 {
            nodes.push(HuffmanTreeNode::with_freq(v as u8, c));
        }
        v = v + 1;
    }
    proof {
        lemma_leaves_total(bytes@, 256);
        lemma_count_sum_all(bytes@);
    }
    nodes
}

} // verus!

verus! {

/// The child reached by bit `b`: 1 goes left, 0 goes right.
pub open spec fn child(t: HuffmanTreeNode, b: bool) -> Option<Box<HuffmanTreeNode>> {
    if b {
        t.left
    } else {
        t.right
    }
}

/// The node reached from `t` by following the bits of `p`.
pub open spec fn node_at(t: HuffmanTreeNode, p: Seq<bool>) -> Option<HuffmanTreeNode>
    decreases p.len(),
{
    if p.len() == 0 {
        Some(t)
    } else {
        match child(t, p[0]) {
            Some(c) => node_at(*c, p.drop_first()),
            None => None,
        }
    }
}

/// The byte value of the leaf that `p` reaches from `t`, if it reaches one.
pub open spec fn leaf_at(t: HuffmanTreeNode, p: Seq<bool>) -> Option<u8> {
    match node_at(t, p) {
        Some(n) => if n.spec_is_leaf() {
            Some(n.value)
        } else {
            None
        },
        None => None,
    }
}

/// The byte values held by the leaves of `t`.
pub open spec fn leaves(t: HuffmanTreeNode) -> Set<u8>
    decreases t,
{
    if t.spec_is_leaf() {
        set![t.value]
    } else {
        opt_leaves(t.left).union(opt_leaves(t.right))
    }
}

pub open spec fn opt_leaves(t: Option<Box<HuffmanTreeNode>>) -> Set<u8>
    decreases t,
{
    match t {
        Some(c) => leaves(*c),
        None => Set::empty(),
    }
}

/// Length of the longest path from `t` down to a leaf.
pub open spec fn height(t: HuffmanTreeNode) -> nat
    decreases t,
{
    if t.spec_is_leaf() {
        0
    } else {
        let l = opt_height(t.left);
        let r = opt_height(t.right);
        1 + if l >= r {
            l
        } else {
            r
        }
    }
}

pub open spec fn opt_height(t: Option<Box<HuffmanTreeNode>>) -> nat
    decreases t,
{
    match t {
        Some(c) => height(*c),
        None => 0,
    }
}

/// Every code present in `t` is well formed and leads from `root` to the
/// leaf of its byte value.
pub open spec fn codes_from(root: HuffmanTreeNode, t: Seq<Option<HuffmanCode>>) -> bool {
    t.len() == 256 && forall|b: int|
        0 <= b < 256 && (#[trigger] t[b]).is_some() ==> t[b].unwrap().wf() && leaf_at(
            root,
            t[b].unwrap().bits(),
        ) == Some(b as u8)
}

proof fn lemma_node_at_push(t: HuffmanTreeNode, p: Seq<bool>, b: bool)
    ensures
        node_at(t, p.push(b)) == match node_at(t, p) {
            Some(n) => match child(n, b) {
                Some(c) => Some(*c),
                None => None,
            },
            None => None,
        },
    decreases p.len(),
{
    let q = p.push(b);
    if p.len() == 0 {
        assert(q.drop_first().len() == 0);
        assert(q[0] == b);
        match child(t, b) {
            Some(c) => assert(node_at(*c, q.drop_first()) == Some(*c)),
            None => {},
        }
    } else {
        assert(q[0] == p[0]);
        assert(q.drop_first() == p.drop_first().push(b));
        match child(t, p[0]) {
            Some(c) => lemma_node_at_push(*c, p.drop_first(), b),
            None => {},
        }
    }
}

/// A path that goes on past a leaf reaches nothing.
proof fn lemma_past_leaf(t: HuffmanTreeNode, p: Seq<bool>, q: Seq<bool>)
    requires
        leaf_at(t, p).is_some(),
        p.len() < q.len(),
        q.subrange(0, p.len() as int) == p,
    ensures
        node_at(t, q).is_none(),
    decreases p.len(),
{
    if p.len() > 0 {
        assert(q[0] == p[0]);
        let c = child(t, p[0]).unwrap();
        assert(q.drop_first().subrange(0, p.len() - 1) == p.drop_first());
        lemma_past_leaf(*c, p.drop_first(), q.drop_first());
    }
}

proof fn lemma_leaf_at_in_leaves(t: HuffmanTreeNode, p: Seq<bool>)
    requires
        leaf_at(t, p).is_some(),
    ensures
        leaves(t).contains(leaf_at(t, p).unwrap()),
    decreases p.len(),
{
    if p.len() > 0 {
        let c = child(t, p[0]).unwrap();
        lemma_leaf_at_in_leaves(*c, p.drop_first());
    }
}

/// Codes that all lead to leaves of one tree form a prefix-free table.
pub proof fn lemma_codes_prefix_free(root: HuffmanTreeNode, t: Seq<Option<HuffmanCode>>)
    requires
        codes_from(root, t),
    ensures
        prefix_free(t),
{
    assert forall|i: int, j: int|
        0 <= i < t.len() && 0 <= j < t.len() && i != j && (#[trigger] t[i]).is_some() && (
        #[trigger] t[j]).is_some() implies !is_prefix(t[i].unwrap().bits(), t[j].unwrap().bits()) by {
        let a = t[i].unwrap().bits();
        let b = t[j].unwrap().bits();
        if is_prefix(a, b) {
            if a.len() == b.len() {
                assert(b.subrange(0, b.len() as int) == b);
            } else {
                lemma_past_leaf(root, a, b);
            }
        }
    }
}

/// Writes the code of every leaf under `node`, which `path` reaches from
/// `root`; false when a leaf lies deeper than 32 bits.
fn derive(
    node: HuffmanTreeNode,
    depth: u8,
    code: u32,
    Ghost(root): Ghost<HuffmanTreeNode>,
    Ghost(path): Ghost<Seq<bool>>,
    table: &mut Vec<Option<HuffmanCode>>,
) -> (ok: bool)
    requires
        codes_from(root, old(table)@),
        depth <= 32,
        path.len() == depth,
        pattern_bits(depth as nat, code) == path,
        node_at(root, path) == Some(node),
        depth == 0 ==> !node.spec_is_leaf(),
    ensures
        codes_from(root, final(table)@),
        forall|b: int| 0 <= b < 256 && (#[trigger] old(table)@[b]).is_some() ==> final(table)@[b].is_some(),
        ok <==> depth + height(node) <= 32,
        ok ==> forall|v: u8| #[trigger] leaves(node).contains(v) ==> final(table)@[v as int].is_some(),
    decreases node,
{
    if node.is_leaf() {
        let c = HuffmanCode::new(depth, code);
        table.set(node.value as usize, Some(c));
        return true;
    }
    if depth == 32 {
        return false;
    }
    let ghost orig = node;
    let HuffmanTreeNode { left, right, freq: _, value: _ } = node;
    let mut ok = true;
    let ghost right_done = true;
    match right {
        Some(r) => {
            proof {
                assert(opt_leaves(orig.right) == leaves(*r));
                lemma_node_at_push(root, path, false);
                lemma_push_bit(depth, code, false);
            }
            ok = derive(*r, depth + 1, code << 1u32, Ghost(root), Ghost(path.push(false)), table);
            proof {
                right_done = ok ==> forall|v: u8| #[trigger] opt_leaves(orig.right).contains(v) ==> table@[v as int].is_some();
            }
        },
        None => {},
    }
    let ghost mid = table@;
    if ok {
        match left {
            Some(l) => {
                proof {
                    assert(opt_leaves(orig.left) == leaves(*l));
                    lemma_node_at_push(root, path, true);
                    lemma_push_bit(depth, code, true);
                }
                ok = derive(
                    *l,
                    depth + 1,
                    (code << 1u32) | 1u32,
                    Ghost(root),
                    Ghost(path.push(true)),
                    table,
                );
            },
            None => {},
        }
    }
    proof {
        if ok {
            assert forall|v: u8| #[trigger] leaves(orig).contains(v) implies table@[v as int].is_some() by {
                if opt_leaves(orig.right).contains(v) {
                    assert(right_done);
                    assert(mid[v as int].is_some());
                }
            }
        }
    }
    ok
}

impl HuffmanTreeNode {
    /// The code table of the tree: the path to each leaf, 1 for left and 0
    /// for right. A tree that is a single leaf gets the one-bit code `0`.
    /// `None` when some leaf lies deeper than 32 bits.
    pub fn into_codes(self) -> (r: Option<CodeTable>)
        ensures
            r.is_some() <==> height(self) <= 32,
            r matches Some(t) ==> t.valid() && derived_from(t.codes@, self),
    {
        let mut codes: Vec<Option<HuffmanCode>> = vec![None; 256];
        if self.is_leaf() {
            let c = HuffmanCode::new(1, 0);
            codes.set(self.value as usize, Some(c));
            let t = CodeTable { codes };
            proof {
                assert(leaves(self) == set![self.value]);
                assert forall|v: u8| #[trigger] t.codes@[v as int].is_some() <==> leaves(
                    self,
                ).contains(v) by {
                    assert((v as int == self.value as int) == (v == self.value));
                }
            }
            return Some(t);
        }
        let ghost root = self;
        proof {
            assert(pattern_bits(0, 0) == Seq::<bool>::empty());
            assert(node_at(root, Seq::<bool>::empty()) == Some(root));
        }
        let ok = derive(self, 0, 0, Ghost(root), Ghost(Seq::empty()), &mut codes);
        if !ok {
            return None;
        }
        let t = CodeTable { codes };
        proof {
            lemma_codes_prefix_free(root, t.codes@);
            assert forall|v: u8| #[trigger] t.codes@[v as int].is_some() implies leaves(
                root,
            ).contains(v) by {
                assert(0 <= v as int && (v as int) < 256);
                lemma_leaf_at_in_leaves(root, t.codes@[v as int].unwrap().bits());
            }
        }
        Some(t)
    }
}

/// The byte values held by the leaves of a sequence of trees.
pub open spec fn nodes_leaves(s: Seq<HuffmanTreeNode>) -> Set<u8>
    decreases s.len(),
{
    if s.len() == 0 {
        Set::empty()
    } else {
        nodes_leaves(s.drop_last()).union(leaves(s.last()))
    }
}

proof fn lemma_count_pos(s: Seq<u8>, i: int)
    requires
        0 <= i < s.len(),
    ensures
        count(s, s[i]) > 0,
    decreases s.len(),
{
    if i < s.len() - 1 {
        lemma_count_pos(s.drop_last(), i);
    }
}

proof fn lemma_leaves_values(b: Seq<u8>, n: nat)
    requires
        n <= 256,
    ensures
        forall|v: u8| (v as nat) < n && count(b, v) > 0 ==> #[trigger] nodes_leaves(spec_leaves(b, n)).contains(v),
    decreases n,
{
    if n > 0 {
        lemma_leaves_values(b, (n - 1) as nat);
        let prev = spec_leaves(b, (n - 1) as nat);
        let v = (n - 1) as u8;
        if count(b, v) > 0 {
            let x = leaf(v, count(b, v) as u32);
            assert(prev.push(x).drop_last() == prev);
            assert(leaves(x) == set![v]);
        }
        assert forall|w: u8| (w as nat) < n && count(b, w) > 0 implies #[trigger] nodes_leaves(spec_leaves(b, n)).contains(w) by {
            if (w as nat) < n - 1 {
                assert(nodes_leaves(prev).contains(w));
            }
        }
    }
}

proof fn lemma_nodes_leaves_remove(s: Seq<HuffmanTreeNode>, i: int)
    requires
        0 <= i < s.len(),
    ensures
        nodes_leaves(s.remove(i)).union(leaves(s[i])) == nodes_leaves(s),
    decreases s.len(),
{
    if i == s.len() - 1 {
        assert(s.remove(i) == s.drop_last());
    } else {
        lemma_nodes_leaves_remove(s.drop_last(), i);
        assert(s.remove(i).drop_last() == s.drop_last().remove(i));
        assert(nodes_leaves(s.remove(i)).union(leaves(s[i])) =~= nodes_leaves(s));
    }
}

proof fn lemma_join_leaves(s: Seq<HuffmanTreeNode>)
    requires
        s.len() >= 2,
    ensures
        nodes_leaves(spec_join(s)) == nodes_leaves(s),
{
    let i = min_index(s);
    lemma_min_index_range(s);
    let s1 = s.remove(i);
    let j = min_index(s1);
    lemma_min_index_range(s1);
    let m = merged(s[i], s1[j]);
    lemma_nodes_leaves_remove(s, i);
    lemma_nodes_leaves_remove(s1, j);
    assert(spec_join(s).drop_last() == s1.remove(j));
    assert(leaves(m) == leaves(s1[j]).union(leaves(s[i])));
    assert(nodes_leaves(spec_join(s)) =~= nodes_leaves(s));
}

proof fn lemma_merge_all(s: Seq<HuffmanTreeNode>, n: nat)
    requires
        s.len() >= 1,
        n + 1 >= s.len(),
    ensures
        merge_all(s, n).len() == 1,
        nodes_leaves(merge_all(s, n)) == nodes_leaves(s),
    decreases n,
{
    if n > 0 && s.len() > 1 {
        lemma_join_len(s);
        lemma_join_leaves(s);
        lemma_merge_all(spec_join(s), (n - 1) as nat);
    }
}

proof fn lemma_count_contains(s: Seq<u8>, v: u8)
    requires
        count(s, v) > 0,
    ensures
        s.contains(v),
    decreases s.len(),
{
    if s.last() != v {
        lemma_count_contains(s.drop_last(), v);
        let i = choose|i: int| 0 <= i < s.drop_last().len() && s.drop_last()[i] == v;
        assert(s[i] == v);
    } else {
        assert(s[s.len() - 1] == v);
    }
}

proof fn lemma_leaves_counted(b: Seq<u8>, n: nat, v: u8)
    requires
        n <= 256,
        nodes_leaves(spec_leaves(b, n)).contains(v),
    ensures
        count(b, v) > 0,
    decreases n,
{
    if n > 0 {
        let prev = spec_leaves(b, (n - 1) as nat);
        let w = (n - 1) as u8;
        if count(b, w) > 0 {
            let x = leaf(w, count(b, w) as u32);
            assert(prev.push(x).drop_last() == prev);
            assert(leaves(x) == set![w]);
            if v != w {
                lemma_leaves_counted(b, (n - 1) as nat, v);
            }
        } else {
            lemma_leaves_counted(b, (n - 1) as nat, v);
        }
    }
}

/// Every leaf of the tree holds a byte of the input.
pub proof fn lemma_tree_leaves_from_input(b: Seq<u8>, v: u8)
    requires
        b.len() <= u32::MAX,
        spec_tree(b) matches Some(t) && leaves(t).contains(v),
    ensures
        b.contains(v),
{
    let s = spec_leaves(b, 256);
    lemma_leaves_empty(b);
    lemma_merge_all(s, s.len());
    let r = merge_all(s, s.len());
    assert(r.drop_last().len() == 0);
    assert(nodes_leaves(r.drop_last()) == Set::<u8>::empty());
    assert(nodes_leaves(r) =~= leaves(r[0]));
    lemma_leaves_counted(b, 256, v);
    lemma_count_contains(b, v);
}

/// Every byte of the input is a leaf of its tree.
pub proof fn lemma_tree_holds_input(b: Seq<u8>, i: int)
    requires
        0 <= i < b.len(),
        b.len() <= u32::MAX,
    ensures
        spec_tree(b) matches Some(t) && leaves(t).contains(b[i]),
{
    let s = spec_leaves(b, 256);
    lemma_count_pos(b, i);
    lemma_leaves_values(b, 256);
    assert(nodes_leaves(s).contains(b[i]));
    lemma_leaves_empty(b);
    lemma_merge_all(s, s.len());
    let r = merge_all(s, s.len());
    assert(r.drop_last().len() == 0);
    assert(nodes_leaves(r.drop_last()) == Set::<u8>::empty());
    assert(nodes_leaves(r) =~= leaves(r[0]));
}

/// No byte value sits at two different leaves of `t`.
pub open spec fn distinct_paths(t: HuffmanTreeNode) -> bool {
    forall|p: Seq<bool>, q: Seq<bool>|
        (#[trigger] leaf_at(t, p)).is_some() && leaf_at(t, p) == #[trigger] leaf_at(t, q) ==> p == q
}

/// The trees of a forest hold pairwise disjoint byte values, each at one leaf.
pub open spec fn sound_forest(s: Seq<HuffmanTreeNode>) -> bool {
    &&& forall|i: int| 0 <= i < s.len() ==> distinct_paths(#[trigger] s[i])
    &&& forall|i: int, j: int|
        0 <= i < s.len() && 0 <= j < s.len() && i != j ==> (#[trigger] leaves(s[i])).disjoint(
            #[trigger] leaves(s[j]),
        )
}

proof fn lemma_leaf_distinct(v: u8, f: u32)
    ensures
        distinct_paths(leaf(v, f)),
        leaves(leaf(v, f)) == set![v],
{
    let t = leaf(v, f);
    assert forall|p: Seq<bool>, q: Seq<bool>|
        (#[trigger] leaf_at(t, p)).is_some() && leaf_at(t, p) == #[trigger] leaf_at(t, q) implies p == q by {
        assert(p.len() == 0);
        assert(q.len() == 0);
        assert(p =~= q);
    }
}

proof fn lemma_merged_distinct(a: HuffmanTreeNode, b: HuffmanTreeNode)
    requires
        distinct_paths(a),
        distinct_paths(b),
        leaves(a).disjoint(leaves(b)),
    ensures
        distinct_paths(merged(a, b)),
        leaves(merged(a, b)) == leaves(b).union(leaves(a)),
{
    let m = merged(a, b);
    assert forall|p: Seq<bool>, q: Seq<bool>|
        (#[trigger] leaf_at(m, p)).is_some() && leaf_at(m, p) == #[trigger] leaf_at(m, q) implies p == q by {
        assert(p.len() > 0 && q.len() > 0);
        let cp = if p[0] { b } else { a };
        let cq = if q[0] { b } else { a };
        assert(leaf_at(m, p) == leaf_at(cp, p.drop_first()));
        assert(leaf_at(m, q) == leaf_at(cq, q.drop_first()));
        lemma_leaf_at_in_leaves(cp, p.drop_first());
        lemma_leaf_at_in_leaves(cq, q.drop_first());
        if p[0] == q[0] {
            assert(leaf_at(cp, p.drop_first()) == leaf_at(cp, q.drop_first()));
            assert(p.drop_first() == q.drop_first());
            assert(p =~= seq![p[0]] + p.drop_first());
            assert(q =~= seq![q[0]] + q.drop_first());
        } else {
            assert(leaves(cp).contains(leaf_at(m, p).unwrap()));
            assert(leaves(cq).contains(leaf_at(m, p).unwrap()));
        }
    }
}

proof fn lemma_leaves_sound(b: Seq<u8>, n: nat)
    requires
        n <= 256,
    ensures
        sound_forest(spec_leaves(b, n)),
        forall|i: int| 0 <= i < spec_leaves(b, n).len() ==> (#[trigger] spec_leaves(b, n)[i]).value < n
            && spec_leaves(b, n)[i].spec_is_leaf(),
    decreases n,
{
    if n > 0 {
        lemma_leaves_sound(b, (n - 1) as nat);
        let prev = spec_leaves(b, (n - 1) as nat);
        let v = (n - 1) as u8;
        if count(b, v) > 0 {
            let x = leaf(v, count(b, v) as u32);
            let s = prev.push(x);
            lemma_leaf_distinct(v, count(b, v) as u32);
            assert forall|i: int| 0 <= i < s.len() implies distinct_paths(#[trigger] s[i]) by {
                if i < prev.len() {
                    assert(s[i] == prev[i]);
                }
            }
            assert forall|i: int, j: int|
                0 <= i < s.len() && 0 <= j < s.len() && i != j implies (#[trigger] leaves(s[i])).disjoint(
                #[trigger] leaves(s[j])) by {
                if i < prev.len() {
                    lemma_leaf_distinct(prev[i].value, prev[i].freq);
                    assert(prev[i] == leaf(prev[i].value, prev[i].freq));
                }
                if j < prev.len() {
                    lemma_leaf_distinct(prev[j].value, prev[j].freq);
                    assert(prev[j] == leaf(prev[j].value, prev[j].freq));
                }
                if i < prev.len() && j < prev.len() {
                    assert(s[i] == prev[i] && s[j] == prev[j]);
                }
            }
        }
    }
}

proof fn lemma_remove_sound(s: Seq<HuffmanTreeNode>, i: int)
    requires
        sound_forest(s),
        0 <= i < s.len(),
    ensures
        sound_forest(s.remove(i)),
        forall|k: int| 0 <= k < s.remove(i).len() ==> leaves(s[i]).disjoint(#[trigger] leaves(s.remove(i)[k])),
{
    let r = s.remove(i);
    assert forall|k: int| 0 <= k < r.len() implies r[k] == s[if k < i { k } else { k + 1 }] by {}
    assert forall|k: int| 0 <= k < r.len() implies distinct_paths(#[trigger] r[k]) by {
        assert(r[k] == s[if k < i { k } else { k + 1 }]);
    }
    assert forall|k: int, l: int|
        0 <= k < r.len() && 0 <= l < r.len() && k != l implies (#[trigger] leaves(r[k])).disjoint(
        #[trigger] leaves(r[l])) by {
        assert(r[k] == s[if k < i { k } else { k + 1 }]);
        assert(r[l] == s[if l < i { l } else { l + 1 }]);
    }
    assert forall|k: int| 0 <= k < r.len() implies leaves(s[i]).disjoint(#[trigger] leaves(r[k])) by {
        assert(r[k] == s[if k < i { k } else { k + 1 }]);
    }
}

proof fn lemma_join_sound(s: Seq<HuffmanTreeNode>)
    requires
        sound_forest(s),
        s.len() >= 2,
    ensures
        sound_forest(spec_join(s)),
{
    let i = min_index(s);
    lemma_min_index_range(s);
    let s1 = s.remove(i);
    let j = min_index(s1);
    lemma_min_index_range(s1);
    lemma_remove_sound(s, i);
    lemma_remove_sound(s1, j);
    let s2 = s1.remove(j);
    let a = s[i];
    let b = s1[j];
    assert(leaves(a).disjoint(leaves(b)));
    lemma_merged_distinct(a, b);
    let m = merged(a, b);
    let r = s2.push(m);
    assert forall|k: int| 0 <= k < s2.len() implies leaves(a).disjoint(#[trigger] leaves(s2[k])) by {
        let k1 = if k < j { k } else { k + 1 };
        assert(s2[k] == s1[k1]);
        assert(leaves(a).disjoint(leaves(s1[k1])));
    }
    assert forall|k: int| 0 <= k < r.len() implies distinct_paths(#[trigger] r[k]) by {
        if k < s2.len() {
            assert(r[k] == s2[k]);
        }
    }
    assert forall|k: int, l: int|
        0 <= k < r.len() && 0 <= l < r.len() && k != l implies (#[trigger] leaves(r[k])).disjoint(
        #[trigger] leaves(r[l])) by {
        if k < s2.len() && l < s2.len() {
            assert(r[k] == s2[k] && r[l] == s2[l]);
        } else if k < s2.len() {
            assert(r[k] == s2[k]);
            assert(leaves(b).disjoint(leaves(s2[k])));
            assert(leaves(a).disjoint(leaves(s2[k])));
        } else {
            assert(r[l] == s2[l]);
            assert(leaves(b).disjoint(leaves(s2[l])));
            assert(leaves(a).disjoint(leaves(s2[l])));
        }
    }
}

proof fn lemma_merge_all_sound(s: Seq<HuffmanTreeNode>, n: nat)
    requires
        sound_forest(s),
    ensures
        sound_forest(merge_all(s, n)),
    decreases n,
{
    if n > 0 && s.len() > 1 {
        lemma_join_sound(s);
        lemma_merge_all_sound(spec_join(s), (n - 1) as nat);
    }
}

/// Each byte value of the built tree sits at exactly one leaf.
pub proof fn lemma_tree_distinct(b: Seq<u8>)
    requires
        b.len() <= u32::MAX,
        spec_tree(b).is_some(),
    ensures
        distinct_paths(spec_tree(b).unwrap()),
{
    let s = spec_leaves(b, 256);
    lemma_leaves_sound(b, 256);
    lemma_merge_all_sound(s, s.len());
}

/// The table of `root`: a code for exactly the values of its leaves, the
/// path to each leaf, and the one-bit code `0` for a tree of one leaf.
pub open spec fn derived_from(t: Seq<Option<HuffmanCode>>, root: HuffmanTreeNode) -> bool {
    &&& t.len() == 256
    &&& forall|v: u8| #[trigger] t[v as int].is_some() <==> leaves(root).contains(v)
    &&& root.spec_is_leaf() ==> t[root.value as int] == Some(HuffmanCode::spec_new(1, 0))
    &&& !root.spec_is_leaf() ==> codes_from(root, t)
}

/// A tree whose values each sit at one leaf has only one table.
pub proof fn lemma_table_unique(
    root: HuffmanTreeNode,
    t1: Seq<Option<HuffmanCode>>,
    t2: Seq<Option<HuffmanCode>>,
)
    requires
        distinct_paths(root),
        derived_from(t1, root),
        derived_from(t2, root),
    ensures
        t1 == t2,
{
    assert forall|b: int| 0 <= b < 256 implies t1[b] == t2[b] by {
        let v = b as u8;
        assert(v as int == b);
        if t1[b].is_some() {
            assert(t2[b].is_some());
            if root.spec_is_leaf() {
                assert(leaves(root) == set![root.value]);
                assert(v == root.value);
            } else {
                let c1 = t1[b].unwrap();
                let c2 = t2[b].unwrap();
                assert(leaf_at(root, c1.bits()) == leaf_at(root, c2.bits()));
                lemma_bits_determine(c1, c2);
            }
        } else {
            assert(t2[b].is_none());
        }
    }
    assert(t1 =~= t2);
}

} // verus!
