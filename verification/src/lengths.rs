//! Code lengths from symbol frequencies, limited to a greatest length.
//!
//! The lengths come from the package-merge method. What the coder relies on is
//! stated of the result and checked on it: every symbol that occurs has a code,
//! no code is longer than the limit, and the lengths leave room for a prefix
//! code.

use crate::canonical::{count_width, widths_within};
use vstd::arithmetic::power2::{lemma2_to64, lemma_pow2_unfold, pow2};
use vstd::prelude::*;

verus! {

/// How many codes of `w` bits the code lengths up to `w` take up: a code of
/// `w - k` bits counts for `2^k`.
pub open spec fn kraft(widths: Seq<u8>, w: int) -> int
    decreases w,
{
    if w <= 0 {
        0
    } else {
        2 * kraft(widths, w - 1) + count_width(widths, w, widths.len() as int)
    }
}

/// The code lengths leave room for a prefix code of at most 15 bits.
pub open spec fn prefix_free(widths: Seq<u8>) -> bool {
    widths_within(widths, 15) && kraft(widths, 15) <= 32768
}

/// The code lengths fit the frequencies: one length per symbol, a code for
/// every symbol that occurs and for no other, none longer than `limit`, and
/// room for a prefix code.
pub open spec fn lengths_fit(widths: Seq<u8>, freqs: Seq<usize>, limit: int) -> bool {
    &&& widths.len() == freqs.len()
    &&& widths_within(widths, limit)
    &&& prefix_free(widths)
    &&& forall|i: int| 0 <= i < freqs.len() ==> (freqs[i] > 0 <==> #[trigger] widths[i] >= 1)
}

/// Codes of `limit` bits for the symbols that occur.
pub open spec fn flat_lengths(freqs: Seq<usize>, limit: int) -> Seq<u8> {
    Seq::new(
        freqs.len(),
        |i: int|
            if freqs[i] > 0 {
                limit as u8
            } else {
                0u8
            },
    )
}

/// A run of symbols with the sum of their weights.
pub struct Node {
    pub weight: u64,
    pub symbols: Vec<u16>,
}

/// A node as contracts speak of it.
pub struct NodeSpec {
    pub weight: int,
    pub symbols: Seq<u16>,
}

impl View for Node {
    type V = NodeSpec;

    open spec fn view(&self) -> NodeSpec {
        NodeSpec { weight: self.weight as int, symbols: self.symbols@ }
    }
}

/// The nodes of a list as contracts speak of them.
pub open spec fn views(list: Seq<Node>) -> Seq<NodeSpec> {
    Seq::new(list.len(), |i: int| list[i]@)
}

/// The sum of two weights, held at the greatest value that a weight can have.
pub open spec fn sat_add(a: int, b: int) -> int {
    if a + b > u64::MAX {
        u64::MAX as int
    } else {
        a + b
    }
}

/// One node for two: the symbols of both, the sum of their weights.
pub open spec fn join(a: NodeSpec, b: NodeSpec) -> NodeSpec {
    NodeSpec { weight: sat_add(a.weight, b.weight), symbols: a.symbols + b.symbols }
}

/// Where a node of the given weight goes in a list ordered by weight: after
/// the nodes below `at` that are not heavier.
pub open spec fn place(list: Seq<NodeSpec>, weight: int, at: int) -> int
    decreases at,
{
    if at > 0 && list[at - 1].weight > weight {
        place(list, weight, at - 1)
    } else {
        at
    }
}

/// One node per symbol below `upto` that occurs, lightest first; symbols of
/// one weight stay in their order.
pub open spec fn singletons_spec(freqs: Seq<usize>, upto: int) -> Seq<NodeSpec>
    decreases upto,
{
    if upto <= 0 {
        Seq::empty()
    } else {
        let before = singletons_spec(freqs, upto - 1);
        if freqs[upto - 1] > 0 {
            let weight = freqs[upto - 1] as int;
            before.insert(
                place(before, weight, before.len() as int),
                NodeSpec { weight, symbols: seq![(upto - 1) as u16] },
            )
        } else {
            before
        }
    }
}

/// The nodes joined two by two; a last node without a partner is dropped. A
/// list of fewer than two nodes stays as it is.
pub open spec fn package_spec(list: Seq<NodeSpec>) -> Seq<NodeSpec> {
    if list.len() < 2 {
        list
    } else {
        Seq::new((list.len() / 2) as nat, |i: int| join(list[2 * i], list[2 * i + 1]))
    }
}

/// Whether the next node of the merged list comes from `x`: `y` is used up,
/// or the next of `x` is not heavier than the next of `y`.
pub open spec fn takes_first(x: Seq<NodeSpec>, y: Seq<NodeSpec>, i: int, j: int) -> bool {
    if i >= x.len() {
        false
    } else if j >= y.len() {
        true
    } else {
        x[i].weight <= y[j].weight
    }
}

/// What is left of `x` from `i` and of `y` from `j`, as one list ordered by
/// weight; of two nodes of one weight the one of `x` comes first.
pub open spec fn merge_spec(x: Seq<NodeSpec>, y: Seq<NodeSpec>, i: int, j: int) -> Seq<NodeSpec>
    decreases x.len() - i + y.len() - j,
{
    if i < 0 || j < 0 || i > x.len() || j > y.len() || (i == x.len() && j == y.len()) {
        Seq::empty()
    } else if takes_first(x, y, i, j) {
        seq![x[i]] + merge_spec(x, y, i + 1, j)
    } else {
        seq![y[j]] + merge_spec(x, y, i, j + 1)
    }
}

/// The list after `k` rounds of packaging it and merging the packages with
/// the nodes of the single symbols.
pub open spec fn rounds_spec(source: Seq<NodeSpec>, k: int) -> Seq<NodeSpec>
    decreases k,
{
    if k <= 0 {
        source
    } else {
        merge_spec(package_spec(rounds_spec(source, k - 1)), source, 0, 0)
    }
}

/// Where a tree of the given weight and depth goes among trees ordered by
/// weight and then by depth, the deeper first.
pub open spec fn tree_place(trees: Seq<(int, int)>, tree: (int, int), at: int) -> int
    decreases trees.len() - at,
{
    if 0 <= at < trees.len() && (trees[at].0 < tree.0 || (trees[at].0 == tree.0
        && trees[at].1 > tree.1)) {
        tree_place(trees, tree, at + 1)
    } else {
        at
    }
}

/// The trees with one more at its place.
pub open spec fn insert_tree_spec(trees: Seq<(int, int)>, tree: (int, int)) -> Seq<(int, int)> {
    trees.insert(tree_place(trees, tree, 0), tree)
}

/// One tree per symbol below `upto` that occurs, of depth 0.
pub open spec fn leaves_spec(freqs: Seq<usize>, upto: int) -> Seq<(int, int)>
    decreases upto,
{
    if upto <= 0 {
        Seq::empty()
    } else if freqs[upto - 1] > 0 {
        insert_tree_spec(leaves_spec(freqs, upto - 1), (freqs[upto - 1] as int, 0))
    } else {
        leaves_spec(freqs, upto - 1)
    }
}

/// The tree that joins the first two of `trees`.
pub open spec fn joined_tree(trees: Seq<(int, int)>) -> (int, int) {
    let deeper = if trees[0].1 > trees[1].1 {
        trees[0].1
    } else {
        trees[1].1
    };
    (sat_add(trees[0].0, trees[1].0), if deeper < 255 {
        deeper + 1
    } else {
        255
    })
}

/// The depth of the one tree that is left when the two first trees are joined
/// again and again; 1 where it is less.
pub open spec fn reduce_spec(trees: Seq<(int, int)>) -> int
    decreases trees.len(),
    via reduce_decreases
{
    if trees.len() > 1 {
        reduce_spec(insert_tree_spec(trees.remove(0).remove(0), joined_tree(trees)))
    } else if trees.len() == 1 && trees[0].1 > 1 {
        trees[0].1
    } else {
        1
    }
}

#[via_fn]
proof fn reduce_decreases(trees: Seq<(int, int)>) {
    if trees.len() > 1 {
        let rest = trees.remove(0).remove(0);
        lemma_tree_place_bounds(rest, joined_tree(trees), 0);
    }
}

/// A tree's place is within the list.
pub proof fn lemma_tree_place_bounds(trees: Seq<(int, int)>, tree: (int, int), at: int)
    requires
        0 <= at <= trees.len(),
    ensures
        at <= tree_place(trees, tree, at) <= trees.len(),
    decreases trees.len() - at,
{
    if 0 <= at < trees.len() && (trees[at].0 < tree.0 || (trees[at].0 == tree.0
        && trees[at].1 > tree.1)) {
        lemma_tree_place_bounds(trees, tree, at + 1);
    }
}

/// The depth of the Huffman tree for the frequencies, without a limit.
pub open spec fn optimal_depth_spec(freqs: Seq<usize>) -> int {
    reduce_spec(leaves_spec(freqs, freqs.len() as int))
}

/// The code lengths with the one of `sym` a bit longer.
pub open spec fn bump(widths: Seq<u8>, sym: int) -> Seq<u8> {
    if 0 <= sym < widths.len() && widths[sym] < 255 {
        widths.update(sym, (widths[sym] + 1) as u8)
    } else {
        widths
    }
}

/// The code lengths with one bit more for each of the first `m` symbols.
pub open spec fn bump_all(widths: Seq<u8>, symbols: Seq<u16>, m: int) -> Seq<u8>
    decreases m,
{
    if m <= 0 {
        widths
    } else {
        bump(bump_all(widths, symbols, m - 1), symbols[m - 1] as int)
    }
}

/// The code lengths with one bit more for each symbol of the first `k` nodes.
pub open spec fn count_nodes(widths: Seq<u8>, nodes: Seq<NodeSpec>, k: int) -> Seq<u8>
    decreases k,
{
    if k <= 0 {
        widths
    } else {
        bump_all(count_nodes(widths, nodes, k - 1), nodes[k - 1].symbols, nodes[k - 1].symbols.len() as int)
    }
}

/// The code lengths that package-merge gives: as many rounds as the limit
/// allows and the unlimited tree needs, and for each symbol the number of
/// times that it occurs in the packages of the last list.
pub open spec fn package_merge_spec(freqs: Seq<usize>, limit: int) -> Seq<u8> {
    let source = singletons_spec(freqs, freqs.len() as int);
    let depth = optimal_depth_spec(freqs);
    let rounds = if depth < limit {
        depth
    } else {
        limit
    };
    let last = package_spec(rounds_spec(source, rounds - 1));
    count_nodes(Seq::new(freqs.len(), |i: int| 0u8), last, last.len() as int)
}

/// The code lengths for the frequencies, none above `limit`: those of
/// package-merge where they fit, else `limit` bits for every symbol that
/// occurs.
pub open spec fn limit_lengths_spec(freqs: Seq<usize>, limit: int) -> Seq<u8> {
    let widths = package_merge_spec(freqs, limit);
    if lengths_fit(widths, freqs, limit) {
        widths
    } else {
        flat_lengths(freqs, limit)
    }
}

/// Every symbol of the node is below `n`.
pub open spec fn node_ok(node: Node, n: int) -> bool {
    forall|k: int| 0 <= k < node.symbols@.len() ==> (#[trigger] node.symbols@[k] as int) < n
}

/// Every symbol of every node is below `n`.
pub open spec fn nodes_ok(list: Seq<Node>, n: int) -> bool {
    forall|k: int| 0 <= k < list.len() ==> node_ok(#[trigger] list[k], n)
}

/// The sum of two weights, held at the greatest value where it would pass it.
fn add_weights(a: u64, b: u64) -> (r: u64)
    ensures
        r as int == sat_add(a as int, b as int),
{
    if a > u64::MAX - b {
        u64::MAX
    } else {
        a + b
    }
}

/// A copy of the node.
fn copy_node(node: &Node, Ghost(n): Ghost<int>) -> (r: Node)
    requires
        node_ok(*node, n),
    ensures
        node_ok(r, n),
        r@ == node@,
{
    let mut symbols: Vec<u16> = Vec::new();
    let mut k: usize = 0;
    while k < node.symbols.len()
        invariant
            k <= node.symbols@.len(),
            symbols@ == node.symbols@.subrange(0, k as int),
        decreases node.symbols@.len() - k,
    {
        symbols.push(node.symbols[k]);
        k += 1;
        proof {
            assert(node.symbols@.subrange(0, k as int) =~= node.symbols@.subrange(0, k - 1).push(
                node.symbols@[k - 1],
            ));
        }
    }
    proof {
        assert(node.symbols@.subrange(0, node.symbols@.len() as int) =~= node.symbols@);
    }
    Node { weight: node.weight, symbols }
}

/// One node for two: the symbols of both, the sum of their weights.
fn join_nodes(a: &Node, b: &Node, Ghost(n): Ghost<int>) -> (r: Node)
    requires
        node_ok(*a, n),
        node_ok(*b, n),
    ensures
        node_ok(r, n),
        r@ == join(a@, b@),
{
    let mut r = copy_node(a, Ghost(n));
    let ghost first = r.symbols@;
    let mut k: usize = 0;
    while k < b.symbols.len()
        invariant
            k <= b.symbols@.len(),
            r.symbols@ == first + b.symbols@.subrange(0, k as int),
        decreases b.symbols@.len() - k,
    {
        r.symbols.push(b.symbols[k]);
        k += 1;
        proof {
            assert(first + b.symbols@.subrange(0, k as int) =~= (first + b.symbols@.subrange(
                0,
                k - 1,
            )).push(b.symbols@[k - 1]));
        }
    }
    proof {
        assert(b.symbols@.subrange(0, b.symbols@.len() as int) =~= b.symbols@);
        assert forall|k: int| 0 <= k < r.symbols@.len() implies (#[trigger] r.symbols@[k] as int)
            < n by {
            if k < first.len() {
                assert((a.symbols@[k] as int) < n);
            } else {
                assert((b.symbols@[k - first.len()] as int) < n);
            }
        }
    }
    r.weight = add_weights(a.weight, b.weight);
    r
}

/// A copy of the list.
fn copy_nodes(list: &Vec<Node>, Ghost(n): Ghost<int>) -> (r: Vec<Node>)
    requires
        nodes_ok(list@, n),
    ensures
        nodes_ok(r@, n),
        r@.len() == list@.len(),
        views(r@) == views(list@),
{
    let mut out: Vec<Node> = Vec::new();
    let mut k: usize = 0;
    while k < list.len()
        invariant
            k <= list@.len(),
            out@.len() == k,
            nodes_ok(list@, n),
            nodes_ok(out@, n),
            forall|j: int| 0 <= j < k ==> (#[trigger] out@[j])@ == list@[j]@,
        decreases list@.len() - k,
    {
        assert(node_ok(list@[k as int], n));
        let node = copy_node(&list[k], Ghost(n));
        let ghost before = out@;
        out.push(node);
        proof {
            assert forall|j: int| 0 <= j < out@.len() implies node_ok(#[trigger] out@[j], n) by {
                if j < before.len() {
                    assert(node_ok(before[j], n));
                }
            }
            assert forall|j: int| 0 <= j < k + 1 implies (#[trigger] out@[j])@ == list@[j]@ by {
                if j < k {
                    assert(before[j]@ == list@[j]@);
                }
            }
        }
        k += 1;
    }
    proof {
        assert(views(out@) =~= views(list@));
    }
    out
}

/// One node per symbol that occurs, lightest first; symbols of one weight
/// stay in their order.
fn singletons(freqs: &[usize]) -> (r: Vec<Node>)
    requires
        freqs@.len() <= 0x8000,
    ensures
        nodes_ok(r@, freqs@.len() as int),
        r@.len() <= freqs@.len(),
        views(r@) == singletons_spec(freqs@, freqs@.len() as int),
{
    let n: usize = freqs.len();
    let mut list: Vec<Node> = Vec::new();
    let mut s: usize = 0;
    proof {
        assert(views(list@) =~= singletons_spec(freqs@, 0));
    }
    while s < n
        invariant
            s <= n,
            n == freqs@.len(),
            n <= 0x8000,
            list@.len() <= s,
            nodes_ok(list@, n as int),
            views(list@) == singletons_spec(freqs@, s as int),
        decreases n - s,
    {
        if freqs[s] > 0 {
            let weight: u64 = freqs[s] as u64;
            let ghost before = list@;
            let ghost vb = views(before);
            // The place after the last node that is not heavier.
            let mut at: usize = list.len();
            while at > 0 && list[at - 1].weight > weight
                invariant
                    at <= list@.len(),
                    list@ == before,
                    vb == views(before),
                    place(vb, weight as int, at as int) == place(vb, weight as int, before.len() as int),
                decreases at,
            {
                proof {
                    assert(vb[at - 1] == before[at - 1]@);
                }
                at -= 1;
            }
            proof {
                if at > 0 {
                    assert(vb[at - 1] == before[at - 1]@);
                }
                assert(place(vb, weight as int, at as int) == at);
            }
            let mut symbols: Vec<u16> = Vec::new();
            symbols.push(s as u16);
            let node = Node { weight, symbols };
            proof {
                assert(node.symbols@ =~= seq![s as u16]);
            }
            list.insert(at, node);
            proof {
                assert forall|k: int| 0 <= k < list@.len() implies node_ok(#[trigger] list@[k], n as int) by {
                    if k < at {
                        assert(node_ok(before[k], n as int));
                    } else if k > at {
                        assert(node_ok(before[k - 1], n as int));
                    }
                }
                assert(views(list@) =~= vb.insert(at as int, node@));
            }
        }
        s += 1;
    }
    list
}

/// Joins the nodes two by two; a last node without a partner is dropped. A
/// list of fewer than two nodes stays as it is.
fn package(list: &Vec<Node>, Ghost(n): Ghost<int>) -> (r: Vec<Node>)
    requires
        nodes_ok(list@, n),
    ensures
        nodes_ok(r@, n),
        r@.len() == if list@.len() < 2 {
            list@.len() as int
        } else {
            list@.len() as int / 2
        },
        views(r@) == package_spec(views(list@)),
{
    if list.len() < 2 {
        return copy_nodes(list, Ghost(n));
    }
    let mut out: Vec<Node> = Vec::new();
    let total: usize = list.len();
    let half: usize = total / 2;
    let mut i: usize = 0;
    while i < half
        invariant
            i <= half,
            total == list@.len(),
            half == total / 2,
            out@.len() == i,
            nodes_ok(list@, n),
            nodes_ok(out@, n),
            forall|j: int| 0 <= j < i ==> (#[trigger] out@[j])@ == join(list@[2 * j]@, list@[2 * j + 1]@),
        decreases half - i,
    {
        assert(node_ok(list@[2 * i], n));
        assert(node_ok(list@[2 * i + 1], n));
        let node = join_nodes(&list[2 * i], &list[2 * i + 1], Ghost(n));
        let ghost before = out@;
        out.push(node);
        proof {
            assert forall|j: int| 0 <= j < out@.len() implies node_ok(#[trigger] out@[j], n) by {
                if j < before.len() {
                    assert(node_ok(before[j], n));
                }
            }
            assert forall|j: int| 0 <= j < i + 1 implies (#[trigger] out@[j])@ == join(
                list@[2 * j]@,
                list@[2 * j + 1]@,
            ) by {
                if j < i {
                    assert(before[j]@ == join(list@[2 * j]@, list@[2 * j + 1]@));
                }
            }
        }
        i += 1;
    }
    proof {
        assert(views(out@) =~= package_spec(views(list@)));
    }
    out
}

/// One list of two that are ordered by weight: the lighter node first, and of
/// two nodes of one weight the one of `x`.
fn merge(x: &Vec<Node>, y: &Vec<Node>, Ghost(n): Ghost<int>) -> (r: Vec<Node>)
    requires
        nodes_ok(x@, n),
        nodes_ok(y@, n),
        x@.len() + y@.len() <= usize::MAX,
    ensures
        nodes_ok(r@, n),
        r@.len() == x@.len() + y@.len(),
        views(r@) == merge_spec(views(x@), views(y@), 0, 0),
{
    let mut out: Vec<Node> = Vec::new();
    let mut i: usize = 0;
    let mut j: usize = 0;
    let ghost vx = views(x@);
    let ghost vy = views(y@);
    proof {
        assert(views(out@) + merge_spec(vx, vy, 0, 0) =~= merge_spec(vx, vy, 0, 0));
    }
    while i < x.len() || j < y.len()
        invariant
            i <= x@.len(),
            j <= y@.len(),
            out@.len() == i + j,
            nodes_ok(x@, n),
            nodes_ok(y@, n),
            nodes_ok(out@, n),
            vx == views(x@),
            vy == views(y@),
            views(out@) + merge_spec(vx, vy, i as int, j as int) == merge_spec(vx, vy, 0, 0),
        decreases x@.len() - i + y@.len() - j,
    {
        let from_x: bool = if i >= x.len() {
            false
        } else if j >= y.len() {
            true
        } else {
            x[i].weight <= y[j].weight
        };
        let ghost before = out@;
        let ghost rest = merge_spec(vx, vy, i as int, j as int);
        proof {
            if i < x@.len() {
                assert(vx[i as int] == x@[i as int]@);
            }
            if j < y@.len() {
                assert(vy[j as int] == y@[j as int]@);
            }
            assert(from_x == takes_first(vx, vy, i as int, j as int));
        }
        if from_x {
            assert(node_ok(x@[i as int], n));
            let node = copy_node(&x[i], Ghost(n));
            out.push(node);
            proof {
                assert(views(out@) =~= views(before).push(vx[i as int]));
                assert(views(before).push(vx[i as int]) + merge_spec(vx, vy, i + 1, j as int)
                    =~= views(before) + rest);
            }
            i += 1;
        } else {
            assert(node_ok(y@[j as int], n));
            let node = copy_node(&y[j], Ghost(n));
            out.push(node);
            proof {
                assert(views(out@) =~= views(before).push(vy[j as int]));
                assert(views(before).push(vy[j as int]) + merge_spec(vx, vy, i as int, j + 1)
                    =~= views(before) + rest);
            }
            j += 1;
        }
        proof {
            assert forall|k: int| 0 <= k < out@.len() implies node_ok(#[trigger] out@[k], n) by {
                if k < before.len() {
                    assert(node_ok(before[k], n));
                }
            }
        }
    }
    proof {
        assert(merge_spec(vx, vy, i as int, j as int) =~= Seq::<NodeSpec>::empty());
        assert(views(out@) + Seq::<NodeSpec>::empty() =~= views(out@));
    }
    out
}

/// The trees held in two lists, as pairs of weight and depth.
pub open spec fn trees_view(weights: Seq<u64>, depths: Seq<u8>) -> Seq<(int, int)> {
    Seq::new(weights.len(), |i: int| (weights[i] as int, depths[i] as int))
}

/// Enters a tree at its place in the order: after the lighter trees and after
/// the trees of its weight that are deeper.
fn insert_tree(weights: &mut Vec<u64>, depths: &mut Vec<u8>, weight: u64, depth: u8)
    requires
        old(weights)@.len() == old(depths)@.len(),
    ensures
        final(weights)@.len() == final(depths)@.len(),
        final(weights)@.len() == old(weights)@.len() + 1,
        trees_view(final(weights)@, final(depths)@) == insert_tree_spec(
            trees_view(old(weights)@, old(depths)@),
            (weight as int, depth as int),
        ),
{
    let ghost trees = trees_view(weights@, depths@);
    let ghost tree = (weight as int, depth as int);
    let mut at: usize = 0;
    while at < weights.len() && (weights[at] < weight || (weights[at] == weight
        && depths[at] > depth))
        invariant
            at <= weights@.len(),
            weights@.len() == depths@.len(),
            weights@ == old(weights)@,
            depths@ == old(depths)@,
            trees == trees_view(weights@, depths@),
            tree == (weight as int, depth as int),
            tree_place(trees, tree, at as int) == tree_place(trees, tree, 0),
        decreases weights@.len() - at,
    {
        proof {
            assert(trees[at as int] == (weights@[at as int] as int, depths@[at as int] as int));
        }
        at += 1;
    }
    proof {
        if at < weights@.len() {
            assert(trees[at as int] == (weights@[at as int] as int, depths@[at as int] as int));
        }
        assert(tree_place(trees, tree, at as int) == at);
    }
    weights.insert(at, weight);
    depths.insert(at, depth);
    proof {
        assert(trees_view(weights@, depths@) =~= trees.insert(at as int, tree));
    }
}

/// The depth of the Huffman tree for the frequencies, without a limit; at
/// least 1. Of the trees of least weight the two lightest are joined, and of
/// trees of one weight the deeper one first.
fn optimal_depth(freqs: &[usize]) -> (r: u8)
    ensures
        r >= 1,
        r as int == optimal_depth_spec(freqs@),
{
    let mut weights: Vec<u64> = Vec::new();
    let mut depths: Vec<u8> = Vec::new();
    let mut s: usize = 0;
    proof {
        assert(trees_view(weights@, depths@) =~= leaves_spec(freqs@, 0));
    }
    while s < freqs.len()
        invariant
            s <= freqs@.len(),
            weights@.len() == depths@.len(),
            trees_view(weights@, depths@) == leaves_spec(freqs@, s as int),
        decreases freqs@.len() - s,
    {
        if freqs[s] > 0 {
            insert_tree(&mut weights, &mut depths, freqs[s] as u64, 0);
        }
        s += 1;
    }
    while weights.len() > 1
        invariant
            weights@.len() == depths@.len(),
            reduce_spec(trees_view(weights@, depths@)) == optimal_depth_spec(freqs@),
        decreases weights@.len(),
    {
        let ghost trees = trees_view(weights@, depths@);
        proof {
            assert(trees[0] == (weights@[0] as int, depths@[0] as int));
            assert(trees[1] == (weights@[1] as int, depths@[1] as int));
        }
        let w1: u64 = weights.remove(0);
        let d1: u8 = depths.remove(0);
        let w2: u64 = weights.remove(0);
        let d2: u8 = depths.remove(0);
        proof {
            assert(trees_view(weights@, depths@) =~= trees.remove(0).remove(0));
        }
        let deeper: u8 = if d1 > d2 {
            d1
        } else {
            d2
        };
        let depth: u8 = if deeper < 255 {
            deeper + 1
        } else {
            255
        };
        insert_tree(&mut weights, &mut depths, add_weights(w1, w2), depth);
    }
    proof {
        let trees = trees_view(weights@, depths@);
        if weights@.len() == 1 {
            assert(trees[0] == (weights@[0] as int, depths@[0] as int));
        }
    }
    if depths.len() == 1 && depths[0] > 1 {
        depths[0]
    } else {
        1
    }
}

/// One bit more for each symbol of the nodes.
fn count_symbols(last: &Vec<Node>, n: usize) -> (r: Vec<u8>)
    requires
        nodes_ok(last@, n as int),
    ensures
        r@ == count_nodes(Seq::new(n as nat, |i: int| 0u8), views(last@), last@.len() as int),
        r@.len() == n,
{
    let ghost zeros = Seq::new(n as nat, |i: int| 0u8);
    let ghost nodes = views(last@);
    let mut widths: Vec<u8> = Vec::new();
    let mut s: usize = 0;
    while s < n
        invariant
            s <= n,
            widths@.len() == s,
            forall|i: int| 0 <= i < s ==> widths@[i] == 0,
        decreases n - s,
    {
        widths.push(0);
        s += 1;
    }
    proof {
        assert(widths@ =~= zeros);
    }
    let mut k: usize = 0;
    while k < last.len()
        invariant
            k <= last@.len(),
            widths@.len() == n,
            nodes_ok(last@, n as int),
            nodes == views(last@),
            widths@ == count_nodes(zeros, nodes, k as int),
        decreases last@.len() - k,
    {
        let mut m: usize = 0;
        assert(node_ok(last@[k as int], n as int));
        assert(nodes[k as int] == last@[k as int]@);
        let ghost before = widths@;
        let ghost symbols = last@[k as int].symbols@;
        while m < last[k].symbols.len()
            invariant
                k < last@.len(),
                m <= symbols.len(),
                symbols == last@[k as int].symbols@,
                widths@.len() == n,
                node_ok(last@[k as int], n as int),
                widths@ == bump_all(before, symbols, m as int),
            decreases symbols.len() - m,
        {
            let sym: usize = last[k].symbols[m] as usize;
            assert((last@[k as int].symbols@[m as int] as int) < n);
            if widths[sym] < 255 {
                widths[sym] = widths[sym] + 1;
            }
            m += 1;
        }
        k += 1;
    }
    widths
}

/// Code lengths by package-merge: each symbol's length is the number of times
/// it occurs in the packages of the last round.
pub fn package_merge(freqs: &[usize], limit: u8) -> (r: Vec<u8>)
    requires
        1 <= limit <= 15,
        freqs@.len() <= 0x8000,
    ensures
        r@.len() == freqs@.len(),
        r@ == package_merge_spec(freqs@, limit as int),
{
    let n: usize = freqs.len();
    let source = singletons(freqs);
    let depth: u8 = optimal_depth(freqs);
    let rounds: u8 = if depth < limit {
        depth
    } else {
        limit
    };
    let mut weighted = copy_nodes(&source, Ghost(n as int));
    let mut round: u8 = 1;
    while round < rounds
        invariant
            1 <= round <= rounds,
            n == freqs@.len(),
            n <= 0x8000,
            nodes_ok(source@, n as int),
            nodes_ok(weighted@, n as int),
            source@.len() <= n,
            weighted@.len() <= 2 * n,
            views(weighted@) == rounds_spec(views(source@), round - 1),
        decreases rounds - round,
    {
        let packaged = package(&weighted, Ghost(n as int));
        weighted = merge(&packaged, &source, Ghost(n as int));
        round += 1;
    }
    let last = package(&weighted, Ghost(n as int));
    count_symbols(&last, n)
}

/// There are at most `upto` symbols of any one length.
pub proof fn lemma_kraft_bound(widths: Seq<u8>, w: int)
    requires
        0 <= w,
    ensures
        0 <= kraft(widths, w) <= widths.len() * (pow2(w as nat) - 1),
    decreases w,
{
    lemma2_to64();
    if w > 0 {
        lemma_kraft_bound(widths, w - 1);
        crate::canonical::lemma_count_width_bounds(widths, w, widths.len() as int);
        lemma_pow2_unfold(w as nat);
        let n = widths.len() as int;
        let p = pow2((w - 1) as nat) as int;
        let k = kraft(widths, w - 1);
        let c = count_width(widths, w, n);
        assert(2 * k + c <= n * (2 * p - 1)) by (nonlinear_arith)
            requires
                0 <= k <= n * (p - 1),
                0 <= c <= n,
        ;
    } else {
        assert(widths.len() * (pow2(0) - 1) == 0);
    }
}

/// Where every code has `c` bits, only that length is counted, and no length
/// more often than there are symbols.
pub proof fn lemma_count_width_flat(widths: Seq<u8>, c: int, w: int, upto: int)
    requires
        0 <= upto <= widths.len(),
        1 <= w,
        forall|i: int| 0 <= i < widths.len() ==> #[trigger] widths[i] as int == c || widths[i] == 0,
    ensures
        0 <= count_width(widths, w, upto) <= upto,
        w != c ==> count_width(widths, w, upto) == 0,
    decreases upto,
{
    if upto > 0 {
        lemma_count_width_flat(widths, c, w, upto - 1);
        assert(widths[upto - 1] as int == c || widths[upto - 1] == 0);
    }
}

/// Where every code has `c` bits, the codes take no more room than as many
/// codes of `c` bits as there are symbols.
pub proof fn lemma_kraft_flat(widths: Seq<u8>, c: int, w: int)
    requires
        1 <= c,
        0 <= w,
        forall|i: int| 0 <= i < widths.len() ==> #[trigger] widths[i] as int == c || widths[i] == 0,
    ensures
        0 <= kraft(widths, w),
        w < c ==> kraft(widths, w) == 0,
        w >= c ==> kraft(widths, w) <= widths.len() * pow2((w - c) as nat),
    decreases w,
{
    lemma2_to64();
    if w > 0 {
        lemma_kraft_flat(widths, c, w - 1);
        lemma_count_width_flat(widths, c, w, widths.len() as int);
        if w > c {
            lemma_pow2_unfold((w - c) as nat);
            let n = widths.len() as int;
            let p = pow2((w - 1 - c) as nat) as int;
            let k = kraft(widths, w - 1);
            assert(2 * k <= n * (2 * p)) by (nonlinear_arith)
                requires
                    k <= n * p,
            ;
        } else if w == c {
            assert(widths.len() * pow2(0) == widths.len());
        }
    }
}

/// How many symbols have a code of `w` bits.
fn count_of(widths: &[u8], w: u8) -> (r: usize)
    ensures
        r as int == count_width(widths@, w as int, widths@.len() as int),
{
    let mut r: usize = 0;
    let mut s: usize = 0;
    while s < widths.len()
        invariant
            s <= widths@.len(),
            r <= s,
            r as int == count_width(widths@, w as int, s as int),
        decreases widths@.len() - s,
    {
        if widths[s] == w {
            r += 1;
        }
        s += 1;
    }
    r
}

/// Whether the code lengths fit the frequencies.
pub fn lengths_ok(widths: &[u8], freqs: &[usize], limit: u8) -> (r: bool)
    requires
        limit <= 15,
        widths@.len() <= 0x8000,
    ensures
        r == lengths_fit(widths@, freqs@, limit as int),
{
    let n: usize = widths.len();
    if n != freqs.len() {
        return false;
    }
    let mut s: usize = 0;
    while s < n
        invariant
            s <= n,
            n == widths@.len(),
            n == freqs@.len(),
            forall|i: int| 0 <= i < s ==> #[trigger] widths@[i] as int <= limit,
            forall|i: int| 0 <= i < s ==> (freqs@[i] > 0 <==> #[trigger] widths@[i] >= 1),
        decreases n - s,
    {
        if widths[s] > limit || ((freqs[s] > 0) != (widths[s] >= 1)) {
            proof {
                if widths@[s as int] > limit {
                    assert(!widths_within(widths@, limit as int));
                }
            }
            return false;
        }
        s += 1;
    }
    proof {
        assert(widths_within(widths@, limit as int));
        assert(widths_within(widths@, 15)) by {
            assert forall|i: int| 0 <= i < widths@.len() implies #[trigger] widths@[i] as int <= 15 by {
                assert(widths@[i] as int <= limit);
            }
        }
    }
    let mut k: u64 = 0;
    let mut w: u8 = 1;
    while w <= 15
        invariant
            1 <= w <= 16,
            n == widths@.len(),
            n <= 0x8000,
            k as int == kraft(widths@, w - 1),
        decreases 16 - w,
    {
        let c: usize = count_of(widths, w);
        proof {
            lemma_kraft_bound(widths@, w - 1);
            lemma_kraft_bound(widths@, w as int);
            crate::decoder::lemma_pow2_up_to_15((w - 1) as nat);
            crate::decoder::lemma_pow2_up_to_15(w as nat);
            let p = pow2(w as nat) as int;
            assert(n * (p - 1) <= 0x8000 * 0x8000) by (nonlinear_arith)
                requires
                    0 <= n <= 0x8000,
                    1 <= p <= 0x8000,
            ;
        }
        k = 2 * k + c as u64;
        w += 1;
    }
    k <= 32768
}

/// Code lengths for the frequencies, none above `limit`: those of
/// package-merge, which are checked, and equal lengths of `limit` bits should
/// they not pass.
pub fn limit_lengths(freqs: &[usize], limit: u8) -> (r: Vec<u8>)
    requires
        1 <= limit <= 15,
        freqs@.len() <= pow2(limit as nat),
    ensures
        lengths_fit(r@, freqs@, limit as int),
        r@ == limit_lengths_spec(freqs@, limit as int),
{
    proof {
        crate::decoder::lemma_pow2_up_to_15(limit as nat);
    }
    let widths = package_merge(freqs, limit);
    if lengths_ok(widths.as_slice(), freqs, limit) {
        return widths;
    }
    let n: usize = freqs.len();
    let mut flat: Vec<u8> = Vec::new();
    let mut s: usize = 0;
    while s < n
        invariant
            s <= n,
            n == freqs@.len(),
            flat@.len() == s,
            forall|i: int| 0 <= i < s ==> #[trigger] flat@[i] == flat_lengths(freqs@, limit as int)[i],
        decreases n - s,
    {
        flat.push(if freqs[s] > 0 {
            limit
        } else {
            0
        });
        s += 1;
    }
    proof {
        assert(flat@ =~= flat_lengths(freqs@, limit as int));
        assert forall|i: int| 0 <= i < flat@.len() implies #[trigger] flat@[i] as int == limit as int
            || flat@[i] == 0 by {}
        lemma_kraft_flat(flat@, limit as int, 15);
        vstd::arithmetic::power2::lemma_pow2_adds(limit as nat, (15 - limit) as nat);
        lemma2_to64();
        let a = pow2(limit as nat) as int;
        let b = pow2((15 - limit) as nat) as int;
        assert(n * b <= a * b) by (nonlinear_arith)
            requires
                0 <= n <= a,
                0 <= b,
        ;
        assert(widths_within(flat@, limit as int));
        assert(widths_within(flat@, 15));
    }
    flat
}

/// Counting in a prefix of the code lengths is counting in all of them.
pub proof fn lemma_count_width_prefix(widths: Seq<u8>, m: int, w: int, upto: int)
    requires
        0 <= upto <= m <= widths.len(),
    ensures
        count_width(widths.subrange(0, m), w, upto) == count_width(widths, w, upto),
    decreases upto,
{
    if upto > 0 {
        lemma_count_width_prefix(widths, m, w, upto - 1);
    }
}

/// Symbols without a code count for no length from 1 on.
pub proof fn lemma_count_width_zero_tail(widths: Seq<u8>, m: int, w: int, upto: int)
    requires
        0 <= m <= upto <= widths.len(),
        1 <= w,
        forall|i: int| m <= i < widths.len() ==> #[trigger] widths[i] == 0,
    ensures
        count_width(widths, w, upto) == count_width(widths, w, m),
    decreases upto,
{
    if upto > m {
        lemma_count_width_zero_tail(widths, m, w, upto - 1);
        assert(widths[upto - 1] == 0);
    }
}

/// Leaving out symbols without a code at the end changes nothing of the room
/// that the code lengths take.
pub proof fn lemma_kraft_trim(widths: Seq<u8>, m: int, w: int)
    requires
        0 <= m <= widths.len(),
        0 <= w,
        forall|i: int| m <= i < widths.len() ==> #[trigger] widths[i] == 0,
    ensures
        kraft(widths.subrange(0, m), w) == kraft(widths, w),
    decreases w,
{
    if w > 0 {
        lemma_kraft_trim(widths, m, w - 1);
        lemma_count_width_prefix(widths, m, w, m);
        lemma_count_width_zero_tail(widths, m, w, widths.len() as int);
    }
}

} // verus!
