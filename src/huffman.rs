//! Huffman trees over byte or 16-bit symbols: a deterministic build from
//! symbol weights, the code dictionary, encoding and decoding of symbol
//! streams, and a compact bit serialization of the tree.
use vstd::prelude::*;
use bit_vec::BitVec;
use crate::bits::{
    bits_clone, bits_from_bytes, bits_get, bits_len, bits_new, bits_of, bits_push, bits_to_bytes,
    bytes_bits, length_padded, pack_length_padded, packs, unpack_length_padded, unpadded,
    well_padded, lemma_unpad_padded,
};
use crate::error::CodecError;
use crate::symbol::{
    lemma_two_pow_mono, lemma_value_bits, lemma_value_bits_len,
    symbol_count, two_pow, value_bits, bits_value, SerializedBits,
};

verus! {

/// The two shapes of a tree node.
pub enum NodeType<X> {
    /// An inner node; the left child is reached by bit 0, the right by bit 1.
    Internal(Box<HuffmanNode<X>>, Box<HuffmanNode<X>>),
    /// A leaf carrying a symbol.
    Leaf(X),
}

/// A node of a Huffman tree, with the total weight of the symbols below it.
pub struct HuffmanNode<X> {
    pub weight: usize,
    pub node_type: NodeType<X>,
}

/// The inner node over `a` and `b`, weighing as much as both.
pub open spec fn merged<X>(a: HuffmanNode<X>, b: HuffmanNode<X>) -> HuffmanNode<X> {
    HuffmanNode {
        weight: (a.weight + b.weight) as usize,
        node_type: NodeType::Internal(Box::new(a), Box::new(b)),
    }
}

/// A leaf for symbol `s` of weight `w`.
pub open spec fn leaf<X>(s: X, w: usize) -> HuffmanNode<X> {
    HuffmanNode { weight: w, node_type: NodeType::Leaf(s) }
}

/// Whether a node is an inner node.
pub open spec fn is_internal<X>(t: HuffmanNode<X>) -> bool {
    t.node_type is Internal
}

/// Whether symbol `s` is at a leaf of `t`.
pub open spec fn has_leaf<X>(t: HuffmanNode<X>, s: X) -> bool
    decreases t,
{
    match t.node_type {
        NodeType::Leaf(x) => x == s,
        NodeType::Internal(a, b) => has_leaf(*a, s) || has_leaf(*b, s),
    }
}

/// Where a node goes in a forest ordered by descending weight: after every
/// leading node that weighs at least `w`.
pub open spec fn weight_pos<X>(f: Seq<HuffmanNode<X>>, w: usize) -> int
    decreases f.len(),
{
    if f.len() == 0 {
        0
    } else if f[0].weight >= w {
        1 + weight_pos(f.drop_first(), w)
    } else {
        0
    }
}

/// Stable insertion of `n` into a forest ordered by descending weight.
pub open spec fn insert_by_weight<X>(f: Seq<HuffmanNode<X>>, n: HuffmanNode<X>) -> Seq<
    HuffmanNode<X>,
> {
    f.insert(weight_pos(f, n.weight), n)
}

/// The leaves of the symbols `0..k` of positive weight, in the order a stable
/// sort by descending weight gives them from ascending symbol order.
pub open spec fn leaf_forest<X: SerializedBits>(weights: Seq<usize>, k: nat) -> Seq<HuffmanNode<X>>
    decreases k,
{
    if k == 0 {
        Seq::empty()
    } else {
        let f = leaf_forest::<X>(weights, (k - 1) as nat);
        if weights[k - 1] > 0 {
            insert_by_weight(f, leaf(X::from_value((k - 1) as nat), weights[k - 1]))
        } else {
            f
        }
    }
}

/// The symbol of a leaf (any symbol for an inner node).
pub open spec fn leaf_symbol<X: SerializedBits>(t: HuffmanNode<X>) -> X {
    match t.node_type {
        NodeType::Leaf(x) => x,
        NodeType::Internal(..) => X::from_value(0),
    }
}

/// The symbol that pairs up with the only symbol of a one-symbol forest.
pub open spec fn dummy_symbol<X: SerializedBits>(sole: X) -> X {
    X::from_value(
        if sole.value() == 0 {
            1
        } else {
            0
        },
    )
}

/// The forest that the build starts from: the leaves of positive weight, and
/// when there is only one, a leaf of weight 0 beside it.
pub open spec fn start_forest<X: SerializedBits>(weights: Seq<usize>) -> Seq<HuffmanNode<X>> {
    let f = leaf_forest::<X>(weights, weights.len());
    if f.len() == 1 {
        insert_by_weight(f, leaf(dummy_symbol(leaf_symbol(f[0])), 0))
    } else {
        f
    }
}

/// One step of the build: take the last node `a` and the one before it `b`,
/// and put the inner node over `(a, b)` back in its place.
pub open spec fn merge_step<X>(f: Seq<HuffmanNode<X>>) -> Seq<HuffmanNode<X>> {
    insert_by_weight(
        f.subrange(0, f.len() - 2),
        merged(f[f.len() - 1], f[f.len() - 2]),
    )
}

/// The forest after `k` steps.
pub open spec fn merge_steps<X>(f: Seq<HuffmanNode<X>>, k: nat) -> Seq<HuffmanNode<X>>
    decreases k,
{
    if k == 0 {
        f
    } else {
        merge_step(merge_steps(f, (k - 1) as nat))
    }
}

/// The Huffman tree of a weight table (`weights[v]` is the weight of the symbol
/// numbered `v`).
pub open spec fn huffman_tree<X: SerializedBits>(weights: Seq<usize>) -> HuffmanNode<X> {
    let f = start_forest::<X>(weights);
    merge_steps(f, (f.len() - 1) as nat)[0]
}

/// Whether some weight of the table is positive.
pub open spec fn has_positive(weights: Seq<usize>) -> bool {
    exists|v: int| 0 <= v < weights.len() && weights[v] > 0
}

/// The sum of the first `k` weights of a table.
pub open spec fn weight_total(weights: Seq<usize>, k: nat) -> nat
    decreases k,
{
    if k == 0 {
        0
    } else {
        weight_total(weights, (k - 1) as nat) + weights[k - 1] as nat
    }
}

/// The sum of the weights of a forest.
pub open spec fn forest_weight<X>(f: Seq<HuffmanNode<X>>) -> nat
    decreases f.len(),
{
    if f.len() == 0 {
        0
    } else {
        forest_weight(f.drop_last()) + f.last().weight as nat
    }
}

/// Whether symbol `s` is at a leaf of some tree of the forest.
pub open spec fn forest_has<X>(f: Seq<HuffmanNode<X>>, s: X) -> bool {
    exists|i: int| 0 <= i < f.len() && has_leaf(#[trigger] f[i], s)
}

/// How many times a symbol numbered `v` occurs in `s`.
pub open spec fn occurrences<X: SerializedBits>(s: Seq<X>, v: nat) -> nat
    decreases s.len(),
{
    if s.len() == 0 {
        0
    } else {
        occurrences(s.drop_last(), v) + if s.last().value() == v {
            1nat
        } else {
            0nat
        }
    }
}

proof fn lemma_weight_pos_bound<X>(f: Seq<HuffmanNode<X>>, w: usize)
    ensures
        0 <= weight_pos(f, w) <= f.len(),
    decreases f.len(),
{
    if f.len() > 0 {
        lemma_weight_pos_bound(f.drop_first(), w);
    }
}

proof fn lemma_forest_weight_concat<X>(a: Seq<HuffmanNode<X>>, b: Seq<HuffmanNode<X>>)
    ensures
        forest_weight(a + b) == forest_weight(a) + forest_weight(b),
    decreases b.len(),
{
    if b.len() == 0 {
        assert(a + b =~= a);
    } else {
        lemma_forest_weight_concat(a, b.drop_last());
        assert((a + b).drop_last() =~= a + b.drop_last());
    }
}

/// Inserting a node keeps the forest's other nodes and adds its weight.
proof fn lemma_insert_by_weight<X>(f: Seq<HuffmanNode<X>>, n: HuffmanNode<X>)
    ensures
        insert_by_weight(f, n).len() == f.len() + 1,
        forest_weight(insert_by_weight(f, n)) == forest_weight(f) + n.weight,
        forall|s: X| forest_has(insert_by_weight(f, n), s) <==> (forest_has(f, s) || has_leaf(n, s)),
{
    let p = weight_pos(f, n.weight);
    lemma_weight_pos_bound(f, n.weight);
    let g = insert_by_weight(f, n);
    f.insert_ensures(p, n);
    let pre = f.subrange(0, p);
    let post = f.subrange(p, f.len() as int);
    lemma_forest_weight_concat(pre.push(n), post);
    lemma_forest_weight_concat(pre, post);
    assert(pre.push(n).drop_last() =~= pre);
    assert(pre + post =~= f);
    assert forall|s: X| forest_has(g, s) <==> (forest_has(f, s) || has_leaf(n, s)) by {
        if forest_has(g, s) {
            let i = choose|i: int| 0 <= i < g.len() && has_leaf(#[trigger] g[i], s);
            if i < p {
                assert(g[i] == f[i]);
            } else if i > p {
                assert(g[i] == f[i - 1]);
            }
        }
        if forest_has(f, s) {
            let i = choose|i: int| 0 <= i < f.len() && has_leaf(#[trigger] f[i], s);
            if i < p {
                assert(g[i] == f[i]);
            } else {
                assert(g[i + 1] == f[i]);
            }
        }
        if has_leaf(n, s) {
            assert(g[p] == n);
        }
    }
}

/// A merge step takes one node off the forest and keeps its weight and leaves.
proof fn lemma_merge_step<X>(f: Seq<HuffmanNode<X>>)
    requires
        f.len() >= 2,
        forest_weight(f) <= usize::MAX,
    ensures
        merge_step(f).len() == f.len() - 1,
        forest_weight(merge_step(f)) == forest_weight(f),
        forall|s: X| forest_has(merge_step(f), s) <==> forest_has(f, s),
        f.len() == 2 ==> merge_step(f) == seq![merged(f[1], f[0])],
{
    let l = f.len() as int;
    let rest = f.subrange(0, l - 2);
    let a = f[l - 1];
    let b = f[l - 2];
    assert(f.drop_last() =~= rest.push(b));
    assert(f.drop_last().drop_last() =~= rest);
    lemma_forest_weight_last_two(f);
    let n = merged(a, b);
    lemma_insert_by_weight(rest, n);
    assert forall|s: X| forest_has(merge_step(f), s) <==> forest_has(f, s) by {
        if forest_has(f, s) {
            let i = choose|i: int| 0 <= i < f.len() && has_leaf(#[trigger] f[i], s);
            if i < l - 2 {
                assert(rest[i] == f[i]);
            }
        }
        if forest_has(rest, s) {
            let i = choose|i: int| 0 <= i < rest.len() && has_leaf(#[trigger] rest[i], s);
            assert(f[i] == rest[i]);
        }
        if has_leaf(n, s) {
            if has_leaf(a, s) {
                assert(has_leaf(f[l - 1], s));
            } else {
                assert(has_leaf(f[l - 2], s));
            }
        }
    }
    if l == 2 {
        assert(rest.len() == 0);
        assert(merge_step(f) =~= seq![n]);
    }
}

proof fn lemma_forest_weight_last_two<X>(f: Seq<HuffmanNode<X>>)
    requires
        f.len() >= 2,
    ensures
        forest_weight(f) == forest_weight(f.subrange(0, f.len() - 2)) + f[f.len() - 1].weight
            + f[f.len() - 2].weight,
{
    let l = f.len() as int;
    let f1 = f.drop_last();
    assert(f1 =~= f.subrange(0, l - 1));
    assert(f1.drop_last() =~= f.subrange(0, l - 2));
    assert(forest_weight(f) == forest_weight(f1) + f[l - 1].weight);
    assert(f1.last() == f[l - 2]);
    assert(forest_weight(f1) == forest_weight(f1.drop_last()) + f1.last().weight);
}

proof fn lemma_merge_steps<X>(f: Seq<HuffmanNode<X>>, k: nat)
    requires
        k < f.len(),
        forest_weight(f) <= usize::MAX,
    ensures
        merge_steps(f, k).len() == f.len() - k,
        forest_weight(merge_steps(f, k)) == forest_weight(f),
        forall|s: X| forest_has(merge_steps(f, k), s) <==> forest_has(f, s),
        k >= 1 ==> is_internal(merge_steps(f, k)[0]) || merge_steps(f, k).len() >= 2,
    decreases k,
{
    if k > 0 {
        lemma_merge_steps(f, (k - 1) as nat);
        let g = merge_steps(f, (k - 1) as nat);
        lemma_merge_step(g);
        if g.len() == 2 {
            assert(merge_steps(f, k) == seq![merged(g[1], g[0])]);
        }
    }
}

/// After `k` merge steps of a forest of leaves, no tree is higher than `k`.
proof fn lemma_merge_steps_height<X>(f: Seq<HuffmanNode<X>>, k: nat)
    requires
        k < f.len(),
        forest_weight(f) <= usize::MAX,
        forall|i: int| 0 <= i < f.len() ==> !is_internal(#[trigger] f[i]),
    ensures
        forall|i: int|
            0 <= i < merge_steps(f, k).len() ==> height(#[trigger] merge_steps(f, k)[i]) <= k,
    decreases k,
{
    if k == 0 {
        assert forall|i: int| 0 <= i < f.len() implies height(#[trigger] f[i]) <= 0 by {
            assert(!is_internal(f[i]));
        }
    } else {
        lemma_merge_steps_height(f, (k - 1) as nat);
        lemma_merge_steps(f, (k - 1) as nat);
        let g = merge_steps(f, (k - 1) as nat);
        let l = g.len() as int;
        let rest = g.subrange(0, l - 2);
        let n = merged(g[l - 1], g[l - 2]);
        assert(height(g[l - 1]) <= k - 1 && height(g[l - 2]) <= k - 1);
        assert(height(n) <= k);
        let p = weight_pos(rest, n.weight);
        lemma_weight_pos_bound(rest, n.weight);
        rest.insert_ensures(p, n);
        let h = merge_steps(f, k);
        assert(h == rest.insert(p, n));
        assert forall|i: int| 0 <= i < h.len() implies height(#[trigger] h[i]) <= k by {
            if i < p {
                assert(h[i] == g[i]);
            } else if i > p {
                assert(h[i] == g[i - 1]);
            }
        }
    }
}

/// The number of leaves of a tree.
pub open spec fn leaf_count<X>(t: HuffmanNode<X>) -> nat
    decreases t,
{
    match t.node_type {
        NodeType::Leaf(_) => 1,
        NodeType::Internal(a, b) => leaf_count(*a) + leaf_count(*b),
    }
}

/// The number of leaves of a forest.
pub open spec fn forest_leaves<X>(f: Seq<HuffmanNode<X>>) -> nat
    decreases f.len(),
{
    if f.len() == 0 {
        0
    } else {
        forest_leaves(f.drop_last()) + leaf_count(f.last())
    }
}

proof fn lemma_forest_leaves_concat<X>(a: Seq<HuffmanNode<X>>, b: Seq<HuffmanNode<X>>)
    ensures
        forest_leaves(a + b) == forest_leaves(a) + forest_leaves(b),
    decreases b.len(),
{
    if b.len() == 0 {
        assert(a + b =~= a);
    } else {
        lemma_forest_leaves_concat(a, b.drop_last());
        assert((a + b).drop_last() =~= a + b.drop_last());
    }
}

/// A merge step keeps the number of leaves of the forest.
proof fn lemma_merge_step_leaves<X>(f: Seq<HuffmanNode<X>>)
    requires
        f.len() >= 2,
    ensures
        forest_leaves(merge_step(f)) == forest_leaves(f),
{
    let l = f.len() as int;
    let rest = f.subrange(0, l - 2);
    let n = merged(f[l - 1], f[l - 2]);
    let f1 = f.drop_last();
    assert(f1 =~= f.subrange(0, l - 1));
    assert(f1.drop_last() =~= rest);
    assert(f1.last() == f[l - 2]);
    assert(forest_leaves(f) == forest_leaves(f1) + leaf_count(f[l - 1]));
    assert(forest_leaves(f1) == forest_leaves(rest) + leaf_count(f[l - 2]));
    let p = weight_pos(rest, n.weight);
    lemma_weight_pos_bound(rest, n.weight);
    let pre = rest.subrange(0, p);
    let post = rest.subrange(p, rest.len() as int);
    assert(merge_step(f) == pre.push(n) + post);
    lemma_forest_leaves_concat(pre.push(n), post);
    lemma_forest_leaves_concat(pre, post);
    assert(pre.push(n).drop_last() =~= pre);
    assert(pre + post =~= rest);
}

proof fn lemma_merge_steps_leaves<X>(f: Seq<HuffmanNode<X>>, k: nat)
    requires
        k < f.len(),
        forest_weight(f) <= usize::MAX,
    ensures
        forest_leaves(merge_steps(f, k)) == forest_leaves(f),
    decreases k,
{
    if k > 0 {
        lemma_merge_steps_leaves(f, (k - 1) as nat);
        lemma_merge_steps(f, (k - 1) as nat);
        lemma_merge_step_leaves(merge_steps(f, (k - 1) as nat));
    }
}

proof fn lemma_leaves_of_leaf_forest<X>(f: Seq<HuffmanNode<X>>)
    requires
        forall|i: int| 0 <= i < f.len() ==> !is_internal(#[trigger] f[i]),
    ensures
        forest_leaves(f) == f.len(),
    decreases f.len(),
{
    if f.len() > 0 {
        let g = f.drop_last();
        assert forall|i: int| 0 <= i < g.len() implies !is_internal(#[trigger] g[i]) by {
            assert(g[i] == f[i]);
        }
        lemma_leaves_of_leaf_forest(g);
        assert(!is_internal(f[f.len() - 1]));
    }
}

/// The serialization of a node takes `width + 2` bits per leaf, less one.
proof fn lemma_node_bits_len<X: SerializedBits>(t: HuffmanNode<X>)
    ensures
        node_bits(t).len() + 1 == (X::width() + 2) * leaf_count(t),
    decreases t,
{
    match t.node_type {
        NodeType::Leaf(x) => {
            lemma_value_bits_len(x.value(), X::width());
            assert(node_bits(t).len() == 1 + X::width());
            assert(leaf_count(t) == 1);
            assert((X::width() + 2) * 1 == X::width() + 2);
        },
        NodeType::Internal(a, b) => {
            lemma_node_bits_len(*a);
            lemma_node_bits_len(*b);
            assert((X::width() + 2) * (leaf_count(*a) + leaf_count(*b)) == (X::width() + 2)
                * leaf_count(*a) + (X::width() + 2) * leaf_count(*b)) by (nonlinear_arith);
        },
    }
}

#[verifier::rlimit(40)]
proof fn lemma_leaf_forest<X: SerializedBits>(weights: Seq<usize>, k: nat)
    requires
        k <= weights.len(),
        weights.len() <= two_pow(X::width()),
    ensures
        forest_weight(leaf_forest::<X>(weights, k)) == weight_total(weights, k),
        leaf_forest::<X>(weights, k).len() == 0 <==> !(exists|v: int|
            0 <= v < k && weights[v] > 0),
        forall|v: int|
            0 <= v < k && weights[v] > 0 ==> forest_has(
                leaf_forest::<X>(weights, k),
                X::from_value(v as nat),
            ),
        forall|i: int|
            0 <= i < leaf_forest::<X>(weights, k).len() ==> !is_internal(
                #[trigger] leaf_forest::<X>(weights, k)[i],
            ),
        leaf_forest::<X>(weights, k).len() <= k,
    decreases k,
{
    if k > 0 {
        lemma_leaf_forest::<X>(weights, (k - 1) as nat);
        let f = leaf_forest::<X>(weights, (k - 1) as nat);
        if weights[k - 1] > 0 {
            let n = leaf(X::from_value((k - 1) as nat), weights[k - 1]);
            lemma_insert_by_weight(f, n);
            let g = insert_by_weight(f, n);
            let p = weight_pos(f, n.weight);
            lemma_weight_pos_bound(f, n.weight);
            f.insert_ensures(p, n);
            assert forall|i: int| 0 <= i < g.len() implies !is_internal(#[trigger] g[i]) by {
                if i < p {
                    assert(g[i] == f[i]);
                } else if i > p {
                    assert(g[i] == f[i - 1]);
                }
            }
        }
        if leaf_forest::<X>(weights, k).len() == 0 {
            assert forall|v: int| 0 <= v < k implies !(weights[v] > 0) by {
                if v < k - 1 {
                } else {
                }
            }
        }
    }
}

/// The build of a weight table with some positive weight takes more than one
/// node, never overflows, ends in an inner node, and keeps every symbol of
/// positive weight as a leaf.
proof fn lemma_huffman_tree<X: SerializedBits>(weights: Seq<usize>)
    requires
        weights.len() == two_pow(X::width()),
        has_positive(weights),
        weight_total(weights, weights.len()) <= usize::MAX,
    ensures
        start_forest::<X>(weights).len() >= 2,
        forest_weight(start_forest::<X>(weights)) == weight_total(weights, weights.len()),
        is_internal(huffman_tree::<X>(weights)),
        forall|v: int|
            0 <= v < weights.len() && weights[v] > 0 ==> has_leaf(
                huffman_tree::<X>(weights),
                X::from_value(v as nat),
            ),
        huffman_tree::<X>(weights).weight == weight_total(weights, weights.len()),
        height(huffman_tree::<X>(weights)) < two_pow(X::width()),
        leaf_count(huffman_tree::<X>(weights)) <= two_pow(X::width()),
{
    let l = weights.len();
    lemma_leaf_forest::<X>(weights, l);
    let f = leaf_forest::<X>(weights, l);
    let sf = start_forest::<X>(weights);
    if f.len() == 1 {
        let d = leaf(dummy_symbol(leaf_symbol(f[0])), 0);
        lemma_insert_by_weight(f, d);
    }
    assert forall|v: int| 0 <= v < l && weights[v] > 0 implies forest_has(
        sf,
        X::from_value(v as nat),
    ) by {}
    let k = (sf.len() - 1) as nat;
    lemma_merge_steps(sf, k);
    let g = merge_steps(sf, k);
    assert forall|v: int| 0 <= v < l && weights[v] > 0 implies has_leaf(
        g[0],
        X::from_value(v as nat),
    ) by {
        let s = X::from_value(v as nat);
        assert(forest_has(g, s));
        let i = choose|i: int| 0 <= i < g.len() && has_leaf(#[trigger] g[i], s);
    }
    assert(g.drop_last() =~= Seq::<HuffmanNode<X>>::empty());
    assert(forest_weight(g) == forest_weight(g.drop_last()) + g[0].weight);
    X::lemma_symbol(X::from_value(0), 0);
    assert(two_pow(X::width()) >= 2) by {
        lemma_two_pow_mono(1, X::width());
        reveal_with_fuel(two_pow, 2);
    }
    if f.len() == 1 {
        let d = leaf(dummy_symbol(leaf_symbol(f[0])), 0);
        let p = weight_pos(f, 0);
        lemma_weight_pos_bound(f, 0);
        f.insert_ensures(p, d);
        assert forall|i: int| 0 <= i < sf.len() implies !is_internal(#[trigger] sf[i]) by {
            if i < p {
                assert(sf[i] == f[i]);
            } else if i > p {
                assert(sf[i] == f[i - 1]);
            }
        }
    }
    lemma_merge_steps_height(sf, k);
    lemma_merge_steps_leaves(sf, k);
    lemma_leaves_of_leaf_forest(sf);
    assert(forest_leaves(g) == forest_leaves(g.drop_last()) + leaf_count(g[0]));
}

impl<X: SerializedBits> HuffmanNode<X> {
    /// The inner node over `a` (bit 0) and `b` (bit 1).
    pub fn new(a: HuffmanNode<X>, b: HuffmanNode<X>) -> (r: Self)
        requires
            a.weight + b.weight <= usize::MAX,
        ensures
            r == merged(a, b),
    {
        Self { weight: a.weight + b.weight, node_type: NodeType::Internal(Box::new(a), Box::new(b)) }
    }

    /// Builds the Huffman tree of a weight table that gives every symbol a
    /// weight (`weights[v]` for the symbol numbered `v`; 0 leaves it out).
    ///
    /// The leaves of positive weight, in ascending symbol order, are stably
    /// sorted by descending weight; then the last node `a` and the one before
    /// it `b` are taken off and replaced by the inner node over `(a, b)`, put
    /// back by a stable sort, until one node is left. A single symbol is paired
    /// with a leaf of weight 0, so it gets a one-bit code.
    pub fn from_weights(weights: &Vec<usize>) -> (r: Result<Self, CodecError>)
        requires
            weights@.len() == two_pow(X::width()),
            weight_total(weights@, weights@.len()) <= usize::MAX,
        ensures
            !has_positive(weights@) ==> r == Err::<Self, CodecError>(CodecError::EmptyInput),
            has_positive(weights@) ==> (r matches Ok(t) && {
                &&& t == huffman_tree::<X>(weights@)
                &&& is_internal(t)
                &&& t.weight == weight_total(weights@, weights@.len())
                &&& height(t) < two_pow(X::width())
                &&& tree_bits(t).len() < usize::MAX
                &&& forall|v: int|
                    0 <= v < weights@.len() && weights@[v] > 0 ==> has_leaf(
                        t,
                        X::from_value(v as nat),
                    )
            }),
            two_pow(X::width()) <= 65536,
    {
        let ghost w = weights@;
        proof {
            X::lemma_symbol(X::from_value(0), 0);
            lemma_two_pow_mono(X::width(), 16);
            reveal_with_fuel(two_pow, 17);
        }
        let mut nodes: Vec<HuffmanNode<X>> = Vec::new();
        let mut v: usize = 0;
        while v < weights.len()
            invariant
                w == weights@,
                w.len() == two_pow(X::width()),
                weight_total(w, w.len()) <= usize::MAX,
                v <= w.len(),
                nodes@ == leaf_forest::<X>(w, v as nat),
            decreases w.len() - v,
        {
            if weights[v] > 0 {
                let sym = X::from_index(v);
                let n = HuffmanNode { weight: weights[v], node_type: NodeType::Leaf(sym) };
                insert_node(&mut nodes, n);
            }
            v += 1;
        }
        proof {
            lemma_leaf_forest::<X>(w, w.len());
        }
        if nodes.len() == 0 {
            return Err(CodecError::EmptyInput);
        }
        proof {
            assert(has_positive(w));
            lemma_huffman_tree::<X>(w);
            let t = huffman_tree::<X>(w);
            lemma_tree_bits_len(t);
            let wd = X::width();
            let lc = leaf_count(t);
            assert(wd <= 16);
            assert(lc <= 65536);
            assert((wd + 2) * lc <= 18 * 65536) by (nonlinear_arith)
                requires
                    wd <= 16,
                    lc <= 65536,
            ;
        }
        if nodes.len() == 1 {
            let sole = match &nodes[0].node_type {
                NodeType::Leaf(s) => *s,
                NodeType::Internal(..) => X::from_index(0),
            };
            proof {
                X::lemma_symbol(sole, 0);
                X::lemma_symbol(sole, 1);
            }
            let d = if sole.index() == 0 {
                X::from_index(1)
            } else {
                X::from_index(0)
            };
            insert_node(&mut nodes, HuffmanNode { weight: 0, node_type: NodeType::Leaf(d) });
        }
        let ghost f0 = nodes@;
        assert(f0 == start_forest::<X>(w));
        let ghost mut k: nat = 0;
        while nodes.len() > 1
            invariant
                f0 == start_forest::<X>(w),
                f0.len() >= 2,
                forest_weight(f0) <= usize::MAX,
                k < f0.len(),
                nodes@ == merge_steps(f0, k),
                nodes@.len() == f0.len() - k,
                forest_weight(nodes@) == forest_weight(f0),
            decreases nodes@.len(),
        {
            proof {
                lemma_merge_steps(f0, k);
                lemma_forest_weight_last_two(nodes@);
                lemma_merge_step(nodes@);
            }
            let ghost g = nodes@;
            let a = nodes.remove(nodes.len() - 1);
            assert(nodes@ =~= g.subrange(0, g.len() - 1));
            let b = nodes.remove(nodes.len() - 1);
            assert(nodes@ =~= g.subrange(0, g.len() - 2));
            let new_node = HuffmanNode::new(a, b);
            insert_node(&mut nodes, new_node);
            assert(nodes@ == merge_step(g));
            proof {
                k = k + 1;
                lemma_merge_steps(f0, k);
            }
        }
        let root = nodes.remove(0);
        Ok(root)
    }
}

/// Stably inserts `n` into a forest ordered by descending weight.
fn insert_node<X>(nodes: &mut Vec<HuffmanNode<X>>, n: HuffmanNode<X>)
    ensures
        final(nodes)@ == insert_by_weight(old(nodes)@, n),
{
    let ghost f = nodes@;
    let mut i: usize = 0;
    proof {
        assert(f.subrange(0, f.len() as int) =~= f);
    }
    while i < nodes.len() && nodes[i].weight >= n.weight
        invariant
            nodes@ == f,
            i <= f.len(),
            weight_pos(f, n.weight) == i + weight_pos(f.subrange(i as int, f.len() as int), n.weight),
        decreases f.len() - i,
    {
        proof {
            let sub = f.subrange(i as int, f.len() as int);
            assert(sub.drop_first() =~= f.subrange(i + 1, f.len() as int));
        }
        i += 1;
    }
    proof {
        lemma_weight_pos_bound(f, n.weight);
    }
    nodes.insert(i, n);
}

proof fn lemma_weight_total_entry(s: Seq<usize>, k: nat, v: int)
    requires
        k <= s.len(),
        0 <= v < k,
    ensures
        s[v] <= weight_total(s, k),
    decreases k,
{
    if v < k - 1 {
        lemma_weight_total_entry(s, (k - 1) as nat, v);
    }
}

proof fn lemma_weight_total_update(s: Seq<usize>, k: nat, v: int, x: usize)
    requires
        k <= s.len(),
        0 <= v < s.len(),
    ensures
        weight_total(s.update(v, x), k) == if v < k {
            weight_total(s, k) - s[v] + x
        } else {
            weight_total(s, k) as int
        },
    decreases k,
{
    if k > 0 {
        lemma_weight_total_update(s, (k - 1) as nat, v, x);
        if v < k - 1 {
            lemma_weight_total_entry(s, (k - 1) as nat, v);
        }
    }
}

/// Counts the symbols of `input` into a weight table with an entry for every
/// symbol: entry `v` is the number of occurrences of the symbol numbered `v`
/// (0 for a symbol that does not occur). An empty input has nothing to count.
pub fn count_freqs<X: SerializedBits>(input: &[X]) -> (r: Result<Vec<usize>, CodecError>)
    ensures
        input@.len() == 0 ==> r == Err::<Vec<usize>, CodecError>(CodecError::EmptyInput),
        input@.len() > 0 ==> (r matches Ok(t) && {
            &&& t@.len() == two_pow(X::width())
            &&& forall|v: int| 0 <= v < t@.len() ==> t@[v] == occurrences(input@, v as nat)
            &&& weight_total(t@, t@.len()) == input@.len()
        }),
{
    if input.len() == 0 {
        return Err(CodecError::EmptyInput);
    }
    let size = symbol_count(X::bitlen());
    let mut counters: Vec<usize> = Vec::new();
    let mut i: usize = 0;
    while i < size
        invariant
            i <= size,
            counters@.len() == i,
            forall|v: int| 0 <= v < i ==> counters@[v] == 0,
            weight_total(counters@, i as nat) == 0,
        decreases size - i,
    {
        let ghost prev = counters@;
        counters.push(0);
        proof {
            lemma_weight_total_prefix(counters@, prev, i as nat);
        }
        i += 1;
    }
    let mut j: usize = 0;
    while j < input.len()
        invariant
            j <= input@.len(),
            counters@.len() == size,
            size == two_pow(X::width()),
            forall|v: int|
                0 <= v < size ==> counters@[v] == occurrences(input@.subrange(0, j as int), v as nat),
            weight_total(counters@, size as nat) == j,
        decreases input@.len() - j,
    {
        let x = input[j];
        let idx = x.index();
        proof {
            X::lemma_symbol(x, 0);
            lemma_weight_total_entry(counters@, size as nat, idx as int);
            assert(input@.subrange(0, j + 1).drop_last() =~= input@.subrange(0, j as int));
            lemma_weight_total_update(counters@, size as nat, idx as int, (counters@[idx as int] + 1) as usize);
        }
        let c = counters[idx] + 1;
        counters.set(idx, c);
        j += 1;
    }
    proof {
        assert(input@.subrange(0, input@.len() as int) =~= input@);
    }
    Ok(counters)
}

proof fn lemma_weight_total_prefix(s: Seq<usize>, t: Seq<usize>, k: nat)
    requires
        k <= s.len(),
        k <= t.len(),
        forall|v: int| 0 <= v < k ==> s[v] == t[v],
    ensures
        weight_total(s, k) == weight_total(t, k),
    decreases k,
{
    if k > 0 {
        lemma_weight_total_prefix(s, t, (k - 1) as nat);
    }
}

/// The symbol reached from `t` by following `path` (0 = left, 1 = right), if
/// the path ends exactly at a leaf.
pub open spec fn leaf_at<X>(t: HuffmanNode<X>, path: Seq<bool>) -> Option<X>
    decreases path.len(),
{
    match t.node_type {
        NodeType::Leaf(x) => if path.len() == 0 {
            Some(x)
        } else {
            None
        },
        NodeType::Internal(a, b) => if path.len() == 0 {
            None
        } else if path[0] {
            leaf_at(*b, path.drop_first())
        } else {
            leaf_at(*a, path.drop_first())
        },
    }
}

/// The length of the longest path from `t` down to a leaf.
pub open spec fn height<X>(t: HuffmanNode<X>) -> nat
    decreases t,
{
    match t.node_type {
        NodeType::Leaf(_) => 0,
        NodeType::Internal(a, b) => 1 + if height(*a) >= height(*b) {
            height(*a)
        } else {
            height(*b)
        },
    }
}

/// A dictionary entry as a symbol and the bits of its code.
pub open spec fn entry_view<X>(e: Option<(X, BitVec)>) -> Option<(X, Seq<bool>)> {
    match e {
        Some((s, p)) => Some((s, bits_of(p))),
        None => None,
    }
}

/// `d` is a code dictionary of `t`: entry `v` is present exactly when the
/// symbol numbered `v` is at a leaf of `t`, and then holds that symbol and the
/// path from the root to such a leaf.
pub open spec fn dict_of<X: SerializedBits>(t: HuffmanNode<X>, d: Seq<Option<(X, Seq<bool>)>>) -> bool {
    &&& d.len() == two_pow(X::width())
    &&& forall|v: int| 0 <= v < d.len() ==> (#[trigger] d[v] is Some <==> has_leaf(t, X::from_value(v as nat)))
    &&& forall|v: int|
        0 <= v < d.len() ==> (#[trigger] d[v] matches Some((s, p)) ==> {
            &&& s == X::from_value(v as nat)
            &&& leaf_at(t, p) == Some(s)
        })
}

/// The code that `d` gives symbol `x` (empty if it has none).
pub open spec fn code_of<X: SerializedBits>(d: Seq<Option<(X, Seq<bool>)>>, x: X) -> Seq<bool> {
    match d[x.value() as int] {
        Some((_, p)) => p,
        None => Seq::empty(),
    }
}

/// Whether `d` has a code for every symbol of `xs`.
pub open spec fn all_coded<X: SerializedBits>(d: Seq<Option<(X, Seq<bool>)>>, xs: Seq<X>) -> bool {
    forall|i: int| 0 <= i < xs.len() ==> #[trigger] d[xs[i].value() as int] is Some
}

/// The codes of the symbols of `xs`, one after the other.
pub open spec fn encoded_bits<X: SerializedBits>(d: Seq<Option<(X, Seq<bool>)>>, xs: Seq<X>) -> Seq<bool>
    decreases xs.len(),
{
    if xs.len() == 0 {
        Seq::empty()
    } else {
        code_of(d, xs[0]) + encoded_bits(d, xs.drop_first())
    }
}

/// Walks down from `t` by the bits from index `i` on until a leaf: its
/// symbol and the index after the last bit read, or `None` if the bits run out.
pub open spec fn descend<X>(t: HuffmanNode<X>, bits: Seq<bool>, i: int) -> Option<(X, int)>
    decreases t,
{
    match t.node_type {
        NodeType::Leaf(x) => Some((x, i)),
        NodeType::Internal(a, b) => if 0 <= i < bits.len() {
            if bits[i] {
                descend(*b, bits, i + 1)
            } else {
                descend(*a, bits, i + 1)
            }
        } else {
            None
        },
    }
}

/// The symbols that the bits from index `i` on decode to by walks from the
/// root `t`, or `None` if the bits end in the middle of a walk.
pub open spec fn decode_from<X>(t: HuffmanNode<X>, bits: Seq<bool>, i: int) -> Option<Seq<X>>
    decreases bits.len() - i,
{
    if i >= bits.len() {
        Some(Seq::empty())
    } else {
        match descend(t, bits, i) {
            None => None,
            Some((x, j)) => if j <= i || j > bits.len() {
                None
            } else {
                match decode_from(t, bits, j) {
                    None => None,
                    Some(rest) => Some(seq![x] + rest),
                }
            },
        }
    }
}

/// What decoding the byte stream `bytes` with tree `t` gives.
pub open spec fn huff_decode<X>(bytes: Seq<u8>, t: HuffmanNode<X>) -> Result<Seq<X>, CodecError> {
    if !well_padded(bytes) {
        Err(CodecError::InvalidStream)
    } else {
        match decode_from(t, unpadded(bytes), 0) {
            Some(xs) => Ok(xs),
            None => Err(CodecError::TruncatedStream),
        }
    }
}

/// Whether entry `e` for the symbol numbered `v` holds that symbol and a code
/// that is `prefix` followed by the path from `node` to a leaf of it.
pub open spec fn entry_under<X: SerializedBits>(
    node: HuffmanNode<X>,
    prefix: Seq<bool>,
    e: Option<(X, Seq<bool>)>,
    v: int,
) -> bool {
    &&& e matches Some((s, p))
    &&& s == X::from_value(v as nat)
    &&& p.len() >= prefix.len()
    &&& p.subrange(0, prefix.len() as int) == prefix
    &&& leaf_at(node, p.subrange(prefix.len() as int, p.len() as int)) == Some(s)
}

proof fn lemma_entry_lift<X: SerializedBits>(
    node: HuffmanNode<X>,
    child: HuffmanNode<X>,
    bit: bool,
    prefix: Seq<bool>,
    e: Option<(X, Seq<bool>)>,
    v: int,
)
    requires
        node.node_type matches NodeType::Internal(a, b) && (if bit {
            *b == child
        } else {
            *a == child
        }),
        entry_under(child, prefix.push(bit), e, v),
    ensures
        entry_under(node, prefix, e, v),
{
    let p = match e {
        Some((_, q)) => q,
        None => Seq::empty(),
    };
    let n = prefix.len() as int;
    assert(p.subrange(0, n) =~= prefix.push(bit).subrange(0, n));
    assert(prefix.push(bit).subrange(0, n) =~= prefix);
    let q = p.subrange(n, p.len() as int);
    assert(q[0] == p[n]);
    assert(p[n] == prefix.push(bit)[n]);
    assert(q.drop_first() =~= p.subrange(n + 1, p.len() as int));
}

proof fn lemma_leaf_entry<X: SerializedBits>(node: HuffmanNode<X>, prefix: Seq<bool>, p: Seq<bool>, x: X)
    requires
        node.node_type == NodeType::<X>::Leaf(x),
        p == prefix,
    ensures
        entry_under(node, prefix, Some((x, p)), x.value() as int) || X::from_value(x.value()) != x,
{
    assert(p.subrange(0, prefix.len() as int) =~= prefix);
    assert(p.subrange(prefix.len() as int, p.len() as int) =~= Seq::<bool>::empty());
}

/// Records the codes of the leaves under `node`, whose path from the root is
/// `prefix`, in `table`.
fn gen_entries<X: SerializedBits>(
    node: &HuffmanNode<X>,
    prefix: BitVec,
    table: &mut Vec<Option<(X, BitVec)>>,
)
    requires
        old(table)@.len() == two_pow(X::width()),
        bits_of(prefix).len() + height(*node) < usize::MAX,
    ensures
        final(table)@.len() == old(table)@.len(),
        forall|v: int|
            0 <= v < old(table)@.len() ==> ((#[trigger] final(table)@[v] is Some) <==> (
            old(table)@[v] is Some || has_leaf(*node, X::from_value(v as nat)))),
        forall|v: int|
            0 <= v < old(table)@.len() ==> #[trigger] final(table)@[v] == old(table)@[v]
                || entry_under(*node, bits_of(prefix), entry_view(final(table)@[v]), v),
    decreases node,
{
    match &node.node_type {
        NodeType::Leaf(sym) => {
            let idx = sym.index();
            let ghost p = bits_of(prefix);
            proof {
                X::lemma_symbol(*sym, 0);
                lemma_leaf_entry(*node, p, p, *sym);
                assert forall|v: int| 0 <= v < table@.len() && v != idx implies !has_leaf(
                    *node,
                    #[trigger] X::from_value(v as nat),
                ) by {
                    X::lemma_symbol(*sym, v as nat);
                }
            }
            table.set(idx, Some((*sym, prefix)));
        },
        NodeType::Internal(node_a, node_b) => {
            let mut prefix_a = bits_clone(&prefix);
            bits_push(&mut prefix_a, false);
            let ghost t0 = table@;
            gen_entries(&**node_a, prefix_a, table);
            let ghost t1 = table@;
            let mut prefix_b = prefix;
            bits_push(&mut prefix_b, true);
            gen_entries(&**node_b, prefix_b, table);
            proof {
                let pre = bits_of(prefix);
                assert forall|v: int| 0 <= v < t0.len() implies #[trigger] table@[v] == t0[v]
                    || entry_under(*node, pre, entry_view(table@[v]), v) by {
                    if table@[v] != t1[v] {
                        lemma_entry_lift(*node, **node_b, true, pre, entry_view(table@[v]), v);
                    } else if t1[v] != t0[v] {
                        lemma_entry_lift(*node, **node_a, false, pre, entry_view(table@[v]), v);
                    }
                }
            }
        },
    }
}

/// A table of codes, one entry per symbol number.
pub struct EncodeDict<X> {
    codes: Vec<Option<(X, BitVec)>>,
}

impl<X: SerializedBits> EncodeDict<X> {
    /// The entries, each a symbol with the bits of its code.
    pub closed spec fn view(&self) -> Seq<Option<(X, Seq<bool>)>> {
        self.codes@.map_values(|e: Option<(X, BitVec)>| entry_view(e))
    }

    /// The table has an entry for every symbol number, and every present
    /// entry holds the symbol of its number.
    pub closed spec fn wf(&self) -> bool {
        &&& self.codes@.len() == two_pow(X::width())
        &&& forall|v: int|
            0 <= v < self.codes@.len() ==> (#[trigger] self.codes@[v] matches Some((s, _)) ==> s
                == X::from_value(v as nat))
    }
}

impl<X: SerializedBits> HuffmanNode<X> {
    /// The code dictionary of the tree: the path from the root to each leaf,
    /// 0 for a left edge and 1 for a right one.
    pub fn encoding_dictionary(&self) -> (r: EncodeDict<X>)
        requires
            height(*self) < usize::MAX,
        ensures
            r.wf(),
            dict_of(*self, r@),
    {
        let size = symbol_count(X::bitlen());
        let mut codes: Vec<Option<(X, BitVec)>> = Vec::new();
        let mut i: usize = 0;
        while i < size
            invariant
                i <= size,
                codes@.len() == i,
                forall|v: int| 0 <= v < i ==> codes@[v] is None,
            decreases size - i,
        {
            codes.push(None);
            i += 1;
        }
        let ghost c0 = codes@;
        gen_entries(self, bits_new(), &mut codes);
        let r = EncodeDict { codes };
        proof {
            let d = r@;
            assert forall|v: int| 0 <= v < d.len() implies (#[trigger] d[v] matches Some((s, p))
                ==> {
                &&& s == X::from_value(v as nat)
                &&& leaf_at(*self, p) == Some(s)
            }) by {
                if let Some((s, p)) = d[v] {
                    assert(r.codes@[v] != c0[v]);
                    assert(p.subrange(0, 0) =~= Seq::<bool>::empty());
                    assert(p.subrange(0, p.len() as int) =~= p);
                }
            }
            assert forall|v: int| 0 <= v < d.len() implies (#[trigger] d[v] is Some <==> has_leaf(
                *self,
                X::from_value(v as nat),
            )) by {
                assert(r.codes@[v] is Some <==> d[v] is Some);
            }
            assert forall|v: int|
                0 <= v < r.codes@.len() implies (#[trigger] r.codes@[v] matches Some((s, _)) ==> s
                == X::from_value(v as nat)) by {
                if r.codes@[v] is Some {
                    assert(r.codes@[v] != c0[v]);
                }
            }
        }
        r
    }
}

proof fn lemma_encoded_concat<X: SerializedBits>(
    d: Seq<Option<(X, Seq<bool>)>>,
    a: Seq<X>,
    b: Seq<X>,
)
    ensures
        encoded_bits(d, a + b) == encoded_bits(d, a) + encoded_bits(d, b),
    decreases a.len(),
{
    if a.len() == 0 {
        assert(a + b =~= b);
        assert(encoded_bits(d, a) + encoded_bits(d, b) =~= encoded_bits(d, b));
    } else {
        assert((a + b).drop_first() =~= a.drop_first() + b);
        lemma_encoded_concat(d, a.drop_first(), b);
        assert(encoded_bits(d, a + b) =~= encoded_bits(d, a) + encoded_bits(d, b));
    }
}

proof fn lemma_encoded_prefix<X: SerializedBits>(d: Seq<Option<(X, Seq<bool>)>>, xs: Seq<X>, j: int)
    requires
        0 <= j < xs.len(),
    ensures
        encoded_bits(d, xs.subrange(0, j + 1)) == encoded_bits(d, xs.subrange(0, j)) + code_of(
            d,
            xs[j],
        ),
        encoded_bits(d, xs.subrange(0, j + 1)).len() <= encoded_bits(d, xs).len(),
{
    let a = xs.subrange(0, j);
    let one = seq![xs[j]];
    assert(xs.subrange(0, j + 1) =~= a + one);
    lemma_encoded_concat(d, a, one);
    assert(one.drop_first() =~= Seq::<X>::empty());
    assert(encoded_bits(d, one) == code_of(d, xs[j]) + encoded_bits(d, one.drop_first()));
    assert(code_of(d, xs[j]) + Seq::<bool>::empty() =~= code_of(d, xs[j]));
    assert(xs =~= xs.subrange(0, j + 1) + xs.subrange(j + 1, xs.len() as int));
    lemma_encoded_concat(d, xs.subrange(0, j + 1), xs.subrange(j + 1, xs.len() as int));
}

/// Encodes a symbol sequence with a code dictionary: the codes of the symbols
/// one after the other, packed into bytes with a count byte at the end.
pub fn encode<X: SerializedBits>(input: &[X], edict: &EncodeDict<X>) -> (r: Result<
    Vec<u8>,
    CodecError,
>)
    requires
        edict.wf(),
        encoded_bits(edict@, input@).len() < usize::MAX,
    ensures
        match r {
            Ok(bytes) => all_coded(edict@, input@) && length_padded(
                bytes@,
                encoded_bits(edict@, input@),
            ),
            Err(e) => !all_coded(edict@, input@) && e == CodecError::SymbolNotInDictionary,
        },
{
    let ghost d = edict@;
    let ghost xs = input@;
    let mut bits = bits_new();
    let mut j: usize = 0;
    proof {
        assert(xs.subrange(0, 0) =~= Seq::<X>::empty());
    }
    while j < input.len()
        invariant
            d == edict@,
            xs == input@,
            edict.wf(),
            encoded_bits(d, xs).len() < usize::MAX,
            j <= xs.len(),
            bits_of(bits) == encoded_bits(d, xs.subrange(0, j as int)),
            all_coded(d, xs.subrange(0, j as int)),
        decreases xs.len() - j,
    {
        let x = input[j];
        let idx = x.index();
        proof {
            X::lemma_symbol(x, 0);
            lemma_encoded_prefix(d, xs, j as int);
            assert(d[idx as int] == entry_view(edict.codes@[idx as int]));
        }
        match &edict.codes[idx] {
            None => {
                proof {
                    assert(!all_coded(d, xs)) by {
                        assert(!(d[xs[j as int].value() as int] is Some));
                    }
                }
                return Err(CodecError::SymbolNotInDictionary);
            },
            Some((_, code)) => {
                let ghost start = bits_of(bits);
                let ghost c = bits_of(*code);
                assert(code_of(d, x) == c);
                let n = bits_len(code);
                let mut k: usize = 0;
                while k < n
                    invariant
                        n == c.len(),
                        c == bits_of(*code),
                        k <= n,
                        bits_of(bits) == start + c.subrange(0, k as int),
                        start.len() + c.len() < usize::MAX,
                    decreases n - k,
                {
                    let b = match bits_get(code, k) {
                        Some(b) => b,
                        None => false,
                    };
                    bits_push(&mut bits, b);
                    proof {
                        assert(bits_of(bits) =~= start + c.subrange(0, k + 1));
                    }
                    k += 1;
                }
                proof {
                    assert(c.subrange(0, n as int) =~= c);
                    assert forall|i: int| 0 <= i < j + 1 implies #[trigger] d[xs.subrange(
                        0,
                        j + 1,
                    )[i].value() as int] is Some by {
                        if i < j {
                            assert(xs.subrange(0, j + 1)[i] == xs.subrange(0, j as int)[i]);
                        }
                    }
                }
            },
        }
        j += 1;
    }
    proof {
        assert(xs.subrange(0, xs.len() as int) =~= xs);
    }
    let out = pack_length_padded(&bits);
    Ok(out)
}

/// Prepends `xs` to a decoding result.
pub open spec fn prepend<X>(xs: Seq<X>, o: Option<Seq<X>>) -> Option<Seq<X>> {
    match o {
        Some(rest) => Some(xs + rest),
        None => None,
    }
}

impl<X: SerializedBits> HuffmanNode<X> {
    /// Whether the node is a leaf.
    pub fn is_leaf(&self) -> (r: bool)
        ensures
            r == !is_internal(*self),
    {
        match &self.node_type {
            NodeType::Leaf(_) => true,
            NodeType::Internal(..) => false,
        }
    }
}

/// Decodes a length-padded byte stream with a tree: from the root, each bit
/// leads left (0) or right (1); at a leaf its symbol is emitted and the walk
/// starts over, until the bits are used up.
pub fn decode<X: SerializedBits>(input: &[u8], root_node: HuffmanNode<X>) -> (r: Result<
    Vec<X>,
    CodecError,
>)
    requires
        is_internal(root_node),
    ensures
        match r {
            Ok(xs) => huff_decode(input@, root_node) == Ok::<Seq<X>, CodecError>(xs@),
            Err(e) => huff_decode(input@, root_node) == Err::<Seq<X>, CodecError>(e),
        },
{
    let l = input.len();
    if l >= 2 && input[l - 1] > 8 {
        return Err(CodecError::InvalidStream);
    }
    let bits = unpack_length_padded(input);
    let ghost bs = bits_of(bits);
    let n = bits_len(&bits);
    let mut out: Vec<X> = Vec::new();
    let mut i: usize = 0;
    proof {
        assert(prepend(out@, decode_from(root_node, bs, 0)) == decode_from(root_node, bs, 0)) by {
            if let Some(rest) = decode_from(root_node, bs, 0) {
                assert(out@ + rest =~= rest);
            }
        }
    }
    while i < n
        invariant
            bs == bits_of(bits),
            bs == unpadded(input@),
            well_padded(input@),
            n == bs.len(),
            i <= n,
            is_internal(root_node),
            decode_from(root_node, bs, 0) == prepend(out@, decode_from(root_node, bs, i as int)),
        decreases n - i,
    {
        let ghost i0 = i as int;
        let mut node: &HuffmanNode<X> = &root_node;
        while !node.is_leaf()
            invariant
                bs == bits_of(bits),
                bs == unpadded(input@),
                well_padded(input@),
                decode_from(root_node, bs, 0) == prepend(out@, decode_from(root_node, bs, i0)),
                n == bs.len(),
                i0 <= i <= n,
                i0 < n,
                descend(root_node, bs, i0) == descend(*node, bs, i as int),
                i == i0 ==> *node == root_node,
            decreases n - i,
        {
            if i >= n {
                proof {
                    assert(descend(root_node, bs, i0) is None);
                    assert(decode_from(root_node, bs, i0) is None);
                }
                return Err(CodecError::TruncatedStream);
            }
            let bit = match bits_get(&bits, i) {
                Some(b) => b,
                None => false,
            };
            match &node.node_type {
                NodeType::Internal(a, b) => {
                    if bit {
                        node = &**b;
                    } else {
                        node = &**a;
                    }
                },
                NodeType::Leaf(_) => {},
            }
            i += 1;
        }
        match &node.node_type {
            NodeType::Leaf(x) => {
                proof {
                    let rest = decode_from(root_node, bs, i as int);
                    assert(decode_from(root_node, bs, i0) == prepend(seq![*x], rest));
                    if let Some(rr) = rest {
                        assert(out@.push(*x) + rr =~= out@ + (seq![*x] + rr));
                    }
                }
                out.push(*x);
            },
            NodeType::Internal(..) => {},
        }
    }
    proof {
        assert(decode_from(root_node, bs, n as int) == Some(Seq::<X>::empty()));
        assert(out@ + Seq::<X>::empty() =~= out@);
    }
    Ok(out)
}

proof fn lemma_descend_path<X>(t: HuffmanNode<X>, p: Seq<bool>, bits: Seq<bool>, i: int, x: X)
    requires
        leaf_at(t, p) == Some(x),
        0 <= i,
        i + p.len() <= bits.len(),
        forall|k: int| 0 <= k < p.len() ==> bits[i + k] == p[k],
    ensures
        descend(t, bits, i) == Some((x, i + p.len())),
    decreases p.len(),
{
    match t.node_type {
        NodeType::Leaf(_) => {},
        NodeType::Internal(a, b) => {
            assert(bits[i + 0] == p[0]);
            let q = p.drop_first();
            assert forall|k: int| 0 <= k < q.len() implies bits[(i + 1) + k] == q[k] by {
                assert(bits[i + (k + 1)] == p[k + 1]);
            }
            if p[0] {
                lemma_descend_path(*b, q, bits, i + 1, x);
            } else {
                lemma_descend_path(*a, q, bits, i + 1, x);
            }
        },
    }
}

proof fn lemma_decode_codes<X: SerializedBits>(
    t: HuffmanNode<X>,
    d: Seq<Option<(X, Seq<bool>)>>,
    bits: Seq<bool>,
    i: int,
    ys: Seq<X>,
)
    requires
        is_internal(t),
        dict_of(t, d),
        all_coded(d, ys),
        0 <= i <= bits.len(),
        bits.subrange(i, bits.len() as int) == encoded_bits(d, ys),
    ensures
        decode_from(t, bits, i) == Some(ys),
    decreases ys.len(),
{
    if ys.len() == 0 {
        assert(bits.subrange(i, bits.len() as int).len() == 0);
        assert(ys =~= Seq::<X>::empty());
    } else {
        let y = ys[0];
        X::lemma_symbol(y, 0);
        let v = y.value() as int;
        assert(d[y.value() as int] is Some);
        let (s, p) = match d[v] {
            Some(e) => e,
            None => (y, Seq::empty()),
        };
        assert(leaf_at(t, p) == Some(s));
        assert(s == y);
        assert(code_of(d, y) == p);
        if p.len() == 0 {
            assert(leaf_at(t, p) is None);
        }
        let rest = ys.drop_first();
        let sub = bits.subrange(i, bits.len() as int);
        assert(sub == p + encoded_bits(d, rest));
        assert forall|k: int| 0 <= k < p.len() implies bits[i + k] == p[k] by {
            assert(sub[k] == bits[i + k]);
        }
        lemma_descend_path(t, p, bits, i, y);
        let j = i + p.len();
        assert forall|k: int| 0 <= k < bits.len() - j implies bits.subrange(j, bits.len() as int)[k]
            == encoded_bits(d, rest)[k] by {
            assert(sub[p.len() + k] == bits[j + k]);
        }
        assert(bits.subrange(j, bits.len() as int) =~= encoded_bits(d, rest));
        assert forall|k: int| 0 <= k < rest.len() implies #[trigger] d[rest[k].value() as int] is Some by {
            assert(rest[k] == ys[k + 1]);
        }
        lemma_decode_codes(t, d, bits, j, rest);
        assert(seq![y] + rest =~= ys);
    }
}

/// Encoding a sequence of symbols of positive weight with a code dictionary
/// of the tree built from the weights, and decoding the bytes with that tree,
/// gives the sequence back.
pub proof fn lemma_huffman_round_trip<X: SerializedBits>(
    weights: Seq<usize>,
    d: Seq<Option<(X, Seq<bool>)>>,
    xs: Seq<X>,
    bytes: Seq<u8>,
)
    requires
        weights.len() == two_pow(X::width()),
        has_positive(weights),
        weight_total(weights, weights.len()) <= usize::MAX,
        dict_of(huffman_tree::<X>(weights), d),
        forall|i: int| 0 <= i < xs.len() ==> weights[#[trigger] xs[i].value() as int] > 0,
        length_padded(bytes, encoded_bits(d, xs)),
    ensures
        all_coded(d, xs),
        huff_decode(bytes, huffman_tree::<X>(weights)) == Ok::<Seq<X>, CodecError>(xs),
{
    let t = huffman_tree::<X>(weights);
    lemma_huffman_tree::<X>(weights);
    assert forall|i: int| 0 <= i < xs.len() implies #[trigger] d[xs[i].value() as int] is Some by {
        X::lemma_symbol(xs[i], 0);
        assert(weights[xs[i].value() as int] > 0);
        assert(has_leaf(t, X::from_value(xs[i].value())));
    }
    lemma_unpad_padded(bytes, encoded_bits(d, xs));
    let bits = unpadded(bytes);
    assert(bits.subrange(0, bits.len() as int) =~= bits);
    lemma_decode_codes(t, d, bits, 0, xs);
}

/// The serialization of a node: `1` and the symbol's bits for a leaf, `0` and
/// the serializations of both children for an inner node.
pub open spec fn node_bits<X: SerializedBits>(t: HuffmanNode<X>) -> Seq<bool>
    decreases t,
{
    match t.node_type {
        NodeType::Leaf(x) => seq![true] + value_bits(x.value(), X::width()),
        NodeType::Internal(a, b) => seq![false] + node_bits(*a) + node_bits(*b),
    }
}

/// The serialization of a tree: that of its root's two children (the root is
/// always an inner node, so its own `0` is left out).
pub open spec fn tree_bits<X: SerializedBits>(t: HuffmanNode<X>) -> Seq<bool> {
    match t.node_type {
        NodeType::Internal(a, b) => node_bits(*a) + node_bits(*b),
        NodeType::Leaf(_) => Seq::empty(),
    }
}

/// The inner node over `a` and `b` that deserialization builds (weights are
/// not serialized and read back as 0).
pub open spec fn parsed_internal<X>(a: HuffmanNode<X>, b: HuffmanNode<X>) -> HuffmanNode<X> {
    HuffmanNode { weight: 0, node_type: NodeType::Internal(Box::new(a), Box::new(b)) }
}

/// The node serialized at index `i` of `bits`, with the index after it, or
/// `None` if the bits run out first.
pub open spec fn parse_node<X: SerializedBits>(bits: Seq<bool>, i: int) -> Option<
    (HuffmanNode<X>, int),
>
    decreases bits.len() - i,
{
    if i < 0 || i >= bits.len() {
        None
    } else if bits[i] {
        let w = X::width() as int;
        if i + 1 + w <= bits.len() {
            Some((leaf(X::from_value(bits_value(bits.subrange(i + 1, i + 1 + w))), 0), i + 1 + w))
        } else {
            None
        }
    } else {
        match parse_node::<X>(bits, i + 1) {
            None => None,
            Some((a, j)) => if j <= i || j > bits.len() {
                None
            } else {
                match parse_node::<X>(bits, j) {
                    None => None,
                    Some((b, k)) => Some((parsed_internal(a, b), k)),
                }
            },
        }
    }
}

/// The tree serialized at the start of `bits`, with the number of bits it
/// takes, or `None` if the bits run out first.
pub open spec fn parse_tree<X: SerializedBits>(bits: Seq<bool>) -> Option<(HuffmanNode<X>, int)> {
    match parse_node::<X>(bits, 0) {
        None => None,
        Some((a, j)) => match parse_node::<X>(bits, j) {
            None => None,
            Some((b, k)) => Some((parsed_internal(a, b), k)),
        },
    }
}

/// Two trees have the same shape and the same symbols at the same places.
pub open spec fn same_shape<X>(a: HuffmanNode<X>, b: HuffmanNode<X>) -> bool
    decreases a,
{
    match (a.node_type, b.node_type) {
        (NodeType::Leaf(x), NodeType::Leaf(y)) => x == y,
        (NodeType::Internal(a1, a2), NodeType::Internal(b1, b2)) => same_shape(*a1, *b1)
            && same_shape(*a2, *b2),
        _ => false,
    }
}

/// Appends the bits of `src` to `dst`.
fn append_bits(dst: &mut BitVec, src: &BitVec)
    requires
        bits_of(*old(dst)).len() + bits_of(*src).len() < usize::MAX,
    ensures
        bits_of(*final(dst)) == bits_of(*old(dst)) + bits_of(*src),
{
    let ghost start = bits_of(*dst);
    let ghost c = bits_of(*src);
    let n = bits_len(src);
    let mut k: usize = 0;
    proof {
        assert(start + c.subrange(0, 0) =~= start);
    }
    while k < n
        invariant
            n == c.len(),
            c == bits_of(*src),
            k <= n,
            bits_of(*dst) == start + c.subrange(0, k as int),
            start.len() + c.len() < usize::MAX,
        decreases n - k,
    {
        let b = match bits_get(src, k) {
            Some(b) => b,
            None => false,
        };
        bits_push(dst, b);
        proof {
            assert(bits_of(*dst) =~= start + c.subrange(0, k + 1));
        }
        k += 1;
    }
    proof {
        assert(c.subrange(0, n as int) =~= c);
    }
}

proof fn lemma_parse_node<X: SerializedBits>(t: HuffmanNode<X>, bits: Seq<bool>, i: int)
    requires
        0 <= i,
        i + node_bits(t).len() <= bits.len(),
        bits.subrange(i, i + node_bits(t).len()) == node_bits(t),
    ensures
        parse_node::<X>(bits, i) matches Some((u, k)) && k == i + node_bits(t).len() && same_shape(
            u,
            t,
        ),
    decreases t,
{
    let nb = node_bits(t);
    assert(bits[i] == nb[0]) by {
        assert(bits.subrange(i, i + nb.len())[0] == bits[i]);
    }
    match t.node_type {
        NodeType::Leaf(x) => {
            let w = X::width();
            X::lemma_symbol(x, 0);
            lemma_value_bits(x.value(), w);
            assert(bits.subrange(i + 1, i + 1 + w) =~= value_bits(x.value(), w)) by {
                assert forall|k: int| 0 <= k < w implies bits.subrange(i + 1, i + 1 + w)[k]
                    == value_bits(x.value(), w)[k] by {
                    assert(bits.subrange(i, i + nb.len())[k + 1] == nb[k + 1]);
                }
            }
        },
        NodeType::Internal(a, b) => {
            let na = node_bits(*a);
            let nbb = node_bits(*b);
            assert(nb == seq![false] + na + nbb);
            assert(bits.subrange(i + 1, i + 1 + na.len()) =~= na) by {
                assert forall|k: int| 0 <= k < na.len() implies bits.subrange(
                    i + 1,
                    i + 1 + na.len(),
                )[k] == na[k] by {
                    assert(bits.subrange(i, i + nb.len())[k + 1] == nb[k + 1]);
                }
            }
            lemma_parse_node(*a, bits, i + 1);
            let j = i + 1 + na.len();
            assert(bits.subrange(j, j + nbb.len()) =~= nbb) by {
                assert forall|k: int| 0 <= k < nbb.len() implies bits.subrange(j, j + nbb.len())[k]
                    == nbb[k] by {
                    assert(bits.subrange(i, i + nb.len())[1 + na.len() + k] == nb[1 + na.len()
                        + k]);
                }
            }
            lemma_parse_node(*b, bits, j);
        },
    }
}

/// The serialization of a tree takes `width + 2` bits per leaf, less two.
proof fn lemma_tree_bits_len<X: SerializedBits>(t: HuffmanNode<X>)
    requires
        is_internal(t),
    ensures
        tree_bits(t).len() + 2 == (X::width() + 2) * leaf_count(t),
{
    match t.node_type {
        NodeType::Internal(a, b) => {
            lemma_node_bits_len(*a);
            lemma_node_bits_len(*b);
            assert((X::width() + 2) * (leaf_count(*a) + leaf_count(*b)) == (X::width() + 2)
                * leaf_count(*a) + (X::width() + 2) * leaf_count(*b)) by (nonlinear_arith);
        },
        NodeType::Leaf(_) => {},
    }
}

/// Reading a tree back from its serialization, followed by any bits, gives a
/// tree of the same shape and symbols, and uses exactly the serialization.
pub proof fn lemma_tree_bits_round_trip<X: SerializedBits>(t: HuffmanNode<X>, bits: Seq<bool>)
    requires
        is_internal(t),
        tree_bits(t).len() <= bits.len(),
        bits.subrange(0, tree_bits(t).len() as int) == tree_bits(t),
    ensures
        parse_tree::<X>(bits) matches Some((u, k)) && k == tree_bits(t).len() && same_shape(u, t),
{
    match t.node_type {
        NodeType::Internal(a, b) => {
            let na = node_bits(*a);
            let nbb = node_bits(*b);
            let tb = tree_bits(t);
            assert(bits.subrange(0, na.len() as int) =~= na) by {
                assert forall|k: int| 0 <= k < na.len() implies bits.subrange(0, na.len() as int)[k]
                    == na[k] by {
                    assert(bits.subrange(0, tb.len() as int)[k] == tb[k]);
                }
            }
            lemma_parse_node(*a, bits, 0);
            let j = na.len() as int;
            assert(bits.subrange(j, j + nbb.len()) =~= nbb) by {
                assert forall|k: int| 0 <= k < nbb.len() implies bits.subrange(j, j + nbb.len())[k]
                    == nbb[k] by {
                    assert(bits.subrange(0, tb.len() as int)[j + k] == tb[j + k]);
                }
            }
            lemma_parse_node(*b, bits, j);
        },
        NodeType::Leaf(_) => {},
    }
}

impl<X: SerializedBits> HuffmanNode<X> {
    /// Appends the serialization of this node to `bv`.
    fn to_bitnode(&self, bv: &mut BitVec)
        requires
            bits_of(*old(bv)).len() + node_bits(*self).len() < usize::MAX,
        ensures
            bits_of(*final(bv)) == bits_of(*old(bv)) + node_bits(*self),
        decreases self,
    {
        let ghost start = bits_of(*bv);
        match &self.node_type {
            NodeType::Leaf(symbol) => {
                proof {
                    lemma_value_bits_len(symbol.value(), X::width());
                }
                bits_push(bv, true);
                let sb = symbol.serialize_to_bits();
                append_bits(bv, &sb);
                proof {
                    assert(bits_of(*bv) =~= start + node_bits(*self));
                }
            },
            NodeType::Internal(a, b) => {
                bits_push(bv, false);
                a.to_bitnode(bv);
                b.to_bitnode(bv);
                proof {
                    assert(bits_of(*bv) =~= start + node_bits(*self));
                }
            },
        }
    }

    /// The serialization of the tree (see `tree_bits`).
    pub fn to_bits(&self) -> (r: BitVec)
        requires
            is_internal(*self),
            tree_bits(*self).len() < usize::MAX,
        ensures
            bits_of(r) == tree_bits(*self),
    {
        let mut bv = bits_new();
        match &self.node_type {
            NodeType::Internal(a, b) => {
                a.to_bitnode(&mut bv);
                b.to_bitnode(&mut bv);
                proof {
                    assert(bits_of(bv) =~= tree_bits(*self));
                }
            },
            NodeType::Leaf(_) => {},
        }
        bv
    }

    /// Reads the node serialized at index `i` of `bits` (of length `n`).
    fn from_bitnode(bits: &BitVec, n: usize, i: usize) -> (r: Option<(Self, usize)>)
        requires
            n == bits_of(*bits).len(),
            i <= n,
        ensures
            match r {
                Some((t, k)) => parse_node::<X>(bits_of(*bits), i as int) == Some((t, k as int))
                    && i < k <= n,
                None => parse_node::<X>(bits_of(*bits), i as int) is None,
            },
        decreases n - i,
    {
        if i >= n {
            return None;
        }
        let bit = match bits_get(bits, i) {
            Some(b) => b,
            None => false,
        };
        if bit {
            let w = X::bitlen();
            if w > n - i - 1 {
                return None;
            }
            let mut sb = bits_new();
            let mut k: usize = 0;
            let ghost bs = bits_of(*bits);
            while k < w
                invariant
                    bs == bits_of(*bits),
                    n == bs.len(),
                    i + 1 + w <= n,
                    k <= w,
                    bits_of(sb) == bs.subrange(i + 1, i + 1 + k),
                decreases w - k,
            {
                let b = match bits_get(bits, i + 1 + k) {
                    Some(b) => b,
                    None => false,
                };
                bits_push(&mut sb, b);
                proof {
                    assert(bits_of(sb) =~= bs.subrange(i + 1, i + 1 + k + 1));
                }
                k += 1;
            }
            let symbol = X::serialize_from_bits(&sb);
            Some((HuffmanNode { weight: 0, node_type: NodeType::Leaf(symbol) }, i + 1 + w))
        } else {
            match Self::from_bitnode(bits, n, i + 1) {
                None => None,
                Some((a, j)) => match Self::from_bitnode(bits, n, j) {
                    None => None,
                    Some((b, k)) => Some(
                        (
                            HuffmanNode {
                                weight: 0,
                                node_type: NodeType::Internal(Box::new(a), Box::new(b)),
                            },
                            k,
                        ),
                    ),
                },
            }
        }
    }

    /// Reads a tree back from its serialization (see `tree_bits`); bits after
    /// it are ignored.
    pub fn from_bits(bits: &BitVec) -> (r: Result<Self, CodecError>)
        ensures
            match r {
                Ok(t) => parse_tree::<X>(bits_of(*bits)) matches Some((u, _)) && u == t,
                Err(e) => parse_tree::<X>(bits_of(*bits)) is None && e
                    == CodecError::TruncatedStream,
            },
    {
        let n = bits_len(bits);
        match Self::from_bitnode(bits, n, 0) {
            None => Err(CodecError::TruncatedStream),
            Some((a, j)) => match Self::from_bitnode(bits, n, j) {
                None => Err(CodecError::TruncatedStream),
                Some((b, _)) => Ok(
                    HuffmanNode { weight: 0, node_type: NodeType::Internal(Box::new(a), Box::new(b)) },
                ),
            },
        }
    }

    /// The serialization of the tree packed into bytes, most significant bit
    /// first, the last byte zero-padded: the form in which a tree is stored.
    pub fn to_bytes(&self) -> (r: Vec<u8>)
        requires
            is_internal(*self),
            tree_bits(*self).len() < usize::MAX,
        ensures
            packs(r@, tree_bits(*self)),
    {
        let bv = self.to_bits();
        bits_to_bytes(&bv)
    }

    /// Reads a tree back from its stored form.
    pub fn from_bytes(bytes: &[u8]) -> (r: Result<Self, CodecError>)
        ensures
            match r {
                Ok(t) => parse_tree::<X>(bytes_bits(bytes@)) matches Some((u, _)) && u == t,
                Err(e) => parse_tree::<X>(bytes_bits(bytes@)) is None && e
                    == CodecError::TruncatedStream,
            },
    {
        let bv = bits_from_bytes(bytes);
        Self::from_bits(&bv)
    }
}

/// Storing a tree as bytes and reading it back gives a tree of the same shape
/// and symbols.
pub proof fn lemma_tree_bytes_round_trip<X: SerializedBits>(t: HuffmanNode<X>, bytes: Seq<u8>)
    requires
        is_internal(t),
        packs(bytes, tree_bits(t)),
    ensures
        parse_tree::<X>(bytes_bits(bytes)) matches Some((u, _)) && same_shape(u, t),
{
    let tb = tree_bits(t);
    let bb = bytes_bits(bytes);
    assert(bb.subrange(0, tb.len() as int) =~= tb) by {
        assert forall|k: int| 0 <= k < tb.len() implies bb.subrange(0, tb.len() as int)[k]
            == tb[k] by {
            assert(crate::bits::bit_at(bytes, k) == (k < tb.len() && tb[k]));
        }
    }
    lemma_tree_bits_round_trip(t, bb);
}

proof fn lemma_leaf_forest_single<X: SerializedBits>(weights: Seq<usize>, v: int, k: nat)
    requires
        k <= weights.len(),
        0 <= v < weights.len(),
        forall|u: int| 0 <= u < weights.len() && u != v ==> weights[u] == 0,
        weights[v] > 0,
    ensures
        k <= v ==> leaf_forest::<X>(weights, k) == Seq::<HuffmanNode<X>>::empty(),
        k > v ==> leaf_forest::<X>(weights, k) == seq![leaf(X::from_value(v as nat), weights[v])],
    decreases k,
{
    if k > 0 {
        lemma_leaf_forest_single::<X>(weights, v, (k - 1) as nat);
        if k - 1 == v {
            let n = leaf(X::from_value(v as nat), weights[v]);
            let e = Seq::<HuffmanNode<X>>::empty();
            assert(weight_pos(e, n.weight) == 0);
            assert(e.insert(0, n) =~= seq![n]);
        }
    }
}

/// With a single symbol of positive weight, the tree pairs it with a leaf of
/// another symbol: the symbol's code is the single bit 1.
pub proof fn lemma_single_symbol_code<X: SerializedBits>(weights: Seq<usize>, v: int)
    requires
        weights.len() == two_pow(X::width()),
        0 <= v < weights.len(),
        weights[v] > 0,
        forall|u: int| 0 <= u < weights.len() && u != v ==> weights[u] == 0,
    ensures
        is_internal(huffman_tree::<X>(weights)),
        leaf_at(huffman_tree::<X>(weights), seq![true]) == Some(X::from_value(v as nat)),
        leaf_at(huffman_tree::<X>(weights), seq![false]) != Some(X::from_value(v as nat)),
{
    let sym = X::from_value(v as nat);
    lemma_leaf_forest_single::<X>(weights, v, weights.len());
    let l = leaf(sym, weights[v]);
    let f = leaf_forest::<X>(weights, weights.len());
    assert(f == seq![l]);
    assert(leaf_symbol(f[0]) == sym);
    let d = leaf(dummy_symbol(sym), 0);
    X::lemma_symbol(sym, 0);
    X::lemma_symbol(sym, 1);
    X::lemma_symbol(sym, v as nat);
    assert(two_pow(X::width()) >= 2) by {
        lemma_two_pow_mono(1, X::width());
        reveal_with_fuel(two_pow, 2);
    }
    assert(dummy_symbol(sym) != sym);
    assert(weight_pos(f, 0) == 1 + weight_pos(f.drop_first(), 0));
    assert(weight_pos(f.drop_first(), 0) == 0);
    let sf = start_forest::<X>(weights);
    assert(sf =~= seq![l, d]);
    let t = merged(d, l);
    assert(merge_step(sf) =~= seq![t]) by {
        let e = sf.subrange(0, 0);
        assert(e =~= Seq::<HuffmanNode<X>>::empty());
        assert(e.insert(0, t) =~= seq![t]);
    }
    assert(merge_steps(sf, 1) == merge_step(merge_steps(sf, 0)));
    assert(huffman_tree::<X>(weights) == t);
    let one = seq![true];
    let zero = seq![false];
    assert(one.drop_first() =~= Seq::<bool>::empty());
    assert(zero.drop_first() =~= Seq::<bool>::empty());
    assert(leaf_at(l, Seq::<bool>::empty()) == Some(sym));
    assert(leaf_at(d, Seq::<bool>::empty()) == Some(dummy_symbol(sym)));
    assert(leaf_at(t, one) == leaf_at(l, one.drop_first()));
    assert(leaf_at(t, zero) == leaf_at(d, zero.drop_first()));
}

} // verus!
