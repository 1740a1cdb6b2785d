//! Symbol frequencies and the greedy weighted merge that builds the code tree.
use crate::tree::{leaves, size, Node};
use vstd::prelude::*;

verus! {

/// How many times `v` occurs in `s`.
pub open spec fn occurrences(s: Seq<u8>, v: u8) -> nat
    decreases s.len(),
{
    if s.len() == 0 {
        0
    } else {
        occurrences(s.drop_last(), v) + if s.last() == v {
            1nat
        } else {
            0nat
        }
    }
}

/// The sum of a sequence of counts.
pub open spec fn total(s: Seq<u64>) -> int
    decreases s.len(),
{
    if s.len() == 0 {
        0
    } else {
        total(s.drop_last()) + s.last()
    }
}

/// The symbols whose count is not zero.
pub open spec fn present(counts: Seq<u64>) -> Set<u8> {
    Set::new(|v: u8| (v as int) < counts.len() && counts[v as int] > 0)
}

/// The summed weight of the entries of a forest.
pub open spec fn forest_weight(s: Seq<(u64, Node)>) -> int
    decreases s.len(),
{
    if s.len() == 0 {
        0
    } else {
        forest_weight(s.drop_last()) + s.last().0
    }
}

/// The summed node count of the trees of a forest.
pub open spec fn forest_size(s: Seq<(u64, Node)>) -> int
    decreases s.len(),
{
    if s.len() == 0 {
        0
    } else {
        forest_size(s.drop_last()) + size(s.last().1)
    }
}

/// The leaf symbols of all trees of a forest.
pub open spec fn forest_leaves(s: Seq<(u64, Node)>) -> Set<u8>
    decreases s.len(),
{
    if s.len() == 0 {
        Set::empty()
    } else {
        forest_leaves(s.drop_last()) + leaves(s.last().1)
    }
}

proof fn lemma_forest_nonneg(s: Seq<(u64, Node)>)
    ensures
        forest_weight(s) >= 0,
        forest_size(s) >= s.len(),
    decreases s.len(),
{
    if s.len() > 0 {
        lemma_forest_nonneg(s.drop_last());
        lemma_size_pos(s.last().1);
    }
}

proof fn lemma_size_pos(t: Node)
    ensures
        size(t) >= 1,
{
}

proof fn lemma_leaves_nonempty(t: Node)
    ensures
        exists|c: u8| leaves(t).contains(c),
    decreases t,
{
    match t {
        Node::Leaf(c) => {
            assert(leaves(t).contains(c));
        },
        Node::Branch(l, r) => {
            lemma_leaves_nonempty(*l);
            let c = choose|c: u8| leaves(*l).contains(c);
            assert(leaves(t).contains(c));
        },
    }
}

proof fn lemma_forest_remove(s: Seq<(u64, Node)>, i: int)
    requires
        0 <= i < s.len(),
    ensures
        forest_weight(s) == forest_weight(s.remove(i)) + s[i].0,
        forest_size(s) == forest_size(s.remove(i)) + size(s[i].1),
        forest_leaves(s) == forest_leaves(s.remove(i)) + leaves(s[i].1),
    decreases s.len(),
{
    if i == s.len() - 1 {
        assert(s.remove(i) =~= s.drop_last());
    } else {
        lemma_forest_remove(s.drop_last(), i);
        let r = s.remove(i);
        assert(r.drop_last() =~= s.drop_last().remove(i));
        assert(r.last() == s.last());
        assert(forest_leaves(s) =~= forest_leaves(r) + leaves(s[i].1));
    }
}

pub proof fn lemma_occurrences_of_member(s: Seq<u8>, j: int)
    requires
        0 <= j < s.len(),
    ensures
        occurrences(s, s[j]) > 0,
    decreases s.len(),
{
    if j < s.len() - 1 {
        lemma_occurrences_of_member(s.drop_last(), j);
    }
}

/// A value that occurs is found in the sequence.
pub proof fn lemma_occurrences_member(s: Seq<u8>, v: u8)
    requires
        occurrences(s, v) > 0,
    ensures
        s.contains(v),
    decreases s.len(),
{
    if s.last() != v {
        lemma_occurrences_member(s.drop_last(), v);
        let j = choose|j: int| 0 <= j < s.drop_last().len() && s.drop_last()[j] == v;
        assert(s[j] == v);
    } else {
        assert(s[s.len() - 1] == v);
    }
}

pub proof fn lemma_occurrences_bound(s: Seq<u8>, v: u8)
    ensures
        occurrences(s, v) <= s.len(),
    decreases s.len(),
{
    if s.len() > 0 {
        lemma_occurrences_bound(s.drop_last(), v);
    }
}

/// A sum of counts, none above `m`, is at most `m` times their number.
pub proof fn lemma_total_bound(s: Seq<u64>, m: int)
    requires
        forall|i: int| 0 <= i < s.len() ==> #[trigger] s[i] <= m,
    ensures
        total(s) <= s.len() * m,
    decreases s.len(),
{
    if s.len() > 0 {
        lemma_total_bound(s.drop_last(), m);
        assert(s.last() <= m);
        assert((s.len() - 1) * m + m == s.len() * m) by (nonlinear_arith);
    }
}

/// The number of occurrences of each byte value in `content`, indexed by value.
pub fn count_frequencies(content: &Vec<u8>) -> (r: Vec<u64>)
    ensures
        r@.len() == 256,
        forall|v: u8| #[trigger] r@[v as int] == occurrences(content@, v),
{
    let mut counts: Vec<u64> = vec![0u64; 256];
    let mut i: usize = 0;
    while i < content.len()
        invariant
            i <= content@.len(),
            counts@.len() == 256,
            forall|v: u8| #[trigger] counts@[v as int] == occurrences(content@.take(i as int), v),
        decreases content@.len() - i,
    {
        let item = content[i];
        proof {
            assert(content@.take(i + 1).drop_last() =~= content@.take(i as int));
            lemma_occurrences_bound(content@.take(i as int), item);
        }
        let c = counts[item as usize];
        counts.set(item as usize, c + 1);
        i = i + 1;
    }
    assert(content@.take(i as int) =~= content@);
    counts
}

/// The first position of lowest weight in a forest (0 when it is empty).
pub open spec fn first_lowest(f: Seq<(u64, Node)>) -> int
    decreases f.len(),
{
    if f.len() <= 1 {
        0
    } else {
        let k = first_lowest(f.drop_last());
        if f.last().0 < f[k].0 {
            f.len() - 1
        } else {
            k
        }
    }
}

/// The forest after one greedy step: the first entry of lowest weight and then
/// the first of lowest weight among the rest are replaced by a branch over the
/// two, weighted by their sum, at the end.
pub open spec fn merge_step(f: Seq<(u64, Node)>) -> Seq<(u64, Node)> {
    let i = first_lowest(f);
    let a = f[i];
    let f1 = f.remove(i);
    let j = first_lowest(f1);
    let b = f1[j];
    f1.remove(j).push(((a.0 + b.0) as u64, Node::Branch(Box::new(a.1), Box::new(b.1))))
}

/// The forest left when greedy steps are taken until at most one tree remains.
pub open spec fn merged(f: Seq<(u64, Node)>) -> Seq<(u64, Node)>
    decreases f.len(),
{
    if f.len() <= 1 {
        f
    } else {
        let i = first_lowest(f);
        let j = first_lowest(f.remove(i));
        if 0 <= i < f.len() && 0 <= j < f.len() - 1 {
            merged(merge_step(f))
        } else {
            f
        }
    }
}

/// A weighted leaf for each symbol of nonzero count, in symbol order.
pub open spec fn initial_forest(counts: Seq<u64>) -> Seq<(u64, Node)>
    decreases counts.len(),
{
    if counts.len() == 0 {
        Seq::empty()
    } else {
        let f = initial_forest(counts.drop_last());
        if counts.last() != 0 {
            f.push((counts.last(), Node::Leaf((counts.len() - 1) as u8)))
        } else {
            f
        }
    }
}

/// The code tree that the greedy merge builds from `counts`; `None` when every
/// count is zero.
pub open spec fn huffman_tree(counts: Seq<u64>) -> Option<Node> {
    let f = merged(initial_forest(counts));
    if f.len() == 0 {
        None
    } else {
        Some(f[0].1)
    }
}

/// The occurrence count of each byte value in `s`, indexed by value.
pub open spec fn frequencies(s: Seq<u8>) -> Seq<u64> {
    Seq::new(256, |i: int| occurrences(s, i as u8) as u64)
}

proof fn lemma_first_lowest(f: Seq<(u64, Node)>)
    requires
        f.len() >= 1,
    ensures
        0 <= first_lowest(f) < f.len(),
        forall|j: int| 0 <= j < f.len() ==> f[first_lowest(f)].0 <= #[trigger] f[j].0,
    decreases f.len(),
{
    if f.len() > 1 {
        let g = f.drop_last();
        lemma_first_lowest(g);
        let k = first_lowest(g);
        assert(f[k] == g[k]);
        assert forall|j: int| 0 <= j < f.len() implies f[first_lowest(f)].0 <= #[trigger] f[j].0 by {
            if j < f.len() - 1 {
                assert(f[j] == g[j]);
            }
        }
    }
}

/// The position of the first entry of lowest weight.
pub fn lowest_weight(forest: &Vec<(u64, Node)>) -> (r: usize)
    requires
        forest@.len() > 0,
    ensures
        r < forest@.len(),
        r == first_lowest(forest@),
        forall|j: int| 0 <= j < forest@.len() ==> forest@[r as int].0 <= #[trigger] forest@[j].0,
{
    let mut best: usize = 0;
    let mut j: usize = 1;
    while j < forest.len()
        invariant
            best < j <= forest@.len(),
            best == first_lowest(forest@.take(j as int)),
            forall|m: int| 0 <= m < j ==> forest@[best as int].0 <= #[trigger] forest@[m].0,
        decreases forest@.len() - j,
    {
        proof {
            let t = forest@.take(j + 1);
            assert(t.drop_last() =~= forest@.take(j as int));
            assert(t[best as int] == forest@[best as int]);
        }
        if forest[j].0 < forest[best].0 {
            best = j;
        }
        j = j + 1;
    }
    assert(forest@.take(j as int) =~= forest@);
    best
}

/// Builds the code tree: a leaf for each symbol of nonzero count, then the two
/// entries of lowest weight are merged into a branch until one tree remains (of
/// equal weights, the one that came first in the working list is taken). `None`
/// when every count is zero.
pub fn build_huffman_tree(counts: &Vec<u64>) -> (r: Option<Node>)
    requires
        counts@.len() == 256,
        total(counts@) <= u64::MAX,
    ensures
        r is None <==> present(counts@) == Set::<u8>::empty(),
        r matches Some(t) ==> leaves(t) == present(counts@) && size(t) <= 511,
        r == huffman_tree(counts@),
        initial_forest(counts@).len() == 1 ==> r == Some(initial_forest(counts@)[0].1),
{
    let mut forest: Vec<(u64, Node)> = Vec::new();
    let mut v: usize = 0;
    while v < 256
        invariant
            v <= 256,
            counts@.len() == 256,
            total(counts@) <= u64::MAX,
            forest_weight(forest@) == total(counts@.take(v as int)),
            forest_size(forest@) == forest@.len(),
            forest@.len() <= v,
            forest_leaves(forest@) == Set::new(|u: u8| (u as int) < v && counts@[u as int] > 0),
            forest@ == initial_forest(counts@.take(v as int)),
        decreases 256 - v,
    {
        proof {
            assert(counts@.take(v + 1).drop_last() =~= counts@.take(v as int));
        }
        let ghost f0 = forest@;
        if counts[v] != 0 {
            forest.push((counts[v], Node::Leaf(v as u8)));
            assert(forest@.drop_last() =~= f0);
            assert(leaves(Node::Leaf(v as u8)) == set![v as u8]);
        }
        proof {
            assert(forest_leaves(forest@) =~= Set::new(|u: u8| (u as int) < v + 1 && counts@[u as int] > 0));
        }
        v = v + 1;
    }
    assert(counts@.take(256) =~= counts@);
    let ghost k0 = forest@.len();
    let ghost init = forest@;
    assert(forest_leaves(forest@) =~= present(counts@));
    if forest.len() == 0 {
        return None;
    }
    while forest.len() > 1
        invariant
            1 <= forest@.len() <= k0,
            k0 <= 256,
            forest_weight(forest@) <= u64::MAX,
            forest_size(forest@) + forest@.len() == 2 * k0,
            forest_leaves(forest@) == present(counts@),
            merged(forest@) == merged(init),
        decreases forest@.len(),
    {
        let ghost f0 = forest@;
        let i = lowest_weight(&forest);
        let a = forest.remove(i);
        proof {
            lemma_forest_remove(f0, i as int);
        }
        let ghost f1 = forest@;
        let j = lowest_weight(&forest);
        let b = forest.remove(j);
        proof {
            lemma_forest_remove(f1, j as int);
            lemma_forest_nonneg(forest@);
        }
        let w = a.0 + b.0;
        forest.push((w, Node::Branch(Box::new(a.1), Box::new(b.1))));
        proof {
            assert(forest@.drop_last() == f1.remove(j as int));
            lemma_first_lowest(f0);
            lemma_first_lowest(f1);
            assert(forest@ =~= merge_step(f0));
        }
    }
    let ghost f = forest@;
    assert(f.drop_last() =~= Seq::<(u64, Node)>::empty());
    let last = forest.remove(0);
    proof {
        lemma_leaves_nonempty(last.1);
        assert(forest_leaves(f.drop_last()) == Set::<u8>::empty());
        assert(forest_size(f.drop_last()) == 0);
        assert(f.last() == f[0]);
        assert(forest_leaves(f) =~= leaves(last.1));
        let c = choose|c: u8| leaves(last.1).contains(c);
        assert(present(counts@).contains(c));
        assert(merged(f) == f);
    }
    Some(last.1)
}

} // verus!
