//! The code tree and its pre-order bit encoding.
use crate::bits::{
    bits_of, bv_extend, bv_from_bytes, bv_get, bv_len, bv_new, bv_push, bv_to_bytes, byte_bit,
    byte_bits, lemma_byte_bits_injective,
};
use crate::error::HuffmanError;
use bit_vec::BitVec;
use vstd::prelude::*;

verus! {

/// A node of a binary prefix-code tree.
#[derive(Debug, PartialEq, Eq)]
pub enum Node {
    Leaf(u8),
    Branch(Box<Node>, Box<Node>),
}

/// The pre-order encoding of a tree: `1` and the eight bits of the symbol for a
/// leaf, `0` followed by both subtrees for a branch.
pub open spec fn tree_bits(t: Node) -> Seq<bool>
    decreases t,
{
    match t {
        Node::Leaf(c) => seq![true] + byte_bits(c),
        Node::Branch(l, r) => seq![false] + tree_bits(*l) + tree_bits(*r),
    }
}

/// The number of nodes of a tree.
pub open spec fn size(t: Node) -> nat
    decreases t,
{
    match t {
        Node::Leaf(_) => 1,
        Node::Branch(l, r) => 1 + size(*l) + size(*r),
    }
}

/// The symbols at the leaves of a tree.
pub open spec fn leaves(t: Node) -> Set<u8>
    decreases t,
{
    match t {
        Node::Leaf(c) => set![c],
        Node::Branch(l, r) => leaves(*l) + leaves(*r),
    }
}

/// Whether `x` occurs in `s` at position `i`.
pub open spec fn occurs_at(x: Seq<bool>, s: Seq<bool>, i: int) -> bool {
    0 <= i && i + x.len() <= s.len() && s.subrange(i, i + x.len()) == x
}

pub proof fn lemma_tree_bits_len(t: Node)
    ensures
        1 <= tree_bits(t).len() <= 9 * size(t),
    decreases t,
{
    match t {
        Node::Leaf(c) => {},
        Node::Branch(l, r) => {
            lemma_tree_bits_len(*l);
            lemma_tree_bits_len(*r);
        },
    }
}

/// A piece of a sequence that occurs at `i` occurs at the matching position.
pub proof fn lemma_occurs_piece(x: Seq<bool>, s: Seq<bool>, i: int, j: int, k: int)
    requires
        occurs_at(x, s, i),
        0 <= j <= k <= x.len(),
    ensures
        occurs_at(x.subrange(j, k), s, i + j),
{
    assert forall|m: int| 0 <= m < k - j implies #[trigger] s.subrange(i + j, i + k)[m] == x.subrange(j, k)[m] by {
        assert(s.subrange(i, i + x.len())[j + m] == x[j + m]);
    }
    assert(s.subrange(i + j, i + k) =~= x.subrange(j, k));
}

/// The tree encoding is prefix-free: at one position of a bit sequence at most
/// one tree's encoding begins.
pub proof fn lemma_tree_bits_unique(a: Node, b: Node, s: Seq<bool>, i: int)
    requires
        occurs_at(tree_bits(a), s, i),
        occurs_at(tree_bits(b), s, i),
    ensures
        a == b,
    decreases a,
{
    lemma_tree_bits_len(a);
    lemma_tree_bits_len(b);
    lemma_occurs_piece(tree_bits(a), s, i, 0, 1);
    lemma_occurs_piece(tree_bits(b), s, i, 0, 1);
    assert(s.subrange(i, i + 1)[0] == s[i]);
    assert(tree_bits(a).subrange(0, 1)[0] == tree_bits(a)[0]);
    assert(tree_bits(b).subrange(0, 1)[0] == tree_bits(b)[0]);
    match a {
        Node::Leaf(x) => {
            match b {
                Node::Leaf(y) => {
                    lemma_occurs_piece(tree_bits(a), s, i, 1, 9);
                    lemma_occurs_piece(tree_bits(b), s, i, 1, 9);
                    assert(tree_bits(a).subrange(1, 9) =~= byte_bits(x));
                    assert(tree_bits(b).subrange(1, 9) =~= byte_bits(y));
                    lemma_byte_bits_injective(x, y);
                },
                Node::Branch(_, _) => {},
            }
        },
        Node::Branch(al, ar) => {
            match b {
                Node::Leaf(_) => {},
                Node::Branch(bl, br) => {
                    let na: int = tree_bits(*al).len() as int;
                    let nb: int = tree_bits(*bl).len() as int;
                    let ma: int = tree_bits(*ar).len() as int;
                    let mb: int = tree_bits(*br).len() as int;
                    lemma_occurs_piece(tree_bits(a), s, i, 1, 1 + na);
                    lemma_occurs_piece(tree_bits(b), s, i, 1, 1 + nb);
                    assert(tree_bits(a).subrange(1, 1 + na) =~= tree_bits(*al));
                    assert(tree_bits(b).subrange(1, 1 + nb) =~= tree_bits(*bl));
                    lemma_tree_bits_unique(*al, *bl, s, i + 1);
                    lemma_occurs_piece(tree_bits(a), s, i, 1 + na, 1 + na + ma);
                    lemma_occurs_piece(tree_bits(b), s, i, 1 + nb, 1 + nb + mb);
                    assert(tree_bits(a).subrange(1 + na, 1 + na + ma) =~= tree_bits(*ar));
                    assert(tree_bits(b).subrange(1 + nb, 1 + nb + mb) =~= tree_bits(*br));
                    lemma_tree_bits_unique(*ar, *br, s, i + 1 + na);
                },
            }
        },
    }
}

/// Appends the pre-order encoding of `tree` to `out`.
pub fn encode_tree(tree: &Node, out: &mut BitVec)
    requires
        bits_of(*old(out)).len() + 9 * size(*tree) < usize::MAX,
    ensures
        bits_of(*final(out)) == bits_of(*old(out)) + tree_bits(*tree),
    decreases tree,
{
    proof {
        lemma_tree_bits_len(*tree);
    }
    match tree {
        Node::Leaf(character) => {
            bv_push(out, true);
            let one: [u8; 1] = [*character];
            let symbol = bv_from_bytes(&one);
            assert(one@ =~= seq![*character]);
            assert(crate::bits::bytes_bits(one@) =~= byte_bits(*character));
            bv_extend(out, &symbol);
        },
        Node::Branch(left, right) => {
            bv_push(out, false);
            proof {
                lemma_tree_bits_len(**left);
                lemma_tree_bits_len(**right);
            }
            encode_tree(left, out);
            encode_tree(right, out);
        },
    }
    assert(bits_of(*out) =~= bits_of(*old(out)) + tree_bits(*tree));
}

proof fn lemma_first_bit(t: Node)
    ensures
        tree_bits(t).len() >= 1,
        tree_bits(t)[0] == (t is Leaf),
        t is Leaf ==> tree_bits(t).len() == 9,
{
    lemma_tree_bits_len(t);
}

/// Every tree encoding that begins with `0` at `pos` is that of a branch whose
/// left subtree's encoding begins at `pos + 1`.
proof fn lemma_branch_at(t: Node, s: Seq<bool>, pos: int)
    requires
        occurs_at(tree_bits(t), s, pos),
    ensures
        s[pos] == (t is Leaf),
        t is Leaf ==> pos + 9 <= s.len(),
        t is Branch ==> occurs_at(tree_bits(*t->Branch_0), s, pos + 1),
        t is Branch ==> occurs_at(tree_bits(*t->Branch_1), s, pos + 1 + tree_bits(*t->Branch_0).len()),
{
    lemma_first_bit(t);
    lemma_occurs_piece(tree_bits(t), s, pos, 0, 1);
    assert(s.subrange(pos, pos + 1)[0] == s[pos]);
    assert(tree_bits(t).subrange(0, 1)[0] == tree_bits(t)[0]);
    match t {
        Node::Leaf(_) => {},
        Node::Branch(l, r) => {
            let nl: int = tree_bits(*l).len() as int;
            let nr: int = tree_bits(*r).len() as int;
            lemma_occurs_piece(tree_bits(t), s, pos, 1, 1 + nl);
            assert(tree_bits(t).subrange(1, 1 + nl) =~= tree_bits(*l));
            lemma_occurs_piece(tree_bits(t), s, pos, 1 + nl, 1 + nl + nr);
            assert(tree_bits(t).subrange(1 + nl, 1 + nl + nr) =~= tree_bits(*r));
        },
    }
}

/// Reads the tree whose encoding begins at bit `pos` of `bits`; returns it with
/// the position just past its encoding. Fails exactly when no tree's encoding
/// begins there.
pub fn decode_tree(bits: &BitVec, pos: usize) -> (r: Result<(Node, usize), HuffmanError>)
    requires
        pos <= bits_of(*bits).len(),
    ensures
        match r {
            Ok((t, p)) => occurs_at(tree_bits(t), bits_of(*bits), pos as int) && p == pos
                + tree_bits(t).len(),
            Err(e) => e == HuffmanError::MalformedTreeEncoding && forall|t: Node|
                !occurs_at(#[trigger] tree_bits(t), bits_of(*bits), pos as int),
        },
    decreases bits_of(*bits).len() - pos,
{
    let ghost s = bits_of(*bits);
    let n = bv_len(bits);
    if pos >= n {
        proof {
            assert forall|t: Node| !occurs_at(#[trigger] tree_bits(t), s, pos as int) by {
                lemma_first_bit(t);
            }
        }
        return Err(HuffmanError::MalformedTreeEncoding);
    }
    if bv_get(bits, pos) {
        if n - pos - 1 < 8 {
            proof {
                assert forall|t: Node| !occurs_at(#[trigger] tree_bits(t), s, pos as int) by {
                    if occurs_at(tree_bits(t), s, pos as int) {
                        lemma_branch_at(t, s, pos as int);
                    }
                }
            }
            return Err(HuffmanError::MalformedTreeEncoding);
        }
        let mut symbol = bv_new();
        let mut k: usize = 0;
        while k < 8
            invariant
                k <= 8,
                pos + 9 <= n,
                n == s.len(),
                s == bits_of(*bits),
                bits_of(symbol) == s.subrange(pos + 1, pos + 1 + k),
            decreases 8 - k,
        {
            let b = bv_get(bits, pos + 1 + k);
            bv_push(&mut symbol, b);
            k = k + 1;
            assert(bits_of(symbol) =~= s.subrange(pos + 1, pos + 1 + k));
        }
        let bytes = bv_to_bytes(&symbol);
        let c = bytes[0];
        let ghost t = Node::Leaf(c);
        proof {
            assert forall|m: int| 0 <= m < 8 implies #[trigger] byte_bits(c)[m] == s[pos + 1 + m] by {
                assert(byte_bit(bytes@[m / 8], m % 8) == (m < bits_of(symbol).len() && bits_of(symbol)[m]));
                assert(m / 8 == 0 && m % 8 == m);
            }
            assert(s.subrange(pos as int, pos + 9) =~= tree_bits(t));
        }
        Ok((Node::Leaf(c), pos + 9))
    } else {
        match decode_tree(bits, pos + 1) {
            Err(e) => {
                proof {
                    assert forall|t: Node| !occurs_at(#[trigger] tree_bits(t), s, pos as int) by {
                        if occurs_at(tree_bits(t), s, pos as int) {
                            lemma_branch_at(t, s, pos as int);
                        }
                    }
                }
                Err(e)
            },
            Ok((left, p1)) => {
                match decode_tree(bits, p1) {
                    Err(e) => {
                        proof {
                            assert forall|t: Node| !occurs_at(#[trigger] tree_bits(t), s, pos as int) by {
                                if occurs_at(tree_bits(t), s, pos as int) {
                                    lemma_branch_at(t, s, pos as int);
                                    lemma_tree_bits_unique(*t->Branch_0, left, s, pos + 1);
                                }
                            }
                        }
                        Err(e)
                    },
                    Ok((right, p2)) => {
                        let ghost t = Node::Branch(Box::new(left), Box::new(right));
                        proof {
                            let nl: int = tree_bits(left).len() as int;
                            let nr: int = tree_bits(right).len() as int;
                            assert(s.subrange(pos as int, pos + 1 + nl + nr) =~= tree_bits(t)) by {
                                assert(s.subrange(pos + 1, pos + 1 + nl) == tree_bits(left));
                                assert(s.subrange(pos + 1 + nl, pos + 1 + nl + nr) == tree_bits(right));
                            }
                        }
                        Ok((Node::Branch(Box::new(left), Box::new(right)), p2))
                    },
                }
            },
        }
    }
}

} // verus!
