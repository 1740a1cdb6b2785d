//! Codeword derivation, the bit-stream walk, byte packing, and the two entry points.
use crate::bits::{
    bits_of, bv_clone, bv_extend, bv_from_bytes, bv_get, bv_len, bv_new, bv_push, bv_to_bytes,
    bv_truncate, byte_bit, bytes_bits,
};
use crate::error::HuffmanError;
use crate::builder::{
    build_huffman_tree, count_frequencies, lemma_occurrences_bound, lemma_occurrences_of_member,
    frequencies, huffman_tree, lemma_occurrences_member, lemma_total_bound, occurrences, present,
};
use crate::tree::{
    decode_tree, encode_tree, lemma_tree_bits_len, lemma_tree_bits_unique, leaves, occurs_at, size,
    tree_bits, Node,
};
use bit_vec::BitVec;
use vstd::prelude::*;

verus! {

/// Whether following path `q` from the root of `t` (`false` left, `true` right)
/// ends exactly at a leaf holding `c`.
pub open spec fn leads(t: Node, q: Seq<bool>, c: u8) -> bool
    decreases t,
{
    match t {
        Node::Leaf(x) => q.len() == 0 && x == c,
        Node::Branch(l, r) => q.len() > 0 && if q[0] {
            leads(*r, q.skip(1), c)
        } else {
            leads(*l, q.skip(1), c)
        },
    }
}

/// Whether `q` is a usable codeword for `c` in tree `t`. A tree that is a single
/// leaf has no path to walk: each of its symbols is written as one `false` bit.
pub open spec fn code_ok(t: Node, q: Seq<bool>, c: u8) -> bool {
    match t {
        Node::Leaf(x) => q == seq![false] && x == c,
        Node::Branch(_, _) => leads(t, q, c),
    }
}

pub proof fn lemma_leads_len(t: Node, q: Seq<bool>, c: u8)
    requires
        leads(t, q, c),
    ensures
        q.len() < size(t),
    decreases t,
{
    match t {
        Node::Leaf(_) => {},
        Node::Branch(l, r) => {
            if q[0] {
                lemma_leads_len(*r, q.skip(1), c);
            } else {
                lemma_leads_len(*l, q.skip(1), c);
            }
        },
    }
}

/// What `scan_tree` leaves in the entry of symbol `i`.
pub open spec fn scanned(t: Node, word: Seq<bool>, w: Seq<bool>, i: int) -> bool {
    w.len() >= word.len() && w.subrange(0, word.len() as int) == word && leads(
        t,
        w.subrange(word.len() as int, w.len() as int),
        i as u8,
    )
}

/// Stores in `dict`, for each leaf symbol of `tree`, `word` followed by the path
/// from the root of `tree` to that leaf; other entries stay as they were.
pub fn scan_tree(tree: &Node, word: &BitVec, dict: &mut Vec<BitVec>)
    requires
        old(dict)@.len() == 256,
        bits_of(*word).len() + size(*tree) < usize::MAX,
    ensures
        final(dict)@.len() == 256,
        forall|i: int|
            0 <= i < 256 ==> (leaves(*tree).contains(i as u8) ==> scanned(
                *tree,
                bits_of(*word),
                bits_of(#[trigger] final(dict)@[i]),
                i,
            )) && (!leaves(*tree).contains(i as u8) ==> final(dict)@[i] == old(dict)@[i]),
    decreases tree,
{
    let ghost w0 = bits_of(*word);
    match tree {
        Node::Leaf(character) => {
            let w = bv_clone(word);
            dict.set(*character as usize, w);
            proof {
                assert forall|i: int| 0 <= i < 256 && leaves(*tree).contains(i as u8) implies scanned(
                    *tree,
                    w0,
                    bits_of(#[trigger] dict@[i]),
                    i,
                ) by {
                    assert(i == *character as int);
                    assert(bits_of(dict@[i]).subrange(0, w0.len() as int) =~= w0);
                    assert(bits_of(dict@[i]).subrange(w0.len() as int, w0.len() as int).len() == 0);
                }
            }
        },
        Node::Branch(left, right) => {
            let ghost d0 = dict@;
            let mut left_word = bv_clone(word);
            bv_push(&mut left_word, false);
            scan_tree(left, &left_word, dict);
            let ghost d1 = dict@;
            let mut right_word = bv_clone(word);
            bv_push(&mut right_word, true);
            scan_tree(right, &right_word, dict);
            proof {
                assert forall|i: int| 0 <= i < 256 && leaves(*tree).contains(i as u8) implies scanned(
                    *tree,
                    w0,
                    bits_of(#[trigger] dict@[i]),
                    i,
                ) by {
                    let w = bits_of(dict@[i]);
                    let n0 = w0.len() as int;
                    if leaves(**right).contains(i as u8) {
                        assert(w.subrange(0, n0 + 1) == w0.push(true));
                        assert(w.subrange(0, n0) =~= w0) by {
                            assert(w.subrange(0, n0) =~= w.subrange(0, n0 + 1).subrange(0, n0));
                        }
                        assert(w.subrange(n0, w.len() as int)[0] == w.subrange(0, n0 + 1)[n0]);
                        assert(w.subrange(n0, w.len() as int).skip(1) =~= w.subrange(n0 + 1, w.len() as int));
                    } else {
                        assert(dict@[i] == d1[i]);
                        assert(w.subrange(0, n0 + 1) == w0.push(false));
                        assert(w.subrange(0, n0) =~= w0) by {
                            assert(w.subrange(0, n0) =~= w.subrange(0, n0 + 1).subrange(0, n0));
                        }
                        assert(w.subrange(n0, w.len() as int)[0] == w.subrange(0, n0 + 1)[n0]);
                        assert(w.subrange(n0, w.len() as int).skip(1) =~= w.subrange(n0 + 1, w.len() as int));
                    }
                }
            }
        },
    }
}

/// The node reached from `cur` by one bit.
pub open spec fn step(cur: Node, b: bool) -> Node {
    match cur {
        Node::Branch(l, r) => if b {
            *r
        } else {
            *l
        },
        Node::Leaf(_) => cur,
    }
}

/// The symbols read from `s` by walking `root`, starting at `cur`: each leaf
/// reached is emitted and the walk goes back to the root.
pub open spec fn walk(root: Node, cur: Node, s: Seq<bool>) -> Seq<u8>
    decreases s.len(),
{
    if s.len() == 0 {
        Seq::empty()
    } else {
        let next = step(cur, s[0]);
        match next {
            Node::Leaf(c) => seq![c] + walk(root, root, s.skip(1)),
            Node::Branch(_, _) => walk(root, next, s.skip(1)),
        }
    }
}

/// Whether the walk of `s` from `cur` ends back at the root: `at_root` tells
/// whether `cur` is the root at a codeword boundary.
pub open spec fn walk_complete(root: Node, cur: Node, s: Seq<bool>, at_root: bool) -> bool
    decreases s.len(),
{
    if s.len() == 0 {
        at_root
    } else {
        let next = step(cur, s[0]);
        match next {
            Node::Leaf(_) => walk_complete(root, root, s.skip(1), true),
            Node::Branch(_, _) => walk_complete(root, next, s.skip(1), false),
        }
    }
}

/// Whether the bit stream `s` is a whole number of codewords under tree `t`.
pub open spec fn stream_complete(t: Node, s: Seq<bool>) -> bool {
    match t {
        Node::Leaf(_) => true,
        Node::Branch(_, _) => walk_complete(t, t, s, true),
    }
}

/// The symbols that the bit stream `s` decodes to under tree `t`. A single-leaf
/// tree emits its symbol once per bit.
pub open spec fn decode_stream(t: Node, s: Seq<bool>) -> Seq<u8> {
    match t {
        Node::Leaf(c) => Seq::new(s.len(), |i: int| c),
        Node::Branch(_, _) => walk(t, t, s),
    }
}

/// The codewords of the symbols of `s`, one after another.
pub open spec fn codes(table: Seq<Seq<bool>>, s: Seq<u8>) -> Seq<bool>
    decreases s.len(),
{
    if s.len() == 0 {
        Seq::empty()
    } else {
        codes(table, s.drop_last()) + table[s.last() as int]
    }
}

/// The bits held by each entry of a codeword table.
pub open spec fn table_of(dict: Seq<BitVec>) -> Seq<Seq<bool>> {
    dict.map_values(|b: BitVec| bits_of(b))
}

/// The number of padding bits that fill `n` bits up to whole bytes.
pub open spec fn pad_len(n: nat) -> nat {
    if n % 8 == 0 {
        0
    } else {
        (8 - n % 8) as nat
    }
}

/// Whether a buffer ends in a pad-length byte of at most 7 that drops no more
/// bits than precede it.
pub open spec fn unpackable(buf: Seq<u8>) -> bool {
    buf.len() >= 1 && buf.last() <= 7 && buf.last() <= 8 * (buf.len() - 1)
}

/// The bit sequence a packed buffer holds: the bits of all bytes but the last,
/// without as many final bits as the last byte says.
pub open spec fn unpack(buf: Seq<u8>) -> Seq<bool> {
    let payload = bytes_bits(buf.drop_last());
    payload.subrange(0, payload.len() - buf.last())
}

/// What decompressing `buf` gives. Bits that stop partway through a codeword
/// leave the walk inside the tree, and the buffer is rejected as malformed.
pub open spec fn decompressed(buf: Seq<u8>) -> Result<Seq<u8>, HuffmanError> {
    if !unpackable(buf) {
        Err(HuffmanError::TruncatedBuffer)
    } else if !exists|t: Node| occurs_at(#[trigger] tree_bits(t), unpack(buf), 0) {
        Err(HuffmanError::MalformedTreeEncoding)
    } else {
        let t = choose|t: Node| occurs_at(#[trigger] tree_bits(t), unpack(buf), 0);
        let rest = unpack(buf).skip(tree_bits(t).len() as int);
        if stream_complete(t, rest) {
            Ok(decode_stream(t, rest))
        } else {
            Err(HuffmanError::MalformedTreeEncoding)
        }
    }
}

/// Walking a path that ends at leaf `c` emits `c` and returns to the root.
pub proof fn lemma_walk_path(root: Node, cur: Node, q: Seq<bool>, c: u8, rest: Seq<bool>)
    requires
        cur is Branch,
        leads(cur, q, c),
    ensures
        walk(root, cur, q + rest) == seq![c] + walk(root, root, rest),
        forall|b: bool| #[trigger]
            walk_complete(root, cur, q + rest, b) == walk_complete(root, root, rest, true),
    decreases q.len(),
{
    let s = q + rest;
    assert(s[0] == q[0]);
    assert(s.skip(1) =~= q.skip(1) + rest);
    let next = step(cur, q[0]);
    assert(leads(next, q.skip(1), c)) by {
        match cur {
            Node::Branch(l, r) => {},
            Node::Leaf(_) => {},
        }
    }
    match next {
        Node::Leaf(x) => {
            assert(q.skip(1).len() == 0);
            assert(q.skip(1) + rest =~= rest);
            assert forall|b: bool| #[trigger]
                walk_complete(root, cur, q + rest, b) == walk_complete(root, root, rest, true) by {}
        },
        Node::Branch(_, _) => {
            lemma_walk_path(root, next, q.skip(1), c, rest);
            assert forall|b: bool| #[trigger]
                walk_complete(root, cur, q + rest, b) == walk_complete(root, root, rest, true) by {
                assert(walk_complete(root, next, q.skip(1) + rest, false) == walk_complete(root, root, rest, true));
            }
        },
    }
}

/// Walking the codewords of `s` from the root emits `s`.
pub proof fn lemma_walk_codes(t: Node, table: Seq<Seq<bool>>, s: Seq<u8>, rest: Seq<bool>)
    requires
        t is Branch,
        forall|j: int| 0 <= j < s.len() ==> leads(t, table[#[trigger] s[j] as int], s[j]),
    ensures
        walk(t, t, codes(table, s) + rest) == s + walk(t, t, rest),
        walk_complete(t, t, codes(table, s) + rest, true) == walk_complete(t, t, rest, true),
    decreases s.len(),
{
    if s.len() == 0 {
        assert(codes(table, s) + rest =~= rest);
        assert(s + walk(t, t, rest) =~= walk(t, t, rest));
    } else {
        let init = s.drop_last();
        let x = s.last();
        let q = table[x as int];
        assert(leads(t, table[s[s.len() - 1] as int], s[s.len() - 1]));
        assert(codes(table, s) + rest =~= codes(table, init) + (q + rest));
        lemma_walk_codes(t, table, init, q + rest);
        lemma_walk_path(t, t, q, x, rest);
        assert(s =~= init + seq![x]);
        assert(init + (seq![x] + walk(t, t, rest)) =~= s + walk(t, t, rest));
    }
}

/// Under a single-leaf tree the codewords of `s` are one bit per symbol.
pub proof fn lemma_leaf_codes(c: u8, table: Seq<Seq<bool>>, s: Seq<u8>)
    requires
        forall|j: int| 0 <= j < s.len() ==> #[trigger] s[j] == c && table[s[j] as int] == seq![false],
    ensures
        codes(table, s).len() == s.len(),
        s == Seq::new(s.len(), |i: int| c),
    decreases s.len(),
{
    if s.len() > 0 {
        assert(s[s.len() - 1] == c);
        lemma_leaf_codes(c, table, s.drop_last());
    }
    assert(s =~= Seq::new(s.len(), |i: int| c));
}

/// Packs `x` into bytes, the last bits padded with `false`, followed by one byte
/// holding the number of padding bits.
pub fn serialize_bit_vec(x: &BitVec) -> (r: Vec<u8>)
    ensures
        unpackable(r@),
        unpack(r@) == bits_of(*x),
        r@.last() as nat == pad_len(bits_of(*x).len()),
        r@.len() == 1 + (bits_of(*x).len() + pad_len(bits_of(*x).len())) / 8,
        forall|j: int|
            bits_of(*x).len() <= j < 8 * (r@.len() - 1) ==> !#[trigger] bytes_bits(r@.drop_last())[j],
{
    let n = bv_len(x);
    let modulo = (n % 8) as u8;
    let mut output = bv_to_bytes(x);
    let ghost bytes = output@;
    let pad: u8 = if modulo == 0 { 0 } else { 8 - modulo };
    output.push(pad);
    proof {
        assert(output@.drop_last() =~= bytes);
        let payload = bytes_bits(bytes);
        assert(8 * bytes.len() == n + pad) by {
            if n % 8 == 0 {
                assert(n / 8 * 8 == n);
            } else {
                assert(n / 8 * 8 + n % 8 == n);
            }
        }
        assert forall|j: int| n <= j < 8 * bytes.len() implies !#[trigger] payload[j] by {
            assert(byte_bit(bytes[j / 8], j % 8) == (j < n && bits_of(*x)[j]));
        }
        assert(payload.subrange(0, payload.len() - pad) =~= bits_of(*x)) by {
            assert forall|j: int| 0 <= j < n implies #[trigger] payload[j] == bits_of(*x)[j] by {
                assert(byte_bit(bytes[j / 8], j % 8) == (j < n && bits_of(*x)[j]));
            }
        }
    }
    output
}

/// Recovers the bit sequence packed by `serialize_bit_vec`.
pub fn unserialize_bit_vec(x: &Vec<u8>) -> (r: Result<BitVec, HuffmanError>)
    requires
        8 * x@.len() <= usize::MAX,
    ensures
        r is Ok <==> unpackable(x@),
        r matches Ok(b) ==> bits_of(b) == unpack(x@),
        r matches Err(e) ==> e == HuffmanError::TruncatedBuffer,
{
    let len = x.len();
    if len == 0 {
        return Err(HuffmanError::TruncatedBuffer);
    }
    let pad = x[len - 1];
    if pad > 7 || pad as usize > 8 * (len - 1) {
        return Err(HuffmanError::TruncatedBuffer);
    }
    let payload = vstd::slice::slice_subrange(x.as_slice(), 0, len - 1);
    let mut bits = bv_from_bytes(payload);
    bv_truncate(&mut bits, 8 * (len - 1) - pad as usize);
    assert(payload@ =~= x@.drop_last());
    Ok(bits)
}

/// A buffer whose bits stop short inside the encoding of a tree is rejected as a
/// malformed tree encoding.
pub proof fn lemma_cut_tree_is_malformed(buf: Seq<u8>, t: Node)
    requires
        unpackable(buf),
        unpack(buf).len() < tree_bits(t).len(),
        unpack(buf) == tree_bits(t).subrange(0, unpack(buf).len() as int),
    ensures
        decompressed(buf) == Err::<Seq<u8>, HuffmanError>(HuffmanError::MalformedTreeEncoding),
{
    let s = unpack(buf);
    let full = tree_bits(t);
    assert forall|t2: Node| !occurs_at(#[trigger] tree_bits(t2), s, 0) by {
        if occurs_at(tree_bits(t2), s, 0) {
            let n2 = tree_bits(t2).len() as int;
            assert(full.subrange(0, n2) =~= s.subrange(0, n2));
            assert(full.subrange(0, full.len() as int) =~= full);
            lemma_tree_bits_unique(t2, t, full, 0);
        }
    }
}

/// Compresses `content`: the pre-order encoding of its code tree, then the
/// codeword of each byte in order, packed into bytes with a trailing pad-length
/// byte. Decompressing the result gives `content` back. The length bound keeps
/// the bit count of the result within `usize`.
pub fn compression(content: Vec<u8>) -> (r: Result<Vec<u8>, HuffmanError>)
    requires
        content@.len() <= usize::MAX / 1024,
    ensures
        r is Err <==> content@.len() == 0,
        r matches Err(e) ==> e == HuffmanError::EmptyInput,
        r matches Ok(buf) ==> buf@.len() >= 1 && buf@.last() < 8,
        r matches Ok(buf) ==> 8 * buf@.len() <= 4614 + 511 * content@.len(),
        r matches Ok(buf) ==> exists|t: Node|
            occurs_at(#[trigger] tree_bits(t), unpack(buf@), 0) && leaves(t) == content@.to_set(),
        r matches Ok(buf) ==> exists|t: Node, table: Seq<Seq<bool>>|
            huffman_tree(frequencies(content@)) == Some(t) && unpack(buf@) == #[trigger] tree_bits(t)
                + #[trigger] codes(table, content@) && forall|j: int|
                0 <= j < content@.len() ==> code_ok(t, table[#[trigger] content@[j] as int], content@[j]),
        r matches Ok(buf) ==> decompressed(buf@) == Ok::<Seq<u8>, HuffmanError>(content@),
{
    let ghost n = content@.len();
    let statistique = count_frequencies(&content);
    proof {
        assert forall|i: int| 0 <= i < 256 implies #[trigger] statistique@[i] <= n by {
            lemma_occurrences_bound(content@, i as u8);
            assert(statistique@[(i as u8) as int] == occurrences(content@, i as u8));
        }
        lemma_total_bound(statistique@, n as int);
        assert(256 * n <= u64::MAX);
        assert forall|j: int| 0 <= j < n implies present(statistique@).contains(#[trigger] content@[j]) by {
            lemma_occurrences_of_member(content@, j);
        }
    }
    proof {
        assert forall|i: int| 0 <= i < 256 implies #[trigger] statistique@[i] == frequencies(content@)[i] by {
            assert(statistique@[(i as u8) as int] == occurrences(content@, i as u8));
        }
        assert(statistique@ =~= frequencies(content@));
    }
    let tree = match build_huffman_tree(&statistique) {
        None => {
            proof {
                if n > 0 {
                    assert(present(statistique@).contains(content@[0]));
                }
            }
            return Err(HuffmanError::EmptyInput);
        },
        Some(t) => t,
    };
    proof {
        assert forall|v: u8| present(statistique@).contains(v) <==> #[trigger] content@.to_set().contains(v) by {
            assert(statistique@[v as int] == occurrences(content@, v));
            if present(statistique@).contains(v) {
                lemma_occurrences_member(content@, v);
            }
            if content@.contains(v) {
                let j = choose|j: int| 0 <= j < content@.len() && content@[j] == v;
                assert(present(statistique@).contains(content@[j]));
            }
        }
        assert(present(statistique@) =~= content@.to_set());
        if n == 0 {
            assert forall|c: u8| !present(statistique@).contains(c) by {
                assert(statistique@[c as int] == occurrences(content@, c));
            }
            assert(present(statistique@) =~= Set::<u8>::empty());
        }
    }
    let mut output = bv_new();
    encode_tree(&tree, &mut output);
    let mut dictionary: Vec<BitVec> = Vec::new();
    let mut k: usize = 0;
    while k < 256
        invariant
            k <= 256,
            dictionary@.len() == k,
        decreases 256 - k,
    {
        dictionary.push(bv_new());
        k = k + 1;
    }
    let root_word = bv_new();
    match &tree {
        Node::Leaf(character) => {
            let mut word = bv_new();
            bv_push(&mut word, false);
            dictionary.set(*character as usize, word);
        },
        Node::Branch(_, _) => {
            scan_tree(&tree, &root_word, &mut dictionary);
        },
    }
    let ghost table = table_of(dictionary@);
    proof {
        assert forall|x: u8| leaves(tree).contains(x) implies code_ok(tree, #[trigger] table[x as int], x)
            && table[x as int].len() <= 511 by {
            let w = bits_of(dictionary@[x as int]);
            match tree {
                Node::Leaf(c) => {
                    assert(x == c);
                },
                Node::Branch(_, _) => {
                    assert(scanned(tree, Seq::empty(), bits_of(dictionary@[x as int]), x as int));
                    assert(w.subrange(0, w.len() as int) =~= w);
                    lemma_leads_len(tree, w, x);
                },
            }
        }
    }
    proof {
        lemma_tree_bits_bound(tree);
    }
    let mut i: usize = 0;
    while i < content.len()
        invariant
            i <= content@.len(),
            n == content@.len(),
            n <= usize::MAX / 1024,
            dictionary@.len() == 256,
            table == table_of(dictionary@),
            tree_bits(tree).len() <= 4599,
            forall|j: int| 0 <= j < n ==> leaves(tree).contains(#[trigger] content@[j]),
            forall|x: u8| leaves(tree).contains(x) ==> code_ok(tree, #[trigger] table[x as int], x)
                && table[x as int].len() <= 511,
            bits_of(output) == tree_bits(tree) + codes(table, content@.take(i as int)),
            bits_of(output).len() <= 4599 + 511 * i,
        decreases content@.len() - i,
    {
        let item = content[i];
        let ghost before = bits_of(output);
        proof {
            assert(leaves(tree).contains(content@[i as int]));
            assert(table[item as int] == bits_of(dictionary@[item as int]));
            assert(511 * i + 511 <= 511 * n) by (nonlinear_arith)
                requires
                    i < n,
            ;
        }
        bv_extend(&mut output, &dictionary[item as usize]);
        proof {
            assert(content@.take(i + 1).drop_last() =~= content@.take(i as int));
            assert(bits_of(output) =~= tree_bits(tree) + codes(table, content@.take(i + 1)));
        }
        i = i + 1;
    }
    assert(content@.take(n as int) =~= content@);
    let buf = serialize_bit_vec(&output);
    proof {
        let s = bits_of(output);
        let cs = codes(table, content@);
        assert(unpack(buf@) == s);
        let m = s.len();
        let pd = pad_len(m);
        assert((m + pd) % 8 == 0 && pd <= 7);
        assert(8 * ((m + pd) / 8) == m + pd);
        assert forall|j: int| 0 <= j < n implies code_ok(tree, table[#[trigger] content@[j] as int], content@[j]) by {
            assert(leaves(tree).contains(content@[j]));
        }
        assert(s.subrange(0, tree_bits(tree).len() as int) =~= tree_bits(tree));
        assert(occurs_at(tree_bits(tree), s, 0));
        let t2 = choose|t: Node| occurs_at(#[trigger] tree_bits(t), s, 0);
        lemma_tree_bits_unique(t2, tree, s, 0);
        assert(s.skip(tree_bits(tree).len() as int) =~= cs);
        match tree {
            Node::Leaf(c) => {
                lemma_leaf_codes(c, table, content@);
                assert(decode_stream(tree, cs) =~= content@);
            },
            Node::Branch(_, _) => {
                lemma_walk_codes(tree, table, content@, Seq::empty());
                assert(cs + Seq::<bool>::empty() =~= cs);
                assert(content@ + Seq::<u8>::empty() =~= content@);
            },
        }
    }
    Ok(buf)
}

proof fn lemma_tree_bits_bound(t: Node)
    requires
        size(t) <= 511,
    ensures
        tree_bits(t).len() <= 4599,
{
    lemma_tree_bits_len(t);
}

/// Decompresses a buffer made by `compression`: unpacks its bits, reads the code
/// tree from their start, and walks the tree over the rest. The length bound
/// keeps the bit count of `content` within `usize`.
pub fn decompression(content: Vec<u8>) -> (r: Result<Vec<u8>, HuffmanError>)
    requires
        8 * content@.len() <= usize::MAX,
    ensures
        match r {
            Ok(v) => decompressed(content@) == Ok::<Seq<u8>, HuffmanError>(v@),
            Err(e) => decompressed(content@) == Err::<Seq<u8>, HuffmanError>(e),
        },
{
    let input = match unserialize_bit_vec(&content) {
        Ok(b) => b,
        Err(e) => {
            return Err(e);
        },
    };
    let ghost s = bits_of(input);
    let (tree, p) = match decode_tree(&input, 0) {
        Ok(found) => found,
        Err(e) => {
            return Err(e);
        },
    };
    proof {
        let t2 = choose|t: Node| occurs_at(#[trigger] tree_bits(t), s, 0);
        lemma_tree_bits_unique(t2, tree, s, 0);
    }
    let n = bv_len(&input);
    let mut output: Vec<u8> = Vec::new();
    let ghost rest = s.subrange(p as int, n as int);
    assert(rest =~= s.skip(p as int));
    match &tree {
        Node::Leaf(character) => {
            let mut i: usize = p;
            while i < n
                invariant
                    p <= i <= n,
                    output@ == Seq::new((i - p) as nat, |m: int| *character),
                decreases n - i,
            {
                output.push(*character);
                i = i + 1;
                assert(output@ =~= Seq::new((i - p) as nat, |m: int| *character));
            }
            assert(output@ =~= decode_stream(tree, rest));
        },
        Node::Branch(_, _) => {
            let mut head: &Node = &tree;
            let mut at_root = true;
            let mut i: usize = p;
            assert(s.subrange(i as int, n as int) == rest);
            assert(output@ + walk(tree, tree, rest) =~= walk(tree, tree, rest));
            while i < n
                invariant
                    p <= i <= n,
                    n == s.len(),
                    s == bits_of(input),
                    tree is Branch,
                    *head is Branch,
                    output@ + walk(tree, *head, s.subrange(i as int, n as int)) == walk(tree, tree, rest),
                    walk_complete(tree, *head, s.subrange(i as int, n as int), at_root)
                        == walk_complete(tree, tree, rest, true),
                decreases n - i,
            {
                let bit = bv_get(&input, i);
                let ghost cur = s.subrange(i as int, n as int);
                proof {
                    assert(cur[0] == bit);
                    assert(cur.skip(1) =~= s.subrange(i + 1, n as int));
                }
                let next: &Node = match head {
                    Node::Branch(node_0, node_1) => if bit {
                        &**node_1
                    } else {
                        &**node_0
                    },
                    Node::Leaf(_) => head,
                };
                match next {
                    Node::Leaf(character) => {
                        output.push(*character);
                        head = &tree;
                        at_root = true;
                        proof {
                            assert(output@ + walk(tree, *head, s.subrange(i + 1, n as int)) =~= walk(
                                tree,
                                tree,
                                rest,
                            ));
                        }
                    },
                    Node::Branch(_, _) => {
                        head = next;
                        at_root = false;
                    },
                }
                i = i + 1;
            }
            assert(output@ + Seq::<u8>::empty() =~= output@);
            if !at_root {
                return Err(HuffmanError::MalformedTreeEncoding);
            }
        },
    }
    Ok(output)
}

} // verus!
