//! Huffman coding keyed to one message's symbol statistics.
//!
//! A tree is built from a frequency table by repeatedly merging the two
//! lightest subtrees. A symbol's code is the path from the root to its leaf,
//! `0` for a step to the left and `1` for a step to the right. A tree of a
//! single leaf has no path to speak of: its one symbol gets the code `0`.
use vstd::prelude::*;
use vstd::multiset::Multiset;
use crate::frame::{add_checksum, framed};

verus! {

/// A node of a Huffman tree: a leaf holding one symbol, or an internal node
/// owning two children.
pub struct Node {
    pub freq: u64,
    pub char_: Option<char>,
    pub right: Option<Box<Node>>,
    pub left: Option<Box<Node>>,
}

/// What can go wrong while coding.
#[derive(Clone, Copy, Debug, PartialEq, Eq, Structural)]
pub enum HuffError {
    /// No tree has been built yet.
    EmptyTree,
    /// The message holds a symbol that the code table lacks.
    UnknownSymbol(char),
}

/// A Huffman tree, empty until it is built.
pub struct HuffTree {
    root: Option<Box<Node>>,
}

impl View for HuffTree {
    type V = Option<Node>;

    closed spec fn view(&self) -> Option<Node> {
        match self.root {
            Some(b) => Some(*b),
            None => None,
        }
    }
}

impl Node {
    /// A leaf holds a symbol and no children; an internal node holds two
    /// children and no symbol, and weighs what its children weigh together.
    pub open spec fn wf(self) -> bool
        decreases self,
    {
        match self.char_ {
            Some(_) => self.left is None && self.right is None,
            None => match (self.left, self.right) {
                (Some(l), Some(r)) => l.wf() && r.wf() && self.freq == l.freq + r.freq,
                _ => false,
            },
        }
    }

    pub open spec fn is_leaf(self) -> bool {
        self.char_ is Some
    }

    /// The symbols and frequencies held by the leaves, left to right.
    pub open spec fn leaves(self) -> Seq<(char, u64)>
        decreases self,
    {
        match self.char_ {
            Some(c) => seq![(c, self.freq)],
            None => match (self.left, self.right) {
                (Some(l), Some(r)) => l.leaves() + r.leaves(),
                _ => Seq::empty(),
            },
        }
    }

    /// Each leaf's symbol with the path to it, left to right, every path
    /// starting with `pre`.
    pub open spec fn codes(self, pre: Seq<u32>) -> Seq<(char, Seq<u32>)>
        decreases self,
    {
        match self.char_ {
            Some(c) => seq![(c, pre)],
            None => match (self.left, self.right) {
                (Some(l), Some(r)) => l.codes(pre.push(0)) + r.codes(pre.push(1)),
                _ => Seq::empty(),
            },
        }
    }

    /// The node reached from this one by one bit; where that child is
    /// missing, this node itself.
    pub open spec fn step(self, b: u32) -> Node {
        if b == 0 {
            match self.left {
                Some(l) => *l,
                None => self,
            }
        } else {
            match self.right {
                Some(r) => *r,
                None => self,
            }
        }
    }

    /// A node without children.
    pub fn new(freq: u64, char_: Option<char>) -> (r: Node)
        ensures
            r.freq == freq,
            r.char_ == char_,
            r.left is None,
            r.right is None,
    {
        Node { freq, char_, right: None, left: None }
    }

    /// The node, boxed.
    pub fn new_box(node: Node) -> (r: Box<Node>)
        ensures
            *r == node,
    {
        Box::new(node)
    }
}

/// The code table of a tree: every leaf with its path, or `0` for the symbol
/// of a tree that is a single leaf.
pub open spec fn code_table_of(root: Node) -> Seq<(char, Seq<u32>)> {
    match root.char_ {
        Some(c) => seq![(c, seq![0u32])],
        None => root.codes(Seq::empty()),
    }
}

/// The code of the first entry for `c`.
pub open spec fn lookup(tab: Seq<(char, Seq<u32>)>, c: char) -> Option<Seq<u32>>
    decreases tab.len(),
{
    if tab.len() == 0 {
        None
    } else if tab[0].0 == c {
        Some(tab[0].1)
    } else {
        lookup(tab.drop_first(), c)
    }
}

/// Every symbol of `m` has an entry in `tab`.
pub open spec fn all_coded(tab: Seq<(char, Seq<u32>)>, m: Seq<char>) -> bool {
    forall|i: int| 0 <= i < m.len() ==> (#[trigger] lookup(tab, m[i])) is Some
}

pub open spec fn code_or_empty(tab: Seq<(char, Seq<u32>)>, c: char) -> Seq<u32> {
    match lookup(tab, c) {
        Some(p) => p,
        None => Seq::empty(),
    }
}

/// The codes of the symbols of `m`, concatenated in order.
pub open spec fn enc(tab: Seq<(char, Seq<u32>)>, m: Seq<char>) -> Seq<u32>
    decreases m.len(),
{
    if m.len() == 0 {
        Seq::empty()
    } else {
        enc(tab, m.drop_last()) + code_or_empty(tab, m.last())
    }
}

/// Decoding `bits` from node `cur` of the tree `root`: each bit moves one
/// step down; reaching a leaf emits its symbol and goes back to the root.
/// Bits that end before a leaf is reached emit nothing.
pub open spec fn dec(root: Node, cur: Node, bits: Seq<u32>) -> Seq<char>
    decreases bits.len(),
{
    if bits.len() == 0 {
        Seq::empty()
    } else {
        let nx = cur.step(bits[0]);
        match nx.char_ {
            Some(c) => seq![c] + dec(root, root, bits.drop_first()),
            None => dec(root, nx, bits.drop_first()),
        }
    }
}

/// How often `c` occurs in `m`.
pub open spec fn count_of(m: Seq<char>, c: char) -> nat
    decreases m.len(),
{
    if m.len() == 0 {
        0
    } else {
        count_of(m.drop_last(), c) + if m.last() == c {
            1nat
        } else {
            0nat
        }
    }
}

/// `tab` holds each symbol of `m` once, with the number of its occurrences,
/// and nothing else.
pub open spec fn is_frequency_table(tab: Seq<(char, u64)>, m: Seq<char>) -> bool {
    &&& forall|i: int, j: int| 0 <= i < j < tab.len() ==> tab[i].0 != tab[j].0
    &&& forall|i: int| 0 <= i < tab.len() ==> tab[i].1 == count_of(m, tab[i].0) && count_of(m, tab[i].0) > 0
    &&& forall|k: int| 0 <= k < m.len() ==> #[trigger] has_key(tab, m[k])
}

/// Some entry of `tab` is for `c`.
pub open spec fn has_key(tab: Seq<(char, u64)>, c: char) -> bool {
    exists|i: int| 0 <= i < tab.len() && tab[i].0 == c
}

/// The sum of the frequencies of a table.
pub open spec fn total(tab: Seq<(char, u64)>) -> nat
    decreases tab.len(),
{
    if tab.len() == 0 {
        0
    } else {
        total(tab.drop_last()) + tab.last().1 as nat
    }
}

/// A code table as its author sees it: symbols with bit sequences.
pub open spec fn table_view(t: Seq<(char, Vec<u32>)>) -> Seq<(char, Seq<u32>)> {
    Seq::new(t.len(), |i: int| (t[i].0, t[i].1@))
}

/// The index of the first entry of `tab` for `c`.
pub open spec fn key_index(tab: Seq<(char, u64)>, c: char) -> Option<int>
    decreases tab.len(),
{
    if tab.len() == 0 {
        None
    } else if tab[0].0 == c {
        Some(0)
    } else {
        match key_index(tab.drop_first(), c) {
            Some(j) => Some(j + 1),
            None => None,
        }
    }
}

/// The frequency table of `m`: its symbols in the order of their first
/// occurrence, each with the number of its occurrences.
pub open spec fn freq_table_of(m: Seq<char>) -> Seq<(char, u64)>
    decreases m.len(),
{
    if m.len() == 0 {
        Seq::empty()
    } else {
        let t = freq_table_of(m.drop_last());
        let c = m.last();
        match key_index(t, c) {
            Some(j) => t.update(j, (c, (t[j].1 + 1) as u64)),
            None => t.push((c, 1u64)),
        }
    }
}

/// One leaf per entry of a frequency table, in the table's order.
pub open spec fn leaf_forest(tab: Seq<(char, u64)>) -> Seq<Box<Node>> {
    Seq::new(
        tab.len(),
        |i: int| Box::new(Node { freq: tab[i].1, char_: Some(tab[i].0), right: None, left: None }),
    )
}

/// The index of the lightest tree of a forest, the first one among equals.
pub open spec fn lightest(f: Seq<Box<Node>>) -> int
    decreases f.len(),
{
    if f.len() <= 1 {
        0
    } else {
        let k = lightest(f.drop_last());
        if f.last().freq < f[k].freq {
            f.len() - 1
        } else {
            k
        }
    }
}

/// A new internal node over two trees, `a` to the left.
pub open spec fn merged(a: Box<Node>, b: Box<Node>) -> Box<Node> {
    Box::new(Node { freq: (a.freq + b.freq) as u64, char_: None, right: Some(b), left: Some(a) })
}

/// One step of the construction: the lightest tree and then the lightest of
/// the rest leave the forest, and their merge, the first one to the left,
/// joins it at the end.
pub open spec fn merge_step(f: Seq<Box<Node>>) -> Seq<Box<Node>> {
    let i1 = lightest(f);
    let f1 = f.remove(i1);
    let i2 = lightest(f1);
    f1.remove(i2).push(merged(f[i1], f1[i2]))
}

/// At most `n` steps of the construction, stopping at a single tree.
pub open spec fn merge_all(f: Seq<Box<Node>>, n: nat) -> Seq<Box<Node>>
    decreases n,
{
    if n == 0 || f.len() <= 1 {
        f
    } else {
        merge_all(merge_step(f), (n - 1) as nat)
    }
}

/// The Huffman tree of a frequency table, none for an empty table.
pub open spec fn huffman_of(tab: Seq<(char, u64)>) -> Option<Node> {
    let f = merge_all(leaf_forest(tab), tab.len());
    if f.len() == 0 {
        None
    } else {
        Some(*f[0])
    }
}

/// Relies on `String::push`: appends one character.
#[verifier::external_body]
fn push_char(s: &mut String, c: char)
    ensures
        final(s)@ == old(s)@.push(c),
{
    s.push(c)
}

proof fn lemma_lookup_concat(a: Seq<(char, Seq<u32>)>, b: Seq<(char, Seq<u32>)>, c: char)
    ensures
        lookup(a + b, c) == if lookup(a, c) is Some {
            lookup(a, c)
        } else {
            lookup(b, c)
        },
    decreases a.len(),
{
    if a.len() > 0 {
        assert((a + b).drop_first() =~= a.drop_first() + b);
        lemma_lookup_concat(a.drop_first(), b, c);
    } else {
        assert(a + b =~= b);
    }
}

proof fn lemma_lookup_found(tab: Seq<(char, Seq<u32>)>, c: char, i: int)
    requires
        0 <= i < tab.len(),
        tab[i].0 == c,
    ensures
        lookup(tab, c) is Some,
    decreases tab.len(),
{
    if tab[0].0 != c {
        lemma_lookup_found(tab.drop_first(), c, i - 1);
    }
}

/// Paths under a prefix are the prefix followed by the paths from the node.
proof fn lemma_codes_prefix(n: Node, pre: Seq<u32>, c: char)
    requires
        n.wf(),
    ensures
        lookup(n.codes(pre), c) == match lookup(n.codes(Seq::empty()), c) {
            Some(q) => Some(pre + q),
            None => None,
        },
    decreases n,
{
    match n.char_ {
        Some(d) => {
            assert(pre + Seq::<u32>::empty() =~= pre);
            reveal_with_fuel(lookup, 2);
        },
        None => {
            let l = *n.left.unwrap();
            let r = *n.right.unwrap();
            let e = Seq::<u32>::empty();
            lemma_codes_prefix(l, pre.push(0), c);
            lemma_codes_prefix(r, pre.push(1), c);
            lemma_codes_prefix(l, e.push(0), c);
            lemma_codes_prefix(r, e.push(1), c);
            lemma_lookup_concat(l.codes(pre.push(0)), r.codes(pre.push(1)), c);
            lemma_lookup_concat(l.codes(e.push(0)), r.codes(e.push(1)), c);
            match lookup(l.codes(e), c) {
                Some(q) => {
                    assert(pre.push(0) + q =~= pre + (e.push(0) + q));
                },
                None => {
                    match lookup(r.codes(e), c) {
                        Some(q) => {
                            assert(pre.push(1) + q =~= pre + (e.push(1) + q));
                        },
                        None => {},
                    }
                },
            }
        },
    }
}

/// Following the code of `c` from an internal node reaches a leaf of `c`,
/// emits `c` and starts over at the root.
proof fn lemma_dec_code(root: Node, n: Node, c: char, rest: Seq<u32>)
    requires
        n.wf(),
        !n.is_leaf(),
        lookup(n.codes(Seq::empty()), c) is Some,
    ensures
        dec(root, n, lookup(n.codes(Seq::empty()), c).unwrap() + rest) == seq![c] + dec(
            root,
            root,
            rest,
        ),
    decreases n,
{
    let l = *n.left.unwrap();
    let r = *n.right.unwrap();
    let e = Seq::<u32>::empty();
    lemma_codes_prefix(l, e.push(0), c);
    lemma_codes_prefix(r, e.push(1), c);
    lemma_lookup_concat(l.codes(e.push(0)), r.codes(e.push(1)), c);
    let q = lookup(n.codes(e), c).unwrap();
    let bits = q + rest;
    if lookup(l.codes(e), c) is Some {
        let q1 = lookup(l.codes(e), c).unwrap();
        assert(q == e.push(0) + q1);
        assert(bits[0] == 0);
        assert(bits.drop_first() =~= q1 + rest);
        assert(n.step(0) == l);
        if l.is_leaf() {
            reveal_with_fuel(lookup, 2);
            assert(q1 =~= e);
        } else {
            lemma_dec_code(root, l, c, rest);
        }
    } else {
        let q1 = lookup(r.codes(e), c).unwrap();
        assert(q == e.push(1) + q1);
        assert(bits[0] == 1);
        assert(bits.drop_first() =~= q1 + rest);
        assert(n.step(1) == r);
        if r.is_leaf() {
            reveal_with_fuel(lookup, 2);
            assert(q1 =~= e);
        } else {
            lemma_dec_code(root, r, c, rest);
        }
    }
}

proof fn lemma_enc_front(tab: Seq<(char, Seq<u32>)>, m: Seq<char>)
    requires
        m.len() > 0,
    ensures
        enc(tab, m) == code_or_empty(tab, m[0]) + enc(tab, m.drop_first()),
    decreases m.len(),
{
    if m.len() == 1 {
        assert(m.drop_last() =~= Seq::<char>::empty());
        assert(m.drop_first() =~= Seq::<char>::empty());
        assert(enc(tab, m.drop_first()) =~= Seq::<u32>::empty());
        assert(enc(tab, m) =~= code_or_empty(tab, m[0]));
    } else {
        lemma_enc_front(tab, m.drop_last());
        assert(m.drop_last().drop_first() =~= m.drop_first().drop_last());
        assert(enc(tab, m) =~= code_or_empty(tab, m[0]) + enc(tab, m.drop_first()));
    }
}

/// The symbols on the paths are the symbols on the leaves.
proof fn lemma_codes_leaves(n: Node, pre: Seq<u32>)
    requires
        n.wf(),
    ensures
        n.codes(pre).len() == n.leaves().len(),
        forall|i: int| 0 <= i < n.leaves().len() ==> #[trigger] n.codes(pre)[i].0 == n.leaves()[i].0,
    decreases n,
{
    if !n.is_leaf() {
        let l = *n.left.unwrap();
        let r = *n.right.unwrap();
        lemma_codes_leaves(l, pre.push(0));
        lemma_codes_leaves(r, pre.push(1));
        assert forall|i: int| 0 <= i < n.leaves().len() implies #[trigger] n.codes(pre)[i].0
            == n.leaves()[i].0 by {
            if i < l.leaves().len() {
                assert(n.codes(pre)[i] == l.codes(pre.push(0))[i]);
            } else {
                let k = i - l.leaves().len();
                assert(n.codes(pre)[i] == r.codes(pre.push(1))[k]);
                assert(n.leaves()[i] == r.leaves()[k]);
            }
        }
    }
}

/// Every symbol on a leaf of a well-formed tree has a code.
proof fn lemma_leaf_symbol_coded(root: Node, i: int)
    requires
        root.wf(),
        0 <= i < root.leaves().len(),
    ensures
        lookup(code_table_of(root), root.leaves()[i].0) is Some,
{
    if root.is_leaf() {
        reveal_with_fuel(lookup, 2);
    } else {
        lemma_codes_leaves(root, Seq::empty());
        lemma_lookup_found(root.codes(Seq::empty()), root.leaves()[i].0, i);
    }
}

/// Decoding, with a well-formed tree, the encoding of a message under the
/// tree's own code table gives the message back, provided every symbol of the
/// message has a code.
pub proof fn lemma_decode_encode(root: Node, m: Seq<char>)
    requires
        root.wf(),
        all_coded(code_table_of(root), m),
    ensures
        dec(root, root, enc(code_table_of(root), m)) == m,
    decreases m.len(),
{
    let tab = code_table_of(root);
    if m.len() == 0 {
        assert(enc(tab, m) =~= Seq::<u32>::empty());
        assert(m =~= Seq::<char>::empty());
    } else {
        lemma_enc_front(tab, m);
        let rest = enc(tab, m.drop_first());
        assert(lookup(tab, m[0]) is Some);
        assert forall|i: int| 0 <= i < m.drop_first().len() implies (#[trigger] lookup(
            tab,
            m.drop_first()[i],
        )) is Some by {
            assert(m.drop_first()[i] == m[i + 1]);
        }
        lemma_decode_encode(root, m.drop_first());
        if root.is_leaf() {
            reveal_with_fuel(lookup, 2);
            let bits = seq![0u32] + rest;
            assert(bits.drop_first() =~= rest);
            assert(root.step(0) == root);
        } else {
            lemma_dec_code(root, root, m[0], rest);
        }
        assert(seq![m[0]] + m.drop_first() =~= m);
    }
}

/// For every non-empty message, decoding with a tree built from the message's
/// frequency table the encoding under that tree's code table gives the
/// message back.
pub proof fn lemma_round_trip(root: Node, tab: Seq<(char, u64)>, m: Seq<char>)
    requires
        is_frequency_table(tab, m),
        root.wf(),
        root.leaves().to_multiset() == tab.to_multiset(),
    ensures
        dec(root, root, enc(code_table_of(root), m)) == m,
{
    lemma_table_codes_message(root, tab, m);
    lemma_decode_encode(root, m);
}

/// The merged leaves of a forest of trees.
pub open spec fn forest_bag(f: Seq<Box<Node>>) -> Multiset<(char, u64)>
    decreases f.len(),
{
    if f.len() == 0 {
        Multiset::empty()
    } else {
        forest_bag(f.drop_last()).add(f.last().leaves().to_multiset())
    }
}

/// The summed root weights of a forest of trees.
pub open spec fn forest_weight(f: Seq<Box<Node>>) -> nat
    decreases f.len(),
{
    if f.len() == 0 {
        0
    } else {
        forest_weight(f.drop_last()) + f.last().freq as nat
    }
}

proof fn lemma_forest_remove(f: Seq<Box<Node>>, i: int)
    requires
        0 <= i < f.len(),
    ensures
        forest_bag(f) == forest_bag(f.remove(i)).add(f[i].leaves().to_multiset()),
        forest_weight(f) == forest_weight(f.remove(i)) + f[i].freq,
    decreases f.len(),
{
    broadcast use vstd::multiset::group_multiset_axioms;

    if i == f.len() - 1 {
        assert(f.remove(i) =~= f.drop_last());
    } else {
        lemma_forest_remove(f.drop_last(), i);
        assert(f.remove(i).drop_last() =~= f.drop_last().remove(i));
        assert(f.remove(i).last() == f.last());
        assert(forest_bag(f) =~= forest_bag(f.remove(i)).add(f[i].leaves().to_multiset()));
    }
}

proof fn lemma_forest_push(f: Seq<Box<Node>>, x: Box<Node>)
    ensures
        forest_bag(f.push(x)) == forest_bag(f).add(x.leaves().to_multiset()),
        forest_weight(f.push(x)) == forest_weight(f) + x.freq,
{
    assert(f.push(x).drop_last() =~= f);
}

proof fn lemma_count_step(m: Seq<char>, i: int, d: char)
    requires
        0 <= i < m.len(),
    ensures
        count_of(m.take(i + 1), d) == count_of(m.take(i), d) + if m[i] == d {
            1nat
        } else {
            0nat
        },
{
    assert(m.take(i + 1).drop_last() =~= m.take(i));
}

proof fn lemma_count_le(m: Seq<char>, d: char)
    ensures
        count_of(m, d) <= m.len(),
    decreases m.len(),
{
    if m.len() > 0 {
        lemma_count_le(m.drop_last(), d);
    }
}

proof fn lemma_total_update(t: Seq<(char, u64)>, j: int, x: (char, u64))
    requires
        0 <= j < t.len(),
    ensures
        total(t.update(j, x)) + t[j].1 == total(t) + x.1,
    decreases t.len(),
{
    if j == t.len() - 1 {
        assert(t.update(j, x).drop_last() =~= t.drop_last());
    } else {
        lemma_total_update(t.drop_last(), j, x);
        assert(t.update(j, x).drop_last() =~= t.drop_last().update(j, x));
    }
}

proof fn lemma_key_index_first(tab: Seq<(char, u64)>, c: char, j: int)
    requires
        0 <= j < tab.len(),
        tab[j].0 == c,
        forall|k: int| 0 <= k < j ==> tab[k].0 != c,
    ensures
        key_index(tab, c) == Some(j),
    decreases tab.len(),
{
    if j > 0 {
        lemma_key_index_first(tab.drop_first(), c, j - 1);
    }
}

proof fn lemma_key_index_none(tab: Seq<(char, u64)>, c: char)
    requires
        forall|k: int| 0 <= k < tab.len() ==> tab[k].0 != c,
    ensures
        key_index(tab, c) is None,
    decreases tab.len(),
{
    if tab.len() > 0 {
        lemma_key_index_none(tab.drop_first(), c);
    }
}

fn find_key(tab: &Vec<(char, u64)>, c: char) -> (r: Option<usize>)
    ensures
        match r {
            Some(j) => j < tab@.len() && tab@[j as int].0 == c && key_index(tab@, c) == Some(
                j as int,
            ),
            None => forall|j: int| 0 <= j < tab@.len() ==> tab@[j].0 != c,
        },
        r is None <==> key_index(tab@, c) is None,
{
    let mut j: usize = 0;
    while j < tab.len()
        invariant
            j <= tab@.len(),
            forall|k: int| 0 <= k < j ==> tab@[k].0 != c,
        decreases tab@.len() - j,
    {
        if tab[j].0 == c {
            proof {
                lemma_key_index_first(tab@, c, j as int);
            }
            return Some(j);
        }
        j = j + 1;
    }
    proof {
        lemma_key_index_none(tab@, c);
    }
    None
}

fn min_index(f: &Vec<Box<Node>>) -> (r: usize)
    requires
        f@.len() > 0,
    ensures
        r < f@.len(),
        r == lightest(f@),
        forall|j: int| 0 <= j < f@.len() ==> f@[r as int].freq <= f@[j].freq,
{
    let mut best: usize = 0;
    let mut j: usize = 1;
    while j < f.len()
        invariant
            1 <= j <= f@.len(),
            best < j,
            best == lightest(f@.take(j as int)),
            forall|k: int| 0 <= k < j ==> f@[best as int].freq <= f@[k].freq,
        decreases f@.len() - j,
    {
        proof {
            assert(f@.take(j + 1).drop_last() =~= f@.take(j as int));
        }
        if f[j].freq < f[best].freq {
            best = j;
        }
        j = j + 1;
    }
    assert(f@.take(j as int) =~= f@);
    best
}

/// Records every leaf of `node` with its path,
/// left subtree first.
fn assign_codes(node: &Node, prefix: &mut Vec<u32>, table: &mut Vec<(char, Vec<u32>)>)
    requires
        node.wf(),
    ensures
        final(prefix)@ == old(prefix)@,
        table_view(final(table)@) == table_view(old(table)@) + node.codes(old(prefix)@),
    decreases node,
{
    match node.char_ {
        Some(c) => {
            let code = prefix.clone();
            let ghost before = table@;
            table.push((c, code));
            assert(table_view(table@) =~= table_view(before) + node.codes(prefix@));
        },
        None => {
            match (&node.left, &node.right) {
                (Some(l), Some(r)) => {
                    let ghost pre = prefix@;
                    let ghost t0 = table_view(table@);
                    prefix.push(0);
                    assign_codes(l, prefix, table);
                    prefix.pop();
                    assert(prefix@ =~= pre);
                    prefix.push(1);
                    assign_codes(r, prefix, table);
                    prefix.pop();
                    assert(prefix@ =~= pre);
                    assert(table_view(table@) =~= t0 + node.codes(pre));
                },
                _ => {},
            }
        },
    }
}

fn find_code(table: &Vec<(char, Vec<u32>)>, c: char) -> (r: Option<usize>)
    ensures
        match r {
            Some(k) => k < table@.len() && lookup(table_view(table@), c) == Some(
                table@[k as int].1@,
            ),
            None => lookup(table_view(table@), c) is None,
        },
{
    let ghost tv = table_view(table@);
    assert(tv.skip(0) =~= tv);
    let mut j: usize = 0;
    while j < table.len()
        invariant
            j <= table@.len(),
            tv == table_view(table@),
            lookup(tv, c) == lookup(tv.skip(j as int), c),
        decreases table@.len() - j,
    {
        proof {
            assert(tv.skip(j as int).drop_first() =~= tv.skip(j + 1));
        }
        if table[j].0 == c {
            return Some(j);
        }
        j = j + 1;
    }
    None
}

/// Replaces each symbol of `message` by its code in `table`, in order.
///
/// Fails on the first symbol that the table has no code for.
pub fn encode_with(message: &String, table: &Vec<(char, Vec<u32>)>) -> (r: Result<
    Vec<u32>,
    HuffError,
>)
    ensures
        match r {
            Ok(bits) => all_coded(table_view(table@), message@) && bits@ == enc(
                table_view(table@),
                message@,
            ),
            Err(e) => exists|i: int|
                0 <= i < message@.len() && #[trigger] lookup(table_view(table@), message@[i])
                    is None && e == HuffError::UnknownSymbol(message@[i]),
        },
{
    let ghost tv = table_view(table@);
    let ghost m = message@;
    let s = message.as_str();
    let n = s.unicode_len();
    let mut out: Vec<u32> = Vec::new();
    let mut i: usize = 0;
    while i < n
        invariant
            n == m.len(),
            m == s@,
            m == message@,
            tv == table_view(table@),
            i <= n,
            out@ == enc(tv, m.take(i as int)),
            forall|k: int| 0 <= k < i ==> (#[trigger] lookup(tv, m[k])) is Some,
        decreases n - i,
    {
        let c = s.get_char(i);
        match find_code(table, c) {
            None => {
                assert(c == message@[i as int]);
                assert(lookup(table_view(table@), message@[i as int]) is None);
                return Err(HuffError::UnknownSymbol(c));
            },
            Some(k) => {
                let code = &table[k].1;
                let ghost start = out@;
                let mut j: usize = 0;
                while j < code.len()
                    invariant
                        j <= code@.len(),
                        out@ == start + code@.take(j as int),
                    decreases code@.len() - j,
                {
                    out.push(code[j]);
                    j = j + 1;
                    assert(out@ =~= start + code@.take(j as int));
                }
                proof {
                    assert(code@.take(code@.len() as int) =~= code@);
                    assert(m.take(i + 1).drop_last() =~= m.take(i as int));
                    assert(tv[k as int].1 == code@);
                }
            },
        }
        i = i + 1;
    }
    assert(m.take(n as int) =~= m);
    Ok(out)
}

/// Every symbol of a message has a code in a tree built from its frequency table.
proof fn lemma_table_codes_message(root: Node, tab: Seq<(char, u64)>, m: Seq<char>)
    requires
        is_frequency_table(tab, m),
        root.wf(),
        root.leaves().to_multiset() == tab.to_multiset(),
    ensures
        all_coded(code_table_of(root), m),
{
    assert forall|k: int| 0 <= k < m.len() implies (#[trigger] lookup(
        code_table_of(root),
        m[k],
    )) is Some by {
        assert(has_key(tab, m[k]));
        let i = choose|i: int| 0 <= i < tab.len() && tab[i].0 == m[k];
        tab.to_multiset_ensures();
        root.leaves().to_multiset_ensures();
        assert(tab.contains(tab[i]));
        assert(tab.to_multiset().count(tab[i]) > 0);
        assert(root.leaves().to_multiset().count(tab[i]) > 0);
        assert(root.leaves().contains(tab[i]));
        let j = choose|j: int| 0 <= j < root.leaves().len() && root.leaves()[j] == tab[i];
        lemma_leaf_symbol_coded(root, j);
    }
}

impl HuffTree {
    /// Well-formed, or empty.
    pub open spec fn wf(&self) -> bool {
        match self@ {
            Some(root) => root.wf(),
            None => true,
        }
    }

    /// An empty tree.
    pub fn new() -> (r: HuffTree)
        ensures
            r@ is None,
            r.wf(),
    {
        HuffTree { root: None }
    }

    /// Maps each symbol of `message` to the number of its occurrences, in
    /// the order of first occurrence.
    pub fn create_frequency_map(message: &String) -> (r: Vec<(char, u64)>)
        ensures
            r@ == freq_table_of(message@),
            is_frequency_table(r@, message@),
            total(r@) == message@.len(),
            message@.len() <= usize::MAX,
    {
        let ghost m = message@;
        let s = message.as_str();
        let n = s.unicode_len();
        let mut tab: Vec<(char, u64)> = Vec::new();
        let mut i: usize = 0;
        while i < n
            invariant
                n == m.len(),
                m == s@,
                m == message@,
                i <= n,
                tab@ == freq_table_of(m.take(i as int)),
                is_frequency_table(tab@, m.take(i as int)),
                total(tab@) == i,
            decreases n - i,
        {
            let c = s.get_char(i);
            let ghost t0 = tab@;
            proof {
                assert(m.take(i + 1).drop_last() =~= m.take(i as int));
            }
            proof {
                assert forall|d: char| #[trigger] count_of(m.take(i + 1), d) == count_of(
                    m.take(i as int),
                    d,
                ) + if m[i as int] == d {
                    1nat
                } else {
                    0nat
                } by {
                    lemma_count_step(m, i as int, d);
                }
                lemma_count_le(m.take(i as int), c);
            }
            match find_key(&tab, c) {
                Some(j) => {
                    let k = tab[j].1;
                    proof {
                        assert(k == count_of(m.take(i as int), c));
                    }
                    tab.set(j, (c, k + 1));
                    proof {
                        lemma_total_update(t0, j as int, (c, (k + 1) as u64));
                    }
                },
                None => {
                    tab.push((c, 1));
                    proof {
                        assert(tab@.drop_last() =~= t0);
                        assert(count_of(m.take(i as int), c) == 0) by {
                            if count_of(m.take(i as int), c) > 0 {
                                lemma_count_positive_has(m.take(i as int), c);
                                let k = choose|k: int|
                                    0 <= k < i && #[trigger] m.take(i as int)[k] == c;
                                assert(has_key(t0, m.take(i as int)[k]));
                            }
                        }
                    }
                },
            }
            proof {
                let mi = m.take(i + 1);
                assert forall|k: int| 0 <= k < mi.len() implies #[trigger] has_key(tab@, mi[k]) by {
                    if k < i {
                        assert(mi[k] == m.take(i as int)[k]);
                        assert(has_key(t0, mi[k]));
                        let j0 = choose|j0: int| 0 <= j0 < t0.len() && t0[j0].0 == mi[k];
                        assert(tab@[j0].0 == mi[k]);
                    } else {
                        assert(mi[k] == c);
                        let j1: int = if tab@.len() > t0.len() { t0.len() as int } else {
                            choose|j1: int| 0 <= j1 < t0.len() && t0[j1].0 == c
                        };
                        assert(tab@[j1].0 == c);
                    }
                }
            }
            i = i + 1;
        }
        assert(m.take(n as int) =~= m);
        tab
    }

    /// Builds the tree of a frequency table by merging the two lightest
    /// subtrees, the lighter one to the left, until one tree is left. Of
    /// equally light subtrees the one that stands first is taken first.
    pub fn build_tree(&mut self, freq_map: &Vec<(char, u64)>)
        requires
            total(freq_map@) <= u64::MAX,
        ensures
            final(self)@ == huffman_of(freq_map@),
            final(self).wf(),
            freq_map@.len() == 0 <==> final(self)@ is None,
            final(self)@ matches Some(root) ==> root.leaves().to_multiset()
                == freq_map@.to_multiset() && root.freq == total(freq_map@),
    {
        let mut forest: Vec<Box<Node>> = Vec::new();
        let mut i: usize = 0;
        proof {
            broadcast use vstd::multiset::group_multiset_axioms;

            let e = freq_map@.take(0);
            e.to_multiset_ensures();
            assert forall|x: (char, u64)| e.to_multiset().count(x) == 0 by {
                assert(!e.contains(x));
            }
            assert(e.to_multiset() =~= Multiset::<(char, u64)>::empty());
        }
        while i < freq_map.len()
            invariant
                i <= freq_map@.len(),
                forest@.len() == i,
                forall|j: int| 0 <= j < i ==> forest@[j] == #[trigger] leaf_forest(freq_map@)[j],
                forall|j: int| 0 <= j < forest@.len() ==> #[trigger] forest@[j].wf(),
                forest_bag(forest@) == freq_map@.take(i as int).to_multiset(),
                forest_weight(forest@) == total(freq_map@.take(i as int)),
            decreases freq_map@.len() - i,
        {
            let (c, f) = freq_map[i];
            let ghost f0 = forest@;
            let leaf = Node::new_box(Node::new(f, Some(c)));
            forest.push(leaf);
            proof {
                broadcast use vstd::multiset::group_multiset_axioms;

                lemma_forest_push(f0, leaf);
                let t = freq_map@.take(i + 1);
                assert(t.drop_last() =~= freq_map@.take(i as int));
                freq_map@.take(i as int).to_multiset_ensures();
                assert(t =~= freq_map@.take(i as int).push((c, f)));
                assert(leaf.leaves() =~= seq![(c, f)]);
                assert(seq![(c, f)] =~= Seq::<(char, u64)>::empty().push((c, f)));
                Seq::<(char, u64)>::empty().to_multiset_ensures();
                assert(forest_bag(forest@) =~= t.to_multiset());
            }
            i = i + 1;
        }
        assert(freq_map@.take(i as int) =~= freq_map@);
        assert(forest@ =~= leaf_forest(freq_map@));
        while forest.len() > 1
            invariant
                merge_all(forest@, forest@.len() as nat) == merge_all(
                    leaf_forest(freq_map@),
                    freq_map@.len() as nat,
                ),
                (forest@.len() == 0) == (freq_map@.len() == 0),
                forall|j: int| 0 <= j < forest@.len() ==> #[trigger] forest@[j].wf(),
                forest_bag(forest@) == freq_map@.to_multiset(),
                forest_weight(forest@) == total(freq_map@),
                total(freq_map@) <= u64::MAX,
            decreases forest@.len(),
        {
            let ghost f0 = forest@;
            let i1 = min_index(&forest);
            let a = forest.remove(i1);
            let ghost f1 = forest@;
            let i2 = min_index(&forest);
            let b = forest.remove(i2);
            let ghost f2 = forest@;
            proof {
                lemma_forest_remove(f0, i1 as int);
                lemma_forest_remove(f1, i2 as int);
                assert(f0[i1 as int].wf());
                assert(f1[i2 as int].wf());
            }
            let node = Node { freq: a.freq + b.freq, char_: None, right: Some(b), left: Some(a) };
            let joined = Node::new_box(node);
            forest.push(joined);
            proof {
                assert(f0.len() > 1);
                assert(joined == merged(f0[i1 as int], f1[i2 as int]));
                assert(forest@ =~= merge_step(f0));
                broadcast use vstd::multiset::group_multiset_axioms;

                lemma_forest_push(f2, joined);
                vstd::seq_lib::lemma_multiset_commutative(a.leaves(), b.leaves());
                assert(joined.leaves() == a.leaves() + b.leaves());
                assert(forest_bag(forest@) =~= freq_map@.to_multiset());
                assert forall|j: int| 0 <= j < forest@.len() implies #[trigger] forest@[j].wf() by {
                    if j < f2.len() {
                        assert(forest@[j] == f2[j]);
                        assert(f2[j] == f1.remove(i2 as int)[j]);
                        if j < i2 {
                            assert(f1[j].wf());
                        } else {
                            assert(f1[j + 1].wf());
                        }
                    }
                }
            }
        }
        let ghost f0 = forest@;
        self.root = forest.pop();
        proof {
            assert(merge_all(f0, f0.len() as nat) == f0);
            if f0.len() == 1 {
                assert(f0.drop_last() =~= Seq::<Box<Node>>::empty());
                broadcast use vstd::multiset::group_multiset_axioms;

                assert(forest_bag(f0.drop_last()) == Multiset::<(char, u64)>::empty());
                assert(forest_weight(f0.drop_last()) == 0);
                assert(forest_weight(f0) == f0[0].freq);
                assert(forest_bag(f0) =~= f0[0].leaves().to_multiset());
                assert(f0[0].wf());
            } else {
                freq_map@.to_multiset_ensures();
            }
        }
    }

    /// The code table of the tree; fails on an empty tree.
    pub fn code_map(&self) -> (r: Result<Vec<(char, Vec<u32>)>, HuffError>)
        requires
            self.wf(),
        ensures
            match self@ {
                None => r == Err::<Vec<(char, Vec<u32>)>, HuffError>(HuffError::EmptyTree),
                Some(root) => r matches Ok(t) && table_view(t@) == code_table_of(root),
            },
    {
        match &self.root {
            None => Err(HuffError::EmptyTree),
            Some(root) => {
                let mut table: Vec<(char, Vec<u32>)> = Vec::new();
                match root.char_ {
                    Some(c) => {
                        let mut code: Vec<u32> = Vec::new();
                        code.push(0);
                        table.push((c, code));
                        assert(table_view(table@) =~= code_table_of(**root));
                    },
                    None => {
                        let mut prefix: Vec<u32> = Vec::new();
                        assign_codes(root, &mut prefix, &mut table);
                        assert(table_view(table@) =~= code_table_of(**root));
                    },
                }
                Ok(table)
            },
        }
    }

    /// Encodes `message` with the tree's own code table.
    pub fn encode_string(&self, message: &String) -> (r: Result<Vec<u32>, HuffError>)
        requires
            self.wf(),
        ensures
            match self@ {
                None => r == Err::<Vec<u32>, HuffError>(HuffError::EmptyTree),
                Some(root) => match r {
                    Ok(bits) => all_coded(code_table_of(root), message@) && bits@ == enc(
                        code_table_of(root),
                        message@,
                    ),
                    Err(e) => exists|i: int|
                        0 <= i < message@.len() && #[trigger] lookup(
                            code_table_of(root),
                            message@[i],
                        ) is None && e == HuffError::UnknownSymbol(message@[i]),
                },
            },
    {
        let table = self.code_map()?;
        encode_with(message, &table)
    }

    /// Builds the tree of `message`'s own frequency table, encodes the
    /// message with it, and frames the result with its checksum.
    pub fn encode(&mut self, message: String) -> (r: Vec<u32>)
        requires
            message@.len() > 0,
        ensures
            final(self)@ == huffman_of(freq_table_of(message@)),
            final(self).wf(),
            final(self)@ matches Some(root) && all_coded(code_table_of(root), message@) && r@
                == framed(enc(code_table_of(root), message@)),
    {
        let tab = HuffTree::create_frequency_map(&message);
        proof {
            assert(has_key(tab@, message@[0]));
        }
        self.build_tree(&tab);
        proof {
            lemma_table_codes_message(self@->Some_0, tab@, message@);
        }
        match self.encode_string(&message) {
            Ok(bits) => add_checksum(&bits),
            Err(_) => {
                // Every symbol of the message has a code in its own tree.
                proof {
                    assert(false);
                }
                Vec::new()
            },
        }
    }

    /// Walks the tree bit by bit, `0` to the left and `1` to the right,
    /// emitting the symbol of each leaf reached and starting over at the root.
    /// Trailing bits that reach no leaf are dropped.
    pub fn decode(&self, encoded_message: Vec<u32>) -> (r: String)
        requires
            self.wf(),
            self@ is Some,
        ensures
            r@ == dec(self@->Some_0, self@->Some_0, encoded_message@),
    {
        let mut out = String::new();
        match &self.root {
            None => out,
            Some(root_box) => {
                let root: &Node = root_box;
                let ghost bits = encoded_message@;
                let mut node: &Node = root;
                let mut i: usize = 0;
                assert(bits.skip(0) =~= bits);
                while i < encoded_message.len()
                    invariant
                        bits == encoded_message@,
                        i <= bits.len(),
                        out@ + dec(*root, *node, bits.skip(i as int)) == dec(*root, *root, bits),
                    decreases bits.len() - i,
                {
                    let ghost cur = *node;
                    let ghost rest = bits.skip(i as int);
                    assert(rest.drop_first() =~= bits.skip(i + 1));
                    if encoded_message[i] == 0 {
                        match &node.left {
                            Some(l) => {
                                node = l;
                            },
                            None => {},
                        }
                    } else {
                        match &node.right {
                            Some(r) => {
                                node = r;
                            },
                            None => {},
                        }
                    }
                    assert(*node == cur.step(rest[0]));
                    match node.char_ {
                        Some(c) => {
                            let ghost before = out@;
                            push_char(&mut out, c);
                            assert(out@ =~= before + seq![c]);
                            node = root;
                        },
                        None => {},
                    }
                    i = i + 1;
                }
                out
            },
        }
    }
}

/// A symbol occurring in a message has an index there.
proof fn lemma_count_positive_has(m: Seq<char>, c: char)
    requires
        count_of(m, c) > 0,
    ensures
        exists|k: int| 0 <= k < m.len() && #[trigger] m[k] == c,
    decreases m.len(),
{
    if m.last() != c {
        lemma_count_positive_has(m.drop_last(), c);
        let k = choose|k: int| 0 <= k < m.drop_last().len() && #[trigger] m.drop_last()[k] == c;
        assert(m[k] == c);
    } else {
        assert(m[m.len() - 1] == c);
    }
}

} // verus!
