//! A byte-keyed prefix tree of words, used for command-line completion.
//!
//! Each node keeps a 256-bit occupancy bitmap of the bytes that lead to a child, and
//! its children in increasing byte order, so the child for a byte sits at the rank of
//! that byte among the present ones.
use vstd::prelude::*;
use vstd::utf8::encode_utf8;

use crate::bitmap::{has_key_bit, rank, total, with_key};

verus! {

#[derive(Debug)]
pub struct Trie {
    value: String,
    bits: [u128; 2],
    children: Vec<Trie>,
}

impl Trie {
    /// Whether a child is recorded for byte `k`.
    pub closed spec fn has(self, k: u8) -> bool {
        has_key_bit(self.bits, k as nat)
    }

    /// Position of the child for byte `k` among the children.
    pub closed spec fn slot(self, k: u8) -> nat {
        rank(self.bits, k as nat)
    }

    /// The child reached by byte `k`.
    pub closed spec fn child(self, k: u8) -> Trie {
        self.children@[self.slot(k) as int]
    }

    /// Number of children of this node.
    pub closed spec fn child_count(self) -> nat {
        self.children@.len()
    }

    /// The word stored at this node, if any.
    pub closed spec fn stored(self) -> Option<Seq<char>> {
        if self.value@.len() > 0 {
            Some(self.value@)
        } else {
            None
        }
    }

    /// The node reached from this one by following the bytes of `p`.
    pub closed spec fn node_at(self, p: Seq<u8>) -> Option<Trie>
        decreases p.len(),
    {
        if p.len() == 0 {
            Some(self)
        } else if self.has(p[0]) && self.slot(p[0]) < self.children@.len() {
            self.child(p[0]).node_at(p.drop_first())
        } else {
            None
        }
    }

    /// The word stored at the end of path `p`, if any.
    pub closed spec fn value_at(self, p: Seq<u8>) -> Option<Seq<char>> {
        match self.node_at(p) {
            Some(n) => n.stored(),
            None => None,
        }
    }

    /// The stored words of this subtree in preorder: this node's word first, then the
    /// words below each child in increasing byte order.
    pub closed spec fn values(self) -> Seq<Seq<char>>
        decreases self, 0nat,
    {
        let own = if self.value@.len() > 0 {
            seq![self.value@]
        } else {
            Seq::empty()
        };
        own + Self::values_upto(self.children@, self.children@.len())
    }

    /// The stored words below the first `j` of the nodes `cs`, in order.
    pub closed spec fn values_upto(cs: Seq<Trie>, j: nat) -> Seq<Seq<char>>
        decreases cs, j,
    {
        if j == 0 || j > cs.len() {
            Seq::empty()
        } else {
            Self::values_upto(cs, (j - 1) as nat) + cs[j - 1].values()
        }
    }

    /// The node where completion stops: starting here, follow the only child as long
    /// as no word ends at the node and it has exactly one child.
    pub closed spec fn descend(self) -> Trie
        decreases self,
    {
        if self.value@.len() == 0 && self.children@.len() == 1 {
            self.children@[0].descend()
        } else {
            self
        }
    }
}


impl Trie {
    /// What a node at absolute path `path` must satisfy: one child per present byte,
    /// a stored word spells its own path, and every node below the root leads to a
    /// stored word.
    pub closed spec fn node_ok(self, path: Seq<u8>) -> bool {
        &&& self.children@.len() == total(self.bits)
        &&& self.value@.len() > 0 ==> encode_utf8(self.value@) == path
        &&& path.len() > 0 ==> (self.value@.len() > 0 || self.children@.len() > 0)
    }

    /// Every node of this subtree satisfies `node_ok`, this node standing at `path`.
    pub closed spec fn wf_at(self, path: Seq<u8>) -> bool {
        forall|p: Seq<u8>| #[trigger]
            self.node_at(p) is Some ==> self.node_at(p)->0.node_ok(path + p)
    }

    /// A well-formed root.
    pub open spec fn wf(self) -> bool {
        self.wf_at(Seq::empty())
    }

    /// A node with no word and no children.
    pub closed spec fn is_empty_node(self) -> bool {
        &&& self.value@.len() == 0
        &&& self.bits@[0] == 0u128
        &&& self.bits@[1] == 0u128
        &&& self.children@.len() == 0
    }

    proof fn lemma_node_at_cons(self, k: u8, q: Seq<u8>)
        ensures
            self.node_at(seq![k] + q) == if self.has(k) && self.slot(k) < self.children@.len() {
                self.child(k).node_at(q)
            } else {
                None
            },
    {
        let p = seq![k] + q;
        assert(p[0] == k);
        assert(p.drop_first() =~= q);
    }

    /// A well-formed subtree is a well-formed node over well-formed children.
    proof fn lemma_wf_children(self, path: Seq<u8>)
        requires
            self.wf_at(path),
        ensures
            self.node_ok(path),
            forall|k: u8| #[trigger]
                self.has(k) ==> self.slot(k) < self.children@.len() && self.child(k).wf_at(
                    path.push(k),
                ),
    {
        assert(self.node_at(Seq::empty()) == Some(self));
        assert(path + Seq::<u8>::empty() =~= path);
        assert forall|k: u8| #[trigger] self.has(k) implies self.slot(k) < self.children@.len()
            && self.child(k).wf_at(path.push(k)) by {
            crate::bitmap::lemma_rank_below_total(self.bits, k as nat);
            let c = self.child(k);
            assert forall|q: Seq<u8>| #[trigger] c.node_at(q) is Some implies c.node_at(
                q,
            )->0.node_ok(path.push(k) + q) by {
                self.lemma_node_at_cons(k, q);
                assert(self.node_at(seq![k] + q) is Some);
                assert(path + (seq![k] + q) =~= path.push(k) + q);
            }
        }
    }

    /// A well-formed node over well-formed children is a well-formed subtree.
    proof fn lemma_wf_from_children(self, path: Seq<u8>)
        requires
            self.node_ok(path),
            forall|k: u8| #[trigger]
                self.has(k) ==> self.slot(k) < self.children@.len() && self.child(k).wf_at(
                    path.push(k),
                ),
        ensures
            self.wf_at(path),
    {
        assert forall|p: Seq<u8>| #[trigger] self.node_at(p) is Some implies self.node_at(
            p,
        )->0.node_ok(path + p) by {
            if p.len() == 0 {
                assert(path + p =~= path);
            } else {
                let k = p[0];
                let q = p.drop_first();
                assert(p =~= seq![k] + q);
                self.lemma_node_at_cons(k, q);
                let c = self.child(k);
                assert(c.wf_at(path.push(k)));
                assert(c.node_at(q) is Some);
                assert(path.push(k) + q =~= path + p);
            }
        }
    }
}

impl View for Trie {
    type V = Map<Seq<u8>, Seq<char>>;

    /// The stored words, keyed by their byte paths.
    open spec fn view(&self) -> Map<Seq<u8>, Seq<char>> {
        Map::new(|p: Seq<u8>| self.value_at(p) is Some, |p: Seq<u8>| self.value_at(p)->0)
    }
}


proof fn lemma_zero_bits(i: u32)
    requires
        i < 128,
    ensures
        !crate::bitmap::bit_set(0u128, i),
{
    assert((0u128 >> i) & 1u128 == 0u128) by (bit_vector);
}

proof fn lemma_key_split(key: u8)
    ensures
        (key & 0x7F) as nat == key as nat % 128,
        (key as usize >> 7usize) as nat == key as nat / 128,
        key as nat / 128 < 2,
        key & 0x7F < 128,
{
    assert((key & 0x7F) == key % 128) by (bit_vector);
    assert((key as usize >> 7usize) == key as usize / 128) by (bit_vector);
}

proof fn lemma_test_bit(x: u128, s: u8)
    requires
        s < 128,
    ensures
        (x & (1u128 << s) != 0u128) == crate::bitmap::bit_set(x, s as u32),
{
    assert((x & (1u128 << s) != 0u128) == ((x >> (s as u32)) & 1u128 == 1u128)) by (bit_vector)
        requires
            s < 128,
    ;
}

proof fn lemma_mask_ignores_bit(x: u128, s: u8)
    requires
        s < 128,
    ensures
        (x | (1u128 << s)) & !(u128::MAX << s) == x & !(u128::MAX << (s as u32)),
{
    assert((x | (1u128 << s)) & !(u128::MAX << s) == x & !(u128::MAX << (s as u32))) by (bit_vector)
        requires
            s < 128,
    ;
}

/// Encoding a nonempty text gives nonempty bytes.
proof fn lemma_encode_nonempty(v: Seq<char>)
    ensures
        v.len() > 0 <==> encode_utf8(v).len() > 0,
{
    if v.len() > 0 {
        assert(encode_utf8(v) == vstd::utf8::encode_scalar(v[0] as u32) + encode_utf8(
            v.drop_first(),
        ));
    }
}

/// Texts with the same encoding are equal.
proof fn lemma_encode_injective(a: Seq<char>, b: Seq<char>)
    requires
        encode_utf8(a) == encode_utf8(b),
    ensures
        a == b,
{
    vstd::utf8::encode_utf8_decode_utf8(a);
    vstd::utf8::encode_utf8_decode_utf8(b);
}

impl Trie {
    /// An empty trie.
    pub fn new() -> (t: Self)
        ensures
            t.wf(),
            t.is_empty_node(),
            t@ == Map::<Seq<u8>, Seq<char>>::empty(),
    {
        let t = Trie { value: String::new(), bits: [0u128, 0u128], children: Vec::new() };
        proof {
            assert(t.bits@[0] == 0u128 && t.bits@[1] == 0u128);
            t.lemma_empty_node(Seq::empty());
            assert(t@ =~= Map::<Seq<u8>, Seq<char>>::empty());
        }
        t
    }

    /// An empty node stores nothing, and at the root it is well formed.
    proof fn lemma_empty_node(self, path: Seq<u8>)
        requires
            self.is_empty_node(),
        ensures
            forall|p: Seq<u8>| #[trigger] self.value_at(p) is None,
            forall|p: Seq<u8>| p.len() > 0 ==> #[trigger] self.node_at(p) is None,
            forall|k: u8| !#[trigger] self.has(k),
            path.len() == 0 ==> self.wf_at(path),
    {
        assert forall|k: u8| !#[trigger] self.has(k) by {
            if k < 128 {
                lemma_zero_bits(k as u32);
            } else {
                lemma_zero_bits((k - 128) as u32);
            }
        }
        assert forall|p: Seq<u8>| p.len() > 0 implies #[trigger] self.node_at(p) is None by {
            assert(!self.has(p[0]));
        }
        assert forall|p: Seq<u8>| #[trigger] self.value_at(p) is None by {
            if p.len() > 0 {
                assert(self.node_at(p) is None);
            }
        }
        if path.len() == 0 {
            self.lemma_total_zero();
            self.lemma_wf_from_children(path);
        }
    }

    proof fn lemma_total_zero(self)
        requires
            forall|k: u8| !#[trigger] self.has(k),
        ensures
            total(self.bits) == 0,
    {
        if total(self.bits) > 0 {
            crate::bitmap::lemma_rank_onto(self.bits, 0, 256);
            let k = choose|k: nat| k < 256 && has_key_bit(self.bits, k) && rank(self.bits, k) == 0;
            assert(self.has(k as u8));
        }
    }

    /// Whether a child is recorded for byte `key`.
    fn has_key(&self, key: u8) -> (r: bool)
        ensures
            r == self.has(key),
    {
        proof {
            lemma_key_split(key);
        }
        let bit_id = 1u128 << (key & 0x7F);
        proof {
            lemma_test_bit(self.bits@[(key as nat / 128) as int], key & 0x7F);
        }
        self.bits[(key as usize) >> 7usize] & bit_id != 0
    }

    /// Records that a child exists for byte `key`.
    fn set_key_bit(&mut self, key: u8)
        ensures
            final(self).bits == with_key(old(self).bits, key as nat),
            final(self).value == old(self).value,
            final(self).children == old(self).children,
    {
        proof {
            lemma_key_split(key);
        }
        let bit_id = 1u128 << (key & 0x7F);
        let idx = (key as usize) >> 7usize;
        self.bits[idx] = self.bits[idx] | bit_id;
        proof {
            assert(self.bits@ =~= with_key(old(self).bits, key as nat)@);
        }
    }

    /// Position among the children where the child for byte `key` is, or would go.
    fn index(&self, key: u8) -> (r: usize)
        ensures
            r == self.slot(key),
    {
        proof {
            lemma_key_split(key);
        }
        let shift = key & 0x7F;
        let mask = !(u128::MAX << shift);
        let idx = (key as usize) >> 7usize;
        proof {
            lemma_key_split(key);
        }
        let bits = self.bits[idx] | (1u128 << shift);
        let mut base: u32 = 0;
        let mut j: usize = 0;
        while j < idx
            invariant
                idx <= 1,
                j <= idx,
                base == if j == 0 { 0nat } else { crate::bitmap::ones_below(self.bits@[0], 128) },
            decreases idx - j,
        {
            proof {
                crate::bitmap::lemma_ones_below_width(self.bits@[0], 128);
            }
            base = base + crate::bitmap::count_ones(self.bits[j]);
            j = j + 1;
        }
        proof {
            lemma_mask_ignores_bit(self.bits@[idx as int], shift);
            crate::bitmap::lemma_ones_below_masked(self.bits@[idx as int], shift as u32, 128);
            crate::bitmap::lemma_ones_below_width(self.bits@[0], 128);
            crate::bitmap::lemma_ones_below_width(self.bits@[idx as int], shift as nat);
        }
        (base + crate::bitmap::count_ones(bits & mask)) as usize
    }
}


impl Trie {
    /// Adds `word` to the trie, keyed by its UTF-8 bytes.
    ///
    /// An empty word stores nothing.
    pub fn insert(&mut self, word: String)
        requires
            old(self).wf(),
        ensures
            final(self).wf(),
            final(self)@ == if word@.len() > 0 {
                old(self)@.insert(encode_utf8(word@), word@)
            } else {
                old(self)@
            },
    {
        let key = word.as_str().as_bytes_vec();
        proof {
            assert(key@.take(0) =~= Seq::<u8>::empty());
            assert(key@.skip(0) =~= key@);
        }
        self.insert_at(&key, 0, word);
        proof {
            let new_view = if word@.len() > 0 {
                old(self)@.insert(encode_utf8(word@), word@)
            } else {
                old(self)@
            };
            assert(self@ =~= new_view);
        }
    }

    /// Stores `word` at the end of `key[pos..]`, below this node at path `key[..pos]`.
    fn insert_at(&mut self, key: &Vec<u8>, pos: usize, word: String)
        requires
            pos <= key@.len(),
            encode_utf8(word@) == key@,
            old(self).wf_at(key@.take(pos as int)) || (pos > 0 && old(self).is_empty_node()),
        ensures
            final(self).wf_at(key@.take(pos as int)),
            forall|p: Seq<u8>| #[trigger]
                final(self).value_at(p) == if p == key@.skip(pos as int) && word@.len() > 0 {
                    Some(word@)
                } else {
                    old(self).value_at(p)
                },
        decreases key@.len() - pos,
    {
        let ghost path = key@.take(pos as int);
        let ghost old_self = *self;
        proof {
            if old_self.is_empty_node() {
                old_self.lemma_empty_node(path);
                old_self.lemma_total_zero();
            } else {
                old_self.lemma_wf_children(path);
            }
        }
        if pos == key.len() {
            self.value = word;
            proof {
                assert(key@.take(pos as int) =~= key@);
                assert(key@.skip(pos as int) =~= Seq::<u8>::empty());
                lemma_encode_nonempty(word@);
                assert forall|p: Seq<u8>| p.len() > 0 implies #[trigger] self.node_at(p)
                    == old_self.node_at(p) by {}
                if old_self.value@.len() > 0 {
                    lemma_encode_injective(old_self.value@, word@);
                }
                assert(self.node_at(Seq::empty()) == Some(*self));
                assert(old_self.node_at(Seq::empty()) == Some(old_self));
                assert forall|p: Seq<u8>| #[trigger]
                    self.value_at(p) == if p == key@.skip(pos as int) && word@.len() > 0 {
                        Some(word@)
                    } else {
                        old_self.value_at(p)
                    } by {
                    if p.len() > 0 {
                        assert(self.node_at(p) == old_self.node_at(p));
                        assert(p != key@.skip(pos as int));
                    } else {
                        assert(p =~= Seq::<u8>::empty());
                        assert(self.value_at(p) == self.stored());
                        assert(old_self.value_at(p) == old_self.stored());
                        if word@.len() == 0 {
                            assert(old_self.value@.len() == 0);
                        }
                    }
                }
                assert forall|k: u8| #[trigger]
                    self.has(k) implies self.slot(k) < self.children@.len() && self.child(k).wf_at(
                        path.push(k),
                    ) by {
                    assert(old_self.has(k));
                }
                self.lemma_wf_from_children(path);
            }
            return;
        }
        let k = key[pos];
        let i = self.index(k);
        let present = self.has_key(k);
        if !present {
            proof {
                crate::bitmap::lemma_rank_mono(old_self.bits, k as nat, 256);
            }
            self.set_key_bit(k);
            self.children.insert(i, Trie::new());
        }
        let ghost mid = *self;
        proof {
            if present {
                assert(mid == old_self);
                assert forall|j: u8| #[trigger] old_self.has(j) && j != k implies mid.slot(j)
                    != mid.slot(k) by {
                    if j < k {
                        crate::bitmap::lemma_rank_mono(mid.bits, j as nat, k as nat);
                    } else {
                        crate::bitmap::lemma_rank_mono(mid.bits, k as nat, j as nat);
                    }
                }
            } else {
                crate::bitmap::lemma_with_key(old_self.bits, k as nat, k as nat);
                crate::bitmap::lemma_with_key(old_self.bits, k as nat, 256);
                assert(mid.children@ == old_self.children@.insert(i as int, mid.children@[i as int]));
                assert forall|j: u8| #[trigger] old_self.has(j) implies mid.has(j) && j != k
                    && mid.slot(j) < mid.children@.len() && mid.child(j) == old_self.child(j)
                    && mid.slot(j) != mid.slot(k) by {
                    crate::bitmap::lemma_with_key(old_self.bits, k as nat, j as nat);
                    if j < k {
                        crate::bitmap::lemma_rank_mono(old_self.bits, j as nat, k as nat);
                    } else {
                        crate::bitmap::lemma_rank_mono(old_self.bits, k as nat, j as nat);
                    }
                }
                assert forall|j: u8| #[trigger] mid.has(j) implies old_self.has(j) || j == k by {
                    crate::bitmap::lemma_with_key(old_self.bits, k as nat, j as nat);
                }
            }
            assert(mid.has(k));
            assert(mid.slot(k) == i);
            assert(key@.take(pos + 1) =~= path.push(k));
            if present {
                assert(mid.child(k) == old_self.child(k));
            } else {
                assert(mid.child(k).is_empty_node());
            }
        }
        self.children[i].insert_at(key, pos + 1, word);
        proof {
            let c0 = mid.child(k);
            let c1 = self.children@[i as int];
            assert(self.bits == mid.bits);
            assert(self.children@ == mid.children@.update(i as int, c1));
            assert(self.child(k) == c1);
            assert forall|j: u8| #[trigger] self.has(j) && j != k implies self.child(j)
                == old_self.child(j) by {
                assert(mid.has(j));
                if present {
                    assert(old_self.has(j));
                } else {
                    assert(old_self.has(j) || j == k);
                }
                assert(mid.slot(j) != mid.slot(k));
            }
            // The updated node is well formed.
            assert(self.node_ok(path)) by {
                lemma_encode_nonempty(word@);
            }
            assert forall|j: u8| #[trigger]
                self.has(j) implies self.slot(j) < self.children@.len() && self.child(j).wf_at(
                    path.push(j),
                ) by {
                if j != k {
                    assert(mid.has(j));
                    if present {
                        assert(old_self.has(j));
                    } else {
                        assert(old_self.has(j) || j == k);
                    }
                }
            }
            self.lemma_wf_from_children(path);
            // Every other path reads what it read before.
            if !present {
                c0.lemma_empty_node(path.push(k));
            }
            assert forall|p: Seq<u8>| #[trigger]
                self.value_at(p) == if p == key@.skip(pos as int) && word@.len() > 0 {
                    Some(word@)
                } else {
                    old_self.value_at(p)
                } by {
                if p.len() == 0 {
                    assert(self.node_at(p) == Some(*self));
                    assert(old_self.node_at(p) == Some(old_self));
                    assert(p != key@.skip(pos as int));
                } else {
                    let j = p[0];
                    let q = p.drop_first();
                    assert(p =~= seq![j] + q);
                    self.lemma_node_at_cons(j, q);
                    old_self.lemma_node_at_cons(j, q);
                    if j == k {
                        assert(key@.skip(pos as int) =~= seq![k] + key@.skip(pos + 1));
                        if p == key@.skip(pos as int) {
                            assert(q =~= key@.skip(pos + 1));
                        }
                        assert((p == key@.skip(pos as int)) == (q == key@.skip(pos + 1)));
                        assert(self.value_at(p) == c1.value_at(q));
                        if present {
                            assert(old_self.value_at(p) == c0.value_at(q));
                        } else {
                            assert(old_self.value_at(p) is None);
                            assert(c0.value_at(q) is None);
                        }
                    } else {
                        assert(p != key@.skip(pos as int));
                        if self.has(j) {
                            assert(mid.has(j));
                            if present {
                                assert(old_self.has(j));
                            } else {
                                assert(old_self.has(j) || j == k);
                            }
                        } else {
                            assert(!old_self.has(j));
                        }
                    }
                }
            }
        }
    }
}


impl Trie {
    /// The word stored at this node, if any.
    pub fn value(&self) -> (r: Option<&str>)
        ensures
            r is Some <==> self.stored() is Some,
            r matches Some(s) ==> Some(s@) == self.stored() && s@.len() > 0,
    {
        if !self.value.as_str().is_empty() {
            Some(self.value.as_str())
        } else {
            None
        }
    }

    /// Whether this node has no children.
    pub fn is_leaf(&self) -> (r: bool)
        ensures
            r == (self.child_count() == 0),
    {
        self.children.len() == 0
    }

    /// Follows the bytes of `word` from this node, then keeps following the only
    /// child while no word ends at the node reached and it has exactly one child.
    /// `None` when the bytes of `word` leave the trie.
    pub fn complete_minimal<'a>(&'a self, word: &str) -> (r: Option<&'a Trie>)
        requires
            self.wf(),
        ensures
            r is Some <==> self.node_at(encode_utf8(word@)) is Some,
            r matches Some(m) ==> *m == self.node_at(encode_utf8(word@))->0.descend(),
    {
        let bytes = word.as_bytes();
        let ghost key = bytes@;
        let mut n: &Trie = self;
        let mut i: usize = 0;
        proof {
            assert(key.skip(0) =~= key);
            assert(key.take(0) =~= Seq::<u8>::empty());
        }
        while i < bytes.len()
            invariant
                key == bytes@,
                key == encode_utf8(word@),
                i <= key.len(),
                self.node_at(key) == n.node_at(key.skip(i as int)),
                n.wf_at(key.take(i as int)),
            decreases key.len() - i,
        {
            let k = bytes[i];
            proof {
                n.lemma_wf_children(key.take(i as int));
                assert(key.skip(i as int) =~= seq![k] + key.skip(i + 1));
                n.lemma_node_at_cons(k, key.skip(i + 1));
            }
            if !n.has_key(k) {
                return None;
            }
            let idx = n.index(k);
            proof {
                assert(key.take(i + 1) =~= key.take(i as int).push(k));
            }
            n = &n.children[idx];
            i = i + 1;
        }
        proof {
            assert(key.skip(i as int) =~= Seq::<u8>::empty());
        }
        Some(n.descend_node())
    }

    fn descend_node(&self) -> (r: &Trie)
        ensures
            *r == self.descend(),
        decreases self,
    {
        if self.value.as_str().is_empty() && self.children.len() == 1 {
            self.children[0].descend_node()
        } else {
            self
        }
    }

    /// The stored words of this subtree, this node's first, then those below each
    /// child in increasing byte order.
    pub fn collect_values(&self) -> (r: Vec<&str>)
        ensures
            r@.map_values(|s: &str| s@) == self.values(),
    {
        let mut v: Vec<&str> = Vec::new();
        Self::collect_into(self, &mut v);
        proof {
            assert(v@.map_values(|s: &str| s@) =~= Seq::<Seq<char>>::empty() + self.values());
        }
        v
    }

    fn collect_into<'a>(n: &'a Trie, dst: &mut Vec<&'a str>)
        ensures
            final(dst)@.map_values(|s: &str| s@) == old(dst)@.map_values(|s: &str| s@) + n.values(),
        decreases n, 0nat,
    {
        let ghost start = dst@.map_values(|s: &str| s@);
        if let Some(val) = n.value() {
            dst.push(val);
        }
        let ghost own = if n.value@.len() > 0 { seq![n.value@] } else { Seq::empty() };
        proof {
            assert(dst@.map_values(|s: &str| s@) =~= start + own);
        }
        let mut j: usize = 0;
        while j < n.children.len()
            invariant
                j <= n.children@.len(),
                dst@.map_values(|s: &str| s@) == start + own + Self::values_upto(n.children@, j as nat),
            decreases n.children@.len() - j,
        {
            let ghost before = dst@.map_values(|s: &str| s@);
            Self::collect_into(&n.children[j], dst);
            proof {
                assert(Self::values_upto(n.children@, (j + 1) as nat) == Self::values_upto(n.children@, j as nat) + n.children@[j as int].values());
                assert(dst@.map_values(|s: &str| s@) =~= start + own + Self::values_upto(n.children@, (j + 1) as nat));
            }
            j = j + 1;
        }
        proof {
            assert(start + own + Self::values_upto(n.children@, n.children@.len()) =~= start + n.values());
        }
    }
}


impl Trie {
    proof fn lemma_node_at_concat(self, p: Seq<u8>, q: Seq<u8>)
        ensures
            self.node_at(p + q) == match self.node_at(p) {
                Some(n) => n.node_at(q),
                None => None,
            },
        decreases p.len(),
    {
        if p.len() == 0 {
            assert(p + q =~= q);
        } else {
            let k = p[0];
            let r = p.drop_first();
            assert(p + q =~= seq![k] + (r + q));
            assert(p =~= seq![k] + r);
            self.lemma_node_at_cons(k, r + q);
            self.lemma_node_at_cons(k, r);
            if self.has(k) && self.slot(k) < self.children@.len() {
                self.child(k).lemma_node_at_concat(r, q);
            }
        }
    }

    /// Every node of a well-formed subtree is itself well formed at its own path.
    proof fn lemma_wf_node(self, path: Seq<u8>, p: Seq<u8>)
        requires
            self.wf_at(path),
            self.node_at(p) is Some,
        ensures
            self.node_at(p)->0.wf_at(path + p),
    {
        let n = self.node_at(p)->0;
        assert forall|q: Seq<u8>| #[trigger] n.node_at(q) is Some implies n.node_at(q)->0.node_ok(
            (path + p) + q,
        ) by {
            self.lemma_node_at_concat(p, q);
            assert(self.node_at(p + q) is Some);
            assert((path + p) + q =~= path + (p + q));
        }
    }

    proof fn lemma_value_at_concat(self, p: Seq<u8>, q: Seq<u8>)
        ensures
            self.value_at(p + q) == match self.node_at(p) {
                Some(n) => n.value_at(q),
                None => None,
            },
    {
        self.lemma_node_at_concat(p, q);
    }

    proof fn lemma_values_upto_members(cs: Seq<Trie>, j: nat, x: Seq<char>)
        requires
            j <= cs.len(),
        ensures
            Self::values_upto(cs, j).contains(x) <==> exists|i: int|
                0 <= i < j && #[trigger] cs[i].values().contains(x),
        decreases j,
    {
        if j > 0 {
            Self::lemma_values_upto_members(cs, (j - 1) as nat, x);
            let a = Self::values_upto(cs, (j - 1) as nat);
            let b = cs[j - 1].values();
            assert((a + b).contains(x) <==> a.contains(x) || b.contains(x)) by {
                if (a + b).contains(x) {
                    let t = choose|t: int| 0 <= t < (a + b).len() && (a + b)[t] == x;
                    if t < a.len() {
                        assert(a[t] == x);
                    } else {
                        assert(b[t - a.len()] == x);
                    }
                }
                if a.contains(x) {
                    let t = choose|t: int| 0 <= t < a.len() && a[t] == x;
                    assert((a + b)[t] == x);
                }
                if b.contains(x) {
                    let t = choose|t: int| 0 <= t < b.len() && b[t] == x;
                    assert((a + b)[t + a.len()] == x);
                }
            }
        }
    }

    /// The collected words of a well-formed subtree are exactly the words stored in it.
    proof fn lemma_values_members(self, path: Seq<u8>, x: Seq<char>)
        requires
            self.wf_at(path),
        ensures
            self.values().contains(x) <==> exists|p: Seq<u8>| #[trigger] self.value_at(p) == Some(x),
        decreases self,
    {
        self.lemma_wf_children(path);
        let own = if self.value@.len() > 0 {
            seq![self.value@]
        } else {
            Seq::<Seq<char>>::empty()
        };
        let rest = Self::values_upto(self.children@, self.children@.len());
        Self::lemma_values_upto_members(self.children@, self.children@.len(), x);
        assert(self.node_at(Seq::empty()) == Some(self));
        assert(self.values() == own + rest);
        if self.values().contains(x) {
            let t = choose|t: int| 0 <= t < (own + rest).len() && (own + rest)[t] == x;
            if t < own.len() {
                assert(self.value_at(Seq::empty()) == Some(x));
            } else {
                assert(rest[t - own.len()] == x);
                assert(rest.contains(x));
                let i = choose|i: int|
                    0 <= i < self.children@.len() && #[trigger] self.children@[i].values().contains(
                        x,
                    );
                crate::bitmap::lemma_rank_onto(self.bits, i as nat, 256);
                let kn = choose|k: nat| k < 256 && has_key_bit(self.bits, k) && rank(self.bits, k) == i;
                let k = kn as u8;
                assert(self.has(k) && self.slot(k) == i);
                let c = self.child(k);
                c.lemma_values_members(path.push(k), x);
                let q = choose|q: Seq<u8>| #[trigger] c.value_at(q) == Some(x);
                self.lemma_node_at_cons(k, q);
                assert(self.value_at(seq![k] + q) == Some(x));
            }
        }
        if exists|p: Seq<u8>| #[trigger] self.value_at(p) == Some(x) {
            let p = choose|p: Seq<u8>| #[trigger] self.value_at(p) == Some(x);
            if p.len() == 0 {
                assert(p =~= Seq::<u8>::empty());
                assert((own + rest)[0] == x);
            } else {
                let k = p[0];
                let q = p.drop_first();
                assert(p =~= seq![k] + q);
                self.lemma_node_at_cons(k, q);
                let c = self.child(k);
                assert(c.value_at(q) == Some(x));
                c.lemma_values_members(path.push(k), x);
                let i = self.slot(k) as int;
                assert(self.children@[i].values().contains(x));
                assert(rest.contains(x));
                let t = choose|t: int| 0 <= t < rest.len() && rest[t] == x;
                assert((own + rest)[t + own.len()] == x);
            }
        }
    }
}


impl Trie {
    /// The child in slot `i` is the child of some present byte.
    proof fn lemma_slot_key(self, path: Seq<u8>, i: int) -> (k: u8)
        requires
            self.node_ok(path),
            0 <= i < self.children@.len(),
        ensures
            self.has(k),
            self.slot(k) == i,
            self.child(k) == self.children@[i],
    {
        crate::bitmap::lemma_rank_onto(self.bits, i as nat, 256);
        let kn = choose|k: nat| k < 256 && has_key_bit(self.bits, k) && rank(self.bits, k) == i;
        kn as u8
    }

    /// Two present bytes with the same slot are the same byte.
    proof fn lemma_slot_injective(self, j: u8, k: u8)
        requires
            self.has(j),
            self.has(k),
            self.slot(j) == self.slot(k),
        ensures
            j == k,
    {
        if j < k {
            crate::bitmap::lemma_rank_mono(self.bits, j as nat, k as nat);
        } else if k < j {
            crate::bitmap::lemma_rank_mono(self.bits, k as nat, j as nat);
        }
    }

    /// Completion's descent from a node reaches it along a path that every stored word
    /// below the node continues.
    proof fn lemma_descend(self, path: Seq<u8>) -> (e: Seq<u8>)
        requires
            self.wf_at(path),
        ensures
            self.node_at(e) == Some(self.descend()),
            forall|p: Seq<u8>| #[trigger] self.value_at(p) is Some ==> e.is_prefix_of(p),
        decreases self,
    {
        self.lemma_wf_children(path);
        assert(self.node_at(Seq::empty()) == Some(self));
        if self.value@.len() == 0 && self.children@.len() == 1 {
            let k = self.lemma_slot_key(path, 0);
            let c = self.child(k);
            let e1 = c.lemma_descend(path.push(k));
            self.lemma_node_at_cons(k, e1);
            let e = seq![k] + e1;
            assert forall|p: Seq<u8>| #[trigger] self.value_at(p) is Some implies e.is_prefix_of(
                p,
            ) by {
                if p.len() == 0 {
                    assert(p =~= Seq::<u8>::empty());
                } else {
                    let j = p[0];
                    let q = p.drop_first();
                    assert(p =~= seq![j] + q);
                    self.lemma_node_at_cons(j, q);
                    assert(self.has(j));
                    self.lemma_slot_injective(j, k);
                    assert(c.value_at(q) is Some);
                    assert(e1.is_prefix_of(q));
                    assert(e =~= p.subrange(0, e.len() as int));
                }
            }
            e
        } else {
            assert forall|p: Seq<u8>| #[trigger] self.value_at(p) is Some implies Seq::<
                u8,
            >::empty().is_prefix_of(p) by {
                assert(Seq::<u8>::empty() =~= p.subrange(0, 0));
            }
            Seq::empty()
        }
    }

    /// Every node below the root of a well-formed subtree leads to a stored word.
    proof fn lemma_live(self, path: Seq<u8>) -> (p: Seq<u8>)
        requires
            self.wf_at(path),
            path.len() > 0,
        ensures
            self.value_at(p) is Some,
        decreases self,
    {
        self.lemma_wf_children(path);
        assert(self.node_at(Seq::empty()) == Some(self));
        if self.value@.len() > 0 {
            Seq::empty()
        } else {
            let k = self.lemma_slot_key(path, 0);
            let q = self.child(k).lemma_live(path.push(k));
            self.lemma_node_at_cons(k, q);
            seq![k] + q
        }
    }
}

impl Trie {
    /// Every word collected below a well-formed node spells, in UTF-8, its path.
    proof fn lemma_values_spell_paths(self, path: Seq<u8>, x: Seq<char>)
        requires
            self.wf_at(path),
            self.values().contains(x),
        ensures
            exists|p: Seq<u8>| encode_utf8(x) == path + p,
            x.len() > 0,
    {
        self.lemma_values_members(path, x);
        let p = choose|p: Seq<u8>| #[trigger] self.value_at(p) == Some(x);
        assert(self.node_at(p) is Some);
        assert(encode_utf8(x) == path + p);
    }

    proof fn lemma_values_no_dup(self, path: Seq<u8>)
        requires
            self.wf_at(path),
        ensures
            self.values().no_duplicates(),
        decreases self, 0nat,
    {
        self.lemma_wf_children(path);
        let own = if self.value@.len() > 0 {
            seq![self.value@]
        } else {
            Seq::<Seq<char>>::empty()
        };
        let cs = self.children@;
        let rest = Self::values_upto(cs, cs.len());
        Self::lemma_upto_no_dup(self, path, cs, cs.len());
        assert(self.values() == own + rest);
        assert forall|i: int, j: int| 0 <= i < (own + rest).len() && 0 <= j < (own + rest).len()
            && i != j implies (own + rest)[i] != (own + rest)[j] by {
            if i < own.len() && j < own.len() {
            } else if i >= own.len() && j >= own.len() {
                assert((own + rest)[i] == rest[i - own.len()]);
                assert((own + rest)[j] == rest[j - own.len()]);
            } else {
                let (a, b) = if i < own.len() { (i, j) } else { (j, i) };
                let y = (own + rest)[b];
                assert(y == rest[b - own.len()]);
                assert(rest.contains(y));
                Self::lemma_values_upto_members(cs, cs.len(), y);
                let t = choose|t: int| 0 <= t < cs.len() && #[trigger] cs[t].values().contains(y);
                let k = self.lemma_slot_key(path, t);
                self.child(k).lemma_values_spell_paths(path.push(k), y);
                let q = choose|q: Seq<u8>| encode_utf8(y) == path.push(k) + q;
                assert(self.node_at(Seq::empty()) == Some(self));
                assert(encode_utf8(self.value@) == path + Seq::<u8>::empty());
                assert(path + Seq::<u8>::empty() =~= path);
                assert((own + rest)[a] == self.value@);
                if y == self.value@ {
                    assert(encode_utf8(y).len() == path.len());
                    assert((path.push(k) + q).len() > path.len());
                }
            }
        }
    }

    proof fn lemma_upto_no_dup(n: Trie, path: Seq<u8>, cs: Seq<Trie>, j: nat)
        requires
            n.wf_at(path),
            cs == n.children@,
            j <= cs.len(),
        ensures
            Self::values_upto(cs, j).no_duplicates(),
            forall|y: Seq<char>| #[trigger]
                Self::values_upto(cs, j).contains(y) ==> exists|t: int|
                    0 <= t < j && n.has(#[trigger] n.key_of_slot(path, t)) && encode_utf8(y).len()
                        > path.len() && encode_utf8(y)[path.len() as int] == n.key_of_slot(path, t),
        decreases cs, j,
    {
        n.lemma_wf_children(path);
        if j > 0 {
            Self::lemma_upto_no_dup(n, path, cs, (j - 1) as nat);
            let a = Self::values_upto(cs, (j - 1) as nat);
            let c = cs[j - 1];
            let k = n.key_of_slot(path, j - 1);
            n.lemma_key_of_slot(path, j - 1);
            c.lemma_values_no_dup(path.push(k));
            let b = c.values();
            assert(Self::values_upto(cs, j) == a + b);
            assert forall|y: Seq<char>| b.contains(y) implies encode_utf8(y).len() > path.len()
                && encode_utf8(y)[path.len() as int] == k by {
                c.lemma_values_spell_paths(path.push(k), y);
                let q = choose|q: Seq<u8>| encode_utf8(y) == path.push(k) + q;
                assert((path.push(k) + q)[path.len() as int] == k);
            }
            assert forall|y: Seq<char>| #[trigger] (a + b).contains(y) implies exists|t: int|
                0 <= t < j && n.has(#[trigger] n.key_of_slot(path, t)) && encode_utf8(y).len()
                    > path.len() && encode_utf8(y)[path.len() as int] == n.key_of_slot(path, t) by {
                let s = choose|s: int| 0 <= s < (a + b).len() && (a + b)[s] == y;
                if s < a.len() {
                    assert(a[s] == y);
                    assert(a.contains(y));
                } else {
                    assert(b[s - a.len()] == y);
                    assert(b.contains(y));
                    assert(n.has(n.key_of_slot(path, j - 1)));
                }
            }
            assert forall|s1: int, s2: int| 0 <= s1 < (a + b).len() && 0 <= s2 < (a + b).len()
                && s1 != s2 implies (a + b)[s1] != (a + b)[s2] by {
                if s1 < a.len() && s2 < a.len() {
                    assert((a + b)[s1] == a[s1]);
                    assert((a + b)[s2] == a[s2]);
                } else if s1 >= a.len() && s2 >= a.len() {
                    assert((a + b)[s1] == b[s1 - a.len()]);
                    assert((a + b)[s2] == b[s2 - a.len()]);
                } else {
                    let (ia, ib) = if s1 < a.len() { (s1, s2) } else { (s2, s1) };
                    let y = a[ia];
                    assert((a + b)[ia] == y);
                    let z = b[ib - a.len()];
                    assert((a + b)[ib] == z);
                    assert(a.contains(y));
                    assert(b.contains(z));
                    let t = choose|t: int|
                        0 <= t < j - 1 && n.has(#[trigger] n.key_of_slot(path, t)) && encode_utf8(y).len()
                            > path.len() && encode_utf8(y)[path.len() as int] == n.key_of_slot(path, t);
                    n.lemma_key_of_slot(path, t);
                    if y == z {
                        n.lemma_slot_injective(k, n.key_of_slot(path, t));
                    }
                }
            }
        }
    }

    /// The byte whose child sits in slot `i`.
    spec fn key_of_slot(self, path: Seq<u8>, i: int) -> u8 {
        choose|k: u8| self.has(k) && self.slot(k) == i
    }

    proof fn lemma_key_of_slot(self, path: Seq<u8>, i: int)
        requires
            self.node_ok(path),
            0 <= i < self.children@.len(),
        ensures
            self.has(self.key_of_slot(path, i)),
            self.slot(self.key_of_slot(path, i)) == i,
            self.child(self.key_of_slot(path, i)) == self.children@[i],
    {
        let k = self.lemma_slot_key(path, i);
        assert(self.has(k) && self.slot(k) == i);
    }
}

/// Byte order on encodings: `a` is a proper prefix of `b`, or at the first byte where
/// they differ `a`'s byte is smaller.
pub open spec fn bytes_lt(a: Seq<u8>, b: Seq<u8>) -> bool {
    ||| (a.len() < b.len() && a == b.take(a.len() as int))
    ||| exists|i: int| 0 <= i < a.len() && i < b.len() && a.take(i) == b.take(i) && a[i] < b[i]
}

/// Words listed in strictly increasing byte order of their UTF-8 encodings.
pub open spec fn sorted_by_bytes(s: Seq<Seq<char>>) -> bool {
    forall|i: int, j: int|
        0 <= i < j < s.len() ==> bytes_lt(encode_utf8(#[trigger] s[i]), encode_utf8(#[trigger] s[j]))
}

proof fn lemma_sorted_concat(a: Seq<Seq<char>>, b: Seq<Seq<char>>)
    requires
        sorted_by_bytes(a),
        sorted_by_bytes(b),
        forall|y: Seq<char>, z: Seq<char>|
            a.contains(y) && b.contains(z) ==> bytes_lt(encode_utf8(y), encode_utf8(z)),
    ensures
        sorted_by_bytes(a + b),
{
    assert forall|i: int, j: int| 0 <= i < j < (a + b).len() implies bytes_lt(
        encode_utf8(#[trigger] (a + b)[i]),
        encode_utf8(#[trigger] (a + b)[j]),
    ) by {
        if j < a.len() {
            assert((a + b)[i] == a[i]);
            assert((a + b)[j] == a[j]);
        } else if i >= a.len() {
            assert((a + b)[i] == b[i - a.len()]);
            assert((a + b)[j] == b[j - a.len()]);
        } else {
            assert((a + b)[i] == a[i]);
            assert((a + b)[j] == b[j - a.len()]);
            assert(a.contains(a[i]));
            assert(b.contains(b[j - a.len()]));
        }
    }
}

/// Encodings that agree up to `path` and then carry bytes `x < y` are in byte order.
proof fn lemma_bytes_lt_at(path: Seq<u8>, x: u8, y: u8, e: Seq<u8>, f: Seq<u8>)
    requires
        x < y,
        path.push(x).is_prefix_of(e),
        path.push(y).is_prefix_of(f),
    ensures
        bytes_lt(e, f),
{
    let i = path.len() as int;
    assert(e[i] == path.push(x)[i]);
    assert(f[i] == path.push(y)[i]);
    assert(e.take(i) =~= path) by {
        assert forall|t: int| 0 <= t < i implies e.take(i)[t] == path[t] by {
            assert(e[t] == path.push(x)[t]);
        }
    }
    assert(f.take(i) =~= path) by {
        assert forall|t: int| 0 <= t < i implies f.take(i)[t] == path[t] by {
            assert(f[t] == path.push(y)[t]);
        }
    }
}

impl Trie {
    proof fn lemma_values_under(self, path: Seq<u8>, y: Seq<char>)
        requires
            self.wf_at(path),
            self.values().contains(y),
        ensures
            path.is_prefix_of(encode_utf8(y)),
    {
        self.lemma_values_spell_paths(path, y);
        let q = choose|q: Seq<u8>| encode_utf8(y) == path + q;
        assert(path =~= (path + q).take(path.len() as int));
    }

    proof fn lemma_values_sorted(self, path: Seq<u8>)
        requires
            self.wf_at(path),
        ensures
            sorted_by_bytes(self.values()),
        decreases self, 0nat,
    {
        self.lemma_wf_children(path);
        let own = if self.value@.len() > 0 {
            seq![self.value@]
        } else {
            Seq::<Seq<char>>::empty()
        };
        let cs = self.children@;
        let rest = Self::values_upto(cs, cs.len());
        Self::lemma_upto_sorted(self, path, cs, cs.len());
        assert(self.values() == own + rest);
        assert(sorted_by_bytes(own));
        assert forall|y: Seq<char>, z: Seq<char>|
            own.contains(y) && rest.contains(z) implies bytes_lt(encode_utf8(y), encode_utf8(z)) by {
            assert(own[0] == y);
            assert(self.node_at(Seq::empty()) == Some(self));
            assert(path + Seq::<u8>::empty() =~= path);
            assert(encode_utf8(y) == path);
            let t = choose|t: int|
                0 <= t < cs.len() && n_has_prefix(self, path, t, z);
            let k = self.key_of_slot(path, t);
            let ez = encode_utf8(z);
            assert(path.push(k).is_prefix_of(ez));
            assert(path =~= ez.take(path.len() as int)) by {
                assert forall|u: int| 0 <= u < path.len() implies ez.take(path.len() as int)[u]
                    == path[u] by {
                    assert(ez[u] == path.push(k)[u]);
                }
            }
        }
        lemma_sorted_concat(own, rest);
    }

    proof fn lemma_upto_sorted(n: Trie, path: Seq<u8>, cs: Seq<Trie>, j: nat)
        requires
            n.wf_at(path),
            cs == n.children@,
            j <= cs.len(),
        ensures
            sorted_by_bytes(Self::values_upto(cs, j)),
            forall|y: Seq<char>| #[trigger]
                Self::values_upto(cs, j).contains(y) ==> exists|t: int|
                    0 <= t < j && n_has_prefix(n, path, t, y),
        decreases cs, j,
    {
        n.lemma_wf_children(path);
        if j > 0 {
            Self::lemma_upto_sorted(n, path, cs, (j - 1) as nat);
            let a = Self::values_upto(cs, (j - 1) as nat);
            let c = cs[j - 1];
            let k = n.key_of_slot(path, j - 1);
            n.lemma_key_of_slot(path, j - 1);
            c.lemma_values_sorted(path.push(k));
            let b = c.values();
            assert(Self::values_upto(cs, j) == a + b);
            assert forall|y: Seq<char>| #[trigger] b.contains(y) implies n_has_prefix(
                n,
                path,
                j - 1,
                y,
            ) by {
                c.lemma_values_under(path.push(k), y);
            }
            assert forall|y: Seq<char>, z: Seq<char>|
                a.contains(y) && b.contains(z) implies bytes_lt(encode_utf8(y), encode_utf8(z)) by {
                let t = choose|t: int| 0 <= t < j - 1 && n_has_prefix(n, path, t, y);
                let kt = n.key_of_slot(path, t);
                n.lemma_key_of_slot(path, t);
                assert(n_has_prefix(n, path, j - 1, z));
                if k <= kt {
                    if k < kt {
                        crate::bitmap::lemma_rank_mono(n.bits, k as nat, kt as nat);
                    }
                    assert(false);
                }
                lemma_bytes_lt_at(path, kt, k, encode_utf8(y), encode_utf8(z));
            }
            lemma_sorted_concat(a, b);
            assert forall|y: Seq<char>| #[trigger] (a + b).contains(y) implies exists|t: int|
                0 <= t < j && n_has_prefix(n, path, t, y) by {
                let s = choose|s: int| 0 <= s < (a + b).len() && (a + b)[s] == y;
                if s < a.len() {
                    assert(a[s] == y);
                    assert(a.contains(y));
                } else {
                    assert(b[s - a.len()] == y);
                    assert(b.contains(y));
                    assert(n_has_prefix(n, path, j - 1, y));
                }
            }
        }
    }
}

/// The word `y` lies below the child in slot `t` of `n`, a node at `path`.
spec fn n_has_prefix(n: Trie, path: Seq<u8>, t: int, y: Seq<char>) -> bool {
    path.push(n.key_of_slot(path, t)).is_prefix_of(encode_utf8(y))
}

// The laws below speak of the stored words, `t@`, and of the nodes completion finds.

impl Trie {
    /// The word stored at a node of a well-formed trie spells, in UTF-8, the path that
    /// leads to the node.
    pub proof fn lemma_stored_spells_path(self, path: Seq<u8>)
        requires
            self.wf_at(path),
        ensures
            self.stored() matches Some(w) ==> encode_utf8(w) == path,
    {
        self.lemma_wf_children(path);
    }

    /// Collecting the words of a well-formed node lists each of them once.
    pub proof fn lemma_collect_values_distinct(self, path: Seq<u8>)
        requires
            self.wf_at(path),
        ensures
            self.values().no_duplicates(),
    {
        self.lemma_values_no_dup(path);
    }

    /// `value()` reports the word stored under the empty path.
    pub proof fn lemma_value_is_empty_path_entry(self)
        ensures
            self.stored() is Some <==> self@.contains_key(Seq::empty()),
            self.stored() matches Some(w) ==> self@[Seq::empty()] == w,
    {
        assert(self.node_at(Seq::empty()) == Some(self));
    }

    /// A node of a well-formed trie is a leaf exactly when no stored word lies below it.
    pub proof fn lemma_is_leaf_iff_nothing_below(self, path: Seq<u8>)
        requires
            self.wf_at(path),
        ensures
            self.child_count() == 0 <==> forall|p: Seq<u8>| #[trigger]
                self@.contains_key(p) ==> p.len() == 0,
    {
        self.lemma_wf_children(path);
        if self.child_count() == 0 {
            assert forall|p: Seq<u8>| #[trigger] self@.contains_key(p) implies p.len() == 0 by {
                if p.len() > 0 {
                    let k = p[0];
                    self.lemma_node_at_cons(k, p.drop_first());
                    assert(p =~= seq![k] + p.drop_first());
                    assert(self.has(k));
                }
            }
        } else {
            let k = self.lemma_slot_key(path, 0);
            let q = self.child(k).lemma_live(path.push(k));
            self.lemma_node_at_cons(k, q);
            assert(self@.contains_key(seq![k] + q));
        }
    }

    /// The word stored where completion stops begins with the typed text.
    pub proof fn lemma_completion_extends(self, word: Seq<char>)
        requires
            self.wf(),
            self.node_at(encode_utf8(word)) is Some,
        ensures
            self.node_at(encode_utf8(word))->0.descend().stored() matches Some(w)
                ==> word.is_prefix_of(w),
    {
        let b = encode_utf8(word);
        let n = self.node_at(b)->0;
        self.lemma_wf_node(Seq::empty(), b);
        assert(Seq::<u8>::empty() + b =~= b);
        let e = n.lemma_descend(b);
        n.lemma_wf_node(b, e);
        let m = n.descend();
        m.lemma_stored_spells_path(b + e);
        if let Some(w) = m.stored() {
            crate::text::lemma_encode_prefix(word, w, e);
        }
    }

    /// Where completion stops, the node does not have exactly one child and no word.
    proof fn lemma_descend_stops(self)
        ensures
            !(self.descend().value@.len() == 0 && self.descend().children@.len() == 1),
        decreases self,
    {
        if self.value@.len() == 0 && self.children@.len() == 1 {
            self.children@[0].lemma_descend_stops();
        }
    }

    /// When a single stored word begins with the typed text, completion stops at that
    /// word's node, a leaf.
    pub proof fn lemma_complete_unique(self, word: Seq<char>, k: Seq<u8>)
        requires
            self.wf(),
            self@.contains_key(k),
            encode_utf8(word).is_prefix_of(k),
            forall|k2: Seq<u8>| #[trigger]
                self@.contains_key(k2) && encode_utf8(word).is_prefix_of(k2) ==> k2 == k,
        ensures
            self.node_at(encode_utf8(word)) is Some,
            self.node_at(encode_utf8(word))->0.descend().stored() == Some(self@[k]),
            self.node_at(encode_utf8(word))->0.descend().child_count() == 0,
    {
        let b = encode_utf8(word);
        self.lemma_complete_minimal_none(word);
        let n = self.node_at(b)->0;
        self.lemma_wf_node(Seq::empty(), b);
        assert(Seq::<u8>::empty() + b =~= b);
        let e = n.lemma_descend(b);
        let m = n.descend();
        n.lemma_wf_node(b, e);
        assert(b + e =~= Seq::<u8>::empty() + (b + e));
        m.lemma_wf_children(b + e);
        n.lemma_descend_stops();
        // Every word stored below `m` is the one word.
        assert forall|p: Seq<u8>| #[trigger] m.value_at(p) is Some implies b + (e + p) == k by {
            n.lemma_value_at_concat(e, p);
            self.lemma_value_at_concat(b, e + p);
            let k2 = b + (e + p);
            assert(self@.contains_key(k2));
            assert(b =~= k2.subrange(0, b.len() as int));
        }
        self.lemma_complete_minimal_candidates(word, self@[k]);
        assert(m.values().contains(self@[k]));
        m.lemma_values_members(b + e, self@[k]);
        let p0 = choose|p: Seq<u8>| #[trigger] m.value_at(p) == Some(self@[k]);
        if m.children@.len() > 0 {
            let c = m.lemma_slot_key(b + e, 0);
            let q = m.child(c).lemma_live((b + e).push(c));
            m.lemma_node_at_cons(c, q);
            assert(m.value_at(seq![c] + q) is Some);
            assert(b + (e + (seq![c] + q)) == k);
            assert(m.node_at(Seq::empty()) == Some(m));
            if m.value@.len() > 0 {
                assert(m.value_at(Seq::empty()) is Some);
                assert(b + (e + Seq::<u8>::empty()) == k);
                assert((b + (e + (seq![c] + q))).len() > (b + (e + Seq::<u8>::empty())).len());
            } else {
                assert(m.children@.len() != 1);
                let c2 = m.lemma_slot_key(b + e, 1);
                let q2 = m.child(c2).lemma_live((b + e).push(c2));
                m.lemma_node_at_cons(c2, q2);
                assert(m.value_at(seq![c2] + q2) is Some);
                assert(b + (e + (seq![c2] + q2)) == k);
                let at = (b + e).len();
                assert((b + (e + (seq![c] + q)))[at as int] == c);
                assert((b + (e + (seq![c2] + q2)))[at as int] == c2);
                assert(c != c2);
            }
        }
        assert(m.children@.len() == 0);
        if p0.len() > 0 {
            m.lemma_node_at_cons(p0[0], p0.drop_first());
            assert(p0 =~= seq![p0[0]] + p0.drop_first());
            assert(!m.has(p0[0])) by {
                if m.has(p0[0]) {
                    crate::bitmap::lemma_rank_below_total(m.bits, p0[0] as nat);
                }
            }
        }
        assert(p0 =~= Seq::<u8>::empty());
        assert(m.node_at(Seq::empty()) == Some(m));
    }

    /// Completion finds no node exactly when the typed bytes are not empty and no
    /// stored word begins with them.
    pub proof fn lemma_complete_minimal_none(self, word: Seq<char>)
        requires
            self.wf(),
        ensures
            self.node_at(encode_utf8(word)) is None <==> (encode_utf8(word).len() > 0 && !exists|
                k: Seq<u8>,
            | #[trigger] self@.contains_key(k) && encode_utf8(word).is_prefix_of(k)),
    {
        let b = encode_utf8(word);
        if b.len() == 0 {
            assert(b =~= Seq::<u8>::empty());
            assert(self.node_at(b) == Some(self));
        } else if self.node_at(b) is Some {
            self.lemma_wf_node(Seq::empty(), b);
            let n = self.node_at(b)->0;
            assert(Seq::<u8>::empty() + b =~= b);
            let q = n.lemma_live(b);
            self.lemma_value_at_concat(b, q);
            assert(self@.contains_key(b + q));
            assert(b =~= (b + q).subrange(0, b.len() as int));
        } else {
            assert forall|k: Seq<u8>| #[trigger] self@.contains_key(k) implies !b.is_prefix_of(k) by {
                if b.is_prefix_of(k) {
                    let q = k.subrange(b.len() as int, k.len() as int);
                    assert(k =~= b + q);
                    self.lemma_value_at_concat(b, q);
                }
            }
        }
    }

    /// When completion finds a node, the words stored below that node are exactly the
    /// stored words that begin with the typed bytes: none is lost and none is added.
    pub proof fn lemma_complete_minimal_candidates(self, word: Seq<char>, x: Seq<char>)
        requires
            self.wf(),
            self.node_at(encode_utf8(word)) is Some,
        ensures
            self.node_at(encode_utf8(word))->0.descend().values().contains(x) <==> exists|
                k: Seq<u8>,
            | #[trigger] self@.contains_key(k) && encode_utf8(word).is_prefix_of(k) && self@[k] == x,
    {
        let b = encode_utf8(word);
        let n = self.node_at(b)->0;
        self.lemma_wf_node(Seq::empty(), b);
        assert(Seq::<u8>::empty() + b =~= b);
        let e = n.lemma_descend(b);
        let m = n.descend();
        n.lemma_wf_node(b, e);
        m.lemma_values_members(b + e, x);
        if m.values().contains(x) {
            let p = choose|p: Seq<u8>| #[trigger] m.value_at(p) == Some(x);
            n.lemma_value_at_concat(e, p);
            self.lemma_value_at_concat(b, e + p);
            let k = b + (e + p);
            assert(self@.contains_key(k));
            assert(b =~= k.subrange(0, b.len() as int));
        }
        if exists|k: Seq<u8>| #[trigger]
            self@.contains_key(k) && b.is_prefix_of(k) && self@[k] == x {
            let k = choose|k: Seq<u8>| #[trigger]
                self@.contains_key(k) && b.is_prefix_of(k) && self@[k] == x;
            let q = k.subrange(b.len() as int, k.len() as int);
            assert(k =~= b + q);
            self.lemma_value_at_concat(b, q);
            assert(n.value_at(q) == Some(x));
            assert(e.is_prefix_of(q));
            let r = q.subrange(e.len() as int, q.len() as int);
            assert(q =~= e + r);
            n.lemma_value_at_concat(e, r);
            assert(m.value_at(r) == Some(x));
        }
    }
}


impl Trie {
    /// The words collected from a well-formed trie are exactly its stored words, each
    /// once, in strictly increasing byte order of their UTF-8 encodings.
    pub proof fn lemma_collect_values_exact(self)
        requires
            self.wf(),
        ensures
            sorted_by_bytes(self.values()),
            self.values().no_duplicates(),
            forall|x: Seq<char>| #[trigger]
                self.values().contains(x) <==> exists|k: Seq<u8>| #[trigger]
                    self@.contains_key(k) && self@[k] == x,
    {
        self.lemma_values_sorted(Seq::empty());
        self.lemma_values_no_dup(Seq::empty());
        assert forall|x: Seq<char>| #[trigger]
            self.values().contains(x) <==> exists|k: Seq<u8>| #[trigger]
                self@.contains_key(k) && self@[k] == x by {
            self.lemma_values_members(Seq::empty(), x);
            if self.values().contains(x) {
                let p = choose|p: Seq<u8>| #[trigger] self.value_at(p) == Some(x);
                assert(self@.contains_key(p) && self@[p] == x);
            }
            if exists|k: Seq<u8>| #[trigger] self@.contains_key(k) && self@[k] == x {
                let k = choose|k: Seq<u8>| #[trigger] self@.contains_key(k) && self@[k] == x;
                assert(self.value_at(k) == Some(x));
            }
        }
    }

    /// The node where completion stops is itself well formed, at the path that leads
    /// to it, so the laws on well-formed nodes hold of it.
    pub proof fn lemma_completion_node_wf(self, word: Seq<char>) -> (p: Seq<u8>)
        requires
            self.wf(),
            self.node_at(encode_utf8(word)) is Some,
        ensures
            self.node_at(encode_utf8(word))->0.descend().wf_at(p),
            self.node_at(p) == Some(self.node_at(encode_utf8(word))->0.descend()),
            encode_utf8(word).is_prefix_of(p),
    {
        let b = encode_utf8(word);
        let n = self.node_at(b)->0;
        self.lemma_wf_node(Seq::empty(), b);
        assert(Seq::<u8>::empty() + b =~= b);
        let e = n.lemma_descend(b);
        n.lemma_wf_node(b, e);
        self.lemma_node_at_concat(b, e);
        assert(b =~= (b + e).take(b.len() as int));
        b + e
    }

    /// The words listed where completion stops are in strictly increasing byte order.
    pub proof fn lemma_complete_minimal_sorted(self, word: Seq<char>)
        requires
            self.wf(),
            self.node_at(encode_utf8(word)) is Some,
        ensures
            sorted_by_bytes(self.node_at(encode_utf8(word))->0.descend().values()),
    {
        let p = self.lemma_completion_node_wf(word);
        self.node_at(encode_utf8(word))->0.descend().lemma_values_sorted(p);
    }

    /// A well-formed node is a leaf exactly when the only word collected from it is its
    /// own, if it has one.
    pub proof fn lemma_leaf_iff_only_own_word(self, path: Seq<u8>)
        requires
            self.wf_at(path),
        ensures
            self.child_count() == 0 <==> self.values().len() == if self.stored() is Some {
                1nat
            } else {
                0nat
            },
    {
        self.lemma_wf_children(path);
        let own = if self.value@.len() > 0 {
            seq![self.value@]
        } else {
            Seq::<Seq<char>>::empty()
        };
        let cs = self.children@;
        let rest = Self::values_upto(cs, cs.len());
        assert(self.values() == own + rest);
        if cs.len() > 0 {
            let k = self.lemma_slot_key(path, 0);
            let c = self.child(k);
            let q = c.lemma_live(path.push(k));
            let x = c.value_at(q)->0;
            c.lemma_values_members(path.push(k), x);
            Self::lemma_values_upto_members(cs, cs.len(), x);
            assert(cs[0].values().contains(x));
            assert(rest.contains(x));
            assert(rest.len() > 0);
        }
    }

    /// Completion on a stored word stops at that word's own node. The node is a leaf
    /// exactly when no other stored word begins with this one.
    pub proof fn lemma_complete_stored_word(self, w: Seq<char>)
        requires
            self.wf(),
            self@.contains_key(encode_utf8(w)),
            self@[encode_utf8(w)] == w,
        ensures
            self.node_at(encode_utf8(w)) is Some,
            self.node_at(encode_utf8(w))->0.descend() == self.node_at(encode_utf8(w))->0,
            self.node_at(encode_utf8(w))->0.stored() == Some(w),
            self.node_at(encode_utf8(w))->0.child_count() == 0 <==> forall|k: Seq<u8>| #[trigger]
                self@.contains_key(k) && encode_utf8(w).is_prefix_of(k) ==> k == encode_utf8(w),
    {
        let b = encode_utf8(w);
        let n = self.node_at(b)->0;
        assert(self.value_at(b) == Some(w));
        assert(n.stored() == Some(w));
        self.lemma_wf_node(Seq::empty(), b);
        assert(Seq::<u8>::empty() + b =~= b);
        n.lemma_is_leaf_iff_nothing_below(b);
        if n.child_count() == 0 {
            assert forall|k: Seq<u8>| #[trigger]
                self@.contains_key(k) && b.is_prefix_of(k) implies k == b by {
                let q = k.subrange(b.len() as int, k.len() as int);
                assert(k =~= b + q);
                self.lemma_value_at_concat(b, q);
                assert(n@.contains_key(q));
                assert(q.len() == 0);
                assert(k =~= b);
            }
        } else {
            let q = choose|q: Seq<u8>| #[trigger] n@.contains_key(q) && q.len() != 0;
            self.lemma_value_at_concat(b, q);
            assert(self@.contains_key(b + q));
            assert(b =~= (b + q).take(b.len() as int));
            assert((b + q).len() != b.len());
        }
    }
}


/// Byte order is strict: no encoding comes before itself, and two never come before
/// each other.
proof fn lemma_bytes_lt_asym(x: Seq<u8>, y: Seq<u8>)
    requires
        bytes_lt(x, y),
    ensures
        !bytes_lt(y, x),
        x != y,
{
    if x.len() < y.len() && x == y.take(x.len() as int) {
        if exists|i: int| 0 <= i < y.len() && i < x.len() && y.take(i) == x.take(i) && y[i] < x[i] {
            let i = choose|i: int| 0 <= i < y.len() && i < x.len() && y.take(i) == x.take(i) && y[i] < x[i];
            assert(x[i] == y.take(x.len() as int)[i]);
        }
    } else {
        let i = choose|i: int| 0 <= i < x.len() && i < y.len() && x.take(i) == y.take(i) && x[i] < y[i];
        if y.len() < x.len() && y == x.take(y.len() as int) {
            assert(y[i] == x.take(y.len() as int)[i]);
        }
        if exists|j: int| 0 <= j < y.len() && j < x.len() && y.take(j) == x.take(j) && y[j] < x[j] {
            let j = choose|j: int| 0 <= j < y.len() && j < x.len() && y.take(j) == x.take(j) && y[j] < x[j];
            if j < i {
                assert(x.take(i)[j] == y.take(i)[j]);
            } else if j > i {
                assert(x.take(j)[i] == y.take(j)[i]);
            }
        }
    }
}

/// Two lists of words in strictly increasing byte order that hold the same words are
/// the same list.
proof fn lemma_sorted_unique(a: Seq<Seq<char>>, b: Seq<Seq<char>>)
    requires
        sorted_by_bytes(a),
        sorted_by_bytes(b),
        forall|x: Seq<char>| a.contains(x) <==> b.contains(x),
    ensures
        a == b,
    decreases a.len(),
{
    if a.len() == 0 {
        if b.len() > 0 {
            assert(b.contains(b[0]));
        }
        assert(a =~= b);
    } else {
        assert(a.contains(a[0]));
        let j = choose|j: int| 0 <= j < b.len() && b[j] == a[0];
        assert(b.contains(b[0]));
        let i = choose|i: int| 0 <= i < a.len() && a[i] == b[0];
        if j > 0 && i > 0 {
            assert(bytes_lt(encode_utf8(b[0]), encode_utf8(b[j])));
            assert(bytes_lt(encode_utf8(a[0]), encode_utf8(a[i])));
            lemma_bytes_lt_asym(encode_utf8(b[0]), encode_utf8(b[j]));
        } else if j > 0 {
            assert(bytes_lt(encode_utf8(b[0]), encode_utf8(b[j])));
            lemma_bytes_lt_asym(encode_utf8(b[0]), encode_utf8(b[j]));
        } else if i > 0 {
            assert(bytes_lt(encode_utf8(a[0]), encode_utf8(a[i])));
            lemma_bytes_lt_asym(encode_utf8(a[0]), encode_utf8(a[i]));
        }
        assert(a[0] == b[0]);
        let a1 = a.drop_first();
        let b1 = b.drop_first();
        assert forall|x: Seq<char>| a1.contains(x) <==> b1.contains(x) by {
            if a1.contains(x) {
                let t = choose|t: int| 0 <= t < a1.len() && a1[t] == x;
                assert(a[t + 1] == x);
                assert(bytes_lt(encode_utf8(a[0]), encode_utf8(a[t + 1])));
                lemma_bytes_lt_asym(encode_utf8(a[0]), encode_utf8(a[t + 1]));
                assert(a.contains(x));
                let u = choose|u: int| 0 <= u < b.len() && b[u] == x;
                assert(u != 0);
                assert(b1[u - 1] == x);
            }
            if b1.contains(x) {
                let t = choose|t: int| 0 <= t < b1.len() && b1[t] == x;
                assert(b[t + 1] == x);
                assert(bytes_lt(encode_utf8(b[0]), encode_utf8(b[t + 1])));
                lemma_bytes_lt_asym(encode_utf8(b[0]), encode_utf8(b[t + 1]));
                assert(b.contains(x));
                let u = choose|u: int| 0 <= u < a.len() && a[u] == x;
                assert(u != 0);
                assert(a1[u - 1] == x);
            }
        }
        assert(sorted_by_bytes(a1)) by {
            assert forall|p: int, q: int| 0 <= p < q < a1.len() implies bytes_lt(
                encode_utf8(#[trigger] a1[p]),
                encode_utf8(#[trigger] a1[q]),
            ) by {
                assert(a1[p] == a[p + 1] && a1[q] == a[q + 1]);
            }
        }
        assert(sorted_by_bytes(b1)) by {
            assert forall|p: int, q: int| 0 <= p < q < b1.len() implies bytes_lt(
                encode_utf8(#[trigger] b1[p]),
                encode_utf8(#[trigger] b1[q]),
            ) by {
                assert(b1[p] == b[p + 1] && b1[q] == b[q + 1]);
            }
        }
        lemma_sorted_unique(a1, b1);
        assert(a =~= seq![a[0]] + a1);
        assert(b =~= seq![b[0]] + b1);
    }
}

/// Whether the encoding of `x` begins the encoding of every word of `vs`.
pub open spec fn begins_all(x: Seq<char>, vs: Seq<Seq<char>>) -> bool {
    forall|i: int| 0 <= i < vs.len() ==> encode_utf8(x).is_prefix_of(encode_utf8(#[trigger] vs[i]))
}

impl Trie {
    /// Where completion stops, the node's own word is the collected word whose encoding
    /// begins every other one; without a word of its own no collected word does so.
    proof fn lemma_stopped_word(self, path: Seq<u8>)
        requires
            self.wf_at(path),
            !(self.value@.len() == 0 && self.children@.len() == 1),
        ensures
            self.stored() matches Some(w) ==> self.values().contains(w) && begins_all(w, self.values()),
            self.stored() is None ==> forall|x: Seq<char>|
                self.values().contains(x) ==> !begins_all(x, self.values()),
    {
        self.lemma_wf_children(path);
        let own = if self.value@.len() > 0 {
            seq![self.value@]
        } else {
            Seq::<Seq<char>>::empty()
        };
        let cs = self.children@;
        let rest = Self::values_upto(cs, cs.len());
        assert(self.values() == own + rest);
        let vs = self.values();
        if let Some(w) = self.stored() {
            assert(vs[0] == w);
            assert(self.node_at(Seq::empty()) == Some(self));
            assert(path + Seq::<u8>::empty() =~= path);
            assert(encode_utf8(w) == path);
            assert forall|i: int| 0 <= i < vs.len() implies encode_utf8(w).is_prefix_of(
                encode_utf8(#[trigger] vs[i]),
            ) by {
                assert(vs.contains(vs[i]));
                self.lemma_values_under(path, vs[i]);
            }
        } else {
            assert forall|x: Seq<char>| vs.contains(x) implies !begins_all(x, vs) by {
                assert(own.len() == 0);
                assert(vs =~= rest);
                Self::lemma_values_upto_members(cs, cs.len(), x);
                let t = choose|t: int| 0 <= t < cs.len() && #[trigger] cs[t].values().contains(x);
                assert(cs.len() >= 2);
                let t2: int = if t == 0 { 1 } else { 0 };
                let k = self.key_of_slot(path, t);
                let k2 = self.key_of_slot(path, t2);
                self.lemma_key_of_slot(path, t);
                self.lemma_key_of_slot(path, t2);
                cs[t].lemma_values_under(path.push(k), x);
                let c2 = cs[t2];
                let q = c2.lemma_live(path.push(k2));
                let z = c2.value_at(q)->0;
                c2.lemma_values_members(path.push(k2), z);
                c2.lemma_values_under(path.push(k2), z);
                Self::lemma_values_upto_members(cs, cs.len(), z);
                assert(rest.contains(z));
                let iz = choose|iz: int| 0 <= iz < vs.len() && vs[iz] == z;
                if begins_all(x, vs) {
                    assert(encode_utf8(x).is_prefix_of(encode_utf8(vs[iz])));
                    let i = path.len() as int;
                    assert(encode_utf8(x)[i] == path.push(k)[i]);
                    assert(encode_utf8(z)[i] == path.push(k2)[i]);
                    assert(encode_utf8(x)[i] == encode_utf8(z)[i]);
                    assert(k == k2);
                    assert(false);
                }
            }
        }
    }

    /// Well-formed tries that store the same words answer alike: they collect the same
    /// words, and completion of any text finds a node in both or in neither, where the
    /// same word is stored, the same words are collected, and both are leaves or neither.
    pub proof fn lemma_same_words_same_answers(self, other: Trie, word: Seq<char>)
        requires
            self.wf(),
            other.wf(),
            self@ == other@,
        ensures
            self.values() == other.values(),
            (self.node_at(encode_utf8(word)) is Some) == (other.node_at(encode_utf8(word)) is Some),
            self.node_at(encode_utf8(word)) is Some ==> ({
                let m = self.node_at(encode_utf8(word))->0.descend();
                let m2 = other.node_at(encode_utf8(word))->0.descend();
                &&& m.stored() == m2.stored()
                &&& m.values() == m2.values()
                &&& (m.child_count() == 0) == (m2.child_count() == 0)
            }),
    {
        self.lemma_collect_values_exact();
        other.lemma_collect_values_exact();
        lemma_sorted_unique(self.values(), other.values());
        self.lemma_complete_minimal_none(word);
        other.lemma_complete_minimal_none(word);
        let b = encode_utf8(word);
        if self.node_at(b) is Some {
            let m = self.node_at(b)->0.descend();
            let m2 = other.node_at(b)->0.descend();
            assert forall|x: Seq<char>| m.values().contains(x) <==> m2.values().contains(x) by {
                self.lemma_complete_minimal_candidates(word, x);
                other.lemma_complete_minimal_candidates(word, x);
            }
            self.lemma_complete_minimal_sorted(word);
            other.lemma_complete_minimal_sorted(word);
            lemma_sorted_unique(m.values(), m2.values());
            let p = self.lemma_completion_node_wf(word);
            let p2 = other.lemma_completion_node_wf(word);
            self.node_at(b)->0.lemma_descend_stops();
            other.node_at(b)->0.lemma_descend_stops();
            m.lemma_stopped_word(p);
            m2.lemma_stopped_word(p2);
            if let Some(w) = m.stored() {
                if let Some(w2) = m2.stored() {
                    let vs = m.values();
                    let i = choose|i: int| 0 <= i < vs.len() && vs[i] == w2;
                    let j = choose|j: int| 0 <= j < vs.len() && vs[j] == w;
                    let e = encode_utf8(w);
                    let e2 = encode_utf8(w2);
                    assert(e.is_prefix_of(encode_utf8(vs[i])));
                    assert(e2.is_prefix_of(encode_utf8(vs[j])));
                    assert(e =~= e2);
                    lemma_encode_injective(w, w2);
                }
            }
            m.lemma_leaf_iff_only_own_word(p);
            m2.lemma_leaf_iff_only_own_word(p2);
        }
    }
}

impl Trie {
    /// A well-formed trie records a child for byte `k` exactly when some stored word's
    /// encoding begins with `k`.
    pub proof fn lemma_has_iff_first_byte(self, k: u8)
        requires
            self.wf(),
        ensures
            self.has(k) <==> exists|p: Seq<u8>| #[trigger]
                self@.contains_key(p) && p.len() > 0 && p[0] == k,
    {
        self.lemma_wf_children(Seq::empty());
        if self.has(k) {
            let c = self.child(k);
            assert(Seq::<u8>::empty().push(k).len() > 0);
            let q = c.lemma_live(Seq::<u8>::empty().push(k));
            self.lemma_node_at_cons(k, q);
            let p = seq![k] + q;
            assert(self@.contains_key(p) && p.len() > 0 && p[0] == k);
        }
        if exists|p: Seq<u8>| #[trigger] self@.contains_key(p) && p.len() > 0 && p[0] == k {
            let p = choose|p: Seq<u8>| #[trigger] self@.contains_key(p) && p.len() > 0 && p[0] == k;
            let q = p.drop_first();
            assert(p =~= seq![k] + q);
            self.lemma_node_at_cons(k, q);
        }
    }
}

impl Trie {
    /// Every stored word of a well-formed trie is stored under its own UTF-8 encoding.
    pub proof fn lemma_view_keys_are_encodings(self)
        requires
            self.wf(),
        ensures
            forall|k: Seq<u8>| #[trigger] self@.contains_key(k) ==> encode_utf8(self@[k]) == k,
    {
        assert forall|k: Seq<u8>| #[trigger] self@.contains_key(k) implies encode_utf8(self@[k]) == k by {
            self.lemma_wf_node(Seq::empty(), k);
            assert(Seq::<u8>::empty() + k =~= k);
            self.node_at(k)->0.lemma_stored_spells_path(k);
        }
    }

    /// After `insert(w)` (as its contract states it), the words collected from the trie
    /// are the words collected before, with `w` added when it is not empty, each once
    /// and in strictly increasing byte order.
    pub proof fn lemma_insert_collects(old_trie: Trie, new_trie: Trie, w: Seq<char>)
        requires
            old_trie.wf(),
            new_trie.wf(),
            new_trie@ == if w.len() > 0 {
                old_trie@.insert(encode_utf8(w), w)
            } else {
                old_trie@
            },
        ensures
            sorted_by_bytes(new_trie.values()),
            new_trie.values().no_duplicates(),
            forall|x: Seq<char>| #[trigger]
                new_trie.values().contains(x) <==> (old_trie.values().contains(x) || (w.len() > 0
                    && x == w)),
    {
        old_trie.lemma_collect_values_exact();
        new_trie.lemma_collect_values_exact();
        old_trie.lemma_view_keys_are_encodings();
        assert forall|x: Seq<char>| #[trigger]
            new_trie.values().contains(x) <==> (old_trie.values().contains(x) || (w.len() > 0
                && x == w)) by {
            if new_trie.values().contains(x) {
                let k = choose|k: Seq<u8>| #[trigger] new_trie@.contains_key(k) && new_trie@[k] == x;
                if !(w.len() > 0 && k == encode_utf8(w)) {
                    assert(old_trie@.contains_key(k) && old_trie@[k] == x);
                }
            }
            if old_trie.values().contains(x) {
                let k = choose|k: Seq<u8>| #[trigger] old_trie@.contains_key(k) && old_trie@[k] == x;
                if w.len() > 0 && k == encode_utf8(w) {
                    assert(encode_utf8(x) == encode_utf8(w));
                    lemma_encode_injective(x, w);
                    assert(new_trie@.contains_key(k) && new_trie@[k] == x);
                } else {
                    assert(new_trie@.contains_key(k) && new_trie@[k] == x);
                }
            }
            if w.len() > 0 && x == w {
                assert(new_trie@.contains_key(encode_utf8(w)) && new_trie@[encode_utf8(w)] == x);
            }
        }
    }

    /// Where completion stops: the node's own word, if it has one, is a collected word
    /// whose encoding begins every collected word's; without one, no collected word's
    /// encoding begins them all. The node is a leaf exactly when at most one word is
    /// collected from it.
    pub proof fn lemma_complete_minimal_node(self, word: Seq<char>)
        requires
            self.wf(),
            self.node_at(encode_utf8(word)) is Some,
        ensures
            ({
                let m = self.node_at(encode_utf8(word))->0.descend();
                &&& m.stored() matches Some(w) ==> m.values().contains(w) && begins_all(w, m.values())
                &&& m.stored() is None ==> forall|x: Seq<char>|
                    m.values().contains(x) ==> !begins_all(x, m.values())
                &&& m.child_count() == 0 <==> m.values().len() <= 1
            }),
    {
        let m = self.node_at(encode_utf8(word))->0.descend();
        let p = self.lemma_completion_node_wf(word);
        self.node_at(encode_utf8(word))->0.lemma_descend_stops();
        m.lemma_stopped_word(p);
        m.lemma_leaf_iff_only_own_word(p);
        let vs = m.values();
        if vs.len() == 1 && m.stored() is None {
            let x = vs[0];
            assert(vs.contains(x));
            assert(begins_all(x, vs)) by {
                assert forall|i: int| 0 <= i < vs.len() implies encode_utf8(x).is_prefix_of(
                    encode_utf8(#[trigger] vs[i]),
                ) by {
                    assert(encode_utf8(x) =~= encode_utf8(vs[i]).take(encode_utf8(x).len() as int));
                }
            }
        }
        if vs.len() == 0 {
            if let Some(w) = m.stored() {
                assert(vs.contains(w));
            }
        }
    }
}

/// The encoding of two texts one after the other is their encodings one after the other.
proof fn lemma_encode_concat(a: Seq<char>, b: Seq<char>)
    ensures
        encode_utf8(a + b) == encode_utf8(a) + encode_utf8(b),
    decreases a.len(),
{
    if a.len() == 0 {
        assert(a + b =~= b);
        assert(encode_utf8(a) =~= Seq::<u8>::empty());
        assert(encode_utf8(a) + encode_utf8(b) =~= encode_utf8(b));
    } else {
        assert((a + b)[0] == a[0]);
        assert((a + b).drop_first() =~= a.drop_first() + b);
        lemma_encode_concat(a.drop_first(), b);
        assert(encode_utf8(a + b) == vstd::utf8::encode_scalar(a[0] as u32) + encode_utf8(
            a.drop_first() + b,
        ));
        assert(encode_utf8(a) == vstd::utf8::encode_scalar(a[0] as u32) + encode_utf8(
            a.drop_first(),
        ));
        assert(vstd::utf8::encode_scalar(a[0] as u32) + (encode_utf8(a.drop_first()) + encode_utf8(b))
            =~= (vstd::utf8::encode_scalar(a[0] as u32) + encode_utf8(a.drop_first())) + encode_utf8(b));
    }
}

/// One text begins another exactly when its encoding begins the other's encoding.
pub proof fn lemma_prefix_iff_encoding_prefix(x: Seq<char>, y: Seq<char>)
    ensures
        x.is_prefix_of(y) <==> encode_utf8(x).is_prefix_of(encode_utf8(y)),
{
    if x.is_prefix_of(y) {
        let r = y.subrange(x.len() as int, y.len() as int);
        assert(y =~= x + r);
        lemma_encode_concat(x, r);
        assert(encode_utf8(x) =~= encode_utf8(y).take(encode_utf8(x).len() as int));
    }
    if encode_utf8(x).is_prefix_of(encode_utf8(y)) {
        let ey = encode_utf8(y);
        let e = ey.subrange(encode_utf8(x).len() as int, ey.len() as int);
        assert(ey =~= encode_utf8(x) + e);
        crate::text::lemma_encode_prefix(x, y, e);
    }
}

impl Trie {
    /// Where completion stops, over characters: the node's own word, if it has one, is
    /// a collected word that begins every collected word, and then it is their longest
    /// common prefix; without a word of its own, no collected word begins all of them,
    /// so their longest common prefix is not one of them.
    pub proof fn lemma_complete_minimal_common_prefix(self, word: Seq<char>)
        requires
            self.wf(),
            self.node_at(encode_utf8(word)) is Some,
        ensures
            ({
                let m = self.node_at(encode_utf8(word))->0.descend();
                let vs = m.values();
                &&& m.stored() matches Some(w) ==> vs.contains(w) && forall|i: int|
                    0 <= i < vs.len() ==> w.is_prefix_of(#[trigger] vs[i])
                &&& m.stored() is None ==> forall|x: Seq<char>| #[trigger]
                    vs.contains(x) ==> exists|i: int| 0 <= i < vs.len() && !x.is_prefix_of(vs[i])
            }),
    {
        self.lemma_complete_minimal_node(word);
        let m = self.node_at(encode_utf8(word))->0.descend();
        let vs = m.values();
        if let Some(w) = m.stored() {
            assert forall|i: int| 0 <= i < vs.len() implies w.is_prefix_of(#[trigger] vs[i]) by {
                lemma_prefix_iff_encoding_prefix(w, vs[i]);
            }
        } else {
            assert forall|x: Seq<char>| #[trigger] vs.contains(x) implies exists|i: int|
                0 <= i < vs.len() && !x.is_prefix_of(vs[i]) by {
                assert(!begins_all(x, vs));
                let i = choose|i: int|
                    0 <= i < vs.len() && !encode_utf8(x).is_prefix_of(encode_utf8(#[trigger] vs[i]));
                lemma_prefix_iff_encoding_prefix(x, vs[i]);
            }
        }
    }
}

} // verus!
