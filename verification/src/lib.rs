//! A doubly-traversable sequence container whose nodes store a single link
//! word: the bitwise XOR of the identities of the node's two neighbours.
//!
//! Nodes live in an arena owned by the [`List`]; a node's *identity* is its
//! one-based arena slot number, and the zero identity is reserved for "no
//! node".  A [`Cursor`] represents the gap between two adjacent elements and
//! is the only way to step through, inspect, insert into, remove from, or
//! split a list: decoding a neighbour out of a link word is well defined only
//! when the identity on the other side of the gap is already known.

use vstd::prelude::*;
use vstd::pervasive::unreached;

verus! {

/// Decoding: XOR-ing a link word `p ^ s` against one neighbour identity
/// recovers the other.
proof fn lemma_xor_decode(p: usize, s: usize)
    by (bit_vector)
    ensures
        (p ^ s) ^ p == s,
        (p ^ s) ^ s == p,
{
}

/// Retargeting: toggling a neighbour identity `o` out of a link word and a
/// new identity `n` in leaves the other side `x` untouched.
proof fn lemma_xor_retarget(x: usize, o: usize, n: usize)
    by (bit_vector)
    ensures
        ((x ^ o) ^ o) ^ n == x ^ n,
        ((o ^ x) ^ o) ^ n == x ^ n,
        x ^ o == o ^ x,
{
}

/// XOR of two identities does not depend on their order.
proof fn lemma_xor_comm(a: usize, b: usize)
    by (bit_vector)
    ensures
        a ^ b == b ^ a,
{
}

/// The two sides of a gap at position `k` partition the whole sequence.
proof fn lemma_take_skip<T>(s: Seq<T>, k: int)
    requires
        0 <= k <= s.len(),
    ensures
        s.take(k) + s.skip(k) == s,
{
    assert(s.take(k) + s.skip(k) =~= s);
}

/// Moving the last element of the prefix of length `len` across the gap.
proof fn lemma_prefix_step<T>(s: Seq<T>, len: int)
    requires
        0 < len <= s.len(),
    ensures
        s.take(len).last() == s[len - 1],
        s.take(len).drop_last() == s.take(len - 1),
        seq![s[len - 1]] + s.skip(len) == s.skip(len - 1),
{
    assert(s.take(len).drop_last() =~= s.take(len - 1));
    assert(seq![s[len - 1]] + s.skip(len) =~= s.skip(len - 1));
}

/// Moving the first element of `b` onto the end of `a`.
proof fn lemma_push_concat<T>(a: Seq<T>, b: Seq<T>)
    requires
        b.len() > 0,
    ensures
        a.push(b[0]) + b.drop_first() == a + b,
{
    assert(a.push(b[0]) + b.drop_first() =~= a + b);
}

/// One allocated node: the user's value and the XOR of the identities of the
/// node's two neighbours (zero standing in for an absent neighbour).
struct Node<T> {
    link: usize,
    value: T,
}

/// A sequence container storing one XOR link word per node.
///
/// `head` and `tail` are the identities of the first and last node, or zero
/// when the list is empty.  `slots` is the arena: the node with identity `i`
/// lives in `slots[i - 1]`; a slot is `None` once its node has been removed.
/// `chain` is the ghost list of node identities in front-to-back order.
pub struct List<T> {
    head: usize,
    tail: usize,
    slots: Vec<Option<Node<T>>>,
    chain: Ghost<Seq<usize>>,
}

impl<T> List<T> {
    /// The identity `id` names a live node of this list's arena.
    spec fn valid_id(self, id: usize) -> bool {
        &&& 1 <= id <= self.slots@.len()
        &&& self.slots@[id - 1] is Some
    }

    /// The link word stored in the node named `id`.
    spec fn link_of(self, id: usize) -> usize
        recommends
            self.valid_id(id),
    {
        self.slots@[id - 1]->0.link
    }

    /// The value stored in the node named `id`.
    spec fn value_of(self, id: usize) -> T
        recommends
            self.valid_id(id),
    {
        self.slots@[id - 1]->0.value
    }

    /// Identity of the predecessor of the node at chain position `k`
    /// (zero at the front boundary).
    spec fn pred_of(self, k: int) -> usize {
        if k == 0 {
            0
        } else {
            self.chain@[k - 1]
        }
    }

    /// Identity of the successor of the node at chain position `k`
    /// (zero at the back boundary).
    spec fn succ_of(self, k: int) -> usize {
        if k == self.chain@.len() - 1 {
            0
        } else {
            self.chain@[k + 1]
        }
    }

    /// Well-formedness: every chained identity names a live node, identities
    /// are distinct, `head`/`tail` anchor the two ends, and every node's link
    /// word equals the XOR of its true neighbour identities — the global
    /// link-consistency invariant the whole design rests on.
    pub closed spec fn wf(self) -> bool {
        let c = self.chain@;
        &&& forall|k: int| 0 <= k < c.len() ==> self.valid_id(#[trigger] c[k])
        &&& forall|k1: int, k2: int| 0 <= k1 < k2 < c.len() ==> c[k1] != c[k2]
        &&& self.head == if c.len() == 0 { 0usize } else { c[0] }
        &&& self.tail == if c.len() == 0 { 0usize } else { c[c.len() - 1] }
        &&& forall|k: int| 0 <= k < c.len()
            ==> self.link_of(#[trigger] c[k]) == self.pred_of(k) ^ self.succ_of(k)
    }
}

/// Replacing only the value of the node at chain position `k` — its link
/// word, the anchors and the chain untouched — preserves well-formedness and
/// updates the abstract contents pointwise.
proof fn lemma_value_update<T>(pre: List<T>, post: List<T>, k: int, v: T)
    requires
        pre.wf(),
        0 <= k < pre.chain@.len(),
        post.head == pre.head,
        post.tail == pre.tail,
        post.chain@ == pre.chain@,
        post.slots@ == pre.slots@.update(
            pre.chain@[k] - 1,
            Some((Node { link: pre.link_of(pre.chain@[k]), value: v })),
        ),
    ensures
        post.wf(),
        post@ == pre@.update(k, v),
        post@.take(k) == pre@.take(k),
        post@.take(k + 1) == pre@.take(k).push(v),
        post@.skip(k + 1) == pre@.skip(k + 1),
        post@.skip(k) == seq![v] + pre@.skip(k + 1),
{
    let c = pre.chain@;
    let id = c[k];
    assert(pre.valid_id(id));
    assert forall|j: int| 0 <= j < c.len() implies #[trigger] post.valid_id(c[j])
        && post.link_of(c[j]) == pre.link_of(c[j])
        && (j != k ==> post.value_of(c[j]) == pre.value_of(c[j])) by {
        assert(pre.valid_id(c[j]));
        if j != k {
            if j < k {
                assert(c[j] != c[k]);
            } else {
                assert(c[k] != c[j]);
            }
        }
    }
    assert forall|j: int| 0 <= j < c.len()
        implies post.link_of(#[trigger] c[j]) == post.pred_of(j) ^ post.succ_of(j) by {
        assert(pre.link_of(c[j]) == pre.pred_of(j) ^ pre.succ_of(j));
    }
    assert(post.wf());
    assert(post.value_of(id) == v);
    assert(post@ =~= pre@.update(k, v));
    assert(post@.take(k) =~= pre@.take(k));
    assert(post@.take(k + 1) =~= pre@.take(k).push(v));
    assert(post@.skip(k + 1) =~= pre@.skip(k + 1));
    assert(post@.skip(k) =~= seq![v] + pre@.skip(k + 1));
}

/// Splicing a fresh node `m` into the gap at chain position `k` — its link
/// the XOR of the two border identities, each border node's link retargeted
/// from the far border to `m`, and the anchors repaired at a boundary —
/// restores well-formedness and inserts the value into the abstract contents.
#[verifier::rlimit(100)]
proof fn lemma_insert_wf<T>(pre: List<T>, post: List<T>, k: int, m: usize, v: T)
    requires
        pre.wf(),
        0 <= k <= pre.chain@.len(),
        m != 0,
        !pre.chain@.contains(m),
        post.chain@ == pre.chain@.insert(k, m),
        post.valid_id(m),
        post.link_of(m) == pre.pred_of(k) ^ pre.succ_of(k - 1),
        post.value_of(m) == v,
        forall|id: usize| pre.valid_id(id)
            ==> #[trigger] post.valid_id(id) && post.value_of(id) == pre.value_of(id),
        forall|id: usize|
            pre.valid_id(id) && id != pre.pred_of(k) && id != pre.succ_of(k - 1)
                ==> #[trigger] post.link_of(id) == pre.link_of(id),
        k > 0 ==> post.link_of(pre.chain@[k - 1]) == (pre.link_of(pre.chain@[k - 1])
            ^ pre.succ_of(k - 1)) ^ m,
        k < pre.chain@.len() ==> post.link_of(pre.chain@[k]) == (pre.link_of(pre.chain@[k])
            ^ pre.pred_of(k)) ^ m,
        post.head == if k == 0 { m } else { pre.head },
        post.tail == if k == pre.chain@.len() { m } else { pre.tail },
    ensures
        post.wf(),
        post@ == pre@.insert(k, v),
{
    let c = pre.chain@;
    let cc = post.chain@;
    let b = pre.pred_of(k);
    let a = pre.succ_of(k - 1);
    c.insert_ensures(k, m);
    assert(cc.len() == c.len() + 1);
    assert forall|j: int| 0 <= j < c.len() implies #[trigger] c[j] != m by {
        assert(c.contains(c[j]) == true) by {
            assert(c[j] == c[j]);
        }
    }
    if k > 0 {
        assert(pre.valid_id(c[k - 1]));
        assert(pre.link_of(c[k - 1]) == pre.pred_of(k - 1) ^ pre.succ_of(k - 1));
        lemma_xor_retarget(pre.pred_of(k - 1), a, m);
    }
    if k < c.len() {
        assert(pre.valid_id(c[k]));
        assert(pre.link_of(c[k]) == pre.pred_of(k) ^ pre.succ_of(k));
        lemma_xor_retarget(pre.succ_of(k), b, m);
    }
    assert forall|j1: int, j2: int| 0 <= j1 < j2 < cc.len() implies cc[j1] != cc[j2] by {
        if j1 == k {
            assert(cc[j2] == c[j2 - 1]);
        } else if j2 == k {
            assert(cc[j1] == c[j1]);
        } else {
            let i1: int = if j1 < k { j1 } else { j1 - 1 };
            let i2: int = if j2 < k { j2 } else { j2 - 1 };
            assert(cc[j1] == c[i1] && cc[j2] == c[i2] && i1 < i2);
        }
    }
    assert forall|j: int| 0 <= j < cc.len() implies post.valid_id(#[trigger] cc[j]) by {
        if j != k {
            let i: int = if j < k { j } else { j - 1 };
            assert(pre.valid_id(c[i]));
        }
    }
    assert forall|j: int| 0 <= j < cc.len()
        implies post.link_of(#[trigger] cc[j]) == post.pred_of(j) ^ post.succ_of(j) by {
        if j < k - 1 {
            assert(cc[j] == c[j]);
            assert(pre.valid_id(c[j]));
            assert(c[j] != m);
            assert(c[j] != c[k - 1]);
            if k < c.len() {
                assert(c[j] != c[k]);
            }
            assert(c[j] != b && c[j] != a);
            assert(post.link_of(c[j]) == pre.link_of(c[j]));
            assert(pre.link_of(c[j]) == pre.pred_of(j) ^ pre.succ_of(j));
            assert(post.pred_of(j) == pre.pred_of(j));
            assert(post.succ_of(j) == pre.succ_of(j));
        } else if j == k - 1 {
            assert(cc[j] == c[k - 1]);
            assert(post.pred_of(j) == pre.pred_of(k - 1));
            assert(post.succ_of(j) == m);
            assert(pre.link_of(c[k - 1]) == pre.pred_of(k - 1) ^ pre.succ_of(k - 1));
            assert(pre.succ_of(k - 1) == a);
            assert(post.link_of(c[k - 1]) == ((pre.pred_of(k - 1) ^ a) ^ a) ^ m);
        } else if j == k {
            assert(cc[j] == m);
            assert(post.pred_of(j) == b && post.succ_of(j) == a);
        } else if j == k + 1 {
            assert(cc[j] == c[k]);
            assert(post.pred_of(j) == m);
            assert(post.succ_of(j) == pre.succ_of(k));
            assert(pre.link_of(c[k]) == pre.pred_of(k) ^ pre.succ_of(k));
            assert(pre.pred_of(k) == b);
            assert(post.link_of(c[k]) == ((b ^ pre.succ_of(k)) ^ b) ^ m);
            lemma_xor_comm(pre.succ_of(k), m);
        } else {
            assert(cc[j] == c[j - 1]);
            assert(pre.valid_id(c[j - 1]));
            assert(c[j - 1] != m);
            if k > 0 {
                assert(c[k - 1] != c[j - 1]);
            }
            if k < c.len() {
                assert(c[k] != c[j - 1]);
            }
            assert(c[j - 1] != b && c[j - 1] != a);
            assert(post.link_of(c[j - 1]) == pre.link_of(c[j - 1]));
            assert(pre.link_of(c[j - 1]) == pre.pred_of(j - 1) ^ pre.succ_of(j - 1));
            assert(post.pred_of(j) == pre.pred_of(j - 1));
            assert(post.succ_of(j) == pre.succ_of(j - 1));
        }
    }
    assert(post.wf());
    pre@.insert_ensures(k, v);
    assert forall|j: int| 0 <= j < cc.len() implies post@[j] == pre@.insert(k, v)[j] by {
        if j != k {
            let i: int = if j < k { j } else { j - 1 };
            assert(pre.valid_id(c[i]));
            assert(post.value_of(c[i]) == pre.value_of(c[i]));
        }
    }
    assert(post@ =~= pre@.insert(k, v));
}

/// Splicing the node at chain position `j` out — each of its border nodes'
/// links retargeted from it to the far border, and the anchors repaired at a
/// boundary — restores well-formedness and removes the value from the
/// abstract contents.
#[verifier::rlimit(100)]
proof fn lemma_remove_wf<T>(pre: List<T>, post: List<T>, j: int)
    requires
        pre.wf(),
        0 <= j < pre.chain@.len(),
        post.chain@ == pre.chain@.remove(j),
        forall|id: usize|
            pre.valid_id(id) && id != pre.chain@[j]
                ==> #[trigger] post.valid_id(id) && post.value_of(id) == pre.value_of(id),
        forall|id: usize|
            pre.valid_id(id) && id != pre.chain@[j] && id != pre.pred_of(j) && id
                != pre.succ_of(j) ==> #[trigger] post.link_of(id) == pre.link_of(id),
        j > 0 ==> post.link_of(pre.chain@[j - 1]) == (pre.link_of(pre.chain@[j - 1])
            ^ pre.chain@[j]) ^ pre.succ_of(j),
        j < pre.chain@.len() - 1 ==> post.link_of(pre.chain@[j + 1]) == (pre.link_of(
            pre.chain@[j + 1],
        ) ^ pre.chain@[j]) ^ pre.pred_of(j),
        post.head == if j == 0 { pre.succ_of(j) } else { pre.head },
        post.tail == if j == pre.chain@.len() - 1 { pre.pred_of(j) } else { pre.tail },
    ensures
        post.wf(),
        post@ == pre@.remove(j),
{
    let c = pre.chain@;
    let cc = post.chain@;
    let id = c[j];
    let b = pre.pred_of(j);
    let a = pre.succ_of(j);
    c.remove_ensures(j);
    assert(cc.len() == c.len() - 1);
    assert(pre.valid_id(id));
    if j > 0 {
        assert(pre.valid_id(c[j - 1]));
        assert(pre.link_of(c[j - 1]) == pre.pred_of(j - 1) ^ pre.succ_of(j - 1));
        lemma_xor_retarget(pre.pred_of(j - 1), id, a);
    }
    if j < c.len() - 1 {
        assert(pre.valid_id(c[j + 1]));
        assert(pre.link_of(c[j + 1]) == pre.pred_of(j + 1) ^ pre.succ_of(j + 1));
        lemma_xor_retarget(pre.succ_of(j + 1), id, b);
        lemma_xor_comm(pre.succ_of(j + 1), b);
    }
    assert forall|i1: int, i2: int| 0 <= i1 < i2 < cc.len() implies cc[i1] != cc[i2] by {
        let o1: int = if i1 < j { i1 } else { i1 + 1 };
        let o2: int = if i2 < j { i2 } else { i2 + 1 };
        assert(cc[i1] == c[o1] && cc[i2] == c[o2] && o1 < o2);
    }
    assert forall|i: int| 0 <= i < cc.len() implies post.valid_id(#[trigger] cc[i]) by {
        let o: int = if i < j { i } else { i + 1 };
        assert(pre.valid_id(c[o]));
        assert(c[o] != c[j]);
    }
    assert forall|i: int| 0 <= i < cc.len()
        implies post.link_of(#[trigger] cc[i]) == post.pred_of(i) ^ post.succ_of(i) by {
        if i < j - 1 {
            assert(cc[i] == c[i]);
            assert(pre.valid_id(c[i]));
            assert(c[i] != c[j]);
            assert(c[i] != c[j - 1]);
            if j < c.len() - 1 {
                assert(c[i] != c[j + 1]);
            }
            assert(c[i] != b && c[i] != a);
            assert(post.link_of(c[i]) == pre.link_of(c[i]));
            assert(pre.link_of(c[i]) == pre.pred_of(i) ^ pre.succ_of(i));
            assert(post.pred_of(i) == pre.pred_of(i));
            assert(post.succ_of(i) == pre.succ_of(i));
        } else if i == j - 1 {
            assert(cc[i] == c[j - 1]);
            assert(post.pred_of(i) == pre.pred_of(j - 1));
            assert(post.succ_of(i) == a);
            assert(pre.succ_of(j - 1) == id);
            assert(post.link_of(c[j - 1]) == ((pre.pred_of(j - 1) ^ id) ^ id) ^ a);
        } else if i == j {
            assert(cc[i] == c[j + 1]);
            assert(post.pred_of(i) == b);
            assert(post.succ_of(i) == pre.succ_of(j + 1));
            assert(pre.pred_of(j + 1) == id);
            assert(post.link_of(c[j + 1]) == ((id ^ pre.succ_of(j + 1)) ^ id) ^ b);
        } else {
            assert(cc[i] == c[i + 1]);
            assert(pre.valid_id(c[i + 1]));
            assert(c[i + 1] != c[j]);
            if j > 0 {
                assert(c[j - 1] != c[i + 1]);
            }
            if j < c.len() - 1 {
                assert(c[j + 1] != c[i + 1]);
            }
            assert(c[i + 1] != b && c[i + 1] != a);
            assert(post.link_of(c[i + 1]) == pre.link_of(c[i + 1]));
            assert(pre.link_of(c[i + 1]) == pre.pred_of(i + 1) ^ pre.succ_of(i + 1));
            assert(post.pred_of(i) == pre.pred_of(i + 1));
            assert(post.succ_of(i) == pre.succ_of(i + 1));
        }
    }
    assert(post.wf());
    pre@.remove_ensures(j);
    assert forall|i: int| 0 <= i < cc.len() implies post@[i] == pre@.remove(j)[i] by {
        let o: int = if i < j { i } else { i + 1 };
        assert(pre.valid_id(c[o]));
        assert(c[o] != c[j]);
        assert(post.value_of(c[o]) == pre.value_of(c[o]));
    }
    assert(post@ =~= pre@.remove(j));
}

impl<T> View for List<T> {
    type V = Seq<T>;

    /// The abstract contents: the stored values in front-to-back order.
    closed spec fn view(&self) -> Seq<T> {
        Seq::new(self.chain@.len(), |k: int| self.value_of(self.chain@[k]))
    }
}

impl<T> List<T> {
    /// Creates an empty list.
    pub fn new() -> (l: List<T>)
        ensures
            l.wf(),
            l@ == Seq::<T>::empty(),
    {
        List { head: 0, tail: 0, slots: Vec::new(), chain: Ghost(Seq::empty()) }
    }

    /// Reads the link word of the live node named `id`.
    fn read_link(&self, id: usize) -> (w: usize)
        requires
            self.valid_id(id),
        ensures
            w == self.link_of(id),
    {
        match &self.slots[id - 1] {
            Some(node) => node.link,
            None => unreached(),
        }
    }

    /// Toggles the link word of the live node named `id`: the neighbour
    /// identity `o` is XOR-ed out and the identity `n` XOR-ed in.
    fn retarget(&mut self, id: usize, o: usize, n: usize)
        requires
            old(self).valid_id(id),
        ensures
            final(self).head == old(self).head,
            final(self).tail == old(self).tail,
            final(self).chain@ == old(self).chain@,
            final(self).slots@ == old(self).slots@.update(
                id - 1,
                Some(
                    (Node {
                        link: (old(self).link_of(id) ^ o) ^ n,
                        value: old(self).value_of(id),
                    }),
                ),
            ),
    {
        let slot = &mut self.slots[id - 1];
        match slot {
            Some(node) => {
                node.link = (node.link ^ o) ^ n;
            },
            None => {
                proof {
                    assert(false);
                }
            },
        }
    }

    /// Opens a cursor sitting in the gap before the first element.
    /// The cursor checks the list out; [`Cursor::into_list`] hands it back.
    pub fn cursor_head(self) -> (c: Cursor<T>)
        requires
            self.wf(),
        ensures
            c.wf(),
            c.lhs() == Seq::<T>::empty(),
            c.rhs() == self@,
    {
        let head = self.head;
        let c = Cursor { before: 0, after: head, pos: Ghost(0), list: self };
        proof {
            assert(c.lhs() =~= Seq::<T>::empty());
            assert(c.rhs() =~= c.list@);
        }
        c
    }

    /// Opens a cursor sitting in the gap after the last element.
    pub fn cursor_tail(self) -> (c: Cursor<T>)
        requires
            self.wf(),
        ensures
            c.wf(),
            c.lhs() == self@,
            c.rhs() == Seq::<T>::empty(),
    {
        let tail = self.tail;
        let c = Cursor {
            before: tail,
            after: 0,
            pos: Ghost(self.chain@.len() as int),
            list: self,
        };
        proof {
            assert(c.lhs() =~= c.list@);
            assert(c.rhs() =~= Seq::<T>::empty());
        }
        c
    }
}

/// A position between two adjacent elements of a checked-out [`List`] (or at
/// one of its boundaries).  `before` and `after` are the identities of the
/// nodes bordering the gap, zero at a boundary; `pos` is the ghost index of
/// the gap, counting the elements to its left.
pub struct Cursor<T> {
    before: usize,
    after: usize,
    pos: Ghost<int>,
    list: List<T>,
}

impl<T> Cursor<T> {
    /// Well-formedness: the underlying list is well formed and the border
    /// identities agree with the ghost gap position.
    pub closed spec fn wf(self) -> bool {
        let c = self.list.chain@;
        &&& self.list.wf()
        &&& 0 <= self.pos@ <= c.len()
        &&& self.before == if self.pos@ == 0 { 0usize } else { c[self.pos@ - 1] }
        &&& self.after == if self.pos@ == c.len() { 0usize } else { c[self.pos@] }
    }

    /// The elements to the left of the gap, in list order.
    pub closed spec fn lhs(self) -> Seq<T> {
        self.list@.take(self.pos@)
    }

    /// The elements to the right of the gap, in list order.
    pub closed spec fn rhs(self) -> Seq<T> {
        self.list@.skip(self.pos@)
    }

    /// Steps the gap one element to the right, returning a mutable reference
    /// to the element stepped over, or `None` when the gap is already at the
    /// back boundary.
    #[verifier::rlimit(100)]
    pub fn next(&mut self) -> (r: Option<&mut T>)
        requires
            old(self).wf(),
        ensures
            old(self).rhs().len() == 0 ==> r is None && *final(self) == *old(self),
            old(self).rhs().len() > 0 ==> (match r {
                Some(p) => {
                    &&& *p == old(self).rhs()[0]
                    &&& final(self).wf()
                    &&& final(self).lhs() == old(self).lhs().push(*final(p))
                    &&& final(self).rhs() == old(self).rhs().drop_first()
                },
                None => false,
            }),
    {
        let ghost k = self.pos@;
        proof {
            if k < self.list.chain@.len() {
                assert(self.list.valid_id(self.list.chain@[k]));
            }
        }
        if self.after == 0 {
            proof {
                assert(self.rhs() =~= Seq::<T>::empty());
            }
            return None;
        }
        let n = self.after;
        let link = self.list.read_link(n);
        let new_after = link ^ self.before;
        proof {
            lemma_xor_decode(self.list.pred_of(k), self.list.succ_of(k));
            assert(new_after == self.list.succ_of(k));
        }
        self.before = n;
        self.after = new_after;
        proof {
            self.pos@ = k + 1;
        }
        let ghost pre = self.list;
        let ghost lk = self.list.link_of(n);
        let slot = &mut self.list.slots[n - 1];
        match slot {
            Some(node) => {
                let p = &mut node.value;
                proof {
                    assert forall|s: Option<Node<T>>, postl: List<T>|
                        #![trigger postl.slots@, pre.slots@.update(n - 1, s)]
                        postl.head == pre.head && postl.tail == pre.tail
                            && postl.chain@ == pre.chain@ && s is Some && s->0.link == lk
                            && postl.slots@ == pre.slots@.update(n - 1, s)
                        implies postl.wf() && postl@ == pre@.update(k, s->0.value)
                            && postl@.take(k + 1) == pre@.take(k).push(s->0.value)
                            && postl@.skip(k + 1) == pre@.skip(k + 1) by {
                        lemma_value_update(pre, postl, k, s->0.value);
                    }
                }
                Some(p)
            },
            None => unreached(),
        }
    }

    /// Steps the gap one element to the left, returning a mutable reference
    /// to the element stepped over, or `None` when the gap is already at the
    /// front boundary.
    #[verifier::rlimit(100)]
    pub fn prev(&mut self) -> (r: Option<&mut T>)
        requires
            old(self).wf(),
        ensures
            old(self).lhs().len() == 0 ==> r is None && *final(self) == *old(self),
            old(self).lhs().len() > 0 ==> (match r {
                Some(p) => {
                    &&& *p == old(self).lhs().last()
                    &&& final(self).wf()
                    &&& final(self).lhs() == old(self).lhs().drop_last()
                    &&& final(self).rhs() == seq![*final(p)] + old(self).rhs()
                },
                None => false,
            }),
    {
        let ghost k = self.pos@;
        proof {
            if k > 0 {
                assert(self.list.valid_id(self.list.chain@[k - 1]));
            }
        }
        if self.before == 0 {
            proof {
                assert(self.lhs() =~= Seq::<T>::empty());
            }
            return None;
        }
        let b = self.before;
        let link = self.list.read_link(b);
        let new_before = link ^ self.after;
        proof {
            lemma_xor_decode(self.list.pred_of(k - 1), self.list.succ_of(k - 1));
            assert(new_before == self.list.pred_of(k - 1));
        }
        self.after = b;
        self.before = new_before;
        proof {
            self.pos@ = k - 1;
        }
        let ghost pre = self.list;
        let ghost lk = self.list.link_of(b);
        proof {
            assert(pre@.take(k - 1) =~= pre@.take(k).drop_last());
        }
        let slot = &mut self.list.slots[b - 1];
        match slot {
            Some(node) => {
                let p = &mut node.value;
                proof {
                    assert forall|s: Option<Node<T>>, postl: List<T>|
                        #![trigger postl.slots@, pre.slots@.update(b - 1, s)]
                        postl.head == pre.head && postl.tail == pre.tail
                            && postl.chain@ == pre.chain@ && s is Some && s->0.link == lk
                            && postl.slots@ == pre.slots@.update(b - 1, s)
                        implies postl.wf() && postl@.take(k - 1) == pre@.take(k - 1)
                            && postl@.skip(k - 1) == seq![s->0.value] + pre@.skip(k) by {
                        lemma_value_update(pre, postl, k - 1, s->0.value);
                    }
                }
                Some(p)
            },
            None => unreached(),
        }
    }

    /// Splices a fresh node holding `value` into the cursor's gap and
    /// returns its identity; the border identities and the ghost position
    /// are left for the caller to re-point at the new node.
    #[verifier::rlimit(100)]
    fn insert(&mut self, value: T) -> (m: usize)
        requires
            old(self).wf(),
        ensures
            m != 0,
            final(self).list.wf(),
            final(self).list.chain@ == old(self).list.chain@.insert(old(self).pos@, m),
            final(self).list@ == old(self).list@.insert(old(self).pos@, value),
            final(self).before == old(self).before,
            final(self).after == old(self).after,
            final(self).pos@ == old(self).pos@,
    {
        let ghost k = self.pos@;
        let ghost pre = self.list;
        proof {
            if k < pre.chain@.len() {
                assert(pre.valid_id(pre.chain@[k]));
            }
            if k > 0 {
                assert(pre.valid_id(pre.chain@[k - 1]));
            }
        }
        let b = self.before;
        let a = self.after;
        self.list.slots.push(Some(Node { link: b ^ a, value }));
        let m = self.list.slots.len();
        proof {
            self.list.chain@ = pre.chain@.insert(k, m);
        }
        if b != 0 {
            self.list.retarget(b, a, m);
        } else {
            self.list.head = m;
        }
        if a != 0 {
            self.list.retarget(a, b, m);
        } else {
            self.list.tail = m;
        }
        proof {
            let post = self.list;
            assert(b == pre.pred_of(k));
            assert(a == pre.succ_of(k - 1));
            assert(!pre.chain@.contains(m)) by {
                if pre.chain@.contains(m) {
                    let j = choose|j: int|
                        0 <= j < pre.chain@.len() && pre.chain@[j] == m;
                    assert(pre.valid_id(pre.chain@[j]));
                }
            }
            assert(post.valid_id(m) && post.link_of(m) == b ^ a && post.value_of(m)
                == value);
            assert forall|id: usize| pre.valid_id(id) implies #[trigger] post.valid_id(id)
                && post.value_of(id) == pre.value_of(id) by {
                assert(id < m);
            }
            assert forall|id: usize| pre.valid_id(id) && id != b && id != a
                implies #[trigger] post.link_of(id) == pre.link_of(id) by {
                assert(id < m);
            }
            lemma_insert_wf(pre, post, k, m, value);
        }
        m
    }

    /// Inserts `value` into the gap, on its `after` side: the new element
    /// becomes the head of the right-hand part, and stepping forward next
    /// visits it.
    #[verifier::rlimit(100)]
    pub fn insert_next(&mut self, value: T)
        requires
            old(self).wf(),
        ensures
            final(self).wf(),
            final(self).lhs() == old(self).lhs(),
            final(self).rhs() == seq![value] + old(self).rhs(),
    {
        let m = self.insert(value);
        self.after = m;
        proof {
            let k = old(self).pos@;
            old(self).list.chain@.insert_ensures(k, m);
            old(self).list@.insert_ensures(k, value);
            assert(self.wf());
            assert(self.lhs() =~= old(self).lhs());
            assert(self.rhs() =~= seq![value] + old(self).rhs());
        }
    }

    /// Inserts `value` into the gap, on its `before` side: the new element
    /// becomes the last of the left-hand part, and stepping backward next
    /// visits it.
    #[verifier::rlimit(100)]
    pub fn insert_prev(&mut self, value: T)
        requires
            old(self).wf(),
        ensures
            final(self).wf(),
            final(self).lhs() == old(self).lhs().push(value),
            final(self).rhs() == old(self).rhs(),
    {
        let m = self.insert(value);
        self.before = m;
        proof {
            let k = old(self).pos@;
            self.pos@ = k + 1;
            old(self).list.chain@.insert_ensures(k, m);
            old(self).list@.insert_ensures(k, value);
            assert(self.wf());
            assert(self.lhs() =~= old(self).lhs().push(value));
            assert(self.rhs() =~= old(self).rhs());
        }
    }

    /// Splices the node named `n`, sitting at chain position `j`, out of the
    /// list and returns its value, freeing its arena slot.  The cursor's
    /// border identities must already have been re-pointed at `n`'s two
    /// neighbours.
    #[verifier::rlimit(100)]
    fn remove(&mut self, n: usize, j: Ghost<int>) -> (v: T)
        requires
            old(self).list.wf(),
            0 <= j@ < old(self).list.chain@.len(),
            old(self).list.chain@[j@] == n,
            old(self).before == old(self).list.pred_of(j@),
            old(self).after == old(self).list.succ_of(j@),
        ensures
            v == old(self).list@[j@],
            final(self).list.wf(),
            final(self).list.chain@ == old(self).list.chain@.remove(j@),
            final(self).list@ == old(self).list@.remove(j@),
            final(self).before == old(self).before,
            final(self).after == old(self).after,
            final(self).pos@ == old(self).pos@,
    {
        let ghost pre = self.list;
        let b = self.before;
        let a = self.after;
        proof {
            assert(pre.valid_id(n));
            if j@ > 0 {
                assert(pre.valid_id(pre.chain@[j@ - 1]));
            }
            if j@ < pre.chain@.len() - 1 {
                assert(pre.valid_id(pre.chain@[j@ + 1]));
            }
        }
        if a != 0 {
            self.list.retarget(a, n, b);
        } else {
            self.list.tail = b;
        }
        if b != 0 {
            self.list.retarget(b, n, a);
        } else {
            self.list.head = a;
        }
        proof {
            self.list.chain@ = pre.chain@.remove(j@);
        }
        let mut taken: Option<Node<T>> = None;
        let slot = &mut self.list.slots[n - 1];
        core::mem::swap(&mut taken, slot);
        proof {
            let post = self.list;
            assert forall|id: usize| pre.valid_id(id) && id != n
                implies #[trigger] post.valid_id(id) && post.value_of(id) == pre.value_of(
                id,
            ) by {
                assert(id - 1 != n - 1);
            }
            assert forall|id: usize| pre.valid_id(id) && id != n && id != b && id != a
                implies #[trigger] post.link_of(id) == pre.link_of(id) by {
                assert(id - 1 != n - 1);
            }
            lemma_remove_wf(pre, post, j@);
        }
        match taken {
            Some(node) => node.value,
            None => unreached(),
        }
    }

    /// Removes the element just after the gap and returns its value, or
    /// returns `None` when the gap is at the back boundary.
    #[verifier::rlimit(100)]
    pub fn remove_next(&mut self) -> (r: Option<T>)
        requires
            old(self).wf(),
        ensures
            old(self).rhs().len() == 0 ==> r is None && *final(self) == *old(self),
            old(self).rhs().len() > 0 ==> {
                &&& r == Some(old(self).rhs()[0])
                &&& final(self).wf()
                &&& final(self).lhs() == old(self).lhs()
                &&& final(self).rhs() == old(self).rhs().drop_first()
            },
    {
        let ghost k = self.pos@;
        proof {
            if k < self.list.chain@.len() {
                assert(self.list.valid_id(self.list.chain@[k]));
            }
        }
        if self.after == 0 {
            proof {
                assert(self.rhs() =~= Seq::<T>::empty());
            }
            return None;
        }
        let n = self.after;
        let link = self.list.read_link(n);
        let new_after = link ^ self.before;
        proof {
            lemma_xor_decode(self.list.pred_of(k), self.list.succ_of(k));
            assert(new_after == self.list.succ_of(k));
        }
        self.after = new_after;
        let v = self.remove(n, Ghost(k));
        proof {
            old(self).list.chain@.remove_ensures(k);
            old(self).list@.remove_ensures(k);
            assert(self.wf());
            assert(self.lhs() =~= old(self).lhs());
            assert(self.rhs() =~= old(self).rhs().drop_first());
        }
        Some(v)
    }

    /// Removes the element just before the gap and returns its value, or
    /// returns `None` when the gap is at the front boundary.
    #[verifier::rlimit(100)]
    pub fn remove_prev(&mut self) -> (r: Option<T>)
        requires
            old(self).wf(),
        ensures
            old(self).lhs().len() == 0 ==> r is None && *final(self) == *old(self),
            old(self).lhs().len() > 0 ==> {
                &&& r == Some(old(self).lhs().last())
                &&& final(self).wf()
                &&& final(self).lhs() == old(self).lhs().drop_last()
                &&& final(self).rhs() == old(self).rhs()
            },
    {
        let ghost k = self.pos@;
        proof {
            if k > 0 {
                assert(self.list.valid_id(self.list.chain@[k - 1]));
            }
        }
        if self.before == 0 {
            proof {
                assert(self.lhs() =~= Seq::<T>::empty());
            }
            return None;
        }
        let n = self.before;
        let link = self.list.read_link(n);
        let new_before = link ^ self.after;
        proof {
            lemma_xor_decode(self.list.pred_of(k - 1), self.list.succ_of(k - 1));
            assert(new_before == self.list.pred_of(k - 1));
        }
        self.before = new_before;
        let v = self.remove(n, Ghost(k - 1));
        proof {
            self.pos@ = k - 1;
            old(self).list.chain@.remove_ensures(k - 1);
            old(self).list@.remove_ensures(k - 1);
            assert(self.wf());
            assert(self.lhs() =~= old(self).lhs().drop_last());
            assert(self.rhs() =~= old(self).rhs());
        }
        Some(v)
    }

    /// Detaches everything before the gap into a list of its own, leaving
    /// this cursor at the front of the remaining elements.  Each detached
    /// node is re-linked in the new list's arena, so the two lists share no
    /// node and both keep every link word consistent.
    #[verifier::rlimit(100)]
    pub fn split_before(&mut self) -> (out: List<T>)
        requires
            old(self).wf(),
        ensures
            final(self).wf(),
            out.wf(),
            out@ == old(self).lhs(),
            final(self).lhs() == Seq::<T>::empty(),
            final(self).rhs() == old(self).rhs(),
            out@ + final(self).rhs() == old(self).lhs() + old(self).rhs(),
    {
        let mut c = List::new().cursor_head();
        while self.before != 0
            invariant
                self.wf(),
                c.wf(),
                c.lhs().len() == 0,
                self.rhs() == old(self).rhs(),
                self.lhs().len() <= old(self).lhs().len(),
                self.lhs() == old(self).lhs().take(self.lhs().len() as int),
                c.rhs() == old(self).lhs().skip(self.lhs().len() as int),
            decreases self.lhs().len(),
        {
            let ghost len = self.lhs().len() as int;
            proof {
                assert(self.pos@ > 0);
            }
            let v = match self.remove_prev() {
                Some(v) => v,
                None => unreached(),
            };
            c.insert_next(v);
            proof {
                lemma_prefix_step(old(self).lhs(), len);
                assert(self.lhs() == old(self).lhs().take(len - 1));
                assert(c.rhs() == old(self).lhs().skip(len - 1));
            }
        }
        proof {
            if self.pos@ > 0 {
                assert(self.list.valid_id(self.list.chain@[self.pos@ - 1]));
            }
            assert(self.lhs() =~= Seq::<T>::empty());
            assert(old(self).lhs().skip(0) =~= old(self).lhs());
        }
        c.into_list()
    }

    /// Detaches everything after the gap into a list of its own, leaving
    /// this cursor at the back of the remaining elements.  Each detached
    /// node is re-linked in the new list's arena, so the two lists share no
    /// node and both keep every link word consistent.
    #[verifier::rlimit(100)]
    pub fn split_after(&mut self) -> (out: List<T>)
        requires
            old(self).wf(),
        ensures
            final(self).wf(),
            out.wf(),
            out@ == old(self).rhs(),
            final(self).lhs() == old(self).lhs(),
            final(self).rhs() == Seq::<T>::empty(),
            final(self).lhs() + out@ == old(self).lhs() + old(self).rhs(),
    {
        let mut c = List::new().cursor_head();
        while self.after != 0
            invariant
                self.wf(),
                c.wf(),
                c.rhs().len() == 0,
                self.lhs() == old(self).lhs(),
                c.lhs() + self.rhs() == old(self).rhs(),
            decreases self.rhs().len(),
        {
            proof {
                assert(self.pos@ < self.list.chain@.len());
            }
            let ghost done = c.lhs();
            let ghost rest = self.rhs();
            let v = match self.remove_next() {
                Some(v) => v,
                None => unreached(),
            };
            c.insert_prev(v);
            proof {
                lemma_push_concat(done, rest);
            }
        }
        proof {
            if self.pos@ < self.list.chain@.len() {
                assert(self.list.valid_id(self.list.chain@[self.pos@]));
            }
            assert(self.rhs() =~= Seq::<T>::empty());
            assert(c.lhs() + self.rhs() =~= c.lhs());
        }
        c.into_list()
    }

    /// Releases the cursor, handing the list back.
    pub fn into_list(self) -> (l: List<T>)
        requires
            self.wf(),
        ensures
            l.wf(),
            l@ == self.lhs() + self.rhs(),
    {
        proof {
            lemma_take_skip(self.list@, self.pos@);
        }
        self.list
    }
}

/// Round-trip traversal.  Starting from the front gap of a list holding
/// `s`, the gap reached after `k` forward steps borders
/// `(s.take(k), s.skip(k))`; the next forward step returns `s[k]` and moves
/// the gap to `(s.take(k + 1), s.skip(k + 1))`, so `s.len()` forward steps
/// return exactly the elements of `s` in order.  Starting from the back gap
/// `(s.take(s.len()), s.skip(s.len()))`, the gap reached after `k` backward
/// steps borders `(s.take(s.len() - k), s.skip(s.len() - k))`; the next
/// backward step returns `s[s.len() - k - 1]`, so `s.len()` backward steps
/// return the same elements in reverse order.
pub proof fn lemma_round_trip<T>(s: Seq<T>, k: int)
    requires
        0 <= k < s.len(),
    ensures
        s.skip(k)[0] == s[k],
        s.take(k).push(s[k]) == s.take(k + 1),
        s.skip(k).drop_first() == s.skip(k + 1),
        s.take(s.len() - k).last() == s[s.len() - k - 1],
        s.take(s.len() - k).drop_last() == s.take(s.len() - k - 1),
        seq![s[s.len() - k - 1]] + s.skip(s.len() - k) == s.skip(s.len() - k - 1),
{
    assert(s.take(k).push(s[k]) =~= s.take(k + 1));
    assert(s.skip(k).drop_first() =~= s.skip(k + 1));
    assert(s.take(s.len() - k).drop_last() =~= s.take(s.len() - k - 1));
    assert(seq![s[s.len() - k - 1]] + s.skip(s.len() - k) =~= s.skip(s.len() - k - 1));
}

/// Insertion and removal are inverse.  From a gap bordering `(lhs, rhs)`,
/// inserting `v` on the after side gives `(lhs, seq![v] + rhs)`; the forward
/// step over it returns `v` and gives `(lhs.push(v), rhs)`; removing before
/// the gap returns `v` again and restores exactly `(lhs, rhs)`.
pub proof fn lemma_insert_step_remove<T>(lhs: Seq<T>, rhs: Seq<T>, v: T)
    ensures
        (seq![v] + rhs)[0] == v,
        (seq![v] + rhs).drop_first() == rhs,
        lhs.push(v).last() == v,
        lhs.push(v).drop_last() == lhs,
{
    assert((seq![v] + rhs).drop_first() =~= rhs);
    assert(lhs.push(v).drop_last() =~= lhs);
}

} // verus!
