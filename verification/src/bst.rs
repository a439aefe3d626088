//! An AVL-balanced binary search tree mapping `i64` keys to arbitrary values.
//!
//! Every mutating operation takes ownership of a subtree slot
//! (`&mut Option<Box<BSTNode<V>>>`), transforms the subtree, and writes the
//! replacement root back, so rotations can change which node is on top
//! without aliasing.
//!
//! Duplicate keys are permitted: an equal key is routed into the right
//! subtree, and the maintained ordering invariant is "left at most the
//! node's key, right at least it" (rotations can carry a duplicate into a
//! left subtree). Insertion rebalances on the way back up; deletion
//! refreshes the cached heights on its way up but, by design, does not
//! re-run the rotation logic, so only insertion promises to keep the
//! balance-factor invariant.
//!
//! Each mutating operation's contract pins the exact resulting tree: a
//! spec-level mirror (`s_rotate_left`, `s_rebalance`, `s_insert`,
//! `s_extract_min`, `s_delete`) constructs the result, and the `ensures`
//! equate the operation's outcome with it, besides the abstract clauses
//! over the stored multiset (`kvs`), the in-order sequence (`kv_seq`),
//! well-formedness and balance.

use vstd::multiset::Multiset;
use vstd::prelude::*;

verus! {

broadcast use vstd::multiset::group_multiset_axioms;

/// A tree node: key, value, cached subtree height (1 for a leaf), and
/// exclusively owned optional children.
#[derive(Debug)]
pub struct BSTNode<V> {
    pub key: i64,
    pub value: V,
    pub height: u64,
    pub left: Option<Box<BSTNode<V>>>,
    pub right: Option<Box<BSTNode<V>>>,
}

/// A balanced ordered map: a handle owning zero or one root node.
#[derive(Debug)]
pub struct BST<V> {
    pub root: Option<Box<BSTNode<V>>>,
}

pub open spec fn nat_max(a: nat, b: nat) -> nat {
    if a >= b {
        a
    } else {
        b
    }
}

/// Height of a subtree: 0 for an absent child, 1 for a leaf.
pub open spec fn ht<V>(t: Option<Box<BSTNode<V>>>) -> nat
    decreases t,
{
    match t {
        None => 0,
        Some(n) => n_ht(*n),
    }
}

pub open spec fn n_ht<V>(n: BSTNode<V>) -> nat
    decreases n,
{
    1 + nat_max(ht(n.left), ht(n.right))
}

/// The multiset of key/value pairs stored in a subtree.
pub open spec fn kvs<V>(t: Option<Box<BSTNode<V>>>) -> Multiset<(i64, V)>
    decreases t,
{
    match t {
        None => Multiset::empty(),
        Some(n) => n_kvs(*n),
    }
}

pub open spec fn n_kvs<V>(n: BSTNode<V>) -> Multiset<(i64, V)>
    decreases n,
{
    kvs(n.left).add(kvs(n.right)).insert((n.key, n.value))
}

/// The in-order sequence of key/value pairs of a subtree.
pub open spec fn kv_seq<V>(t: Option<Box<BSTNode<V>>>) -> Seq<(i64, V)>
    decreases t,
{
    match t {
        None => Seq::empty(),
        Some(n) => n_kv_seq(*n),
    }
}

pub open spec fn n_kv_seq<V>(n: BSTNode<V>) -> Seq<(i64, V)>
    decreases n,
{
    kv_seq(n.left) + seq![(n.key, n.value)] + kv_seq(n.right)
}

pub open spec fn all_keys_le<V>(t: Option<Box<BSTNode<V>>>, k: i64) -> bool {
    forall|p: (i64, V)| #[trigger] kvs(t).count(p) > 0 ==> p.0 <= k
}

pub open spec fn all_keys_ge<V>(t: Option<Box<BSTNode<V>>>, k: i64) -> bool {
    forall|p: (i64, V)| #[trigger] kvs(t).count(p) > 0 ==> p.0 >= k
}

/// Binary-search-tree ordering: keys in a left subtree are at most the
/// node's key, keys in a right subtree are greater-or-equal. (A freshly
/// inserted duplicate is always routed right, but a later rotation may
/// carry a node of equal key into a left subtree, so the left-side bound
/// is non-strict.)
pub open spec fn bst_ok<V>(t: Option<Box<BSTNode<V>>>) -> bool
    decreases t,
{
    match t {
        None => true,
        Some(n) => n_bst_ok(*n),
    }
}

pub open spec fn n_bst_ok<V>(n: BSTNode<V>) -> bool
    decreases n,
{
    &&& bst_ok(n.left)
    &&& bst_ok(n.right)
    &&& all_keys_le(n.left, n.key)
    &&& all_keys_ge(n.right, n.key)
}

/// The cached `height` field of every node equals the node's real height.
pub open spec fn hts_ok<V>(t: Option<Box<BSTNode<V>>>) -> bool
    decreases t,
{
    match t {
        None => true,
        Some(n) => n_hts_ok(*n),
    }
}

pub open spec fn n_hts_ok<V>(n: BSTNode<V>) -> bool
    decreases n,
{
    &&& hts_ok(n.left)
    &&& hts_ok(n.right)
    &&& n.height == n_ht(n)
}

/// AVL balance: at every node the child heights differ by at most one.
pub open spec fn bal_ok<V>(t: Option<Box<BSTNode<V>>>) -> bool
    decreases t,
{
    match t {
        None => true,
        Some(n) => n_bal_ok(*n),
    }
}

pub open spec fn n_bal_ok<V>(n: BSTNode<V>) -> bool
    decreases n,
{
    &&& bal_ok(n.left)
    &&& bal_ok(n.right)
    &&& -1 <= ht(n.right) - ht(n.left) <= 1
}

/// Well-formedness: ordering plus correct cached heights.
pub open spec fn wf<V>(t: Option<Box<BSTNode<V>>>) -> bool {
    bst_ok(t) && hts_ok(t)
}

/// Ordering and cached heights hold for the children of `n` and the
/// node-level key bounds hold, but `n.height` itself may be stale.
pub open spec fn n_pre_wf<V>(n: BSTNode<V>) -> bool {
    &&& bst_ok(n.left)
    &&& bst_ok(n.right)
    &&& hts_ok(n.left)
    &&& hts_ok(n.right)
    &&& all_keys_le(n.left, n.key)
    &&& all_keys_ge(n.right, n.key)
}

/// `n` with its cached height recomputed from the children.
pub open spec fn s_update_height<V>(n: BSTNode<V>) -> BSTNode<V> {
    BSTNode {
        key: n.key,
        value: n.value,
        height: (1 + nat_max(ht(n.left), ht(n.right))) as u64,
        left: n.left,
        right: n.right,
    }
}

/// The exact tree a left rotation produces: the right child is promoted,
/// the old root becomes its left child and adopts the promoted node's
/// former left subtree; both refreshed heights included.
pub open spec fn s_rotate_left<V>(n: BSTNode<V>) -> BSTNode<V>
    recommends
        n.right is Some,
{
    let rr = *n.right.unwrap();
    let demoted = s_update_height(
        BSTNode { key: n.key, value: n.value, height: n.height, left: n.left, right: rr.left },
    );
    s_update_height(
        BSTNode {
            key: rr.key,
            value: rr.value,
            height: rr.height,
            left: Some(Box::new(demoted)),
            right: rr.right,
        },
    )
}

/// Mirror of `s_rotate_left`.
pub open spec fn s_rotate_right<V>(n: BSTNode<V>) -> BSTNode<V>
    recommends
        n.left is Some,
{
    let ll = *n.left.unwrap();
    let demoted = s_update_height(
        BSTNode { key: n.key, value: n.value, height: n.height, left: ll.right, right: n.right },
    );
    s_update_height(
        BSTNode {
            key: ll.key,
            value: ll.value,
            height: ll.height,
            left: ll.left,
            right: Some(Box::new(demoted)),
        },
    )
}

/// The exact tree the AVL fixup produces: refresh the height, then apply
/// zero or one (possibly double) rotation, the case decided by the real
/// child heights.
pub open spec fn s_rebalance<V>(n: BSTNode<V>) -> BSTNode<V> {
    let m = s_update_height(n);
    let factor = ht(n.right) - ht(n.left);
    if factor < -1 {
        let l0 = *n.left.unwrap();
        if ht(l0.right) - ht(l0.left) > 0 {
            s_rotate_right(
                BSTNode {
                    key: m.key,
                    value: m.value,
                    height: m.height,
                    left: Some(Box::new(s_rotate_left(l0))),
                    right: m.right,
                },
            )
        } else {
            s_rotate_right(m)
        }
    } else if factor > 1 {
        let r0 = *n.right.unwrap();
        if ht(r0.right) - ht(r0.left) < 0 {
            s_rotate_left(
                BSTNode {
                    key: m.key,
                    value: m.value,
                    height: m.height,
                    left: m.left,
                    right: Some(Box::new(s_rotate_right(r0))),
                },
            )
        } else {
            s_rotate_left(m)
        }
    } else {
        m
    }
}

/// The exact tree insertion produces: a fresh leaf in an empty slot, and
/// otherwise the descent (left on smaller, right on greater-or-equal)
/// followed by the fixup on the way back up.
pub open spec fn s_insert<V>(t: Option<Box<BSTNode<V>>>, k: i64, v: V) -> Option<
    Box<BSTNode<V>>,
>
    decreases t,
{
    match t {
        None => Some(
            Box::new(BSTNode { key: k, value: v, height: 1, left: None, right: None }),
        ),
        Some(b) => {
            let x = *b;
            let x1 = if k < x.key {
                BSTNode {
                    key: x.key,
                    value: x.value,
                    height: x.height,
                    left: s_insert(x.left, k, v),
                    right: x.right,
                }
            } else {
                BSTNode {
                    key: x.key,
                    value: x.value,
                    height: x.height,
                    left: x.left,
                    right: s_insert(x.right, k, v),
                }
            };
            Some(Box::new(s_rebalance(x1)))
        },
    }
}

/// The exact pair extract-min produces: the detached leftmost node (its
/// right child moved into the remainder, its cached height left stale)
/// and the remainder with every ancestor's height refreshed.
pub open spec fn s_extract_min<V>(n: BSTNode<V>) -> (BSTNode<V>, Option<Box<BSTNode<V>>>)
    decreases n,
{
    match n.left {
        Some(l) => {
            let sub = s_extract_min(*l);
            (
                sub.0,
                Some(
                    Box::new(
                        s_update_height(
                            BSTNode {
                                key: n.key,
                                value: n.value,
                                height: n.height,
                                left: sub.1,
                                right: n.right,
                            },
                        ),
                    ),
                ),
            )
        },
        None => (
            BSTNode { key: n.key, value: n.value, height: n.height, left: n.left, right: None },
            n.right,
        ),
    }
}

/// The exact tree deletion produces: descend by comparison, refresh the
/// heights on the way back up; an equal key is replaced by nothing, its
/// only child, or the right subtree's extracted minimum node carrying the
/// old left subtree.
pub open spec fn s_delete<V>(t: Option<Box<BSTNode<V>>>, k: i64) -> Option<Box<BSTNode<V>>>
    decreases t,
{
    match t {
        None => None,
        Some(b) => {
            let x = *b;
            if k < x.key {
                Some(
                    Box::new(
                        s_update_height(
                            BSTNode {
                                key: x.key,
                                value: x.value,
                                height: x.height,
                                left: s_delete(x.left, k),
                                right: x.right,
                            },
                        ),
                    ),
                )
            } else if k > x.key {
                Some(
                    Box::new(
                        s_update_height(
                            BSTNode {
                                key: x.key,
                                value: x.value,
                                height: x.height,
                                left: x.left,
                                right: s_delete(x.right, k),
                            },
                        ),
                    ),
                )
            } else if x.left is None && x.right is None {
                None
            } else if x.right is None {
                x.left
            } else if x.left is None {
                x.right
            } else {
                let sub = s_extract_min(*x.right.unwrap());
                Some(
                    Box::new(
                        s_update_height(
                            BSTNode {
                                key: sub.0.key,
                                value: sub.0.value,
                                height: sub.0.height,
                                left: x.left,
                                right: sub.1,
                            },
                        ),
                    ),
                )
            }
        },
    }
}

/// The value found for `k` by the standard ternary-comparison descent.
pub open spec fn spec_find<V>(t: Option<Box<BSTNode<V>>>, k: i64) -> Option<V>
    decreases t,
{
    match t {
        None => None,
        Some(n) => n_spec_find(*n, k),
    }
}

pub open spec fn n_spec_find<V>(n: BSTNode<V>, k: i64) -> Option<V>
    decreases n,
{
    if k < n.key {
        spec_find(n.left, k)
    } else if k > n.key {
        spec_find(n.right, k)
    } else {
        Some(n.value)
    }
}

/// The leftmost (minimum-key) pair of a nonempty subtree.
pub open spec fn n_min_pair<V>(n: BSTNode<V>) -> (i64, V)
    decreases n,
{
    match n.left {
        Some(l) => n_min_pair(*l),
        None => (n.key, n.value),
    }
}

/// The rightmost (maximum-key) pair of a nonempty subtree.
pub open spec fn n_max_pair<V>(n: BSTNode<V>) -> (i64, V)
    decreases n,
{
    match n.right {
        Some(r) => n_max_pair(*r),
        None => (n.key, n.value),
    }
}

/// The value the successor descent yields for `k`.
pub open spec fn n_spec_succ<V>(n: BSTNode<V>, k: i64) -> Option<V>
    decreases n,
{
    if k == n.key {
        match n.right {
            Some(r) => Some(n_min_pair(*r).1),
            None => None,
        }
    } else if k < n.key {
        match n.left {
            Some(l) => if n_spec_succ(*l, k) is Some {
                n_spec_succ(*l, k)
            } else {
                Some(n.value)
            },
            None => Some(n.value),
        }
    } else {
        match n.right {
            Some(r) => n_spec_succ(*r, k),
            None => None,
        }
    }
}

pub open spec fn spec_succ<V>(t: Option<Box<BSTNode<V>>>, k: i64) -> Option<V> {
    match t {
        None => None,
        Some(n) => n_spec_succ(*n, k),
    }
}

/// The value the predecessor descent yields for `k`.
pub open spec fn n_spec_pred<V>(n: BSTNode<V>, k: i64) -> Option<V>
    decreases n,
{
    if k == n.key {
        match n.left {
            Some(l) => Some(n_max_pair(*l).1),
            None => None,
        }
    } else if k > n.key {
        match n.right {
            Some(r) => if n_spec_pred(*r, k) is Some {
                n_spec_pred(*r, k)
            } else {
                Some(n.value)
            },
            None => Some(n.value),
        }
    } else {
        match n.left {
            Some(l) => n_spec_pred(*l, k),
            None => None,
        }
    }
}

pub open spec fn spec_pred<V>(t: Option<Box<BSTNode<V>>>, k: i64) -> Option<V> {
    match t {
        None => None,
        Some(n) => n_spec_pred(*n, k),
    }
}

/// Where an inserted key lands in the in-order sequence: the length of
/// the longest prefix whose keys are at most `k` — on a sorted sequence,
/// the slot immediately after every pair with key at most `k` and before
/// every pair with a greater key.
pub open spec fn ins_pos<V>(s: Seq<(i64, V)>, k: i64) -> int
    decreases s.len(),
{
    if s.len() == 0 {
        0
    } else if s[0].0 <= k {
        1 + ins_pos(s.drop_first(), k)
    } else {
        0
    }
}

pub proof fn lemma_ins_pos_bounds<V>(s: Seq<(i64, V)>, k: i64)
    ensures
        0 <= ins_pos(s, k) <= s.len(),
    decreases s.len(),
{
    if s.len() > 0 && s[0].0 <= k {
        lemma_ins_pos_bounds(s.drop_first(), k);
    }
}

pub proof fn lemma_ins_pos_concat<V>(a: Seq<(i64, V)>, b: Seq<(i64, V)>, k: i64)
    ensures
        ins_pos(a + b, k) == if ins_pos(a, k) < a.len() {
            ins_pos(a, k)
        } else {
            a.len() + ins_pos(b, k)
        },
    decreases a.len(),
{
    lemma_ins_pos_bounds(a, k);
    if a.len() == 0 {
        assert(a + b =~= b);
    } else {
        lemma_ins_pos_concat(a.drop_first(), b, k);
        assert((a + b).drop_first() =~= a.drop_first() + b);
        assert((a + b)[0] == a[0]);
    }
}

pub proof fn lemma_ins_pos_all_le<V>(s: Seq<(i64, V)>, k: i64)
    requires
        forall|i: int| 0 <= i < s.len() ==> s[i].0 <= k,
    ensures
        ins_pos(s, k) == s.len(),
    decreases s.len(),
{
    if s.len() > 0 {
        assert(s[0].0 <= k);
        assert forall|i: int| 0 <= i < s.drop_first().len() implies s.drop_first()[i].0 <= k by {
            assert(s.drop_first()[i] == s[i + 1]);
        }
        lemma_ins_pos_all_le(s.drop_first(), k);
    }
}

pub proof fn lemma_ins_pos_split_left<V>(a: Seq<(i64, V)>, m: (i64, V), b: Seq<(i64, V)>, k: i64)
    requires
        k < m.0,
    ensures
        ins_pos(a + seq![m] + b, k) == ins_pos(a, k),
{
    lemma_ins_pos_bounds(a, k);
    lemma_ins_pos_concat(a, seq![m], k);
    lemma_ins_pos_concat(a + seq![m], b, k);
}

pub proof fn lemma_ins_pos_split_right<V>(a: Seq<(i64, V)>, m: (i64, V), b: Seq<(i64, V)>, k: i64)
    requires
        m.0 <= k,
        forall|i: int| 0 <= i < a.len() ==> a[i].0 <= k,
    ensures
        ins_pos(a + seq![m] + b, k) == a.len() + 1 + ins_pos(b, k),
{
    lemma_ins_pos_all_le(a, k);
    lemma_ins_pos_concat(a, seq![m], k);
    lemma_ins_pos_concat(a + seq![m], b, k);
    let mid = seq![m];
    assert(mid.drop_first().len() == 0);
    assert(ins_pos(mid.drop_first(), k) == 0);
    assert(ins_pos(mid, k) == 1);
    lemma_ins_pos_bounds(b, k);
}

pub proof fn lemma_seq_insert_concat_left<V>(
    a: Seq<(i64, V)>,
    m: (i64, V),
    b: Seq<(i64, V)>,
    p: int,
    e: (i64, V),
)
    requires
        0 <= p <= a.len(),
    ensures
        a.insert(p, e) + seq![m] + b == (a + seq![m] + b).insert(p, e),
{
    a.insert_ensures(p, e);
    (a + seq![m] + b).insert_ensures(p, e);
    assert(a.insert(p, e) + seq![m] + b =~= (a + seq![m] + b).insert(p, e));
}

pub proof fn lemma_seq_insert_concat_right<V>(
    a: Seq<(i64, V)>,
    m: (i64, V),
    b: Seq<(i64, V)>,
    p: int,
    e: (i64, V),
)
    requires
        0 <= p <= b.len(),
    ensures
        a + seq![m] + b.insert(p, e) == (a + seq![m] + b).insert(a.len() + 1 + p, e),
{
    b.insert_ensures(p, e);
    (a + seq![m] + b).insert_ensures(a.len() + 1 + p, e);
    assert(a + seq![m] + b.insert(p, e) =~= (a + seq![m] + b).insert(a.len() + 1 + p, e));
}

/// There is a pair with key `k` in the multiset.
pub open spec fn has_key<V>(m: Multiset<(i64, V)>, k: i64) -> bool {
    exists|p: (i64, V)| #[trigger] m.count(p) > 0 && p.0 == k
}

/// No two stored pairs share a key, and no pair is stored twice.
pub open spec fn distinct_keys_ms<V>(m: Multiset<(i64, V)>) -> bool {
    &&& forall|p: (i64, V)| #[trigger] m.count(p) <= 1
    &&& forall|p: (i64, V), q: (i64, V)|
        #[trigger] m.count(p) > 0 && #[trigger] m.count(q) > 0 && p.0 == q.0 ==> p == q
}

pub open spec fn distinct_keys<V>(t: Option<Box<BSTNode<V>>>) -> bool {
    distinct_keys_ms(kvs(t))
}

impl<V> BST<V> {
    pub open spec fn wf(&self) -> bool {
        wf(self.root)
    }

    pub open spec fn balanced(&self) -> bool {
        bal_ok(self.root)
    }

    pub open spec fn kvs(&self) -> Multiset<(i64, V)> {
        kvs(self.root)
    }

    pub open spec fn kv_seq(&self) -> Seq<(i64, V)> {
        kv_seq(self.root)
    }

    pub open spec fn height(&self) -> nat {
        ht(self.root)
    }
}

impl<V> BSTNode<V> {
    /// A fresh leaf holding `key` and `value`.
    pub fn new(key: i64, value: V) -> (r: Self)
        ensures
            r.key == key,
            r.value == value,
            r.height == 1,
            r.left is None,
            r.right is None,
            n_ht(r) == 1,
            n_hts_ok(r),
            n_bst_ok(r),
            n_bal_ok(r),
            n_kvs(r) == Multiset::<(i64, V)>::empty().insert((key, value)),
    {
        let r = BSTNode { key, value, height: 1, left: None, right: None };
        proof {
            assert(n_kvs(r) =~= Multiset::empty().insert((key, value)));
        }
        r
    }

    /// Cached height of an optional subtree, 0 when absent.
    pub fn get_height(node: &Option<Box<Self>>) -> (r: u64)
        requires
            hts_ok(*node),
        ensures
            r == ht(*node),
    {
        match node {
            None => 0,
            Some(n) => n.height,
        }
    }

    /// Height of the right child minus height of the left child.
    pub fn balance_factor(&self) -> (r: i128)
        requires
            hts_ok(self.left),
            hts_ok(self.right),
        ensures
            r == ht(self.right) - ht(self.left),
    {
        let h_left: u64 = Self::get_height(&self.left);
        let h_right: u64 = Self::get_height(&self.right);
        h_right as i128 - h_left as i128
    }

    /// Refresh the cached height from the (already correct) children.
    pub fn update_height(&mut self)
        requires
            hts_ok(old(self).left),
            hts_ok(old(self).right),
            1 + nat_max(ht(old(self).left), ht(old(self).right)) <= u64::MAX,
        ensures
            final(self).key == old(self).key,
            final(self).value == old(self).value,
            final(self).left == old(self).left,
            final(self).right == old(self).right,
            n_hts_ok(*final(self)),
            n_ht(*final(self)) == n_ht(*old(self)),
            n_kvs(*final(self)) == n_kvs(*old(self)),
            *final(self) == s_update_height(*old(self)),
    {
        let h_left: u64 = Self::get_height(&self.left);
        let h_right: u64 = Self::get_height(&self.right);
        self.height = 1 + if h_left >= h_right {
            h_left
        } else {
            h_right
        };
    }

    /// Promote the right child to subtree root; the old root becomes its
    /// left child and inherits the promoted node's former left subtree.
    pub fn rotate_left(node: Box<Self>) -> (r: Box<Self>)
        requires
            node.right is Some,
            n_bst_ok(*node),
            hts_ok(node.left),
            hts_ok(node.right),
            n_ht(*node) + 1 <= u64::MAX,
        ensures
            ({
                let x = *node;
                let rr = *x.right.unwrap();
                &&& r.key == rr.key
                &&& r.value == rr.value
                &&& r.right == rr.right
                &&& (r.left matches Some(l) && *l == (BSTNode {
                    key: x.key,
                    value: x.value,
                    height: (1 + nat_max(ht(x.left), ht(rr.left))) as u64,
                    left: x.left,
                    right: rr.left,
                }))
                &&& n_hts_ok(*r)
                &&& n_bst_ok(*r)
                &&& n_kvs(*r) == n_kvs(*node)
                &&& *r == s_rotate_left(*node)
                &&& n_kv_seq(*r) == n_kv_seq(*node)
            }),
    {
        let ghost x = *node;
        let mut node = node;
        let mut new_root = node.right.take().unwrap();
        let ghost rr = *new_root;
        node.right = new_root.left.take();
        node.update_height();
        new_root.left = Some(node);
        new_root.update_height();
        proof {
            let l = *new_root.left.unwrap();
            assert(kvs(new_root.left) == n_kvs(l));
            assert(n_kvs(l) == kvs(l.left).add(kvs(l.right)).insert((l.key, l.value)));
            assert(kvs(x.right) == n_kvs(rr));
            assert(n_kvs(rr) == kvs(rr.left).add(kvs(rr.right)).insert((rr.key, rr.value)));
            assert(n_kvs(*new_root) =~= n_kvs(x));
            // The demoted node's pair sits in the old right subtree, so its
            // key is at least x.key; everything moved under it stays in order.
            assert(n_bst_ok(rr));
            assert(kvs(x.right).count((rr.key, rr.value)) > 0);
            assert(rr.key >= x.key);
            assert forall|p: (i64, V)| #[trigger] kvs(rr.left).count(p) > 0 implies p.0
                >= x.key by {
                assert(kvs(x.right).count(p) > 0);
            }
            assert(n_bst_ok(l));
            assert forall|p: (i64, V)| #[trigger] kvs(new_root.left).count(p) > 0 implies p.0
                <= rr.key by {
                assert(n_kvs(l).count(p) > 0);
                if kvs(l.left).count(p) > 0 {
                    assert(kvs(x.left).count(p) > 0);
                }
            }
            assert(n_bst_ok(*new_root));
            assert(*new_root.left.unwrap() == s_update_height(
                (BSTNode {
                    key: x.key,
                    value: x.value,
                    height: x.height,
                    left: x.left,
                    right: rr.left,
                }),
            ));
            assert(*new_root == s_rotate_left(x));
            assert(kv_seq(new_root.left) == n_kv_seq(l));
            assert(n_kv_seq(l) == kv_seq(l.left) + seq![(l.key, l.value)] + kv_seq(l.right));
            assert(kv_seq(x.right) == n_kv_seq(rr));
            assert(n_kv_seq(rr) == kv_seq(rr.left) + seq![(rr.key, rr.value)] + kv_seq(rr.right));
            assert(n_kv_seq(*new_root) =~= n_kv_seq(x));
        }
        new_root
    }

    /// Mirror of `rotate_left`: promote the left child to subtree root.
    pub fn rotate_right(node: Box<Self>) -> (r: Box<Self>)
        requires
            node.left is Some,
            n_bst_ok(*node),
            hts_ok(node.left),
            hts_ok(node.right),
            n_ht(*node) + 1 <= u64::MAX,
        ensures
            ({
                let x = *node;
                let ll = *x.left.unwrap();
                &&& r.key == ll.key
                &&& r.value == ll.value
                &&& r.left == ll.left
                &&& (r.right matches Some(l) && *l == (BSTNode {
                    key: x.key,
                    value: x.value,
                    height: (1 + nat_max(ht(ll.right), ht(x.right))) as u64,
                    left: ll.right,
                    right: x.right,
                }))
                &&& n_hts_ok(*r)
                &&& n_bst_ok(*r)
                &&& n_kvs(*r) == n_kvs(*node)
                &&& *r == s_rotate_right(*node)
                &&& n_kv_seq(*r) == n_kv_seq(*node)
            }),
    {
        let ghost x = *node;
        let mut node = node;
        let mut new_root = node.left.take().unwrap();
        let ghost ll = *new_root;
        node.left = new_root.right.take();
        node.update_height();
        new_root.right = Some(node);
        new_root.update_height();
        proof {
            let r = *new_root.right.unwrap();
            assert(kvs(new_root.right) == n_kvs(r));
            assert(n_kvs(r) == kvs(r.left).add(kvs(r.right)).insert((r.key, r.value)));
            assert(kvs(x.left) == n_kvs(ll));
            assert(n_kvs(ll) == kvs(ll.left).add(kvs(ll.right)).insert((ll.key, ll.value)));
            assert(n_kvs(*new_root) =~= n_kvs(x));
            // The demoted node's pair sat in the old left subtree, so its
            // key is at most x.key; everything moved under it stays in order.
            assert(n_bst_ok(ll));
            assert(kvs(x.left).count((ll.key, ll.value)) > 0);
            assert(ll.key <= x.key);
            assert forall|p: (i64, V)| #[trigger] kvs(ll.right).count(p) > 0 implies p.0
                <= x.key by {
                assert(kvs(x.left).count(p) > 0);
            }
            assert(n_bst_ok(r));
            assert forall|p: (i64, V)| #[trigger] kvs(new_root.right).count(p) > 0 implies p.0
                >= ll.key by {
                assert(n_kvs(r).count(p) > 0);
                if kvs(r.right).count(p) > 0 {
                    assert(kvs(x.right).count(p) > 0);
                }
            }
            assert(n_bst_ok(*new_root));
            assert(*new_root.right.unwrap() == s_update_height(
                (BSTNode {
                    key: x.key,
                    value: x.value,
                    height: x.height,
                    left: ll.right,
                    right: x.right,
                }),
            ));
            assert(*new_root == s_rotate_right(x));
            assert(kv_seq(new_root.right) == n_kv_seq(r));
            assert(n_kv_seq(r) == kv_seq(r.left) + seq![(r.key, r.value)] + kv_seq(r.right));
            assert(kv_seq(x.left) == n_kv_seq(ll));
            assert(n_kv_seq(ll) == kv_seq(ll.left) + seq![(ll.key, ll.value)] + kv_seq(ll.right));
            assert(n_kv_seq(*new_root) =~= n_kv_seq(x));
        }
        new_root
    }

    /// Refresh the cached height, then apply the standard AVL four-case
    /// fixup: at most one single or double rotation. Whenever the subtree
    /// arrives at most two levels out of balance with balanced children —
    /// as it does after a single insertion below a balanced node — the
    /// result is balanced again and its height is `max` or `1 + max` of the
    /// child heights.
    pub fn rebalance(node: &mut Option<Box<Self>>)
        requires
            old(node).is_some(),
            n_pre_wf(*old(node).unwrap()),
            2 + nat_max(ht(old(node).unwrap().left), ht(old(node).unwrap().right)) <= u64::MAX,
        ensures
            ({
                let x = *old(node).unwrap();
                let lh = ht(x.left);
                let rh = ht(x.right);
                &&& final(node).is_some()
                &&& wf(*final(node))
                &&& kvs(*final(node)) == n_kvs(x)
                &&& (*final(node) matches Some(nn) && *nn == s_rebalance(x))
                &&& kv_seq(*final(node)) == n_kv_seq(x)
                &&& (-1 <= rh - lh <= 1 ==> (*final(node) matches Some(nb) && *nb
                    == s_update_height(x)))
                &&& ht(*final(node)) <= 1 + nat_max(lh, rh)
                &&& (bal_ok(x.left) && bal_ok(x.right) && -2 <= rh - lh <= 2 ==> {
                    &&& bal_ok(*final(node))
                    &&& ht(*final(node)) >= nat_max(lh, rh)
                    &&& (-1 <= rh - lh <= 1 ==> ht(*final(node)) == 1 + nat_max(lh, rh))
                })
            }),
    {
        let mut n = node.take().unwrap();
        let ghost x = *n;
        let ghost lh = ht(x.left);
        let ghost rh = ht(x.right);
        n.update_height();
        let factor: i128 = n.balance_factor();
        if factor < -1 {
            // Left side too heavy, so the left child exists.
            proof {
                if x.left is None {
                    assert(ht(x.left) == 0);
                }
                assert(n_hts_ok(*x.left.unwrap()));
                assert(n_bst_ok(*x.left.unwrap()));
            }
            let ghost l0 = *x.left.unwrap();
            let lc_bf: i128 = match &n.left {
                Some(l) => l.balance_factor(),
                None => 0,
            };
            if lc_bf > 0 {
                // Left-right case: first rotate the left child left.
                proof {
                    if l0.right is None {
                        assert(ht(l0.right) == 0);
                    }
                }
                let ghost lr = *l0.right.unwrap();
                let ghost a = ht(l0.left);
                let ghost b = ht(lr.left);
                let ghost c = ht(lr.right);
                let lc = n.left.take().unwrap();
                let rot = Self::rotate_left(lc);
                proof {
                    let nl = *rot.left.unwrap();
                    assert(ht(rot.left) == n_ht(nl));
                    assert(n_ht(nl) == 1 + nat_max(a, b));
                    assert(ht(l0.right) == 1 + nat_max(b, c));
                    assert(lh == 1 + nat_max(a, 1 + nat_max(b, c)));
                    assert(n_ht(*rot) == 1 + nat_max(1 + nat_max(a, b), c));
                    assert(n_ht(*rot) <= lh);
                    assert(n_kvs(*rot) == n_kvs(l0));
                }
                n.left = Some(rot);
                let ghost n1 = *n;
                proof {
                    assert(kvs(n1.left) == n_kvs(l0));
                    assert(kvs(x.left) == n_kvs(l0));
                    assert(n_ht(n1) == 1 + nat_max(ht(n1.left), rh));
                }
                let r2 = Self::rotate_right(n);
                *node = Some(r2);
                proof {
                    let nr = *r2.right.unwrap();
                    assert(ht(r2.left) == 1 + nat_max(a, b));
                    assert(ht(r2.right) == n_ht(nr));
                    assert(n_ht(nr) == 1 + nat_max(c, rh));
                    assert(n_ht(*r2) == 1 + nat_max(1 + nat_max(a, b), 1 + nat_max(c, rh)));
                    assert(ht(*node) == n_ht(*r2));
                    assert(n_kvs(*r2) == n_kvs(n1));
                    assert(n_kvs(n1) == kvs(n1.left).add(kvs(n1.right)).insert((n1.key, n1.value)));
                    assert(n_kvs(x) == kvs(x.left).add(kvs(x.right)).insert((x.key, x.value)));
                    assert(n_kvs(*r2) == n_kvs(x));
                    let m = s_update_height(x);
                    assert(*n1.left.unwrap() == s_rotate_left(l0));
                    assert(n1.left == Some(Box::new(s_rotate_left(l0))));
                    assert(n1 == (BSTNode {
                        key: m.key,
                        value: m.value,
                        height: m.height,
                        left: Some(Box::new(s_rotate_left(l0))),
                        right: m.right,
                    }));
                    assert(*r2 == s_rebalance(x));
                    assert(kv_seq(n1.left) == n_kv_seq(l0));
                    assert(kv_seq(x.left) == n_kv_seq(l0));
                    assert(n_kv_seq(n1) == kv_seq(n1.left) + seq![(n1.key, n1.value)] + kv_seq(
                        n1.right,
                    ));
                    assert(n_kv_seq(x) == kv_seq(x.left) + seq![(x.key, x.value)] + kv_seq(
                        x.right,
                    ));
                    assert(n_kv_seq(*r2) == n_kv_seq(x));
                    if bal_ok(x.left) && bal_ok(x.right) && -2 <= rh - lh <= 2 {
                        assert(x.left is Some);
                        assert(bal_ok(x.left));
                        assert(n_bal_ok(l0));
                        assert(l0.right is Some);
                        assert(bal_ok(l0.right));
                        assert(n_bal_ok(lr));
                        assert(rh - lh == -2);
                        assert(nat_max(b, c) == a);
                        assert(n_bal_ok(*r2.left.unwrap()));
                        assert(n_bal_ok(nr));
                        assert(n_bal_ok(*r2));
                        assert(ht(*node) == nat_max(lh, rh));
                    }
                }
            } else {
                // Left-left case: a single right rotation.
                let ghost a2 = ht(l0.left);
                let ghost d = ht(l0.right);
                let r2 = Self::rotate_right(n);
                *node = Some(r2);
                proof {
                    let nr = *r2.right.unwrap();
                    assert(r2.left == l0.left);
                    assert(ht(r2.right) == n_ht(nr));
                    assert(n_ht(nr) == 1 + nat_max(d, rh));
                    assert(n_ht(*r2) == 1 + nat_max(a2, 1 + nat_max(d, rh)));
                    assert(ht(*node) == n_ht(*r2));
                    assert(lh == 1 + nat_max(a2, d));
                    assert(n_kvs(*r2) == n_kvs(x));
                    let m = s_update_height(x);
                    assert(*r2 == s_rotate_right(m));
                    assert(*r2 == s_rebalance(x));
                    assert(n_kv_seq(m) == kv_seq(x.left) + seq![(x.key, x.value)] + kv_seq(
                        x.right,
                    ));
                    assert(n_kv_seq(*r2) == n_kv_seq(x));
                    if bal_ok(x.left) && bal_ok(x.right) && -2 <= rh - lh <= 2 {
                        assert(n_bal_ok(l0));
                        assert(rh - lh == -2);
                        assert(d <= a2);
                        assert(n_bal_ok(nr));
                        assert(n_bal_ok(*r2));
                        assert(ht(*node) >= nat_max(lh, rh));
                    }
                }
            }
        } else if factor > 1 {
            // Right side too heavy, so the right child exists.
            proof {
                if x.right is None {
                    assert(ht(x.right) == 0);
                }
                assert(n_hts_ok(*x.right.unwrap()));
                assert(n_bst_ok(*x.right.unwrap()));
            }
            let ghost r0 = *x.right.unwrap();
            let rc_bf: i128 = match &n.right {
                Some(r) => r.balance_factor(),
                None => 0,
            };
            if rc_bf < 0 {
                // Right-left case: first rotate the right child right.
                proof {
                    if r0.left is None {
                        assert(ht(r0.left) == 0);
                    }
                }
                let ghost rl = *r0.left.unwrap();
                let ghost a = ht(r0.right);
                let ghost b = ht(rl.right);
                let ghost c = ht(rl.left);
                let rc = n.right.take().unwrap();
                let rot = Self::rotate_right(rc);
                proof {
                    let nr = *rot.right.unwrap();
                    assert(ht(rot.right) == n_ht(nr));
                    assert(n_ht(nr) == 1 + nat_max(b, a));
                    assert(ht(r0.left) == 1 + nat_max(c, b));
                    assert(rh == 1 + nat_max(1 + nat_max(c, b), a));
                    assert(n_ht(*rot) == 1 + nat_max(c, 1 + nat_max(b, a)));
                    assert(n_ht(*rot) <= rh);
                    assert(n_kvs(*rot) == n_kvs(r0));
                }
                n.right = Some(rot);
                let ghost n1 = *n;
                proof {
                    assert(kvs(n1.right) == n_kvs(r0));
                    assert(kvs(x.right) == n_kvs(r0));
                    assert(n_ht(n1) == 1 + nat_max(lh, ht(n1.right)));
                }
                let r2 = Self::rotate_left(n);
                *node = Some(r2);
                proof {
                    let nl = *r2.left.unwrap();
                    assert(ht(r2.right) == 1 + nat_max(b, a));
                    assert(ht(r2.left) == n_ht(nl));
                    assert(n_ht(nl) == 1 + nat_max(lh, c));
                    assert(n_ht(*r2) == 1 + nat_max(1 + nat_max(lh, c), 1 + nat_max(b, a)));
                    assert(ht(*node) == n_ht(*r2));
                    assert(n_kvs(*r2) == n_kvs(n1));
                    assert(n_kvs(n1) == kvs(n1.left).add(kvs(n1.right)).insert((n1.key, n1.value)));
                    assert(n_kvs(x) == kvs(x.left).add(kvs(x.right)).insert((x.key, x.value)));
                    assert(n_kvs(*r2) == n_kvs(x));
                    let m = s_update_height(x);
                    assert(*n1.right.unwrap() == s_rotate_right(r0));
                    assert(n1.right == Some(Box::new(s_rotate_right(r0))));
                    assert(n1 == (BSTNode {
                        key: m.key,
                        value: m.value,
                        height: m.height,
                        left: m.left,
                        right: Some(Box::new(s_rotate_right(r0))),
                    }));
                    assert(*r2 == s_rebalance(x));
                    assert(kv_seq(n1.right) == n_kv_seq(r0));
                    assert(kv_seq(x.right) == n_kv_seq(r0));
                    assert(n_kv_seq(n1) == kv_seq(n1.left) + seq![(n1.key, n1.value)] + kv_seq(
                        n1.right,
                    ));
                    assert(n_kv_seq(x) == kv_seq(x.left) + seq![(x.key, x.value)] + kv_seq(
                        x.right,
                    ));
                    assert(n_kv_seq(*r2) == n_kv_seq(x));
                    if bal_ok(x.left) && bal_ok(x.right) && -2 <= rh - lh <= 2 {
                        assert(x.right is Some);
                        assert(bal_ok(x.right));
                        assert(n_bal_ok(r0));
                        assert(r0.left is Some);
                        assert(bal_ok(r0.left));
                        assert(n_bal_ok(rl));
                        assert(rh - lh == 2);
                        assert(nat_max(c, b) == a);
                        assert(n_bal_ok(*r2.right.unwrap()));
                        assert(n_bal_ok(nl));
                        assert(n_bal_ok(*r2));
                        assert(ht(*node) == nat_max(lh, rh));
                    }
                }
            } else {
                // Right-right case: a single left rotation.
                let ghost a2 = ht(r0.right);
                let ghost d = ht(r0.left);
                let r2 = Self::rotate_left(n);
                *node = Some(r2);
                proof {
                    let nl = *r2.left.unwrap();
                    assert(r2.right == r0.right);
                    assert(ht(r2.left) == n_ht(nl));
                    assert(n_ht(nl) == 1 + nat_max(lh, d));
                    assert(n_ht(*r2) == 1 + nat_max(1 + nat_max(lh, d), a2));
                    assert(ht(*node) == n_ht(*r2));
                    assert(rh == 1 + nat_max(d, a2));
                    assert(n_kvs(*r2) == n_kvs(x));
                    let m = s_update_height(x);
                    assert(*r2 == s_rotate_left(m));
                    assert(*r2 == s_rebalance(x));
                    assert(n_kv_seq(m) == kv_seq(x.left) + seq![(x.key, x.value)] + kv_seq(
                        x.right,
                    ));
                    assert(n_kv_seq(*r2) == n_kv_seq(x));
                    if bal_ok(x.left) && bal_ok(x.right) && -2 <= rh - lh <= 2 {
                        assert(n_bal_ok(r0));
                        assert(rh - lh == 2);
                        assert(d <= a2);
                        assert(n_bal_ok(nl));
                        assert(n_bal_ok(*r2));
                        assert(ht(*node) >= nat_max(lh, rh));
                    }
                }
            }
        } else {
            // Already within one level: only the height refresh was needed.
            proof {
                assert(n_bst_ok(*n));
                assert(n_kvs(*n) == kvs(n.left).add(kvs(n.right)).insert((n.key, n.value)));
                assert(n_kvs(x) == kvs(x.left).add(kvs(x.right)).insert((x.key, x.value)));
                assert(n_kvs(*n) == n_kvs(x));
                assert(n_ht(*n) == 1 + nat_max(lh, rh));
                assert(*n == s_update_height(x));
                assert(*n == s_rebalance(x));
                assert(n_kv_seq(*n) == kv_seq(n.left) + seq![(n.key, n.value)] + kv_seq(n.right));
                assert(n_kv_seq(x) == kv_seq(x.left) + seq![(x.key, x.value)] + kv_seq(x.right));
                assert(n_kv_seq(*n) == n_kv_seq(x));
            }
            *node = Some(n);
        }
    }

    /// Insert `key`/`value` into the subtree slot: create a leaf in an
    /// empty slot, otherwise descend left on a smaller key and right on a
    /// greater-or-equal one (so duplicates land in the right subtree), then
    /// rebalance on the way back up. The stored pairs gain exactly the new
    /// pair, and a balanced subtree stays balanced, growing by at most one
    /// level.
    pub fn insert(node: &mut Option<Box<Self>>, key: i64, value: V)
        requires
            wf(*old(node)),
            ht(*old(node)) + 2 <= u64::MAX,
        ensures
            wf(*final(node)),
            kvs(*final(node)) == kvs(*old(node)).insert((key, value)),
            *final(node) == s_insert(*old(node), key, value),
            kv_seq(*final(node)) == kv_seq(*old(node)).insert(
                ins_pos(kv_seq(*old(node)), key),
                (key, value),
            ),
            1 <= ht(*final(node)) <= ht(*old(node)) + 1,
            bal_ok(*old(node)) ==> bal_ok(*final(node)) && ht(*final(node)) >= ht(*old(node)),
        decreases *old(node),
    {
        match node.take() {
            None => {
                *node = Some(Box::new(Self::new(key, value)));
                proof {
                    assert(kvs(*node) =~= kvs(*old(node)).insert((key, value)));
                    assert(*node == s_insert(*old(node), key, value));
                    assert(kv_seq(*old(node)) =~= Seq::<(i64, V)>::empty());
                    assert(ins_pos(kv_seq(*old(node)), key) == 0);
                    assert(kv_seq(*node) =~= kv_seq(*old(node)).insert(0, (key, value)));
                }
            }
            Some(mut n) => {
                let ghost x = *n;
                let ghost lh0 = ht(x.left);
                let ghost rh0 = ht(x.right);
                if key < n.key {
                    Self::insert(&mut n.left, key, value);
                    proof {
                        assert forall|p: (i64, V)| #[trigger] kvs(n.left).count(p) > 0 implies p.0
                            <= n.key by {
                            if kvs(x.left).count(p) == 0 {
                                assert(p == (key, value));
                            }
                        }
                    }
                } else {
                    Self::insert(&mut n.right, key, value);
                    proof {
                        assert forall|p: (i64, V)| #[trigger] kvs(n.right).count(p) > 0 implies p.0
                            >= n.key by {
                            if kvs(x.right).count(p) == 0 {
                                assert(p == (key, value));
                            }
                        }
                    }
                }
                let ghost n1 = *n;
                *node = Some(n);
                proof {
                    assert(n_pre_wf(n1));
                }
                Self::rebalance(node);
                proof {
                    assert(n_kvs(n1) == kvs(n1.left).add(kvs(n1.right)).insert((n1.key, n1.value)));
                    assert(n_kvs(x) == kvs(x.left).add(kvs(x.right)).insert((x.key, x.value)));
                    assert(n_kvs(n1) =~= n_kvs(x).insert((key, value)));
                    assert(ht(*node) >= 1);
                    assert(n_kv_seq(x) == kv_seq(x.left) + seq![(x.key, x.value)] + kv_seq(
                        x.right,
                    ));
                    assert(n_kv_seq(n1) == kv_seq(n1.left) + seq![(n1.key, n1.value)] + kv_seq(
                        n1.right,
                    ));
                    let pos = ins_pos(kv_seq(*old(node)), key);
                    if key < x.key {
                        assert(n1 == (BSTNode {
                            key: x.key,
                            value: x.value,
                            height: x.height,
                            left: s_insert(x.left, key, value),
                            right: x.right,
                        }));
                        assert(*node == s_insert(*old(node), key, value));
                        let pl = ins_pos(kv_seq(x.left), key);
                        lemma_ins_pos_bounds(kv_seq(x.left), key);
                        lemma_ins_pos_split_left(
                            kv_seq(x.left),
                            (x.key, x.value),
                            kv_seq(x.right),
                            key,
                        );
                        assert(pos == pl);
                        lemma_seq_insert_concat_left(
                            kv_seq(x.left),
                            (x.key, x.value),
                            kv_seq(x.right),
                            pl,
                            (key, value),
                        );
                        assert(kv_seq(n1.left) == kv_seq(x.left).insert(pl, (key, value)));
                        assert(n_kv_seq(n1) == n_kv_seq(x).insert(pos, (key, value)));
                    } else {
                        assert(n1 == (BSTNode {
                            key: x.key,
                            value: x.value,
                            height: x.height,
                            left: x.left,
                            right: s_insert(x.right, key, value),
                        }));
                        assert(*node == s_insert(*old(node), key, value));
                        let pr = ins_pos(kv_seq(x.right), key);
                        lemma_ins_pos_bounds(kv_seq(x.right), key);
                        lemma_kv_seq_members(x.left);
                        assert forall|i: int| 0 <= i < kv_seq(x.left).len() implies kv_seq(
                            x.left,
                        )[i].0 <= key by {
                            assert(kvs(x.left).count(kv_seq(x.left)[i]) > 0);
                        }
                        lemma_ins_pos_split_right(
                            kv_seq(x.left),
                            (x.key, x.value),
                            kv_seq(x.right),
                            key,
                        );
                        assert(pos == kv_seq(x.left).len() + 1 + pr);
                        lemma_seq_insert_concat_right(
                            kv_seq(x.left),
                            (x.key, x.value),
                            kv_seq(x.right),
                            pr,
                            (key, value),
                        );
                        assert(kv_seq(n1.right) == kv_seq(x.right).insert(pr, (key, value)));
                        assert(n_kv_seq(n1) == n_kv_seq(x).insert(pos, (key, value)));
                    }
                    assert(kv_seq(*node) == n_kv_seq(n1));
                    if bal_ok(*old(node)) {
                        assert(n_bal_ok(x));
                        assert(bal_ok(n1.left) && bal_ok(n1.right));
                        assert(-2 <= ht(n1.right) - ht(n1.left) <= 2);
                        assert(ht(*node) >= nat_max(lh0, rh0) + 1 || ht(*node) >= nat_max(
                            ht(n1.left),
                            ht(n1.right),
                        ));
                        assert(ht(*node) >= n_ht(x));
                    }
                }
            }
        }
    }

    /// Detach the minimum-keyed node of a nonempty subtree. The slot keeps
    /// the remainder (every ancestor's cached height refreshed); the
    /// detached node is returned bare, with both children removed. Its
    /// cached height is not refreshed here — the caller splices it and
    /// recomputes.
    pub fn extract_min(node: &mut Option<Box<Self>>) -> (min: Box<Self>)
        requires
            old(node).is_some(),
            wf(*old(node)),
        ensures
            min.left is None,
            min.right is None,
            (min.key, min.value) == n_min_pair(*old(node).unwrap()),
            *min == s_extract_min(*old(node).unwrap()).0,
            *final(node) == s_extract_min(*old(node).unwrap()).1,
            n_kv_seq(*old(node).unwrap()) == seq![(min.key, min.value)] + kv_seq(*final(node)),
            wf(*final(node)),
            kvs(*old(node)) == kvs(*final(node)).insert((min.key, min.value)),
            all_keys_ge(*final(node), min.key),
            ht(*final(node)) <= ht(*old(node)),
        decreases *old(node),
    {
        let mut n = node.take().unwrap();
        let ghost x = *n;
        if n.left.is_some() {
            let min = Self::extract_min(&mut n.left);
            n.update_height();
            let ghost n1 = *n;
            *node = Some(n);
            proof {
                assert(kvs(x.left).count((min.key, min.value)) > 0);
                assert forall|p: (i64, V)| #[trigger] kvs(n1.left).count(p) > 0 implies p.0
                    <= n1.key by {
                    assert(kvs(x.left).count(p) > 0);
                }
                assert(n_bst_ok(n1));
                assert(n_kvs(n1) == kvs(n1.left).add(kvs(n1.right)).insert((n1.key, n1.value)));
                assert(n_kvs(x) == kvs(x.left).add(kvs(x.right)).insert((x.key, x.value)));
                assert(n_kvs(x) =~= n_kvs(n1).insert((min.key, min.value)));
                assert forall|p: (i64, V)| #[trigger] kvs(*node).count(p) > 0 implies p.0
                    >= min.key by {
                    assert(n_kvs(n1).count(p) > 0);
                    if kvs(n1.right).count(p) > 0 {
                        assert(kvs(x.right).count(p) > 0);
                    }
                }
                let l0 = *x.left.unwrap();
                let sub = s_extract_min(l0);
                assert(n1 == s_update_height(
                    (BSTNode {
                        key: x.key,
                        value: x.value,
                        height: x.height,
                        left: sub.1,
                        right: x.right,
                    }),
                ));
                assert(*node == s_extract_min(x).1);
                assert(kv_seq(x.left) == n_kv_seq(l0));
                assert(n_kv_seq(x) == kv_seq(x.left) + seq![(x.key, x.value)] + kv_seq(x.right));
                assert(n_kv_seq(n1) == kv_seq(n1.left) + seq![(n1.key, n1.value)] + kv_seq(
                    n1.right,
                ));
                assert(n_kv_seq(x) =~= seq![(min.key, min.value)] + n_kv_seq(n1));
            }
            min
        } else {
            let right = n.right.take();
            *node = right;
            proof {
                assert(n_min_pair(x) == (x.key, x.value));
                assert(n_kvs(x) == kvs(x.left).add(kvs(x.right)).insert((x.key, x.value)));
                assert(kvs(x.left) =~= Multiset::<(i64, V)>::empty());
                assert(n_kvs(x) =~= kvs(x.right).insert((x.key, x.value)));
                assert(n_kv_seq(x) == kv_seq(x.left) + seq![(x.key, x.value)] + kv_seq(x.right));
                assert(n_kv_seq(x) =~= seq![(x.key, x.value)] + kv_seq(x.right));
            }
            n
        }
    }

    /// Delete the node holding `key`, if any, by the standard descent. A
    /// missing key leaves the subtree exactly unchanged. A node with two
    /// children is replaced by the in-order successor extracted from its
    /// right subtree. Cached heights are refreshed on the way back up, but
    /// no rebalancing is applied — deletion keeps ordering and height
    /// bookkeeping, not the balance-factor bound.
    pub fn delete(node: &mut Option<Box<Self>>, key: &i64)
        requires
            wf(*old(node)),
        ensures
            wf(*final(node)),
            ht(*final(node)) <= ht(*old(node)),
            *final(node) == s_delete(*old(node), *key),
            spec_find(*old(node), *key) is None ==> *final(node) == *old(node),
            (spec_find(*old(node), *key) matches Some(v) ==> kvs(*final(node)) == kvs(
                *old(node),
            ).remove((*key, v))),
            (*old(node) matches Some(b) ==> ((*key == b.key && b.left is Some
                && b.right is Some) ==> (*final(node) matches Some(nn) && {
                let r0 = *b.right.unwrap();
                &&& (nn.key, nn.value) == n_min_pair(r0)
                &&& nn.left == b.left
                &&& n_kv_seq(r0) == seq![(nn.key, nn.value)] + kv_seq(nn.right)
            }))),
            forall|p: (i64, V)|
                #[trigger] kvs(*final(node)).count(p) <= kvs(*old(node)).count(p),
        decreases *old(node),
    {
        match node.take() {
            None => {
            }
            Some(mut n) => {
                let ghost x = *n;
                if *key < n.key {
                    Self::delete(&mut n.left, key);
                    n.update_height();
                    let ghost n1 = *n;
                    *node = Some(n);
                    proof {
                        assert forall|p: (i64, V)| #[trigger] kvs(n1.left).count(p) > 0 implies p.0
                            <= n1.key by {
                            assert(kvs(x.left).count(p) > 0);
                        }
                        assert(n_bst_ok(n1));
                        assert(n_kvs(n1) == kvs(n1.left).add(kvs(n1.right)).insert(
                            (n1.key, n1.value),
                        ));
                        assert(n_kvs(x) == kvs(x.left).add(kvs(x.right)).insert(
                            (x.key, x.value),
                        ));
                        if spec_find(x.left, *key) is None {
                            assert(n1 == x);
                            assert(*final(node) == *old(node));
                        } else {
                            let v = spec_find(x.left, *key).unwrap();
                            assert(n_kvs(n1) =~= n_kvs(x).remove((*key, v)));
                        }
                        assert forall|p: (i64, V)|
                            #[trigger] n_kvs(n1).count(p) <= n_kvs(x).count(p) by {}
                        assert(n1 == s_update_height(
                            (BSTNode {
                                key: x.key,
                                value: x.value,
                                height: x.height,
                                left: s_delete(x.left, *key),
                                right: x.right,
                            }),
                        ));
                        assert(*final(node) == s_delete(*old(node), *key));
                    }
                } else if *key > n.key {
                    Self::delete(&mut n.right, key);
                    n.update_height();
                    let ghost n1 = *n;
                    *node = Some(n);
                    proof {
                        assert forall|p: (i64, V)| #[trigger] kvs(n1.right).count(p) > 0 implies p.0
                            >= n1.key by {
                            assert(kvs(x.right).count(p) > 0);
                        }
                        assert(n_bst_ok(n1));
                        assert(n_kvs(n1) == kvs(n1.left).add(kvs(n1.right)).insert(
                            (n1.key, n1.value),
                        ));
                        assert(n_kvs(x) == kvs(x.left).add(kvs(x.right)).insert(
                            (x.key, x.value),
                        ));
                        if spec_find(x.right, *key) is None {
                            assert(n1 == x);
                            assert(*final(node) == *old(node));
                        } else {
                            let v = spec_find(x.right, *key).unwrap();
                            assert(n_kvs(n1) =~= n_kvs(x).remove((*key, v)));
                        }
                        assert forall|p: (i64, V)|
                            #[trigger] n_kvs(n1).count(p) <= n_kvs(x).count(p) by {}
                        assert(n1 == s_update_height(
                            (BSTNode {
                                key: x.key,
                                value: x.value,
                                height: x.height,
                                left: x.left,
                                right: s_delete(x.right, *key),
                            }),
                        ));
                        assert(*final(node) == s_delete(*old(node), *key));
                    }
                } else {
                    let left = n.left.take();
                    let right = n.right.take();
                    proof {
                        assert(n_kvs(x) == kvs(x.left).add(kvs(x.right)).insert(
                            (x.key, x.value),
                        ));
                    }
                    match (left, right) {
                        (None, None) => {
                            proof {
                                assert(kvs(x.left) =~= Multiset::<(i64, V)>::empty());
                                assert(kvs(x.right) =~= Multiset::<(i64, V)>::empty());
                                assert(kvs(*final(node)) =~= n_kvs(x).remove((x.key, x.value)));
                            }
                        }
                        (Some(l), None) => {
                            *node = Some(l);
                            proof {
                                assert(kvs(x.right) =~= Multiset::<(i64, V)>::empty());
                                assert(kvs(*node) =~= n_kvs(x).remove((x.key, x.value)));
                            }
                        }
                        (None, Some(r)) => {
                            *node = Some(r);
                            proof {
                                assert(kvs(x.left) =~= Multiset::<(i64, V)>::empty());
                                assert(kvs(*node) =~= n_kvs(x).remove((x.key, x.value)));
                            }
                        }
                        (Some(l), Some(r)) => {
                            let mut rslot = Some(r);
                            let ghost r0 = *rslot.unwrap();
                            let mut succ = Self::extract_min(&mut rslot);
                            succ.left = Some(l);
                            succ.right = rslot;
                            succ.update_height();
                            let ghost s1 = *succ;
                            *node = Some(succ);
                            proof {
                                assert(kvs(x.right).count((s1.key, s1.value)) > 0);
                                assert(s1.key >= x.key);
                                assert forall|p: (i64, V)| #[trigger] kvs(s1.left).count(p)
                                    > 0 implies p.0 <= s1.key by {
                                    assert(kvs(x.left).count(p) > 0);
                                }
                                assert(n_bst_ok(s1));
                                assert(n_kvs(s1) == kvs(s1.left).add(kvs(s1.right)).insert(
                                    (s1.key, s1.value),
                                ));
                                assert(n_kvs(s1) =~= n_kvs(x).remove((x.key, x.value)));
                                assert(ht(*node) <= n_ht(x));
                                let sub = s_extract_min(r0);
                                assert(s1 == s_update_height(
                                    (BSTNode {
                                        key: sub.0.key,
                                        value: sub.0.value,
                                        height: sub.0.height,
                                        left: x.left,
                                        right: sub.1,
                                    }),
                                ));
                                assert(*final(node) == s_delete(*old(node), *key));
                                assert(n_kv_seq(r0) == seq![(s1.key, s1.value)] + kv_seq(
                                    s1.right,
                                ));
                            }
                        }
                    }
                }
            }
        }
    }

    /// Value of the minimum key in this subtree: follow left children.
    pub fn min(&self) -> (r: &V)
        ensures
            *r == n_min_pair(*self).1,
        decreases self,
    {
        match &self.left {
            Some(l) => l.min(),
            None => &self.value,
        }
    }

    /// Value of the maximum key in this subtree: follow right children.
    pub fn max(&self) -> (r: &V)
        ensures
            *r == n_max_pair(*self).1,
        decreases self,
    {
        match &self.right {
            Some(r) => r.max(),
            None => &self.value,
        }
    }

    /// Exact lookup by ternary comparison descent.
    pub fn find(&self, key: &i64) -> (r: Option<&V>)
        ensures
            (r matches Some(v) ==> n_spec_find(*self, *key) == Some(*v)),
            r is None ==> n_spec_find(*self, *key) is None,
        decreases self,
    {
        if *key < self.key {
            match &self.left {
                Some(l) => l.find(key),
                None => None,
            }
        } else if *key > self.key {
            match &self.right {
                Some(r) => r.find(key),
                None => None,
            }
        } else {
            Some(&self.value)
        }
    }

    /// Value immediately after `key` in sort order: on an exact match the
    /// minimum of the right subtree; descending left, the current node
    /// stands in when the left subtree has no answer.
    pub fn successor(&self, key: &i64) -> (r: Option<&V>)
        ensures
            (r matches Some(v) ==> n_spec_succ(*self, *key) == Some(*v)),
            r is None ==> n_spec_succ(*self, *key) is None,
        decreases self,
    {
        if *key == self.key {
            match &self.right {
                Some(r) => Some(r.min()),
                None => None,
            }
        } else if *key < self.key {
            match &self.left {
                Some(l) => match l.successor(key) {
                    Some(v) => Some(v),
                    None => Some(&self.value),
                },
                None => Some(&self.value),
            }
        } else {
            match &self.right {
                Some(r) => r.successor(key),
                None => None,
            }
        }
    }

    /// Mirror of `successor`: the value immediately before `key`.
    pub fn predecessor(&self, key: &i64) -> (r: Option<&V>)
        ensures
            (r matches Some(v) ==> n_spec_pred(*self, *key) == Some(*v)),
            r is None ==> n_spec_pred(*self, *key) is None,
        decreases self,
    {
        if *key == self.key {
            match &self.left {
                Some(l) => Some(l.max()),
                None => None,
            }
        } else if *key > self.key {
            match &self.right {
                Some(r) => match r.predecessor(key) {
                    Some(v) => Some(v),
                    None => Some(&self.value),
                },
                None => Some(&self.value),
            }
        } else {
            match &self.left {
                Some(l) => l.predecessor(key),
                None => None,
            }
        }
    }
}

impl<V> BST<V> {
    /// An empty map.
    pub fn new() -> (r: Self)
        ensures
            r.root is None,
            r.wf(),
            r.balanced(),
            r.kvs() == Multiset::<(i64, V)>::empty(),
            r.height() == 0,
    {
        BST { root: None }
    }

    /// Insert `key`/`value`. Never fails and never overwrites: an equal key
    /// gets a second node, routed into the right subtree. The stored pairs
    /// gain exactly the new pair, the tree stays well formed, and a
    /// balanced tree stays balanced, its height growing by at most one.
    pub fn insert(&mut self, key: i64, value: V)
        requires
            old(self).wf(),
            old(self).height() + 2 <= u64::MAX,
        ensures
            final(self).wf(),
            final(self).kvs() == old(self).kvs().insert((key, value)),
            final(self).root == s_insert(old(self).root, key, value),
            final(self).kv_seq() == old(self).kv_seq().insert(
                ins_pos(old(self).kv_seq(), key),
                (key, value),
            ),
            1 <= final(self).height() <= old(self).height() + 1,
            old(self).balanced() ==> final(self).balanced() && final(self).height() >= old(
                self,
            ).height(),
    {
        BSTNode::insert(&mut self.root, key, value);
    }

    /// Exact lookup: returns a stored value for `key` exactly when some
    /// stored pair carries `key` (the occurrence found by the standard
    /// descent), and `None` otherwise.
    pub fn find(&self, key: &i64) -> (r: Option<&V>)
        requires
            self.wf(),
        ensures
            (r matches Some(v) ==> spec_find(self.root, *key) == Some(*v)),
            r is None ==> spec_find(self.root, *key) is None,
            r is Some <==> has_key(self.kvs(), *key),
            (r matches Some(v) ==> self.kvs().count((*key, *v)) > 0),
    {
        proof {
            lemma_find_semantics(self.root, *key);
        }
        match &self.root {
            Some(n) => n.find(key),
            None => None,
        }
    }

    /// The tightest stored neighbors of `key`: the predecessor and
    /// successor values, each `None` when `key` is not greater (resp. not
    /// less) than any stored key.
    pub fn neighbors(&self, key: &i64) -> (r: (Option<&V>, Option<&V>))
        requires
            self.wf(),
        ensures
            (r.0 matches Some(v) ==> spec_pred(self.root, *key) == Some(*v)),
            r.0 is None ==> spec_pred(self.root, *key) is None,
            (r.1 matches Some(v) ==> spec_succ(self.root, *key) == Some(*v)),
            r.1 is None ==> spec_succ(self.root, *key) is None,
    {
        match &self.root {
            None => (None, None),
            Some(root) => (root.predecessor(key), root.successor(key)),
        }
    }

    /// Delete the node found for `key` by the standard descent; an absent
    /// key leaves the map exactly unchanged (so repeating the deletion is
    /// also a no-op). Heights stay correct; the balance factors are not
    /// re-established.
    pub fn delete(&mut self, key: &i64)
        requires
            old(self).wf(),
        ensures
            final(self).wf(),
            final(self).height() <= old(self).height(),
            final(self).root == s_delete(old(self).root, *key),
            spec_find(old(self).root, *key) is None ==> *final(self) == *old(self),
            (spec_find(old(self).root, *key) matches Some(v) ==> final(self).kvs() == old(
                self,
            ).kvs().remove((*key, v))),
            forall|p: (i64, V)| #[trigger] final(self).kvs().count(p) <= old(self).kvs().count(p),
    {
        BSTNode::delete(&mut self.root, key);
    }
}

impl<V> Default for BST<V> {
    fn default() -> (r: Self)
        ensures
            r.root is None,
            r.wf(),
    {
        Self::new()
    }
}

/// The descent of `find` is complete on a well-formed tree: it yields a
/// value exactly when some stored pair carries the key, and what it yields
/// is stored under that key.
pub proof fn lemma_find_semantics<V>(t: Option<Box<BSTNode<V>>>, k: i64)
    requires
        bst_ok(t),
    ensures
        spec_find(t, k) is Some <==> has_key(kvs(t), k),
        spec_find(t, k) matches Some(v) ==> kvs(t).count((k, v)) > 0,
    decreases t,
{
    match t {
        None => {
        }
        Some(n) => {
            let x = *n;
            assert(kvs(t) == n_kvs(x));
            assert(n_kvs(x) == kvs(x.left).add(kvs(x.right)).insert((x.key, x.value)));
            if k < x.key {
                lemma_find_semantics(x.left, k);
                if has_key(kvs(t), k) {
                    let p = choose|p: (i64, V)| #[trigger] kvs(t).count(p) > 0 && p.0 == k;
                    assert(kvs(x.right).count(p) == 0);
                    assert(p != (x.key, x.value));
                    assert(kvs(x.left).count(p) > 0);
                    assert(has_key(kvs(x.left), k));
                }
                if spec_find(x.left, k) is Some {
                    let v = spec_find(x.left, k).unwrap();
                    assert(kvs(x.left).count((k, v)) > 0);
                    assert(kvs(t).count((k, v)) > 0);
                    assert(has_key(kvs(t), k));
                }
            } else if k > x.key {
                lemma_find_semantics(x.right, k);
                if has_key(kvs(t), k) {
                    let p = choose|p: (i64, V)| #[trigger] kvs(t).count(p) > 0 && p.0 == k;
                    assert(kvs(x.left).count(p) == 0);
                    assert(p != (x.key, x.value));
                    assert(kvs(x.right).count(p) > 0);
                    assert(has_key(kvs(x.right), k));
                }
                if spec_find(x.right, k) is Some {
                    let v = spec_find(x.right, k).unwrap();
                    assert(kvs(x.right).count((k, v)) > 0);
                    assert(kvs(t).count((k, v)) > 0);
                    assert(has_key(kvs(t), k));
                }
            } else {
                assert(kvs(t).count((x.key, x.value)) > 0);
                assert(has_key(kvs(t), k));
            }
        }
    }
}

/// Round trip for distinct keys: when exactly one stored pair carries key
/// `k`, the descent finds that pair's value.
pub proof fn lemma_find_unique<V>(t: Option<Box<BSTNode<V>>>, k: i64, v: V)
    requires
        bst_ok(t),
        distinct_keys(t),
        kvs(t).count((k, v)) > 0,
    ensures
        spec_find(t, k) == Some(v),
{
    lemma_find_semantics(t, k);
    assert(has_key(kvs(t), k));
    let w = spec_find(t, k).unwrap();
    assert(kvs(t).count((k, w)) > 0);
    assert((k, w) == (k, v));
}

/// Removing the only pair that carries key `k` leaves no pair with that
/// key behind; a later deletion of `k` is therefore a no-op, and a later
/// lookup reports absence.
pub proof fn lemma_remove_only_key<V>(m: Multiset<(i64, V)>, k: i64, v: V)
    requires
        distinct_keys_ms(m),
        m.count((k, v)) > 0,
    ensures
        !has_key(m.remove((k, v)), k),
{
    assert forall|p: (i64, V)| !(#[trigger] m.remove((k, v)).count(p) > 0 && p.0 == k) by {
        if m.remove((k, v)).count(p) > 0 && p.0 == k {
            assert(m.count(p) > 0);
            assert(p == (k, v));
            assert(m.count(p) <= 1);
        }
    }
}

/// Inserting a pair whose key is not yet present keeps the stored keys
/// pairwise distinct, so a chain of inserts of fresh keys stays in the
/// domain of the exact lookup and neighbor laws.
pub proof fn lemma_insert_fresh_key_distinct<V>(m: Multiset<(i64, V)>, k: i64, v: V)
    requires
        distinct_keys_ms(m),
        !has_key(m, k),
    ensures
        distinct_keys_ms(m.insert((k, v))),
{
    let m2 = m.insert((k, v));
    assert forall|p: (i64, V)| #[trigger] m2.count(p) <= 1 by {
        if p == (k, v) {
            if m.count(p) > 0 {
                assert(has_key(m, k));
            }
        }
    }
    assert forall|p: (i64, V), q: (i64, V)|
        #[trigger] m2.count(p) > 0 && #[trigger] m2.count(q) > 0 && p.0 == q.0 implies p
        == q by {
        if p != (k, v) && q == (k, v) && m.count(p) > 0 && p.0 == k {
            assert(has_key(m, k));
        }
        if q != (k, v) && p == (k, v) && m.count(q) > 0 && q.0 == k {
            assert(has_key(m, k));
        }
    }
}

/// Removing a pair never breaks key distinctness: the counts only shrink.
pub proof fn lemma_remove_keeps_distinct<V>(m: Multiset<(i64, V)>, r: (i64, V))
    requires
        distinct_keys_ms(m),
    ensures
        distinct_keys_ms(m.remove(r)),
{
    assert forall|p: (i64, V)| #[trigger] m.remove(r).count(p) <= m.count(p) by {}
}

/// Every in-order element is a stored pair, and the traversal has exactly
/// as many elements as there are stored pairs.
pub proof fn lemma_kv_seq_members<V>(t: Option<Box<BSTNode<V>>>)
    ensures
        kv_seq(t).len() == kvs(t).len(),
        forall|i: int| 0 <= i < kv_seq(t).len() ==> kvs(t).count(#[trigger] kv_seq(t)[i]) > 0,
    decreases t,
{
    match t {
        None => {
        }
        Some(n) => {
            let x = *n;
            lemma_kv_seq_members(x.left);
            lemma_kv_seq_members(x.right);
            assert(n_kvs(x) == kvs(x.left).add(kvs(x.right)).insert((x.key, x.value)));
            let ll = kv_seq(x.left).len() as int;
            assert forall|i: int| 0 <= i < kv_seq(t).len() implies kvs(t).count(
                #[trigger] kv_seq(t)[i],
            ) > 0 by {
                if i < ll {
                    assert(kv_seq(t)[i] == kv_seq(x.left)[i]);
                    assert(kvs(x.left).count(kv_seq(x.left)[i]) > 0);
                } else if i == ll {
                    assert(kv_seq(t)[i] == (x.key, x.value));
                } else {
                    assert(kv_seq(t)[i] == kv_seq(x.right)[i - ll - 1]);
                    assert(kvs(x.right).count(kv_seq(x.right)[i - ll - 1]) > 0);
                }
            }
        }
    }
}

/// The keys of a sequence of pairs never decrease from left to right.
pub open spec fn sorted_by_key<V>(s: Seq<(i64, V)>) -> bool {
    forall|i: int, j: int| 0 <= i <= j < s.len() ==> s[i].0 <= s[j].0
}

/// Binary-search-tree ordering makes the in-order traversal of the stored
/// pairs non-decreasing in key.
pub proof fn lemma_inorder_sorted<V>(t: Option<Box<BSTNode<V>>>)
    requires
        bst_ok(t),
    ensures
        sorted_by_key(kv_seq(t)),
    decreases t,
{
    match t {
        None => {
        }
        Some(n) => {
            let x = *n;
            lemma_inorder_sorted(x.left);
            lemma_inorder_sorted(x.right);
            lemma_kv_seq_members(x.left);
            lemma_kv_seq_members(x.right);
            let ll = kv_seq(x.left).len() as int;
            assert forall|i: int, j: int| 0 <= i <= j < kv_seq(t).len() implies kv_seq(t)[i].0
                <= kv_seq(t)[j].0 by {
                if i < ll {
                    assert(kv_seq(t)[i] == kv_seq(x.left)[i]);
                    assert(kvs(x.left).count(kv_seq(x.left)[i]) > 0);
                    assert(kv_seq(t)[i].0 <= x.key);
                } else if i == ll {
                    assert(kv_seq(t)[i] == (x.key, x.value));
                } else {
                    assert(kv_seq(t)[i] == kv_seq(x.right)[i - ll - 1]);
                    assert(kvs(x.right).count(kv_seq(x.right)[i - ll - 1]) > 0);
                    assert(kv_seq(t)[i].0 >= x.key);
                }
                if j < ll {
                    assert(kv_seq(t)[j] == kv_seq(x.left)[j]);
                    assert(kvs(x.left).count(kv_seq(x.left)[j]) > 0);
                    assert(kv_seq(t)[j].0 <= x.key);
                } else if j == ll {
                    assert(kv_seq(t)[j] == (x.key, x.value));
                } else {
                    assert(kv_seq(t)[j] == kv_seq(x.right)[j - ll - 1]);
                    assert(kvs(x.right).count(kv_seq(x.right)[j - ll - 1]) > 0);
                    assert(kv_seq(t)[j].0 >= x.key);
                }
            }
        }
    }
}

/// The leftmost pair is stored in the subtree, and its key is minimal
/// among all stored pairs.
pub proof fn lemma_min_pair<V>(n: BSTNode<V>)
    requires
        n_bst_ok(n),
    ensures
        n_kvs(n).count(n_min_pair(n)) > 0,
        forall|p: (i64, V)| #[trigger] n_kvs(n).count(p) > 0 ==> p.0 >= n_min_pair(n).0,
    decreases n,
{
    let mp = n_min_pair(n);
    assert(n_kvs(n) == kvs(n.left).add(kvs(n.right)).insert((n.key, n.value)));
    match n.left {
        None => {
            assert(kvs(n.left) =~= Multiset::<(i64, V)>::empty());
            assert(mp == (n.key, n.value));
            assert(n_kvs(n).count(mp) > 0);
        }
        Some(l) => {
            lemma_min_pair(*l);
            assert(mp == n_min_pair(*l));
            assert(kvs(n.left).count(mp) > 0);
            assert(mp.0 <= n.key);
            assert(n_kvs(n).count(mp) > 0);
            assert forall|p: (i64, V)| #[trigger] n_kvs(n).count(p) > 0 implies p.0 >= mp.0 by {
                if kvs(n.left).count(p) > 0 {
                } else if kvs(n.right).count(p) > 0 {
                    assert(p.0 >= n.key);
                } else {
                    assert(p == (n.key, n.value));
                }
            }
        }
    }
}

/// The rightmost pair is stored in the subtree, and its key is maximal
/// among all stored pairs.
pub proof fn lemma_max_pair<V>(n: BSTNode<V>)
    requires
        n_bst_ok(n),
    ensures
        n_kvs(n).count(n_max_pair(n)) > 0,
        forall|p: (i64, V)| #[trigger] n_kvs(n).count(p) > 0 ==> p.0 <= n_max_pair(n).0,
    decreases n,
{
    let mp = n_max_pair(n);
    assert(n_kvs(n) == kvs(n.left).add(kvs(n.right)).insert((n.key, n.value)));
    match n.right {
        None => {
            assert(kvs(n.right) =~= Multiset::<(i64, V)>::empty());
            assert(mp == (n.key, n.value));
            assert(n_kvs(n).count(mp) > 0);
        }
        Some(r) => {
            lemma_max_pair(*r);
            assert(mp == n_max_pair(*r));
            assert(kvs(n.right).count(mp) > 0);
            assert(mp.0 >= n.key);
            assert(n_kvs(n).count(mp) > 0);
            assert forall|p: (i64, V)| #[trigger] n_kvs(n).count(p) > 0 implies p.0 <= mp.0 by {
                if kvs(n.right).count(p) > 0 {
                } else if kvs(n.left).count(p) > 0 {
                    assert(p.0 <= n.key);
                } else {
                    assert(p == (n.key, n.value));
                }
            }
        }
    }
}

/// The leftmost pair is the first entry of the in-order traversal and the
/// rightmost pair is its last, so `min` and `max` return the values at the
/// two ends of the in-order sequence — for a duplicated extreme key, the
/// occurrence that sits outermost.
pub proof fn lemma_min_max_inorder<V>(n: BSTNode<V>)
    ensures
        n_kv_seq(n).len() > 0,
        n_min_pair(n) == n_kv_seq(n)[0],
        n_max_pair(n) == n_kv_seq(n).last(),
    decreases n,
{
    assert(n_kv_seq(n) == kv_seq(n.left) + seq![(n.key, n.value)] + kv_seq(n.right));
    match n.left {
        Some(l) => {
            lemma_min_max_inorder(*l);
            assert(kv_seq(n.left) == n_kv_seq(*l));
            assert(n_kv_seq(n)[0] == n_kv_seq(*l)[0]);
        }
        None => {
            assert(n_kv_seq(n)[0] == (n.key, n.value));
        }
    }
    match n.right {
        Some(r) => {
            lemma_min_max_inorder(*r);
            assert(kv_seq(n.right) == n_kv_seq(*r));
            assert(n_kv_seq(n).last() == n_kv_seq(*r).last());
        }
        None => {
            assert(kv_seq(n.right) =~= Seq::<(i64, V)>::empty());
            assert(n_kv_seq(n).last() == (n.key, n.value));
        }
    }
}

/// `j` is a key greater than `k` stored (with value `v`) in `m`, and no
/// stored key exceeds `k` without reaching `j`: the tight successor.
pub open spec fn is_tight_succ<V>(m: Multiset<(i64, V)>, k: i64, j: i64, v: V) -> bool {
    &&& m.count((j, v)) > 0
    &&& j > k
    &&& forall|p: (i64, V)| #[trigger] m.count(p) > 0 && p.0 > k ==> p.0 >= j
}

/// `j` is a key less than `k` stored (with value `v`) in `m`, and no
/// stored key falls below `k` without reaching `j`: the tight predecessor.
pub open spec fn is_tight_pred<V>(m: Multiset<(i64, V)>, k: i64, j: i64, v: V) -> bool {
    &&& m.count((j, v)) > 0
    &&& j < k
    &&& forall|p: (i64, V)| #[trigger] m.count(p) > 0 && p.0 < k ==> p.0 <= j
}

/// The counts of a child's pairs never exceed the whole subtree's counts,
/// so distinctness of keys passes down to the children.
pub proof fn lemma_distinct_children<V>(n: BSTNode<V>)
    requires
        distinct_keys_ms(n_kvs(n)),
    ensures
        distinct_keys(n.left),
        distinct_keys(n.right),
{
    assert(n_kvs(n) == kvs(n.left).add(kvs(n.right)).insert((n.key, n.value)));
    assert forall|p: (i64, V)| #[trigger] kvs(n.left).count(p) <= n_kvs(n).count(p) by {}
    assert forall|p: (i64, V)| #[trigger] kvs(n.right).count(p) <= n_kvs(n).count(p) by {}
}

/// For a well-formed tree with pairwise-distinct keys the successor
/// descent is exact: it yields nothing when no stored key exceeds `k`,
/// and otherwise the value stored at the least stored key greater than
/// `k`. The returned `j` is that witness key.
pub proof fn lemma_successor_semantics<V>(t: Option<Box<BSTNode<V>>>, k: i64) -> (j: i64)
    requires
        bst_ok(t),
        distinct_keys(t),
    ensures
        spec_succ(t, k) is None ==> (forall|p: (i64, V)|
            #[trigger] kvs(t).count(p) > 0 ==> p.0 <= k),
        (spec_succ(t, k) matches Some(v) ==> is_tight_succ(kvs(t), k, j, v)),
    decreases t,
{
    let mut jr: i64 = 0;
    match t {
        None => {
        }
        Some(n) => {
            let x = *n;
            assert(n_bst_ok(x));
            assert(n_kvs(x) == kvs(x.left).add(kvs(x.right)).insert((x.key, x.value)));
            lemma_distinct_children(x);
            if k == x.key {
                match x.right {
                    Some(rb) => {
                        assert(bst_ok(x.right));
                        assert(n_bst_ok(*rb));
                        lemma_min_pair(*rb);
                        let mp = n_min_pair(*rb);
                        assert(kvs(x.right).count(mp) > 0);
                        assert(kvs(t).count(mp) > 0);
                        assert(mp.0 >= x.key);
                        assert(kvs(t).count((x.key, x.value)) > 0);
                        if mp.0 == k {
                            if mp == (x.key, x.value) {
                                assert(kvs(t).count(mp) >= 2);
                                assert(false);
                            } else {
                                assert(false);
                            }
                        }
                        assert forall|p: (i64, V)| #[trigger] kvs(t).count(p) > 0 && p.0
                            > k implies p.0 >= mp.0 by {
                            if kvs(x.left).count(p) > 0 {
                                assert(p.0 <= x.key);
                            } else if kvs(x.right).count(p) > 0 {
                                assert(p.0 >= mp.0);
                            } else {
                                assert(p == (x.key, x.value));
                            }
                        }
                        jr = mp.0;
                        assert(is_tight_succ(kvs(t), k, jr, mp.1));
                    }
                    None => {
                        assert forall|p: (i64, V)| #[trigger] kvs(t).count(p) > 0 implies p.0
                            <= k by {
                            if kvs(x.left).count(p) > 0 {
                            } else if kvs(x.right).count(p) > 0 {
                                assert(kvs(x.right) =~= Multiset::<(i64, V)>::empty());
                            } else {
                                assert(p == (x.key, x.value));
                            }
                        }
                    }
                }
            } else if k < x.key {
                let ji = lemma_successor_semantics(x.left, k);
                let inner = spec_succ(x.left, k);
                if inner is Some {
                    let v = inner.unwrap();
                    assert(is_tight_succ(kvs(x.left), k, ji, v));
                    assert(kvs(x.left).count((ji, v)) > 0);
                    assert(ji <= x.key);
                    assert(kvs(t).count((ji, v)) > 0);
                    assert forall|p: (i64, V)| #[trigger] kvs(t).count(p) > 0 && p.0
                        > k implies p.0 >= ji by {
                        if kvs(x.left).count(p) > 0 {
                        } else if kvs(x.right).count(p) > 0 {
                            assert(p.0 >= x.key);
                        } else {
                            assert(p == (x.key, x.value));
                        }
                    }
                    jr = ji;
                    assert(is_tight_succ(kvs(t), k, jr, v));
                    assert(spec_succ(t, k) == inner);
                } else {
                    assert(spec_succ(t, k) == Some(x.value));
                    assert(kvs(t).count((x.key, x.value)) > 0);
                    assert forall|p: (i64, V)| #[trigger] kvs(t).count(p) > 0 && p.0
                        > k implies p.0 >= x.key by {
                        if kvs(x.left).count(p) > 0 {
                            assert(p.0 <= k);
                        } else if kvs(x.right).count(p) > 0 {
                            assert(p.0 >= x.key);
                        } else {
                            assert(p == (x.key, x.value));
                        }
                    }
                    jr = x.key;
                    assert(is_tight_succ(kvs(t), k, jr, x.value));
                }
            } else {
                let ji = lemma_successor_semantics(x.right, k);
                let inner = spec_succ(x.right, k);
                if inner is Some {
                    let v = inner.unwrap();
                    assert(is_tight_succ(kvs(x.right), k, ji, v));
                    assert(kvs(x.right).count((ji, v)) > 0);
                    assert(kvs(t).count((ji, v)) > 0);
                    assert forall|p: (i64, V)| #[trigger] kvs(t).count(p) > 0 && p.0
                        > k implies p.0 >= ji by {
                        if kvs(x.left).count(p) > 0 {
                            assert(p.0 <= x.key);
                        } else if kvs(x.right).count(p) > 0 {
                        } else {
                            assert(p == (x.key, x.value));
                        }
                    }
                    jr = ji;
                    assert(is_tight_succ(kvs(t), k, jr, v));
                    assert(spec_succ(t, k) == inner);
                } else {
                    assert forall|p: (i64, V)| #[trigger] kvs(t).count(p) > 0 implies p.0
                        <= k by {
                        if kvs(x.left).count(p) > 0 {
                            assert(p.0 <= x.key);
                        } else if kvs(x.right).count(p) > 0 {
                        } else {
                            assert(p == (x.key, x.value));
                        }
                    }
                }
            }
        }
    }
    jr
}

/// Mirror of `lemma_successor_semantics`: the predecessor descent yields
/// nothing when no stored key is below `k`, and otherwise the value
/// stored at the greatest stored key less than `k`. The returned `j` is
/// that witness key.
pub proof fn lemma_predecessor_semantics<V>(t: Option<Box<BSTNode<V>>>, k: i64) -> (j: i64)
    requires
        bst_ok(t),
        distinct_keys(t),
    ensures
        spec_pred(t, k) is None ==> (forall|p: (i64, V)|
            #[trigger] kvs(t).count(p) > 0 ==> p.0 >= k),
        (spec_pred(t, k) matches Some(v) ==> is_tight_pred(kvs(t), k, j, v)),
    decreases t,
{
    let mut jr: i64 = 0;
    match t {
        None => {
        }
        Some(n) => {
            let x = *n;
            assert(n_bst_ok(x));
            assert(n_kvs(x) == kvs(x.left).add(kvs(x.right)).insert((x.key, x.value)));
            lemma_distinct_children(x);
            if k == x.key {
                match x.left {
                    Some(lb) => {
                        assert(bst_ok(x.left));
                        assert(n_bst_ok(*lb));
                        lemma_max_pair(*lb);
                        let mp = n_max_pair(*lb);
                        assert(kvs(x.left).count(mp) > 0);
                        assert(kvs(t).count(mp) > 0);
                        assert(mp.0 <= x.key);
                        assert(kvs(t).count((x.key, x.value)) > 0);
                        if mp.0 == k {
                            if mp == (x.key, x.value) {
                                assert(kvs(t).count(mp) >= 2);
                                assert(false);
                            } else {
                                assert(false);
                            }
                        }
                        assert forall|p: (i64, V)| #[trigger] kvs(t).count(p) > 0 && p.0
                            < k implies p.0 <= mp.0 by {
                            if kvs(x.right).count(p) > 0 {
                                assert(p.0 >= x.key);
                            } else if kvs(x.left).count(p) > 0 {
                                assert(p.0 <= mp.0);
                            } else {
                                assert(p == (x.key, x.value));
                            }
                        }
                        jr = mp.0;
                        assert(is_tight_pred(kvs(t), k, jr, mp.1));
                    }
                    None => {
                        assert forall|p: (i64, V)| #[trigger] kvs(t).count(p) > 0 implies p.0
                            >= k by {
                            if kvs(x.right).count(p) > 0 {
                            } else if kvs(x.left).count(p) > 0 {
                                assert(kvs(x.left) =~= Multiset::<(i64, V)>::empty());
                            } else {
                                assert(p == (x.key, x.value));
                            }
                        }
                    }
                }
            } else if k > x.key {
                let ji = lemma_predecessor_semantics(x.right, k);
                let inner = spec_pred(x.right, k);
                if inner is Some {
                    let v = inner.unwrap();
                    assert(is_tight_pred(kvs(x.right), k, ji, v));
                    assert(kvs(x.right).count((ji, v)) > 0);
                    assert(ji >= x.key);
                    assert(kvs(t).count((ji, v)) > 0);
                    assert forall|p: (i64, V)| #[trigger] kvs(t).count(p) > 0 && p.0
                        < k implies p.0 <= ji by {
                        if kvs(x.right).count(p) > 0 {
                        } else if kvs(x.left).count(p) > 0 {
                            assert(p.0 <= x.key);
                        } else {
                            assert(p == (x.key, x.value));
                        }
                    }
                    jr = ji;
                    assert(is_tight_pred(kvs(t), k, jr, v));
                    assert(spec_pred(t, k) == inner);
                } else {
                    assert(spec_pred(t, k) == Some(x.value));
                    assert(kvs(t).count((x.key, x.value)) > 0);
                    assert forall|p: (i64, V)| #[trigger] kvs(t).count(p) > 0 && p.0
                        < k implies p.0 <= x.key by {
                        if kvs(x.right).count(p) > 0 {
                            assert(p.0 >= k);
                        } else if kvs(x.left).count(p) > 0 {
                            assert(p.0 <= x.key);
                        } else {
                            assert(p == (x.key, x.value));
                        }
                    }
                    jr = x.key;
                    assert(is_tight_pred(kvs(t), k, jr, x.value));
                }
            } else {
                let ji = lemma_predecessor_semantics(x.left, k);
                let inner = spec_pred(x.left, k);
                if inner is Some {
                    let v = inner.unwrap();
                    assert(is_tight_pred(kvs(x.left), k, ji, v));
                    assert(kvs(x.left).count((ji, v)) > 0);
                    assert(kvs(t).count((ji, v)) > 0);
                    assert forall|p: (i64, V)| #[trigger] kvs(t).count(p) > 0 && p.0
                        < k implies p.0 <= ji by {
                        if kvs(x.right).count(p) > 0 {
                            assert(p.0 >= x.key);
                        } else if kvs(x.left).count(p) > 0 {
                        } else {
                            assert(p == (x.key, x.value));
                        }
                    }
                    jr = ji;
                    assert(is_tight_pred(kvs(t), k, jr, v));
                    assert(spec_pred(t, k) == inner);
                } else {
                    assert forall|p: (i64, V)| #[trigger] kvs(t).count(p) > 0 implies p.0
                        >= k by {
                        if kvs(x.right).count(p) > 0 {
                            assert(p.0 >= x.key);
                        } else if kvs(x.left).count(p) > 0 {
                        } else {
                            assert(p == (x.key, x.value));
                        }
                    }
                }
            }
        }
    }
    jr
}

} // verus!
