use crate::db::key_seq::{
    all_ge, all_le, lemma_pairs_contains, lemma_pairs_first, lemma_pairs_of_empty_kids, lemma_pairs_sorted,
    lemma_sorted_all_ge, lemma_sorted_all_le,
    lemma_separated_insert, lemma_separated_join, lemma_separated_parts, lemma_weave_insert,
    lemma_weave_join, lemma_weave_split, pairs, separated, sorted, weave,
};
use crate::db::shape::{
    grow_model, insert_model, lemma_stop_is, place_of, room_model, split_model,
    tree_insert_model,
};
use vstd::multiset::Multiset;
use vstd::prelude::*;

verus! {

/// A node of the search tree.
///
/// `keys` has the fixed capacity `2 * t - 1`; its first `n` slots hold the
/// node's keys in ascending order and the others are zero. A leaf owns no
/// children; any other node owns `n + 1` of them.
#[derive(Debug, PartialEq, Eq)]
pub struct Node {
    pub keys: Vec<u16>,
    pub children: Vec<Box<Node>>,
    pub n: usize,
    pub leaf: bool,
    pub t: usize,
}

impl Node {
    /// The keys that the node itself holds.
    pub open spec fn used_keys(&self) -> Seq<u16> {
        self.keys@.take(self.n as int)
    }

    /// The traversal of child `j`, empty where there is no such child.
    pub open spec fn kid_flat(&self, j: int) -> Seq<u16>
        decreases self, 0nat,
    {
        if 0 <= j < self.children.len() {
            self.children[j].flat()
        } else {
            Seq::empty()
        }
    }

    /// The traversals of the `n + 1` subtrees beside the node's keys.
    pub open spec fn kid_flats(&self) -> Seq<Seq<u16>>
        decreases self, 1nat,
    {
        Seq::new((self.n + 1) as nat, |j: int| self.kid_flat(j))
    }

    /// All keys of the subtree, in traversal order: the subtrees of the
    /// `n + 1` children and the node's `n` keys alternate.
    pub open spec fn flat(&self) -> Seq<u16>
        decreases self, 2nat,
    {
        weave(self.kid_flats(), self.used_keys())
    }

    /// Number of levels below the node.
    pub open spec fn height(&self) -> nat
        decreases self,
    {
        if self.children.len() == 0 {
            0
        } else {
            self.children[0].height() + 1
        }
    }
}

/// The minimum degrees that a tree can have: at least 2, and small enough for
/// a full node's child count, `2 * t`, to be a `usize`.
pub open spec fn degree_ok(t: usize) -> bool {
    2 <= t && 2 * t <= usize::MAX
}

impl Node {
    /// The node's own shape, without a word on its children's.
    pub open spec fn shape(&self, t: usize, min_keys: nat) -> bool {
        &&& degree_ok(t)
        &&& self.t == t
        &&& self.keys.len() == 2 * t - 1
        &&& min_keys <= self.n <= 2 * t - 1
        &&& forall|j: int| self.n <= j < self.keys.len() ==> self.keys[j] == 0
        &&& if self.leaf {
            self.children.len() == 0
        } else {
            self.children.len() == self.n + 1
        }
    }

    /// The invariant of a subtree whose top node must hold at least
    /// `min_keys` keys: every node below it holds between `t - 1` and
    /// `2 * t - 1` keys, all leaves lie at one depth, each node's keys are in
    /// ascending order, and the keys of each subtree lie between the
    /// separators beside it.
    pub open spec fn wf(&self, t: usize, min_keys: nat) -> bool
        decreases self,
    {
        &&& self.shape(t, min_keys)
        &&& forall|j: int|
            0 <= j < self.children.len() ==> (#[trigger] self.children[j]).wf(t, (t - 1) as nat)
        &&& forall|j: int|
            0 <= j < self.children.len() ==> (#[trigger] self.children[j]).height()
                == self.children[0].height()
        &&& separated(self.kid_flats(), self.used_keys())
    }

    /// The node's own shape but for its unused key slots, which may hold
    /// anything.
    pub open spec fn outline(&self, t: usize, min_keys: nat) -> bool {
        &&& degree_ok(t)
        &&& self.t == t
        &&& self.keys.len() == 2 * t - 1
        &&& min_keys <= self.n <= 2 * t - 1
        &&& if self.leaf {
            self.children.len() == 0
        } else {
            self.children.len() == self.n + 1
        }
    }

    /// The invariant of a subtree but for the unused key slots: all that
    /// `wf` asks of the keys that the nodes hold and of the children, and
    /// nothing of the slots from `n` on. It is all that reading the subtree
    /// needs.
    pub open spec fn ordered(&self, t: usize, min_keys: nat) -> bool
        decreases self,
    {
        &&& self.outline(t, min_keys)
        &&& forall|j: int|
            0 <= j < self.children.len() ==> (#[trigger] self.children[j]).ordered(
                t,
                (t - 1) as nat,
            )
        &&& forall|j: int|
            0 <= j < self.children.len() ==> (#[trigger] self.children[j]).height()
                == self.children[0].height()
        &&& separated(self.kid_flats(), self.used_keys())
    }

    /// A well-formed subtree is ordered.
    pub proof fn lemma_wf_ordered(&self, t: usize, min_keys: nat)
        requires
            self.wf(t, min_keys),
        ensures
            self.ordered(t, min_keys),
        decreases self,
    {
        assert forall|j: int| 0 <= j < self.children.len() implies (
        #[trigger] self.children[j]).ordered(t, (t - 1) as nat) by {
            self.children[j].lemma_wf_ordered(t, (t - 1) as nat);
        }
    }

    /// What being ordered says of the node itself.
    pub proof fn lemma_ordered_outline(&self, t: usize, min_keys: nat)
        requires
            self.ordered(t, min_keys),
        ensures
            self.outline(t, min_keys),
            sorted(self.used_keys()),
    {
    }

    /// A subtree that is ordered for one minimum is so for any smaller one.
    pub proof fn lemma_ordered_relax(&self, t: usize, min_keys: nat, fewer: nat)
        requires
            self.ordered(t, min_keys),
            fewer <= min_keys,
        ensures
            self.ordered(t, fewer),
            self.t == t,
    {
    }

    /// The children of an ordered node are ordered, and one level lower.
    pub proof fn lemma_ordered_child(&self, t: usize, min_keys: nat, j: int)
        requires
            self.ordered(t, min_keys),
            0 <= j < self.children.len(),
        ensures
            self.children[j].t == t,
            self.children[j].ordered(t, 0),
            self.children[j].ordered(t, (t - 1) as nat),
            self.children[j].height() + 1 == self.height(),
            self.kid_flat(j) == self.children[j].flat(),
    {
        self.children[j].lemma_ordered_relax(t, (t - 1) as nat, 0);
    }

    /// A subtree that is well formed for one minimum is so for any smaller one.
    pub proof fn lemma_wf_relax(&self, t: usize, min_keys: nat, fewer: nat)
        requires
            self.wf(t, min_keys),
            fewer <= min_keys,
        ensures
            self.wf(t, fewer),
            self.t == t,
    {
    }

    /// What well-formedness says of the node itself.
    pub proof fn lemma_wf_shape(&self, t: usize, min_keys: nat)
        requires
            self.wf(t, min_keys),
        ensures
            self.shape(t, min_keys),
            sorted(self.used_keys()),
    {
    }

    /// The children of a well-formed node are well formed as nodes below a root.
    pub proof fn lemma_wf_child(&self, t: usize, min_keys: nat, j: int)
        requires
            self.wf(t, min_keys),
            0 <= j < self.children.len(),
        ensures
            self.children[j].t == t,
            self.children[j].wf(t, 0),
            self.children[j].wf(t, (t - 1) as nat),
            self.children[j].height() + 1 == self.height(),
            self.kid_flat(j) == self.children[j].flat(),
    {
        self.children[j].lemma_wf_relax(t, (t - 1) as nat, 0);
    }

    /// A leaf's traversal is its keys.
    pub proof fn lemma_flat_of_leaf(&self)
        requires
            self.children.len() == 0,
            self.n <= self.keys.len(),
        ensures
            self.flat() == self.used_keys(),
    {
        let kids = self.kid_flats();
        lemma_pairs_of_empty_kids(kids.drop_last(), self.used_keys());
        assert(self.flat() =~= self.used_keys());
    }

    /// A key is in the subtree exactly if the node holds it or a subtree does.
    pub proof fn lemma_flat_contains(&self, k: u16)
        requires
            self.n <= self.keys.len(),
        ensures
            self.flat().contains(k) <==> (self.used_keys().contains(k) || exists|j: int|
                0 <= j <= self.n && #[trigger] self.kid_flat(j).contains(k)),
    {
        let kids = self.kid_flats();
        let front = kids.drop_last();
        let keys = self.used_keys();
        let p = pairs(front, keys);
        lemma_pairs_contains(front, keys, k);
        assert(self.flat() == p + kids.last());
        assert(kids.last() == self.kid_flat(self.n as int));
        if self.flat().contains(k) {
            let i = choose|i: int| 0 <= i < self.flat().len() && self.flat()[i] == k;
            if i < p.len() {
                assert(p[i] == k);
                assert(p.contains(k));
                if !keys.contains(k) {
                    let j = choose|j: int| 0 <= j < front.len() && (#[trigger] front[j]).contains(k);
                    assert(front[j] == self.kid_flat(j));
                }
            } else {
                assert(kids.last()[i - p.len()] == k);
                assert(self.kid_flat(self.n as int).contains(k));
            }
        }
        if keys.contains(k) {
            assert(p.contains(k));
            let i = choose|i: int| 0 <= i < p.len() && p[i] == k;
            assert(self.flat()[i] == k);
        }
        if exists|j: int| 0 <= j <= self.n && #[trigger] self.kid_flat(j).contains(k) {
            let j = choose|j: int| 0 <= j <= self.n && #[trigger] self.kid_flat(j).contains(k);
            if j < self.n {
                assert(front[j] == self.kid_flat(j));
                assert(p.contains(k));
                let i = choose|i: int| 0 <= i < p.len() && p[i] == k;
                assert(self.flat()[i] == k);
            } else {
                let i = choose|i: int| 0 <= i < kids.last().len() && kids.last()[i] == k;
                assert(self.flat()[p.len() + i] == k);
            }
        }
    }

    /// The traversal of a well-formed subtree is sorted.
    pub proof fn lemma_flat_sorted(&self, t: usize, min_keys: nat)
        requires
            self.wf(t, min_keys),
        ensures
            sorted(self.flat()),
    {
        self.lemma_wf_ordered(t, min_keys);
        self.lemma_ordered_sorted(t, min_keys);
    }

    /// The traversal of an ordered subtree is sorted.
    pub proof fn lemma_ordered_sorted(&self, t: usize, min_keys: nat)
        requires
            self.ordered(t, min_keys),
        ensures
            sorted(self.flat()),
    {
        let kids = self.kid_flats();
        let front = kids.drop_last();
        let keys = self.used_keys();
        let n = self.n as int;
        assert(separated(front, keys)) by {
            assert forall|j: int| 0 <= j < front.len() implies sorted(#[trigger] front[j]) by {
                assert(front[j] == kids[j]);
            }
            assert forall|j: int| 0 <= j < front.len() && j < keys.len() implies all_le(
                #[trigger] front[j],
                keys[j],
            ) by {
                assert(front[j] == kids[j]);
            }
            assert forall|j: int| 0 < j < front.len() && j <= keys.len() implies all_ge(
                #[trigger] front[j],
                keys[j - 1],
            ) by {
                assert(front[j] == kids[j]);
            }
        }
        lemma_pairs_sorted(front, keys);
        let p = pairs(front, keys);
        let last = kids.last();
        let all = self.flat();
        assert(all == p + last);
        assert(last == kids[n]);
        assert(sorted(last));
        if n > 0 {
            assert(all_ge(last, keys[n - 1]));
            assert(all_le(p, keys[n - 1]));
        } else {
            assert(p =~= Seq::<u16>::empty());
        }
        assert forall|i: int, j: int| 0 <= i <= j < all.len() implies all[i] <= all[j] by {
            if j < p.len() {
                assert(all[i] == p[i] && all[j] == p[j]);
            } else {
                assert(all[j] == last[j - p.len()]);
                if i < p.len() {
                    assert(all[i] == p[i]);
                } else {
                    assert(all[i] == last[i - p.len()]);
                }
            }
        }
    }

    /// Where `key` falls strictly between the separators beside child `i`,
    /// only that child can hold it.
    pub proof fn lemma_descend(&self, t: usize, min_keys: nat, key: u16, i: int)
        requires
            self.ordered(t, min_keys),
            0 <= i <= self.n,
            i > 0 ==> self.keys[i - 1] < key,
            i < self.n ==> key < self.keys[i],
        ensures
            self.flat().contains(key) <==> self.kid_flat(i).contains(key),
    {
        self.lemma_flat_contains(key);
        let keys = self.used_keys();
        let kids = self.kid_flats();
        if keys.contains(key) {
            let m = choose|m: int| 0 <= m < keys.len() && keys[m] == key;
            if m < i {
                assert(keys[m] <= keys[i - 1]);
            } else {
                assert(keys[i] <= keys[m]);
            }
        }
        assert forall|j: int| 0 <= j <= self.n && j != i implies !#[trigger] self.kid_flat(
            j,
        ).contains(key) by {
            if self.kid_flat(j).contains(key) {
                let x = choose|x: int| 0 <= x < self.kid_flat(j).len() && self.kid_flat(j)[x] == key;
                assert(kids[j] == self.kid_flat(j));
                if j < i {
                    assert(all_le(kids[j], keys[j]));
                    assert(kids[j][x] <= keys[j]);
                    assert(keys[j] <= keys[i - 1]);
                } else {
                    assert(all_ge(kids[j], keys[j - 1]));
                    assert(keys[j - 1] <= kids[j][x]);
                    assert(keys[i] <= keys[j - 1]);
                }
            }
        }
    }

    /// A node without keys or children, with all `2 * t - 1` key slots zeroed.
    pub fn new(t: usize, leaf: bool) -> (node: Self)
        requires
            1 <= t,
            2 * t - 1 <= usize::MAX,
        ensures
            node.t == t,
            node.leaf == leaf,
            node.n == 0,
            node.children@.len() == 0,
            node.keys@ == Seq::new((2 * t - 1) as nat, |j: int| 0u16),
    {
        let cap: usize = t - 1 + t;
        let mut keys: Vec<u16> = Vec::new();
        let mut j: usize = 0;
        while j < cap
            invariant
                j <= cap,
                keys@ == Seq::new(j as nat, |j: int| 0u16),
            decreases cap - j,
        {
            keys.push(0);
            j += 1;
            assert(keys@ =~= Seq::new(j as nat, |j: int| 0u16));
        }
        Node { keys, children: Vec::new(), n: 0, leaf, t }
    }

    /// `left` and `right` are what a split makes of this full node: `left`
    /// has its first `t - 1` keys and first `t` children, `right` its last
    /// `t - 1` keys and last `t` children, and the median key is in neither.
    pub open spec fn split_into(&self, left: Node, right: Node) -> bool {
        let t = self.t as int;
        &&& left.t == self.t && right.t == self.t
        &&& left.leaf == self.leaf && right.leaf == self.leaf
        &&& left.n == t - 1 && right.n == t - 1
        &&& left.keys.len() == 2 * t - 1 && right.keys.len() == 2 * t - 1
        &&& forall|x: int| 0 <= x < t - 1 ==> left.keys[x] == self.keys[x]
        &&& forall|x: int| 0 <= x < t - 1 ==> right.keys[x] == self.keys[x + t]
        &&& forall|x: int| t - 1 <= x < 2 * t - 1 ==> left.keys[x] == 0 && right.keys[x] == 0
        &&& if self.leaf {
            left.children.len() == 0 && right.children.len() == 0
        } else {
            &&& left.children@ == self.children@.subrange(0, t)
            &&& right.children@ == self.children@.subrange(t, 2 * t)
        }
    }

    /// The node is the node `pre` after the split of its child `i` into
    /// `left` and `right` around the key `mid`.
    pub open spec fn after_split_of(&self, pre: Node, i: int, left: Node, mid: u16, right: Node) -> bool {
        &&& self.t == pre.t
        &&& self.leaf == pre.leaf
        &&& self.n == pre.n + 1
        &&& self.keys@ == pre.keys@.insert(i, mid).drop_last()
        &&& self.children@ == pre.children@.update(i, Box::new(left)).insert(i + 1, Box::new(right))
    }

    /// The keys and the subtrees of the halves of a full node are those of
    /// the node, left and right of the median.
    pub proof fn lemma_split_views(&self, left: Node, right: Node)
        requires
            self.shape(self.t, (2 * self.t - 1) as nat),
            self.split_into(left, right),
        ensures
            self.used_keys() == self.keys@,
            left.used_keys() == self.used_keys().take(self.t - 1),
            right.used_keys() == self.used_keys().skip(self.t as int),
            left.kid_flats() == self.kid_flats().take(self.t as int),
            right.kid_flats() == self.kid_flats().skip(self.t as int),
    {
        let t = self.t as int;
        let kids = self.kid_flats();
        let keys = self.used_keys();
        assert(keys =~= self.keys@);
        assert(left.used_keys() =~= keys.take(t - 1));
        assert(right.used_keys() =~= keys.skip(t));
        assert forall|x: int| 0 <= x < t implies left.kid_flat(x) == self.kid_flat(x)
            && right.kid_flat(x) == self.kid_flat(x + t) by {
            if !self.leaf {
                assert(left.children[x] == self.children[x]);
                assert(right.children[x] == self.children[x + t]);
            }
        }
        assert(left.kid_flats() =~= kids.take(t));
        assert(right.kid_flats() =~= kids.skip(t));
    }

    /// The halves of a full node have the shape of nodes, their subtrees
    /// respect their keys, and their traversals with the median between
    /// them are the traversal of the node.
    pub proof fn lemma_split_parts(&self, left: Node, right: Node)
        requires
            self.shape(self.t, (2 * self.t - 1) as nat),
            separated(self.kid_flats(), self.used_keys()),
            self.split_into(left, right),
        ensures
            left.shape(self.t, (self.t - 1) as nat),
            right.shape(self.t, (self.t - 1) as nat),
            separated(left.kid_flats(), left.used_keys()),
            separated(right.kid_flats(), right.used_keys()),
            self.flat() == left.flat() + seq![self.keys[self.t - 1]] + right.flat(),
            left.used_keys() == self.used_keys().take(self.t - 1),
            right.used_keys() == self.used_keys().skip(self.t as int),
    {
        let t = self.t;
        let kids = self.kid_flats();
        let keys = self.used_keys();
        self.lemma_split_views(left, right);
        lemma_separated_parts(kids, keys, t - 1);
        lemma_weave_split(kids, keys, t - 1);
    }

    /// A node made of `t` neighbouring children of a well-formed node, with
    /// keys that its subtrees respect, is well formed and as high as that node.
    pub proof fn lemma_half_wf(&self, half: Node, first: int)
        requires
            self.wf(self.t, (self.t - 1) as nat),
            half.shape(self.t, (self.t - 1) as nat),
            half.leaf == self.leaf,
            0 <= first,
            !self.leaf ==> first + half.children.len() <= self.children.len(),
            !self.leaf ==> half.children@ == self.children@.subrange(
                first,
                first + half.children.len(),
            ),
            separated(half.kid_flats(), half.used_keys()),
        ensures
            half.wf(self.t, (self.t - 1) as nat),
            half.height() == self.height(),
    {
        let t = self.t;
        assert forall|x: int| 0 <= x < half.children.len() implies (#[trigger] half.children[x]).wf(
            t,
            (t - 1) as nat,
        ) && half.children[x].height() == self.children[0].height() by {
            assert(half.children[x] == self.children[first + x]);
            assert(self.children[first + x].height() == self.children[0].height());
        }
        if !self.leaf {
            assert(half.children[0].height() == self.children[0].height());
        }
    }

    /// The halves of a full well-formed node are well formed, as high as the
    /// node was, and hold between them all its keys but the median.
    #[verifier::rlimit(40)]
    pub proof fn lemma_split_halves(&self, left: Node, right: Node)
        requires
            self.wf(self.t, (self.t - 1) as nat),
            self.n == 2 * self.t - 1,
            self.split_into(left, right),
        ensures
            left.wf(self.t, (self.t - 1) as nat),
            right.wf(self.t, (self.t - 1) as nat),
            left.height() == self.height(),
            right.height() == self.height(),
            self.flat() == left.flat() + seq![self.keys[self.t - 1]] + right.flat(),
            left.used_keys() == self.used_keys().take(self.t - 1),
            right.used_keys() == self.used_keys().skip(self.t as int),
    {
        let t = self.t;
        self.lemma_wf_shape(t, (2 * t - 1) as nat);
        self.lemma_split_parts(left, right);
        self.lemma_half_wf(left, 0);
        self.lemma_half_wf(right, t as int);
    }

    /// The keys and the subtrees of a node after the split of its child `i`
    /// are what they were, with the median among the keys and the two
    /// halves in the place of the child.
    pub proof fn lemma_split_parent_views(
        &self,
        pre: Node,
        i: int,
        left: Node,
        mid: u16,
        right: Node,
    )
        requires
            pre.children.len() == pre.n + 1,
            pre.n < pre.keys.len(),
            0 <= i <= pre.n,
            self.after_split_of(pre, i, left, mid, right),
        ensures
            self.used_keys() == pre.used_keys().insert(i, mid),
            self.kid_flats() == pre.kid_flats().update(i, left.flat()).insert(
                i + 1,
                right.flat(),
            ),
            pre.kid_flats()[i] == pre.children[i].flat(),
            pre.kid_flats().len() == pre.used_keys().len() + 1,
    {
        let kids = pre.kid_flats();
        let kids2 = kids.update(i, left.flat()).insert(i + 1, right.flat());
        assert forall|x: int| 0 <= x < self.n + 1 implies self.kid_flat(x) == kids2[x] by {
            if x < i {
                assert(self.children[x] == pre.children[x]);
                assert(kids[x] == pre.kid_flat(x));
            } else if x > i + 1 {
                assert(self.children[x] == pre.children[x - 1]);
                assert(kids[x - 1] == pre.kid_flat(x - 1));
            } else if x == i {
                assert(*self.children[x] == left);
            } else {
                assert(*self.children[x] == right);
            }
        }
        assert(self.kid_flats() =~= kids2);
        assert(self.used_keys() =~= pre.used_keys().insert(i, mid));
    }

    /// The children of a node after the split of its child `i` are well
    /// formed and of one height, that of the children before.
    pub proof fn lemma_split_parent_children(
        &self,
        pre: Node,
        i: int,
        left: Node,
        mid: u16,
        right: Node,
    )
        requires
            pre.wf(pre.t, 0),
            !pre.leaf,
            0 <= i <= pre.n,
            left.wf(pre.t, (pre.t - 1) as nat),
            right.wf(pre.t, (pre.t - 1) as nat),
            left.height() == pre.children[i].height(),
            right.height() == pre.children[i].height(),
            self.after_split_of(pre, i, left, mid, right),
        ensures
            forall|x: int|
                0 <= x < self.children.len() ==> (#[trigger] self.children[x]).wf(
                    pre.t,
                    (pre.t - 1) as nat,
                ),
            forall|x: int|
                0 <= x < self.children.len() ==> (#[trigger] self.children[x]).height()
                    == self.children[0].height(),
            self.height() == pre.height(),
    {
        let t = pre.t;
        let high = pre.children[0].height();
        assert(pre.children[i].height() == high);
        assert forall|x: int| 0 <= x < self.children.len() implies (#[trigger] self.children[x]).wf(
            t,
            (t - 1) as nat,
        ) && self.children[x].height() == high by {
            if x < i {
                assert(self.children[x] == pre.children[x]);
                assert(pre.children[x].height() == high);
            } else if x > i + 1 {
                assert(self.children[x] == pre.children[x - 1]);
                assert(pre.children[x - 1].height() == high);
            } else if x == i {
                assert(*self.children[x] == left);
            } else {
                assert(*self.children[x] == right);
            }
        }
        assert(self.children[0].height() == high);
    }

    /// A node stays well formed, as high as it was and with the traversal it
    /// had, when a full child of it is split.
    #[verifier::rlimit(40)]
    pub proof fn lemma_split_parent(&self, pre: Node, i: int, left: Node, mid: u16, right: Node)
        requires
            pre.wf(pre.t, 0),
            !pre.leaf,
            pre.n < 2 * pre.t - 1,
            0 <= i <= pre.n,
            pre.children[i].n == 2 * pre.t - 1,
            pre.children[i].split_into(left, right),
            mid == pre.children[i].keys[pre.t - 1],
            self.after_split_of(pre, i, left, mid, right),
        ensures
            self.wf(pre.t, 1),
            self.flat() == pre.flat(),
            self.height() == pre.height(),
            self.used_keys() == pre.used_keys().insert(i, mid),
    {
        let t = pre.t;
        let full = *pre.children[i];
        pre.lemma_wf_shape(t, 0);
        pre.lemma_wf_child(t, 0, i);
        full.lemma_split_halves(left, right);
        self.lemma_split_parent_views(pre, i, left, mid, right);
        self.lemma_split_parent_children(pre, i, left, mid, right);
        let kids = pre.kid_flats();
        let keys = pre.used_keys();
        assert(separated(kids, keys));
        lemma_separated_join(kids, keys, i, left.flat(), mid, right.flat());
        lemma_weave_join(kids, keys, i, left.flat(), mid, right.flat());
        assert(self.shape(t, 1));
    }

    /// Splits the full child `i` around its median key.
    ///
    /// The child keeps its first `t - 1` keys (and first `t` children), a new
    /// right sibling at `i + 1` takes the last `t - 1` keys (and last `t`
    /// children), and the median becomes the separator between them. The
    /// traversal of the node is what it was.
    #[verifier::rlimit(40)]
    pub fn split_child(&mut self, i: usize)
        requires
            old(self).wf(old(self).t, 0),
            !old(self).leaf,
            old(self).n < 2 * old(self).t - 1,
            i <= old(self).n,
            old(self).children[i as int].n == 2 * old(self).t - 1,
        ensures
            final(self).after_split_of(
                *old(self),
                i as int,
                *final(self).children[i as int],
                old(self).children[i as int].keys[old(self).t - 1],
                *final(self).children[i + 1],
            ),
            old(self).children[i as int].split_into(
                *final(self).children[i as int],
                *final(self).children[i + 1],
            ),
            final(self).wf(old(self).t, 1),
            final(self).flat() == old(self).flat(),
            final(self).height() == old(self).height(),
            final(self).model() == split_model(old(self).model(), i as int, old(self).t as int),
    {
        let t = self.t;
        let ghost pre = *self;
        proof {
            pre.lemma_wf_shape(t, 0);
            pre.lemma_wf_child(t, 0, i as int);
            pre.children[i as int].lemma_wf_shape(t, 0);
        }
        let cap: usize = 2 * t - 1;
        let mut y: Node = *self.children.remove(i);
        let ghost full = y;
        let mut z = Node::new(t, y.leaf);
        let mut j: usize = 0;
        while j < t - 1
            invariant
                j <= t - 1,
                degree_ok(t),
                y == full,
                full.keys.len() == 2 * t - 1,
                z.keys.len() == 2 * t - 1,
                z.children.len() == 0,
                z.leaf == full.leaf,
                z.t == t,
                forall|x: int| 0 <= x < j ==> z.keys[x] == full.keys[x + t],
                forall|x: int| j <= x < 2 * t - 1 ==> z.keys[x] == 0,
            decreases t - 1 - j,
        {
            z.keys[j] = y.keys[j + t];
            j += 1;
        }
        let mid = y.keys[t - 1];
        j = t - 1;
        while j < cap
            invariant
                t - 1 <= j <= cap,
                cap == 2 * t - 1,
                y.keys.len() == cap,
                y.children == full.children,
                y.leaf == full.leaf,
                y.t == full.t,
                forall|x: int| 0 <= x < t - 1 ==> y.keys[x] == full.keys[x],
                forall|x: int| t - 1 <= x < j ==> y.keys[x] == 0,
            decreases cap - j,
        {
            y.keys[j] = 0;
            j += 1;
        }
        if !y.leaf {
            z.children = y.children.split_off(t);
        }
        y.n = t - 1;
        z.n = t - 1;
        let ghost left = y;
        let ghost right = z;
        assert(full.split_into(left, right));
        self.children.insert(i, Box::new(y));
        self.children.insert(i + 1, Box::new(z));
        self.keys.insert(i, mid);
        self.keys.pop();
        self.n = self.n + 1;
        proof {
            assert(self.children@ =~= pre.children@.update(i as int, Box::new(left)).insert(
                i + 1,
                Box::new(right),
            ));
            assert(self.after_split_of(pre, i as int, left, mid, right));
            self.lemma_split_parent(pre, i as int, left, mid, right);
            self.lemma_split_model(pre, i as int, left, mid, right);
        }
    }

    /// A well-formed subtree is well formed for any minimum that its top node meets.
    pub proof fn lemma_wf_min(&self, t: usize, min_keys: nat, other: nat)
        requires
            self.wf(t, min_keys),
            other <= self.n,
        ensures
            self.wf(t, other),
    {
    }

    /// A node stays well formed and as high as it was when a key that belongs
    /// under child `c` is added there, and its traversal gains that key at
    /// one place.
    #[verifier::rlimit(40)]
    pub proof fn lemma_insert_parent(&self, pre: Node, c: int, p: int, key: u16)
        requires
            pre.wf(pre.t, 0),
            !pre.leaf,
            0 <= c <= pre.n,
            c > 0 ==> pre.keys[c - 1] <= key,
            c < pre.n ==> key <= pre.keys[c],
            self.t == pre.t,
            self.leaf == pre.leaf,
            self.n == pre.n,
            self.keys == pre.keys,
            self.children.len() == pre.children.len(),
            forall|j: int| 0 <= j < pre.children.len() && j != c ==> self.children[j] == pre.children[j],
            self.children[c].wf(pre.t, 0),
            self.children[c].n >= pre.children[c].n,
            self.children[c].height() == pre.children[c].height(),
            0 <= p <= pre.children[c].flat().len(),
            self.children[c].flat() == pre.children[c].flat().insert(p, key),
        ensures
            self.wf(pre.t, 0),
            self.height() == pre.height(),
            exists|q: int|
                0 <= q <= pre.flat().len() && self.flat() == #[trigger] pre.flat().insert(q, key),
    {
        let t = pre.t;
        let kids = pre.kid_flats();
        let keys = pre.used_keys();
        let grown = kids[c].insert(p, key);
        let kids2 = kids.update(c, grown);
        pre.lemma_wf_child(t, 0, c);
        self.children[c].lemma_wf_min(t, 0, (t - 1) as nat);
        self.children[c].lemma_flat_sorted(t, 0);
        assert(self.kid_flats() =~= kids2) by {
            assert forall|x: int| 0 <= x < self.n + 1 implies self.kid_flat(x) == kids2[x] by {
                if x != c {
                    assert(self.children[x] == pre.children[x]);
                    assert(kids[x] == pre.kid_flat(x));
                }
            }
        }
        assert(self.used_keys() == keys);
        lemma_separated_insert(kids, keys, c, p, key);
        let q = lemma_weave_insert(kids, keys, c, p, key);
        assert(self.flat() == pre.flat().insert(q, key));
        assert forall|x: int| 0 <= x < self.children.len() implies (#[trigger] self.children[x]).wf(
            t,
            (t - 1) as nat,
        ) && self.children[x].height() == pre.children[0].height() by {
            if x != c {
                assert(self.children[x] == pre.children[x]);
            }
            assert(pre.children[x].height() == pre.children[0].height());
        }
        assert(self.shape(t, 0));
    }

    /// A leaf stays well formed when a key takes its sorted place `i` among
    /// its keys, and its traversal gains that key there.
    pub proof fn lemma_insert_leaf(&self, pre: Node, i: int, key: u16)
        requires
            pre.wf(pre.t, 0),
            pre.leaf,
            pre.n < 2 * pre.t - 1,
            0 <= i <= pre.n,
            i > 0 ==> pre.keys[i - 1] <= key,
            i < pre.n ==> key <= pre.keys[i],
            self.t == pre.t,
            self.leaf,
            self.n == pre.n + 1,
            self.children == pre.children,
            self.keys@ == pre.keys@.insert(i, key).drop_last(),
        ensures
            self.wf(pre.t, 1),
            self.height() == pre.height(),
            self.flat() == pre.flat().insert(i, key),
    {
        let before = pre.used_keys();
        let after = self.used_keys();
        assert(after =~= before.insert(i, key));
        pre.lemma_flat_of_leaf();
        self.lemma_flat_of_leaf();
        assert(sorted(after)) by {
            assert forall|x: int, y: int| 0 <= x <= y < after.len() implies after[x] <= after[y] by {
                if y < i {
                    assert(before[x] <= before[y]);
                } else if y == i {
                    if x < i {
                        assert(before[x] <= before[i - 1]);
                    }
                } else {
                    if x < i {
                        assert(before[x] <= before[y - 1]);
                    } else if x > i {
                        assert(before[x - 1] <= before[y - 1]);
                    } else {
                        assert(before[i] <= before[y - 1]);
                    }
                }
            }
        }
        assert(self.kid_flats() =~= Seq::new((self.n + 1) as nat, |j: int| Seq::<u16>::empty()));
        assert(self.shape(pre.t, 1));
    }

    /// Puts `key` at its place among the keys of a leaf that is not full:
    /// the keys above it move one slot to the right.
    fn insert_into_leaf(&mut self, key: u16)
        requires
            old(self).wf(old(self).t, 0),
            old(self).leaf,
            old(self).n < 2 * old(self).t - 1,
        ensures
            final(self).wf(old(self).t, 1),
            final(self).n == old(self).n + 1,
            final(self).leaf,
            final(self).height() == old(self).height(),
            0 <= place_of(old(self).flat(), key) <= old(self).flat().len(),
            final(self).flat() == old(self).flat().insert(
                place_of(old(self).flat(), key),
                key,
            ),
            final(self).model() == insert_model(old(self).model(), old(self).t as int, key),
    {
        let ghost pre = *self;
        proof {
            pre.lemma_wf_shape(pre.t, 0);
        }
        let i: usize = self.child_for(key);
        let mut j: usize = self.n;
        while j > i
            invariant
                i <= j <= pre.n < pre.keys.len(),
                self.n == pre.n,
                self.leaf == pre.leaf,
                self.t == pre.t,
                self.children == pre.children,
                self.keys.len() == pre.keys.len(),
                forall|x: int| 0 <= x < j ==> self.keys[x] == pre.keys[x],
                forall|x: int| j < x <= pre.n ==> self.keys[x] == pre.keys[x - 1],
                forall|x: int| pre.n < x < pre.keys.len() ==> self.keys[x] == pre.keys[x],
            decreases j,
        {
            let moved = self.keys[j - 1];
            self.keys[j] = moved;
            j -= 1;
        }
        self.keys[i] = key;
        self.n = self.n + 1;
        proof {
            assert forall|x: int| pre.n < x < pre.keys.len() implies self.keys[x]
                == pre.keys[x - 1] by {
                assert(pre.keys[x] == 0 && pre.keys[x - 1] == 0);
            }
            assert(self.keys@ =~= pre.keys@.insert(i as int, key).drop_last());
            if i < pre.n {
                assert(pre.keys[i as int] > key);
            }
            self.lemma_insert_leaf(pre, i as int, key);
            pre.lemma_flat_of_leaf();
            assert(self.used_keys() =~= pre.used_keys().insert(i as int, key));
            self.lemma_model_children();
            pre.lemma_model_children();
            assert(self.model().children =~= pre.model().children);
        }
    }

    /// The place of `key` among the node's keys: the number of the keys
    /// that are not above it. In a node that is no leaf this is the index
    /// of the child under which `key` belongs.
    fn child_for(&self, key: u16) -> (i: usize)
        requires
            self.n <= self.keys.len(),
        ensures
            i <= self.n,
            i == place_of(self.used_keys(), key),
            i > 0 ==> self.keys[i - 1] <= key,
            forall|x: int| i <= x < self.n ==> self.keys[x] > key,
    {
        let ghost keys = self.used_keys();
        let mut i: usize = self.n;
        proof {
            assert(keys.take(i as int) =~= keys);
        }
        while i > 0 && self.keys[i - 1] > key
            invariant
                i <= self.n <= self.keys.len(),
                keys == self.used_keys(),
                place_of(keys, key) == place_of(keys.take(i as int), key),
                forall|x: int| i <= x < self.n ==> self.keys[x] > key,
            decreases i,
        {
            proof {
                assert(keys.take(i as int).drop_last() =~= keys.take(i - 1));
                assert(keys.take(i as int).last() == self.keys[i - 1]);
            }
            i -= 1;
        }
        proof {
            if i > 0 {
                assert(keys.take(i as int).last() == self.keys[i - 1]);
            }
        }
        i
    }

    /// Picks the child under which `key` belongs and makes sure that it has
    /// room: a full child is split, and the key then belongs under one of its
    /// halves. Returns the index of the child to go on with.
    fn child_with_room(&mut self, key: u16) -> (c: usize)
        requires
            old(self).wf(old(self).t, 0),
            !old(self).leaf,
            old(self).n < 2 * old(self).t - 1,
        ensures
            final(self).wf(old(self).t, 0),
            final(self).t == old(self).t,
            !final(self).leaf,
            final(self).n >= old(self).n,
            final(self).flat() == old(self).flat(),
            final(self).height() == old(self).height(),
            c <= final(self).n,
            c < final(self).children.len(),
            c > 0 ==> final(self).keys[c - 1] <= key,
            c < final(self).n ==> key <= final(self).keys[c as int],
            final(self).children[c as int].n < 2 * old(self).t - 1,
            (final(self).model(), c as int) == room_model(
                old(self).model(),
                old(self).t as int,
                key,
            ),
    {
        let ghost pre = *self;
        proof {
            pre.lemma_wf_shape(pre.t, 0);
        }
        let mut i: usize = self.child_for(key);
        proof {
            pre.lemma_wf_child(pre.t, 0, i as int);
            pre.children[i as int].lemma_wf_shape(pre.t, 0);
            pre.lemma_model_children();
            assert(pre.model().children[i as int].keys.len() == pre.children[i as int].n);
        }
        if self.children[i].n == 2 * self.t - 1 {
            self.split_child(i);
            proof {
                self.lemma_wf_shape(pre.t, 1);
                self.lemma_wf_relax(pre.t, 1, 0);
                assert(self.model().keys[i as int] == self.keys[i as int]);
            }
            if self.keys[i] < key {
                i += 1;
            }
        }
        i
    }

    /// Adds `key` to the subtree of a node that is not full.
    ///
    /// In a leaf the key takes its place among the node's keys. Elsewhere it
    /// goes to the child whose range holds it; a full child is split first.
    #[verifier::rlimit(40)]
    pub fn insert_non_full(&mut self, key: u16)
        requires
            old(self).wf(old(self).t, 0),
            old(self).n < 2 * old(self).t - 1,
        ensures
            final(self).wf(old(self).t, 0),
            final(self).n >= old(self).n,
            old(self).leaf ==> final(self).n == old(self).n + 1,
            final(self).leaf == old(self).leaf,
            final(self).height() == old(self).height(),
            exists|p: int|
                0 <= p <= old(self).flat().len() && final(self).flat()
                    == #[trigger] old(self).flat().insert(p, key),
            final(self).model() == insert_model(old(self).model(), old(self).t as int, key),
        decreases old(self).height(),
    {
        if self.leaf {
            self.insert_into_leaf(key);
            proof {
                self.lemma_wf_relax(old(self).t, 1, 0);
            }
            return ;
        }
        let ghost pre = *self;
        let c = self.child_with_room(key);
        let ghost mid = *self;
        proof {
            mid.lemma_wf_child(mid.t, 0, c as int);
        }
        let child = &mut self.children[c];
        child.insert_non_full(key);
        proof {
            let p = choose|p: int|
                0 <= p <= mid.children[c as int].flat().len() && self.children[c as int].flat()
                    == #[trigger] mid.children[c as int].flat().insert(p, key);
            self.lemma_insert_parent(mid, c as int, p, key);
            self.lemma_child_model(mid, c as int);
            mid.lemma_model_children();
            pre.lemma_model_height();
            mid.lemma_model_height();
            mid.children[c as int].lemma_model_height();
        }
    }

    /// Looks for `key` in the subtree and returns the node that holds it.
    /// Only the first `n` key slots of a node are looked at.
    pub fn search(&self, key: u16) -> (found: Option<&Node>)
        requires
            self.ordered(self.t, 0),
        ensures
            found.is_some() == self.flat().contains(key),
            found matches Some(node) ==> node.used_keys().contains(key),
            match found {
                Some(node) => self.find(key) == Some(*node),
                None => self.find(key) is None,
            },
        decreases self,
    {
        proof {
            self.lemma_ordered_outline(self.t, 0);
        }
        let mut i: usize = 0;
        while i < self.n && key > self.keys[i]
            invariant
                i <= self.n <= self.keys.len(),
                forall|j: int| 0 <= j < i ==> self.keys[j] < key,
            decreases self.n - i,
        {
            i += 1;
        }
        proof {
            lemma_stop_is(self.used_keys(), key, i as int);
        }
        if i < self.n && key == self.keys[i] {
            proof {
                assert(self.used_keys()[i as int] == key);
                self.lemma_flat_contains(key);
            }
            return Some(self);
        }
        if self.leaf {
            proof {
                self.lemma_flat_of_leaf();
                let keys = self.used_keys();
                if keys.contains(key) {
                    let m = choose|m: int| 0 <= m < keys.len() && keys[m] == key;
                    if m >= i {
                        assert(keys[i as int] <= keys[m]);
                    }
                }
            }
            return None;
        }
        proof {
            self.lemma_descend(self.t, 0, key, i as int);
            self.lemma_ordered_child(self.t, 0, i as int);
        }
        self.children[i].search(key)
    }

    /// The keys of the subtree in ascending order: of every node its first
    /// `n` key slots, whatever the others hold.
    pub fn traverse(&self) -> (out: Vec<u16>)
        requires
            self.ordered(self.t, 0),
        ensures
            out@ == self.flat(),
    {
        let mut out: Vec<u16> = Vec::new();
        self.traverse_into(&mut out);
        out
    }

    /// Appends the keys of the subtree to `out`, in ascending order.
    pub fn traverse_into(&self, out: &mut Vec<u16>)
        requires
            self.ordered(self.t, 0),
        ensures
            final(out)@ == old(out)@ + self.flat(),
        decreases self,
    {
        let ghost start = out@;
        let ghost kids = self.kid_flats();
        let ghost keys = self.used_keys();
        let mut i: usize = 0;
        proof {
            self.lemma_ordered_outline(self.t, 0);
            assert(pairs(kids.take(0), keys.take(0)) =~= Seq::<u16>::empty());
            assert(out@ =~= start + pairs(kids.take(0), keys.take(0)));
        }
        while i < self.n
            invariant
                self.ordered(self.t, 0),
                self.outline(self.t, 0),
                kids == self.kid_flats(),
                keys == self.used_keys(),
                i <= self.n,
                out@ == start + pairs(kids.take(i as int), keys.take(i as int)),
            decreases self.n - i,
        {
            let ghost before = out@;
            if !self.leaf {
                proof {
                    self.lemma_ordered_child(self.t, 0, i as int);
                }
                self.children[i].traverse_into(out);
            }
            assert(kids[i as int] == self.kid_flat(i as int));
            assert(out@ =~= before + kids[i as int]);
            out.push(self.keys[i]);
            proof {
                let k1 = kids.take(i + 1);
                let s1 = keys.take(i + 1);
                assert(k1.drop_last() =~= kids.take(i as int));
                assert(s1.drop_last() =~= keys.take(i as int));
                assert(k1.last() == kids[i as int]);
                assert(s1.last() == self.keys[i as int]);
                assert(out@ =~= start + pairs(k1, s1));
            }
            i += 1;
        }
        let ghost before = out@;
        if !self.leaf {
            proof {
                self.lemma_ordered_child(self.t, 0, i as int);
            }
            self.children[i].traverse_into(out);
        }
        proof {
            assert(kids[i as int] == self.kid_flat(i as int));
            assert(out@ =~= before + kids[i as int]);
            assert(kids.take(i as int) =~= kids.drop_last());
            assert(keys.take(i as int) =~= keys);
            assert(out@ =~= start + self.flat());
        }
    }
}

/// What a node is, apart from how it is laid out in memory: whether it is a
/// leaf, its keys, and its children.
pub struct NodeModel {
    pub leaf: bool,
    pub keys: Seq<u16>,
    pub children: Seq<NodeModel>,
}

/// What a tree is: its minimum degree and its nodes.
pub struct TreeModel {
    pub t: usize,
    pub root: Option<NodeModel>,
}

impl Node {
    /// What the subtree is, apart from its layout.
    pub open spec fn model(&self) -> NodeModel
        decreases self,
    {
        NodeModel {
            leaf: self.leaf,
            keys: self.used_keys(),
            children: Seq::new(
                self.children.len() as nat,
                |j: int|
                    if 0 <= j < self.children.len() {
                        self.children[j].model()
                    } else {
                        NodeModel { leaf: true, keys: Seq::empty(), children: Seq::empty() }
                    },
            ),
        }
    }

    /// The layout that a node of a tree of minimum degree `t` has whatever
    /// it holds: `n` of the key slots are used and the others are zero, and
    /// there are `2 * t - 1` slots wherever the keys fit in as many.
    pub open spec fn tidy(&self, t: usize) -> bool
        decreases self,
    {
        &&& self.t == t
        &&& self.n <= self.keys.len()
        &&& self.keys.len() == if degree_ok(t) && self.n <= 2 * t - 1 {
            (2 * t - 1) as nat
        } else {
            self.n as nat
        }
        &&& forall|j: int| self.n <= j < self.keys.len() ==> self.keys[j] == 0
        &&& forall|j: int| 0 <= j < self.children.len() ==> (#[trigger] self.children[j]).tidy(t)
    }

    /// A well-formed subtree is tidy.
    pub proof fn lemma_wf_tidy(&self, t: usize, min_keys: nat)
        requires
            self.wf(t, min_keys),
        ensures
            self.tidy(t),
        decreases self,
    {
        assert forall|j: int| 0 <= j < self.children.len() implies (#[trigger] self.children[j]).tidy(
            t,
        ) by {
            self.children[j].lemma_wf_tidy(t, (t - 1) as nat);
        }
    }

    /// Tidy subtrees that are the same apart from their layout have the
    /// same traversal and the same height.
    pub proof fn lemma_model_flat(&self, other: Node, t: usize)
        requires
            self.tidy(t),
            other.tidy(t),
            self.model() == other.model(),
        ensures
            self.flat() == other.flat(),
            self.kid_flats() == other.kid_flats(),
            self.used_keys() == other.used_keys(),
            self.height() == other.height(),
            self.children.len() == other.children.len(),
            self.leaf == other.leaf,
            self.n == other.n,
        decreases self,
    {
        assert(self.model().children.len() == self.children.len());
        assert(other.model().children.len() == other.children.len());
        assert(self.used_keys().len() == self.n);
        assert(other.used_keys().len() == other.n);
        assert forall|j: int| 0 <= j < self.children.len() implies self.children[j].flat()
            == other.children[j].flat() && self.children[j].height() == other.children[j].height() by {
            assert(self.model().children[j] == self.children[j].model());
            assert(other.model().children[j] == other.children[j].model());
            self.children[j].lemma_model_flat(*other.children[j], t);
        }
        assert(self.kid_flats() =~= other.kid_flats());
    }

    /// A tidy subtree that is, apart from its layout, the same as a
    /// well-formed one is well formed.
    pub proof fn lemma_model_wf(&self, other: Node, t: usize, min_keys: nat)
        requires
            self.tidy(t),
            other.wf(t, min_keys),
            self.model() == other.model(),
        ensures
            self.wf(t, min_keys),
        decreases self,
    {
        other.lemma_wf_tidy(t, min_keys);
        self.lemma_model_flat(other, t);
        assert forall|j: int| 0 <= j < self.children.len() implies (#[trigger] self.children[j]).wf(
            t,
            (t - 1) as nat,
        ) && self.children[j].height() == self.children[0].height() by {
            assert(self.model().children[j] == self.children[j].model());
            assert(other.model().children[j] == other.children[j].model());
            assert(self.model().children[0] == self.children[0].model());
            assert(other.model().children[0] == other.children[0].model());
            other.children[j].lemma_wf_tidy(t, (t - 1) as nat);
            other.children[0].lemma_wf_tidy(t, (t - 1) as nat);
            self.children[j].lemma_model_wf(*other.children[j], t, (t - 1) as nat);
            self.children[j].lemma_model_flat(*other.children[j], t);
            self.children[0].lemma_model_flat(*other.children[0], t);
            assert(other.children[j].height() == other.children[0].height());
        }
    }

    /// The first key of the traversal of a subtree that has keys.
    pub fn first_key(&self) -> (key: u16)
        requires
            self.wf(self.t, 1),
        ensures
            self.flat().len() > 0,
            key == self.flat().first(),
        decreases self,
    {
        proof {
            self.lemma_wf_shape(self.t, 1);
            lemma_pairs_first(self.kid_flats().drop_last(), self.used_keys());
        }
        if self.leaf {
            self.keys[0]
        } else {
            proof {
                self.lemma_wf_child(self.t, 1, 0);
                self.children[0].lemma_wf_min(self.t, (self.t - 1) as nat, 1);
            }
            self.children[0].first_key()
        }
    }

    /// The last key of the traversal of a subtree that has keys.
    pub fn last_key(&self) -> (key: u16)
        requires
            self.wf(self.t, 1),
        ensures
            self.flat().len() > 0,
            key == self.flat().last(),
        decreases self,
    {
        proof {
            self.lemma_wf_shape(self.t, 1);
            lemma_pairs_first(self.kid_flats().drop_last(), self.used_keys());
        }
        if self.leaf {
            proof {
                self.lemma_flat_of_leaf();
            }
            self.keys[self.n - 1]
        } else {
            proof {
                self.lemma_wf_child(self.t, 1, self.n as int);
                self.children[self.n as int].lemma_wf_min(self.t, (self.t - 1) as nat, 1);
            }
            self.children[self.n].last_key()
        }
    }

    /// Whether two subtrees are of one height.
    pub fn same_height(&self, other: &Node) -> (same: bool)
        ensures
            same == (self.height() == other.height()),
        decreases self,
    {
        if self.children.len() == 0 {
            other.children.len() == 0
        } else if other.children.len() == 0 {
            false
        } else {
            self.children[0].same_height(&other.children[0])
        }
    }

    /// Whether the node has the shape of a node of a tree of minimum degree
    /// `t` that must hold at least `min_keys` keys, with its keys in order.
    fn has_shape(&self, t: usize, min_keys: usize) -> (ok: bool)
        ensures
            ok == (self.shape(t, min_keys as nat) && sorted(self.used_keys())),
    {
        if t < 2 || t > usize::MAX / 2 {
            return false;
        }
        if self.t != t || self.keys.len() != 2 * t - 1 || self.n < min_keys || self.n > 2 * t - 1 {
            return false;
        }
        if self.leaf {
            if self.children.len() != 0 {
                return false;
            }
        } else {
            if self.children.len() != self.n + 1 {
                return false;
            }
        }
        let mut j: usize = self.n;
        while j < self.keys.len()
            invariant
                self.n <= j <= self.keys.len(),
                forall|x: int| self.n <= x < j ==> self.keys[x] == 0,
            decreases self.keys.len() - j,
        {
            if self.keys[j] != 0 {
                return false;
            }
            j += 1;
        }
        let mut i: usize = 1;
        while i < self.n
            invariant
                1 <= i,
                self.n <= self.keys.len(),
                forall|x: int, y: int| 0 <= x <= y < i && y < self.n ==> self.keys[x] <= self.keys[y],
            decreases self.n - i,
        {
            if self.keys[i - 1] > self.keys[i] {
                proof {
                    assert(self.used_keys()[i - 1] > self.used_keys()[i as int]);
                }
                return false;
            }
            i += 1;
        }
        true
    }

    /// Whether the subtree is well formed as one of a tree of minimum degree
    /// `t` whose top node must hold at least `min_keys` keys.
    pub fn is_wf(&self, t: usize, min_keys: usize) -> (ok: bool)
        ensures
            ok == self.wf(t, min_keys as nat),
        decreases self,
    {
        if !self.has_shape(t, min_keys) {
            return false;
        }
        let ghost kids = self.kid_flats();
        let ghost keys = self.used_keys();
        let mut j: usize = 0;
        while j < self.children.len()
            invariant
                j <= self.children.len(),
                self.shape(t, min_keys as nat),
                sorted(self.used_keys()),
                kids == self.kid_flats(),
                keys == self.used_keys(),
                forall|x: int| 0 <= x < j ==> (#[trigger] self.children[x]).wf(t, (t - 1) as nat),
                forall|x: int|
                    0 <= x < j ==> (#[trigger] self.children[x]).height()
                        == self.children[0].height(),
                forall|x: int| 0 <= x < j ==> sorted(#[trigger] kids[x]),
                forall|x: int| 0 <= x < j && x < keys.len() ==> all_le(#[trigger] kids[x], keys[x]),
                forall|x: int| 0 < x < j ==> all_ge(#[trigger] kids[x], keys[x - 1]),
            decreases self.children.len() - j,
        {
            let child = &self.children[j];
            if !child.is_wf(t, t - 1) {
                return false;
            }
            if !child.same_height(&self.children[0]) {
                return false;
            }
            proof {
                child.lemma_wf_min(t, (t - 1) as nat, 1);
                child.lemma_wf_relax(t, (t - 1) as nat, 0);
                child.lemma_flat_sorted(t, 1);
                assert(kids[j as int] == child.flat());
            }
            let low = child.first_key();
            let high = child.last_key();
            proof {
                lemma_sorted_all_le(child.flat(), self.keys[j as int]);
                lemma_sorted_all_ge(child.flat(), self.keys[j - 1]);
            }
            if j < self.n && high > self.keys[j] {
                proof {
                    assert(keys[j as int] == self.keys[j as int]);
                    assert(!all_le(kids[j as int], keys[j as int]));
                }
                return false;
            }
            if j > 0 && low < self.keys[j - 1] {
                proof {
                    assert(keys[j - 1] == self.keys[j - 1]);
                    assert(!all_ge(kids[j as int], keys[j - 1]));
                }
                return false;
            }
            j += 1;
        }
        proof {
            if self.leaf {
                assert forall|x: int| 0 <= x < kids.len() implies (#[trigger] kids[x]).len() == 0 by {}
            }
            assert(separated(kids, keys));
        }
        true
    }
}

impl Node {
    /// Whether `other` is a copy of this subtree: node by node it has the
    /// same key slots, the same count, the same flag and the same degree.
    pub open spec fn same_as(&self, other: Node) -> bool
        decreases self,
    {
        &&& self.keys@ == other.keys@
        &&& self.n == other.n
        &&& self.leaf == other.leaf
        &&& self.t == other.t
        &&& self.children.len() == other.children.len()
        &&& forall|j: int|
            0 <= j < self.children.len() ==> (#[trigger] self.children[j]).same_as(
                *other.children[j],
            )
    }

    /// A copy of a subtree is the same apart from its layout, and tidy if
    /// the subtree is.
    pub proof fn lemma_copy(&self, other: Node, t: usize)
        requires
            self.same_as(other),
        ensures
            self.model() == other.model(),
            self.tidy(t) ==> other.tidy(t),
        decreases self,
    {
        assert forall|j: int| 0 <= j < self.children.len() implies (#[trigger] self.children[j]).model()
            == other.children[j].model() by {
            self.children[j].lemma_copy(*other.children[j], t);
        }
        assert(self.model().children =~= other.model().children);
        if self.tidy(t) {
            assert forall|j: int| 0 <= j < other.children.len() implies (
            #[trigger] other.children[j]).tidy(t) by {
                assert(self.children[j].tidy(t));
                self.children[j].lemma_copy(*other.children[j], t);
            }
        }
    }
}

impl Clone for Node {
    /// A copy of the subtree, node by node.
    fn clone(&self) -> (copy: Self)
        ensures
            self.same_as(copy),
        decreases self,
    {
        let mut keys: Vec<u16> = Vec::new();
        let mut i: usize = 0;
        while i < self.keys.len()
            invariant
                i <= self.keys.len(),
                keys@ == self.keys@.take(i as int),
            decreases self.keys.len() - i,
        {
            keys.push(self.keys[i]);
            assert(keys@ =~= self.keys@.take(i + 1));
            i += 1;
        }
        assert(keys@ =~= self.keys@);
        let mut children: Vec<Box<Node>> = Vec::new();
        let mut j: usize = 0;
        while j < self.children.len()
            invariant
                j <= self.children.len(),
                children.len() == j,
                forall|x: int| 0 <= x < j ==> (#[trigger] self.children[x]).same_as(*children[x]),
            decreases self.children.len() - j,
        {
            let child: &Node = &self.children[j];
            children.push(Box::new(child.clone()));
            j += 1;
        }
        Node { keys, children, n: self.n, leaf: self.leaf, t: self.t }
    }
}

/// What a tree holds after the keys of `keys` were inserted, one by one,
/// into an empty tree.
pub open spec fn inserted(keys: Seq<u16>) -> Multiset<u16>
    decreases keys.len(),
{
    if keys.len() == 0 {
        Multiset::empty()
    } else {
        inserted(keys.drop_last()).insert(keys.last())
    }
}

/// A run of inserts puts every key into the tree as often as it occurs in
/// the run.
pub proof fn lemma_inserted(keys: Seq<u16>)
    ensures
        inserted(keys) == keys.to_multiset(),
    decreases keys.len(),
{
    if keys.len() == 0 {
        keys.to_multiset_ensures();
        assert(keys.to_multiset() =~= Multiset::<u16>::empty()) by {
            vstd::seq_lib::to_multiset_len(keys);
        }
    } else {
        lemma_inserted(keys.drop_last());
        vstd::seq_lib::to_multiset_build(keys.drop_last(), keys.last());
        assert(keys.drop_last().push(keys.last()) =~= keys);
    }
}

impl Node {
    /// The node that is reached from this one by going, at each step of
    /// `path`, to the child of that index.
    pub open spec fn descendant(&self, path: Seq<int>) -> Option<Node>
        decreases path.len(),
    {
        if path.len() == 0 {
            Some(*self)
        } else if 0 <= path.first() < self.children.len() {
            self.children[path.first()].descendant(path.drop_first())
        } else {
            None
        }
    }

    /// Every node below the top of a well-formed subtree heads a
    /// well-formed subtree with at least `t - 1` keys of its own.
    pub proof fn lemma_descendant_wf(&self, t: usize, min_keys: nat, path: Seq<int>)
        requires
            self.wf(t, min_keys),
            self.descendant(path) is Some,
        ensures
            self.descendant(path)->0.wf(
                t,
                if path.len() == 0 {
                    min_keys
                } else {
                    (t - 1) as nat
                },
            ),
        decreases path.len(),
    {
        if path.len() > 0 {
            let child = self.children[path.first()];
            child.lemma_descendant_wf(t, (t - 1) as nat, path.drop_first());
        }
    }
}

/// A B-tree over 16-bit keys with a fixed minimum degree `t`.
///
/// The tree is a multiset of keys: a key that is inserted twice is held twice.
/// Its view is the sequence of its keys in traversal order.
#[derive(Debug, PartialEq, Eq, Clone)]
pub struct BTree {
    pub root: Option<Box<Node>>,
    pub t: usize,
}

impl View for BTree {
    type V = Seq<u16>;

    open spec fn view(&self) -> Seq<u16> {
        match self.root {
            None => Seq::empty(),
            Some(root) => root.flat(),
        }
    }
}

impl BTree {
    /// The invariant of the tree: its degree is one that a tree can have, and
    /// the root, where there is one, heads a well-formed subtree. A root may
    /// hold fewer than `t - 1` keys: any number in a leaf, at least one
    /// elsewhere.
    pub open spec fn wf(&self) -> bool {
        &&& degree_ok(self.t)
        &&& match self.root {
            None => true,
            Some(root) => root.wf(
                self.t,
                if root.leaf {
                    0nat
                } else {
                    1nat
                },
            ),
        }
    }

    /// The invariant of the tree but for the unused key slots of its nodes,
    /// which may hold anything. It is all that reading the tree needs.
    pub open spec fn ordered(&self) -> bool {
        &&& degree_ok(self.t)
        &&& match self.root {
            None => true,
            Some(root) => root.ordered(
                self.t,
                if root.leaf {
                    0nat
                } else {
                    1nat
                },
            ),
        }
    }

    /// A well-formed tree is ordered.
    pub proof fn lemma_wf_ordered(&self)
        requires
            self.wf(),
        ensures
            self.ordered(),
    {
        match self.root {
            None => {},
            Some(root) => {
                root.lemma_wf_ordered(self.t, if root.leaf { 0nat } else { 1nat });
            },
        }
    }

    /// The traversal of an ordered tree never decreases.
    pub proof fn lemma_ordered_sorted(&self)
        requires
            self.ordered(),
        ensures
            sorted(self@),
    {
        match self.root {
            None => {},
            Some(root) => {
                root.lemma_ordered_sorted(self.t, if root.leaf { 0nat } else { 1nat });
            },
        }
    }

    /// What the tree is, apart from the layout of its nodes.
    pub open spec fn model(&self) -> TreeModel {
        TreeModel {
            t: self.t,
            root: match self.root {
                None => None,
                Some(root) => Some(root.model()),
            },
        }
    }

    /// Whether every node has the layout of a node of a tree of this degree.
    pub open spec fn tidy(&self) -> bool {
        match self.root {
            None => true,
            Some(root) => root.tidy(self.t),
        }
    }

    /// A tidy tree that is, apart from its layout, the same as a well-formed
    /// one is well formed, and has the same traversal.
    pub proof fn lemma_model_wf(&self, other: BTree)
        requires
            self.tidy(),
            other.wf(),
            self.model() == other.model(),
        ensures
            self.wf(),
            self@ == other@,
    {
        match self.root {
            None => {},
            Some(root) => {
                let twin = other.root->0;
                let least = if twin.leaf { 0nat } else { 1nat };
                twin.lemma_wf_tidy(self.t, least);
                root.lemma_model_wf(*twin, self.t, least);
                root.lemma_model_flat(*twin, self.t);
            },
        }
    }

    /// A well-formed tree is tidy.
    pub proof fn lemma_wf_tidy(&self)
        requires
            self.wf(),
        ensures
            self.tidy(),
    {
        match self.root {
            None => {},
            Some(root) => {
                root.lemma_wf_tidy(self.t, if root.leaf { 0nat } else { 1nat });
            },
        }
    }

    /// Whether the tree is well formed.
    pub fn is_wf(&self) -> (ok: bool)
        ensures
            ok == self.wf(),
    {
        if self.t < 2 || self.t > usize::MAX / 2 {
            return false;
        }
        match &self.root {
            None => true,
            Some(root) => root.is_wf(
                self.t,
                if root.leaf {
                    0
                } else {
                    1
                },
            ),
        }
    }

    /// The keys of the tree, each as often as it was inserted.
    pub open spec fn contents(&self) -> Multiset<u16> {
        self@.to_multiset()
    }

    /// An empty tree of minimum degree `t`.
    pub fn new(t: usize) -> (tree: Self)
        ensures
            tree.t == t,
            tree.root is None,
            tree@ == Seq::<u16>::empty(),
            degree_ok(t) ==> tree.wf(),
    {
        BTree { root: None, t }
    }

    /// The keys of the tree in ascending order, each as often as it was
    /// inserted. Every call walks the tree anew.
    pub fn traverse(&self) -> (out: Vec<u16>)
        requires
            self.ordered(),
        ensures
            out@ == self@,
            sorted(out@),
    {
        proof {
            self.lemma_ordered_sorted();
        }
        match &self.root {
            None => Vec::new(),
            Some(root) => root.traverse(),
        }
    }

    /// Whether the tree holds `key`.
    pub fn search(&self, key: u16) -> (found: bool)
        requires
            self.ordered(),
        ensures
            found == self@.contains(key),
    {
        match &self.root {
            None => false,
            Some(root) => root.search(key).is_some(),
        }
    }

    /// Adds `key` to the tree; a key that is there already is held once more.
    ///
    /// A full root is split first, under a new root: only so does the tree
    /// grow in height.
    pub fn insert(&mut self, key: u16)
        requires
            old(self).wf(),
        ensures
            final(self).wf(),
            final(self).t == old(self).t,
            final(self).root is Some,
            sorted(final(self)@),
            final(self).contents() == old(self).contents().insert(key),
            exists|p: int|
                0 <= p <= old(self)@.len() && final(self)@ == #[trigger] old(self)@.insert(p, key),
            final(self).model() == tree_insert_model(old(self).model(), key),
    {
        let t = self.t;
        let ghost before = self@;
        match self.root.take() {
            None => {
                let mut root = Node::new(t, true);
                root.keys[0] = key;
                root.n = 1;
                proof {
                    assert(root.used_keys() =~= seq![key]);
                    assert(root.kid_flats() =~= Seq::new(2, |j: int| Seq::<u16>::empty()));
                    assert(root.wf(t, 0));
                    root.lemma_flat_of_leaf();
                    assert(root.flat() =~= before.insert(0, key));
                    root.lemma_model_children();
                    assert(root.model().children =~= Seq::<NodeModel>::empty());
                }
                self.root = Some(Box::new(root));
            },
            Some(mut root) => {
                proof {
                    root.lemma_wf_relax(t, if root.leaf { 0nat } else { 1nat }, 0);
                    root.lemma_wf_shape(t, 0);
                }
                if root.n == 2 * t - 1 {
                    let grown = Self::grow(root, key);
                    self.root = Some(Box::new(grown));
                } else {
                    root.insert_non_full(key);
                    proof {
                        root.lemma_wf_min(t, 0, if root.leaf { 0nat } else { 1nat });
                    }
                    self.root = Some(root);
                }
            },
        }
        proof {
            self.lemma_sorted();
            let p = choose|p: int| 0 <= p <= before.len() && self@ == #[trigger] before.insert(p, key);
            vstd::seq_lib::to_multiset_insert(before, p, key);
        }
    }

    /// Puts a full root under a new root, splits it, and adds `key` under
    /// the half that it belongs to. Returns the new root.
    fn grow(root: Box<Node>, key: u16) -> (top: Node)
        requires
            root.wf(root.t, 0),
            root.n == 2 * root.t - 1,
        ensures
            top.wf(root.t, 1),
            !top.leaf,
            top.height() == root.height() + 1,
            exists|p: int|
                0 <= p <= root.flat().len() && top.flat() == #[trigger] root.flat().insert(p, key),
            top.model() == grow_model(root.model(), root.t as int, key),
    {
        let t = root.t;
        let ghost old_root = *root;
        proof {
            old_root.lemma_wf_shape(t, 0);
        }
        let mut top = Node::new(t, false);
        top.children.push(root);
        proof {
            old_root.lemma_wf_min(t, 0, (t - 1) as nat);
            old_root.lemma_flat_sorted(t, 0);
            assert(top.used_keys() =~= Seq::<u16>::empty());
            assert(top.kid_flats() =~= seq![old_root.flat()]);
            assert(top.wf(t, 0));
            assert(top.flat() =~= old_root.flat());
            top.lemma_model_children();
            assert(top.model().children =~= seq![old_root.model()]);
            assert(top.model().keys =~= Seq::<u16>::empty());
        }
        top.split_child(0);
        proof {
            top.lemma_wf_relax(t, 1, 0);
            top.lemma_wf_shape(t, 0);
        }
        let i: usize = if top.keys[0] < key {
            1
        } else {
            0
        };
        let ghost mid = top;
        proof {
            mid.lemma_wf_child(t, 0, i as int);
            mid.children[i as int].lemma_wf_shape(t, 0);
        }
        let child = &mut top.children[i];
        child.insert_non_full(key);
        proof {
            let p = choose|p: int|
                0 <= p <= mid.children[i as int].flat().len() && top.children[i as int].flat()
                    == #[trigger] mid.children[i as int].flat().insert(p, key);
            top.lemma_insert_parent(mid, i as int, p, key);
            top.lemma_wf_min(t, 0, 1);
            top.lemma_child_model(mid, i as int);
            mid.lemma_model_children();
            assert(mid.model().keys[0] == mid.keys[0]);
        }
        top
    }

    /// Membership: a tree that holds what a run of inserts of the keys of
    /// `keys` has put into an empty tree holds `k` exactly if `k` occurs in
    /// `keys`.
    pub proof fn lemma_membership(&self, keys: Seq<u16>, k: u16)
        requires
            self.contents() == inserted(keys),
        ensures
            self@.contains(k) <==> keys.contains(k),
    {
        lemma_inserted(keys);
        vstd::seq_lib::to_multiset_contains(self@, k);
        vstd::seq_lib::to_multiset_contains(keys, k);
    }

    /// Sorted traversal: the traversal of a well-formed tree that holds
    /// what a run of inserts of the keys of `keys` has put into an empty
    /// tree never decreases, and it has every key as often as `keys` has it.
    pub proof fn lemma_traversal(&self, keys: Seq<u16>)
        requires
            self.wf(),
            self.contents() == inserted(keys),
        ensures
            sorted(self@),
            self@.to_multiset() == keys.to_multiset(),
            self@.len() == keys.len(),
    {
        self.lemma_sorted();
        lemma_inserted(keys);
        vstd::seq_lib::to_multiset_len(self@);
        vstd::seq_lib::to_multiset_len(keys);
    }

    /// Node invariant: in a well-formed tree every node holds at most
    /// `2 * t - 1` keys, and every node but the root at least `t - 1`.
    pub proof fn lemma_key_counts(&self, path: Seq<int>)
        requires
            self.wf(),
            self.root is Some,
            self.root->0.descendant(path) is Some,
        ensures
            self.root->0.descendant(path)->0.n <= 2 * self.t - 1,
            path.len() > 0 ==> self.root->0.descendant(path)->0.n >= self.t - 1,
    {
        let root = self.root->0;
        let least = if root.leaf { 0nat } else { 1nat };
        root.lemma_descendant_wf(self.t, least, path);
        let node = root.descendant(path)->0;
        if path.len() == 0 {
            node.lemma_wf_shape(self.t, least);
        } else {
            node.lemma_wf_shape(self.t, (self.t - 1) as nat);
        }
    }

    /// The traversal of a well-formed tree never decreases.
    pub proof fn lemma_sorted(&self)
        requires
            self.wf(),
        ensures
            sorted(self@),
    {
        match self.root {
            None => {},
            Some(root) => {
                root.lemma_flat_sorted(self.t, if root.leaf { 0nat } else { 1nat });
            },
        }
    }
}

} // verus!
