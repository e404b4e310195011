use crate::db::b_tree::{Node, NodeModel, TreeModel};
use vstd::prelude::*;

verus! {

/// Number of levels below a node.
pub open spec fn model_height(m: NodeModel) -> nat
    decreases m,
{
    if m.children.len() == 0 {
        0
    } else {
        model_height(m.children[0]) + 1
    }
}

/// Where `key` goes among `keys`: behind the last key that is not above it.
/// In a node that is no leaf this is also the index of the child under
/// which `key` belongs.
pub open spec fn place_of(keys: Seq<u16>, key: u16) -> int
    decreases keys.len(),
{
    if keys.len() > 0 && keys.last() > key {
        place_of(keys.drop_last(), key)
    } else {
        keys.len() as int
    }
}

/// Where the search for `key` stops among `keys`: at the first key that is
/// not below it.
pub open spec fn stop_of(keys: Seq<u16>, key: u16) -> int
    decreases keys.len(),
{
    if keys.len() > 0 && keys.first() < key {
        stop_of(keys.drop_first(), key) + 1
    } else {
        0
    }
}

/// Where the search stops lies among the keys, all keys before it are
/// below `key`, and the key there, if there is one, is not.
pub proof fn lemma_stop_of(keys: Seq<u16>, key: u16)
    ensures
        0 <= stop_of(keys, key) <= keys.len(),
        forall|x: int| 0 <= x < stop_of(keys, key) ==> keys[x] < key,
        stop_of(keys, key) < keys.len() ==> keys[stop_of(keys, key)] >= key,
    decreases keys.len(),
{
    if keys.len() > 0 && keys.first() < key {
        let rest = keys.drop_first();
        lemma_stop_of(rest, key);
        assert forall|x: int| 0 <= x < stop_of(keys, key) implies keys[x] < key by {
            if x > 0 {
                assert(keys[x] == rest[x - 1]);
            }
        }
        if stop_of(keys, key) < keys.len() {
            assert(keys[stop_of(keys, key)] == rest[stop_of(rest, key)]);
        }
    }
}

/// The one place that is behind keys below `key` alone and before a key
/// that is not is where the search stops.
pub proof fn lemma_stop_is(keys: Seq<u16>, key: u16, i: int)
    requires
        0 <= i <= keys.len(),
        forall|x: int| 0 <= x < i ==> keys[x] < key,
        i < keys.len() ==> keys[i] >= key,
    ensures
        stop_of(keys, key) == i,
{
    lemma_stop_of(keys, key);
    let s = stop_of(keys, key);
    if s < i {
        assert(keys[s] < key);
    } else if i < s {
        assert(keys[i] < key);
    }
}

/// The left half of a full node: its first `t - 1` keys and first `t` children.
pub open spec fn left_half(full: NodeModel, t: int) -> NodeModel {
    NodeModel {
        leaf: full.leaf,
        keys: full.keys.take(t - 1),
        children: if full.leaf {
            Seq::empty()
        } else {
            full.children.take(t)
        },
    }
}

/// The right half of a full node: its last `t - 1` keys and last `t` children.
pub open spec fn right_half(full: NodeModel, t: int) -> NodeModel {
    NodeModel {
        leaf: full.leaf,
        keys: full.keys.skip(t),
        children: if full.leaf {
            Seq::empty()
        } else {
            full.children.skip(t)
        },
    }
}

/// The node `m` after the split of its full child `i`: the halves of the
/// child stand in its place, and its median key is the separator between them.
pub open spec fn split_model(m: NodeModel, i: int, t: int) -> NodeModel {
    let full = m.children[i];
    NodeModel {
        leaf: m.leaf,
        keys: m.keys.insert(i, full.keys[t - 1]),
        children: m.children.update(i, left_half(full, t)).insert(i + 1, right_half(full, t)),
    }
}

/// The node `m`, which is no leaf, made ready to take `key`, and the index
/// of the child that takes it: the child under which the key belongs, or,
/// where that child is full, the node after its split and the half under
/// which the key belongs then, the right one for a key above the median.
pub open spec fn room_model(m: NodeModel, t: int, key: u16) -> (NodeModel, int) {
    let c = place_of(m.keys, key);
    if m.children[c].keys.len() == 2 * t - 1 {
        let s = split_model(m, c, t);
        (
            s,
            if s.keys[c] < key {
                c + 1
            } else {
                c
            },
        )
    } else {
        (m, c)
    }
}

/// The subtree `m`, whose top node is not full, with `key` added: in a leaf
/// at its place among the keys, else under the child that `room_model` names.
pub open spec fn insert_model(m: NodeModel, t: int, key: u16) -> NodeModel
    decreases model_height(m),
{
    if m.leaf {
        NodeModel { leaf: true, keys: m.keys.insert(place_of(m.keys, key), key), children: m.children }
    } else {
        let (ready, c) = room_model(m, t, key);
        if 0 <= c < ready.children.len() && model_height(ready.children[c]) < model_height(m) {
            NodeModel {
                leaf: false,
                keys: ready.keys,
                children: ready.children.update(c, insert_model(ready.children[c], t, key)),
            }
        } else {
            ready
        }
    }
}

/// A full root put under a new root, split, and `key` added under the half
/// that it belongs to: the left one unless the key is above the median.
pub open spec fn grow_model(root: NodeModel, t: int, key: u16) -> NodeModel {
    let top = NodeModel { leaf: false, keys: Seq::empty(), children: seq![root] };
    let s = split_model(top, 0, t);
    let c = if s.keys[0] < key {
        1int
    } else {
        0int
    };
    NodeModel { leaf: false, keys: s.keys, children: s.children.update(c, insert_model(s.children[c], t, key)) }
}

/// The tree `m` with `key` added: an empty tree gets a leaf as its root, a
/// full root is split under a new root, and the key goes into the subtree
/// of a root that is not full.
pub open spec fn tree_insert_model(m: TreeModel, key: u16) -> TreeModel {
    TreeModel {
        t: m.t,
        root: Some(
            match m.root {
                None => NodeModel { leaf: true, keys: seq![key], children: Seq::empty() },
                Some(root) => if root.keys.len() == 2 * m.t - 1 {
                    grow_model(root, m.t as int, key)
                } else {
                    insert_model(root, m.t as int, key)
                },
            },
        ),
    }
}

impl Node {
    /// The node at which the search for `key` ends: the first on the way
    /// down that holds the key, where the way goes, from a node that does
    /// not hold it, to the child before the first key above it.
    pub open spec fn find(&self, key: u16) -> Option<Node>
        decreases self,
    {
        let i = stop_of(self.used_keys(), key);
        if i < self.n && self.keys[i] == key {
            Some(*self)
        } else if !self.leaf && 0 <= i < self.children.len() {
            self.children[i].find(key)
        } else {
            None
        }
    }

    /// The height of a node is that of its model.
    pub proof fn lemma_model_height(&self)
        ensures
            model_height(self.model()) == self.height(),
        decreases self,
    {
        assert(self.model().children.len() == self.children.len());
        if self.children.len() > 0 {
            self.children[0].lemma_model_height();
            assert(self.model().children[0] == self.children[0].model());
        }
    }

    /// The children of the model of a node are the models of its children.
    pub proof fn lemma_model_children(&self)
        ensures
            self.model().children.len() == self.children.len(),
            forall|j: int|
                0 <= j < self.children.len() ==> #[trigger] self.model().children[j]
                    == self.children[j].model(),
    {
    }

    /// The models of the halves of a split node are the halves of its model.
    pub proof fn lemma_split_models(&self, left: Node, right: Node)
        requires
            self.shape(self.t, (2 * self.t - 1) as nat),
            self.split_into(left, right),
        ensures
            left.model() == left_half(self.model(), self.t as int),
            right.model() == right_half(self.model(), self.t as int),
    {
        let t = self.t as int;
        self.lemma_split_views(left, right);
        self.lemma_model_children();
        left.lemma_model_children();
        right.lemma_model_children();
        if !self.leaf {
            assert forall|x: int| 0 <= x < t implies left.children[x].model()
                == self.children[x].model() && right.children[x].model() == self.children[x
                + t].model() by {
                assert(left.children[x] == self.children[x]);
                assert(right.children[x] == self.children[x + t]);
            }
        }
        assert(left.model().children =~= left_half(self.model(), t).children);
        assert(right.model().children =~= right_half(self.model(), t).children);
    }

    /// The model of a node after the split of its child `i` is the split
    /// of its model.
    pub proof fn lemma_split_model(&self, pre: Node, i: int, left: Node, mid: u16, right: Node)
        requires
            pre.shape(pre.t, 0),
            !pre.leaf,
            pre.n < 2 * pre.t - 1,
            0 <= i <= pre.n,
            pre.children[i].shape(pre.t, (2 * pre.t - 1) as nat),
            pre.children[i].split_into(left, right),
            mid == pre.children[i].keys[pre.t - 1],
            self.after_split_of(pre, i, left, mid, right),
        ensures
            self.model() == split_model(pre.model(), i, pre.t as int),
    {
        let t = pre.t as int;
        let full = *pre.children[i];
        full.lemma_split_models(left, right);
        pre.lemma_model_children();
        self.lemma_model_children();
        self.lemma_split_parent_views(pre, i, left, mid, right);
        let goal = split_model(pre.model(), i, t);
        assert(pre.model().children[i] == full.model());
        assert(full.model().keys[t - 1] == mid);
        assert forall|x: int| 0 <= x < self.children.len() implies self.children[x].model()
            == goal.children[x] by {
            if x < i {
                assert(self.children[x] == pre.children[x]);
            } else if x > i + 1 {
                assert(self.children[x] == pre.children[x - 1]);
            } else if x == i {
                assert(*self.children[x] == left);
            } else {
                assert(*self.children[x] == right);
            }
        }
        assert(self.model().children =~= goal.children);
    }

    /// The model of a node after a change of its child `c` alone is its
    /// model with the model of that child changed.
    pub proof fn lemma_child_model(&self, pre: Node, c: int)
        requires
            0 <= c < pre.children.len(),
            self.leaf == pre.leaf,
            self.n == pre.n,
            self.keys == pre.keys,
            self.children.len() == pre.children.len(),
            forall|j: int|
                0 <= j < pre.children.len() && j != c ==> self.children[j] == pre.children[j],
        ensures
            self.model() == (NodeModel {
                leaf: pre.leaf,
                keys: pre.model().keys,
                children: pre.model().children.update(c, self.children[c].model()),
            }),
    {
        self.lemma_model_children();
        pre.lemma_model_children();
        assert(self.model().children =~= pre.model().children.update(c, self.children[c].model()));
    }
}

} // verus!
