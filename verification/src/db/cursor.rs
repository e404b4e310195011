use crate::db::b_tree::{BTree, Node};
use crate::db::key_seq::{lemma_weave_rest, rest_after};
use vstd::prelude::*;

verus! {

/// A place in the traversal of a tree. The keys come one by one, each when
/// it is asked for; a new cursor starts the traversal anew.
///
/// `path` holds the nodes from the root down to the node of the next key,
/// each with the index of the next of its keys.
pub struct Cursor<'a> {
    pub path: Vec<(&'a Node, usize)>,
}

/// What is left of the traversal of `node` from its key `i` on.
pub open spec fn rest_from(node: &Node, i: int) -> Seq<u16> {
    rest_after(node.kid_flats(), node.used_keys(), i)
}

/// The keys that a path has yet to give: those of its last node first.
pub open spec fn left_of(path: Seq<(&Node, usize)>) -> Seq<u16>
    decreases path.len(),
{
    if path.len() == 0 {
        Seq::empty()
    } else {
        rest_from(path.last().0, path.last().1 as int) + left_of(path.drop_last())
    }
}

impl<'a> View for Cursor<'a> {
    type V = Seq<u16>;

    /// The keys that are yet to come, in order.
    open spec fn view(&self) -> Seq<u16> {
        left_of(self.path@)
    }
}

impl<'a> Cursor<'a> {
    /// The invariant of the cursor: every node on the path is ordered,
    /// and the index beside it is at most the number of its keys.
    pub open spec fn wf(&self) -> bool {
        forall|k: int|
            0 <= k < self.path.len() ==> {
                let (node, i) = #[trigger] self.path[k];
                node.ordered(node.t, 0) && i <= node.n
            }
    }

    /// A cursor before the first key of `tree`.
    pub fn new(tree: &'a BTree) -> (cursor: Self)
        requires
            tree.ordered(),
        ensures
            cursor.wf(),
            cursor@ == tree@,
    {
        let mut cursor = Cursor { path: Vec::new() };
        match &tree.root {
            None => {},
            Some(root) => {
                cursor.descend(root);
                assert(cursor@ =~= tree@);
            },
        }
        cursor
    }

    /// Goes down from `node` to the leaf with its first key.
    fn descend(&mut self, node: &'a Node)
        requires
            old(self).wf(),
            node.ordered(node.t, 0),
        ensures
            final(self).wf(),
            final(self)@ == node.flat() + old(self)@,
        decreases node,
    {
        let ghost before = self.path@;
        proof {
            node.lemma_ordered_outline(node.t, 0);
            lemma_weave_rest(node.kid_flats(), node.used_keys(), 0);
            assert(node.kid_flats().skip(0) =~= node.kid_flats());
            assert(node.used_keys().skip(0) =~= node.used_keys());
        }
        self.path.push((node, 0));
        proof {
            assert(self.path@.drop_last() =~= before);
            assert(self@ =~= rest_from(node, 0) + left_of(before));
        }
        if !node.leaf {
            proof {
                node.lemma_ordered_child(node.t, 0, 0);
            }
            self.descend(&node.children[0]);
        } else {
            assert(node.kid_flats()[0] =~= Seq::<u16>::empty());
        }
    }

    /// The next key of the traversal, and `None` after the last.
    pub fn next(&mut self) -> (key: Option<u16>)
        requires
            old(self).wf(),
        ensures
            final(self).wf(),
            match key {
                Some(k) => old(self)@.len() > 0 && k == old(self)@.first() && final(self)@
                    == old(self)@.drop_first(),
                None => old(self)@.len() == 0 && final(self)@.len() == 0,
            },
    {
        while self.path.len() > 0
            invariant
                self.wf(),
                self@ == old(self)@,
            decreases self.path.len(),
        {
            let last = self.path.len() - 1;
            let (node, i) = self.path[last];
            let ghost below = self.path@.drop_last();
            proof {
                node.lemma_ordered_outline(node.t, 0);
            }
            if i < node.n {
                let key = node.keys[i];
                self.path.pop();
                self.path.push((node, i + 1));
                proof {
                    assert(self.path@.drop_last() =~= below);
                    lemma_weave_rest(node.kid_flats(), node.used_keys(), i + 1);
                    assert(node.used_keys()[i as int] == key);
                }
                if !node.leaf {
                    proof {
                        node.lemma_ordered_child(node.t, 0, i + 1);
                    }
                    self.descend(&node.children[i + 1]);
                } else {
                    assert(node.kid_flats()[i + 1] =~= Seq::<u16>::empty());
                }
                proof {
                    assert(self@ =~= old(self)@.drop_first());
                }
                return Some(key);
            }
            self.path.pop();
            proof {
                assert(self.path@ =~= below);
            }
        }
        None
    }
}

} // verus!
