//! The resolution tree for in-flight triggered effects.
//!
//! While a chain of effects resolves, the board records "what triggered
//! what" as an append-only tree: activating an effect pushes a new node
//! under the current leaf, and finishing a sub-chain pops back to the
//! parent. The nodes live in a `synctree` arena; what the rest of the
//! library reasons about is the chain of entities from the root trigger to
//! the current leaf, which is the tree's view here.

use vstd::prelude::*;

use synctree::{Node, NodeArena};

use crate::entity::Entity;

verus! {

#[verifier::external_type_specification]
#[verifier::external_body]
#[verifier::reject_recursive_types(T)]
pub struct ExNodeArena<T>(NodeArena<T>);

#[verifier::external_type_specification]
#[verifier::external_body]
#[verifier::reject_recursive_types(T)]
pub struct ExNode<T>(Node<T>);

/// The values on the path from the arena's root to the given node, root
/// first. Nodes are only ever created as fresh roots or appended as fresh
/// leaves, so a node's root path never changes once it exists.
pub uninterp spec fn node_chain(node: Node<usize>, arena: NodeArena<usize>) -> Seq<usize>;

/// Relies on synctree::NodeArena::new: a fresh, empty arena to hold the
/// nodes of one tree.
#[verifier::external_body]
fn arena_new() -> (a: NodeArena<usize>) {
    NodeArena::new()
}

/// Relies on synctree::Node::new: inserts a fresh parentless node holding
/// `v`, whose root path is therefore the one-element chain.
#[verifier::external_body]
fn node_new_root(arena: &NodeArena<usize>, v: usize) -> (n: Node<usize>)
    ensures
        node_chain(n, *arena) == seq![v],
{
    Node::new(v, arena)
}

/// Relies on synctree::Node::new and synctree::Node::append: creates a
/// fresh node holding `v` and appends it as the last child of `leaf`. The
/// two calls stand in one wrapper because the fresh node is parentless only
/// in between them; seen from outside, the new node's root path is `leaf`'s
/// path with `v` appended, and no existing node moves. The requires ties
/// the handle to its own arena: a handle from another arena could make the
/// arena's internal indexing panic.
#[verifier::external_body]
fn node_append_new(arena: &NodeArena<usize>, leaf: &Node<usize>, v: usize) -> (n: Node<usize>)
    requires
        node_chain(*leaf, *arena).len() > 0,
    ensures
        node_chain(n, *arena) == node_chain(*leaf, *arena).push(v),
{
    let n = Node::new(v, arena);
    leaf.append(&n, arena);
    n
}

/// Relies on synctree::Node::read: the value stored in the node, which is
/// the last element of its root path.
#[verifier::external_body]
fn node_read_value(n: &Node<usize>, arena: &NodeArena<usize>) -> (r: usize)
    requires
        node_chain(*n, *arena).len() > 0,
    ensures
        r == node_chain(*n, *arena).last(),
{
    let guard = n.read();
    *guard
}

/// Relies on synctree::Node::parent: the parent handle, or None at a root.
/// A node's parent carries the node's root path shortened by one. The
/// requires ties the handle to its own arena, as on the other wrappers.
#[verifier::external_body]
fn node_parent(arena: &NodeArena<usize>, n: &Node<usize>) -> (r: Option<Node<usize>>)
    requires
        node_chain(*n, *arena).len() > 0,
    ensures
        match r {
            Some(p) => node_chain(*n, *arena).len() > 1 && node_chain(p, *arena) == node_chain(
                *n,
                *arena,
            ).drop_last(),
            None => node_chain(*n, *arena).len() <= 1,
        },
{
    n.parent(arena)
}

/// The chain of triggered effects being resolved: its view is the sequence
/// of card entities from the root trigger down to the current leaf.
pub struct Tree {
    tree: NodeArena<usize>,
    current_leaf: Option<Node<usize>>,
}

impl View for Tree {
    type V = Seq<Entity>;

    closed spec fn view(&self) -> Seq<Entity> {
        match self.current_leaf {
            Some(n) => node_chain(n, self.tree).map_values(|id: usize| Entity(id)),
            None => Seq::empty(),
        }
    }
}

impl Tree {
    /// The current leaf, if any, lies at the end of a nonempty root path.
    pub closed spec fn wf(self) -> bool {
        self.current_leaf matches Some(n) ==> node_chain(n, self.tree).len() > 0
    }

    /// A new tree rooted at the first trigger of a chain.
    pub fn new(card: Entity) -> (t: Tree)
        ensures
            t.wf(),
            t@ == seq![card],
    {
        let arena = arena_new();
        let leaf = node_new_root(&arena, card.0);
        let t = Tree { tree: arena, current_leaf: Some(leaf) };
        proof {
            assert(t@ =~= seq![card]);
        }
        t
    }

    /// Record a further trigger under the current leaf and descend to it.
    pub fn push_card(&mut self, card: Entity)
        requires
            old(self).wf(),
        ensures
            final(self).wf(),
            final(self)@ == old(self)@.push(card),
    {
        match &self.current_leaf {
            Some(leaf) => {
                let n = node_append_new(&self.tree, leaf, card.0);
                self.current_leaf = Some(n);
                proof {
                    assert(self@ =~= old(self)@.push(card));
                }
            },
            None => {
                let n = node_new_root(&self.tree, card.0);
                self.current_leaf = Some(n);
                proof {
                    assert(self@ =~= old(self)@.push(card));
                }
            },
        }
    }

    /// The card at the current leaf of the chain, if one is in flight.
    pub fn current_card(&self) -> (r: Option<Entity>)
        requires
            self.wf(),
        ensures
            self@.len() == 0 ==> r is None,
            self@.len() > 0 ==> r == Some(self@.last()),
    {
        match &self.current_leaf {
            Some(leaf) => {
                proof {
                    assert(node_chain(*leaf, self.tree).len() > 0) by {
                        assert(self@.len() > 0);
                    }
                }
                let v = node_read_value(leaf, &self.tree);
                proof {
                    assert(self@.last() == Entity(node_chain(*leaf, self.tree).last()));
                }
                Some(Entity(v))
            },
            None => None,
        }
    }

    /// Pop back to the trigger above the current leaf; at the root the
    /// chain is left empty.
    pub fn pop_card(&mut self)
        requires
            old(self).wf(),
        ensures
            final(self).wf(),
            final(self)@ == if old(self)@.len() == 0 {
                old(self)@
            } else {
                old(self)@.drop_last()
            },
    {
        match &self.current_leaf {
            Some(leaf) => {
                let p = node_parent(&self.tree, leaf);
                self.current_leaf = p;
                proof {
                    if old(self)@.len() > 0 {
                        assert(self@ =~= old(self)@.drop_last());
                    }
                }
            },
            None => {},
        }
    }
}

} // verus!
