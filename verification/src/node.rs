use vstd::prelude::*;

verus! {

/// The child slot of its parent that a node occupies.
#[derive(Clone, Copy, Debug, PartialEq, Eq)]
pub enum Handedness {
    Left,
    Right,
}

/// One entry of the node array. Links are positions in that array.
#[derive(Clone, Copy, Debug, PartialEq, Eq)]
pub struct Node {
    pub parent: Option<usize>,
    pub children: (Option<usize>, Option<usize>),
    pub index: usize,
    pub depth: usize,
    pub tip: bool,
}

/// The pair of children after `child` took the first free slot.
pub open spec fn with_child(children: (Option<usize>, Option<usize>), child: usize) -> (
    Option<usize>,
    Option<usize>,
) {
    if children.0 is None {
        (Some(child), None)
    } else {
        (children.0, Some(child))
    }
}

/// The pair of children after `child` left it; a right child that stays
/// moves to the left slot, so that no pair ever holds a right child alone.
pub open spec fn without_child(children: (Option<usize>, Option<usize>), child: usize) -> (
    Option<usize>,
    Option<usize>,
) {
    if children.0 == Some(child) {
        (children.1, None)
    } else {
        (children.0, None)
    }
}

impl Default for Node {
    /// An unregistered slot: no links, position and depth zero, not a tip.
    fn default() -> (n: Node)
        ensures
            n == Node::spec_default(),
    {
        Node { parent: None, children: (None, None), index: 0, depth: 0, tip: false }
    }
}

impl Node {
    /// What `default` returns.
    pub open spec fn spec_default() -> Node {
        Node { parent: None, children: (None, None), index: 0, depth: 0, tip: false }
    }

    /// Whether `child` stands in one of the two slots.
    pub open spec fn has_child(&self, child: usize) -> bool {
        self.children.0 == Some(child) || self.children.1 == Some(child)
    }

    /// A node with the given links; it is a tip exactly when it has no child.
    pub fn new(
        parent: Option<usize>,
        children: (Option<usize>, Option<usize>),
        index: usize,
        depth: usize,
    ) -> (n: Node)
        ensures
            n == (Node {
                parent,
                children,
                index,
                depth,
                tip: children.0 is None && children.1 is None,
            }),
    {
        let tip = children.0.is_none() && children.1.is_none();
        Node { parent, children, index, depth, tip }
    }

    /// Puts `child` into the left slot if it is free, else into the right one.
    pub fn new_child(&mut self, child: usize)
        requires
            old(self).children.1 is None,
        ensures
            *final(self) == (Node {
                children: with_child(old(self).children, child),
                tip: false,
                ..*old(self)
            }),
    {
        if self.children.0.is_none() {
            self.children = (Some(child), None);
        } else {
            self.children = (self.children.0, Some(child));
        }
        self.tip = false;
    }

    /// Takes `child` out of the slot it stands in.
    pub fn remove_child(&mut self, child: usize)
        requires
            old(self).has_child(child),
        ensures
            *final(self) == (Node {
                children: without_child(old(self).children, child),
                tip: without_child(old(self).children, child).0 is None,
                ..*old(self)
            }),
    {
        if self.children.0 == Some(child) {
            self.children = (self.children.1, None);
        } else {
            self.children = (self.children.0, None);
        }
        self.tip = self.children.0.is_none();
    }
}

} // verus!
