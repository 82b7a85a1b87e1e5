//! Generic octree node: a value and an optional array of eight child slots.

use vstd::prelude::*;
use vstd::std_specs::cmp::PartialEqSpec;

verus! {

/// Node of an octree. `children` is `None` for a leaf; otherwise its slots
/// hold the children, `Some` for a child that exists. Nodes made by this
/// module have exactly eight slots.
#[derive(PartialEq, Default)]
pub struct OcTreeDataNode<T> {
    pub children: Option<Vec<Option<Box<OcTreeDataNode<T>>>>>,
    pub value: T,
}

/// Whether `copy` is a slot-by-slot copy of `orig`: the same shape, with
/// every value a clone of the value at the same place.
pub open spec fn is_subtree_copy<T: Clone>(copy: OcTreeDataNode<T>, orig: OcTreeDataNode<T>) -> bool
    decreases orig,
{
    &&& cloned::<T>(orig.value, copy.value)
    &&& match orig.children {
        None => copy.children is None,
        Some(ov) => match copy.children {
            None => false,
            Some(cv) => {
                &&& cv.len() == ov.len()
                &&& forall|i: int|
                    #![trigger ov@[i]]
                    0 <= i < ov.len() ==> match ov@[i] {
                        None => cv@[i] is None,
                        Some(oc) => match cv@[i] {
                            None => false,
                            Some(cc) => is_subtree_copy(*cc, *oc),
                        },
                    }
            },
        },
    }
}

/// Whether `copy` is what `OcTreeDataNode::clone` makes of `orig`: a clone
/// of the value and, where `orig` has slots, exactly eight slots holding
/// subtree copies of `orig`'s first eight.
pub open spec fn is_node_copy<T: Clone>(copy: OcTreeDataNode<T>, orig: OcTreeDataNode<T>) -> bool {
    &&& cloned::<T>(orig.value, copy.value)
    &&& match orig.children {
        None => copy.children is None,
        Some(ov) => match copy.children {
            None => false,
            Some(cv) => {
                &&& cv.len() == 8
                &&& forall|i: int|
                    #![trigger ov@[i]]
                    0 <= i < 8 ==> match ov@[i] {
                        None => cv@[i] is None,
                        Some(oc) => match cv@[i] {
                            None => false,
                            Some(cc) => is_subtree_copy(*cc, *oc),
                        },
                    }
            },
        },
    }
}

impl<T: Clone> OcTreeDataNode<T> {
    /// A slot-by-slot copy of the whole subtree, every slot array copied at
    /// its own length.
    pub fn clone_subtree(&self) -> (copy: Self)
        ensures
            is_subtree_copy(copy, *self),
        decreases self,
    {
        let value = self.value.clone();
        match &self.children {
            None => OcTreeDataNode { children: None, value },
            Some(children) => {
                let mut slots: Vec<Option<Box<OcTreeDataNode<T>>>> = Vec::new();
                let n = children.len();
                let mut i: usize = 0;
                while i < n
                    invariant
                        n == children.len(),
                        i <= n,
                        self.children == Some(*children),
                        slots.len() == i,
                        forall|j: int|
                            #![trigger children@[j]]
                            0 <= j < i ==> match children@[j] {
                                None => slots@[j] is None,
                                Some(oc) => match slots@[j] {
                                    None => false,
                                    Some(cc) => is_subtree_copy(*cc, *oc),
                                },
                            },
                    decreases n - i,
                {
                    match &children[i] {
                        None => slots.push(None),
                        Some(child) => {
                            proof {
                                let ghost v = self.children->0;
                                assert(v@[i as int] == Some(*child));
                                assert(decreases_to!(*self => self.children));
                                assert(decreases_to!(self.children => v));
                                assert(decreases_to!(v => v@));
                                assert(decreases_to!(v@ => v@[i as int]));
                                assert(decreases_to!(v@[i as int] => v@[i as int]->0));
                                assert(decreases_to!(*self => **child));
                            }
                            let c = child.clone_subtree();
                            slots.push(Some(Box::new(c)));
                        },
                    }
                    i += 1;
                }
                OcTreeDataNode { children: Some(slots), value }
            },
        }
    }
}

impl<T: Clone> Clone for OcTreeDataNode<T> {
    /// A slot-by-slot copy of the whole subtree (see `clone_subtree`).
    fn clone(&self) -> (copy: Self)
        ensures
            is_subtree_copy(copy, *self),
    {
        self.clone_subtree()
    }
}

impl<T> OcTreeDataNode<T> where T: Default + Clone + PartialEq {
    /// A leaf holding `T`'s default value.
    pub fn new() -> (node: Self)
        ensures
            node.children is None,
            call_ensures(T::default, (), node.value),
    {
        OcTreeDataNode { children: None, value: T::default() }
    }

    /// A leaf holding `init_val`.
    pub fn with_value(init_val: T) -> (node: Self)
        ensures
            node.children is None,
            node.value == init_val,
    {
        OcTreeDataNode { children: None, value: init_val }
    }

    /// Copy of the node: a clone of the value and, when the node has child
    /// slots, eight slots holding copies of the subtrees in its first eight.
    pub fn clone(&self) -> (copy: Self)
        requires
            self.children is Some ==> self.children.unwrap().len() >= 8,
        ensures
            is_node_copy(copy, *self),
    {
        let value = self.value.clone();
        match &self.children {
            None => OcTreeDataNode { children: None, value },
            Some(children) => {
                let mut slots: Vec<Option<Box<OcTreeDataNode<T>>>> = Vec::new();
                let mut i: usize = 0;
                while i < 8
                    invariant
                        8 <= children.len(),
                        i <= 8,
                        self.children == Some(*children),
                        slots.len() == i,
                        forall|j: int|
                            #![trigger children@[j]]
                            0 <= j < i ==> match children@[j] {
                                None => slots@[j] is None,
                                Some(oc) => match slots@[j] {
                                    None => false,
                                    Some(cc) => is_subtree_copy(*cc, *oc),
                                },
                            },
                    decreases 8 - i,
                {
                    match &children[i] {
                        None => slots.push(None),
                        Some(child) => {
                            let c = child.clone_subtree();
                            slots.push(Some(Box::new(c)));
                        },
                    }
                    i += 1;
                }
                OcTreeDataNode { children: Some(slots), value }
            },
        }
    }

    /// Sets this node's value to a clone of `from`'s; the children stay.
    pub fn copy_data(&mut self, from: &OcTreeDataNode<T>)
        ensures
            cloned::<T>(from.value, final(self).value),
            final(self).children == old(self).children,
    {
        self.value = from.value.clone();
    }

    /// Whether the two nodes' values compare equal with `T`'s `==`.
    pub fn equals(&self, other: &OcTreeDataNode<T>) -> (r: bool)
        ensures
            T::obeys_eq_spec() ==> r == self.value.eq_spec(&other.value),
    {
        self.value == other.value
    }

    /// Gives the node eight empty child slots, dropping any it had.
    pub fn alloc_children(&mut self)
        ensures
            final(self).value == old(self).value,
            final(self).children is Some,
            final(self).children.unwrap().len() == 8,
            forall|i: int| 0 <= i < 8 ==> (#[trigger] final(self).children.unwrap()@[i]) is None,
    {
        let mut children: Vec<Option<Box<OcTreeDataNode<T>>>> = Vec::new();
        let mut k: usize = 0;
        while k < 8
            invariant
                k <= 8,
                children.len() == k,
                forall|i: int| 0 <= i < k ==> (#[trigger] children@[i]) is None,
            decreases 8 - k,
        {
            children.push(None);
            k += 1;
        }
        self.children = Some(children);
    }

    /// Whether child `i` (0 to 7) exists.
    pub fn child_exists(&self, i: usize) -> (r: bool)
        requires
            i < 8,
            self.children is Some ==> i < self.children.unwrap().len(),
        ensures
            r == (self.children is Some && self.children.unwrap()@[i as int] is Some),
    {
        if let Some(children) = &self.children {
            if let Some(_child) = &children[i] {
                return true;
            }
        }
        false
    }

    /// Whether any of the eight child slots holds a child.
    pub fn has_children(&self) -> (r: bool)
        requires
            self.children is Some ==> self.children.unwrap().len() >= 8,
        ensures
            r == (self.children is Some && exists|i: int|
                0 <= i < 8 && (#[trigger] self.children.unwrap()@[i]) is Some),
    {
        if let Some(children) = &self.children {
            let mut i: usize = 0;
            while i < 8
                invariant
                    i <= 8,
                    8 <= children.len(),
                    self.children == Some(*children),
                    forall|j: int| 0 <= j < i ==> (#[trigger] children@[j]) is None,
                decreases 8 - i,
            {
                if children[i].is_some() {
                    return true;
                }
                i += 1;
            }
        }
        false
    }
}

/// Whether slot `i` of `node` holds a child, as `child_exists` reports it.
pub open spec fn slot_filled<T>(node: OcTreeDataNode<T>, i: int) -> bool {
    node.children is Some && node.children.unwrap()@[i] is Some
}

/// `has_children` holds exactly when `child_exists` holds for one of
/// the eight positions.
pub proof fn lemma_has_children_iff_child_exists<T>(node: OcTreeDataNode<T>)
    requires
        node.children is Some ==> node.children.unwrap().len() >= 8,
    ensures
        (node.children is Some && exists|i: int| 0 <= i < 8 && (#[trigger] node.children.unwrap()@[i]) is Some)
            == (exists|i: int| 0 <= i < 8 && #[trigger] slot_filled(node, i)),
{
    if node.children is Some && exists|i: int| 0 <= i < 8 && (#[trigger] node.children.unwrap()@[i]) is Some {
        let i = choose|i: int| 0 <= i < 8 && (#[trigger] node.children.unwrap()@[i]) is Some;
        assert(slot_filled(node, i));
    }
}

/// The copy that `clone` makes has a child in exactly the positions
/// where `orig` has one, and every such child is a subtree copy.
pub proof fn lemma_clone_keeps_child_positions<T: Clone>(copy: OcTreeDataNode<T>, orig: OcTreeDataNode<T>)
    requires
        orig.children is Some ==> orig.children.unwrap().len() >= 8,
        is_node_copy(copy, orig),
    ensures
        copy.children is Some ==> copy.children.unwrap().len() == 8,
        forall|i: int| 0 <= i < 8 ==> (slot_filled(copy, i) == #[trigger] slot_filled(orig, i)),
{
    assert forall|i: int| 0 <= i < 8 implies (slot_filled(copy, i) == #[trigger] slot_filled(orig, i)) by {
        if orig.children is Some {
            let ov = orig.children.unwrap();
            let _ = ov@[i];
        }
    }
}

} // verus!
