use vstd::prelude::*;

verus! {

struct Node<T> {
    item: T,
    next: Option<Box<Node<T>>>,
}

/// The items of a chain of nodes, from the first on.
spec fn items_of<T>(link: Option<Box<Node<T>>>) -> Seq<T>
    decreases link,
{
    match link {
        None => Seq::empty(),
        Some(node) => seq![node.item].add(items_of(node.next)),
    }
}

impl<T> Node<T> {
    fn new(item: T, next: Option<Box<Node<T>>>) -> (r: Option<Box<Node<T>>>)
        ensures
            items_of(r) == seq![item].add(items_of(next)),
    {
        Some(Box::new(Node { item, next }))
    }
}

/// A last-in, first-out stack on a chain of nodes.
pub struct Stack<T> {
    head: Option<Box<Node<T>>>,
}

impl<T> View for Stack<T> {
    type V = Seq<T>;

    /// The items, from the top down.
    closed spec fn view(&self) -> Seq<T> {
        items_of(self.head)
    }
}

impl<T> Stack<T> {
    pub fn new() -> (s: Stack<T>)
        ensures
            s@ == Seq::<T>::empty(),
    {
        Stack { head: None }
    }

    /// Takes the top item off, or gives `None` where the stack is empty.
    pub fn pop(&mut self) -> (r: Option<T>)
        ensures
            old(self)@.len() == 0 ==> r is None && final(self)@ == old(self)@,
            old(self)@.len() > 0 ==> r == Some(old(self)@[0]) && final(self)@ == old(self)@.drop_first(),
    {
        match self.head.take() {
            None => None,
            Some(node) => {
                let node = *node;
                proof {
                    assert(old(self)@.drop_first() =~= items_of(node.next));
                }
                self.head = node.next;
                Some(node.item)
            },
        }
    }

    /// Puts `item` on top.
    pub fn push(&mut self, item: T)
        ensures
            final(self)@ == seq![item].add(old(self)@),
    {
        let next = self.head.take();
        self.head = Node::new(item, next);
    }

    /// A stack of `items`, pushed in order, so that the last is on top.
    pub fn from_iter(items: Vec<T>) -> (s: Stack<T>)
        ensures
            s@ == items@.reverse(),
    {
        let ghost all = items@;
        let mut stack = Stack::new();
        for item in it: items
            invariant
                it.seq() == all,
                stack@ == all.take(it.index() as int).reverse(),
        {
            proof {
                assert(all.take(it.index() + 1).reverse() =~= seq![item].add(
                    all.take(it.index() as int).reverse(),
                ));
            }
            stack.push(item);
        }
        proof {
            assert(all.take(all.len() as int) =~= all);
        }
        stack
    }
}

impl<T> Stack<T> {
    /// Hands the items out by value, from the top down.
    pub fn into_iter(self) -> (r: StackIter<T>)
        ensures
            r@ == self@,
    {
        StackIter { stack: self }
    }

    /// Hands the items out by reference, from the top down.
    pub fn iter(&self) -> (r: StackRefIter<'_, T>)
        ensures
            r@ == self@,
    {
        match &self.head {
            None => StackRefIter { node: None },
            Some(node) => StackRefIter { node: Some(&**node) },
        }
    }
}

/// The items of a stack that are still to come, by value.
pub struct StackIter<T> {
    stack: Stack<T>,
}

impl<T> View for StackIter<T> {
    type V = Seq<T>;

    closed spec fn view(&self) -> Seq<T> {
        self.stack@
    }
}

impl<T> StackIter<T> {
    /// The next item, or `None` once all are out.
    pub fn next(&mut self) -> (r: Option<T>)
        ensures
            old(self)@.len() == 0 ==> r is None && final(self)@ == old(self)@,
            old(self)@.len() > 0 ==> r == Some(old(self)@[0]) && final(self)@ == old(self)@.drop_first(),
    {
        self.stack.pop()
    }
}

/// The items of a stack that are still to come, by reference.
pub struct StackRefIter<'s, T> {
    node: Option<&'s Node<T>>,
}

impl<'s, T> View for StackRefIter<'s, T> {
    type V = Seq<T>;

    closed spec fn view(&self) -> Seq<T> {
        match self.node {
            None => Seq::empty(),
            Some(node) => seq![node.item].add(items_of(node.next)),
        }
    }
}

impl<'s, T> StackRefIter<'s, T> {
    /// The next item, or `None` once all are out.
    pub fn next(&mut self) -> (r: Option<&'s T>)
        ensures
            old(self)@.len() == 0 ==> r is None && final(self)@ == old(self)@,
            old(self)@.len() > 0 ==> r is Some && *r->Some_0 == old(self)@[0] && final(self)@
                == old(self)@.drop_first(),
    {
        match self.node {
            None => None,
            Some(node) => {
                self.node = match &node.next {
                    None => None,
                    Some(n) => Some(&**n),
                };
                proof {
                    assert(old(self)@.drop_first() =~= items_of(node.next));
                }
                Some(&node.item)
            },
        }
    }
}

impl<T> Stack<T> {
    /// Hands the items out by mutable reference, from the top down.
    pub fn iter_mut(&mut self) -> (r: StackMutRefIter<'_, T>)
        ensures
            r@ == old(self)@,
    {
        match &mut self.head {
            None => StackMutRefIter { node: None },
            Some(node) => StackMutRefIter { node: Some(&mut **node) },
        }
    }
}

/// The items of a stack that are still to come, by mutable reference.
pub struct StackMutRefIter<'s, T> {
    node: Option<&'s mut Node<T>>,
}

impl<'s, T> View for StackMutRefIter<'s, T> {
    type V = Seq<T>;

    closed spec fn view(&self) -> Seq<T> {
        match self.node {
            None => Seq::empty(),
            Some(node) => seq![node.item].add(items_of(node.next)),
        }
    }
}

impl<'s, T> StackMutRefIter<'s, T> {
    /// The next item, or `None` once all are out.
    pub fn next(&mut self) -> (r: Option<&'s mut T>)
        ensures
            old(self)@.len() == 0 ==> r is None && final(self)@ == old(self)@,
            old(self)@.len() > 0 ==> r is Some && *r->Some_0 == old(self)@[0] && final(self)@
                == old(self)@.drop_first(),
    {
        match self.node.take() {
            None => None,
            Some(node) => {
                proof {
                    assert(old(self)@.drop_first() =~= items_of(node.next));
                }
                self.node = match &mut node.next {
                    None => None,
                    Some(n) => Some(&mut **n),
                };
                Some(&mut node.item)
            },
        }
    }
}

impl<T> Default for Stack<T> {
    fn default() -> (s: Stack<T>)
        ensures
            s@ == Seq::<T>::empty(),
    {
        Stack::new()
    }
}

} // verus!
