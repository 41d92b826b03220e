//! Singly linked lists, the sequence type of the syntax tree.
use vstd::prelude::*;

verus! {

/// A finite sequence held as a chain of cells.
pub enum List<T> {
    Nil,
    Cons(Box<T>, Box<List<T>>),
}

/// The elements of a list, in order.
pub open spec fn list_seq<T>(list: List<T>) -> Seq<T>
    decreases list,
{
    match list {
        List::Nil => Seq::empty(),
        List::Cons(head, tail) => seq![*head] + list_seq(*tail),
    }
}

impl<T> View for List<T> {
    type V = Seq<T>;

    open spec fn view(&self) -> Seq<T> {
        list_seq(*self)
    }
}

impl<T> List<T> {
    /// Builds a list holding the elements of `v` in order.
    pub fn from_vec(v: Vec<T>) -> (list: List<T>)
        ensures
            list@ == v@,
    {
        let mut v = v;
        let ghost initial = v@;
        let mut list = List::Nil;
        while v.len() > 0
            invariant
                initial == v@ + list@,
            decreases v.len(),
        {
            let last = v.pop().unwrap();
            list = List::Cons(Box::new(last), Box::new(list));
            assert(initial == v@ + list@);
        }
        assert(v@ =~= Seq::<T>::empty());
        assert(initial =~= list@);
        list
    }

    /// Number of elements.
    pub fn len(&self) -> (n: usize)
        requires
            self@.len() <= usize::MAX,
        ensures
            n == self@.len(),
        decreases self,
    {
        match self {
            List::Nil => 0,
            List::Cons(_, tail) => 1 + tail.len(),
        }
    }

    /// Whether the list has no element.
    pub fn is_empty(&self) -> (b: bool)
        ensures
            b == (self@.len() == 0),
    {
        match self {
            List::Nil => true,
            List::Cons(_, _) => false,
        }
    }
}

} // verus!
