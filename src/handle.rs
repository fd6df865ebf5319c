use std::marker::PhantomData;
use vstd::prelude::*;

verus! {

/// An identity reference to an object of kind `T` held in a [`Store`].
///
/// Two handles are identical exactly when they carry the same id; the id is
/// the position of the object in its store, so it is stable for as long as
/// the store exists.
#[derive(Debug)]
pub struct Handle<T> {
    id: usize,
    kind: PhantomData<T>,
}

impl<T> View for Handle<T> {
    type V = usize;

    closed spec fn view(&self) -> usize {
        self.id
    }
}

impl<T> Handle<T> {
    /// The identity of the referenced object
    pub fn id(&self) -> (r: usize)
        ensures
            r == self@,
    {
        self.id
    }
}

impl<T> Clone for Handle<T> {
    fn clone(&self) -> (r: Self)
        ensures
            r@ == self@,
    {
        Handle { id: self.id, kind: PhantomData }
    }
}

impl<T> Copy for Handle<T> {

}

impl<T> PartialEq for Handle<T> {
    fn eq(&self, other: &Handle<T>) -> (r: bool) {
        self.id == other.id
    }
}

impl<T> vstd::std_specs::cmp::PartialEqSpecImpl for Handle<T> {
    open spec fn obeys_eq_spec() -> bool {
        true
    }

    open spec fn eq_spec(&self, other: &Handle<T>) -> bool {
        self@ == other@
    }
}

impl<T> Eq for Handle<T> {}

/// An append-only arena that owns objects of kind `T` and hands out handles
///
/// Objects are never mutated or removed once stored, so a handle stays valid
/// and keeps referring to the same value.
#[derive(Debug)]
pub struct Store<T> {
    objects: Vec<T>,
}

impl<T> View for Store<T> {
    type V = Seq<T>;

    closed spec fn view(&self) -> Seq<T> {
        self.objects@
    }
}

impl<T> Store<T> {
    /// Create an empty store
    pub fn new() -> (r: Self)
        ensures
            r@ == Seq::<T>::empty(),
    {
        Store { objects: Vec::new() }
    }

    /// The number of objects in the store
    pub fn len(&self) -> (r: usize)
        ensures
            r == self@.len(),
    {
        self.objects.len()
    }

    /// Whether `handle` refers to an object of this store
    pub open spec fn contains(&self, handle: Handle<T>) -> bool {
        handle@ < self@.len()
    }

    /// The object that a handle of this store refers to
    pub open spec fn object(&self, handle: Handle<T>) -> T {
        self@[handle@ as int]
    }

    /// Store an object, returning a fresh handle to it
    pub fn insert(&mut self, object: T) -> (r: Handle<T>)
        ensures
            final(self)@ == old(self)@.push(object),
            r@ == old(self)@.len(),
    {
        let id = self.objects.len();
        self.objects.push(object);
        Handle { id, kind: PhantomData }
    }

    /// Access the object that `handle` refers to
    pub fn get(&self, handle: &Handle<T>) -> (r: &T)
        requires
            self.contains(*handle),
        ensures
            *r == self.object(*handle),
    {
        &self.objects[handle.id]
    }
}

} // verus!
