//! An object together with the identifier it was loaded under.
use super::commit::Commit;
use super::tree::Tree;
use super::Id;
use super::Object;
use vstd::prelude::*;

verus! {

/// A value that keeps the address it was found at.
pub struct WithId<T> {
    pub id: Id,
    object: T,
}

impl<T> WithId<T> {
    /// The identifier, as a mathematical value.
    pub closed spec fn spec_id(&self) -> Seq<char> {
        self.id@
    }

    /// The value that the identifier is attached to.
    pub closed spec fn object(&self) -> T {
        self.object
    }

    /// Attaches `id` to `object`.
    pub fn new(id: Id, object: T) -> (r: Self)
        ensures
            r.spec_id() == id@,
            r.object() == object,
    {
        WithId { id, object }
    }

    /// Replaces the value by what `convert` makes of it and keeps the identifier.
    pub fn map<F, U>(self, convert: F) -> (r: WithId<U>) where F: FnOnce(T) -> U
        requires
            call_requires(convert, (self.object(),)),
        ensures
            r.spec_id() == self.spec_id(),
            call_ensures(convert, (self.object(),), r.object()),
    {
        WithId { id: self.id, object: convert(self.object) }
    }

    /// The identifier.
    pub fn id(&self) -> (id: &Id)
        ensures
            id@ == self.spec_id(),
    {
        &self.id
    }

    /// The value.
    pub fn get(&self) -> (object: &T)
        ensures
            *object == self.object(),
    {
        &self.object
    }

    /// The identifier and the value, taken apart.
    pub fn into_parts(self) -> (r: (Id, T))
        ensures
            r.0@ == self.spec_id(),
            r.1 == self.object(),
    {
        (self.id, self.object)
    }
}

impl<T> std::ops::Deref for WithId<T> {
    type Target = T;

    fn deref(&self) -> (object: &T)
        ensures
            *object == self.object(),
    {
        &self.object
    }
}

impl WithId<Object> {
    /// The commit under its identifier, if the object is a commit.
    pub fn as_commit(self) -> (r: Option<WithId<Commit>>)
        ensures
            match r {
                Some(commit) => self.object() == Object::Commit(commit.object())
                    && commit.spec_id() == self.spec_id(),
                None => !(self.object() is Commit),
            },
    {
        match self.object {
            Object::Commit(commit) => Some(WithId { id: self.id, object: commit }),
            _ => None,
        }
    }

    /// The tree under its identifier, if the object is a tree.
    pub fn as_tree(self) -> (r: Option<WithId<Tree>>)
        ensures
            match r {
                Some(tree) => self.object() == Object::Tree(tree.object()) && tree.spec_id()
                    == self.spec_id(),
                None => !(self.object() is Tree),
            },
    {
        match self.object {
            Object::Tree(tree) => Some(WithId { id: self.id, object: tree }),
            _ => None,
        }
    }
}

} // verus!
