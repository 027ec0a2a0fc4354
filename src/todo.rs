//! The todo records, and the store that many request handlers share.
use std::sync::Arc;
use std::sync::RwLock;
use vstd::prelude::*;

verus! {

/// One work item; `id` is its place in the order of creation.
#[derive(Debug, Clone)]
pub struct Todo {
    pub id: usize,
    pub user_id: usize,
    pub title: String,
    pub completed: bool,
}

/// The body of a request that creates a todo.
#[derive(Debug, Clone)]
pub struct CreateTodo {
    pub title: String,
}

/// Why the store could not serve a call.
#[derive(Debug, Clone, Copy, PartialEq, Eq, Structural)]
pub enum StoreError {
    /// The lock was poisoned by a holder that panicked.
    Unavailable,
}

impl Todo {
    pub fn copy(&self) -> (r: Todo)
        ensures
            r == *self,
    {
        Todo { id: self.id, user_id: self.user_id, title: self.title.clone(), completed: self.completed }
    }
}

/// Every record stands at the index that is its identifier, and none is completed.
pub open spec fn numbered(items: Seq<Todo>) -> bool {
    forall|i: int| 0 <= i < items.len() ==> #[trigger] items[i].id == i && !items[i].completed
}

/// In a numbered list identifiers increase along it, so no two records share one.
pub proof fn lemma_numbered_unique(items: Seq<Todo>)
    requires
        numbered(items),
    ensures
        forall|i: int, j: int| 0 <= i < j < items.len() ==> items[i].id < items[j].id,
{
    assert forall|i: int, j: int| 0 <= i < j < items.len() implies items[i].id < items[j].id by {
        assert(items[i].id == i);
        assert(items[j].id == j);
    }
}

/// The records in the order of creation; each one's identifier is the number of records made
/// before it.
#[derive(Debug)]
pub struct TodoList {
    items: Vec<Todo>,
}

impl TodoList {
    pub closed spec fn items(&self) -> Seq<Todo> {
        self.items@
    }

    #[verifier::type_invariant]
    closed spec fn wf(&self) -> bool {
        numbered(self.items@)
    }

    pub fn new() -> (r: TodoList)
        ensures
            r.items() == Seq::<Todo>::empty(),
    {
        TodoList { items: Vec::new() }
    }

    pub fn len(&self) -> (r: usize)
        ensures
            r == self.items().len(),
    {
        self.items.len()
    }

    /// A copy of every record, in the order of creation.
    pub fn list(&self) -> (r: Vec<Todo>)
        ensures
            r@ == self.items(),
            numbered(r@),
    {
        proof {
            use_type_invariant(self);
        }
        let mut r: Vec<Todo> = Vec::new();
        let mut i: usize = 0;
        while i < self.items.len()
            invariant
                i <= self.items@.len(),
                r@ == self.items@.take(i as int),
            decreases self.items@.len() - i,
        {
            r.push(self.items[i].copy());
            assert(self.items@.take(i + 1) =~= self.items@.take(i as int).push(self.items@[i as int]));
            i = i + 1;
        }
        assert(self.items@.take(i as int) =~= self.items@);
        r
    }

    /// Makes the record of `title` for `user_id`, stores it after the others and returns a copy.
    pub fn append(&mut self, user_id: usize, title: String) -> (t: Todo)
        ensures
            t.id == old(self).items().len(),
            t.user_id == user_id,
            t.title == title,
            !t.completed,
            final(self).items() == old(self).items().push(t),
            numbered(final(self).items()),
    {
        proof {
            use_type_invariant(&*self);
        }
        let t = Todo { id: self.items.len(), user_id, title, completed: false };
        let mut taken = TodoList::new();
        core::mem::swap(self, &mut taken);
        proof {
            use_type_invariant(&taken);
        }
        let TodoList { items } = taken;
        let mut items = items;
        items.push(t.copy());
        assert(numbered(items@));
        *self = TodoList { items };
        t
    }
}

#[verifier::external_type_specification]
#[verifier::external_body]
#[verifier::reject_recursive_types(T)]
pub struct ExRwLock<T: ?Sized>(RwLock<T>);

pub assume_specification<T>[ RwLock::<T>::new ](t: T) -> RwLock<T>;

/// Relies on `RwLock::write`: it returns `Err` where the lock is poisoned, and otherwise the
/// sole access to the list until the guard drops; the closure runs `TodoList::append` on it.
#[verifier::external_body]
fn append_locked(lock: &RwLock<TodoList>, user_id: usize, title: String) -> (r: Option<Todo>)
    ensures
        r matches Some(t) ==> t.user_id == user_id && t.title == title && !t.completed,
{
    lock.write().ok().map(|mut list| list.append(user_id, title))
}

/// Relies on `RwLock::read`: it returns `Err` where the lock is poisoned, and otherwise shared
/// access to the list, which no writer changes until the guard drops; the closure copies it out
/// with `TodoList::list`.
#[verifier::external_body]
fn list_locked(lock: &RwLock<TodoList>) -> (r: Option<Vec<Todo>>)
    ensures
        r matches Some(v) ==> numbered(v@),
{
    lock.read().ok().map(|list| list.list())
}

/// The list of records shared by every handler: many may read at once, one writes at a time.
#[derive(Debug, Clone)]
pub struct TodoStore {
    items: Arc<RwLock<TodoList>>,
}

impl TodoStore {
    pub fn new() -> (r: TodoStore) {
        TodoStore { items: Arc::new(RwLock::new(TodoList::new())) }
    }

    /// A snapshot of every record: their identifiers are 0, 1, 2, ... in order, so no two are
    /// alike; `Unavailable` where the lock is poisoned.
    pub fn list(&self) -> (r: Result<Vec<Todo>, StoreError>)
        ensures
            r matches Ok(v) ==> numbered(v@),
            r matches Err(e) ==> e == StoreError::Unavailable,
    {
        match list_locked(&self.items) {
            Some(v) => Ok(v),
            None => Err(StoreError::Unavailable),
        }
    }

    /// Stores a new record of `title` for `user_id` and returns a copy of it; `Unavailable` where
    /// the lock is poisoned.
    pub fn append(&self, user_id: usize, title: String) -> (r: Result<Todo, StoreError>)
        ensures
            r matches Ok(t) ==> t.user_id == user_id && t.title@ == title@ && !t.completed,
            r matches Err(e) ==> e == StoreError::Unavailable,
    {
        match append_locked(&self.items, user_id, title) {
            Some(t) => Ok(t),
            None => Err(StoreError::Unavailable),
        }
    }
}

} // verus!
