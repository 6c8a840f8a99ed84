use crate::errors::RepositoryError;
use crate::kv::keys_ascending;
use crate::kv::lemma_keys_ascending_distinct;
use crate::kv::lemma_table_map_contains;
use crate::kv::lemma_table_map_index;
use crate::kv::lemma_table_map_remove;
use crate::kv::lemma_table_map_update;
use crate::kv::table_map;
use crate::model::TodoView;
use vstd::prelude::*;

verus! {

/// A todo item as the simple backend stores it: identifier, free text,
/// completion flag. Identifiers are assigned by the store and never change.
#[derive(Debug, PartialEq, Eq)]
pub struct Todo {
    pub id: i32,
    pub text: String,
    pub completed: bool,
}

impl View for Todo {
    type V = TodoView;

    open spec fn view(&self) -> TodoView {
        TodoView { id: self.id as int, text: self.text@, completed: self.completed }
    }
}

impl Clone for Todo {
    fn clone(&self) -> (r: Self)
        ensures
            r == *self,
    {
        Todo { id: self.id, text: self.text.clone(), completed: self.completed }
    }
}

impl Todo {
    /// A fresh todo starts uncompleted.
    pub fn new(id: i32, text: String) -> (t: Todo)
        ensures
            t@ == (TodoView { id: id as int, text: text@, completed: false }),
    {
        Todo { id, text, completed: false }
    }
}

/// Creation payload: the text of the new todo. Validation of the text
/// length happens before the payload reaches the repository.
#[derive(Debug, PartialEq, Eq)]
pub struct CreateTodo {
    pub text: String,
}

impl Clone for CreateTodo {
    fn clone(&self) -> (r: Self)
        ensures
            r == *self,
    {
        CreateTodo { text: self.text.clone() }
    }
}

impl CreateTodo {
    pub fn new(text: String) -> (p: CreateTodo)
        ensures
            p.text == text,
    {
        CreateTodo { text }
    }
}

/// Partial update payload: an absent field leaves the stored value unchanged.
#[derive(Debug, PartialEq, Eq)]
pub struct UpdateTodo {
    pub text: Option<String>,
    pub completed: Option<bool>,
}

/// The storage-agnostic contract for the simple todo store.
///
/// A backend exposes its stored todos as a map from identifier to content
/// and promises what each operation does to that map.
pub trait TodoRepository: Sized {
    /// The todos the backend currently holds, keyed by identifier.
    spec fn todos(&self) -> Map<int, TodoView>;

    /// The identifier the next created todo will receive.
    spec fn next_id(&self) -> int;

    /// The backend's internal well-formedness.
    spec fn inv(&self) -> bool;

    /// Allocates a fresh identifier and persists the text, uncompleted.
    /// The identifier was not in use before the call.
    fn create(&mut self, payload: CreateTodo) -> (todo: Todo)
        requires
            old(self).inv(),
            old(self).next_id() < 0x7fff_ffff,
        ensures
            final(self).inv(),
            todo@.id == old(self).next_id(),
            !old(self).todos().contains_key(todo@.id),
            todo@.text == payload.text@,
            todo@.completed == false,
            final(self).todos() == old(self).todos().insert(todo@.id, todo@),
            final(self).next_id() == old(self).next_id() + 1,
    ;

    /// Point lookup: `Some` exactly when the identifier is stored.
    fn find(&self, id: i32) -> (r: Option<Todo>)
        requires
            self.inv(),
        ensures
            match r {
                Some(t) => self.todos().contains_key(id as int) && t@ == self.todos()[id as int],
                None => !self.todos().contains_key(id as int),
            },
    ;

    /// Every stored todo, exactly once, ordered by identifier descending.
    fn all(&self) -> (r: Vec<Todo>)
        requires
            self.inv(),
        ensures
            forall|k: int, l: int| 0 <= k < l < r@.len() ==> r@[k]@.id > r@[l]@.id,
            forall|k: int|
                0 <= k < r@.len() ==> self.todos().contains_key(#[trigger] r@[k]@.id) && r@[k]@
                    == self.todos()[r@[k]@.id],
            forall|key: int|
                self.todos().contains_key(key) ==> exists|k: int|
                    0 <= k < r@.len() && #[trigger] r@[k]@.id == key,
    ;

    /// Partial update: present fields replace the stored values, absent
    /// fields keep them. Fails with `NotFound`, mutating nothing, when the
    /// identifier is not stored.
    fn update(&mut self, id: i32, payload: UpdateTodo) -> (r: Result<Todo, RepositoryError>)
        requires
            old(self).inv(),
        ensures
            final(self).inv(),
            final(self).next_id() == old(self).next_id(),
            match r {
                Ok(t) => {
                    &&& old(self).todos().contains_key(id as int)
                    &&& t@.id == id as int
                    &&& t@.text == (match payload.text {
                        Some(s) => s@,
                        None => old(self).todos()[id as int].text,
                    })
                    &&& t@.completed == (match payload.completed {
                        Some(b) => b,
                        None => old(self).todos()[id as int].completed,
                    })
                    &&& final(self).todos() == old(self).todos().insert(id as int, t@)
                },
                Err(e) => {
                    &&& !old(self).todos().contains_key(id as int)
                    &&& e == (RepositoryError::NotFound(id))
                    &&& final(self).todos() == old(self).todos()
                },
            },
    ;

    /// Removes the todo. Fails with `NotFound`, mutating nothing, when the
    /// identifier is not stored.
    fn delete(&mut self, id: i32) -> (r: Result<(), RepositoryError>)
        requires
            old(self).inv(),
        ensures
            final(self).inv(),
            final(self).next_id() == old(self).next_id(),
            match r {
                Ok(_) => old(self).todos().contains_key(id as int) && final(self).todos() == old(
                    self,
                ).todos().remove(id as int),
                Err(e) => !old(self).todos().contains_key(id as int) && e
                    == (RepositoryError::NotFound(id)) && final(self).todos() == old(self).todos(),
            },
    ;
}

/// In-memory backend: a vector of todos kept in ascending identifier order,
/// plus a monotonic counter for the next identifier. The counter never goes
/// backwards, so a deleted identifier is never handed out again.
#[derive(Debug)]
pub struct TodoRepositoryForMemory {
    store: Vec<Todo>,
    next: i32,
}

impl TodoRepositoryForMemory {
    /// The stored todos as (identifier, content) pairs, in storage order.
    pub closed spec fn pairs(&self) -> Seq<(int, TodoView)> {
        self.store@.map_values(|t: Todo| (t.id as int, t@))
    }

    /// How the pair sequence reads back the underlying vector.
    proof fn pairs_bridge(&self)
        ensures
            self.pairs().len() == self.store@.len(),
            forall|j: int|
                0 <= j < self.store@.len() ==> #[trigger] self.pairs()[j] == (
                    self.store@[j]@.id,
                    self.store@[j]@,
                ),
    {
    }

    /// An empty store; the first created todo receives identifier 1.
    pub fn new() -> (r: TodoRepositoryForMemory)
        ensures
            r.inv(),
            r.todos() == Map::<int, TodoView>::empty(),
            r.next_id() == 1,
    {
        let r = TodoRepositoryForMemory { store: Vec::new(), next: 1 };
        proof {
            assert(r.pairs() =~= Seq::<(int, TodoView)>::empty());
        }
        r
    }
}

impl TodoRepository for TodoRepositoryForMemory {
    closed spec fn todos(&self) -> Map<int, TodoView> {
        table_map(self.pairs())
    }

    closed spec fn next_id(&self) -> int {
        self.next as int
    }

    closed spec fn inv(&self) -> bool {
        &&& keys_ascending(self.pairs())
        &&& forall|i: int| 0 <= i < self.store@.len() ==> #[trigger] self.store@[i]@.id < self.next
        &&& 1 <= self.next
    }

    fn create(&mut self, payload: CreateTodo) -> (todo: Todo) {
        let id = self.next;
        let todo = Todo::new(id, payload.text);
        self.store.push(todo.clone());
        self.next = self.next + 1;
        proof {
            let p = (todo@.id, todo@);
            old(self).pairs_bridge();
            self.pairs_bridge();
            assert(self.pairs() =~= old(self).pairs().push(p));
            assert(self.pairs().drop_last() =~= old(self).pairs());
            assert(self.pairs().last() == p);
            assert(table_map(self.pairs()) == table_map(old(self).pairs()).insert(todo@.id, todo@));
            lemma_table_map_contains(old(self).pairs(), todo@.id);
        }
        todo
    }

    fn find(&self, id: i32) -> (r: Option<Todo>) {
        let mut i: usize = 0;
        while i < self.store.len()
            invariant
                0 <= i <= self.store@.len(),
                forall|j: int| 0 <= j < i ==> #[trigger] self.store@[j]@.id != id as int,
            decreases self.store@.len() - i,
        {
            if self.store[i].id == id {
                proof {
                    self.pairs_bridge();
                    lemma_keys_ascending_distinct(self.pairs());
                    lemma_table_map_index(self.pairs(), i as int);
                }
                return Some(self.store[i].clone());
            }
            i = i + 1;
        }
        proof {
            self.pairs_bridge();
            lemma_table_map_contains(self.pairs(), id as int);
        }
        None
    }

    fn all(&self) -> (r: Vec<Todo>) {
        let mut out: Vec<Todo> = Vec::new();
        let mut i: usize = self.store.len();
        while i > 0
            invariant
                0 <= i <= self.store@.len(),
                out@.len() == self.store@.len() - i,
                forall|k: int|
                    0 <= k < out@.len() ==> out@[k] == self.store@[self.store@.len() - 1 - k],
            decreases i,
        {
            i = i - 1;
            out.push(self.store[i].clone());
        }
        proof {
            self.pairs_bridge();
            lemma_keys_ascending_distinct(self.pairs());
            let n = self.store@.len();
            assert forall|k: int, l: int| 0 <= k < l < out@.len() implies out@[k]@.id
                > out@[l]@.id by {
                assert(out@[k] == self.store@[n - 1 - k]);
                assert(out@[l] == self.store@[n - 1 - l]);
                assert(self.pairs()[n - 1 - l].0 < self.pairs()[n - 1 - k].0);
            }
            assert forall|k: int|
                0 <= k < out@.len() implies self.todos().contains_key(
                #[trigger] out@[k]@.id,
            ) && out@[k]@ == self.todos()[out@[k]@.id] by {
                lemma_table_map_index(self.pairs(), n - 1 - k);
            }
            assert forall|key: int| self.todos().contains_key(key) implies exists|k: int|
                0 <= k < out@.len() && #[trigger] out@[k]@.id == key by {
                lemma_table_map_contains(self.pairs(), key);
                let j = choose|j: int| 0 <= j < self.pairs().len() && self.pairs()[j].0 == key;
                assert(out@[n - 1 - j]@.id == key);
            }
        }
        out
    }

    fn update(&mut self, id: i32, payload: UpdateTodo) -> (r: Result<Todo, RepositoryError>) {
        let mut i: usize = 0;
        while i < self.store.len()
            invariant
                *self == *old(self),
                0 <= i <= self.store@.len(),
                forall|j: int| 0 <= j < i ==> #[trigger] self.store@[j]@.id != id as int,
            decreases self.store@.len() - i,
        {
            if self.store[i].id == id {
                let text = match payload.text {
                    Some(s) => s,
                    None => self.store[i].text.clone(),
                };
                let completed = match payload.completed {
                    Some(b) => b,
                    None => self.store[i].completed,
                };
                let todo = Todo { id, text, completed };
                proof {
                    old(self).pairs_bridge();
                    lemma_keys_ascending_distinct(old(self).pairs());
                    lemma_table_map_index(old(self).pairs(), i as int);
                }
                let _prev = self.store.remove(i);
                self.store.insert(i, todo.clone());
                proof {
                    self.pairs_bridge();
                    assert(self.pairs() =~= old(self).pairs().update(i as int, (id as int, todo@)));
                    lemma_table_map_update(old(self).pairs(), i as int, todo@);
                    assert(old(self).pairs()[i as int].0 == id as int);
                    assert(table_map(self.pairs()) == table_map(old(self).pairs()).insert(
                        id as int,
                        todo@,
                    ));
                }
                return Ok(todo);
            }
            i = i + 1;
        }
        proof {
            self.pairs_bridge();
            lemma_table_map_contains(self.pairs(), id as int);
        }
        Err(RepositoryError::NotFound(id))
    }

    fn delete(&mut self, id: i32) -> (r: Result<(), RepositoryError>) {
        let mut i: usize = 0;
        while i < self.store.len()
            invariant
                *self == *old(self),
                0 <= i <= self.store@.len(),
                forall|j: int| 0 <= j < i ==> #[trigger] self.store@[j]@.id != id as int,
            decreases self.store@.len() - i,
        {
            if self.store[i].id == id {
                proof {
                    old(self).pairs_bridge();
                    lemma_keys_ascending_distinct(old(self).pairs());
                    lemma_table_map_index(old(self).pairs(), i as int);
                }
                self.store.remove(i);
                proof {
                    self.pairs_bridge();
                    assert(self.pairs() =~= old(self).pairs().remove(i as int));
                    lemma_table_map_remove(old(self).pairs(), i as int);
                    assert(old(self).pairs()[i as int].0 == id as int);
                }
                return Ok(());
            }
            i = i + 1;
        }
        proof {
            self.pairs_bridge();
            lemma_table_map_contains(self.pairs(), id as int);
        }
        Err(RepositoryError::NotFound(id))
    }
}

} // verus!
