use crate::errors::RepositoryError;
use crate::model::DbView;
use crate::model::LabelView;
use crate::model::Repository;
use crate::model::ids_without;
use vstd::prelude::*;

verus! {

/// A named tag attachable to zero or more todos. Names are unique across
/// labels: creating a duplicate is rejected, not upserted.
#[derive(Debug, PartialEq, Eq)]
pub struct Label {
    pub id: i32,
    pub name: String,
}

impl View for Label {
    type V = LabelView;

    open spec fn view(&self) -> LabelView {
        LabelView { id: self.id as int, name: self.name@ }
    }
}

impl Clone for Label {
    fn clone(&self) -> (r: Self)
        ensures
            r == *self,
    {
        Label { id: self.id, name: self.name.clone() }
    }
}

/// An element-wise copy of a label vector.
pub fn clone_labels(v: &Vec<Label>) -> (r: Vec<Label>)
    ensures
        r@ == v@,
{
    let mut out: Vec<Label> = Vec::new();
    let mut i: usize = 0;
    proof {
        assert(out@ =~= v@.take(0));
    }
    while i < v.len()
        invariant
            0 <= i <= v@.len(),
            out@ == v@.take(i as int),
        decreases v@.len() - i,
    {
        out.push(v[i].clone());
        proof {
            assert(out@ =~= v@.take(i as int + 1));
        }
        i = i + 1;
    }
    proof {
        assert(v@.take(v@.len() as int) =~= v@);
    }
    out
}

/// Creation payload: the name of the new label.
#[derive(Debug, PartialEq, Eq)]
pub struct CreateLabel {
    pub name: String,
}

/// Update payload for a label.
#[derive(Debug, PartialEq, Eq)]
pub struct UpdateLabel {
    pub id: i32,
    pub name: String,
}

/// The storage-agnostic contract for labels, over the same backend state
/// as the todo contract.
pub trait LabelRepository: Repository {
    /// Inserts a label under a fresh identifier, unless a label with the
    /// same name (exact, case-sensitive match) already exists; then fails
    /// with `Duplicate` carrying the existing identifier, mutating nothing.
    fn create(&mut self, name: String) -> (r: Result<Label, RepositoryError>)
        requires
            old(self).inv(),
            old(self).db().next_label_id < 0x7fff_ffff,
        ensures
            final(self).inv(),
            final(self).db().todos == old(self).db().todos,
            final(self).db().next_todo_id == old(self).db().next_todo_id,
            match r {
                Ok(label) => {
                    &&& forall|l: int|
                        #[trigger] old(self).db().labels.contains_key(l) ==> old(self).db().labels[l] != name@
                    &&& label@.id == old(self).db().next_label_id
                    &&& label@.name == name@
                    &&& final(self).db().labels == old(self).db().labels.insert(label@.id, name@)
                    &&& final(self).db().next_label_id == old(self).db().next_label_id + 1
                },
                Err(e) => {
                    &&& exists|l: i32|
                        old(self).db().labels.contains_key(l as int) && old(self).db().labels[
                            l as int] == name@ && e == (RepositoryError::Duplicate(l))
                    &&& final(self).db() == old(self).db()
                },
            },
    ;

    /// Every stored label, exactly once, ordered by identifier ascending.
    fn all(&self) -> (r: Result<Vec<Label>, RepositoryError>)
        requires
            self.inv(),
        ensures
            r is Ok,
            forall|k: int, l: int|
                0 <= k < l < r->Ok_0@.len() ==> r->Ok_0@[k]@.id < r->Ok_0@[l]@.id,
            forall|k: int|
                0 <= k < r->Ok_0@.len() ==> self.db().labels.contains_key(
                    (#[trigger] r->Ok_0@[k])@.id,
                ) && r->Ok_0@[k]@.name == self.db().labels[r->Ok_0@[k]@.id],
            forall|key: int|
                self.db().labels.contains_key(key) ==> exists|k: int|
                    0 <= k < r->Ok_0@.len() && (#[trigger] r->Ok_0@[k])@.id == key,
    ;

    /// Removes the label and every association that attaches it to a todo;
    /// the todos themselves keep their other fields. Fails with `NotFound`,
    /// mutating nothing, when the identifier is not stored.
    fn delete(&mut self, id: i32) -> (r: Result<(), RepositoryError>)
        requires
            old(self).inv(),
        ensures
            final(self).inv(),
            final(self).db().next_todo_id == old(self).db().next_todo_id,
            final(self).db().next_label_id == old(self).db().next_label_id,
            match r {
                Ok(_) => {
                    &&& old(self).db().labels.contains_key(id as int)
                    &&& final(self).db().labels == old(self).db().labels.remove(id as int)
                    &&& final(self).db().todos.dom() == old(self).db().todos.dom()
                    &&& forall|t: int|
                        #[trigger] old(self).db().todos.contains_key(t)
                            ==> final(self).db().todos[t].text == old(self).db().todos[t].text
                            && final(self).db().todos[t].completed
                            == old(self).db().todos[t].completed && ids_without(
                            final(self).db().todos[t].label_ids,
                            old(self).db().todos[t].label_ids,
                            id as int,
                        )
                },
                Err(e) => {
                    &&& !old(self).db().labels.contains_key(id as int)
                    &&& e == (RepositoryError::NotFound(id))
                    &&& final(self).db() == old(self).db()
                },
            },
    ;
}

} // verus!
