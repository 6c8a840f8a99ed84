use crate::errors::RepositoryError;
use crate::label::Label;
use crate::model::EntityView;
use crate::model::LabelView;
use crate::model::Repository;
use crate::model::RowView;
use crate::model::entity_matches;
use crate::model::id_set_of;
use vstd::prelude::*;

verus! {

/// A todo together with its labels, as read operations return it once
/// label support exists. Labels are ordered by identifier ascending.
#[derive(Debug, PartialEq, Eq)]
pub struct TodoEntity {
    pub id: i32,
    pub text: String,
    pub completed: bool,
    pub labels: Vec<Label>,
}

impl View for TodoEntity {
    type V = EntityView;

    open spec fn view(&self) -> EntityView {
        EntityView {
            id: self.id as int,
            text: self.text@,
            completed: self.completed,
            labels: self.labels@.map_values(|l: Label| l@),
        }
    }
}

impl Clone for TodoEntity {
    fn clone(&self) -> (r: Self)
        ensures
            r@ == self@,
            r.id == self.id,
            r.text == self.text,
            r.completed == self.completed,
            r.labels@ == self.labels@,
    {
        let labels = crate::label::clone_labels(&self.labels);
        TodoEntity { id: self.id, text: self.text.clone(), completed: self.completed, labels }
    }
}

/// Creation payload: the text of the new todo and the identifiers of the
/// labels to attach.
#[derive(Debug, PartialEq, Eq)]
pub struct CreateTodo {
    pub text: String,
    pub labels: Vec<i32>,
}

/// Partial update payload: an absent field leaves the stored value
/// unchanged; `labels`, when present (even empty), replaces the whole
/// association set of the todo.
#[derive(Debug, PartialEq, Eq)]
pub struct UpdateTodo {
    pub text: Option<String>,
    pub completed: Option<bool>,
    pub labels: Option<Vec<i32>>,
}

/// One flat row of the left outer join of todos, associations and labels.
/// The two label columns are both present or both null.
#[derive(Debug, PartialEq, Eq)]
pub struct TodoWithLabelFromRow {
    pub id: i32,
    pub text: String,
    pub completed: bool,
    pub label_id: Option<i32>,
    pub label_name: Option<String>,
}

impl View for TodoWithLabelFromRow {
    type V = RowView;

    open spec fn view(&self) -> RowView {
        RowView {
            id: self.id as int,
            text: self.text@,
            completed: self.completed,
            label: match (self.label_id, self.label_name) {
                (Some(lid), Some(name)) => Some(LabelView { id: lid as int, name: name@ }),
                _ => None,
            },
        }
    }
}

/// The identifiers a payload requests, as mathematical integers.
pub open spec fn ids_of(s: Seq<i32>) -> Seq<int> {
    s.map_values(|x: i32| x as int)
}

/// How the identifier sequence reads back the underlying vector.
pub proof fn ids_of_bridge(s: Seq<i32>)
    ensures
        ids_of(s).len() == s.len(),
        forall|j: int| 0 <= j < s.len() ==> #[trigger] ids_of(s)[j] == s[j] as int,
{
}

pub open spec fn rows_view(s: Seq<TodoWithLabelFromRow>) -> Seq<RowView> {
    s.map_values(|r: TodoWithLabelFromRow| r@)
}

pub open spec fn entities_view(s: Seq<TodoEntity>) -> Seq<EntityView> {
    s.map_values(|e: TodoEntity| e@)
}

/// The entity a row starts when its todo id has not been seen before.
pub open spec fn entity_of_row(row: RowView) -> EntityView {
    EntityView {
        id: row.id,
        text: row.text,
        completed: row.completed,
        labels: match row.label {
            Some(l) => seq![l],
            None => Seq::empty(),
        },
    }
}

/// One step of the fold: scan the accumulator for an entity with the
/// row's todo id; append the row's label to it when the row carries one,
/// otherwise start a new entity at the back.
pub open spec fn fold_step(acc: Seq<EntityView>, row: RowView) -> Seq<EntityView> {
    if exists|j: int| 0 <= j < acc.len() && acc[j].id == row.id {
        let j = choose|j: int| 0 <= j < acc.len() && acc[j].id == row.id;
        match row.label {
            Some(l) => acc.update(
                j,
                EntityView {
                    id: acc[j].id,
                    text: acc[j].text,
                    completed: acc[j].completed,
                    labels: acc[j].labels.push(l),
                },
            ),
            None => acc,
        }
    } else {
        acc.push(entity_of_row(row))
    }
}

/// Folding a whole row sequence, left to right.
pub open spec fn fold_rows(rows: Seq<RowView>) -> Seq<EntityView>
    decreases rows.len(),
{
    if rows.len() == 0 {
        Seq::empty()
    } else {
        fold_step(fold_rows(rows.drop_last()), rows.last())
    }
}

/// No two entities share an identifier.
pub open spec fn entity_ids_distinct(es: Seq<EntityView>) -> bool {
    forall|i: int, j: int| 0 <= i < j < es.len() ==> es[i].id != es[j].id
}

/// The fold never produces two entities with the same todo identifier.
pub proof fn lemma_fold_rows_distinct(rows: Seq<RowView>)
    ensures
        entity_ids_distinct(fold_rows(rows)),
    decreases rows.len(),
{
    if rows.len() > 0 {
        lemma_fold_rows_distinct(rows.drop_last());
        let acc = fold_rows(rows.drop_last());
        let row = rows.last();
        if exists|j: int| 0 <= j < acc.len() && acc[j].id == row.id {
            let j = choose|j: int| 0 <= j < acc.len() && acc[j].id == row.id;
            assert forall|p: int, q: int|
                0 <= p < q < fold_rows(rows).len() implies fold_rows(rows)[p].id != fold_rows(
                rows,
            )[q].id by {
                assert(fold_rows(rows)[p].id == acc[p].id);
                assert(fold_rows(rows)[q].id == acc[q].id);
            }
        } else {
            assert forall|p: int, q: int|
                0 <= p < q < fold_rows(rows).len() implies fold_rows(rows)[p].id != fold_rows(
                rows,
            )[q].id by {
                if q < acc.len() {
                    assert(fold_rows(rows)[p].id == acc[p].id);
                    assert(fold_rows(rows)[q].id == acc[q].id);
                } else {
                    assert(fold_rows(rows)[p] == acc[p]);
                    assert(acc.contains(acc[p]));
                }
            }
        }
    }
}

/// Index of the first accumulated entity carrying this todo identifier.
fn find_entity(accum: &Vec<TodoEntity>, id: i32) -> (r: Option<usize>)
    ensures
        match r {
            Some(j) => 0 <= j < accum@.len() && accum@[j as int]@.id == id as int,
            None => forall|k: int|
                0 <= k < accum@.len() ==> (#[trigger] accum@[k])@.id != id as int,
        },
{
    let mut j: usize = 0;
    while j < accum.len()
        invariant
            0 <= j <= accum@.len(),
            forall|k: int| 0 <= k < j ==> (#[trigger] accum@[k])@.id != id as int,
        decreases accum@.len() - j,
    {
        if accum[j].id == id {
            return Some(j);
        }
        j = j + 1;
    }
    None
}

/// Reconstructs nested entities from the flat rows of the left outer
/// join: one entity per distinct todo identifier, in order of first
/// appearance, each carrying its labels in the order the rows deliver
/// them (ascending by label identifier when the query orders by it).
pub fn fold_entities(rows: Vec<TodoWithLabelFromRow>) -> (out: Vec<TodoEntity>)
    ensures
        entities_view(out@) == fold_rows(rows_view(rows@)),
{
    let mut accum: Vec<TodoEntity> = Vec::new();
    let mut i: usize = 0;
    proof {
        assert(entities_view(accum@) =~= Seq::<EntityView>::empty());
        assert(rows_view(rows@).take(0) =~= Seq::<RowView>::empty());
    }
    while i < rows.len()
        invariant
            0 <= i <= rows@.len(),
            entities_view(accum@) == fold_rows(rows_view(rows@).take(i as int)),
        decreases rows@.len() - i,
    {
        let row = &rows[i];
        let ghost acc0 = entities_view(accum@);
        let ghost rv = rows_view(rows@);
        proof {
            assert(rv[i as int] == rows@[i as int]@);
            lemma_fold_rows_distinct(rv.take(i as int));
        }
        match find_entity(&accum, row.id) {
            Some(j) => {
                match (row.label_id, &row.label_name) {
                    (Some(lid), Some(lname)) => {
                        let mut e = accum.remove(j);
                        e.labels.push(Label { id: lid, name: lname.clone() });
                        let ghost e_new = e@;
                        accum.insert(j, e);
                        proof {
                            let jj = choose|jj: int|
                                0 <= jj < acc0.len() && acc0[jj].id == row@.id;
                            assert(acc0[j as int].id == row@.id);
                            assert(jj == j as int);
                            assert(e_new.labels =~= acc0[j as int].labels.push(
                                LabelView { id: lid as int, name: lname@ },
                            ));
                            assert(entities_view(accum@) =~= fold_step(acc0, row@));
                        }
                    },
                    _ => {
                        proof {
                            assert(acc0[j as int].id == row@.id);
                            assert(row@.label is None);
                            assert(entities_view(accum@) =~= fold_step(acc0, row@));
                        }
                    },
                }
            },
            None => {
                let ghost accum0 = accum@;
                let labels: Vec<Label> = match (row.label_id, &row.label_name) {
                    (Some(lid), Some(lname)) => vec![Label { id: lid, name: lname.clone() }],
                    _ => Vec::new(),
                };
                let te = TodoEntity {
                    id: row.id,
                    text: row.text.clone(),
                    completed: row.completed,
                    labels,
                };
                proof {
                    assert(te@.labels =~= entity_of_row(row@).labels);
                    assert(te@ =~= entity_of_row(row@));
                    assert forall|kk: int| 0 <= kk < acc0.len() implies (#[trigger] acc0[kk]).id
                        != row@.id by {
                        assert(acc0[kk] == accum0[kk]@);
                    }
                }
                accum.push(te);
                proof {
                    assert(entities_view(accum@) =~= acc0.push(entity_of_row(row@)));
                    assert(entities_view(accum@) =~= fold_step(acc0, row@));
                }
            },
        }
        i = i + 1;
        proof {
            assert(rv.take(i as int).drop_last() =~= rv.take(i as int - 1));
            assert(rv.take(i as int).last() == rv[i as int - 1]);
            assert(entities_view(accum@) == fold_rows(rv.take(i as int)));
        }
    }
    proof {
        assert(rows_view(rows@).take(rows@.len() as int) =~= rows_view(rows@));
    }
    accum
}

/// The compute tail of a relational point lookup: the folded entities of
/// the fetched rows hold the looked-up todo first, or the lookup missed.
pub fn first_entity(todos: Vec<TodoEntity>, id: i32) -> (r: Result<TodoEntity, RepositoryError>)
    ensures
        match r {
            Ok(e) => todos@.len() > 0 && e == todos@[0],
            Err(err) => todos@.len() == 0 && err == (RepositoryError::NotFound(id)),
        },
{
    let mut todos = todos;
    if todos.len() == 0 {
        Err(RepositoryError::NotFound(id))
    } else {
        Ok(todos.remove(0))
    }
}

/// The merged field values a partial update writes back: a present field
/// replaces the stored value, an absent one keeps it.
pub fn merge_update(
    current_text: String,
    current_completed: bool,
    text: Option<String>,
    completed: Option<bool>,
) -> (r: (String, bool))
    ensures
        r.0@ == (match text {
            Some(s) => s@,
            None => current_text@,
        }),
        r.1 == (match completed {
            Some(b) => b,
            None => current_completed,
        }),
{
    let new_text = match text {
        Some(s) => s,
        None => current_text,
    };
    let new_completed = match completed {
        Some(b) => b,
        None => current_completed,
    };
    (new_text, new_completed)
}

/// The storage-agnostic contract for todos with label support, over the
/// same backend state as the label contract.
///
/// A label identifier named in a create or update payload must exist;
/// naming a missing one fails the operation with `NotFound` carrying that
/// identifier, and nothing is mutated (a dangling association is never
/// written).
pub trait TodoRepository: Repository {
    /// Allocates a fresh identifier, persists the text uncompleted, and
    /// attaches the requested labels (duplicates collapse); returns the
    /// nested entity.
    fn create(&mut self, payload: CreateTodo) -> (r: Result<TodoEntity, RepositoryError>)
        requires
            old(self).inv(),
            old(self).db().next_todo_id < 0x7fff_ffff,
        ensures
            final(self).inv(),
            final(self).db().labels == old(self).db().labels,
            final(self).db().next_label_id == old(self).db().next_label_id,
            match r {
                Ok(e) => {
                    &&& forall|k: int|
                        0 <= k < payload.labels@.len() ==> old(self).db().labels.contains_key(
                            #[trigger] payload.labels@[k] as int,
                        )
                    &&& e@.id == old(self).db().next_todo_id
                    &&& !old(self).db().todos.contains_key(e@.id)
                    &&& final(self).db().next_todo_id == old(self).db().next_todo_id + 1
                    &&& final(self).db().todos.contains_key(e@.id)
                    &&& final(self).db().todos[e@.id].text == payload.text@
                    &&& final(self).db().todos[e@.id].completed == false
                    &&& id_set_of(final(self).db().todos[e@.id].label_ids, ids_of(payload.labels@))
                    &&& final(self).db().todos.remove(e@.id) == old(self).db().todos
                    &&& entity_matches(final(self).db(), e@.id, e@)
                },
                Err(err) => {
                    &&& final(self).db() == old(self).db()
                    &&& exists|k: int|
                        0 <= k < payload.labels@.len() && !old(self).db().labels.contains_key(
                            #[trigger] payload.labels@[k] as int,
                        ) && err == (RepositoryError::NotFound(payload.labels@[k]))
                },
            },
    ;

    /// Point lookup of the nested entity; `NotFound` exactly when the
    /// identifier is not stored.
    fn find(&self, id: i32) -> (r: Result<TodoEntity, RepositoryError>)
        requires
            self.inv(),
        ensures
            match r {
                Ok(e) => entity_matches(self.db(), id as int, e@),
                Err(err) => !self.db().todos.contains_key(id as int) && err
                    == (RepositoryError::NotFound(id)),
            },
    ;

    /// Every stored todo as a nested entity, exactly once, ordered by
    /// identifier descending (most recent first).
    fn all(&self) -> (r: Result<Vec<TodoEntity>, RepositoryError>)
        requires
            self.inv(),
        ensures
            r is Ok,
            forall|k: int, l: int|
                0 <= k < l < r->Ok_0@.len() ==> r->Ok_0@[k]@.id > r->Ok_0@[l]@.id,
            forall|k: int|
                0 <= k < r->Ok_0@.len() ==> entity_matches(
                    self.db(),
                    (#[trigger] r->Ok_0@[k])@.id,
                    r->Ok_0@[k]@,
                ),
            forall|key: int|
                self.db().todos.contains_key(key) ==> exists|k: int|
                    0 <= k < r->Ok_0@.len() && (#[trigger] r->Ok_0@[k])@.id == key,
    ;

    /// Partial update: present fields replace the stored values, absent
    /// fields keep them; a present label list (even empty) replaces the
    /// whole association set. Fails with `NotFound`, mutating nothing,
    /// when the todo — or a named label — does not exist.
    fn update(&mut self, id: i32, payload: UpdateTodo) -> (r: Result<TodoEntity, RepositoryError>)
        requires
            old(self).inv(),
        ensures
            final(self).inv(),
            final(self).db().labels == old(self).db().labels,
            final(self).db().next_todo_id == old(self).db().next_todo_id,
            final(self).db().next_label_id == old(self).db().next_label_id,
            match r {
                Ok(e) => {
                    &&& old(self).db().todos.contains_key(id as int)
                    &&& e@.id == id as int
                    &&& final(self).db().todos == old(self).db().todos.insert(
                        id as int,
                        final(self).db().todos[id as int],
                    )
                    &&& final(self).db().todos[id as int].text == (match payload.text {
                        Some(s) => s@,
                        None => old(self).db().todos[id as int].text,
                    })
                    &&& final(self).db().todos[id as int].completed == (match payload.completed {
                        Some(b) => b,
                        None => old(self).db().todos[id as int].completed,
                    })
                    &&& (match payload.labels {
                        Some(ls) => id_set_of(
                            final(self).db().todos[id as int].label_ids,
                            ids_of(ls@),
                        ),
                        None => final(self).db().todos[id as int].label_ids == old(self).db().todos[id as int].label_ids,
                    })
                    &&& entity_matches(final(self).db(), id as int, e@)
                },
                Err(err) => {
                    &&& final(self).db() == old(self).db()
                    &&& (err == (RepositoryError::NotFound(id)) && !old(self).db().todos.contains_key(id as int) || (match payload.labels {
                        Some(ls) => old(self).db().todos.contains_key(id as int) && exists|k: int|
                            0 <= k < ls@.len() && !old(self).db().labels.contains_key(
                                #[trigger] ls@[k] as int,
                            ) && err == (RepositoryError::NotFound(ls@[k])),
                        None => false,
                    }))
                },
            },
    ;

    /// Removes the todo and its associations as one unit. Fails with
    /// `NotFound`, mutating nothing, when the identifier is not stored.
    fn delete(&mut self, id: i32) -> (r: Result<(), RepositoryError>)
        requires
            old(self).inv(),
        ensures
            final(self).inv(),
            final(self).db().labels == old(self).db().labels,
            final(self).db().next_todo_id == old(self).db().next_todo_id,
            final(self).db().next_label_id == old(self).db().next_label_id,
            match r {
                Ok(_) => old(self).db().todos.contains_key(id as int) && final(self).db().todos
                    == old(self).db().todos.remove(id as int),
                Err(e) => !old(self).db().todos.contains_key(id as int) && e
                    == (RepositoryError::NotFound(id)) && final(self).db() == old(self).db(),
            },
    ;
}

} // verus!
