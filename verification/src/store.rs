use crate::errors::RepositoryError;
use crate::kv::keys_ascending;
use crate::kv::lemma_insert_contains;
use crate::kv::lemma_keys_ascending_distinct;
use crate::kv::lemma_push_contains;
use crate::kv::lemma_remove_contains;
use crate::kv::lemma_table_map_contains;
use crate::kv::lemma_table_map_index;
use crate::kv::lemma_table_map_remove;
use crate::kv::lemma_table_map_update;
use crate::kv::table_map;
use crate::label::Label;
use crate::label::LabelRepository;
use crate::label::clone_labels;
use crate::model::DbView;
use crate::model::Repository;
use crate::model::TodoModel;
use crate::model::ascending_ids;
use crate::model::entity_matches;
use crate::todo::CreateTodo;
use crate::todo::TodoEntity;
use crate::todo::TodoRepository;
use crate::todo::UpdateTodo;
use crate::todo::ids_of;
use crate::todo::ids_of_bridge;
use vstd::prelude::*;

verus! {

/// A todo row as the labelled in-memory backend stores it: the row's own
/// fields plus the attached label identifiers, ascending and duplicate-free.
struct StoredTodo {
    id: i32,
    text: String,
    completed: bool,
    label_ids: Vec<i32>,
}

/// What the scrub pass of a label deletion does to one stored todo: all
/// fields kept, except that the removed identifier leaves `label_ids`.
spec fn label_scrubbed(new: StoredTodo, prev: StoredTodo, removed: int) -> bool {
    &&& new.id == prev.id
    &&& new.text == prev.text
    &&& new.completed == prev.completed
    &&& ascending_ids(ids_of(new.label_ids@))
    &&& forall|l: int|
        #[trigger] ids_of(new.label_ids@).contains(l) <==> (ids_of(prev.label_ids@).contains(l)
            && l != removed)
}

impl StoredTodo {
    spec fn model(&self) -> TodoModel {
        TodoModel {
            text: self.text@,
            completed: self.completed,
            label_ids: ids_of(self.label_ids@),
        }
    }
}

/// An element-wise copy of an identifier vector.
fn clone_ids(v: &Vec<i32>) -> (r: Vec<i32>)
    ensures
        r@ == v@,
{
    let mut out: Vec<i32> = Vec::new();
    let mut i: usize = 0;
    proof {
        assert(out@ =~= v@.take(0));
    }
    while i < v.len()
        invariant
            0 <= i <= v@.len(),
            out@ == v@.take(i as int),
        decreases v@.len() - i,
    {
        out.push(v[i]);
        proof {
            assert(out@ =~= v@.take(i as int + 1));
        }
        i = i + 1;
    }
    proof {
        assert(v@.take(v@.len() as int) =~= v@);
    }
    out
}

/// Inserts an identifier into an ascending vector, keeping it ascending;
/// inserting one already present changes nothing.
fn insert_sorted(v: &mut Vec<i32>, x: i32)
    requires
        ascending_ids(ids_of(old(v)@)),
    ensures
        ascending_ids(ids_of(final(v)@)),
        forall|l: int|
            #[trigger] ids_of(final(v)@).contains(l) <==> (ids_of(old(v)@).contains(l) || l
                == x as int),
{
    proof {
        ids_of_bridge(v@);
    }
    let mut i: usize = 0;
    while i < v.len()
        invariant
            *v == *old(v),
            0 <= i <= v@.len(),
            forall|j: int| 0 <= j < i ==> v@[j] < x,
        decreases v@.len() - i,
    {
        if v[i] == x {
            proof {
                assert(ids_of(v@)[i as int] == x as int);
                assert(ids_of(v@).contains(x as int));
            }
            return ;
        }
        if v[i] > x {
            let ghost prev = v@;
            v.insert(i, x);
            proof {
                ids_of_bridge(prev);
                ids_of_bridge(v@);
                assert(ids_of(v@) =~= ids_of(prev).insert(i as int, x as int));
                lemma_insert_contains(ids_of(prev), i as int, x as int);
                assert forall|p: int, q: int|
                    0 <= p < q < ids_of(v@).len() implies ids_of(v@)[p] < ids_of(v@)[q] by {
                    if p < i && q > i {
                        assert(ids_of(v@)[p] == prev[p] as int);
                        assert(ids_of(v@)[q] == prev[q - 1] as int);
                        assert(prev[p] < x);
                        assert(prev[i as int] > x);
                        if q - 1 > i {
                            assert(ids_of(prev)[i as int] < ids_of(prev)[q - 1]);
                        }
                    } else if q == i {
                        assert(ids_of(v@)[p] == prev[p] as int);
                    } else if p == i {
                        assert(ids_of(v@)[q] == prev[q - 1] as int);
                        assert(prev[i as int] > x);
                        if q - 1 > i {
                            assert(ids_of(prev)[i as int] < ids_of(prev)[q - 1]);
                        }
                    } else if q < i {
                        assert(ids_of(v@)[p] == prev[p] as int);
                        assert(ids_of(v@)[q] == prev[q] as int);
                        assert(ids_of(prev)[p] < ids_of(prev)[q]);
                    } else {
                        assert(ids_of(v@)[p] == prev[p - 1] as int);
                        assert(ids_of(v@)[q] == prev[q - 1] as int);
                        assert(ids_of(prev)[p - 1] < ids_of(prev)[q - 1]);
                    }
                }
            }
            return ;
        }
        i = i + 1;
    }
    let ghost prev = v@;
    v.push(x);
    proof {
        ids_of_bridge(prev);
        ids_of_bridge(v@);
        assert(ids_of(v@) =~= ids_of(prev).push(x as int));
        lemma_push_contains(ids_of(prev), x as int);
        assert forall|p: int, q: int|
            0 <= p < q < ids_of(v@).len() implies ids_of(v@)[p] < ids_of(v@)[q] by {
            if q < prev.len() {
                assert(ids_of(prev)[p] < ids_of(prev)[q]);
            } else {
                assert(ids_of(v@)[p] == prev[p] as int);
                assert(prev[p] < x);
            }
        }
    }
}

/// The identifiers of a request, ascending and duplicate-free: the same
/// set, read in a canonical order.
fn normalize_ids(xs: &Vec<i32>) -> (r: Vec<i32>)
    ensures
        ascending_ids(ids_of(r@)),
        forall|l: int| #[trigger] ids_of(r@).contains(l) <==> ids_of(xs@).contains(l),
{
    let mut out: Vec<i32> = Vec::new();
    let mut k: usize = 0;
    proof {
        assert(ids_of(out@) =~= Seq::<int>::empty());
        assert(ids_of(xs@.take(0)) =~= Seq::<int>::empty());
    }
    while k < xs.len()
        invariant
            0 <= k <= xs@.len(),
            ascending_ids(ids_of(out@)),
            forall|l: int|
                #[trigger] ids_of(out@).contains(l) <==> ids_of(xs@.take(k as int)).contains(l),
        decreases xs@.len() - k,
    {
        insert_sorted(&mut out, xs[k]);
        proof {
            ids_of_bridge(xs@);
            ids_of_bridge(xs@.take(k as int));
            ids_of_bridge(xs@.take(k as int + 1));
            assert(ids_of(xs@.take(k as int + 1)) =~= ids_of(xs@.take(k as int)).push(
                xs@[k as int] as int,
            ));
            lemma_push_contains(ids_of(xs@.take(k as int)), xs@[k as int] as int);
        }
        k = k + 1;
    }
    proof {
        assert(xs@.take(xs@.len() as int) =~= xs@);
    }
    out
}

/// Removes an identifier from an ascending vector, keeping it ascending;
/// removing one not present changes nothing.
fn remove_id(v: &mut Vec<i32>, x: i32)
    requires
        ascending_ids(ids_of(old(v)@)),
    ensures
        ascending_ids(ids_of(final(v)@)),
        forall|l: int|
            #[trigger] ids_of(final(v)@).contains(l) <==> (ids_of(old(v)@).contains(l) && l
                != x as int),
{
    proof {
        ids_of_bridge(v@);
    }
    let mut i: usize = 0;
    while i < v.len()
        invariant
            *v == *old(v),
            0 <= i <= v@.len(),
            forall|j: int| 0 <= j < i ==> v@[j] != x,
        decreases v@.len() - i,
    {
        if v[i] == x {
            let ghost prev = v@;
            v.remove(i);
            proof {
                ids_of_bridge(prev);
                ids_of_bridge(v@);
                assert(ids_of(v@) =~= ids_of(prev).remove(i as int));
                lemma_remove_contains(ids_of(prev), i as int);
                assert forall|p: int, q: int|
                    0 <= p < q < ids_of(v@).len() implies ids_of(v@)[p] < ids_of(v@)[q] by {
                    if q < i {
                        assert(ids_of(prev)[p] < ids_of(prev)[q]);
                    } else if p < i {
                        assert(ids_of(prev)[p] < ids_of(prev)[q + 1]);
                    } else {
                        assert(ids_of(prev)[p + 1] < ids_of(prev)[q + 1]);
                    }
                }
            }
            return ;
        }
        i = i + 1;
    }
    proof {
        assert forall|l: int| #[trigger] ids_of(v@).contains(l) implies (ids_of(v@).contains(l)
            && l != x as int) by {
            if l == x as int {
                let n = choose|n: int| 0 <= n < ids_of(v@).len() && ids_of(v@)[n] == l;
                assert(v@[n] == x);
            }
        }
    }
}

/// The labelled in-memory backend: both tables as vectors in ascending
/// identifier order, plus monotonic counters for the next identifiers.
/// It satisfies the same contracts as a relational backend, with every
/// multi-row write applied in one exclusive step.
pub struct RepositoryForMemory {
    todos: Vec<StoredTodo>,
    labels: Vec<Label>,
    next_todo: i32,
    next_label: i32,
}

impl RepositoryForMemory {
    /// The stored todos as (identifier, content) pairs, in storage order.
    pub closed spec fn todo_pairs(&self) -> Seq<(int, TodoModel)> {
        self.todos@.map_values(|t: StoredTodo| (t.id as int, t.model()))
    }

    /// The stored labels as (identifier, name) pairs, in storage order.
    pub closed spec fn label_pairs(&self) -> Seq<(int, Seq<char>)> {
        self.labels@.map_values(|l: Label| (l.id as int, l.name@))
    }

    /// How the pair sequences read back the underlying vectors.
    proof fn bridges(&self)
        ensures
            self.todo_pairs().len() == self.todos@.len(),
            forall|j: int|
                0 <= j < self.todos@.len() ==> #[trigger] self.todo_pairs()[j] == (
                    self.todos@[j].id as int,
                    self.todos@[j].model(),
                ),
            self.label_pairs().len() == self.labels@.len(),
            forall|j: int|
                0 <= j < self.labels@.len() ==> #[trigger] self.label_pairs()[j] == (
                    self.labels@[j].id as int,
                    self.labels@[j].name@,
                ),
    {
    }

    /// An empty store; the first created row of each table receives
    /// identifier 1.
    pub fn new() -> (r: RepositoryForMemory)
        ensures
            r.inv(),
            r.db().todos == Map::<int, TodoModel>::empty(),
            r.db().labels == Map::<int, Seq<char>>::empty(),
            r.db().next_todo_id == 1,
            r.db().next_label_id == 1,
    {
        let r = RepositoryForMemory {
            todos: Vec::new(),
            labels: Vec::new(),
            next_todo: 1,
            next_label: 1,
        };
        proof {
            assert(r.todo_pairs() =~= Seq::<(int, TodoModel)>::empty());
            assert(r.label_pairs() =~= Seq::<(int, Seq<char>)>::empty());
        }
        r
    }

    /// Whether a label with this identifier is stored.
    fn contains_label(&self, lid: i32) -> (b: bool)
        requires
            self.inv(),
        ensures
            b == self.db().labels.contains_key(lid as int),
    {
        let mut i: usize = 0;
        while i < self.labels.len()
            invariant
                0 <= i <= self.labels@.len(),
                forall|j: int| 0 <= j < i ==> (#[trigger] self.labels@[j]).id != lid,
            decreases self.labels@.len() - i,
        {
            if self.labels[i].id == lid {
                proof {
                    self.bridges();
                    lemma_keys_ascending_distinct(self.label_pairs());
                    lemma_table_map_index(self.label_pairs(), i as int);
                }
                return true;
            }
            i = i + 1;
        }
        proof {
            self.bridges();
            lemma_table_map_contains(self.label_pairs(), lid as int);
        }
        false
    }

    /// The stored label with this identifier; the caller knows it exists.
    fn find_label(&self, lid: i32) -> (l: Label)
        requires
            self.inv(),
            self.db().labels.contains_key(lid as int),
        ensures
            l@.id == lid as int,
            l@.name == self.db().labels[lid as int],
    {
        let mut i: usize = 0;
        while i < self.labels.len()
            invariant
                0 <= i <= self.labels@.len(),
                forall|j: int| 0 <= j < i ==> (#[trigger] self.labels@[j]).id != lid,
            decreases self.labels@.len() - i,
        {
            if self.labels[i].id == lid {
                proof {
                    self.bridges();
                    lemma_keys_ascending_distinct(self.label_pairs());
                    lemma_table_map_index(self.label_pairs(), i as int);
                }
                return self.labels[i].clone();
            }
            i = i + 1;
        }
        proof {
            self.bridges();
            lemma_table_map_contains(self.label_pairs(), lid as int);
        }
        vstd::pervasive::unreached()
    }

    /// The first requested label identifier that is not stored, if any.
    fn missing_label(&self, ids: &Vec<i32>) -> (r: Option<i32>)
        requires
            self.inv(),
        ensures
            match r {
                Some(lid) => exists|k: int|
                    0 <= k < ids@.len() && #[trigger] ids@[k] == lid
                        && !self.db().labels.contains_key(lid as int),
                None => forall|k: int|
                    0 <= k < ids@.len() ==> self.db().labels.contains_key(
                        (#[trigger] ids@[k]) as int,
                    ),
            },
    {
        let mut k: usize = 0;
        while k < ids.len()
            invariant
                0 <= k <= ids@.len(),
                forall|j: int|
                    0 <= j < k ==> self.db().labels.contains_key((#[trigger] ids@[j]) as int),
            decreases ids@.len() - k,
        {
            if !self.contains_label(ids[k]) {
                return Some(ids[k]);
            }
            k = k + 1;
        }
        None
    }

    /// The nested entity of the stored todo at a position.
    fn entity_for(&self, i: usize) -> (e: TodoEntity)
        requires
            self.inv(),
            i < self.todos@.len(),
        ensures
            e@.id == self.todos@[i as int].id as int,
            entity_matches(self.db(), self.todos@[i as int].id as int, e@),
    {
        proof {
            self.bridges();
            lemma_keys_ascending_distinct(self.todo_pairs());
            lemma_table_map_index(self.todo_pairs(), i as int);
            ids_of_bridge(self.todos@[i as int].label_ids@);
        }
        let t = &self.todos[i];
        let mut ls: Vec<Label> = Vec::new();
        let mut k: usize = 0;
        while k < t.label_ids.len()
            invariant
                0 <= k <= t.label_ids@.len(),
                ls@.len() == k,
                forall|kk: int|
                    0 <= kk < k ==> (#[trigger] ls@[kk])@.id == t.label_ids@[kk] as int
                        && self.db().labels.contains_key(t.label_ids@[kk] as int) && ls@[kk]@.name
                        == self.db().labels[t.label_ids@[kk] as int],
            decreases t.label_ids@.len() - k,
        {
            let lab = self.find_label(t.label_ids[k]);
            ls.push(lab);
            k = k + 1;
        }
        let e = TodoEntity { id: t.id, text: t.text.clone(), completed: t.completed, labels: ls };
        proof {
            assert(self.db().todos[t.id as int] == t.model());
            assert(e@.labels.len() == t.model().label_ids.len());
            assert forall|kk: int| 0 <= kk < e@.labels.len() implies (#[trigger] e@.labels[kk]).id
                == t.model().label_ids[kk] && self.db().labels.contains_key(
                t.model().label_ids[kk],
            ) && e@.labels[kk].name == self.db().labels[t.model().label_ids[kk]] by {
                assert(e@.labels[kk] == ls@[kk]@);
                assert(t.model().label_ids[kk] == t.label_ids@[kk] as int);
            }
        }
        e
    }
}

impl Repository for RepositoryForMemory {
    closed spec fn db(&self) -> DbView {
        DbView {
            todos: table_map(self.todo_pairs()),
            labels: table_map(self.label_pairs()),
            next_todo_id: self.next_todo as int,
            next_label_id: self.next_label as int,
        }
    }

    closed spec fn inv(&self) -> bool {
        &&& keys_ascending(self.todo_pairs())
        &&& keys_ascending(self.label_pairs())
        &&& 1 <= self.next_todo
        &&& 1 <= self.next_label
        &&& forall|i: int|
            0 <= i < self.todos@.len() ==> (#[trigger] self.todos@[i]).id < self.next_todo
        &&& forall|i: int|
            0 <= i < self.labels@.len() ==> (#[trigger] self.labels@[i]).id < self.next_label
        &&& forall|i: int|
            0 <= i < self.todos@.len() ==> ascending_ids(
                ids_of((#[trigger] self.todos@[i]).label_ids@),
            )
        &&& forall|i: int, k: int|
            0 <= i < self.todos@.len() && 0 <= k < self.todos@[i].label_ids@.len() ==> table_map(
                self.label_pairs(),
            ).contains_key((#[trigger] self.todos@[i].label_ids@[k]) as int)
        &&& forall|i: int, j: int|
            #![trigger self.labels@[i], self.labels@[j]]
            0 <= i < j < self.labels@.len() ==> self.labels@[i].name@ != self.labels@[j].name@
    }

    proof fn inv_implies_wf(&self) {
        self.bridges();
        lemma_keys_ascending_distinct(self.todo_pairs());
        lemma_keys_ascending_distinct(self.label_pairs());
        let m = self.db();
        assert forall|t: int| #[trigger] m.todos.contains_key(t) implies ascending_ids(
            m.todos[t].label_ids,
        ) && t < m.next_todo_id by {
            lemma_table_map_contains(self.todo_pairs(), t);
            let j = choose|j: int| 0 <= j < self.todo_pairs().len() && self.todo_pairs()[j].0 == t;
            lemma_table_map_index(self.todo_pairs(), j);
            ids_of_bridge(self.todos@[j].label_ids@);
        }
        assert forall|t: int, k: int|
            m.todos.contains_key(t) && 0 <= k < m.todos[t].label_ids.len() implies m.labels.contains_key(
            #[trigger] m.todos[t].label_ids[k],
        ) by {
            lemma_table_map_contains(self.todo_pairs(), t);
            let j = choose|j: int| 0 <= j < self.todo_pairs().len() && self.todo_pairs()[j].0 == t;
            lemma_table_map_index(self.todo_pairs(), j);
            ids_of_bridge(self.todos@[j].label_ids@);
            assert(m.todos[t].label_ids[k] == self.todos@[j].label_ids@[k] as int);
        }
        assert forall|l: int| #[trigger] m.labels.contains_key(l) implies l < m.next_label_id by {
            lemma_table_map_contains(self.label_pairs(), l);
            let j = choose|j: int|
                0 <= j < self.label_pairs().len() && self.label_pairs()[j].0 == l;
            lemma_table_map_index(self.label_pairs(), j);
        }
        assert forall|l1: int, l2: int|
            m.labels.contains_key(l1) && m.labels.contains_key(l2) && l1 != l2 implies #[trigger] m.labels[l1]
            != #[trigger] m.labels[l2] by {
            lemma_table_map_contains(self.label_pairs(), l1);
            lemma_table_map_contains(self.label_pairs(), l2);
            let j1 = choose|j: int|
                0 <= j < self.label_pairs().len() && self.label_pairs()[j].0 == l1;
            let j2 = choose|j: int|
                0 <= j < self.label_pairs().len() && self.label_pairs()[j].0 == l2;
            lemma_table_map_index(self.label_pairs(), j1);
            lemma_table_map_index(self.label_pairs(), j2);
        }
    }
}

impl TodoRepository for RepositoryForMemory {
    fn create(&mut self, payload: CreateTodo) -> (r: Result<TodoEntity, RepositoryError>) {
        if let Some(lid) = self.missing_label(&payload.labels) {
            return Err(RepositoryError::NotFound(lid));
        }
        let ids = normalize_ids(&payload.labels);
        let id = self.next_todo;
        let t = StoredTodo { id, text: payload.text, completed: false, label_ids: ids };
        let ghost tm = t.model();
        self.todos.push(t);
        self.next_todo = self.next_todo + 1;
        proof {
            old(self).bridges();
            self.bridges();
            assert(self.label_pairs() =~= old(self).label_pairs());
            assert(self.todo_pairs() =~= old(self).todo_pairs().push((id as int, tm)));
            assert(self.todo_pairs().drop_last() =~= old(self).todo_pairs());
            assert(self.todo_pairs().last() == (id as int, tm));
            assert(table_map(self.todo_pairs()) == table_map(old(self).todo_pairs()).insert(
                id as int,
                tm,
            ));
            lemma_table_map_contains(old(self).todo_pairs(), id as int);
            assert(!table_map(old(self).todo_pairs()).contains_key(id as int));
            assert(table_map(self.todo_pairs()).remove(id as int) =~= table_map(
                old(self).todo_pairs(),
            ));
            assert forall|p: int, q: int|
                0 <= p < q < self.todo_pairs().len() implies self.todo_pairs()[p].0
                < self.todo_pairs()[q].0 by {
                if q == self.todo_pairs().len() - 1 {
                    assert(self.todo_pairs()[p] == old(self).todo_pairs()[p]);
                    assert(old(self).todos@[p].id < old(self).next_todo);
                } else {
                    assert(old(self).todo_pairs()[p].0 < old(self).todo_pairs()[q].0);
                }
            }
            let n = self.todos@.len() - 1;
            ids_of_bridge(self.todos@[n].label_ids@);
            assert forall|k: int|
                0 <= k < self.todos@[n].label_ids@.len() implies table_map(
                self.label_pairs(),
            ).contains_key((#[trigger] self.todos@[n].label_ids@[k]) as int) by {
                let l = self.todos@[n].label_ids@[k] as int;
                assert(ids_of(self.todos@[n].label_ids@)[k] == l);
                assert(ids_of(self.todos@[n].label_ids@).contains(l));
                assert(ids_of(payload.labels@).contains(l));
                ids_of_bridge(payload.labels@);
                let kk = choose|kk: int|
                    0 <= kk < ids_of(payload.labels@).len() && ids_of(payload.labels@)[kk] == l;
                assert(old(self).db().labels.contains_key(payload.labels@[kk] as int));
            }
        }
        let e = self.entity_for(self.todos.len() - 1);
        Ok(e)
    }

    fn find(&self, id: i32) -> (r: Result<TodoEntity, RepositoryError>) {
        let mut i: usize = 0;
        while i < self.todos.len()
            invariant
                0 <= i <= self.todos@.len(),
                forall|j: int| 0 <= j < i ==> (#[trigger] self.todos@[j]).id != id,
            decreases self.todos@.len() - i,
        {
            if self.todos[i].id == id {
                let e = self.entity_for(i);
                return Ok(e);
            }
            i = i + 1;
        }
        proof {
            self.bridges();
            lemma_table_map_contains(self.todo_pairs(), id as int);
        }
        Err(RepositoryError::NotFound(id))
    }

    #[verifier::rlimit(50)]
    fn all(&self) -> (r: Result<Vec<TodoEntity>, RepositoryError>) {
        let mut out: Vec<TodoEntity> = Vec::new();
        let mut i: usize = self.todos.len();
        while i > 0
            invariant
                0 <= i <= self.todos@.len(),
                out@.len() == self.todos@.len() - i,
                forall|k: int|
                    0 <= k < out@.len() ==> (#[trigger] out@[k])@.id == self.todos@[self.todos@.len()
                        - 1 - k].id as int && entity_matches(self.db(), out@[k]@.id, out@[k]@),
            decreases i,
        {
            i = i - 1;
            let e = self.entity_for(i);
            out.push(e);
        }
        proof {
            self.bridges();
            lemma_keys_ascending_distinct(self.todo_pairs());
            let n = self.todos@.len();
            assert forall|k: int, l: int| 0 <= k < l < out@.len() implies out@[k]@.id
                > out@[l]@.id by {
                assert(out@[k]@.id == self.todos@[n - 1 - k].id as int);
                assert(out@[l]@.id == self.todos@[n - 1 - l].id as int);
                assert(self.todo_pairs()[n - 1 - l].0 < self.todo_pairs()[n - 1 - k].0);
            }
            assert forall|k: int| 0 <= k < out@.len() implies entity_matches(
                self.db(),
                (#[trigger] out@[k])@.id,
                out@[k]@,
            ) by {
                assert(out@[k]@.id == self.todos@[n - 1 - k].id as int);
            }
            assert forall|key: int| self.db().todos.contains_key(key) implies exists|k: int|
                0 <= k < out@.len() && (#[trigger] out@[k])@.id == key by {
                lemma_table_map_contains(self.todo_pairs(), key);
                let j = choose|j: int|
                    0 <= j < self.todo_pairs().len() && self.todo_pairs()[j].0 == key;
                assert(out@[n - 1 - j]@.id == key);
            }
        }
        let ghost o = out@;
        let res: Result<Vec<TodoEntity>, RepositoryError> = Ok(out);
        proof {
            assert(res->Ok_0@ == o);
            let n = self.todos@.len();
            assert forall|key: int| self.db().todos.contains_key(key) implies exists|k: int|
                0 <= k < res->Ok_0@.len() && (#[trigger] res->Ok_0@[k])@.id == key by {
                lemma_table_map_contains(self.todo_pairs(), key);
                let j = choose|j: int|
                    0 <= j < self.todo_pairs().len() && self.todo_pairs()[j].0 == key;
                assert(res->Ok_0@[n - 1 - j]@.id == key);
            }
        }
        res
    }

    fn update(&mut self, id: i32, payload: UpdateTodo) -> (r: Result<TodoEntity, RepositoryError>) {
        let mut i: usize = 0;
        while i < self.todos.len()
            invariant
                *self == *old(self),
                0 <= i <= self.todos@.len(),
                forall|j: int| 0 <= j < i ==> (#[trigger] self.todos@[j]).id != id,
            decreases self.todos@.len() - i,
        {
            if self.todos[i].id == id {
                proof {
                    old(self).bridges();
                    lemma_keys_ascending_distinct(old(self).todo_pairs());
                    lemma_table_map_index(old(self).todo_pairs(), i as int);
                }
                match &payload.labels {
                    Some(ls) => {
                        if let Some(lid) = self.missing_label(ls) {
                            return Err(RepositoryError::NotFound(lid));
                        }
                    },
                    None => {},
                }
                let text = match payload.text {
                    Some(s) => s,
                    None => self.todos[i].text.clone(),
                };
                let completed = match payload.completed {
                    Some(b) => b,
                    None => self.todos[i].completed,
                };
                let label_ids = match &payload.labels {
                    Some(ls) => normalize_ids(ls),
                    None => clone_ids(&self.todos[i].label_ids),
                };
                let nt = StoredTodo { id, text, completed, label_ids };
                let ghost nm = nt.model();
                let _prev = self.todos.remove(i);
                self.todos.insert(i, nt);
                proof {
                    self.bridges();
                    assert(self.label_pairs() =~= old(self).label_pairs());
                    assert(self.todo_pairs() =~= old(self).todo_pairs().update(
                        i as int,
                        (id as int, nm),
                    ));
                    lemma_table_map_update(old(self).todo_pairs(), i as int, nm);
                    assert(old(self).todo_pairs()[i as int].0 == id as int);
                    assert(table_map(self.todo_pairs()) == table_map(
                        old(self).todo_pairs(),
                    ).insert(id as int, nm));
                    assert(table_map(self.todo_pairs())[id as int] == nm);
                    assert forall|p: int, q: int|
                        0 <= p < q < self.todo_pairs().len() implies self.todo_pairs()[p].0
                        < self.todo_pairs()[q].0 by {
                        assert(old(self).todo_pairs()[p].0 < old(self).todo_pairs()[q].0);
                        assert(self.todo_pairs()[p].0 == old(self).todo_pairs()[p].0);
                        assert(self.todo_pairs()[q].0 == old(self).todo_pairs()[q].0);
                    }
                    ids_of_bridge(self.todos@[i as int].label_ids@);
                    assert forall|ii: int, k: int|
                        0 <= ii < self.todos@.len() && 0 <= k
                            < self.todos@[ii].label_ids@.len() implies table_map(
                        self.label_pairs(),
                    ).contains_key((#[trigger] self.todos@[ii].label_ids@[k]) as int) by {
                        if ii == i as int {
                            let l = self.todos@[ii].label_ids@[k] as int;
                            assert(ids_of(self.todos@[ii].label_ids@)[k] == l);
                            assert(ids_of(self.todos@[ii].label_ids@).contains(l));
                            match payload.labels {
                                Some(ls) => {
                                    assert(ids_of(ls@).contains(l));
                                    ids_of_bridge(ls@);
                                    let kk = choose|kk: int|
                                        0 <= kk < ids_of(ls@).len() && ids_of(ls@)[kk] == l;
                                    assert(old(self).db().labels.contains_key(ls@[kk] as int));
                                },
                                None => {
                                    assert(self.todos@[ii].label_ids@
                                        == old(self).todos@[ii].label_ids@);
                                },
                            }
                        } else {
                            assert(self.todos@[ii] == old(self).todos@[ii]);
                        }
                    }
                }
                let e = self.entity_for(i);
                return Ok(e);
            }
            i = i + 1;
        }
        proof {
            self.bridges();
            lemma_table_map_contains(self.todo_pairs(), id as int);
        }
        Err(RepositoryError::NotFound(id))
    }

    fn delete(&mut self, id: i32) -> (r: Result<(), RepositoryError>) {
        let mut i: usize = 0;
        while i < self.todos.len()
            invariant
                *self == *old(self),
                0 <= i <= self.todos@.len(),
                forall|j: int| 0 <= j < i ==> (#[trigger] self.todos@[j]).id != id,
            decreases self.todos@.len() - i,
        {
            if self.todos[i].id == id {
                proof {
                    old(self).bridges();
                    lemma_keys_ascending_distinct(old(self).todo_pairs());
                    lemma_table_map_index(old(self).todo_pairs(), i as int);
                }
                self.todos.remove(i);
                proof {
                    self.bridges();
                    assert(self.label_pairs() =~= old(self).label_pairs());
                    assert(self.todo_pairs() =~= old(self).todo_pairs().remove(i as int));
                    lemma_table_map_remove(old(self).todo_pairs(), i as int);
                    assert(old(self).todo_pairs()[i as int].0 == id as int);
                    assert forall|p: int, q: int|
                        0 <= p < q < self.todo_pairs().len() implies self.todo_pairs()[p].0
                        < self.todo_pairs()[q].0 by {
                        if q < i as int {
                            assert(old(self).todo_pairs()[p].0 < old(self).todo_pairs()[q].0);
                        } else if p < i as int {
                            assert(old(self).todo_pairs()[p].0 < old(self).todo_pairs()[q + 1].0);
                        } else {
                            assert(old(self).todo_pairs()[p + 1].0 < old(self).todo_pairs()[q
                                + 1].0);
                        }
                    }
                    assert forall|ii: int, k: int|
                        0 <= ii < self.todos@.len() && 0 <= k
                            < self.todos@[ii].label_ids@.len() implies table_map(
                        self.label_pairs(),
                    ).contains_key((#[trigger] self.todos@[ii].label_ids@[k]) as int) by {
                        if ii < i as int {
                            assert(self.todos@[ii] == old(self).todos@[ii]);
                        } else {
                            assert(self.todos@[ii] == old(self).todos@[ii + 1]);
                        }
                    }
                }
                return Ok(());
            }
            i = i + 1;
        }
        proof {
            self.bridges();
            lemma_table_map_contains(self.todo_pairs(), id as int);
        }
        Err(RepositoryError::NotFound(id))
    }
}

impl LabelRepository for RepositoryForMemory {
    fn create(&mut self, name: String) -> (r: Result<Label, RepositoryError>) {
        let mut i: usize = 0;
        while i < self.labels.len()
            invariant
                *self == *old(self),
                0 <= i <= self.labels@.len(),
                forall|j: int| 0 <= j < i ==> (#[trigger] self.labels@[j]).name@ != name@,
            decreases self.labels@.len() - i,
        {
            if self.labels[i].name == name {
                let lid = self.labels[i].id;
                proof {
                    self.bridges();
                    lemma_keys_ascending_distinct(self.label_pairs());
                    lemma_table_map_index(self.label_pairs(), i as int);
                    assert(self.db().labels.contains_key(lid as int));
                    assert(self.db().labels[lid as int] == name@);
                }
                return Err(RepositoryError::Duplicate(lid));
            }
            i = i + 1;
        }
        let label = Label { id: self.next_label, name };
        let ret = label.clone();
        self.labels.push(label);
        self.next_label = self.next_label + 1;
        proof {
            old(self).bridges();
            self.bridges();
            assert(self.todo_pairs() =~= old(self).todo_pairs());
            assert(self.label_pairs() =~= old(self).label_pairs().push((ret@.id, ret@.name)));
            assert(self.label_pairs().drop_last() =~= old(self).label_pairs());
            assert(self.label_pairs().last() == (ret@.id, ret@.name));
            assert(table_map(self.label_pairs()) == table_map(old(self).label_pairs()).insert(
                ret@.id,
                ret@.name,
            ));
            assert forall|l: int| #[trigger] old(self).db().labels.contains_key(l) implies old(
                self,
            ).db().labels[l] != name@ by {
                lemma_table_map_contains(old(self).label_pairs(), l);
                let j = choose|j: int|
                    0 <= j < old(self).label_pairs().len() && old(self).label_pairs()[j].0 == l;
                lemma_keys_ascending_distinct(old(self).label_pairs());
                lemma_table_map_index(old(self).label_pairs(), j);
                assert(old(self).labels@[j].name@ != name@);
            }
            assert forall|p: int, q: int|
                0 <= p < q < self.label_pairs().len() implies self.label_pairs()[p].0
                < self.label_pairs()[q].0 by {
                if q == self.label_pairs().len() - 1 {
                    assert(self.label_pairs()[p] == old(self).label_pairs()[p]);
                    assert(old(self).labels@[p].id < old(self).next_label);
                } else {
                    assert(old(self).label_pairs()[p].0 < old(self).label_pairs()[q].0);
                }
            }
            assert forall|p: int, q: int|
                #![trigger self.labels@[p], self.labels@[q]]
                0 <= p < q < self.labels@.len() implies self.labels@[p].name@
                != self.labels@[q].name@ by {
                if q == self.labels@.len() - 1 {
                    assert(self.labels@[p] == old(self).labels@[p]);
                    assert(old(self).labels@[p].name@ != name@);
                } else {
                    assert(self.labels@[p] == old(self).labels@[p]);
                    assert(self.labels@[q] == old(self).labels@[q]);
                }
            }
        }
        Ok(ret)
    }

    fn all(&self) -> (r: Result<Vec<Label>, RepositoryError>) {
        let out = clone_labels(&self.labels);
        let res: Result<Vec<Label>, RepositoryError> = Ok(out);
        proof {
            self.bridges();
            lemma_keys_ascending_distinct(self.label_pairs());
            assert(res->Ok_0@ == self.labels@);
            assert forall|k: int, l: int| 0 <= k < l < res->Ok_0@.len() implies res->Ok_0@[k]@.id
                < res->Ok_0@[l]@.id by {
                assert(self.label_pairs()[k].0 < self.label_pairs()[l].0);
            }
            assert forall|k: int| 0 <= k < res->Ok_0@.len() implies self.db().labels.contains_key(
                (#[trigger] res->Ok_0@[k])@.id,
            ) && res->Ok_0@[k]@.name == self.db().labels[res->Ok_0@[k]@.id] by {
                lemma_table_map_index(self.label_pairs(), k);
            }
            assert forall|key: int| self.db().labels.contains_key(key) implies exists|k: int|
                0 <= k < res->Ok_0@.len() && (#[trigger] res->Ok_0@[k])@.id == key by {
                lemma_table_map_contains(self.label_pairs(), key);
                let j = choose|j: int|
                    0 <= j < self.label_pairs().len() && self.label_pairs()[j].0 == key;
                assert(res->Ok_0@[j]@.id == key);
            }
        }
        res
    }

    #[verifier::rlimit(50)]
    fn delete(&mut self, id: i32) -> (r: Result<(), RepositoryError>) {
        let mut i: usize = 0;
        while i < self.labels.len()
            invariant
                *self == *old(self),
                0 <= i <= self.labels@.len(),
                forall|j: int| 0 <= j < i ==> (#[trigger] self.labels@[j]).id != id,
            decreases self.labels@.len() - i,
        {
            if self.labels[i].id == id {
                proof {
                    old(self).bridges();
                    lemma_keys_ascending_distinct(old(self).label_pairs());
                    lemma_table_map_index(old(self).label_pairs(), i as int);
                }
                self.labels.remove(i);
                // scrub the deleted identifier out of every stored todo
                let ghost mid = *self;
                let mut t: usize = 0;
                while t < self.todos.len()
                    invariant
                        0 <= t <= self.todos@.len(),
                        self.labels@ == mid.labels@,
                        self.next_label == mid.next_label,
                        self.next_todo == mid.next_todo,
                        self.todos@.len() == mid.todos@.len(),
                        mid.todos@ == old(self).todos@,
                        forall|j: int|
                            t <= j < self.todos@.len() ==> #[trigger] self.todos@[j]
                                == mid.todos@[j],
                        forall|j: int|
                            0 <= j < t ==> label_scrubbed(
                                #[trigger] self.todos@[j],
                                mid.todos@[j],
                                id as int,
                            ),
                    decreases self.todos@.len() - t,
                {
                    proof {
                        old(self).bridges();
                        assert(ascending_ids(ids_of(old(self).todos@[t as int].label_ids@)));
                    }
                    let mut st = self.todos.remove(t);
                    remove_id(&mut st.label_ids, id);
                    self.todos.insert(t, st);
                    t = t + 1;
                }
                proof {
                    old(self).bridges();
                    mid.bridges();
                    self.bridges();
                    lemma_keys_ascending_distinct(old(self).todo_pairs());
                    lemma_keys_ascending_distinct(old(self).label_pairs());
                    // the label table lost exactly the removed pair
                    assert(self.label_pairs() =~= old(self).label_pairs().remove(i as int));
                    lemma_table_map_remove(old(self).label_pairs(), i as int);
                    assert(old(self).label_pairs()[i as int].0 == id as int);
                    assert(table_map(self.label_pairs()) == table_map(
                        old(self).label_pairs(),
                    ).remove(id as int));
                    assert forall|p: int, q: int|
                        0 <= p < q < self.label_pairs().len() implies self.label_pairs()[p].0
                        < self.label_pairs()[q].0 by {
                        if q < i as int {
                            assert(old(self).label_pairs()[p].0 < old(self).label_pairs()[q].0);
                        } else if p < i as int {
                            assert(old(self).label_pairs()[p].0 < old(self).label_pairs()[q
                                + 1].0);
                        } else {
                            assert(old(self).label_pairs()[p + 1].0 < old(self).label_pairs()[q
                                + 1].0);
                        }
                    }
                    assert forall|p: int, q: int|
                        #![trigger self.labels@[p], self.labels@[q]]
                        0 <= p < q < self.labels@.len() implies self.labels@[p].name@
                        != self.labels@[q].name@ by {
                        if q < i as int {
                            assert(self.labels@[p] == old(self).labels@[p]);
                            assert(self.labels@[q] == old(self).labels@[q]);
                        } else if p < i as int {
                            assert(self.labels@[p] == old(self).labels@[p]);
                            assert(self.labels@[q] == old(self).labels@[q + 1]);
                        } else {
                            assert(self.labels@[p] == old(self).labels@[p + 1]);
                            assert(self.labels@[q] == old(self).labels@[q + 1]);
                        }
                    }
                    assert forall|j: int|
                        0 <= j < self.labels@.len() implies (#[trigger] self.labels@[j]).id
                        < self.next_label by {
                        if j < i as int {
                            assert(self.labels@[j] == old(self).labels@[j]);
                        } else {
                            assert(self.labels@[j] == old(self).labels@[j + 1]);
                        }
                    }
                    // todo keys are unchanged, their contents scrubbed
                    assert forall|j: int|
                        0 <= j < self.todos@.len() implies #[trigger] self.todo_pairs()[j].0
                        == old(self).todo_pairs()[j].0 by {
                        assert(label_scrubbed(self.todos@[j], mid.todos@[j], id as int));
                    }
                    assert forall|p: int, q: int|
                        0 <= p < q < self.todo_pairs().len() implies self.todo_pairs()[p].0
                        < self.todo_pairs()[q].0 by {
                        assert(old(self).todo_pairs()[p].0 < old(self).todo_pairs()[q].0);
                    }
                    lemma_keys_ascending_distinct(self.todo_pairs());
                    assert forall|j: int|
                        0 <= j < self.todos@.len() implies (#[trigger] self.todos@[j]).id
                        < self.next_todo by {
                        assert(label_scrubbed(self.todos@[j], mid.todos@[j], id as int));
                        assert(old(self).todos@[j].id < old(self).next_todo);
                    }
                    assert forall|j: int|
                        0 <= j < self.todos@.len() implies ascending_ids(
                        ids_of((#[trigger] self.todos@[j]).label_ids@),
                    ) by {
                        assert(label_scrubbed(self.todos@[j], mid.todos@[j], id as int));
                    }
                    assert forall|ii: int, k: int|
                        0 <= ii < self.todos@.len() && 0 <= k
                            < self.todos@[ii].label_ids@.len() implies table_map(
                        self.label_pairs(),
                    ).contains_key((#[trigger] self.todos@[ii].label_ids@[k]) as int) by {
                        assert(label_scrubbed(self.todos@[ii], mid.todos@[ii], id as int));
                        let l = self.todos@[ii].label_ids@[k] as int;
                        ids_of_bridge(self.todos@[ii].label_ids@);
                        assert(ids_of(self.todos@[ii].label_ids@)[k] == l);
                        assert(ids_of(self.todos@[ii].label_ids@).contains(l));
                        assert(ids_of(old(self).todos@[ii].label_ids@).contains(l) && l
                            != id as int);
                        ids_of_bridge(old(self).todos@[ii].label_ids@);
                        let kk = choose|kk: int|
                            0 <= kk < ids_of(old(self).todos@[ii].label_ids@).len() && ids_of(
                                old(self).todos@[ii].label_ids@,
                            )[kk] == l;
                        assert(table_map(old(self).label_pairs()).contains_key(
                            old(self).todos@[ii].label_ids@[kk] as int,
                        ));
                    }
                    // map-level shape of the result
                    assert forall|key: int|
                        table_map(self.todo_pairs()).contains_key(key) == table_map(
                        old(self).todo_pairs(),
                    ).contains_key(key) by {
                        lemma_table_map_contains(self.todo_pairs(), key);
                        lemma_table_map_contains(old(self).todo_pairs(), key);
                        if table_map(self.todo_pairs()).contains_key(key) {
                            let j = choose|j: int|
                                0 <= j < self.todo_pairs().len() && self.todo_pairs()[j].0 == key;
                            assert(old(self).todo_pairs()[j].0 == key);
                        }
                        if table_map(old(self).todo_pairs()).contains_key(key) {
                            let j = choose|j: int|
                                0 <= j < old(self).todo_pairs().len() && old(
                                    self,
                                ).todo_pairs()[j].0 == key;
                            assert(self.todo_pairs()[j].0 == key);
                        }
                    }
                    assert(self.db().todos.dom() =~= old(self).db().todos.dom());
                    assert forall|tk: int| #[trigger] old(self).db().todos.contains_key(
                        tk,
                    ) implies self.db().todos[tk].text == old(self).db().todos[tk].text
                        && self.db().todos[tk].completed == old(self).db().todos[tk].completed
                        && crate::model::ids_without(
                        self.db().todos[tk].label_ids,
                        old(self).db().todos[tk].label_ids,
                        id as int,
                    ) by {
                        lemma_table_map_contains(old(self).todo_pairs(), tk);
                        let j = choose|j: int|
                            0 <= j < old(self).todo_pairs().len() && old(self).todo_pairs()[j].0
                                == tk;
                        lemma_table_map_index(old(self).todo_pairs(), j);
                        lemma_table_map_index(self.todo_pairs(), j);
                        assert(label_scrubbed(self.todos@[j], mid.todos@[j], id as int));
                        assert(self.db().todos[tk] == self.todos@[j].model());
                        assert(old(self).db().todos[tk] == old(self).todos@[j].model());
                    }
                }
                return Ok(());
            }
            i = i + 1;
        }
        proof {
            self.bridges();
            lemma_table_map_contains(self.label_pairs(), id as int);
        }
        Err(RepositoryError::NotFound(id))
    }
}

} // verus!
