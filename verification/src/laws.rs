use crate::model::DbView;
use crate::model::EntityView;
use crate::model::TodoModel;
use crate::model::TodoView;
use crate::model::db_wf;
use crate::model::entity_matches;
use crate::model::id_set_of;
use crate::model::ids_without;
use vstd::prelude::*;

verus! {

/// Law: an entity read back after a successful create carries the created
/// text, an unset completion flag, and exactly the requested label
/// identifiers, in ascending order. The hypotheses are what `create`
/// ensures about the new state and what `find` ensures about its result.
pub proof fn lemma_create_then_find(
    m: DbView,
    m2: DbView,
    text: Seq<char>,
    req: Seq<int>,
    e: EntityView,
)
    requires
        m2.todos.contains_key(m.next_todo_id),
        m2.todos[m.next_todo_id].text == text,
        m2.todos[m.next_todo_id].completed == false,
        id_set_of(m2.todos[m.next_todo_id].label_ids, req),
        entity_matches(m2, m.next_todo_id, e),
    ensures
        e.text == text,
        e.completed == false,
        forall|i: int, j: int| 0 <= i < j < e.labels.len() ==> e.labels[i].id < e.labels[j].id,
        forall|l: int|
            (exists|k: int| 0 <= k < e.labels.len() && (#[trigger] e.labels[k]).id == l)
                <==> req.contains(l),
{
    let lids = m2.todos[m.next_todo_id].label_ids;
    assert forall|l: int|
        (exists|k: int| 0 <= k < e.labels.len() && (#[trigger] e.labels[k]).id == l)
            <==> req.contains(l) by {
        if exists|k: int| 0 <= k < e.labels.len() && (#[trigger] e.labels[k]).id == l {
            let k = choose|k: int| 0 <= k < e.labels.len() && (#[trigger] e.labels[k]).id == l;
            assert(lids[k] == l);
            assert(lids.contains(l));
        }
        if req.contains(l) {
            assert(lids.contains(l));
            let k = choose|k: int| 0 <= k < lids.len() && lids[k] == l;
            assert(e.labels[k].id == l);
        }
    }
}

/// Law: a state determines the nested entity of a stored todo uniquely,
/// so every read of the same unchanged todo returns the same entity.
pub proof fn lemma_entity_unique(m: DbView, id: int, e1: EntityView, e2: EntityView)
    requires
        entity_matches(m, id, e1),
        entity_matches(m, id, e2),
    ensures
        e1 == e2,
{
    assert forall|k: int| 0 <= k < e1.labels.len() implies e1.labels[k] == e2.labels[k] by {
        assert(e1.labels[k].id == m.todos[id].label_ids[k]);
        assert(e2.labels[k].id == m.todos[id].label_ids[k]);
        assert(e1.labels[k].name == m.labels[m.todos[id].label_ids[k]]);
        assert(e2.labels[k].name == m.labels[m.todos[id].label_ids[k]]);
    }
    assert(e1.labels =~= e2.labels);
    assert(e1 =~= e2);
}

/// Law: a listing whose identifiers are strictly descending never shows
/// the same entity twice.
pub proof fn lemma_all_ids_unique(es: Seq<EntityView>)
    requires
        forall|k: int, l: int| 0 <= k < l < es.len() ==> es[k].id > es[l].id,
    ensures
        forall|k: int, l: int| 0 <= k < l < es.len() ==> es[k].id != es[l].id,
{
}

/// Law: an update that only sets the completion flag leaves the text and
/// the label set of its todo unchanged, and every other todo untouched.
/// The hypotheses are what `update` ensures for such a payload.
pub proof fn lemma_update_completed_only(m: DbView, m2: DbView, id: int, e: EntityView)
    requires
        m.todos.contains_key(id),
        m2.todos == m.todos.insert(id, m2.todos[id]),
        m2.todos[id].text == m.todos[id].text,
        m2.todos[id].completed == true,
        m2.todos[id].label_ids == m.todos[id].label_ids,
        entity_matches(m2, id, e),
    ensures
        e.text == m.todos[id].text,
        e.completed == true,
        e.labels.len() == m.todos[id].label_ids.len(),
        forall|k: int|
            0 <= k < e.labels.len() ==> (#[trigger] e.labels[k]).id == m.todos[id].label_ids[k],
        forall|t: int| t != id && m.todos.contains_key(t) ==> #[trigger] m2.todos[t] == m.todos[t],
        m2.todos.dom() == m.todos.dom(),
{
    assert(m2.todos.dom() =~= m.todos.dom());
}

/// Law: replacing a todo's association set by an empty request leaves it
/// with no labels at all.
pub proof fn lemma_empty_labels_clear(s: Seq<int>)
    requires
        id_set_of(s, Seq::<int>::empty()),
    ensures
        s.len() == 0,
{
    if s.len() > 0 {
        assert(s.contains(s[0]));
    }
}

/// Law: an update that carries no field at all maps the store to itself.
pub proof fn lemma_noop_update(m: Map<int, TodoModel>, id: int)
    requires
        m.contains_key(id),
    ensures
        m.insert(id, m[id]) == m,
{
    assert(m.insert(id, m[id]) =~= m);
}

/// Law: a deleted todo cannot be found afterwards.
pub proof fn lemma_delete_then_find(m: Map<int, TodoModel>, id: int)
    ensures
        !m.remove(id).contains_key(id),
{
}

/// Law: deleting a label detaches it from every todo and detaches
/// nothing else.
pub proof fn lemma_label_delete_detaches(s2: Seq<int>, s1: Seq<int>, removed: int)
    requires
        ids_without(s2, s1, removed),
    ensures
        !s2.contains(removed),
        forall|l: int| l != removed ==> (#[trigger] s2.contains(l) <==> s1.contains(l)),
{
}

/// Law: two successive creates never observe the same identifier: the
/// first identifier is already stored when the second is assigned fresh.
pub proof fn lemma_successive_creates_distinct(todos: Map<int, TodoView>, id0: int, id1: int)
    requires
        todos.contains_key(id0),
        !todos.contains_key(id1),
    ensures
        id0 != id1,
{
}

/// Law: once a label with a name is stored, the guard under which a
/// second create of the same name could succeed cannot hold.
pub proof fn lemma_duplicate_name_rejected(labels: Map<int, Seq<char>>, id: int, name: Seq<char>)
    requires
        labels.contains_key(id),
        labels[id] == name,
    ensures
        !(forall|l: int| #[trigger] labels.contains_key(l) ==> labels[l] != name),
{
}

/// Law: in a well-formed state, at most one stored label carries any
/// given name, so a listing shows a name exactly once.
pub proof fn lemma_label_names_unique(m: DbView, l1: int, l2: int)
    requires
        db_wf(m),
        m.labels.contains_key(l1),
        m.labels.contains_key(l2),
        m.labels[l1] == m.labels[l2],
    ensures
        l1 == l2,
{
}

} // verus!
