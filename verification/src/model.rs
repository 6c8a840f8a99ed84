use vstd::prelude::*;

verus! {

/// Mathematical content of a stored todo row: no labels attached.
#[verifier::ext_equal]
pub struct TodoView {
    pub id: int,
    pub text: Seq<char>,
    pub completed: bool,
}

/// Mathematical content of a label row.
#[verifier::ext_equal]
pub struct LabelView {
    pub id: int,
    pub name: Seq<char>,
}

/// Mathematical content of a nested todo: the row plus its labels,
/// in ascending label-id order.
#[verifier::ext_equal]
pub struct EntityView {
    pub id: int,
    pub text: Seq<char>,
    pub completed: bool,
    pub labels: Seq<LabelView>,
}

/// One flat row of the left outer join of todos, associations and labels.
/// A todo with no labels yields a single row whose label part is absent.
#[verifier::ext_equal]
pub struct RowView {
    pub id: int,
    pub text: Seq<char>,
    pub completed: bool,
    pub label: Option<LabelView>,
}

/// Mathematical content of a stored todo in the labelled store: its own
/// fields plus the identifiers of the labels attached to it, ascending.
#[verifier::ext_equal]
pub struct TodoModel {
    pub text: Seq<char>,
    pub completed: bool,
    pub label_ids: Seq<int>,
}

/// The whole state a labelled backend exposes: both tables, keyed by
/// identifier, and the identifiers the next created rows will receive.
/// The association table is folded into each todo's `label_ids`.
#[verifier::ext_equal]
pub struct DbView {
    pub todos: Map<int, TodoModel>,
    pub labels: Map<int, Seq<char>>,
    pub next_todo_id: int,
    pub next_label_id: int,
}

/// Identifiers in strictly ascending order (hence without duplicates).
pub open spec fn ascending_ids(s: Seq<int>) -> bool {
    forall|i: int, j: int| 0 <= i < j < s.len() ==> s[i] < s[j]
}

/// `s` lists exactly the identifiers occurring in `xs`, ascending:
/// the order-insensitive, duplicate-insensitive reading of a request.
pub open spec fn id_set_of(s: Seq<int>, xs: Seq<int>) -> bool {
    &&& ascending_ids(s)
    &&& forall|l: int| #[trigger] s.contains(l) <==> xs.contains(l)
}

/// `s2` is `s1` with one identifier taken out, ascending.
pub open spec fn ids_without(s2: Seq<int>, s1: Seq<int>, removed: int) -> bool {
    &&& ascending_ids(s2)
    &&& forall|l: int| #[trigger] s2.contains(l) <==> (s1.contains(l) && l != removed)
}

/// The one nested entity that a state determines for a stored todo:
/// the row's own fields, and one label per attached identifier, in
/// ascending identifier order, carrying the name the label table holds.
pub open spec fn entity_matches(m: DbView, id: int, e: EntityView) -> bool {
    &&& m.todos.contains_key(id)
    &&& e.id == id
    &&& e.text == m.todos[id].text
    &&& e.completed == m.todos[id].completed
    &&& e.labels.len() == m.todos[id].label_ids.len()
    &&& forall|k: int|
        0 <= k < e.labels.len() ==> (#[trigger] e.labels[k]).id == m.todos[id].label_ids[k]
            && m.labels.contains_key(m.todos[id].label_ids[k]) && e.labels[k].name
            == m.labels[m.todos[id].label_ids[k]]
}

/// Well-formedness of a labelled state: attached label identifiers are
/// ascending and never dangling, identifiers stay below the counters,
/// and no two labels share a name.
pub open spec fn db_wf(m: DbView) -> bool {
    &&& forall|t: int| #[trigger] m.todos.contains_key(t) ==> ascending_ids(m.todos[t].label_ids)
    &&& forall|t: int, k: int|
        m.todos.contains_key(t) && 0 <= k < m.todos[t].label_ids.len() ==> m.labels.contains_key(
            #[trigger] m.todos[t].label_ids[k],
        )
    &&& forall|t: int| #[trigger] m.todos.contains_key(t) ==> t < m.next_todo_id
    &&& forall|l: int| #[trigger] m.labels.contains_key(l) ==> l < m.next_label_id
    &&& forall|l1: int, l2: int|
        #![trigger m.labels[l1], m.labels[l2]]
        m.labels.contains_key(l1) && m.labels.contains_key(l2) && l1 != l2 ==> m.labels[l1]
            != m.labels[l2]
}

/// What the labelled repository traits have in common: a backend exposes
/// its whole stored state as one `DbView`, plus an internal invariant
/// strong enough to give `db_wf`.
pub trait Repository: Sized {
    /// The state the backend currently holds.
    spec fn db(&self) -> DbView;

    /// The backend's internal well-formedness.
    spec fn inv(&self) -> bool;

    /// Every well-formed backend state is a well-formed `DbView`.
    proof fn inv_implies_wf(&self)
        requires
            self.inv(),
        ensures
            db_wf(self.db()),
    ;
}

} // verus!
