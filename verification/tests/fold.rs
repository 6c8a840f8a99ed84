use todo_api::label::Label;
use todo_api::todo::TodoEntity;
use todo_api::todo::TodoWithLabelFromRow;
use todo_api::todo::fold_entities;

fn row(
    id: i32,
    text: &str,
    completed: bool,
    label_id: Option<i32>,
    label_name: Option<&str>,
) -> TodoWithLabelFromRow {
    TodoWithLabelFromRow {
        id,
        text: text.to_string(),
        completed,
        label_id,
        label_name: label_name.map(|n| n.to_string()),
    }
}

#[test]
fn folds_joined_rows_into_nested_entities() {
    let rows = vec![
        row(1, "a", false, Some(10), Some("urgent")),
        row(1, "a", false, Some(11), Some("home")),
        row(2, "b", true, None, None),
    ];
    let folded = fold_entities(rows);
    assert_eq!(
        folded,
        vec![
            TodoEntity {
                id: 1,
                text: "a".to_string(),
                completed: false,
                labels: vec![
                    Label {
                        id: 10,
                        name: "urgent".to_string(),
                    },
                    Label {
                        id: 11,
                        name: "home".to_string(),
                    },
                ],
            },
            TodoEntity {
                id: 2,
                text: "b".to_string(),
                completed: true,
                labels: vec![],
            },
        ]
    );
}

#[test]
fn folds_empty_input_to_no_entities() {
    let folded = fold_entities(vec![]);
    assert!(folded.is_empty());
}

#[test]
fn fold_keeps_first_seen_order_of_todos() {
    let rows = vec![
        row(5, "later", false, None, None),
        row(3, "earlier", false, Some(1), Some("x")),
        row(5, "later", false, Some(2), Some("y")),
    ];
    let folded = fold_entities(rows);
    let ids: Vec<i32> = folded.iter().map(|e| e.id).collect();
    assert_eq!(ids, vec![5, 3]);
    assert_eq!(folded[0].labels, vec![Label { id: 2, name: "y".to_string() }]);
    assert_eq!(folded[1].labels, vec![Label { id: 1, name: "x".to_string() }]);
}
