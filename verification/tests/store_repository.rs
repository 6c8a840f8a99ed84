use todo_api::errors::RepositoryError;
use todo_api::label::Label;
use todo_api::label::LabelRepository;
use todo_api::store::RepositoryForMemory;
use todo_api::todo::CreateTodo;
use todo_api::todo::TodoRepository;
use todo_api::todo::UpdateTodo;

fn with_two_labels() -> (RepositoryForMemory, Label, Label) {
    let mut db = RepositoryForMemory::new();
    let urgent = LabelRepository::create(&mut db, "urgent".to_string()).unwrap();
    let home = LabelRepository::create(&mut db, "home".to_string()).unwrap();
    (db, urgent, home)
}

#[test]
fn create_then_find_reflects_the_input() {
    let (mut db, urgent, home) = with_two_labels();
    let created = TodoRepository::create(
        &mut db,
        CreateTodo {
            text: "write tests".to_string(),
            labels: vec![home.id, urgent.id, urgent.id],
        },
    )
    .unwrap();
    let found = db.find(created.id).unwrap();
    assert_eq!(found, created);
    assert_eq!(found.text, "write tests");
    assert!(!found.completed);
    // duplicates collapse; order is ascending by label identifier
    assert_eq!(found.labels, vec![urgent.clone(), home.clone()]);
    assert_eq!(urgent.id, 1);
    assert_eq!(home.id, 2);
}

#[test]
fn create_with_missing_label_is_rejected() {
    let (mut db, _urgent, _home) = with_two_labels();
    let res = TodoRepository::create(
        &mut db,
        CreateTodo {
            text: "dangling".to_string(),
            labels: vec![99],
        },
    );
    assert_eq!(res, Err(RepositoryError::NotFound(99)));
    let listed = TodoRepository::all(&db).unwrap();
    assert!(listed.is_empty());
}

#[test]
fn all_orders_todos_descending_and_labels_ascending() {
    let (mut db, _urgent, _home) = with_two_labels();
    for k in 0..4 {
        TodoRepository::create(
            &mut db,
            CreateTodo {
                text: format!("todo {}", k),
                labels: vec![],
            },
        )
        .unwrap();
    }
    let todos = TodoRepository::all(&db).unwrap();
    let ids: Vec<i32> = todos.iter().map(|e| e.id).collect();
    assert_eq!(ids, vec![4, 3, 2, 1]);

    let labels = LabelRepository::all(&db).unwrap();
    let label_ids: Vec<i32> = labels.iter().map(|l| l.id).collect();
    assert_eq!(label_ids, vec![1, 2]);
}

#[test]
fn update_completed_only_keeps_text_and_labels() {
    let (mut db, urgent, home) = with_two_labels();
    let created = TodoRepository::create(
        &mut db,
        CreateTodo {
            text: "stable".to_string(),
            labels: vec![urgent.id, home.id],
        },
    )
    .unwrap();
    let updated = db
        .update(
            created.id,
            UpdateTodo {
                text: None,
                completed: Some(true),
                labels: None,
            },
        )
        .unwrap();
    assert_eq!(updated.text, created.text);
    assert_eq!(updated.labels, created.labels);
    assert!(updated.completed);
}

#[test]
fn update_missing_todo_fails_and_mutates_nothing() {
    let (mut db, _urgent, _home) = with_two_labels();
    let res = db.update(
        5,
        UpdateTodo {
            text: Some("ghost".to_string()),
            completed: None,
            labels: None,
        },
    );
    assert_eq!(res, Err(RepositoryError::NotFound(5)));
    assert!(TodoRepository::all(&db).unwrap().is_empty());
}

#[test]
fn update_with_empty_labels_clears_associations() {
    let (mut db, urgent, _home) = with_two_labels();
    let created = TodoRepository::create(
        &mut db,
        CreateTodo {
            text: "tagged".to_string(),
            labels: vec![urgent.id],
        },
    )
    .unwrap();
    let cleared = db
        .update(
            created.id,
            UpdateTodo {
                text: None,
                completed: None,
                labels: Some(vec![]),
            },
        )
        .unwrap();
    assert!(cleared.labels.is_empty());
    assert_eq!(cleared.text, created.text);
}

#[test]
fn update_with_no_fields_returns_identical_entity() {
    let (mut db, urgent, _home) = with_two_labels();
    let created = TodoRepository::create(
        &mut db,
        CreateTodo {
            text: "as is".to_string(),
            labels: vec![urgent.id],
        },
    )
    .unwrap();
    let unchanged = db
        .update(
            created.id,
            UpdateTodo {
                text: None,
                completed: None,
                labels: None,
            },
        )
        .unwrap();
    assert_eq!(unchanged, created);
}

#[test]
fn delete_then_find_reports_not_found() {
    let (mut db, _urgent, _home) = with_two_labels();
    let created = TodoRepository::create(
        &mut db,
        CreateTodo {
            text: "short lived".to_string(),
            labels: vec![],
        },
    )
    .unwrap();
    TodoRepository::delete(&mut db, created.id).unwrap();
    let res = db.find(created.id);
    assert_eq!(res, Err(RepositoryError::NotFound(created.id)));
}

#[test]
fn deleting_attached_label_detaches_it_but_keeps_the_todo() {
    let (mut db, urgent, home) = with_two_labels();
    let created = TodoRepository::create(
        &mut db,
        CreateTodo {
            text: "keeps going".to_string(),
            labels: vec![urgent.id, home.id],
        },
    )
    .unwrap();
    LabelRepository::delete(&mut db, urgent.id).unwrap();
    let found = db.find(created.id).unwrap();
    assert_eq!(found.text, "keeps going");
    assert!(!found.completed);
    assert_eq!(found.labels, vec![home]);
}

#[test]
fn duplicate_label_yields_one_success_and_one_conflict() {
    let mut db = RepositoryForMemory::new();
    let first = LabelRepository::create(&mut db, "x".to_string()).unwrap();
    let second = LabelRepository::create(&mut db, "x".to_string());
    assert_eq!(second, Err(RepositoryError::Duplicate(first.id)));
    let listed = LabelRepository::all(&db).unwrap();
    let names: Vec<&str> = listed.iter().map(|l| l.name.as_str()).collect();
    assert_eq!(names, vec!["x"]);
}

#[test]
fn deleting_missing_label_reports_not_found() {
    let mut db = RepositoryForMemory::new();
    let res = LabelRepository::delete(&mut db, 3);
    assert_eq!(res, Err(RepositoryError::NotFound(3)));
}
