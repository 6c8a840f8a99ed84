use todo_api::memory::CreateTodo;
use todo_api::memory::Todo;
use todo_api::memory::TodoRepository;
use todo_api::memory::TodoRepositoryForMemory;
use todo_api::memory::UpdateTodo;

#[test]
fn todo_crud_scerario() {
    let text = "todo text".to_string();
    let id: i32 = 1;
    let expected = Todo::new(id, text.clone());

    let mut repository = TodoRepositoryForMemory::new();
    let todo = repository.create(CreateTodo { text });
    assert_eq!(expected, todo);

    let todo = repository.find(todo.id).unwrap();
    assert_eq!(expected, todo);

    let todo = repository.all();
    assert_eq!(vec![expected], todo);

    let text = "update todo text".to_string();
    let todo = repository
        .update(
            1,
            UpdateTodo {
                text: Some(text.clone()),
                completed: Some(true),
            },
        )
        .expect("failed update todo");

    assert_eq!(
        Todo {
            id,
            text,
            completed: true,
        },
        todo
    );

    let res = repository.delete(id);
    assert!(res.is_ok());
}

#[test]
fn sequential_creates_observe_unique_ids() {
    let mut repository = TodoRepositoryForMemory::new();
    let mut seen: Vec<i32> = Vec::new();
    let n: usize = 20;
    for k in 0..n {
        let todo = repository.create(CreateTodo {
            text: format!("todo {}", k),
        });
        assert!(!seen.contains(&todo.id));
        seen.push(todo.id);
    }
    // the assignment rule is a counter starting at 1: no gaps either
    for k in 0..n {
        assert_eq!(seen[k], (k + 1) as i32);
    }
}

#[test]
fn deleted_identifier_is_never_reused() {
    let mut repository = TodoRepositoryForMemory::new();
    let first = repository.create(CreateTodo {
        text: "one".to_string(),
    });
    assert_eq!(first.id, 1);
    repository.delete(first.id).unwrap();
    let second = repository.create(CreateTodo {
        text: "two".to_string(),
    });
    assert_eq!(second.id, 2);
}

#[test]
fn update_missing_todo_mutates_nothing() {
    let mut repository = TodoRepositoryForMemory::new();
    let kept = repository.create(CreateTodo {
        text: "kept".to_string(),
    });
    let res = repository.update(
        42,
        UpdateTodo {
            text: Some("lost".to_string()),
            completed: None,
        },
    );
    assert_eq!(res, Err(todo_api::errors::RepositoryError::NotFound(42)));
    assert_eq!(repository.all(), vec![kept]);
}

#[test]
fn delete_missing_todo_reports_not_found() {
    let mut repository = TodoRepositoryForMemory::new();
    let res = repository.delete(7);
    assert_eq!(res, Err(todo_api::errors::RepositoryError::NotFound(7)));
}

#[test]
fn all_is_ordered_descending() {
    let mut repository = TodoRepositoryForMemory::new();
    for k in 0..5 {
        repository.create(CreateTodo {
            text: format!("todo {}", k),
        });
    }
    let listed = repository.all();
    let ids: Vec<i32> = listed.iter().map(|t| t.id).collect();
    assert_eq!(ids, vec![5, 4, 3, 2, 1]);
}
