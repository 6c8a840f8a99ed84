use todo_api::errors::RepositoryError;
use todo_api::validation::ValidatedJson;
use todo_api::validation::validate_text;

#[test]
fn text_must_have_one_to_one_hundred_characters() {
    assert!(!validate_text(""));
    assert!(validate_text("a"));
    let hundred = "x".repeat(100);
    assert!(validate_text(&hundred));
    let over = "x".repeat(101);
    assert!(!validate_text(&over));
}

#[test]
fn length_counts_characters_not_bytes() {
    let hundred_multibyte = "\u{3042}".repeat(100);
    assert!(validate_text(&hundred_multibyte));
}

#[test]
fn payload_validation_follows_the_text_rule() {
    let good = todo_api::todo::CreateTodo {
        text: "fine".to_string(),
        labels: vec![],
    };
    assert!(good.validate());
    let bad = todo_api::todo::CreateTodo {
        text: "".to_string(),
        labels: vec![],
    };
    assert!(!bad.validate());
    let partial = todo_api::todo::UpdateTodo {
        text: None,
        completed: Some(true),
        labels: None,
    };
    assert!(partial.validate());
    let label = todo_api::label::CreateLabel {
        name: "tag".to_string(),
    };
    assert!(label.validate());
    let simple = todo_api::memory::CreateTodo::new("fine".to_string());
    assert!(simple.validate());
    let simple_update = todo_api::memory::UpdateTodo {
        text: Some("".to_string()),
        completed: None,
    };
    assert!(!simple_update.validate());
    let wrapped = ValidatedJson(good);
    assert_eq!(wrapped.0.text, "fine");
}

#[test]
fn error_kinds_are_distinguished() {
    let missing = RepositoryError::NotFound(4);
    assert!(missing.is_not_found());
    assert!(!RepositoryError::Duplicate(4).is_not_found());
    assert!(!RepositoryError::Unexpected("connection lost".to_string()).is_not_found());
}
