use vstd::prelude::*;

verus! {

/// A payload that has passed validation on its way into the service;
/// the transport layer wraps decoded request bodies in it.
#[derive(Debug)]
pub struct ValidatedJson<T>(pub T);

/// The rule every free-text field obeys: 1 to 100 characters, so never
/// empty. Validation happens before a payload reaches a repository.
pub open spec fn text_len_ok(s: Seq<char>) -> bool {
    1 <= s.len() <= 100
}

/// Checks the length rule on one text field.
pub fn validate_text(s: &str) -> (r: bool)
    ensures
        r == text_len_ok(s@),
{
    let n = s.unicode_len();
    1 <= n && n <= 100
}

impl crate::memory::CreateTodo {
    /// The creation payload is valid when its text obeys the length rule.
    pub fn validate(&self) -> (r: bool)
        ensures
            r == text_len_ok(self.text@),
    {
        validate_text(self.text.as_str())
    }
}

impl crate::memory::UpdateTodo {
    /// The update payload is valid when its text, if present, obeys the
    /// length rule; an absent field is always valid.
    pub fn validate(&self) -> (r: bool)
        ensures
            r == (match self.text {
                Some(s) => text_len_ok(s@),
                None => true,
            }),
    {
        match &self.text {
            Some(s) => validate_text(s.as_str()),
            None => true,
        }
    }
}

impl crate::todo::CreateTodo {
    /// The creation payload is valid when its text obeys the length rule.
    pub fn validate(&self) -> (r: bool)
        ensures
            r == text_len_ok(self.text@),
    {
        validate_text(self.text.as_str())
    }
}

impl crate::todo::UpdateTodo {
    /// The update payload is valid when its text, if present, obeys the
    /// length rule; an absent field is always valid.
    pub fn validate(&self) -> (r: bool)
        ensures
            r == (match self.text {
                Some(s) => text_len_ok(s@),
                None => true,
            }),
    {
        match &self.text {
            Some(s) => validate_text(s.as_str()),
            None => true,
        }
    }
}

impl crate::label::CreateLabel {
    /// The creation payload is valid when its name obeys the length rule.
    pub fn validate(&self) -> (r: bool)
        ensures
            r == text_len_ok(self.name@),
    {
        validate_text(self.name.as_str())
    }
}

} // verus!
