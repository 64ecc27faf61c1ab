use vstd::prelude::*;
use crate::layout::ROW_SIZE;

verus! {

/// A record as the shell builds it. Each field may be missing; only a row with
/// all three fields present can be stored.
#[derive(Clone, Debug)]
pub struct Row {
    pub id: Option<u64>,
    pub username: Option<String>,
    pub email: Option<String>,
}

/// What a row holds, with its text fields as character sequences.
pub struct RowView {
    pub id: Option<u64>,
    pub username: Option<Seq<char>>,
    pub email: Option<Seq<char>>,
}

/// The characters of an optional text field.
pub open spec fn text_view(s: Option<String>) -> Option<Seq<char>> {
    match s {
        Some(t) => Some(t@),
        None => None,
    }
}

impl View for Row {
    type V = RowView;

    open spec fn view(&self) -> RowView {
        RowView { id: self.id, username: text_view(self.username), email: text_view(self.email) }
    }
}

impl RowView {
    /// All three fields are present.
    pub open spec fn is_complete(self) -> bool {
        self.id is Some && self.username is Some && self.email is Some
    }

    /// No field is present.
    pub open spec fn is_empty(self) -> bool {
        self.id is None && self.username is None && self.email is None
    }
}

impl Row {
    /// A complete row.
    pub fn new(id: u64, username: String, email: String) -> (r: Row)
        ensures
            r@ == (RowView { id: Some(id), username: Some(username@), email: Some(email@) }),
    {
        Row { id: Some(id), username: Some(username), email: Some(email) }
    }

    /// Whether no field is present.
    pub fn is_empty(&self) -> (r: bool)
        ensures
            r == self@.is_empty(),
    {
        match (&self.id, &self.username, &self.email) {
            (None, None, None) => true,
            _ => false,
        }
    }

    /// The byte offset just past a row that is stored at byte offset `a`.
    pub fn plus(&self, a: u64) -> (r: u64)
        requires
            a + ROW_SIZE <= u64::MAX,
        ensures
            r == a + ROW_SIZE,
    {
        a + ROW_SIZE as u64
    }
}

} // verus!
