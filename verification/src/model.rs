//! Routing target names.

use vstd::prelude::*;

use crate::text::same_text;

verus! {

/// The name of a routing target.
#[derive(Debug, PartialEq, Eq)]
pub struct ModelId {
    pub name: String,
}

impl View for ModelId {
    type V = Seq<char>;

    open spec fn view(&self) -> Seq<char> {
        self.name@
    }
}

impl Clone for ModelId {
    fn clone(&self) -> (copy: Self)
        ensures
            copy == *self,
    {
        ModelId { name: self.name.clone() }
    }
}

impl ModelId {
    /// The target called `name`.
    pub fn new(name: &str) -> (id: Self)
        ensures
            id@ == name@,
    {
        ModelId { name: name.to_owned() }
    }

    /// The target's name.
    pub fn as_str(&self) -> (name: &str)
        ensures
            name@ == self@,
    {
        self.name.as_str()
    }

    /// Whether both name the same target.
    pub fn same(&self, other: &ModelId) -> (r: bool)
        ensures
            r == (self@ == other@),
    {
        same_text(self.as_str(), other.as_str())
    }
}

/// The names of several targets.
pub open spec fn names_of(ids: Seq<ModelId>) -> Seq<Seq<char>> {
    ids.map_values(|id: ModelId| id@)
}

/// The name of an optional target.
pub open spec fn name_option(id: Option<ModelId>) -> Option<Seq<char>> {
    match id {
        Some(id) => Some(id@),
        None => None,
    }
}

/// The text of an optional string.
pub open spec fn text_option(text: Option<String>) -> Option<Seq<char>> {
    match text {
        Some(text) => Some(text@),
        None => None,
    }
}

/// A target is known by its name, and several targets by theirs, one by one.
pub proof fn law_targets_are_known_by_their_names(ids: Seq<ModelId>, i: int)
    requires
        0 <= i < ids.len(),
    ensures
        ids[i]@ == ids[i].name@,
        names_of(ids).len() == ids.len(),
        names_of(ids)[i] == ids[i].name@,
        name_option(Some(ids[i])) == Some(ids[i].name@),
        name_option(None) is None,
{
}

} // verus!
