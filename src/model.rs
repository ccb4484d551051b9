//! The stored entities: categories, sprints and daily entries, and the
//! flat snapshot that older versions kept them in.

use vstd::prelude::*;

verus! {

/// A tag that entries are filed under. Names are unique ignoring ASCII case.
#[derive(Clone, Debug, PartialEq, Eq)]
pub struct Category {
    pub id: String,
    pub name: String,
    pub created_at: String,
}

/// A dated work window. `end_date` is `None` for an open-ended sprint.
#[derive(Clone, Debug, PartialEq, Eq)]
pub struct Sprint {
    pub id: String,
    pub code: String,
    pub name: String,
    pub start_date: String,
    pub end_date: Option<String>,
    pub created_at: String,
}

/// One logged item on a date, in one sprint and one category.
#[derive(Clone, Debug, PartialEq, Eq)]
pub struct DailyEntry {
    pub id: String,
    pub sprint_id: String,
    pub date: String,
    pub category_id: String,
    pub title: String,
    pub details: Option<String>,
    pub created_at: String,
}

/// The flat snapshot of all three record kinds.
#[derive(Clone, Debug, Default, PartialEq, Eq)]
pub struct AppData {
    pub categories: Vec<Category>,
    pub sprints: Vec<Sprint>,
    pub entries: Vec<DailyEntry>,
}

pub fn copy_opt(o: &Option<String>) -> (r: Option<String>)
    ensures
        r == *o,
{
    match o {
        Some(s) => Some(s.clone()),
        None => None,
    }
}

impl Category {
    pub fn copied(&self) -> (r: Category)
        ensures
            r == *self,
    {
        Category { id: self.id.clone(), name: self.name.clone(), created_at: self.created_at.clone() }
    }
}

impl Sprint {
    pub fn copied(&self) -> (r: Sprint)
        ensures
            r == *self,
    {
        Sprint {
            id: self.id.clone(),
            code: self.code.clone(),
            name: self.name.clone(),
            start_date: self.start_date.clone(),
            end_date: copy_opt(&self.end_date),
            created_at: self.created_at.clone(),
        }
    }
}

impl DailyEntry {
    pub fn copied(&self) -> (r: DailyEntry)
        ensures
            r == *self,
    {
        DailyEntry {
            id: self.id.clone(),
            sprint_id: self.sprint_id.clone(),
            date: self.date.clone(),
            category_id: self.category_id.clone(),
            title: self.title.clone(),
            details: copy_opt(&self.details),
            created_at: self.created_at.clone(),
        }
    }
}

} // verus!
