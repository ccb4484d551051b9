//! The store of categories, sprints and entries, and the operations that
//! change it while keeping references and uniqueness rules intact.

use vstd::prelude::*;
use crate::model::{Category, DailyEntry, Sprint};
use crate::codes::{code_text, highest_number, next_sprint_code};
use crate::dates::{day_number_of, is_calendar_date, window_end, window_end_text};
use crate::active::{any_in_window, is_newest, pick_active_sprint_id};
use crate::report::{generate_report, in_order, is_row_order, report_text, row_order, rows_of, selected, ReportRow};
use crate::text::{
    seq_lt, str_eq, str_lt, lemma_seq_lt_total, lemma_seq_lt_transitive, lemma_seq_lt_irreflexive, chars_eq, chars_of, decimal, is_blank, lower, lower_chars, push_all, push_decimal, slug, slug_chars, string_of, trim, trim_str};

verus! {

/// Why an operation was refused.
#[derive(Clone, Debug, PartialEq, Eq)]
pub enum StoreError {
    /// A required value is missing or malformed.
    Validation(String),
    /// A uniqueness rule would be broken.
    Conflict(String),
    /// A referenced record does not exist.
    NotFound(String),
    /// A write collided with a stored key.
    Storage(String),
    /// The legacy snapshot could not be taken in.
    Import(String),
}

impl StoreError {
    /// The human-readable text of the failure.
    pub fn message(&self) -> (r: String)
        ensures
            r == match self {
                StoreError::Validation(m) => *m,
                StoreError::Conflict(m) => *m,
                StoreError::NotFound(m) => *m,
                StoreError::Storage(m) => *m,
                StoreError::Import(m) => *m,
            },
    {
        match self {
            StoreError::Validation(m) => m.clone(),
            StoreError::Conflict(m) => m.clone(),
            StoreError::NotFound(m) => m.clone(),
            StoreError::Storage(m) => m.clone(),
            StoreError::Import(m) => m.clone(),
        }
    }
}

fn text(s: &str) -> (r: String)
    ensures
        r@ == s@,
{
    String::from_str(s)
}

/// The three tables: categories, sprints and entries.
#[derive(Clone, Debug, Default, PartialEq, Eq)]
pub struct Store {
    pub categories: Vec<Category>,
    pub sprints: Vec<Sprint>,
    pub entries: Vec<DailyEntry>,
}

impl Store {
    /// The rules the stored records keep: category ids unique and names
    /// unique ignoring ASCII case, sprint ids and codes unique, entry ids
    /// unique, and every entry filed under a stored sprint and category.
    pub open spec fn wf(&self) -> bool {
        &&& forall|i: int, j: int|
            0 <= i < j < self.categories@.len() ==> (#[trigger] self.categories@[i]).id@ != (
            #[trigger] self.categories@[j]).id@ && lower(self.categories@[i].name@) != lower(
                self.categories@[j].name@,
            )
        &&& forall|i: int, j: int|
            0 <= i < j < self.sprints@.len() ==> (#[trigger] self.sprints@[i]).id@ != (
            #[trigger] self.sprints@[j]).id@ && self.sprints@[i].code@ != self.sprints@[j].code@
        &&& forall|i: int, j: int|
            0 <= i < j < self.entries@.len() ==> (#[trigger] self.entries@[i]).id@ != (
            #[trigger] self.entries@[j]).id@
        &&& forall|i: int|
            0 <= i < self.entries@.len() ==> has_sprint(
                self.sprints@,
                (#[trigger] self.entries@[i]).sprint_id@,
            ) && has_category(self.categories@, self.entries@[i].category_id@)
    }
}

pub open spec fn has_category(cats: Seq<Category>, id: Seq<char>) -> bool {
    exists|i: int| 0 <= i < cats.len() && (#[trigger] cats[i]).id@ == id
}

pub open spec fn has_sprint(ss: Seq<Sprint>, id: Seq<char>) -> bool {
    exists|i: int| 0 <= i < ss.len() && (#[trigger] ss[i]).id@ == id
}

pub open spec fn has_entry(es: Seq<DailyEntry>, id: Seq<char>) -> bool {
    exists|i: int| 0 <= i < es.len() && (#[trigger] es[i]).id@ == id
}

/// Some category other than `excluding` has `name`, ignoring ASCII case.
pub open spec fn name_taken(cats: Seq<Category>, name: Seq<char>, excluding: Option<Seq<char>>) -> bool {
    exists|i: int|
        0 <= i < cats.len() && lower((#[trigger] cats[i]).name@) == lower(name) && excluding != Some(
            cats[i].id@,
        )
}

/// The id of a new category: `cat-<slug of name>-<stamp>`.
pub open spec fn category_id_text(name: Seq<char>, stamp: nat) -> Seq<char> {
    seq!['c', 'a', 't', '-'] + slug(name) + seq!['-'] + decimal(stamp)
}

/// `after` is `before` with every category whose id is `id` renamed to `name`.
pub open spec fn renamed(before: Seq<Category>, after: Seq<Category>, id: Seq<char>, name: Seq<char>) -> bool {
    &&& after.len() == before.len()
    &&& forall|k: int| 0 <= k < before.len() ==> renamed_one(#[trigger] before[k], after[k], id, name)
}

pub open spec fn renamed_one(before: Category, after: Category, id: Seq<char>, name: Seq<char>) -> bool {
    if before.id@ == id {
        after.name@ == name && after.id == before.id && after.created_at == before.created_at
    } else {
        after == before
    }
}

pub fn find_category(cats: &Vec<Category>, id: &str) -> (r: Option<usize>)
    ensures
        r matches Some(i) ==> i < cats@.len() && cats@[i as int].id@ == id@,
        r is None ==> !has_category(cats@, id@),
{
    let key = chars_of(id);
    let mut i: usize = 0;
    while i < cats.len()
        invariant
            i <= cats@.len(),
            key@ == id@,
            forall|k: int| 0 <= k < i ==> (#[trigger] cats@[k]).id@ != id@,
        decreases cats@.len() - i,
    {
        let c = chars_of(cats[i].id.as_str());
        if chars_eq(&c, &key) {
            return Some(i);
        }
        i = i + 1;
    }
    None
}

pub fn find_sprint(ss: &Vec<Sprint>, id: &str) -> (r: Option<usize>)
    ensures
        r matches Some(i) ==> i < ss@.len() && ss@[i as int].id@ == id@,
        r is None ==> !has_sprint(ss@, id@),
{
    let key = chars_of(id);
    let mut i: usize = 0;
    while i < ss.len()
        invariant
            i <= ss@.len(),
            key@ == id@,
            forall|k: int| 0 <= k < i ==> (#[trigger] ss@[k]).id@ != id@,
        decreases ss@.len() - i,
    {
        let c = chars_of(ss[i].id.as_str());
        if chars_eq(&c, &key) {
            return Some(i);
        }
        i = i + 1;
    }
    None
}

pub fn find_entry(es: &Vec<DailyEntry>, id: &str) -> (r: bool)
    ensures
        r == has_entry(es@, id@),
{
    let key = chars_of(id);
    let mut i: usize = 0;
    while i < es.len()
        invariant
            i <= es@.len(),
            key@ == id@,
            forall|k: int| 0 <= k < i ==> (#[trigger] es@[k]).id@ != id@,
        decreases es@.len() - i,
    {
        let c = chars_of(es[i].id.as_str());
        if chars_eq(&c, &key) {
            return true;
        }
        i = i + 1;
    }
    false
}

pub(crate) fn name_taken_exec(cats: &Vec<Category>, name: &Vec<char>, excluding: Option<&Vec<char>>) -> (r: bool)
    ensures
        r == name_taken(
            cats@,
            name@,
            match excluding {
                Some(x) => Some(x@),
                None => None,
            },
        ),
{
    let ghost ex = match excluding {
        Some(x) => Some(x@),
        None => None,
    };
    let want = lower_chars(name);
    let mut i: usize = 0;
    while i < cats.len()
        invariant
            i <= cats@.len(),
            want@ == lower(name@),
            ex == match excluding {
                Some(x) => Some(x@),
                None => None,
            },
            forall|k: int|
                0 <= k < i ==> !(lower((#[trigger] cats@[k]).name@) == lower(name@) && ex != Some(
                    cats@[k].id@,
                )),
        decreases cats@.len() - i,
    {
        let n = chars_of(cats[i].name.as_str());
        let ln = lower_chars(&n);
        if chars_eq(&ln, &want) {
            let own = chars_of(cats[i].id.as_str());
            let skip = match excluding {
                Some(x) => chars_eq(&own, x),
                None => false,
            };
            if !skip {
                return true;
            }
        }
        i = i + 1;
    }
    false
}

/// How many entries are filed under category `id`.
pub open spec fn uses(es: Seq<DailyEntry>, id: Seq<char>) -> nat
    decreases es.len(),
{
    if es.len() == 0 {
        0
    } else {
        uses(es.drop_last(), id) + if es.last().category_id@ == id {
            1nat
        } else {
            0nat
        }
    }
}

/// Category `k` is the oldest one whose id is not `id`; among equal creation
/// times the one listed first.
pub open spec fn oldest_other(cats: Seq<Category>, id: Seq<char>, k: int) -> bool {
    &&& 0 <= k < cats.len()
    &&& cats[k].id@ != id
    &&& forall|j: int|
        0 <= j < cats.len() && (#[trigger] cats[j]).id@ != id ==> seq_lt(
            cats[k].created_at@,
            cats[j].created_at@,
        ) || (cats[k].created_at@ == cats[j].created_at@ && k <= j)
}

/// The replacement that the caller names: present and not blank.
pub open spec fn named_replacement(replacement: Option<String>) -> Option<Seq<char>> {
    match replacement {
        Some(s) => if is_blank(s@) {
            None
        } else {
            Some(trim(s@))
        },
        None => None,
    }
}

/// `after` is `before` with every entry filed under `from` moved to `to`.
pub open spec fn reassigned(
    before: Seq<DailyEntry>,
    after: Seq<DailyEntry>,
    from: Seq<char>,
    to: Seq<char>,
) -> bool {
    &&& after.len() == before.len()
    &&& forall|k: int| 0 <= k < before.len() ==> moved_one(#[trigger] before[k], after[k], from, to)
}

pub open spec fn moved_one(before: DailyEntry, after: DailyEntry, from: Seq<char>, to: Seq<char>) -> bool {
    if before.category_id@ == from {
        &&& after.category_id@ == to
        &&& after.id == before.id
        &&& after.sprint_id == before.sprint_id
        &&& after.date == before.date
        &&& after.title == before.title
        &&& after.details == before.details
        &&& after.created_at == before.created_at
    } else {
        after == before
    }
}

/// The categories whose id is not `id`, in order.
pub open spec fn without_category(cats: Seq<Category>, id: Seq<char>) -> Seq<Category>
    decreases cats.len(),
{
    if cats.len() == 0 {
        cats
    } else {
        let rest = without_category(cats.drop_last(), id);
        if cats.last().id@ == id {
            rest
        } else {
            rest.push(cats.last())
        }
    }
}

/// Moving the entries of `from` to `to` leaves as many entries as before,
/// none under `from`, and adds to `to` exactly those that were under `from`.
pub proof fn lemma_reassign_counts(
    before: Seq<DailyEntry>,
    after: Seq<DailyEntry>,
    from: Seq<char>,
    to: Seq<char>,
)
    requires
        reassigned(before, after, from, to),
        from != to,
    ensures
        after.len() == before.len(),
        uses(after, from) == 0,
        uses(after, to) == uses(before, to) + uses(before, from),
    decreases before.len(),
{
    if before.len() > 0 {
        let (b, a) = (before.drop_last(), after.drop_last());
        assert forall|k: int| 0 <= k < b.len() implies moved_one(#[trigger] b[k], a[k], from, to) by {
            assert(moved_one(before[k], after[k], from, to));
        }
        lemma_reassign_counts(b, a, from, to);
        assert(moved_one(before[before.len() - 1], after[after.len() - 1], from, to));
    }
}

fn count_uses(es: &Vec<DailyEntry>, id: &Vec<char>) -> (r: usize)
    ensures
        r == uses(es@, id@),
{
    let mut n: usize = 0;
    let mut i: usize = 0;
    while i < es.len()
        invariant
            i <= es@.len(),
            n == uses(es@.subrange(0, i as int), id@),
            n <= i,
        decreases es@.len() - i,
    {
        assert(es@.subrange(0, i + 1).drop_last() =~= es@.subrange(0, i as int));
        let c = chars_of(es[i].category_id.as_str());
        if chars_eq(&c, id) {
            n = n + 1;
        }
        i = i + 1;
    }
    assert(es@.subrange(0, i as int) =~= es@);
    n
}

fn find_oldest_other(cats: &Vec<Category>, id: &Vec<char>) -> (r: Option<usize>)
    ensures
        r matches Some(k) ==> oldest_other(cats@, id@, k as int),
        r is None ==> forall|j: int| 0 <= j < cats@.len() ==> (#[trigger] cats@[j]).id@ == id@,
{
    let mut best: Option<usize> = None;
    let mut i: usize = 0;
    while i < cats.len()
        invariant
            i <= cats@.len(),
            best matches Some(k) ==> k < i && cats@[k as int].id@ != id@ && forall|j: int|
                0 <= j < i && (#[trigger] cats@[j]).id@ != id@ ==> seq_lt(
                    cats@[k as int].created_at@,
                    cats@[j].created_at@,
                ) || (cats@[k as int].created_at@ == cats@[j].created_at@ && k <= j),
            best is None ==> forall|j: int| 0 <= j < i ==> (#[trigger] cats@[j]).id@ == id@,
        decreases cats@.len() - i,
    {
        let c = chars_of(cats[i].id.as_str());
        if !chars_eq(&c, id) {
            match best {
                None => {
                    best = Some(i);
                },
                Some(k) => {
                    if str_lt(cats[i].created_at.as_str(), cats[k].created_at.as_str()) {
                        proof {
                            let (ci, ck) = (cats@[i as int].created_at@, cats@[k as int].created_at@);
                            lemma_seq_lt_irreflexive(ci);
                            assert forall|j: int|
                                0 <= j < i + 1 && (#[trigger] cats@[j]).id@ != id@ implies seq_lt(
                                    ci,
                                    cats@[j].created_at@,
                                ) || (ci == cats@[j].created_at@ && i <= j) by {
                                if j < i {
                                    let cj = cats@[j].created_at@;
                                    if seq_lt(ck, cj) {
                                        lemma_seq_lt_transitive(ci, ck, cj);
                                    }
                                }
                            }
                        }
                        best = Some(i);
                    } else {
                        proof {
                            lemma_seq_lt_total(
                                cats@[i as int].created_at@,
                                cats@[k as int].created_at@,
                            );
                        }
                    }
                },
            }
        }
        i = i + 1;
    }
    best
}

pub open spec fn has_code(ss: Seq<Sprint>, code: Seq<char>) -> bool {
    exists|i: int| 0 <= i < ss.len() && (#[trigger] ss[i]).code@ == code
}

/// The name a new sprint gets: the given one, trimmed, or else its code.
pub open spec fn sprint_display_name(name: Option<String>, code: Seq<char>) -> Seq<char> {
    match name {
        Some(n) => if is_blank(n@) {
            code
        } else {
            trim(n@)
        },
        None => code,
    }
}

/// The sprints whose id is not `id`, in order.
pub open spec fn without_sprint(ss: Seq<Sprint>, id: Seq<char>) -> Seq<Sprint>
    decreases ss.len(),
{
    if ss.len() == 0 {
        ss
    } else {
        let rest = without_sprint(ss.drop_last(), id);
        if ss.last().id@ == id {
            rest
        } else {
            rest.push(ss.last())
        }
    }
}

/// The entries that do not belong to sprint `id`, in order.
pub open spec fn without_sprint_entries(es: Seq<DailyEntry>, id: Seq<char>) -> Seq<DailyEntry>
    decreases es.len(),
{
    if es.len() == 0 {
        es
    } else {
        let rest = without_sprint_entries(es.drop_last(), id);
        if es.last().sprint_id@ == id {
            rest
        } else {
            rest.push(es.last())
        }
    }
}

/// The id of the sprint that is active on `today`, if any sprint exists.
pub open spec fn active_id(ss: Seq<Sprint>, today: Seq<char>, id: Seq<char>) -> bool {
    exists|i: int| is_newest(ss, i, today, any_in_window(ss, today)) && id == (#[trigger] ss[i]).id@
}

pub(crate) fn find_code(ss: &Vec<Sprint>, code: &String) -> (r: bool)
    ensures
        r == has_code(ss@, code@),
{
    let mut i: usize = 0;
    while i < ss.len()
        invariant
            i <= ss@.len(),
            forall|k: int| 0 <= k < i ==> (#[trigger] ss@[k]).code@ != code@,
        decreases ss@.len() - i,
    {
        if ss[i].code == *code {
            return true;
        }
        i = i + 1;
    }
    false
}

impl Store {
    /// A store with no records.
    pub fn new() -> (r: Store)
        ensures
            r.categories@.len() == 0,
            r.sprints@.len() == 0,
            r.entries@.len() == 0,
            r.wf(),
    {
        Store { categories: Vec::new(), sprints: Vec::new(), entries: Vec::new() }
    }

    /// Adds a category named `name` (trimmed). Its id is
    /// `cat-<slug>-<stamp>`, its creation time `now`.
    pub fn create_category(&mut self, name: &str, stamp: u64, now: &str) -> (r: Result<
        Category,
        StoreError,
    >)
        ensures
            is_blank(name@) ==> r matches Err(StoreError::Validation(_)),
            !is_blank(name@) && name_taken(old(self).categories@, trim(name@), None) ==> r matches Err(
                StoreError::Conflict(_),
            ),
            !is_blank(name@) && !name_taken(old(self).categories@, trim(name@), None)
                && has_category(old(self).categories@, category_id_text(trim(name@), stamp as nat))
                ==> r matches Err(StoreError::Storage(_)),
            r is Ok <==> !is_blank(name@) && !name_taken(old(self).categories@, trim(name@), None)
                && !has_category(old(self).categories@, category_id_text(trim(name@), stamp as nat)),
            r matches Ok(c) ==> {
                &&& c.name@ == trim(name@)
                &&& c.id@ == category_id_text(trim(name@), stamp as nat)
                &&& c.created_at@ == now@
                &&& final(self).categories@ == old(self).categories@.push(c)
                &&& final(self).sprints == old(self).sprints
                &&& final(self).entries == old(self).entries
            },
            r is Err ==> *final(self) == *old(self),
            old(self).wf() ==> final(self).wf(),
    {
        let t = trim_str(name);
        if t.len() == 0 {
            return Err(StoreError::Validation(text("category name is required")));
        }
        if name_taken_exec(&self.categories, &t, None) {
            return Err(StoreError::Conflict(text("category name already exists")));
        }
        let mut id = vec!['c', 'a', 't', '-'];
        let sl = slug_chars(&t);
        push_all(&mut id, &sl);
        id.push('-');
        push_decimal(&mut id, stamp);
        assert(id@ =~= category_id_text(trim(name@), stamp as nat));
        let id = string_of(&id);
        if find_category(&self.categories, id.as_str()).is_some() {
            return Err(StoreError::Storage(text("category id already exists")));
        }
        let c = Category { id, name: string_of(&t), created_at: text(now) };
        let ghost before = *self;
        self.categories.push(c.copied());
        proof {
            if before.wf() {
                let n = before.categories@.len() as int;
                assert forall|i: int, j: int| 0 <= i < j < self.categories@.len() implies (#[trigger] self.categories@[i]).id@ != (
                    #[trigger] self.categories@[j]).id@ && lower(self.categories@[i].name@) != lower(self.categories@[j].name@) by {
                    if j == n {
                        assert(self.categories@[i] == before.categories@[i]);
                    } else {
                        assert(self.categories@[i] == before.categories@[i] && self.categories@[j] == before.categories@[j]);
                    }
                }
                assert forall|i: int| 0 <= i < self.entries@.len() implies has_sprint(self.sprints@, (#[trigger] self.entries@[i]).sprint_id@)
                    && has_category(self.categories@, self.entries@[i].category_id@) by {
                    let w = choose|w: int| 0 <= w < before.categories@.len() && (#[trigger] before.categories@[w]).id@ == before.entries@[i].category_id@;
                    assert(self.categories@[w] == before.categories@[w]);
                }
            }
        }
        Ok(c)
    }

    /// Renames the category `id` (trimmed) to `name` (trimmed).
    pub fn update_category(&mut self, id: &str, name: &str) -> (r: Result<Category, StoreError>)
        ensures
            is_blank(id@) || is_blank(name@) ==> r matches Err(StoreError::Validation(_)),
            !is_blank(id@) && !is_blank(name@) && name_taken(
                old(self).categories@,
                trim(name@),
                Some(trim(id@)),
            ) ==> r matches Err(StoreError::Conflict(_)),
            !is_blank(id@) && !is_blank(name@) && !name_taken(
                old(self).categories@,
                trim(name@),
                Some(trim(id@)),
            ) && !has_category(old(self).categories@, trim(id@)) ==> r matches Err(
                StoreError::NotFound(_),
            ),
            r is Ok <==> !is_blank(id@) && !is_blank(name@) && !name_taken(
                old(self).categories@,
                trim(name@),
                Some(trim(id@)),
            ) && has_category(old(self).categories@, trim(id@)),
            r matches Ok(c) ==> {
                &&& c.id@ == trim(id@)
                &&& c.name@ == trim(name@)
                &&& exists|k: int|
                    0 <= k < old(self).categories@.len() && old(self).categories@[k].id@ == trim(id@)
                        && c == #[trigger] final(self).categories@[k]
                &&& renamed(old(self).categories@, final(self).categories@, trim(id@), trim(name@))
                &&& final(self).sprints == old(self).sprints
                &&& final(self).entries == old(self).entries
            },
            r is Err ==> *final(self) == *old(self),
            old(self).wf() ==> final(self).wf(),
    {
        let tid = trim_str(id);
        let tname = trim_str(name);
        if tid.len() == 0 {
            return Err(StoreError::Validation(text("category id is required")));
        }
        if tname.len() == 0 {
            return Err(StoreError::Validation(text("category name is required")));
        }
        if name_taken_exec(&self.categories, &tname, Some(&tid)) {
            return Err(StoreError::Conflict(text("category name already exists")));
        }
        let ghost before = self.categories@;
        let mut out: Vec<Category> = Vec::new();
        let mut found: Option<usize> = None;
        let mut i: usize = 0;
        while i < self.categories.len()
            invariant
                i <= before.len(),
                self.categories@ == before,
                out@.len() == i,
                tid@ == trim(id@),
                tname@ == trim(name@),
                found matches Some(f) ==> f < i && before[f as int].id@ == trim(id@),
                found is None ==> forall|k: int| 0 <= k < i ==> (#[trigger] before[k]).id@ != trim(id@),
                forall|k: int|
                    0 <= k < i ==> renamed_one(#[trigger] before[k], out@[k], trim(id@), trim(name@)),
            decreases before.len() - i,
        {
            let c = self.categories[i].copied();
            let cid = chars_of(c.id.as_str());
            if chars_eq(&cid, &tid) {
                out.push(Category { id: c.id, name: string_of(&tname), created_at: c.created_at });
                if found.is_none() {
                    found = Some(i);
                }
            } else {
                out.push(c);
            }
            i = i + 1;
        }
        match found {
            None => Err(StoreError::NotFound(text("category not found"))),
            Some(f) => {
                let r = out[f].copied();
                self.categories = out;
                assert(r == self.categories@[f as int]);
                proof {
                    lemma_rename_category_wf(*old(self), *self, tid@, tname@);
                }
                Ok(r)
            },
        }
    }

    /// Removes category `id` (trimmed). Entries filed under it are first moved
    /// to the named replacement, or, where none is named, to the oldest other
    /// category. The last category cannot be removed.
    pub fn delete_category(&mut self, id: &str, replacement: Option<String>) -> (r: Result<
        (),
        StoreError,
    >)
        ensures
            is_blank(id@) ==> r matches Err(StoreError::Validation(_)),
            !is_blank(id@) && old(self).categories@.len() <= 1 ==> r matches Err(
                StoreError::Validation(_),
            ),
            !is_blank(id@) && old(self).categories@.len() > 1 && !has_category(
                old(self).categories@,
                trim(id@),
            ) ==> r matches Err(StoreError::NotFound(_)),
            ({
                let tid = trim(id@);
                let cats = old(self).categories@;
                !is_blank(id@) && cats.len() > 1 && has_category(cats, tid) ==> {
                    &&& uses(old(self).entries@, tid) == 0 ==> r is Ok
                    &&& uses(old(self).entries@, tid) > 0 ==> match named_replacement(replacement) {
                        Some(to) => {
                            &&& to == tid ==> (r matches Err(StoreError::Validation(_)))
                            &&& to != tid && !has_category(cats, to) ==> (r matches Err(
                                StoreError::NotFound(_),
                            ))
                            &&& to != tid && has_category(cats, to) ==> r is Ok
                        },
                        None => {
                            &&& (exists|j: int|
                                0 <= j < cats.len() && (#[trigger] cats[j]).id@ != tid) ==> r is Ok
                            &&& !(exists|j: int|
                                0 <= j < cats.len() && (#[trigger] cats[j]).id@ != tid) ==> (r matches Err(
                                StoreError::NotFound(_),
                            ))
                        },
                    }
                }
            }),
            r is Ok ==> {
                let tid = trim(id@);
                &&& !is_blank(id@)
                &&& has_category(old(self).categories@, tid)
                &&& final(self).categories@ == without_category(old(self).categories@, tid)
                &&& final(self).sprints == old(self).sprints
                &&& uses(old(self).entries@, tid) == 0 ==> final(self).entries == old(self).entries
                &&& uses(old(self).entries@, tid) > 0 ==> exists|to: Seq<char>|
                    {
                        &&& to != tid
                        &&& has_category(old(self).categories@, to)
                        &&& reassigned(old(self).entries@, final(self).entries@, tid, to)
                        &&& match named_replacement(replacement) {
                            Some(n) => to == n,
                            None => exists|k: int|
                                oldest_other(old(self).categories@, tid, k) && to
                                    == #[trigger] old(self).categories@[k].id@,
                        }
                    }
            },
            r is Err ==> *final(self) == *old(self),
            old(self).wf() ==> final(self).wf(),
    {
        let tid = trim_str(id);
        if tid.len() == 0 {
            return Err(StoreError::Validation(text("category id is required")));
        }
        if self.categories.len() <= 1 {
            return Err(StoreError::Validation(text("at least one category is required")));
        }
        let tid_s = string_of(&tid);
        if find_category(&self.categories, tid_s.as_str()).is_none() {
            return Err(StoreError::NotFound(text("category not found")));
        }
        let used = count_uses(&self.entries, &tid);
        let ghost mut to_g: Seq<char> = Seq::empty();
        let ghost old_entries = self.entries@;
        if used > 0 {
            let named: Option<Vec<char>> = match &replacement {
                Some(s) => {
                    let t = trim_str(s.as_str());
                    if t.len() == 0 {
                        None
                    } else {
                        Some(t)
                    }
                },
                None => None,
            };
            let ghost mut oldest: int = 0;
            let to: Vec<char> = match named {
                Some(t) => t,
                None => match find_oldest_other(&self.categories, &tid) {
                    Some(k) => {
                        proof {
                            oldest = k as int;
                        }
                        let v = chars_of(self.categories[k].id.as_str());
                        v
                    },
                    None => {
                        return Err(StoreError::NotFound(text("no replacement category available")));
                    },
                },
            };
            if chars_eq(&to, &tid) {
                return Err(StoreError::Validation(text("replacement category must be different")));
            }
            let to_s = string_of(&to);
            match find_category(&self.categories, to_s.as_str()) {
                None => {
                    return Err(StoreError::NotFound(text("replacement category not found")));
                },
                Some(w) => {
                    assert(self.categories@[w as int].id@ == to@);
                },
            }
            proof {
                to_g = to@;
            }
            let ghost before = self.entries@;
            let mut out: Vec<DailyEntry> = Vec::new();
            let mut i: usize = 0;
            while i < self.entries.len()
                invariant
                    i <= before.len(),
                    self.entries@ == before,
                    out@.len() == i,
                    to_s@ == to@,
                    forall|k: int| 0 <= k < i ==> moved_one(#[trigger] before[k], out@[k], tid@, to@),
                decreases before.len() - i,
            {
                let e = self.entries[i].copied();
                let c = chars_of(e.category_id.as_str());
                if chars_eq(&c, &tid) {
                    out.push(
                        DailyEntry {
                            id: e.id,
                            sprint_id: e.sprint_id,
                            date: e.date,
                            category_id: to_s.clone(),
                            title: e.title,
                            details: e.details,
                            created_at: e.created_at,
                        },
                    );
                } else {
                    out.push(e);
                }
                i = i + 1;
            }
            proof {
                assert(reassigned(before, out@, tid@, to@));
                assert(named_replacement(replacement) is None ==> oldest_other(self.categories@, tid@, oldest) && to@ == self.categories@[oldest].id@);
            }
            self.entries = out;
        }
        let ghost cats = self.categories@;
        let mut kept: Vec<Category> = Vec::new();
        let mut i: usize = 0;
        while i < self.categories.len()
            invariant
                i <= cats.len(),
                self.categories@ == cats,
                kept@ == without_category(cats.subrange(0, i as int), tid@),
            decreases cats.len() - i,
        {
            assert(cats.subrange(0, i + 1).drop_last() =~= cats.subrange(0, i as int));
            let c = chars_of(self.categories[i].id.as_str());
            if !chars_eq(&c, &tid) {
                kept.push(self.categories[i].copied());
            }
            i = i + 1;
        }
        assert(cats.subrange(0, i as int) =~= cats);
        self.categories = kept;
        assert(uses(old_entries, tid@) > 0 ==> to_g != tid@ && has_category(cats, to_g) && reassigned(
            old_entries,
            self.entries@,
            tid@,
            to_g,
        ));
        proof {
            if old(self).wf() {
                let ci = lemma_without_category_index(cats, tid@);
                let kc = self.categories@;
                let es = self.entries@;
                assert forall|a: int, b: int| 0 <= a < b < kc.len() implies (#[trigger] kc[a]).id@ != (
                    #[trigger] kc[b]).id@ && lower(kc[a].name@) != lower(kc[b].name@) by {
                    assert(ci[a] < ci[b]);
                    assert(kc[a] == cats[ci[a]] && kc[b] == cats[ci[b]]);
                }
                if uses(old_entries, tid@) == 0 {
                    lemma_uses_zero(old_entries, tid@);
                }
                assert forall|a: int, b: int| 0 <= a < b < es.len() implies (#[trigger] es[a]).id@ != (
                    #[trigger] es[b]).id@ by {
                    if uses(old_entries, tid@) > 0 {
                        assert(moved_one(old_entries[a], es[a], tid@, to_g));
                        assert(moved_one(old_entries[b], es[b], tid@, to_g));
                    }
                }
                assert forall|k: int| 0 <= k < es.len() implies has_sprint(self.sprints@, (#[trigger] es[k]).sprint_id@)
                    && has_category(kc, es[k].category_id@) by {
                    let e0 = old_entries[k];
                    let c = if uses(old_entries, tid@) > 0 && e0.category_id@ == tid@ {
                        to_g
                    } else {
                        e0.category_id@
                    };
                    if uses(old_entries, tid@) > 0 {
                        assert(moved_one(e0, es[k], tid@, to_g));
                    }
                    assert(es[k].category_id@ == c);
                    assert(es[k].sprint_id == e0.sprint_id);
                    assert(has_category(cats, c) && c != tid@);
                    let w = choose|w: int| 0 <= w < cats.len() && (#[trigger] cats[w]).id@ == c;
                    let k2 = choose|k2: int| 0 <= k2 < ci.len() && ci[k2] == w;
                    assert(kc[k2] == cats[ci[k2]]);
                }
            }
        }
        Ok(())
    }

    /// Adds a sprint that starts on `start_date` (trimmed, `YYYY-MM-DD`) and
    /// lasts `duration_days` days, 7 or 14 (14 where absent). It gets the next
    /// sprint code, and that code as its name where no name is given.
    pub fn create_sprint(
        &mut self,
        start_date: &str,
        duration_days: Option<i64>,
        name: Option<String>,
        id: &str,
        now: &str,
    ) -> (r: Result<Sprint, StoreError>)
        ensures
            ({
                let start = trim(start_date@);
                let days: int = match duration_days {
                    Some(d) => d as int,
                    None => 14,
                };
                let code = code_text(highest_number(old(self).sprints@) + 1);
                let valid = start.len() > 0 && day_number_of(start) is Some && (days == 7 || days
                    == 14) && window_end(start, days) is Some;
                &&& !valid ==> (r matches Err(StoreError::Validation(_)))
                &&& valid && (has_sprint(old(self).sprints@, id@) || has_code(
                    old(self).sprints@,
                    code,
                )) ==> (r matches Err(StoreError::Storage(_)))
                &&& r is Ok <==> valid && !has_sprint(old(self).sprints@, id@) && !has_code(
                    old(self).sprints@,
                    code,
                )
                &&& r matches Ok(s) ==> {
                    &&& s.id@ == id@
                    &&& s.code@ == code
                    &&& s.name@ == sprint_display_name(name, code)
                    &&& s.start_date@ == start
                    &&& s.end_date matches Some(e) && window_end(start, days) == Some(e@)
                    &&& s.created_at@ == now@
                    &&& final(self).sprints@ == old(self).sprints@.push(s)
                    &&& final(self).categories == old(self).categories
                    &&& final(self).entries == old(self).entries
                }
            }),
            r is Err ==> *final(self) == *old(self),
            old(self).wf() ==> final(self).wf(),
    {
        let start = trim_str(start_date);
        if start.len() == 0 {
            return Err(StoreError::Validation(text("start_date is required")));
        }
        let start_s = string_of(&start);
        if !is_calendar_date(start_s.as_str()) {
            return Err(StoreError::Validation(text("start_date must be in YYYY-MM-DD format")));
        }
        let days: i64 = match duration_days {
            Some(d) => d,
            None => 14,
        };
        if days != 7 && days != 14 {
            return Err(StoreError::Validation(text("duration_days must be 7 or 14")));
        }
        let end = match window_end_text(start_s.as_str(), days) {
            Some(e) => e,
            None => {
                return Err(StoreError::Validation(text("the sprint window is out of range")));
            },
        };
        let code = next_sprint_code(&self.sprints);
        if find_sprint(&self.sprints, id).is_some() || find_code(&self.sprints, &code) {
            return Err(StoreError::Storage(text("sprint id or code already exists")));
        }
        let display = match &name {
            Some(n) => {
                let t = trim_str(n.as_str());
                if t.len() == 0 {
                    code.clone()
                } else {
                    string_of(&t)
                }
            },
            None => code.clone(),
        };
        let s = Sprint {
            id: text(id),
            code,
            name: display,
            start_date: start_s,
            end_date: Some(end),
            created_at: text(now),
        };
        let ghost before = *self;
        self.sprints.push(s.copied());
        proof {
            if before.wf() {
                let n = before.sprints@.len() as int;
                assert forall|i: int, j: int| 0 <= i < j < self.sprints@.len() implies (#[trigger] self.sprints@[i]).id@ != (
                    #[trigger] self.sprints@[j]).id@ && self.sprints@[i].code@ != self.sprints@[j].code@ by {
                    assert(self.sprints@[i] == before.sprints@[i]);
                    if j < n {
                        assert(self.sprints@[j] == before.sprints@[j]);
                    }
                }
                assert forall|i: int| 0 <= i < self.entries@.len() implies has_sprint(self.sprints@, (#[trigger] self.entries@[i]).sprint_id@)
                    && has_category(self.categories@, self.entries@[i].category_id@) by {
                    let w = choose|w: int| 0 <= w < before.sprints@.len() && (#[trigger] before.sprints@[w]).id@ == before.entries@[i].sprint_id@;
                    assert(self.sprints@[w] == before.sprints@[w]);
                }
            }
        }
        Ok(s)
    }

    /// Renames sprint `id` (trimmed) to `name` (trimmed); its code stays.
    pub fn update_sprint_name(&mut self, id: &str, name: &str) -> (r: Result<Sprint, StoreError>)
        ensures
            is_blank(id@) || is_blank(name@) ==> r matches Err(StoreError::Validation(_)),
            !is_blank(id@) && !is_blank(name@) && !has_sprint(old(self).sprints@, trim(id@))
                ==> r matches Err(StoreError::NotFound(_)),
            r is Ok <==> !is_blank(id@) && !is_blank(name@) && has_sprint(
                old(self).sprints@,
                trim(id@),
            ),
            r matches Ok(s) ==> {
                &&& s.id@ == trim(id@)
                &&& s.name@ == trim(name@)
                &&& exists|k: int|
                    0 <= k < old(self).sprints@.len() && old(self).sprints@[k].id@ == trim(id@) && s
                        == #[trigger] final(self).sprints@[k]
                &&& final(self).sprints@.len() == old(self).sprints@.len()
                &&& forall|k: int|
                    0 <= k < old(self).sprints@.len() ==> sprint_renamed(
                        #[trigger] old(self).sprints@[k],
                        final(self).sprints@[k],
                        trim(id@),
                        trim(name@),
                    )
                &&& final(self).categories == old(self).categories
                &&& final(self).entries == old(self).entries
            },
            r is Err ==> *final(self) == *old(self),
            old(self).wf() ==> final(self).wf(),
    {
        let tid = trim_str(id);
        let tname = trim_str(name);
        if tid.len() == 0 {
            return Err(StoreError::Validation(text("sprint id is required")));
        }
        if tname.len() == 0 {
            return Err(StoreError::Validation(text("sprint name is required")));
        }
        let ghost before = self.sprints@;
        let mut out: Vec<Sprint> = Vec::new();
        let mut found: Option<usize> = None;
        let mut i: usize = 0;
        while i < self.sprints.len()
            invariant
                i <= before.len(),
                self.sprints@ == before,
                out@.len() == i,
                tid@ == trim(id@),
                tname@ == trim(name@),
                found matches Some(f) ==> f < i && before[f as int].id@ == trim(id@),
                found is None ==> forall|k: int| 0 <= k < i ==> (#[trigger] before[k]).id@ != trim(id@),
                forall|k: int|
                    0 <= k < i ==> sprint_renamed(#[trigger] before[k], out@[k], trim(id@), trim(name@)),
            decreases before.len() - i,
        {
            let s = self.sprints[i].copied();
            let sid = chars_of(s.id.as_str());
            if chars_eq(&sid, &tid) {
                out.push(
                    Sprint {
                        id: s.id,
                        code: s.code,
                        name: string_of(&tname),
                        start_date: s.start_date,
                        end_date: s.end_date,
                        created_at: s.created_at,
                    },
                );
                if found.is_none() {
                    found = Some(i);
                }
            } else {
                out.push(s);
            }
            i = i + 1;
        }
        match found {
            None => Err(StoreError::NotFound(text("sprint not found"))),
            Some(f) => {
                let r = out[f].copied();
                self.sprints = out;
                assert(r == self.sprints@[f as int]);
                proof {
                    lemma_rename_sprint_wf(*old(self), *self, tid@, tname@);
                }
                Ok(r)
            },
        }
    }

    /// Removes sprint `id` (trimmed) and its entries. The sprint that is
    /// active on `today` cannot be removed.
    pub fn delete_sprint(&mut self, id: &str, today: &str) -> (r: Result<(), StoreError>)
        ensures
            is_blank(id@) ==> r matches Err(StoreError::Validation(_)),
            !is_blank(id@) && active_id(old(self).sprints@, today@, trim(id@)) ==> r matches Err(
                StoreError::Validation(_),
            ),
            !is_blank(id@) && !active_id(old(self).sprints@, today@, trim(id@)) && !has_sprint(
                old(self).sprints@,
                trim(id@),
            ) ==> r matches Err(StoreError::NotFound(_)),
            r is Ok <==> !is_blank(id@) && !active_id(old(self).sprints@, today@, trim(id@))
                && has_sprint(old(self).sprints@, trim(id@)),
            r is Ok ==> {
                &&& final(self).sprints@ == without_sprint(old(self).sprints@, trim(id@))
                &&& final(self).entries@ == without_sprint_entries(old(self).entries@, trim(id@))
                &&& final(self).categories == old(self).categories
            },
            r is Err ==> *final(self) == *old(self),
            old(self).wf() ==> final(self).wf(),
    {
        let tid = trim_str(id);
        if tid.len() == 0 {
            return Err(StoreError::Validation(text("sprint id is required")));
        }
        let tid_s = string_of(&tid);
        match pick_active_sprint_id(&self.sprints, today) {
            Some(active) => {
                if active == tid_s {
                    return Err(StoreError::Validation(text("cannot delete the active sprint")));
                }
                proof {
                    if active_id(self.sprints@, today@, tid@) {
                        let i = choose|i: int|
                            is_newest(self.sprints@, i, today@, any_in_window(self.sprints@, today@))
                                && tid@ == (#[trigger] self.sprints@[i]).id@;
                        let j = choose|j: int|
                            is_newest(self.sprints@, j, today@, any_in_window(self.sprints@, today@))
                                && active == (#[trigger] self.sprints@[j]).id;
                        crate::active::lemma_newest_unique(self.sprints@, i, j, today@, any_in_window(self.sprints@, today@));
                    }
                }
            },
            None => {},
        }
        if find_sprint(&self.sprints, tid_s.as_str()).is_none() {
            return Err(StoreError::NotFound(text("sprint not found")));
        }
        let ghost ss = self.sprints@;
        let mut kept: Vec<Sprint> = Vec::new();
        let mut i: usize = 0;
        while i < self.sprints.len()
            invariant
                i <= ss.len(),
                self.sprints@ == ss,
                kept@ == without_sprint(ss.subrange(0, i as int), tid@),
            decreases ss.len() - i,
        {
            assert(ss.subrange(0, i + 1).drop_last() =~= ss.subrange(0, i as int));
            let c = chars_of(self.sprints[i].id.as_str());
            if !chars_eq(&c, &tid) {
                kept.push(self.sprints[i].copied());
            }
            i = i + 1;
        }
        assert(ss.subrange(0, i as int) =~= ss);
        let ghost es = self.entries@;
        let mut left: Vec<DailyEntry> = Vec::new();
        let mut i: usize = 0;
        while i < self.entries.len()
            invariant
                i <= es.len(),
                self.entries@ == es,
                left@ == without_sprint_entries(es.subrange(0, i as int), tid@),
            decreases es.len() - i,
        {
            assert(es.subrange(0, i + 1).drop_last() =~= es.subrange(0, i as int));
            let c = chars_of(self.entries[i].sprint_id.as_str());
            if !chars_eq(&c, &tid) {
                left.push(self.entries[i].copied());
            }
            i = i + 1;
        }
        assert(es.subrange(0, i as int) =~= es);
        self.sprints = kept;
        self.entries = left;
        proof {
            lemma_delete_sprint_wf(*old(self), *self, tid@);
        }
        Ok(())
    }

    /// Logs an entry: `title` is stored trimmed, and `details` trimmed, or
    /// absent where blank. The sprint and the category must exist.
    pub fn add_daily_entry(
        &mut self,
        sprint_id: &str,
        date: &str,
        category_id: &str,
        title: &str,
        details: Option<String>,
        id: &str,
        now: &str,
    ) -> (r: Result<DailyEntry, StoreError>)
        ensures
            is_blank(title@) || is_blank(date@) || is_blank(category_id@) ==> r matches Err(
                StoreError::Validation(_),
            ),
            ({
                let filled = !is_blank(title@) && !is_blank(date@) && !is_blank(category_id@);
                let found = has_sprint(old(self).sprints@, sprint_id@) && has_category(
                    old(self).categories@,
                    category_id@,
                );
                &&& filled && !found ==> (r matches Err(StoreError::NotFound(_)))
                &&& filled && found && has_entry(old(self).entries@, id@) ==> (r matches Err(
                    StoreError::Storage(_),
                ))
                &&& r is Ok <==> filled && found && !has_entry(old(self).entries@, id@)
            }),
            r matches Ok(e) ==> {
                &&& e.id@ == id@
                &&& e.sprint_id@ == sprint_id@
                &&& e.date@ == date@
                &&& e.category_id@ == category_id@
                &&& e.title@ == trim(title@)
                &&& match details {
                    Some(d) => if is_blank(d@) {
                        e.details is None
                    } else {
                        e.details matches Some(t) && t@ == trim(d@)
                    },
                    None => e.details is None,
                }
                &&& e.created_at@ == now@
                &&& final(self).entries@ == old(self).entries@.push(e)
                &&& final(self).sprints == old(self).sprints
                &&& final(self).categories == old(self).categories
            },
            r is Err ==> *final(self) == *old(self),
            old(self).wf() ==> final(self).wf(),
    {
        let t = trim_str(title);
        if t.len() == 0 {
            return Err(StoreError::Validation(text("title is required")));
        }
        if trim_str(date).len() == 0 {
            return Err(StoreError::Validation(text("date is required")));
        }
        if trim_str(category_id).len() == 0 {
            return Err(StoreError::Validation(text("category_id is required")));
        }
        if find_sprint(&self.sprints, sprint_id).is_none() {
            return Err(StoreError::NotFound(text("the selected sprint does not exist")));
        }
        if find_category(&self.categories, category_id).is_none() {
            return Err(StoreError::NotFound(text("the selected category does not exist")));
        }
        if find_entry(&self.entries, id) {
            return Err(StoreError::Storage(text("entry id already exists")));
        }
        let kept_details = match &details {
            Some(d) => {
                let td = trim_str(d.as_str());
                if td.len() == 0 {
                    None
                } else {
                    Some(string_of(&td))
                }
            },
            None => None,
        };
        let e = DailyEntry {
            id: text(id),
            sprint_id: text(sprint_id),
            date: text(date),
            category_id: text(category_id),
            title: string_of(&t),
            details: kept_details,
            created_at: text(now),
        };
        let ghost before = *self;
        self.entries.push(e.copied());
        proof {
            if before.wf() {
                let n = before.entries@.len() as int;
                assert forall|i: int, j: int| 0 <= i < j < self.entries@.len() implies (#[trigger] self.entries@[i]).id@ != (
                    #[trigger] self.entries@[j]).id@ by {
                    assert(self.entries@[i] == before.entries@[i]);
                    if j < n {
                        assert(self.entries@[j] == before.entries@[j]);
                    }
                }
                assert forall|i: int| 0 <= i < self.entries@.len() implies has_sprint(self.sprints@, (#[trigger] self.entries@[i]).sprint_id@)
                    && has_category(self.categories@, self.entries@[i].category_id@) by {
                    if i < n {
                        assert(self.entries@[i] == before.entries@[i]);
                    }
                }
            }
        }
        Ok(e)
    }
}

/// `after` is `before` renamed to `name` where its id is `id`.
pub open spec fn sprint_renamed(before: Sprint, after: Sprint, id: Seq<char>, name: Seq<char>) -> bool {
    if before.id@ == id {
        &&& after.name@ == name
        &&& after.id == before.id
        &&& after.code == before.code
        &&& after.start_date == before.start_date
        &&& after.end_date == before.end_date
        &&& after.created_at == before.created_at
    } else {
        after == before
    }
}


/// The rendered report of a sprint and the number of entries in it.
#[derive(Clone, Debug, PartialEq, Eq)]
pub struct ReportOutput {
    pub markdown: String,
    pub total_items: usize,
}

/// `row` carries the sort key of entry `e` for listing: date, category id,
/// creation time.
pub open spec fn listing_key(row: ReportRow, e: DailyEntry) -> bool {
    &&& row.date@ == e.date@
    &&& row.label@ == e.category_id@
    &&& row.key3@ == e.created_at@
    &&& row.key4@.len() == 0
    &&& row.line@.len() == 0
}

/// The entries of sprint `id`, in stored order.
pub open spec fn sprint_entries(es: Seq<DailyEntry>, id: Seq<char>) -> Seq<DailyEntry>
    decreases es.len(),
{
    if es.len() == 0 {
        es
    } else {
        let rest = sprint_entries(es.drop_last(), id);
        if es.last().sprint_id@ == id {
            rest.push(es.last())
        } else {
            rest
        }
    }
}

/// The default categories: PR-Reviews, Meeting and Tasks. Of the two
/// default sets that earlier front-ends seeded (the other had Preview in
/// place of PR-Reviews), this one is the canonical choice.
pub fn default_categories(now: &str) -> (r: Vec<Category>)
    ensures
        is_default_set(r@, now@),
{
    let mut r: Vec<Category> = Vec::new();
    r.push(Category { id: text("pr-reviews"), name: text("PR-Reviews"), created_at: text(now) });
    r.push(Category { id: text("meeting"), name: text("Meeting"), created_at: text(now) });
    r.push(Category { id: text("tasks"), name: text("Tasks"), created_at: text(now) });
    r
}

impl Store {
    /// No category, no sprint and no entry is stored.
    pub open spec fn is_empty_spec(&self) -> bool {
        self.categories@.len() == 0 && self.sprints@.len() == 0 && self.entries@.len() == 0
    }

    pub fn is_empty(&self) -> (r: bool)
        ensures
            r == self.is_empty_spec(),
    {
        self.categories.len() == 0 && self.sprints.len() == 0 && self.entries.len() == 0
    }

    /// All categories, oldest first; equal creation times keep their
    /// stored order.
    pub fn list_categories(&self) -> (r: Vec<Category>)
        ensures
            exists|keys: Seq<ReportRow>, ord: Seq<int>|
                {
                    &&& keys.len() == self.categories@.len()
                    &&& (forall|i: int| 0 <= i < keys.len() ==> created_key(#[trigger] keys[i], self.categories@[i]))
                    &&& is_row_order(keys, ord)
                    &&& r@ == ord.map_values(|j: int| self.categories@[j])
                },
    {
        let mut keys: Vec<ReportRow> = Vec::new();
        let mut i: usize = 0;
        while i < self.categories.len()
            invariant
                i <= self.categories@.len(),
                keys@.len() == i,
                forall|k: int| 0 <= k < i ==> created_key(#[trigger] keys@[k], self.categories@[k]),
            decreases self.categories@.len() - i,
        {
            keys.push(
                ReportRow {
                    date: self.categories[i].created_at.clone(),
                    label: String::new(),
                    key3: String::new(),
                    key4: String::new(),
                    line: String::new(),
                },
            );
            i = i + 1;
        }
        let ord = row_order(&keys);
        let ghost ordi = ord@.map_values(|x: usize| x as int);
        let mut r: Vec<Category> = Vec::new();
        let mut k: usize = 0;
        while k < ord.len()
            invariant
                k <= ord@.len() == keys@.len() == self.categories@.len(),
                is_row_order(keys@, ordi),
                ordi == ord@.map_values(|x: usize| x as int),
                r@ == ordi.subrange(0, k as int).map_values(|j: int| self.categories@[j]),
            decreases ord@.len() - k,
        {
            assert(0 <= ordi[k as int] < self.categories@.len());
            r.push(self.categories[ord[k]].copied());
            k = k + 1;
            assert(r@ =~= ordi.subrange(0, k as int).map_values(|j: int| self.categories@[j]));
        }
        assert(ordi.subrange(0, k as int) =~= ordi);
        r
    }

    /// All sprints, in stored order.
    pub fn list_sprints(&self) -> (r: Vec<Sprint>)
        ensures
            r@ == self.sprints@,
    {
        let mut r: Vec<Sprint> = Vec::new();
        let mut i: usize = 0;
        while i < self.sprints.len()
            invariant
                i <= self.sprints@.len(),
                r@ == self.sprints@.subrange(0, i as int),
            decreases self.sprints@.len() - i,
        {
            r.push(self.sprints[i].copied());
            i = i + 1;
            assert(r@ =~= self.sprints@.subrange(0, i as int));
        }
        assert(r@ =~= self.sprints@);
        r
    }

    /// The entries of sprint `sprint_id`, ordered by date, category id and
    /// creation time; equal keys keep their stored order.
    pub fn list_entries_for_sprint(&self, sprint_id: &str) -> (r: Vec<DailyEntry>)
        ensures
            ({
                let mine = sprint_entries(self.entries@, sprint_id@);
                exists|keys: Seq<ReportRow>, ord: Seq<int>|
                    {
                        &&& keys.len() == mine.len()
                        &&& (forall|i: int| 0 <= i < mine.len() ==> listing_key(#[trigger] keys[i], mine[i]))
                        &&& is_row_order(keys, ord)
                        &&& r@ == ord.map_values(|j: int| mine[j])
                    }
            }),
    {
        let ghost es = self.entries@;
        let mut mine: Vec<DailyEntry> = Vec::new();
        let mut keys: Vec<ReportRow> = Vec::new();
        let mut i: usize = 0;
        while i < self.entries.len()
            invariant
                i <= es.len(),
                self.entries@ == es,
                mine@ == sprint_entries(es.subrange(0, i as int), sprint_id@),
                keys@.len() == mine@.len(),
                forall|k: int| 0 <= k < mine@.len() ==> listing_key(#[trigger] keys@[k], mine@[k]),
            decreases es.len() - i,
        {
            assert(es.subrange(0, i + 1).drop_last() =~= es.subrange(0, i as int));
            let e = &self.entries[i];
            if str_eq(e.sprint_id.as_str(), sprint_id) {
                keys.push(
                    ReportRow {
                        date: e.date.clone(),
                        label: e.category_id.clone(),
                        key3: e.created_at.clone(),
                        key4: String::new(),
                        line: String::new(),
                    },
                );
                mine.push(e.copied());
            }
            i = i + 1;
        }
        assert(es.subrange(0, i as int) =~= es);
        let ord = row_order(&keys);
        let ghost ordi = ord@.map_values(|x: usize| x as int);
        let mut r: Vec<DailyEntry> = Vec::new();
        let mut k: usize = 0;
        while k < ord.len()
            invariant
                k <= ord@.len() == mine@.len(),
                is_row_order(keys@, ordi),
                ordi == ord@.map_values(|x: usize| x as int),
                r@ == ordi.subrange(0, k as int).map_values(|j: int| mine@[j]),
            decreases ord@.len() - k,
        {
            assert(0 <= ordi[k as int] < mine@.len());
            r.push(mine[ord[k]].copied());
            k = k + 1;
            assert(r@ =~= ordi.subrange(0, k as int).map_values(|j: int| mine@[j]));
        }
        assert(ordi.subrange(0, k as int) =~= ordi);
        r
    }

    /// Seeds the default categories where there are none.
    pub fn ensure_default_categories(&mut self, now: &str)
        ensures
            old(self).categories@.len() > 0 ==> *final(self) == *old(self),
            old(self).categories@.len() == 0 ==> {
                &&& is_default_set(final(self).categories@, now@)
                &&& final(self).sprints == old(self).sprints
                &&& final(self).entries == old(self).entries
            },
            old(self).wf() ==> final(self).wf(),
    {
        if self.categories.len() == 0 {
            self.categories = default_categories(now);
            proof {
                lemma_defaults_wf(*old(self), *self, now@);
            }
        }
    }

    /// Repairs duplicate or malformed sprint codes (see
    /// `normalize_sprint_codes`); returns whether any code changed.
    pub fn ensure_sprint_codes(&mut self) -> (changed: bool)
        requires
            old(self).sprints@.len() <= u32::MAX,
        ensures
            exists|ord: Seq<int>| crate::codes::renumbered(old(self).sprints@, final(self).sprints@, ord),
            changed == exists|j: int|
                0 <= j < old(self).sprints@.len() && (#[trigger] final(self).sprints@[j]).code@ != old(
                    self,
                ).sprints@[j].code@,
            final(self).categories == old(self).categories,
            final(self).entries == old(self).entries,
            old(self).wf() ==> final(self).wf(),
    {
        let mut ss = self.list_sprints();
        let changed = crate::codes::normalize_sprint_codes(&mut ss);
        let ghost before = self.sprints@;
        let ghost ord = choose|ord: Seq<int>| crate::codes::renumbered(before, ss@, ord);
        assert(crate::codes::renumbered(before, ss@, ord));
        self.sprints = ss;
        assert(before == old(self).sprints@);
        assert(crate::codes::renumbered(old(self).sprints@, self.sprints@, ord));
        proof {
            lemma_renumber_wf(*old(self), *self, ord);
        }
        changed
    }

    /// The report of sprint `sprint_id` (see `report::generate_report`).
    pub fn generate_report(
        &self,
        sprint_id: &str,
        from: &Option<String>,
        to: &Option<String>,
        filter: &Option<Vec<String>>,
        exported_at: &str,
    ) -> (r: Result<ReportOutput, StoreError>)
        ensures
            r is Err <==> !has_sprint(self.sprints@, sprint_id@),
            r is Err ==> r matches Err(StoreError::NotFound(_)),
            r matches Ok(out) ==> exists|k: int|
                0 <= k < self.sprints@.len() && (#[trigger] self.sprints@[k]).id@ == sprint_id@ && {
                    let sel = selected(self.entries@, sprint_id@, *from, *to, *filter);
                    &&& out.total_items == sel.len()
                    &&& exists|rows: Seq<ReportRow>, ord: Seq<int>|
                        {
                            &&& rows_of(rows, sel, self.categories@)
                            &&& is_row_order(rows, ord)
                            &&& out.markdown@ == report_text(
                                self.sprints@[k],
                                *from,
                                *to,
                                exported_at@,
                                #[trigger] in_order(rows, ord),
                            )
                        }
                },
    {
        match find_sprint(&self.sprints, sprint_id) {
            None => Err(StoreError::NotFound(text("the selected sprint does not exist"))),
            Some(k) => {
                let (markdown, total_items) = generate_report(
                    &self.sprints[k],
                    &self.entries,
                    &self.categories,
                    from,
                    to,
                    filter,
                    exported_at,
                );
                Ok(ReportOutput { markdown, total_items })
            },
        }
    }
}

/// `cats` are the default categories, PR-Reviews, Meeting and Tasks, all
/// created at `now`.
pub open spec fn is_default_set(cats: Seq<Category>, now: Seq<char>) -> bool {
    &&& cats.len() == 3
    &&& cats[0].id@ == "pr-reviews"@ && cats[0].name@ == "PR-Reviews"@
    &&& cats[1].id@ == "meeting"@ && cats[1].name@ == "Meeting"@
    &&& cats[2].id@ == "tasks"@ && cats[2].name@ == "Tasks"@
    &&& forall|i: int| 0 <= i < 3 ==> (#[trigger] cats[i]).created_at@ == now
}

/// After a category is created, the listing holds its id exactly once, and
/// a second creation under the same name in another letter case is refused
/// as a conflict.
pub proof fn lemma_create_then_list(before: Seq<Category>, c: Category, again: Seq<char>)
    requires
        !has_category(before, c.id@),
        lower(trim(again)) == lower(c.name@),
    ensures
        id_count(before.push(c), c.id@) == 1,
        name_taken(before.push(c), trim(again), None),
{
    lemma_id_count_absent(before, c.id@);
    assert(before.push(c).drop_last() =~= before);
    let n = before.len() as int;
    assert(before.push(c)[n] == c);
}

/// How many categories have id `id`.
pub open spec fn id_count(cats: Seq<Category>, id: Seq<char>) -> nat
    decreases cats.len(),
{
    if cats.len() == 0 {
        0
    } else {
        id_count(cats.drop_last(), id) + if cats.last().id@ == id {
            1nat
        } else {
            0nat
        }
    }
}

proof fn lemma_id_count_absent(cats: Seq<Category>, id: Seq<char>)
    requires
        !has_category(cats, id),
    ensures
        id_count(cats, id) == 0,
    decreases cats.len(),
{
    if cats.len() > 0 {
        let n = cats.len() - 1;
        assert(cats[n].id@ != id);
        assert forall|i: int| 0 <= i < cats.drop_last().len() implies (#[trigger] cats.drop_last()[i]).id@ != id by {
            assert(cats.drop_last()[i] == cats[i]);
        }
        lemma_id_count_absent(cats.drop_last(), id);
    }
}

/// After a removal no category has the removed id.
pub proof fn lemma_category_removed(cats: Seq<Category>, id: Seq<char>)
    ensures
        !has_category(without_category(cats, id), id),
        without_category(cats, id).len() <= cats.len(),
    decreases cats.len(),
{
    if cats.len() > 0 {
        lemma_category_removed(cats.drop_last(), id);
        let rest = without_category(cats.drop_last(), id);
        if cats.last().id@ != id {
            assert forall|i: int| 0 <= i < rest.push(cats.last()).len() implies (#[trigger] rest.push(cats.last())[i]).id@ != id by {
                if i < rest.len() {
                    assert(rest.push(cats.last())[i] == rest[i]);
                }
            }
        }
    }
}

/// `row` carries the sort key of category `c` for listing: its creation
/// time.
pub open spec fn created_key(row: ReportRow, c: Category) -> bool {
    &&& row.date@ == c.created_at@
    &&& row.label@.len() == 0
    &&& row.key3@.len() == 0
    &&& row.key4@.len() == 0
    &&& row.line@.len() == 0
}

/// `row` carries the sort key of sprint `s` for listing by start date:
/// start date, then creation time.
pub open spec fn start_key(row: ReportRow, s: Sprint) -> bool {
    &&& row.date@ == s.start_date@
    &&& row.label@ == s.created_at@
    &&& row.key3@.len() == 0
    &&& row.key4@.len() == 0
    &&& row.line@.len() == 0
}

impl Store {
    /// All sprints, latest start date first; among equal start dates the
    /// latest created first.
    pub fn list_sprints_by_start(&self) -> (r: Vec<Sprint>)
        ensures
            exists|keys: Seq<ReportRow>, ord: Seq<int>|
                {
                    &&& keys.len() == self.sprints@.len()
                    &&& (forall|i: int| 0 <= i < keys.len() ==> start_key(#[trigger] keys[i], self.sprints@[i]))
                    &&& is_row_order(keys, ord)
                    &&& r@ == ord.reverse().map_values(|j: int| self.sprints@[j])
                },
    {
        let mut keys: Vec<ReportRow> = Vec::new();
        let mut i: usize = 0;
        while i < self.sprints.len()
            invariant
                i <= self.sprints@.len(),
                keys@.len() == i,
                forall|k: int| 0 <= k < i ==> start_key(#[trigger] keys@[k], self.sprints@[k]),
            decreases self.sprints@.len() - i,
        {
            keys.push(
                ReportRow {
                    date: self.sprints[i].start_date.clone(),
                    label: self.sprints[i].created_at.clone(),
                    key3: String::new(),
                    key4: String::new(),
                    line: String::new(),
                },
            );
            i = i + 1;
        }
        let ord = row_order(&keys);
        let ghost ordi = ord@.map_values(|x: usize| x as int);
        let ghost rev = ordi.reverse();
        let n = ord.len();
        let mut r: Vec<Sprint> = Vec::new();
        let mut k: usize = 0;
        while k < n
            invariant
                k <= n == ord@.len() == keys@.len() == self.sprints@.len(),
                is_row_order(keys@, ordi),
                ordi == ord@.map_values(|x: usize| x as int),
                rev == ordi.reverse(),
                r@ == rev.subrange(0, k as int).map_values(|j: int| self.sprints@[j]),
            decreases n - k,
        {
            let j = ord[n - 1 - k];
            assert(rev[k as int] == ordi[n - 1 - k]);
            assert(0 <= ordi[n - 1 - k] < n);
            r.push(self.sprints[j].copied());
            k = k + 1;
            assert(r@ =~= rev.subrange(0, k as int).map_values(|j: int| self.sprints@[j]));
        }
        assert(rev.subrange(0, k as int) =~= rev);
        r
    }
}

/// The categories kept by `without_category` are those of `cats` whose id
/// is not `id`, in their order.
proof fn lemma_without_category_index(cats: Seq<Category>, id: Seq<char>) -> (idx: Seq<int>)
    ensures
        idx.len() == without_category(cats, id).len(),
        forall|k: int|
            0 <= k < idx.len() ==> 0 <= #[trigger] idx[k] < cats.len() && without_category(cats, id)[k]
                == cats[idx[k]] && cats[idx[k]].id@ != id,
        forall|a: int, b: int| 0 <= a < b < idx.len() ==> #[trigger] idx[a] < #[trigger] idx[b],
        forall|i: int|
            0 <= i < cats.len() && (#[trigger] cats[i]).id@ != id ==> exists|k: int|
                0 <= k < idx.len() && idx[k] == i,
    decreases cats.len(),
{
    if cats.len() == 0 {
        Seq::empty()
    } else {
        let pre = cats.drop_last();
        let sub = lemma_without_category_index(pre, id);
        let n = cats.len() - 1;
        assert forall|i: int| 0 <= i < n implies cats[i] == pre[i] by {}
        if cats.last().id@ == id {
            assert forall|i: int| 0 <= i < cats.len() && (#[trigger] cats[i]).id@ != id implies exists|k: int|
                0 <= k < sub.len() && sub[k] == i by {
                assert(pre[i] == cats[i]);
            }
            sub
        } else {
            let idx = sub.push(n);
            assert forall|i: int| 0 <= i < cats.len() && (#[trigger] cats[i]).id@ != id implies exists|k: int|
                0 <= k < idx.len() && idx[k] == i by {
                if i < n {
                    assert(pre[i] == cats[i]);
                    let k = choose|k: int| 0 <= k < sub.len() && sub[k] == i;
                    assert(idx[k] == i);
                } else {
                    assert(idx[sub.len() as int] == i);
                }
            }
            idx
        }
    }
}

proof fn lemma_without_sprint_index(ss: Seq<Sprint>, id: Seq<char>) -> (idx: Seq<int>)
    ensures
        idx.len() == without_sprint(ss, id).len(),
        forall|k: int|
            0 <= k < idx.len() ==> 0 <= #[trigger] idx[k] < ss.len() && without_sprint(ss, id)[k]
                == ss[idx[k]] && ss[idx[k]].id@ != id,
        forall|a: int, b: int| 0 <= a < b < idx.len() ==> #[trigger] idx[a] < #[trigger] idx[b],
        forall|i: int|
            0 <= i < ss.len() && (#[trigger] ss[i]).id@ != id ==> exists|k: int|
                0 <= k < idx.len() && idx[k] == i,
    decreases ss.len(),
{
    if ss.len() == 0 {
        Seq::empty()
    } else {
        let pre = ss.drop_last();
        let sub = lemma_without_sprint_index(pre, id);
        let n = ss.len() - 1;
        assert forall|i: int| 0 <= i < n implies ss[i] == pre[i] by {}
        if ss.last().id@ == id {
            assert forall|i: int| 0 <= i < ss.len() && (#[trigger] ss[i]).id@ != id implies exists|k: int|
                0 <= k < sub.len() && sub[k] == i by {
                assert(pre[i] == ss[i]);
            }
            sub
        } else {
            let idx = sub.push(n);
            assert forall|i: int| 0 <= i < ss.len() && (#[trigger] ss[i]).id@ != id implies exists|k: int|
                0 <= k < idx.len() && idx[k] == i by {
                if i < n {
                    assert(pre[i] == ss[i]);
                    let k = choose|k: int| 0 <= k < sub.len() && sub[k] == i;
                    assert(idx[k] == i);
                } else {
                    assert(idx[sub.len() as int] == i);
                }
            }
            idx
        }
    }
}

proof fn lemma_without_sprint_entries_index(es: Seq<DailyEntry>, id: Seq<char>) -> (idx: Seq<int>)
    ensures
        idx.len() == without_sprint_entries(es, id).len(),
        forall|k: int|
            0 <= k < idx.len() ==> 0 <= #[trigger] idx[k] < es.len() && without_sprint_entries(es, id)[k]
                == es[idx[k]] && es[idx[k]].sprint_id@ != id,
        forall|a: int, b: int| 0 <= a < b < idx.len() ==> #[trigger] idx[a] < #[trigger] idx[b],
    decreases es.len(),
{
    if es.len() == 0 {
        Seq::empty()
    } else {
        let pre = es.drop_last();
        let sub = lemma_without_sprint_entries_index(pre, id);
        let n = es.len() - 1;
        assert forall|i: int| 0 <= i < n implies es[i] == pre[i] by {}
        if es.last().sprint_id@ == id {
            sub
        } else {
            sub.push(n)
        }
    }
}

proof fn lemma_uses_zero(es: Seq<DailyEntry>, id: Seq<char>)
    requires
        uses(es, id) == 0,
    ensures
        forall|i: int| 0 <= i < es.len() ==> (#[trigger] es[i]).category_id@ != id,
    decreases es.len(),
{
    if es.len() > 0 {
        lemma_uses_zero(es.drop_last(), id);
        assert forall|i: int| 0 <= i < es.len() implies (#[trigger] es[i]).category_id@ != id by {
            if i < es.len() - 1 {
                assert(es[i] == es.drop_last()[i]);
            }
        }
    }
}

proof fn lemma_delete_sprint_wf(before: Store, after: Store, tid: Seq<char>)
    requires
        after.sprints@ == without_sprint(before.sprints@, tid),
        after.entries@ == without_sprint_entries(before.entries@, tid),
        after.categories == before.categories,
    ensures
        before.wf() ==> after.wf(),
{
    if before.wf() {
        let ss = before.sprints@;
        let es = before.entries@;
        let ci = lemma_without_sprint_index(ss, tid);
        let ei = lemma_without_sprint_entries_index(es, tid);
        let ks = after.sprints@;
        let le = after.entries@;
        assert forall|a: int, b: int| 0 <= a < b < ks.len() implies (#[trigger] ks[a]).id@ != (
            #[trigger] ks[b]).id@ && ks[a].code@ != ks[b].code@ by {
            assert(ci[a] < ci[b]);
            assert(ks[a] == ss[ci[a]] && ks[b] == ss[ci[b]]);
        }
        assert forall|a: int, b: int| 0 <= a < b < le.len() implies (#[trigger] le[a]).id@ != (
            #[trigger] le[b]).id@ by {
            assert(ei[a] < ei[b]);
            assert(le[a] == es[ei[a]] && le[b] == es[ei[b]]);
        }
        assert forall|k: int| 0 <= k < le.len() implies has_sprint(ks, (#[trigger] le[k]).sprint_id@)
            && has_category(after.categories@, le[k].category_id@) by {
            assert(le[k] == es[ei[k]]);
            let e = es[ei[k]];
            assert(has_sprint(ss, e.sprint_id@));
            let w = choose|w: int| 0 <= w < ss.len() && (#[trigger] ss[w]).id@ == e.sprint_id@;
            let k2 = choose|k2: int| 0 <= k2 < ci.len() && ci[k2] == w;
            assert(ks[k2] == ss[ci[k2]]);
        }
    }
}

proof fn lemma_rename_category_wf(before: Store, after: Store, tid: Seq<char>, tname: Seq<char>)
    requires
        renamed(before.categories@, after.categories@, tid, tname),
        !name_taken(before.categories@, tname, Some(tid)),
        after.sprints == before.sprints,
        after.entries == before.entries,
    ensures
        before.wf() ==> after.wf(),
{
    if before.wf() {
        let b = before.categories@;
        let c = after.categories@;
        assert forall|i: int, j: int| 0 <= i < j < c.len() implies (#[trigger] c[i]).id@ != (#[trigger] c[j]).id@
            && lower(c[i].name@) != lower(c[j].name@) by {
            assert(renamed_one(b[i], c[i], tid, tname));
            assert(renamed_one(b[j], c[j], tid, tname));
            if b[i].id@ == tid && b[j].id@ != tid {
                assert(!(lower(b[j].name@) == lower(tname) && Some(tid) != Some(b[j].id@)));
            } else if b[j].id@ == tid && b[i].id@ != tid {
                assert(!(lower(b[i].name@) == lower(tname) && Some(tid) != Some(b[i].id@)));
            }
        }
        assert forall|k: int| 0 <= k < after.entries@.len() implies has_sprint(after.sprints@, (#[trigger] after.entries@[k]).sprint_id@)
            && has_category(c, after.entries@[k].category_id@) by {
            let w = choose|w: int| 0 <= w < b.len() && (#[trigger] b[w]).id@ == before.entries@[k].category_id@;
            assert(renamed_one(b[w], c[w], tid, tname));
        }
    }
}

proof fn lemma_rename_sprint_wf(before: Store, after: Store, tid: Seq<char>, tname: Seq<char>)
    requires
        after.sprints@.len() == before.sprints@.len(),
        forall|k: int|
            0 <= k < before.sprints@.len() ==> sprint_renamed(
                #[trigger] before.sprints@[k],
                after.sprints@[k],
                tid,
                tname,
            ),
        after.categories == before.categories,
        after.entries == before.entries,
    ensures
        before.wf() ==> after.wf(),
{
    if before.wf() {
        let b = before.sprints@;
        let c = after.sprints@;
        assert forall|i: int, j: int| 0 <= i < j < c.len() implies (#[trigger] c[i]).id@ != (#[trigger] c[j]).id@
            && c[i].code@ != c[j].code@ by {
            assert(sprint_renamed(b[i], c[i], tid, tname));
            assert(sprint_renamed(b[j], c[j], tid, tname));
        }
        assert forall|k: int| 0 <= k < after.entries@.len() implies has_sprint(c, (#[trigger] after.entries@[k]).sprint_id@)
            && has_category(after.categories@, after.entries@[k].category_id@) by {
            let w = choose|w: int| 0 <= w < b.len() && (#[trigger] b[w]).id@ == before.entries@[k].sprint_id@;
            assert(sprint_renamed(b[w], c[w], tid, tname));
        }
    }
}

proof fn lemma_defaults_wf(before: Store, after: Store, now: Seq<char>)
    requires
        before.categories@.len() == 0,
        is_default_set(after.categories@, now),
        after.sprints == before.sprints,
        after.entries == before.entries,
    ensures
        before.wf() ==> after.wf(),
{
    if before.wf() {
        reveal_strlit("pr-reviews");
        reveal_strlit("meeting");
        reveal_strlit("tasks");
        reveal_strlit("PR-Reviews");
        reveal_strlit("Meeting");
        reveal_strlit("Tasks");
        let c = after.categories@;
        assert(before.entries@.len() == 0) by {
            if before.entries@.len() > 0 {
                assert(has_category(before.categories@, before.entries@[0].category_id@));
            }
        }
        assert forall|i: int, j: int| 0 <= i < j < c.len() implies (#[trigger] c[i]).id@ != (#[trigger] c[j]).id@
            && lower(c[i].name@) != lower(c[j].name@) by {
            assert(c[i].id@.len() != c[j].id@.len());
            assert(lower(c[i].name@).len() != lower(c[j].name@).len());
        }
    }
}

proof fn lemma_renumber_wf(before: Store, after: Store, ord: Seq<int>)
    requires
        crate::codes::renumbered(before.sprints@, after.sprints@, ord),
        after.categories == before.categories,
        after.entries == before.entries,
    ensures
        before.wf() ==> after.wf(),
{
    if before.wf() {
        let b = before.sprints@;
        let c = after.sprints@;
        crate::codes::lemma_normalized_codes_distinct(b, c, ord);
        assert forall|i: int| 0 <= i < c.len() implies (#[trigger] c[i]).id == b[i].id by {
            assert(ord.contains(i));
            let k = choose|k: int| 0 <= k < ord.len() && ord[k] == i;
            assert(crate::codes::same_but_code(c[ord[k]], b[ord[k]]));
        }
        assert forall|i: int, j: int| 0 <= i < j < c.len() implies (#[trigger] c[i]).id@ != (#[trigger] c[j]).id@
            && c[i].code@ != c[j].code@ by {
            assert(c[i].id == b[i].id && c[j].id == b[j].id);
        }
        assert forall|k: int| 0 <= k < after.entries@.len() implies has_sprint(c, (#[trigger] after.entries@[k]).sprint_id@)
            && has_category(after.categories@, after.entries@[k].category_id@) by {
            let w = choose|w: int| 0 <= w < b.len() && (#[trigger] b[w]).id@ == before.entries@[k].sprint_id@;
            assert(c[w].id == b[w].id);
        }
    }
}

/// Adding a category with a new id and a name that no category has
/// (ignoring case) keeps the store's rules.
pub proof fn lemma_push_category_wf(before: Store, after: Store, c: Category)
    requires
        after.categories@ == before.categories@.push(c),
        !has_category(before.categories@, c.id@),
        !name_taken(before.categories@, c.name@, None),
        after.sprints == before.sprints,
        after.entries == before.entries,
    ensures
        before.wf() ==> after.wf(),
{
    if before.wf() {
        let (b, a) = (before.categories@, after.categories@);
        assert forall|i: int, j: int| 0 <= i < j < a.len() implies (#[trigger] a[i]).id@ != (#[trigger] a[j]).id@
            && lower(a[i].name@) != lower(a[j].name@) by {
            assert(a[i] == b[i]);
            if j < b.len() {
                assert(a[j] == b[j]);
            }
        }
        assert forall|k: int| 0 <= k < after.entries@.len() implies has_sprint(after.sprints@, (#[trigger] after.entries@[k]).sprint_id@)
            && has_category(a, after.entries@[k].category_id@) by {
            let w = choose|w: int| 0 <= w < b.len() && (#[trigger] b[w]).id@ == before.entries@[k].category_id@;
            assert(a[w] == b[w]);
        }
    }
}

/// Adding a sprint with a new id and a new code keeps the store's rules.
pub proof fn lemma_push_sprint_wf(before: Store, after: Store, t: Sprint)
    requires
        after.sprints@ == before.sprints@.push(t),
        !has_sprint(before.sprints@, t.id@),
        !has_code(before.sprints@, t.code@),
        after.categories == before.categories,
        after.entries == before.entries,
    ensures
        before.wf() ==> after.wf(),
{
    if before.wf() {
        let (b, a) = (before.sprints@, after.sprints@);
        assert forall|i: int, j: int| 0 <= i < j < a.len() implies (#[trigger] a[i]).id@ != (#[trigger] a[j]).id@
            && a[i].code@ != a[j].code@ by {
            assert(a[i] == b[i]);
            if j < b.len() {
                assert(a[j] == b[j]);
            }
        }
        assert forall|k: int| 0 <= k < after.entries@.len() implies has_sprint(a, (#[trigger] after.entries@[k]).sprint_id@)
            && has_category(after.categories@, after.entries@[k].category_id@) by {
            let w = choose|w: int| 0 <= w < b.len() && (#[trigger] b[w]).id@ == before.entries@[k].sprint_id@;
            assert(a[w] == b[w]);
        }
    }
}

/// Adding an entry with a new id, filed under a stored sprint and category,
/// keeps the store's rules.
pub proof fn lemma_push_entry_wf(before: Store, after: Store, e: DailyEntry)
    requires
        after.entries@ == before.entries@.push(e),
        !has_entry(before.entries@, e.id@),
        has_sprint(before.sprints@, e.sprint_id@),
        has_category(before.categories@, e.category_id@),
        after.categories == before.categories,
        after.sprints == before.sprints,
    ensures
        before.wf() ==> after.wf(),
{
    if before.wf() {
        let (b, a) = (before.entries@, after.entries@);
        assert forall|i: int, j: int| 0 <= i < j < a.len() implies (#[trigger] a[i]).id@ != (#[trigger] a[j]).id@ by {
            assert(a[i] == b[i]);
            if j < b.len() {
                assert(a[j] == b[j]);
            }
        }
        assert forall|k: int| 0 <= k < a.len() implies has_sprint(after.sprints@, (#[trigger] a[k]).sprint_id@)
            && has_category(after.categories@, a[k].category_id@) by {
            if k < b.len() {
                assert(a[k] == b[k]);
            }
        }
    }
}

} // verus!
