//! The one-time import of a legacy snapshot into an empty store.

use vstd::prelude::*;
use crate::codes::{code_text, format_sprint_code, normalize_sprint_codes, renumbered};
use crate::model::{copy_opt, AppData, Category, DailyEntry, Sprint};
use crate::store::{
    lemma_push_category_wf, lemma_push_entry_wf, lemma_push_sprint_wf,
    has_code,
    default_categories, is_default_set, find_category, find_entry, find_sprint,
    has_category, has_entry, has_sprint, name_taken, Store, StoreError,
};
use crate::text::{
    decimal, chars_of, humanize_category_id, humanized, is_blank, push_decimal, string_of,
    trim, trim_str,
};

verus! {

/// Seeds the default categories into a snapshot that has none.
pub fn ensure_default_categories(data: &mut AppData, now: &str)
    ensures
        old(data).categories@.len() > 0 ==> *final(data) == *old(data),
        old(data).categories@.len() == 0 ==> {
            &&& is_default_set(final(data).categories@, now@)
            &&& final(data).sprints == old(data).sprints
            &&& final(data).entries == old(data).entries
        },
{
    if data.categories.len() == 0 {
        data.categories = default_categories(now);
    }
}

/// Repairs the snapshot's sprint codes (see `normalize_sprint_codes`);
/// returns whether any code changed.
pub fn assign_missing_sprint_codes(data: &mut AppData) -> (changed: bool)
    requires
        old(data).sprints@.len() <= u32::MAX,
    ensures
        exists|ord: Seq<int>| renumbered(old(data).sprints@, final(data).sprints@, ord),
        changed == exists|j: int|
            0 <= j < old(data).sprints@.len() && (#[trigger] final(data).sprints@[j]).code@ != old(
                data,
            ).sprints@[j].code@,
        final(data).categories == old(data).categories,
        final(data).entries == old(data).entries,
{
    let ghost before = data.sprints@;
    let mut ss: Vec<Sprint> = Vec::new();
    std::mem::swap(&mut ss, &mut data.sprints);
    let changed = normalize_sprint_codes(&mut ss);
    let ghost ord = choose|ord: Seq<int>| renumbered(before, ss@, ord);
    assert(renumbered(before, ss@, ord));
    data.sprints = ss;
    assert(renumbered(old(data).sprints@, data.sprints@, ord));
    changed
}

pub open spec fn has_id(cats: Seq<Category>, id: Seq<char>) -> bool {
    exists|i: int| 0 <= i < cats.len() && (#[trigger] cats[i]).id@ == id
}

/// The trimmed category ids that the entries use and that neither `cats`
/// nor an earlier entry brings, in order of first use.
pub open spec fn missing_ids(cats: Seq<Category>, es: Seq<DailyEntry>) -> Seq<Seq<char>>
    decreases es.len(),
{
    if es.len() == 0 {
        Seq::empty()
    } else {
        let m = missing_ids(cats, es.drop_last());
        let t = trim(es.last().category_id@);
        if t.len() == 0 || has_id(cats, t) || m.contains(t) {
            m
        } else {
            m.push(t)
        }
    }
}

/// `added` are categories for the ids `ids`, named after them, created at
/// `now`.
pub open spec fn synthesized(added: Seq<Category>, ids: Seq<Seq<char>>, now: Seq<char>) -> bool {
    &&& added.len() == ids.len()
    &&& forall|i: int|
        0 <= i < ids.len() ==> {
            &&& (#[trigger] added[i]).id@ == ids[i]
            &&& added[i].name@ == humanized(ids[i])
            &&& added[i].created_at@ == now
        }
}

/// Adds a category for every id that an entry uses and no category has.
pub fn add_missing_categories(data: &mut AppData, now: &str)
    ensures
        ({
            let before = old(data).categories@;
            let n = before.len();
            &&& final(data).categories@.len() == n + missing_ids(before, old(data).entries@).len()
            &&& final(data).categories@.subrange(0, n as int) == before
            &&& synthesized(
                final(data).categories@.subrange(n as int, final(data).categories@.len() as int),
                missing_ids(before, old(data).entries@),
                now@,
            )
        }),
        final(data).sprints == old(data).sprints,
        final(data).entries == old(data).entries,
{
    let ghost before = data.categories@;
    let ghost es = data.entries@;
    let n = data.categories.len();
    let mut added: Vec<String> = Vec::new();
    let mut i: usize = 0;
    while i < data.entries.len()
        invariant
            i <= es.len(),
            data.entries@ == es,
            data.categories@ == before,
            data.sprints == old(data).sprints,
            n == before.len(),
            added@.len() == missing_ids(before, es.subrange(0, i as int)).len(),
            forall|k: int| 0 <= k < added@.len() ==> (#[trigger] added@[k])@ == missing_ids(
                before,
                es.subrange(0, i as int),
            )[k],
        decreases es.len() - i,
    {
        let ghost pre = es.subrange(0, i as int);
        assert(es.subrange(0, i + 1).drop_last() =~= pre);
        let t = trim_str(data.entries[i].category_id.as_str());
        if t.len() > 0 {
            let ts = string_of(&t);
            let known = find_category(&data.categories, ts.as_str()).is_some();
            let mut seen = false;
            let mut k: usize = 0;
            while k < added.len()
                invariant
                    k <= added@.len(),
                    ts@ == t@,
                    seen == exists|q: int| 0 <= q < k && (#[trigger] added@[q])@ == t@,
                decreases added@.len() - k,
            {
                if added[k] == ts {
                    assert((added@[k as int])@ == t@);
                    seen = true;
                }
                k = k + 1;
            }
            proof {
                let m = missing_ids(before, pre);
                if known {
                    let w = choose|w: int| 0 <= w < before.len() && before[w].id@ == t@;
                    assert(has_id(before, t@));
                }
                if !known {
                    assert(!has_id(before, t@));
                }
                if seen {
                    let q = choose|q: int| 0 <= q < added@.len() && (#[trigger] added@[q])@ == t@;
                    assert(m[q] == t@);
                    assert(m.contains(t@));
                }
                if m.contains(t@) {
                    let q = choose|q: int| 0 <= q < m.len() && m[q] == t@;
                    assert(added@[q]@ == t@);
                }
            }
            if !known && !seen {
                added.push(ts);
            }
        }
        i = i + 1;
    }
    assert(es.subrange(0, i as int) =~= es);
    let ghost ids = missing_ids(before, es);
    let mut k: usize = 0;
    while k < added.len()
        invariant
            k <= added@.len() == ids.len(),
            forall|q: int| 0 <= q < added@.len() ==> (#[trigger] added@[q])@ == ids[q],
            data.categories@.len() == n + k,
            data.categories@.subrange(0, n as int) == before,
            data.sprints == old(data).sprints,
            data.entries == old(data).entries,
            forall|q: int|
                0 <= q < k ==> {
                    &&& (#[trigger] data.categories@[n + q]).id@ == ids[q]
                    &&& data.categories@[n + q].name@ == humanized(ids[q])
                    &&& data.categories@[n + q].created_at@ == now@
                },
        decreases added@.len() - k,
    {
        let c = Category {
            id: added[k].clone(),
            name: humanize_category_id(added[k].as_str()),
            created_at: String::from_str(now),
        };
        data.categories.push(c);
        k = k + 1;
        assert(data.categories@.subrange(0, n as int) =~= before);
    }
    let ghost tail = data.categories@.subrange(n as int, data.categories@.len() as int);
    assert forall|q: int| 0 <= q < ids.len() implies {
        &&& (#[trigger] tail[q]).id@ == ids[q]
        &&& tail[q].name@ == humanized(ids[q])
        &&& tail[q].created_at@ == now@
    } by {
        assert(tail[q] == data.categories@[n + q]);
    }
}


/// The code a legacy sprint is stored under: its own, trimmed, or else one
/// made from `stamp`.
pub open spec fn imported_code(s: Sprint, stamp: nat) -> Seq<char> {
    if is_blank(s.code@) {
        code_text(stamp)
    } else {
        trim(s.code@)
    }
}

pub open spec fn imported_name(s: Sprint, stamp: nat) -> Seq<char> {
    if is_blank(s.name@) {
        imported_code(s, stamp)
    } else {
        trim(s.name@)
    }
}

pub open spec fn entry_fields_filled(e: DailyEntry) -> bool {
    !is_blank(e.sprint_id@) && !is_blank(e.category_id@) && !is_blank(e.title@) && !is_blank(e.date@)
}

pub open spec fn listed(ids: Seq<String>, id: Seq<char>) -> bool {
    exists|k: int| 0 <= k < ids.len() && (#[trigger] ids[k])@ == id
}

fn listed_exec(ids: &Vec<String>, id: &String) -> (r: bool)
    ensures
        r == listed(ids@, id@),
{
    let mut k: usize = 0;
    while k < ids.len()
        invariant
            k <= ids@.len(),
            forall|q: int| 0 <= q < k ==> (#[trigger] ids@[q])@ != id@,
        decreases ids@.len() - k,
    {
        if ids[k] == *id {
            assert(ids@[k as int]@ == id@);
            return true;
        }
        k = k + 1;
    }
    false
}

/// The categories taken in, row by row: a row is kept unless its id or name
/// is blank, or a kept row already has its id or (ignoring case) its name.
pub open spec fn category_pass(rows: Seq<Category>) -> Seq<Category>
    decreases rows.len(),
{
    if rows.len() == 0 {
        Seq::empty()
    } else {
        let acc = category_pass(rows.drop_last());
        let c = rows.last();
        if !is_blank(c.id@) && !is_blank(c.name@) && !has_category(acc, c.id@) && !name_taken(
            acc,
            c.name@,
            None,
        ) {
            acc.push(c)
        } else {
            acc
        }
    }
}

/// A legacy sprint is queued where its id and start date are not blank.
pub open spec fn sprint_queued(s: Sprint) -> bool {
    !is_blank(s.id@) && !is_blank(s.start_date@)
}

/// The positions of the sprints taken in: queued ones whose id and stored
/// code no earlier kept sprint has.
pub open spec fn sprint_pass(rows: Seq<Sprint>, stamp: nat) -> Seq<int>
    decreases rows.len(),
{
    if rows.len() == 0 {
        Seq::empty()
    } else {
        let prev = sprint_pass(rows.drop_last(), stamp);
        let s = rows.last();
        if sprint_queued(s) && !(exists|k: int|
            0 <= k < prev.len() && (#[trigger] rows[prev[k]]).id@ == s.id@) && !(exists|k: int|
            0 <= k < prev.len() && imported_code(#[trigger] rows[prev[k]], stamp) == imported_code(
                s,
                stamp,
            )) {
            prev.push(rows.len() - 1)
        } else {
            prev
        }
    }
}

/// `t` is legacy sprint `s` as stored.
pub open spec fn sprint_from(t: Sprint, s: Sprint, stamp: nat) -> bool {
    &&& t.id == s.id
    &&& t.code@ == imported_code(s, stamp)
    &&& t.name@ == imported_name(s, stamp)
    &&& t.start_date == s.start_date
    &&& t.end_date == s.end_date
    &&& t.created_at == s.created_at
}

/// The id made for the entry at `position` that has none.
pub open spec fn fresh_entry_id(stamp: nat, position: nat) -> Seq<char> {
    seq!['e', 'n', 't', 'r', 'y', '-', 'i', 'm', 'p', 'o', 'r', 't', '-'] + decimal(stamp) + seq!['-']
        + decimal(position)
}

/// The id an entry is stored under: its own, or a fresh one where blank.
pub open spec fn entry_id(e: DailyEntry, stamp: nat, position: int) -> Seq<char> {
    if is_blank(e.id@) {
        fresh_entry_id(stamp, position as nat)
    } else {
        e.id@
    }
}

/// The ids of the queued sprints, in order.
pub open spec fn queued_ids(ren: Seq<Sprint>) -> Seq<Seq<char>>
    decreases ren.len(),
{
    if ren.len() == 0 {
        Seq::empty()
    } else if sprint_queued(ren.last()) {
        queued_ids(ren.drop_last()).push(ren.last().id@)
    } else {
        queued_ids(ren.drop_last())
    }
}

pub open spec fn string_views(v: Seq<String>) -> Seq<Seq<char>> {
    v.map_values(|x: String| x@)
}

proof fn lemma_listed(v: Seq<String>, id: Seq<char>)
    ensures
        listed(v, id) == string_views(v).contains(id),
{
    if listed(v, id) {
        let k = choose|k: int| 0 <= k < v.len() && (#[trigger] v[k])@ == id;
        assert(string_views(v)[k] == id);
    }
    if string_views(v).contains(id) {
        let k = choose|k: int| 0 <= k < string_views(v).len() && string_views(v)[k] == id;
        assert(v[k]@ == id);
    }
}

pub open spec fn kept_sprint_id(ren: Seq<Sprint>, sel: Seq<int>, id: Seq<char>) -> bool {
    exists|k: int| 0 <= k < sel.len() && (#[trigger] ren[sel[k]]).id@ == id
}

/// The positions of the entries taken in, and whether the import fails: an
/// entry is wanted where its four fields are filled, its sprint was queued
/// and no earlier kept entry has its id; a wanted entry whose sprint or
/// category is not stored fails the import.
pub open spec fn entry_pass(
    es: Seq<DailyEntry>,
    stamp: nat,
    ren: Seq<Sprint>,
    sel: Seq<int>,
    cats: Seq<Category>,
) -> (Seq<int>, bool)
    decreases es.len(),
{
    if es.len() == 0 {
        (Seq::empty(), false)
    } else {
        let (prev, failed) = entry_pass(es.drop_last(), stamp, ren, sel, cats);
        let i = es.len() - 1;
        let e = es[i];
        if failed {
            (prev, true)
        } else {
            let id = entry_id(e, stamp, i);
            let taken = exists|k: int|
                0 <= k < prev.len() && entry_id(#[trigger] es[prev[k]], stamp, prev[k]) == id;
            if !(entry_fields_filled(e) && queued_ids(ren).contains(e.sprint_id@) && !taken) {
                (prev, false)
            } else if kept_sprint_id(ren, sel, e.sprint_id@) && has_category(cats, e.category_id@) {
                (prev.push(i), false)
            } else {
                (prev, true)
            }
        }
    }
}

/// `t` is legacy entry `e` as stored under `id`.
pub open spec fn entry_from(t: DailyEntry, e: DailyEntry, id: Seq<char>) -> bool {
    &&& t.id@ == id
    &&& t.sprint_id == e.sprint_id
    &&& t.date == e.date
    &&& t.category_id == e.category_id
    &&& t.title == e.title
    &&& t.details == e.details
    &&& t.created_at == e.created_at
}

/// The snapshot made ready for import: `c0` its categories or the default
/// set, `added` the categories made for ids that entries use, `ren` its
/// sprints with repaired codes.
pub open spec fn prepared(
    legacy: AppData,
    now: Seq<char>,
    c0: Seq<Category>,
    added: Seq<Category>,
    ren: Seq<Sprint>,
) -> bool {
    &&& legacy.categories@.len() > 0 ==> c0 == legacy.categories@
    &&& legacy.categories@.len() == 0 ==> is_default_set(c0, now)
    &&& synthesized(added, missing_ids(c0, legacy.entries@), now)
    &&& exists|ord: Seq<int>| renumbered(legacy.sprints@, ren, ord)
}

pub open spec fn import_fails(
    legacy: AppData,
    stamp: nat,
    c0: Seq<Category>,
    added: Seq<Category>,
    ren: Seq<Sprint>,
) -> bool {
    entry_pass(legacy.entries@, stamp, ren, sprint_pass(ren, stamp), category_pass(c0 + added)).1
}

/// `st` holds what importing the prepared snapshot gives.
pub open spec fn imported_as(
    st: Store,
    legacy: AppData,
    stamp: nat,
    c0: Seq<Category>,
    added: Seq<Category>,
    ren: Seq<Sprint>,
) -> bool {
    let sel = sprint_pass(ren, stamp);
    let ins = entry_pass(legacy.entries@, stamp, ren, sel, category_pass(c0 + added)).0;
    &&& !import_fails(legacy, stamp, c0, added, ren)
    &&& st.categories@ == category_pass(c0 + added)
    &&& st.sprints@.len() == sel.len()
    &&& forall|k: int| 0 <= k < sel.len() ==> sprint_from(#[trigger] st.sprints@[k], ren[sel[k]], stamp)
    &&& st.entries@.len() == ins.len()
    &&& forall|k: int|
        0 <= k < ins.len() ==> entry_from(
            #[trigger] st.entries@[k],
            legacy.entries@[ins[k]],
            entry_id(legacy.entries@[ins[k]], stamp, ins[k]),
        )
}

/// The stored sprints `ws` are the legacy sprints at positions `sel`, each
/// position below `bound`.
pub open spec fn sprints_match(ws: Seq<Sprint>, ren: Seq<Sprint>, sel: Seq<int>, stamp: nat, bound: int) -> bool {
    &&& ws.len() == sel.len()
    &&& forall|k: int| 0 <= k < ws.len() ==> 0 <= sel[k] < bound && sprint_from(#[trigger] ws[k], ren[sel[k]], stamp)
}

proof fn lemma_sprint_step(ren: Seq<Sprint>, i: int, stamp: nat, w: Seq<Sprint>, after: Seq<Sprint>)
    requires
        0 <= i < ren.len(),
        sprints_match(w, ren, sprint_pass(ren.subrange(0, i), stamp), stamp, i),
        ({
            let s = ren[i];
            let inserted = sprint_queued(s) && !has_sprint(w, s.id@) && !has_code(w, imported_code(s, stamp));
            &&& inserted ==> exists|t: Sprint| after == w.push(t) && sprint_from(t, s, stamp)
            &&& !inserted ==> after == w
        }),
    ensures
        sprints_match(after, ren, sprint_pass(ren.subrange(0, i + 1), stamp), stamp, i + 1),
{
    let rows = ren.subrange(0, i + 1);
    let prev = sprint_pass(ren.subrange(0, i), stamp);
    let sr = ren[i];
    assert(rows.drop_last() =~= ren.subrange(0, i));
    assert(rows.last() == sr);
    assert forall|k: int| 0 <= k < prev.len() implies #[trigger] rows[prev[k]] == ren[prev[k]] by {
        assert(sprint_from(w[k], ren[prev[k]], stamp));
    }
    let c1 = exists|k: int| 0 <= k < prev.len() && (#[trigger] rows[prev[k]]).id@ == sr.id@;
    let c2 = exists|k: int| 0 <= k < prev.len() && imported_code(#[trigger] rows[prev[k]], stamp) == imported_code(sr, stamp);
    if has_sprint(w, sr.id@) {
        let k = choose|k: int| 0 <= k < w.len() && (#[trigger] w[k]).id@ == sr.id@;
        assert(sprint_from(w[k], ren[prev[k]], stamp));
        assert(rows[prev[k]].id@ == sr.id@);
    }
    if c1 {
        let k = choose|k: int| 0 <= k < prev.len() && (#[trigger] rows[prev[k]]).id@ == sr.id@;
        assert(sprint_from(w[k], ren[prev[k]], stamp));
        assert(w[k].id@ == sr.id@);
    }
    if has_code(w, imported_code(sr, stamp)) {
        let k = choose|k: int| 0 <= k < w.len() && (#[trigger] w[k]).code@ == imported_code(sr, stamp);
        assert(sprint_from(w[k], ren[prev[k]], stamp));
        assert(imported_code(rows[prev[k]], stamp) == imported_code(sr, stamp));
    }
    if c2 {
        let k = choose|k: int| 0 <= k < prev.len() && imported_code(#[trigger] rows[prev[k]], stamp) == imported_code(sr, stamp);
        assert(sprint_from(w[k], ren[prev[k]], stamp));
        assert(w[k].code@ == imported_code(sr, stamp));
    }
    let cur = sprint_pass(rows, stamp);
    let inserted = sprint_queued(sr) && !has_sprint(w, sr.id@) && !has_code(w, imported_code(sr, stamp));
    if inserted {
        let t = choose|t: Sprint| after == w.push(t) && sprint_from(t, sr, stamp);
        assert(cur == prev.push(i));
        assert forall|k: int| 0 <= k < after.len() implies 0 <= cur[k] < i + 1 && sprint_from(#[trigger] after[k], ren[cur[k]], stamp) by {
            if k < prev.len() {
                assert(after[k] == w[k]);
                assert(cur[k] == prev[k]);
                assert(sprint_from(w[k], ren[prev[k]], stamp));
            } else {
                assert(after[k] == t);
            }
        }
    } else {
        assert(cur == prev);
        assert forall|k: int| 0 <= k < after.len() implies 0 <= cur[k] < i + 1 && sprint_from(#[trigger] after[k], ren[cur[k]], stamp) by {
            assert(sprint_from(w[k], ren[prev[k]], stamp));
        }
    }
    assert(after.len() == cur.len());
    assert(cur == sprint_pass(ren.subrange(0, i + 1), stamp));
    assert forall|k: int| 0 <= k < after.len() implies 0 <= #[trigger] cur[k] && cur[k] < i + 1 by {
        if k < prev.len() {
            assert(sprint_from(w[k], ren[prev[k]], stamp));
            assert(0 <= prev[k] < i);
        }
    }
}

/// The stored entries `ws` are the legacy entries at positions `ins`, each
/// position below `bound`, under the ids they are stored with.
pub open spec fn entries_match(ws: Seq<DailyEntry>, es: Seq<DailyEntry>, ins: Seq<int>, stamp: nat, bound: int) -> bool {
    &&& ws.len() == ins.len()
    &&& forall|k: int|
        0 <= k < ws.len() ==> 0 <= ins[k] && ins[k] < bound && entry_from(
            #[trigger] ws[k],
            es[ins[k]],
            entry_id(es[ins[k]], stamp, ins[k]),
        )
}

proof fn lemma_entry_step(
    es: Seq<DailyEntry>,
    i: int,
    stamp: nat,
    ren: Seq<Sprint>,
    sel: Seq<int>,
    cats: Seq<Category>,
    sp: Seq<Sprint>,
    w: Seq<DailyEntry>,
    after: Seq<DailyEntry>,
    ok: bool,
)
    requires
        0 <= i < es.len(),
        !entry_pass(es.subrange(0, i), stamp, ren, sel, cats).1,
        entries_match(w, es, entry_pass(es.subrange(0, i), stamp, ren, sel, cats).0, stamp, i),
        sprints_match(sp, ren, sel, stamp, ren.len() as int),
        ({
            let e = es[i];
            let id = entry_id(e, stamp, i);
            let wanted = entry_fields_filled(e) && queued_ids(ren).contains(e.sprint_id@) && !has_entry(w, id);
            let linked = has_sprint(sp, e.sprint_id@) && has_category(cats, e.category_id@);
            &&& !wanted ==> ok && after == w
            &&& wanted && linked ==> ok && exists|t: DailyEntry| after == w.push(t) && entry_from(t, e, id)
            &&& wanted && !linked ==> !ok
        }),
    ensures
        ok ==> !entry_pass(es.subrange(0, i + 1), stamp, ren, sel, cats).1 && entries_match(
            after,
            es,
            entry_pass(es.subrange(0, i + 1), stamp, ren, sel, cats).0,
            stamp,
            i + 1,
        ),
        !ok ==> entry_pass(es.subrange(0, i + 1), stamp, ren, sel, cats).1,
{
    let rows = es.subrange(0, i + 1);
    let prev = entry_pass(es.subrange(0, i), stamp, ren, sel, cats).0;
    let e = es[i];
    let id = entry_id(e, stamp, i);
    assert(rows.drop_last() =~= es.subrange(0, i));
    assert(rows.last() == e);
    assert forall|k: int| 0 <= k < prev.len() implies #[trigger] rows[prev[k]] == es[prev[k]] by {
        assert(entry_from(w[k], es[prev[k]], entry_id(es[prev[k]], stamp, prev[k])));
        assert(0 <= prev[k] && prev[k] < i);
    }
    let taken = exists|k: int| 0 <= k < prev.len() && entry_id(#[trigger] rows[prev[k]], stamp, prev[k]) == id;
    if has_entry(w, id) {
        let k = choose|k: int| 0 <= k < w.len() && (#[trigger] w[k]).id@ == id;
        assert(entry_from(w[k], es[prev[k]], entry_id(es[prev[k]], stamp, prev[k])));
        assert(entry_id(rows[prev[k]], stamp, prev[k]) == id);
    }
    if taken {
        let k = choose|k: int| 0 <= k < prev.len() && entry_id(#[trigger] rows[prev[k]], stamp, prev[k]) == id;
        assert(entry_from(w[k], es[prev[k]], entry_id(es[prev[k]], stamp, prev[k])));
        assert(w[k].id@ == id);
    }
    if has_sprint(sp, e.sprint_id@) {
        let k = choose|k: int| 0 <= k < sp.len() && (#[trigger] sp[k]).id@ == e.sprint_id@;
        assert(sprint_from(sp[k], ren[sel[k]], stamp));
        assert(kept_sprint_id(ren, sel, e.sprint_id@));
    }
    if kept_sprint_id(ren, sel, e.sprint_id@) {
        let k = choose|k: int| 0 <= k < sel.len() && (#[trigger] ren[sel[k]]).id@ == e.sprint_id@;
        assert(sprint_from(sp[k], ren[sel[k]], stamp));
        assert(sp[k].id@ == e.sprint_id@);
    }
    let cur = entry_pass(rows, stamp, ren, sel, cats).0;
    let wanted = entry_fields_filled(e) && queued_ids(ren).contains(e.sprint_id@) && !has_entry(w, id);
    let linked = has_sprint(sp, e.sprint_id@) && has_category(cats, e.category_id@);
    assert(wanted == (entry_fields_filled(e) && queued_ids(ren).contains(e.sprint_id@) && !taken));
    assert(linked == (kept_sprint_id(ren, sel, e.sprint_id@) && has_category(cats, e.category_id@)));
    if ok {
        assert(!entry_pass(rows, stamp, ren, sel, cats).1);
        if wanted {
            assert(linked);
            assert(cur == prev.push(i));
        } else {
            assert(cur == prev);
        }
        assert(after.len() == cur.len());
        assert forall|k: int| 0 <= k < after.len() implies 0 <= cur[k] && cur[k] < i + 1 && entry_from(
            #[trigger] after[k],
            es[cur[k]],
            entry_id(es[cur[k]], stamp, cur[k]),
        ) by {
            if k < prev.len() {
                if wanted {
                    let t = choose|t: DailyEntry| after == w.push(t) && entry_from(t, e, id);
                    assert(after[k] == w[k]);
                }
                assert(cur[k] == prev[k]);
                assert(entry_from(w[k], es[prev[k]], entry_id(es[prev[k]], stamp, prev[k])));
                assert(0 <= prev[k] && prev[k] < i);
            } else {
                let t = choose|t: DailyEntry| after == w.push(t) && entry_from(t, e, id);
                assert(after[k] == t);
                assert(cur[k] == i);
            }
        }
        assert forall|k: int| 0 <= k < after.len() implies 0 <= #[trigger] cur[k] && cur[k] < i + 1 by {
            if k < prev.len() {
                assert(cur[k] == prev[k]);
                assert(entry_from(w[k], es[prev[k]], entry_id(es[prev[k]], stamp, prev[k])));
                assert(0 <= prev[k] && prev[k] < i);
            } else {
                assert(cur[k] == i);
            }
        }
        assert(entries_match(after, es, cur, stamp, i + 1));
    }
}

proof fn lemma_sprint_pass_range(rows: Seq<Sprint>, stamp: nat)
    ensures
        forall|k: int| 0 <= k < sprint_pass(rows, stamp).len() ==> 0 <= #[trigger] sprint_pass(rows, stamp)[k] < rows.len(),
    decreases rows.len(),
{
    if rows.len() > 0 {
        lemma_sprint_pass_range(rows.drop_last(), stamp);
        let prev = sprint_pass(rows.drop_last(), stamp);
        let cur = sprint_pass(rows, stamp);
        assert forall|k: int| 0 <= k < cur.len() implies 0 <= #[trigger] cur[k] < rows.len() by {
            if k < prev.len() {
                assert(cur[k] == prev[k]);
            }
        }
    }
}

proof fn lemma_entry_pass_range(es: Seq<DailyEntry>, stamp: nat, ren: Seq<Sprint>, sel: Seq<int>, cats: Seq<Category>)
    ensures
        forall|k: int|
            0 <= k < entry_pass(es, stamp, ren, sel, cats).0.len() ==> 0 <= #[trigger] entry_pass(
                es,
                stamp,
                ren,
                sel,
                cats,
            ).0[k] < es.len(),
    decreases es.len(),
{
    if es.len() > 0 {
        lemma_entry_pass_range(es.drop_last(), stamp, ren, sel, cats);
        let prev = entry_pass(es.drop_last(), stamp, ren, sel, cats).0;
        let cur = entry_pass(es, stamp, ren, sel, cats).0;
        assert forall|k: int| 0 <= k < cur.len() implies 0 <= #[trigger] cur[k] < es.len() by {
            if k < prev.len() {
                assert(cur[k] == prev[k]);
            }
        }
    }
}

proof fn lemma_entry_pass_fails_on(es: Seq<DailyEntry>, n: int, stamp: nat, ren: Seq<Sprint>, sel: Seq<int>, cats: Seq<Category>)
    requires
        0 <= n <= es.len(),
        entry_pass(es.subrange(0, n), stamp, ren, sel, cats).1,
    ensures
        entry_pass(es, stamp, ren, sel, cats).1,
    decreases es.len() - n,
{
    if n < es.len() {
        assert(es.subrange(0, n + 1).drop_last() =~= es.subrange(0, n));
        lemma_entry_pass_fails_on(es, n + 1, stamp, ren, sel, cats);
    } else {
        assert(es.subrange(0, n) =~= es);
    }
}

impl Store {
    /// Takes in a legacy category unless its id or name is blank, or a stored
    /// category already has its id or (ignoring case) its name.
    pub fn import_category(&mut self, c: &Category) -> (added: bool)
        ensures
            added == (!is_blank(c.id@) && !is_blank(c.name@) && !has_category(
                old(self).categories@,
                c.id@,
            ) && !name_taken(old(self).categories@, c.name@, None)),
            added ==> final(self).categories@ == old(self).categories@.push(*c),
            !added ==> final(self).categories == old(self).categories,
            final(self).sprints == old(self).sprints,
            final(self).entries == old(self).entries,
            old(self).wf() ==> final(self).wf(),
    {
        if trim_str(c.id.as_str()).len() == 0 || trim_str(c.name.as_str()).len() == 0 {
            return false;
        }
        if find_category(&self.categories, c.id.as_str()).is_some() {
            return false;
        }
        let name = chars_of(c.name.as_str());
        if crate::store::name_taken_exec(&self.categories, &name, None) {
            return false;
        }
        let ghost before = *self;
        self.categories.push(c.copied());
        proof {
            lemma_push_category_wf(before, *self, *c);
        }
        true
    }

    /// Takes in a legacy sprint unless its id or start date is blank (then it
    /// is not queued). Its code is trimmed, or made from `stamp` where blank,
    /// and its name trimmed, or its code where blank. A stored sprint with the
    /// same id or code keeps its place and the new one is dropped. Returns
    /// whether the sprint was queued.
    pub fn import_sprint(&mut self, s: &Sprint, stamp: u64) -> (queued: bool)
        ensures
            queued == (!is_blank(s.id@) && !is_blank(s.start_date@)),
            ({
                let inserted = queued && !has_sprint(old(self).sprints@, s.id@) && !has_code(
                    old(self).sprints@,
                    imported_code(*s, stamp as nat),
                );
                &&& inserted ==> exists|t: Sprint|
                    {
                        &&& final(self).sprints@ == old(self).sprints@.push(t)
                        &&& t.id == s.id
                        &&& t.code@ == imported_code(*s, stamp as nat)
                        &&& t.name@ == imported_name(*s, stamp as nat)
                        &&& t.start_date == s.start_date
                        &&& t.end_date == s.end_date
                        &&& t.created_at == s.created_at
                    }
                &&& !inserted ==> final(self).sprints == old(self).sprints
            }),
            final(self).categories == old(self).categories,
            final(self).entries == old(self).entries,
            old(self).wf() ==> final(self).wf(),
    {
        if trim_str(s.id.as_str()).len() == 0 || trim_str(s.start_date.as_str()).len() == 0 {
            return false;
        }
        let tc = trim_str(s.code.as_str());
        let code = if tc.len() == 0 {
            format_sprint_code(stamp)
        } else {
            string_of(&tc)
        };
        let tn = trim_str(s.name.as_str());
        let name = if tn.len() == 0 {
            code.clone()
        } else {
            string_of(&tn)
        };
        if find_sprint(&self.sprints, s.id.as_str()).is_some() || crate::store::find_code(
            &self.sprints,
            &code,
        ) {
            return true;
        }
        let t = Sprint {
            id: s.id.clone(),
            code,
            name,
            start_date: s.start_date.clone(),
            end_date: copy_opt(&s.end_date),
            created_at: s.created_at.clone(),
        };
        let ghost before = *self;
        let ghost tt = t;
        self.sprints.push(t);
        proof {
            lemma_push_sprint_wf(before, *self, tt);
        }
        true
    }

    /// Takes in a legacy entry of a queued sprint, with `fresh_id` where its
    /// own id is blank. Entries with a blank sprint, category, title or date,
    /// or of a sprint that was not queued, are skipped; so is one whose id is
    /// stored already. An entry whose sprint or category is not stored makes
    /// the import fail.
    pub fn import_entry(&mut self, e: &DailyEntry, queued: &Vec<String>, fresh_id: &String) -> (r: Result<
        bool,
        StoreError,
    >)
        ensures
            ({
                let id = if is_blank(e.id@) {
                    fresh_id@
                } else {
                    e.id@
                };
                let wanted = entry_fields_filled(*e) && listed(queued@, e.sprint_id@) && !has_entry(
                    old(self).entries@,
                    id,
                );
                let linked = has_sprint(old(self).sprints@, e.sprint_id@) && has_category(
                    old(self).categories@,
                    e.category_id@,
                );
                &&& !wanted ==> r == Ok::<bool, StoreError>(false)
                &&& wanted && !linked ==> (r matches Err(StoreError::Import(_)))
                &&& wanted && linked ==> r == Ok::<bool, StoreError>(true) && exists|t: DailyEntry|
                    {
                        &&& final(self).entries@ == old(self).entries@.push(t)
                        &&& t.id@ == id
                        &&& t.sprint_id == e.sprint_id
                        &&& t.date == e.date
                        &&& t.category_id == e.category_id
                        &&& t.title == e.title
                        &&& t.details == e.details
                        &&& t.created_at == e.created_at
                    }
                &&& r != Ok::<bool, StoreError>(true) ==> final(self).entries == old(self).entries
            }),
            final(self).categories == old(self).categories,
            final(self).sprints == old(self).sprints,
            old(self).wf() ==> final(self).wf(),
    {
        if trim_str(e.sprint_id.as_str()).len() == 0 || trim_str(e.category_id.as_str()).len() == 0
            || trim_str(e.title.as_str()).len() == 0 || trim_str(e.date.as_str()).len() == 0 {
            return Ok(false);
        }
        if !listed_exec(queued, &e.sprint_id) {
            return Ok(false);
        }
        let id = if trim_str(e.id.as_str()).len() == 0 {
            fresh_id.clone()
        } else {
            e.id.clone()
        };
        if find_entry(&self.entries, id.as_str()) {
            return Ok(false);
        }
        if find_sprint(&self.sprints, e.sprint_id.as_str()).is_none() || find_category(
            &self.categories,
            e.category_id.as_str(),
        ).is_none() {
            return Err(StoreError::Import(String::from_str("an entry refers to a missing sprint or category")));
        }
        let t = DailyEntry {
            id,
            sprint_id: e.sprint_id.clone(),
            date: e.date.clone(),
            category_id: e.category_id.clone(),
            title: e.title.clone(),
            details: copy_opt(&e.details),
            created_at: e.created_at.clone(),
        };
        let ghost before = *self;
        let ghost tt = t;
        self.entries.push(t);
        proof {
            lemma_push_entry_wf(before, *self, tt);
        }
        Ok(true)
    }

    /// Imports a legacy snapshot, only into an empty store. The snapshot gets
    /// the default categories where it has none, its sprint codes repaired,
    /// and a category for every id its entries use that no category has;
    /// then categories, sprints and entries are taken in, in that order
    /// (see `import_category`, `import_sprint`, `import_entry`). Entries
    /// without an id get `entry-import-<stamp>-<position>`. Either all of it
    /// is taken in or, on failure, nothing. Returns whether it ran.
    pub fn import_legacy(&mut self, legacy: AppData, stamp: u64, now: &str) -> (r: Result<
        bool,
        StoreError,
    >)
        ensures
            !old(self).is_empty_spec() ==> r == Ok::<bool, StoreError>(false) && *final(self) == *old(
                self,
            ),
            old(self).is_empty_spec() ==> r != Ok::<bool, StoreError>(false),
            r is Err ==> (r matches Err(StoreError::Import(_))) && *final(self) == *old(self) && (
            legacy.sprints@.len() > u32::MAX || exists|
                c0: Seq<Category>,
                added: Seq<Category>,
                ren: Seq<Sprint>,
            |
                #[trigger] prepared(legacy, now@, c0, added, ren) && import_fails(
                    legacy,
                    stamp as nat,
                    c0,
                    added,
                    ren,
                )),
            old(self).is_empty_spec() && legacy.sprints@.len() <= u32::MAX && (forall|
                c0: Seq<Category>,
                added: Seq<Category>,
                ren: Seq<Sprint>,
            |
                #[trigger] prepared(legacy, now@, c0, added, ren) ==> !import_fails(
                    legacy,
                    stamp as nat,
                    c0,
                    added,
                    ren,
                )) ==> r == Ok::<bool, StoreError>(true),
            r == Ok::<bool, StoreError>(true) ==> final(self).wf() && exists|
                c0: Seq<Category>,
                added: Seq<Category>,
                ren: Seq<Sprint>,
            |
                #[trigger] prepared(legacy, now@, c0, added, ren) && imported_as(
                    *final(self),
                    legacy,
                    stamp as nat,
                    c0,
                    added,
                    ren,
                ),
    {
        if !self.is_empty() {
            return Ok(false);
        }
        if legacy.sprints.len() > 4294967295 {
            return Err(StoreError::Import(String::from_str("the snapshot holds too many sprints")));
        }
        let ghost lg = legacy;
        let mut data = legacy;
        ensure_default_categories(&mut data, now);
        let ghost c0 = data.categories@;
        assign_missing_sprint_codes(&mut data);
        let ghost ren = data.sprints@;
        add_missing_categories(&mut data, now);
        let ghost added = data.categories@.subrange(c0.len() as int, data.categories@.len() as int);
        assert(data.categories@.subrange(0, c0.len() as int) == c0);
        assert forall|k: int| 0 <= k < data.categories@.len() implies #[trigger] data.categories@[k] == (c0 + added)[k] by {
            if k < c0.len() {
                assert(data.categories@.subrange(0, c0.len() as int)[k] == data.categories@[k]);
            }
        }
        assert(data.categories@ =~= c0 + added);
        assert(prepared(lg, now@, c0, added, ren));
        let ghost cats = data.categories@;
        let ghost es = data.entries@;
        assert(es == lg.entries@);
        let mut work = Store::new();
        let mut i: usize = 0;
        while i < data.categories.len()
            invariant
                i <= cats.len(),
                data.categories@ == cats,
                cats == c0 + added,
                prepared(lg, now@, c0, added, ren),
                data.sprints@ == ren,
                es == lg.entries@,
                data.entries@ == es,
                work.wf(),
                work.categories@ == category_pass(cats.subrange(0, i as int)),
                work.sprints@.len() == 0,
                work.entries@.len() == 0,
            decreases cats.len() - i,
        {
            assert(cats.subrange(0, i + 1).drop_last() =~= cats.subrange(0, i as int));
            work.import_category(&data.categories[i]);
            i = i + 1;
        }
        assert(cats.subrange(0, i as int) =~= cats);
        let ghost catsf = work.categories@;
        assert(catsf == category_pass(c0 + added));
        let mut queued: Vec<String> = Vec::new();
        let mut i: usize = 0;
        while i < data.sprints.len()
            invariant
                i <= ren.len(),
                lg == legacy,
                data.sprints@ == ren,
                catsf == category_pass(c0 + added),
                prepared(lg, now@, c0, added, ren),
                es == lg.entries@,
                data.entries@ == es,
                work.wf(),
                work.categories@ == catsf,
                work.entries@.len() == 0,
                sprints_match(work.sprints@, ren, sprint_pass(ren.subrange(0, i as int), stamp as nat), stamp as nat, i as int),
                string_views(queued@) == queued_ids(ren.subrange(0, i as int)),
            decreases ren.len() - i,
        {
            let ghost w = work.sprints@;
            let ghost sr = ren[i as int];
            let ghost oq = queued@;
            let q = work.import_sprint(&data.sprints[i], stamp);
            if q {
                queued.push(data.sprints[i].id.clone());
            }
            proof {
                if sprint_queued(sr) && !has_sprint(w, sr.id@) && !has_code(w, imported_code(sr, stamp as nat)) {
                    let t = choose|t: Sprint| {
                        &&& work.sprints@ == w.push(t)
                        &&& t.id == sr.id
                        &&& t.code@ == imported_code(sr, stamp as nat)
                        &&& t.name@ == imported_name(sr, stamp as nat)
                        &&& t.start_date == sr.start_date
                        &&& t.end_date == sr.end_date
                        &&& t.created_at == sr.created_at
                    };
                    assert(sprint_from(t, sr, stamp as nat));
                }
                lemma_sprint_step(ren, i as int, stamp as nat, w, work.sprints@);
                let rows = ren.subrange(0, i + 1);
                assert(rows.drop_last() =~= ren.subrange(0, i as int));
                assert(rows.last() == sr);
                assert(string_views(queued@) =~= queued_ids(rows));
            }
            i = i + 1;
        }
        assert(ren.subrange(0, i as int) =~= ren);
        let ghost sel = sprint_pass(ren, stamp as nat);
        let ghost sp = work.sprints@;
        let mut i: usize = 0;
        while i < data.entries.len()
            invariant
                i <= es.len(),
                lg == legacy,
                data.entries@ == es,
                es == lg.entries@,
                catsf == category_pass(c0 + added),
                sel == sprint_pass(ren, stamp as nat),
                prepared(lg, now@, c0, added, ren),
                *self == *old(self),
                old(self).is_empty_spec(),
                work.wf(),
                work.categories@ == catsf,
                work.sprints@ == sp,
                sprints_match(sp, ren, sel, stamp as nat, ren.len() as int),
                string_views(queued@) == queued_ids(ren),
                !entry_pass(es.subrange(0, i as int), stamp as nat, ren, sel, catsf).1,
                entries_match(work.entries@, es, entry_pass(es.subrange(0, i as int), stamp as nat, ren, sel, catsf).0, stamp as nat, i as int),
            decreases es.len() - i,
        {
            let mut fresh: Vec<char> = vec!['e', 'n', 't', 'r', 'y', '-', 'i', 'm', 'p', 'o', 'r', 't', '-'];
            push_decimal(&mut fresh, stamp);
            fresh.push('-');
            push_decimal(&mut fresh, i as u64);
            let fresh = string_of(&fresh);
            assert(fresh@ =~= fresh_entry_id(stamp as nat, i as nat));
            let ghost w = work.entries@;
            let ghost e = es[i as int];
            let ghost id = entry_id(e, stamp as nat, i as int);
            proof {
                lemma_listed(queued@, e.sprint_id@);
            }
            let res = work.import_entry(&data.entries[i], &queued, &fresh);
            proof {
                let wanted = entry_fields_filled(e) && queued_ids(ren).contains(e.sprint_id@) && !has_entry(w, id);
                let linked = has_sprint(sp, e.sprint_id@) && has_category(catsf, e.category_id@);
                if wanted && linked {
                    let t = choose|t: DailyEntry| {
                        &&& work.entries@ == w.push(t)
                        &&& t.id@ == id
                        &&& t.sprint_id == e.sprint_id
                        &&& t.date == e.date
                        &&& t.category_id == e.category_id
                        &&& t.title == e.title
                        &&& t.details == e.details
                        &&& t.created_at == e.created_at
                    };
                    assert(entry_from(t, e, id));
                }
                lemma_entry_step(es, i as int, stamp as nat, ren, sel, catsf, sp, w, work.entries@, res is Ok);
            }
            match res {
                Err(x) => {
                    proof {
                        lemma_entry_pass_fails_on(es, i + 1, stamp as nat, ren, sel, catsf);
                        assert(import_fails(lg, stamp as nat, c0, added, ren));
                    }
                    return Err(x);
                },
                Ok(_) => {},
            }
            i = i + 1;
        }
        assert(es.subrange(0, i as int) =~= es);
        proof {
            let ins = entry_pass(es, stamp as nat, ren, sel, catsf).0;
            assert forall|k: int| 0 <= k < ins.len() implies entry_from(
                #[trigger] work.entries@[k],
                es[ins[k]],
                entry_id(es[ins[k]], stamp as nat, ins[k]),
            ) by {
                assert(entry_from(work.entries@[k], es[ins[k]], entry_id(es[ins[k]], stamp as nat, ins[k])));
            }
            assert forall|k: int| 0 <= k < sel.len() implies sprint_from(#[trigger] work.sprints@[k], ren[sel[k]], stamp as nat) by {
                assert(sprint_from(sp[k], ren[sel[k]], stamp as nat));
            }
        }
        assert(imported_as(work, lg, stamp as nat, c0, added, ren));
        *self = work;
        Ok(true)
    }
}

} // verus!
