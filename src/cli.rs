//! The texts that the terminal browser shows: sprint labels, the sprint
//! summary, the entries of one day and of the whole sprint, and line limits.

use vstd::prelude::*;
use crate::model::{Category, DailyEntry, Sprint};
use crate::report::{
    bullet, bullet_text, in_order, is_row_order, label_for, label_of, row_order, ReportRow,
};
use crate::text::{lemma_seq_lt_transitive, lemma_seq_lt_total, lemma_seq_lt_irreflexive, str_eq, str_lt, chars_of, decimal, is_blank, lower, lower_chars, chars_eq, push_decimal, seq_lt, string_of, trim_str};

verus! {

/// How a sprint is named in lists: its code where the name is blank, its
/// name where the code is blank or equal to it ignoring case, else
/// `<code> - <name>`.
pub open spec fn label_text(s: Sprint) -> Seq<char> {
    if is_blank(s.name@) {
        s.code@
    } else if is_blank(s.code@) || lower(s.code@) == lower(s.name@) {
        s.name@
    } else {
        s.code@ + " - "@ + s.name@
    }
}

pub fn sprint_label(sprint: &Sprint) -> (r: String)
    ensures
        r@ == label_text(*sprint),
{
    if trim_str(sprint.name.as_str()).len() == 0 {
        return sprint.code.clone();
    }
    let lc = lower_chars(&chars_of(sprint.code.as_str()));
    let ln = lower_chars(&chars_of(sprint.name.as_str()));
    if trim_str(sprint.code.as_str()).len() == 0 || chars_eq(&lc, &ln) {
        sprint.name.clone()
    } else {
        let mut out = sprint.code.clone();
        out.append(" - ");
        out.append(sprint.name.as_str());
        out
    }
}

pub open spec fn views(v: Seq<String>) -> Seq<Seq<char>> {
    v.map_values(|x: String| x@)
}

/// The note that stands for `n` lines left out.
pub open spec fn omitted_note(n: nat) -> Seq<char> {
    "... ("@ + decimal(n) + " more lines not shown)"@
}

/// The first `limit` lines, then a note of how many were left out, where
/// there are more than `limit`.
pub open spec fn truncated(ls: Seq<Seq<char>>, limit: nat) -> Seq<Seq<char>> {
    if ls.len() <= limit {
        ls
    } else {
        ls.subrange(0, limit as int).push(omitted_note((ls.len() - limit) as nat))
    }
}

/// Keeps the first `limit` lines and notes how many more there were.
pub fn truncate_lines(lines: Vec<String>, limit: usize) -> (r: Vec<String>)
    ensures
        views(r@) == truncated(views(lines@), limit as nat),
{
    if lines.len() <= limit {
        return lines;
    }
    let omitted = lines.len() - limit;
    let mut out: Vec<String> = Vec::new();
    let mut i: usize = 0;
    while i < limit
        invariant
            i <= limit < lines@.len(),
            out@ == lines@.subrange(0, i as int),
        decreases limit - i,
    {
        out.push(lines[i].clone());
        i = i + 1;
        assert(out@ =~= lines@.subrange(0, i as int));
    }
    let mut digits: Vec<char> = Vec::new();
    push_decimal(&mut digits, omitted as u64);
    let mut note = String::from_str("... (");
    note.append(string_of(&digits).as_str());
    note.append(" more lines not shown)");
    out.push(note);
    assert(views(out@) =~= truncated(views(lines@), limit as nat));
    out
}

/// The text cut after each `\n`, each piece keeping its `\n`, as
/// `str::split_inclusive` cuts it.
pub open spec fn pieces(s: Seq<char>) -> Seq<Seq<char>>
    decreases s.len(),
{
    if s.len() == 0 {
        Seq::empty()
    } else {
        let r = pieces(s.drop_last());
        let c = s.last();
        if r.len() > 0 && r.last().last() != '\n' {
            r.drop_last().push(r.last().push(c))
        } else {
            r.push(seq![c])
        }
    }
}

/// A piece without its `\n`, and without a `\r` just before that.
pub open spec fn strip_line(p: Seq<char>) -> Seq<char> {
    if p.len() > 0 && p.last() == '\n' {
        let t = p.drop_last();
        if t.len() > 0 && t.last() == '\r' {
            t.drop_last()
        } else {
            t
        }
    } else {
        p
    }
}

/// The lines of a text, as `str::lines` gives them.
pub open spec fn lines_of(s: Seq<char>) -> Seq<Seq<char>> {
    pieces(s).map_values(|p: Seq<char>| strip_line(p))
}

/// The lines of `text` (see `lines_of`), then at most `limit` of them (see
/// `truncate_lines`).
pub fn split_lines(text: &str) -> (r: Vec<String>)
    ensures
        r@.len() == lines_of(text@).len(),
        forall|i: int| 0 <= i < r@.len() ==> (#[trigger] r@[i])@ == lines_of(text@)[i],
{
    let s = chars_of(text);
    let mut out: Vec<String> = Vec::new();
    let mut cur: Vec<char> = Vec::new();
    let ghost mut done: Seq<Seq<char>> = Seq::empty();
    let mut i: usize = 0;
    while i < s.len()
        invariant
            i <= s@.len(),
            s@ == text@,
            pieces(s@.subrange(0, i as int)) == if cur@.len() > 0 {
                done.push(cur@)
            } else {
                done
            },
            cur@.len() == 0 || cur@.last() != '\n',
            forall|k: int| 0 <= k < done.len() ==> (#[trigger] done[k]).len() > 0 && done[k].last() == '\n',
            out@.len() == done.len(),
            forall|k: int| 0 <= k < done.len() ==> (#[trigger] out@[k])@ == strip_line(done[k]),
        decreases s@.len() - i,
    {
        let ghost pre = s@.subrange(0, i as int);
        assert(s@.subrange(0, i + 1).drop_last() =~= pre);
        let c = s[i];
        let ghost old_cur = cur@;
        cur.push(c);
        proof {
            let ps = pieces(pre);
            let whole = s@.subrange(0, i + 1);
            assert(whole.last() == c);
            if old_cur.len() > 0 {
                assert(ps == done.push(old_cur));
                assert(ps.last() == old_cur);
                assert(ps.drop_last() =~= done);
                assert(pieces(whole) == done.push(cur@));
            } else {
                assert(ps == done);
                if ps.len() > 0 {
                    assert(ps.last() == done[done.len() - 1]);
                }
                assert(cur@ =~= seq![c]);
                assert(pieces(whole) == done.push(cur@));
            }
        }
        if c == '\n' {
            let n = cur.len();
            let mut end = n - 1;
            if end > 0 && cur[end - 1] == '\r' {
                end = end - 1;
            }
            let line = crate::text::copy_range(&cur, 0, end);
            proof {
                let p = cur@;
                assert(p.drop_last() =~= p.subrange(0, n - 1));
                if n >= 2 && p[n - 2] == '\r' {
                    assert(p.drop_last().drop_last() =~= p.subrange(0, n - 2));
                }
                done = done.push(cur@);
            }
            out.push(string_of(&line));
            cur = Vec::new();
        }
        i = i + 1;
    }
    assert(s@.subrange(0, i as int) =~= s@);
    let ghost fin = if cur@.len() > 0 {
        done.push(cur@)
    } else {
        done
    };
    if cur.len() > 0 {
        out.push(string_of(&cur));
    }
    assert(fin == pieces(text@));
    assert(forall|k: int| 0 <= k < out@.len() ==> (#[trigger] out@[k])@ == strip_line(fin[k]));
    out
}

/// The lines of `text`, at most `limit` of them (see `truncate_lines`).
pub fn split_and_truncate(text: &str, limit: usize) -> (r: Vec<String>)
    ensures
        views(r@) == truncated(lines_of(text@), limit as nat),
{
    let lines = split_lines(text);
    assert(views(lines@) =~= lines_of(text@));
    truncate_lines(lines, limit)
}

/// `row` lays out entry `e` for the terminal: grouped by date and label,
/// in the given order within a group.
pub open spec fn cli_row_of(row: ReportRow, e: DailyEntry, cats: Seq<Category>) -> bool {
    &&& row.date@ == e.date@
    &&& row.label@ == label_of(cats, e.category_id@)
    &&& row.key3@.len() == 0
    &&& row.key4@.len() == 0
    &&& row.line@ == bullet(e)
}

pub open spec fn cli_rows_of(rows: Seq<ReportRow>, es: Seq<DailyEntry>, cats: Seq<Category>) -> bool {
    &&& rows.len() == es.len()
    &&& forall|i: int| 0 <= i < es.len() ==> cli_row_of(#[trigger] rows[i], es[i], cats)
}

/// The entries dated `date`, in order.
pub open spec fn on_date(es: Seq<DailyEntry>, date: Seq<char>) -> Seq<DailyEntry>
    decreases es.len(),
{
    if es.len() == 0 {
        es
    } else {
        let rest = on_date(es.drop_last(), date);
        if es.last().date@ == date {
            rest.push(es.last())
        } else {
            rest
        }
    }
}

fn cli_rows(entries: &Vec<DailyEntry>, categories: &Vec<Category>, date: Option<&str>) -> (rows: Vec<ReportRow>)
    ensures
        match date {
            Some(d) => cli_rows_of(rows@, on_date(entries@, d@), categories@),
            None => cli_rows_of(rows@, entries@, categories@),
        },
{
    let mut rows: Vec<ReportRow> = Vec::new();
    let mut i: usize = 0;
    while i < entries.len()
        invariant
            i <= entries@.len(),
            match date {
                Some(d) => cli_rows_of(rows@, on_date(entries@.subrange(0, i as int), d@), categories@),
                None => cli_rows_of(rows@, entries@.subrange(0, i as int), categories@),
            },
        decreases entries@.len() - i,
    {
        let ghost pre = entries@.subrange(0, i as int);
        assert(entries@.subrange(0, i + 1).drop_last() =~= pre);
        assert(entries@.subrange(0, i + 1) =~= pre.push(entries@[i as int]));
        let e = &entries[i];
        let keep = match date {
            Some(d) => crate::text::str_eq(e.date.as_str(), d),
            None => true,
        };
        if keep {
            rows.push(
                ReportRow {
                    date: e.date.clone(),
                    label: label_for(categories, &e.category_id),
                    key3: String::new(),
                    key4: String::new(),
                    line: bullet_text(e),
                },
            );
        }
        i = i + 1;
    }
    assert(entries@.subrange(0, i as int) =~= entries@);
    rows
}

/// The heading before row `rs[i]` of a day's text: the label, after a
/// blank line where a new label begins.
pub open spec fn day_heads(rs: Seq<ReportRow>, i: int) -> Seq<char> {
    let head = rs[i].label@ + "\n"@;
    if i == 0 {
        head
    } else if rs[i - 1].label@ != rs[i].label@ {
        "\n"@ + head
    } else {
        Seq::empty()
    }
}

pub open spec fn day_body(rs: Seq<ReportRow>) -> Seq<char>
    decreases rs.len(),
{
    if rs.len() == 0 {
        Seq::empty()
    } else {
        day_body(rs.drop_last()) + day_heads(rs, rs.len() - 1) + rs.last().line@ + "\n"@
    }
}

/// The text of one day: the date, then the entries grouped by label.
pub open spec fn day_text(date: Seq<char>, rs: Seq<ReportRow>) -> Seq<char> {
    if rs.len() == 0 {
        date + "\n\nNo entries for this date."@
    } else {
        date + "\n\n"@ + day_body(rs) + "\n"@
    }
}

/// The entries dated `date`, grouped by category label (labels ascending,
/// entries in the given order within a label).
pub fn build_day_text(date: &str, entries: &Vec<DailyEntry>, categories: &Vec<Category>) -> (r: String)
    ensures
        exists|rows: Seq<ReportRow>, ord: Seq<int>|
            {
                &&& cli_rows_of(rows, on_date(entries@, date@), categories@)
                &&& is_row_order(rows, ord)
                &&& r@ == day_text(date@, #[trigger] in_order(rows, ord))
            },
{
    let rows = cli_rows(entries, categories, Some(date));
    let ord = row_order(&rows);
    let ghost ordi = ord@.map_values(|x: usize| x as int);
    let ghost rs = in_order(rows@, ordi);
    let mut out = String::from_str(date);
    if rows.len() == 0 {
        out.append("\n\nNo entries for this date.");
        assert(out@ =~= day_text(date@, rs));
        return out;
    }
    out.append("\n\n");
    let ghost head = out@;
    let mut k: usize = 0;
    while k < ord.len()
        invariant
            k <= ord@.len() == rows@.len(),
            is_row_order(rows@, ordi),
            ordi == ord@.map_values(|x: usize| x as int),
            rs == in_order(rows@, ordi),
            out@ == head + day_body(rs.subrange(0, k as int)),
        decreases ord@.len() - k,
    {
        assert(0 <= ordi[k as int] < rows@.len());
        let r = &rows[ord[k]];
        assert(rs[k as int] == *r);
        let fresh = k == 0 || rows[ord[k - 1]].label != r.label;
        proof {
            if k > 0 {
                assert(0 <= ordi[k - 1] < rows@.len());
                assert(rs[k - 1] == rows@[ord@[k - 1] as int]);
            }
        }
        if fresh {
            if k > 0 {
                out.append("\n");
            }
            out.append(r.label.as_str());
            out.append("\n");
        }
        out.append(r.line.as_str());
        out.append("\n");
        proof {
            let sub = rs.subrange(0, k + 1);
            assert(sub.drop_last() =~= rs.subrange(0, k as int));
            if k > 0 {
                assert(sub[k - 1] == rs[k - 1]);
            }
            assert(day_heads(sub, k as int) == day_heads(rs, k as int));
        }
        assert(out@ =~= head + day_body(rs.subrange(0, k + 1)));
        k = k + 1;
    }
    assert(rs.subrange(0, k as int) =~= rs);
    out.append("\n");
    assert(out@ =~= day_text(date@, rs));
    out
}

/// The heading before row `rs[i]` of the whole-sprint text: the date where
/// a new date begins (after a blank line), and the indented label where a
/// new label begins.
pub open spec fn all_heads(rs: Seq<ReportRow>, i: int) -> Seq<char> {
    let date_head = rs[i].date@ + "\n"@;
    let label_head = "  "@ + rs[i].label@ + "\n"@;
    if i == 0 {
        date_head + label_head
    } else if rs[i - 1].date@ != rs[i].date@ {
        "\n"@ + date_head + label_head
    } else if rs[i - 1].label@ != rs[i].label@ {
        label_head
    } else {
        Seq::empty()
    }
}

pub open spec fn all_body(rs: Seq<ReportRow>) -> Seq<char>
    decreases rs.len(),
{
    if rs.len() == 0 {
        Seq::empty()
    } else {
        all_body(rs.drop_last()) + all_heads(rs, rs.len() - 1) + "  "@ + rs.last().line@ + "\n"@
    }
}

pub open spec fn all_text(rs: Seq<ReportRow>) -> Seq<char> {
    if rs.len() == 0 {
        "No entries in this sprint yet."@
    } else {
        all_body(rs) + "\n"@
    }
}

/// All entries, grouped by date and then by category label (both
/// ascending), entries in the given order within a group.
pub fn build_all_details_text(entries: &Vec<DailyEntry>, categories: &Vec<Category>) -> (r: String)
    ensures
        exists|rows: Seq<ReportRow>, ord: Seq<int>|
            {
                &&& cli_rows_of(rows, entries@, categories@)
                &&& is_row_order(rows, ord)
                &&& r@ == all_text(#[trigger] in_order(rows, ord))
            },
{
    let rows = cli_rows(entries, categories, None);
    let ord = row_order(&rows);
    let ghost ordi = ord@.map_values(|x: usize| x as int);
    let ghost rs = in_order(rows@, ordi);
    if rows.len() == 0 {
        let out = String::from_str("No entries in this sprint yet.");
        assert(out@ =~= all_text(rs));
        return out;
    }
    let mut out = String::new();
    let mut k: usize = 0;
    while k < ord.len()
        invariant
            k <= ord@.len() == rows@.len(),
            is_row_order(rows@, ordi),
            ordi == ord@.map_values(|x: usize| x as int),
            rs == in_order(rows@, ordi),
            out@ == all_body(rs.subrange(0, k as int)),
        decreases ord@.len() - k,
    {
        assert(0 <= ordi[k as int] < rows@.len());
        let r = &rows[ord[k]];
        assert(rs[k as int] == *r);
        let new_date = k == 0 || rows[ord[k - 1]].date != r.date;
        let new_label = new_date || rows[ord[k - 1]].label != r.label;
        proof {
            if k > 0 {
                assert(0 <= ordi[k - 1] < rows@.len());
                assert(rs[k - 1] == rows@[ord@[k - 1] as int]);
            }
        }
        if new_date {
            if k > 0 {
                out.append("\n");
            }
            out.append(r.date.as_str());
            out.append("\n");
        }
        if new_label {
            out.append("  ");
            out.append(r.label.as_str());
            out.append("\n");
        }
        out.append("  ");
        out.append(r.line.as_str());
        out.append("\n");
        proof {
            let sub = rs.subrange(0, k + 1);
            assert(sub.drop_last() =~= rs.subrange(0, k as int));
            if k > 0 {
                assert(sub[k - 1] == rs[k - 1]);
            }
            assert(all_heads(sub, k as int) == all_heads(rs, k as int));
        }
        assert(out@ =~= all_body(rs.subrange(0, k + 1)));
        k = k + 1;
    }
    assert(rs.subrange(0, k as int) =~= rs);
    out.append("\n");
    assert(out@ =~= all_text(rs));
    out
}

/// How many entries are dated `date`.
pub open spec fn date_count(es: Seq<DailyEntry>, date: Seq<char>) -> nat
    decreases es.len(),
{
    if es.len() == 0 {
        0
    } else {
        date_count(es.drop_last(), date) + if es.last().date@ == date {
            1nat
        } else {
            0nat
        }
    }
}

/// `counts` lists each date of the entries once, latest first, with the
/// number of entries on it.
pub open spec fn is_date_counts(counts: Seq<(String, usize)>, es: Seq<DailyEntry>) -> bool {
    &&& forall|a: int, b: int|
        0 <= a < b < counts.len() ==> seq_lt((#[trigger] counts[b]).0@, (#[trigger] counts[a]).0@)
    &&& forall|k: int|
        0 <= k < counts.len() ==> (#[trigger] counts[k]).1 as nat == date_count(es, counts[k].0@)
            && counts[k].1 >= 1
    &&& forall|i: int|
        0 <= i < es.len() ==> exists|k: int| 0 <= k < counts.len() && (#[trigger] counts[k]).0@ == (
            #[trigger] es[i]).date@
}

/// The dates of the entries, latest first, each with its number of entries.
pub fn date_counts(entries: &Vec<DailyEntry>) -> (r: Vec<(String, usize)>)
    ensures
        is_date_counts(r@, entries@),
{
    let mut r: Vec<(String, usize)> = Vec::new();
    let mut i: usize = 0;
    while i < entries.len()
        invariant
            i <= entries@.len(),
            r@.len() <= i,
            is_date_counts(r@, entries@.subrange(0, i as int)),
        decreases entries@.len() - i,
    {
        let ghost pre = entries@.subrange(0, i as int);
        let ghost post = entries@.subrange(0, i + 1);
        assert(post.drop_last() =~= pre);
        let d = &entries[i].date;
        let mut p: usize = 0;
        while p < r.len() && str_lt(d.as_str(), r[p].0.as_str())
            invariant
                p <= r@.len(),
                forall|q: int| 0 <= q < p ==> seq_lt(d@, (#[trigger] r@[q]).0@),
            decreases r@.len() - p,
        {
            p = p + 1;
        }
        let ghost old_r = r@;
        if p < r.len() && str_eq(r[p].0.as_str(), d.as_str()) {
            proof {
                lemma_date_count_le(pre, r@[p as int].0@);
            }
            let c = r[p].1 + 1;
            let name = r[p].0.clone();
            r.set(p, (name, c));
            proof {
                assert forall|k: int| 0 <= k < r@.len() implies (#[trigger] r@[k]).1 as nat == date_count(post, r@[k].0@)
                    && r@[k].1 >= 1 by {
                    if k != p {
                        assert(r@[k] == old_r[k]);
                        assert(old_r[k].0@ != d@) by {
                            if k < p {
                                lemma_seq_lt_irreflexive(d@);
                            } else {
                                assert(seq_lt(old_r[k].0@, old_r[p as int].0@));
                                lemma_seq_lt_irreflexive(d@);
                            }
                        }
                    }
                }
                assert forall|j: int| 0 <= j < post.len() implies exists|k: int|
                    0 <= k < r@.len() && (#[trigger] r@[k]).0@ == (#[trigger] post[j]).date@ by {
                    if j < pre.len() {
                        assert(post[j] == pre[j]);
                        let k = choose|k: int| 0 <= k < old_r.len() && (#[trigger] old_r[k]).0@ == pre[j].date@;
                        assert(r@[k].0@ == old_r[k].0@);
                    } else {
                        assert(r@[p as int].0@ == post[j].date@);
                    }
                }
                assert forall|a: int, b: int| 0 <= a < b < r@.len() implies seq_lt((#[trigger] r@[b]).0@, (#[trigger] r@[a]).0@) by {
                    assert(r@[a].0@ == old_r[a].0@ && r@[b].0@ == old_r[b].0@);
                }
            }
        } else {
            proof {
                if p < old_r.len() {
                    lemma_seq_lt_total(d@, old_r[p as int].0@);
                }
            }
            r.insert(p, (d.clone(), 1));
            proof {
                assert forall|k: int| 0 <= k < r@.len() implies (#[trigger] r@[k]).1 as nat == date_count(post, r@[k].0@)
                    && r@[k].1 >= 1 by {
                    if k < p {
                        assert(r@[k] == old_r[k]);
                        assert(old_r[k].0@ != d@) by {
                            lemma_seq_lt_irreflexive(d@);
                        }
                    } else if k > p {
                        assert(r@[k] == old_r[k - 1]);
                        assert(old_r[k - 1].0@ != d@) by {
                            lemma_seq_lt_irreflexive(d@);
                            if k - 1 > p {
                                assert(seq_lt(old_r[k - 1].0@, old_r[p as int].0@));
                                lemma_seq_lt_transitive(old_r[k - 1].0@, old_r[p as int].0@, d@);
                            }
                        }
                    } else {
                        assert(date_count(pre, d@) == 0) by {
                            if date_count(pre, d@) > 0 {
                                lemma_date_count_witness(pre, d@);
                                let j = choose|j: int| 0 <= j < pre.len() && pre[j].date@ == d@;
                                let k = choose|k: int| 0 <= k < old_r.len() && (#[trigger] old_r[k]).0@ == pre[j].date@;
                                if k < p {
                                    lemma_seq_lt_irreflexive(d@);
                                } else if k > p {
                                    assert(seq_lt(old_r[k].0@, old_r[p as int].0@));
                                    lemma_seq_lt_transitive(old_r[k].0@, old_r[p as int].0@, d@);
                                    lemma_seq_lt_irreflexive(d@);
                                }
                            }
                        }
                    }
                }
                assert forall|j: int| 0 <= j < post.len() implies exists|k: int|
                    0 <= k < r@.len() && (#[trigger] r@[k]).0@ == (#[trigger] post[j]).date@ by {
                    if j < pre.len() {
                        assert(post[j] == pre[j]);
                        let k = choose|k: int| 0 <= k < old_r.len() && (#[trigger] old_r[k]).0@ == pre[j].date@;
                        if k < p {
                            assert(r@[k] == old_r[k]);
                        } else {
                            assert(r@[k + 1] == old_r[k]);
                        }
                    } else {
                        assert(r@[p as int].0@ == post[j].date@);
                    }
                }
                assert forall|a: int, b: int| 0 <= a < b < r@.len() implies seq_lt((#[trigger] r@[b]).0@, (#[trigger] r@[a]).0@) by {
                    if b < p {
                        assert(r@[a] == old_r[a] && r@[b] == old_r[b]);
                    } else if b == p {
                        assert(r@[a] == old_r[a]);
                    } else if a == p {
                        assert(r@[b] == old_r[b - 1]);
                        if b - 1 > p {
                            assert(seq_lt(old_r[b - 1].0@, old_r[p as int].0@));
                            lemma_seq_lt_transitive(old_r[b - 1].0@, old_r[p as int].0@, d@);
                        }
                    } else if a < p {
                        assert(r@[a] == old_r[a] && r@[b] == old_r[b - 1]);
                    } else {
                        assert(r@[a] == old_r[a - 1] && r@[b] == old_r[b - 1]);
                    }
                }
            }
        }
        i = i + 1;
    }
    assert(entries@.subrange(0, i as int) =~= entries@);
    r
}

proof fn lemma_date_count_le(es: Seq<DailyEntry>, d: Seq<char>)
    ensures
        date_count(es, d) <= es.len(),
    decreases es.len(),
{
    if es.len() > 0 {
        lemma_date_count_le(es.drop_last(), d);
    }
}

proof fn lemma_date_count_witness(es: Seq<DailyEntry>, d: Seq<char>)
    requires
        date_count(es, d) > 0,
    ensures
        exists|j: int| 0 <= j < es.len() && es[j].date@ == d,
    decreases es.len(),
{
    if es.len() > 0 && es.last().date@ != d {
        lemma_date_count_witness(es.drop_last(), d);
        let j = choose|j: int| 0 <= j < es.drop_last().len() && es.drop_last()[j].date@ == d;
        assert(es[j] == es.drop_last()[j]);
    }
}

/// How many lines a text screen shows before it cuts the rest.
pub const DEFAULT_TRUNCATE_LINES: usize = 30;

/// The window line of a sprint: `<start> to <end>`, `open` where it has no end.
pub open spec fn window_text(s: Sprint) -> Seq<char> {
    s.start_date@ + " to "@ + match s.end_date {
        Some(e) => e@,
        None => "open"@,
    }
}

pub open spec fn count_line(c: (String, usize)) -> Seq<char> {
    "- "@ + c.0@ + ": "@ + decimal(c.1 as nat) + " items"@
}

/// The summary of a sprint: its label, window and number of entries, then
/// each date with its number of entries, latest first.
pub open spec fn summary(s: Sprint, total: nat, counts: Seq<(String, usize)>) -> Seq<Seq<char>> {
    let head = seq![
        "Sprint: "@ + label_text(s),
        "Window: "@ + window_text(s),
        "Total items: "@ + decimal(total),
        Seq::<char>::empty(),
        "Dates:"@,
    ];
    if counts.len() == 0 {
        head.push("- No entries yet"@)
    } else {
        truncated(head + counts.map_values(|c: (String, usize)| count_line(c)), 30)
    }
}

fn number_text(n: usize) -> (r: String)
    ensures
        r@ == decimal(n as nat),
{
    let mut digits: Vec<char> = Vec::new();
    push_decimal(&mut digits, n as u64);
    string_of(&digits)
}

/// The summary lines of a sprint (see `summary`).
pub fn sprint_summary_lines(sprint: &Sprint, entries: &Vec<DailyEntry>) -> (r: Vec<String>)
    ensures
        exists|counts: Seq<(String, usize)>|
            is_date_counts(counts, entries@) && views(r@) == #[trigger] summary(
                *sprint,
                entries@.len() as nat,
                counts,
            ),
{
    let mut lines: Vec<String> = Vec::new();
    let mut l = String::from_str("Sprint: ");
    l.append(sprint_label(sprint).as_str());
    lines.push(l);
    let mut l = String::from_str("Window: ");
    l.append(sprint.start_date.as_str());
    l.append(" to ");
    match &sprint.end_date {
        Some(e) => l.append(e.as_str()),
        None => l.append("open"),
    }
    lines.push(l);
    let mut l = String::from_str("Total items: ");
    l.append(number_text(entries.len()).as_str());
    lines.push(l);
    lines.push(String::new());
    lines.push(String::from_str("Dates:"));
    let ghost head = views(lines@);
    assert(head[1] =~= "Window: "@ + window_text(*sprint));
    assert(head =~= seq![
        "Sprint: "@ + label_text(*sprint),
        "Window: "@ + window_text(*sprint),
        "Total items: "@ + decimal(entries@.len() as nat),
        Seq::<char>::empty(),
        "Dates:"@,
    ]);
    let counts = date_counts(entries);
    if counts.len() == 0 {
        lines.push(String::from_str("- No entries yet"));
        assert(views(lines@) =~= summary(*sprint, entries@.len() as nat, counts@));
        return lines;
    }
    let mut k: usize = 0;
    while k < counts.len()
        invariant
            k <= counts@.len(),
            views(lines@) == head + counts@.subrange(0, k as int).map_values(
                |c: (String, usize)| count_line(c),
            ),
        decreases counts@.len() - k,
    {
        let mut l = String::from_str("- ");
        l.append(counts[k].0.as_str());
        l.append(": ");
        l.append(number_text(counts[k].1).as_str());
        l.append(" items");
        assert(l@ == count_line(counts@[k as int]));
        let ghost before = lines@;
        lines.push(l);
        proof {
            assert(views(lines@) =~= views(before).push(count_line(counts@[k as int])));
            assert(counts@.subrange(0, k + 1).map_values(|c: (String, usize)| count_line(c)) =~= counts@.subrange(0, k as int).map_values(|c: (String, usize)| count_line(c)).push(count_line(counts@[k as int])));
        }
        k = k + 1;
        assert(views(lines@) =~= head + counts@.subrange(0, k as int).map_values(
            |c: (String, usize)| count_line(c),
        ));
    }
    assert(counts@.subrange(0, k as int) =~= counts@);
    let r = truncate_lines(lines, DEFAULT_TRUNCATE_LINES);
    assert(views(r@) == summary(*sprint, entries@.len() as nat, counts@));
    r
}

/// The lines of a text screen: the text, a blank line, and how to leave.
pub fn text_screen(lines: &Vec<String>) -> (r: Vec<String>)
    ensures
        views(r@) == views(lines@) + seq![Seq::<char>::empty(), "Press Space/Enter to go back."@],
{
    let mut r: Vec<String> = Vec::new();
    let mut i: usize = 0;
    while i < lines.len()
        invariant
            i <= lines@.len(),
            r@ == lines@.subrange(0, i as int),
        decreases lines@.len() - i,
    {
        r.push(lines[i].clone());
        i = i + 1;
        assert(r@ =~= lines@.subrange(0, i as int));
    }
    assert(r@ =~= lines@);
    r.push(String::new());
    r.push(String::from_str("Press Space/Enter to go back."));
    assert(views(r@) =~= views(lines@) + seq![Seq::<char>::empty(), "Press Space/Enter to go back."@]);
    r
}

/// What a menu screen returned.
#[derive(Clone, Copy, Debug, PartialEq, Eq)]
pub enum MenuResult {
    Selected(usize),
    Back,
    Quit,
}

/// What the date picker settled on.
#[derive(Clone, Debug, PartialEq, Eq)]
pub enum DatePick {
    Date(String),
    Back,
    Quit,
}

/// The options of the date picker: each date with its number of entries,
/// then `Back`.
pub fn date_menu_options(counts: &Vec<(String, usize)>) -> (r: Vec<String>)
    ensures
        r@.len() == counts@.len() + 1,
        forall|k: int|
            0 <= k < counts@.len() ==> (#[trigger] r@[k])@ == counts@[k].0@ + " ("@ + decimal(
                counts@[k].1 as nat,
            ) + " items)"@,
        r@[counts@.len() as int]@ == "Back"@,
{
    let mut r: Vec<String> = Vec::new();
    let mut k: usize = 0;
    while k < counts.len()
        invariant
            k <= counts@.len(),
            r@.len() == k,
            forall|q: int|
                0 <= q < k ==> (#[trigger] r@[q])@ == counts@[q].0@ + " ("@ + decimal(
                    counts@[q].1 as nat,
                ) + " items)"@,
        decreases counts@.len() - k,
    {
        let mut l = counts[k].0.clone();
        l.append(" (");
        l.append(number_text(counts[k].1).as_str());
        l.append(" items)");
        r.push(l);
        k = k + 1;
    }
    r.push(String::from_str("Back"));
    r
}

/// The date that a choice in the date picker stands for: the chosen date,
/// `Back` for the last option or a step back, `Quit` to leave.
pub fn pick_date(counts: &Vec<(String, usize)>, choice: MenuResult) -> (r: DatePick)
    ensures
        match choice {
            MenuResult::Selected(i) => if i < counts@.len() {
                r matches DatePick::Date(d) && d == counts@[i as int].0
            } else {
                r is Back
            },
            MenuResult::Back => r is Back,
            MenuResult::Quit => r is Quit,
        },
{
    match choice {
        MenuResult::Selected(i) => {
            if i < counts.len() {
                DatePick::Date(counts[i].0.clone())
            } else {
                DatePick::Back
            }
        },
        MenuResult::Back => DatePick::Back,
        MenuResult::Quit => DatePick::Quit,
    }
}

} // verus!
