//! The report engine: entries are filtered, ordered by date and category,
//! grouped, and written out as Markdown.

use vstd::prelude::*;
use crate::active::in_range;
use crate::model::{Category, DailyEntry, Sprint};
use crate::text::{
    chars_lt, chars_of, lemma_seq_lt_irreflexive, lemma_seq_lt_total, lemma_seq_lt_transitive,
    seq_lt, str_eq, chars_eq, decimal, push_decimal, string_of, slug, };
use crate::active::within_range;
use crate::cli::{lines_of, pieces, split_lines, strip_line, window_text};

verus! {

/// One entry as the report lays it out: the date and the category label it
/// is grouped under, two further sort keys, and its bullet text.
#[derive(Clone, Debug, PartialEq, Eq)]
pub struct ReportRow {
    pub date: String,
    pub label: String,
    pub key3: String,
    pub key4: String,
    pub line: String,
}

/// Lexicographic order on (date, label, key3, key4).
pub open spec fn row_key_lt(a: ReportRow, b: ReportRow) -> bool {
    seq_lt(a.date@, b.date@) || (a.date@ == b.date@ && (seq_lt(a.label@, b.label@) || (a.label@
        == b.label@ && (seq_lt(a.key3@, b.key3@) || (a.key3@ == b.key3@ && seq_lt(
        a.key4@,
        b.key4@,
    ))))))
}

pub open spec fn row_key_eq(a: ReportRow, b: ReportRow) -> bool {
    a.date@ == b.date@ && a.label@ == b.label@ && a.key3@ == b.key3@ && a.key4@ == b.key4@
}

/// Row `i` comes before row `j`: a smaller key, or an equal key and an
/// earlier position.
pub open spec fn row_before(rows: Seq<ReportRow>, i: int, j: int) -> bool {
    row_key_lt(rows[i], rows[j]) || (row_key_eq(rows[i], rows[j]) && i < j)
}

/// `ord` lists every position of `rows` once, in key order.
pub open spec fn is_row_order(rows: Seq<ReportRow>, ord: Seq<int>) -> bool {
    &&& ord.len() == rows.len()
    &&& forall|k: int| 0 <= k < ord.len() ==> 0 <= #[trigger] ord[k] < rows.len()
    &&& forall|j: int| 0 <= j < rows.len() ==> #[trigger] ord.contains(j)
    &&& forall|a: int, b: int|
        0 <= a < b < ord.len() ==> row_before(rows, #[trigger] ord[a], #[trigger] ord[b])
}

proof fn lemma_lt_cases(a: Seq<char>, b: Seq<char>, c: Seq<char>)
    ensures
        seq_lt(a, b) && seq_lt(b, c) ==> seq_lt(a, c),
        seq_lt(a, b) || seq_lt(b, a) || a == b,
        !seq_lt(a, a),
{
    if seq_lt(a, b) && seq_lt(b, c) {
        lemma_seq_lt_transitive(a, b, c);
    }
    lemma_seq_lt_total(a, b);
    lemma_seq_lt_irreflexive(a);
}

proof fn lemma_row_before_order(rows: Seq<ReportRow>, i: int, j: int, k: int)
    ensures
        row_before(rows, i, j) && row_before(rows, j, k) ==> row_before(rows, i, k),
        i != j ==> row_before(rows, i, j) || row_before(rows, j, i),
        row_before(rows, i, j) ==> !row_before(rows, j, i) && i != j,
{
    let (a, b, c) = (rows[i], rows[j], rows[k]);
    lemma_lt_cases(a.date@, b.date@, c.date@);
    lemma_lt_cases(a.label@, b.label@, c.label@);
    lemma_lt_cases(a.key3@, b.key3@, c.key3@);
    lemma_lt_cases(a.key4@, b.key4@, c.key4@);
    lemma_lt_cases(b.date@, a.date@, c.date@);
    lemma_lt_cases(b.label@, a.label@, c.label@);
    lemma_lt_cases(b.key3@, a.key3@, c.key3@);
    lemma_lt_cases(b.key4@, a.key4@, c.key4@);
    lemma_lt_cases(b.date@, a.date@, b.date@);
    lemma_lt_cases(b.label@, a.label@, b.label@);
    lemma_lt_cases(b.key3@, a.key3@, b.key3@);
    lemma_lt_cases(b.key4@, a.key4@, b.key4@);
    lemma_lt_cases(a.date@, b.date@, a.date@);
    lemma_lt_cases(a.label@, b.label@, a.label@);
    lemma_lt_cases(a.key3@, b.key3@, a.key3@);
    lemma_lt_cases(a.key4@, b.key4@, a.key4@);
    lemma_lt_cases(a.date@, c.date@, c.date@);
    lemma_lt_cases(a.label@, c.label@, c.label@);
    lemma_lt_cases(a.key3@, c.key3@, c.key3@);
    lemma_lt_cases(a.key4@, c.key4@, c.key4@);
}

fn key_part_lt(a: &String, b: &String) -> (r: (bool, bool))
    ensures
        r.0 == seq_lt(a@, b@),
        r.1 == (a@ == b@),
{
    let va = chars_of(a.as_str());
    let vb = chars_of(b.as_str());
    (chars_lt(&va, &vb), str_eq(a.as_str(), b.as_str()))
}

fn row_before_exec(rows: &Vec<ReportRow>, i: usize, j: usize) -> (r: bool)
    requires
        i < rows@.len(),
        j < rows@.len(),
    ensures
        r == row_before(rows@, i as int, j as int),
{
    let (a, b) = (&rows[i], &rows[j]);
    let d = key_part_lt(&a.date, &b.date);
    let l = key_part_lt(&a.label, &b.label);
    let k3 = key_part_lt(&a.key3, &b.key3);
    let k4 = key_part_lt(&a.key4, &b.key4);
    let lt = d.0 || (d.1 && (l.0 || (l.1 && (k3.0 || (k3.1 && k4.0)))));
    let eq = d.1 && l.1 && k3.1 && k4.1;
    lt || (eq && i < j)
}

/// The positions of `rows` in key order; rows with equal keys keep their
/// relative order.
pub fn row_order(rows: &Vec<ReportRow>) -> (ord: Vec<usize>)
    ensures
        is_row_order(rows@, ord@.map_values(|k: usize| k as int)),
{
    let n = rows.len();
    let mut ord: Vec<usize> = Vec::new();
    let mut i: usize = 0;
    while i < n
        invariant
            i <= n == rows@.len(),
            ord@.len() == i,
            forall|k: int| 0 <= k < i ==> #[trigger] ord@[k] < i,
            forall|j: int| 0 <= j < i ==> #[trigger] ord@.contains(j as usize),
            forall|a: int, b: int|
                0 <= a < b < i ==> row_before(rows@, #[trigger] ord@[a] as int, #[trigger] ord@[b] as int),
        decreases n - i,
    {
        let mut p: usize = 0;
        while p < ord.len() && row_before_exec(rows, ord[p], i)
            invariant
                i < n == rows@.len(),
                ord@.len() == i,
                p <= i,
                forall|k: int| 0 <= k < i ==> #[trigger] ord@[k] < i,
                forall|q: int| 0 <= q < p ==> row_before(rows@, #[trigger] ord@[q] as int, i as int),
            decreases i - p,
        {
            p = p + 1;
        }
        proof {
            if p < i {
                lemma_row_before_order(rows@, ord@[p as int] as int, i as int, i as int);
                assert forall|q: int| p < q < i implies row_before(
                    rows@,
                    i as int,
                    #[trigger] ord@[q] as int,
                ) by {
                    assert(row_before(rows@, ord@[p as int] as int, ord@[q] as int));
                    lemma_row_before_order(rows@, i as int, ord@[p as int] as int, ord@[q] as int);
                }
            }
        }
        let ghost old_ord = ord@;
        ord.insert(p, i);
        proof {
            assert forall|j: int| 0 <= j < i + 1 implies #[trigger] ord@.contains(j as usize) by {
                if j == i {
                    assert(ord@[p as int] == i);
                } else {
                    assert(old_ord.contains(j as usize));
                    let w = choose|w: int| 0 <= w < old_ord.len() && old_ord[w] == j as usize;
                    if w < p {
                        assert(ord@[w] == j as usize);
                    } else {
                        assert(ord@[w + 1] == j as usize);
                    }
                }
            }
            assert forall|a: int, b: int| 0 <= a < b < i + 1 implies row_before(
                rows@,
                #[trigger] ord@[a] as int,
                #[trigger] ord@[b] as int,
            ) by {
                if b < p {
                    assert(ord@[a] == old_ord[a] && ord@[b] == old_ord[b]);
                } else if b == p {
                    assert(ord@[a] == old_ord[a]);
                } else if a == p {
                    assert(ord@[b] == old_ord[b - 1]);
                } else if a < p {
                    assert(ord@[a] == old_ord[a] && ord@[b] == old_ord[b - 1]);
                } else {
                    assert(ord@[a] == old_ord[a - 1] && ord@[b] == old_ord[b - 1]);
                }
            }
        }
        i = i + 1;
    }
    proof {
        let m = ord@.map_values(|k: usize| k as int);
        assert forall|j: int| 0 <= j < n implies #[trigger] m.contains(j) by {
            assert(ord@.contains(j as usize));
            let w = choose|w: int| 0 <= w < ord@.len() && ord@[w] == j as usize;
            assert(m[w] == j);
        }
    }
    ord
}


/// The label a category id is shown under: the name of the first category
/// with that id, or the id itself where none has it.
pub open spec fn label_of(cats: Seq<Category>, id: Seq<char>) -> Seq<char>
    decreases cats.len(),
{
    if cats.len() == 0 {
        id
    } else if cats[0].id@ == id {
        cats[0].name@
    } else {
        label_of(cats.drop_first(), id)
    }
}

/// The text of an entry's bullet: `- <title>`, then ` - <details>` where
/// there are details.
pub open spec fn bullet(e: DailyEntry) -> Seq<char> {
    "- "@ + e.title@ + match e.details {
        Some(d) => " - "@ + d@,
        None => Seq::empty(),
    }
}

/// The category filter lets `id` through: no filter, an empty one, or one
/// that lists `id`.
pub open spec fn category_passes(filter: Option<Vec<String>>, id: Seq<char>) -> bool {
    match filter {
        None => true,
        Some(v) => v@.len() == 0 || exists|k: int| 0 <= k < v@.len() && (#[trigger] v@[k])@ == id,
    }
}

pub open spec fn selects(
    e: DailyEntry,
    sprint_id: Seq<char>,
    from: Option<String>,
    to: Option<String>,
    filter: Option<Vec<String>>,
) -> bool {
    &&& e.sprint_id@ == sprint_id
    &&& in_range(e.date@, from, to)
    &&& category_passes(filter, e.category_id@)
}

/// The entries of sprint `sprint_id` that pass the date and category
/// filters, in stored order.
pub open spec fn selected(
    es: Seq<DailyEntry>,
    sprint_id: Seq<char>,
    from: Option<String>,
    to: Option<String>,
    filter: Option<Vec<String>>,
) -> Seq<DailyEntry>
    decreases es.len(),
{
    if es.len() == 0 {
        es
    } else {
        let rest = selected(es.drop_last(), sprint_id, from, to, filter);
        if selects(es.last(), sprint_id, from, to, filter) {
            rest.push(es.last())
        } else {
            rest
        }
    }
}

/// `row` lays out entry `e` for the report: grouped by date and label,
/// ordered by category id and creation time after those.
pub open spec fn row_of_entry(row: ReportRow, e: DailyEntry, cats: Seq<Category>) -> bool {
    &&& row.date@ == e.date@
    &&& row.label@ == label_of(cats, e.category_id@)
    &&& row.key3@ == e.category_id@
    &&& row.key4@ == e.created_at@
    &&& row.line@ == bullet(e)
}

pub open spec fn rows_of(rows: Seq<ReportRow>, es: Seq<DailyEntry>, cats: Seq<Category>) -> bool {
    &&& rows.len() == es.len()
    &&& forall|i: int| 0 <= i < es.len() ==> row_of_entry(#[trigger] rows[i], es[i], cats)
}

pub open spec fn in_order(rows: Seq<ReportRow>, ord: Seq<int>) -> Seq<ReportRow> {
    ord.map_values(|j: int| rows[j])
}

/// The heading lines that come before row `rs[i]`: a date section where the
/// date changes, a category subsection where the label changes, and the
/// blank line that closes the subsection before.
pub open spec fn group_heads(rs: Seq<ReportRow>, i: int) -> Seq<char> {
    let r = rs[i];
    let date_head = "## "@ + r.date@ + "\n\n"@;
    let label_head = "### "@ + r.label@ + "\n"@;
    if i == 0 {
        date_head + label_head
    } else if rs[i - 1].date@ != r.date@ {
        "\n"@ + date_head + label_head
    } else if rs[i - 1].label@ != r.label@ {
        "\n"@ + label_head
    } else {
        Seq::empty()
    }
}

/// The sections of the report for rows already in order.
pub open spec fn sections(rs: Seq<ReportRow>) -> Seq<char>
    decreases rs.len(),
{
    if rs.len() == 0 {
        Seq::empty()
    } else {
        sections(rs.drop_last()) + group_heads(rs, rs.len() - 1) + rs.last().line@ + "\n"@
    }
}

/// The header block of a report.
pub open spec fn report_header(
    sprint: Sprint,
    from: Option<String>,
    to: Option<String>,
    exported_at: Seq<char>,
    total: nat,
) -> Seq<char> {
    "# Sprint Report: "@ + sprint.name@ + "\n\n"@ + "- Sprint ID: `"@ + sprint.id@ + "`\n"@
        + "- Sprint Code: `"@ + sprint.code@ + "`\n"@ + "- Sprint Window: "@ + sprint.start_date@
        + " to "@ + match sprint.end_date {
        Some(e) => e@,
        None => "open"@,
    } + "\n"@ + "- Exported At: "@ + exported_at + "\n"@ + match from {
        Some(f) => "- Report From: "@ + f@ + "\n"@,
        None => Seq::empty(),
    } + match to {
        Some(t) => "- Report To: "@ + t@ + "\n"@,
        None => Seq::empty(),
    } + "- Included Items: "@ + decimal(total) + "\n\n"@
}

/// The whole report: the header, then the sections closed by a blank line,
/// or a line saying that nothing was found.
pub open spec fn report_text(
    sprint: Sprint,
    from: Option<String>,
    to: Option<String>,
    exported_at: Seq<char>,
    rs: Seq<ReportRow>,
) -> Seq<char> {
    report_header(sprint, from, to, exported_at, rs.len()) + if rs.len() == 0 {
        "No items found for the selected filters.\n"@
    } else {
        sections(rs) + "\n"@
    }
}

pub fn label_for(cats: &Vec<Category>, id: &String) -> (r: String)
    ensures
        r@ == label_of(cats@, id@),
{
    let n = cats.len();
    let mut i: usize = 0;
    assert(cats@.subrange(0, n as int) =~= cats@);
    while i < n
        invariant
            i <= n == cats@.len(),
            label_of(cats@, id@) == label_of(cats@.subrange(i as int, n as int), id@),
        decreases n - i,
    {
        if cats[i].id == *id {
            let ghost sub = cats@.subrange(i as int, n as int);
            assert(sub[0] == cats@[i as int]);
            assert(sub[0].id@ == id@);
            assert(label_of(sub, id@) == cats@[i as int].name@);
            return cats[i].name.clone();
        }
        assert(cats@.subrange(i as int, n as int).drop_first() =~= cats@.subrange(i + 1, n as int));
        i = i + 1;
    }
    id.clone()
}

pub fn bullet_text(e: &DailyEntry) -> (r: String)
    ensures
        r@ == bullet(*e),
{
    let mut out = String::from_str("- ");
    out.append(e.title.as_str());
    match &e.details {
        Some(d) => {
            out.append(" - ");
            out.append(d.as_str());
        },
        None => {},
    }
    assert(out@ =~= bullet(*e));
    out
}

fn category_passes_exec(filter: &Option<Vec<String>>, id: &String) -> (r: bool)
    ensures
        r == category_passes(*filter, id@),
{
    match filter {
        None => true,
        Some(v) => {
            if v.len() == 0 {
                return true;
            }
            let mut k: usize = 0;
            while k < v.len()
                invariant
                    k <= v@.len(),
                    *filter == Some(*v),
                    forall|q: int| 0 <= q < k ==> (#[trigger] v@[q])@ != id@,
                decreases v@.len() - k,
            {
                if v[k] == *id {
                    proof {
                        let q = k as int;
                        assert(*filter == Some(*v));
                        assert(0 <= q < v@.len() && (v@[q])@ == id@);
                    }
                    return true;
                }
                k = k + 1;
            }
            false
        },
    }
}

/// The rows of the entries that the filters select.
pub fn report_rows(
    entries: &Vec<DailyEntry>,
    categories: &Vec<Category>,
    sprint_id: &String,
    from: &Option<String>,
    to: &Option<String>,
    filter: &Option<Vec<String>>,
) -> (rows: Vec<ReportRow>)
    ensures
        rows_of(rows@, selected(entries@, sprint_id@, *from, *to, *filter), categories@),
{
    let mut rows: Vec<ReportRow> = Vec::new();
    let mut i: usize = 0;
    while i < entries.len()
        invariant
            i <= entries@.len(),
            rows_of(rows@, selected(entries@.subrange(0, i as int), sprint_id@, *from, *to, *filter), categories@),
        decreases entries@.len() - i,
    {
        let ghost pre = entries@.subrange(0, i as int);
        assert(entries@.subrange(0, i + 1).drop_last() =~= pre);
        let e = &entries[i];
        if e.sprint_id == *sprint_id && within_range(e.date.as_str(), from, to)
            && category_passes_exec(filter, &e.category_id) {
            rows.push(
                ReportRow {
                    date: e.date.clone(),
                    label: label_for(categories, &e.category_id),
                    key3: e.category_id.clone(),
                    key4: e.created_at.clone(),
                    line: bullet_text(e),
                },
            );
        }
        i = i + 1;
    }
    assert(entries@.subrange(0, i as int) =~= entries@);
    rows
}

fn push_group_heads(out: &mut String, rows: &Vec<ReportRow>, ord: &Vec<usize>, k: usize)
    requires
        k < ord@.len(),
        forall|q: int| 0 <= q < ord@.len() ==> #[trigger] ord@[q] < rows@.len(),
    ensures
        final(out)@ == old(out)@ + group_heads(
            in_order(rows@, ord@.map_values(|x: usize| x as int)),
            k as int,
        ),
{
    let ghost rs = in_order(rows@, ord@.map_values(|x: usize| x as int));
    let r = &rows[ord[k]];
    assert(rs[k as int] == *r);
    let new_date = k == 0 || rows[ord[k - 1]].date != r.date;
    let new_label = new_date || rows[ord[k - 1]].label != r.label;
    if new_date {
        if k > 0 {
            out.append("\n");
        }
        out.append("## ");
        out.append(r.date.as_str());
        out.append("\n\n");
    } else if new_label {
        out.append("\n");
    }
    if new_label {
        out.append("### ");
        out.append(r.label.as_str());
        out.append("\n");
    }
    proof {
        if k > 0 {
            assert(rs[k - 1] == rows@[ord@[k - 1] as int]);
        }
    }
    assert(final(out)@ =~= old(out)@ + group_heads(rs, k as int));
}

/// The Markdown report of `rows` laid out in the order `ord`.
pub fn render_report(
    sprint: &Sprint,
    from: &Option<String>,
    to: &Option<String>,
    exported_at: &str,
    rows: &Vec<ReportRow>,
    ord: &Vec<usize>,
) -> (r: String)
    requires
        ord@.len() == rows@.len(),
        forall|q: int| 0 <= q < ord@.len() ==> #[trigger] ord@[q] < rows@.len(),
    ensures
        r@ == report_text(
            *sprint,
            *from,
            *to,
            exported_at@,
            in_order(rows@, ord@.map_values(|x: usize| x as int)),
        ),
{
    let ghost rs = in_order(rows@, ord@.map_values(|x: usize| x as int));
    let mut out = String::from_str("# Sprint Report: ");
    out.append(sprint.name.as_str());
    out.append("\n\n");
    out.append("- Sprint ID: `");
    out.append(sprint.id.as_str());
    out.append("`\n");
    out.append("- Sprint Code: `");
    out.append(sprint.code.as_str());
    out.append("`\n");
    out.append("- Sprint Window: ");
    out.append(sprint.start_date.as_str());
    out.append(" to ");
    match &sprint.end_date {
        Some(e) => out.append(e.as_str()),
        None => out.append("open"),
    }
    out.append("\n");
    out.append("- Exported At: ");
    out.append(exported_at);
    out.append("\n");
    match from {
        Some(f) => {
            out.append("- Report From: ");
            out.append(f.as_str());
            out.append("\n");
        },
        None => {},
    }
    match to {
        Some(t) => {
            out.append("- Report To: ");
            out.append(t.as_str());
            out.append("\n");
        },
        None => {},
    }
    out.append("- Included Items: ");
    let mut digits: Vec<char> = Vec::new();
    push_decimal(&mut digits, rows.len() as u64);
    let digits = string_of(&digits);
    out.append(digits.as_str());
    out.append("\n\n");
    assert(out@ =~= report_header(*sprint, *from, *to, exported_at@, rs.len()));
    let ghost head = out@;
    if rows.len() == 0 {
        out.append("No items found for the selected filters.\n");
    } else {
        let mut k: usize = 0;
        while k < ord.len()
            invariant
                k <= ord@.len() == rows@.len(),
                forall|q: int| 0 <= q < ord@.len() ==> #[trigger] ord@[q] < rows@.len(),
                rs == in_order(rows@, ord@.map_values(|x: usize| x as int)),
                out@ == head + sections(rs.subrange(0, k as int)),
            decreases ord@.len() - k,
        {
            let ghost before = out@;
            push_group_heads(&mut out, rows, ord, k);
            out.append(rows[ord[k]].line.as_str());
            out.append("\n");
            proof {
                let sub = rs.subrange(0, k + 1);
                assert(sub.drop_last() =~= rs.subrange(0, k as int));
                assert(group_heads(sub, k as int) == group_heads(rs, k as int)) by {
                    if k > 0 {
                        assert(sub[k - 1] == rs[k - 1]);
                    }
                }
                assert(sub.last() == rows@[ord@[k as int] as int]);
            }
            assert(out@ =~= head + sections(rs.subrange(0, k + 1)));
            k = k + 1;
        }
        assert(rs.subrange(0, k as int) =~= rs);
        out.append("\n");
    }
    assert(out@ =~= report_text(*sprint, *from, *to, exported_at@, rs));
    out
}

/// The report of one sprint: its entries that fall within the optional
/// inclusive dates and, where a non-empty set of category ids is given, in
/// one of those categories; ordered by date, category label, category id and
/// creation time, and grouped by date and label. Returns the Markdown text
/// and the number of entries in it.
pub fn generate_report(
    sprint: &Sprint,
    entries: &Vec<DailyEntry>,
    categories: &Vec<Category>,
    from: &Option<String>,
    to: &Option<String>,
    filter: &Option<Vec<String>>,
    exported_at: &str,
) -> (r: (String, usize))
    ensures
        ({
            let sel = selected(entries@, sprint.id@, *from, *to, *filter);
            &&& r.1 == sel.len()
            &&& exists|rows: Seq<ReportRow>, ord: Seq<int>|
                {
                    &&& rows_of(rows, sel, categories@)
                    &&& is_row_order(rows, ord)
                    &&& r.0@ == report_text(*sprint, *from, *to, exported_at@, #[trigger] in_order(rows, ord))
                }
        }),
{
    let rows = report_rows(entries, categories, &sprint.id, from, to, filter);
    let ord = row_order(&rows);
    let ghost ordi = ord@.map_values(|x: usize| x as int);
    assert forall|q: int| 0 <= q < ord@.len() implies #[trigger] ord@[q] < rows@.len() by {
        assert(0 <= ordi[q] < rows@.len());
    }
    let md = render_report(sprint, from, to, exported_at, &rows, &ord);
    let total = rows.len();
    assert(rows_of(rows@, selected(entries@, sprint.id@, *from, *to, *filter), categories@));
    assert(is_row_order(rows@, ordi));
    (md, total)
}

/// The file name a report is saved under: `report-<slug of name>-<stamp>.md`.
pub fn report_file_name(sprint_name: &str, stamp: &str) -> (r: String)
    ensures
        r@ == "report-"@ + slug(sprint_name@) + "-"@ + stamp@ + ".md"@,
{
    let name = crate::text::slugify(sprint_name);
    let mut out = String::from_str("report-");
    out.append(name.as_str());
    out.append("-");
    out.append(stamp);
    out.append(".md");
    out
}

/// The text of `line` between `pre` and `post`, where it starts with `pre`
/// and ends with `post`.
pub open spec fn field_between(line: Seq<char>, pre: Seq<char>, post: Seq<char>) -> Option<Seq<char>> {
    if line.len() >= pre.len() + post.len() && line.subrange(0, pre.len() as int) == pre
        && line.subrange(line.len() - post.len(), line.len() as int) == post {
        Some(line.subrange(pre.len() as int, line.len() - post.len()))
    } else {
        None
    }
}

/// The sprint id, code and window that the header of a report states, read
/// from its third, fourth and fifth lines.
pub open spec fn header_fields(md: Seq<char>) -> Option<(Seq<char>, Seq<char>, Seq<char>)> {
    let ls = lines_of(md);
    if ls.len() < 5 {
        None
    } else {
        match (
            field_between(ls[2], "- Sprint ID: `"@, "`"@),
            field_between(ls[3], "- Sprint Code: `"@, "`"@),
            field_between(ls[4], "- Sprint Window: "@, Seq::empty()),
        ) {
            (Some(a), Some(b), Some(c)) => Some((a, b, c)),
            _ => None,
        }
    }
}

fn field_between_exec(line: &String, pre: &str, post: &str) -> (r: Option<String>)
    ensures
        match r {
            Some(v) => field_between(line@, pre@, post@) == Some(v@),
            None => field_between(line@, pre@, post@) is None,
        },
{
    let l = chars_of(line.as_str());
    let p = chars_of(pre);
    let q = chars_of(post);
    if l.len() < p.len() || l.len() - p.len() < q.len() {
        return None;
    }
    let a = crate::text::copy_range(&l, 0, p.len());
    let b = crate::text::copy_range(&l, l.len() - q.len(), l.len());
    if !chars_eq(&a, &p) || !chars_eq(&b, &q) {
        return None;
    }
    let mid = crate::text::copy_range(&l, p.len(), l.len() - q.len());
    Some(string_of(&mid))
}

/// Reads the sprint id, code and window back out of a report's header (see
/// `header_fields`).
pub fn report_header_fields(markdown: &str) -> (r: Option<(String, String, String)>)
    ensures
        match r {
            Some((a, b, c)) => header_fields(markdown@) == Some((a@, b@, c@)),
            None => header_fields(markdown@) is None,
        },
{
    let ls = split_lines(markdown);
    if ls.len() < 5 {
        return None;
    }
    let a = field_between_exec(&ls[2], "- Sprint ID: `", "`");
    let b = field_between_exec(&ls[3], "- Sprint Code: `", "`");
    let c = field_between_exec(&ls[4], "- Sprint Window: ", "");
    proof {
        reveal_strlit("");
        assert(""@ =~= Seq::<char>::empty());
    }
    match (a, b, c) {
        (Some(a), Some(b), Some(c)) => Some((a, b, c)),
        _ => None,
    }
}

pub open spec fn no_newline(s: Seq<char>) -> bool {
    forall|i: int| 0 <= i < s.len() ==> s[i] != '\n'
}

/// `s` is one line: a newline at its end and nowhere else.
pub open spec fn one_line(s: Seq<char>) -> bool {
    s.len() > 0 && s.last() == '\n' && no_newline(s.drop_last())
}

proof fn lemma_pieces_last(s: Seq<char>)
    requires
        s.len() > 0,
    ensures
        pieces(s).len() > 0,
        pieces(s).last().len() > 0,
        pieces(s).last().last() == s.last(),
    decreases s.len(),
{
    if s.len() > 1 {
        lemma_pieces_last(s.drop_last());
    }
}

proof fn lemma_pieces_concat(a: Seq<char>, b: Seq<char>)
    requires
        a.len() == 0 || a.last() == '\n',
    ensures
        pieces(a + b) == pieces(a) + pieces(b),
    decreases b.len(),
{
    if b.len() == 0 {
        assert(a + b =~= a);
        assert(pieces(b) =~= Seq::<Seq<char>>::empty());
        assert(pieces(a) + pieces(b) =~= pieces(a));
    } else {
        let c = b.last();
        assert((a + b).drop_last() =~= a + b.drop_last());
        lemma_pieces_concat(a, b.drop_last());
        let pa = pieces(a);
        let pb = pieces(b.drop_last());
        if a.len() > 0 {
            lemma_pieces_last(a);
        }
        if pb.len() > 0 {
            assert((pa + pb).last() == pb.last());
            assert((pa + pb).drop_last() =~= pa + pb.drop_last());
            assert(pa + pb.drop_last().push(pb.last().push(c)) =~= pa + pb.drop_last().push(pb.last().push(c)));
            assert(pieces(a + b) =~= pa + pieces(b));
        } else {
            assert(pa + pb =~= pa);
            if pa.len() > 0 {
                assert(pa.last().last() == '\n');
            }
            assert(pieces(a + b) =~= pa + pieces(b));
        }
    }
}

proof fn lemma_pieces_open(t: Seq<char>)
    requires
        t.len() > 0,
        no_newline(t),
    ensures
        pieces(t) == seq![t],
    decreases t.len(),
{
    let u = t.drop_last();
    if t.len() > 1 {
        lemma_pieces_open(u);
        assert(u.last() == t[t.len() - 2]);
        assert(u.last() != '\n');
        assert(pieces(u).last() == u);
        assert(pieces(u).drop_last().push(pieces(u).last().push(t.last())) =~= seq![u.push(t.last())]);
        assert(u.push(t.last()) =~= t);
    } else {
        assert(u =~= Seq::<char>::empty());
        assert(pieces(u) =~= Seq::<Seq<char>>::empty());
        assert(seq![t.last()] =~= t);
    }
}

proof fn lemma_pieces_line(s: Seq<char>)
    requires
        one_line(s),
    ensures
        pieces(s) == seq![s],
{
    let t = s.drop_last();
    if t.len() > 0 {
        lemma_pieces_open(t);
        assert(t.last() == t[t.len() - 1]);
        assert(t.last() != '\n');
        assert(pieces(t).last() == t);
        assert(pieces(t).drop_last().push(pieces(t).last().push(s.last())) =~= seq![t.push(s.last())]);
        assert(t.push(s.last()) =~= s);
    } else {
        assert(t =~= Seq::<char>::empty());
        assert(pieces(t) =~= Seq::<Seq<char>>::empty());
        assert(seq![s.last()] =~= s);
    }
}

proof fn lemma_lines_prefix(l0: Seq<char>, l1: Seq<char>, l2: Seq<char>, l3: Seq<char>, l4: Seq<char>, rest: Seq<char>)
    requires
        one_line(l0),
        one_line(l1),
        one_line(l2),
        one_line(l3),
        one_line(l4),
    ensures
        lines_of(l0 + l1 + l2 + l3 + l4 + rest).len() >= 5,
        lines_of(l0 + l1 + l2 + l3 + l4 + rest)[2] == strip_line(l2),
        lines_of(l0 + l1 + l2 + l3 + l4 + rest)[3] == strip_line(l3),
        lines_of(l0 + l1 + l2 + l3 + l4 + rest)[4] == strip_line(l4),
{
    lemma_pieces_line(l0);
    lemma_pieces_line(l1);
    lemma_pieces_line(l2);
    lemma_pieces_line(l3);
    lemma_pieces_line(l4);
    let x1 = l0 + l1;
    let x2 = x1 + l2;
    let x3 = x2 + l3;
    let x4 = x3 + l4;
    lemma_pieces_concat(l0, l1);
    assert(x1.last() == '\n');
    lemma_pieces_concat(x1, l2);
    assert(x2.last() == '\n');
    lemma_pieces_concat(x2, l3);
    assert(x3.last() == '\n');
    lemma_pieces_concat(x3, l4);
    assert(x4.last() == '\n');
    lemma_pieces_concat(x4, rest);
    let ps = pieces(x4 + rest);
    assert(ps[2] == l2 && ps[3] == l3 && ps[4] == l4);
}

proof fn lemma_strip_plain(body: Seq<char>)
    requires
        body.len() > 0,
        body.last() != '\r',
    ensures
        strip_line(body + "\n"@) == body,
{
    reveal_strlit("\n");
    assert((body + "\n"@).drop_last() =~= body);
}

/// A report read back gives the sprint's id, code and window exactly, where
/// these and the sprint's name hold no line break and the end date does not
/// end in a carriage return.
#[verifier::rlimit(60)]
pub proof fn lemma_report_round_trip(
    sprint: Sprint,
    from: Option<String>,
    to: Option<String>,
    exported_at: Seq<char>,
    rs: Seq<ReportRow>,
)
    requires
        no_newline(sprint.name@),
        no_newline(sprint.id@),
        no_newline(sprint.code@),
        no_newline(sprint.start_date@),
        sprint.end_date matches Some(e) ==> no_newline(e@) && (e@.len() == 0 || e@.last() != '\r'),
    ensures
        header_fields(report_text(sprint, from, to, exported_at, rs)) == Some(
            (sprint.id@, sprint.code@, window_text(sprint)),
        ),
{
    reveal_strlit("\n");
    reveal_strlit("\n\n");
    reveal_strlit("# Sprint Report: ");
    reveal_strlit("- Sprint ID: `");
    reveal_strlit("`\n");
    reveal_strlit("`");
    reveal_strlit("- Sprint Code: `");
    reveal_strlit("- Sprint Window: ");
    reveal_strlit(" to ");
    reveal_strlit("open");
    let nl = "\n"@;
    let l0 = "# Sprint Report: "@ + sprint.name@ + nl;
    let l1 = nl;
    let f2 = "- Sprint ID: `"@ + sprint.id@ + "`"@;
    let f3 = "- Sprint Code: `"@ + sprint.code@ + "`"@;
    let f4 = "- Sprint Window: "@ + window_text(sprint);
    let l2 = f2 + nl;
    let l3 = f3 + nl;
    let l4 = f4 + nl;
    let md = report_text(sprint, from, to, exported_at, rs);
    let rest = md.subrange((l0 + l1 + l2 + l3 + l4).len() as int, md.len() as int);
    assert(md =~= l0 + l1 + l2 + l3 + l4 + rest);
    assert(one_line(l0)) by {
        assert(l0.drop_last() =~= "# Sprint Report: "@ + sprint.name@);
    }
    assert(one_line(l1));
    assert(one_line(l2)) by {
        assert(l2.drop_last() =~= f2);
    }
    assert(one_line(l3)) by {
        assert(l3.drop_last() =~= f3);
    }
    assert(one_line(l4)) by {
        assert(l4.drop_last() =~= f4);
    }
    lemma_lines_prefix(l0, l1, l2, l3, l4, rest);
    lemma_strip_plain(f2);
    lemma_strip_plain(f3);
    assert(f4.last() != '\r');
    lemma_strip_plain(f4);
    let ls = lines_of(md);
    assert(ls[2] == f2 && ls[3] == f3 && ls[4] == f4);
    assert(f2.subrange(0, 14) =~= "- Sprint ID: `"@);
    assert(f2.subrange(f2.len() - 1, f2.len() as int) =~= "`"@);
    assert(f2.subrange(14, f2.len() - 1) =~= sprint.id@);
    assert(f3.subrange(0, 16) =~= "- Sprint Code: `"@);
    assert(f3.subrange(f3.len() - 1, f3.len() as int) =~= "`"@);
    assert(f3.subrange(16, f3.len() - 1) =~= sprint.code@);
    assert(f4.subrange(0, 17) =~= "- Sprint Window: "@);
    assert(f4.subrange(f4.len() as int, f4.len() as int) =~= Seq::<char>::empty());
    assert(f4.subrange(17, f4.len() as int) =~= window_text(sprint));
}

} // verus!
