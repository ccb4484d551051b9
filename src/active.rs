//! Choosing the sprint that is current on a given day, and the inclusive
//! date filter.

use vstd::prelude::*;
use crate::model::Sprint;
use crate::text::{
    lemma_seq_lt_asymmetric, lemma_seq_lt_irreflexive, lemma_seq_lt_total, lemma_seq_lt_transitive,
    seq_le, seq_lt, str_eq, str_lt,
};

verus! {

/// `date` lies between the optional bounds, both included.
pub open spec fn in_range(date: Seq<char>, from: Option<String>, to: Option<String>) -> bool {
    &&& match from {
        Some(f) => !seq_lt(date, f@),
        None => true,
    }
    &&& match to {
        Some(t) => !seq_lt(t@, date),
        None => true,
    }
}

/// Whether `date` lies within the optional inclusive bounds `from` and `to`.
pub fn within_range(date: &str, from: &Option<String>, to: &Option<String>) -> (r: bool)
    ensures
        r == in_range(date@, *from, *to),
{
    match from {
        Some(start) => {
            if str_lt(date, start.as_str()) {
                return false;
            }
        },
        None => {},
    }
    match to {
        Some(end) => {
            if str_lt(end.as_str(), date) {
                return false;
            }
        },
        None => {},
    }
    true
}

/// The sprint's window holds `today`: it has started, and it is open-ended
/// or has not ended yet.
pub open spec fn in_window(s: Sprint, today: Seq<char>) -> bool {
    &&& seq_le(s.start_date@, today)
    &&& match s.end_date {
        Some(e) => seq_le(today, e@),
        None => true,
    }
}

/// Sprint `i` comes before sprint `j` among the newest first: created later,
/// or at the same time and listed earlier.
pub open spec fn precedes(ss: Seq<Sprint>, i: int, j: int) -> bool {
    seq_lt(ss[j].created_at@, ss[i].created_at@) || (ss[i].created_at@ == ss[j].created_at@ && i
        <= j)
}

pub open spec fn eligible(ss: Seq<Sprint>, j: int, today: Seq<char>, windowed: bool) -> bool {
    0 <= j < ss.len() && (windowed ==> in_window(ss[j], today))
}

/// `i` is the most recently created of the eligible sprints.
pub open spec fn is_newest(ss: Seq<Sprint>, i: int, today: Seq<char>, windowed: bool) -> bool {
    &&& eligible(ss, i, today, windowed)
    &&& forall|j: int| #[trigger] eligible(ss, j, today, windowed) ==> precedes(ss, i, j)
}

pub open spec fn any_in_window(ss: Seq<Sprint>, today: Seq<char>) -> bool {
    exists|j: int| #[trigger] eligible(ss, j, today, true)
}

fn in_window_exec(s: &Sprint, today: &str) -> (r: bool)
    ensures
        r == in_window(*s, today@),
{
    let starts = str_lt(s.start_date.as_str(), today) || str_eq(s.start_date.as_str(), today);
    let ends = match &s.end_date {
        Some(e) => str_lt(today, e.as_str()) || str_eq(today, e.as_str()),
        None => true,
    };
    starts && ends
}

fn precedes_exec(ss: &Vec<Sprint>, i: usize, j: usize) -> (r: bool)
    requires
        i < ss@.len(),
        j < ss@.len(),
    ensures
        r == precedes(ss@, i as int, j as int),
{
    str_lt(ss[j].created_at.as_str(), ss[i].created_at.as_str()) || (str_eq(
        ss[i].created_at.as_str(),
        ss[j].created_at.as_str(),
    ) && i <= j)
}

proof fn lemma_precedes_order(ss: Seq<Sprint>, i: int, j: int, k: int)
    ensures
        precedes(ss, i, j) && precedes(ss, j, k) ==> precedes(ss, i, k),
        !precedes(ss, i, j) ==> precedes(ss, j, i),
{
    let (a, b, c) = (ss[i].created_at@, ss[j].created_at@, ss[k].created_at@);
    lemma_seq_lt_total(a, b);
    if seq_lt(b, a) && seq_lt(c, b) {
        lemma_seq_lt_transitive(c, b, a);
    }
}

fn newest(ss: &Vec<Sprint>, today: &str, windowed: bool) -> (r: Option<usize>)
    ensures
        r matches Some(i) ==> is_newest(ss@, i as int, today@, windowed),
        r is None ==> forall|j: int| !(#[trigger] eligible(ss@, j, today@, windowed)),
{
    let mut best: Option<usize> = None;
    let mut k: usize = 0;
    while k < ss.len()
        invariant
            k <= ss@.len(),
            best matches Some(i) ==> i < k && eligible(ss@, i as int, today@, windowed) && forall|
                j: int,
            | 0 <= j < k && #[trigger] eligible(ss@, j, today@, windowed) ==> precedes(
                ss@,
                i as int,
                j,
            ),
            best is None ==> forall|j: int|
                0 <= j < k ==> !(#[trigger] eligible(ss@, j, today@, windowed)),
        decreases ss@.len() - k,
    {
        if !windowed || in_window_exec(&ss[k], today) {
            match best {
                None => {
                    best = Some(k);
                    proof {
                        lemma_seq_lt_irreflexive(ss@[k as int].created_at@);
                    }
                },
                Some(i) => {
                    if !precedes_exec(ss, i, k) {
                        proof {
                            lemma_precedes_order(ss@, i as int, k as int, k as int);
                            lemma_seq_lt_irreflexive(ss@[k as int].created_at@);
                            assert forall|j: int|
                                0 <= j < k + 1 && #[trigger] eligible(
                                    ss@,
                                    j,
                                    today@,
                                    windowed,
                                ) implies precedes(ss@, k as int, j) by {
                                if j < k {
                                    lemma_precedes_order(ss@, k as int, i as int, j);
                                }
                            }
                        }
                        best = Some(k);
                    }
                },
            }
        }
        k = k + 1;
    }
    best
}

/// Picks the active sprint's position: the most recently created sprint
/// whose window holds `today`, or else the most recently created sprint.
/// Among equal creation times the one listed first wins.
pub fn pick_active_sprint(sprints: &Vec<Sprint>, today: &str) -> (r: Option<usize>)
    ensures
        r is None <==> sprints@.len() == 0,
        r matches Some(i) ==> is_newest(sprints@, i as int, today@, any_in_window(sprints@, today@)),
{
    match newest(sprints, today, true) {
        Some(i) => Some(i),
        None => {
            let r = newest(sprints, today, false);
            proof {
                if sprints@.len() > 0 {
                    assert(eligible(sprints@, 0, today@, false));
                }
            }
            r
        },
    }
}

/// The id of the active sprint (see `pick_active_sprint`).
pub fn pick_active_sprint_id(sprints: &Vec<Sprint>, today: &str) -> (r: Option<String>)
    ensures
        r is None <==> sprints@.len() == 0,
        r matches Some(id) ==> exists|i: int|
            is_newest(sprints@, i, today@, any_in_window(sprints@, today@)) && id
                == #[trigger] sprints@[i].id,
{
    match pick_active_sprint(sprints, today) {
        Some(i) => Some(sprints[i].id.clone()),
        None => None,
    }
}

/// At most one sprint is the newest of the eligible ones.
pub proof fn lemma_newest_unique(ss: Seq<Sprint>, i: int, j: int, today: Seq<char>, windowed: bool)
    requires
        is_newest(ss, i, today, windowed),
        is_newest(ss, j, today, windowed),
    ensures
        i == j,
{
    assert(eligible(ss, j, today, windowed));
    assert(eligible(ss, i, today, windowed));
    assert(precedes(ss, i, j) && precedes(ss, j, i));
    let (a, b) = (ss[i].created_at@, ss[j].created_at@);
    if seq_lt(b, a) {
        lemma_seq_lt_asymmetric(b, a);
        if a == b {
            lemma_seq_lt_irreflexive(a);
        }
    } else if seq_lt(a, b) {
        lemma_seq_lt_asymmetric(a, b);
        if a == b {
            lemma_seq_lt_irreflexive(a);
        }
    }
}

} // verus!
