//! Sprint codes: reading a number out of free text, the `sprint-<N>` form,
//! the next code to hand out, and the repair of duplicate or malformed codes.

use vstd::prelude::*;
use crate::model::Sprint;
use vstd::arithmetic::div_mod::lemma_fundamental_div_mod;
use crate::text::{
    chars_lt, lemma_seq_lt_asymmetric, lemma_seq_lt_irreflexive, lemma_seq_lt_total,
    lemma_seq_lt_transitive, seq_lt, all_digits, digit_char, digit_value, digits_value, is_digit,
    is_ws, lower_char, trim_end, trim_start, str_eq, copy_range, decimal, lower, lower_chars, parse_u32, parse_u32_chars, push_decimal, string_of, trim,
    trim_chars, trim_str,
};

verus! {

pub open spec fn sprint_word() -> Seq<char> {
    seq!['s', 'p', 'r', 'i', 'n', 't']
}

/// The canonical code of number `n`: `sprint-<n>`.
pub open spec fn code_text(n: nat) -> Seq<char> {
    sprint_word().push('-') + decimal(n)
}

pub open spec fn strip_prefix(s: Seq<char>, p: Seq<char>) -> Option<Seq<char>> {
    if p.len() <= s.len() && s.subrange(0, p.len() as int) == p {
        Some(s.subrange(p.len() as int, s.len() as int))
    } else {
        None
    }
}

/// Every leading `c` removed, as `str::trim_start_matches` does with a char.
pub open spec fn trim_start_char(s: Seq<char>, c: char) -> Seq<char>
    decreases s.len(),
{
    if s.len() > 0 && s[0] == c {
        trim_start_char(s.drop_first(), c)
    } else {
        s
    }
}

/// What follows a leading `sprint-`, `sprint ` or `sprint`, tried in that order.
pub open spec fn sprint_suffix(v: Seq<char>) -> Option<Seq<char>> {
    match strip_prefix(v, sprint_word().push('-')) {
        Some(r) => Some(r),
        None => match strip_prefix(v, sprint_word().push(' ')) {
            Some(r) => Some(r),
            None => strip_prefix(v, sprint_word()),
        },
    }
}

/// The number a free-form code or name carries: the whole text read as a
/// number, or else what follows a case-insensitive `sprint` prefix (and any
/// `-` or `_` after it).
pub open spec fn number_of(raw: Seq<char>) -> Option<nat> {
    let v = lower(trim(raw));
    if v.len() == 0 {
        None
    } else if parse_u32(v) is Some {
        parse_u32(v)
    } else {
        match sprint_suffix(v) {
            None => None,
            Some(rest) => parse_u32(
                trim(trim_start_char(trim_start_char(trim(rest), '-'), '_')),
            ),
        }
    }
}

pub open spec fn opt_nat(o: Option<u32>) -> Option<nat> {
    match o {
        Some(v) => Some(v as nat),
        None => None,
    }
}

fn strip_prefix_exec(s: &Vec<char>, p: &Vec<char>) -> (r: Option<Vec<char>>)
    ensures
        r matches Some(t) ==> strip_prefix(s@, p@) == Some(t@),
        r is None ==> strip_prefix(s@, p@) is None,
{
    if p.len() > s.len() {
        return None;
    }
    let mut i: usize = 0;
    while i < p.len()
        invariant
            i <= p@.len() <= s@.len(),
            forall|k: int| 0 <= k < i ==> s@[k] == p@[k],
        decreases p@.len() - i,
    {
        if s[i] != p[i] {
            assert(s@.subrange(0, p@.len() as int)[i as int] != p@[i as int]);
            return None;
        }
        i = i + 1;
    }
    assert(s@.subrange(0, p@.len() as int) =~= p@);
    Some(copy_range(s, p.len(), s.len()))
}

fn trim_start_char_exec(s: &Vec<char>, c: char) -> (r: Vec<char>)
    ensures
        r@ == trim_start_char(s@, c),
{
    let n = s.len();
    let mut i: usize = 0;
    assert(s@.subrange(0, n as int) =~= s@);
    while i < n && s[i] == c
        invariant
            i <= n == s@.len(),
            trim_start_char(s@, c) == trim_start_char(s@.subrange(i as int, n as int), c),
        decreases n - i,
    {
        assert(s@.subrange(i as int, n as int).drop_first() =~= s@.subrange(i + 1, n as int));
        i = i + 1;
    }
    copy_range(s, i, n)
}

/// Reads the number that a sprint code or name carries, if any.
pub fn sprint_number(raw: &str) -> (r: Option<u32>)
    ensures
        opt_nat(r) == number_of(raw@),
{
    let t = trim_str(raw);
    let v = lower_chars(&t);
    if v.len() == 0 {
        return None;
    }
    match parse_u32_chars(&v) {
        Some(n) => {
            return Some(n);
        },
        None => {},
    }
    let dash = vec!['s', 'p', 'r', 'i', 'n', 't', '-'];
    let space = vec!['s', 'p', 'r', 'i', 'n', 't', ' '];
    let bare = vec!['s', 'p', 'r', 'i', 'n', 't'];
    assert(dash@ =~= sprint_word().push('-'));
    assert(space@ =~= sprint_word().push(' '));
    assert(bare@ =~= sprint_word());
    let rest = match strip_prefix_exec(&v, &dash) {
        Some(r) => r,
        None => match strip_prefix_exec(&v, &space) {
            Some(r) => r,
            None => match strip_prefix_exec(&v, &bare) {
                Some(r) => r,
                None => {
                    return None;
                },
            },
        },
    };
    let a = trim_chars(&rest);
    let b = trim_start_char_exec(&a, '-');
    let c = trim_start_char_exec(&b, '_');
    let d = trim_chars(&c);
    parse_u32_chars(&d)
}

/// The canonical code `sprint-<number>`.
pub fn format_sprint_code(number: u64) -> (r: String)
    ensures
        r@ == code_text(number as nat),
{
    let mut out = vec!['s', 'p', 'r', 'i', 'n', 't', '-'];
    assert(out@ =~= sprint_word().push('-'));
    push_decimal(&mut out, number);
    string_of(&out)
}


/// The number a sprint carries: from its code, or else from its name.
pub open spec fn sprint_number_spec(s: Sprint) -> Option<nat> {
    match number_of(s.code@) {
        Some(n) => Some(n),
        None => number_of(s.name@),
    }
}

/// The largest number that any of the sprints carries, 0 if none does.
pub open spec fn highest_number(ss: Seq<Sprint>) -> nat
    decreases ss.len(),
{
    if ss.len() == 0 {
        0
    } else {
        let h = highest_number(ss.drop_last());
        match sprint_number_spec(ss.last()) {
            Some(n) => if n > h {
                n
            } else {
                h
            },
            None => h,
        }
    }
}

fn number_of_sprint(s: &Sprint) -> (r: Option<u32>)
    ensures
        opt_nat(r) == sprint_number_spec(*s),
{
    match sprint_number(s.code.as_str()) {
        Some(n) => Some(n),
        None => sprint_number(s.name.as_str()),
    }
}

/// The code for a new sprint: one above the highest number that the existing
/// sprints carry.
pub fn next_sprint_code(sprints: &Vec<Sprint>) -> (r: String)
    ensures
        r@ == code_text(highest_number(sprints@) + 1),
{
    let mut highest: u32 = 0;
    let mut i: usize = 0;
    while i < sprints.len()
        invariant
            i <= sprints@.len(),
            highest as nat == highest_number(sprints@.subrange(0, i as int)),
        decreases sprints@.len() - i,
    {
        let ghost pre = sprints@.subrange(0, i as int);
        assert(sprints@.subrange(0, i + 1).drop_last() =~= pre);
        match number_of_sprint(&sprints[i]) {
            Some(n) => {
                if n > highest {
                    highest = n;
                }
            },
            None => {},
        }
        i = i + 1;
    }
    assert(sprints@.subrange(0, i as int) =~= sprints@);
    format_sprint_code(highest as u64 + 1)
}

/// Sprint `i` was created before sprint `j`: an earlier `created_at`, or the
/// same one and an earlier position.
pub open spec fn created_before(ss: Seq<Sprint>, i: int, j: int) -> bool {
    seq_lt(ss[i].created_at@, ss[j].created_at@) || (ss[i].created_at@ == ss[j].created_at@ && i
        < j)
}

/// `ord` lists every position of `ss` once, oldest sprint first.
pub open spec fn is_creation_order(ss: Seq<Sprint>, ord: Seq<int>) -> bool {
    &&& ord.len() == ss.len()
    &&& forall|k: int| 0 <= k < ord.len() ==> 0 <= #[trigger] ord[k] < ss.len()
    &&& forall|j: int| 0 <= j < ss.len() ==> #[trigger] ord.contains(j)
    &&& forall|a: int, b: int|
        0 <= a < b < ord.len() ==> created_before(ss, #[trigger] ord[a], #[trigger] ord[b])
}

proof fn lemma_before_transitive(ss: Seq<Sprint>, i: int, j: int, k: int)
    requires
        created_before(ss, i, j),
        created_before(ss, j, k),
    ensures
        created_before(ss, i, k),
{
    if seq_lt(ss[i].created_at@, ss[j].created_at@) && seq_lt(ss[j].created_at@, ss[k].created_at@) {
        lemma_seq_lt_transitive(ss[i].created_at@, ss[j].created_at@, ss[k].created_at@);
    }
}

proof fn lemma_before_total(ss: Seq<Sprint>, i: int, j: int)
    requires
        i != j,
    ensures
        created_before(ss, i, j) || created_before(ss, j, i),
{
    lemma_seq_lt_total(ss[i].created_at@, ss[j].created_at@);
}

proof fn lemma_before_strict(ss: Seq<Sprint>, i: int, j: int)
    requires
        created_before(ss, i, j),
    ensures
        !created_before(ss, j, i),
        i != j,
{
    if seq_lt(ss[i].created_at@, ss[j].created_at@) {
        lemma_seq_lt_asymmetric(ss[i].created_at@, ss[j].created_at@);
        if i == j {
            lemma_seq_lt_irreflexive(ss[i].created_at@);
        }
    } else {
        lemma_seq_lt_irreflexive(ss[i].created_at@);
    }
}

fn created_before_exec(ss: &Vec<Sprint>, i: usize, j: usize) -> (r: bool)
    requires
        i < ss@.len(),
        j < ss@.len(),
    ensures
        r == created_before(ss@, i as int, j as int),
{
    let a = chars_of_string(&ss[i].created_at);
    let b = chars_of_string(&ss[j].created_at);
    chars_lt(&a, &b) || (str_eq(ss[i].created_at.as_str(), ss[j].created_at.as_str()) && i < j)
}

fn chars_of_string(s: &String) -> (r: Vec<char>)
    ensures
        r@ == s@,
{
    crate::text::chars_of(s.as_str())
}

/// The positions of `sprints`, oldest sprint first; equal creation times keep
/// their positions' order.
pub fn creation_order(sprints: &Vec<Sprint>) -> (ord: Vec<usize>)
    ensures
        is_creation_order(sprints@, ord@.map_values(|k: usize| k as int)),
{
    let n = sprints.len();
    let mut ord: Vec<usize> = Vec::new();
    let mut i: usize = 0;
    while i < n
        invariant
            i <= n == sprints@.len(),
            ord@.len() == i,
            forall|k: int| 0 <= k < i ==> #[trigger] ord@[k] < i,
            forall|j: int| 0 <= j < i ==> #[trigger] ord@.contains(j as usize),
            forall|a: int, b: int|
                0 <= a < b < i ==> created_before(
                    sprints@,
                    #[trigger] ord@[a] as int,
                    #[trigger] ord@[b] as int,
                ),
        decreases n - i,
    {
        let mut p: usize = 0;
        while p < ord.len() && created_before_exec(sprints, ord[p], i)
            invariant
                i < n == sprints@.len(),
                ord@.len() == i,
                p <= i,
                forall|k: int| 0 <= k < i ==> #[trigger] ord@[k] < i,
                forall|q: int| 0 <= q < p ==> created_before(sprints@, #[trigger] ord@[q] as int, i as int),
            decreases i - p,
        {
            p = p + 1;
        }
        proof {
            if p < i {
                assert(!created_before(sprints@, ord@[p as int] as int, i as int));
                lemma_before_total(sprints@, ord@[p as int] as int, i as int);
                assert forall|q: int| p < q < i implies created_before(
                    sprints@,
                    i as int,
                    #[trigger] ord@[q] as int,
                ) by {
                    assert(created_before(sprints@, ord@[p as int] as int, ord@[q] as int));
                    lemma_before_transitive(sprints@, i as int, ord@[p as int] as int, ord@[q] as int);
                }
            }
        }
        let ghost old_ord = ord@;
        ord.insert(p, i);
        proof {
            assert forall|j: int| 0 <= j < i + 1 implies #[trigger] ord@.contains(j as usize) by {
                if j == i {
                    assert(ord@[p as int] == i);
                } else {
                    assert(old_ord.contains(j as usize));
                    let w = choose|w: int| 0 <= w < old_ord.len() && old_ord[w] == j as usize;
                    if w < p {
                        assert(ord@[w] == j as usize);
                    } else {
                        assert(ord@[w + 1] == j as usize);
                    }
                }
            }
            assert forall|a: int, b: int| 0 <= a < b < i + 1 implies created_before(
                sprints@,
                #[trigger] ord@[a] as int,
                #[trigger] ord@[b] as int,
            ) by {
                if b < p {
                    assert(ord@[a] == old_ord[a] && ord@[b] == old_ord[b]);
                } else if b == p {
                    assert(ord@[a] == old_ord[a]);
                } else if a == p {
                    assert(ord@[b] == old_ord[b - 1]);
                } else if a < p {
                    assert(ord@[a] == old_ord[a] && ord@[b] == old_ord[b - 1]);
                } else {
                    assert(ord@[a] == old_ord[a - 1] && ord@[b] == old_ord[b - 1]);
                }
            }
        }
        i = i + 1;
    }
    proof {
        let m = ord@.map_values(|k: usize| k as int);
        assert forall|j: int| 0 <= j < n implies #[trigger] m.contains(j) by {
            assert(ord@.contains(j as usize));
            let w = choose|w: int| 0 <= w < ord@.len() && ord@[w] == j as usize;
            assert(m[w] == j);
        }
    }
    ord
}


/// The first walk over the numbers the sprints carry, oldest first: a
/// sprint keeps its number where no earlier sprint kept the same one
/// (`Some`), and is left for the second walk otherwise (`None`). Also gives
/// the highest number kept (0 if none).
pub open spec fn first_pass(ps: Seq<Option<nat>>) -> (nat, Seq<Option<nat>>)
    decreases ps.len(),
{
    if ps.len() == 0 {
        (0, Seq::empty())
    } else {
        let (h, kept) = first_pass(ps.drop_last());
        match ps.last() {
            Some(v) => if kept.contains(Some(v)) {
                (h, kept.push(None))
            } else {
                (if v > h {
                    v
                } else {
                    h
                }, kept.push(Some(v)))
            },
            None => (h, kept.push(None)),
        }
    }
}

/// How many sprints were left for the second walk.
pub open spec fn pending_count(kept: Seq<Option<nat>>) -> nat
    decreases kept.len(),
{
    if kept.len() == 0 {
        0
    } else {
        pending_count(kept.drop_last()) + if kept.last() is None {
            1nat
        } else {
            0nat
        }
    }
}

/// The number each sprint ends up with, oldest first: the number it kept,
/// or, in the second walk, the next number above the highest one kept.
pub open spec fn assigned(ps: Seq<Option<nat>>) -> Seq<nat> {
    let (h, kept) = first_pass(ps);
    Seq::new(
        kept.len(),
        |k: int|
            match kept[k] {
                Some(v) => v,
                None => h + pending_count(kept.subrange(0, k + 1)),
            },
    )
}

pub proof fn lemma_first_pass(ps: Seq<Option<nat>>)
    ensures
        first_pass(ps).1.len() == ps.len(),
        forall|k: int|
            0 <= k < ps.len() ==> (#[trigger] first_pass(ps).1[k] matches Some(v) ==> ps[k] == Some(v)
                && v <= first_pass(ps).0),
        forall|a: int, b: int|
            0 <= a < ps.len() && 0 <= b < ps.len() && a != b && (#[trigger] first_pass(ps).1[a]) is Some
                ==> first_pass(ps).1[a] != #[trigger] first_pass(ps).1[b],
    decreases ps.len(),
{
    if ps.len() > 0 {
        let pre = ps.drop_last();
        lemma_first_pass(pre);
        let (h, kept) = first_pass(pre);
        let n = ps.len() - 1;
        assert forall|k: int| 0 <= k < n implies ps[k] == pre[k] by {}
        if let Some(v) = ps.last() {
            if !kept.contains(Some(v)) {
                assert forall|a: int| 0 <= a < n && (#[trigger] kept[a]) is Some implies kept[a] != Some(v) by {
                    if kept[a] == Some(v) {
                        assert(kept.contains(Some(v)));
                    }
                }
            }
        }
    }
}

proof fn lemma_pending_step(kept: Seq<Option<nat>>, j: int)
    requires
        0 <= j < kept.len(),
    ensures
        pending_count(kept.subrange(0, j + 1)) == pending_count(kept.subrange(0, j)) + if kept[j] is None {
            1nat
        } else {
            0nat
        },
{
    assert(kept.subrange(0, j + 1).drop_last() =~= kept.subrange(0, j));
}

proof fn lemma_pending_grows(kept: Seq<Option<nat>>, i: int, j: int)
    requires
        0 <= i < j < kept.len(),
        kept[j] is None,
    ensures
        pending_count(kept.subrange(0, i + 1)) < pending_count(kept.subrange(0, j + 1)),
    decreases j - i,
{
    lemma_pending_step(kept, j);
    if i + 1 < j {
        lemma_pending_monotone(kept, i + 1, j);
    }
}

proof fn lemma_pending_monotone(kept: Seq<Option<nat>>, a: int, b: int)
    requires
        0 <= a <= b <= kept.len(),
    ensures
        pending_count(kept.subrange(0, a)) <= pending_count(kept.subrange(0, b)),
    decreases b - a,
{
    if a < b {
        lemma_pending_step(kept, b - 1);
        lemma_pending_monotone(kept, a, b - 1);
    }
}

proof fn lemma_pending_le(kept: Seq<Option<nat>>, j: int)
    requires
        0 <= j <= kept.len(),
    ensures
        pending_count(kept.subrange(0, j)) <= j,
    decreases j,
{
    if j > 0 {
        lemma_pending_step(kept, j - 1);
        lemma_pending_le(kept, j - 1);
    }
}

/// The numbers that the sprints carry, oldest sprint first.
pub open spec fn numbers_in_order(ss: Seq<Sprint>, ord: Seq<int>) -> Seq<Option<nat>> {
    ord.map_values(|j: int| sprint_number_spec(ss[j]))
}

pub open spec fn same_but_code(a: Sprint, b: Sprint) -> bool {
    &&& a.id == b.id
    &&& a.name == b.name
    &&& a.start_date == b.start_date
    &&& a.end_date == b.end_date
    &&& a.created_at == b.created_at
}

/// `after` is `before` with the codes repaired: taking the sprints oldest
/// first, the `k`-th one gets `sprint-<assigned(..)[k]>`, nothing else changes.
pub open spec fn renumbered(before: Seq<Sprint>, after: Seq<Sprint>, ord: Seq<int>) -> bool {
    &&& is_creation_order(before, ord)
    &&& after.len() == before.len()
    &&& forall|k: int|
        0 <= k < ord.len() ==> {
            &&& (#[trigger] after[ord[k]]).code@ == code_text(
                assigned(numbers_in_order(before, ord))[k],
            )
            &&& same_but_code(after[ord[k]], before[ord[k]])
        }
}

fn kept_contains(kept: &Vec<Option<u64>>, v: u64) -> (r: bool)
    ensures
        r == opt_nats(kept@).contains(Some(v as nat)),
{
    let ghost m = opt_nats(kept@);
    let mut i: usize = 0;
    while i < kept.len()
        invariant
            i <= kept@.len(),
            m == opt_nats(kept@),
            forall|k: int| 0 <= k < i ==> kept@[k] != Some(v),
        decreases kept@.len() - i,
    {
        if kept[i] == Some(v) {
            assert(m[i as int] == Some(v as nat));
            return true;
        }
        i = i + 1;
    }
    proof {
        if m.contains(Some(v as nat)) {
            let w = choose|w: int| 0 <= w < m.len() && m[w] == Some(v as nat);
            assert(kept@[w] == Some(v));
        }
    }
    false
}

pub open spec fn opt_nats(v: Seq<Option<u64>>) -> Seq<Option<nat>> {
    v.map_values(
        |o: Option<u64>|
            match o {
                Some(x) => Some(x as nat),
                None => None,
            },
    )
}

/// Repairs the sprint codes so that no two sprints share one. Oldest
/// first, each sprint keeps the number it carries unless an older sprint
/// kept it already; the sprints left over, oldest first, then get the
/// numbers above the highest number kept. Every code is written as
/// `sprint-<number>`. Returns whether any code changed.
pub fn normalize_sprint_codes(sprints: &mut Vec<Sprint>) -> (changed: bool)
    requires
        old(sprints)@.len() <= u32::MAX,
    ensures
        exists|ord: Seq<int>| renumbered(old(sprints)@, final(sprints)@, ord),
        changed == exists|j: int|
            0 <= j < old(sprints)@.len() && (#[trigger] final(sprints)@[j]).code@ != old(
                sprints,
            )@[j].code@,
{
    let ord_exec = creation_order(sprints);
    let ghost ord = ord_exec@.map_values(|k: usize| k as int);
    let ghost ps = numbers_in_order(sprints@, ord);
    let n = sprints.len();
    let mut highest: u64 = 0;
    let mut kept: Vec<Option<u64>> = Vec::new();
    let mut k: usize = 0;
    while k < n
        invariant
            k <= n == sprints@.len() <= u32::MAX,
            ord_exec@.len() == n,
            ord == ord_exec@.map_values(|k: usize| k as int),
            is_creation_order(sprints@, ord),
            ps == numbers_in_order(sprints@, ord),
            highest <= u32::MAX,
            highest as nat == first_pass(ps.subrange(0, k as int)).0,
            opt_nats(kept@) == first_pass(ps.subrange(0, k as int)).1,
        decreases n - k,
    {
        let j = ord_exec[k];
        assert(ord[k as int] == j as int);
        let ghost pre = ps.subrange(0, k as int);
        assert(ps.subrange(0, k + 1).drop_last() =~= pre);
        assert(ps.subrange(0, k + 1).last() == ps[k as int]);
        let ghost before = kept@;
        match number_of_sprint(&sprints[j]) {
            Some(v) => {
                if kept_contains(&kept, v as u64) {
                    kept.push(None);
                } else {
                    kept.push(Some(v as u64));
                    if v as u64 > highest {
                        highest = v as u64;
                    }
                }
            },
            None => {
                kept.push(None);
            },
        }
        assert(opt_nats(kept@) =~= opt_nats(before).push(
            match kept@.last() {
                Some(x) => Some(x as nat),
                None => None,
            },
        ));
        k = k + 1;
    }
    assert(ps.subrange(0, n as int) =~= ps);
    let ghost kept_s = first_pass(ps).1;
    let ghost h = first_pass(ps).0;
    proof {
        lemma_first_pass(ps);
    }
    let mut out: Vec<Sprint> = Vec::new();
    let mut i: usize = 0;
    while i < n
        invariant
            i <= n == sprints@.len(),
            out@ == sprints@.subrange(0, i as int),
        decreases n - i,
    {
        out.push(sprints[i].copied());
        i = i + 1;
        assert(out@ =~= sprints@.subrange(0, i as int));
    }
    assert(out@ =~= sprints@);
    let mut pending: u64 = 0;
    let mut changed = false;
    let mut k: usize = 0;
    while k < n
        invariant
            k <= n == sprints@.len() <= u32::MAX,
            ord_exec@.len() == n,
            kept@.len() == n,
            ord == ord_exec@.map_values(|k: usize| k as int),
            is_creation_order(sprints@, ord),
            ps == numbers_in_order(sprints@, ord),
            kept_s == first_pass(ps).1,
            h == first_pass(ps).0,
            opt_nats(kept@) == kept_s,
            highest as nat == h,
            highest <= u32::MAX,
            pending as nat == pending_count(kept_s.subrange(0, k as int)),
            pending <= k,
            out@.len() == n,
            forall|q: int|
                0 <= q < k ==> {
                    &&& (#[trigger] out@[ord[q]]).code@ == code_text(assigned(ps)[q])
                    &&& same_but_code(out@[ord[q]], sprints@[ord[q]])
                },
            forall|q: int| k <= q < n ==> #[trigger] out@[ord[q]] == sprints@[ord[q]],
            changed == exists|j: int|
                0 <= j < n && (#[trigger] out@[j]).code@ != sprints@[j].code@,
        decreases n - k,
    {
        let j = ord_exec[k];
        assert(ord[k as int] == j as int);
        proof {
            lemma_pending_step(kept_s, k as int);
        }
        let c: u64 = match kept[k] {
            Some(v) => v,
            None => {
                pending = pending + 1;
                highest + pending
            },
        };
        assert(c as nat == assigned(ps)[k as int]);
        let ghost old_out = out@;
        let mut s = out[j].copied();
        let code = format_sprint_code(c);
        let differs = !str_eq(code.as_str(), sprints[j].code.as_str());
        s.code = code;
        out.set(j, s);
        if differs {
            changed = true;
        }
        proof {
            assert forall|q: int| 0 <= q < k + 1 implies {
                &&& (#[trigger] out@[ord[q]]).code@ == code_text(assigned(ps)[q])
                &&& same_but_code(out@[ord[q]], sprints@[ord[q]])
            } by {
                if q < k {
                    assert(created_before(sprints@, ord[q], ord[k as int]));
                    lemma_before_strict(sprints@, ord[q], ord[k as int]);
                }
            }
            assert forall|q: int| k + 1 <= q < n implies #[trigger] out@[ord[q]] == sprints@[ord[q]] by {
                assert(created_before(sprints@, ord[k as int], ord[q]));
                lemma_before_strict(sprints@, ord[k as int], ord[q]);
            }
            if differs {
                assert(out@[j as int].code@ != sprints@[j as int].code@);
            }
            if exists|jj: int| 0 <= jj < n && (#[trigger] out@[jj]).code@ != sprints@[jj].code@ {
                let jj = choose|jj: int| 0 <= jj < n && (#[trigger] out@[jj]).code@ != sprints@[jj].code@;
                if jj != j {
                    assert(out@[jj] == old_out[jj]);
                }
            }
            if changed && !differs {
                let jj = choose|jj: int| 0 <= jj < n && (#[trigger] old_out[jj]).code@ != sprints@[jj].code@;
                if jj != j {
                    assert(out@[jj] == old_out[jj]);
                }
            }
        }
        k = k + 1;
    }
    assert(renumbered(sprints@, out@, ord));
    *sprints = out;
    changed
}

proof fn lemma_decimal(n: nat)
    ensures
        decimal(n).len() >= 1,
        all_digits(decimal(n)),
        digits_value(decimal(n)) == n,
    decreases n,
{
    let d = n % 10;
    assert(digit_value(digit_char(d)) == d && is_digit(digit_char(d)));
    if n >= 10 {
        lemma_decimal(n / 10);
        let s = decimal(n);
        assert(s.drop_last() =~= decimal(n / 10));
        lemma_fundamental_div_mod(n as int, 10);
        assert(s.last() == digit_char(d));
        assert(digits_value(s) == digits_value(decimal(n / 10)) * 10 + d);
        assert((n / 10) * 10 + d == n) by (nonlinear_arith)
            requires
                n == 10 * (n / 10) + n % 10,
                d == n % 10,
        ;
        assert forall|i: int| 0 <= i < s.len() implies is_digit(#[trigger] s[i]) by {
            if i < s.len() - 1 {
                assert(s[i] == decimal(n / 10)[i]);
            }
        }
    } else {
        assert(decimal(n)[0] == digit_char(n));
        assert(decimal(n).drop_last() =~= Seq::<char>::empty());
        assert(digits_value(Seq::<char>::empty()) == 0);
    }
}

proof fn lemma_plain_text(s: Seq<char>)
    requires
        s.len() >= 1,
        !is_ws(s[0]),
        !is_ws(s.last()),
        forall|i: int| 0 <= i < s.len() ==> lower_char(#[trigger] s[i]) == s[i],
    ensures
        trim(s) == s,
        lower(s) == s,
{
    assert(trim_start(s) == s);
    assert(trim_end(s) == s);
    assert(lower(s) =~= s);
}

/// A canonical code reads back as its own number.
pub proof fn lemma_code_number(n: nat)
    requires
        n <= u32::MAX,
    ensures
        number_of(code_text(n)) == Some(n),
{
    lemma_decimal(n);
    let dec = decimal(n);
    let c = code_text(n);
    let pre = sprint_word().push('-');
    assert(c.len() == dec.len() + 7);
    assert forall|i: int| 0 <= i < c.len() implies lower_char(#[trigger] c[i]) == c[i] by {
        if i >= 7 {
            assert(c[i] == dec[i - 7]);
            assert(is_digit(dec[i - 7]));
        }
    }
    assert(c.last() == dec.last());
    assert(is_digit(dec[dec.len() - 1]));
    lemma_plain_text(c);
    assert(is_digit(dec[0]));
    assert forall|i: int| 0 <= i < dec.len() implies lower_char(#[trigger] dec[i]) == dec[i] by {
        assert(is_digit(dec[i]));
    }
    lemma_plain_text(dec);
    assert(!all_digits(c)) by {
        assert(!is_digit(c[0]));
    }
    assert(parse_u32(c) is None);
    assert(c.subrange(0, 7) =~= pre);
    assert(c.subrange(7, c.len() as int) =~= dec);
    assert(sprint_suffix(c) == Some(dec));
    assert(trim_start_char(dec, '-') == dec);
    assert(trim_start_char(dec, '_') == dec);
    assert(parse_u32(dec) == Some(n));
}

pub open spec fn distinct_nats(s: Seq<nat>) -> bool {
    forall|a: int, b: int| 0 <= a < s.len() && 0 <= b < s.len() && a != b ==> s[a] != s[b]
}

/// Every sprint ends up with its own number: kept numbers differ from each
/// other and are at most the highest kept, and the others count up from
/// above it.
proof fn lemma_assigned_distinct(ps: Seq<Option<nat>>)
    ensures
        assigned(ps).len() == ps.len(),
        distinct_nats(assigned(ps)),
{
    lemma_first_pass(ps);
    let (h, kept) = first_pass(ps);
    let a = assigned(ps);
    assert forall|x: int, y: int| 0 <= x < a.len() && 0 <= y < a.len() && x != y implies a[x] != a[y] by {
        if kept[x] is Some && kept[y] is Some {
        } else if kept[x] is Some {
            lemma_pending_monotone(kept, 0, y + 1);
            lemma_pending_step(kept, y);
        } else if kept[y] is Some {
            lemma_pending_monotone(kept, 0, x + 1);
            lemma_pending_step(kept, x);
        } else if x < y {
            lemma_pending_grows(kept, x, y);
        } else {
            lemma_pending_grows(kept, y, x);
        }
    }
}

/// When every number carried is present and carried once, every sprint
/// keeps its number.
proof fn lemma_assigned_keep(ps: Seq<Option<nat>>)
    requires
        forall|i: int| 0 <= i < ps.len() ==> (#[trigger] ps[i]) is Some,
        forall|a: int, b: int|
            0 <= a < ps.len() && 0 <= b < ps.len() && a != b ==> ps[a] != ps[b],
    ensures
        assigned(ps).len() == ps.len(),
        forall|i: int| 0 <= i < ps.len() ==> Some(#[trigger] assigned(ps)[i]) == ps[i],
{
    lemma_first_pass(ps);
    lemma_first_pass_keeps(ps);
}

proof fn lemma_first_pass_keeps(ps: Seq<Option<nat>>)
    requires
        forall|i: int| 0 <= i < ps.len() ==> (#[trigger] ps[i]) is Some,
        forall|a: int, b: int|
            0 <= a < ps.len() && 0 <= b < ps.len() && a != b ==> ps[a] != ps[b],
    ensures
        first_pass(ps).1 == ps,
    decreases ps.len(),
{
    if ps.len() > 0 {
        let pre = ps.drop_last();
        lemma_first_pass_keeps(pre);
        let v = ps.last()->0;
        assert(!pre.contains(Some(v))) by {
            if pre.contains(Some(v)) {
                let w = choose|w: int| 0 <= w < pre.len() && pre[w] == Some(v);
                assert(ps[w] == ps[ps.len() - 1]);
            }
        }
        assert(first_pass(ps).1 =~= ps);
    }
}

/// Repairing the codes a second time changes none of them: after one repair
/// every sprint carries a distinct canonical code, whatever order a later
/// walk takes.
pub proof fn lemma_normalize_idempotent(
    before: Seq<Sprint>,
    after: Seq<Sprint>,
    ord: Seq<int>,
    again: Seq<Sprint>,
    ord2: Seq<int>,
)
    requires
        renumbered(before, after, ord),
        forall|k: int| 0 <= k < ord.len() ==> #[trigger] assigned(numbers_in_order(before, ord))[k] <= u32::MAX,
        renumbered(after, again, ord2),
    ensures
        forall|j: int| 0 <= j < after.len() ==> (#[trigger] again[j]).code@ == after[j].code@,
{
    let ps = numbers_in_order(before, ord);
    let chosen = assigned(ps);
    lemma_assigned_distinct(ps);
    assert forall|k: int| 0 <= k < ord.len() implies sprint_number_spec(
        #[trigger] after[ord[k]],
    ) == Some(chosen[k]) by {
        lemma_code_number(chosen[k]);
    }
    let ps2 = numbers_in_order(after, ord2);
    assert forall|i: int| 0 <= i < ps2.len() implies (#[trigger] ps2[i]) is Some && exists|
        k: int,
    | 0 <= k < ord.len() && ord[k] == ord2[i] && ps2[i] == Some(chosen[k]) by {
        let j = ord2[i];
        assert(ord.contains(j));
        let k = choose|k: int| 0 <= k < ord.len() && ord[k] == j;
        assert(sprint_number_spec(after[ord[k]]) == Some(chosen[k]));
    }
    assert forall|a: int, b: int|
        0 <= a < ps2.len() && 0 <= b < ps2.len() && a != b implies ps2[a] != ps2[b] by {
        let ka = choose|k: int| 0 <= k < ord.len() && ord[k] == ord2[a] && ps2[a] == Some(chosen[k]);
        let kb = choose|k: int| 0 <= k < ord.len() && ord[k] == ord2[b] && ps2[b] == Some(chosen[k]);
        assert(created_before(after, ord2[a], ord2[b]) || created_before(after, ord2[b], ord2[a]));
        if a < b {
            lemma_before_strict(after, ord2[a], ord2[b]);
        } else {
            lemma_before_strict(after, ord2[b], ord2[a]);
        }
    }
    lemma_assigned_keep(ps2);
    assert forall|j: int| 0 <= j < after.len() implies (#[trigger] again[j]).code@ == after[j].code@ by {
        assert(ord2.contains(j));
        let i = choose|i: int| 0 <= i < ord2.len() && ord2[i] == j;
        let k = choose|k: int| 0 <= k < ord.len() && ord[k] == ord2[i] && ps2[i] == Some(chosen[k]);
        assert(Some(assigned(ps2)[i]) == ps2[i]);
        assert(again[ord2[i]].code@ == code_text(assigned(ps2)[i]));
        assert(after[ord[k]].code@ == code_text(chosen[k]));
    }
}

proof fn lemma_code_text_injective(a: nat, b: nat)
    requires
        code_text(a) == code_text(b),
    ensures
        a == b,
{
    lemma_decimal(a);
    lemma_decimal(b);
    assert(code_text(a).subrange(7, code_text(a).len() as int) =~= decimal(a));
    assert(code_text(b).subrange(7, code_text(b).len() as int) =~= decimal(b));
}

/// After a repair no two sprints share a code.
pub proof fn lemma_normalized_codes_distinct(before: Seq<Sprint>, after: Seq<Sprint>, ord: Seq<int>)
    requires
        renumbered(before, after, ord),
    ensures
        forall|i: int, j: int|
            0 <= i < after.len() && 0 <= j < after.len() && i != j ==> (#[trigger] after[i]).code@
                != (#[trigger] after[j]).code@,
{
    let chosen = assigned(numbers_in_order(before, ord));
    lemma_assigned_distinct(numbers_in_order(before, ord));
    assert forall|i: int, j: int|
        0 <= i < after.len() && 0 <= j < after.len() && i != j implies (#[trigger] after[i]).code@
            != (#[trigger] after[j]).code@ by {
        assert(ord.contains(i) && ord.contains(j));
        let ki = choose|k: int| 0 <= k < ord.len() && ord[k] == i;
        let kj = choose|k: int| 0 <= k < ord.len() && ord[k] == j;
        if after[i].code@ == after[j].code@ {
            assert(after[ord[ki]].code@ == code_text(chosen[ki]));
            assert(after[ord[kj]].code@ == code_text(chosen[kj]));
            lemma_code_text_injective(chosen[ki], chosen[kj]);
        }
    }
}

} // verus!
