//! Analysis of a decoded dictionary index dump: the lines
//! `indx[R].entries[E] = { label = "...", ... }` are read into entries, grouped
//! by index record, checked for raw UTF-16BE order within each record (the
//! precondition for a reader's binary search to find a label at all), and
//! searched for target labels.
use vstd::prelude::*;
use crate::text::{
    chars_of, extract_quoted_after, find_chars, first_occurrence_at, lines_of,
    lemma_first_occurrence_unique, parse_usize, parsed_usize, quoted_after, split_lines,
    starts_with, starts_with_exec, sub_chars,
};
use crate::utf16::{compare_units, label_sign, lemma_label_sign_transitive, utf16be_bytes};

verus! {

/// One decoded index entry: its record number, its entry number within the
/// record, and its label.
pub struct IndexEntry {
    pub record: usize,
    pub entry: usize,
    pub label: String,
}

/// An entry as (record, entry, label).
pub open spec fn entry_view(e: IndexEntry) -> (int, int, Seq<char>) {
    (e.record as int, e.entry as int, e.label@)
}

/// A list of entries as (record, entry, label) triples.
pub open spec fn entries_view(es: Seq<IndexEntry>) -> Seq<(int, int, Seq<char>)> {
    es.map_values(|e: IndexEntry| entry_view(e))
}

pub open spec fn indx_prefix() -> Seq<char> {
    seq!['i', 'n', 'd', 'x', '[']
}

pub open spec fn entries_prefix() -> Seq<char> {
    seq!['.', 'e', 'n', 't', 'r', 'i', 'e', 's', '[']
}

pub open spec fn label_marker() -> Seq<char> {
    seq!['l', 'a', 'b', 'e', 'l', ' ', '=', ' ']
}

pub open spec fn routing_label_marker() -> Seq<char> {
    seq!['r', 'o', 'u', 't', 'i', 'n', 'g', '_', 'l', 'a', 'b', 'e', 'l', ' ', '=', ' ']
}

/// The number written before the first `]` of `s`, with the position of that
/// `]`; `None` when there is no `]` or the text before it is not a number.
pub open spec fn bracketed_number(s: Seq<char>) -> Option<(int, int)> {
    if exists|c: int| first_occurrence_at(s, seq![']'], c) {
        let c = choose|c: int| first_occurrence_at(s, seq![']'], c);
        match parsed_usize(s.take(c)) {
            Some(v) => Some((v, c)),
            None => None,
        }
    } else {
        None
    }
}

/// The label of an entry line: the quoted string after the first
/// `label = `, or else after the first `routing_label = `.
pub open spec fn line_label(line: Seq<char>) -> Option<Seq<char>> {
    match quoted_after(line, label_marker()) {
        Some(l) => Some(l),
        None => quoted_after(line, routing_label_marker()),
    }
}

/// The entry that a dump line `indx[R].entries[E] = { label = "..." ... }`
/// describes; `None` for every other line.
pub open spec fn entry_line(line: Seq<char>) -> Option<(int, int, Seq<char>)> {
    if !starts_with(line, indx_prefix()) {
        None
    } else {
        let rest = line.skip(5);
        match bracketed_number(rest) {
            None => None,
            Some((record, close)) => {
                let rest2 = rest.skip(close + 1);
                if !starts_with(rest2, entries_prefix()) {
                    None
                } else {
                    match bracketed_number(rest2.skip(9)) {
                        None => None,
                        Some((entry, _)) => match line_label(line) {
                            Some(l) => Some((record, entry, l)),
                            None => None,
                        },
                    }
                }
            },
        }
    }
}

fn bracketed_number_exec(s: &Vec<char>) -> (r: Option<(usize, usize)>)
    ensures
        match r {
            Some((v, c)) => bracketed_number(s@) == Some((v as int, c as int)),
            None => bracketed_number(s@) is None,
        },
{
    let close = vec![']'];
    assert(close@ =~= seq![']']);
    match find_chars(s, &close) {
        None => None,
        Some(c) => {
            proof {
                assert(first_occurrence_at(s@, seq![']'], c as int));
                let c0 = choose|c0: int| first_occurrence_at(s@, seq![']'], c0);
                lemma_first_occurrence_unique(s@, seq![']'], c0, c as int);
            }
            let head = sub_chars(s, 0, c);
            assert(head@ =~= s@.take(c as int));
            match parse_usize(&head) {
                Some(v) => Some((v, c)),
                None => None,
            }
        },
    }
}

/// Reads one dump line `indx[R].entries[E] = { label = "..." ... }` into an
/// entry; `None` for every other line.
pub fn parse_entry_line(line: &str) -> (r: Option<IndexEntry>)
    ensures
        match r {
            Some(e) => entry_line(line@) == Some(entry_view(e)),
            None => entry_line(line@) is None,
        },
{
    let chars = chars_of(line);
    let n = chars.len();
    let prefix = vec!['i', 'n', 'd', 'x', '['];
    if !starts_with_exec(&chars, &prefix) {
        return None;
    }
    let rest = sub_chars(&chars, 5, n);
    assert(rest@ =~= line@.skip(5));
    let (record, close) = match bracketed_number_exec(&rest) {
        Some(p) => p,
        None => {
            return None;
        },
    };
    let rn = rest.len();
    let rest2 = sub_chars(&rest, close + 1, rn);
    assert(rest2@ =~= rest@.skip(close + 1));
    let entries = vec!['.', 'e', 'n', 't', 'r', 'i', 'e', 's', '['];
    if !starts_with_exec(&rest2, &entries) {
        return None;
    }
    let rn2 = rest2.len();
    let rest3 = sub_chars(&rest2, 9, rn2);
    assert(rest3@ =~= rest2@.skip(9));
    let entry = match bracketed_number_exec(&rest3) {
        Some((v, _)) => v,
        None => {
            return None;
        },
    };
    proof {
        reveal_strlit("label = ");
        reveal_strlit("routing_label = ");
        assert("label = "@ =~= label_marker());
        assert("routing_label = "@ =~= routing_label_marker());
    }
    let label = match extract_quoted_after(line, "label = ") {
        Some(l) => l,
        None => match extract_quoted_after(line, "routing_label = ") {
            Some(l) => l,
            None => {
                return None;
            },
        },
    };
    Some(IndexEntry { record, entry, label })
}

/// The entries described by a sequence of dump lines, in line order.
pub open spec fn dump_entries(lines: Seq<Seq<char>>) -> Seq<(int, int, Seq<char>)>
    decreases lines.len(),
{
    if lines.len() == 0 {
        Seq::empty()
    } else {
        let before = dump_entries(lines.drop_last());
        match entry_line(lines.last()) {
            Some(e) => before.push(e),
            None => before,
        }
    }
}

/// Reads every entry line of a dump, in line order.
pub fn parse_dump_entries(dump: &str) -> (es: Vec<IndexEntry>)
    ensures
        entries_view(es@) == dump_entries(lines_of(dump@)),
{
    let lines = split_lines(dump);
    let ghost all = lines_of(dump@);
    let n = lines.len();
    let mut es: Vec<IndexEntry> = Vec::new();
    let mut i: usize = 0;
    assert(all.take(0) =~= Seq::<Seq<char>>::empty());
    while i < n
        invariant
            n == lines@.len(),
            n == all.len(),
            all == lines_of(dump@),
            forall|k: int| 0 <= k < n ==> (#[trigger] lines@[k])@ == all[k],
            i <= n,
            entries_view(es@) == dump_entries(all.take(i as int)),
        decreases n - i,
    {
        assert(all.take(i + 1).drop_last() =~= all.take(i as int));
        assert(all.take(i + 1).last() == lines@[i as int]@);
        match parse_entry_line(lines[i].as_str()) {
            Some(e) => {
                es.push(e);
                assert(entries_view(es@) =~= dump_entries(all.take(i as int)).push(entry_view(e)));
            },
            None => {},
        }
        i = i + 1;
    }
    assert(all.take(n as int) =~= all);
    es
}

// ---------------------------------------------------------------------------
// Records
// ---------------------------------------------------------------------------

/// The entries of one index record: the record number and the positions, in
/// the entry list, of the entries that belong to it.
pub struct RecordGroup {
    pub record: usize,
    pub positions: Vec<usize>,
}

/// A group as (record, positions).
pub open spec fn group_view(g: RecordGroup) -> (int, Seq<int>) {
    (g.record as int, g.positions@.map_values(|p: usize| p as int))
}

/// A list of groups as (record, positions) pairs.
pub open spec fn groups_view(gs: Seq<RecordGroup>) -> Seq<(int, Seq<int>)> {
    gs.map_values(|g: RecordGroup| group_view(g))
}

/// The positions, in increasing order, among the first `k` entries of `es`
/// whose record number is `r`.
pub open spec fn positions_in(es: Seq<(int, int, Seq<char>)>, r: int, k: int) -> Seq<int>
    decreases k,
{
    if k <= 0 {
        Seq::empty()
    } else {
        let before = positions_in(es, r, k - 1);
        if es[k - 1].0 == r {
            before.push(k - 1)
        } else {
            before
        }
    }
}

/// `gs` groups the entries `es` by record: one group per record number that
/// occurs, in increasing record order, each listing the positions of that
/// record's entries in entry order.
pub open spec fn grouped_by_record(es: Seq<(int, int, Seq<char>)>, gs: Seq<(int, Seq<int>)>) -> bool {
    &&& forall|a: int, b: int| 0 <= a < b < gs.len() ==> #[trigger] gs[a].0 < #[trigger] gs[b].0
    &&& forall|g: int| 0 <= g < gs.len() ==> (#[trigger] gs[g]).1 == positions_in(es, gs[g].0, es.len() as int)
    &&& forall|k: int| 0 <= k < es.len() ==> has_group(gs, (#[trigger] es[k]).0)
    &&& forall|g: int| 0 <= g < gs.len() ==> has_entry(es, (#[trigger] gs[g]).0)
}

/// Some group is for record `r`.
pub open spec fn has_group(gs: Seq<(int, Seq<int>)>, r: int) -> bool {
    exists|g: int| 0 <= g < gs.len() && (#[trigger] gs[g]).0 == r
}

/// Some entry belongs to record `r`.
pub open spec fn has_entry(es: Seq<(int, int, Seq<char>)>, r: int) -> bool {
    exists|k: int| 0 <= k < es.len() && (#[trigger] es[k]).0 == r
}

/// Some entry among the first `bound` of `es` belongs to record `r`.
pub open spec fn record_occurs(es: Seq<IndexEntry>, r: usize, bound: int) -> bool {
    exists|k: int| 0 <= k < bound && (#[trigger] es[k]).record == r
}

/// The first position of the sorted `recs` whose number is at least `r`.
fn lower_bound(recs: &Vec<usize>, r: usize) -> (p: usize)
    requires
        forall|a: int, b: int| 0 <= a < b < recs@.len() ==> #[trigger] recs@[a] < #[trigger] recs@[b],
    ensures
        p <= recs@.len(),
        forall|a: int| 0 <= a < p ==> #[trigger] recs@[a] < r,
        forall|a: int| p <= a < recs@.len() ==> #[trigger] recs@[a] >= r,
{
    let mut lo: usize = 0;
    let mut hi: usize = recs.len();
    while lo < hi
        invariant
            lo <= hi <= recs@.len(),
            forall|a: int, b: int| 0 <= a < b < recs@.len() ==> #[trigger] recs@[a] < #[trigger] recs@[b],
            forall|a: int| 0 <= a < lo ==> #[trigger] recs@[a] < r,
            forall|a: int| hi <= a < recs@.len() ==> #[trigger] recs@[a] >= r,
        decreases hi - lo,
    {
        let mid = lo + (hi - lo) / 2;
        if recs[mid] < r {
            assert forall|a: int| 0 <= a < mid + 1 implies #[trigger] recs@[a] < r by {
                if a < mid {
                    assert(recs@[a] < recs@[mid as int]);
                }
            }
            lo = mid + 1;
        } else {
            assert forall|a: int| mid <= a < recs@.len() implies #[trigger] recs@[a] >= r by {
                if a > mid {
                    assert(recs@[mid as int] < recs@[a]);
                }
            }
            hi = mid;
        }
    }
    lo
}

/// The record numbers that occur among `es`, without repetition, in
/// increasing order.
fn record_numbers(es: &Vec<IndexEntry>) -> (recs: Vec<usize>)
    ensures
        forall|a: int, b: int| 0 <= a < b < recs@.len() ==> #[trigger] recs@[a] < #[trigger] recs@[b],
        forall|k: int| 0 <= k < es@.len() ==> #[trigger] recs@.contains(es@[k].record),
        forall|a: int| 0 <= a < recs@.len() ==> record_occurs(es@, #[trigger] recs@[a], es@.len() as int),
{
    let n = es.len();
    let mut recs: Vec<usize> = Vec::new();
    let mut i: usize = 0;
    while i < n
        invariant
            n == es@.len(),
            i <= n,
            forall|a: int, b: int| 0 <= a < b < recs@.len() ==> #[trigger] recs@[a] < #[trigger] recs@[b],
            forall|k: int| 0 <= k < i ==> #[trigger] recs@.contains(es@[k].record),
            forall|a: int| 0 <= a < recs@.len() ==> record_occurs(es@, #[trigger] recs@[a], i as int),
        decreases n - i,
    {
        let r = es[i].record;
        let len = recs.len();
        let p = lower_bound(&recs, r);
        if p < len && recs[p] == r {
            assert(recs@[p as int] == es@[i as int].record);
            assert forall|a: int| 0 <= a < recs@.len() implies record_occurs(es@, #[trigger] recs@[a], i + 1) by {
                assert(record_occurs(es@, recs@[a], i as int));
            }
        } else {
            let ghost old_recs = recs@;
            recs.insert(p, r);
            assert(recs@ == old_recs.insert(p as int, r));
            assert forall|a: int, b: int| 0 <= a < b < recs@.len() implies #[trigger] recs@[a] < #[trigger] recs@[b] by {
                if b < p {
                } else if b == p {
                } else if a < p {
                    assert(recs@[b] == old_recs[b - 1]);
                } else if a == p {
                    assert(recs@[b] == old_recs[b - 1]);
                    assert(old_recs[p as int] <= old_recs[b - 1]);
                } else {
                    assert(recs@[a] == old_recs[a - 1]);
                    assert(recs@[b] == old_recs[b - 1]);
                }
            }
            assert forall|k: int| 0 <= k < i implies #[trigger] recs@.contains(es@[k].record) by {
                assert(old_recs.contains(es@[k].record));
                let a = choose|a: int| 0 <= a < old_recs.len() && old_recs[a] == es@[k].record;
                if a < p {
                    assert(recs@[a] == old_recs[a]);
                } else {
                    assert(recs@[a + 1] == old_recs[a]);
                }
            }
            assert(recs@[p as int] == r);
            assert forall|a: int| 0 <= a < recs@.len() implies record_occurs(es@, #[trigger] recs@[a], i + 1) by {
                if a < p {
                    assert(recs@[a] == old_recs[a]);
                    assert(record_occurs(es@, old_recs[a], i as int));
                } else if a == p {
                    assert(recs@[a] == es@[i as int].record);
                } else {
                    assert(recs@[a] == old_recs[a - 1]);
                    assert(record_occurs(es@, old_recs[a - 1], i as int));
                }
            }
        }
        assert(recs@.contains(es@[i as int].record));
        i = i + 1;
    }
    recs
}

/// Groups the entries by record number, in increasing record order, keeping
/// each record's entries in entry order.
pub fn group_by_record(es: &Vec<IndexEntry>) -> (gs: Vec<RecordGroup>)
    ensures
        grouped_by_record(entries_view(es@), groups_view(gs@)),
{
    let ghost ev = entries_view(es@);
    let recs = record_numbers(es);
    let m = recs.len();
    let n = es.len();
    let mut gs: Vec<RecordGroup> = Vec::new();
    let mut a: usize = 0;
    while a < m
        invariant
            m == recs@.len(),
            a <= m,
            gs@.len() == a,
            forall|g: int| 0 <= g < a ==> (#[trigger] gs@[g]).record == recs@[g] && gs@[g].positions@.len() == 0,
        decreases m - a,
    {
        gs.push(RecordGroup { record: recs[a], positions: Vec::new() });
        a = a + 1;
    }
    assert forall|g: int| 0 <= g < m implies (#[trigger] groups_view(gs@)[g]).1 == positions_in(ev, recs@[g] as int, 0) by {
        assert(groups_view(gs@)[g].1 =~= Seq::<int>::empty());
    }
    let mut k: usize = 0;
    while k < n
        invariant
            n == es@.len(),
            ev == entries_view(es@),
            m == recs@.len(),
            gs@.len() == m,
            k <= n,
            forall|x: int, y: int| 0 <= x < y < recs@.len() ==> #[trigger] recs@[x] < #[trigger] recs@[y],
            forall|q: int| 0 <= q < es@.len() ==> #[trigger] recs@.contains(es@[q].record),
            forall|g: int| 0 <= g < m ==> (#[trigger] gs@[g]).record == recs@[g],
            forall|g: int| 0 <= g < m ==> (#[trigger] groups_view(gs@)[g]).1 == positions_in(ev, recs@[g] as int, k as int),
        decreases n - k,
    {
        let r = es[k].record;
        assert(ev[k as int].0 == r as int);
        let g = lower_bound(&recs, r);
        proof {
            assert(recs@.contains(r));
            let w = choose|w: int| 0 <= w < recs@.len() && recs@[w] == r;
            assert(w >= g);
            if g < w {
                assert(recs@[g as int] < recs@[w]);
            }
        }
        let ghost before = gs@;
        gs[g].positions.push(k);
        assert forall|h: int| 0 <= h < m implies (#[trigger] groups_view(gs@)[h]).1 == positions_in(ev, recs@[h] as int, k + 1) by {
            assert(groups_view(before)[h].1 == positions_in(ev, recs@[h] as int, k as int));
            if h == g {
                assert(groups_view(gs@)[h].1 =~= groups_view(before)[h].1.push(k as int));
            } else {
                assert(gs@[h] == before[h]);
                assert(recs@[h] != r) by {
                    if h < g {
                        assert(recs@[h] < recs@[g as int]);
                    } else {
                        assert(recs@[g as int] < recs@[h]);
                    }
                }
            }
        }
        k = k + 1;
    }
    let ghost gv = groups_view(gs@);
    assert forall|x: int, y: int| 0 <= x < y < gv.len() implies #[trigger] gv[x].0 < #[trigger] gv[y].0 by {
        assert(gv[x].0 == recs@[x] && gv[y].0 == recs@[y]);
    }
    assert forall|q: int| 0 <= q < ev.len() implies has_group(gv, (#[trigger] ev[q]).0) by {
        assert(ev[q].0 == es@[q].record as int);
        assert(recs@.contains(es@[q].record));
        let g = choose|g: int| 0 <= g < recs@.len() && recs@[g] == es@[q].record;
        assert(gv[g].0 == recs@[g]);
    }
    assert forall|g: int| 0 <= g < gv.len() implies has_entry(ev, (#[trigger] gv[g]).0) by {
        assert(gv[g].0 == recs@[g]);
        assert(record_occurs(es@, recs@[g], es@.len() as int));
        let q = choose|q: int| 0 <= q < es@.len() && (#[trigger] es@[q]).record == recs@[g];
        assert(ev[q].0 == es@[q].record as int);
    }
    gs
}

/// Every position listed for a record is the position of an entry of that
/// record, and the list is strictly increasing.
pub proof fn lemma_positions_in(es: Seq<(int, int, Seq<char>)>, r: int, k: int)
    requires
        0 <= k <= es.len(),
    ensures
        forall|j: int|
            0 <= j < positions_in(es, r, k).len() ==> 0 <= #[trigger] positions_in(es, r, k)[j] < k
                && es[positions_in(es, r, k)[j]].0 == r,
        forall|i: int, j: int|
            0 <= i < j < positions_in(es, r, k).len() ==> #[trigger] positions_in(es, r, k)[i]
                < #[trigger] positions_in(es, r, k)[j],
    decreases k,
{
    if k > 0 {
        lemma_positions_in(es, r, k - 1);
        let before = positions_in(es, r, k - 1);
        let all = positions_in(es, r, k);
        if es[k - 1].0 == r {
            assert(all == before.push(k - 1));
            assert forall|j: int| 0 <= j < all.len() implies 0 <= #[trigger] all[j] < k && es[all[j]].0
                == r by {
                if j < before.len() {
                    assert(all[j] == before[j]);
                }
            }
            assert forall|i: int, j: int| 0 <= i < j < all.len() implies #[trigger] all[i]
                < #[trigger] all[j] by {
                assert(all[i] == before[i]);
                if j < before.len() {
                    assert(all[j] == before[j]);
                }
            }
        }
    }
}

// ---------------------------------------------------------------------------
// Order within records
// ---------------------------------------------------------------------------

/// Two consecutive entries of one record whose labels are out of raw
/// UTF-16BE order: the later entry's label sorts before the earlier one's.
pub struct OrderViolation {
    pub record: usize,
    pub previous: String,
    /// The entry number just before `entry` (0 for entry 0).
    pub previous_entry: usize,
    pub label: String,
    pub entry: usize,
}

/// A violation as (record, previous label, previous entry number, label,
/// entry number).
pub open spec fn violation_view(v: OrderViolation) -> (int, Seq<char>, int, Seq<char>, int) {
    (v.record as int, v.previous@, v.previous_entry as int, v.label@, v.entry as int)
}

pub open spec fn violations_view(vs: Seq<OrderViolation>) -> Seq<(int, Seq<char>, int, Seq<char>, int)> {
    vs.map_values(|v: OrderViolation| violation_view(v))
}

/// The order violations among the first `k` entries (at positions `ps`) of
/// record `r`: each consecutive pair whose later label sorts first.
pub open spec fn record_violations(
    es: Seq<(int, int, Seq<char>)>,
    r: int,
    ps: Seq<int>,
    k: int,
) -> Seq<(int, Seq<char>, int, Seq<char>, int)>
    decreases k,
{
    if k < 2 || k > ps.len() {
        Seq::empty()
    } else {
        let before = record_violations(es, r, ps, k - 1);
        let a = es[ps[k - 2]];
        let b = es[ps[k - 1]];
        if label_sign(a.2, b.2) > 0 {
            before.push((r, a.2, if b.1 > 0 { b.1 - 1 } else { 0 }, b.2, b.1))
        } else {
            before
        }
    }
}

/// The order violations of the first `g` groups, group by group.
pub open spec fn order_violations(
    es: Seq<(int, int, Seq<char>)>,
    gs: Seq<(int, Seq<int>)>,
    g: int,
) -> Seq<(int, Seq<char>, int, Seq<char>, int)>
    decreases g,
{
    if g <= 0 || g > gs.len() {
        Seq::empty()
    } else {
        order_violations(es, gs, g - 1) + record_violations(
            es,
            gs[g - 1].0,
            gs[g - 1].1,
            gs[g - 1].1.len() as int,
        )
    }
}

/// Whether label `b` sorts strictly before label `a` by raw UTF-16 code
/// units, i.e. `a` followed by `b` is out of order.
pub fn label_descends(a: &str, b: &str) -> (d: bool)
    ensures
        d == (label_sign(a@, b@) > 0),
{
    let x = utf16be_bytes(a);
    let y = utf16be_bytes(b);
    compare_units(&x, &y) > 0
}

/// Every listed position refers to an entry.
pub open spec fn positions_valid(n: int, gs: Seq<(int, Seq<int>)>) -> bool {
    forall|g: int, j: int|
        0 <= g < gs.len() && 0 <= j < gs[g].1.len() ==> 0 <= #[trigger] gs[g].1[j] < n
}

/// The pairs of consecutive entries, within each record, whose labels are
/// out of raw UTF-16BE order, record by record.
pub fn find_violations(es: &Vec<IndexEntry>, gs: &Vec<RecordGroup>) -> (vs: Vec<OrderViolation>)
    requires
        positions_valid(es@.len() as int, groups_view(gs@)),
    ensures
        violations_view(vs@) == order_violations(
            entries_view(es@),
            groups_view(gs@),
            gs@.len() as int,
        ),
{
    let ghost ev = entries_view(es@);
    let ghost gv = groups_view(gs@);
    let m = gs.len();
    let mut vs: Vec<OrderViolation> = Vec::new();
    let mut g: usize = 0;
    while g < m
        invariant
            m == gs@.len(),
            ev == entries_view(es@),
            gv == groups_view(gs@),
            positions_valid(es@.len() as int, gv),
            g <= m,
            violations_view(vs@) == order_violations(ev, gv, g as int),
        decreases m - g,
    {
        let group = &gs[g];
        let ps = &group.positions;
        let r = group.record;
        let ghost pv = gv[g as int].1;
        assert(gv[g as int] == group_view(*group));
        let len = ps.len();
        let mut j: usize = 1;
        while j < len
            invariant
                len == ps@.len(),
                pv == ps@.map_values(|p: usize| p as int),
                pv == gv[g as int].1,
                r as int == gv[g as int].0,
                ev == entries_view(es@),
                0 <= g < gv.len(),
                positions_valid(es@.len() as int, gv),
                1 <= j,
                j <= len || len == 0,
                len == 0 ==> j == 1,
                violations_view(vs@) == order_violations(ev, gv, g as int) + record_violations(
                    ev,
                    r as int,
                    pv,
                    j as int,
                ),
            decreases len - j,
        {
            let pa = ps[j - 1];
            let pb = ps[j];
            assert(pv[j - 1] == pa as int && pv[j as int] == pb as int);
            assert(0 <= pa < es@.len());
            assert(0 <= pb < es@.len());
            let a = &es[pa];
            let b = &es[pb];
            assert(ev[pa as int] == entry_view(*a));
            assert(ev[pb as int] == entry_view(*b));
            let ghost before = vs@;
            if label_descends(a.label.as_str(), b.label.as_str()) {
                let v = OrderViolation {
                    record: r,
                    previous: a.label.clone(),
                    previous_entry: b.entry.saturating_sub(1),
                    label: b.label.clone(),
                    entry: b.entry,
                };
                vs.push(v);
                assert(violations_view(vs@) =~= violations_view(before).push(violation_view(v)));
            }
            j = j + 1;
        }
        assert(record_violations(ev, r as int, pv, pv.len() as int) == record_violations(
            ev,
            r as int,
            pv,
            j as int,
        )) by {
            if len == 0 {
                assert(j == 1);
            }
        }
        assert(order_violations(ev, gv, g + 1) == order_violations(ev, gv, g as int)
            + record_violations(ev, r as int, pv, pv.len() as int));
        g = g + 1;
    }
    vs
}

// ---------------------------------------------------------------------------
// Target labels
// ---------------------------------------------------------------------------

/// Where a target label was found: (record, entry) of each entry whose label
/// is the target, record by record in entry order.
pub struct TargetLookup {
    pub target: String,
    pub found: bool,
    pub hits: Vec<(usize, usize)>,
}

/// Hits as (record, entry) pairs.
pub open spec fn hits_view(hs: Seq<(usize, usize)>) -> Seq<(int, int)> {
    hs.map_values(|h: (usize, usize)| (h.0 as int, h.1 as int))
}

/// The (record, entry) pairs of the first `k` entries (at positions `ps`) of
/// record `r` whose label is `t`.
pub open spec fn record_hits(
    es: Seq<(int, int, Seq<char>)>,
    r: int,
    ps: Seq<int>,
    t: Seq<char>,
    k: int,
) -> Seq<(int, int)>
    decreases k,
{
    if k <= 0 || k > ps.len() {
        Seq::empty()
    } else {
        let before = record_hits(es, r, ps, t, k - 1);
        let e = es[ps[k - 1]];
        if e.2 == t {
            before.push((r, e.1))
        } else {
            before
        }
    }
}

/// The (record, entry) pairs, over the first `g` groups, of the entries whose
/// label is `t`.
pub open spec fn target_hits(
    es: Seq<(int, int, Seq<char>)>,
    gs: Seq<(int, Seq<int>)>,
    t: Seq<char>,
    g: int,
) -> Seq<(int, int)>
    decreases g,
{
    if g <= 0 || g > gs.len() {
        Seq::empty()
    } else {
        target_hits(es, gs, t, g - 1) + record_hits(es, gs[g - 1].0, gs[g - 1].1, t, gs[g - 1].1.len() as int)
    }
}

/// Finds every entry labelled `target`, record by record.
pub fn lookup_target(es: &Vec<IndexEntry>, gs: &Vec<RecordGroup>, target: &String) -> (l: TargetLookup)
    requires
        positions_valid(es@.len() as int, groups_view(gs@)),
    ensures
        l.target@ == target@,
        hits_view(l.hits@) == target_hits(entries_view(es@), groups_view(gs@), target@, gs@.len() as int),
        l.found == (l.hits@.len() > 0),
{
    let ghost ev = entries_view(es@);
    let ghost gv = groups_view(gs@);
    let m = gs.len();
    let mut hits: Vec<(usize, usize)> = Vec::new();
    let mut g: usize = 0;
    while g < m
        invariant
            m == gs@.len(),
            ev == entries_view(es@),
            gv == groups_view(gs@),
            positions_valid(es@.len() as int, gv),
            g <= m,
            hits_view(hits@) == target_hits(ev, gv, target@, g as int),
        decreases m - g,
    {
        let group = &gs[g];
        let ps = &group.positions;
        let r = group.record;
        let ghost pv = gv[g as int].1;
        assert(gv[g as int] == group_view(*group));
        let len = ps.len();
        let mut j: usize = 0;
        while j < len
            invariant
                len == ps@.len(),
                pv == ps@.map_values(|p: usize| p as int),
                pv == gv[g as int].1,
                r as int == gv[g as int].0,
                ev == entries_view(es@),
                0 <= g < gv.len(),
                positions_valid(es@.len() as int, gv),
                j <= len,
                hits_view(hits@) == target_hits(ev, gv, target@, g as int) + record_hits(
                    ev,
                    r as int,
                    pv,
                    target@,
                    j as int,
                ),
            decreases len - j,
        {
            let p = ps[j];
            assert(pv[j as int] == p as int);
            assert(0 <= p < es@.len());
            let e = &es[p];
            assert(ev[p as int] == entry_view(*e));
            let ghost before = hits@;
            if e.label == *target {
                hits.push((r, e.entry));
                assert(hits_view(hits@) =~= hits_view(before).push((r as int, e.entry as int)));
            }
            j = j + 1;
        }
        g = g + 1;
    }
    let found = hits.len() > 0;
    TargetLookup { target: target.clone(), found, hits }
}

// ---------------------------------------------------------------------------
// The whole dump
// ---------------------------------------------------------------------------

/// What a dump holds: its entries in line order, the entries grouped by
/// record, the order violations within records, and one lookup per target.
pub struct IndexReport {
    pub entries: Vec<IndexEntry>,
    pub records: Vec<RecordGroup>,
    pub violations: Vec<OrderViolation>,
    pub lookups: Vec<TargetLookup>,
}

/// Reads the entry lines of a decoded index dump, groups the entries by
/// record, lists the consecutive entries of a record that are out of raw
/// UTF-16BE order, and looks up each target label.
pub fn analyze_dump(dump: &str, targets: &Vec<String>) -> (report: IndexReport)
    ensures
        entries_view(report.entries@) == dump_entries(lines_of(dump@)),
        grouped_by_record(entries_view(report.entries@), groups_view(report.records@)),
        violations_view(report.violations@) == order_violations(
            entries_view(report.entries@),
            groups_view(report.records@),
            report.records@.len() as int,
        ),
        report.lookups@.len() == targets@.len(),
        forall|i: int|
            0 <= i < targets@.len() ==> {
                let l = #[trigger] report.lookups@[i];
                &&& l.target@ == targets@[i]@
                &&& hits_view(l.hits@) == target_hits(
                    entries_view(report.entries@),
                    groups_view(report.records@),
                    targets@[i]@,
                    report.records@.len() as int,
                )
                &&& l.found == (l.hits@.len() > 0)
            },
{
    let entries = parse_dump_entries(dump);
    let records = group_by_record(&entries);
    let ghost ev = entries_view(entries@);
    let ghost gv = groups_view(records@);
    assert forall|g: int, j: int| 0 <= g < gv.len() && 0 <= j < gv[g].1.len() implies 0
        <= #[trigger] gv[g].1[j] < entries@.len() by {
        lemma_positions_in(ev, gv[g].0, ev.len() as int);
    }
    let violations = find_violations(&entries, &records);
    let nt = targets.len();
    let mut lookups: Vec<TargetLookup> = Vec::new();
    let mut i: usize = 0;
    while i < nt
        invariant
            nt == targets@.len(),
            ev == entries_view(entries@),
            gv == groups_view(records@),
            positions_valid(entries@.len() as int, gv),
            i <= nt,
            lookups@.len() == i,
            forall|q: int|
                0 <= q < i ==> {
                    let l = #[trigger] lookups@[q];
                    &&& l.target@ == targets@[q]@
                    &&& hits_view(l.hits@) == target_hits(ev, gv, targets@[q]@, records@.len() as int)
                    &&& l.found == (l.hits@.len() > 0)
                },
        decreases nt - i,
    {
        let l = lookup_target(&entries, &records, &targets[i]);
        lookups.push(l);
        i = i + 1;
    }
    IndexReport { entries, records, violations, lookups }
}

// ---------------------------------------------------------------------------
// Laws
// ---------------------------------------------------------------------------

/// The labels at positions `ps` are in non-decreasing raw UTF-16BE order.
pub open spec fn labels_in_order(es: Seq<(int, int, Seq<char>)>, ps: Seq<int>) -> bool {
    forall|i: int, j: int|
        0 <= i < j < ps.len() ==> label_sign(#[trigger] es[ps[i]].2, #[trigger] es[ps[j]].2) <= 0
}

/// Each of the first `k` labels at positions `ps` is in order with the next.
pub open spec fn neighbours_in_order(es: Seq<(int, int, Seq<char>)>, ps: Seq<int>, k: int) -> bool {
    forall|j: int| 1 <= j < k ==> label_sign(es[ps[j - 1]].2, #[trigger] es[ps[j]].2) <= 0
}

proof fn lemma_record_violations_empty(es: Seq<(int, int, Seq<char>)>, r: int, ps: Seq<int>, k: int)
    requires
        0 <= k <= ps.len(),
    ensures
        record_violations(es, r, ps, k).len() == 0 <==> neighbours_in_order(es, ps, k),
    decreases k,
{
    if k >= 2 {
        lemma_record_violations_empty(es, r, ps, k - 1);
    }
}

proof fn lemma_neighbours_to_all(es: Seq<(int, int, Seq<char>)>, ps: Seq<int>, i: int, j: int)
    requires
        neighbours_in_order(es, ps, ps.len() as int),
        0 <= i < j < ps.len(),
    ensures
        label_sign(es[ps[i]].2, es[ps[j]].2) <= 0,
    decreases j - i,
{
    assert(label_sign(es[ps[j - 1]].2, es[ps[j]].2) <= 0);
    if i < j - 1 {
        lemma_neighbours_to_all(es, ps, i, j - 1);
        lemma_label_sign_transitive(es[ps[i]].2, es[ps[j - 1]].2, es[ps[j]].2);
    }
}

proof fn lemma_order_violations_empty(es: Seq<(int, int, Seq<char>)>, gs: Seq<(int, Seq<int>)>, g: int)
    requires
        0 <= g <= gs.len(),
    ensures
        order_violations(es, gs, g).len() == 0 <==> forall|h: int|
            0 <= h < g ==> (#[trigger] record_violations(es, gs[h].0, gs[h].1, gs[h].1.len() as int)).len() == 0,
    decreases g,
{
    if g > 0 {
        lemma_order_violations_empty(es, gs, g - 1);
    }
}

/// A dump reports no order violation exactly when every record lists its
/// labels in non-decreasing raw UTF-16BE order, the order a reader's binary
/// search over the record relies on.
pub proof fn lemma_no_violation_iff_records_ordered(
    es: Seq<(int, int, Seq<char>)>,
    gs: Seq<(int, Seq<int>)>,
)
    ensures
        order_violations(es, gs, gs.len() as int).len() == 0 <==> forall|g: int|
            0 <= g < gs.len() ==> labels_in_order(es, (#[trigger] gs[g]).1),
{
    lemma_order_violations_empty(es, gs, gs.len() as int);
    assert forall|g: int| 0 <= g < gs.len() implies (record_violations(es, gs[g].0, gs[g].1, gs[g].1.len() as int).len() == 0 <==> labels_in_order(es, (#[trigger] gs[g]).1)) by {
        let ps = gs[g].1;
        lemma_record_violations_empty(es, gs[g].0, ps, ps.len() as int);
        if neighbours_in_order(es, ps, ps.len() as int) {
            assert forall|i: int, j: int| 0 <= i < j < ps.len() implies label_sign(
                #[trigger] es[ps[i]].2,
                #[trigger] es[ps[j]].2,
            ) <= 0 by {
                lemma_neighbours_to_all(es, ps, i, j);
            }
        }
        if labels_in_order(es, ps) {
            assert forall|j: int| 1 <= j < ps.len() implies label_sign(
                es[ps[j - 1]].2,
                #[trigger] es[ps[j]].2,
            ) <= 0 by {
                assert(label_sign(es[ps[j - 1]].2, es[ps[j]].2) <= 0);
            }
        }
    }
}

proof fn lemma_record_hits_nonempty(
    es: Seq<(int, int, Seq<char>)>,
    r: int,
    ps: Seq<int>,
    t: Seq<char>,
    k: int,
)
    requires
        0 <= k <= ps.len(),
    ensures
        record_hits(es, r, ps, t, k).len() > 0 <==> exists|j: int| 0 <= j < k && (#[trigger] es[ps[j]]).2 == t,
    decreases k,
{
    if k > 0 {
        lemma_record_hits_nonempty(es, r, ps, t, k - 1);
        if es[ps[k - 1]].2 == t {
            assert(record_hits(es, r, ps, t, k).len() > 0);
        }
    }
}

proof fn lemma_target_hits_nonempty(
    es: Seq<(int, int, Seq<char>)>,
    gs: Seq<(int, Seq<int>)>,
    t: Seq<char>,
    g: int,
)
    requires
        0 <= g <= gs.len(),
    ensures
        target_hits(es, gs, t, g).len() > 0 <==> exists|h: int|
            0 <= h < g && (#[trigger] record_hits(es, gs[h].0, gs[h].1, t, gs[h].1.len() as int)).len() > 0,
    decreases g,
{
    if g > 0 {
        lemma_target_hits_nonempty(es, gs, t, g - 1);
        let last = record_hits(es, gs[g - 1].0, gs[g - 1].1, t, gs[g - 1].1.len() as int);
        if last.len() > 0 {
            assert(target_hits(es, gs, t, g).len() > 0);
        }
    }
}

proof fn lemma_position_listed(es: Seq<(int, int, Seq<char>)>, r: int, k: int, q: int)
    requires
        0 <= q < k <= es.len(),
        es[q].0 == r,
    ensures
        exists|j: int| 0 <= j < positions_in(es, r, k).len() && #[trigger] positions_in(es, r, k)[j] == q,
    decreases k,
{
    let before = positions_in(es, r, k - 1);
    if q == k - 1 {
        assert(positions_in(es, r, k)[before.len() as int] == q);
    } else {
        lemma_position_listed(es, r, k - 1, q);
        let j = choose|j: int| 0 <= j < before.len() && #[trigger] before[j] == q;
        if es[k - 1].0 == r {
            assert(positions_in(es, r, k)[j] == q);
        } else {
            assert(positions_in(es, r, k) == before);
            assert(positions_in(es, r, k)[j] == q);
        }
    }
}

/// A target label is reported found exactly when some decoded entry of the
/// dump carries that label, and every hit names an entry with that label.
pub proof fn lemma_found_iff_labelled(
    es: Seq<(int, int, Seq<char>)>,
    gs: Seq<(int, Seq<int>)>,
    t: Seq<char>,
)
    requires
        grouped_by_record(es, gs),
    ensures
        target_hits(es, gs, t, gs.len() as int).len() > 0 <==> exists|k: int|
            0 <= k < es.len() && (#[trigger] es[k]).2 == t,
{
    lemma_target_hits_nonempty(es, gs, t, gs.len() as int);
    if target_hits(es, gs, t, gs.len() as int).len() > 0 {
        let h = choose|h: int|
            0 <= h < gs.len() && (#[trigger] record_hits(es, gs[h].0, gs[h].1, t, gs[h].1.len() as int)).len() > 0;
        let ps = gs[h].1;
        lemma_record_hits_nonempty(es, gs[h].0, ps, t, ps.len() as int);
        let j = choose|j: int| 0 <= j < ps.len() && (#[trigger] es[ps[j]]).2 == t;
        lemma_positions_in(es, gs[h].0, es.len() as int);
        assert(ps == positions_in(es, gs[h].0, es.len() as int));
        assert(0 <= ps[j] < es.len());
        assert(es[ps[j]].2 == t);
    }
    if exists|k: int| 0 <= k < es.len() && (#[trigger] es[k]).2 == t {
        let k = choose|k: int| 0 <= k < es.len() && (#[trigger] es[k]).2 == t;
        assert(has_group(gs, es[k].0));
        let h = choose|h: int| 0 <= h < gs.len() && (#[trigger] gs[h]).0 == es[k].0;
        let ps = gs[h].1;
        assert(ps == positions_in(es, gs[h].0, es.len() as int));
        lemma_position_listed(es, gs[h].0, es.len() as int, k);
        let j = choose|j: int| 0 <= j < ps.len() && #[trigger] ps[j] == k;
        assert(es[ps[j]].2 == t);
        lemma_record_hits_nonempty(es, gs[h].0, ps, t, ps.len() as int);
        assert(record_hits(es, gs[h].0, gs[h].1, t, gs[h].1.len() as int).len() > 0);
    }
}

/// The number of consecutive pairs among the first `k` positions `ps` whose
/// later label sorts strictly before the earlier one.
pub open spec fn descents(es: Seq<(int, int, Seq<char>)>, ps: Seq<int>, k: int) -> nat
    decreases k,
{
    if k < 2 || k > ps.len() {
        0
    } else {
        descents(es, ps, k - 1) + if label_sign(es[ps[k - 2]].2, es[ps[k - 1]].2) > 0 {
            1nat
        } else {
            0nat
        }
    }
}

/// The number of descending consecutive pairs over the first `g` records.
pub open spec fn total_descents(es: Seq<(int, int, Seq<char>)>, gs: Seq<(int, Seq<int>)>, g: int) -> nat
    decreases g,
{
    if g <= 0 || g > gs.len() {
        0
    } else {
        total_descents(es, gs, g - 1) + descents(es, gs[g - 1].1, gs[g - 1].1.len() as int)
    }
}

/// The violation reported for the descending pair ending at position index
/// `j` of record `r`.
pub open spec fn violation_at(
    es: Seq<(int, int, Seq<char>)>,
    r: int,
    ps: Seq<int>,
    j: int,
) -> (int, Seq<char>, int, Seq<char>, int) {
    let a = es[ps[j - 1]];
    let b = es[ps[j]];
    (r, a.2, if b.1 > 0 { b.1 - 1 } else { 0 }, b.2, b.1)
}

proof fn lemma_record_violations_complete(es: Seq<(int, int, Seq<char>)>, r: int, ps: Seq<int>, k: int)
    requires
        0 <= k <= ps.len(),
    ensures
        record_violations(es, r, ps, k).len() == descents(es, ps, k),
        forall|j: int|
            1 <= j < k && label_sign(es[ps[j - 1]].2, es[ps[j]].2) > 0 ==> record_violations(es, r, ps, k).contains(
                #[trigger] violation_at(es, r, ps, j),
            ),
    decreases k,
{
    if k >= 2 {
        lemma_record_violations_complete(es, r, ps, k - 1);
        let before = record_violations(es, r, ps, k - 1);
        let now = record_violations(es, r, ps, k);
        assert forall|j: int|
            1 <= j < k && label_sign(es[ps[j - 1]].2, es[ps[j]].2) > 0 implies now.contains(
                #[trigger] violation_at(es, r, ps, j),
            ) by {
            if j < k - 1 {
                let w = choose|w: int| 0 <= w < before.len() && before[w] == violation_at(es, r, ps, j);
                if label_sign(es[ps[k - 2]].2, es[ps[k - 1]].2) > 0 {
                    assert(now[w] == before[w]);
                }
            } else {
                assert(now[now.len() - 1] == violation_at(es, r, ps, j));
            }
        }
    }
}

/// Every descending consecutive pair of every record is reported, and the
/// number of reported violations is exactly the number of such pairs.
pub proof fn lemma_every_descent_reported(es: Seq<(int, int, Seq<char>)>, gs: Seq<(int, Seq<int>)>)
    ensures
        order_violations(es, gs, gs.len() as int).len() == total_descents(es, gs, gs.len() as int),
        forall|g: int, j: int|
            0 <= g < gs.len() && 1 <= j < gs[g].1.len() && label_sign(es[gs[g].1[j - 1]].2, es[gs[g].1[j]].2)
                > 0 ==> order_violations(es, gs, gs.len() as int).contains(
                #[trigger] violation_at(es, gs[g].0, gs[g].1, j),
            ),
{
    lemma_order_violations_complete(es, gs, gs.len() as int);
}

proof fn lemma_order_violations_complete(es: Seq<(int, int, Seq<char>)>, gs: Seq<(int, Seq<int>)>, n: int)
    requires
        0 <= n <= gs.len(),
    ensures
        order_violations(es, gs, n).len() == total_descents(es, gs, n),
        forall|g: int, j: int|
            0 <= g < n && 1 <= j < gs[g].1.len() && label_sign(es[gs[g].1[j - 1]].2, es[gs[g].1[j]].2)
                > 0 ==> order_violations(es, gs, n).contains(
                #[trigger] violation_at(es, gs[g].0, gs[g].1, j),
            ),
    decreases n,
{
    if n > 0 {
        lemma_order_violations_complete(es, gs, n - 1);
        let before = order_violations(es, gs, n - 1);
        let last = record_violations(es, gs[n - 1].0, gs[n - 1].1, gs[n - 1].1.len() as int);
        lemma_record_violations_complete(es, gs[n - 1].0, gs[n - 1].1, gs[n - 1].1.len() as int);
        let now = order_violations(es, gs, n);
        assert(now == before + last);
        assert forall|g: int, j: int|
            0 <= g < n && 1 <= j < gs[g].1.len() && label_sign(es[gs[g].1[j - 1]].2, es[gs[g].1[j]].2)
                > 0 implies now.contains(#[trigger] violation_at(es, gs[g].0, gs[g].1, j)) by {
            let v = violation_at(es, gs[g].0, gs[g].1, j);
            if g < n - 1 {
                let w = choose|w: int| 0 <= w < before.len() && before[w] == v;
                assert(now[w] == before[w]);
            } else {
                let w = choose|w: int| 0 <= w < last.len() && last[w] == v;
                assert(now[before.len() + w] == last[w]);
            }
        }
    }
}

} // verus!
