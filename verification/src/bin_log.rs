//! A bin replicated over backends keeps each key as a log: `CLOCK::VALUE` entries for a
//! key's value, `append::CLOCK::VALUE` and `remove::CLOCK::VALUE` entries for a list. These
//! are the functions that write the entries and read the logs back.
use vstd::prelude::*;

use crate::text::{
    join_strs, decimal, decimal_string, lemma_str_lt_order, parse_u64, parse_u64_spec, split_colons,
    split_once_colons, starts_with, str_less, str_lt, string_views,
};

verus! {

/// The most recent entry of a key's log: the last entry of the highest clock among the
/// entries that start with a clock.
pub open spec fn latest_entry_spec(entries: Seq<Seq<char>>) -> Option<(Seq<char>, u64)>
    decreases entries.len(),
{
    if entries.len() == 0 {
        None
    } else {
        let prev = latest_entry_spec(entries.drop_last());
        let e = entries.last();
        match split_colons(e) {
            None => prev,
            Some((c, _)) => match parse_u64_spec(c, 10) {
                None => prev,
                Some(n) => match prev {
                    None => Some((e, n)),
                    Some((_, m)) => if n >= m {
                        Some((e, n))
                    } else {
                        prev
                    },
                },
            },
        }
    }
}

/// The position of the most recent entry of a key's log (see `latest_entry_spec`).
pub fn latest_entry_index(log: &Vec<String>) -> (r: Option<usize>)
    ensures
        match latest_entry_spec(string_views(log@)) {
            None => r is None,
            Some((e, _)) => r matches Some(k) && k < log@.len() && log@[k as int]@ == e,
        },
{
    let ghost sv = string_views(log@);
    let mut latest: Option<(usize, u64)> = None;
    for i in 0..log.len()
        invariant
            sv == string_views(log@),
            match latest_entry_spec(sv.take(i as int)) {
                None => latest is None,
                Some((e, m)) => latest matches Some((k, c)) && k < i && sv[k as int] == e && c == m,
            },
    {
        assert(sv.take(i + 1).drop_last() =~= sv.take(i as int));
        assert(sv.take(i + 1).last() == log@[i as int]@);
        match split_once_colons(log[i].as_str()) {
            None => {},
            Some((clock_raw, _)) => match parse_u64(clock_raw.as_str()) {
                None => {},
                Some(clock) => {
                    match latest {
                        None => {
                            latest = Some((i, clock));
                        },
                        Some((_, c)) => {
                            if clock >= c {
                                latest = Some((i, clock));
                            }
                        },
                    }
                },
            },
        }
    }
    assert(sv.take(log@.len() as int) =~= sv);
    match latest {
        Some((k, _)) => Some(k),
        None => None,
    }
}

/// The escaped value that a key's log holds: the text after the clock of its most recent
/// entry.
pub open spec fn latest_value_spec(log: Seq<Seq<char>>) -> Option<Seq<char>> {
    match latest_entry_spec(log) {
        Some((e, _)) => match split_colons(e) {
            Some((_, v)) => Some(v),
            None => None,
        },
        None => None,
    }
}

/// The escaped value that a key's log holds.
pub fn latest_kv_value(log: &Vec<String>) -> (r: Option<String>)
    ensures
        match latest_value_spec(string_views(log@)) {
            Some(v) => r matches Some(s) && s@ == v,
            None => r is None,
        },
{
    match latest_entry_index(log) {
        None => None,
        Some(k) => match split_once_colons(log[k].as_str()) {
            Some((_, v)) => Some(v),
            None => None,
        },
    }
}

/// The backend key of the log of key `key` (escaped) in bin `bin` (escaped).
pub fn kv_prefixed_key(bin: &str, key: &str) -> (r: String)
    ensures
        r@ == "key::"@ + bin@ + "::"@ + key@,
{
    let a = join_strs("key::", bin);
    let b = join_strs(a.as_str(), "::");
    join_strs(b.as_str(), key)
}

/// The backend key of the log of list `key` (escaped) in bin `bin` (escaped).
pub fn list_prefixed_key(bin: &str, key: &str) -> (r: String)
    ensures
        r@ == "list::"@ + bin@ + "::"@ + key@,
{
    let a = join_strs("list::", bin);
    let b = join_strs(a.as_str(), "::");
    join_strs(b.as_str(), key)
}

/// The (escaped) key whose backend key is `prefixed` in bin `bin`, where `prefixed` is one
/// of that bin's key logs.
pub fn kv_remove_prefix(bin: &str, prefixed: &str) -> (r: Option<String>)
    ensures
        ({
            let p = "key::"@ + bin@ + "::"@;
            if p.len() <= prefixed@.len() && prefixed@.take(p.len() as int) == p {
                r matches Some(s) && s@ == prefixed@.skip(p.len() as int)
            } else {
                r is None
            }
        }),
{
    let a = join_strs("key::", bin);
    let prefix = join_strs(a.as_str(), "::");
    remove_prefix(prefixed, prefix.as_str())
}

/// The (escaped) list whose backend key is `prefixed` in bin `bin`, where `prefixed` is one
/// of that bin's list logs.
pub fn list_remove_prefix(bin: &str, prefixed: &str) -> (r: Option<String>)
    ensures
        ({
            let p = "list::"@ + bin@ + "::"@;
            if p.len() <= prefixed@.len() && prefixed@.take(p.len() as int) == p {
                r matches Some(s) && s@ == prefixed@.skip(p.len() as int)
            } else {
                r is None
            }
        }),
{
    let a = join_strs("list::", bin);
    let prefix = join_strs(a.as_str(), "::");
    remove_prefix(prefixed, prefix.as_str())
}

fn remove_prefix(s: &str, prefix: &str) -> (r: Option<String>)
    ensures
        if prefix@.len() <= s@.len() && s@.take(prefix@.len() as int) == prefix@ {
            r matches Some(t) && t@ == s@.skip(prefix@.len() as int)
        } else {
            r is None
        },
{
    if starts_with(s, prefix) {
        let n = prefix.unicode_len();
        let m = s.unicode_len();
        let t = crate::text::substring(s, n, m);
        assert(t@ =~= s@.skip(prefix@.len() as int));
        Some(t)
    } else {
        None
    }
}

/// The entry that records value `value` (escaped) for a key at clock `clock`.
pub fn kv_log_entry(clock: u64, value: &str) -> (r: String)
    ensures
        r@ == decimal(clock as nat) + "::"@ + value@,
{
    let c = decimal_string(clock);
    let a = join_strs(c.as_str(), "::");
    join_strs(a.as_str(), value)
}

/// The entry that records appending (`append`) or removing value `value` (escaped) in a
/// list at clock `clock`.
pub fn list_log_entry(append: bool, clock: u64, value: &str) -> (r: String)
    ensures
        r@ == (if append {
            "append"@
        } else {
            "remove"@
        }) + "::"@ + decimal(clock as nat) + "::"@ + value@,
{
    let op = if append {
        "append"
    } else {
        "remove"
    };
    let a = join_strs(op, "::");
    let c = decimal_string(clock);
    let b = join_strs(a.as_str(), c.as_str());
    let d = join_strs(b.as_str(), "::");
    join_strs(d.as_str(), value)
}

} // verus!

verus! {

/// One entry of a list's log.
#[derive(Debug, Clone)]
pub struct ListLogEntry {
    pub clock: u64,
    /// `true` for an append, `false` for a remove.
    pub append: bool,
    pub value: String,
    pub raw: String,
}

pub struct ListLogEntryView {
    pub clock: u64,
    pub append: bool,
    pub value: Seq<char>,
    pub raw: Seq<char>,
}

impl View for ListLogEntry {
    type V = ListLogEntryView;

    open spec fn view(&self) -> ListLogEntryView {
        ListLogEntryView { clock: self.clock, append: self.append, value: self.value@, raw: self.raw@ }
    }
}

pub open spec fn entries_view(v: Seq<ListLogEntry>) -> Seq<ListLogEntryView> {
    v.map_values(|e: ListLogEntry| e@)
}

/// What a list log entry says: append or remove, the clock, and the (escaped) value;
/// `None` for text that is no list entry.
pub open spec fn parse_list_entry_spec(raw: Seq<char>) -> Option<(bool, u64, Seq<char>)> {
    match split_colons(raw) {
        None => None,
        Some((op, rest)) => if op != "append"@ && op != "remove"@ {
            None
        } else {
            match split_colons(rest) {
                None => None,
                Some((c, v)) => match parse_u64_spec(c, 10) {
                    Some(n) => Some((op == "append"@, n, v)),
                    None => None,
                },
            }
        },
    }
}

/// Reads a list log entry.
pub fn parse_list_log_entry(raw: &str) -> (r: Option<ListLogEntry>)
    ensures
        match parse_list_entry_spec(raw@) {
            Some((append, clock, value)) => r matches Some(e) && e@ == (ListLogEntryView {
                clock,
                append,
                value,
                raw: raw@,
            }),
            None => r is None,
        },
{
    proof {
        reveal_strlit("append");
        reveal_strlit("remove");
    }
    match split_once_colons(raw) {
        None => None,
        Some((op, rest)) => {
            let append = op == String::from_str("append");
            let remove = op == String::from_str("remove");
            if !append && !remove {
                return None;
            }
            match split_once_colons(rest.as_str()) {
                None => None,
                Some((c, v)) => match parse_u64(c.as_str()) {
                    Some(clock) => Some(ListLogEntry { clock, append, value: v, raw: String::from_str(raw) }),
                    None => None,
                },
            }
        },
    }
}

/// The order in which list entries are replayed: by clock, then by their text.
pub open spec fn entry_lt(a: ListLogEntryView, b: ListLogEntryView) -> bool {
    a.clock < b.clock || (a.clock == b.clock && str_lt(a.raw, b.raw))
}

pub proof fn lemma_entry_lt_order(a: ListLogEntryView, b: ListLogEntryView, c: ListLogEntryView)
    ensures
        !entry_lt(a, a),
        entry_lt(a, b) ==> !entry_lt(b, a),
        entry_lt(a, b) && entry_lt(b, c) ==> entry_lt(a, c),
        a.raw != b.raw ==> entry_lt(a, b) || entry_lt(b, a),
{
    lemma_str_lt_order(a.raw, b.raw, c.raw);
    lemma_str_lt_order(b.raw, a.raw, c.raw);
}

pub open spec fn entries_sorted(s: Seq<ListLogEntryView>) -> bool {
    forall|i: int, j: int| 0 <= i < j < s.len() ==> entry_lt(s[i], s[j])
}

pub open spec fn parsed_from(e: ListLogEntryView, raw: Seq<char>) -> bool {
    e.raw == raw && parse_list_entry_spec(raw) == Some((e.append, e.clock, e.value))
}

/// `s` holds one entry for each distinct list entry text in `log`, in replay order.
pub open spec fn is_replay_order(s: Seq<ListLogEntryView>, log: Seq<Seq<char>>) -> bool {
    &&& entries_sorted(s)
    &&& forall|i: int| 0 <= i < s.len() ==> log.contains((#[trigger] s[i]).raw) && parsed_from(s[i], s[i].raw)
    &&& forall|j: int|
        0 <= j < log.len() && (#[trigger] parse_list_entry_spec(log[j])) is Some ==> exists|i: int|
            0 <= i < s.len() && s[i].raw == log[j]
}

/// The entries of a list log in replay order, each distinct text once.
#[verifier::rlimit(40)]
pub fn parse_list_log(log: &Vec<String>) -> (r: Vec<ListLogEntry>)
    ensures
        is_replay_order(entries_view(r@), string_views(log@)),
{
    let ghost lv = string_views(log@);
    let mut r: Vec<ListLogEntry> = Vec::new();
    for k in 0..log.len()
        invariant
            lv == string_views(log@),
            entries_sorted(entries_view(r@)),
            forall|i: int|
                0 <= i < r@.len() ==> lv.take(k as int).contains((#[trigger] r@[i])@.raw) && parsed_from(
                    r@[i]@,
                    r@[i]@.raw,
                ),
            forall|j: int|
                0 <= j < k && (#[trigger] parse_list_entry_spec(lv[j])) is Some ==> exists|i: int|
                    0 <= i < r@.len() && r@[i]@.raw == lv[j],
    {
        let ghost rv = entries_view(r@);
        let ghost t0 = lv.take(k as int);
        let ghost t1 = lv.take(k + 1);
        assert(t1 =~= t0.push(lv[k as int]));
        match parse_list_log_entry(log[k].as_str()) {
            None => {
                assert forall|i: int| 0 <= i < r@.len() implies t1.contains((#[trigger] r@[i])@.raw) by {
                    let w = choose|w: int| 0 <= w < t0.len() && t0[w] == r@[i]@.raw;
                    assert(t1[w] == r@[i]@.raw);
                }
            },
            Some(e) => {
                let mut pos: usize = 0;
                let mut found = false;
                while pos < r.len()
                    invariant_except_break
                        !found,
                    invariant
                        rv == entries_view(r@),
                        entries_sorted(rv),
                        pos <= rv.len(),
                        forall|a: int| 0 <= a < pos ==> entry_lt(rv[a], e@),
                    ensures
                        found ==> pos < rv.len() && rv[pos as int].raw == e@.raw,
                        !found ==> pos == rv.len() || entry_lt(e@, rv[pos as int]),
                    decreases rv.len() - pos,
                {
                    let other = &r[pos];
                    if e.clock < other.clock || (e.clock == other.clock && str_less(e.raw.as_str(), other.raw.as_str())) {
                        break;
                    }
                    if e.raw == other.raw {
                        found = true;
                        break;
                    }
                    proof {
                        lemma_entry_lt_order(e@, rv[pos as int], rv[pos as int]);
                    }
                    pos = pos + 1;
                }
                if found {
                    assert forall|i: int| 0 <= i < r@.len() implies t1.contains((#[trigger] r@[i])@.raw) by {
                        let w = choose|w: int| 0 <= w < t0.len() && t0[w] == r@[i]@.raw;
                        assert(t1[w] == r@[i]@.raw);
                    }
                    assert(r@[pos as int]@.raw == lv[k as int]);
                } else {
                    let ghost old_r = rv;
                    let ghost old_vec = r@;
                    let ghost ev = e@;
                    r.insert(pos, e);
                    let ghost nr = entries_view(r@);
                    assert(nr =~= old_r.insert(pos as int, ev));
                    assert forall|a: int, b: int| 0 <= a < b < nr.len() implies entry_lt(nr[a], nr[b]) by {
                        if b < pos {
                        } else if b == pos {
                        } else if a < pos {
                            assert(nr[b] == old_r[b - 1]);
                        } else if a == pos {
                            assert(nr[b] == old_r[b - 1]);
                            if b - 1 > pos {
                                lemma_entry_lt_order(ev, old_r[pos as int], old_r[b - 1]);
                            }
                        } else {
                            assert(nr[a] == old_r[a - 1] && nr[b] == old_r[b - 1]);
                        }
                    }
                    assert forall|i: int| 0 <= i < r@.len() implies t1.contains((#[trigger] r@[i])@.raw)
                        && parsed_from(r@[i]@, r@[i]@.raw) by {
                        if i == pos {
                            assert(t1[k as int] == ev.raw);
                        } else {
                            let o = if i < pos { i } else { i - 1 };
                            assert(r@[i]@ == old_r[o]);
                            let w = choose|w: int| 0 <= w < t0.len() && t0[w] == old_r[o].raw;
                            assert(t1[w] == r@[i]@.raw);
                        }
                    }
                    assert forall|j: int|
                        0 <= j < k + 1 && (#[trigger] parse_list_entry_spec(lv[j])) is Some implies exists|i: int|
                            0 <= i < r@.len() && r@[i]@.raw == lv[j] by {
                        if j == k {
                            assert(r@[pos as int]@.raw == lv[j]);
                        } else {
                            let i = choose|i: int| 0 <= i < old_vec.len() && old_vec[i]@.raw == lv[j];
                            assert(old_r[i] == old_vec[i]@);
                            if i < pos {
                                assert(nr[i] == r@[i]@);
                                assert(r@[i]@.raw == lv[j]);
                            } else {
                                assert(nr[i + 1] == r@[i + 1]@);
                                assert(r@[i + 1]@.raw == lv[j]);
                            }
                        }
                    }
                }
            },
        }
    }
    assert(lv.take(log@.len() as int) =~= lv);
    let ghost fv = entries_view(r@);
    assert forall|i: int| 0 <= i < fv.len() implies lv.contains((#[trigger] fv[i]).raw) && parsed_from(
        fv[i],
        fv[i].raw,
    ) by {
        assert(fv[i] == r@[i]@);
    }
    assert forall|j: int|
        0 <= j < lv.len() && (#[trigger] parse_list_entry_spec(lv[j])) is Some implies exists|i: int|
            0 <= i < fv.len() && fv[i].raw == lv[j] by {
        let i = choose|i: int| 0 <= i < r@.len() && r@[i]@.raw == lv[j];
        assert(fv[i] == r@[i]@);
    }
    r
}

} // verus!

verus! {

/// The list that replaying entries `s` in order builds: an append adds its value at the
/// end, a remove drops every copy of its value; with a `bound`, entries at or after that
/// clock are left out.
pub open spec fn replay_list_spec(s: Seq<ListLogEntryView>, bound: Option<u64>) -> Seq<Seq<char>>
    decreases s.len(),
{
    if s.len() == 0 {
        Seq::empty()
    } else {
        let prev = replay_list_spec(s.drop_last(), bound);
        let e = s.last();
        if bound matches Some(b) && e.clock >= b {
            prev
        } else if e.append {
            prev.push(e.value)
        } else {
            prev.filter(|x: Seq<char>| x != e.value)
        }
    }
}

/// `v` without the strings equal to `value`.
fn without(v: &Vec<String>, value: &String) -> (r: Vec<String>)
    ensures
        string_views(r@) == string_views(v@).filter(|x: Seq<char>| x != value@),
{
    let ghost sv = string_views(v@);
    let ghost pred = |x: Seq<char>| x != value@;
    let mut r: Vec<String> = Vec::new();
    assert(sv.take(0).filter(pred) =~= Seq::<Seq<char>>::empty()) by {
        reveal(Seq::filter);
    }
    for i in 0..v.len()
        invariant
            sv == string_views(v@),
            pred == (|x: Seq<char>| x != value@),
            string_views(r@) == sv.take(i as int).filter(pred),
    {
        assert(sv.take(i + 1) =~= sv.take(i as int).push(sv[i as int]));
        proof {
            sv.take(i as int).lemma_filter_push(sv[i as int], pred);
        }
        if v[i] != *value {
            let ghost before = string_views(r@);
            r.push(v[i].clone());
            assert(string_views(r@) =~= before.push(sv[i as int]));
        }
    }
    assert(sv.take(v@.len() as int) =~= sv);
    r
}

/// Replays list entries in their order (see `replay_list_spec`).
pub fn replay_list(entries: &Vec<ListLogEntry>, bound: Option<u64>) -> (r: Vec<String>)
    ensures
        string_views(r@) == replay_list_spec(entries_view(entries@), bound),
{
    let ghost ev = entries_view(entries@);
    let mut list: Vec<String> = Vec::new();
    assert(ev.take(0) =~= Seq::<ListLogEntryView>::empty());
    for i in 0..entries.len()
        invariant
            ev == entries_view(entries@),
            string_views(list@) == replay_list_spec(ev.take(i as int), bound),
    {
        assert(ev.take(i + 1).drop_last() =~= ev.take(i as int));
        assert(ev.take(i + 1).last() == entries@[i as int]@);
        let e = &entries[i];
        let skip = match bound {
            Some(b) => e.clock >= b,
            None => false,
        };
        if !skip {
            if e.append {
                let ghost before = string_views(list@);
                list.push(e.value.clone());
                assert(string_views(list@) =~= before.push(e.value@));
            } else {
                let ghost before = string_views(list@);
                list = without(&list, &e.value);
                let ghost last = ev.take(i + 1).last();
                assert((|x: Seq<char>| x != e.value@) =~= (|x: Seq<char>| x != last.value));
                assert(string_views(list@) == before.filter(|x: Seq<char>| x != last.value));
            }
        }
    }
    assert(ev.take(entries@.len() as int) =~= ev);
    list
}

/// How many copies of `value` `list` holds, as a `u32` (truncated, as the count is
/// reported).
pub fn count_value(list: &Vec<String>, value: &String) -> (r: u32)
    ensures
        r == (string_views(list@).filter(|x: Seq<char>| x == value@).len() as u32),
{
    let ghost sv = string_views(list@);
    let ghost pred = |x: Seq<char>| x == value@;
    let mut n: usize = 0;
    assert(sv.take(0).filter(pred) =~= Seq::<Seq<char>>::empty()) by {
        reveal(Seq::filter);
    }
    for i in 0..list.len()
        invariant
            sv == string_views(list@),
            pred == (|x: Seq<char>| x == value@),
            n == sv.take(i as int).filter(pred).len(),
            n <= i,
    {
        assert(sv.take(i + 1) =~= sv.take(i as int).push(sv[i as int]));
        proof {
            sv.take(i as int).lemma_filter_push(sv[i as int], pred);
        }
        if list[i] == *value {
            n = n + 1;
        }
    }
    assert(sv.take(list@.len() as int) =~= sv);
    n as u32
}

} // verus!

verus! {

/// Whether every entry of `log` that starts with a clock has a clock of at most `clock`.
pub open spec fn clocks_at_most(log: Seq<Seq<char>>, clock: u64) -> bool {
    forall|i: int|
        0 <= i < log.len() ==> match split_colons(#[trigger] log[i]) {
            Some((c, _)) => match parse_u64_spec(c, 10) {
                Some(k) => k <= clock,
                None => true,
            },
            None => true,
        }
}

proof fn lemma_latest_clock_bound(log: Seq<Seq<char>>, clock: u64)
    requires
        clocks_at_most(log, clock),
    ensures
        latest_entry_spec(log) matches Some((_, m)) ==> m <= clock,
    decreases log.len(),
{
    if log.len() > 0 {
        assert(clocks_at_most(log.drop_last(), clock)) by {
            assert forall|i: int| 0 <= i < log.drop_last().len() implies match split_colons(
                #[trigger] log.drop_last()[i],
            ) {
                Some((c, _)) => match parse_u64_spec(c, 10) {
                    Some(k) => k <= clock,
                    None => true,
                },
                None => true,
            } by {
                assert(log.drop_last()[i] == log[i]);
            }
        }
        lemma_latest_clock_bound(log.drop_last(), clock);
        assert(log.last() == log[log.len() - 1]);
    }
}

/// A key's value reads back as the last one written: after appending the entry for
/// `value` at a clock no smaller than any clock already in the log, the log holds `value`.
pub proof fn lemma_kv_read_after_write(log: Seq<Seq<char>>, clock: u64, value: Seq<char>)
    requires
        clocks_at_most(log, clock),
    ensures
        latest_value_spec(log.push(decimal(clock as nat) + "::"@ + value)) == Some(value),
{
    reveal_strlit("::");
    let d = decimal(clock as nat);
    let e = d + "::"@ + value;
    crate::text::lemma_decimal_chars(clock as nat);
    crate::text::lemma_parse_decimal(clock);
    assert(crate::text::colons_at(e, d.len() as int));
    assert forall|j: int| 0 <= j < d.len() implies !crate::text::colons_at(e, j) by {
        assert(e[j] == d[j]);
    }
    crate::text::lemma_first_colons(e, d.len() as int);
    assert(e.take(d.len() as int) =~= d);
    assert(e.skip(d.len() as int + 2) =~= value);
    lemma_latest_clock_bound(log, clock);
    let full = log.push(e);
    assert(full.drop_last() =~= log);
}

} // verus!

verus! {

/// A stored value as a read reports it: the empty string stands for no value.
pub fn present_value(value: String) -> (r: Option<String>)
    ensures
        value@.len() == 0 ==> r is None,
        value@.len() > 0 ==> (r matches Some(v) && v@ == value@),
{
    if value.as_str().is_empty() {
        None
    } else {
        Some(value)
    }
}

/// Whether a repair appends `entry` to a target log holding `target_entries`: where the
/// target lacks it.
pub fn missing_entry(target_entries: &Vec<String>, entry: &str) -> (r: bool)
    ensures
        r == !string_views(target_entries@).contains(entry@),
{
    !crate::timeline::contains_string(target_entries, entry)
}

} // verus!

verus! {

/// The text of a list log entry reads back as what it records.
proof fn lemma_parse_list_entry_text(append: bool, clock: u64, value: Seq<char>)
    ensures
        parse_list_entry_spec(
            (if append {
                "append"@
            } else {
                "remove"@
            }) + "::"@ + decimal(clock as nat) + "::"@ + value,
        ) == Some((append, clock, value)),
{
    reveal_strlit("append");
    reveal_strlit("remove");
    reveal_strlit("::");
    let w = if append {
        "append"@
    } else {
        "remove"@
    };
    let d = decimal(clock as nat);
    let rest = d + "::"@ + value;
    let text = w + "::"@ + rest;
    assert(text =~= w + "::"@ + d + "::"@ + value);
    assert(w.len() == 6);
    assert(crate::text::colons_at(text, 6));
    assert forall|j: int| 0 <= j < 6 implies !crate::text::colons_at(text, j) by {
        assert(text[j] == w[j]);
    }
    crate::text::lemma_first_colons(text, 6);
    assert(text.take(6) =~= w);
    assert(text.skip(8) =~= rest);
    crate::text::lemma_decimal_chars(clock as nat);
    crate::text::lemma_parse_decimal(clock);
    assert(crate::text::colons_at(rest, d.len() as int));
    assert forall|j: int| 0 <= j < d.len() implies !crate::text::colons_at(rest, j) by {
        assert(rest[j] == d[j]);
    }
    crate::text::lemma_first_colons(rest, d.len() as int);
    assert(rest.take(d.len() as int) =~= d);
    assert(rest.skip(d.len() as int + 2) =~= value);
    if !append {
        assert(w[0] != "append"@[0]);
    }
}

proof fn lemma_sorted_entries_unique(a: Seq<ListLogEntryView>, b: Seq<ListLogEntryView>)
    requires
        entries_sorted(a),
        entries_sorted(b),
        forall|x: ListLogEntryView| a.contains(x) <==> b.contains(x),
    ensures
        a == b,
    decreases a.len(),
{
    if a.len() == 0 {
        if b.len() > 0 {
            assert(b.contains(b[0]));
        }
        assert(a =~= b);
    } else {
        assert(a.contains(a[0]));
        let m = choose|m: int| 0 <= m < b.len() && b[m] == a[0];
        assert(b.contains(b[0]));
        let k = choose|k: int| 0 <= k < a.len() && a[k] == b[0];
        if a[0] != b[0] {
            assert(k > 0 && m > 0);
            assert(entry_lt(a[0], a[k]));
            assert(entry_lt(b[0], b[m]));
            lemma_entry_lt_order(a[0], b[0], a[0]);
        }
        let a1 = a.drop_first();
        let b1 = b.drop_first();
        assert forall|x: ListLogEntryView| a1.contains(x) <==> b1.contains(x) by {
            if a1.contains(x) {
                let i = choose|i: int| 0 <= i < a1.len() && a1[i] == x;
                assert(a[i + 1] == x);
                assert(entry_lt(a[0], a[i + 1]));
                lemma_entry_lt_order(x, x, x);
                assert(b.contains(x));
                let j = choose|j: int| 0 <= j < b.len() && b[j] == x;
                assert(j != 0);
                assert(b1[j - 1] == x);
            }
            if b1.contains(x) {
                let i = choose|i: int| 0 <= i < b1.len() && b1[i] == x;
                assert(b[i + 1] == x);
                assert(entry_lt(b[0], b[i + 1]));
                lemma_entry_lt_order(x, x, x);
                assert(a.contains(x));
                let j = choose|j: int| 0 <= j < a.len() && a[j] == x;
                assert(j != 0);
                assert(a1[j - 1] == x);
            }
        }
        assert(entries_sorted(a1)) by {
            assert forall|i: int, j: int| 0 <= i < j < a1.len() implies entry_lt(a1[i], a1[j]) by {
                assert(a1[i] == a[i + 1] && a1[j] == a[j + 1]);
            }
        }
        assert(entries_sorted(b1)) by {
            assert forall|i: int, j: int| 0 <= i < j < b1.len() implies entry_lt(b1[i], b1[j]) by {
                assert(b1[i] == b[i + 1] && b1[j] == b[j + 1]);
            }
        }
        lemma_sorted_entries_unique(a1, b1);
        assert(a =~= b) by {
            assert(a.len() == b.len());
            assert forall|i: int| 0 <= i < a.len() implies a[i] == b[i] by {
                if i > 0 {
                    assert(a[i] == a1[i - 1] && b[i] == b1[i - 1]);
                }
            }
        }
    }
}

/// The text of a list log entry.
pub open spec fn list_entry_text(append: bool, clock: u64, value: Seq<char>) -> Seq<char> {
    (if append {
        "append"@
    } else {
        "remove"@
    }) + "::"@ + decimal(clock as nat) + "::"@ + value
}

/// Whether every list entry of `log` has a clock below `clock`.
pub open spec fn list_clocks_below(log: Seq<Seq<char>>, clock: u64) -> bool {
    forall|j: int|
        0 <= j < log.len() ==> match parse_list_entry_spec(#[trigger] log[j]) {
            Some((_, k, _)) => k < clock,
            None => true,
        }
}

/// Appending to a log an entry later than all its entries puts that entry last in replay
/// order.
proof fn lemma_replay_order_push(
    log: Seq<Seq<char>>,
    before: Seq<ListLogEntryView>,
    after: Seq<ListLogEntryView>,
    append: bool,
    clock: u64,
    value: Seq<char>,
)
    requires
        list_clocks_below(log, clock),
        is_replay_order(before, log),
        is_replay_order(after, log.push(list_entry_text(append, clock, value))),
    ensures
        after == before.push(
            ListLogEntryView { clock, append, value, raw: list_entry_text(append, clock, value) },
        ),
{
    let raw = list_entry_text(append, clock, value);
    let full = log.push(raw);
    lemma_parse_list_entry_text(append, clock, value);
    let e = ListLogEntryView { clock, append, value, raw };
    let s = before.push(e);
    assert forall|i: int| 0 <= i < before.len() implies (#[trigger] before[i]).clock < clock by {
        assert(log.contains(before[i].raw));
        let j = choose|j: int| 0 <= j < log.len() && log[j] == before[i].raw;
        assert(parse_list_entry_spec(log[j]) == Some((before[i].append, before[i].clock, before[i].value)));
    }
    assert(entries_sorted(s)) by {
        assert forall|i: int, j: int| 0 <= i < j < s.len() implies entry_lt(s[i], s[j]) by {
            if j < before.len() {
                assert(s[i] == before[i] && s[j] == before[j]);
            } else {
                assert(s[i] == before[i]);
            }
        }
    }
    assert forall|x: ListLogEntryView| after.contains(x) <==> s.contains(x) by {
        if after.contains(x) {
            let i = choose|i: int| 0 <= i < after.len() && after[i] == x;
            assert(full.contains(after[i].raw) && parsed_from(after[i], after[i].raw));
            if x.raw == raw {
                assert(x == e);
                assert(s[before.len() as int] == e);
            } else {
                let j = choose|j: int| 0 <= j < full.len() && full[j] == x.raw;
                assert(j < log.len());
                assert(full[j] == log[j]);
                assert(parse_list_entry_spec(log[j]) is Some);
                let k = choose|k: int| 0 <= k < before.len() && before[k].raw == log[j];
                assert(parsed_from(before[k], before[k].raw));
                assert(before[k] == x);
                assert(s[k] == x);
            }
        }
        if s.contains(x) {
            let i = choose|i: int| 0 <= i < s.len() && s[i] == x;
            if i == before.len() {
                assert(full[log.len() as int] == raw);
                assert(parse_list_entry_spec(full[log.len() as int]) is Some);
                let k = choose|k: int| 0 <= k < after.len() && after[k].raw == full[log.len() as int];
                assert(parsed_from(after[k], after[k].raw));
                assert(after[k] == x);
            } else {
                assert(s[i] == before[i]);
                assert(log.contains(before[i].raw) && parsed_from(before[i], before[i].raw));
                let j = choose|j: int| 0 <= j < log.len() && log[j] == before[i].raw;
                assert(full[j] == log[j]);
                assert(parse_list_entry_spec(full[j]) is Some);
                let k = choose|k: int| 0 <= k < after.len() && after[k].raw == full[j];
                assert(parsed_from(after[k], after[k].raw));
                assert(after[k] == x);
            }
        }
    }
    lemma_sorted_entries_unique(after, s);
}

/// A list's replay order is determined by the set of its log's entries: any two replay
/// orders of logs holding the same entries (in whatever order and however often, as the
/// replicas' logs merge) are the same.
pub proof fn lemma_replay_order_unique(
    log1: Seq<Seq<char>>,
    log2: Seq<Seq<char>>,
    a: Seq<ListLogEntryView>,
    b: Seq<ListLogEntryView>,
)
    requires
        forall|x: Seq<char>| log1.contains(x) <==> log2.contains(x),
        is_replay_order(a, log1),
        is_replay_order(b, log2),
    ensures
        a == b,
{
    assert forall|x: ListLogEntryView| a.contains(x) <==> b.contains(x) by {
        if a.contains(x) {
            let i = choose|i: int| 0 <= i < a.len() && a[i] == x;
            assert(log1.contains(a[i].raw) && parsed_from(a[i], a[i].raw));
            assert(log2.contains(x.raw));
            let j = choose|j: int| 0 <= j < log2.len() && log2[j] == x.raw;
            assert(parse_list_entry_spec(log2[j]) is Some);
            let k = choose|k: int| 0 <= k < b.len() && b[k].raw == log2[j];
            assert(parsed_from(b[k], b[k].raw));
            assert(b[k] == x);
        }
        if b.contains(x) {
            let i = choose|i: int| 0 <= i < b.len() && b[i] == x;
            assert(log2.contains(b[i].raw) && parsed_from(b[i], b[i].raw));
            assert(log1.contains(x.raw));
            let j = choose|j: int| 0 <= j < log1.len() && log1[j] == x.raw;
            assert(parse_list_entry_spec(log1[j]) is Some);
            let k = choose|k: int| 0 <= k < a.len() && a[k].raw == log1[j];
            assert(parsed_from(a[k], a[k].raw));
            assert(a[k] == x);
        }
    }
    lemma_sorted_entries_unique(a, b);
}

/// A list reads back with an appended value at its end: after the entry that appends
/// `value` at a clock later than every entry already in the log, the replayed list is the
/// one before, with `value` added last.
pub proof fn lemma_list_read_after_append(
    log: Seq<Seq<char>>,
    before: Seq<ListLogEntryView>,
    after: Seq<ListLogEntryView>,
    clock: u64,
    value: Seq<char>,
)
    requires
        list_clocks_below(log, clock),
        is_replay_order(before, log),
        is_replay_order(after, log.push(list_entry_text(true, clock, value))),
    ensures
        replay_list_spec(after, None) == replay_list_spec(before, None).push(value),
{
    lemma_replay_order_push(log, before, after, true, clock, value);
    assert(after.drop_last() =~= before);
}

/// A removal takes out every copy: after the entry that removes `value` at a clock later
/// than every entry already in the log, the replayed list is the one before without
/// `value`.
pub proof fn lemma_list_read_after_remove(
    log: Seq<Seq<char>>,
    before: Seq<ListLogEntryView>,
    after: Seq<ListLogEntryView>,
    clock: u64,
    value: Seq<char>,
)
    requires
        list_clocks_below(log, clock),
        is_replay_order(before, log),
        is_replay_order(after, log.push(list_entry_text(false, clock, value))),
    ensures
        replay_list_spec(after, None) == replay_list_spec(before, None).filter(|x: Seq<char>| x != value),
        !replay_list_spec(after, None).contains(value),
{
    lemma_replay_order_push(log, before, after, false, clock, value);
    assert(after.drop_last() =~= before);
    let r = replay_list_spec(after, None);
    if r.contains(value) {
        let i = choose|i: int| 0 <= i < r.len() && r[i] == value;
        replay_list_spec(before, None).lemma_filter_pred(|x: Seq<char>| x != value, i);
    }
}

} // verus!

verus! {

/// Whether any reply reports an append, `None` where no replica answered.
pub open spec fn append_outcome_spec(replies: Seq<Option<bool>>) -> Option<bool> {
    if exists|i: int| 0 <= i < replies.len() && (#[trigger] replies[i]) is Some {
        Some(exists|i: int| 0 <= i < replies.len() && #[trigger] replies[i] == Some(true))
    } else {
        None
    }
}

/// The outcome of appending one entry to each replica, from their replies (`None` where a
/// replica did not answer): whether any replica appended it, or `None` where none answered
/// and the append is retried.
pub fn append_outcome(replies: &Vec<Option<bool>>) -> (r: Option<bool>)
    ensures
        r == append_outcome_spec(replies@),
{
    let mut reached = false;
    let mut appended = false;
    for i in 0..replies.len()
        invariant
            reached == exists|k: int| 0 <= k < i && (#[trigger] replies@[k]) is Some,
            appended == exists|k: int| 0 <= k < i && #[trigger] replies@[k] == Some(true),
    {
        if let Some(a) = replies[i] {
            reached = true;
            appended = appended || a;
        }
    }
    if reached {
        Some(appended)
    } else {
        None
    }
}

/// The entries that the replicas' reads of a log gathered, in replica order, or `None`
/// where no replica answered and the read is retried.
pub open spec fn merged_reads_spec(replies: Seq<Option<Seq<Seq<char>>>>) -> Option<Seq<Seq<char>>>
    decreases replies.len(),
{
    if replies.len() == 0 {
        None
    } else {
        let prev = merged_reads_spec(replies.drop_last());
        match replies.last() {
            None => prev,
            Some(log) => match prev {
                None => Some(log),
                Some(p) => Some(p + log),
            },
        }
    }
}

pub open spec fn opt_string_views(v: Seq<Option<Vec<String>>>) -> Seq<Option<Seq<Seq<char>>>> {
    v.map_values(|o: Option<Vec<String>>| match o {
        Some(l) => Some(string_views(l@)),
        None => None,
    })
}

/// Gathers the replicas' reads of a log (`None` where a replica did not answer).
pub fn merged_reads(replies: &Vec<Option<Vec<String>>>) -> (r: Option<Vec<String>>)
    ensures
        match merged_reads_spec(opt_string_views(replies@)) {
            Some(s) => r matches Some(v) && string_views(v@) == s,
            None => r is None,
        },
{
    let ghost rv = opt_string_views(replies@);
    let mut merged: Vec<String> = Vec::new();
    let mut read = false;
    assert(rv.take(0) =~= Seq::<Option<Seq<Seq<char>>>>::empty());
    for i in 0..replies.len()
        invariant
            rv == opt_string_views(replies@),
            match merged_reads_spec(rv.take(i as int)) {
                Some(s) => read && string_views(merged@) == s,
                None => !read && merged@.len() == 0,
            },
    {
        assert(rv.take(i + 1).drop_last() =~= rv.take(i as int));
        assert(rv.take(i + 1).last() == rv[i as int]);
        match &replies[i] {
            None => {},
            Some(log) => {
                let ghost before = string_views(merged@);
                let ghost added = string_views(log@);
                for k in 0..log.len()
                    invariant
                        added == string_views(log@),
                        string_views(merged@) == before + added.take(k as int),
                {
                    let ghost m0 = merged@;
                    let item = log[k].clone();
                    merged.push(item);
                    assert(merged@ == m0.push(item));
                    assert(string_views(merged@) =~= string_views(m0).push(item@));
                    assert(added.take(k + 1) =~= added.take(k as int).push(added[k as int]));
                    assert(string_views(merged@) =~= before + added.take(k + 1));
                }
                assert(added.take(log@.len() as int) =~= added);
                assert(before.len() == 0 ==> before + added =~= added);
                read = true;
            },
        }
    }
    assert(rv.take(replies@.len() as int) =~= rv);
    if read {
        Some(merged)
    } else {
        None
    }
}

/// The clock after a replica's reply to a clock request at `timestamp`: the larger of the
/// two, or `timestamp` where the replica did not answer.
pub fn clock_after_reply(timestamp: u64, reply: Option<u64>) -> (r: u64)
    ensures
        r == match reply {
            Some(c) => if c > timestamp {
                c
            } else {
                timestamp
            },
            None => timestamp,
        },
{
    match reply {
        Some(c) => if c > timestamp {
            c
        } else {
            timestamp
        },
        None => timestamp,
    }
}

} // verus!
