//! The social front end's decisions: the order of tribbles, which ones a timeline shows
//! and which ones are collected, the list of users, and who follows whom as the follow log
//! says.
use vstd::prelude::*;

use crate::sorting::{is_sorted_set_of, sort_dedup};
use crate::text::{lemma_str_lt_order, str_less, str_lt, string_views};

verus! {

/// A posted message.
#[derive(Debug, Clone, PartialEq, Eq)]
pub struct Trib {
    pub user: String,
    pub message: String,
    pub time: u64,
    pub clock: u64,
}

pub struct TribView {
    pub user: Seq<char>,
    pub message: Seq<char>,
    pub time: u64,
    pub clock: u64,
}

impl View for Trib {
    type V = TribView;

    open spec fn view(&self) -> TribView {
        TribView { user: self.user@, message: self.message@, time: self.time, clock: self.clock }
    }
}

impl Trib {
    /// A field-by-field copy.
    pub fn copy(&self) -> (r: Trib)
        ensures
            r@ == self@,
    {
        Trib { user: self.user.clone(), message: self.message.clone(), time: self.time, clock: self.clock }
    }
}

pub open spec fn tribs_view(v: Seq<Trib>) -> Seq<TribView> {
    v.map_values(|t: Trib| t@)
}

/// The order of tribbles: by clock, then time, then user, then message.
pub open spec fn trib_lt(a: TribView, b: TribView) -> bool {
    ||| a.clock < b.clock
    ||| a.clock == b.clock && a.time < b.time
    ||| a.clock == b.clock && a.time == b.time && str_lt(a.user, b.user)
    ||| a.clock == b.clock && a.time == b.time && a.user == b.user && str_lt(a.message, b.message)
}

/// `trib_lt` is a strict total order.
pub proof fn lemma_trib_lt_order(a: TribView, b: TribView, c: TribView)
    ensures
        !trib_lt(a, a),
        trib_lt(a, b) ==> !trib_lt(b, a),
        trib_lt(a, b) && trib_lt(b, c) ==> trib_lt(a, c),
        a != b ==> trib_lt(a, b) || trib_lt(b, a),
{
    lemma_str_lt_order(a.user, b.user, c.user);
    lemma_str_lt_order(b.user, a.user, c.user);
    lemma_str_lt_order(a.message, b.message, c.message);
    lemma_str_lt_order(b.message, a.message, c.message);
}

/// Compares two tribbles in the order of `trib_lt`.
pub fn trib_order(a: &Trib, b: &Trib) -> (r: std::cmp::Ordering)
    ensures
        (r == std::cmp::Ordering::Less) == trib_lt(a@, b@),
        (r == std::cmp::Ordering::Greater) == trib_lt(b@, a@),
        (r == std::cmp::Ordering::Equal) == (a@ == b@),
{
    proof {
        lemma_trib_lt_order(a@, b@, b@);
    }
    if trib_before(a, b) {
        std::cmp::Ordering::Less
    } else if trib_before(b, a) {
        std::cmp::Ordering::Greater
    } else {
        std::cmp::Ordering::Equal
    }
}

/// Whether `a` comes before `b` in the order of tribbles.
pub fn trib_before(a: &Trib, b: &Trib) -> (r: bool)
    ensures
        r == trib_lt(a@, b@),
{
    if a.clock != b.clock {
        return a.clock < b.clock;
    }
    if a.time != b.time {
        return a.time < b.time;
    }
    if a.user != b.user {
        return str_less(a.user.as_str(), b.user.as_str());
    }
    proof {
        lemma_str_lt_order(a@.user, b@.user, b@.user);
    }
    str_less(a.message.as_str(), b.message.as_str())
}

pub open spec fn tribs_sorted(s: Seq<TribView>) -> bool {
    forall|i: int, j: int| 0 <= i < j < s.len() ==> !trib_lt(s[j], s[i])
}

/// `r` is `v` put in the order of tribbles.
pub open spec fn is_sorted_tribs(r: Seq<TribView>, v: Seq<TribView>) -> bool {
    tribs_sorted(r) && r.to_multiset() == v.to_multiset()
}

proof fn lemma_insert_multiset<A>(s: Seq<A>, pos: int, x: A)
    requires
        0 <= pos <= s.len(),
    ensures
        s.insert(pos, x).to_multiset() == s.to_multiset().insert(x),
{
    broadcast use vstd::seq_lib::group_to_multiset_ensures;
    broadcast use vstd::multiset::group_multiset_axioms;

    let t = s.insert(pos, x);
    assert(t.remove(pos) =~= s);
    assert(t[pos] == x);
    assert(t.contains(x));
    assert(t.to_multiset().count(x) > 0);
    assert(t.to_multiset() =~= s.to_multiset().insert(x));
}

/// `v` in the order of tribbles (equal tribbles stay together).
pub fn sort_tribs(v: &Vec<Trib>) -> (r: Vec<Trib>)
    ensures
        is_sorted_tribs(tribs_view(r@), tribs_view(v@)),
{
    broadcast use vstd::seq_lib::group_to_multiset_ensures;

    let ghost vv = tribs_view(v@);
    let mut r: Vec<Trib> = Vec::new();
    assert(vv.take(0) =~= Seq::<TribView>::empty());
    for k in 0..v.len()
        invariant
            vv == tribs_view(v@),
            tribs_sorted(tribs_view(r@)),
            tribs_view(r@).to_multiset() == vv.take(k as int).to_multiset(),
    {
        let ghost rv = tribs_view(r@);
        let x = &v[k];
        let mut pos: usize = 0;
        while pos < r.len()
            invariant_except_break
                true,
            invariant
                rv == tribs_view(r@),
                tribs_sorted(rv),
                pos <= rv.len(),
                forall|a: int| 0 <= a < pos ==> !trib_lt(x@, rv[a]),
            ensures
                pos == rv.len() || trib_lt(x@, rv[pos as int]),
            decreases rv.len() - pos,
        {
            if trib_before(x, &r[pos]) {
                break;
            }
            pos = pos + 1;
        }
        let ghost xv = x@;
        r.insert(pos, x.copy());
        let ghost nr = tribs_view(r@);
        assert(nr =~= rv.insert(pos as int, xv));
        assert forall|a: int, b: int| 0 <= a < b < nr.len() implies !trib_lt(nr[b], nr[a]) by {
            if b < pos {
            } else if b == pos {
            } else if a < pos {
                assert(nr[b] == rv[b - 1]);
                if trib_lt(nr[b], nr[a]) {
                    lemma_trib_lt_order(rv[b - 1], rv[a], xv);
                    lemma_trib_lt_order(xv, rv[a], rv[a]);
                    if !trib_lt(xv, rv[a]) && xv != rv[a] {
                        lemma_trib_lt_order(rv[a], xv, xv);
                    }
                }
            } else if a == pos {
                assert(nr[b] == rv[b - 1]);
                lemma_trib_lt_order(rv[b - 1], xv, rv[pos as int]);
                if b - 1 > pos {
                    assert(!trib_lt(rv[b - 1], rv[pos as int]));
                }
            } else {
                assert(nr[a] == rv[a - 1] && nr[b] == rv[b - 1]);
            }
        }
        proof {
            lemma_insert_multiset(rv, pos as int, xv);
            assert(vv[k as int] == xv);
            assert(vv.take(k + 1) =~= vv.take(k as int).push(xv));
            vv.take(k as int).to_multiset_ensures();
            assert(vv.take(k as int).push(xv).to_multiset() =~= vv.take(k as int).to_multiset().insert(xv));
        }
    }
    assert(vv.take(v@.len() as int) =~= vv);
    r
}

} // verus!

verus! {

pub open spec fn sat_sub(a: nat, b: nat) -> nat {
    if a > b {
        (a - b) as nat
    } else {
        0
    }
}

/// The tribbles that a timeline shows: the last `max_fetch` of `v` in the order of
/// tribbles.
pub fn latest_tribs(v: &Vec<Trib>, max_fetch: usize) -> (r: Vec<Trib>)
    ensures
        exists|s: Seq<TribView>|
            is_sorted_tribs(s, tribs_view(v@)) && tribs_view(r@) == s.skip(
                sat_sub(s.len(), max_fetch as nat) as int,
            ),
{
    let sorted = sort_tribs(v);
    let ghost s = tribs_view(sorted@);
    let n = sorted.len();
    let start = if n > max_fetch {
        n - max_fetch
    } else {
        0
    };
    let mut r: Vec<Trib> = Vec::new();
    let mut i = start;
    while i < n
        invariant
            s == tribs_view(sorted@),
            n == s.len(),
            start <= i <= n,
            r@.len() == i - start,
            forall|k: int| 0 <= k < r@.len() ==> #[trigger] r@[k]@ == s[start + k],
        decreases n - i,
    {
        r.push(sorted[i].copy());
        i = i + 1;
    }
    assert(tribs_view(r@) =~= s.skip(start as int));
    r
}

/// The tribbles that collecting a user's list removes: none while the list holds at most
/// `max_fetch + 10` entries (`raw_len`, the undecodable ones counted); otherwise the oldest
/// of the decoded tribbles, all but the last `max_fetch`.
pub fn gc_victims(raw_len: usize, decoded: &Vec<Trib>, max_fetch: usize) -> (r: Vec<Trib>)
    requires
        max_fetch + 10 <= usize::MAX,
    ensures
        raw_len <= max_fetch + 10 ==> r@.len() == 0,
        raw_len > max_fetch + 10 ==> exists|s: Seq<TribView>|
            is_sorted_tribs(s, tribs_view(decoded@)) && tribs_view(r@) == s.take(
                sat_sub(s.len(), max_fetch as nat) as int,
            ),
{
    if raw_len <= max_fetch + 10 {
        return Vec::new();
    }
    let sorted = sort_tribs(decoded);
    let ghost s = tribs_view(sorted@);
    let n = sorted.len();
    let count = if n > max_fetch {
        n - max_fetch
    } else {
        0
    };
    let mut r: Vec<Trib> = Vec::new();
    for i in 0..count
        invariant
            s == tribs_view(sorted@),
            n == s.len(),
            count <= n,
            r@.len() == i,
            forall|k: int| 0 <= k < i ==> #[trigger] r@[k]@ == s[k],
    {
        r.push(sorted[i].copy());
    }
    assert(tribs_view(r@) =~= s.take(count as int));
    r
}

/// The users that a listing shows: the distinct names, in order, at most `limit` of them.
pub fn listed_users(names: &Vec<String>, limit: usize) -> (r: Vec<String>)
    ensures
        exists|s: Seq<Seq<char>>|
            is_sorted_set_of(s, string_views(names@)) && string_views(r@) == s.take(
                if s.len() < limit {
                    s.len() as int
                } else {
                    limit as int
                },
            ),
{
    let sorted = sort_dedup(names);
    let ghost s = string_views(sorted@);
    let n = if sorted.len() < limit {
        sorted.len()
    } else {
        limit
    };
    let mut r: Vec<String> = Vec::new();
    for i in 0..n
        invariant
            s == string_views(sorted@),
            n <= s.len(),
            r@.len() == i,
            forall|k: int| 0 <= k < i ==> #[trigger] r@[k]@ == s[k],
    {
        r.push(sorted[i].clone());
    }
    assert(string_views(r@) =~= s.take(n as int));
    r
}

/// Whether a sign-up adds `user` to the cached list of users: while the list is shorter
/// than `limit` and lacks the user.
pub fn should_register(current_users: &Vec<String>, user: &str, limit: usize) -> (r: bool)
    ensures
        r == (current_users@.len() < limit && !string_views(current_users@).contains(user@)),
{
    if current_users.len() >= limit {
        return false;
    }
    let u = String::from_str(user);
    let ghost sv = string_views(current_users@);
    for i in 0..current_users.len()
        invariant
            sv == string_views(current_users@),
            u@ == user@,
            forall|k: int| 0 <= k < i ==> sv[k] != user@,
    {
        if current_users[i] == u {
            assert(sv[i as int] == user@);
            return false;
        }
    }
    true
}

/// Whether a post is longer than `max_len` bytes.
pub fn post_too_long(post: &str, max_len: usize) -> (r: bool)
    ensures
        r == (vstd::utf8::encode_utf8(post@).len() > max_len),
{
    post.as_bytes().len() > max_len
}

} // verus!

verus! {

/// One entry of a user's follow log.
#[derive(Debug, Clone)]
pub struct FollowEntry {
    pub clock: u64,
    pub follow: bool,
    pub target: String,
}

pub struct FollowView {
    pub clock: u64,
    pub follow: bool,
    pub target: Seq<char>,
}

impl View for FollowEntry {
    type V = FollowView;

    open spec fn view(&self) -> FollowView {
        FollowView { clock: self.clock, follow: self.follow, target: self.target@ }
    }
}

pub open spec fn follows_view(v: Seq<FollowEntry>) -> Seq<FollowView> {
    v.map_values(|e: FollowEntry| e@)
}

// The follow log is replayed in the order of clocks, entries of one clock in log order;
// these specifications speak of that order through the positions of the entries.

/// Whether entry `i` is replayed before entry `j` (for entries of one target).
pub open spec fn replayed_before(e: Seq<FollowView>, i: int, j: int) -> bool {
    e[i].clock < e[j].clock || (e[i].clock == e[j].clock && i < j)
}

/// Whether an entry for `t` that follows (`follow`) or unfollows is replayed after entry
/// `i`.
pub open spec fn has_later(e: Seq<FollowView>, t: Seq<char>, i: int, follow: bool) -> bool {
    exists|j: int|
        0 <= j < e.len() && e[j].target == t && e[j].follow == follow && #[trigger] replayed_before(
            e,
            i,
            j,
        )
}

/// Entry `i` follows `t` and no unfollow of `t` is replayed after it: it is part of the
/// final run of follows of `t`.
pub open spec fn in_follow_run(e: Seq<FollowView>, t: Seq<char>, i: int) -> bool {
    0 <= i < e.len() && e[i].target == t && e[i].follow && !has_later(e, t, i, false)
}

/// Entry `i` unfollows `t` and no follow of `t` is replayed after it.
pub open spec fn in_unfollow_run(e: Seq<FollowView>, t: Seq<char>, i: int) -> bool {
    0 <= i < e.len() && e[i].target == t && !e[i].follow && !has_later(e, t, i, true)
}

/// Whether the log leaves its user following `t`: the last entry for `t` follows.
pub open spec fn is_following_spec(e: Seq<FollowView>, t: Seq<char>) -> bool {
    exists|i: int| in_follow_run(e, t, i)
}

/// Whether a follow of `t` written at `clock` is the one that the log keeps: the user
/// follows `t`, and `clock` is the clock at which the final run of follows of `t` began.
pub open spec fn follow_confirmed_spec(e: Seq<FollowView>, t: Seq<char>, clock: u64) -> bool {
    &&& exists|i: int| in_follow_run(e, t, i) && e[i].clock == clock
    &&& forall|k: int| in_follow_run(e, t, k) ==> e[k].clock >= clock
}

/// Whether an unfollow of `t` written at `clock` is the one that the log keeps: the user
/// had followed `t`, no longer follows it, and `clock` is the clock at which the final run
/// of unfollows of `t` began.
pub open spec fn unfollow_confirmed_spec(e: Seq<FollowView>, t: Seq<char>, clock: u64) -> bool {
    &&& exists|f: int| 0 <= f < e.len() && e[f].target == t && e[f].follow
    &&& exists|i: int| in_unfollow_run(e, t, i) && e[i].clock == clock
    &&& forall|k: int| in_unfollow_run(e, t, k) ==> e[k].clock >= clock
}

fn later_exists(entries: &Vec<FollowEntry>, t: &String, i: usize, follow: bool) -> (r: bool)
    requires
        i < entries@.len(),
    ensures
        r == has_later(follows_view(entries@), t@, i as int, follow),
{
    let ghost e = follows_view(entries@);
    let ci = entries[i].clock;
    for j in 0..entries.len()
        invariant
            e == follows_view(entries@),
            i < entries@.len(),
            ci == e[i as int].clock,
            forall|k: int|
                0 <= k < j ==> !(e[k].target == t@ && e[k].follow == follow && replayed_before(
                    e,
                    i as int,
                    k,
                )),
    {
        let ej = &entries[j];
        if ej.follow == follow && ej.target == *t && (ci < ej.clock || (ci == ej.clock && i < j)) {
            assert(replayed_before(e, i as int, j as int));
            return true;
        }
    }
    false
}

pub open spec fn in_run(e: Seq<FollowView>, t: Seq<char>, follow: bool, i: int) -> bool {
    if follow {
        in_follow_run(e, t, i)
    } else {
        in_unfollow_run(e, t, i)
    }
}

/// The earliest clock among the entries of the final run of follows (or unfollows) of `t`.
fn run_start(entries: &Vec<FollowEntry>, t: &String, follow: bool) -> (r: Option<u64>)
    ensures
        match r {
            None => forall|i: int| !#[trigger] in_run(follows_view(entries@), t@, follow, i),
            Some(c) => (exists|i: int|
                #[trigger] in_run(follows_view(entries@), t@, follow, i) && follows_view(entries@)[i].clock
                    == c) && forall|i: int|
                #[trigger] in_run(follows_view(entries@), t@, follow, i) ==> follows_view(
                    entries@,
                )[i].clock >= c,
        },
{
    let ghost e = follows_view(entries@);
    let mut best: Option<u64> = None;
    for i in 0..entries.len()
        invariant
            e == follows_view(entries@),
            match best {
                None => forall|k: int| 0 <= k < i ==> !#[trigger] in_run(e, t@, follow, k),
                Some(c) => (exists|k: int| 0 <= k < i && #[trigger] in_run(e, t@, follow, k) && e[k].clock == c)
                    && forall|k: int| 0 <= k < i && #[trigger] in_run(e, t@, follow, k) ==> e[k].clock >= c,
            },
    {
        let ei = &entries[i];
        if ei.follow == follow && ei.target == *t && !later_exists(entries, t, i, !follow) {
            assert(in_run(e, t@, follow, i as int));
            match best {
                None => {
                    best = Some(ei.clock);
                },
                Some(c) => {
                    if ei.clock < c {
                        best = Some(ei.clock);
                    }
                },
            }
        } else {
            assert(!in_run(e, t@, follow, i as int));
        }
    }
    proof {
        assert forall|i: int| #[trigger] in_run(e, t@, follow, i) implies 0 <= i < entries@.len() by {}
    }
    best
}

/// Whether the follow log leaves its user following `t`.
pub fn is_following(entries: &Vec<FollowEntry>, t: &str) -> (r: bool)
    ensures
        r == is_following_spec(follows_view(entries@), t@),
{
    let ghost e = follows_view(entries@);
    let target = String::from_str(t);
    let r = run_start(entries, &target, true);
    proof {
        if is_following_spec(e, t@) {
            let i = choose|i: int| in_follow_run(e, t@, i);
            assert(in_run(e, t@, true, i));
        }
        if r is Some {
            let i = choose|i: int| #[trigger] in_run(e, t@, true, i) && e[i].clock == r->0;
            assert(in_follow_run(e, t@, i));
        }
    }
    r.is_some()
}

/// Whether the follow of `t` that the user wrote at `clock` is the one the log keeps (so
/// the follow succeeded).
pub fn follow_confirmed(entries: &Vec<FollowEntry>, t: &str, clock: u64) -> (r: bool)
    ensures
        r == follow_confirmed_spec(follows_view(entries@), t@, clock),
{
    let ghost e = follows_view(entries@);
    let target = String::from_str(t);
    let start = run_start(entries, &target, true);
    proof {
        assert forall|k: int| #[trigger] in_follow_run(e, t@, k) implies in_run(e, t@, true, k) by {}
        if follow_confirmed_spec(e, t@, clock) {
            let i = choose|i: int| in_follow_run(e, t@, i) && e[i].clock == clock;
            assert(in_run(e, t@, true, i));
        }
        if let Some(c) = start {
            let i = choose|i: int| #[trigger] in_run(e, t@, true, i) && e[i].clock == c;
            assert(in_follow_run(e, t@, i));
        }
    }
    match start {
        Some(c) => c == clock,
        None => false,
    }
}

/// Whether the unfollow of `t` that the user wrote at `clock` is the one the log keeps (so
/// the unfollow succeeded).
pub fn unfollow_confirmed(entries: &Vec<FollowEntry>, t: &str, clock: u64) -> (r: bool)
    ensures
        r == unfollow_confirmed_spec(follows_view(entries@), t@, clock),
{
    let ghost e = follows_view(entries@);
    let target = String::from_str(t);
    let mut followed = false;
    for i in 0..entries.len()
        invariant
            e == follows_view(entries@),
            target@ == t@,
            followed == exists|f: int| 0 <= f < i && e[f].target == t@ && e[f].follow,
    {
        if entries[i].follow && entries[i].target == target {
            assert(e[i as int].target == t@ && e[i as int].follow);
            followed = true;
        }
    }
    if !followed {
        return false;
    }
    let start = run_start(entries, &target, false);
    proof {
        assert forall|k: int| #[trigger] in_unfollow_run(e, t@, k) implies in_run(e, t@, false, k) by {}
        if unfollow_confirmed_spec(e, t@, clock) {
            let i = choose|i: int| in_unfollow_run(e, t@, i) && e[i].clock == clock;
            assert(in_run(e, t@, false, i));
        }
        if let Some(c) = start {
            let i = choose|i: int| #[trigger] in_run(e, t@, false, i) && e[i].clock == c;
            assert(in_unfollow_run(e, t@, i));
        }
    }
    match start {
        Some(c) => c == clock,
        None => false,
    }
}

proof fn lemma_push_contains(s: Seq<Seq<char>>, x: Seq<char>, t: Seq<char>)
    ensures
        s.push(x).contains(t) == (s.contains(t) || t == x),
{
    if s.contains(t) {
        let w = choose|w: int| 0 <= w < s.len() && s[w] == t;
        assert(s.push(x)[w] == t);
    }
    if t == x {
        assert(s.push(x)[s.len() as int] == t);
    }
    if s.push(x).contains(t) {
        let w = choose|w: int| 0 <= w < s.push(x).len() && s.push(x)[w] == t;
        if w < s.len() {
            assert(s[w] == t);
        }
    }
}

pub open spec fn followed_before(e: Seq<FollowView>, t: Seq<char>, i: int) -> bool {
    exists|k: int| 0 <= k < i && in_follow_run(e, t, k)
}

/// The users that the follow log leaves its user following, each once.
pub fn following_list(entries: &Vec<FollowEntry>) -> (r: Vec<String>)
    ensures
        string_views(r@).no_duplicates(),
        forall|t: Seq<char>| string_views(r@).contains(t) <==> is_following_spec(follows_view(entries@), t),
{
    let ghost e = follows_view(entries@);
    let mut r: Vec<String> = Vec::new();
    let mut i: usize = 0;
    while i < entries.len()
        invariant
            e == follows_view(entries@),
            i <= entries@.len(),
            string_views(r@).no_duplicates(),
            forall|t: Seq<char>| #[trigger] string_views(r@).contains(t) <==> followed_before(e, t, i as int),
        decreases entries@.len() - i,
    {
        let ei = &entries[i];
        let ghost rv = string_views(r@);
        let ghost target = ei.target@;
        let run = ei.follow && !later_exists(entries, &ei.target, i, false);
        assert(run == in_follow_run(e, target, i as int));
        assert forall|t: Seq<char>| #[trigger] followed_before(e, t, i + 1) == (followed_before(e, t, i as int) || (run
            && t == target)) by {
            if followed_before(e, t, i + 1) {
                let k = choose|k: int| 0 <= k < i + 1 && in_follow_run(e, t, k);
                if k < i {
                    assert(followed_before(e, t, i as int));
                }
            }
            if followed_before(e, t, i as int) {
                let k = choose|k: int| 0 <= k < i && in_follow_run(e, t, k);
                assert(0 <= k < i + 1 && in_follow_run(e, t, k));
            }
            if run && t == target {
                assert(in_follow_run(e, t, i as int));
            }
        }
        if run {
            let mut present = false;
            for j in 0..r.len()
                invariant
                    rv == string_views(r@),
                    target == ei.target@,
                    present == exists|k: int| 0 <= k < j && rv[k] == target,
            {
                assert(rv[j as int] == r@[j as int]@);
                if r[j] == ei.target {
                    present = true;
                }
            }
            if !present {
                r.push(ei.target.clone());
                assert(string_views(r@) =~= rv.push(target));
                assert forall|t: Seq<char>| #[trigger] string_views(r@).contains(t) <==> followed_before(e, t, i + 1) by {
                    lemma_push_contains(rv, target, t);
                    assert(rv.contains(t) == followed_before(e, t, i as int));
                }
                assert forall|a: int, b: int| 0 <= a < b < string_views(r@).len() implies string_views(r@)[a]
                    != string_views(r@)[b] by {
                    if b == rv.len() {
                        assert(string_views(r@)[a] == rv[a]);
                    }
                }
            } else {
                assert(rv.contains(target));
                assert forall|t: Seq<char>| #[trigger] string_views(r@).contains(t) <==> followed_before(e, t, i + 1) by {
                    assert(rv.contains(t) == followed_before(e, t, i as int));
                }
            }
        } else {
            assert forall|t: Seq<char>| #[trigger] string_views(r@).contains(t) <==> followed_before(e, t, i + 1) by {
                assert(rv.contains(t) == followed_before(e, t, i as int));
            }
        }
        i = i + 1;
    }
    proof {
        assert forall|t: Seq<char>| string_views(r@).contains(t) <==> is_following_spec(e, t) by {
            assert(string_views(r@).contains(t) == followed_before(e, t, e.len() as int));
            if is_following_spec(e, t) {
                let k = choose|k: int| in_follow_run(e, t, k);
                assert(0 <= k < e.len());
            }
        }
    }
    r
}

} // verus!

verus! {

/// Of follows of one target written at different clocks, the log confirms at most one;
/// the same holds of unfollows.
pub proof fn lemma_one_confirmation(e: Seq<FollowView>, t: Seq<char>, c1: u64, c2: u64)
    ensures
        follow_confirmed_spec(e, t, c1) && follow_confirmed_spec(e, t, c2) ==> c1 == c2,
        unfollow_confirmed_spec(e, t, c1) && unfollow_confirmed_spec(e, t, c2) ==> c1 == c2,
{
    if follow_confirmed_spec(e, t, c1) && follow_confirmed_spec(e, t, c2) {
        let i = choose|i: int| in_follow_run(e, t, i) && e[i].clock == c1;
        let j = choose|j: int| in_follow_run(e, t, j) && e[j].clock == c2;
        assert(e[j].clock >= c1);
        assert(e[i].clock >= c2);
    }
    if unfollow_confirmed_spec(e, t, c1) && unfollow_confirmed_spec(e, t, c2) {
        let i = choose|i: int| in_unfollow_run(e, t, i) && e[i].clock == c1;
        let j = choose|j: int| in_unfollow_run(e, t, j) && e[j].clock == c2;
        assert(e[j].clock >= c1);
        assert(e[i].clock >= c2);
    }
}

/// A confirmed follow leaves the user following its target, and a confirmed unfollow
/// leaves the user not following it.
pub proof fn lemma_confirmation_state(e: Seq<FollowView>, t: Seq<char>, c: u64)
    ensures
        follow_confirmed_spec(e, t, c) ==> is_following_spec(e, t),
        unfollow_confirmed_spec(e, t, c) ==> !is_following_spec(e, t),
{
    if unfollow_confirmed_spec(e, t, c) && is_following_spec(e, t) {
        let i = choose|i: int| in_unfollow_run(e, t, i) && e[i].clock == c;
        let f = choose|f: int| in_follow_run(e, t, f);
        if replayed_before(e, i, f) {
            assert(has_later(e, t, i, true));
        } else {
            assert(replayed_before(e, f, i) || f == i);
            assert(has_later(e, t, f, false));
        }
    }
}

/// Why a follow or unfollow is refused before it is written.
#[derive(Debug, Clone, Copy, PartialEq, Eq, Structural)]
pub enum FollowRefusal {
    AlreadyFollowing,
    FollowingTooMany,
    NotFollowing,
}

/// Whether a follow of `whom` may be written, given whom the user follows now: not where
/// the user already follows `whom`, nor where the user follows `max_following` or more.
pub fn follow_precheck(following: &Vec<String>, whom: &str, max_following: usize) -> (r: Result<(), FollowRefusal>)
    ensures
        string_views(following@).contains(whom@) ==> r == Err::<(), FollowRefusal>(FollowRefusal::AlreadyFollowing),
        !string_views(following@).contains(whom@) && following@.len() >= max_following ==> r == Err::<
            (),
            FollowRefusal,
        >(FollowRefusal::FollowingTooMany),
        !string_views(following@).contains(whom@) && following@.len() < max_following ==> r is Ok,
{
    if contains_string(following, whom) {
        Err(FollowRefusal::AlreadyFollowing)
    } else if following.len() >= max_following {
        Err(FollowRefusal::FollowingTooMany)
    } else {
        Ok(())
    }
}

/// Whether an unfollow of `whom` may be written: only where the user follows `whom`.
pub fn unfollow_precheck(following: &Vec<String>, whom: &str) -> (r: Result<(), FollowRefusal>)
    ensures
        string_views(following@).contains(whom@) <==> r is Ok,
        !string_views(following@).contains(whom@) ==> r == Err::<(), FollowRefusal>(FollowRefusal::NotFollowing),
{
    if contains_string(following, whom) {
        Ok(())
    } else {
        Err(FollowRefusal::NotFollowing)
    }
}

/// Whether `v` holds the string `s`.
pub fn contains_string(v: &Vec<String>, s: &str) -> (r: bool)
    ensures
        r == string_views(v@).contains(s@),
{
    let key = String::from_str(s);
    let ghost sv = string_views(v@);
    for i in 0..v.len()
        invariant
            sv == string_views(v@),
            key@ == s@,
            forall|k: int| 0 <= k < i ==> sv[k] != s@,
    {
        if v[i] == key {
            assert(sv[i as int] == s@);
            return true;
        }
    }
    false
}

} // verus!
