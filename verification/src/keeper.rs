//! The keeper's decisions: which backends are live, which restarted, which need their
//! replicas repaired, and which log entries a repair copies.
use vstd::prelude::*;

use crate::placement::{
    get_live_backend_indices, hash_index_spec, indices_view, live_ring, next_live_backend_index,
    opt_nat, previous_live_backend_index, scan_next, scan_previous, first_two, PlacementError,
};
use crate::bin_log::{latest_entry_index, latest_entry_spec};
use crate::text::starts_with;

verus! {

/// What the keeper knows of one backend.
#[derive(Debug, Clone, Copy, PartialEq, Eq, Structural)]
pub struct BackendHealth {
    pub alive: bool,
    pub last_clock: Option<u64>,
}

/// The largest clock among the replies, 0 where there is none.
pub open spec fn max_clock_spec(replies: Seq<Option<Option<u64>>>) -> u64
    decreases replies.len(),
{
    if replies.len() == 0 {
        0
    } else {
        let m = max_clock_spec(replies.drop_last());
        match replies.last() {
            Some(Some(c)) => if c > m {
                c
            } else {
                m
            },
            _ => m,
        }
    }
}

/// A backend's health after the reply to the first clock read of a heartbeat: `None` where
/// the read task was lost, `Some(None)` where the backend failed, `Some(Some(c))` for a
/// clock.
pub open spec fn after_read(h: BackendHealth, reply: Option<Option<u64>>) -> BackendHealth {
    match reply {
        None => h,
        Some(None) => BackendHealth { alive: false, last_clock: None },
        Some(Some(_)) => BackendHealth { alive: true, last_clock: h.last_clock },
    }
}

/// Whether the reply shows that a live backend restarted: its clock went back (or stood).
pub open spec fn restarted_spec(h: BackendHealth, reply: Option<Option<u64>>) -> bool {
    match reply {
        Some(Some(c)) => h.alive && (h.last_clock matches Some(l) && c <= l),
        _ => false,
    }
}

/// A backend's health after the reply to the clock write of a heartbeat.
pub open spec fn after_write(h: BackendHealth, reply: Option<Option<u64>>) -> BackendHealth {
    match reply {
        None => h,
        Some(None) => BackendHealth { alive: false, last_clock: None },
        Some(Some(c)) => BackendHealth { alive: true, last_clock: Some(c) },
    }
}

/// The clock a heartbeat writes bounds every clock read: it is at least every reply's
/// clock, and it is 0 or one of them.
pub proof fn lemma_max_clock_bounds(replies: Seq<Option<Option<u64>>>)
    ensures
        forall|i: int|
            0 <= i < replies.len() && (#[trigger] replies[i]) is Some && replies[i]->0 is Some ==> max_clock_spec(
                replies,
            ) >= replies[i]->0->0,
        max_clock_spec(replies) == 0 || exists|i: int|
            0 <= i < replies.len() && #[trigger] replies[i] == Some(Some(max_clock_spec(replies))),
    decreases replies.len(),
{
    if replies.len() > 0 {
        let prev = replies.drop_last();
        lemma_max_clock_bounds(prev);
        assert forall|i: int|
            0 <= i < replies.len() && (#[trigger] replies[i]) is Some && replies[i]->0 is Some implies max_clock_spec(
                replies,
            ) >= replies[i]->0->0 by {
            if i < prev.len() {
                assert(prev[i] == replies[i]);
            }
        }
        let m = max_clock_spec(replies);
        if m != 0 {
            if m == max_clock_spec(prev) {
                let i = choose|i: int| 0 <= i < prev.len() && #[trigger] prev[i] == Some(Some(max_clock_spec(prev)));
                assert(replies[i] == prev[i]);
            } else {
                assert(replies[replies.len() - 1] == Some(Some(m)));
            }
        }
    }
}

/// The first half of a heartbeat: takes each backend's reply to a clock read, and returns
/// which backends restarted and the largest clock seen.
pub fn heartbeat_reads(health: &mut Vec<BackendHealth>, replies: &Vec<Option<Option<u64>>>) -> (r: (
    Vec<bool>,
    u64,
))
    requires
        replies@.len() == old(health)@.len(),
    ensures
        final(health)@.len() == old(health)@.len(),
        r.0@.len() == old(health)@.len(),
        forall|i: int|
            0 <= i < replies@.len() ==> final(health)@[i] == after_read(old(health)@[i], replies@[i])
                && r.0@[i] == restarted_spec(old(health)@[i], replies@[i]),
        r.1 == max_clock_spec(replies@),
        forall|i: int| 0 <= i < replies@.len() && (#[trigger] replies@[i]) is Some && replies@[i]->0 is Some
            ==> final(health)@[i].alive && final(health)@[i].last_clock == old(health)@[i].last_clock,
        forall|i: int| 0 <= i < replies@.len() && #[trigger] replies@[i] == Some(None::<u64>) ==> !final(health)@[i].alive
            && final(health)@[i].last_clock is None,
        forall|i: int| 0 <= i < replies@.len() && (#[trigger] replies@[i]) is None ==> final(health)@[i]
            == old(health)@[i],
        forall|i: int|
            0 <= i < replies@.len() ==> (#[trigger] r.0@[i] == (old(health)@[i].alive && replies@[i] is Some
                && replies@[i]->0 is Some && old(health)@[i].last_clock is Some && replies@[i]->0->0
                <= old(health)@[i].last_clock->0)),
        forall|i: int|
            0 <= i < replies@.len() && (#[trigger] replies@[i]) is Some && replies@[i]->0 is Some ==> r.1
                >= replies@[i]->0->0,
        r.1 == 0 || exists|i: int| 0 <= i < replies@.len() && #[trigger] replies@[i] == Some(Some(r.1)),
{
    proof {
        lemma_max_clock_bounds(replies@);
    }
    let mut restarted: Vec<bool> = Vec::new();
    let mut max_clock: u64 = 0;
    let mut i: usize = 0;
    while i < replies.len()
        invariant
            replies@.len() == old(health)@.len(),
            health@.len() == old(health)@.len(),
            i <= replies@.len(),
            restarted@.len() == i,
            max_clock == max_clock_spec(replies@.take(i as int)),
            forall|j: int| 0 <= j < i ==> #[trigger] health@[j] == after_read(old(health)@[j], replies@[j]),
            forall|j: int| 0 <= j < i ==> #[trigger] restarted@[j] == restarted_spec(old(health)@[j], replies@[j]),
            forall|j: int| i <= j < health@.len() ==> #[trigger] health@[j] == old(health)@[j],
        decreases replies@.len() - i,
    {
        assert(replies@.take(i + 1).drop_last() =~= replies@.take(i as int));
        let h = health[i];
        let ghost hb = health@;
        let ghost rb = restarted@;
        match replies[i] {
            None => {
                restarted.push(false);
            },
            Some(None) => {
                health.set(i, BackendHealth { alive: false, last_clock: None });
                restarted.push(false);
            },
            Some(Some(clock)) => {
                let went_back = match h.last_clock {
                    Some(last) => h.alive && clock <= last,
                    None => false,
                };
                restarted.push(went_back);
                health.set(i, BackendHealth { alive: true, last_clock: h.last_clock });
                if clock > max_clock {
                    max_clock = clock;
                }
            },
        }
        assert(forall|j: int| 0 <= j < i ==> health@[j] == hb[j]);
        assert(forall|j: int| 0 <= j < i ==> restarted@[j] == rb[j]);
        i = i + 1;
    }
    assert(replies@.take(replies@.len() as int) =~= replies@);
    (restarted, max_clock)
}

/// The second half of a heartbeat: takes each reply to the clock write (`None` for the
/// backends that were not asked).
pub fn heartbeat_writes(health: &mut Vec<BackendHealth>, replies: &Vec<Option<Option<u64>>>)
    requires
        replies@.len() == old(health)@.len(),
    ensures
        final(health)@.len() == old(health)@.len(),
        forall|i: int|
            0 <= i < replies@.len() ==> final(health)@[i] == after_write(old(health)@[i], replies@[i]),
{
    for i in 0..replies.len()
        invariant
            replies@.len() == old(health)@.len(),
            health@.len() == old(health)@.len(),
            forall|j: int| 0 <= j < i ==> health@[j] == after_write(old(health)@[j], replies@[j]),
            forall|j: int| i <= j < health@.len() ==> health@[j] == old(health)@[j],
    {
        match replies[i] {
            None => {},
            Some(None) => {
                health.set(i, BackendHealth { alive: false, last_clock: None });
            },
            Some(Some(clock)) => {
                health.set(i, BackendHealth { alive: true, last_clock: Some(clock) });
            },
        }
    }
}

/// Whether backend `i` neighbours (as the previous or next live one, in `live`) a backend
/// `j` for which `lost(j)` holds.
pub open spec fn neighbours_lost(live: Seq<bool>, lost: Seq<bool>, i: nat) -> bool {
    exists|j: int|
        0 <= j < live.len() && #[trigger] lost[j] && (scan_previous(j as nat, live, 1) == Some(i)
            || scan_next(j as nat, live, 1) == Some(i))
}

/// Marks in `queue` the live neighbours of every backend `j` with `lost[j]`.
fn mark_neighbours(queue: &mut Vec<bool>, live: &Vec<bool>, lost: &Vec<bool>)
    requires
        old(queue)@.len() == live@.len(),
        lost@.len() == live@.len(),
        live@.len() <= usize::MAX / 2,
    ensures
        final(queue)@.len() == live@.len(),
        forall|i: int|
            0 <= i < live@.len() ==> final(queue)@[i] == (old(queue)@[i] || neighbours_lost(
                live@,
                lost@,
                i as nat,
            )),
{
    let n = live.len();
    for j in 0..n
        invariant
            n == live@.len(),
            queue@.len() == n,
            lost@.len() == n,
            n <= usize::MAX / 2,
            forall|i: int|
                0 <= i < n ==> queue@[i] == (old(queue)@[i] || exists|k: int|
                    0 <= k < j && #[trigger] lost@[k] && (scan_previous(k as nat, live@, 1) == Some(
                        i as nat,
                    ) || scan_next(k as nat, live@, 1) == Some(i as nat))),
    {
        let ghost before = queue@;
        if lost[j] {
            let prev = previous_live_backend_index(j, live.as_slice());
            let next = next_live_backend_index(j, live.as_slice());
            if let Some(p) = prev {
                proof {
                    crate::placement::lemma_scan_in_range(j as nat, live@, true);
                }
                queue.set(p, true);
            }
            if let Some(q) = next {
                proof {
                    crate::placement::lemma_scan_in_range(j as nat, live@, false);
                }
                queue.set(q, true);
            }
        }
        assert forall|i: int| 0 <= i < n implies queue@[i] == (old(queue)@[i] || exists|k: int|
            0 <= k < j + 1 && #[trigger] lost@[k] && (scan_previous(k as nat, live@, 1) == Some(
                i as nat,
            ) || scan_next(k as nat, live@, 1) == Some(i as nat))) by {
            if lost@[j as int] && (scan_previous(j as nat, live@, 1) == Some(i as nat) || scan_next(
                j as nat,
                live@,
                1,
            ) == Some(i as nat)) {
                assert(queue@[i]);
            }
        }
    }
}

} // verus!

verus! {

/// The queue that a keeper starts with: the live neighbours of every backend that is down.
pub fn initial_repair_queue(live: &Vec<bool>) -> (q: Vec<bool>)
    requires
        live@.len() <= usize::MAX / 2,
    ensures
        q@.len() == live@.len(),
        forall|i: int|
            0 <= i < live@.len() ==> q@[i] == neighbours_lost(
                live@,
                Seq::new(live@.len(), |j: int| !live@[j]),
                i as nat,
            ),
{
    let n = live.len();
    let mut lost: Vec<bool> = Vec::new();
    let mut queue: Vec<bool> = Vec::new();
    for j in 0..n
        invariant
            n == live@.len(),
            lost@.len() == j,
            queue@.len() == j,
            forall|k: int| 0 <= k < j ==> lost@[k] == !live@[k] && !queue@[k],
    {
        lost.push(!live[j]);
        queue.push(false);
    }
    assert(lost@ =~= Seq::new(live@.len(), |j: int| !live@[j]));
    mark_neighbours(&mut queue, live, &lost);
    queue
}

/// The backends set in `b`, in increasing order.
pub open spec fn members(b: Seq<bool>) -> Seq<nat> {
    Seq::new(b.len(), |i: int| i as nat).filter(|i: nat| b[i as int])
}

/// The keeper's repair queues: backends whose replicas to push to their backups after a
/// neighbour left, and backends to refill after they came back.
pub struct RepairQueues {
    pub left: Vec<bool>,
    pub rejoin: Vec<bool>,
}

/// The members of `b`, in increasing order.
pub fn member_list(b: &Vec<bool>) -> (r: Vec<usize>)
    ensures
        indices_view(r@) == members(b@),
{
    let ghost all = Seq::new(b@.len(), |i: int| i as nat);
    let ghost pred = |i: nat| b@[i as int];
    let mut r: Vec<usize> = Vec::new();
    assert(all.take(0).filter(pred) =~= Seq::<nat>::empty()) by {
        reveal(Seq::filter);
    }
    for i in 0..b.len()
        invariant
            all == Seq::new(b@.len(), |i: int| i as nat),
            pred == (|i: nat| b@[i as int]),
            indices_view(r@) == all.take(i as int).filter(pred),
    {
        assert(all.take(i + 1) =~= all.take(i as int).push(i as nat));
        proof {
            all.take(i as int).lemma_filter_push(i as nat, pred);
        }
        if b[i] {
            r.push(i);
        }
        assert(indices_view(r@) =~= all.take(i + 1).filter(pred));
    }
    assert(all.take(b@.len() as int) =~= all);
    r
}

/// One keeper tick after a heartbeat: queues the live neighbours of backends that just
/// went down, queues backends that came back or restarted, drops the backends that are
/// down from both queues, and returns what to repair now: every backend left in each queue.
pub fn keeper_tick(
    queues: &mut RepairQueues,
    old_live: &Vec<bool>,
    new_live: &Vec<bool>,
    restarted: &Vec<bool>,
) -> (r: (Vec<usize>, Vec<usize>))
    requires
        old(queues).left@.len() == new_live@.len(),
        old(queues).rejoin@.len() == new_live@.len(),
        old_live@.len() == new_live@.len(),
        restarted@.len() == new_live@.len(),
        new_live@.len() <= usize::MAX / 2,
    ensures
        final(queues).left@.len() == new_live@.len(),
        final(queues).rejoin@.len() == new_live@.len(),
        forall|i: int|
            0 <= i < new_live@.len() ==> final(queues).left@[i] == (new_live@[i] && (old(queues).left@[i]
                || neighbours_lost(
                new_live@,
                Seq::new(new_live@.len(), |j: int| old_live@[j] && !new_live@[j]),
                i as nat,
            ))),
        forall|i: int|
            0 <= i < new_live@.len() ==> final(queues).rejoin@[i] == (new_live@[i] && (
            old(queues).rejoin@[i] || !old_live@[i] || restarted@[i])),
        indices_view(r.0@) == members(final(queues).left@),
        indices_view(r.1@) == members(final(queues).rejoin@),
{
    let n = new_live.len();
    let mut lost: Vec<bool> = Vec::new();
    for j in 0..n
        invariant
            n == new_live@.len(),
            old_live@.len() == n,
            lost@.len() == j,
            forall|k: int| 0 <= k < j ==> lost@[k] == (old_live@[k] && !new_live@[k]),
    {
        lost.push(old_live[j] && !new_live[j]);
    }
    assert(lost@ =~= Seq::new(new_live@.len(), |j: int| old_live@[j] && !new_live@[j]));
    mark_neighbours(&mut queues.left, new_live, &lost);
    let ghost marked = queues.left@;
    let ghost rejoin_before = queues.rejoin@;
    let mut i: usize = 0;
    while i < n
        invariant
            n == new_live@.len(),
            old_live@.len() == n,
            restarted@.len() == n,
            i <= n,
            queues.left@.len() == n,
            queues.rejoin@.len() == n,
            marked.len() == n,
            rejoin_before.len() == n,
            forall|k: int| 0 <= k < i ==> #[trigger] queues.left@[k] == (new_live@[k] && marked[k]),
            forall|k: int| i <= k < n ==> #[trigger] queues.left@[k] == marked[k],
            forall|k: int|
                0 <= k < i ==> #[trigger] queues.rejoin@[k] == (new_live@[k] && (rejoin_before[k]
                    || !old_live@[k] || restarted@[k])),
            forall|k: int| i <= k < n ==> #[trigger] queues.rejoin@[k] == rejoin_before[k],
        decreases n - i,
    {
        let ghost lb = queues.left@;
        let ghost rb = queues.rejoin@;
        let keep_left = new_live[i] && queues.left[i];
        queues.left.set(i, keep_left);
        let keep_rejoin = new_live[i] && (queues.rejoin[i] || !old_live[i] || restarted[i]);
        queues.rejoin.set(i, keep_rejoin);
        assert(forall|k: int| 0 <= k < n && k != i ==> queues.left@[k] == lb[k]);
        assert(forall|k: int| 0 <= k < n && k != i ==> queues.rejoin@[k] == rb[k]);
        i = i + 1;
    }
    let left = member_list(&queues.left);
    let rejoin = member_list(&queues.rejoin);
    (left, rejoin)
}

/// The replicas of `name` when `live` says which backends are live.
pub open spec fn replicas_spec(name: Seq<char>, live: Seq<bool>) -> Option<Seq<nat>> {
    if live.len() == 0 {
        None
    } else {
        let s = live_ring(live, hash_index_spec(name, live.len()));
        if s.len() == 0 {
            None
        } else {
            Some(first_two(s))
        }
    }
}

/// Where a repair after a backend left copies bin `name`'s log entries held by `primary`:
/// to the bin's backup, where `primary` is live, the bin has two replicas and `primary` is
/// the first.
pub fn left_repair_target(name: &str, live: &[bool], primary: usize) -> (r: Option<usize>)
    ensures
        r == (if primary < live@.len() && live@[primary as int] {
            match replicas_spec(name@, live@) {
                Some(t) => if t.len() >= 2 && t[0] == primary {
                    Some(t[1] as usize)
                } else {
                    None
                },
                None => None,
            }
        } else {
            None
        }),
{
    if primary >= live.len() || !live[primary] {
        return None;
    }
    match get_live_backend_indices(name, live) {
        Err(_) => None,
        Ok(targets) => {
            if targets.len() < 2 {
                return None;
            }
            if targets[0] != primary {
                return None;
            }
            Some(targets[1])
        },
    }
}

/// Whether a repair of backend `rejoined` copies bin `name`'s entries from the backend
/// `from`: where the bin's two replicas are `first` and then `second` (the rejoined backend
/// is one of them, `from` the other).
pub fn is_replica_pair(name: &str, live: &[bool], first: usize, second: usize) -> (r: bool)
    ensures
        r == (match replicas_spec(name@, live@) {
            Some(t) => t.len() >= 2 && t[0] == first && t[1] == second,
            None => false,
        }),
{
    match get_live_backend_indices(name, live) {
        Err(_) => false,
        Ok(targets) => targets.len() >= 2 && targets[0] == first && targets[1] == second,
    }
}

/// The entries that a repair offers to copy for backend key `key`: the latest entry of a
/// `key::` log, every entry of a `list::` log, nothing otherwise.
pub open spec fn copy_candidates_spec(key: Seq<char>, entries: Seq<Seq<char>>) -> Seq<Seq<char>> {
    if key.len() >= 5 && key.take(5) == "key::"@ {
        match latest_entry_spec(entries) {
            Some((e, _)) => seq![e],
            None => Seq::empty(),
        }
    } else if key.len() >= 6 && key.take(6) == "list::"@ {
        entries
    } else {
        Seq::empty()
    }
}

/// The entries of `source` that a repair copies for backend key `key`, in order (each is
/// appended where the target lacks it).
pub fn copy_candidates(key: &str, source: &Vec<String>) -> (r: Vec<String>)
    ensures
        crate::text::string_views(r@) == copy_candidates_spec(key@, crate::text::string_views(source@)),
{
    let ghost sv = crate::text::string_views(source@);
    proof {
        reveal_strlit("key::");
        reveal_strlit("list::");
    }
    if starts_with(key, "key::") {
        let latest = latest_entry_index(source);
        let mut r: Vec<String> = Vec::new();
        match latest {
            Some(k) => {
                r.push(source[k].clone());
                assert(crate::text::string_views(r@) =~= seq![sv[k as int]]);
            },
            None => {
                assert(crate::text::string_views(r@) =~= Seq::<Seq<char>>::empty());
            },
        }
        r
    } else if starts_with(key, "list::") {
        let mut r: Vec<String> = Vec::new();
        for i in 0..source.len()
            invariant
                sv == crate::text::string_views(source@),
                r@.len() == i,
                forall|k: int| 0 <= k < i ==> #[trigger] r@[k]@ == sv[k],
        {
            r.push(source[i].clone());
        }
        assert(crate::text::string_views(r@) =~= sv);
        r
    } else {
        let r: Vec<String> = Vec::new();
        assert(crate::text::string_views(r@) =~= Seq::<Seq<char>>::empty());
        r
    }
}

} // verus!

verus! {

/// The backends that the clock write of a heartbeat goes to: those still alive after the
/// reads.
pub fn clock_write_targets(health: &Vec<BackendHealth>) -> (r: Vec<bool>)
    ensures
        r@.len() == health@.len(),
        forall|i: int| 0 <= i < health@.len() ==> r@[i] == health@[i].alive,
{
    let mut r: Vec<bool> = Vec::new();
    for i in 0..health.len()
        invariant
            r@.len() == i,
            forall|k: int| 0 <= k < i ==> r@[k] == health@[k].alive,
    {
        r.push(health[i].alive);
    }
    r
}

/// How many milliseconds keeper `id` serving as backend `this` waits after tick `tick`, so
/// that keepers do not repair in step.
pub fn stagger_ms(id: u64, this: u64, tick: u64) -> (r: u64)
    requires
        id + this <= u64::MAX,
    ensures
        r == ((id + this) % 50 + tick) % 50,
{
    let base = (id + this) % 50;
    let r = (base + tick % 50) % 50;
    assert(r == (base + tick) % 50) by (nonlinear_arith)
        requires
            base < 50,
            r == (base + tick % 50) % 50,
    ;
    r
}

} // verus!
