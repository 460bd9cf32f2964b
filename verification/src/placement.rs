//! Where a bin's replicas live: the ring of storage backends, which of them are live, and
//! the keeper's decisions when backends leave or come back.
use vstd::prelude::*;

use crate::text::{parse_u64, split_colons, split_once_colons, starts_with};

verus! {

/// The value that `std::hash::DefaultHasher` (as `DefaultHasher::new()` builds it) gives
/// for the string `s`.
pub uninterp spec fn default_str_hash(s: Seq<char>) -> u64;

/// Hashes `name` with a `DefaultHasher::new()`: `Hash::hash` of the `str`, then
/// `Hasher::finish`. The result is named by `default_str_hash`; `DefaultHasher::new` is
/// documented to give the same hasher every time.
#[verifier::external_body]
fn hash_str(name: &str) -> (h: u64)
    ensures
        h == default_str_hash(name@),
{
    let mut hasher = std::hash::DefaultHasher::new();
    std::hash::Hash::hash(name, &mut hasher);
    std::hash::Hasher::finish(&hasher)
}

/// The backend that a bin's ring walk starts at.
pub open spec fn hash_index_spec(name: Seq<char>, num_backs: nat) -> nat {
    ((default_str_hash(name) as usize) as nat) % num_backs
}

/// The backend (out of `num_backs`) where the ring walk for `name` starts.
pub fn get_hash_index(name: &str, num_backs: usize) -> (r: usize)
    requires
        num_backs > 0,
    ensures
        r == hash_index_spec(name@, num_backs as nat),
{
    let hash_value = hash_str(name);
    hash_value as usize % num_backs
}

/// The backends in ring order, starting at `start`.
pub open spec fn ring_order(n: nat, start: nat) -> Seq<nat> {
    Seq::new(n, |o: int| ((start + o) % (n as int)) as nat)
}

/// The live backends in ring order from `start`.
pub open spec fn live_ring(live: Seq<bool>, start: nat) -> Seq<nat> {
    ring_order(live.len(), start).filter(|i: nat| live[i as int])
}

pub open spec fn first_two(s: Seq<nat>) -> Seq<nat> {
    if s.len() <= 2 {
        s
    } else {
        s.take(2)
    }
}

pub open spec fn indices_view(v: Seq<usize>) -> Seq<nat> {
    v.map_values(|i: usize| i as nat)
}

#[derive(Debug, Clone, Copy, PartialEq, Eq, Structural)]
pub enum PlacementError {
    /// No backend is configured.
    NoBackends,
    /// No configured backend is live.
    NoLiveBackends,
}

/// The replicas of `bin_name`: the first two live backends in ring order from its hash.
pub fn get_live_backend_indices(bin_name: &str, live_backends: &[bool]) -> (r: Result<Vec<usize>, PlacementError>)
    ensures
        live_backends@.len() == 0 ==> r == Err::<Vec<usize>, PlacementError>(PlacementError::NoBackends),
        live_backends@.len() > 0 ==> ({
            let s = live_ring(live_backends@, hash_index_spec(bin_name@, live_backends@.len()));
            if s.len() == 0 {
                r == Err::<Vec<usize>, PlacementError>(PlacementError::NoLiveBackends)
            } else {
                r matches Ok(v) && indices_view(v@) == first_two(s)
            }
        }),
{
    let num_backs = live_backends.len();
    if num_backs == 0 {
        return Err(PlacementError::NoBackends);
    }
    let start = get_hash_index(bin_name, num_backs);
    let ghost order = ring_order(num_backs as nat, start as nat);
    let ghost pred = |i: nat| live_backends@[i as int];
    let mut indices: Vec<usize> = Vec::new();
    let mut offset: usize = 0;
    assert(order.take(0) =~= Seq::<nat>::empty());
    assert(order.take(0).filter(pred) =~= Seq::<nat>::empty()) by {
        reveal(Seq::filter);
    }
    while offset < num_backs && indices.len() < 2
        invariant
            num_backs == live_backends@.len(),
            num_backs > 0,
            start < num_backs,
            order == ring_order(num_backs as nat, start as nat),
            pred == (|i: nat| live_backends@[i as int]),
            offset <= num_backs,
            indices_view(indices@) == order.take(offset as int).filter(pred),
            indices@.len() <= 2,
        decreases num_backs - offset,
    {
        let index = if offset >= num_backs - start {
            offset - (num_backs - start)
        } else {
            start + offset
        };
        assert(index == (start + offset) % (num_backs as int)) by (nonlinear_arith)
            requires
                start < num_backs,
                offset < num_backs,
                index == if offset >= num_backs - start {
                    offset - (num_backs - start)
                } else {
                    start + offset
                },
        ;
        assert(order.take(offset + 1) =~= order.take(offset as int).push(index as nat));
        proof {
            order.take(offset as int).lemma_filter_push(index as nat, pred);
        }
        if live_backends[index] {
            indices.push(index);
        }
        assert(indices_view(indices@) =~= order.take(offset + 1).filter(pred));
        offset = offset + 1;
    }
    proof {
        let full = order.filter(pred);
        assert(order =~= order.take(offset as int) + order.skip(offset as int));
        Seq::filter_distributes_over_add(order.take(offset as int), order.skip(offset as int), pred);
        if offset == num_backs {
            assert(order.skip(offset as int) =~= Seq::<nat>::empty());
            assert(order.skip(offset as int).filter(pred) =~= Seq::<nat>::empty()) by {
                reveal(Seq::filter);
            }
            assert(full =~= indices_view(indices@));
        } else {
            assert(indices@.len() == 2);
            assert(first_two(full) =~= indices_view(indices@));
        }
    }
    if indices.len() == 0 {
        Err(PlacementError::NoLiveBackends)
    } else {
        Ok(indices)
    }
}

/// The first live backend met walking the ring forward from `start` (not counting `start`).
pub open spec fn scan_next(start: nat, live: Seq<bool>, o: nat) -> Option<nat>
    decreases live.len() - o,
{
    if o >= live.len() {
        None
    } else if live[((start + o) % live.len()) as int] {
        Some(((start + o) % live.len()) as nat)
    } else {
        scan_next(start, live, o + 1)
    }
}

/// The first live backend met walking the ring backward from `start` (not counting
/// `start`).
pub open spec fn scan_previous(start: nat, live: Seq<bool>, o: nat) -> Option<nat>
    decreases live.len() - o,
{
    if o >= live.len() {
        None
    } else if live[((start + live.len() - o) % live.len() as int) as int] {
        Some(((start + live.len() - o) % live.len() as int) as nat)
    } else {
        scan_previous(start, live, o + 1)
    }
}

pub open spec fn opt_nat(o: Option<usize>) -> Option<nat> {
    match o {
        Some(i) => Some(i as nat),
        None => None,
    }
}

/// The next live backend after `start` in ring order.
pub fn next_live_backend_index(start: usize, live_backends: &[bool]) -> (r: Option<usize>)
    requires
        start + live_backends@.len() <= usize::MAX,
    ensures
        opt_nat(r) == scan_next(start as nat, live_backends@, 1),
{
    let n = live_backends.len();
    if n == 0 {
        return None;
    }
    let mut offset: usize = 1;
    while offset < n
        invariant
            n == live_backends@.len(),
            n > 0,
            start + n <= usize::MAX,
            1 <= offset,
            scan_next(start as nat, live_backends@, 1) == scan_next(start as nat, live_backends@, offset as nat),
        decreases n - offset,
    {
        let index = (start + offset) % n;
        if live_backends[index] {
            return Some(index);
        }
        offset = offset + 1;
    }
    None
}

/// The previous live backend before `start` in ring order.
pub fn previous_live_backend_index(start: usize, live_backends: &[bool]) -> (r: Option<usize>)
    requires
        start + live_backends@.len() <= usize::MAX,
    ensures
        opt_nat(r) == scan_previous(start as nat, live_backends@, 1),
{
    let n = live_backends.len();
    if n == 0 {
        return None;
    }
    let mut offset: usize = 1;
    while offset < n
        invariant
            n == live_backends@.len(),
            n > 0,
            start + n <= usize::MAX,
            1 <= offset,
            scan_previous(start as nat, live_backends@, 1) == scan_previous(start as nat, live_backends@, offset as nat),
        decreases n - offset,
    {
        let index = (start + n - offset) % n;
        if live_backends[index] {
            return Some(index);
        }
        offset = offset + 1;
    }
    None
}

/// The bin that a backend storage key belongs to, still escaped: for `key::BIN::...` and
/// `list::BIN::...` keys the `BIN` part, otherwise the text before the first `::`.
pub open spec fn bin_name_spec(key: Seq<char>) -> Option<Seq<char>> {
    match split_colons(key) {
        None => None,
        Some((first, rest)) => if first == "key"@ || first == "list"@ {
            match split_colons(rest) {
                Some((bin, _)) => Some(bin),
                None => Some(first),
            }
        } else {
            Some(first)
        },
    }
}

/// The escaped bin name of a backend storage key.
pub fn bin_name_from_key(key: &str) -> (r: Option<String>)
    ensures
        match bin_name_spec(key@) {
            Some(b) => r matches Some(s) && s@ == b,
            None => r is None,
        },
{
    match split_once_colons(key) {
        None => None,
        Some((first, rest)) => {
            proof {
                reveal_strlit("key");
                reveal_strlit("list");
            }
            if first == String::from_str("key") || first == String::from_str("list") {
                match split_once_colons(rest.as_str()) {
                    Some((bin, _)) => Some(bin),
                    None => Some(first),
                }
            } else {
                Some(first)
            }
        },
    }
}

} // verus!

verus! {

proof fn lemma_scan_next_range(start: nat, live: Seq<bool>, o: nat)
    ensures
        scan_next(start, live, o) matches Some(i) ==> i < live.len() && live[i as int],
    decreases live.len() - o,
{
    if o < live.len() && !live[((start + o) % live.len()) as int] {
        lemma_scan_next_range(start, live, o + 1);
    }
}

proof fn lemma_scan_previous_range(start: nat, live: Seq<bool>, o: nat)
    ensures
        scan_previous(start, live, o) matches Some(i) ==> i < live.len() && live[i as int],
    decreases live.len() - o,
{
    if o < live.len() && !live[((start + live.len() - o) % live.len() as int) as int] {
        lemma_scan_previous_range(start, live, o + 1);
    }
}

/// A ring scan only ever finds a live backend.
pub proof fn lemma_scan_in_range(start: nat, live: Seq<bool>, backward: bool)
    ensures
        backward ==> (scan_previous(start, live, 1) matches Some(i) ==> i < live.len() && live[i as int]),
        !backward ==> (scan_next(start, live, 1) matches Some(i) ==> i < live.len() && live[i as int]),
{
    lemma_scan_next_range(start, live, 1);
    lemma_scan_previous_range(start, live, 1);
}

} // verus!

verus! {

/// The live backends that a ring walk from `start` has met, in the order it met them:
/// the probe at offset `o` asks backend `(start + o) % n`, and a reply (`Some` clock)
/// shows it live.
pub open spec fn probed_live(start: nat, n: nat, replies: Seq<Option<u64>>) -> Seq<nat>
    decreases replies.len(),
{
    if replies.len() == 0 {
        Seq::empty()
    } else {
        let prev = probed_live(start, n, replies.drop_last());
        if replies.last() is Some {
            prev.push(((start + replies.len() - 1) % (n as int)) as nat)
        } else {
            prev
        }
    }
}

/// The largest clock among the replies, 0 where there is none.
pub open spec fn probed_max(replies: Seq<Option<u64>>) -> u64
    decreases replies.len(),
{
    if replies.len() == 0 {
        0
    } else {
        let m = probed_max(replies.drop_last());
        match replies.last() {
            Some(c) => if c > m {
                c
            } else {
                m
            },
            None => m,
        }
    }
}

/// Whether a ring walk is over: every backend was asked, or two answered.
pub open spec fn probe_done(start: nat, n: nat, replies: Seq<Option<u64>>) -> bool {
    replies.len() >= n || probed_live(start, n, replies).len() >= 2
}

/// The walk that finds a bin's replicas: backends are asked for their clock one by one in
/// ring order from the bin's start, until two have answered or all were asked.
pub struct LiveProbe {
    start: usize,
    n: usize,
    asked: usize,
    found: Vec<usize>,
    max_clock: u64,
    replies: Ghost<Seq<Option<u64>>>,
}

impl LiveProbe {
    /// The walk's own bookkeeping agrees with the replies recorded.
    pub closed spec fn wf(self) -> bool {
        &&& self.n > 0
        &&& self.start < self.n
        &&& self.asked == self.replies@.len()
        &&& self.asked <= self.n
        &&& indices_view(self.found@) == probed_live(self.start as nat, self.n as nat, self.replies@)
        &&& self.max_clock == probed_max(self.replies@)
        &&& self.replies@.len() > 0 ==> !probe_done(self.start as nat, self.n as nat, self.replies@.drop_last())
    }

    /// The backend the walk starts at.
    pub closed spec fn start(self) -> nat {
        self.start as nat
    }

    /// The number of backends in the ring.
    pub closed spec fn ring_len(self) -> nat {
        self.n as nat
    }

    /// The replies recorded so far, one per probe in order.
    pub closed spec fn replies(self) -> Seq<Option<u64>> {
        self.replies@
    }

    /// Whether the walk is over.
    pub open spec fn done(self) -> bool {
        probe_done(self.start(), self.ring_len(), self.replies())
    }

    /// A walk for bin `bin_name` over `num_backs` backends, with nothing asked yet.
    pub fn new(bin_name: &str, num_backs: usize) -> (r: LiveProbe)
        requires
            num_backs > 0,
        ensures
            r.wf(),
            r.start() == hash_index_spec(bin_name@, num_backs as nat),
            r.ring_len() == num_backs,
            r.replies() == Seq::<Option<u64>>::empty(),
    {
        let start = get_hash_index(bin_name, num_backs);
        let r = LiveProbe {
            start,
            n: num_backs,
            asked: 0,
            found: Vec::new(),
            max_clock: 0,
            replies: Ghost(Seq::empty()),
        };
        assert(indices_view(r.found@) =~= Seq::<nat>::empty());
        r
    }

    fn position(&self) -> (index: usize)
        requires
            self.wf(),
            self.asked < self.n,
        ensures
            index == ((self.start() + self.replies().len()) as int) % (self.ring_len() as int),
    {
        let asked = self.asked;
        let index = if asked >= self.n - self.start {
            asked - (self.n - self.start)
        } else {
            self.start + asked
        };
        assert(index == (self.start + asked) % (self.n as int)) by (nonlinear_arith)
            requires
                self.start < self.n,
                asked < self.n,
                index == if asked >= self.n - self.start {
                    asked - (self.n - self.start)
                } else {
                    self.start + asked
                },
        ;
        index
    }

    /// The backend to ask next, `None` once the walk is over.
    pub fn next_probe(&self) -> (r: Option<usize>)
        requires
            self.wf(),
        ensures
            self.done() ==> r is None,
            !self.done() ==> r == Some((((self.start() + self.replies().len()) as int) % (self.ring_len() as int)) as usize),
    {
        if self.asked >= self.n || self.found.len() >= 2 {
            None
        } else {
            Some(self.position())
        }
    }

    /// Records the reply to the probe that `next_probe` named: `Some(clock)` where the
    /// backend answered.
    pub fn record(&mut self, reply: Option<u64>)
        requires
            old(self).wf(),
            !old(self).done(),
        ensures
            final(self).wf(),
            final(self).start() == old(self).start(),
            final(self).ring_len() == old(self).ring_len(),
            final(self).replies() == old(self).replies().push(reply),
    {
        let ghost before = self.replies@;
        let ghost next = before.push(reply);
        assert(next.drop_last() =~= before);
        if let Some(clock) = reply {
            let index = self.position();
            let ghost fb = self.found@;
            self.found.push(index);
            assert(indices_view(self.found@) =~= indices_view(fb).push(index as nat));
            if clock > self.max_clock {
                self.max_clock = clock;
            }
        }
        self.asked = self.asked + 1;
        self.replies = Ghost(next);
    }

    /// What the walk found: the live backends in the order met and the largest clock among
    /// their replies, or `None` where no backend answered.
    pub fn outcome(&self) -> (r: Option<(Vec<usize>, u64)>)
        requires
            self.wf(),
        ensures
            probed_live(self.start(), self.ring_len(), self.replies()).len() == 0 ==> r is None,
            probed_live(self.start(), self.ring_len(), self.replies()).len() > 0 ==> (r matches Some((v, m))
                && indices_view(v@) == probed_live(self.start(), self.ring_len(), self.replies())
                && m == probed_max(self.replies())),
    {
        if self.found.len() == 0 {
            None
        } else {
            let mut v: Vec<usize> = Vec::new();
            for i in 0..self.found.len()
                invariant
                    v@ == self.found@.take(i as int),
            {
                v.push(self.found[i]);
                assert(v@ =~= self.found@.take(i + 1));
            }
            assert(v@ =~= self.found@);
            Some((v, self.max_clock))
        }
    }
}

proof fn lemma_probed_is_filter(start: nat, live: Seq<bool>, replies: Seq<Option<u64>>)
    requires
        live.len() > 0,
        replies.len() <= live.len(),
        forall|o: int| 0 <= o < replies.len() ==> ((#[trigger] replies[o]) is Some) == live[(start + o) % (live.len() as int)],
    ensures
        probed_live(start, live.len(), replies) == ring_order(live.len(), start).take(replies.len() as int).filter(
            |i: nat| live[i as int],
        ),
    decreases replies.len(),
{
    let n = live.len();
    let order = ring_order(n, start);
    let pred = |i: nat| live[i as int];
    if replies.len() == 0 {
        assert(order.take(0) =~= Seq::<nat>::empty());
        assert(order.take(0).filter(pred) =~= Seq::<nat>::empty()) by {
            reveal(Seq::filter);
        }
    } else {
        let k = replies.len() - 1;
        let prev = replies.drop_last();
        assert forall|o: int| 0 <= o < prev.len() implies ((#[trigger] prev[o]) is Some) == live[(start + o) % (n as int)] by {
            assert(prev[o] == replies[o]);
        }
        lemma_probed_is_filter(start, live, prev);
        assert(order.take(k + 1) =~= order.take(k).push(order[k]));
        order.take(k).lemma_filter_push(order[k], pred);
        assert(replies.last() == replies[k]);
    }
}

/// A finished walk finds the bin's replicas: where the backends that answered are exactly
/// the live ones, the backends found are the first two live ones in ring order from the
/// bin's start, as `get_live_backend_indices` chooses them.
pub proof fn lemma_probe_finds_replicas(p: LiveProbe, live: Seq<bool>)
    requires
        p.wf(),
        p.done(),
        live.len() == p.ring_len(),
        forall|o: int|
            0 <= o < p.replies().len() ==> ((#[trigger] p.replies()[o]) is Some) == live[(p.start() + o) % (
            live.len() as int)],
    ensures
        probed_live(p.start(), p.ring_len(), p.replies()) == first_two(live_ring(live, p.start())),
{
    let n = live.len();
    let start = p.start();
    let replies = p.replies();
    let order = ring_order(n, start);
    let pred = |i: nat| live[i as int];
    let len = replies.len() as int;
    lemma_probed_is_filter(start, live, replies);
    let found = order.take(len).filter(pred);
    if len > 0 {
        let prev = replies.drop_last();
        assert forall|o: int| 0 <= o < prev.len() implies ((#[trigger] prev[o]) is Some) == live[(start + o) % (n as int)] by {
            assert(prev[o] == replies[o]);
        }
        lemma_probed_is_filter(start, live, prev);
        assert(order.take(len) =~= order.take(len - 1).push(order[len - 1]));
        order.take(len - 1).lemma_filter_push(order[len - 1], pred);
    }
    assert(found.len() <= 2);
    assert(order =~= order.take(len) + order.skip(len));
    Seq::filter_distributes_over_add(order.take(len), order.skip(len), pred);
    if len == n {
        assert(order.skip(len) =~= Seq::<nat>::empty());
        assert(order.skip(len).filter(pred) =~= Seq::<nat>::empty()) by {
            reveal(Seq::filter);
        }
        assert(order.take(len) =~= order);
        assert(live_ring(live, start) =~= found);
    } else {
        assert(found.len() == 2);
        assert(first_two(found + order.skip(len).filter(pred)) =~= found);
    }
}

} // verus!
