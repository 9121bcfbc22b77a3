use std::sync::Arc;

use rand::Rng;
use vstd::prelude::*;

use crate::common::address::SocketAddress;
use crate::common::connection_counts::ConnectionCounts;
use crate::proxy::backend::Backend;

verus! {

/// The load by which least-connection selection ranks the address `a`: its
/// connection count where it has one, `usize::MAX` where it has none.
pub open spec fn load_of(counts: Map<SocketAddress, usize>, a: SocketAddress) -> int {
    if counts.dom().contains(a) {
        counts[a] as int
    } else {
        usize::MAX as int
    }
}

/// Whether `i` is the first position among `backends` whose load is the
/// least of all of them.
pub open spec fn is_first_least_loaded(
    backends: Seq<Arc<Backend>>,
    counts: Map<SocketAddress, usize>,
    i: int,
) -> bool {
    &&& 0 <= i < backends.len()
    &&& forall|j: int|
        0 <= j < backends.len() ==> load_of(counts, backends[i].listen_addr) <= load_of(
            counts,
            #[trigger] backends[j].listen_addr,
        )
    &&& forall|j: int|
        0 <= j < i ==> load_of(counts, #[trigger] backends[j].listen_addr) > load_of(
            counts,
            backends[i].listen_addr,
        )
}

/// Least connection takes a backend with the fewest connections: where the
/// chosen backend has a count, no counted backend has fewer connections; an
/// uncounted backend is chosen only where every counted backend is at
/// `usize::MAX`. Every backend before the chosen one has strictly more
/// connections (an uncounted one counting as more than any count below
/// `usize::MAX`).
pub proof fn lemma_least_loaded_has_fewest_connections(
    backends: Seq<Arc<Backend>>,
    counts: Map<SocketAddress, usize>,
    i: int,
)
    requires
        is_first_least_loaded(backends, counts, i),
    ensures
        0 <= i < backends.len(),
        forall|j: int|
            0 <= j < backends.len() && counts.dom().contains(#[trigger] backends[j].listen_addr) ==> (
            counts.dom().contains(backends[i].listen_addr) && counts[backends[i].listen_addr]
                <= counts[backends[j].listen_addr]) || counts[backends[j].listen_addr] == usize::MAX,
        forall|j: int|
            0 <= j < i && counts.dom().contains(#[trigger] backends[j].listen_addr) ==> counts.dom().contains(
                backends[i].listen_addr,
            ) && counts[backends[j].listen_addr] > counts[backends[i].listen_addr],
        forall|j: int|
            0 <= j < i && !counts.dom().contains(#[trigger] backends[j].listen_addr) ==> counts.dom().contains(
                backends[i].listen_addr,
            ) && counts[backends[i].listen_addr] < usize::MAX,
{
    assert forall|j: int|
        0 <= j < backends.len() && counts.dom().contains(#[trigger] backends[j].listen_addr) implies (
        counts.dom().contains(backends[i].listen_addr) && counts[backends[i].listen_addr]
            <= counts[backends[j].listen_addr]) || counts[backends[j].listen_addr] == usize::MAX by {
        assert(load_of(counts, backends[i].listen_addr) <= load_of(counts, backends[j].listen_addr));
    }
    assert forall|j: int|
        0 <= j < i && counts.dom().contains(#[trigger] backends[j].listen_addr) implies counts.dom().contains(
            backends[i].listen_addr,
        ) && counts[backends[j].listen_addr] > counts[backends[i].listen_addr] by {
        assert(load_of(counts, backends[j].listen_addr) > load_of(counts, backends[i].listen_addr));
    }
    assert forall|j: int|
        0 <= j < i && !counts.dom().contains(#[trigger] backends[j].listen_addr) implies counts.dom().contains(
            backends[i].listen_addr,
        ) && counts[backends[i].listen_addr] < usize::MAX by {
        assert(load_of(counts, backends[j].listen_addr) > load_of(counts, backends[i].listen_addr));
    }
}

/// At most one position is the first of the least loaded backends: the
/// least-connection choice is determined by the backends and their counts.
pub proof fn lemma_first_least_loaded_is_unique(
    backends: Seq<Arc<Backend>>,
    counts: Map<SocketAddress, usize>,
    i: int,
    j: int,
)
    requires
        is_first_least_loaded(backends, counts, i),
        is_first_least_loaded(backends, counts, j),
    ensures
        i == j,
{
    if i < j {
        assert(load_of(counts, backends[i].listen_addr) > load_of(counts, backends[j].listen_addr));
    } else if j < i {
        assert(load_of(counts, backends[j].listen_addr) > load_of(counts, backends[i].listen_addr));
    }
}

/// The load of `addr`, as least-connection selection ranks it.
pub fn load(counts: &ConnectionCounts, addr: &SocketAddress) -> (l: usize)
    ensures
        l == load_of(counts@, *addr),
{
    match counts.get(addr) {
        Some(c) => c,
        None => usize::MAX,
    }
}

/// The count that an address is taken to have: its entry, or 0 where it has
/// none.
pub open spec fn count_or_zero(counts: Map<SocketAddress, usize>, a: SocketAddress) -> usize {
    if counts.dom().contains(a) {
        counts[a]
    } else {
        0
    }
}

/// The set of addresses that the backends listen on.
pub open spec fn listen_addrs(backends: Seq<Arc<Backend>>) -> Set<SocketAddress> {
    Set::new(|a: SocketAddress| exists|i: int| 0 <= i < backends.len() && backends[i].listen_addr == a)
}

/// The addresses that backends listen on are exactly the addresses of the
/// backends, of every kind: each backend's address is among them, and each
/// of them is some backend's address.
pub proof fn lemma_listen_addrs_are_the_backends_addresses(backends: Seq<Arc<Backend>>)
    ensures
        forall|i: int| 0 <= i < backends.len() ==> listen_addrs(backends).contains(#[trigger] backends[i].listen_addr),
        forall|a: SocketAddress|
            #[trigger] listen_addrs(backends).contains(a) ==> exists|i: int|
                0 <= i < backends.len() && #[trigger] backends[i].listen_addr == a,
{
}

/// The backends, in their order, each behind a shared reference.
pub fn share_all(backends: Vec<Backend>) -> (r: Vec<Arc<Backend>>)
    ensures
        r@.len() == backends@.len(),
        forall|i: int| 0 <= i < backends@.len() ==> *#[trigger] r@[i] == backends@[i],
{
    let mut shared: Vec<Arc<Backend>> = Vec::new();
    let ghost input = backends@;
    for backend in it: backends
        invariant
            it.seq() == input,
            shared@.len() == it.index(),
            forall|i: int| 0 <= i < it.index() ==> *#[trigger] shared@[i] == input[i],
    {
        shared.push(Arc::new(backend));
    }
    shared
}

/// Counts of 0 for each address that one of the backends listens on.
pub fn zero_counts(backends: &Vec<Arc<Backend>>) -> (c: ConnectionCounts)
    ensures
        c@ == Map::new(|a: SocketAddress| listen_addrs(backends@).contains(a), |a: SocketAddress| 0usize),
        forall|i: int|
            0 <= i < backends@.len() ==> c@.dom().contains(#[trigger] backends@[i].listen_addr)
                && c@[backends@[i].listen_addr] == 0,
        forall|a: SocketAddress|
            #[trigger] c@.dom().contains(a) ==> exists|i: int|
                0 <= i < backends@.len() && #[trigger] backends@[i].listen_addr == a,
{
    let mut counts = ConnectionCounts::new();
    let n = backends.len();
    for k in 0..n
        invariant
            n == backends@.len(),
            counts@ == Map::new(
                |a: SocketAddress| listen_addrs(backends@.take(k as int)).contains(a),
                |a: SocketAddress| 0usize,
            ),
    {
        counts.insert(backends[k].listen_addr, 0);
        proof {
            let before = backends@.take(k as int);
            let after = backends@.take(k + 1);
            assert forall|a: SocketAddress|
                listen_addrs(before).contains(a) implies listen_addrs(after).contains(a) by {
                let j = choose|j: int| 0 <= j < before.len() && before[j].listen_addr == a;
                assert(after[j] == before[j]);
            }
            assert forall|a: SocketAddress|
                listen_addrs(after).contains(a) implies listen_addrs(before).contains(a)
                    || a == backends@[k as int].listen_addr by {
                let j = choose|j: int| 0 <= j < after.len() && after[j].listen_addr == a;
                if j < before.len() {
                    assert(after[j] == before[j]);
                }
            }
            assert(after[k as int] == backends@[k as int]);
            assert(counts@ =~= Map::new(
                |a: SocketAddress| listen_addrs(after).contains(a),
                |a: SocketAddress| 0usize,
            ));
        }
    }
    proof {
        assert(backends@.take(n as int) == backends@);
        lemma_listen_addrs_are_the_backends_addresses(backends@);
    }
    counts
}

/// The position of the first of the least loaded backends.
pub fn least_loaded_index(backends: &Vec<Arc<Backend>>, counts: &ConnectionCounts) -> (i: usize)
    requires
        backends@.len() > 0,
    ensures
        is_first_least_loaded(backends@, counts@, i as int),
{
    let mut best: usize = 0;
    let mut best_load: usize = load(counts, &backends[0].listen_addr);
    let mut k: usize = 1;
    while k < backends.len()
        invariant
            1 <= k <= backends@.len(),
            best < k,
            best_load == load_of(counts@, backends@[best as int].listen_addr),
            forall|j: int|
                0 <= j < k ==> best_load <= load_of(counts@, #[trigger] backends@[j].listen_addr),
            forall|j: int|
                0 <= j < best ==> load_of(counts@, #[trigger] backends@[j].listen_addr) > best_load,
        decreases backends@.len() - k,
    {
        let l = load(counts, &backends[k].listen_addr);
        if l < best_load {
            best = k;
            best_load = l;
        }
        k = k + 1;
    }
    best
}

/// The round robin position after `steps` picks from position `start` in a
/// pool of `n` backends: each pick moves the position on by one, back to the
/// start after the last.
pub open spec fn round_robin_position(start: nat, steps: nat, n: nat) -> nat
    decreases steps,
{
    if steps == 0 {
        start
    } else {
        (round_robin_position(start, (steps - 1) as nat, n) + 1) % n
    }
}

proof fn lemma_round_robin_position_closed_form(start: nat, steps: nat, n: nat)
    requires
        start < n,
    ensures
        round_robin_position(start, steps, n) == ((start + steps) as int) % (n as int),
    decreases steps,
{
    if steps == 0 {
        vstd::arithmetic::div_mod::lemma_small_mod(start, n);
    } else {
        lemma_round_robin_position_closed_form(start, (steps - 1) as nat, n);
        let x = start + steps - 1;
        vstd::arithmetic::div_mod::lemma_add_mod_noop(x, 1, n as int);
        if n > 1 {
            vstd::arithmetic::div_mod::lemma_small_mod(1, n);
        } else {
            vstd::arithmetic::div_mod::lemma_mod_bound(x, 1);
            vstd::arithmetic::div_mod::lemma_mod_bound(x + 1, 1);
        }
    }
}

proof fn lemma_mod_below_twice(x: int, n: int)
    requires
        0 <= x < 2 * n,
    ensures
        x % n == (if x < n { x } else { x - n }),
{
    if x < n {
        vstd::arithmetic::div_mod::lemma_small_mod(x as nat, n as nat);
    } else {
        vstd::arithmetic::div_mod::lemma_mod_add_multiples_vanish(x - n, n);
        vstd::arithmetic::div_mod::lemma_small_mod((x - n) as nat, n as nat);
    }
}

/// Whether one of the `n` picks from position `start` takes position `j`.
pub open spec fn taken_within(start: nat, n: nat, j: nat) -> bool {
    exists|k: nat| k < n && #[trigger] round_robin_position(start, k, n) == j
}

/// Round robin is fair: from any position in a pool of `n` backends, the
/// next `n` picks take every backend exactly once, and the position is then
/// back where it started.
pub proof fn lemma_round_robin_takes_each_once(start: nat, n: nat)
    requires
        start < n,
    ensures
        forall|k: nat| k < n ==> #[trigger] round_robin_position(start, k, n) < n,
        forall|k1: nat, k2: nat|
            k1 < n && k2 < n && k1 != k2 ==> #[trigger] round_robin_position(start, k1, n)
                != #[trigger] round_robin_position(start, k2, n),
        forall|j: nat| j < n ==> #[trigger] taken_within(start, n, j),
        round_robin_position(start, n, n) == start,
{
    assert forall|k: nat| k < n implies #[trigger] round_robin_position(start, k, n) == if start + k < n {
        (start + k) as int
    } else {
        start + k - n
    } by {
        lemma_round_robin_position_closed_form(start, k, n);
        lemma_mod_below_twice((start + k) as int, n as int);
    }
    assert forall|j: nat| j < n implies #[trigger] taken_within(start, n, j) by {
        let k: nat = if j >= start { (j - start) as nat } else { (j + n - start) as nat };
        assert(round_robin_position(start, k, n) == j);
    }
    lemma_round_robin_position_closed_form(start, n, n);
    lemma_mod_below_twice((start + n) as int, n as int);
}

/// A number drawn uniformly from `0..len`, by the thread-local generator of
/// `rand` (`rand::thread_rng` and `Rng::gen_range`). The contract claims
/// only that the number is below `len`; `gen_range` panics on an empty
/// range, which `requires` leaves out. Which number is drawn is left
/// unsaid: it rests on chance.
#[verifier::external_body]
pub(crate) fn random_index(len: usize) -> (i: usize)
    requires
        len > 0,
    ensures
        i < len,
{
    rand::thread_rng().gen_range(0..len)
}

/// A new reference to the backend behind `b` (`Arc::clone`): the same
/// backend, shared.
#[verifier::external_body]
pub(crate) fn share(b: &Arc<Backend>) -> (r: Arc<Backend>)
    ensures
        r == *b,
{
    Arc::clone(b)
}

} // verus!
