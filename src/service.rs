//! The registry: advertised payloads, grouped by key, each with a lease that
//! a claim takes and that expires after the registry's timeout.

use std::collections::HashMap;
use vstd::prelude::*;

verus! {

broadcast use vstd::std_specs::hash::group_hash_axioms;

/// Relies on `SystemTime::now` and `SystemTime::duration_since`: the wall
/// clock in whole seconds since the Unix epoch, read as 0 when the clock is
/// set before the epoch. Nothing is promised of the value.
#[verifier::external_body]
fn epoch() -> (r: u64) {
    std::time::SystemTime::now().duration_since(std::time::UNIX_EPOCH).map_or(0, |d| d.as_secs())
}

/// An advertised service endpoint.
#[derive(Debug)]
pub struct Payload {
    pub service_addr: Vec<String>,
    pub service_port: i32,
    /// When it was last claimed, in seconds since the epoch; 0 if never.
    pub service_claim: u64,
    pub interface_addr: Vec<String>,
    pub bind_port: i32,
    pub key: u64,
    /// Assigned by the registry on registration.
    pub id: u64,
}

/// What a payload holds, as plain values.
pub struct PayloadView {
    pub service_addr: Seq<String>,
    pub service_port: i32,
    pub service_claim: u64,
    pub interface_addr: Seq<String>,
    pub bind_port: i32,
    pub key: u64,
    pub id: u64,
}

impl View for Payload {
    type V = PayloadView;

    open spec fn view(&self) -> PayloadView {
        PayloadView {
            service_addr: self.service_addr@,
            service_port: self.service_port,
            service_claim: self.service_claim,
            interface_addr: self.interface_addr@,
            bind_port: self.bind_port,
            key: self.key,
            id: self.id,
        }
    }
}

fn copy_strings(v: &Vec<String>) -> (r: Vec<String>)
    ensures
        r@ == v@,
{
    let mut out: Vec<String> = Vec::new();
    let mut i: usize = 0;
    while i < v.len()
        invariant
            i <= v@.len(),
            out@ == v@.subrange(0, i as int),
        decreases v@.len() - i,
    {
        out.push(v[i].clone());
        i = i + 1;
        assert(out@ =~= v@.subrange(0, i as int));
    }
    assert(out@ =~= v@);
    out
}

impl Payload {
    /// Returns a payload that holds the same values.
    pub fn duplicate(&self) -> (r: Payload)
        ensures
            r@ == self@,
    {
        Payload {
            service_addr: copy_strings(&self.service_addr),
            service_port: self.service_port,
            service_claim: self.service_claim,
            interface_addr: copy_strings(&self.interface_addr),
            bind_port: self.bind_port,
            key: self.key,
            id: self.id,
        }
    }
}

/// A payload may be claimed at `now` when its last claim lies more than
/// `timeout` seconds before `now`.
pub open spec fn eligible(p: PayloadView, now: u64, timeout: u64) -> bool {
    now - p.service_claim > timeout
}

/// `p` with its last claim set to `now`.
pub open spec fn leased(p: PayloadView, now: u64) -> PayloadView {
    PayloadView { service_claim: now, ..p }
}

/// `p` with the registry's id `id`.
pub open spec fn with_id(p: PayloadView, id: u64) -> PayloadView {
    PayloadView { id, ..p }
}

/// Why a claim found nothing.
#[derive(Clone, Copy, Debug, PartialEq, Eq, Structural)]
pub enum ClaimError {
    /// Every payload under the key is leased: worth asking again later.
    NoAvailablePayload,
    /// Nothing was ever registered under the key.
    UnknownKey,
}

/// The outcome of a claim, as plain values.
pub open spec fn outcome(r: Result<Payload, ClaimError>) -> Result<PayloadView, ClaimError> {
    match r {
        Ok(p) => Ok(p@),
        Err(e) => Err(e),
    }
}

/// The registry as plain values: each key's payloads in order of arrival.
pub struct StateView {
    pub clients: Map<u64, Seq<PayloadView>>,
    pub timeout: u64,
    pub seq: u64,
}

/// The registry of one listening process.
#[derive(Debug)]
pub struct State {
    pub clients: HashMap<u64, Vec<Payload>>,
    /// Kept for callers that record claims apart; the registry leaves it empty.
    pub claims: HashMap<u64, Vec<Payload>>,
    /// Seconds a claim holds its payload.
    pub timeout: u64,
    /// The next id to assign.
    pub seq: u64,
}

/// The lease length of a new registry, in seconds.
pub const DEFAULT_TIMEOUT: u64 = 60;

impl View for State {
    type V = StateView;

    open spec fn view(&self) -> StateView {
        StateView {
            clients: self.clients@.map_values(|v: Vec<Payload>| v@.map_values(|p: Payload| p@)),
            timeout: self.timeout,
            seq: self.seq,
        }
    }
}

impl StateView {
    /// The payloads under `k`, empty where none was registered.
    pub open spec fn entries(self, k: u64) -> Seq<PayloadView> {
        if self.clients.contains_key(k) {
            self.clients[k]
        } else {
            Seq::empty()
        }
    }

    /// Every key holds at least one payload, filed under that key; ids start
    /// at 1, lie below `seq`, and no two payloads share one.
    pub open spec fn wf(self) -> bool {
        &&& self.seq >= 1
        &&& forall|k: u64| #[trigger]
            self.clients.contains_key(k) ==> self.clients[k].len() > 0
        &&& forall|k: u64, i: int|
            self.clients.contains_key(k) && 0 <= i < self.clients[k].len() ==> {
                &&& (#[trigger] self.clients[k][i]).key == k
                &&& 1 <= self.clients[k][i].id < self.seq
            }
        &&& forall|k1: u64, i1: int, k2: u64, i2: int|
            self.clients.contains_key(k1) && self.clients.contains_key(k2) && 0 <= i1
                < self.clients[k1].len() && 0 <= i2 < self.clients[k2].len() && (k1 != k2 || i1
                != i2) ==> (#[trigger] self.clients[k1][i1]).id != (
            #[trigger] self.clients[k2][i2]).id
    }

    /// Some payload under `k` may be claimed at `now`.
    pub open spec fn some_eligible(self, k: u64, now: u64) -> bool {
        exists|i: int|
            0 <= i < self.entries(k).len() && eligible(#[trigger] self.entries(k)[i], now, self.timeout)
    }

    /// Index `i` holds the first payload under `k` that may be claimed at `now`.
    pub open spec fn first_eligible(self, k: u64, now: u64, i: int) -> bool {
        &&& self.clients.contains_key(k)
        &&& 0 <= i < self.clients[k].len()
        &&& eligible(self.clients[k][i], now, self.timeout)
        &&& forall|j: int| 0 <= j < i ==> !eligible(#[trigger] self.clients[k][j], now, self.timeout)
    }

    /// `new` is `self` after a claim of `k` at `now` that returned `r`: the
    /// first claimable payload under `k` is leased to `now` and returned;
    /// otherwise nothing changes and the error says whether `k` is unknown.
    pub open spec fn claimed(
        self,
        k: u64,
        now: u64,
        new: StateView,
        r: Result<PayloadView, ClaimError>,
    ) -> bool {
        match r {
            Err(ClaimError::UnknownKey) => !self.clients.contains_key(k) && new == self,
            Err(ClaimError::NoAvailablePayload) => {
                &&& self.clients.contains_key(k)
                &&& forall|j: int|
                    0 <= j < self.clients[k].len() ==> !eligible(
                        #[trigger] self.clients[k][j],
                        now,
                        self.timeout,
                    )
                &&& new == self
            },
            Ok(p) => exists|i: int|
                {
                    &&& #[trigger] self.first_eligible(k, now, i)
                    &&& p == leased(self.clients[k][i], now)
                    &&& new == self.lease(k, i, now)
                },
        }
    }

    /// The registry after leasing the payload at index `i` under `k` to `now`.
    pub open spec fn lease(self, k: u64, i: int, now: u64) -> StateView {
        StateView {
            clients: self.clients.insert(k, self.clients[k].update(i, leased(self.clients[k][i], now))),
            ..self
        }
    }

    /// Leasing a payload keeps the registry well formed.
    pub proof fn lemma_lease_wf(self, k: u64, i: int, now: u64)
        requires
            self.wf(),
            self.clients.contains_key(k),
            0 <= i < self.clients[k].len(),
        ensures
            self.lease(k, i, now).wf(),
    {
        let new = self.lease(k, i, now);
        assert forall|k2: u64, i2: int|
            new.clients.contains_key(k2) && 0 <= i2 < new.clients[k2].len() implies {
            &&& self.clients.contains_key(k2)
            &&& 0 <= i2 < self.clients[k2].len()
            &&& (#[trigger] new.clients[k2][i2]).key == self.clients[k2][i2].key
            &&& new.clients[k2][i2].id == self.clients[k2][i2].id
        } by {
            if k2 == k && i2 == i {
            } else {
            }
        }
    }

    /// `new` is `old` after registering `p` under the id `id`.
    pub open spec fn registered(self, p: PayloadView, new: StateView, id: u64) -> bool {
        &&& id == self.seq
        &&& new.seq == self.seq + 1
        &&& new.timeout == self.timeout
        &&& new.clients == self.clients.insert(p.key, self.entries(p.key).push(with_id(p, id)))
    }
}

impl State {
    /// An empty registry whose leases last `DEFAULT_TIMEOUT` seconds and
    /// whose first id is 1.
    pub fn new() -> (r: State)
        ensures
            r@.wf(),
            r@.clients == Map::<u64, Seq<PayloadView>>::empty(),
            r@.timeout == DEFAULT_TIMEOUT,
            r@.seq == 1,
            r.claims@ == Map::<u64, Vec<Payload>>::empty(),
    {
        let r = State {
            clients: HashMap::new(),
            claims: HashMap::new(),
            timeout: DEFAULT_TIMEOUT,
            seq: 1,
        };
        assert(r@.clients =~= Map::<u64, Seq<PayloadView>>::empty());
        r
    }

    /// Registers `p` under its key with the next id, and returns that id.
    pub fn add(&mut self, p: Payload) -> (r: u64)
        requires
            old(self)@.wf(),
            old(self).seq < u64::MAX,
        ensures
            final(self)@.wf(),
            old(self)@.registered(p@, final(self)@, r),
            final(self).claims@ == old(self).claims@,
    {
        let mut p = p;
        let id = self.seq;
        p.id = id;
        let key = p.key;
        let ghost old_view = self@;
        let mut list = match self.clients.remove(&key) {
            Some(v) => v,
            None => Vec::new(),
        };
        assert(list@.map_values(|q: Payload| q@) =~= old_view.entries(key));
        list.push(p);
        assert(list@.map_values(|q: Payload| q@) =~= old_view.entries(key).push(with_id(p@, id)));
        self.clients.insert(key, list);
        self.seq = id + 1;
        assert(self@.clients =~= old_view.clients.insert(
            key,
            old_view.entries(key).push(with_id(p@, id)),
        ));
        id
    }

    /// Claims, at time `now`, the first payload under `k` whose lease has
    /// expired (or that was never claimed): its last claim becomes `now`, and a
    /// copy of it is returned.
    pub fn claim_at(&mut self, k: u64, now: u64) -> (r: Result<Payload, ClaimError>)
        requires
            old(self)@.wf(),
        ensures
            final(self)@.wf(),
            final(self).claims@ == old(self).claims@,
            old(self)@.claimed(k, now, final(self)@, outcome(r)),
            r is Ok <==> old(self)@.some_eligible(k, now),
            r is Err && r->Err_0 == ClaimError::UnknownKey <==> !old(self)@.clients.contains_key(k),
    {
        let ghost old_view = self@;
        let mut list = match self.clients.remove(&k) {
            Some(v) => v,
            None => {
                assert(self@.clients =~= old_view.clients);
                return Err(ClaimError::UnknownKey);
            },
        };
        let ghost entries = old_view.clients[k];
        assert(list@.map_values(|q: Payload| q@) =~= entries);
        let timeout = self.timeout;
        let mut i: usize = 0;
        while i < list.len()
            invariant
                i <= list@.len(),
                list@.map_values(|q: Payload| q@) == entries,
                old_view == old(self)@,
                old_view.wf(),
                old_view.clients.contains_key(k),
                old_view.clients[k] == entries,
                timeout == old_view.timeout,
                self.clients@ == old(self).clients@.remove(k),
                self.seq == old_view.seq,
                self.timeout == old_view.timeout,
                self.claims@ == old(self).claims@,
                forall|j: int| 0 <= j < i ==> !eligible(#[trigger] entries[j], now, timeout),
            decreases list@.len() - i,
        {
            assert(entries[i as int] == list@[i as int]@);
            if now > list[i].service_claim && now - list[i].service_claim > timeout {
                let mut q = list[i].duplicate();
                q.service_claim = now;
                let r = q.duplicate();
                list.set(i, q);
                assert(list@.map_values(|q: Payload| q@) =~= entries.update(
                    i as int,
                    leased(entries[i as int], now),
                ));
                self.clients.insert(k, list);
                assert(old_view.first_eligible(k, now, i as int));
                assert(old_view.entries(k)[i as int] == entries[i as int]);
                proof {
                    old_view.lemma_lease_wf(k, i as int, now);
                }
                assert(self@.clients =~= old_view.clients.insert(
                    k,
                    entries.update(i as int, leased(entries[i as int], now)),
                ));
                return Ok(r);
            }
            i = i + 1;
        }
        self.clients.insert(k, list);
        assert(self@.clients =~= old_view.clients);
        assert(old_view.entries(k) == entries);
        Err(ClaimError::NoAvailablePayload)
    }

    /// Claims the first claimable payload under `k` at the current time, as
    /// `claim_at` does; `now` is whatever the clock read.
    pub fn claim(&mut self, k: u64) -> (r: Result<Payload, ClaimError>)
        requires
            old(self)@.wf(),
        ensures
            final(self)@.wf(),
            final(self).claims@ == old(self).claims@,
            exists|now: u64| #[trigger] old(self)@.claimed(k, now, final(self)@, outcome(r)),
            r is Err && r->Err_0 == ClaimError::UnknownKey <==> !old(self)@.clients.contains_key(k),
    {
        let now = epoch();
        self.claim_at(k, now)
    }
}

proof fn lemma_seq_after_registrations(
    states: Seq<StateView>,
    ps: Seq<PayloadView>,
    ids: Seq<u64>,
    n: int,
)
    requires
        ids.len() == ps.len(),
        states.len() == ids.len() + 1,
        forall|i: int|
            0 <= i < ids.len() ==> #[trigger] states[i].registered(ps[i], states[i + 1], ids[i]),
        0 <= n <= ids.len(),
    ensures
        states[n].seq == states[0].seq + n,
    decreases n,
{
    if n > 0 {
        lemma_seq_after_registrations(states, ps, ids, n - 1);
        let j = n - 1;
        assert(states[j].registered(ps[j], states[j + 1], ids[j]));
    }
}

/// Over any run of registrations on one registry, whatever their keys, each
/// id handed out is larger than every id handed out before it, so no two are
/// equal: the `i`-th registration gets the registry's first free id plus `i`.
pub proof fn lemma_ids_increase(states: Seq<StateView>, ps: Seq<PayloadView>, ids: Seq<u64>)
    requires
        ids.len() == ps.len(),
        states.len() == ids.len() + 1,
        forall|i: int|
            0 <= i < ids.len() ==> #[trigger] states[i].registered(ps[i], states[i + 1], ids[i]),
    ensures
        forall|i: int| 0 <= i < ids.len() ==> #[trigger] ids[i] == states[0].seq + i,
        forall|i: int, j: int| 0 <= i < j < ids.len() ==> ids[i] < ids[j],
{
    assert forall|i: int| 0 <= i < ids.len() implies #[trigger] ids[i] == states[0].seq + i by {
        lemma_seq_after_registrations(states, ps, ids, i);
        assert(states[i].registered(ps[i], states[i + 1], ids[i]));
    }
    assert forall|i: int, j: int| 0 <= i < j < ids.len() implies ids[i] < ids[j] by {
        assert(ids[i] == states[0].seq + i);
        assert(ids[j] == states[0].seq + j);
    }
}

/// A payload claimed at `t` stays in the registry with its last claim at `t`,
/// and may not be claimed again at any time up to `t + timeout`, but may be
/// at any time after.
pub proof fn lemma_lease_expiry(s0: StateView, k: u64, t: u64, s1: StateView, p: PayloadView, later: u64)
    requires
        s0.claimed(k, t, s1, Ok(p)),
    ensures
        p.service_claim == t,
        s1.timeout == s0.timeout,
        exists|i: int| 0 <= i < s1.entries(k).len() && #[trigger] s1.entries(k)[i] == p,
        !eligible(p, later, s1.timeout) <==> later <= t + s1.timeout,
{
    let i = choose|i: int|
        {
            &&& #[trigger] s0.first_eligible(k, t, i)
            &&& p == leased(s0.clients[k][i], t)
            &&& s1 == s0.lease(k, i, t)
        };
    assert(s1.entries(k)[i] == p);
}

/// How many of the payloads in `s` may be claimed at `now`.
pub open spec fn count_eligible(s: Seq<PayloadView>, now: u64, timeout: u64) -> nat
    decreases s.len(),
{
    if s.len() == 0 {
        0
    } else {
        count_eligible(s.drop_last(), now, timeout) + if eligible(s.last(), now, timeout) {
            1nat
        } else {
            0nat
        }
    }
}

/// None may be claimed exactly when the count is zero.
pub proof fn lemma_count_zero(s: Seq<PayloadView>, now: u64, timeout: u64)
    ensures
        count_eligible(s, now, timeout) == 0 <==> forall|j: int|
            0 <= j < s.len() ==> !eligible(#[trigger] s[j], now, timeout),
    decreases s.len(),
{
    if s.len() > 0 {
        lemma_count_zero(s.drop_last(), now, timeout);
        if count_eligible(s, now, timeout) == 0 {
            assert forall|j: int| 0 <= j < s.len() implies !eligible(#[trigger] s[j], now, timeout) by {
                if j < s.len() - 1 {
                    assert(s[j] == s.drop_last()[j]);
                }
            }
        }
        if forall|j: int| 0 <= j < s.len() ==> !eligible(#[trigger] s[j], now, timeout) {
            assert forall|j: int| 0 <= j < s.drop_last().len() implies !eligible(
                #[trigger] s.drop_last()[j],
                now,
                timeout,
            ) by {
                assert(s[j] == s.drop_last()[j]);
            }
            assert(!eligible(s[s.len() - 1], now, timeout));
        }
    }
}

/// Replacing a claimable payload by one that is not takes one off the count.
pub proof fn lemma_count_lease(s: Seq<PayloadView>, i: int, v: PayloadView, now: u64, timeout: u64)
    requires
        0 <= i < s.len(),
        eligible(s[i], now, timeout),
        !eligible(v, now, timeout),
    ensures
        count_eligible(s.update(i, v), now, timeout) + 1 == count_eligible(s, now, timeout),
    decreases s.len(),
{
    let u = s.update(i, v);
    if i == s.len() - 1 {
        assert(u.drop_last() =~= s.drop_last());
    } else {
        lemma_count_lease(s.drop_last(), i, v, now, timeout);
        assert(u.drop_last() =~= s.drop_last().update(i, v));
    }
}

/// What holds after the first `n` of a run of claims of `k` at `now`, where
/// `m` payloads under `k` could be claimed before the run.
pub open spec fn claims_so_far(
    states: Seq<StateView>,
    k: u64,
    now: u64,
    results: Seq<Result<PayloadView, ClaimError>>,
    m: int,
    n: int,
) -> bool {
    let s = states[n];
    &&& s.wf()
    &&& s.clients.contains_key(k)
    &&& s.timeout == states[0].timeout
    &&& count_eligible(s.clients[k], now, s.timeout) == if n <= m {
        m - n
    } else {
        0
    }
    &&& forall|i: int| 0 <= i < n ==> (#[trigger] results[i] is Ok <==> i < m)
    &&& forall|i: int|
        0 <= i < n && i >= m ==> #[trigger] results[i] == Err::<PayloadView, ClaimError>(
            ClaimError::NoAvailablePayload,
        )
    &&& forall|i: int|
        0 <= i < n && #[trigger] results[i] is Ok ==> exists|x: int|
            {
                &&& 0 <= x < s.clients[k].len()
                &&& (#[trigger] s.clients[k][x]).id == results[i]->Ok_0.id
                &&& !eligible(s.clients[k][x], now, s.timeout)
            }
    &&& forall|i: int, j: int|
        0 <= i < j < n && #[trigger] results[i] is Ok && #[trigger] results[j] is Ok
            ==> results[i]->Ok_0.id != results[j]->Ok_0.id
}

proof fn lemma_claims_step(
    states: Seq<StateView>,
    k: u64,
    now: u64,
    results: Seq<Result<PayloadView, ClaimError>>,
    m: int,
    n: int,
)
    requires
        0 <= n < results.len(),
        states.len() == results.len() + 1,
        m >= 0,
        claims_so_far(states, k, now, results, m, n),
        states[n].claimed(k, now, states[n + 1], results[n]),
    ensures
        claims_so_far(states, k, now, results, m, n + 1),
{
    let s = states[n];
    let t = states[n + 1];
    let tm = s.timeout;
    match results[n] {
        Ok(p) => {
            let x = choose|x: int|
                {
                    &&& #[trigger] s.first_eligible(k, now, x)
                    &&& p == leased(s.clients[k][x], now)
                    &&& t == s.lease(k, x, now)
                };
            s.lemma_lease_wf(k, x, now);
            lemma_count_lease(s.clients[k], x, p, now, tm);
            assert(t.clients[k] == s.clients[k].update(x, p));
            assert(n < m);
            assert forall|i: int| 0 <= i < n + 1 && #[trigger] results[i] is Ok implies exists|y: int|
                {
                    &&& 0 <= y < t.clients[k].len()
                    &&& (#[trigger] t.clients[k][y]).id == results[i]->Ok_0.id
                    &&& !eligible(t.clients[k][y], now, t.timeout)
                } by {
                if i == n {
                    assert(t.clients[k][x] == p);
                } else {
                    let y = choose|y: int|
                        {
                            &&& 0 <= y < s.clients[k].len()
                            &&& (#[trigger] s.clients[k][y]).id == results[i]->Ok_0.id
                            &&& !eligible(s.clients[k][y], now, s.timeout)
                        };
                    assert(y != x);
                    assert(t.clients[k][y] == s.clients[k][y]);
                }
            }
            assert forall|i: int, j: int|
                0 <= i < j < n + 1 && #[trigger] results[i] is Ok && #[trigger] results[j] is Ok
                    implies results[i]->Ok_0.id != results[j]->Ok_0.id by {
                if j == n {
                    let y = choose|y: int|
                        {
                            &&& 0 <= y < s.clients[k].len()
                            &&& (#[trigger] s.clients[k][y]).id == results[i]->Ok_0.id
                            &&& !eligible(s.clients[k][y], now, s.timeout)
                        };
                    assert(y != x);
                    assert(s.clients[k][y].id != s.clients[k][x].id);
                }
            }
        },
        Err(e) => {
            if e == ClaimError::NoAvailablePayload {
                lemma_count_zero(s.clients[k], now, tm);
            }
        },
    }
}

proof fn lemma_claims_prefix(
    states: Seq<StateView>,
    k: u64,
    now: u64,
    results: Seq<Result<PayloadView, ClaimError>>,
    n: int,
)
    requires
        0 <= n <= results.len(),
        states.len() == results.len() + 1,
        states[0].wf(),
        states[0].clients.contains_key(k),
        forall|i: int|
            0 <= i < results.len() ==> #[trigger] states[i].claimed(
                k,
                now,
                states[i + 1],
                results[i],
            ),
    ensures
        claims_so_far(
            states,
            k,
            now,
            results,
            count_eligible(states[0].clients[k], now, states[0].timeout) as int,
            n,
        ),
    decreases n,
{
    let m = count_eligible(states[0].clients[k], now, states[0].timeout) as int;
    if n > 0 {
        let j = n - 1;
        lemma_claims_prefix(states, k, now, results, j);
        assert(states[j].claimed(k, now, states[j + 1], results[j]));
        lemma_claims_step(states, k, now, results, m, j);
    }
}

/// Claims of one key made one after another at one time `now`, on a registry
/// that holds `m` payloads under that key that may be claimed then: exactly
/// the first `m` succeed, every later one fails with `NoAvailablePayload`,
/// and no payload is handed to two of them.
pub proof fn lemma_claims_exclusive(
    states: Seq<StateView>,
    k: u64,
    now: u64,
    results: Seq<Result<PayloadView, ClaimError>>,
)
    requires
        states.len() == results.len() + 1,
        states[0].wf(),
        states[0].clients.contains_key(k),
        forall|i: int|
            0 <= i < results.len() ==> #[trigger] states[i].claimed(
                k,
                now,
                states[i + 1],
                results[i],
            ),
    ensures
        ({
            let m = count_eligible(states[0].clients[k], now, states[0].timeout) as int;
            &&& forall|i: int| 0 <= i < results.len() ==> (#[trigger] results[i] is Ok <==> i < m)
            &&& forall|i: int|
                0 <= i < results.len() && i >= m ==> #[trigger] results[i] == Err::<
                    PayloadView,
                    ClaimError,
                >(ClaimError::NoAvailablePayload)
            &&& forall|i: int, j: int|
                0 <= i < j < results.len() && #[trigger] results[i] is Ok
                    && #[trigger] results[j] is Ok ==> results[i]->Ok_0.id
                    != results[j]->Ok_0.id
        }),
{
    lemma_claims_prefix(states, k, now, results, results.len() as int);
}

} // verus!
