//! Security extension points: encryption at rest, audit logging, rate
//! limiting, role-based access control and SSO. The in-process defaults here
//! are for local use; deployments wire real implementations behind the traits.

use vstd::prelude::*;
use crate::strmap::StrMap;

verus! {

// ---------------------------------------------------------------------------
// Encryption
// ---------------------------------------------------------------------------

/// At-rest encryption for stored documents.
pub trait Encryptor: Send + Sync {
    fn encrypt(&self, plaintext: &[u8]) -> Vec<u8>;

    fn decrypt(&self, ciphertext: &[u8]) -> Vec<u8>;
}

/// What the pass-through encryptor makes of `plaintext`: the same bytes.
pub open spec fn null_encrypt(plaintext: Seq<u8>) -> Seq<u8> {
    plaintext
}

/// What the pass-through encryptor makes of `ciphertext`: the same bytes.
pub open spec fn null_decrypt(ciphertext: Seq<u8>) -> Seq<u8> {
    ciphertext
}

/// Pass-through "encryptor": NOT secure, for local testing only.
pub struct NullEncryptor;

impl Encryptor for NullEncryptor {
    fn encrypt(&self, plaintext: &[u8]) -> (r: Vec<u8>)
        ensures
            r@ == null_encrypt(plaintext@),
    {
        copy_bytes(plaintext)
    }

    fn decrypt(&self, ciphertext: &[u8]) -> (r: Vec<u8>)
        ensures
            r@ == null_decrypt(ciphertext@),
    {
        copy_bytes(ciphertext)
    }
}

fn copy_bytes(b: &[u8]) -> (r: Vec<u8>)
    ensures
        r@ == b@,
{
    let mut r: Vec<u8> = Vec::new();
    let mut i: usize = 0;
    while i < b.len()
        invariant
            i <= b@.len(),
            r@ == b@.take(i as int),
        decreases b@.len() - i,
    {
        r.push(b[i]);
        i += 1;
        assert(r@ =~= b@.take(i as int));
    }
    assert(b@.take(i as int) =~= b@);
    r
}

/// Decrypting what the pass-through encryptor encrypted gives back the plaintext.
pub proof fn null_encryptor_roundtrip(plaintext: Seq<u8>)
    ensures
        null_decrypt(null_encrypt(plaintext)) == plaintext,
{
}

// ---------------------------------------------------------------------------
// Audit logging
// ---------------------------------------------------------------------------

/// A single audit record.
#[derive(Debug, Clone)]
pub struct AuditEvent {
    pub actor: String,
    pub action: String,
    pub resource: String,
    pub timestamp_unix: u64,
}

/// Append-only audit log sink.
pub trait AuditLogger: Send + Sync {
    fn record(&mut self, event: AuditEvent);
}

/// In-memory audit logger, for tests and local development.
pub struct InMemoryAuditLogger {
    pub events: Vec<AuditEvent>,
}

impl InMemoryAuditLogger {
    pub fn new() -> (l: Self)
        ensures
            l.events@.len() == 0,
    {
        InMemoryAuditLogger { events: Vec::new() }
    }
}

impl Default for InMemoryAuditLogger {
    fn default() -> (l: Self)
        ensures
            l.events@.len() == 0,
    {
        Self::new()
    }
}

impl AuditLogger for InMemoryAuditLogger {
    fn record(&mut self, event: AuditEvent)
        ensures
            final(self).events@ == old(self).events@.push(event),
    {
        self.events.push(event);
    }
}

// ---------------------------------------------------------------------------
// Rate limiting
// ---------------------------------------------------------------------------

/// Per-actor rate limiting.
pub trait RateLimiter: Send + Sync {
    /// The state in which `check` may be called.
    spec fn ready(&self) -> bool;

    /// `Ok(())` if the action is allowed, or an error message otherwise.
    fn check(&mut self, actor: &str) -> (r: Result<(), String>)
        requires
            old(self).ready(),
        ensures
            final(self).ready(),
    ;
}

/// No-op limiter: allows everything.
pub struct UnlimitedRateLimiter;

impl RateLimiter for UnlimitedRateLimiter {
    open spec fn ready(&self) -> bool {
        true
    }

    fn check(&mut self, _actor: &str) -> (r: Result<(), String>)
        ensures
            r is Ok,
    {
        Ok(())
    }
}

/// The message of a refused request.
pub open spec fn rate_limit_message() -> Seq<char> {
    "rate limit exceeded"@
}

/// Fixed-window per-actor counter, in-process only.
pub struct FixedWindowRateLimiter {
    pub window_seconds: u64,
    pub max_requests: u32,
    state: StrMap<(u64, u32)>,
}

/// The start of the window that holds `now`.
pub open spec fn window_start(now: u64, window_seconds: u64) -> u64
    recommends
        window_seconds > 0,
{
    (now - now % window_seconds) as u64
}

/// The counter of `actor` for the window that holds `now`, before counting
/// this request: a counter from an earlier window starts over at zero.
pub open spec fn current_count(windows: Map<Seq<char>, (u64, u32)>, actor: Seq<char>, ws: u64) -> u32 {
    if windows.dom().contains(actor) && windows[actor].0 == ws {
        windows[actor].1
    } else {
        0
    }
}

/// A request by `actor` at time `now`: the windows after it, and whether it
/// is allowed. A request is allowed while the actor's count in the current
/// window is below `limit`, and then counts; a refused request leaves the
/// count as it was, a window that has passed starting over at zero.
pub open spec fn rate_step(
    windows: Map<Seq<char>, (u64, u32)>,
    window_seconds: u64,
    limit: u32,
    actor: Seq<char>,
    now: u64,
) -> (Map<Seq<char>, (u64, u32)>, bool) {
    let ws = window_start(now, window_seconds);
    let c = current_count(windows, actor, ws);
    if c >= limit {
        (windows.insert(actor, (ws, c)), false)
    } else {
        (windows.insert(actor, (ws, (c + 1) as u32)), true)
    }
}

/// Every count is within `limit`.
pub open spec fn counts_within(windows: Map<Seq<char>, (u64, u32)>, limit: u32) -> bool {
    forall|a: Seq<char>| #[trigger] windows.dom().contains(a) ==> windows[a].1 <= limit
}

/// No actor is ever allowed more than `limit` requests in one window: a
/// request keeps every count within the limit, and a request at the limit
/// is refused and changes no count.
pub proof fn rate_limit_holds(
    windows: Map<Seq<char>, (u64, u32)>,
    window_seconds: u64,
    limit: u32,
    actor: Seq<char>,
    now: u64,
)
    requires
        counts_within(windows, limit),
    ensures
        counts_within(rate_step(windows, window_seconds, limit, actor, now).0, limit),
        current_count(windows, actor, window_start(now, window_seconds)) >= limit ==> {
            &&& !rate_step(windows, window_seconds, limit, actor, now).1
            &&& current_count(rate_step(windows, window_seconds, limit, actor, now).0, actor, window_start(now, window_seconds))
                == current_count(windows, actor, window_start(now, window_seconds))
        },
        rate_step(windows, window_seconds, limit, actor, now).1 ==> current_count(
            rate_step(windows, window_seconds, limit, actor, now).0,
            actor,
            window_start(now, window_seconds),
        ) == current_count(windows, actor, window_start(now, window_seconds)) + 1,
{
}

/// A fresh limiter allows `limit` requests by one actor within a window,
/// and refuses the next.
pub proof fn rate_limit_allows_up_to_limit(window_seconds: u64, limit: u32, actor: Seq<char>, now: u64, k: nat)
    requires
        window_seconds > 0,
        k <= limit,
    ensures
        rate_steps(Map::empty(), window_seconds, limit, actor, now, k).1 == k,
        current_count(rate_steps(Map::empty(), window_seconds, limit, actor, now, k).0, actor, window_start(now, window_seconds)) == k,
        k == limit ==> !rate_step(rate_steps(Map::empty(), window_seconds, limit, actor, now, k).0, window_seconds, limit, actor, now).1,
    decreases k,
{
    if k > 0 {
        rate_limit_allows_up_to_limit(window_seconds, limit, actor, now, (k - 1) as nat);
    }
}

/// `k` requests by `actor` at time `now`: the windows after them, and how
/// many were allowed.
pub open spec fn rate_steps(
    windows: Map<Seq<char>, (u64, u32)>,
    window_seconds: u64,
    limit: u32,
    actor: Seq<char>,
    now: u64,
    k: nat,
) -> (Map<Seq<char>, (u64, u32)>, nat)
    decreases k,
{
    if k == 0 {
        (windows, 0)
    } else {
        let prev = rate_steps(windows, window_seconds, limit, actor, now, (k - 1) as nat);
        let next = rate_step(prev.0, window_seconds, limit, actor, now);
        (next.0, prev.1 + if next.1 { 1nat } else { 0nat })
    }
}

/// A run of requests `calls[..n]`, each an actor and the time it asks at,
/// from `windows`: the windows after them, and which of them were allowed.
pub open spec fn rate_run(
    windows: Map<Seq<char>, (u64, u32)>,
    window_seconds: u64,
    limit: u32,
    calls: Seq<(Seq<char>, u64)>,
    n: int,
) -> (Map<Seq<char>, (u64, u32)>, Seq<bool>)
    decreases n,
{
    if n <= 0 {
        (windows, Seq::empty())
    } else {
        let prev = rate_run(windows, window_seconds, limit, calls, n - 1);
        let step = rate_step(prev.0, window_seconds, limit, calls[n - 1].0, calls[n - 1].1);
        (step.0, prev.1.push(step.1))
    }
}

/// The number of the first `n` requests that were made by `actor` in the
/// window starting at `ws` and allowed.
pub open spec fn allowed_in(
    calls: Seq<(Seq<char>, u64)>,
    oks: Seq<bool>,
    n: int,
    actor: Seq<char>,
    ws: u64,
    window_seconds: u64,
) -> nat
    decreases n,
{
    if n <= 0 {
        0
    } else {
        allowed_in(calls, oks, n - 1, actor, ws, window_seconds) + if calls[n - 1].0 == actor
            && window_start(calls[n - 1].1, window_seconds) == ws && oks[n - 1] {
            1nat
        } else {
            0nat
        }
    }
}

proof fn lemma_allowed_in_prefix(
    calls: Seq<(Seq<char>, u64)>,
    a: Seq<bool>,
    b: Seq<bool>,
    n: int,
    actor: Seq<char>,
    ws: u64,
    window_seconds: u64,
)
    requires
        n <= a.len(),
        n <= b.len(),
        forall|i: int| 0 <= i < n ==> a[i] == b[i],
    ensures
        allowed_in(calls, a, n, actor, ws, window_seconds) == allowed_in(calls, b, n, actor, ws, window_seconds),
    decreases n,
{
    if n > 0 {
        lemma_allowed_in_prefix(calls, a, b, n - 1, actor, ws, window_seconds);
    }
}

proof fn lemma_allowed_in_none(
    calls: Seq<(Seq<char>, u64)>,
    oks: Seq<bool>,
    n: int,
    actor: Seq<char>,
    ws: u64,
    window_seconds: u64,
)
    requires
        forall|i: int| 0 <= i < n && calls[i].0 == actor ==> window_start(calls[i].1, window_seconds) != ws,
    ensures
        allowed_in(calls, oks, n, actor, ws, window_seconds) == 0,
    decreases n,
{
    if n > 0 {
        lemma_allowed_in_none(calls, oks, n - 1, actor, ws, window_seconds);
    }
}

/// A later time is in the same window or a later one.
proof fn lemma_window_ordered(t1: u64, t2: u64, w: u64)
    requires
        t1 <= t2,
        w > 0,
    ensures
        window_start(t1, w) <= window_start(t2, w),
{
    vstd::arithmetic::div_mod::lemma_fundamental_div_mod(t1 as int, w as int);
    vstd::arithmetic::div_mod::lemma_fundamental_div_mod(t2 as int, w as int);
    vstd::arithmetic::div_mod::lemma_div_is_ordered(t1 as int, t2 as int, w as int);
    vstd::arithmetic::mul::lemma_mul_inequality(t1 as int / w as int, t2 as int / w as int, w as int);
    assert(w * (t1 as int / w as int) == (t1 as int / w as int) * w) by (nonlinear_arith);
    assert(w * (t2 as int / w as int) == (t2 as int / w as int) * w) by (nonlinear_arith);
}

/// What a run of requests keeps: each actor seen has the window of one of
/// its requests, no later than the windows of all of them, and counts the
/// requests allowed in that window; each request was allowed exactly when
/// fewer than `limit` requests of its actor had been allowed in its window.
proof fn lemma_rate_run(window_seconds: u64, limit: u32, calls: Seq<(Seq<char>, u64)>, n: int)
    requires
        window_seconds > 0,
        0 <= n <= calls.len(),
        forall|i: int, j: int| 0 <= i < j < calls.len() ==> calls[i].1 <= calls[j].1,
    ensures
        ({
            let (m, oks) = rate_run(Map::empty(), window_seconds, limit, calls, n);
            &&& oks.len() == n
            &&& forall|a: Seq<char>| #[trigger] m.dom().contains(a) ==> {
                &&& m[a].1 == allowed_in(calls, oks, n, a, m[a].0, window_seconds)
                &&& exists|i: int| 0 <= i < n && calls[i].0 == a && window_start(calls[i].1, window_seconds) == m[a].0
                &&& forall|i: int| 0 <= i < n && calls[i].0 == a ==> window_start(calls[i].1, window_seconds) <= m[a].0
            }
            &&& forall|a: Seq<char>, i: int| 0 <= i < n && !m.dom().contains(a) ==> calls[i].0 != a
            &&& forall|j: int| 0 <= j < n ==> oks[j] == (allowed_in(calls, oks, j, calls[j].0, window_start(calls[j].1, window_seconds), window_seconds) < limit)
        }),
    decreases n,
{
    if n > 0 {
        lemma_rate_run(window_seconds, limit, calls, n - 1);
        let (m0, oks0) = rate_run(Map::empty(), window_seconds, limit, calls, n - 1);
        let (m, oks) = rate_run(Map::empty(), window_seconds, limit, calls, n);
        let actor = calls[n - 1].0;
        let t = calls[n - 1].1;
        let ws = window_start(t, window_seconds);
        let c = current_count(m0, actor, ws);
        let ok = c < limit;
        assert(oks == oks0.push(ok));
        assert(m == m0.insert(actor, (ws, if ok { (c + 1) as u32 } else { c })));
        // Every earlier request of `actor` is in `ws` or an earlier window.
        assert forall|i: int| 0 <= i < n - 1 && calls[i].0 == actor implies window_start(calls[i].1, window_seconds) <= ws by {
            lemma_window_ordered(calls[i].1, t, window_seconds);
        }
        // The count before this request is the number allowed in `ws`.
        lemma_allowed_in_prefix(calls, oks0, oks, n - 1, actor, ws, window_seconds);
        assert(c == allowed_in(calls, oks0, n - 1, actor, ws, window_seconds)) by {
            if m0.dom().contains(actor) {
                if m0[actor].0 != ws {
                    let i0 = choose|i: int| 0 <= i < n - 1 && calls[i].0 == actor && window_start(calls[i].1, window_seconds) == m0[actor].0;
                    lemma_window_ordered(calls[i0].1, t, window_seconds);
                    lemma_allowed_in_none(calls, oks0, n - 1, actor, ws, window_seconds);
                }
            } else {
                lemma_allowed_in_none(calls, oks0, n - 1, actor, ws, window_seconds);
            }
        }
        assert forall|a: Seq<char>| #[trigger] m.dom().contains(a) implies {
            &&& m[a].1 == allowed_in(calls, oks, n, a, m[a].0, window_seconds)
            &&& exists|i: int| 0 <= i < n && calls[i].0 == a && window_start(calls[i].1, window_seconds) == m[a].0
            &&& forall|i: int| 0 <= i < n && calls[i].0 == a ==> window_start(calls[i].1, window_seconds) <= m[a].0
        } by {
            if a == actor {
                assert(calls[n - 1].0 == a && window_start(calls[n - 1].1, window_seconds) == m[a].0);
            } else {
                assert(m0.dom().contains(a));
                lemma_allowed_in_prefix(calls, oks0, oks, n - 1, a, m0[a].0, window_seconds);
                let i0 = choose|i: int| 0 <= i < n - 1 && calls[i].0 == a && window_start(calls[i].1, window_seconds) == m0[a].0;
                assert(0 <= i0 < n && calls[i0].0 == a && window_start(calls[i0].1, window_seconds) == m[a].0);
            }
        }
        assert forall|j: int| 0 <= j < n implies oks[j] == (allowed_in(calls, oks, j, calls[j].0, window_start(calls[j].1, window_seconds), window_seconds) < limit) by {
            lemma_allowed_in_prefix(calls, oks0, oks, j, calls[j].0, window_start(calls[j].1, window_seconds), window_seconds);
            if j < n - 1 {
                assert(oks[j] == oks0[j]);
            }
        }
    }
}

proof fn lemma_rate_run_prefix(
    windows: Map<Seq<char>, (u64, u32)>,
    window_seconds: u64,
    limit: u32,
    calls: Seq<(Seq<char>, u64)>,
    more: Seq<(Seq<char>, u64)>,
    n: int,
)
    requires
        n <= calls.len(),
        n <= more.len(),
        forall|i: int| 0 <= i < n ==> calls[i] == more[i],
    ensures
        rate_run(windows, window_seconds, limit, calls, n) == rate_run(windows, window_seconds, limit, more, n),
    decreases n,
{
    if n > 0 {
        lemma_rate_run_prefix(windows, window_seconds, limit, calls, more, n - 1);
    }
}

/// One more request on a limiter whose windows are those of a run of
/// requests gives the windows of the run with that request appended, and
/// the request's outcome is the run's last: so a limiter fresh from `new`,
/// after `check_at` calls with the run's actors and times, holds the
/// windows of `rate_run` and gave its outcomes.
pub proof fn rate_run_push(
    window_seconds: u64,
    limit: u32,
    calls: Seq<(Seq<char>, u64)>,
    actor: Seq<char>,
    now: u64,
)
    ensures
        ({
            let before = rate_run(Map::empty(), window_seconds, limit, calls, calls.len() as int);
            let step = rate_step(before.0, window_seconds, limit, actor, now);
            let after = rate_run(Map::empty(), window_seconds, limit, calls.push((actor, now)), calls.len() + 1int);
            after.0 == step.0 && after.1 == before.1.push(step.1)
        }),
{
    let more = calls.push((actor, now));
    lemma_rate_run_prefix(Map::empty(), window_seconds, limit, calls, more, calls.len() as int);
    assert(more[calls.len() as int] == (actor, now));
}

/// The fixed-window rule over a run of requests whose times never go back,
/// from a fresh limiter: each request is allowed exactly when fewer than
/// `limit` earlier requests of its actor were allowed in its window, so no
/// actor is allowed more than `limit` requests in one window.
pub proof fn rate_limit_history(window_seconds: u64, limit: u32, calls: Seq<(Seq<char>, u64)>)
    requires
        window_seconds > 0,
        forall|i: int, j: int| 0 <= i < j < calls.len() ==> calls[i].1 <= calls[j].1,
    ensures
        rate_run(Map::empty(), window_seconds, limit, calls, calls.len() as int).1.len() == calls.len(),
        forall|j: int| #![trigger rate_run(Map::empty(), window_seconds, limit, calls, calls.len() as int).1[j]]
            0 <= j < calls.len() ==> rate_run(Map::empty(), window_seconds, limit, calls, calls.len() as int).1[j] == (
            allowed_in(
                calls,
                rate_run(Map::empty(), window_seconds, limit, calls, calls.len() as int).1,
                j,
                calls[j].0,
                window_start(calls[j].1, window_seconds),
                window_seconds,
            ) < limit),
{
    lemma_rate_run(window_seconds, limit, calls, calls.len() as int);
}

impl FixedWindowRateLimiter {
    pub fn new(window_seconds: u64, max_requests: u32) -> (l: Self)
        ensures
            l.window() == window_seconds,
            l.limit() == max_requests,
            l.windows() == Map::<Seq<char>, (u64, u32)>::empty(),
    {
        FixedWindowRateLimiter { window_seconds, max_requests, state: StrMap::new() }
    }

    /// For each actor seen, the start of its current window and the number
    /// of requests it made in that window.
    pub closed spec fn windows(&self) -> Map<Seq<char>, (u64, u32)> {
        self.state.view()
    }

    /// `window_seconds`.
    pub closed spec fn window(&self) -> u64 {
        self.window_seconds
    }

    /// `max_requests`.
    pub closed spec fn limit(&self) -> u32 {
        self.max_requests
    }

    /// Seconds since the Unix epoch, or 0 when the clock reads earlier.
    #[verifier::external_body]
    fn now() -> u64 {
        std::time::SystemTime::now().duration_since(std::time::UNIX_EPOCH).map(|d| d.as_secs()).unwrap_or(0)
    }

    /// The decision of `check` for a request by `actor` at time `now`.
    pub fn check_at(&mut self, actor: &str, now: u64) -> (r: Result<(), String>)
        requires
            old(self).window() > 0,
        ensures
            final(self).window() == old(self).window(),
            final(self).limit() == old(self).limit(),
            final(self).windows() == rate_step(old(self).windows(), old(self).window(), old(self).limit(), actor@, now).0,
            rate_step(old(self).windows(), old(self).window(), old(self).limit(), actor@, now).1 ==> r is Ok,
            !rate_step(old(self).windows(), old(self).window(), old(self).limit(), actor@, now).1
                ==> (r matches Err(m) && m@ == rate_limit_message()),
    {
        let w = self.window_seconds;
        assert(now % w <= now) by (nonlinear_arith)
            requires
                w > 0,
        ;
        let ws = now - (now % w);
        let key = actor.to_owned();
        let (start, count) = match self.state.get(&key) {
            Some(e) => *e,
            None => (ws, 0),
        };
        let count = if start != ws { 0 } else { count };
        if count >= self.max_requests {
            self.state.insert(key, (ws, count));
            proof {
                reveal_strlit("rate limit exceeded");
            }
            return Err("rate limit exceeded".to_owned());
        }
        self.state.insert(key, (ws, count + 1));
        Ok(())
    }
}

impl RateLimiter for FixedWindowRateLimiter {
    /// A limiter with a window of at least one second.
    open spec fn ready(&self) -> bool {
        self.window() > 0
    }

    /// `check_at` at the current time, whatever the clock reads.
    fn check(&mut self, actor: &str) -> (r: Result<(), String>)
        ensures
            exists|now: u64|
                #![trigger rate_step(old(self).windows(), old(self).window(), old(self).limit(), actor@, now)]
                final(self).windows() == rate_step(old(self).windows(), old(self).window(), old(self).limit(), actor@, now).0
                    && (rate_step(old(self).windows(), old(self).window(), old(self).limit(), actor@, now).1 <==> r is Ok),
            final(self).window() == old(self).window(),
            final(self).limit() == old(self).limit(),
    {
        let now = Self::now();
        self.check_at(actor, now)
    }
}

// ---------------------------------------------------------------------------
// RBAC
// ---------------------------------------------------------------------------

/// Roles recognized by the default RBAC implementation.
#[derive(Debug, Clone, Copy, PartialEq, Eq, Hash, Structural)]
pub enum Role {
    Viewer,
    Editor,
    Admin,
}

/// Role-based access control.
pub trait Rbac: Send + Sync {
    fn assign(&mut self, user: &str, role: Role);

    fn has_role(&self, user: &str, role: Role) -> bool;
}

/// In-memory role assignments.
pub struct InMemoryRbac {
    roles: StrMap<Vec<Role>>,
}

impl InMemoryRbac {
    pub fn new() -> (r: Self)
        ensures
            r.assignments() == Map::<Seq<char>, Seq<Role>>::empty(),
    {
        let r = InMemoryRbac { roles: StrMap::new() };
        assert(r.assignments() =~= Map::<Seq<char>, Seq<Role>>::empty());
        r
    }

    /// For each user, the roles assigned to it, in order of assignment.
    pub closed spec fn assignments(&self) -> Map<Seq<char>, Seq<Role>> {
        Map::new(|u: Seq<char>| self.roles.view().dom().contains(u), |u: Seq<char>| self.roles.view()[u]@)
    }
}

impl Default for InMemoryRbac {
    fn default() -> (r: Self)
        ensures
            r.assignments() == Map::<Seq<char>, Seq<Role>>::empty(),
    {
        Self::new()
    }
}

fn copy_roles(v: &Vec<Role>) -> (r: Vec<Role>)
    ensures
        r@ == v@,
{
    let mut r: Vec<Role> = Vec::new();
    let mut i: usize = 0;
    while i < v.len()
        invariant
            i <= v@.len(),
            r@ == v@.take(i as int),
        decreases v@.len() - i,
    {
        r.push(v[i]);
        i += 1;
        assert(r@ =~= v@.take(i as int));
    }
    assert(v@.take(i as int) =~= v@);
    r
}

/// The roles of `user` in `assignments`; none when it has no entry.
pub open spec fn roles_of(assignments: Map<Seq<char>, Seq<Role>>, user: Seq<char>) -> Seq<Role> {
    if assignments.dom().contains(user) {
        assignments[user]
    } else {
        Seq::empty()
    }
}

/// The assignments with `role` added to the roles of `user`.
pub open spec fn assigned(assignments: Map<Seq<char>, Seq<Role>>, user: Seq<char>, role: Role) -> Map<Seq<char>, Seq<Role>> {
    assignments.insert(user, roles_of(assignments, user).push(role))
}

/// A user holds a role once it is assigned, keeps the roles it held, and
/// no other user's roles change.
pub proof fn rbac_assign_then_has_role(assignments: Map<Seq<char>, Seq<Role>>, user: Seq<char>, role: Role, other: Seq<char>, held: Role)
    ensures
        roles_of(assigned(assignments, user, role), user).contains(role),
        roles_of(assignments, user).contains(held) ==> roles_of(assigned(assignments, user, role), user).contains(held),
        other != user ==> roles_of(assigned(assignments, user, role), other) == roles_of(assignments, other),
{
    let r = roles_of(assignments, user).push(role);
    assert(r[r.len() - 1] == role);
    if roles_of(assignments, user).contains(held) {
        let i = choose|i: int| 0 <= i < roles_of(assignments, user).len() && roles_of(assignments, user)[i] == held;
        assert(r[i] == held);
    }
}

/// The assignments after `steps[..n]`, each a user and the role assigned
/// to it, made in order from `assignments`.
pub open spec fn assign_all(assignments: Map<Seq<char>, Seq<Role>>, steps: Seq<(Seq<char>, Role)>, n: int) -> Map<Seq<char>, Seq<Role>>
    decreases n,
{
    if n <= 0 {
        assignments
    } else {
        assigned(assign_all(assignments, steps, n - 1), steps[n - 1].0, steps[n - 1].1)
    }
}

proof fn lemma_assign_all(steps: Seq<(Seq<char>, Role)>, n: int, user: Seq<char>, role: Role)
    requires
        0 <= n <= steps.len(),
    ensures
        roles_of(assign_all(Map::empty(), steps, n), user).contains(role) <==> exists|i: int|
            0 <= i < n && #[trigger] steps[i] == (user, role),
    decreases n,
{
    if n > 0 {
        lemma_assign_all(steps, n - 1, user, role);
        let prev = assign_all(Map::empty(), steps, n - 1);
        let (u, r) = steps[n - 1];
        if u == user {
            let old_roles = roles_of(prev, user);
            let new_roles = old_roles.push(r);
            assert(roles_of(assign_all(Map::empty(), steps, n), user) == new_roles);
            if new_roles.contains(role) {
                let k = choose|k: int| 0 <= k < new_roles.len() && new_roles[k] == role;
                if k < old_roles.len() {
                    assert(old_roles[k] == role);
                    let i = choose|i: int| 0 <= i < n - 1 && #[trigger] steps[i] == (user, role);
                    assert(0 <= i < n && steps[i] == (user, role));
                } else {
                    assert(steps[n - 1] == (user, role));
                }
            }
            if exists|i: int| 0 <= i < n && #[trigger] steps[i] == (user, role) {
                let i = choose|i: int| 0 <= i < n && #[trigger] steps[i] == (user, role);
                if i == n - 1 {
                    assert(new_roles[new_roles.len() - 1] == role);
                } else {
                    assert(old_roles.contains(role));
                    let k = choose|k: int| 0 <= k < old_roles.len() && old_roles[k] == role;
                    assert(new_roles[k] == role);
                }
            }
        } else {
            assert(roles_of(assign_all(Map::empty(), steps, n), user) == roles_of(prev, user));
            if exists|i: int| 0 <= i < n && #[trigger] steps[i] == (user, role) {
                let i = choose|i: int| 0 <= i < n && #[trigger] steps[i] == (user, role);
                assert(i != n - 1);
            }
        }
    }
}

/// From no assignments, a user holds a role after any run of assignments
/// exactly when one of them gave that role to that user.
pub proof fn rbac_history(steps: Seq<(Seq<char>, Role)>, user: Seq<char>, role: Role)
    ensures
        roles_of(assign_all(Map::empty(), steps, steps.len() as int), user).contains(role) <==> exists|i: int|
            0 <= i < steps.len() && #[trigger] steps[i] == (user, role),
{
    lemma_assign_all(steps, steps.len() as int, user, role);
}

impl Rbac for InMemoryRbac {
    fn assign(&mut self, user: &str, role: Role)
        ensures
            final(self).assignments() == assigned(old(self).assignments(), user@, role),
    {
        let key = user.to_owned();
        let mut held = match self.roles.get(&key) {
            Some(v) => copy_roles(v),
            None => Vec::new(),
        };
        held.push(role);
        self.roles.insert(key, held);
        assert(self.assignments() =~= old(self).assignments().insert(
            user@,
            roles_of(old(self).assignments(), user@).push(role),
        ));
    }

    fn has_role(&self, user: &str, role: Role) -> (r: bool)
        ensures
            r == roles_of(self.assignments(), user@).contains(role),
    {
        let key = user.to_owned();
        match self.roles.get(&key) {
            Some(v) => {
                assert(self.assignments().dom().contains(user@));
                assert(self.assignments()[user@] == v@);
                assert(roles_of(self.assignments(), user@) == v@);
                let mut i: usize = 0;
                while i < v.len()
                    invariant
                        roles_of(self.assignments(), user@) == v@,
                        i <= v@.len(),
                        forall|j: int| 0 <= j < i ==> v@[j] != role,
                    decreases v@.len() - i,
                {
                    if v[i] == role {
                        assert(v@[i as int] == role);
                        assert(roles_of(self.assignments(), user@) == v@);
                        assert(v@.contains(role));
                        return true;
                    }
                    i += 1;
                }
                assert(roles_of(self.assignments(), user@) == v@);
                false
            },
            None => false,
        }
    }
}

/// Enterprise SSO integration points (SAML / OAuth2), for deployments to
/// implement against their identity provider.
pub trait SsoProvider: Send + Sync {
    /// Begin the SSO handshake, returning a URL to redirect the user to.
    fn begin(&self, relay_state: &str) -> Result<String, String>;

    /// Complete the SSO handshake given the provider's callback payload.
    fn complete(&self, payload: &str) -> Result<String, String>;
}

} // verus!
