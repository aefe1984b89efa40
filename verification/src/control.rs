//! Limits of the control plane: how long a silent link lives, and how many unauthenticated
//! sockets may be open at once, in all and per source address.
use vstd::prelude::*;
use crate::framing::from_be32;
use crate::RPC_PORT;
use crate::pairing::{PairingBook, BookV, redeem_spec};

verus! {

/// A link silent for this long is dropped.
pub const SILENCE_LIMIT_MS: u64 = 45_000;
/// Seconds between heartbeats.
pub const HEARTBEAT_SECS: u64 = 10;
/// Connections open at once.
pub const MAX_CONNECTIONS: usize = 64;
/// Unauthenticated sockets open at once, so they can never crowd out a paired phone.
pub const MAX_PREAUTH: usize = 16;
/// Unauthenticated sockets open at once from one source address, so one peer cycling silent
/// sockets cannot fill the pool.
pub const MAX_PREAUTH_PER_IP: usize = 4;
/// Largest frame accepted before `Hello`.
pub const PREAUTH_MAX_FRAME: usize = 4096;
/// `Hello` must arrive within this many seconds.
pub const HELLO_DEADLINE_SECS: u64 = 5;

/// A source address: the family and the address bits.
#[derive(Debug, Clone, Copy, PartialEq, Eq, Structural)]
pub struct IpKey {
    pub v6: bool,
    pub bits: u128,
}

/// Slots held by unauthenticated sockets, in all and per address.
pub struct PreauthPool {
    total: usize,
    per_ip: Vec<(IpKey, usize)>,
}

/// The slots each address holds (addresses holding none are absent).
pub open spec fn slots_map(v: Seq<(IpKey, usize)>) -> Map<IpKey, nat>
    decreases v.len(),
{
    if v.len() == 0 { Map::empty() } else { slots_map(v.drop_last()).insert(v.last().0, v.last().1 as nat) }
}

/// Sum of the slots.
pub open spec fn slots_sum(v: Seq<(IpKey, usize)>) -> nat
    decreases v.len(),
{
    if v.len() == 0 { 0 } else { slots_sum(v.drop_last()) + v.last().1 as nat }
}

/// The mathematical form of a [`PreauthPool`]: slots held per address.
pub struct PoolV {
    pub total: nat,
    pub per_ip: Map<IpKey, nat>,
}

impl View for PreauthPool {
    type V = PoolV;

    closed spec fn view(&self) -> PoolV {
        PoolV { total: self.total as nat, per_ip: slots_map(self.per_ip@) }
    }
}

/// The slots `ip` holds.
pub open spec fn held(p: PoolV, ip: IpKey) -> nat {
    if p.per_ip.contains_key(ip) { p.per_ip[ip] } else { 0 }
}

/// What [`PreauthPool::acquire`] does: take a slot unless the pool or the address is full.
pub open spec fn acquire_spec(p: PoolV, ip: IpKey) -> (PoolV, bool) {
    if p.total >= MAX_PREAUTH || held(p, ip) >= MAX_PREAUTH_PER_IP {
        (p, false)
    } else {
        (PoolV { total: p.total + 1, per_ip: p.per_ip.insert(ip, held(p, ip) + 1) }, true)
    }
}

/// What [`PreauthPool::release`] does: give one of the address's slots back.
pub open spec fn release_spec(p: PoolV, ip: IpKey) -> PoolV {
    if held(p, ip) == 1 {
        PoolV { total: (p.total - 1) as nat, per_ip: p.per_ip.remove(ip) }
    } else {
        PoolV { total: (p.total - 1) as nat, per_ip: p.per_ip.insert(ip, (held(p, ip) - 1) as nat) }
    }
}

impl PreauthPool {
    /// Every address holds between one and the per-address limit, once; the total is their sum
    /// and at most the pool's limit.
    #[verifier::type_invariant]
    spec fn inv(self) -> bool {
        &&& forall|a: int, b: int| 0 <= a < b < self.per_ip@.len() ==> self.per_ip@[a].0 != self.per_ip@[b].0
        &&& forall|a: int| 0 <= a < self.per_ip@.len() ==> 1 <= (#[trigger] self.per_ip@[a]).1 <= MAX_PREAUTH_PER_IP
        &&& self.total == slots_sum(self.per_ip@)
        &&& self.total <= MAX_PREAUTH
    }

    /// An empty pool.
    pub fn new() -> (p: PreauthPool)
        ensures
            p@.total == 0,
            p@.per_ip == Map::<IpKey, nat>::empty(),
            pool_ok(p@),
    {
        PreauthPool { total: 0, per_ip: Vec::new() }
    }

    /// The slots held in all.
    pub fn total(&self) -> (n: usize)
        ensures
            n == self@.total,
    {
        self.total
    }

    /// Takes a slot for `ip`; false, and nothing changes, if the pool or that address is full.
    pub fn acquire(&mut self, ip: IpKey) -> (ok: bool)
        ensures
            (final(self)@, ok) == acquire_spec(old(self)@, ip),
            pool_ok(final(self)@),
            final(self)@.total <= MAX_PREAUTH,
    {
        proof {
            use_type_invariant(&*self);
        }
        let i = find_ip(&self.per_ip, ip);
        proof {
            lemma_slots(self.per_ip@, ip, i as int);
        }
        let cur: usize = if i < self.per_ip.len() { self.per_ip[i].1 } else { 0 };
        if self.total >= MAX_PREAUTH || cur >= MAX_PREAUTH_PER_IP {
            proof {
                lemma_pool_ok(self.per_ip@);
            }
            return false;
        }
        let ghost old_v = self.per_ip@;
        let mut taken = PreauthPool::new();
        std::mem::swap(&mut taken, self);
        let PreauthPool { total, per_ip: mut v } = taken;
        if i < v.len() {
            proof {
                lemma_slots_update(old_v, i as int, (ip, (cur + 1) as usize));
            }
            v.set(i, (ip, cur + 1));
        } else {
            proof {
                lemma_slots_push(old_v, (ip, 1));
            }
            v.push((ip, 1));
        }
        proof {
            lemma_pool_ok(v@);
        }
        *self = PreauthPool { total: total + 1, per_ip: v };
        true
    }

    /// Gives back one of the slots `ip` holds.
    pub fn release(&mut self, ip: IpKey)
        requires
            held(old(self)@, ip) > 0,
        ensures
            final(self)@ == release_spec(old(self)@, ip),
            pool_ok(final(self)@),
    {
        proof {
            use_type_invariant(&*self);
        }
        let i = find_ip(&self.per_ip, ip);
        proof {
            lemma_slots(self.per_ip@, ip, i as int);
        }
        let cur = self.per_ip[i].1;
        let ghost old_v = self.per_ip@;
        let mut taken = PreauthPool::new();
        std::mem::swap(&mut taken, self);
        let PreauthPool { total, per_ip: mut v } = taken;
        if cur == 1 {
            proof {
                lemma_slots_remove(old_v, i as int);
            }
            v.remove(i);
        } else {
            proof {
                lemma_slots_update(old_v, i as int, (ip, (cur - 1) as usize));
            }
            v.set(i, (ip, cur - 1));
        }
        proof {
            lemma_pool_ok(v@);
        }
        *self = PreauthPool { total: total - 1, per_ip: v };
    }
}

/// A list whose counts are all positive stands for a map whose values are all positive.
proof fn lemma_pool_ok(v: Seq<(IpKey, usize)>)
    requires
        forall|a: int| 0 <= a < v.len() ==> 1 <= (#[trigger] v[a]).1,
    ensures
        forall|k: IpKey| #[trigger] slots_map(v).contains_key(k) ==> slots_map(v)[k] >= 1,
    decreases v.len(),
{
    if v.len() > 0 {
        lemma_pool_ok(v.drop_last());
        assert forall|k: IpKey| #[trigger] slots_map(v).contains_key(k) implies slots_map(v)[k] >= 1 by {
            if k != v.last().0 {
                assert(slots_map(v.drop_last()).contains_key(k));
            }
        }
    }
}

/// Position of `ip` in the list, or its length when absent.
fn find_ip(v: &Vec<(IpKey, usize)>, ip: IpKey) -> (i: usize)
    ensures
        i <= v@.len(),
        i < v@.len() ==> v@[i as int].0 == ip,
        i == v@.len() ==> forall|j: int| 0 <= j < v@.len() ==> (#[trigger] v@[j]).0 != ip,
{
    let mut i: usize = 0;
    while i < v.len()
        invariant
            i <= v@.len(),
            forall|j: int| 0 <= j < i ==> (#[trigger] v@[j]).0 != ip,
        decreases v@.len() - i,
    {
        if v[i].0 == ip {
            return i;
        }
        i = i + 1;
    }
    i
}

/// What the list says of `ip`, found at `i` or absent.
proof fn lemma_slots(v: Seq<(IpKey, usize)>, ip: IpKey, i: int)
    requires
        forall|a: int, b: int| 0 <= a < b < v.len() ==> v[a].0 != v[b].0,
        0 <= i <= v.len(),
        i < v.len() ==> v[i].0 == ip,
        i == v.len() ==> forall|j: int| 0 <= j < v.len() ==> (#[trigger] v[j]).0 != ip,
    ensures
        i < v.len() ==> slots_map(v).contains_key(ip) && slots_map(v)[ip] == v[i].1,
        i == v.len() ==> !slots_map(v).contains_key(ip),
    decreases v.len(),
{
    if v.len() > 0 {
        if i == v.len() {
            lemma_slots(v.drop_last(), ip, i - 1);
        } else if i < v.len() - 1 {
            lemma_slots(v.drop_last(), ip, i);
        }
    }
}

proof fn lemma_slots_update(v: Seq<(IpKey, usize)>, i: int, e: (IpKey, usize))
    requires
        forall|a: int, b: int| 0 <= a < b < v.len() ==> v[a].0 != v[b].0,
        0 <= i < v.len(),
        v[i].0 == e.0,
    ensures
        forall|a: int, b: int| 0 <= a < b < v.len() ==> v.update(i, e)[a].0 != v.update(i, e)[b].0,
        slots_map(v.update(i, e)) == slots_map(v).insert(e.0, e.1 as nat),
        slots_sum(v.update(i, e)) == slots_sum(v) - v[i].1 + e.1,
    decreases v.len(),
{
    let w = v.update(i, e);
    if i < v.len() - 1 {
        lemma_slots_update(v.drop_last(), i, e);
        assert(w.drop_last() =~= v.drop_last().update(i, e));
        assert(v[i].0 != v[v.len() - 1].0);
        assert(slots_map(w) =~= slots_map(v).insert(e.0, e.1 as nat));
    } else {
        assert(w.drop_last() =~= v.drop_last());
        assert(slots_map(w) =~= slots_map(v).insert(e.0, e.1 as nat));
    }
}

proof fn lemma_slots_push(v: Seq<(IpKey, usize)>, e: (IpKey, usize))
    requires
        forall|a: int, b: int| 0 <= a < b < v.len() ==> v[a].0 != v[b].0,
        forall|j: int| 0 <= j < v.len() ==> (#[trigger] v[j]).0 != e.0,
    ensures
        forall|a: int, b: int| 0 <= a < b < v.push(e).len() ==> v.push(e)[a].0 != v.push(e)[b].0,
        slots_map(v.push(e)) == slots_map(v).insert(e.0, e.1 as nat),
        slots_sum(v.push(e)) == slots_sum(v) + e.1,
{
    assert(v.push(e).drop_last() =~= v);
}

proof fn lemma_slots_remove(v: Seq<(IpKey, usize)>, i: int)
    requires
        forall|a: int, b: int| 0 <= a < b < v.len() ==> v[a].0 != v[b].0,
        0 <= i < v.len(),
    ensures
        forall|a: int, b: int| 0 <= a < b < v.remove(i).len() ==> v.remove(i)[a].0 != v.remove(i)[b].0,
        slots_map(v.remove(i)) == slots_map(v).remove(v[i].0),
        slots_sum(v.remove(i)) == slots_sum(v) - v[i].1,
    decreases v.len(),
{
    let w = v.remove(i);
    assert forall|a: int, b: int| 0 <= a < b < w.len() implies w[a].0 != w[b].0 by {
        let a2 = if a < i { a } else { a + 1 };
        let b2 = if b < i { b } else { b + 1 };
        assert(v[a2].0 != v[b2].0);
    }
    if i < v.len() - 1 {
        lemma_slots_remove(v.drop_last(), i);
        assert(w.drop_last() =~= v.drop_last().remove(i));
        assert(w.last() == v.last());
        assert(v[i].0 != v[v.len() - 1].0);
        assert(slots_map(w) =~= slots_map(v).remove(v[i].0));
    } else {
        assert(w =~= v.drop_last());
        assert forall|j: int| 0 <= j < w.len() implies (#[trigger] w[j]).0 != v[i].0 by {
            assert(v[j].0 != v[i].0);
        }
        lemma_slots(w, v[i].0, w.len() as int);
        assert(slots_map(w) =~= slots_map(v).remove(v[i].0));
    }
}

/// Every address the pool lists holds at least one slot.
pub open spec fn pool_ok(p: PoolV) -> bool {
    forall|k: IpKey| #[trigger] p.per_ip.contains_key(k) ==> p.per_ip[k] >= 1
}

/// A slot that was taken and given back leaves the pool as it was.
pub proof fn law_acquire_release(p: PoolV, ip: IpKey)
    requires
        pool_ok(p),
        acquire_spec(p, ip).1,
    ensures
        release_spec(acquire_spec(p, ip).0, ip) == p,
{
    let q = acquire_spec(p, ip).0;
    if p.per_ip.contains_key(ip) {
        assert(q.per_ip.insert(ip, (held(q, ip) - 1) as nat) =~= p.per_ip);
    } else {
        assert(q.per_ip.remove(ip) =~= p.per_ip);
    }
}

/// The pool never holds more than its limit, nor any address more than the per-address limit.
pub proof fn law_limits(p: PoolV, ip: IpKey)
    requires
        p.total <= MAX_PREAUTH,
        held(p, ip) <= MAX_PREAUTH_PER_IP,
    ensures
        acquire_spec(p, ip).0.total <= MAX_PREAUTH,
        held(acquire_spec(p, ip).0, ip) <= MAX_PREAUTH_PER_IP,
{
}

// ------------------------------------------------------------------------------------------------
// Decisions of one control connection.

/// The length a frame announces before `Hello`, when it exceeds what an unauthenticated peer may
/// send: such a frame is refused before it is buffered.
pub open spec fn preauth_refused_spec(authenticated: bool, buf: Seq<u8>) -> Option<nat> {
    if !authenticated && buf.len() >= 4 && from_be32(buf) > PREAUTH_MAX_FRAME { Some(from_be32(buf)) } else { None }
}

/// The announced length of an oversized frame before `Hello` (see [`preauth_refused_spec`]).
pub fn preauth_refused(authenticated: bool, buf: &[u8]) -> (r: Option<usize>)
    ensures
        match r {
            Some(n) => preauth_refused_spec(authenticated, buf@) == Some(n as nat),
            None => preauth_refused_spec(authenticated, buf@) is None,
        },
{
    if authenticated || buf.len() < 4 {
        return None;
    }
    let len: u64 = buf[0] as u64 * 16777216 + buf[1] as u64 * 65536 + buf[2] as u64 * 256 + buf[3] as u64;
    if len > PREAUTH_MAX_FRAME as u64 {
        Some(len as usize)
    } else {
        None
    }
}

/// Whether a link silent since `last_read_ms` is dropped at `now_ms`: after more than `limit_ms`.
pub open spec fn too_silent_spec(now_ms: u64, last_read_ms: u64, limit_ms: u64) -> bool {
    now_ms > last_read_ms && now_ms - last_read_ms > limit_ms
}

/// Whether a silent link is dropped (see [`too_silent_spec`]).
pub fn too_silent(now_ms: u64, last_read_ms: u64, limit_ms: u64) -> (r: bool)
    ensures
        r == too_silent_spec(now_ms, last_read_ms, limit_ms),
{
    now_ms.saturating_sub(last_read_ms) > limit_ms
}

/// What a connection does when a device's ownership changes.
#[derive(Debug, Clone, Copy, PartialEq, Eq, Structural)]
pub enum Handover {
    /// Not about this connection's device, or about this very connection: carry on.
    Stay,
    /// The device was forgotten: say goodbye and close.
    Forgotten,
    /// A newer connection of the same device took over: close.
    Superseded(u64),
}

/// What connection `my_conn` of device `me` does when connection `conn` takes device `target`
/// (`conn` 0: the device was forgotten).
pub open spec fn handover_spec(me: Option<Seq<char>>, my_conn: u64, target: Seq<char>, conn: u64) -> Handover {
    if me == Some(target) && conn != my_conn {
        if conn == 0 { Handover::Forgotten } else { Handover::Superseded(conn) }
    } else {
        Handover::Stay
    }
}

/// What a connection does when a device's ownership changes (see [`handover_spec`]).
pub fn handover(me: Option<&str>, my_conn: u64, target: &str, conn: u64) -> (r: Handover)
    ensures
        r == handover_spec(match me { Some(m) => Some(m@), None => None }, my_conn, target@, conn),
{
    let mine = match me {
        Some(m) => crate::gguf::chars_eq(crate::text::chars_of(m).as_slice(), crate::text::chars_of(target).as_slice()),
        None => false,
    };
    if mine && conn != my_conn {
        if conn == 0 { Handover::Forgotten } else { Handover::Superseded(conn) }
    } else {
        Handover::Stay
    }
}

/// Why a `Hello` is refused: without a token the device is not paired (or proved the wrong
/// secret); with one, the token is not a live one-time token.
pub open spec fn hello_refusal_spec(had_token: bool) -> Seq<char> {
    if had_token {
        "pairing token invalid, expired, or the device id is already paired (forget it in the admin first)"@
    } else {
        "not paired (or wrong device secret): scan a new QR"@
    }
}

/// Why a `Hello` is refused (see [`hello_refusal_spec`]).
pub fn hello_refusal(had_token: bool) -> (r: &'static str)
    ensures
        r@ == hello_refusal_spec(had_token),
{
    if had_token {
        "pairing token invalid, expired, or the device id is already paired (forget it in the admin first)"
    } else {
        "not paired (or wrong device secret): scan a new QR"
    }
}

/// The RPC port a device reports in its `Hello` (0: the default), as a port number.
pub fn rpc_port_of(reported: u32) -> (r: u16)
    ensures
        r == (if reported == 0 { RPC_PORT } else { reported as u16 }),
{
    if reported == 0 { RPC_PORT } else { reported as u16 }
}

/// Whether a device's link going down ends the run: it took part in the run, no newer
/// connection has taken it over, and the run is still the one it was given.
pub open spec fn ends_run_spec(was_active: bool, still_owned: bool, current: Option<Seq<char>>, given: Option<Seq<char>>) -> bool {
    was_active && still_owned && current is Some && current == given
}

/// Whether a device's link going down ends the run (see [`ends_run_spec`]).
pub fn ends_run(was_active: bool, still_owned: bool, current: Option<&str>, given: Option<&str>) -> (r: bool)
    ensures
        r == ends_run_spec(was_active, still_owned, match current { Some(c) => Some(c@), None => None },
            match given { Some(g) => Some(g@), None => None }),
{
    if !was_active || !still_owned {
        return false;
    }
    match (current, given) {
        (Some(c), Some(g)) => crate::gguf::chars_eq(crate::text::chars_of(c).as_slice(), crate::text::chars_of(g).as_slice()),
        _ => false,
    }
}

/// Silence is measured from the last read: a link that has just been read is never dropped, and
/// one dropped at some moment stays dropped later.
pub proof fn law_silence(now: u64, later: u64, last: u64, limit: u64)
    requires
        now <= later,
    ensures
        !too_silent_spec(last, last, limit),
        too_silent_spec(now, last, limit) ==> too_silent_spec(later, last, limit),
{
}

/// What a device says in its `Hello`.
#[derive(Debug, Clone)]
pub struct HelloFacts {
    pub device_id: String,
    pub display_name: String,
    /// The one-time token from the QR (empty when the device says it is already paired).
    pub one_time_token: Vec<u8>,
    /// The port its RPC worker listens on (0: the default).
    pub rpc_port: u32,
}

/// What the coordinator does with a `Hello`.
#[derive(Debug, Clone, PartialEq, Eq)]
pub enum HelloOutcome {
    /// Say goodbye with this reason and close.
    Refused(String),
    /// Take the device in: `paired_now` when its token paired it just now; its worker's port.
    Accepted { paired_now: bool, rpc_port: u16 },
}

/// The book after a `Hello` at `now`, and whether the device is taken in (`Some(paired_now)`)
/// or refused (`None`): a token must be a live one-time token, which pairs the device; without
/// one the device must already be paired.
pub open spec fn hello_spec(b: BookV, id: Seq<char>, name: Seq<char>, token: Seq<u8>, now: u64) -> (BookV, Option<bool>) {
    if token.len() > 0 {
        let (b2, ok) = redeem_spec(b, token, id, name, now);
        (b2, if ok { Some(true) } else { None })
    } else {
        (b, if b.paired.contains_key(id) { Some(false) } else { None })
    }
}

/// Whether the outcome of a `Hello` is the one [`hello_spec`] gives (`taken`).
pub open spec fn outcome_is(r: HelloOutcome, taken: Option<bool>, h: HelloFacts) -> bool {
    match taken {
        Some(p) => r == HelloOutcome::Accepted { paired_now: p, rpc_port: if h.rpc_port == 0 { RPC_PORT } else { h.rpc_port as u16 } },
        None => r matches HelloOutcome::Refused(t) && t@ == hello_refusal_spec(h.one_time_token@.len() > 0),
    }
}

/// A device that a token has just taken in is paired: its next `Hello`, without a token, is
/// taken in too, whatever the clock says; a device that is not paired and brings no token is
/// refused and changes nothing.
pub proof fn law_paired_by_hello(b: BookV, id: Seq<char>, name: Seq<char>, token: Seq<u8>, now: u64,
    name2: Seq<char>, now2: u64)
    ensures
        hello_spec(b, id, name, token, now).1 == Some(true) ==>
            hello_spec(hello_spec(b, id, name, token, now).0, id, name2, Seq::empty(), now2) == (hello_spec(b, id, name, token, now).0, Some(false)),
        !b.paired.contains_key(id) ==> hello_spec(b, id, name, Seq::empty(), now) == (b, None::<bool>),
{
}

/// Whether `b2` and `r` are what a `Hello` does to the book `b` at `now` (see [`hello_spec`]).
pub open spec fn hello_holds(b: BookV, b2: BookV, r: HelloOutcome, h: HelloFacts, now: u64) -> bool {
    let (b3, taken) = hello_spec(b, h.device_id@, h.display_name@, h.one_time_token@, now);
    b2 == b3 && outcome_is(r, taken, h)
}

/// Handles a `Hello` at `now` (see [`hello_spec`]); a refusal carries [`hello_refusal`]'s reason.
pub fn on_hello_at(book: &mut PairingBook, h: &HelloFacts, now: u64) -> (r: HelloOutcome)
    ensures
        hello_holds(old(book)@, final(book)@, r, *h, now),
{
    let had_token = h.one_time_token.len() > 0;
    let ok = if had_token {
        book.redeem_at(h.one_time_token.as_slice(), h.device_id.as_str(), h.display_name.as_str(), now)
    } else {
        book.is_paired(h.device_id.as_str())
    };
    if ok {
        HelloOutcome::Accepted { paired_now: had_token, rpc_port: rpc_port_of(h.rpc_port) }
    } else {
        HelloOutcome::Refused(crate::text::owned(hello_refusal(had_token)))
    }
}

/// Handles a `Hello` now, by the book's clock: what [`on_hello_at`] does at some moment.
pub fn on_hello(book: &mut PairingBook, h: &HelloFacts) -> (r: HelloOutcome)
    ensures
        exists|now: u64| #[trigger] hello_holds(old(book)@, final(book)@, r, *h, now),
{
    let had_token = h.one_time_token.len() > 0;
    let ok = if had_token {
        book.redeem(h.one_time_token.as_slice(), h.device_id.as_str(), h.display_name.as_str())
    } else {
        book.is_paired(h.device_id.as_str())
    };
    let r = if ok {
        HelloOutcome::Accepted { paired_now: had_token, rpc_port: rpc_port_of(h.rpc_port) }
    } else {
        HelloOutcome::Refused(crate::text::owned(hello_refusal(had_token)))
    };
    proof {
        if had_token {
            let now = choose|now: u64| (final(book)@, ok) == redeem_spec(old(book)@, h.one_time_token@, h.device_id@, h.display_name@, now);
            assert(hello_holds(old(book)@, final(book)@, r, *h, now));
        } else {
            assert(hello_holds(old(book)@, final(book)@, r, *h, 0));
        }
    }
    r
}

} // verus!
