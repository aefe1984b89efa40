//! Pairing: the coordinator mints a one-time token and shows it in a QR together with its address;
//! the device presents the token in its first `Hello`. Tokens are single-use and expire.
//!
//! Only a SHA-256 digest of each pending token is kept, with the time it was issued.
use vstd::prelude::*;
use sha2::Digest;
use rand::RngCore;

verus! {

/// How long an offered token stays redeemable: ten minutes.
pub const TOKEN_TTL_MS: u64 = 600_000;

/// What the QR shows.
#[derive(Debug, Clone)]
pub struct PairingOffer {
    pub mesh_id: String,
    pub host: String,
    pub control_port: u16,
    /// Hex, 16 bytes.
    pub token: String,
}

// ------------------------------------------------------------------------------------------------
// The outside functions pairing relies on.

/// The SHA-256 digest of `data`.
pub uninterp spec fn sha256(data: Seq<u8>) -> Seq<u8>;

/// `Sha256::digest` (sha2): the 32-byte digest of `data`, as named by [`sha256`].
#[verifier::external_body]
pub(crate) fn digest(data: &[u8]) -> (r: Vec<u8>)
    ensures
        r@ == sha256(data@),
        r@.len() == 32,
{
    sha2::Sha256::digest(data).to_vec()
}

/// A hex digit, lower case.
pub open spec fn hex_digit(n: nat) -> char {
    if n < 10 { (48 + n) as char } else { (87 + n) as char }
}

/// Lower-case hex text of `b`, two digits per byte, high nibble first.
pub open spec fn hex_text(b: Seq<u8>) -> Seq<char>
    decreases b.len(),
{
    if b.len() == 0 {
        Seq::empty()
    } else {
        hex_text(b.drop_last()) + seq![hex_digit(b.last() as nat / 16), hex_digit(b.last() as nat % 16)]
    }
}

/// `hex::encode` (hex): lower-case hex text of `data`.
#[verifier::external_body]
pub(crate) fn hex_encode(data: &[u8]) -> (r: String)
    ensures
        r@ == hex_text(data@),
{
    hex::encode(data)
}

/// The value of a hex digit (either case).
pub open spec fn hex_val(c: u8) -> Option<nat> {
    if 48 <= c <= 57 {
        Some((c - 48) as nat)
    } else if 97 <= c <= 102 {
        Some((c - 87) as nat)
    } else if 65 <= c <= 70 {
        Some((c - 55) as nat)
    } else {
        None
    }
}

/// The bytes hex text stands for: `None` for an odd length or a character that is not a hex digit.
pub open spec fn unhex(s: Seq<u8>) -> Option<Seq<u8>>
    decreases s.len(),
{
    if s.len() % 2 != 0 {
        None
    } else if s.len() == 0 {
        Some(Seq::empty())
    } else {
        match (unhex(s.subrange(0, s.len() - 2)), hex_val(s[s.len() - 2]), hex_val(s[s.len() - 1])) {
            (Some(p), Some(h), Some(l)) => Some(p.push((h * 16 + l) as u8)),
            _ => None,
        }
    }
}

/// `hex::decode` (hex): the bytes hex text stands for, or `None` where it fails (odd length, a
/// character that is not a hex digit).
#[verifier::external_body]
fn hex_decode(text: &[u8]) -> (r: Option<Vec<u8>>)
    ensures
        unhex(text@) == (match r {
            Some(v) => Some(v@),
            None => None,
        }),
{
    hex::decode(text).ok()
}

/// `RngCore::fill_bytes` on `rand::thread_rng()` (rand): 16 random bytes. Nothing is promised of
/// their values.
#[verifier::external_body]
fn random_token() -> (r: Vec<u8>)
    ensures
        r@.len() == 16,
{
    let mut raw = [0u8; 16];
    rand::thread_rng().fill_bytes(&mut raw);
    raw.to_vec()
}

// ------------------------------------------------------------------------------------------------
// The book.

/// A moment of the monotonic clock (std).
#[verifier::external_type_specification]
#[verifier::external_body]
pub struct ExInstant(std::time::Instant);

/// `Instant::now` (std): the current moment of the monotonic clock. Nothing is promised of it.
#[verifier::external_body]
fn instant_now() -> (r: std::time::Instant) {
    std::time::Instant::now()
}

/// `Instant::elapsed` (std) in whole milliseconds (saturating at the largest `u64`): the time
/// since `origin` by the monotonic clock, which a change of the wall clock does not move.
/// Nothing is promised of its value.
#[verifier::external_body]
fn elapsed_ms(origin: &std::time::Instant) -> (r: u64) {
    u64::try_from(origin.elapsed().as_millis()).unwrap_or(u64::MAX)
}

/// Pending token digests with their issue times, and the paired devices. Times are milliseconds
/// of the monotonic clock since the book was made.
pub struct PairingBook {
    mesh_id: String,
    pending: Vec<(Vec<u8>, u64)>,
    ttl_ms: u64,
    paired: Vec<(String, String)>,
    origin: std::time::Instant,
}

/// The mathematical form of a [`PairingBook`].
pub struct BookV {
    pub mesh_id: Seq<char>,
    /// Token digest → issue time (ms).
    pub pending: Map<Seq<u8>, u64>,
    pub ttl_ms: u64,
    /// Device id → display name.
    pub paired: Map<Seq<char>, Seq<char>>,
}

/// The map a list of pending digests stands for.
pub open spec fn pending_map(v: Seq<(Vec<u8>, u64)>) -> Map<Seq<u8>, u64>
    decreases v.len(),
{
    if v.len() == 0 { Map::empty() } else { pending_map(v.drop_last()).insert(v.last().0@, v.last().1) }
}

/// The map a list of paired devices stands for.
pub open spec fn paired_map(v: Seq<(String, String)>) -> Map<Seq<char>, Seq<char>>
    decreases v.len(),
{
    if v.len() == 0 { Map::empty() } else { paired_map(v.drop_last()).insert(v.last().0@, v.last().1@) }
}

/// No digest is pending twice.
pub open spec fn pending_distinct(v: Seq<(Vec<u8>, u64)>) -> bool {
    forall|a: int, b: int| 0 <= a < b < v.len() ==> v[a].0@ != v[b].0@
}

/// No device is paired twice.
pub open spec fn paired_distinct(v: Seq<(String, String)>) -> bool {
    forall|a: int, b: int| 0 <= a < b < v.len() ==> v[a].0@ != v[b].0@
}

impl View for PairingBook {
    type V = BookV;

    closed spec fn view(&self) -> BookV {
        BookV { mesh_id: self.mesh_id@, pending: pending_map(self.pending@), ttl_ms: self.ttl_ms, paired: paired_map(self.paired@) }
    }
}

impl PairingBook {
    /// No key occurs twice in either list.
    #[verifier::type_invariant]
    spec fn inv(self) -> bool {
        pending_distinct(self.pending@) && paired_distinct(self.paired@)
    }
}

/// Whether a token issued at `t` is still live at `now`.
pub open spec fn is_live(t: u64, now: u64, ttl: u64) -> bool {
    (if now >= t { now - t } else { 0 }) < ttl
}

/// The pending digests still live at `now`.
pub open spec fn live_at(p: Map<Seq<u8>, u64>, now: u64, ttl: u64) -> Map<Seq<u8>, u64> {
    Map::new(|k: Seq<u8>| p.contains_key(k) && is_live(p[k], now, ttl), |k: Seq<u8>| p[k])
}

/// The raw token a presented one stands for: 32 bytes are hex text, anything else is taken as is.
pub open spec fn raw_token(tok: Seq<u8>) -> Seq<u8> {
    if tok.len() == 32 {
        match unhex(tok) {
            Some(r) => r,
            None => Seq::empty(),
        }
    } else {
        tok
    }
}

/// The book after presenting `tok` for device `id` named `name` at `now`, and whether it paired.
pub open spec fn redeem_spec(b: BookV, tok: Seq<u8>, id: Seq<char>, name: Seq<char>, now: u64) -> (BookV, bool) {
    let live = live_at(b.pending, now, b.ttl_ms);
    let raw = raw_token(tok);
    if raw.len() != 16 {
        (BookV { pending: live, ..b }, false)
    } else if live.contains_key(sha256(raw)) {
        (BookV { pending: live.remove(sha256(raw)), paired: b.paired.insert(id, name), ..b }, true)
    } else {
        (BookV { pending: live, ..b }, false)
    }
}

/// The book after offering the raw token `raw` at `now`.
pub open spec fn offer_spec(b: BookV, raw: Seq<u8>, now: u64) -> BookV {
    BookV { pending: b.pending.insert(sha256(raw), now), ..b }
}

/// The ASCII bytes of a text.
pub open spec fn ascii_bytes(s: Seq<char>) -> Seq<u8> {
    Seq::new(s.len(), |i: int| s[i] as u8)
}

impl PairingBook {
    /// A book for the mesh `mesh_id`, with nothing pending or paired; tokens live ten minutes.
    pub fn new(mesh_id: &str) -> (b: PairingBook)
        ensures
            b@.mesh_id == mesh_id@,
            b@.pending == Map::<Seq<u8>, u64>::empty(),
            b@.ttl_ms == TOKEN_TTL_MS,
            b@.paired == Map::<Seq<char>, Seq<char>>::empty(),
    {
        PairingBook { mesh_id: crate::text::owned(mesh_id), pending: Vec::new(), ttl_ms: TOKEN_TTL_MS, paired: Vec::new(), origin: instant_now() }
    }

    /// The mesh this book pairs devices into.
    pub fn mesh_id(&self) -> (r: &str)
        ensures
            r@ == self@.mesh_id,
    {
        self.mesh_id.as_str()
    }

    /// Offers a fresh random token: it is pending from now on.
    pub fn offer(&mut self, host: &str, control_port: u16) -> (o: PairingOffer)
        ensures
            o.mesh_id@ == old(self)@.mesh_id,
            o.host@ == host@,
            o.control_port == control_port,
            o.token@.len() == 32,
            exists|raw: Seq<u8>, now: u64| raw.len() == 16 && o.token@ == hex_text(raw)
                && final(self)@ == offer_spec(old(self)@, raw, now),
    {
        let raw = random_token();
        let now = elapsed_ms(&self.origin);
        let o = self.offer_with(host, control_port, &raw, now);
        assert(o.token@ == hex_text(raw@) && final(self)@ == offer_spec(old(self)@, raw@, now));
        o
    }

    /// Offers the raw token `raw` at `now`: its digest is pending, issued at `now` (replacing an
    /// earlier issue of the same token); the offer carries its hex text.
    pub fn offer_with(&mut self, host: &str, control_port: u16, raw: &[u8], now: u64) -> (o: PairingOffer)
        requires
            raw@.len() == 16,
        ensures
            o.mesh_id@ == old(self)@.mesh_id,
            o.host@ == host@,
            o.control_port == control_port,
            o.token@ == hex_text(raw@),
            o.token@.len() == 32,
            final(self)@ == offer_spec(old(self)@, raw@, now),
    {
        proof {
            use_type_invariant(&*self);
            lemma_hex_len(raw@);
        }
        let token = hex_encode(raw);
        let key = digest(raw);
        let i = find_pending(&self.pending, &key);
        let ghost old_v = self.pending@;
        let e = (key, now);
        if i < self.pending.len() {
            proof {
                lemma_pending_update(old_v, i as int, e);
            }
            let mut v: Vec<(Vec<u8>, u64)> = Vec::new();
            std::mem::swap(&mut v, &mut self.pending);
            v.set(i, e);
            self.pending = v;
        } else {
            proof {
                lemma_pending_push(old_v, e);
            }
            let mut v: Vec<(Vec<u8>, u64)> = Vec::new();
            std::mem::swap(&mut v, &mut self.pending);
            v.push(e);
            self.pending = v;
        }
        PairingOffer { mesh_id: self.mesh_id.clone(), host: crate::text::owned(host), control_port, token }
    }

    /// Consumes a presented token now: true, and the device is recorded, if it was a live
    /// one-time token.
    pub fn redeem(&mut self, token_bytes: &[u8], device_id: &str, name: &str) -> (r: bool)
        ensures
            exists|now: u64| (final(self)@, r) == redeem_spec(old(self)@, token_bytes@, device_id@, name@, now),
    {
        let now = elapsed_ms(&self.origin);
        let r = self.redeem_at(token_bytes, device_id, name, now);
        assert((final(self)@, r) == redeem_spec(old(self)@, token_bytes@, device_id@, name@, now));
        r
    }

    /// Consumes a presented token at `now`: expired tokens are dropped first; then, if the token
    /// (hex text when 32 bytes long, raw bytes otherwise) is a live one-time token, it is used up,
    /// the device is recorded under `name`, and the answer is true.
    pub fn redeem_at(&mut self, token_bytes: &[u8], device_id: &str, name: &str, now: u64) -> (r: bool)
        ensures
            (final(self)@, r) == redeem_spec(old(self)@, token_bytes@, device_id@, name@, now),
    {
        proof {
            use_type_invariant(&*self);
        }
        self.drop_expired(now);
        proof {
            use_type_invariant(&*self);
        }
        let raw: Vec<u8> = if token_bytes.len() == 32 {
            match hex_decode(token_bytes) {
                Some(v) => v,
                None => Vec::new(),
            }
        } else {
            copy_bytes(token_bytes)
        };
        assert(raw@ == raw_token(token_bytes@));
        if raw.len() != 16 {
            return false;
        }
        let key = digest(raw.as_slice());
        let i = find_pending(&self.pending, &key);
        let ghost old_v = self.pending@;
        if i < self.pending.len() {
            proof {
                lemma_pending_remove(old_v, i as int);
                lemma_pending_found(old_v, i as int);
            }
            let mut v: Vec<(Vec<u8>, u64)> = Vec::new();
            std::mem::swap(&mut v, &mut self.pending);
            v.remove(i);
            self.pending = v;
            self.record(device_id, name);
            true
        } else {
            proof {
                lemma_pending_absent(old_v, key@);
            }
            false
        }
    }

    /// Whether `device_id` is paired.
    pub fn is_paired(&self, device_id: &str) -> (r: bool)
        ensures
            r == self@.paired.contains_key(device_id@),
    {
        proof {
            use_type_invariant(self);
        }
        let i = find_paired(&self.paired, device_id);
        proof {
            if i < self.paired@.len() {
                lemma_paired_found(self.paired@, i as int);
            } else {
                lemma_paired_absent(self.paired@, device_id@);
            }
        }
        i < self.paired.len()
    }

    /// Forgets `device_id`.
    pub fn forget(&mut self, device_id: &str)
        ensures
            final(self)@ == (BookV { paired: old(self)@.paired.remove(device_id@), ..old(self)@ }),
    {
        proof {
            use_type_invariant(&*self);
        }
        let i = find_paired(&self.paired, device_id);
        if i < self.paired.len() {
            let ghost old_v = self.paired@;
            proof {
                lemma_paired_remove(old_v, i as int);
            }
            let mut v: Vec<(String, String)> = Vec::new();
            std::mem::swap(&mut v, &mut self.paired);
            v.remove(i);
            self.paired = v;
        } else {
            proof {
                lemma_paired_absent(self.paired@, device_id@);
            }
            assert(paired_map(self.paired@) =~= paired_map(self.paired@).remove(device_id@));
        }
    }

    /// The paired devices: id and display name, each id once.
    pub fn paired(&self) -> (r: &[(String, String)])
        ensures
            paired_map(r@) == self@.paired,
            paired_distinct(r@),
    {
        proof {
            use_type_invariant(self);
        }
        self.paired.as_slice()
    }

    /// Drops the pending tokens that are no longer live at `now`.
    fn drop_expired(&mut self, now: u64)
        ensures
            final(self)@ == (BookV { pending: live_at(old(self)@.pending, now, old(self)@.ttl_ms), ..old(self)@ }),
    {
        proof {
            use_type_invariant(&*self);
        }
        let ghost old_v = self.pending@;
        let mut kept: Vec<(Vec<u8>, u64)> = Vec::new();
        let mut i: usize = 0;
        while i < self.pending.len()
            invariant
                i <= self.pending@.len(),
                old_v == self.pending@,
                pending_distinct(old_v),
                pending_distinct(kept@),
                forall|a: int| 0 <= a < kept@.len() ==> exists|j: int| 0 <= j < i && #[trigger] kept@[a].0@ == old_v[j].0@,
                pending_map(kept@) == live_at(pending_map(old_v.subrange(0, i as int)), now, self.ttl_ms),
            decreases self.pending@.len() - i,
        {
            let (k, t) = &self.pending[i];
            let ghost pre = old_v.subrange(0, i + 1);
            assert(pre.drop_last() =~= old_v.subrange(0, i as int));
            proof {
                lemma_pending_absent_prefix(old_v, i as int);
            }
            if now.saturating_sub(*t) < self.ttl_ms {
                let ghost old_k = kept@;
                kept.push((k.clone(), *t));
                assert(kept@.drop_last() =~= old_k);
                assert(pending_distinct(kept@)) by {
                    assert forall|a: int, b: int| 0 <= a < b < kept@.len() implies kept@[a].0@ != kept@[b].0@ by {
                        if b == kept@.len() - 1 {
                            let j = choose|j: int| 0 <= j < i && old_k[a].0@ == old_v[j].0@;
                            assert(old_v[j].0@ != old_v[i as int].0@);
                        } else {
                            assert(old_k[a].0@ != old_k[b].0@);
                        }
                    }
                }
                assert forall|a: int| 0 <= a < kept@.len() implies exists|j: int| 0 <= j < i + 1 && #[trigger] kept@[a].0@ == old_v[j].0@ by {
                    if a < kept@.len() - 1 {
                        let j = choose|j: int| 0 <= j < i && old_k[a].0@ == old_v[j].0@;
                        assert(kept@[a].0@ == old_v[j].0@);
                    } else {
                        assert(kept@[a].0@ == old_v[i as int].0@);
                    }
                }
                assert(pending_map(kept@) =~= live_at(pending_map(pre), now, self.ttl_ms));
            } else {
                assert forall|a: int| 0 <= a < kept@.len() implies exists|j: int| 0 <= j < i + 1 && #[trigger] kept@[a].0@ == old_v[j].0@ by {
                    let j = choose|j: int| 0 <= j < i && kept@[a].0@ == old_v[j].0@;
                    assert(kept@[a].0@ == old_v[j].0@);
                }
                assert(pending_map(kept@) =~= live_at(pending_map(pre), now, self.ttl_ms));
            }
            i = i + 1;
        }
        assert(old_v.subrange(0, old_v.len() as int) =~= old_v);
        self.pending = kept;
    }

    /// Records `device_id` as paired under `name`, replacing an earlier name.
    fn record(&mut self, device_id: &str, name: &str)
        ensures
            final(self)@ == (BookV { paired: old(self)@.paired.insert(device_id@, name@), ..old(self)@ }),
    {
        proof {
            use_type_invariant(&*self);
        }
        let i = find_paired(&self.paired, device_id);
        let entry = (crate::text::owned(device_id), crate::text::owned(name));
        let ghost old_v = self.paired@;
        if i < self.paired.len() {
            proof {
                lemma_paired_update(old_v, i as int, entry);
            }
            let mut v: Vec<(String, String)> = Vec::new();
            std::mem::swap(&mut v, &mut self.paired);
            v.set(i, entry);
            self.paired = v;
        } else {
            proof {
                lemma_paired_push(old_v, entry);
            }
            let mut v: Vec<(String, String)> = Vec::new();
            std::mem::swap(&mut v, &mut self.paired);
            v.push(entry);
            self.paired = v;
        }
    }
}

/// Position of the digest `key` in the pending list, or its length when absent.
fn find_pending(v: &Vec<(Vec<u8>, u64)>, key: &Vec<u8>) -> (i: usize)
    ensures
        i <= v@.len(),
        i < v@.len() ==> v@[i as int].0@ == key@,
        i == v@.len() ==> forall|j: int| 0 <= j < v@.len() ==> (#[trigger] v@[j]).0@ != key@,
{
    let mut i: usize = 0;
    while i < v.len()
        invariant
            i <= v@.len(),
            forall|j: int| 0 <= j < i ==> (#[trigger] v@[j]).0@ != key@,
        decreases v@.len() - i,
    {
        if bytes_eq(&v[i].0, key) {
            return i;
        }
        i = i + 1;
    }
    i
}

/// Position of `id` in the paired list, or its length when absent.
fn find_paired(v: &Vec<(String, String)>, id: &str) -> (i: usize)
    ensures
        i <= v@.len(),
        i < v@.len() ==> v@[i as int].0@ == id@,
        i == v@.len() ==> forall|j: int| 0 <= j < v@.len() ==> (#[trigger] v@[j]).0@ != id@,
{
    let target = crate::text::owned(id);
    let mut i: usize = 0;
    while i < v.len()
        invariant
            i <= v@.len(),
            target@ == id@,
            forall|j: int| 0 <= j < i ==> (#[trigger] v@[j]).0@ != id@,
        decreases v@.len() - i,
    {
        if v[i].0 == target {
            return i;
        }
        i = i + 1;
    }
    i
}

/// Whether two byte strings are equal.
fn bytes_eq(a: &Vec<u8>, b: &Vec<u8>) -> (r: bool)
    ensures
        r == (a@ == b@),
{
    if a.len() != b.len() {
        return false;
    }
    let mut i: usize = 0;
    while i < a.len()
        invariant
            i <= a@.len(),
            a@.len() == b@.len(),
            forall|j: int| 0 <= j < i ==> a@[j] == b@[j],
        decreases a@.len() - i,
    {
        if a[i] != b[i] {
            return false;
        }
        i = i + 1;
    }
    assert(a@ =~= b@);
    true
}

// ------------------------------------------------------------------------------------------------
// Lemmas on the lists.

proof fn lemma_pending_found(v: Seq<(Vec<u8>, u64)>, i: int)
    requires
        pending_distinct(v),
        0 <= i < v.len(),
    ensures
        pending_map(v).contains_key(v[i].0@),
        pending_map(v)[v[i].0@] == v[i].1,
    decreases v.len(),
{
    if i < v.len() - 1 {
        lemma_pending_found(v.drop_last(), i);
    }
}

proof fn lemma_pending_absent(v: Seq<(Vec<u8>, u64)>, k: Seq<u8>)
    requires
        forall|j: int| 0 <= j < v.len() ==> (#[trigger] v[j]).0@ != k,
    ensures
        !pending_map(v).contains_key(k),
    decreases v.len(),
{
    if v.len() > 0 {
        lemma_pending_absent(v.drop_last(), k);
    }
}

proof fn lemma_pending_absent_prefix(v: Seq<(Vec<u8>, u64)>, i: int)
    requires
        pending_distinct(v),
        0 <= i < v.len(),
    ensures
        !pending_map(v.subrange(0, i)).contains_key(v[i].0@),
{
    lemma_pending_absent(v.subrange(0, i), v[i].0@);
}

proof fn lemma_pending_update(v: Seq<(Vec<u8>, u64)>, i: int, e: (Vec<u8>, u64))
    requires
        pending_distinct(v),
        0 <= i < v.len(),
        v[i].0@ == e.0@,
    ensures
        pending_distinct(v.update(i, e)),
        pending_map(v.update(i, e)) == pending_map(v).insert(e.0@, e.1),
    decreases v.len(),
{
    let w = v.update(i, e);
    assert forall|a: int, b: int| 0 <= a < b < w.len() implies w[a].0@ != w[b].0@ by {
        assert(v[a].0@ != v[b].0@);
    }
    if i < v.len() - 1 {
        lemma_pending_update(v.drop_last(), i, e);
        assert(w.drop_last() =~= v.drop_last().update(i, e));
        assert(v.last().0@ != e.0@) by {
            assert(v[i].0@ != v[v.len() - 1].0@);
        }
        assert(pending_map(w) =~= pending_map(v).insert(e.0@, e.1));
    } else {
        assert(w.drop_last() =~= v.drop_last());
        assert(pending_map(w) =~= pending_map(v).insert(e.0@, e.1));
    }
}

proof fn lemma_pending_remove(v: Seq<(Vec<u8>, u64)>, i: int)
    requires
        pending_distinct(v),
        0 <= i < v.len(),
    ensures
        pending_distinct(v.remove(i)),
        pending_map(v.remove(i)) == pending_map(v).remove(v[i].0@),
    decreases v.len(),
{
    let w = v.remove(i);
    assert forall|a: int, b: int| 0 <= a < b < w.len() implies w[a].0@ != w[b].0@ by {
        let a2 = if a < i { a } else { a + 1 };
        let b2 = if b < i { b } else { b + 1 };
        assert(v[a2].0@ != v[b2].0@);
    }
    if i < v.len() - 1 {
        lemma_pending_remove(v.drop_last(), i);
        assert(w.drop_last() =~= v.drop_last().remove(i));
        assert(w.last() == v.last());
        assert(v.last().0@ != v[i].0@) by {
            assert(v[i].0@ != v[v.len() - 1].0@);
        }
        assert(pending_map(w) =~= pending_map(v).remove(v[i].0@));
    } else {
        assert(w =~= v.drop_last());
        lemma_pending_absent_prefix(v, i);
        assert(v.subrange(0, i) =~= v.drop_last());
        assert(pending_map(w) =~= pending_map(v).remove(v[i].0@));
    }
}

proof fn lemma_paired_found(v: Seq<(String, String)>, i: int)
    requires
        paired_distinct(v),
        0 <= i < v.len(),
    ensures
        paired_map(v).contains_key(v[i].0@),
    decreases v.len(),
{
    if i < v.len() - 1 {
        lemma_paired_found(v.drop_last(), i);
    }
}

proof fn lemma_paired_absent(v: Seq<(String, String)>, k: Seq<char>)
    requires
        forall|j: int| 0 <= j < v.len() ==> (#[trigger] v[j]).0@ != k,
    ensures
        !paired_map(v).contains_key(k),
    decreases v.len(),
{
    if v.len() > 0 {
        lemma_paired_absent(v.drop_last(), k);
    }
}

proof fn lemma_paired_update(v: Seq<(String, String)>, i: int, e: (String, String))
    requires
        paired_distinct(v),
        0 <= i < v.len(),
        v[i].0@ == e.0@,
    ensures
        paired_distinct(v.update(i, e)),
        paired_map(v.update(i, e)) == paired_map(v).insert(e.0@, e.1@),
    decreases v.len(),
{
    let w = v.update(i, e);
    assert forall|a: int, b: int| 0 <= a < b < w.len() implies w[a].0@ != w[b].0@ by {
        assert(v[a].0@ != v[b].0@);
    }
    if i < v.len() - 1 {
        lemma_paired_update(v.drop_last(), i, e);
        assert(w.drop_last() =~= v.drop_last().update(i, e));
        assert(v.last().0@ != e.0@) by {
            assert(v[i].0@ != v[v.len() - 1].0@);
        }
        assert(paired_map(w) =~= paired_map(v).insert(e.0@, e.1@));
    } else {
        assert(w.drop_last() =~= v.drop_last());
        assert(paired_map(w) =~= paired_map(v).insert(e.0@, e.1@));
    }
}

proof fn lemma_paired_remove(v: Seq<(String, String)>, i: int)
    requires
        paired_distinct(v),
        0 <= i < v.len(),
    ensures
        paired_distinct(v.remove(i)),
        paired_map(v.remove(i)) == paired_map(v).remove(v[i].0@),
    decreases v.len(),
{
    let w = v.remove(i);
    assert forall|a: int, b: int| 0 <= a < b < w.len() implies w[a].0@ != w[b].0@ by {
        let a2 = if a < i { a } else { a + 1 };
        let b2 = if b < i { b } else { b + 1 };
        assert(v[a2].0@ != v[b2].0@);
    }
    if i < v.len() - 1 {
        lemma_paired_remove(v.drop_last(), i);
        assert(w.drop_last() =~= v.drop_last().remove(i));
        assert(w.last() == v.last());
        assert(v.last().0@ != v[i].0@) by {
            assert(v[i].0@ != v[v.len() - 1].0@);
        }
        assert(paired_map(w) =~= paired_map(v).remove(v[i].0@));
    } else {
        assert(w =~= v.drop_last());
        assert forall|j: int| 0 <= j < w.len() implies (#[trigger] w[j]).0@ != v[i].0@ by {
            assert(v[j].0@ != v[i].0@);
        }
        lemma_paired_absent(w, v[i].0@);
        assert(paired_map(w) =~= paired_map(v).remove(v[i].0@));
    }
}

proof fn lemma_pending_push(v: Seq<(Vec<u8>, u64)>, e: (Vec<u8>, u64))
    requires
        pending_distinct(v),
        forall|j: int| 0 <= j < v.len() ==> (#[trigger] v[j]).0@ != e.0@,
    ensures
        pending_distinct(v.push(e)),
        pending_map(v.push(e)) == pending_map(v).insert(e.0@, e.1),
{
    let w = v.push(e);
    assert(w.drop_last() =~= v);
    assert forall|a: int, b: int| 0 <= a < b < w.len() implies w[a].0@ != w[b].0@ by {
        if b == w.len() - 1 {
            assert(v[a].0@ != e.0@);
        } else {
            assert(v[a].0@ != v[b].0@);
        }
    }
}

proof fn lemma_paired_push(v: Seq<(String, String)>, e: (String, String))
    requires
        paired_distinct(v),
        forall|j: int| 0 <= j < v.len() ==> (#[trigger] v[j]).0@ != e.0@,
    ensures
        paired_distinct(v.push(e)),
        paired_map(v.push(e)) == paired_map(v).insert(e.0@, e.1@),
{
    let w = v.push(e);
    assert(w.drop_last() =~= v);
    assert forall|a: int, b: int| 0 <= a < b < w.len() implies w[a].0@ != w[b].0@ by {
        if b == w.len() - 1 {
            assert(v[a].0@ != e.0@);
        } else {
            assert(v[a].0@ != v[b].0@);
        }
    }
}

/// A copy of `b`.
fn copy_bytes(b: &[u8]) -> (r: Vec<u8>)
    ensures
        r@ == b@,
{
    let mut r: Vec<u8> = Vec::new();
    let mut i: usize = 0;
    while i < b.len()
        invariant
            i <= b@.len(),
            r@ == b@.subrange(0, i as int),
        decreases b@.len() - i,
    {
        r.push(b[i]);
        assert(b@.subrange(0, i + 1) =~= r@);
        i = i + 1;
    }
    assert(b@.subrange(0, b@.len() as int) =~= b@);
    r
}

/// Hex text has two digits per byte.
pub proof fn lemma_hex_len(b: Seq<u8>)
    ensures
        hex_text(b).len() == 2 * b.len(),
    decreases b.len(),
{
    if b.len() > 0 {
        lemma_hex_len(b.drop_last());
    }
}

/// A hex digit read back gives its value.
proof fn lemma_hex_digit(n: nat)
    requires
        n < 16,
    ensures
        hex_val(hex_digit(n) as u8) == Some(n),
{
}

/// Hex text read back as bytes gives the bytes it was made from.
proof fn lemma_unhex_hex(b: Seq<u8>)
    ensures
        unhex(ascii_bytes(hex_text(b))) == Some(b),
        ascii_bytes(hex_text(b)).len() == 2 * b.len(),
    decreases b.len(),
{
    lemma_hex_len(b);
    if b.len() > 0 {
        let p = b.drop_last();
        let x = b.last();
        lemma_unhex_hex(p);
        lemma_hex_len(p);
        let s = ascii_bytes(hex_text(b));
        assert(s.subrange(0, s.len() - 2) =~= ascii_bytes(hex_text(p)));
        lemma_hex_digit(x as nat / 16);
        lemma_hex_digit(x as nat % 16);
        assert(s[s.len() - 2] == hex_digit(x as nat / 16) as u8);
        assert(s[s.len() - 1] == hex_digit(x as nat % 16) as u8);
        assert(((x as nat / 16) * 16 + x as nat % 16) as u8 == x);
        assert(p.push(x) =~= b);
    } else {
        assert(ascii_bytes(hex_text(b)) =~= Seq::<u8>::empty());
    }
}

/// A token that paired a device is used up: presenting it again, at any later time and for any
/// device, pairs nothing.
pub proof fn law_token_single_use(b: BookV, tok: Seq<u8>, id: Seq<char>, name: Seq<char>, now: u64,
    id2: Seq<char>, name2: Seq<char>, now2: u64)
    requires
        redeem_spec(b, tok, id, name, now).1,
    ensures
        !redeem_spec(redeem_spec(b, tok, id, name, now).0, tok, id2, name2, now2).1,
{
}

/// Presenting a live token pairs the device under the name it gave.
pub proof fn law_redeem_pairs(b: BookV, tok: Seq<u8>, id: Seq<char>, name: Seq<char>, now: u64)
    requires
        redeem_spec(b, tok, id, name, now).1,
    ensures
        redeem_spec(b, tok, id, name, now).0.paired.contains_key(id),
        redeem_spec(b, tok, id, name, now).0.paired[id] == name,
{
}

/// The hex text of an offered token, presented while it is live, pairs the device.
pub proof fn law_offered_token_pairs(b: BookV, raw: Seq<u8>, issued: u64, id: Seq<char>, name: Seq<char>, now: u64)
    requires
        raw.len() == 16,
        is_live(issued, now, b.ttl_ms),
    ensures
        redeem_spec(offer_spec(b, raw, issued), ascii_bytes(hex_text(raw)), id, name, now).1,
{
    lemma_unhex_hex(raw);
    let b2 = offer_spec(b, raw, issued);
    assert(raw_token(ascii_bytes(hex_text(raw))) == raw);
    assert(live_at(b2.pending, now, b2.ttl_ms).contains_key(sha256(raw)));
}

/// A token whose digest was issued a lifetime ago or more pairs nothing.
pub proof fn law_expired_token_refused(b: BookV, tok: Seq<u8>, id: Seq<char>, name: Seq<char>, now: u64)
    requires
        b.pending.contains_key(sha256(raw_token(tok))) ==> !is_live(b.pending[sha256(raw_token(tok))], now, b.ttl_ms),
    ensures
        !redeem_spec(b, tok, id, name, now).1,
{
}

} // verus!
