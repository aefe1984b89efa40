//! Facts about the mesh's devices and runs that the decisions read.
use vstd::prelude::*;
use crate::gguf::{ModelInfo, ModelInfoV};
use crate::pairing::{sha256, hex_text, digest, hex_encode};
use crate::planner::{Role, DeviceCap, Plan, Placement, PlacementV, placements_view, first_idx, lemma_first_idx, lemma_first_idx_none};
use crate::text::{dec, push_dec, parse_uint, parse_uint_chars, starts_with, chars_of, starts_with_at, owned, push_str, string_of};
use vstd::string::StringSliceAdditionalSpecFns;

verus! {

/// Reserve on every device until the real kill line is measured.
pub const HEADROOM_BYTES: u64 = 2_000_000_000;

/// What kind of device a mesh member is.
#[derive(Debug, Clone, Copy, PartialEq, Eq, Structural)]
pub enum DeviceKind {
    Laptop,
    Phone,
    Sim,
}

/// A model file found on disk.
#[derive(Debug, Clone)]
pub struct ModelEntry {
    pub file: String,
    pub info: ModelInfo,
    pub sha256: Option<String>,
}

/// The state of the current run.
#[derive(Debug, Clone)]
pub struct RunStatus {
    /// idle | starting | loading | ready | error | stopping
    pub status: String,
    pub host_id: Option<String>,
    pub model: Option<String>,
    pub plan_id: Option<String>,
    pub started_ms: Option<u64>,
    pub ready_ms: Option<u64>,
    pub endpoint: Option<String>,
    pub log_tail: Vec<String>,
    pub error: Option<String>,
    pub args: Vec<String>,
}

/// The mathematical view of an optional text.
pub open spec fn opt_text(o: Option<String>) -> Option<Seq<char>> {
    match o {
        Some(t) => Some(t@),
        None => None,
    }
}

/// The view of a [`RunStatus`]: its texts as character sequences.
pub struct RunV {
    pub status: Seq<char>,
    pub host_id: Option<Seq<char>>,
    pub model: Option<Seq<char>>,
    pub plan_id: Option<Seq<char>>,
    pub started_ms: Option<u64>,
    pub ready_ms: Option<u64>,
    pub endpoint: Option<Seq<char>>,
    pub log_tail: Seq<Seq<char>>,
    pub error: Option<Seq<char>>,
    pub args: Seq<Seq<char>>,
}

impl View for RunStatus {
    type V = RunV;

    open spec fn view(&self) -> RunV {
        RunV {
            status: self.status@,
            host_id: opt_text(self.host_id),
            model: opt_text(self.model),
            plan_id: opt_text(self.plan_id),
            started_ms: self.started_ms,
            ready_ms: self.ready_ms,
            endpoint: opt_text(self.endpoint),
            log_tail: Seq::new(self.log_tail@.len(), |i: int| self.log_tail@[i]@),
            error: opt_text(self.error),
            args: Seq::new(self.args@.len(), |i: int| self.args@[i]@),
        }
    }
}

/// A model download in progress or done.
#[derive(Debug, Clone)]
pub struct Download {
    pub file: String,
    pub url: String,
    pub total: u64,
    pub bytes: u64,
    pub done: bool,
    pub error: Option<String>,
    pub started_ms: u64,
}

/// Milliseconds since the Unix epoch by the wall clock (0 if the clock is before the epoch).
/// Nothing is promised of the value: it is the time.
#[verifier::external_body]
pub fn now_ms() -> u64 {
    std::time::SystemTime::now().duration_since(std::time::UNIX_EPOCH).unwrap_or_default().as_millis() as u64
}

/// The role a device takes from a placement, as the device table shows it.
pub open spec fn role_name(r: Role) -> Seq<char> {
    match r {
        Role::Host => "host"@,
        Role::Worker => "worker"@,
        Role::Rejected => "rejected"@,
    }
}

/// The role a device takes from a placement, as the device table shows it.
pub fn role_text(r: Role) -> (s: &'static str)
    ensures
        s@ == role_name(r),
{
    match r {
        Role::Host => "host",
        Role::Worker => "worker",
        Role::Rejected => "rejected",
    }
}

// ------------------------------------------------------------------------------------------------
// Memory a live run's processes hold.

/// The memory credited to a device for planning a replacement run: only a ready run, only a
/// measured (not overridden) sample taken after the run became ready, only a device with a
/// non-rejected placement, and only `min(placement bytes, held bytes)`.
pub open spec fn credit_spec(ready: bool, ready_ms: u64, overridden: bool, sampled_ms: u64, placed: Option<u64>, held: u64) -> nat {
    if !ready || overridden || sampled_ms < ready_ms {
        0
    } else {
        match placed {
            None => 0,
            Some(b) => if b <= held { b as nat } else { held as nat },
        }
    }
}

/// A credit never exceeds what the run's processes hold, nor what the plan placed on the device;
/// a device the plan places nothing on earns none.
pub proof fn law_credit_is_capped(ready: bool, ready_ms: u64, overridden: bool, sampled_ms: u64, placed: Option<u64>, held: u64)
    ensures
        credit_spec(ready, ready_ms, overridden, sampled_ms, placed, held) <= held,
        placed matches Some(b) ==> credit_spec(ready, ready_ms, overridden, sampled_ms, placed, held) <= b,
        placed is None ==> credit_spec(ready, ready_ms, overridden, sampled_ms, placed, held) == 0,
{
}

/// The memory credited to a device for planning a replacement run (see [`credit_spec`]).
pub fn credit_of(ready: bool, ready_ms: u64, overridden: bool, sampled_ms: u64, placed: Option<u64>, held: u64) -> (c: u64)
    ensures
        c == credit_spec(ready, ready_ms, overridden, sampled_ms, placed, held),
{
    if !ready || overridden || sampled_ms < ready_ms {
        return 0;
    }
    match placed {
        None => 0,
        Some(b) => if b <= held { b } else { held },
    }
}

/// What the coordinator knows of a device when it plans again while a run is live.
#[derive(Debug, Clone)]
pub struct DeviceState {
    /// What the planner sees of the device, from its latest measurement.
    pub cap: DeviceCap,
    pub online: bool,
    /// The usable memory is a manual override, not a measurement.
    pub overridden: bool,
    /// When the telemetry was sampled.
    pub telemetry_ms: u64,
    /// Memory the run's processes hold on the device.
    pub held_bytes: u64,
}

/// The device's placement in a plan that holds something: the first with its id that is not a
/// rejection.
pub open spec fn holds_for(id: Seq<char>) -> spec_fn(PlacementV) -> bool {
    |p: PlacementV| p.device_id == id && p.role != Role::Rejected
}

/// The bytes the plan places on device `id`, if it places any there.
pub open spec fn placed_on(ps: Seq<PlacementV>, id: Seq<char>) -> Option<u64> {
    match first_idx(ps, holds_for(id)) {
        Some(i) => Some(ps[i].bytes),
        None => None,
    }
}

/// The placements of the live plan, if there is one.
pub open spec fn plan_placements(plan: Option<&Plan>) -> Option<Seq<PlacementV>> {
    match plan {
        Some(p) => Some(p@.placements),
        None => None,
    }
}

/// The memory credited to one device.
pub open spec fn device_credit(d: DeviceState, ps: Option<Seq<PlacementV>>, ready: bool, ready_ms: u64) -> nat {
    credit_spec(ready, ready_ms, d.overridden, d.telemetry_ms,
        match ps { Some(ps) => placed_on(ps, d.cap.device_id@), None => None }, d.held_bytes)
}

/// The device with `u` usable bytes (saturating at the largest `u64`).
pub open spec fn with_usable(c: DeviceCap, u: nat) -> DeviceCap {
    DeviceCap { usable_bytes: if u <= u64::MAX { u as u64 } else { u64::MAX }, ..c }
}

/// The planner's view of the online devices, each credited with what the live run holds on it,
/// and the credits given (device id and bytes, only those above zero), in the devices' order.
pub open spec fn credited_spec(ds: Seq<DeviceState>, ps: Option<Seq<PlacementV>>, ready: bool, ready_ms: u64) -> (Seq<DeviceCap>, Seq<(Seq<char>, u64)>)
    decreases ds.len(),
{
    if ds.len() == 0 {
        (Seq::empty(), Seq::empty())
    } else {
        let (c, k) = credited_spec(ds.drop_last(), ps, ready, ready_ms);
        let d = ds.last();
        if !d.online {
            (c, k)
        } else {
            let cr = device_credit(d, ps, ready, ready_ms);
            (c.push(with_usable(d.cap, d.cap.usable_bytes as nat + cr)), if cr > 0 { k.push((d.cap.device_id@, cr as u64)) } else { k })
        }
    }
}

/// The credits as plain values.
pub open spec fn credits_view(k: Seq<(String, u64)>) -> Seq<(Seq<char>, u64)> {
    Seq::new(k.len(), |i: int| (k[i].0@, k[i].1))
}

/// The bytes a plan places on device `id`, if any (see [`placed_on`]).
fn placed_bytes(ps: &Vec<Placement>, id: &String) -> (r: Option<u64>)
    ensures
        r == placed_on(placements_view(ps@), id@),
{
    let ghost pv = placements_view(ps@);
    let mut i: usize = 0;
    while i < ps.len() && !(ps[i].device_id == *id && ps[i].role != Role::Rejected)
        invariant
            i <= ps@.len(),
            pv == placements_view(ps@),
            forall|j: int| 0 <= j < i ==> !holds_for(id@)(#[trigger] pv[j]),
        decreases ps@.len() - i,
    {
        i = i + 1;
    }
    if i < ps.len() {
        proof {
            lemma_first_idx(pv, holds_for(id@), i as int);
        }
        Some(ps[i].bytes)
    } else {
        proof {
            lemma_first_idx_none(pv, holds_for(id@));
        }
        None
    }
}

/// The capacities to plan a replacement run against: each online device as measured, plus the
/// memory the live run's own processes hold there (see [`credit_spec`]), so that a run which
/// only fits because the old one is still loaded is not refused; and the credits given.
pub fn credited_caps(devs: &[DeviceState], plan: Option<&Plan>, ready: bool, ready_ms: u64) -> (r: (Vec<DeviceCap>, Vec<(String, u64)>))
    ensures
        (r.0@, credits_view(r.1@)) == credited_spec(devs@, plan_placements(plan), ready, ready_ms),
{
    let ghost ps = plan_placements(plan);
    let mut caps: Vec<DeviceCap> = Vec::new();
    let mut credits: Vec<(String, u64)> = Vec::new();
    let mut i: usize = 0;
    assert(devs@.subrange(0, 0) =~= Seq::<DeviceState>::empty());
    assert(credits_view(credits@) =~= Seq::<(Seq<char>, u64)>::empty());
    while i < devs.len()
        invariant
            i <= devs@.len(),
            ps == plan_placements(plan),
            (caps@, credits_view(credits@)) == credited_spec(devs@.subrange(0, i as int), ps, ready, ready_ms),
        decreases devs@.len() - i,
    {
        let ghost pre = devs@.subrange(0, i as int);
        let ghost cur = devs@.subrange(0, i + 1);
        assert(cur.drop_last() =~= pre);
        assert(cur.last() == devs@[i as int]);
        let d = &devs[i];
        if d.online {
            let placed = match plan {
                Some(p) => placed_bytes(&p.placements, &d.cap.device_id),
                None => None,
            };
            let cr = credit_of(ready, ready_ms, d.overridden, d.telemetry_ms, placed, d.held_bytes);
            assert(cr == device_credit(*d, ps, ready, ready_ms));
            let c = DeviceCap {
                device_id: d.cap.device_id.clone(),
                name: d.cap.name.clone(),
                usable_bytes: d.cap.usable_bytes.saturating_add(cr),
                bench_milli_tps: d.cap.bench_milli_tps,
                rtt_us_p95: d.cap.rtt_us_p95,
                thermal_headroom_ppm: d.cap.thermal_headroom_ppm,
                battery_milli_pct: d.cap.battery_milli_pct,
                charging: d.cap.charging,
                is_local: d.cap.is_local,
                supported: d.cap.supported,
                can_host: d.cap.can_host,
            };
            assert(c == with_usable(d.cap, d.cap.usable_bytes as nat + cr as nat));
            caps.push(c);
            if cr > 0 {
                let ghost old_k = credits@;
                credits.push((d.cap.device_id.clone(), cr));
                assert(credits_view(credits@) =~= credits_view(old_k).push((d.cap.device_id@, cr)));
            }
        }
        i = i + 1;
    }
    assert(devs@.subrange(0, devs@.len() as int) =~= devs@);
    (caps, credits)
}

// ------------------------------------------------------------------------------------------------
// `/proc/<pid>/status`.

/// Unicode white space (`char::is_whitespace`).
pub open spec fn is_ws(c: char) -> bool {
    ('\t' <= c && c <= '\r') || c == ' ' || c == '\u{85}' || c == '\u{a0}' || c == '\u{1680}'
        || ('\u{2000}' <= c && c <= '\u{200a}') || c == '\u{2028}' || c == '\u{2029}' || c == '\u{202f}'
        || c == '\u{205f}' || c == '\u{3000}'
}

/// The first index at or after `i` that is not white space (or the length).
pub open spec fn skip_ws(s: Seq<char>, i: int) -> int
    decreases s.len() - i,
{
    if i < s.len() && is_ws(s[i]) { skip_ws(s, i + 1) } else { i }
}

/// The first index at or after `i` that is white space (or the length).
pub open spec fn token_end(s: Seq<char>, i: int) -> int
    decreases s.len() - i,
{
    if i < s.len() && !is_ws(s[i]) { token_end(s, i + 1) } else { i }
}

/// The `n`-th white-space separated token of `s` from index `i` on.
pub open spec fn nth_token(s: Seq<char>, i: int, n: nat) -> Option<Seq<char>>
    decreases n,
{
    let a = skip_ws(s, i);
    if i < 0 || a >= s.len() {
        None
    } else {
        let b = token_end(s, a);
        if n == 0 { Some(s.subrange(a, b)) } else { nth_token(s, b, (n - 1) as nat) }
    }
}

/// The end of the line that starts at `i` (the next `\n`, or the length).
pub open spec fn line_end(s: Seq<char>, i: int) -> int
    decreases s.len() - i,
{
    if i < s.len() && s[i] != '\n' { line_end(s, i + 1) } else { i }
}

/// The first line at or after `i` that begins with `key`.
pub open spec fn find_line(s: Seq<char>, i: int, key: Seq<char>) -> Option<Seq<char>>
    decreases s.len() - i,
{
    if i < 0 || i > s.len() {
        None
    } else {
        let e = line_end(s, i);
        let l = s.subrange(i, e);
        if starts_with(l, key) { Some(l) } else if e >= s.len() || e < i { None } else { find_line(s, e + 1, key) }
    }
}

/// The number of kB on the first line that begins with `key`: its second token, as `u64`.
pub open spec fn kb_of(s: Seq<char>, key: Seq<char>) -> Option<nat> {
    match find_line(s, 0, key) {
        Some(l) => match nth_token(l, 0, 1) {
            Some(t) => parse_uint(t, u64::MAX as nat),
            None => None,
        },
        None => None,
    }
}

/// `RssAnon` + `RssShmem` in bytes, or `VmRSS − RssFile` on kernels without the split fields.
pub open spec fn rss_anon_spec(s: Seq<char>) -> nat {
    match kb_of(s, "RssAnon:"@) {
        Some(a) => (a + match kb_of(s, "RssShmem:"@) { Some(x) => x, None => 0 }) * 1024,
        None => {
            let rss = match kb_of(s, "VmRSS:"@) { Some(x) => x, None => 0 };
            let file = match kb_of(s, "RssFile:"@) { Some(x) => x, None => 0 };
            (if rss >= file { (rss - file) as nat } else { 0 }) * 1024
        },
    }
}

/// Whether the sums of [`rss_anon_spec`] stay within 64 bits, step by step.
pub open spec fn rss_fits(s: Seq<char>) -> bool {
    match kb_of(s, "RssAnon:"@) {
        Some(a) => a + match kb_of(s, "RssShmem:"@) { Some(x) => x, None => 0 } <= u64::MAX && rss_anon_spec(s) <= u64::MAX,
        None => rss_anon_spec(s) <= u64::MAX,
    }
}

/// Whether `c` is Unicode white space.
pub fn is_ws_exec(c: char) -> (r: bool)
    ensures
        r == is_ws(c),
{
    ('\t' <= c && c <= '\r') || c == ' ' || c == '\u{85}' || c == '\u{a0}' || c == '\u{1680}'
        || ('\u{2000}' <= c && c <= '\u{200a}') || c == '\u{2028}' || c == '\u{2029}' || c == '\u{202f}'
        || c == '\u{205f}' || c == '\u{3000}'
}

/// The first line of `c` that begins with `key`.
fn find_line_exec(c: &Vec<char>, key: &Vec<char>) -> (r: Option<Vec<char>>)
    ensures
        find_line(c@, 0, key@) == (match r {
            Some(l) => Some(l@),
            None => None,
        }),
{
    let n = c.len();
    let mut i: usize = 0;
    loop
        invariant
            n == c@.len(),
            i <= n,
            find_line(c@, i as int, key@) == find_line(c@, 0, key@),
        decreases n - i,
    {
        let mut e = i;
        while e < n && c[e] != '\n'
            invariant
                i <= e <= n,
                n == c@.len(),
                line_end(c@, e as int) == line_end(c@, i as int),
            decreases n - e,
        {
            e = e + 1;
        }
        let line = string_of(c.as_slice(), i, e);
        let lc = chars_of(line.as_str());
        if starts_with_at(lc.as_slice(), 0, key.as_slice()) {
            return Some(lc);
        }
        if e >= n {
            return None;
        }
        i = e + 1;
    }
}

/// The first index at or after `from` of `l` that is not white space.
fn skip_ws_exec(l: &Vec<char>, from: usize) -> (i: usize)
    requires
        from <= l@.len(),
    ensures
        i as int == skip_ws(l@, from as int),
        from <= i <= l@.len(),
        i < l@.len() ==> !is_ws(l@[i as int]),
{
    let mut i = from;
    while i < l.len() && is_ws_exec(l[i])
        invariant
            from <= i <= l@.len(),
            skip_ws(l@, i as int) == skip_ws(l@, from as int),
        decreases l@.len() - i,
    {
        i = i + 1;
    }
    i
}

/// The first index at or after `from` of `l` that is white space.
fn token_end_exec(l: &Vec<char>, from: usize) -> (i: usize)
    requires
        from <= l@.len(),
    ensures
        i as int == token_end(l@, from as int),
        from <= i <= l@.len(),
        from < l@.len() && !is_ws(l@[from as int]) ==> i > from,
{
    let mut i = from;
    while i < l.len() && !is_ws_exec(l[i])
        invariant
            from <= i <= l@.len(),
            token_end(l@, i as int) == token_end(l@, from as int),
        decreases l@.len() - i,
    {
        i = i + 1;
    }
    i
}

/// The second white-space separated token of `l`, as a range.
fn second_token(l: &Vec<char>) -> (r: Option<(usize, usize)>)
    ensures
        match r {
            Some((x, y)) => x <= y <= l@.len() && nth_token(l@, 0, 1) == Some(l@.subrange(x as int, y as int)),
            None => nth_token(l@, 0, 1) is None,
        },
{
    let n = l.len();
    let a = skip_ws_exec(l, 0);
    if a >= n {
        return None;
    }
    let b = token_end_exec(l, a);
    assert(b > a);
    assert(nth_token(l@, 0, 1) == nth_token(l@, b as int, 0));
    let x = skip_ws_exec(l, b);
    if x >= n {
        return None;
    }
    let y = token_end_exec(l, x);
    Some((x, y))
}

/// The number of kB on the first line that begins with `key`.
fn kb_exec(c: &Vec<char>, key: &str) -> (r: Option<u64>)
    ensures
        kb_of(c@, key@) == (match r {
            Some(v) => Some(v as nat),
            None => None,
        }),
{
    let k = chars_of(key);
    match find_line_exec(c, &k) {
        None => None,
        Some(l) => match second_token(&l) {
            None => None,
            Some((x, y)) => parse_uint_chars(l.as_slice(), x, y, u64::MAX),
        },
    }
}

/// Whether [`parse_rss_anon`] stays within 64 bits on `status`.
pub fn rss_anon_fits(status: &str) -> (r: bool)
    ensures
        r == rss_fits(status@),
{
    let c = chars_of(status);
    match kb_exec(&c, "RssAnon:") {
        Some(a) => {
            let sh = match kb_exec(&c, "RssShmem:") {
                Some(x) => x,
                None => 0,
            };
            (a as u128) + (sh as u128) <= u64::MAX as u128 && ((a as u128) + (sh as u128)) * 1024 <= u64::MAX as u128
        },
        None => {
            let rss = match kb_exec(&c, "VmRSS:") {
                Some(x) => x,
                None => 0,
            };
            let file = match kb_exec(&c, "RssFile:") {
                Some(x) => x,
                None => 0,
            };
            (rss.saturating_sub(file) as u128) * 1024 <= u64::MAX as u128
        },
    }
}

/// `RssAnon` + `RssShmem` in bytes from a `/proc/<pid>/status` text; falls back to
/// `VmRSS − RssFile` on kernels without the split fields.
pub fn parse_rss_anon(status: &str) -> (r: u64)
    requires
        rss_fits(status@),
    ensures
        r == rss_anon_spec(status@),
{
    let c = chars_of(status);
    match kb_exec(&c, "RssAnon:") {
        Some(a) => {
            let sh = match kb_exec(&c, "RssShmem:") {
                Some(x) => x,
                None => 0,
            };
            (a + sh) * 1024
        },
        None => {
            let rss = match kb_exec(&c, "VmRSS:") {
                Some(x) => x,
                None => 0,
            };
            let file = match kb_exec(&c, "RssFile:") {
                Some(x) => x,
                None => 0,
            };
            rss.saturating_sub(file) * 1024
        },
    }
}

// ------------------------------------------------------------------------------------------------
// Ids shown on the public mirror.

/// The short id the public mirror shows: `local` and simulated devices as they are, every other
/// device as `dev-` and the first six hex digits of the SHA-256 of its id.
pub open spec fn short_id_spec(id: &str) -> Seq<char> {
    if id@ == "local"@ || starts_with(id@, "sim-"@) {
        id@
    } else {
        "dev-"@ + hex_text(sha256(id.spec_bytes())).subrange(0, 6)
    }
}

/// Stable, non-reversible short id for the public mirror (see [`short_id_spec`]).
pub fn short_id(id: &str) -> (s: String)
    ensures
        s@ == short_id_spec(id),
{
    let c = chars_of(id);
    let lc = chars_of("local");
    let sc = chars_of("sim-");
    if (c.len() == lc.len() && starts_with_at(c.as_slice(), 0, lc.as_slice())) || starts_with_at(c.as_slice(), 0, sc.as_slice()) {
        proof {
            if c@.len() == lc@.len() && crate::text::occurs_at(c@, lc@, 0) {
                assert(c@ =~= c@.subrange(0, lc@.len() as int));
            }
        }
        return owned(id);
    }
    proof {
        if c@ == "local"@ {
            assert(c@.subrange(0, lc@.len() as int) =~= c@);
            assert(crate::text::occurs_at(c@, lc@, 0));
        }
    }
    let d = digest(id.as_bytes());
    let h = hex_encode(d.as_slice());
    proof {
        crate::pairing::lemma_hex_len(d@);
    }
    let hc = chars_of(h.as_str());
    let first = string_of(hc.as_slice(), 0, 6);
    let mut s = owned("dev-");
    push_str(&mut s, first.as_str());
    s
}

/// The id of the mesh a coordinator on host `host` runs: `mesh-` and the first eight hex digits of
/// the SHA-256 of the host name.
pub open spec fn mesh_id_spec(host: &str) -> Seq<char> {
    "mesh-"@ + hex_text(sha256(host.spec_bytes())).subrange(0, 8)
}

/// The id of the mesh a coordinator on host `host` runs (see [`mesh_id_spec`]).
pub fn mesh_id_for(host: &str) -> (s: String)
    ensures
        s@ == mesh_id_spec(host),
{
    let d = digest(host.as_bytes());
    let h = hex_encode(d.as_slice());
    proof {
        crate::pairing::lemma_hex_len(d@);
    }
    let hc = chars_of(h.as_str());
    let first = string_of(hc.as_slice(), 0, 8);
    let mut s = owned("mesh-");
    push_str(&mut s, first.as_str());
    s
}

// ------------------------------------------------------------------------------------------------
// Devices, runs and logs.

/// The memory a device may use: a manual override when there is one, else what it reports
/// available less the headroom its profile keeps (the default headroom without a profile).
pub open spec fn usable_spec(override_bytes: Option<u64>, avail: Option<u64>, headroom: Option<u64>) -> nat {
    match override_bytes {
        Some(o) => o as nat,
        None => {
            let a = match avail { Some(a) => a as nat, None => 0 };
            let h = match headroom { Some(h) => h as nat, None => HEADROOM_BYTES as nat };
            if a >= h { (a - h) as nat } else { 0 }
        },
    }
}

/// The memory a device may use (see [`usable_spec`]).
pub fn usable_of(override_bytes: Option<u64>, avail: Option<u64>, headroom: Option<u64>) -> (r: u64)
    ensures
        r == usable_spec(override_bytes, avail, headroom),
{
    match override_bytes {
        Some(o) => o,
        None => {
            let a = match avail { Some(a) => a, None => 0 };
            let h = match headroom { Some(h) => h, None => HEADROOM_BYTES };
            a.saturating_sub(h)
        },
    }
}

/// The role a device shows after a plan: that of the last placement for it, `idle` if none.
pub open spec fn device_role_spec(ps: Seq<PlacementV>, id: Seq<char>) -> Seq<char>
    decreases ps.len(),
{
    if ps.len() == 0 {
        "idle"@
    } else if ps.last().device_id == id {
        role_name(ps.last().role)
    } else {
        device_role_spec(ps.drop_last(), id)
    }
}

/// The role device `id` shows after plan `p` (see [`device_role_spec`]).
pub fn device_role(p: &Plan, id: &str) -> (r: &'static str)
    ensures
        r@ == device_role_spec(p@.placements, id@),
{
    let ghost ps = p@.placements;
    let key = owned(id);
    let mut i: usize = p.placements.len();
    assert(ps.subrange(0, ps.len() as int) =~= ps);
    while i > 0 && !(p.placements[i - 1].device_id == key)
        invariant
            i <= ps.len(),
            ps == p@.placements,
            ps.len() == p.placements@.len(),
            key@ == id@,
            device_role_spec(ps, id@) == device_role_spec(ps.subrange(0, i as int), id@),
        decreases i,
    {
        let ghost pre = ps.subrange(0, i as int);
        assert(pre.drop_last() =~= ps.subrange(0, i - 1));
        assert(pre.last() == p.placements@[i - 1]@);
        i = i - 1;
    }
    if i == 0 {
        proof {
            reveal_strlit("idle");
            assert(ps.subrange(0, 0) =~= Seq::<PlacementV>::empty());
        }
        "idle"
    } else {
        let ghost pre = ps.subrange(0, i as int);
        assert(pre.last() == p.placements@[i - 1]@);
        role_text(p.placements[i - 1].role)
    }
}

/// What the coordinator knows of the device asked to host a run.
#[derive(Debug, Clone, Copy)]
pub struct HostFacts {
    pub is_local: bool,
    pub online: bool,
}

/// Why a run cannot start, checked before the current run is stopped: the model must be on
/// disk, the context positive and within the model's training context (when it declares one),
/// and a requested host known, local unless the API is served on the network, and online.
pub open spec fn precheck_spec(model_file: Seq<char>, model: Option<ModelInfoV>, n_ctx: u32, host: Option<Seq<char>>,
    host_dev: Option<HostFacts>, lan: bool) -> Result<(), Seq<char>>
{
    match model {
        None => Err("model not found: "@ + model_file),
        Some(m) => if n_ctx == 0 {
            Err("n_ctx must be > 0"@)
        } else if m.n_ctx_train > 0 && n_ctx > m.n_ctx_train {
            Err("n_ctx "@ + dec(n_ctx as nat) + " exceeds the model's training context "@ + dec(m.n_ctx_train as nat)
                + " — pick a smaller context"@)
        } else {
            match host {
                None => Ok(()),
                Some(h) => match host_dev {
                    None => Err("unknown host device: "@ + h),
                    Some(d) => if !d.is_local && !lan {
                        Err("a phone can only be the host when meshd runs with --lan --api-token (it fetches the model from this API)"@)
                    } else if !d.is_local && !d.online {
                        Err("host device "@ + h + " is offline"@)
                    } else {
                        Ok(())
                    },
                },
            }
        },
    }
}

/// Checks a run request before the current run is stopped (see [`precheck_spec`]); `model` is
/// the model found under `model_file`, `host_dev` what is known of the device named `host`.
pub fn precheck_run(model_file: &str, model: Option<&ModelInfo>, n_ctx: u32, host: Option<&str>, host_dev: Option<HostFacts>,
    lan: bool) -> (r: Result<(), String>)
    ensures
        match r {
            Ok(()) => precheck_spec(model_file@, match model { Some(m) => Some(m@), None => None }, n_ctx,
                match host { Some(h) => Some(h@), None => None }, host_dev, lan) == Ok::<(), Seq<char>>(()),
            Err(e) => precheck_spec(model_file@, match model { Some(m) => Some(m@), None => None }, n_ctx,
                match host { Some(h) => Some(h@), None => None }, host_dev, lan) == Err::<(), Seq<char>>(e@),
        },
{
    let m = match model {
        None => {
            let mut e = owned("model not found: ");
            push_str(&mut e, model_file);
            return Err(e);
        },
        Some(m) => m,
    };
    if n_ctx == 0 {
        return Err(owned("n_ctx must be > 0"));
    }
    if m.n_ctx_train > 0 && n_ctx > m.n_ctx_train {
        let mut e = owned("n_ctx ");
        push_dec(&mut e, n_ctx as u64);
        push_str(&mut e, " exceeds the model's training context ");
        push_dec(&mut e, m.n_ctx_train as u64);
        push_str(&mut e, " — pick a smaller context");
        return Err(e);
    }
    match host {
        None => Ok(()),
        Some(h) => match host_dev {
            None => {
                let mut e = owned("unknown host device: ");
                push_str(&mut e, h);
                Err(e)
            },
            Some(d) => if !d.is_local && !lan {
                Err(owned("a phone can only be the host when meshd runs with --lan --api-token (it fetches the model from this API)"))
            } else if !d.is_local && !d.online {
                let mut e = owned("host device ");
                push_str(&mut e, h);
                push_str(&mut e, " is offline");
                Err(e)
            } else {
                Ok(())
            },
        },
    }
}

/// The last `cap` items of `s`.
pub open spec fn last_n<T>(s: Seq<T>, cap: nat) -> Seq<T> {
    if s.len() > cap { s.subrange(s.len() - cap, s.len() as int) } else { s }
}

/// Appends `x` and keeps only the last `cap` items: how run rows and host log lines are kept.
pub fn push_capped<T>(v: &mut Vec<T>, x: T, cap: usize)
    ensures
        final(v)@ == last_n(old(v)@.push(x), cap as nat),
{
    v.push(x);
    if v.len() > cap {
        let n = v.len() - cap;
        let rest = v.split_off(n);
        *v = rest;
    }
}

/// A capped list never holds more than its cap, and the item just added is its last.
pub proof fn law_capped_keeps_newest<T>(s: Seq<T>, x: T, cap: nat)
    requires
        cap > 0,
    ensures
        last_n(s.push(x), cap).len() <= cap,
        last_n(s.push(x), cap).last() == x,
        s.len() < cap ==> last_n(s.push(x), cap) == s.push(x),
{
}

// ------------------------------------------------------------------------------------------------
// Pairing QR codes.

/// The terminal rendering of a QR code for `payload` (two characters per module across, one
/// down, with the quiet zone), or `None` when the payload does not fit in a QR code.
pub uninterp spec fn qr_terminal_text(payload: Seq<char>) -> Option<Seq<char>>;

/// `QrCode::new` then `render::<char>()` with the quiet zone and modules of 2 × 1 characters
/// (qrcode): the text named by [`qr_terminal_text`]; `None` where the crate refuses the payload.
#[verifier::external_body]
pub fn qr_terminal(payload: &str) -> (r: Option<String>)
    ensures
        qr_terminal_text(payload@) == match r {
            Some(t) => Some(t@),
            None => None::<Seq<char>>,
        },
{
    match qrcode::QrCode::new(payload.as_bytes()) {
        Ok(code) => Some(code.render::<char>().quiet_zone(true).module_dimensions(2, 1).build()),
        Err(_) => None,
    }
}

/// The SVG rendering of a QR code for `payload` (at least 220 × 220, dark modules in the current
/// colour on a transparent ground), or `None` when the payload does not fit in a QR code.
pub uninterp spec fn qr_svg_text(payload: Seq<char>) -> Option<Seq<char>>;

/// `QrCode::new` then `render::<svg::Color>()` at least 220 × 220, dark `currentColor`, light
/// `transparent` (qrcode): the text named by [`qr_svg_text`]; `None` where the crate refuses the
/// payload.
#[verifier::external_body]
pub fn qr_svg(payload: &str) -> (r: Option<String>)
    ensures
        qr_svg_text(payload@) == match r {
            Some(t) => Some(t@),
            None => None::<Seq<char>>,
        },
{
    match qrcode::QrCode::new(payload.as_bytes()) {
        Ok(code) => Some(
            code.render::<qrcode::render::svg::Color>()
                .min_dimensions(220, 220)
                .dark_color(qrcode::render::svg::Color("currentColor"))
                .light_color(qrcode::render::svg::Color("transparent"))
                .build(),
        ),
        Err(_) => None,
    }
}

} // verus!
