//! Placement planner.
//!
//! Rules, in order:
//! 1. If the model + KV fits on one eligible device, run it there: the fastest one, no network.
//! 2. Otherwise split contiguous layer blocks across the fewest devices whose pooled free memory
//!    holds the model. Each chosen device is filled with as many consecutive layers as it can hold
//!    (greedy, so a tight pool never fails on rounding); the host keeps the non-layer tensors
//!    (embeddings, output head) plus the first layers.
//! 3. A device is rejected, with a reason, if it is unsupported, its RTT p95 is too high, it is too
//!    hot, its battery is below the floor, or it brings less memory than one layer plus its compute
//!    reserve.
//! 4. Every device must hold weights + KV + a fixed compute reserve (an estimate); the host also
//!    holds the non-layer tensors and, for vision models, the projector.
//!
//! Every placement carries a human-readable reason.
//!
//! Measurements that are fractional elsewhere are fixed-point integers here: RTT in microseconds,
//! thermal headroom in millionths, battery in thousandths of a percent, speed in thousandths of a
//! token per second.
use vstd::prelude::*;
use crate::gguf::{ModelInfo, ModelInfoV, sum, weight_bytes_of, lemma_sum_prefix_le};
use crate::text::{dec, owned, push_dec, push_str, push_char, round_div, signed_round_text, push_signed_round, signed_hundredths_text, push_signed_hundredths};

verus! {

/// Compute-graph memory `llama-server` needs beyond weights + KV on the device that hosts it
/// (estimate, not measured).
pub const HOST_COMPUTE_RESERVE_BYTES: u64 = 300_000_000;
/// Same, for a device that only runs `ggml-rpc-server` as a layer-split worker (estimate).
pub const WORKER_COMPUTE_RESERVE_BYTES: u64 = 150_000_000;

/// What the planner knows about one device.
#[derive(Debug, Clone)]
pub struct DeviceCap {
    pub device_id: String,
    pub name: String,
    /// Memory this device may use for weights + KV + its compute reserve.
    pub usable_bytes: u64,
    /// Measured decode speed on the reference benchmark, thousandths of a token/s (0 = unknown).
    pub bench_milli_tps: i64,
    /// RTT p95, microseconds.
    pub rtt_us_p95: i64,
    /// Thermal headroom, millionths (1.0 = 1_000_000).
    pub thermal_headroom_ppm: i64,
    /// Battery level, thousandths of a percent.
    pub battery_milli_pct: i64,
    pub charging: bool,
    pub is_local: bool,
    /// False when the device reported an unsupported tier.
    pub supported: bool,
    /// False for devices that can only be compute workers: never the host that runs llama-server.
    pub can_host: bool,
}

/// What a device does in a plan.
#[derive(Debug, Clone, Copy, PartialEq, Eq, Structural)]
pub enum Role {
    Host,
    Worker,
    Rejected,
}

/// Whether a plan runs on one device or is split.
#[derive(Debug, Clone, Copy, PartialEq, Eq, Structural)]
pub enum Mode {
    Single,
    LayerSplit,
}

/// One device's part in a plan.
#[derive(Debug)]
pub struct Placement {
    pub device_id: String,
    pub name: String,
    pub role: Role,
    pub layer_start: u32,
    /// Exclusive.
    pub layer_end: u32,
    /// Weights + KV held on this device.
    pub bytes: u64,
    /// Share of the offloaded bytes: `split_weight_num / split_weight_den`.
    pub split_weight_num: u64,
    pub split_weight_den: u64,
    /// Compute-buffer estimate budgeted against this device's usable memory (0 when rejected).
    pub compute_reserve_bytes: u64,
    pub reason: String,
}

/// The mathematical form of a [`Placement`].
pub struct PlacementV {
    pub device_id: Seq<char>,
    pub name: Seq<char>,
    pub role: Role,
    pub layer_start: u32,
    pub layer_end: u32,
    pub bytes: u64,
    pub split_weight_num: u64,
    pub split_weight_den: u64,
    pub compute_reserve_bytes: u64,
    pub reason: Seq<char>,
}

impl View for Placement {
    type V = PlacementV;

    open spec fn view(&self) -> PlacementV {
        PlacementV {
            device_id: self.device_id@,
            name: self.name@,
            role: self.role,
            layer_start: self.layer_start,
            layer_end: self.layer_end,
            bytes: self.bytes,
            split_weight_num: self.split_weight_num,
            split_weight_den: self.split_weight_den,
            compute_reserve_bytes: self.compute_reserve_bytes,
            reason: self.reason@,
        }
    }
}

/// Views of a sequence of placements.
pub open spec fn placements_view(ps: Seq<Placement>) -> Seq<PlacementV> {
    Seq::new(ps.len(), |i: int| ps[i]@)
}

/// A placement plan.
#[derive(Debug)]
pub struct Plan {
    pub model: String,
    pub mode: Mode,
    pub n_ctx: u32,
    pub host_id: String,
    pub placements: Vec<Placement>,
    pub summary: String,
    pub total_needed_bytes: u64,
    pub total_usable_bytes: u64,
}

/// The mathematical form of a [`Plan`].
pub struct PlanV {
    pub model: Seq<char>,
    pub mode: Mode,
    pub n_ctx: u32,
    pub host_id: Seq<char>,
    pub placements: Seq<PlacementV>,
    pub summary: Seq<char>,
    pub total_needed_bytes: u64,
    pub total_usable_bytes: u64,
}

impl View for Plan {
    type V = PlanV;

    open spec fn view(&self) -> PlanV {
        PlanV {
            model: self.model@,
            mode: self.mode,
            n_ctx: self.n_ctx,
            host_id: self.host_id@,
            placements: placements_view(self.placements@),
            summary: self.summary@,
            total_needed_bytes: self.total_needed_bytes,
            total_usable_bytes: self.total_usable_bytes,
        }
    }
}

/// Limits a device must respect to be considered.
#[derive(Debug, Clone)]
pub struct Policy {
    /// Highest RTT p95 of a remote device, microseconds.
    pub max_rtt_us_p95: i64,
    /// Reject a device whose headroom exceeds `1 - margin` (already throttling), millionths.
    pub min_thermal_headroom_margin_ppm: i64,
    /// Battery floor for a remote device that is not charging, thousandths of a percent.
    pub min_battery_milli_pct: i64,
    pub prefer_host: Option<String>,
    /// Extra bytes the host process holds beyond the model itself (the vision projector).
    pub host_extra_bytes: u64,
}

impl Default for Policy {
    fn default() -> (p: Policy)
        ensures
            p.max_rtt_us_p95 == 60_000,
            p.min_thermal_headroom_margin_ppm == 50_000,
            p.min_battery_milli_pct == 20_000,
            p.prefer_host is None,
            p.host_extra_bytes == 0,
    {
        Policy {
            max_rtt_us_p95: 60_000,
            min_thermal_headroom_margin_ppm: 50_000,
            min_battery_milli_pct: 20_000,
            prefer_host: None,
            host_extra_bytes: 0,
        }
    }
}

/// Why the planner refused.
#[derive(Debug)]
pub enum PlanError {
    /// No eligible devices.
    NoDevices,
    /// The model (weights + KV + compute reserves) does not fit the eligible devices' pooled memory.
    DoesNotFit { needed: u64, available: u64 },
    /// The host cannot hold the embeddings/output tensors plus its compute reserve.
    HostTooSmall { host: String, usable: u64, fixed: u64 },
    /// The requested host is not eligible.
    HostNotEligible { host: String, reason: String },
    /// No eligible device can act as host (only compute-only workers).
    NoHost,
}

/// The mathematical form of a [`PlanError`].
pub enum PlanErrorV {
    NoDevices,
    DoesNotFit { needed: u64, available: u64 },
    HostTooSmall { host: Seq<char>, usable: u64, fixed: u64 },
    HostNotEligible { host: Seq<char>, reason: Seq<char> },
    NoHost,
}

impl View for PlanError {
    type V = PlanErrorV;

    open spec fn view(&self) -> PlanErrorV {
        match self {
            PlanError::NoDevices => PlanErrorV::NoDevices,
            PlanError::DoesNotFit { needed, available } => PlanErrorV::DoesNotFit { needed: *needed, available: *available },
            PlanError::HostTooSmall { host, usable, fixed } => PlanErrorV::HostTooSmall { host: host@, usable: *usable, fixed: *fixed },
            PlanError::HostNotEligible { host, reason } => PlanErrorV::HostNotEligible { host: host@, reason: reason@ },
            PlanError::NoHost => PlanErrorV::NoHost,
        }
    }
}

/// The text of a planning error.
pub open spec fn error_text(e: PlanErrorV) -> Seq<char> {
    match e {
        PlanErrorV::NoDevices => "no eligible devices"@,
        PlanErrorV::DoesNotFit { needed, available } => "model needs "@ + dec(needed as nat)
            + " bytes (weights + KV + compute reserves, the reserves are estimates) but eligible devices pool only "@
            + dec(available as nat) + " bytes — add a device, close apps, or use a smaller quant/context"@,
        PlanErrorV::HostTooSmall { host, usable, fixed } => "host "@ + host + " can hold only "@ + dec(usable as nat)
            + " bytes but the embeddings/output tensors plus the compute reserve alone need "@ + dec(fixed as nat)
            + " bytes — pick a host with more free memory"@,
        PlanErrorV::HostNotEligible { host, reason } => "requested host "@ + host + " is not eligible: "@ + reason,
        PlanErrorV::NoHost => "no eligible device can act as host (a compute-only worker cannot run the model)"@,
    }
}

impl PlanError {
    /// The error as text (see [`error_text`]).
    pub fn message(&self) -> (s: String)
        ensures
            s@ == error_text(self@),
    {
        match self {
            PlanError::NoDevices => owned("no eligible devices"),
            PlanError::DoesNotFit { needed, available } => {
                let mut s = owned("model needs ");
                push_dec(&mut s, *needed);
                push_str(&mut s, " bytes (weights + KV + compute reserves, the reserves are estimates) but eligible devices pool only ");
                push_dec(&mut s, *available);
                push_str(&mut s, " bytes — add a device, close apps, or use a smaller quant/context");
                s
            },
            PlanError::HostTooSmall { host, usable, fixed } => {
                let mut s = owned("host ");
                push_str(&mut s, host.as_str());
                push_str(&mut s, " can hold only ");
                push_dec(&mut s, *usable);
                push_str(&mut s, " bytes but the embeddings/output tensors plus the compute reserve alone need ");
                push_dec(&mut s, *fixed);
                push_str(&mut s, " bytes — pick a host with more free memory");
                s
            },
            PlanError::HostNotEligible { host, reason } => {
                let mut s = owned("requested host ");
                push_str(&mut s, host.as_str());
                push_str(&mut s, " is not eligible: ");
                push_str(&mut s, reason.as_str());
                s
            },
            PlanError::NoHost => owned("no eligible device can act as host (a compute-only worker cannot run the model)"),
        }
    }
}

// ------------------------------------------------------------------------------------------------
// Texts.

/// `b` bytes as gigabytes with one decimal, rounded: `"1.2 GB"`.
#[verifier::opaque]
pub open spec fn gb(b: nat) -> Seq<char> {
    let t = round_div(b, 100_000_000);
    dec(t / 10) + seq!['.'] + dec(t % 10) + " GB"@
}

/// A compute reserve, in MB, labelled as an estimate.
#[verifier::opaque]
pub open spec fn reserve_label(b: nat) -> Seq<char> {
    dec(b / 1_000_000) + " MB compute reserve (estimate)"@
}

/// Appends [`gb`] of `b`.
pub fn push_gb(s: &mut String, b: u64)
    ensures
        final(s)@ == old(s)@ + gb(b as nat),
{
    let q = b / 100_000_000;
    let r = b % 100_000_000;
    let t: u64 = q + if r * 2 >= 100_000_000 { 1 } else { 0 };
    assert(t as nat == round_div(b as nat, 100_000_000));
    reveal(gb);
    push_dec(s, t / 10);
    push_char(s, '.');
    push_dec(s, t % 10);
    push_str(s, " GB");
    assert(s@ =~= old(s)@ + gb(b as nat));
}

/// Appends [`reserve_label`] of `b`.
pub fn push_reserve_label(s: &mut String, b: u64)
    ensures
        final(s)@ == old(s)@ + reserve_label(b as nat),
{
    reveal(reserve_label);
    push_dec(s, b / 1_000_000);
    push_str(s, " MB compute reserve (estimate)");
    assert(s@ =~= old(s)@ + reserve_label(b as nat));
}

// ------------------------------------------------------------------------------------------------
// The numbers of a plan.

/// KV-cache bytes for all layers at `n_ctx` tokens.
pub open spec fn kv_total(m: ModelInfoV, n_ctx: u32) -> nat {
    m.kv_bytes_per_token as nat * n_ctx as nat
}

/// Weights + KV.
pub open spec fn needed(m: ModelInfoV, n_ctx: u32) -> nat {
    weight_bytes_of(m) + kv_total(m, n_ctx)
}

/// KV bytes of one layer.
pub open spec fn kv_per_layer(m: ModelInfoV, n_ctx: u32) -> nat {
    if m.n_layer > 0 { kv_total(m, n_ctx) / (m.n_layer as nat) } else { 0 }
}

/// Largest element (0 for none).
pub open spec fn seq_max(s: Seq<u64>) -> nat
    decreases s.len(),
{
    if s.len() == 0 {
        0
    } else {
        let m = seq_max(s.drop_last());
        if s.last() as nat > m { s.last() as nat } else { m }
    }
}

/// The largest layer with its KV.
pub open spec fn min_layer(m: ModelInfoV, n_ctx: u32) -> nat {
    seq_max(m.layer_bytes) + kv_per_layer(m, n_ctx)
}

/// What a worker must bring: one layer and its compute reserve.
pub open spec fn min_worker(m: ModelInfoV, n_ctx: u32) -> nat {
    min_layer(m, n_ctx) + WORKER_COMPUTE_RESERVE_BYTES as nat
}

/// Why a device is not eligible.
#[derive(Debug, Clone, Copy, PartialEq, Eq, Structural)]
pub enum Why {
    Unsupported,
    Rtt,
    Thermal,
    Battery,
    Memory,
}

/// The first eligibility rule a device breaks, if any.
pub open spec fn why(d: DeviceCap, pol: Policy, mw: nat) -> Option<Why> {
    if !d.supported {
        Some(Why::Unsupported)
    } else if d.rtt_us_p95 > pol.max_rtt_us_p95 && !d.is_local {
        Some(Why::Rtt)
    } else if d.thermal_headroom_ppm + pol.min_thermal_headroom_margin_ppm > 1_000_000 {
        Some(Why::Thermal)
    } else if !d.charging && d.battery_milli_pct < pol.min_battery_milli_pct && !d.is_local {
        Some(Why::Battery)
    } else if (d.usable_bytes as nat) < mw {
        Some(Why::Memory)
    } else {
        None
    }
}

/// Whether a device passes every admission rule: supported; within the RTT limit unless it is this
/// machine; not throttling; charged above the floor, charging, or this machine; and holding at
/// least `mw` bytes.
pub open spec fn admissible(d: DeviceCap, pol: Policy, mw: nat) -> bool {
    &&& d.supported
    &&& (d.is_local || d.rtt_us_p95 <= pol.max_rtt_us_p95)
    &&& d.thermal_headroom_ppm + pol.min_thermal_headroom_margin_ppm <= 1_000_000
    &&& (d.is_local || d.charging || d.battery_milli_pct >= pol.min_battery_milli_pct)
    &&& d.usable_bytes >= mw
}

/// A device is refused exactly when it breaks an admission rule, and for battery only when it is
/// a remote device below the floor that is not charging: a charging device is never refused for
/// its battery, and one that passes the other rules is eligible.
pub proof fn law_rejection_rules(d: DeviceCap, pol: Policy, mw: nat)
    ensures
        why(d, pol, mw) is None <==> admissible(d, pol, mw),
        why(d, pol, mw) == Some(Why::Battery) ==>
            !d.charging && d.battery_milli_pct < pol.min_battery_milli_pct && !d.is_local,
        why(d, pol, mw) == Some(Why::Memory) ==> d.usable_bytes < mw,
{
}

/// Every admissible device of the list is among the eligible ones, and every eligible one is an
/// admissible device of the list.
pub proof fn law_eligible_devices(ds: Seq<DeviceCap>, pol: Policy, mw: nat)
    ensures
        forall|i: int| 0 <= i < ds.len() && admissible(ds[i], pol, mw) ==> eligible_of(ds, pol, mw).contains(#[trigger] ds[i]),
        forall|k: int| 0 <= k < eligible_of(ds, pol, mw).len() ==>
            admissible(#[trigger] eligible_of(ds, pol, mw)[k], pol, mw) && ds.contains(eligible_of(ds, pol, mw)[k]),
    decreases ds.len(),
{
    if ds.len() > 0 {
        let p = ds.drop_last();
        law_eligible_devices(p, pol, mw);
        let e = eligible_of(p, pol, mw);
        assert forall|i: int| 0 <= i < ds.len() && admissible(ds[i], pol, mw) implies eligible_of(ds, pol, mw).contains(#[trigger] ds[i]) by {
            if i < ds.len() - 1 {
                assert(p[i] == ds[i]);
                let k = choose|k: int| 0 <= k < e.len() && e[k] == ds[i];
                if why(ds.last(), pol, mw) is None {
                    assert(e.push(ds.last())[k] == ds[i]);
                }
            } else {
                assert(eligible_of(ds, pol, mw) == e.push(ds.last()));
                assert(e.push(ds.last())[e.len() as int] == ds[i]);
            }
        }
        assert forall|k: int| 0 <= k < eligible_of(ds, pol, mw).len() implies
            admissible(#[trigger] eligible_of(ds, pol, mw)[k], pol, mw) && ds.contains(eligible_of(ds, pol, mw)[k]) by {
            if k < e.len() {
                assert(eligible_of(ds, pol, mw)[k] == e[k]);
                let j = choose|j: int| 0 <= j < p.len() && p[j] == e[k];
                assert(ds[j] == p[j]);
            } else {
                assert(ds[ds.len() - 1] == ds.last());
            }
        }
    }
}

/// The reason shown for a rejected device.
pub open spec fn why_text(w: Why, d: DeviceCap, pol: Policy, ml: nat) -> Seq<char> {
    match w {
        Why::Unsupported => "rejected: unsupported device (needs arm64 with dotprod + i8mm and ≥ 8 GB, D015)"@,
        Why::Rtt => "rejected: RTT p95 "@ + signed_round_text(d.rtt_us_p95, 1000) + " ms > "@
            + signed_round_text(pol.max_rtt_us_p95, 1000) + " ms limit"@,
        Why::Thermal => "rejected: thermal headroom "@ + signed_hundredths_text(d.thermal_headroom_ppm, 1_000_000)
            + " (throttling)"@,
        Why::Battery => "rejected: battery "@ + signed_round_text(d.battery_milli_pct, 1000) + "% < "@
            + signed_round_text(pol.min_battery_milli_pct, 1000) + "% floor and not charging"@,
        Why::Memory => "rejected: "@ + gb(d.usable_bytes as nat) + " usable < one layer ("@ + gb(ml) + ") + "@
            + reserve_label(WORKER_COMPUTE_RESERVE_BYTES as nat),
    }
}

/// A rejected device's placement.
pub open spec fn rejected_v(d: DeviceCap, reason: Seq<char>) -> PlacementV {
    PlacementV {
        device_id: d.device_id@,
        name: d.name@,
        role: Role::Rejected,
        layer_start: 0,
        layer_end: 0,
        bytes: 0,
        split_weight_num: 0,
        split_weight_den: 1,
        compute_reserve_bytes: 0,
        reason,
    }
}

/// The eligible devices, in input order.
pub open spec fn eligible_of(ds: Seq<DeviceCap>, pol: Policy, mw: nat) -> Seq<DeviceCap>
    decreases ds.len(),
{
    if ds.len() == 0 {
        Seq::empty()
    } else {
        let e = eligible_of(ds.drop_last(), pol, mw);
        if why(ds.last(), pol, mw) is None { e.push(ds.last()) } else { e }
    }
}

/// The rejected devices' placements, in input order.
pub open spec fn rejects_of(ds: Seq<DeviceCap>, pol: Policy, mw: nat, ml: nat) -> Seq<PlacementV>
    decreases ds.len(),
{
    if ds.len() == 0 {
        Seq::empty()
    } else {
        let r = rejects_of(ds.drop_last(), pol, mw, ml);
        match why(ds.last(), pol, mw) {
            Some(w) => r.push(rejected_v(ds.last(), why_text(w, ds.last(), pol, ml))),
            None => r,
        }
    }
}

fn why_rejected(d: &DeviceCap, pol: &Policy, mw: u64) -> (r: Option<Why>)
    ensures
        r == why(*d, *pol, mw as nat),
{
    if !d.supported {
        Some(Why::Unsupported)
    } else if d.rtt_us_p95 > pol.max_rtt_us_p95 && !d.is_local {
        Some(Why::Rtt)
    } else if d.thermal_headroom_ppm as i128 + pol.min_thermal_headroom_margin_ppm as i128 > 1_000_000 {
        Some(Why::Thermal)
    } else if !d.charging && d.battery_milli_pct < pol.min_battery_milli_pct && !d.is_local {
        Some(Why::Battery)
    } else if d.usable_bytes < mw {
        Some(Why::Memory)
    } else {
        None
    }
}

fn why_reason(w: Why, d: &DeviceCap, pol: &Policy, ml: u64) -> (s: String)
    ensures
        s@ == why_text(w, *d, *pol, ml as nat),
{
    let mut s = String::new();
    match w {
        Why::Unsupported => {
            push_str(&mut s, "rejected: unsupported device (needs arm64 with dotprod + i8mm and ≥ 8 GB, D015)");
        }
        Why::Rtt => {
            push_str(&mut s, "rejected: RTT p95 ");
            push_signed_round(&mut s, d.rtt_us_p95, 1000);
            push_str(&mut s, " ms > ");
            push_signed_round(&mut s, pol.max_rtt_us_p95, 1000);
            push_str(&mut s, " ms limit");
        }
        Why::Thermal => {
            push_str(&mut s, "rejected: thermal headroom ");
            push_signed_hundredths(&mut s, d.thermal_headroom_ppm, 1_000_000);
            push_str(&mut s, " (throttling)");
        }
        Why::Battery => {
            push_str(&mut s, "rejected: battery ");
            push_signed_round(&mut s, d.battery_milli_pct, 1000);
            push_str(&mut s, "% < ");
            push_signed_round(&mut s, pol.min_battery_milli_pct, 1000);
            push_str(&mut s, "% floor and not charging");
        }
        Why::Memory => {
            push_str(&mut s, "rejected: ");
            push_gb(&mut s, d.usable_bytes);
            push_str(&mut s, " usable < one layer (");
            push_gb(&mut s, ml);
            push_str(&mut s, ") + ");
            push_reserve_label(&mut s, WORKER_COMPUTE_RESERVE_BYTES);
        }
    }
    proof {
        reveal_strlit("");
    }
    assert(s@ =~= why_text(w, *d, *pol, ml as nat));
    s
}

/// A rejected device's placement.
fn rejected(d: &DeviceCap, reason: String) -> (p: Placement)
    ensures
        p@ == rejected_v(*d, reason@),
{
    Placement {
        device_id: d.device_id.clone(),
        name: d.name.clone(),
        role: Role::Rejected,
        layer_start: 0,
        layer_end: 0,
        bytes: 0,
        split_weight_num: 0,
        split_weight_den: 1,
        compute_reserve_bytes: 0,
        reason,
    }
}

/// The devices at `idx`.
pub open spec fn pick(ds: Seq<DeviceCap>, idx: Seq<usize>) -> Seq<DeviceCap> {
    Seq::new(idx.len(), |k: int| ds[idx[k] as int])
}

/// Strictly increasing.
pub open spec fn ascending(s: Seq<usize>) -> bool {
    forall|a: int, b: int| 0 <= a < b < s.len() ==> s[a] < s[b]
}

/// No element occurs twice.
pub open spec fn distinct(s: Seq<usize>) -> bool {
    forall|a: int, b: int| 0 <= a < b < s.len() ==> s[a] != s[b]
}

/// Usable bytes of the devices at `idx`.
pub open spec fn isum(ds: Seq<DeviceCap>, idx: Seq<usize>) -> nat
    decreases idx.len(),
{
    if idx.len() == 0 { 0 } else { isum(ds, idx.drop_last()) + ds[idx.last() as int].usable_bytes as nat }
}

/// Taking one index out of a sum takes its device's bytes out.
proof fn lemma_isum_remove(ds: Seq<DeviceCap>, idx: Seq<usize>, p: int)
    requires
        0 <= p < idx.len(),
    ensures
        isum(ds, idx) == isum(ds, idx.remove(p)) + ds[idx[p] as int].usable_bytes as nat,
    decreases idx.len(),
{
    if p < idx.len() - 1 {
        lemma_isum_remove(ds, idx.drop_last(), p);
        assert(idx.remove(p).drop_last() =~= idx.drop_last().remove(p));
        assert(idx.remove(p).last() == idx.last());
    } else {
        assert(idx.remove(p) =~= idx.drop_last());
    }
}

/// Devices taken at distinct indices below `n` hold no more than the first `n` devices.
proof fn lemma_isum_le(ds: Seq<DeviceCap>, idx: Seq<usize>, n: int)
    requires
        0 <= n <= ds.len(),
        distinct(idx),
        forall|k: int| 0 <= k < idx.len() ==> (#[trigger] idx[k]) < n,
    ensures
        isum(ds, idx) <= sum_usable(ds.subrange(0, n)),
    decreases n,
{
    if n == 0 {
        if idx.len() > 0 {
            assert(idx[0] < 0);
        }
    } else {
        assert(ds.subrange(0, n).drop_last() =~= ds.subrange(0, n - 1));
        if exists|p: int| 0 <= p < idx.len() && idx[p] == n - 1 {
            let p = choose|p: int| 0 <= p < idx.len() && idx[p] == n - 1;
            let r = idx.remove(p);
            lemma_isum_remove(ds, idx, p);
            assert forall|k: int| 0 <= k < r.len() implies (#[trigger] r[k]) < n - 1 by {
                if k < p {
                    assert(r[k] == idx[k]);
                    assert(idx[k] != idx[p]);
                } else {
                    assert(r[k] == idx[k + 1]);
                    assert(idx[k + 1] != idx[p]);
                }
            }
            assert forall|a: int, b: int| 0 <= a < b < r.len() implies r[a] != r[b] by {
                let a2 = if a < p { a } else { a + 1 };
                let b2 = if b < p { b } else { b + 1 };
                assert(r[a] == idx[a2]);
                assert(r[b] == idx[b2]);
            }
            lemma_isum_le(ds, r, n - 1);
        } else {
            assert forall|k: int| 0 <= k < idx.len() implies (#[trigger] idx[k]) < n - 1 by {
                assert(idx[k] != n - 1);
            }
            lemma_isum_le(ds, idx, n - 1);
        }
    }
}

/// The pooled bytes of the first `k` devices taken at `idx` are a prefix sum.
proof fn lemma_pooled_pick(ds: Seq<DeviceCap>, idx: Seq<usize>, k: int)
    requires
        0 <= k <= idx.len(),
        forall|j: int| 0 <= j < idx.len() ==> (#[trigger] idx[j]) < ds.len(),
    ensures
        pooled(pick(ds, idx), k as nat) == isum(ds, idx.subrange(0, k)),
    decreases k,
{
    if k > 0 {
        lemma_pooled_pick(ds, idx, k - 1);
        assert(idx.subrange(0, k).drop_last() =~= idx.subrange(0, k - 1));
    }
}

/// A prefix sum never exceeds the whole.
proof fn lemma_isum_prefix(ds: Seq<DeviceCap>, idx: Seq<usize>, k: int)
    requires
        0 <= k <= idx.len(),
    ensures
        isum(ds, idx.subrange(0, k)) <= isum(ds, idx),
    decreases idx.len() - k,
{
    if k < idx.len() {
        lemma_isum_prefix(ds, idx.drop_last(), k);
        assert(idx.drop_last().subrange(0, k) =~= idx.subrange(0, k));
    } else {
        assert(idx.subrange(0, k) =~= idx);
    }
}

/// Splits the devices into the eligible ones (their indices) and the rejected ones' placements.
fn partition(ds: &[DeviceCap], pol: &Policy, mw: u64, ml: u64) -> (r: (Vec<usize>, Vec<Placement>))
    ensures
        pick(ds@, r.0@) == eligible_of(ds@, *pol, mw as nat),
        forall|k: int| 0 <= k < r.0@.len() ==> (#[trigger] r.0@[k]) < ds@.len(),
        ascending(r.0@),
        r.0@.len() <= ds@.len(),
        placements_view(r.1@) == rejects_of(ds@, *pol, mw as nat, ml as nat),
{
    let mut el: Vec<usize> = Vec::new();
    let mut rej: Vec<Placement> = Vec::new();
    let mut i: usize = 0;
    assert(pick(ds@, el@) =~= eligible_of(ds@.subrange(0, 0), *pol, mw as nat));
    assert(placements_view(rej@) =~= rejects_of(ds@.subrange(0, 0), *pol, mw as nat, ml as nat));
    while i < ds.len()
        invariant
            i <= ds@.len(),
            forall|k: int| 0 <= k < el@.len() ==> (#[trigger] el@[k]) < i,
            ascending(el@),
            el@.len() <= i,
            pick(ds@, el@) == eligible_of(ds@.subrange(0, i as int), *pol, mw as nat),
            placements_view(rej@) == rejects_of(ds@.subrange(0, i as int), *pol, mw as nat, ml as nat),
        decreases ds@.len() - i,
    {
        let ghost pre = ds@.subrange(0, i as int);
        let ghost cur = ds@.subrange(0, i + 1);
        assert(cur.drop_last() =~= pre);
        assert(cur.last() == ds@[i as int]);
        let ghost old_el = el@;
        let ghost old_rej = rej@;
        match why_rejected(&ds[i], pol, mw) {
            Some(w) => {
                let reason = why_reason(w, &ds[i], pol, ml);
                let p = rejected(&ds[i], reason);
                rej.push(p);
                assert(placements_view(rej@) =~= placements_view(old_rej).push(rej@.last()@));
                assert(pick(ds@, el@) =~= eligible_of(cur, *pol, mw as nat));
            }
            None => {
                el.push(i);
                assert(pick(ds@, el@) =~= pick(ds@, old_el).push(ds@[i as int]));
                assert(placements_view(rej@) =~= rejects_of(cur, *pol, mw as nat, ml as nat));
            }
        }
        i = i + 1;
    }
    assert(ds@.subrange(0, ds@.len() as int) =~= ds@);
    (el, rej)
}

// ------------------------------------------------------------------------------------------------
// The plan, as a function of its inputs.

/// Index of the first element satisfying `p`.
pub open spec fn first_idx<T>(s: Seq<T>, p: spec_fn(T) -> bool) -> Option<int> {
    if exists|i: int| 0 <= i < s.len() && p(s[i]) {
        Some(choose|i: int| 0 <= i < s.len() && p(s[i]) && forall|j: int| 0 <= j < i ==> !p(s[j]))
    } else {
        None
    }
}

/// A first index is unique: the one found by a scan is the one `first_idx` names.
pub proof fn lemma_first_idx<T>(s: Seq<T>, p: spec_fn(T) -> bool, i: int)
    requires
        0 <= i < s.len(),
        p(s[i]),
        forall|j: int| 0 <= j < i ==> !p(#[trigger] s[j]),
    ensures
        first_idx(s, p) == Some(i),
{
    let k = choose|k: int| 0 <= k < s.len() && p(s[k]) && forall|j: int| 0 <= j < k ==> !p(s[j]);
    assert(0 <= k < s.len() && p(s[k]) && forall|j: int| 0 <= j < k ==> !p(s[j]));
    if k < i {
        assert(!p(s[k]));
    }
    if i < k {
        assert(!p(s[i]));
    }
}

/// No element satisfies `p`: `first_idx` finds nothing.
pub proof fn lemma_first_idx_none<T>(s: Seq<T>, p: spec_fn(T) -> bool)
    requires
        forall|j: int| 0 <= j < s.len() ==> !p(#[trigger] s[j]),
    ensures
        first_idx(s, p) is None,
{
}

/// The device has id `w`.
pub open spec fn id_is(w: Seq<char>) -> spec_fn(DeviceCap) -> bool {
    |d: DeviceCap| d.device_id@ == w
}

/// The placement is for the device with id `w`.
pub open spec fn placed_id_is(w: Seq<char>) -> spec_fn(PlacementV) -> bool {
    |p: PlacementV| p.device_id == w
}

/// The device can host and is the requested host.
pub open spec fn pref_host(pol: Policy) -> spec_fn(DeviceCap) -> bool {
    |d: DeviceCap| d.can_host && is_pref(pol, d)
}

/// The device can host and is the local one.
pub open spec fn local_host() -> spec_fn(DeviceCap) -> bool {
    |d: DeviceCap| d.can_host && d.is_local
}

/// The device can host.
pub open spec fn any_host() -> spec_fn(DeviceCap) -> bool {
    |d: DeviceCap| d.can_host
}

/// The device has less usable memory than `x`.
pub open spec fn smaller_than(x: u64) -> spec_fn(DeviceCap) -> bool {
    |d: DeviceCap| d.usable_bytes < x
}

/// Whether `d` is the requested host.
pub open spec fn is_pref(pol: Policy, d: DeviceCap) -> bool {
    match pol.prefer_host {
        Some(w) => d.device_id@ == w@,
        None => false,
    }
}

/// Sum of the devices' usable bytes.
pub open spec fn sum_usable(ds: Seq<DeviceCap>) -> nat
    decreases ds.len(),
{
    if ds.len() == 0 { 0 } else { sum_usable(ds.drop_last()) + ds.last().usable_bytes as nat }
}

/// The refusal a requested host earns, if any.
pub open spec fn pref_error(el: Seq<DeviceCap>, rej: Seq<PlacementV>, pol: Policy) -> Option<PlanErrorV> {
    match pol.prefer_host {
        None => None,
        Some(w) => match first_idx(el, id_is(w@)) {
            None => Some(PlanErrorV::HostNotEligible {
                host: w@,
                reason: match first_idx(rej, placed_id_is(w@)) {
                    Some(k) => rej[k].reason,
                    None => "unknown or offline device"@,
                },
            }),
            Some(i) => if !el[i].can_host {
                Some(PlanErrorV::HostNotEligible { host: w@, reason: "compute-only worker (cannot run llama-server)"@ })
            } else {
                None
            },
        },
    }
}

/// What a single device hosting the whole model must hold: weights + KV + projector + host reserve.
pub open spec fn single_need(m: ModelInfoV, n_ctx: u32, pol: Policy) -> nat {
    needed(m, n_ctx) + pol.host_extra_bytes as nat + HOST_COMPUTE_RESERVE_BYTES as nat
}

/// Whether `d` can run the model alone.
pub open spec fn single_ok(d: DeviceCap, m: ModelInfoV, n_ctx: u32, pol: Policy) -> bool {
    &&& d.can_host
    &&& d.usable_bytes as nat >= single_need(m, n_ctx, pol)
    &&& (pol.prefer_host is None || is_pref(pol, d))
}

/// Whether `a` is preferred over `b` as the single device: faster measured speed, then the local
/// device. (The requested host, if any, is the only kind of candidate, so it needs no key.)
pub open spec fn beats(a: DeviceCap, b: DeviceCap) -> bool {
    a.bench_milli_tps > b.bench_milli_tps || (a.bench_milli_tps == b.bench_milli_tps && a.is_local && !b.is_local)
}

/// Whether `el[i]` is the device chosen to run the model alone: a candidate nobody beats, and the
/// first such in input order.
pub open spec fn is_best_single(el: Seq<DeviceCap>, i: int, m: ModelInfoV, n_ctx: u32, pol: Policy) -> bool {
    &&& 0 <= i < el.len()
    &&& single_ok(el[i], m, n_ctx, pol)
    &&& forall|j: int| 0 <= j < el.len() && single_ok(el[j], m, n_ctx, pol) ==> !beats(el[j], el[i])
    &&& forall|j: int| 0 <= j < i && single_ok(el[j], m, n_ctx, pol) ==> beats(el[i], el[j])
}

/// The device chosen to run the model alone, if any can.
pub open spec fn best_single(el: Seq<DeviceCap>, m: ModelInfoV, n_ctx: u32, pol: Policy) -> Option<int> {
    if exists|i: int| 0 <= i < el.len() && single_ok(el[i], m, n_ctx, pol) {
        Some(choose|i: int| is_best_single(el, i, m, n_ctx, pol))
    } else {
        None
    }
}

/// `" + projector 0.4 GB"` when there is a projector.
pub open spec fn projector_text(x: nat) -> Seq<char> {
    if x > 0 { " + projector "@ + gb(x) } else { Seq::empty() }
}

/// Why the single device was chosen.
#[verifier::opaque]
pub open spec fn single_reason(m: ModelInfoV, n_ctx: u32, pol: Policy, d: DeviceCap) -> Seq<char> {
    "fits on one device: needs "@ + gb(needed(m, n_ctx)) + " (weights "@ + gb(weight_bytes_of(m)) + " + KV "@
        + gb(kv_total(m, n_ctx)) + " @ "@ + dec(n_ctx as nat) + " ctx)"@ + projector_text(pol.host_extra_bytes as nat)
        + " + "@ + reserve_label(HOST_COMPUTE_RESERVE_BYTES as nat) + " = "@ + gb(single_need(m, n_ctx, pol))
        + ", has "@ + gb(d.usable_bytes as nat) + " usable — no network in the path"@
}

/// The other eligible devices of a single-device plan.
pub open spec fn not_needed_single(el: Seq<DeviceCap>, id: Seq<char>) -> Seq<PlacementV>
    decreases el.len(),
{
    if el.len() == 0 {
        Seq::empty()
    } else {
        let r = not_needed_single(el.drop_last(), id);
        if el.last().device_id@ != id {
            r.push(rejected_v(el.last(), "not needed: model fits on the host; adding a device would only add latency"@))
        } else {
            r
        }
    }
}

/// The summary of a plan that runs the model on `d` alone.
#[verifier::opaque]
pub open spec fn single_summary(m: ModelInfoV, n_ctx: u32, pol: Policy, d: DeviceCap) -> Seq<char> {
    m.name + " runs entirely on "@ + d.name@ + " ("@ + gb(single_need(m, n_ctx, pol)) + " of "@
        + gb(d.usable_bytes as nat) + " usable, incl. "@ + reserve_label(HOST_COMPUTE_RESERVE_BYTES as nat) + ")"@
}

/// The plan that runs the model on `d` alone.
pub open spec fn single_plan(m: ModelInfoV, el: Seq<DeviceCap>, rej: Seq<PlacementV>, d: DeviceCap, n_ctx: u32, pol: Policy) -> PlanV {
    let host = PlacementV {
        device_id: d.device_id@,
        name: d.name@,
        role: Role::Host,
        layer_start: 0,
        layer_end: m.n_layer,
        bytes: (needed(m, n_ctx) + pol.host_extra_bytes) as u64,
        split_weight_num: 1,
        split_weight_den: 1,
        compute_reserve_bytes: HOST_COMPUTE_RESERVE_BYTES,
        reason: single_reason(m, n_ctx, pol, d),
    };
    PlanV {
        model: m.name,
        mode: Mode::Single,
        n_ctx,
        host_id: d.device_id@,
        placements: seq![host] + not_needed_single(el, d.device_id@) + rej,
        summary: single_summary(m, n_ctx, pol, d),
        total_needed_bytes: single_need(m, n_ctx, pol) as u64,
        total_usable_bytes: d.usable_bytes,
    }
}

/// The host of a split: the requested one, else the local device, else the first that can host.
pub open spec fn split_host(el: Seq<DeviceCap>, pol: Policy) -> int {
    match first_idx(el, pref_host(pol)) {
        Some(i) => i,
        None => match first_idx(el, local_host()) {
            Some(i) => i,
            None => first_idx(el, any_host())->0,
        },
    }
}

/// The eligible devices other than the host (by id), in input order.
pub open spec fn without_id(el: Seq<DeviceCap>, id: Seq<char>) -> Seq<DeviceCap>
    decreases el.len(),
{
    if el.len() == 0 {
        Seq::empty()
    } else {
        let r = without_id(el.drop_last(), id);
        if el.last().device_id@ != id { r.push(el.last()) } else { r }
    }
}

/// Where `x` goes in a list sorted by usable memory, largest first: before the first smaller one.
pub open spec fn insert_pos(s: Seq<DeviceCap>, x: DeviceCap) -> int {
    match first_idx(s, smaller_than(x.usable_bytes)) {
        Some(i) => i,
        None => s.len() as int,
    }
}

/// Stable sort by usable memory, largest first.
pub open spec fn sort_desc(s: Seq<DeviceCap>) -> Seq<DeviceCap>
    decreases s.len(),
{
    if s.len() == 0 {
        Seq::empty()
    } else {
        let t = sort_desc(s.drop_last());
        let p = insert_pos(t, s.last());
        t.subrange(0, p) + seq![s.last()] + t.subrange(p, t.len() as int)
    }
}

/// Bytes of layer `l` with its KV.
pub open spec fn lw(m: ModelInfoV, kvpl: nat, l: nat) -> nat {
    m.layer_bytes[l as int] as nat + kvpl
}

/// Greedy fill: from layer `start`, take consecutive layers while they fit in `cap`; the end.
pub open spec fn fill_end(m: ModelInfoV, kvpl: nat, start: nat, cap: nat) -> nat
    decreases m.n_layer - start,
{
    if start < m.n_layer && lw(m, kvpl, start) <= cap {
        fill_end(m, kvpl, start + 1, (cap - lw(m, kvpl, start)) as nat)
    } else {
        start
    }
}

/// Bytes of layers `a..b` with their KV.
pub open spec fn range_w(m: ModelInfoV, kvpl: nat, a: nat, b: nat) -> nat
    decreases b - a,
{
    if a < b { range_w(m, kvpl, a, (b - 1) as nat) + lw(m, kvpl, (b - 1) as nat) } else { 0 }
}

/// Bytes the host holds besides its layers: non-layer tensors + projector.
pub open spec fn host_fixed(m: ModelInfoV, pol: Policy) -> nat {
    m.non_layer_bytes as nat + pol.host_extra_bytes as nat
}

/// What the `k`-th device of a split may take in layers.
pub open spec fn dev_cap(dd: Seq<DeviceCap>, k: int, hf: nat) -> nat {
    let u = dd[k].usable_bytes as nat;
    if k == 0 {
        if u >= hf + HOST_COMPUTE_RESERVE_BYTES { (u - hf - HOST_COMPUTE_RESERVE_BYTES) as nat } else { 0 }
    } else {
        if u >= WORKER_COMPUTE_RESERVE_BYTES { (u - WORKER_COMPUTE_RESERVE_BYTES) as nat } else { 0 }
    }
}

/// First layer of the `k`-th device of a split.
pub open spec fn start_of(m: ModelInfoV, kvpl: nat, dd: Seq<DeviceCap>, hf: nat, k: nat) -> nat
    decreases k,
{
    if k == 0 {
        0
    } else {
        fill_end(m, kvpl, start_of(m, kvpl, dd, hf, (k - 1) as nat), dev_cap(dd, k - 1, hf))
    }
}

/// Usable bytes of the first `k` devices.
pub open spec fn pooled(dd: Seq<DeviceCap>, k: nat) -> nat
    decreases k,
{
    if k == 0 { 0 } else { pooled(dd, (k - 1) as nat) + dd[k - 1].usable_bytes as nat }
}

/// Bytes the `k`-th device of a split holds (weights + KV, and the fixed tensors on the host).
pub open spec fn dev_bytes(m: ModelInfoV, kvpl: nat, dd: Seq<DeviceCap>, hf: nat, k: nat) -> nat {
    range_w(m, kvpl, start_of(m, kvpl, dd, hf, k), start_of(m, kvpl, dd, hf, k + 1)) + (if k == 0 { hf } else { 0 })
}

/// Sum of the bytes of the first `k` devices of a split.
pub open spec fn bytes_upto(m: ModelInfoV, kvpl: nat, dd: Seq<DeviceCap>, hf: nat, k: nat) -> nat
    decreases k,
{
    if k == 0 { 0 } else { bytes_upto(m, kvpl, dd, hf, (k - 1) as nat) + dev_bytes(m, kvpl, dd, hf, (k - 1) as nat) }
}

/// Why a device of a split holds what it holds: `host` tells the host from a worker, `st..en` are
/// its layers, `b` its bytes, `hf` the host's fixed bytes, `extra` the projector's.
#[verifier::opaque]
pub open spec fn split_reason_of(host: bool, st: nat, en: nat, b: nat, hf: nat, extra: nat, d: DeviceCap) -> Seq<char> {
    let last = if en >= 1 { (en - 1) as nat } else { 0 };
    let n = if en >= st { (en - st) as nat } else { 0 };
    if host {
        "host: layers "@ + dec(st) + "–"@ + dec(last) + " ("@ + dec(n) + " layers) + embeddings/output"@
            + (if extra > 0 { "/projector"@ } else { Seq::empty() }) + " ("@ + gb(hf) + ") + "@
            + reserve_label(HOST_COMPUTE_RESERVE_BYTES as nat) + " = "@ + gb(b + HOST_COMPUTE_RESERVE_BYTES as nat) + " of "@
            + gb(d.usable_bytes as nat) + " usable"@
    } else {
        "worker: layers "@ + dec(st) + "–"@ + dec(last) + " ("@ + dec(n) + " layers) + "@
            + reserve_label(WORKER_COMPUTE_RESERVE_BYTES as nat) + " = "@ + gb(b + WORKER_COMPUTE_RESERVE_BYTES as nat) + " of "@
            + gb(d.usable_bytes as nat) + " usable; RTT p95 "@ + signed_round_text(d.rtt_us_p95, 1000) + " ms"@
    }
}

/// Why the `k`-th device of a split holds what it holds.
pub open spec fn split_reason(m: ModelInfoV, kvpl: nat, dd: Seq<DeviceCap>, hf: nat, pol: Policy, k: nat) -> Seq<char> {
    split_reason_of(k == 0, start_of(m, kvpl, dd, hf, k), start_of(m, kvpl, dd, hf, k + 1),
        dev_bytes(m, kvpl, dd, hf, k), hf, pol.host_extra_bytes as nat, dd[k as int])
}

/// The placement of the `i`-th device of a split.
pub open spec fn split_entry(m: ModelInfoV, kvpl: nat, dd: Seq<DeviceCap>, hf: nat, pol: Policy, den: nat, i: nat) -> PlacementV {
    let b = dev_bytes(m, kvpl, dd, hf, i);
    PlacementV {
        device_id: dd[i as int].device_id@,
        name: dd[i as int].name@,
        role: if i == 0 { Role::Host } else { Role::Worker },
        layer_start: start_of(m, kvpl, dd, hf, i) as u32,
        layer_end: start_of(m, kvpl, dd, hf, i + 1) as u32,
        bytes: b as u64,
        split_weight_num: b as u64,
        split_weight_den: den as u64,
        compute_reserve_bytes: if i == 0 { HOST_COMPUTE_RESERVE_BYTES } else { WORKER_COMPUTE_RESERVE_BYTES },
        reason: split_reason(m, kvpl, dd, hf, pol, i),
    }
}

/// The placements of the first `k` devices of a split that hold something (the host always).
pub open spec fn split_used(m: ModelInfoV, kvpl: nat, dd: Seq<DeviceCap>, hf: nat, pol: Policy, den: nat, k: nat) -> Seq<PlacementV>
    decreases k,
{
    if k == 0 {
        Seq::empty()
    } else {
        let i = (k - 1) as nat;
        let r = split_used(m, kvpl, dd, hf, pol, den, i);
        if i == 0 || start_of(m, kvpl, dd, hf, k) > start_of(m, kvpl, dd, hf, i) {
            r.push(split_entry(m, kvpl, dd, hf, pol, den, i))
        } else {
            r
        }
    }
}

/// The devices of a split after the last one used.
pub open spec fn not_needed_split(dd: Seq<DeviceCap>, from: int) -> Seq<PlacementV> {
    Seq::new(
        (dd.len() - from) as nat,
        |i: int| rejected_v(dd[from + i], "not needed: pooled memory already holds the model; fewer devices = fewer network hops"@),
    )
}

/// The devices of a split, in the order they are filled: host first, then the others by usable
/// memory, largest first.
pub open spec fn split_devices(el: Seq<DeviceCap>, pol: Policy) -> Seq<DeviceCap> {
    let h = el[split_host(el, pol)];
    seq![h] + sort_desc(without_id(el, h.device_id@))
}

/// Whether the split is complete with device `k` (every layer placed).
pub open spec fn done_at(m: ModelInfoV, kvpl: nat, dd: Seq<DeviceCap>, hf: nat, k: int) -> bool {
    0 <= k < dd.len() && start_of(m, kvpl, dd, hf, (k + 1) as nat) >= m.n_layer
}

/// The first device with which the split is complete.
pub open spec fn first_done(m: ModelInfoV, kvpl: nat, dd: Seq<DeviceCap>, hf: nat) -> Option<int> {
    if exists|k: int| done_at(m, kvpl, dd, hf, k) {
        Some(choose|k: int| done_at(m, kvpl, dd, hf, k) && forall|j: int| 0 <= j < k ==> !done_at(m, kvpl, dd, hf, j))
    } else {
        None
    }
}

/// The summary of a split over `n_used` devices that pool `pool` bytes.
#[verifier::opaque]
pub open spec fn split_summary(m: ModelInfoV, n_ctx: u32, pol: Policy, n_used: nat, pool: nat) -> Seq<char> {
    m.name + " split across "@ + dec(n_used) + " devices: needs "@
        + gb((needed(m, n_ctx) + pol.host_extra_bytes) as nat) + " (weights "@ + gb(weight_bytes_of(m)) + " + KV "@
        + gb(kv_total(m, n_ctx)) + " @ "@ + dec(n_ctx as nat) + " ctx"@ + projector_text(pol.host_extra_bytes as nat)
        + ") + compute reserves (estimate), pooled "@ + gb(pool)
}

/// The split plan, or why the devices cannot hold the model.
#[verifier::opaque]
pub open spec fn split_result(m: ModelInfoV, el: Seq<DeviceCap>, rej: Seq<PlacementV>, n_ctx: u32, pol: Policy) -> Result<PlanV, PlanErrorV> {
    let dd = split_devices(el, pol);
    let h = dd[0];
    let hf = host_fixed(m, pol);
    let kvpl = kv_per_layer(m, n_ctx);
    if h.usable_bytes as nat <= hf + HOST_COMPUTE_RESERVE_BYTES {
        Err(PlanErrorV::HostTooSmall { host: h.name@, usable: h.usable_bytes, fixed: (hf + HOST_COMPUTE_RESERVE_BYTES) as u64 })
    } else {
        match first_done(m, kvpl, dd, hf) {
            None => Err(PlanErrorV::DoesNotFit {
                needed: (needed(m, n_ctx) + pol.host_extra_bytes + HOST_COMPUTE_RESERVE_BYTES
                    + WORKER_COMPUTE_RESERVE_BYTES * (dd.len() - 1)) as u64,
                available: pooled(dd, dd.len()) as u64,
            }),
            Some(kk) => {
                let k = kk as nat;
                let total = bytes_upto(m, kvpl, dd, hf, k + 1);
                let den = if total >= 1 { total } else { 1 };
                let used = split_used(m, kvpl, dd, hf, pol, den, k + 1);
                let pool = pooled(dd, k + 1);
                Ok(PlanV {
                    model: m.name,
                    mode: Mode::LayerSplit,
                    n_ctx,
                    host_id: h.device_id@,
                    placements: used + not_needed_split(dd, (k + 1) as int) + rej,
                    summary: split_summary(m, n_ctx, pol, used.len(), pool),
                    total_needed_bytes: (needed(m, n_ctx) + pol.host_extra_bytes + HOST_COMPUTE_RESERVE_BYTES
                        + WORKER_COMPUTE_RESERVE_BYTES * (used.len() - 1)) as u64,
                    total_usable_bytes: pool as u64,
                })
            },
        }
    }
}

/// The plan for `m` on `ds` at `n_ctx` tokens of context, or why there is none.
#[verifier::opaque]
pub open spec fn plan_spec(m: ModelInfoV, ds: Seq<DeviceCap>, n_ctx: u32, pol: Policy) -> Result<PlanV, PlanErrorV> {
    let mw = min_worker(m, n_ctx);
    let ml = min_layer(m, n_ctx);
    let el = eligible_of(ds, pol, mw);
    let rej = rejects_of(ds, pol, mw, ml);
    if el.len() == 0 {
        Err(PlanErrorV::NoDevices)
    } else if pref_error(el, rej, pol) is Some {
        Err(pref_error(el, rej, pol)->0)
    } else if !(exists|i: int| 0 <= i < el.len() && el[i].can_host) {
        Err(PlanErrorV::NoHost)
    } else {
        match best_single(el, m, n_ctx, pol) {
            Some(i) => Ok(single_plan(m, el, rej, el[i], n_ctx, pol)),
            None => split_result(m, el, rej, n_ctx, pol),
        }
    }
}

/// The inputs on which planning stays within 64-bit arithmetic.
pub open spec fn plan_bounds(m: ModelInfoV, ds: Seq<DeviceCap>, n_ctx: u32, pol: Policy) -> bool {
    &&& needed(m, n_ctx) + pol.host_extra_bytes + HOST_COMPUTE_RESERVE_BYTES + WORKER_COMPUTE_RESERVE_BYTES * (ds.len() + 1) <= u64::MAX
    &&& sum_usable(ds) <= u64::MAX
    &&& m.n_layer <= m.layer_bytes.len()
}

/// Planning within 64-bit arithmetic at some context stays within it at any shorter context.
pub proof fn lemma_plan_bounds_shorter(m: ModelInfoV, ds: Seq<DeviceCap>, c1: u32, c2: u32, pol: Policy)
    requires
        plan_bounds(m, ds, c1, pol),
        c2 <= c1,
    ensures
        plan_bounds(m, ds, c2, pol),
{
    assert(m.kv_bytes_per_token as nat * c2 as nat <= m.kv_bytes_per_token as nat * c1 as nat) by (nonlinear_arith)
        requires
            c2 <= c1,
    ;
}

/// A prefix of the devices never brings more usable bytes than all of them.
proof fn lemma_sum_usable_prefix(ds: Seq<DeviceCap>, k: int)
    requires
        0 <= k <= ds.len(),
    ensures
        sum_usable(ds.subrange(0, k)) <= sum_usable(ds),
    decreases ds.len() - k,
{
    if k < ds.len() {
        lemma_sum_usable_prefix(ds.drop_last(), k);
        assert(ds.drop_last().subrange(0, k) =~= ds.subrange(0, k));
    } else {
        assert(ds.subrange(0, k) =~= ds);
    }
}

/// Whether planning `model` on `devices` stays within 64-bit arithmetic (see [`plan_bounds`]):
/// the test to make before [`plan`].
pub fn plan_in_bounds(model: &ModelInfo, devices: &[DeviceCap], n_ctx: u32, policy: &Policy) -> (r: bool)
    ensures
        r == plan_bounds(model@, devices@, n_ctx, *policy),
{
    let ghost m = model@;
    if model.n_layer as usize > model.layer_bytes.len() {
        return false;
    }
    let mut w: u128 = model.non_layer_bytes as u128;
    let mut i: usize = 0;
    while i < model.layer_bytes.len() && w <= 0xffff_ffff_ffff_ffff
        invariant
            i <= m.layer_bytes.len(),
            m == model@,
            w == m.non_layer_bytes as nat + sum(m.layer_bytes.subrange(0, i as int)),
            w <= 0xffff_ffff_ffff_ffff + 0xffff_ffff_ffff_ffff,
        decreases m.layer_bytes.len() - i,
    {
        assert(m.layer_bytes.subrange(0, i + 1).drop_last() =~= m.layer_bytes.subrange(0, i as int));
        w = w + model.layer_bytes[i] as u128;
        i = i + 1;
    }
    if w > 0xffff_ffff_ffff_ffff {
        proof {
            lemma_sum_prefix_le(m.layer_bytes, i as int);
        }
        return false;
    }
    assert(m.layer_bytes.subrange(0, i as int) =~= m.layer_bytes);
    assert(model.kv_bytes_per_token as nat * n_ctx as nat <= 0xffff_ffff_ffff_ffff * 0xffff_ffff) by (nonlinear_arith);
    let kv: u128 = model.kv_bytes_per_token as u128 * n_ctx as u128;
    let total: u128 = w + kv + policy.host_extra_bytes as u128 + HOST_COMPUTE_RESERVE_BYTES as u128
        + WORKER_COMPUTE_RESERVE_BYTES as u128 * (devices.len() as u128 + 1);
    if total > 0xffff_ffff_ffff_ffff {
        return false;
    }
    let mut u: u128 = 0;
    let mut j: usize = 0;
    assert(devices@.subrange(0, 0) =~= Seq::<DeviceCap>::empty());
    while j < devices.len() && u <= 0xffff_ffff_ffff_ffff
        invariant
            j <= devices@.len(),
            u == sum_usable(devices@.subrange(0, j as int)),
            u <= 0xffff_ffff_ffff_ffff + 0xffff_ffff_ffff_ffff,
        decreases devices@.len() - j,
    {
        assert(devices@.subrange(0, j + 1).drop_last() =~= devices@.subrange(0, j as int));
        u = u + devices[j].usable_bytes as u128;
        j = j + 1;
    }
    proof {
        lemma_sum_usable_prefix(devices@, j as int);
        if j == devices@.len() {
            assert(devices@.subrange(0, j as int) =~= devices@);
        }
    }
    u <= 0xffff_ffff_ffff_ffff
}

// ------------------------------------------------------------------------------------------------
// Computing the plan.

/// The largest element is at most the sum.
proof fn lemma_max_le_sum(s: Seq<u64>)
    ensures
        seq_max(s) <= sum(s),
    decreases s.len(),
{
    if s.len() > 0 {
        lemma_max_le_sum(s.drop_last());
    }
}

/// The largest layer (0 for none).
fn max_layer(v: &Vec<u64>) -> (r: u64)
    ensures
        r == seq_max(v@),
{
    let mut m: u64 = 0;
    let mut i: usize = 0;
    while i < v.len()
        invariant
            i <= v@.len(),
            m == seq_max(v@.subrange(0, i as int)),
        decreases v@.len() - i,
    {
        assert(v@.subrange(0, i + 1).drop_last() =~= v@.subrange(0, i as int));
        if v[i] > m {
            m = v[i];
        }
        i = i + 1;
    }
    assert(v@.subrange(0, v@.len() as int) =~= v@);
    m
}

/// Whether `d` is the requested host.
fn is_pref_exec(pol: &Policy, d: &DeviceCap) -> (r: bool)
    ensures
        r == is_pref(*pol, *d),
{
    match &pol.prefer_host {
        Some(w) => d.device_id == *w,
        None => false,
    }
}

/// The refusal a requested host earns, if any.
fn pref_check(ds: &[DeviceCap], el: &Vec<usize>, rej: &Vec<Placement>, pol: &Policy) -> (r: Option<PlanError>)
    requires
        forall|k: int| 0 <= k < el@.len() ==> (#[trigger] el@[k]) < ds@.len(),
    ensures
        pref_error(pick(ds@, el@), placements_view(rej@), *pol) == (match r {
            Some(e) => Some(e@),
            None => None,
        }),
{
    let ghost s = pick(ds@, el@);
    let ghost rv = placements_view(rej@);
    match &pol.prefer_host {
        None => None,
        Some(w) => {
            let mut k: usize = 0;
            while k < el.len() && !(ds[el[k]].device_id == *w)
                invariant
                    k <= el@.len(),
                    s == pick(ds@, el@),
                    forall|j: int| 0 <= j < el@.len() ==> (#[trigger] el@[j]) < ds@.len(),
                    forall|j: int| 0 <= j < k ==> !id_is(w@)(#[trigger] s[j]),
                decreases el@.len() - k,
            {
                k = k + 1;
            }
            if k < el.len() {
                proof {
                    lemma_first_idx(s, id_is(w@), k as int);
                }
                if !ds[el[k]].can_host {
                    let mut host = String::new();
                    push_str(&mut host, w.as_str());
                    let mut reason = String::new();
                    push_str(&mut reason, "compute-only worker (cannot run llama-server)");
                    proof {
                        reveal_strlit("");
                        assert(host@ =~= w@);
                        assert(reason@ =~= "compute-only worker (cannot run llama-server)"@);
                    }
                    Some(PlanError::HostNotEligible { host, reason })
                } else {
                    None
                }
            } else {
                proof {
                    lemma_first_idx_none(s, id_is(w@));
                }
                let mut q: usize = 0;
                while q < rej.len() && !(rej[q].device_id == *w)
                    invariant
                        q <= rej@.len(),
                        rv == placements_view(rej@),
                        forall|j: int| 0 <= j < q ==> !placed_id_is(w@)(#[trigger] rv[j]),
                    decreases rej@.len() - q,
                {
                    q = q + 1;
                }
                let mut host = String::new();
                push_str(&mut host, w.as_str());
                let mut reason = String::new();
                if q < rej.len() {
                    proof {
                        lemma_first_idx(rv, placed_id_is(w@), q as int);
                    }
                    push_str(&mut reason, rej[q].reason.as_str());
                } else {
                    proof {
                        lemma_first_idx_none(rv, placed_id_is(w@));
                    }
                    push_str(&mut reason, "unknown or offline device");
                }
                proof {
                    reveal_strlit("");
                    assert(host@ =~= w@);
                }
                Some(PlanError::HostNotEligible { host, reason })
            }
        },
    }
}

/// Whether any eligible device can host.
fn any_can_host(ds: &[DeviceCap], el: &Vec<usize>) -> (r: bool)
    requires
        forall|k: int| 0 <= k < el@.len() ==> (#[trigger] el@[k]) < ds@.len(),
    ensures
        r == exists|i: int| 0 <= i < el@.len() && pick(ds@, el@)[i].can_host,
{
    let mut k: usize = 0;
    while k < el.len()
        invariant
            k <= el@.len(),
            forall|j: int| 0 <= j < el@.len() ==> (#[trigger] el@[j]) < ds@.len(),
            forall|j: int| 0 <= j < k ==> !(#[trigger] pick(ds@, el@)[j]).can_host,
        decreases el@.len() - k,
    {
        if ds[el[k]].can_host {
            assert(pick(ds@, el@)[k as int].can_host);
            return true;
        }
        k = k + 1;
    }
    false
}

/// The single device chosen by a scan is the one `best_single` names.
proof fn lemma_best_single(el: Seq<DeviceCap>, i: int, m: ModelInfoV, n_ctx: u32, pol: Policy)
    requires
        is_best_single(el, i, m, n_ctx, pol),
    ensures
        best_single(el, m, n_ctx, pol) == Some(i),
{
    let k = choose|k: int| is_best_single(el, k, m, n_ctx, pol);
    assert(is_best_single(el, k, m, n_ctx, pol));
    if k < i {
        assert(beats(el[i], el[k]));
    }
    if i < k {
        assert(beats(el[k], el[i]));
    }
}

/// The position in `el` of the device that runs the model alone, if any can.
fn pick_single(ds: &[DeviceCap], el: &Vec<usize>, model: &ModelInfo, n_ctx: u32, pol: &Policy, need: u64) -> (r: Option<usize>)
    requires
        forall|k: int| 0 <= k < el@.len() ==> (#[trigger] el@[k]) < ds@.len(),
        need == single_need(model@, n_ctx, *pol),
    ensures
        best_single(pick(ds@, el@), model@, n_ctx, *pol) == (match r {
            Some(i) => Some(i as int),
            None => None,
        }),
        r matches Some(i) ==> i < el@.len(),
{
    let ghost s = pick(ds@, el@);
    let ghost m = model@;
    let mut best: Option<usize> = None;
    let mut k: usize = 0;
    while k < el.len()
        invariant
            k <= el@.len(),
            s == pick(ds@, el@),
            m == model@,
            need == single_need(m, n_ctx, *pol),
            forall|j: int| 0 <= j < el@.len() ==> (#[trigger] el@[j]) < ds@.len(),
            best is None ==> forall|j: int| 0 <= j < k ==> !single_ok(#[trigger] s[j], m, n_ctx, *pol),
            best matches Some(b) ==> {
                &&& b < k
                &&& single_ok(s[b as int], m, n_ctx, *pol)
                &&& forall|j: int| 0 <= j < k && single_ok(s[j], m, n_ctx, *pol) ==> !beats(#[trigger] s[j], s[b as int])
                &&& forall|j: int| 0 <= j < b && single_ok(s[j], m, n_ctx, *pol) ==> beats(s[b as int], #[trigger] s[j])
            },
        decreases el@.len() - k,
    {
        let d = &ds[el[k]];
        assert(*d == s[k as int]);
        let cand = d.can_host && d.usable_bytes >= need && (pol.prefer_host.is_none() || is_pref_exec(pol, d));
        assert(cand == single_ok(s[k as int], m, n_ctx, *pol));
        if cand {
            match best {
                None => {
                    best = Some(k);
                },
                Some(b) => {
                    let e = &ds[el[b]];
                    assert(*e == s[b as int]);
                    if d.bench_milli_tps > e.bench_milli_tps || (d.bench_milli_tps == e.bench_milli_tps && d.is_local && !e.is_local) {
                        best = Some(k);
                    }
                },
            }
        }
        k = k + 1;
    }
    match best {
        Some(b) => {
            proof {
                lemma_best_single(s, b as int, m, n_ctx, *pol);
            }
        },
        None => {},
    }
    best
}

/// Position in `el` of the host of a split.
fn find_host(ds: &[DeviceCap], el: &Vec<usize>, pol: &Policy) -> (hi: usize)
    requires
        forall|k: int| 0 <= k < el@.len() ==> (#[trigger] el@[k]) < ds@.len(),
        exists|i: int| 0 <= i < el@.len() && pick(ds@, el@)[i].can_host,
    ensures
        hi == split_host(pick(ds@, el@), *pol),
        hi < el@.len(),
{
    let ghost s = pick(ds@, el@);
    let mut k: usize = 0;
    while k < el.len() && !(ds[el[k]].can_host && is_pref_exec(pol, &ds[el[k]]))
        invariant
            k <= el@.len(),
            s == pick(ds@, el@),
            forall|j: int| 0 <= j < el@.len() ==> (#[trigger] el@[j]) < ds@.len(),
            forall|j: int| 0 <= j < k ==> !pref_host(*pol)(#[trigger] s[j]),
        decreases el@.len() - k,
    {
        k = k + 1;
    }
    if k < el.len() {
        proof {
            lemma_first_idx(s, pref_host(*pol), k as int);
        }
        return k;
    }
    proof {
        lemma_first_idx_none(s, pref_host(*pol));
    }
    k = 0;
    while k < el.len() && !(ds[el[k]].can_host && ds[el[k]].is_local)
        invariant
            k <= el@.len(),
            s == pick(ds@, el@),
            forall|j: int| 0 <= j < el@.len() ==> (#[trigger] el@[j]) < ds@.len(),
            forall|j: int| 0 <= j < k ==> !local_host()(#[trigger] s[j]),
        decreases el@.len() - k,
    {
        k = k + 1;
    }
    if k < el.len() {
        proof {
            lemma_first_idx(s, local_host(), k as int);
        }
        return k;
    }
    proof {
        lemma_first_idx_none(s, local_host());
    }
    k = 0;
    while k < el.len() && !ds[el[k]].can_host
        invariant
            k <= el@.len(),
            s == pick(ds@, el@),
            forall|j: int| 0 <= j < el@.len() ==> (#[trigger] el@[j]) < ds@.len(),
            forall|j: int| 0 <= j < k ==> !any_host()(#[trigger] s[j]),
            exists|i: int| 0 <= i < el@.len() && s[i].can_host,
        decreases el@.len() - k,
    {
        k = k + 1;
    }
    if k == el.len() {
        let ghost i = choose|i: int| 0 <= i < el@.len() && s[i].can_host;
        assert(!any_host()(s[i]));
    }
    proof {
        lemma_first_idx(s, any_host(), k as int);
    }
    k
}

/// Inserts device `x` into a list kept by usable memory, largest first, before the first smaller
/// one.
#[verifier::spinoff_prover]
#[verifier::rlimit(30)]
fn insert_by_memory(ds: &[DeviceCap], oth: &mut Vec<usize>, x: usize, Ghost(hid): Ghost<Seq<char>>)
    requires
        x < ds@.len(),
        forall|a: int| 0 <= a < old(oth)@.len() ==> (#[trigger] old(oth)@[a]) < x,
        distinct(old(oth)@),
        ds@[x as int].device_id@ != hid,
        forall|a: int| 0 <= a < old(oth)@.len() ==> (#[trigger] ds@[old(oth)@[a] as int]).device_id@ != hid,
    ensures
        ({
            let t = pick(ds@, old(oth)@);
            let p = insert_pos(t, ds@[x as int]);
            pick(ds@, final(oth)@) == t.subrange(0, p) + seq![ds@[x as int]] + t.subrange(p, t.len() as int)
        }),
        final(oth)@.len() == old(oth)@.len() + 1,
        forall|a: int| 0 <= a < final(oth)@.len() ==> (#[trigger] final(oth)@[a]) <= x,
        distinct(final(oth)@),
        forall|a: int| 0 <= a < final(oth)@.len() ==> (#[trigger] ds@[final(oth)@[a] as int]).device_id@ != hid,
{
    let ghost t = pick(ds@, oth@);
    let mut p: usize = 0;
    while p < oth.len() && !(ds[oth[p]].usable_bytes < ds[x].usable_bytes)
        invariant
            p <= oth@.len(),
            t == pick(ds@, oth@),
            x < ds@.len(),
            forall|a: int| 0 <= a < oth@.len() ==> (#[trigger] oth@[a]) < x,
            forall|j: int| 0 <= j < p ==> !smaller_than(ds@[x as int].usable_bytes)(#[trigger] t[j]),
        decreases oth@.len() - p,
    {
        p = p + 1;
    }
    if p < oth.len() {
        proof {
            lemma_first_idx(t, smaller_than(ds@[x as int].usable_bytes), p as int);
        }
    } else {
        proof {
            lemma_first_idx_none(t, smaller_than(ds@[x as int].usable_bytes));
        }
    }
    let ghost old_oth = oth@;
    oth.insert(p, x);
    assert(pick(ds@, oth@) =~= t.subrange(0, p as int) + seq![ds@[x as int]] + t.subrange(p as int, t.len() as int));
    assert forall|a: int| 0 <= a < oth@.len() implies (#[trigger] oth@[a]) <= x
        && ds@[oth@[a] as int].device_id@ != hid by {
        if a < p {
            assert(oth@[a] == old_oth[a]);
        } else if a > p {
            assert(oth@[a] == old_oth[a - 1]);
        }
    }
    assert forall|a: int, b: int| 0 <= a < b < oth@.len() implies oth@[a] != oth@[b] by {
        if a < p && b < p {
            assert(old_oth[a] != old_oth[b]);
        } else if a < p && b == p {
            assert(old_oth[a] < x);
        } else if a < p {
            assert(old_oth[a] != old_oth[b - 1]);
        } else if a == p {
            assert(old_oth[b - 1] < x);
        } else {
            assert(old_oth[a - 1] != old_oth[b - 1]);
        }
    }
}

/// The eligible devices other than the host, by usable memory, largest first (as indices).
#[verifier::spinoff_prover]
#[verifier::rlimit(60)]
fn order_others(ds: &[DeviceCap], el: &Vec<usize>, hi: usize) -> (r: Vec<usize>)
    requires
        forall|k: int| 0 <= k < el@.len() ==> (#[trigger] el@[k]) < ds@.len(),
        ascending(el@),
        hi < el@.len(),
    ensures
        pick(ds@, r@) == sort_desc(without_id(pick(ds@, el@), ds@[el@[hi as int] as int].device_id@)),
        forall|k: int| 0 <= k < r@.len() ==> (#[trigger] r@[k]) < ds@.len(),
        distinct(r@),
        forall|k: int| 0 <= k < r@.len() ==> (#[trigger] ds@[r@[k] as int]).device_id@ != ds@[el@[hi as int] as int].device_id@,
        r@.len() < el@.len(),
{
    let ghost s = pick(ds@, el@);
    let hid = &ds[el[hi]].device_id;
    let mut oth: Vec<usize> = Vec::new();
    let mut k: usize = 0;
    assert(pick(ds@, oth@) =~= sort_desc(without_id(s.subrange(0, 0), hid@)));
    while k < el.len()
        invariant
            k <= el@.len(),
            s == pick(ds@, el@),
            hi < el@.len(),
            *hid == ds@[el@[hi as int] as int].device_id,
            forall|j: int| 0 <= j < el@.len() ==> (#[trigger] el@[j]) < ds@.len(),
            ascending(el@),
            pick(ds@, oth@) == sort_desc(without_id(s.subrange(0, k as int), hid@)),
            forall|a: int| 0 <= a < oth@.len() ==> (#[trigger] oth@[a]) < ds@.len(),
            distinct(oth@),
            forall|a: int| 0 <= a < oth@.len() ==> (#[trigger] ds@[oth@[a] as int]).device_id@ != hid@,
            k < el@.len() ==> forall|a: int| 0 <= a < oth@.len() ==> (#[trigger] oth@[a]) < el@[k as int],
            oth@.len() + (if k > hi { 1int } else { 0int }) <= k,
        decreases el@.len() - k,
    {
        let ghost w = without_id(s.subrange(0, k as int), hid@);
        let ghost t = pick(ds@, oth@);
        assert(s.subrange(0, k + 1).drop_last() =~= s.subrange(0, k as int));
        assert(s.subrange(0, k + 1).last() == s[k as int]);
        let x = el[k];
        assert(s[k as int] == ds@[x as int]);
        proof {
            if k + 1 < el@.len() {
                assert(el@[k as int] < el@[k + 1]);
            }
        }
        if !(ds[x].device_id == *hid) {
            insert_by_memory(ds, &mut oth, x, Ghost(hid@));
            assert(w.push(ds@[x as int]).drop_last() =~= w);
            assert(without_id(s.subrange(0, k + 1), hid@) == w.push(ds@[x as int]));
            assert(pick(ds@, oth@) == sort_desc(w.push(ds@[x as int])));
        } else {
            assert(without_id(s.subrange(0, k + 1), hid@) == w);
        }
        k = k + 1;
    }
    assert(s.subrange(0, el@.len() as int) =~= s);
    oth
}

/// Greedy fill of one device: from layer `start`, consecutive layers while they fit in `cap`.
/// Returns the end and the bytes taken.
fn fill(model: &ModelInfo, kvpl: u64, start: u32, cap: u64) -> (r: (u32, u64))
    requires
        start <= model.n_layer <= model.layer_bytes@.len(),
    ensures
        r.0 == fill_end(model@, kvpl as nat, start as nat, cap as nat),
        r.1 == range_w(model@, kvpl as nat, start as nat, r.0 as nat),
        start <= r.0 <= model.n_layer,
        r.1 <= cap,
{
    let ghost m = model@;
    let mut e: u32 = start;
    let mut b: u64 = 0;
    let mut stop = false;
    while e < model.n_layer && !stop
        invariant
            m == model@,
            start <= e <= model.n_layer <= model.layer_bytes@.len(),
            b <= cap,
            b == range_w(m, kvpl as nat, start as nat, e as nat),
            fill_end(m, kvpl as nat, e as nat, (cap - b) as nat) == fill_end(m, kvpl as nat, start as nat, cap as nat),
            stop ==> e < m.n_layer && lw(m, kvpl as nat, e as nat) > cap - b,
        decreases model.n_layer - e + (if stop { 0int } else { 1int }),
    {
        let l: u128 = model.layer_bytes[e as usize] as u128 + kvpl as u128;
        if b as u128 + l > cap as u128 {
            stop = true;
        } else {
            b = b + l as u64;
            e = e + 1;
        }
    }
    (e, b)
}

/// The device found by the fill loop is the one `first_done` names.
proof fn lemma_first_done(m: ModelInfoV, kvpl: nat, dd: Seq<DeviceCap>, hf: nat, k: int)
    requires
        done_at(m, kvpl, dd, hf, k),
        forall|j: int| 0 <= j < k ==> !done_at(m, kvpl, dd, hf, j),
    ensures
        first_done(m, kvpl, dd, hf) == Some(k),
{
    let c = choose|c: int| done_at(m, kvpl, dd, hf, c) && forall|j: int| 0 <= j < c ==> !done_at(m, kvpl, dd, hf, j);
    assert(done_at(m, kvpl, dd, hf, c) && forall|j: int| 0 <= j < c ==> !done_at(m, kvpl, dd, hf, j));
    if c < k {
        assert(!done_at(m, kvpl, dd, hf, c));
    }
    if k < c {
        assert(!done_at(m, kvpl, dd, hf, k));
    }
}

/// The text of [`split_reason_of`].
fn split_reason_text(host: bool, st: u32, en: u32, b: u64, hf: u64, extra: u64, d: &DeviceCap) -> (s: String)
    requires
        b + (if host { HOST_COMPUTE_RESERVE_BYTES } else { WORKER_COMPUTE_RESERVE_BYTES }) <= u64::MAX,
        st <= en,
    ensures
        s@ == split_reason_of(host, st as nat, en as nat, b as nat, hf as nat, extra as nat, *d),
{
    let last: u32 = if en >= 1 { en - 1 } else { 0 };
    let mut s = String::new();
    if host {
        push_str(&mut s, "host: layers ");
        push_dec(&mut s, st as u64);
        push_str(&mut s, "–");
        push_dec(&mut s, last as u64);
        push_str(&mut s, " (");
        push_dec(&mut s, (en - st) as u64);
        push_str(&mut s, " layers) + embeddings/output");
        if extra > 0 {
            push_str(&mut s, "/projector");
        }
        push_str(&mut s, " (");
        push_gb(&mut s, hf);
        push_str(&mut s, ") + ");
        push_reserve_label(&mut s, HOST_COMPUTE_RESERVE_BYTES);
        push_str(&mut s, " = ");
        push_gb(&mut s, b + HOST_COMPUTE_RESERVE_BYTES);
        push_str(&mut s, " of ");
        push_gb(&mut s, d.usable_bytes);
        push_str(&mut s, " usable");
    } else {
        push_str(&mut s, "worker: layers ");
        push_dec(&mut s, st as u64);
        push_str(&mut s, "–");
        push_dec(&mut s, last as u64);
        push_str(&mut s, " (");
        push_dec(&mut s, (en - st) as u64);
        push_str(&mut s, " layers) + ");
        push_reserve_label(&mut s, WORKER_COMPUTE_RESERVE_BYTES);
        push_str(&mut s, " = ");
        push_gb(&mut s, b + WORKER_COMPUTE_RESERVE_BYTES);
        push_str(&mut s, " of ");
        push_gb(&mut s, d.usable_bytes);
        push_str(&mut s, " usable; RTT p95 ");
        push_signed_round(&mut s, d.rtt_us_p95, 1000);
        push_str(&mut s, " ms");
    }
    proof {
        reveal_strlit("");
        reveal(split_reason_of);
    }
    assert(s@ =~= split_reason_of(host, st as nat, en as nat, b as nat, hf as nat, extra as nat, *d));
    s
}


/// Putting a device before others with another id keeps the indices distinct.
proof fn lemma_host_first_distinct(ds: Seq<DeviceCap>, hix: usize, oth: Seq<usize>)
    requires
        hix < ds.len(),
        distinct(oth),
        forall|k: int| 0 <= k < oth.len() ==> (#[trigger] ds[oth[k] as int]).device_id@ != ds[hix as int].device_id@,
    ensures
        distinct(seq![hix] + oth),
{
    let dd = seq![hix] + oth;
    assert forall|a: int, b: int| 0 <= a < b < dd.len() implies dd[a] != dd[b] by {
        if a == 0 {
            assert(ds[oth[b - 1] as int].device_id@ != ds[hix as int].device_id@);
        } else {
            assert(oth[a - 1] != oth[b - 1]);
        }
    }
}

/// The devices of a split, in fill order, as indices: the host, then the others by usable memory.
#[verifier::spinoff_prover]
#[verifier::rlimit(30)]
fn split_order(ds: &[DeviceCap], el: &Vec<usize>, pol: &Policy) -> (dd: Vec<usize>)
    requires
        forall|k: int| 0 <= k < el@.len() ==> (#[trigger] el@[k]) < ds@.len(),
        ascending(el@),
        el@.len() <= ds@.len(),
        exists|i: int| 0 <= i < el@.len() && pick(ds@, el@)[i].can_host,
        sum_usable(ds@) <= u64::MAX,
    ensures
        pick(ds@, dd@) == split_devices(pick(ds@, el@), *pol),
        forall|k: int| 0 <= k < dd@.len() ==> (#[trigger] dd@[k]) < ds@.len(),
        1 <= dd@.len() <= ds@.len(),
        isum(ds@, dd@) <= u64::MAX,
{
    let ghost s = pick(ds@, el@);
    let hi = find_host(ds, el, pol);
    let mut oth = order_others(ds, el, hi);
    let hix = el[hi];
    let mut dd: Vec<usize> = Vec::new();
    dd.push(hix);
    let ghost oth_v = oth@;
    dd.append(&mut oth);
    assert(dd@ =~= seq![hix] + oth_v);
    assert(pick(ds@, dd@) =~= seq![s[hi as int]] + pick(ds@, oth_v));
    proof {
        lemma_host_first_distinct(ds@, hix, oth_v);
        lemma_isum_le(ds@, dd@, ds@.len() as int);
        assert(ds@.subrange(0, ds@.len() as int) =~= ds@);
    }
    dd
}

/// Greedy fill over the devices `dd`, host first, until every layer is placed or the devices run
/// out. Returns, for the devices filled (`0..=k`), their first layers (and the end), their bytes,
/// the usable bytes they pool, the sum of their bytes, `k`, and whether every layer was placed.
fn fill_all(model: &ModelInfo, ds: &[DeviceCap], dd: &Vec<usize>, hf: u64, kvpl: u64)
    -> (r: (Vec<u32>, Vec<u64>, u64, u64, usize, bool))
    requires
        forall|k: int| 0 <= k < dd@.len() ==> (#[trigger] dd@[k]) < ds@.len(),
        1 <= dd@.len(),
        isum(ds@, dd@) <= u64::MAX,
        model.n_layer <= model.layer_bytes@.len(),
        ds@[dd@[0] as int].usable_bytes > hf + HOST_COMPUTE_RESERVE_BYTES,
    ensures
        ({
            let (starts, devb, pool, tot, k, done) = r;
            let m = model@;
            let dds = pick(ds@, dd@);
            &&& k < dd@.len()
            &&& starts@.len() == k + 2
            &&& devb@.len() == k + 1
            &&& forall|j: int| 0 <= j < starts@.len() ==> (#[trigger] starts@[j]) == start_of(m, kvpl as nat, dds, hf as nat, j as nat)
            &&& forall|j: int| 0 <= j && j + 1 < starts@.len() ==> (#[trigger] starts@[j]) <= starts@[j + 1]
            &&& forall|j: int| 0 <= j < devb@.len() ==> (#[trigger] devb@[j]) == dev_bytes(m, kvpl as nat, dds, hf as nat, j as nat)
            &&& forall|j: int| 0 <= j < devb@.len() ==> (#[trigger] devb@[j]) + (if j == 0 { HOST_COMPUTE_RESERVE_BYTES as int } else { WORKER_COMPUTE_RESERVE_BYTES as int }) <= u64::MAX
            &&& pool == pooled(dds, (k + 1) as nat)
            &&& tot == bytes_upto(m, kvpl as nat, dds, hf as nat, (k + 1) as nat)
            &&& forall|j: int| 0 <= j < k ==> !done_at(m, kvpl as nat, dds, hf as nat, j)
            &&& done == done_at(m, kvpl as nat, dds, hf as nat, k as int)
            &&& !done ==> k + 1 == dd@.len()
        }),
{
    let ghost m = model@;
    let ghost dds = pick(ds@, dd@);
    let mut starts: Vec<u32> = Vec::new();
    starts.push(0);
    let mut devb: Vec<u64> = Vec::new();
    let mut pool: u64 = 0;
    let mut tot: u64 = 0;
    let mut k: usize = 0;
    loop
        invariant
            m == model@,
            dds == pick(ds@, dd@),
            k < dd@.len(),
            forall|j: int| 0 <= j < dd@.len() ==> (#[trigger] dd@[j]) < ds@.len(),
            isum(ds@, dd@) <= u64::MAX,
            dds[0].usable_bytes > hf + HOST_COMPUTE_RESERVE_BYTES,
            model.n_layer <= model.layer_bytes@.len(),
            starts@.len() == k + 1,
            devb@.len() == k,
            pool == pooled(dds, k as nat),
            tot == bytes_upto(m, kvpl as nat, dds, hf as nat, k as nat),
            tot <= pool,
            forall|j: int| 0 <= j < starts@.len() ==> (#[trigger] starts@[j]) == start_of(m, kvpl as nat, dds, hf as nat, j as nat),
            forall|j: int| 0 <= j < starts@.len() ==> (#[trigger] starts@[j]) <= model.n_layer,
            forall|j: int| 0 <= j && j + 1 < starts@.len() ==> (#[trigger] starts@[j]) <= starts@[j + 1],
            forall|j: int| 0 <= j < devb@.len() ==> (#[trigger] devb@[j]) == dev_bytes(m, kvpl as nat, dds, hf as nat, j as nat),
            forall|j: int| 0 <= j < devb@.len() ==> (#[trigger] devb@[j]) + (if j == 0 { HOST_COMPUTE_RESERVE_BYTES as int } else { WORKER_COMPUTE_RESERVE_BYTES as int }) <= u64::MAX,
            forall|j: int| 0 <= j < k ==> !done_at(m, kvpl as nat, dds, hf as nat, j),
        decreases dd@.len() - k,
    {
        let d = &ds[dd[k]];
        assert(*d == dds[k as int]);
        let cap: u64 = if k == 0 {
            d.usable_bytes - hf - HOST_COMPUTE_RESERVE_BYTES
        } else if d.usable_bytes >= WORKER_COMPUTE_RESERVE_BYTES {
            d.usable_bytes - WORKER_COMPUTE_RESERVE_BYTES
        } else {
            0
        };
        assert(cap == dev_cap(dds, k as int, hf as nat));
        let st = starts[k];
        let (en, b) = fill(model, kvpl, st, cap);
        let db: u64 = if k == 0 { b + hf } else { b };
        proof {
            lemma_pooled_pick(ds@, dd@, k + 1);
            lemma_isum_prefix(ds@, dd@, k + 1);
        }
        pool = pool + d.usable_bytes;
        tot = tot + db;
        starts.push(en);
        devb.push(db);
        assert(starts@[k + 1] == start_of(m, kvpl as nat, dds, hf as nat, (k + 1) as nat));
        assert(db + (if k == 0 { HOST_COMPUTE_RESERVE_BYTES as int } else { WORKER_COMPUTE_RESERVE_BYTES as int }) <= d.usable_bytes
            || (k > 0 && d.usable_bytes < WORKER_COMPUTE_RESERVE_BYTES && db == 0));
        assert(devb@[k as int] == dev_bytes(m, kvpl as nat, dds, hf as nat, k as nat));
        if en >= model.n_layer || k == dd.len() - 1 {
            return (starts, devb, pool, tot, k, en >= model.n_layer);
        }
        k = k + 1;
    }
}

/// The placements of the devices `0..=k` of a split that hold something (the host always).
fn build_used(model: &ModelInfo, ds: &[DeviceCap], dd: &Vec<usize>, hf: u64, kvpl: u64, pol: &Policy,
    starts: &Vec<u32>, devb: &Vec<u64>, k: usize, den: u64) -> (r: Vec<Placement>)
    requires
        forall|i: int| 0 <= i < dd@.len() ==> (#[trigger] dd@[i]) < ds@.len(),
        k < dd@.len(),
        starts@.len() == k + 2,
        devb@.len() == k + 1,
        forall|i: int| 0 <= i < starts@.len() ==> (#[trigger] starts@[i]) == start_of(model@, kvpl as nat, pick(ds@, dd@), hf as nat, i as nat),
        forall|i: int| 0 <= i && i + 1 < starts@.len() ==> (#[trigger] starts@[i]) <= starts@[i + 1],
        forall|i: int| 0 <= i < devb@.len() ==> (#[trigger] devb@[i]) == dev_bytes(model@, kvpl as nat, pick(ds@, dd@), hf as nat, i as nat),
        forall|i: int| 0 <= i < devb@.len() ==> (#[trigger] devb@[i]) + (if i == 0 { HOST_COMPUTE_RESERVE_BYTES as int } else { WORKER_COMPUTE_RESERVE_BYTES as int }) <= u64::MAX,
    ensures
        placements_view(r@) == split_used(model@, kvpl as nat, pick(ds@, dd@), hf as nat, *pol, den as nat, (k + 1) as nat),
        1 <= r@.len() <= k + 1,
{
    let ghost m = model@;
    let ghost dds = pick(ds@, dd@);
    let mut placements: Vec<Placement> = Vec::new();
    let mut j: usize = 0;
    while j <= k
        invariant
            j <= k + 1,
            k < dd@.len(),
            m == model@,
            dds == pick(ds@, dd@),
            forall|i: int| 0 <= i < dd@.len() ==> (#[trigger] dd@[i]) < ds@.len(),
            starts@.len() == k + 2,
            devb@.len() == k + 1,
            forall|i: int| 0 <= i < starts@.len() ==> (#[trigger] starts@[i]) == start_of(m, kvpl as nat, dds, hf as nat, i as nat),
            forall|i: int| 0 <= i && i + 1 < starts@.len() ==> (#[trigger] starts@[i]) <= starts@[i + 1],
            forall|i: int| 0 <= i < devb@.len() ==> (#[trigger] devb@[i]) == dev_bytes(m, kvpl as nat, dds, hf as nat, i as nat),
            forall|i: int| 0 <= i < devb@.len() ==> (#[trigger] devb@[i]) + (if i == 0 { HOST_COMPUTE_RESERVE_BYTES as int } else { WORKER_COMPUTE_RESERVE_BYTES as int }) <= u64::MAX,
            placements_view(placements@) == split_used(m, kvpl as nat, dds, hf as nat, *pol, den as nat, j as nat),
            placements@.len() <= j,
            j >= 1 ==> placements@.len() >= 1,
        decreases k + 1 - j,
    {
        let sl = starts.len();
        assert(j + 1 < sl);
        let st = starts[j];
        let en = starts[j + 1];
        assert(st <= en);
        if j == 0 || en > st {
            let d = &ds[dd[j]];
            assert(*d == dds[j as int]);
            let b = devb[j];
            let reason = split_reason_text(j == 0, st, en, b, hf, pol.host_extra_bytes, d);
            let p = Placement {
                device_id: d.device_id.clone(),
                name: d.name.clone(),
                role: if j == 0 { Role::Host } else { Role::Worker },
                layer_start: st,
                layer_end: en,
                bytes: b,
                split_weight_num: b,
                split_weight_den: den,
                compute_reserve_bytes: if j == 0 { HOST_COMPUTE_RESERVE_BYTES } else { WORKER_COMPUTE_RESERVE_BYTES },
                reason,
            };
            let ghost old_p = placements@;
            placements.push(p);
            assert(placements_view(placements@) =~= placements_view(old_p).push(p@));
        }
        j = j + 1;
    }
    placements
}

/// The devices `from..` of a split, not needed.
fn not_needed_tail(ds: &[DeviceCap], dd: &Vec<usize>, from: usize) -> (r: Vec<Placement>)
    requires
        forall|i: int| 0 <= i < dd@.len() ==> (#[trigger] dd@[i]) < ds@.len(),
        from <= dd@.len(),
    ensures
        placements_view(r@) == not_needed_split(pick(ds@, dd@), from as int),
{
    let ghost dds = pick(ds@, dd@);
    let mut out: Vec<Placement> = Vec::new();
    let mut q: usize = from;
    while q < dd.len()
        invariant
            from <= q <= dd@.len(),
            dds == pick(ds@, dd@),
            forall|i: int| 0 <= i < dd@.len() ==> (#[trigger] dd@[i]) < ds@.len(),
            placements_view(out@) =~= not_needed_split(dds, from as int).subrange(0, q - from),
        decreases dd@.len() - q,
    {
        let d = &ds[dd[q]];
        assert(*d == dds[q as int]);
        let r = rejected(d, owned("not needed: pooled memory already holds the model; fewer devices = fewer network hops"));
        let ghost old_o = out@;
        out.push(r);
        assert(placements_view(out@) =~= placements_view(old_o).push(r@));
        q = q + 1;
    }
    assert(not_needed_split(dds, from as int).subrange(0, dd@.len() - from) =~= not_needed_split(dds, from as int));
    out
}

/// The text of [`split_summary`].
fn split_summary_text(model: &ModelInfo, n_ctx: u32, pol: &Policy, n_used: usize, pool: u64,
    weights: u64, kvt: u64, nd: u64) -> (s: String)
    requires
        weights == weight_bytes_of(model@),
        kvt == kv_total(model@, n_ctx),
        nd == needed(model@, n_ctx),
        nd + pol.host_extra_bytes <= u64::MAX,
    ensures
        s@ == split_summary(model@, n_ctx, *pol, n_used as nat, pool as nat),
{
    let extra = pol.host_extra_bytes;
    let mut summary = String::new();
    push_str(&mut summary, model.name.as_str());
    push_str(&mut summary, " split across ");
    push_dec(&mut summary, n_used as u64);
    push_str(&mut summary, " devices: needs ");
    push_gb(&mut summary, nd + extra);
    push_str(&mut summary, " (weights ");
    push_gb(&mut summary, weights);
    push_str(&mut summary, " + KV ");
    push_gb(&mut summary, kvt);
    push_str(&mut summary, " @ ");
    push_dec(&mut summary, n_ctx as u64);
    push_str(&mut summary, " ctx");
    if extra > 0 {
        push_str(&mut summary, " + projector ");
        push_gb(&mut summary, extra);
    }
    push_str(&mut summary, ") + compute reserves (estimate), pooled ");
    push_gb(&mut summary, pool);
    proof {
        reveal_strlit("");
        reveal(split_summary);
    }
    assert(summary@ =~= split_summary(model@, n_ctx, *pol, n_used as nat, pool as nat));
    summary
}

/// The split plan over the eligible devices `el`, with `rej` the rejected devices' placements.
#[verifier::spinoff_prover]
#[verifier::rlimit(50)]
fn split_plan(model: &ModelInfo, ds: &[DeviceCap], el: &Vec<usize>, rej: Vec<Placement>, n_ctx: u32, pol: &Policy,
    weights: u64, kvt: u64, nd: u64, kvpl: u64) -> (r: Result<Plan, PlanError>)
    requires
        forall|k: int| 0 <= k < el@.len() ==> (#[trigger] el@[k]) < ds@.len(),
        ascending(el@),
        el@.len() <= ds@.len(),
        exists|i: int| 0 <= i < el@.len() && pick(ds@, el@)[i].can_host,
        weights == weight_bytes_of(model@),
        kvt == kv_total(model@, n_ctx),
        nd == needed(model@, n_ctx),
        kvpl == kv_per_layer(model@, n_ctx),
        plan_bounds(model@, ds@, n_ctx, *pol),
    ensures
        split_result(model@, pick(ds@, el@), placements_view(rej@), n_ctx, *pol) == (match r {
            Ok(p) => Ok::<PlanV, PlanErrorV>(p@),
            Err(e) => Err(e@),
        }),
{
    let ghost m = model@;
    let ghost s = pick(ds@, el@);
    let ghost rej_v = placements_view(rej@);
    let mut rej = rej;
    reveal(split_result);
    let dd = split_order(ds, el, pol);
    let ghost dds = pick(ds@, dd@);
    proof {
        lemma_sum_prefix_le(m.layer_bytes, 0);
    }
    let hf: u64 = model.non_layer_bytes + pol.host_extra_bytes;
    let h = &ds[dd[0]];
    assert(*h == dds[0]);
    if h.usable_bytes <= hf + HOST_COMPUTE_RESERVE_BYTES {
        return Err(PlanError::HostTooSmall { host: h.name.clone(), usable: h.usable_bytes, fixed: hf + HOST_COMPUTE_RESERVE_BYTES });
    }
    let (starts, devb, pool, tot, k, done) = fill_all(model, ds, &dd, hf, kvpl);
    if !done {
        assert forall|j: int| !done_at(m, kvpl as nat, dds, hf as nat, j) by {
            if 0 <= j < k {
            }
        }
        proof {
            lemma_pooled_pick(ds@, dd@, dd@.len() as int);
            assert(dd@.subrange(0, dd@.len() as int) =~= dd@);
        }
        return Err(PlanError::DoesNotFit {
            needed: nd + pol.host_extra_bytes + HOST_COMPUTE_RESERVE_BYTES + WORKER_COMPUTE_RESERVE_BYTES * (k as u64),
            available: pool,
        });
    }
    proof {
        lemma_first_done(m, kvpl as nat, dds, hf as nat, k as int);
    }
    let den: u64 = if tot >= 1 { tot } else { 1 };
    let mut placements = build_used(model, ds, &dd, hf, kvpl, pol, &starts, &devb, k, den);
    let n_used = placements.len();
    let ghost used_v = placements_view(placements@);
    let mut unused = not_needed_tail(ds, &dd, k + 1);
    let ghost unused_v = placements_view(unused@);
    placements.append(&mut unused);
    assert(placements_view(placements@) =~= used_v + unused_v);
    let ghost before_rej = placements@;
    placements.append(&mut rej);
    assert(placements_view(placements@) =~= placements_view(before_rej) + rej_v);
    let summary = split_summary_text(model, n_ctx, pol, n_used, pool, weights, kvt, nd);
    let total_needed = nd + pol.host_extra_bytes + HOST_COMPUTE_RESERVE_BYTES + WORKER_COMPUTE_RESERVE_BYTES * ((n_used - 1) as u64);
    let p = Plan {
        model: model.name.clone(),
        mode: Mode::LayerSplit,
        n_ctx,
        host_id: h.device_id.clone(),
        placements,
        summary,
        total_needed_bytes: total_needed,
        total_usable_bytes: pool,
    };
    assert(p@ == split_result(m, s, rej_v, n_ctx, *pol)->Ok_0);
    Ok(p)
}

/// The text of [`single_reason`].
fn single_reason_text(model: &ModelInfo, n_ctx: u32, pol: &Policy, d: &DeviceCap, weights: u64, kvt: u64, nd: u64, need: u64) -> (s: String)
    requires
        weights == weight_bytes_of(model@),
        kvt == kv_total(model@, n_ctx),
        nd == needed(model@, n_ctx),
        need == single_need(model@, n_ctx, *pol),
    ensures
        s@ == single_reason(model@, n_ctx, *pol, *d),
{
    let extra = pol.host_extra_bytes;
    let mut s = String::new();
    push_str(&mut s, "fits on one device: needs ");
    push_gb(&mut s, nd);
    push_str(&mut s, " (weights ");
    push_gb(&mut s, weights);
    push_str(&mut s, " + KV ");
    push_gb(&mut s, kvt);
    push_str(&mut s, " @ ");
    push_dec(&mut s, n_ctx as u64);
    push_str(&mut s, " ctx)");
    if extra > 0 {
        push_str(&mut s, " + projector ");
        push_gb(&mut s, extra);
    }
    push_str(&mut s, " + ");
    push_reserve_label(&mut s, HOST_COMPUTE_RESERVE_BYTES);
    push_str(&mut s, " = ");
    push_gb(&mut s, need);
    push_str(&mut s, ", has ");
    push_gb(&mut s, d.usable_bytes);
    push_str(&mut s, " usable — no network in the path");
    proof {
        reveal_strlit("");
        reveal(single_reason);
    }
    assert(s@ =~= single_reason(model@, n_ctx, *pol, *d));
    s
}

/// The text of [`single_summary`].
fn single_summary_text(model: &ModelInfo, n_ctx: u32, pol: &Policy, d: &DeviceCap, need: u64) -> (s: String)
    requires
        need == single_need(model@, n_ctx, *pol),
    ensures
        s@ == single_summary(model@, n_ctx, *pol, *d),
{
    let mut s = String::new();
    push_str(&mut s, model.name.as_str());
    push_str(&mut s, " runs entirely on ");
    push_str(&mut s, d.name.as_str());
    push_str(&mut s, " (");
    push_gb(&mut s, need);
    push_str(&mut s, " of ");
    push_gb(&mut s, d.usable_bytes);
    push_str(&mut s, " usable, incl. ");
    push_reserve_label(&mut s, HOST_COMPUTE_RESERVE_BYTES);
    push_str(&mut s, ")");
    proof {
        reveal_strlit("");
        reveal(single_summary);
    }
    assert(s@ =~= single_summary(model@, n_ctx, *pol, *d));
    s
}

/// The plan that runs the model on `el[bi]` alone.
fn single_plan_exec(model: &ModelInfo, ds: &[DeviceCap], el: &Vec<usize>, rej: Vec<Placement>, bi: usize, n_ctx: u32,
    pol: &Policy, weights: u64, kvt: u64, nd: u64, need: u64) -> (p: Plan)
    requires
        forall|k: int| 0 <= k < el@.len() ==> (#[trigger] el@[k]) < ds@.len(),
        bi < el@.len(),
        weights == weight_bytes_of(model@),
        kvt == kv_total(model@, n_ctx),
        nd == needed(model@, n_ctx),
        need == single_need(model@, n_ctx, *pol),
    ensures
        p@ == single_plan(model@, pick(ds@, el@), placements_view(rej@), pick(ds@, el@)[bi as int], n_ctx, *pol),
{
    let ghost s = pick(ds@, el@);
    let ghost rej_v = placements_view(rej@);
    let mut rej = rej;
    let d = &ds[el[bi]];
    assert(*d == s[bi as int]);
    let reason = single_reason_text(model, n_ctx, pol, d, weights, kvt, nd, need);
    let host = Placement {
        device_id: d.device_id.clone(),
        name: d.name.clone(),
        role: Role::Host,
        layer_start: 0,
        layer_end: model.n_layer,
        bytes: nd + pol.host_extra_bytes,
        split_weight_num: 1,
        split_weight_den: 1,
        compute_reserve_bytes: HOST_COMPUTE_RESERVE_BYTES,
        reason,
    };
    let ghost host_v = host@;
    let mut placements: Vec<Placement> = Vec::new();
    placements.push(host);
    let mut k: usize = 0;
    assert(placements_view(placements@) =~= seq![host_v] + not_needed_single(s.subrange(0, 0), d.device_id@));
    while k < el.len()
        invariant
            k <= el@.len(),
            s == pick(ds@, el@),
            forall|j: int| 0 <= j < el@.len() ==> (#[trigger] el@[j]) < ds@.len(),
            placements_view(placements@) == seq![host_v] + not_needed_single(s.subrange(0, k as int), d.device_id@),
        decreases el@.len() - k,
    {
        assert(s.subrange(0, k + 1).drop_last() =~= s.subrange(0, k as int));
        let e = &ds[el[k]];
        assert(*e == s[k as int]);
        if !(e.device_id == d.device_id) {
            let r = rejected(e, owned("not needed: model fits on the host; adding a device would only add latency"));
            let ghost old_p = placements@;
            placements.push(r);
            assert(placements_view(placements@) =~= placements_view(old_p).push(r@));
        }
        k = k + 1;
    }
    assert(s.subrange(0, el@.len() as int) =~= s);
    let ghost before_rej = placements@;
    placements.append(&mut rej);
    assert(placements_view(placements@) =~= placements_view(before_rej) + rej_v);
    let summary = single_summary_text(model, n_ctx, pol, d, need);
    Plan {
        model: model.name.clone(),
        mode: Mode::Single,
        n_ctx,
        host_id: d.device_id.clone(),
        placements,
        summary,
        total_needed_bytes: need,
        total_usable_bytes: d.usable_bytes,
    }
}

/// Plans where `model` runs on `devices` with `n_ctx` tokens of context: on the best single device
/// when one can hold it, else split in contiguous layer blocks over as few devices as needed.
#[verifier::rlimit(40)]
pub fn plan(model: &ModelInfo, devices: &[DeviceCap], n_ctx: u32, policy: &Policy) -> (r: Result<Plan, PlanError>)
    requires
        plan_bounds(model@, devices@, n_ctx, *policy),
    ensures
        plan_spec(model@, devices@, n_ctx, *policy) == (match r {
            Ok(p) => Ok::<PlanV, PlanErrorV>(p@),
            Err(e) => Err(e@),
        }),
{
    let ghost m = model@;
    reveal(plan_spec);
    proof {
        lemma_max_le_sum(m.layer_bytes);
    }
    let kvt = model.kv_bytes(n_ctx);
    let weights = model.weight_bytes();
    let nd = weights + kvt;
    let n_layer = model.n_layer;
    let kvpl: u64 = if n_layer > 0 { kvt / (n_layer as u64) } else { 0 };
    assert(kvpl <= kvt) by (nonlinear_arith)
        requires
            n_layer > 0 ==> kvpl == kvt / (n_layer as u64),
            n_layer == 0 ==> kvpl == 0,
    ;
    let ml = max_layer(&model.layer_bytes) + kvpl;
    let mw = ml + WORKER_COMPUTE_RESERVE_BYTES;
    let (el, rej) = partition(devices, policy, mw, ml);
    if el.len() == 0 {
        return Err(PlanError::NoDevices);
    }
    match pref_check(devices, &el, &rej, policy) {
        Some(e) => {
            return Err(e);
        },
        None => {},
    }
    if !any_can_host(devices, &el) {
        return Err(PlanError::NoHost);
    }
    let need = nd + policy.host_extra_bytes + HOST_COMPUTE_RESERVE_BYTES;
    match pick_single(devices, &el, model, n_ctx, policy, need) {
        Some(bi) => Ok(single_plan_exec(model, devices, &el, rej, bi, n_ctx, policy, weights, kvt, nd, need)),
        None => split_plan(model, devices, &el, rej, n_ctx, policy, weights, kvt, nd, kvpl),
    }
}

// ------------------------------------------------------------------------------------------------
// What every plan satisfies.

/// Layers `a..b` weigh the first of them plus the rest.
proof fn lemma_range_w_front(m: ModelInfoV, kvpl: nat, a: nat, b: nat)
    requires
        a < b,
    ensures
        range_w(m, kvpl, a, b) == lw(m, kvpl, a) + range_w(m, kvpl, a + 1, b),
    decreases b - a,
{
    let c = (b - 1) as nat;
    assert(range_w(m, kvpl, a, b) == range_w(m, kvpl, a, c) + lw(m, kvpl, c));
    if a + 1 < b {
        lemma_range_w_front(m, kvpl, a, c);
        assert(range_w(m, kvpl, a + 1, b) == range_w(m, kvpl, a + 1, c) + lw(m, kvpl, c));
    } else {
        assert(range_w(m, kvpl, a, c) == 0);
        assert(range_w(m, kvpl, a + 1, b) == 0);
    }
}

/// The greedy fill of one device moves forward, never past the last layer, and takes no more
/// than the device can hold.
proof fn lemma_fill_end(m: ModelInfoV, kvpl: nat, s: nat, cap: nat)
    requires
        s <= m.n_layer,
    ensures
        s <= fill_end(m, kvpl, s, cap) <= m.n_layer,
        range_w(m, kvpl, s, fill_end(m, kvpl, s, cap)) <= cap,
    decreases m.n_layer - s,
{
    if s < m.n_layer && lw(m, kvpl, s) <= cap {
        let c2 = (cap - lw(m, kvpl, s)) as nat;
        lemma_fill_end(m, kvpl, s + 1, c2);
        let e = fill_end(m, kvpl, s + 1, c2);
        lemma_range_w_front(m, kvpl, s, e);
    }
}

/// The first layers of the devices of a split never decrease and never pass the last layer.
proof fn lemma_start_of(m: ModelInfoV, kvpl: nat, dd: Seq<DeviceCap>, hf: nat, k: nat)
    ensures
        start_of(m, kvpl, dd, hf, k) <= m.n_layer,
        start_of(m, kvpl, dd, hf, k) <= start_of(m, kvpl, dd, hf, k + 1),
        range_w(m, kvpl, start_of(m, kvpl, dd, hf, k), start_of(m, kvpl, dd, hf, k + 1)) <= dev_cap(dd, k as int, hf),
    decreases k,
{
    if k > 0 {
        lemma_start_of(m, kvpl, dd, hf, (k - 1) as nat);
        lemma_fill_end(m, kvpl, start_of(m, kvpl, dd, hf, (k - 1) as nat), dev_cap(dd, k - 1, hf));
    }
    lemma_fill_end(m, kvpl, start_of(m, kvpl, dd, hf, k), dev_cap(dd, k as int, hf));
}

/// The compute reserve of the `i`-th device of a split.
pub open spec fn reserve_of(i: nat) -> nat {
    if i == 0 { HOST_COMPUTE_RESERVE_BYTES as nat } else { WORKER_COMPUTE_RESERVE_BYTES as nat }
}

/// After the first of the first `u` placements come workers, each starting where the one before
/// it ended.
pub open spec fn chained(ps: Seq<PlacementV>, u: int) -> bool {
    &&& forall|a: int| #![trigger ps[a]] 1 <= a < u ==> ps[a].role == Role::Worker
    &&& forall|a: int, b: int| #![trigger ps[a], ps[b]] 0 <= a && b == a + 1 && b < u ==> ps[b].layer_start == ps[a].layer_end
}

/// The used placements come first (the host with the first layers, then workers, each starting
/// where the one before ended, the last ending at layer `n`), the first `u` of them; every other
/// placement is rejected.
pub open spec fn covered_with(ps: Seq<PlacementV>, n: u32, u: int) -> bool {
    &&& 1 <= u <= ps.len()
    &&& ps[0].role == Role::Host
    &&& ps[0].layer_start == 0
    &&& chained(ps, u)
    &&& ps[u - 1].layer_end == n
    &&& forall|a: int| #![trigger ps[a]] u <= a < ps.len() ==> ps[a].role == Role::Rejected
}

/// Whether some device of `ds` has the placement's id and can hold its bytes and its reserve.
pub open spec fn held_by_some(p: PlacementV, ds: Seq<DeviceCap>) -> bool {
    exists|i: int| 0 <= i < ds.len() && ds[i].device_id@ == p.device_id
        && p.bytes as nat + p.compute_reserve_bytes as nat <= ds[i].usable_bytes as nat
}

/// The placement of one device of a split: its id, its role, its layers, and that the device
/// can hold its bytes and its reserve.
proof fn lemma_split_entry(m: ModelInfoV, kvpl: nat, dd: Seq<DeviceCap>, hf: nat, pol: Policy, den: nat, i: nat)
    requires
        i < dd.len(),
        dd[0].usable_bytes as nat > hf + HOST_COMPUTE_RESERVE_BYTES,
        forall|k: int| 0 < k < dd.len() ==> (#[trigger] dd[k]).usable_bytes >= WORKER_COMPUTE_RESERVE_BYTES,
    ensures
        ({
            let e = split_entry(m, kvpl, dd, hf, pol, den, i);
            &&& e.device_id == dd[i as int].device_id@
            &&& e.role == (if i == 0 { Role::Host } else { Role::Worker })
            &&& e.layer_start == start_of(m, kvpl, dd, hf, i)
            &&& e.layer_end == start_of(m, kvpl, dd, hf, i + 1)
            &&& held_by_some(e, dd)
        }),
{
    lemma_start_of(m, kvpl, dd, hf, i);
    lemma_start_of(m, kvpl, dd, hf, i + 1);
    let st = start_of(m, kvpl, dd, hf, i);
    let en = start_of(m, kvpl, dd, hf, i + 1);
    let b = dev_bytes(m, kvpl, dd, hf, i);
    let u = dd[i as int].usable_bytes as nat;
    assert(b + reserve_of(i) <= u) by {
        if i > 0 {
            assert(dd[i as int].usable_bytes >= WORKER_COMPUTE_RESERVE_BYTES);
        }
    }
    let e = split_entry(m, kvpl, dd, hf, pol, den, i);
    assert(e.bytes as nat == b);
    assert(e.compute_reserve_bytes as nat == reserve_of(i));
    assert(held_by_some(e, dd)) by {
        assert(0 <= i < dd.len() && dd[i as int].device_id@ == e.device_id);
    }
}

/// The structure of the used placements of a split, device by device.
#[verifier::spinoff_prover]
#[verifier::rlimit(30)]
proof fn lemma_split_used(m: ModelInfoV, kvpl: nat, dd: Seq<DeviceCap>, hf: nat, pol: Policy, den: nat, j: nat)
    requires
        1 <= j <= dd.len(),
        dd[0].usable_bytes as nat > hf + HOST_COMPUTE_RESERVE_BYTES,
        forall|i: int| 0 < i < dd.len() ==> (#[trigger] dd[i]).usable_bytes >= WORKER_COMPUTE_RESERVE_BYTES,
    ensures
        ({
            let u = split_used(m, kvpl, dd, hf, pol, den, j);
            &&& 1 <= u.len() <= j
            &&& u[0].role == Role::Host
            &&& u[0].layer_start == 0
            &&& u[0].device_id == dd[0].device_id@
            &&& chained(u, u.len() as int)
            &&& u[u.len() - 1].layer_end == start_of(m, kvpl, dd, hf, j)
            &&& forall|a: int| #![trigger u[a]] 0 <= a < u.len() ==> held_by_some(u[a], dd)
        }),
    decreases j,
{
    let i = (j - 1) as nat;
    let u = split_used(m, kvpl, dd, hf, pol, den, j);
    let e = split_entry(m, kvpl, dd, hf, pol, den, i);
    lemma_split_entry(m, kvpl, dd, hf, pol, den, i);
    if j > 1 {
        lemma_split_used(m, kvpl, dd, hf, pol, den, i);
        let r = split_used(m, kvpl, dd, hf, pol, den, i);
        if start_of(m, kvpl, dd, hf, j) > start_of(m, kvpl, dd, hf, i) {
            assert(u == r.push(e));
            assert forall|a: int| #![trigger u[a]] 0 <= a < u.len() implies held_by_some(u[a], dd) by {
                if a < r.len() {
                    assert(u[a] == r[a]);
                }
            }
            assert forall|a: int| #![trigger u[a]] 1 <= a < u.len() implies u[a].role == Role::Worker by {
                if a < r.len() {
                    assert(u[a] == r[a]);
                }
            }
            assert forall|a: int, b: int| #![trigger u[a], u[b]] 0 <= a && b == a + 1 && b < u.len() implies u[b].layer_start == u[a].layer_end by {
                assert(u[a] == r[a]);
                if b < r.len() {
                    assert(u[b] == r[b]);
                }
            }
        } else {
            lemma_start_of(m, kvpl, dd, hf, i);
            assert(u == r);
        }
    } else {
        assert(split_used(m, kvpl, dd, hf, pol, den, 0) == Seq::<PlacementV>::empty());
        assert(u == seq![e]);
    }
}

/// Every device of `a` is one of `b`.
pub open spec fn drawn_from(a: Seq<DeviceCap>, b: Seq<DeviceCap>) -> bool {
    forall|i: int| 0 <= i < a.len() ==> b.contains(#[trigger] a[i])
}

/// Being drawn from is transitive.
proof fn lemma_drawn_trans(a: Seq<DeviceCap>, b: Seq<DeviceCap>, c: Seq<DeviceCap>)
    requires
        drawn_from(a, b),
        drawn_from(b, c),
    ensures
        drawn_from(a, c),
{
    assert forall|i: int| 0 <= i < a.len() implies c.contains(#[trigger] a[i]) by {
        assert(b.contains(a[i]));
        let j = choose|j: int| 0 <= j < b.len() && b[j] == a[i];
        assert(c.contains(b[j]));
    }
}

/// A sequence with its last element dropped is drawn from the whole.
proof fn lemma_drop_last_drawn(s: Seq<DeviceCap>, a: Seq<DeviceCap>)
    requires
        s.len() > 0,
        drawn_from(a, s.drop_last()),
    ensures
        drawn_from(a, s),
        drawn_from(a.push(s.last()), s),
{
    assert forall|i: int| 0 <= i < a.len() implies s.contains(#[trigger] a[i]) by {
        assert(s.drop_last().contains(a[i]));
        let j = choose|j: int| 0 <= j < s.drop_last().len() && s.drop_last()[j] == a[i];
        assert(s[j] == a[i]);
    }
    let b = a.push(s.last());
    assert forall|i: int| 0 <= i < b.len() implies s.contains(#[trigger] b[i]) by {
        if i < a.len() {
            assert(b[i] == a[i]);
            assert(s.contains(a[i]));
        } else {
            assert(s[s.len() - 1] == b[i]);
        }
    }
}

/// The eligible devices are devices of the input that break no rule.
proof fn lemma_eligible_drawn(ds: Seq<DeviceCap>, pol: Policy, mw: nat)
    ensures
        drawn_from(eligible_of(ds, pol, mw), ds),
        forall|i: int| 0 <= i < eligible_of(ds, pol, mw).len() ==> why(#[trigger] eligible_of(ds, pol, mw)[i], pol, mw) is None,
    decreases ds.len(),
{
    if ds.len() > 0 {
        let e = eligible_of(ds.drop_last(), pol, mw);
        lemma_eligible_drawn(ds.drop_last(), pol, mw);
        lemma_drop_last_drawn(ds, e);
    }
}

/// The devices other than the host are drawn from the eligible ones.
proof fn lemma_without_id_drawn(el: Seq<DeviceCap>, id: Seq<char>)
    ensures
        drawn_from(without_id(el, id), el),
    decreases el.len(),
{
    if el.len() > 0 {
        lemma_without_id_drawn(el.drop_last(), id);
        lemma_drop_last_drawn(el, without_id(el.drop_last(), id));
    }
}

/// Some element satisfies `p` no later than `k`, and none before it.
proof fn lemma_first_witness<T>(s: Seq<T>, p: spec_fn(T) -> bool, k: int)
    requires
        0 <= k < s.len(),
        p(s[k]),
    ensures
        exists|i: int| 0 <= i <= k && p(s[i]) && forall|j: int| 0 <= j < i ==> !p(#[trigger] s[j]),
    decreases k,
{
    if exists|j: int| 0 <= j < k && p(s[j]) {
        let j = choose|j: int| 0 <= j < k && p(s[j]);
        lemma_first_witness(s, p, j);
    } else {
        assert(0 <= k <= k && p(s[k]) && forall|j: int| 0 <= j < k ==> !p(#[trigger] s[j]));
    }
}

/// What `first_idx` finds is the first element that satisfies `p`; it finds nothing only when
/// no element does.
pub proof fn lemma_first_idx_found<T>(s: Seq<T>, p: spec_fn(T) -> bool)
    ensures
        match first_idx(s, p) {
            Some(i) => 0 <= i < s.len() && p(s[i]) && forall|j: int| 0 <= j < i ==> !p(#[trigger] s[j]),
            None => forall|j: int| 0 <= j < s.len() ==> !p(#[trigger] s[j]),
        },
{
    if exists|i: int| 0 <= i < s.len() && p(s[i]) {
        let k = choose|i: int| 0 <= i < s.len() && p(s[i]);
        lemma_first_witness(s, p, k);
    }
}

/// Putting the last device into its place in the sorted rest keeps the devices.
proof fn lemma_insert_drawn(s: Seq<DeviceCap>, t: Seq<DeviceCap>)
    requires
        s.len() > 0,
        drawn_from(t, s.drop_last()),
    ensures
        ({
            let p = insert_pos(t, s.last());
            drawn_from(t.subrange(0, p) + seq![s.last()] + t.subrange(p, t.len() as int), s)
        }),
{
    lemma_drop_last_drawn(s, t);
    let p = insert_pos(t, s.last());
    lemma_first_idx_found(t, smaller_than(s.last().usable_bytes));
    assert(0 <= p <= t.len());
    let r = t.subrange(0, p) + seq![s.last()] + t.subrange(p, t.len() as int);
    assert forall|i: int| 0 <= i < r.len() implies s.contains(#[trigger] r[i]) by {
        if i < p {
            assert(r[i] == t[i]);
            assert(s.contains(t[i]));
        } else if i == p {
            assert(r[i] == s[s.len() - 1]);
        } else {
            assert(r[i] == t[i - 1]);
            assert(s.contains(t[i - 1]));
        }
    }
}

/// Sorting keeps the devices.
proof fn lemma_sort_desc_drawn(s: Seq<DeviceCap>)
    ensures
        drawn_from(sort_desc(s), s),
    decreases s.len(),
{
    if s.len() > 0 {
        lemma_sort_desc_drawn(s.drop_last());
        lemma_insert_drawn(s, sort_desc(s.drop_last()));
    }
}

/// Among the first `n` eligible devices, when one can run the model alone, one of them is the
/// best: no candidate beats it, and it beats every candidate before it.
proof fn lemma_best_prefix(el: Seq<DeviceCap>, m: ModelInfoV, n_ctx: u32, pol: Policy, n: int) -> (b: int)
    requires
        0 <= n <= el.len(),
        exists|i: int| 0 <= i < n && single_ok(el[i], m, n_ctx, pol),
    ensures
        0 <= b < n,
        single_ok(el[b], m, n_ctx, pol),
        forall|j: int| 0 <= j < n && single_ok(el[j], m, n_ctx, pol) ==> !beats(el[j], el[b]),
        forall|j: int| 0 <= j < b && single_ok(el[j], m, n_ctx, pol) ==> beats(el[b], el[j]),
    decreases n,
{
    let k = n - 1;
    if exists|i: int| 0 <= i < k && single_ok(el[i], m, n_ctx, pol) {
        let b0 = lemma_best_prefix(el, m, n_ctx, pol, k);
        if single_ok(el[k], m, n_ctx, pol) && beats(el[k], el[b0]) {
            k
        } else {
            b0
        }
    } else {
        k
    }
}

/// When some eligible device can run the model alone, `best_single` names the best one.
proof fn lemma_best_single_found(el: Seq<DeviceCap>, m: ModelInfoV, n_ctx: u32, pol: Policy)
    ensures
        match best_single(el, m, n_ctx, pol) {
            Some(i) => is_best_single(el, i, m, n_ctx, pol),
            None => forall|j: int| 0 <= j < el.len() ==> !single_ok(#[trigger] el[j], m, n_ctx, pol),
        },
{
    if exists|i: int| 0 <= i < el.len() && single_ok(el[i], m, n_ctx, pol) {
        let b = lemma_best_prefix(el, m, n_ctx, pol, el.len() as int);
        assert(is_best_single(el, b, m, n_ctx, pol));
    }
}

/// A device that breaks no rule is eligible.
proof fn lemma_eligible_complete(ds: Seq<DeviceCap>, pol: Policy, mw: nat, i: int)
    requires
        0 <= i < ds.len(),
        why(ds[i], pol, mw) is None,
    ensures
        eligible_of(ds, pol, mw).contains(ds[i]),
    decreases ds.len(),
{
    let e = eligible_of(ds.drop_last(), pol, mw);
    if i < ds.len() - 1 {
        lemma_eligible_complete(ds.drop_last(), pol, mw, i);
        assert(ds.drop_last()[i] == ds[i]);
        let j = choose|j: int| 0 <= j < e.len() && e[j] == ds[i];
        if why(ds.last(), pol, mw) is None {
            assert(e.push(ds.last())[j] == ds[i]);
        }
    } else {
        assert(e.push(ds.last())[e.len() as int] == ds[i]);
    }
}

/// Every placement listed is a rejection.
pub open spec fn all_rejected(ps: Seq<PlacementV>) -> bool {
    forall|a: int| 0 <= a < ps.len() ==> (#[trigger] ps[a]).role == Role::Rejected
}

/// The placements of rejected devices are rejections.
proof fn lemma_rejects_rejected(ds: Seq<DeviceCap>, pol: Policy, mw: nat, ml: nat)
    ensures
        all_rejected(rejects_of(ds, pol, mw, ml)),
    decreases ds.len(),
{
    if ds.len() > 0 {
        lemma_rejects_rejected(ds.drop_last(), pol, mw, ml);
        let r = rejects_of(ds.drop_last(), pol, mw, ml);
        let t = rejects_of(ds, pol, mw, ml);
        assert forall|a: int| 0 <= a < t.len() implies (#[trigger] t[a]).role == Role::Rejected by {
            if a < r.len() {
                assert(t[a] == r[a]);
            }
        }
    }
}

/// The devices a single-device plan does not need are listed as rejections.
proof fn lemma_not_needed_single_rejected(el: Seq<DeviceCap>, id: Seq<char>)
    ensures
        all_rejected(not_needed_single(el, id)),
    decreases el.len(),
{
    if el.len() > 0 {
        lemma_not_needed_single_rejected(el.drop_last(), id);
        let r = not_needed_single(el.drop_last(), id);
        let t = not_needed_single(el, id);
        assert forall|a: int| 0 <= a < t.len() implies (#[trigger] t[a]).role == Role::Rejected by {
            if a < r.len() {
                assert(t[a] == r[a]);
            }
        }
    }
}

/// When a split completes with some device, `first_done` names the first such one.
proof fn lemma_first_done_found(m: ModelInfoV, kvpl: nat, dd: Seq<DeviceCap>, hf: nat)
    ensures
        match first_done(m, kvpl, dd, hf) {
            Some(k) => done_at(m, kvpl, dd, hf, k),
            None => forall|k: int| !done_at(m, kvpl, dd, hf, k),
        },
{
    if exists|k: int| done_at(m, kvpl, dd, hf, k) {
        let k = choose|k: int| done_at(m, kvpl, dd, hf, k);
        let s = Seq::new(dd.len(), |i: int| i);
        let p = |i: int| done_at(m, kvpl, dd, hf, i);
        assert(s[k] == k);
        lemma_first_witness(s, p, k);
        let c = choose|c: int| 0 <= c <= k && p(s[c]) && forall|j: int| 0 <= j < c ==> !p(#[trigger] s[j]);
        assert forall|j: int| 0 <= j < c implies !done_at(m, kvpl, dd, hf, j) by {
            assert(s[j] == j);
        }
        assert(done_at(m, kvpl, dd, hf, c));
    }
}

/// A placement held by a device of `dd` is held by a device of `ds` when `dd` is drawn from `ds`.
proof fn lemma_held_transfer(p: PlacementV, dd: Seq<DeviceCap>, ds: Seq<DeviceCap>)
    requires
        held_by_some(p, dd),
        drawn_from(dd, ds),
    ensures
        held_by_some(p, ds),
{
    let i = choose|i: int| 0 <= i < dd.len() && dd[i].device_id@ == p.device_id
        && p.bytes as nat + p.compute_reserve_bytes as nat <= dd[i].usable_bytes as nat;
    assert(ds.contains(dd[i]));
    let j = choose|j: int| 0 <= j < ds.len() && ds[j] == dd[i];
    assert(0 <= j < ds.len() && ds[j].device_id@ == p.device_id);
}

/// The host of a split is an eligible device that can host, and the requested one when a host
/// was requested.
proof fn lemma_split_host(el: Seq<DeviceCap>, rej: Seq<PlacementV>, pol: Policy)
    requires
        exists|i: int| 0 <= i < el.len() && el[i].can_host,
        pref_error(el, rej, pol) is None,
    ensures
        0 <= split_host(el, pol) < el.len(),
        el[split_host(el, pol)].can_host,
        pol.prefer_host matches Some(w) ==> el[split_host(el, pol)].device_id@ == w@,
{
    lemma_first_idx_found(el, pref_host(pol));
    lemma_first_idx_found(el, local_host());
    lemma_first_idx_found(el, any_host());
    let c = choose|i: int| 0 <= i < el.len() && el[i].can_host;
    assert(any_host()(el[c]));
    match pol.prefer_host {
        Some(w) => {
            lemma_first_idx_found(el, id_is(w@));
            let i = first_idx(el, id_is(w@))->0;
            assert(pref_host(pol)(el[i]));
        },
        None => {},
    }
}

/// The devices of a split are eligible devices, the host first.
proof fn lemma_split_devices(el: Seq<DeviceCap>, rej: Seq<PlacementV>, pol: Policy)
    requires
        exists|i: int| 0 <= i < el.len() && el[i].can_host,
        pref_error(el, rej, pol) is None,
    ensures
        split_devices(el, pol).len() >= 1,
        split_devices(el, pol)[0] == el[split_host(el, pol)],
        drawn_from(split_devices(el, pol), el),
{
    lemma_split_host(el, rej, pol);
    let h = el[split_host(el, pol)];
    let w = without_id(el, h.device_id@);
    lemma_without_id_drawn(el, h.device_id@);
    lemma_sort_desc_drawn(w);
    lemma_drawn_trans(sort_desc(w), w, el);
    let dd = split_devices(el, pol);
    assert(dd == seq![h] + sort_desc(w));
    assert forall|i: int| 0 <= i < dd.len() implies el.contains(#[trigger] dd[i]) by {
        if i == 0 {
            assert(el[split_host(el, pol)] == dd[i]);
        } else {
            assert(dd[i] == sort_desc(w)[i - 1]);
        }
    }
}

/// The layers are laid out as `covered_with` says, over the first `u` placements, and each of
/// those is held by one of the given devices.
pub open spec fn layout_ok(ps: Seq<PlacementV>, ds: Seq<DeviceCap>, n: u32) -> bool {
    exists|u: int| covered_with(ps, n, u) && forall|a: int| 0 <= a < u ==> held_by_some(#[trigger] ps[a], ds)
}

/// Which way `plan_spec` went, when it gave a plan.
proof fn lemma_plan_cases(m: ModelInfoV, ds: Seq<DeviceCap>, n_ctx: u32, pol: Policy)
    requires
        plan_spec(m, ds, n_ctx, pol) is Ok,
    ensures
        ({
            let el = eligible_of(ds, pol, min_worker(m, n_ctx));
            let rej = rejects_of(ds, pol, min_worker(m, n_ctx), min_layer(m, n_ctx));
            &&& exists|i: int| 0 <= i < el.len() && el[i].can_host
            &&& pref_error(el, rej, pol) is None
            &&& plan_spec(m, ds, n_ctx, pol) == match best_single(el, m, n_ctx, pol) {
                Some(i) => Ok(single_plan(m, el, rej, el[i], n_ctx, pol)),
                None => split_result(m, el, rej, n_ctx, pol),
            }
        }),
{
    reveal(plan_spec);
}

/// Rejections after rejections are rejections.
proof fn lemma_all_rejected_concat(a: Seq<PlacementV>, b: Seq<PlacementV>)
    requires
        all_rejected(a),
        all_rejected(b),
    ensures
        all_rejected(a + b),
{
    assert forall|i: int| 0 <= i < (a + b).len() implies (#[trigger] (a + b)[i]).role == Role::Rejected by {
        if i < a.len() {
            assert((a + b)[i] == a[i]);
        } else {
            assert((a + b)[i] == b[i - a.len()]);
        }
    }
}

/// The placements of devices of `dd` are placements of devices of `ds` when `dd` is drawn from `ds`.
proof fn lemma_held_all(used: Seq<PlacementV>, dd: Seq<DeviceCap>, ds: Seq<DeviceCap>)
    requires
        forall|a: int| #![trigger used[a]] 0 <= a < used.len() ==> held_by_some(used[a], dd),
        drawn_from(dd, ds),
    ensures
        forall|a: int| #![trigger used[a]] 0 <= a < used.len() ==> held_by_some(used[a], ds),
{
    assert forall|a: int| #![trigger used[a]] 0 <= a < used.len() implies held_by_some(used[a], ds) by {
        lemma_held_transfer(used[a], dd, ds);
    }
}

/// Used placements laid out over devices of `dd`, followed by rejections, are laid out over
/// devices of `ds` when `dd` is drawn from `ds`.
#[verifier::spinoff_prover]
proof fn lemma_layout_concat(used: Seq<PlacementV>, rest: Seq<PlacementV>, dd: Seq<DeviceCap>, ds: Seq<DeviceCap>, n: u32)
    requires
        used.len() >= 1,
        used[0].role == Role::Host,
        used[0].layer_start == 0,
        chained(used, used.len() as int),
        used[used.len() - 1].layer_end == n,
        forall|a: int| #![trigger used[a]] 0 <= a < used.len() ==> held_by_some(used[a], dd),
        all_rejected(rest),
        drawn_from(dd, ds),
    ensures
        layout_ok(used + rest, ds, n),
{
    lemma_held_all(used, dd, ds);
    let ps = used + rest;
    let u = used.len() as int;
    assert(forall|a: int| 0 <= a < u ==> ps[a] == used[a]);
    assert(forall|a: int| u <= a < ps.len() ==> ps[a] == rest[a - u]);
    assert(chained(ps, u));
    assert(covered_with(ps, n, u));
    assert(forall|a: int| 0 <= a < u ==> held_by_some(#[trigger] ps[a], ds));
}

/// The devices of a split, for the eligible devices `el`.
pub open spec fn split_dd(el: Seq<DeviceCap>, pol: Policy) -> Seq<DeviceCap> {
    split_devices(el, pol)
}

/// The last device a split uses, counting from the host.
pub open spec fn split_last(m: ModelInfoV, el: Seq<DeviceCap>, n_ctx: u32, pol: Policy) -> nat {
    first_done(m, kv_per_layer(m, n_ctx), split_devices(el, pol), host_fixed(m, pol))->0 as nat
}

/// The weight denominator of a split.
pub open spec fn split_den(m: ModelInfoV, el: Seq<DeviceCap>, n_ctx: u32, pol: Policy) -> nat {
    let total = bytes_upto(m, kv_per_layer(m, n_ctx), split_devices(el, pol), host_fixed(m, pol), split_last(m, el, n_ctx, pol) + 1);
    if total >= 1 { total } else { 1 }
}

/// The shape of a split plan.
proof fn lemma_split_shape(m: ModelInfoV, el: Seq<DeviceCap>, rej: Seq<PlacementV>, n_ctx: u32, pol: Policy)
    requires
        split_result(m, el, rej, n_ctx, pol) is Ok,
    ensures
        ({
            let dd = split_devices(el, pol);
            let hf = host_fixed(m, pol);
            let kvpl = kv_per_layer(m, n_ctx);
            let k = split_last(m, el, n_ctx, pol);
            let p = split_result(m, el, rej, n_ctx, pol)->Ok_0;
            &&& first_done(m, kvpl, dd, hf) is Some
            &&& dd[0].usable_bytes as nat > hf + HOST_COMPUTE_RESERVE_BYTES
            &&& p.mode == Mode::LayerSplit
            &&& p.host_id == dd[0].device_id@
            &&& p.placements == split_used(m, kvpl, dd, hf, pol, split_den(m, el, n_ctx, pol), k + 1)
                + not_needed_split(dd, (k + 1) as int) + rej
        }),
{
    reveal(split_result);
}

/// The placements of a split complete with its `k`-th device are laid out over devices of `ds`.
#[verifier::spinoff_prover]
proof fn lemma_split_layout(m: ModelInfoV, kvpl: nat, dd: Seq<DeviceCap>, hf: nat, pol: Policy, den: nat, k: nat, rej: Seq<PlacementV>, ds: Seq<DeviceCap>)
    requires
        done_at(m, kvpl, dd, hf, k as int),
        dd[0].usable_bytes as nat > hf + HOST_COMPUTE_RESERVE_BYTES,
        forall|i: int| 0 < i < dd.len() ==> (#[trigger] dd[i]).usable_bytes >= WORKER_COMPUTE_RESERVE_BYTES,
        all_rejected(rej),
        drawn_from(dd, ds),
    ensures
        ({
            let ps = split_used(m, kvpl, dd, hf, pol, den, k + 1) + not_needed_split(dd, (k + 1) as int) + rej;
            &&& layout_ok(ps, ds, m.n_layer)
            &&& ps[0].role == Role::Host
            &&& ps[0].device_id == dd[0].device_id@
        }),
{
    lemma_split_used(m, kvpl, dd, hf, pol, den, k + 1);
    lemma_start_of(m, kvpl, dd, hf, k + 1);
    let used = split_used(m, kvpl, dd, hf, pol, den, k + 1);
    let nn = not_needed_split(dd, (k + 1) as int);
    assert(all_rejected(nn));
    lemma_all_rejected_concat(nn, rej);
    assert(used + nn + rej == used + (nn + rej));
    lemma_layout_concat(used, nn + rej, dd, ds, m.n_layer);
    assert((used + (nn + rej))[0] == used[0]);
}

/// What a split plan holds: its host is the split's host, its layers are laid out over devices
/// that can hold them.
proof fn lemma_split_facts(m: ModelInfoV, ds: Seq<DeviceCap>, el: Seq<DeviceCap>, rej: Seq<PlacementV>, n_ctx: u32, pol: Policy)
    requires
        el == eligible_of(ds, pol, min_worker(m, n_ctx)),
        exists|i: int| 0 <= i < el.len() && el[i].can_host,
        pref_error(el, rej, pol) is None,
        all_rejected(rej),
        split_result(m, el, rej, n_ctx, pol) is Ok,
    ensures
        ({
            let p = split_result(m, el, rej, n_ctx, pol)->Ok_0;
            &&& p.mode == Mode::LayerSplit
            &&& p.host_id == el[split_host(el, pol)].device_id@
            &&& p.placements.len() >= 1
            &&& p.placements[0].role == Role::Host
            &&& p.placements[0].device_id == p.host_id
            &&& layout_ok(p.placements, ds, m.n_layer)
        }),
{
    let mw = min_worker(m, n_ctx);
    lemma_split_shape(m, el, rej, n_ctx, pol);
    lemma_split_devices(el, rej, pol);
    lemma_eligible_drawn(ds, pol, mw);
    let dd = split_devices(el, pol);
    lemma_drawn_trans(dd, el, ds);
    let hf = host_fixed(m, pol);
    let kvpl = kv_per_layer(m, n_ctx);
    lemma_first_done_found(m, kvpl, dd, hf);
    lemma_drawn_worker(dd, el, ds, pol, mw, m, n_ctx);
    lemma_split_layout(m, kvpl, dd, hf, pol, split_den(m, el, n_ctx, pol), split_last(m, el, n_ctx, pol), rej, ds);
}

/// Every device of a split other than the host brings at least a worker's compute reserve.
proof fn lemma_drawn_worker(dd: Seq<DeviceCap>, el: Seq<DeviceCap>, ds: Seq<DeviceCap>, pol: Policy, mw: nat, m: ModelInfoV, n_ctx: u32)
    requires
        el == eligible_of(ds, pol, mw),
        mw == min_worker(m, n_ctx),
        drawn_from(dd, el),
    ensures
        forall|i: int| 0 < i < dd.len() ==> (#[trigger] dd[i]).usable_bytes >= WORKER_COMPUTE_RESERVE_BYTES,
{
    lemma_eligible_drawn(ds, pol, mw);
    assert forall|i: int| 0 < i < dd.len() implies (#[trigger] dd[i]).usable_bytes >= WORKER_COMPUTE_RESERVE_BYTES by {
        assert(el.contains(dd[i]));
        let j = choose|j: int| 0 <= j < el.len() && el[j] == dd[i];
        assert(why(el[j], pol, mw) is None);
    }
}

/// What a single-device plan holds: its host is the chosen device, which holds every layer and
/// what they need.
proof fn lemma_single_facts(m: ModelInfoV, ds: Seq<DeviceCap>, el: Seq<DeviceCap>, rej: Seq<PlacementV>, n_ctx: u32, pol: Policy, i: int)
    requires
        el == eligible_of(ds, pol, min_worker(m, n_ctx)),
        0 <= i < el.len(),
        single_ok(el[i], m, n_ctx, pol),
        all_rejected(rej),
    ensures
        ({
            let p = single_plan(m, el, rej, el[i], n_ctx, pol);
            &&& p.mode == Mode::Single
            &&& p.host_id == el[i].device_id@
            &&& p.placements.len() >= 1
            &&& p.placements[0].role == Role::Host
            &&& p.placements[0].device_id == p.host_id
            &&& layout_ok(p.placements, ds, m.n_layer)
            &&& p.total_needed_bytes <= p.total_usable_bytes
        }),
{
    lemma_eligible_drawn(ds, pol, min_worker(m, n_ctx));
    let p = single_plan(m, el, rej, el[i], n_ctx, pol);
    let host = p.placements[0];
    let rest = not_needed_single(el, el[i].device_id@);
    lemma_not_needed_single_rejected(el, el[i].device_id@);
    lemma_all_rejected_concat(rest, rej);
    assert(p.placements == seq![host] + (rest + rej));
    assert(host.bytes as nat + host.compute_reserve_bytes as nat <= el[i].usable_bytes as nat);
    assert(held_by_some(host, el));
    let used = seq![host];
    assert(chained(used, 1));
    lemma_layout_concat(used, rest + rej, el, ds, m.n_layer);
}

/// What every plan says of its host: it holds the first placement, it is one of the given
/// devices and can run the model's server, and it is the requested host when one was requested.
pub proof fn law_plan_host(m: ModelInfoV, ds: Seq<DeviceCap>, n_ctx: u32, pol: Policy)
    requires
        plan_spec(m, ds, n_ctx, pol) is Ok,
    ensures
        ({
            let p = plan_spec(m, ds, n_ctx, pol)->Ok_0;
            &&& p.placements.len() >= 1
            &&& p.placements[0].role == Role::Host
            &&& p.placements[0].device_id == p.host_id
            &&& exists|i: int| 0 <= i < ds.len() && ds[i].device_id@ == p.host_id && ds[i].can_host
            &&& (pol.prefer_host matches Some(w) ==> p.host_id == w@)
        }),
{
    let mw = min_worker(m, n_ctx);
    let el = eligible_of(ds, pol, mw);
    let rej = rejects_of(ds, pol, mw, min_layer(m, n_ctx));
    lemma_plan_cases(m, ds, n_ctx, pol);
    lemma_eligible_drawn(ds, pol, mw);
    lemma_rejects_rejected(ds, pol, mw, min_layer(m, n_ctx));
    lemma_best_single_found(el, m, n_ctx, pol);
    let h = match best_single(el, m, n_ctx, pol) {
        Some(i) => {
            lemma_single_facts(m, ds, el, rej, n_ctx, pol, i);
            i
        },
        None => {
            lemma_split_facts(m, ds, el, rej, n_ctx, pol);
            lemma_split_host(el, rej, pol);
            split_host(el, pol)
        },
    };
    assert(ds.contains(el[h]));
    let j = choose|j: int| 0 <= j < ds.len() && ds[j] == el[h];
    assert(0 <= j < ds.len() && ds[j].device_id@ == el[h].device_id@ && ds[j].can_host);
}

/// Every plan places each layer once, in order: the host takes the first layers, each worker
/// starts where the one before it ended and the last ends at the model's last layer; each device
/// that takes part can hold its bytes and its compute reserve; every other device is listed as
/// rejected.
pub proof fn law_plan_layout(m: ModelInfoV, ds: Seq<DeviceCap>, n_ctx: u32, pol: Policy)
    requires
        plan_spec(m, ds, n_ctx, pol) is Ok,
    ensures
        layout_ok(plan_spec(m, ds, n_ctx, pol)->Ok_0.placements, ds, m.n_layer),
{
    let mw = min_worker(m, n_ctx);
    let el = eligible_of(ds, pol, mw);
    let rej = rejects_of(ds, pol, mw, min_layer(m, n_ctx));
    lemma_plan_cases(m, ds, n_ctx, pol);
    lemma_rejects_rejected(ds, pol, mw, min_layer(m, n_ctx));
    lemma_best_single_found(el, m, n_ctx, pol);
    match best_single(el, m, n_ctx, pol) {
        Some(i) => lemma_single_facts(m, ds, el, rej, n_ctx, pol, i),
        None => lemma_split_facts(m, ds, el, rej, n_ctx, pol),
    }
}

/// A device that passes every rule and can run the model alone (it can host, it holds weights,
/// KV, projector and the host reserve, and it is the requested host if one was requested).
pub open spec fn alone_ok(d: DeviceCap, m: ModelInfoV, n_ctx: u32, pol: Policy) -> bool {
    why(d, pol, min_worker(m, n_ctx)) is None && single_ok(d, m, n_ctx, pol)
}

/// A plan runs on one device exactly when some device can run the model alone; that device is
/// then the fastest such (by measured speed, then the local one), and it holds what it needs.
pub proof fn law_plan_single(m: ModelInfoV, ds: Seq<DeviceCap>, n_ctx: u32, pol: Policy)
    requires
        plan_spec(m, ds, n_ctx, pol) is Ok,
    ensures
        ({
            let p = plan_spec(m, ds, n_ctx, pol)->Ok_0;
            &&& (p.mode == Mode::Single <==> exists|i: int| 0 <= i < ds.len() && alone_ok(ds[i], m, n_ctx, pol))
            &&& (p.mode == Mode::Single ==> p.total_needed_bytes <= p.total_usable_bytes)
            &&& (p.mode == Mode::Single ==> exists|i: int| 0 <= i < ds.len() && ds[i].device_id@ == p.host_id
                    && alone_ok(ds[i], m, n_ctx, pol)
                    && forall|j: int| 0 <= j < ds.len() && alone_ok(#[trigger] ds[j], m, n_ctx, pol) ==> !beats(ds[j], ds[i]))
        }),
{
    let mw = min_worker(m, n_ctx);
    let el = eligible_of(ds, pol, mw);
    let rej = rejects_of(ds, pol, mw, min_layer(m, n_ctx));
    let p = plan_spec(m, ds, n_ctx, pol)->Ok_0;
    lemma_plan_cases(m, ds, n_ctx, pol);
    lemma_eligible_drawn(ds, pol, mw);
    lemma_rejects_rejected(ds, pol, mw, min_layer(m, n_ctx));
    lemma_best_single_found(el, m, n_ctx, pol);
    match best_single(el, m, n_ctx, pol) {
        Some(b) => {
            lemma_single_facts(m, ds, el, rej, n_ctx, pol, b);
            assert(ds.contains(el[b]));
            let i = choose|i: int| 0 <= i < ds.len() && ds[i] == el[b];
            assert forall|j: int| 0 <= j < ds.len() && alone_ok(#[trigger] ds[j], m, n_ctx, pol) implies !beats(ds[j], ds[i]) by {
                lemma_eligible_complete(ds, pol, mw, j);
                let k = choose|k: int| 0 <= k < el.len() && el[k] == ds[j];
                assert(single_ok(el[k], m, n_ctx, pol));
            }
            assert(alone_ok(ds[i], m, n_ctx, pol));
        },
        None => {
            lemma_split_facts(m, ds, el, rej, n_ctx, pol);
            if exists|i: int| 0 <= i < ds.len() && alone_ok(ds[i], m, n_ctx, pol) {
                let i = choose|i: int| 0 <= i < ds.len() && alone_ok(ds[i], m, n_ctx, pol);
                lemma_eligible_complete(ds, pol, mw, i);
                let k = choose|k: int| 0 <= k < el.len() && el[k] == ds[i];
                assert(!single_ok(el[k], m, n_ctx, pol));
            }
        },
    }
}

/// Every placement listed gives a reason.
pub open spec fn all_reasoned(ps: Seq<PlacementV>) -> bool {
    forall|a: int| 0 <= a < ps.len() ==> (#[trigger] ps[a]).reason.len() > 0
}

/// Reasons after reasons are reasons.
proof fn lemma_all_reasoned_concat(a: Seq<PlacementV>, b: Seq<PlacementV>)
    requires
        all_reasoned(a),
        all_reasoned(b),
    ensures
        all_reasoned(a + b),
{
    assert forall|i: int| 0 <= i < (a + b).len() implies (#[trigger] (a + b)[i]).reason.len() > 0 by {
        if i < a.len() {
            assert((a + b)[i] == a[i]);
        } else {
            assert((a + b)[i] == b[i - a.len()]);
        }
    }
}

/// A rejected device's reason names the rule it broke.
proof fn lemma_rejects_reasoned(ds: Seq<DeviceCap>, pol: Policy, mw: nat, ml: nat)
    ensures
        all_reasoned(rejects_of(ds, pol, mw, ml)),
    decreases ds.len(),
{
    if ds.len() > 0 {
        lemma_rejects_reasoned(ds.drop_last(), pol, mw, ml);
        let r = rejects_of(ds.drop_last(), pol, mw, ml);
        let t = rejects_of(ds, pol, mw, ml);
        reveal_strlit("rejected: unsupported device (needs arm64 with dotprod + i8mm and ≥ 8 GB, D015)");
        reveal_strlit("rejected: RTT p95 ");
        reveal_strlit("rejected: thermal headroom ");
        reveal_strlit("rejected: battery ");
        reveal_strlit("rejected: ");
        assert forall|a: int| 0 <= a < t.len() implies (#[trigger] t[a]).reason.len() > 0 by {
            if a < r.len() {
                assert(t[a] == r[a]);
            }
        }
    }
}

/// The devices a single-device plan does not need say why.
proof fn lemma_not_needed_single_reasoned(el: Seq<DeviceCap>, id: Seq<char>)
    ensures
        all_reasoned(not_needed_single(el, id)),
    decreases el.len(),
{
    if el.len() > 0 {
        lemma_not_needed_single_reasoned(el.drop_last(), id);
        reveal_strlit("not needed: model fits on the host; adding a device would only add latency");
        let r = not_needed_single(el.drop_last(), id);
        let t = not_needed_single(el, id);
        assert forall|a: int| 0 <= a < t.len() implies (#[trigger] t[a]).reason.len() > 0 by {
            if a < r.len() {
                assert(t[a] == r[a]);
            }
        }
    }
}

/// The devices of a split say why they hold what they hold.
proof fn lemma_split_used_reasoned(m: ModelInfoV, kvpl: nat, dd: Seq<DeviceCap>, hf: nat, pol: Policy, den: nat, k: nat)
    ensures
        all_reasoned(split_used(m, kvpl, dd, hf, pol, den, k)),
    decreases k,
{
    if k > 0 {
        let i = (k - 1) as nat;
        lemma_split_used_reasoned(m, kvpl, dd, hf, pol, den, i);
        reveal(split_reason_of);
        reveal_strlit("host: layers ");
        reveal_strlit("worker: layers ");
        let r = split_used(m, kvpl, dd, hf, pol, den, i);
        let t = split_used(m, kvpl, dd, hf, pol, den, k);
        assert(split_entry(m, kvpl, dd, hf, pol, den, i).reason.len() > 0);
        assert forall|a: int| 0 <= a < t.len() implies (#[trigger] t[a]).reason.len() > 0 by {
            if a < r.len() {
                assert(t[a] == r[a]);
            }
        }
    }
}

/// Every placement of every plan carries a reason: why the device holds its layers, why it is not
/// needed, or which rule it broke.
#[verifier::rlimit(40)]
pub proof fn law_every_placement_has_a_reason(m: ModelInfoV, ds: Seq<DeviceCap>, n_ctx: u32, pol: Policy)
    requires
        plan_spec(m, ds, n_ctx, pol) is Ok,
    ensures
        all_reasoned(plan_spec(m, ds, n_ctx, pol)->Ok_0.placements),
{
    let mw = min_worker(m, n_ctx);
    let ml = min_layer(m, n_ctx);
    let el = eligible_of(ds, pol, mw);
    let rej = rejects_of(ds, pol, mw, ml);
    lemma_plan_cases(m, ds, n_ctx, pol);
    lemma_rejects_reasoned(ds, pol, mw, ml);
    match best_single(el, m, n_ctx, pol) {
        Some(i) => {
            let p = single_plan(m, el, rej, el[i], n_ctx, pol);
            let rest = not_needed_single(el, el[i].device_id@);
            lemma_not_needed_single_reasoned(el, el[i].device_id@);
            lemma_all_reasoned_concat(rest, rej);
            reveal(single_reason);
            reveal_strlit("fits on one device: needs ");
            let host = p.placements[0];
            assert(host.reason.len() > 0);
            assert(all_reasoned(seq![host]));
            lemma_all_reasoned_concat(seq![host], rest + rej);
            assert(p.placements == seq![host] + (rest + rej));
        },
        None => {
            lemma_split_shape(m, el, rej, n_ctx, pol);
            let dd = split_devices(el, pol);
            let k = split_last(m, el, n_ctx, pol);
            let den = split_den(m, el, n_ctx, pol);
            let used = split_used(m, kv_per_layer(m, n_ctx), dd, host_fixed(m, pol), pol, den, k + 1);
            let nn = not_needed_split(dd, (k + 1) as int);
            lemma_split_used_reasoned(m, kv_per_layer(m, n_ctx), dd, host_fixed(m, pol), pol, den, k + 1);
            reveal_strlit("not needed: pooled memory already holds the model; fewer devices = fewer network hops");
            assert(all_reasoned(nn));
            lemma_all_reasoned_concat(used, nn);
            lemma_all_reasoned_concat(used + nn, rej);
        },
    }
}

} // verus!
