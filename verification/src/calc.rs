//! The decisions of the Calculate step: what each placed device holds as a stack, what a device
//! could hold on its own, how a model is categorised (easy / hard / impossible) against the
//! mesh's capacities, and the plain-words reasons and hints shown with it.
use vstd::prelude::*;
use crate::cost::StackInput;
use crate::gguf::{ModelInfo, ModelInfoV, weight_bytes_of};
use crate::layers::{LayerConfig, LayerConfigV, UnitV, UnitKind, stack_of, in_stack, stack_fits};
use crate::planner::{Placement, PlacementV, Plan, PlanV, Role, DeviceCap, Policy, PlanError, PlanErrorV, Mode,
    WORKER_COMPUTE_RESERVE_BYTES, HOST_COMPUTE_RESERVE_BYTES, plan, plan_spec, plan_bounds, placements_view, needed, kv_total,
    first_idx, lemma_first_idx, lemma_first_idx_none};
use crate::text::{dec, owned, contains, push_str, push_dec, chars_of, contains_chars, two_decimals, push_two_decimals,
    round_div, starts_with, starts_with_at};

verus! {

/// Default context length of a request.
pub fn default_ctx() -> (r: u32)
    ensures
        r == 4096,
{
    4096
}

/// Default prompt length of a costed request.
pub fn default_prompt() -> (r: u32)
    ensures
        r == 500,
{
    500
}

/// Default answer length of a costed request.
pub fn default_answer() -> (r: u32)
    ensures
        r == 200,
{
    200
}

/// What the Calculate step is asked.
#[derive(Debug, Clone)]
pub struct CalcReq {
    pub model: String,
    pub n_ctx: u32,
    pub host: Option<String>,
    pub prompt_tokens: u32,
    pub answer_tokens: u32,
}

/// What the feasibility overview is asked.
#[derive(Debug, Clone)]
pub struct FeasReq {
    pub n_ctx: u32,
}

/// One device's verdict in the Calculate step.
#[derive(Debug, Clone)]
pub struct DeviceVerdict {
    pub device_id: String,
    pub name: String,
    pub code: &'static str,
    pub text: String,
    /// How many blocks this device could hold on its own at this context (0 = none).
    pub max_layers: u32,
}

/// One concrete change that would flip a model's category (or explain it).
#[derive(Debug, Clone)]
pub struct Need {
    /// "context" | "free_memory" | "device" | "quant" | "download"
    pub what: &'static str,
    pub detail: String,
    pub device_id: Option<String>,
    pub bytes: Option<u64>,
}

/// The mathematical form of a [`Need`].
pub struct NeedV {
    pub what: Seq<char>,
    pub detail: Seq<char>,
    pub device_id: Option<Seq<char>>,
    pub bytes: Option<u64>,
}

impl View for Need {
    type V = NeedV;

    open spec fn view(&self) -> NeedV {
        NeedV {
            what: self.what@,
            detail: self.detail@,
            device_id: match self.device_id {
                Some(d) => Some(d@),
                None => None,
            },
            bytes: self.bytes,
        }
    }
}

/// Views of a sequence of needs.
pub open spec fn needs_view(v: Seq<Need>) -> Seq<NeedV> {
    Seq::new(v.len(), |i: int| v[i]@)
}

// ------------------------------------------------------------------------------------------------
// Stacks.

/// Bytes, read bytes per token and FLOPs per token of the units that always sit on the host.
pub open spec fn fixed_sums(us: Seq<UnitV>) -> (nat, nat, nat)
    decreases us.len(),
{
    if us.len() == 0 {
        (0, 0, 0)
    } else {
        let (b, r, f) = fixed_sums(us.drop_last());
        let u = us.last();
        if u.kind != UnitKind::Block {
            (b + u.bytes as nat, r + u.read_bytes_per_token as nat, f + u.flops_per_token as nat)
        } else {
            (b, r, f)
        }
    }
}

/// Totals over all units: bytes, read bytes, FLOPs and KV bytes per token.
pub open spec fn unit_totals(us: Seq<UnitV>) -> (nat, nat, nat, nat)
    decreases us.len(),
{
    if us.len() == 0 {
        (0, 0, 0, 0)
    } else {
        let (b, r, f, k) = unit_totals(us.drop_last());
        let u = us.last();
        (b + u.bytes as nat, r + u.read_bytes_per_token as nat, f + u.flops_per_token as nat, k + u.kv_bytes_per_token as nat)
    }
}

/// The layer config's totals fit in 64 bits, so every stack of it does.
pub open spec fn totals_fit(c: LayerConfigV) -> bool {
    let t = unit_totals(c.units);
    t.0 <= u64::MAX && t.1 <= u64::MAX && t.2 <= u64::MAX && t.3 <= u64::MAX
}

/// A stack and the host's fixed units together never exceed the totals.
proof fn lemma_sums_le_totals(us: Seq<UnitV>, a: u32, b: u32)
    ensures
        stack_of(us, a, b).0 + fixed_sums(us).0 <= unit_totals(us).0,
        stack_of(us, a, b).1 + fixed_sums(us).1 <= unit_totals(us).1,
        stack_of(us, a, b).2 + fixed_sums(us).2 <= unit_totals(us).2,
        stack_of(us, a, b).3 <= unit_totals(us).3,
    decreases us.len(),
{
    if us.len() > 0 {
        lemma_sums_le_totals(us.drop_last(), a, b);
    }
}

/// Totals over a prefix never exceed the totals.
proof fn lemma_totals_prefix(us: Seq<UnitV>, k: int)
    requires
        0 <= k <= us.len(),
    ensures
        unit_totals(us.subrange(0, k)).0 <= unit_totals(us).0,
        unit_totals(us.subrange(0, k)).1 <= unit_totals(us).1,
        unit_totals(us.subrange(0, k)).2 <= unit_totals(us).2,
        unit_totals(us.subrange(0, k)).3 <= unit_totals(us).3,
    decreases us.len() - k,
{
    if k < us.len() {
        lemma_totals_prefix(us.drop_last(), k);
        assert(us.drop_last().subrange(0, k) =~= us.subrange(0, k));
    } else {
        assert(us.subrange(0, k) =~= us);
    }
}

/// Every stack of a layer config whose totals fit fits too.
proof fn lemma_stack_fits(c: LayerConfigV, a: u32, b: u32)
    requires
        totals_fit(c),
    ensures
        stack_fits(c.units, a, b),
{
    assert forall|k: int| 0 <= k <= c.units.len() implies {
        let s = #[trigger] stack_of(c.units.subrange(0, k), a, b);
        s.0 <= u64::MAX && s.1 <= u64::MAX && s.2 <= u64::MAX && s.3 <= u64::MAX
    } by {
        lemma_sums_le_totals(c.units.subrange(0, k), a, b);
        lemma_totals_prefix(c.units, k);
    }
}

/// Whether the layer config's totals fit in 64 bits (see [`totals_fit`]).
pub fn config_totals_fit(cfg: &LayerConfig) -> (r: bool)
    ensures
        r == totals_fit(cfg@),
{
    let ghost us = cfg@.units;
    let mut b: u64 = 0;
    let mut rd: u64 = 0;
    let mut f: u64 = 0;
    let mut k: u64 = 0;
    let mut i: usize = 0;
    assert(us.subrange(0, 0) =~= Seq::<UnitV>::empty());
    while i < cfg.units.len()
        invariant
            us == cfg@.units,
            us.len() == cfg.units@.len(),
            i <= us.len(),
            (b as nat, rd as nat, f as nat, k as nat) == unit_totals(us.subrange(0, i as int)),
        decreases us.len() - i,
    {
        let u = &cfg.units[i];
        assert(us[i as int] == u@);
        assert(us.subrange(0, i + 1).drop_last() =~= us.subrange(0, i as int));
        proof {
            lemma_totals_prefix(us, i + 1);
        }
        match (b.checked_add(u.bytes), rd.checked_add(u.read_bytes_per_token), f.checked_add(u.flops_per_token),
            k.checked_add(u.kv_bytes_per_token)) {
            (Some(b2), Some(r2), Some(f2), Some(k2)) => {
                b = b2;
                rd = r2;
                f = f2;
                k = k2;
            },
            _ => {
                return false;
            },
        }
        i = i + 1;
    }
    assert(us.subrange(0, us.len() as int) =~= us);
    true
}

/// Totals of the units that always sit on the host (embedding, head, other).
pub fn host_fixed(cfg: &LayerConfig) -> (r: (u64, u64, u64))
    requires
        totals_fit(cfg@),
    ensures
        (r.0 as nat, r.1 as nat, r.2 as nat) == fixed_sums(cfg@.units),
{
    let ghost us = cfg@.units;
    let mut w: (u64, u64, u64) = (0, 0, 0);
    let mut i: usize = 0;
    assert(fixed_sums(us.subrange(0, 0)) == (0nat, 0nat, 0nat));
    while i < cfg.units.len()
        invariant
            us == cfg@.units,
            i <= us.len(),
            totals_fit(cfg@),
            (w.0 as nat, w.1 as nat, w.2 as nat) == fixed_sums(us.subrange(0, i as int)),
        decreases us.len() - i,
    {
        let ghost pre = us.subrange(0, i + 1);
        assert(pre.drop_last() =~= us.subrange(0, i as int));
        assert(pre.last() == cfg.units@[i as int]@);
        proof {
            lemma_sums_le_totals(pre, 0, 0);
            lemma_totals_prefix(us, i + 1);
        }
        let u = &cfg.units[i];
        if u.kind != UnitKind::Block {
            w = (w.0 + u.bytes, w.1 + u.read_bytes_per_token, w.2 + u.flops_per_token);
        }
        i = i + 1;
    }
    assert(us.subrange(0, us.len() as int) =~= us);
    w
}

/// The mathematical form of a [`StackInput`].
pub struct StackInputV {
    pub device_id: Seq<char>,
    pub is_host: bool,
    pub layer_start: u32,
    pub layer_end: u32,
    pub weight_bytes: u64,
    pub read_bytes_per_token: u64,
    pub flops_per_token: u64,
    pub kv_bytes_per_token: u64,
}

/// The view of a stack input.
pub open spec fn stack_input_view(s: StackInput) -> StackInputV {
    StackInputV {
        device_id: s.device_id@,
        is_host: s.is_host,
        layer_start: s.layer_start,
        layer_end: s.layer_end,
        weight_bytes: s.weight_bytes,
        read_bytes_per_token: s.read_bytes_per_token,
        flops_per_token: s.flops_per_token,
        kv_bytes_per_token: s.kv_bytes_per_token,
    }
}

/// Views of a sequence of stack inputs.
pub open spec fn stack_inputs_view(v: Seq<StackInput>) -> Seq<StackInputV> {
    Seq::new(v.len(), |i: int| stack_input_view(v[i]))
}

/// The stack of blocks `a..b` on a device, with the host's fixed units when it is the host.
pub open spec fn stack_input_of(c: LayerConfigV, id: Seq<char>, host: bool, a: u32, b: u32) -> StackInputV {
    let s = stack_of(c.units, a, b);
    let h = if host { fixed_sums(c.units) } else { (0, 0, 0) };
    StackInputV {
        device_id: id,
        is_host: host,
        layer_start: a,
        layer_end: b,
        weight_bytes: (s.0 + h.0) as u64,
        read_bytes_per_token: (s.1 + h.1) as u64,
        flops_per_token: (s.2 + h.2) as u64,
        kv_bytes_per_token: s.3 as u64,
    }
}

/// The stack input of blocks `a..b`.
fn stack_input(cfg: &LayerConfig, id: &str, host: bool, a: u32, b: u32) -> (s: StackInput)
    requires
        totals_fit(cfg@),
    ensures
        stack_input_view(s) == stack_input_of(cfg@, id@, host, a, b),
{
    proof {
        lemma_stack_fits(cfg@, a, b);
        lemma_sums_le_totals(cfg@.units, a, b);
    }
    let (sb, sr, sf, skv) = cfg.stack(a, b);
    let (hb, hr, hf): (u64, u64, u64) = if host { host_fixed(cfg) } else { (0, 0, 0) };
    StackInput {
        device_id: owned(id),
        is_host: host,
        layer_start: a,
        layer_end: b,
        weight_bytes: sb + hb,
        read_bytes_per_token: sr + hr,
        flops_per_token: sf + hf,
        kv_bytes_per_token: skv,
    }
}

/// One device's whole-model stack (used to back out speeds from single-device runs).
pub fn whole_stack(cfg: &LayerConfig, id: &str) -> (s: StackInput)
    requires
        totals_fit(cfg@),
    ensures
        stack_input_view(s) == stack_input_of(cfg@, id@, true, 0, cfg@.shape.n_layer),
{
    stack_input(cfg, id, true, 0, cfg.shape.n_layer)
}

/// The stacks a plan puts on its devices, in placement order, rejected devices left out.
pub open spec fn stacks_spec(ps: Seq<PlacementV>, c: LayerConfigV) -> Seq<StackInputV>
    decreases ps.len(),
{
    if ps.len() == 0 {
        Seq::empty()
    } else {
        let r = stacks_spec(ps.drop_last(), c);
        let p = ps.last();
        if p.role != Role::Rejected {
            r.push(stack_input_of(c, p.device_id, p.role == Role::Host, p.layer_start, p.layer_end))
        } else {
            r
        }
    }
}

/// The stacks a plan puts on its devices, in placement order, rejected devices left out.
pub fn stacks_from(p: &Plan, cfg: &LayerConfig) -> (r: Vec<StackInput>)
    requires
        totals_fit(cfg@),
    ensures
        stack_inputs_view(r@) == stacks_spec(p@.placements, cfg@),
{
    let ghost ps = p@.placements;
    let mut r: Vec<StackInput> = Vec::new();
    let mut i: usize = 0;
    assert(stack_inputs_view(r@) =~= stacks_spec(ps.subrange(0, 0), cfg@));
    while i < p.placements.len()
        invariant
            ps == p@.placements,
            ps.len() == p.placements@.len(),
            i <= ps.len(),
            totals_fit(cfg@),
            stack_inputs_view(r@) == stacks_spec(ps.subrange(0, i as int), cfg@),
        decreases ps.len() - i,
    {
        let ghost pre = ps.subrange(0, i + 1);
        assert(pre.drop_last() =~= ps.subrange(0, i as int));
        assert(pre.last() == p.placements@[i as int]@);
        let pl = &p.placements[i];
        if pl.role != Role::Rejected {
            let s = stack_input(cfg, pl.device_id.as_str(), pl.role == Role::Host, pl.layer_start, pl.layer_end);
            let ghost old_r = r@;
            r.push(s);
            assert(stack_inputs_view(r@) =~= stack_inputs_view(old_r).push(stack_input_view(s)));
        }
        i = i + 1;
    }
    assert(ps.subrange(0, ps.len() as int) =~= ps);
    r
}

/// How many blocks of `per_layer` bytes (weights + KV) a device with `usable` bytes could hold
/// on its own, after its worker compute reserve, at most `n_layer`.
pub open spec fn max_layers_of(usable: u64, per_layer: u64, n_layer: u32) -> nat {
    if per_layer == 0 {
        0
    } else {
        let free: nat = if usable >= WORKER_COMPUTE_RESERVE_BYTES { (usable - WORKER_COMPUTE_RESERVE_BYTES) as nat } else { 0 };
        let k = free / per_layer as nat;
        if k <= n_layer { k } else { n_layer as nat }
    }
}

/// A device could hold the largest number of whole blocks, at most `n_layer`, that fit in its
/// usable memory after the worker compute reserve: that many fit, and one more would not (unless
/// it already holds every layer).
pub proof fn law_max_layers(usable: u64, per_layer: u64, n_layer: u32)
    requires
        per_layer > 0,
    ensures
        ({
            let r = max_layers_of(usable, per_layer, n_layer);
            let free: int = if usable >= WORKER_COMPUTE_RESERVE_BYTES { usable - WORKER_COMPUTE_RESERVE_BYTES } else { 0 };
            &&& r <= n_layer
            &&& r * per_layer <= free
            &&& (r == n_layer || (r + 1) * per_layer > free)
        }),
{
    let free: nat = if usable >= WORKER_COMPUTE_RESERVE_BYTES { (usable - WORKER_COMPUTE_RESERVE_BYTES) as nat } else { 0 };
    let p = per_layer as nat;
    let k = free / p;
    assert(k * p <= free && (k + 1) * p > free) by (nonlinear_arith)
        requires
            p > 0,
            k == free / p,
    ;
    if k > n_layer {
        assert((n_layer as nat) * p <= k * p) by (nonlinear_arith)
            requires
                n_layer <= k,
        ;
    }
}

/// How many blocks a device could hold on its own (see [`max_layers_of`]).
pub fn max_layers(usable: u64, per_layer: u64, n_layer: u32) -> (r: u32)
    ensures
        r == max_layers_of(usable, per_layer, n_layer),
{
    if per_layer == 0 {
        return 0;
    }
    let free = usable.saturating_sub(WORKER_COMPUTE_RESERVE_BYTES);
    let k = free / per_layer;
    if k <= n_layer as u64 { k as u32 } else { n_layer }
}

// ------------------------------------------------------------------------------------------------
// Hints for a refusal.

/// The Unicode lower case of a text.
pub uninterp spec fn lower_case(s: Seq<char>) -> Seq<char>;

/// `str::to_lowercase` (std): the Unicode lower case of `s`, as named by [`lower_case`].
#[verifier::external_body]
fn to_lower(s: &str) -> (r: String)
    ensures
        r@ == lower_case(s@),
{
    s.to_lowercase()
}

/// The hints shown for a refusal whose lower-cased text is `e`.
pub open spec fn hints_of(e: Seq<char>) -> Seq<Seq<char>> {
    let mem = if contains(e, "bytes"@) || contains(e, "hold"@) || contains(e, "pool"@) || contains(e, "memory"@) {
        seq![
            "Lower the conversation memory to 2k."@,
            "Pick a smaller model or a smaller quantisation."@,
            "Close apps on the phone and on the laptop to free memory."@,
            "Pair another device."@
        ]
    } else {
        Seq::empty()
    };
    let rtt = if contains(e, "rtt"@) { seq!["Use a cable, USB tethering or a hotspot instead of shared Wi-Fi."@] } else { Seq::empty() };
    let bat = if contains(e, "battery"@) { seq!["Plug the phone in."@] } else { Seq::empty() };
    let h = mem + rtt + bat;
    if h.len() == 0 { seq!["Open the Details drawer for the raw reason."@] } else { h }
}

/// Views of a sequence of strings.
pub open spec fn texts_view(v: Seq<String>) -> Seq<Seq<char>> {
    Seq::new(v.len(), |i: int| v[i]@)
}

/// Pushes a text onto a list of texts.
fn push_text(v: &mut Vec<String>, t: &str)
    ensures
        texts_view(final(v)@) == texts_view(old(v)@).push(t@),
{
    v.push(owned(t));
    assert(texts_view(v@) =~= texts_view(old(v)@).push(t@));
}

/// Concrete things to try after a refusal with text `err`: free memory for a memory refusal,
/// change the link for an RTT refusal, plug in for a battery refusal, else look at the details.
pub fn fix_hints(err: &str) -> (h: Vec<String>)
    ensures
        texts_view(h@) == hints_of(lower_case(err@)),
{
    let e = to_lower(err);
    let c = chars_of(e.as_str());
    let mut h: Vec<String> = Vec::new();
    let k_bytes = chars_of("bytes");
    let k_hold = chars_of("hold");
    let k_pool = chars_of("pool");
    let k_mem = chars_of("memory");
    let k_rtt = chars_of("rtt");
    let k_bat = chars_of("battery");
    if contains_chars(c.as_slice(), k_bytes.as_slice()) || contains_chars(c.as_slice(), k_hold.as_slice())
        || contains_chars(c.as_slice(), k_pool.as_slice()) || contains_chars(c.as_slice(), k_mem.as_slice()) {
        push_text(&mut h, "Lower the conversation memory to 2k.");
        push_text(&mut h, "Pick a smaller model or a smaller quantisation.");
        push_text(&mut h, "Close apps on the phone and on the laptop to free memory.");
        push_text(&mut h, "Pair another device.");
    }
    if contains_chars(c.as_slice(), k_rtt.as_slice()) {
        push_text(&mut h, "Use a cable, USB tethering or a hotspot instead of shared Wi-Fi.");
    }
    if contains_chars(c.as_slice(), k_bat.as_slice()) {
        push_text(&mut h, "Plug the phone in.");
    }
    if h.len() == 0 {
        push_text(&mut h, "Open the Details drawer for the raw reason.");
    }
    assert(texts_view(h@) =~= hints_of(lower_case(err@)));
    h
}

// ------------------------------------------------------------------------------------------------
// A model that is not on disk yet.

/// The model a catalog entry stands for before it is downloaded: weights even across `layers`
/// blocks, nothing outside them, KV unknown (0).
pub open spec fn synth_spec(file: Seq<char>, name: Seq<char>, bytes: u64, layers: u32) -> ModelInfoV {
    let per: u64 = (bytes as nat / (if layers >= 1 { layers as nat } else { 1 })) as u64;
    ModelInfoV {
        path: file,
        file_bytes: bytes,
        version: 3,
        arch: "unknown"@,
        name,
        quant_label: "unknown"@,
        n_layer: layers,
        n_embd: 0,
        n_head: 0,
        n_head_kv: 0,
        n_ctx_train: 0,
        n_expert: 0,
        n_expert_used: 0,
        non_layer_bytes: 0,
        layer_bytes: Seq::new(layers as nat, |i: int| per),
        kv_bytes_per_token: 0,
        tensor_count: 0,
    }
}

/// A model built from the catalog's own size and layer count for a file that is not on disk yet:
/// no tensor table exists to read, so weights are assumed even across layers and the KV cache is
/// left at 0 (unknown until the real shapes are known).
pub fn synth_model_info(file: &str, name: &str, bytes: u64, layers: u32) -> (m: ModelInfo)
    ensures
        m@ == synth_spec(file@, name@, bytes, layers),
{
    let per: u64 = bytes / (if layers >= 1 { layers as u64 } else { 1 });
    let mut lb: Vec<u64> = Vec::new();
    let mut i: u32 = 0;
    while i < layers
        invariant
            i <= layers,
            lb@ == Seq::new(i as nat, |j: int| per),
        decreases layers - i,
    {
        lb.push(per);
        assert(lb@ =~= Seq::new((i + 1) as nat, |j: int| per));
        i = i + 1;
    }
    ModelInfo {
        path: owned(file),
        file_bytes: bytes,
        version: 3,
        arch: owned("unknown"),
        name: owned(name),
        quant_label: owned("unknown"),
        n_layer: layers,
        n_embd: 0,
        n_head: 0,
        n_head_kv: 0,
        n_ctx_train: 0,
        n_expert: 0,
        n_expert_used: 0,
        non_layer_bytes: 0,
        layer_bytes: lb,
        kv_bytes_per_token: 0,
        tensor_count: 0,
    }
}

// ------------------------------------------------------------------------------------------------
// What it would take to run on one device.

/// Gigabytes with two decimals.
pub open spec fn gb2(x: nat) -> Seq<char> {
    two_decimals(x, 10_000_000)
}

/// Whether `d` may run the model alone as host.
pub open spec fn host_candidate(d: DeviceCap) -> bool {
    d.can_host && d.supported
}

/// Whether `caps[i]` is the candidate with the most usable memory (the last such on a tie).
pub open spec fn is_best_host(caps: Seq<DeviceCap>, i: int) -> bool {
    &&& 0 <= i < caps.len()
    &&& host_candidate(caps[i])
    &&& forall|j: int| 0 <= j < caps.len() && host_candidate(caps[j]) ==> caps[j].usable_bytes <= caps[i].usable_bytes
    &&& forall|j: int| i < j < caps.len() && host_candidate(caps[j]) ==> caps[j].usable_bytes < caps[i].usable_bytes
}

/// The candidate host with the most usable memory, if any.
pub open spec fn best_host(caps: Seq<DeviceCap>) -> Option<int> {
    if exists|i: int| 0 <= i < caps.len() && host_candidate(caps[i]) {
        Some(choose|i: int| is_best_host(caps, i))
    } else {
        None
    }
}

/// The text of a single-device gap.
#[verifier::opaque]
pub open spec fn gap_text(deficit: nat, name: Seq<char>, need: nat, usable: nat) -> Seq<char> {
    "free about "@ + gb2(deficit) + " GB more on "@ + name + " to run without splitting ("@ + gb2(need)
        + " GB needed, "@ + gb2(usable) + " GB usable)"@
}

/// What running `m` alone on the best candidate host would still need, if anything.
pub open spec fn gap_spec(caps: Seq<DeviceCap>, m: ModelInfoV, extra: u64, n_ctx: u32) -> Option<NeedV> {
    let need = needed(m, n_ctx) + extra + HOST_COMPUTE_RESERVE_BYTES;
    match best_host(caps) {
        None => None,
        Some(i) => {
            let d = caps[i];
            if d.usable_bytes >= need {
                None
            } else {
                Some(NeedV {
                    what: "free_memory"@,
                    detail: gap_text((need - d.usable_bytes) as nat, d.name@, need as nat, d.usable_bytes as nat),
                    device_id: Some(d.device_id@),
                    bytes: Some((need - d.usable_bytes) as u64),
                })
            }
        },
    }
}

/// A scan's best host is the one `best_host` names.
proof fn lemma_best_host(caps: Seq<DeviceCap>, i: int)
    requires
        is_best_host(caps, i),
    ensures
        best_host(caps) == Some(i),
{
    let k = choose|k: int| is_best_host(caps, k);
    assert(is_best_host(caps, k));
    if k < i {
        assert(caps[i].usable_bytes < caps[k].usable_bytes);
    }
    if i < k {
        assert(caps[k].usable_bytes < caps[i].usable_bytes);
    }
}

/// When some device may host alone, one of them has the most usable memory (the last on a tie).
proof fn lemma_best_exists(caps: Seq<DeviceCap>)
    requires
        exists|i: int| 0 <= i < caps.len() && host_candidate(caps[i]),
    ensures
        exists|i: int| is_best_host(caps, i),
    decreases caps.len(),
{
    let n = caps.len() - 1;
    let p = caps.drop_last();
    if exists|i: int| 0 <= i < p.len() && host_candidate(p[i]) {
        let w = choose|i: int| 0 <= i < p.len() && host_candidate(p[i]);
        assert(caps[w] == p[w]);
        lemma_best_exists(p);
        let b = choose|i: int| is_best_host(p, i);
        assert(caps[b] == p[b]);
        if host_candidate(caps[n]) && caps[n].usable_bytes >= caps[b].usable_bytes {
            assert forall|j: int| 0 <= j < caps.len() && host_candidate(caps[j]) implies caps[j].usable_bytes <= caps[n].usable_bytes by {
                if j < n {
                    assert(caps[j] == p[j]);
                }
            }
            assert(is_best_host(caps, n));
        } else {
            assert forall|j: int| 0 <= j < caps.len() && host_candidate(caps[j]) implies caps[j].usable_bytes <= caps[b].usable_bytes by {
                if j < n {
                    assert(caps[j] == p[j]);
                }
            }
            assert forall|j: int| b < j < caps.len() && host_candidate(caps[j]) implies caps[j].usable_bytes < caps[b].usable_bytes by {
                if j < n {
                    assert(caps[j] == p[j]);
                }
            }
            assert(is_best_host(caps, b));
        }
    } else {
        let w = choose|i: int| 0 <= i < caps.len() && host_candidate(caps[i]);
        if w < n {
            assert(p[w] == caps[w]);
        }
        assert forall|j: int| 0 <= j < caps.len() && host_candidate(caps[j]) implies j == n by {
            if j < n {
                assert(p[j] == caps[j]);
            }
        }
        assert(is_best_host(caps, n));
    }
}

/// The device a single-device gap names may host and is supported, has the most usable memory of
/// all such devices, and falls short of what a single-device run needs by exactly the bytes named;
/// there is no gap exactly when no device may host alone or one of them already has enough.
pub proof fn law_gap_names_the_best_host(caps: Seq<DeviceCap>, m: ModelInfoV, extra: u64, n_ctx: u32)
    ensures
        ({
            let need = needed(m, n_ctx) + extra + HOST_COMPUTE_RESERVE_BYTES;
            &&& (gap_spec(caps, m, extra, n_ctx) matches Some(g) ==> exists|i: int| {
                &&& 0 <= i < caps.len()
                &&& #[trigger] caps[i].can_host && caps[i].supported
                &&& g.device_id == Some(caps[i].device_id@)
                &&& caps[i].usable_bytes < need
                &&& g.bytes == Some((need - caps[i].usable_bytes) as u64)
                &&& forall|j: int| 0 <= j < caps.len() && caps[j].can_host && caps[j].supported ==>
                    #[trigger] caps[j].usable_bytes <= caps[i].usable_bytes
            })
            &&& (gap_spec(caps, m, extra, n_ctx) is None <==>
                (forall|j: int| 0 <= j < caps.len() ==> !(#[trigger] caps[j]).can_host || !caps[j].supported)
                || exists|k: int| 0 <= k < caps.len() && (#[trigger] caps[k]).can_host && caps[k].supported
                    && caps[k].usable_bytes >= need)
        }),
{
    let need = needed(m, n_ctx) + extra + HOST_COMPUTE_RESERVE_BYTES;
    if exists|i: int| 0 <= i < caps.len() && host_candidate(caps[i]) {
        lemma_best_exists(caps);
        let b = choose|i: int| is_best_host(caps, i);
        lemma_best_host(caps, b);
        assert(caps[b].can_host && caps[b].supported);
        if caps[b].usable_bytes < need {
            assert forall|k: int| 0 <= k < caps.len() && (#[trigger] caps[k]).can_host && caps[k].supported implies
                caps[k].usable_bytes < need by {
                assert(host_candidate(caps[k]));
            }
        }
    } else {
        assert forall|j: int| 0 <= j < caps.len() implies !(#[trigger] caps[j]).can_host || !caps[j].supported by {
            assert(!host_candidate(caps[j]));
        }
    }
}

/// What it would take to run the model on one device instead of splitting: the gap between the
/// best host-capable device's usable memory and what a single-device run needs; `None` when no
/// device qualifies or the gap is already closed.
pub fn single_device_gap(caps: &[DeviceCap], info: &ModelInfo, host_extra: u64, n_ctx: u32) -> (r: Option<Need>)
    requires
        needed(info@, n_ctx) + host_extra + HOST_COMPUTE_RESERVE_BYTES <= u64::MAX,
    ensures
        gap_spec(caps@, info@, host_extra, n_ctx) == (match r {
            Some(n) => Some(n@),
            None => None,
        }),
{
    proof {
        crate::gguf::lemma_sum_prefix_le(info@.layer_bytes, 0);
    }
    let need = info.weight_bytes() + info.kv_bytes(n_ctx) + host_extra + HOST_COMPUTE_RESERVE_BYTES;
    let mut best: Option<usize> = None;
    let mut j: usize = 0;
    while j < caps.len()
        invariant
            j <= caps@.len(),
            best is None ==> forall|k: int| 0 <= k < j ==> !host_candidate(#[trigger] caps@[k]),
            best matches Some(b) ==> {
                &&& b < j
                &&& host_candidate(caps@[b as int])
                &&& forall|k: int| 0 <= k < j && host_candidate(#[trigger] caps@[k]) ==> caps@[k].usable_bytes <= caps@[b as int].usable_bytes
                &&& forall|k: int| b < k < j && host_candidate(#[trigger] caps@[k]) ==> caps@[k].usable_bytes < caps@[b as int].usable_bytes
            },
        decreases caps@.len() - j,
    {
        let d = &caps[j];
        if d.can_host && d.supported {
            match best {
                None => {
                    best = Some(j);
                },
                Some(b) => {
                    if d.usable_bytes >= caps[b].usable_bytes {
                        best = Some(j);
                    }
                },
            }
        }
        j = j + 1;
    }
    match best {
        None => None,
        Some(b) => {
            proof {
                lemma_best_host(caps@, b as int);
            }
            let d = &caps[b];
            if d.usable_bytes >= need {
                None
            } else {
                let deficit = need - d.usable_bytes;
                let mut t = String::new();
                push_str(&mut t, "free about ");
                push_two_decimals(&mut t, deficit, 10_000_000);
                push_str(&mut t, " GB more on ");
                push_str(&mut t, d.name.as_str());
                push_str(&mut t, " to run without splitting (");
                push_two_decimals(&mut t, need, 10_000_000);
                push_str(&mut t, " GB needed, ");
                push_two_decimals(&mut t, d.usable_bytes, 10_000_000);
                push_str(&mut t, " GB usable)");
                proof {
                    reveal_strlit("");
                    reveal(gap_text);
                }
                assert(t@ =~= gap_text(deficit as nat, d.name@, need as nat, d.usable_bytes as nat));
                Some(Need { what: "free_memory", detail: t, device_id: Some(d.device_id.clone()), bytes: Some(deficit) })
            }
        },
    }
}

// ------------------------------------------------------------------------------------------------
// Why a model cannot run.

/// The reason text and the need for a planner refusal at `ctx` tokens of context.
#[verifier::opaque]
pub open spec fn reason_spec(e: PlanErrorV, ctx: u32) -> (Seq<char>, Option<NeedV>) {
    match e {
        PlanErrorV::NoDevices => ("no eligible device is online right now"@, None),
        PlanErrorV::NoHost => (
            "no eligible device can host llama-server — only compute-only workers are online"@,
            Some(NeedV {
                what: "device"@,
                detail: "pair or bring online a device that can act as host (a phone or this laptop)"@,
                device_id: None,
                bytes: None,
            }),
        ),
        PlanErrorV::HostTooSmall { host, usable, fixed } => {
            let deficit: nat = if fixed >= usable { (fixed - usable) as nat } else { 0 };
            (
                "host "@ + host + " holds "@ + gb2(usable as nat) + " GB but the embeddings/output tensors + compute reserve alone need "@
                    + gb2(fixed as nat) + " GB at "@ + dec(ctx as nat) + " tokens of context — short "@ + gb2(deficit) + " GB"@,
                Some(NeedV {
                    what: "free_memory"@,
                    detail: "free at least "@ + dec(round_div(deficit, 1_000_000)) + " MB on "@ + host,
                    device_id: Some(host),
                    bytes: Some(deficit as u64),
                }),
            )
        },
        PlanErrorV::DoesNotFit { needed, available } => {
            let deficit: nat = if needed >= available { (needed - available) as nat } else { 0 };
            (
                "needs "@ + gb2(needed as nat) + " GB pooled (weights + KV + compute reserves at "@ + dec(ctx as nat)
                    + " tokens of context) but the online devices pool only "@ + gb2(available as nat) + " GB — short "@
                    + gb2(deficit) + " GB"@,
                Some(NeedV {
                    what: "device"@,
                    detail: "pair one more device with at least "@ + gb2(deficit)
                        + " GB free, or free that much across the paired devices"@,
                    device_id: None,
                    bytes: Some(deficit as u64),
                }),
            )
        },
        PlanErrorV::HostNotEligible { host, reason } => ("requested host "@ + host + " is not eligible: "@ + reason, None),
    }
}

/// Turns a planner refusal into the reason text and, usually, one concrete need.
pub fn impossible_reason(err: &PlanError, ctx: u32) -> (r: (String, Option<Need>))
    ensures
        reason_spec(err@, ctx) == (r.0@, match r.1 {
            Some(n) => Some(n@),
            None => None::<NeedV>,
        }),
{
    proof {
        reveal(reason_spec);
        reveal_strlit("");
    }
    match err {
        PlanError::NoDevices => (owned("no eligible device is online right now"), None),
        PlanError::NoHost => (
            owned("no eligible device can host llama-server — only compute-only workers are online"),
            Some(Need {
                what: "device",
                detail: owned("pair or bring online a device that can act as host (a phone or this laptop)"),
                device_id: None,
                bytes: None,
            }),
        ),
        PlanError::HostTooSmall { host, usable, fixed } => {
            let deficit = fixed.saturating_sub(*usable);
            let mut t = String::new();
            push_str(&mut t, "host ");
            push_str(&mut t, host.as_str());
            push_str(&mut t, " holds ");
            push_two_decimals(&mut t, *usable, 10_000_000);
            push_str(&mut t, " GB but the embeddings/output tensors + compute reserve alone need ");
            push_two_decimals(&mut t, *fixed, 10_000_000);
            push_str(&mut t, " GB at ");
            push_dec(&mut t, ctx as u64);
            push_str(&mut t, " tokens of context — short ");
            push_two_decimals(&mut t, deficit, 10_000_000);
            push_str(&mut t, " GB");
            let mut d = String::new();
            push_str(&mut d, "free at least ");
            let q = deficit / 1_000_000;
            let rm = deficit % 1_000_000;
            let mb: u64 = if rm * 2 >= 1_000_000 { q + 1 } else { q };
            assert(mb as nat == round_div(deficit as nat, 1_000_000));
            push_dec(&mut d, mb);
            push_str(&mut d, " MB on ");
            push_str(&mut d, host.as_str());
            let ghost e = err@;
            assert(t@ =~= reason_spec(e, ctx).0);
            assert(d@ =~= reason_spec(e, ctx).1->Some_0.detail);
            (t, Some(Need { what: "free_memory", detail: d, device_id: Some(host.clone()), bytes: Some(deficit) }))
        },
        PlanError::DoesNotFit { needed, available } => {
            let deficit = needed.saturating_sub(*available);
            let mut t = String::new();
            push_str(&mut t, "needs ");
            push_two_decimals(&mut t, *needed, 10_000_000);
            push_str(&mut t, " GB pooled (weights + KV + compute reserves at ");
            push_dec(&mut t, ctx as u64);
            push_str(&mut t, " tokens of context) but the online devices pool only ");
            push_two_decimals(&mut t, *available, 10_000_000);
            push_str(&mut t, " GB — short ");
            push_two_decimals(&mut t, deficit, 10_000_000);
            push_str(&mut t, " GB");
            let mut d = String::new();
            push_str(&mut d, "pair one more device with at least ");
            push_two_decimals(&mut d, deficit, 10_000_000);
            push_str(&mut d, " GB free, or free that much across the paired devices");
            let ghost e = err@;
            assert(t@ =~= reason_spec(e, ctx).0);
            assert(d@ =~= reason_spec(e, ctx).1->Some_0.detail);
            (t, Some(Need { what: "device", detail: d, device_id: None, bytes: Some(deficit) }))
        },
        PlanError::HostNotEligible { host, reason } => {
            let mut t = String::new();
            push_str(&mut t, "requested host ");
            push_str(&mut t, host.as_str());
            push_str(&mut t, " is not eligible: ");
            push_str(&mut t, reason.as_str());
            let ghost e = err@;
            assert(t@ =~= reason_spec(e, ctx).0);
            (t, None)
        },
    }
}

// ------------------------------------------------------------------------------------------------
// Easy, hard or impossible.

/// How a model fares against the mesh: its category, why, the plan (if any), how many devices it
/// uses, and what would change the answer.
#[derive(Debug)]
pub struct Decision {
    /// "easy" | "hard" | "impossible"
    pub category: &'static str,
    pub reason: String,
    pub plan: Option<Plan>,
    pub devices_used: u32,
    pub needs: Vec<Need>,
}

/// The mathematical form of a [`Decision`].
pub struct DecisionV {
    pub category: Seq<char>,
    pub reason: Seq<char>,
    pub plan: Option<PlanV>,
    pub devices_used: u32,
    pub needs: Seq<NeedV>,
}

impl View for Decision {
    type V = DecisionV;

    open spec fn view(&self) -> DecisionV {
        DecisionV {
            category: self.category@,
            reason: self.reason@,
            plan: match self.plan {
                Some(p) => Some(p@),
                None => None,
            },
            devices_used: self.devices_used,
            needs: needs_view(self.needs@),
        }
    }
}

/// `s`, followed by the estimate note when there is one.
pub open spec fn with_note(s: Seq<char>, note: Option<Seq<char>>) -> Seq<char> {
    match note {
        Some(n) => s + " — "@ + n,
        None => s,
    }
}

/// The number of placements that are not rejected.
pub open spec fn used_count(ps: Seq<PlacementV>) -> nat
    decreases ps.len(),
{
    if ps.len() == 0 {
        0
    } else {
        used_count(ps.drop_last()) + if ps.last().role != Role::Rejected { 1nat } else { 0nat }
    }
}

/// A need as a list of at most one.
pub open spec fn need_list(n: Option<NeedV>) -> Seq<NeedV> {
    match n {
        Some(x) => seq![x],
        None => Seq::empty(),
    }
}

/// The category rule: easy when the model runs on one device at `n_ctx`; hard when it runs only
/// split, or only at 2,048 tokens of context; impossible otherwise, with the planner's reason at
/// the shorter of `n_ctx` and 2,048.
#[verifier::opaque]
pub open spec fn decide_spec(caps: Seq<DeviceCap>, m: ModelInfoV, pol: Policy, n_ctx: u32, note: Option<Seq<char>>) -> DecisionV {
    match plan_spec(m, caps, n_ctx, pol) {
        Ok(p) => if p.mode == Mode::Single {
            DecisionV { category: "easy"@, reason: with_note(p.summary, note), plan: Some(p), devices_used: 1, needs: Seq::empty() }
        } else {
            let u = used_count(p.placements) as u32;
            DecisionV {
                category: "hard"@,
                reason: with_note("runs only when split across "@ + dec(u as nat) + " devices: "@ + p.summary, note),
                plan: Some(p),
                devices_used: u as u32,
                needs: need_list(gap_spec(caps, m, pol.host_extra_bytes, n_ctx)),
            }
        },
        Err(e) => {
            let p2 = if n_ctx > 2048 { plan_spec(m, caps, 2048, pol) } else { Err(e) };
            match p2 {
                Ok(q) => {
                    let u = used_count(q.placements) as u32;
                    DecisionV {
                        category: "hard"@,
                        reason: with_note("does not fit at "@ + dec(n_ctx as nat) + " tokens of context; fits at 2,048 tokens across "@
                            + dec(u as nat) + " device"@ + (if u == 1 { Seq::empty() } else { "s"@ }), note),
                        plan: Some(q),
                        devices_used: u as u32,
                        needs: seq![NeedV {
                            what: "context"@,
                            detail: "use a 2,048-token conversation memory instead of "@ + dec(n_ctx as nat),
                            device_id: None,
                            bytes: None,
                        }],
                    }
                },
                Err(e2) => {
                    let floor: u32 = if n_ctx <= 2048 { n_ctx } else { 2048 };
                    let (r, nd) = reason_spec(e2, floor);
                    DecisionV { category: "impossible"@, reason: with_note(r, note), plan: None, devices_used: 0, needs: need_list(nd) }
                },
            }
        },
    }
}

/// The number of placements of a plan that are not rejected.
fn count_used(p: &Plan) -> (n: usize)
    ensures
        n == used_count(p@.placements),
{
    let ghost ps = p@.placements;
    let mut n: usize = 0;
    let mut i: usize = 0;
    while i < p.placements.len()
        invariant
            ps == p@.placements,
            ps.len() == p.placements@.len(),
            i <= ps.len(),
            n == used_count(ps.subrange(0, i as int)),
            n <= i,
        decreases ps.len() - i,
    {
        let ghost pre = ps.subrange(0, i + 1);
        assert(pre.drop_last() =~= ps.subrange(0, i as int));
        assert(pre.last() == p.placements@[i as int]@);
        if p.placements[i].role != Role::Rejected {
            n = n + 1;
        }
        i = i + 1;
    }
    assert(ps.subrange(0, ps.len() as int) =~= ps);
    n
}

/// `s` followed by the estimate note when there is one.
fn push_note(s: &mut String, note: Option<&str>)
    ensures
        final(s)@ == with_note(old(s)@, match note {
            Some(n) => Some(n@),
            None => None,
        }),
{
    match note {
        Some(n) => {
            push_str(s, " — ");
            push_str(s, n);
        },
        None => {},
    }
}

/// Categorises a model against the devices' capacities at `n_ctx` tokens of context (see
/// [`decide_spec`]); `estimate_note` is appended to the reason.
#[verifier::spinoff_prover]
#[verifier::rlimit(40)]
pub fn decide(caps: &[DeviceCap], info: &ModelInfo, pol: &Policy, n_ctx: u32, estimate_note: Option<&str>) -> (d: Decision)
    requires
        plan_bounds(info@, caps@, n_ctx, *pol),
    ensures
        d@ == decide_spec(caps@, info@, *pol, n_ctx, match estimate_note {
            Some(n) => Some(n@),
            None => None,
        }),
{
    let ghost note = match estimate_note {
        Some(n) => Some(n@),
        None => None::<Seq<char>>,
    };
    proof {
        reveal(decide_spec);
        reveal_strlit("");
    }
    match plan(info, caps, n_ctx, pol) {
        Ok(p) => {
            if p.mode == Mode::Single {
                let mut reason = p.summary.clone();
                push_note(&mut reason, estimate_note);
                let d = Decision { category: "easy", reason, plan: Some(p), devices_used: 1, needs: Vec::new() };
                assert(d@.needs =~= Seq::<NeedV>::empty());
                d
            } else {
                let used = count_used(&p) as u32;
                let mut reason = String::new();
                push_str(&mut reason, "runs only when split across ");
                push_dec(&mut reason, used as u64);
                push_str(&mut reason, " devices: ");
                push_str(&mut reason, p.summary.as_str());
                push_note(&mut reason, estimate_note);
                let mut needs: Vec<Need> = Vec::new();
                match single_device_gap(caps, info, pol.host_extra_bytes, n_ctx) {
                    Some(nd) => needs.push(nd),
                    None => {},
                }
                let d = Decision { category: "hard", reason, plan: Some(p), devices_used: used, needs };
                assert(d@.needs =~= need_list(gap_spec(caps@, info@, pol.host_extra_bytes, n_ctx)));
                assert(d@.reason =~= decide_spec(caps@, info@, *pol, n_ctx, note).reason);
                d
            }
        },
        Err(e) => {
            let second = if n_ctx > 2048 {
                proof {
                    crate::planner::lemma_plan_bounds_shorter(info@, caps@, n_ctx, 2048, *pol);
                }
                plan(info, caps, 2048, pol)
            } else {
                Err(e)
            };
            match second {
                Ok(q) => {
                    let used = count_used(&q) as u32;
                    let mut reason = String::new();
                    push_str(&mut reason, "does not fit at ");
                    push_dec(&mut reason, n_ctx as u64);
                    push_str(&mut reason, " tokens of context; fits at 2,048 tokens across ");
                    push_dec(&mut reason, used as u64);
                    push_str(&mut reason, " device");
                    if used != 1 {
                        push_str(&mut reason, "s");
                    }
                    push_note(&mut reason, estimate_note);
                    let mut detail = String::new();
                    push_str(&mut detail, "use a 2,048-token conversation memory instead of ");
                    push_dec(&mut detail, n_ctx as u64);
                    let mut needs: Vec<Need> = Vec::new();
                    needs.push(Need { what: "context", detail, device_id: None, bytes: None });
                    let d = Decision { category: "hard", reason, plan: Some(q), devices_used: used, needs };
                    assert(d@.needs =~= decide_spec(caps@, info@, *pol, n_ctx, note).needs);
                    assert(d@.reason =~= decide_spec(caps@, info@, *pol, n_ctx, note).reason);
                    d
                },
                Err(e2) => {
                    let floor: u32 = if n_ctx <= 2048 { n_ctx } else { 2048 };
                    let (r, nd) = impossible_reason(&e2, floor);
                    let mut reason = r;
                    push_note(&mut reason, estimate_note);
                    let mut needs: Vec<Need> = Vec::new();
                    match nd {
                        Some(x) => needs.push(x),
                        None => {},
                    }
                    let d = Decision { category: "impossible", reason, plan: None, devices_used: 0, needs };
                    assert(d@.needs =~= decide_spec(caps@, info@, *pol, n_ctx, note).needs);
                    d
                },
            }
        },
    }
}

// ------------------------------------------------------------------------------------------------
// Verdicts per device.

/// `b - 1`, or 0.
pub open spec fn last_of(b: u32) -> nat {
    if b >= 1 { (b - 1) as nat } else { 0 }
}

/// The verdict on a placed device that could hold `ml` of `n_layer` blocks on its own.
#[verifier::opaque]
pub open spec fn verdict_spec(p: PlacementV, ml: u32, n_layer: u32) -> (Seq<char>, Seq<char>) {
    match p.role {
        Role::Host => ("used"@, "host: layers "@ + dec(p.layer_start as nat) + "–"@ + dec(last_of(p.layer_end))
            + " plus the input/output tables"@),
        Role::Worker => ("used"@, "helper: layers "@ + dec(p.layer_start as nat) + "–"@ + dec(last_of(p.layer_end)) + " ("@
            + dec((p.layer_end - p.layer_start) as nat) + " layers)"@),
        Role::Rejected => if starts_with(p.reason, "not needed"@) {
            ("capable_not_needed"@, if ml > 0 {
                "could hold up to "@ + dec(ml as nat) + " of "@ + dec(n_layer as nat) + " layers; not needed"@
            } else {
                "not needed; could not hold even one layer right now"@
            })
        } else {
            ("not_capable"@, p.reason)
        },
    }
}

/// The verdict on a placed device: its code and its text.
pub fn placement_verdict(p: &Placement, ml: u32, n_layer: u32) -> (r: (&'static str, String))
    requires
        p.role == Role::Worker ==> p.layer_start <= p.layer_end,
    ensures
        (r.0@, r.1@) == verdict_spec(p@, ml, n_layer),
{
    proof {
        reveal(verdict_spec);
        reveal_strlit("");
    }
    let last: u32 = if p.layer_end >= 1 { p.layer_end - 1 } else { 0 };
    match p.role {
        Role::Host => {
            let mut t = String::new();
            push_str(&mut t, "host: layers ");
            push_dec(&mut t, p.layer_start as u64);
            push_str(&mut t, "–");
            push_dec(&mut t, last as u64);
            push_str(&mut t, " plus the input/output tables");
            assert(t@ =~= verdict_spec(p@, ml, n_layer).1);
            ("used", t)
        },
        Role::Worker => {
            let mut t = String::new();
            push_str(&mut t, "helper: layers ");
            push_dec(&mut t, p.layer_start as u64);
            push_str(&mut t, "–");
            push_dec(&mut t, last as u64);
            push_str(&mut t, " (");
            push_dec(&mut t, (p.layer_end - p.layer_start) as u64);
            push_str(&mut t, " layers)");
            assert(t@ =~= verdict_spec(p@, ml, n_layer).1);
            ("used", t)
        },
        Role::Rejected => {
            let rc = chars_of(p.reason.as_str());
            let nn = chars_of("not needed");
            if starts_with_at(rc.as_slice(), 0, nn.as_slice()) {
                if ml > 0 {
                    let mut t = String::new();
                    push_str(&mut t, "could hold up to ");
                    push_dec(&mut t, ml as u64);
                    push_str(&mut t, " of ");
                    push_dec(&mut t, n_layer as u64);
                    push_str(&mut t, " layers; not needed");
                    assert(t@ =~= verdict_spec(p@, ml, n_layer).1);
                    ("capable_not_needed", t)
                } else {
                    ("capable_not_needed", owned("not needed; could not hold even one layer right now"))
                }
            } else {
                ("not_capable", p.reason.clone())
            }
        },
    }
}

/// The verdict on a device when no plan exists: whether it could hold any block on its own.
#[verifier::opaque]
pub open spec fn capacity_verdict_spec(ml: u32, n_layer: u32) -> (Seq<char>, Seq<char>) {
    if ml > 0 {
        ("capable"@, "could hold up to "@ + dec(ml as nat) + " of "@ + dec(n_layer as nat) + " layers"@)
    } else {
        ("not_capable"@, "cannot hold even one layer right now"@)
    }
}

/// The verdict on a device when no plan exists.
pub fn capacity_verdict(ml: u32, n_layer: u32) -> (r: (&'static str, String))
    ensures
        (r.0@, r.1@) == capacity_verdict_spec(ml, n_layer),
{
    proof {
        reveal(capacity_verdict_spec);
        reveal_strlit("");
    }
    if ml > 0 {
        let mut t = String::new();
        push_str(&mut t, "could hold up to ");
        push_dec(&mut t, ml as u64);
        push_str(&mut t, " of ");
        push_dec(&mut t, n_layer as u64);
        push_str(&mut t, " layers");
        assert(t@ =~= capacity_verdict_spec(ml, n_layer).1);
        ("capable", t)
    } else {
        ("not_capable", owned("cannot hold even one layer right now"))
    }
}

// ------------------------------------------------------------------------------------------------
// Every model of the catalog and of the disk, judged.

/// The note on a judgement made from the catalog's figures alone.
pub open spec fn catalog_note() -> Seq<char> {
    "estimated from the catalog's file size and layer count — not downloaded, so weights are assumed even across layers and the KV cache is not modelled (the real need will be higher once it is on disk)"@
}

/// The reason a companion file is never judged runnable.
pub open spec fn companion_reason() -> Seq<char> {
    "not a standalone model: it is a companion file (a vision projector) loaded alongside another model, never run by itself"@
}

/// The need to download a catalog file of `bytes` bytes first.
pub open spec fn download_need(file: Seq<char>, bytes: u64) -> NeedV {
    NeedV {
        what: "download"@,
        detail: "download "@ + file + " ("@ + two_decimals(bytes as nat, 10_000_000) + " GB)"@,
        device_id: None,
        bytes: Some(bytes),
    }
}

/// Whether the model judged can be planned within 64-bit arithmetic: the file on disk, or the
/// catalog's figures when it is not downloaded (a companion file is never planned).
pub open spec fn judge_bounds(caps: Seq<DeviceCap>, disk: Option<ModelInfoV>, file: Seq<char>, name: Seq<char>,
    cat_bytes: u64, cat_layers: u32, n_ctx: u32, pol: Policy) -> bool
{
    match disk {
        Some(m) => plan_bounds(m, caps, n_ctx, pol),
        None => cat_layers > 0 ==> plan_bounds(synth_spec(file, name, cat_bytes, cat_layers), caps, n_ctx, pol),
    }
}

/// How a model of the catalog or of the disk fares: a catalog file with no blocks of its own is a
/// companion and impossible alone; a file on disk is judged on its header; a file not downloaded
/// on the catalog's figures, with that noted and its download listed first among the needs.
pub open spec fn judge_spec(caps: Seq<DeviceCap>, disk: Option<ModelInfoV>, file: Seq<char>, name: Seq<char>,
    cat_bytes: u64, cat_layers: u32, n_ctx: u32, pol: Policy) -> DecisionV
{
    match disk {
        Some(m) => decide_spec(caps, m, pol, n_ctx, None),
        None => if cat_layers == 0 {
            DecisionV { category: "impossible"@, reason: companion_reason(), plan: None, devices_used: 0, needs: Seq::empty() }
        } else {
            let d = decide_spec(caps, synth_spec(file, name, cat_bytes, cat_layers), pol, n_ctx, Some(catalog_note()));
            DecisionV { needs: seq![download_need(file, cat_bytes)] + d.needs, ..d }
        },
    }
}

/// Judges one model (see [`judge_spec`]): `disk` is its header when the file is on disk,
/// `cat_bytes` and `cat_layers` the catalog's figures otherwise.
pub fn judge_model(caps: &[DeviceCap], disk: Option<&ModelInfo>, file: &str, name: &str, cat_bytes: u64, cat_layers: u32,
    n_ctx: u32, pol: &Policy) -> (d: Decision)
    requires
        judge_bounds(caps@, match disk { Some(m) => Some(m@), None => None }, file@, name@, cat_bytes, cat_layers, n_ctx, *pol),
    ensures
        d@ == judge_spec(caps@, match disk { Some(m) => Some(m@), None => None }, file@, name@, cat_bytes, cat_layers, n_ctx, *pol),
{
    match disk {
        Some(m) => decide(caps, m, pol, n_ctx, None),
        None => {
            if cat_layers == 0 {
                let d = Decision {
                    category: "impossible",
                    reason: owned("not a standalone model: it is a companion file (a vision projector) loaded alongside another model, never run by itself"),
                    plan: None,
                    devices_used: 0,
                    needs: Vec::new(),
                };
                assert(d@.needs =~= Seq::<NeedV>::empty());
                return d;
            }
            let info = synth_model_info(file, name, cat_bytes, cat_layers);
            let note = "estimated from the catalog's file size and layer count — not downloaded, so weights are assumed even across layers and the KV cache is not modelled (the real need will be higher once it is on disk)";
            let d = decide(caps, &info, pol, n_ctx, Some(note));
            let mut detail = owned("download ");
            push_str(&mut detail, file);
            push_str(&mut detail, " (");
            push_two_decimals(&mut detail, cat_bytes, 10_000_000);
            push_str(&mut detail, " GB)");
            let first = Need { what: "download", detail, device_id: None, bytes: Some(cat_bytes) };
            let ghost rest = d@.needs;
            let mut needs: Vec<Need> = Vec::new();
            needs.push(first);
            let mut others = d.needs;
            needs.append(&mut others);
            assert(needs_view(needs@) =~= seq![download_need(file@, cat_bytes)] + rest);
            Decision { category: d.category, reason: d.reason, plan: d.plan, devices_used: d.devices_used, needs }
        },
    }
}

/// The title a model file gets: its own name, or its file name when the name is blank.
pub open spec fn title_spec(name: Seq<char>, file: Seq<char>) -> Seq<char> {
    if (forall|i: int| 0 <= i < name.len() ==> crate::state::is_ws(#[trigger] name[i])) { file } else { name }
}

/// The title a model file gets (see [`title_spec`]), so that no card is ever blank.
pub fn model_title(name: &str, file: &str) -> (r: String)
    ensures
        r@ == title_spec(name@, file@),
{
    let cs = chars_of(name);
    let mut i: usize = 0;
    while i < cs.len() && crate::state::is_ws_exec(cs[i])
        invariant
            i <= cs@.len(),
            cs@ == name@,
            forall|j: int| 0 <= j < i ==> crate::state::is_ws(#[trigger] cs@[j]),
        decreases cs@.len() - i,
    {
        i = i + 1;
    }
    if i == cs.len() { owned(file) } else { owned(name) }
}

// ------------------------------------------------------------------------------------------------
// The Calculate step's verdict.

/// The placement is the host's.
pub open spec fn is_host_placement() -> spec_fn(PlacementV) -> bool {
    |p: PlacementV| p.role == Role::Host
}

/// The placement is a device the plan could do without.
pub open spec fn is_not_needed() -> spec_fn(PlacementV) -> bool {
    |p: PlacementV| p.role == Role::Rejected && starts_with(p.reason, "not needed"@)
}

/// The name of the plan's host placement, if it has one.
pub open spec fn host_name_of(ps: Seq<PlacementV>) -> Option<Seq<char>> {
    match first_idx(ps, is_host_placement()) {
        Some(i) => Some(ps[i].name),
        None => None,
    }
}

/// The position of the first host placement (with `host`) or of the first device not needed
/// (without).
fn first_where(p: &Plan, host: bool) -> (r: Option<usize>)
    ensures
        match r {
            Some(i) => first_idx(p@.placements, if host { is_host_placement() } else { is_not_needed() }) == Some(i as int)
                && i < p@.placements.len(),
            None => first_idx(p@.placements, if host { is_host_placement() } else { is_not_needed() }) is None,
        },
{
    let ghost ps = p@.placements;
    let ghost keep = if host { is_host_placement() } else { is_not_needed() };
    let nn = chars_of("not needed");
    proof {
        reveal_strlit("not needed");
    }
    let mut i: usize = 0;
    while i < p.placements.len()
        invariant
            ps == p@.placements,
            ps.len() == p.placements@.len(),
            keep == (if host { is_host_placement() } else { is_not_needed() }),
            nn@ == "not needed"@,
            i <= ps.len(),
            forall|j: int| 0 <= j < i ==> !keep(#[trigger] ps[j]),
        decreases ps.len() - i,
    {
        let pl = &p.placements[i];
        assert(pl@ == ps[i as int]);
        let hit = if host {
            pl.role == Role::Host
        } else {
            pl.role == Role::Rejected && {
                let rc = chars_of(pl.reason.as_str());
                starts_with_at(rc.as_slice(), 0, nn.as_slice())
            }
        };
        proof {
            let rc = pl.reason@;
            assert(rc.subrange(0, 0 + nn@.len() as int) =~= rc.subrange(0, nn@.len() as int));
            assert(starts_with(rc, nn@) == crate::text::occurs_at(rc, nn@, 0));
        }
        if hit {
            proof {
                lemma_first_idx(ps, keep, i as int);
            }
            return Some(i);
        }
        i = i + 1;
    }
    proof {
        lemma_first_idx_none(ps, keep);
    }
    None
}

/// The average block's bytes, and what one block needs at `n_ctx` tokens of context: its
/// weights and its share of the KV cache.
pub open spec fn layer_need_spec(c: LayerConfigV, n_ctx: u32) -> (nat, nat) {
    let n = c.shape.n_layer;
    let st = stack_of(c.units, 0, n);
    if n > 0 {
        let avg = st.0 / n as nat;
        (avg, avg + (st.3 / n as nat) * n_ctx as nat)
    } else {
        (0, 0)
    }
}

/// What one block needs (see [`layer_need_spec`]): the average block and its weights + KV.
pub fn layer_need(cfg: &LayerConfig, n_ctx: u32) -> (r: (u64, u64))
    requires
        totals_fit(cfg@),
        layer_need_spec(cfg@, n_ctx).1 <= u64::MAX,
    ensures
        (r.0 as nat, r.1 as nat) == layer_need_spec(cfg@, n_ctx),
{
    let n = cfg.shape.n_layer;
    proof {
        lemma_stack_fits(cfg@, 0, n);
    }
    let (blk, _, _, kv_all) = cfg.stack(0, n);
    if n == 0 {
        return (0, 0);
    }
    let avg = blk / n as u64;
    let kvl = kv_all / n as u64;
    assert(kvl as nat * n_ctx as nat <= u64::MAX);
    let per = avg + kvl * n_ctx as u64;
    (avg, per)
}

/// The verdict of the Calculate step: where the model can run, or why it cannot.
pub open spec fn run_verdict_spec(p: Option<PlanV>, error: Seq<char>) -> (Seq<char>, Seq<char>) {
    match p {
        Some(p) => if p.mode == Mode::Single {
            ("can_run_single"@, "Can run on "@ + match host_name_of(p.placements) { Some(n) => n, None => p.host_id } + " alone."@)
        } else {
            ("can_run_split"@, "Can run split across "@ + dec(used_count(p.placements)) + " devices."@)
        },
        None => ("cannot_run"@, "Cannot run: "@ + error),
    }
}

/// The verdict of the Calculate step (see [`run_verdict_spec`]); `error` is the planner's refusal
/// when there is no plan.
pub fn run_verdict(p: Option<&Plan>, error: &str) -> (r: (&'static str, String))
    ensures
        (r.0@, r.1@) == run_verdict_spec(match p { Some(p) => Some(p@), None => None }, error@),
{
    match p {
        Some(p) => {
            if p.mode == Mode::Single {
                let mut t = owned("Can run on ");
                match first_where(p, true) {
                    Some(i) => push_str(&mut t, p.placements[i].name.as_str()),
                    None => push_str(&mut t, p.host_id.as_str()),
                }
                push_str(&mut t, " alone.");
                ("can_run_single", t)
            } else {
                let n = count_used(p);
                let mut t = owned("Can run split across ");
                push_dec(&mut t, n as u64);
                push_str(&mut t, " devices.");
                ("can_run_split", t)
            }
        },
        None => {
            let mut t = owned("Cannot run: ");
            push_str(&mut t, error);
            ("cannot_run", t)
        },
    }
}

/// The placement of a single-device plan that the plan could do without, if any: the first
/// device rejected as not needed.
pub fn first_not_needed(p: &Plan) -> (r: Option<usize>)
    ensures
        match r {
            Some(i) => first_idx(p@.placements, is_not_needed()) == Some(i as int),
            None => first_idx(p@.placements, is_not_needed()) is None,
        },
{
    first_where(p, false)
}

/// The split nobody should run, costed anyway so the screen can say why not: the host keeps the
/// first blocks and the unneeded device `w` takes the last `k` it could hold, when it could hold
/// some but not all; with its label.
pub open spec fn not_chosen_spec(p: PlanV, c: LayerConfigV, w: int, k: u32) -> Option<(Seq<char>, Seq<StackInputV>)> {
    let n = c.shape.n_layer;
    if 0 < k && k < n {
        let cut = (n - k) as u32;
        Some((not_chosen_label_spec(p, w, cut, n),
            seq![stack_input_of(c, p.host_id, true, 0, cut), stack_input_of(c, p.placements[w].device_id, false, cut, n)]))
    } else {
        None
    }
}

/// The label of the split nobody should run: the host's blocks and the unneeded device's.
pub open spec fn not_chosen_label_spec(p: PlanV, w: int, cut: u32, n: u32) -> Seq<char> {
    (match host_name_of(p.placements) { Some(h) => h, None => "host"@ }) + " 0–"@ + dec(last_of(cut))
        + " + "@ + p.placements[w].name + " "@ + dec(cut as nat) + "–"@ + dec(last_of(n)) + " (not chosen)"@
}

/// The label of the split nobody should run.
fn not_chosen_label(p: &Plan, w: usize, cut: u32, n: u32) -> (l: String)
    requires
        w < p@.placements.len(),
    ensures
        l@ == not_chosen_label_spec(p@, w as int, cut, n),
{
    let mut label = String::new();
    match first_where(p, true) {
        Some(i) => push_str(&mut label, p.placements[i].name.as_str()),
        None => push_str(&mut label, "host"),
    }
    push_str(&mut label, " 0–");
    push_dec(&mut label, if cut >= 1 { (cut - 1) as u64 } else { 0 });
    push_str(&mut label, " + ");
    assert(p.placements@[w as int]@ == p@.placements[w as int]);
    push_str(&mut label, p.placements[w].name.as_str());
    push_str(&mut label, " ");
    push_dec(&mut label, cut as u64);
    push_str(&mut label, "–");
    push_dec(&mut label, if n >= 1 { (n - 1) as u64 } else { 0 });
    push_str(&mut label, " (not chosen)");
    label
}

/// The split nobody should run (see [`not_chosen_spec`]).
#[verifier::spinoff_prover]
#[verifier::rlimit(60)]
pub fn not_chosen_split(p: &Plan, cfg: &LayerConfig, w: usize, k: u32) -> (r: Option<(String, Vec<StackInput>)>)
    requires
        w < p@.placements.len(),
        totals_fit(cfg@),
    ensures
        match r {
            Some((l, v)) => not_chosen_spec(p@, cfg@, w as int, k) == Some((l@, stack_inputs_view(v@))),
            None => not_chosen_spec(p@, cfg@, w as int, k) is None,
        },
{
    let n = cfg.shape.n_layer;
    if k == 0 || k >= n {
        return None;
    }
    let cut = n - k;
    let label = not_chosen_label(p, w, cut, n);
    assert(p.placements@[w as int]@ == p@.placements[w as int]);
    let a = stack_input(cfg, p.host_id.as_str(), true, 0, cut);
    let b = stack_input(cfg, p.placements[w].device_id.as_str(), false, cut, n);
    let ghost sa = stack_input_of(cfg@, p@.host_id, true, 0, cut);
    let ghost sb = stack_input_of(cfg@, p@.placements[w as int].device_id, false, cut, n);
    assert(stack_input_view(a) == sa);
    assert(stack_input_view(b) == sb);
    let mut v: Vec<StackInput> = Vec::new();
    v.push(a);
    v.push(b);
    assert(stack_inputs_view(v@) =~= seq![sa, sb]);
    Some((label, v))
}

/// The categories: "easy" exactly when the model runs on one device at `n_ctx` (then on one
/// device, with nothing to change); "hard" exactly when it runs only split at `n_ctx`, or does
/// not run at `n_ctx` but does at 2,048 tokens (then the need is a shorter context); otherwise
/// "impossible", with no plan and no device used. An estimate note ends the reason.
pub proof fn law_decide_categories(caps: Seq<DeviceCap>, m: ModelInfoV, pol: Policy, n_ctx: u32, note: Option<Seq<char>>)
    ensures
        ({
            let d = decide_spec(caps, m, pol, n_ctx, note);
            let p1 = plan_spec(m, caps, n_ctx, pol);
            let p2 = plan_spec(m, caps, 2048, pol);
            let single = p1 matches Ok(p) && p.mode == Mode::Single;
            let split = p1 matches Ok(p) && p.mode == Mode::LayerSplit;
            let short = p1 is Err && n_ctx > 2048 && p2 is Ok;
            &&& (d.category == "easy"@ <==> single)
            &&& (single ==> d.devices_used == 1 && d.needs.len() == 0 && d.plan == Some(p1->Ok_0))
            &&& (d.category == "hard"@ <==> split || short)
            &&& (split ==> d.plan == Some(p1->Ok_0))
            &&& (short ==> d.plan == Some(p2->Ok_0) && d.needs.len() == 1 && d.needs[0].what == "context"@)
            &&& (d.category == "impossible"@ <==> !single && !split && !short)
            &&& (d.category == "impossible"@ ==> d.plan is None && d.devices_used == 0)
            &&& d.reason == with_note(decide_spec(caps, m, pol, n_ctx, None).reason, note)
        }),
{
    reveal(decide_spec);
    reveal_strlit("easy");
    reveal_strlit("hard");
    reveal_strlit("impossible");
    assert("easy"@ != "hard"@) by {
        assert("easy"@[0] != "hard"@[0]);
    }
    assert("easy"@ != "impossible"@) by {
        assert("easy"@[0] != "impossible"@[0]);
    }
    assert("hard"@ != "impossible"@) by {
        assert("hard"@[0] != "impossible"@[0]);
    }
}

// ------------------------------------------------------------------------------------------------
// Which measured runs a device's speed is read from.

/// What the speed estimate reads of a recorded run: whether it succeeded, its mode and host, its
/// model, how many tokens it produced, and whether it measured a decode rate above zero.
#[derive(Debug, Clone)]
pub struct RunFacts {
    pub ok: bool,
    pub mode: String,
    pub host: String,
    pub model: String,
    pub tokens_out: u32,
    pub has_speed: bool,
}

/// A run that says something about device `id` on its own: a successful single-device run it
/// hosted, with at least 8 tokens out and a measured rate.
pub open spec fn telling_run(r: RunFacts, id: Seq<char>) -> bool {
    r.ok && r.mode@ == "Single"@ && r.host@ == id && r.tokens_out >= 8 && r.has_speed
}

/// The indices of the telling runs among the first `n`, newest first, at most `k` of them.
pub open spec fn recent_telling(rows: Seq<RunFacts>, id: Seq<char>, n: nat, k: nat) -> Seq<int>
    decreases n,
{
    if n == 0 || k == 0 {
        Seq::empty()
    } else if telling_run(rows[n - 1], id) {
        seq![n - 1].add(recent_telling(rows, id, (n - 1) as nat, (k - 1) as nat))
    } else {
        recent_telling(rows, id, (n - 1) as nat, k)
    }
}

/// The runs a device's speed is read from (indices into `rows`, oldest first in `rows`): its 12
/// most recent telling runs, newest first, narrowed to those of `same_model` when there are any.
pub open spec fn perf_rows_spec(rows: Seq<RunFacts>, id: Seq<char>, same_model: Seq<char>) -> Seq<int> {
    let recent = recent_telling(rows, id, rows.len(), 12);
    if exists|j: int| 0 <= j < recent.len() && #[trigger] rows[recent[j]].model@ == same_model {
        recent.filter(|i: int| rows[i].model@ == same_model)
    } else {
        recent
    }
}

proof fn lemma_recent_bounds(rows: Seq<RunFacts>, id: Seq<char>, n: nat, k: nat)
    requires
        n <= rows.len(),
    ensures
        recent_telling(rows, id, n, k).len() <= k,
        forall|j: int| 0 <= j < recent_telling(rows, id, n, k).len() ==>
            0 <= #[trigger] recent_telling(rows, id, n, k)[j] < n,
    decreases n,
{
    if n > 0 && k > 0 {
        lemma_recent_bounds(rows, id, (n - 1) as nat, if telling_run(rows[n - 1], id) { (k - 1) as nat } else { k });
    }
}

/// The runs device `id`'s speed is read from (see [`perf_rows_spec`]).
pub fn perf_rows(rows: &[RunFacts], id: &str, same_model: &str) -> (r: Vec<usize>)
    ensures
        r@.map_values(|i: usize| i as int) == perf_rows_spec(rows@, id@, same_model@),
{
    let ghost rs = rows@;
    let single = owned("Single");
    let key = owned(id);
    let model = owned(same_model);
    let mut recent: Vec<usize> = Vec::new();
    let mut n: usize = rows.len();
    let mut k: usize = 12;
    // What is collected, followed by what the rows left give, is what all the rows give.
    while n > 0 && k > 0
        invariant
            rs == rows@,
            n <= rs.len(),
            k <= 12,
            single@ == "Single"@,
            key@ == id@,
            recent@.map_values(|i: usize| i as int) + recent_telling(rs, id@, n as nat, k as nat)
                == recent_telling(rs, id@, rs.len(), 12),
        decreases n,
    {
        let row = &rows[n - 1];
        let telling = row.ok && row.mode == single && row.host == key && row.tokens_out >= 8 && row.has_speed;
        assert(telling == telling_run(rs[n - 1], id@));
        let ghost before = recent@.map_values(|i: usize| i as int);
        if telling {
            recent.push(n - 1);
            assert(recent@.map_values(|i: usize| i as int) =~= before.push(n - 1));
            assert(seq![(n - 1) as int].add(recent_telling(rs, id@, (n - 1) as nat, (k - 1) as nat))
                == recent_telling(rs, id@, n as nat, k as nat));
            assert(before.push(n - 1) + recent_telling(rs, id@, (n - 1) as nat, (k - 1) as nat)
                =~= before + recent_telling(rs, id@, n as nat, k as nat));
            k = k - 1;
        }
        n = n - 1;
    }
    let ghost all = recent_telling(rs, id@, rs.len(), 12);
    assert(recent@.map_values(|i: usize| i as int) =~= all);
    proof {
        lemma_recent_bounds(rs, id@, rs.len(), 12);
    }
    // Is the requested model among them?
    let mut any = false;
    let mut j: usize = 0;
    while j < recent.len()
        invariant
            rs == rows@,
            model@ == same_model@,
            recent@.map_values(|i: usize| i as int) == all,
            forall|t: int| 0 <= t < all.len() ==> 0 <= #[trigger] all[t] < rs.len(),
            j <= recent@.len(),
            any == exists|t: int| 0 <= t < j && #[trigger] rs[all[t]].model@ == same_model@,
        decreases recent@.len() - j,
    {
        assert(all[j as int] == recent@[j as int] as int);
        if rows[recent[j]].model == model {
            any = true;
        }
        j = j + 1;
    }
    if !any {
        return recent;
    }
    let mut out: Vec<usize> = Vec::new();
    let mut j: usize = 0;
    let ghost pred = |i: int| rs[i].model@ == same_model@;
    while j < recent.len()
        invariant
            rs == rows@,
            model@ == same_model@,
            recent@.map_values(|i: usize| i as int) == all,
            forall|t: int| 0 <= t < all.len() ==> 0 <= #[trigger] all[t] < rs.len(),
            j <= recent@.len(),
            pred == (|i: int| rs[i].model@ == same_model@),
            out@.map_values(|i: usize| i as int) == all.subrange(0, j as int).filter(pred),
        decreases recent@.len() - j,
    {
        assert(all[j as int] == recent@[j as int] as int);
        let ghost before = out@.map_values(|i: usize| i as int);
        proof {
            assert(all.subrange(0, j + 1).drop_last() =~= all.subrange(0, j as int));
            all.subrange(0, j as int).lemma_filter_push(all[j as int], pred);
            assert(all.subrange(0, j as int).push(all[j as int]) =~= all.subrange(0, j + 1));
        }
        if rows[recent[j]].model == model {
            out.push(recent[j]);
            assert(out@.map_values(|i: usize| i as int) =~= before.push(all[j as int]));
        } else {
            assert(out@.map_values(|i: usize| i as int) =~= before);
        }
        j = j + 1;
    }
    assert(all.subrange(0, all.len() as int) =~= all);
    out
}

/// The cache position a decode rate is measured at: the prompt plus half the answer, times the
/// KV bytes per token; `None` when that overflows 64 bits.
pub fn kv_bytes_at(prompt_tokens: u32, tokens_out: u32, kv_bytes_per_token: u64) -> (r: Option<u64>)
    ensures
        r == (if (prompt_tokens + tokens_out / 2) * kv_bytes_per_token <= u64::MAX {
            Some(((prompt_tokens + tokens_out / 2) * kv_bytes_per_token) as u64)
        } else {
            None
        }),
{
    let pos: u64 = prompt_tokens as u64 + (tokens_out / 2) as u64;
    pos.checked_mul(kv_bytes_per_token)
}


} // verus!
