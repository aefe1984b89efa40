//! Layer config: the placement units of a GGUF model and the rules for combining them.
//!
//! Units, in file order:
//! * `embd`: `token_embd.weight` (+ its norm if any). Pinned to the host: llama.cpp always keeps
//!   the input embedding on the CPU.
//! * `blk.i`: everything named `blk.i.*` (attention, dense FFN, router + experts) plus layer i's
//!   KV cache at run time. Must stay together; blocks form contiguous ranges per device, host
//!   prefix first.
//! * `head`: `output_norm.*` + `output.*` (tied models: the `token_embd` duplicate, counted once).
//!   Pinned to the host by policy.
//! * `other`: anything else outside a block (rope frequencies, cls heads…): counted on the host.
//!
//! Numbers are exact bytes from the tensor table; FLOPs are 2 × params per token for 2-D/3-D
//! matmul weights (norms and biases are not counted); MoE read-bytes assume only `n_expert_used`
//! of `n_expert` experts are touched per token (an estimate).
use vstd::prelude::*;
use crate::gguf::{Gguf, ModelInfoV, TensorInfo, TensorV, ValueV, Value, tensors_view, spec_layer_index, layer_index_chars,
    kv_get, value_as_u64, chars_eq};
use crate::text::{dec, starts_with, ends_with, contains, first_index, chars_of, starts_with_at, contains_chars,
    find_chars, push_str, push_dec, push_char, round_div, owned, one_decimal, two_decimals, pad_left, pad_right,
    push_one_decimal, push_two_decimals, push_pad_left, push_pad_right};

verus! {

/// What the engine or our policy says about where a unit may go.
#[derive(Debug, Clone, Copy, PartialEq, Eq, Structural)]
pub enum Rule {
    /// Never leaves the device that runs the engine.
    PinnedToHost,
    /// The unit is indivisible: all its tensors (and its KV cache) live on one device.
    MustStayTogether,
}

/// The kind of a placement unit.
#[derive(Debug, Clone, Copy, PartialEq, Eq, Structural)]
pub enum UnitKind {
    TokenEmbedding,
    Block,
    Output,
    Other,
}

/// One placement unit.
#[derive(Debug)]
pub struct Unit {
    pub id: String,
    pub kind: UnitKind,
    /// Block index for `Block`, otherwise `None`.
    pub index: Option<u32>,
    /// Bytes of weights in the file (exact).
    pub bytes: u64,
    /// Weight parameters (product of dims of every tensor in the unit).
    pub params: u64,
    /// Bytes read from memory per decoded token: dense weights + `n_expert_used/n_expert` of the
    /// experts (estimate for MoE, exact for dense).
    pub read_bytes_per_token: u64,
    /// 2 × matmul params per token, experts scaled by `n_expert_used/n_expert`.
    pub flops_per_token: u64,
    /// KV-cache bytes per context token for this block (0 for non-blocks).
    pub kv_bytes_per_token: u64,
    pub attn_bytes: u64,
    pub ffn_bytes: u64,
    pub expert_bytes: u64,
    pub router_bytes: u64,
    pub rule: Rule,
    /// "engine" (a llama.cpp fact) or "policy" (our choice).
    pub source: &'static str,
    pub tensors: u32,
}

/// The mathematical form of a [`Unit`].
pub struct UnitV {
    pub id: Seq<char>,
    pub kind: UnitKind,
    pub index: Option<u32>,
    pub bytes: u64,
    pub params: u64,
    pub read_bytes_per_token: u64,
    pub flops_per_token: u64,
    pub kv_bytes_per_token: u64,
    pub attn_bytes: u64,
    pub ffn_bytes: u64,
    pub expert_bytes: u64,
    pub router_bytes: u64,
    pub rule: Rule,
    pub source: Seq<char>,
    pub tensors: u32,
}

impl View for Unit {
    type V = UnitV;

    open spec fn view(&self) -> UnitV {
        UnitV {
            id: self.id@,
            kind: self.kind,
            index: self.index,
            bytes: self.bytes,
            params: self.params,
            read_bytes_per_token: self.read_bytes_per_token,
            flops_per_token: self.flops_per_token,
            kv_bytes_per_token: self.kv_bytes_per_token,
            attn_bytes: self.attn_bytes,
            ffn_bytes: self.ffn_bytes,
            expert_bytes: self.expert_bytes,
            router_bytes: self.router_bytes,
            rule: self.rule,
            source: self.source@,
            tensors: self.tensors,
        }
    }
}

/// Views of a sequence of units.
pub open spec fn units_view(us: Seq<Unit>) -> Seq<UnitV> {
    Seq::new(us.len(), |i: int| us[i]@)
}

/// A rule of combination, as shown to the user.
#[derive(Debug)]
pub struct Constraint {
    pub id: &'static str,
    pub rule: &'static str,
    pub what: &'static str,
    pub source: &'static str,
    pub enforced_by: &'static str,
}

/// The mathematical form of a [`Constraint`].
pub struct ConstraintV {
    pub id: Seq<char>,
    pub rule: Seq<char>,
    pub what: Seq<char>,
    pub source: Seq<char>,
    pub enforced_by: Seq<char>,
}

impl View for Constraint {
    type V = ConstraintV;

    open spec fn view(&self) -> ConstraintV {
        ConstraintV { id: self.id@, rule: self.rule@, what: self.what@, source: self.source@, enforced_by: self.enforced_by@ }
    }
}

/// Views of a sequence of constraints.
pub open spec fn constraints_view(cs: Seq<Constraint>) -> Seq<ConstraintV> {
    Seq::new(cs.len(), |i: int| cs[i]@)
}

/// The shape of a model.
#[derive(Debug, Clone)]
pub struct Shape {
    pub arch: String,
    pub n_layer: u32,
    pub n_embd: u32,
    pub n_head: u32,
    pub n_head_kv: u32,
    pub n_vocab: u64,
    pub n_ctx_train: u32,
    pub n_expert: u32,
    pub n_expert_used: u32,
    pub tied_embeddings: bool,
    /// `{arch}.attention.sliding_window` when the file declares one: KV of the windowed layers is
    /// capped at this many tokens. Which layers are windowed is not decoded here.
    pub sliding_window: Option<u64>,
}

/// The mathematical form of a [`Shape`].
pub struct ShapeV {
    pub arch: Seq<char>,
    pub n_layer: u32,
    pub n_embd: u32,
    pub n_head: u32,
    pub n_head_kv: u32,
    pub n_vocab: u64,
    pub n_ctx_train: u32,
    pub n_expert: u32,
    pub n_expert_used: u32,
    pub tied_embeddings: bool,
    pub sliding_window: Option<u64>,
}

impl View for Shape {
    type V = ShapeV;

    open spec fn view(&self) -> ShapeV {
        ShapeV {
            arch: self.arch@,
            n_layer: self.n_layer,
            n_embd: self.n_embd,
            n_head: self.n_head,
            n_head_kv: self.n_head_kv,
            n_vocab: self.n_vocab,
            n_ctx_train: self.n_ctx_train,
            n_expert: self.n_expert,
            n_expert_used: self.n_expert_used,
            tied_embeddings: self.tied_embeddings,
            sliding_window: self.sliding_window,
        }
    }
}

/// The units of a model, the rules that bind them, and what was odd about the file.
#[derive(Debug)]
pub struct LayerConfig {
    pub model: String,
    pub file_bytes: u64,
    pub quant: String,
    pub shape: Shape,
    /// Activation crossing a device boundary per token: n_embd × 4 bytes (f32).
    pub activation_bytes: u64,
    /// KV bytes per context token, all layers (half-precision K+V).
    pub kv_bytes_per_token: u64,
    pub units: Vec<Unit>,
    pub constraints: Vec<Constraint>,
    pub warnings: Vec<String>,
}

/// The mathematical form of a [`LayerConfig`].
pub struct LayerConfigV {
    pub model: Seq<char>,
    pub file_bytes: u64,
    pub quant: Seq<char>,
    pub shape: ShapeV,
    pub activation_bytes: u64,
    pub kv_bytes_per_token: u64,
    pub units: Seq<UnitV>,
    pub constraints: Seq<ConstraintV>,
    pub warnings: Seq<Seq<char>>,
}

/// Views of a sequence of strings.
pub open spec fn strings_view(ws: Seq<String>) -> Seq<Seq<char>> {
    Seq::new(ws.len(), |i: int| ws[i]@)
}

impl View for LayerConfig {
    type V = LayerConfigV;

    open spec fn view(&self) -> LayerConfigV {
        LayerConfigV {
            model: self.model@,
            file_bytes: self.file_bytes,
            quant: self.quant@,
            shape: self.shape@,
            activation_bytes: self.activation_bytes,
            kv_bytes_per_token: self.kv_bytes_per_token,
            units: units_view(self.units@),
            constraints: constraints_view(self.constraints@),
            warnings: strings_view(self.warnings@),
        }
    }
}

// ------------------------------------------------------------------------------------------------
// Where each tensor goes, and what it contributes.

/// The unit a tensor belongs to.
#[derive(PartialEq, Eq, Structural)]
pub enum Dest {
    Block(u32),
    Embd,
    Head,
    Other,
}

/// Product of the dimensions.
pub open spec fn prod(dims: Seq<u64>) -> nat
    decreases dims.len(),
{
    if dims.len() == 0 { 1 } else { prod(dims.drop_last()) * dims.last() as nat }
}

/// Every partial product of the dimensions fits in 64 bits.
pub open spec fn prod_fits(dims: Seq<u64>) -> bool {
    forall|k: int| 0 <= k <= dims.len() ==> #[trigger] prod(dims.subrange(0, k)) <= u64::MAX
}

/// Whether a tensor is a 2-D/3-D matmul weight (not a norm, not a bias).
pub open spec fn is_mm(t: TensorV) -> bool {
    t.dims.len() >= 2 && !ends_with(t.name, "norm.weight"@) && !ends_with(t.name, ".bias"@)
}

/// A block tensor's name after `blk.N.`.
pub open spec fn short_of(name: Seq<char>) -> Seq<char> {
    let rest = name.subrange(4, name.len() as int);
    match first_index(rest, seq!['.']) {
        Some(e) => rest.subrange(e + 1, rest.len() as int),
        None => Seq::empty(),
    }
}

/// The unit of a tensor.
pub open spec fn dest_of(t: TensorV, n_layer: u32) -> Dest {
    match spec_layer_index(t.name) {
        Some(i) => if i < n_layer { Dest::Block(i) } else { Dest::Other },
        None => if starts_with(t.name, "token_embd"@) {
            Dest::Embd
        } else if starts_with(t.name, "output"@) {
            Dest::Head
        } else {
            Dest::Other
        },
    }
}

/// Sums kept per unit.
#[derive(Clone, Copy)]
pub struct Acc {
    pub bytes: u64,
    pub params: u64,
    pub read: u64,
    pub flops: u64,
    pub attn: u64,
    pub ffn: u64,
    pub experts: u64,
    pub router: u64,
    pub tensors: u32,
}

/// The mathematical form of an [`Acc`].
pub struct AccV {
    pub bytes: nat,
    pub params: nat,
    pub read: nat,
    pub flops: nat,
    pub attn: nat,
    pub ffn: nat,
    pub experts: nat,
    pub router: nat,
    pub tensors: nat,
}

impl View for Acc {
    type V = AccV;

    open spec fn view(&self) -> AccV {
        AccV {
            bytes: self.bytes as nat,
            params: self.params as nat,
            read: self.read as nat,
            flops: self.flops as nat,
            attn: self.attn as nat,
            ffn: self.ffn as nat,
            experts: self.experts as nat,
            router: self.router as nat,
            tensors: self.tensors as nat,
        }
    }
}

/// Nothing summed.
pub open spec fn acc_zero() -> AccV {
    AccV { bytes: 0, params: 0, read: 0, flops: 0, attn: 0, ffn: 0, experts: 0, router: 0, tensors: 0 }
}

/// Componentwise sum.
pub open spec fn acc_add(a: AccV, b: AccV) -> AccV {
    AccV {
        bytes: a.bytes + b.bytes,
        params: a.params + b.params,
        read: a.read + b.read,
        flops: a.flops + b.flops,
        attn: a.attn + b.attn,
        ffn: a.ffn + b.ffn,
        experts: a.experts + b.experts,
        router: a.router + b.router,
        tensors: a.tensors + b.tensors,
    }
}

/// Experts scale factors: `nu` of `ne` experts are touched per token.
pub open spec fn n_expert_of(info: ModelInfoV) -> nat {
    if info.n_expert >= 1 { info.n_expert as nat } else { 1 }
}

/// Number of experts used per token (1 for dense models).
pub open spec fn n_used_of(info: ModelInfoV) -> nat {
    if info.n_expert > 1 {
        if info.n_expert_used < 1 { 1 } else if info.n_expert_used > info.n_expert { info.n_expert as nat } else { info.n_expert_used as nat }
    } else {
        1
    }
}

/// What a tensor of a block adds to the block.
pub open spec fn block_share_of(t: TensorV, nu: nat, ne: nat) -> AccV {
    let p = prod(t.dims);
    let b = t.bytes as nat;
    let short = short_of(t.name);
    let expert = contains(short, "_exps"@);
    let router = starts_with(short, "ffn_gate_inp"@);
    let attn = starts_with(short, "attn"@);
    AccV {
        bytes: b,
        params: p,
        read: if expert { b * nu / ne } else { b },
        flops: if is_mm(t) { if expert { 2 * p * nu / ne } else { 2 * p } } else { 0 },
        attn: if !expert && !router && attn { b } else { 0 },
        ffn: if !expert && !router && !attn { b } else { 0 },
        experts: if expert { b } else { 0 },
        router: if !expert && router { b } else { 0 },
        tensors: 1,
    }
}

/// What a tensor outside the blocks adds to its unit.
pub open spec fn outside_share_of(t: TensorV) -> AccV {
    let p = prod(t.dims);
    AccV {
        bytes: t.bytes as nat,
        params: p,
        read: t.bytes as nat,
        flops: if is_mm(t) && !starts_with(t.name, "token_embd"@) { 2 * p } else { 0 },
        tensors: 1,
        ..acc_zero()
    }
}

/// What one tensor adds to its unit (a tensor naming a block beyond the last adds only its bytes,
/// parameters and count).
pub open spec fn share_of(t: TensorV, n_layer: u32, nu: nat, ne: nat) -> AccV {
    match spec_layer_index(t.name) {
        Some(i) => if i < n_layer {
            block_share_of(t, nu, ne)
        } else {
            AccV { bytes: t.bytes as nat, params: prod(t.dims), tensors: 1, ..acc_zero() }
        },
        None => outside_share_of(t),
    }
}

/// The sums of the unit `d` over the tensors `ts`.
pub open spec fn acc_of(ts: Seq<TensorV>, d: Dest, n_layer: u32, nu: nat, ne: nat) -> AccV
    decreases ts.len(),
{
    if ts.len() == 0 {
        acc_zero()
    } else {
        let a = acc_of(ts.drop_last(), d, n_layer, nu, ne);
        if dest_of(ts.last(), n_layer) == d { acc_add(a, share_of(ts.last(), n_layer, nu, ne)) } else { a }
    }
}

/// Total bytes of the tensors.
pub open spec fn total_tensor_bytes(ts: Seq<TensorV>) -> nat
    decreases ts.len(),
{
    if ts.len() == 0 { 0 } else { total_tensor_bytes(ts.drop_last()) + ts.last().bytes as nat }
}

/// Twice the total parameters of the tensors (an upper bound on FLOPs per token).
pub open spec fn total_flops_bound(ts: Seq<TensorV>) -> nat
    decreases ts.len(),
{
    if ts.len() == 0 { 0 } else { total_flops_bound(ts.drop_last()) + 2 * prod(ts.last().dims) }
}

/// Warnings for tensors that name a block beyond `n_layer`, in file order.
pub open spec fn beyond_warnings(ts: Seq<TensorV>, n_layer: u32) -> Seq<Seq<char>>
    decreases ts.len(),
{
    if ts.len() == 0 {
        Seq::empty()
    } else {
        let w = beyond_warnings(ts.drop_last(), n_layer);
        match spec_layer_index(ts.last().name) {
            Some(i) => if i >= n_layer {
                w.push("tensor "@ + ts.last().name + " names a block beyond n_layer"@)
            } else {
                w
            },
            None => w,
        }
    }
}

/// `n_vocab`: the second dimension of the last `token_embd.weight` (0 if none).
pub open spec fn vocab_of(ts: Seq<TensorV>) -> u64
    decreases ts.len(),
{
    if ts.len() == 0 {
        0
    } else if ts.last().name == "token_embd.weight"@ {
        if ts.last().dims.len() > 1 { ts.last().dims[1] } else { 0 }
    } else {
        vocab_of(ts.drop_last())
    }
}

/// Whether the file has a separate output head (`output.weight`).
pub open spec fn has_output(ts: Seq<TensorV>) -> bool {
    exists|i: int| 0 <= i < ts.len() && ts[i].name == "output.weight"@
}

/// The inputs on which the sums stay within their integer types.
pub open spec fn layer_bounds(info: ModelInfoV, ts: Seq<TensorV>) -> bool {
    &&& total_tensor_bytes(ts) <= u64::MAX
    &&& total_flops_bound(ts) <= u64::MAX
    &&& ts.len() <= u32::MAX
    &&& forall|i: int| 0 <= i < ts.len() ==> prod_fits(#[trigger] ts[i].dims)
    &&& forall|i: int| 0 <= i < ts.len() && dest_of(#[trigger] ts[i], info.n_layer) is Block
            && contains(short_of(ts[i].name), "_exps"@) ==> ts[i].bytes * n_used_of(info) <= u64::MAX
                && (is_mm(ts[i]) ==> 2 * prod(ts[i].dims) * n_used_of(info) <= u64::MAX)
}

// ------------------------------------------------------------------------------------------------
// The layer config as a function of the header.

/// The last component of a path (`Path::file_name`), or the path itself when it has none or it is
/// not UTF-8.
pub uninterp spec fn path_file_name(path: Seq<char>) -> Seq<char>;

/// The last component of a path (`Path::file_name`), or the path itself.
#[verifier::external_body]
fn file_name(path: &str) -> (r: String)
    ensures
        r@ == path_file_name(path@),
{
    std::path::Path::new(path).file_name().and_then(|s| s.to_str()).unwrap_or(path).to_string()
}

/// The unit of block `i`.
pub open spec fn block_unit(i: int, a: AccV, kvpl: nat) -> UnitV {
    UnitV {
        id: "blk."@ + dec(i as nat),
        kind: UnitKind::Block,
        index: Some(i as u32),
        bytes: a.bytes as u64,
        params: a.params as u64,
        read_bytes_per_token: a.read as u64,
        flops_per_token: a.flops as u64,
        kv_bytes_per_token: kvpl as u64,
        attn_bytes: a.attn as u64,
        ffn_bytes: a.ffn as u64,
        expert_bytes: a.experts as u64,
        router_bytes: a.router as u64,
        rule: Rule::MustStayTogether,
        source: if a.experts > 0 { "engine"@ } else { "policy"@ },
        tensors: a.tensors as u32,
    }
}

/// A unit outside the blocks.
pub open spec fn fixed_unit(id: Seq<char>, kind: UnitKind, a: AccV, read: nat, flops: nat, source: Seq<char>) -> UnitV {
    UnitV {
        id,
        kind,
        index: None,
        bytes: a.bytes as u64,
        params: a.params as u64,
        read_bytes_per_token: read as u64,
        flops_per_token: flops as u64,
        kv_bytes_per_token: 0,
        attn_bytes: 0,
        ffn_bytes: 0,
        expert_bytes: 0,
        router_bytes: 0,
        rule: Rule::PinnedToHost,
        source,
        tensors: a.tensors as u32,
    }
}

/// The rules of combination.
pub open spec fn constraints_spec() -> Seq<ConstraintV> {
    seq![
        ConstraintV { id: "C1"@, rule: "MUST_STAY_TOGETHER"@, what: "a block's attention, FFN/experts and its KV cache"@,
            source: "policy+engine"@, enforced_by: "whole layers via -ngl / --tensor-split"@ },
        ConstraintV { id: "C2"@, rule: "MAY_SPLIT_CONTIGUOUS"@, what: "one block range per device, host prefix first, in --rpc order"@,
            source: "engine interface + policy"@, enforced_by: "llama-model.cpp layer assignment"@ },
        ConstraintV { id: "C3"@, rule: "PINNED_TO_HOST"@, what: "token embedding"@, source: "engine"@,
            enforced_by: "llama.cpp keeps token_embd on the CPU"@ },
        ConstraintV { id: "C4"@, rule: "PINNED_TO_HOST"@, what: "output norm + head (incl. the tied token_embd duplicate)"@,
            source: "policy"@, enforced_by: "-ot ^(output|output_norm|token_embd)\\.(weight|bias)$=CPU"@ },
        ConstraintV { id: "C5"@, rule: "PINNED_TO_HOST"@, what: "vision encoder + projector (separate mmproj file)"@,
            source: "policy"@, enforced_by: "--no-mmproj-offload"@ },
        ConstraintV { id: "C6"@, rule: "MAX_RPC_DEVICES"@, what: "at most 16 RPC workers; worker-to-worker traffic goes through the host"@,
            source: "engine"@, enforced_by: "ggml-rpc"@ },
    ]
}

/// The warning for tied embeddings.
pub open spec fn tied_warning() -> Seq<char> {
    "tied embeddings: the output head reuses token_embd (bytes counted once; a pinned copy may cost a second allocation, R010)"@
}

/// The warning for bytes outside blocks, embedding and head.
pub open spec fn other_warning(a: AccV) -> Seq<char> {
    dec(a.bytes) + " bytes in "@ + dec(a.tensors) + " tensors outside blocks/embedding/head are counted on the host"@
}

/// The key of the sliding-window length for an architecture.
pub open spec fn window_key(arch: Seq<char>) -> Seq<char> {
    arch + ".attention.sliding_window"@
}

/// The sliding window the file declares, if positive.
pub open spec fn window_of(kv: Map<Seq<char>, ValueV>, arch: Seq<char>) -> Option<u64> {
    match kv_get(kv, window_key(arch)) {
        Some(v) => match value_as_u64(v) {
            Some(w) => if w > 0 { Some(w) } else { None },
            None => None,
        },
        None => None,
    }
}

/// The layer config of a model with header `info`, metadata `kv` and tensors `ts`.
#[verifier::opaque]
pub open spec fn layer_config_spec(info: ModelInfoV, kv: Map<Seq<char>, ValueV>, ts: Seq<TensorV>) -> LayerConfigV {
    let nl = info.n_layer;
    let nu = n_used_of(info);
    let ne = n_expert_of(info);
    let kvpl: nat = if nl > 0 { info.kv_bytes_per_token as nat / nl as nat } else { 0 };
    let embd = acc_of(ts, Dest::Embd, nl, nu, ne);
    let head = acc_of(ts, Dest::Head, nl, nu, ne);
    let other = acc_of(ts, Dest::Other, nl, nu, ne);
    let tied = !has_output(ts);
    let head_u = fixed_unit("head"@, UnitKind::Output, head,
        head.read + if tied { embd.bytes } else { 0 },
        head.flops + if tied { 2 * embd.params } else { 0 },
        "policy"@);
    let units = seq![fixed_unit("embd"@, UnitKind::TokenEmbedding, embd, info.n_embd as nat * 4, 0, "engine"@)]
        + Seq::new(nl as nat, |i: int| block_unit(i, acc_of(ts, Dest::Block(i as u32), nl, nu, ne), kvpl))
        + seq![head_u]
        + if other.bytes > 0 { seq![fixed_unit("other"@, UnitKind::Other, other, other.read, other.flops, "policy"@)] } else { Seq::empty() };
    LayerConfigV {
        model: path_file_name(info.path),
        file_bytes: info.file_bytes,
        quant: info.quant_label,
        shape: ShapeV {
            arch: info.arch,
            n_layer: nl,
            n_embd: info.n_embd,
            n_head: info.n_head,
            n_head_kv: info.n_head_kv,
            n_vocab: vocab_of(ts),
            n_ctx_train: info.n_ctx_train,
            n_expert: info.n_expert,
            n_expert_used: info.n_expert_used,
            tied_embeddings: tied,
            sliding_window: window_of(kv, info.arch),
        },
        activation_bytes: (info.n_embd as nat * 4) as u64,
        kv_bytes_per_token: info.kv_bytes_per_token,
        units,
        constraints: constraints_spec(),
        warnings: beyond_warnings(ts, nl) + (if tied { seq![tied_warning()] } else { Seq::empty() })
            + (if other.bytes > 0 { seq![other_warning(other)] } else { Seq::empty() }),
    }
}

/// `x * nu / ne` is at most `x` when `nu <= ne`.
proof fn lemma_scale_le(x: nat, nu: nat, ne: nat)
    requires
        1 <= ne,
        nu <= ne,
    ensures
        x * nu / ne <= x,
{
    assert(x * nu <= x * ne) by (nonlinear_arith)
        requires
            nu <= ne,
    ;
    assert(x * nu / ne <= x * ne / ne) by (nonlinear_arith)
        requires
            x * nu <= x * ne,
            1 <= ne,
    ;
    assert(x * ne / ne == x) by (nonlinear_arith)
        requires
            1 <= ne,
    ;
}

/// What a tensor adds to a unit is bounded by its bytes and twice its parameters.
proof fn lemma_share_le(t: TensorV, nl: u32, nu: nat, ne: nat)
    requires
        1 <= ne,
        nu <= ne,
    ensures
        ({
            let c = share_of(t, nl, nu, ne);
            &&& c.bytes == t.bytes
            &&& c.params == prod(t.dims)
            &&& c.read <= t.bytes
            &&& c.flops <= 2 * prod(t.dims)
            &&& c.attn + c.ffn + c.experts + c.router <= t.bytes
            &&& c.tensors == 1
        }),
{
    lemma_scale_le(t.bytes as nat, nu, ne);
    lemma_scale_le(2 * prod(t.dims), nu, ne);
    assert(2 * prod(t.dims) * nu == (2 * prod(t.dims)) * nu) by (nonlinear_arith);
}

/// Two different units together never hold more than the whole file.
proof fn lemma_acc_pair(ts: Seq<TensorV>, d1: Dest, d2: Dest, nl: u32, nu: nat, ne: nat)
    requires
        d1 != d2,
        1 <= ne,
        nu <= ne,
    ensures
        ({
            let a = acc_of(ts, d1, nl, nu, ne);
            let b = acc_of(ts, d2, nl, nu, ne);
            &&& a.bytes + b.bytes <= total_tensor_bytes(ts)
            &&& a.read + b.bytes <= total_tensor_bytes(ts)
            &&& a.read + b.read <= total_tensor_bytes(ts)
            &&& a.attn + a.ffn + a.experts + a.router <= total_tensor_bytes(ts)
            &&& 2 * a.params + 2 * b.params <= total_flops_bound(ts)
            &&& a.flops + 2 * b.params <= total_flops_bound(ts)
            &&& a.flops <= total_flops_bound(ts)
            &&& a.tensors <= ts.len()
        }),
    decreases ts.len(),
{
    if ts.len() > 0 {
        lemma_acc_pair(ts.drop_last(), d1, d2, nl, nu, ne);
        lemma_share_le(ts.last(), nl, nu, ne);
    }
}

/// Sums over a prefix of the tensors never exceed the sums over all of them.
proof fn lemma_totals_prefix(ts: Seq<TensorV>, k: int)
    requires
        0 <= k <= ts.len(),
    ensures
        total_tensor_bytes(ts.subrange(0, k)) <= total_tensor_bytes(ts),
        total_flops_bound(ts.subrange(0, k)) <= total_flops_bound(ts),
    decreases ts.len() - k,
{
    if k < ts.len() {
        lemma_totals_prefix(ts.drop_last(), k);
        assert(ts.drop_last().subrange(0, k) =~= ts.subrange(0, k));
    } else {
        assert(ts.subrange(0, k) =~= ts);
    }
}

/// Parameters of a tensor: the product of its dimensions.
pub fn params_of(t: &TensorInfo) -> (r: u64)
    requires
        prod_fits(t.dims@),
    ensures
        r == prod(t.dims@),
{
    let mut p: u64 = 1;
    let mut i: usize = 0;
    assert(t.dims@.subrange(0, 0) =~= Seq::<u64>::empty());
    while i < t.dims.len()
        invariant
            i <= t.dims@.len(),
            prod_fits(t.dims@),
            p == prod(t.dims@.subrange(0, i as int)),
        decreases t.dims@.len() - i,
    {
        assert(t.dims@.subrange(0, i + 1).drop_last() =~= t.dims@.subrange(0, i as int));
        assert(prod(t.dims@.subrange(0, i + 1)) <= u64::MAX);
        p = p * t.dims[i];
        i = i + 1;
    }
    assert(t.dims@.subrange(0, t.dims@.len() as int) =~= t.dims@);
    p
}

/// Whether `a` ends with `p`.
fn ends_with_chars(a: &[char], p: &[char]) -> (r: bool)
    ensures
        r == ends_with(a@, p@),
{
    if p.len() > a.len() {
        return false;
    }
    let r = starts_with_at(a, a.len() - p.len(), p);
    r
}

/// Whether a tensor is a matmul weight: 2-D or more, not a norm, not a bias.
pub fn is_matmul(t: &TensorInfo) -> (r: bool)
    ensures
        r == is_mm(t@),
{
    let name = chars_of(t.name.as_str());
    let norm = chars_of("norm.weight");
    let bias = chars_of(".bias");
    t.dims.len() >= 2 && !ends_with_chars(name.as_slice(), norm.as_slice()) && !ends_with_chars(name.as_slice(), bias.as_slice())
}

/// Nothing summed.
fn zero_acc() -> (a: Acc)
    ensures
        a@ == acc_zero(),
{
    Acc { bytes: 0, params: 0, read: 0, flops: 0, attn: 0, ffn: 0, experts: 0, router: 0, tensors: 0 }
}

/// Componentwise sum.
fn acc_plus(a: Acc, b: Acc) -> (r: Acc)
    requires
        ({
            let s = acc_add(a@, b@);
            &&& s.bytes <= u64::MAX && s.params <= u64::MAX && s.read <= u64::MAX && s.flops <= u64::MAX
            &&& s.attn <= u64::MAX && s.ffn <= u64::MAX && s.experts <= u64::MAX && s.router <= u64::MAX
            &&& s.tensors <= u32::MAX
        }),
    ensures
        r@ == acc_add(a@, b@),
{
    Acc {
        bytes: a.bytes + b.bytes,
        params: a.params + b.params,
        read: a.read + b.read,
        flops: a.flops + b.flops,
        attn: a.attn + b.attn,
        ffn: a.ffn + b.ffn,
        experts: a.experts + b.experts,
        router: a.router + b.router,
        tensors: a.tensors + b.tensors,
    }
}

/// What a tensor of a block adds to the block.
#[verifier::spinoff_prover]
#[verifier::rlimit(40)]
fn block_share(t: &TensorInfo, name: &Vec<char>, nu: u64, ne: u64) -> (a: Acc)
    requires
        name@ == t.name@,
        spec_layer_index(t.name@) is Some,
        1 <= ne,
        nu <= ne,
        prod_fits(t.dims@),
        2 * prod(t.dims@) <= u64::MAX,
        contains(short_of(t@.name), "_exps"@) ==> t.bytes * nu <= u64::MAX
            && (is_mm(t@) ==> 2 * prod(t.dims@) * nu <= u64::MAX),
    ensures
        a@ == block_share_of(t@, nu as nat, ne as nat),
{
    let p = params_of(t);
    let mm = is_matmul(t);
    let b = t.bytes;
    assert(name@.len() >= 4);
    let rest = &name.as_slice()[4..name.len()];
    assert(rest@ =~= name@.subrange(4, name@.len() as int));
    let dot = vec!['.'];
    assert(dot@ =~= seq!['.']);
    let short: &[char] = match find_chars(rest, dot.as_slice()) {
        Some(e) => {
            let sh = &rest[e + 1..rest.len()];
            assert(sh@ =~= rest@.subrange(e + 1, rest@.len() as int));
            sh
        },
        None => {
            let sh = &rest[0..0];
            assert(sh@ =~= Seq::<char>::empty());
            sh
        },
    };
    assert(short@ == short_of(t@.name));
    let exps = chars_of("_exps");
    let gate = chars_of("ffn_gate_inp");
    let attn_p = chars_of("attn");
    let expert = contains_chars(short, exps.as_slice());
    let router = starts_with_at(short, 0, gate.as_slice());
    let attn = starts_with_at(short, 0, attn_p.as_slice());
    let read: u64 = if expert {
        proof {
            lemma_scale_le(b as nat, nu as nat, ne as nat);
        }
        let x: u64 = b * nu;
        x / ne
    } else {
        b
    };
    let flops: u64 = if mm {
        let p2: u64 = 2 * p;
        if expert {
            proof {
                lemma_scale_le(p2 as nat, nu as nat, ne as nat);
            }
            let x: u64 = p2 * nu;
            x / ne
        } else {
            p2
        }
    } else {
        0
    };
    Acc {
        bytes: b,
        params: p,
        read,
        flops,
        attn: if !expert && !router && attn { b } else { 0 },
        ffn: if !expert && !router && !attn { b } else { 0 },
        experts: if expert { b } else { 0 },
        router: if !expert && router { b } else { 0 },
        tensors: 1,
    }
}

/// Where a tensor goes, what it adds there, and whether it names a block beyond `nl`.
fn share(t: &TensorInfo, nl: u32, nu: u64, ne: u64) -> (r: (Dest, Acc, bool))
    requires
        1 <= ne,
        nu <= ne,
        prod_fits(t.dims@),
        2 * prod(t.dims@) <= u64::MAX,
        dest_of(t@, nl) is Block && contains(short_of(t@.name), "_exps"@) ==> t.bytes * nu <= u64::MAX
            && (is_mm(t@) ==> 2 * prod(t.dims@) * nu <= u64::MAX),
    ensures
        r.0 == dest_of(t@, nl),
        r.1@ == share_of(t@, nl, nu as nat, ne as nat),
        r.2 == (spec_layer_index(t@.name) matches Some(i) && i >= nl),
{
    let name = chars_of(t.name.as_str());
    match layer_index_chars(&name) {
        Some(i) => {
            if i < nl {
                (Dest::Block(i), block_share(t, &name, nu, ne), false)
            } else {
                let p = params_of(t);
                (Dest::Other, Acc { bytes: t.bytes, params: p, tensors: 1, ..zero_acc() }, true)
            }
        },
        None => {
            let p = params_of(t);
            let mm = is_matmul(t);
            let embd_p = chars_of("token_embd");
            let out_p = chars_of("output");
            let is_embd = starts_with_at(name.as_slice(), 0, embd_p.as_slice());
            let d = if is_embd {
                Dest::Embd
            } else if starts_with_at(name.as_slice(), 0, out_p.as_slice()) {
                Dest::Head
            } else {
                Dest::Other
            };
            let a = Acc {
                bytes: t.bytes,
                params: p,
                read: t.bytes,
                flops: if mm && !is_embd { 2 * p } else { 0 },
                tensors: 1,
                ..zero_acc()
            };
            (d, a, false)
        },
    }
}

/// One step of the sums: the unit sums over `ts[..k + 1]` from those over `ts[..k]`.
proof fn lemma_acc_step(ts: Seq<TensorV>, k: int, d: Dest, nl: u32, nu: nat, ne: nat)
    requires
        0 <= k < ts.len(),
    ensures
        acc_of(ts.subrange(0, k + 1), d, nl, nu, ne) == (if dest_of(ts[k], nl) == d {
            acc_add(acc_of(ts.subrange(0, k), d, nl, nu, ne), share_of(ts[k], nl, nu, ne))
        } else {
            acc_of(ts.subrange(0, k), d, nl, nu, ne)
        }),
        total_tensor_bytes(ts.subrange(0, k + 1)) == total_tensor_bytes(ts.subrange(0, k)) + ts[k].bytes,
        total_flops_bound(ts.subrange(0, k + 1)) == total_flops_bound(ts.subrange(0, k)) + 2 * prod(ts[k].dims),
        beyond_warnings(ts.subrange(0, k + 1), nl) == (match spec_layer_index(ts[k].name) {
            Some(i) => if i >= nl {
                beyond_warnings(ts.subrange(0, k), nl).push("tensor "@ + ts[k].name + " names a block beyond n_layer"@)
            } else {
                beyond_warnings(ts.subrange(0, k), nl)
            },
            None => beyond_warnings(ts.subrange(0, k), nl),
        }),
        vocab_of(ts.subrange(0, k + 1)) == (if ts[k].name == "token_embd.weight"@ {
            if ts[k].dims.len() > 1 { ts[k].dims[1] } else { 0 }
        } else {
            vocab_of(ts.subrange(0, k))
        }),
        has_output(ts.subrange(0, k + 1)) == (has_output(ts.subrange(0, k)) || ts[k].name == "output.weight"@),
{
    let a = ts.subrange(0, k + 1);
    assert(a.drop_last() =~= ts.subrange(0, k));
    assert(a.last() == ts[k]);
    if has_output(a) {
        let i = choose|i: int| 0 <= i < a.len() && a[i].name == "output.weight"@;
        if i < k {
            assert(ts.subrange(0, k)[i] == a[i]);
        }
    }
    if has_output(ts.subrange(0, k)) {
        let i = choose|i: int| 0 <= i < k && ts.subrange(0, k)[i].name == "output.weight"@;
        assert(a[i] == ts.subrange(0, k)[i]);
    }
    if ts[k].name == "output.weight"@ {
        assert(a[k] == ts[k]);
    }
}

/// Adds `sh` to the sums of unit `d`, which cover `ts[..k]`, to cover `ts[..k + 1]`.
fn add_share(a: Acc, sh: Acc, Ghost(ts): Ghost<Seq<TensorV>>, Ghost(k): Ghost<int>, Ghost(d): Ghost<Dest>, nl: u32,
    Ghost(nu): Ghost<nat>, Ghost(ne): Ghost<nat>) -> (r: Acc)
    requires
        0 <= k < ts.len(),
        1 <= ne,
        nu <= ne,
        a@ == acc_of(ts.subrange(0, k), d, nl, nu, ne),
        sh@ == share_of(ts[k], nl, nu, ne),
        dest_of(ts[k], nl) == d,
        total_tensor_bytes(ts) <= u64::MAX,
        total_flops_bound(ts) <= u64::MAX,
        ts.len() <= u32::MAX,
    ensures
        r@ == acc_of(ts.subrange(0, k + 1), d, nl, nu, ne),
{
    proof {
        lemma_acc_step(ts, k, d, nl, nu, ne);
        let d2 = if d == Dest::Embd { Dest::Head } else { Dest::Embd };
        lemma_acc_pair(ts.subrange(0, k + 1), d, d2, nl, nu, ne);
        lemma_totals_prefix(ts, k + 1);
    }
    acc_plus(a, sh)
}

/// The per-unit sums over all tensors, whether there is an output head, `n_vocab`, and the
/// warnings for tensors beyond the last block.
#[verifier::spinoff_prover]
#[verifier::rlimit(40)]
fn sum_tensors(g: &Gguf, nl: u32, nu: u64, ne: u64) -> (r: (Vec<Acc>, Acc, Acc, Acc, bool, u64, Vec<String>))
    requires
        1 <= ne,
        nu <= ne,
        nu == n_used_of(g.info@),
        layer_bounds(g.info@, tensors_view(g.tensors@)),
        nl == g.info.n_layer,
    ensures
        ({
            let ts = tensors_view(g.tensors@);
            let (bl, embd, head, other, has_out, vocab, warns) = r;
            &&& bl@.len() == nl
            &&& forall|i: int| 0 <= i < nl ==> (#[trigger] bl@[i])@ == acc_of(ts, Dest::Block(i as u32), nl, nu as nat, ne as nat)
            &&& embd@ == acc_of(ts, Dest::Embd, nl, nu as nat, ne as nat)
            &&& head@ == acc_of(ts, Dest::Head, nl, nu as nat, ne as nat)
            &&& other@ == acc_of(ts, Dest::Other, nl, nu as nat, ne as nat)
            &&& has_out == has_output(ts)
            &&& vocab == vocab_of(ts)
            &&& strings_view(warns@) == beyond_warnings(ts, nl)
        }),
{
    let ghost ts = tensors_view(g.tensors@);
    let ghost unu = nu as nat;
    let ghost une = ne as nat;
    let mut blocks: Vec<Acc> = Vec::new();
    let mut i: u32 = 0;
    while i < nl
        invariant
            i <= nl,
            blocks@.len() == i,
            forall|j: int| 0 <= j < i ==> (#[trigger] blocks@[j])@ == acc_zero(),
        decreases nl - i,
    {
        blocks.push(zero_acc());
        i = i + 1;
    }
    let mut embd = zero_acc();
    let mut head = zero_acc();
    let mut other = zero_acc();
    let mut has_out = false;
    let mut vocab: u64 = 0;
    let mut warns: Vec<String> = Vec::new();
    let out_w = chars_of("output.weight");
    let embd_w = chars_of("token_embd.weight");
    let mut k: usize = 0;
    assert(ts.subrange(0, 0) =~= Seq::<TensorV>::empty());
    assert(strings_view(warns@) =~= Seq::<Seq<char>>::empty());
    assert(!has_output(ts.subrange(0, 0)));
    while k < g.tensors.len()
        invariant
            k <= ts.len(),
            ts == tensors_view(g.tensors@),
            ts.len() == g.tensors@.len(),
            unu == nu as nat,
            une == ne as nat,
            1 <= ne,
            nu <= ne,
            nu == n_used_of(g.info@),
            nl == g.info.n_layer,
            layer_bounds(g.info@, ts),
            out_w@ == "output.weight"@,
            embd_w@ == "token_embd.weight"@,
            blocks@.len() == nl,
            forall|j: int| 0 <= j < nl ==> (#[trigger] blocks@[j])@ == acc_of(ts.subrange(0, k as int), Dest::Block(j as u32), nl, unu, une),
            embd@ == acc_of(ts.subrange(0, k as int), Dest::Embd, nl, unu, une),
            head@ == acc_of(ts.subrange(0, k as int), Dest::Head, nl, unu, une),
            other@ == acc_of(ts.subrange(0, k as int), Dest::Other, nl, unu, une),
            has_out == has_output(ts.subrange(0, k as int)),
            vocab == vocab_of(ts.subrange(0, k as int)),
            strings_view(warns@) == beyond_warnings(ts.subrange(0, k as int), nl),
        decreases ts.len() - k,
    {
        let t = &g.tensors[k];
        assert(t@ == ts[k as int]);
        proof {
            lemma_totals_prefix(ts, k + 1);
            lemma_acc_step(ts, k as int, Dest::Embd, nl, unu, une);
            assert(prod_fits(ts[k as int].dims));
        }
        let (d, sh, beyond) = share(t, nl, nu, ne);
        proof {
            assert forall|j: int| 0 <= j < nl implies #[trigger] acc_of(ts.subrange(0, k + 1), Dest::Block(j as u32), nl, unu, une)
                == (if d == Dest::Block(j as u32) {
                    acc_add(acc_of(ts.subrange(0, k as int), Dest::Block(j as u32), nl, unu, une), share_of(ts[k as int], nl, unu, une))
                } else {
                    acc_of(ts.subrange(0, k as int), Dest::Block(j as u32), nl, unu, une)
                }) by {
                lemma_acc_step(ts, k as int, Dest::Block(j as u32), nl, unu, une);
            }
            lemma_acc_step(ts, k as int, Dest::Head, nl, unu, une);
            lemma_acc_step(ts, k as int, Dest::Other, nl, unu, une);
        }
        match d {
            Dest::Block(b) => {
                let cur = blocks[b as usize];
                let nb = add_share(cur, sh, Ghost(ts), Ghost(k as int), Ghost(d), nl, Ghost(unu), Ghost(une));
                blocks.set(b as usize, nb);
            },
            Dest::Embd => {
                embd = add_share(embd, sh, Ghost(ts), Ghost(k as int), Ghost(d), nl, Ghost(unu), Ghost(une));
            },
            Dest::Head => {
                head = add_share(head, sh, Ghost(ts), Ghost(k as int), Ghost(d), nl, Ghost(unu), Ghost(une));
            },
            Dest::Other => {
                other = add_share(other, sh, Ghost(ts), Ghost(k as int), Ghost(d), nl, Ghost(unu), Ghost(une));
            },
        }
        let name = chars_of(t.name.as_str());
        if beyond {
            let mut w = String::new();
            push_str(&mut w, "tensor ");
            push_str(&mut w, t.name.as_str());
            push_str(&mut w, " names a block beyond n_layer");
            proof {
                reveal_strlit("");
            }
            assert(w@ =~= "tensor "@ + ts[k as int].name + " names a block beyond n_layer"@);
            let ghost old_w = warns@;
            warns.push(w);
            assert(strings_view(warns@) =~= strings_view(old_w).push(warns@.last()@));
        }
        if chars_eq(name.as_slice(), embd_w.as_slice()) {
            vocab = if t.dims.len() > 1 { t.dims[1] } else { 0 };
        }
        if chars_eq(name.as_slice(), out_w.as_slice()) {
            has_out = true;
        }
        k = k + 1;
    }
    assert(ts.subrange(0, ts.len() as int) =~= ts);
    (blocks, embd, head, other, has_out, vocab, warns)
}

/// The rules of combination.
fn constraints_list() -> (r: Vec<Constraint>)
    ensures
        constraints_view(r@) == constraints_spec(),
{
    let r = vec![
        Constraint { id: "C1", rule: "MUST_STAY_TOGETHER", what: "a block's attention, FFN/experts and its KV cache",
            source: "policy+engine", enforced_by: "whole layers via -ngl / --tensor-split" },
        Constraint { id: "C2", rule: "MAY_SPLIT_CONTIGUOUS", what: "one block range per device, host prefix first, in --rpc order",
            source: "engine interface + policy", enforced_by: "llama-model.cpp layer assignment" },
        Constraint { id: "C3", rule: "PINNED_TO_HOST", what: "token embedding", source: "engine",
            enforced_by: "llama.cpp keeps token_embd on the CPU" },
        Constraint { id: "C4", rule: "PINNED_TO_HOST", what: "output norm + head (incl. the tied token_embd duplicate)",
            source: "policy", enforced_by: "-ot ^(output|output_norm|token_embd)\\.(weight|bias)$=CPU" },
        Constraint { id: "C5", rule: "PINNED_TO_HOST", what: "vision encoder + projector (separate mmproj file)",
            source: "policy", enforced_by: "--no-mmproj-offload" },
        Constraint { id: "C6", rule: "MAX_RPC_DEVICES", what: "at most 16 RPC workers; worker-to-worker traffic goes through the host",
            source: "engine", enforced_by: "ggml-rpc" },
    ];
    assert(constraints_view(r@) =~= constraints_spec());
    r
}

/// The sliding window the file declares, if positive.
fn window(g: &Gguf) -> (r: Option<u64>)
    ensures
        r == window_of(g.kv@, g.info.arch@),
{
    let mut key = String::new();
    push_str(&mut key, g.info.arch.as_str());
    push_str(&mut key, ".attention.sliding_window");
    assert(key@ == window_key(g.info.arch@));
    match g.kv.get(&key) {
        Some(v) => match v.as_u64() {
            Some(w) => if w > 0 { Some(w) } else { None },
            None => None,
        },
        None => None,
    }
}

/// A unit outside the blocks.
fn fixed_unit_exec(id: &str, kind: UnitKind, a: Acc, read: u64, flops: u64, source: &'static str) -> (u: Unit)
    ensures
        u@ == fixed_unit(id@, kind, a@, read as nat, flops as nat, source@),
{
    Unit {
        id: owned(id),
        kind,
        index: None,
        bytes: a.bytes,
        params: a.params,
        read_bytes_per_token: read,
        flops_per_token: flops,
        kv_bytes_per_token: 0,
        attn_bytes: 0,
        ffn_bytes: 0,
        expert_bytes: 0,
        router_bytes: 0,
        rule: Rule::PinnedToHost,
        source,
        tensors: a.tensors,
    }
}

/// The unit of block `i`.
fn block_unit_exec(i: u32, a: Acc, kvpl: u64) -> (u: Unit)
    ensures
        u@ == block_unit(i as int, a@, kvpl as nat),
{
    let mut id = String::new();
    push_str(&mut id, "blk.");
    push_dec(&mut id, i as u64);
    proof {
        reveal_strlit("");
    }
    assert(id@ =~= "blk."@ + dec(i as nat));
    Unit {
        id,
        kind: UnitKind::Block,
        index: Some(i),
        bytes: a.bytes,
        params: a.params,
        read_bytes_per_token: a.read,
        flops_per_token: a.flops,
        kv_bytes_per_token: kvpl,
        attn_bytes: a.attn,
        ffn_bytes: a.ffn,
        expert_bytes: a.experts,
        router_bytes: a.router,
        rule: Rule::MustStayTogether,
        source: if a.experts > 0 { "engine" } else { "policy" },
        tensors: a.tensors,
    }
}

/// Builds the layer config from a fully read GGUF header.
#[verifier::spinoff_prover]
#[verifier::rlimit(40)]
pub fn layer_config(g: &Gguf) -> (c: LayerConfig)
    requires
        layer_bounds(g.info@, tensors_view(g.tensors@)),
    ensures
        c@ == layer_config_spec(g.info@, g.kv@, tensors_view(g.tensors@)),
{
    let ghost ts = tensors_view(g.tensors@);
    let info = &g.info;
    let nl = info.n_layer;
    let ne: u64 = if info.n_expert >= 1 { info.n_expert as u64 } else { 1 };
    let nu: u64 = if info.n_expert > 1 {
        if info.n_expert_used < 1 {
            1
        } else if info.n_expert_used > info.n_expert {
            info.n_expert as u64
        } else {
            info.n_expert_used as u64
        }
    } else {
        1
    };
    let kvpl: u64 = if nl > 0 { info.kv_bytes_per_token / nl as u64 } else { 0 };
    let (bl, embd, head, other, has_out, vocab, warns) = sum_tensors(g, nl, nu, ne);
    let tied = !has_out;
    proof {
        lemma_acc_pair(ts, Dest::Head, Dest::Embd, nl, nu as nat, ne as nat);
    }
    let head_read: u64 = if tied { head.read + embd.bytes } else { head.read };
    let head_flops: u64 = if tied { head.flops + 2 * embd.params } else { head.flops };
    let mut warnings = warns;
    if tied {
        let ghost old_w = warnings@;
        warnings.push(owned("tied embeddings: the output head reuses token_embd (bytes counted once; a pinned copy may cost a second allocation, R010)"));
        assert(strings_view(warnings@) =~= strings_view(old_w).push(tied_warning()));
    }
    if other.bytes > 0 {
        let mut w = String::new();
        push_dec(&mut w, other.bytes);
        push_str(&mut w, " bytes in ");
        push_dec(&mut w, other.tensors as u64);
        push_str(&mut w, " tensors outside blocks/embedding/head are counted on the host");
        proof {
            reveal_strlit("");
        }
        assert(w@ =~= other_warning(other@));
        let ghost old_w = warnings@;
        warnings.push(w);
        assert(strings_view(warnings@) =~= strings_view(old_w).push(other_warning(other@)));
    }
    let mut units: Vec<Unit> = Vec::new();
    units.push(fixed_unit_exec("embd", UnitKind::TokenEmbedding, embd, info.n_embd as u64 * 4, 0, "engine"));
    let ghost first = units_view(units@);
    let mut i: u32 = 0;
    while i < nl
        invariant
            i <= nl,
            nl == g.info.n_layer,
            bl@.len() == nl,
            forall|j: int| 0 <= j < nl ==> (#[trigger] bl@[j])@ == acc_of(ts, Dest::Block(j as u32), nl, nu as nat, ne as nat),
            units_view(units@) == first + Seq::new(i as nat, |j: int| block_unit(j, acc_of(ts, Dest::Block(j as u32), nl, nu as nat, ne as nat), kvpl as nat)),
        decreases nl - i,
    {
        let u = block_unit_exec(i, bl[i as usize], kvpl);
        assert(bl@[i as int]@ == acc_of(ts, Dest::Block(i as u32), nl, nu as nat, ne as nat));
        let ghost old_u = units@;
        units.push(u);
        assert(units_view(units@) =~= units_view(old_u).push(u@));
        assert(units_view(units@) =~= first + Seq::new((i + 1) as nat, |j: int| block_unit(j, acc_of(ts, Dest::Block(j as u32), nl, nu as nat, ne as nat), kvpl as nat)));
        i = i + 1;
    }
    let ghost blocks_v = units_view(units@);
    let hu = fixed_unit_exec("head", UnitKind::Output, head, head_read, head_flops, "policy");
    let ghost hv = hu@;
    units.push(hu);
    assert(units_view(units@) =~= blocks_v.push(hv));
    if other.bytes > 0 {
        let ou = fixed_unit_exec("other", UnitKind::Other, other, other.read, other.flops, "policy");
        let ghost ov = ou@;
        let ghost before = units_view(units@);
        units.push(ou);
        assert(units_view(units@) =~= before.push(ov));
    }
    let c = LayerConfig {
        model: file_name(info.path.as_str()),
        file_bytes: info.file_bytes,
        quant: info.quant_label.clone(),
        shape: Shape {
            arch: info.arch.clone(),
            n_layer: nl,
            n_embd: info.n_embd,
            n_head: info.n_head,
            n_head_kv: info.n_head_kv,
            n_vocab: vocab,
            n_ctx_train: info.n_ctx_train,
            n_expert: info.n_expert,
            n_expert_used: info.n_expert_used,
            tied_embeddings: tied,
            sliding_window: window(g),
        },
        activation_bytes: info.n_embd as u64 * 4,
        kv_bytes_per_token: info.kv_bytes_per_token,
        units,
        constraints: constraints_list(),
        warnings,
    };
    proof {
        reveal(layer_config_spec);
    }
    assert(c@.units =~= layer_config_spec(g.info@, g.kv@, ts).units);
    assert(c@.warnings =~= layer_config_spec(g.info@, g.kv@, ts).warnings);
    c
}

// ------------------------------------------------------------------------------------------------
// Reading a layer config.

/// The block units, in order.
pub open spec fn blocks_of(us: Seq<UnitV>) -> Seq<UnitV>
    decreases us.len(),
{
    if us.len() == 0 {
        Seq::empty()
    } else {
        let b = blocks_of(us.drop_last());
        if us.last().kind == UnitKind::Block { b.push(us.last()) } else { b }
    }
}

/// Bytes of the units outside the blocks.
pub open spec fn fixed_bytes_of(us: Seq<UnitV>) -> nat
    decreases us.len(),
{
    if us.len() == 0 {
        0
    } else {
        fixed_bytes_of(us.drop_last()) + if us.last().kind != UnitKind::Block { us.last().bytes as nat } else { 0 }
    }
}

/// Bytes of all units.
pub open spec fn all_bytes_of(us: Seq<UnitV>) -> nat
    decreases us.len(),
{
    if us.len() == 0 { 0 } else { all_bytes_of(us.drop_last()) + us.last().bytes as nat }
}

/// Whether `u` is a block with index in `a..b`.
pub open spec fn in_stack(u: UnitV, a: u32, b: u32) -> bool {
    u.kind == UnitKind::Block && (u.index matches Some(i) && a <= i && i < b)
}

/// Blocks `a..b` as one stack: bytes, read bytes per token, FLOPs per token, KV bytes per token.
pub open spec fn stack_of(us: Seq<UnitV>, a: u32, b: u32) -> (nat, nat, nat, nat)
    decreases us.len(),
{
    if us.len() == 0 {
        (0, 0, 0, 0)
    } else {
        let (x, r, f, k) = stack_of(us.drop_last(), a, b);
        let u = us.last();
        if in_stack(u, a, b) {
            (x + u.bytes as nat, r + u.read_bytes_per_token as nat, f + u.flops_per_token as nat, k + u.kv_bytes_per_token as nat)
        } else {
            (x, r, f, k)
        }
    }
}

/// Views of a sequence of unit references.
pub open spec fn unit_refs_view(us: Seq<&Unit>) -> Seq<UnitV> {
    Seq::new(us.len(), |i: int| us[i]@)
}

/// Each partial stack sum fits in 64 bits.
pub open spec fn stack_fits(us: Seq<UnitV>, a: u32, b: u32) -> bool {
    forall|k: int| 0 <= k <= us.len() ==> {
        let s = #[trigger] stack_of(us.subrange(0, k), a, b);
        s.0 <= u64::MAX && s.1 <= u64::MAX && s.2 <= u64::MAX && s.3 <= u64::MAX
    }
}

impl LayerConfig {
    /// The block units, in order.
    pub fn blocks(&self) -> (r: Vec<&Unit>)
        ensures
            unit_refs_view(r@) == blocks_of(self@.units),
    {
        let mut r: Vec<&Unit> = Vec::new();
        let mut i: usize = 0;
        assert(unit_refs_view(r@) =~= blocks_of(self@.units.subrange(0, 0)));
        while i < self.units.len()
            invariant
                i <= self.units@.len(),
                unit_refs_view(r@) == blocks_of(self@.units.subrange(0, i as int)),
            decreases self.units@.len() - i,
        {
            assert(self@.units.subrange(0, i + 1).drop_last() =~= self@.units.subrange(0, i as int));
            assert(self@.units.subrange(0, i + 1).last() == self.units@[i as int]@);
            let u = &self.units[i];
            if u.kind == UnitKind::Block {
                let ghost old_r = r@;
                r.push(u);
                assert(unit_refs_view(r@) =~= unit_refs_view(old_r).push(u@));
            }
            i = i + 1;
        }
        assert(self@.units.subrange(0, self.units@.len() as int) =~= self@.units);
        r
    }

    /// Bytes the host must hold regardless of the split (embedding + head + other).
    pub fn host_fixed_bytes(&self) -> (r: u64)
        requires
            all_bytes_of(self@.units) <= u64::MAX,
        ensures
            r == fixed_bytes_of(self@.units),
    {
        let mut t: u64 = 0;
        let mut i: usize = 0;
        while i < self.units.len()
            invariant
                i <= self.units@.len(),
                all_bytes_of(self@.units) <= u64::MAX,
                t == fixed_bytes_of(self@.units.subrange(0, i as int)),
                t <= all_bytes_of(self@.units.subrange(0, i as int)),
            decreases self.units@.len() - i,
        {
            let ghost pre = self@.units.subrange(0, i + 1);
            assert(pre.drop_last() =~= self@.units.subrange(0, i as int));
            assert(pre.last() == self.units@[i as int]@);
            proof {
                lemma_all_bytes_prefix(self@.units, i + 1);
            }
            if self.units[i].kind != UnitKind::Block {
                t = t + self.units[i].bytes;
            }
            i = i + 1;
        }
        assert(self@.units.subrange(0, self.units@.len() as int) =~= self@.units);
        t
    }

    /// Bytes of all units.
    pub fn total_bytes(&self) -> (r: u64)
        requires
            all_bytes_of(self@.units) <= u64::MAX,
        ensures
            r == all_bytes_of(self@.units),
    {
        let mut t: u64 = 0;
        let mut i: usize = 0;
        while i < self.units.len()
            invariant
                i <= self.units@.len(),
                all_bytes_of(self@.units) <= u64::MAX,
                t == all_bytes_of(self@.units.subrange(0, i as int)),
            decreases self.units@.len() - i,
        {
            let ghost pre = self@.units.subrange(0, i + 1);
            assert(pre.drop_last() =~= self@.units.subrange(0, i as int));
            assert(pre.last() == self.units@[i as int]@);
            proof {
                lemma_all_bytes_prefix(self@.units, i + 1);
            }
            t = t + self.units[i].bytes;
            i = i + 1;
        }
        assert(self@.units.subrange(0, self.units@.len() as int) =~= self@.units);
        t
    }

    /// Blocks `a..b` (half-open) as one stack: bytes, read bytes and FLOPs per token, KV per token.
    pub fn stack(&self, a: u32, b: u32) -> (r: (u64, u64, u64, u64))
        requires
            stack_fits(self@.units, a, b),
        ensures
            (r.0 as nat, r.1 as nat, r.2 as nat, r.3 as nat) == stack_of(self@.units, a, b),
    {
        let mut w: (u64, u64, u64, u64) = (0, 0, 0, 0);
        let mut i: usize = 0;
        assert(stack_of(self@.units.subrange(0, 0), a, b) == (0nat, 0nat, 0nat, 0nat));
        while i < self.units.len()
            invariant
                i <= self.units@.len(),
                stack_fits(self@.units, a, b),
                (w.0 as nat, w.1 as nat, w.2 as nat, w.3 as nat) == stack_of(self@.units.subrange(0, i as int), a, b),
            decreases self.units@.len() - i,
        {
            let ghost pre = self@.units.subrange(0, i + 1);
            assert(pre.drop_last() =~= self@.units.subrange(0, i as int));
            assert(pre.last() == self.units@[i as int]@);
            let ghost s1 = stack_of(pre, a, b);
            assert(s1.0 <= u64::MAX && s1.1 <= u64::MAX && s1.2 <= u64::MAX && s1.3 <= u64::MAX);
            let u = &self.units[i];
            if u.kind == UnitKind::Block {
                if let Some(j) = u.index {
                    if j >= a && j < b {
                        w = (w.0 + u.bytes, w.1 + u.read_bytes_per_token, w.2 + u.flops_per_token, w.3 + u.kv_bytes_per_token);
                    }
                }
            }
            i = i + 1;
        }
        assert(self@.units.subrange(0, self.units@.len() as int) =~= self@.units);
        w
    }
}

/// A prefix of the units never holds more bytes than all of them.
proof fn lemma_all_bytes_prefix(us: Seq<UnitV>, k: int)
    requires
        0 <= k <= us.len(),
    ensures
        all_bytes_of(us.subrange(0, k)) <= all_bytes_of(us),
        fixed_bytes_of(us.subrange(0, k)) <= all_bytes_of(us.subrange(0, k)),
    decreases us.len() - k,
{
    if k < us.len() {
        lemma_all_bytes_prefix(us.drop_last(), k);
        assert(us.drop_last().subrange(0, k) =~= us.subrange(0, k));
    } else {
        assert(us.subrange(0, k) =~= us);
        lemma_fixed_le_all(us);
    }
}

/// The fixed units never hold more bytes than all units.
proof fn lemma_fixed_le_all(us: Seq<UnitV>)
    ensures
        fixed_bytes_of(us) <= all_bytes_of(us),
    decreases us.len(),
{
    if us.len() > 0 {
        lemma_fixed_le_all(us.drop_last());
    }
}

// ------------------------------------------------------------------------------------------------
// Plain-text summary.

/// `true` or `false`.
pub open spec fn bool_text(b: bool) -> Seq<char> {
    if b { "true"@ } else { "false"@ }
}

/// The name of a rule.
pub open spec fn rule_text(r: Rule) -> Seq<char> {
    match r {
        Rule::PinnedToHost => "PinnedToHost"@,
        Rule::MustStayTogether => "MustStayTogether"@,
    }
}

/// The summary line of a unit outside the blocks.
pub open spec fn unit_line(u: UnitV) -> Seq<char> {
    "  "@ + pad_right(u.id, 6) + " "@ + pad_left(one_decimal(u.bytes as nat, 100_000), 8) + " MB  "@ + rule_text(u.rule)
        + "  ("@ + u.source + ")\n"@
}

/// The summary lines of the units outside the blocks.
pub open spec fn unit_lines(us: Seq<UnitV>) -> Seq<char>
    decreases us.len(),
{
    if us.len() == 0 {
        Seq::empty()
    } else {
        unit_lines(us.drop_last()) + if us.last().kind == UnitKind::Block { Seq::empty() } else { unit_line(us.last()) }
    }
}

/// The warning lines.
pub open spec fn warning_lines(ws: Seq<Seq<char>>) -> Seq<char>
    decreases ws.len(),
{
    if ws.len() == 0 { Seq::empty() } else { warning_lines(ws.drop_last()) + "  ! "@ + ws.last() + "\n"@ }
}

/// The plain-text summary of a layer config.
#[verifier::opaque]
pub open spec fn summary_spec(c: LayerConfigV) -> Seq<char> {
    let nl = c.shape.n_layer;
    let n: nat = if nl >= 1 { nl as nat } else { 1 };
    let st = stack_of(c.units, 0, nl);
    c.model + " · "@ + c.quant + " · "@ + dec(nl as nat) + " layers · n_embd "@ + dec(c.shape.n_embd as nat) + " · "@
        + dec(c.shape.n_expert as nat) + " experts ("@ + dec(c.shape.n_expert_used as nat) + " used) · tied "@
        + bool_text(c.shape.tied_embeddings) + " · "@ + two_decimals(c.file_bytes as nat, 10_000_000) + " GB\n"@
        + unit_lines(c.units)
        + "  blocks "@ + pad_left(one_decimal(st.0, 100_000), 8) + " MB total · "@ + one_decimal(st.0, n * 100_000)
        + " MB per block · "@ + one_decimal(st.1, n * 100_000) + " MB read/token/block · "@
        + two_decimals(st.2, n * 10_000_000) + " GFLOP/token/block · "@ + dec(st.3 / n) + " B KV/token/block\n"@
        + "  host fixed "@ + one_decimal(fixed_bytes_of(c.units), 100_000) + " MB · activation/token "@
        + dec(c.activation_bytes as nat) + " B · KV/token all layers "@ + dec(c.kv_bytes_per_token as nat) + " B\n"@
        + warning_lines(c.warnings)
}

/// Appends the summary lines of the units outside the blocks.
fn push_unit_lines(s: &mut String, c: &LayerConfig)
    ensures
        final(s)@ == old(s)@ + unit_lines(c@.units),
{
    let mut i: usize = 0;
    assert(c@.units.subrange(0, 0) =~= Seq::<UnitV>::empty());
    assert(s@ =~= old(s)@ + unit_lines(c@.units.subrange(0, 0)));
    while i < c.units.len()
        invariant
            i <= c.units@.len(),
            s@ == old(s)@ + unit_lines(c@.units.subrange(0, i as int)),
        decreases c.units@.len() - i,
    {
        let ghost pre = c@.units.subrange(0, i + 1);
        assert(pre.drop_last() =~= c@.units.subrange(0, i as int));
        assert(pre.last() == c.units@[i as int]@);
        let u = &c.units[i];
        let ghost before = s@;
        if u.kind != UnitKind::Block {
            push_str(s, "  ");
            push_pad_right(s, u.id.as_str(), 6);
            push_str(s, " ");
            let mut mb = String::new();
            push_one_decimal(&mut mb, u.bytes, 100_000);
            proof {
                reveal_strlit("");
            }
            assert(mb@ =~= one_decimal(u.bytes as nat, 100_000));
            push_pad_left(s, mb.as_str(), 8);
            push_str(s, " MB  ");
            match u.rule {
                Rule::PinnedToHost => push_str(s, "PinnedToHost"),
                Rule::MustStayTogether => push_str(s, "MustStayTogether"),
            }
            push_str(s, "  (");
            push_str(s, u.source);
            push_str(s, ")\n");
            assert(s@ =~= before + unit_line(u@));
        } else {
            assert(s@ =~= before + Seq::<char>::empty());
        }
        i = i + 1;
    }
    assert(c@.units.subrange(0, c.units@.len() as int) =~= c@.units);
}

/// Appends the warning lines.
fn push_warning_lines(s: &mut String, c: &LayerConfig)
    ensures
        final(s)@ == old(s)@ + warning_lines(c@.warnings),
{
    let mut i: usize = 0;
    assert(c@.warnings.subrange(0, 0) =~= Seq::<Seq<char>>::empty());
    assert(s@ =~= old(s)@ + warning_lines(c@.warnings.subrange(0, 0)));
    while i < c.warnings.len()
        invariant
            i <= c.warnings@.len(),
            s@ == old(s)@ + warning_lines(c@.warnings.subrange(0, i as int)),
        decreases c.warnings@.len() - i,
    {
        let ghost pre = c@.warnings.subrange(0, i + 1);
        assert(pre.drop_last() =~= c@.warnings.subrange(0, i as int));
        assert(pre.last() == c.warnings@[i as int]@);
        let ghost before = s@;
        push_str(s, "  ! ");
        push_str(s, c.warnings[i].as_str());
        push_str(s, "\n");
        assert(s@ =~= before + "  ! "@ + c.warnings@[i as int]@ + "\n"@);
        i = i + 1;
    }
    assert(c@.warnings.subrange(0, c.warnings@.len() as int) =~= c@.warnings);
}

/// Plain-text summary of a layer config: one line for the model, one per unit outside the blocks,
/// one for the blocks, one for the host, one per warning.
#[verifier::spinoff_prover]
#[verifier::rlimit(40)]
pub fn summary(c: &LayerConfig) -> (s: String)
    requires
        stack_fits(c@.units, 0, c@.shape.n_layer),
        all_bytes_of(c@.units) <= u64::MAX,
    ensures
        s@ == summary_spec(c@),
{
    let mut s = String::new();
    push_str(&mut s, c.model.as_str());
    push_str(&mut s, " · ");
    push_str(&mut s, c.quant.as_str());
    push_str(&mut s, " · ");
    push_dec(&mut s, c.shape.n_layer as u64);
    push_str(&mut s, " layers · n_embd ");
    push_dec(&mut s, c.shape.n_embd as u64);
    push_str(&mut s, " · ");
    push_dec(&mut s, c.shape.n_expert as u64);
    push_str(&mut s, " experts (");
    push_dec(&mut s, c.shape.n_expert_used as u64);
    push_str(&mut s, " used) · tied ");
    if c.shape.tied_embeddings {
        push_str(&mut s, "true");
    } else {
        push_str(&mut s, "false");
    }
    push_str(&mut s, " · ");
    push_two_decimals(&mut s, c.file_bytes, 10_000_000);
    push_str(&mut s, " GB\n");
    let ghost head = s@;
    push_unit_lines(&mut s, c);
    let ghost mid = s@;
    let (b, r, f, kv) = c.stack(0, c.shape.n_layer);
    let n: u64 = if c.shape.n_layer >= 1 { c.shape.n_layer as u64 } else { 1 };
    push_str(&mut s, "  blocks ");
    let mut mb = String::new();
    push_one_decimal(&mut mb, b, 100_000);
    push_pad_left(&mut s, mb.as_str(), 8);
    push_str(&mut s, " MB total · ");
    push_one_decimal(&mut s, b, n * 100_000);
    push_str(&mut s, " MB per block · ");
    push_one_decimal(&mut s, r, n * 100_000);
    push_str(&mut s, " MB read/token/block · ");
    push_two_decimals(&mut s, f, n * 10_000_000);
    push_str(&mut s, " GFLOP/token/block · ");
    push_dec(&mut s, kv / n);
    push_str(&mut s, " B KV/token/block\n");
    push_str(&mut s, "  host fixed ");
    let hf = c.host_fixed_bytes();
    push_one_decimal(&mut s, hf, 100_000);
    push_str(&mut s, " MB · activation/token ");
    push_dec(&mut s, c.activation_bytes);
    push_str(&mut s, " B · KV/token all layers ");
    push_dec(&mut s, c.kv_bytes_per_token);
    push_str(&mut s, " B\n");
    push_warning_lines(&mut s, c);
    proof {
        reveal_strlit("");
        reveal(summary_spec);
    }
    assert(mb@ =~= one_decimal(b as nat, 100_000));
    assert(s@ =~= summary_spec(c@));
    s
}

// ------------------------------------------------------------------------------------------------
// Every byte of the tensor table is in exactly one unit.

/// Bytes of blocks `0..k`.
pub open spec fn blocks_bytes(ts: Seq<TensorV>, nl: u32, nu: nat, ne: nat, k: nat) -> nat
    decreases k,
{
    if k == 0 { 0 } else { blocks_bytes(ts, nl, nu, ne, (k - 1) as nat) + acc_of(ts, Dest::Block((k - 1) as u32), nl, nu, ne).bytes }
}

/// Adding one tensor adds its bytes to blocks `0..k` exactly when it belongs to one of them.
proof fn lemma_blocks_bytes_step(ts: Seq<TensorV>, nl: u32, nu: nat, ne: nat, k: nat)
    requires
        ts.len() > 0,
        k <= nl,
    ensures
        blocks_bytes(ts, nl, nu, ne, k) == blocks_bytes(ts.drop_last(), nl, nu, ne, k) + (match dest_of(ts.last(), nl) {
            Dest::Block(j) => if j < k { ts.last().bytes as nat } else { 0 },
            _ => 0,
        }),
    decreases k,
{
    if k > 0 {
        lemma_blocks_bytes_step(ts, nl, nu, ne, (k - 1) as nat);
        let d = Dest::Block((k - 1) as u32);
        assert(acc_of(ts, d, nl, nu, ne).bytes == acc_of(ts.drop_last(), d, nl, nu, ne).bytes
            + if dest_of(ts.last(), nl) == d { ts.last().bytes as nat } else { 0 });
    }
}

/// No tensors, no block bytes.
proof fn lemma_blocks_bytes_empty(ts: Seq<TensorV>, nl: u32, nu: nat, ne: nat, k: nat)
    requires
        ts.len() == 0,
    ensures
        blocks_bytes(ts, nl, nu, ne, k) == 0,
    decreases k,
{
    if k > 0 {
        lemma_blocks_bytes_empty(ts, nl, nu, ne, (k - 1) as nat);
    }
}

/// The bytes of the embedding, the blocks, the head and the rest add up to the tensor table.
proof fn lemma_bytes_partition(ts: Seq<TensorV>, nl: u32, nu: nat, ne: nat)
    ensures
        acc_of(ts, Dest::Embd, nl, nu, ne).bytes + blocks_bytes(ts, nl, nu, ne, nl as nat)
            + acc_of(ts, Dest::Head, nl, nu, ne).bytes + acc_of(ts, Dest::Other, nl, nu, ne).bytes
            == total_tensor_bytes(ts),
    decreases ts.len(),
{
    if ts.len() > 0 {
        let pre = ts.drop_last();
        let t = ts.last();
        lemma_bytes_partition(pre, nl, nu, ne);
        lemma_blocks_bytes_step(ts, nl, nu, ne, nl as nat);
        assert(share_of(t, nl, nu, ne).bytes == t.bytes as nat);
        assert(dest_of(t, nl) matches Dest::Block(j) ==> j < nl);
        assert(acc_of(ts, Dest::Embd, nl, nu, ne).bytes == acc_of(pre, Dest::Embd, nl, nu, ne).bytes
            + if dest_of(t, nl) == Dest::Embd { t.bytes as nat } else { 0 });
        assert(acc_of(ts, Dest::Head, nl, nu, ne).bytes == acc_of(pre, Dest::Head, nl, nu, ne).bytes
            + if dest_of(t, nl) == Dest::Head { t.bytes as nat } else { 0 });
        assert(acc_of(ts, Dest::Other, nl, nu, ne).bytes == acc_of(pre, Dest::Other, nl, nu, ne).bytes
            + if dest_of(t, nl) == Dest::Other { t.bytes as nat } else { 0 });
        assert(total_tensor_bytes(ts) == total_tensor_bytes(pre) + t.bytes as nat);
        match dest_of(t, nl) {
            Dest::Block(j) => {
                assert(j < nl);
            },
            Dest::Embd => {},
            Dest::Head => {},
            Dest::Other => {},
        }
    } else {
        lemma_blocks_bytes_empty(ts, nl, nu, ne, nl as nat);
    }
}

/// Each block's bytes are among the bytes of blocks `0..k`.
proof fn lemma_blocks_bytes_each(ts: Seq<TensorV>, nl: u32, nu: nat, ne: nat, k: nat, i: nat)
    requires
        i < k,
    ensures
        acc_of(ts, Dest::Block(i as u32), nl, nu, ne).bytes <= blocks_bytes(ts, nl, nu, ne, k),
    decreases k,
{
    if i < k - 1 {
        lemma_blocks_bytes_each(ts, nl, nu, ne, (k - 1) as nat, i);
    }
}

/// Bytes of units laid end to end.
proof fn lemma_all_bytes_concat(a: Seq<UnitV>, b: Seq<UnitV>)
    ensures
        all_bytes_of(a + b) == all_bytes_of(a) + all_bytes_of(b),
    decreases b.len(),
{
    if b.len() > 0 {
        lemma_all_bytes_concat(a, b.drop_last());
        assert((a + b).drop_last() =~= a + b.drop_last());
    } else {
        assert(a + b =~= a);
    }
}

/// The block units hold the bytes of the blocks.
proof fn lemma_block_units_bytes(ts: Seq<TensorV>, nl: u32, nu: nat, ne: nat, kvpl: nat, k: nat)
    requires
        k <= nl,
        blocks_bytes(ts, nl, nu, ne, nl as nat) <= u64::MAX,
    ensures
        all_bytes_of(Seq::new(k, |i: int| block_unit(i, acc_of(ts, Dest::Block(i as u32), nl, nu, ne), kvpl)))
            == blocks_bytes(ts, nl, nu, ne, k),
    decreases k,
{
    let us = Seq::new(k, |i: int| block_unit(i, acc_of(ts, Dest::Block(i as u32), nl, nu, ne), kvpl));
    if k > 0 {
        lemma_block_units_bytes(ts, nl, nu, ne, kvpl, (k - 1) as nat);
        assert(us.drop_last() =~= Seq::new((k - 1) as nat, |i: int| block_unit(i, acc_of(ts, Dest::Block(i as u32), nl, nu, ne), kvpl)));
        lemma_blocks_bytes_each(ts, nl, nu, ne, nl as nat, (k - 1) as nat);
        assert(us.last().bytes as nat == acc_of(ts, Dest::Block((k - 1) as u32), nl, nu, ne).bytes);
    }
}

/// The units of a layer config: the embedding, the blocks, the head and, when it holds bytes, the rest.
proof fn lemma_units_parts(info: ModelInfoV, kv: Map<Seq<char>, ValueV>, ts: Seq<TensorV>)
    ensures
        ({
            let nl = info.n_layer;
            let nu = n_used_of(info);
            let ne = n_expert_of(info);
            let kvpl: nat = if nl > 0 { info.kv_bytes_per_token as nat / nl as nat } else { 0 };
            let us = layer_config_spec(info, kv, ts).units;
            &&& us.len() >= nl + 2
            &&& us[0].bytes == acc_of(ts, Dest::Embd, nl, nu, ne).bytes as u64
            &&& us.subrange(1, nl + 1) == Seq::new(nl as nat, |i: int| block_unit(i, acc_of(ts, Dest::Block(i as u32), nl, nu, ne), kvpl))
            &&& us[nl + 1].bytes == acc_of(ts, Dest::Head, nl, nu, ne).bytes as u64
            &&& us.len() == nl + 2 + (if acc_of(ts, Dest::Other, nl, nu, ne).bytes > 0 { 1int } else { 0 })
            &&& us.len() == nl + 3 ==> us[nl + 2].bytes == acc_of(ts, Dest::Other, nl, nu, ne).bytes as u64
        }),
{
    reveal(layer_config_spec);
    let nl = info.n_layer;
    let us = layer_config_spec(info, kv, ts).units;
    let nu = n_used_of(info);
    let ne = n_expert_of(info);
    let kvpl: nat = if nl > 0 { info.kv_bytes_per_token as nat / nl as nat } else { 0 };
    assert(us.subrange(1, nl + 1) =~= Seq::new(nl as nat, |i: int| block_unit(i, acc_of(ts, Dest::Block(i as u32), nl, nu, ne), kvpl)));
}

/// One unit's bytes.
proof fn lemma_all_bytes_one(x: UnitV)
    ensures
        all_bytes_of(seq![x]) == x.bytes as nat,
{
    let s = seq![x];
    assert(s.drop_last() =~= Seq::<UnitV>::empty());
    assert(all_bytes_of(s.drop_last()) == 0);
    assert(s.last() == x);
}

/// Bytes of the first unit, the next `n`, the one after, and the rest.
proof fn lemma_all_bytes_four(us: Seq<UnitV>, n: int)
    requires
        0 <= n,
        n + 2 <= us.len(),
    ensures
        all_bytes_of(us) == us[0].bytes as nat + all_bytes_of(us.subrange(1, n + 1)) + us[n + 1].bytes as nat
            + all_bytes_of(us.subrange(n + 2, us.len() as int)),
{
    let a = seq![us[0]];
    let b = us.subrange(1, n + 1);
    let c = seq![us[n + 1]];
    let d = us.subrange(n + 2, us.len() as int);
    assert(us =~= a + b + c + d);
    lemma_all_bytes_concat(a + b + c, d);
    lemma_all_bytes_concat(a + b, c);
    lemma_all_bytes_concat(a, b);
    lemma_all_bytes_one(us[0]);
    lemma_all_bytes_one(us[n + 1]);
}

/// The units of a layer config hold every byte of the tensor table, once: nothing is lost and
/// nothing is counted twice (a tied head reuses the embedding and adds no bytes).
pub proof fn law_units_cover_tensor_bytes(info: ModelInfoV, kv: Map<Seq<char>, ValueV>, ts: Seq<TensorV>)
    requires
        total_tensor_bytes(ts) <= u64::MAX,
    ensures
        all_bytes_of(layer_config_spec(info, kv, ts).units) == total_tensor_bytes(ts),
{
    let nl = info.n_layer;
    let nu = n_used_of(info);
    let ne = n_expert_of(info);
    let kvpl: nat = if nl > 0 { info.kv_bytes_per_token as nat / nl as nat } else { 0 };
    let us = layer_config_spec(info, kv, ts).units;
    let n = nl as int;
    lemma_units_parts(info, kv, ts);
    lemma_bytes_partition(ts, nl, nu, ne);
    lemma_block_units_bytes(ts, nl, nu, ne, kvpl, nl as nat);
    lemma_all_bytes_four(us, n);
    let tail = us.subrange(n + 2, us.len() as int);
    if us.len() == n + 3 {
        assert(tail =~= seq![us[n + 2]]);
        lemma_all_bytes_one(us[n + 2]);
    } else {
        assert(tail =~= Seq::<UnitV>::empty());
    }
}

/// Every block unit has an index below `n`.
pub open spec fn blocks_within(us: Seq<UnitV>, n: u32) -> bool {
    forall|j: int| 0 <= j < us.len() && (#[trigger] us[j]).kind == UnitKind::Block ==> (us[j].index matches Some(i) && i < n)
}

/// When every block's index is below `n`, the units' bytes are the fixed units' plus the stack
/// of blocks `0..n`.
proof fn lemma_fixed_plus_stack(us: Seq<UnitV>, n: u32)
    requires
        blocks_within(us, n),
    ensures
        all_bytes_of(us) == fixed_bytes_of(us) + stack_of(us, 0, n).0,
    decreases us.len(),
{
    if us.len() > 0 {
        let pre = us.drop_last();
        assert forall|j: int| 0 <= j < pre.len() && (#[trigger] pre[j]).kind == UnitKind::Block implies (pre[j].index matches Some(i) && i < n) by {
            assert(pre[j] == us[j]);
        }
        lemma_fixed_plus_stack(pre, n);
        assert(us.last() == us[us.len() - 1]);
    }
}

/// The block units of a layer config are numbered below its block count.
proof fn lemma_config_blocks_within(info: ModelInfoV, kv: Map<Seq<char>, ValueV>, ts: Seq<TensorV>)
    ensures
        blocks_within(layer_config_spec(info, kv, ts).units, info.n_layer),
{
    reveal(layer_config_spec);
    let nl = info.n_layer;
    let nu = n_used_of(info);
    let ne = n_expert_of(info);
    let kvpl: nat = if nl > 0 { info.kv_bytes_per_token as nat / nl as nat } else { 0 };
    let us = layer_config_spec(info, kv, ts).units;
    let bl = Seq::new(nl as nat, |i: int| block_unit(i, acc_of(ts, Dest::Block(i as u32), nl, nu, ne), kvpl));
    assert forall|j: int| 0 <= j < us.len() && (#[trigger] us[j]).kind == UnitKind::Block implies (us[j].index matches Some(i) && i < nl) by {
        if 1 <= j < nl + 1 {
            assert(us[j] == bl[j - 1]);
        }
    }
}

/// The units of a layer config hold the host's fixed units plus the stack of all its blocks:
/// what the host always holds and what the blocks `0..n_layer` hold are the whole; with the
/// cover law, that is every byte of the tensor table.
pub proof fn law_units_are_fixed_plus_blocks(info: ModelInfoV, kv: Map<Seq<char>, ValueV>, ts: Seq<TensorV>)
    ensures
        ({
            let us = layer_config_spec(info, kv, ts).units;
            &&& all_bytes_of(us) == fixed_bytes_of(us) + stack_of(us, 0, info.n_layer).0
            &&& total_tensor_bytes(ts) <= u64::MAX ==> fixed_bytes_of(us) + stack_of(us, 0, info.n_layer).0 == total_tensor_bytes(ts)
        }),
{
    lemma_config_blocks_within(info, kv, ts);
    lemma_fixed_plus_stack(layer_config_spec(info, kv, ts).units, info.n_layer);
    if total_tensor_bytes(ts) <= u64::MAX {
        law_units_cover_tensor_bytes(info, kv, ts);
    }
}

/// Experts used per token are at least one and at most the experts there are.
proof fn lemma_used_within(info: ModelInfoV)
    ensures
        1 <= n_used_of(info) <= n_expert_of(info),
        1 <= info.n_expert_used <= info.n_expert ==> n_used_of(info) == info.n_expert_used
            && n_expert_of(info) == info.n_expert,
{
}

/// What a unit reads and computes per token never exceeds the bytes and twice the parameters of
/// the tensors summed.
proof fn lemma_acc_within(ts: Seq<TensorV>, d: Dest, nl: u32, nu: nat, ne: nat)
    requires
        1 <= nu <= ne,
    ensures
        acc_of(ts, d, nl, nu, ne).read <= total_tensor_bytes(ts),
        acc_of(ts, d, nl, nu, ne).flops <= total_flops_bound(ts),
    decreases ts.len(),
{
    if ts.len() > 0 {
        lemma_acc_within(ts.drop_last(), d, nl, nu, ne);
        let t = ts.last();
        let b = t.bytes as nat;
        let p = prod(t.dims);
        assert(b * nu / ne <= b) by (nonlinear_arith)
            requires
                1 <= nu <= ne,
        ;
        assert(2 * p * nu / ne <= 2 * p) by (nonlinear_arith)
            requires
                1 <= nu <= ne,
        ;
    }
}

/// The unit after the embedding's `i`-th successor is block `i`, with block `i`'s sums.
proof fn lemma_block_at(info: ModelInfoV, kv: Map<Seq<char>, ValueV>, ts: Seq<TensorV>, i: u32)
    requires
        i < info.n_layer,
    ensures
        layer_config_spec(info, kv, ts).units[1 + i] == block_unit(i as int,
            acc_of(ts, Dest::Block(i), info.n_layer, n_used_of(info), n_expert_of(info)),
            if info.n_layer > 0 { info.kv_bytes_per_token as nat / info.n_layer as nat } else { 0 }),
{
    lemma_units_parts(info, kv, ts);
    let u = layer_config_spec(info, kv, ts).units;
    assert(u[1 + i] == u.subrange(1, info.n_layer + 1)[i as int]);
}

/// Appending a tensor of block `i` adds its share to block `i`'s sums.
proof fn lemma_acc_push(ts: Seq<TensorV>, t: TensorV, i: u32, nl: u32, nu: nat, ne: nat)
    requires
        i < nl,
        spec_layer_index(t.name) == Some(i),
    ensures
        acc_of(ts.push(t), Dest::Block(i), nl, nu, ne) == acc_add(acc_of(ts, Dest::Block(i), nl, nu, ne), block_share_of(t, nu, ne)),
{
    let ts1 = ts.push(t);
    assert(ts1.drop_last() =~= ts);
    assert(ts1.last() == t);
    assert(dest_of(t, nl) == Dest::Block(i));
}

/// Each tensor of a block adds to the block what a token touches of it: a dense tensor its bytes,
/// an expert tensor of a mixture-of-experts model (`1 ≤ n_expert_used ≤ n_expert`) its bytes
/// times `n_expert_used / n_expert`, with its matmul FLOPs (twice its parameters) scaled the
/// same way. Shown by appending the tensor to the table, when the sums fit in 64 bits.
#[verifier::spinoff_prover]
pub proof fn law_block_reads(info: ModelInfoV, kv: Map<Seq<char>, ValueV>, ts: Seq<TensorV>, t: TensorV, i: u32)
    requires
        i < info.n_layer,
        spec_layer_index(t.name) == Some(i),
        total_tensor_bytes(ts.push(t)) <= u64::MAX,
        total_flops_bound(ts.push(t)) <= u64::MAX,
    ensures
        ({
            let b0 = layer_config_spec(info, kv, ts).units[1 + i];
            let b1 = layer_config_spec(info, kv, ts.push(t)).units[1 + i];
            let expert = contains(short_of(t.name), "_exps"@);
            let used = info.n_expert_used as nat;
            let ne = info.n_expert as nat;
            &&& b0.index == Some(i) && b1.index == Some(i)
            &&& b1.bytes == b0.bytes + t.bytes
            &&& (!expert ==> b1.read_bytes_per_token == b0.read_bytes_per_token + t.bytes)
            &&& (expert && 1 <= used <= ne ==>
                b1.read_bytes_per_token == b0.read_bytes_per_token + (t.bytes as nat) * used / ne)
            &&& (expert && 1 <= used <= ne && is_mm(t) ==>
                b1.flops_per_token == b0.flops_per_token + 2 * prod(t.dims) * used / ne)
        }),
{
    let nl = info.n_layer;
    let nu = n_used_of(info);
    let ne = n_expert_of(info);
    lemma_used_within(info);
    let ts1 = ts.push(t);
    let d = Dest::Block(i);
    lemma_acc_push(ts, t, i, nl, nu, ne);
    lemma_acc_within(ts1, d, nl, nu, ne);
    lemma_acc_bytes_within(ts1, d, nl, nu, ne);
    lemma_block_at(info, kv, ts, i);
    lemma_block_at(info, kv, ts1, i);
}

/// The bytes a unit sums never exceed the bytes of the tensors.
proof fn lemma_acc_bytes_within(ts: Seq<TensorV>, d: Dest, nl: u32, nu: nat, ne: nat)
    ensures
        acc_of(ts, d, nl, nu, ne).bytes <= total_tensor_bytes(ts),
    decreases ts.len(),
{
    if ts.len() > 0 {
        lemma_acc_bytes_within(ts.drop_last(), d, nl, nu, ne);
    }
}

} // verus!
