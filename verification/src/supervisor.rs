//! The command line of the host `llama-server` for a plan.
//!
//! llama.cpp semantics the arguments depend on:
//! * `--rpc a:p,b:p` registers remote devices in that order;
//! * `-ngl N` offloads the *last* N transformer layers to those devices, the host CPU keeps the
//!   rest plus embeddings/output;
//! * `--tensor-split w1,w2` divides the offloaded layers among the RPC devices in `--rpc` order.
use vstd::prelude::*;
use crate::planner::{Plan, PlanV, PlacementV, Placement, Role, Mode, placements_view, first_idx, lemma_first_idx, lemma_first_idx_none};
use crate::text::{dec, owned, push_str, push_dec, push_char, round_div, one_decimal, push_one_decimal};
use crate::HOST_LLAMA_PORT;
use crate::state::{DeviceKind, RunStatus, RunV, opt_text};

verus! {

/// What to run on the host.
#[derive(Debug)]
pub struct LlamaArgs {
    pub program: String,
    pub args: Vec<String>,
    pub host_is_local: bool,
    /// Address and port of each worker, in `--rpc` order.
    pub workers: Vec<(String, u16)>,
}

/// The worker placements, in order.
pub open spec fn workers_of(ps: Seq<PlacementV>) -> Seq<PlacementV>
    decreases ps.len(),
{
    if ps.len() == 0 {
        Seq::empty()
    } else {
        let w = workers_of(ps.drop_last());
        if ps.last().role == Role::Worker { w.push(ps.last()) } else { w }
    }
}

/// Layers offloaded to the workers.
pub open spec fn ngl_of(ws: Seq<PlacementV>) -> nat
    decreases ws.len(),
{
    if ws.len() == 0 { 0 } else { ngl_of(ws.drop_last()) + (ws.last().layer_end - ws.last().layer_start) as nat }
}

/// `d` padded with leading zeros to `w` digits.
pub open spec fn zero_pad(d: Seq<char>, w: nat) -> Seq<char> {
    if d.len() < w { Seq::new((w - d.len()) as nat, |i: int| '0') + d } else { d }
}

/// `num / den` with four decimals, rounded, halves up.
pub open spec fn four_decimals(num: nat, den: nat) -> Seq<char> {
    let t = round_div(num * 10000, den);
    dec(t / 10000) + "."@ + zero_pad(dec(t % 10000), 4)
}

/// Texts joined with `sep`.
pub open spec fn join(parts: Seq<Seq<char>>, sep: Seq<char>) -> Seq<char>
    decreases parts.len(),
{
    if parts.len() == 0 {
        Seq::empty()
    } else if parts.len() == 1 {
        parts[0]
    } else {
        join(parts.drop_last(), sep) + sep + parts.last()
    }
}

/// `addr:port` of each worker.
pub open spec fn rpc_list(addrs: Seq<(Seq<char>, u16)>) -> Seq<Seq<char>> {
    Seq::new(addrs.len(), |i: int| addrs[i].0 + ":"@ + dec(addrs[i].1 as nat))
}

/// The tensor-split weight of each worker.
pub open spec fn split_list(ws: Seq<PlacementV>) -> Seq<Seq<char>> {
    Seq::new(ws.len(), |i: int| four_decimals(ws[i].split_weight_num as nat, ws[i].split_weight_den as nat))
}

/// The arguments of `llama-server` for a plan whose model file is at `model_path`, with the
/// workers at `addrs` (in placement order).
pub open spec fn args_spec(p: PlanV, model_path: Seq<char>, addrs: Seq<(Seq<char>, u16)>) -> Seq<Seq<char>> {
    let ws = workers_of(p.placements);
    let base = seq!["-m"@, model_path, "-c"@, dec(p.n_ctx as nat), "--host"@, "127.0.0.1"@, "--port"@,
        dec(HOST_LLAMA_PORT as nat), "--jinja"@, "--metrics"@, "--reasoning"@, "off"@];
    if p.mode == Mode::LayerSplit && ws.len() > 0 {
        base + seq!["--rpc"@, join(rpc_list(addrs), ","@), "-ngl"@, dec(ngl_of(ws))]
            + if ws.len() > 1 { seq!["--tensor-split"@, join(split_list(ws), ","@)] } else { Seq::empty() }
    } else {
        base + seq!["-ngl"@, "0"@]
    }
}

/// Views of a list of texts.
pub open spec fn texts_of(v: Seq<String>) -> Seq<Seq<char>> {
    Seq::new(v.len(), |i: int| v[i]@)
}

/// Views of a list of worker addresses.
pub open spec fn addrs_of(v: Seq<(String, u16)>) -> Seq<(Seq<char>, u16)> {
    Seq::new(v.len(), |i: int| (v[i].0@, v[i].1))
}

/// Whether each worker placement's layers are a range whose sizes add up within 32 bits and
/// whose split weight has a divisor.
pub open spec fn args_fit(p: PlanV) -> bool {
    let ws = workers_of(p.placements);
    &&& forall|i: int| 0 <= i < ws.len() ==> worker_fits(#[trigger] ws[i])
    &&& forall|k: int| 0 <= k <= ws.len() ==> #[trigger] ngl_of(ws.subrange(0, k)) <= u32::MAX
}

/// Appends `num / den` with four decimals.
fn push_four_decimals(s: &mut String, num: u64, den: u64)
    requires
        den > 0,
        num as nat * 10000 <= u64::MAX,
    ensures
        final(s)@ == old(s)@ + four_decimals(num as nat, den as nat),
{
    proof {
        reveal_strlit(".");
    }
    let x = num * 10000;
    let q = x / den;
    let r = x % den;
    let t: u64 = if r >= den - r { q + 1 } else { q };
    assert(t as nat == round_div(num as nat * 10000, den as nat)) by {
        assert(r < den);
    }
    push_dec(s, t / 10000);
    push_char(s, '.');
    let f = t % 10000;
    let mut digits = String::new();
    push_dec(&mut digits, f);
    let n = digits.unicode_len();
    let mut i = n;
    assert(Seq::new((i - n) as nat, |k: int| '0') =~= Seq::<char>::empty());
    assert(s@ =~= old(s)@ + dec(t as nat / 10000) + "."@);
    while i < 4
        invariant
            n == digits@.len(),
            n <= i,
            i <= 4 || i == n,
            s@ == old(s)@ + dec(t as nat / 10000) + "."@ + Seq::new((i - n) as nat, |k: int| '0'),
        decreases 4 - i,
    {
        push_char(s, '0');
        assert(Seq::new((i + 1 - n) as nat, |k: int| '0') =~= Seq::new((i - n) as nat, |k: int| '0').push('0'));
        i = i + 1;
    }
    push_str(s, digits.as_str());
    assert(s@ =~= old(s)@ + four_decimals(num as nat, den as nat));
}

/// The placements at `idx`.
pub open spec fn at_indices(ps: Seq<PlacementV>, idx: Seq<usize>) -> Seq<PlacementV> {
    Seq::new(idx.len(), |j: int| ps[idx[j] as int])
}

/// Positions of the worker placements, in order.
fn worker_indices(p: &Plan) -> (r: Vec<usize>)
    ensures
        forall|j: int| 0 <= j < r@.len() ==> (#[trigger] r@[j]) < p@.placements.len(),
        at_indices(p@.placements, r@) == workers_of(p@.placements),
{
    let ghost ps = p@.placements;
    let mut r: Vec<usize> = Vec::new();
    let mut i: usize = 0;
    assert(at_indices(ps, r@) =~= workers_of(ps.subrange(0, 0)));
    while i < p.placements.len()
        invariant
            ps == p@.placements,
            ps.len() == p.placements@.len(),
            i <= ps.len(),
            forall|j: int| 0 <= j < r@.len() ==> (#[trigger] r@[j]) < i,
            at_indices(ps, r@) == workers_of(ps.subrange(0, i as int)),
        decreases ps.len() - i,
    {
        let ghost pre = ps.subrange(0, i + 1);
        assert(pre.drop_last() =~= ps.subrange(0, i as int));
        assert(pre.last() == p.placements@[i as int]@);
        if p.placements[i].role == Role::Worker {
            let ghost old_r = r@;
            r.push(i);
            assert(at_indices(ps, r@) =~= at_indices(ps, old_r).push(ps[i as int]));
        }
        i = i + 1;
    }
    assert(ps.subrange(0, ps.len() as int) =~= ps);
    r
}

/// Whether a worker placement's numbers suit the arguments (see [`args_fit`]).
pub open spec fn worker_fits(w: PlacementV) -> bool {
    w.layer_start <= w.layer_end && w.split_weight_den > 0 && w.split_weight_num as nat * 10000 <= u64::MAX
}

/// Whether the arguments of a plan can be built (see [`args_fit`]): the test to make before
/// [`llama_args_for`].
pub fn plan_args_fit(p: &Plan) -> (r: bool)
    ensures
        r == args_fit(p@),
{
    let ghost ps = p@.placements;
    let ghost ws = workers_of(ps);
    let idx = worker_indices(p);
    let mut ngl: u64 = 0;
    let mut ok = true;
    let mut j: usize = 0;
    assert(ws.subrange(0, 0) =~= Seq::<PlacementV>::empty());
    while j < idx.len() && ok
        invariant
            ps == p@.placements,
            ws == workers_of(ps),
            at_indices(ps, idx@) == ws,
            forall|q: int| 0 <= q < idx@.len() ==> (#[trigger] idx@[q]) < ps.len(),
            j <= idx@.len(),
            ok ==> ngl == ngl_of(ws.subrange(0, j as int)),
            ngl <= u32::MAX,
            ok ==> forall|i: int| 0 <= i < j ==> worker_fits(#[trigger] ws[i]),
            ok ==> forall|k: int| 0 <= k <= j ==> #[trigger] ngl_of(ws.subrange(0, k)) <= u32::MAX,
            !ok ==> !args_fit(p@),
        decreases idx@.len() - j,
    {
        let w = &p.placements[idx[j]];
        assert(w@ == ws[j as int]);
        let ghost pre = ws.subrange(0, j + 1);
        assert(pre.drop_last() =~= ws.subrange(0, j as int));
        if w.layer_start <= w.layer_end && w.split_weight_den > 0 && w.split_weight_num <= u64::MAX / 10000 {
            assert(w.split_weight_num as nat * 10000 <= u64::MAX) by (nonlinear_arith)
                requires
                    w.split_weight_num <= u64::MAX / 10000,
            ;
            let n2 = ngl + (w.layer_end - w.layer_start) as u64;
            assert(n2 == ngl_of(pre));
            if n2 <= 0xffff_ffff {
                ngl = n2;
            } else {
                ok = false;
            }
        } else {
            if w.split_weight_den > 0 && w.layer_start <= w.layer_end {
                assert(w.split_weight_num as nat * 10000 > u64::MAX) by (nonlinear_arith)
                    requires
                        w.split_weight_num > u64::MAX / 10000,
                ;
            }
            assert(!worker_fits(ws[j as int]));
            ok = false;
        }
        j = j + 1;
    }
    if ok {
        assert(j == idx@.len());
        assert(ws.subrange(0, ws.len() as int) =~= ws);
    }
    ok
}

/// Pushes a text onto a list of texts.
fn push_arg(v: &mut Vec<String>, t: String)
    ensures
        texts_of(final(v)@) == texts_of(old(v)@).push(t@),
{
    let ghost tv = t@;
    v.push(t);
    assert(texts_of(v@) =~= texts_of(old(v)@).push(tv));
}

/// Builds the arguments of the host `llama-server` for a plan: the model at `model_path`, the
/// program at `program`, and the worker addresses `addrs`, one per worker placement in order.
pub fn llama_args_for(p: &Plan, model_path: &str, program: &str, host_is_local: bool, addrs: Vec<(String, u16)>) -> (a: LlamaArgs)
    requires
        addrs@.len() == workers_of(p@.placements).len(),
        args_fit(p@),
    ensures
        a.program@ == program@,
        texts_of(a.args@) == args_spec(p@, model_path@, addrs_of(addrs@)),
        a.host_is_local == host_is_local,
        addrs_of(a.workers@) == addrs_of(addrs@),
{
    let ghost ps = p@.placements;
    let ghost ws = workers_of(ps);
    let ghost av = addrs_of(addrs@);
    let idx = worker_indices(p);
    let nw = idx.len();
    let mut ngl: u32 = 0;
    let mut split = String::new();
    let mut rpc = String::new();
    let mut j: usize = 0;
    proof {
        reveal_strlit("");
        reveal_strlit(",");
        reveal_strlit(":");
    }
    assert(ngl_of(ws.subrange(0, 0)) == 0);
    assert(rpc@ =~= join(rpc_list(av).subrange(0, 0), ","@));
    assert(split@ =~= join(split_list(ws).subrange(0, 0), ","@));
    while j < nw
        invariant
            nw == idx@.len(),
            nw == ws.len(),
            ws == workers_of(ps),
            ps == p@.placements,
            at_indices(ps, idx@) == ws,
            forall|q: int| 0 <= q < idx@.len() ==> (#[trigger] idx@[q]) < ps.len(),
            ps.len() == p.placements@.len(),
            av == addrs_of(addrs@),
            addrs@.len() == nw,
            args_fit(p@),
            j <= nw,
            ngl == ngl_of(ws.subrange(0, j as int)),
            rpc@ == join(rpc_list(av).subrange(0, j as int), ","@),
            split@ == join(split_list(ws).subrange(0, j as int), ","@),
        decreases nw - j,
    {
        let w = &p.placements[idx[j]];
        assert(w@ == ws[j as int]);
        let ghost pre = ws.subrange(0, j + 1);
        assert(pre.drop_last() =~= ws.subrange(0, j as int));
        assert(pre.last() == ws[j as int]);
        assert(ngl_of(pre) <= u32::MAX);
        ngl = ngl + (w.layer_end - w.layer_start);
        let ghost rl = rpc_list(av);
        assert(rl.subrange(0, j + 1).drop_last() =~= rl.subrange(0, j as int));
        let ghost sl = split_list(ws);
        assert(sl.subrange(0, j + 1).drop_last() =~= sl.subrange(0, j as int));
        if j > 0 {
            push_str(&mut rpc, ",");
            push_str(&mut split, ",");
        }
        push_str(&mut rpc, addrs[j].0.as_str());
        push_str(&mut rpc, ":");
        push_dec(&mut rpc, addrs[j].1 as u64);
        push_four_decimals(&mut split, w.split_weight_num, w.split_weight_den);
        if j == 0 {
            assert(rpc@ =~= join(rl.subrange(0, j + 1), ","@));
            assert(split@ =~= join(sl.subrange(0, j + 1), ","@));
        } else {
            assert(rpc@ =~= join(rl.subrange(0, j + 1), ","@));
            assert(split@ =~= join(sl.subrange(0, j + 1), ","@));
        }
        j = j + 1;
    }
    assert(ws.subrange(0, nw as int) =~= ws);
    assert(rpc_list(av).subrange(0, nw as int) =~= rpc_list(av));
    assert(split_list(ws).subrange(0, nw as int) =~= split_list(ws));
    let mut args: Vec<String> = Vec::new();
    push_arg(&mut args, owned("-m"));
    push_arg(&mut args, owned(model_path));
    push_arg(&mut args, owned("-c"));
    let mut c = String::new();
    push_dec(&mut c, p.n_ctx as u64);
    push_arg(&mut args, c);
    push_arg(&mut args, owned("--host"));
    push_arg(&mut args, owned("127.0.0.1"));
    push_arg(&mut args, owned("--port"));
    let mut port = String::new();
    push_dec(&mut port, HOST_LLAMA_PORT as u64);
    push_arg(&mut args, port);
    push_arg(&mut args, owned("--jinja"));
    push_arg(&mut args, owned("--metrics"));
    push_arg(&mut args, owned("--reasoning"));
    push_arg(&mut args, owned("off"));
    if p.mode == Mode::LayerSplit && nw > 0 {
        push_arg(&mut args, owned("--rpc"));
        push_arg(&mut args, rpc);
        push_arg(&mut args, owned("-ngl"));
        let mut n = String::new();
        push_dec(&mut n, ngl as u64);
        push_arg(&mut args, n);
        if nw > 1 {
            push_arg(&mut args, owned("--tensor-split"));
            push_arg(&mut args, split);
        }
    } else {
        push_arg(&mut args, owned("-ngl"));
        push_arg(&mut args, owned("0"));
    }
    assert(texts_of(args@) =~= args_spec(p@, model_path@, av));
    LlamaArgs { program: owned(program), args, host_is_local, workers: addrs }
}

// ------------------------------------------------------------------------------------------------
// Starting a plan.

/// What starting a plan involves: whether this machine runs a worker, which devices are sent the
/// plan, and which devices must report their worker listening before the host starts.
#[derive(Debug)]
pub struct StartSteps {
    pub local_worker: bool,
    pub recipients: Vec<String>,
    pub awaited: Vec<String>,
}

/// The ids of the placements among the first `n` that satisfy `keep`, in order.
pub open spec fn ids_where(ps: Seq<PlacementV>, kinds: Seq<DeviceKind>, n: nat, keep: spec_fn(PlacementV, DeviceKind) -> bool) -> Seq<Seq<char>>
    decreases n,
{
    if n == 0 {
        Seq::empty()
    } else {
        let r = ids_where(ps, kinds, (n - 1) as nat, keep);
        if keep(ps[n - 1], kinds[n - 1]) { r.push(ps[n - 1].device_id) } else { r }
    }
}

/// A placement that takes part, on another device: it is sent the plan.
pub open spec fn is_recipient() -> spec_fn(PlacementV, DeviceKind) -> bool {
    |p: PlacementV, k: DeviceKind| p.role != Role::Rejected && p.device_id != "local"@
}

/// A worker on a real device elsewhere: it must report its worker listening.
pub open spec fn is_awaited() -> spec_fn(PlacementV, DeviceKind) -> bool {
    |p: PlacementV, k: DeviceKind| p.role == Role::Worker && p.device_id != "local"@ && k != DeviceKind::Sim
}

/// The steps of starting plan `p`; `kinds[i]` is the kind of the device of its `i`-th placement.
pub fn start_steps(p: &Plan, kinds: &[DeviceKind]) -> (r: StartSteps)
    requires
        kinds@.len() == p@.placements.len(),
    ensures
        r.local_worker == exists|i: int| 0 <= i < p@.placements.len() && p@.placements[i].role == Role::Worker
            && p@.placements[i].device_id == "local"@,
        texts_of(r.recipients@) == ids_where(p@.placements, kinds@, p@.placements.len(), is_recipient()),
        texts_of(r.awaited@) == ids_where(p@.placements, kinds@, p@.placements.len(), is_awaited()),
{
    let ghost ps = p@.placements;
    let local = owned("local");
    proof {
        reveal_strlit("local");
    }
    let mut lw = false;
    let mut rec: Vec<String> = Vec::new();
    let mut aw: Vec<String> = Vec::new();
    let mut i: usize = 0;
    assert(texts_of(rec@) =~= Seq::<Seq<char>>::empty());
    assert(texts_of(aw@) =~= Seq::<Seq<char>>::empty());
    while i < p.placements.len()
        invariant
            ps == p@.placements,
            ps.len() == p.placements@.len(),
            kinds@.len() == ps.len(),
            local@ == "local"@,
            i <= ps.len(),
            lw == exists|j: int| 0 <= j < i && ps[j].role == Role::Worker && ps[j].device_id == "local"@,
            texts_of(rec@) == ids_where(ps, kinds@, i as nat, is_recipient()),
            texts_of(aw@) == ids_where(ps, kinds@, i as nat, is_awaited()),
        decreases ps.len() - i,
    {
        let pl = &p.placements[i];
        assert(pl@ == ps[i as int]);
        let is_local = pl.device_id == local;
        if pl.role == Role::Worker && is_local {
            lw = true;
        }
        if pl.role != Role::Rejected && !is_local {
            let ghost old_rec = rec@;
            rec.push(pl.device_id.clone());
            assert(texts_of(rec@) =~= texts_of(old_rec).push(ps[i as int].device_id));
        }
        if pl.role == Role::Worker && !is_local && kinds[i] != DeviceKind::Sim {
            let ghost old_aw = aw@;
            aw.push(pl.device_id.clone());
            assert(texts_of(aw@) =~= texts_of(old_aw).push(ps[i as int].device_id));
        }
        i = i + 1;
    }
    StartSteps { local_worker: lw, recipients: rec, awaited: aw }
}

// ------------------------------------------------------------------------------------------------
// The run's status.

/// A run that has just been asked to start: `starting`, on `host_id` with `model`, started at
/// `now`, with nothing else known yet.
pub open spec fn starting_spec(host_id: Seq<char>, model: Seq<char>, now: u64) -> RunV {
    RunV {
        status: "starting"@,
        host_id: Some(host_id),
        model: Some(model),
        plan_id: None,
        started_ms: Some(now),
        ready_ms: None,
        endpoint: None,
        log_tail: Seq::empty(),
        error: None,
        args: Seq::empty(),
    }
}

/// The status of a run that has just been asked to start (see [`starting_spec`]).
pub fn starting_run(host_id: &str, model: &str, now: u64) -> (r: RunStatus)
    ensures
        r@ == starting_spec(host_id@, model@, now),
{
    let r = RunStatus {
        status: owned("starting"),
        host_id: Some(owned(host_id)),
        model: Some(owned(model)),
        plan_id: None,
        started_ms: Some(now),
        ready_ms: None,
        endpoint: None,
        log_tail: Vec::new(),
        error: None,
        args: Vec::new(),
    };
    assert(r@.log_tail =~= Seq::<Seq<char>>::empty());
    assert(r@.args =~= Seq::<Seq<char>>::empty());
    r
}

/// The status of a run asked to start now, by the wall clock: what [`starting_run`] gives at some
/// moment.
pub fn begin_run(host_id: &str, model: &str) -> (r: RunStatus)
    ensures
        exists|now: u64| r@ == #[trigger] starting_spec(host_id@, model@, now),
{
    let now = crate::state::now_ms();
    starting_run(host_id, model, now)
}

/// Records the command line of the run: the program, then its arguments.
pub fn set_run_args(r: &mut RunStatus, la: &LlamaArgs)
    ensures
        final(r)@ == (RunV { args: seq![la.program@] + texts_of(la.args@), ..old(r)@ }),
{
    let mut v: Vec<String> = Vec::new();
    v.push(la.program.clone());
    let mut i: usize = 0;
    while i < la.args.len()
        invariant
            i <= la.args@.len(),
            texts_of(v@) == seq![la.program@] + texts_of(la.args@.subrange(0, i as int)),
        decreases la.args@.len() - i,
    {
        let ghost before = v@;
        v.push(la.args[i].clone());
        assert(texts_of(v@) =~= texts_of(before).push(la.args@[i as int]@));
        assert(texts_of(la.args@.subrange(0, i + 1)) =~= texts_of(la.args@.subrange(0, i as int)).push(la.args@[i as int]@));
        i = i + 1;
    }
    assert(la.args@.subrange(0, la.args@.len() as int) =~= la.args@);
    r.args = v;
    assert(final(r)@.args =~= texts_of(v@));
    assert(final(r)@ == (RunV { args: seq![la.program@] + texts_of(la.args@), ..old(r)@ }));
}

/// Sets the run's status to `status`, keeping the rest.
pub fn set_run_status(r: &mut RunStatus, status: &str)
    ensures
        final(r)@ == (RunV { status: status@, ..old(r)@ }),
{
    r.status = owned(status);
    assert(final(r)@.log_tail =~= old(r)@.log_tail);
    assert(final(r)@.args =~= old(r)@.args);
}

/// The run failed with `msg`.
pub open spec fn failed_spec(r: RunV, msg: Seq<char>) -> RunV {
    RunV { status: "error"@, error: Some(msg), ..r }
}

/// Marks the run failed with `msg` (see [`failed_spec`]).
pub fn fail_run(r: &mut RunStatus, msg: &str)
    ensures
        final(r)@ == failed_spec(old(r)@, msg@),
{
    r.status = owned("error");
    r.error = Some(owned(msg));
    assert(final(r)@.log_tail =~= old(r)@.log_tail);
    assert(final(r)@.args =~= old(r)@.args);
}

/// The run after it is stopped: `idle`, with no endpoint.
pub open spec fn stopped_spec(r: RunV) -> RunV {
    RunV { status: "idle"@, endpoint: None, ..r }
}

/// Stops the run (see [`stopped_spec`]).
pub fn stop_run(r: &mut RunStatus)
    ensures
        final(r)@ == stopped_spec(old(r)@),
{
    r.status = owned("idle");
    r.endpoint = None;
    assert(final(r)@.log_tail =~= old(r)@.log_tail);
    assert(final(r)@.args =~= old(r)@.args);
}

/// The line logged when the host answers its health check: the seconds since the start, with one
/// decimal, and the endpoint.
pub open spec fn ready_line(started: u64, now: u64, endpoint: Seq<char>) -> Seq<char> {
    "ready in "@ + one_decimal((now - started) as nat, 100) + "s → "@ + endpoint
}

/// One round of waiting for the host at `endpoint` at `now`: while the run is `loading`, a healthy
/// host makes it `ready` (with its time, endpoint and a log line), an exited host process
/// (`exited`: how it exited) or a passed deadline makes it fail; otherwise nothing changes. The
/// flag says whether to wait another round.
pub open spec fn wait_spec(r: RunV, healthy: bool, exited: Option<Seq<char>>, past_deadline: bool, now: u64, endpoint: Seq<char>) -> (RunV, bool) {
    if r.status != "loading"@ {
        (r, false)
    } else if healthy {
        let started = match r.started_ms { Some(s) => s, None => now };
        (RunV {
            status: "ready"@,
            ready_ms: Some(now),
            endpoint: Some(endpoint),
            log_tail: r.log_tail.push(ready_line(started, now, endpoint)),
            ..r
        }, false)
    } else if exited is Some {
        (failed_spec(r, "llama-server exited with "@ + exited->0), false)
    } else if past_deadline {
        (failed_spec(r, "timeout waiting for /health"@), false)
    } else {
        (r, true)
    }
}

/// One round of waiting for the host (see [`wait_spec`]).
pub fn wait_step(r: &mut RunStatus, healthy: bool, exited: Option<&str>, past_deadline: bool, now: u64, endpoint: &str) -> (again: bool)
    requires
        old(r).started_ms matches Some(s) ==> s <= now,
    ensures
        (final(r)@, again) == wait_spec(old(r)@, healthy,
            match exited { Some(e) => Some(e@), None => None }, past_deadline, now, endpoint@),
{
    let loading = owned("loading");
    if !(r.status == loading) {
        return false;
    }
    if healthy {
        let started = match r.started_ms { Some(s) => s, None => now };
        let mut line = owned("ready in ");
        push_one_decimal(&mut line, now - started, 100);
        push_str(&mut line, "s → ");
        push_str(&mut line, endpoint);
        let ghost tail = r@.log_tail;
        r.status = owned("ready");
        r.ready_ms = Some(now);
        r.endpoint = Some(owned(endpoint));
        r.log_tail.push(line);
        assert(final(r)@.log_tail =~= tail.push(ready_line(started, now, endpoint@)));
        assert(final(r)@.args =~= old(r)@.args);
        return false;
    }
    match exited {
        Some(code) => {
            let mut msg = owned("llama-server exited with ");
            push_str(&mut msg, code);
            fail_run(r, msg.as_str());
            false
        },
        None => {
            if past_deadline {
                fail_run(r, "timeout waiting for /health");
                false
            } else {
                true
            }
        },
    }
}

/// Once waiting for the host stops, later rounds change nothing and stop at once; a stopped run
/// is never waited for.
pub proof fn law_wait_settles(r: RunV, healthy: bool, exited: Option<Seq<char>>, past_deadline: bool, now: u64,
    endpoint: Seq<char>, healthy2: bool, exited2: Option<Seq<char>>, past2: bool, now2: u64, endpoint2: Seq<char>)
    ensures
        !wait_spec(r, healthy, exited, past_deadline, now, endpoint).1 ==> {
            let r2 = wait_spec(r, healthy, exited, past_deadline, now, endpoint).0;
            wait_spec(r2, healthy2, exited2, past2, now2, endpoint2) == (r2, false)
        },
        wait_spec(stopped_spec(r), healthy2, exited2, past2, now2, endpoint2) == (stopped_spec(r), false),
{
    reveal_strlit("loading");
    reveal_strlit("ready");
    reveal_strlit("error");
    reveal_strlit("idle");
    assert("loading"@[0] != "ready"@[0]);
    assert("loading"@[0] != "error"@[0]);
    assert("loading"@[0] != "idle"@[0]);
}

// ------------------------------------------------------------------------------------------------
// Where the workers listen.

/// What the coordinator knows of a device's address.
#[derive(Debug, Clone)]
pub struct DeviceAddr {
    pub id: String,
    pub is_local: bool,
    /// The address it connected from (remote devices).
    pub addr: Option<String>,
    pub rpc_port: u16,
}

/// The device has id `id`.
pub open spec fn has_id(id: Seq<char>) -> spec_fn(DeviceAddr) -> bool {
    |d: DeviceAddr| d.id@ == id
}

/// Where a worker device listens: this machine's loopback for the local device, else the address
/// it connected from (empty when unknown), on its RPC port.
pub open spec fn listen_addr(d: DeviceAddr) -> (Seq<char>, u16) {
    (if d.is_local { "127.0.0.1"@ } else { match d.addr { Some(a) => a@, None => Seq::empty() } }, d.rpc_port)
}

/// Where the workers `ws` listen, in order; `None` when one of them is not a known device.
pub open spec fn addrs_spec(ws: Seq<PlacementV>, ds: Seq<DeviceAddr>) -> Option<Seq<(Seq<char>, u16)>>
    decreases ws.len(),
{
    if ws.len() == 0 {
        Some(Seq::empty())
    } else {
        match addrs_spec(ws.drop_last(), ds) {
            None => None,
            Some(v) => match first_idx(ds, has_id(ws.last().device_id)) {
                None => None,
                Some(i) => Some(v.push(listen_addr(ds[i]))),
            },
        }
    }
}

/// The addresses of workers number with each worker.
proof fn lemma_addrs_len(ws: Seq<PlacementV>, ds: Seq<DeviceAddr>)
    ensures
        addrs_spec(ws, ds) matches Some(v) ==> v.len() == ws.len(),
    decreases ws.len(),
{
    if ws.len() > 0 {
        lemma_addrs_len(ws.drop_last(), ds);
    }
}

/// An unknown worker among the first ones leaves the whole list unknown.
proof fn lemma_addrs_none(ws: Seq<PlacementV>, ds: Seq<DeviceAddr>, k: int)
    requires
        0 <= k <= ws.len(),
        addrs_spec(ws.subrange(0, k), ds) is None,
    ensures
        addrs_spec(ws, ds) is None,
    decreases ws.len() - k,
{
    if k < ws.len() {
        assert(ws.subrange(0, k + 1).drop_last() =~= ws.subrange(0, k));
        lemma_addrs_none(ws, ds, k + 1);
    } else {
        assert(ws.subrange(0, k) =~= ws);
    }
}

/// The position of the device with id `id`, the first such.
fn find_device(ds: &[DeviceAddr], id: &String) -> (r: Option<usize>)
    ensures
        match r {
            Some(i) => first_idx(ds@, has_id(id@)) == Some(i as int) && i < ds@.len(),
            None => first_idx(ds@, has_id(id@)) is None,
        },
{
    let mut i: usize = 0;
    while i < ds.len()
        invariant
            i <= ds@.len(),
            forall|j: int| 0 <= j < i ==> !has_id(id@)(#[trigger] ds@[j]),
        decreases ds@.len() - i,
    {
        if ds[i].id == *id {
            proof {
                lemma_first_idx(ds@, has_id(id@), i as int);
            }
            return Some(i);
        }
        i = i + 1;
    }
    proof {
        lemma_first_idx_none(ds@, has_id(id@));
    }
    None
}

/// Where a device listens (see [`listen_addr`]).
fn listen_of(d: &DeviceAddr) -> (r: (String, u16))
    ensures
        (r.0@, r.1) == listen_addr(*d),
{
    if d.is_local {
        (owned("127.0.0.1"), d.rpc_port)
    } else {
        match &d.addr {
            Some(a) => (a.clone(), d.rpc_port),
            None => (String::new(), d.rpc_port),
        }
    }
}

/// Where the workers of plan `p` listen, in `--rpc` order (see [`addrs_spec`]); `None` when one
/// of them is not among the known devices `ds`.
pub fn worker_addrs(p: &Plan, ds: &[DeviceAddr]) -> (r: Option<Vec<(String, u16)>>)
    ensures
        match r {
            Some(v) => addrs_spec(workers_of(p@.placements), ds@) == Some(addrs_of(v@)),
            None => addrs_spec(workers_of(p@.placements), ds@) is None,
        },
{
    let ghost ps = p@.placements;
    let ghost ws = workers_of(ps);
    let idx = worker_indices(p);
    let mut out: Vec<(String, u16)> = Vec::new();
    let mut j: usize = 0;
    assert(ws.subrange(0, 0) =~= Seq::<PlacementV>::empty());
    assert(addrs_of(out@) =~= Seq::<(Seq<char>, u16)>::empty());
    while j < idx.len()
        invariant
            ps == p@.placements,
            ws == workers_of(ps),
            at_indices(ps, idx@) == ws,
            forall|q: int| 0 <= q < idx@.len() ==> (#[trigger] idx@[q]) < ps.len(),
            j <= idx@.len(),
            addrs_spec(ws.subrange(0, j as int), ds@) == Some(addrs_of(out@)),
        decreases idx@.len() - j,
    {
        let w = &p.placements[idx[j]];
        assert(w@ == ws[j as int]);
        let ghost pre = ws.subrange(0, j + 1);
        assert(pre.drop_last() =~= ws.subrange(0, j as int));
        match find_device(ds, &w.device_id) {
            None => {
                proof {
                    lemma_addrs_none(ws, ds@, j + 1);
                }
                return None;
            },
            Some(i) => {
                let a = listen_of(&ds[i]);
                let ghost old_out = out@;
                out.push(a);
                assert(addrs_of(out@) =~= addrs_of(old_out).push(listen_addr(ds@[i as int])));
            },
        }
        j = j + 1;
    }
    assert(ws.subrange(0, ws.len() as int) =~= ws);
    Some(out)
}

/// Why the arguments of a plan cannot be built: its host or one of its workers is not a known
/// device.
pub open spec fn args_error_spec(p: PlanV, ds: Seq<DeviceAddr>) -> Option<Seq<char>> {
    if first_idx(ds, has_id(p.host_id)) is None {
        Some("host device missing"@)
    } else if addrs_spec(workers_of(p.placements), ds) is None {
        Some("worker device missing"@)
    } else {
        None
    }
}

/// The `llama-server` command line for plan `p` on the known devices `ds`: the host's locality
/// and the workers' addresses are looked up by id (see [`args_error_spec`] for the refusals).
pub fn llama_args(p: &Plan, ds: &[DeviceAddr], model_path: &str, program: &str) -> (r: Result<LlamaArgs, String>)
    requires
        args_fit(p@),
    ensures
        match r {
            Ok(a) => args_error_spec(p@, ds@) is None && {
                let h = first_idx(ds@, has_id(p@.host_id))->0;
                let v = addrs_spec(workers_of(p@.placements), ds@)->0;
                &&& a.program@ == program@
                &&& texts_of(a.args@) == args_spec(p@, model_path@, v)
                &&& a.host_is_local == ds@[h].is_local
                &&& addrs_of(a.workers@) == v
            },
            Err(e) => args_error_spec(p@, ds@) == Some(e@),
        },
{
    let h = match find_device(ds, &p.host_id) {
        None => return Err(owned("host device missing")),
        Some(h) => h,
    };
    let addrs = match worker_addrs(p, ds) {
        None => return Err(owned("worker device missing")),
        Some(v) => v,
    };
    proof {
        lemma_addrs_len(workers_of(p@.placements), ds@);
    }
    assert(addrs@.len() == addrs_of(addrs@).len());
    Ok(llama_args_for(p, model_path, program, ds[h].is_local, addrs))
}

} // verus!
