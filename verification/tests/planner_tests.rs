use meshcore::gguf::ModelInfo;
use meshcore::planner::{
    plan, plan_in_bounds, DeviceCap, Mode, Placement, Plan, PlanError, Policy, Role, HOST_COMPUTE_RESERVE_BYTES,
    WORKER_COMPUTE_RESERVE_BYTES,
};

fn model(n_layer: u32, layer_mb: u64, non_layer_mb: u64) -> ModelInfo {
    ModelInfo {
        path: "x".into(),
        file_bytes: 0,
        version: 3,
        arch: "test".into(),
        name: "test-model".into(),
        quant_label: "Q4".into(),
        n_layer,
        n_embd: 2048,
        n_head: 16,
        n_head_kv: 4,
        n_ctx_train: 32768,
        n_expert: 0,
        n_expert_used: 0,
        non_layer_bytes: non_layer_mb * 1_000_000,
        layer_bytes: vec![layer_mb * 1_000_000; n_layer as usize],
        kv_bytes_per_token: 48 * 2 * 4 * 128 * 2, // ~96 KB
        tensor_count: 0,
    }
}

fn dev(id: &str, gb: f64, local: bool, rtt: f32) -> DeviceCap {
    DeviceCap {
        device_id: id.into(),
        name: id.into(),
        usable_bytes: (gb * 1e9) as u64,
        bench_milli_tps: 0,
        rtt_us_p95: (rtt as f64 * 1000.0) as i64,
        thermal_headroom_ppm: 400_000,
        battery_milli_pct: 80_000,
        charging: true,
        is_local: local,
        supported: true,
        can_host: true,
    }
}

fn worker_only(id: &str, gb: f64) -> DeviceCap {
    let mut d = dev(id, gb, false, 1.0);
    d.can_host = false;
    d
}

fn used(p: &Plan) -> Vec<&Placement> {
    p.placements.iter().filter(|x| x.role != Role::Rejected).collect()
}

fn contiguous(p: &Plan, n: u32) {
    let u = used(p);
    assert_eq!(u[0].role, Role::Host);
    let mut last = 0;
    for x in &u {
        assert_eq!(x.layer_start, last, "contiguous");
        last = x.layer_end;
    }
    assert_eq!(last, n);
}

fn weight(p: &Placement) -> f64 {
    p.split_weight_num as f64 / p.split_weight_den as f64
}

#[test]
fn a_compute_only_worker_is_never_the_host() {
    let m = model(12, 100, 50);
    let p = plan(&m, &[dev("local", 0.5, true, 0.0), worker_only("sim", 3.0)], 1, &Policy::default()).unwrap();
    assert_eq!(p.host_id, "local");
    assert_eq!(p.mode, Mode::LayerSplit);
    let e = plan(&m, &[worker_only("sim", 3.0)], 1, &Policy::default()).unwrap_err();
    assert!(matches!(e, PlanError::NoHost));
}

#[test]
fn a_requested_host_is_honoured_or_refused_never_swapped() {
    let m = model(12, 100, 50);
    let pol = Policy { prefer_host: Some("local".into()), ..Policy::default() };
    let p = plan(&m, &[dev("local", 0.5, true, 0.0), dev("phone", 3.0, false, 1.0)], 1, &pol).unwrap();
    assert_eq!(p.host_id, "local");
    let bad = Policy { prefer_host: Some("phone".into()), ..Policy::default() };
    let e = plan(&m, &[dev("local", 3.0, true, 0.0), dev("phone", 3.0, false, 999.0)], 1, &bad).unwrap_err();
    assert!(matches!(e, PlanError::HostNotEligible { .. }), "{e:?}");
}

#[test]
fn fits_on_one_device_prefers_faster_then_local() {
    let m = model(28, 20, 300);
    let mut phone = dev("aaaa-phone", 6.0, false, 5.0);
    phone.bench_milli_tps = 8_000;
    let laptop = dev("local", 12.0, true, 0.0);
    let p = plan(&m, &[laptop.clone(), phone.clone()], 4096, &Policy::default()).unwrap();
    assert_eq!(p.mode, Mode::Single);
    assert_eq!(p.host_id, "aaaa-phone", "measured speed wins");
    phone.bench_milli_tps = 0;
    let p = plan(&m, &[phone, laptop], 4096, &Policy::default()).unwrap();
    assert_eq!(p.host_id, "local");
}

#[test]
fn splits_when_it_does_not_fit_and_covers_all_layers() {
    let m = model(48, 380, 500);
    let p = plan(
        &m,
        &[dev("local", 12.0, true, 0.0), dev("phoneA", 8.5, false, 6.0), dev("phoneB", 8.5, false, 7.0)],
        8192,
        &Policy::default(),
    )
    .unwrap();
    assert_eq!(p.mode, Mode::LayerSplit);
    contiguous(&p, 48);
    let w: f64 = used(&p).iter().map(|u| weight(u)).sum();
    assert!((w - 1.0).abs() < 1e-9);
}

#[test]
fn rejects_high_rtt_and_unsupported_with_reasons() {
    let m = model(48, 380, 500);
    let mut bad = dev("old-phone", 8.5, false, 5.0);
    bad.supported = false;
    let r = plan(&m, &[dev("local", 12.0, true, 0.0), dev("far-phone", 8.5, false, 250.0), bad], 4096, &Policy::default());
    match r {
        Err(PlanError::DoesNotFit { .. }) => {}
        other => panic!("expected DoesNotFit, got {other:?}"),
    }
    let small = model(28, 20, 300);
    let mut bad = dev("old-phone", 8.5, false, 5.0);
    bad.supported = false;
    let p = plan(&small, &[dev("local", 12.0, true, 0.0), bad], 4096, &Policy::default()).unwrap();
    let rej = p.placements.iter().find(|x| x.device_id == "old-phone").unwrap();
    assert!(rej.reason.contains("unsupported"), "{}", rej.reason);
}

#[test]
fn prefer_host_is_honoured_in_split() {
    let m = model(48, 380, 500);
    let pol = Policy { prefer_host: Some("phoneA".into()), ..Default::default() };
    let p = plan(
        &m,
        &[dev("local", 12.0, true, 0.0), dev("phoneA", 8.5, false, 6.0), dev("phoneB", 8.5, false, 7.0)],
        4096,
        &pol,
    )
    .unwrap();
    assert_eq!(p.host_id, "phoneA");
}

#[test]
fn never_assigns_a_layer_a_device_cannot_hold() {
    let m = model(10, 100, 50);
    let p = plan(
        &m,
        &[dev("local", 0.48, true, 0.0), dev("tiny", 0.05, false, 1.0), dev("big", 1.1, false, 1.0)],
        512,
        &Policy::default(),
    )
    .unwrap();
    contiguous(&p, 10);
    for u in used(&p) {
        let cap: u64 = if u.role == Role::Host { 480_000_000 } else { 1_100_000_000 };
        assert!(u.bytes + u.compute_reserve_bytes <= cap + 1, "{} over cap incl. reserve", u.name);
    }
    let tiny = p.placements.iter().find(|x| x.device_id == "tiny").unwrap();
    assert_eq!(tiny.role, Role::Rejected);
}

#[test]
fn compute_reserve_costs_a_device_its_last_layer() {
    let mut m = model(6, 100, 0);
    m.kv_bytes_per_token = 0;
    let p = plan(
        &m,
        &[dev("local", 0.4, true, 0.0), dev("phoneA", 0.55, false, 1.0), dev("phoneB", 0.3, false, 1.0)],
        1,
        &Policy::default(),
    )
    .unwrap();
    contiguous(&p, 6);
    let a = p.placements.iter().find(|x| x.device_id == "phoneA").unwrap();
    assert_eq!(a.layer_end - a.layer_start, 4);
    assert_eq!(a.compute_reserve_bytes, WORKER_COMPUTE_RESERVE_BYTES);
    let b = p.placements.iter().find(|x| x.device_id == "phoneB").unwrap();
    assert_eq!(b.role, Role::Worker, "the layer the reserve displaced must land somewhere, not vanish");
    assert_eq!(b.layer_end - b.layer_start, 1);
}

#[test]
fn single_device_needs_the_host_reserve_too() {
    let mut m = model(6, 100, 50);
    m.kv_bytes_per_token = 0;
    let r = plan(&m, &[dev("local", 0.85, true, 0.0)], 1, &Policy::default());
    assert!(
        !matches!(r, Ok(ref p) if p.mode == Mode::Single),
        "0.85 GB must not host 0.65 GB + 300 MB reserve as a single device: {r:?}"
    );
    let p = plan(&m, &[dev("local", 0.96, true, 0.0)], 1, &Policy::default()).unwrap();
    assert_eq!(p.mode, Mode::Single);
    assert_eq!(p.total_needed_bytes, 650_000_000 + HOST_COMPUTE_RESERVE_BYTES);
}

#[test]
fn projector_is_budgeted_on_the_host() {
    let mut m = model(6, 100, 50);
    m.kv_bytes_per_token = 0;
    let pol = Policy { host_extra_bytes: 400_000_000, ..Policy::default() };
    let p = plan(&m, &[dev("local", 1.0, true, 0.0)], 1, &Policy::default()).unwrap();
    assert_eq!(p.mode, Mode::Single);
    let r = plan(&m, &[dev("local", 1.0, true, 0.0)], 1, &pol);
    assert!(!matches!(r, Ok(ref p) if p.mode == Mode::Single), "{r:?}");
    let p = plan(&m, &[dev("local", 1.0, true, 0.0), dev("w", 0.6, false, 1.0)], 1, &pol).unwrap();
    assert_eq!(p.mode, Mode::LayerSplit);
    let host = p.placements.iter().find(|x| x.role == Role::Host).unwrap();
    assert!(host.bytes >= 450_000_000, "host bytes include the projector: {}", host.bytes);
    assert!(host.bytes + host.compute_reserve_bytes <= 1_000_000_000);
    assert!(host.reason.contains("projector"), "{}", host.reason);
}

#[test]
fn fragmentation_adds_the_next_device_instead_of_failing() {
    let mut m = model(12, 100, 50);
    m.kv_bytes_per_token = 0;
    let p = plan(
        &m,
        &[
            dev("local", 0.69, true, 0.0),
            dev("a", 0.59, false, 1.0),
            dev("b", 0.59, false, 1.0),
            dev("c", 0.30, false, 1.0),
        ],
        1,
        &Policy::default(),
    )
    .unwrap();
    contiguous(&p, 12);
    assert_eq!(used(&p).len(), 4);
}

#[test]
fn tight_pool_still_fits_thanks_to_greedy_fill() {
    let mut m = model(12, 100, 50);
    m.kv_bytes_per_token = 0;
    let p = plan(
        &m,
        &[dev("local", 0.65, true, 0.0), dev("a", 0.55, false, 1.0), dev("b", 0.65, false, 1.0)],
        1,
        &Policy::default(),
    )
    .unwrap();
    contiguous(&p, 12);
    let counts: Vec<u32> = used(&p).iter().map(|u| u.layer_end - u.layer_start).collect();
    assert_eq!(counts, vec![3, 5, 4]);
}

// ---- own tests ----

#[test]
fn no_eligible_device_is_refused() {
    let m = model(4, 100, 50);
    let e = plan(&m, &[], 4096, &Policy::default()).unwrap_err();
    assert!(matches!(e, PlanError::NoDevices));
    let mut hot = dev("hot", 8.0, true, 0.0);
    hot.thermal_headroom_ppm = 990_000;
    let e = plan(&m, &[hot], 4096, &Policy::default()).unwrap_err();
    assert!(matches!(e, PlanError::NoDevices));
}

#[test]
fn rejection_reasons_name_the_rule() {
    let m = model(4, 100, 50);
    let mut hot = dev("hot", 8.0, false, 1.0);
    hot.thermal_headroom_ppm = 990_000;
    let mut flat = dev("flat", 8.0, false, 1.0);
    flat.charging = false;
    flat.battery_milli_pct = 10_000;
    let far = dev("far", 8.0, false, 250.0);
    let tiny = dev("tiny", 0.01, false, 1.0);
    let p = plan(&m, &[dev("local", 12.0, true, 0.0), hot, flat, far, tiny], 4096, &Policy::default()).unwrap();
    let reason = |id: &str| p.placements.iter().find(|x| x.device_id == id).unwrap().reason.clone();
    assert_eq!(reason("hot"), "rejected: thermal headroom 0.99 (throttling)");
    assert_eq!(reason("flat"), "rejected: battery 10% < 20% floor and not charging");
    assert_eq!(reason("far"), "rejected: RTT p95 250 ms > 60 ms limit");
    assert!(reason("tiny").starts_with("rejected: 0.0 GB usable < one layer ("), "{}", reason("tiny"));
}

#[test]
fn host_too_small_reports_the_fixed_need() {
    let m = model(40, 100, 900);
    let e = plan(&m, &[dev("local", 1.1, true, 0.0), dev("phone", 3.0, false, 1.0)], 1, &Policy::default()).unwrap_err();
    match e {
        PlanError::HostTooSmall { host, usable, fixed } => {
            assert_eq!(host, "local");
            assert_eq!(usable, 1_100_000_000);
            assert_eq!(fixed, 900_000_000 + HOST_COMPUTE_RESERVE_BYTES);
        }
        other => panic!("expected HostTooSmall, got {other:?}"),
    }
}

#[test]
fn single_plan_texts_and_totals() {
    let mut m = model(6, 100, 50);
    m.kv_bytes_per_token = 0;
    let p = plan(&m, &[dev("local", 2.0, true, 0.0), dev("phone", 3.0, false, 1.0)], 1, &Policy::default()).unwrap();
    assert_eq!(p.mode, Mode::Single);
    assert_eq!(p.host_id, "local");
    assert_eq!(p.summary, "test-model runs entirely on local (1.0 GB of 2.0 GB usable, incl. 300 MB compute reserve (estimate))");
    assert_eq!(p.total_usable_bytes, 2_000_000_000);
    let phone = p.placements.iter().find(|x| x.device_id == "phone").unwrap();
    assert_eq!(phone.reason, "not needed: model fits on the host; adding a device would only add latency");
    assert!(p.placements[0].reason.starts_with("fits on one device: needs 0.7 GB (weights 0.7 GB + KV 0.0 GB @ 1 ctx)"));
}

#[test]
fn bounds_check_accepts_ordinary_inputs_and_refuses_overflow() {
    let m = model(24, 100, 300);
    let ds = vec![dev("a", 8.0, true, 1.0), dev("b", 4.0, false, 5.0)];
    assert!(plan_in_bounds(&m, &ds, 4096, &Policy::default()));
    let mut short = model(24, 100, 300);
    short.layer_bytes.pop();
    assert!(!plan_in_bounds(&short, &ds, 4096, &Policy::default()));
    let mut big = dev("c", 1.0, false, 5.0);
    big.usable_bytes = u64::MAX / 2 + 1;
    let mut big2 = big.clone();
    big2.device_id = "d".into();
    assert!(!plan_in_bounds(&m, &[big, big2], 4096, &Policy::default()));
    let mut heavy = model(2, 1, 1);
    heavy.layer_bytes = vec![u64::MAX / 2 + 1, u64::MAX / 2 + 1];
    assert!(!plan_in_bounds(&heavy, &ds, 4096, &Policy::default()));
}

#[test]
fn error_messages_say_what_went_wrong() {
    assert_eq!(PlanError::NoDevices.message(), "no eligible devices");
    assert_eq!(
        PlanError::DoesNotFit { needed: 5, available: 3 }.message(),
        "model needs 5 bytes (weights + KV + compute reserves, the reserves are estimates) but eligible devices pool only 3 bytes — add a device, close apps, or use a smaller quant/context"
    );
    assert_eq!(
        PlanError::HostTooSmall { host: "h".into(), usable: 1, fixed: 2 }.message(),
        "host h can hold only 1 bytes but the embeddings/output tensors plus the compute reserve alone need 2 bytes — pick a host with more free memory"
    );
    assert_eq!(
        PlanError::HostNotEligible { host: "p".into(), reason: "busy".into() }.message(),
        "requested host p is not eligible: busy"
    );
    assert_eq!(
        PlanError::NoHost.message(),
        "no eligible device can act as host (a compute-only worker cannot run the model)"
    );
}
