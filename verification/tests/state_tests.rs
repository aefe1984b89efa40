use sha2::Digest;
use meshcore::gguf::ModelInfo;
use meshcore::planner::{plan, DeviceCap, Mode, Placement, Plan, Policy, Role};
use meshcore::state::{
    credit_of, credited_caps, device_role, mesh_id_for, precheck_run, push_capped, usable_of, HostFacts, parse_rss_anon, role_text, rss_anon_fits, short_id, DeviceState, HEADROOM_BYTES,
};

const NOW: u64 = 1_000_000;

/// A remote device with `avail` bytes available (or a manual override), sampled now.
fn remote(id: &str, avail: u64, online: bool, override_bytes: Option<u64>) -> DeviceState {
    DeviceState {
        cap: DeviceCap {
            device_id: id.into(),
            name: id.into(),
            usable_bytes: override_bytes.unwrap_or(avail.saturating_sub(HEADROOM_BYTES)),
            bench_milli_tps: 0,
            rtt_us_p95: 0,
            thermal_headroom_ppm: 0,
            battery_milli_pct: 100_000,
            charging: true,
            is_local: false,
            supported: true,
            can_host: true,
        },
        online,
        overridden: override_bytes.is_some(),
        telemetry_ms: NOW,
        held_bytes: 0,
    }
}

fn set_held(d: &mut DeviceState, held: u64, sampled_ms: u64) {
    d.held_bytes = held;
    d.telemetry_ms = sampled_ms;
}

fn placement(id: &str, bytes: u64, role: Role) -> Placement {
    Placement {
        device_id: id.into(),
        name: id.into(),
        role,
        layer_start: 0,
        layer_end: 0,
        bytes,
        split_weight_num: 0,
        split_weight_den: 1,
        compute_reserve_bytes: 0,
        reason: String::new(),
    }
}

/// A live run of `placements` with `status`: the plan, whether it is ready and since when.
fn live_run(placements: Vec<Placement>, status: &str) -> (Plan, bool, u64) {
    let plan = Plan {
        model: "m.gguf".into(),
        mode: Mode::LayerSplit,
        n_ctx: 2048,
        host_id: "phone".into(),
        placements,
        summary: String::new(),
        total_needed_bytes: 0,
        total_usable_bytes: 0,
    };
    let ready = status == "ready";
    (plan, ready, if ready { NOW - 1 } else { u64::MAX })
}

fn usable(caps: &[DeviceCap], id: &str) -> Option<u64> {
    caps.iter().find(|c| c.device_id == id).map(|c| c.usable_bytes)
}

#[test]
fn a_loading_run_earns_no_credit() {
    let mut phone = remote("phone", 3_000_000_000, true, None);
    let (p, ready, ready_ms) = live_run(vec![placement("phone", 2_000_000_000, Role::Worker)], "loading");
    set_held(&mut phone, 1_000_000_000, NOW);
    assert!(credited_caps(&[phone], Some(&p), ready, ready_ms).1.is_empty());
}

#[test]
fn credit_is_the_held_bytes_capped_at_the_placement() {
    let mut phone = remote("phone", 3_000_000_000, true, None);
    let (p, ready, ready_ms) = live_run(vec![placement("phone", 2_000_000_000, Role::Worker)], "ready");
    set_held(&mut phone, 1_500_000_000, NOW);
    let base = 3_000_000_000u64.saturating_sub(HEADROOM_BYTES);
    let (caps, credits) = credited_caps(&[phone.clone()], Some(&p), ready, ready_ms);
    assert_eq!(usable(&caps, "phone"), Some(base + 1_500_000_000));
    assert_eq!(credits, vec![("phone".to_string(), 1_500_000_000)]);
    set_held(&mut phone, 2_500_000_000, NOW);
    assert_eq!(credited_caps(&[phone], Some(&p), ready, ready_ms).1, vec![("phone".to_string(), 2_000_000_000)]);
}

#[test]
fn unrelated_memory_pressure_is_never_credited() {
    // avail dropped by 2 GB (another app), the run's process holds 0.3 GB: credit is 0.3 GB.
    let mut phone = remote("phone", 1_000_000_000, true, None);
    let (p, ready, ready_ms) = live_run(vec![placement("phone", 2_000_000_000, Role::Worker)], "ready");
    set_held(&mut phone, 300_000_000, NOW);
    assert_eq!(credited_caps(&[phone], Some(&p), ready, ready_ms).1, vec![("phone".to_string(), 300_000_000)]);
}

#[test]
fn stale_telemetry_override_offline_and_rejected_earn_nothing() {
    let mut stale = remote("stale", 3_000_000_000, true, None);
    let mut capped = remote("capped", 3_000_000_000, true, Some(500_000_000));
    let offline = remote("offline", 3_000_000_000, false, None);
    let mut bystander = remote("bystander", 3_000_000_000, true, None);
    let (p, ready, ready_ms) = live_run(
        vec![
            placement("stale", 2_000_000_000, Role::Worker),
            placement("capped", 400_000_000, Role::Worker),
            placement("offline", 1_000_000_000, Role::Worker),
            placement("bystander", 700_000_000, Role::Rejected),
        ],
        "ready",
    );
    set_held(&mut stale, 1_000_000_000, ready_ms - 10); // sampled before the run was ready
    set_held(&mut capped, 1_000_000_000, NOW);
    set_held(&mut bystander, 1_000_000_000, NOW);
    let devs = vec![stale, capped, offline, bystander];
    let (caps, credits) = credited_caps(&devs, Some(&p), ready, ready_ms);
    assert!(credits.is_empty(), "{:?}", credits);
    assert_eq!(usable(&caps, "capped"), Some(500_000_000));
    assert_eq!(usable(&caps, "offline"), None);
}

#[test]
fn no_live_plan_means_no_credit() {
    let mut phone = remote("phone", 3_000_000_000, true, None);
    set_held(&mut phone, 1_000_000_000, NOW);
    assert!(credited_caps(&[phone], None, false, u64::MAX).1.is_empty());
}

/// The rule end to end through the planner: a model that does not fit the measured figures
/// fits once the live run's held memory is credited, and still does not fit if what the run
/// holds is too small.
#[test]
fn credited_plan_turns_does_not_fit_into_ok_only_when_held_memory_covers_it() {
    let mut phone = remote("phone", HEADROOM_BYTES + 2_500_000_000, true, None);
    let info = ModelInfo {
        path: "m.gguf".into(),
        file_bytes: 1_200_000_000,
        version: 3,
        arch: "qwen3".into(),
        name: "test".into(),
        quant_label: "Q8_0".into(),
        n_layer: 12,
        n_embd: 1024,
        n_head: 16,
        n_head_kv: 8,
        n_ctx_train: 32768,
        n_expert: 0,
        n_expert_used: 0,
        non_layer_bytes: 200_000_000,
        layer_bytes: vec![100_000_000; 12],
        kv_bytes_per_token: 4096,
        tensor_count: 0,
    };
    let (p, ready, ready_ms) = live_run(vec![placement("phone", 3_000_000_000, Role::Host)], "ready");
    let n_ctx = 350_000; // ~1.2 GB weights + ~1.4 GB KV = 2.6 GB > 2.5 GB usable
    let pol = Policy::default();
    let measured = credited_caps(&[phone.clone()], None, false, u64::MAX).0;
    assert!(plan(&info, &measured, n_ctx, &pol).is_err(), "must not fit without credit");
    set_held(&mut phone, 3_000_000_000, NOW);
    let (caps, credits) = credited_caps(&[phone.clone()], Some(&p), ready, ready_ms);
    let pl = plan(&info, &caps, n_ctx, &pol).expect("fits once the held 3 GB is credited");
    assert_eq!(pl.mode, Mode::Single);
    assert_eq!(credits, vec![("phone".to_string(), 3_000_000_000)]);
    set_held(&mut phone, 50_000_000, NOW);
    let (caps, _) = credited_caps(&[phone], Some(&p), ready, ready_ms);
    assert!(plan(&info, &caps, n_ctx, &pol).is_err(), "a 0.05 GB credit must not make it fit");
}

#[test]
fn parse_rss_anon_reads_anon_plus_shmem_or_falls_back() {
    let s = "Name:\tllama-server\nVmRSS:\t 900000 kB\nRssAnon:\t 300000 kB\nRssFile:\t 590000 kB\nRssShmem:\t 10000 kB\n";
    assert!(rss_anon_fits(s));
    assert_eq!(parse_rss_anon(s), 310_000 * 1024);
    let old = "VmRSS:\t 900000 kB\nRssFile:\t 590000 kB\n";
    assert_eq!(parse_rss_anon(old), 310_000 * 1024);
    assert_eq!(parse_rss_anon(""), 0);
    assert_eq!(parse_rss_anon("RssAnon: 5 kB"), 5 * 1024);
}

#[test]
fn credit_is_the_smaller_of_placement_and_held() {
    assert_eq!(credit_of(true, 10, false, 20, Some(3_000), 2_000), 2_000);
    assert_eq!(credit_of(true, 10, false, 20, Some(1_000), 2_000), 1_000);
    assert_eq!(credit_of(false, 10, false, 20, Some(1_000), 2_000), 0);
    assert_eq!(credit_of(true, 10, true, 20, Some(1_000), 2_000), 0);
    assert_eq!(credit_of(true, 30, false, 20, Some(1_000), 2_000), 0);
    assert_eq!(credit_of(true, 10, false, 20, None, 2_000), 0);
}

#[test]
fn short_ids_hide_remote_devices() {
    assert_eq!(short_id("local"), "local");
    assert_eq!(short_id("sim-1"), "sim-1");
    let s = short_id("aa09341810e79e0c");
    assert!(s.starts_with("dev-") && s.len() == 10, "{s}");
    assert_ne!(s, "dev-aa0934");
    assert_eq!(s, short_id("aa09341810e79e0c"));
    assert_eq!(role_text(Role::Worker), "worker");
}

#[test]
fn mesh_id_is_the_hashed_host_name() {
    let id = mesh_id_for("laptop");
    assert_eq!(id, format!("mesh-{}", &hex::encode(sha2::Sha256::digest(b"laptop"))[..8]));
    assert_eq!(id.len(), 13);
    assert_ne!(id, mesh_id_for("other"));
}

#[test]
fn usable_memory_is_the_override_or_available_less_headroom() {
    assert_eq!(usable_of(Some(5), Some(10_000_000_000), None), 5);
    assert_eq!(usable_of(None, Some(10_000_000_000), None), 10_000_000_000 - HEADROOM_BYTES);
    assert_eq!(usable_of(None, Some(10_000_000_000), Some(1_000)), 10_000_000_000 - 1_000);
    assert_eq!(usable_of(None, Some(1_000), None), 0);
    assert_eq!(usable_of(None, None, None), 0);
}

#[test]
fn device_roles_follow_the_plan() {
    let (p, _, _) = live_run(
        vec![placement("laptop", 1, Role::Host), placement("phone", 1, Role::Worker), placement("tab", 0, Role::Rejected)],
        "ready",
    );
    assert_eq!(device_role(&p, "laptop"), "host");
    assert_eq!(device_role(&p, "phone"), "worker");
    assert_eq!(device_role(&p, "tab"), "rejected");
    assert_eq!(device_role(&p, "other"), "idle");
}

fn small_model(n_ctx_train: u32) -> ModelInfo {
    ModelInfo {
        path: "m.gguf".into(),
        file_bytes: 1,
        version: 3,
        arch: "qwen3".into(),
        name: "m".into(),
        quant_label: "Q8_0".into(),
        n_layer: 1,
        n_embd: 8,
        n_head: 1,
        n_head_kv: 1,
        n_ctx_train,
        n_expert: 0,
        n_expert_used: 0,
        non_layer_bytes: 1,
        layer_bytes: vec![1],
        kv_bytes_per_token: 1,
        tensor_count: 0,
    }
}

#[test]
fn a_run_request_is_checked_before_the_current_run_stops() {
    let m = small_model(4096);
    assert_eq!(precheck_run("x.gguf", None, 10, None, None, false), Err("model not found: x.gguf".to_string()));
    assert_eq!(precheck_run("m.gguf", Some(&m), 0, None, None, false), Err("n_ctx must be > 0".to_string()));
    assert_eq!(
        precheck_run("m.gguf", Some(&m), 8192, None, None, false),
        Err("n_ctx 8192 exceeds the model's training context 4096 — pick a smaller context".to_string())
    );
    assert_eq!(precheck_run("m.gguf", Some(&small_model(0)), 8192, None, None, false), Ok(()));
    assert_eq!(
        precheck_run("m.gguf", Some(&m), 2048, Some("ghost"), None, false),
        Err("unknown host device: ghost".to_string())
    );
    let phone = HostFacts { is_local: false, online: true };
    assert_eq!(
        precheck_run("m.gguf", Some(&m), 2048, Some("phone"), Some(phone), false),
        Err("a phone can only be the host when meshd runs with --lan --api-token (it fetches the model from this API)".to_string())
    );
    assert_eq!(precheck_run("m.gguf", Some(&m), 2048, Some("phone"), Some(phone), true), Ok(()));
    let gone = HostFacts { is_local: false, online: false };
    assert_eq!(
        precheck_run("m.gguf", Some(&m), 2048, Some("phone"), Some(gone), true),
        Err("host device phone is offline".to_string())
    );
    let laptop = HostFacts { is_local: true, online: false };
    assert_eq!(precheck_run("m.gguf", Some(&m), 2048, Some("local"), Some(laptop), false), Ok(()));
}

#[test]
fn capped_lists_keep_the_newest() {
    let mut v: Vec<u32> = Vec::new();
    for i in 0..5 {
        push_capped(&mut v, i, 3);
    }
    assert_eq!(v, vec![2, 3, 4]);
    push_capped(&mut v, 9, 10);
    assert_eq!(v, vec![2, 3, 4, 9]);
}

#[test]
fn pairing_qr_codes_render_or_refuse() {
    let t = meshcore::state::qr_terminal("hello").expect("a short payload fits");
    assert!(t.contains('█'));
    assert_ne!(t, "hello");
    let svg = meshcore::state::qr_svg("hello").expect("a short payload fits");
    assert!(svg.contains("<svg"));
    let long = "x".repeat(5000);
    assert!(meshcore::state::qr_terminal(&long).is_none());
    assert!(meshcore::state::qr_svg(&long).is_none());
}
