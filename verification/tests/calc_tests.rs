use meshcore::calc::{kv_bytes_at, perf_rows};
use meshcore::calc::{
    capacity_verdict, decide, fix_hints, impossible_reason, judge_model, max_layers, model_title, placement_verdict,
    single_device_gap, synth_model_info,
};
use meshcore::gguf::ModelInfo;
use meshcore::planner::{DeviceCap, Mode, PlanError, Placement, Policy, Role};

fn model(n_layer: u32, layer_mb: u64, non_layer_mb: u64) -> ModelInfo {
    ModelInfo {
        path: "x".into(),
        file_bytes: 0,
        version: 3,
        arch: "test".into(),
        name: "test-model".into(),
        quant_label: "Q4".into(),
        n_layer,
        n_embd: 2048,
        n_head: 16,
        n_head_kv: 4,
        n_ctx_train: 32768,
        n_expert: 0,
        n_expert_used: 0,
        non_layer_bytes: non_layer_mb * 1_000_000,
        layer_bytes: vec![layer_mb * 1_000_000; n_layer as usize],
        kv_bytes_per_token: 48 * 2 * 4 * 128 * 2,
        tensor_count: 0,
    }
}

fn dev(id: &str, gb: f64, local: bool) -> DeviceCap {
    DeviceCap {
        device_id: id.into(),
        name: id.into(),
        usable_bytes: (gb * 1e9) as u64,
        bench_milli_tps: 0,
        rtt_us_p95: 1_000,
        thermal_headroom_ppm: 400_000,
        battery_milli_pct: 80_000,
        charging: true,
        is_local: local,
        supported: true,
        can_host: true,
    }
}

#[test]
fn fits_one_device_is_easy() {
    let m = model(28, 20, 300);
    let d = decide(&[dev("local", 12.0, true)], &m, &Policy::default(), 4096, None);
    assert_eq!(d.category, "easy");
    assert_eq!(d.devices_used, 1);
    assert!(d.needs.is_empty());
    assert_eq!(d.plan.unwrap().mode, Mode::Single);
}

#[test]
fn fits_only_split_is_hard_with_a_free_memory_need() {
    let m = model(48, 380, 500);
    let d = decide(&[dev("local", 12.0, true), dev("phoneA", 8.5, false)], &m, &Policy::default(), 8192, None);
    assert_eq!(d.category, "hard");
    assert_eq!(d.devices_used, 2);
    assert!(d.reason.contains("split across 2 devices"), "{}", d.reason);
    assert_eq!(d.needs.len(), 1);
    assert_eq!(d.needs[0].what, "free_memory");
    assert!(d.needs[0].device_id.is_some());
}

#[test]
fn fits_only_at_2k_is_hard_with_a_context_need() {
    let m = model(12, 10, 50);
    let d = decide(&[dev("local", 1.0, true)], &m, &Policy::default(), 8192, None);
    assert_eq!(d.category, "hard");
    assert_eq!(d.needs.len(), 1);
    assert_eq!(d.needs[0].what, "context");
    assert!(d.reason.contains("2,048"), "{}", d.reason);
}

#[test]
fn does_not_fit_even_pooled_at_2k_is_impossible() {
    let m = model(48, 380, 500);
    let d = decide(&[dev("local", 2.0, true)], &m, &Policy::default(), 4096, None);
    assert_eq!(d.category, "impossible");
    assert_eq!(d.devices_used, 0);
    assert!(d.plan.is_none());
    assert!(d.reason.contains("short"), "{}", d.reason);
}

#[test]
fn no_devices_online_is_impossible_with_no_need() {
    let m = model(4, 100, 50);
    let d = decide(&[], &m, &Policy::default(), 4096, None);
    assert_eq!(d.category, "impossible");
    assert!(d.reason.contains("no eligible device"), "{}", d.reason);
}

#[test]
fn estimate_note_is_appended_to_the_reason() {
    let m = model(28, 20, 300);
    let d = decide(&[dev("local", 12.0, true)], &m, &Policy::default(), 4096, Some("estimated from the catalog"));
    assert_eq!(d.category, "easy");
    assert!(d.reason.contains("estimated from the catalog"), "{}", d.reason);
}

#[test]
fn synth_model_info_splits_bytes_evenly_and_leaves_kv_unknown() {
    let m = synth_model_info("x.gguf", "X", 1_000_000_000, 10);
    assert_eq!(m.n_layer, 10);
    assert_eq!(m.layer_bytes.len(), 10);
    assert_eq!(m.layer_bytes[0], 100_000_000);
    assert_eq!(m.kv_bytes(4096), 0);
}

// ---- own tests ----

#[test]
fn impossible_reasons_are_exact() {
    let (r, n) = impossible_reason(&PlanError::DoesNotFit { needed: 3_000_000_000, available: 1_250_000_000 }, 2048);
    assert_eq!(
        r,
        "needs 3.00 GB pooled (weights + KV + compute reserves at 2048 tokens of context) but the online devices pool only 1.25 GB — short 1.75 GB"
    );
    let n = n.unwrap();
    assert_eq!(n.what, "device");
    assert_eq!(n.bytes, Some(1_750_000_000));
    let (r, n) = impossible_reason(
        &PlanError::HostTooSmall { host: "laptop".into(), usable: 500_000_000, fixed: 800_000_000 },
        4096,
    );
    assert!(r.starts_with("host laptop holds 0.50 GB but"), "{r}");
    assert_eq!(n.unwrap().detail, "free at least 300 MB on laptop");
    let (r, n) = impossible_reason(&PlanError::NoDevices, 4096);
    assert_eq!(r, "no eligible device is online right now");
    assert!(n.is_none());
    let (_, n) = impossible_reason(&PlanError::NoHost, 4096);
    assert_eq!(n.unwrap().what, "device");
    let (r, _) = impossible_reason(&PlanError::HostNotEligible { host: "p".into(), reason: "why".into() }, 4096);
    assert_eq!(r, "requested host p is not eligible: why");
}

#[test]
fn hints_follow_the_words_of_the_refusal() {
    assert_eq!(fix_hints("needs 3 GB POOLED").len(), 4);
    assert_eq!(fix_hints("rejected: RTT p95 250 ms"), vec!["Use a cable, USB tethering or a hotspot instead of shared Wi-Fi.".to_string()]);
    assert_eq!(fix_hints("battery 10%"), vec!["Plug the phone in.".to_string()]);
    assert_eq!(fix_hints("something else"), vec!["Open the Details drawer for the raw reason.".to_string()]);
}

#[test]
fn single_device_gap_names_the_biggest_host() {
    let m = model(48, 380, 500);
    let caps = [dev("a", 8.0, false), dev("b", 12.0, true), dev("c", 12.0, false)];
    let g = single_device_gap(&caps, &m, 0, 4096).unwrap();
    assert_eq!(g.what, "free_memory");
    assert_eq!(g.device_id.as_deref(), Some("c"));
    let need = 48 * 380_000_000u64 + 500_000_000 + 4096 * (48 * 2 * 4 * 128 * 2) + 300_000_000;
    assert_eq!(g.bytes, Some(need - 12_000_000_000));
    assert!(single_device_gap(&[dev("big", 40.0, true)], &m, 0, 4096).is_none());
}

#[test]
fn max_layers_counts_whole_blocks_after_the_reserve() {
    assert_eq!(max_layers(1_150_000_000, 100_000_000, 48), 10);
    assert_eq!(max_layers(100_000_000, 100_000_000, 48), 0);
    assert_eq!(max_layers(50_000_000_000, 100_000_000, 48), 48);
    assert_eq!(max_layers(5, 0, 48), 0);
}

#[test]
fn verdicts_describe_each_device() {
    let p = Placement {
        device_id: "w".into(),
        name: "w".into(),
        role: Role::Worker,
        layer_start: 10,
        layer_end: 20,
        bytes: 0,
        split_weight_num: 0,
        split_weight_den: 1,
        compute_reserve_bytes: 0,
        reason: String::new(),
    };
    assert_eq!(placement_verdict(&p, 3, 48), ("used", "helper: layers 10–19 (10 layers)".to_string()));
    let q = Placement { role: Role::Rejected, reason: "not needed: whatever".into(), ..p };
    assert_eq!(placement_verdict(&q, 3, 48), ("capable_not_needed", "could hold up to 3 of 48 layers; not needed".to_string()));
    assert_eq!(capacity_verdict(0, 48), ("not_capable", "cannot hold even one layer right now".to_string()));
}

#[test]
fn catalog_models_are_judged_on_their_figures_and_companions_never_run() {
    let caps = vec![dev("laptop", 16.0, true)];
    let pol = Policy::default();
    let c = judge_model(&caps, None, "mmproj.gguf", "projector", 800_000_000, 0, 4096, &pol);
    assert_eq!(c.category, "impossible");
    assert!(c.reason.starts_with("not a standalone model"));
    assert!(c.plan.is_none() && c.needs.is_empty());

    let d = judge_model(&caps, None, "small.gguf", "Small", 1_234_567_890, 28, 4096, &pol);
    assert_eq!(d.category, "easy");
    assert!(d.reason.ends_with("(the real need will be higher once it is on disk)"), "{}", d.reason);
    assert_eq!(d.needs.len(), 1);
    assert_eq!(d.needs[0].what, "download");
    assert_eq!(d.needs[0].detail, "download small.gguf (1.23 GB)");
    assert_eq!(d.needs[0].bytes, Some(1_234_567_890));

    let m = model(24, 100, 300);
    let on_disk = judge_model(&caps, Some(&m), "m.gguf", "m", 0, 0, 4096, &pol);
    let direct = decide(&caps, &m, &pol, 4096, None);
    assert_eq!(on_disk.category, direct.category);
    assert_eq!(on_disk.reason, direct.reason);
    assert!(on_disk.needs.is_empty());
}

#[test]
fn blank_model_names_fall_back_to_the_file() {
    assert_eq!(model_title("Qwen3 8B", "q.gguf"), "Qwen3 8B");
    assert_eq!(model_title("  \t", "q.gguf"), "q.gguf");
    assert_eq!(model_title("", "q.gguf"), "q.gguf");
}

fn run(ok: bool, mode: &str, host: &str, model: &str, tokens_out: u32, has_speed: bool) -> meshcore::calc::RunFacts {
    meshcore::calc::RunFacts { ok, mode: mode.into(), host: host.into(), model: model.into(), tokens_out, has_speed }
}

#[test]
fn speed_is_read_from_recent_telling_runs() {
    let rows = vec![
        run(true, "Single", "p", "a.gguf", 20, true),  // 0
        run(false, "Single", "p", "a.gguf", 20, true), // 1 failed
        run(true, "LayerSplit", "p", "a.gguf", 20, true), // 2 split
        run(true, "Single", "q", "a.gguf", 20, true),  // 3 other host
        run(true, "Single", "p", "b.gguf", 7, true),   // 4 too short
        run(true, "Single", "p", "b.gguf", 8, false),  // 5 no rate
        run(true, "Single", "p", "b.gguf", 8, true),   // 6
    ];
    // Newest first; the requested model's runs when there are any.
    assert_eq!(perf_rows(&rows, "p", "c.gguf"), vec![6, 0]);
    assert_eq!(perf_rows(&rows, "p", "a.gguf"), vec![0]);
    assert_eq!(perf_rows(&rows, "q", "b.gguf"), vec![3]);
    assert_eq!(perf_rows(&rows, "z", "a.gguf"), Vec::<usize>::new());
    // At most 12 runs are looked at.
    let many: Vec<_> = (0..20).map(|_| run(true, "Single", "p", "a.gguf", 10, true)).collect();
    assert_eq!(perf_rows(&many, "p", "x"), (8..20).rev().collect::<Vec<usize>>());
}

#[test]
fn the_cache_position_is_the_prompt_and_half_the_answer() {
    assert_eq!(kv_bytes_at(100, 51, 1_000), Some(125_000));
    assert_eq!(kv_bytes_at(32, 0, 7), Some(224));
    assert_eq!(kv_bytes_at(u32::MAX, 0, u64::MAX), None);
}
