use meshcore::calc::{config_totals_fit, whole_stack};
use meshcore::gguf::{layer_index, Gguf, KvMap, ModelInfo, TensorInfo};
use meshcore::calc::{first_not_needed, layer_need, not_chosen_split, run_verdict};
use meshcore::layers::{layer_config, summary, Rule, UnitKind};
use meshcore::planner::{Mode, Placement, Plan, Role};

fn t(name: &str, dims: &[u64], bytes: u64) -> TensorInfo {
    TensorInfo { name: name.into(), dims: dims.to_vec(), ggml_type: 0, offset: 0, bytes }
}

fn fake(n_layer: u32, tied: bool, moe: bool) -> Gguf {
    let mut tensors = vec![t("token_embd.weight", &[64, 1000], 64_000)];
    for i in 0..n_layer {
        tensors.push(t(&format!("blk.{i}.attn_norm.weight"), &[64], 64));
        tensors.push(t(&format!("blk.{i}.attn_q.weight"), &[64, 64], 4_096));
        tensors.push(t(&format!("blk.{i}.attn_output.weight"), &[64, 64], 4_096));
        if moe {
            tensors.push(t(&format!("blk.{i}.ffn_gate_inp.weight"), &[64, 4], 256));
            tensors.push(t(&format!("blk.{i}.ffn_up_exps.weight"), &[64, 128, 4], 32_768));
            tensors.push(t(&format!("blk.{i}.ffn_down_exps.weight"), &[128, 64, 4], 32_768));
        } else {
            tensors.push(t(&format!("blk.{i}.ffn_up.weight"), &[64, 128], 8_192));
            tensors.push(t(&format!("blk.{i}.ffn_down.weight"), &[128, 64], 8_192));
        }
    }
    tensors.push(t("output_norm.weight", &[64], 64));
    if !tied {
        tensors.push(t("output.weight", &[64, 1000], 64_000));
    }
    let non_layer: u64 = tensors.iter().filter(|x| layer_index(&x.name).is_none()).map(|x| x.bytes).sum();
    let mut layer_bytes = vec![0u64; n_layer as usize];
    for x in &tensors {
        if let Some(i) = layer_index(&x.name) {
            layer_bytes[i as usize] += x.bytes;
        }
    }
    Gguf {
        info: ModelInfo {
            path: "/models/fake.gguf".into(),
            file_bytes: tensors.iter().map(|x| x.bytes).sum(),
            version: 3,
            arch: "test".into(),
            name: "fake".into(),
            quant_label: "Q8_0".into(),
            n_layer,
            n_embd: 64,
            n_head: 4,
            n_head_kv: 2,
            n_ctx_train: 4096,
            n_expert: if moe { 4 } else { 0 },
            n_expert_used: if moe { 1 } else { 0 },
            non_layer_bytes: non_layer,
            layer_bytes,
            kv_bytes_per_token: n_layer as u64 * 2 * (16 + 16) * 2,
            tensor_count: tensors.len() as u64,
        },
        kv: KvMap::new(),
        tensors,
    }
}

#[test]
fn units_cover_every_byte_of_the_file() {
    let g = fake(4, false, false);
    let c = layer_config(&g);
    assert_eq!(c.total_bytes(), g.info.file_bytes);
    assert_eq!(c.blocks().len(), 4);
    assert_eq!(c.host_fixed_bytes(), 64_000 + 64 + 64_000);
    assert!(!c.shape.tied_embeddings);
    assert_eq!(c.shape.n_vocab, 1000);
    let b0 = c.blocks()[0];
    assert_eq!(b0.attn_bytes, 64 + 4_096 + 4_096);
    assert_eq!(b0.ffn_bytes, 8_192 * 2);
    assert_eq!(b0.read_bytes_per_token, b0.bytes);
    assert_eq!(b0.flops_per_token, 2 * (4096 + 4096 + 8192 + 8192));
    assert_eq!(b0.kv_bytes_per_token, 2 * 32 * 2);
    assert_eq!(b0.rule, Rule::MustStayTogether);
    assert_eq!(c.units.first().unwrap().rule, Rule::PinnedToHost);
    assert_eq!(c.units.last().unwrap().kind, UnitKind::Output);
}

#[test]
fn tied_embeddings_are_counted_once_but_the_head_still_costs_flops() {
    let c = layer_config(&fake(2, true, false));
    assert!(c.shape.tied_embeddings);
    let head = c.units.iter().find(|u| u.kind == UnitKind::Output).unwrap();
    assert_eq!(head.bytes, 64);
    assert_eq!(head.flops_per_token, 2 * 64 * 1000);
    assert!(c.warnings.iter().any(|w| w.contains("tied")));
}

#[test]
fn moe_reads_only_the_active_experts() {
    let c = layer_config(&fake(2, false, true));
    let b = c.blocks()[0];
    assert_eq!(b.expert_bytes, 32_768 * 2);
    assert_eq!(b.router_bytes, 256);
    let dense = 64 + 4_096 + 4_096 + 256;
    assert_eq!(b.read_bytes_per_token, dense + 32_768 * 2 / 4);
    assert_eq!(b.source, "engine");
    let (bytes, read, _, _) = c.stack(0, 2);
    assert_eq!(bytes, 2 * b.bytes);
    assert_eq!(read, 2 * b.read_bytes_per_token);
}

// ---- own tests ----

#[test]
fn layer_config_names_units_and_file() {
    let c = layer_config(&fake(3, false, false));
    assert_eq!(c.model, "fake.gguf");
    let ids: Vec<&str> = c.units.iter().map(|u| u.id.as_str()).collect();
    assert_eq!(ids, vec!["embd", "blk.0", "blk.1", "blk.2", "head"]);
    assert_eq!(c.activation_bytes, 256);
    assert_eq!(c.constraints.len(), 6);
    assert_eq!(c.constraints[0].rule, "MUST_STAY_TOGETHER");
    assert!(c.shape.sliding_window.is_none());
}

#[test]
fn stray_tensors_warn_and_land_on_the_host() {
    let mut g = fake(2, false, false);
    g.tensors.push(t("blk.7.attn_q.weight", &[4, 4], 32));
    g.tensors.push(t("rope_freqs.weight", &[8], 16));
    let c = layer_config(&g);
    let other = c.units.iter().find(|u| u.kind == UnitKind::Other).unwrap();
    assert_eq!(other.bytes, 48);
    assert_eq!(other.tensors, 2);
    assert!(c.warnings.iter().any(|w| w == "tensor blk.7.attn_q.weight names a block beyond n_layer"));
    assert!(c.warnings.iter().any(|w| w == "48 bytes in 2 tensors outside blocks/embedding/head are counted on the host"));
}

#[test]
fn summary_lists_units_blocks_and_host() {
    let c = layer_config(&fake(2, false, false));
    let s = summary(&c);
    let lines: Vec<&str> = s.lines().collect();
    assert_eq!(lines[0], "fake.gguf · Q8_0 · 2 layers · n_embd 64 · 0 experts (0 used) · tied false · 0.00 GB");
    assert_eq!(lines[1], "  embd        0.1 MB  PinnedToHost  (engine)");
    assert_eq!(lines[2], "  head        0.1 MB  PinnedToHost  (policy)");
    assert!(lines[3].starts_with("  blocks      0.0 MB total · 0.0 MB per block"), "{}", lines[3]);
    assert!(lines[3].ends_with(" · 128 B KV/token/block"), "{}", lines[3]);
    assert_eq!(lines[4], "  host fixed 0.1 MB · activation/token 256 B · KV/token all layers 256 B");
}

fn placed(id: &str, name: &str, role: Role, a: u32, b: u32, reason: &str) -> Placement {
    Placement {
        device_id: id.into(),
        name: name.into(),
        role,
        layer_start: a,
        layer_end: b,
        bytes: 0,
        split_weight_num: 0,
        split_weight_den: 1,
        compute_reserve_bytes: 0,
        reason: reason.into(),
    }
}

fn plan_of(mode: Mode, placements: Vec<Placement>) -> Plan {
    Plan {
        model: "fake.gguf".into(),
        mode,
        n_ctx: 4096,
        host_id: "local".into(),
        placements,
        summary: String::new(),
        total_needed_bytes: 0,
        total_usable_bytes: 0,
    }
}

#[test]
fn the_unchosen_split_is_costed_with_its_label() {
    let cfg = layer_config(&fake(4, false, false));
    let p = plan_of(
        Mode::Single,
        vec![
            placed("local", "laptop", Role::Host, 0, 4, "fits on one device"),
            placed("phone", "phone", Role::Rejected, 0, 0, "not needed: model fits on the host"),
        ],
    );
    assert_eq!(first_not_needed(&p), Some(1));
    assert_eq!(run_verdict(Some(&p), ""), ("can_run_single", "Can run on laptop alone.".to_string()));
    let (label, stacks) = not_chosen_split(&p, &cfg, 1, 1).expect("the phone could hold one block");
    assert_eq!(label, "laptop 0–2 + phone 3–3 (not chosen)");
    assert_eq!(stacks.len(), 2);
    assert_eq!((stacks[0].device_id.as_str(), stacks[0].is_host, stacks[0].layer_start, stacks[0].layer_end), ("local", true, 0, 3));
    assert_eq!(stacks[0].weight_bytes, 3 * 24_640 + 128_064);
    assert_eq!((stacks[1].device_id.as_str(), stacks[1].is_host, stacks[1].layer_start, stacks[1].layer_end), ("phone", false, 3, 4));
    assert_eq!(stacks[1].weight_bytes, 24_640);
    assert!(not_chosen_split(&p, &cfg, 1, 0).is_none());
    assert!(not_chosen_split(&p, &cfg, 1, 4).is_none());

    let split = plan_of(
        Mode::LayerSplit,
        vec![placed("local", "laptop", Role::Host, 0, 2, "host"), placed("phone", "phone", Role::Worker, 2, 4, "worker")],
    );
    assert_eq!(first_not_needed(&split), None);
    assert_eq!(run_verdict(Some(&split), ""), ("can_run_split", "Can run split across 2 devices.".to_string()));
    assert_eq!(run_verdict(None, "no eligible devices"), ("cannot_run", "Cannot run: no eligible devices".to_string()));
}

#[test]
fn one_block_needs_its_weights_and_its_kv() {
    let cfg = layer_config(&fake(4, false, false));
    // 4 blocks of 24,640 bytes; 4 × 2 × (16 + 16) × 2 = 512 KV bytes per token over 4 blocks.
    assert_eq!(layer_need(&cfg, 1000), (24_640, 24_640 + 128 * 1000));
    assert_eq!(layer_need(&cfg, 0), (24_640, 24_640));
    let none = layer_config(&fake(0, false, false));
    assert_eq!(layer_need(&none, 1000), (0, 0));
}

#[test]
fn totals_are_checked_before_whole_stacks() {
    let cfg = layer_config(&fake(4, false, false));
    assert!(config_totals_fit(&cfg));
    let s = whole_stack(&cfg, "local");
    assert_eq!(s.weight_bytes, 4 * 24_640 + 128_064);
    let mut huge = layer_config(&fake(4, false, false));
    huge.units[0].bytes = u64::MAX;
    assert!(!config_totals_fit(&huge));
}
