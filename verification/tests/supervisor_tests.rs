use meshcore::supervisor::{begin_run, fail_run, llama_args, set_run_args, set_run_status, starting_run, stop_run, wait_step, worker_addrs};
use meshcore::planner::{Mode, Placement, Plan, Role};
use meshcore::state::DeviceKind;
use meshcore::supervisor::{llama_args_for, plan_args_fit, start_steps};

fn pl(id: &str, role: Role, a: u32, b: u32, num: u64, den: u64) -> Placement {
    Placement {
        device_id: id.into(),
        name: id.into(),
        role,
        layer_start: a,
        layer_end: b,
        bytes: num,
        split_weight_num: num,
        split_weight_den: den,
        compute_reserve_bytes: 0,
        reason: String::new(),
    }
}

fn plan(mode: Mode, placements: Vec<Placement>) -> Plan {
    Plan {
        model: "m.gguf".into(),
        mode,
        n_ctx: 4096,
        host_id: "local".into(),
        placements,
        summary: String::new(),
        total_needed_bytes: 0,
        total_usable_bytes: 0,
    }
}

#[test]
fn split_args_name_the_workers_and_their_share() {
    let p = plan(
        Mode::LayerSplit,
        vec![
            pl("local", Role::Host, 0, 10, 500, 1500),
            pl("a", Role::Worker, 10, 20, 600, 1500),
            pl("b", Role::Worker, 20, 24, 400, 1500),
        ],
    );
    let a = llama_args_for(&p, "/m/m.gguf", "/bin/llama-server", true, vec![("10.0.0.2".into(), 50052), ("10.0.0.3".into(), 50052)]);
    assert_eq!(a.program, "/bin/llama-server");
    assert_eq!(
        a.args,
        vec![
            "-m", "/m/m.gguf", "-c", "4096", "--host", "127.0.0.1", "--port", "8081", "--jinja", "--metrics",
            "--reasoning", "off", "--rpc", "10.0.0.2:50052,10.0.0.3:50052", "-ngl", "14", "--tensor-split",
            "0.4000,0.2667",
        ]
    );
    assert_eq!(a.workers.len(), 2);
}

#[test]
fn single_args_keep_everything_on_the_host() {
    let p = plan(Mode::Single, vec![pl("local", Role::Host, 0, 10, 1, 1)]);
    let a = llama_args_for(&p, "/m/m.gguf", "llama-server", true, vec![]);
    assert_eq!(&a.args[a.args.len() - 2..], &["-ngl".to_string(), "0".to_string()]);
    let one = plan(Mode::LayerSplit, vec![pl("local", Role::Host, 0, 5, 1, 2), pl("a", Role::Worker, 5, 10, 1, 2)]);
    let a = llama_args_for(&one, "x", "y", false, vec![("h".into(), 1)]);
    assert_eq!(&a.args[12..], &["--rpc".to_string(), "h:1".to_string(), "-ngl".to_string(), "5".to_string()]);
}

#[test]
fn args_fit_refuses_reversed_ranges_and_missing_divisors() {
    let ok = plan(Mode::LayerSplit, vec![pl("local", Role::Host, 0, 10, 1, 2), pl("a", Role::Worker, 10, 20, 1, 2)]);
    assert!(plan_args_fit(&ok));
    let reversed = plan(Mode::LayerSplit, vec![pl("local", Role::Host, 0, 10, 1, 2), pl("a", Role::Worker, 20, 10, 1, 2)]);
    assert!(!plan_args_fit(&reversed));
    let no_den = plan(Mode::LayerSplit, vec![pl("local", Role::Host, 0, 10, 1, 2), pl("a", Role::Worker, 10, 20, 1, 0)]);
    assert!(!plan_args_fit(&no_den));
    let huge = plan(Mode::LayerSplit, vec![pl("a", Role::Worker, 10, 20, u64::MAX / 10_000 + 1, 2)]);
    assert!(!plan_args_fit(&huge));
    let many = plan(
        Mode::LayerSplit,
        vec![pl("a", Role::Worker, 0, u32::MAX, 1, 2), pl("b", Role::Worker, 0, 1, 1, 2)],
    );
    assert!(!plan_args_fit(&many));
    // A host placement's numbers do not matter.
    let host_only = plan(Mode::Single, vec![pl("local", Role::Host, 9, 1, 1, 0)]);
    assert!(plan_args_fit(&host_only));
}

#[test]
fn starting_a_plan_sends_it_to_the_others_and_waits_for_real_workers() {
    let p = plan(
        Mode::LayerSplit,
        vec![
            pl("phone", Role::Host, 0, 10, 1, 3),
            pl("local", Role::Worker, 10, 20, 1, 3),
            pl("tablet", Role::Worker, 20, 30, 1, 3),
            pl("sim-phone-1", Role::Worker, 30, 36, 1, 3),
            pl("watch", Role::Rejected, 0, 0, 0, 1),
        ],
    );
    let kinds = [DeviceKind::Phone, DeviceKind::Laptop, DeviceKind::Phone, DeviceKind::Sim, DeviceKind::Phone];
    let s = start_steps(&p, &kinds);
    assert!(s.local_worker);
    assert_eq!(s.recipients, vec!["phone", "tablet", "sim-phone-1"]);
    assert_eq!(s.awaited, vec!["tablet"]);
    let alone = plan(Mode::Single, vec![pl("local", Role::Host, 0, 36, 1, 1)]);
    let s = start_steps(&alone, &[DeviceKind::Laptop]);
    assert!(!s.local_worker);
    assert!(s.recipients.is_empty() && s.awaited.is_empty());
}

fn dev(id: &str, is_local: bool, addr: Option<&str>, port: u16) -> meshcore::supervisor::DeviceAddr {
    meshcore::supervisor::DeviceAddr { id: id.into(), is_local, addr: addr.map(|a| a.to_string()), rpc_port: port }
}

#[test]
fn worker_addresses_come_from_the_devices() {
    let p = plan(
        Mode::LayerSplit,
        vec![
            pl("local", Role::Host, 0, 10, 500, 1500),
            pl("a", Role::Worker, 10, 20, 600, 1500),
            pl("me", Role::Worker, 20, 24, 400, 1500),
        ],
    );
    let ds = vec![dev("local", true, None, 50052), dev("me", true, None, 50052), dev("a", false, Some("10.0.0.7"), 50060)];
    assert_eq!(
        worker_addrs(&p, &ds),
        Some(vec![("10.0.0.7".to_string(), 50060), ("127.0.0.1".to_string(), 50052)])
    );
    assert_eq!(worker_addrs(&p, &ds[..2]), None);
}

#[test]
fn llama_args_look_devices_up_by_id() {
    let p = plan(
        Mode::LayerSplit,
        vec![pl("local", Role::Host, 0, 10, 500, 1000), pl("a", Role::Worker, 10, 24, 500, 1000)],
    );
    let ds = vec![dev("a", false, Some("192.168.1.9"), 50052), dev("local", true, None, 50052)];
    let a = llama_args(&p, &ds, "/m/m.gguf", "llama-server").unwrap();
    assert!(a.host_is_local);
    assert_eq!(a.workers, vec![("192.168.1.9".to_string(), 50052)]);
    let i = a.args.iter().position(|s| s == "--rpc").unwrap();
    assert_eq!(a.args[i + 1], "192.168.1.9:50052");
    assert_eq!(llama_args(&p, &ds[..1], "/m/m.gguf", "llama-server").unwrap_err(), "host device missing");
    assert_eq!(llama_args(&p, &ds[1..], "/m/m.gguf", "llama-server").unwrap_err(), "worker device missing");
}

#[test]
fn a_run_goes_from_starting_through_loading_to_ready() {
    let mut r = starting_run("local", "m.gguf", 1_000);
    assert_eq!(r.status, "starting");
    assert_eq!(r.host_id.as_deref(), Some("local"));
    assert_eq!(r.started_ms, Some(1_000));
    assert!(r.log_tail.is_empty() && r.args.is_empty() && r.error.is_none());
    // Not loading yet: the wait stops at once.
    assert!(!wait_step(&mut r, true, None, false, 1_100, "http://127.0.0.1:8081"));
    assert_eq!(r.status, "starting");
    set_run_status(&mut r, "loading");
    // Nothing yet: wait another round.
    assert!(wait_step(&mut r, false, None, false, 2_000, "http://127.0.0.1:8081"));
    assert_eq!(r.status, "loading");
    assert!(!wait_step(&mut r, true, None, false, 13_460, "http://127.0.0.1:8081"));
    assert_eq!(r.status, "ready");
    assert_eq!(r.ready_ms, Some(13_460));
    assert_eq!(r.endpoint.as_deref(), Some("http://127.0.0.1:8081"));
    assert_eq!(r.log_tail.last().unwrap(), "ready in 12.5s → http://127.0.0.1:8081");
    // Once ready, later rounds change nothing.
    assert!(!wait_step(&mut r, false, Some("exit status: 1"), true, 20_000, "x"));
    assert_eq!(r.status, "ready");
}

#[test]
fn a_loading_run_fails_when_its_host_exits_or_times_out() {
    let mut r = starting_run("local", "m.gguf", 0);
    set_run_status(&mut r, "loading");
    assert!(!wait_step(&mut r, false, Some("exit status: 1"), false, 10, "e"));
    assert_eq!(r.status, "error");
    assert_eq!(r.error.as_deref(), Some("llama-server exited with exit status: 1"));
    let mut r = starting_run("phone", "m.gguf", 0);
    set_run_status(&mut r, "loading");
    assert!(!wait_step(&mut r, false, None, true, 1_200_001, "e"));
    assert_eq!(r.error.as_deref(), Some("timeout waiting for /health"));
    fail_run(&mut r, "worker 10.0.0.2:50052 not reachable");
    assert_eq!(r.status, "error");
    assert_eq!(r.error.as_deref(), Some("worker 10.0.0.2:50052 not reachable"));
    // A stopped run is idle, without an endpoint, and never waited for.
    stop_run(&mut r);
    assert_eq!(r.status, "idle");
    assert!(r.endpoint.is_none());
    assert!(!wait_step(&mut r, true, None, false, 5, "e"));
    assert_eq!(r.status, "idle");
}

#[test]
fn the_run_records_its_command_line() {
    let p = plan(Mode::Single, vec![pl("local", Role::Host, 0, 10, 1, 1)]);
    let a = llama_args_for(&p, "/m/m.gguf", "llama-server", true, vec![]);
    let mut r = starting_run("local", "m.gguf", 0);
    set_run_args(&mut r, &a);
    assert_eq!(r.args[0], "llama-server");
    assert_eq!(&r.args[1..], &a.args[..]);
}

#[test]
fn a_run_begun_now_is_starting_at_the_current_time() {
    let r = begin_run("local", "m.gguf");
    assert_eq!(r.status, "starting");
    assert_eq!(r.model.as_deref(), Some("m.gguf"));
    assert!(r.started_ms.unwrap() > 1_600_000_000_000);
}
