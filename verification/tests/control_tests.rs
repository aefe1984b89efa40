use meshcore::control::{on_hello, on_hello_at, HelloOutcome};
use meshcore::control::{
    ends_run, handover, hello_refusal, preauth_refused, rpc_port_of, too_silent, Handover, IpKey, PreauthPool, MAX_PREAUTH,
    MAX_PREAUTH_PER_IP, PREAUTH_MAX_FRAME, SILENCE_LIMIT_MS,
};
use meshcore::framing::encode;

#[test]
fn preauth_pool_is_per_ip_and_released() {
    let mut p = PreauthPool::new();
    let a = IpKey { v6: false, bits: 0x7f000001 };
    let b = IpKey { v6: false, bits: 0x7f000002 };
    for _ in 0..MAX_PREAUTH_PER_IP {
        assert!(p.acquire(a));
    }
    assert!(!p.acquire(a), "the 5th pre-auth socket from one address must be refused");
    assert!(p.acquire(b));
    p.release(a);
    assert!(p.acquire(a));
    assert_eq!(p.total(), MAX_PREAUTH_PER_IP + 1);
}

#[test]
fn the_pool_as_a_whole_is_capped() {
    let mut p = PreauthPool::new();
    let mut n = 0;
    for i in 0..100u128 {
        if p.acquire(IpKey { v6: true, bits: i }) {
            n += 1;
        }
    }
    assert_eq!(n, MAX_PREAUTH);
    p.release(IpKey { v6: true, bits: 0 });
    assert!(p.acquire(IpKey { v6: false, bits: 0 }));
}

#[test]
fn oversized_frames_before_hello_are_refused_and_silent_links_dropped() {
    let big = encode(&vec![0u8; PREAUTH_MAX_FRAME + 1]);
    assert_eq!(preauth_refused(false, &big[..4]), Some(PREAUTH_MAX_FRAME + 1));
    assert_eq!(preauth_refused(true, &big[..4]), None);
    let ok = encode(&vec![0u8; PREAUTH_MAX_FRAME]);
    assert_eq!(preauth_refused(false, &ok), None);
    assert_eq!(preauth_refused(false, &[0, 0, 255]), None);
    assert_eq!(preauth_refused(false, &[255, 255, 255, 255]), Some(u32::MAX as usize));
    assert!(!too_silent(10_000 + SILENCE_LIMIT_MS, 10_000, SILENCE_LIMIT_MS));
    assert!(too_silent(10_001 + SILENCE_LIMIT_MS, 10_000, SILENCE_LIMIT_MS));
    assert!(!too_silent(5, 10, SILENCE_LIMIT_MS));
}

#[test]
fn the_newest_connection_owns_the_device() {
    assert_eq!(handover(Some("phone"), 3, "phone", 4), Handover::Superseded(4));
    assert_eq!(handover(Some("phone"), 3, "phone", 0), Handover::Forgotten);
    assert_eq!(handover(Some("phone"), 3, "phone", 3), Handover::Stay);
    assert_eq!(handover(Some("phone"), 3, "tablet", 9), Handover::Stay);
    assert_eq!(handover(None, 3, "phone", 9), Handover::Stay);
}

#[test]
fn hello_refusals_and_ports() {
    assert_eq!(hello_refusal(false), "not paired (or wrong device secret): scan a new QR");
    assert!(hello_refusal(true).starts_with("pairing token invalid"));
    assert_eq!(rpc_port_of(0), 50052);
    assert_eq!(rpc_port_of(50060), 50060);
}

#[test]
fn a_lost_link_ends_only_its_own_run() {
    assert!(ends_run(true, true, Some("plan-7"), Some("plan-7")));
    assert!(!ends_run(true, true, Some("plan-8"), Some("plan-7")));
    assert!(!ends_run(true, false, Some("plan-7"), Some("plan-7")));
    assert!(!ends_run(false, true, Some("plan-7"), Some("plan-7")));
    assert!(!ends_run(true, true, None, None));
}

fn hello(id: &str, token: &[u8], port: u32) -> meshcore::control::HelloFacts {
    meshcore::control::HelloFacts {
        device_id: id.into(),
        display_name: format!("{id} phone"),
        one_time_token: token.to_vec(),
        rpc_port: port,
    }
}

#[test]
fn a_hello_pairs_with_a_live_token_and_then_needs_none() {
    let mut b = meshcore::pairing::PairingBook::new("m");
    let raw = [7u8; 16];
    let o = b.offer_with("h", 7070, &raw, 100);
    // Not yet paired, no token: refused.
    assert_eq!(
        on_hello_at(&mut b, &hello("p1", b"", 0), 150),
        HelloOutcome::Refused("not paired (or wrong device secret): scan a new QR".into())
    );
    // The token pairs the device, with its own worker port.
    assert_eq!(
        on_hello_at(&mut b, &hello("p1", o.token.as_bytes(), 50060), 200),
        HelloOutcome::Accepted { paired_now: true, rpc_port: 50060 }
    );
    assert!(b.is_paired("p1"));
    // The token is used up.
    assert_eq!(
        on_hello_at(&mut b, &hello("p2", o.token.as_bytes(), 0), 300),
        HelloOutcome::Refused(
            "pairing token invalid, expired, or the device id is already paired (forget it in the admin first)".into()
        )
    );
    // Once paired, a Hello without a token is taken in at the default port.
    assert_eq!(
        on_hello_at(&mut b, &hello("p1", b"", 0), 400),
        HelloOutcome::Accepted { paired_now: false, rpc_port: 50052 }
    );
}

#[test]
fn a_hello_with_an_expired_token_is_refused() {
    let mut b = meshcore::pairing::PairingBook::new("m");
    let raw = [9u8; 16];
    b.offer_with("h", 7070, &raw, 0);
    assert!(matches!(on_hello_at(&mut b, &hello("late", &raw, 0), 600_000), HelloOutcome::Refused(_)));
    // On the book's own clock, a fresh offer is live.
    let o = b.offer("h", 7070);
    assert_eq!(
        on_hello(&mut b, &hello("now", o.token.as_bytes(), 0)),
        HelloOutcome::Accepted { paired_now: true, rpc_port: 50052 }
    );
}
