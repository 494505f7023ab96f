use nsm::service::{ClaimError, Payload, State, DEFAULT_TIMEOUT};

fn payload(key: u64, port: i32) -> Payload {
    Payload {
        service_addr: vec!["10.0.0.1".to_string()],
        service_port: port,
        service_claim: 0,
        interface_addr: vec!["10.0.0.1".to_string(), "127.0.0.1".to_string()],
        bind_port: 7000,
        key,
        id: 0,
    }
}

#[test]
fn new_registry_is_empty() {
    let s = State::new();
    assert!(s.clients.is_empty());
    assert!(s.claims.is_empty());
    assert_eq!(s.timeout, 60);
    assert_eq!(s.timeout, DEFAULT_TIMEOUT);
    assert_eq!(s.seq, 1);
}

#[test]
fn add_assigns_ids_in_order_across_keys() {
    let mut s = State::new();
    let a = s.add(payload(42, 9000));
    let b = s.add(payload(7, 9001));
    let c = s.add(payload(42, 9002));
    assert_eq!((a, b, c), (1, 2, 3));
    assert_eq!(s.seq, 4);
    let l42 = &s.clients[&42];
    assert_eq!(l42.len(), 2);
    assert_eq!(l42[0].id, 1);
    assert_eq!(l42[0].service_port, 9000);
    assert_eq!(l42[1].id, 3);
    assert_eq!(l42[1].service_port, 9002);
    assert_eq!(s.clients[&7][0].id, 2);
}

#[test]
fn scenario_first_fit_then_exhausted() {
    let mut s = State::new();
    assert_eq!(s.add(payload(42, 9000)), 1);
    assert_eq!(s.add(payload(42, 9001)), 2);
    let first = s.claim(42).unwrap();
    assert_eq!(first.id, 1);
    assert_eq!(first.service_port, 9000);
    assert!(first.service_claim > 0);
    assert_eq!(s.clients[&42][0].service_claim, first.service_claim);
    let second = s.claim(42).unwrap();
    assert_eq!(second.id, 2);
    assert_eq!(second.service_port, 9001);
    assert_eq!(s.claim(42).unwrap_err(), ClaimError::NoAvailablePayload);
}

#[test]
fn scenario_at_fixed_time() {
    let mut s = State::new();
    s.add(payload(42, 9000));
    s.add(payload(42, 9001));
    let first = s.claim_at(42, 1000).unwrap();
    assert_eq!(first.id, 1);
    assert_eq!(first.service_claim, 1000);
    assert_eq!(s.claim_at(42, 1000).unwrap().id, 2);
    assert_eq!(s.claim_at(42, 1000).unwrap_err(), ClaimError::NoAvailablePayload);
}

#[test]
fn claimed_copy_keeps_fields() {
    let mut s = State::new();
    s.add(payload(5, 9000));
    let p = s.claim_at(5, 500).unwrap();
    assert_eq!(p.service_addr, vec!["10.0.0.1".to_string()]);
    assert_eq!(p.interface_addr, vec!["10.0.0.1".to_string(), "127.0.0.1".to_string()]);
    assert_eq!(p.bind_port, 7000);
    assert_eq!(p.key, 5);
}

#[test]
fn unknown_key_is_distinct_from_exhausted() {
    let mut s = State::new();
    assert_eq!(s.claim_at(42, 1000).unwrap_err(), ClaimError::UnknownKey);
    s.add(payload(42, 9000));
    assert_eq!(s.claim_at(43, 1000).unwrap_err(), ClaimError::UnknownKey);
    s.claim_at(42, 1000).unwrap();
    assert_eq!(s.claim_at(42, 1000).unwrap_err(), ClaimError::NoAvailablePayload);
    assert_eq!(s.claim(7).unwrap_err(), ClaimError::UnknownKey);
}

#[test]
fn lease_expires_after_timeout() {
    let mut s = State::new();
    s.add(payload(42, 9000));
    assert_eq!(s.claim_at(42, 1000).unwrap().id, 1);
    assert_eq!(s.claim_at(42, 1001).unwrap_err(), ClaimError::NoAvailablePayload);
    assert_eq!(s.claim_at(42, 1060).unwrap_err(), ClaimError::NoAvailablePayload);
    let again = s.claim_at(42, 1061).unwrap();
    assert_eq!(again.id, 1);
    assert_eq!(again.service_claim, 1061);
    assert_eq!(s.claim_at(42, 1121).unwrap_err(), ClaimError::NoAvailablePayload);
}

#[test]
fn never_claimed_needs_time_past_timeout() {
    let mut s = State::new();
    s.add(payload(42, 9000));
    assert_eq!(s.claim_at(42, 0).unwrap_err(), ClaimError::NoAvailablePayload);
    assert_eq!(s.claim_at(42, 60).unwrap_err(), ClaimError::NoAvailablePayload);
    assert_eq!(s.claim_at(42, 61).unwrap().id, 1);
}

#[test]
fn clock_behind_last_claim_is_not_eligible() {
    let mut s = State::new();
    let mut p = payload(42, 9000);
    p.service_claim = 5000;
    s.add(p);
    assert_eq!(s.claim_at(42, 100).unwrap_err(), ClaimError::NoAvailablePayload);
}

#[test]
fn claims_are_exclusive() {
    let mut s = State::new();
    s.add(payload(42, 9000));
    s.add(payload(42, 9001));
    s.add(payload(42, 9002));
    s.claim_at(42, 1000).unwrap();
    let mut ok_ids = Vec::new();
    let mut failures = 0;
    for _ in 0..5 {
        match s.claim_at(42, 1000) {
            Ok(p) => ok_ids.push(p.id),
            Err(e) => {
                assert_eq!(e, ClaimError::NoAvailablePayload);
                failures += 1;
            }
        }
    }
    assert_eq!(ok_ids, vec![2, 3]);
    assert_eq!(failures, 3);
}

#[test]
fn claim_skips_leased_entries() {
    let mut s = State::new();
    let mut leased = payload(42, 9000);
    leased.service_claim = 990;
    s.add(leased);
    s.add(payload(42, 9001));
    let p = s.claim_at(42, 1000).unwrap();
    assert_eq!(p.id, 2);
    assert_eq!(s.clients[&42][0].service_claim, 990);
}

#[test]
fn duplicate_keeps_values() {
    let p = payload(3, 1234);
    let q = p.duplicate();
    assert_eq!(q.service_addr, p.service_addr);
    assert_eq!(q.interface_addr, p.interface_addr);
    assert_eq!(q.service_port, 1234);
    assert_eq!(q.key, 3);
}
