use elevator::{Pairing, PairingAction};

fn sends(a: &[PairingAction]) -> Vec<(bool, String, String)> {
    a.iter()
        .map(|x| match x {
            PairingAction::Paired { to, partner } => (true, to.clone(), partner.clone()),
            PairingAction::Partner { to, partner } => (false, to.clone(), partner.clone()),
        })
        .collect()
}

#[test]
fn first_client_waits_second_is_paired() {
    let mut p = Pairing::new();
    assert!(p.on_request("FIND_PAIR\n", "a:1".to_string()).is_empty());
    assert_eq!(p.waiting, vec!["a:1".to_string()]);
    let a = p.on_request(" FIND_PAIR ", "b:2".to_string());
    assert_eq!(
        sends(&a),
        vec![(true, "a:1".to_string(), "b:2".to_string()), (true, "b:2".to_string(), "a:1".to_string())]
    );
    assert!(p.waiting.is_empty());
    let a = p.on_request("GET_PAIR", "b:2".to_string());
    assert_eq!(sends(&a), vec![(false, "b:2".to_string(), "a:1".to_string())]);
}

#[test]
fn waiting_client_already_paired_is_skipped() {
    let mut p = Pairing::new();
    p.paired.push(("a:1".to_string(), "c:3".to_string()));
    p.waiting.push("a:1".to_string());
    assert!(p.on_request("FIND_PAIR", "b:2".to_string()).is_empty());
    assert!(p.waiting.is_empty());
    assert_eq!(p.paired.len(), 1);
}

#[test]
fn other_requests_are_ignored() {
    let mut p = Pairing::new();
    assert!(p.on_request("HELLO", "a:1".to_string()).is_empty());
    assert!(p.on_request("GET_PAIR", "a:1".to_string()).is_empty());
    assert!(p.waiting.is_empty());
}

#[test]
fn later_clients_wait_in_front() {
    let mut p = Pairing::new();
    p.waiting.push("x:9".to_string());
    p.paired.push(("x:9".to_string(), "y:8".to_string()));
    p.on_request("FIND_PAIR", "a:1".to_string());
    assert!(p.waiting.is_empty());
    p.on_request("FIND_PAIR", "b:2".to_string());
    p.on_request("FIND_PAIR", "c:3".to_string());
    assert!(p.waiting.is_empty());
    assert_eq!(p.paired.len(), 3);
}
