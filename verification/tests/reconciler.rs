use dyndns::ip::Ipv4;
use dyndns::reconcile::{
    reconcile, select_record, select_zone, DnsRecordSnapshot, ReconcileAction, RecordContent,
    UpdateRequest, ZoneEntry,
};

fn ip(a: u8, b: u8, c: u8, d: u8) -> Ipv4 {
    Ipv4 { a, b, c, d }
}

fn snapshot(addr: Ipv4) -> DnsRecordSnapshot {
    DnsRecordSnapshot {
        id: String::from("rec-1234"),
        name: String::from("host.example.com"),
        content: RecordContent::V4 { addr },
        ttl: 300,
        proxied: true,
    }
}

fn apply(request: &UpdateRequest) -> DnsRecordSnapshot {
    DnsRecordSnapshot {
        id: request.record_id.clone(),
        name: request.name.clone(),
        content: RecordContent::V4 { addr: request.addr },
        ttl: request.ttl,
        proxied: request.proxied,
    }
}

#[test]
fn matching_record_is_a_no_op() {
    let current = snapshot(ip(1, 2, 3, 4));
    let action = reconcile(&current, ip(1, 2, 3, 4), false);
    assert!(matches!(action, ReconcileAction::NoOp));
}

#[test]
fn dry_run_reports_without_update() {
    let current = snapshot(ip(1, 2, 3, 4));
    match reconcile(&current, ip(9, 8, 7, 6), true) {
        ReconcileAction::WouldUpdate { addr } => assert_eq!(addr, ip(9, 8, 7, 6)),
        other => panic!("expected a dry-run report, got another action: {}", kind(&other)),
    }
}

#[test]
fn stale_record_plans_one_update() {
    let current = snapshot(ip(1, 2, 3, 4));
    match reconcile(&current, ip(9, 8, 7, 6), false) {
        ReconcileAction::Update { request } => {
            assert_eq!(request.record_id, "rec-1234");
            assert_eq!(request.name, "host.example.com");
            assert_eq!(request.addr, ip(9, 8, 7, 6));
        }
        other => panic!("expected an update, got another action: {}", kind(&other)),
    }
}

#[test]
fn non_address_content_is_updated() {
    let mut current = snapshot(ip(1, 2, 3, 4));
    current.content = RecordContent::Other;
    let action = reconcile(&current, ip(1, 2, 3, 4), false);
    assert!(matches!(action, ReconcileAction::Update { .. }));
}

#[test]
fn update_preserves_ttl_and_proxy_round_trip() {
    let current = snapshot(ip(1, 2, 3, 4));
    match reconcile(&current, ip(9, 8, 7, 6), false) {
        ReconcileAction::Update { request } => {
            assert_eq!(request.ttl, 300);
            assert!(request.proxied);
            let published = apply(&request);
            assert_eq!(published.ttl, current.ttl);
            assert_eq!(published.proxied, current.proxied);
            assert_eq!(published.name, current.name);
            assert_eq!(published.id, current.id);
        }
        other => panic!("expected an update, got another action: {}", kind(&other)),
    }
}

#[test]
fn second_run_after_update_is_a_no_op() {
    let current = snapshot(ip(1, 2, 3, 4));
    let resolved = ip(9, 8, 7, 6);
    match reconcile(&current, resolved, false) {
        ReconcileAction::Update { request } => {
            let published = apply(&request);
            assert!(matches!(reconcile(&published, resolved, false), ReconcileAction::NoOp));
            assert!(matches!(reconcile(&published, resolved, true), ReconcileAction::NoOp));
        }
        other => panic!("expected an update, got another action: {}", kind(&other)),
    }
}

#[test]
fn second_run_after_no_op_stays_a_no_op() {
    let current = snapshot(ip(1, 2, 3, 4));
    assert!(matches!(reconcile(&current, ip(1, 2, 3, 4), false), ReconcileAction::NoOp));
    assert!(matches!(reconcile(&current, ip(1, 2, 3, 4), false), ReconcileAction::NoOp));
}

#[test]
fn zone_lookup_finds_first_matching_name() {
    let zones = vec![
        ZoneEntry { id: String::from("z-1"), name: String::from("other.org") },
        ZoneEntry { id: String::from("z-2"), name: String::from("example.com") },
        ZoneEntry { id: String::from("z-3"), name: String::from("example.com") },
    ];
    let found = select_zone(&zones, &String::from("example.com"));
    assert_eq!(found, Some(1));
    assert_eq!(select_zone(&zones, &String::from("missing.net")), None);
}

#[test]
fn record_lookup_finds_first_matching_name() {
    let mk = |name: &str| DnsRecordSnapshot {
        id: String::from("rec-1"),
        name: String::from(name),
        content: RecordContent::Other,
        ttl: 60,
        proxied: false,
    };
    let records = vec![mk("a.example.com"), mk("b.example.com")];
    assert_eq!(select_record(&records, &String::from("b.example.com")), Some(1));
    assert_eq!(select_record(&records, &String::from("c.example.com")), None);
}

fn kind(action: &ReconcileAction) -> &'static str {
    match action {
        ReconcileAction::NoOp => "no-op",
        ReconcileAction::WouldUpdate { .. } => "would-update",
        ReconcileAction::Update { .. } => "update",
    }
}
