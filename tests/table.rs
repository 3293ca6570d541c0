use teach_tech_core::table::{Attached, ConnectionTable, Link, PeerAddress, SIBLING_PORT};

fn peer(address: &str, host: u128) -> PeerAddress {
    PeerAddress { address: address.to_string(), host }
}

fn sorted_links(t: &ConnectionTable) -> Vec<(u128, u64)> {
    let mut v: Vec<(u128, u64)> = t.links().iter().map(|l| (l.host, l.conn)).collect();
    v.sort();
    v
}

#[test]
fn sibling_port_is_fixed() {
    assert_eq!(SIBLING_PORT, 22114);
}

#[test]
fn attach_issues_fresh_ids() {
    let mut t = ConnectionTable::new();
    assert_eq!(t.attach(1), Some(Attached { conn: 0, displaced: None }));
    assert_eq!(t.attach(2), Some(Attached { conn: 1, displaced: None }));
    assert_eq!(t.conn_of(1), Some(0));
    assert_eq!(t.conn_of(2), Some(1));
    assert_eq!(t.conn_of(3), None);
    assert_eq!(sorted_links(&t), vec![(1, 0), (2, 1)]);
}

#[test]
fn newer_connection_supersedes_older() {
    let mut t = ConnectionTable::new();
    let a = t.attach(7).unwrap();
    let b = t.attach(7).unwrap();
    assert_eq!(b.displaced, Some(a.conn));
    assert_ne!(a.conn, b.conn);
    assert_eq!(t.links(), vec![Link { host: 7, conn: b.conn }]);
}

#[test]
fn racing_teardown_keeps_winner() {
    let mut t = ConnectionTable::new();
    let a = t.attach(10).unwrap();
    let b = t.attach(10).unwrap();
    assert!(!t.release(10, a.conn));
    assert_eq!(t.conn_of(10), Some(b.conn));
    assert!(t.release(10, b.conn));
    assert_eq!(t.conn_of(10), None);
}

#[test]
fn release_of_unknown_host_changes_nothing() {
    let mut t = ConnectionTable::new();
    let a = t.attach(1).unwrap();
    assert!(!t.release(2, a.conn));
    assert_eq!(sorted_links(&t), vec![(1, a.conn)]);
}

#[test]
fn dial_plan_skips_self_connected_and_repeated_hosts() {
    let mut t = ConnectionTable::new();
    t.attach(2).unwrap();
    let own = "10.0.0.1:9000".to_string();
    let listed = vec![
        peer("10.0.0.1:9000", 1),
        peer("10.0.0.2:9000", 2),
        peer("10.0.0.3:9000", 3),
        peer("10.0.0.3:9001", 3),
        peer("10.0.0.4:9000", 4),
    ];
    assert_eq!(t.dial_plan(&own, &listed), vec![2, 4]);
}

#[test]
fn dial_plan_of_empty_list_is_empty() {
    let t = ConnectionTable::new();
    assert!(t.dial_plan(&"a".to_string(), &Vec::new()).is_empty());
}

#[test]
fn broadcast_round_with_unreachable_peers() {
    let own = "10.0.0.9:80".to_string();
    let listed: Vec<PeerAddress> = (1..=5).map(|i| peer(&format!("10.0.0.{i}:80"), i)).collect();
    let unreachable = [2u128, 4];
    let mut t = ConnectionTable::new();
    let mut failures = 0;
    for i in t.dial_plan(&own, &listed) {
        let host = listed[i].host;
        if unreachable.contains(&host) {
            failures += 1;
        } else {
            t.attach(host).unwrap();
        }
    }
    let mut delivered = Vec::new();
    for link in t.links() {
        if unreachable.contains(&link.host) {
            failures += 1;
            t.release(link.host, link.conn);
        } else {
            delivered.push(link.host);
        }
    }
    delivered.sort();
    assert_eq!(delivered, vec![1, 3, 5]);
    assert_eq!(failures, 2);
}

#[test]
fn failed_peer_is_redialed_next_round() {
    let own = "10.0.0.9:80".to_string();
    let listed = vec![peer("10.0.0.1:80", 1), peer("10.0.0.2:80", 2)];
    let mut t = ConnectionTable::new();
    assert_eq!(t.dial_plan(&own, &listed), vec![0, 1]);
    let a = t.attach(1).unwrap();
    t.attach(2).unwrap();
    assert!(t.dial_plan(&own, &listed).is_empty());
    assert!(t.release(1, a.conn));
    assert_eq!(t.dial_plan(&own, &listed), vec![0]);
}

#[test]
fn deregistered_instance_is_not_dialed() {
    let own = "10.0.0.2:9000".to_string();
    let mut registry = vec![peer("10.0.0.1:9000", 1), peer("10.0.0.3:9000", 3)];
    let t = ConnectionTable::new();
    assert_eq!(t.dial_plan(&own, &registry), vec![0, 1]);
    registry.retain(|p| p.address != "10.0.0.1:9000");
    assert!(registry.iter().all(|p| p.address != "10.0.0.1:9000"));
    let plan = t.dial_plan(&own, &registry);
    assert!(plan.iter().all(|&i| registry[i].address != "10.0.0.1:9000"));
    assert_eq!(plan, vec![0]);
}
