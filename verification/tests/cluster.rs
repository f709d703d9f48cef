use heartbeat::ids::{gen_id, get_timestamp, ip_from_id, ips_from_ids, u64_to_string};
use heartbeat::ops::{
    is_expired, join, leave, maintainer, send_heartbeats, Destinations, HeartbeatOperation,
    JoinOperation, LeaveOperation, MemberInitializationOperation, NewMemberOperation, Operation,
    Source,
};
use heartbeat::state::ClusterState;
use heartbeat::Error;

fn peers() -> Vec<String> {
    vec![
        "10.0.0.1:9000".to_string(),
        "10.0.0.2:9000".to_string(),
        "10.0.0.3:9000".to_string(),
        "10.0.0.4:9000".to_string(),
    ]
}

fn node(ip: &str, tcp: &str) -> ClusterState {
    ClusterState::new(ip.to_string(), tcp.to_string(), peers())
}

/// A joined node A that also knows B and C, neighbors recomputed at t=100.
fn three_ring() -> (ClusterState, String, String, String) {
    let mut a = node("1.1.1.1:9000", "1.1.1.1:9001");
    join(&mut a, 100).unwrap();
    let a_id = a.my_id.clone();
    let b_id = "2.2.2.2:9000|100".to_string();
    let c_id = "3.3.3.3:9000|100".to_string();
    a.insert_node(&b_id);
    a.insert_node(&c_id);
    a.udp_to_tcp_map.insert("2.2.2.2:9000".to_string(), "2.2.2.2:9001".to_string());
    a.udp_to_tcp_map.insert("3.3.3.3:9000".to_string(), "3.3.3.3:9001".to_string());
    a.recalculate_neighbors(100).unwrap();
    (a, a_id, b_id, c_id)
}

#[test]
fn gen_id_format() {
    assert_eq!(gen_id(&"1.2.3.4:9000".to_string(), 1234), "1.2.3.4:9000|1234");
}

#[test]
fn u64_decimal_digits() {
    assert_eq!(u64_to_string(0), "0");
    assert_eq!(u64_to_string(90210), "90210");
}

#[test]
fn clock_is_after_epoch() {
    assert!(get_timestamp().is_ok());
}

#[test]
fn ip_from_id_splits_at_first_bar() {
    assert_eq!(ip_from_id(&"1.2.3.4:9000|55".to_string()), Some("1.2.3.4:9000".to_string()));
    assert_eq!(ip_from_id(&"a|b|c".to_string()), Some("a".to_string()));
    assert_eq!(ip_from_id(&"no-separator".to_string()), None);
}

#[test]
fn ips_from_ids_maps_each() {
    let ids = vec!["a:1|5".to_string(), "b:2|6".to_string()];
    assert_eq!(ips_from_ids(&ids), Some(vec!["a:1".to_string(), "b:2".to_string()]));
    let bad = vec!["a:1|5".to_string(), "plain".to_string()];
    assert_eq!(ips_from_ids(&bad), None);
}

#[test]
fn membership_stays_sorted_and_unique() {
    let mut s = node("9.9.9.9:1", "9.9.9.9:2");
    for id in ["c|3", "a|1", "b|2", "a|1", "c|3"] {
        s.insert_node(&id.to_string());
    }
    assert_eq!(s.membership_list, vec!["a|1", "b|2", "c|3"]);
    assert!(s.remove_node(&"b|2".to_string()));
    assert!(!s.remove_node(&"b|2".to_string()));
    assert_eq!(s.membership_list, vec!["a|1", "c|3"]);
}

#[test]
fn merge_membership_inserts_all() {
    let mut s = node("9.9.9.9:1", "9.9.9.9:2");
    s.insert_node(&"m|1".to_string());
    s.merge_membership_list(&vec!["z|9".to_string(), "a|0".to_string(), "m|1".to_string()]);
    assert_eq!(s.membership_list, vec!["a|0", "m|1", "z|9"]);
}

#[test]
fn tcp_lookup_resolves_and_fails() {
    let mut s = node("9.9.9.9:1", "9.9.9.9:2");
    s.merge_tcp_map(&vec![
        ("1.1.1.1:9000".to_string(), "1.1.1.1:9001".to_string()),
        ("2.2.2.2:9000".to_string(), "2.2.2.2:9001".to_string()),
        ("1.1.1.1:9000".to_string(), "1.1.1.1:9002".to_string()),
    ]);
    // later entries win
    assert_eq!(
        s.tcp_ips_from_udp_ips(&vec!["1.1.1.1:9000".to_string()]),
        Ok(vec!["1.1.1.1:9002".to_string()])
    );
    assert_eq!(
        s.tcp_ips_from_ids(&vec!["2.2.2.2:9000|7".to_string()]),
        Ok(vec!["2.2.2.2:9001".to_string()])
    );
    assert_eq!(
        s.tcp_ips_from_udp_ips(&vec!["3.3.3.3:9000".to_string()]),
        Err(Error::MissingTcpEntry)
    );
    assert_eq!(s.tcp_ips_from_ids(&vec!["malformed".to_string()]), Err(Error::MalformedId));
}

#[test]
fn merge_file_owners_unions() {
    let mut s = node("9.9.9.9:1", "9.9.9.9:2");
    s.merge_all_file_owners(&vec![("f1".to_string(), vec!["a|1".to_string()])]);
    s.merge_all_file_owners(&vec![(
        "f1".to_string(),
        vec!["a|1".to_string(), "b|2".to_string()],
    )]);
    let owners = s.all_file_owners.get(&"f1".to_string()).unwrap();
    assert_eq!(owners, &vec!["a|1".to_string(), "b|2".to_string()]);
}

#[test]
fn is_master_is_first_member() {
    let mut s = node("1.1.1.1:9000", "1.1.1.1:9001");
    join(&mut s, 100).unwrap();
    assert!(s.is_master());
    s.insert_node(&"0.0.0.1:1|1".to_string());
    assert!(!s.is_master());
}

#[test]
fn three_node_ring_neighbors() {
    let (a, a_id, b_id, c_id) = three_ring();
    assert_eq!(a.successor_list, vec![b_id.clone(), c_id.clone()]);
    assert_eq!(a.predecessor_list, vec![c_id.clone(), b_id.clone()]);
    assert_eq!(a.membership_list, vec![a_id, b_id, c_id]);
}

#[test]
fn recalculate_neighbors_is_idempotent() {
    let (mut a, _, _, _) = three_ring();
    let succ1 = a.successor_list.clone();
    let pred1 = a.predecessor_list.clone();
    a.recalculate_neighbors(150).unwrap();
    assert_eq!(a.successor_list, succ1);
    assert_eq!(a.predecessor_list, pred1);
    // timestamps survived too: nobody looks freshly alive
    assert_eq!(is_expired(&a, &a.predecessor_list[0], 104), Ok(true));
}

#[test]
fn neighbor_walk_wraps_and_stops() {
    let (a, a_id, b_id, c_id) = three_ring();
    // from A forward, asking for more members than exist: B, C, then stop
    let long = a.gen_neighbor_list_from(0, 1, 10, false);
    assert_eq!(long, vec![b_id.clone(), c_id.clone()]);
    let with_self = a.gen_neighbor_list_from(0, 1, 10, true);
    assert_eq!(with_self, vec![b_id.clone(), c_id.clone(), a_id.clone()]);
    let back = a.gen_neighbor_list_from(0, -1, 1, false);
    assert_eq!(back, vec![c_id]);
}

#[test]
fn gen_neighbor_list_failures() {
    let s = node("9.9.9.9:1", "9.9.9.9:2");
    assert!(matches!(s.gen_neighbor_list(1), Err(Error::EmptyMembership)));
    let mut t = node("9.9.9.9:1", "9.9.9.9:2");
    t.insert_node(&"a|1".to_string());
    assert!(matches!(t.gen_neighbor_list(1), Err(Error::SelfMissing)));
}

#[test]
fn heartbeat_refreshes_predecessor() {
    let (mut a, _, _, c_id) = three_ring();
    let hb = HeartbeatOperation { id: c_id.clone() };
    let out = hb
        .execute(&mut a, &Source::Remote("3.3.3.3:9000".to_string()), 105)
        .unwrap();
    assert!(out.is_empty());
    assert_eq!(is_expired(&a, &c_id, 107), Ok(false));
}

#[test]
fn heartbeat_mismatched_source_rejected_without_mutation() {
    let (mut a, _, b_id, c_id) = three_ring();
    let before = a.membership_list.clone();
    let hb = HeartbeatOperation { id: c_id.clone() };
    let r = hb.execute(&mut a, &Source::Remote("6.6.6.6:9000".to_string()), 105);
    assert!(matches!(r, Err(Error::SuspiciousHeartbeat)));
    assert_eq!(a.membership_list, before);
    // the timestamp was not refreshed either
    assert_eq!(is_expired(&a, &c_id, 105), Ok(true));
    assert_eq!(is_expired(&a, &b_id, 105), Ok(true));
}

#[test]
fn heartbeat_from_non_predecessor_is_ignored() {
    let (mut a, a_id, b_id, c_id) = three_ring();
    let hb = HeartbeatOperation { id: "7.7.7.7:9000|1".to_string() };
    let out = hb
        .execute(&mut a, &Source::Remote("7.7.7.7:9000".to_string()), 105)
        .unwrap();
    assert!(out.is_empty());
    assert_eq!(a.membership_list, vec![a_id, b_id, c_id]);
}

#[test]
fn send_heartbeats_targets_successors() {
    let (a, _, b_id, c_id) = three_ring();
    let hb = send_heartbeats(&a).unwrap();
    match hb.dests {
        Destinations::Ids(ids) => assert_eq!(ids, vec![b_id, c_id]),
        _ => panic!("expected identifier routing"),
    }
    match hb.operation {
        Operation::Heartbeat(h) => assert_eq!(h.id, a.my_id),
        _ => panic!("expected a heartbeat"),
    }
    let idle = node("9.9.9.9:1", "9.9.9.9:2");
    assert!(matches!(send_heartbeats(&idle), Err(Error::NotJoined)));
}

#[test]
fn silent_crash_is_evicted() {
    let (mut a, a_id, b_id, c_id) = three_ring();
    // C keeps heartbeating, B goes silent
    let hb = HeartbeatOperation { id: c_id.clone() };
    hb.execute(&mut a, &Source::Remote("3.3.3.3:9000".to_string()), 103)
        .unwrap();
    let (ops, anomalies) = maintainer(&mut a, 104);
    assert!(anomalies.is_empty());
    assert!(!ops.is_empty());
    match &ops[0].operation {
        Operation::Leave(l) => assert_eq!(l.id, b_id),
        _ => panic!("expected a leave"),
    }
    assert_eq!(a.membership_list, vec![a_id, c_id]);
}

#[test]
fn quiet_tick_emits_nothing() {
    // all predecessors heartbeat within the window: no leave, no change
    let (mut a, a_id, b_id, c_id) = three_ring();
    let succ = a.successor_list.clone();
    let pred = a.predecessor_list.clone();
    let (ops, anomalies) = maintainer(&mut a, 102);
    assert!(ops.is_empty());
    assert!(anomalies.is_empty());
    assert_eq!(a.membership_list, vec![a_id, b_id, c_id]);
    assert_eq!(a.successor_list, succ);
    assert_eq!(a.predecessor_list, pred);
}

#[test]
fn maintainer_noop_when_not_joined() {
    let mut s = node("9.9.9.9:1", "9.9.9.9:2");
    let (ops, anomalies) = maintainer(&mut s, 100);
    assert!(ops.is_empty());
    assert!(anomalies.is_empty());
}

#[test]
fn clock_regression_reported_not_fatal() {
    let (mut a, a_id, b_id, c_id) = three_ring();
    // timestamps were stored at t=100; the clock now reads 50
    let (ops, anomalies) = maintainer(&mut a, 50);
    assert!(ops.is_empty());
    let mut sorted = anomalies.clone();
    sorted.sort();
    assert_eq!(sorted, vec![b_id.clone(), c_id.clone()]);
    assert_eq!(a.membership_list, vec![a_id, b_id, c_id]);
}

#[test]
fn leave_execute_is_idempotent() {
    let (mut a, a_id, b_id, c_id) = three_ring();
    let lv = LeaveOperation { id: b_id.clone() };
    let first = lv.execute(&mut a, &Source::Myself, 110).unwrap();
    assert_eq!(first.len(), 1);
    match &first[0].operation {
        Operation::Leave(l) => assert_eq!(l.id, b_id),
        _ => panic!("expected the forwarded leave"),
    }
    assert_eq!(a.membership_list, vec![a_id.clone(), c_id.clone()]);
    let second = lv.execute(&mut a, &Source::Myself, 111).unwrap();
    assert!(second.is_empty());
    assert_eq!(a.membership_list, vec![a_id, c_id]);
}

#[test]
fn voluntary_leave_clears_state() {
    let (mut c, _, _, _) = three_ring();
    let my = c.my_id.clone();
    let succ = c.successor_list.clone();
    let notice = leave(&mut c).unwrap();
    match notice.dests {
        Destinations::Ids(ids) => assert_eq!(ids, succ),
        _ => panic!("expected identifier routing"),
    }
    match notice.operation {
        Operation::Leave(l) => assert_eq!(l.id, my),
        _ => panic!("expected a leave"),
    }
    assert!(!c.is_joined);
    assert!(c.membership_list.is_empty());
    assert!(c.successor_list.is_empty());
    assert!(c.predecessor_list.is_empty());
    assert!(matches!(leave(&mut c), Err(Error::NotJoined)));
}

#[test]
fn join_rejected_when_already_joined() {
    let mut s = node("1.1.1.1:9000", "1.1.1.1:9001");
    join(&mut s, 100).unwrap();
    assert!(matches!(join(&mut s, 101), Err(Error::AlreadyJoined)));
}

#[test]
fn join_broadcasts_to_peer_list() {
    let mut s = node("1.1.1.1:9000", "1.1.1.1:9001");
    let item = join(&mut s, 100).unwrap();
    assert!(s.is_joined);
    assert_eq!(s.my_id, "1.1.1.1:9000|100");
    assert_eq!(s.membership_list, vec!["1.1.1.1:9000|100"]);
    match item.dests {
        Destinations::UdpAddr(ips) => assert_eq!(ips, peers()),
        _ => panic!("expected UDP routing"),
    }
    match item.operation {
        Operation::Join(j) => {
            assert_eq!(j.id, "1.1.1.1:9000|100");
            assert_eq!(j.tcp_addr, "1.1.1.1:9001");
        },
        _ => panic!("expected a join"),
    }
}

#[test]
fn join_request_emits_new_member_and_init() {
    let (mut a, _, _, _) = three_ring();
    let d_id = "4.4.4.4:9000|120".to_string();
    let op = JoinOperation { id: d_id.clone(), tcp_addr: "4.4.4.4:9001".to_string() };
    let out = op
        .execute(&mut a, &Source::Remote("4.4.4.4:9000".to_string()), 120)
        .unwrap();
    assert_eq!(out.len(), 2);
    match &out[0].operation {
        Operation::NewMember(nm) => {
            assert_eq!(nm.id, d_id);
            assert_eq!(nm.tcp_addr, "4.4.4.4:9001");
        },
        _ => panic!("expected the announcement"),
    }
    match (&out[1].dests, &out[1].operation) {
        (Destinations::Ids(ids), Operation::MemberInit(mi)) => {
            assert_eq!(ids, &vec![d_id.clone()]);
            assert!(mi.membership_list.contains(&d_id));
        },
        _ => panic!("expected the snapshot for the joiner"),
    }
    assert!(a.membership_list.contains(&d_id));
}

#[test]
fn duplicate_join_packets_insert_once() {
    let (mut a, _, _, _) = three_ring();
    let e_id = "5.5.5.5:9000|130".to_string();
    let op = JoinOperation { id: e_id.clone(), tcp_addr: "5.5.5.5:9001".to_string() };
    let src = Source::Remote("5.5.5.5:9000".to_string());
    let first = op.execute(&mut a, &src, 130).unwrap();
    let second = op.execute(&mut a, &src, 131).unwrap();
    assert_eq!(first.len(), 2);
    assert_eq!(second.len(), 2);
    let count = a.membership_list.iter().filter(|m| **m == e_id).count();
    assert_eq!(count, 1);
}

#[test]
fn join_race_converges() {
    // C's view: B has gone silent when D joins; A keeps heartbeating.
    let mut c = node("3.3.3.3:9000", "3.3.3.3:9001");
    join(&mut c, 100).unwrap();
    let c_id = c.my_id.clone();
    let a_id = "1.1.1.1:9000|100".to_string();
    let b_id = "2.2.2.2:9000|100".to_string();
    c.insert_node(&a_id);
    c.insert_node(&b_id);
    c.recalculate_neighbors(100).unwrap();
    let hb = HeartbeatOperation { id: a_id.clone() };
    hb.execute(&mut c, &Source::Remote("1.1.1.1:9000".to_string()), 103)
        .unwrap();
    let d_id = "4.4.4.4:9000|103".to_string();
    let op = JoinOperation { id: d_id.clone(), tcp_addr: "4.4.4.4:9001".to_string() };
    op.execute(&mut c, &Source::Remote("4.4.4.4:9000".to_string()), 103)
        .unwrap();
    let (ops, anomalies) = maintainer(&mut c, 104);
    assert!(anomalies.is_empty());
    assert!(!ops.is_empty());
    assert_eq!(c.membership_list, vec![a_id, c_id, d_id]);
}

#[test]
fn new_member_recorded_with_address() {
    let (mut a, _, _, _) = three_ring();
    let nm = NewMemberOperation { id: "4.4.4.4:9000|120".to_string(), tcp_addr: "4.4.4.4:9001".to_string() };
    let out = nm.execute(&mut a, &Source::Remote("2.2.2.2:9000".to_string()), 120).unwrap();
    assert!(out.is_empty());
    assert!(a.membership_list.contains(&"4.4.4.4:9000|120".to_string()));
    assert_eq!(
        a.tcp_ips_from_udp_ips(&vec!["4.4.4.4:9000".to_string()]),
        Ok(vec!["4.4.4.4:9001".to_string()])
    );
    let bad = NewMemberOperation { id: "plain".to_string(), tcp_addr: "x".to_string() };
    assert!(matches!(bad.execute(&mut a, &Source::Myself, 121), Err(Error::MalformedId)));
}

#[test]
fn member_init_merges_everything() {
    let mut d = node("4.4.4.4:9000", "4.4.4.4:9001");
    join(&mut d, 140).unwrap();
    let mi = MemberInitializationOperation {
        membership_list: vec!["1.1.1.1:9000|100".to_string(), "3.3.3.3:9000|100".to_string()],
        udp_to_tcp_map: vec![("1.1.1.1:9000".to_string(), "1.1.1.1:9001".to_string())],
        all_file_owners: vec![("f1".to_string(), vec!["1.1.1.1:9000|100".to_string()])],
    };
    let out = mi.execute(&mut d, &Source::Remote("1.1.1.1:9000".to_string()), 141).unwrap();
    assert!(out.is_empty());
    assert_eq!(d.membership_list.len(), 3);
    assert_eq!(
        d.tcp_ips_from_udp_ips(&vec!["1.1.1.1:9000".to_string()]),
        Ok(vec!["1.1.1.1:9001".to_string()])
    );
    assert!(!d.successor_list.is_empty());
}

fn round_trip(op: Operation) -> Operation {
    let bytes = op.to_bytes().unwrap();
    Operation::from_bytes(&bytes).unwrap()
}

#[test]
fn serialization_round_trip_heartbeat() {
    let op = Operation::Heartbeat(HeartbeatOperation { id: "1.1.1.1:9000|100".to_string() });
    match round_trip(op) {
        Operation::Heartbeat(h) => assert_eq!(h.id, "1.1.1.1:9000|100"),
        _ => panic!("wrong variant"),
    }
}

#[test]
fn serialization_round_trip_join_and_leave() {
    let op = Operation::Join(JoinOperation { id: "a|1".to_string(), tcp_addr: "a:2".to_string() });
    match round_trip(op) {
        Operation::Join(j) => {
            assert_eq!(j.id, "a|1");
            assert_eq!(j.tcp_addr, "a:2");
        },
        _ => panic!("wrong variant"),
    }
    let op = Operation::Leave(LeaveOperation { id: "naïve-π|1".to_string() });
    match round_trip(op) {
        Operation::Leave(l) => assert_eq!(l.id, "naïve-π|1"),
        _ => panic!("wrong variant"),
    }
}

#[test]
fn serialization_round_trip_new_member_and_init() {
    let op = Operation::NewMember(NewMemberOperation {
        id: "b|2".to_string(),
        tcp_addr: "b:9".to_string(),
    });
    match round_trip(op) {
        Operation::NewMember(nm) => {
            assert_eq!(nm.id, "b|2");
            assert_eq!(nm.tcp_addr, "b:9");
        },
        _ => panic!("wrong variant"),
    }
    let op = Operation::MemberInit(MemberInitializationOperation {
        membership_list: vec!["a|1".to_string(), "b|2".to_string()],
        udp_to_tcp_map: vec![("a".to_string(), "a:9".to_string())],
        all_file_owners: vec![("f".to_string(), vec!["a|1".to_string(), "b|2".to_string()])],
    });
    match round_trip(op) {
        Operation::MemberInit(mi) => {
            assert_eq!(mi.membership_list, vec!["a|1".to_string(), "b|2".to_string()]);
            assert_eq!(mi.udp_to_tcp_map, vec![("a".to_string(), "a:9".to_string())]);
            assert_eq!(
                mi.all_file_owners,
                vec![("f".to_string(), vec!["a|1".to_string(), "b|2".to_string()])]
            );
        },
        _ => panic!("wrong variant"),
    }
}

#[test]
fn wire_image_shape() {
    let op = Operation::Heartbeat(HeartbeatOperation { id: "A".to_string() });
    let bytes = op.to_bytes().unwrap();
    // tag, framing byte, 4-byte length, 4-byte code point
    assert_eq!(
        bytes,
        vec![b'H', b'B', b' ', b' ', 0, 1, 0, 0, 0, 65, 0, 0, 0]
    );
}

#[test]
fn malformed_wire_input_rejected() {
    assert!(Operation::from_bytes(&vec![]).is_none());
    assert!(Operation::from_bytes(&vec![b'H', b'B', b' ', b' ', 0]).is_none());
    assert!(Operation::from_bytes(&vec![b'X', b'X', b'X', b'X', 0, 0, 0, 0, 0]).is_none());
    // trailing garbage after a valid message
    let mut bytes = Operation::Heartbeat(HeartbeatOperation { id: "A".to_string() })
        .to_bytes()
        .unwrap();
    bytes.push(7);
    assert!(Operation::from_bytes(&bytes).is_none());
}
