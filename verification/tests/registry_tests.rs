use game_cluster::node::{NodeInfo, NodeType, StateInfo};
use game_cluster::registry::{get_min_load_node, AppContext, ClusterCommand, LoadBalanceError, NodeState, RegistryRequest};
use game_cluster::table::KeyedTable;

fn node(port: u16, node_type: NodeType) -> NodeInfo {
    NodeInfo {
        node_addr: "127.0.0.1".to_string(),
        main_channel_port: port,
        heartbeat_port: port + 1,
        pub_port: port + 2,
        node_type,
    }
}

fn load(lf: f32) -> StateInfo {
    StateInfo {
        max_connection: 100,
        current_connection: 0,
        load_factor_bits: lf.to_bits(),
        avg_update_delay_bits: 0.0f32.to_bits(),
        user_count: 0,
    }
}

fn register(ctx: &mut AppContext, n: &NodeInfo, now: i64) -> Option<(bool, Option<String>)> {
    let peer = n.get_key().into_bytes();
    ctx.handle_msg_at(n.get_key(), RegistryRequest::Register(Some(n.clone())), peer, now)
        .map(|r| (r.is_success, r.reason))
}

fn report(ctx: &mut AppContext, n: &NodeInfo, lf: f32, now: i64) {
    let r = ctx.handle_msg_at(n.get_key(), RegistryRequest::Report(Some(load(lf))), vec![], now);
    assert!(r.is_none());
}

fn fail(reason: &str) -> Option<(bool, Option<String>)> {
    Some((false, Some(reason.to_string())))
}

#[test]
fn registration_rules() {
    let mut ctx = AppContext::new();
    let m = node(5000, NodeType::Master);
    let s1 = node(6000, NodeType::Slave);
    // a slave cannot register before there is a master
    assert_eq!(register(&mut ctx, &s1, 1), fail("master node not exist,can't register slave"));
    assert_eq!(ctx.node_list.len(), 0);
    assert_eq!(register(&mut ctx, &m, 1), Some((true, None)));
    assert_eq!(ctx.get_master().unwrap().get_key(), "127.0.0.1:5000");
    assert_eq!(register(&mut ctx, &s1, 2), Some((true, None)));
    // a second registration under the same id fails
    assert_eq!(register(&mut ctx, &s1, 3), fail("already register"));
    // a second master fails
    let m2 = node(7000, NodeType::Master);
    assert_eq!(register(&mut ctx, &m2, 3), fail("only one master node can exist"));
    assert_eq!(ctx.node_list.len(), 2);
    assert_eq!(ctx.node_state.len(), 2);
    assert_eq!(ctx.node_id_peer_id_map.get(&"127.0.0.1:6000".to_string()), Some(&b"127.0.0.1:6000".to_vec()));
    let st = ctx.node_state.get(&"127.0.0.1:6000".to_string()).unwrap();
    assert_eq!(st.last_heartbeat_time, 2);
    assert_eq!(f32::from_bits(st.state_info.load_factor_bits), 0.9);
    assert_eq!(ctx.get_master_node_addr(), Some("127.0.0.1:5000".to_string()));
    let keys: Vec<String> = ctx.nodes().iter().map(|n| n.get_key()).collect();
    assert_eq!(keys, vec!["127.0.0.1:5000".to_string(), "127.0.0.1:6000".to_string()]);
}

#[test]
fn registration_without_content_and_other_operations() {
    let mut ctx = AppContext::new();
    assert!(ctx.handle_msg_at("x".to_string(), RegistryRequest::Register(None), vec![], 0).is_none());
    assert_eq!(ctx.node_list.len(), 0);
    assert!(ctx.handle_msg_at("x".to_string(), RegistryRequest::Other, vec![], 0).is_none());
    assert!(ctx.handle_msg_at("x".to_string(), RegistryRequest::Report(None), vec![], 0).is_none());
    assert_eq!(ctx.node_state.len(), 0);
    assert_eq!(ctx.get_master_node_addr(), None);
}

#[test]
fn reports_refresh_liveness_and_load() {
    let mut ctx = AppContext::new();
    let m = node(5000, NodeType::Master);
    register(&mut ctx, &m, 10);
    report(&mut ctx, &m, 0.25, 500);
    let st = ctx.node_state.get(&m.get_key()).unwrap();
    assert_eq!(st.last_heartbeat_time, 500);
    assert_eq!(f32::from_bits(st.state_info.load_factor_bits), 0.25);
    // a report from an unknown node changes nothing
    let other = node(9000, NodeType::Slave);
    report(&mut ctx, &other, 0.1, 600);
    assert_eq!(ctx.node_state.len(), 1);
}

#[test]
fn silent_nodes_are_dropped() {
    let mut ctx = AppContext::new();
    let m = node(5000, NodeType::Master);
    let s1 = node(6000, NodeType::Slave);
    let s2 = node(7000, NodeType::Slave);
    register(&mut ctx, &m, 0);
    register(&mut ctx, &s1, 0);
    register(&mut ctx, &s2, 0);
    report(&mut ctx, &m, 0.1, 4000);
    report(&mut ctx, &s1, 0.1, 4000);
    // exactly 5000 ms of silence is still alive
    let cmds = ctx.heartbeat_check_at(5000).unwrap();
    assert!(cmds.is_empty());
    assert_eq!(ctx.node_list.len(), 3);
    // s2 has been silent for 5001 ms
    let cmds = ctx.heartbeat_check_at(5001).unwrap();
    assert!(cmds.is_empty());
    assert_eq!(ctx.node_list.len(), 2);
    assert!(!ctx.node_list.contains_key(&s2.get_key()));
    assert!(!ctx.node_state.contains_key(&s2.get_key()));
    assert!(ctx.get_master().is_some());
}

#[test]
fn losing_the_master_elects_the_least_loaded_node() {
    let mut ctx = AppContext::new();
    let m = node(5000, NodeType::Master);
    let s1 = node(6000, NodeType::Slave);
    let s2 = node(7000, NodeType::Slave);
    let s3 = node(8000, NodeType::Slave);
    register(&mut ctx, &m, 0);
    register(&mut ctx, &s1, 0);
    register(&mut ctx, &s2, 0);
    register(&mut ctx, &s3, 0);
    report(&mut ctx, &s1, 0.5, 9000);
    report(&mut ctx, &s2, 0.25, 9000);
    report(&mut ctx, &s3, 0.75, 9000);
    let cmds = ctx.heartbeat_check_at(10000).unwrap();
    assert!(ctx.get_master().is_none());
    assert_eq!(ctx.node_list.len(), 3);
    assert_eq!(cmds.len(), 3);
    match &cmds[0] {
        ClusterCommand::ConvertToMaster { peer, client_id } => {
            assert_eq!(client_id, "127.0.0.1:7000");
            assert_eq!(peer, &b"127.0.0.1:7000".to_vec());
        }
        _ => panic!("the first command converts the new master"),
    }
    let mut targets = vec![];
    for c in &cmds[1..] {
        match c {
            ClusterCommand::ChangeMaster { peer, target, client_id, master } => {
                assert_eq!(client_id, "127.0.0.1:7000");
                assert_eq!(master.get_key(), "127.0.0.1:7000");
                assert_eq!(peer, &target.clone().into_bytes());
                targets.push(target.clone());
            }
            _ => panic!("the other commands announce the new master"),
        }
    }
    targets.sort();
    assert_eq!(targets, vec!["127.0.0.1:6000".to_string(), "127.0.0.1:8000".to_string()]);
}

#[test]
fn an_election_without_nodes_sends_nothing() {
    let mut ctx = AppContext::new();
    let m = node(5000, NodeType::Master);
    register(&mut ctx, &m, 0);
    let cmds = ctx.heartbeat_check_at(100000).unwrap();
    assert!(cmds.is_empty());
    assert!(ctx.get_master().is_none());
    assert_eq!(ctx.node_list.len(), 0);
    assert!(ctx.elect_master().unwrap().is_empty());
}

#[test]
fn least_loaded_node() {
    let mut states: KeyedTable<NodeState> = KeyedTable::new();
    let mut nodes: KeyedTable<NodeInfo> = KeyedTable::new();
    assert!(get_min_load_node(&states, &nodes).is_none());
    let a = node(1000, NodeType::Slave);
    let b = node(2000, NodeType::Slave);
    nodes.insert(a.get_key(), a.clone());
    nodes.insert(b.get_key(), b.clone());
    // no state at all: the node under the empty key, which there is not
    assert!(get_min_load_node(&states, &nodes).is_none());
    states.insert(a.get_key(), NodeState { last_heartbeat_time: 0, state_info: load(0.6) });
    states.insert(b.get_key(), NodeState { last_heartbeat_time: 0, state_info: load(0.4) });
    assert_eq!(get_min_load_node(&states, &nodes).unwrap().get_key(), b.get_key());
    states.insert(a.get_key(), NodeState { last_heartbeat_time: 0, state_info: load(0.1) });
    assert_eq!(get_min_load_node(&states, &nodes).unwrap().get_key(), a.get_key());
}

#[test]
fn load_balancing_for_clients() {
    let mut ctx = AppContext::new();
    assert!(matches!(ctx.get_load_banlance_connection(), Ok(None)));
    let m = node(5000, NodeType::Master);
    register(&mut ctx, &m, 0);
    // one node: it, master or not
    assert_eq!(ctx.get_load_banlance_connection().unwrap().unwrap().get_key(), m.get_key());
    let s1 = node(6000, NodeType::Slave);
    let s2 = node(7000, NodeType::Slave);
    register(&mut ctx, &s1, 0);
    register(&mut ctx, &s2, 0);
    report(&mut ctx, &m, 0.0, 1);
    report(&mut ctx, &s1, 0.5, 1);
    report(&mut ctx, &s2, 0.3, 1);
    // the master is never handed out, even when it is the least loaded
    assert_eq!(ctx.get_load_banlance_connection().unwrap().unwrap().get_key(), s2.get_key());
    // a full node is not handed out
    report(&mut ctx, &s1, 1.0, 2);
    report(&mut ctx, &s2, 1.5, 2);
    assert!(matches!(ctx.get_load_banlance_connection(), Ok(None)));
}

#[test]
fn at_most_one_master() {
    let mut ctx = AppContext::new();
    let m = node(5000, NodeType::Master);
    let s1 = node(6000, NodeType::Slave);
    register(&mut ctx, &m, 0);
    register(&mut ctx, &s1, 0);
    register(&mut ctx, &node(7000, NodeType::Master), 0);
    let masters = ctx.nodes().iter().filter(|n| n.node_type == NodeType::Master).count();
    assert_eq!(masters, 1);
    report(&mut ctx, &s1, 0.2, 7000);
    assert_eq!(ctx.heartbeat_check_at(8000).unwrap().len(), 1);
    // once the master is gone a new master may register
    assert_eq!(register(&mut ctx, &node(7000, NodeType::Master), 8000), Some((true, None)));
    let masters = ctx.nodes().iter().filter(|n| n.node_type == NodeType::Master).count();
    assert_eq!(masters, 1);
}

#[test]
fn a_reporting_node_survives_the_next_check() {
    let mut ctx = AppContext::new();
    let m = node(5000, NodeType::Master);
    register(&mut ctx, &m, 0);
    report(&mut ctx, &m, 0.5, 20_000);
    assert!(ctx.heartbeat_check_at(25_000).unwrap().is_empty());
    assert!(ctx.get_master().is_some());
    assert_eq!(ctx.node_list.len(), 1);
}

#[test]
fn a_node_registered_under_another_id_is_still_handed_out_alone() {
    let mut ctx = AppContext::new();
    let m = node(5000, NodeType::Master);
    let r = ctx.handle_msg_at("x".to_string(), RegistryRequest::Register(Some(m.clone())), vec![7], 0);
    assert_eq!(r.map(|r| r.is_success), Some(true));
    assert_eq!(ctx.get_load_banlance_connection().unwrap().unwrap().get_key(), m.get_key());
}

#[test]
fn an_election_only_needs_the_connections_it_uses() {
    let mut ctx = AppContext::new();
    let m = node(5000, NodeType::Master);
    let s1 = node(6000, NodeType::Slave);
    register(&mut ctx, &m, 0);
    register(&mut ctx, &s1, 0);
    // a slave registered under an id other than its key, more loaded than s1
    let odd = node(7000, NodeType::Slave);
    ctx.handle_msg_at("odd".to_string(), RegistryRequest::Register(Some(odd)), b"odd".to_vec(), 0);
    report(&mut ctx, &s1, 0.2, 9000);
    ctx.handle_msg_at("odd".to_string(), RegistryRequest::Report(Some(load(0.7))), vec![], 9000);
    let cmds = ctx.heartbeat_check_at(10000).unwrap();
    assert_eq!(cmds.len(), 2);
    match &cmds[1] {
        ClusterCommand::ChangeMaster { peer, target, .. } => {
            assert_eq!(target, "odd");
            assert_eq!(peer, &b"odd".to_vec());
        }
        _ => panic!("the second command announces the new master"),
    }
}

#[test]
fn an_election_without_the_elected_nodes_connection_fails() {
    let mut ctx = AppContext::new();
    let m = node(5000, NodeType::Master);
    let s1 = node(6000, NodeType::Slave);
    register(&mut ctx, &m, 0);
    // s1 is registered under an id other than its key: its key has no connection
    ctx.handle_msg_at("odd".to_string(), RegistryRequest::Register(Some(s1.clone())), b"odd".to_vec(), 0);
    ctx.handle_msg_at("odd".to_string(), RegistryRequest::Report(Some(load(0.1))), vec![], 9000);
    assert_eq!(ctx.heartbeat_check_at(10000).err(), Some(s1.get_key()));
    assert!(ctx.get_master().is_none());
    assert_eq!(ctx.node_list.len(), 1);
}

#[test]
fn load_balancing_without_a_master_or_a_record() {
    let mut ctx = AppContext::new();
    let m = node(5000, NodeType::Master);
    let s1 = node(6000, NodeType::Slave);
    let s2 = node(7000, NodeType::Slave);
    register(&mut ctx, &m, 0);
    register(&mut ctx, &s1, 0);
    register(&mut ctx, &s2, 0);
    report(&mut ctx, &s1, 0.2, 9000);
    report(&mut ctx, &s2, 0.4, 9000);
    assert!(ctx.heartbeat_check_at(10000).is_ok());
    // two nodes are left and none is the master yet
    assert!(matches!(ctx.get_load_banlance_connection(), Err(LoadBalanceError::NoMaster)));

    let mut ctx = AppContext::new();
    register(&mut ctx, &m, 0);
    // the least loaded candidate is registered under an id other than its key
    ctx.handle_msg_at("odd".to_string(), RegistryRequest::Register(Some(s1.clone())), vec![], 0);
    assert!(matches!(ctx.get_load_banlance_connection(), Err(LoadBalanceError::NoLoadRecord)));
}
