use game_cluster::config::Mode;
use game_cluster::message::{Message, Operation, RegisterResp};
use game_cluster::node::{NodeInfo, NodeType};
use game_cluster::server::{
    handle_operation, handle_resp_from_registry_center, ClientMap, HeartbeatTable, LoginOutcome, OfflineFollowUp,
    RegistryReplyAction, Route, ServerContext,
};

#[test]
fn routing_world_changes() {
    assert_eq!(handle_operation(false, false), Route::SelfWorld);
    assert_eq!(handle_operation(false, true), Route::SelfWorld);
    assert_eq!(handle_operation(true, false), Route::SelfWorld);
    assert_eq!(handle_operation(true, true), Route::ToMaster);
}

#[test]
fn server_roles() {
    let c = ServerContext::default();
    assert_eq!(c.mode, Mode::Single);
    assert!(!c.is_cluster());
    assert_eq!(c.node_type, NodeType::Master);
    let n = NodeInfo {
        node_addr: "10.0.0.2".to_string(),
        main_channel_port: 7000,
        heartbeat_port: 7001,
        pub_port: 7002,
        node_type: NodeType::Slave,
    };
    let mut c = ServerContext::new_by_config(Mode::Cluster, n);
    assert!(c.is_cluster());
    assert_eq!(c.node_type, NodeType::Slave);
    assert_eq!(c.master_node.get_key(), "10.0.0.2:7000");
    c.convert_self_to_master();
    assert_eq!(c.node_type, NodeType::Master);
    assert_eq!(c.self_node_info.node_type, NodeType::Master);
    assert_eq!(c.self_node_info.pub_port, 7002);
}

#[test]
fn logging_in_and_out() {
    let mut m = ClientMap::new();
    assert!(m.login_as("c1".to_string(), 7));
    assert!(!m.login_as("c1".to_string(), 8));
    assert_eq!(m.user_of(&"c1".to_string()), Some(7));
    let out = m.login("c2".to_string());
    let u = match out {
        LoginOutcome::LoggedIn(u) => u,
        LoginOutcome::AlreadyLoggedIn => panic!("c2 was not logged in"),
    };
    assert_eq!(m.user_of(&"c2".to_string()), Some(u));
    assert_eq!(m.login("c2".to_string()), LoginOutcome::AlreadyLoggedIn);
    assert_eq!(m.len(), 2);
    assert_eq!(m.logout(&"c1".to_string()), Some(7));
    assert_eq!(m.logout(&"c1".to_string()), None);
    assert_eq!(m.len(), 1);
}

#[test]
fn offline_clients() {
    let mut m = ClientMap::new();
    m.login_as("c1".to_string(), 1);
    m.login_as("c2".to_string(), 2);
    assert_eq!(m.remove_offline_client(&"c1".to_string(), NodeType::Master), OfflineFollowUp::RemoveFromWorld(1));
    assert_eq!(m.remove_offline_client(&"c2".to_string(), NodeType::Slave), OfflineFollowUp::TellMaster(2));
    assert_eq!(m.remove_offline_client(&"c3".to_string(), NodeType::Slave), OfflineFollowUp::Nothing);
    assert_eq!(m.len(), 0);
}

#[test]
fn heartbeats() {
    let mut t = HeartbeatTable::new();
    let pong = t.handle_ping_at(&Message::ping("a"), 100);
    assert_eq!(pong.operation, Operation::Pong);
    assert_eq!(pong.client_id, "a");
    t.handle_ping_at(&Message::ping("b"), 200);
    t.handle_ping_at(&Message::ping("c"), 300);
    t.handle_ping_at(&Message::ping("a"), 400);
    assert_eq!(t.len(), 3);
    // at 1300 with a timeout of 1000: b (1100 ms silent) is offline, c (1000 ms) is not
    let off = t.collect_offline_at(1300, 1000);
    assert_eq!(off, vec!["b".to_string()]);
    assert_eq!(t.len(), 2);
    let mut off = t.collect_offline_at(5000, 1000);
    off.sort();
    assert_eq!(off, vec!["a".to_string(), "c".to_string()]);
    assert_eq!(t.len(), 0);
    let pong = t.handle_ping(&Message::ping("z"));
    assert_eq!(pong.client_id, "z");
    assert_eq!(t.len(), 1);
    assert!(t.collect_offline(i64::MAX).is_empty());
}

#[test]
fn answers_from_the_registry_center() {
    let ok = RegisterResp::success();
    let no = RegisterResp::fail("already register");
    assert_eq!(handle_resp_from_registry_center(Operation::RegisterResp, Some(&ok)), RegistryReplyAction::Registered);
    assert_eq!(handle_resp_from_registry_center(Operation::RegisterResp, Some(&no)), RegistryReplyAction::Exit);
    assert_eq!(handle_resp_from_registry_center(Operation::ConvertToMaster, None), RegistryReplyAction::ConvertToMaster);
    assert_eq!(handle_resp_from_registry_center(Operation::ChangeMaster, None), RegistryReplyAction::ChangeMaster);
    assert_eq!(handle_resp_from_registry_center(Operation::Pong, None), RegistryReplyAction::Ignore);
}

#[test]
fn logout_undoes_login() {
    let mut m = ClientMap::new();
    m.login_as("keep".to_string(), 1);
    assert!(m.login_as("c".to_string(), 99));
    assert_eq!(m.logout(&"c".to_string()), Some(99));
    assert_eq!(m.len(), 1);
    assert_eq!(m.user_of(&"keep".to_string()), Some(1));
    assert_eq!(m.user_of(&"c".to_string()), None);
}

#[test]
fn a_pinging_client_survives_the_sweep() {
    let mut t = HeartbeatTable::new();
    t.handle_ping_at(&Message::ping("a"), 0);
    t.handle_ping_at(&Message::ping("a"), 10_000);
    assert!(t.collect_offline_at(13_000, 3_000).is_empty());
    assert_eq!(t.collect_offline_at(13_001, 3_000), vec!["a".to_string()]);
}
