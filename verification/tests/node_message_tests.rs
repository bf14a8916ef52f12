use game_cluster::message::{Message, Operation, RegisterResp};
use game_cluster::node::{f32_bits_less, NodeInfo, NodeType, StateInfo};

fn node(addr: &str, port: u16, pub_port: u16, node_type: NodeType) -> NodeInfo {
    NodeInfo {
        node_addr: addr.to_string(),
        main_channel_port: port,
        heartbeat_port: port + 1,
        pub_port,
        node_type,
    }
}

#[test]
fn node_keys_and_addresses() {
    let n = node("127.0.0.1", 5555, 5557, NodeType::Slave);
    assert_eq!(n.get_key(), "127.0.0.1:5555");
    assert_eq!(n.get_pub_addr(), "127.0.0.1:5557");
    let d = NodeInfo::default();
    assert_eq!(d.node_addr, "");
    assert_eq!(d.main_channel_port, 0);
    assert_eq!(d.heartbeat_port, 0);
    assert_eq!(d.pub_port, 0);
    assert_eq!(d.node_type, NodeType::Master);
    assert_eq!(d.get_key(), ":0");
}

#[test]
fn default_load() {
    let s = StateInfo::default();
    assert_eq!(s.max_connection, 0);
    assert_eq!(s.current_connection, 0);
    assert_eq!(f32::from_bits(s.load_factor_bits), 0.9f32);
    assert_eq!(f32::from_bits(s.avg_update_delay_bits), 0.0f32);
    assert_eq!(s.user_count, 0);
}

#[test]
fn comparing_loads_as_f32() {
    let b = |x: f32| x.to_bits();
    assert!(f32_bits_less(b(0.5), b(0.9)));
    assert!(!f32_bits_less(b(0.9), b(0.5)));
    assert!(f32_bits_less(b(-1.0), b(0.5)));
    assert!(f32_bits_less(b(-2.0), b(-1.0)));
    assert!(!f32_bits_less(b(1.0), b(1.0)));
    assert!(!f32_bits_less(b(-0.0), b(0.0)));
    assert!(!f32_bits_less(b(0.0), b(-0.0)));
    assert!(!f32_bits_less(b(f32::NAN), b(1.0)));
    assert!(!f32_bits_less(b(1.0), b(f32::NAN)));
    assert!(f32_bits_less(b(f32::MAX), b(f32::INFINITY)));
    assert!(f32_bits_less(b(f32::NEG_INFINITY), b(f32::MIN)));
    for (x, y) in [(0.25f32, 0.75f32), (3.0, -3.0), (1e-40, 2e-40), (-1e-40, 0.0)] {
        assert_eq!(f32_bits_less(b(x), b(y)), x < y);
    }
}

fn check_bare(m: &Message, client_id: &str, op: Operation) {
    assert_eq!(m.client_id, client_id);
    assert_eq!(m.user_id, None);
    assert_eq!(m.operation, op);
    assert_eq!(m.content, None);
    assert_eq!(m.client_peer_id, None);
}

#[test]
fn plain_messages() {
    check_bare(&Message::ping("c1"), "c1", Operation::Ping);
    check_bare(&Message::pong("c1"), "c1", Operation::Pong);
    check_bare(&Message::login("c2"), "c2", Operation::Login);
    check_bare(&Message::logout("c3"), "c3", Operation::Logout);
    check_bare(&Message::convert_to_master("127.0.0.1:5555"), "127.0.0.1:5555", Operation::ConvertToMaster);
    let d = Message::del_user("127.0.0.1:6666", 42);
    assert_eq!(d.client_id, "127.0.0.1:6666");
    assert_eq!(d.user_id, Some(42));
    assert_eq!(d.operation, Operation::DelUser);
    assert_eq!(d.content, None);
    let r = Message::resp("logout reply");
    assert_eq!(r.client_id, "");
    assert_eq!(r.operation, Operation::Reply);
    assert_eq!(r.content, Some("logout reply".to_string()));
    assert_eq!(r.user_id, None);
}

#[test]
fn setting_the_client_peer() {
    let mut m = Message::login("c");
    let copy = m.set_peer_id(&"peer-1".to_string());
    assert_eq!(m.client_peer_id, Some("peer-1".to_string()));
    assert_eq!(copy.client_peer_id, Some("peer-1".to_string()));
    assert_eq!(copy.client_id, "c");
    assert_eq!(copy.operation, Operation::Login);
    let copy = m.set_peer_id_opt(None);
    assert_eq!(m.client_peer_id, None);
    assert_eq!(copy.client_peer_id, None);
    let copy = m.set_peer_id_opt(Some("p2".to_string()));
    assert_eq!(copy.client_peer_id, Some("p2".to_string()));
}

#[test]
fn registration_answers() {
    let s = RegisterResp::success();
    assert!(s.is_success);
    assert_eq!(s.reason, None);
    let f = RegisterResp::fail("already register");
    assert!(!f.is_success);
    assert_eq!(f.reason, Some("already register".to_string()));
    let n = RegisterResp::new(false, None);
    assert!(!n.is_success);
}
