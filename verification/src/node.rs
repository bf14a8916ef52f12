//! What a server node is to the cluster: its addresses, its role and the
//! load it reports.
use vstd::prelude::*;
use crate::decimal::{nat_digits, push_char, push_nat_decimal};

verus! {

/// The role of a server node in a cluster.
#[derive(Clone, Copy, Debug, PartialEq, Eq, Structural)]
pub enum NodeType {
    Master,
    Slave,
}

/// Where a node listens and which role it has.
#[derive(Debug)]
pub struct NodeInfo {
    pub node_addr: String,
    pub main_channel_port: u16,
    pub heartbeat_port: u16,
    /// The port on which a master publishes its world updates.
    pub pub_port: u16,
    pub node_type: NodeType,
}

/// The text `addr:port`.
pub open spec fn addr_port(addr: Seq<char>, port: u16) -> Seq<char> {
    addr + seq![':'] + nat_digits(port as nat)
}

/// A node's key: the address of its main channel, `node_addr:main_channel_port`.
/// It is also the client id under which the node talks to the registry
/// center and to its master.
pub open spec fn node_key(n: NodeInfo) -> Seq<char> {
    addr_port(n.node_addr@, n.main_channel_port)
}

impl Clone for NodeInfo {
    fn clone(&self) -> (r: Self)
        ensures
            r == *self,
    {
        NodeInfo {
            node_addr: self.node_addr.clone(),
            main_channel_port: self.main_channel_port,
            heartbeat_port: self.heartbeat_port,
            pub_port: self.pub_port,
            node_type: self.node_type,
        }
    }
}

fn addr_port_string(addr: &String, port: u16) -> (s: String)
    ensures
        s@ == addr_port(addr@, port),
{
    let mut s = addr.clone();
    push_char(&mut s, ':');
    push_nat_decimal(&mut s, port as u64);
    proof {
        assert(s@ =~= addr_port(addr@, port));
    }
    s
}

impl NodeInfo {
    /// A master node with an empty address and all ports zero.
    pub fn default() -> (n: Self)
        ensures
            n.node_addr@ == Seq::<char>::empty(),
            n.main_channel_port == 0,
            n.heartbeat_port == 0,
            n.pub_port == 0,
            n.node_type == NodeType::Master,
    {
        NodeInfo {
            node_addr: String::new(),
            main_channel_port: 0,
            heartbeat_port: 0,
            node_type: NodeType::Master,
            pub_port: 0,
        }
    }

    /// The node's key, `node_addr:main_channel_port`.
    pub fn get_key(&self) -> (s: String)
        ensures
            s@ == node_key(*self),
    {
        addr_port_string(&self.node_addr, self.main_channel_port)
    }

    /// The address a master publishes its world updates on, `node_addr:pub_port`.
    pub fn get_pub_addr(&self) -> (s: String)
        ensures
            s@ == addr_port(self.node_addr@, self.pub_port),
    {
        addr_port_string(&self.node_addr, self.pub_port)
    }
}

/// The bit pattern of an `f32` is a NaN.
pub open spec fn f32_bits_is_nan(b: u32) -> bool {
    b % 0x8000_0000 > 0x7f80_0000
}

/// A whole number that orders the `f32` values with bit pattern `b` as `<`
/// orders them, where it orders them: both zeros have the key 0, negative
/// values negative keys.
pub open spec fn f32_bits_key(b: u32) -> int {
    if b >= 0x8000_0000 {
        0x8000_0000 - b
    } else {
        b as int
    }
}

/// `a < b` on the `f32` values with bit patterns `a` and `b`: false when
/// either is a NaN.
pub open spec fn f32_bits_lt(a: u32, b: u32) -> bool {
    !f32_bits_is_nan(a) && !f32_bits_is_nan(b) && f32_bits_key(a) < f32_bits_key(b)
}

/// The bit pattern of `1.0f32`.
pub open spec fn f32_one_bits() -> u32 {
    0x3f80_0000
}

/// The threshold is the float 1.0: every load factor from 0.0 up to, but
/// not including, 1.0 (bit patterns `0` to `0x3f7f_ffff`, with 0.9 at
/// `0x3f66_6666`, and `-0.0` at `0x8000_0000`) lies below it, and none from
/// 1.0 (`0x3f80_0000`) up to infinity (`0x7f80_0000`), nor a NaN, does.
pub proof fn lemma_one_threshold(b: u32)
    ensures
        b < 0x3f80_0000 ==> f32_bits_lt(b, f32_one_bits()),
        b == 0x8000_0000 ==> f32_bits_lt(b, f32_one_bits()),
        0x3f80_0000 <= b <= 0x7f80_0000 ==> !f32_bits_lt(b, f32_one_bits()),
        f32_bits_is_nan(b) ==> !f32_bits_lt(b, f32_one_bits()),
        f32_bits_lt(0x3f66_6666, f32_one_bits()),
{
}

/// Compares two `f32` values given by their bit patterns with `<`.
pub fn f32_bits_less(a: u32, b: u32) -> (r: bool)
    ensures
        r == f32_bits_lt(a, b),
{
    let a_nan = a % 0x8000_0000 > 0x7f80_0000;
    let b_nan = b % 0x8000_0000 > 0x7f80_0000;
    if a_nan || b_nan {
        return false;
    }
    let ka: i64 = if a >= 0x8000_0000 { 0x8000_0000i64 - a as i64 } else { a as i64 };
    let kb: i64 = if b >= 0x8000_0000 { 0x8000_0000i64 - b as i64 } else { b as i64 };
    ka < kb
}

/// The load a node reports. Its two ratios are `f32` values, held here by
/// their bit patterns (`f32::to_bits`), which the registry center only
/// compares.
#[derive(Clone, Copy, Debug)]
pub struct StateInfo {
    /// The most connections the node takes.
    pub max_connection: u32,
    pub current_connection: u32,
    /// The bits of the load factor, `current_connection / max_connection`.
    pub load_factor_bits: u32,
    /// The bits of the average time a world update takes, in milliseconds.
    pub avg_update_delay_bits: u32,
    /// The number of users in the node's world.
    pub user_count: u32,
}

/// The load a node is taken to have before it reports: no connections, no
/// users, a load factor of 0.9 (`0x3f66_6666`) and no delay.
pub open spec fn default_state_info() -> StateInfo {
    StateInfo {
        max_connection: 0,
        current_connection: 0,
        load_factor_bits: 0x3f66_6666,
        avg_update_delay_bits: 0,
        user_count: 0,
    }
}

impl Default for StateInfo {
    /// No connections, no users, a load factor of 0.9 and no delay.
    fn default() -> (s: Self)
        ensures
            s == default_state_info(),
    {
        StateInfo {
            max_connection: 0,
            current_connection: 0,
            load_factor_bits: 0x3f66_6666,
            avg_update_delay_bits: 0,
            user_count: 0,
        }
    }
}

} // verus!
