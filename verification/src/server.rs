//! A game server's own bookkeeping: its role in the cluster, which client
//! plays which user, the clients' heartbeats, and how it routes operations
//! and answers the registry center.
use vstd::prelude::*;
use crate::config::Mode;
use crate::message::{bare_message, Message, Operation, RegisterResp};
use crate::node::{NodeInfo, NodeType};
use crate::outside::{next_generated_id, timestamp_millis_now};
use crate::table::{key_set, KeyedTable};

verus! {

/// The server's role and the nodes it knows.
pub struct ServerContext {
    pub mode: Mode,
    pub self_node_info: NodeInfo,
    pub node_type: NodeType,
    /// The master's addresses (the node's own, until it learns otherwise).
    pub master_node: NodeInfo,
}

impl ServerContext {
    /// A single server that is its own master, with default addresses.
    pub fn default() -> (c: Self)
        ensures
            c.mode == Mode::Single,
            c.node_type == NodeType::Master,
            c.self_node_info.node_addr@ == Seq::<char>::empty(),
            c.self_node_info.main_channel_port == 0,
            c.self_node_info.heartbeat_port == 0,
            c.self_node_info.pub_port == 0,
            c.self_node_info.node_type == NodeType::Master,
            c.master_node == c.self_node_info,
    {
        let info = NodeInfo::default();
        ServerContext {
            mode: Mode::Single,
            self_node_info: info.clone(),
            node_type: NodeType::Master,
            master_node: info,
        }
    }

    /// The context a configuration gives: its mode, its node (which is also
    /// taken as the master until the node learns otherwise) and that node's
    /// role.
    pub fn new_by_config(mode: Mode, node: NodeInfo) -> (c: Self)
        ensures
            c.mode == mode,
            c.self_node_info == node,
            c.node_type == node.node_type,
            c.master_node == node,
    {
        let node_type = node.node_type;
        ServerContext { mode, self_node_info: node.clone(), node_type, master_node: node }
    }

    /// Whether the server runs as a node of a cluster.
    pub fn is_cluster(&self) -> (b: bool)
        ensures
            b == (self.mode == Mode::Cluster),
    {
        self.mode == Mode::Cluster
    }

    /// Makes this node the master, in its role and in its own node record.
    pub fn convert_self_to_master(&mut self)
        ensures
            final(self).node_type == NodeType::Master,
            final(self).self_node_info == (NodeInfo { node_type: NodeType::Master, ..old(self).self_node_info }),
            final(self).mode == old(self).mode,
            final(self).master_node == old(self).master_node,
    {
        self.self_node_info.node_type = NodeType::Master;
        self.node_type = NodeType::Master;
    }
}

/// The kind of user a server creates: one that stands still, or one that
/// roams at a random velocity.
#[derive(Clone, Copy, Debug, PartialEq, Eq, Structural)]
pub enum UserType {
    NoVelocity,
    Global,
}

/// Where an operation that changes the world is carried out.
#[derive(Clone, Copy, Debug, PartialEq, Eq, Structural)]
pub enum Route {
    /// In this server's own world.
    SelfWorld,
    /// Forwarded to the master, as a slave does.
    ToMaster,
}

/// A slave of a cluster forwards a world-changing operation to its master;
/// a master, and a server that runs alone, carries it out itself.
pub fn handle_operation(is_cluster: bool, is_slave: bool) -> (r: Route)
    ensures
        r == (if is_cluster && is_slave { Route::ToMaster } else { Route::SelfWorld }),
{
    if is_cluster {
        if is_slave {
            Route::ToMaster
        } else {
            Route::SelfWorld
        }
    } else {
        Route::SelfWorld
    }
}

/// The id `j` places above `i64::MIN`.
pub open spec fn id_from_floor(j: int) -> i64 {
    (j + i64::MIN) as i64
}

/// Among the `n + 1` users `i64::MIN`, `i64::MIN + 1`, ..., `i64::MIN + n`
/// there is one that none of the `n` entries of a client map plays.
proof fn lemma_room_for_another_user(m: Map<Seq<char>, i64>, es: Seq<(Seq<char>, i64)>, n: int)
    requires
        n == es.len(),
        n <= u64::MAX,
        forall|j: int| #![trigger es[j]] 0 <= j < es.len() ==> m.dom().contains(es[j].0) && m[es[j].0] == es[j].1,
        forall|k: Seq<char>| #[trigger] m.dom().contains(k) ==> exists|j: int| 0 <= j < es.len() && es[j].0 == k,
    ensures
        exists|j: int| 0 <= j < n + 1 && !m.values().contains(#[trigger] id_from_floor(j)),
{
    if forall|j: int| 0 <= j < n + 1 ==> m.values().contains(#[trigger] id_from_floor(j)) {
        let q = es.map_values(|e: (Seq<char>, i64)| e.1 - i64::MIN);
        let range = vstd::set_lib::set_int_range(0, n + 1);
        assert forall|j: int| #[trigger] range.contains(j) implies q.to_set().contains(j) by {
            assert(m.values().contains(id_from_floor(j)));
            let k = choose|k: Seq<char>| m.dom().contains(k) && m[k] == id_from_floor(j);
            let i = choose|i: int| 0 <= i < es.len() && es[i].0 == k;
            assert(es[i] == es[i]);
            assert(q[i] == j);
        }
        vstd::set_lib::lemma_int_range(0, n + 1);
        q.lemma_cardinality_of_set();
        vstd::seq_lib::seq_to_set_is_finite(q);
        vstd::set_lib::lemma_len_subset(range, q.to_set());
    }
}

/// Which user each logged-in client plays, by client id.
pub struct ClientMap {
    pub clients: KeyedTable<i64>,
}

impl View for ClientMap {
    type V = Map<Seq<char>, i64>;

    open spec fn view(&self) -> Map<Seq<char>, i64> {
        self.clients@
    }
}

/// What logging a client in came to.
#[derive(Clone, Copy, Debug, PartialEq, Eq, Structural)]
pub enum LoginOutcome {
    /// The client had logged in before; nothing changed.
    AlreadyLoggedIn,
    /// The client now plays a new user with this id.
    LoggedIn(i64),
}

/// What follows when a client stops sending heartbeats.
#[derive(Clone, Copy, Debug, PartialEq, Eq, Structural)]
pub enum OfflineFollowUp {
    /// A master removes the client's user from its world.
    RemoveFromWorld(i64),
    /// A slave asks its master to remove the client's user.
    TellMaster(i64),
    /// The client had not logged in.
    Nothing,
}

impl ClientMap {
    /// No client logged in.
    pub fn new() -> (m: Self)
        ensures
            m@ == Map::<Seq<char>, i64>::empty(),
    {
        ClientMap { clients: KeyedTable::new() }
    }

    /// The user that `client_id` plays, if it logged in.
    pub fn user_of(&self, client_id: &String) -> (r: Option<i64>)
        ensures
            r == self@.get(client_id@),
    {
        match self.clients.get(client_id) {
            Some(u) => Some(*u),
            None => None,
        }
    }

    /// The number of logged-in clients.
    pub fn len(&self) -> (n: usize)
        ensures
            n == self.clients.entries().len(),
    {
        self.clients.len()
    }

    /// Logs `client_id` in as the user `user_id`, unless it is logged in
    /// already; says whether it logged in now.
    pub fn login_as(&mut self, client_id: String, user_id: i64) -> (b: bool)
        ensures
            b == !old(self)@.dom().contains(client_id@),
            b ==> final(self)@ == old(self)@.insert(client_id@, user_id),
            !b ==> final(self)@ == old(self)@,
    {
        if self.clients.contains_key(&client_id) {
            false
        } else {
            self.clients.insert(client_id, user_id);
            true
        }
    }

    /// Logs `client_id` in as a new user, unless it is logged in already.
    /// The user's id is the id generator's next id; should that be an id a
    /// logged-in client already plays, an unused one takes its place, so
    /// that no two clients ever play the same user.
    pub fn login(&mut self, client_id: String) -> (r: LoginOutcome)
        ensures
            old(self)@.dom().contains(client_id@) ==> r == LoginOutcome::AlreadyLoggedIn && final(self)@ == old(self)@,
            !old(self)@.dom().contains(client_id@) ==> (r matches LoginOutcome::LoggedIn(u)
                && final(self)@ == old(self)@.insert(client_id@, u)),
            r matches LoginOutcome::LoggedIn(u) ==> !old(self)@.values().contains(u),
    {
        if self.clients.contains_key(&client_id) {
            return LoginOutcome::AlreadyLoggedIn;
        }
        let generated = next_generated_id();
        let user_id = self.fresh_user_id(generated);
        self.clients.insert(client_id, user_id);
        LoginOutcome::LoggedIn(user_id)
    }

    /// Whether some logged-in client plays the user `user_id`.
    fn has_user(&self, user_id: i64) -> (b: bool)
        ensures
            b == self@.values().contains(user_id),
    {
        proof {
            use_type_invariant(&self.clients);
            self.clients.lemma_view();
        }
        let ghost es = self.clients.entries();
        let mut i: usize = 0;
        let n = self.clients.len();
        while i < n
            invariant
                n == es.len(),
                es == self.clients.entries(),
                i <= n,
                forall|j: int| #![trigger es[j]] 0 <= j < es.len() ==> self@.dom().contains(es[j].0) && self@[es[j].0] == es[j].1,
                forall|k: Seq<char>| #[trigger] self@.dom().contains(k) ==> exists|j: int| 0 <= j < es.len() && es[j].0 == k,
                forall|j: int| #![trigger es[j]] 0 <= j < i ==> es[j].1 != user_id,
            decreases n - i,
        {
            if *self.clients.value_at(i) == user_id {
                proof {
                    assert(es[i as int] == es[i as int]);
                    assert(self@.dom().contains(es[i as int].0) && self@[es[i as int].0] == user_id);
                }
                return true;
            }
            proof {
                assert(es[i as int] == es[i as int]);
            }
            i = i + 1;
        }
        proof {
            if self@.values().contains(user_id) {
                let k = choose|k: Seq<char>| self@.dom().contains(k) && self@[k] == user_id;
                let j = choose|j: int| 0 <= j < es.len() && es[j].0 == k;
                assert(es[j] == es[j]);
            }
        }
        false
    }

    /// `candidate`, where no logged-in client plays that user; else an id
    /// that none plays, the first free one counting up from `i64::MIN`.
    fn fresh_user_id(&self, candidate: i64) -> (u: i64)
        ensures
            !self@.values().contains(u),
            !self@.values().contains(candidate) ==> u == candidate,
    {
        if !self.has_user(candidate) {
            return candidate;
        }
        proof {
            use_type_invariant(&self.clients);
            self.clients.lemma_view();
        }
        let ghost es = self.clients.entries();
        let n = self.clients.len();
        let mut c: u128 = 0;
        while c <= n as u128
            invariant
                n == es.len(),
                es == self.clients.entries(),
                c <= n + 1,
                self@.values().contains(candidate),
                forall|j: int| #![trigger es[j]] 0 <= j < es.len() ==> self@.dom().contains(es[j].0) && self@[es[j].0] == es[j].1,
                forall|k: Seq<char>| #[trigger] self@.dom().contains(k) ==> exists|j: int| 0 <= j < es.len() && es[j].0 == k,
                forall|j: int| 0 <= j < c ==> self@.values().contains(#[trigger] id_from_floor(j)),
            decreases n + 1 - c,
        {
            let cand = (c as i128 + i64::MIN as i128) as i64;
            proof {
                assert(cand == id_from_floor(c as int));
            }
            if !self.has_user(cand) {
                return cand;
            }
            c = c + 1;
        }
        proof {
            lemma_room_for_another_user(self@, es, n as int);
            let j = choose|j: int| 0 <= j < n + 1 && !self@.values().contains(#[trigger] id_from_floor(j));
            assert(self@.values().contains(id_from_floor(j)));
        }
        candidate
    }

    /// Logs `client_id` out: forgets it and gives back the user it played.
    pub fn logout(&mut self, client_id: &String) -> (r: Option<i64>)
        ensures
            r == old(self)@.get(client_id@),
            final(self)@ == old(self)@.remove(client_id@),
    {
        self.clients.remove(client_id)
    }

    /// Forgets a client that stopped sending heartbeats and says what
    /// follows for its user, by the server's role.
    pub fn remove_offline_client(&mut self, client_id: &String, node_type: NodeType) -> (r: OfflineFollowUp)
        ensures
            final(self)@ == old(self)@.remove(client_id@),
            r == match old(self)@.get(client_id@) {
                Some(u) => if node_type == NodeType::Master {
                    OfflineFollowUp::RemoveFromWorld(u)
                } else {
                    OfflineFollowUp::TellMaster(u)
                },
                None => OfflineFollowUp::Nothing,
            },
    {
        match self.logout(client_id) {
            Some(u) => match node_type {
                NodeType::Master => OfflineFollowUp::RemoveFromWorld(u),
                NodeType::Slave => OfflineFollowUp::TellMaster(u),
            },
            None => OfflineFollowUp::Nothing,
        }
    }
}

/// When each client last sent a heartbeat, by client id, in milliseconds.
pub struct HeartbeatTable {
    pub last_seen: KeyedTable<i64>,
}

impl View for HeartbeatTable {
    type V = Map<Seq<char>, i64>;

    open spec fn view(&self) -> Map<Seq<char>, i64> {
        self.last_seen@
    }
}

/// The clients that have been silent for more than `timeout` at `now`.
pub open spec fn silent_clients(m: Map<Seq<char>, i64>, now: i64, timeout: i64) -> Set<Seq<char>> {
    Set::new(|k: Seq<char>| m.dom().contains(k) && now - m[k] > timeout)
}

impl HeartbeatTable {
    /// No heartbeat yet.
    pub fn new() -> (t: Self)
        ensures
            t@ == Map::<Seq<char>, i64>::empty(),
    {
        HeartbeatTable { last_seen: KeyedTable::new() }
    }

    /// The number of clients that keep sending heartbeats.
    pub fn len(&self) -> (n: usize)
        ensures
            n == self.last_seen.entries().len(),
    {
        self.last_seen.len()
    }

    /// Records a heartbeat (a ping) at `now` and gives the answer to it.
    pub fn handle_ping_at(&mut self, ping: &Message, now: i64) -> (pong: Message)
        ensures
            final(self)@ == old(self)@.insert(ping.client_id@, now),
            pong@ == bare_message(ping.client_id@, Operation::Pong),
    {
        self.last_seen.insert(ping.client_id.clone(), now);
        Message::pong(ping.client_id.as_str())
    }

    /// Records a heartbeat (a ping) at the time the wall clock gives and
    /// gives the answer to it.
    pub fn handle_ping(&mut self, ping: &Message) -> (pong: Message)
        ensures
            exists|now: i64| final(self)@ == #[trigger] old(self)@.insert(ping.client_id@, now),
            pong@ == bare_message(ping.client_id@, Operation::Pong),
    {
        let now = timestamp_millis_now();
        self.handle_ping_at(ping, now)
    }

    /// Forgets the clients that have been silent for more than `timeout`
    /// milliseconds at `now` and gives back their ids, each once.
    pub fn collect_offline_at(&mut self, now: i64, timeout: i64) -> (r: Vec<String>)
        ensures
            final(self)@ == old(self)@.remove_keys(silent_clients(old(self)@, now, timeout)),
            key_set(r@) == silent_clients(old(self)@, now, timeout),
            forall|a: int, b: int| 0 <= a < b < r@.len() ==> r@[a]@ != r@[b]@,
    {
        proof {
            use_type_invariant(&self.last_seen);
            self.last_seen.lemma_view();
        }
        let ghost m = self@;
        let ghost es = self.last_seen.entries();
        let mut del: Vec<String> = Vec::new();
        let mut i: usize = 0;
        let n = self.last_seen.len();
        while i < n
            invariant
                n == es.len(),
                es == self.last_seen.entries(),
                m == self@,
                i <= n,
                crate::table::keys_unique(es),
                forall|k: Seq<char>| key_set(del@).contains(k) <==> exists|e: int| #![trigger es[e]] 0 <= e < i && es[e].0 == k && now - es[e].1 > timeout,
                forall|a: int| #![trigger del@[a]] 0 <= a < del@.len() ==> exists|e: int| #![trigger es[e]] 0 <= e < i && es[e].0 == del@[a]@,
                forall|a: int, b: int| 0 <= a < b < del@.len() ==> del@[a]@ != del@[b]@,
            decreases n - i,
        {
            let k = self.last_seen.key_at(i);
            let t = *self.last_seen.value_at(i);
            if (now as i128) - (t as i128) > (timeout as i128) {
                let ghost old_del = del@;
                del.push(k.clone());
                proof {
                    assert forall|kk: Seq<char>| key_set(del@).contains(kk) <==> exists|e: int| #![trigger es[e]] 0 <= e < i + 1 && es[e].0 == kk && now - es[e].1 > timeout by {
                        if key_set(del@).contains(kk) {
                            let a = choose|a: int| #![trigger del@[a]] 0 <= a < del@.len() && del@[a]@ == kk;
                            if a < old_del.len() {
                                assert(old_del[a] == del@[a]);
                                assert(key_set(old_del).contains(kk));
                            } else {
                                assert(es[i as int].0 == kk);
                            }
                        }
                        if exists|e: int| #![trigger es[e]] 0 <= e < i + 1 && es[e].0 == kk && now - es[e].1 > timeout {
                            let e = choose|e: int| #![trigger es[e]] 0 <= e < i + 1 && es[e].0 == kk && now - es[e].1 > timeout;
                            if e < i {
                                assert(key_set(old_del).contains(kk));
                                let a = choose|a: int| #![trigger old_del[a]] 0 <= a < old_del.len() && old_del[a]@ == kk;
                                assert(del@[a] == old_del[a]);
                            } else {
                                assert(del@[old_del.len() as int]@ == kk);
                            }
                        }
                    }
                    assert forall|a: int| #![trigger del@[a]] 0 <= a < del@.len() implies exists|e: int| #![trigger es[e]] 0 <= e < i + 1 && es[e].0 == del@[a]@ by {
                        if a < old_del.len() {
                            assert(old_del[a] == del@[a]);
                        } else {
                            assert(es[i as int].0 == del@[a]@);
                        }
                    }
                    assert forall|a: int, b: int| 0 <= a < b < del@.len() implies del@[a]@ != del@[b]@ by {
                        if b == old_del.len() {
                            assert(old_del[a] == del@[a]);
                            let e = choose|e: int| #![trigger es[e]] 0 <= e < i && es[e].0 == old_del[a]@;
                            assert(es[e].0 != es[i as int].0);
                        } else {
                            assert(old_del[a] == del@[a]);
                            assert(old_del[b] == del@[b]);
                        }
                    }
                }
            } else {
                proof {
                    assert forall|kk: Seq<char>| key_set(del@).contains(kk) <==> exists|e: int| #![trigger es[e]] 0 <= e < i + 1 && es[e].0 == kk && now - es[e].1 > timeout by {
                        if exists|e: int| #![trigger es[e]] 0 <= e < i + 1 && es[e].0 == kk && now - es[e].1 > timeout {
                            let e = choose|e: int| #![trigger es[e]] 0 <= e < i + 1 && es[e].0 == kk && now - es[e].1 > timeout;
                            if e == i {
                                assert(!(now - es[i as int].1 > timeout));
                            }
                        }
                    }
                }
            }
            i = i + 1;
        }
        proof {
            assert(key_set(del@) =~= silent_clients(m, now, timeout)) by {
                assert forall|k: Seq<char>| key_set(del@).contains(k) implies silent_clients(m, now, timeout).contains(k) by {
                    let e = choose|e: int| #![trigger es[e]] 0 <= e < n && es[e].0 == k && now - es[e].1 > timeout;
                    assert(es[e] == es[e]);
                }
                assert forall|k: Seq<char>| silent_clients(m, now, timeout).contains(k) implies key_set(del@).contains(k) by {
                    let e = choose|e: int| 0 <= e < es.len() && es[e].0 == k;
                    assert(es[e] == es[e]);
                }
            }
        }
        self.last_seen.remove_all(&del);
        del
    }

    /// Forgets the clients that have been silent for more than `timeout`
    /// milliseconds, at the time the wall clock gives, and gives back their ids.
    pub fn collect_offline(&mut self, timeout: i64) -> (r: Vec<String>)
        ensures
            exists|now: i64| #![trigger silent_clients(old(self)@, now, timeout)] {
                &&& final(self)@ == old(self)@.remove_keys(silent_clients(old(self)@, now, timeout))
                &&& key_set(r@) == silent_clients(old(self)@, now, timeout)
            },
            forall|a: int, b: int| 0 <= a < b < r@.len() ==> r@[a]@ != r@[b]@,
    {
        let now = timestamp_millis_now();
        self.collect_offline_at(now, timeout)
    }
}

/// What a server does with a message from the registry center.
#[derive(Clone, Copy, Debug, PartialEq, Eq, Structural)]
pub enum RegistryReplyAction {
    /// The registration succeeded: go on.
    Registered,
    /// The registration failed: a cluster node must be registered, so the
    /// server exits.
    Exit,
    /// Become the master.
    ConvertToMaster,
    /// Another node became the master.
    ChangeMaster,
    /// Nothing to do.
    Ignore,
}

/// What a message from the registry center asks of the server, given the
/// registration answer it carries when it is one.
pub fn handle_resp_from_registry_center(operation: Operation, register_resp: Option<&RegisterResp>) -> (a: RegistryReplyAction)
    requires
        operation == Operation::RegisterResp ==> register_resp is Some,
    ensures
        a == match operation {
            Operation::RegisterResp => if register_resp->0.is_success {
                RegistryReplyAction::Registered
            } else {
                RegistryReplyAction::Exit
            },
            Operation::ConvertToMaster => RegistryReplyAction::ConvertToMaster,
            Operation::ChangeMaster => RegistryReplyAction::ChangeMaster,
            _ => RegistryReplyAction::Ignore,
        },
{
    match operation {
        Operation::RegisterResp => {
            match register_resp {
                Some(resp) => if resp.is_success {
                    RegistryReplyAction::Registered
                } else {
                    RegistryReplyAction::Exit
                },
                None => RegistryReplyAction::Exit,
            }
        },
        Operation::ConvertToMaster => RegistryReplyAction::ConvertToMaster,
        Operation::ChangeMaster => RegistryReplyAction::ChangeMaster,
        _ => RegistryReplyAction::Ignore,
    }
}

} // verus!
