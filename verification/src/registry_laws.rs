//! What holds of the registry center across its operations.
use vstd::prelude::*;
use crate::node::{f32_bits_lt, f32_one_bits, lemma_one_threshold, node_key, NodeInfo, NodeType};
use crate::registry::{
    NODE_HEARTBEAT_TIMEOUT_MILLIS,
    after_expiry, election_outcome, election_peers_known, expired_keys, handle_spec, is_min_load_key, lemma_node_key_nonempty,
    lemma_peers_cover_after_expiry, load_balance_spec, missing_election_peer, LoadBalanceError, master_lost, min_load_choice,
    node_at, peers_cover, promotion_commands, report_spec, single_key, well_keyed, CommandView, NodeState,
    RegistryRequest, RegistryView,
};

verus! {

/// The registry center's standing invariant: every registered node has a
/// liveness record and a known connection and is registered under its own
/// key; a registered node of master type is the master node, and the master
/// node is registered, under its key, and of master type.
pub open spec fn registry_wf(s: RegistryView) -> bool {
    &&& s.node_list.dom() == s.node_state.dom()
    &&& peers_cover(s)
    &&& well_keyed(s.node_list)
    &&& forall|k: Seq<char>| #[trigger] s.node_list.dom().contains(k) && s.node_list[k].node_type == NodeType::Master
        ==> s.master_node == Some(s.node_list[k])
    &&& s.master_node matches Some(m) ==> s.node_list.dom().contains(node_key(m))
        && s.node_list[node_key(m)] == m && m.node_type == NodeType::Master
}

/// A request as nodes send it: a registration carries the node's own key as
/// its client id.
pub open spec fn keyed_request(id: Seq<char>, request: RegistryRequest) -> bool {
    request matches RegistryRequest::Register(Some(n)) ==> node_key(n) == id
}

/// An empty registry center is well formed.
pub proof fn lemma_empty_registry_wf(s: RegistryView)
    requires
        s.node_list == Map::<Seq<char>, NodeInfo>::empty(),
        s.node_state == Map::<Seq<char>, NodeState>::empty(),
        s.master_node is None,
    ensures
        registry_wf(s),
{
    assert(s.node_list.dom() =~= s.node_state.dom());
}

/// Handling a request from a node keeps the registry well formed.
pub proof fn lemma_handle_preserves_wf(s: RegistryView, id: Seq<char>, request: RegistryRequest, peer: Seq<u8>, now: i64)
    requires
        registry_wf(s),
        keyed_request(id, request),
    ensures
        registry_wf(handle_spec(s, id, request, peer, now).0),
{
    let t = handle_spec(s, id, request, peer, now).0;
    match request {
        RegistryRequest::Register(info) => {
            if !s.node_list.dom().contains(id) {
                if let Some(n) = info {
                    if !(n.node_type == NodeType::Master && s.master_node is Some)
                        && !(n.node_type == NodeType::Slave && s.master_node is None) {
                        assert(t.node_list.dom() =~= t.node_state.dom());
                        assert forall|k: Seq<char>| #[trigger] t.node_list.dom().contains(k) implies t.peers.dom().contains(k)
                            && t.peers.dom().contains(node_key(t.node_list[k])) by {
                            if k != id {
                                assert(s.node_list.dom().contains(k));
                            }
                        }
                        assert forall|k: Seq<char>| #[trigger] t.node_list.dom().contains(k) implies node_key(t.node_list[k]) == k by {
                            if k != id {
                                assert(s.node_list.dom().contains(k));
                            }
                        }
                        assert forall|k: Seq<char>| #[trigger] t.node_list.dom().contains(k) && t.node_list[k].node_type == NodeType::Master
                            implies t.master_node == Some(t.node_list[k]) by {
                            if k != id {
                                assert(s.node_list.dom().contains(k));
                            }
                        }
                        if let Some(m) = s.master_node {
                            assert(node_key(m) != id);
                        }
                    }
                }
            }
        },
        RegistryRequest::Report(info) => {
            if let Some(si) = info {
                if s.node_state.dom().contains(id) {
                    assert(t.node_state.dom() =~= s.node_state.dom());
                }
            }
        },
        RegistryRequest::Other => {},
    }
}

/// Dropping the nodes whose heartbeat expired keeps the registry well formed.
pub proof fn lemma_expiry_preserves_wf(s: RegistryView, now: i64)
    requires
        registry_wf(s),
    ensures
        registry_wf(after_expiry(s, now)),
{
    let t = after_expiry(s, now);
    let gone = expired_keys(s, now);
    assert(t.node_list.dom() =~= t.node_state.dom());
    lemma_peers_cover_after_expiry(s, now);
    assert forall|k: Seq<char>| #[trigger] t.node_list.dom().contains(k) implies node_key(t.node_list[k]) == k by {
        assert(s.node_list.dom().contains(k));
    }
    assert forall|k: Seq<char>| #[trigger] t.node_list.dom().contains(k) && t.node_list[k].node_type == NodeType::Master
        implies t.master_node == Some(t.node_list[k]) by {
        assert(s.node_list.dom().contains(k));
        assert(s.master_node == Some(s.node_list[k]));
        if master_lost(s, now) {
            assert(node_key(s.node_list[k]) == k);
            assert(gone.contains(k));
        }
    }
}

/// In a well formed registry at most one registered node is of master type.
pub proof fn lemma_at_most_one_master(s: RegistryView, k1: Seq<char>, k2: Seq<char>)
    requires
        registry_wf(s),
        s.node_list.dom().contains(k1),
        s.node_list.dom().contains(k2),
        s.node_list[k1].node_type == NodeType::Master,
        s.node_list[k2].node_type == NodeType::Master,
    ensures
        k1 == k2,
{
    assert(s.master_node == Some(s.node_list[k1]));
    assert(s.master_node == Some(s.node_list[k2]));
    assert(node_key(s.node_list[k1]) == k1);
    assert(node_key(s.node_list[k2]) == k2);
}

/// In a well formed registry an election never lacks a connection: it
/// always gives its commands.
pub proof fn lemma_wf_election_succeeds(s: RegistryView, r: Result<Seq<CommandView>, Seq<char>>)
    requires
        registry_wf(s),
        election_outcome(s, r),
    ensures
        r is Ok,
{
    let m = choose|m: Option<NodeInfo>| #![trigger min_load_choice(s.node_state, s.node_list, m)] min_load_choice(s.node_state, s.node_list, m) && match m {
        Some(m) => if election_peers_known(s, m) {
            r matches Ok(cmds) && promotion_commands(s, m, cmds)
        } else {
            r matches Err(k) && missing_election_peer(s, m, k)
        },
        None => r == Ok::<Seq<CommandView>, Seq<char>>(Seq::<CommandView>::empty()),
    };
    if let Some(mm) = m {
        if s.node_list.dom() != Set::<Seq<char>>::empty() {
            let k = if s.node_state.dom() == Set::<Seq<char>>::empty() {
                Seq::<char>::empty()
            } else {
                choose|k: Seq<char>| is_min_load_key(s.node_state, k) && m == node_at(s.node_list, k)
            };
            assert(s.node_list.dom().contains(k));
            assert(s.node_list[k] == mm);
            assert(node_key(mm) == k);
            assert(election_peers_known(s, mm));
        }
    }
}

/// Every registered node has a liveness record, and its client id a known
/// connection: what registration always records, under whatever id.
pub open spec fn registry_consistent(s: RegistryView) -> bool {
    &&& s.node_list.dom() == s.node_state.dom()
    &&& forall|k: Seq<char>| #[trigger] s.node_list.dom().contains(k) ==> s.peers.dom().contains(k)
}

/// Every request, under any client id, keeps the registry consistent.
pub proof fn lemma_handle_preserves_consistent(s: RegistryView, id: Seq<char>, request: RegistryRequest, peer: Seq<u8>, now: i64)
    requires
        registry_consistent(s),
    ensures
        registry_consistent(handle_spec(s, id, request, peer, now).0),
{
    let t = handle_spec(s, id, request, peer, now).0;
    assert(t.node_list.dom() =~= t.node_state.dom());
    assert forall|k: Seq<char>| #[trigger] t.node_list.dom().contains(k) implies t.peers.dom().contains(k) by {
        if k != id {
            assert(s.node_list.dom().contains(k));
        }
    }
}

/// Dropping the nodes whose heartbeat expired keeps the registry consistent.
pub proof fn lemma_expiry_preserves_consistent(s: RegistryView, now: i64)
    requires
        registry_consistent(s),
    ensures
        registry_consistent(after_expiry(s, now)),
{
    let t = after_expiry(s, now);
    assert(t.node_list.dom() =~= t.node_state.dom());
    assert forall|k: Seq<char>| #[trigger] t.node_list.dom().contains(k) implies t.peers.dom().contains(k) by {
        assert(s.node_list.dom().contains(k));
    }
}

/// In a consistent registry an election can only lack the connection of the
/// elected node's own key.
pub proof fn lemma_consistent_election_fails_only_on_own_key(s: RegistryView, k: Seq<char>)
    requires
        registry_consistent(s),
        election_outcome(s, Err(k)),
    ensures
        exists|m: NodeInfo| #![trigger min_load_choice(s.node_state, s.node_list, Some(m))]
            min_load_choice(s.node_state, s.node_list, Some(m)) && k == node_key(m) && !s.peers.dom().contains(k),
{
    let r = Err::<Seq<CommandView>, Seq<char>>(k);
    let m = choose|m: Option<NodeInfo>| #![trigger min_load_choice(s.node_state, s.node_list, m)] min_load_choice(s.node_state, s.node_list, m) && match m {
        Some(m) => if election_peers_known(s, m) {
            r matches Ok(cmds) && promotion_commands(s, m, cmds)
        } else {
            r matches Err(k) && missing_election_peer(s, m, k)
        },
        None => r == Ok::<Seq<CommandView>, Seq<char>>(Seq::<CommandView>::empty()),
    };
    let mm = m->0;
    assert(missing_election_peer(s, mm, k));
    assert(min_load_choice(s.node_state, s.node_list, Some(mm)));
}

/// A node that reports at `now` is still registered after a heartbeat check
/// made no more than the timeout later.
pub proof fn lemma_reporting_node_survives(s: RegistryView, id: Seq<char>, info: crate::node::StateInfo, now: i64, later: i64)
    requires
        s.node_state.dom().contains(id),
        now <= later,
        later - now <= NODE_HEARTBEAT_TIMEOUT_MILLIS,
    ensures
        after_expiry(report_spec(s, id, Some(info), now), later).node_state.dom().contains(id),
        s.node_list.dom().contains(id) ==> after_expiry(report_spec(s, id, Some(info), now), later).node_list.dom().contains(id),
{
    let r = report_spec(s, id, Some(info), now);
    assert(r.node_state[id].last_heartbeat_time == now);
    assert(!expired_keys(r, later).contains(id));
}

/// After a heartbeat check at `now`, a node is still registered exactly when
/// its last heartbeat is no more than the timeout before `now`.
pub proof fn lemma_expiry_keeps_live_nodes(s: RegistryView, now: i64, k: Seq<char>)
    requires
        s.node_state.dom().contains(k),
    ensures
        after_expiry(s, now).node_state.dom().contains(k) <==> now - s.node_state[k].last_heartbeat_time <= NODE_HEARTBEAT_TIMEOUT_MILLIS,
{
}

/// An election promotes a least loaded node: the first command converts the
/// node registered under the key of a state whose load factor no other
/// state's is below.
pub proof fn lemma_elected_is_least_loaded(s: RegistryView, cmds: Seq<CommandView>)
    requires
        election_outcome(s, Ok(cmds)),
        cmds.len() > 0,
        s.node_state.dom() != Set::<Seq<char>>::empty(),
    ensures
        exists|k: Seq<char>| #![trigger is_min_load_key(s.node_state, k)] is_min_load_key(s.node_state, k)
            && s.node_list.dom().contains(k)
            && cmds[0] == (CommandView::ConvertToMaster { peer: s.peers[node_key(s.node_list[k])], client_id: node_key(s.node_list[k]) }),
{
    let r = Ok::<Seq<CommandView>, Seq<char>>(cmds);
    let m = choose|m: Option<NodeInfo>| #![trigger min_load_choice(s.node_state, s.node_list, m)] min_load_choice(s.node_state, s.node_list, m) && match m {
        Some(m) => if election_peers_known(s, m) {
            r matches Ok(cmds) && promotion_commands(s, m, cmds)
        } else {
            r matches Err(k) && missing_election_peer(s, m, k)
        },
        None => r == Ok::<Seq<CommandView>, Seq<char>>(Seq::<CommandView>::empty()),
    };
    if s.node_list.dom() == Set::<Seq<char>>::empty() {
    } else {
        let k = choose|k: Seq<char>| is_min_load_key(s.node_state, k) && m == node_at(s.node_list, k);
        assert(is_min_load_key(s.node_state, k));
        if m is None {
            assert(cmds =~= Seq::<CommandView>::empty());
        }
    }
}

/// With two nodes or more, load balancing never hands out the master: it
/// hands out a registered node that is least loaded among the others, whose
/// own key has a load record with a load factor below 1.
pub proof fn lemma_load_balance_avoids_master(s: RegistryView, n: NodeInfo)
    requires
        load_balance_spec(s, Ok(Some(n))),
        s.node_list.dom() != Set::<Seq<char>>::empty(),
        !single_key(s.node_list.dom()),
    ensures
        s.master_node is Some,
        node_key(n) != node_key(s.master_node->0),
        s.node_state.dom().contains(node_key(n)),
        f32_bits_lt(s.node_state[node_key(n)].state_info.load_factor_bits, f32_one_bits()),
        exists|k: Seq<char>| #![trigger s.node_list[k]] s.node_list.dom().contains(k) && s.node_list[k] == n
            && is_min_load_key(s.node_state.remove(node_key(s.master_node->0)), k),
{
    let r = Ok::<Option<NodeInfo>, LoadBalanceError>(Some(n));
    let mk = node_key(s.master_node->0);
    let cands = s.node_state.remove(mk);
    let c = choose|c: Option<NodeInfo>| #![trigger min_load_choice(cands, s.node_list, c)] min_load_choice(cands, s.node_list, c) && r == match c {
        Some(n) => if !cands.dom().contains(node_key(n)) {
            Err(LoadBalanceError::NoLoadRecord)
        } else if f32_bits_lt(cands[node_key(n)].state_info.load_factor_bits, f32_one_bits()) {
            Ok(Some(n))
        } else {
            Ok(None)
        },
        None => Ok(None),
    };
    assert(c == Some(n));
    assert(cands.dom().contains(node_key(n)));
    if cands.dom() == Set::<Seq<char>>::empty() {
        assert(false);
    } else {
        let k = choose|k: Seq<char>| is_min_load_key(cands, k) && c == node_at(s.node_list, k);
        assert(s.node_list.dom().contains(k));
        assert(s.node_list[k] == n);
    }
}

/// The load records of the nodes other than the master.
pub open spec fn candidate_states(s: RegistryView) -> Map<Seq<char>, NodeState> {
    s.node_state.remove(node_key(s.master_node->0))
}

/// With two nodes or more and a master, load balancing hands out a node as
/// long as some node other than the master has a load record and every such
/// node is registered under its own key with a load factor from 0.0 up to,
/// not including, 1.0: a registered node other than the master that is
/// least loaded among them.
pub proof fn lemma_load_balance_serves_below_one(s: RegistryView, r: Result<Option<NodeInfo>, LoadBalanceError>)
    requires
        load_balance_spec(s, r),
        s.node_list.dom() != Set::<Seq<char>>::empty(),
        !single_key(s.node_list.dom()),
        s.master_node is Some,
        candidate_states(s).dom() != Set::<Seq<char>>::empty(),
        forall|k: Seq<char>| #[trigger] candidate_states(s).dom().contains(k) ==> s.node_list.dom().contains(k)
            && node_key(s.node_list[k]) == k
            && candidate_states(s)[k].state_info.load_factor_bits < 0x3f80_0000,
    ensures
        r matches Ok(Some(n)) && node_key(n) != node_key(s.master_node->0)
            && exists|k: Seq<char>| #![trigger s.node_list[k]] is_min_load_key(candidate_states(s), k)
                && s.node_list.dom().contains(k) && s.node_list[k] == n,
{
    let cands = candidate_states(s);
    let c = choose|c: Option<NodeInfo>| #![trigger min_load_choice(cands, s.node_list, c)] min_load_choice(cands, s.node_list, c) && r == match c {
        Some(n) => if !cands.dom().contains(node_key(n)) {
            Err(LoadBalanceError::NoLoadRecord)
        } else if f32_bits_lt(cands[node_key(n)].state_info.load_factor_bits, f32_one_bits()) {
            Ok(Some(n))
        } else {
            Ok(None)
        },
        None => Ok(None),
    };
    let k = choose|k: Seq<char>| is_min_load_key(cands, k) && c == node_at(s.node_list, k);
    assert(cands.dom().contains(k));
    let n = s.node_list[k];
    assert(c == Some(n));
    lemma_one_threshold(cands[k].state_info.load_factor_bits);
    assert(r == Ok::<Option<NodeInfo>, LoadBalanceError>(Some(n)));
    assert(s.node_list[k] == n);
}

} // verus!
