//! What holds of a server's client sessions and heartbeats across calls.
use vstd::prelude::*;
use crate::server::silent_clients;

verus! {

/// Logging a client out right after logging it in gives back its user and
/// leaves the sessions as they were.
pub proof fn lemma_logout_undoes_login(m: Map<Seq<char>, i64>, client: Seq<char>, user: i64)
    requires
        !m.dom().contains(client),
    ensures
        m.insert(client, user).get(client) == Some(user),
        m.insert(client, user).remove(client) == m,
{
    assert(m.insert(client, user).remove(client) =~= m);
}

/// A client that sent a heartbeat at `t` is still known after a sweep made
/// no more than `timeout` later.
pub proof fn lemma_pinging_client_survives_sweep(m: Map<Seq<char>, i64>, client: Seq<char>, t: i64, now: i64, timeout: i64)
    requires
        now - t <= timeout,
    ensures
        m.insert(client, t).remove_keys(silent_clients(m.insert(client, t), now, timeout)).dom().contains(client),
{
    assert(!silent_clients(m.insert(client, t), now, timeout).contains(client));
}

/// After a sweep at `now`, every client still known was heard from no more
/// than `timeout` before, and every client heard from since then is still known.
pub proof fn lemma_sweep_keeps_exactly_the_recent(m: Map<Seq<char>, i64>, now: i64, timeout: i64, client: Seq<char>)
    requires
        m.dom().contains(client),
    ensures
        m.remove_keys(silent_clients(m, now, timeout)).dom().contains(client) <==> now - m[client] <= timeout,
{
}

/// No two logged-in clients play the same user.
pub open spec fn users_distinct(m: Map<Seq<char>, i64>) -> bool {
    forall|k1: Seq<char>, k2: Seq<char>| #[trigger] m.dom().contains(k1) && #[trigger] m.dom().contains(k2) && k1 != k2
        ==> m[k1] != m[k2]
}

/// A login hands out a user that no logged-in client plays, so after it no
/// two logged-in clients play the same user, if none did before.
pub proof fn lemma_login_keeps_users_distinct(m: Map<Seq<char>, i64>, client: Seq<char>, user: i64)
    requires
        users_distinct(m),
        !m.dom().contains(client),
        !m.values().contains(user),
    ensures
        users_distinct(m.insert(client, user)),
{
    let t = m.insert(client, user);
    assert forall|k1: Seq<char>, k2: Seq<char>| #[trigger] t.dom().contains(k1) && #[trigger] t.dom().contains(k2) && k1 != k2
        implies t[k1] != t[k2] by {
        if k1 == client {
            assert(!m.values().contains(t[k2]) || t[k2] != user) by {
                if t[k2] == user {
                    assert(m.dom().contains(k2) && m[k2] == user);
                }
            }
        } else if k2 == client {
            if t[k1] == user {
                assert(m.dom().contains(k1) && m[k1] == user);
            }
        }
    }
}

/// Logging a client out leaves the other clients' users distinct.
pub proof fn lemma_logout_keeps_users_distinct(m: Map<Seq<char>, i64>, client: Seq<char>)
    requires
        users_distinct(m),
    ensures
        users_distinct(m.remove(client)),
{
}

/// Two clients logged in one after the other play different users: the
/// second login's user is not the first's.
pub proof fn lemma_two_logins_give_different_users(
    m: Map<Seq<char>, i64>,
    c1: Seq<char>,
    u1: i64,
    c2: Seq<char>,
    u2: i64,
)
    requires
        !m.dom().contains(c1),
        !m.values().contains(u1),
        !m.insert(c1, u1).values().contains(u2),
    ensures
        u1 != u2,
{
    assert(m.insert(c1, u1).dom().contains(c1) && m.insert(c1, u1)[c1] == u1);
}

} // verus!
