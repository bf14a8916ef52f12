//! The messages that clients, servers and the registry center exchange.
use vstd::prelude::*;

verus! {

/// What a message asks for or answers.
#[derive(Clone, Copy, Debug, PartialEq, Eq, Structural)]
pub enum Operation {
    Ping,
    Pong,
    Login,
    Logout,
    Aoe,
    SetVelocity,
    Query,
    Reply,
    QueryResp,
    /// A node registers with the registry center.
    Register,
    /// A node reports its load (and so shows it is alive).
    Report,
    /// A slave hands a new user to its master.
    AddUser,
    /// A slave asks its master to remove a user.
    DelUser,
    /// The registry center makes the receiving node the master.
    ConvertToMaster,
    /// The registry center tells a slave which node is the new master.
    ChangeMaster,
    /// The registry center answers a registration.
    RegisterResp,
}

/// One message: who sent it, about which user, what it asks, its content,
/// and the peer of the client that a slave forwards it for.
#[derive(Debug)]
pub struct Message {
    pub client_id: String,
    pub user_id: Option<i64>,
    pub operation: Operation,
    pub content: Option<String>,
    pub client_peer_id: Option<String>,
}

/// A message as plain values.
pub struct MessageView {
    pub client_id: Seq<char>,
    pub user_id: Option<i64>,
    pub operation: Operation,
    pub content: Option<Seq<char>>,
    pub client_peer_id: Option<Seq<char>>,
}

/// The text of an optional string.
pub open spec fn opt_text(s: Option<String>) -> Option<Seq<char>> {
    match s {
        Some(s) => Some(s@),
        None => None,
    }
}

impl View for Message {
    type V = MessageView;

    open spec fn view(&self) -> MessageView {
        MessageView {
            client_id: self.client_id@,
            user_id: self.user_id,
            operation: self.operation,
            content: opt_text(self.content),
            client_peer_id: opt_text(self.client_peer_id),
        }
    }
}

/// A message with nothing but a sender and an operation.
pub open spec fn bare_message(client_id: Seq<char>, operation: Operation) -> MessageView {
    MessageView { client_id, user_id: None, operation, content: None, client_peer_id: None }
}

fn clone_opt_string(s: &Option<String>) -> (r: Option<String>)
    ensures
        r == *s,
{
    match s {
        Some(s) => Some(s.clone()),
        None => None,
    }
}

fn owned(s: &str) -> (r: String)
    ensures
        r@ == s@,
{
    String::from_str(s)
}

impl Clone for Message {
    fn clone(&self) -> (r: Self)
        ensures
            r == *self,
    {
        Message {
            client_id: self.client_id.clone(),
            user_id: self.user_id,
            operation: self.operation,
            content: clone_opt_string(&self.content),
            client_peer_id: clone_opt_string(&self.client_peer_id),
        }
    }
}

impl Message {
    fn bare(client_id: &str, operation: Operation) -> (m: Message)
        ensures
            m@ == bare_message(client_id@, operation),
    {
        Message {
            client_id: owned(client_id),
            user_id: None,
            operation,
            content: None,
            client_peer_id: None,
        }
    }

    /// Records the peer of the client that this message is forwarded for
    /// and gives back a copy of the message.
    pub fn set_peer_id(&mut self, peer_id: &String) -> (r: Self)
        ensures
            *final(self) == (Message { client_peer_id: Some(*peer_id), ..*old(self) }),
            final(self)@ == (MessageView { client_peer_id: Some(peer_id@), ..old(self)@ }),
            r == *final(self),
    {
        self.client_peer_id = Some(peer_id.clone());
        self.clone()
    }

    /// Sets (or clears) the peer of the client that this message is
    /// forwarded for and gives back a copy of the message.
    pub fn set_peer_id_opt(&mut self, peer_id_opt: Option<String>) -> (r: Self)
        ensures
            *final(self) == (Message { client_peer_id: peer_id_opt, ..*old(self) }),
            r == *final(self),
    {
        self.client_peer_id = peer_id_opt;
        self.clone()
    }

    /// A heartbeat from a client.
    pub fn ping(client_id: &str) -> (m: Message)
        ensures
            m@ == bare_message(client_id@, Operation::Ping),
    {
        Message::bare(client_id, Operation::Ping)
    }

    /// A client asks to log in.
    pub fn login(client_id: &str) -> (m: Message)
        ensures
            m@ == bare_message(client_id@, Operation::Login),
    {
        Message::bare(client_id, Operation::Login)
    }

    /// A client asks to log out.
    pub fn logout(client_id: &str) -> (m: Message)
        ensures
            m@ == bare_message(client_id@, Operation::Logout),
    {
        Message::bare(client_id, Operation::Logout)
    }

    /// A slave (whose key is `client_id`) asks its master to remove a user.
    pub fn del_user(client_id: &str, user_id: i64) -> (m: Self)
        ensures
            m@ == (MessageView { user_id: Some(user_id), ..bare_message(client_id@, Operation::DelUser) }),
    {
        let mut m = Message::bare(client_id, Operation::DelUser);
        m.user_id = Some(user_id);
        m
    }

    /// The registry center makes the node `client_id` the master.
    pub fn convert_to_master(client_id: &str) -> (m: Self)
        ensures
            m@ == bare_message(client_id@, Operation::ConvertToMaster),
    {
        Message::bare(client_id, Operation::ConvertToMaster)
    }

    /// The answer to a heartbeat.
    pub fn pong(client_id: &str) -> (m: Message)
        ensures
            m@ == bare_message(client_id@, Operation::Pong),
    {
        Message::bare(client_id, Operation::Pong)
    }

    /// A reply with a text, from no one in particular.
    pub fn resp(content: &str) -> (m: Self)
        ensures
            m@ == (MessageView { content: Some(content@), ..bare_message(Seq::empty(), Operation::Reply) }),
    {
        let mut m = Message::bare("", Operation::Reply);
        m.content = Some(owned(content));
        proof {
            reveal_strlit("");
            assert(""@ =~= Seq::<char>::empty());
            assert(m@.client_id =~= Seq::<char>::empty());
        }
        m
    }
}

/// The registry center's answer to a registration.
#[derive(Debug)]
pub struct RegisterResp {
    pub is_success: bool,
    pub reason: Option<String>,
}

impl Clone for RegisterResp {
    fn clone(&self) -> (r: Self)
        ensures
            r == *self,
    {
        RegisterResp { is_success: self.is_success, reason: clone_opt_string(&self.reason) }
    }
}

impl RegisterResp {
    pub fn new(is_success: bool, reason: Option<String>) -> (r: Self)
        ensures
            r.is_success == is_success,
            r.reason == reason,
    {
        RegisterResp { is_success, reason }
    }

    /// The registration succeeded.
    pub fn success() -> (r: Self)
        ensures
            r.is_success,
            r.reason is None,
    {
        Self::new(true, None)
    }

    /// The registration failed, for the given reason.
    pub fn fail(reason: &str) -> (r: Self)
        ensures
            !r.is_success,
            opt_text(r.reason) == Some(reason@),
    {
        Self::new(false, Some(owned(reason)))
    }
}

} // verus!
