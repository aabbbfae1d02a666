use vstd::prelude::*;

use crate::addr::PeerAddr;
use crate::peers::PeerMap;

verus! {

/// The identifier of a conversation.
pub type UUID = i32;

/// Where the server listens.
pub const SERVER_ADDR: &'static str = "127.0.0.1:1234";

/// What the server knows of one connected client.
#[derive(Clone, Copy, Debug, PartialEq, Eq)]
pub struct Client {
    /// The address the client sends from, where it is known.
    pub sender_addr: Option<PeerAddr>,
    /// The connection through which messages reach the client: the address
    /// of that connection.
    pub sender: Option<PeerAddr>,
    /// The conversation the client currently talks in, if any.
    pub current_convo: Option<UUID>,
}

impl Default for Client {
    /// A client that is reachable through no connection and talks in no
    /// conversation.
    fn default() -> (c: Self)
        ensures
            c.sender_addr is None,
            c.sender is None,
            c.current_convo is None,
    {
        Client { sender_addr: None, sender: None, current_convo: None }
    }
}

/// A chat between several clients (a private message or a group).
#[derive(Debug)]
pub struct Conversation {
    /// The name of the conversation.
    pub name: String,
    /// The identifier of the conversation.
    pub id: UUID,
    /// The addresses of the members of the conversation.
    pub clients: Vec<PeerAddr>,
}

/// What a conversation is, as the server's rules see it.
pub struct ConversationView {
    pub name: Seq<char>,
    pub id: UUID,
    pub members: Seq<PeerAddr>,
}

impl View for Conversation {
    type V = ConversationView;

    open spec fn view(&self) -> ConversationView {
        ConversationView { name: self.name@, id: self.id, members: self.clients@ }
    }
}

/// The views of a sequence of conversations.
pub open spec fn conversation_views(convos: Seq<Conversation>) -> Seq<ConversationView> {
    convos.map_values(|c: Conversation| c@)
}

/// The identifiers of the conversations that `addr` is a member of, in the
/// order in which the conversations stand.
pub open spec fn conversation_ids_of(addr: PeerAddr, convos: Seq<ConversationView>) -> Seq<UUID>
    decreases convos.len(),
{
    if convos.len() == 0 {
        Seq::empty()
    } else {
        let rest = conversation_ids_of(addr, convos.drop_last());
        if convos.last().members.contains(addr) {
            rest.push(convos.last().id)
        } else {
            rest
        }
    }
}

/// Whether `addr` occurs in `v`.
pub fn contains_addr(v: &Vec<PeerAddr>, addr: PeerAddr) -> (r: bool)
    ensures
        r == v@.contains(addr),
{
    let mut i: usize = 0;
    while i < v.len()
        invariant
            i <= v@.len(),
            forall|j: int| 0 <= j < i ==> v@[j] != addr,
        decreases v@.len() - i,
    {
        if v[i] == addr {
            return true;
        }
        i = i + 1;
    }
    false
}

/// The identifiers of the conversations that `addr` is a member of, in order,
/// or `None` where it is a member of none.
pub fn get_conversations_uuid(addr: PeerAddr, convo: &Vec<Conversation>) -> (r: Option<Vec<UUID>>)
    ensures
        match r {
            Some(ids) => ids@ == conversation_ids_of(addr, conversation_views(convo@)) && ids@.len()
                > 0,
            None => conversation_ids_of(addr, conversation_views(convo@)).len() == 0,
        },
{
    let mut convos: Vec<UUID> = Vec::new();
    let mut i: usize = 0;
    while i < convo.len()
        invariant
            i <= convo@.len(),
            convos@ == conversation_ids_of(addr, conversation_views(convo@).take(i as int)),
        decreases convo@.len() - i,
    {
        proof {
            let vs = conversation_views(convo@);
            assert(vs.take(i + 1).drop_last() =~= vs.take(i as int));
            assert(vs.take(i + 1).last() == convo@[i as int]@);
        }
        if contains_addr(&convo[i].clients, addr) {
            convos.push(convo[i].id);
        }
        i = i + 1;
    }
    proof {
        assert(conversation_views(convo@).take(i as int) =~= conversation_views(convo@));
    }
    if convos.len() == 0 {
        None
    } else {
        Some(convos)
    }
}

/// The server's bookkeeping: the clients and the conversations.
pub struct ServerView {
    pub peers: Map<PeerAddr, Client>,
    pub conversations: Seq<ConversationView>,
}

/// The conversations stand at the position that their identifier names, and
/// none has a member twice.
pub open spec fn conversations_wf(convos: Seq<ConversationView>) -> bool {
    forall|i: int|
        0 <= i < convos.len() ==> (#[trigger] convos[i]).id == i && convos[i].members.no_duplicates()
}

/// Every client is reached through its own connection, and talks, if at all,
/// in a conversation that exists and that it is a member of.
pub open spec fn clients_wf(s: ServerView) -> bool {
    forall|k: PeerAddr|
        #[trigger] s.peers.contains_key(k) ==> {
            &&& s.peers[k].sender == Some(k)
            &&& s.peers[k].current_convo matches Some(id) ==> 0 <= id < s.conversations.len()
                && s.conversations[id as int].members.contains(k)
        }
}

/// The invariant of the server's bookkeeping.
pub open spec fn server_inv(s: ServerView) -> bool {
    conversations_wf(s.conversations) && clients_wf(s)
}

/// The client that a new connection from `addr` registers.
pub open spec fn new_client(addr: PeerAddr) -> Client {
    Client { sender_addr: None, sender: Some(addr), current_convo: None }
}

/// The shared state of the chat server.
pub struct Server {
    pub(crate) peers: PeerMap,
    pub(crate) convos: Vec<Conversation>,
}

impl View for Server {
    type V = ServerView;

    closed spec fn view(&self) -> ServerView {
        ServerView { peers: self.peers@, conversations: conversation_views(self.convos@) }
    }
}

impl Server {
    /// The server's bookkeeping is consistent.
    pub closed spec fn wf(&self) -> bool {
        self.peers.wf() && server_inv(self@)
    }

    /// What a consistent server keeps.
    pub proof fn lemma_wf(&self)
        requires
            self.wf(),
        ensures
            server_inv(self@),
    {
    }

    /// What the view and the consistency of a server are made of.
    pub(crate) proof fn lemma_unfold(&self)
        ensures
            self@.peers == self.peers@,
            self@.conversations == conversation_views(self.convos@),
            self.wf() == (self.peers.wf() && server_inv(self@)),
    {
    }

    /// A server with no client and no conversation.
    pub fn new() -> (s: Self)
        ensures
            s.wf(),
            s@.peers == Map::<PeerAddr, Client>::empty(),
            s@.conversations == Seq::<ConversationView>::empty(),
    {
        let s = Server { peers: PeerMap::new(), convos: Vec::new() };
        assert(conversation_views(s.convos@) =~= Seq::<ConversationView>::empty());
        s
    }

    /// Registers the client of a new connection from `addr`, in place of any
    /// client registered there before.
    pub fn connect(&mut self, addr: PeerAddr)
        requires
            old(self).wf(),
        ensures
            final(self).wf(),
            final(self)@.peers == old(self)@.peers.insert(addr, new_client(addr)),
            final(self)@.conversations == old(self)@.conversations,
    {
        let mut client = Client::default();
        client.sender = Some(addr);
        self.peers.insert(addr, client);
    }

    /// Unregisters the client of the connection from `addr`, which has closed.
    pub fn disconnect(&mut self, addr: PeerAddr)
        requires
            old(self).wf(),
        ensures
            final(self).wf(),
            final(self)@.peers == old(self)@.peers.remove(addr),
            final(self)@.conversations == old(self)@.conversations,
    {
        self.peers.remove(addr);
    }

    /// The client registered under `addr`, if any.
    pub fn client(&self, addr: PeerAddr) -> (r: Option<Client>)
        requires
            self.wf(),
        ensures
            r == (if self@.peers.contains_key(addr) { Some(self@.peers[addr]) } else { None::<Client> }),
    {
        self.peers.get(addr)
    }

    /// The conversations, in the order of their identifiers.
    pub fn conversations(&self) -> (r: &Vec<Conversation>)
        ensures
            conversation_views(r@) == self@.conversations,
    {
        &self.convos
    }
}

} // verus!
