use vstd::prelude::*;

use crate::addr::PeerAddr;
use crate::server::{
    contains_addr, conversation_ids_of, conversation_views, conversations_wf,
    get_conversations_uuid, server_inv, Client, Conversation, ConversationView, Server,
    ServerView, UUID,
};
use crate::text::{chars_of, parse_i32, parse_i32_range, range_is, trim, trim_bounds};

verus! {

/// What the server expects the next message of a connection to be.
#[allow(non_camel_case_types)]
#[derive(Clone, Copy, Debug, PartialEq, Eq, Structural)]
pub enum IO_STATE {
    /// A command, or a line of chat.
    SEND,
    /// The addresses of the peers to start a conversation with.
    CREATE_NEW_CONVO,
    /// The identifier of the conversation to talk in.
    CONNECT_TO_CONVO,
}

/// The commands a client can give.
#[derive(Clone, Copy, Debug, PartialEq, Eq, Structural)]
pub enum Command {
    /// `--list`: list the conversations the client is a member of.
    List,
    /// `--connect`: start a conversation; the addresses follow.
    Connect,
    /// `--switch`: talk in another conversation; its identifier follows.
    Switch,
    /// `--current`: show what the server knows of the client.
    Current,
    /// Anything else: a line of chat.
    Chat,
}

/// A message of the server to a client.
#[derive(Debug, PartialEq, Eq)]
pub enum Reply {
    /// The client was made a member of a new conversation.
    AddedToConversation,
    /// The client created a conversation with these members.
    ConversationCreated { members: Vec<PeerAddr> },
    /// The heading of the list of the conversations of `addr`.
    ListIntro { addr: PeerAddr },
    /// The heading of the list of the conversations of `addr`, in the form
    /// the basic handler writes it.
    ListIntroBare { addr: PeerAddr },
    /// One conversation of the list: the one with this identifier.
    ConversationInfo { id: UUID },
    /// The end of the list.
    ListEnd,
    /// The request for the addresses of a new conversation.
    ConnectPrompt,
    /// The request for the identifier of a conversation to talk in.
    SwitchPrompt,
    /// What the server knows of the client.
    CurrentClient { client: Client },
    /// A line of chat that `from` wrote in conversation `convo_id`.
    Relay { convo_id: UUID, from: PeerAddr, text: String },
    /// A line of chat sent back to a client that talks in no conversation.
    Echo { text: String },
}

/// A message of the server to a client, as the rules see it.
pub enum ReplyView {
    AddedToConversation,
    ConversationCreated { members: Seq<PeerAddr> },
    ListIntro { addr: PeerAddr },
    ListIntroBare { addr: PeerAddr },
    ConversationInfo { id: UUID },
    ListEnd,
    ConnectPrompt,
    SwitchPrompt,
    CurrentClient { client: Client },
    Relay { convo_id: UUID, from: PeerAddr, text: Seq<char> },
    Echo { text: Seq<char> },
}

impl View for Reply {
    type V = ReplyView;

    open spec fn view(&self) -> ReplyView {
        match self {
            Reply::AddedToConversation => ReplyView::AddedToConversation,
            Reply::ConversationCreated { members } => ReplyView::ConversationCreated {
                members: members@,
            },
            Reply::ListIntro { addr } => ReplyView::ListIntro { addr: *addr },
            Reply::ListIntroBare { addr } => ReplyView::ListIntroBare { addr: *addr },
            Reply::ConversationInfo { id } => ReplyView::ConversationInfo { id: *id },
            Reply::ListEnd => ReplyView::ListEnd,
            Reply::ConnectPrompt => ReplyView::ConnectPrompt,
            Reply::SwitchPrompt => ReplyView::SwitchPrompt,
            Reply::CurrentClient { client } => ReplyView::CurrentClient { client: *client },
            Reply::Relay { convo_id, from, text } => ReplyView::Relay {
                convo_id: *convo_id,
                from: *from,
                text: text@,
            },
            Reply::Echo { text } => ReplyView::Echo { text: text@ },
        }
    }
}

/// A reply and the connection it is to be sent through.
#[derive(Debug, PartialEq, Eq)]
pub struct Outgoing {
    pub to: PeerAddr,
    pub reply: Reply,
}

/// A reply and its connection, as the rules see them.
pub struct OutgoingView {
    pub to: PeerAddr,
    pub reply: ReplyView,
}

impl View for Outgoing {
    type V = OutgoingView;

    open spec fn view(&self) -> OutgoingView {
        OutgoingView { to: self.to, reply: self.reply@ }
    }
}

/// The views of a sequence of replies.
pub open spec fn outgoing_views(s: Seq<Outgoing>) -> Seq<OutgoingView> {
    s.map_values(|o: Outgoing| o@)
}

/// The reply `r` sent to `to`.
pub open spec fn send(to: PeerAddr, r: ReplyView) -> OutgoingView {
    OutgoingView { to, reply: r }
}

pub open spec fn list_word() -> Seq<char> {
    seq!['-', '-', 'l', 'i', 's', 't']
}

pub open spec fn connect_word() -> Seq<char> {
    seq!['-', '-', 'c', 'o', 'n', 'n', 'e', 'c', 't']
}

pub open spec fn switch_word() -> Seq<char> {
    seq!['-', '-', 's', 'w', 'i', 't', 'c', 'h']
}

pub open spec fn current_word() -> Seq<char> {
    seq!['-', '-', 'c', 'u', 'r', 'r', 'e', 'n', 't']
}

/// The command that the word `w` names.
pub open spec fn word_command(w: Seq<char>) -> Command {
    if w == list_word() {
        Command::List
    } else if w == connect_word() {
        Command::Connect
    } else if w == switch_word() {
        Command::Switch
    } else if w == current_word() {
        Command::Current
    } else {
        Command::Chat
    }
}

/// Whether a message begins with two dashes, the mark of a command.
pub open spec fn dashed(text: Seq<char>) -> bool {
    text.len() >= 2 && text[0] == '-' && text[1] == '-'
}

/// The word a message is read as: a message marked as a command is trimmed of
/// white space, any other is taken as it is.
pub open spec fn command_word(text: Seq<char>) -> Seq<char> {
    if dashed(text) {
        trim(text)
    } else {
        text
    }
}

/// The command a message gives.
pub open spec fn command_of(text: Seq<char>) -> Command {
    word_command(command_word(text))
}

/// Whether the server can read a message at all: one that is empty, or that is
/// a single dash, cannot be tested for the command mark.
pub open spec fn message_accepted(text: Seq<char>) -> bool {
    text.len() >= 2 || (text.len() == 1 && text[0] != '-')
}

/// The command that the word `v[lo..hi]` names.
fn word_command_in(v: &Vec<char>, lo: usize, hi: usize) -> (c: Command)
    requires
        lo <= hi <= v.len(),
    ensures
        c == word_command(v@.subrange(lo as int, hi as int)),
{
    let list: [char; 6] = ['-', '-', 'l', 'i', 's', 't'];
    let connect: [char; 9] = ['-', '-', 'c', 'o', 'n', 'n', 'e', 'c', 't'];
    let switch: [char; 8] = ['-', '-', 's', 'w', 'i', 't', 'c', 'h'];
    let current: [char; 9] = ['-', '-', 'c', 'u', 'r', 'r', 'e', 'n', 't'];
    assert(list@ =~= list_word());
    assert(connect@ =~= connect_word());
    assert(switch@ =~= switch_word());
    assert(current@ =~= current_word());
    if range_is(v, lo, hi, list.as_slice()) {
        Command::List
    } else if range_is(v, lo, hi, connect.as_slice()) {
        Command::Connect
    } else if range_is(v, lo, hi, switch.as_slice()) {
        Command::Switch
    } else if range_is(v, lo, hi, current.as_slice()) {
        Command::Current
    } else {
        Command::Chat
    }
}

/// The command that the message `text` gives.
pub fn read_command(text: &str) -> (c: Command)
    ensures
        c == command_of(text@),
{
    let v = chars_of(text);
    if v.len() >= 2 && v[0] == '-' && v[1] == '-' {
        let (a, b) = trim_bounds(&v, 0, v.len());
        assert(v@.subrange(0, v@.len() as int) =~= v@);
        word_command_in(&v, a, b)
    } else {
        assert(v@.subrange(0, v@.len() as int) =~= v@);
        word_command_in(&v, 0, v.len())
    }
}

/// The heading of a list of conversations: in the form of the full handler,
/// or in the bare form of the basic one.
pub open spec fn list_intro(addr: PeerAddr, bare: bool) -> ReplyView {
    if bare {
        ReplyView::ListIntroBare { addr }
    } else {
        ReplyView::ListIntro { addr }
    }
}

/// The answer to `--list`: a heading, one entry for each conversation that
/// `addr` is a member of, in order, and an end mark, all sent to `addr`.
pub open spec fn list_replies(
    convos: Seq<ConversationView>,
    addr: PeerAddr,
    bare: bool,
) -> Seq<OutgoingView> {
    seq![send(addr, list_intro(addr, bare))] + conversation_ids_of(addr, convos).map_values(
        |id: UUID| send(addr, ReplyView::ConversationInfo { id }),
    ) + seq![send(addr, ReplyView::ListEnd)]
}

/// The members of `members` other than `addr`, in order.
pub open spec fn others(members: Seq<PeerAddr>, addr: PeerAddr) -> Seq<PeerAddr>
    decreases members.len(),
{
    if members.len() == 0 {
        Seq::empty()
    } else {
        let rest = others(members.drop_last(), addr);
        if members.last() != addr {
            rest.push(members.last())
        } else {
            rest
        }
    }
}

/// The line of chat `text` that `from` wrote in conversation `cid`, sent to
/// each of `members` other than `from`.
pub open spec fn relay_sends(members: Seq<PeerAddr>, cid: UUID, from: PeerAddr, text: Seq<char>) -> Seq<
    OutgoingView,
> {
    others(members, from).map_values(
        |p: PeerAddr| send(p, ReplyView::Relay { convo_id: cid, from, text }),
    )
}

/// The notice of a new conversation, sent to each of `s`.
pub open spec fn added_sends(s: Seq<PeerAddr>) -> Seq<OutgoingView> {
    s.map_values(|a: PeerAddr| send(a, ReplyView::AddedToConversation))
}

/// The answer to a line of chat `text` from `addr`: where `addr` talks in a
/// conversation, the line goes to every other member of it; where it talks in
/// none, the line comes back to it.
pub open spec fn chat_replies(s: ServerView, addr: PeerAddr, text: Seq<char>) -> Seq<OutgoingView> {
    match s.peers[addr].current_convo {
        Some(cid) => if 0 <= cid < s.conversations.len() {
            relay_sends(s.conversations[cid as int].members, cid, addr, text)
        } else {
            Seq::empty()
        },
        None => seq![send(addr, ReplyView::Echo { text })],
    }
}

/// The addresses of `s` under which a client is registered, in order, with
/// repetitions.
pub open spec fn registered(peers: Map<PeerAddr, Client>, s: Seq<PeerAddr>) -> Seq<PeerAddr>
    decreases s.len(),
{
    if s.len() == 0 {
        Seq::empty()
    } else {
        let rest = registered(peers, s.drop_last());
        if peers.contains_key(s.last()) {
            rest.push(s.last())
        } else {
            rest
        }
    }
}

/// `s` with every repetition of an element left out, in the order in which
/// the elements first occur.
pub open spec fn dedup(s: Seq<PeerAddr>) -> Seq<PeerAddr>
    decreases s.len(),
{
    if s.len() == 0 {
        Seq::empty()
    } else {
        let rest = dedup(s.drop_last());
        if rest.contains(s.last()) {
            rest
        } else {
            rest.push(s.last())
        }
    }
}

/// The registered clients that a new conversation of `addr` with the
/// candidate addresses `cands` reaches: the candidates, then `addr` itself.
pub open spec fn reached(s: ServerView, addr: PeerAddr, cands: Seq<PeerAddr>) -> Seq<PeerAddr> {
    registered(s.peers, cands.push(addr))
}

/// The conversation that `addr` creates with the candidate addresses `cands`.
pub open spec fn created_conversation(
    s: ServerView,
    addr: PeerAddr,
    cands: Seq<PeerAddr>,
) -> ConversationView {
    ConversationView {
        name: Seq::empty(),
        id: s.conversations.len() as UUID,
        members: dedup(reached(s, addr, cands)),
    }
}

/// The replies to the creation of a conversation: a notice to every reached
/// client, once for each time it was named, then the list of members to `addr`.
pub open spec fn create_replies(s: ServerView, addr: PeerAddr, cands: Seq<PeerAddr>) -> Seq<
    OutgoingView,
> {
    added_sends(reached(s, addr, cands)).push(
        send(
            addr,
            ReplyView::ConversationCreated { members: dedup(reached(s, addr, cands)) },
        ),
    )
}

/// The conversation that the message `text` of `addr` asks to talk in, where
/// it names one that exists and that `addr` is a member of.
pub open spec fn switch_target(s: ServerView, addr: PeerAddr, text: Seq<char>) -> Option<UUID> {
    match parse_i32(trim(text)) {
        Some(id) => if 0 <= id < s.conversations.len() && s.conversations[id as int].members.contains(
            addr,
        ) {
            Some(id)
        } else {
            None
        },
        None => None,
    }
}

/// The clients once `addr` has asked, with `text`, to talk in another
/// conversation.
pub open spec fn switched_peers(s: ServerView, addr: PeerAddr, text: Seq<char>) -> Map<
    PeerAddr,
    Client,
> {
    match switch_target(s, addr, text) {
        Some(id) => s.peers.insert(addr, Client { current_convo: Some(id), ..s.peers[addr] }),
        None => s.peers,
    }
}

/// What the server does with the message `text` of the connection from `addr`,
/// which is in `mode`: the bookkeeping after it, the connection's next mode, and
/// the replies, in the order they are sent. `cands` are the addresses that the
/// message's tokens (see `address_tokens`) read as, in order.
pub open spec fn step(
    s: ServerView,
    mode: IO_STATE,
    addr: PeerAddr,
    text: Seq<char>,
    cands: Seq<PeerAddr>,
) -> (ServerView, IO_STATE, Seq<OutgoingView>) {
    match mode {
        IO_STATE::CREATE_NEW_CONVO => if cands.len() > 0 {
            (
                ServerView {
                    peers: s.peers,
                    conversations: s.conversations.push(created_conversation(s, addr, cands)),
                },
                IO_STATE::SEND,
                create_replies(s, addr, cands),
            )
        } else {
            (s, IO_STATE::SEND, Seq::empty())
        },
        IO_STATE::CONNECT_TO_CONVO => (
            ServerView { peers: switched_peers(s, addr, text), conversations: s.conversations },
            IO_STATE::SEND,
            Seq::empty(),
        ),
        IO_STATE::SEND => match command_of(text) {
            Command::List => (s, IO_STATE::SEND, list_replies(s.conversations, addr, false)),
            Command::Connect => (
                s,
                IO_STATE::CREATE_NEW_CONVO,
                seq![send(addr, ReplyView::ConnectPrompt)],
            ),
            Command::Switch => (
                s,
                IO_STATE::CONNECT_TO_CONVO,
                seq![send(addr, ReplyView::SwitchPrompt)],
            ),
            Command::Current => (
                s,
                IO_STATE::SEND,
                seq![send(addr, ReplyView::CurrentClient { client: s.peers[addr] })],
            ),
            Command::Chat => (s, IO_STATE::SEND, chat_replies(s, addr, text)),
        },
    }
}

/// The messages the server handles without failing: those of a registered
/// client that can be tested for the command mark, and, where they create a
/// conversation, while one more identifier fits in a `UUID`.
pub open spec fn step_allowed(
    s: ServerView,
    mode: IO_STATE,
    addr: PeerAddr,
    text: Seq<char>,
    cands: Seq<PeerAddr>,
) -> bool {
    &&& s.peers.contains_key(addr)
    &&& message_accepted(text)
    &&& (mode == IO_STATE::CREATE_NEW_CONVO && cands.len() > 0) ==> s.conversations.len()
        <= i32::MAX
}

/// The replies of the basic handler, which knows only `--list` and
/// `--connect`, written exactly so, and changes nothing.
pub open spec fn basic_replies(s: ServerView, addr: PeerAddr, text: Seq<char>) -> Seq<OutgoingView> {
    match word_command(text) {
        Command::List => list_replies(s.conversations, addr, true),
        Command::Connect => seq![send(addr, ReplyView::ConnectPrompt)],
        _ => Seq::empty(),
    }
}

proof fn lemma_views_push(s: Seq<Outgoing>, o: Outgoing)
    ensures
        outgoing_views(s.push(o)) == outgoing_views(s).push(o@),
{
    assert(outgoing_views(s.push(o)) =~= outgoing_views(s).push(o@));
}

pub(crate) proof fn lemma_ids_are_positions(addr: PeerAddr, convos: Seq<ConversationView>)
    requires
        conversations_wf(convos),
    ensures
        forall|k: int|
            0 <= k < conversation_ids_of(addr, convos).len() ==> 0 <= #[trigger] conversation_ids_of(
                addr,
                convos,
            )[k] < convos.len(),
    decreases convos.len(),
{
    if convos.len() > 0 {
        let d = convos.drop_last();
        assert(conversations_wf(d)) by {
            assert forall|i: int| 0 <= i < d.len() implies (#[trigger] d[i]).id == i
                && d[i].members.no_duplicates() by {
                assert(d[i] == convos[i]);
            }
        }
        lemma_ids_are_positions(addr, d);
        assert(convos[convos.len() - 1].id == convos.len() - 1);
        let ids = conversation_ids_of(addr, convos);
        let dids = conversation_ids_of(addr, d);
        assert forall|k: int| 0 <= k < ids.len() implies 0 <= #[trigger] ids[k] < convos.len() by {
            if k < dids.len() {
                assert(ids[k] == dids[k]);
            }
        }
    }
}

pub(crate) proof fn lemma_contains_push(s: Seq<PeerAddr>, x: PeerAddr, a: PeerAddr)
    ensures
        s.push(x).contains(a) <==> (s.contains(a) || a == x),
{
    if s.push(x).contains(a) {
        let i = choose|i: int| 0 <= i < s.push(x).len() && s.push(x)[i] == a;
        if i < s.len() {
            assert(s[i] == a);
        }
    }
    if s.contains(a) {
        let i = choose|i: int| 0 <= i < s.len() && s[i] == a;
        assert(s.push(x)[i] == a);
    }
    if a == x {
        assert(s.push(x)[s.len() as int] == a);
    }
}

pub proof fn lemma_dedup_no_duplicates(s: Seq<PeerAddr>)
    ensures
        dedup(s).no_duplicates(),
        forall|a: PeerAddr| dedup(s).contains(a) <==> s.contains(a),
    decreases s.len(),
{
    if s.len() > 0 {
        let d = s.drop_last();
        let x = s.last();
        lemma_dedup_no_duplicates(d);
        assert(s =~= d.push(x));
        let r = dedup(d);
        assert forall|a: PeerAddr| dedup(s).contains(a) <==> s.contains(a) by {
            lemma_contains_push(d, x, a);
            lemma_contains_push(r, x, a);
        }
        if !r.contains(x) {
            assert forall|i: int, j: int|
                0 <= i < r.push(x).len() && 0 <= j < r.push(x).len() && i != j implies r.push(x)[i]
                != r.push(x)[j] by {
                if i == r.len() {
                    assert(r[j] != x);
                } else if j == r.len() {
                    assert(r[i] != x);
                }
            }
        }
    }
}

impl Server {
    /// The answer to `--list` from `addr`, with the heading in the full form,
    /// or in the bare form where `bare` holds.
    fn list_conversations(&self, addr: PeerAddr, bare: bool) -> (out: Vec<Outgoing>)
        requires
            self.wf(),
        ensures
            outgoing_views(out@) == list_replies(self@.conversations, addr, bare),
    {
        proof {
            self.lemma_unfold();
            lemma_ids_are_positions(addr, self@.conversations);
        }
        let ghost convos = self@.conversations;
        let ghost ids = conversation_ids_of(addr, convos);
        let ghost info = |id: UUID| send(addr, ReplyView::ConversationInfo { id });
        let mut out: Vec<Outgoing> = Vec::new();
        let intro = if bare {
            Reply::ListIntroBare { addr }
        } else {
            Reply::ListIntro { addr }
        };
        out.push(Outgoing { to: addr, reply: intro });
        proof {
            assert(outgoing_views(out@) =~= seq![send(addr, list_intro(addr, bare))]);
        }
        let found = get_conversations_uuid(addr, &self.convos);
        if let Some(found_ids) = found {
            let mut k: usize = 0;
            while k < found_ids.len()
                invariant
                    k <= found_ids@.len(),
                    found_ids@ == ids,
                    forall|x: UUID| #[trigger] info(x) == send(addr, ReplyView::ConversationInfo { id: x }),
                    convos == self@.conversations,
                    conversations_wf(convos),
                    convos == conversation_views(self.convos@),
                    ids == conversation_ids_of(addr, convos),
                    forall|m: int| 0 <= m < ids.len() ==> 0 <= #[trigger] ids[m] < convos.len(),
                    outgoing_views(out@) == seq![send(addr, list_intro(addr, bare))]
                        + ids.take(k as int).map_values(info),
                decreases found_ids@.len() - k,
            {
                let id = found_ids[k];
                let ghost base = outgoing_views(out@);
                let mut j: usize = 0;
                while j < self.convos.len()
                    invariant
                        j <= self.convos@.len(),
                        convos == conversation_views(self.convos@),
                        forall|x: UUID| #[trigger] info(x) == send(addr, ReplyView::ConversationInfo { id: x }),
                        conversations_wf(convos),
                        outgoing_views(out@) == base + (if 0 <= id < j {
                            seq![info(id)]
                        } else {
                            Seq::<OutgoingView>::empty()
                        }),
                    decreases self.convos@.len() - j,
                {
                    assert(convos[j as int].id == j);
                    assert(self.convos@[j as int].id == j);
                    if self.convos[j].id == id {
                        let o = Outgoing {
                            to: addr,
                            reply: Reply::ConversationInfo { id: self.convos[j].id },
                        };
                        assert(o@ == info(id));
                        proof {
                            lemma_views_push(out@, o);
                        }
                        out.push(o);
                        assert(outgoing_views(out@) == base.push(info(id)));
                    } else {
                        assert(id != j);
                    }
                    proof {
                        assert(base + (if 0 <= id < j + 1 {
                            seq![info(id)]
                        } else {
                            Seq::<OutgoingView>::empty()
                        }) =~= outgoing_views(out@));
                    }
                    j = j + 1;
                }
                proof {
                    assert(0 <= id < convos.len());
                    assert(ids.take(k + 1).map_values(info) =~= ids.take(k as int).map_values(
                        info,
                    ).push(info(id)));
                    assert(outgoing_views(out@) =~= seq![send(addr, list_intro(addr, bare))]
                        + ids.take(k + 1).map_values(info));
                }
                k = k + 1;
            }
            assert(ids.take(k as int) =~= ids);
        } else {
            assert(ids.len() == 0);
            assert(ids.map_values(info) =~= Seq::<OutgoingView>::empty());
            assert(outgoing_views(out@) =~= seq![send(addr, list_intro(addr, bare))]
                + ids.map_values(info));
        }
        let end = Outgoing { to: addr, reply: Reply::ListEnd };
        proof {
            lemma_views_push(out@, end);
        }
        out.push(end);
        proof {
            assert(outgoing_views(out@) =~= list_replies(self@.conversations, addr, bare));
        }
        out
    }
}

proof fn lemma_relay_sends_step(
    m: Seq<PeerAddr>,
    j: int,
    cid: UUID,
    from: PeerAddr,
    text: Seq<char>,
)
    requires
        0 <= j < m.len(),
    ensures
        relay_sends(m.take(j + 1), cid, from, text) == relay_sends(m.take(j), cid, from, text) + (
        if m[j] != from {
            seq![send(m[j], ReplyView::Relay { convo_id: cid, from, text })]
        } else {
            Seq::<OutgoingView>::empty()
        }),
{
    assert(m.take(j + 1).drop_last() =~= m.take(j));
    assert(m.take(j + 1).last() == m[j]);
    assert(relay_sends(m.take(j + 1), cid, from, text) =~= relay_sends(m.take(j), cid, from, text)
        + (if m[j] != from {
        seq![send(m[j], ReplyView::Relay { convo_id: cid, from, text })]
    } else {
        Seq::<OutgoingView>::empty()
    }));
}

proof fn lemma_step_registered(peers: Map<PeerAddr, Client>, s: Seq<PeerAddr>, i: int)
    requires
        0 <= i < s.len(),
    ensures
        registered(peers, s.take(i + 1)) == if peers.contains_key(s[i]) {
            registered(peers, s.take(i)).push(s[i])
        } else {
            registered(peers, s.take(i))
        },
{
    assert(s.take(i + 1).drop_last() =~= s.take(i));
    assert(s.take(i + 1).last() == s[i]);
}

/// A copy of `v`.
fn copy_addrs(v: &Vec<PeerAddr>) -> (r: Vec<PeerAddr>)
    ensures
        r@ == v@,
{
    let mut r: Vec<PeerAddr> = Vec::new();
    let mut i: usize = 0;
    while i < v.len()
        invariant
            i <= v@.len(),
            r@ == v@.take(i as int),
        decreases v@.len() - i,
    {
        r.push(v[i]);
        proof {
            assert(v@.take(i + 1) =~= v@.take(i as int).push(v@[i as int]));
        }
        i = i + 1;
    }
    assert(v@.take(i as int) =~= v@);
    r
}

impl Server {
    /// The answer to the line of chat `text` from `addr`.
    fn chat(&self, addr: PeerAddr, text: &str) -> (out: Vec<Outgoing>)
        requires
            self.wf(),
            self@.peers.contains_key(addr),
        ensures
            outgoing_views(out@) == chat_replies(self@, addr, text@),
    {
        proof {
            self.lemma_unfold();
        }
        let client = self.peers.get(addr).unwrap();
        let mut out: Vec<Outgoing> = Vec::new();
        match client.current_convo {
            Some(cid) => {
                let ghost convos = self@.conversations;
                let mut i: usize = 0;
                while i < self.convos.len()
                    invariant
                        i <= self.convos@.len(),
                        convos == conversation_views(self.convos@),
                        conversations_wf(convos),
                        outgoing_views(out@) == if 0 <= cid < i {
                            relay_sends(convos[cid as int].members, cid, addr, text@)
                        } else {
                            Seq::<OutgoingView>::empty()
                        },
                    decreases self.convos@.len() - i,
                {
                    assert(convos[i as int].id == i);
                    if self.convos[i].id == cid {
                        let ghost members = convos[i as int].members;
                        assert(members == self.convos@[i as int].clients@);
                        assert(members.take(0) =~= Seq::<PeerAddr>::empty());
                        assert(outgoing_views(out@) =~= relay_sends(members.take(0), cid, addr, text@));
                        let mut j: usize = 0;
                        while j < self.convos[i].clients.len()
                            invariant
                                i < self.convos@.len(),
                                members == self.convos@[i as int].clients@,
                                j <= members.len(),
                                self.convos@[i as int].id == cid,
                                outgoing_views(out@) == relay_sends(members.take(j as int), cid, addr, text@),
                            decreases members.len() - j,
                        {
                            let p = self.convos[i].clients[j];
                            proof {
                                lemma_relay_sends_step(members, j as int, cid, addr, text@);
                            }
                            if p != addr {
                                let o = Outgoing {
                                    to: p,
                                    reply: Reply::Relay {
                                        convo_id: self.convos[i].id,
                                        from: addr,
                                        text: text.to_owned(),
                                    },
                                };
                                proof {
                                    lemma_views_push(out@, o);
                                }
                                out.push(o);
                                assert(outgoing_views(out@) =~= relay_sends(members.take(j as int), cid, addr, text@) + seq![o@]);
                            } else {
                                assert(relay_sends(members.take(j as int), cid, addr, text@) + Seq::<OutgoingView>::empty() =~= relay_sends(members.take(j as int), cid, addr, text@));
                            }
                            j = j + 1;
                        }
                        assert(members.take(j as int) =~= members);
                    }
                    i = i + 1;
                }
            },
            None => {
                let tx = client.sender.unwrap();
                let o = Outgoing { to: tx, reply: Reply::Echo { text: text.to_owned() } };
                out.push(o);
                assert(outgoing_views(out@) =~= seq![o@]);
            },
        }
        out
    }

    /// Creates the conversation that `addr` asked for with the candidate
    /// addresses `cands`, and answers it.
    fn create_conversation(&mut self, addr: PeerAddr, cands: &Vec<PeerAddr>) -> (out: Vec<Outgoing>)
        requires
            old(self).wf(),
            old(self)@.peers.contains_key(addr),
            old(self)@.conversations.len() <= i32::MAX,
        ensures
            final(self).wf(),
            final(self)@.peers == old(self)@.peers,
            final(self)@.conversations == old(self)@.conversations.push(
                created_conversation(old(self)@, addr, cands@),
            ),
            outgoing_views(out@) == create_replies(old(self)@, addr, cands@),
    {
        proof {
            self.lemma_unfold();
        }
        let ghost s0 = self@;
        let mut receivers = copy_addrs(cands);
        receivers.push(addr);
        let mut out: Vec<Outgoing> = Vec::new();
        let mut members: Vec<PeerAddr> = Vec::new();
        proof {
            assert(receivers@.take(0) =~= Seq::<PeerAddr>::empty());
            assert(outgoing_views(out@) =~= added_sends(Seq::<PeerAddr>::empty()));
        }
        let mut i: usize = 0;
        while i < receivers.len()
            invariant
                i <= receivers@.len(),
                receivers@ == cands@.push(addr),
                self.peers.wf(),
                s0.peers == self.peers@,
                server_inv(s0),
                outgoing_views(out@) == added_sends(registered(s0.peers, receivers@.take(i as int))),
                members@ == dedup(registered(s0.peers, receivers@.take(i as int))),
            decreases receivers@.len() - i,
        {
            let r = receivers[i];
            proof {
                lemma_step_registered(s0.peers, receivers@, i as int);
            }
            let ghost reg = registered(s0.peers, receivers@.take(i as int));
            match self.peers.get(r) {
                Some(received) => {
                    assert(s0.peers.contains_key(r));
                    if let Some(tx) = received.sender {
                        let o = Outgoing { to: tx, reply: Reply::AddedToConversation };
                        proof {
                            lemma_views_push(out@, o);
                        }
                        out.push(o);
                    }
                    assert(outgoing_views(out@) =~= added_sends(reg.push(r)));
                    if !contains_addr(&members, r) {
                        members.push(r);
                    }
                    assert(reg.push(r).drop_last() =~= reg);
                },
                None => {},
            }
            i = i + 1;
        }
        assert(receivers@.take(i as int) =~= cands@.push(addr));
        proof {
            lemma_dedup_no_duplicates(registered(s0.peers, cands@.push(addr)));
        }
        let listed = copy_addrs(&members);
        let me = self.peers.get(addr).unwrap();
        let tx = me.sender.unwrap();
        let created = Outgoing { to: tx, reply: Reply::ConversationCreated { members: listed } };
        proof {
            lemma_views_push(out@, created);
        }
        out.push(created);
        let id = self.convos.len() as UUID;
        let convo = Conversation { name: String::new(), id, clients: members };
        let ghost c0 = self.convos@;
        self.convos.push(convo);
        proof {
            assert(conversation_views(self.convos@) =~= conversation_views(c0).push(convo@));
            self.lemma_unfold();
            let s1 = self@;
            assert(s1.conversations == s0.conversations.push(created_conversation(s0, addr, cands@)));
            assert(conversations_wf(s1.conversations)) by {
                assert forall|k: int| 0 <= k < s1.conversations.len() implies (
                #[trigger] s1.conversations[k]).id == k && s1.conversations[k].members.no_duplicates() by {
                    if k < s0.conversations.len() {
                        assert(s1.conversations[k] == s0.conversations[k]);
                    }
                }
            }
            assert forall|k: PeerAddr| #[trigger] s1.peers.contains_key(k) implies {
                &&& s1.peers[k].sender == Some(k)
                &&& s1.peers[k].current_convo matches Some(id) ==> 0 <= id < s1.conversations.len()
                    && s1.conversations[id as int].members.contains(k)
            } by {
                if let Some(id) = s1.peers[k].current_convo {
                    assert(s1.conversations[id as int] == s0.conversations[id as int]);
                }
            }
            assert(server_inv(s1));
        }
        out
    }

    /// Makes `addr` talk in the conversation that `text` names, where it is a
    /// member of one by that identifier.
    fn switch_conversation(&mut self, addr: PeerAddr, text: &str)
        requires
            old(self).wf(),
            old(self)@.peers.contains_key(addr),
        ensures
            final(self).wf(),
            final(self)@.peers == switched_peers(old(self)@, addr, text@),
            final(self)@.conversations == old(self)@.conversations,
    {
        proof {
            self.lemma_unfold();
        }
        let ghost s0 = self@;
        let v = chars_of(text);
        let (a, b) = trim_bounds(&v, 0, v.len());
        assert(v@.subrange(0, v@.len() as int) =~= v@);
        match parse_i32_range(&v, a, b) {
            Some(convo_id) => {
                let ghost updated = s0.peers.insert(
                    addr,
                    Client { current_convo: Some(convo_id), ..s0.peers[addr] },
                );
                let mut i: usize = 0;
                while i < self.convos.len()
                    invariant
                        i <= self.convos@.len(),
                        self.peers.wf(),
                        s0.conversations == conversation_views(self.convos@),
                        s0.peers.contains_key(addr),
                        server_inv(s0),
                        updated == s0.peers.insert(
                            addr,
                            Client { current_convo: Some(convo_id), ..s0.peers[addr] },
                        ),
                        self.peers@ == if 0 <= convo_id < i && s0.conversations[convo_id as int].members.contains(addr) {
                            updated
                        } else {
                            s0.peers
                        },
                    decreases self.convos@.len() - i,
                {
                    assert(s0.conversations[i as int].id == i);
                    if self.convos[i].id == convo_id && contains_addr(&self.convos[i].clients, addr) {
                        let mut c = self.peers.get(addr).unwrap();
                        c.current_convo = Some(convo_id);
                        self.peers.insert(addr, c);
                        assert(self.peers@ =~= updated);
                    }
                    i = i + 1;
                }
            },
            None => {},
        }
        proof {
            self.lemma_unfold();
            let s1 = self@;
            assert(s1.peers =~= switched_peers(s0, addr, text@));
            assert forall|k: PeerAddr| #[trigger] s1.peers.contains_key(k) implies {
                &&& s1.peers[k].sender == Some(k)
                &&& s1.peers[k].current_convo matches Some(id) ==> 0 <= id < s1.conversations.len()
                    && s1.conversations[id as int].members.contains(k)
            } by {
                assert(s0.peers.contains_key(k));
            }
        }
    }

    /// Handles the message `text` of the connection from `addr`, which is in
    /// `mode`: updates the bookkeeping and the connection's mode, and returns
    /// the replies to send, in order. Where the connection waits for the
    /// addresses of a new conversation, `candidates` are the addresses that the
    /// message's tokens (see `address_tokens`) read as, in order.
    pub fn handle_message(
        &mut self,
        mode: &mut IO_STATE,
        addr: PeerAddr,
        text: &str,
        candidates: &Vec<PeerAddr>,
    ) -> (out: Vec<Outgoing>)
        requires
            old(self).wf(),
            step_allowed(old(self)@, *old(mode), addr, text@, candidates@),
        ensures
            final(self).wf(),
            final(self)@ == step(old(self)@, *old(mode), addr, text@, candidates@).0,
            *final(mode) == step(old(self)@, *old(mode), addr, text@, candidates@).1,
            outgoing_views(out@) == step(old(self)@, *old(mode), addr, text@, candidates@).2,
    {
        proof {
            self.lemma_unfold();
        }
        let ghost s0 = self@;
        match *mode {
            IO_STATE::CREATE_NEW_CONVO => {
                let out = if candidates.len() > 0 {
                    self.create_conversation(addr, candidates)
                } else {
                    Vec::new()
                };
                *mode = IO_STATE::SEND;
                assert(outgoing_views(out@) =~= step(s0, IO_STATE::CREATE_NEW_CONVO, addr, text@, candidates@).2);
                out
            },
            IO_STATE::CONNECT_TO_CONVO => {
                self.switch_conversation(addr, text);
                *mode = IO_STATE::SEND;
                let out: Vec<Outgoing> = Vec::new();
                assert(outgoing_views(out@) =~= Seq::<OutgoingView>::empty());
                out
            },
            IO_STATE::SEND => {
                let me = self.peers.get(addr).unwrap();
                let tx = me.sender.unwrap();
                let mut out: Vec<Outgoing> = Vec::new();
                match read_command(text) {
                    Command::List => {
                        out = self.list_conversations(addr, false);
                    },
                    Command::Connect => {
                        *mode = IO_STATE::CREATE_NEW_CONVO;
                        out.push(Outgoing { to: tx, reply: Reply::ConnectPrompt });
                        assert(outgoing_views(out@) =~= seq![send(addr, ReplyView::ConnectPrompt)]);
                    },
                    Command::Switch => {
                        *mode = IO_STATE::CONNECT_TO_CONVO;
                        out.push(Outgoing { to: tx, reply: Reply::SwitchPrompt });
                        assert(outgoing_views(out@) =~= seq![send(addr, ReplyView::SwitchPrompt)]);
                    },
                    Command::Current => {
                        out.push(Outgoing { to: tx, reply: Reply::CurrentClient { client: me } });
                        assert(outgoing_views(out@) =~= seq![send(addr, ReplyView::CurrentClient { client: s0.peers[addr] })]);
                    },
                    Command::Chat => {
                        out = self.chat(addr, text);
                    },
                }
                out
            },
        }
    }

    /// Handles the message `text` of the connection from `addr` in the basic
    /// way: it answers `--list` and `--connect`, written exactly so, and
    /// changes nothing.
    pub fn handle_message_basic(&self, addr: PeerAddr, text: &str) -> (out: Vec<Outgoing>)
        requires
            self.wf(),
            self@.peers.contains_key(addr),
        ensures
            outgoing_views(out@) == basic_replies(self@, addr, text@),
    {
        proof {
            self.lemma_unfold();
        }
        let me = self.peers.get(addr).unwrap();
        let tx = me.sender.unwrap();
        let v = chars_of(text);
        assert(v@.subrange(0, v@.len() as int) =~= v@);
        let mut out: Vec<Outgoing> = Vec::new();
        match word_command_in(&v, 0, v.len()) {
            Command::List => {
                out = self.list_conversations(addr, true);
            },
            Command::Connect => {
                out.push(Outgoing { to: tx, reply: Reply::ConnectPrompt });
                assert(outgoing_views(out@) =~= seq![send(addr, ReplyView::ConnectPrompt)]);
            },
            _ => {
                assert(outgoing_views(out@) =~= Seq::<OutgoingView>::empty());
            },
        }
        out
    }
}

} // verus!
