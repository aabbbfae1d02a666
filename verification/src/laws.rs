//! Properties of the server's rules that span more than one call.
use vstd::prelude::*;

use crate::addr::PeerAddr;
use crate::protocol::{
    chat_replies, command_of, created_conversation, dedup, lemma_dedup_no_duplicates, others,
    reached, registered, relay_sends, send, step, switch_target, Command, IO_STATE, OutgoingView,
    ReplyView,
};
use crate::text::{parse_i32, trim};
use crate::server::{conversation_ids_of, conversations_wf, server_inv, ServerView, UUID};

verus! {

/// Whatever a message does, the conversations that existed before stay as
/// they were, in their places, and at most one is added after them.
pub proof fn lemma_conversations_only_grow(
    s: ServerView,
    mode: IO_STATE,
    addr: PeerAddr,
    text: Seq<char>,
    cands: Seq<PeerAddr>,
)
    ensures
        s.conversations.len() <= step(s, mode, addr, text, cands).0.conversations.len() <= s.conversations.len() + 1,
        step(s, mode, addr, text, cands).0.conversations.take(s.conversations.len() as int) == s.conversations,
{
    let after = step(s, mode, addr, text, cands).0.conversations;
    assert(after.take(s.conversations.len() as int) =~= s.conversations);
}

/// A connection that waits for addresses or for a conversation's identifier
/// reads the next message as such, whatever it holds, and then waits for
/// commands again.
pub proof fn lemma_pending_mode_is_consumed(
    s: ServerView,
    mode: IO_STATE,
    addr: PeerAddr,
    text: Seq<char>,
    cands: Seq<PeerAddr>,
)
    requires
        mode != IO_STATE::SEND,
    ensures
        step(s, mode, addr, text, cands).1 == IO_STATE::SEND,
{
}

/// Listing, showing the client and chatting change no bookkeeping and leave
/// the connection waiting for commands.
pub proof fn lemma_queries_change_nothing(
    s: ServerView,
    addr: PeerAddr,
    text: Seq<char>,
    cands: Seq<PeerAddr>,
)
    requires
        command_of(text) == Command::List || command_of(text) == Command::Current || command_of(
            text,
        ) == Command::Chat,
    ensures
        step(s, IO_STATE::SEND, addr, text, cands).0 == s,
        step(s, IO_STATE::SEND, addr, text, cands).1 == IO_STATE::SEND,
{
}

/// In a consistent server no two conversations share an identifier, and the
/// identifier of each is its position.
pub proof fn lemma_conversation_ids_unique(s: ServerView)
    requires
        server_inv(s),
    ensures
        forall|i: int| 0 <= i < s.conversations.len() ==> #[trigger] s.conversations[i].id == i,
        forall|i: int, j: int|
            0 <= i < s.conversations.len() && 0 <= j < s.conversations.len() && i != j
                ==> #[trigger] s.conversations[i].id != #[trigger] s.conversations[j].id,
{
}

/// In a consistent server a client talks, if at all, in a conversation that
/// exists and that it is a member of.
pub proof fn lemma_current_conversation_has_client(s: ServerView, k: PeerAddr)
    requires
        server_inv(s),
        s.peers.contains_key(k),
        s.peers[k].current_convo is Some,
    ensures
        0 <= s.peers[k].current_convo->0 < s.conversations.len(),
        s.conversations[s.peers[k].current_convo->0 as int].members.contains(k),
{
}

proof fn lemma_registered_contains(peers: Map<PeerAddr, crate::server::Client>, s: Seq<PeerAddr>, a: PeerAddr)
    ensures
        registered(peers, s).contains(a) <==> (s.contains(a) && peers.contains_key(a)),
    decreases s.len(),
{
    if s.len() > 0 {
        let d = s.drop_last();
        lemma_registered_contains(peers, d, a);
        assert(s =~= d.push(s.last()));
        crate::protocol::lemma_contains_push(d, s.last(), a);
        crate::protocol::lemma_contains_push(registered(peers, d), s.last(), a);
    }
}

/// The conversation that `addr` creates has `addr` among its members, and, as
/// members, exactly `addr` and the candidates that are registered clients,
/// each once.
pub proof fn lemma_created_conversation_members(s: ServerView, addr: PeerAddr, cands: Seq<PeerAddr>)
    requires
        s.peers.contains_key(addr),
    ensures
        created_conversation(s, addr, cands).members.no_duplicates(),
        created_conversation(s, addr, cands).members.contains(addr),
        forall|a: PeerAddr|
            #[trigger] created_conversation(s, addr, cands).members.contains(a) <==> (a == addr || (
            cands.contains(a) && s.peers.contains_key(a))),
        created_conversation(s, addr, cands).id == s.conversations.len() as UUID,
{
    let r = reached(s, addr, cands);
    lemma_dedup_no_duplicates(r);
    assert forall|a: PeerAddr| #[trigger] created_conversation(s, addr, cands).members.contains(a) <==> (a
        == addr || (cands.contains(a) && s.peers.contains_key(a))) by {
        lemma_registered_contains(s.peers, cands.push(addr), a);
        crate::protocol::lemma_contains_push(cands, addr, a);
    }
    lemma_registered_contains(s.peers, cands.push(addr), addr);
    crate::protocol::lemma_contains_push(cands, addr, addr);
}

/// `--connect` followed by a line with at least one address creates a new
/// conversation, with its creator as a member, and leaves the connection
/// waiting for commands again.
pub proof fn lemma_connect_then_addresses_creates(
    s: ServerView,
    addr: PeerAddr,
    command: Seq<char>,
    line: Seq<char>,
    c1: Seq<PeerAddr>,
    cands: Seq<PeerAddr>,
)
    requires
        s.peers.contains_key(addr),
        command_of(command) == Command::Connect,
        cands.len() > 0,
    ensures
        step(s, IO_STATE::SEND, addr, command, c1).1 == IO_STATE::CREATE_NEW_CONVO,
        ({
            let s1 = step(s, IO_STATE::SEND, addr, command, c1).0;
            let (s2, m2, _) = step(s1, IO_STATE::CREATE_NEW_CONVO, addr, line, cands);
            &&& m2 == IO_STATE::SEND
            &&& s2.conversations.len() == s.conversations.len() + 1
            &&& s2.conversations.last().members.contains(addr)
            &&& s2.peers == s.peers
        }),
{
    lemma_created_conversation_members(s, addr, cands);
}

/// Once `addr` has switched into a conversation, each line of chat it writes
/// goes to every other member of that conversation, and to no one else.
pub proof fn lemma_switch_then_chat_relays(
    s: ServerView,
    addr: PeerAddr,
    line: Seq<char>,
    chat: Seq<char>,
    cands: Seq<PeerAddr>,
)
    requires
        s.peers.contains_key(addr),
        switch_target(s, addr, line) is Some,
    ensures
        ({
            let id = switch_target(s, addr, line)->0;
            let s1 = step(s, IO_STATE::CONNECT_TO_CONVO, addr, line, cands).0;
            &&& s1.peers[addr].current_convo == Some(id)
            &&& chat_replies(s1, addr, chat) == relay_sends(
                s.conversations[id as int].members,
                id,
                addr,
                chat,
            )
        }),
{
}

proof fn lemma_others_excludes(members: Seq<PeerAddr>, addr: PeerAddr, p: PeerAddr)
    ensures
        others(members, addr).contains(p) <==> (members.contains(p) && p != addr),
    decreases members.len(),
{
    if members.len() > 0 {
        let d = members.drop_last();
        lemma_others_excludes(d, addr, p);
        assert(members =~= d.push(members.last()));
        crate::protocol::lemma_contains_push(d, members.last(), p);
        crate::protocol::lemma_contains_push(others(d, addr), members.last(), p);
    }
}

/// A line of chat is never relayed back to its writer: every relay of it goes
/// to another member of the writer's conversation.
pub proof fn lemma_relays_skip_writer(
    members: Seq<PeerAddr>,
    cid: UUID,
    addr: PeerAddr,
    text: Seq<char>,
    k: int,
)
    requires
        0 <= k < relay_sends(members, cid, addr, text).len(),
    ensures
        relay_sends(members, cid, addr, text)[k].to != addr,
        members.contains(relay_sends(members, cid, addr, text)[k].to),
{
    let o = others(members, addr);
    assert(o.contains(o[k]));
    lemma_others_excludes(members, addr, o[k]);
}

/// In a consistent server the listing of `addr` names exactly the
/// conversations that `addr` is a member of, each once, in the order of their
/// identifiers.
pub proof fn lemma_listing_is_exact(addr: PeerAddr, convos: Seq<crate::server::ConversationView>)
    requires
        conversations_wf(convos),
    ensures
        forall|id: UUID|
            conversation_ids_of(addr, convos).contains(id) <==> (0 <= id < convos.len()
                && convos[id as int].members.contains(addr)),
        forall|i: int, j: int|
            0 <= i < j < conversation_ids_of(addr, convos).len() ==> conversation_ids_of(addr, convos)[i]
                < conversation_ids_of(addr, convos)[j],
    decreases convos.len(),
{
    if convos.len() > 0 {
        let d = convos.drop_last();
        assert(conversations_wf(d)) by {
            assert forall|i: int| 0 <= i < d.len() implies (#[trigger] d[i]).id == i
                && d[i].members.no_duplicates() by {
                assert(d[i] == convos[i]);
            }
        }
        lemma_listing_is_exact(addr, d);
        crate::protocol::lemma_ids_are_positions(addr, d);
        let last = convos.len() - 1;
        assert(convos[last].id == last);
        let ids = conversation_ids_of(addr, convos);
        let dids = conversation_ids_of(addr, d);
        assert forall|id: UUID| ids.contains(id) <==> (0 <= id < convos.len()
            && convos[id as int].members.contains(addr)) by {
            if ids.contains(id) {
                let k = choose|k: int| 0 <= k < ids.len() && ids[k] == id;
                if k < dids.len() {
                    assert(ids[k] == dids[k]);
                    assert(dids.contains(id));
                    assert(d[id as int] == convos[id as int]);
                } else {
                    assert(convos.last().members.contains(addr));
                    assert(ids == dids.push(convos.last().id));
                }
            }
            if 0 <= id < convos.len() && convos[id as int].members.contains(addr) {
                if id < last {
                    assert(d[id as int] == convos[id as int]);
                    assert(dids.contains(id));
                    let k = choose|k: int| 0 <= k < dids.len() && dids[k] == id;
                    assert(ids[k] == dids[k]);
                    assert(ids.contains(id));
                } else {
                    assert(convos.last().members.contains(addr));
                    assert(ids == dids.push(convos.last().id));
                    assert(ids[ids.len() - 1] == id);
                    assert(ids.contains(id));
                }
            }
        }
        assert forall|i: int, j: int| 0 <= i < j < ids.len() implies ids[i] < ids[j] by {
            if j < dids.len() {
                assert(ids[i] == dids[i] && ids[j] == dids[j]);
            } else {
                assert(ids[i] == dids[i]);
                assert(0 <= dids[i] < d.len());
            }
        }
    }
}

/// A request to talk in a conversation that does not exist, that the client is
/// not a member of, or that is no identifier at all, changes nothing and is
/// answered with nothing.
pub proof fn lemma_refused_switch_changes_nothing(
    s: ServerView,
    addr: PeerAddr,
    line: Seq<char>,
    cands: Seq<PeerAddr>,
)
    requires
        switch_target(s, addr, line) is None,
    ensures
        step(s, IO_STATE::CONNECT_TO_CONVO, addr, line, cands).0 == s,
        step(s, IO_STATE::CONNECT_TO_CONVO, addr, line, cands).2 == Seq::<OutgoingView>::empty(),
{
}

/// A line of addresses none of which could be read creates no conversation
/// and is answered with nothing.
pub proof fn lemma_no_address_creates_nothing(
    s: ServerView,
    addr: PeerAddr,
    line: Seq<char>,
)
    ensures
        step(s, IO_STATE::CREATE_NEW_CONVO, addr, line, Seq::empty()).0 == s,
        step(s, IO_STATE::CREATE_NEW_CONVO, addr, line, Seq::empty()).2 == Seq::<OutgoingView>::empty(),
{
}

/// A line of chat from a client that talks in no conversation comes back to
/// it, unchanged, and to no one else.
pub proof fn lemma_chat_alone_is_echoed(s: ServerView, addr: PeerAddr, text: Seq<char>)
    requires
        s.peers.contains_key(addr),
        s.peers[addr].current_convo is None,
    ensures
        chat_replies(s, addr, text) == seq![
            OutgoingView { to: addr, reply: crate::protocol::ReplyView::Echo { text } },
        ],
{
}

/// The answer to `--list` from `addr` is a heading, then one entry for each
/// conversation that `addr` is a member of and for no other, in increasing
/// order of identifiers, then an end mark, all sent to `addr`.
pub proof fn lemma_list_names_the_client_conversations(
    s: ServerView,
    addr: PeerAddr,
    text: Seq<char>,
    cands: Seq<PeerAddr>,
)
    requires
        server_inv(s),
        command_of(text) == Command::List,
    ensures
        ({
            let out = step(s, IO_STATE::SEND, addr, text, cands).2;
            &&& out.len() >= 2
            &&& out[0] == send(addr, ReplyView::ListIntro { addr })
            &&& out.last() == send(addr, ReplyView::ListEnd)
            &&& forall|k: int|
                1 <= k < out.len() - 1 ==> (#[trigger] out[k]).to == addr && (out[k].reply matches ReplyView::ConversationInfo { id }
                    && 0 <= id < s.conversations.len() && s.conversations[id as int].members.contains(addr))
            &&& forall|i: int|
                0 <= i < s.conversations.len() && #[trigger] s.conversations[i].members.contains(addr)
                    ==> exists|k: int|
                    1 <= k < out.len() - 1 && #[trigger] out[k].reply == ReplyView::ConversationInfo {
                        id: s.conversations[i].id,
                    }
            &&& forall|k1: int, k2: int|
                1 <= k1 < k2 < out.len() - 1 ==> (#[trigger] out[k1]).reply->id < (#[trigger] out[k2]).reply->id
        }),
{
    let out = step(s, IO_STATE::SEND, addr, text, cands).2;
    let ids = conversation_ids_of(addr, s.conversations);
    lemma_listing_is_exact(addr, s.conversations);
    let n = ids.len();
    assert(out.len() == n + 2);
    assert forall|k: int| 1 <= k < out.len() - 1 implies (#[trigger] out[k]).to == addr && out[k].reply
        == ReplyView::ConversationInfo { id: ids[k - 1] } by {
    }
    assert forall|k: int|
        1 <= k < out.len() - 1 implies (#[trigger] out[k]).to == addr && (out[k].reply matches ReplyView::ConversationInfo { id }
            && 0 <= id < s.conversations.len() && s.conversations[id as int].members.contains(addr)) by {
        assert(out[k].reply == ReplyView::ConversationInfo { id: ids[k - 1] });
        assert(ids.contains(ids[k - 1]));
    }
    assert forall|i: int|
        0 <= i < s.conversations.len() && #[trigger] s.conversations[i].members.contains(addr)
            implies exists|k: int|
            1 <= k < out.len() - 1 && #[trigger] out[k].reply == ReplyView::ConversationInfo {
                id: s.conversations[i].id,
            } by {
        assert(s.conversations[i].id == i);
        let id = s.conversations[i].id;
        assert(ids.contains(id));
        let m = choose|m: int| 0 <= m < ids.len() && ids[m] == id;
        assert(out[m + 1].reply == ReplyView::ConversationInfo { id: ids[m] });
    }
    assert forall|k1: int, k2: int| 1 <= k1 < k2 < out.len() - 1 implies (#[trigger] out[k1]).reply->id
        < (#[trigger] out[k2]).reply->id by {
        assert(out[k1].reply == ReplyView::ConversationInfo { id: ids[k1 - 1] });
        assert(out[k2].reply == ReplyView::ConversationInfo { id: ids[k2 - 1] });
    }
}

/// After `--switch`, the message that follows sets the conversation the client
/// talks in to the one whose identifier the trimmed message reads as, where
/// the client is a member of it; otherwise nothing changes. No other client
/// and no conversation changes in either case.
pub proof fn lemma_switch_selects_the_named_conversation(
    s: ServerView,
    addr: PeerAddr,
    text: Seq<char>,
    cands: Seq<PeerAddr>,
)
    requires
        server_inv(s),
        s.peers.contains_key(addr),
    ensures
        ({
            let (s1, m1, out) = step(s, IO_STATE::CONNECT_TO_CONVO, addr, text, cands);
            &&& m1 == IO_STATE::SEND
            &&& out.len() == 0
            &&& s1.conversations == s.conversations
            &&& s1.peers.dom() == s.peers.dom()
            &&& forall|k: PeerAddr| k != addr && s.peers.contains_key(k) ==> #[trigger] s1.peers[k] == s.peers[k]
            &&& s1.peers[addr].sender == s.peers[addr].sender
            &&& s1.peers[addr].sender_addr == s.peers[addr].sender_addr
            &&& if exists|i: int|
                0 <= i < s.conversations.len() && Some(#[trigger] s.conversations[i].id) == parse_i32(trim(text))
                    && s.conversations[i].members.contains(addr) {
                s1.peers[addr].current_convo == parse_i32(trim(text))
            } else {
                s1.peers == s.peers
            }
        }),
{
    let s1 = step(s, IO_STATE::CONNECT_TO_CONVO, addr, text, cands).0;
    if exists|i: int|
        0 <= i < s.conversations.len() && Some(#[trigger] s.conversations[i].id) == parse_i32(trim(text))
            && s.conversations[i].members.contains(addr) {
        let i = choose|i: int|
            0 <= i < s.conversations.len() && Some(#[trigger] s.conversations[i].id) == parse_i32(trim(text))
                && s.conversations[i].members.contains(addr);
        assert(s.conversations[i].id == i);
    } else {
        if let Some(id) = parse_i32(trim(text)) {
            if 0 <= id < s.conversations.len() {
                assert(s.conversations[id as int].id == id);
            }
        }
        assert(switch_target(s, addr, text) is None);
    }
    assert(s1.peers.dom() =~= s.peers.dom());
}

proof fn lemma_others_no_duplicates(members: Seq<PeerAddr>, addr: PeerAddr)
    requires
        members.no_duplicates(),
    ensures
        others(members, addr).no_duplicates(),
    decreases members.len(),
{
    if members.len() > 0 {
        let d = members.drop_last();
        assert(d.no_duplicates());
        lemma_others_no_duplicates(d, addr);
        let x = members.last();
        if x != addr {
            let o = others(d, addr);
            lemma_others_excludes(d, addr, x);
            assert(!d.contains(x)) by {
                if d.contains(x) {
                    let j = choose|j: int| 0 <= j < d.len() && d[j] == x;
                    assert(members[j] == members[members.len() - 1]);
                }
            }
            assert forall|i: int, j: int|
                0 <= i < o.push(x).len() && 0 <= j < o.push(x).len() && i != j implies o.push(x)[i]
                != o.push(x)[j] by {
                if i == o.len() {
                    assert(o.contains(o[j]));
                } else if j == o.len() {
                    assert(o.contains(o[i]));
                }
            }
        }
    }
}

/// A line of chat from a client that talks in a conversation goes, as a relay
/// of that very line from that client in that conversation, to every other
/// member of the conversation, once each, and to no one else; from a client
/// that talks in none it comes back to it as an echo, and goes nowhere else.
pub proof fn lemma_chat_reaches_every_other_member(
    s: ServerView,
    addr: PeerAddr,
    text: Seq<char>,
    cands: Seq<PeerAddr>,
)
    requires
        server_inv(s),
        s.peers.contains_key(addr),
        command_of(text) == Command::Chat,
    ensures
        step(s, IO_STATE::SEND, addr, text, cands).0 == s,
        ({
            let out = step(s, IO_STATE::SEND, addr, text, cands).2;
            match s.peers[addr].current_convo {
                Some(cid) => {
                    let members = s.conversations[cid as int].members;
                    &&& forall|k: int|
                        0 <= k < out.len() ==> (#[trigger] out[k]).to != addr && members.contains(out[k].to)
                            && out[k].reply == ReplyView::Relay { convo_id: cid, from: addr, text }
                    &&& forall|p: PeerAddr|
                        #[trigger] members.contains(p) && p != addr ==> exists|k: int|
                            0 <= k < out.len() && #[trigger] out[k].to == p
                    &&& forall|k1: int, k2: int|
                        0 <= k1 < out.len() && 0 <= k2 < out.len() && k1 != k2 ==> (#[trigger] out[k1]).to
                            != (#[trigger] out[k2]).to
                },
                None => out == seq![send(addr, ReplyView::Echo { text })],
            }
        }),
{
    let out = step(s, IO_STATE::SEND, addr, text, cands).2;
    if let Some(cid) = s.peers[addr].current_convo {
        let members = s.conversations[cid as int].members;
        let o = others(members, addr);
        assert(out == relay_sends(members, cid, addr, text));
        lemma_others_no_duplicates(members, addr);
        assert forall|k: int| 0 <= k < out.len() implies (#[trigger] out[k]).to != addr && members.contains(out[k].to)
            && out[k].reply == ReplyView::Relay { convo_id: cid, from: addr, text } by {
            lemma_relays_skip_writer(members, cid, addr, text, k);
        }
        assert forall|p: PeerAddr| #[trigger] members.contains(p) && p != addr implies exists|k: int|
            0 <= k < out.len() && #[trigger] out[k].to == p by {
            lemma_others_excludes(members, addr, p);
            let k = choose|k: int| 0 <= k < o.len() && o[k] == p;
            assert(out[k].to == o[k]);
        }
        assert forall|k1: int, k2: int| 0 <= k1 < out.len() && 0 <= k2 < out.len() && k1 != k2 implies (
        #[trigger] out[k1]).to != (#[trigger] out[k2]).to by {
            assert(out[k1].to == o[k1] && out[k2].to == o[k2]);
        }
    }
}

/// After `--connect`, a line with at least one readable address appends one
/// conversation, with the next identifier and no name, whose members are
/// exactly the creator and the candidates that are connected clients, each
/// once; every client and every earlier conversation stays as it was. Every
/// member is told it was added, only members are told so, and last the creator
/// is told the members.
pub proof fn lemma_create_makes_every_candidate_a_member(
    s: ServerView,
    addr: PeerAddr,
    text: Seq<char>,
    cands: Seq<PeerAddr>,
)
    requires
        s.peers.contains_key(addr),
        cands.len() > 0,
    ensures
        ({
            let (s1, m1, out) = step(s, IO_STATE::CREATE_NEW_CONVO, addr, text, cands);
            let c = s1.conversations.last();
            &&& m1 == IO_STATE::SEND
            &&& s1.peers == s.peers
            &&& s1.conversations.len() == s.conversations.len() + 1
            &&& s1.conversations.take(s.conversations.len() as int) == s.conversations
            &&& c.id == s.conversations.len() as UUID
            &&& c.name == Seq::<char>::empty()
            &&& c.members.no_duplicates()
            &&& forall|a: PeerAddr|
                #[trigger] c.members.contains(a) <==> (a == addr || (cands.contains(a)
                    && s.peers.contains_key(a)))
            &&& out.len() >= 1
            &&& out.last() == send(addr, ReplyView::ConversationCreated { members: c.members })
            &&& forall|k: int|
                0 <= k < out.len() - 1 ==> (#[trigger] out[k]).reply == ReplyView::AddedToConversation
                    && c.members.contains(out[k].to)
            &&& forall|a: PeerAddr|
                #[trigger] c.members.contains(a) ==> exists|k: int| 0 <= k < out.len() - 1 && #[trigger] out[k].to == a
        }),
{
    let (s1, m1, out) = step(s, IO_STATE::CREATE_NEW_CONVO, addr, text, cands);
    let c = s1.conversations.last();
    lemma_created_conversation_members(s, addr, cands);
    assert(c == created_conversation(s, addr, cands));
    assert(s1.conversations.take(s.conversations.len() as int) =~= s.conversations);
    let r = reached(s, addr, cands);
    assert forall|k: int| 0 <= k < out.len() - 1 implies (#[trigger] out[k]).reply
        == ReplyView::AddedToConversation && c.members.contains(out[k].to) by {
        assert(out[k].to == r[k]);
        assert(r.contains(r[k]));
        lemma_registered_contains(s.peers, cands.push(addr), r[k]);
        crate::protocol::lemma_contains_push(cands, addr, r[k]);
    }
    assert forall|a: PeerAddr| #[trigger] c.members.contains(a) implies exists|k: int|
        0 <= k < out.len() - 1 && #[trigger] out[k].to == a by {
        lemma_registered_contains(s.peers, cands.push(addr), a);
        crate::protocol::lemma_contains_push(cands, addr, a);
        let k = choose|k: int| 0 <= k < r.len() && r[k] == a;
        assert(out[k].to == r[k]);
    }
}

} // verus!
