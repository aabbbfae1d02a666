use scorpio::addr::PeerAddr;
use scorpio::protocol::{read_command, Command, Outgoing, Reply, IO_STATE};
use scorpio::server::{get_conversations_uuid, Client, Conversation, Server, SERVER_ADDR};
use scorpio::state::State;
use scorpio::text::address_tokens;

fn peer(port: u16) -> PeerAddr {
    PeerAddr::V4 { ip: 0x7f00_0001, port }
}

fn send(to: PeerAddr, reply: Reply) -> Outgoing {
    Outgoing { to, reply }
}

fn step(server: &mut Server, mode: &mut IO_STATE, from: PeerAddr, text: &str) -> Vec<Outgoing> {
    server.handle_message(mode, from, text, &Vec::new())
}

/// A server with clients on ports 1, 2 and 3, where the client on port 1 has
/// created a conversation with the client on port 2.
fn server_with_conversation() -> Server {
    let mut s = Server::new();
    s.connect(peer(1));
    s.connect(peer(2));
    s.connect(peer(3));
    let mut mode = IO_STATE::SEND;
    step(&mut s, &mut mode, peer(1), "--connect");
    s.handle_message(&mut mode, peer(1), "127.0.0.1:2", &vec![peer(2)]);
    s
}

#[test]
fn state_default_has_no_address() {
    let s = State::default();
    assert!(s.address.is_none());
}

#[test]
fn client_default_is_unreachable_and_idle() {
    let c = Client::default();
    assert_eq!(c, Client { sender_addr: None, sender: None, current_convo: None });
}

#[test]
fn server_address_is_local_port_1234() {
    assert_eq!(SERVER_ADDR, "127.0.0.1:1234");
}

#[test]
fn connect_registers_a_fresh_client() {
    let mut s = Server::new();
    assert_eq!(s.client(peer(1)), None);
    s.connect(peer(1));
    assert_eq!(
        s.client(peer(1)),
        Some(Client { sender_addr: None, sender: Some(peer(1)), current_convo: None })
    );
}

#[test]
fn disconnect_unregisters_the_client() {
    let mut s = Server::new();
    s.connect(peer(1));
    s.connect(peer(2));
    s.disconnect(peer(1));
    assert_eq!(s.client(peer(1)), None);
    assert!(s.client(peer(2)).is_some());
}

#[test]
fn get_conversations_uuid_is_none_for_a_stranger() {
    let convos = vec![Conversation { name: String::new(), id: 0, clients: vec![peer(1)] }];
    assert_eq!(get_conversations_uuid(peer(9), &convos), None);
    assert_eq!(get_conversations_uuid(peer(9), &Vec::new()), None);
}

#[test]
fn get_conversations_uuid_lists_memberships_in_order() {
    let convos = vec![
        Conversation { name: String::new(), id: 0, clients: vec![peer(1), peer(2)] },
        Conversation { name: String::new(), id: 1, clients: vec![peer(3)] },
        Conversation { name: String::new(), id: 2, clients: vec![peer(2), peer(1)] },
    ];
    assert_eq!(get_conversations_uuid(peer(1), &convos), Some(vec![0, 2]));
    assert_eq!(get_conversations_uuid(peer(3), &convos), Some(vec![1]));
}

#[test]
fn commands_are_read_after_trimming() {
    assert_eq!(read_command("--list"), Command::List);
    assert_eq!(read_command("--list\n"), Command::List);
    assert_eq!(read_command("--connect \r\n"), Command::Connect);
    assert_eq!(read_command("--switch"), Command::Switch);
    assert_eq!(read_command("--current\t"), Command::Current);
    assert_eq!(read_command(" --list"), Command::Chat);
    assert_eq!(read_command("--lis"), Command::Chat);
    assert_eq!(read_command("hello"), Command::Chat);
}

#[test]
fn address_tokens_split_on_single_spaces_and_trim() {
    assert_eq!(address_tokens(""), vec![String::new()]);
    assert_eq!(address_tokens("a  b"), vec!["a".to_string(), String::new(), "b".to_string()]);
    assert_eq!(
        address_tokens(" 1.2.3.4:5\n 6.7.8.9:10"),
        vec![String::new(), "1.2.3.4:5".to_string(), "6.7.8.9:10".to_string()]
    );
}

#[test]
fn list_without_conversations() {
    let mut s = Server::new();
    s.connect(peer(1));
    let mut mode = IO_STATE::SEND;
    let out = step(&mut s, &mut mode, peer(1), "--list");
    assert_eq!(
        out,
        vec![send(peer(1), Reply::ListIntro { addr: peer(1) }), send(peer(1), Reply::ListEnd)]
    );
    assert_eq!(mode, IO_STATE::SEND);
}

#[test]
fn connect_prompts_and_waits_for_addresses() {
    let mut s = Server::new();
    s.connect(peer(1));
    let mut mode = IO_STATE::SEND;
    let out = step(&mut s, &mut mode, peer(1), "--connect\n");
    assert_eq!(out, vec![send(peer(1), Reply::ConnectPrompt)]);
    assert_eq!(mode, IO_STATE::CREATE_NEW_CONVO);
}

#[test]
fn addresses_create_a_conversation_with_the_creator() {
    let mut s = Server::new();
    s.connect(peer(1));
    s.connect(peer(2));
    let mut mode = IO_STATE::CREATE_NEW_CONVO;
    // peer 7 is not connected: it is left out.
    let out = s.handle_message(&mut mode, peer(1), "x", &vec![peer(2), peer(7)]);
    assert_eq!(mode, IO_STATE::SEND);
    assert_eq!(
        out,
        vec![
            send(peer(2), Reply::AddedToConversation),
            send(peer(1), Reply::AddedToConversation),
            send(peer(1), Reply::ConversationCreated { members: vec![peer(2), peer(1)] }),
        ]
    );
    let convos = s.conversations();
    assert_eq!(convos.len(), 1);
    assert_eq!(convos[0].id, 0);
    assert_eq!(convos[0].name, "");
    assert_eq!(convos[0].clients, vec![peer(2), peer(1)]);
}

#[test]
fn a_repeated_address_is_notified_twice_but_joins_once() {
    let mut s = Server::new();
    s.connect(peer(1));
    s.connect(peer(2));
    let mut mode = IO_STATE::CREATE_NEW_CONVO;
    let out = s.handle_message(&mut mode, peer(1), "x", &vec![peer(2), peer(2), peer(1)]);
    assert_eq!(out.len(), 5);
    assert_eq!(s.conversations()[0].clients, vec![peer(2), peer(1)]);
}

#[test]
fn no_address_creates_nothing() {
    let mut s = Server::new();
    s.connect(peer(1));
    let mut mode = IO_STATE::CREATE_NEW_CONVO;
    let out = s.handle_message(&mut mode, peer(1), "nonsense", &Vec::new());
    assert!(out.is_empty());
    assert_eq!(mode, IO_STATE::SEND);
    assert!(s.conversations().is_empty());
}

#[test]
fn conversation_ids_are_their_positions() {
    let mut s = server_with_conversation();
    let mut mode = IO_STATE::CREATE_NEW_CONVO;
    s.handle_message(&mut mode, peer(3), "x", &vec![peer(1)]);
    let mut mode = IO_STATE::CREATE_NEW_CONVO;
    s.handle_message(&mut mode, peer(2), "x", &vec![peer(3)]);
    let ids: Vec<i32> = s.conversations().iter().map(|c| c.id).collect();
    assert_eq!(ids, vec![0, 1, 2]);
}

#[test]
fn list_names_every_conversation_of_the_client() {
    let mut s = server_with_conversation();
    let mut mode = IO_STATE::CREATE_NEW_CONVO;
    s.handle_message(&mut mode, peer(3), "x", &vec![peer(3)]);
    let mut mode = IO_STATE::CREATE_NEW_CONVO;
    s.handle_message(&mut mode, peer(2), "x", &vec![peer(3)]);
    let mut mode = IO_STATE::SEND;
    let out = step(&mut s, &mut mode, peer(2), "--list");
    assert_eq!(
        out,
        vec![
            send(peer(2), Reply::ListIntro { addr: peer(2) }),
            send(peer(2), Reply::ConversationInfo { id: 0 }),
            send(peer(2), Reply::ConversationInfo { id: 2 }),
            send(peer(2), Reply::ListEnd),
        ]
    );
}

#[test]
fn chat_outside_a_conversation_is_echoed() {
    let mut s = Server::new();
    s.connect(peer(1));
    let mut mode = IO_STATE::SEND;
    let out = step(&mut s, &mut mode, peer(1), "hello there\n");
    assert_eq!(out, vec![send(peer(1), Reply::Echo { text: "hello there\n".to_string() })]);
}

#[test]
fn switch_then_chat_relays_to_the_other_members() {
    let mut s = server_with_conversation();
    let mut mode = IO_STATE::SEND;
    let out = step(&mut s, &mut mode, peer(2), "--switch");
    assert_eq!(out, vec![send(peer(2), Reply::SwitchPrompt)]);
    assert_eq!(mode, IO_STATE::CONNECT_TO_CONVO);
    let out = step(&mut s, &mut mode, peer(2), " 0\n");
    assert!(out.is_empty());
    assert_eq!(mode, IO_STATE::SEND);
    assert_eq!(s.client(peer(2)).unwrap().current_convo, Some(0));
    let out = step(&mut s, &mut mode, peer(2), "hi all");
    assert_eq!(
        out,
        vec![send(
            peer(1),
            Reply::Relay { convo_id: 0, from: peer(2), text: "hi all".to_string() }
        )]
    );
}

#[test]
fn only_members_can_switch_into_a_conversation() {
    let mut s = server_with_conversation();
    let mut mode = IO_STATE::CONNECT_TO_CONVO;
    step(&mut s, &mut mode, peer(3), "0");
    assert_eq!(s.client(peer(3)).unwrap().current_convo, None);
}

#[test]
fn switch_ignores_what_is_no_identifier() {
    for text in ["x", "+", "-", "1 2", "99999999999", "7", "-1"] {
        let mut s = server_with_conversation();
        let mut mode = IO_STATE::CONNECT_TO_CONVO;
        let out = step(&mut s, &mut mode, peer(1), text);
        assert!(out.is_empty());
        assert_eq!(mode, IO_STATE::SEND);
        assert_eq!(s.client(peer(1)).unwrap().current_convo, None);
    }
}

#[test]
fn switch_accepts_a_signed_identifier() {
    let mut s = server_with_conversation();
    let mut mode = IO_STATE::CONNECT_TO_CONVO;
    step(&mut s, &mut mode, peer(1), "+0");
    assert_eq!(s.client(peer(1)).unwrap().current_convo, Some(0));
}

#[test]
fn current_shows_the_client() {
    let mut s = server_with_conversation();
    let mut mode = IO_STATE::CONNECT_TO_CONVO;
    step(&mut s, &mut mode, peer(1), "0");
    let out = step(&mut s, &mut mode, peer(1), "--current");
    assert_eq!(
        out,
        vec![send(
            peer(1),
            Reply::CurrentClient {
                client: Client { sender_addr: None, sender: Some(peer(1)), current_convo: Some(0) }
            }
        )]
    );
}

#[test]
fn reconnecting_leaves_the_conversation_talked_in() {
    let mut s = server_with_conversation();
    let mut mode = IO_STATE::CONNECT_TO_CONVO;
    step(&mut s, &mut mode, peer(1), "0");
    s.disconnect(peer(1));
    s.connect(peer(1));
    assert_eq!(s.client(peer(1)).unwrap().current_convo, None);
    assert_eq!(s.conversations().len(), 1);
}

#[test]
fn relays_never_reach_the_writer() {
    let mut s = server_with_conversation();
    let mut mode = IO_STATE::CONNECT_TO_CONVO;
    step(&mut s, &mut mode, peer(1), "0");
    let out = step(&mut s, &mut mode, peer(1), "ping");
    assert!(out.iter().all(|o| o.to != peer(1)));
    assert_eq!(out.len(), 1);
}

#[test]
fn basic_handler_knows_only_exact_list_and_connect() {
    let s = server_with_conversation();
    assert_eq!(
        s.handle_message_basic(peer(1), "--list"),
        vec![
            send(peer(1), Reply::ListIntroBare { addr: peer(1) }),
            send(peer(1), Reply::ConversationInfo { id: 0 }),
            send(peer(1), Reply::ListEnd),
        ]
    );
    assert!(s.handle_message_basic(peer(1), "--list\n").is_empty());
    assert_eq!(s.handle_message_basic(peer(1), "--connect"), vec![send(peer(1), Reply::ConnectPrompt)]);
    assert!(s.handle_message_basic(peer(1), "--switch").is_empty());
    assert!(s.handle_message_basic(peer(1), "hello").is_empty());
}

#[test]
fn ipv6_peers_are_distinct_from_ipv4_peers() {
    let v6 = PeerAddr::V6 { ip: 1, port: 2, flowinfo: 0, scope_id: 0 };
    let v4 = PeerAddr::V4 { ip: 1, port: 2 };
    let mut s = Server::new();
    s.connect(v6);
    assert!(s.client(v4).is_none());
    assert!(s.client(v6).is_some());
}

#[test]
fn queries_change_nothing() {
    let mut s = server_with_conversation();
    let before: Vec<(i32, Vec<PeerAddr>)> =
        s.conversations().iter().map(|c| (c.id, c.clients.clone())).collect();
    let client_before = s.client(peer(3));
    let mut mode = IO_STATE::SEND;
    for text in ["--list", "--current", "chat line"] {
        step(&mut s, &mut mode, peer(3), text);
        assert_eq!(mode, IO_STATE::SEND);
    }
    let after: Vec<(i32, Vec<PeerAddr>)> =
        s.conversations().iter().map(|c| (c.id, c.clients.clone())).collect();
    assert_eq!(before, after);
    assert_eq!(s.client(peer(3)), client_before);
}
