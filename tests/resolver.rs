use weechat_relay::client::Client;
use weechat_relay::command::{Command, InfoList, Ping};
use weechat_relay::error::Error;
use weechat_relay::frame::read_message;
use weechat_relay::message::{Event, Id, Message};
use weechat_relay::resolver::{MessageResolver, Outcome};

fn str_bytes(s: &str) -> Vec<u8> {
    let mut out = (s.len() as u32).to_be_bytes().to_vec();
    out.extend_from_slice(s.as_bytes());
    out
}

fn pong(text: &str) -> Vec<u8> {
    let mut out = str_bytes("_pong");
    out.extend_from_slice(b"str");
    out.extend_from_slice(&str_bytes(text));
    out
}

fn pong_text(o: Outcome<u32>) -> (u32, String) {
    match o {
        Outcome::Fulfilled(p, Message::Pong(m)) => (p, m.0.into_string()),
        _ => panic!("not a pong"),
    }
}

fn rejection(o: Outcome<u32>) -> Error {
    match o {
        Outcome::Rejected(e) => e,
        _ => panic!("not a rejection"),
    }
}

#[test]
fn pongs_resolve_in_registration_order() {
    let mut r: MessageResolver<u32> = MessageResolver::new();
    r.register_pong(1);
    r.register_pong(2);
    assert_eq!(pong_text(r.resolve(&pong("first"))), (1, "first".to_string()));
    assert_eq!(pong_text(r.resolve(&pong("second"))), (2, "second".to_string()));
    assert_eq!(rejection(r.resolve(&pong("third"))), Error::MissingResponsePromise);
}

#[test]
fn pong_without_promise() {
    let mut r: MessageResolver<u32> = MessageResolver::new();
    assert_eq!(rejection(r.resolve(&pong("x"))), Error::MissingResponsePromise);
}

#[test]
fn unregistered_id() {
    let mut r: MessageResolver<u32> = MessageResolver::new();
    assert_eq!(r.register_promise("4".to_string(), 9), None);
    let mut msg = str_bytes("5");
    msg.extend_from_slice(b"inl");
    assert_eq!(rejection(r.resolve(&msg)), Error::MissingResponsePromise);
    assert_eq!(rejection(r.resolve(&str_bytes("_buffer_opened"))), Error::MissingResponsePromise);
}

#[test]
fn keyed_reply_with_bad_body_fails_its_promise() {
    let mut r: MessageResolver<u32> = MessageResolver::new();
    assert_eq!(r.register_promise("4".to_string(), 9), None);
    assert_eq!(r.register_promise("4".to_string(), 10), Some(9));
    let mut msg = str_bytes("4");
    msg.extend_from_slice(b"str\0\0\0\0");
    match r.resolve(&msg) {
        Outcome::Failed(p, e) => assert_eq!((p, e), (10, Error::UnexpectedType)),
        _ => panic!("expected a failure"),
    }
    assert_eq!(rejection(r.resolve(&msg)), Error::MissingResponsePromise);
}

#[test]
fn message_ids() {
    assert_eq!(Id::from_name("_pong"), Id::Pong);
    assert_eq!(Id::from_name("_buffer_opened"), Id::Event(Event::BufferOpened));
    assert_eq!(Id::from_name("_upgrade_ended"), Id::Event(Event::UpgradeEnded));
    assert_eq!(Id::from_name("12"), Id::Other("12".to_string()));
    assert_eq!(Event::from_name("_nicklist_diff"), Some(Event::NicklistDiff));
    assert_eq!(Event::from_name("_nicklist_dif"), None);
}

#[test]
fn infolist_end_to_end() {
    let mut client: Client<&str> = Client::new();
    let ping = client.ping("auth".to_string(), "auth-promise");
    assert!(matches!(&ping, Command::Ping(Ping(t)) if t == "auth"));
    let command = client.infolist("buffer".to_string(), "buffer-promise");
    let id = match &command {
        Command::InfoList(InfoList(id, name)) => {
            assert_eq!(name, "buffer");
            id.clone()
        },
        _ => panic!("expected an infolist command"),
    };
    assert_eq!(id, "0");
    assert_eq!(command.to_line(), "(0) infolist buffer\n");
    assert_eq!(client.next_id(), 1);

    let mut body = str_bytes(&id);
    body.extend_from_slice(b"inl");
    body.extend_from_slice(&str_bytes("buffer"));
    body.extend_from_slice(&3u32.to_be_bytes());
    for n in 0..3u32 {
        body.extend_from_slice(&1u32.to_be_bytes());
        body.extend_from_slice(&str_bytes("number"));
        body.extend_from_slice(b"int");
        body.extend_from_slice(&n.to_be_bytes());
    }
    let mut frame = ((body.len() + 5) as u32).to_be_bytes().to_vec();
    frame.push(0);
    frame.extend_from_slice(&body);
    let (payload, _) = read_message(&frame).unwrap();
    match client.receive(&payload) {
        Outcome::Fulfilled(p, Message::InfoList(list)) => {
            assert_eq!(p, "buffer-promise");
            assert_eq!(list.name.as_str(), "buffer");
            assert_eq!(list.items.len(), 3);
        },
        _ => panic!("expected the info list"),
    }
    match client.receive(&pong("auth")) {
        Outcome::Fulfilled(p, Message::Pong(m)) => assert_eq!((p, m.0.as_str()), ("auth-promise", "auth")),
        _ => panic!("expected the pong"),
    }
    let next = client.infolist("hotlist".to_string(), "x");
    assert_eq!(next.to_line(), "(1) infolist hotlist\n");
}

#[test]
fn disconnect_hands_back_every_promise() {
    let mut client: Client<u32> = Client::new();
    client.ping("a".to_string(), 1);
    client.infolist("buffer".to_string(), 2);
    client.ping("b".to_string(), 3);
    client.infolist("hotlist".to_string(), 4);
    assert_eq!(client.disconnect(), vec![1, 3, 2, 4]);
    assert!(client.disconnect().is_empty());
    match client.receive(&pong("a")) {
        Outcome::Rejected(e) => assert_eq!(e, Error::MissingResponsePromise),
        _ => panic!("nothing should be waiting"),
    }
}
