use rudis::de::{decode, Decoded, Dialect};
use rudis::server::{clock_message, Action, Server};
use rudis::store::Table;
use rudis::value::RedisValue;

fn request(words: &[&str]) -> RedisValue {
    RedisValue::Array(words.iter().map(|w| RedisValue::Str(w.to_string())).collect())
}

fn reply(action: Action) -> Vec<u8> {
    match action {
        Action::Reply(bytes) => bytes,
        other => panic!("expected a reply, got {:?}", other),
    }
}

#[test]
fn law_get_after_set_example() {
    let mut server = Server::new();
    assert_eq!(reply(server.handle_request(&request(&["SET", "hey", "42"]), 1)), b"+OK\r\n");
    assert_eq!(reply(server.handle_request(&request(&["GET", "hey"]), 2)), b"+42\r\n");
    assert_eq!(reply(server.handle_request(&request(&["SET", "hey", "43"]), 1)), b"+OK\r\n");
    assert_eq!(reply(server.handle_request(&request(&["GET", "hey"]), 1)), b"+43\r\n");
}

#[test]
fn law_get_missing_example() {
    let mut server = Server::new();
    assert_eq!(reply(server.handle_request(&request(&["GET", "hey"]), 1)), b"$-1\r\n");
}

#[test]
fn law_set_keeps_other_keys_example() {
    let mut server = Server::new();
    server.handle_request(&request(&["SET", "a", "1"]), 1);
    server.handle_request(&request(&["SET", "b", "2"]), 1);
    assert_eq!(reply(server.handle_request(&request(&["GET", "a"]), 1)), b"+1\r\n");
}

#[test]
fn commands_match_in_any_case() {
    let mut server = Server::new();
    assert_eq!(reply(server.handle_request(&request(&["set", "a", "1"]), 1)), b"+OK\r\n");
    assert_eq!(reply(server.handle_request(&request(&["Get", "a"]), 1)), b"+1\r\n");
    match server.handle_request(&request(&["SUBSCRIBE", "channel"]), 5) {
        Action::Subscribed(bytes) => assert_eq!(bytes, b"*3\r\n$9\r\nsubscribe\r\n$7\r\nchannel\r\n:1\r\n"),
        other => panic!("expected a subscription, got {:?}", other),
    }
    assert_eq!(server.subscribers_of(&"channel".to_string()), vec![5]);
    assert!(matches!(server.handle_request(&request(&["GETS", "a"]), 1), Action::Continue));
    assert!(matches!(server.handle_request(&request(&["GÉT", "a"]), 1), Action::Continue));
}

#[test]
fn law_publish_reaches_subscribers_example() {
    let mut server = Server::new();
    match server.handle_request(&request(&["PUBLISH", "channel", "Hey from Rust"]), 1) {
        Action::Publish(ids, text, bytes) => {
            assert!(ids.is_empty());
            assert_eq!(text, "Hey from Rust");
            assert_eq!(bytes, b":0\r\n");
        }
        other => panic!("expected a publication, got {:?}", other),
    }
    server.handle_request(&request(&["SUBSCRIBE", "channel"]), 7);
    server.handle_request(&request(&["subscribe", "channel"]), 9);
    server.handle_request(&request(&["subscribe", "news"]), 11);
    match server.handle_request(&request(&["publish", "channel", "hi"]), 1) {
        Action::Publish(ids, text, bytes) => {
            assert_eq!(ids, vec![7, 9]);
            assert_eq!(text, "hi");
            assert_eq!(bytes, b":2\r\n");
        }
        other => panic!("expected a publication, got {:?}", other),
    }
    assert!(matches!(server.handle_request(&request(&["PUBLISH", "channel"]), 1), Action::Continue));
}

#[test]
fn law_get_after_set_across_other_requests() {
    let mut server = Server::new();
    server.handle_request(&request(&["SET", "k", "v"]), 1);
    server.handle_request(&request(&["SET", "other", "x"]), 2);
    server.handle_request(&request(&["GET", "k"]), 3);
    server.handle_request(&request(&["subscribe", "channel"]), 4);
    server.handle_request(&request(&["PUBLISH", "channel", "t"]), 5);
    server.handle_request(&request(&["SET", "k"]), 6);
    assert_eq!(reply(server.handle_request(&request(&["get", "k"]), 7)), b"+v\r\n");
}

#[test]
fn missing_arguments_are_ignored() {
    let mut server = Server::new();
    assert!(matches!(server.handle_request(&request(&["GET"]), 1), Action::Continue));
    assert!(matches!(server.handle_request(&request(&["SET", "a"]), 1), Action::Continue));
    assert!(matches!(server.handle_request(&request(&["subscribe"]), 1), Action::Continue));
    assert_eq!(reply(server.handle_request(&request(&["GET", "a"]), 1)), b"$-1\r\n");
}

#[test]
fn request_without_a_command_string_ends_the_connection() {
    let mut server = Server::new();
    assert!(matches!(server.handle_request(&RedisValue::Array(vec![]), 1), Action::Close));
    assert!(matches!(server.handle_request(&RedisValue::Array(vec![RedisValue::Null]), 1), Action::Close));
}

#[test]
fn request_that_is_not_an_array_is_ignored() {
    let mut server = Server::new();
    assert!(matches!(server.handle_request(&RedisValue::Str("GET".to_string()), 1), Action::Continue));
    assert!(matches!(server.handle_request(&RedisValue::Integer(3), 1), Action::Continue));
}

#[test]
fn law_subscribe_registers_example() {
    let mut server = Server::new();
    match server.handle_request(&request(&["subscribe", "channel"]), 7) {
        Action::Subscribed(bytes) => assert_eq!(bytes, b"*3\r\n$9\r\nsubscribe\r\n$7\r\nchannel\r\n:1\r\n"),
        other => panic!("expected a subscription, got {:?}", other),
    }
    server.handle_request(&request(&["subscribe", "channel"]), 9);
    server.handle_request(&request(&["subscribe", "news"]), 9);
    assert_eq!(server.subscribers_of(&"channel".to_string()), vec![7, 9]);
    assert_eq!(server.subscribers_of(&"news".to_string()), vec![9]);
    assert_eq!(server.subscribers_of(&"other".to_string()), Vec::<u64>::new());
}

#[test]
fn published_text_goes_out_once_per_channel() {
    let mut server = Server::new();
    assert_eq!(server.publish_frames("x"), b"");
    server.handle_request(&request(&["subscribe", "channel"]), 1);
    server.handle_request(&request(&["subscribe", "news"]), 2);
    server.handle_request(&request(&["subscribe", "channel"]), 3);
    assert_eq!(
        server.publish_frames("Hello 3"),
        b"*3\r\n$7\r\nmessage\r\n$7\r\nchannel\r\n$7\r\nHello 3\r\n*3\r\n$7\r\nmessage\r\n$4\r\nnews\r\n$7\r\nHello 3\r\n"
    );
}

#[test]
fn clock_targets_the_subscribers_of_channel() {
    let mut server = Server::new();
    let (ids, text) = server.clock(0);
    assert!(ids.is_empty());
    assert_eq!(text, "Hello 0");
    server.handle_request(&request(&["subscribe", "channel"]), 4);
    server.handle_request(&request(&["subscribe", "other"]), 5);
    let (ids, text) = server.clock(1234);
    assert_eq!(ids, vec![4]);
    assert_eq!(text, "Hello 1234");
    assert_eq!(clock_message(u64::MAX), format!("Hello {}", u64::MAX));
}

#[test]
fn key_value_request_subscribes() {
    let mut server = Server::new();
    let input = b"*2\r\n$9\r\nSUBSCRIBE\r\n$7\r\nchannel\r\n";
    let request = match decode(input, Dialect::KeyValue) {
        Decoded::Value(v, _) => v,
        other => panic!("{:?}", other),
    };
    let bytes = server.handle_key_value_request(&request, 3).expect("a confirmation");
    assert_eq!(bytes, b"*3\r\n$9\r\nsubscribe\r\n$7\r\nchannel\r\n:1\r\n");
    assert_eq!(server.subscribers_of(&"channel".to_string()), vec![3]);
}

#[test]
fn key_value_request_without_subscribe_is_not_answered() {
    let mut server = Server::new();
    let other = RedisValue::Mapping(vec![("GET".to_string(), RedisValue::Str("x".to_string()))]);
    assert!(server.handle_key_value_request(&other, 3).is_none());
    let not_str = RedisValue::Mapping(vec![("SUBSCRIBE".to_string(), RedisValue::Null)]);
    assert!(server.handle_key_value_request(&not_str, 3).is_none());
    assert!(server.handle_key_value_request(&request(&["SUBSCRIBE", "channel"]), 3).is_none());
    assert!(server.subscribers_of(&"channel".to_string()).is_empty());
}

#[test]
fn request_read_from_the_wire_is_handled() {
    let mut server = Server::new();
    let (set, _) = match decode(b"*3\r\n+SET\r\n+hey\r\n+42\r\n", Dialect::Server) {
        Decoded::Value(v, n) => (v, n),
        other => panic!("{:?}", other),
    };
    assert_eq!(reply(server.handle_request(&set, 1)), b"+OK\r\n");
    let (get, _) = match decode(b"*2\r\n$3\r\nGET\r\n$3\r\nhey\r\n", Dialect::Server) {
        Decoded::Value(v, n) => (v, n),
        other => panic!("{:?}", other),
    };
    assert_eq!(reply(server.handle_request(&get, 1)), b"+42\r\n");
}

#[test]
fn table_get_insert_len() {
    let mut t: Table<String> = Table::new();
    assert_eq!(t.len(), 0);
    t.insert("k".to_string(), "v".to_string());
    t.insert("k".to_string(), "w".to_string());
    t.insert("j".to_string(), "x".to_string());
    assert_eq!(t.len(), 2);
    assert_eq!(t.get(&"k".to_string()), Some(&"w".to_string()));
    assert_eq!(t.get(&"z".to_string()), None);
    assert_eq!(t.key_at(0), "k");
    assert_eq!(t.key_at(1), "j");
    let mut subs: Table<Vec<u64>> = Table::new();
    subs.push_to("c".to_string(), 1);
    subs.push_to("c".to_string(), 2);
    assert_eq!(subs.get(&"c".to_string()), Some(&vec![1, 2]));
}

#[test]
fn law_only_commands_change_state_example() {
    let mut server = Server::new();
    server.handle_request(&request(&["SET", "a", "1"]), 1);
    server.handle_request(&request(&["subscribe", "channel"]), 1);
    for words in [&["GET", "a"][..], &["PING"][..], &["GET"][..], &["SET", "b"][..], &["PUBLISH", "channel", "x"][..]] {
        server.handle_request(&request(words), 2);
    }
    server.handle_request(&RedisValue::Null, 2);
    assert_eq!(reply(server.handle_request(&request(&["GET", "a"]), 1)), b"+1\r\n");
    assert_eq!(reply(server.handle_request(&request(&["GET", "b"]), 1)), b"$-1\r\n");
    assert_eq!(server.subscribers_of(&"channel".to_string()), vec![1]);
    assert_eq!(
        server.publish_frames("t"),
        b"*3\r\n$7\r\nmessage\r\n$7\r\nchannel\r\n$1\r\nt\r\n"
    );
}
