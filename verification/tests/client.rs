use herdr_terminal::client::{
    client_socket_path, clients_by_recent_input, controlling_tty, HerdrClient,
};

const CLIENT_SOCKET: &str = "/Users/me/.config/herdr/herdr-client.sock";

fn client_with(pairs: &[(&str, &str)]) -> HerdrClient {
    HerdrClient::from_pairs(pairs)
}

#[test]
fn derives_the_client_socket_from_the_api_socket() {
    assert_eq!(
        client_socket_path("/Users/me/.config/herdr/herdr.sock", None),
        CLIENT_SOCKET.to_string()
    );
    assert_eq!(
        client_socket_path("/tmp/demo.sock", None),
        "/tmp/demo-client.sock".to_string()
    );
}

#[test]
fn prefers_a_configured_client_socket() {
    assert_eq!(
        client_socket_path("/tmp/demo.sock", Some("/run/custom-client.sock".to_string())),
        "/run/custom-client.sock".to_string()
    );
    assert_eq!(
        client_socket_path("/tmp/demo.sock", Some(String::new())),
        "/tmp/demo-client.sock".to_string()
    );
}

#[test]
fn client_socket_of_a_stemless_path_is_named_by_the_suffix() {
    assert_eq!(client_socket_path("/tmp/.hidden", None), "/tmp/.hidden-client.sock");
    assert_eq!(client_socket_path("/tmp/a.b.sock", None), "/tmp/a.b-client.sock");
}

#[test]
fn reads_non_empty_client_environment_variables() {
    let client = HerdrClient {
        environment: vec![
            ("SET".to_string(), "value".to_string()),
            ("EMPTY".to_string(), String::new()),
        ],
    };
    assert_eq!(client.env("SET"), Some("value"));
    assert_eq!(client.env("EMPTY"), None);
    assert_eq!(client.env("MISSING"), None);
}

#[test]
fn reads_the_first_of_repeated_variables() {
    let client = client_with(&[("A", "first"), ("A", "second"), ("B", "")]);
    assert_eq!(client.env("A"), Some("first"));
    let shadowed = client_with(&[("A", ""), ("A", "second")]);
    assert_eq!(shadowed.env("A"), None);
}

#[test]
fn builds_clients_from_pairs_in_order() {
    let client = client_with(&[("X", "1"), ("Y", "2")]);
    assert_eq!(
        client.environment,
        vec![("X".to_string(), "1".to_string()), ("Y".to_string(), "2".to_string())]
    );
}

#[test]
fn reads_the_controlling_tty_from_ps() {
    assert_eq!(controlling_tty("ttys003\n"), Some("ttys003".to_string()));
    assert_eq!(controlling_tty("  pts/4 \t\n"), Some("pts/4".to_string()));
    assert_eq!(controlling_tty("??\n"), None);
    assert_eq!(controlling_tty("?"), None);
    assert_eq!(controlling_tty(" \n"), None);
    assert_eq!(controlling_tty(""), None);
    assert_eq!(controlling_tty("\u{3000}tty1\u{a0}"), Some("tty1".to_string()));
}

fn named(name: &str) -> HerdrClient {
    client_with(&[("NAME", name)])
}

fn names(clients: &[HerdrClient]) -> Vec<String> {
    clients.iter().map(|c| c.env("NAME").unwrap().to_string()).collect()
}

#[test]
fn orders_clients_most_recently_used_first() {
    let ordered = clients_by_recent_input(vec![
        (Some(10), named("a")),
        (None, named("b")),
        (Some(30), named("c")),
        (Some(-5), named("d")),
        (Some(30), named("e")),
        (None, named("f")),
        (Some(10), named("g")),
    ]);
    assert_eq!(names(&ordered), vec!["c", "e", "a", "g", "d", "b", "f"]);
}

#[test]
fn orders_no_clients() {
    assert!(clients_by_recent_input(Vec::new()).is_empty());
}
