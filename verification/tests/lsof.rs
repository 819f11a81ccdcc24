use herdr_terminal::lsof::client_pids_from_lsof;

const CLIENT_SOCKET: &str = "/Users/me/.config/herdr/herdr-client.sock";

#[test]
fn ignores_clients_of_another_session_in_the_same_directory() {
    let lsof = "\
p100
f4
d0xa1
n->0xdemo
p200
f4
d0xa2
n->0xherdr
p300
f7
d0xdemo
n/tmp/demo-client.sock
f8
d0xherdr
n/tmp/herdr-client.sock
";
    assert_eq!(
        client_pids_from_lsof(lsof, "/tmp/demo-client.sock"),
        vec![100]
    );
}

#[test]
fn finds_clients_connected_to_the_session_client_socket() {
    let lsof = "\
p100
f4
d0xa1
n->0xs1
f8
d0xa2
n->0xa3
p200
f4
d0xs0
n/Users/me/.config/herdr/herdr.sock
f18
d0xlisten
n/Users/me/.config/herdr/herdr-client.sock
f19
d0xs1
n/Users/me/.config/herdr/herdr-client.sock
f21
d0xs2
n/Users/me/.config/herdr/herdr-client.sock
p300
f5
d0xb1
n->0xs2
p400
f3
d0xc1
n->0xs0
p500
f3
d0xd1
n->0xother
";
    // 400 is a CLI call on the API socket; 500 belongs to another session.
    assert_eq!(client_pids_from_lsof(lsof, CLIENT_SOCKET), vec![100, 300]);
}

#[test]
fn finds_no_clients_without_the_session_client_socket() {
    let lsof = "p100\nf4\nd0xa1\nn->0xs1\n";
    assert!(client_pids_from_lsof(lsof, CLIENT_SOCKET).is_empty());
}

#[test]
fn reports_each_client_once_in_increasing_order() {
    let lsof = "\
p900
f4
d0xa
n->0xs
f5
d0xb
n->0xs
p20
f4
d0xc
n->0xs
p1
f9
d0xs
n/run/c.sock
";
    assert_eq!(client_pids_from_lsof(lsof, "/run/c.sock"), vec![20, 900]);
}

#[test]
fn reads_crlf_lines_and_a_last_line_without_newline() {
    let lsof = "p7\r\nf1\r\nd0xs\r\nn/run/c.sock\r\np8\r\nf2\r\nd0xq\r\nn->0xs";
    assert_eq!(client_pids_from_lsof(lsof, "/run/c.sock"), vec![8]);
}

#[test]
fn skips_peers_of_unparsable_pids_and_files_without_device() {
    // `p+12` parses as 12; `pabc` leaves no pid; a file without a `d` line
    // contributes no server end.
    let lsof = "\
p+12
f1
d0xa
n->0xs
pabc
f1
d0xb
n->0xs
p99999999999
f1
d0xc
n->0xs
p3
f1
n/run/c.sock
f2
d0xs
n/run/c.sock
";
    assert_eq!(client_pids_from_lsof(lsof, "/run/c.sock"), vec![12]);
}

#[test]
fn reads_nothing_from_empty_output() {
    assert!(client_pids_from_lsof("", "/run/c.sock").is_empty());
    assert!(client_pids_from_lsof("\n\n", "/run/c.sock").is_empty());
}
