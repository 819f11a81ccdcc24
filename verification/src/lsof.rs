//! Which processes are connected to a session's client socket, read from
//! the output of `lsof -F pdn`.
use vstd::prelude::*;

use crate::text::{chars_from, chars_of, parse_u32, parse_u32_from, same_chars, split_on, strip_cr, text_lines};

verus! {

/// What has been read of the output so far: the current pid, the current
/// file's device, the devices of files named by the client socket (server
/// ends), and each connection end whose peer is another socket, with its pid
/// and the peer's device.
pub type ScanState = (Option<u32>, Option<Seq<char>>, Seq<Seq<char>>, Seq<(u32, Seq<char>)>);

pub open spec fn scan_start() -> ScanState {
    (None, None, Seq::empty(), Seq::empty())
}

/// One line of `lsof -F pdn` output: the field letter, then its value.
pub open spec fn scan_line(st: ScanState, line: Seq<char>, socket: Seq<char>) -> ScanState {
    if line.len() == 0 {
        st
    } else {
        let value = line.drop_first();
        if line[0] == 'p' {
            (parse_u32(value), st.1, st.2, st.3)
        } else if line[0] == 'f' {
            (st.0, None, st.2, st.3)
        } else if line[0] == 'd' {
            (st.0, Some(value), st.2, st.3)
        } else if line[0] == 'n' {
            if value == socket {
                match st.1 {
                    Some(device) => (st.0, st.1, st.2.push(device), st.3),
                    None => st,
                }
            } else if st.0 is Some && value.len() >= 2 && value[0] == '-' && value[1] == '>' {
                (st.0, st.1, st.2, st.3.push((st.0->0, value.skip(2))))
            } else {
                st
            }
        } else {
            st
        }
    }
}

/// The lines read in order.
pub open spec fn scan_lines(lines: Seq<Seq<char>>, socket: Seq<char>) -> ScanState
    decreases lines.len(),
{
    if lines.len() == 0 {
        scan_start()
    } else {
        scan_line(scan_lines(lines.drop_last(), socket), lines.last(), socket)
    }
}

/// Whether `pid` is connected to `socket` according to `output`: one of its
/// connection ends names as its peer the device of a file that is `socket`.
pub open spec fn connected_pid(output: Seq<char>, socket: Seq<char>, pid: u32) -> bool {
    let st = scan_lines(text_lines(output), socket);
    exists|j: int|
        0 <= j < st.3.len() && (#[trigger] st.3[j]).0 == pid && st.2.contains(st.3[j].1)
}

pub open spec fn strictly_increasing(s: Seq<u32>) -> bool {
    forall|i: int, j: int| 0 <= i < j < s.len() ==> s[i] < s[j]
}

/// Whether `line` is a field of kind `field`: it starts with that letter.
pub open spec fn is_field(line: Seq<char>, field: char) -> bool {
    line.len() > 0 && line[0] == field
}

/// Line `i` is the last `p` line before line `j`, and it gives the pid `pid`.
pub open spec fn process_of(lines: Seq<Seq<char>>, i: int, j: int, pid: u32) -> bool {
    &&& 0 <= i < j <= lines.len()
    &&& is_field(lines[i], 'p')
    &&& parse_u32(lines[i].drop_first()) == Some(pid)
    &&& forall|m: int| i < m < j ==> !is_field(#[trigger] lines[m], 'p')
}

/// Line `m` is the `d` line of the file that is open at line `k`: no `f` or
/// `d` line comes between them; the file's device is `device`.
pub open spec fn device_of(lines: Seq<Seq<char>>, m: int, k: int, device: Seq<char>) -> bool {
    &&& 0 <= m < k <= lines.len()
    &&& is_field(lines[m], 'd')
    &&& lines[m].drop_first() == device
    &&& forall|q: int|
        m < q < k ==> !is_field(#[trigger] lines[q], 'f') && !is_field(lines[q], 'd')
}

/// Line `j` names the peer `peer` of a connection end (`n->peer`), and is
/// not the name of the socket itself.
pub open spec fn peer_line(lines: Seq<Seq<char>>, socket: Seq<char>, j: int, peer: Seq<char>) -> bool {
    &&& 0 <= j < lines.len()
    &&& lines[j] == seq!['n', '-', '>'] + peer
    &&& seq!['-', '>'] + peer != socket
}

/// Some file named `socket` (a line `n` followed by the socket's path) has
/// the device `device`: it is a server end of the socket.
pub open spec fn server_end(lines: Seq<Seq<char>>, socket: Seq<char>, device: Seq<char>) -> bool {
    exists|k: int, m: int|
        0 <= k < lines.len() && lines[k] == seq!['n'] + socket && #[trigger] device_of(
            lines,
            m,
            k,
            device,
        )
}

/// Some connection end of process `pid` names `peer` as its peer.
pub open spec fn client_end(lines: Seq<Seq<char>>, socket: Seq<char>, pid: u32, peer: Seq<char>) -> bool {
    exists|j: int, i: int| #[trigger] peer_line(lines, socket, j, peer) && #[trigger] process_of(lines, i, j, pid)
}

spec fn pid_in_effect(ls: Seq<Seq<char>>, n: int, pid: Option<u32>) -> bool {
    &&& (pid matches Some(p) ==> exists|i: int| #[trigger] process_of(ls, i, n, p))
    &&& forall|i: int, p: u32| #[trigger] process_of(ls, i, n, p) ==> pid == Some(p)
}

spec fn device_in_effect(ls: Seq<Seq<char>>, n: int, device: Option<Seq<char>>) -> bool {
    &&& (device matches Some(d) ==> exists|m: int| #[trigger] device_of(ls, m, n, d))
    &&& forall|m: int, d: Seq<char>| #[trigger] device_of(ls, m, n, d) ==> device == Some(d)
}

spec fn server_end_before(ls: Seq<Seq<char>>, socket: Seq<char>, n: int, d: Seq<char>) -> bool {
    exists|k: int, m: int|
        0 <= k < n && ls[k] == seq!['n'] + socket && #[trigger] device_of(ls, m, k, d)
}

spec fn peer_before(ls: Seq<Seq<char>>, socket: Seq<char>, n: int, p: u32, d: Seq<char>) -> bool {
    exists|j: int, i: int|
        j < n && #[trigger] peer_line(ls, socket, j, d) && #[trigger] process_of(ls, i, j, p)
}

spec fn server_ends_before(ls: Seq<Seq<char>>, socket: Seq<char>, n: int, ends: Seq<Seq<char>>) -> bool {
    &&& forall|x: int| 0 <= x < ends.len() ==> server_end_before(ls, socket, n, #[trigger] ends[x])
    &&& forall|k: int, m: int, d: Seq<char>|
        0 <= k < n && ls[k] == seq!['n'] + socket && #[trigger] device_of(ls, m, k, d)
            ==> ends.contains(d)
}

spec fn peers_before(ls: Seq<Seq<char>>, socket: Seq<char>, n: int, peers: Seq<(u32, Seq<char>)>) -> bool {
    &&& forall|x: int|
        0 <= x < peers.len() ==> peer_before(ls, socket, n, (#[trigger] peers[x]).0, peers[x].1)
    &&& forall|j: int, i: int, p: u32, d: Seq<char>|
        j < n && #[trigger] peer_line(ls, socket, j, d) && #[trigger] process_of(ls, i, j, p)
            ==> peers.contains((p, d))
}

spec fn scan_invariant(ls: Seq<Seq<char>>, socket: Seq<char>, n: int, st: ScanState) -> bool {
    &&& pid_in_effect(ls, n, st.0)
    &&& device_in_effect(ls, n, st.1)
    &&& server_ends_before(ls, socket, n, st.2)
    &&& peers_before(ls, socket, n, st.3)
}

proof fn lemma_name_line(line: Seq<char>, name: Seq<char>)
    ensures
        (line == seq!['n'] + name) <==> (is_field(line, 'n') && line.drop_first() == name),
{
    if is_field(line, 'n') && line.drop_first() == name {
        assert(line =~= seq!['n'] + name);
    }
    if line == seq!['n'] + name {
        assert(line.drop_first() =~= name);
    }
}

proof fn lemma_peer_name(line: Seq<char>, peer: Seq<char>)
    ensures
        (line == seq!['n', '-', '>'] + peer) <==> {
            let value = line.drop_first();
            &&& is_field(line, 'n')
            &&& value.len() >= 2 && value[0] == '-' && value[1] == '>'
            &&& value.skip(2) == peer
        },
        line == seq!['n', '-', '>'] + peer ==> line.drop_first() == seq!['-', '>'] + peer,
{
    let value = line.drop_first();
    if is_field(line, 'n') && value.len() >= 2 && value[0] == '-' && value[1] == '>'
        && value.skip(2) == peer {
        assert(line =~= seq!['n', '-', '>'] + peer);
    }
    if line == seq!['n', '-', '>'] + peer {
        assert(value.skip(2) =~= peer);
        assert(value =~= seq!['-', '>'] + peer);
    }
}

proof fn lemma_pid_step(ls: Seq<Seq<char>>, socket: Seq<char>, n: int, st: ScanState)
    requires
        1 <= n <= ls.len(),
        pid_in_effect(ls, n - 1, st.0),
    ensures
        pid_in_effect(ls, n, scan_line(st, ls[n - 1], socket).0),
{
    let line = ls[n - 1];
    let new = scan_line(st, line, socket).0;
    if is_field(line, 'p') {
        if let Some(p) = new {
            assert(process_of(ls, n - 1, n, p));
        }
        assert forall|i: int, p: u32| #[trigger] process_of(ls, i, n, p) implies new == Some(p) by {
            if i < n - 1 {
                assert(!is_field(ls[n - 1], 'p'));
            }
        }
    } else {
        assert(new == st.0);
        if let Some(p) = new {
            let i = choose|i: int| #[trigger] process_of(ls, i, n - 1, p);
            assert(process_of(ls, i, n, p));
        }
        assert forall|i: int, p: u32| #[trigger] process_of(ls, i, n, p) implies new == Some(p) by {
            assert(process_of(ls, i, n - 1, p));
        }
    }
}

proof fn lemma_device_step(ls: Seq<Seq<char>>, socket: Seq<char>, n: int, st: ScanState)
    requires
        1 <= n <= ls.len(),
        device_in_effect(ls, n - 1, st.1),
    ensures
        device_in_effect(ls, n, scan_line(st, ls[n - 1], socket).1),
{
    let line = ls[n - 1];
    let new = scan_line(st, line, socket).1;
    if is_field(line, 'd') {
        if let Some(d) = new {
            assert(device_of(ls, n - 1, n, d));
        }
        assert forall|m: int, d: Seq<char>| #[trigger] device_of(ls, m, n, d) implies new == Some(d) by {
            if m < n - 1 {
                assert(!is_field(ls[n - 1], 'd'));
            }
        }
    } else if is_field(line, 'f') {
        assert(new is None);
        assert forall|m: int, d: Seq<char>| #[trigger] device_of(ls, m, n, d) implies new == Some(d) by {
            if m < n - 1 {
                assert(!is_field(ls[n - 1], 'f'));
            }
        }
    } else {
        assert(new == st.1);
        if let Some(d) = new {
            let m = choose|m: int| #[trigger] device_of(ls, m, n - 1, d);
            assert(device_of(ls, m, n, d));
        }
        assert forall|m: int, d: Seq<char>| #[trigger] device_of(ls, m, n, d) implies new == Some(d) by {
            assert(device_of(ls, m, n - 1, d));
        }
    }
}

proof fn lemma_server_step(ls: Seq<Seq<char>>, socket: Seq<char>, n: int, st: ScanState)
    requires
        1 <= n <= ls.len(),
        device_in_effect(ls, n - 1, st.1),
        server_ends_before(ls, socket, n - 1, st.2),
    ensures
        server_ends_before(ls, socket, n, scan_line(st, ls[n - 1], socket).2),
{
    let line = ls[n - 1];
    let ends = scan_line(st, line, socket).2;
    lemma_name_line(line, socket);
    assert forall|x: int| 0 <= x < st.2.len() implies server_end_before(ls, socket, n, #[trigger] st.2[x]) by {
        assert(server_end_before(ls, socket, n - 1, st.2[x]));
        let (k, m1) = choose|k: int, m1: int|
            0 <= k < n - 1 && ls[k] == seq!['n'] + socket && #[trigger] device_of(ls, m1, k, st.2[x]);
        assert(device_of(ls, m1, k, st.2[x]));
    }
    if line == seq!['n'] + socket && st.1 is Some {
        let d = st.1->0;
        assert(ends == st.2.push(d));
        let m = choose|m: int| #[trigger] device_of(ls, m, n - 1, d);
        assert(server_end_before(ls, socket, n, d)) by {
            assert(device_of(ls, m, n - 1, d));
        }
        assert forall|x: int| 0 <= x < ends.len() implies server_end_before(ls, socket, n, #[trigger] ends[x]) by {
            if x < st.2.len() {
                assert(ends[x] == st.2[x]);
            }
        }
        assert forall|k: int, m2: int, d2: Seq<char>|
            0 <= k < n && ls[k] == seq!['n'] + socket && #[trigger] device_of(ls, m2, k, d2)
                implies ends.contains(d2) by {
            if k < n - 1 {
                assert(st.2.contains(d2));
                let x = choose|x: int| 0 <= x < st.2.len() && st.2[x] == d2;
                assert(ends[x] == d2);
            } else {
                assert(st.1 == Some(d2));
                assert(ends[st.2.len() as int] == d2);
            }
        }
    } else {
        assert(ends == st.2);
        assert forall|k: int, m2: int, d2: Seq<char>|
            0 <= k < n && ls[k] == seq!['n'] + socket && #[trigger] device_of(ls, m2, k, d2)
                implies ends.contains(d2) by {
            if k == n - 1 {
                assert(st.1 == Some(d2));
            }
        }
    }
}

proof fn lemma_peer_step(ls: Seq<Seq<char>>, socket: Seq<char>, n: int, st: ScanState)
    requires
        1 <= n <= ls.len(),
        pid_in_effect(ls, n - 1, st.0),
        peers_before(ls, socket, n - 1, st.3),
    ensures
        peers_before(ls, socket, n, scan_line(st, ls[n - 1], socket).3),
{
    let line = ls[n - 1];
    let value = line.drop_first();
    let peers = scan_line(st, line, socket).3;
    lemma_name_line(line, socket);
    assert forall|y: int| 0 <= y < st.3.len() implies peer_before(ls, socket, n, (#[trigger] st.3[y]).0, st.3[y].1) by {
        assert(peer_before(ls, socket, n - 1, st.3[y].0, st.3[y].1));
        let (j, i2) = choose|j: int, i2: int|
            j < n - 1 && #[trigger] peer_line(ls, socket, j, st.3[y].1) && #[trigger] process_of(ls, i2, j, st.3[y].0);
        assert(peer_line(ls, socket, j, st.3[y].1) && process_of(ls, i2, j, st.3[y].0));
    }
    let pushes = is_field(line, 'n') && value != socket && st.0 is Some && value.len() >= 2
        && value[0] == '-' && value[1] == '>';
    if pushes {
        let p = st.0->0;
        let x = value.skip(2);
        assert(peers == st.3.push((p, x)));
        lemma_peer_name(line, x);
        let i = choose|i: int| #[trigger] process_of(ls, i, n - 1, p);
        assert(peer_line(ls, socket, n - 1, x));
        assert(peer_before(ls, socket, n, p, x)) by {
            assert(peer_line(ls, socket, n - 1, x) && process_of(ls, i, n - 1, p));
        }
        assert forall|y: int| 0 <= y < peers.len() implies peer_before(ls, socket, n, (#[trigger] peers[y]).0, peers[y].1) by {
            if y < st.3.len() {
                assert(peers[y] == st.3[y]);
            } else {
                assert(peers[y] == (p, x));
            }
        }
        assert forall|j: int, i2: int, q: u32, d: Seq<char>|
            j < n && #[trigger] peer_line(ls, socket, j, d) && #[trigger] process_of(ls, i2, j, q)
                implies peers.contains((q, d)) by {
            if j < n - 1 {
                assert(st.3.contains((q, d)));
                let y = choose|y: int| 0 <= y < st.3.len() && st.3[y] == (q, d);
                assert(peers[y] == (q, d));
            } else {
                lemma_peer_name(line, d);
                assert(st.0 == Some(q));
                assert(d == x);
                assert(peers[st.3.len() as int] == (q, d));
            }
        }
    } else {
        assert(peers == st.3);
        assert forall|j: int, i2: int, q: u32, d: Seq<char>|
            j < n && #[trigger] peer_line(ls, socket, j, d) && #[trigger] process_of(ls, i2, j, q)
                implies peers.contains((q, d)) by {
            if j == n - 1 {
                lemma_peer_name(line, d);
                assert(st.0 == Some(q));
                assert(value == seq!['-', '>'] + d);
            }
        }
    }
}

proof fn lemma_scan_invariant(ls: Seq<Seq<char>>, socket: Seq<char>, n: int)
    requires
        0 <= n <= ls.len(),
    ensures
        scan_invariant(ls, socket, n, scan_lines(ls.take(n), socket)),
    decreases n,
{
    if n == 0 {
        assert(ls.take(0) =~= Seq::<Seq<char>>::empty());
    } else {
        lemma_scan_invariant(ls, socket, n - 1);
        assert(ls.take(n).drop_last() =~= ls.take(n - 1));
        let st = scan_lines(ls.take(n - 1), socket);
        assert(scan_lines(ls.take(n), socket) == scan_line(st, ls[n - 1], socket));
        lemma_pid_step(ls, socket, n, st);
        lemma_device_step(ls, socket, n, st);
        lemma_server_step(ls, socket, n, st);
        lemma_peer_step(ls, socket, n, st);
    }
}

/// A process is connected to the client socket exactly when one of its
/// connection ends (an `n->peer` line under the process's last `p` line)
/// names as its peer the device of a file named by the client socket,
/// whatever other files and connections are listed, and in whatever order.
pub proof fn lemma_connected_pid_characterized(output: Seq<char>, socket: Seq<char>, pid: u32)
    ensures
        connected_pid(output, socket, pid) <==> exists|peer: Seq<char>|
            #[trigger] client_end(text_lines(output), socket, pid, peer) && server_end(
                text_lines(output),
                socket,
                peer,
            ),
{
    let ls = text_lines(output);
    lemma_scan_invariant(ls, socket, ls.len() as int);
    assert(ls.take(ls.len() as int) =~= ls);
    let st = scan_lines(ls, socket);
    if connected_pid(output, socket, pid) {
        let j = choose|j: int| 0 <= j < st.3.len() && (#[trigger] st.3[j]).0 == pid && st.2.contains(st.3[j].1);
        let peer = st.3[j].1;
        assert(peer_before(ls, socket, ls.len() as int, st.3[j].0, st.3[j].1));
        assert(client_end(ls, socket, pid, peer));
        let x = choose|x: int| 0 <= x < st.2.len() && st.2[x] == peer;
        assert(server_end_before(ls, socket, ls.len() as int, st.2[x]));
        assert(server_end(ls, socket, st.2[x]));
    }
    if exists|peer: Seq<char>| #[trigger] client_end(ls, socket, pid, peer) && server_end(ls, socket, peer) {
        let peer = choose|peer: Seq<char>| #[trigger] client_end(ls, socket, pid, peer) && server_end(ls, socket, peer);
        let (j, i) = choose|j: int, i: int| #[trigger] peer_line(ls, socket, j, peer) && #[trigger] process_of(ls, i, j, pid);
        let (k, m) = choose|k: int, m: int| 0 <= k < ls.len() && ls[k] == seq!['n'] + socket && #[trigger] device_of(ls, m, k, peer);
        assert(st.3.contains((pid, peer)));
        assert(st.2.contains(peer));
        let y = choose|y: int| 0 <= y < st.3.len() && st.3[y] == (pid, peer);
        assert(st.3[y].0 == pid && st.2.contains(st.3[y].1));
    }
}

struct LsofScan {
    pid: Option<u32>,
    device: Option<Vec<char>>,
    server_ends: Vec<Vec<char>>,
    peers: Vec<(u32, Vec<char>)>,
}

impl LsofScan {
    spec fn state(&self) -> ScanState {
        (
            self.pid,
            match self.device {
                Some(d) => Some(d@),
                None => None,
            },
            self.server_ends@.map_values(|d: Vec<char>| d@),
            self.peers@.map_values(|p: (u32, Vec<char>)| (p.0, p.1@)),
        )
    }

    fn read_line(&mut self, line: &Vec<char>, socket: &Vec<char>)
        ensures
            final(self).state() == scan_line(old(self).state(), line@, socket@),
    {
        if line.len() == 0 {
            return;
        }
        let field = line[0];
        let ghost value = line@.drop_first();
        assert(line@.skip(1) =~= value);
        if field == 'p' {
            self.pid = parse_u32_from(line, 1);
        } else if field == 'f' {
            self.device = None;
        } else if field == 'd' {
            self.device = Some(chars_from(line, 1));
        } else if field == 'n' {
            let name = chars_from(line, 1);
            if same_chars(&name, socket) {
                match &self.device {
                    Some(device) => {
                        let copy = chars_from(device, 0);
                        assert(device@.skip(0) =~= device@);
                        let ghost before = self.server_ends@;
                        self.server_ends.push(copy);
                        assert(self.server_ends@.map_values(|d: Vec<char>| d@) =~= before.map_values(
                            |d: Vec<char>| d@,
                        ).push(device@));
                    },
                    None => {},
                }
            } else if let Some(pid) = self.pid {
                if name.len() >= 2 && name[0] == '-' && name[1] == '>' {
                    let peer = chars_from(&name, 2);
                    let ghost before = self.peers@;
                    self.peers.push((pid, peer));
                    assert(self.peers@.map_values(|p: (u32, Vec<char>)| (p.0, p.1@)) =~= before.map_values(
                        |p: (u32, Vec<char>)| (p.0, p.1@),
                    ).push((pid, value.skip(2))));
                }
            }
        }
    }
}

/// The complete lines of `s`: the pieces before each `\n`, without a `\r`
/// right before it.
spec fn complete_lines(s: Seq<char>) -> Seq<Seq<char>> {
    let pieces = split_on(s, '\n');
    Seq::new((pieces.len() - 1) as nat, |i: int| strip_cr(pieces[i]))
}

proof fn lemma_complete_lines_step(s: Seq<char>, i: int)
    requires
        0 <= i < s.len(),
    ensures
        ({
            let before = split_on(s.take(i), '\n');
            let after = split_on(s.take(i + 1), '\n');
            &&& before.len() >= 1
            &&& s[i] == '\n' ==> after == before.push(Seq::empty()) && complete_lines(s.take(
                i + 1,
            )) == complete_lines(s.take(i)).push(strip_cr(before.last()))
            &&& s[i] != '\n' ==> after.last() == before.last().push(s[i]) && complete_lines(
                s.take(i + 1),
            ) == complete_lines(s.take(i))
        }),
{
    crate::text::lemma_split_on_len(s.take(i), '\n');
    assert(s.take(i + 1).drop_last() =~= s.take(i));
    let before = split_on(s.take(i), '\n');
    let after = split_on(s.take(i + 1), '\n');
    if s[i] == '\n' {
        assert(complete_lines(s.take(i + 1)) =~= complete_lines(s.take(i)).push(
            strip_cr(before.last()),
        ));
    } else {
        assert(complete_lines(s.take(i + 1)) =~= complete_lines(s.take(i)));
    }
}

/// Inserts `x` into the strictly increasing `v`, unless it is there.
fn insert_sorted(v: &mut Vec<u32>, x: u32)
    requires
        strictly_increasing(old(v)@),
    ensures
        strictly_increasing(final(v)@),
        forall|y: u32| final(v)@.contains(y) <==> (old(v)@.contains(y) || y == x),
{
    let mut pos: usize = 0;
    while pos < v.len() && v[pos] < x
        invariant
            pos <= v@.len(),
            v@ == old(v)@,
            strictly_increasing(v@),
            forall|j: int| 0 <= j < pos ==> v@[j] < x,
        decreases v.len() - pos,
    {
        pos = pos + 1;
    }
    if pos < v.len() && v[pos] == x {
        assert(v@[pos as int] == x);
        return;
    }
    let ghost before = v@;
    v.insert(pos, x);
    assert(v@ == before.insert(pos as int, x));
    assert forall|y: u32| v@.contains(y) <==> (before.contains(y) || y == x) by {
        if v@.contains(y) {
            let k = choose|k: int| 0 <= k < v@.len() && v@[k] == y;
            if k < pos {
                assert(before[k] == y);
            } else if k > pos {
                assert(before[k - 1] == y);
            }
        }
        if before.contains(y) {
            let k = choose|k: int| 0 <= k < before.len() && before[k] == y;
            if k < pos {
                assert(v@[k] == y);
            } else {
                assert(v@[k + 1] == y);
            }
        }
        if y == x {
            assert(v@[pos as int] == x);
        }
    }
    assert(before == old(v)@);
    assert(forall|y: u32| v@.contains(y) <==> (old(v)@.contains(y) || y == x));
}

/// Whether `list` holds the characters of `x`.
fn contains_chars(list: &Vec<Vec<char>>, x: &Vec<char>) -> (found: bool)
    ensures
        found == list@.map_values(|d: Vec<char>| d@).contains(x@),
{
    let ghost view = list@.map_values(|d: Vec<char>| d@);
    let mut i: usize = 0;
    while i < list.len()
        invariant
            i <= list@.len(),
            view == list@.map_values(|d: Vec<char>| d@),
            forall|j: int| 0 <= j < i ==> view[j] != x@,
        decreases list.len() - i,
    {
        if same_chars(&list[i], x) {
            assert(view[i as int] == x@);
            return true;
        }
        i = i + 1;
    }
    false
}

/// Reads `text` line by line.
fn scan_output(text: &Vec<char>, socket: &Vec<char>) -> (scan: LsofScan)
    ensures
        scan.state() == scan_lines(text_lines(text@), socket@),
{
    let mut scan = LsofScan { pid: None, device: None, server_ends: Vec::new(), peers: Vec::new() };
    let mut line: Vec<char> = Vec::new();
    let mut i: usize = 0;
    assert(text@.take(0) =~= Seq::<char>::empty());
    assert(complete_lines(Seq::<char>::empty()) =~= Seq::<Seq<char>>::empty());
    assert(scan.state() == scan_start()) by {
        assert(scan.state().2 =~= Seq::<Seq<char>>::empty());
        assert(scan.state().3 =~= Seq::<(u32, Seq<char>)>::empty());
    }
    while i < text.len()
        invariant
            i <= text@.len(),
            line@ == split_on(text@.take(i as int), '\n').last(),
            scan.state() == scan_lines(complete_lines(text@.take(i as int)), socket@),
        decreases text.len() - i,
    {
        proof {
            lemma_complete_lines_step(text@, i as int);
        }
        let c = text[i];
        if c == '\n' {
            let ghost full = line@;
            if line.len() > 0 && line[line.len() - 1] == '\r' {
                line.pop();
            }
            assert(line@ == strip_cr(full));
            let ghost done = complete_lines(text@.take(i as int));
            assert(done.push(line@).drop_last() =~= done);
            scan.read_line(&line, socket);
            line = Vec::new();
        } else {
            line.push(c);
        }
        i = i + 1;
    }
    proof {
        assert(text@.take(i as int) =~= text@);
        crate::text::lemma_split_on_len(text@, '\n');
    }
    let ghost done = complete_lines(text@);
    if line.len() > 0 {
        assert(done.push(line@).drop_last() =~= done);
        scan.read_line(&line, socket);
        assert(text_lines(text@) =~= done.push(line@));
    } else {
        assert(text_lines(text@) =~= done);
    }
    scan
}

/// Pids of processes connected to `client_socket`, from `lsof -F pdn`
/// output, in increasing order and each once.
///
/// The server accepts client connections on the client socket; a client's
/// end of such a connection is anonymous and only names the server-side
/// socket address as its peer (`n->0x...`). Clients of other sessions
/// connect to a different path and short-lived CLI calls connect to the API
/// socket, so both are excluded. A line of `output` that starts with a
/// character outside ASCII cannot be split into field and value.
pub fn client_pids_from_lsof(output: &str, client_socket: &str) -> (pids: Vec<u32>)
    requires
        crate::text::lines_start_ascii(output@),
    ensures
        strictly_increasing(pids@),
        forall|pid: u32| pids@.contains(pid) <==> connected_pid(output@, client_socket@, pid),
{
    let text = chars_of(output);
    let socket = chars_of(client_socket);
    let scan = scan_output(&text, &socket);
    let ghost st = scan.state();
    let mut pids: Vec<u32> = Vec::new();
    let mut j: usize = 0;
    while j < scan.peers.len()
        invariant
            j <= scan.peers@.len(),
            st == scan.state(),
            strictly_increasing(pids@),
            forall|pid: u32|
                pids@.contains(pid) <==> exists|k: int|
                    0 <= k < j && (#[trigger] st.3[k]).0 == pid && st.2.contains(st.3[k].1),
        decreases scan.peers.len() - j,
    {
        let ghost before = pids@;
        let peer = &scan.peers[j];
        assert(st.3[j as int] == (peer.0, peer.1@));
        if contains_chars(&scan.server_ends, &peer.1) {
            insert_sorted(&mut pids, peer.0);
        }
        assert forall|pid: u32|
            pids@.contains(pid) <==> exists|k: int|
                0 <= k < j + 1 && (#[trigger] st.3[k]).0 == pid && st.2.contains(st.3[k].1) by {
            if pids@.contains(pid) && !before.contains(pid) {
                assert(st.3[j as int].0 == pid);
            }
            if exists|k: int| 0 <= k < j + 1 && (#[trigger] st.3[k]).0 == pid && st.2.contains(st.3[k].1) {
                let k = choose|k: int| 0 <= k < j + 1 && (#[trigger] st.3[k]).0 == pid && st.2.contains(st.3[k].1);
                if k < j {
                    assert(before.contains(pid));
                }
            }
        }
        j = j + 1;
    }
    pids
}

} // verus!
