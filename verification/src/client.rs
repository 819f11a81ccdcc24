//! The Herdr clients attached to a session, and what an adapter needs to
//! locate their terminal container: the socket they connect to, which
//! processes are connected to it, their environment and their tty.
use vstd::prelude::*;

use crate::paths::{file_stem, opt_chars, path_file_stem, path_with_file_name, with_file_name};
use crate::text::{chars_of, trim, trimmed_bounds};

verus! {

/// An environment as the pairs of characters of its variables and values.
pub type EnvView = Seq<(Seq<char>, Seq<char>)>;

/// The characters of the pairs in `pairs`.
pub open spec fn pairs_view(pairs: Seq<(String, String)>) -> EnvView {
    pairs.map_values(|p: (String, String)| (p.0@, p.1@))
}

/// A Herdr client process attached to the session.
///
/// Terminals identify a container either through a variable they inject into
/// the environment (kitty's `KITTY_WINDOW_ID`) or through its controlling tty
/// (the `tty` of an iTerm2 or Terminal.app session). Only the environment is
/// carried until an adapter needs the tty.
#[derive(Debug, Default)]
pub struct HerdrClient {
    pub environment: Vec<(String, String)>,
}

impl View for HerdrClient {
    type V = EnvView;

    open spec fn view(&self) -> EnvView {
        pairs_view(self.environment@)
    }
}

/// The value of the first variable named `name` in `env`.
pub open spec fn first_value(env: EnvView, name: Seq<char>) -> Option<Seq<char>>
    decreases env.len(),
{
    if env.len() == 0 {
        None
    } else if env[0].0 == name {
        Some(env[0].1)
    } else {
        first_value(env.drop_first(), name)
    }
}

/// The value of the variable `name` of `env`, where it is set and not empty.
pub open spec fn env_var(env: EnvView, name: Seq<char>) -> Option<Seq<char>> {
    match first_value(env, name) {
        Some(value) => if value.len() > 0 {
            Some(value)
        } else {
            None
        },
        None => None,
    }
}

/// The characters of an optional string slice.
pub open spec fn opt_str_chars(o: Option<&str>) -> Option<Seq<char>> {
    match o {
        Some(s) => Some(s@),
        None => None,
    }
}

impl HerdrClient {
    /// A client with the environment `pairs`, in that order.
    pub fn from_pairs(pairs: &[(&str, &str)]) -> (client: HerdrClient)
        ensures
            client@ == pairs@.map_values(|p: (&str, &str)| (p.0@, p.1@)),
    {
        let mut environment: Vec<(String, String)> = Vec::new();
        let mut i: usize = 0;
        while i < pairs.len()
            invariant
                i <= pairs@.len(),
                environment@.len() == i,
                forall|j: int|
                    0 <= j < i ==> (#[trigger] environment@[j]).0@ == pairs@[j].0@
                        && environment@[j].1@ == pairs@[j].1@,
            decreases pairs.len() - i,
        {
            let (key, value) = pairs[i];
            environment.push((key.to_owned(), value.to_owned()));
            i = i + 1;
        }
        assert(pairs_view(environment@) =~= pairs@.map_values(|p: (&str, &str)| (p.0@, p.1@)));
        HerdrClient { environment }
    }

    /// A non-empty environment variable of the client process: the value of
    /// the first variable called `name`, unless it is empty.
    pub fn env(&self, name: &str) -> (value: Option<&str>)
        ensures
            opt_str_chars(value) == env_var(self@, name@),
    {
        let wanted: String = name.to_owned();
        let ghost env = self@;
        let mut i: usize = 0;
        assert(env.skip(0) =~= env);
        while i < self.environment.len()
            invariant
                i <= self.environment@.len(),
                env == self@,
                wanted@ == name@,
                first_value(env, name@) == first_value(env.skip(i as int), name@),
            decreases self.environment.len() - i,
        {
            let entry = &self.environment[i];
            proof {
                assert(env.skip(i as int)[0] == (entry.0@, entry.1@));
                assert(env.skip(i as int).drop_first() =~= env.skip(i + 1));
            }
            if entry.0 == wanted {
                if entry.1.as_str().is_empty() {
                    return None;
                }
                return Some(entry.1.as_str());
            }
            i = i + 1;
        }
        None
    }
}

/// The socket Herdr clients of a session connect to: `configured` where it is
/// set and not empty, else `api_socket` with its file name replaced by the
/// stem of that name followed by `-client.sock`.
pub open spec fn client_socket(api_socket: Seq<char>, configured: Option<Seq<char>>) -> Seq<
    char,
> {
    match configured {
        Some(path) if path.len() > 0 => path,
        _ => {
            let stem = match path_file_stem(api_socket) {
                Some(stem) => stem,
                None => Seq::empty(),
            };
            path_with_file_name(api_socket, stem + "-client.sock"@)
        },
    }
}

/// The socket Herdr clients of this session connect to.
///
/// Herdr honours `HERDR_CLIENT_SOCKET_PATH` (here `configured`) and otherwise
/// derives the path from the API socket's stem: `herdr.sock` pairs with
/// `herdr-client.sock`, and a custom `/tmp/demo.sock` with
/// `/tmp/demo-client.sock`.
pub fn client_socket_path(api_socket: &str, configured: Option<String>) -> (path: String)
    ensures
        path@ == client_socket(api_socket@, opt_chars(configured)),
{
    if let Some(path) = configured {
        if !path.as_str().is_empty() {
            return path;
        }
    }
    let stem = match file_stem(api_socket) {
        Some(stem) => stem,
        None => String::new(),
    };
    let name = stem.concat("-client.sock");
    with_file_name(api_socket, name.as_str())
}

/// The controlling tty that `ps -o tty=` printed: the output without
/// surrounding white space, unless that is empty or starts with `?` (no tty).
pub open spec fn tty_of(ps_output: Seq<char>) -> Option<Seq<char>> {
    let tty = trim(ps_output);
    if tty.len() == 0 || tty[0] == '?' {
        None
    } else {
        Some(tty)
    }
}

/// The controlling tty of a process, from what `ps -o tty= -p <pid>` printed.
pub fn controlling_tty(ps_output: &str) -> (tty: Option<String>)
    ensures
        opt_chars(tty) == tty_of(ps_output@),
{
    let chars = chars_of(ps_output);
    let (start, end) = trimmed_bounds(&chars);
    if start == end || chars[start] == '?' {
        return None;
    }
    let tty = ps_output.substring_char(start, end);
    Some(tty.to_owned())
}

/// Whether a terminal last read at `a` was read more recently than one last
/// read at `b`; an unknown time counts as earlier than any known one.
pub open spec fn more_recent(a: Option<i128>, b: Option<i128>) -> bool {
    match (a, b) {
        (Some(x), Some(y)) => x > y,
        (Some(_), None) => true,
        (None, _) => false,
    }
}

fn is_more_recent(a: Option<i128>, b: Option<i128>) -> (r: bool)
    ensures
        r == more_recent(a, b),
{
    match (a, b) {
        (Some(x), Some(y)) => x > y,
        (Some(_), None) => true,
        (None, _) => false,
    }
}

/// `order` lists each index of `times` once, most recent time first, and
/// indices with equal times in their original order.
pub open spec fn most_recent_first(times: Seq<Option<i128>>, order: Seq<int>) -> bool {
    &&& order.len() == times.len()
    &&& forall|j: int| 0 <= j < order.len() ==> 0 <= #[trigger] order[j] < times.len()
    &&& forall|j: int, k: int| 0 <= j < k < order.len() ==> order[j] != order[k]
    &&& forall|j: int, k: int|
        0 <= j < k < order.len() ==> !more_recent(times[order[k]], times[order[j]])
    &&& forall|j: int, k: int|
        0 <= j < k < order.len() && times[order[j]] == times[order[k]] ==> order[j] < order[k]
}

/// The clients of `entries`, each paired with when its terminal last received
/// input (nanoseconds from the Unix epoch, `None` when unknown), most
/// recently used first; clients with equal times keep their order.
pub fn clients_by_recent_input(entries: Vec<(Option<i128>, HerdrClient)>) -> (clients: Vec<
    HerdrClient,
>)
    ensures
        exists|order: Seq<int>|
            most_recent_first(entries@.map_values(|e: (Option<i128>, HerdrClient)| e.0), order)
                && clients@ == Seq::new(order.len(), |j: int| entries@[order[j]].1),
{
    let ghost original = entries@;
    let ghost times = entries@.map_values(|e: (Option<i128>, HerdrClient)| e.0);
    let mut entries = entries;
    let mut keys: Vec<Option<i128>> = Vec::new();
    let mut clients: Vec<HerdrClient> = Vec::new();
    let ghost mut order: Seq<int> = Seq::empty();
    while entries.len() > 0
        invariant
            times == original.map_values(|e: (Option<i128>, HerdrClient)| e.0),
            entries@ == original.take(entries@.len() as int),
            entries@.len() <= original.len(),
            keys@.len() == clients@.len(),
            order.len() == keys@.len(),
            order.len() == original.len() - entries@.len(),
            forall|j: int|
                0 <= j < order.len() ==> entries@.len() <= #[trigger] order[j] < original.len(),
            forall|j: int, k: int| 0 <= j < k < order.len() ==> order[j] != order[k],
            forall|j: int|
                0 <= j < order.len() ==> #[trigger] keys@[j] == times[order[j]] && clients@[j]
                    == original[order[j]].1,
            forall|j: int, k: int|
                0 <= j < k < order.len() ==> !more_recent(keys@[k], keys@[j]),
            forall|j: int, k: int|
                0 <= j < k < order.len() && keys@[j] == keys@[k] ==> order[j] < order[k],
        decreases entries.len(),
    {
        let ghost m = entries@.len() - 1;
        let (time, client) = entries.pop().unwrap();
        assert(original[m] == (time, client));
        assert(times[m] == time);
        let mut pos: usize = 0;
        while pos < keys.len() && is_more_recent(keys[pos], time)
            invariant
                pos <= keys@.len(),
                forall|j: int| 0 <= j < pos ==> more_recent(#[trigger] keys@[j], time),
            decreases keys.len() - pos,
        {
            pos = pos + 1;
        }
        let ghost old_keys = keys@;
        let ghost old_clients = clients@;
        let ghost old_order = order;
        keys.insert(pos, time);
        clients.insert(pos, client);
        proof {
            order = order.insert(pos as int, m);
            assert(keys@ == old_keys.insert(pos as int, time));
            assert(clients@ == old_clients.insert(pos as int, client));
            assert forall|j: int| 0 <= j < order.len() implies #[trigger] keys@[j] == times[order[j]]
                && clients@[j] == original[order[j]].1 by {
                if j > pos {
                    assert(keys@[j] == old_keys[j - 1]);
                    assert(order[j] == old_order[j - 1]);
                } else if j < pos {
                    assert(keys@[j] == old_keys[j]);
                }
            }
            assert forall|j: int, k: int| 0 <= j < k < order.len() implies !more_recent(
                keys@[k],
                keys@[j],
            ) by {
                if k == pos {
                    assert(more_recent(old_keys[j], time));
                } else if j == pos {
                    assert(keys@[k] == old_keys[k - 1]);
                    if pos < old_keys.len() {
                        assert(!more_recent(old_keys[k - 1], old_keys[pos as int]));
                    }
                } else {
                    let jj = if j < pos { j } else { j - 1 };
                    let kk = if k < pos { k } else { k - 1 };
                    assert(keys@[j] == old_keys[jj]);
                    assert(keys@[k] == old_keys[kk]);
                }
            }
            assert forall|j: int, k: int|
                0 <= j < k < order.len() && keys@[j] == keys@[k] implies order[j] < order[k] by {
                if k == pos {
                    assert(more_recent(old_keys[j], time));
                } else if j == pos {
                    assert(order[k] == old_order[k - 1]);
                } else {
                    let jj = if j < pos { j } else { j - 1 };
                    let kk = if k < pos { k } else { k - 1 };
                    assert(keys@[j] == old_keys[jj]);
                    assert(keys@[k] == old_keys[kk]);
                    assert(order[j] == old_order[jj]);
                    assert(order[k] == old_order[kk]);
                }
            }
            assert forall|j: int, k: int| 0 <= j < k < order.len() implies order[j] != order[k] by {
                if j != pos && k != pos {
                    let jj = if j < pos { j } else { j - 1 };
                    let kk = if k < pos { k } else { k - 1 };
                    assert(order[j] == old_order[jj]);
                    assert(order[k] == old_order[kk]);
                } else if j == pos {
                    assert(order[k] == old_order[k - 1]);
                } else {
                    assert(order[j] == old_order[j]);
                }
            }
            assert forall|j: int| 0 <= j < order.len() implies entries@.len() <= #[trigger] order[j]
                < original.len() by {
                if j < pos {
                    assert(order[j] == old_order[j]);
                } else if j > pos {
                    assert(order[j] == old_order[j - 1]);
                }
            }
            assert(entries@ =~= original.take(entries@.len() as int));
        }
    }
    proof {
        assert(times.len() == original.len());
        assert forall|j: int, k: int|
            0 <= j < k < order.len() implies !more_recent(times[order[k]], times[order[j]]) by {
            assert(keys@[j] == times[order[j]]);
            assert(keys@[k] == times[order[k]]);
        }
        assert forall|j: int, k: int|
            0 <= j < k < order.len() && times[order[j]] == times[order[k]] implies order[j]
            < order[k] by {
            assert(keys@[j] == times[order[j]]);
            assert(keys@[k] == times[order[k]]);
        }
        assert(most_recent_first(times, order));
        assert forall|j: int| 0 <= j < order.len() implies clients@[j] == original[order[j]].1 by {
            assert(keys@[j] == times[order[j]]);
        }
        assert(clients@ =~= Seq::new(order.len(), |j: int| original[order[j]].1));
    }
    clients
}

/// A variable read from a client's environment is never empty.
pub proof fn lemma_env_var_not_empty(env: EnvView, name: Seq<char>)
    ensures
        env_var(env, name) matches Some(value) ==> value.len() > 0,
{
}

/// A configured client socket that is not empty is used as it is, whatever
/// the API socket.
pub proof fn lemma_configured_socket_wins(api_socket: Seq<char>, configured: Seq<char>)
    requires
        configured.len() > 0,
    ensures
        client_socket(api_socket, Some(configured)) == configured,
{
}

/// Of two known times, the later one as a number is the more recent one;
/// any known time is more recent than an unknown one, and an unknown time is
/// more recent than none.
pub proof fn lemma_more_recent_is_later(a: Option<i128>, b: Option<i128>)
    ensures
        (a matches Some(x) && b matches Some(y)) ==> (more_recent(a, b) <==> a->0 > b->0),
        (a is Some && b is None) ==> more_recent(a, b),
        a is None ==> !more_recent(a, b),
{
}

/// In the order of `clients_by_recent_input`, each known time is at least
/// every known time after it, and no known time follows an unknown one.
pub proof fn lemma_most_recent_first_times(times: Seq<Option<i128>>, order: Seq<int>, j: int, k: int)
    requires
        most_recent_first(times, order),
        0 <= j < k < order.len(),
    ensures
        (times[order[j]] matches Some(x) && times[order[k]] matches Some(y)) ==> times[order[j]]->0
            >= times[order[k]]->0,
        times[order[j]] is None ==> times[order[k]] is None,
{
    assert(!more_recent(times[order[k]], times[order[j]]));
}

/// A variable's value is that of its first occurrence in the environment,
/// when that value is not empty.
pub proof fn lemma_env_var_first_occurrence(env: EnvView, name: Seq<char>, i: int)
    requires
        0 <= i < env.len(),
        env[i].0 == name,
        forall|j: int| 0 <= j < i ==> env[j].0 != name,
    ensures
        env_var(env, name) == (if env[i].1.len() > 0 {
            Some(env[i].1)
        } else {
            None
        }),
    decreases i,
{
    if i > 0 {
        let rest = env.drop_first();
        assert forall|j: int| 0 <= j < i - 1 implies rest[j].0 != name by {
            assert(rest[j] == env[j + 1]);
        }
        lemma_env_var_first_occurrence(rest, name, i - 1);
    }
}

/// A variable that does not occur in the environment is not set.
pub proof fn lemma_env_var_absent(env: EnvView, name: Seq<char>)
    requires
        forall|j: int| 0 <= j < env.len() ==> env[j].0 != name,
    ensures
        env_var(env, name) is None,
    decreases env.len(),
{
    if env.len() > 0 {
        let rest = env.drop_first();
        assert forall|j: int| 0 <= j < rest.len() implies rest[j].0 != name by {
            assert(rest[j] == env[j + 1]);
        }
        lemma_env_var_absent(rest, name);
    }
}
} // verus!
