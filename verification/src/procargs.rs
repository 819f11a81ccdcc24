//! A process's environment, read from the `KERN_PROCARGS2` buffer that
//! `sysctl` gives for it.
use vstd::prelude::*;
use vstd::endian::{endianness, Endian};
use vstd::utf8::{decode_utf8, valid_utf8};

use crate::client::{pairs_view, EnvView};
use crate::text::{chars_of, lemma_split_on_len, lemma_split_on_step, split_on};

verus! {

/// The `i32` whose little-endian bytes begin `b`.
pub open spec fn le_i32(b: Seq<u8>) -> i32 {
    let u = b[0] as int + b[1] as int * 0x100 + b[2] as int * 0x1_0000 + b[3] as int * 0x100_0000;
    (if u >= 0x8000_0000 {
        u - 0x1_0000_0000
    } else {
        u
    }) as i32
}

/// The `i32` whose big-endian bytes begin `b`.
pub open spec fn be_i32(b: Seq<u8>) -> i32 {
    le_i32(seq![b[3], b[2], b[1], b[0]])
}

/// The `i32` whose bytes in the executing machine's byte order begin `b`.
pub open spec fn native_i32(b: Seq<u8>) -> i32 {
    match endianness() {
        Endian::Little => le_i32(b),
        Endian::Big => be_i32(b),
    }
}

/// Calls `i32::from_ne_bytes` on the first four bytes of `bytes`: their
/// reading in the byte order of the machine the code runs on, one and the
/// same order for every call.
#[verifier::external_body]
fn native_endian_i32(bytes: &[u8]) -> (n: i32)
    requires
        bytes@.len() >= 4,
    ensures
        n == native_i32(bytes@),
        n == le_i32(bytes@) || n == be_i32(bytes@),
{
    i32::from_ne_bytes([bytes[0], bytes[1], bytes[2], bytes[3]])
}

/// What `String::from_utf8_lossy` gives for `bytes`.
pub uninterp spec fn utf8_lossy(bytes: Seq<u8>) -> Seq<char>;

/// Calls `String::from_utf8_lossy`: `bytes` as text, with each invalid
/// sequence replaced by U+FFFD. Its result is taken as `utf8_lossy(bytes)`;
/// of valid UTF-8 it is the decoded text, as the documentation states.
#[verifier::external_body]
fn decode_lossy(bytes: &[u8]) -> (text: String)
    ensures
        text@ == utf8_lossy(bytes@),
        valid_utf8(bytes@) ==> text@ == decode_utf8(bytes@),
{
    String::from_utf8_lossy(bytes).into_owned()
}

/// How many pieces at the start of `pieces` are empty (`empty`), or are not.
pub open spec fn leading_run(pieces: Seq<Seq<u8>>, empty: bool) -> nat
    decreases pieces.len(),
{
    if pieces.len() > 0 && (pieces[0].len() == 0) == empty {
        1 + leading_run(pieces.drop_first(), empty)
    } else {
        0
    }
}

/// An environment entry `KEY=value`: the text before the first `=` and the
/// text after it; `None` without an `=`.
pub open spec fn env_entry(entry: Seq<u8>) -> Option<(Seq<char>, Seq<char>)> {
    let text = utf8_lossy(entry);
    match text.index_of_first('=') {
        Some(i) => Some((text.take(i), text.skip(i + 1))),
        None => None,
    }
}

/// The variables of the entries in `entries`, in order, leaving out entries
/// without an `=`.
pub open spec fn env_entries(entries: Seq<Seq<u8>>) -> EnvView
    decreases entries.len(),
{
    if entries.len() == 0 {
        Seq::empty()
    } else {
        let rest = env_entries(entries.drop_last());
        match env_entry(entries.last()) {
            Some(pair) => rest.push(pair),
            None => rest,
        }
    }
}

/// The environment in a `KERN_PROCARGS2` buffer whose leading `argc` reads
/// as `argc`. After those four bytes come NUL-terminated strings: the
/// executable path, NUL padding, `argc` arguments, then the environment
/// until an empty string or the end of the buffer. `None` when the buffer
/// ends before the arguments do.
pub open spec fn procargs_environment(buffer: Seq<u8>, argc: i32) -> Option<EnvView> {
    let rest = split_on(buffer.skip(4), 0u8).drop_first();
    let start = leading_run(rest, true) + (if argc > 0 {
        argc as int
    } else {
        0int
    });
    if start > rest.len() {
        None
    } else {
        Some(env_entries(rest.subrange(start, start + leading_run(rest.skip(start), false))))
    }
}

/// The characters of an optional environment.
pub open spec fn opt_env(o: Option<Vec<(String, String)>>) -> Option<EnvView> {
    match o {
        Some(v) => Some(pairs_view(v@)),
        None => None,
    }
}

pub open spec fn pieces_view(pieces: Seq<Vec<u8>>) -> Seq<Seq<u8>> {
    pieces.map_values(|p: Vec<u8>| p@)
}

proof fn lemma_leading_run(pieces: Seq<Seq<u8>>, empty: bool, k: int)
    requires
        0 <= k <= pieces.len(),
        forall|j: int| 0 <= j < k ==> ((#[trigger] pieces[j]).len() == 0) == empty,
        k == pieces.len() || (pieces[k].len() == 0) != empty,
    ensures
        leading_run(pieces, empty) == k,
    decreases k,
{
    if k > 0 {
        let rest = pieces.drop_first();
        assert forall|j: int| 0 <= j < k - 1 implies ((#[trigger] rest[j]).len() == 0) == empty by {
            assert(rest[j] == pieces[j + 1]);
        }
        lemma_leading_run(rest, empty, k - 1);
    }
}

/// The pieces of `buffer[from..]` between NUL bytes.
fn split_nul_from(buffer: &[u8], from: usize) -> (pieces: Vec<Vec<u8>>)
    requires
        from <= buffer@.len(),
    ensures
        pieces_view(pieces@) == split_on(buffer@.skip(from as int), 0u8),
{
    let ghost body = buffer@.skip(from as int);
    let mut pieces: Vec<Vec<u8>> = Vec::new();
    let mut current: Vec<u8> = Vec::new();
    let mut i: usize = from;
    assert(pieces_view(pieces@).push(current@) =~= split_on(body.take(0), 0u8)) by {
        assert(body.take(0) =~= Seq::<u8>::empty());
    }
    while i < buffer.len()
        invariant
            from <= i <= buffer@.len(),
            body == buffer@.skip(from as int),
            pieces_view(pieces@).push(current@) == split_on(body.take(i - from), 0u8),
        decreases buffer.len() - i,
    {
        proof {
            lemma_split_on_step(body, 0u8, i - from);
            lemma_split_on_len(body.take(i - from), 0u8);
        }
        let ghost before = pieces_view(pieces@).push(current@);
        let byte = buffer[i];
        assert(body[i - from] == byte);
        if byte == 0 {
            let done = current;
            pieces.push(done);
            current = Vec::new();
            assert(pieces_view(pieces@).push(current@) =~= before.push(Seq::empty()));
        } else {
            current.push(byte);
            assert(pieces_view(pieces@).push(current@) =~= before.update(
                before.len() - 1,
                before.last().push(byte),
            ));
        }
        i = i + 1;
    }
    pieces.push(current);
    assert(body.take(i - from) =~= body);
    pieces
}

/// The variable of one environment entry `KEY=value`.
fn read_entry(entry: &Vec<u8>) -> (pair: Option<(String, String)>)
    ensures
        match pair {
            Some(p) => env_entry(entry@) == Some((p.0@, p.1@)),
            None => env_entry(entry@) is None,
        },
{
    let text = decode_lossy(entry.as_slice());
    let chars = chars_of(text.as_str());
    let mut i: usize = 0;
    while i < chars.len() && chars[i] != '='
        invariant
            i <= chars@.len(),
            forall|j: int| 0 <= j < i ==> chars@[j] != '=',
        decreases chars.len() - i,
    {
        i = i + 1;
    }
    proof {
        chars@.index_of_first_ensures('=');
    }
    if i == chars.len() {
        return None;
    }
    let key = text.as_str().substring_char(0, i).to_owned();
    let value = text.as_str().substring_char(i + 1, chars.len()).to_owned();
    assert(chars@.take(i as int) =~= chars@.subrange(0, i as int));
    assert(chars@.skip(i + 1) =~= chars@.subrange(i + 1, chars@.len() as int));
    Some((key, value))
}

/// The environment in a `KERN_PROCARGS2` buffer, taking its leading count
/// of arguments to be `argc`.
pub fn environment_for_argc(buffer: &[u8], argc: i32) -> (environment: Option<
    Vec<(String, String)>,
>)
    requires
        buffer@.len() >= 4,
    ensures
        opt_env(environment) == procargs_environment(buffer@, argc),
{
    let pieces = split_nul_from(buffer, 4);
    let ghost all = pieces_view(pieces@);
    let ghost rest = all.drop_first();
    proof {
        lemma_split_on_len(buffer@.skip(4), 0u8);
        assert(all.len() == pieces@.len());
    }
    let mut k: usize = 1;
    while k < pieces.len() && pieces[k].len() == 0
        invariant
            1 <= k <= pieces@.len(),
            all == pieces_view(pieces@),
            all.len() == pieces@.len(),
            rest == all.drop_first(),
            rest.len() == pieces@.len() - 1,
            forall|j: int| 0 <= j < k - 1 ==> (#[trigger] rest[j]).len() == 0,
        decreases pieces.len() - k,
    {
        assert(all[k as int] == pieces@[k as int]@);
        k = k + 1;
    }
    proof {
        if k < pieces.len() {
            assert(all[k as int] == pieces@[k as int]@);
        }
        lemma_leading_run(rest, true, k - 1);
    }
    let skip: usize = if argc > 0 {
        argc as usize
    } else {
        0
    };
    if skip > pieces.len() - k {
        return None;
    }
    let start = k + skip;
    let ghost tail = rest.skip(start - 1);
    let mut end = start;
    while end < pieces.len() && pieces[end].len() > 0
        invariant
            1 <= start <= end <= pieces@.len(),
            all == pieces_view(pieces@),
            all.len() == pieces@.len(),
            rest == all.drop_first(),
            rest.len() == pieces@.len() - 1,
            tail == rest.skip(start - 1),
            forall|j: int| 0 <= j < end - start ==> (#[trigger] tail[j]).len() > 0,
        decreases pieces.len() - end,
    {
        assert(tail[end - start] == rest[end - 1]);
        assert(all[end as int] == pieces@[end as int]@);
        end = end + 1;
    }
    proof {
        if end < pieces.len() {
            assert(tail[end - start] == rest[end - 1]);
            assert(all[end as int] == pieces@[end as int]@);
        }
        lemma_leading_run(tail, false, end - start);
    }
    let ghost entries = rest.subrange(start - 1, end - 1);
    let mut environment: Vec<(String, String)> = Vec::new();
    let mut idx = start;
    while idx < end
        invariant
            1 <= start <= idx <= end <= pieces@.len(),
            all == pieces_view(pieces@),
            all.len() == pieces@.len(),
            rest == all.drop_first(),
            rest.len() == pieces@.len() - 1,
            entries == rest.subrange(start - 1, end - 1),
            pairs_view(environment@) == env_entries(entries.take(idx - start)),
        decreases end - idx,
    {
        let ghost before = environment@;
        assert(entries.take(idx - start + 1).drop_last() =~= entries.take(idx - start));
        assert(entries.take(idx - start + 1).last() == rest[idx - 1]);
        assert(all[idx as int] == pieces@[idx as int]@);
        match read_entry(&pieces[idx]) {
            Some(pair) => {
                environment.push(pair);
                assert(pairs_view(environment@) =~= pairs_view(before).push(
                    (environment@.last().0@, environment@.last().1@),
                ));
            },
            None => {},
        }
        idx = idx + 1;
    }
    assert(entries.take(end - start) =~= entries);
    Some(environment)
}

/// Parses a `KERN_PROCARGS2` buffer: a native-endian `argc`, the executable
/// path, NUL padding, `argc` arguments, then the environment until an empty
/// string or the end of the buffer.
pub fn environment_from_procargs(buffer: &[u8]) -> (environment: Option<Vec<(String, String)>>)
    ensures
        buffer@.len() < 4 ==> environment is None,
        buffer@.len() >= 4 ==> opt_env(environment) == procargs_environment(
            buffer@,
            le_i32(buffer@),
        ) || opt_env(environment) == procargs_environment(buffer@, be_i32(buffer@)),
        buffer@.len() >= 4 ==> opt_env(environment) == procargs_environment(
            buffer@,
            native_i32(buffer@),
        ),
{
    if buffer.len() < 4 {
        return None;
    }
    let argc = native_endian_i32(buffer);
    environment_for_argc(buffer, argc)
}

/// The argument count is read in one byte order, the machine's, for every
/// buffer: on a little-endian machine every buffer's count is its
/// little-endian reading, and on a big-endian machine its big-endian one.
pub proof fn lemma_argc_byte_order_is_fixed(b1: Seq<u8>, b2: Seq<u8>)
    ensures
        endianness() == Endian::Little ==> native_i32(b1) == le_i32(b1) && native_i32(b2)
            == le_i32(b2),
        endianness() == Endian::Big ==> native_i32(b1) == be_i32(b1) && native_i32(b2) == be_i32(
            b2,
        ),
{
}

/// The little-endian reading of four bytes is their value as an unsigned
/// number, wrapped into the range of `i32`.
pub proof fn lemma_le_i32_value(b: Seq<u8>)
    requires
        b.len() >= 4,
    ensures
        le_i32(b) as int == (if b[3] >= 0x80 {
            b[0] + 0x100 * b[1] + 0x1_0000 * b[2] + 0x100_0000 * b[3] - 0x1_0000_0000
        } else {
            b[0] + 0x100 * b[1] + 0x1_0000 * b[2] + 0x100_0000 * b[3]
        }),
        seq![1u8, 0u8, 0u8, 0u8] =~= b.take(4) ==> le_i32(b) == 1,
        seq![1u8, 0u8, 0u8, 0u8] =~= b.take(4) ==> be_i32(b) == 0x100_0000,
{
    if seq![1u8, 0u8, 0u8, 0u8] =~= b.take(4) {
        assert(b[0] == 1 && b[1] == 0 && b[2] == 0 && b[3] == 0);
    }
}
/// An entry is split at its first `=`: the key holds no `=`, and key, `=`
/// and value make up the entry's text; an entry without `=` is no variable.
pub proof fn lemma_env_entry_splits_at_first_equals(entry: Seq<u8>)
    ensures
        match env_entry(entry) {
            Some((key, value)) => !key.contains('=') && key + seq!['='] + value == utf8_lossy(
                entry,
            ),
            None => !utf8_lossy(entry).contains('='),
        },
{
    let text = utf8_lossy(entry);
    text.index_of_first_ensures('=');
    if let Some(i) = text.index_of_first('=') {
        assert(text.take(i) + seq!['='] + text.skip(i + 1) =~= text);
        assert(!text.take(i).contains('=')) by {
            if text.take(i).contains('=') {
                let j = choose|j: int| 0 <= j < text.take(i).len() && text.take(i)[j] == '=';
                assert(text[j] == '=');
            }
        }
    }
}

/// The leading run is as long as the pieces at the start that are (or are
/// not) empty, and stops at the first piece that differs.
pub proof fn lemma_leading_run_characterized(pieces: Seq<Seq<u8>>, empty: bool)
    ensures
        leading_run(pieces, empty) <= pieces.len(),
        forall|j: int|
            0 <= j < leading_run(pieces, empty) ==> ((#[trigger] pieces[j]).len() == 0) == empty,
        leading_run(pieces, empty) == pieces.len() || (pieces[leading_run(pieces, empty) as int].len()
            == 0) != empty,
    decreases pieces.len(),
{
    if pieces.len() > 0 && (pieces[0].len() == 0) == empty {
        let rest = pieces.drop_first();
        lemma_leading_run_characterized(rest, empty);
        assert forall|j: int| 0 <= j < leading_run(pieces, empty) implies ((
        #[trigger] pieces[j]).len() == 0) == empty by {
            if j > 0 {
                assert(pieces[j] == rest[j - 1]);
            }
        }
        if leading_run(pieces, empty) < pieces.len() {
            assert(pieces[leading_run(pieces, empty) as int] == rest[leading_run(rest, empty) as int]);
        }
    }
}
} // verus!
