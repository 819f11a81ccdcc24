//! Characters, lines, whitespace and decimal numbers, as the parsers of the
//! client module read them.
use vstd::prelude::*;

verus! {

/// The pieces of `s` between occurrences of `sep`, in order. Like splitting
/// a slice, this always yields at least one (possibly empty) piece.
pub open spec fn split_on<T>(s: Seq<T>, sep: T) -> Seq<Seq<T>>
    decreases s.len(),
{
    if s.len() == 0 {
        seq![Seq::empty()]
    } else {
        let pieces = split_on(s.drop_last(), sep);
        if s.last() == sep {
            pieces.push(Seq::empty())
        } else {
            pieces.update(pieces.len() - 1, pieces.last().push(s.last()))
        }
    }
}

pub proof fn lemma_split_on_len<T>(s: Seq<T>, sep: T)
    ensures
        split_on(s, sep).len() >= 1,
    decreases s.len(),
{
    if s.len() > 0 {
        lemma_split_on_len(s.drop_last(), sep);
    }
}

/// How the pieces grow by one more element of `s`.
pub proof fn lemma_split_on_step<T>(s: Seq<T>, sep: T, k: int)
    requires
        0 <= k < s.len(),
    ensures
        split_on(s.take(k + 1), sep) == (if s[k] == sep {
            split_on(s.take(k), sep).push(Seq::empty())
        } else {
            split_on(s.take(k), sep).update(
                split_on(s.take(k), sep).len() - 1,
                split_on(s.take(k), sep).last().push(s[k]),
            )
        }),
{
    assert(s.take(k + 1).drop_last() =~= s.take(k));
}

/// `line` without one trailing carriage return.
pub open spec fn strip_cr(line: Seq<char>) -> Seq<char> {
    if line.len() > 0 && line.last() == '\r' {
        line.drop_last()
    } else {
        line
    }
}

/// The lines of `s`: split at `\n`, with a `\r` right before a `\n` removed,
/// and no empty line after a final `\n`.
pub open spec fn text_lines(s: Seq<char>) -> Seq<Seq<char>> {
    let pieces = split_on(s, '\n');
    let complete = Seq::new((pieces.len() - 1) as nat, |i: int| strip_cr(pieces[i]));
    if pieces.last().len() == 0 {
        complete
    } else {
        complete.push(pieces.last())
    }
}

/// Whether each line of `s` begins with an ASCII character (or is empty).
pub open spec fn lines_start_ascii(s: Seq<char>) -> bool {
    forall|i: int|
        #![trigger s[i]]
        0 <= i < s.len() && (i == 0 || s[i - 1] == '\n') ==> (s[i] as u32) < 128
}

/// The Unicode `White_Space` characters.
pub open spec fn is_white_space(c: char) -> bool {
    ||| c == ' '
    ||| ('\t' <= c && c <= '\r')
    ||| c == '\u{85}'
    ||| c == '\u{a0}'
    ||| c == '\u{1680}'
    ||| ('\u{2000}' <= c && c <= '\u{200a}')
    ||| c == '\u{2028}'
    ||| c == '\u{2029}'
    ||| c == '\u{202f}'
    ||| c == '\u{205f}'
    ||| c == '\u{3000}'
}

/// `s` without leading white space.
pub open spec fn trim_start(s: Seq<char>) -> Seq<char>
    decreases s.len(),
{
    if s.len() > 0 && is_white_space(s[0]) {
        trim_start(s.drop_first())
    } else {
        s
    }
}

/// `s` without trailing white space.
pub open spec fn trim_end(s: Seq<char>) -> Seq<char>
    decreases s.len(),
{
    if s.len() > 0 && is_white_space(s.last()) {
        trim_end(s.drop_last())
    } else {
        s
    }
}

/// `s` without leading and trailing white space.
pub open spec fn trim(s: Seq<char>) -> Seq<char> {
    trim_end(trim_start(s))
}

pub open spec fn is_digit(c: char) -> bool {
    '0' <= c && c <= '9'
}

pub open spec fn all_digits(s: Seq<char>) -> bool {
    forall|i: int| 0 <= i < s.len() ==> #[trigger] is_digit(s[i])
}

/// The number that the decimal digits `d` write.
pub open spec fn decimal_value(d: Seq<char>) -> int
    decreases d.len(),
{
    if d.len() == 0 {
        0
    } else {
        decimal_value(d.drop_last()) * 10 + ((d.last() as int) - ('0' as int))
    }
}

/// A `u32` written in decimal, with an optional leading `+`; `None` for
/// anything else and for values that do not fit.
pub open spec fn parse_u32(s: Seq<char>) -> Option<u32> {
    let digits = if s.len() > 0 && s[0] == '+' {
        s.drop_first()
    } else {
        s
    };
    if digits.len() > 0 && all_digits(digits) && decimal_value(digits) <= u32::MAX {
        Some(decimal_value(digits) as u32)
    } else {
        None
    }
}

/// The characters of `s`, one by one.
pub fn chars_of(s: &str) -> (chars: Vec<char>)
    ensures
        chars@ == s@,
{
    let mut chars: Vec<char> = Vec::new();
    for c in it: s.chars()
        invariant
            chars@ == it.seq().take(it.index() as int),
            it.seq() == s@,
    {
        chars.push(c);
    }
    chars
}

/// Whether `a` and `b` hold the same characters.
pub fn same_chars(a: &Vec<char>, b: &Vec<char>) -> (same: bool)
    ensures
        same == (a@ == b@),
{
    if a.len() != b.len() {
        return false;
    }
    let mut i: usize = 0;
    while i < a.len()
        invariant
            a@.len() == b@.len(),
            i <= a.len(),
            forall|j: int| 0 <= j < i ==> a@[j] == b@[j],
        decreases a.len() - i,
    {
        if a[i] != b[i] {
            return false;
        }
        i = i + 1;
    }
    assert(a@ =~= b@);
    true
}

/// The characters of `v` from index `start` on.
pub fn chars_from(v: &Vec<char>, start: usize) -> (tail: Vec<char>)
    requires
        start <= v@.len(),
    ensures
        tail@ == v@.skip(start as int),
{
    let mut tail: Vec<char> = Vec::new();
    let mut i: usize = start;
    while i < v.len()
        invariant
            start <= i <= v@.len(),
            tail@ == v@.subrange(start as int, i as int),
        decreases v.len() - i,
    {
        tail.push(v[i]);
        i = i + 1;
    }
    assert(tail@ =~= v@.skip(start as int));
    tail
}

pub fn is_white_space_char(c: char) -> (ws: bool)
    ensures
        ws == is_white_space(c),
{
    c == ' ' || ('\t' <= c && c <= '\r') || c == '\u{85}' || c == '\u{a0}' || c == '\u{1680}'
        || ('\u{2000}' <= c && c <= '\u{200a}') || c == '\u{2028}' || c == '\u{2029}' || c
        == '\u{202f}' || c == '\u{205f}' || c == '\u{3000}'
}

proof fn lemma_trim_start_at(s: Seq<char>, a: int)
    requires
        0 <= a <= s.len(),
        forall|j: int| 0 <= j < a ==> is_white_space(#[trigger] s[j]),
        a == s.len() || !is_white_space(s[a]),
    ensures
        trim_start(s) == s.skip(a),
    decreases a,
{
    if a == 0 {
        assert(s.skip(0) =~= s);
    } else {
        let t = s.drop_first();
        assert forall|j: int| 0 <= j < a - 1 implies is_white_space(#[trigger] t[j]) by {
            assert(t[j] == s[j + 1]);
        }
        lemma_trim_start_at(t, a - 1);
        assert(t.skip(a - 1) =~= s.skip(a));
    }
}

proof fn lemma_trim_end_at(s: Seq<char>, b: int)
    requires
        0 <= b <= s.len(),
        forall|j: int| b <= j < s.len() ==> is_white_space(#[trigger] s[j]),
        b == 0 || !is_white_space(s[b - 1]),
    ensures
        trim_end(s) == s.take(b),
    decreases s.len() - b,
{
    if b == s.len() {
        assert(s.take(b) =~= s);
    } else {
        let t = s.drop_last();
        assert forall|j: int| b <= j < t.len() implies is_white_space(#[trigger] t[j]) by {
            assert(t[j] == s[j]);
        }
        lemma_trim_end_at(t, b);
        assert(t.take(b) =~= s.take(b));
    }
}

/// The bounds `(a, b)` of `s` without its leading and trailing white space:
/// `trim(s)` is `s[a..b]`.
pub fn trimmed_bounds(s: &Vec<char>) -> (bounds: (usize, usize))
    ensures
        bounds.0 <= bounds.1 <= s@.len(),
        trim(s@) == s@.subrange(bounds.0 as int, bounds.1 as int),
{
    let mut a: usize = 0;
    while a < s.len() && is_white_space_char(s[a])
        invariant
            a <= s@.len(),
            forall|j: int| 0 <= j < a ==> is_white_space(#[trigger] s@[j]),
        decreases s.len() - a,
    {
        a = a + 1;
    }
    proof {
        lemma_trim_start_at(s@, a as int);
    }
    let ghost t = s@.skip(a as int);
    let mut b: usize = s.len();
    while b > a && is_white_space_char(s[b - 1])
        invariant
            a <= b <= s@.len(),
            t == s@.skip(a as int),
            forall|j: int| b <= j < s@.len() ==> is_white_space(#[trigger] s@[j]),
        decreases b,
    {
        b = b - 1;
    }
    proof {
        assert forall|j: int| b - a <= j < t.len() implies is_white_space(#[trigger] t[j]) by {
            assert(t[j] == s@[j + a]);
        }
        if b > a {
            assert(t[b - a - 1] == s@[b - 1]);
        }
        lemma_trim_end_at(t, b - a);
        assert(t.take(b - a) =~= s@.subrange(a as int, b as int));
    }
    (a, b)
}

proof fn lemma_decimal_step(d: Seq<char>, i: int)
    requires
        0 <= i < d.len(),
    ensures
        decimal_value(d.take(i + 1)) == decimal_value(d.take(i)) * 10 + ((d[i] as int) - (
        '0' as int)),
{
    assert(d.take(i + 1).drop_last() =~= d.take(i));
}

/// `parse_u32` of the characters of `s` from index `start` on.
pub fn parse_u32_from(s: &Vec<char>, start: usize) -> (n: Option<u32>)
    requires
        start <= s@.len(),
    ensures
        n == parse_u32(s@.skip(start as int)),
{
    let ghost v = s@.skip(start as int);
    let mut i: usize = start;
    if i < s.len() && s[i] == '+' {
        i = i + 1;
    }
    let ghost digits = s@.skip(i as int);
    assert(digits =~= (if v.len() > 0 && v[0] == '+' { v.drop_first() } else { v }));
    if i == s.len() {
        return None;
    }
    let first = i;
    let mut acc: u64 = 0;
    let mut overflow = false;
    while i < s.len()
        invariant
            first <= i <= s@.len(),
            digits == s@.skip(first as int),
            v == s@.skip(start as int),
            digits == (if v.len() > 0 && v[0] == '+' { v.drop_first() } else { v }),
            forall|j: int| first <= j < i ==> is_digit(#[trigger] s@[j]),
            !overflow ==> acc == decimal_value(digits.take(i - first)),
            !overflow ==> acc <= u32::MAX,
            overflow ==> decimal_value(digits.take(i - first)) > u32::MAX,
        decreases s.len() - i,
    {
        let c = s[i];
        if !('0' <= c && c <= '9') {
            assert(!is_digit(digits[i - first]));
            return None;
        }
        proof {
            lemma_decimal_step(digits, i - first);
            assert(digits[i - first] == c);
        }
        if !overflow {
            let d = (c as u32 - '0' as u32) as u64;
            acc = acc * 10 + d;
            if acc > u32::MAX as u64 {
                overflow = true;
            }
        }
        i = i + 1;
    }
    assert(digits.take(i - first) =~= digits);
    assert(all_digits(digits)) by {
        assert forall|j: int| 0 <= j < digits.len() implies #[trigger] is_digit(digits[j]) by {
            assert(digits[j] == s@[j + first]);
        }
    }
    if overflow {
        None
    } else {
        Some(acc as u32)
    }
}

pub open spec fn is_ascii_alphanumeric(c: char) -> bool {
    ('0' <= c && c <= '9') || ('a' <= c && c <= 'z') || ('A' <= c && c <= 'Z')
}

/// Whether each character of `s` is a decimal digit.
pub fn only_digits(s: &str) -> (digits: bool)
    ensures
        digits == all_digits(s@),
{
    let chars = chars_of(s);
    let mut i: usize = 0;
    while i < chars.len()
        invariant
            i <= chars@.len(),
            chars@ == s@,
            forall|j: int| 0 <= j < i ==> #[trigger] is_digit(chars@[j]),
        decreases chars.len() - i,
    {
        if !('0' <= chars[i] && chars[i] <= '9') {
            assert(!is_digit(s@[i as int]));
            return false;
        }
        i = i + 1;
    }
    true
}

/// Whether each character of `s` is an ASCII letter or digit, `:` or `-`.
pub open spec fn only_id_chars(s: Seq<char>) -> bool {
    forall|i: int|
        0 <= i < s.len() ==> #[trigger] is_ascii_alphanumeric(s[i]) || s[i] == ':' || s[i] == '-'
}

/// Whether each character of `s` is an ASCII letter or digit, `:` or `-`.
pub fn only_id_chars_in(s: &str) -> (ok: bool)
    ensures
        ok == only_id_chars(s@),
{
    let chars = chars_of(s);
    let mut i: usize = 0;
    while i < chars.len()
        invariant
            i <= chars@.len(),
            chars@ == s@,
            forall|j: int|
                0 <= j < i ==> #[trigger] is_ascii_alphanumeric(chars@[j]) || chars@[j] == ':'
                    || chars@[j] == '-',
        decreases chars.len() - i,
    {
        let c = chars[i];
        if !(('0' <= c && c <= '9') || ('a' <= c && c <= 'z') || ('A' <= c && c <= 'Z') || c
            == ':' || c == '-') {
            assert(!is_ascii_alphanumeric(s@[i as int]));
            return false;
        }
        i = i + 1;
    }
    true
}

/// The pieces rejoined with `sep` between them.
pub open spec fn join_with<T>(pieces: Seq<Seq<T>>, sep: T) -> Seq<T>
    decreases pieces.len(),
{
    if pieces.len() == 0 {
        Seq::empty()
    } else if pieces.len() == 1 {
        pieces[0]
    } else {
        join_with(pieces.drop_last(), sep) + seq![sep] + pieces.last()
    }
}

/// Splitting loses nothing: no piece holds the separator, and rejoining the
/// pieces with it gives back `s`.
pub proof fn lemma_split_on_rejoins<T>(s: Seq<T>, sep: T)
    ensures
        join_with(split_on(s, sep), sep) == s,
        forall|i: int, j: int|
            0 <= i < split_on(s, sep).len() && 0 <= j < split_on(s, sep)[i].len() ==> split_on(
                s,
                sep,
            )[i][j] != sep,
    decreases s.len(),
{
    if s.len() == 0 {
        assert(join_with(split_on(s, sep), sep) =~= s);
    } else {
        let p = split_on(s.drop_last(), sep);
        lemma_split_on_rejoins(s.drop_last(), sep);
        lemma_split_on_len(s.drop_last(), sep);
        let q = split_on(s, sep);
        if s.last() == sep {
            assert(q.drop_last() =~= p);
            assert(join_with(q, sep) =~= s);
        } else {
            let last = p.last().push(s.last());
            assert(q == p.update(p.len() - 1, last));
            assert(s.drop_last().push(s.last()) =~= s);
            if p.len() == 1 {
                assert(q.len() == 1);
                assert(q[0] == p[0].push(s.last()));
                assert(join_with(p, sep) == p[0]);
                assert(join_with(q, sep) == q[0]);
                assert(join_with(q, sep) =~= s);
            } else {
                assert(q.drop_last() =~= p.drop_last());
                assert(join_with(q, sep) =~= s);
            }
            assert forall|i: int, j: int| 0 <= i < q.len() && 0 <= j < q[i].len() implies q[i][j]
                != sep by {
                if i < p.len() - 1 {
                    assert(q[i] == p[i]);
                } else if j < p.last().len() {
                    assert(q[i][j] == p.last()[j]);
                }
            }
        }
    }
}

/// Text without a line feed is one line (none when it is empty).
pub proof fn lemma_text_lines_single(s: Seq<char>)
    requires
        !s.contains('\n'),
    ensures
        text_lines(s) == (if s.len() == 0 {
            Seq::<Seq<char>>::empty()
        } else {
            seq![s]
        }),
{
    lemma_split_on_single(s, '\n');
    assert(text_lines(s) =~= (if s.len() == 0 {
        Seq::<Seq<char>>::empty()
    } else {
        seq![s]
    }));
}

proof fn lemma_split_on_single<T>(s: Seq<T>, sep: T)
    requires
        !s.contains(sep),
    ensures
        split_on(s, sep) == seq![s],
    decreases s.len(),
{
    if s.len() > 0 {
        assert(!s.drop_last().contains(sep)) by {
            if s.drop_last().contains(sep) {
                let i = choose|i: int| 0 <= i < s.drop_last().len() && s.drop_last()[i] == sep;
                assert(s[i] == sep);
            }
        }
        lemma_split_on_single(s.drop_last(), sep);
        assert(s.last() != sep);
        assert(s.drop_last().push(s.last()) =~= s);
        assert(split_on(s, sep) =~= seq![s]);
    } else {
        assert(s =~= Seq::<T>::empty());
        assert(split_on(s, sep) =~= seq![s]);
    }
}

proof fn lemma_split_on_after<T>(a: Seq<T>, b: Seq<T>, sep: T)
    requires
        !a.contains(sep),
    ensures
        split_on(a + seq![sep] + b, sep) == seq![a] + split_on(b, sep),
    decreases b.len(),
{
    let s = a + seq![sep] + b;
    if b.len() == 0 {
        assert(s.drop_last() =~= a);
        lemma_split_on_single(a, sep);
        assert(split_on(s, sep) =~= seq![a] + split_on(b, sep));
    } else {
        lemma_split_on_after(a, b.drop_last(), sep);
        assert(s.drop_last() =~= a + seq![sep] + b.drop_last());
        lemma_split_on_len(b.drop_last(), sep);
        let p = split_on(b.drop_last(), sep);
        if b.last() == sep {
            assert(split_on(s, sep) =~= seq![a] + split_on(b, sep));
        } else {
            assert((seq![a] + p).update(p.len() as int, (seq![a] + p).last().push(b.last()))
                =~= seq![a] + p.update(p.len() - 1, p.last().push(b.last())));
            assert(split_on(s, sep) =~= seq![a] + split_on(b, sep));
        }
    }
}

/// A line ended by a line feed comes first, without a carriage return right
/// before the feed, and the lines of the rest follow.
pub proof fn lemma_text_lines_first(a: Seq<char>, b: Seq<char>)
    requires
        !a.contains('\n'),
    ensures
        text_lines(a + seq!['\n'] + b) == seq![strip_cr(a)] + text_lines(b),
{
    lemma_split_on_after(a, b, '\n');
    lemma_split_on_len(b, '\n');
    assert(text_lines(a + seq!['\n'] + b) =~= seq![strip_cr(a)] + text_lines(b));
}

/// Trimming removes white space, and only white space, from both ends: the
/// result is a stretch of `s` that neither starts nor ends with white space,
/// and all of `s` outside it is white space.
pub proof fn lemma_trim_characterized(s: Seq<char>)
    ensures
        exists|a: int, b: int|
            #![trigger s.subrange(a, b)]
            0 <= a <= b <= s.len() && trim(s) == s.subrange(a, b) && (forall|j: int|
                0 <= j < a || b <= j < s.len() ==> is_white_space(#[trigger] s[j])) && (a < b
                ==> !is_white_space(s[a]) && !is_white_space(s[b - 1])),
{
    let a = choose_trim_start(s);
    lemma_trim_start_at(s, a);
    let t = s.skip(a);
    let c = choose_trim_end(t);
    lemma_trim_end_at(t, c);
    assert(t.take(c) =~= s.subrange(a, a + c));
    assert forall|j: int| 0 <= j < a || a + c <= j < s.len() implies is_white_space(
        #[trigger] s[j],
    ) by {
        if j >= a + c {
            assert(t[j - a] == s[j]);
        }
    }
    if c > 0 {
        assert(t[c - 1] == s[a + c - 1]);
    }
    assert(0 <= a <= a + c <= s.len() && trim(s) == s.subrange(a, a + c));
}

spec fn all_white(s: Seq<char>, a: int) -> bool {
    forall|j: int| 0 <= j < a ==> is_white_space(#[trigger] s[j])
}

proof fn choose_trim_start(s: Seq<char>) -> (a: int)
    ensures
        0 <= a <= s.len(),
        forall|j: int| 0 <= j < a ==> is_white_space(#[trigger] s[j]),
        a == s.len() || !is_white_space(s[a]),
    decreases s.len(),
{
    if s.len() == 0 || !is_white_space(s[0]) {
        0
    } else {
        let r = choose_trim_start(s.drop_first());
        assert forall|j: int| 0 <= j < r + 1 implies is_white_space(#[trigger] s[j]) by {
            if j > 0 {
                assert(s[j] == s.drop_first()[j - 1]);
            }
        }
        r + 1
    }
}

proof fn choose_trim_end(s: Seq<char>) -> (b: int)
    ensures
        0 <= b <= s.len(),
        forall|j: int| b <= j < s.len() ==> is_white_space(#[trigger] s[j]),
        b == 0 || !is_white_space(s[b - 1]),
    decreases s.len(),
{
    if s.len() == 0 || !is_white_space(s.last()) {
        s.len() as int
    } else {
        let r = choose_trim_end(s.drop_last());
        assert forall|j: int| r <= j < s.len() implies is_white_space(#[trigger] s[j]) by {
            if j < s.len() - 1 {
                assert(s[j] == s.drop_last()[j]);
            }
        }
        r
    }
}

/// The value of digits written one after the other: `a` shifted left by the
/// digits of `b`, plus `b`.
pub proof fn lemma_decimal_value_concat(a: Seq<char>, b: Seq<char>)
    ensures
        decimal_value(a + b) == decimal_value(a) * vstd::arithmetic::power::pow(10, b.len())
            + decimal_value(b),
    decreases b.len(),
{
    vstd::arithmetic::power::lemma_pow0(10);
    if b.len() == 0 {
        assert(a + b =~= a);
    } else {
        lemma_decimal_value_concat(a, b.drop_last());
        assert((a + b).drop_last() =~= a + b.drop_last());
        vstd::arithmetic::power::lemma_pow_adds(10, (b.len() - 1) as nat, 1);
        vstd::arithmetic::power::lemma_pow1(10);
        let p = vstd::arithmetic::power::pow(10, (b.len() - 1) as nat);
        assert(decimal_value(a) * (p * 10) == (decimal_value(a) * p) * 10) by (nonlinear_arith);
    }
}

/// A written `u32` reads back as itself, with or without a leading `+`, and
/// with leading zeros: for any digits whose value fits, parsing gives that
/// value, and anything holding a character other than a digit (after an
/// optional leading `+`) gives nothing.
pub proof fn lemma_parse_u32_reads_digits(d: Seq<char>)
    requires
        d.len() > 0,
    ensures
        all_digits(d) && decimal_value(d) <= u32::MAX ==> parse_u32(d) == Some(
            decimal_value(d) as u32,
        ) && parse_u32(seq!['+'] + d) == Some(decimal_value(d) as u32),
        all_digits(d) && decimal_value(d) <= u32::MAX ==> parse_u32(seq!['0'] + d) == parse_u32(
            d,
        ),
        (exists|i: int| 0 <= i < d.len() && !is_digit(#[trigger] d[i])) && d[0] != '+'
            ==> parse_u32(d) is None,
{
    assert((seq!['+'] + d).drop_first() =~= d);
    if all_digits(d) {
        lemma_decimal_value_concat(seq!['0'], d);
        assert(decimal_value(seq!['0']) == 0) by {
            assert(seq!['0'].drop_last() =~= Seq::<char>::empty());
            reveal_with_fuel(decimal_value, 2);
        }
        assert(is_digit(d[0]));
        assert(all_digits(seq!['0'] + d)) by {
            assert forall|i: int| 0 <= i < d.len() + 1 implies #[trigger] is_digit((seq!['0'] + d)[i]) by {
                if i > 0 {
                    assert((seq!['0'] + d)[i] == d[i - 1]);
                }
            }
        }
    }
}

} // verus!
