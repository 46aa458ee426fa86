//! Chat-model channel: the error type and the reading of a model's reply
//! as JSON.

use vstd::prelude::*;

use crate::json::{json_of, parse_json, Json, JsonModel};
use crate::text::{concat_str, trim_str, trimmed};

verus! {

/// A chat-model failure, with its message.
#[derive(Debug, Clone, PartialEq)]
pub struct LlmError(pub String);

/// The position of the first `c` in `s`.
pub open spec fn first_index(s: Seq<char>, c: char) -> Option<int>
    decreases s.len(),
{
    if s.len() == 0 {
        None
    } else {
        match first_index(s.drop_last(), c) {
            Some(i) => Some(i),
            None => if s.last() == c {
                Some(s.len() - 1)
            } else {
                None
            },
        }
    }
}

/// The position of the last `c` in `s`.
pub open spec fn last_index(s: Seq<char>, c: char) -> Option<int>
    decreases s.len(),
{
    if s.len() == 0 {
        None
    } else if s.last() == c {
        Some(s.len() - 1)
    } else {
        last_index(s.drop_last(), c)
    }
}

/// The JSON document in a model's reply: the trimmed reply itself, or else
/// the span from its first `{` to its last `}` (replies often wrap JSON in
/// markdown fences or prose).
pub open spec fn loose_json(text: Seq<char>) -> Option<JsonModel> {
    let t = trimmed(text);
    match json_of(t) {
        Some(v) => Some(v),
        None => match (first_index(t, '{'), last_index(t, '}')) {
            (Some(a), Some(b)) => if a < b {
                json_of(t.subrange(a, b + 1))
            } else {
                None
            },
            _ => None,
        },
    }
}

/// `first_index` finds the first occurrence, and only it.
proof fn lemma_first_index(s: Seq<char>, c: char)
    ensures
        match first_index(s, c) {
            Some(i) => 0 <= i < s.len() && s[i] == c && forall|k: int| 0 <= k < i ==> s[k] != c,
            None => forall|k: int| 0 <= k < s.len() ==> s[k] != c,
        },
    decreases s.len(),
{
    if s.len() > 0 {
        let d = s.drop_last();
        lemma_first_index(d, c);
        match first_index(d, c) {
            Some(i) => {
                assert forall|k: int| 0 <= k < i implies s[k] != c by {
                    assert(s[k] == d[k]);
                }
                assert(s[i] == d[i]);
            },
            None => {
                assert forall|k: int| 0 <= k < s.len() - 1 implies s[k] != c by {
                    assert(s[k] == d[k]);
                }
            },
        }
    }
}

/// `last_index` finds the last occurrence, and only it.
proof fn lemma_last_index(s: Seq<char>, c: char)
    ensures
        match last_index(s, c) {
            Some(i) => 0 <= i < s.len() && s[i] == c && forall|k: int| i < k < s.len() ==> s[k] != c,
            None => forall|k: int| 0 <= k < s.len() ==> s[k] != c,
        },
    decreases s.len(),
{
    if s.len() > 0 && s.last() != c {
        let d = s.drop_last();
        lemma_last_index(d, c);
        match last_index(d, c) {
            Some(i) => {
                assert forall|k: int| i < k < s.len() implies s[k] != c by {
                    if k < s.len() - 1 {
                        assert(s[k] == d[k]);
                    }
                }
                assert(s[i] == d[i]);
            },
            None => {
                assert forall|k: int| 0 <= k < s.len() implies s[k] != c by {
                    if k < s.len() - 1 {
                        assert(s[k] == d[k]);
                    }
                }
            },
        }
    }
}

/// A reply that is not JSON as a whole is read from its first `{` through
/// its last `}`: with `a` the first `{` and `b` the last `}` of the trimmed
/// reply, `a` before `b`, the reply reads as that span does.
pub proof fn lemma_loose_json_spans_outer_braces(text: Seq<char>, a: int, b: int)
    requires
        json_of(trimmed(text)) is None,
        0 <= a < b < trimmed(text).len(),
        trimmed(text)[a] == '{',
        forall|k: int| 0 <= k < a ==> trimmed(text)[k] != '{',
        trimmed(text)[b] == '}',
        forall|k: int| b < k < trimmed(text).len() ==> trimmed(text)[k] != '}',
    ensures
        loose_json(text) == json_of(trimmed(text).subrange(a, b + 1)),
{
    let t = trimmed(text);
    lemma_first_index(t, '{');
    lemma_last_index(t, '}');
}

/// A reply is read as a whole when that parses, and also when no `{` of the
/// trimmed reply comes before a `}`: then there is no span to fall back on.
pub proof fn lemma_loose_json_whole_reply(text: Seq<char>)
    requires
        json_of(trimmed(text)) is Some || forall|i: int, j: int|
            0 <= i < j < trimmed(text).len() && trimmed(text)[i] == '{' ==> trimmed(text)[j] != '}',
    ensures
        loose_json(text) == json_of(trimmed(text)),
{
    let t = trimmed(text);
    lemma_first_index(t, '{');
    lemma_last_index(t, '}');
}

/// The number of bytes that UTF-8 takes for a character.
pub open spec fn utf8_width(c: char) -> nat {
    let u = c as u32;
    if u < 0x80 {
        1
    } else if u < 0x800 {
        2
    } else if u < 0x10000 {
        3
    } else {
        4
    }
}

/// The number of bytes that UTF-8 takes for a text.
pub open spec fn utf8_len(s: Seq<char>) -> nat
    decreases s.len(),
{
    if s.len() == 0 {
        0
    } else {
        utf8_len(s.drop_last()) + utf8_width(s.last())
    }
}

/// The longest run of whole characters at the end of `s` whose UTF-8 form
/// takes at most `budget` bytes.
pub open spec fn tail_within(s: Seq<char>, budget: nat) -> Seq<char>
    decreases s.len(),
{
    if s.len() == 0 || utf8_width(s.last()) > budget {
        Seq::empty()
    } else {
        tail_within(s.drop_last(), (budget - utf8_width(s.last())) as nat).push(s.last())
    }
}

/// The last (at most) 200 bytes of a reply, for error messages, in whole
/// characters.
pub open spec fn reply_tail(t: Seq<char>) -> Seq<char> {
    tail_within(t, 200)
}

/// Cutting a reply `t` at character `k` where its last 200 bytes begin
/// (or at its start, where it has at most 200 bytes) gives the quoted tail:
/// wherever the byte cut falls between characters, the tail is exactly the
/// last 200 bytes.
pub proof fn lemma_reply_tail_is_byte_tail(t: Seq<char>, k: int)
    requires
        0 <= k <= t.len(),
        (utf8_len(t) > 200 && utf8_len(t.skip(k)) == 200) || (utf8_len(t) <= 200 && k == 0),
    ensures
        reply_tail(t) == t.skip(k),
{
    lemma_tail_within_exact(t, k, 200);
}

proof fn lemma_tail_within_exact(s: Seq<char>, k: int, b: nat)
    requires
        0 <= k <= s.len(),
        utf8_len(s.skip(k)) == b || (k == 0 && utf8_len(s) <= b),
    ensures
        tail_within(s, b) == s.skip(k),
    decreases s.len(),
{
    if s.len() == 0 {
        assert(s.skip(k) =~= s);
    } else if k == s.len() {
        assert(s.skip(k) =~= Seq::<char>::empty());
        if k == 0 {
            assert(false);
        }
        assert(tail_within(s, b) =~= Seq::<char>::empty());
    } else {
        let d = s.drop_last();
        assert(s.skip(k).drop_last() =~= d.skip(k));
        assert(s.skip(k).last() == s.last());
        if k == 0 {
            assert(s.skip(0) =~= s);
            assert(d.skip(0) =~= d);
        }
        lemma_tail_within_exact(d, k, (b - utf8_width(s.last())) as nat);
        assert(d.skip(k).push(s.last()) =~= s.skip(k));
    }
}

fn char_width(c: char) -> (r: usize)
    ensures
        r == utf8_width(c),
{
    let u = c as u32;
    if u < 0x80 {
        1
    } else if u < 0x800 {
        2
    } else if u < 0x10000 {
        3
    } else {
        4
    }
}

/// Where the tail of `s` within 200 bytes begins.
fn tail_start(s: &Vec<char>) -> (r: usize)
    ensures
        r <= s@.len(),
        s@.subrange(r as int, s@.len() as int) == reply_tail(s@),
{
    let n = s.len();
    let mut i: usize = n;
    let mut left: usize = 200;
    assert(s@.take(n as int) =~= s@);
    assert(s@.subrange(n as int, n as int) =~= Seq::<char>::empty());
    while i > 0 && char_width(s[i - 1]) <= left
        invariant
            i <= n == s@.len(),
            left <= 200,
            reply_tail(s@) == tail_within(s@.take(i as int), left as nat) + s@.subrange(i as int, n as int),
        decreases i,
    {
        let w = char_width(s[i - 1]);
        proof {
            let p = s@.take(i as int);
            assert(p.drop_last() =~= s@.take(i - 1));
            assert(p.last() == s@[i - 1]);
            assert(tail_within(p, left as nat) == tail_within(s@.take(i - 1), (left - w) as nat).push(s@[i - 1]));
            assert(tail_within(s@.take(i - 1), (left - w) as nat).push(s@[i - 1]) + s@.subrange(i as int, n as int)
                =~= tail_within(s@.take(i - 1), (left - w) as nat) + s@.subrange(i - 1, n as int));
        }
        left = left - w;
        i = i - 1;
    }
    proof {
        let p = s@.take(i as int);
        assert(tail_within(p, left as nat) =~= Seq::<char>::empty());
        assert(Seq::<char>::empty() + s@.subrange(i as int, n as int) =~= s@.subrange(i as int, n as int));
    }
    i
}

fn find_first(s: &Vec<char>, c: char) -> (r: Option<usize>)
    ensures
        match r {
            Some(i) => first_index(s@, c) == Some(i as int) && i < s@.len(),
            None => first_index(s@, c) is None,
        },
{
    let mut i: usize = 0;
    while i < s.len()
        invariant
            i <= s@.len(),
            first_index(s@.take(i as int), c) is None,
        decreases s@.len() - i,
    {
        assert(s@.take(i + 1).drop_last() =~= s@.take(i as int));
        if s[i] == c {
            proof {
                lemma_first_index_prefix(s@, c, i as int + 1);
            }
            return Some(i);
        }
        i = i + 1;
    }
    assert(s@.take(s@.len() as int) =~= s@);
    None
}

/// The first occurrence in a prefix that has one is the first occurrence.
proof fn lemma_first_index_prefix(s: Seq<char>, c: char, k: int)
    requires
        0 <= k <= s.len(),
        first_index(s.take(k), c) is Some,
    ensures
        first_index(s, c) == first_index(s.take(k), c),
    decreases s.len() - k,
{
    if k < s.len() {
        assert(s.take(k + 1).drop_last() =~= s.take(k));
        lemma_first_index_prefix(s, c, k + 1);
    } else {
        assert(s.take(k) =~= s);
    }
}

fn find_last(s: &Vec<char>, c: char) -> (r: Option<usize>)
    ensures
        match r {
            Some(i) => last_index(s@, c) == Some(i as int) && i < s@.len(),
            None => last_index(s@, c) is None,
        },
{
    let mut i: usize = s.len();
    assert(s@.take(i as int) =~= s@);
    while i > 0
        invariant
            i <= s@.len(),
            last_index(s@, c) == last_index(s@.take(i as int), c),
        decreases i,
    {
        assert(s@.take(i as int).drop_last() =~= s@.take(i - 1));
        if s[i - 1] == c {
            return Some(i - 1);
        }
        i = i - 1;
    }
    None
}

/// Reads a model's reply as JSON: the trimmed reply itself, or the span
/// from its first `{` to its last `}`. A reply that holds no JSON is an
/// error that quotes its last 200 bytes (as whole characters: the longest
/// tail that fits in 200 bytes).
pub fn parse_json_loose(text: &str) -> (r: Result<Json, LlmError>)
    ensures
        match loose_json(text@) {
            Some(v) => r matches Ok(j) && j@ == v,
            None => r matches Err(LlmError(m)) && m@ == "响应不是 JSON: "@ + reply_tail(trimmed(text@)),
        },
{
    let t = trim_str(text);
    match parse_json(t) {
        Ok(v) => {
            return Ok(v);
        },
        Err(_) => {},
    }
    let cs = crate::text::chars_of(t);
    let n = cs.len();
    match (find_first(&cs, '{'), find_last(&cs, '}')) {
        (Some(a), Some(b)) => {
            if a < b {
                assert(b < n);
                let span = t.substring_char(a, b + 1);
                match parse_json(span) {
                    Ok(v) => {
                        return Ok(v);
                    },
                    Err(_) => {},
                }
            }
        },
        _ => {},
    }
    let from = tail_start(&cs);
    let tail = t.substring_char(from, n);
    assert(tail@ =~= reply_tail(trimmed(text@)));
    Err(LlmError(concat_str("响应不是 JSON: ", tail)))
}

} // verus!
