//! Heuristic relation tags: topic tags drawn from raw text when no chat
//! model and no task context supply them. They are what auto-linking keys
//! on; without them the graph would have no edges.

use vstd::prelude::*;
use vstd::utf8::encode_utf8;

use crate::model::strings_view;
use crate::text::{char_is_alphanumeric, char_is_uppercase, chars_of, is_alnum, is_upper, lowercase, str_equal, to_lowercase};

verus! {

/// English stop words, shared by lexical seeding and heuristic tags.
pub const STOPWORDS: [&'static str; 99] = [
    "what", "when", "where", "which", "who", "whom", "whose", "why", "how", "did", "does", "do",
    "is", "are", "was", "were", "be", "been", "being", "the", "a", "an", "and", "or",
    "but", "if", "\u{74}hen", "than", "so", "they", "them", "their", "he", "she", "his", "her",
    "it", "its", "you", "your", "we", "our", "i", "me", "my", "have", "has", "had",
    "say", "said", "tell", "told", "talk", "talked", "about", "would", "could", "should", "will", "shall",
    "can", "may", "might", "many", "much", "often", "ever", "never", "any", "some", "all", "both",
    "first", "last", "go", "went", "going", "come", "came", "get", "got", "make", "made", "take",
    "took", "to", "of", "in", "on", "at", "for", "with", "from", "by", "as", "into",
    "out", "up", "down",
];

/// Whether a word is a stop word.
pub open spec fn is_stopword(w: Seq<char>) -> bool {
    exists|i: int| 0 <= i < 99 && STOPWORDS[i]@ == w
}

/// Whether a word is a stop word.
pub fn stopword(w: &str) -> (r: bool)
    ensures
        r == is_stopword(w@),
{
    let mut i: usize = 0;
    while i < 99
        invariant
            i <= 99,
            forall|k: int| 0 <= k < i ==> STOPWORDS[k]@ != w@,
        decreases 99 - i,
    {
        if str_equal(STOPWORDS[i], w) {
            return true;
        }
        i = i + 1;
    }
    false
}

/// The completed words and the word in progress of a text read so far;
/// words are maximal runs of alphanumeric characters.
pub open spec fn split_state(s: Seq<char>) -> (Seq<Seq<char>>, Seq<char>)
    decreases s.len(),
{
    if s.len() == 0 {
        (Seq::empty(), Seq::empty())
    } else {
        let (ws, cur) = split_state(s.drop_last());
        let c = s.last();
        if is_alnum(c) {
            (ws, cur.push(c))
        } else if cur.len() > 0 {
            (ws.push(cur), Seq::empty())
        } else {
            (ws, Seq::empty())
        }
    }
}

/// The words of a text, in order.
pub open spec fn words(s: Seq<char>) -> Seq<Seq<char>> {
    let (ws, cur) = split_state(s);
    if cur.len() > 0 {
        ws.push(cur)
    } else {
        ws
    }
}

/// The length of a string in UTF-8 bytes.
pub open spec fn byte_len(s: Seq<char>) -> nat {
    encode_utf8(s).len()
}

/// The score of a word at position `idx`: its byte length up to 8, plus 10
/// for a capitalised word inside the sentence (a proper name).
pub open spec fn word_score(w: Seq<char>, idx: int) -> int {
    let l = byte_len(lowercase(w));
    (if l < 8 {
        l as int
    } else {
        8
    }) + if proper_name(w, idx) {
        10int
    } else {
        0int
    }
}

/// A capitalised word after the first one: a proper name (a person, a
/// place, an organisation).
pub open spec fn proper_name(w: Seq<char>, idx: int) -> bool {
    idx > 0 && is_upper(w[0])
}

/// The scored candidates of the words read so far, and the lower-case
/// words already taken: stop words and repeats are skipped, and so are
/// words under four bytes unless they are proper names.
pub open spec fn tag_state(ws: Seq<Seq<char>>) -> (Seq<(int, Seq<char>)>, Seq<Seq<char>>)
    decreases ws.len(),
{
    if ws.len() == 0 {
        (Seq::empty(), Seq::empty())
    } else {
        let (cs, seen) = tag_state(ws.drop_last());
        let w = ws.last();
        let lower = lowercase(w);
        if (byte_len(lower) < 4 && !proper_name(w, ws.len() - 1)) || is_stopword(lower) || seen.contains(lower) {
            (cs, seen)
        } else {
            (cs.push((word_score(w, ws.len() - 1), lower)), seen.push(lower))
        }
    }
}

/// The position of the first candidate with the best score.
pub open spec fn best_index(cs: Seq<(int, Seq<char>)>) -> int
    decreases cs.len(),
{
    if cs.len() <= 1 {
        0
    } else {
        let b = best_index(cs.drop_last());
        if cs.last().0 > cs[b].0 {
            cs.len() - 1
        } else {
            b
        }
    }
}

/// The words of the `k` best candidates, best first, earlier first among
/// equal scores: the first `k` of a stable sort by descending score.
pub open spec fn take_best(cs: Seq<(int, Seq<char>)>, k: nat) -> Seq<Seq<char>>
    decreases k,
{
    if k == 0 || cs.len() == 0 {
        Seq::empty()
    } else {
        let b = best_index(cs);
        seq![cs[b].1] + take_best(cs.remove(b), (k - 1) as nat)
    }
}

/// The heuristic tags of a text: at most three lower-case words, proper
/// names first, then long content words.
pub open spec fn heuristic_tags(text: Seq<char>) -> Seq<Seq<char>> {
    take_best(tag_state(words(text)).0, 3)
}

proof fn lemma_best_index(cs: Seq<(int, Seq<char>)>)
    requires
        cs.len() > 0,
    ensures
        0 <= best_index(cs) < cs.len(),
    decreases cs.len(),
{
    if cs.len() > 1 {
        lemma_best_index(cs.drop_last());
    }
}

pub open spec fn bounds_words(s: Seq<char>, b: Seq<(usize, usize)>) -> Seq<Seq<char>> {
    Seq::new(b.len(), |k: int| s.subrange(b[k].0 as int, b[k].1 as int))
}

/// Word boundaries of a text.
fn word_bounds(s: &Vec<char>) -> (r: Vec<(usize, usize)>)
    ensures
        bounds_words(s@, r@) == words(s@),
        forall|k: int| 0 <= k < r@.len() ==> (#[trigger] r@[k]).0 < r@[k].1 <= s@.len(),
{
    let mut bounds: Vec<(usize, usize)> = Vec::new();
    let mut start: usize = 0;
    let mut i: usize = 0;
    while i < s.len()
        invariant
            start <= i <= s@.len(),
            split_state(s@.take(i as int)) == (bounds_words(s@, bounds@), s@.subrange(start as int, i as int)),
            forall|k: int| 0 <= k < bounds@.len() ==> (#[trigger] bounds@[k]).0 < bounds@[k].1 <= start,
        decreases s@.len() - i,
    {
        let ghost pre = s@.take(i as int);
        assert(s@.take(i + 1).drop_last() =~= pre);
        assert(s@.take(i + 1).last() == s@[i as int]);
        if char_is_alphanumeric(s[i]) {
            assert(s@.subrange(start as int, i + 1) =~= s@.subrange(start as int, i as int).push(s@[i as int]));
        } else {
            if start < i {
                let ghost before = bounds@;
                bounds.push((start, i));
                assert(bounds_words(s@, bounds@) =~= bounds_words(s@, before).push(s@.subrange(start as int, i as int)));
            }
            start = i + 1;
            assert(s@.subrange(start as int, i + 1) =~= Seq::<char>::empty());
        }
        i = i + 1;
    }
    assert(s@.take(s@.len() as int) =~= s@);
    if start < s.len() {
        let ghost before = bounds@;
        bounds.push((start, s.len()));
        assert(bounds_words(s@, bounds@) =~= bounds_words(s@, before).push(s@.subrange(start as int, s@.len() as int)));
    } else {
        assert(s@.subrange(start as int, s@.len() as int).len() == 0);
    }
    bounds
}

pub open spec fn cands_view(v: Seq<(u32, String)>) -> Seq<(int, Seq<char>)> {
    Seq::new(v.len(), |i: int| (v[i].0 as int, v[i].1@))
}

fn seen_contains(seen: &Vec<String>, w: &str) -> (r: bool)
    ensures
        r == strings_view(seen@).contains(w@),
{
    let ghost sv = strings_view(seen@);
    let mut i: usize = 0;
    while i < seen.len()
        invariant
            i <= seen@.len(),
            sv == strings_view(seen@),
            forall|k: int| 0 <= k < i ==> sv[k] != w@,
        decreases seen@.len() - i,
    {
        if str_equal(seen[i].as_str(), w) {
            assert(sv[i as int] == w@);
            return true;
        }
        i = i + 1;
    }
    false
}

fn best_index_exec(cs: &Vec<(u32, String)>) -> (r: usize)
    requires
        cs@.len() > 0,
    ensures
        r == best_index(cands_view(cs@)),
        r < cs@.len(),
{
    let ghost cv = cands_view(cs@);
    let mut b: usize = 0;
    let mut i: usize = 1;
    assert(cv.take(1).len() == 1);
    while i < cs.len()
        invariant
            1 <= i <= cs@.len(),
            cv == cands_view(cs@),
            b < i,
            b == best_index(cv.take(i as int)),
        decreases cs@.len() - i,
    {
        let ghost t = cv.take(i + 1);
        assert(t.drop_last() =~= cv.take(i as int));
        assert(t.last() == cv[i as int]);
        assert(t[b as int] == cv[b as int]);
        if cs[i].0 > cs[b].0 {
            b = i;
        }
        i = i + 1;
    }
    assert(cv.take(cs@.len() as int) =~= cv);
    b
}

/// A word at position `j` that may be a tag: its lower-case form is not a
/// stop word, and is four bytes or more unless the word is a proper name.
pub open spec fn tag_word(ws: Seq<Seq<char>>, j: int, tag: Seq<char>) -> bool {
    &&& 0 <= j < ws.len()
    &&& tag == lowercase(ws[j])
    &&& !is_stopword(tag)
    &&& (byte_len(tag) >= 4 || proper_name(ws[j], j))
}

/// Some word of `ws` may be the tag `tag` (see `tag_word`).
pub open spec fn may_be_tag(ws: Seq<Seq<char>>, tag: Seq<char>) -> bool {
    exists|j: int| tag_word(ws, j, tag)
}

proof fn lemma_tag_state_shape(ws: Seq<Seq<char>>)
    ensures
        tag_state(ws).0.len() == tag_state(ws).1.len(),
        forall|i: int| 0 <= i < tag_state(ws).0.len() ==> #[trigger] tag_state(ws).0[i].1 == tag_state(ws).1[i],
        tag_state(ws).1.no_duplicates(),
        forall|i: int| 0 <= i < tag_state(ws).1.len() ==> may_be_tag(ws, #[trigger] tag_state(ws).1[i]),
    decreases ws.len(),
{
    if ws.len() > 0 {
        let pre = ws.drop_last();
        lemma_tag_state_shape(pre);
        let cs = tag_state(pre).0;
        let seen = tag_state(pre).1;
        let w = ws.last();
        let lower = lowercase(w);
        let skip = (byte_len(lower) < 4 && !proper_name(w, ws.len() - 1)) || is_stopword(lower) || seen.contains(lower);
        let now = tag_state(ws).1;
        if !skip {
            assert(tag_word(ws, ws.len() - 1, lower));
            assert(now == seen.push(lower));
            assert forall|a: int, b: int| 0 <= a < now.len() && 0 <= b < now.len() && a != b implies now[a]
                != now[b] by {
                if a < seen.len() && b < seen.len() {
                    assert(now[a] == seen[a]);
                    assert(now[b] == seen[b]);
                } else if a < seen.len() {
                    assert(now[a] == seen[a]);
                    assert(seen.contains(seen[a]));
                } else {
                    assert(now[b] == seen[b]);
                    assert(seen.contains(seen[b]));
                }
            }
        } else {
            assert(now == seen);
        }
        assert forall|i: int| 0 <= i < tag_state(ws).1.len() implies may_be_tag(ws, #[trigger] tag_state(ws).1[i]) by {
            let x = tag_state(ws).1[i];
            assert(x == now[i]);
            if i < seen.len() {
                assert(now[i] == seen[i]);
                assert(may_be_tag(pre, tag_state(pre).1[i]));
                let j = choose|j: int| tag_word(pre, j, tag_state(pre).1[i]);
                assert(ws[j] == pre[j]);
                assert(tag_word(ws, j, x));
            } else {
                assert(tag_word(ws, ws.len() - 1, x));
            }
        }
    }
}

proof fn lemma_take_best_shape(cs: Seq<(int, Seq<char>)>, k: nat)
    requires
        forall|a: int, b: int| 0 <= a < b < cs.len() ==> cs[a].1 != cs[b].1,
    ensures
        take_best(cs, k).len() <= k,
        take_best(cs, k).no_duplicates(),
        forall|i: int| 0 <= i < take_best(cs, k).len() ==> exists|j: int| 0 <= j < cs.len() && #[trigger] take_best(cs, k)[i] == cs[j].1,
    decreases k,
{
    if k > 0 && cs.len() > 0 {
        lemma_best_index(cs);
        let b = best_index(cs);
        let rem = cs.remove(b);
        assert forall|x: int, y: int| 0 <= x < y < rem.len() implies rem[x].1 != rem[y].1 by {
            let xo = if x < b { x } else { x + 1 };
            let yo = if y < b { y } else { y + 1 };
            assert(rem[x] == cs[xo]);
            assert(rem[y] == cs[yo]);
        }
        lemma_take_best_shape(rem, (k - 1) as nat);
        let rest = take_best(rem, (k - 1) as nat);
        let t = take_best(cs, k);
        assert(t == seq![cs[b].1] + rest);
        assert forall|i: int| 0 <= i < t.len() implies exists|j: int| 0 <= j < cs.len() && #[trigger] t[i] == cs[j].1 by {
            if i == 0 {
                assert(t[0] == cs[b].1);
            } else {
                assert(t[i] == rest[i - 1]);
                let j = choose|j: int| 0 <= j < rem.len() && rest[i - 1] == rem[j].1;
                let jo = if j < b { j } else { j + 1 };
                assert(rem[j] == cs[jo]);
            }
        }
        assert forall|x: int, y: int| 0 <= x < t.len() && 0 <= y < t.len() && x != y implies t[x] != t[y] by {
            if x > 0 && y > 0 {
                assert(t[x] == rest[x - 1]);
                assert(t[y] == rest[y - 1]);
            } else {
                let z = if x == 0 { y } else { x };
                assert(t[z] == rest[z - 1]);
                let j = choose|j: int| 0 <= j < rem.len() && rest[z - 1] == rem[j].1;
                let jo = if j < b { j } else { j + 1 };
                assert(rem[j] == cs[jo]);
                assert(jo != b);
            }
        }
    }
}

/// The heuristic tags of a text are at most three, all different, and
/// each is the lower-case form of one of its words that may be a tag: not
/// a stop word, and four bytes or more unless it is a proper name.
pub proof fn lemma_heuristic_tags_shape(text: Seq<char>)
    ensures
        heuristic_tags(text).len() <= 3,
        heuristic_tags(text).no_duplicates(),
        forall|i: int| 0 <= i < heuristic_tags(text).len() ==> may_be_tag(words(text), #[trigger] heuristic_tags(text)[i]),
{
    let ws = words(text);
    lemma_tag_state_shape(ws);
    let (cs, seen) = tag_state(ws);
    assert forall|a: int, b: int| 0 <= a < b < cs.len() implies cs[a].1 != cs[b].1 by {
        assert(cs[a].1 == seen[a]);
        assert(cs[b].1 == seen[b]);
    }
    lemma_take_best_shape(cs, 3);
    let t = heuristic_tags(text);
    assert forall|i: int| 0 <= i < t.len() implies may_be_tag(ws, #[trigger] t[i]) by {
        let m = choose|m: int| 0 <= m < cs.len() && t[i] == cs[m].1;
        assert(cs[m].1 == seen[m]);
        assert(seen == tag_state(ws).1);
        assert(may_be_tag(ws, tag_state(ws).1[m]));
    }
}

/// Heuristic relation tags of a raw event: at most three lower-case words;
/// capitalised words inside the sentence (proper names, of any length)
/// first, then content words of four bytes or more; stop words are never
/// tags.
pub fn heuristic_relations(text: &str) -> (r: Vec<String>)
    ensures
        strings_view(r@) == heuristic_tags(text@),
{
    let chars = chars_of(text);
    let bounds = word_bounds(&chars);
    let ghost ws = words(text@);
    let mut cands: Vec<(u32, String)> = Vec::new();
    let mut seen: Vec<String> = Vec::new();
    let mut k: usize = 0;
    while k < bounds.len()
        invariant
            chars@ == text@,
            bounds_words(text@, bounds@) == ws,
            ws == words(text@),
            forall|j: int| 0 <= j < bounds@.len() ==> (#[trigger] bounds@[j]).0 < bounds@[j].1 <= text@.len(),
            k <= bounds@.len(),
            tag_state(ws.take(k as int)) == (cands_view(cands@), strings_view(seen@)),
        decreases bounds@.len() - k,
    {
        let (b0, b1) = bounds[k];
        assert(bounds@[k as int].0 < bounds@[k as int].1 <= text@.len());
        let w = text.substring_char(b0, b1);
        let ghost wt = ws.take(k + 1);
        assert(wt.drop_last() =~= ws.take(k as int));
        assert(wt.last() == w@);
        let lower = to_lowercase(w);
        let blen = lower.as_str().as_bytes().len();
        assert(blen == byte_len(lower@));
        let cap = k > 0 && char_is_uppercase(chars[b0]);
        assert(w@[0] == chars@[b0 as int]);
        assert(cap == proper_name(w@, k as int));
        if (blen < 4 && !cap) || stopword(lower.as_str()) {
        } else if seen_contains(&seen, lower.as_str()) {
        } else {
            let base: u32 = if blen < 8 {
                blen as u32
            } else {
                8
            };
            let score: u32 = if cap {
                base + 10
            } else {
                base
            };
            assert(score == word_score(w@, k as int));
            let ghost cprev = cands@;
            let ghost sprev = seen@;
            cands.push((score, lower.clone()));
            seen.push(lower);
            assert(cands_view(cands@) =~= cands_view(cprev).push((score as int, lowercase(w@))));
            assert(strings_view(seen@) =~= strings_view(sprev).push(lowercase(w@)));
        }
        k = k + 1;
    }
    assert(ws.take(bounds@.len() as int) =~= ws);
    let ghost all = cands_view(cands@);
    let mut out: Vec<String> = Vec::new();
    let mut n: usize = 0;
    while n < 3 && cands.len() > 0
        invariant
            n <= 3,
            take_best(all, 3) == strings_view(out@) + take_best(cands_view(cands@), (3 - n) as nat),
        decreases 3 - n,
    {
        let b = best_index_exec(&cands);
        let ghost cv = cands_view(cands@);
        proof {
            lemma_best_index(cv);
        }
        let (_, w) = cands.remove(b);
        assert(cands_view(cands@) =~= cv.remove(b as int));
        let ghost prev = out@;
        out.push(w);
        assert(strings_view(out@) =~= strings_view(prev).push(cv[b as int].1));
        assert(strings_view(prev) + (seq![cv[b as int].1] + take_best(cv.remove(b as int), (3 - n - 1) as nat)) =~= strings_view(out@) + take_best(cands_view(cands@), (3 - (n + 1)) as nat));
        n = n + 1;
    }
    assert(strings_view(out@) + Seq::<Seq<char>>::empty() =~= strings_view(out@));
    out
}

/// The words of a query worth matching: three bytes or longer and not stop
/// words, in order.
pub open spec fn content_terms(ws: Seq<Seq<char>>) -> Seq<Seq<char>>
    decreases ws.len(),
{
    if ws.len() == 0 {
        Seq::empty()
    } else {
        let rest = content_terms(ws.drop_last());
        let w = ws.last();
        if byte_len(w) >= 3 && !is_stopword(w) {
            rest.push(w)
        } else {
            rest
        }
    }
}

/// The match terms of a query: its content words, or all its words when it
/// has none (a query of stop words only).
pub open spec fn query_terms_of(q: Seq<char>) -> Seq<Seq<char>> {
    let ct = content_terms(words(q));
    if ct.len() > 0 {
        ct
    } else {
        words(q)
    }
}

/// The match terms of a query: maximal alphanumeric runs of three bytes or
/// more that are not stop words, in order; all its words when none is left.
pub fn query_terms(query: &str) -> (r: Vec<String>)
    ensures
        strings_view(r@) == query_terms_of(query@),
{
    let chars = chars_of(query);
    let bounds = word_bounds(&chars);
    let ghost ws = words(query@);
    let mut terms: Vec<String> = Vec::new();
    let mut all: Vec<String> = Vec::new();
    let mut k: usize = 0;
    while k < bounds.len()
        invariant
            chars@ == query@,
            bounds_words(query@, bounds@) == ws,
            ws == words(query@),
            forall|j: int| 0 <= j < bounds@.len() ==> (#[trigger] bounds@[j]).0 < bounds@[j].1 <= query@.len(),
            k <= bounds@.len(),
            strings_view(all@) == ws.take(k as int),
            strings_view(terms@) == content_terms(ws.take(k as int)),
        decreases bounds@.len() - k,
    {
        let (b0, b1) = bounds[k];
        assert(bounds@[k as int].0 < bounds@[k as int].1 <= query@.len());
        let w = query.substring_char(b0, b1);
        let ghost wt = ws.take(k + 1);
        assert(wt.drop_last() =~= ws.take(k as int));
        assert(wt.last() == w@);
        let blen = w.as_bytes().len();
        assert(blen == byte_len(w@));
        let ghost aprev = all@;
        all.push(w.to_owned());
        assert(strings_view(all@) =~= strings_view(aprev).push(w@));
        if blen >= 3 && !stopword(w) {
            let ghost tprev = terms@;
            terms.push(w.to_owned());
            assert(strings_view(terms@) =~= strings_view(tprev).push(w@));
        }
        k = k + 1;
    }
    assert(ws.take(bounds@.len() as int) =~= ws);
    if terms.len() > 0 {
        terms
    } else {
        all
    }
}

/// The relation tags of a heuristic weave: the task when there is one,
/// else the heuristic tags of the raw event.
pub fn fallback_relations(task: Option<&str>, raw_event: &str) -> (r: Vec<String>)
    ensures
        strings_view(r@) == match task {
            Some(t) => seq![t@],
            None => heuristic_tags(raw_event@),
        },
{
    match task {
        Some(t) => {
            let mut v: Vec<String> = Vec::new();
            v.push(t.to_owned());
            assert(strings_view(v@) =~= seq![t@]);
            v
        },
        None => heuristic_relations(raw_event),
    }
}

} // verus!
