//! Subject normalisation and grouping of messages into conversations.

use vstd::prelude::*;
use crate::models::{
    ConversationThread, EmailMessage, MessageModel, ThreadModel, message_models, opt_view,
    thread_models,
};
use crate::sorting::{SortKey, stable_order, stably_sorted, lemma_stably_sorted_ext, lemma_order_covers};
use crate::text::{
    append_chars, append_str, decimal, decimal_chars, is_blank, chars_of, lex_lt, views, has_prefix, lemma_trim_len, lower_chars, lower_text, slice_chars, starts_with,
    string_of, trim, trim_chars, contains_string, all_ws, ascii_lower, ascii_upto, is_ascii_char,
    is_ws, lowers_ascii, lemma_trim_start_ws_prefix, lemma_trim_end_keeps_prefix,
    lemma_trim_of_trim_end, trim_start, trim_end, lemma_trim_idempotent, lemma_trim_start_len,
    lemma_trim_end_len,
};

verus! {

/// `s` with every leading "re:", "fwd:" or "fw:" (in any letter case, as
/// judged on the lower-cased text) removed, re-trimming after each one.
pub open spec fn strip_reply_prefixes(s: Seq<char>) -> Seq<char>
    decreases s.len(),
{
    let lower = lower_text(s);
    if s.len() >= 3 && starts_with(lower, seq!['r', 'e', ':']) {
        proof {
            lemma_trim_len(s.skip(3));
        }
        strip_reply_prefixes(trim(s.skip(3)))
    } else if s.len() >= 4 && starts_with(lower, seq!['f', 'w', 'd', ':']) {
        proof {
            lemma_trim_len(s.skip(4));
        }
        strip_reply_prefixes(trim(s.skip(4)))
    } else if s.len() >= 3 && starts_with(lower, seq!['f', 'w', ':']) {
        proof {
            lemma_trim_len(s.skip(3));
        }
        strip_reply_prefixes(trim(s.skip(3)))
    } else {
        s
    }
}

/// The normalised form of a subject: trimmed, reply/forward prefixes
/// removed, lower-cased.
pub open spec fn normalized(subject: Seq<char>) -> Seq<char> {
    lower_text(strip_reply_prefixes(trim(subject)))
}

/// A subject as shown: trimmed, or "(no subject)" when nothing is left.
pub open spec fn display_of(subject: Seq<char>) -> Seq<char> {
    if trim(subject).len() == 0 {
        "(no subject)"@
    } else {
        trim(subject)
    }
}

fn strip_prefixes(s: Vec<char>) -> (r: Vec<char>)
    ensures
        r@ == strip_reply_prefixes(s@),
        lowers_ascii(s@, lower_text(s@)),
    decreases s.len(),
{
    let lower = lower_chars(&s);
    // A lower-cased text that starts with one of these ASCII prefixes comes
    // from a text whose first characters are those letters in some case, so
    // the prefix has the same number of characters in `s`.
    if s.len() >= 3 && has_prefix(&lower, &vec!['r', 'e', ':']) {
        let rest = trim_chars(&slice_chars(&s, 3, s.len()));
        assert(s@.subrange(3, s@.len() as int) =~= s@.skip(3));
        proof {
            lemma_trim_len(s@.skip(3));
        }
        strip_prefixes(rest)
    } else if s.len() >= 4 && has_prefix(&lower, &vec!['f', 'w', 'd', ':']) {
        let rest = trim_chars(&slice_chars(&s, 4, s.len()));
        assert(s@.subrange(4, s@.len() as int) =~= s@.skip(4));
        proof {
            lemma_trim_len(s@.skip(4));
        }
        strip_prefixes(rest)
    } else if s.len() >= 3 && has_prefix(&lower, &vec!['f', 'w', ':']) {
        let rest = trim_chars(&slice_chars(&s, 3, s.len()));
        assert(s@.subrange(3, s@.len() as int) =~= s@.skip(3));
        proof {
            lemma_trim_len(s@.skip(3));
        }
        strip_prefixes(rest)
    } else {
        s
    }
}

/// A reply or forward prefix: `re:`, `fwd:` or `fw:` in any ASCII letter
/// case.
pub open spec fn is_reply_prefix(p: Seq<char>) -> bool {
    ||| p.len() == 3 && ascii_lower(p[0]) == 'r' && ascii_lower(p[1]) == 'e' && p[2] == ':'
    ||| p.len() == 4 && ascii_lower(p[0]) == 'f' && ascii_lower(p[1]) == 'w' && ascii_lower(p[2])
        == 'd' && p[3] == ':'
    ||| p.len() == 3 && ascii_lower(p[0]) == 'f' && ascii_lower(p[1]) == 'w' && p[2] == ':'
}

/// A subject made of whitespace `w1`, a prefix `p`, whitespace `w2` and the
/// rest of the subject.
pub open spec fn prefixed_subject(w1: Seq<char>, p: Seq<char>, w2: Seq<char>, rest: Seq<char>) -> Seq<char> {
    w1 + p + w2 + rest
}

/// Removing one reply or forward prefix, with the whitespace around it,
/// leaves the prefixes stripped from what follows it.
proof fn lemma_strip_reply_prefix(w1: Seq<char>, p: Seq<char>, w2: Seq<char>, rest: Seq<char>)
    requires
        all_ws(w1),
        all_ws(w2),
        is_reply_prefix(p),
        lowers_ascii(
            trim(prefixed_subject(w1, p, w2, rest)),
            lower_text(trim(prefixed_subject(w1, p, w2, rest))),
        ),
    ensures
        strip_reply_prefixes(trim(prefixed_subject(w1, p, w2, rest))) == strip_reply_prefixes(
            trim(rest),
        ),
{
    let u = w2 + rest;
    let x = prefixed_subject(w1, p, w2, rest);
    assert(x =~= w1 + (p + u));
    lemma_trim_start_ws_prefix(w1, p + u);
    assert((p + u)[0] == p[0]);
    assert(is_ascii_char(p[0]) && is_ascii_char(p[1]) && is_ascii_char(p[2]));
    assert(p.len() == 4 ==> is_ascii_char(p[3]));
    assert(!is_ws(p[0]));
    assert(trim_start(p + u) == p + u);
    assert(!is_ws(p.last()));
    lemma_trim_end_keeps_prefix(p, u);
    let t = trim(x);
    assert(t == p + trim_end(u));
    let k = p.len() as int;
    assert(ascii_upto(t, k)) by {
        assert forall|j: int| 0 <= j < k implies is_ascii_char(#[trigger] t[j]) by {
            assert(t[j] == p[j]);
        }
    }
    let l = lower_text(t);
    assert(l.take(k) == t.take(k).map_values(|c: char| ascii_lower(c)));
    assert(l[0] == l.take(k)[0] && l[1] == l.take(k)[1] && l[2] == l.take(k)[2]);
    assert(t[0] == p[0] && t[1] == p[1] && t[2] == p[2]);
    if k == 4 {
        assert(l[3] == l.take(k)[3]);
        assert(t[3] == p[3]);
    }
    assert(t.skip(k) =~= trim_end(u));
    lemma_trim_of_trim_end(u);
    lemma_trim_start_ws_prefix(w2, rest);
    assert(trim(t.skip(k)) == trim(rest));
    if p.len() == 3 && ascii_lower(p[0]) == 'r' {
        assert(l.subrange(0, 3) =~= seq!['r', 'e', ':']);
    } else if p.len() == 4 {
        assert(l.subrange(0, 3)[0] != 'r');
        assert(l.subrange(0, 4) =~= seq!['f', 'w', 'd', ':']);
    } else {
        assert(l.subrange(0, 3)[0] != 'r');
        if l.len() >= 4 {
            assert(l.subrange(0, 4)[2] == l[2]);
        }
        assert(!starts_with(l, seq!['f', 'w', 'd', ':']));
        assert(l.subrange(0, 3) =~= seq!['f', 'w', ':']);
    }
}

/// The key under which messages with this subject are grouped.  A leading
/// reply or forward prefix (`re:`, `fw:`, `fwd:` in any ASCII letter case),
/// with whitespace around it, makes no difference to the key.
pub fn normalize_subject(subject: &str) -> (r: String)
    ensures
        r@ == normalized(subject@),
        forall|w1: Seq<char>, p: Seq<char>, w2: Seq<char>, rest: Seq<char>|
            all_ws(w1) && all_ws(w2) && is_reply_prefix(p) && #[trigger] prefixed_subject(
                w1,
                p,
                w2,
                rest,
            ) == subject@ ==> r@ == normalized(rest),
{
    let s = trim_chars(&chars_of(subject));
    let stripped = strip_prefixes(s);
    proof {
        assert forall|w1: Seq<char>, p: Seq<char>, w2: Seq<char>, rest: Seq<char>|
            all_ws(w1) && all_ws(w2) && is_reply_prefix(p) && #[trigger] prefixed_subject(
                w1,
                p,
                w2,
                rest,
            ) == subject@ implies strip_reply_prefixes(trim(subject@)) == strip_reply_prefixes(
            trim(rest),
        ) by {
            lemma_strip_reply_prefix(w1, p, w2, rest);
        }
    }
    let lowered = lower_chars(&stripped);
    string_of(&lowered)
}

/// An ASCII lower-case letter raised; any other character unchanged (what
/// `char::to_ascii_uppercase` gives).
pub open spec fn ascii_upper(c: char) -> char {
    if 'a' <= c && c <= 'z' {
        ((c as u32) - 32) as char
    } else {
        c
    }
}

/// `a` and `b` are texts of ASCII characters that differ at most in the
/// case of their letters.
pub open spec fn same_but_case(a: Seq<char>, b: Seq<char>) -> bool {
    &&& a.len() == b.len()
    &&& forall|i: int|
        #![trigger a[i]]
        #![trigger b[i]]
        0 <= i < a.len() ==> is_ascii_char(a[i]) && is_ascii_char(b[i]) && ascii_lower(a[i])
            == ascii_lower(b[i])
}

proof fn lemma_case_char(c: char)
    ensures
        is_ws(ascii_lower(c)) == is_ws(c),
        is_ascii_char(c) ==> is_ascii_char(ascii_lower(c)) && is_ascii_char(ascii_upper(c)),
        ascii_lower(ascii_lower(c)) == ascii_lower(c),
        ascii_lower(ascii_upper(c)) == ascii_lower(c),
{
}

proof fn lemma_case_trim_start(a: Seq<char>, b: Seq<char>)
    requires
        same_but_case(a, b),
    ensures
        same_but_case(trim_start(a), trim_start(b)),
    decreases a.len(),
{
    if a.len() > 0 {
        lemma_case_char(a[0]);
        lemma_case_char(b[0]);
        if is_ws(a[0]) {
            let (a1, b1) = (a.drop_first(), b.drop_first());
            assert forall|i: int| 0 <= i < a1.len() implies is_ascii_char(a1[i]) && is_ascii_char(
                b1[i],
            ) && ascii_lower(a1[i]) == ascii_lower(b1[i]) by {
                assert(a1[i] == a[i + 1] && b1[i] == b[i + 1]);
            }
            lemma_case_trim_start(a1, b1);
        }
    }
}

proof fn lemma_case_trim_end(a: Seq<char>, b: Seq<char>)
    requires
        same_but_case(a, b),
    ensures
        same_but_case(trim_end(a), trim_end(b)),
    decreases a.len(),
{
    if a.len() > 0 {
        lemma_case_char(a.last());
        lemma_case_char(b.last());
        if is_ws(a.last()) {
            let (a1, b1) = (a.drop_last(), b.drop_last());
            assert forall|i: int| 0 <= i < a1.len() implies is_ascii_char(a1[i]) && is_ascii_char(
                b1[i],
            ) && ascii_lower(a1[i]) == ascii_lower(b1[i]) by {
                assert(a1[i] == a[i] && b1[i] == b[i]);
            }
            lemma_case_trim_end(a1, b1);
        }
    }
}

proof fn lemma_case_trim(a: Seq<char>, b: Seq<char>)
    requires
        same_but_case(a, b),
    ensures
        same_but_case(trim(a), trim(b)),
{
    lemma_case_trim_start(a, b);
    lemma_case_trim_end(trim_start(a), trim_start(b));
}

proof fn lemma_case_lower(a: Seq<char>, b: Seq<char>)
    requires
        same_but_case(a, b),
    ensures
        lower_text(a) == lower_text(b),
        lower_text(a) == a.map_values(|c: char| ascii_lower(c)),
{
    assert(ascii_upto(a, a.len() as int));
    assert(ascii_upto(b, b.len() as int));
    assert(a.map_values(|c: char| ascii_lower(c)) =~= b.map_values(|c: char| ascii_lower(c)));
}

proof fn lemma_case_strip(a: Seq<char>, b: Seq<char>)
    requires
        same_but_case(a, b),
    ensures
        same_but_case(strip_reply_prefixes(a), strip_reply_prefixes(b)),
    decreases a.len(),
{
    lemma_case_lower(a, b);
    let la = lower_text(a);
    let k: int = if a.len() >= 3 && starts_with(la, seq!['r', 'e', ':']) {
        3
    } else if a.len() >= 4 && starts_with(la, seq!['f', 'w', 'd', ':']) {
        4
    } else if a.len() >= 3 && starts_with(la, seq!['f', 'w', ':']) {
        3
    } else {
        0
    };
    if k > 0 {
        let (a1, b1) = (a.skip(k), b.skip(k));
        assert forall|i: int| 0 <= i < a1.len() implies is_ascii_char(a1[i]) && is_ascii_char(b1[i])
            && ascii_lower(a1[i]) == ascii_lower(b1[i]) by {
            assert(a1[i] == a[i + k] && b1[i] == b[i + k]);
        }
        lemma_case_trim(a1, b1);
        lemma_trim_len(a1);
        lemma_case_strip(trim(a1), trim(b1));
    }
}

proof fn lemma_strip_settles(s: Seq<char>)
    ensures
        strip_reply_prefixes(s).len() <= s.len(),
        strip_reply_prefixes(strip_reply_prefixes(s)) == strip_reply_prefixes(s),
        trim(s) == s ==> trim(strip_reply_prefixes(s)) == strip_reply_prefixes(s),
    decreases s.len(),
{
    let l = lower_text(s);
    let k: int = if s.len() >= 3 && starts_with(l, seq!['r', 'e', ':']) {
        3
    } else if s.len() >= 4 && starts_with(l, seq!['f', 'w', 'd', ':']) {
        4
    } else if s.len() >= 3 && starts_with(l, seq!['f', 'w', ':']) {
        3
    } else {
        0
    };
    if k > 0 {
        lemma_trim_len(s.skip(k));
        lemma_trim_idempotent(s.skip(k));
        lemma_strip_settles(trim(s.skip(k)));
    }
}

/// For a subject of ASCII characters, the grouping key is settled: it is
/// trimmed, lower-case and starts with no reply or forward prefix, so that
/// normalising it again gives it back; and raising the subject's letters to
/// upper case gives the same key.
pub proof fn law_normalized_subject_is_settled(subject: Seq<char>)
    requires
        ascii_upto(subject, subject.len() as int),
    ensures
        trim(normalized(subject)) == normalized(subject),
        lower_text(normalized(subject)) == normalized(subject),
        !starts_with(normalized(subject), seq!['r', 'e', ':']),
        !starts_with(normalized(subject), seq!['f', 'w', ':']),
        !starts_with(normalized(subject), seq!['f', 'w', 'd', ':']),
        normalized(normalized(subject)) == normalized(subject),
        normalized(subject.map_values(|c: char| ascii_upper(c))) == normalized(subject),
{
    let t = trim(subject);
    let x = strip_reply_prefixes(t);
    let n = normalized(subject);
    assert(same_but_case(subject, subject));
    lemma_case_trim(subject, subject);
    lemma_case_strip(t, t);
    lemma_case_lower(x, x);
    assert(n == x.map_values(|c: char| ascii_lower(c)));
    assert forall|i: int| 0 <= i < n.len() implies is_ascii_char(n[i]) && is_ascii_char(x[i])
        && ascii_lower(n[i]) == ascii_lower(x[i]) by {
        lemma_case_char(x[i]);
    }
    assert(same_but_case(n, x));
    lemma_trim_idempotent(subject);
    lemma_strip_settles(t);
    // the key is trimmed
    lemma_case_trim(n, x);
    lemma_trim_start_len(n);
    lemma_trim_end_len(trim_start(n));
    assert(trim_start(n) =~= n);
    assert(trim(n) =~= n);
    // the key is lower-case
    lemma_case_lower(n, x);
    assert forall|i: int| 0 <= i < n.len() implies #[trigger] ascii_lower(n[i]) == n[i] by {
        lemma_case_char(x[i]);
    }
    assert(n.map_values(|c: char| ascii_lower(c)) =~= n);
    // the key starts with no prefix, as stripping stopped at `x`
    lemma_strip_settles(x);
    assert(lower_text(x) == n);
    assert(strip_reply_prefixes(x) == x);
    lemma_trim_len(x.skip(3));
    lemma_trim_len(x.skip(4));
    lemma_strip_settles(trim(x.skip(3)));
    lemma_strip_settles(trim(x.skip(4)));
    if starts_with(n, seq!['r', 'e', ':']) {
        assert(strip_reply_prefixes(x) == strip_reply_prefixes(trim(x.skip(3))));
        assert(false);
    }
    if starts_with(n, seq!['f', 'w', 'd', ':']) {
        assert(n.subrange(0, 3)[0] != 'r');
        assert(strip_reply_prefixes(x) == strip_reply_prefixes(trim(x.skip(4))));
        assert(false);
    }
    if starts_with(n, seq!['f', 'w', ':']) {
        assert(n.subrange(0, 3)[0] != 'r');
        if x.len() >= 4 {
            assert(n.subrange(0, 4)[2] == n[2]);
        }
        assert(!starts_with(n, seq!['f', 'w', 'd', ':']));
        assert(strip_reply_prefixes(x) == strip_reply_prefixes(trim(x.skip(3))));
        assert(false);
    }
    assert(strip_reply_prefixes(n) == n);
    // raising the letters
    let u = subject.map_values(|c: char| ascii_upper(c));
    assert forall|i: int| 0 <= i < u.len() implies is_ascii_char(u[i]) && is_ascii_char(subject[i])
        && ascii_lower(u[i]) == ascii_lower(subject[i]) by {
        assert(is_ascii_char(subject[i]));
        lemma_case_char(subject[i]);
    }
    assert(same_but_case(u, subject));
    lemma_case_trim(u, subject);
    lemma_case_strip(trim(u), t);
    lemma_case_lower(strip_reply_prefixes(trim(u)), x);
}

/// A subject as shown: the trimmed subject, or "(no subject)" when nothing
/// is left.
pub fn display_subject(subject: &str) -> (r: String)
    ensures
        r@ == display_of(subject@),
{
    let t = trim_chars(&chars_of(subject));
    if t.len() == 0 {
        String::from_str("(no subject)")
    } else {
        string_of(&t)
    }
}

/// The title of a conversation started by a message with this subject: the
/// subject with its reply and forward prefixes removed (letter case kept),
/// as shown.
pub open spec fn title_of(subject: Seq<char>) -> Seq<char> {
    display_of(strip_reply_prefixes(trim(subject)))
}

/// The title of a conversation started by a message with this subject.
pub fn conversation_title(subject: &str) -> (r: String)
    ensures
        r@ == title_of(subject@),
{
    let s = trim_chars(&chars_of(subject));
    let stripped = strip_prefixes(s);
    display_subject(string_of(&stripped).as_str())
}

} // verus!

verus! {

/// The Message-ID a message answers: its In-Reply-To header, else the last
/// of its References.
pub open spec fn parent_id_of(m: MessageModel) -> Option<Seq<char>> {
    match m.in_reply_to {
        Some(id) => Some(id),
        None => if m.references.len() > 0 {
            Some(m.references.last())
        } else {
            None
        },
    }
}

/// The last position holding a message with Message-ID `id` (later messages
/// with the same Message-ID replace earlier ones in the lookup).
pub open spec fn index_of_id(ms: Seq<MessageModel>, id: Seq<char>) -> Option<int>
    decreases ms.len(),
{
    if ms.len() == 0 {
        None
    } else if ms.last().message_id == Some(id) {
        Some(ms.len() - 1)
    } else {
        index_of_id(ms.drop_last(), id)
    }
}

/// The position of the message that message `i` answers, if it is present.
pub open spec fn parent_index(ms: Seq<MessageModel>, i: int) -> Option<int> {
    match parent_id_of(ms[i]) {
        Some(id) => index_of_id(ms, id),
        None => None,
    }
}

/// The key used when no parent decides the thread: the normalised subject,
/// or `__no_subject__<node id>` when that is blank.
pub open spec fn fallback_key(m: MessageModel) -> Seq<char> {
    if trim(m.normalized_subject).len() == 0 {
        "__no_subject__"@ + decimal(m.node_id as nat)
    } else {
        m.normalized_subject
    }
}

/// Number of positions not yet being visited.
pub open spec fn unvisited(v: Seq<bool>) -> nat
    decreases v.len(),
{
    if v.len() == 0 {
        0
    } else {
        unvisited(v.drop_last()) + if v.last() {
            0nat
        } else {
            1nat
        }
    }
}

pub proof fn lemma_unvisited_mark(v: Seq<bool>, i: int)
    requires
        0 <= i < v.len(),
        !v[i],
    ensures
        unvisited(v.update(i, true)) + 1 == unvisited(v),
    decreases v.len(),
{
    let u = v.update(i, true);
    if i == v.len() - 1 {
        assert(u.drop_last() =~= v.drop_last());
    } else {
        assert(u.drop_last() =~= v.drop_last().update(i, true));
        lemma_unvisited_mark(v.drop_last(), i);
    }
}

/// Resolution of the thread key of message `i`, with a cache of resolved
/// keys and the set of messages on the current chain of parents: a message
/// met again on that chain (a reply cycle) takes its own fallback key.
/// Returns the key and the cache afterwards.
pub open spec fn key_walk(
    ms: Seq<MessageModel>,
    i: int,
    cache: Seq<Option<Seq<char>>>,
    visiting: Seq<bool>,
) -> (Seq<char>, Seq<Option<Seq<char>>>)
    decreases unvisited(visiting),
{
    if !(0 <= i < ms.len() && visiting.len() == ms.len()) {
        (Seq::empty(), cache)
    } else if i < cache.len() && cache[i] is Some {
        (cache[i]->0, cache)
    } else if visiting[i] {
        (fallback_key(ms[i]), cache)
    } else {
        let res = match parent_index(ms, i) {
            Some(p) => {
                proof {
                    lemma_unvisited_mark(visiting, i);
                }
                key_walk(ms, p, cache, visiting.update(i, true))
            },
            None => (fallback_key(ms[i]), cache),
        };
        (res.0, res.1.update(i, Some(res.0)))
    }
}

/// Resolution of the reply depth of message `i` (the number of resolvable
/// ancestors), in the same manner as [`key_walk`]; a message met again on
/// the chain counts as depth 0.
pub open spec fn depth_walk(
    ms: Seq<MessageModel>,
    i: int,
    cache: Seq<Option<nat>>,
    visiting: Seq<bool>,
) -> (nat, Seq<Option<nat>>)
    decreases unvisited(visiting),
{
    if !(0 <= i < ms.len() && visiting.len() == ms.len()) {
        (0, cache)
    } else if i < cache.len() && cache[i] is Some {
        (cache[i]->0, cache)
    } else if visiting[i] {
        (0, cache)
    } else {
        let res = match parent_index(ms, i) {
            Some(p) => {
                proof {
                    lemma_unvisited_mark(visiting, i);
                }
                let r = depth_walk(ms, p, cache, visiting.update(i, true));
                (r.0 + 1, r.1)
            },
            None => (0nat, cache),
        };
        (res.0, res.1.update(i, Some(res.0)))
    }
}

/// Thread keys of messages `i..`, resolved in order with a shared cache.
pub open spec fn keys_from(ms: Seq<MessageModel>, i: int, cache: Seq<Option<Seq<char>>>) -> Seq<
    Seq<char>,
>
    decreases ms.len() - i,
{
    if i < 0 || i >= ms.len() {
        Seq::empty()
    } else {
        let r = key_walk(ms, i, cache, Seq::new(ms.len(), |j: int| false));
        seq![r.0] + keys_from(ms, i + 1, r.1)
    }
}

/// Reply depths of messages `i..`, resolved in order with a shared cache.
pub open spec fn depths_from(ms: Seq<MessageModel>, i: int, cache: Seq<Option<nat>>) -> Seq<nat>
    decreases ms.len() - i,
{
    if i < 0 || i >= ms.len() {
        Seq::empty()
    } else {
        let r = depth_walk(ms, i, cache, Seq::new(ms.len(), |j: int| false));
        seq![r.0] + depths_from(ms, i + 1, r.1)
    }
}

/// The thread key of every message.
pub open spec fn thread_keys(ms: Seq<MessageModel>) -> Seq<Seq<char>> {
    keys_from(ms, 0, Seq::new(ms.len(), |j: int| None))
}

/// The reply depth of every message.
pub open spec fn reply_depths(ms: Seq<MessageModel>) -> Seq<nat> {
    depths_from(ms, 0, Seq::new(ms.len(), |j: int| None))
}

/// The Message-ID that this message replies to, if any.
pub fn thread_parent_id(msg: &EmailMessage) -> (r: Option<String>)
    ensures
        opt_view(r) == parent_id_of(msg@),
{
    match &msg.in_reply_to {
        Some(id) => Some(id.clone()),
        None => {
            if msg.references.len() > 0 {
                Some(msg.references[msg.references.len() - 1].clone())
            } else {
                None
            }
        },
    }
}

/// The position of the last message whose Message-ID is `id`.
pub fn find_message_id(messages: &Vec<EmailMessage>, id: &String) -> (r: Option<usize>)
    ensures
        match r {
            Some(k) => index_of_id(message_models(messages@), id@) == Some(k as int),
            None => index_of_id(message_models(messages@), id@) is None,
        },
{
    let ghost ms = message_models(messages@);
    let mut k: usize = messages.len();
    assert(ms.take(k as int) =~= ms);
    while k > 0
        invariant
            k <= messages.len(),
            ms == message_models(messages@),
            index_of_id(ms, id@) == index_of_id(ms.take(k as int), id@),
        decreases k,
    {
        let found = match &messages[k - 1].message_id {
            Some(m) => *m == *id,
            None => false,
        };
        assert(ms.take(k as int).last() == messages@[k - 1]@);
        if found {
            return Some(k - 1);
        }
        assert(ms.take(k as int).drop_last() =~= ms.take(k - 1));
        k = k - 1;
    }
    None
}

/// The key of a message whose thread no parent decides.
pub fn fallback_thread_key(msg: &EmailMessage) -> (r: String)
    ensures
        r@ == fallback_key(msg@),
{
    if is_blank(msg.normalized_subject.as_str()) {
        let mut v: Vec<char> = Vec::new();
        append_str(&mut v, "__no_subject__");
        let d = decimal_chars(msg.node_id as u64);
        append_chars(&mut v, &d);
        string_of(&v)
    } else {
        msg.normalized_subject.clone()
    }
}

} // verus!

verus! {

pub proof fn lemma_index_of_id_range(ms: Seq<MessageModel>, id: Seq<char>)
    ensures
        index_of_id(ms, id) matches Some(k) ==> 0 <= k < ms.len(),
    decreases ms.len(),
{
    if ms.len() > 0 && ms.last().message_id != Some(id) {
        lemma_index_of_id_range(ms.drop_last(), id);
    }
}

/// The parents of all messages are given by `parents`.
pub open spec fn parents_of(ms: Seq<MessageModel>, parents: Seq<Option<usize>>) -> bool {
    &&& parents.len() == ms.len()
    &&& forall|i: int|
        0 <= i < ms.len() ==> match #[trigger] parents[i] {
            Some(p) => parent_index(ms, i) == Some(p as int) && p < ms.len(),
            None => parent_index(ms, i) is None,
        }
}

/// For every message, the position of the message it answers.
pub fn parent_positions(messages: &Vec<EmailMessage>) -> (r: Vec<Option<usize>>)
    ensures
        parents_of(message_models(messages@), r@),
{
    let ghost ms = message_models(messages@);
    let mut r: Vec<Option<usize>> = Vec::new();
    let mut i: usize = 0;
    while i < messages.len()
        invariant
            i <= messages.len(),
            ms == message_models(messages@),
            r.len() == i,
            forall|j: int|
                0 <= j < i ==> match #[trigger] r@[j] {
                    Some(p) => parent_index(ms, j) == Some(p as int) && p < ms.len(),
                    None => parent_index(ms, j) is None,
                },
        decreases messages.len() - i,
    {
        let p = match thread_parent_id(&messages[i]) {
            Some(id) => find_message_id(messages, &id),
            None => None,
        };
        proof {
            assert(ms[i as int] == messages@[i as int]@);
            if let Some(id) = parent_id_of(ms[i as int]) {
                lemma_index_of_id_range(ms, id);
            }
        }
        r.push(p);
        i = i + 1;
    }
    r
}

pub open spec fn key_cache_view(c: Seq<Option<String>>) -> Seq<Option<Seq<char>>> {
    c.map_values(|o: Option<String>| opt_view(o))
}

/// The thread key of message `idx`: the key of the message it answers when
/// that message is present, otherwise its fallback key.
fn resolve_thread_key(
    idx: usize,
    messages: &Vec<EmailMessage>,
    parents: &Vec<Option<usize>>,
    cache: &mut Vec<Option<String>>,
    visiting: &mut Vec<bool>,
) -> (r: String)
    requires
        idx < messages.len(),
        parents_of(message_models(messages@), parents@),
        old(cache).len() == messages.len(),
        old(visiting).len() == messages.len(),
    ensures
        (r@, key_cache_view(final(cache)@)) == key_walk(
            message_models(messages@),
            idx as int,
            key_cache_view(old(cache)@),
            old(visiting)@,
        ),
        final(visiting)@ == old(visiting)@,
        final(cache).len() == messages.len(),
    decreases unvisited(old(visiting)@),
{
    let ghost ms = message_models(messages@);
    let ghost c0 = key_cache_view(cache@);
    let ghost v0 = visiting@;
    assert(ms[idx as int] == messages@[idx as int]@);
    match &cache[idx] {
        Some(key) => {
            assert(c0[idx as int] == opt_view(cache@[idx as int]));
            return key.clone();
        },
        None => {},
    }
    assert(c0[idx as int] is None);
    if visiting[idx] {
        return fallback_thread_key(&messages[idx]);
    }
    visiting.set(idx, true);
    proof {
        lemma_unvisited_mark(v0, idx as int);
    }
    let msg = &messages[idx];
    let key = if is_blank(msg.normalized_subject.as_str()) {
        match parents[idx] {
            Some(p) => resolve_thread_key(p, messages, parents, cache, visiting),
            None => fallback_thread_key(msg),
        }
    } else {
        match parents[idx] {
            Some(p) => resolve_thread_key(p, messages, parents, cache, visiting),
            None => msg.normalized_subject.clone(),
        }
    };
    let ghost c1 = key_cache_view(cache@);
    visiting.set(idx, false);
    assert(visiting@ =~= v0);
    cache.set(idx, Some(key.clone()));
    assert(key_cache_view(cache@) =~= c1.update(idx as int, Some(key@)));
    key
}

pub open spec fn depth_cache_view(c: Seq<Option<usize>>) -> Seq<Option<nat>> {
    c.map_values(
        |o: Option<usize>|
            match o {
                Some(d) => Some(d as nat),
                None => None,
            },
    )
}

/// Number of resolved entries of a cache.
pub open spec fn resolved_count<T>(c: Seq<Option<T>>) -> nat
    decreases c.len(),
{
    if c.len() == 0 {
        0
    } else {
        resolved_count(c.drop_last()) + if c.last() is Some {
            1nat
        } else {
            0nat
        }
    }
}

pub proof fn lemma_resolved_count_bound<T>(c: Seq<Option<T>>, i: int)
    requires
        0 <= i < c.len(),
        c[i] is None,
    ensures
        resolved_count(c) < c.len(),
    decreases c.len(),
{
    if i < c.len() - 1 {
        lemma_resolved_count_bound(c.drop_last(), i);
    } else {
        lemma_resolved_count_le(c.drop_last());
    }
}

pub proof fn lemma_resolved_count_le<T>(c: Seq<Option<T>>)
    ensures
        resolved_count(c) <= c.len(),
    decreases c.len(),
{
    if c.len() > 0 {
        lemma_resolved_count_le(c.drop_last());
    }
}

pub proof fn lemma_resolved_count_set<T>(c: Seq<Option<T>>, i: int, x: T)
    requires
        0 <= i < c.len(),
        c[i] is None,
    ensures
        resolved_count(c.update(i, Some(x))) == resolved_count(c) + 1,
    decreases c.len(),
{
    let u = c.update(i, Some(x));
    if i == c.len() - 1 {
        assert(u.drop_last() =~= c.drop_last());
    } else {
        assert(u.drop_last() =~= c.drop_last().update(i, Some(x)));
        lemma_resolved_count_set(c.drop_last(), i, x);
    }
}

/// Every resolved depth is at most the number of resolved entries.
pub open spec fn depths_bounded(c: Seq<Option<nat>>) -> bool {
    forall|j: int| 0 <= j < c.len() && (#[trigger] c[j]) is Some ==> c[j]->0 <= resolved_count(c)
}

/// The reply depth of message `idx`.
fn resolve_reply_depth(
    idx: usize,
    messages: &Vec<EmailMessage>,
    parents: &Vec<Option<usize>>,
    cache: &mut Vec<Option<usize>>,
    visiting: &mut Vec<bool>,
) -> (r: usize)
    requires
        idx < messages.len(),
        parents_of(message_models(messages@), parents@),
        old(cache).len() == messages.len(),
        old(visiting).len() == messages.len(),
        depths_bounded(depth_cache_view(old(cache)@)),
    ensures
        (r as nat, depth_cache_view(final(cache)@)) == depth_walk(
            message_models(messages@),
            idx as int,
            depth_cache_view(old(cache)@),
            old(visiting)@,
        ),
        final(visiting)@ == old(visiting)@,
        final(cache).len() == messages.len(),
        depths_bounded(depth_cache_view(final(cache)@)),
        r <= resolved_count(depth_cache_view(final(cache)@)),
        resolved_count(depth_cache_view(old(cache)@)) <= resolved_count(
            depth_cache_view(final(cache)@),
        ),
        forall|j: int|
            0 <= j < messages.len() && old(visiting)@[j] ==> #[trigger] final(cache)@[j] == old(
                cache,
            )@[j],
    decreases unvisited(old(visiting)@),
{
    let ghost ms = message_models(messages@);
    let ghost c0 = depth_cache_view(cache@);
    let ghost v0 = visiting@;
    match cache[idx] {
        Some(d) => {
            assert(c0[idx as int] == Some(d as nat));
            return d;
        },
        None => {},
    }
    assert(c0[idx as int] is None);
    if visiting[idx] {
        return 0;
    }
    visiting.set(idx, true);
    proof {
        lemma_unvisited_mark(v0, idx as int);
    }
    let depth = match parents[idx] {
        Some(p) => {
            let d = resolve_reply_depth(p, messages, parents, cache, visiting);
            proof {
                let c1 = depth_cache_view(cache@);
                assert(cache@[idx as int] == old(cache)@[idx as int]);
                assert(c1[idx as int] is None);
                lemma_resolved_count_bound(c1, idx as int);
            }
            d + 1
        },
        None => 0,
    };
    let ghost c1 = depth_cache_view(cache@);
    let ghost cc = cache@;
    assert(c1[idx as int] is None) by {
        assert(cc[idx as int] == old(cache)@[idx as int]);
    }
    visiting.set(idx, false);
    assert(visiting@ =~= v0);
    cache.set(idx, Some(depth));
    proof {
        assert(depth_cache_view(cache@) =~= c1.update(idx as int, Some(depth as nat)));
        lemma_resolved_count_set(c1, idx as int, depth as nat);
        let c2 = depth_cache_view(cache@);
        assert forall|j: int| 0 <= j < c2.len() && (#[trigger] c2[j]) is Some implies c2[j]->0
            <= resolved_count(c2) by {
            if j != idx {
                assert(c2[j] == c1[j]);
            }
        }
        assert forall|j: int| 0 <= j < messages.len() && old(visiting)@[j] implies #[trigger] cache@[j]
            == old(cache)@[j] by {
            if j != idx {
                assert(cache@[j] == cc[j]);
            }
        }
    }
    depth
}

} // verus!

verus! {

/// The keys of `keys` without repetitions, in order of first appearance.
pub open spec fn distinct_keys(keys: Seq<Seq<char>>) -> Seq<Seq<char>>
    decreases keys.len(),
{
    if keys.len() == 0 {
        Seq::empty()
    } else {
        let d = distinct_keys(keys.drop_last());
        if d.contains(keys.last()) {
            d
        } else {
            d.push(keys.last())
        }
    }
}

/// The positions holding `key`, in increasing order.
pub open spec fn members_of(keys: Seq<Seq<char>>, key: Seq<char>) -> Seq<int>
    decreases keys.len(),
{
    if keys.len() == 0 {
        Seq::empty()
    } else {
        let m = members_of(keys.drop_last(), key);
        if keys.last() == key {
            m.push(keys.len() - 1)
        } else {
            m
        }
    }
}

/// A message model with its reply depth set.
pub open spec fn with_depth(m: MessageModel, d: nat) -> MessageModel {
    MessageModel { reply_depth: d, ..m }
}

/// The title of the conversation of `key`: that of its first message, its
/// reply and forward prefixes removed.
pub open spec fn group_display(ms: Seq<MessageModel>, keys: Seq<Seq<char>>, key: Seq<char>) -> Seq<
    char,
> {
    title_of(ms[members_of(keys, key)[0]].subject)
}

/// `out` holds the messages at positions `mem`, stably sorted by date through
/// `ord`, each with its reply depth.
pub open spec fn messages_in_date_order(
    ms: Seq<MessageModel>,
    depths: Seq<nat>,
    mem: Seq<int>,
    ord: Seq<usize>,
    out: Seq<MessageModel>,
) -> bool {
    &&& stably_sorted(
        mem.len(),
        |a: int, b: int| ms[mem[a]].date.key_lt(ms[mem[b]].date),
        ord,
    )
    &&& out.len() == mem.len()
    &&& forall|j: int|
        0 <= j < mem.len() ==> #[trigger] out[j] == with_depth(
            ms[mem[ord[j] as int]],
            depths[mem[ord[j] as int]],
        )
}

/// `th` is the conversation of `key`.
pub open spec fn thread_built(
    ms: Seq<MessageModel>,
    keys: Seq<Seq<char>>,
    depths: Seq<nat>,
    key: Seq<char>,
    th: ThreadModel,
) -> bool {
    let mem = members_of(keys, key);
    &&& mem.len() > 0
    &&& th.normalized_subject == key
    &&& th.display_subject == group_display(ms, keys, key)
    &&& exists|ord: Seq<usize>| #[trigger]
        messages_in_date_order(ms, depths, mem, ord, th.messages)
}

/// `out` holds the conversations of `groups`, stably sorted by shown subject
/// through `ord`.
pub open spec fn threads_in_display_order(
    ms: Seq<MessageModel>,
    keys: Seq<Seq<char>>,
    depths: Seq<nat>,
    groups: Seq<Seq<char>>,
    ord: Seq<usize>,
    out: Seq<ThreadModel>,
) -> bool {
    &&& stably_sorted(
        groups.len(),
        |a: int, b: int|
            lex_lt(group_display(ms, keys, groups[a]), group_display(ms, keys, groups[b])),
        ord,
    )
    &&& out.len() == groups.len()
    &&& forall|t: int|
        0 <= t < groups.len() ==> thread_built(ms, keys, depths, groups[ord[t] as int], #[trigger] out[t])
}

/// The conversations of a list of messages: one per thread key, in order
/// of their shown subject (conversations with equal shown subjects in order
/// of their first message), each holding its messages by date (equal dates
/// in input order) with their reply depths.
pub open spec fn grouped(ms: Seq<MessageModel>, out: Seq<ThreadModel>) -> bool {
    let keys = thread_keys(ms);
    let depths = reply_depths(ms);
    let groups = distinct_keys(keys);
    exists|ord: Seq<usize>| #[trigger]
        threads_in_display_order(ms, keys, depths, groups, ord, out)
}

pub proof fn lemma_members(keys: Seq<Seq<char>>, key: Seq<char>)
    ensures
        forall|j: int|
            0 <= j < members_of(keys, key).len() ==> 0 <= #[trigger] members_of(keys, key)[j]
                < keys.len() && keys[members_of(keys, key)[j]] == key,
        forall|j: int, k: int|
            0 <= j < k < members_of(keys, key).len() ==> members_of(keys, key)[j] < members_of(
                keys,
                key,
            )[k],
        forall|i: int| 0 <= i < keys.len() && keys[i] == key ==> members_of(keys, key).contains(i),
        distinct_keys(keys).contains(key) ==> members_of(keys, key).len() > 0,
    decreases keys.len(),
{
    if keys.len() > 0 {
        let p = keys.drop_last();
        lemma_members(p, key);
        assert forall|i: int| 0 <= i < keys.len() && keys[i] == key implies members_of(
            keys,
            key,
        ).contains(i) by {
            if i < keys.len() - 1 {
                assert(p[i] == keys[i]);
                let j = choose|j: int| 0 <= j < members_of(p, key).len() && members_of(p, key)[j] == i;
                assert(members_of(keys, key)[j] == i);
            } else {
                assert(members_of(keys, key).last() == i);
            }
        }
    }
}

/// The distinct keys are exactly the keys, each once.
pub proof fn lemma_distinct_keys(keys: Seq<Seq<char>>)
    ensures
        distinct_keys(keys).no_duplicates(),
        forall|k: Seq<char>| distinct_keys(keys).contains(k) <==> keys.contains(k),
    decreases keys.len(),
{
    if keys.len() > 0 {
        let p = keys.drop_last();
        lemma_distinct_keys(p);
        let d = distinct_keys(p);
        assert forall|k: Seq<char>| distinct_keys(keys).contains(k) <==> keys.contains(k) by {
            if keys.contains(k) {
                let i = choose|i: int| 0 <= i < keys.len() && keys[i] == k;
                if i < keys.len() - 1 {
                    assert(p[i] == k);
                    assert(p.contains(k));
                    assert(d.contains(k));
                    let j = choose|j: int| 0 <= j < d.len() && d[j] == k;
                    assert(distinct_keys(keys)[j] == k);
                } else {
                    if !d.contains(k) {
                        assert(distinct_keys(keys)[d.len() as int] == k);
                    } else {
                        let j = choose|j: int| 0 <= j < d.len() && d[j] == k;
                        assert(distinct_keys(keys)[j] == k);
                    }
                }
            }
            if distinct_keys(keys).contains(k) {
                let j = choose|j: int| 0 <= j < distinct_keys(keys).len() && distinct_keys(keys)[j] == k;
                if j < d.len() {
                    assert(d[j] == k);
                    assert(d.contains(k));
                    assert(p.contains(k));
                    let i = choose|i: int| 0 <= i < p.len() && p[i] == k;
                    assert(keys[i] == k);
                } else {
                    assert(keys[keys.len() - 1] == k);
                }
            }
        }
    }
}

} // verus!

verus! {

/// A vector of `n` copies of `x`.
fn filled<T: Copy>(n: usize, x: T) -> (r: Vec<T>)
    ensures
        r@ == Seq::new(n as nat, |j: int| x),
{
    let mut r: Vec<T> = Vec::new();
    while r.len() < n
        invariant
            r.len() <= n,
            r@ == Seq::new(r.len() as nat, |j: int| x),
        decreases n - r.len(),
    {
        r.push(x);
        assert(r@ =~= Seq::new(r.len() as nat, |j: int| x));
    }
    r
}

/// The thread key and reply depth of every message, resolved in order.
fn resolve_all(messages: &Vec<EmailMessage>) -> (r: (Vec<String>, Vec<usize>))
    ensures
        views(r.0@) == thread_keys(message_models(messages@)),
        nat_view(r.1@) == reply_depths(message_models(messages@)),
{
    let ghost ms = message_models(messages@);
    let n = messages.len();
    let parents = parent_positions(messages);
    let mut key_cache: Vec<Option<String>> = Vec::new();
    let mut depth_cache: Vec<Option<usize>> = Vec::new();
    while key_cache.len() < n
        invariant
            key_cache.len() <= n,
            key_cache.len() == depth_cache.len(),
            forall|j: int| 0 <= j < key_cache.len() ==> (#[trigger] key_cache@[j]) is None,
            forall|j: int| 0 <= j < depth_cache.len() ==> (#[trigger] depth_cache@[j]) is None,
        decreases n - key_cache.len(),
    {
        key_cache.push(None);
        depth_cache.push(None);
    }
    let mut visiting = filled(n, false);
    let mut keys: Vec<String> = Vec::new();
    let mut depths: Vec<usize> = Vec::new();
    proof {
        assert(key_cache_view(key_cache@) =~= Seq::new(ms.len(), |j: int| None));
        assert(depth_cache_view(depth_cache@) =~= Seq::new(ms.len(), |j: int| None));
        assert(resolved_count(depth_cache_view(depth_cache@)) == 0) by {
            lemma_resolved_none(ms.len());
        }
    }
    let mut idx: usize = 0;
    while idx < n
        invariant
            idx <= n == messages.len(),
            ms == message_models(messages@),
            parents_of(ms, parents@),
            key_cache.len() == n,
            depth_cache.len() == n,
            visiting@ == Seq::new(n as nat, |j: int| false),
            depths_bounded(depth_cache_view(depth_cache@)),
            views(keys@) + keys_from(ms, idx as int, key_cache_view(key_cache@)) == thread_keys(
                ms,
            ),
            nat_view(depths@) + depths_from(
                ms,
                idx as int,
                depth_cache_view(depth_cache@),
            ) == reply_depths(ms),
        decreases n - idx,
    {
        let ghost kc = key_cache_view(key_cache@);
        let ghost dc = depth_cache_view(depth_cache@);
        let k = resolve_thread_key(idx, messages, &parents, &mut key_cache, &mut visiting);
        let d = resolve_reply_depth(idx, messages, &parents, &mut depth_cache, &mut visiting);
        proof {
            assert(keys_from(ms, idx as int, kc) == seq![k@] + keys_from(
                ms,
                idx + 1,
                key_cache_view(key_cache@),
            ));
            assert(depths_from(ms, idx as int, dc) == seq![d as nat] + depths_from(
                ms,
                idx + 1,
                depth_cache_view(depth_cache@),
            ));
        }
        let ghost kv = views(keys@);
        let ghost dv = nat_view(depths@);
        keys.push(k);
        depths.push(d);
        proof {
            assert(views(keys@) =~= kv.push(k@));
            assert(nat_view(depths@) =~= dv.push(d as nat));
            assert(kv.push(k@) + keys_from(ms, idx + 1, key_cache_view(key_cache@)) =~= kv + (
            seq![k@] + keys_from(ms, idx + 1, key_cache_view(key_cache@))));
            assert(dv.push(d as nat) + depths_from(ms, idx + 1, depth_cache_view(depth_cache@))
                =~= dv + (seq![d as nat] + depths_from(
                ms,
                idx + 1,
                depth_cache_view(depth_cache@),
            )));
        }
        idx = idx + 1;
    }
    proof {
        assert(keys_from(ms, n as int, key_cache_view(key_cache@)) =~= Seq::<Seq<char>>::empty());
        assert(depths_from(ms, n as int, depth_cache_view(depth_cache@)) =~= Seq::<nat>::empty());
        assert(views(keys@) + Seq::<Seq<char>>::empty() =~= views(keys@));
        assert(nat_view(depths@) + Seq::<nat>::empty() =~= depths@.map_values(
            |d: usize| d as nat,
        ));
    }
    (keys, depths)
}

pub proof fn lemma_resolved_none(n: nat)
    ensures
        resolved_count(Seq::<Option<nat>>::new(n, |j: int| None)) == 0,
    decreases n,
{
    if n > 0 {
        assert(Seq::<Option<nat>>::new(n, |j: int| None).drop_last() =~= Seq::<Option<nat>>::new(
            (n - 1) as nat,
            |j: int| None,
        ));
        lemma_resolved_none((n - 1) as nat);
    }
}

} // verus!

verus! {

/// Positions as integers.
pub open spec fn int_view(v: Seq<usize>) -> Seq<int> {
    v.map_values(|p: usize| p as int)
}

/// Depths as natural numbers.
pub open spec fn nat_view(v: Seq<usize>) -> Seq<nat> {
    v.map_values(|d: usize| d as nat)
}

/// The keys without repetitions, in order of first appearance.
fn distinct_key_list(keys: &Vec<String>) -> (r: Vec<String>)
    ensures
        views(r@) == distinct_keys(views(keys@)),
{
    let mut r: Vec<String> = Vec::new();
    let mut i: usize = 0;
    while i < keys.len()
        invariant
            i <= keys.len(),
            views(r@) == distinct_keys(views(keys@).take(i as int)),
        decreases keys.len() - i,
    {
        let ghost kv = views(keys@);
        assert(kv.take(i + 1).drop_last() =~= kv.take(i as int));
        assert(kv.take(i + 1).last() == keys@[i as int]@);
        if !contains_string(&r, &keys[i]) {
            let ghost before = views(r@);
            r.push(keys[i].clone());
            assert(views(r@) =~= before.push(keys@[i as int]@));
        }
        i = i + 1;
    }
    assert(views(keys@).take(keys.len() as int) =~= views(keys@));
    r
}

/// The positions of `keys` that hold `key`, in increasing order.
fn positions_of(keys: &Vec<String>, key: &String) -> (r: Vec<usize>)
    ensures
        int_view(r@) == members_of(views(keys@), key@),
{
    let mut r: Vec<usize> = Vec::new();
    let mut i: usize = 0;
    while i < keys.len()
        invariant
            i <= keys.len(),
            int_view(r@) == members_of(views(keys@).take(i as int), key@),
        decreases keys.len() - i,
    {
        let ghost kv = views(keys@);
        assert(kv.take(i + 1).drop_last() =~= kv.take(i as int));
        assert(kv.take(i + 1).last() == keys@[i as int]@);
        let ghost before = int_view(r@);
        if keys[i] == *key {
            r.push(i);
            assert(int_view(r@) =~= before.push(i as int));
        }
        i = i + 1;
    }
    assert(views(keys@).take(keys.len() as int) =~= views(keys@));
    r
}

/// The conversation made of the messages at positions `mem`.
fn build_thread(
    messages: &Vec<EmailMessage>,
    depths: &Vec<usize>,
    key: &String,
    mem: &Vec<usize>,
) -> (r: ConversationThread)
    requires
        mem.len() > 0,
        depths.len() == messages.len(),
        forall|j: int| 0 <= j < mem.len() ==> #[trigger] mem@[j] < messages.len(),
    ensures
        r@.normalized_subject == key@,
        r@.display_subject == title_of(messages@[mem@[0] as int].subject@),
        exists|ord: Seq<usize>| #[trigger]
            messages_in_date_order(
                message_models(messages@),
                nat_view(depths@),
                int_view(mem@),
                ord,
                r@.messages,
            ),
{
    let ghost ms = message_models(messages@);
    let ghost dv = nat_view(depths@);
    let ghost mi = int_view(mem@);
    let mut dates: Vec<Option<i64>> = Vec::new();
    let mut i: usize = 0;
    while i < mem.len()
        invariant
            i <= mem.len(),
            dates.len() == i,
            forall|j: int| 0 <= j < mem.len() ==> #[trigger] mem@[j] < messages.len(),
            forall|j: int| 0 <= j < i ==> #[trigger] dates@[j] == messages@[mem@[j] as int].date,
        decreases mem.len() - i,
    {
        dates.push(messages[mem[i]].date);
        i = i + 1;
    }
    let ord = stable_order(&dates);
    proof {
        lemma_stably_sorted_ext(
            dates.len() as nat,
            |a: int, b: int| dates@[a].key_lt(dates@[b]),
            |a: int, b: int| ms[mi[a]].date.key_lt(ms[mi[b]].date),
            ord@,
        );
    }
    let mut out: Vec<EmailMessage> = Vec::new();
    let mut j: usize = 0;
    while j < ord.len()
        invariant
            j <= ord.len() == mem.len(),
            depths.len() == messages.len(),
            ms == message_models(messages@),
            mi == int_view(mem@),
            dv == nat_view(depths@),
            forall|t: int| 0 <= t < mem.len() ==> #[trigger] mem@[t] < messages.len(),
            forall|t: int| 0 <= t < ord.len() ==> #[trigger] ord@[t] < mem.len(),
            out.len() == j,
            forall|t: int|
                0 <= t < j ==> #[trigger] message_models(out@)[t] == with_depth(
                    ms[mi[ord@[t] as int]],
                    dv[mi[ord@[t] as int]],
                ),
        decreases ord.len() - j,
    {
        let p = mem[ord[j]];
        let m = messages[p].with_reply_depth(depths[p]);
        let ghost before = out@;
        out.push(m);
        proof {
            assert forall|t: int| 0 <= t < j + 1 implies #[trigger] message_models(out@)[t]
                == with_depth(ms[mi[ord@[t] as int]], dv[mi[ord@[t] as int]]) by {
                assert(message_models(out@)[t] == out@[t]@);
                if t < j {
                    assert(out@[t] == before[t]);
                    assert(message_models(before)[t] == before[t]@);
                } else {
                    assert(mi[ord@[j as int] as int] == p as int);
                    assert(ms[p as int] == messages@[p as int]@);
                    assert(dv[p as int] == depths@[p as int] as nat);
                    assert(out@[t] == m);
                }
            }
        }
        j = j + 1;
    }
    let r = ConversationThread {
        normalized_subject: key.clone(),
        display_subject: conversation_title(messages[mem[0]].subject.as_str()),
        messages: out,
    };
    assert(messages_in_date_order(ms, dv, mi, ord@, r@.messages));
    r
}

} // verus!

verus! {

/// Groups messages into conversations.
///
/// A message that answers another present message (by In-Reply-To, else the
/// last References entry, matched against Message-IDs) joins that message's
/// conversation and gets its reply depth plus one; any other message forms
/// or joins the conversation of its normalised subject, and a message whose
/// normalised subject is blank forms its own. Conversations are ordered by
/// shown subject, their messages by date.
pub fn group_by_thread(messages: Vec<EmailMessage>) -> (r: Vec<ConversationThread>)
    ensures
        grouped(message_models(messages@), thread_models(r@)),
{
    let ghost ms = message_models(messages@);
    let (keys, depths) = resolve_all(&messages);
    let ghost kv = views(keys@);
    let ghost dv = nat_view(depths@);
    proof {
        assert(kv.len() == ms.len()) by {
            lemma_keys_len(ms, 0, Seq::new(ms.len(), |j: int| None));
        }
        assert(dv.len() == ms.len()) by {
            lemma_depths_len(ms, 0, Seq::new(ms.len(), |j: int| None));
        }
        lemma_distinct_keys(kv);
    }
    let groups = distinct_key_list(&keys);
    let ghost gv = views(groups@);
    let mut mems: Vec<Vec<usize>> = Vec::new();
    let mut displays: Vec<Vec<char>> = Vec::new();
    let mut t: usize = 0;
    while t < groups.len()
        invariant
            t <= groups.len(),
            gv == views(groups@),
            gv == distinct_keys(kv),
            kv == views(keys@),
            kv.len() == ms.len() == messages.len(),
            ms == message_models(messages@),
            forall|k: Seq<char>| distinct_keys(kv).contains(k) <==> kv.contains(k),
            mems.len() == t,
            displays.len() == t,
            forall|u: int|
                0 <= u < t ==> int_view(#[trigger] mems@[u]@) == members_of(kv, gv[u]) && mems@[u].len()
                    > 0,
            forall|u: int| 0 <= u < t ==> (#[trigger] displays@[u])@ == group_display(ms, kv, gv[u]),
        decreases groups.len() - t,
    {
        let mem = positions_of(&keys, &groups[t]);
        proof {
            assert(gv.contains(gv[t as int]));
            lemma_members(kv, gv[t as int]);
            assert(mem@.len() == members_of(kv, gv[t as int]).len());
            assert(int_view(mem@)[0] == mem@[0] as int);
            assert(ms[mem@[0] as int] == messages@[mem@[0] as int]@);
        }
        let shown = conversation_title(messages[mem[0]].subject.as_str());
        displays.push(chars_of(shown.as_str()));
        mems.push(mem);
        t = t + 1;
    }
    let tord = stable_order(&displays);
    proof {
        lemma_stably_sorted_ext(
            displays.len() as nat,
            |a: int, b: int| displays@[a].key_lt(displays@[b]),
            |a: int, b: int| lex_lt(group_display(ms, kv, gv[a]), group_display(ms, kv, gv[b])),
            tord@,
        );
    }
    let mut out: Vec<ConversationThread> = Vec::new();
    let mut s: usize = 0;
    while s < tord.len()
        invariant
            s <= tord.len() == groups.len() == mems.len(),
            gv == views(groups@),
            kv.len() == ms.len() == messages.len(),
            ms == message_models(messages@),
            dv == nat_view(depths@),
            dv.len() == ms.len(),
            depths.len() == messages.len(),
            forall|u: int| 0 <= u < tord.len() ==> #[trigger] tord@[u] < groups.len(),
            forall|u: int|
                0 <= u < groups.len() ==> int_view(#[trigger] mems@[u]@) == members_of(kv, gv[u]) && mems@[u].len()
                    > 0,
            out.len() == s,
            forall|u: int|
                0 <= u < s ==> thread_built(ms, kv, dv, gv[tord@[u] as int], #[trigger] thread_models(out@)[u]),
        decreases tord.len() - s,
    {
        let g = tord[s];
        proof {
            lemma_members(kv, gv[g as int]);
            assert forall|j: int| 0 <= j < mems@[g as int].len() implies #[trigger] mems@[g as int]@[j] < messages.len() by {
                assert(int_view(mems@[g as int]@)[j] == mems@[g as int]@[j] as int);
            }
        }
        let th = build_thread(&messages, &depths, &groups[g], &mems[g]);
        proof {
            let mem = members_of(kv, gv[g as int]);
            assert(int_view(mems@[g as int]@)[0] == mem[0]);
            assert(ms[mem[0]] == messages@[mem[0]]@);
        }
        let ghost before = out@;
        out.push(th);
        proof {
            assert forall|u: int| 0 <= u < s + 1 implies thread_built(ms, kv, dv, gv[tord@[u] as int], #[trigger] thread_models(out@)[u]) by {
                assert(thread_models(out@)[u] == out@[u]@);
                if u < s {
                    assert(out@[u] == before[u]);
                    assert(thread_models(before)[u] == before[u]@);
                }
            }
        }
        s = s + 1;
    }
    assert(threads_in_display_order(ms, kv, dv, gv, tord@, thread_models(out@)));
    out
}

pub proof fn lemma_keys_len(ms: Seq<MessageModel>, i: int, cache: Seq<Option<Seq<char>>>)
    requires
        0 <= i <= ms.len(),
    ensures
        keys_from(ms, i, cache).len() == ms.len() - i,
    decreases ms.len() - i,
{
    if i < ms.len() {
        let r = key_walk(ms, i, cache, Seq::new(ms.len(), |j: int| false));
        lemma_keys_len(ms, i + 1, r.1);
    }
}

pub proof fn lemma_depths_len(ms: Seq<MessageModel>, i: int, cache: Seq<Option<nat>>)
    requires
        0 <= i <= ms.len(),
    ensures
        depths_from(ms, i, cache).len() == ms.len() - i,
    decreases ms.len() - i,
{
    if i < ms.len() {
        let r = depth_walk(ms, i, cache, Seq::new(ms.len(), |j: int| false));
        lemma_depths_len(ms, i + 1, r.1);
    }
}

} // verus!

verus! {

/// `rank` strictly decreases from every message to the message it answers:
/// the archive has no reply cycles.
pub open spec fn ranked(ms: Seq<MessageModel>, rank: Seq<nat>) -> bool {
    &&& rank.len() == ms.len()
    &&& forall|i: int|
        0 <= i < ms.len() ==> match #[trigger] parent_index(ms, i) {
            Some(p) => 0 <= p < ms.len() && rank[p] < rank[i],
            None => true,
        }
}

/// The first message of the reply chain that message `i` belongs to.
pub open spec fn root_of(ms: Seq<MessageModel>, rank: Seq<nat>, i: int) -> int
    decreases rank[i],
{
    if 0 <= i < ms.len() && rank.len() == ms.len() {
        match parent_index(ms, i) {
            Some(p) => if 0 <= p < ms.len() && rank[p] < rank[i] {
                root_of(ms, rank, p)
            } else {
                i
            },
            None => i,
        }
    } else {
        i
    }
}

/// The number of ancestors of message `i` on its reply chain.
pub open spec fn chain_depth(ms: Seq<MessageModel>, rank: Seq<nat>, i: int) -> nat
    decreases rank[i],
{
    if 0 <= i < ms.len() && rank.len() == ms.len() {
        match parent_index(ms, i) {
            Some(p) => if 0 <= p < ms.len() && rank[p] < rank[i] {
                chain_depth(ms, rank, p) + 1
            } else {
                0
            },
            None => 0,
        }
    } else {
        0
    }
}

pub open spec fn keys_cache_ok(ms: Seq<MessageModel>, rank: Seq<nat>, c: Seq<Option<Seq<char>>>) -> bool {
    &&& c.len() == ms.len()
    &&& forall|j: int| 0 <= j < c.len() && (#[trigger] c[j]) is Some ==> c[j]->0 == fallback_key(
        ms[root_of(ms, rank, j)],
    )
}

pub open spec fn depths_cache_ok(ms: Seq<MessageModel>, rank: Seq<nat>, c: Seq<Option<nat>>) -> bool {
    &&& c.len() == ms.len()
    &&& forall|j: int| 0 <= j < c.len() && (#[trigger] c[j]) is Some ==> c[j]->0 == chain_depth(
        ms,
        rank,
        j,
    )
}

proof fn lemma_key_walk_ranked(
    ms: Seq<MessageModel>,
    rank: Seq<nat>,
    i: int,
    cache: Seq<Option<Seq<char>>>,
    visiting: Seq<bool>,
)
    requires
        ranked(ms, rank),
        0 <= i < ms.len(),
        visiting.len() == ms.len(),
        keys_cache_ok(ms, rank, cache),
        forall|j: int| 0 <= j < ms.len() && #[trigger] visiting[j] ==> rank[j] > rank[i],
    ensures
        key_walk(ms, i, cache, visiting).0 == fallback_key(ms[root_of(ms, rank, i)]),
        keys_cache_ok(ms, rank, key_walk(ms, i, cache, visiting).1),
    decreases rank[i],
{
    if cache[i] is Some {
    } else if visiting[i] {
    } else {
        match parent_index(ms, i) {
            Some(p) => {
                let v2 = visiting.update(i, true);
                assert forall|j: int| 0 <= j < ms.len() && #[trigger] v2[j] implies rank[j]
                    > rank[p] by {
                    if j != i {
                        assert(visiting[j]);
                    }
                }
                lemma_key_walk_ranked(ms, rank, p, cache, v2);
                let r = key_walk(ms, p, cache, v2);
                let c2 = r.1.update(i, Some(r.0));
                assert forall|j: int| 0 <= j < c2.len() && (#[trigger] c2[j]) is Some implies c2[j]->0
                    == fallback_key(ms[root_of(ms, rank, j)]) by {
                    if j != i {
                        assert(c2[j] == r.1[j]);
                    }
                }
            },
            None => {
                let c2 = cache.update(i, Some(fallback_key(ms[i])));
                assert forall|j: int| 0 <= j < c2.len() && (#[trigger] c2[j]) is Some implies c2[j]->0
                    == fallback_key(ms[root_of(ms, rank, j)]) by {
                    if j != i {
                        assert(c2[j] == cache[j]);
                    }
                }
            },
        }
    }
}

proof fn lemma_depth_walk_ranked(
    ms: Seq<MessageModel>,
    rank: Seq<nat>,
    i: int,
    cache: Seq<Option<nat>>,
    visiting: Seq<bool>,
)
    requires
        ranked(ms, rank),
        0 <= i < ms.len(),
        visiting.len() == ms.len(),
        depths_cache_ok(ms, rank, cache),
        forall|j: int| 0 <= j < ms.len() && #[trigger] visiting[j] ==> rank[j] > rank[i],
    ensures
        depth_walk(ms, i, cache, visiting).0 == chain_depth(ms, rank, i),
        depths_cache_ok(ms, rank, depth_walk(ms, i, cache, visiting).1),
    decreases rank[i],
{
    if cache[i] is Some {
    } else if visiting[i] {
    } else {
        match parent_index(ms, i) {
            Some(p) => {
                let v2 = visiting.update(i, true);
                assert forall|j: int| 0 <= j < ms.len() && #[trigger] v2[j] implies rank[j]
                    > rank[p] by {
                    if j != i {
                        assert(visiting[j]);
                    }
                }
                lemma_depth_walk_ranked(ms, rank, p, cache, v2);
                let r = depth_walk(ms, p, cache, v2);
                let c2 = r.1.update(i, Some(r.0 + 1));
                assert forall|j: int| 0 <= j < c2.len() && (#[trigger] c2[j]) is Some implies c2[j]->0
                    == chain_depth(ms, rank, j) by {
                    if j != i {
                        assert(c2[j] == r.1[j]);
                    }
                }
            },
            None => {
                let c2 = cache.update(i, Some(0nat));
                assert forall|j: int| 0 <= j < c2.len() && (#[trigger] c2[j]) is Some implies c2[j]->0
                    == chain_depth(ms, rank, j) by {
                    if j != i {
                        assert(c2[j] == cache[j]);
                    }
                }
            },
        }
    }
}

proof fn lemma_keys_from_ranked(
    ms: Seq<MessageModel>,
    rank: Seq<nat>,
    i: int,
    cache: Seq<Option<Seq<char>>>,
)
    requires
        ranked(ms, rank),
        0 <= i <= ms.len(),
        keys_cache_ok(ms, rank, cache),
    ensures
        keys_from(ms, i, cache).len() == ms.len() - i,
        forall|j: int|
            i <= j < ms.len() ==> #[trigger] keys_from(ms, i, cache)[j - i] == fallback_key(
                ms[root_of(ms, rank, j)],
            ),
    decreases ms.len() - i,
{
    if i < ms.len() {
        let v = Seq::new(ms.len(), |j: int| false);
        lemma_key_walk_ranked(ms, rank, i, cache, v);
        let r = key_walk(ms, i, cache, v);
        lemma_keys_from_ranked(ms, rank, i + 1, r.1);
        assert forall|j: int| i <= j < ms.len() implies #[trigger] keys_from(ms, i, cache)[j - i]
            == fallback_key(ms[root_of(ms, rank, j)]) by {
            if j > i {
                assert(keys_from(ms, i, cache)[j - i] == keys_from(ms, i + 1, r.1)[j - (i + 1)]);
            }
        }
    }
}

proof fn lemma_depths_from_ranked(ms: Seq<MessageModel>, rank: Seq<nat>, i: int, cache: Seq<Option<nat>>)
    requires
        ranked(ms, rank),
        0 <= i <= ms.len(),
        depths_cache_ok(ms, rank, cache),
    ensures
        depths_from(ms, i, cache).len() == ms.len() - i,
        forall|j: int|
            i <= j < ms.len() ==> #[trigger] depths_from(ms, i, cache)[j - i] == chain_depth(
                ms,
                rank,
                j,
            ),
    decreases ms.len() - i,
{
    if i < ms.len() {
        let v = Seq::new(ms.len(), |j: int| false);
        lemma_depth_walk_ranked(ms, rank, i, cache, v);
        let r = depth_walk(ms, i, cache, v);
        lemma_depths_from_ranked(ms, rank, i + 1, r.1);
        assert forall|j: int| i <= j < ms.len() implies #[trigger] depths_from(ms, i, cache)[j - i]
            == chain_depth(ms, rank, j) by {
            if j > i {
                assert(depths_from(ms, i, cache)[j - (i)] == depths_from(ms, i + 1, r.1)[j - (i
                    + 1)]);
            }
        }
    }
}

/// The message reached from message `i` by following parents `k` times, or
/// `None` when the chain ends before that.
pub open spec fn ancestor(ms: Seq<MessageModel>, i: int, k: nat) -> Option<int>
    decreases k,
{
    if k == 0 {
        Some(i)
    } else {
        match parent_index(ms, i) {
            Some(p) => ancestor(ms, p, (k - 1) as nat),
            None => None,
        }
    }
}

/// Following parents from any message never comes back to it.
pub open spec fn no_reply_cycle(ms: Seq<MessageModel>) -> bool {
    forall|i: int, k: nat| 0 <= i < ms.len() && k >= 1 ==> #[trigger] ancestor(ms, i, k) != Some(i)
}

/// The number of parents followed from message `i`, following at most `fuel`.
pub open spec fn chain_steps(ms: Seq<MessageModel>, i: int, fuel: nat) -> nat
    decreases fuel,
{
    if fuel == 0 {
        0
    } else {
        match parent_index(ms, i) {
            Some(p) => chain_steps(ms, p, (fuel - 1) as nat) + 1,
            None => 0,
        }
    }
}

proof fn lemma_parent_in_range(ms: Seq<MessageModel>, i: int)
    ensures
        parent_index(ms, i) matches Some(p) ==> 0 <= p < ms.len(),
{
    if let Some(id) = parent_id_of(ms[i]) {
        lemma_index_of_id_range(ms, id);
    }
}

proof fn lemma_ancestor_in_range(ms: Seq<MessageModel>, i: int, k: nat)
    requires
        0 <= i < ms.len(),
    ensures
        ancestor(ms, i, k) matches Some(a) ==> 0 <= a < ms.len(),
    decreases k,
{
    if k > 0 {
        lemma_parent_in_range(ms, i);
        if let Some(p) = parent_index(ms, i) {
            lemma_ancestor_in_range(ms, p, (k - 1) as nat);
        }
    }
}

proof fn lemma_ancestor_add(ms: Seq<MessageModel>, i: int, a: nat, d: nat)
    ensures
        ancestor(ms, i, a + d) == match ancestor(ms, i, a) {
            Some(y) => ancestor(ms, y, d),
            None => None,
        },
    decreases a,
{
    if a > 0 {
        if let Some(p) = parent_index(ms, i) {
            lemma_ancestor_add(ms, p, (a - 1) as nat, d);
            assert((a + d - 1) as nat == (a - 1) as nat + d);
        }
    }
}

proof fn lemma_ancestor_none_after(ms: Seq<MessageModel>, i: int, a: nat, b: nat)
    requires
        a <= b,
        ancestor(ms, i, a) is None,
    ensures
        ancestor(ms, i, b) is None,
{
    lemma_ancestor_add(ms, i, a, (b - a) as nat);
    assert(a + (b - a) as nat == b);
}

/// Without reply cycles every chain of parents ends within as many steps as
/// there are messages.
proof fn lemma_chains_end(ms: Seq<MessageModel>, i: int)
    requires
        no_reply_cycle(ms),
        0 <= i < ms.len(),
    ensures
        ancestor(ms, i, ms.len()) is None,
{
    let n = ms.len();
    if ancestor(ms, i, n) is Some {
        assert forall|k: nat| k <= n implies #[trigger] ancestor(ms, i, k) is Some by {
            if ancestor(ms, i, k) is None {
                lemma_ancestor_none_after(ms, i, k, n);
            }
        }
        let s = Seq::new(n + 1, |k: int| ancestor(ms, i, k as nat)->0);
        assert forall|k: int| 0 <= k < s.len() implies 0 <= #[trigger] s[k] < n by {
            assert(ancestor(ms, i, k as nat) is Some);
            lemma_ancestor_in_range(ms, i, k as nat);
        }
        if s.no_duplicates() {
            s.unique_seq_to_set();
            assert(s.to_set().subset_of(vstd::set_lib::set_int_range(0, n as int)));
            vstd::set_lib::lemma_int_range(0, n as int);
            vstd::set_lib::lemma_len_subset(s.to_set(), vstd::set_lib::set_int_range(0, n as int));
            assert(false);
        } else {
            let (a, b) = choose|a: int, b: int| 0 <= a < s.len() && 0 <= b < s.len() && a != b && s[a] == s[b];
            let (lo, hi) = if a < b { (a, b) } else { (b, a) };
            let y = s[lo];
            assert(ancestor(ms, i, lo as nat) == Some(y));
            assert(ancestor(ms, i, hi as nat) == Some(y));
            lemma_ancestor_add(ms, i, lo as nat, (hi - lo) as nat);
            assert(lo as nat + (hi - lo) as nat == hi as nat);
            assert(ancestor(ms, y, (hi - lo) as nat) == Some(y));
            assert(0 <= y < n);
            assert(false);
        }
    }
}

proof fn lemma_chain_steps_settle(ms: Seq<MessageModel>, i: int, f: nat)
    requires
        ancestor(ms, i, f) is None,
    ensures
        chain_steps(ms, i, f + 1) == chain_steps(ms, i, f),
    decreases f,
{
    if f > 0 {
        if let Some(p) = parent_index(ms, i) {
            lemma_chain_steps_settle(ms, p, (f - 1) as nat);
            assert((f + 1 - 1) as nat == (f - 1) as nat + 1);
        }
    }
}

/// Without reply cycles the number of ancestors ranks the messages.
proof fn lemma_acyclic_ranked(ms: Seq<MessageModel>)
    requires
        no_reply_cycle(ms),
    ensures
        ranked(ms, Seq::new(ms.len(), |i: int| chain_steps(ms, i, ms.len()))),
{
    let n = ms.len();
    let rank = Seq::new(n, |i: int| chain_steps(ms, i, n));
    assert forall|i: int| 0 <= i < n implies match #[trigger] parent_index(ms, i) {
        Some(p) => 0 <= p < n && rank[p] < rank[i],
        None => true,
    } by {
        lemma_parent_in_range(ms, i);
        if let Some(p) = parent_index(ms, i) {
            lemma_chains_end(ms, i);
            assert(n >= 1);
            assert(ancestor(ms, p, (n - 1) as nat) is None);
            lemma_chain_steps_settle(ms, p, (n - 1) as nat);
            assert((n - 1) as nat + 1 == n);
        }
    }
}

/// Where following parents from a message never comes back to it, a reply
/// to a present message is filed under that message's thread key, one level
/// deeper, and a message whose parent is absent keeps its own key (its
/// normalised subject, or `__no_subject__` and its node id when that is
/// blank) at depth 0.
pub proof fn law_replies_follow_their_parent_without_cycles(ms: Seq<MessageModel>)
    requires
        no_reply_cycle(ms),
    ensures
        thread_keys(ms).len() == ms.len(),
        reply_depths(ms).len() == ms.len(),
        forall|i: int|
            0 <= i < ms.len() ==> match #[trigger] parent_index(ms, i) {
                Some(p) => thread_keys(ms)[i] == thread_keys(ms)[p] && reply_depths(ms)[i]
                    == reply_depths(ms)[p] + 1,
                None => thread_keys(ms)[i] == fallback_key(ms[i]) && reply_depths(ms)[i] == 0,
            },
{
    lemma_acyclic_ranked(ms);
    law_replies_follow_their_parent(ms, Seq::new(ms.len(), |i: int| chain_steps(ms, i, ms.len())));
}

/// In an archive without reply cycles, every message lands in the thread of
/// the first message of its reply chain (keyed by that message's fallback
/// key), at a depth equal to its number of ancestors; in particular a reply
/// to a present message shares that message's thread, one level deeper.
pub proof fn law_replies_follow_their_parent(ms: Seq<MessageModel>, rank: Seq<nat>)
    requires
        ranked(ms, rank),
    ensures
        thread_keys(ms).len() == ms.len(),
        reply_depths(ms).len() == ms.len(),
        forall|i: int|
            0 <= i < ms.len() ==> #[trigger] thread_keys(ms)[i] == fallback_key(
                ms[root_of(ms, rank, i)],
            ) && reply_depths(ms)[i] == chain_depth(ms, rank, i),
        forall|i: int|
            0 <= i < ms.len() ==> match #[trigger] parent_index(ms, i) {
                Some(p) => thread_keys(ms)[i] == thread_keys(ms)[p] && reply_depths(ms)[i]
                    == reply_depths(ms)[p] + 1,
                None => thread_keys(ms)[i] == fallback_key(ms[i]) && reply_depths(ms)[i] == 0,
            },
{
    let c0 = Seq::<Option<Seq<char>>>::new(ms.len(), |j: int| None);
    let d0 = Seq::<Option<nat>>::new(ms.len(), |j: int| None);
    lemma_keys_from_ranked(ms, rank, 0, c0);
    lemma_depths_from_ranked(ms, rank, 0, d0);
    assert forall|i: int| 0 <= i < ms.len() implies #[trigger] thread_keys(ms)[i] == fallback_key(
        ms[root_of(ms, rank, i)],
    ) && reply_depths(ms)[i] == chain_depth(ms, rank, i) by {
        assert(keys_from(ms, 0, c0)[i - 0] == fallback_key(ms[root_of(ms, rank, i)]));
        assert(depths_from(ms, 0, d0)[i - 0] == chain_depth(ms, rank, i));
    }
    assert forall|i: int| 0 <= i < ms.len() implies match #[trigger] parent_index(ms, i) {
        Some(p) => thread_keys(ms)[i] == thread_keys(ms)[p] && reply_depths(ms)[i]
            == reply_depths(ms)[p] + 1,
        None => thread_keys(ms)[i] == fallback_key(ms[i]) && reply_depths(ms)[i] == 0,
    } by {
        assert(thread_keys(ms)[i] == fallback_key(ms[root_of(ms, rank, i)]));
        match parent_index(ms, i) {
            Some(p) => {
                assert(thread_keys(ms)[p] == fallback_key(ms[root_of(ms, rank, p)]));
                assert(reply_depths(ms)[p] == chain_depth(ms, rank, p));
            },
            None => {},
        }
    }
}

} // verus!

verus! {

/// Message `i`, with its reply depth, is among the messages of a
/// conversation whose key is the message's thread key.
pub open spec fn filed_in(ms: Seq<MessageModel>, out: Seq<ThreadModel>, i: int) -> bool {
    exists|t: int, j: int|
        0 <= t < out.len() && 0 <= j < out[t].messages.len() && out[t].normalized_subject
            == thread_keys(ms)[i] && #[trigger] out[t].messages[j] == with_depth(
            ms[i],
            reply_depths(ms)[i],
        )
}

/// Every message is filed in exactly one conversation, the one of its
/// thread key: the conversations have distinct keys; each message, with its
/// reply depth, is among the messages of the conversation of its key; every
/// message of a conversation is an input message of that key; and a
/// conversation holds as many messages as there are input messages with its
/// key.
pub proof fn law_each_message_in_one_conversation(ms: Seq<MessageModel>, out: Seq<ThreadModel>)
    requires
        grouped(ms, out),
    ensures
        forall|t1: int, t2: int|
            0 <= t1 < t2 < out.len() ==> out[t1].normalized_subject != out[t2].normalized_subject,
        forall|i: int| 0 <= i < ms.len() ==> #[trigger] filed_in(ms, out, i),
        forall|t: int, j: int|
            0 <= t < out.len() && 0 <= j < out[t].messages.len() ==> exists|i: int|
                0 <= i < ms.len() && thread_keys(ms)[i] == out[t].normalized_subject
                    && #[trigger] out[t].messages[j] == with_depth(ms[i], reply_depths(ms)[i]),
        forall|t: int|
            0 <= t < out.len() ==> #[trigger] out[t].messages.len() == members_of(
                thread_keys(ms),
                out[t].normalized_subject,
            ).len(),
{
    let keys = thread_keys(ms);
    let depths = reply_depths(ms);
    let groups = distinct_keys(keys);
    lemma_keys_len(ms, 0, Seq::new(ms.len(), |j: int| None));
    let gord = choose|ord: Seq<usize>| #[trigger]
        threads_in_display_order(ms, keys, depths, groups, ord, out);
    lemma_distinct_keys(keys);
    assert forall|t1: int, t2: int| 0 <= t1 < t2 < out.len() implies out[t1].normalized_subject
        != out[t2].normalized_subject by {
        assert(thread_built(ms, keys, depths, groups[gord[t1] as int], out[t1]));
        assert(thread_built(ms, keys, depths, groups[gord[t2] as int], out[t2]));
        assert(gord[t1] != gord[t2]);
    }
    assert forall|i: int| 0 <= i < ms.len() implies #[trigger] filed_in(ms, out, i) by {
        let k = keys[i];
        assert(keys.contains(k));
        assert(groups.contains(k));
        let g = choose|g: int| 0 <= g < groups.len() && groups[g] == k;
        lemma_order_covers(
            groups.len(),
            |a: int, b: int|
                lex_lt(group_display(ms, keys, groups[a]), group_display(ms, keys, groups[b])),
            gord,
            g,
        );
        let t = choose|t: int| 0 <= t < gord.len() && gord[t] == g;
        assert(thread_built(ms, keys, depths, groups[gord[t] as int], out[t]));
        let mem = members_of(keys, k);
        lemma_members(keys, k);
        assert(mem.contains(i));
        let p = choose|p: int| 0 <= p < mem.len() && mem[p] == i;
        let ord = choose|ord: Seq<usize>| #[trigger]
            messages_in_date_order(ms, depths, mem, ord, out[t].messages);
        lemma_order_covers(
            mem.len(),
            |a: int, b: int| ms[mem[a]].date.key_lt(ms[mem[b]].date),
            ord,
            p,
        );
        let j = choose|j: int| 0 <= j < ord.len() && ord[j] == p;
        assert(out[t].messages[j] == with_depth(ms[mem[ord[j] as int]], depths[mem[ord[j] as int]]));
        assert(out[t].normalized_subject == k);
    }
    assert forall|t: int, j: int| 0 <= t < out.len() && 0 <= j < out[t].messages.len() implies exists|i: int|
        0 <= i < ms.len() && thread_keys(ms)[i] == out[t].normalized_subject
            && #[trigger] out[t].messages[j] == with_depth(ms[i], reply_depths(ms)[i]) by {
        let k = groups[gord[t] as int];
        assert(thread_built(ms, keys, depths, k, out[t]));
        let mem = members_of(keys, k);
        lemma_members(keys, k);
        let ord = choose|ord: Seq<usize>| #[trigger]
            messages_in_date_order(ms, depths, mem, ord, out[t].messages);
        assert(out[t].messages[j] == with_depth(ms[mem[ord[j] as int]], depths[mem[ord[j] as int]]));
        let i = mem[ord[j] as int];
        assert(0 <= i < keys.len() && keys[i] == k);
    }
    assert forall|t: int| 0 <= t < out.len() implies #[trigger] out[t].messages.len() == members_of(
        thread_keys(ms),
        out[t].normalized_subject,
    ).len() by {
        assert(thread_built(ms, keys, depths, groups[gord[t] as int], out[t]));
    }
}

} // verus!

verus! {

/// The progress line printed for message `i` while grouping: a reply when
/// an earlier message has the same thread key, else a new message; then
/// its node id and shown subject.
pub open spec fn progress_line(ms: Seq<MessageModel>, keys: Seq<Seq<char>>, i: int) -> Seq<char> {
    (if keys.take(i).contains(keys[i]) {
        "reading reply to "@
    } else {
        "reading message "@
    }) + decimal(ms[i].node_id as nat) + ", "@ + display_of(ms[i].subject)
}

/// The progress lines of grouping `messages`, one per message in input
/// order.
pub fn grouping_log(messages: &Vec<EmailMessage>) -> (r: Vec<String>)
    ensures
        r.len() == messages.len(),
        forall|i: int|
            0 <= i < r.len() ==> #[trigger] r@[i]@ == progress_line(
                message_models(messages@),
                thread_keys(message_models(messages@)),
                i,
            ),
{
    let ghost ms = message_models(messages@);
    let (keys, _depths) = resolve_all(messages);
    let ghost kv = views(keys@);
    proof {
        lemma_keys_len(ms, 0, Seq::new(ms.len(), |j: int| None));
    }
    let mut lines: Vec<String> = Vec::new();
    let mut i: usize = 0;
    while i < messages.len()
        invariant
            i <= messages.len(),
            ms == message_models(messages@),
            kv == views(keys@),
            kv == thread_keys(ms),
            kv.len() == ms.len(),
            lines.len() == i,
            forall|j: int| 0 <= j < i ==> #[trigger] lines@[j]@ == progress_line(ms, kv, j),
        decreases messages.len() - i,
    {
        let mut seen = false;
        let mut j: usize = 0;
        while j < i
            invariant
                j <= i < messages.len(),
                kv == views(keys@),
                kv.len() == ms.len(),
                ms == message_models(messages@),
                seen == kv.take(j as int).contains(kv[i as int]),
            decreases i - j,
        {
            let ghost x = kv[i as int];
            let ghost a = kv.take(j as int);
            let ghost b = kv.take(j + 1);
            assert(b =~= a.push(kv[j as int]));
            assert(b.contains(x) == (a.contains(x) || kv[j as int] == x)) by {
                if b.contains(x) {
                    let t = choose|t: int| 0 <= t < b.len() && b[t] == x;
                    if t < j {
                        assert(a[t] == x);
                    }
                }
                if kv[j as int] == x {
                    assert(b[j as int] == x);
                }
                if a.contains(x) {
                    let t = choose|t: int| 0 <= t < a.len() && a[t] == x;
                    assert(b[t] == x);
                }
            }
            if keys[j] == keys[i] {
                seen = true;
            }
            j = j + 1;
        }
        let mut v: Vec<char> = Vec::new();
        if seen {
            append_str(&mut v, "reading reply to ");
        } else {
            append_str(&mut v, "reading message ");
        }
        append_chars(&mut v, &decimal_chars(messages[i].node_id as u64));
        append_str(&mut v, ", ");
        let d = display_subject(messages[i].subject.as_str());
        append_str(&mut v, d.as_str());
        let line = string_of(&v);
        assert(ms[i as int] == messages@[i as int]@);
        assert(line@ == progress_line(ms, kv, i as int));
        lines.push(line);
        i = i + 1;
    }
    lines
}

} // verus!

verus! {

/// Every cached key of a message that replies to no message of the
/// archive is that message's fallback key.
pub open spec fn fallbacks_cached(ms: Seq<MessageModel>, cache: Seq<Option<Seq<char>>>) -> bool {
    forall|j: int|
        0 <= j < cache.len() && parent_index(ms, j) is None && #[trigger] cache[j] is Some
            ==> cache[j]->0 == fallback_key(ms[j])
}

proof fn lemma_key_walk_fallbacks(
    ms: Seq<MessageModel>,
    i: int,
    cache: Seq<Option<Seq<char>>>,
    visiting: Seq<bool>,
)
    requires
        fallbacks_cached(ms, cache),
        cache.len() == ms.len(),
    ensures
        fallbacks_cached(ms, key_walk(ms, i, cache, visiting).1),
        key_walk(ms, i, cache, visiting).1.len() == ms.len(),
        0 <= i < ms.len() && visiting.len() == ms.len() && parent_index(ms, i) is None
            ==> key_walk(ms, i, cache, visiting).0 == fallback_key(ms[i]),
    decreases unvisited(visiting),
{
    if !(0 <= i < ms.len() && visiting.len() == ms.len()) {
    } else if i < cache.len() && cache[i] is Some {
    } else if visiting[i] {
    } else {
        match parent_index(ms, i) {
            Some(p) => {
                lemma_unvisited_mark(visiting, i);
                lemma_key_walk_fallbacks(ms, p, cache, visiting.update(i, true));
                let res = key_walk(ms, p, cache, visiting.update(i, true));
                let c2 = res.1.update(i, Some(res.0));
                assert forall|j: int|
                    0 <= j < c2.len() && parent_index(ms, j) is None && #[trigger] c2[j] is Some
                        implies c2[j]->0 == fallback_key(ms[j]) by {
                    assert(j != i);
                    assert(c2[j] == res.1[j]);
                }
            },
            None => {
                let c2 = cache.update(i, Some(fallback_key(ms[i])));
                assert forall|j: int|
                    0 <= j < c2.len() && parent_index(ms, j) is None && #[trigger] c2[j] is Some
                        implies c2[j]->0 == fallback_key(ms[j]) by {
                    if j != i {
                        assert(c2[j] == cache[j]);
                    }
                }
            },
        }
    }
}

proof fn lemma_keys_from_fallbacks(ms: Seq<MessageModel>, i: int, cache: Seq<Option<Seq<char>>>)
    requires
        0 <= i <= ms.len(),
        fallbacks_cached(ms, cache),
        cache.len() == ms.len(),
    ensures
        keys_from(ms, i, cache).len() == ms.len() - i,
        forall|k: int|
            i <= k < ms.len() && parent_index(ms, k) is None ==> #[trigger] keys_from(
                ms,
                i,
                cache,
            )[k - i] == fallback_key(ms[k]),
    decreases ms.len() - i,
{
    if i < ms.len() {
        let v = Seq::new(ms.len(), |j: int| false);
        lemma_key_walk_fallbacks(ms, i, cache, v);
        let r = key_walk(ms, i, cache, v);
        lemma_keys_from_fallbacks(ms, i + 1, r.1);
        assert forall|k: int|
            i <= k < ms.len() && parent_index(ms, k) is None implies #[trigger] keys_from(
                ms,
                i,
                cache,
            )[k - i] == fallback_key(ms[k]) by {
            if k > i {
                assert(keys_from(ms, i, cache)[k - i] == keys_from(ms, i + 1, r.1)[k - (i + 1)]);
            }
        }
    }
}

/// A message that replies to no message of the archive is threaded by its
/// fallback key, whatever reply cycles the archive holds elsewhere: two such
/// messages with the same non-blank normalised subject share a thread key,
/// and two with blank subjects and different node ids do not.
pub proof fn law_unlinked_messages_threaded_by_subject(ms: Seq<MessageModel>, i: int, j: int)
    requires
        0 <= i < ms.len(),
        0 <= j < ms.len(),
        parent_index(ms, i) is None,
        parent_index(ms, j) is None,
    ensures
        thread_keys(ms)[i] == fallback_key(ms[i]),
        thread_keys(ms)[j] == fallback_key(ms[j]),
        ms[i].normalized_subject == ms[j].normalized_subject && trim(ms[i].normalized_subject).len()
            > 0 ==> thread_keys(ms)[i] == thread_keys(ms)[j],
        trim(ms[i].normalized_subject).len() == 0 && trim(ms[j].normalized_subject).len() == 0
            && ms[i].node_id != ms[j].node_id ==> thread_keys(ms)[i] != thread_keys(ms)[j],
{
    let c0 = Seq::<Option<Seq<char>>>::new(ms.len(), |x: int| None);
    lemma_keys_from_fallbacks(ms, 0, c0);
    assert(thread_keys(ms)[i - 0] == fallback_key(ms[i]));
    assert(thread_keys(ms)[j - 0] == fallback_key(ms[j]));
    if trim(ms[i].normalized_subject).len() == 0 && trim(ms[j].normalized_subject).len() == 0
        && ms[i].node_id != ms[j].node_id {
        reveal_strlit("__no_subject__");
        let p = "__no_subject__"@;
        let a = decimal(ms[i].node_id as nat);
        let b = decimal(ms[j].node_id as nat);
        if p + a == p + b {
            assert(a =~= (p + a).skip(p.len() as int));
            assert(b =~= (p + b).skip(p.len() as int));
            crate::text::lemma_decimal_injective(ms[i].node_id as nat, ms[j].node_id as nat);
        }
    }
}

/// Two messages with the same thread key are filed in the same
/// conversation (the one whose key it is), and messages with different
/// thread keys are filed in conversations with different keys.
pub proof fn law_same_key_same_conversation(
    ms: Seq<MessageModel>,
    out: Seq<ThreadModel>,
    i: int,
    j: int,
)
    requires
        grouped(ms, out),
        0 <= i < ms.len(),
        0 <= j < ms.len(),
    ensures
        thread_keys(ms)[i] == thread_keys(ms)[j] ==> exists|t: int, a: int, b: int|
            0 <= t < out.len() && 0 <= a < out[t].messages.len() && 0 <= b < out[t].messages.len()
                && out[t].normalized_subject == thread_keys(ms)[i]
                && #[trigger] out[t].messages[a] == with_depth(ms[i], reply_depths(ms)[i])
                && #[trigger] out[t].messages[b] == with_depth(ms[j], reply_depths(ms)[j]),
        forall|t1: int, t2: int|
            0 <= t1 < out.len() && 0 <= t2 < out.len() && out[t1].normalized_subject
                == thread_keys(ms)[i] && out[t2].normalized_subject == thread_keys(ms)[j] ==> (t1
                == t2 <==> thread_keys(ms)[i] == thread_keys(ms)[j]),
{
    law_each_message_in_one_conversation(ms, out);
    assert(filed_in(ms, out, i));
    assert(filed_in(ms, out, j));
    assert forall|t1: int, t2: int|
        0 <= t1 < out.len() && 0 <= t2 < out.len() && out[t1].normalized_subject
            == thread_keys(ms)[i] && out[t2].normalized_subject == thread_keys(ms)[j] implies (t1
            == t2 <==> thread_keys(ms)[i] == thread_keys(ms)[j]) by {
        if t1 < t2 {
            assert(out[t1].normalized_subject != out[t2].normalized_subject);
        } else if t2 < t1 {
            assert(out[t2].normalized_subject != out[t1].normalized_subject);
        }
    }
    if thread_keys(ms)[i] == thread_keys(ms)[j] {
        let (t1, a) = choose|t: int, a: int|
            0 <= t < out.len() && 0 <= a < out[t].messages.len() && out[t].normalized_subject
                == thread_keys(ms)[i] && #[trigger] out[t].messages[a] == with_depth(
                ms[i],
                reply_depths(ms)[i],
            );
        let (t2, b) = choose|t: int, b: int|
            0 <= t < out.len() && 0 <= b < out[t].messages.len() && out[t].normalized_subject
                == thread_keys(ms)[j] && #[trigger] out[t].messages[b] == with_depth(
                ms[j],
                reply_depths(ms)[j],
            );
        assert(t1 == t2);
        assert(out[t1].messages[a] == with_depth(ms[i], reply_depths(ms)[i]));
        assert(out[t1].messages[b] == with_depth(ms[j], reply_depths(ms)[j]));
    }
}

/// In the conversations of an archive, two messages that reply to no
/// message of it and share a non-blank normalised subject are filed in the
/// same conversation.
pub proof fn law_same_subject_same_conversation(
    ms: Seq<MessageModel>,
    out: Seq<ThreadModel>,
    i: int,
    j: int,
)
    requires
        grouped(ms, out),
        0 <= i < ms.len(),
        0 <= j < ms.len(),
        parent_index(ms, i) is None,
        parent_index(ms, j) is None,
        ms[i].normalized_subject == ms[j].normalized_subject,
        trim(ms[i].normalized_subject).len() > 0,
    ensures
        exists|t: int, a: int, b: int|
            0 <= t < out.len() && 0 <= a < out[t].messages.len() && 0 <= b < out[t].messages.len()
                && #[trigger] out[t].messages[a] == with_depth(ms[i], reply_depths(ms)[i])
                && #[trigger] out[t].messages[b] == with_depth(ms[j], reply_depths(ms)[j]),
{
    law_unlinked_messages_threaded_by_subject(ms, i, j);
    law_same_key_same_conversation(ms, out, i, j);
}

} // verus!

verus! {

/// The number of messages of a list of conversations.
pub open spec fn total_messages(out: Seq<ThreadModel>) -> nat
    decreases out.len(),
{
    if out.len() == 0 {
        0
    } else {
        total_messages(out.drop_last()) + out.last().messages.len()
    }
}

/// The number of positions of `keys` holding one of the keys `gs`.
spec fn sum_members(gs: Seq<Seq<char>>, keys: Seq<Seq<char>>) -> nat
    decreases gs.len(),
{
    if gs.len() == 0 {
        0
    } else {
        sum_members(gs.drop_last(), keys) + members_of(keys, gs.last()).len()
    }
}

/// How often `x` occurs in `gs`.
spec fn occurrences(gs: Seq<Seq<char>>, x: Seq<char>) -> nat
    decreases gs.len(),
{
    if gs.len() == 0 {
        0
    } else {
        occurrences(gs.drop_last(), x) + if gs.last() == x {
            1nat
        } else {
            0nat
        }
    }
}

proof fn lemma_sum_members_step(gs: Seq<Seq<char>>, keys: Seq<Seq<char>>)
    requires
        keys.len() > 0,
    ensures
        sum_members(gs, keys) == sum_members(gs, keys.drop_last()) + occurrences(gs, keys.last()),
    decreases gs.len(),
{
    if gs.len() > 0 {
        lemma_sum_members_step(gs.drop_last(), keys);
    }
}

proof fn lemma_sum_members_none(gs: Seq<Seq<char>>, keys: Seq<Seq<char>>)
    requires
        keys.len() == 0,
    ensures
        sum_members(gs, keys) == 0,
    decreases gs.len(),
{
    if gs.len() > 0 {
        lemma_sum_members_none(gs.drop_last(), keys);
    }
}

proof fn lemma_occurs_once(gs: Seq<Seq<char>>, x: Seq<char>)
    requires
        gs.no_duplicates(),
        gs.contains(x),
    ensures
        occurrences(gs, x) == 1,
    decreases gs.len(),
{
    let p = gs.drop_last();
    if gs.last() == x {
        assert(!p.contains(x)) by {
            if p.contains(x) {
                let i = choose|i: int| 0 <= i < p.len() && p[i] == x;
                assert(gs[i] == gs[gs.len() - 1]);
            }
        }
        lemma_occurs_none(p, x);
    } else {
        let i = choose|i: int| 0 <= i < gs.len() && gs[i] == x;
        assert(p[i] == x);
        lemma_occurs_once(p, x);
    }
}

proof fn lemma_occurs_none(gs: Seq<Seq<char>>, x: Seq<char>)
    requires
        !gs.contains(x),
    ensures
        occurrences(gs, x) == 0,
    decreases gs.len(),
{
    if gs.len() > 0 {
        assert(gs.last() == gs[gs.len() - 1]);
        assert(!gs.drop_last().contains(x)) by {
            if gs.drop_last().contains(x) {
                let i = choose|i: int| 0 <= i < gs.drop_last().len() && gs.drop_last()[i] == x;
                assert(gs[i] == x);
            }
        }
        lemma_occurs_none(gs.drop_last(), x);
    }
}

/// Over keys without repetition that include every key of `keys`, the
/// member counts add up to the number of keys.
proof fn lemma_sum_members_all(gs: Seq<Seq<char>>, keys: Seq<Seq<char>>)
    requires
        gs.no_duplicates(),
        forall|i: int| 0 <= i < keys.len() ==> gs.contains(#[trigger] keys[i]),
    ensures
        sum_members(gs, keys) == keys.len(),
    decreases keys.len(),
{
    if keys.len() == 0 {
        lemma_sum_members_none(gs, keys);
    } else {
        let k2 = keys.drop_last();
        assert forall|i: int| 0 <= i < k2.len() implies gs.contains(#[trigger] k2[i]) by {
            assert(k2[i] == keys[i]);
        }
        lemma_sum_members_all(gs, k2);
        lemma_sum_members_step(gs, keys);
        assert(gs.contains(keys[keys.len() - 1]));
        lemma_occurs_once(gs, keys.last());
    }
}

/// Every conversation holds at least one message; within a conversation no
/// message is dated before one ahead of it (a missing date counts as the
/// earliest), and no conversation's shown subject sorts before that of one
/// ahead of it.
pub proof fn law_conversations_in_order(ms: Seq<MessageModel>, out: Seq<ThreadModel>)
    requires
        grouped(ms, out),
    ensures
        forall|t: int| 0 <= t < out.len() ==> #[trigger] out[t].messages.len() > 0,
        forall|t: int, j: int, k: int|
            0 <= t < out.len() && 0 <= j < k < out[t].messages.len() ==> !(
            #[trigger] out[t].messages[k]).date.key_lt((#[trigger] out[t].messages[j]).date),
        forall|s: int, t: int|
            0 <= s < t < out.len() ==> !lex_lt(
                (#[trigger] out[t]).display_subject,
                (#[trigger] out[s]).display_subject,
            ),
{
    let keys = thread_keys(ms);
    let depths = reply_depths(ms);
    let groups = distinct_keys(keys);
    let gord = choose|ord: Seq<usize>| #[trigger]
        threads_in_display_order(ms, keys, depths, groups, ord, out);
    assert forall|t: int| 0 <= t < out.len() implies #[trigger] out[t].messages.len() > 0 by {
        assert(thread_built(ms, keys, depths, groups[gord[t] as int], out[t]));
    }
    assert forall|t: int, j: int, k: int|
        0 <= t < out.len() && 0 <= j < k < out[t].messages.len() implies !(
        #[trigger] out[t].messages[k]).date.key_lt((#[trigger] out[t].messages[j]).date) by {
        let key = groups[gord[t] as int];
        assert(thread_built(ms, keys, depths, key, out[t]));
        let mem = members_of(keys, key);
        let ord = choose|ord: Seq<usize>| #[trigger]
            messages_in_date_order(ms, depths, mem, ord, out[t].messages);
        assert(out[t].messages[j] == with_depth(ms[mem[ord[j] as int]], depths[mem[ord[j] as int]]));
        assert(out[t].messages[k] == with_depth(ms[mem[ord[k] as int]], depths[mem[ord[k] as int]]));
        assert(!ms[mem[ord[k] as int]].date.key_lt(ms[mem[ord[j] as int]].date));
    }
    assert forall|s: int, t: int| 0 <= s < t < out.len() implies !lex_lt(
        (#[trigger] out[t]).display_subject,
        (#[trigger] out[s]).display_subject,
    ) by {
        assert(thread_built(ms, keys, depths, groups[gord[t] as int], out[t]));
        assert(thread_built(ms, keys, depths, groups[gord[s] as int], out[s]));
        assert(!lex_lt(
            group_display(ms, keys, groups[gord[t] as int]),
            group_display(ms, keys, groups[gord[s] as int]),
        ));
    }
}

/// The conversations hold as many messages as were grouped: every message
/// once.
pub proof fn law_conversations_hold_every_message(ms: Seq<MessageModel>, out: Seq<ThreadModel>)
    requires
        grouped(ms, out),
    ensures
        total_messages(out) == ms.len(),
{
    let keys = thread_keys(ms);
    let depths = reply_depths(ms);
    let groups = distinct_keys(keys);
    lemma_keys_len(ms, 0, Seq::new(ms.len(), |j: int| None));
    let gord = choose|ord: Seq<usize>| #[trigger]
        threads_in_display_order(ms, keys, depths, groups, ord, out);
    lemma_distinct_keys(keys);
    let gs = Seq::new(out.len(), |t: int| groups[gord[t] as int]);
    assert forall|p: int, q: int| 0 <= p < q < gs.len() implies gs[p] != gs[q] by {
        assert(gord[p] != gord[q]);
    }
    assert forall|i: int| 0 <= i < keys.len() implies gs.contains(#[trigger] keys[i]) by {
        assert(keys.contains(keys[i]));
        assert(groups.contains(keys[i]));
        let g = choose|g: int| 0 <= g < groups.len() && groups[g] == keys[i];
        lemma_order_covers(
            groups.len(),
            |a: int, b: int|
                lex_lt(group_display(ms, keys, groups[a]), group_display(ms, keys, groups[b])),
            gord,
            g,
        );
        let t = choose|t: int| 0 <= t < gord.len() && gord[t] == g;
        assert(gs[t] == keys[i]);
    }
    lemma_sum_members_all(gs, keys);
    lemma_total_as_members(ms, out, keys, depths, groups, gord, gs, out.len() as int);
    assert(out.take(out.len() as int) =~= out);
    assert(gs.take(out.len() as int) =~= gs);
}

proof fn lemma_total_as_members(
    ms: Seq<MessageModel>,
    out: Seq<ThreadModel>,
    keys: Seq<Seq<char>>,
    depths: Seq<nat>,
    groups: Seq<Seq<char>>,
    gord: Seq<usize>,
    gs: Seq<Seq<char>>,
    k: int,
)
    requires
        threads_in_display_order(ms, keys, depths, groups, gord, out),
        gs == Seq::new(out.len(), |t: int| groups[gord[t] as int]),
        0 <= k <= out.len(),
    ensures
        total_messages(out.take(k)) == sum_members(gs.take(k), keys),
    decreases k,
{
    if k > 0 {
        lemma_total_as_members(ms, out, keys, depths, groups, gord, gs, k - 1);
        assert(out.take(k).drop_last() =~= out.take(k - 1));
        assert(gs.take(k).drop_last() =~= gs.take(k - 1));
        assert(thread_built(ms, keys, depths, groups[gord[k - 1] as int], out[k - 1]));
    } else {
        assert(out.take(0) =~= Seq::<ThreadModel>::empty());
        assert(gs.take(0) =~= Seq::<Seq<char>>::empty());
    }
}

} // verus!
