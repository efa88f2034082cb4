//! What the PDF and text outputs show: address cleaning, character
//! sanitising, word wrapping and the text of each message and thread.

use vstd::prelude::*;
use crate::models::{ConversationThread, EmailMessage, MessageModel, ThreadModel, message_models, thread_models};
use crate::timestamps::{format_utc, utc_date_text};
use crate::text::{
    append_str, decimal, decimal_chars, push_all, push_repeated, repeat_char, append_chars, chars_of, ends_with, find_char, has_prefix, has_suffix, is_ws, join,
    lemma_join_cons, lemma_words_nonempty,
    lemma_find_char, lemma_utf8_len_add, lemma_utf8_len_bound, lines_of, slice_chars,
    split_lines, split_words, starts_with, string_of, trim, trim_chars, utf8_len, utf8_len_of,
    views, words_of,
};

verus! {

/// The character a built-in PDF font (Windows-1252) can show in place of `c`:
/// `c` itself within Latin-1 outside the C1 controls, `'?'` otherwise.
pub open spec fn sanitized_char(c: char) -> char {
    if (c as u32) > 255 || ((c as u32) > 127 && (c as u32) < 160) {
        '?'
    } else {
        c
    }
}

/// Replaces every character outside printable Latin-1 by `'?'`.
pub fn sanitize_text(s: &str) -> (r: String)
    ensures
        r@ == s@.map_values(|c: char| sanitized_char(c)),
{
    let cs = chars_of(s);
    let mut out: Vec<char> = Vec::new();
    let mut i: usize = 0;
    while i < cs.len()
        invariant
            i <= cs.len(),
            cs@ == s@,
            out@ == s@.take(i as int).map_values(|c: char| sanitized_char(c)),
        decreases cs.len() - i,
    {
        let c = cs[i];
        let u = c as u32;
        let d = if u > 255 || (u > 127 && u < 160) {
            '?'
        } else {
            c
        };
        out.push(d);
        assert(s@.take(i + 1).map_values(|c: char| sanitized_char(c)) =~= s@.take(
            i as int,
        ).map_values(|c: char| sanitized_char(c)).push(sanitized_char(c)));
        i = i + 1;
    }
    assert(s@.take(s@.len() as int) =~= s@);
    string_of(&out)
}

/// A character the built-in fonts show as itself: ASCII or printable
/// Latin-1.
pub open spec fn fits_font(c: char) -> bool {
    (c as u32) <= 127 || (160 <= (c as u32) && (c as u32) <= 255)
}

/// Text with every character the fonts cannot show replaced by `'?'`.
pub open spec fn sanitized(s: Seq<char>) -> Seq<char> {
    s.map_values(|c: char| sanitized_char(c))
}

/// Sanitised text only holds characters the built-in fonts can show; every
/// other character became `'?'`, one for one, and text that held only such
/// characters is unchanged.
pub proof fn law_sanitized_text_fits_font(s: Seq<char>)
    ensures
        sanitized(s).len() == s.len(),
        forall|i: int| 0 <= i < s.len() ==> fits_font(#[trigger] sanitized(s)[i]),
        forall|i: int| 0 <= i < s.len() && !fits_font(s[i]) ==> #[trigger] sanitized(s)[i] == '?',
        (forall|i: int| 0 <= i < s.len() ==> fits_font(#[trigger] s[i])) ==> sanitized(s) == s,
{
    if forall|i: int| 0 <= i < s.len() ==> fits_font(#[trigger] s[i]) {
        assert(sanitized(s) =~= s);
    }
}

/// An internal Exchange address (`/O=...`), after trimming.
pub open spec fn is_dn(s: Seq<char>) -> bool {
    starts_with(trim(s), seq!['/', 'O', '=']) || starts_with(trim(s), seq!['/', 'o', '='])
}

fn dn_chars(v: &Vec<char>) -> (r: bool)
    ensures
        r == is_dn(v@),
{
    let t = trim_chars(v);
    let upper = vec!['/', 'O', '='];
    let lower = vec!['/', 'o', '='];
    assert(upper@ =~= seq!['/', 'O', '=']);
    assert(lower@ =~= seq!['/', 'o', '=']);
    has_prefix(&t, &upper) || has_prefix(&t, &lower)
}

/// Whether an address is an internal Exchange distinguished name.
pub fn is_exchange_dn(s: &str) -> (r: bool)
    ensures
        r == is_dn(s@),
{
    dn_chars(&chars_of(s))
}

/// What an address shows: the address itself with `show_details`; without
/// it, nothing for a bare Exchange DN, and for `Name <DN>` only the name
/// (nothing when the name is blank).
pub open spec fn cleaned_address(raw: Seq<char>, show_details: bool) -> Option<Seq<char>> {
    if show_details {
        Some(raw)
    } else {
        let lt = find_char(raw, '<');
        if lt < raw.len() && ends_with(raw, seq!['>']) {
            let name = trim(raw.take(lt as int));
            let addr = raw.subrange(lt as int + 1, raw.len() - 1);
            if is_dn(addr) {
                if name.len() == 0 {
                    None
                } else {
                    Some(name)
                }
            } else {
                Some(raw)
            }
        } else if is_dn(raw) {
            None
        } else {
            Some(raw)
        }
    }
}

/// An address is an internal Exchange name: once trimmed it starts with
/// `/O=` or `/o=`.
pub open spec fn exchange_dn_text(a: Seq<char>) -> bool {
    starts_with(trim(a), seq!['/', 'O', '=']) || starts_with(trim(a), seq!['/', 'o', '='])
}

/// Cleaning `name <addr>` (with no `<` in `name`) hides an Exchange address:
/// without `show_details` a DN address leaves only the trimmed name, or
/// nothing when the name is blank, and any other address leaves the text
/// whole; with `show_details` the text is always shown whole.
pub proof fn law_clean_address_hides_dn(name: Seq<char>, addr: Seq<char>)
    requires
        !name.contains('<'),
    ensures
        exchange_dn_text(addr) && trim(name).len() > 0 ==> cleaned_address(
            name + seq!['<'] + addr + seq!['>'],
            false,
        ) == Some(trim(name)),
        exchange_dn_text(addr) && trim(name).len() == 0 ==> cleaned_address(
            name + seq!['<'] + addr + seq!['>'],
            false,
        ) is None,
        !exchange_dn_text(addr) ==> cleaned_address(name + seq!['<'] + addr + seq!['>'], false)
            == Some(name + seq!['<'] + addr + seq!['>']),
        cleaned_address(name + seq!['<'] + addr + seq!['>'], true) == Some(
            name + seq!['<'] + addr + seq!['>'],
        ),
{
    let raw = name + seq!['<'] + addr + seq!['>'];
    let k = name.len();
    assert(raw[k as int] == '<');
    assert forall|i: int| 0 <= i < k implies raw[i] != '<' by {
        assert(raw[i] == name[i]);
        if name[i] == '<' {
            assert(name.contains('<'));
        }
    }
    lemma_find_char(raw, '<');
    let f = find_char(raw, '<');
    if f < k {
        assert(raw[f as int] == '<');
    }
    assert(f == k);
    assert(raw.subrange(raw.len() - 1, raw.len() as int) =~= seq!['>']);
    assert(raw.take(k as int) =~= name);
    assert(raw.subrange(k as int + 1, raw.len() - 1) =~= addr);
}

/// A bare address (no `<`) is hidden when it is an Exchange DN and shown
/// whole otherwise, unless `show_details` shows it whole anyway.
pub proof fn law_clean_bare_address(raw: Seq<char>, show_details: bool)
    requires
        !raw.contains('<'),
    ensures
        !show_details && exchange_dn_text(raw) ==> cleaned_address(raw, show_details) is None,
        show_details || !exchange_dn_text(raw) ==> cleaned_address(raw, show_details) == Some(raw),
{
    lemma_find_char(raw, '<');
    if find_char(raw, '<') < raw.len() {
        assert(raw.contains('<'));
    }
}

/// The display string for an address, hiding Exchange DNs unless
/// `show_details`; `None` when nothing is worth showing.
pub fn clean_address(raw: &str, show_details: bool) -> (r: Option<String>)
    ensures
        match r {
            Some(s) => cleaned_address(raw@, show_details) == Some(s@),
            None => cleaned_address(raw@, show_details) is None,
        },
{
    let cs = chars_of(raw);
    if show_details {
        return Some(string_of(&cs));
    }
    let mut lt: usize = 0;
    assert(raw@.skip(0) =~= raw@);
    while lt < cs.len() && cs[lt] != '<'
        invariant
            lt <= cs.len(),
            cs@ == raw@,
            find_char(raw@, '<') == lt + find_char(raw@.skip(lt as int), '<'),
        decreases cs.len() - lt,
    {
        assert(raw@.skip(lt as int).drop_first() =~= raw@.skip(lt + 1));
        lt = lt + 1;
    }
    proof {
        if lt < cs.len() {
            assert(raw@.skip(lt as int)[0] == raw@[lt as int]);
        }
        assert(find_char(raw@, '<') == lt);
        lemma_find_char(raw@, '<');
    }
    let gt = vec!['>'];
    assert(gt@ =~= seq!['>']);
    if lt < cs.len() && has_suffix(&cs, &gt) {
        proof {
            assert(raw@.subrange(raw@.len() - 1, raw@.len() as int)[0] == '>');
            assert(lt + 1 <= cs.len() - 1);
        }
        let name = trim_chars(&slice_chars(&cs, 0, lt));
        let addr = slice_chars(&cs, lt + 1, cs.len() - 1);
        assert(raw@.subrange(0, lt as int) =~= raw@.take(lt as int));
        if dn_chars(&addr) {
            if name.len() == 0 {
                None
            } else {
                Some(string_of(&name))
            }
        } else {
            Some(string_of(&cs))
        }
    } else if dn_chars(&cs) {
        None
    } else {
        Some(string_of(&cs))
    }
}

} // verus!

verus! {

/// Greedy filling of lines with `words`, continuing the line `cur`: a word
/// joins the current line (after a space) while the line's UTF-8 length
/// stays within `max`; a word never is split.
pub open spec fn wrap_words(words: Seq<Seq<char>>, cur: Seq<char>, max: nat) -> Seq<Seq<char>>
    decreases words.len(),
{
    if words.len() == 0 {
        if cur.len() == 0 {
            Seq::empty()
        } else {
            seq![cur]
        }
    } else {
        let w = words[0];
        if cur.len() == 0 {
            wrap_words(words.drop_first(), w, max)
        } else if utf8_len(cur) + 1 + utf8_len(w) <= max {
            wrap_words(words.drop_first(), cur + seq![' '] + w, max)
        } else {
            seq![cur] + wrap_words(words.drop_first(), w, max)
        }
    }
}

/// The wrapped lines of one line of text: an empty line stays one empty line.
pub open spec fn wrap_line(line: Seq<char>, max: nat) -> Seq<Seq<char>> {
    if line.len() == 0 {
        seq![Seq::empty()]
    } else {
        wrap_words(words_of(line), Seq::empty(), max)
    }
}

/// The wrapped lines of a list of lines.
pub open spec fn wrap_lines(lines: Seq<Seq<char>>, max: nat) -> Seq<Seq<char>>
    decreases lines.len(),
{
    if lines.len() == 0 {
        Seq::empty()
    } else {
        wrap_line(lines[0], max) + wrap_lines(lines.drop_first(), max)
    }
}

/// The lines of `text` wrapped at `max` bytes.
pub open spec fn wrapped(text: Seq<char>, max: nat) -> Seq<Seq<char>> {
    wrap_lines(lines_of(text), max)
}

pub open spec fn char_views(v: Seq<Vec<char>>) -> Seq<Seq<char>> {
    v.map_values(|w: Vec<char>| w@)
}

/// Appends the greedily filled lines of `words` to `out`.
fn wrap_into(words: &Vec<Vec<char>>, max: usize, out: &mut Vec<String>)
    ensures
        views(final(out)@) == views(old(out)@) + wrap_words(char_views(words@), Seq::empty(), max as nat),
{
    let ghost ws = char_views(words@);
    let ghost start = views(out@);
    let mut current: Vec<char> = Vec::new();
    let mut cur_len: u128 = 0;
    let mut k: usize = 0;
    assert(ws.skip(0) =~= ws);
    while k < words.len()
        invariant
            k <= words.len(),
            ws == char_views(words@),
            cur_len == utf8_len(current@),
            cur_len <= 4 * current.len(),
            views(out@) + wrap_words(ws.skip(k as int), current@, max as nat) == start + wrap_words(
                ws,
                Seq::empty(),
                max as nat,
            ),
        decreases words.len() - k,
    {
        let w = &words[k];
        let w_len = utf8_len_of(w);
        let w_chars = w.len();
        let cur_chars = current.len();
        proof {
            lemma_utf8_len_bound(w@);
            assert(w_len <= 4 * w_chars);
            assert(cur_len <= 4 * cur_chars);
            assert(ws.skip(k as int)[0] == w@);
            assert(ws.skip(k as int).drop_first() =~= ws.skip(k + 1));
        }
        if current.len() == 0 {
            append_chars(&mut current, w);
            assert(current@ =~= w@);
            cur_len = w_len;
        } else if cur_len + 1 + w_len <= max as u128 {
            let ghost c0 = current@;
            current.push(' ');
            let ghost c1 = current@;
            append_chars(&mut current, w);
            proof {
                lemma_utf8_len_add(c0, seq![' ']);
                assert(c0 + seq![' '] =~= c1);
                assert(utf8_len(seq![' ']) == 1) by {
                    assert(seq![' '].drop_last() =~= Seq::<char>::empty());
                    assert(utf8_len(Seq::<char>::empty()) == 0);
                }
                lemma_utf8_len_add(c1, w@);
                assert(current@ == c1 + w@);
                assert(current@ =~= c0 + seq![' '] + w@);
            }
            cur_len = cur_len + 1 + w_len;
        } else {
            let ghost before = views(out@);
            out.push(string_of(&current));
            proof {
                assert(views(out@) =~= before.push(current@));
                assert(before.push(current@) + wrap_words(ws.skip(k + 1), w@, max as nat) =~= before
                    + (seq![current@] + wrap_words(ws.skip(k + 1), w@, max as nat)));
            }
            current = Vec::new();
            append_chars(&mut current, w);
            assert(current@ =~= w@);
            cur_len = w_len;
        }
        k = k + 1;
    }
    assert(ws.skip(k as int) =~= Seq::<Seq<char>>::empty());
    if current.len() > 0 {
        let ghost before = views(out@);
        out.push(string_of(&current));
        assert(views(out@) =~= before.push(current@));
        assert(before + seq![current@] =~= before.push(current@));
    } else {
        assert(views(out@) + Seq::<Seq<char>>::empty() =~= views(out@));
    }
}

/// Splits `text` into lines and wraps each at `max_chars` bytes, keeping
/// empty lines and never splitting a word.
pub fn word_wrap(text: &str, max_chars: usize) -> (r: Vec<String>)
    ensures
        views(r@) == wrapped(text@, max_chars as nat),
{
    let cs = chars_of(text);
    let lines = split_lines(&cs);
    let ghost ls = char_views(lines@);
    let mut out: Vec<String> = Vec::new();
    let mut i: usize = 0;
    assert(ls.skip(0) =~= ls);
    while i < lines.len()
        invariant
            i <= lines.len(),
            ls == char_views(lines@),
            ls == lines_of(text@),
            views(out@) + wrap_lines(ls.skip(i as int), max_chars as nat) == wrap_lines(
                ls,
                max_chars as nat,
            ),
        decreases lines.len() - i,
    {
        let line = &lines[i];
        proof {
            assert(ls.skip(i as int)[0] == line@);
            assert(ls.skip(i as int).drop_first() =~= ls.skip(i + 1));
        }
        let ghost before = views(out@);
        if line.len() == 0 {
            out.push(String::new());
            assert(views(out@) =~= before + seq![Seq::<char>::empty()]);
        } else {
            let words = split_words(line);
            wrap_into(&words, max_chars, &mut out);
        }
        assert(views(out@) + wrap_lines(ls.skip(i + 1), max_chars as nat) =~= before + (wrap_line(
            line@,
            max_chars as nat,
        ) + wrap_lines(ls.skip(i + 1), max_chars as nat)));
        i = i + 1;
    }
    assert(ls.skip(i as int) =~= Seq::<Seq<char>>::empty());
    assert(views(out@) + Seq::<Seq<char>>::empty() =~= views(out@));
    out
}

} // verus!

verus! {

proof fn lemma_wrap_words_nonempty(ws: Seq<Seq<char>>, cur: Seq<char>, max: nat)
    requires
        cur.len() > 0,
    ensures
        wrap_words(ws, cur, max).len() > 0,
    decreases ws.len(),
{
    if ws.len() > 0 {
        let w = ws[0];
        if utf8_len(cur) + 1 + utf8_len(w) <= max {
            lemma_wrap_words_nonempty(ws.drop_first(), cur + seq![' '] + w, max);
        }
    }
}

proof fn lemma_wrap_words_join(ws: Seq<Seq<char>>, cur: Seq<char>, max: nat)
    requires
        forall|i: int| 0 <= i < ws.len() ==> #[trigger] ws[i].len() > 0,
    ensures
        join(wrap_words(ws, cur, max), seq![' ']) == if cur.len() == 0 {
            join(ws, seq![' '])
        } else {
            join(seq![cur] + ws, seq![' '])
        },
    decreases ws.len(),
{
    let sp = seq![' '];
    if ws.len() == 0 {
        if cur.len() > 0 {
            assert(seq![cur] + ws =~= seq![cur]);
        }
    } else {
        let w = ws[0];
        let rest = ws.drop_first();
        assert(ws =~= seq![w] + rest);
        assert forall|i: int| 0 <= i < rest.len() implies #[trigger] rest[i].len() > 0 by {
            assert(rest[i] == ws[i + 1]);
        }
        if cur.len() == 0 {
            lemma_wrap_words_join(rest, w, max);
        } else if utf8_len(cur) + 1 + utf8_len(w) <= max {
            let merged = cur + sp + w;
            lemma_wrap_words_join(rest, merged, max);
            if rest.len() > 0 {
                lemma_join_cons(merged, rest, sp);
                lemma_join_cons(w, rest, sp);
                lemma_join_cons(cur, ws, sp);
                assert(merged + sp + join(rest, sp) =~= cur + sp + (w + sp + join(rest, sp)));
            } else {
                assert(seq![merged] + rest =~= seq![merged]);
                assert(ws =~= seq![w]);
                lemma_join_cons(cur, ws, sp);
            }
        } else {
            lemma_wrap_words_join(rest, w, max);
            lemma_wrap_words_nonempty(rest, w, max);
            lemma_join_cons(cur, wrap_words(rest, w, max), sp);
            lemma_join_cons(cur, ws, sp);
            if rest.len() > 0 {
            } else {
                assert(seq![w] + rest =~= seq![w]);
            }
        }
    }
}

/// Wrapping a non-empty line keeps its words: the wrapped lines joined by
/// single spaces are its words joined by single spaces.
pub proof fn law_wrap_keeps_words(line: Seq<char>, max: nat)
    requires
        line.len() > 0,
    ensures
        join(wrap_line(line, max), seq![' ']) == join(words_of(line), seq![' ']),
{
    lemma_words_nonempty(line);
    lemma_wrap_words_join(words_of(line), Seq::empty(), max);
}

proof fn lemma_wrap_words_width(ws: Seq<Seq<char>>, cur: Seq<char>, max: nat, all: Seq<Seq<char>>)
    requires
        forall|i: int| 0 <= i < ws.len() ==> all.contains(#[trigger] ws[i]),
        cur.len() == 0 || utf8_len(cur) <= max || all.contains(cur),
    ensures
        forall|j: int|
            0 <= j < wrap_words(ws, cur, max).len() ==> utf8_len(
                #[trigger] wrap_words(ws, cur, max)[j],
            ) <= max || all.contains(wrap_words(ws, cur, max)[j]),
    decreases ws.len(),
{
    if ws.len() > 0 {
        let w = ws[0];
        let rest = ws.drop_first();
        assert forall|i: int| 0 <= i < rest.len() implies all.contains(#[trigger] rest[i]) by {
            assert(rest[i] == ws[i + 1]);
        }
        assert(all.contains(ws[0]));
        if cur.len() == 0 {
            lemma_wrap_words_width(rest, w, max, all);
            assert(wrap_words(ws, cur, max) == wrap_words(rest, w, max));
        } else if utf8_len(cur) + 1 + utf8_len(w) <= max {
            let merged = cur + seq![' '] + w;
            assert(wrap_words(ws, cur, max) == wrap_words(rest, merged, max));
            lemma_utf8_len_add(cur, seq![' ']);
            lemma_utf8_len_add(cur + seq![' '], w);
            assert(utf8_len(seq![' ']) == 1) by {
                assert(seq![' '].drop_last() =~= Seq::<char>::empty());
                assert(utf8_len(Seq::<char>::empty()) == 0);
            }
            lemma_wrap_words_width(rest, merged, max, all);
        } else {
            lemma_wrap_words_width(rest, w, max, all);
            let out = wrap_words(ws, cur, max);
            assert(out == seq![cur] + wrap_words(rest, w, max));
            assert forall|j: int| 0 <= j < out.len() implies utf8_len(#[trigger] out[j]) <= max
                || all.contains(out[j]) by {
                if j > 0 {
                    assert(out[j] == wrap_words(rest, w, max)[j - 1]);
                }
            }
        }
    } else if cur.len() > 0 {
        assert(wrap_words(ws, cur, max) == seq![cur]);
        assert(wrap_words(ws, cur, max)[0] == cur);
    }
}

/// No wrapped line is longer than `max` bytes, unless it is a single word
/// of the line.
pub proof fn law_wrap_respects_width(line: Seq<char>, max: nat)
    ensures
        forall|j: int|
            0 <= j < wrap_line(line, max).len() ==> utf8_len(#[trigger] wrap_line(line, max)[j])
                <= max || words_of(line).contains(wrap_line(line, max)[j]),
{
    if line.len() > 0 {
        let ws = words_of(line);
        assert forall|i: int| 0 <= i < ws.len() implies ws.contains(#[trigger] ws[i]) by {}
        lemma_wrap_words_width(ws, Seq::empty(), max, ws);
    } else {
        assert(utf8_len(Seq::<char>::empty()) == 0);
    }
}

} // verus!

verus! {

/// How a message date is shown.
pub open spec fn date_text(date: Option<i64>) -> Seq<char> {
    match date {
        Some(t) => match utc_date_text(t) {
            Some(s) => s,
            None => "(unknown date)"@,
        },
        None => "(unknown date)"@,
    }
}

/// How the sender is shown: `Name <address>`, or whichever of the two is
/// present; an Exchange DN address is left out unless `show_details`.
pub open spec fn from_text(m: MessageModel, show_details: bool) -> Seq<char> {
    let addr = if is_dn(m.from_address) && !show_details {
        Seq::empty()
    } else {
        m.from_address
    };
    if addr.len() == 0 {
        m.from_name
    } else if m.from_name.len() == 0 {
        addr
    } else {
        m.from_name + " <"@ + addr + ">"@
    }
}

/// The sender's line shows the address next to the name: when both are
/// given and the address is shown (it is no Exchange DN, or `show_details`),
/// it is `name <address>`; a hidden DN address leaves the name alone.
pub proof fn law_from_shows_name_and_address(m: MessageModel, show_details: bool)
    ensures
        m.from_name.len() > 0 && m.from_address.len() > 0 && (show_details || !exchange_dn_text(
            m.from_address,
        )) ==> from_text(m, show_details) == m.from_name + seq![' ', '<'] + m.from_address
            + seq!['>'],
        m.from_name.len() > 0 && exchange_dn_text(m.from_address) && !show_details ==> from_text(
            m,
            show_details,
        ) == m.from_name,
        m.from_name.len() == 0 && (show_details || !exchange_dn_text(m.from_address)) ==> from_text(
            m,
            show_details,
        ) == m.from_address,
{
    reveal_strlit(" <");
    reveal_strlit(">");
}

/// The recipients worth showing, cleaned.
pub open spec fn shown_recipients(rs: Seq<Seq<char>>, show_details: bool) -> Seq<Seq<char>>
    decreases rs.len(),
{
    if rs.len() == 0 {
        Seq::empty()
    } else {
        let prev = shown_recipients(rs.drop_last(), show_details);
        match cleaned_address(rs.last(), show_details) {
            Some(a) => prev.push(a),
            None => prev,
        }
    }
}

/// How the recipients are shown: comma-separated, or "(unknown)".
pub open spec fn to_text(m: MessageModel, show_details: bool) -> Seq<char> {
    let parts = shown_recipients(m.to_recipients, show_details);
    if parts.len() == 0 {
        "(unknown)"@
    } else {
        join(parts, ", "@)
    }
}

/// How a body ends up in the text output: "(no body)" when empty,
/// otherwise the body ending in a newline.
pub open spec fn body_text(body: Seq<char>) -> Seq<char> {
    if body.len() == 0 {
        "(no body)\n"@
    } else if ends_with(body, seq!['\n']) {
        body
    } else {
        body + seq!['\n']
    }
}

/// The text block of one message.
pub open spec fn message_text(m: MessageModel, show_details: bool) -> Seq<char> {
    seq!['\n'] + "Date:    "@ + date_text(m.date) + seq!['\n'] + "From:    "@ + from_text(
        m,
        show_details,
    ) + seq!['\n'] + "To:      "@ + to_text(m, show_details) + seq!['\n'] + "Subject: "@
        + m.subject + seq!['\n'] + repeat_char('-', 60) + seq!['\n'] + body_text(m.body)
}

/// The text blocks of a list of messages, one after the other.
pub open spec fn messages_text(ms: Seq<MessageModel>, show_details: bool) -> Seq<char>
    decreases ms.len(),
{
    if ms.len() == 0 {
        Seq::empty()
    } else {
        messages_text(ms.drop_last(), show_details) + message_text(ms.last(), show_details)
    }
}

fn date_chars(date: Option<i64>) -> (r: Vec<char>)
    ensures
        r@ == date_text(date),
{
    let mut r: Vec<char> = Vec::new();
    match date {
        Some(t) => match format_utc(t) {
            Some(s) => append_str(&mut r, s.as_str()),
            None => append_str(&mut r, "(unknown date)"),
        },
        None => append_str(&mut r, "(unknown date)"),
    }
    r
}

fn from_chars(m: &EmailMessage, show_details: bool) -> (r: Vec<char>)
    ensures
        r@ == from_text(m@, show_details),
{
    let addr = if is_exchange_dn(m.from_address.as_str()) && !show_details {
        Vec::new()
    } else {
        chars_of(m.from_address.as_str())
    };
    let name = chars_of(m.from_name.as_str());
    if addr.len() == 0 {
        name
    } else if name.len() == 0 {
        addr
    } else {
        let mut r = name;
        append_str(&mut r, " <");
        append_chars(&mut r, &addr);
        append_str(&mut r, ">");
        r
    }
}

fn to_chars(m: &EmailMessage, show_details: bool) -> (r: Vec<char>)
    ensures
        r@ == to_text(m@, show_details),
{
    let mut parts: Vec<String> = Vec::new();
    let mut i: usize = 0;
    let ghost rs = views(m.to_recipients@);
    while i < m.to_recipients.len()
        invariant
            i <= m.to_recipients.len(),
            rs == views(m.to_recipients@),
            views(parts@) == shown_recipients(rs.take(i as int), show_details),
        decreases m.to_recipients.len() - i,
    {
        assert(rs.take(i + 1).drop_last() =~= rs.take(i as int));
        assert(rs.take(i + 1).last() == m.to_recipients@[i as int]@);
        let ghost before = views(parts@);
        match clean_address(m.to_recipients[i].as_str(), show_details) {
            Some(a) => {
                parts.push(a);
                assert(views(parts@) =~= before.push(parts@.last()@));
            },
            None => {},
        }
        i = i + 1;
    }
    assert(rs.take(rs.len() as int) =~= rs);
    if parts.len() == 0 {
        let mut r: Vec<char> = Vec::new();
        append_str(&mut r, "(unknown)");
        r
    } else {
        crate::text::join_strings(&parts, ", ")
    }
}

fn message_chars(m: &EmailMessage, show_details: bool) -> (r: Vec<char>)
    ensures
        r@ == message_text(m@, show_details),
{
    let mut r: Vec<char> = Vec::new();
    r.push('\n');
    append_str(&mut r, "Date:    ");
    append_chars(&mut r, &date_chars(m.date));
    r.push('\n');
    append_str(&mut r, "From:    ");
    append_chars(&mut r, &from_chars(m, show_details));
    r.push('\n');
    append_str(&mut r, "To:      ");
    append_chars(&mut r, &to_chars(m, show_details));
    r.push('\n');
    append_str(&mut r, "Subject: ");
    append_str(&mut r, m.subject.as_str());
    r.push('\n');
    push_repeated(&mut r, '-', 60);
    r.push('\n');
    let body = chars_of(m.body.as_str());
    if body.len() == 0 {
        append_str(&mut r, "(no body)\n");
    } else {
        append_chars(&mut r, &body);
        let nl = vec!['\n'];
        assert(nl@ =~= seq!['\n']);
        if !has_suffix(&body, &nl) {
            r.push('\n');
        }
    }
    assert(r@ =~= message_text(m@, show_details));
    r
}

/// Appends the text block of every message to `out`.
pub fn render_messages_to_text(out: &mut String, messages: &Vec<EmailMessage>, show_details: bool)
    ensures
        final(out)@ == old(out)@ + messages_text(message_models(messages@), show_details),
{
    let ghost start = out@;
    let ghost ms = message_models(messages@);
    let mut i: usize = 0;
    while i < messages.len()
        invariant
            i <= messages.len(),
            ms == message_models(messages@),
            out@ == start + messages_text(ms.take(i as int), show_details),
        decreases messages.len() - i,
    {
        let block = message_chars(&messages[i], show_details);
        push_all(out, &block);
        proof {
            assert(ms.take(i + 1).drop_last() =~= ms.take(i as int));
            assert(ms.take(i + 1).last() == messages@[i as int]@);
            assert(start + messages_text(ms.take(i as int), show_details) + block@ =~= start + (
            messages_text(ms.take(i as int), show_details) + block@));
        }
        i = i + 1;
    }
    assert(ms.take(ms.len() as int) =~= ms);
}

} // verus!

verus! {

/// The heading of a conversation: `Thread: <subject> (<n> message[s])`.
pub open spec fn thread_header(th: ThreadModel) -> Seq<char> {
    "Thread: "@ + th.display_subject + " ("@ + decimal(th.messages.len()) + " message"@ + (if th.messages.len() == 1 {
        ""@
    } else {
        "s"@
    }) + ")"@
}

/// The text of one conversation in the combined text file: a blank line
/// before every conversation but the first, the heading underlined with
/// `=` (as many as the heading has bytes, at most 80), then its messages.
pub open spec fn thread_text(th: ThreadModel, first: bool, show_details: bool) -> Seq<char> {
    thread_heading(th, first) + messages_text(th.messages, show_details)
}

/// The heading block of a conversation in the combined text file.
pub open spec fn thread_heading(th: ThreadModel, first: bool) -> Seq<char> {
    let header = thread_header(th);
    let n = if utf8_len(header) < 80 {
        utf8_len(header)
    } else {
        80
    };
    (if first {
        Seq::empty()
    } else {
        seq!['\n']
    }) + header + seq!['\n'] + repeat_char('=', n) + seq!['\n']
}

fn heading_chars(th: &ConversationThread, first: bool) -> (r: Vec<char>)
    ensures
        r@ == thread_heading(th@, first),
{
    let mut block: Vec<char> = Vec::new();
    if !first {
        block.push('\n');
    }
    let header = header_chars(th);
    append_chars(&mut block, &header);
    block.push('\n');
    let hl = utf8_len_of(&header);
    let n: usize = if hl < 80 {
        hl as usize
    } else {
        80
    };
    push_repeated(&mut block, '=', n);
    block.push('\n');
    assert(block@ =~= thread_heading(th@, first));
    block
}

/// The combined text file of a list of conversations.
pub open spec fn threads_text(ts: Seq<ThreadModel>, show_details: bool) -> Seq<char>
    decreases ts.len(),
{
    if ts.len() == 0 {
        Seq::empty()
    } else {
        threads_text(ts.drop_last(), show_details) + thread_text(ts.last(), ts.len() == 1, show_details)
    }
}

fn header_chars(th: &ConversationThread) -> (r: Vec<char>)
    ensures
        r@ == thread_header(th@),
{
    let mut r: Vec<char> = Vec::new();
    append_str(&mut r, "Thread: ");
    append_str(&mut r, th.display_subject.as_str());
    append_str(&mut r, " (");
    let n = th.messages.len();
    append_chars(&mut r, &decimal_chars(n as u64));
    append_str(&mut r, " message");
    if n != 1 {
        append_str(&mut r, "s");
    } else {
        append_str(&mut r, "");
    }
    append_str(&mut r, ")");
    assert(th@.messages.len() == n);
    r
}

/// The combined text file of all conversations.
pub fn render_threads_text(threads: &Vec<ConversationThread>, show_details: bool) -> (r: String)
    ensures
        r@ == threads_text(thread_models(threads@), show_details),
{
    let ghost ts = thread_models(threads@);
    let mut out = String::new();
    let mut i: usize = 0;
    while i < threads.len()
        invariant
            i <= threads.len(),
            ts == thread_models(threads@),
            out@ == threads_text(ts.take(i as int), show_details),
        decreases threads.len() - i,
    {
        let th = &threads[i];
        let ghost before = out@;
        let block = heading_chars(th, i == 0);
        push_all(&mut out, &block);
        render_messages_to_text(&mut out, &th.messages, show_details);
        proof {
            assert(ts.take(i + 1).drop_last() =~= ts.take(i as int));
            assert(ts.take(i + 1).last() == th@);
            assert(out@ =~= before + thread_text(th@, i == 0, show_details));
        }
        i = i + 1;
    }
    assert(ts.take(ts.len() as int) =~= ts);
    out
}

/// The text file of one conversation: its messages only.
pub fn render_conversation_text(thread: &ConversationThread, show_details: bool) -> (r: String)
    ensures
        r@ == messages_text(thread@.messages, show_details),
{
    let mut out = String::new();
    render_messages_to_text(&mut out, &thread.messages, show_details);
    out
}

/// `<stem>-<number padded to five digits>.<extension>`, the name of the
/// file of one conversation.
pub fn numbered_file_name(stem: &str, number: u64, extension: &str) -> (r: String)
    ensures
        r@ == stem@ + seq!['-'] + crate::text::zero_pad(decimal(number as nat), 5) + seq!['.']
            + extension@,
{
    let mut v: Vec<char> = Vec::new();
    append_str(&mut v, stem);
    v.push('-');
    append_chars(&mut v, &crate::text::zero_padded(number, 5));
    v.push('.');
    append_str(&mut v, extension);
    string_of(&v)
}

} // verus!

verus! {

/// Approximate characters per line at 10pt Helvetica on A4 with 15mm margins.
pub const MAX_CHARS_PER_LINE: usize = 95;

/// The font a PDF line is set in.
#[derive(Debug, Clone, Copy, PartialEq, Eq, Structural)]
pub enum LineStyle {
    /// Regular body text.
    Body,
    /// Bold header fields.
    Bold,
    /// The bold, larger conversation heading.
    Heading,
}

/// One line of a PDF page, before sanitising for the built-in fonts.
#[derive(Debug, Clone)]
pub struct PdfLine {
    pub text: String,
    pub style: LineStyle,
}

impl View for PdfLine {
    type V = (Seq<char>, LineStyle);

    open spec fn view(&self) -> (Seq<char>, LineStyle) {
        (self.text@, self.style)
    }
}

pub open spec fn line_views(v: Seq<PdfLine>) -> Seq<(Seq<char>, LineStyle)> {
    v.map_values(|l: PdfLine| l@)
}

/// Lines all in one style.
pub open spec fn styled(lines: Seq<Seq<char>>, style: LineStyle) -> Seq<(Seq<char>, LineStyle)> {
    lines.map_values(|l: Seq<char>| (l, style))
}

/// `text` wrapped for a page, in one style.
pub open spec fn wrapped_lines(text: Seq<char>, style: LineStyle) -> Seq<(Seq<char>, LineStyle)> {
    styled(wrapped(text, MAX_CHARS_PER_LINE as nat), style)
}

/// The PDF lines of one message: a blank line, the bold header fields (the
/// recipients wrapped), a rule, then the wrapped body or "(no body)".
pub open spec fn message_pdf_lines(m: MessageModel, show_details: bool) -> Seq<(Seq<char>, LineStyle)> {
    seq![
        (Seq::<char>::empty(), LineStyle::Body),
        ("Date:    "@ + date_text(m.date), LineStyle::Bold),
        ("From:    "@ + from_text(m, show_details), LineStyle::Bold),
    ] + wrapped_lines("To:      "@ + to_text(m, show_details), LineStyle::Bold) + seq![
        ("Subject: "@ + m.subject, LineStyle::Bold),
        (repeat_char('-', 60), LineStyle::Body),
    ] + if m.body.len() == 0 {
        seq![("(no body)"@, LineStyle::Body)]
    } else {
        wrapped_lines(m.body, LineStyle::Body)
    }
}

/// The PDF lines of a list of messages.
pub open spec fn messages_pdf_lines(ms: Seq<MessageModel>, show_details: bool) -> Seq<
    (Seq<char>, LineStyle),
>
    decreases ms.len(),
{
    if ms.len() == 0 {
        Seq::empty()
    } else {
        messages_pdf_lines(ms.drop_last(), show_details) + message_pdf_lines(
            ms.last(),
            show_details,
        )
    }
}

/// The PDF lines of one conversation in the combined document: a blank
/// line before every conversation but the first, the heading underlined
/// with `=` (as many as the heading has bytes, at most 95), its messages.
pub open spec fn thread_pdf_lines(th: ThreadModel, first: bool, show_details: bool) -> Seq<
    (Seq<char>, LineStyle),
> {
    let header = thread_header(th);
    let n = if utf8_len(header) < MAX_CHARS_PER_LINE {
        utf8_len(header)
    } else {
        MAX_CHARS_PER_LINE as nat
    };
    (if first {
        Seq::empty()
    } else {
        seq![(Seq::<char>::empty(), LineStyle::Body)]
    }) + seq![(header, LineStyle::Heading), (repeat_char('=', n), LineStyle::Body)]
        + messages_pdf_lines(th.messages, show_details)
}

/// The PDF lines of the combined document.
pub open spec fn threads_pdf_lines(ts: Seq<ThreadModel>, show_details: bool) -> Seq<
    (Seq<char>, LineStyle),
>
    decreases ts.len(),
{
    if ts.len() == 0 {
        Seq::empty()
    } else {
        threads_pdf_lines(ts.drop_last(), show_details) + thread_pdf_lines(
            ts.last(),
            ts.len() == 1,
            show_details,
        )
    }
}

fn push_line(out: &mut Vec<PdfLine>, text: &Vec<char>, style: LineStyle)
    ensures
        line_views(final(out)@) == line_views(old(out)@).push((text@, style)),
{
    let ghost before = line_views(out@);
    out.push(PdfLine { text: string_of(text), style });
    assert(line_views(out@) =~= before.push((text@, style)));
}

fn push_wrapped(out: &mut Vec<PdfLine>, text: &Vec<char>, style: LineStyle)
    ensures
        line_views(final(out)@) == line_views(old(out)@) + wrapped_lines(text@, style),
{
    let s = string_of(text);
    let lines = word_wrap(s.as_str(), MAX_CHARS_PER_LINE);
    let ghost start = line_views(out@);
    let ghost ls = views(lines@);
    let mut i: usize = 0;
    while i < lines.len()
        invariant
            i <= lines.len(),
            ls == views(lines@),
            line_views(out@) == start + styled(ls.take(i as int), style),
        decreases lines.len() - i,
    {
        let ghost before = line_views(out@);
        out.push(PdfLine { text: lines[i].clone(), style });
        assert(line_views(out@) =~= before.push((ls[i as int], style)));
        assert(styled(ls.take(i + 1), style) =~= styled(ls.take(i as int), style).push(
            (ls[i as int], style),
        ));
        i = i + 1;
    }
    assert(ls.take(ls.len() as int) =~= ls);
}

fn message_pdf_into(out: &mut Vec<PdfLine>, m: &EmailMessage, show_details: bool)
    ensures
        line_views(final(out)@) == line_views(old(out)@) + message_pdf_lines(m@, show_details),
{
    let ghost start = line_views(out@);
    push_line(out, &Vec::new(), LineStyle::Body);
    let mut date_line: Vec<char> = Vec::new();
    append_str(&mut date_line, "Date:    ");
    append_chars(&mut date_line, &date_chars(m.date));
    push_line(out, &date_line, LineStyle::Bold);
    let mut from_line: Vec<char> = Vec::new();
    append_str(&mut from_line, "From:    ");
    append_chars(&mut from_line, &from_chars(m, show_details));
    push_line(out, &from_line, LineStyle::Bold);
    let mut to_line: Vec<char> = Vec::new();
    append_str(&mut to_line, "To:      ");
    append_chars(&mut to_line, &to_chars(m, show_details));
    push_wrapped(out, &to_line, LineStyle::Bold);
    let mut subject_line: Vec<char> = Vec::new();
    append_str(&mut subject_line, "Subject: ");
    append_str(&mut subject_line, m.subject.as_str());
    push_line(out, &subject_line, LineStyle::Bold);
    let mut rule: Vec<char> = Vec::new();
    push_repeated(&mut rule, '-', 60);
    push_line(out, &rule, LineStyle::Body);
    let body = chars_of(m.body.as_str());
    if body.len() == 0 {
        let mut nb: Vec<char> = Vec::new();
        append_str(&mut nb, "(no body)");
        push_line(out, &nb, LineStyle::Body);
    } else {
        push_wrapped(out, &body, LineStyle::Body);
    }
    assert(line_views(out@) =~= start + message_pdf_lines(m@, show_details));
}

/// The PDF lines of a list of messages, as a conversation's own document
/// shows them.
pub fn messages_pdf_plan(messages: &Vec<EmailMessage>, show_details: bool) -> (r: Vec<PdfLine>)
    ensures
        line_views(r@) == messages_pdf_lines(message_models(messages@), show_details),
{
    let ghost ms = message_models(messages@);
    let mut out: Vec<PdfLine> = Vec::new();
    let mut i: usize = 0;
    while i < messages.len()
        invariant
            i <= messages.len(),
            ms == message_models(messages@),
            line_views(out@) == messages_pdf_lines(ms.take(i as int), show_details),
        decreases messages.len() - i,
    {
        message_pdf_into(&mut out, &messages[i], show_details);
        assert(ms.take(i + 1).drop_last() =~= ms.take(i as int));
        assert(ms.take(i + 1).last() == messages@[i as int]@);
        i = i + 1;
    }
    assert(ms.take(ms.len() as int) =~= ms);
    out
}

fn thread_pdf_into(out: &mut Vec<PdfLine>, th: &ConversationThread, first: bool, show_details: bool)
    ensures
        line_views(final(out)@) == line_views(old(out)@) + thread_pdf_lines(th@, first, show_details),
{
    let ghost start = line_views(out@);
    if !first {
        push_line(out, &Vec::new(), LineStyle::Body);
    }
    let header = header_chars(th);
    push_line(out, &header, LineStyle::Heading);
    let hl = utf8_len_of(&header);
    let n: usize = if hl < MAX_CHARS_PER_LINE as u128 {
        hl as usize
    } else {
        MAX_CHARS_PER_LINE
    };
    let mut rule: Vec<char> = Vec::new();
    push_repeated(&mut rule, '=', n);
    push_line(out, &rule, LineStyle::Body);
    let ghost mid = line_views(out@);
    let body = messages_pdf_plan(&th.messages, show_details);
    let mut i: usize = 0;
    while i < body.len()
        invariant
            i <= body.len(),
            line_views(out@) == mid + line_views(body@).take(i as int),
        decreases body.len() - i,
    {
        let ghost before = line_views(out@);
        out.push(PdfLine { text: body[i].text.clone(), style: body[i].style });
        assert(line_views(out@) =~= before.push(line_views(body@)[i as int]));
        assert(line_views(body@).take(i + 1) =~= line_views(body@).take(i as int).push(
            line_views(body@)[i as int],
        ));
        i = i + 1;
    }
    assert(line_views(body@).take(body.len() as int) =~= line_views(body@));
    assert(line_views(out@) =~= start + thread_pdf_lines(th@, first, show_details));
}

/// The PDF lines of the combined document of all conversations.
pub fn threads_pdf_plan(threads: &Vec<ConversationThread>, show_details: bool) -> (r: Vec<PdfLine>)
    ensures
        line_views(r@) == threads_pdf_lines(thread_models(threads@), show_details),
{
    let ghost ts = thread_models(threads@);
    let mut out: Vec<PdfLine> = Vec::new();
    let mut i: usize = 0;
    while i < threads.len()
        invariant
            i <= threads.len(),
            ts == thread_models(threads@),
            line_views(out@) == threads_pdf_lines(ts.take(i as int), show_details),
        decreases threads.len() - i,
    {
        thread_pdf_into(&mut out, &threads[i], i == 0, show_details);
        assert(ts.take(i + 1).drop_last() =~= ts.take(i as int));
        assert(ts.take(i + 1).last() == threads@[i as int]@);
        i = i + 1;
    }
    assert(ts.take(ts.len() as int) =~= ts);
    out
}

} // verus!

verus! {

/// The PDF lines of a decoded e-mail attachment.
pub open spec fn eml_pdf_lines(
    subject: Seq<char>,
    date: Seq<char>,
    from: Seq<char>,
    to: Seq<char>,
    body: Seq<char>,
) -> Seq<(Seq<char>, LineStyle)> {
    seq![("Date:    "@ + date, LineStyle::Bold)] + wrapped_lines("From:    "@ + from, LineStyle::Bold)
        + wrapped_lines("To:      "@ + to, LineStyle::Bold) + wrapped_lines(
        "Subject: "@ + subject,
        LineStyle::Bold,
    ) + seq![(repeat_char('-', 60), LineStyle::Body)] + if body.len() == 0 {
        seq![("(no body)"@, LineStyle::Body)]
    } else {
        wrapped_lines(body, LineStyle::Body)
    }
}

fn labelled(label: &str, value: &str) -> (r: Vec<char>)
    ensures
        r@ == label@ + value@,
{
    let mut v: Vec<char> = Vec::new();
    append_str(&mut v, label);
    append_str(&mut v, value);
    v
}

/// The PDF lines of a decoded e-mail attachment: bold header fields, a
/// rule, then the wrapped body or "(no body)".
pub fn eml_pdf_plan(subject: &str, date: &str, from: &str, to: &str, body: &str) -> (r: Vec<PdfLine>)
    ensures
        line_views(r@) == eml_pdf_lines(subject@, date@, from@, to@, body@),
{
    let mut out: Vec<PdfLine> = Vec::new();
    push_line(&mut out, &labelled("Date:    ", date), LineStyle::Bold);
    push_wrapped(&mut out, &labelled("From:    ", from), LineStyle::Bold);
    push_wrapped(&mut out, &labelled("To:      ", to), LineStyle::Bold);
    push_wrapped(&mut out, &labelled("Subject: ", subject), LineStyle::Bold);
    let mut rule: Vec<char> = Vec::new();
    push_repeated(&mut rule, '-', 60);
    push_line(&mut out, &rule, LineStyle::Body);
    let b = chars_of(body);
    if b.len() == 0 {
        let mut nb: Vec<char> = Vec::new();
        append_str(&mut nb, "(no body)");
        push_line(&mut out, &nb, LineStyle::Body);
    } else {
        push_wrapped(&mut out, &b, LineStyle::Body);
    }
    assert(line_views(out@) =~= eml_pdf_lines(subject@, date@, from@, to@, body@));
    out
}

/// The document title of a decoded e-mail: its subject, or "email".
pub fn eml_pdf_title(subject: &str) -> (r: String)
    ensures
        r@ == if subject@.len() == 0 {
            "email"@
        } else {
            subject@
        },
{
    if subject.is_empty() {
        String::from_str("email")
    } else {
        subject.to_string()
    }
}

/// `s` begins with the word `w`, followed by a space or by nothing.
pub open spec fn begins_with_word(s: Seq<char>, w: Seq<char>) -> bool {
    &&& w.len() <= s.len()
    &&& s.take(w.len() as int) == w
    &&& (s.len() == w.len() || s[w.len() as int] == ' ')
}

/// Each line after the first of `out` begins with a word of `all` that did
/// not fit, after a space, on the line before it.
pub open spec fn breaks_greedily(out: Seq<Seq<char>>, all: Seq<Seq<char>>, max: nat) -> bool {
    forall|j: int|
        0 < j < out.len() ==> exists|w: Seq<char>|
            #![trigger all.contains(w)]
            all.contains(w) && begins_with_word(#[trigger] out[j], w) && utf8_len(out[j - 1]) + 1
                + utf8_len(w) > max
}

proof fn lemma_wrap_words_head(ws: Seq<Seq<char>>, cur: Seq<char>, max: nat)
    requires
        cur.len() > 0,
    ensures
        wrap_words(ws, cur, max).len() > 0,
        begins_with_word(wrap_words(ws, cur, max)[0], cur),
    decreases ws.len(),
{
    lemma_wrap_words_nonempty(ws, cur, max);
    if ws.len() == 0 {
        assert(wrap_words(ws, cur, max)[0] == cur);
        assert(cur.take(cur.len() as int) =~= cur);
    } else {
        let w = ws[0];
        if utf8_len(cur) + 1 + utf8_len(w) <= max {
            let merged = cur + seq![' '] + w;
            lemma_wrap_words_head(ws.drop_first(), merged, max);
            let first = wrap_words(ws, cur, max)[0];
            assert(first.take(merged.len() as int) == merged);
            assert(first.take(cur.len() as int) =~= merged.take(cur.len() as int));
            assert(merged.take(cur.len() as int) =~= cur);
            assert(first[cur.len() as int] == merged[cur.len() as int]);
        } else {
            assert(wrap_words(ws, cur, max)[0] == cur);
            assert(cur.take(cur.len() as int) =~= cur);
        }
    }
}

proof fn lemma_wrap_words_greedy(ws: Seq<Seq<char>>, cur: Seq<char>, max: nat, all: Seq<Seq<char>>)
    requires
        forall|i: int| 0 <= i < ws.len() ==> all.contains(#[trigger] ws[i]),
        forall|i: int| 0 <= i < ws.len() ==> #[trigger] ws[i].len() > 0,
    ensures
        breaks_greedily(wrap_words(ws, cur, max), all, max),
        forall|j: int|
            0 <= j < wrap_words(ws, cur, max).len() ==> #[trigger] wrap_words(ws, cur, max)[j].len()
                > 0,
    decreases ws.len(),
{
    let out = wrap_words(ws, cur, max);
    if ws.len() == 0 {
        if cur.len() > 0 {
            assert(out[0] == cur);
        }
    } else {
        let w = ws[0];
        let rest = ws.drop_first();
        assert forall|i: int| 0 <= i < rest.len() implies all.contains(#[trigger] rest[i]) by {
            assert(rest[i] == ws[i + 1]);
        }
        assert forall|i: int| 0 <= i < rest.len() implies #[trigger] rest[i].len() > 0 by {
            assert(rest[i] == ws[i + 1]);
        }
        assert(all.contains(ws[0]));
        assert(w.len() > 0);
        if cur.len() == 0 {
            lemma_wrap_words_greedy(rest, w, max, all);
        } else if utf8_len(cur) + 1 + utf8_len(w) <= max {
            lemma_wrap_words_greedy(rest, cur + seq![' '] + w, max, all);
        } else {
            let tail = wrap_words(rest, w, max);
            lemma_wrap_words_greedy(rest, w, max, all);
            lemma_wrap_words_head(rest, w, max);
            assert(out == seq![cur] + tail);
            assert forall|j: int| 0 < j < out.len() implies exists|v: Seq<char>|
                #![trigger all.contains(v)]
                all.contains(v) && begins_with_word(#[trigger] out[j], v) && utf8_len(out[j - 1]) + 1
                    + utf8_len(v) > max by {
                if j == 1 {
                    assert(out[1] == tail[0]);
                    assert(out[0] == cur);
                    assert(all.contains(w) && begins_with_word(out[j], w));
                } else {
                    assert(out[j] == tail[j - 1]);
                    assert(out[j - 1] == tail[j - 2]);
                    assert(0 < j - 1 < tail.len());
                    let v = choose|v: Seq<char>|
                        #![trigger all.contains(v)]
                        all.contains(v) && begins_with_word(tail[j - 1], v) && utf8_len(tail[j - 2]) + 1
                            + utf8_len(v) > max;
                    assert(all.contains(v) && begins_with_word(out[j], v));
                }
            }
            assert forall|j: int| 0 <= j < out.len() implies #[trigger] out[j].len() > 0 by {
                if j > 0 {
                    assert(out[j] == tail[j - 1]);
                }
            }
        }
    }
}

/// Wrapping is greedy and keeps blank lines apart: an empty line stays one
/// empty line; a non-empty line gives only non-empty lines, and each of them
/// after the first begins with a word of the line that would not have fit,
/// after a space, on the line before it.
pub proof fn law_wrap_is_greedy(line: Seq<char>, max: nat)
    ensures
        line.len() == 0 ==> wrap_line(line, max) == seq![Seq::<char>::empty()],
        line.len() > 0 ==> forall|j: int|
            0 <= j < wrap_line(line, max).len() ==> #[trigger] wrap_line(line, max)[j].len() > 0,
        breaks_greedily(wrap_line(line, max), words_of(line), max),
{
    if line.len() > 0 {
        let ws = words_of(line);
        lemma_words_nonempty(line);
        assert forall|i: int| 0 <= i < ws.len() implies ws.contains(#[trigger] ws[i]) by {}
        lemma_wrap_words_greedy(ws, Seq::empty(), max, ws);
    }
}

} // verus!
