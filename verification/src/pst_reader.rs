//! What is read out of an archive's messages: property values, HTML
//! stripping, recipients and message records.

use vstd::prelude::*;
use crate::models::{EmailMessage, MessageModel, opt_view};
use crate::thread_grouper::{normalize_subject, normalized};
use crate::timestamps::{filetime_secs, filetime_to_datetime};
use crate::text::{
    append_chars, append_str, chars_of, is_blank, replace_all, replace_chars, string_of, trim, views,
};

verus! {

pub const PR_SUBJECT: u16 = 0x0037;
pub const PR_SENDER_NAME: u16 = 0x0C1A;
pub const PR_SENDER_EMAIL_ADDRESS: u16 = 0x0C1F;
pub const PR_MESSAGE_DELIVERY_TIME: u16 = 0x0E06;
pub const PR_CLIENT_SUBMIT_TIME: u16 = 0x0039;
pub const PR_BODY: u16 = 0x1000;
pub const PR_HTML: u16 = 0x1013;
pub const PR_DISPLAY_NAME: u16 = 0x3001;
pub const PR_EMAIL_ADDRESS: u16 = 0x3003;
pub const PR_SMTP_ADDRESS: u16 = 0x39FE;
pub const PR_ATTACH_LONG_FILENAME: u16 = 0x3707;
pub const PR_ATTACH_FILENAME: u16 = 0x3704;

/// A property value as far as this program reads it.
#[derive(Debug, Clone)]
pub enum PropValue {
    /// An 8-bit string property.
    String8(String),
    /// A Unicode string property.
    Unicode(String),
    /// A time property, as a FILETIME.
    Time(i64),
    /// Any other kind of value.
    Other,
}

/// The text of a string property.
pub open spec fn prop_string(pv: PropValue) -> Option<Seq<char>> {
    match pv {
        PropValue::String8(s) => Some(s@),
        PropValue::Unicode(s) => Some(s@),
        _ => None,
    }
}

/// The text of a property that may be absent.
pub open spec fn opt_prop_string(pv: Option<PropValue>) -> Option<Seq<char>> {
    match pv {
        Some(v) => prop_string(v),
        None => None,
    }
}

/// The instant of a time property, in seconds since the Unix epoch.
pub open spec fn prop_time(pv: PropValue) -> Option<i64> {
    match pv {
        PropValue::Time(ft) => Some(filetime_secs(ft) as i64),
        _ => None,
    }
}

pub open spec fn opt_prop_time(pv: Option<PropValue>) -> Option<i64> {
    match pv {
        Some(v) => prop_time(v),
        None => None,
    }
}

/// The text of a string property.
pub fn prop_to_string(pv: &PropValue) -> (r: Option<String>)
    ensures
        opt_view(r) == prop_string(*pv),
{
    match pv {
        PropValue::String8(s) => Some(s.clone()),
        PropValue::Unicode(s) => Some(s.clone()),
        _ => None,
    }
}

/// The instant of a time property.
pub fn prop_to_time(pv: &PropValue) -> (r: Option<i64>)
    ensures
        r == prop_time(*pv),
{
    match pv {
        PropValue::Time(ft) => filetime_to_datetime(*ft),
        _ => None,
    }
}

pub(crate) fn opt_prop_to_string(pv: &Option<PropValue>) -> (r: Option<String>)
    ensures
        opt_view(r) == opt_prop_string(*pv),
{
    match pv {
        Some(v) => prop_to_string(v),
        None => None,
    }
}

fn opt_prop_to_time(pv: &Option<PropValue>) -> (r: Option<i64>)
    ensures
        r == opt_prop_time(*pv),
{
    match pv {
        Some(v) => prop_to_time(v),
        None => None,
    }
}

/// Text outside `<...>` tags; a `>` ends a tag, a `<` starts one.
pub open spec fn strip_tags(s: Seq<char>, in_tag: bool) -> Seq<char>
    decreases s.len(),
{
    if s.len() == 0 {
        Seq::empty()
    } else if s[0] == '<' {
        strip_tags(s.drop_first(), true)
    } else if s[0] == '>' {
        strip_tags(s.drop_first(), false)
    } else if !in_tag {
        seq![s[0]] + strip_tags(s.drop_first(), in_tag)
    } else {
        strip_tags(s.drop_first(), in_tag)
    }
}

/// The plain text of an HTML body: tags removed, then the entities
/// `&amp;`, `&lt;`, `&gt;`, `&nbsp;`, `&quot;`, `&#39;` decoded, in that order.
pub open spec fn html_text(html: Seq<char>) -> Seq<char> {
    let t = strip_tags(html, false);
    let a = replace_all(t, "&amp;"@, "&"@);
    let b = replace_all(a, "&lt;"@, "<"@);
    let c = replace_all(b, "&gt;"@, ">"@);
    let d = replace_all(c, "&nbsp;"@, " "@);
    let e = replace_all(d, "&quot;"@, "\""@);
    replace_all(e, "&#39;"@, "'"@)
}

/// Whether stripping is inside a tag after reading `s` from state `in_tag`.
pub open spec fn tag_open_after(s: Seq<char>, in_tag: bool) -> bool
    decreases s.len(),
{
    if s.len() == 0 {
        in_tag
    } else if s[0] == '<' {
        tag_open_after(s.drop_first(), true)
    } else if s[0] == '>' {
        tag_open_after(s.drop_first(), false)
    } else {
        tag_open_after(s.drop_first(), in_tag)
    }
}

proof fn lemma_strip_tags_concat(a: Seq<char>, b: Seq<char>, in_tag: bool)
    ensures
        strip_tags(a + b, in_tag) == strip_tags(a, in_tag) + strip_tags(b, tag_open_after(a, in_tag)),
    decreases a.len(),
{
    if a.len() == 0 {
        assert(a + b =~= b);
    } else {
        assert((a + b).drop_first() =~= a.drop_first() + b);
        assert((a + b)[0] == a[0]);
        let next = if a[0] == '<' {
            true
        } else if a[0] == '>' {
            false
        } else {
            in_tag
        };
        lemma_strip_tags_concat(a.drop_first(), b, next);
        if a[0] != '<' && a[0] != '>' && !in_tag {
            assert(seq![a[0]] + (strip_tags(a.drop_first(), in_tag) + strip_tags(b, tag_open_after(a, in_tag)))
                =~= (seq![a[0]] + strip_tags(a.drop_first(), in_tag)) + strip_tags(b, tag_open_after(a, in_tag)));
        }
    }
}

/// Text free of `<` and `>` is dropped inside a tag and leaves it open;
/// outside one it is kept and leaves it closed.
proof fn lemma_strip_plain(t: Seq<char>)
    requires
        forall|i: int| 0 <= i < t.len() ==> t[i] != '<' && t[i] != '>',
    ensures
        strip_tags(t, true) == Seq::<char>::empty(),
        tag_open_after(t, true),
        strip_tags(t, false) == t,
        !tag_open_after(t, false),
    decreases t.len(),
{
    if t.len() > 0 {
        assert(t[0] != '<' && t[0] != '>');
        lemma_strip_plain(t.drop_first());
        assert(seq![t[0]] + t.drop_first() =~= t);
    }
}

proof fn lemma_no_open_tag(x: Seq<char>, in_tag: bool)
    requires
        !x.contains('<'),
        !in_tag,
    ensures
        !tag_open_after(x, in_tag),
    decreases x.len(),
{
    if x.len() > 0 {
        assert(x[0] != '<');
        assert forall|c: char| x.drop_first().contains(c) implies x.contains(c) by {
            let i = choose|i: int| 0 <= i < x.drop_first().len() && x.drop_first()[i] == c;
            assert(x[i + 1] == c);
        }
        lemma_no_open_tag(x.drop_first(), false);
    }
}

proof fn lemma_replace_absent(s: Seq<char>, pat: Seq<char>, rep: Seq<char>)
    requires
        pat.len() > 0,
        !s.contains(pat[0]),
    ensures
        replace_all(s, pat, rep) == s,
    decreases s.len(),
{
    if s.len() > 0 {
        assert(s[0] != pat[0]);
        if pat.len() <= s.len() {
            assert(s.subrange(0, pat.len() as int)[0] == s[0]);
        }
        assert forall|c: char| s.drop_first().contains(c) implies s.contains(c) by {
            let i = choose|i: int| 0 <= i < s.drop_first().len() && s.drop_first()[i] == c;
            assert(s[i + 1] == c);
        }
        lemma_replace_absent(s.drop_first(), pat, rep);
        assert(seq![s[0]] + s.drop_first() =~= s);
    }
}

/// Everything from a `<` to the next `>` is dropped, whatever stands between
/// them: the text around such a tag is stripped as if the tag were not
/// there, and when the text before it opens no tag, the plain text of the
/// whole is that of the text without the tag.
pub proof fn law_tags_are_dropped_whole(x: Seq<char>, t: Seq<char>, y: Seq<char>)
    requires
        forall|i: int| 0 <= i < t.len() ==> t[i] != '<' && t[i] != '>',
    ensures
        strip_tags(x + seq!['<'] + t + seq!['>'] + y, false) == strip_tags(x, false) + strip_tags(
            y,
            false,
        ),
        !x.contains('<') ==> html_text(x + seq!['<'] + t + seq!['>'] + y) == html_text(x + y),
{
    let z = seq!['<'] + t + seq!['>'] + y;
    assert(x + seq!['<'] + t + seq!['>'] + y =~= x + z);
    lemma_strip_tags_concat(x, z, false);
    let st = tag_open_after(x, false);
    assert(z.drop_first() =~= t + (seq!['>'] + y));
    lemma_strip_tags_concat(t, seq!['>'] + y, true);
    lemma_strip_plain(t);
    assert((seq!['>'] + y).drop_first() =~= y);
    assert(strip_tags(z, st) == strip_tags(t + (seq!['>'] + y), true));
    assert(strip_tags(t + (seq!['>'] + y), true) =~= strip_tags(y, false));
    if !x.contains('<') {
        lemma_no_open_tag(x, false);
        lemma_strip_tags_concat(x, y, false);
    }
}

/// Text with no `<`, `>` or `&` is its own plain text.
pub proof fn law_plain_text_kept(s: Seq<char>)
    requires
        !s.contains('<'),
        !s.contains('>'),
        !s.contains('&'),
    ensures
        html_text(s) == s,
{
    assert forall|i: int| 0 <= i < s.len() implies s[i] != '<' && s[i] != '>' by {
        if s[i] == '<' {
            assert(s.contains('<'));
        }
        if s[i] == '>' {
            assert(s.contains('>'));
        }
    }
    lemma_strip_plain(s);
    reveal_strlit("&amp;");
    reveal_strlit("&lt;");
    reveal_strlit("&gt;");
    reveal_strlit("&nbsp;");
    reveal_strlit("&quot;");
    reveal_strlit("&#39;");
    lemma_replace_absent(s, "&amp;"@, "&"@);
    lemma_replace_absent(s, "&lt;"@, "<"@);
    lemma_replace_absent(s, "&gt;"@, ">"@);
    lemma_replace_absent(s, "&nbsp;"@, " "@);
    lemma_replace_absent(s, "&quot;"@, "\""@);
    lemma_replace_absent(s, "&#39;"@, "'"@);
}

fn replace_str(s: &Vec<char>, pat: &str, rep: &str) -> (r: Vec<char>)
    requires
        pat@.len() > 0,
    ensures
        r@ == replace_all(s@, pat@, rep@),
{
    let p = chars_of(pat);
    let q = chars_of(rep);
    replace_chars(s, &p, &q)
}

/// The plain text of an HTML body.
pub fn strip_html(html: &str) -> (r: String)
    ensures
        r@ == html_text(html@),
{
    let cs = chars_of(html);
    let mut out: Vec<char> = Vec::new();
    let mut in_tag = false;
    let mut i: usize = 0;
    assert(cs@.skip(0) =~= cs@);
    while i < cs.len()
        invariant
            i <= cs.len(),
            cs@ == html@,
            out@ + strip_tags(cs@.skip(i as int), in_tag) == strip_tags(html@, false),
        decreases cs.len() - i,
    {
        let ch = cs[i];
        assert(cs@.skip(i as int).drop_first() =~= cs@.skip(i + 1));
        let ghost before = out@;
        if ch == '<' {
            in_tag = true;
        } else if ch == '>' {
            in_tag = false;
        } else if !in_tag {
            out.push(ch);
            assert(out@ + strip_tags(cs@.skip(i + 1), in_tag) =~= before + (seq![ch] + strip_tags(
                cs@.skip(i + 1),
                in_tag,
            )));
        }
        i = i + 1;
    }
    assert(cs@.skip(i as int) =~= Seq::<char>::empty());
    assert(out@ + Seq::<char>::empty() =~= out@);
    proof {
        reveal_strlit("&amp;");
        reveal_strlit("&lt;");
        reveal_strlit("&gt;");
        reveal_strlit("&nbsp;");
        reveal_strlit("&quot;");
        reveal_strlit("&#39;");
    }
    let a = replace_str(&out, "&amp;", "&");
    let b = replace_str(&a, "&lt;", "<");
    let c = replace_str(&b, "&gt;", ">");
    let d = replace_str(&c, "&nbsp;", " ");
    let e = replace_str(&d, "&quot;", "\"");
    let f = replace_str(&e, "&#39;", "'");
    string_of(&f)
}

} // verus!

verus! {

/// One column of a recipient-table row: its property id and, when it could
/// be read, its value.
#[derive(Debug, Clone)]
pub struct RecipientColumn {
    pub prop_id: u16,
    pub value: Option<PropValue>,
}

/// The display name and address a row holds, scanning its columns in order:
/// the last display-name column wins, the first address (or SMTP address)
/// column with a value wins.
pub open spec fn scan_columns(cols: Seq<RecipientColumn>) -> (Option<Seq<char>>, Option<Seq<char>>)
    decreases cols.len(),
{
    if cols.len() == 0 {
        (None, None)
    } else {
        let prev = scan_columns(cols.drop_last());
        let c = cols.last();
        match c.value {
            None => prev,
            Some(pv) => if c.prop_id == PR_DISPLAY_NAME {
                (prop_string(pv), prev.1)
            } else if c.prop_id == PR_EMAIL_ADDRESS || c.prop_id == PR_SMTP_ADDRESS {
                if prev.1 is None {
                    (prev.0, prop_string(pv))
                } else {
                    prev
                }
            } else {
                prev
            },
        }
    }
}

/// How a recipient is listed: `Name <address>`, the name alone when the
/// address is missing or empty, the address alone when there is no name.
pub open spec fn recipient_text(name: Option<Seq<char>>, email: Option<Seq<char>>) -> Option<Seq<char>> {
    match (name, email) {
        (Some(n), Some(e)) => if e.len() > 0 {
            Some(n + " <"@ + e + ">"@)
        } else {
            Some(n)
        },
        (Some(n), None) => Some(n),
        (None, Some(e)) => Some(e),
        (None, None) => None,
    }
}

/// The recipients of a recipient table, one per row that names someone.
pub open spec fn recipients_of(rows: Seq<Vec<RecipientColumn>>) -> Seq<Seq<char>>
    decreases rows.len(),
{
    if rows.len() == 0 {
        Seq::empty()
    } else {
        let prev = recipients_of(rows.drop_last());
        let s = scan_columns(rows.last()@);
        match recipient_text(s.0, s.1) {
            Some(t) => prev.push(t),
            None => prev,
        }
    }
}

fn recipient_of_row(row: &Vec<RecipientColumn>) -> (r: Option<String>)
    ensures
        opt_view(r) == recipient_text(scan_columns(row@).0, scan_columns(row@).1),
{
    let mut display_name: Option<String> = None;
    let mut email_addr: Option<String> = None;
    let mut i: usize = 0;
    while i < row.len()
        invariant
            i <= row.len(),
            (opt_view(display_name), opt_view(email_addr)) == scan_columns(row@.take(i as int)),
        decreases row.len() - i,
    {
        assert(row@.take(i + 1).drop_last() =~= row@.take(i as int));
        assert(row@.take(i + 1).last() == row@[i as int]);
        let col = &row[i];
        match &col.value {
            Some(pv) => {
                if col.prop_id == PR_DISPLAY_NAME {
                    display_name = prop_to_string(pv);
                } else if col.prop_id == PR_EMAIL_ADDRESS || col.prop_id == PR_SMTP_ADDRESS {
                    if email_addr.is_none() {
                        email_addr = prop_to_string(pv);
                    }
                }
            },
            None => {},
        }
        i = i + 1;
    }
    assert(row@.take(row.len() as int) =~= row@);
    match (display_name, email_addr) {
        (Some(name), Some(email)) => {
            if !email.as_str().is_empty() {
                let mut v = chars_of(name.as_str());
                append_str(&mut v, " <");
                append_str(&mut v, email.as_str());
                append_str(&mut v, ">");
                Some(string_of(&v))
            } else {
                Some(name)
            }
        },
        (Some(name), None) => Some(name),
        (None, Some(email)) => Some(email),
        (None, None) => None,
    }
}

/// The recipients listed in a recipient table.
pub fn extract_recipients(rows: &Vec<Vec<RecipientColumn>>) -> (r: Vec<String>)
    ensures
        views(r@) == recipients_of(rows@),
{
    let mut recipients: Vec<String> = Vec::new();
    let mut i: usize = 0;
    while i < rows.len()
        invariant
            i <= rows.len(),
            views(recipients@) == recipients_of(rows@.take(i as int)),
        decreases rows.len() - i,
    {
        assert(rows@.take(i + 1).drop_last() =~= rows@.take(i as int));
        assert(rows@.take(i + 1).last() == rows@[i as int]);
        let ghost before = views(recipients@);
        match recipient_of_row(&rows[i]) {
            Some(t) => {
                recipients.push(t);
                assert(views(recipients@) =~= before.push(recipients@.last()@));
            },
            None => {},
        }
        i = i + 1;
    }
    assert(rows@.take(rows.len() as int) =~= rows@);
    recipients
}

/// The properties of one stored message that the program reads.
#[derive(Debug, Clone)]
pub struct MessageProps {
    pub subject: Option<PropValue>,
    pub sender_name: Option<PropValue>,
    pub sender_email: Option<PropValue>,
    pub delivery_time: Option<PropValue>,
    pub submit_time: Option<PropValue>,
    pub body: Option<PropValue>,
    pub html: Option<PropValue>,
    /// The store's creation time of the message, as a FILETIME, when known.
    pub creation_time: Option<i64>,
    /// The rows of the recipient table, in order.
    pub recipients: Vec<Vec<RecipientColumn>>,
}

/// A string property, or the empty text.
pub open spec fn text_or_empty(pv: Option<PropValue>) -> Seq<char> {
    match opt_prop_string(pv) {
        Some(s) => s,
        None => Seq::empty(),
    }
}

/// The date of a message: delivery time, else submit time, else creation time.
pub open spec fn message_date(p: MessageProps) -> Option<i64> {
    match opt_prop_time(p.delivery_time) {
        Some(t) => Some(t),
        None => match opt_prop_time(p.submit_time) {
            Some(t) => Some(t),
            None => match p.creation_time {
                Some(ft) => Some(filetime_secs(ft) as i64),
                None => None,
            },
        },
    }
}

/// The body of a message: the plain body unless blank, else the text of
/// the HTML body, else empty.
pub open spec fn message_body(p: MessageProps) -> Seq<char> {
    match opt_prop_string(p.body) {
        Some(b) if trim(b).len() > 0 => b,
        _ => match opt_prop_string(p.html) {
            Some(h) => html_text(h),
            None => Seq::empty(),
        },
    }
}

/// The record of a stored message.
pub open spec fn message_record(p: MessageProps, node_id: u32) -> MessageModel {
    MessageModel {
        date: message_date(p),
        from_name: text_or_empty(p.sender_name),
        from_address: text_or_empty(p.sender_email),
        to_recipients: recipients_of(p.recipients@),
        subject: text_or_empty(p.subject),
        body: message_body(p),
        normalized_subject: normalized(text_or_empty(p.subject)),
        message_id: None,
        in_reply_to: None,
        references: Seq::empty(),
        reply_depth: 0,
        node_id,
    }
}

fn string_or_empty(pv: &Option<PropValue>) -> (r: String)
    ensures
        r@ == text_or_empty(*pv),
{
    match opt_prop_to_string(pv) {
        Some(s) => s,
        None => String::new(),
    }
}

/// Builds the record of a stored message from its properties.
pub fn extract_message(props: &MessageProps, node_id: u32) -> (r: EmailMessage)
    ensures
        r@ == message_record(*props, node_id),
{
    let subject = string_or_empty(&props.subject);
    let from_name = string_or_empty(&props.sender_name);
    let from_address = string_or_empty(&props.sender_email);
    let date = match opt_prop_to_time(&props.delivery_time) {
        Some(t) => Some(t),
        None => match opt_prop_to_time(&props.submit_time) {
            Some(t) => Some(t),
            None => match props.creation_time {
                Some(ft) => filetime_to_datetime(ft),
                None => None,
            },
        },
    };
    let plain = match opt_prop_to_string(&props.body) {
        Some(b) => if !is_blank(b.as_str()) {
            Some(b)
        } else {
            None
        },
        None => None,
    };
    let body = match plain {
        Some(b) => b,
        None => match opt_prop_to_string(&props.html) {
            Some(h) => strip_html(h.as_str()),
            None => String::new(),
        },
    };
    let to_recipients = extract_recipients(&props.recipients);
    let normalized_subject = normalize_subject(subject.as_str());
    let r = EmailMessage {
        date,
        from_name,
        from_address,
        to_recipients,
        subject,
        body,
        normalized_subject,
        message_id: None,
        in_reply_to: None,
        references: Vec::new(),
        reply_depth: 0,
        node_id,
    };
    assert(views(r.references@) =~= Seq::<Seq<char>>::empty());
    r
}

} // verus!
