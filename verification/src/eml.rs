//! E-mail messages stored as attachments: the header texts and the most
//! readable body text of a parsed message.

use vstd::prelude::*;
use eml_codec::imf::address::AddressRef;
use eml_codec::part::AnyPart;
use vstd::utf8::{decode_utf8, valid_utf8};
use crate::compressed::utf8_str;
use crate::pst_reader::{html_text, strip_html};
use crate::models::opt_view;
use crate::text::{chars_of, join, join_strings, lower_text, string_of, to_lowercase, views};

verus! {

#[verifier::external_type_specification]
#[verifier::external_body]
pub struct ExEmlMessage<'a>(eml_codec::part::composite::Message<'a>);

#[verifier::external_type_specification]
#[verifier::external_body]
pub struct ExEmlAnyPart<'a>(eml_codec::part::AnyPart<'a>);

/// A MIME part of a message, as far as its text is read.
#[derive(Debug)]
pub enum MimePart {
    /// A text part: the raw subtype of its content type, if it has one, and
    /// its body bytes.
    Text { subtype: Option<Vec<u8>>, body: Vec<u8> },
    /// A multipart part: the raw subtype of its content type and its parts.
    Multi { subtype: Option<Vec<u8>>, children: Vec<MimePart> },
    /// An embedded message and its body part.
    Message { child: Box<MimePart> },
    /// Any other part.
    Binary,
}

/// The text of `b` when it is valid UTF-8, else `dflt`.
pub open spec fn utf8_or(b: Seq<u8>, dflt: Seq<char>) -> Seq<char> {
    if valid_utf8(b) {
        decode_utf8(b)
    } else {
        dflt
    }
}

/// The lower-cased subtype of a content type, `dflt` when it is missing or
/// not UTF-8.
pub open spec fn subtype_text(sub: Option<Vec<u8>>, dflt: Seq<char>) -> Seq<char> {
    lower_text(
        match sub {
            Some(b) => utf8_or(b@, dflt),
            None => dflt,
        },
    )
}

/// A `text/plain` part (a text part without a subtype counts as plain).
pub open spec fn is_plain_part(p: MimePart) -> bool {
    match p {
        MimePart::Text { subtype, body } => subtype_text(subtype, "plain"@) == "plain"@,
        _ => false,
    }
}

/// The index of the first plain-text part of `cs` from `i` on.
pub open spec fn first_plain_from(cs: Seq<MimePart>, i: int) -> Option<int>
    decreases cs.len() - i,
{
    if i < 0 || i >= cs.len() {
        None
    } else if is_plain_part(cs[i]) {
        Some(i)
    } else {
        first_plain_from(cs, i + 1)
    }
}

/// The most readable text of a part: a text part's body (HTML stripped for
/// `text/html`); for `multipart/alternative` the first plain-text
/// alternative, else the first alternative; for other multiparts the
/// non-empty texts of all parts joined by newlines; an embedded message's
/// body; nothing for other parts.
pub open spec fn part_text(p: MimePart) -> Seq<char>
    decreases p, 1int,
{
    match p {
        MimePart::Text { subtype, body } => {
            let raw = utf8_or(body@, Seq::empty());
            if subtype_text(subtype, "plain"@) == "html"@ {
                html_text(raw)
            } else {
                raw
            }
        },
        MimePart::Multi { subtype, children } => {
            if subtype_text(subtype, Seq::empty()) == "alternative"@ {
                match first_plain_from(children@, 0) {
                    Some(i) => if 0 <= i < children@.len() {
                        part_text(children@[i])
                    } else {
                        Seq::empty()
                    },
                    None => if children@.len() > 0 {
                        part_text(children@[0])
                    } else {
                        Seq::empty()
                    },
                }
            } else {
                join(nonempty_texts(children@), "\n"@)
            }
        },
        MimePart::Message { child } => part_text(*child),
        MimePart::Binary => Seq::empty(),
    }
}

/// The texts of a list of parts that are not empty, in order.
pub open spec fn nonempty_texts(cs: Seq<MimePart>) -> Seq<Seq<char>>
    decreases cs, 0int,
{
    if cs.len() == 0 {
        Seq::empty()
    } else {
        let prev = nonempty_texts(cs.drop_last());
        let t = part_text(cs.last());
        if t.len() > 0 {
            prev.push(t)
        } else {
            prev
        }
    }
}

/// The text of bytes that are UTF-8, else `dflt`.
fn text_or(b: &[u8], dflt: &str) -> (r: String)
    ensures
        r@ == utf8_or(b@, dflt@),
{
    match utf8_str(b) {
        Some(s) => string_of(&chars_of(s)),
        None => string_of(&chars_of(dflt)),
    }
}

/// The lower-cased subtype of a content type, `dflt` when missing.
fn subtype_of(sub: &Option<Vec<u8>>, dflt: &str) -> (r: Vec<char>)
    ensures
        r@ == subtype_text(*sub, dflt@),
{
    let t = match sub {
        Some(b) => text_or(b.as_slice(), dflt),
        None => string_of(&chars_of(dflt)),
    };
    let l = to_lowercase(t.as_str());
    chars_of(l.as_str())
}

fn is_word(v: &Vec<char>, w: &str) -> (r: bool)
    ensures
        r == (v@ == w@),
{
    let p = chars_of(w);
    if v.len() != p.len() {
        return false;
    }
    let mut i: usize = 0;
    while i < v.len()
        invariant
            i <= v.len() == p.len(),
            p@ == w@,
            forall|j: int| 0 <= j < i ==> v@[j] == p@[j],
        decreases v.len() - i,
    {
        if v[i] != p[i] {
            return false;
        }
        i = i + 1;
    }
    assert(v@ =~= p@);
    true
}

/// Whether a part is a `text/plain` part.
pub fn eml_is_plain_text(part: &MimePart) -> (r: bool)
    ensures
        r == is_plain_part(*part),
{
    match part {
        MimePart::Text { subtype, body } => {
            let sub = subtype_of(subtype, "plain");
            is_word(&sub, "plain")
        },
        _ => false,
    }
}

/// The most readable text body of a MIME part tree.
#[verifier::loop_isolation(false)]
pub fn eml_collect_body(part: &MimePart) -> (r: String)
    ensures
        r@ == part_text(*part),
    decreases part,
{
    proof {
        reveal_strlit("");
        assert(""@ =~= Seq::<char>::empty());
    }
    match part {
        MimePart::Text { subtype, body } => {
            let sub = subtype_of(subtype, "plain");
            let raw = text_or(body.as_slice(), "");
            proof {
                reveal_strlit("");
            }
            if is_word(&sub, "html") {
                strip_html(raw.as_str())
            } else {
                raw
            }
        },
        MimePart::Multi { subtype, children } => {
            let sub = subtype_of(subtype, "");
            proof {
                reveal_strlit("");
            }
            if is_word(&sub, "alternative") {
                let mut i: usize = 0;
                while i < children.len()
                    invariant
                        i <= children.len(),
                        first_plain_from(children@, 0) == first_plain_from(children@, i as int),
                    decreases children.len() - i,
                {
                    if eml_is_plain_text(&children[i]) {
                        assert(first_plain_from(children@, i as int) == Some(i as int));
                        return eml_collect_body(&children[i]);
                    }
                    i = i + 1;
                }
                assert(first_plain_from(children@, i as int) == None::<int>);
                if children.len() > 0 {
                    eml_collect_body(&children[0])
                } else {
                    String::new()
                }
            } else {
                let mut texts: Vec<String> = Vec::new();
                let mut i: usize = 0;
                while i < children.len()
                    invariant
                        i <= children.len(),
                        views(texts@) == nonempty_texts(children@.take(i as int)),
                    decreases children.len() - i,
                {
                    let t = eml_collect_body(&children[i]);
                    proof {
                        let s = children@.take(i + 1);
                        assert(s.drop_last() =~= children@.take(i as int));
                        assert(s.last() == children@[i as int]);
                    }
                    if !t.as_str().is_empty() {
                        let ghost before = views(texts@);
                        texts.push(t);
                        assert(views(texts@) =~= before.push(texts@.last()@));
                    }
                    i = i + 1;
                }
                assert(children@.take(children.len() as int) =~= children@);
                string_of(&join_strings(&texts, "\n"))
            }
        },
        MimePart::Message { child } => eml_collect_body(child),
        MimePart::Binary => String::new(),
    }
}

/// A message parsed from `bytes`; only [`parse_eml`] makes one, so `msg` is
/// always what `eml_codec::parse_message` reads of `bytes`.
struct ParsedEml<'a> {
    bytes: &'a [u8],
    msg: eml_codec::part::composite::Message<'a>,
}

/// Whether `eml_codec::parse_message` accepts the bytes as an e-mail (the
/// parser is a function of the bytes alone).
pub uninterp spec fn eml_parses(bytes: Seq<u8>) -> bool;

/// The `Subject:` header that `eml_codec` reads of the bytes, through
/// `ToString` of `eml_codec::text::misc_token::Unstructured`.
pub uninterp spec fn eml_subject_of(bytes: Seq<u8>) -> Option<Seq<char>>;

/// The year (`chrono::Datelike::year`, in the date's own offset) of the
/// `Date:` header that `eml_codec` reads of the bytes.
pub uninterp spec fn eml_year_of(bytes: Seq<u8>) -> Option<i32>;

/// The `Date:` header that `eml_codec` reads of the bytes, in the form
/// `chrono::DateTime::to_rfc2822` gives it.
pub uninterp spec fn eml_date_of(bytes: Seq<u8>) -> Seq<char>;

/// The `From:` mailboxes that `eml_codec` reads of the bytes, through
/// `ToString` of `eml_codec::imf::mailbox::MailboxRef`.
pub uninterp spec fn eml_from_of(bytes: Seq<u8>) -> Seq<Seq<char>>;

/// The `To:` addresses that `eml_codec` reads of the bytes, each as the
/// texts (`ToString` of `MailboxRef`) of its mailboxes.
pub uninterp spec fn eml_to_of(bytes: Seq<u8>) -> Seq<Seq<Seq<char>>>;

/// The MIME tree of the body that `eml_codec` reads of the bytes.
pub uninterp spec fn eml_tree_of(bytes: Seq<u8>) -> MimePart;

/// The texts of each address's mailboxes.
pub open spec fn group_views(v: Seq<Vec<String>>) -> Seq<Seq<Seq<char>>> {
    v.map_values(|a: Vec<String>| views(a@))
}

/// `+` or `-`.
pub open spec fn is_sign_byte(c: u8) -> bool {
    c == 43u8 || c == 45u8
}

/// An ASCII digit.
pub open spec fn is_digit_byte(c: u8) -> bool {
    48u8 <= c <= 57u8
}

/// A byte that can stand just before the time zone of a date: the last digit
/// of the time of day, a space, a tab, or the `)` that closes a comment.
pub open spec fn is_zone_lead(c: u8) -> bool {
    is_digit_byte(c) || c == 32u8 || c == 9u8 || c == 41u8
}

/// From `s` up to `j` runs a time zone sign of two or more bytes of `+` and
/// `-`: the byte before it can end a time of day and four digits follow it.
pub open spec fn doubled_zone_sign_at(b: Seq<u8>, s: int, j: int) -> bool {
    &&& 0 < s
    &&& s + 2 <= j
    &&& j + 4 <= b.len()
    &&& is_zone_lead(b[s - 1])
    &&& forall|k: int| s <= k < j ==> is_sign_byte(#[trigger] b[k])
    &&& forall|k: int| j <= k < j + 4 ==> is_digit_byte(#[trigger] b[k])
}

/// Somewhere in the bytes a time zone is written with a doubled sign, such
/// as `+-0000` in `Date: Mon, 1 Jan 2024 00:00:00 +-0000`.
pub open spec fn has_doubled_zone_sign(b: Seq<u8>) -> bool {
    exists|s: int, j: int| doubled_zone_sign_at(b, s, j)
}

fn sign_byte(c: u8) -> (r: bool)
    ensures
        r == is_sign_byte(c),
{
    c == 43u8 || c == 45u8
}

fn digit_byte(c: u8) -> (r: bool)
    ensures
        r == is_digit_byte(c),
{
    48u8 <= c && c <= 57u8
}

fn zone_lead_byte(c: u8) -> (r: bool)
    ensures
        r == is_zone_lead(c),
{
    digit_byte(c) || c == 32u8 || c == 9u8 || c == 41u8
}

/// Whether the bytes write a time zone with a doubled sign (see
/// [`has_doubled_zone_sign`]).  A multipart boundary line such as
/// `--0000abc` starts its line, after no byte that can end a time, so it is
/// no such zone.
pub fn find_doubled_zone_sign(bytes: &[u8]) -> (r: bool)
    ensures
        r == has_doubled_zone_sign(bytes@),
{
    let n: usize = bytes.len();
    let mut i: usize = 1;
    while i < n
        invariant
            n == bytes@.len(),
            1 <= i,
            forall|s: int, j: int| 1 <= s < i ==> !#[trigger] doubled_zone_sign_at(bytes@, s, j),
        decreases n - i,
    {
        if zone_lead_byte(bytes[i - 1]) && sign_byte(bytes[i]) {
            let mut j: usize = i + 1;
            while j < n && sign_byte(bytes[j])
                invariant
                    n == bytes@.len(),
                    i < j <= n,
                    forall|k: int| i <= k < j ==> is_sign_byte(#[trigger] bytes@[k]),
                decreases n - j,
            {
                j = j + 1;
            }
            if j - i >= 2 && n >= 4 && j <= n - 4 && digit_byte(bytes[j]) && digit_byte(bytes[j + 1])
                && digit_byte(bytes[j + 2]) && digit_byte(bytes[j + 3]) {
                proof {
                    let b = bytes@;
                    assert forall|k: int| j <= k < j + 4 implies is_digit_byte(#[trigger] b[k]) by {
                        assert(k == j || k == j + 1 || k == j + 2 || k == j + 3);
                    }
                    assert(doubled_zone_sign_at(b, i as int, j as int));
                }
                return true;
            }
            proof {
                let b = bytes@;
                assert forall|s: int, jj: int| 1 <= s < j implies !#[trigger] doubled_zone_sign_at(b, s, jj) by {
                    if s > i {
                        assert(is_sign_byte(b[s - 1]));
                    } else if s == i && doubled_zone_sign_at(b, s, jj) {
                        if jj < j {
                            assert(is_sign_byte(b[jj]));
                            assert(is_digit_byte(b[jj]));
                        } else if jj > j {
                            assert(is_sign_byte(b[j as int]));
                        } else {
                            assert(is_digit_byte(b[jj]));
                            assert(is_digit_byte(b[jj + 1]));
                            assert(is_digit_byte(b[jj + 2]));
                            assert(is_digit_byte(b[jj + 3]));
                        }
                    }
                }
            }
            i = j;
        } else {
            proof {
                let b = bytes@;
                assert forall|jj: int| !#[trigger] doubled_zone_sign_at(b, i as int, jj) by {
                    if doubled_zone_sign_at(b, i as int, jj) {
                        assert(is_sign_byte(b[i as int]));
                    }
                }
            }
            i = i + 1;
        }
    }
    proof {
        let b = bytes@;
        assert forall|s: int, j: int| !doubled_zone_sign_at(b, s, j) by {
            if s >= i && doubled_zone_sign_at(b, s, j) {
                assert(s + 6 <= b.len());
            }
        }
    }
    false
}

/// `eml_codec::parse_message` on `bytes`: the parsed message, or `None` when
/// the bytes do not parse.  Claimed: it succeeds exactly when the named
/// [`eml_parses`] holds, and keeps the bytes it read.  The parser panics on a
/// time zone with a doubled sign in a `Date:` or `Received:` header (its
/// zone rule reads a run of `+` and `-` and then knows only `+` and `-`
/// alone); such a zone follows the time of day, so it is what
/// [`has_doubled_zone_sign`] finds, and such bytes are left out.
#[verifier::external_body]
fn parse_eml<'a>(bytes: &'a [u8]) -> (r: Option<ParsedEml<'a>>)
    requires
        !has_doubled_zone_sign(bytes@),
    ensures
        r is Some <==> eml_parses(bytes@),
        r matches Some(p) ==> p.bytes@ == bytes@,
{
    eml_codec::parse_message(bytes).ok().map(|(_, msg)| ParsedEml { bytes, msg })
}

/// The `Subject:` header as text, through `ToString` of
/// `eml_codec::text::misc_token::Unstructured`; the result is named.
#[verifier::external_body]
fn eml_subject(p: &ParsedEml<'_>) -> (r: Option<String>)
    ensures
        opt_view(r) == eml_subject_of(p.bytes@),
{
    p.msg.imf.subject.as_ref().map(|s| s.to_string())
}

/// The year of the `Date:` header, through `chrono::Datelike::year`; the
/// result is named.
#[verifier::external_body]
fn eml_date_year(p: &ParsedEml<'_>) -> (r: Option<i32>)
    ensures
        r == eml_year_of(p.bytes@),
{
    p.msg.imf.date.map(|d| chrono::Datelike::year(&d))
}

/// The `Date:` header in RFC 2822 form, through
/// `chrono::DateTime::to_rfc2822`; the result is named.  That function
/// panics outside the years 0 to 9999, which `requires` leaves out.
#[verifier::external_body]
fn eml_date(p: &ParsedEml<'_>) -> (r: String)
    requires
        eml_year_of(p.bytes@) matches Some(y) && 0 <= y <= 9999,
    ensures
        r@ == eml_date_of(p.bytes@),
{
    p.msg.imf.date.map(|d| d.to_rfc2822()).unwrap_or_default()
}

/// The `From:` mailboxes as text, through `ToString` of
/// `eml_codec::imf::mailbox::MailboxRef`; the result is named.
#[verifier::external_body]
fn eml_from(p: &ParsedEml<'_>) -> (r: Vec<String>)
    ensures
        views(r@) == eml_from_of(p.bytes@),
{
    p.msg.imf.from.iter().map(|x| x.to_string()).collect()
}

/// The `To:` addresses, each as the texts of its mailboxes (one for a
/// single mailbox, the participants for a group), through `ToString` of
/// `eml_codec::imf::mailbox::MailboxRef`; the result is named.
#[verifier::external_body]
fn eml_to(p: &ParsedEml<'_>) -> (r: Vec<Vec<String>>)
    ensures
        group_views(r@) == eml_to_of(p.bytes@),
{
    p.msg.imf.to.iter().map(|a| match a {
        AddressRef::Single(x) => vec![x.to_string()],
        AddressRef::Many(g) => g.participants.iter().map(|x| x.to_string()).collect(),
    }).collect()
}

/// The MIME tree of the message body (`part` is `None`), or of one of its
/// parts, as `eml_codec::part::AnyPart` holds it, variant by variant, with
/// the raw content-type subtype and body bytes copied out.  The tree of the
/// body is named.
#[verifier::external_body]
fn mime_tree<'a>(p: &ParsedEml<'a>, part: Option<&AnyPart<'a>>) -> (r: MimePart)
    ensures
        part is None ==> r == eml_tree_of(p.bytes@),
{
    let raw_subtype = |f: &eml_codec::mime::NaiveMIME<'_>| f.ctype.as_ref().map(|t| t.sub.to_vec());
    match part.unwrap_or(&p.msg.child) {
        AnyPart::Txt(t) => MimePart::Text { subtype: raw_subtype(&t.mime.fields), body: t.body.to_vec() },
        AnyPart::Mult(x) => MimePart::Multi {
            subtype: raw_subtype(&x.mime.fields),
            children: x.children.iter().map(|c| mime_tree(p, Some(c))).collect(),
        },
        AnyPart::Msg(x) => MimePart::Message { child: Box::new(mime_tree(p, Some(&x.child))) },
        AnyPart::Bin(_) => MimePart::Binary,
    }
}

/// What is read of an e-mail's headers and body.
#[derive(Debug)]
pub struct EmlFields {
    pub subject: Option<String>,
    /// The date in RFC 2822 form.
    pub date: Option<String>,
    /// The `From:` mailboxes.
    pub from: Vec<String>,
    /// The `To:` addresses, each with the mailboxes it stands for.
    pub to: Vec<Vec<String>>,
    pub body: MimePart,
}

/// The texts shown for an e-mail.
#[derive(Debug, Clone)]
pub struct EmlSummary {
    pub subject: String,
    pub date: String,
    pub from: String,
    pub to: String,
    pub body: String,
}

/// The text of an optional string, `dflt` when absent.
pub open spec fn text_or_default(o: Option<String>, dflt: Seq<char>) -> Seq<char> {
    match o {
        Some(s) => s@,
        None => dflt,
    }
}

/// Each address's mailboxes joined by `, `.
pub open spec fn address_texts(to: Seq<Vec<String>>) -> Seq<Seq<char>> {
    to.map_values(|a: Vec<String>| join(views(a@), ", "@))
}

/// The texts shown for an e-mail: subject (empty when missing), date
/// (`(unknown date)` when missing), senders and recipients joined by `, `,
/// and the most readable body text.
pub open spec fn summary_of(f: EmlFields) -> (Seq<char>, Seq<char>, Seq<char>, Seq<char>, Seq<char>) {
    (
        text_or_default(f.subject, Seq::empty()),
        text_or_default(f.date, "(unknown date)"@),
        join(views(f.from@), ", "@),
        join(address_texts(f.to@), ", "@),
        part_text(f.body),
    )
}

/// The texts of a summary.
pub open spec fn summary_view(s: EmlSummary) -> (Seq<char>, Seq<char>, Seq<char>, Seq<char>, Seq<char>) {
    (s.subject@, s.date@, s.from@, s.to@, s.body@)
}

/// The texts shown for an e-mail from what was read of it.
pub fn summarize_eml(f: &EmlFields) -> (r: EmlSummary)
    ensures
        summary_view(r) == summary_of(*f),
{
    let subject = match &f.subject {
        Some(s) => s.clone(),
        None => String::new(),
    };
    let date = match &f.date {
        Some(d) => d.clone(),
        None => string_of(&chars_of("(unknown date)")),
    };
    let from = string_of(&join_strings(&f.from, ", "));
    let mut groups: Vec<String> = Vec::new();
    let mut i: usize = 0;
    while i < f.to.len()
        invariant
            i <= f.to.len(),
            views(groups@) == address_texts(f.to@.take(i as int)),
        decreases f.to.len() - i,
    {
        let g = string_of(&join_strings(&f.to[i], ", "));
        let ghost before = views(groups@);
        groups.push(g);
        assert(views(groups@) =~= before.push(g@));
        assert(address_texts(f.to@.take(i + 1)) =~= address_texts(f.to@.take(i as int)).push(
            join(views(f.to@[i as int]@), ", "@),
        ));
        i = i + 1;
    }
    assert(f.to@.take(f.to.len() as int) =~= f.to@);
    let to = string_of(&join_strings(&groups, ", "));
    let body = eml_collect_body(&f.body);
    EmlSummary { subject, date, from, to, body }
}

/// The date shown for an e-mail: its RFC 2822 form when it has a date in
/// the years 0 to 9999, else `(unknown date)`.
pub open spec fn eml_date_text(bytes: Seq<u8>) -> Seq<char> {
    match eml_year_of(bytes) {
        Some(y) => if 0 <= y <= 9999 {
            eml_date_of(bytes)
        } else {
            "(unknown date)"@
        },
        None => "(unknown date)"@,
    }
}

/// The texts shown for the e-mail in `bytes`: subject (empty when
/// missing), date, senders joined by `, `, each recipient address's
/// mailboxes joined by `, ` and those joined by `, `, and the most
/// readable text of the body.
pub open spec fn eml_texts(bytes: Seq<u8>) -> (Seq<char>, Seq<char>, Seq<char>, Seq<char>, Seq<char>) {
    (
        match eml_subject_of(bytes) {
            Some(s) => s,
            None => Seq::empty(),
        },
        eml_date_text(bytes),
        join(eml_from_of(bytes), ", "@),
        join(eml_to_of(bytes).map_values(|a: Seq<Seq<char>>| join(a, ", "@)), ", "@),
        part_text(eml_tree_of(bytes)),
    )
}

/// The texts shown for an e-mail stored as bytes, or `None` when the bytes
/// do not parse as an e-mail or write a time zone with a doubled sign.
pub fn eml_summary(bytes: &[u8]) -> (r: Option<EmlSummary>)
    ensures
        r is Some <==> !has_doubled_zone_sign(bytes@) && eml_parses(bytes@),
        r matches Some(s) ==> summary_view(s) == eml_texts(bytes@),
{
    if find_doubled_zone_sign(bytes) {
        return None;
    }
    let p = parse_eml(bytes)?;
    let date = match eml_date_year(&p) {
        Some(y) => if 0 <= y && y <= 9999 {
            Some(eml_date(&p))
        } else {
            None
        },
        None => None,
    };
    let f = EmlFields {
        subject: eml_subject(&p),
        date,
        from: eml_from(&p),
        to: eml_to(&p),
        body: mime_tree(&p, None),
    };
    let s = summarize_eml(&f);
    assert(address_texts(f.to@) =~= eml_to_of(bytes@).map_values(|a: Seq<Seq<char>>| join(a, ", "@)));
    assert(summary_view(s) == eml_texts(bytes@));
    Some(s)
}

} // verus!
