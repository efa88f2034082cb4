//! The decisions of the command line: which outputs are wanted, whether an
//! output path names a folder, and the order of a flat message listing.

use vstd::prelude::*;
use crate::models::{EmailMessage, MessageModel, message_models};
use crate::sorting::{SortKey, lemma_stably_sorted_ext, stable_order, stably_sorted};
use crate::text::{ascii_lower, chars_of, ends_with, string_of, views};

verus! {

/// An ASCII letter folded to lower case; other characters unchanged.
pub open spec fn ascii_fold(c: char) -> int {
    if 'A' <= c && c <= 'Z' {
        (c as u32) + 32
    } else {
        c as u32 as int
    }
}

/// Equal up to ASCII case (what `str::eq_ignore_ascii_case` answers).
pub open spec fn eq_ignore_ascii_case(a: Seq<char>, b: Seq<char>) -> bool {
    a.len() == b.len() && forall|i: int| 0 <= i < a.len() ==> ascii_fold(#[trigger] a[i]) == ascii_fold(b[i])
}

fn fold(c: char) -> (r: u32)
    ensures
        r == ascii_fold(c),
{
    if c >= 'A' && c <= 'Z' {
        (c as u32) + 32
    } else {
        c as u32
    }
}

/// Whether two texts are equal up to ASCII case.
pub fn same_ignoring_ascii_case(a: &str, b: &str) -> (r: bool)
    ensures
        r == eq_ignore_ascii_case(a@, b@),
{
    let x = chars_of(a);
    let y = chars_of(b);
    if x.len() != y.len() {
        return false;
    }
    let mut i: usize = 0;
    while i < x.len()
        invariant
            i <= x.len() == y.len(),
            x@ == a@,
            y@ == b@,
            forall|j: int| 0 <= j < i ==> ascii_fold(#[trigger] x@[j]) == ascii_fold(y@[j]),
        decreases x.len() - i,
    {
        if fold(x[i]) != fold(y[i]) {
            return false;
        }
        i = i + 1;
    }
    true
}

/// One of the requested formats is `name`, up to ASCII case.
pub open spec fn requests(formats: Seq<Seq<char>>, name: Seq<char>) -> bool {
    exists|i: int| 0 <= i < formats.len() && eq_ignore_ascii_case(#[trigger] formats[i], name)
}

fn any_format(formats: &Vec<String>, name: &str) -> (r: bool)
    ensures
        r == requests(views(formats@), name@),
{
    let mut i: usize = 0;
    while i < formats.len()
        invariant
            i <= formats.len(),
            forall|j: int| 0 <= j < i ==> !eq_ignore_ascii_case(#[trigger] views(formats@)[j], name@),
        decreases formats.len() - i,
    {
        if same_ignoring_ascii_case(formats[i].as_str(), name) {
            assert(eq_ignore_ascii_case(views(formats@)[i as int], name@));
            return true;
        }
        i = i + 1;
    }
    false
}

/// The outputs the user asked for.
#[derive(Debug, Clone, Copy, PartialEq, Eq, Structural)]
pub struct OutputChoice {
    /// Only attachments are exported (`--as none`).
    pub attachments_only: bool,
    pub pdf: bool,
    pub text: bool,
}

/// Why the requested formats were refused.
#[derive(Debug, Clone, Copy, PartialEq, Eq, Structural)]
pub enum FormatError {
    /// `none` was given together with other formats.
    NoneCombined,
    /// `none` was given without an attachment folder.
    NoneWithoutAttachments,
    /// Neither `pdf` nor `text` was given.
    NoFormat,
}

/// The message printed for a format error.
pub open spec fn format_error_text(e: FormatError) -> Seq<char> {
    match e {
        FormatError::NoneCombined => "error: --as none cannot be combined with pdf or text"@,
        FormatError::NoneWithoutAttachments => "error: --as none requires --attachments"@,
        FormatError::NoFormat => "error: --as accepts 'pdf' and/or 'text' (e.g. --as pdf,text)"@,
    }
}

impl FormatError {
    /// The message printed for the error.
    pub fn message(&self) -> (r: String)
        ensures
            r@ == format_error_text(*self),
    {
        match self {
            FormatError::NoneCombined => string_of(
                &chars_of("error: --as none cannot be combined with pdf or text"),
            ),
            FormatError::NoneWithoutAttachments => string_of(
                &chars_of("error: --as none requires --attachments"),
            ),
            FormatError::NoFormat => string_of(
                &chars_of("error: --as accepts 'pdf' and/or 'text' (e.g. --as pdf,text)"),
            ),
        }
    }
}

/// The outcome of the `--as` formats: `none` must stand alone and needs an
/// attachment folder; otherwise `pdf` or `text` must be among them.
pub open spec fn output_choice(formats: Seq<Seq<char>>, has_attachments: bool) -> Result<OutputChoice, FormatError> {
    let none = requests(formats, "none"@);
    let pdf = requests(formats, "pdf"@);
    let text = requests(formats, "text"@);
    if none {
        if formats.len() != 1 {
            Err(FormatError::NoneCombined)
        } else if !has_attachments {
            Err(FormatError::NoneWithoutAttachments)
        } else {
            Ok(OutputChoice { attachments_only: true, pdf, text })
        }
    } else if !pdf && !text {
        Err(FormatError::NoFormat)
    } else {
        Ok(OutputChoice { attachments_only: false, pdf, text })
    }
}

/// Checks the `--as` formats against each other and the attachment folder.
pub fn choose_outputs(formats: &Vec<String>, has_attachments: bool) -> (r: Result<OutputChoice, FormatError>)
    ensures
        r == output_choice(views(formats@), has_attachments),
{
    let none = any_format(formats, "none");
    let pdf = any_format(formats, "pdf");
    let text = any_format(formats, "text");
    if none {
        if formats.len() != 1 {
            Err(FormatError::NoneCombined)
        } else if !has_attachments {
            Err(FormatError::NoneWithoutAttachments)
        } else {
            Ok(OutputChoice { attachments_only: true, pdf, text })
        }
    } else if !pdf && !text {
        Err(FormatError::NoFormat)
    } else {
        Ok(OutputChoice { attachments_only: false, pdf, text })
    }
}

/// An output path names a folder: it is one, or its text ends in a path
/// separator.
pub open spec fn names_folder(path: Seq<char>, is_dir: bool) -> bool {
    is_dir || ends_with(path, seq!['\\']) || ends_with(path, seq!['/'])
}

/// Whether an output path names a folder; `is_dir` tells whether it is an
/// existing folder.
pub fn is_dir_like(path: &str, is_dir: bool) -> (r: bool)
    ensures
        r == names_folder(path@, is_dir),
{
    let v = chars_of(path);
    let n = v.len();
    let r = is_dir || (n > 0 && (v[n - 1] == '\\' || v[n - 1] == '/'));
    if n > 0 {
        let ghost last = v@.subrange(n - 1, n as int);
        assert(last =~= seq![v@[n - 1]]);
        assert(last == seq!['\\'] ==> last[0] == '\\');
        assert(last == seq!['/'] ==> last[0] == '/');
        assert(v@[n - 1] == '\\' ==> last =~= seq!['\\']);
        assert(v@[n - 1] == '/' ==> last =~= seq!['/']);
    }
    r
}

/// The order of a flat listing: by date (undated first), then by node id.
pub open spec fn flat_key(m: MessageModel) -> (Option<i64>, u32) {
    (m.date, m.node_id)
}

/// The messages in flat order: a stable sort of `messages` by
/// [`flat_key`].
pub open spec fn flat_sorted(ms: Seq<MessageModel>, out: Seq<MessageModel>) -> bool {
    exists|ord: Seq<usize>|
        {
            &&& stably_sorted(ms.len(), |a: int, b: int| flat_key(ms[a]).key_lt(flat_key(ms[b])), ord)
            &&& out.len() == ord.len()
            &&& forall|t: int| 0 <= t < ord.len() ==> #[trigger] out[t] == ms[ord[t] as int]
        }
}

/// The messages ordered by date, then node id, keeping the input order
/// among equal keys.
pub fn sort_flat_messages(messages: Vec<EmailMessage>) -> (r: Vec<EmailMessage>)
    ensures
        flat_sorted(message_models(messages@), message_models(r@)),
{
    let ghost ms = message_models(messages@);
    let mut keys: Vec<(Option<i64>, u32)> = Vec::new();
    let mut i: usize = 0;
    while i < messages.len()
        invariant
            i <= messages.len(),
            ms == message_models(messages@),
            keys.len() == i,
            forall|j: int| 0 <= j < i ==> #[trigger] keys@[j] == flat_key(ms[j]),
        decreases messages.len() - i,
    {
        keys.push((messages[i].date, messages[i].node_id));
        i = i + 1;
    }
    let ord = stable_order(&keys);
    proof {
        lemma_stably_sorted_ext(
            keys.len() as nat,
            |a: int, b: int| keys@[a].key_lt(keys@[b]),
            |a: int, b: int| flat_key(ms[a]).key_lt(flat_key(ms[b])),
            ord@,
        );
    }
    let mut out: Vec<EmailMessage> = Vec::new();
    let mut j: usize = 0;
    while j < ord.len()
        invariant
            j <= ord.len() == messages.len(),
            ms == message_models(messages@),
            forall|t: int| 0 <= t < ord.len() ==> #[trigger] ord@[t] < messages.len(),
            out.len() == j,
            forall|t: int| 0 <= t < j ==> #[trigger] message_models(out@)[t] == ms[ord@[t] as int],
        decreases ord.len() - j,
    {
        let p = ord[j];
        let m = messages[p].with_reply_depth(messages[p].reply_depth);
        let ghost before = out@;
        out.push(m);
        proof {
            assert forall|t: int| 0 <= t < j + 1 implies #[trigger] message_models(out@)[t]
                == ms[ord@[t] as int] by {
                assert(message_models(out@)[t] == out@[t]@);
                if t < j {
                    assert(out@[t] == before[t]);
                    assert(message_models(before)[t] == before[t]@);
                } else {
                    assert(ms[p as int] == messages@[p as int]@);
                }
            }
        }
        j = j + 1;
    }
    assert(message_models(out@).len() == ord@.len());
    out
}

/// `f` spells the lower-case word `w` in any letter case.
pub open spec fn spells(f: Seq<char>, w: Seq<char>) -> bool {
    f.len() == w.len() && forall|i: int| 0 <= i < f.len() ==> ascii_lower(#[trigger] f[i]) == w[i]
}

/// Some requested format spells the word `w`.
pub open spec fn asks_for(formats: Seq<Seq<char>>, w: Seq<char>) -> bool {
    exists|i: int| 0 <= i < formats.len() && spells(#[trigger] formats[i], w)
}

proof fn lemma_fold_lower(c: char, l: char)
    requires
        'a' <= l <= 'z',
    ensures
        (ascii_fold(c) == ascii_fold(l)) == (ascii_lower(c) == l),
{
}

proof fn lemma_requests_word(formats: Seq<Seq<char>>, w: Seq<char>)
    requires
        forall|i: int| 0 <= i < w.len() ==> 'a' <= #[trigger] w[i] <= 'z',
    ensures
        requests(formats, w) == asks_for(formats, w),
{
    assert forall|f: Seq<char>| eq_ignore_ascii_case(f, w) == spells(f, w) by {
        if f.len() == w.len() {
            assert forall|i: int| 0 <= i < f.len() implies (ascii_fold(f[i]) == ascii_fold(w[i])) == (
            ascii_lower(f[i]) == w[i]) by {
                lemma_fold_lower(f[i], w[i]);
            }
        }
    }
    if requests(formats, w) {
        let i = choose|i: int| 0 <= i < formats.len() && eq_ignore_ascii_case(formats[i], w);
        assert(spells(formats[i], w));
    }
    if asks_for(formats, w) {
        let i = choose|i: int| 0 <= i < formats.len() && spells(formats[i], w);
        assert(eq_ignore_ascii_case(formats[i], w));
    }
}

/// What is written follows what was asked for: when the formats are
/// accepted, a PDF is made exactly when some format spells `pdf`, text
/// exactly when some spells `text`, and only attachments are exported
/// exactly when one spells `none`; an accepted choice always exports
/// something.  Formats that name `pdf` or `text` and not `none` are always
/// accepted.
pub proof fn law_outputs_follow_the_request(formats: Seq<Seq<char>>, has_attachments: bool)
    ensures
        output_choice(formats, has_attachments) matches Ok(c) ==> c.pdf == asks_for(
            formats,
            seq!['p', 'd', 'f'],
        ) && c.text == asks_for(formats, seq!['t', 'e', 'x', 't']) && c.attachments_only
            == asks_for(formats, seq!['n', 'o', 'n', 'e']),
        output_choice(formats, has_attachments) matches Ok(c) ==> c.attachments_only || c.pdf
            || c.text,
        !asks_for(formats, seq!['n', 'o', 'n', 'e']) && (asks_for(formats, seq!['p', 'd', 'f'])
            || asks_for(formats, seq!['t', 'e', 'x', 't'])) ==> output_choice(
            formats,
            has_attachments,
        ) is Ok,
{
    reveal_strlit("pdf");
    reveal_strlit("text");
    reveal_strlit("none");
    assert("pdf"@ =~= seq!['p', 'd', 'f']);
    assert("text"@ =~= seq!['t', 'e', 'x', 't']);
    assert("none"@ =~= seq!['n', 'o', 'n', 'e']);
    lemma_requests_word(formats, seq!['p', 'd', 'f']);
    lemma_requests_word(formats, seq!['t', 'e', 'x', 't']);
    lemma_requests_word(formats, seq!['n', 'o', 'n', 'e']);
}

} // verus!
