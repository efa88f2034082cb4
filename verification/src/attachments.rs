//! Attachment file names: sanitising a name and numbering it until it is
//! not yet taken in the output folder.

use std::collections::HashMap;
use vstd::prelude::*;
use crate::compressed::{
    gunzip_prefix, gzip_limited_of, gzip_prefix_of, has_gzip_magic, is_gzip_magic,
    is_wrapped_emf, looks_like_eml, looks_like_mail, strip_emf_wrapper, try_gunzip_limited,
    try_zip_find_eml, zip_eml_of, zip_has_eml, zip_holds_eml,
};
use crate::models::{opt_view, ConversationThread, ThreadModel, thread_models};
use crate::pst_reader::{PropValue, opt_prop_string, opt_prop_to_string};
use crate::text::{
    append_chars, append_str, chars_of, contains_string, decimal, decimal_chars, ends_with,
    has_suffix, lemma_decimal_injective, lower_text, slice_chars, string_of, to_lowercase, trim,
    trim_chars, views, zero_pad, zero_padded, is_ws, trim_start,
};

verus! {

broadcast use vstd::std_specs::hash::group_hash_axioms;

/// A path separator or NUL becomes `_` in a file name.
pub open spec fn safe_char(c: char) -> char {
    if c == '/' || c == '\\' || c == '\0' {
        '_'
    } else {
        c
    }
}

/// The file name used for an attachment name: separators and NULs replaced,
/// surrounding whitespace trimmed, and `attachment.bin` when nothing is left.
pub open spec fn safe_name(name: Seq<char>) -> Seq<char> {
    let t = trim(name.map_values(|c: char| safe_char(c)));
    if t.len() == 0 {
        "attachment.bin"@
    } else {
        t
    }
}

/// The index of the last `.` in `s`, or -1 when there is none.
pub open spec fn last_dot(s: Seq<char>) -> int
    decreases s.len(),
{
    if s.len() == 0 {
        -1
    } else if s.last() == '.' {
        s.len() - 1
    } else {
        last_dot(s.drop_last())
    }
}

/// The part of a file name before its last `.` (all of it without a `.`).
pub open spec fn name_stem(s: Seq<char>) -> Seq<char> {
    if last_dot(s) >= 0 {
        s.take(last_dot(s))
    } else {
        s
    }
}

/// The part of a file name from its last `.` on (empty without a `.`).
pub open spec fn name_ext(s: Seq<char>) -> Seq<char> {
    if last_dot(s) >= 0 {
        s.skip(last_dot(s))
    } else {
        Seq::empty()
    }
}

/// The `k`-th alternative of a taken file name: `stem_k.ext`.
pub open spec fn numbered_name(s: Seq<char>, k: nat) -> Seq<char> {
    name_stem(s) + "_"@ + decimal(k) + name_ext(s)
}

proof fn lemma_last_dot(s: Seq<char>)
    ensures
        -1 <= last_dot(s) < s.len(),
        last_dot(s) >= 0 ==> s[last_dot(s)] == '.',
    decreases s.len(),
{
    if s.len() > 0 && s.last() != '.' {
        lemma_last_dot(s.drop_last());
    }
}

/// Distinct numbers give distinct alternatives of a name.
proof fn lemma_numbered_injective(s: Seq<char>, a: nat, b: nat)
    requires
        numbered_name(s, a) == numbered_name(s, b),
    ensures
        a == b,
{
    reveal_strlit("_");
    let p = name_stem(s) + "_"@;
    let x = numbered_name(s, a);
    assert(x == p + decimal(a) + name_ext(s));
    assert(numbered_name(s, b) == p + decimal(b) + name_ext(s));
    assert(decimal(a).len() == decimal(b).len());
    assert(decimal(a) =~= x.subrange(p.len() as int, (p.len() + decimal(a).len()) as int));
    assert(decimal(b) =~= x.subrange(p.len() as int, (p.len() + decimal(b).len()) as int));
    lemma_decimal_injective(a, b);
}

/// When the alternatives `1..=n` of a name are all among `used`, `used`
/// holds at least `n` names.
proof fn lemma_alternatives_fit(s: Seq<char>, used: Seq<Seq<char>>, n: nat)
    requires
        forall|j: nat| 1 <= j <= n ==> used.contains(#[trigger] numbered_name(s, j)),
    ensures
        n <= used.len(),
{
    let cs = Seq::new(n, |i: int| numbered_name(s, (i + 1) as nat));
    assert forall|p: int, q: int| 0 <= p < q < cs.len() implies cs[p] != cs[q] by {
        if cs[p] == cs[q] {
            lemma_numbered_injective(s, (p + 1) as nat, (q + 1) as nat);
        }
    }
    assert(cs.no_duplicates());
    cs.unique_seq_to_set();
    used.lemma_cardinality_of_set();
    assert forall|x: Seq<char>| cs.to_set().contains(x) implies used.to_set().contains(x) by {
        let i = choose|i: int| 0 <= i < cs.len() && cs[i] == x;
        assert(numbered_name(s, (i + 1) as nat) == x);
        assert(used.contains(numbered_name(s, (i + 1) as nat)));
    }
    vstd::seq_lib::seq_to_set_is_finite(used);
    vstd::set_lib::lemma_len_subset(cs.to_set(), used.to_set());
}

fn safe_chars(v: &Vec<char>) -> (r: Vec<char>)
    ensures
        r@ == v@.map_values(|c: char| safe_char(c)),
{
    let mut r: Vec<char> = Vec::new();
    let mut i: usize = 0;
    while i < v.len()
        invariant
            i <= v.len(),
            r@ == v@.take(i as int).map_values(|c: char| safe_char(c)),
        decreases v.len() - i,
    {
        let c = v[i];
        let d = if c == '/' || c == '\\' || c == '\0' {
            '_'
        } else {
            c
        };
        r.push(d);
        assert(v@.take(i + 1).map_values(|c: char| safe_char(c)) =~= v@.take(i as int).map_values(
            |c: char| safe_char(c),
        ).push(d));
        i = i + 1;
    }
    assert(v@.take(v.len() as int) =~= v@);
    r
}

/// The index of the last `.` of `v`, if any.
fn find_last_dot(v: &Vec<char>) -> (r: Option<usize>)
    ensures
        match r {
            Some(i) => last_dot(v@) == i,
            None => last_dot(v@) == -1,
        },
{
    let mut j: usize = v.len();
    assert(v@.take(j as int) =~= v@);
    while j > 0
        invariant
            j <= v.len(),
            last_dot(v@) == last_dot(v@.take(j as int)),
        decreases j,
    {
        assert(v@.take(j as int).last() == v@[j - 1]);
        if v[j - 1] == '.' {
            return Some(j - 1);
        }
        assert(v@.take(j as int).drop_last() =~= v@.take(j - 1));
        j = j - 1;
    }
    None
}

/// A file name for an attachment that is not yet in `used`, which records
/// it: the sanitised name if it is free, else the first free alternative
/// `stem_1.ext`, `stem_2.ext`, ...
pub fn unique_filename(name: &str, used: &mut Vec<String>) -> (r: String)
    requires
        old(used).len() < usize::MAX,
    ensures
        final(used)@ == old(used)@.push(r),
        !views(old(used)@).contains(r@),
        !views(old(used)@).contains(safe_name(name@)) ==> r@ == safe_name(name@),
        views(old(used)@).contains(safe_name(name@)) ==> exists|k: nat|
            k >= 1 && r@ == numbered_name(safe_name(name@), k) && forall|j: nat|
                1 <= j < k ==> views(old(used)@).contains(#[trigger] numbered_name(
                    safe_name(name@),
                    j,
                )),
{
    let cs = chars_of(name);
    let mapped = safe_chars(&cs);
    let t = trim_chars(&mapped);
    let safe_v = if t.len() == 0 {
        chars_of("attachment.bin")
    } else {
        t
    };
    let ghost s = safe_name(name@);
    assert(safe_v@ == s);
    let safe = string_of(&safe_v);
    if !contains_string(used, &safe) {
        used.push(safe.clone());
        return safe;
    }
    let (stem, ext) = match find_last_dot(&safe_v) {
        Some(d) => {
            proof {
                lemma_last_dot(safe_v@);
            }
            (slice_chars(&safe_v, 0, d), slice_chars(&safe_v, d, safe_v.len()))
        },
        None => (slice_chars(&safe_v, 0, safe_v.len()), Vec::new()),
    };
    assert(stem@ == name_stem(s));
    assert(ext@ == name_ext(s));
    let ghost old_used = views(used@);
    let mut counter: u64 = 1;
    loop
        invariant
            1 <= counter <= used.len() + 1,
            used.len() < usize::MAX,
            views(used@) == old_used,
            used@ == old(used)@,
            s == safe_name(name@),
            old_used == views(old(used)@),
            old_used.contains(s),
            stem@ == name_stem(s),
            ext@ == name_ext(s),
            forall|j: nat| 1 <= j < counter ==> old_used.contains(#[trigger] numbered_name(s, j)),
        decreases used.len() + 1 - counter,
    {
        let mut cand_v = stem.clone();
        append_str(&mut cand_v, "_");
        let digits = decimal_chars(counter);
        append_chars(&mut cand_v, &digits);
        append_chars(&mut cand_v, &ext);
        proof {
            reveal_strlit("_");
        }
        assert(cand_v@ =~= numbered_name(s, counter as nat));
        let cand = string_of(&cand_v);
        if !contains_string(used, &cand) {
            used.push(cand.clone());
            assert(cand@ == numbered_name(s, counter as nat));
            return cand;
        }
        proof {
            assert forall|j: nat| 1 <= j <= counter implies old_used.contains(
                #[trigger] numbered_name(s, j),
            ) by {}
            lemma_alternatives_fit(s, old_used, counter as nat);
        }
        counter = counter + 1;
    }
}

/// Names handed out by [`unique_filename`] stay distinct: a list of taken
/// names without repetition, extended by a name it did not hold, still has
/// no repetition.
pub proof fn law_taken_names_stay_distinct(used: Seq<String>, name: String)
    requires
        views(used).no_duplicates(),
        !views(used).contains(name@),
    ensures
        views(used.push(name)).no_duplicates(),
{
    assert(views(used.push(name)) =~= views(used).push(name@));
    assert forall|p: int, q: int| 0 <= p < q < views(used.push(name)).len() implies views(
        used.push(name),
    )[p] != views(used.push(name))[q] by {
        if q == views(used).len() {
            assert(views(used)[p] == views(used.push(name))[p]);
        }
    }
}

/// The name an attachment is stored under: its long file name, else its
/// short file name, else `attachment.bin`.
pub open spec fn raw_attachment_name(long: Option<PropValue>, short: Option<PropValue>) -> Seq<char> {
    match opt_prop_string(long) {
        Some(s) => s,
        None => match opt_prop_string(short) {
            Some(s) => s,
            None => "attachment.bin"@,
        },
    }
}

/// The name an attachment is stored under.
pub fn attachment_raw_name(long: &Option<PropValue>, short: &Option<PropValue>) -> (r: String)
    ensures
        r@ == raw_attachment_name(*long, *short),
{
    match opt_prop_to_string(long) {
        Some(s) => s,
        None => match opt_prop_to_string(short) {
            Some(s) => s,
            None => string_of(&chars_of("attachment.bin")),
        },
    }
}

/// `t` is a non-empty run of consecutive characters of `name` without a
/// `/`: what a file stem of `name` can be on any platform.
pub open spec fn stem_piece(t: Seq<char>, name: Seq<char>) -> bool {
    &&& t.len() > 0
    &&& !t.contains('/')
    &&& exists|i: int| 0 <= i && i + t.len() <= name.len() && #[trigger] name.subrange(i, i + t.len()) == t
}

/// A name without `/`, `\` or `:`: on every platform it is a single path
/// component.
pub open spec fn plain_name(s: Seq<char>) -> bool {
    !s.contains('/') && !s.contains('\\') && !s.contains(':')
}

/// The file stem of a single-component name, as std documents
/// `Path::file_stem`: none for an empty name, `.` or `..`; the whole name
/// when it has no `.` or only a leading one; else the part before its last
/// `.`.
pub open spec fn file_stem_of(s: Seq<char>) -> Option<Seq<char>> {
    if s.len() == 0 || s == "."@ || s == ".."@ {
        None
    } else if last_dot(s) <= 0 {
        Some(s)
    } else {
        Some(s.take(last_dot(s)))
    }
}

/// `std::path::Path::file_stem` of a name, when it has one that is UTF-8.
/// Claimed, as std documents it: a stem is a non-empty part of the name's
/// last component (the whole component, or what comes before its last
/// `.`), so a run of the name's characters without `/`; for a name that is
/// a single component on every platform it is [`file_stem_of`].  How other
/// names split into components depends on the platform and is not claimed.
#[verifier::external_body]
fn path_file_stem(name: &str) -> (r: Option<String>)
    ensures
        r matches Some(t) ==> stem_piece(t@, name@),
        plain_name(name@) ==> opt_view(r) == file_stem_of(name@),
{
    std::path::Path::new(name).file_stem().and_then(|x| x.to_str()).map(|x| x.to_string())
}

/// The stem of an attachment name: its file stem, or the whole name when it
/// has none.
pub fn attachment_stem(raw_name: &str) -> (r: String)
    ensures
        r@ == raw_name@ || stem_piece(r@, raw_name@),
        plain_name(raw_name@) ==> r@ == match file_stem_of(raw_name@) {
            Some(t) => t,
            None => raw_name@,
        },
{
    match path_file_stem(raw_name) {
        Some(s) => s,
        None => string_of(&chars_of(raw_name)),
    }
}

/// How one attempt to save an attachment gets its content.
#[derive(Debug)]
pub enum WritePayload {
    /// The attachment's own bytes.
    AsStored,
    /// These bytes.
    Bytes(Vec<u8>),
    /// The PDF rendering of the e-mail in these bytes; the attempt is passed
    /// over when they do not parse as an e-mail.
    EmlPdf(Vec<u8>),
    /// The attachment's gzip content, decompressed while it is written.
    GunzipStream,
    /// The first `.eml` entry of the attachment's zip archive, copied while
    /// it is written.
    ZipEmlStream,
}

/// One attempt to save an attachment: the file name wanted (before it is
/// made unique) and the content.
#[derive(Debug)]
pub struct WriteAttempt {
    pub name: String,
    pub payload: WritePayload,
}

/// The content of an attempt, with bytes taken by value.
pub enum PayloadModel {
    AsStored,
    Bytes(Seq<u8>),
    EmlPdf(Seq<u8>),
    GunzipStream,
    ZipEmlStream,
}

pub open spec fn payload_view(p: WritePayload) -> PayloadModel {
    match p {
        WritePayload::AsStored => PayloadModel::AsStored,
        WritePayload::Bytes(b) => PayloadModel::Bytes(b@),
        WritePayload::EmlPdf(b) => PayloadModel::EmlPdf(b@),
        WritePayload::GunzipStream => PayloadModel::GunzipStream,
        WritePayload::ZipEmlStream => PayloadModel::ZipEmlStream,
    }
}

/// The attempts of a plan, as (wanted name, content).
pub open spec fn attempt_views(v: Seq<WriteAttempt>) -> Seq<(Seq<char>, PayloadModel)> {
    v.map_values(|a: WriteAttempt| (a.name@, payload_view(a.payload)))
}

/// A PDF of an e-mail, then the e-mail itself, under the stem `base`.
pub open spec fn mail_attempts(e: Seq<u8>, base: Seq<char>) -> Seq<(Seq<char>, PayloadModel)> {
    seq![(base + ".pdf"@, PayloadModel::EmlPdf(e)), (base + ".eml"@, PayloadModel::Bytes(e))]
}

/// The attempts for a gzip-compressed picture attachment: an e-mail inside
/// (judged by the first bytes of the content) is kept as a PDF or as
/// `.eml`, streamed when it is too large; other content is kept as a bare
/// EMF picture when it is one, else under the attachment's name, streamed
/// when too large (as `.emf` when its first bytes show a wrapped EMF).
pub open spec fn gzip_attempts(b: Seq<u8>, raw: Seq<char>, stem: Seq<char>, pre: Seq<char>) -> Seq<(Seq<char>, PayloadModel)> {
    let head = match gzip_prefix_of(b) {
        Some(v) => v,
        None => Seq::empty(),
    };
    if looks_like_mail(head) {
        match gzip_limited_of(b) {
            Some(e) => mail_attempts(e, pre + stem),
            None => seq![(pre + stem + ".eml"@, PayloadModel::GunzipStream)],
        }
    } else {
        match gzip_limited_of(b) {
            Some(d) => (if is_wrapped_emf(d) {
                seq![(pre + stem + ".emf"@, PayloadModel::Bytes(d.skip(32)))]
            } else {
                Seq::empty()
            }) + seq![(pre + raw, PayloadModel::Bytes(d))],
            None => seq![
                (if is_wrapped_emf(head) {
                    pre + stem + ".emf"@
                } else {
                    pre + raw
                }, PayloadModel::GunzipStream),
            ],
        }
    }
}

/// The attempts for an `.emz` attachment, in order: a bare wrapped EMF
/// picture; the `.eml` entry of a zip archive (as PDF, as `.eml`, or
/// streamed when too large); the content of a gzip stream; and last the
/// attachment's own bytes.
pub open spec fn emz_plan(b: Seq<u8>, raw: Seq<char>, stem: Seq<char>, pre: Seq<char>) -> Seq<(Seq<char>, PayloadModel)> {
    let emf = if is_wrapped_emf(b) {
        seq![(pre + stem + ".emf"@, PayloadModel::Bytes(b.skip(32)))]
    } else {
        Seq::empty()
    };
    let zipped = if zip_holds_eml(b) {
        match zip_eml_of(b) {
            Some(e) => mail_attempts(e, pre + stem),
            None => seq![(pre + stem + ".eml"@, PayloadModel::ZipEmlStream)],
        }
    } else {
        Seq::empty()
    };
    let gz = if has_gzip_magic(b) {
        gzip_attempts(b, raw, stem, pre)
    } else {
        Seq::empty()
    };
    emf + zipped + gz + seq![(pre + raw, PayloadModel::AsStored)]
}

/// The attempts for saving an attachment with the bytes `b`, the name
/// `raw` (whose stem is `stem`) and the file-name prefix `pre`, in the order
/// they are tried until one is written: none for empty content; for an
/// `.eml` attachment its PDF, then its bytes; for an `.emz` attachment the
/// steps of [`emz_plan`]; for any other its bytes.
pub open spec fn attachment_plan(b: Seq<u8>, raw: Seq<char>, stem: Seq<char>, pre: Seq<char>) -> Seq<(Seq<char>, PayloadModel)> {
    if b.len() == 0 {
        Seq::empty()
    } else if ends_with(lower_text(raw), ".eml"@) {
        seq![(pre + stem + ".pdf"@, PayloadModel::EmlPdf(b)), (pre + raw, PayloadModel::AsStored)]
    } else if ends_with(lower_text(raw), ".emz"@) {
        emz_plan(b, raw, stem, pre)
    } else {
        seq![(pre + raw, PayloadModel::AsStored)]
    }
}

fn name3(a: &str, b: &str, c: &str) -> (r: String)
    ensures
        r@ == a@ + b@ + c@,
{
    let mut v = chars_of(a);
    append_str(&mut v, b);
    append_str(&mut v, c);
    string_of(&v)
}

fn push_attempt(plan: &mut Vec<WriteAttempt>, name: String, payload: WritePayload)
    ensures
        attempt_views(final(plan)@) == attempt_views(old(plan)@).push((name@, payload_view(payload))),
{
    let a = WriteAttempt { name, payload };
    plan.push(a);
    assert(attempt_views(plan@) =~= attempt_views(old(plan)@).push((a.name@, payload_view(a.payload))));
}

fn push_mail_attempts(plan: &mut Vec<WriteAttempt>, e: Vec<u8>, prefix: &str, stem: &str)
    ensures
        attempt_views(final(plan)@) == attempt_views(old(plan)@) + mail_attempts(e@, prefix@ + stem@),
{
    let copy = vstd::slice::slice_to_vec(e.as_slice());
    push_attempt(plan, name3(prefix, stem, ".pdf"), WritePayload::EmlPdf(copy));
    push_attempt(plan, name3(prefix, stem, ".eml"), WritePayload::Bytes(e));
    assert(attempt_views(plan@) =~= attempt_views(old(plan)@) + mail_attempts(e@, prefix@ + stem@));
}

fn push_gzip_attempts(plan: &mut Vec<WriteAttempt>, bytes: &[u8], raw_name: &str, stem: &str, prefix: &str)
    ensures
        attempt_views(final(plan)@) == attempt_views(old(plan)@) + gzip_attempts(
            bytes@,
            raw_name@,
            stem@,
            prefix@,
        ),
{
    let head = match gunzip_prefix(bytes) {
        Some(v) => v,
        None => Vec::new(),
    };
    proof {
        reveal_strlit("");
    }
    let ghost p0 = attempt_views(plan@);
    if looks_like_eml(head.as_slice()) {
        match try_gunzip_limited(bytes) {
            Some(e) => push_mail_attempts(plan, e, prefix, stem),
            None => {
                push_attempt(plan, name3(prefix, stem, ".eml"), WritePayload::GunzipStream);
                assert(attempt_views(plan@) =~= p0 + gzip_attempts(bytes@, raw_name@, stem@, prefix@));
            },
        }
    } else {
        match try_gunzip_limited(bytes) {
            Some(d) => {
                match strip_emf_wrapper(d.as_slice()) {
                    Some(emf) => push_attempt(
                        plan,
                        name3(prefix, stem, ".emf"),
                        WritePayload::Bytes(vstd::slice::slice_to_vec(emf)),
                    ),
                    None => {},
                }
                let ghost p1 = attempt_views(plan@);
                push_attempt(plan, name3(prefix, raw_name, ""), WritePayload::Bytes(d));
                assert(attempt_views(plan@) =~= p0 + gzip_attempts(bytes@, raw_name@, stem@, prefix@));
            },
            None => {
                let name = match strip_emf_wrapper(head.as_slice()) {
                    Some(_) => name3(prefix, stem, ".emf"),
                    None => name3(prefix, raw_name, ""),
                };
                push_attempt(plan, name, WritePayload::GunzipStream);
                assert(attempt_views(plan@) =~= p0 + gzip_attempts(bytes@, raw_name@, stem@, prefix@));
            },
        }
    }
}

/// The attempts for saving an `.emz` attachment, in the order they are
/// tried.
pub fn emz_attempts(bytes: &[u8], raw_name: &str, stem: &str, prefix: &str) -> (r: Vec<WriteAttempt>)
    ensures
        attempt_views(r@) == emz_plan(bytes@, raw_name@, stem@, prefix@),
{
    proof {
        reveal_strlit("");
    }
    let mut plan: Vec<WriteAttempt> = Vec::new();
    match strip_emf_wrapper(bytes) {
        Some(emf) => push_attempt(
            &mut plan,
            name3(prefix, stem, ".emf"),
            WritePayload::Bytes(vstd::slice::slice_to_vec(emf)),
        ),
        None => {},
    }
    let ghost p0 = attempt_views(plan@);
    if zip_has_eml(bytes) {
        match try_zip_find_eml(bytes) {
            Some(e) => push_mail_attempts(&mut plan, e, prefix, stem),
            None => push_attempt(&mut plan, name3(prefix, stem, ".eml"), WritePayload::ZipEmlStream),
        }
    }
    let ghost p1 = attempt_views(plan@);
    if is_gzip_magic(bytes) {
        push_gzip_attempts(&mut plan, bytes, raw_name, stem, prefix);
    } else {
        assert(p1 + Seq::<(Seq<char>, PayloadModel)>::empty() =~= p1);
    }
    push_attempt(&mut plan, name3(prefix, raw_name, ""), WritePayload::AsStored);
    assert(attempt_views(plan@) =~= emz_plan(bytes@, raw_name@, stem@, prefix@));
    plan
}

/// The attempts for saving an attachment, in the order they are tried
/// until one is written; `stem` is the stem of `raw_name` and `prefix` goes
/// before every file name.
pub fn attachment_attempts(bytes: &[u8], raw_name: &str, stem: &str, prefix: &str) -> (r: Vec<WriteAttempt>)
    ensures
        attempt_views(r@) == attachment_plan(bytes@, raw_name@, stem@, prefix@),
{
    proof {
        reveal_strlit("");
    }
    let mut plan: Vec<WriteAttempt> = Vec::new();
    if bytes.len() == 0 {
        assert(attempt_views(plan@) =~= Seq::<(Seq<char>, PayloadModel)>::empty());
        return plan;
    }
    let lower = to_lowercase(raw_name);
    let l = chars_of(lower.as_str());
    if has_suffix(&l, &chars_of(".eml")) {
        push_attempt(
            &mut plan,
            name3(prefix, stem, ".pdf"),
            WritePayload::EmlPdf(vstd::slice::slice_to_vec(bytes)),
        );
        push_attempt(&mut plan, name3(prefix, raw_name, ""), WritePayload::AsStored);
    } else if has_suffix(&l, &chars_of(".emz")) {
        return emz_attempts(bytes, raw_name, stem, prefix);
    } else {
        push_attempt(&mut plan, name3(prefix, raw_name, ""), WritePayload::AsStored);
    }
    assert(attempt_views(plan@) =~= attachment_plan(bytes@, raw_name@, stem@, prefix@));
    plan
}

/// What happens next while the attempts of a plan are made in order.
#[derive(Debug, PartialEq, Eq, Structural)]
pub enum AttemptStep {
    /// Make the attempt with this index.
    Try(usize),
    /// Stop: whether an attempt was written.
    Done(bool),
}

/// The step after attempt `index` of `count`: stop at the first attempt that
/// was written, else go on to the next one, and stop unwritten after the last.
pub open spec fn next_step(index: int, count: int, written: bool) -> AttemptStep {
    if written {
        AttemptStep::Done(true)
    } else if index + 1 < count {
        AttemptStep::Try((index + 1) as usize)
    } else {
        AttemptStep::Done(false)
    }
}

/// The first step of a plan of `count` attempts: the first attempt, or stop
/// unwritten when there is none.
pub fn first_step(count: usize) -> (r: AttemptStep)
    ensures
        r == (if count == 0 { AttemptStep::Done(false) } else { AttemptStep::Try(0) }),
{
    if count == 0 {
        AttemptStep::Done(false)
    } else {
        AttemptStep::Try(0)
    }
}

/// The step after attempt `index` of `count`, given whether it was written
/// (see [`next_step`]).
pub fn after_attempt(index: usize, count: usize, written: bool) -> (r: AttemptStep)
    requires
        index < count,
    ensures
        r == next_step(index as int, count as int, written),
{
    if written {
        AttemptStep::Done(true)
    } else if index + 1 < count {
        AttemptStep::Try(index + 1)
    } else {
        AttemptStep::Done(false)
    }
}

/// Following [`next_step`] from attempt `i`, where `outcomes[k]` is whether
/// attempt `k` gets written: how many attempts are made and whether one was
/// written.
pub open spec fn run_from(outcomes: Seq<bool>, i: int) -> (nat, bool)
    decreases outcomes.len() - i,
{
    if i < 0 || i >= outcomes.len() {
        (0, false)
    } else {
        match next_step(i, outcomes.len() as int, outcomes[i]) {
            AttemptStep::Done(w) => (1, w),
            AttemptStep::Try(_) => (run_from(outcomes, i + 1).0 + 1, run_from(outcomes, i + 1).1),
        }
    }
}

/// Attempts made in order from the first: the run writes something exactly
/// when some attempt can be written, and it stops at the first one that is
/// (no attempt after it is made); when none is, every attempt is made.
pub proof fn law_first_written_attempt_wins(outcomes: Seq<bool>)
    ensures
        run_from(outcomes, 0).1 <==> outcomes.contains(true),
        forall|k: int|
            0 <= k < outcomes.len() && #[trigger] outcomes[k] && (forall|m: int| 0 <= m < k ==> !outcomes[m])
                ==> run_from(outcomes, 0).0 == k + 1,
        !outcomes.contains(true) ==> run_from(outcomes, 0).0 == outcomes.len(),
{
    lemma_run_from(outcomes, 0);
}

proof fn lemma_run_from(outcomes: Seq<bool>, i: int)
    requires
        0 <= i <= outcomes.len(),
    ensures
        run_from(outcomes, i).1 <==> exists|k: int| i <= k < outcomes.len() && #[trigger] outcomes[k],
        forall|k: int|
            i <= k < outcomes.len() && #[trigger] outcomes[k] && (forall|m: int| i <= m < k ==> !outcomes[m])
                ==> run_from(outcomes, i).0 == k - i + 1,
        (forall|k: int| i <= k < outcomes.len() ==> !outcomes[k]) ==> run_from(outcomes, i).0 == outcomes.len() - i,
    decreases outcomes.len() - i,
{
    if i < outcomes.len() {
        lemma_run_from(outcomes, i + 1);
        if !outcomes[i] && i + 1 < outcomes.len() {
            assert forall|k: int|
                i <= k < outcomes.len() && #[trigger] outcomes[k] && (forall|m: int| i <= m < k ==> !outcomes[m])
                    implies run_from(outcomes, i).0 == k - i + 1 by {
                assert(k != i);
                assert forall|m: int| i + 1 <= m < k implies !outcomes[m] by {}
            }
        }
    }
}

/// The conversation holds a message with node id `nid`.
pub open spec fn thread_has_node(t: ThreadModel, nid: u32) -> bool {
    exists|i: int| 0 <= i < t.messages.len() && #[trigger] t.messages[i].node_id == nid
}

/// The 1-based number of the last conversation that holds a message with
/// node id `nid`, if any.
pub open spec fn thread_number_of(ts: Seq<ThreadModel>, nid: u32) -> Option<nat>
    decreases ts.len(),
{
    if ts.len() == 0 {
        None
    } else if thread_has_node(ts.last(), nid) {
        Some(ts.len())
    } else {
        thread_number_of(ts.drop_last(), nid)
    }
}

/// One of the first `j` messages of the conversation has node id `nid`.
pub open spec fn node_among(t: ThreadModel, j: int, nid: u32) -> bool {
    exists|k: int| 0 <= k < j && #[trigger] t.messages[k].node_id == nid
}

/// The 1-based number of the conversation under which each message's
/// attachments are filed, by node id: the last conversation that holds the
/// message.
pub fn thread_numbers(threads: &Vec<ConversationThread>) -> (r: HashMap<u32, usize>)
    ensures
        forall|nid: u32|
            #[trigger] r@.contains_key(nid) == (thread_number_of(thread_models(threads@), nid) is Some),
        forall|nid: u32|
            r@.contains_key(nid) ==> thread_number_of(thread_models(threads@), nid) == Some(
                #[trigger] r@[nid] as nat,
            ),
{
    let ghost ts = thread_models(threads@);
    let mut numbers: HashMap<u32, usize> = HashMap::new();
    let mut i: usize = 0;
    while i < threads.len()
        invariant
            i <= threads.len(),
            ts == thread_models(threads@),
            forall|nid: u32|
                #[trigger] numbers@.contains_key(nid) == (thread_number_of(ts.take(i as int), nid) is Some),
            forall|nid: u32|
                numbers@.contains_key(nid) ==> thread_number_of(ts.take(i as int), nid) == Some(
                    #[trigger] numbers@[nid] as nat,
                ),
        decreases threads.len() - i,
    {
        let t = &threads[i];
        let ghost tm = ts[i as int];
        assert(tm == t@);
        let mut j: usize = 0;
        while j < t.messages.len()
            invariant
                i < threads.len(),
                j <= t.messages.len(),
                ts == thread_models(threads@),
                tm == t@,
                forall|nid: u32|
                    #[trigger] numbers@.contains_key(nid) == (node_among(tm, j as int, nid)
                        || thread_number_of(ts.take(i as int), nid) is Some),
                forall|nid: u32|
                    numbers@.contains_key(nid) ==> (if node_among(tm, j as int, nid) {
                        #[trigger] numbers@[nid] == i + 1
                    } else {
                        thread_number_of(ts.take(i as int), nid) == Some(numbers@[nid] as nat)
                    }),
            decreases t.messages.len() - j,
        {
            let nid = t.messages[j].node_id;
            assert(tm.messages[j as int].node_id == nid);
            numbers.insert(nid, i + 1);
            assert forall|x: u32| node_among(tm, j + 1, x) == (node_among(tm, j as int, x) || x == nid) by {
                if node_among(tm, j + 1, x) && !node_among(tm, j as int, x) {
                    let k = choose|k: int| 0 <= k < j + 1 && #[trigger] tm.messages[k].node_id == x;
                    assert(k == j);
                }
                if x == nid {
                    assert(tm.messages[j as int].node_id == x);
                }
            }
            j = j + 1;
        }
        proof {
            assert(ts.take(i + 1).drop_last() =~= ts.take(i as int));
            assert(ts.take(i + 1).last() == tm);
            assert forall|x: u32| node_among(tm, tm.messages.len() as int, x) == thread_has_node(tm, x) by {
                if thread_has_node(tm, x) {
                    let k = choose|k: int| 0 <= k < tm.messages.len() && #[trigger] tm.messages[k].node_id == x;
                    assert(tm.messages[k].node_id == x);
                }
            }
        }
        i = i + 1;
    }
    assert(ts.take(threads.len() as int) =~= ts);
    numbers
}

/// `<stem>-<number padded to five digits>-`, the prefix of the files of a
/// conversation's attachments.
pub fn thread_attachment_prefix(stem: &str, number: u64) -> (r: String)
    ensures
        r@ == stem@ + seq!['-'] + zero_pad(decimal(number as nat), 5) + seq!['-'],
{
    let mut v: Vec<char> = chars_of(stem);
    v.push('-');
    append_chars(&mut v, &zero_padded(number, 5));
    v.push('-');
    string_of(&v)
}

/// An extension written in a filter rule: without a leading `.`, lower-cased.
pub open spec fn rule_ext(s: Seq<char>) -> Seq<char> {
    lower_text(if s.len() > 0 && s[0] == '.' { s.drop_first() } else { s })
}

/// The extensions to keep and to skip of the `--filter` rules: a rule
/// `-ext` skips `ext`, any other rule keeps it; blank rules count for
/// nothing.
pub open spec fn filter_rules(specs: Seq<Seq<char>>) -> (Seq<Seq<char>>, Seq<Seq<char>>)
    decreases specs.len(),
{
    if specs.len() == 0 {
        (Seq::empty(), Seq::empty())
    } else {
        let prev = filter_rules(specs.drop_last());
        let t = trim(specs.last());
        if t.len() == 0 {
            prev
        } else if t[0] == '-' {
            let e = trim(t.drop_first());
            if e.len() == 0 {
                prev
            } else {
                (prev.0, prev.1.push(rule_ext(e)))
            }
        } else {
            (prev.0.push(rule_ext(t)), prev.1)
        }
    }
}

/// The extension of a file name, lower-cased: what follows its last `.`,
/// empty when it has none.
pub open spec fn file_ext(name: Seq<char>) -> Seq<char> {
    lower_text(if last_dot(name) >= 0 { name.skip(last_dot(name) + 1) } else { Seq::empty() })
}

/// Which attachments are exported, by extension: with rules that name
/// extensions to keep, only those; never one named to skip.
#[derive(Debug, Clone)]
pub struct AttachmentFilter {
    pub keep: Vec<String>,
    pub skip: Vec<String>,
}

/// An attachment name passes the filter with the extensions to keep and to
/// skip.
pub open spec fn passes(keep: Seq<Seq<char>>, skip: Seq<Seq<char>>, name: Seq<char>) -> bool {
    (keep.len() == 0 || keep.contains(file_ext(name))) && !skip.contains(file_ext(name))
}

proof fn lemma_last_dot_before_ext(stem: Seq<char>, e: Seq<char>)
    requires
        !e.contains('.'),
    ensures
        last_dot(stem + seq!['.'] + e) == stem.len(),
    decreases e.len(),
{
    let n = stem + seq!['.'] + e;
    if e.len() == 0 {
        assert(n.last() == '.');
    } else {
        assert(n.last() == e.last());
        assert(e.last() != '.') by {
            if e.last() == '.' {
                assert(e.contains('.'));
            }
        }
        assert(n.drop_last() =~= stem + seq!['.'] + e.drop_last());
        assert(!e.drop_last().contains('.')) by {
            if e.drop_last().contains('.') {
                let i = choose|i: int| 0 <= i < e.drop_last().len() && e.drop_last()[i] == '.';
                assert(e[i] == '.');
            }
        }
        lemma_last_dot_before_ext(stem, e.drop_last());
    }
}

/// The extension a filter tests is what follows the last `.` of the name,
/// however many dots the stem holds: `stem.e` passes exactly when `e`,
/// lower-cased, is among the extensions to keep (or there are none) and not
/// among those to skip.
pub proof fn law_filter_tests_last_extension(
    keep: Seq<Seq<char>>,
    skip: Seq<Seq<char>>,
    stem: Seq<char>,
    e: Seq<char>,
)
    requires
        !e.contains('.'),
    ensures
        passes(keep, skip, stem + seq!['.'] + e) == ((keep.len() == 0 || keep.contains(lower_text(e)))
            && !skip.contains(lower_text(e))),
{
    lemma_last_dot_before_ext(stem, e);
    assert((stem + seq!['.'] + e).skip(stem.len() as int + 1) =~= e);
}

/// A single rule naming an extension keeps `stem.ext` and a single rule
/// `-ext` skips it, whatever dots the stem holds.
pub proof fn law_single_rule_filter(stem: Seq<char>, e: Seq<char>)
    requires
        e.len() > 0,
        !e.contains('.'),
        !is_ws(e[0]),
        !is_ws(e.last()),
        e[0] != '-',
    ensures
        passes(filter_rules(seq![e]).0, filter_rules(seq![e]).1, stem + seq!['.'] + e),
        !passes(
            filter_rules(seq![seq!['-'] + e]).0,
            filter_rules(seq![seq!['-'] + e]).1,
            stem + seq!['.'] + e,
        ),
{
    law_filter_tests_last_extension(
        filter_rules(seq![e]).0,
        filter_rules(seq![e]).1,
        stem,
        e,
    );
    assert(e[0] != '.') by {
        if e[0] == '.' {
            assert(e.contains('.'));
        }
    }
    assert(seq![e].drop_last() =~= Seq::<Seq<char>>::empty());
    assert(trim_start(e) == e);
    assert(trim(e) == e);
    assert(seq![e].last() == e);
    assert(filter_rules(Seq::<Seq<char>>::empty()) == (Seq::<Seq<char>>::empty(), Seq::<Seq<char>>::empty()));
    assert(filter_rules(seq![e]).0 =~= seq![rule_ext(e)]);
    assert(filter_rules(seq![e]).0[0] == lower_text(e));
    let m = seq!['-'] + e;
    assert(m[0] == '-');
    assert(!is_ws('-'));
    assert(m.last() == e.last());
    assert(trim_start(m) == m);
    assert(trim(m) == m);
    assert(m.drop_first() =~= e);
    assert(seq![m].drop_last() =~= Seq::<Seq<char>>::empty());
    assert(seq![m].last() == m);
    assert(trim(m.drop_first()) == e);
    assert(filter_rules(seq![m]).1 =~= seq![rule_ext(e)]);
    law_filter_tests_last_extension(
        filter_rules(seq![m]).0,
        filter_rules(seq![m]).1,
        stem,
        e,
    );
    assert(filter_rules(seq![m]).1[0] == lower_text(e));
}

fn rule_ext_of(s: &Vec<char>) -> (r: String)
    ensures
        r@ == rule_ext(s@),
{
    let t = if s.len() > 0 && s[0] == '.' {
        slice_chars(s, 1, s.len())
    } else {
        slice_chars(s, 0, s.len())
    };
    assert(s.len() > 0 && s@[0] == '.' ==> t@ =~= s@.drop_first());
    assert(!(s.len() > 0 && s@[0] == '.') ==> t@ =~= s@);
    to_lowercase(string_of(&t).as_str())
}

impl AttachmentFilter {
    /// The filter of the `--filter` rules, e.g. `png,eml` or `-emz,-bmp`.
    pub fn from_specs(specs: &Vec<String>) -> (r: AttachmentFilter)
        ensures
            (views(r.keep@), views(r.skip@)) == filter_rules(views(specs@)),
    {
        let mut keep: Vec<String> = Vec::new();
        let mut skip: Vec<String> = Vec::new();
        let mut i: usize = 0;
        while i < specs.len()
            invariant
                i <= specs.len(),
                (views(keep@), views(skip@)) == filter_rules(views(specs@).take(i as int)),
            decreases specs.len() - i,
        {
            assert(views(specs@).take(i + 1).drop_last() =~= views(specs@).take(i as int));
            assert(views(specs@).take(i + 1).last() == specs@[i as int]@);
            let t = trim_chars(&chars_of(specs[i].as_str()));
            if t.len() > 0 {
                if t[0] == '-' {
                    let e = trim_chars(&slice_chars(&t, 1, t.len()));
                    assert(t@.len() > 0 && t@[0] == '-');
                    if e.len() > 0 {
                        let ghost before = views(skip@);
                        skip.push(rule_ext_of(&e));
                        assert(views(skip@) =~= before.push(skip@.last()@));
                    }
                } else {
                    let ghost before = views(keep@);
                    keep.push(rule_ext_of(&t));
                    assert(views(keep@) =~= before.push(keep@.last()@));
                }
            }
            i = i + 1;
        }
        assert(views(specs@).take(specs.len() as int) =~= views(specs@));
        AttachmentFilter { keep, skip }
    }

    /// Whether an attachment with this name is exported.
    pub fn allows(&self, name: &str) -> (r: bool)
        ensures
            r == passes(views(self.keep@), views(self.skip@), name@),
    {
        let v = chars_of(name);
        let ext_chars = match find_last_dot(&v) {
            Some(d) => {
                proof {
                    lemma_last_dot(v@);
                    assert(d < v.len());
                }
                slice_chars(&v, d + 1, v.len())
            },
            None => Vec::new(),
        };
        assert(last_dot(v@) >= 0 ==> ext_chars@ =~= v@.skip(last_dot(v@) + 1));
        assert(last_dot(v@) < 0 ==> ext_chars@ =~= Seq::<char>::empty());
        let ext = to_lowercase(string_of(&ext_chars).as_str());
        let inc = self.keep.len() == 0 || contains_string(&self.keep, &ext);
        inc && !contains_string(&self.skip, &ext)
    }
}

} // verus!
