use std::io::Write;

use pst2pdf::attachments::{
    after_attempt, attachment_attempts, attachment_raw_name, emz_attempts, thread_attachment_prefix,
    thread_numbers, unique_filename, attachment_stem, first_step, AttachmentFilter, AttemptStep, WritePayload,
};
use pst2pdf::cli::{choose_outputs, is_dir_like, sort_flat_messages, FormatError, OutputChoice};
use pst2pdf::compressed::{
    gunzip_prefix, is_gzip_magic, looks_like_eml, strip_emf_wrapper, try_gunzip_limited,
    try_zip_find_eml, zip_has_eml,
};
use pst2pdf::eml::{eml_collect_body, eml_is_plain_text, eml_summary, find_doubled_zone_sign, summarize_eml, EmlFields, MimePart};
use pst2pdf::folders::{collect_message_entry_ids, collect_messages, FolderMessage, FolderTree};
use pst2pdf::models::{ConversationThread, EmailMessage};
use pst2pdf::pdf_writer::{numbered_file_name, render_conversation_text, render_threads_text};
use pst2pdf::pst_reader::{extract_message, extract_recipients, MessageProps, PropValue, RecipientColumn};
use pst2pdf::thread_grouper::{group_by_thread, grouping_log, normalize_subject};

fn msg(subject: &str, date: Option<i64>, node_id: u32) -> EmailMessage {
    EmailMessage {
        date,
        from_name: String::new(),
        from_address: String::new(),
        to_recipients: vec![],
        subject: subject.to_string(),
        body: String::new(),
        normalized_subject: normalize_subject(subject),
        message_id: None,
        in_reply_to: None,
        references: vec![],
        reply_depth: 0,
        node_id,
    }
}

fn props(subject: &str) -> MessageProps {
    MessageProps {
        subject: Some(PropValue::Unicode(subject.to_string())),
        sender_name: None,
        sender_email: None,
        delivery_time: None,
        submit_time: None,
        body: None,
        html: None,
        creation_time: None,
        recipients: vec![],
    }
}

fn gzip(data: &[u8]) -> Vec<u8> {
    let mut enc = flate2::write::GzEncoder::new(Vec::new(), flate2::Compression::default());
    enc.write_all(data).unwrap();
    enc.finish().unwrap()
}

fn zip_of(entries: &[(&str, &[u8])]) -> Vec<u8> {
    let mut w = zip::ZipWriter::new(std::io::Cursor::new(Vec::new()));
    for (name, data) in entries {
        let opts = zip::write::SimpleFileOptions::default()
            .compression_method(zip::CompressionMethod::Stored);
        w.start_file(*name, opts).unwrap();
        w.write_all(data).unwrap();
    }
    w.finish().unwrap().into_inner()
}

fn wrapped_emf(payload: &[u8]) -> Vec<u8> {
    let mut v = vec![0u8; 32];
    v.extend_from_slice(b"EMF\0");
    v.extend_from_slice(&[1, 0, 0, 0]);
    v.extend_from_slice(payload);
    v
}

// ── unique file names ───────────────────────────────────────────────────────

#[test]
fn unique_filename_skips_taken_alternatives() {
    let mut used = vec!["a.txt".to_string(), "a_1.txt".to_string()];
    assert_eq!(unique_filename("a.txt", &mut used), "a_2.txt");
    assert_eq!(used, vec!["a.txt", "a_1.txt", "a_2.txt"]);
}

#[test]
fn unique_filename_counts_from_last_dot() {
    let mut used: Vec<String> = Vec::new();
    unique_filename("archive.tar.gz", &mut used);
    assert_eq!(unique_filename("archive.tar.gz", &mut used), "archive.tar_1.gz");
}

#[test]
fn unique_filename_leading_dot_name() {
    let mut used: Vec<String> = Vec::new();
    unique_filename(".bashrc", &mut used);
    assert_eq!(unique_filename(".bashrc", &mut used), "_1.bashrc");
}

#[test]
fn unique_filename_replaces_nul_and_trims() {
    let mut used: Vec<String> = Vec::new();
    assert_eq!(unique_filename("  a\0b.txt \n", &mut used), "a_b.txt");
}

#[test]
fn unique_filename_names_stay_distinct() {
    let mut used: Vec<String> = Vec::new();
    for _ in 0..12 {
        unique_filename("x.png", &mut used);
    }
    let mut sorted = used.clone();
    sorted.sort();
    sorted.dedup();
    assert_eq!(sorted.len(), 12);
    assert_eq!(used[11], "x_11.png");
}

// ── compressed attachments ──────────────────────────────────────────────────

#[test]
fn emf_wrapper_stripped() {
    let data = wrapped_emf(b"PAYLOAD");
    let inner = strip_emf_wrapper(&data).unwrap();
    assert_eq!(inner.len(), data.len() - 32);
    assert_eq!(&inner[..4], b"EMF\0");
    assert_eq!(&inner[8..], b"PAYLOAD");
}

#[test]
fn emf_wrapper_wrong_record_type() {
    let mut data = wrapped_emf(b"x");
    data[36] = 2;
    assert!(strip_emf_wrapper(&data).is_none());
}

#[test]
fn emf_wrapper_too_short() {
    let data = wrapped_emf(b"");
    assert!(strip_emf_wrapper(&data[..39]).is_none());
    assert!(strip_emf_wrapper(&data).is_some());
}

#[test]
fn gzip_magic_detected() {
    assert!(is_gzip_magic(&[0x1f, 0x8b, 0x08]));
    assert!(!is_gzip_magic(&[0x1f]));
    assert!(!is_gzip_magic(b"PK\x03\x04"));
}

#[test]
fn eml_heuristic() {
    assert!(looks_like_eml(b"Received: x\r\nFrom: a@b.c\r\n"));
    assert!(looks_like_eml(b"MIME-Version: 1.0\r\n"));
    assert!(!looks_like_eml(b"hello world"));
    assert!(!looks_like_eml(&[0xff, 0xfe, b'F', b'r', b'o', b'm', b':']));
    let mut late = vec![b'x'; 600];
    late.extend_from_slice(b"Date: today");
    assert!(!looks_like_eml(&late));
}

#[test]
fn gunzip_roundtrip() {
    let content = b"From: alice@example.com\r\nSubject: hi\r\n\r\nbody".to_vec();
    let gz = gzip(&content);
    assert_eq!(try_gunzip_limited(&gz), Some(content.clone()));
    let head = gunzip_prefix(&gz).unwrap();
    assert!(!head.is_empty() && head.len() <= 512);
    assert_eq!(&content[..head.len()], &head[..]);
    assert!(looks_like_eml(&head));
}

#[test]
fn gunzip_rejects_plain_bytes() {
    assert_eq!(try_gunzip_limited(b"not gzip at all"), None);
    assert_eq!(gunzip_prefix(b"not gzip at all"), None);
}

#[test]
fn zip_with_eml_entry() {
    let mail: &[u8] = b"From: a@b.c\r\n\r\nhello";
    let z = zip_of(&[("note.txt", b"n"), ("Mail.EML", mail)]);
    assert!(zip_has_eml(&z));
    assert_eq!(try_zip_find_eml(&z), Some(mail.to_vec()));
}

#[test]
fn zip_without_eml_entry() {
    let z = zip_of(&[("note.txt", b"n")]);
    assert!(!zip_has_eml(&z));
    assert_eq!(try_zip_find_eml(&z), None);
    assert!(!zip_has_eml(b"plain"));
}

#[test]
fn zip_empty_eml_entry_passed_over() {
    let z = zip_of(&[("empty.eml", b""), ("second.eml", b"x")]);
    assert_eq!(try_zip_find_eml(&z), Some(b"x".to_vec()));
}

// ── e-mail bodies ───────────────────────────────────────────────────────────

fn text_part(sub: &str, body: &str) -> MimePart {
    MimePart::Text { subtype: Some(sub.as_bytes().to_vec()), body: body.as_bytes().to_vec() }
}

#[test]
fn eml_alternative_prefers_plain() {
    let p = MimePart::Multi {
        subtype: Some(b"Alternative".to_vec()),
        children: vec![text_part("html", "<b>x</b>"), text_part("PLAIN", "plain text")],
    };
    assert_eq!(eml_collect_body(&p), "plain text");
}

#[test]
fn eml_alternative_without_plain_takes_first() {
    let p = MimePart::Multi {
        subtype: Some(b"alternative".to_vec()),
        children: vec![text_part("html", "<p>a &amp; b</p>"), MimePart::Binary],
    };
    assert_eq!(eml_collect_body(&p), "a & b");
}

#[test]
fn eml_mixed_joins_nonempty_texts() {
    let p = MimePart::Multi {
        subtype: Some(b"mixed".to_vec()),
        children: vec![
            text_part("plain", "one"),
            MimePart::Binary,
            text_part("plain", ""),
            MimePart::Message { child: Box::new(text_part("plain", "two")) },
        ],
    };
    assert_eq!(eml_collect_body(&p), "one\ntwo");
}

#[test]
fn eml_text_without_subtype_is_plain() {
    let p = MimePart::Text { subtype: None, body: b"hi".to_vec() };
    assert!(eml_is_plain_text(&p));
    assert!(!eml_is_plain_text(&text_part("html", "hi")));
    assert!(!eml_is_plain_text(&MimePart::Binary));
}

#[test]
fn eml_invalid_utf8_body_is_empty() {
    let p = MimePart::Text { subtype: None, body: vec![0xff, 0xfe] };
    assert_eq!(eml_collect_body(&p), "");
}

#[test]
fn eml_fields_summarized() {
    let f = EmlFields {
        subject: None,
        date: None,
        from: vec!["A <a@x>".to_string(), "b@x".to_string()],
        to: vec![vec!["c@x".to_string()], vec!["d@x".to_string(), "e@x".to_string()]],
        body: text_part("plain", "body"),
    };
    let s = summarize_eml(&f);
    assert_eq!(s.subject, "");
    assert_eq!(s.date, "(unknown date)");
    assert_eq!(s.from, "A <a@x>, b@x");
    assert_eq!(s.to, "c@x, d@x, e@x");
    assert_eq!(s.body, "body");
}

#[test]
fn eml_bytes_parsed() {
    let raw = b"From: Alice <alice@example.com>\r\nTo: bob@example.com\r\nSubject: Hello there\r\nDate: Tue, 1 Jul 2003 10:52:37 +0200\r\n\r\nBody text\r\n";
    let s = eml_summary(raw).unwrap();
    assert_eq!(s.subject, "Hello there");
    assert!(s.from.contains("alice@example.com"));
    assert!(s.to.contains("bob@example.com"));
    assert_ne!(s.date, "(unknown date)");
    assert!(s.body.contains("Body text"));
}

// ── attachment plans ────────────────────────────────────────────────────────

#[test]
fn plan_plain_attachment() {
    let plan = attachment_attempts(b"data", "photo.jpg", "photo", "arc-00001-");
    assert_eq!(plan.len(), 1);
    assert_eq!(plan[0].name, "arc-00001-photo.jpg");
    assert!(matches!(plan[0].payload, WritePayload::AsStored));
}

#[test]
fn plan_empty_attachment() {
    assert!(attachment_attempts(b"", "photo.jpg", "photo", "").is_empty());
}

#[test]
fn plan_eml_attachment() {
    let plan = attachment_attempts(b"From: x", "Mail.EML", "Mail", "");
    assert_eq!(plan.len(), 2);
    assert_eq!(plan[0].name, "Mail.pdf");
    assert!(matches!(&plan[0].payload, WritePayload::EmlPdf(b) if b.as_slice() == b"From: x"));
    assert_eq!(plan[1].name, "Mail.EML");
    assert!(matches!(plan[1].payload, WritePayload::AsStored));
}

#[test]
fn plan_emz_wrapped_emf() {
    let data = wrapped_emf(b"pic");
    let plan = attachment_attempts(&data, "image.emz", "image", "p-");
    assert_eq!(plan.len(), 2);
    assert_eq!(plan[0].name, "p-image.emf");
    assert!(matches!(&plan[0].payload, WritePayload::Bytes(b) if b.as_slice() == &data[32..]));
    assert_eq!(plan[1].name, "p-image.emz");
    assert!(matches!(plan[1].payload, WritePayload::AsStored));
}

#[test]
fn plan_emz_gzip_mail() {
    let mail = b"From: a@b.c\r\nSubject: s\r\n\r\nhello".to_vec();
    let gz = gzip(&mail);
    let plan = emz_attempts(&gz, "m.emz", "m", "");
    let names: Vec<&str> = plan.iter().map(|a| a.name.as_str()).collect();
    assert_eq!(names, vec!["m.pdf", "m.eml", "m.emz"]);
    assert!(matches!(&plan[0].payload, WritePayload::EmlPdf(b) if *b == mail));
    assert!(matches!(&plan[1].payload, WritePayload::Bytes(b) if *b == mail));
}

#[test]
fn plan_emz_gzip_other_content() {
    let content = wrapped_emf(b"drawing");
    let gz = gzip(&content);
    let plan = emz_attempts(&gz, "d.emz", "d", "");
    let names: Vec<&str> = plan.iter().map(|a| a.name.as_str()).collect();
    assert_eq!(names, vec!["d.emf", "d.emz", "d.emz"]);
    assert!(matches!(&plan[0].payload, WritePayload::Bytes(b) if b.as_slice() == &content[32..]));
    assert!(matches!(&plan[1].payload, WritePayload::Bytes(b) if *b == content));
}

#[test]
fn plan_emz_zip_mail() {
    let mail: &[u8] = b"From: a@b.c\r\n\r\nhi";
    let z = zip_of(&[("inner.eml", mail)]);
    let plan = emz_attempts(&z, "z.emz", "z", "");
    let names: Vec<&str> = plan.iter().map(|a| a.name.as_str()).collect();
    assert_eq!(names, vec!["z.pdf", "z.eml", "z.emz"]);
}

#[test]
fn raw_name_fallbacks() {
    let long = Some(PropValue::Unicode("Long Name.docx".to_string()));
    let short = Some(PropValue::String8("LONGNA~1.DOC".to_string()));
    assert_eq!(attachment_raw_name(&long, &short), "Long Name.docx");
    assert_eq!(attachment_raw_name(&None, &short), "LONGNA~1.DOC");
    assert_eq!(attachment_raw_name(&Some(PropValue::Time(5)), &None), "attachment.bin");
}

#[test]
fn attachment_prefix_for_thread() {
    assert_eq!(thread_attachment_prefix("myarchive", 3), "myarchive-00003-");
    assert_eq!(numbered_file_name("myarchive", 12, "pdf"), "myarchive-00012.pdf");
}

#[test]
fn thread_number_of_message() {
    let threads = vec![
        ConversationThread {
            normalized_subject: "a".to_string(),
            display_subject: "A".to_string(),
            messages: vec![msg("A", None, 7)],
        },
        ConversationThread {
            normalized_subject: "b".to_string(),
            display_subject: "B".to_string(),
            messages: vec![msg("B", None, 8), msg("B", None, 9)],
        },
    ];
    let numbers = thread_numbers(&threads);
    assert_eq!(numbers.get(&7), Some(&1));
    assert_eq!(numbers.get(&9), Some(&2));
    assert_eq!(numbers.get(&10), None);
    assert_eq!(numbers.len(), 3);
}

// ── folder walk ─────────────────────────────────────────────────────────────

fn row(node_id: u32, subject: Option<&str>) -> FolderMessage {
    FolderMessage { node_id, props: subject.map(props) }
}

fn sample_tree() -> FolderTree {
    FolderTree {
        subfolders: vec![
            FolderTree { subfolders: vec![], messages: vec![row(3, Some("three")), row(4, None)] },
            FolderTree { subfolders: vec![], messages: vec![row(3, Some("again"))] },
        ],
        messages: vec![row(1, Some("one")), row(4, Some("four"))],
    }
}

#[test]
fn folder_walk_ids_once_in_order() {
    let tree = sample_tree();
    assert_eq!(collect_message_entry_ids(Some(&tree)), vec![3, 4, 1]);
    assert!(collect_message_entry_ids(None).is_empty());
}

#[test]
fn folder_walk_records() {
    let tree = sample_tree();
    let msgs = collect_messages(&tree);
    let seen: Vec<(u32, &str)> = msgs.iter().map(|m| (m.node_id, m.subject.as_str())).collect();
    assert_eq!(seen, vec![(3, "three"), (1, "one")]);
}

// ── message records ─────────────────────────────────────────────────────────

#[test]
fn message_record_fallbacks() {
    let p = MessageProps {
        subject: Some(PropValue::String8("Re: Budget".to_string())),
        sender_name: Some(PropValue::Unicode("Ann".to_string())),
        sender_email: Some(PropValue::Other),
        delivery_time: Some(PropValue::Other),
        submit_time: None,
        body: Some(PropValue::Unicode("  \n ".to_string())),
        html: Some(PropValue::Unicode("<p>Hi &amp; bye</p>".to_string())),
        creation_time: Some(116_444_736_000_000_000 + 10_000_000 * 60),
        recipients: vec![vec![
            RecipientColumn { prop_id: 0x3001, value: Some(PropValue::Unicode("Bob".to_string())) },
            RecipientColumn { prop_id: 0x39FE, value: Some(PropValue::Unicode("bob@x".to_string())) },
        ]],
    };
    let m = extract_message(&p, 42);
    assert_eq!(m.date, Some(60));
    assert_eq!(m.from_name, "Ann");
    assert_eq!(m.from_address, "");
    assert_eq!(m.body, "Hi & bye");
    assert_eq!(m.normalized_subject, "budget");
    assert_eq!(m.to_recipients, vec!["Bob <bob@x>"]);
    assert_eq!(m.node_id, 42);
}

#[test]
fn recipients_name_or_address() {
    let rows = vec![
        vec![RecipientColumn { prop_id: 0x3003, value: Some(PropValue::Unicode("x@y".to_string())) }],
        vec![
            RecipientColumn { prop_id: 0x3001, value: Some(PropValue::Unicode("Zed".to_string())) },
            RecipientColumn { prop_id: 0x3003, value: Some(PropValue::Unicode("".to_string())) },
        ],
        vec![RecipientColumn { prop_id: 0x0037, value: Some(PropValue::Unicode("s".to_string())) }],
    ];
    assert_eq!(extract_recipients(&rows), vec!["x@y", "Zed"]);
}

// ── command line ────────────────────────────────────────────────────────────

fn formats(v: &[&str]) -> Vec<String> {
    v.iter().map(|s| s.to_string()).collect()
}

#[test]
fn output_formats_accepted() {
    assert_eq!(
        choose_outputs(&formats(&["PDF", "text"]), false),
        Ok(OutputChoice { attachments_only: false, pdf: true, text: true })
    );
    assert_eq!(
        choose_outputs(&formats(&["None"]), true),
        Ok(OutputChoice { attachments_only: true, pdf: false, text: false })
    );
}

#[test]
fn output_formats_refused() {
    assert_eq!(choose_outputs(&formats(&["none", "pdf"]), true), Err(FormatError::NoneCombined));
    assert_eq!(choose_outputs(&formats(&["none"]), false), Err(FormatError::NoneWithoutAttachments));
    assert_eq!(choose_outputs(&formats(&["docx"]), false), Err(FormatError::NoFormat));
    assert_eq!(
        FormatError::NoneWithoutAttachments.message(),
        "error: --as none requires --attachments"
    );
}

#[test]
fn folder_like_paths() {
    assert!(is_dir_like("out/", false));
    assert!(is_dir_like("C:\\exports\\", false));
    assert!(is_dir_like("out", true));
    assert!(!is_dir_like("out.pdf", false));
    assert!(!is_dir_like("", false));
}

#[test]
fn flat_order_by_date_then_node() {
    let sorted = sort_flat_messages(vec![
        msg("c", Some(5), 3),
        msg("a", None, 9),
        msg("b", Some(5), 1),
        msg("d", Some(2), 8),
    ]);
    let order: Vec<&str> = sorted.iter().map(|m| m.subject.as_str()).collect();
    assert_eq!(order, vec!["a", "d", "b", "c"]);
}

// ── grouping and text output ────────────────────────────────────────────────

#[test]
fn grouping_files_each_message_once() {
    let threads = group_by_thread(vec![
        msg("Alpha", Some(3), 1),
        msg("Beta", Some(2), 2),
        msg("RE: alpha", Some(1), 3),
        msg("Fwd: Beta", Some(4), 4),
        msg("Gamma", Some(5), 5),
    ]);
    let mut ids: Vec<u32> = threads.iter().flat_map(|t| t.messages.iter().map(|m| m.node_id)).collect();
    ids.sort();
    assert_eq!(ids, vec![1, 2, 3, 4, 5]);
    let sizes: Vec<(&str, usize)> =
        threads.iter().map(|t| (t.normalized_subject.as_str(), t.messages.len())).collect();
    assert_eq!(sizes, vec![("alpha", 2), ("beta", 2), ("gamma", 1)]);
}

#[test]
fn conversation_text_layout() {
    let mut m = msg("Hello", Some(0), 1);
    m.from_name = "Ann".to_string();
    m.from_address = "/O=CORP/CN=ann".to_string();
    m.to_recipients = vec!["Bob <bob@x>".to_string(), "/o=corp/cn=z".to_string()];
    m.body = "Hi".to_string();
    let threads = group_by_thread(vec![m]);
    let expected_messages = format!(
        "\nDate:    1970-01-01 00:00:00 UTC\nFrom:    Ann\nTo:      Bob <bob@x>\nSubject: Hello\n{}\nHi\n",
        "-".repeat(60)
    );
    assert_eq!(render_conversation_text(&threads[0], false), expected_messages);
    let all = render_threads_text(&threads, false);
    let heading = "Thread: Hello (1 message)";
    assert_eq!(all, format!("{}\n{}\n{}", heading, "=".repeat(heading.len()), expected_messages));
}

#[test]
fn filter_keeps_only_listed() {
    let f = AttachmentFilter::from_specs(&formats(&["png", " .EML ", ""]));
    assert_eq!(f.keep, vec!["png", "eml"]);
    assert!(f.skip.is_empty());
    assert!(f.allows("photo.PNG"));
    assert!(f.allows("mail.eml"));
    assert!(!f.allows("doc.pdf"));
    assert!(!f.allows("README"));
}

#[test]
fn filter_skips_listed() {
    let f = AttachmentFilter::from_specs(&formats(&["-emz", "-bmp"]));
    assert!(f.keep.is_empty());
    assert_eq!(f.skip, vec!["emz", "bmp"]);
    assert!(!f.allows("image.EMZ"));
    assert!(f.allows("photo.png"));
    assert!(f.allows("README"));
    let none = AttachmentFilter::from_specs(&Vec::new());
    assert!(none.allows("anything.xyz"));
}

#[test]
fn grouping_progress_lines() {
    let lines = grouping_log(&vec![msg("Hello", Some(1), 10), msg("RE: hello", Some(2), 11), msg("  ", None, 12)]);
    // progress lines show each message's own subject, trimmed
    assert_eq!(
        lines,
        vec!["reading message 10, Hello", "reading reply to 11, RE: hello", "reading message 12, (no subject)"]
    );
}

#[test]
fn file_stems_of_attachment_names() {
    assert_eq!(attachment_stem("chart.emz"), "chart");
    assert_eq!(attachment_stem("archive.tar.gz"), "archive.tar");
    assert_eq!(attachment_stem(".bashrc"), ".bashrc");
    assert_eq!(attachment_stem("noext"), "noext");
    assert_eq!(attachment_stem("a."), "a");
    assert_eq!(attachment_stem(".."), "..");
    assert_eq!(attachment_stem(""), "");
}

#[test]
fn reply_chain_title() {
    let threads = group_by_thread(vec![
        msg("RE: RE: Meeting tomorrow", Some(300), 3),
        msg("Meeting tomorrow", Some(100), 1),
        msg("RE: Meeting tomorrow", Some(200), 2),
    ]);
    assert_eq!(threads.len(), 1);
    assert_eq!(threads[0].display_subject, "Meeting tomorrow");
    let subjects: Vec<&str> = threads[0].messages.iter().map(|m| m.subject.as_str()).collect();
    assert_eq!(subjects, vec!["Meeting tomorrow", "RE: Meeting tomorrow", "RE: RE: Meeting tomorrow"]);
}

#[test]
fn forward_title_keeps_case() {
    let threads = group_by_thread(vec![msg("  FWD:  Budget Request ", Some(1), 1)]);
    assert_eq!(threads[0].display_subject, "Budget Request");
    assert_eq!(normalize_subject("  fw:  Re:Budget Request"), normalize_subject("Budget Request"));
}

#[test]
fn emz_wrapped_emf_plan_uses_file_stem() {
    let mut data = vec![0u8; 32];
    data.extend_from_slice(&[0x45, 0x4D, 0x46, 0x00, 0x01, 0x00, 0x00, 0x00]);
    let stem = attachment_stem("chart.emz");
    let plan = attachment_attempts(&data, "chart.emz", &stem, "p-");
    assert_eq!(plan[0].name, "p-chart.emf");
    assert!(matches!(&plan[0].payload, WritePayload::Bytes(b) if b.as_slice() == &data[32..]));
}

#[test]
fn eml_far_future_date_is_unknown() {
    let raw = b"From: a@b.c\r\nSubject: Later\r\nDate: Tue, 1 Jul 12003 10:52:37 +0200\r\n\r\nBody\r\n";
    let s = eml_summary(raw).unwrap();
    assert_eq!(s.subject, "Later");
    assert_eq!(s.date, "(unknown date)");
    assert!(s.body.contains("Body"));
}

#[test]
fn doubled_zone_sign_found_after_time() {
    assert!(find_doubled_zone_sign(b"Date: Mon, 1 Jan 2024 00:00:00 +-0000\r\n"));
    assert!(find_doubled_zone_sign(b"Date: Mon, 1 Jan 2024 00:00:00--+0100\r\n"));
    assert!(find_doubled_zone_sign(b"Date: 1 Jan 24 08:00 (x) ++0000\r\n"));
    assert!(!find_doubled_zone_sign(b"Date: Mon, 1 Jan 2024 00:00:00 +0000\r\n"));
    assert!(!find_doubled_zone_sign(b"Date: Mon, 1 Jan 2024 00:00:00 +-00\r\n"));
}

#[test]
fn boundary_line_is_no_doubled_zone_sign() {
    assert!(!find_doubled_zone_sign(b"\r\n--000000000000d6b1d705f5c5e6b1\r\n"));
    assert!(!find_doubled_zone_sign(b"--0000abc"));
    assert!(!find_doubled_zone_sign(b"boundary=\"--0000\""));
    assert!(!find_doubled_zone_sign(b""));
}

#[test]
fn eml_with_doubled_zone_sign_is_refused() {
    let raw = b"From: a@b.c\r\nSubject: Odd\r\nDate: Mon, 1 Jan 2024 00:00:00 +-0000\r\n\r\nBody\r\n";
    assert!(eml_summary(raw).is_none());
    let received = b"Received: from x by y; Mon, 1 Jan 2024 00:00:00 -+0100\r\nFrom: a@b.c\r\nSubject: Odd\r\n\r\nBody\r\n";
    assert!(eml_summary(received).is_none());
}

#[test]
fn eml_multipart_with_digit_boundary_parsed() {
    let raw = b"From: a@b.c\r\nSubject: Parts\r\nDate: Tue, 1 Jul 2003 10:52:37 +0200\r\nMIME-Version: 1.0\r\nContent-Type: multipart/alternative; boundary=\"000000000000d6b1\"\r\n\r\n--000000000000d6b1\r\nContent-Type: text/plain; charset=UTF-8\r\n\r\nplain words\r\n--000000000000d6b1\r\nContent-Type: text/html; charset=UTF-8\r\n\r\n<p>html words</p>\r\n--000000000000d6b1--\r\n";
    let s = eml_summary(raw).unwrap();
    assert_eq!(s.subject, "Parts");
    assert!(s.body.contains("plain words"));
}

#[test]
fn attempts_stop_at_first_written() {
    assert_eq!(first_step(0), AttemptStep::Done(false));
    assert_eq!(first_step(3), AttemptStep::Try(0));
    assert_eq!(after_attempt(0, 3, false), AttemptStep::Try(1));
    assert_eq!(after_attempt(1, 3, true), AttemptStep::Done(true));
    assert_eq!(after_attempt(2, 3, false), AttemptStep::Done(false));
}
