use pst2pdf::models::EmailMessage;
use pst2pdf::thread_grouper::{group_by_thread, normalize_subject};

fn make_msg(subject: &str, date_secs: Option<i64>) -> EmailMessage {
    EmailMessage {
        date: date_secs,
        from_name: String::new(),
        from_address: String::new(),
        to_recipients: vec![],
        subject: subject.to_string(),
        body: String::new(),
        normalized_subject: normalize_subject(subject),
        message_id: None,
        in_reply_to: None,
        references: vec![],
        reply_depth: 0,
        node_id: 0,
    }
}

fn make_msg_with_id(subject: &str, date_secs: Option<i64>, node_id: u32) -> EmailMessage {
    let mut msg = make_msg(subject, date_secs);
    msg.node_id = node_id;
    msg
}

#[test]
fn normalize_strips_re() {
    assert_eq!(normalize_subject("Re: Hello"), "hello");
}

#[test]
fn normalize_strips_re_case_insensitive() {
    assert_eq!(normalize_subject("RE: Hello"), "hello");
    assert_eq!(normalize_subject("re: Hello"), "hello");
}

#[test]
fn normalize_strips_fwd() {
    assert_eq!(normalize_subject("Fwd: Hello"), "hello");
    assert_eq!(normalize_subject("FWD: Hello"), "hello");
}

#[test]
fn normalize_strips_fw() {
    assert_eq!(normalize_subject("FW: Hello"), "hello");
    assert_eq!(normalize_subject("fw: Hello"), "hello");
}

#[test]
fn normalize_strips_nested_prefixes() {
    assert_eq!(normalize_subject("Re: Fwd: Re: Hello"), "hello");
    assert_eq!(normalize_subject("RE: RE: FW: subject"), "subject");
}

#[test]
fn normalize_lowercases() {
    assert_eq!(normalize_subject("Hello World"), "hello world");
}

#[test]
fn normalize_trims_whitespace() {
    assert_eq!(normalize_subject("  Re:  Hello  "), "hello");
}

#[test]
fn normalize_empty() {
    assert_eq!(normalize_subject(""), "");
}

#[test]
fn normalize_no_prefix_unchanged_except_case() {
    assert_eq!(normalize_subject("Meeting Tomorrow"), "meeting tomorrow");
}

#[test]
fn group_empty_input() {
    let threads = group_by_thread(vec![]);
    assert!(threads.is_empty());
}

#[test]
fn group_single_message() {
    let msgs = vec![make_msg("Hello", Some(0))];
    let threads = group_by_thread(msgs);
    assert_eq!(threads.len(), 1);
    assert_eq!(threads[0].messages.len(), 1);
}

#[test]
fn group_re_and_original_in_same_thread() {
    let msgs = vec![make_msg("Hello", Some(0)), make_msg("Re: Hello", Some(1))];
    let threads = group_by_thread(msgs);
    assert_eq!(threads.len(), 1);
    assert_eq!(threads[0].messages.len(), 2);
}

#[test]
fn group_different_subjects_in_different_threads() {
    let msgs = vec![make_msg("Alpha", Some(0)), make_msg("Beta", Some(1))];
    let threads = group_by_thread(msgs);
    assert_eq!(threads.len(), 2);
}

#[test]
fn group_empty_subjects_separately() {
    let msgs = vec![
        make_msg_with_id("", Some(0), 10),
        make_msg_with_id("", Some(1), 11),
    ];
    let threads = group_by_thread(msgs);
    assert_eq!(threads.len(), 2);
}

#[test]
fn group_reply_to_header_keeps_thread_together() {
    let mut parent = make_msg_with_id("Hello", Some(0), 10);
    parent.message_id = Some("<msg-1@example.com>".to_string());
    let mut reply = make_msg_with_id("", Some(1), 11);
    reply.in_reply_to = Some("<msg-1@example.com>".to_string());
    let threads = group_by_thread(vec![parent, reply]);
    assert_eq!(threads.len(), 1);
    assert_eq!(threads[0].messages[0].reply_depth, 0);
    assert_eq!(threads[0].messages[1].reply_depth, 1);
}

#[test]
fn group_nested_reply_depth_increases() {
    let mut parent = make_msg_with_id("Hello", Some(0), 10);
    parent.message_id = Some("<msg-1@example.com>".to_string());
    let mut child = make_msg_with_id("Re: Hello", Some(1), 11);
    child.message_id = Some("<msg-2@example.com>".to_string());
    child.in_reply_to = Some("<msg-1@example.com>".to_string());
    let mut grandchild = make_msg_with_id("", Some(2), 12);
    grandchild.in_reply_to = Some("<msg-2@example.com>".to_string());
    let threads = group_by_thread(vec![parent, child, grandchild]);
    assert_eq!(threads.len(), 1);
    assert_eq!(threads[0].messages[0].reply_depth, 0);
    assert_eq!(threads[0].messages[1].reply_depth, 1);
    assert_eq!(threads[0].messages[2].reply_depth, 2);
}

#[test]
fn group_messages_sorted_by_date_within_thread() {
    let msgs = vec![
        make_msg("Hello", Some(100)),
        make_msg("Re: Hello", Some(50)),
        make_msg("Re: Hello", Some(200)),
    ];
    let threads = group_by_thread(msgs);
    assert_eq!(threads.len(), 1);
    let dates: Vec<i64> = threads[0].messages.iter().map(|m| m.date.unwrap()).collect();
    assert_eq!(dates, vec![50, 100, 200]);
}

#[test]
fn group_threads_sorted_alphabetically() {
    let msgs = vec![
        make_msg("Zebra", Some(0)),
        make_msg("Apple", Some(0)),
        make_msg("Mango", Some(0)),
    ];
    let threads = group_by_thread(msgs);
    let subjects: Vec<&str> = threads.iter().map(|t| t.display_subject.as_str()).collect();
    assert_eq!(subjects, vec!["Apple", "Mango", "Zebra"]);
}

#[test]
fn group_undated_first_and_titles_in_order() {
    let msgs = vec![
        make_msg_with_id("Zebra", Some(50), 1),
        make_msg_with_id("Re: alpha", Some(30), 2),
        make_msg_with_id("alpha", None, 3),
        make_msg_with_id("Re: Zebra", Some(10), 4),
    ];
    let threads = group_by_thread(msgs);
    assert_eq!(threads.len(), 2);
    for t in &threads {
        assert!(!t.messages.is_empty());
    }
    assert!(threads[0].display_subject <= threads[1].display_subject);
    assert_eq!(threads[0].display_subject, "Zebra");
    assert_eq!(threads[0].messages[0].date, Some(10));
    assert_eq!(threads[0].messages[1].date, Some(50));
    assert_eq!(threads[1].display_subject, "alpha");
    let dates: Vec<Option<i64>> = threads[1].messages.iter().map(|m| m.date).collect();
    assert_eq!(dates, vec![None, Some(30)]);
}

#[test]
fn normalize_is_settled_and_ignores_case() {
    let s = "  RE: Fw: Hello World ";
    let n = normalize_subject(s);
    assert_eq!(n, "hello world");
    assert_eq!(normalize_subject(&n), n);
    assert_eq!(normalize_subject(&s.to_ascii_uppercase()), n);
    assert_eq!(n.trim(), n);
    assert_eq!(n.to_lowercase(), n);
}
