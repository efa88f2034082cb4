//! The message and conversation records that the rest of the library works on.

use vstd::prelude::*;
use crate::text::views;

verus! {

/// One e-mail as read from the archive.
///
/// `date` is the delivery time in whole seconds since the Unix epoch (UTC).
#[derive(Debug, Clone)]
pub struct EmailMessage {
    pub date: Option<i64>,
    pub from_name: String,
    pub from_address: String,
    pub to_recipients: Vec<String>,
    pub subject: String,
    pub body: String,
    pub normalized_subject: String,
    pub message_id: Option<String>,
    pub in_reply_to: Option<String>,
    pub references: Vec<String>,
    pub reply_depth: usize,
    /// PST node ID — used to correlate messages with their attachments
    pub node_id: u32,
}

/// A conversation: the messages that share one thread key.
#[derive(Debug)]
pub struct ConversationThread {
    pub normalized_subject: String,
    pub display_subject: String,
    pub messages: Vec<EmailMessage>,
}

/// The mathematical content of an [`EmailMessage`].
pub struct MessageModel {
    pub date: Option<i64>,
    pub from_name: Seq<char>,
    pub from_address: Seq<char>,
    pub to_recipients: Seq<Seq<char>>,
    pub subject: Seq<char>,
    pub body: Seq<char>,
    pub normalized_subject: Seq<char>,
    pub message_id: Option<Seq<char>>,
    pub in_reply_to: Option<Seq<char>>,
    pub references: Seq<Seq<char>>,
    pub reply_depth: nat,
    pub node_id: u32,
}

/// The mathematical content of a [`ConversationThread`].
pub struct ThreadModel {
    pub normalized_subject: Seq<char>,
    pub display_subject: Seq<char>,
    pub messages: Seq<MessageModel>,
}

pub open spec fn opt_view(o: Option<String>) -> Option<Seq<char>> {
    match o {
        Some(s) => Some(s@),
        None => None,
    }
}

impl View for EmailMessage {
    type V = MessageModel;

    open spec fn view(&self) -> MessageModel {
        MessageModel {
            date: self.date,
            from_name: self.from_name@,
            from_address: self.from_address@,
            to_recipients: views(self.to_recipients@),
            subject: self.subject@,
            body: self.body@,
            normalized_subject: self.normalized_subject@,
            message_id: opt_view(self.message_id),
            in_reply_to: opt_view(self.in_reply_to),
            references: views(self.references@),
            reply_depth: self.reply_depth as nat,
            node_id: self.node_id,
        }
    }
}

/// The models of a list of messages.
pub open spec fn message_models(v: Seq<EmailMessage>) -> Seq<MessageModel> {
    v.map_values(|m: EmailMessage| m@)
}

impl View for ConversationThread {
    type V = ThreadModel;

    open spec fn view(&self) -> ThreadModel {
        ThreadModel {
            normalized_subject: self.normalized_subject@,
            display_subject: self.display_subject@,
            messages: message_models(self.messages@),
        }
    }
}

/// The models of a list of threads.
pub open spec fn thread_models(v: Seq<ConversationThread>) -> Seq<ThreadModel> {
    v.map_values(|t: ConversationThread| t@)
}

/// A copy of a list of strings.
pub fn copy_strings(v: &Vec<String>) -> (r: Vec<String>)
    ensures
        views(r@) == views(v@),
{
    let mut r: Vec<String> = Vec::new();
    let mut i: usize = 0;
    while i < v.len()
        invariant
            i <= v.len(),
            views(r@) == views(v@).take(i as int),
        decreases v.len() - i,
    {
        let ghost before = r@;
        r.push(v[i].clone());
        assert(views(r@) =~= views(before).push(v@[i as int]@));
        assert(views(v@).take(i + 1) =~= views(v@).take(i as int).push(v@[i as int]@));
        i = i + 1;
    }
    assert(views(v@).take(v.len() as int) =~= views(v@));
    r
}

pub fn copy_opt_string(o: &Option<String>) -> (r: Option<String>)
    ensures
        opt_view(r) == opt_view(*o),
{
    match o {
        Some(s) => Some(s.clone()),
        None => None,
    }
}

impl EmailMessage {
    /// A copy of this message with its reply depth replaced.
    pub fn with_reply_depth(&self, depth: usize) -> (r: EmailMessage)
        ensures
            r@ == (MessageModel { reply_depth: depth as nat, ..self@ }),
    {
        EmailMessage {
            date: self.date,
            from_name: self.from_name.clone(),
            from_address: self.from_address.clone(),
            to_recipients: copy_strings(&self.to_recipients),
            subject: self.subject.clone(),
            body: self.body.clone(),
            normalized_subject: self.normalized_subject.clone(),
            message_id: copy_opt_string(&self.message_id),
            in_reply_to: copy_opt_string(&self.in_reply_to),
            references: copy_strings(&self.references),
            reply_depth: depth,
            node_id: self.node_id,
        }
    }
}

} // verus!
