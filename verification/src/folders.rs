//! The walk over an archive's folder tree: subfolders first, then the
//! folder's own messages, each message node taken once.

use std::collections::HashSet;
use vstd::prelude::*;
use crate::models::{EmailMessage, MessageModel, message_models};
use crate::pst_reader::{MessageProps, extract_message, message_record};

verus! {

broadcast use vstd::std_specs::hash::group_hash_axioms;

/// A message row of a folder's contents table.
#[derive(Debug, Clone)]
pub struct FolderMessage {
    /// The node id of the message.
    pub node_id: u32,
    /// The message's properties, or `None` when it could not be opened.
    pub props: Option<MessageProps>,
}

/// A folder of the archive with the subfolders that could be opened.
#[derive(Debug)]
pub struct FolderTree {
    pub subfolders: Vec<FolderTree>,
    pub messages: Vec<FolderMessage>,
}

/// The message rows of a folder tree in visiting order: the rows of each
/// subfolder (recursively, in order), then the folder's own rows.
pub open spec fn tree_rows(t: FolderTree) -> Seq<FolderMessage>
    decreases t, 1int,
{
    forest_rows(t.subfolders@) + t.messages@
}

/// The message rows of a list of folder trees, one after the other.
pub open spec fn forest_rows(ts: Seq<FolderTree>) -> Seq<FolderMessage>
    decreases ts, 0int,
{
    if ts.len() == 0 {
        Seq::empty()
    } else {
        forest_rows(ts.drop_last()) + tree_rows(ts.last())
    }
}

/// The rows that are kept when rows whose node id was seen before (in
/// `seen` or earlier in `rows`) are skipped.
pub open spec fn kept_rows(rows: Seq<FolderMessage>, seen: Set<u32>) -> Seq<FolderMessage>
    decreases rows.len(),
{
    if rows.len() == 0 {
        Seq::empty()
    } else if seen.contains(rows[0].node_id) {
        kept_rows(rows.drop_first(), seen)
    } else {
        seq![rows[0]] + kept_rows(rows.drop_first(), seen.insert(rows[0].node_id))
    }
}

/// `seen` with the node ids `ids` added.
pub open spec fn seen_with(seen: Set<u32>, ids: Seq<u32>) -> Set<u32> {
    seen + ids.to_set()
}

/// The node ids of a list of rows.
pub open spec fn row_ids(rows: Seq<FolderMessage>) -> Seq<u32> {
    rows.map_values(|m: FolderMessage| m.node_id)
}

/// The records of the rows whose message could be opened, in order.
pub open spec fn row_records(rows: Seq<FolderMessage>) -> Seq<MessageModel>
    decreases rows.len(),
{
    if rows.len() == 0 {
        Seq::empty()
    } else {
        let prev = row_records(rows.drop_last());
        match rows.last().props {
            Some(p) => prev.push(message_record(p, rows.last().node_id)),
            None => prev,
        }
    }
}

proof fn lemma_row_records_add(a: Seq<FolderMessage>, b: Seq<FolderMessage>)
    ensures
        row_records(a + b) == row_records(a) + row_records(b),
    decreases b.len(),
{
    if b.len() == 0 {
        assert(a + b =~= a);
        assert(row_records(a) + row_records(b) =~= row_records(a));
    } else {
        lemma_row_records_add(a, b.drop_last());
        assert((a + b).drop_last() =~= a + b.drop_last());
        assert((a + b).last() == b.last());
        match b.last().props {
            Some(p) => {
                assert(row_records(a) + row_records(b) =~= (row_records(a) + row_records(
                    b.drop_last(),
                )).push(message_record(p, b.last().node_id)));
            },
            None => {},
        }
    }
}

proof fn lemma_seen_with_cons(seen: Set<u32>, x: u32, ids: Seq<u32>)
    ensures
        seen_with(seen, seq![x] + ids) == seen_with(seen.insert(x), ids),
        seen_with(seen, ids.push(x)) == seen_with(seen, ids).insert(x),
        seen_with(seen, Seq::empty()) == seen,
{
    assert forall|y: u32| (seq![x] + ids).contains(y) <==> (y == x || ids.contains(y)) by {
        if (seq![x] + ids).contains(y) && y != x {
            let i = choose|i: int| 0 <= i < (seq![x] + ids).len() && (seq![x] + ids)[i] == y;
            assert(ids[i - 1] == y);
        }
        if ids.contains(y) {
            let i = choose|i: int| 0 <= i < ids.len() && ids[i] == y;
            assert((seq![x] + ids)[i + 1] == y);
        }
        if y == x {
            assert((seq![x] + ids)[0] == y);
        }
    }
    assert forall|y: u32| ids.push(x).contains(y) <==> (y == x || ids.contains(y)) by {
        if ids.push(x).contains(y) && y != x {
            let i = choose|i: int| 0 <= i < ids.push(x).len() && ids.push(x)[i] == y;
            assert(ids[i] == y);
        }
        if ids.contains(y) {
            let i = choose|i: int| 0 <= i < ids.len() && ids[i] == y;
            assert(ids.push(x)[i] == y);
        }
        if y == x {
            assert(ids.push(x)[ids.len() as int] == y);
        }
    }
    broadcast use vstd::set::group_set_axioms;
    assert forall|y: u32| #[trigger] seen_with(seen, seq![x] + ids).contains(y) == seen_with(
        seen.insert(x),
        ids,
    ).contains(y) by {
        assert((seq![x] + ids).to_set().contains(y) == (seq![x] + ids).contains(y));
        assert(ids.to_set().contains(y) == ids.contains(y));
    }
    assert forall|y: u32| #[trigger] seen_with(seen, ids.push(x)).contains(y) == seen_with(
        seen,
        ids,
    ).insert(x).contains(y) by {
        assert(ids.push(x).to_set().contains(y) == ids.push(x).contains(y));
        assert(ids.to_set().contains(y) == ids.contains(y));
    }
    assert(seen_with(seen, seq![x] + ids) =~= seen_with(seen.insert(x), ids));
    assert(seen_with(seen, ids.push(x)) =~= seen_with(seen, ids).insert(x));
    assert(seen_with(seen, Seq::empty()) =~= seen);
}

/// Skipping seen rows over two lists of rows is skipping over the first,
/// then over the second with the ids kept from the first added to `seen`.
proof fn lemma_kept_rows_add(a: Seq<FolderMessage>, b: Seq<FolderMessage>, seen: Set<u32>)
    ensures
        kept_rows(a + b, seen) == kept_rows(a, seen) + kept_rows(
            b,
            seen_with(seen, row_ids(kept_rows(a, seen))),
        ),
    decreases a.len(),
{
    if a.len() == 0 {
        assert(a + b =~= b);
        assert(row_ids(Seq::<FolderMessage>::empty()) =~= Seq::<u32>::empty());
        lemma_seen_with_cons(seen, 0, Seq::empty());
        assert(kept_rows(a, seen) + kept_rows(b, seen) =~= kept_rows(b, seen));
    } else {
        assert((a + b).drop_first() =~= a.drop_first() + b);
        assert((a + b)[0] == a[0]);
        if seen.contains(a[0].node_id) {
            lemma_kept_rows_add(a.drop_first(), b, seen);
        } else {
            let s2 = seen.insert(a[0].node_id);
            lemma_kept_rows_add(a.drop_first(), b, s2);
            let rest = kept_rows(a.drop_first(), s2);
            assert(row_ids(seq![a[0]] + rest) =~= seq![a[0].node_id] + row_ids(rest));
            lemma_seen_with_cons(seen, a[0].node_id, row_ids(rest));
            assert(seq![a[0]] + (rest + kept_rows(b, seen_with(s2, row_ids(rest)))) =~= (seq![a[0]]
                + rest) + kept_rows(b, seen_with(s2, row_ids(rest))));
        }
    }
}

/// The kept rows of one more row.
proof fn lemma_kept_rows_push(a: Seq<FolderMessage>, m: FolderMessage, seen: Set<u32>)
    ensures
        kept_rows(a.push(m), seen) == kept_rows(a, seen) + (if seen_with(
            seen,
            row_ids(kept_rows(a, seen)),
        ).contains(m.node_id) {
            Seq::<FolderMessage>::empty()
        } else {
            seq![m]
        }),
{
    lemma_kept_rows_add(a, seq![m], seen);
    assert(a + seq![m] =~= a.push(m));
    let s = seen_with(seen, row_ids(kept_rows(a, seen)));
    assert(seq![m].drop_first() =~= Seq::<FolderMessage>::empty());
    assert(seq![m][0] == m);
    assert(kept_rows(Seq::<FolderMessage>::empty(), s.insert(m.node_id)) =~= Seq::empty());
    assert(kept_rows(Seq::<FolderMessage>::empty(), s) =~= Seq::empty());
    if !s.contains(m.node_id) {
        assert(kept_rows(seq![m], s) =~= seq![m] + kept_rows(
            Seq::<FolderMessage>::empty(),
            s.insert(m.node_id),
        ));
        assert(seq![m] + Seq::<FolderMessage>::empty() =~= seq![m]);
    } else {
        assert(kept_rows(seq![m], s) =~= Seq::<FolderMessage>::empty());
        assert(kept_rows(a, seen) + Seq::<FolderMessage>::empty() =~= kept_rows(a, seen));
    }
}

proof fn lemma_forest_rows_push(ts: Seq<FolderTree>, t: FolderTree)
    ensures
        forest_rows(ts.push(t)) == forest_rows(ts) + tree_rows(t),
{
    assert(ts.push(t).drop_last() =~= ts);
    assert(ts.push(t).last() == t);
}

/// Collects the records of the messages of `folder` and its subfolders into
/// `messages`, skipping every message node already in `seen` and adding each
/// node it takes to `seen`; a message that could not be opened is skipped
/// but its node is still marked as seen.
pub fn traverse_folder(folder: &FolderTree, messages: &mut Vec<EmailMessage>, seen: &mut HashSet<u32>)
    ensures
        final(seen)@ == seen_with(old(seen)@, row_ids(kept_rows(tree_rows(*folder), old(seen)@))),
        message_models(final(messages)@) == message_models(old(messages)@) + row_records(
            kept_rows(tree_rows(*folder), old(seen)@),
        ),
    decreases folder,
{
    let ghost seen0 = seen@;
    let ghost msgs0 = message_models(messages@);
    let mut i: usize = 0;
    while i < folder.subfolders.len()
        invariant
            i <= folder.subfolders.len(),
            seen@ == seen_with(
                seen0,
                row_ids(kept_rows(forest_rows(folder.subfolders@.take(i as int)), seen0)),
            ),
            message_models(messages@) == msgs0 + row_records(
                kept_rows(forest_rows(folder.subfolders@.take(i as int)), seen0),
            ),
        decreases folder.subfolders.len() - i,
    {
        let ghost a = forest_rows(folder.subfolders@.take(i as int));
        let ghost ka = kept_rows(a, seen0);
        let ghost sub = folder.subfolders@[i as int];
        let ghost seen1 = seen@;
        let ghost msgs1 = message_models(messages@);
        assert(decreases_to!(folder => folder.subfolders));
        traverse_folder(&folder.subfolders[i], messages, seen);
        proof {
            assert(folder.subfolders@.take(i + 1) =~= folder.subfolders@.take(i as int).push(sub));
            lemma_forest_rows_push(folder.subfolders@.take(i as int), sub);
            lemma_kept_rows_add(a, tree_rows(sub), seen0);
            let kb = kept_rows(tree_rows(sub), seen_with(seen0, row_ids(ka)));
            assert(row_ids(ka + kb) =~= row_ids(ka) + row_ids(kb));
            vstd::seq_lib::seq_to_set_distributes_over_add(row_ids(ka), row_ids(kb));
            assert(seen@ =~= seen_with(seen0, row_ids(ka + kb)));
            lemma_row_records_add(ka, kb);
            assert(message_models(messages@) =~= msgs0 + row_records(ka + kb));
        }
        i = i + 1;
    }
    assert(folder.subfolders@.take(i as int) =~= folder.subfolders@);
    let ghost f = forest_rows(folder.subfolders@);
    let mut j: usize = 0;
    while j < folder.messages.len()
        invariant
            j <= folder.messages.len(),
            f == forest_rows(folder.subfolders@),
            seen@ == seen_with(seen0, row_ids(kept_rows(f + folder.messages@.take(j as int), seen0))),
            message_models(messages@) == msgs0 + row_records(
                kept_rows(f + folder.messages@.take(j as int), seen0),
            ),
        decreases folder.messages.len() - j,
    {
        let m = &folder.messages[j];
        let ghost rows = f + folder.messages@.take(j as int);
        let ghost k = kept_rows(rows, seen0);
        proof {
            assert(f + folder.messages@.take(j + 1) =~= rows.push(*m));
            lemma_kept_rows_push(rows, *m, seen0);
        }
        if !seen.contains(&m.node_id) {
            let ghost before = message_models(messages@);
            seen.insert(m.node_id);
            proof {
                assert(row_ids(k + seq![*m]) =~= row_ids(k).push(m.node_id));
                lemma_seen_with_cons(seen0, m.node_id, row_ids(k));
                lemma_row_records_add(k, seq![*m]);
                assert(seq![*m].drop_last() =~= Seq::<FolderMessage>::empty());
                assert(seq![*m].last() == *m);
                assert(row_records(Seq::<FolderMessage>::empty()) =~= Seq::<MessageModel>::empty());
            }
            match &m.props {
                Some(p) => {
                    let e = extract_message(p, m.node_id);
                    messages.push(e);
                    assert(message_models(messages@) =~= before.push(e@));
                    assert(row_records(seq![*m]) =~= seq![e@]);
                },
                None => {
                    assert(row_records(seq![*m]) =~= Seq::<MessageModel>::empty());
                },
            }
        } else {
            assert(k + Seq::<FolderMessage>::empty() =~= k);
        }
        j = j + 1;
    }
    assert(folder.messages@.take(j as int) =~= folder.messages@);
}

/// The records of the messages of an archive's folder tree, in visiting
/// order, each message node taken once.
pub fn collect_messages(root: &FolderTree) -> (r: Vec<EmailMessage>)
    ensures
        message_models(r@) == row_records(kept_rows(tree_rows(*root), Set::empty())),
{
    let mut messages: Vec<EmailMessage> = Vec::new();
    let mut seen: HashSet<u32> = HashSet::new();
    traverse_folder(root, &mut messages, &mut seen);
    assert(message_models(Seq::<EmailMessage>::empty()) =~= Seq::<MessageModel>::empty());
    assert(message_models(messages@) =~= row_records(kept_rows(tree_rows(*root), Set::empty())));
    messages
}

/// Collects the node ids of the messages of `folder` and its subfolders into
/// `entry_ids`, skipping every node already in `seen` and adding each node it
/// takes to `seen`.
pub fn collect_folder_messages(folder: &FolderTree, entry_ids: &mut Vec<u32>, seen: &mut HashSet<u32>)
    ensures
        final(seen)@ == seen_with(old(seen)@, row_ids(kept_rows(tree_rows(*folder), old(seen)@))),
        final(entry_ids)@ == old(entry_ids)@ + row_ids(kept_rows(tree_rows(*folder), old(seen)@)),
    decreases folder,
{
    let ghost seen0 = seen@;
    let ghost ids0 = entry_ids@;
    let mut i: usize = 0;
    while i < folder.subfolders.len()
        invariant
            i <= folder.subfolders.len(),
            seen@ == seen_with(
                seen0,
                row_ids(kept_rows(forest_rows(folder.subfolders@.take(i as int)), seen0)),
            ),
            entry_ids@ == ids0 + row_ids(
                kept_rows(forest_rows(folder.subfolders@.take(i as int)), seen0),
            ),
        decreases folder.subfolders.len() - i,
    {
        let ghost a = forest_rows(folder.subfolders@.take(i as int));
        let ghost ka = kept_rows(a, seen0);
        let ghost sub = folder.subfolders@[i as int];
        assert(decreases_to!(folder => folder.subfolders));
        collect_folder_messages(&folder.subfolders[i], entry_ids, seen);
        proof {
            assert(folder.subfolders@.take(i + 1) =~= folder.subfolders@.take(i as int).push(sub));
            lemma_forest_rows_push(folder.subfolders@.take(i as int), sub);
            lemma_kept_rows_add(a, tree_rows(sub), seen0);
            let kb = kept_rows(tree_rows(sub), seen_with(seen0, row_ids(ka)));
            assert(row_ids(ka + kb) =~= row_ids(ka) + row_ids(kb));
            vstd::seq_lib::seq_to_set_distributes_over_add(row_ids(ka), row_ids(kb));
            assert(seen@ =~= seen_with(seen0, row_ids(ka + kb)));
            assert(entry_ids@ =~= ids0 + row_ids(ka + kb));
        }
        i = i + 1;
    }
    assert(folder.subfolders@.take(i as int) =~= folder.subfolders@);
    let ghost f = forest_rows(folder.subfolders@);
    let mut j: usize = 0;
    while j < folder.messages.len()
        invariant
            j <= folder.messages.len(),
            f == forest_rows(folder.subfolders@),
            seen@ == seen_with(seen0, row_ids(kept_rows(f + folder.messages@.take(j as int), seen0))),
            entry_ids@ == ids0 + row_ids(kept_rows(f + folder.messages@.take(j as int), seen0)),
        decreases folder.messages.len() - j,
    {
        let m = &folder.messages[j];
        let ghost rows = f + folder.messages@.take(j as int);
        let ghost k = kept_rows(rows, seen0);
        proof {
            assert(f + folder.messages@.take(j + 1) =~= rows.push(*m));
            lemma_kept_rows_push(rows, *m, seen0);
        }
        if !seen.contains(&m.node_id) {
            seen.insert(m.node_id);
            entry_ids.push(m.node_id);
            assert(row_ids(k + seq![*m]) =~= row_ids(k).push(m.node_id));
            proof {
                lemma_seen_with_cons(seen0, m.node_id, row_ids(k));
            }
        } else {
            assert(k + Seq::<FolderMessage>::empty() =~= k);
        }
        j = j + 1;
    }
    assert(folder.messages@.take(j as int) =~= folder.messages@);
}

/// The node ids of the messages of an archive, in visiting order, each
/// taken once; none when the root folder could not be opened.
pub fn collect_message_entry_ids(root: Option<&FolderTree>) -> (r: Vec<u32>)
    ensures
        r@ == match root {
            Some(t) => row_ids(kept_rows(tree_rows(*t), Set::empty())),
            None => Seq::empty(),
        },
{
    let mut entry_ids: Vec<u32> = Vec::new();
    match root {
        Some(t) => {
            let mut seen: HashSet<u32> = HashSet::new();
            collect_folder_messages(t, &mut entry_ids, &mut seen);
        },
        None => {},
    }
    entry_ids
}

/// The kept rows take no node id of `seen`, no node id twice, and every
/// node id of `rows` that is not in `seen`.
pub proof fn lemma_kept_rows_ids(rows: Seq<FolderMessage>, seen: Set<u32>)
    ensures
        row_ids(kept_rows(rows, seen)).no_duplicates(),
        forall|x: u32| #[trigger] row_ids(kept_rows(rows, seen)).contains(x) ==> !seen.contains(x),
        forall|x: u32| #[trigger] row_ids(kept_rows(rows, seen)).contains(x) ==> row_ids(
            rows,
        ).contains(x),
        forall|x: u32| #[trigger] row_ids(rows).contains(x) ==> seen.contains(x) || row_ids(
            kept_rows(rows, seen),
        ).contains(x),
    decreases rows.len(),
{
    if rows.len() > 0 {
        let m = rows[0];
        let rest = rows.drop_first();
        assert(row_ids(rows) =~= seq![m.node_id] + row_ids(rest));
        if seen.contains(m.node_id) {
            lemma_kept_rows_ids(rest, seen);
            assert(kept_rows(rows, seen) == kept_rows(rest, seen));
            assert forall|x: u32| #[trigger] row_ids(rows).contains(x) implies seen.contains(x)
                || row_ids(kept_rows(rows, seen)).contains(x) by {
                if x != m.node_id {
                    let i = choose|i: int| 0 <= i < row_ids(rows).len() && row_ids(rows)[i] == x;
                    assert(row_ids(rest)[i - 1] == x);
                    assert(row_ids(rest).contains(x));
                }
            }
            assert forall|x: u32| #[trigger] row_ids(kept_rows(rows, seen)).contains(x)
                implies row_ids(rows).contains(x) by {
                assert(row_ids(rest).contains(x));
                let t = choose|t: int| 0 <= t < row_ids(rest).len() && row_ids(rest)[t] == x;
                assert(row_ids(rows)[t + 1] == x);
            }
        } else {
            let s2 = seen.insert(m.node_id);
            lemma_kept_rows_ids(rest, s2);
            let k = kept_rows(rest, s2);
            assert(kept_rows(rows, seen) == seq![m] + k);
            assert(row_ids(seq![m] + k) =~= seq![m.node_id] + row_ids(k));
            assert forall|x: u32| #[trigger] row_ids(rows).contains(x) implies seen.contains(x)
                || row_ids(kept_rows(rows, seen)).contains(x) by {
                if x != m.node_id {
                    let i = choose|i: int| 0 <= i < row_ids(rows).len() && row_ids(rows)[i] == x;
                    assert(row_ids(rest)[i - 1] == x);
                    assert(row_ids(rest).contains(x));
                    if !s2.contains(x) {
                        let j = choose|j: int| 0 <= j < row_ids(k).len() && row_ids(k)[j] == x;
                        assert(row_ids(kept_rows(rows, seen))[j + 1] == x);
                    }
                } else {
                    assert(row_ids(kept_rows(rows, seen))[0] == x);
                }
            }
            assert forall|x: u32| #[trigger] row_ids(kept_rows(rows, seen)).contains(x)
                implies !seen.contains(x) && row_ids(rows).contains(x) by {
                let j = choose|j: int| 0 <= j < row_ids(kept_rows(rows, seen)).len() && row_ids(kept_rows(rows, seen))[j] == x;
                if j == 0 {
                    assert(row_ids(rows)[0] == x);
                } else {
                    assert(row_ids(k)[j - 1] == x);
                    assert(row_ids(k).contains(x));
                    assert(!s2.contains(x));
                    let t = choose|t: int| 0 <= t < row_ids(rest).len() && row_ids(rest)[t] == x;
                    assert(row_ids(rows)[t + 1] == x);
                }
            }
            assert forall|p: int, q: int| 0 <= p < q < row_ids(kept_rows(rows, seen)).len()
                implies row_ids(kept_rows(rows, seen))[p] != row_ids(kept_rows(rows, seen))[q] by {
                if p == 0 {
                    assert(row_ids(k)[q - 1] == row_ids(kept_rows(rows, seen))[q]);
                    assert(row_ids(k).contains(row_ids(k)[q - 1]));
                } else {
                    assert(row_ids(k)[p - 1] == row_ids(kept_rows(rows, seen))[p]);
                    assert(row_ids(k)[q - 1] == row_ids(kept_rows(rows, seen))[q]);
                }
            }
        }
    }
}

/// Every message node of an archive's folder tree is collected exactly once:
/// the collected ids have no repetition and are exactly the node ids of the
/// tree's message rows.
pub proof fn law_each_message_node_once(root: FolderTree)
    ensures
        row_ids(kept_rows(tree_rows(root), Set::empty())).no_duplicates(),
        forall|x: u32| #[trigger] row_ids(kept_rows(tree_rows(root), Set::empty())).contains(x)
            <==> row_ids(tree_rows(root)).contains(x),
{
    lemma_kept_rows_ids(tree_rows(root), Set::empty());
}

} // verus!
