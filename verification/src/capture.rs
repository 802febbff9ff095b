use crate::state::{do_op, OpV, Scratchpad, StateV};
use crate::text::{
    all_blank, lemma_trim_blank, normalize_endings, normalized_eq, trim_spec, trim_string,
};
use vstd::prelude::*;

verus! {

/// What one capture attempt does to the state: trim the inserted block's
/// text, discard it if nothing remains or if it merely echoes the current
/// selection under line-ending normalization, and otherwise commit it as a
/// new line, recording the inverse `Remove`.
pub open spec fn capture_step(s: StateV, text: Seq<char>, sel: Seq<char>) -> StateV {
    let t = trim_spec(text);
    if t.len() == 0 || normalize_endings(t) == normalize_endings(sel) {
        s
    } else {
        do_op(s, OpV::Add(t))
    }
}

/// Echo suppression: when the inserted block's trimmed text equals the
/// tracked selection under line-ending normalization, nothing changes — no
/// line is added and no history entry is pushed.
pub proof fn lemma_echo_suppressed(s: StateV, text: Seq<char>, sel: Seq<char>)
    requires
        normalize_endings(trim_spec(text)) == normalize_endings(sel),
    ensures
        capture_step(s, text, sel) == s,
{
}

/// An inserted block that is empty or whitespace-only never adds a line
/// and never touches the state.
pub proof fn lemma_blank_capture_ignored(s: StateV, text: Seq<char>, sel: Seq<char>)
    requires
        all_blank(text),
    ensures
        capture_step(s, text, sel) == s,
{
    lemma_trim_blank(text);
}

/// One qualifying inserted block reaches the ledger here. Returns the id
/// of the committed line, or `None` for the two benign no-ops: blank text
/// and a selection echo.
pub fn capture_insertion(pad: &mut Scratchpad, text: &str, selection: &str) -> (r: Option<usize>)
    requires
        old(pad).wf(),
        old(pad)@.next_id < usize::MAX,
    ensures
        final(pad).wf(),
        final(pad)@ == capture_step(old(pad)@, text@, selection@),
        match r {
            Option::Some(id) => id as nat == old(pad)@.next_id && trim_spec(text@).len() > 0
                && normalize_endings(trim_spec(text@)) != normalize_endings(selection@),
            Option::None => trim_spec(text@).len() == 0 || normalize_endings(trim_spec(text@))
                == normalize_endings(selection@),
        },
{
    let trimmed = trim_string(text);
    if trimmed.as_str().is_empty() {
        return Option::None;
    }
    if normalized_eq(trimmed.as_str(), selection) {
        return Option::None;
    }
    let id = pad.add_line(trimmed);
    Option::Some(id)
}

/// One inserted node as the observer sees it: whether it has the
/// block-paragraph shape the host wraps typed or pasted content in, and
/// its extracted text content.
pub struct InsertedNode {
    pub is_paragraph: bool,
    pub text: String,
}

#[verifier::ext_equal]
pub ghost struct InsertedNodeV {
    pub is_paragraph: bool,
    pub text: Seq<char>,
}

impl View for InsertedNode {
    type V = InsertedNodeV;

    open spec fn view(&self) -> InsertedNodeV {
        InsertedNodeV { is_paragraph: self.is_paragraph, text: self.text@ }
    }
}

/// One batched change record: whether its target is the root content
/// container, whether its kind is "children changed", and the nodes it
/// reports as newly added, in document order.
pub struct ChangeRecord {
    pub target_is_root: bool,
    pub children_changed: bool,
    pub added: Vec<InsertedNode>,
}

#[verifier::ext_equal]
pub ghost struct ChangeRecordV {
    pub target_is_root: bool,
    pub children_changed: bool,
    pub added: Seq<InsertedNodeV>,
}

impl View for ChangeRecord {
    type V = ChangeRecordV;

    open spec fn view(&self) -> ChangeRecordV {
        ChangeRecordV {
            target_is_root: self.target_is_root,
            children_changed: self.children_changed,
            added: self.added@.map_values(|n: InsertedNode| n@),
        }
    }
}

/// The texts a record's nodes offer for capture: paragraph-shaped nodes
/// only, in document order.
pub open spec fn node_texts(ns: Seq<InsertedNodeV>) -> Seq<Seq<char>>
    decreases ns.len(),
{
    if ns.len() == 0 {
        Seq::empty()
    } else {
        node_texts(ns.drop_last()) + if ns.last().is_paragraph {
            seq![ns.last().text]
        } else {
            Seq::empty()
        }
    }
}

/// The texts one record contributes: none unless it targets the root
/// container and reports changed children.
pub open spec fn record_texts(r: ChangeRecordV) -> Seq<Seq<char>> {
    if r.target_is_root && r.children_changed {
        node_texts(r.added)
    } else {
        Seq::empty()
    }
}

/// The texts a whole batch offers, record by record, in order.
pub open spec fn batch_texts(rs: Seq<ChangeRecordV>) -> Seq<Seq<char>>
    decreases rs.len(),
{
    if rs.len() == 0 {
        Seq::empty()
    } else {
        batch_texts(rs.drop_last()) + record_texts(rs.last())
    }
}

/// How many nodes a batch reports added, counting every record.
pub open spec fn batch_node_count(rs: Seq<ChangeRecordV>) -> nat
    decreases rs.len(),
{
    if rs.len() == 0 {
        0
    } else {
        batch_node_count(rs.drop_last()) + rs.last().added.len()
    }
}

/// Capture steps folded over a list of texts, in order: what processing a
/// batch does to the state.
pub open spec fn capture_fold(s: StateV, texts: Seq<Seq<char>>, sel: Seq<char>) -> StateV
    decreases texts.len(),
{
    if texts.len() == 0 {
        s
    } else {
        capture_step(capture_fold(s, texts.drop_last(), sel), texts.last(), sel)
    }
}

proof fn lemma_count_concat(a: Seq<ChangeRecordV>, b: Seq<ChangeRecordV>)
    ensures
        batch_node_count(a + b) == batch_node_count(a) + batch_node_count(b),
    decreases b.len(),
{
    if b.len() == 0 {
        assert(a + b =~= a);
    } else {
        assert((a + b).drop_last() =~= a + b.drop_last());
        assert((a + b).last() == b.last());
        lemma_count_concat(a, b.drop_last());
    }
}

/// A prefix of a batch never counts more nodes than the whole batch.
proof fn lemma_count_take(rs: Seq<ChangeRecordV>, k: int)
    requires
        0 <= k <= rs.len(),
    ensures
        batch_node_count(rs.take(k)) <= batch_node_count(rs),
{
    assert(rs =~= rs.take(k) + rs.skip(k));
    lemma_count_concat(rs.take(k), rs.skip(k));
}

/// Process one asynchronous batch of change records in document order:
/// keep the records whose target is the root container and whose kind is
/// "children changed", keep their paragraph-shaped added nodes, and run
/// each node's text through the capture step against the tracked
/// selection. Each commit is an independent mutation with its own history
/// entry. Returns the committed ids, which are consecutive from the id
/// counter's starting value.
pub fn process_batch(pad: &mut Scratchpad, records: &Vec<ChangeRecord>, selection: &str) -> (added:
    Vec<usize>)
    requires
        old(pad).wf(),
        old(pad)@.next_id + batch_node_count(records@.map_values(|r: ChangeRecord| r@))
            <= usize::MAX,
    ensures
        final(pad).wf(),
        final(pad)@ == capture_fold(
            old(pad)@,
            batch_texts(records@.map_values(|r: ChangeRecord| r@)),
            selection@,
        ),
        added@.len() == final(pad)@.next_id - old(pad)@.next_id,
        forall|k: int| 0 <= k < added@.len() ==> (#[trigger] added@[k]) as nat == old(
            pad,
        )@.next_id + k,
{
    let ghost rsv = records@.map_values(|r: ChangeRecord| r@);
    let ghost sel = selection@;
    let ghost s0 = old(pad)@;
    let mut added: Vec<usize> = Vec::new();
    let mut i: usize = 0;
    proof {
        assert(rsv.take(0) =~= Seq::<ChangeRecordV>::empty());
        assert(batch_texts(rsv.take(0)) =~= Seq::<Seq<char>>::empty());
    }
    while i < records.len()
        invariant
            old(pad).wf(),
            s0 == old(pad)@,
            s0.next_id + batch_node_count(rsv) <= usize::MAX,
            rsv == records@.map_values(|r: ChangeRecord| r@),
            sel == selection@,
            i <= records@.len(),
            records@.len() == rsv.len(),
            pad.wf(),
            pad@ == capture_fold(s0, batch_texts(rsv.take(i as int)), sel),
            pad@.next_id <= s0.next_id + batch_node_count(rsv.take(i as int)),
            added@.len() == pad@.next_id - s0.next_id,
            forall|k: int| 0 <= k < added@.len() ==> (#[trigger] added@[k]) as nat == s0.next_id
                + k,
        decreases records@.len() - i,
    {
        let rec = &records[i];
        proof {
            assert(rsv[i as int] == rec@);
            assert(rsv.take(i + 1).drop_last() =~= rsv.take(i as int));
            assert(rsv.take(i + 1).last() == rsv[i as int]);
            lemma_count_take(rsv, i + 1);
        }
        if rec.target_is_root && rec.children_changed {
            let ghost nsv = rec.added@.map_values(|n: InsertedNode| n@);
            let mut j: usize = 0;
            proof {
                assert(nsv.take(0) =~= Seq::<InsertedNodeV>::empty());
                assert(batch_texts(rsv.take(i as int)) + node_texts(nsv.take(0)) =~= batch_texts(
                    rsv.take(i as int),
                ));
            }
            while j < rec.added.len()
                invariant
                    old(pad).wf(),
                    s0 == old(pad)@,
                    s0.next_id + batch_node_count(rsv) <= usize::MAX,
                    rsv == records@.map_values(|r: ChangeRecord| r@),
                    sel == selection@,
                    i < records@.len(),
                    records@.len() == rsv.len(),
                    rec == &records[i as int],
                    rec.target_is_root && rec.children_changed,
                    rsv[i as int] == rec@,
                    nsv == rec.added@.map_values(|n: InsertedNode| n@),
                    j <= rec.added@.len(),
                    rec.added@.len() == nsv.len(),
                    batch_node_count(rsv.take(i + 1)) == batch_node_count(rsv.take(i as int))
                        + nsv.len(),
                    batch_node_count(rsv.take(i + 1)) <= batch_node_count(rsv),
                    pad.wf(),
                    pad@ == capture_fold(
                        s0,
                        batch_texts(rsv.take(i as int)) + node_texts(nsv.take(j as int)),
                        sel,
                    ),
                    pad@.next_id <= s0.next_id + batch_node_count(rsv.take(i as int)) + j,
                    added@.len() == pad@.next_id - s0.next_id,
                    forall|k: int| 0 <= k < added@.len() ==> (#[trigger] added@[k]) as nat
                        == s0.next_id + k,
                decreases rec.added@.len() - j,
            {
                proof {
                    assert(nsv[j as int] == rec.added@[j as int]@);
                    assert(nsv.take(j + 1).drop_last() =~= nsv.take(j as int));
                    assert(nsv.take(j + 1).last() == nsv[j as int]);
                }
                if rec.added[j].is_paragraph {
                    proof {
                        assert(pad@.next_id < usize::MAX) by {
                            assert(j + 1 <= nsv.len());
                        }
                    }
                    let ghost before = pad@;
                    let ghost texts_done = batch_texts(rsv.take(i as int)) + node_texts(
                        nsv.take(j as int),
                    );
                    let r = capture_insertion(pad, rec.added[j].text.as_str(), selection);
                    proof {
                        let t = nsv[j as int].text;
                        assert(texts_done.push(t).drop_last() =~= texts_done);
                        assert(capture_fold(s0, texts_done.push(t), sel) == capture_step(
                            before,
                            t,
                            sel,
                        ));
                        assert(batch_texts(rsv.take(i as int)) + node_texts(nsv.take(j + 1))
                            =~= texts_done.push(t));
                    }
                    match r {
                        Option::Some(id) => {
                            added.push(id);
                        }
                        Option::None => {
                        }
                    }
                } else {
                    proof {
                        assert(node_texts(nsv.take(j + 1)) =~= node_texts(nsv.take(j as int)));
                    }
                }
                j = j + 1;
            }
            proof {
                assert(nsv.take(nsv.len() as int) =~= nsv);
                assert(record_texts(rsv[i as int]) == node_texts(nsv));
                assert(batch_texts(rsv.take(i + 1)) =~= batch_texts(rsv.take(i as int))
                    + node_texts(nsv));
            }
        } else {
            proof {
                assert(record_texts(rsv[i as int]) =~= Seq::<Seq<char>>::empty());
                assert(batch_texts(rsv.take(i + 1)) =~= batch_texts(rsv.take(i as int)));
            }
        }
        i = i + 1;
    }
    proof {
        assert(rsv.take(rsv.len() as int) =~= rsv);
    }
    added
}

/// The tracked text selection, kept as a plain string and refreshed on
/// every selection change. Only a non-collapsed range selection yields
/// text: a bare caret — or an unavailable selection service — tracks as
/// the empty string.
pub struct SelectionTracker {
    text: String,
}

impl View for SelectionTracker {
    type V = Seq<char>;

    closed spec fn view(&self) -> Seq<char> {
        self.text@
    }
}

impl SelectionTracker {
    pub fn new() -> (r: SelectionTracker)
        ensures
            r@ == Seq::<char>::empty(),
    {
        SelectionTracker { text: String::new() }
    }

    /// Record the current selection. `is_range` says whether the host
    /// reports a non-collapsed range; anything else tracks as empty.
    pub fn refresh(&mut self, is_range: bool, text: String)
        ensures
            final(self)@ == if is_range {
                text@
            } else {
                Seq::<char>::empty()
            },
    {
        if is_range {
            self.text = text;
        } else {
            self.text = String::new();
        }
    }

    /// The last computed selection text; reading it establishes no
    /// dependency, so a stale-by-one-notification read is possible and
    /// accepted.
    pub fn current(&self) -> (t: &str)
        ensures
            t@ == self@,
    {
        self.text.as_str()
    }
}

} // verus!
