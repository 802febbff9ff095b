use crate::history::{
    apply_redo, apply_undo, redo_ids_below, redo_mirror, redos_ids_below, redos_valid,
    undo_ids_below, undo_mirror, undos_ids_below, undos_valid, RedoEntry, RedoEntryV, UndoEntry,
    UndoEntryV, UndoStack,
};
use crate::ledger::{
    ids_below, ids_sorted, l_contains, l_get, l_insert, l_remove, l_update, lemma_insert_remove,
    lemma_insert_sorted, lemma_l_find_contains, lemma_remove_insert, lemma_remove_sorted,
    lemma_update_sorted, lemma_update_update, normalize_spec, Ledger, LedgerV, Line, LineV,
};
use crate::text::{trim_spec, trim_string};
use vstd::prelude::*;

verus! {

/// The whole core at one instant: the ledger, the two history stacks, and
/// the id counter from which fresh lines are keyed.
#[verifier::ext_equal]
pub ghost struct StateV {
    pub ledger: LedgerV,
    pub undos: Seq<UndoEntryV>,
    pub redos: Seq<RedoEntryV>,
    pub next_id: nat,
}

/// The core's invariant: the ledger is sorted, both stacks tell a
/// consistent linear story against it, and every id anywhere lies below
/// the id counter, so a fresh id never collides.
pub open spec fn state_wf(s: StateV) -> bool {
    &&& ids_sorted(s.ledger)
    &&& undos_valid(s.undos, s.ledger)
    &&& redos_valid(s.redos, s.ledger)
    &&& s.next_id <= usize::MAX
    &&& ids_below(s.ledger, s.next_id)
    &&& undos_ids_below(s.undos, s.next_id)
    &&& redos_ids_below(s.redos, s.next_id)
}

/// One externally-visible ledger mutation: a committed capture or new
/// line, a committed edit, a removal, or a clear-all.
#[verifier::ext_equal]
pub ghost enum OpV {
    Add(Seq<char>),
    Edit(usize, Seq<char>),
    Remove(usize),
    Clear,
}

pub open spec fn op_applicable(s: StateV, op: OpV) -> bool {
    match op {
        OpV::Add(_) => s.next_id < usize::MAX,
        OpV::Edit(id, _) => l_contains(s.ledger, id) && l_get(s.ledger, id).version < usize::MAX,
        OpV::Remove(id) => l_contains(s.ledger, id),
        OpV::Clear => s.ledger.len() > 0,
    }
}

/// The state after a mutation: the ledger changes, the mutation's exact
/// inverse is pushed onto the undo stack, and the redo stack is cleared.
pub open spec fn do_op(s: StateV, op: OpV) -> StateV {
    match op {
        OpV::Add(t) => (StateV {
            ledger: l_insert(s.ledger, s.next_id as usize, (LineV { version: 0 as nat, text: t })),
            undos: s.undos.push(UndoEntryV::Remove(s.next_id as usize)),
            redos: Seq::empty(),
            next_id: s.next_id + 1,
        }),
        OpV::Edit(id, t) => (StateV {
            ledger: l_update(
                s.ledger,
                id,
                (LineV { version: (l_get(s.ledger, id).version + 1) as nat, text: t }),
            ),
            undos: s.undos.push(UndoEntryV::Edit(id, l_get(s.ledger, id).text)),
            redos: Seq::empty(),
            next_id: s.next_id,
        }),
        OpV::Remove(id) => (StateV {
            ledger: l_remove(s.ledger, id),
            undos: s.undos.push(UndoEntryV::Add(id, l_get(s.ledger, id))),
            redos: Seq::empty(),
            next_id: s.next_id,
        }),
        OpV::Clear => (StateV {
            ledger: Seq::empty(),
            undos: s.undos.push(UndoEntryV::ReplaceAll(s.ledger)),
            redos: Seq::empty(),
            next_id: s.next_id,
        }),
    }
}

/// The state after one undo: a no-op on an empty undo stack; otherwise the
/// top entry's inverse action is applied and its mirror pushed for redo.
pub open spec fn do_undo(s: StateV) -> StateV {
    if s.undos.len() == 0 {
        s
    } else {
        let e = s.undos.last();
        StateV {
            ledger: apply_undo(e, s.ledger),
            undos: s.undos.drop_last(),
            redos: s.redos.push(undo_mirror(e, s.ledger)),
            next_id: s.next_id,
        }
    }
}

/// The state after one redo, symmetrically.
pub open spec fn do_redo(s: StateV) -> StateV {
    if s.redos.len() == 0 {
        s
    } else {
        let e = s.redos.last();
        StateV {
            ledger: apply_redo(e, s.ledger),
            undos: s.undos.push(redo_mirror(e, s.ledger)),
            redos: s.redos.drop_last(),
            next_id: s.next_id,
        }
    }
}

proof fn lemma_undos_ids_below_mono(us: Seq<UndoEntryV>, b: nat, b2: nat)
    requires
        undos_ids_below(us, b),
        b <= b2,
    ensures
        undos_ids_below(us, b2),
{
    assert forall|i: int| 0 <= i < us.len() implies undo_ids_below(#[trigger] us[i], b2) by {
        assert(undo_ids_below(us[i], b));
    }
}

/// A mutation preserves the invariant, grows the undo stack by exactly
/// one, and one undo then restores the prior ledger and undo stack.
pub proof fn lemma_op_wf(s: StateV, op: OpV)
    requires
        state_wf(s),
        op_applicable(s, op),
    ensures
        state_wf(do_op(s, op)),
        do_op(s, op).undos.len() == s.undos.len() + 1,
        do_op(s, op).redos.len() == 0,
        do_undo(do_op(s, op)).ledger == s.ledger,
        do_undo(do_op(s, op)).undos == s.undos,
        do_undo(do_op(s, op)).next_id == do_op(s, op).next_id,
{
    let post = do_op(s, op);
    let b2 = post.next_id;
    lemma_undos_ids_below_mono(s.undos, s.next_id, b2);
    match op {
        OpV::Add(t) => {
            let id = s.next_id as usize;
            let line = LineV { version: 0 as nat, text: t };
            assert(!l_contains(s.ledger, id)) by {
                if l_contains(s.ledger, id) {
                    let w = choose|i: int|
                        0 <= i < s.ledger.len() && (#[trigger] s.ledger[i]).0 == id;
                    assert(s.ledger[w].0 < s.next_id);
                }
            }
            lemma_insert_sorted(s.ledger, id, line);
            lemma_remove_insert(s.ledger, id, line);
            assert(ids_below(s.ledger, b2));
            assert(post.undos.drop_last() =~= s.undos);
            assert(undos_valid(post.undos, post.ledger));
        }
        OpV::Edit(id, t) => {
            let cur = l_get(s.ledger, id);
            let up = LineV { version: (cur.version + 1) as nat, text: t };
            lemma_l_find_contains(s.ledger, id);
            lemma_update_sorted(s.ledger, id, up);
            lemma_update_update(s.ledger, id, up);
            assert((LineV { version: (l_get(post.ledger, id).version - 1) as nat, text: cur.text })
                =~= cur);
            assert(apply_undo(post.undos.last(), post.ledger) == s.ledger);
            assert(post.undos.drop_last() =~= s.undos);
            assert(undos_valid(post.undos, post.ledger));
        }
        OpV::Remove(id) => {
            lemma_l_find_contains(s.ledger, id);
            lemma_remove_sorted(s.ledger, id);
            lemma_insert_remove(s.ledger, id);
            assert(post.undos.drop_last() =~= s.undos);
            assert(undos_valid(post.undos, post.ledger));
        }
        OpV::Clear => {
            assert(post.undos.drop_last() =~= s.undos);
            assert(undos_valid(post.undos, post.ledger));
        }
    }
}

/// An undo preserves the invariant, and a redo straight after restores the
/// entire state exactly.
pub proof fn lemma_undo_wf(s: StateV)
    requires
        state_wf(s),
    ensures
        state_wf(do_undo(s)),
        do_undo(s).next_id == s.next_id,
        s.undos.len() > 0 ==> do_undo(s).undos.len() == s.undos.len() - 1,
        s.undos.len() > 0 ==> do_redo(do_undo(s)) == s,
{
    if s.undos.len() == 0 {
        return ;
    }
    let e = s.undos.last();
    let l = s.ledger;
    let l2 = apply_undo(e, l);
    let m = undo_mirror(e, l);
    crate::history::lemma_undo_mirror(e, l);
    let post = do_undo(s);
    assert(undo_ids_below(e, s.next_id)) by {
        assert(undo_ids_below(s.undos[s.undos.len() - 1], s.next_id));
    }
    assert(redos_valid(post.redos, l2)) by {
        assert(post.redos.last() == m);
        assert(post.redos.drop_last() =~= s.redos);
        assert(apply_redo(m, l2) == l);
    }
    assert(undos_ids_below(post.undos, s.next_id)) by {
        assert forall|i: int| 0 <= i < post.undos.len() implies undo_ids_below(
            #[trigger] post.undos[i],
            s.next_id,
        ) by {
            assert(post.undos[i] == s.undos[i]);
            assert(undo_ids_below(s.undos[i], s.next_id));
        }
    }
    assert(redos_ids_below(post.redos, s.next_id)) by {
        assert forall|i: int| 0 <= i < post.redos.len() implies redo_ids_below(
            #[trigger] post.redos[i],
            s.next_id,
        ) by {
            if i < post.redos.len() - 1 {
                assert(post.redos[i] == s.redos[i]);
                assert(redo_ids_below(s.redos[i], s.next_id));
            } else {
                assert(post.redos[i] == m);
            }
        }
    }
    let back = do_redo(post);
    assert(back.ledger == l);
    assert(back.undos =~= s.undos) by {
        assert(redo_mirror(m, l2) == e);
        assert(post.undos.push(e) =~= s.undos);
    }
    assert(back.redos =~= s.redos);
    assert(back =~= s);
}

/// A redo preserves the invariant, and an undo straight after restores the
/// entire state exactly.
pub proof fn lemma_redo_wf(s: StateV)
    requires
        state_wf(s),
    ensures
        state_wf(do_redo(s)),
        do_redo(s).next_id == s.next_id,
        s.redos.len() > 0 ==> do_redo(s).redos.len() == s.redos.len() - 1,
        s.redos.len() > 0 ==> do_undo(do_redo(s)) == s,
{
    if s.redos.len() == 0 {
        return ;
    }
    let e = s.redos.last();
    let l = s.ledger;
    let l2 = apply_redo(e, l);
    let m = redo_mirror(e, l);
    crate::history::lemma_redo_mirror(e, l);
    let post = do_redo(s);
    assert(redo_ids_below(e, s.next_id)) by {
        assert(redo_ids_below(s.redos[s.redos.len() - 1], s.next_id));
    }
    assert(undos_valid(post.undos, l2)) by {
        assert(post.undos.last() == m);
        assert(post.undos.drop_last() =~= s.undos);
        assert(apply_undo(m, l2) == l);
    }
    assert(redos_ids_below(post.redos, s.next_id)) by {
        assert forall|i: int| 0 <= i < post.redos.len() implies redo_ids_below(
            #[trigger] post.redos[i],
            s.next_id,
        ) by {
            assert(post.redos[i] == s.redos[i]);
            assert(redo_ids_below(s.redos[i], s.next_id));
        }
    }
    assert(undos_ids_below(post.undos, s.next_id)) by {
        assert forall|i: int| 0 <= i < post.undos.len() implies undo_ids_below(
            #[trigger] post.undos[i],
            s.next_id,
        ) by {
            if i < post.undos.len() - 1 {
                assert(post.undos[i] == s.undos[i]);
                assert(undo_ids_below(s.undos[i], s.next_id));
            } else {
                assert(post.undos[i] == m);
            }
        }
    }
    let back = do_undo(post);
    assert(back.ledger == l);
    assert(back.redos =~= s.redos) by {
        assert(undo_mirror(m, l2) == e);
        assert(post.redos.push(e) =~= s.redos);
    }
    assert(back.undos =~= s.undos);
    assert(back =~= s);
}

/// The state after a whole sequence of mutations, applied in order.
pub open spec fn do_ops(s: StateV, ops: Seq<OpV>) -> StateV
    decreases ops.len(),
{
    if ops.len() == 0 {
        s
    } else {
        do_op(do_ops(s, ops.drop_last()), ops.last())
    }
}

/// Each mutation in the sequence is applicable at the state it meets.
pub open spec fn ops_applicable(s: StateV, ops: Seq<OpV>) -> bool
    decreases ops.len(),
{
    ops.len() == 0 || (ops_applicable(s, ops.drop_last()) && op_applicable(
        do_ops(s, ops.drop_last()),
        ops.last(),
    ))
}

pub open spec fn undo_n(s: StateV, n: nat) -> StateV
    decreases n,
{
    if n == 0 {
        s
    } else {
        undo_n(do_undo(s), (n - 1) as nat)
    }
}

pub open spec fn redo_n(s: StateV, n: nat) -> StateV
    decreases n,
{
    if n == 0 {
        s
    } else {
        do_redo(redo_n(s, (n - 1) as nat))
    }
}

/// What a run of undos does to the ledger and the undo stack depends only
/// on the ledger and the undo stack it starts from.
proof fn lemma_undo_n_frame(s1: StateV, s2: StateV, n: nat)
    requires
        s1.ledger == s2.ledger,
        s1.undos == s2.undos,
    ensures
        undo_n(s1, n).ledger == undo_n(s2, n).ledger,
        undo_n(s1, n).undos == undo_n(s2, n).undos,
    decreases n,
{
    if n > 0 {
        lemma_undo_n_frame(do_undo(s1), do_undo(s2), (n - 1) as nat);
    }
}

/// Undoing `n` steps can always be redone: `n` redos afterward restore the
/// entire state — ledger, both stacks and the id counter — exactly.
pub proof fn lemma_undo_then_redo_n(s: StateV, n: nat)
    requires
        state_wf(s),
        n <= s.undos.len(),
    ensures
        state_wf(undo_n(s, n)),
        undo_n(s, n).undos.len() == s.undos.len() - n,
        redo_n(undo_n(s, n), n) == s,
    decreases n,
{
    if n > 0 {
        lemma_undo_wf(s);
        lemma_undo_then_redo_n(do_undo(s), (n - 1) as nat);
        assert(redo_n(undo_n(s, n), n) == do_redo(redo_n(undo_n(do_undo(s), (n - 1) as nat), (n
            - 1) as nat)));
    }
}

/// After any sequence of mutations, that many undos restore the ledger and
/// undo stack that stood before the sequence, and that many redos after
/// those undos restore the post-sequence state exactly.
pub proof fn lemma_ops_round_trip(s: StateV, ops: Seq<OpV>)
    requires
        state_wf(s),
        ops_applicable(s, ops),
    ensures
        state_wf(do_ops(s, ops)),
        do_ops(s, ops).undos.len() == s.undos.len() + ops.len(),
        do_ops(s, ops).next_id >= s.next_id,
        undo_n(do_ops(s, ops), ops.len()).ledger == s.ledger,
        undo_n(do_ops(s, ops), ops.len()).undos == s.undos,
        redo_n(undo_n(do_ops(s, ops), ops.len()), ops.len()) == do_ops(s, ops),
    decreases ops.len(),
{
    let n = ops.len();
    if n > 0 {
        let ops0 = ops.drop_last();
        let op = ops.last();
        lemma_ops_round_trip(s, ops0);
        let mid = do_ops(s, ops0);
        lemma_op_wf(mid, op);
        let post = do_op(mid, op);
        assert(undo_n(post, n) == undo_n(do_undo(post), (n - 1) as nat));
        lemma_undo_n_frame(do_undo(post), mid, (n - 1) as nat);
        lemma_undo_then_redo_n(post, n);
    }
}

/// A fresh mutation leaves the redo stack empty, so a redo straight after
/// is a no-op: history stays linear until the next undo.
pub proof fn lemma_mutation_disables_redo(s: StateV, op: OpV)
    ensures
        do_op(s, op).redos.len() == 0,
        do_redo(do_op(s, op)) == do_op(s, op),
{
}

/// The root application state: the ledger, the command history and the
/// monotone id counter, owned together so that every ledger mutation
/// records its inverse atomically.
pub struct Scratchpad {
    ledger: Ledger,
    history: UndoStack,
    next_id: usize,
}

impl View for Scratchpad {
    type V = StateV;

    closed spec fn view(&self) -> StateV {
        StateV {
            ledger: self.ledger@,
            undos: self.history.undos_v(),
            redos: self.history.redos_v(),
            next_id: self.next_id as nat,
        }
    }
}

impl Scratchpad {
    pub open spec fn wf(self) -> bool {
        state_wf(self@)
    }

    /// Start a session from a loaded ledger: normalize it — contiguous ids
    /// from 0, versions reset — seed the id counter at its length, and
    /// begin with empty history.
    pub fn new(loaded: Ledger) -> (r: Scratchpad)
        ensures
            r.wf(),
            r@.ledger == normalize_spec(loaded@),
            r@.undos.len() == 0,
            r@.redos.len() == 0,
            r@.next_id == loaded@.len(),
    {
        let mut ledger = loaded;
        ledger.normalize();
        let n = ledger.len();
        let r = Scratchpad { ledger, history: UndoStack::new(), next_id: n };
        r
    }

    /// Commit a new line under a fresh id and record its inverse,
    /// `Remove(id)`. Both a successful capture and an explicit new empty
    /// line arrive here. Returns the id used; the counter rises by one and
    /// is never reused, even if the line is later removed.
    pub fn add_line(&mut self, text: String) -> (id: usize)
        requires
            old(self).wf(),
            old(self)@.next_id < usize::MAX,
        ensures
            final(self).wf(),
            final(self)@ == do_op(old(self)@, OpV::Add(text@)),
            id as nat == old(self)@.next_id,
    {
        proof {
            lemma_op_wf(old(self)@, OpV::Add(text@));
        }
        let id = self.next_id;
        self.next_id = self.next_id + 1;
        proof {
            assert(!l_contains(old(self)@.ledger, id)) by {
                if l_contains(old(self)@.ledger, id) {
                    let w = choose|i: int|
                        0 <= i < old(self)@.ledger.len() && (#[trigger] old(self)@.ledger[i]).0
                            == id;
                    assert(old(self)@.ledger[w].0 < old(self)@.next_id);
                }
            }
        }
        self.ledger.insert(id, Line::new(text));
        self.history.push_and_clear_redos(UndoEntry::Remove(id));
        proof {
            assert(self@ =~= do_op(old(self)@, OpV::Add(text@)));
        }
        id
    }

    /// The "new empty line" view intent: an explicit add with empty text,
    /// ready for the view to focus and fill in.
    pub fn add_empty_line(&mut self) -> (id: usize)
        requires
            old(self).wf(),
            old(self)@.next_id < usize::MAX,
        ensures
            final(self).wf(),
            final(self)@ == do_op(old(self)@, OpV::Add(Seq::<char>::empty())),
            id as nat == old(self)@.next_id,
    {
        self.add_line(String::new())
    }

    /// The "edit" view intent. The incoming text is trimmed; an edit whose
    /// trimmed text equals the line's current text is a benign no-op — it
    /// returns false, changes nothing, and pushes no history entry.
    /// Otherwise the text is swapped in, the version rises by exactly one,
    /// and the inverse `Edit` carrying the prior text is recorded.
    pub fn edit_line(&mut self, id: usize, new_text: &str) -> (committed: bool)
        requires
            old(self).wf(),
            l_contains(old(self)@.ledger, id),
            l_get(old(self)@.ledger, id).version < usize::MAX,
        ensures
            final(self).wf(),
            committed == (trim_spec(new_text@) != l_get(old(self)@.ledger, id).text),
            committed ==> final(self)@ == do_op(old(self)@, OpV::Edit(id, trim_spec(new_text@))),
            !committed ==> final(self)@ == old(self)@,
    {
        let trimmed = trim_string(new_text);
        let same = self.ledger.text_at(id).eq(&trimmed);
        if same {
            proof {
                assert(self@ =~= old(self)@);
            }
            return false;
        }
        let old_text = self.ledger.edit_up(id, trimmed);
        self.history.push_and_clear_redos(UndoEntry::Edit(id, old_text));
        proof {
            lemma_op_wf(old(self)@, OpV::Edit(id, trim_spec(new_text@)));
            assert(self@ =~= do_op(old(self)@, OpV::Edit(id, trim_spec(new_text@))));
        }
        true
    }

    /// The "remove" view intent: delete the line and record the inverse
    /// `Add`, carrying the removed line verbatim so undo restores it.
    pub fn remove_line(&mut self, id: usize)
        requires
            old(self).wf(),
            l_contains(old(self)@.ledger, id),
        ensures
            final(self).wf(),
            final(self)@ == do_op(old(self)@, OpV::Remove(id)),
    {
        let line = self.ledger.remove(id);
        self.history.push_and_clear_redos(UndoEntry::Add(id, line));
        proof {
            lemma_op_wf(old(self)@, OpV::Remove(id));
            assert(self@ =~= do_op(old(self)@, OpV::Remove(id)));
        }
    }

    /// The "clear" view intent: on a non-empty ledger, atomically take
    /// every line and store the whole prior ledger as one `ReplaceAll`
    /// undo entry. On an empty ledger, a benign no-op.
    pub fn clear_all(&mut self)
        requires
            old(self).wf(),
        ensures
            final(self).wf(),
            old(self)@.ledger.len() == 0 ==> final(self)@ == old(self)@,
            old(self)@.ledger.len() > 0 ==> final(self)@ == do_op(old(self)@, OpV::Clear),
    {
        if self.ledger.is_empty() {
            proof {
                assert(self@ =~= old(self)@);
            }
            return ;
        }
        let taken = self.ledger.take_all();
        self.history.push_and_clear_redos(UndoEntry::ReplaceAll(taken));
        proof {
            lemma_op_wf(old(self)@, OpV::Clear);
            assert(self@ =~= do_op(old(self)@, OpV::Clear));
        }
    }

    /// Undo the most recent mutation: pop the undo stack, apply the
    /// inverse action to the ledger, and leave the forward direction on
    /// the redo stack. On an empty stack: a benign no-op returning false.
    pub fn undo(&mut self) -> (did: bool)
        requires
            old(self).wf(),
        ensures
            final(self).wf(),
            did == (old(self)@.undos.len() > 0),
            final(self)@ == do_undo(old(self)@),
    {
        proof {
            lemma_undo_wf(old(self)@);
        }
        let popped = self.history.pop_undo();
        match popped {
            Option::None => {
                proof {
                    assert(self@ =~= old(self)@);
                }
                false
            }
            Option::Some(entry) => {
                match entry {
                    UndoEntry::Add(id, line) => {
                        self.ledger.insert(id, line);
                        self.history.push_redo(RedoEntry::Remove(id));
                    }
                    UndoEntry::Remove(id) => {
                        let line = self.ledger.remove(id);
                        self.history.push_redo(RedoEntry::Add(id, line));
                    }
                    UndoEntry::Edit(id, prior) => {
                        let displaced = self.ledger.edit_down(id, prior);
                        self.history.push_redo(RedoEntry::Edit(id, displaced));
                    }
                    UndoEntry::ReplaceAll(old_lines) => {
                        self.ledger.replace(old_lines);
                        self.history.push_redo(RedoEntry::Clear);
                    }
                }
                proof {
                    assert(self@ =~= do_undo(old(self)@));
                }
                true
            }
        }
    }

    /// Redo the most recently undone mutation: pop the redo stack, apply
    /// the forward action, and put the inverse back on the undo stack. On
    /// an empty stack: a benign no-op returning false.
    pub fn redo(&mut self) -> (did: bool)
        requires
            old(self).wf(),
        ensures
            final(self).wf(),
            did == (old(self)@.redos.len() > 0),
            final(self)@ == do_redo(old(self)@),
    {
        proof {
            lemma_redo_wf(old(self)@);
        }
        let popped = self.history.pop_redo();
        match popped {
            Option::None => {
                proof {
                    assert(self@ =~= old(self)@);
                }
                false
            }
            Option::Some(entry) => {
                match entry {
                    RedoEntry::Add(id, line) => {
                        self.ledger.insert(id, line);
                        self.history.push_undo(UndoEntry::Remove(id));
                    }
                    RedoEntry::Remove(id) => {
                        let line = self.ledger.remove(id);
                        self.history.push_undo(UndoEntry::Add(id, line));
                    }
                    RedoEntry::Edit(id, next) => {
                        let displaced = self.ledger.edit_up(id, next);
                        self.history.push_undo(UndoEntry::Edit(id, displaced));
                    }
                    RedoEntry::Clear => {
                        let taken = self.ledger.take_all();
                        self.history.push_undo(UndoEntry::ReplaceAll(taken));
                    }
                }
                proof {
                    assert(self@ =~= do_redo(old(self)@));
                }
                true
            }
        }
    }

    pub fn line_count(&self) -> (n: usize)
        ensures
            n == self@.ledger.len(),
    {
        self.ledger.len()
    }

    pub fn can_undo(&self) -> (b: bool)
        ensures
            b == (self@.undos.len() > 0),
    {
        self.history.undo_count() > 0
    }

    pub fn can_redo(&self) -> (b: bool)
        ensures
            b == (self@.redos.len() > 0),
    {
        self.history.redo_count() > 0
    }

    pub fn next_id(&self) -> (id: usize)
        ensures
            id as nat == self@.next_id,
    {
        self.next_id
    }

    pub fn has_line(&self, id: usize) -> (b: bool)
        requires
            self.wf(),
        ensures
            b == l_contains(self@.ledger, id),
    {
        self.ledger.contains(id)
    }

    /// A read-only handle on the ledger, for rendering and inspection.
    pub fn lines(&self) -> (r: &Ledger)
        ensures
            r@ == self@.ledger,
    {
        &self.ledger
    }
}

} // verus!
