use crate::ledger::{
    ids_below, ids_sorted, l_contains, l_get, l_insert, l_remove, l_update, lemma_insert_remove,
    lemma_insert_sorted, lemma_l_find_contains, lemma_remove_insert, lemma_remove_sorted,
    lemma_update_sorted, lemma_update_update, Ledger, LedgerV, Line, LineV,
};
use vstd::prelude::*;

verus! {

/// Mathematical content of an entry on the undo stack: the inverse of one
/// ledger mutation.
#[verifier::ext_equal]
pub ghost enum UndoEntryV {
    Add(usize, LineV),
    Remove(usize),
    Edit(usize, Seq<char>),
    ReplaceAll(LedgerV),
}

/// Mathematical content of an entry on the redo stack: the forward
/// direction of an undone mutation.
#[verifier::ext_equal]
pub ghost enum RedoEntryV {
    Add(usize, LineV),
    Remove(usize),
    Edit(usize, Seq<char>),
    Clear,
}

/// An undo-stack entry. `Add` carries the full removed line so a removal
/// can be reversed verbatim; `Edit` carries the prior text only, because
/// the version follows a fixed minus-one rule; `ReplaceAll` carries the
/// whole prior ledger.
pub enum UndoEntry {
    Add(usize, Line),
    Remove(usize),
    Edit(usize, String),
    ReplaceAll(Ledger),
}

/// A redo-stack entry. `Clear` is a bare marker: redoing it re-empties the
/// ledger and captures the emptied contents back as a `ReplaceAll` undo
/// entry.
pub enum RedoEntry {
    Add(usize, Line),
    Remove(usize),
    Edit(usize, String),
    Clear,
}

impl View for UndoEntry {
    type V = UndoEntryV;

    open spec fn view(&self) -> UndoEntryV {
        match self {
            UndoEntry::Add(id, line) => UndoEntryV::Add(*id, line@),
            UndoEntry::Remove(id) => UndoEntryV::Remove(*id),
            UndoEntry::Edit(id, t) => UndoEntryV::Edit(*id, t@),
            UndoEntry::ReplaceAll(l) => UndoEntryV::ReplaceAll(l@),
        }
    }
}

impl View for RedoEntry {
    type V = RedoEntryV;

    open spec fn view(&self) -> RedoEntryV {
        match self {
            RedoEntry::Add(id, line) => RedoEntryV::Add(*id, line@),
            RedoEntry::Remove(id) => RedoEntryV::Remove(*id),
            RedoEntry::Edit(id, t) => RedoEntryV::Edit(*id, t@),
            RedoEntry::Clear => RedoEntryV::Clear,
        }
    }
}

/// Whether the inverse action an undo entry describes can act on `l`.
/// Absence of the referenced id would be a contract violation, never a
/// user-facing error: only this engine produces and consumes these entries.
pub open spec fn undo_applicable(e: UndoEntryV, l: LedgerV) -> bool {
    match e {
        UndoEntryV::Add(id, _) => !l_contains(l, id),
        UndoEntryV::Remove(id) => l_contains(l, id),
        UndoEntryV::Edit(id, _) => l_contains(l, id) && 1 <= l_get(l, id).version <= usize::MAX,
        UndoEntryV::ReplaceAll(snap) => ids_sorted(snap) && l.len() == 0,
    }
}

/// The ledger after the inverse action of an undo entry.
pub open spec fn apply_undo(e: UndoEntryV, l: LedgerV) -> LedgerV {
    match e {
        UndoEntryV::Add(id, line) => l_insert(l, id, line),
        UndoEntryV::Remove(id) => l_remove(l, id),
        UndoEntryV::Edit(id, t) => l_update(
            l,
            id,
            (LineV { version: (l_get(l, id).version - 1) as nat, text: t }),
        ),
        UndoEntryV::ReplaceAll(snap) => snap,
    }
}

/// The redo entry that undoing `e` on `l` leaves behind.
pub open spec fn undo_mirror(e: UndoEntryV, l: LedgerV) -> RedoEntryV {
    match e {
        UndoEntryV::Add(id, _) => RedoEntryV::Remove(id),
        UndoEntryV::Remove(id) => RedoEntryV::Add(id, l_get(l, id)),
        UndoEntryV::Edit(id, _) => RedoEntryV::Edit(id, l_get(l, id).text),
        UndoEntryV::ReplaceAll(_) => RedoEntryV::Clear,
    }
}

/// Whether the forward action a redo entry describes can act on `l`.
pub open spec fn redo_applicable(e: RedoEntryV, l: LedgerV) -> bool {
    match e {
        RedoEntryV::Add(id, _) => !l_contains(l, id),
        RedoEntryV::Remove(id) => l_contains(l, id),
        RedoEntryV::Edit(id, _) => l_contains(l, id) && l_get(l, id).version < usize::MAX,
        RedoEntryV::Clear => true,
    }
}

/// The ledger after the forward action of a redo entry.
pub open spec fn apply_redo(e: RedoEntryV, l: LedgerV) -> LedgerV {
    match e {
        RedoEntryV::Add(id, line) => l_insert(l, id, line),
        RedoEntryV::Remove(id) => l_remove(l, id),
        RedoEntryV::Edit(id, t) => l_update(
            l,
            id,
            (LineV { version: (l_get(l, id).version + 1) as nat, text: t }),
        ),
        RedoEntryV::Clear => Seq::empty(),
    }
}

/// The undo entry that redoing `e` on `l` leaves behind.
pub open spec fn redo_mirror(e: RedoEntryV, l: LedgerV) -> UndoEntryV {
    match e {
        RedoEntryV::Add(id, _) => UndoEntryV::Remove(id),
        RedoEntryV::Remove(id) => UndoEntryV::Add(id, l_get(l, id)),
        RedoEntryV::Edit(id, _) => UndoEntryV::Edit(id, l_get(l, id).text),
        RedoEntryV::Clear => UndoEntryV::ReplaceAll(l),
    }
}

/// Every id an undo entry mentions lies below `b`.
pub open spec fn undo_ids_below(e: UndoEntryV, b: nat) -> bool {
    match e {
        UndoEntryV::Add(id, _) => id < b,
        UndoEntryV::Remove(id) => id < b,
        UndoEntryV::Edit(id, _) => id < b,
        UndoEntryV::ReplaceAll(snap) => ids_below(snap, b),
    }
}

/// Every id a redo entry mentions lies below `b`.
pub open spec fn redo_ids_below(e: RedoEntryV, b: nat) -> bool {
    match e {
        RedoEntryV::Add(id, _) => id < b,
        RedoEntryV::Remove(id) => id < b,
        RedoEntryV::Edit(id, _) => id < b,
        RedoEntryV::Clear => true,
    }
}

pub open spec fn undos_ids_below(us: Seq<UndoEntryV>, b: nat) -> bool {
    forall|i: int| 0 <= i < us.len() ==> undo_ids_below(#[trigger] us[i], b)
}

pub open spec fn redos_ids_below(rs: Seq<RedoEntryV>, b: nat) -> bool {
    forall|i: int| 0 <= i < rs.len() ==> redo_ids_below(#[trigger] rs[i], b)
}

/// The undo stack tells a consistent linear story: its top can act on `l`,
/// and below the top the same holds of the ledger the top's action leaves.
pub open spec fn undos_valid(us: Seq<UndoEntryV>, l: LedgerV) -> bool
    decreases us.len(),
{
    us.len() == 0 || (undo_applicable(us.last(), l) && undos_valid(
        us.drop_last(),
        apply_undo(us.last(), l),
    ))
}

/// The redo stack, symmetrically.
pub open spec fn redos_valid(rs: Seq<RedoEntryV>, l: LedgerV) -> bool
    decreases rs.len(),
{
    rs.len() == 0 || (redo_applicable(rs.last(), l) && redos_valid(
        rs.drop_last(),
        apply_redo(rs.last(), l),
    ))
}

/// Undoing an entry and then redoing its mirror is the identity on the
/// ledger, and the mirror's own mirror is the original entry: the two
/// stacks hold exact inverses of one another.
pub proof fn lemma_undo_mirror(e: UndoEntryV, l: LedgerV)
    requires
        ids_sorted(l),
        undo_applicable(e, l),
    ensures
        ids_sorted(apply_undo(e, l)),
        redo_applicable(undo_mirror(e, l), apply_undo(e, l)),
        apply_redo(undo_mirror(e, l), apply_undo(e, l)) == l,
        redo_mirror(undo_mirror(e, l), apply_undo(e, l)) == e,
        forall|b: nat|
            ids_below(l, b) && undo_ids_below(e, b) ==> ids_below(apply_undo(e, l), b)
                && redo_ids_below(#[trigger] undo_mirror(e, l), b),
{
    match e {
        UndoEntryV::Add(id, line) => {
            lemma_insert_sorted(l, id, line);
            lemma_remove_insert(l, id, line);
            lemma_l_find_contains(l_insert(l, id, line), id);
        }
        UndoEntryV::Remove(id) => {
            lemma_l_find_contains(l, id);
            lemma_remove_sorted(l, id);
            lemma_insert_remove(l, id);
            lemma_insert_sorted(l_remove(l, id), id, l_get(l, id));
        }
        UndoEntryV::Edit(id, t) => {
            let cur = l_get(l, id);
            let down = LineV { version: (cur.version - 1) as nat, text: t };
            lemma_l_find_contains(l, id);
            lemma_update_sorted(l, id, down);
            lemma_update_update(l, id, down);
            let l2 = apply_undo(e, l);
            assert(l_get(l2, id) == down);
            assert((LineV { version: (l_get(l2, id).version + 1) as nat, text: cur.text }) =~= cur);
        }
        UndoEntryV::ReplaceAll(snap) => {
            assert(l =~= Seq::<(usize, LineV)>::empty());
        }
    }
}

/// Redoing an entry and then undoing its mirror is the identity on the
/// ledger, symmetrically.
pub proof fn lemma_redo_mirror(e: RedoEntryV, l: LedgerV)
    requires
        ids_sorted(l),
        redo_applicable(e, l),
    ensures
        ids_sorted(apply_redo(e, l)),
        undo_applicable(redo_mirror(e, l), apply_redo(e, l)),
        apply_undo(redo_mirror(e, l), apply_redo(e, l)) == l,
        undo_mirror(redo_mirror(e, l), apply_redo(e, l)) == e,
        forall|b: nat|
            ids_below(l, b) && redo_ids_below(e, b) ==> ids_below(apply_redo(e, l), b)
                && undo_ids_below(#[trigger] redo_mirror(e, l), b),
{
    match e {
        RedoEntryV::Add(id, line) => {
            lemma_insert_sorted(l, id, line);
            lemma_remove_insert(l, id, line);
            lemma_l_find_contains(l_insert(l, id, line), id);
        }
        RedoEntryV::Remove(id) => {
            lemma_l_find_contains(l, id);
            lemma_remove_sorted(l, id);
            lemma_insert_remove(l, id);
            lemma_insert_sorted(l_remove(l, id), id, l_get(l, id));
        }
        RedoEntryV::Edit(id, t) => {
            let cur = l_get(l, id);
            let up = LineV { version: (cur.version + 1) as nat, text: t };
            lemma_l_find_contains(l, id);
            lemma_update_sorted(l, id, up);
            lemma_update_update(l, id, up);
            let l2 = apply_redo(e, l);
            assert(l_get(l2, id) == up);
            assert((LineV { version: (l_get(l2, id).version - 1) as nat, text: cur.text }) =~= cur);
        }
        RedoEntryV::Clear => {
        }
    }
}

/// The paired undo/redo stacks. Purely in-memory: created empty at startup,
/// never persisted.
pub struct UndoStack {
    undos: Vec<UndoEntry>,
    redos: Vec<RedoEntry>,
}

impl UndoStack {
    pub closed spec fn undos_v(self) -> Seq<UndoEntryV> {
        self.undos@.map_values(|e: UndoEntry| e@)
    }

    pub closed spec fn redos_v(self) -> Seq<RedoEntryV> {
        self.redos@.map_values(|e: RedoEntry| e@)
    }

    pub fn new() -> (r: UndoStack)
        ensures
            r.undos_v() == Seq::<UndoEntryV>::empty(),
            r.redos_v() == Seq::<RedoEntryV>::empty(),
    {
        let r = UndoStack { undos: Vec::new(), redos: Vec::new() };
        proof {
            assert(r.undos_v() =~= Seq::<UndoEntryV>::empty());
            assert(r.redos_v() =~= Seq::<RedoEntryV>::empty());
        }
        r
    }

    /// Record the inverse of a fresh mutation: push it onto the undo stack
    /// and clear the redo stack, keeping history linear.
    pub fn push_and_clear_redos(&mut self, entry: UndoEntry)
        ensures
            final(self).undos_v() == old(self).undos_v().push(entry@),
            final(self).redos_v() == Seq::<RedoEntryV>::empty(),
    {
        let ghost ev = entry@;
        self.undos.push(entry);
        self.redos.clear();
        proof {
            assert(self.undos_v() =~= old(self).undos_v().push(ev));
            assert(self.redos_v() =~= Seq::<RedoEntryV>::empty());
        }
    }

    pub fn pop_undo(&mut self) -> (r: Option<UndoEntry>)
        ensures
            final(self).redos_v() == old(self).redos_v(),
            match r {
                Option::None => old(self).undos_v().len() == 0 && final(self).undos_v() == old(
                    self,
                ).undos_v(),
                Option::Some(e) => old(self).undos_v().len() > 0 && e@ == old(
                    self,
                ).undos_v().last() && final(self).undos_v() == old(self).undos_v().drop_last(),
            },
    {
        let r = self.undos.pop();
        proof {
            if old(self).undos@.len() > 0 {
                assert(self.undos_v() =~= old(self).undos_v().drop_last());
            }
        }
        r
    }

    pub fn pop_redo(&mut self) -> (r: Option<RedoEntry>)
        ensures
            final(self).undos_v() == old(self).undos_v(),
            match r {
                Option::None => old(self).redos_v().len() == 0 && final(self).redos_v() == old(
                    self,
                ).redos_v(),
                Option::Some(e) => old(self).redos_v().len() > 0 && e@ == old(
                    self,
                ).redos_v().last() && final(self).redos_v() == old(self).redos_v().drop_last(),
            },
    {
        let r = self.redos.pop();
        proof {
            if old(self).redos@.len() > 0 {
                assert(self.redos_v() =~= old(self).redos_v().drop_last());
            }
        }
        r
    }

    /// Push onto the undo stack without touching redos: the second half of
    /// a redo step.
    pub fn push_undo(&mut self, entry: UndoEntry)
        ensures
            final(self).undos_v() == old(self).undos_v().push(entry@),
            final(self).redos_v() == old(self).redos_v(),
    {
        let ghost ev = entry@;
        self.undos.push(entry);
        proof {
            assert(self.undos_v() =~= old(self).undos_v().push(ev));
        }
    }

    /// Push onto the redo stack without touching undos: the second half of
    /// an undo step.
    pub fn push_redo(&mut self, entry: RedoEntry)
        ensures
            final(self).redos_v() == old(self).redos_v().push(entry@),
            final(self).undos_v() == old(self).undos_v(),
    {
        let ghost ev = entry@;
        self.redos.push(entry);
        proof {
            assert(self.redos_v() =~= old(self).redos_v().push(ev));
        }
    }

    pub fn undo_count(&self) -> (n: usize)
        ensures
            n == self.undos_v().len(),
    {
        self.undos.len()
    }

    pub fn redo_count(&self) -> (n: usize)
        ensures
            n == self.redos_v().len(),
    {
        self.redos.len()
    }
}

} // verus!
