use vstd::prelude::*;

verus! {

/// Mathematical content of one line: its text and the net number of applied
/// edits since creation or since normalization.
#[verifier::ext_equal]
pub ghost struct LineV {
    pub version: nat,
    pub text: Seq<char>,
}

/// One scratchpad line: freeform text plus an edit-count version that rises
/// by exactly one on every accepted edit and falls by one when such an edit
/// is undone.
pub struct Line {
    pub version: usize,
    pub text: String,
}

impl View for Line {
    type V = LineV;

    open spec fn view(&self) -> LineV {
        LineV { version: self.version as nat, text: self.text@ }
    }
}

impl Line {
    /// A freshly captured line starts at version 0.
    pub fn new(text: String) -> (r: Line)
        ensures
            r@ == (LineV { version: 0 as nat, text: text@ }),
    {
        Line { version: 0, text }
    }
}

/// The ledger's mathematical content: its entries in display order, each a
/// stable id paired with the line it holds.
pub type LedgerV = Seq<(usize, LineV)>;

/// Display order is ascending numeric id order, with every id unique.
pub open spec fn ids_sorted(l: LedgerV) -> bool {
    forall|i: int, j: int| 0 <= i < j < l.len() ==> (#[trigger] l[i]).0 < (#[trigger] l[j]).0
}

pub open spec fn l_contains(l: LedgerV, id: usize) -> bool {
    exists|i: int| 0 <= i < l.len() && (#[trigger] l[i]).0 == id
}

/// The first position whose id is at least `id`; in a sorted ledger this is
/// where `id` lives if present, and where it would be inserted if absent.
pub open spec fn l_find(l: LedgerV, id: usize) -> int
    decreases l.len(),
{
    if l.len() == 0 {
        0
    } else if l[0].0 >= id {
        0
    } else {
        1 + l_find(l.skip(1), id)
    }
}

pub open spec fn l_get(l: LedgerV, id: usize) -> LineV {
    l[l_find(l, id)].1
}

pub open spec fn l_insert(l: LedgerV, id: usize, line: LineV) -> LedgerV {
    l.insert(l_find(l, id), (id, line))
}

pub open spec fn l_remove(l: LedgerV, id: usize) -> LedgerV {
    l.remove(l_find(l, id))
}

pub open spec fn l_update(l: LedgerV, id: usize, line: LineV) -> LedgerV {
    l.update(l_find(l, id), (id, line))
}

/// Every id in the ledger lies below the bound `b`.
pub open spec fn ids_below(l: LedgerV, b: nat) -> bool {
    forall|i: int| 0 <= i < l.len() ==> (#[trigger] l[i]).0 < b
}

/// `l_find` is characterized by what stands before and at it.
pub proof fn lemma_l_find_bounds(l: LedgerV, id: usize)
    ensures
        0 <= l_find(l, id) <= l.len(),
        forall|i: int| 0 <= i < l_find(l, id) ==> (#[trigger] l[i]).0 < id,
        l_find(l, id) < l.len() ==> l[l_find(l, id)].0 >= id,
    decreases l.len(),
{
    if l.len() == 0 {
    } else if l[0].0 >= id {
    } else {
        lemma_l_find_bounds(l.skip(1), id);
        let p = l_find(l, id);
        assert forall|i: int| 0 <= i < p implies (#[trigger] l[i]).0 < id by {
            if i > 0 {
                assert(l.skip(1)[i - 1] == l[i]);
            }
        }
        if p < l.len() {
            assert(l.skip(1)[p - 1] == l[p]);
        }
    }
}

/// Any position with the characterizing properties is `l_find`.
pub proof fn lemma_l_find_is(l: LedgerV, id: usize, p: int)
    requires
        0 <= p <= l.len(),
        forall|i: int| 0 <= i < p ==> (#[trigger] l[i]).0 < id,
        p < l.len() ==> l[p].0 >= id,
    ensures
        l_find(l, id) == p,
    decreases l.len(),
{
    if l.len() == 0 {
    } else if l[0].0 >= id {
        if p > 0 {
            assert(l[0].0 < id);
        }
    } else {
        assert(p > 0) by {
            if p == 0 {
                assert(l[p].0 >= id);
            }
        }
        assert forall|i: int| 0 <= i < p - 1 implies (#[trigger] l.skip(1)[i]).0 < id by {
            assert(l.skip(1)[i] == l[i + 1]);
        }
        if p - 1 < l.skip(1).len() {
            assert(l.skip(1)[p - 1] == l[p]);
        }
        lemma_l_find_is(l.skip(1), id, p - 1);
    }
}

/// In a sorted ledger, an id is present exactly when `l_find` lands on it.
pub proof fn lemma_l_find_contains(l: LedgerV, id: usize)
    requires
        ids_sorted(l),
    ensures
        l_contains(l, id) <==> (l_find(l, id) < l.len() && l[l_find(l, id)].0 == id),
{
    lemma_l_find_bounds(l, id);
    let p = l_find(l, id);
    if l_contains(l, id) {
        let w = choose|i: int| 0 <= i < l.len() && (#[trigger] l[i]).0 == id;
        assert(w >= p);
        if w > p {
            assert(l[p].0 < l[w].0);
        }
    }
}

/// Inserting a fresh id keeps the ledger sorted, and `l_find` still points
/// at the inserted entry.
pub proof fn lemma_insert_sorted(l: LedgerV, id: usize, line: LineV)
    requires
        ids_sorted(l),
        !l_contains(l, id),
    ensures
        ids_sorted(l_insert(l, id, line)),
        l_contains(l_insert(l, id, line), id),
        l_insert(l, id, line).len() == l.len() + 1,
        l_find(l_insert(l, id, line), id) == l_find(l, id),
        l_get(l_insert(l, id, line), id) == line,
        forall|b: nat| ids_below(l, b) && id < b ==> ids_below(l_insert(l, id, line), b),
{
    lemma_l_find_bounds(l, id);
    let p = l_find(l, id);
    let l2 = l.insert(p, (id, line));
    assert forall|i: int| p <= i < l.len() implies (#[trigger] l[i]).0 > id by {
        if l[i].0 == id {
            assert(l_contains(l, id));
        } else if i > p {
            assert(l[p].0 < l[i].0);
        }
    }
    assert(l2.len() == l.len() + 1);
    assert forall|i: int, j: int| 0 <= i < j < l2.len() implies (#[trigger] l2[i]).0 < (
    #[trigger] l2[j]).0 by {
        assert(l2[i] == if i < p { l[i] } else if i == p { (id, line) } else { l[i - 1] });
        assert(l2[j] == if j < p { l[j] } else if j == p { (id, line) } else { l[j - 1] });
    }
    assert(l2[p].0 == id);
    assert(l_contains(l2, id));
    assert forall|i: int| 0 <= i < p implies (#[trigger] l2[i]).0 < id by {
        assert(l2[i] == l[i]);
    }
    lemma_l_find_is(l2, id, p);
    assert forall|b: nat| ids_below(l, b) && id < b implies ids_below(l2, b) by {
        assert forall|i: int| 0 <= i < l2.len() implies (#[trigger] l2[i]).0 < b by {
            assert(l2[i] == if i < p { l[i] } else if i == p { (id, line) } else { l[i - 1] });
        }
    }
}

/// Removing a present id keeps the ledger sorted and drops exactly it.
pub proof fn lemma_remove_sorted(l: LedgerV, id: usize)
    requires
        ids_sorted(l),
        l_contains(l, id),
    ensures
        ids_sorted(l_remove(l, id)),
        !l_contains(l_remove(l, id), id),
        l_remove(l, id).len() == l.len() - 1,
        forall|b: nat| ids_below(l, b) ==> ids_below(l_remove(l, id), b),
{
    lemma_l_find_bounds(l, id);
    lemma_l_find_contains(l, id);
    let p = l_find(l, id);
    let l2 = l.remove(p);
    assert forall|i: int, j: int| 0 <= i < j < l2.len() implies (#[trigger] l2[i]).0 < (
    #[trigger] l2[j]).0 by {
        assert(l2[i] == if i < p { l[i] } else { l[i + 1] });
        assert(l2[j] == if j < p { l[j] } else { l[j + 1] });
    }
    assert forall|i: int| 0 <= i < l2.len() implies (#[trigger] l2[i]).0 != id by {
        assert(l2[i] == if i < p { l[i] } else { l[i + 1] });
        if i >= p {
            assert(l[p].0 < l[i + 1].0);
        }
    }
    assert forall|b: nat| ids_below(l, b) implies ids_below(l2, b) by {
        assert forall|i: int| 0 <= i < l2.len() implies (#[trigger] l2[i]).0 < b by {
            assert(l2[i] == if i < p { l[i] } else { l[i + 1] });
        }
    }
}

/// Updating a present id in place keeps the ledger sorted and changes only
/// that entry.
pub proof fn lemma_update_sorted(l: LedgerV, id: usize, line: LineV)
    requires
        ids_sorted(l),
        l_contains(l, id),
    ensures
        ids_sorted(l_update(l, id, line)),
        l_contains(l_update(l, id, line), id),
        l_update(l, id, line).len() == l.len(),
        l_find(l_update(l, id, line), id) == l_find(l, id),
        l_get(l_update(l, id, line), id) == line,
        forall|b: nat| ids_below(l, b) ==> ids_below(l_update(l, id, line), b),
{
    lemma_l_find_bounds(l, id);
    lemma_l_find_contains(l, id);
    let p = l_find(l, id);
    let l2 = l.update(p, (id, line));
    assert forall|i: int| 0 <= i < l2.len() implies #[trigger] l2[i] == if i == p {
        (id, line)
    } else {
        l[i]
    } by {}
    assert(ids_sorted(l2));
    assert forall|i: int| 0 <= i < p implies (#[trigger] l2[i]).0 < id by {
        assert(l[i].0 < l[p].0);
    }
    lemma_l_find_is(l2, id, p);
    assert forall|b: nat| ids_below(l, b) implies ids_below(l2, b) by {
        assert forall|i: int| 0 <= i < l2.len() implies (#[trigger] l2[i]).0 < b by {}
    }
}

/// Removing a freshly inserted id restores the ledger exactly.
pub proof fn lemma_remove_insert(l: LedgerV, id: usize, line: LineV)
    requires
        ids_sorted(l),
        !l_contains(l, id),
    ensures
        l_remove(l_insert(l, id, line), id) == l,
{
    lemma_l_find_bounds(l, id);
    lemma_insert_sorted(l, id, line);
    let p = l_find(l, id);
    let l2 = l_insert(l, id, line);
    assert(l_remove(l2, id) =~= l);
}

/// Re-inserting a removed entry under its old id restores the ledger
/// exactly.
pub proof fn lemma_insert_remove(l: LedgerV, id: usize)
    requires
        ids_sorted(l),
        l_contains(l, id),
    ensures
        l_insert(l_remove(l, id), id, l_get(l, id)) == l,
{
    lemma_l_find_bounds(l, id);
    lemma_l_find_contains(l, id);
    lemma_remove_sorted(l, id);
    let p = l_find(l, id);
    let l2 = l_remove(l, id);
    assert forall|i: int| 0 <= i < p implies (#[trigger] l2[i]).0 < id by {
        assert(l2[i] == l[i]);
    }
    if p < l2.len() {
        assert(l2[p] == l[p + 1]);
        assert(l[p].0 < l[p + 1].0);
    }
    lemma_l_find_is(l2, id, p);
    assert(l_insert(l2, id, l_get(l, id)) =~= l);
}

/// Writing back the value an update displaced restores the ledger exactly.
pub proof fn lemma_update_update(l: LedgerV, id: usize, line: LineV)
    requires
        ids_sorted(l),
        l_contains(l, id),
    ensures
        l_update(l_update(l, id, line), id, l_get(l, id)) == l,
{
    lemma_l_find_bounds(l, id);
    lemma_l_find_contains(l, id);
    lemma_update_sorted(l, id, line);
    let l2 = l_update(l, id, line);
    let p = l_find(l, id);
    assert(l[p] == (id, l_get(l, id)));
    assert(l_update(l2, id, l_get(l, id)) =~= l);
}

/// What normalization produces: the same lines in the same relative order,
/// re-keyed to the contiguous ids 0, 1, ... and every version reset to 0.
pub open spec fn normalize_spec(l: LedgerV) -> LedgerV {
    Seq::new(l.len(), |i: int| (i as usize, LineV { version: 0 as nat, text: l[i].1.text }))
}

/// A normalized ledger is sorted and its ids lie below its length.
pub proof fn lemma_normalize_sorted(l: LedgerV)
    requires
        l.len() <= usize::MAX,
    ensures
        ids_sorted(normalize_spec(l)),
        ids_below(normalize_spec(l), l.len() as nat),
{
}

/// Normalizing twice produces exactly what normalizing once does.
pub proof fn lemma_normalize_idempotent(l: LedgerV)
    requires
        l.len() <= usize::MAX,
    ensures
        normalize_spec(normalize_spec(l)) == normalize_spec(l),
{
    assert(normalize_spec(normalize_spec(l)) =~= normalize_spec(l));
}

/// The durable state: an ordered mapping from stable unsigned id to line,
/// held as a vector of entries in ascending id order.
pub struct Ledger {
    entries: Vec<(usize, Line)>,
}

impl View for Ledger {
    type V = LedgerV;

    closed spec fn view(&self) -> LedgerV {
        Seq::new(self.entries@.len(), |i: int| (self.entries@[i].0, self.entries@[i].1@))
    }
}

impl Ledger {
    /// The representation invariant: ids strictly ascend.
    pub open spec fn wf(self) -> bool {
        ids_sorted(self@)
    }

    pub fn new() -> (r: Ledger)
        ensures
            r@ == Seq::<(usize, LineV)>::empty(),
            r.wf(),
    {
        let r = Ledger { entries: Vec::new() };
        proof {
            assert(r@ =~= Seq::<(usize, LineV)>::empty());
        }
        r
    }

    pub fn len(&self) -> (n: usize)
        ensures
            n == self@.len(),
    {
        self.entries.len()
    }

    pub fn is_empty(&self) -> (b: bool)
        ensures
            b == (self@.len() == 0),
    {
        self.entries.len() == 0
    }

    /// The position `id` occupies, or would occupy, in display order.
    fn position(&self, id: usize) -> (k: usize)
        ensures
            k as int == l_find(self@, id),
            k <= self@.len(),
    {
        let mut k: usize = 0;
        while k < self.entries.len() && self.entries[k].0 < id
            invariant
                k <= self.entries.len(),
                forall|i: int| 0 <= i < k ==> (#[trigger] self@[i]).0 < id,
            decreases self.entries.len() - k,
        {
            assert(self@[k as int].0 == self.entries@[k as int].0);
            k = k + 1;
        }
        proof {
            if (k as int) < self@.len() {
                assert(self@[k as int].0 == self.entries@[k as int].0);
            }
            lemma_l_find_is(self@, id, k as int);
        }
        k
    }

    pub fn contains(&self, id: usize) -> (b: bool)
        requires
            self.wf(),
        ensures
            b == l_contains(self@, id),
    {
        let k = self.position(id);
        proof {
            lemma_l_find_contains(self@, id);
        }
        k < self.entries.len() && self.entries[k].0 == id
    }

    /// Insert a line under an id not currently present, at its place in
    /// display order.
    pub fn insert(&mut self, id: usize, line: Line)
        requires
            old(self).wf(),
            !l_contains(old(self)@, id),
        ensures
            final(self).wf(),
            final(self)@ == l_insert(old(self)@, id, line@),
    {
        let ghost lv = line@;
        let k = self.position(id);
        self.entries.insert(k, (id, line));
        proof {
            assert(self@ =~= l_insert(old(self)@, id, lv));
            lemma_insert_sorted(old(self)@, id, lv);
        }
    }

    /// Remove the entry at a present id and hand its line back.
    pub fn remove(&mut self, id: usize) -> (line: Line)
        requires
            old(self).wf(),
            l_contains(old(self)@, id),
        ensures
            final(self).wf(),
            final(self)@ == l_remove(old(self)@, id),
            line@ == l_get(old(self)@, id),
    {
        let k = self.position(id);
        proof {
            lemma_l_find_contains(self@, id);
        }
        let entry = self.entries.remove(k);
        proof {
            assert(self@ =~= l_remove(old(self)@, id));
            lemma_remove_sorted(old(self)@, id);
        }
        entry.1
    }

    /// The version of the line at a present id.
    pub fn version_at(&self, id: usize) -> (v: usize)
        requires
            self.wf(),
            l_contains(self@, id),
        ensures
            v as nat == l_get(self@, id).version,
    {
        let k = self.position(id);
        proof {
            lemma_l_find_contains(self@, id);
        }
        self.entries[k].1.version
    }

    /// The text of the line at a present id.
    pub fn text_at(&self, id: usize) -> (t: &String)
        requires
            self.wf(),
            l_contains(self@, id),
        ensures
            t@ == l_get(self@, id).text,
    {
        let k = self.position(id);
        proof {
            lemma_l_find_contains(self@, id);
        }
        &self.entries[k].1.text
    }

    /// The entry at a display position: its id and a view of its line.
    pub fn entry_at(&self, k: usize) -> (r: (usize, usize, &String))
        requires
            k < self@.len(),
        ensures
            r.0 == self@[k as int].0,
            r.1 as nat == self@[k as int].1.version,
            r.2@ == self@[k as int].1.text,
    {
        (self.entries[k].0, self.entries[k].1.version, &self.entries[k].1.text)
    }

    /// Swap in new text at a present id and raise the version by one: the
    /// forward direction of an edit. Returns the displaced text.
    pub fn edit_up(&mut self, id: usize, new_text: String) -> (old_text: String)
        requires
            old(self).wf(),
            l_contains(old(self)@, id),
            l_get(old(self)@, id).version < usize::MAX,
        ensures
            final(self).wf(),
            final(self)@ == l_update(
                old(self)@,
                id,
                (LineV {
                    version: (l_get(old(self)@, id).version + 1) as nat,
                    text: new_text@,
                }),
            ),
            old_text@ == l_get(old(self)@, id).text,
    {
        let ghost target = LineV {
            version: (l_get(old(self)@, id).version + 1) as nat,
            text: new_text@,
        };
        let k = self.position(id);
        proof {
            lemma_l_find_contains(self@, id);
            assert(self@[k as int].1 == self.entries@[k as int].1@);
        }
        let old_text = self.entries[k].1.text.clone();
        let version = self.entries[k].1.version;
        self.entries[k] = (id, Line { version: version + 1, text: new_text });
        proof {
            assert(self@ =~= l_update(old(self)@, id, target));
            lemma_update_sorted(old(self)@, id, target);
        }
        old_text
    }

    /// Swap in prior text at a present id and lower the version by one: the
    /// reverse direction of an edit. Returns the displaced text.
    pub fn edit_down(&mut self, id: usize, prior_text: String) -> (old_text: String)
        requires
            old(self).wf(),
            l_contains(old(self)@, id),
            l_get(old(self)@, id).version >= 1,
        ensures
            final(self).wf(),
            final(self)@ == l_update(
                old(self)@,
                id,
                (LineV {
                    version: (l_get(old(self)@, id).version - 1) as nat,
                    text: prior_text@,
                }),
            ),
            old_text@ == l_get(old(self)@, id).text,
    {
        let ghost target = LineV {
            version: (l_get(old(self)@, id).version - 1) as nat,
            text: prior_text@,
        };
        let k = self.position(id);
        proof {
            lemma_l_find_contains(self@, id);
            assert(self@[k as int].1 == self.entries@[k as int].1@);
        }
        let old_text = self.entries[k].1.text.clone();
        let version = self.entries[k].1.version;
        self.entries[k] = (id, Line { version: version - 1, text: prior_text });
        proof {
            assert(self@ =~= l_update(old(self)@, id, target));
            lemma_update_sorted(old(self)@, id, target);
        }
        old_text
    }

    /// Atomically empty the ledger and hand the previous contents back.
    pub fn take_all(&mut self) -> (taken: Ledger)
        ensures
            final(self)@ == Seq::<(usize, LineV)>::empty(),
            final(self).wf(),
            taken@ == old(self)@,
    {
        let mut other: Vec<(usize, Line)> = Vec::new();
        core::mem::swap(&mut self.entries, &mut other);
        proof {
            assert(self@ =~= Seq::<(usize, LineV)>::empty());
        }
        Ledger { entries: other }
    }

    /// Replace the whole contents with another ledger's.
    pub fn replace(&mut self, other: Ledger)
        ensures
            final(self)@ == other@,
    {
        self.entries = other.entries;
    }

    /// Re-key every entry to the contiguous ascending ids 0, 1, ...,
    /// preserving relative order, and reset every version to 0. Runs once,
    /// right after load, before any other component observes the ledger.
    pub fn normalize(&mut self)
        ensures
            final(self)@ == normalize_spec(old(self)@),
            final(self).wf(),
            ids_below(final(self)@, final(self)@.len() as nat),
            final(self)@.len() == old(self)@.len(),
    {
        let n = self.entries.len();
        let mut fresh: Vec<(usize, Line)> = Vec::new();
        let mut i: usize = 0;
        while i < n
            invariant
                n == self.entries@.len(),
                i <= n,
                fresh@.len() == i,
                forall|j: int|
                    0 <= j < i ==> #[trigger] fresh@[j] == (
                    j as usize,
                    Line { version: 0, text: self.entries@[j].1.text },
                ),
            decreases n - i,
        {
            let text = self.entries[i].1.text.clone();
            fresh.push((i, Line { version: 0, text }));
            i = i + 1;
        }
        self.entries = fresh;
        proof {
            assert(self@ =~= normalize_spec(old(self)@));
            lemma_normalize_sorted(old(self)@);
        }
    }

    /// Accept a loaded entry list if its ids strictly ascend — the shape a
    /// prior session persisted — and refuse it otherwise.
    pub fn from_sorted_entries(entries: Vec<(usize, Line)>) -> (r: Option<Ledger>)
        ensures
            match r {
                Option::Some(l) => {
                    &&& l.wf()
                    &&& l@ == Seq::new(
                        entries@.len(),
                        |i: int| (entries@[i].0, entries@[i].1@),
                    )
                },
                Option::None => !ids_sorted(
                    Seq::new(entries@.len(), |i: int| (entries@[i].0, entries@[i].1@)),
                ),
            },
    {
        let ghost v = Seq::new(entries@.len(), |i: int| (entries@[i].0, entries@[i].1@));
        let n = entries.len();
        let mut i: usize = 1;
        while i < n
            invariant
                n == entries@.len(),
                1 <= i || n == 0,
                i <= n || n == 0,
                forall|j: int, k: int| 0 <= j < k < i ==> (#[trigger] v[j]).0 < (#[trigger] v[k]).0,
                v == Seq::new(entries@.len(), |i: int| (entries@[i].0, entries@[i].1@)),
            decreases n - i,
        {
            if entries[i - 1].0 >= entries[i].0 {
                proof {
                    assert(v[i - 1].0 >= v[i as int].0);
                }
                return Option::None;
            }
            proof {
                assert(v[i - 1].0 < v[i as int].0);
                assert forall|j: int, k: int| 0 <= j < k < i + 1 implies (#[trigger] v[j]).0 < (
                #[trigger] v[k]).0 by {
                    if k == i {
                        if j < i - 1 {
                            assert(v[j].0 < v[i - 1].0);
                        }
                    }
                }
            }
            i = i + 1;
        }
        let r = Ledger { entries };
        proof {
            assert(r@ =~= v);
        }
        Option::Some(r)
    }
}

} // verus!
