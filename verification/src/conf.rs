//! The configuration data model: interned residue records addressed by
//! stable indices, the flat atom list, residue grouping, and periodic
//! replication.
//!
//! Shared name handles are arena indices: an atom's name is the pair of a
//! residue index and a slot index into that residue's declared atom-name
//! list. Handle equality is what "the same declared slot" means.

use crate::rvec::RVec;
use vstd::prelude::*;

verus! {

/// A shared handle to one declared atom-name slot: the `slot`-th name of
/// the `residue`-th entry of a configuration's residue table. Two handles
/// denote the same declared slot exactly when they are equal.
#[derive(Clone, Copy, Debug, PartialEq, Eq, Structural)]
pub struct NameRef {
    pub residue: usize,
    pub slot: usize,
}

/// Information about a residue: its name and its declared, ordered
/// atom-name slots.
#[derive(Clone, Debug)]
pub struct Residue {
    /// The residue name.
    pub name: String,
    /// The texts of the atom-name slots which belong to the residue.
    pub atoms: Vec<String>,
}

/// The mathematical view of a residue: its name text and its slot texts.
pub struct ResidueView {
    pub name: Seq<char>,
    pub slots: Seq<Seq<char>>,
}

impl View for Residue {
    type V = ResidueView;

    open spec fn view(&self) -> ResidueView {
        ResidueView { name: self.name@, slots: self.atoms.deep_view() }
    }
}

impl DeepView for Residue {
    type V = ResidueView;

    open spec fn deep_view(&self) -> ResidueView {
        self.view()
    }
}

/// A single atom belonging to a residue in the configuration.
#[derive(Clone, Copy, Debug)]
pub struct Atom {
    /// The handle of the atom name. Normally one of the declared slots of
    /// `residue`, though that is not enforced at construction time.
    pub name: NameRef,
    /// The index of the residue which owns the atom, into the residue
    /// table of the `Conf` in which this atom exists.
    pub residue: usize,
    /// The atom position in configuration-relative coordinates.
    pub position: RVec,
    /// The atom velocity, if it has one.
    pub velocity: Option<RVec>,
}

/// A system configuration.
#[derive(Clone, Debug)]
pub struct Conf {
    /// Configuration title.
    pub title: String,
    /// Origin of configuration.
    pub origin: RVec,
    /// Size of configuration.
    pub size: RVec,
    /// The residues which exist in the configuration; atoms refer to them
    /// by index, so that renaming one is seen by every holder.
    pub residues: Vec<Residue>,
    /// The atoms of the configuration.
    pub atoms: Vec<Atom>,
}

/// The mathematical view of a configuration.
pub struct ConfView {
    pub title: Seq<char>,
    pub origin: RVec,
    pub size: RVec,
    pub residues: Seq<ResidueView>,
    pub atoms: Seq<Atom>,
}

impl View for Conf {
    type V = ConfView;

    open spec fn view(&self) -> ConfView {
        ConfView {
            title: self.title@,
            origin: self.origin,
            size: self.size,
            residues: self.residues.deep_view(),
            atoms: self.atoms@,
        }
    }
}

/// An atom's handles point into the residue table, and the residue owning
/// it declares at least one slot.
pub open spec fn atom_wf(a: Atom, residues: Seq<ResidueView>) -> bool {
    &&& a.residue < residues.len()
    &&& residues[a.residue as int].slots.len() >= 1
    &&& a.name.residue < residues.len()
    &&& a.name.slot < residues[a.name.residue as int].slots.len()
}

/// Every atom of the list is well-formed against the residue table.
pub open spec fn atoms_wf(atoms: Seq<Atom>, residues: Seq<ResidueView>) -> bool {
    forall|i: int| 0 <= i < atoms.len() ==> atom_wf(#[trigger] atoms[i], residues)
}

/// Every atom of the configuration points into its residue table.
pub open spec fn conf_wf(c: ConfView) -> bool {
    atoms_wf(c.atoms, c.residues)
}

/// Index of the first residue named `name` at or after `i`, or the table
/// length if there is none.
pub open spec fn find_residue(rs: Seq<ResidueView>, name: Seq<char>, i: int) -> int
    decreases rs.len() - i,
{
    if i < 0 || i >= rs.len() {
        rs.len() as int
    } else if rs[i].name == name {
        i
    } else {
        find_residue(rs, name, i + 1)
    }
}

pub proof fn lemma_find_residue_props(rs: Seq<ResidueView>, name: Seq<char>, i: int)
    requires
        0 <= i <= rs.len(),
    ensures
        i <= find_residue(rs, name, i) <= rs.len(),
        find_residue(rs, name, i) < rs.len() ==> rs[find_residue(rs, name, i)].name == name,
        forall|j: int| i <= j < find_residue(rs, name, i) ==> #[trigger] rs[j].name != name,
    decreases rs.len() - i,
{
    if i < rs.len() && rs[i].name != name {
        lemma_find_residue_props(rs, name, i + 1);
    }
}

/// The residue table after a lookup-or-insert of `name`, and the handle
/// (table index) handed back.
pub open spec fn intern_residue(rs: Seq<ResidueView>, name: Seq<char>) -> (Seq<ResidueView>, int) {
    let k = find_residue(rs, name, 0);
    if k < rs.len() {
        (rs, k)
    } else {
        (rs.push(ResidueView { name, slots: Seq::empty() }), rs.len() as int)
    }
}

/// Index of the first slot with text `name` at or after `i`, or the slot
/// count if there is none.
pub open spec fn find_slot(slots: Seq<Seq<char>>, name: Seq<char>, i: int) -> int
    decreases slots.len() - i,
{
    if i < 0 || i >= slots.len() {
        slots.len() as int
    } else if slots[i] == name {
        i
    } else {
        find_slot(slots, name, i + 1)
    }
}

pub proof fn lemma_find_slot_props(slots: Seq<Seq<char>>, name: Seq<char>, i: int)
    requires
        0 <= i <= slots.len(),
    ensures
        i <= find_slot(slots, name, i) <= slots.len(),
        find_slot(slots, name, i) < slots.len() ==> slots[find_slot(slots, name, i)] == name,
        forall|j: int| i <= j < find_slot(slots, name, i) ==> #[trigger] slots[j] != name,
    decreases slots.len() - i,
{
    if i < slots.len() && slots[i] != name {
        lemma_find_slot_props(slots, name, i + 1);
    }
}

/// One residue after a lookup-or-insert of the atom name `name`, and the
/// slot index handed back.
pub open spec fn intern_slot(r: ResidueView, name: Seq<char>) -> (ResidueView, int) {
    let j = find_slot(r.slots, name, 0);
    if j < r.slots.len() {
        (r, j)
    } else {
        (ResidueView { name: r.name, slots: r.slots.push(name) }, r.slots.len() as int)
    }
}

/// The full intern step for one record: residue lookup-or-insert, then
/// atom-slot lookup-or-insert within that residue. Returns the new table,
/// the residue index and the slot index.
pub open spec fn intern_pair(
    rs: Seq<ResidueView>,
    res_name: Seq<char>,
    atom_name: Seq<char>,
) -> (Seq<ResidueView>, int, int) {
    let (rs1, k) = intern_residue(rs, res_name);
    let (r2, j) = intern_slot(rs1[k], atom_name);
    (rs1.update(k, r2), k, j)
}

/// Return the index of the residue whose name text is `name`, creating
/// and appending a residue with an empty slot list if none exists yet.
pub fn get_or_insert_residue(name: &str, residues: &mut Vec<Residue>) -> (r: usize)
    ensures
        final(residues).deep_view() == intern_residue(old(residues).deep_view(), name@).0,
        r == intern_residue(old(residues).deep_view(), name@).1,
        r < final(residues)@.len(),
        final(residues)@.len() >= old(residues)@.len(),
{
    let ghost rs = residues.deep_view();
    let name_string = String::from_str(name);
    let n = residues.len();
    proof {
        assert(rs.len() == residues@.len());
    }
    let mut i: usize = 0;
    while i < n
        invariant
            0 <= i <= n == residues@.len(),
            rs == residues.deep_view(),
            name_string@ == name@,
            find_residue(rs, name@, 0) == find_residue(rs, name@, i as int),
        decreases n - i,
    {
        proof {
            assert(rs[i as int] == residues@[i as int]@);
        }
        if residues[i].name == name_string {
            return i;
        }
        i = i + 1;
    }
    let fresh = Residue { name: name_string, atoms: Vec::new() };
    proof {
        assert(fresh@ == (ResidueView { name: name@, slots: Seq::empty() })) by {
            assert(fresh.atoms.deep_view() =~= Seq::<Seq<char>>::empty());
        }
    }
    residues.push(fresh);
    proof {
        assert(residues.deep_view() =~= rs.push(
            ResidueView { name: name@, slots: Seq::empty() },
        ));
    }
    n
}

impl Residue {
    /// Return the slot index of the atom name `atom_name` in this residue,
    /// appending a new slot if no slot has that text yet.
    pub fn get_or_insert_atom(&mut self, atom_name: &str) -> (r: usize)
        ensures
            final(self)@ == intern_slot(old(self)@, atom_name@).0,
            r == intern_slot(old(self)@, atom_name@).1,
            r < final(self).atoms@.len(),
    {
        let ghost slots = self@.slots;
        let name_string = String::from_str(atom_name);
        let n = self.atoms.len();
        proof {
            assert(slots.len() == self.atoms@.len());
        }
        let mut i: usize = 0;
        while i < n
            invariant
                0 <= i <= n == self.atoms@.len(),
                slots == self.atoms.deep_view(),
                self == old(self),
                name_string@ == atom_name@,
                find_slot(slots, atom_name@, 0) == find_slot(slots, atom_name@, i as int),
            decreases n - i,
        {
            proof {
                assert(slots[i as int] == self.atoms@[i as int]@);
            }
            if self.atoms[i] == name_string {
                return i;
            }
            i = i + 1;
        }
        self.atoms.push(name_string);
        proof {
            assert(self.atoms.deep_view() =~= slots.push(atom_name@));
            assert(self@ == intern_slot(old(self)@, atom_name@).0);
        }
        n
    }
}

/// Look up or insert the residue named `residue_name` and, within it, the
/// atom-name slot `atom_name`; hand back the residue index and the full
/// name handle. (The result is always `Ok`; the `Result` mirrors the
/// shape callers expect.)
pub fn get_or_insert_atom_and_residue(
    residue_name: &str,
    atom_name: &str,
    residues: &mut Vec<Residue>,
) -> (r: Result<(usize, NameRef), String>)
    ensures
        ({
            let (rs2, k, j) = intern_pair(old(residues).deep_view(), residue_name@, atom_name@);
            &&& final(residues).deep_view() == rs2
            &&& r matches Ok(p) && p.0 == k && p.1.residue == k && p.1.slot == j
            &&& k < final(residues)@.len()
            &&& j < rs2[k].slots.len()
        }),
{
    let ghost rs = residues.deep_view();
    let k = get_or_insert_residue(residue_name, residues);
    let ghost rs1 = residues.deep_view();
    let j = residues[k].get_or_insert_atom(atom_name);
    proof {
        assert(residues.deep_view() =~= rs1.update(k as int, intern_slot(rs1[k as int], atom_name@).0));
    }
    Ok((k, NameRef { residue: k, slot: j }))
}

} // verus!

verus! {

/// Whether the atom at `i` carries the name handle of slot `j` of residue
/// `res` — "reference identity" with that declared slot.
pub open spec fn slot_matches(atoms: Seq<Atom>, i: int, res: int, j: int) -> bool {
    atoms[i].name.residue == res && atoms[i].name.slot == j
}

/// The first template position `j >= from` at which the group starting at
/// `i` stops matching (no atom there, or the wrong slot handle), or `tlen`
/// if it matches throughout.
pub open spec fn first_mismatch(atoms: Seq<Atom>, i: int, res: int, tlen: int, from: int) -> int
    decreases tlen - from,
{
    if from >= tlen {
        tlen
    } else if i + from >= atoms.len() || !slot_matches(atoms, i + from, res, from) {
        from
    } else {
        first_mismatch(atoms, i, res, tlen, from + 1)
    }
}

/// Bounds of the first-mismatch position.
pub proof fn lemma_first_mismatch_range(atoms: Seq<Atom>, i: int, res: int, tlen: int, from: int)
    ensures
        from <= tlen ==> from <= first_mismatch(atoms, i, res, tlen, from) <= tlen,
        tlen < from ==> first_mismatch(atoms, i, res, tlen, from) == tlen,
    decreases tlen - from,
{
    if from < tlen && i + from < atoms.len() && slot_matches(atoms, i + from, res, from) {
        lemma_first_mismatch_range(atoms, i, res, tlen, from + 1);
    }
}

/// Every position strictly before the first mismatch holds a matching atom.
pub proof fn lemma_first_mismatch_matched(
    atoms: Seq<Atom>,
    i: int,
    res: int,
    tlen: int,
    from: int,
    m: int,
)
    requires
        i + from <= m < i + first_mismatch(atoms, i, res, tlen, from),
    ensures
        m < atoms.len(),
        slot_matches(atoms, m, res, m - i),
    decreases tlen - from,
{
    lemma_first_mismatch_range(atoms, i, res, tlen, from);
    if from < tlen && i + from < atoms.len() && slot_matches(atoms, i + from, res, from) {
        if m > i + from {
            lemma_first_mismatch_matched(atoms, i, res, tlen, from + 1, m);
        }
    }
}

/// At the first-mismatch position itself, matching fails (unless the whole
/// template matched).
pub proof fn lemma_first_mismatch_stop(atoms: Seq<Atom>, i: int, res: int, tlen: int, from: int)
    requires
        from <= first_mismatch(atoms, i, res, tlen, from) < tlen,
    ensures
        ({
            let f = first_mismatch(atoms, i, res, tlen, from);
            i + f >= atoms.len() || !slot_matches(atoms, i + f, res, f)
        }),
    decreases tlen - from,
{
    lemma_first_mismatch_range(atoms, i, res, tlen, from);
    if from < tlen && i + from < atoms.len() && slot_matches(atoms, i + from, res, from) {
        lemma_first_mismatch_range(atoms, i, res, tlen, from + 1);
        lemma_first_mismatch_stop(atoms, i, res, tlen, from + 1);
    }
}

/// Whether the grouping step at cursor `i` succeeds: the atom there is the
/// first declared slot of its own residue, and the following atoms fill
/// the remaining slots in order.
pub open spec fn step_ok(atoms: Seq<Atom>, residues: Seq<ResidueView>, i: int) -> bool {
    let res = atoms[i].residue as int;
    let tlen = residues[res].slots.len() as int;
    slot_matches(atoms, i, res, 0) && first_mismatch(atoms, i, res, tlen, 1) == tlen
}

/// How many atoms the grouping step at cursor `i` consumes: one for a
/// wrong first slot, the mismatch position for a failure further in, the
/// whole template length on success. Always at least one, so the cursor
/// strictly advances.
pub open spec fn step_consumed(atoms: Seq<Atom>, residues: Seq<ResidueView>, i: int) -> int {
    let res = atoms[i].residue as int;
    let tlen = residues[res].slots.len() as int;
    if !slot_matches(atoms, i, res, 0) {
        1
    } else {
        let j = first_mismatch(atoms, i, res, tlen, 1);
        if j < 1 {
            1
        } else {
            j
        }
    }
}

/// The grouping decomposition of `atoms` from cursor `i` on: one
/// `(start, consumed, ok)` triple per emitted group result.
pub open spec fn group_spans(atoms: Seq<Atom>, residues: Seq<ResidueView>, i: int) -> Seq<
    (int, int, bool),
>
    decreases atoms.len() - i,
    via group_spans_decreases
{
    if i < 0 || i >= atoms.len() {
        Seq::empty()
    } else {
        seq![(i, step_consumed(atoms, residues, i), step_ok(atoms, residues, i))] + group_spans(
            atoms,
            residues,
            i + step_consumed(atoms, residues, i),
        )
    }
}

/// Without any assumption, a step consumes at least one atom and stays
/// within the list, so the decomposition is well defined.
pub proof fn lemma_step_consumed_total(atoms: Seq<Atom>, residues: Seq<ResidueView>, i: int)
    requires
        0 <= i < atoms.len(),
    ensures
        1 <= step_consumed(atoms, residues, i),
        i + step_consumed(atoms, residues, i) <= atoms.len(),
{
    let res = atoms[i].residue as int;
    let tlen = residues[res].slots.len() as int;
    lemma_first_mismatch_range(atoms, i, res, tlen, 1);
    let f = first_mismatch(atoms, i, res, tlen, 1);
    if slot_matches(atoms, i, res, 0) && f >= 2 {
        lemma_first_mismatch_matched(atoms, i, res, tlen, 1, i + (f - 1));
    }
}

#[via_fn]
proof fn group_spans_decreases(atoms: Seq<Atom>, residues: Seq<ResidueView>, i: int) {
    if 0 <= i < atoms.len() {
        lemma_step_consumed_total(atoms, residues, i);
    }
}

/// Each step consumes at least one atom and never runs past the end.
pub proof fn lemma_step_consumed_bounds(atoms: Seq<Atom>, residues: Seq<ResidueView>, i: int)
    requires
        0 <= i < atoms.len(),
        atoms_wf(atoms, residues),
    ensures
        1 <= step_consumed(atoms, residues, i),
        i + step_consumed(atoms, residues, i) <= atoms.len(),
        step_ok(atoms, residues, i) ==> step_consumed(atoms, residues, i) == residues[atoms[i].residue as int].slots.len(),
{
    let res = atoms[i].residue as int;
    let tlen = residues[res].slots.len() as int;
    assert(atom_wf(atoms[i], residues));
    lemma_step_consumed_total(atoms, residues, i);
    lemma_first_mismatch_range(atoms, i, res, tlen, 1);
}

/// The total number of atoms the spans cover.
pub open spec fn spans_consumed(spans: Seq<(int, int, bool)>) -> int
    decreases spans.len(),
{
    if spans.len() == 0 {
        0
    } else {
        spans[0].1 + spans_consumed(spans.skip(1))
    }
}

/// Iterating the grouping to completion consumes the whole atom list:
/// the spans partition `atoms[i..]`, in at most `atoms.len() - i` steps.
pub proof fn lemma_grouping_partitions(atoms: Seq<Atom>, residues: Seq<ResidueView>, i: int)
    requires
        0 <= i <= atoms.len(),
        atoms_wf(atoms, residues),
    ensures
        spans_consumed(group_spans(atoms, residues, i)) == atoms.len() - i,
        group_spans(atoms, residues, i).len() <= atoms.len() - i,
    decreases atoms.len() - i,
{
    if i < atoms.len() {
        lemma_step_consumed_bounds(atoms, residues, i);
        let c = step_consumed(atoms, residues, i);
        lemma_grouping_partitions(atoms, residues, i + c);
        let spans = group_spans(atoms, residues, i);
        assert(spans.skip(1) =~= group_spans(atoms, residues, i + c));
    }
}

/// Error from iterating over residues: `index` is the cursor position at
/// which the failed resynchronisation attempt began.
#[derive(Clone, Copy, Debug, PartialEq, Eq, Structural)]
pub struct ResidueError {
    pub index: usize,
}

/// An iterator over residues of a collection of `Atom`s. Each call of
/// `next` yields one residue group, or an error that consumes at least
/// one atom, until no atom remains.
#[derive(Debug)]
pub struct ResidueIter<'a> {
    pub index: usize,
    pub atoms: &'a Vec<Atom>,
    pub residues: &'a Vec<Residue>,
}

/// What one call of `ResidueIter::next` does, relating the cursor before
/// (`i`) and after (`i2`) to the yielded result.
pub open spec fn next_post(
    atoms: Seq<Atom>,
    residues: Seq<ResidueView>,
    i: int,
    i2: int,
    r: Option<Result<Vec<Atom>, ResidueError>>,
) -> bool {
    if i >= atoms.len() {
        r is None && i2 == i
    } else {
        let c = step_consumed(atoms, residues, i);
        &&& i2 == i + c
        &&& match r {
            Some(Ok(group)) => step_ok(atoms, residues, i) && group@ == atoms.subrange(i, i + c),
            Some(Err(e)) => !step_ok(atoms, residues, i) && e == (ResidueError {
                index: i as usize,
            }),
            None => false,
        }
    }
}

impl<'a> ResidueIter<'a> {
    /// Yield the next residue group: the atoms filling one residue's
    /// declared slots in order, or an error recording where
    /// resynchronisation began, or `None` once no atom remains.
    #[verifier::loop_isolation(false)]
    pub fn next(&mut self) -> (r: Option<Result<Vec<Atom>, ResidueError>>)
        requires
            atoms_wf(old(self).atoms@, old(self).residues.deep_view()),
        ensures
            final(self).atoms == old(self).atoms,
            final(self).residues == old(self).residues,
            next_post(
                old(self).atoms@,
                old(self).residues.deep_view(),
                old(self).index as int,
                final(self).index as int,
                r,
            ),
    {
        let ghost atoms = self.atoms@;
        let ghost residues = self.residues.deep_view();
        let i = self.index;
        let total = self.atoms.len();
        if i >= total {
            return None;
        }
        proof {
            assert(atom_wf(atoms[i as int], residues));
        }
        let atom1 = self.atoms[i];
        let res = atom1.residue;
        let ghost resg = res as int;
        let residue_len = self.residues[res].atoms.len();
        proof {
            assert(residues[resg] == self.residues@[resg]@);
            assert(residue_len == residues[resg].slots.len());
        }
        if !(atom1.name.residue == res && atom1.name.slot == 0) {
            self.index = i + 1;
            return Some(Err(ResidueError { index: i }));
        }
        let mut atom_list: Vec<Atom> = Vec::new();
        atom_list.push(atom1);
        proof {
            assert(atom_list@ =~= atoms.subrange(i as int, i + 1));
        }
        let mut j: usize = 1;
        while j < residue_len
            invariant
                1 <= j <= residue_len,
                self == old(self),
                atom_list@ == atoms.subrange(i as int, i + j),
                i + j <= total,
                first_mismatch(atoms, i as int, resg, residue_len as int, 1) == first_mismatch(
                    atoms,
                    i as int,
                    resg,
                    residue_len as int,
                    j as int,
                ),
            decreases residue_len - j,
        {
            if j >= total - i {
                self.index = i + j;
                proof {
                    assert(first_mismatch(atoms, i as int, resg, residue_len as int, j as int)
                        == j);
                }
                return Some(Err(ResidueError { index: i }));
            }
            let atom = self.atoms[i + j];
            if !(atom.name.residue == res && atom.name.slot == j) {
                self.index = i + j;
                proof {
                    assert(first_mismatch(atoms, i as int, resg, residue_len as int, j as int)
                        == j);
                }
                return Some(Err(ResidueError { index: i }));
            }
            atom_list.push(atom);
            proof {
                assert(atom_list@ =~= atoms.subrange(i as int, i + j + 1));
                assert(slot_matches(atoms, i + j, resg, j as int));
                assert(first_mismatch(atoms, i as int, resg, residue_len as int, j as int)
                    == first_mismatch(atoms, i as int, resg, residue_len as int, j + 1));
            }
            j = j + 1;
        }
        self.index = i + residue_len;
        proof {
            assert(first_mismatch(atoms, i as int, resg, residue_len as int, residue_len as int)
                == residue_len);
            assert(step_ok(atoms, residues, i as int));
            assert(step_consumed(atoms, residues, i as int) == residue_len);
        }
        Some(Ok(atom_list))
    }
}

impl Conf {
    /// Group atoms as their residues and iterate over them.
    pub fn iter_residues<'a>(&'a self) -> (it: ResidueIter<'a>)
        ensures
            it.index == 0,
            it.atoms@ == self.atoms@,
            it.residues@ == self.residues@,
            it.residues.deep_view() == self.residues.deep_view(),
    {
        ResidueIter { index: 0, atoms: &self.atoms, residues: &self.residues }
    }
}

} // verus!

verus! {

/// Looking up the same residue name twice returns the same handle, and the
/// second lookup leaves the table unchanged.
pub proof fn lemma_intern_residue_idempotent(rs: Seq<ResidueView>, name: Seq<char>)
    ensures
        ({
            let (rs1, h1) = intern_residue(rs, name);
            let (rs2, h2) = intern_residue(rs1, name);
            rs2 == rs1 && h2 == h1
        }),
{
    lemma_find_residue_props(rs, name, 0);
    let k = find_residue(rs, name, 0);
    if k == rs.len() {
        let rs1 = rs.push(ResidueView { name, slots: Seq::empty() });
        lemma_find_residue_is(rs1, name, 0, rs.len() as int);
    }
}

/// `find_residue` lands on `m` when everything before `m` misses and `m`
/// itself (if in range) hits.
pub proof fn lemma_find_residue_is(rs: Seq<ResidueView>, name: Seq<char>, i: int, m: int)
    requires
        0 <= i <= m <= rs.len(),
        forall|j: int| i <= j < m ==> (#[trigger] rs[j].name) != name,
        m < rs.len() ==> rs[m].name == name,
    ensures
        find_residue(rs, name, i) == m,
    decreases m - i,
{
    if i < m {
        lemma_find_residue_is(rs, name, i + 1, m);
    }
}

/// Two different name texts never intern to the same residue handle, even
/// across successive lookups.
pub proof fn lemma_intern_residue_distinct(rs: Seq<ResidueView>, n1: Seq<char>, n2: Seq<char>)
    requires
        n1 != n2,
    ensures
        ({
            let (rs1, h1) = intern_residue(rs, n1);
            let (rs2, h2) = intern_residue(rs1, n2);
            h1 != h2
        }),
{
    lemma_find_residue_props(rs, n1, 0);
    let (rs1, h1) = intern_residue(rs, n1);
    assert(rs1[h1].name == n1);
    lemma_find_residue_props(rs1, n2, 0);
    let (rs2, h2) = intern_residue(rs1, n2);
    if h2 < rs1.len() {
        assert(rs1[h2].name == n2);
    } else {
        assert(h1 < rs1.len());
    }
}

/// A deep copy of one residue: the same name and slot texts.
#[verifier::loop_isolation(false)]
fn clone_residue(r: &Residue) -> (c: Residue)
    ensures
        c@ == r@,
{
    let mut slots: Vec<String> = Vec::new();
    let n = r.atoms.len();
    let mut i: usize = 0;
    while i < n
        invariant
            i <= n,
            slots.deep_view() == r.atoms.deep_view().subrange(0, i as int),
        decreases n - i,
    {
        slots.push(r.atoms[i].clone());
        proof {
            assert(slots.deep_view() =~= r.atoms.deep_view().subrange(0, i + 1));
        }
        i = i + 1;
    }
    let c = Residue { name: r.name.clone(), atoms: slots };
    proof {
        assert(c.atoms.deep_view() =~= r.atoms.deep_view());
    }
    c
}

/// A deep copy of a residue table.
#[verifier::loop_isolation(false)]
fn clone_residues(rs: &Vec<Residue>) -> (c: Vec<Residue>)
    ensures
        c.deep_view() == rs.deep_view(),
{
    let mut c: Vec<Residue> = Vec::new();
    let n = rs.len();
    let mut i: usize = 0;
    while i < n
        invariant
            i <= n,
            c.deep_view() == rs.deep_view().subrange(0, i as int),
        decreases n - i,
    {
        let one = clone_residue(&rs[i]);
        c.push(one);
        proof {
            assert(c.deep_view() =~= rs.deep_view().subrange(0, i + 1));
        }
        i = i + 1;
    }
    proof {
        assert(c.deep_view() =~= rs.deep_view());
    }
    c
}

} // verus!

verus! {

/// The x-offset (in box lengths) of the `t`-th periodic image, with the
/// z index varying fastest, then y, then x.
pub open spec fn image_x(t: int, ny: int, nz: int) -> int {
    t / (ny * nz)
}

/// The y-offset of the `t`-th periodic image.
pub open spec fn image_y(t: int, ny: int, nz: int) -> int {
    (t / nz) % ny
}

/// The z-offset of the `t`-th periodic image.
pub open spec fn image_z(t: int, nz: int) -> int {
    t % nz
}

/// `a` translated by `ix`, `iy`, `iz` box lengths: the same name and
/// residue handles, the same velocity, a shifted position.
pub open spec fn image_atom(a: Atom, size: RVec, ix: int, iy: int, iz: int) -> Atom {
    Atom {
        name: a.name,
        residue: a.residue,
        position: RVec {
            x: (a.position.x + size.x * ix) as i64,
            y: (a.position.y + size.y * iy) as i64,
            z: (a.position.z + size.z * iz) as i64,
        },
        velocity: a.velocity,
    }
}

/// Overflow-safety of replication: the scaled box size and every
/// translated coordinate fit in the coordinate type.
pub open spec fn pbc_mul_ok(c: ConfView, nx: int, ny: int, nz: int) -> bool {
    &&& crate::fixed::abs_val(c.size.x as int) * nx <= i64::MAX
    &&& crate::fixed::abs_val(c.size.y as int) * ny <= i64::MAX
    &&& crate::fixed::abs_val(c.size.z as int) * nz <= i64::MAX
    &&& forall|k: int|
        0 <= k < c.atoms.len() ==> {
            let p = (#[trigger] c.atoms[k]).position;
            &&& crate::fixed::abs_val(p.x as int) + crate::fixed::abs_val(c.size.x as int) * nx
                <= i64::MAX
            &&& crate::fixed::abs_val(p.y as int) + crate::fixed::abs_val(c.size.y as int) * ny
                <= i64::MAX
            &&& crate::fixed::abs_val(p.z as int) + crate::fixed::abs_val(c.size.z as int) * nz
                <= i64::MAX
        }
}

/// `|v * i| <= |v| * n` for `0 <= i <= n`.
proof fn lemma_scaled_bound(v: int, i: int, n: int)
    requires
        0 <= i <= n,
    ensures
        crate::fixed::abs_val(v * i) <= crate::fixed::abs_val(v) * n,
{
    assert(crate::fixed::abs_val(v * i) <= crate::fixed::abs_val(v) * n) by (nonlinear_arith)
        requires
            0 <= i <= n,
    {
    }
}

impl Conf {
    /// Extend the configuration along each direction by copying and
    /// translating the atoms: one copy of the whole atom list per image
    /// `(ix, iy, iz)` with `0 <= ix < nx` and so on, the z index varying
    /// fastest; the box size scales component-wise. The residue table,
    /// title and origin carry over.
    #[verifier::loop_isolation(false)]
    #[verifier::rlimit(100)]
    pub fn pbc_multiply(&self, nx: usize, ny: usize, nz: usize) -> (r: Conf)
        requires
            pbc_mul_ok(self@, nx as int, ny as int, nz as int),
            nx * ny <= usize::MAX,
            nx * ny * nz <= usize::MAX,
            nx * ny * nz * self.atoms@.len() <= usize::MAX,
            nx <= i64::MAX,
            ny <= i64::MAX,
            nz <= i64::MAX,
        ensures
            r.title@ == self.title@,
            r.origin == self.origin,
            r.size.x == self.size.x * nx,
            r.size.y == self.size.y * ny,
            r.size.z == self.size.z * nz,
            r.residues.deep_view() == self.residues.deep_view(),
            r.atoms@.len() == nx * ny * nz * self.atoms@.len(),
            forall|t: int, k: int|
                0 <= t < nx * ny * nz && 0 <= k < self.atoms@.len()
                    ==> #[trigger] r.atoms@[t * self.atoms@.len() + k] == image_atom(
                    self.atoms@[k],
                    self.size,
                    image_x(t, ny as int, nz as int),
                    image_y(t, ny as int, nz as int),
                    image_z(t, nz as int),
                ),
    {
        let n = self.atoms.len();
        let total_images = nx * ny * nz;
        proof {
            assert(nx * ny * nz * n >= 0) by (nonlinear_arith);
        }
        let mut atoms: Vec<Atom> = Vec::new();
        let mut t: usize = 0;
        while t < total_images
            invariant
                t <= total_images,
                atoms@.len() == t * n,
                forall|t2: int, k2: int|
                    0 <= t2 < t && 0 <= k2 < n ==> #[trigger] atoms@[t2 * n + k2] == image_atom(
                        self.atoms@[k2],
                        self.size,
                        image_x(t2, ny as int, nz as int),
                        image_y(t2, ny as int, nz as int),
                        image_z(t2, nz as int),
                    ),
            decreases total_images - t,
        {
            proof {
                assert(ny * nz > 0 && nx > 0 && ny > 0 && nz > 0) by (nonlinear_arith)
                    requires
                        t < nx * ny * nz,
                        0 <= t,
                        nx >= 0,
                        ny >= 0,
                        nz >= 0,
                {
                }
                assert(ny * nz <= nx * (ny * nz)) by (nonlinear_arith)
                    requires
                        nx >= 1,
                        ny * nz >= 0,
                {
                }
                assert(nx * (ny * nz) == nx * ny * nz) by (nonlinear_arith);
            }
            let ynz = ny * nz;
            let ix = t / ynz;
            let iy = (t / nz) % ny;
            let iz = t % nz;
            proof {
                assert(ix < nx) by (nonlinear_arith)
                    requires
                        ynz > 0,
                        0 <= t,
                        t < nx * ynz,
                        ix == t / ynz,
                {
                }
                assert(0 <= iy < ny && 0 <= iz < nz);
                lemma_scaled_bound(self.size.x as int, ix as int, nx as int);
                lemma_scaled_bound(self.size.y as int, iy as int, ny as int);
                lemma_scaled_bound(self.size.z as int, iz as int, nz as int);
            }
            let dr = self.size.pbc_multiply(ix, iy, iz);
            let ghost t0 = t as int;
            let mut k: usize = 0;
            proof {
                assert(t0 * n + n == (t0 + 1) * n) by (nonlinear_arith);
                assert((t0 + 1) * n <= nx * ny * nz * n) by (nonlinear_arith)
                    requires
                        t0 + 1 <= nx * ny * nz,
                        n >= 0,
                {
                }
            }
            while k < n
                invariant
                    k <= n,
                    atoms@.len() == t0 * n + k,
                    0 <= t0 < nx * ny * nz,
                    ix == image_x(t0, ny as int, nz as int),
                    iy == image_y(t0, ny as int, nz as int),
                    iz == image_z(t0, nz as int),
                    dr.x == self.size.x * ix,
                    dr.y == self.size.y * iy,
                    dr.z == self.size.z * iz,
                    t == t0,
                    t0 * n + n == (t0 + 1) * n,
                    (t0 + 1) * n <= nx * ny * nz * n,
                    forall|t2: int, k2: int|
                        0 <= t2 < t0 && 0 <= k2 < n ==> #[trigger] atoms@[t2 * n + k2]
                            == image_atom(
                            self.atoms@[k2],
                            self.size,
                            image_x(t2, ny as int, nz as int),
                            image_y(t2, ny as int, nz as int),
                            image_z(t2, nz as int),
                        ),
                    forall|k2: int|
                        0 <= k2 < k ==> #[trigger] atoms@[t0 * n + k2] == image_atom(
                            self.atoms@[k2],
                            self.size,
                            image_x(t0, ny as int, nz as int),
                            image_y(t0, ny as int, nz as int),
                            image_z(t0, nz as int),
                        ),
                decreases n - k,
            {
                let a = self.atoms[k];
                proof {
                    assert(a == self.atoms@[k as int]);
                    lemma_scaled_bound(self.size.x as int, ix as int, nx as int);
                    lemma_scaled_bound(self.size.y as int, iy as int, ny as int);
                    lemma_scaled_bound(self.size.z as int, iz as int, nz as int);
                }
                let pos = a.position.add(dr);
                let newa = Atom { name: a.name, residue: a.residue, position: pos, velocity: a.velocity };
                atoms.push(newa);
                proof {
                    let snap = atoms@;
                    assert forall|t2: int, k2: int|
                        0 <= t2 < t0 && 0 <= k2 < n implies #[trigger] snap[t2 * n + k2]
                        == image_atom(
                        self.atoms@[k2],
                        self.size,
                        image_x(t2, ny as int, nz as int),
                        image_y(t2, ny as int, nz as int),
                        image_z(t2, nz as int),
                    ) by {
                        assert(t2 * n + n == (t2 + 1) * n) by (nonlinear_arith);
                        assert((t2 + 1) * n <= t0 * n) by (nonlinear_arith)
                            requires
                                t2 + 1 <= t0,
                                n >= 0,
                        {
                        }
                        assert(t2 * n + k2 < t0 * n + k);
                    }
                }
                k = k + 1;
            }
            t = t + 1;
        }
        proof {
            assert(total_images * n == nx * ny * nz * n) by (nonlinear_arith)
                requires
                    total_images == nx * ny * nz,
            {
            }
        }
        proof {
            lemma_scaled_bound(self.size.x as int, nx as int, nx as int);
            lemma_scaled_bound(self.size.y as int, ny as int, ny as int);
            lemma_scaled_bound(self.size.z as int, nz as int, nz as int);
        }
        Conf {
            title: self.title.clone(),
            origin: self.origin,
            size: self.size.pbc_multiply(nx, ny, nz),
            residues: clone_residues(&self.residues),
            atoms,
        }
    }
}

} // verus!

verus! {

/// `find_slot` lands on `m` when everything before `m` misses and `m`
/// itself (if in range) hits.
pub proof fn lemma_find_slot_is(slots: Seq<Seq<char>>, name: Seq<char>, i: int, m: int)
    requires
        0 <= i <= m <= slots.len(),
        forall|j: int| i <= j < m ==> (#[trigger] slots[j]) != name,
        m < slots.len() ==> slots[m] == name,
    ensures
        find_slot(slots, name, i) == m,
    decreases m - i,
{
    if i < m {
        lemma_find_slot_is(slots, name, i + 1, m);
    }
}

/// Looking up the same atom name twice in one residue returns the same
/// slot handle, and the second lookup changes nothing.
pub proof fn lemma_intern_slot_idempotent(r: ResidueView, name: Seq<char>)
    ensures
        ({
            let (r1, j1) = intern_slot(r, name);
            let (r2, j2) = intern_slot(r1, name);
            r2 == r1 && j2 == j1
        }),
{
    lemma_find_slot_props(r.slots, name, 0);
    let j = find_slot(r.slots, name, 0);
    if j == r.slots.len() {
        let s1 = r.slots.push(name);
        lemma_find_slot_is(s1, name, 0, r.slots.len() as int);
    }
}

/// Two different atom-name texts never intern to the same slot handle.
pub proof fn lemma_intern_slot_distinct(r: ResidueView, n1: Seq<char>, n2: Seq<char>)
    requires
        n1 != n2,
    ensures
        ({
            let (r1, j1) = intern_slot(r, n1);
            let (r2, j2) = intern_slot(r1, n2);
            j1 != j2
        }),
{
    lemma_find_slot_props(r.slots, n1, 0);
    let (r1, j1) = intern_slot(r, n1);
    assert(r1.slots[j1] == n1);
    lemma_find_slot_props(r1.slots, n2, 0);
    let (r2, j2) = intern_slot(r1, n2);
    if j2 < r1.slots.len() {
        assert(r1.slots[j2] == n2);
    } else {
        assert(j1 < r1.slots.len());
    }
}

} // verus!
