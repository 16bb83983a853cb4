//! The GROMOS87 fixed-width codec: parsing a configuration from text and
//! serialising one back out, with strict column layout, fixed-point
//! precision and five-digit index wraparound.

use crate::conf::{
    atoms_wf, conf_wf, get_or_insert_atom_and_residue, group_spans, intern_pair, step_consumed,
    step_ok, Atom, Conf, ConfView, NameRef, Residue, ResidueView,
};
use crate::fixed::{
    digits_val, fmt_fixed, fmt_fixed_spec, pad_left_str, pad_right_str, parse_fixed_num,
    spec_digits, spec_pad_left, spec_pad_right, u64_digits,
};
use crate::rvec::{from_fixed_spec, from_whitespace_spec, ParseRVecError, RVec};
use crate::text::{
    all_digits, find_eol, first_non_ws, is_ws_char, lemma_eol_bounds,
    lemma_first_non_ws_bounds, lemma_line_start_bounds, lemma_line_start_ge,
    lemma_trim_empty_iff, line_at, line_start, scan_non_ws_rev, scan_range_start, token_at,
    token_start, trim_end_spec, trim_spec, trimmed_copy,
};
use vstd::prelude::*;

verus! {

/// How writing a configuration can fail.
#[derive(Debug, PartialEq, Eq, Structural)]
pub enum WriteError {
    /// The surrounding output layer failed; the encoder itself, which only
    /// builds text, never raises it.
    IoError,
    /// The residue group with this 1-based ordinal was not well formed.
    BadResidue(usize),
}

/// How reading a configuration can fail. A carried number is the 1-based
/// line at which decoding stopped.
#[derive(Debug, PartialEq, Eq, Structural)]
pub enum ReadError {
    /// A line was not valid text; raised by callers that read raw bytes,
    /// never by the decoder itself.
    Utf8Error(usize),
    /// No title line was present.
    MissingTitle,
    /// No atom-count line was present.
    MissingNumAtoms,
    /// The atom-count line did not parse as a non-negative integer.
    NumAtomsError,
    /// The stream ended before this atom record line.
    MissingAtomLine(usize),
    /// This atom record line was too short or held a malformed field.
    LineError(usize),
    /// The box-size line was missing or blank.
    NoBoxSize(usize),
    /// The box-size line did not hold three numerals.
    BoxSizeError(usize),
}

/// Failure to parse one atom record line.
#[derive(Debug, PartialEq, Eq, Structural)]
pub struct ParseLineError;

/// One parsed atom record line: names still as text, not yet interned.
#[derive(Debug)]
pub struct Line {
    pub residue_name: String,
    pub atom_name: String,
    pub position: RVec,
    pub velocity: Option<RVec>,
}

/// The mathematical view of a parsed record line.
pub struct LineView {
    pub residue_name: Seq<char>,
    pub atom_name: Seq<char>,
    pub position: RVec,
    pub velocity: Option<RVec>,
}

impl View for Line {
    type V = LineView;

    open spec fn view(&self) -> LineView {
        LineView {
            residue_name: self.residue_name@,
            atom_name: self.atom_name@,
            position: self.position,
            velocity: self.velocity,
        }
    }
}

/// What parsing one record line yields: columns 5-10 and 10-15 are the
/// trimmed residue and atom names, the position is three 8-wide fields
/// from column 20, and the region from column 44 is the velocity — absent
/// if blank, fatal if malformed. Lines shorter than 44 characters fail.
pub open spec fn parse_atom_line_spec(l: Seq<char>) -> Option<LineView> {
    if l.len() < 44 {
        None
    } else {
        let res_name = trim_spec(l.subrange(5, 10));
        let atom_name = trim_spec(l.subrange(10, 15));
        match from_fixed_spec(l.skip(20), 8) {
            Err(e) => None,
            Ok(position) => if trim_spec(l.skip(44)).len() == 0 {
                Some(
                    LineView {
                        residue_name: res_name,
                        atom_name: atom_name,
                        position,
                        velocity: None,
                    },
                )
            } else {
                match from_fixed_spec(l.skip(44), 8) {
                    Ok(v) => Some(
                        LineView {
                            residue_name: res_name,
                            atom_name: atom_name,
                            position,
                            velocity: Some(v),
                        },
                    ),
                    Err(e) => None,
                }
            },
        }
    }
}

/// Parse one fixed-width atom record line (without its terminator).
pub fn parse_atom_line(line: &str) -> (r: Result<Line, ParseLineError>)
    ensures
        match r {
            Ok(lv) => parse_atom_line_spec(line@) == Some(lv@),
            Err(e) => parse_atom_line_spec(line@) is None,
        },
{
    let n = line.unicode_len();
    if n < 44 {
        return Err(ParseLineError);
    }
    let residue_name = trimmed_copy(line, 5, 10);
    let atom_name = trimmed_copy(line, 10, 15);
    let pos_str = line.substring_char(20, n);
    proof {
        assert(pos_str@ =~= line@.skip(20));
    }
    let position = match RVec::from_fixed(pos_str, 8) {
        Ok(v) => v,
        Err(e) => {
            return Err(ParseLineError);
        },
    };
    let vel_start = scan_range_start(line, 44, n);
    proof {
        assert(line@.subrange(44, n as int) =~= line@.skip(44));
        lemma_trim_empty_iff(line@.skip(44));
    }
    if vel_start == n {
        return Ok(Line { residue_name, atom_name, position, velocity: None });
    }
    let vel_str = line.substring_char(44, n);
    proof {
        assert(vel_str@ =~= line@.skip(44));
    }
    match RVec::from_fixed(vel_str, 8) {
        Ok(v) => Ok(Line { residue_name, atom_name, position, velocity: Some(v) }),
        Err(e) => Err(ParseLineError),
    }
}

} // verus!

verus! {

/// Saturating cap used while accumulating atom-count digits; above any
/// possible `usize` value.
const COUNT_CAP: u128 = 20_000_000_000_000_000_000;

spec fn count_capped(v: int) -> int {
    if v >= COUNT_CAP {
        COUNT_CAP as int
    } else {
        v
    }
}

/// Accumulate the digit-string value of `s[from..to]`, saturating at
/// `COUNT_CAP`; `None` if some character there is not a digit.
#[verifier::loop_isolation(false)]
fn count_digits_capped(s: &str, from: usize, to: usize) -> (r: Option<u128>)
    requires
        from <= to <= s@.len(),
    ensures
        ({
            let part = s@.subrange(from as int, to as int);
            match r {
                Some(v) => all_digits(part) && v == count_capped(digits_val(part)) && 0 <= v
                    <= COUNT_CAP,
                None => !all_digits(part),
            }
        }),
{
    let ghost part = s@.subrange(from as int, to as int);
    let mut acc: u128 = 0;
    let mut i = from;
    while i < to
        invariant
            from <= i <= to,
            all_digits(s@.subrange(from as int, i as int)),
            acc == count_capped(digits_val(s@.subrange(from as int, i as int))),
            0 <= acc <= COUNT_CAP,
        decreases to - i,
    {
        let ghost pref = s@.subrange(from as int, i as int);
        let c = s.get_char(i);
        if !crate::text::is_digit(c) {
            proof {
                assert(part[i - from] == c);
            }
            return None;
        }
        let d = (c as u32) as u128;
        let d = d - 48;
        proof {
            let prefc = s@.subrange(from as int, i + 1);
            assert(prefc =~= pref.push(c));
            crate::fixed::lemma_digits_val_push(pref, c);
            crate::fixed::lemma_digits_val_nonneg(pref);
            assert(forall|j: int| 0 <= j < prefc.len() ==> crate::text::is_digit_char(
                #[trigger] prefc[j],
            ));
            if digits_val(pref) >= COUNT_CAP {
                assert(digits_val(pref) * 10 >= digits_val(pref)) by (nonlinear_arith)
                    requires
                        digits_val(pref) >= 0,
                {
                }
            }
        }
        let next = acc * 10 + d;
        acc = if next >= COUNT_CAP {
            COUNT_CAP
        } else {
            next
        };
        i = i + 1;
    }
    proof {
        assert(part =~= s@.subrange(from as int, to as int));
    }
    Some(acc)
}

/// The value of the atom-count line: optional surrounding whitespace, an
/// optional plus sign, decimal digits, at most `usize::MAX`.
pub open spec fn count_val(s: Seq<char>) -> Option<int> {
    let t = trim_spec(s);
    let u = if t.len() > 0 && t[0] == '+' {
        t.skip(1)
    } else {
        t
    };
    if u.len() >= 1 && all_digits(u) && digits_val(u) <= usize::MAX {
        Some(digits_val(u))
    } else {
        None
    }
}

/// Parse `s[from..to]` as the atom count.
fn parse_count(s: &str, from: usize, to: usize) -> (r: Option<usize>)
    requires
        from <= to <= s@.len(),
    ensures
        ({
            let m = count_val(s@.subrange(from as int, to as int));
            match r {
                Some(v) => m == Some(v as int),
                None => m is None,
            }
        }),
{
    let ghost sub = s@.subrange(from as int, to as int);
    let a = crate::text::scan_range_start(s, from, to);
    proof {
        lemma_first_non_ws_bounds(sub, 0);
        crate::text::lemma_last_non_ws_bounds(sub, sub.len() as int);
    }
    if a == to {
        return None;
    }
    let b = crate::text::scan_range_end(s, from, to);
    let ghost t = trim_spec(sub);
    proof {
        assert(!is_ws_char(sub[a - from]));
        crate::text::lemma_last_non_ws_above(sub, sub.len() as int, a - from);
        assert(t =~= s@.subrange(a as int, b as int));
        assert(t[0] == s@[a as int]);
    }
    let c0 = s.get_char(a);
    let a2 = if c0 == '+' {
        a + 1
    } else {
        a
    };
    let ghost u = s@.subrange(a2 as int, b as int);
    proof {
        if c0 == '+' {
            assert(u =~= t.skip(1));
        } else {
            assert(u =~= t);
        }
    }
    if a2 == b {
        return None;
    }
    let acc = match count_digits_capped(s, a2, b) {
        Some(acc) => acc,
        None => {
            return None;
        },
    };
    if acc > usize::MAX as u128 {
        return None;
    }
    Some(acc as usize)
}

/// Interning only extends the table: indices stay valid and slot lists
/// never shrink.
pub proof fn lemma_intern_pair_extends(rs: Seq<ResidueView>, rn: Seq<char>, an: Seq<char>)
    ensures
        ({
            let (rs2, k, j) = intern_pair(rs, rn, an);
            &&& rs2.len() >= rs.len()
            &&& 0 <= k < rs2.len()
            &&& 0 <= j < rs2[k].slots.len()
            &&& forall|i: int|
                0 <= i < rs.len() ==> (#[trigger] rs2[i]).slots.len() >= rs[i].slots.len()
        }),
{
    crate::conf::lemma_find_residue_props(rs, rn, 0);
    let (rs1, k) = crate::conf::intern_residue(rs, rn);
    crate::conf::lemma_find_slot_props(rs1[k].slots, an, 0);
}

/// The fold that decoding performs over the atom records from index `k`
/// on: parse each line, intern its names, append the atom.
pub open spec fn read_records(
    text: Seq<char>,
    k: int,
    n: int,
    rs: Seq<ResidueView>,
    atoms: Seq<Atom>,
) -> Result<(Seq<ResidueView>, Seq<Atom>), ReadError>
    decreases n - k,
{
    if k >= n {
        Ok((rs, atoms))
    } else if line_start(text, 2 + k) > text.len() {
        Err(ReadError::MissingAtomLine((3 + k) as usize))
    } else {
        match parse_atom_line_spec(line_at(text, 2 + k)) {
            None => Err(ReadError::LineError((3 + k) as usize)),
            Some(lv) => {
                let (rs2, ri, si) = intern_pair(rs, lv.residue_name, lv.atom_name);
                let a = Atom {
                    name: NameRef { residue: ri as usize, slot: si as usize },
                    residue: ri as usize,
                    position: lv.position,
                    velocity: lv.velocity,
                };
                read_records(text, k + 1, n, rs2, atoms.push(a))
            },
        }
    }
}

/// What decoding a whole text yields. The title is the first line with
/// trailing whitespace removed; the second line carries the atom count;
/// one record line follows per atom; the next line holds the box size.
/// The origin is always zero: the format carries no origin field.
pub open spec fn decode_spec(text: Seq<char>) -> Result<ConfView, ReadError> {
    let title = trim_end_spec(line_at(text, 0));
    match count_val(line_at(text, 1)) {
        None => Err(ReadError::NumAtomsError),
        Some(n) => match read_records(text, 0, n, Seq::empty(), Seq::empty()) {
            Err(e) => Err(e),
            Ok(pair) => {
                let bl = line_at(text, 2 + n);
                match from_whitespace_spec(bl) {
                    Err(ParseRVecError::MissingValues) => Err(
                        ReadError::NoBoxSize((3 + n) as usize),
                    ),
                    Err(ParseRVecError::ParseFloatError) => Err(
                        ReadError::BoxSizeError((3 + n) as usize),
                    ),
                    Ok(size) => Ok(
                        ConfView {
                            title,
                            origin: RVec { x: 0, y: 0, z: 0 },
                            size,
                            residues: pair.0,
                            atoms: pair.1,
                        },
                    ),
                }
            },
        },
    }
}

} // verus!

verus! {

/// Read a configuration from GROMOS87 formatted text: a title line, an
/// atom-count line, one fixed-width record per atom, and a box-size line.
/// Residue and atom names are interned while reading, so equal texts
/// share one handle. Decoding either succeeds completely or reports the
/// first problem found.
#[verifier::loop_isolation(false)]
#[verifier::rlimit(100)]
pub fn read_gromos87_conf(input: &str) -> (r: Result<Conf, ReadError>)
    requires
        input@.len() + 3 <= usize::MAX,
    ensures
        match r {
            Ok(c) => decode_spec(input@) == Ok::<ConfView, ReadError>(c@) && conf_wf(c@),
            Err(e) => decode_spec(input@) == Err::<ConfView, ReadError>(e),
        },
{
    let ghost text = input@;
    let n = input.unicode_len();
    let e0 = find_eol(input, 0, n);
    let tend = scan_non_ws_rev(input, e0);
    proof {
        lemma_eol_bounds(text, 0);
        crate::text::lemma_last_non_ws_prefix(text, e0 as int, e0 as int);
        assert(line_at(text, 0) =~= text.subrange(0, e0 as int));
        assert(trim_end_spec(line_at(text, 0)) =~= text.subrange(0, tend as int));
    }
    let title = String::from_str(input.substring_char(0, tend));
    let mut pos: usize;
    let mut past: bool;
    if e0 == n {
        pos = n;
        past = true;
    } else {
        pos = e0 + 1;
        past = false;
    }
    proof {
        assert(line_start(text, 1) == e0 + 1);
    }
    if past {
        proof {
            assert(line_at(text, 1) =~= Seq::<char>::empty());
            assert(count_val(Seq::<char>::empty()) is None);
        }
        return Err(ReadError::NumAtomsError);
    }
    let e1 = find_eol(input, pos, n);
    proof {
        assert(line_at(text, 1) =~= text.subrange(pos as int, e1 as int));
    }
    let num = match parse_count(input, pos, e1) {
        Some(v) => v,
        None => {
            return Err(ReadError::NumAtomsError);
        },
    };
    if e1 == n {
        pos = n;
        past = true;
    } else {
        pos = e1 + 1;
        past = false;
    }
    proof {
        assert(line_start(text, 2) == e1 + 1);
    }
    let mut residues: Vec<Residue> = Vec::new();
    let mut atoms: Vec<Atom> = Vec::new();
    let mut i: usize = 0;
    proof {
        assert(residues.deep_view() =~= Seq::<ResidueView>::empty());
        assert(atoms@ =~= Seq::<Atom>::empty());
    }
    while i < num
        invariant
            i <= num,
            !past ==> pos == line_start(text, 2 + i) && pos <= n,
            past ==> line_start(text, 2 + i) > n,
            2 + i <= n + 2,
            read_records(text, 0, num as int, Seq::empty(), Seq::empty()) == read_records(
                text,
                i as int,
                num as int,
                residues.deep_view(),
                atoms@,
            ),
            atoms_wf(atoms@, residues.deep_view()),
        decreases num - i,
    {
        if past {
            return Err(ReadError::MissingAtomLine(3 + i));
        }
        proof {
            lemma_line_start_ge(text, 2 + i as int);
        }
        let e = find_eol(input, pos, n);
        let line_str = input.substring_char(pos, e);
        proof {
            assert(line_str@ =~= line_at(text, 2 + i as int));
        }
        let parsed = match parse_atom_line(line_str) {
            Ok(p) => p,
            Err(err) => {
                return Err(ReadError::LineError(3 + i));
            },
        };
        let ghost rs_before = residues.deep_view();
        let ghost atoms_before = atoms@;
        let pr = match get_or_insert_atom_and_residue(
            parsed.residue_name.as_str(),
            parsed.atom_name.as_str(),
            &mut residues,
        ) {
            Ok(p) => p,
            Err(err) => {
                proof {
                    assert(false);
                }
                return Err(ReadError::LineError(3 + i));
            },
        };
        proof {
            lemma_intern_pair_extends(rs_before, parsed.residue_name@, parsed.atom_name@);
        }
        let atom = Atom {
            name: pr.1,
            residue: pr.0,
            position: parsed.position,
            velocity: parsed.velocity,
        };
        atoms.push(atom);
        proof {
            let rs_after = residues.deep_view();
            let trip = intern_pair(rs_before, parsed.residue_name@, parsed.atom_name@);
            assert(atoms@ =~= atoms_before.push(atom));
            assert(read_records(text, i as int, num as int, rs_before, atoms_before)
                == read_records(text, i + 1, num as int, rs_after, atoms@));
            assert forall|q: int| 0 <= q < atoms@.len() implies crate::conf::atom_wf(
                #[trigger] atoms@[q],
                rs_after,
            ) by {
                if q < atoms@.len() - 1 {
                    assert(atoms@[q] == atoms_before[q]);
                    assert(crate::conf::atom_wf(atoms_before[q], rs_before));
                } else {
                    assert(atoms@[q] == atom);
                }
            }
        }
        if e == n {
            pos = n;
            past = true;
        } else {
            pos = e + 1;
            past = false;
        }
        proof {
            assert(line_start(text, 2 + i + 1) == e + 1);
        }
        i = i + 1;
    }
    if past {
        proof {
            assert(line_at(text, 2 + num as int) =~= Seq::<char>::empty());
            assert(from_whitespace_spec(Seq::<char>::empty()) == Err::<RVec, ParseRVecError>(
                ParseRVecError::MissingValues,
            ));
        }
        return Err(ReadError::NoBoxSize(3 + num));
    }
    proof {
        lemma_line_start_ge(text, 2 + num as int);
    }
    let e = find_eol(input, pos, n);
    let box_str = input.substring_char(pos, e);
    proof {
        assert(box_str@ =~= line_at(text, 2 + num as int));
    }
    let size = match RVec::from_whitespace(box_str) {
        Ok(v) => v,
        Err(ParseRVecError::MissingValues) => {
            return Err(ReadError::NoBoxSize(3 + num));
        },
        Err(ParseRVecError::ParseFloatError) => {
            return Err(ReadError::BoxSizeError(3 + num));
        },
    };
    let c = Conf { title, origin: RVec { x: 0, y: 0, z: 0 }, size, residues, atoms };
    Ok(c)
}

} // verus!

verus! {

/// The text of one atom record line: wrapped residue ordinal (5, right),
/// residue name (5, left), atom name (5, right), wrapped atom ordinal
/// (5, right), three 8.3 position fields, three 8.4 velocity fields if a
/// velocity is present, and a newline.
pub open spec fn atom_line_spec(c: ConfView, a: Atom, res_ord: int, atom_ord: int) -> Seq<char> {
    atom_head_spec(c, a, res_ord, atom_ord) + pos_fields_spec(a.position) + vel_fields_spec(
        a.velocity,
    ) + seq!['\n']
}

/// The ordinal and name fields of one record line.
pub open spec fn atom_head_spec(c: ConfView, a: Atom, res_ord: int, atom_ord: int) -> Seq<char> {
    spec_pad_left(spec_digits(res_ord), 5) + spec_pad_right(c.residues[a.residue as int].name, 5)
        + spec_pad_left(c.residues[a.name.residue as int].slots[a.name.slot as int], 5)
        + spec_pad_left(spec_digits(atom_ord), 5)
}

/// The three 8.3 position fields.
pub open spec fn pos_fields_spec(p: RVec) -> Seq<char> {
    fmt_fixed_spec(p.x as int, 3, 8) + fmt_fixed_spec(p.y as int, 3, 8) + fmt_fixed_spec(
        p.z as int,
        3,
        8,
    )
}

/// The three 8.4 velocity fields, or nothing.
pub open spec fn vel_fields_spec(v: Option<RVec>) -> Seq<char> {
    match v {
        Some(v) => fmt_fixed_spec(v.x as int, 4, 8) + fmt_fixed_spec(v.y as int, 4, 8)
            + fmt_fixed_spec(v.z as int, 4, 8),
        None => Seq::<char>::empty(),
    }
}

/// The record lines of the given atoms, numbered onward from `done`
/// already-written atoms, all under residue ordinal `res_ord`.
pub open spec fn lines_of_atoms(c: ConfView, atoms: Seq<Atom>, res_ord: int, done: int) -> Seq<
    char,
>
    decreases atoms.len(),
{
    if atoms.len() == 0 {
        Seq::empty()
    } else {
        atom_line_spec(c, atoms[0], res_ord, (done + 1) % 100000) + lines_of_atoms(
            c,
            atoms.skip(1),
            res_ord,
            done + 1,
        )
    }
}

/// The lines of one residue group of `cnt` atoms starting at `i`, with
/// `done` atoms already written before it.
pub open spec fn group_lines(c: ConfView, i: int, cnt: int, res_ord: int, done: int) -> Seq<char> {
    lines_of_atoms(c, c.atoms.subrange(i, i + cnt), res_ord, done)
}

/// The lines of the residue groups from span `k` on.
pub open spec fn span_lines(c: ConfView, spans: Seq<(int, int, bool)>, k: int, done: int) -> Seq<
    char,
>
    decreases spans.len() - k,
{
    if k < 0 || k >= spans.len() {
        Seq::empty()
    } else {
        group_lines(c, spans[k].0, spans[k].1, (k + 1) % 100000, done) + span_lines(
            c,
            spans,
            k + 1,
            done + spans[k].1,
        )
    }
}

/// Index of the first failed span at or after `k`, or the span count.
pub open spec fn first_bad_span(spans: Seq<(int, int, bool)>, k: int) -> int
    decreases spans.len() - k,
{
    if k < 0 || k >= spans.len() {
        spans.len() as int
    } else if !spans[k].2 {
        k
    } else {
        first_bad_span(spans, k + 1)
    }
}

/// The box-size line: three 12.5 fields, each preceded by one space.
pub open spec fn box_line_spec(size: RVec) -> Seq<char> {
    seq![' '] + fmt_fixed_spec(size.x as int, 5, 12) + seq![' '] + fmt_fixed_spec(
        size.y as int,
        5,
        12,
    ) + seq![' '] + fmt_fixed_spec(size.z as int, 5, 12) + seq!['\n']
}

/// What encoding yields: the title line, the atom count, the regrouped
/// atom records with ordinals wrapped at 100000, and the box line; or
/// the 1-based ordinal of the first residue group that is not well
/// formed, at which the write is abandoned whole.
pub open spec fn encode_spec(c: ConfView) -> Result<Seq<char>, WriteError> {
    let spans = group_spans(c.atoms, c.residues, 0);
    let fb = first_bad_span(spans, 0);
    if fb < spans.len() {
        Err(WriteError::BadResidue((fb + 1) as usize))
    } else {
        Ok(
            c.title + seq!['\n'] + spec_digits(c.atoms.len() as int) + seq!['\n'] + span_lines(
                c,
                spans,
                0,
                0,
            ) + box_line_spec(c.size),
        )
    }
}

/// Stepping a wrapped five-digit ordinal.
proof fn lemma_wrap_step(k: int)
    requires
        k >= 0,
    ensures
        (k + 1) % 100000 == if k % 100000 == 99999 {
            0int
        } else {
            k % 100000 + 1
        },
        0 <= k % 100000 < 100000,
{
    let m = 100000int;
    vstd::arithmetic::div_mod::lemma_fundamental_div_mod(k, m);
    vstd::arithmetic::div_mod::lemma_mod_bound(k, m);
    if k % m == m - 1 {
        vstd::arithmetic::div_mod::lemma_fundamental_div_mod_converse(k + 1, m, k / m + 1, 0);
    } else {
        vstd::arithmetic::div_mod::lemma_fundamental_div_mod_converse(k + 1, m, k / m, k % m + 1);
    }
}

/// Append the ordinal and name fields of one record line.
fn push_atom_head(out: &mut String, conf: &Conf, a: Atom, res_ord: usize, atom_ord: usize)
    requires
        a.residue < conf.residues@.len(),
        a.name.residue < conf.residues@.len(),
        a.name.slot < conf.residues@[a.name.residue as int].atoms@.len(),
    ensures
        final(out)@ == old(out)@ + atom_head_spec(conf@, a, res_ord as int, atom_ord as int),
{
    let rw = pad_left_str(u64_digits(res_ord as u64), 5);
    out.append(rw.as_str());
    let rname = pad_right_str(conf.residues[a.residue].name.clone(), 5);
    out.append(rname.as_str());
    let aname = pad_left_str(conf.residues[a.name.residue].atoms[a.name.slot].clone(), 5);
    out.append(aname.as_str());
    let ow = pad_left_str(u64_digits(atom_ord as u64), 5);
    out.append(ow.as_str());
    proof {
        assert(conf@.residues[a.residue as int].name == conf.residues@[a.residue as int].name@);
        assert(conf@.residues[a.name.residue as int].slots[a.name.slot as int]
            == conf.residues@[a.name.residue as int].atoms@[a.name.slot as int]@);
        assert(out@ =~= old(out)@ + atom_head_spec(conf@, a, res_ord as int, atom_ord as int));
    }
}

/// Append the three position fields of one record line.
fn push_pos_fields(out: &mut String, p: RVec)
    ensures
        final(out)@ == old(out)@ + pos_fields_spec(p),
{
    let px = fmt_fixed(p.x, 3, 8);
    out.append(px.as_str());
    let py = fmt_fixed(p.y, 3, 8);
    out.append(py.as_str());
    let pz = fmt_fixed(p.z, 3, 8);
    out.append(pz.as_str());
    proof {
        assert(out@ =~= old(out)@ + pos_fields_spec(p));
    }
}

/// Append the velocity fields of one record line, if any.
fn push_vel_fields(out: &mut String, v: Option<RVec>)
    ensures
        final(out)@ == old(out)@ + vel_fields_spec(v),
{
    match v {
        Some(v) => {
            let vx = fmt_fixed(v.x, 4, 8);
            out.append(vx.as_str());
            let vy = fmt_fixed(v.y, 4, 8);
            out.append(vy.as_str());
            let vz = fmt_fixed(v.z, 4, 8);
            out.append(vz.as_str());
            proof {
                assert(out@ =~= old(out)@ + vel_fields_spec(Some(v)));
            }
        },
        None => {
            proof {
                assert(out@ =~= old(out)@ + vel_fields_spec(v));
            }
        },
    }
}

/// Append one whole atom record line.
fn push_atom_line(out: &mut String, conf: &Conf, a: Atom, res_ord: usize, atom_ord: usize)
    requires
        a.residue < conf.residues@.len(),
        a.name.residue < conf.residues@.len(),
        a.name.slot < conf.residues@[a.name.residue as int].atoms@.len(),
    ensures
        final(out)@ == old(out)@ + atom_line_spec(conf@, a, res_ord as int, atom_ord as int),
{
    push_atom_head(out, conf, a, res_ord, atom_ord);
    push_pos_fields(out, a.position);
    push_vel_fields(out, a.velocity);
    proof {
        reveal_strlit("\n");
    }
    out.append("\n");
    proof {
        assert(out@ =~= old(out)@ + atom_line_spec(conf@, a, res_ord as int, atom_ord as int));
    }
}

/// Append the record lines of one residue group; returns the wrapped
/// atom ordinal after the group.
#[verifier::loop_isolation(false)]
#[verifier::rlimit(100)]
fn push_group(
    out: &mut String,
    conf: &Conf,
    group: &Vec<Atom>,
    res_w: usize,
    aw0: usize,
    done: Ghost<int>,
) -> (aw: usize)
    requires
        forall|g: int|
            0 <= g < group@.len() ==> crate::conf::atom_wf(#[trigger] group@[g], conf@.residues),
        done@ >= 0,
        aw0 == done@ % 100000,
    ensures
        final(out)@ == old(out)@ + lines_of_atoms(conf@, group@, res_w as int, done@),
        aw == (done@ + group@.len()) % 100000,
{
    let ghost c = conf@;
    let n = group.len();
    let mut aw = aw0;
    let mut g: usize = 0;
    proof {
        assert(group@.skip(0) =~= group@);
    }
    while g < n
        invariant
            g <= n,
            aw == (done@ + g) % 100000,
            out@ + lines_of_atoms(c, group@.skip(g as int), res_w as int, done@ + g) == old(
                out,
            )@ + lines_of_atoms(c, group@, res_w as int, done@),
        decreases n - g,
    {
        let a = group[g];
        proof {
            lemma_wrap_step(done@ + g);
        }
        aw = if aw >= 99999 {
            0
        } else {
            aw + 1
        };
        let ghost out_pre = out@;
        push_atom_line(out, conf, a, res_w, aw);
        proof {
            let rest = group@.skip(g as int);
            assert(rest[0] == group@[g as int]);
            assert(rest.skip(1) =~= group@.skip(g + 1));
            let line = atom_line_spec(c, a, res_w as int, (done@ + g + 1) % 100000);
            assert(lines_of_atoms(c, rest, res_w as int, done@ + g) == line + lines_of_atoms(
                c,
                group@.skip(g + 1),
                res_w as int,
                done@ + g + 1,
            ));
            vstd::seq_lib::lemma_concat_associative(
                out_pre,
                line,
                lines_of_atoms(c, group@.skip(g + 1), res_w as int, done@ + g + 1),
            );
        }
        g = g + 1;
    }
    proof {
        assert(group@.skip(n as int) =~= Seq::<Atom>::empty());
    }
    aw
}

/// Serialise the configuration to GROMOS87 text, regrouping the atoms by
/// residue; a grouping failure at any residue abandons the whole write.
#[verifier::loop_isolation(false)]
#[verifier::rlimit(100)]
pub fn write_gromos87_conf(conf: &Conf) -> (r: Result<String, WriteError>)
    requires
        conf_wf(conf@),
    ensures
        match r {
            Ok(s) => encode_spec(conf@) == Ok::<Seq<char>, WriteError>(s@),
            Err(e) => encode_spec(conf@) == Err::<Seq<char>, WriteError>(e),
        },
{
    let ghost c = conf@;
    let ghost spans = group_spans(c.atoms, c.residues, 0);
    let total = conf.atoms.len();
    let mut out = String::new();
    out.append(conf.title.as_str());
    proof {
        reveal_strlit("\n");
    }
    out.append("\n");
    let count_str = u64_digits(total as u64);
    out.append(count_str.as_str());
    out.append("\n");
    let ghost head = c.title + seq!['\n'] + spec_digits(c.atoms.len() as int) + seq!['\n'];
    proof {
        assert(out@ =~= head);
    }
    let mut it = conf.iter_residues();
    let ghost mut k: int = 0;
    let mut kx: usize = 0;
    let mut res_w: usize = 0;
    let mut atom_w: usize = 0;
    proof {
        assert(spans.skip(0) =~= spans);
        crate::conf::lemma_grouping_partitions(c.atoms, c.residues, 0);
    }
    while it.index < total
        invariant
            it.atoms@ == c.atoms,
            it.residues.deep_view() == c.residues,
            it.index <= total == c.atoms.len(),
            0 <= k <= spans.len(),
            kx == k,
            group_spans(c.atoms, c.residues, it.index as int) == spans.skip(k),
            first_bad_span(spans, 0) == first_bad_span(spans, k),
            res_w == k % 100000,
            atom_w == (it.index as int) % 100000,
            head + span_lines(c, spans, 0, 0) == out@ + span_lines(c, spans, k, it.index as int),
            spans.len() <= c.atoms.len(),
        decreases total - it.index,
    {
        let ghost idx = it.index as int;
        proof {
            assert(spans.skip(k).len() > 0) by {
                assert(group_spans(c.atoms, c.residues, idx).len() > 0);
            }
            assert(spans[k] == spans.skip(k)[0]);
            assert(spans[k] == (idx, step_consumed(c.atoms, c.residues, idx), step_ok(
                c.atoms,
                c.residues,
                idx,
            )));
            crate::conf::lemma_step_consumed_bounds(c.atoms, c.residues, idx);
            lemma_wrap_step(k);
        }
        let r = it.next();
        match r {
            None => {
                proof {
                    assert(false);
                }
            },
            Some(Err(err)) => {
                proof {
                    assert(!spans[k].2);
                    assert(first_bad_span(spans, k) == k);
                }
                return Err(WriteError::BadResidue(kx + 1));
            },
            Some(Ok(group)) => {
                res_w = if res_w >= 99999 {
                    0
                } else {
                    res_w + 1
                };
                let ghost cnt = spans[k].1;
                let ghost out0 = out@;
                proof {
                    assert(group@ == c.atoms.subrange(idx, idx + cnt));
                    assert(span_lines(c, spans, k, idx) == group_lines(
                        c,
                        idx,
                        cnt,
                        (k + 1) % 100000,
                        idx,
                    ) + span_lines(c, spans, k + 1, idx + cnt));
                    assert forall|g: int| 0 <= g < group@.len() implies crate::conf::atom_wf(
                        #[trigger] group@[g],
                        conf@.residues,
                    ) by {
                        assert(group@[g] == c.atoms[idx + g]);
                    }
                }
                atom_w = push_group(&mut out, conf, &group, res_w, atom_w, Ghost(idx));
                proof {
                    assert(spans.skip(k).skip(1) =~= spans.skip(k + 1));
                    vstd::seq_lib::lemma_concat_associative(
                        out0,
                        lines_of_atoms(c, group@, res_w as int, idx),
                        span_lines(c, spans, k + 1, idx + cnt),
                    );
                }
                kx = kx + 1;
                proof {
                    k = k + 1;
                }
            },
        }
    }
    proof {
        assert(group_spans(c.atoms, c.residues, it.index as int) =~= Seq::<
            (int, int, bool),
        >::empty());
        assert(k == spans.len());
        assert(first_bad_span(spans, k) == spans.len());
        assert(span_lines(c, spans, k, it.index as int) =~= Seq::<char>::empty());
        assert(out@ =~= head + span_lines(c, spans, 0, 0));
    }
    let ghost mid = out@;
    proof {
        reveal_strlit(" ");
        reveal_strlit("\n");
    }
    out.append(" ");
    let bx = fmt_fixed(conf.size.x, 5, 12);
    out.append(bx.as_str());
    out.append(" ");
    let by = fmt_fixed(conf.size.y, 5, 12);
    out.append(by.as_str());
    out.append(" ");
    let bz = fmt_fixed(conf.size.z, 5, 12);
    out.append(bz.as_str());
    out.append("\n");
    proof {
        assert(out@ =~= mid + box_line_spec(c.size));
    }
    Ok(out)
}

} // verus!

verus! {

/// A name text that fits its five-character column: at most five
/// characters, none of them a newline.
pub open spec fn name_fits(s: Seq<char>) -> bool {
    s.len() <= 5 && (forall|i: int| 0 <= i < s.len() ==> (#[trigger] s[i]) != '\n')
}

/// A coordinate whose rendering at `d` decimals fits its eight-character
/// column.
pub open spec fn coord_fits(v: int, d: int) -> bool {
    -1000000 < crate::fixed::round_away(v, crate::fixed::pow10(5 - d)) < 10000000
}

/// `v` rounded to `d` decimal places, in fixed-point units.
pub open spec fn rounded_coord(v: int, d: int) -> int {
    crate::fixed::round_away(v, crate::fixed::pow10(5 - d)) * crate::fixed::pow10(5 - d)
}

/// A vector rounded component-wise to `d` decimal places.
pub open spec fn rounded_vec(p: RVec, d: int) -> RVec {
    RVec {
        x: rounded_coord(p.x as int, d) as i64,
        y: rounded_coord(p.y as int, d) as i64,
        z: rounded_coord(p.z as int, d) as i64,
    }
}

/// An atom whose record line survives the round trip: valid handles,
/// names that fit their columns, coordinates that fit their fields.
pub open spec fn atom_fits(c: ConfView, a: Atom) -> bool {
    &&& crate::conf::atom_wf(a, c.residues)
    &&& name_fits(c.residues[a.residue as int].name)
    &&& name_fits(c.residues[a.name.residue as int].slots[a.name.slot as int])
    &&& coord_fits(a.position.x as int, 3)
    &&& coord_fits(a.position.y as int, 3)
    &&& coord_fits(a.position.z as int, 3)
    &&& match a.velocity {
        Some(v) => coord_fits(v.x as int, 4) && coord_fits(v.y as int, 4) && coord_fits(
            v.z as int,
            4,
        ),
        None => true,
    }
}

/// One record's round trip: parsing the line that the encoder emits for
/// an atom gives back its names (trimmed) and its position to three
/// decimal places, and its velocity to four.
#[verifier::rlimit(100)]
pub proof fn lemma_atom_line_round_trip(c: ConfView, a: Atom, res_ord: int, atom_ord: int)
    requires
        atom_fits(c, a),
        0 <= res_ord < 100000,
        0 <= atom_ord < 100000,
    ensures
        ({
            let body = atom_head_spec(c, a, res_ord, atom_ord) + pos_fields_spec(a.position)
                + vel_fields_spec(a.velocity);
            &&& parse_atom_line_spec(body) == Some(
                LineView {
                    residue_name: trim_spec(c.residues[a.residue as int].name),
                    atom_name: trim_spec(
                        c.residues[a.name.residue as int].slots[a.name.slot as int],
                    ),
                    position: rounded_vec(a.position, 3),
                    velocity: match a.velocity {
                        Some(v) => Some(rounded_vec(v, 4)),
                        None => None::<RVec>,
                    },
                },
            )
            &&& forall|i: int| 0 <= i < body.len() ==> (#[trigger] body[i]) != '\n'
            &&& atom_line_spec(c, a, res_ord, atom_ord) == body + seq!['\n']
            &&& body.len() >= 44
        }),
{
    let rn = c.residues[a.residue as int].name;
    let an = c.residues[a.name.residue as int].slots[a.name.slot as int];
    let f_ro = spec_pad_left(spec_digits(res_ord), 5);
    let f_rn = spec_pad_right(rn, 5);
    let f_an = spec_pad_left(an, 5);
    let f_ao = spec_pad_left(spec_digits(atom_ord), 5);
    let head = atom_head_spec(c, a, res_ord, atom_ord);
    let pos = pos_fields_spec(a.position);
    let vel = vel_fields_spec(a.velocity);
    let body = head + pos + vel;
    assert(crate::fixed::pow10(5) == 100000) by {
        reveal_with_fuel(crate::fixed::pow10, 6);
    }
    proof_digits_field_len(res_ord);
    proof_digits_field_len(atom_ord);
    crate::fixed::lemma_spec_spaces_props(5 - rn.len());
    crate::fixed::lemma_spec_spaces_props(5 - an.len());
    assert(f_rn.len() == 5);
    assert(f_an.len() == 5);
    assert(head.len() == 20);
    crate::fixed::lemma_fmt_fixed_width(a.position.x as int, 3);
    crate::fixed::lemma_fmt_fixed_width(a.position.y as int, 3);
    crate::fixed::lemma_fmt_fixed_width(a.position.z as int, 3);
    lemma_coord_parses(a.position.x as int, 3);
    lemma_coord_parses(a.position.y as int, 3);
    lemma_coord_parses(a.position.z as int, 3);
    assert(pos.len() == 24);
    match a.velocity {
        Some(v) => {
            crate::fixed::lemma_fmt_fixed_width(v.x as int, 4);
            crate::fixed::lemma_fmt_fixed_width(v.y as int, 4);
            crate::fixed::lemma_fmt_fixed_width(v.z as int, 4);
            lemma_coord_parses(v.x as int, 4);
            lemma_coord_parses(v.y as int, 4);
            lemma_coord_parses(v.z as int, 4);
            assert(vel.len() == 24);
        },
        None => {
            assert(vel.len() == 0);
        },
    }
    // names come back trimmed
    assert(body.subrange(5, 10) =~= f_rn);
    assert(body.subrange(10, 15) =~= f_an);
    assert(f_rn =~= rn + crate::fixed::spec_spaces(5 - rn.len()));
    assert(f_an =~= crate::fixed::spec_spaces(5 - an.len()) + an);
    crate::text::lemma_trim_append_ws(rn, crate::fixed::spec_spaces(5 - rn.len()));
    crate::text::lemma_trim_prepend_ws(crate::fixed::spec_spaces(5 - an.len()), an);
    // the position region parses
    let region = body.skip(20);
    assert(region =~= pos + vel);
    let fx = fmt_fixed_spec(a.position.x as int, 3, 8);
    let fy = fmt_fixed_spec(a.position.y as int, 3, 8);
    let fz = fmt_fixed_spec(a.position.z as int, 3, 8);
    crate::fixed::lemma_fmt_fixed_token(a.position.x as int, 3, 8);
    let ax = crate::text::first_non_ws(fx, 0);
    assert(region[ax] == fx[ax]);
    assert(!is_ws_char(region[ax]));
    assert(trim_spec(region).len() > 0) by {
        lemma_trim_empty_iff(region);
        if first_non_ws(region, 0) == region.len() {
            crate::text::lemma_first_non_ws_bounds(region, 0);
        }
    }
    assert(region.subrange(0, 8) =~= fx);
    assert(region.subrange(8, 16) =~= fy);
    assert(region.subrange(16, 24) =~= fz);
    assert(from_fixed_spec(region, 8) == Ok::<RVec, ParseRVecError>(rounded_vec(a.position, 3)));
    // the velocity region is blank or parses
    let vregion = body.skip(44);
    match a.velocity {
        Some(v) => {
            assert(vregion =~= vel);
            let gx = fmt_fixed_spec(v.x as int, 4, 8);
            crate::fixed::lemma_fmt_fixed_token(v.x as int, 4, 8);
            let bx = crate::text::first_non_ws(gx, 0);
            assert(vregion[bx] == gx[bx]);
            assert(!is_ws_char(vregion[bx]));
            assert(trim_spec(vregion).len() > 0) by {
                lemma_trim_empty_iff(vregion);
                if first_non_ws(vregion, 0) == vregion.len() {
                    crate::text::lemma_first_non_ws_bounds(vregion, 0);
                }
            }
            assert(vregion.subrange(0, 8) =~= gx);
            assert(vregion.subrange(8, 16) =~= fmt_fixed_spec(v.y as int, 4, 8));
            assert(vregion.subrange(16, 24) =~= fmt_fixed_spec(v.z as int, 4, 8));
            assert(from_fixed_spec(vregion, 8) == Ok::<RVec, ParseRVecError>(rounded_vec(v, 4)));
        },
        None => {
            assert(vregion =~= Seq::<char>::empty());
            assert(trim_spec(vregion).len() == 0);
        },
    }
    assert(atom_line_spec(c, a, res_ord, atom_ord) =~= body + seq!['\n']);
}

/// A five-digit ordinal padded left fills exactly five columns.
proof fn proof_digits_field_len(n: int)
    requires
        0 <= n < 100000,
    ensures
        spec_pad_left(spec_digits(n), 5).len() == 5,
        forall|i: int|
            0 <= i < spec_pad_left(spec_digits(n), 5).len() ==> (#[trigger] spec_pad_left(
                spec_digits(n),
                5,
            )[i]) != '\n',
{
    assert(crate::fixed::pow10(5) == 100000) by {
        reveal_with_fuel(crate::fixed::pow10, 6);
    }
    crate::fixed::lemma_spec_digits_props(n);
    crate::fixed::lemma_spec_digits_len_le(n, 5);
    crate::fixed::lemma_spec_spaces_props(5 - spec_digits(n).len());
    crate::fixed::lemma_digit_chars_plain(spec_digits(n));
}

/// A coordinate field both fits in range and parses back to the rounded
/// value.
proof fn lemma_coord_parses(v: int, d: int)
    requires
        1 <= d <= 5,
        coord_fits(v, d),
    ensures
        parse_fixed_num(fmt_fixed_spec(v, d, 8)) == Some(rounded_coord(v, d)),
        forall|i: int|
            0 <= i < fmt_fixed_spec(v, d, 8).len() ==> (#[trigger] fmt_fixed_spec(v, d, 8)[i])
                != '\n',
        -crate::fixed::FIXED_LIMIT <= rounded_coord(v, d) <= crate::fixed::FIXED_LIMIT,
        crate::fixed::abs_val(crate::fixed::round_away(v, crate::fixed::pow10(5 - d)))
            * crate::fixed::pow10(5 - d) <= crate::fixed::FIXED_LIMIT,
{
    let p = crate::fixed::pow10(d);
    let q = crate::fixed::round_away(v, crate::fixed::pow10(5 - d));
    assert(crate::fixed::pow10(5 - d) <= 10000) by {
        crate::fixed::lemma_pow10_mono(5 - d, 4);
        reveal_with_fuel(crate::fixed::pow10, 5);
    }
    crate::fixed::lemma_pow10_pos(5 - d);
    assert(crate::fixed::abs_val(q) * crate::fixed::pow10(5 - d) <= crate::fixed::FIXED_LIMIT)
        by (nonlinear_arith)
        requires
            -10000000 < q < 10000000,
            1 <= crate::fixed::pow10(5 - d) <= 10000,
    {
    }
    crate::fixed::lemma_fmt_fixed_parses(v, d, 8);
    assert(rounded_coord(v, d) <= crate::fixed::FIXED_LIMIT && -crate::fixed::FIXED_LIMIT
        <= rounded_coord(v, d)) by (nonlinear_arith)
        requires
            -10000000 < q < 10000000,
            1 <= crate::fixed::pow10(5 - d) <= 10000,
            rounded_coord(v, d) == q * crate::fixed::pow10(5 - d),
    {
    }
}

} // verus!

verus! {

/// The box line's round trip: the three fields written at five decimals
/// (the full precision of the coordinate type) parse back exactly.
#[verifier::rlimit(100)]
pub proof fn lemma_box_line_round_trip(size: RVec)
    requires
        -crate::fixed::FIXED_LIMIT <= size.x <= crate::fixed::FIXED_LIMIT,
        -crate::fixed::FIXED_LIMIT <= size.y <= crate::fixed::FIXED_LIMIT,
        -crate::fixed::FIXED_LIMIT <= size.z <= crate::fixed::FIXED_LIMIT,
    ensures
        ({
            let body = seq![' '] + fmt_fixed_spec(size.x as int, 5, 12) + seq![' ']
                + fmt_fixed_spec(size.y as int, 5, 12) + seq![' '] + fmt_fixed_spec(
                size.z as int,
                5,
                12,
            );
            &&& from_whitespace_spec(body) == Ok::<RVec, ParseRVecError>(size)
            &&& forall|i: int| 0 <= i < body.len() ==> (#[trigger] body[i]) != '\n'
            &&& box_line_spec(size) == body + seq!['\n']
        }),
{
    let f1 = fmt_fixed_spec(size.x as int, 5, 12);
    let f2 = fmt_fixed_spec(size.y as int, 5, 12);
    let f3 = fmt_fixed_spec(size.z as int, 5, 12);
    lemma_exact_round(size.x as int);
    lemma_exact_round(size.y as int);
    lemma_exact_round(size.z as int);
    crate::fixed::lemma_fmt_fixed_token(size.x as int, 5, 12);
    crate::fixed::lemma_fmt_fixed_token(size.y as int, 5, 12);
    crate::fixed::lemma_fmt_fixed_token(size.z as int, 5, 12);
    crate::fixed::lemma_fmt_fixed_parses(size.x as int, 5, 12);
    crate::fixed::lemma_fmt_fixed_parses(size.y as int, 5, 12);
    crate::fixed::lemma_fmt_fixed_parses(size.z as int, 5, 12);
    let a1 = first_non_ws(f1, 0);
    let a2 = first_non_ws(f2, 0);
    let a3 = first_non_ws(f3, 0);
    let body = seq![' '] + f1 + seq![' '] + f2 + seq![' '] + f3;
    let o1 = 1int;
    let o2 = o1 + f1.len() + 1;
    let o3 = o2 + f2.len() + 1;
    let m1 = o1 + a1;
    let e1 = o1 + f1.len();
    let m2 = o2 + a2;
    let e2 = o2 + f2.len();
    let m3 = o3 + a3;
    let e3 = o3 + f3.len();
    assert(forall|j: int| o1 <= j < e1 ==> (#[trigger] body[j]) == f1[j - o1]);
    assert(forall|j: int| o2 <= j < e2 ==> (#[trigger] body[j]) == f2[j - o2]);
    assert(forall|j: int| o3 <= j < e3 ==> (#[trigger] body[j]) == f3[j - o3]);
    assert(body[0] == ' ' && body[e1] == ' ' && body[e2] == ' ');
    // token 0
    crate::text::lemma_first_non_ws_is(body, 0, m1);
    crate::text::lemma_ws_after_is(body, m1, e1);
    assert(token_start(body, 0) == m1);
    assert(token_at(body, 0) =~= f1.subrange(a1, f1.len() as int));
    // token 1
    crate::text::lemma_first_non_ws_is(body, e1, m2);
    crate::text::lemma_ws_after_is(body, m2, e2);
    assert(token_start(body, 1) == m2);
    assert(token_at(body, 1) =~= f2.subrange(a2, f2.len() as int));
    // token 2
    crate::text::lemma_first_non_ws_is(body, e2, m3);
    crate::text::lemma_ws_after_is(body, m3, e3);
    assert(token_start(body, 2) == m3);
    assert(token_at(body, 2) =~= f3.subrange(a3, f3.len() as int));
    assert(box_line_spec(size) =~= body + seq!['\n']);
    assert(forall|i: int| 0 <= i < body.len() ==> (#[trigger] body[i]) != '\n');
}

/// At five decimals nothing is rounded away: the rounded value is the
/// value itself.
proof fn lemma_exact_round(v: int)
    ensures
        crate::fixed::round_away(v, crate::fixed::pow10(0)) == v,
        crate::fixed::round_away(v, crate::fixed::pow10(0)) * crate::fixed::pow10(0) == v,
        crate::fixed::abs_val(v) * crate::fixed::pow10(0) == crate::fixed::abs_val(v),
{
    assert(crate::fixed::pow10(0) == 1);
    assert(v / 1 == v) by {
        vstd::arithmetic::div_mod::lemma_fundamental_div_mod_converse(v, 1, v, 0);
    }
    assert((-v) / 1 == -v) by {
        vstd::arithmetic::div_mod::lemma_fundamental_div_mod_converse(-v, 1, -v, 0);
    }
}

/// A truncated stream never decodes: when the atom-count line names `n`
/// atoms but the text ends before the line that should follow the last
/// record (so a record line or the box-size line is absent), decoding
/// fails; there is no partial configuration.
pub proof fn lemma_truncated_input_fails(text: Seq<char>, n: int)
    requires
        count_val(line_at(text, 1)) == Some(n),
        line_start(text, 2 + n) > text.len(),
    ensures
        decode_spec(text) is Err,
{
    if read_records(text, 0, n, Seq::empty(), Seq::empty()) is Ok {
        assert(line_at(text, 2 + n) =~= Seq::<char>::empty());
        assert(from_whitespace_spec(Seq::<char>::empty()) == Err::<RVec, ParseRVecError>(
            ParseRVecError::MissingValues,
        ));
    }
}

} // verus!

verus! {

/// What decoding gives back for the record of atom `m`: trimmed names,
/// the position rounded to three decimals, the velocity to four.
pub open spec fn record_view(c: ConfView, m: int) -> LineView {
    let a = c.atoms[m];
    LineView {
        residue_name: trim_spec(c.residues[a.residue as int].name),
        atom_name: trim_spec(c.residues[a.name.residue as int].slots[a.name.slot as int]),
        position: rounded_vec(a.position, 3),
        velocity: match a.velocity {
            Some(v) => Some(rounded_vec(v, 4)),
            None => None::<RVec>,
        },
    }
}

/// `a` is what atom `m` becomes after one encode-decode round trip, as
/// far as coordinates go.
pub open spec fn atom_rounded_ok(c: ConfView, m: int, a: Atom) -> bool {
    &&& a.position == rounded_vec(c.atoms[m].position, 3)
    &&& match (a.velocity, c.atoms[m].velocity) {
        (Some(v), Some(w)) => v == rounded_vec(w, 4),
        (None, None) => true,
        _ => false,
    }
}

/// Line `2 + m` of `text` is present and parses to atom `m`'s record.
pub open spec fn record_line_ok(c: ConfView, text: Seq<char>, m: int) -> bool {
    &&& line_start(text, 2 + m) <= text.len()
    &&& parse_atom_line_spec(line_at(text, 2 + m)) == Some(record_view(c, m))
}

/// The digit string of the atom count parses back to the count.
proof fn lemma_count_of_digits(n: int)
    requires
        0 <= n <= usize::MAX,
    ensures
        count_val(spec_digits(n)) == Some(n),
{
    crate::fixed::lemma_spec_digits_props(n);
    crate::fixed::lemma_digit_chars_plain(spec_digits(n));
    let s = spec_digits(n);
    crate::text::lemma_first_non_ws_is(s, 0, 0);
    crate::text::lemma_last_non_ws_is(s, s.len() as int, s.len() as int);
    assert(trim_spec(s) =~= s);
    assert(s[0] != '+');
}

/// The body (without terminator) of the record line the encoder emits
/// for atom `m` under residue ordinal `ro`.
pub open spec fn body_of(c: ConfView, m: int, ro: int) -> Seq<char> {
    let a = c.atoms[m];
    atom_head_spec(c, a, ro, (m + 1) % 100000) + pos_fields_spec(a.position) + vel_fields_spec(
        a.velocity,
    )
}

/// The text of one group's record lines starting at atom `i`, followed by
/// `tail`.
pub open spec fn group_text(c: ConfView, i: int, cnt: int, ro: int, tail: Seq<char>) -> Seq<
    char,
> {
    lines_of_atoms(c, c.atoms.subrange(i, i + cnt), ro, i) + tail
}

/// The emitted line body of atom `m` carries no newline and parses back
/// to the atom's record.
#[verifier::rlimit(100)]
proof fn lemma_body_facts(c: ConfView, m: int, ro: int)
    requires
        0 <= m < c.atoms.len(),
        atom_fits(c, c.atoms[m]),
        0 <= ro < 100000,
    ensures
        forall|q: int| 0 <= q < body_of(c, m, ro).len() ==> (#[trigger] body_of(c, m, ro)[q])
            != '\n',
        parse_atom_line_spec(body_of(c, m, ro)) == Some(record_view(c, m)),
{
    lemma_wrap_step(m);
    lemma_atom_line_round_trip(c, c.atoms[m], ro, (m + 1) % 100000);
}

/// The emitted line body of atom `m` carries no newline.
#[verifier::rlimit(100)]
proof fn lemma_body_no_nl(c: ConfView, m: int, ro: int)
    requires
        0 <= m < c.atoms.len(),
        atom_fits(c, c.atoms[m]),
        0 <= ro < 100000,
    ensures
        forall|q: int| 0 <= q < body_of(c, m, ro).len() ==> (#[trigger] body_of(c, m, ro)[q])
            != '\n',
{
    lemma_wrap_step(m);
    lemma_atom_line_round_trip(c, c.atoms[m], ro, (m + 1) % 100000);
}

/// Peeling the first record off a group's text.
#[verifier::rlimit(100)]
proof fn lemma_peel_first(c: ConfView, i: int, cnt: int, ro: int, tail: Seq<char>)
    requires
        0 <= i,
        1 <= cnt,
        i + cnt <= c.atoms.len(),
    ensures
        group_text(c, i, cnt, ro, tail) == body_of(c, i, ro) + seq!['\n'] + group_text(
            c,
            i + 1,
            cnt - 1,
            ro,
            tail,
        ),
{
    let sub = c.atoms.subrange(i, i + cnt);
    let a = c.atoms[i];
    assert(sub[0] == a);
    let line0 = atom_line_spec(c, a, ro, (i + 1) % 100000);
    assert(line0 == body_of(c, i, ro) + seq!['\n']);
    assert(sub.skip(1) =~= c.atoms.subrange(i + 1, i + cnt));
    assert(lines_of_atoms(c, sub, ro, i) == line0 + lines_of_atoms(
        c,
        c.atoms.subrange(i + 1, i + cnt),
        ro,
        i + 1,
    ));
    vstd::seq_lib::lemma_concat_associative(
        line0,
        lines_of_atoms(c, c.atoms.subrange(i + 1, i + cnt), ro, i + 1),
        tail,
    );
}

/// Line `g` of a group's text is the record of atom `i + g`, parsed.
#[verifier::rlimit(100)]
proof fn lemma_group_line(c: ConfView, i: int, cnt: int, ro: int, tail: Seq<char>, g: int)
    requires
        0 <= i,
        i + cnt <= c.atoms.len(),
        forall|m: int| i <= m < i + cnt ==> atom_fits(c, #[trigger] c.atoms[m]),
        0 <= ro < 100000,
        0 <= g < cnt,
    ensures
        ({
            let t = group_text(c, i, cnt, ro, tail);
            &&& line_start(t, g) <= t.len()
            &&& parse_atom_line_spec(line_at(t, g)) == Some(record_view(c, i + g))
        }),
    decreases g,
{
    let t = group_text(c, i, cnt, ro, tail);
    lemma_peel_first(c, i, cnt, ro, tail);
    let body = body_of(c, i, ro);
    let rest = group_text(c, i + 1, cnt - 1, ro, tail);
    if g == 0 {
        lemma_body_facts(c, i, ro);
        crate::text::lemma_line_drop_at(body, rest, 0);
        assert(line_start(t, 0) == 0);
    } else {
        lemma_body_no_nl(c, i, ro);
        lemma_group_line(c, i + 1, cnt - 1, ro, tail, g - 1);
        crate::text::lemma_line_drop_at(body, rest, g);
        crate::text::lemma_line_drop_start(body, rest, g);
        crate::text::lemma_line_start_bounds(rest, g - 1);
        assert(line_at(t, g) == line_at(rest, g - 1));
    }
}

/// Line `cnt + m` of a group's text is line `m` of its tail.
#[verifier::rlimit(100)]
proof fn lemma_group_tail(c: ConfView, i: int, cnt: int, ro: int, tail: Seq<char>, m: int)
    requires
        0 <= i,
        cnt >= 0,
        i + cnt <= c.atoms.len(),
        forall|q: int| i <= q < i + cnt ==> atom_fits(c, #[trigger] c.atoms[q]),
        0 <= ro < 100000,
        m >= 0,
    ensures
        ({
            let t = group_text(c, i, cnt, ro, tail);
            &&& line_at(t, cnt + m) == line_at(tail, m)
            &&& line_start(t, cnt + m) == t.len() - tail.len() + line_start(tail, m)
        }),
    decreases cnt,
{
    let t = group_text(c, i, cnt, ro, tail);
    if cnt == 0 {
        let sub = c.atoms.subrange(i, i + cnt);
        assert(sub =~= Seq::<Atom>::empty());
        assert(lines_of_atoms(c, sub, ro, i) =~= Seq::<char>::empty());
        assert(t =~= tail);
        assert(t == tail);
    } else {
        lemma_peel_first(c, i, cnt, ro, tail);
        lemma_body_no_nl(c, i, ro);
        let body = body_of(c, i, ro);
        let rest = group_text(c, i + 1, cnt - 1, ro, tail);
        lemma_group_tail(c, i + 1, cnt - 1, ro, tail, m);
        crate::text::lemma_line_drop_at(body, rest, cnt + m);
        crate::text::lemma_line_drop_start(body, rest, cnt + m);
    }
}

} // verus!

verus! {

/// Line `j` of the encoded record region (all groups well formed,
/// followed by the box line) is the record of atom `done + j`, parsed.
#[verifier::rlimit(100)]
proof fn lemma_span_line(c: ConfView, spans: Seq<(int, int, bool)>, k: int, done: int, j: int)
    requires
        atoms_wf(c.atoms, c.residues),
        forall|m: int| 0 <= m < c.atoms.len() ==> atom_fits(c, #[trigger] c.atoms[m]),
        group_spans(c.atoms, c.residues, done) == spans.skip(k),
        first_bad_span(spans, k) == spans.len(),
        0 <= k <= spans.len(),
        0 <= done,
        0 <= j < c.atoms.len() - done,
    ensures
        ({
            let t = span_lines(c, spans, k, done) + box_line_spec(c.size);
            &&& line_start(t, j) <= t.len()
            &&& parse_atom_line_spec(line_at(t, j)) == Some(record_view(c, done + j))
        }),
    decreases spans.len() - k,
{
    let t = span_lines(c, spans, k, done) + box_line_spec(c.size);
    assert(done < c.atoms.len());
    assert(spans.skip(k).len() > 0) by {
        assert(group_spans(c.atoms, c.residues, done).len() > 0);
    }
    assert(k < spans.len());
    assert(spans[k] == spans.skip(k)[0]);
    assert(spans[k] == (done, step_consumed(c.atoms, c.residues, done), step_ok(
        c.atoms,
        c.residues,
        done,
    )));
    let cnt = spans[k].1;
    crate::conf::lemma_step_consumed_bounds(c.atoms, c.residues, done);
    lemma_wrap_step(k);
    let ro = (k + 1) % 100000;
    let tail2 = span_lines(c, spans, k + 1, done + cnt) + box_line_spec(c.size);
    vstd::seq_lib::lemma_concat_associative(
        group_lines(c, done, cnt, ro, done),
        span_lines(c, spans, k + 1, done + cnt),
        box_line_spec(c.size),
    );
    assert(t == group_text(c, done, cnt, ro, tail2));
    if j < cnt {
        lemma_group_line(c, done, cnt, ro, tail2, j);
    } else {
        assert(spans.skip(k).skip(1) =~= spans.skip(k + 1));
        assert(group_spans(c.atoms, c.residues, done + cnt) == spans.skip(k + 1));
        assert(first_bad_span(spans, k + 1) == spans.len());
        lemma_group_tail(c, done, cnt, ro, tail2, j - cnt);
        lemma_span_line(c, spans, k + 1, done + cnt, j - cnt);
    }
}

/// The line after the last record of the encoded record region is the box
/// line, which parses back to the box size.
#[verifier::rlimit(100)]
proof fn lemma_span_box(c: ConfView, spans: Seq<(int, int, bool)>, k: int, done: int)
    requires
        atoms_wf(c.atoms, c.residues),
        forall|m: int| 0 <= m < c.atoms.len() ==> atom_fits(c, #[trigger] c.atoms[m]),
        group_spans(c.atoms, c.residues, done) == spans.skip(k),
        first_bad_span(spans, k) == spans.len(),
        0 <= k <= spans.len(),
        0 <= done <= c.atoms.len(),
        -crate::fixed::FIXED_LIMIT <= c.size.x <= crate::fixed::FIXED_LIMIT,
        -crate::fixed::FIXED_LIMIT <= c.size.y <= crate::fixed::FIXED_LIMIT,
        -crate::fixed::FIXED_LIMIT <= c.size.z <= crate::fixed::FIXED_LIMIT,
    ensures
        ({
            let t = span_lines(c, spans, k, done) + box_line_spec(c.size);
            let n = c.atoms.len() - done;
            &&& line_start(t, n) <= t.len()
            &&& from_whitespace_spec(line_at(t, n)) == Ok::<RVec, ParseRVecError>(c.size)
        }),
    decreases spans.len() - k,
{
    let t = span_lines(c, spans, k, done) + box_line_spec(c.size);
    let n = c.atoms.len() - done;
    lemma_box_line_round_trip(c.size);
    let bbody = seq![' '] + fmt_fixed_spec(c.size.x as int, 5, 12) + seq![' ']
        + fmt_fixed_spec(c.size.y as int, 5, 12) + seq![' '] + fmt_fixed_spec(
        c.size.z as int,
        5,
        12,
    );
    if done == c.atoms.len() {
        assert(group_spans(c.atoms, c.residues, done) =~= Seq::<(int, int, bool)>::empty());
        assert(spans.skip(k).len() == 0);
        assert(k == spans.len());
        assert(span_lines(c, spans, k, done) =~= Seq::<char>::empty());
        assert(t =~= bbody + seq!['\n'] + Seq::<char>::empty());
        crate::text::lemma_line_drop_at(bbody, Seq::<char>::empty(), 0);
        assert(line_at(t, 0) == bbody);
        assert(line_start(t, 0) == 0);
    } else {
        assert(spans.skip(k).len() > 0) by {
            assert(group_spans(c.atoms, c.residues, done).len() > 0);
        }
        assert(k < spans.len());
        assert(spans[k] == spans.skip(k)[0]);
        assert(spans[k] == (done, step_consumed(c.atoms, c.residues, done), step_ok(
            c.atoms,
            c.residues,
            done,
        )));
        let cnt = spans[k].1;
        crate::conf::lemma_step_consumed_bounds(c.atoms, c.residues, done);
        lemma_wrap_step(k);
        let ro = (k + 1) % 100000;
        let tail2 = span_lines(c, spans, k + 1, done + cnt) + box_line_spec(c.size);
        vstd::seq_lib::lemma_concat_associative(
            group_lines(c, done, cnt, ro, done),
            span_lines(c, spans, k + 1, done + cnt),
            box_line_spec(c.size),
        );
        assert(t == group_text(c, done, cnt, ro, tail2));
        assert(spans.skip(k).skip(1) =~= spans.skip(k + 1));
        assert(group_spans(c.atoms, c.residues, done + cnt) == spans.skip(k + 1));
        assert(first_bad_span(spans, k + 1) == spans.len());
        lemma_group_tail(c, done, cnt, ro, tail2, n - cnt);
        lemma_span_box(c, spans, k + 1, done + cnt);
    }
}

} // verus!

verus! {

/// When every remaining record line is present and parses to its atom's
/// record, the decoding fold succeeds and appends one rounded atom per
/// record.
proof fn lemma_read_all(
    c: ConfView,
    text: Seq<char>,
    n: int,
    j: int,
    rs: Seq<ResidueView>,
    atoms_acc: Seq<Atom>,
)
    requires
        n == c.atoms.len(),
        0 <= j <= n,
        forall|m: int| j <= m < n ==> #[trigger] record_line_ok(c, text, m),
    ensures
        ({
            let r = read_records(text, j, n, rs, atoms_acc);
            &&& r is Ok
            &&& match r {
                Ok(pair) => {
                    &&& pair.1.len() == atoms_acc.len() + (n - j)
                    &&& forall|q: int|
                        0 <= q < atoms_acc.len() ==> #[trigger] pair.1[q] == atoms_acc[q]
                    &&& forall|q: int|
                        atoms_acc.len() <= q < pair.1.len() ==> atom_rounded_ok(
                            c,
                            j + q - atoms_acc.len(),
                            #[trigger] pair.1[q],
                        )
                },
                Err(e) => false,
            }
        }),
    decreases n - j,
{
    if j < n {
        assert(record_line_ok(c, text, j));
        let lv = record_view(c, j);
        let trip = intern_pair(rs, lv.residue_name, lv.atom_name);
        let a2 = Atom {
            name: NameRef { residue: trip.1 as usize, slot: trip.2 as usize },
            residue: trip.1 as usize,
            position: lv.position,
            velocity: lv.velocity,
        };
        assert(atom_rounded_ok(c, j, a2));
        lemma_read_all(c, text, n, j + 1, trip.0, atoms_acc.push(a2));
    }
}

/// A configuration whose encoding round-trips: well formed, every residue
/// group consistent, the title free of newlines and trailing whitespace,
/// every name and coordinate within its column, the box in range, and an
/// atom count a machine can hold.
pub open spec fn encodable(c: ConfView) -> bool {
    &&& conf_wf(c)
    &&& ({
        let spans = group_spans(c.atoms, c.residues, 0);
        first_bad_span(spans, 0) == spans.len()
    })
    &&& forall|i: int| 0 <= i < c.title.len() ==> (#[trigger] c.title[i]) != '\n'
    &&& trim_end_spec(c.title) == c.title
    &&& forall|m: int| 0 <= m < c.atoms.len() ==> atom_fits(c, #[trigger] c.atoms[m])
    &&& -crate::fixed::FIXED_LIMIT <= c.size.x <= crate::fixed::FIXED_LIMIT
    &&& -crate::fixed::FIXED_LIMIT <= c.size.y <= crate::fixed::FIXED_LIMIT
    &&& -crate::fixed::FIXED_LIMIT <= c.size.z <= crate::fixed::FIXED_LIMIT
    &&& c.atoms.len() <= usize::MAX
}

/// The round trip: encoding an encodable configuration succeeds, decoding
/// the result succeeds, and the decoded configuration has the same title,
/// atom count and box size, a zero origin, and each atom's position to
/// three decimal places and velocity to four.
#[verifier::rlimit(100)]
pub proof fn lemma_round_trip(c: ConfView)
    requires
        encodable(c),
    ensures
        encode_spec(c) is Ok,
        match encode_spec(c) {
            Ok(text) => match decode_spec(text) {
                Ok(d) => {
                    &&& d.title == c.title
                    &&& d.origin == (RVec { x: 0, y: 0, z: 0 })
                    &&& d.size == c.size
                    &&& d.atoms.len() == c.atoms.len()
                    &&& forall|m: int|
                        0 <= m < c.atoms.len() ==> atom_rounded_ok(c, m, #[trigger] d.atoms[m])
                },
                Err(e) => false,
            },
            Err(e) => false,
        },
{
    let spans = group_spans(c.atoms, c.residues, 0);
    let n = c.atoms.len() as int;
    let dg = spec_digits(n);
    let sl = span_lines(c, spans, 0, 0);
    let bx = box_line_spec(c.size);
    let r = sl + bx;
    let a1 = c.title + seq!['\n'];
    let a2 = dg + seq!['\n'];
    let rest1 = a2 + r;
    let text = c.title + seq!['\n'] + dg + seq!['\n'] + sl + bx;
    assert(encode_spec(c) == Ok::<Seq<char>, WriteError>(text));
    // regroup the concatenation around the two header lines
    vstd::seq_lib::lemma_concat_associative(a1, dg, seq!['\n']);
    vstd::seq_lib::lemma_concat_associative(a1, a2, sl);
    vstd::seq_lib::lemma_concat_associative(a1 + a2, sl, bx);
    vstd::seq_lib::lemma_concat_associative(a2, sl, bx);
    vstd::seq_lib::lemma_concat_associative(a1, a2 + sl, bx);
    assert(text == a1 + rest1) by {
        assert(text == ((a1 + dg) + seq!['\n']) + sl + bx);
        assert((a1 + dg) + seq!['\n'] == a1 + a2);
        assert(text == ((a1 + a2) + sl) + bx);
        assert(text == a1 + ((a2 + sl) + bx));
        assert((a2 + sl) + bx == a2 + r);
    }
    crate::fixed::lemma_spec_digits_props(n);
    crate::fixed::lemma_digit_chars_plain(dg);
    lemma_count_of_digits(n);
    assert(spans.skip(0) =~= spans);
    // the title line
    crate::text::lemma_line_drop_at(c.title, rest1, 0);
    assert(line_at(text, 0) == c.title);
    // the count line
    crate::text::lemma_line_drop_at(c.title, rest1, 1);
    crate::text::lemma_line_drop_at(dg, r, 0);
    assert(line_at(text, 1) == dg);
    assert(count_val(line_at(text, 1)) == Some(n));
    // every record line
    assert forall|m: int| 0 <= m < n implies #[trigger] record_line_ok(c, text, m) by {
        crate::text::lemma_line_drop_at(c.title, rest1, 2 + m);
        crate::text::lemma_line_drop_at(dg, r, 1 + m);
        lemma_span_line(c, spans, 0, 0, m);
        crate::text::lemma_line_start_bounds(r, m);
    }
    lemma_read_all(c, text, n, 0, Seq::empty(), Seq::empty());
    // the box line
    crate::text::lemma_line_drop_at(c.title, rest1, 2 + n);
    crate::text::lemma_line_drop_at(dg, r, 1 + n);
    lemma_span_box(c, spans, 0, 0);
    assert(from_whitespace_spec(line_at(text, 2 + n)) == Ok::<RVec, ParseRVecError>(c.size));
}

} // verus!
