//! Chemistry model: atoms, molecules, equations, and the balancing of raw
//! equations through the exact-integer solver.  Atomic masses are carried as
//! fixed-point integers (milli atomic mass units) so that no floating point
//! enters the model.

use crate::arith::{
    abs_u64, div_t, gcd_u64, gcd_vec, int_view, lemma_gcd_basics, spec_gcd_seq, spec_lcm,
    spec_lcm_seq,
};
use crate::lin_alg::{keep_nonzero_rows, spec_diagonalize, Matrix};
use crate::parsing::PositionedError;
use vstd::math::abs;
use vstd::prelude::*;
use vstd::string::*;

verus! {

/// Spec-level image of an atom.
pub ghost struct AtomV {
    pub code: Seq<char>,
    pub name: Seq<char>,
    pub mass_milli: int,
}

/// An element of the periodic table; `atomic_mass_milli_amu` is its atomic
/// mass in thousandths of an atomic mass unit.
#[derive(Debug)]
pub struct Atom {
    pub code: String,
    pub name: String,
    pub atomic_mass_milli_amu: u64,
}

impl View for Atom {
    type V = AtomV;

    open spec fn view(&self) -> AtomV {
        AtomV {
            code: self.code@,
            name: self.name@,
            mass_milli: self.atomic_mass_milli_amu as int,
        }
    }
}

impl Clone for Atom {
    fn clone(&self) -> (r: Atom)
        ensures
            r@ == self@,
    {
        Atom {
            code: self.code.clone(),
            name: self.name.clone(),
            atomic_mass_milli_amu: self.atomic_mass_milli_amu,
        }
    }
}

impl PartialEq for Atom {
    fn eq(&self, other: &Atom) -> (r: bool) {
        self.code == other.code && self.name == other.name && self.atomic_mass_milli_amu
            == other.atomic_mass_milli_amu
    }
}

impl vstd::std_specs::cmp::PartialEqSpecImpl for Atom {
    open spec fn obeys_eq_spec() -> bool {
        true
    }

    open spec fn eq_spec(&self, other: &Atom) -> bool {
        self@ == other@
    }
}

impl Eq for Atom {

}

/// Spec-level image of a molecule: atom entries in first-appearance order,
/// net charge, and the preserved display text.
pub ghost struct MolV {
    pub atoms: Seq<(AtomV, int)>,
    pub charge: int,
    pub string_repr: Option<Seq<char>>,
}

/// A molecule: atom -> multiplicity entries in first-appearance order (zero
/// entries never stored), net integer charge, and the original text kept for
/// display.
#[derive(Debug)]
pub struct Molecule {
    pub atoms: Vec<(Atom, u32)>,
    pub charge: i32,
    pub string_repr: Option<String>,
}

/// The entries of an atom-count list, as spec values.
pub open spec fn entries_view(s: Seq<(Atom, u32)>) -> Seq<(AtomV, int)> {
    s.map_values(|p: (Atom, u32)| (p.0@, p.1 as int))
}

pub broadcast proof fn lemma_entries_view_index(s: Seq<(Atom, u32)>, i: int)
    ensures
        #![trigger s[i]]
        #![trigger entries_view(s)[i]]
        0 <= i < s.len() ==> entries_view(s)[i] == (s[i].0@, s[i].1 as int),
{
}

impl View for Molecule {
    type V = MolV;

    open spec fn view(&self) -> MolV {
        MolV {
            atoms: entries_view(self.atoms@),
            charge: self.charge as int,
            string_repr: match self.string_repr {
                Some(s) => Some(s@),
                None => None,
            },
        }
    }
}

impl Clone for Molecule {
    fn clone(&self) -> (r: Molecule)
        ensures
            r@ == self@,
    {
        broadcast use lemma_entries_view_index;

        let mut atoms: Vec<(Atom, u32)> = Vec::new();
        let mut i: usize = 0;
        while i < self.atoms.len()
            invariant
                0 <= i <= self.atoms@.len(),
                atoms@.len() == i,
                forall|k: int|
                    0 <= k < i ==> (#[trigger] atoms@[k]).0@ == self.atoms@[k].0@ && atoms@[k].1
                        == self.atoms@[k].1,
            decreases self.atoms@.len() - i,
        {
            let a = self.atoms[i].0.clone();
            let c = self.atoms[i].1;
            atoms.push((a, c));
            i = i + 1;
        }
        let string_repr = match &self.string_repr {
            Some(s) => Some(s.clone()),
            None => None,
        };
        let r = Molecule { atoms, charge: self.charge, string_repr };
        proof {
            assert(entries_view(r.atoms@) =~= entries_view(self.atoms@));
        }
        r
    }
}

impl PartialEq for Molecule {
    /// Equality of molecules depends on atom counts and charge only: every
    /// key carries the same total multiplicity on both sides, whatever the
    /// entry order; the preserved display text does not take part.
    #[verifier::loop_isolation(false)]
    fn eq(&self, other: &Molecule) -> (r: bool) {
        broadcast use lemma_entries_view_index;

        let ghost sa = entries_view(self.atoms@);
        let ghost sb = entries_view(other.atoms@);
        if self.charge != other.charge {
            return false;
        }
        let mut i: usize = 0;
        while i < self.atoms.len()
            invariant
                0 <= i <= self.atoms@.len(),
                sa.len() == self.atoms@.len(),
                forall|t: int|
                    0 <= t < i ==> count_in(sa, (#[trigger] sa[t]).0) == count_in(sb, sa[t].0),
            decreases self.atoms@.len() - i,
        {
            let c1 = count_of_key(self, &self.atoms[i].0);
            let c2 = count_of_key(other, &self.atoms[i].0);
            if c1 < c2 || c2 < c1 {
                proof {
                    assert(entries_view(self.atoms@)[i as int] == (
                        self.atoms@[i as int].0@,
                        self.atoms@[i as int].1 as int,
                    ));
                    let ghost k = self.atoms@[i as int].0@;
                    assert(count_in(self@.atoms, k) != count_in(other@.atoms, k));
                }
                return false;
            }
            i = i + 1;
        }
        let mut j: usize = 0;
        while j < other.atoms.len()
            invariant
                0 <= j <= other.atoms@.len(),
                sa.len() == self.atoms@.len(),
                sb.len() == other.atoms@.len(),
                forall|t: int|
                    0 <= t < sa.len() ==> count_in(sa, (#[trigger] sa[t]).0) == count_in(
                        sb,
                        sa[t].0,
                    ),
                forall|t: int|
                    0 <= t < j ==> count_in(sa, (#[trigger] sb[t]).0) == count_in(sb, sb[t].0),
            decreases other.atoms@.len() - j,
        {
            let c1 = count_of_key(self, &other.atoms[j].0);
            let c2 = count_of_key(other, &other.atoms[j].0);
            if c1 < c2 || c2 < c1 {
                proof {
                    assert(entries_view(other.atoms@)[j as int] == (
                        other.atoms@[j as int].0@,
                        other.atoms@[j as int].1 as int,
                    ));
                    let ghost k = other.atoms@[j as int].0@;
                    assert(count_in(self@.atoms, k) != count_in(other@.atoms, k));
                }
                return false;
            }
            j = j + 1;
        }
        proof {
            assert forall|k: AtomV| count_in(sa, k) == count_in(sb, k) by {
                if key_in_entries(sa, k) {
                    let t = choose|t: int| 0 <= t < sa.len() && (#[trigger] sa[t]).0 == k;
                    assert(count_in(sa, sa[t].0) == count_in(sb, sa[t].0));
                } else if key_in_entries(sb, k) {
                    let t = choose|t: int| 0 <= t < sb.len() && (#[trigger] sb[t]).0 == k;
                    assert(count_in(sa, sb[t].0) == count_in(sb, sb[t].0));
                } else {
                    lemma_absent_count(sa, k);
                    lemma_absent_count(sb, k);
                }
            }
        }
        true
    }
}

/// Total multiplicity of `key` in the molecule, as a width that cannot
/// overflow.
#[verifier::loop_isolation(false)]
fn count_of_key(m: &Molecule, key: &Atom) -> (r: u128)
    ensures
        r == count_in(entries_view(m.atoms@), key@),
        r < 0x1_0000_0000_0000_0000_0000_0000u128,
{
    broadcast use lemma_entries_view_index;

    let ghost s = entries_view(m.atoms@);
    let mut acc: u128 = 0;
    let mut i: usize = 0;
    while i < m.atoms.len()
        invariant
            0 <= i <= m.atoms@.len(),
            s == entries_view(m.atoms@),
            s.len() == m.atoms@.len(),
            acc == count_in(s.take(i as int), key@),
            acc <= i * 0xffff_ffff,
        decreases m.atoms@.len() - i,
    {
        proof {
            lemma_count_step(s, key@, i as int);
            assert(s[i as int] == (m.atoms@[i as int].0@, m.atoms@[i as int].1 as int));
            assert(acc + 0xffff_ffff <= (i + 1) * 0xffff_ffff) by (nonlinear_arith)
                requires
                    acc <= i * 0xffff_ffff,
            ;
            assert((i + 1) * 0xffff_ffff < u128::MAX) by (nonlinear_arith)
                requires
                    0 <= i + 1 <= 0x1_0000_0000_0000_0000,
            ;
        }
        if m.atoms[i].0 == *key {
            acc = acc + (m.atoms[i].1 as u128);
        }
        i = i + 1;
    }
    proof {
        assert(s.take(s.len() as int) =~= s);
        assert(acc < 0x1_0000_0000_0000_0000_0000_0000u128) by (nonlinear_arith)
            requires
                acc <= i * 0xffff_ffff && 0 <= i <= 0xffff_ffff_ffff_ffffu128,
        ;
    }
    acc
}

impl vstd::std_specs::cmp::PartialEqSpecImpl for Molecule {
    open spec fn obeys_eq_spec() -> bool {
        true
    }

    open spec fn eq_spec(&self, other: &Molecule) -> bool {
        molecule_same_counts(self@, other@)
    }
}

/// Spec-level molecule equality: same charge, and the same total
/// multiplicity for every atom key.
pub open spec fn molecule_same_counts(a: MolV, b: MolV) -> bool {
    a.charge == b.charge && forall|k: AtomV| count_in(a.atoms, k) == count_in(b.atoms, k)
}

impl Eq for Molecule {

}

/// Total mass of an atom-count list, in milli atomic mass units.
pub open spec fn spec_mass(s: Seq<(AtomV, int)>) -> int
    decreases s.len(),
{
    if s.len() == 0 {
        0
    } else {
        spec_mass(s.drop_last()) + s.last().0.mass_milli * s.last().1
    }
}

/// Every entry has a non-negative mass and count (true of the view of any
/// `Vec<(Atom, u32)>` by typing alone).
pub open spec fn nonneg_entries(s: Seq<(AtomV, int)>) -> bool {
    forall|i: int| 0 <= i < s.len() ==> (#[trigger] s[i]).0.mass_milli >= 0 && s[i].1 >= 0
}

proof fn lemma_mass_step(s: Seq<(AtomV, int)>, i: int)
    requires
        0 <= i < s.len(),
    ensures
        spec_mass(s.take(i + 1)) == spec_mass(s.take(i)) + s[i].0.mass_milli * s[i].1,
{
    assert(s.take(i + 1).drop_last() =~= s.take(i));
    assert(s.take(i + 1).last() == s[i]);
}

proof fn lemma_mass_prefix_le(s: Seq<(AtomV, int)>, i: int)
    requires
        0 <= i <= s.len(),
        nonneg_entries(s),
    ensures
        spec_mass(s.take(i)) <= spec_mass(s),
    decreases s.len() - i,
{
    if i < s.len() {
        lemma_mass_step(s, i);
        assert(s[i].0.mass_milli * s[i].1 >= 0) by (nonlinear_arith)
            requires
                s[i].0.mass_milli >= 0 && s[i].1 >= 0,
        ;
        lemma_mass_prefix_le(s, i + 1);
    } else {
        assert(s.take(i) =~= s);
    }
}

impl Molecule {
    /// The molecule's atom entries, as spec values.
    pub open spec fn entries(self) -> Seq<(AtomV, int)> {
        entries_view(self.atoms@)
    }

    /// Molar mass in milli atomic mass units, or `None` when the sum leaves
    /// `u64`.
    #[verifier::loop_isolation(false)]
    pub fn mass_milli_amu_checked(&self) -> (r: Option<u64>)
        ensures
            r is Some <==> spec_mass(self.entries()) <= u64::MAX,
            r matches Some(v) ==> v == spec_mass(self.entries()),
    {
        broadcast use lemma_entries_view_index;

        let ghost s = self.entries();
        proof {
            assert(nonneg_entries(s));
        }
        let mut sum: u64 = 0;
        let mut i: usize = 0;
        while i < self.atoms.len()
            invariant
                0 <= i <= self.atoms@.len(),
                s == self.entries(),
                nonneg_entries(s),
                s.len() == self.atoms@.len(),
                sum == spec_mass(s.take(i as int)),
            decreases self.atoms@.len() - i,
        {
            proof {
                lemma_mass_step(s, i as int);
            }
            let coef: u64 = self.atoms[i].1 as u64;
            let mass: u64 = self.atoms[i].0.atomic_mass_milli_amu;
            let term: u64 = match mass.checked_mul(coef) {
                Some(t) => t,
                None => {
                    proof {
                        assert(s[i as int] == (self.atoms@[i as int].0@, self.atoms@[i as int].1 as int));
                        lemma_mass_prefix_le(s, i + 1);
                    }
                    return None;
                },
            };
            sum = match sum.checked_add(term) {
                Some(v) => v,
                None => {
                    proof {
                        assert(s[i as int] == (self.atoms@[i as int].0@, self.atoms@[i as int].1 as int));
                        lemma_mass_prefix_le(s, i + 1);
                    }
                    return None;
                },
            };
            i = i + 1;
        }
        proof {
            assert(s.take(s.len() as int) =~= s);
        }
        Some(sum)
    }

    /// Molar mass in milli atomic mass units.
    pub fn mass_milli_amu(&self) -> (r: u64)
        requires
            spec_mass(self.entries()) <= u64::MAX,
        ensures
            r == spec_mass(self.entries()),
    {
        match self.mass_milli_amu_checked() {
            Some(v) => v,
            None => vstd::pervasive::unreached(),
        }
    }

    /// The canonical `<Symbol><count>` display used when no original text
    /// was preserved; a count of one is omitted.
    pub fn default_fmt(&self) -> (r: String)
        ensures
            r@ == spec_default_fmt(self.entries()),
    {
        broadcast use lemma_entries_view_index;

        let mut out = String::new();
        let mut i: usize = 0;
        while i < self.atoms.len()
            invariant
                0 <= i <= self.atoms@.len(),
                out@ == spec_default_fmt(self.entries().take(i as int)),
            decreases self.atoms@.len() - i,
        {
            proof {
                assert(self.entries().take(i + 1).drop_last() =~= self.entries().take(i as int));
                assert(self.entries().take(i + 1).last() == self.entries()[i as int]);
            }
            out.append(self.atoms[i].0.code.as_str());
            if self.atoms[i].1 != 1 {
                let digits = crate::parsing::u64_to_string(self.atoms[i].1 as u64);
                out.append(digits.as_str());
            }
            i = i + 1;
        }
        proof {
            assert(self.entries().take(self.entries().len() as int) =~= self.entries());
        }
        out
    }
}

/// The canonical symbol/count rendering of an atom-count list.
pub open spec fn spec_default_fmt(s: Seq<(AtomV, int)>) -> Seq<char>
    decreases s.len(),
{
    if s.len() == 0 {
        Seq::empty()
    } else {
        spec_default_fmt(s.drop_last()) + s.last().0.code + (if s.last().1 == 1 {
            Seq::<char>::empty()
        } else {
            crate::parsing::spec_digits(s.last().1 as nat)
        })
    }
}

/// The views of a sequence of molecules.
pub open spec fn mols_view(s: Seq<Molecule>) -> Seq<MolV> {
    s.map_values(|m: Molecule| m@)
}

pub broadcast proof fn lemma_mols_view_index(s: Seq<Molecule>, i: int)
    ensures
        #![trigger s[i]]
        #![trigger mols_view(s)[i]]
        0 <= i < s.len() ==> mols_view(s)[i] == s[i]@,
{
}

/// The views of a sequence of atoms.
pub open spec fn atom_seq_view(s: Seq<Atom>) -> Seq<AtomV> {
    s.map_values(|a: Atom| a@)
}

pub broadcast proof fn lemma_atom_seq_view_index(s: Seq<Atom>, i: int)
    ensures
        #![trigger s[i]]
        #![trigger atom_seq_view(s)[i]]
        0 <= i < s.len() ==> atom_seq_view(s)[i] == s[i]@,
{
}

/// The atom keys of a molecule, in entry order.
pub open spec fn spec_keys(m: MolV) -> Seq<AtomV> {
    m.atoms.map_values(|p: (AtomV, int)| p.0)
}

/// The atom keys of a sequence of molecules, concatenated in order.
pub open spec fn spec_all_keys(ms: Seq<MolV>) -> Seq<AtomV>
    decreases ms.len(),
{
    if ms.len() == 0 {
        Seq::empty()
    } else {
        spec_all_keys(ms.drop_last()) + spec_keys(ms.last())
    }
}

/// First-occurrence deduplication of a sequence of keys.
pub open spec fn spec_dedup(s: Seq<AtomV>) -> Seq<AtomV>
    decreases s.len(),
{
    if s.len() == 0 {
        Seq::empty()
    } else {
        let d = spec_dedup(s.drop_last());
        if d.contains(s.last()) {
            d
        } else {
            d.push(s.last())
        }
    }
}

/// Two molecule lists agree entry-wise on atom counts and charge.
pub open spec fn mols_eq_counts(a: Seq<Molecule>, b: Seq<Molecule>) -> bool {
    a.len() == b.len() && forall|i: int|
        0 <= i < a.len() ==> molecule_same_counts((#[trigger] a[i])@, b[i]@)
}

/// A parsed but not yet balanced equation: reactant and product molecules,
/// and the literal arrow text.
#[derive(Debug)]
pub struct RawEquation {
    pub lhs: Vec<Molecule>,
    pub rhs: Vec<Molecule>,
    pub arrow: String,
}

impl Clone for RawEquation {
    fn clone(&self) -> (r: RawEquation)
        ensures
            mols_view(r.lhs@) == mols_view(self.lhs@),
            mols_view(r.rhs@) == mols_view(self.rhs@),
            r.arrow@ == self.arrow@,
    {
        RawEquation {
            lhs: clone_molecules(&self.lhs),
            rhs: clone_molecules(&self.rhs),
            arrow: self.arrow.clone(),
        }
    }
}

impl PartialEq for RawEquation {
    fn eq(&self, other: &RawEquation) -> (r: bool) {
        molecules_eq(&self.lhs, &other.lhs) && molecules_eq(&self.rhs, &other.rhs) && self.arrow
            == other.arrow
    }
}

impl vstd::std_specs::cmp::PartialEqSpecImpl for RawEquation {
    open spec fn obeys_eq_spec() -> bool {
        true
    }

    open spec fn eq_spec(&self, other: &RawEquation) -> bool {
        mols_eq_counts(self.lhs@, other.lhs@) && mols_eq_counts(self.rhs@, other.rhs@)
            && self.arrow@ == other.arrow@
    }
}

impl Eq for RawEquation {

}

/// Entry-wise copy of a molecule list, preserving views.
#[verifier::loop_isolation(false)]
pub fn clone_molecules(v: &Vec<Molecule>) -> (r: Vec<Molecule>)
    ensures
        mols_view(r@) == mols_view(v@),
{
    broadcast use lemma_mols_view_index;

    let mut out: Vec<Molecule> = Vec::new();
    let mut i: usize = 0;
    while i < v.len()
        invariant
            0 <= i <= v@.len(),
            out@.len() == i,
            forall|k: int| 0 <= k < i ==> (#[trigger] out@[k])@ == v@[k]@,
        decreases v@.len() - i,
    {
        out.push(v[i].clone());
        i = i + 1;
    }
    proof {
        assert(mols_view(out@) =~= mols_view(v@));
    }
    out
}

/// Entry-wise comparison of two molecule lists, by atom counts and charge.
#[verifier::loop_isolation(false)]
fn molecules_eq(a: &Vec<Molecule>, b: &Vec<Molecule>) -> (r: bool)
    ensures
        r == mols_eq_counts(a@, b@),
{
    if a.len() != b.len() {
        return false;
    }
    let mut i: usize = 0;
    while i < a.len()
        invariant
            0 <= i <= a@.len(),
            a@.len() == b@.len(),
            forall|k: int| 0 <= k < i ==> molecule_same_counts((#[trigger] a@[k])@, b@[k]@),
        decreases a@.len() - i,
    {
        if !(a[i] == b[i]) {
            return false;
        }
        i = i + 1;
    }
    true
}

impl RawEquation {
    /// Every atom key of every reactant molecule, in entry order, with
    /// repeats; parsed molecules carry their entries in ascending canonical
    /// atom order, so the keys of each molecule appear in that order.
    #[verifier::loop_isolation(false)]
    pub fn all_atoms_ordered(&self) -> (r: Vec<Atom>)
        ensures
            atom_seq_view(r@) == spec_all_keys(mols_view(self.lhs@)),
    {
        broadcast use lemma_mols_view_index, lemma_entries_view_index, lemma_atom_seq_view_index;

        let ghost ms = mols_view(self.lhs@);
        let mut out: Vec<Atom> = Vec::new();
        let mut i: usize = 0;
        while i < self.lhs.len()
            invariant
                0 <= i <= self.lhs@.len(),
                ms == mols_view(self.lhs@),
                atom_seq_view(out@) == spec_all_keys(ms.take(i as int)),
            decreases self.lhs@.len() - i,
        {
            proof {
                assert(ms.take(i + 1).drop_last() =~= ms.take(i as int));
                assert(ms.take(i + 1).last() == ms[i as int]);
            }
            let ghost out_pre = atom_seq_view(out@);
            let mol = &self.lhs[i];
            let mut j: usize = 0;
            while j < mol.atoms.len()
                invariant
                    0 <= j <= mol.atoms@.len(),
                    atom_seq_view(out@) == out_pre + spec_keys(ms[i as int]).take(j as int),
                decreases mol.atoms@.len() - j,
            {
                out.push(mol.atoms[j].0.clone());
                proof {
                    assert(atom_seq_view(out@) =~= out_pre + spec_keys(ms[i as int]).take(j + 1));
                }
                j = j + 1;
            }
            proof {
                assert(spec_keys(ms[i as int]).take(spec_keys(ms[i as int]).len() as int)
                    =~= spec_keys(ms[i as int]));
                assert(atom_seq_view(out@) =~= spec_all_keys(ms.take(i + 1)));
            }
            i = i + 1;
        }
        proof {
            assert(ms.take(ms.len() as int) =~= ms);
        }
        out
    }

    /// The distinct atom keys of the reactant side, in first-appearance
    /// order.
    pub fn all_atoms_set(&self) -> (r: Vec<Atom>)
        ensures
            atom_seq_view(r@) == spec_dedup(spec_all_keys(mols_view(self.lhs@))),
    {
        let ordered = self.all_atoms_ordered();
        dedup_atoms(&ordered)
    }
}

/// True iff some entry of `v` has the same view as `a`.
#[verifier::loop_isolation(false)]
fn atoms_contain(v: &Vec<Atom>, a: &Atom) -> (r: bool)
    ensures
        r == atom_seq_view(v@).contains(a@),
{
    broadcast use lemma_atom_seq_view_index;

    let mut i: usize = 0;
    while i < v.len()
        invariant
            0 <= i <= v@.len(),
            forall|k: int| 0 <= k < i ==> atom_seq_view(v@)[k] != a@,
        decreases v@.len() - i,
    {
        if v[i] == *a {
            proof {
                assert(atom_seq_view(v@)[i as int] == a@);
            }
            return true;
        }
        i = i + 1;
    }
    proof {
        assert(forall|k: int| 0 <= k < atom_seq_view(v@).len() ==> atom_seq_view(v@)[k] != a@);
    }
    false
}

/// The input atoms with later repeats removed.
#[verifier::loop_isolation(false)]
fn dedup_atoms(v: &Vec<Atom>) -> (r: Vec<Atom>)
    ensures
        atom_seq_view(r@) == spec_dedup(atom_seq_view(v@)),
{
    broadcast use lemma_atom_seq_view_index;

    let ghost s = atom_seq_view(v@);
    let mut out: Vec<Atom> = Vec::new();
    let mut i: usize = 0;
    while i < v.len()
        invariant
            0 <= i <= v@.len(),
            s == atom_seq_view(v@),
            atom_seq_view(out@) == spec_dedup(s.take(i as int)),
        decreases v@.len() - i,
    {
        proof {
            assert(s.take(i + 1).drop_last() =~= s.take(i as int));
            assert(s.take(i + 1).last() == s[i as int]);
        }
        if !atoms_contain(&out, &v[i]) {
            out.push(v[i].clone());
            proof {
                assert(atom_seq_view(out@) =~= spec_dedup(s.take(i + 1)));
            }
        }
        i = i + 1;
    }
    proof {
        assert(s.take(s.len() as int) =~= s);
    }
    out
}

/// The views of a side of coefficiented molecules.
pub open spec fn pairs_view(s: Seq<(Molecule, i32)>) -> Seq<(MolV, int)> {
    s.map_values(|p: (Molecule, i32)| (p.0@, p.1 as int))
}

pub broadcast proof fn lemma_pairs_view_index(s: Seq<(Molecule, i32)>, i: int)
    ensures
        #![trigger s[i]]
        #![trigger pairs_view(s)[i]]
        0 <= i < s.len() ==> pairs_view(s)[i] == (s[i].0@, s[i].1 as int),
{
}

/// A balanced equation: molecules with their positive stoichiometric
/// coefficients, and the literal arrow text.
#[derive(Debug)]
pub struct BalancedEquation {
    pub lhs: Vec<(Molecule, i32)>,
    pub rhs: Vec<(Molecule, i32)>,
    pub arrow: String,
}

/// Two coefficiented sides agree entry-wise on counts, charge and
/// coefficient.
pub open spec fn sides_eq_counts(a: Seq<(Molecule, i32)>, b: Seq<(Molecule, i32)>) -> bool {
    a.len() == b.len() && forall|i: int|
        0 <= i < a.len() ==> molecule_same_counts((#[trigger] a[i]).0@, b[i].0@) && a[i].1
            == b[i].1
}

impl Clone for BalancedEquation {
    fn clone(&self) -> (r: BalancedEquation)
        ensures
            pairs_view(r.lhs@) == pairs_view(self.lhs@),
            pairs_view(r.rhs@) == pairs_view(self.rhs@),
            r.arrow@ == self.arrow@,
    {
        BalancedEquation {
            lhs: clone_side(&self.lhs),
            rhs: clone_side(&self.rhs),
            arrow: self.arrow.clone(),
        }
    }
}

impl PartialEq for BalancedEquation {
    fn eq(&self, other: &BalancedEquation) -> (r: bool) {
        sides_eq(&self.lhs, &other.lhs) && sides_eq(&self.rhs, &other.rhs) && self.arrow
            == other.arrow
    }
}

impl vstd::std_specs::cmp::PartialEqSpecImpl for BalancedEquation {
    open spec fn obeys_eq_spec() -> bool {
        true
    }

    open spec fn eq_spec(&self, other: &BalancedEquation) -> bool {
        sides_eq_counts(self.lhs@, other.lhs@) && sides_eq_counts(self.rhs@, other.rhs@)
            && self.arrow@ == other.arrow@
    }
}

impl Eq for BalancedEquation {

}

/// Entry-wise copy of a coefficiented side, preserving views.
#[verifier::loop_isolation(false)]
fn clone_side(v: &Vec<(Molecule, i32)>) -> (r: Vec<(Molecule, i32)>)
    ensures
        pairs_view(r@) == pairs_view(v@),
{
    broadcast use lemma_pairs_view_index;

    let mut out: Vec<(Molecule, i32)> = Vec::new();
    let mut i: usize = 0;
    while i < v.len()
        invariant
            0 <= i <= v@.len(),
            out@.len() == i,
            forall|k: int|
                0 <= k < i ==> (#[trigger] out@[k]).0@ == v@[k].0@ && out@[k].1 == v@[k].1,
        decreases v@.len() - i,
    {
        out.push((v[i].0.clone(), v[i].1));
        i = i + 1;
    }
    proof {
        assert(pairs_view(out@) =~= pairs_view(v@));
    }
    out
}

/// Entry-wise comparison of two coefficiented sides.
#[verifier::loop_isolation(false)]
fn sides_eq(a: &Vec<(Molecule, i32)>, b: &Vec<(Molecule, i32)>) -> (r: bool)
    ensures
        r == sides_eq_counts(a@, b@),
{
    if a.len() != b.len() {
        return false;
    }
    let mut i: usize = 0;
    while i < a.len()
        invariant
            0 <= i <= a@.len(),
            a@.len() == b@.len(),
            forall|k: int|
                0 <= k < i ==> molecule_same_counts((#[trigger] a@[k]).0@, b@[k].0@) && a@[k].1
                    == b@[k].1,
        decreases a@.len() - i,
    {
        if !(a[i].0 == b[i].0) || a[i].1 != b[i].1 {
            return false;
        }
        i = i + 1;
    }
    true
}

/// Unit of a quantity attached to a molecule.
#[derive(Debug, Clone, Copy, PartialEq, Eq, Structural)]
pub enum ChemUnit {
    Gram,
    Milligram,
    Mol,
}

impl ChemUnit {
    /// The display text of the unit.
    pub fn render(&self) -> (r: String)
        ensures
            r@ == spec_unit_text(*self),
    {
        match self {
            ChemUnit::Gram => String::from_str("g"),
            ChemUnit::Milligram => String::from_str("mg"),
            ChemUnit::Mol => String::from_str("mol"),
        }
    }
}

/// The display text of a unit.
pub open spec fn spec_unit_text(u: ChemUnit) -> Seq<char> {
    match u {
        ChemUnit::Gram => "g"@,
        ChemUnit::Milligram => "mg"@,
        ChemUnit::Mol => "mol"@,
    }
}

/// The unit written as `txt`, if any: "g", "mg" or "mol".
pub fn chem_unit_for(txt: &String) -> (r: Result<ChemUnit, ()>)
    ensures
        r == Ok::<ChemUnit, ()>(ChemUnit::Gram) <==> txt@ == "g"@,
        r == Ok::<ChemUnit, ()>(ChemUnit::Milligram) <==> txt@ == "mg"@,
        r == Ok::<ChemUnit, ()>(ChemUnit::Mol) <==> txt@ == "mol"@,
        r is Err <==> (txt@ != "g"@ && txt@ != "mg"@ && txt@ != "mol"@),
    {
    broadcast use vstd::string::group_string_axioms;

    proof {
        reveal_strlit("g");
        reveal_strlit("mg");
        reveal_strlit("mol");
        assert("g"@.len() == 1);
        assert("mg"@.len() == 2);
        assert("mol"@.len() == 3);
    }
    if *txt == String::from_str("g") {
        Ok(ChemUnit::Gram)
    } else if *txt == String::from_str("mg") {
        Ok(ChemUnit::Milligram)
    } else if *txt == String::from_str("mol") {
        Ok(ChemUnit::Mol)
    } else {
        Err(())
    }
}

/// The display text of a molecule: its preserved original text, or the
/// canonical symbol/count form.
pub open spec fn spec_mol_render(m: MolV) -> Seq<char> {
    match m.string_repr {
        Some(t) => t,
        None => spec_default_fmt(m.atoms),
    }
}

/// The display text of one side of a balanced equation.
pub open spec fn spec_member_render(s: Seq<(MolV, int)>) -> Seq<char>
    decreases s.len(),
{
    if s.len() == 0 {
        Seq::empty()
    } else if s.len() == 1 {
        spec_pair_render(s[0])
    } else {
        spec_member_render(s.drop_last()) + " + "@ + spec_pair_render(s.last())
    }
}

/// The display text of one molecule with its coefficient (a coefficient of
/// one is omitted).
pub open spec fn spec_pair_render(p: (MolV, int)) -> Seq<char> {
    if p.1 == 1 {
        spec_mol_render(p.0)
    } else {
        crate::parsing::spec_digits(p.1 as nat) + " "@ + spec_mol_render(p.0)
    }
}

impl Molecule {
    /// The display text: the preserved original text when present, else the
    /// canonical symbol/count form.
    pub fn render(&self) -> (r: String)
        ensures
            r@ == spec_mol_render(self@),
    {
        match &self.string_repr {
            Some(t) => t.clone(),
            None => self.default_fmt(),
        }
    }
}

/// One side of a balanced equation as display text: `<coef> <molecule>`
/// terms joined by " + ", a coefficient of one omitted.
#[verifier::loop_isolation(false)]
pub fn format_balanced_equation_member(member: &Vec<(Molecule, i32)>) -> (r: String)
    requires
        forall|i: int| 0 <= i < member@.len() ==> (#[trigger] member@[i]).1 >= 0,
    ensures
        r@ == spec_member_render(pairs_view(member@)),
{
    broadcast use lemma_pairs_view_index;

    let ghost s = pairs_view(member@);
    let mut out = String::new();
    let mut i: usize = 0;
    while i < member.len()
        invariant
            0 <= i <= member@.len(),
            s == pairs_view(member@),
            forall|k: int| 0 <= k < member@.len() ==> (#[trigger] member@[k]).1 >= 0,
            out@ == spec_member_render(s.take(i as int)),
        decreases member@.len() - i,
    {
        proof {
            assert(s.take(i + 1).drop_last() =~= s.take(i as int));
            assert(s.take(i + 1).last() == s[i as int]);
            if i > 0 {
                assert(s.take(i + 1).len() > 1);
            } else {
                assert(s.take(1) =~= seq![s[0]]);
            }
        }
        if i > 0 {
            out.append(" + ");
        }
        let coef = member[i].1;
        if coef != 1 {
            let digits = crate::parsing::u64_to_string(coef as u64);
            out.append(digits.as_str());
            out.append(" ");
        }
        let mol_text = member[i].0.render();
        out.append(mol_text.as_str());
        i = i + 1;
    }
    proof {
        assert(s.take(s.len() as int) =~= s);
    }
    out
}

impl BalancedEquation {
    /// The display text: both rendered sides around the preserved arrow.
    pub fn render(&self) -> (r: String)
        requires
            forall|i: int| 0 <= i < self.lhs@.len() ==> (#[trigger] self.lhs@[i]).1 >= 0,
            forall|i: int| 0 <= i < self.rhs@.len() ==> (#[trigger] self.rhs@[i]).1 >= 0,
        ensures
            r@ == spec_member_render(pairs_view(self.lhs@)) + " "@ + self.arrow@ + " "@
                + spec_member_render(pairs_view(self.rhs@)),
    {
        let mut out = format_balanced_equation_member(&self.lhs);
        out.append(" ");
        out.append(self.arrow.as_str());
        out.append(" ");
        let rhs_text = format_balanced_equation_member(&self.rhs);
        out.append(rhs_text.as_str());
        out
    }
}

/// The element lookup the parsers rely on: symbol -> atom records, searched
/// front to back.
#[derive(Debug)]
pub struct PeriodicTable {
    pub entries: Vec<Atom>,
}

/// First entry of `s` whose symbol is `code`, if any.
pub open spec fn spec_lookup(s: Seq<Atom>, code: Seq<char>) -> Option<Atom>
    decreases s.len(),
{
    if s.len() == 0 {
        None
    } else if s[0]@.code == code {
        Some(s[0])
    } else {
        spec_lookup(s.drop_first(), code)
    }
}

impl PeriodicTable {
    /// Membership and record of a symbol: the first entry with that symbol
    /// wins (symbols are unique in a real table, so no duplicate is ever
    /// consulted).
    #[verifier::loop_isolation(false)]
    pub fn lookup(&self, symbol: &String) -> (r: Option<&Atom>)
        ensures
            match r {
                Some(a) => spec_lookup(self.entries@, symbol@) == Some(*a),
                None => spec_lookup(self.entries@, symbol@) is None,
            },
    {
        proof {
            assert(self.entries@.skip(0) =~= self.entries@);
        }
        let mut i: usize = 0;
        while i < self.entries.len()
            invariant
                0 <= i <= self.entries@.len(),
                spec_lookup(self.entries@, symbol@) == spec_lookup(
                    self.entries@.skip(i as int),
                    symbol@,
                ),
            decreases self.entries@.len() - i,
        {
            proof {
                assert(self.entries@.skip(i as int).drop_first() =~= self.entries@.skip(i + 1));
                assert(self.entries@.skip(i as int)[0] == self.entries@[i as int]);
            }
            if self.entries[i].code == *symbol {
                return Some(&self.entries[i]);
            }
            i = i + 1;
        }
        proof {
            assert(self.entries@.skip(self.entries@.len() as int) =~= Seq::<Atom>::empty());
        }
        None
    }
}

/// Total multiplicity of the key `k` in an atom-count list (summing repeats).
pub open spec fn count_in(atoms: Seq<(AtomV, int)>, k: AtomV) -> int
    decreases atoms.len(),
{
    if atoms.len() == 0 {
        0
    } else {
        count_in(atoms.drop_last(), k) + if atoms.last().0 == k {
            atoms.last().1
        } else {
            0
        }
    }
}

/// Sum over one side of coefficient times multiplicity of the key `k`.
pub open spec fn side_atom_sum(s: Seq<(MolV, int)>, k: AtomV) -> int
    decreases s.len(),
{
    if s.len() == 0 {
        0
    } else {
        side_atom_sum(s.drop_last(), k) + s.last().1 * count_in(s.last().0.atoms, k)
    }
}

/// Sum over one side of coefficient times net charge.
pub open spec fn side_charge_sum(s: Seq<(MolV, int)>) -> int
    decreases s.len(),
{
    if s.len() == 0 {
        0
    } else {
        side_charge_sum(s.drop_last()) + s.last().1 * s.last().0.charge
    }
}

/// The coefficients of one side, in order.
pub open spec fn coefs_of(s: Seq<(MolV, int)>) -> Seq<int> {
    s.map_values(|p: (MolV, int)| p.1)
}

/// The invariant of a balanced equation: applying the coefficients balances
/// every atom and the net charge, every coefficient is positive, and the
/// coefficients' overall gcd is one.
pub open spec fn spec_balanced_wf(b: BalancedEquation) -> bool {
    &&& forall|k: AtomV|
        #[trigger] side_atom_sum(pairs_view(b.lhs@), k) == side_atom_sum(pairs_view(b.rhs@), k)
    &&& side_charge_sum(pairs_view(b.lhs@)) == side_charge_sum(pairs_view(b.rhs@))
    &&& forall|i: int| 0 <= i < b.lhs@.len() ==> (#[trigger] b.lhs@[i]).1 >= 1
    &&& forall|i: int| 0 <= i < b.rhs@.len() ==> (#[trigger] b.rhs@[i]).1 >= 1
    &&& spec_gcd_seq(coefs_of(pairs_view(b.lhs@)) + coefs_of(pairs_view(b.rhs@))) == 1
}

/// The key `k` appears in the atom-count list.
pub open spec fn key_in_entries(atoms: Seq<(AtomV, int)>, k: AtomV) -> bool {
    exists|j: int| 0 <= j < atoms.len() && (#[trigger] atoms[j]).0 == k
}

/// The key `k` appears in some molecule of the side.
pub open spec fn key_in_side(s: Seq<(MolV, int)>, k: AtomV) -> bool {
    exists|i: int| 0 <= i < s.len() && key_in_entries((#[trigger] s[i]).0.atoms, k)
}

proof fn lemma_absent_count(atoms: Seq<(AtomV, int)>, k: AtomV)
    requires
        !key_in_entries(atoms, k),
    ensures
        count_in(atoms, k) == 0,
    decreases atoms.len(),
{
    if atoms.len() > 0 {
        assert(forall|j: int|
            0 <= j < atoms.drop_last().len() ==> (#[trigger] atoms.drop_last()[j]) == atoms[j]);
        lemma_absent_count(atoms.drop_last(), k);
        assert(atoms.last() == atoms[atoms.len() - 1]);
    }
}

proof fn lemma_absent_side(s: Seq<(MolV, int)>, k: AtomV)
    requires
        !key_in_side(s, k),
    ensures
        side_atom_sum(s, k) == 0,
    decreases s.len(),
{
    if s.len() > 0 {
        assert(forall|i: int|
            0 <= i < s.drop_last().len() ==> (#[trigger] s.drop_last()[i]) == s[i]);
        lemma_absent_side(s.drop_last(), k);
        assert(s.last() == s[s.len() - 1]);
        assert(!key_in_entries(s.last().0.atoms, k));
        lemma_absent_count(s.last().0.atoms, k);
    }
}

proof fn lemma_count_step(atoms: Seq<(AtomV, int)>, k: AtomV, i: int)
    requires
        0 <= i < atoms.len(),
    ensures
        count_in(atoms.take(i + 1), k) == count_in(atoms.take(i), k) + if atoms[i].0 == k {
            atoms[i].1
        } else {
            0
        },
{
    assert(atoms.take(i + 1).drop_last() =~= atoms.take(i));
    assert(atoms.take(i + 1).last() == atoms[i]);
}

/// Total multiplicity of `key` in the molecule, or `None` when the sum
/// leaves `u64`.
#[verifier::loop_isolation(false)]
fn atom_count_in(m: &Molecule, key: &Atom) -> (r: Option<u64>)
    ensures
        r matches Some(v) ==> v == count_in(m@.atoms, key@),
        r is None ==> count_in(m@.atoms, key@) > u64::MAX,
{
    broadcast use lemma_entries_view_index;

    let ghost s = entries_view(m.atoms@);
    let mut acc: u64 = 0;
    let mut i: usize = 0;
    while i < m.atoms.len()
        invariant
            0 <= i <= m.atoms@.len(),
            s == entries_view(m.atoms@),
            s.len() == m.atoms@.len(),
            acc == count_in(s.take(i as int), key@),
        decreases m.atoms@.len() - i,
    {
        proof {
            lemma_count_step(s, key@, i as int);
            assert(s[i as int] == (m.atoms@[i as int].0@, m.atoms@[i as int].1 as int));
        }
        if m.atoms[i].0 == *key {
            let c: u64 = m.atoms[i].1 as u64;
            acc = match acc.checked_add(c) {
                Some(v) => v,
                None => {
                    proof {
                        lemma_count_prefix_le(s, key@, i + 1);
                    }
                    return None;
                },
            };
        }
        i = i + 1;
    }
    proof {
        assert(s.take(s.len() as int) =~= s);
    }
    Some(acc)
}

proof fn lemma_count_prefix_le(atoms: Seq<(AtomV, int)>, k: AtomV, i: int)
    requires
        0 <= i <= atoms.len(),
        nonneg_entries(atoms),
    ensures
        count_in(atoms.take(i), k) <= count_in(atoms, k),
    decreases atoms.len() - i,
{
    if i < atoms.len() {
        lemma_count_step(atoms, k, i);
        lemma_count_prefix_le(atoms, k, i + 1);
    } else {
        assert(atoms.take(i) =~= atoms);
    }
}

/// Every coefficient is non-negative and every entry's count and mass are
/// non-negative (the latter holds of any side built from machine values).
pub open spec fn nonneg_side(s: Seq<(MolV, int)>) -> bool {
    forall|i: int|
        0 <= i < s.len() ==> (#[trigger] s[i]).1 >= 0 && nonneg_entries(s[i].0.atoms)
}

proof fn lemma_count_in_nonneg(atoms: Seq<(AtomV, int)>, k: AtomV)
    requires
        nonneg_entries(atoms),
    ensures
        count_in(atoms, k) >= 0,
    decreases atoms.len(),
{
    if atoms.len() > 0 {
        assert(forall|j: int|
            0 <= j < atoms.drop_last().len() ==> (#[trigger] atoms.drop_last()[j]) == atoms[j]);
        lemma_count_in_nonneg(atoms.drop_last(), k);
        assert(atoms.last() == atoms[atoms.len() - 1]);
    }
}

proof fn lemma_side_sum_step(s: Seq<(MolV, int)>, k: AtomV, i: int)
    requires
        0 <= i < s.len(),
    ensures
        side_atom_sum(s.take(i + 1), k) == side_atom_sum(s.take(i), k) + s[i].1 * count_in(
            s[i].0.atoms,
            k,
        ),
{
    assert(s.take(i + 1).drop_last() =~= s.take(i));
    assert(s.take(i + 1).last() == s[i]);
}

/// With non-negative terms the per-key sums grow with the prefix.
proof fn lemma_side_sum_prefix_le(s: Seq<(MolV, int)>, k: AtomV, i: int)
    requires
        0 <= i <= s.len(),
        nonneg_side(s),
    ensures
        0 <= side_atom_sum(s.take(i), k) <= side_atom_sum(s, k),
    decreases s.len() - i,
{
    if i == 0 {
        assert(s.take(0) =~= Seq::<(MolV, int)>::empty());
    }
    if i < s.len() {
        lemma_side_sum_step(s, k, i);
        lemma_count_in_nonneg(s[i].0.atoms, k);
        assert(s[i].1 * count_in(s[i].0.atoms, k) >= 0) by (nonlinear_arith)
            requires
                s[i].1 >= 0 && count_in(s[i].0.atoms, k) >= 0,
        ;
        lemma_side_sum_prefix_le(s, k, i + 1);
        if i > 0 {
            lemma_nonneg_prefix(s, k, i);
        }
    } else {
        assert(s.take(i) =~= s);
        lemma_nonneg_prefix(s, k, i);
    }
}

proof fn lemma_nonneg_prefix(s: Seq<(MolV, int)>, k: AtomV, i: int)
    requires
        0 <= i <= s.len(),
        nonneg_side(s),
    ensures
        side_atom_sum(s.take(i), k) >= 0,
    decreases i,
{
    if i > 0 {
        lemma_side_sum_step(s, k, i - 1);
        lemma_count_in_nonneg(s[i - 1].0.atoms, k);
        assert(s[i - 1].1 * count_in(s[i - 1].0.atoms, k) >= 0) by (nonlinear_arith)
            requires
                s[i - 1].1 >= 0 && count_in(s[i - 1].0.atoms, k) >= 0,
        ;
        lemma_nonneg_prefix(s, k, i - 1);
    } else {
        assert(s.take(0) =~= Seq::<(MolV, int)>::empty());
    }
}

/// Sum of coefficient times multiplicity of `key` over one side of
/// non-negative coefficients: defined exactly when it stays within `i128`.
#[verifier::loop_isolation(false)]
fn side_sum_for_key(side: &Vec<(Molecule, i32)>, key: &Atom) -> (r: Option<i128>)
    requires
        forall|i: int| 0 <= i < side@.len() ==> (#[trigger] side@[i]).1 >= 0,
    ensures
        r matches Some(v) ==> v == side_atom_sum(pairs_view(side@), key@),
        (r is Some) <==> side_atom_sum(pairs_view(side@), key@) <= i128::MAX,
{
    broadcast use lemma_pairs_view_index, lemma_entries_view_index;

    let ghost s = pairs_view(side@);
    proof {
        assert(nonneg_side(s));
    }
    let mut acc: i128 = 0;
    let mut i: usize = 0;
    while i < side.len()
        invariant
            0 <= i <= side@.len(),
            s == pairs_view(side@),
            s.len() == side@.len(),
            nonneg_side(s),
            0 <= acc,
            acc == side_atom_sum(s.take(i as int), key@),
        decreases side@.len() - i,
    {
        proof {
            lemma_side_sum_step(s, key@, i as int);
            lemma_nonneg_prefix(s, key@, i + 1);
        }
        let cnt: u128 = count_of_key(&side[i].0, key);
        let coef: i128 = side[i].1 as i128;
        proof {
            assert(coef * (cnt as i128) <= 0x7fff_ffffi128
                * 0xffff_ffff_ffff_ffff_ffff_ffffi128) by (nonlinear_arith)
                requires
                    0 <= coef <= 0x7fff_ffffi128 && 0 <= cnt as i128
                        <= 0xffff_ffff_ffff_ffff_ffff_ffffi128,
            ;
            assert(coef * (cnt as i128) >= 0) by (nonlinear_arith)
                requires
                    coef >= 0 && cnt as i128 >= 0,
            ;
        }
        let term: i128 = coef * (cnt as i128);
        acc = match acc.checked_add(term) {
            Some(v) => v,
            None => {
                proof {
                    lemma_side_sum_prefix_le(s, key@, i + 1);
                }
                return None;
            },
        };
        i = i + 1;
    }
    proof {
        assert(s.take(s.len() as int) =~= s);
    }
    Some(acc)
}

/// Sum of coefficient times net charge over one side; the magnitude is
/// bounded by the side's length, so the sum always fits.
#[verifier::loop_isolation(false)]
fn side_charge_total(side: &Vec<(Molecule, i32)>) -> (r: i128)
    ensures
        r == side_charge_sum(pairs_view(side@)),
{
    broadcast use lemma_pairs_view_index;

    let ghost s = pairs_view(side@);
    let mut acc: i128 = 0;
    let mut i: usize = 0;
    while i < side.len()
        invariant
            0 <= i <= side@.len(),
            s == pairs_view(side@),
            s.len() == side@.len(),
            acc == side_charge_sum(s.take(i as int)),
            abs(acc as int) <= i * 0x4000_0000_0000_0000,
        decreases side@.len() - i,
    {
        proof {
            assert(s.take(i + 1).drop_last() =~= s.take(i as int));
            assert(s.take(i + 1).last() == s[i as int]);
        }
        let coef: i128 = side[i].1 as i128;
        let charge: i128 = side[i].0.charge as i128;
        proof {
            assert(abs(coef * charge) <= 0x4000_0000_0000_0000i128) by (nonlinear_arith)
                requires
                    -0x8000_0000i128 <= coef <= 0x8000_0000i128 && -0x8000_0000i128 <= charge
                        <= 0x8000_0000i128,
            ;
            assert((i + 1) * 0x4000_0000_0000_0000 < i128::MAX) by (nonlinear_arith)
                requires
                    0 <= i + 1 <= 0x1_0000_0000_0000_0000i128,
            ;
            assert(i * 0x4000_0000_0000_0000 + 0x4000_0000_0000_0000 == (i + 1)
                * 0x4000_0000_0000_0000) by (nonlinear_arith);
        }
        let term: i128 = coef * charge;
        acc = acc + term;
        i = i + 1;
    }
    proof {
        assert(s.take(s.len() as int) =~= s);
    }
    acc
}

/// Every atom of every molecule on either side, with repeats.
#[verifier::loop_isolation(false)]
fn collect_side_atoms(side: &Vec<(Molecule, i32)>, out: &mut Vec<Atom>)
    ensures
        final(out)@.len() >= old(out)@.len(),
        forall|k: int|
            0 <= k < old(out)@.len() ==> #[trigger] final(out)@[k] == old(out)@[k],
        forall|k: AtomV|
            key_in_side(pairs_view(side@), k) ==> atom_seq_view(final(out)@).contains(k),
{
    broadcast use lemma_pairs_view_index, lemma_entries_view_index, lemma_atom_seq_view_index;

    let ghost s = pairs_view(side@);
    let mut i: usize = 0;
    while i < side.len()
        invariant
            0 <= i <= side@.len(),
            s == pairs_view(side@),
            s.len() == side@.len(),
            out@.len() >= old(out)@.len(),
            forall|k: int| 0 <= k < old(out)@.len() ==> #[trigger] out@[k] == old(out)@[k],
            forall|k: AtomV|
                key_in_side(s.take(i as int), k) ==> atom_seq_view(out@).contains(k),
        decreases side@.len() - i,
    {
        let mol = &side[i].0;
        let ghost entries = s[i as int].0.atoms;
        proof {
            assert(entries == entries_view(mol.atoms@));
        }
        let mut j: usize = 0;
        while j < mol.atoms.len()
            invariant
                0 <= j <= mol.atoms@.len(),
                entries == entries_view(mol.atoms@),
                entries.len() == mol.atoms@.len(),
                out@.len() >= old(out)@.len(),
                forall|k: int| 0 <= k < old(out)@.len() ==> #[trigger] out@[k] == old(out)@[k],
                forall|k: AtomV|
                    key_in_side(s.take(i as int), k) ==> atom_seq_view(out@).contains(k),
                forall|t: int|
                    0 <= t < j ==> atom_seq_view(out@).contains(
                        (#[trigger] entries[t]).0,
                    ),
            decreases mol.atoms@.len() - j,
        {
            let ghost before = atom_seq_view(out@);
            out.push(mol.atoms[j].0.clone());
            proof {
                assert(atom_seq_view(out@) =~= before.push(mol.atoms@[j as int].0@));
                assert(atom_seq_view(out@)[before.len() as int] == entries[j as int].0);
                assert(forall|t: int|
                    0 <= t < before.len() ==> #[trigger] atom_seq_view(out@)[t] == before[t]);
                assert(forall|k: AtomV|
                    before.contains(k) ==> atom_seq_view(out@).contains(k)) by {
                    assert forall|k: AtomV| before.contains(k) implies atom_seq_view(
                        out@,
                    ).contains(k) by {
                        let t = choose|t: int| 0 <= t < before.len() && before[t] == k;
                        assert(atom_seq_view(out@)[t] == k);
                    }
                }
            }
            j = j + 1;
        }
        proof {
            assert forall|k: AtomV| key_in_side(s.take(i + 1), k) implies atom_seq_view(
                out@,
            ).contains(k) by {
                let t = choose|t: int|
                    0 <= t < s.take(i + 1).len() && key_in_entries(
                        (#[trigger] s.take(i + 1)[t]).0.atoms,
                        k,
                    );
                if t < i {
                    assert(s.take(i as int)[t] == s.take(i + 1)[t]);
                    assert(key_in_side(s.take(i as int), k));
                } else {
                    assert(s.take(i + 1)[t] == s[i as int]);
                    let u = choose|u: int|
                        0 <= u < entries.len() && (#[trigger] entries[u]).0 == k;
                    assert(atom_seq_view(out@).contains(entries[u].0));
                }
            }
        }
        i = i + 1;
    }
    proof {
        assert(s.take(s.len() as int) =~= s);
    }
}

/// Atom and charge conservation: the two sides agree on the sum for every
/// atom key and on the total charge.
pub open spec fn spec_conserved(lp: Seq<(MolV, int)>, rp: Seq<(MolV, int)>) -> bool {
    &&& forall|k: AtomV| #[trigger] side_atom_sum(lp, k) == side_atom_sum(rp, k)
    &&& side_charge_sum(lp) == side_charge_sum(rp)
}

/// Every per-key sum of either side stays within `i128` (with non-negative
/// coefficients the sums are non-negative, so this is the only way the
/// checker's arithmetic could fall short).
pub open spec fn spec_sums_fit(lp: Seq<(MolV, int)>, rp: Seq<(MolV, int)>) -> bool {
    forall|k: AtomV|
        #[trigger] side_atom_sum(lp, k) <= i128::MAX && side_atom_sum(rp, k) <= i128::MAX
}

/// Decides whether the two coefficiented sides conserve every atom key and
/// the total charge.
#[verifier::loop_isolation(false)]
fn check_balanced_sides(lhs: &Vec<(Molecule, i32)>, rhs: &Vec<(Molecule, i32)>) -> (r: bool)
    requires
        forall|i: int| 0 <= i < lhs@.len() ==> (#[trigger] lhs@[i]).1 >= 0,
        forall|i: int| 0 <= i < rhs@.len() ==> (#[trigger] rhs@[i]).1 >= 0,
    ensures
        r == (spec_conserved(pairs_view(lhs@), pairs_view(rhs@)) && spec_sums_fit(
            pairs_view(lhs@),
            pairs_view(rhs@),
        )),
{
    broadcast use lemma_atom_seq_view_index;

    let mut keys: Vec<Atom> = Vec::new();
    collect_side_atoms(lhs, &mut keys);
    let ghost keys1 = keys@;
    collect_side_atoms(rhs, &mut keys);
    let ghost kv = atom_seq_view(keys@);
    proof {
        assert forall|k: AtomV| key_in_side(pairs_view(lhs@), k) implies kv.contains(k) by {
            assert(atom_seq_view(keys1).contains(k));
            let u = choose|u: int|
                0 <= u < atom_seq_view(keys1).len() && atom_seq_view(keys1)[u] == k;
            assert(keys@[u] == keys1[u]);
            assert(kv[u] == k);
        }
    }
    let mut t: usize = 0;
    while t < keys.len()
        invariant
            0 <= t <= keys@.len(),
            kv == atom_seq_view(keys@),
            kv.len() == keys@.len(),
            forall|u: int|
                0 <= u < t ==> #[trigger] side_atom_sum(pairs_view(lhs@), kv[u]) == side_atom_sum(
                    pairs_view(rhs@),
                    kv[u],
                ),
            forall|u: int|
                0 <= u < t ==> #[trigger] side_atom_sum(pairs_view(lhs@), kv[u]) <= i128::MAX
                    && side_atom_sum(pairs_view(rhs@), kv[u]) <= i128::MAX,
        decreases keys@.len() - t,
    {
        let ls = match side_sum_for_key(lhs, &keys[t]) {
            Some(v) => v,
            None => {
                proof {
                    assert(side_atom_sum(pairs_view(lhs@), keys@[t as int]@) > i128::MAX);
                    assert(kv[t as int] == keys@[t as int]@);
                    assert(!spec_sums_fit(pairs_view(lhs@), pairs_view(rhs@)));
                }
                return false;
            },
        };
        let rs = match side_sum_for_key(rhs, &keys[t]) {
            Some(v) => v,
            None => {
                proof {
                    assert(side_atom_sum(pairs_view(rhs@), keys@[t as int]@) > i128::MAX);
                    assert(kv[t as int] == keys@[t as int]@);
                    assert(!spec_sums_fit(pairs_view(lhs@), pairs_view(rhs@)));
                }
                return false;
            },
        };
        if ls != rs {
            proof {
                assert(side_atom_sum(pairs_view(lhs@), keys@[t as int]@) != side_atom_sum(
                    pairs_view(rhs@),
                    keys@[t as int]@,
                ));
                assert(!spec_conserved(pairs_view(lhs@), pairs_view(rhs@)));
            }
            return false;
        }
        t = t + 1;
    }
    let lc = side_charge_total(lhs);
    let rc = side_charge_total(rhs);
    if lc != rc {
        proof {
            assert(!spec_conserved(pairs_view(lhs@), pairs_view(rhs@)));
        }
        return false;
    }
    proof {
        assert forall|k: AtomV| #[trigger] side_atom_sum(pairs_view(lhs@), k) == side_atom_sum(
            pairs_view(rhs@),
            k,
        ) && side_atom_sum(pairs_view(lhs@), k) <= i128::MAX && side_atom_sum(
            pairs_view(rhs@),
            k,
        ) <= i128::MAX by {
            if key_in_side(pairs_view(lhs@), k) || key_in_side(pairs_view(rhs@), k) {
                assert(kv.contains(k));
                let u = choose|u: int| 0 <= u < kv.len() && kv[u] == k;
                assert(side_atom_sum(pairs_view(lhs@), kv[u]) == side_atom_sum(
                    pairs_view(rhs@),
                    kv[u],
                ));
                assert(side_atom_sum(pairs_view(lhs@), kv[u]) <= i128::MAX && side_atom_sum(
                    pairs_view(rhs@),
                    kv[u],
                ) <= i128::MAX);
            } else {
                lemma_absent_side(pairs_view(lhs@), k);
                lemma_absent_side(pairs_view(rhs@), k);
            }
        }
    }
    true
}

/// A positioned error with a static message and no offset.
fn plain_error(msg: &str) -> (r: PositionedError)
    ensures
        r.0@ == msg@,
        r.1 is None,
{
    PositionedError(String::from_str(msg), None)
}

/// The diagonal of a matrix whose rows are fewer than its columns, as
/// integers.
pub open spec fn spec_diag(m: Matrix) -> Seq<int> {
    Seq::new(
        vstd::math::min(m.spec_n_rows(), m.spec_n_cols()) as nat,
        |i: int| m.grid()[i][i] as int,
    )
}

/// The lcm fold over the diagonal stays defined and within `i32`: no entry
/// is zero, and no prefix lcm leaves the range.
pub open spec fn spec_lcm_diag_ok(s: Seq<int>) -> bool {
    &&& forall|i: int| 0 <= i < s.len() ==> (#[trigger] s[i]) != 0
    &&& forall|i: int| 0 <= i <= s.len() ==> #[trigger] spec_lcm_seq(s.take(i)) <= i32::MAX
}

/// Coefficient `i` of the solution read off a diagonalized system: the
/// augmentation entry cross-multiplied by the lcm of the pivots, divided by
/// the pivot.
pub open spec fn spec_quot(g: Seq<Seq<i32>>, cols: int, i: int) -> int {
    div_t(
        -(g[i][cols - 1] as int) * spec_lcm_seq(spec_grid_diag(g)),
        g[i][i] as int,
    )
}

/// The diagonal of a grid with at least as many columns as rows.
pub open spec fn spec_grid_diag(g: Seq<Seq<i32>>) -> Seq<int> {
    Seq::new(g.len(), |i: int| g[i][i] as int)
}

/// Reading the solution off succeeds: the pivot lcm stays within `i32` and
/// every coefficient fits.
pub open spec fn spec_deduce_ok(g: Seq<Seq<i32>>, cols: int) -> bool {
    &&& spec_lcm_diag_ok(spec_grid_diag(g))
    &&& forall|i: int|
        0 <= i < g.len() ==> i32::MIN <= #[trigger] spec_quot(g, cols, i) <= i32::MAX
}

/// The solution vector read off a diagonalized system.
pub open spec fn spec_deduce_vec(g: Seq<Seq<i32>>, cols: int) -> Seq<int> {
    Seq::new(
        cols as nat,
        |i: int|
            if i < g.len() {
                spec_quot(g, cols, i)
            } else {
                spec_lcm_seq(spec_grid_diag(g)) as int
            },
    )
}

/// The conservation matrix can be built: the column count fits `usize`,
/// every multiplicity of a reactant-side atom key fits `i32` on both sides,
/// and no product charge is `i32::MIN`.
pub open spec fn spec_matrix_ok(raw: RawEquation) -> bool {
    let keys = spec_dedup(spec_all_keys(mols_view(raw.lhs@)));
    let nl = raw.lhs@.len() as int;
    let nr = raw.rhs@.len() as int;
    &&& nl + nr <= usize::MAX
    &&& forall|t: int, j: int|
        0 <= t < keys.len() && 0 <= j < nl ==> #[trigger] count_in(
            raw.lhs@[j]@.atoms,
            keys[t],
        ) <= i32::MAX
    &&& forall|t: int, j: int|
        0 <= t < keys.len() && 0 <= j < nr ==> #[trigger] count_in(
            raw.rhs@[j]@.atoms,
            keys[t],
        ) <= i32::MAX
    &&& forall|j: int| 0 <= j < nr ==> (#[trigger] raw.rhs@[j]@.charge) != i32::MIN
}

/// The conservation system as a grid: one row per distinct reactant-side
/// atom key, then the charge row; product columns negated (meaningful under
/// `spec_matrix_ok`).
pub open spec fn spec_system(raw: RawEquation) -> Seq<Seq<i32>> {
    let keys = spec_dedup(spec_all_keys(mols_view(raw.lhs@)));
    let nl = raw.lhs@.len() as int;
    let nr = raw.rhs@.len() as int;
    Seq::new(
        (keys.len() + 1) as nat,
        |t: int|
            Seq::new(
                (nl + nr) as nat,
                |j: int|
                    if t < keys.len() {
                        if j < nl {
                            count_in(raw.lhs@[j]@.atoms, keys[t]) as i32
                        } else {
                            (-count_in(raw.rhs@[j - nl]@.atoms, keys[t])) as i32
                        }
                    } else {
                        if j < nl {
                            raw.lhs@[j]@.charge as i32
                        } else {
                            (-raw.rhs@[j - nl]@.charge) as i32
                        }
                    },
            ),
    )
}

/// Builds the conservation matrix of a raw equation: one row per distinct
/// reactant-side atom, a final charge row; reactant columns positive,
/// product columns negated.  Fails when a count or charge leaves `i32`.
#[verifier::loop_isolation(false)]
pub fn matrix_for(raw_eq: &RawEquation) -> (r: Result<Matrix, PositionedError>)
    ensures
        r matches Ok(m) ==> {
            let keys = spec_dedup(spec_all_keys(mols_view(raw_eq.lhs@)));
            let nl = raw_eq.lhs@.len() as int;
            let nr = raw_eq.rhs@.len() as int;
            &&& m.wf()
            &&& m.spec_n_rows() == keys.len() + 1
            &&& m.spec_n_cols() == nl + nr
            &&& forall|i: int, j: int|
                0 <= i < keys.len() && 0 <= j < nl + nr ==> (#[trigger] m.grid()[i][j]) as int
                    == (if j < nl {
                    count_in(raw_eq.lhs@[j]@.atoms, keys[i])
                } else {
                    -count_in(raw_eq.rhs@[j - nl]@.atoms, keys[i])
                })
            &&& forall|j: int|
                0 <= j < nl + nr ==> (#[trigger] m.grid()[keys.len() as int][j]) as int == (if j
                    < nl {
                    raw_eq.lhs@[j]@.charge
                } else {
                    -raw_eq.rhs@[j - nl]@.charge
                })
        },
        r matches Err(e) ==> e.1 is None && (e.0@ == "equation too large"@ || e.0@
            == "atom count out of range"@ || e.0@ == "charge out of range"@),
        (r is Ok) <==> spec_matrix_ok(*raw_eq),
        r matches Ok(m) ==> m.grid() == spec_system(*raw_eq),
{
    broadcast use lemma_mols_view_index, lemma_atom_seq_view_index,
        crate::lin_alg::lemma_grid_index;

    let ghost keysv = spec_dedup(spec_all_keys(mols_view(raw_eq.lhs@)));
    let keys = raw_eq.all_atoms_set();
    let nl = raw_eq.lhs.len();
    let nr = raw_eq.rhs.len();
    let n_cols = match nl.checked_add(nr) {
        Some(c) => c,
        None => {
            proof {
                assert(!spec_matrix_ok(*raw_eq));
            }
            return Err(plain_error("equation too large"));
        },
    };
    let mut rows: Vec<Vec<i32>> = Vec::new();
    let mut i: usize = 0;
    while i < keys.len()
        invariant
            0 <= i <= keys@.len(),
            keysv == atom_seq_view(keys@),
            keysv.len() == keys@.len(),
            nl == raw_eq.lhs@.len(),
            nr == raw_eq.rhs@.len(),
            nl + nr == n_cols,
            rows@.len() == i,
            forall|t: int| 0 <= t < i ==> (#[trigger] rows@[t])@.len() == n_cols,
            forall|t: int, j: int|
                0 <= t < i && 0 <= j < n_cols ==> (#[trigger] rows@[t]@[j]) as int == (if j
                    < nl {
                    count_in(raw_eq.lhs@[j]@.atoms, keysv[t])
                } else {
                    -count_in(raw_eq.rhs@[j - nl]@.atoms, keysv[t])
                }),
            forall|t: int, u: int|
                0 <= t < i && 0 <= u < nr ==> #[trigger] count_in(
                    raw_eq.rhs@[u]@.atoms,
                    keysv[t],
                ) <= i32::MAX,
        decreases keys@.len() - i,
    {
        let key = &keys[i];
        let mut row: Vec<i32> = Vec::new();
        let mut j: usize = 0;
        while j < nl
            invariant
                0 <= j <= nl,
                row@.len() == j,
                forall|u: int|
                    0 <= u < j ==> (#[trigger] row@[u]) as int == count_in(
                        raw_eq.lhs@[u]@.atoms,
                        keysv[i as int],
                    ),
            decreases nl - j,
        {
            let c = match atom_count_in(&raw_eq.lhs[j], key) {
                Some(c) => c,
                None => {
                    proof {
                        assert(count_in(raw_eq.lhs@[j as int]@.atoms, keysv[i as int])
                            > i32::MAX);
                        assert(!spec_matrix_ok(*raw_eq));
                    }
                    return Err(plain_error("atom count out of range"));
                },
            };
            if c > i32::MAX as u64 {
                proof {
                    assert(!spec_matrix_ok(*raw_eq));
                }
                return Err(plain_error("atom count out of range"));
            }
            row.push(c as i32);
            j = j + 1;
        }
        let mut j2: usize = 0;
        while j2 < nr
            invariant
                0 <= j2 <= nr,
                row@.len() == nl + j2,
                forall|u: int|
                    0 <= u < nl ==> (#[trigger] row@[u]) as int == count_in(
                        raw_eq.lhs@[u]@.atoms,
                        keysv[i as int],
                    ),
                forall|u: int|
                    nl <= u < nl + j2 ==> (#[trigger] row@[u]) as int == -count_in(
                        raw_eq.rhs@[u - nl]@.atoms,
                        keysv[i as int],
                    ),
                forall|u: int|
                    0 <= u < j2 ==> #[trigger] count_in(
                        raw_eq.rhs@[u]@.atoms,
                        keysv[i as int],
                    ) <= i32::MAX,
            decreases nr - j2,
        {
            let c = match atom_count_in(&raw_eq.rhs[j2], key) {
                Some(c) => c,
                None => {
                    proof {
                        assert(count_in(raw_eq.rhs@[j2 as int]@.atoms, keysv[i as int])
                            > i32::MAX);
                        assert(!spec_matrix_ok(*raw_eq));
                    }
                    return Err(plain_error("atom count out of range"));
                },
            };
            if c > i32::MAX as u64 {
                proof {
                    assert(!spec_matrix_ok(*raw_eq));
                }
                return Err(plain_error("atom count out of range"));
            }
            row.push(-(c as i32));
            j2 = j2 + 1;
        }
        rows.push(row);
        i = i + 1;
    }
    let mut charges_row: Vec<i32> = Vec::new();
    let mut j: usize = 0;
    while j < nl
        invariant
            0 <= j <= nl,
            nl == raw_eq.lhs@.len(),
            charges_row@.len() == j,
            forall|u: int|
                0 <= u < j ==> (#[trigger] charges_row@[u]) as int == raw_eq.lhs@[u]@.charge,
        decreases nl - j,
    {
        charges_row.push(raw_eq.lhs[j].charge);
        j = j + 1;
    }
    let mut j2: usize = 0;
    while j2 < nr
        invariant
            0 <= j2 <= nr,
            nl == raw_eq.lhs@.len(),
            nr == raw_eq.rhs@.len(),
            charges_row@.len() == nl + j2,
            forall|u: int|
                0 <= u < nl ==> (#[trigger] charges_row@[u]) as int == raw_eq.lhs@[u]@.charge,
            forall|u: int|
                nl <= u < nl + j2 ==> (#[trigger] charges_row@[u]) as int
                    == -raw_eq.rhs@[u - nl]@.charge,
        decreases nr - j2,
    {
        let ch = raw_eq.rhs[j2].charge;
        if ch == i32::MIN {
            proof {
                assert(raw_eq.rhs@[j2 as int]@.charge == i32::MIN);
                assert(!spec_matrix_ok(*raw_eq));
            }
            return Err(plain_error("charge out of range"));
        }
        charges_row.push(-ch);
        j2 = j2 + 1;
    }
    rows.push(charges_row);
    let m = Matrix::of_row_major(&rows);
    proof {
        assert forall|t: int, j: int|
            0 <= t < keysv.len() && 0 <= j < nl implies #[trigger] count_in(
            raw_eq.lhs@[j]@.atoms,
            keysv[t],
        ) <= i32::MAX by {
            assert(rows@[t]@[j] as int == count_in(raw_eq.lhs@[j]@.atoms, keysv[t]));
        }
        assert(forall|t: int, j: int|
            0 <= t < keysv.len() && 0 <= j < nr ==> #[trigger] count_in(
                raw_eq.rhs@[j]@.atoms,
                keysv[t],
            ) <= i32::MAX);
        assert forall|j: int| 0 <= j < nr implies (#[trigger] raw_eq.rhs@[j]@.charge)
            != i32::MIN by {
            assert(rows@[keysv.len() as int]@[nl + j] as int == -raw_eq.rhs@[j]@.charge);
        }
        assert(spec_matrix_ok(*raw_eq));
        assert forall|t: int| 0 <= t < m.grid().len() implies #[trigger] m.grid()[t]
            =~= spec_system(*raw_eq)[t] by {
            assert(m.grid()[t] == rows@[t]@);
        }
        assert(m.grid() =~= spec_system(*raw_eq));
    }
    Ok(m)
}

/// The least common multiple of the diagonal entries, or `None` when an
/// entry is zero or the result leaves `i32`.
#[verifier::loop_isolation(false)]
fn lcm_diag(diag: &Vec<i32>) -> (r: Option<i32>)
    ensures
        r matches Some(l) ==> {
            &&& l as int == spec_lcm_seq(int_view(diag@))
            &&& l >= 1
            &&& forall|i: int| 0 <= i < diag@.len() ==> (#[trigger] diag@[i]) != 0
        },
        (r is Some) <==> spec_lcm_diag_ok(int_view(diag@)),
{
    let ghost s = int_view(diag@);
    let mut acc: u64 = 1;
    let mut i: usize = 0;
    while i < diag.len()
        invariant
            0 <= i <= diag@.len(),
            s == int_view(diag@),
            s.len() == diag@.len(),
            1 <= acc <= i32::MAX as u64,
            acc == spec_lcm_seq(s.take(i as int)),
            forall|t: int| 0 <= t < i ==> (#[trigger] diag@[t]) != 0,
            forall|t: int| 0 <= t <= i ==> #[trigger] spec_lcm_seq(s.take(t)) <= i32::MAX,
        decreases diag@.len() - i,
    {
        proof {
            assert(s.take(i + 1).drop_last() =~= s.take(i as int));
            assert(s.take(i + 1).last() == s[i as int]);
        }
        let d = diag[i];
        if d == 0 {
            proof {
                assert(s[i as int] == 0);
                assert(!spec_lcm_diag_ok(s));
            }
            return None;
        }
        let ud = abs_u64(d);
        let g = gcd_u64(acc, ud);
        proof {
            lemma_gcd_basics(acc as nat, ud as nat);
            assert(acc * ud <= 0x7fff_ffff * 0x8000_0000u64) by (nonlinear_arith)
                requires
                    acc <= 0x7fff_ffffu64 && ud <= 0x8000_0000u64,
            ;
            assert(acc * ud >= g) by (nonlinear_arith)
                requires
                    acc >= 1 && ud >= 1 && g <= ud,
            ;
            assert((acc * ud) as int / (g as int) >= 1) by (nonlinear_arith)
                requires
                    acc * ud >= g && g >= 1,
            ;
        }
        let next = (acc * ud) / g;
        if next > i32::MAX as u64 {
            proof {
                assert(spec_lcm_seq(s.take(i + 1)) > i32::MAX);
                assert(!spec_lcm_diag_ok(s));
            }
            return None;
        }
        acc = next;
        i = i + 1;
    }
    proof {
        assert(s.take(s.len() as int) =~= s);
        assert(spec_lcm_diag_ok(s));
    }
    Some(acc as i32)
}

/// From a diagonalized square-plus-augmentation matrix (one more column
/// than rows), reads off the integer solution: coefficient i is
/// `-b_i * L / d_i` with `L` the lcm of the pivots, and the last
/// coefficient is `L` itself.
#[verifier::loop_isolation(false)]
fn deduce_sols(matrix: &Matrix) -> (r: Option<Vec<i32>>)
    requires
        matrix.wf(),
        matrix.spec_n_rows() + 1 == matrix.spec_n_cols(),
    ensures
        r matches Some(v) ==> {
            let ll = spec_lcm_seq(spec_diag(*matrix));
            &&& v@.len() == matrix.spec_n_cols()
            &&& v@[matrix.spec_n_rows()] as int == ll
            &&& ll >= 1
            &&& forall|i: int|
                0 <= i < matrix.spec_n_rows() ==> (#[trigger] v@[i]) as int == div_t(
                    -(matrix.grid()[i][matrix.spec_n_cols() - 1] as int) * ll,
                    matrix.grid()[i][i] as int,
                )
        },
        (r is Some) <==> spec_deduce_ok(matrix.grid(), matrix.spec_n_cols()),
        r matches Some(v) ==> int_view(v@) == spec_deduce_vec(
            matrix.grid(),
            matrix.spec_n_cols(),
        ),
{
    let n_rows = matrix.n_rows();
    let n_cols = matrix.n_cols();
    let diag = matrix.diagonal();
    let last_col = matrix.column(n_cols - 1);
    proof {
        assert(int_view(diag@) =~= spec_diag(*matrix));
        assert(spec_diag(*matrix) =~= spec_grid_diag(matrix.grid()));
    }
    let l = match lcm_diag(&diag) {
        Some(l) => l,
        None => {
            proof {
                assert(!spec_lcm_diag_ok(spec_grid_diag(matrix.grid())));
            }
            return None;
        },
    };
    let mut out: Vec<i32> = Vec::new();
    let mut i: usize = 0;
    while i < n_rows
        invariant
            0 <= i <= n_rows,
            n_rows == matrix.spec_n_rows(),
            n_cols == matrix.spec_n_cols(),
            diag@.len() == n_rows,
            last_col@.len() == n_rows,
            forall|t: int| 0 <= t < n_rows ==> diag@[t] == matrix.grid()[t][t],
            forall|t: int|
                0 <= t < n_rows ==> last_col@[t] == matrix.grid()[t][n_cols - 1],
            forall|t: int| 0 <= t < n_rows ==> (#[trigger] diag@[t]) != 0,
            1 <= l,
            l as int == spec_lcm_seq(spec_diag(*matrix)),
            out@.len() == i,
            forall|t: int|
                0 <= t < i ==> (#[trigger] out@[t]) as int == div_t(
                    -(matrix.grid()[t][n_cols - 1] as int) * (l as int),
                    matrix.grid()[t][t] as int,
                ),
            forall|t: int|
                0 <= t < i ==> (#[trigger] out@[t]) as int == spec_quot(
                    matrix.grid(),
                    n_cols as int,
                    t,
                ),
            spec_lcm_diag_ok(spec_grid_diag(matrix.grid())),
        decreases n_rows - i,
    {
        let b = last_col[i];
        let nb: i64 = -(b as i64);
        proof {
            assert(abs(nb as int * (l as i64) as int) <= 0x8000_0000i64 * 0x7fff_ffffi64)
                by (nonlinear_arith)
                requires
                    -0x8000_0000i64 <= nb <= 0x8000_0000i64 && 0 <= (l as i64)
                        <= 0x7fff_ffffi64,
            ;
        }
        let num: i64 = nb * (l as i64);
        let q: i64 = match num.checked_div(diag[i] as i64) {
            Some(q) => q,
            None => 0,  // unreachable: the divisor is non-zero
        };
        proof {
            assert(q as int == spec_quot(matrix.grid(), n_cols as int, i as int));
        }
        if q < i32::MIN as i64 || q > i32::MAX as i64 {
            proof {
                assert(!spec_deduce_ok(matrix.grid(), matrix.spec_n_cols()));
            }
            return None;
        }
        out.push(q as i32);
        i = i + 1;
    }
    out.push(l);
    proof {
        assert forall|t: int| 0 <= t < matrix.grid().len() implies i32::MIN <= #[trigger] spec_quot(
            matrix.grid(),
            n_cols as int,
            t,
        ) <= i32::MAX by {
            assert(out@[t] as int == spec_quot(matrix.grid(), n_cols as int, t));
        }
        assert(spec_deduce_ok(matrix.grid(), matrix.spec_n_cols()));
        assert(int_view(out@) =~= spec_deduce_vec(matrix.grid(), matrix.spec_n_cols()));
    }
    Some(out)
}

/// The diagonalized conservation system with its all-zero rows (redundant
/// constraints) dropped.
pub open spec fn spec_reduced(raw: RawEquation) -> Seq<Seq<i32>> {
    keep_nonzero_rows(
        spec_diagonalize(
            spec_system(raw),
            spec_system(raw).len() as int,
            (raw.lhs@.len() + raw.rhs@.len()) as int,
        )->Some_0,
    )
}

/// The pipeline yields the unique solution vector: the matrix can be
/// built, the exact elimination succeeds, exactly one degree of freedom
/// remains, and reading the solution off stays within `i32`.
pub open spec fn spec_solution_ok(raw: RawEquation) -> bool {
    let c = raw.lhs@.len() + raw.rhs@.len() as int;
    &&& spec_matrix_ok(raw)
    &&& spec_diagonalize(spec_system(raw), spec_system(raw).len() as int, c as int) is Some
    &&& spec_reduced(raw).len() >= 1
    &&& spec_reduced(raw).len() + 1 == c
    &&& spec_deduce_ok(spec_reduced(raw), c as int)
}

/// The system is underconstrained: it can be built and eliminated, but more
/// than one degree of freedom remains.
pub open spec fn spec_underconstrained(raw: RawEquation) -> bool {
    let c = raw.lhs@.len() + raw.rhs@.len() as int;
    &&& spec_matrix_ok(raw)
    &&& spec_diagonalize(spec_system(raw), spec_system(raw).len() as int, c as int) is Some
    &&& spec_reduced(raw).len() + 1 < c
}

/// Runs the full pipeline from a raw equation to the unique (up to scale)
/// solution vector: build the matrix, diagonalize it, drop redundant rows,
/// and classify the system by its remaining rank.
pub fn solution_vec_for_balancing_of(raw_eq: &RawEquation) -> (r: Result<
    Vec<i32>,
    PositionedError,
>)
    ensures
        r matches Ok(v) ==> v@.len() == raw_eq.lhs@.len() + raw_eq.rhs@.len(),
        r matches Err(e) ==> e.1 is None && (e.0@ == "solving failed, underconstrained equation"@
            || e.0@ == "cannot balance equation"@ || e.0@ == "equation too large"@ || e.0@
            == "atom count out of range"@ || e.0@ == "charge out of range"@),
        (r is Ok) <==> spec_solution_ok(*raw_eq),
        r matches Ok(v) ==> int_view(v@) == spec_deduce_vec(
            spec_reduced(*raw_eq),
            (raw_eq.lhs@.len() + raw_eq.rhs@.len()) as int,
        ),
        r matches Err(e) ==> (e.0@ == "solving failed, underconstrained equation"@
            <==> spec_underconstrained(*raw_eq)),
        r matches Err(e) ==> (!spec_matrix_ok(*raw_eq) ==> (e.0@ == "equation too large"@
            || e.0@ == "atom count out of range"@ || e.0@ == "charge out of range"@)),
{
    proof {
        reveal_strlit("solving failed, underconstrained equation");
        reveal_strlit("cannot balance equation");
        reveal_strlit("equation too large");
        reveal_strlit("atom count out of range");
        reveal_strlit("charge out of range");
        broadcast use vstd::string::group_string_axioms;

        assert("solving failed, underconstrained equation"@.len() == 41);
        assert("cannot balance equation"@.len() == 23);
        assert("equation too large"@.len() == 18);
        assert("atom count out of range"@.len() == 23);
        assert("charge out of range"@.len() == 19);
        assert("cannot balance equation"@[0] == 'c' && "atom count out of range"@[0] == 'a');
    }
    let matrix = match matrix_for(raw_eq) {
        Ok(m) => m,
        Err(e) => {
            return Err(e);
        },
    };
    let n_cols = matrix.n_cols();
    let ghost c = (raw_eq.lhs@.len() + raw_eq.rhs@.len()) as int;
    proof {
        assert(matrix.grid() == spec_system(*raw_eq));
        assert(matrix.grid()[0] =~= spec_system(*raw_eq)[0]);
        assert(matrix.spec_n_cols() == c);
        assert(matrix.spec_n_rows() == spec_system(*raw_eq).len() as int);
        assert(spec_diagonalize(
            matrix.grid(),
            matrix.spec_n_rows(),
            matrix.spec_n_cols(),
        ) == spec_diagonalize(spec_system(*raw_eq), spec_system(*raw_eq).len() as int, c));
    }
    let diagonalized = match matrix.diagonalized() {
        Ok(m) => m,
        Err(_) => {
            proof {
                assert(spec_diagonalize(
                    spec_system(*raw_eq),
                    spec_system(*raw_eq).len() as int,
                    c,
                ) is None);
            }
            return Err(plain_error("cannot balance equation"));
        },
    };
    proof {
        assert(diagonalized.grid() == spec_diagonalize(
            spec_system(*raw_eq),
            spec_system(*raw_eq).len() as int,
            c,
        )->Some_0);
    }
    let reduced = diagonalized.without_full_zero_rows();
    let n_rows = reduced.n_rows();
    proof {
        assert(reduced.grid() == spec_reduced(*raw_eq));
    }
    if n_rows == 0 {
        if n_cols > 1 {
            return Err(plain_error("solving failed, underconstrained equation"));
        } else {
            return Err(plain_error("cannot balance equation"));
        }
    }
    proof {
        assert(reduced.grid()[0].len() == matrix.spec_n_cols());
        assert(reduced.spec_n_cols() == n_cols);
        assert(reduced.wf());
    }
    if n_rows >= n_cols {
        Err(plain_error("cannot balance equation"))
    } else if n_rows + 1 < n_cols {
        Err(plain_error("solving failed, underconstrained equation"))
    } else {
        match deduce_sols(&reduced) {
            Some(v) => Ok(v),
            None => Err(plain_error("cannot balance equation")),
        }
    }
}

proof fn lemma_gcd_seq_pos(s: Seq<int>)
    requires
        s.len() >= 1,
        forall|i: int| 0 <= i < s.len() ==> #[trigger] s[i] >= 1,
    ensures
        spec_gcd_seq(s) >= 1,
{
    lemma_gcd_basics(spec_gcd_seq(s.drop_last()), abs(s.last()) as nat);
    assert(s.last() == s[s.len() - 1]);
}

/// The coefficient vector divided entry-wise by its overall gcd.
pub open spec fn spec_normalized(v: Seq<int>) -> Seq<int> {
    Seq::new(v.len(), |i: int| div_t(v[i], spec_gcd_seq(v) as int))
}

/// Balancing succeeds: the pipeline yields the unique solution vector, all
/// its entries are positive, and after dividing by their overall gcd the
/// coefficients are still positive, conserve every atom key and the net
/// charge (with sums within range), and have gcd one.
pub open spec fn spec_balance_ok(raw: RawEquation) -> bool {
    let c = (raw.lhs@.len() + raw.rhs@.len()) as int;
    let sol = spec_deduce_vec(spec_reduced(raw), c);
    let w = spec_normalized(sol);
    let nl = raw.lhs@.len() as int;
    let lp = zip_coefs(mols_view(raw.lhs@), w.take(nl));
    let rp = zip_coefs(mols_view(raw.rhs@), w.skip(nl));
    &&& spec_solution_ok(raw)
    &&& forall|i: int| 0 <= i < sol.len() ==> #[trigger] sol[i] >= 1
    &&& forall|i: int| 0 <= i < w.len() ==> #[trigger] w[i] >= 1
    &&& spec_conserved(lp, rp)
    &&& spec_sums_fit(lp, rp)
    &&& spec_gcd_seq(w) == 1
}

/// Balances a raw equation: solves for the coefficients, divides out their
/// overall gcd, and verifies, before returning, that they conserve every
/// atom and the net charge, are all positive, and have gcd one.
#[verifier::loop_isolation(false)]
#[verifier::rlimit(60)]
pub fn balance(raw_eq: &RawEquation) -> (r: Result<BalancedEquation, PositionedError>)
    ensures
        r matches Ok(b) ==> {
            let c = (raw_eq.lhs@.len() + raw_eq.rhs@.len()) as int;
            let w = spec_normalized(spec_deduce_vec(spec_reduced(*raw_eq), c));
            &&& spec_balanced_wf(b)
            &&& b.lhs@.len() == raw_eq.lhs@.len()
            &&& b.rhs@.len() == raw_eq.rhs@.len()
            &&& forall|i: int|
                0 <= i < b.lhs@.len() ==> (#[trigger] b.lhs@[i]).0@ == raw_eq.lhs@[i]@
            &&& forall|i: int|
                0 <= i < b.rhs@.len() ==> (#[trigger] b.rhs@[i]).0@ == raw_eq.rhs@[i]@
            &&& forall|i: int| 0 <= i < b.lhs@.len() ==> (#[trigger] b.lhs@[i]).1 == w[i]
            &&& forall|i: int|
                0 <= i < b.rhs@.len() ==> (#[trigger] b.rhs@[i]).1 == w[raw_eq.lhs@.len() + i]
            &&& b.arrow@ == raw_eq.arrow@
        },
        (r is Ok) <==> spec_balance_ok(*raw_eq),
        r matches Err(e) ==> e.1 is None && (e.0@ == "solving failed, underconstrained equation"@
            || e.0@ == "cannot balance equation"@ || e.0@ == "equation too large"@ || e.0@
            == "atom count out of range"@ || e.0@ == "charge out of range"@),
        r matches Err(e) ==> (e.0@ == "solving failed, underconstrained equation"@
            <==> spec_underconstrained(*raw_eq)),
        r matches Err(e) ==> (!spec_matrix_ok(*raw_eq) ==> (e.0@ == "equation too large"@
            || e.0@ == "atom count out of range"@ || e.0@ == "charge out of range"@)),
{
    broadcast use lemma_pairs_view_index, lemma_mols_view_index;

    proof {
        reveal_strlit("solving failed, underconstrained equation");
        reveal_strlit("cannot balance equation");
        broadcast use vstd::string::group_string_axioms;

        assert("solving failed, underconstrained equation"@.len() == 41);
        assert("cannot balance equation"@.len() == 23);
    }
    let solution_vec = match solution_vec_for_balancing_of(raw_eq) {
        Ok(v) => v,
        Err(e) => {
            return Err(e);
        },
    };
    let nl = raw_eq.lhs.len();
    let nr = raw_eq.rhs.len();
    let total = solution_vec.len();
    let ghost c = (raw_eq.lhs@.len() + raw_eq.rhs@.len()) as int;
    let ghost sol = spec_deduce_vec(spec_reduced(*raw_eq), c);
    proof {
        assert(total == nl + nr);
        assert(int_view(solution_vec@) == sol);
        assert(!spec_underconstrained(*raw_eq));
    }
    // the raw solution must be positive throughout
    let mut t: usize = 0;
    while t < total
        invariant
            0 <= t <= total,
            forall|u: int| 0 <= u < t ==> #[trigger] sol[u] >= 1,
        decreases total - t,
    {
        if solution_vec[t] < 1 {
            proof {
                assert(sol[t as int] < 1);
                assert(!spec_balance_ok(*raw_eq));
            }
            return Err(plain_error("cannot balance equation"));
        }
        t = t + 1;
    }
    // divide out the overall gcd, so the returned coefficients are minimal
    proof {
        assert forall|u: int| 0 <= u < solution_vec@.len() implies solution_vec@[u]
            != i32::MIN by {
            assert(sol[u] == solution_vec@[u] as int);
        }
    }
    let g = gcd_vec(&solution_vec);
    proof {
        lemma_gcd_seq_pos(sol);
    }
    let ghost w_spec = spec_normalized(sol);
    let mut w: Vec<i32> = Vec::new();
    let mut i: usize = 0;
    while i < total
        invariant
            0 <= i <= total,
            total == solution_vec@.len(),
            sol == int_view(solution_vec@),
            forall|u: int| 0 <= u < total ==> #[trigger] sol[u] >= 1,
            g as int == spec_gcd_seq(sol),
            g >= 1,
            w_spec == spec_normalized(sol),
            w@.len() == i,
            forall|u: int|
                0 <= u < i ==> (#[trigger] w@[u]) as int == w_spec[u] && w@[u] >= 1,
        decreases total - i,
    {
        let v64: i64 = solution_vec[i] as i64;
        let q: i64 = match v64.checked_div(g as i64) {
            Some(q) => q,
            None => 0,  // unreachable: the divisor is positive
        };
        proof {
            assert(q as int == w_spec[i as int]);
            assert(0 <= v64 / (g as i64) <= v64) by (nonlinear_arith)
                requires
                    v64 >= 1 && g as i64 >= 1,
            ;
        }
        if q < 1 {
            proof {
                assert(w_spec[i as int] < 1);
                assert(!spec_balance_ok(*raw_eq));
            }
            return Err(plain_error("cannot balance equation"));
        }
        w.push(q as i32);
        i = i + 1;
    }
    // pair the coefficients back to their molecules, in the original order
    let mut lhs: Vec<(Molecule, i32)> = Vec::new();
    let mut a: usize = 0;
    while a < nl
        invariant
            0 <= a <= nl,
            nl == raw_eq.lhs@.len(),
            w@.len() == total,
            total == nl + nr,
            forall|u: int|
                0 <= u < total ==> (#[trigger] w@[u]) as int == w_spec[u] && w@[u] >= 1,
            lhs@.len() == a,
            forall|u: int|
                0 <= u < a ==> (#[trigger] lhs@[u]).0@ == raw_eq.lhs@[u]@ && lhs@[u].1 == w@[u],
        decreases nl - a,
    {
        lhs.push((raw_eq.lhs[a].clone(), w[a]));
        a = a + 1;
    }
    let mut rhs: Vec<(Molecule, i32)> = Vec::new();
    let mut b2: usize = 0;
    while b2 < nr
        invariant
            0 <= b2 <= nr,
            nl == raw_eq.lhs@.len(),
            nr == raw_eq.rhs@.len(),
            w@.len() == total,
            total == nl + nr,
            forall|u: int|
                0 <= u < total ==> (#[trigger] w@[u]) as int == w_spec[u] && w@[u] >= 1,
            rhs@.len() == b2,
            forall|u: int|
                0 <= u < b2 ==> (#[trigger] rhs@[u]).0@ == raw_eq.rhs@[u]@ && rhs@[u].1 == w@[nl
                    + u],
        decreases nr - b2,
    {
        rhs.push((raw_eq.rhs[b2].clone(), w[nl + b2]));
        b2 = b2 + 1;
    }
    proof {
        assert(pairs_view(lhs@) =~= zip_coefs(mols_view(raw_eq.lhs@), w_spec.take(nl as int)));
        assert(pairs_view(rhs@) =~= zip_coefs(mols_view(raw_eq.rhs@), w_spec.skip(nl as int)));
    }
    // the normalized coefficients must conserve every atom and the charge
    if !check_balanced_sides(&lhs, &rhs) {
        proof {
            assert(!spec_balance_ok(*raw_eq));
        }
        return Err(plain_error("cannot balance equation"));
    }
    // and their overall gcd must now be one
    let g2 = gcd_vec(&w);
    if g2 != 1 {
        proof {
            assert(int_view(w@) =~= w_spec);
            assert(!spec_balance_ok(*raw_eq));
        }
        return Err(plain_error("cannot balance equation"));
    }
    let b = BalancedEquation { lhs, rhs, arrow: raw_eq.arrow.clone() };
    proof {
        assert(int_view(w@) =~= w_spec);
        assert(int_view(w@) =~= coefs_of(pairs_view(b.lhs@)) + coefs_of(pairs_view(b.rhs@)));
        assert(spec_balance_ok(*raw_eq));
    }
    Ok(b)
}

/// Spec-level image of an exact rational: numerator and denominator.
pub ghost struct RatV {
    pub num: int,
    pub den: int,
}

/// An exact rational number; the quantity layer works on these so that no
/// floating point enters the core (a caller may divide the two fields at its
/// boundary).  The denominator is kept positive.
#[derive(Debug, Clone, Copy)]
pub struct Rational {
    pub num: i64,
    pub den: i64,
}

impl View for Rational {
    type V = RatV;

    open spec fn view(&self) -> RatV {
        RatV { num: self.num as int, den: self.den as int }
    }
}

impl Rational {
    /// Positive denominator.
    pub open spec fn wf(self) -> bool {
        self.den >= 1
    }

    /// The rational `n / 1`.
    pub fn from_int(n: i64) -> (r: Rational)
        ensures
            r.num == n,
            r.den == 1,
    {
        Rational { num: n, den: 1 }
    }
}

/// `a <= b` on rationals with positive denominators, by cross
/// multiplication.
pub open spec fn rat_le(a: RatV, b: RatV) -> bool {
    a.num * b.den <= b.num * a.den
}

/// Strict `a < b` on rationals with positive denominators.
pub open spec fn rat_lt(a: RatV, b: RatV) -> bool {
    a.num * b.den < b.num * a.den
}

/// Exact comparison of two rationals with positive denominators.
fn rat_lt_exec(a: &Rational, b: &Rational) -> (r: bool)
    requires
        a.wf(),
        b.wf(),
    ensures
        r == rat_lt(a@, b@),
{
    proof {
        assert(abs((a.num as i128) * (b.den as i128)) <= 0x8000_0000_0000_0000i128
            * 0x8000_0000_0000_0000i128) by (nonlinear_arith)
            requires
                abs(a.num as int) <= 0x8000_0000_0000_0000i128 && abs(b.den as int)
                    <= 0x8000_0000_0000_0000i128,
        ;
        assert(abs((b.num as i128) * (a.den as i128)) <= 0x8000_0000_0000_0000i128
            * 0x8000_0000_0000_0000i128) by (nonlinear_arith)
            requires
                abs(b.num as int) <= 0x8000_0000_0000_0000i128 && abs(a.den as int)
                    <= 0x8000_0000_0000_0000i128,
        ;
    }
    let x: i128 = (a.num as i128) * (b.den as i128);
    let y: i128 = (b.num as i128) * (a.den as i128);
    x < y
}

/// Spec-level image of a quantity: exact value and unit.
pub ghost struct QuantV {
    pub num: int,
    pub den: int,
    pub unit: ChemUnit,
}

/// ChemQuantity(exact numeric value, unit).
#[derive(Debug, Clone, Copy)]
pub struct ChemQuantity(pub Rational, pub ChemUnit);

impl View for ChemQuantity {
    type V = QuantV;

    open spec fn view(&self) -> QuantV {
        QuantV { num: self.0.num as int, den: self.0.den as int, unit: self.1 }
    }
}

/// Conversion of a quantity to moles for a molecule of molar mass
/// `mass_milli` (in milli atomic mass units): grams divide by the molar
/// mass, milligrams by its milli value; `None` when the mass is not
/// positive, the denominator is not positive, or a field leaves `i64`.
pub open spec fn spec_to_mol(mass_milli: int, q: QuantV) -> Option<QuantV> {
    if mass_milli <= 0 || q.den < 1 {
        None
    } else {
        let p = match q.unit {
            ChemUnit::Gram => (q.num * 1000, q.den * mass_milli),
            ChemUnit::Milligram => (q.num, q.den * mass_milli),
            ChemUnit::Mol => (q.num, q.den),
        };
        if p.0 > i64::MAX || p.0 < i64::MIN || p.1 > i64::MAX {
            None
        } else {
            Some(QuantV { num: p.0, den: p.1, unit: ChemUnit::Mol })
        }
    }
}

/// Conversion of a quantity to grams for a molecule of molar mass
/// `mass_milli`: milligrams divide by one thousand, moles multiply by the
/// molar mass (in milli units) and divide by one thousand.
pub open spec fn spec_to_gram(mass_milli: int, q: QuantV) -> Option<QuantV> {
    if mass_milli <= 0 || q.den < 1 {
        None
    } else {
        let p = match q.unit {
            ChemUnit::Gram => (q.num, q.den),
            ChemUnit::Milligram => (q.num, q.den * 1000),
            ChemUnit::Mol => (q.num * mass_milli, q.den * 1000),
        };
        if p.0 > i64::MAX || p.0 < i64::MIN || p.1 > i64::MAX {
            None
        } else {
            Some(QuantV { num: p.0, den: p.1, unit: ChemUnit::Gram })
        }
    }
}

/// Converts one quantity of the molecule to moles.
fn to_mol(molec: &Molecule, qty: &ChemQuantity) -> (r: Result<ChemQuantity, PositionedError>)
    ensures
        ({
            let mm = spec_mass(molec@.atoms);
            if mm > u64::MAX {
                r is Err
            } else {
                match spec_to_mol(mm, qty@) {
                    Some(q) => r matches Ok(v) && v@ == q && v.0.wf(),
                    None => r is Err,
                }
            }
        }),
        r matches Err(e) ==> e.1 is None && (e.0@ == "molar mass out of range"@ || e.0@
            == "zero molar mass"@ || e.0@ == "quantity out of range"@),
{
    let mass = match molec.mass_milli_amu_checked() {
        Some(m) => m,
        None => {
            return Err(plain_error("molar mass out of range"));
        },
    };
    if mass == 0 {
        return Err(plain_error("zero molar mass"));
    }
    if qty.0.den < 1 {
        return Err(plain_error("quantity out of range"));
    }
    let (num, den): (i64, i64) = match qty.1 {
        ChemUnit::Gram => {
            let n = match qty.0.num.checked_mul(1000) {
                Some(n) => n,
                None => {
                    return Err(plain_error("quantity out of range"));
                },
            };
            let d = mul_den_by_mass(qty.0.den, mass)?;
            (n, d)
        },
        ChemUnit::Milligram => {
            let d = mul_den_by_mass(qty.0.den, mass)?;
            (qty.0.num, d)
        },
        ChemUnit::Mol => (qty.0.num, qty.0.den),
    };
    proof {
        assert(den >= 1) by (nonlinear_arith)
            requires
                qty@.den >= 1 && mass as int >= 1 && (den as int == qty@.den * mass as int || den
                    as int == qty@.den),
        ;
    }
    Ok(ChemQuantity(Rational { num, den }, ChemUnit::Mol))
}

/// The denominator times the molar mass, or an error when it leaves `i64`.
fn mul_den_by_mass(den: i64, mass: u64) -> (r: Result<i64, PositionedError>)
    requires
        den >= 1,
        mass >= 1,
    ensures
        r matches Ok(d) ==> d as int == den as int * mass as int,
        (r is Err) <==> den as int * mass as int > i64::MAX,
        r matches Err(e) ==> e.1 is None && e.0@ == "quantity out of range"@,
{
    if mass > i64::MAX as u64 {
        proof {
            assert(den as int * mass as int >= mass as int) by (nonlinear_arith)
                requires
                    den as int >= 1 && mass as int >= 0,
            ;
        }
        return Err(plain_error("quantity out of range"));
    }
    match den.checked_mul(mass as i64) {
        Some(d) => Ok(d),
        None => {
            proof {
                assert(den as int * mass as int >= 0) by (nonlinear_arith)
                    requires
                        den as int >= 1 && mass as int >= 0,
                ;
            }
            Err(plain_error("quantity out of range"))
        },
    }
}

/// Converts one quantity of the molecule to grams.
fn to_gram(molec: &Molecule, qty: &ChemQuantity) -> (r: Result<ChemQuantity, PositionedError>)
    ensures
        ({
            let mm = spec_mass(molec@.atoms);
            if mm > u64::MAX {
                r is Err
            } else {
                match spec_to_gram(mm, qty@) {
                    Some(q) => r matches Ok(v) && v@ == q && v.0.wf(),
                    None => r is Err,
                }
            }
        }),
        r matches Err(e) ==> e.1 is None && (e.0@ == "molar mass out of range"@ || e.0@
            == "zero molar mass"@ || e.0@ == "quantity out of range"@),
{
    let mass = match molec.mass_milli_amu_checked() {
        Some(m) => m,
        None => {
            return Err(plain_error("molar mass out of range"));
        },
    };
    if mass == 0 {
        return Err(plain_error("zero molar mass"));
    }
    if qty.0.den < 1 {
        return Err(plain_error("quantity out of range"));
    }
    let (num, den): (i64, i64) = match qty.1 {
        ChemUnit::Gram => (qty.0.num, qty.0.den),
        ChemUnit::Milligram => {
            let d = match qty.0.den.checked_mul(1000) {
                Some(d) => d,
                None => {
                    return Err(plain_error("quantity out of range"));
                },
            };
            (qty.0.num, d)
        },
        ChemUnit::Mol => {
            let n = mul_num_by_mass(qty.0.num, mass)?;
            let d = match qty.0.den.checked_mul(1000) {
                Some(d) => d,
                None => {
                    return Err(plain_error("quantity out of range"));
                },
            };
            (n, d)
        },
    };
    proof {
        assert(den >= 1) by (nonlinear_arith)
            requires
                qty@.den >= 1 && (den as int == qty@.den * 1000 || den as int == qty@.den),
        ;
    }
    Ok(ChemQuantity(Rational { num, den }, ChemUnit::Gram))
}

/// The numerator times the molar mass, or an error when it leaves `i64`.
fn mul_num_by_mass(num: i64, mass: u64) -> (r: Result<i64, PositionedError>)
    requires
        mass >= 1,
    ensures
        r matches Ok(n) ==> n as int == num as int * mass as int,
        (r is Err) <==> ((num as int) * (mass as int) > i64::MAX || (num as int) * (mass
            as int) < i64::MIN),
        r matches Err(e) ==> e.1 is None && e.0@ == "quantity out of range"@,
{
    proof {
        assert(abs((num as i128) * (mass as i128)) <= 0x8000_0000_0000_0000i128
            * 0xffff_ffff_ffff_ffffi128) by (nonlinear_arith)
            requires
                abs(num as int) <= 0x8000_0000_0000_0000i128 && 0 <= mass as int
                    <= 0xffff_ffff_ffff_ffffi128,
        ;
    }
    let prod: i128 = (num as i128) * (mass as i128);
    if prod > i64::MAX as i128 || prod < i64::MIN as i128 {
        Err(plain_error("quantity out of range"))
    } else {
        Ok(prod as i64)
    }
}

/// The views of a side of molecules with optional quantities.
pub open spec fn quants_view(s: Seq<(Molecule, Option<ChemQuantity>)>) -> Seq<
    (MolV, Option<QuantV>),
> {
    s.map_values(
        |p: (Molecule, Option<ChemQuantity>)|
            (
                p.0@,
                match p.1 {
                    Some(q) => Some(q@),
                    None => None,
                },
            ),
    )
}

pub broadcast proof fn lemma_quants_view_index(s: Seq<(Molecule, Option<ChemQuantity>)>, i: int)
    ensures
        #![trigger s[i]]
        #![trigger quants_view(s)[i]]
        0 <= i < s.len() ==> quants_view(s)[i] == (
            s[i].0@,
            match s[i].1 {
                Some(q) => Some(q@),
                None => None,
            },
        ),
{
}

/// No entry of the side carries a quantity.
pub open spec fn member_all_none(s: Seq<(MolV, Option<QuantV>)>) -> bool {
    forall|i: int| 0 <= i < s.len() ==> (#[trigger] s[i]).1 is None
}

/// Every entry of the side carries a quantity.
pub open spec fn member_all_some(s: Seq<(MolV, Option<QuantV>)>) -> bool {
    forall|i: int| 0 <= i < s.len() ==> (#[trigger] s[i]).1 is Some
}

/// An equation whose molecules may carry quantities: all absent (pure
/// balancing), all present (unit conversion), or reactants-only (limiting
/// reagent mode).
#[derive(Debug)]
pub struct QuantifiedEquation {
    pub lhs: Vec<(Molecule, Option<ChemQuantity>)>,
    pub rhs: Vec<(Molecule, Option<ChemQuantity>)>,
    pub arrow: String,
}

#[verifier::loop_isolation(false)]
fn is_member_raw(member: &Vec<(Molecule, Option<ChemQuantity>)>) -> (r: bool)
    ensures
        r == member_all_none(quants_view(member@)),
{
    broadcast use lemma_quants_view_index;

    let mut i: usize = 0;
    while i < member.len()
        invariant
            0 <= i <= member@.len(),
            forall|k: int| 0 <= k < i ==> (#[trigger] quants_view(member@)[k]).1 is None,
        decreases member@.len() - i,
    {
        if member[i].1.is_some() {
            proof {
                assert(quants_view(member@)[i as int].1 is Some);
            }
            return false;
        }
        i = i + 1;
    }
    true
}

#[verifier::loop_isolation(false)]
fn has_member_all_units(member: &Vec<(Molecule, Option<ChemQuantity>)>) -> (r: bool)
    ensures
        r == member_all_some(quants_view(member@)),
{
    broadcast use lemma_quants_view_index;

    let mut i: usize = 0;
    while i < member.len()
        invariant
            0 <= i <= member@.len(),
            forall|k: int| 0 <= k < i ==> (#[trigger] quants_view(member@)[k]).1 is Some,
        decreases member@.len() - i,
    {
        if member[i].1.is_none() {
            proof {
                assert(quants_view(member@)[i as int].1 is None);
            }
            return false;
        }
        i = i + 1;
    }
    true
}

/// Entry-wise copy of a quantified side, preserving views.
#[verifier::loop_isolation(false)]
fn clone_quant_side(v: &Vec<(Molecule, Option<ChemQuantity>)>) -> (r: Vec<
    (Molecule, Option<ChemQuantity>),
>)
    ensures
        quants_view(r@) == quants_view(v@),
{
    broadcast use lemma_quants_view_index;

    let mut out: Vec<(Molecule, Option<ChemQuantity>)> = Vec::new();
    let mut i: usize = 0;
    while i < v.len()
        invariant
            0 <= i <= v@.len(),
            out@.len() == i,
            forall|k: int|
                0 <= k < i ==> (#[trigger] out@[k]).0@ == v@[k].0@ && out@[k].1 == v@[k].1,
        decreases v@.len() - i,
    {
        let q = match &v[i].1 {
            Some(q) => Some(*q),
            None => None,
        };
        out.push((v[i].0.clone(), q));
        i = i + 1;
    }
    proof {
        assert(quants_view(out@) =~= quants_view(v@));
    }
    out
}

impl QuantifiedEquation {
    /// The underlying raw equation: the molecules without their quantities.
    #[verifier::loop_isolation(false)]
    pub fn to_raw_eq(&self) -> (r: RawEquation)
        ensures
            r.lhs@.len() == self.lhs@.len(),
            r.rhs@.len() == self.rhs@.len(),
            forall|i: int| 0 <= i < r.lhs@.len() ==> (#[trigger] r.lhs@[i])@ == self.lhs@[i].0@,
            forall|i: int| 0 <= i < r.rhs@.len() ==> (#[trigger] r.rhs@[i])@ == self.rhs@[i].0@,
            r.arrow@ == self.arrow@,
    {
        let mut lhs: Vec<Molecule> = Vec::new();
        let mut i: usize = 0;
        while i < self.lhs.len()
            invariant
                0 <= i <= self.lhs@.len(),
                lhs@.len() == i,
                forall|k: int| 0 <= k < i ==> (#[trigger] lhs@[k])@ == self.lhs@[k].0@,
            decreases self.lhs@.len() - i,
        {
            lhs.push(self.lhs[i].0.clone());
            i = i + 1;
        }
        let mut rhs: Vec<Molecule> = Vec::new();
        let mut j: usize = 0;
        while j < self.rhs.len()
            invariant
                0 <= j <= self.rhs@.len(),
                rhs@.len() == j,
                forall|k: int| 0 <= k < j ==> (#[trigger] rhs@[k])@ == self.rhs@[k].0@,
            decreases self.rhs@.len() - j,
        {
            rhs.push(self.rhs[j].0.clone());
            j = j + 1;
        }
        RawEquation { lhs, rhs, arrow: self.arrow.clone() }
    }

    /// True iff no molecule on either side carries a quantity.
    pub fn is_raw_eq(&self) -> (r: bool)
        ensures
            r == (member_all_none(quants_view(self.lhs@)) && member_all_none(
                quants_view(self.rhs@),
            )),
    {
        is_member_raw(&self.lhs) && is_member_raw(&self.rhs)
    }

    /// True iff the quantities are known for all reactants and unknown for
    /// all products.
    pub fn only_reactants_quantities_known(&self) -> (r: bool)
        ensures
            r == (member_all_some(quants_view(self.lhs@)) && member_all_none(
                quants_view(self.rhs@),
            )),
    {
        has_member_all_units(&self.lhs) && is_member_raw(&self.rhs)
    }

    /// Every present quantity converted to moles; fails when a molar mass or
    /// a converted value leaves its range.
    pub fn quantities_to_mol(&self) -> (r: Result<QuantifiedEquation, PositionedError>)
        ensures
            r matches Ok(q) ==> {
                &&& q.lhs@.len() == self.lhs@.len()
                &&& q.rhs@.len() == self.rhs@.len()
                &&& q.arrow@ == self.arrow@
                &&& forall|i: int|
                    0 <= i < q.lhs@.len() ==> (#[trigger] q.lhs@[i]).0@ == self.lhs@[i].0@
                        && converted_to_mol(self.lhs@[i], q.lhs@[i])
                &&& forall|i: int|
                    0 <= i < q.rhs@.len() ==> (#[trigger] q.rhs@[i]).0@ == self.rhs@[i].0@
                        && converted_to_mol(self.rhs@[i], q.rhs@[i])
            },
            (r is Err) <==> ((exists|i: int|
                0 <= i < self.lhs@.len() && !entry_to_mol_ok(#[trigger] self.lhs@[i]))
                || (exists|i: int|
                0 <= i < self.rhs@.len() && !entry_to_mol_ok(#[trigger] self.rhs@[i]))),
    {
        let lhs = convert_member_to_mol(&self.lhs)?;
        let rhs = convert_member_to_mol(&self.rhs)?;
        Ok(QuantifiedEquation { lhs, rhs, arrow: self.arrow.clone() })
    }

    /// Every present quantity converted to grams; fails when a molar mass or
    /// a converted value leaves its range.
    pub fn quantities_to_grams(&self) -> (r: Result<QuantifiedEquation, PositionedError>)
        ensures
            r matches Ok(q) ==> {
                &&& q.lhs@.len() == self.lhs@.len()
                &&& q.rhs@.len() == self.rhs@.len()
                &&& q.arrow@ == self.arrow@
                &&& forall|i: int|
                    0 <= i < q.lhs@.len() ==> (#[trigger] q.lhs@[i]).0@ == self.lhs@[i].0@
                        && converted_to_gram(self.lhs@[i], q.lhs@[i])
                &&& forall|i: int|
                    0 <= i < q.rhs@.len() ==> (#[trigger] q.rhs@[i]).0@ == self.rhs@[i].0@
                        && converted_to_gram(self.rhs@[i], q.rhs@[i])
            },
            (r is Err) <==> ((exists|i: int|
                0 <= i < self.lhs@.len() && !entry_to_gram_ok(#[trigger] self.lhs@[i]))
                || (exists|i: int|
                0 <= i < self.rhs@.len() && !entry_to_gram_ok(#[trigger] self.rhs@[i]))),
    {
        let lhs = convert_member_to_gram(&self.lhs)?;
        let rhs = convert_member_to_gram(&self.rhs)?;
        Ok(QuantifiedEquation { lhs, rhs, arrow: self.arrow.clone() })
    }
}

/// The entry's quantity, if present, can be converted to moles: the molar
/// mass fits `u64` and the converted value stays within `i64`.
pub open spec fn entry_to_mol_ok(p: (Molecule, Option<ChemQuantity>)) -> bool {
    match p.1 {
        None => true,
        Some(q) => spec_mass(p.0@.atoms) <= u64::MAX && spec_to_mol(
            spec_mass(p.0@.atoms),
            q@,
        ) is Some,
    }
}

/// The entry's quantity, if present, can be converted to grams.
pub open spec fn entry_to_gram_ok(p: (Molecule, Option<ChemQuantity>)) -> bool {
    match p.1 {
        None => true,
        Some(q) => spec_mass(p.0@.atoms) <= u64::MAX && spec_to_gram(
            spec_mass(p.0@.atoms),
            q@,
        ) is Some,
    }
}

/// The output entry is the input entry with its quantity, if present,
/// converted to moles.
pub open spec fn converted_to_mol(
    inp: (Molecule, Option<ChemQuantity>),
    outp: (Molecule, Option<ChemQuantity>),
) -> bool {
    match inp.1 {
        None => outp.1 is None,
        Some(q) => outp.1 matches Some(o) && spec_to_mol(spec_mass(inp.0@.atoms), q@) == Some(
            o@,
        ) && o.0.den >= 1,
    }
}

/// The output entry is the input entry with its quantity, if present,
/// converted to grams.
pub open spec fn converted_to_gram(
    inp: (Molecule, Option<ChemQuantity>),
    outp: (Molecule, Option<ChemQuantity>),
) -> bool {
    match inp.1 {
        None => outp.1 is None,
        Some(q) => outp.1 matches Some(o) && spec_to_gram(spec_mass(inp.0@.atoms), q@) == Some(
            o@,
        ) && o.0.den >= 1,
    }
}

#[verifier::loop_isolation(false)]
fn convert_member_to_mol(member: &Vec<(Molecule, Option<ChemQuantity>)>) -> (r: Result<
    Vec<(Molecule, Option<ChemQuantity>)>,
    PositionedError,
>)
    ensures
        r matches Ok(out) ==> {
            &&& out@.len() == member@.len()
            &&& forall|i: int|
                0 <= i < out@.len() ==> (#[trigger] out@[i]).0@ == member@[i].0@
                    && converted_to_mol(member@[i], out@[i])
        },
        (r is Err) <==> exists|i: int|
            0 <= i < member@.len() && !entry_to_mol_ok(#[trigger] member@[i]),
        r matches Err(e) ==> e.1 is None && (e.0@ == "molar mass out of range"@ || e.0@
            == "zero molar mass"@ || e.0@ == "quantity out of range"@),
{
    let mut out: Vec<(Molecule, Option<ChemQuantity>)> = Vec::new();
    let mut i: usize = 0;
    while i < member.len()
        invariant
            0 <= i <= member@.len(),
            out@.len() == i,
            forall|k: int| 0 <= k < i ==> entry_to_mol_ok(#[trigger] member@[k]),
            forall|k: int|
                0 <= k < i ==> (#[trigger] out@[k]).0@ == member@[k].0@ && converted_to_mol(
                    member@[k],
                    out@[k],
                ),
        decreases member@.len() - i,
    {
        let q = match &member[i].1 {
            None => None,
            Some(q) => match to_mol(&member[i].0, q) {
                Ok(v) => Some(v),
                Err(e) => {
                    proof {
                        assert(!entry_to_mol_ok(member@[i as int]));
                    }
                    return Err(e);
                },
            },
        };
        out.push((member[i].0.clone(), q));
        i = i + 1;
    }
    Ok(out)
}

#[verifier::loop_isolation(false)]
fn convert_member_to_gram(member: &Vec<(Molecule, Option<ChemQuantity>)>) -> (r: Result<
    Vec<(Molecule, Option<ChemQuantity>)>,
    PositionedError,
>)
    ensures
        r matches Ok(out) ==> {
            &&& out@.len() == member@.len()
            &&& forall|i: int|
                0 <= i < out@.len() ==> (#[trigger] out@[i]).0@ == member@[i].0@
                    && converted_to_gram(member@[i], out@[i])
        },
        (r is Err) <==> exists|i: int|
            0 <= i < member@.len() && !entry_to_gram_ok(#[trigger] member@[i]),
        r matches Err(e) ==> e.1 is None && (e.0@ == "molar mass out of range"@ || e.0@
            == "zero molar mass"@ || e.0@ == "quantity out of range"@),
{
    let mut out: Vec<(Molecule, Option<ChemQuantity>)> = Vec::new();
    let mut i: usize = 0;
    while i < member.len()
        invariant
            0 <= i <= member@.len(),
            out@.len() == i,
            forall|k: int| 0 <= k < i ==> entry_to_gram_ok(#[trigger] member@[k]),
            forall|k: int|
                0 <= k < i ==> (#[trigger] out@[k]).0@ == member@[k].0@ && converted_to_gram(
                    member@[k],
                    out@[k],
                ),
        decreases member@.len() - i,
    {
        let q = match &member[i].1 {
            None => None,
            Some(q) => match to_gram(&member[i].0, q) {
                Ok(v) => Some(v),
                Err(e) => {
                    proof {
                        assert(!entry_to_gram_ok(member@[i as int]));
                    }
                    return Err(e);
                },
            },
        };
        out.push((member[i].0.clone(), q));
        i = i + 1;
    }
    Ok(out)
}

proof fn lemma_rat_le_trans(a: RatV, b: RatV, c: RatV)
    requires
        a.den >= 1,
        b.den >= 1,
        c.den >= 1,
        rat_le(a, b),
        rat_le(b, c),
    ensures
        rat_le(a, c),
{
    assert(a.num * c.den <= c.num * a.den) by (nonlinear_arith)
        requires
            a.den >= 1 && b.den >= 1 && c.den >= 1 && a.num * b.den <= b.num * a.den && b.num
                * c.den <= c.num * b.den,
    ;
}

proof fn lemma_rat_lt_le_trans(a: RatV, b: RatV, c: RatV)
    requires
        a.den >= 1,
        b.den >= 1,
        c.den >= 1,
        rat_lt(a, b),
        rat_le(b, c),
    ensures
        rat_lt(a, c),
{
    assert(a.num * c.den < c.num * a.den) by (nonlinear_arith)
        requires
            a.den >= 1 && b.den >= 1 && c.den >= 1 && a.num * b.den < b.num * a.den && b.num
                * c.den <= c.num * b.den,
    ;
}

/// Molecules of coefficients zipped together, for stating conservation of a
/// coefficient vector over a molecule list.
pub open spec fn zip_coefs(ms: Seq<MolV>, cs: Seq<int>) -> Seq<(MolV, int)> {
    Seq::new(ms.len(), |i: int| (ms[i], cs[i]))
}

/// The molecule views of a quantified side.
pub open spec fn quant_side_mols(s: Seq<(Molecule, Option<ChemQuantity>)>) -> Seq<MolV> {
    s.map_values(|p: (Molecule, Option<ChemQuantity>)| p.0@)
}

/// The numerator of the (present, mole-valued) quantity of an entry.
pub open spec fn mole_num(p: (Molecule, Option<ChemQuantity>)) -> int {
    p.1.unwrap().0.num as int
}

/// The denominator of the (present, mole-valued) quantity of an entry.
pub open spec fn mole_den(p: (Molecule, Option<ChemQuantity>)) -> int {
    p.1.unwrap().0.den as int
}

/// What the limiting-reagent computation returns: integer coefficients `bl`
/// and `br` that balance the equation's molecules (atom and charge
/// conservation, all positive), an index `ix` of the limiting reactant whose
/// extent (moles available over coefficient) is minimal, and every product
/// quantity equal to its coefficient times that extent.
pub open spec fn limiting_witness(
    inp: QuantifiedEquation,
    res: QuantifiedEquation,
    lim: Molecule,
    bl: Seq<int>,
    br: Seq<int>,
    ix: int,
) -> bool {
    let lmols = quant_side_mols(inp.lhs@);
    let rmols = quant_side_mols(inp.rhs@);
    let en = mole_num(res.lhs@[ix]);
    let ed = mole_den(res.lhs@[ix]) * bl[ix];
    &&& bl.len() == lmols.len()
    &&& br.len() == rmols.len()
    &&& forall|k: AtomV|
        #[trigger] side_atom_sum(zip_coefs(lmols, bl), k) == side_atom_sum(
            zip_coefs(rmols, br),
            k,
        )
    &&& side_charge_sum(zip_coefs(lmols, bl)) == side_charge_sum(zip_coefs(rmols, br))
    &&& forall|i: int| 0 <= i < bl.len() ==> #[trigger] bl[i] >= 1
    &&& forall|j: int| 0 <= j < br.len() ==> #[trigger] br[j] >= 1
    &&& 0 <= ix < lmols.len()
    &&& lim@ == lmols[ix]
    &&& ed >= 1
    &&& forall|i: int|
        0 <= i < bl.len() ==> rat_le(
            RatV { num: en, den: ed },
            RatV {
                num: mole_num(#[trigger] res.lhs@[i]),
                den: mole_den(res.lhs@[i]) * bl[i],
            },
        )
    &&& forall|i: int|
        0 <= i < ix ==> rat_lt(
            RatV { num: en, den: ed },
            RatV {
                num: mole_num(#[trigger] res.lhs@[i]),
                den: mole_den(res.lhs@[i]) * bl[i],
            },
        )
    &&& spec_gcd_seq(bl + br) == 1
    &&& forall|j: int|
        0 <= j < br.len() ==> mole_num(#[trigger] res.rhs@[j]) == br[j] * en && mole_den(
            res.rhs@[j],
        ) == ed
}

/// Some integer coefficients and limiting index witness the result (see
/// `limiting_witness`).
pub open spec fn has_limiting_witness(
    inp: QuantifiedEquation,
    res: QuantifiedEquation,
    lim: Molecule,
) -> bool {
    exists|bl: Seq<int>, br: Seq<int>, ix: int| limiting_witness(inp, res, lim, bl, br, ix)
}

/// Determines the limiting reagent and fills in the product quantities:
/// converts each reactant quantity to moles, balances the underlying raw
/// equation, takes the reactant with minimal extent (moles over
/// stoichiometric coefficient) as the limiting reagent, and sets every
/// product quantity to its coefficient times that extent, in moles.
#[verifier::loop_isolation(false)]
#[verifier::rlimit(60)]
pub fn compute_lhs_coefs(quant_eq: &QuantifiedEquation) -> (r: Result<
    (QuantifiedEquation, Molecule),
    PositionedError,
>)
    ensures
        !(member_all_some(quants_view(quant_eq.lhs@)) && member_all_none(
            quants_view(quant_eq.rhs@),
        )) ==> (r matches Err(e) && e.0@
            == "quantities should be given for all reactants and for no product"@),
        r matches Ok(p) ==> {
            &&& member_all_some(quants_view(quant_eq.lhs@))
            &&& member_all_none(quants_view(quant_eq.rhs@))
            &&& p.0.arrow@ == quant_eq.arrow@
            &&& p.0.lhs@.len() == quant_eq.lhs@.len()
            &&& p.0.rhs@.len() == quant_eq.rhs@.len()
            &&& forall|i: int|
                0 <= i < p.0.lhs@.len() ==> (#[trigger] p.0.lhs@[i]).0@ == quant_eq.lhs@[i].0@
                    && converted_to_mol(quant_eq.lhs@[i], p.0.lhs@[i])
            &&& forall|j: int|
                0 <= j < p.0.rhs@.len() ==> (#[trigger] p.0.rhs@[j]).0@ == quant_eq.rhs@[j].0@
                    && (p.0.rhs@[j].1 matches Some(q) && q.1 == ChemUnit::Mol)
            &&& has_limiting_witness(*quant_eq, p.0, p.1)
        },
        r matches Err(e) ==> e.1 is None && (e.0@
            == "quantities should be given for all reactants and for no product"@ || e.0@
            == "solving failed, underconstrained equation"@ || e.0@ == "cannot balance equation"@
            || e.0@ == "equation too large"@ || e.0@ == "atom count out of range"@ || e.0@
            == "charge out of range"@ || e.0@ == "molar mass out of range"@ || e.0@
            == "zero molar mass"@ || e.0@ == "quantity out of range"@),
{
    broadcast use lemma_quants_view_index, lemma_pairs_view_index;

    if !quant_eq.only_reactants_quantities_known() {
        return Err(
            plain_error("quantities should be given for all reactants and for no product"),
        );
    }
    if quant_eq.lhs.len() == 0 {
        return Err(
            plain_error("quantities should be given for all reactants and for no product"),
        );
    }
    let raw = quant_eq.to_raw_eq();
    let balanced = match balance(&raw) {
        Ok(b) => b,
        Err(e) => {
            return Err(e);
        },
    };
    let mol_lhs = match convert_member_to_mol(&quant_eq.lhs) {
        Ok(v) => v,
        Err(e) => {
            return Err(e);
        },
    };
    let nl = mol_lhs.len();
    // the extent each reactant would allow: its moles over its coefficient
    let mut extents: Vec<Rational> = Vec::new();
    let mut i: usize = 0;
    while i < nl
        invariant
            0 <= i <= nl,
            nl == quant_eq.lhs@.len(),
            mol_lhs@.len() == nl,
            balanced.lhs@.len() == nl,
            forall|k: int|
                0 <= k < nl ==> converted_to_mol(quant_eq.lhs@[k], #[trigger] mol_lhs@[k]),
            forall|k: int| 0 <= k < nl ==> (#[trigger] quants_view(quant_eq.lhs@)[k]).1 is Some,
            forall|k: int| 0 <= k < nl ==> (#[trigger] balanced.lhs@[k]).1 >= 1,
            extents@.len() == i,
            forall|k: int|
                0 <= k < i ==> (#[trigger] extents@[k]).num == mole_num(mol_lhs@[k])
                    && extents@[k].den == mole_den(mol_lhs@[k]) * balanced.lhs@[k].1
                    && extents@[k].den >= 1,
        decreases nl - i,
    {
        let q = match &mol_lhs[i].1 {
            Some(q) => *q,
            None => {
                proof {
                    assert(quants_view(quant_eq.lhs@)[i as int].1 is Some);
                    assert(false);
                }
                vstd::pervasive::unreached()
            },
        };
        let coef = balanced.lhs[i].1;
        proof {
            assert(abs((q.0.den as i128) * (coef as i128)) <= 0x8000_0000_0000_0000i128
                * 0x8000_0000i128) by (nonlinear_arith)
                requires
                    abs(q.0.den as int) <= 0x8000_0000_0000_0000i128 && abs(coef as int)
                        <= 0x8000_0000i128,
            ;
            assert((q.0.den as i128) * (coef as i128) >= 1) by (nonlinear_arith)
                requires
                    q.0.den as int >= 1 && coef as int >= 1,
            ;
        }
        let d: i128 = (q.0.den as i128) * (coef as i128);
        if d > i64::MAX as i128 {
            return Err(plain_error("quantity out of range"));
        }
        extents.push(Rational { num: q.0.num, den: d as i64 });
        i = i + 1;
    }
    // the reactant with the minimal extent limits the reaction
    let mut min_ix: usize = 0;
    let mut t: usize = 1;
    while t < nl
        invariant
            1 <= t <= nl,
            extents@.len() == nl,
            0 <= min_ix < t,
            forall|k: int| 0 <= k < nl ==> (#[trigger] extents@[k]).den >= 1,
            forall|k: int|
                0 <= k < t ==> rat_le((#[trigger] extents@[min_ix as int])@, extents@[k]@),
            forall|k: int|
                0 <= k < min_ix ==> rat_lt((#[trigger] extents@[min_ix as int])@, extents@[k]@),
        decreases nl - t,
    {
        let ghost old_min = min_ix as int;
        if rat_lt_exec(&extents[t], &extents[min_ix]) {
            min_ix = t;
        }
        proof {
            assert forall|k: int| 0 <= k < t + 1 implies rat_le(
                (#[trigger] extents@[min_ix as int])@,
                extents@[k]@,
            ) by {
                if min_ix as int == old_min {
                    if k == t {
                        assert(rat_le(extents@[min_ix as int]@, extents@[k]@));
                    }
                } else {
                    if k < t {
                        lemma_rat_le_trans(
                            extents@[t as int]@,
                            extents@[old_min]@,
                            extents@[k]@,
                        );
                    }
                }
            }
            assert forall|k: int| 0 <= k < min_ix implies rat_lt(
                (#[trigger] extents@[min_ix as int])@,
                extents@[k]@,
            ) by {
                if min_ix as int != old_min {
                    lemma_rat_lt_le_trans(
                        extents@[min_ix as int]@,
                        extents@[old_min]@,
                        extents@[k]@,
                    );
                }
            }
        }
        t = t + 1;
    }
    let min_ext = extents[min_ix];
    // every product is produced in proportion to its coefficient
    let nr = quant_eq.rhs.len();
    let mut rhs_out: Vec<(Molecule, Option<ChemQuantity>)> = Vec::new();
    let mut j: usize = 0;
    while j < nr
        invariant
            0 <= j <= nr,
            nr == quant_eq.rhs@.len(),
            balanced.rhs@.len() == nr,
            forall|k: int| 0 <= k < nr ==> (#[trigger] balanced.rhs@[k]).1 >= 1,
            min_ext.den >= 1,
            rhs_out@.len() == j,
            forall|k: int|
                0 <= k < j ==> (#[trigger] rhs_out@[k]).0@ == quant_eq.rhs@[k].0@ && (
                rhs_out@[k].1 matches Some(q) && q.1 == ChemUnit::Mol && q.0.num as int
                    == balanced.rhs@[k].1 * min_ext.num as int && q.0.den == min_ext.den),
        decreases nr - j,
    {
        let coef = balanced.rhs[j].1;
        proof {
            assert(abs((coef as i128) * (min_ext.num as i128)) <= 0x8000_0000i128
                * 0x8000_0000_0000_0000i128) by (nonlinear_arith)
                requires
                    abs(coef as int) <= 0x8000_0000i128 && abs(min_ext.num as int)
                        <= 0x8000_0000_0000_0000i128,
            ;
        }
        let n: i128 = (coef as i128) * (min_ext.num as i128);
        if n > i64::MAX as i128 || n < i64::MIN as i128 {
            return Err(plain_error("quantity out of range"));
        }
        let q = ChemQuantity(Rational { num: n as i64, den: min_ext.den }, ChemUnit::Mol);
        rhs_out.push((quant_eq.rhs[j].0.clone(), Some(q)));
        j = j + 1;
    }
    let res = QuantifiedEquation { lhs: mol_lhs, rhs: rhs_out, arrow: quant_eq.arrow.clone() };
    let lim = quant_eq.lhs[min_ix].0.clone();
    proof {
        let ghost bl = coefs_of(pairs_view(balanced.lhs@));
        let ghost br = coefs_of(pairs_view(balanced.rhs@));
        let ghost lmols = quant_side_mols(quant_eq.lhs@);
        let ghost rmols = quant_side_mols(quant_eq.rhs@);
        assert(zip_coefs(lmols, bl) =~= pairs_view(balanced.lhs@));
        assert(zip_coefs(rmols, br) =~= pairs_view(balanced.rhs@));
        assert(bl.len() == lmols.len());
        assert(br.len() == rmols.len());
        assert(forall|k: AtomV|
            #[trigger] side_atom_sum(zip_coefs(lmols, bl), k) == side_atom_sum(
                zip_coefs(rmols, br),
                k,
            ));
        assert(side_charge_sum(zip_coefs(lmols, bl)) == side_charge_sum(zip_coefs(rmols, br)));
        assert(forall|i: int| 0 <= i < bl.len() ==> #[trigger] bl[i] >= 1);
        assert(forall|j: int| 0 <= j < br.len() ==> #[trigger] br[j] >= 1);
        assert(lim@ == lmols[min_ix as int]);
        let ghost en = mole_num(res.lhs@[min_ix as int]);
        let ghost ed = mole_den(res.lhs@[min_ix as int]) * bl[min_ix as int];
        assert(min_ext.num == en);
        assert(min_ext.den == ed);
        assert(ed >= 1);
        assert forall|i: int| 0 <= i < bl.len() implies rat_le(
            RatV { num: en, den: ed },
            RatV { num: mole_num(#[trigger] res.lhs@[i]), den: mole_den(res.lhs@[i]) * bl[i] },
        ) by {
            assert(bl[i] == balanced.lhs@[i].1);
            assert(extents@[i].num == mole_num(res.lhs@[i]));
            assert(extents@[i].den == mole_den(res.lhs@[i]) * bl[i]);
            assert(rat_le(extents@[min_ix as int]@, extents@[i]@));
            assert(extents@[i]@ == RatV {
                num: mole_num(res.lhs@[i]),
                den: mole_den(res.lhs@[i]) * bl[i],
            });
        }
        assert forall|i: int| 0 <= i < min_ix as int implies rat_lt(
            RatV { num: en, den: ed },
            RatV { num: mole_num(#[trigger] res.lhs@[i]), den: mole_den(res.lhs@[i]) * bl[i] },
        ) by {
            assert(bl[i] == balanced.lhs@[i].1);
            assert(extents@[i].num == mole_num(res.lhs@[i]));
            assert(extents@[i].den == mole_den(res.lhs@[i]) * bl[i]);
            assert(rat_lt(extents@[min_ix as int]@, extents@[i]@));
            assert(extents@[i]@ == RatV {
                num: mole_num(res.lhs@[i]),
                den: mole_den(res.lhs@[i]) * bl[i],
            });
        }
        assert(spec_gcd_seq(bl + br) == 1);
        assert(forall|j: int|
            0 <= j < br.len() ==> mole_num(#[trigger] res.rhs@[j]) == br[j] * en && mole_den(
                res.rhs@[j],
            ) == ed);
        assert(limiting_witness(*quant_eq, res, lim, bl, br, min_ix as int));
        assert(has_limiting_witness(*quant_eq, res, lim));
    }
    Ok((res, lim))
}

} // verus!
