//! Loading of the periodic table from CSV text: one header line, then one
//! line per element of shape `<number>,<name>,<symbol>,<mass>`, the mass a
//! decimal number of atomic mass units kept as fixed-point milli units.

use crate::chemistry::{Atom, AtomV, PeriodicTable};
use crate::parsing::PositionedError;
use vstd::prelude::*;
use vstd::string::*;

verus! {

/// The spans of `s` between occurrences of `sep`, scanning from `i` with
/// the current span started at `start`.
pub open spec fn spec_split_loop(s: Seq<char>, i: int, start: int, out: Seq<Seq<char>>) -> Seq<
    Seq<char>,
>
    decreases s.len() - i,
{
    if i < 0 || i >= s.len() {
        out.push(s.subrange(start, s.len() as int))
    } else if s[i] == ',' {
        spec_split_loop(s, i + 1, i + 1, out.push(s.subrange(start, i)))
    } else {
        spec_split_loop(s, i + 1, start, out)
    }
}

/// The comma-separated fields of a text.
pub open spec fn spec_fields(s: Seq<char>) -> Seq<Seq<char>> {
    spec_split_loop(s, 0, 0, Seq::empty())
}

/// The comma-separated fields of a text, as owned strings.
#[verifier::loop_isolation(false)]
fn split_commas(s: &str) -> (r: Vec<String>)
    ensures
        str_seq_view(r@) == spec_fields(s@),
{
    broadcast use lemma_str_seq_view_index;

    let n = s.unicode_len();
    let mut out: Vec<String> = Vec::new();
    let mut start: usize = 0;
    let mut i: usize = 0;
    proof {
        assert(str_seq_view(out@) =~= Seq::<Seq<char>>::empty());
    }
    while i < n
        invariant
            0 <= start <= i <= n,
            n == s@.len(),
            spec_split_loop(s@, i as int, start as int, str_seq_view(out@)) == spec_fields(s@),
        decreases n - i,
    {
        let c = s.get_char(i);
        if c == ',' {
            let ghost before = str_seq_view(out@);
            let field = s.substring_char(start, i).to_owned();
            out.push(field);
            proof {
                assert(str_seq_view(out@) =~= before.push(s@.subrange(start as int, i as int)));
            }
            start = i + 1;
        }
        i = i + 1;
    }
    let ghost before = str_seq_view(out@);
    let field = s.substring_char(start, n).to_owned();
    out.push(field);
    proof {
        assert(str_seq_view(out@) =~= before.push(s@.subrange(start as int, n as int)));
    }
    out
}

/// The views of a sequence of strings.
pub open spec fn str_seq_view(s: Seq<String>) -> Seq<Seq<char>> {
    s.map_values(|t: String| t@)
}

pub broadcast proof fn lemma_str_seq_view_index(s: Seq<String>, i: int)
    ensures
        #![trigger s[i]]
        #![trigger str_seq_view(s)[i]]
        0 <= i < s.len() ==> str_seq_view(s)[i] == s[i]@,
{
}

/// The newline-separated lines of a text, scanning from `i`; a trailing
/// carriage return is dropped from each line.
pub open spec fn spec_lines_loop(s: Seq<char>, i: int, start: int, out: Seq<Seq<char>>) -> Seq<
    Seq<char>,
>
    decreases s.len() - i,
{
    if i < 0 || i >= s.len() {
        out.push(trim_cr(s.subrange(start, s.len() as int)))
    } else if s[i] == '\n' {
        spec_lines_loop(s, i + 1, i + 1, out.push(trim_cr(s.subrange(start, i))))
    } else {
        spec_lines_loop(s, i + 1, start, out)
    }
}

/// A text without its trailing carriage return, if any.
pub open spec fn trim_cr(s: Seq<char>) -> Seq<char> {
    if s.len() > 0 && s.last() == '\r' {
        s.drop_last()
    } else {
        s
    }
}

/// The lines of the text.
pub open spec fn spec_lines(s: Seq<char>) -> Seq<Seq<char>> {
    spec_lines_loop(s, 0, 0, Seq::empty())
}

/// The lines of a text, with trailing carriage returns dropped.
#[verifier::loop_isolation(false)]
fn split_lines(s: &str) -> (r: Vec<String>)
    ensures
        str_seq_view(r@) == spec_lines(s@),
{
    broadcast use lemma_str_seq_view_index;

    let n = s.unicode_len();
    let mut out: Vec<String> = Vec::new();
    let mut start: usize = 0;
    let mut i: usize = 0;
    proof {
        assert(str_seq_view(out@) =~= Seq::<Seq<char>>::empty());
    }
    while i < n
        invariant
            0 <= start <= i <= n,
            n == s@.len(),
            spec_lines_loop(s@, i as int, start as int, str_seq_view(out@)) == spec_lines(s@),
        decreases n - i,
    {
        let c = s.get_char(i);
        if c == '\n' {
            let ghost before = str_seq_view(out@);
            let mut stop = i;
            if stop > start && s.get_char(stop - 1) == '\r' {
                stop = stop - 1;
            }
            let line = s.substring_char(start, stop).to_owned();
            proof {
                assert(line@ =~= trim_cr(s@.subrange(start as int, i as int)));
            }
            out.push(line);
            proof {
                assert(str_seq_view(out@) =~= before.push(
                    trim_cr(s@.subrange(start as int, i as int)),
                ));
            }
            start = i + 1;
        }
        i = i + 1;
    }
    let ghost before = str_seq_view(out@);
    let mut stop = n;
    if stop > start && s.get_char(stop - 1) == '\r' {
        stop = stop - 1;
    }
    let line = s.substring_char(start, stop).to_owned();
    proof {
        assert(line@ =~= trim_cr(s@.subrange(start as int, n as int)));
    }
    out.push(line);
    proof {
        assert(str_seq_view(out@) =~= before.push(trim_cr(s@.subrange(start as int, n as int))));
    }
    out
}

/// A decimal mass in atomic mass units, read as fixed-point milli units
/// (further fractional digits are truncated): digits, optionally followed
/// by a dot and at least one more digit.
pub open spec fn spec_mass_milli(s: Seq<char>) -> Option<int> {
    let dot = first_dot(s, 0);
    match dot {
        None => match crate::parsing::spec_number(s) {
            None => None,
            Some(v) => Some(v * 1000),
        },
        Some(d) => {
            let ip = crate::parsing::spec_number(s.take(d));
            let fr = s.skip(d + 1);
            match ip {
                None => None,
                Some(v) => {
                    if fr.len() == 0 || !crate::parsing::all_digits(fr) {
                        None
                    } else {
                        Some(v * 1000 + frac_milli(fr))
                    }
                },
            }
        },
    }
}

/// Index of the first '.' at or after `i`, if any.
pub open spec fn first_dot(s: Seq<char>, i: int) -> Option<int>
    decreases s.len() - i,
{
    if i < 0 || i >= s.len() {
        None
    } else if s[i] == '.' {
        Some(i)
    } else {
        first_dot(s, i + 1)
    }
}

/// The value in milli units of a fractional digit run: the first three
/// digits, padded with zeros.
pub open spec fn frac_milli(fr: Seq<char>) -> int {
    let d1: int = if fr.len() >= 1 {
        fr[0] as u32 - 48
    } else {
        0
    };
    let d2: int = if fr.len() >= 2 {
        fr[1] as u32 - 48
    } else {
        0
    };
    let d3: int = if fr.len() >= 3 {
        fr[2] as u32 - 48
    } else {
        0
    };
    d1 * 100 + d2 * 10 + d3
}

/// Reads a decimal mass as fixed-point milli units.
#[verifier::loop_isolation(false)]
fn parse_mass_milli(s: &str) -> (r: Option<u64>)
    ensures
        r matches Some(v) ==> spec_mass_milli(s@) == Some(v as int),
        r is None ==> (spec_mass_milli(s@) is None || spec_mass_milli(s@).unwrap() > u64::MAX),
{
    let n = s.unicode_len();
    // find the dot, if any
    let mut d: usize = 0;
    let mut dot: Option<usize> = None;
    while d < n
        invariant
            0 <= d <= n,
            n == s@.len(),
            dot is None,
            first_dot(s@, 0) == first_dot(s@, d as int),
        decreases n - d,
    {
        if s.get_char(d) == '.' {
            dot = Some(d);
            break ;
        }
        d = d + 1;
    }
    match dot {
        None => {
            proof {
                assert(first_dot(s@, n as int) is None);
            }
            match crate::parsing::parse_number_u64(s) {
                None => None,
                Some(v) => match v.checked_mul(1000) {
                    Some(m) => Some(m),
                    None => None,
                },
            }
        },
        Some(dx) => {
            let ip_str = s.substring_char(0, dx);
            proof {
                assert(ip_str@ =~= s@.take(dx as int));
            }
            let ip = match crate::parsing::parse_number_u64(ip_str) {
                None => {
                    return None;
                },
                Some(v) => v,
            };
            let fr_str = s.substring_char(dx + 1, n);
            proof {
                assert(fr_str@ =~= s@.skip(dx + 1));
            }
            let fr_len = n - dx - 1;
            if fr_len == 0 {
                return None;
            }
            // the fractional digits must all be digits; only the first three
            // carry into milli units
            let mut j: usize = 0;
            let mut milli: u64 = 0;
            while j < fr_len
                invariant
                    0 <= j <= fr_len,
                    fr_len == fr_str@.len(),
                    forall|t: int| 0 <= t < j ==> 48 <= (#[trigger] fr_str@[t]) as u32 <= 57,
                    milli as int == (if j >= 1 {
                        (fr_str@[0] as u32 - 48) * 100
                    } else {
                        0
                    }) + (if j >= 2 {
                        (fr_str@[1] as u32 - 48) * 10
                    } else {
                        0
                    }) + (if j >= 3 {
                        fr_str@[2] as u32 - 48
                    } else {
                        0
                    }),
                decreases fr_len - j,
            {
                let c = fr_str.get_char(j);
                let u = c as u32;
                if !(48 <= u && u <= 57) {
                    return None;
                }
                if j == 0 {
                    milli = ((u - 48) as u64) * 100;
                } else if j == 1 {
                    milli = milli + ((u - 48) as u64) * 10;
                } else if j == 2 {
                    milli = milli + ((u - 48) as u64);
                }
                j = j + 1;
            }
            let scaled = match ip.checked_mul(1000) {
                Some(m) => m,
                None => {
                    return None;
                },
            };
            match scaled.checked_add(milli) {
                Some(total) => Some(total),
                None => None,
            }
        },
    }
}

/// One atom record of a CSV line `<number>,<name>,<symbol>,<mass>`, if the
/// line is well formed.
pub open spec fn spec_atom_of_line(line: Seq<char>) -> Option<AtomV> {
    let fields = spec_fields(line);
    if fields.len() < 4 {
        None
    } else {
        match spec_mass_milli(fields[3]) {
            None => None,
            Some(m) => if m > u64::MAX {
                None
            } else {
                Some(AtomV { code: fields[2], name: fields[1], mass_milli: m })
            },
        }
    }
}

/// Reads the element records of the periodic-table text: one record per
/// line after the header line, `<number>,<name>,<symbol>,<mass>`.  Fails on
/// the first malformed line.
#[verifier::loop_isolation(false)]
proof fn lemma_lines_loop_len(s: Seq<char>, i: int, start: int, out: Seq<Seq<char>>)
    ensures
        spec_lines_loop(s, i, start, out).len() >= out.len() + 1,
    decreases s.len() - i,
{
    if 0 <= i < s.len() {
        if s[i] == '\n' {
            lemma_lines_loop_len(s, i + 1, i + 1, out.push(trim_cr(s.subrange(start, i))));
        } else {
            lemma_lines_loop_len(s, i + 1, start, out);
        }
    }
}

pub fn load_peridic_table_as_vec(file_content: &str) -> (r: Result<Vec<Atom>, PositionedError>)
    ensures
        r matches Ok(v) ==> {
            let lines = spec_lines(file_content@);
            &&& v@.len() + 1 == lines.len()
            &&& forall|i: int|
                0 <= i < v@.len() ==> spec_atom_of_line(lines[i + 1]) == Some(
                    (#[trigger] v@[i])@,
                )
        },
        (r is Err) <==> exists|i: int|
            1 <= i < spec_lines(file_content@).len() && spec_atom_of_line(
                #[trigger] spec_lines(file_content@)[i],
            ) is None,
{
    broadcast use lemma_str_seq_view_index;

    let lines = split_lines(file_content);
    let mut out: Vec<Atom> = Vec::new();
    let mut i: usize = 1;
    proof {
        lemma_lines_loop_len(file_content@, 0, 0, Seq::empty());
    }
    if lines.len() == 0 {
        // unreachable: the line splitter always yields at least one line
        proof {
            assert(false);
        }
        return Err(plain_err("malformed periodic table line"));
    }
    while i < lines.len()
        invariant
            1 <= i <= lines@.len(),
            str_seq_view(lines@) == spec_lines(file_content@),
            out@.len() + 1 == i,
            forall|k: int|
                1 <= k < i ==> spec_atom_of_line(
                    #[trigger] spec_lines(file_content@)[k],
                ) is Some,
            forall|k: int|
                0 <= k < out@.len() ==> spec_atom_of_line(spec_lines(file_content@)[k + 1])
                    == Some((#[trigger] out@[k])@),
        decreases lines@.len() - i,
    {
        let ghost linev = spec_lines(file_content@)[i as int];
        proof {
            assert(lines@[i as int]@ == linev);
        }
        let fields = split_commas(lines[i].as_str());
        if fields.len() < 4 {
            proof {
                assert(spec_fields(linev).len() < 4);
                assert(spec_atom_of_line(linev) is None);
            }
            return Err(plain_err("malformed periodic table line"));
        }
        let mass = match parse_mass_milli(fields[3].as_str()) {
            Some(m) => m,
            None => {
                proof {
                    assert(fields@[3]@ == spec_fields(linev)[3]);
                    assert(spec_atom_of_line(linev) is None);
                }
                return Err(plain_err("malformed periodic table line"));
            },
        };
        let atom = Atom {
            name: fields[1].clone(),
            code: fields[2].clone(),
            atomic_mass_milli_amu: mass,
        };
        out.push(atom);
        i = i + 1;
    }
    Ok(out)
}

fn plain_err(msg: &str) -> (r: PositionedError)
    ensures
        r.0@ == msg@,
        r.1 is None,
{
    PositionedError(String::from_str(msg), None)
}

/// Loads the periodic table: the element records keyed by their symbol.
pub fn load_periodic_table(file_content: &str) -> (r: Result<PeriodicTable, PositionedError>)
    ensures
        r matches Ok(t) ==> {
            let lines = spec_lines(file_content@);
            &&& t.entries@.len() + 1 == lines.len()
            &&& forall|i: int|
                0 <= i < t.entries@.len() ==> spec_atom_of_line(lines[i + 1]) == Some(
                    (#[trigger] t.entries@[i])@,
                )
        },
        (r is Err) <==> exists|i: int|
            1 <= i < spec_lines(file_content@).len() && spec_atom_of_line(
                #[trigger] spec_lines(file_content@)[i],
            ) is None,
{
    match load_peridic_table_as_vec(file_content) {
        Ok(entries) => Ok(PeriodicTable { entries }),
        Err(e) => Err(e),
    }
}

} // verus!
