//! Reading the rotations of an animation.
//!
//! Each line of the rotations file is a plane of rotation: two axes, then 0
//! for a rotation in camera space or 1 for one in the saved camera space,
//! then the fraction of a full turn to make (2 for half a turn, 3 for a
//! third...).  A line of three numbers makes a full turn; a line of two gets
//! a 0 added.  The numbers of all lines are read as one list, four at a time.
use vstd::prelude::*;
use vstd::string::StringSliceAdditionalSpecFns;

use crate::loader::{lemma_parse_all_none, parse_all};
use crate::text::{parse_usize_in, space_pieces, spans_within, split_lines, split_spaces, text_lines};

verus! {

/// One rotation of an animation.
#[derive(Clone, Copy, Debug)]
pub struct Rotation {
    pub axis_a: usize,
    pub axis_b: usize,
    /// Rotate in the saved camera space rather than in camera space.
    pub saved_space: bool,
    /// The rotation makes `1 / turn_divisor` of a full turn.
    pub turn_divisor: usize,
}

/// Why a rotations file could not be read.
#[derive(Clone, Copy, PartialEq, Eq, Debug, Structural)]
pub enum RotationError {
    /// A line holds something other than numbers separated by single spaces.
    BadNumber,
    /// The numbers do not come out in whole groups of four.
    IncompleteRotation,
}

/// The numbers a line `c[line.0..line.1]` contributes: all of its numbers,
/// then a 0 after exactly two of them or a 1 after exactly three.
pub open spec fn line_values(c: Seq<u8>, line: (usize, usize)) -> Option<Seq<usize>> {
    let pieces = space_pieces(c, line.0 as int, line.1 as int);
    match parse_all(c, pieces, pieces.len()) {
        None => None,
        Some(vs) => Some(
            if vs.len() == 2 {
                vs.push(0)
            } else if vs.len() == 3 {
                vs.push(1)
            } else {
                vs
            },
        ),
    }
}

/// The numbers of the first `n` lines, in order.
pub open spec fn values_upto(c: Seq<u8>, lines: Seq<(usize, usize)>, n: nat) -> Option<Seq<usize>>
    decreases n,
{
    if n == 0 {
        Some(Seq::empty())
    } else {
        match values_upto(c, lines, (n - 1) as nat) {
            None => None,
            Some(vs) => match line_values(c, lines[n - 1]) {
                None => None,
                Some(ws) => Some(vs + ws),
            },
        }
    }
}

/// What reading the rotations file `c` gives.
pub open spec fn rotations_spec(c: Seq<u8>) -> Result<Seq<Rotation>, RotationError> {
    let lines = text_lines(c);
    match values_upto(c, lines, lines.len()) {
        None => Err(RotationError::BadNumber),
        Some(vs) => if vs.len() % 4 != 0 {
            Err(RotationError::IncompleteRotation)
        } else {
            Ok(
                Seq::new(
                    vs.len() / 4,
                    |k: int|
                        Rotation {
                            axis_a: vs[4 * k],
                            axis_b: vs[4 * k + 1],
                            saved_space: vs[4 * k + 2] == 1,
                            turn_divisor: vs[4 * k + 3],
                        },
                ),
            )
        },
    }
}

proof fn lemma_values_settled(c: Seq<u8>, lines: Seq<(usize, usize)>, k: nat, n: nat)
    requires
        k <= n,
        values_upto(c, lines, k) is None,
    ensures
        values_upto(c, lines, n) is None,
    decreases n - k,
{
    if k < n {
        lemma_values_settled(c, lines, k, (n - 1) as nat);
    }
}

/// The numbers of the line `text[line.0..line.1]` (see `line_values`).
fn read_line_values(text: &[u8], line: (usize, usize)) -> (r: Option<Vec<usize>>)
    requires
        line.0 <= line.1 <= text@.len(),
    ensures
        match r {
            Some(v) => line_values(text@, line) == Some(v@),
            None => line_values(text@, line) is None,
        },
{
    let pieces = split_spaces(text, line.0, line.1);
    let ghost c = text@;
    let mut values: Vec<usize> = Vec::new();
    let mut k: usize = 0;
    while k < pieces.len()
        invariant
            k <= pieces@.len(),
            pieces@ == space_pieces(c, line.0 as int, line.1 as int),
            c == text@,
            spans_within(pieces@, c.len() as int),
            parse_all(c, pieces@, k as nat) == Some(values@),
        decreases pieces@.len() - k,
    {
        let p = pieces[k];
        assert(p.0 <= p.1 <= c.len());
        match parse_usize_in(text, p.0, p.1) {
            None => {
                proof {
                    lemma_parse_all_none(c, pieces@, (k + 1) as nat, pieces@.len());
                }
                return None;
            },
            Some(v) => {
                values.push(v);
            },
        }
        k = k + 1;
    }
    if values.len() == 2 {
        values.push(0);
    } else if values.len() == 3 {
        values.push(1);
    }
    Some(values)
}

/// Reads the rotations file `text` (see `rotations_spec`).
pub fn parse_rotations(text: &str) -> (r: Result<Vec<Rotation>, RotationError>)
    ensures
        match rotations_spec(text.spec_bytes()) {
            Ok(rs) => r matches Ok(v) && v@ == rs,
            Err(e) => r matches Err(f) && e == f,
        },
{
    let bytes = text.as_bytes();
    let lines = split_lines(bytes);
    let ghost c = bytes@;
    let mut values: Vec<usize> = Vec::new();
    let mut i: usize = 0;
    while i < lines.len()
        invariant
            i <= lines@.len(),
            c == bytes@,
            c == text.spec_bytes(),
            lines@ == text_lines(c),
            spans_within(lines@, c.len() as int),
            values_upto(c, lines@, i as nat) == Some(values@),
        decreases lines@.len() - i,
    {
        let line = lines[i];
        assert(line.0 <= line.1 <= c.len());
        match read_line_values(bytes, line) {
            None => {
                proof {
                    lemma_values_settled(c, lines@, (i + 1) as nat, lines@.len());
                }
                return Err(RotationError::BadNumber);
            },
            Some(line_vals) => {
                let ghost before = values@;
                let mut j: usize = 0;
                while j < line_vals.len()
                    invariant
                        j <= line_vals@.len(),
                        values@ == before + line_vals@.take(j as int),
                    decreases line_vals@.len() - j,
                {
                    values.push(line_vals[j]);
                    assert(line_vals@.take(j + 1) =~= line_vals@.take(j as int).push(line_vals@[j as int]));
                    j = j + 1;
                }
                assert(line_vals@.take(line_vals@.len() as int) =~= line_vals@);
            },
        }
        i = i + 1;
    }
    if values.len() % 4 != 0 {
        return Err(RotationError::IncompleteRotation);
    }
    let ghost vs = values@;
    let mut rotations: Vec<Rotation> = Vec::new();
    let mut k: usize = 0;
    while k < values.len()
        invariant
            values@ == vs,
            vs.len() % 4 == 0,
            k % 4 == 0,
            k <= vs.len(),
            rotations@.len() == k / 4,
            forall|m: int|
                0 <= m < k / 4 ==> #[trigger] rotations@[m] == (Rotation {
                    axis_a: vs[4 * m],
                    axis_b: vs[4 * m + 1],
                    saved_space: vs[4 * m + 2] == 1,
                    turn_divisor: vs[4 * m + 3],
                }),
        decreases vs.len() - k,
    {
        let rotation = Rotation {
            axis_a: values[k],
            axis_b: values[k + 1],
            saved_space: values[k + 2] == 1,
            turn_divisor: values[k + 3],
        };
        rotations.push(rotation);
        assert((k + 4) / 4 == k / 4 + 1);
        k = k + 4;
    }
    proof {
        let expected = Seq::new(
            vs.len() / 4,
            |m: int|
                Rotation {
                    axis_a: vs[4 * m],
                    axis_b: vs[4 * m + 1],
                    saved_space: vs[4 * m + 2] == 1,
                    turn_divisor: vs[4 * m + 3],
                },
        );
        assert(rotations@ =~= expected);
    }
    Ok(rotations)
}

} // verus!
