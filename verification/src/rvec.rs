//! A 3-component vector with fixed-point coordinates, its arithmetic, and
//! its two text parsers: fixed-width chunks and whitespace-separated fields.

use crate::fixed::{parse_fixed_chunk, parse_fixed_num, FIXED_LIMIT};
use crate::text::{
    has_token, lemma_trim_empty_iff, scan_non_ws, scan_ws, token_at, token_start, trim_spec,
};
use vstd::prelude::*;

verus! {

/// Directions in a cartesian 3-dimensional system.
#[derive(Clone, Copy, Debug)]
pub enum Direction {
    X,
    Y,
    Z,
}

/// Shorthand for a 3-vector. Components are fixed-point numbers counting
/// units of 1e-5 (so `100_000` stands for 1.0).
#[derive(Clone, Copy, Debug, PartialEq, Eq, Structural)]
pub struct RVec {
    pub x: i64,
    pub y: i64,
    pub z: i64,
}

/// How parsing a vector from text can fail.
#[derive(Debug, PartialEq, Eq, Structural)]
pub enum ParseRVecError {
    MissingValues,
    ParseFloatError,
}

/// The `i`-th fixed-width field of `s` split into chunks of `len`
/// characters: absent fields are `MissingValues`, malformed numerals are
/// `ParseFloatError`.
pub open spec fn fixed_field(s: Seq<char>, len: int, i: int) -> Result<i64, ParseRVecError> {
    if i * len >= s.len() {
        Err(ParseRVecError::MissingValues)
    } else {
        let hi = if (i + 1) * len <= s.len() {
            (i + 1) * len
        } else {
            s.len() as int
        };
        match parse_fixed_num(s.subrange(i * len, hi)) {
            Some(v) => Ok(v as i64),
            None => Err(ParseRVecError::ParseFloatError),
        }
    }
}

/// What `RVec::from_fixed` returns: blank input is `MissingValues`,
/// otherwise the first three chunks of width `len` must parse.
pub open spec fn from_fixed_spec(s: Seq<char>, len: int) -> Result<RVec, ParseRVecError> {
    if trim_spec(s).len() == 0 {
        Err(ParseRVecError::MissingValues)
    } else {
        match fixed_field(s, len, 0) {
            Err(e) => Err(e),
            Ok(x) => match fixed_field(s, len, 1) {
                Err(e) => Err(e),
                Ok(y) => match fixed_field(s, len, 2) {
                    Err(e) => Err(e),
                    Ok(z) => Ok(RVec { x, y, z }),
                },
            },
        }
    }
}

/// The `k`-th whitespace-separated field of `s`; a missing field gives
/// `missing`, a malformed one `ParseFloatError`.
pub open spec fn token_field(s: Seq<char>, k: int, missing: ParseRVecError) -> Result<
    i64,
    ParseRVecError,
> {
    if !has_token(s, k) {
        Err(missing)
    } else {
        match parse_fixed_num(token_at(s, k)) {
            Some(v) => Ok(v as i64),
            None => Err(ParseRVecError::ParseFloatError),
        }
    }
}

/// What `RVec::from_whitespace` returns: three whitespace-separated
/// numerals; extra trailing fields are ignored. An entirely blank input is
/// `MissingValues`; a later missing field is `ParseFloatError`.
pub open spec fn from_whitespace_spec(s: Seq<char>) -> Result<RVec, ParseRVecError> {
    match token_field(s, 0, ParseRVecError::MissingValues) {
        Err(e) => Err(e),
        Ok(x) => match token_field(s, 1, ParseRVecError::ParseFloatError) {
            Err(e) => Err(e),
            Ok(y) => match token_field(s, 2, ParseRVecError::ParseFloatError) {
                Err(e) => Err(e),
                Ok(z) => Ok(RVec { x, y, z }),
            },
        },
    }
}

/// One fixed-width field, as `from_fixed` sees it.
fn fixed_field_exec(s: &str, length: usize, i: usize, n: usize) -> (r: Result<
    i64,
    ParseRVecError,
>)
    requires
        i <= 2,
        1 <= length,
        3 * length <= usize::MAX,
        n == s@.len(),
    ensures
        r == fixed_field(s@, length as int, i as int),
{
    proof {
        assert(i * length + length <= 3 * length) by (nonlinear_arith)
            requires
                i <= 2,
                length >= 0,
        {
        }
        assert((i + 1) * length == i * length + length) by (nonlinear_arith);
    }
    let lo = i * length;
    if lo >= n {
        return Err(ParseRVecError::MissingValues);
    }
    let hi = if lo + length <= n {
        lo + length
    } else {
        n
    };
    match parse_fixed_chunk(s, lo, hi) {
        Some(v) => Ok(v),
        None => Err(ParseRVecError::ParseFloatError),
    }
}

impl RVec {
    /// Parse a vector from three consecutive fields of `length` characters
    /// each (the last may be shorter). Blank input is `MissingValues`.
    pub fn from_fixed(input: &str, length: usize) -> (r: Result<RVec, ParseRVecError>)
        requires
            1 <= length,
            3 * length <= usize::MAX,
        ensures
            r == from_fixed_spec(input@, length as int),
    {
        let n = input.unicode_len();
        let a = scan_non_ws(input, 0, n);
        proof {
            lemma_trim_empty_iff(input@);
        }
        if a == n {
            return Err(ParseRVecError::MissingValues);
        }
        let x = match fixed_field_exec(input, length, 0, n) {
            Ok(v) => v,
            Err(e) => {
                return Err(e);
            },
        };
        let y = match fixed_field_exec(input, length, 1, n) {
            Ok(v) => v,
            Err(e) => {
                return Err(e);
            },
        };
        let z = match fixed_field_exec(input, length, 2, n) {
            Ok(v) => v,
            Err(e) => {
                return Err(e);
            },
        };
        Ok(RVec { x, y, z })
    }

    /// Parse a vector from the first three whitespace-separated fields of
    /// `input`; anything after them is ignored.
    pub fn from_whitespace(input: &str) -> (r: Result<RVec, ParseRVecError>)
        ensures
            r == from_whitespace_spec(input@),
    {
        let n = input.unicode_len();
        let a0 = scan_non_ws(input, 0, n);
        if a0 == n {
            return Err(ParseRVecError::MissingValues);
        }
        let e0 = scan_ws(input, a0, n);
        let x = match parse_fixed_chunk(input, a0, e0) {
            Some(v) => v,
            None => {
                return Err(ParseRVecError::ParseFloatError);
            },
        };
        let a1 = scan_non_ws(input, e0, n);
        proof {
            assert(a1 == token_start(input@, 1));
        }
        if a1 == n {
            return Err(ParseRVecError::ParseFloatError);
        }
        let e1 = scan_ws(input, a1, n);
        let y = match parse_fixed_chunk(input, a1, e1) {
            Some(v) => v,
            None => {
                return Err(ParseRVecError::ParseFloatError);
            },
        };
        let a2 = scan_non_ws(input, e1, n);
        proof {
            assert(a2 == token_start(input@, 2));
        }
        if a2 == n {
            return Err(ParseRVecError::ParseFloatError);
        }
        let e2 = scan_ws(input, a2, n);
        let z = match parse_fixed_chunk(input, a2, e2) {
            Some(v) => v,
            None => {
                return Err(ParseRVecError::ParseFloatError);
            },
        };
        Ok(RVec { x, y, z })
    }

    /// Scale each component by the matching replication count.
    pub fn pbc_multiply(self, nx: usize, ny: usize, nz: usize) -> (r: RVec)
        requires
            i64::MIN <= self.x * nx <= i64::MAX,
            i64::MIN <= self.y * ny <= i64::MAX,
            i64::MIN <= self.z * nz <= i64::MAX,
            nx <= i64::MAX,
            ny <= i64::MAX,
            nz <= i64::MAX,
        ensures
            r.x == self.x * nx,
            r.y == self.y * ny,
            r.z == self.z * nz,
    {
        RVec { x: self.x * (nx as i64), y: self.y * (ny as i64), z: self.z * (nz as i64) }
    }

    /// The components as a tuple.
    pub fn to_tuple(&self) -> (r: (i64, i64, i64))
        ensures
            r.0 == self.x,
            r.1 == self.y,
            r.2 == self.z,
    {
        (self.x, self.y, self.z)
    }

    /// Component-wise sum.
    pub fn add(self, other: RVec) -> (r: RVec)
        requires
            i64::MIN <= self.x + other.x <= i64::MAX,
            i64::MIN <= self.y + other.y <= i64::MAX,
            i64::MIN <= self.z + other.z <= i64::MAX,
        ensures
            r.x == self.x + other.x,
            r.y == self.y + other.y,
            r.z == self.z + other.z,
    {
        RVec { x: self.x + other.x, y: self.y + other.y, z: self.z + other.z }
    }

    /// Component-wise sum, in place.
    pub fn add_assign(&mut self, other: RVec)
        requires
            i64::MIN <= old(self).x + other.x <= i64::MAX,
            i64::MIN <= old(self).y + other.y <= i64::MAX,
            i64::MIN <= old(self).z + other.z <= i64::MAX,
        ensures
            final(self).x == old(self).x + other.x,
            final(self).y == old(self).y + other.y,
            final(self).z == old(self).z + other.z,
    {
        self.x = self.x + other.x;
        self.y = self.y + other.y;
        self.z = self.z + other.z;
    }

    /// Component-wise difference.
    pub fn sub(self, other: RVec) -> (r: RVec)
        requires
            i64::MIN <= self.x - other.x <= i64::MAX,
            i64::MIN <= self.y - other.y <= i64::MAX,
            i64::MIN <= self.z - other.z <= i64::MAX,
        ensures
            r.x == self.x - other.x,
            r.y == self.y - other.y,
            r.z == self.z - other.z,
    {
        RVec { x: self.x - other.x, y: self.y - other.y, z: self.z - other.z }
    }

    /// Component-wise difference, in place.
    pub fn sub_assign(&mut self, other: RVec)
        requires
            i64::MIN <= old(self).x - other.x <= i64::MAX,
            i64::MIN <= old(self).y - other.y <= i64::MAX,
            i64::MIN <= old(self).z - other.z <= i64::MAX,
        ensures
            final(self).x == old(self).x - other.x,
            final(self).y == old(self).y - other.y,
            final(self).z == old(self).z - other.z,
    {
        self.x = self.x - other.x;
        self.y = self.y - other.y;
        self.z = self.z - other.z;
    }

    /// Component-wise negation.
    pub fn neg(self) -> (r: RVec)
        requires
            self.x > i64::MIN,
            self.y > i64::MIN,
            self.z > i64::MIN,
        ensures
            r.x == -self.x,
            r.y == -self.y,
            r.z == -self.z,
    {
        RVec { x: -self.x, y: -self.y, z: -self.z }
    }

    /// The squared distance between two vectors, exact, in squared
    /// fixed-point units. The square root (a plain float operation) is left
    /// to callers.
    pub fn distance_squared(&self, other: &RVec) -> (r: i128)
        requires
            -FIXED_LIMIT <= self.x <= FIXED_LIMIT,
            -FIXED_LIMIT <= self.y <= FIXED_LIMIT,
            -FIXED_LIMIT <= self.z <= FIXED_LIMIT,
            -FIXED_LIMIT <= other.x <= FIXED_LIMIT,
            -FIXED_LIMIT <= other.y <= FIXED_LIMIT,
            -FIXED_LIMIT <= other.z <= FIXED_LIMIT,
        ensures
            r == (self.x - other.x) * (self.x - other.x) + (self.y - other.y) * (self.y
                - other.y) + (self.z - other.z) * (self.z - other.z),
    {
        let dx = (self.x - other.x) as i128;
        let dy = (self.y - other.y) as i128;
        let dz = (self.z - other.z) as i128;
        proof {
            lemma_square_bound(dx as int);
            lemma_square_bound(dy as int);
            lemma_square_bound(dz as int);
        }
        dx * dx + dy * dy + dz * dz
    }

    /// The squared in-plane distance and the (signed) height difference
    /// along `dir`, exact. The square root of the first component is left
    /// to callers.
    pub fn distance_cylindrical_squared(&self, other: &RVec, dir: Direction) -> (r: (i128, i64))
        requires
            -FIXED_LIMIT <= self.x <= FIXED_LIMIT,
            -FIXED_LIMIT <= self.y <= FIXED_LIMIT,
            -FIXED_LIMIT <= self.z <= FIXED_LIMIT,
            -FIXED_LIMIT <= other.x <= FIXED_LIMIT,
            -FIXED_LIMIT <= other.y <= FIXED_LIMIT,
            -FIXED_LIMIT <= other.z <= FIXED_LIMIT,
        ensures
            match dir {
                Direction::X => r.0 == (self.y - other.y) * (self.y - other.y) + (self.z
                    - other.z) * (self.z - other.z) && r.1 == self.x - other.x,
                Direction::Y => r.0 == (self.x - other.x) * (self.x - other.x) + (self.z
                    - other.z) * (self.z - other.z) && r.1 == self.y - other.y,
                Direction::Z => r.0 == (self.x - other.x) * (self.x - other.x) + (self.y
                    - other.y) * (self.y - other.y) && r.1 == self.z - other.z,
            },
    {
        let dx = (self.x - other.x) as i128;
        let dy = (self.y - other.y) as i128;
        let dz = (self.z - other.z) as i128;
        proof {
            lemma_square_bound(dx as int);
            lemma_square_bound(dy as int);
            lemma_square_bound(dz as int);
        }
        match dir {
            Direction::X => (dy * dy + dz * dz, self.x - other.x),
            Direction::Y => (dx * dx + dz * dz, self.y - other.y),
            Direction::Z => (dx * dx + dy * dy, self.z - other.z),
        }
    }
}

proof fn lemma_square_bound(d: int)
    requires
        -2 * FIXED_LIMIT <= d <= 2 * FIXED_LIMIT,
    ensures
        0 <= d * d <= 4 * FIXED_LIMIT * FIXED_LIMIT,
{
    assert(0 <= d * d <= 4 * FIXED_LIMIT * FIXED_LIMIT) by (nonlinear_arith)
        requires
            -2 * FIXED_LIMIT <= d <= 2 * FIXED_LIMIT,
    {
    }
}

impl Default for RVec {
    /// The zero vector.
    fn default() -> (r: RVec)
        ensures
            r.x == 0,
            r.y == 0,
            r.z == 0,
    {
        RVec { x: 0, y: 0, z: 0 }
    }
}

} // verus!
