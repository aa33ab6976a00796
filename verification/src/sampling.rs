//! Random draws, held exactly.
//!
//! A draw from `[0, 1)` is a 52-bit fraction, and a point of the unit disk or
//! the unit ball is a pair or triple of signed 51-bit fractions, so that the
//! rejection tests are decided in integer arithmetic, without rounding.

use rand::Rng;
use vstd::prelude::*;

verus! {

/// Denominator of a `UnitSample`: two to the power 52.
pub const UNIT: u64 = 0x10_0000_0000_0000;

/// Denominator of a point coordinate: two to the power 51.
pub const HALF_UNIT: i64 = 0x8_0000_0000_0000;

/// The generator that the draws come from.
#[verifier::external_type_specification]
#[verifier::external_body]
pub struct ExStdRng(rand::StdRng);

/// `rand::Rng::next_u64` on a `rand::StdRng`: the next 64 bits of the stream.
/// The generator advances; nothing is claimed of the bits that come back.
#[verifier::external_body]
fn next_bits(rng: &mut rand::StdRng) -> (bits: u64) {
    rng.next_u64()
}

/// A real number in `[0, 1)`: the fraction `numerator / 2^52`.
#[derive(Clone, Copy, Debug)]
pub struct UnitSample {
    numerator: u64,
}

impl View for UnitSample {
    type V = nat;

    /// The numerator of the fraction, over the denominator `UNIT`.
    closed spec fn view(&self) -> nat {
        self.numerator as nat
    }
}

impl UnitSample {
    #[verifier::type_invariant]
    spec fn in_range(self) -> bool {
        self.numerator < UNIT
    }

    /// The sample that the low 52 bits of `bits` spell out.
    pub fn from_bits(bits: u64) -> (sample: UnitSample)
        ensures
            sample@ == bits as nat % UNIT as nat,
    {
        let numerator: u64 = bits & 0xF_FFFF_FFFF_FFFF;
        assert(numerator == bits % 0x10_0000_0000_0000) by (bit_vector)
            requires
                numerator == bits & 0xF_FFFF_FFFF_FFFF,
        ;
        UnitSample { numerator }
    }

    /// The numerator of the fraction; the denominator is `UNIT`.
    pub fn numerator(&self) -> (n: u64)
        ensures
            n == self@,
            n < UNIT,
    {
        proof {
            use_type_invariant(self);
        }
        self.numerator
    }

    /// The sample moved from `[0, 1)` to `[-1, 1)` by `2p - 1`, as a numerator
    /// over the denominator `HALF_UNIT`.
    pub fn centered(&self) -> (c: i64)
        ensures
            c == self@ - HALF_UNIT,
            -HALF_UNIT <= c < HALF_UNIT,
    {
        proof {
            use_type_invariant(self);
        }
        (self.numerator as i64) - HALF_UNIT
    }
}

/// One draw from `[0, 1)`; the generator advances by 64 bits.
pub fn uniform(rng: &mut rand::StdRng) -> (sample: UnitSample)
    ensures
        sample@ < UNIT,
{
    let bits: u64 = next_bits(rng);
    let sample = UnitSample::from_bits(bits);
    proof {
        use_type_invariant(&sample);
    }
    sample
}

/// Whether the point `(x, y)`, in units of `1 / HALF_UNIT`, lies strictly
/// inside the unit disk.
pub open spec fn inside_unit_disk(x: int, y: int) -> bool {
    x * x + y * y < HALF_UNIT * HALF_UNIT
}

/// Whether the point `(x, y, z)`, in units of `1 / HALF_UNIT`, lies strictly
/// inside the unit ball.
pub open spec fn inside_unit_ball(x: int, y: int, z: int) -> bool {
    x * x + y * y + z * z < HALF_UNIT * HALF_UNIT
}

/// The square of a coordinate, which fits in 128 bits with room to add three.
fn square(c: i64) -> (sq: u128)
    requires
        -HALF_UNIT <= c < HALF_UNIT,
    ensures
        sq == c * c,
        sq <= HALF_UNIT * HALF_UNIT,
{
    assert(0 <= c * c <= HALF_UNIT * HALF_UNIT) by (nonlinear_arith)
        requires
            -HALF_UNIT <= c < HALF_UNIT,
    ;
    let wide: i128 = c as i128;
    (wide * wide) as u128
}

/// A point strictly inside the unit disk, with coordinates in units of
/// `1 / HALF_UNIT`.
#[derive(Clone, Copy, Debug)]
pub struct DiskPoint {
    x: i64,
    y: i64,
}

impl View for DiskPoint {
    type V = (int, int);

    /// The two coordinates, as numerators over `HALF_UNIT`.
    closed spec fn view(&self) -> (int, int) {
        (self.x as int, self.y as int)
    }
}

impl DiskPoint {
    #[verifier::type_invariant]
    spec fn in_disk(self) -> bool {
        &&& -HALF_UNIT <= self.x < HALF_UNIT
        &&& -HALF_UNIT <= self.y < HALF_UNIT
        &&& inside_unit_disk(self.x as int, self.y as int)
    }

    /// The candidate `(2a - 1, 2b - 1)`, kept if its squared length is below
    /// one and rejected otherwise.
    pub fn from_samples(a: UnitSample, b: UnitSample) -> (result: Option<DiskPoint>)
        ensures
            result is Some <==> inside_unit_disk(a@ - HALF_UNIT, b@ - HALF_UNIT),
            result is Some ==> result->0@ == (a@ - HALF_UNIT, b@ - HALF_UNIT),
    {
        let x: i64 = a.centered();
        let y: i64 = b.centered();
        let length_squared: u128 = square(x) + square(y);
        if length_squared >= 0x40_0000_0000_0000_0000_0000_0000 {
            None
        } else {
            Some(DiskPoint { x, y })
        }
    }

    /// The first coordinate, as a numerator over `HALF_UNIT`.
    pub fn x(&self) -> (c: i64)
        ensures
            c == self@.0,
            -HALF_UNIT <= c < HALF_UNIT,
            inside_unit_disk(self@.0, self@.1),
    {
        proof {
            use_type_invariant(self);
        }
        self.x
    }

    /// The second coordinate, as a numerator over `HALF_UNIT`.
    pub fn y(&self) -> (c: i64)
        ensures
            c == self@.1,
            -HALF_UNIT <= c < HALF_UNIT,
            inside_unit_disk(self@.0, self@.1),
    {
        proof {
            use_type_invariant(self);
        }
        self.y
    }
}

/// A point strictly inside the unit ball, with coordinates in units of
/// `1 / HALF_UNIT`.
#[derive(Clone, Copy, Debug)]
pub struct BallPoint {
    x: i64,
    y: i64,
    z: i64,
}

impl View for BallPoint {
    type V = (int, int, int);

    /// The three coordinates, as numerators over `HALF_UNIT`.
    closed spec fn view(&self) -> (int, int, int) {
        (self.x as int, self.y as int, self.z as int)
    }
}

impl BallPoint {
    #[verifier::type_invariant]
    spec fn in_ball(self) -> bool {
        &&& -HALF_UNIT <= self.x < HALF_UNIT
        &&& -HALF_UNIT <= self.y < HALF_UNIT
        &&& -HALF_UNIT <= self.z < HALF_UNIT
        &&& inside_unit_ball(self.x as int, self.y as int, self.z as int)
    }

    /// The candidate `(2a - 1, 2b - 1, 2c - 1)`, kept if its squared length is
    /// below one and rejected otherwise.
    pub fn from_samples(a: UnitSample, b: UnitSample, c: UnitSample) -> (result: Option<BallPoint>)
        ensures
            result is Some <==> inside_unit_ball(
                a@ - HALF_UNIT,
                b@ - HALF_UNIT,
                c@ - HALF_UNIT,
            ),
            result is Some ==> result->0@ == (a@ - HALF_UNIT, b@ - HALF_UNIT, c@ - HALF_UNIT),
    {
        let x: i64 = a.centered();
        let y: i64 = b.centered();
        let z: i64 = c.centered();
        let length_squared: u128 = square(x) + square(y) + square(z);
        if length_squared >= 0x40_0000_0000_0000_0000_0000_0000 {
            None
        } else {
            Some(BallPoint { x, y, z })
        }
    }

    /// The first coordinate, as a numerator over `HALF_UNIT`.
    pub fn x(&self) -> (c: i64)
        ensures
            c == self@.0,
            -HALF_UNIT <= c < HALF_UNIT,
            inside_unit_ball(self@.0, self@.1, self@.2),
    {
        proof {
            use_type_invariant(self);
        }
        self.x
    }

    /// The second coordinate, as a numerator over `HALF_UNIT`.
    pub fn y(&self) -> (c: i64)
        ensures
            c == self@.1,
            -HALF_UNIT <= c < HALF_UNIT,
            inside_unit_ball(self@.0, self@.1, self@.2),
    {
        proof {
            use_type_invariant(self);
        }
        self.y
    }

    /// The third coordinate, as a numerator over `HALF_UNIT`.
    pub fn z(&self) -> (c: i64)
        ensures
            c == self@.2,
            -HALF_UNIT <= c < HALF_UNIT,
            inside_unit_ball(self@.0, self@.1, self@.2),
    {
        proof {
            use_type_invariant(self);
        }
        self.z
    }

}

/// Rejection sampling in the unit disk: draws pairs from `rng`, first
/// coordinate first, until one lies inside, for at most `attempts` pairs.
/// `None` means that every pair drawn was rejected.
pub fn random_in_unit_disk(rng: &mut rand::StdRng, attempts: usize) -> (result: Option<DiskPoint>)
    ensures
        attempts == 0 ==> result is None,
        result is Some ==> inside_unit_disk(result->0@.0, result->0@.1),
{
    let mut left: usize = attempts;
    while left > 0
        invariant
            left <= attempts,
        decreases left,
    {
        let a = uniform(rng);
        let b = uniform(rng);
        let candidate = DiskPoint::from_samples(a, b);
        if candidate.is_some() {
            return candidate;
        }
        left = left - 1;
    }
    None
}

/// Rejection sampling in the unit ball: draws triples from `rng`, in the
/// order of the coordinates, until one lies inside, for at most `attempts`
/// triples. `None` means that every triple drawn was rejected.
pub fn random_in_unit_sphere(rng: &mut rand::StdRng, attempts: usize) -> (result: Option<BallPoint>)
    ensures
        attempts == 0 ==> result is None,
        result is Some ==> inside_unit_ball(result->0@.0, result->0@.1, result->0@.2),
{
    let mut left: usize = attempts;
    while left > 0
        invariant
            left <= attempts,
        decreases left,
    {
        let a = uniform(rng);
        let b = uniform(rng);
        let c = uniform(rng);
        let candidate = BallPoint::from_samples(a, b, c);
        if candidate.is_some() {
            return candidate;
        }
        left = left - 1;
    }
    None
}

} // verus!
