//! The real roots of a polynomial of degree one to three.
//!
//! The polynomial is `a x^3 + b x^2 + c x + d`. Degrees one and two are
//! solved in closed form. Degree three follows Cardano: with one real root or
//! a repeated one the roots are cube roots; with three real roots they lie on
//! the cosine and the sine of a third of an angle, and these two numbers the
//! caller supplies, since no arithmetic on doubles yields them.
use crate::scalar::Scalar;
use vstd::prelude::*;

verus! {

/// A cubic reduced after Cardano.
#[derive(Clone, Copy, Debug, PartialEq, Eq, Structural)]
pub struct Cardano {
    /// With `a2 = b / a` and `a1 = c / a`: `(3 a1 - a2^2) / 9`.
    pub q: Scalar,
    /// With `a0 = d / a` besides: `(9 a2 a1 - 27 a0 - 2 a2^3) / 54`.
    pub r: Scalar,
    /// `q^3 + r^2`: positive for one real root, negative for three.
    pub discriminant: Scalar,
    /// `-a2 / 3`: what every root of the reduced cubic is shifted by.
    pub shift: Scalar,
    /// The root of minus the discriminant: the side that, over `r`, spans the
    /// angle of the three real roots.
    pub height: Scalar,
}

/// The angle of the three real roots of a reduced cubic, by the two numbers
/// that the roots need of it.
#[derive(Clone, Copy, Debug, PartialEq, Eq, Structural)]
pub struct Radicals {
    /// The cosine of a third of the angle whose tangent is `height / r`.
    pub cosine: Scalar,
    /// The sine of that third.
    pub sine: Scalar,
}

/// The degree at which a polynomial is solved: the power of the highest
/// coefficient that exceeds the tolerance in absolute value, and 0 where none
/// of `a`, `b`, `c` does.
pub open spec fn spec_polynomial_degree(a: Scalar, b: Scalar, c: Scalar) -> u8 {
    if Scalar::epsilon().below(a.absolute()) {
        3
    } else if Scalar::epsilon().below(b.absolute()) {
        2
    } else if Scalar::epsilon().below(c.absolute()) {
        1
    } else {
        0
    }
}

/// The cube root with the sign of its argument.
pub open spec fn spec_cubrt(n: Scalar) -> Scalar {
    n.cube_root()
}

/// The cubic `a x^3 + b x^2 + c x + d`, reduced.
pub open spec fn spec_cardano(a: Scalar, b: Scalar, c: Scalar, d: Scalar) -> Cardano {
    let a2 = b.over(a);
    let a1 = c.over(a);
    let a0 = d.over(a);
    let q = Scalar::whole(3).times(a1).minus(a2.times(a2)).over(Scalar::whole(9));
    let r = Scalar::whole(9).times(a2).times(a1).minus(Scalar::whole(27).times(a0)).minus(
        Scalar::whole(2).times(a2.times(a2).times(a2)),
    ).over(Scalar::whole(54));
    let d0 = q.times(q).times(q).plus(r.times(r));
    Cardano {
        q,
        r,
        discriminant: d0,
        shift: a2.negated().over(Scalar::whole(3)),
        height: d0.negated().root(),
    }
}

/// The root of `c x + d`.
pub open spec fn linear_root(c: Scalar, d: Scalar) -> Seq<Scalar> {
    seq![d.negated().over(c)]
}

/// The roots of `b x^2 + c x + d`, by the discriminant `c^2 - 4 b d`: none
/// where it is below minus the tolerance, the double root `-c / 2b` where it
/// is within the tolerance of zero, else that root plus and less the root of
/// the discriminant over `2b`.
pub open spec fn quadratic_roots(b: Scalar, c: Scalar, d: Scalar) -> Seq<Scalar> {
    let discriminant = c.times(c).minus(Scalar::whole(4).times(b).times(d));
    let q1 = c.negated().over(Scalar::whole(2).times(b));
    if discriminant.below(Scalar::epsilon().negated()) {
        Seq::empty()
    } else if discriminant.below(Scalar::epsilon()) {
        seq![q1]
    } else {
        let q2 = discriminant.root().over(Scalar::whole(2).times(b));
        seq![q1.plus(q2), q1.minus(q2)]
    }
}

/// The real roots of a reduced cubic. A positive discriminant leaves one:
/// the shift plus the cube roots of `r` plus and less the root of the
/// discriminant. A discriminant within the tolerance of zero leaves the two
/// of the repeated case, on the cube root of `r`, but none where `r` is
/// negative. Else there are three: with the sixth root of `r^2` less the
/// discriminant for radius, they lie on the cosine and the sine of the third
/// of the angle.
pub open spec fn cubic_roots(k: Cardano, v: Radicals) -> Seq<Scalar> {
    let u = k.shift;
    if Scalar::zero().below(k.discriminant) {
        let s = spec_cubrt(k.r.plus(k.discriminant.root()));
        let t = spec_cubrt(k.r.minus(k.discriminant.root()));
        seq![u.plus(s).plus(t)]
    } else if k.discriminant.absolute().below(Scalar::epsilon()) {
        if k.r.below(Scalar::zero()) {
            Seq::empty()
        } else {
            let s = spec_cubrt(k.r);
            seq![u.plus(Scalar::whole(2).times(s)), u.minus(s)]
        }
    } else {
        let radius = spec_cubrt(k.r.times(k.r).minus(k.discriminant)).root();
        let s_r = radius.times(v.cosine);
        let s_i = radius.times(v.sine);
        let side = Scalar::whole(3).root().times(s_i);
        seq![
            u.plus(Scalar::whole(2).times(s_r)),
            u.minus(s_r).minus(side),
            u.minus(s_r).plus(side),
        ]
    }
}

/// The real roots of `a x^3 + b x^2 + c x + d`, solved at the given degree:
/// the coefficients above the degree are passed over, and only degrees 1 to
/// 3 have roots.
pub open spec fn spec_polynomial(
    degree: u8,
    a: Scalar,
    b: Scalar,
    c: Scalar,
    d: Scalar,
    v: Radicals,
) -> Seq<Scalar> {
    if degree == 1 {
        linear_root(c, d)
    } else if degree == 2 {
        quadratic_roots(b, c, d)
    } else if degree == 3 {
        cubic_roots(spec_cardano(a, b, c, d), v)
    } else {
        Seq::empty()
    }
}

/// The degree at which `a x^3 + b x^2 + c x + d` is solved. A leading
/// coefficient within the tolerance of zero does not count, so a cubic that is
/// all but quadratic is solved as a quadratic.
#[verifier::when_used_as_spec(spec_polynomial_degree)]
pub fn polynomial_degree(a: Scalar, b: Scalar, c: Scalar) -> (degree: u8)
    ensures
        degree == spec_polynomial_degree(a, b, c),
        degree <= 3,
{
    let mut degree: u8 = 0;
    if c.abs().gt(Scalar::epsilon()) {
        degree = 1;
    }
    if b.abs().gt(Scalar::epsilon()) {
        degree = 2;
    }
    if a.abs().gt(Scalar::epsilon()) {
        degree = 3;
    }
    degree
}

/// The cube root of `n` with the sign of `n`.
#[verifier::when_used_as_spec(spec_cubrt)]
pub fn cubrt(n: Scalar) -> (r: Scalar)
    ensures
        r == spec_cubrt(n),
{
    n.cbrt()
}

/// The cubic `a x^3 + b x^2 + c x + d`, reduced.
#[verifier::when_used_as_spec(spec_cardano)]
pub fn cardano(a: Scalar, b: Scalar, c: Scalar, d: Scalar) -> (k: Cardano)
    ensures
        k == spec_cardano(a, b, c, d),
{
    let a2: Scalar = b.div(a);
    let a1: Scalar = c.div(a);
    let a0: Scalar = d.div(a);
    let q: Scalar = Scalar::whole(3).mul(a1).sub(a2.mul(a2)).div(Scalar::whole(9));
    let r: Scalar = Scalar::whole(9).mul(a2).mul(a1).sub(Scalar::whole(27).mul(a0)).sub(
        Scalar::whole(2).mul(a2.mul(a2).mul(a2)),
    ).div(Scalar::whole(54));
    let d0: Scalar = q.mul(q).mul(q).add(r.mul(r));
    Cardano {
        q,
        r,
        discriminant: d0,
        shift: a2.neg().div(Scalar::whole(3)),
        height: d0.neg().sqrt(),
    }
}

/// The real roots of `a x^3 + b x^2 + c x + d`, solved at the given degree,
/// in the order of their closed forms. `radicals` holds the cosine and the
/// sine that belong to `cardano(a, b, c, d)`; they are read for a cubic with
/// three real roots only.
pub fn polynomial(degree: u8, a: Scalar, b: Scalar, c: Scalar, d: Scalar, radicals: Radicals) -> (r:
    Vec<Scalar>)
    ensures
        r@ == spec_polynomial(degree, a, b, c, d, radicals),
        r@.len() <= degree,
        r@.len() <= 3,
{
    let mut roots: Vec<Scalar> = Vec::new();
    if degree == 1 {
        roots.push(d.neg().div(c));
    } else if degree == 2 {
        let discriminant: Scalar = c.mul(c).sub(Scalar::whole(4).mul(b).mul(d));
        if discriminant.lt(Scalar::epsilon().neg()) {
        } else {
            let q1: Scalar = c.neg().div(Scalar::whole(2).mul(b));
            if discriminant.lt(Scalar::epsilon()) {
                roots.push(q1);
            } else {
                let q2: Scalar = discriminant.sqrt().div(Scalar::whole(2).mul(b));
                roots.push(q1.add(q2));
                roots.push(q1.sub(q2));
            }
        }
    } else if degree == 3 {
        let k: Cardano = cardano(a, b, c, d);
        let u: Scalar = k.shift;
        if k.discriminant.gt(Scalar::zero()) {
            let sqrt_d0: Scalar = k.discriminant.sqrt();
            let s: Scalar = cubrt(k.r.add(sqrt_d0));
            let t: Scalar = cubrt(k.r.sub(sqrt_d0));
            roots.push(u.add(s).add(t));
        } else if k.discriminant.abs().lt(Scalar::epsilon()) {
            if !k.r.lt(Scalar::zero()) {
                let s: Scalar = cubrt(k.r);
                roots.push(u.add(Scalar::whole(2).mul(s)));
                roots.push(u.sub(s));
            }
        } else {
            let r_s: Scalar = cubrt(k.r.mul(k.r).sub(k.discriminant)).sqrt();
            let s_r: Scalar = r_s.mul(radicals.cosine);
            let s_i: Scalar = r_s.mul(radicals.sine);
            let side: Scalar = Scalar::whole(3).sqrt().mul(s_i);
            roots.push(u.add(Scalar::whole(2).mul(s_r)));
            roots.push(u.sub(s_r).sub(side));
            roots.push(u.sub(s_r).add(side));
        }
    }
    assert(roots@ =~= spec_polynomial(degree, a, b, c, d, radicals));
    roots
}

} // verus!
