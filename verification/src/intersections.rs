//! Where a ray meets the shapes of a scene, and which meeting is seen.

use crate::sphere::Sphere;
use vstd::prelude::*;

verus! {

/// The shapes that a ray can meet.
#[derive(Clone, Copy, Debug)]
pub enum Shape {
    Sphere(Sphere),
}

/// One meeting of a ray with an object.
///
/// `t` is the distance from the ray's origin along its direction, held as a
/// signed whole number that orders as the distance does: zero is the origin
/// itself, a negative `t` lies behind it. `distance_key` gives that number
/// for a distance in double precision.
#[derive(Clone, Copy, Debug)]
pub struct Intersection<S> {
    pub t: i64,
    pub object: S,
}

/// The bit that holds the sign of a number in double precision.
pub const SIGN_BIT: u64 = 0x8000_0000_0000_0000;

/// The bits of positive infinity. Bits that are greater, the sign left
/// aside, stand for no number.
pub const INFINITY_BITS: u64 = 0x7FF0_0000_0000_0000;

/// Whether `bits` are those of a number in double precision, infinite or
/// not, rather than those of a NaN.
pub open spec fn is_number(bits: u64) -> bool {
    bits % SIGN_BIT <= INFINITY_BITS
}

/// The key of the number in double precision that has the given bits. The
/// keys of two numbers order as the numbers do, with a zero of negative sign
/// (key -1) just below the zero of positive sign (key 0), so a key is above
/// zero exactly where the number is. What is not a number has key 0 and is
/// never in front of the origin.
pub open spec fn key_of(bits: u64) -> int {
    if !is_number(bits) {
        0
    } else if bits < SIGN_BIT {
        bits as int
    } else {
        -1 - (bits - SIGN_BIT)
    }
}

/// The bits that a key stands for.
pub open spec fn bits_of(key: int) -> int {
    if key >= 0 {
        key
    } else {
        SIGN_BIT + (-1 - key)
    }
}

/// The bits of a number are found again from its key.
pub proof fn lemma_key_keeps_the_number(bits: u64)
    requires
        is_number(bits),
    ensures
        bits_of(key_of(bits)) == bits,
{
}

/// Two numbers of positive sign order as their bits do, two of negative sign
/// the other way around, and one of negative sign lies below one of positive
/// sign: the keys order in just that way.
pub proof fn lemma_keys_order_as_numbers(a: u64, b: u64)
    requires
        is_number(a),
        is_number(b),
    ensures
        key_of(a) < key_of(b) <==> {
            ||| a >= SIGN_BIT && b < SIGN_BIT
            ||| a < b < SIGN_BIT
            ||| a > b >= SIGN_BIT
        },
{
}

/// The key of a distance given by its bits in double precision.
pub fn distance_key(bits: u64) -> (key: i64)
    ensures
        key == key_of(bits),
        key > 0 <==> is_number(bits) && 0 < bits < SIGN_BIT,
{
    let magnitude = bits % SIGN_BIT;
    if magnitude > INFINITY_BITS {
        0
    } else if bits < SIGN_BIT {
        bits as i64
    } else {
        -1 - (magnitude as i64)
    }
}

/// The bits in double precision of the distance that a key stands for.
pub fn key_bits(key: i64) -> (bits: u64)
    ensures
        bits == bits_of(key as int),
{
    if key >= 0 {
        key as u64
    } else {
        SIGN_BIT + ((-1 - key) as u64)
    }
}

/// Whether the intersection at place `k` is the one that is seen: it lies in
/// front of the origin, none in front of the origin lies nearer, and none
/// before it in the sequence lies as near.
pub open spec fn is_hit<S>(intersections: Seq<Intersection<S>>, k: int) -> bool {
    &&& 0 <= k < intersections.len()
    &&& intersections[k].t > 0
    &&& forall|j: int|
        0 <= j < intersections.len() && intersections[j].t > 0 ==> intersections[k].t
            <= intersections[j].t
    &&& forall|j: int| 0 <= j < k && intersections[j].t > 0 ==> intersections[k].t < intersections[j].t
}

/// At most one place holds the intersection that is seen.
pub proof fn lemma_hit_is_unique<S>(intersections: Seq<Intersection<S>>, k1: int, k2: int)
    requires
        is_hit(intersections, k1),
        is_hit(intersections, k2),
    ensures
        k1 == k2,
{
}

/// The intersection that is seen: of those in front of the ray's origin
/// (`t > 0`) the nearest, and of several equally near the first. `None` when
/// no intersection lies in front of the origin.
pub fn hit(intersections: Vec<Intersection<Shape>>) -> (found: Option<Intersection<Shape>>)
    ensures
        match found {
            Some(nearest) => exists|k: int|
                is_hit(intersections@, k) && nearest == intersections@[k],
            None => forall|j: int| 0 <= j < intersections@.len() ==> intersections@[j].t <= 0,
        },
{
    let mut found: Option<Intersection<Shape>> = None;
    let ghost mut place: int = 0;
    let mut i: usize = 0;
    while i < intersections.len()
        invariant
            i <= intersections@.len(),
            match found {
                Some(nearest) => {
                    &&& is_hit(intersections@.take(i as int), place)
                    &&& nearest == intersections@[place]
                },
                None => forall|j: int| 0 <= j < i ==> intersections@[j].t <= 0,
            },
        decreases intersections@.len() - i,
    {
        let candidate = intersections[i];
        let nearer = match found {
            Some(nearest) => candidate.t < nearest.t,
            None => true,
        };
        if candidate.t > 0 && nearer {
            found = Some(candidate);
            proof {
                place = i as int;
            }
        }
        i += 1;
    }
    proof {
        assert(intersections@.take(i as int) =~= intersections@);
    }
    found
}

} // verus!
