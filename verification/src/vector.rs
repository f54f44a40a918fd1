//! Dense vectors, held as the IEEE-754 bit patterns of their `f32`
//! components.
//!
//! A [`Vector`] is never empty and every component is finite: the
//! constructor refuses anything else, so a stored vector can always be
//! encoded, decoded and compared component for component.

use vstd::prelude::*;

use crate::float::{law_single_eq_is_equal_value, single_eq, single_equal, single_is_nan, single_value};

verus! {

/// An `f32` bit pattern is finite when its exponent is not all ones
/// (all ones is an infinity or a NaN).
pub open spec fn finite_bits(x: u32) -> bool {
    (x >> 23u32) & 0xffu32 != 0xffu32
}

/// Every component is finite.
pub open spec fn all_finite(s: Seq<u32>) -> bool {
    forall|i: int| 0 <= i < s.len() ==> finite_bits(#[trigger] s[i])
}

/// The components make a valid vector: at least one, all finite.
pub open spec fn valid_components(s: Seq<u32>) -> bool {
    s.len() > 0 && all_finite(s)
}

/// Why components were refused.
#[derive(Debug, Clone, Copy, PartialEq, Eq, Structural)]
pub enum VectorError {
    Empty,
    NonFinite,
}

/// The description that [`VectorError::reason`] gives.
pub open spec fn vector_error_reason(e: VectorError) -> Seq<char> {
    match e {
        VectorError::Empty => "vector is empty"@,
        VectorError::NonFinite => "vector contains a non-finite value"@,
    }
}

impl VectorError {
    pub fn reason(&self) -> (r: &'static str)
        ensures
            r@ == vector_error_reason(*self),
    {
        match self {
            VectorError::Empty => "vector is empty",
            VectorError::NonFinite => "vector contains a non-finite value",
        }
    }
}

/// Whether one `f32` bit pattern is finite.
pub fn is_finite_bits(x: u32) -> (r: bool)
    ensures
        r == finite_bits(x),
{
    (x >> 23u32) & 0xffu32 != 0xffu32
}

/// Component-wise IEEE-754 equality of two sequences of `f32` bits.
pub open spec fn components_eq(a: Seq<u32>, b: Seq<u32>) -> bool {
    a.len() == b.len() && forall|i: int| 0 <= i < a.len() ==> single_eq(#[trigger] a[i], b[i])
}

/// Vectors of finite components are equal exactly when they have the same
/// length and each component has the same value as the other's (so `+0`
/// and `-0` components match).
pub proof fn law_vector_equality_is_componentwise(a: Seq<u32>, b: Seq<u32>)
    requires
        all_finite(a),
        all_finite(b),
    ensures
        components_eq(a, b) <==> (a.len() == b.len() && forall|i: int|
            0 <= i < a.len() ==> single_value(#[trigger] a[i]) == single_value(b[i])),
{
    assert forall|i: int| 0 <= i < a.len() && i < b.len() implies (single_eq(#[trigger] a[i], b[i])
        <==> single_value(a[i]) == single_value(b[i])) by {
        let x = a[i];
        let y = b[i];
        assert(finite_bits(x) && finite_bits(y));
        assert((x >> 23u32) & 0xffu32 != 0xffu32 ==> !((x & 0x7f80_0000u32) == 0x7f80_0000u32))
            by (bit_vector);
        assert((y >> 23u32) & 0xffu32 != 0xffu32 ==> !((y & 0x7f80_0000u32) == 0x7f80_0000u32))
            by (bit_vector);
        assert(!single_is_nan(x) && !single_is_nan(y));
        law_single_eq_is_equal_value(x, y);
    }
}

/// A non-empty vector of finite `f32` components, kept as bit patterns.
/// Two vectors are equal when their components are, as floats.
#[derive(Debug)]
pub struct Vector {
    components: Vec<u32>,
}

impl View for Vector {
    type V = Seq<u32>;

    closed spec fn view(&self) -> Seq<u32> {
        self.components@
    }
}

impl Vector {
    #[verifier::type_invariant]
    spec fn valid(self) -> bool {
        valid_components(self.components@)
    }

    /// Takes the components if there is at least one and all are finite.
    pub fn from_bits(components: Vec<u32>) -> (r: Result<Vector, VectorError>)
        ensures
            components@.len() == 0 ==> r == Err::<Vector, VectorError>(VectorError::Empty),
            components@.len() > 0 && !all_finite(components@) ==> r == Err::<Vector, VectorError>(
                VectorError::NonFinite,
            ),
            valid_components(components@) ==> (r matches Ok(v) && v@ == components@),
    {
        if components.len() == 0 {
            return Err(VectorError::Empty);
        }
        let mut i: usize = 0;
        while i < components.len()
            invariant
                i <= components@.len(),
                forall|j: int| 0 <= j < i ==> finite_bits(#[trigger] components@[j]),
            decreases components.len() - i,
        {
            if !is_finite_bits(components[i]) {
                return Err(VectorError::NonFinite);
            }
            i = i + 1;
        }
        Ok(Vector { components })
    }

    /// Copies the components from a slice, with the checks of
    /// [`Vector::from_bits`].
    pub fn from_slice(components: &[u32]) -> (r: Result<Vector, VectorError>)
        ensures
            components@.len() == 0 ==> r == Err::<Vector, VectorError>(VectorError::Empty),
            components@.len() > 0 && !all_finite(components@) ==> r == Err::<Vector, VectorError>(
                VectorError::NonFinite,
            ),
            valid_components(components@) ==> (r matches Ok(v) && v@ == components@),
    {
        let mut copy: Vec<u32> = Vec::new();
        let mut i: usize = 0;
        while i < components.len()
            invariant
                i <= components@.len(),
                copy@ == components@.subrange(0, i as int),
            decreases components.len() - i,
        {
            copy.push(components[i]);
            i = i + 1;
            assert(copy@ =~= components@.subrange(0, i as int));
        }
        assert(copy@ =~= components@);
        Vector::from_bits(copy)
    }

    /// The number of components.
    pub fn dim(&self) -> (n: usize)
        ensures
            n == self@.len(),
            n > 0,
    {
        proof {
            use_type_invariant(self);
        }
        self.components.len()
    }

    /// The components' bit patterns (never empty, all finite).
    pub fn as_bits(&self) -> (r: &[u32])
        ensures
            r@ == self@,
            valid_components(self@),
    {
        proof {
            use_type_invariant(self);
        }
        self.components.as_slice()
    }

    /// Gives the components back.
    pub fn into_bits(self) -> (r: Vec<u32>)
        ensures
            r@ == self@,
    {
        self.components
    }
}

impl PartialEq for Vector {
    fn eq(&self, other: &Self) -> (r: bool) {
        if self.components.len() != other.components.len() {
            return false;
        }
        let mut i: usize = 0;
        while i < self.components.len()
            invariant
                i <= self.components@.len(),
                self.components@.len() == other.components@.len(),
                forall|j: int| 0 <= j < i ==> single_eq(#[trigger] self.components@[j], other.components@[j]),
            decreases self.components.len() - i,
        {
            if !single_equal(self.components[i], other.components[i]) {
                return false;
            }
            i = i + 1;
        }
        true
    }
}

impl vstd::std_specs::cmp::PartialEqSpecImpl for Vector {
    open spec fn obeys_eq_spec() -> bool {
        true
    }

    open spec fn eq_spec(&self, other: &Self) -> bool {
        components_eq(self@, other@)
    }
}

impl Clone for Vector {
    fn clone(&self) -> (r: Self)
        ensures
            r@ == self@,
    {
        proof {
            use_type_invariant(self);
        }
        let mut out: Vec<u32> = Vec::new();
        let mut i: usize = 0;
        while i < self.components.len()
            invariant
                i <= self.components@.len(),
                out@ == self.components@.subrange(0, i as int),
            decreases self.components.len() - i,
        {
            out.push(self.components[i]);
            i = i + 1;
            assert(out@ =~= self.components@.subrange(0, i as int));
        }
        assert(out@ =~= self.components@);
        Vector { components: out }
    }
}

} // verus!
