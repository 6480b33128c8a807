use vstd::prelude::*;

verus! {

/// True iff bit `i` (counted from the least significant end) of `b` is set.
pub open spec fn bit_at(b: u8, i: u8) -> bool {
    (b >> i) & 1 == 1
}

/// Position of the lowest clear bit of `x`.
pub fn first_zero_position(x: u8) -> (r: u8)
    requires
        x != 255,
    ensures
        r < 8,
        !bit_at(x, r),
        forall|i: u8| i < r ==> bit_at(x, i),
{
    let mut i: u8 = 0;
    while i < 8
        invariant
            i <= 8,
            forall|j: u8| j < i ==> bit_at(x, j),
        decreases 8 - i,
    {
        if (x >> i) & 1 == 0 {
            proof {
                assert((x >> i) & 1 == 0 || (x >> i) & 1 == 1) by (bit_vector);
            }
            return i;
        }
        proof {
            assert((x >> i) & 1 == 0 || (x >> i) & 1 == 1) by (bit_vector);
        }
        i = i + 1;
    }
    proof {
        assert(bit_at(x, 0) && bit_at(x, 1) && bit_at(x, 2) && bit_at(x, 3) && bit_at(x, 4)
            && bit_at(x, 5) && bit_at(x, 6) && bit_at(x, 7));
        assert(x == 255) by (bit_vector)
            requires
                (x >> 0) & 1 == 1,
                (x >> 1) & 1 == 1,
                (x >> 2) & 1 == 1,
                (x >> 3) & 1 == 1,
                (x >> 4) & 1 == 1,
                (x >> 5) & 1 == 1,
                (x >> 6) & 1 == 1,
                (x >> 7) & 1 == 1,
        ;
        assert(false);
    }
    vstd::pervasive::unreached()
}

} // verus!
