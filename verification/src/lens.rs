//! The hash that sorts lens labels into boxes.

use vstd::prelude::*;

verus! {

/// The hash of a sequence of characters: starting from nothing, each
/// character's code is added and the sum multiplied by 17; of the result
/// only the remainder by 256 counts.
pub open spec fn hash_of(s: Seq<char>) -> int
    decreases s.len(),
{
    if s.len() == 0 {
        0
    } else {
        ((hash_of(s.drop_last()) + s.last() as int) * 17) % 256
    }
}

/// The hash of a label, which is the number of its box.
pub fn hash(s: &str) -> (h: u8)
    ensures
        h == hash_of(s@),
{
    let n: usize = s.unicode_len();
    let mut cval: u64 = 0;
    let mut i: usize = 0;
    assert(s@.take(0) =~= Seq::<char>::empty());
    while i < n
        invariant
            n == s@.len(),
            i <= n,
            cval == hash_of(s@.take(i as int)),
            cval < 256,
        decreases n - i,
    {
        let c = s.get_char(i);
        proof {
            let t = s@.take(i + 1);
            assert(t.drop_last() =~= s@.take(i as int));
            assert(t.last() == c);
            assert(c as u64 <= 0x10FFFF) by {
                assert(c as u32 <= 0x10FFFF);
            }
        }
        cval = ((cval + c as u64) * 17) % 256;
        i = i + 1;
    }
    assert(s@.take(n as int) =~= s@);
    cval as u8
}

} // verus!
