//! Filesystem-safe path segments derived from qualified names.

use vstd::prelude::*;

verus! {

/// The filesystem-safe form of a name: ':' and '/' become '-', all other
/// bytes stay.
pub open spec fn fs_safe_spec(s: Seq<u8>) -> Seq<u8> {
    s.map_values(
        |b: u8|
            if b == (':' as u8) || b == ('/' as u8) {
                ('-' as u8)
            } else {
                b
            },
    )
}

/// Makes a qualified name usable as one path segment of the local
/// filesystem.
pub fn fs_safe_segment(segment: &Vec<u8>) -> (r: Vec<u8>)
    ensures
        r@ == fs_safe_spec(segment@),
{
    let mut out: Vec<u8> = Vec::new();
    let mut i: usize = 0;
    while i < segment.len()
        invariant
            i <= segment@.len(),
            out@ == fs_safe_spec(segment@.subrange(0, i as int)),
        decreases segment.len() - i,
    {
        let b = segment[i];
        if b == (':' as u8) || b == ('/' as u8) {
            out.push('-' as u8);
        } else {
            out.push(b);
        }
        proof {
            assert(out@ =~= fs_safe_spec(segment@.subrange(0, i + 1 as int))) by {
                assert(segment@.subrange(0, i + 1 as int).drop_last() =~= segment@.subrange(
                    0,
                    i as int,
                ));
            }
        }
        i += 1;
    }
    assert(segment@.subrange(0, segment@.len() as int) =~= segment@);
    out
}

} // verus!
