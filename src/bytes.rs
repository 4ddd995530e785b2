use vstd::prelude::*;

verus! {

/// The `width` low-order bytes of `v`, least significant first.
pub open spec fn le_bytes(v: nat, width: nat) -> Seq<u8>
    decreases width,
{
    if width == 0 {
        Seq::empty()
    } else {
        seq![(v % 256) as u8].add(le_bytes(v / 256, (width - 1) as nat))
    }
}

pub proof fn lemma_le_bytes_len(v: nat, width: nat)
    ensures
        le_bytes(v, width).len() == width,
    decreases width,
{
    if width > 0 {
        lemma_le_bytes_len(v / 256, (width - 1) as nat);
    }
}

/// Appends the `width` low-order bytes of `v` to `out`, least significant first.
pub fn push_le(out: &mut Vec<u8>, v: u64, width: usize)
    requires
        width <= 8,
    ensures
        final(out)@ == old(out)@.add(le_bytes(v as nat, width as nat)),
        final(out)@.len() == old(out)@.len() + width,
{
    proof {
        lemma_le_bytes_len(v as nat, width as nat);
    }
    let ghost start = old(out)@;
    let mut cur: u64 = v;
    let mut i: usize = 0;
    while i < width
        invariant
            i <= width,
            out@.add(le_bytes(cur as nat, (width - i) as nat)) == start.add(
                le_bytes(v as nat, width as nat),
            ),
        decreases width - i,
    {
        let ghost before = out@;
        out.push((cur % 256) as u8);
        proof {
            assert(le_bytes(cur as nat, (width - i) as nat) == seq![(cur % 256) as u8].add(
                le_bytes((cur / 256) as nat, (width - i - 1) as nat),
            ));
            assert(out@.add(le_bytes((cur / 256) as nat, (width - i - 1) as nat)) =~= before.add(
                le_bytes(cur as nat, (width - i) as nat),
            ));
        }
        cur = cur / 256;
        i = i + 1;
    }
    assert(out@ =~= out@.add(le_bytes(cur as nat, 0)));
}

} // verus!
