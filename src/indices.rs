use vstd::prelude::*;
use crate::bytes::{le_bytes, push_le};

verus! {

/// Node counts from this one on store identifiers in 32 bits instead of 16.
pub const WIDE_THRESHOLD: usize = 16384;

/// An identifier that does not fit the store's width.
#[derive(Debug, Clone, Copy, PartialEq, Eq, Structural)]
pub enum IndexError {
    ValueOutOfRange,
}

/// Per-node identifiers, held in 16 or 32 bits; the width is fixed when the
/// store is made, from the total node count.
pub enum MutableIndices {
    Narrow(Vec<u16>),
    Wide(Vec<u32>),
}

/// The identifiers as numbers.
pub open spec fn values_of(ix: &MutableIndices) -> Seq<nat> {
    match ix {
        MutableIndices::Narrow(v) => v@.map_values(|x: u16| x as nat),
        MutableIndices::Wide(v) => v@.map_values(|x: u32| x as nat),
    }
}

/// Little-endian encoding of `vals`, `width` bytes each.
pub open spec fn encode_all(vals: Seq<nat>, width: nat) -> Seq<u8>
    decreases vals.len(),
{
    if vals.len() == 0 {
        Seq::empty()
    } else {
        encode_all(vals.drop_last(), width).add(le_bytes(vals.last(), width))
    }
}

impl View for MutableIndices {
    type V = Seq<nat>;

    open spec fn view(&self) -> Seq<nat> {
        values_of(self)
    }
}

impl MutableIndices {
    /// Bytes per identifier.
    pub open spec fn width(&self) -> nat {
        match self {
            MutableIndices::Narrow(_) => 2,
            MutableIndices::Wide(_) => 4,
        }
    }

    /// Largest identifier the store can hold.
    pub open spec fn max_value(&self) -> nat {
        match self {
            MutableIndices::Narrow(_) => 65535,
            MutableIndices::Wide(_) => 4294967295,
        }
    }

    /// A store of `num_nodes` zero identifiers, 16-bit below `WIDE_THRESHOLD` nodes.
    pub fn new(num_nodes: usize) -> (r: MutableIndices)
        ensures
            r@ == Seq::new(num_nodes as nat, |i: int| 0nat),
            r.width() == if num_nodes < WIDE_THRESHOLD {
                2nat
            } else {
                4nat
            },
    {
        if num_nodes < WIDE_THRESHOLD {
            let mut v: Vec<u16> = Vec::new();
            while v.len() < num_nodes
                invariant
                    v@.len() <= num_nodes,
                    forall|i: int| 0 <= i < v@.len() ==> v@[i] == 0,
                decreases num_nodes - v@.len(),
            {
                v.push(0);
            }
            let r = MutableIndices::Narrow(v);
            assert(r@ =~= Seq::new(num_nodes as nat, |i: int| 0nat));
            r
        } else {
            let mut v: Vec<u32> = Vec::new();
            while v.len() < num_nodes
                invariant
                    v@.len() <= num_nodes,
                    forall|i: int| 0 <= i < v@.len() ==> v@[i] == 0,
                decreases num_nodes - v@.len(),
            {
                v.push(0);
            }
            let r = MutableIndices::Wide(v);
            assert(r@ =~= Seq::new(num_nodes as nat, |i: int| 0nat));
            r
        }
    }

    pub fn len(&self) -> (r: usize)
        ensures
            r == self@.len(),
    {
        match self {
            MutableIndices::Narrow(v) => v.len(),
            MutableIndices::Wide(v) => v.len(),
        }
    }

    /// Whether identifiers take 32 bits.
    pub fn is_wide(&self) -> (r: bool)
        ensures
            r == (self.width() == 4),
    {
        match self {
            MutableIndices::Narrow(_) => false,
            MutableIndices::Wide(_) => true,
        }
    }

    /// The identifier at position `p`.
    pub fn get(&self, p: usize) -> (r: usize)
        requires
            p < self@.len(),
        ensures
            r == self@[p as int],
    {
        match self {
            MutableIndices::Narrow(v) => v[p] as usize,
            MutableIndices::Wide(v) => v[p] as usize,
        }
    }

    /// Stores `value` at position `p`, or fails, changing nothing, when it does
    /// not fit the store's width.
    pub fn set(&mut self, p: usize, value: usize) -> (r: Result<(), IndexError>)
        requires
            p < old(self)@.len(),
        ensures
            r is Ok <==> value <= old(self).max_value(),
            r is Ok ==> final(self)@ == old(self)@.update(p as int, value as nat),
            r is Err ==> final(self)@ == old(self)@,
            final(self).width() == old(self).width(),
            final(self).max_value() == old(self).max_value(),
    {
        match self {
            MutableIndices::Narrow(v) => {
                if value > 65535 {
                    return Err(IndexError::ValueOutOfRange);
                }
                v.set(p, value as u16);
            },
            MutableIndices::Wide(v) => {
                if value > 4294967295 {
                    return Err(IndexError::ValueOutOfRange);
                }
                v.set(p, value as u32);
            },
        }
        assert(self@ =~= old(self)@.update(p as int, value as nat));
        Ok(())
    }

    /// Appends every identifier to `out`, little-endian, at the store's width.
    pub fn write_le(&self, out: &mut Vec<u8>)
        ensures
            final(out)@ == old(out)@.add(encode_all(self@, self.width())),
            final(out)@.len() == old(out)@.len() + self.width() * self@.len(),
    {
        let n = self.len();
        let w: usize = if self.is_wide() {
            4
        } else {
            2
        };
        let mut i: usize = 0;
        while i < n
            invariant
                n == self@.len(),
                i <= n,
                w == self.width(),
                out@ == old(out)@.add(encode_all(self@.take(i as int), self.width())),
                out@.len() == old(out)@.len() + w * i,
            decreases n - i,
        {
            let ghost before = out@;
            let v = self.get(i);
            push_le(out, v as u64, w);
            assert(w * (i + 1) == w * i + w) by (nonlinear_arith);
            assert(self@.take(i + 1).drop_last() =~= self@.take(i as int));
            assert(out@ =~= old(out)@.add(encode_all(self@.take(i + 1), self.width())));
            i = i + 1;
        }
        assert(self@.take(n as int) =~= self@);
    }
}

} // verus!
