use vstd::prelude::*;
use rand::XorShiftRng;

verus! {

#[verifier::external_type_specification]
#[verifier::external_body]
pub struct ExXorShiftRng(XorShiftRng);

/// Relies on rand's `Rng::next_u64` for `XorShiftRng`: it returns the next
/// value of the generator and never panics. Nothing is promised of the value.
#[verifier::external_body]
fn next_random(rng: &mut XorShiftRng) -> (r: u64) {
    rand::Rng::next_u64(rng)
}

/// XOR of the table entries of every point of `pts`, folded from the front.
pub open spec fn xor_hash(table: Seq<u64>, pts: Seq<usize>) -> u64
    decreases pts.len(),
{
    if pts.len() == 0 {
        0
    } else {
        xor_hash(table, pts.drop_last()) ^ table[pts.last() as int]
    }
}

/// A table of random 64-bit keys, one per board position and color channel.
/// It is filled once and only read afterwards.
pub struct Zobrist {
    hashes: Vec<u64>,
}

impl View for Zobrist {
    type V = Seq<u64>;

    closed spec fn view(&self) -> Seq<u64> {
        self.hashes@
    }
}

impl Zobrist {
    /// A table of `size` keys drawn from `rng`.
    pub fn new(size: usize, rng: &mut XorShiftRng) -> (r: Zobrist)
        ensures
            r@.len() == size,
    {
        let mut hashes: Vec<u64> = Vec::with_capacity(size);
        let mut i: usize = 0;
        while i < size
            invariant
                i <= size,
                hashes@.len() == i,
            decreases size - i,
        {
            hashes.push(next_random(rng));
            i = i + 1;
        }
        Zobrist { hashes }
    }

    /// A table holding exactly the given keys.
    pub fn from_hashes(hashes: Vec<u64>) -> (r: Zobrist)
        ensures
            r@ == hashes@,
    {
        Zobrist { hashes }
    }

    /// Number of keys in the table.
    pub fn len(&self) -> (r: usize)
        ensures
            r == self@.len(),
    {
        self.hashes.len()
    }

    /// The key of position `pos`.
    pub fn get_hash(&self, pos: usize) -> (r: u64)
        requires
            pos < self@.len(),
        ensures
            r == self@[pos as int],
    {
        self.hashes[pos]
    }
}

} // verus!
