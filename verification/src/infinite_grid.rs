use std::collections::HashMap;
use vstd::prelude::*;

verus! {

/// The unsigned 32-bit reading of a signed 32-bit coordinate.
pub open spec fn unsigned32(v: int) -> int {
    if v < 0 {
        v + 0x1_0000_0000
    } else {
        v
    }
}

/// The signed 32-bit reading of an unsigned 32-bit half of a key.
pub open spec fn signed32(v: int) -> int {
    if v >= 0x8000_0000 {
        v - 0x1_0000_0000
    } else {
        v
    }
}

/// The key of a coordinate pair: `x` in the low 32 bits, `y` in the high 32 bits.
pub open spec fn spec_to_hash(x: int, y: int) -> int {
    unsigned32(x) + unsigned32(y) * 0x1_0000_0000
}

/// The coordinate pair of a key.
pub open spec fn spec_from_hash(hash: int) -> (int, int) {
    (signed32(hash % 0x1_0000_0000), signed32(hash / 0x1_0000_0000))
}

/// Calls `HashMap::get_mut` of std. The contract claims what its documentation
/// says: the result is a mutable reference to the value stored under `key`, or
/// `None` if there is none, and no other entry changes.
#[verifier::external_body]
fn entry_mut<'a, T>(map: &'a mut HashMap<u64, T>, key: u64) -> (found: Option<&'a mut T>)
    ensures
        match found {
            Some(value) => {
                &&& old(map)@.contains_key(key)
                &&& *value == old(map)@[key]
                &&& final(map)@ == old(map)@.insert(key, *final(value))
            },
            None => !old(map)@.contains_key(key) && final(map)@ == old(map)@,
        },
{
    map.get_mut(&key)
}

/// Whether `v` is a signed 32-bit number.
pub open spec fn is_coordinate(v: int) -> bool {
    -0x8000_0000 <= v < 0x8000_0000
}

/// Unpacking a packed coordinate pair gives the pair back.
pub proof fn lemma_hash_round_trip(x: int, y: int)
    requires
        is_coordinate(x),
        is_coordinate(y),
    ensures
        0 <= spec_to_hash(x, y) <= u64::MAX,
        spec_from_hash(spec_to_hash(x, y)) == (x, y),
{
    let low = unsigned32(x);
    let high = unsigned32(y);
    assert((low + high * 0x1_0000_0000) % 0x1_0000_0000 == low && (low + high * 0x1_0000_0000)
        / 0x1_0000_0000 == high) by (nonlinear_arith)
        requires
            0 <= low < 0x1_0000_0000,
            0 <= high < 0x1_0000_0000,
    ;
}

/// Two coordinate pairs with one key are one pair.
pub proof fn lemma_hash_injective(x1: int, y1: int, x2: int, y2: int)
    requires
        is_coordinate(x1),
        is_coordinate(y1),
        is_coordinate(x2),
        is_coordinate(y2),
        spec_to_hash(x1, y1) == spec_to_hash(x2, y2),
    ensures
        x1 == x2,
        y1 == y2,
{
    lemma_hash_round_trip(x1, y1);
    lemma_hash_round_trip(x2, y2);
}

/// A sparse grid over all signed 32-bit coordinate pairs.
pub struct InfiniteGrid<T> {
    map: HashMap<u64, T>,
}

impl<T> InfiniteGrid<T> {
    /// The occupied positions and what they hold.
    pub closed spec fn view(&self) -> Map<(int, int), T> {
        Map::new(
            |p: (int, int)|
                is_coordinate(p.0) && is_coordinate(p.1) && self.map@.contains_key(
                    spec_to_hash(p.0, p.1) as u64,
                ),
            |p: (int, int)| self.map@[spec_to_hash(p.0, p.1) as u64],
        )
    }

    /// An empty grid.
    pub fn new() -> (grid: Self)
        ensures
            grid@ == Map::<(int, int), T>::empty(),
    {
        let grid = InfiniteGrid::<T> { map: HashMap::new() };
        assert(grid@ =~= Map::<(int, int), T>::empty());
        grid
    }

    /// What stands at `(x, y)`, if anything does.
    pub fn get(&self, x: i32, y: i32) -> (found: Option<&T>)
        ensures
            match found {
                Some(value) => self@.contains_key((x as int, y as int)) && *value == self@[(
                    x as int,
                    y as int,
                )],
                None => !self@.contains_key((x as int, y as int)),
            },
    {
        let hash = Self::to_hash(x, y);
        self.map.get(&hash)
    }

    /// What stands at `(x, y)`, to be changed in place, if anything stands there.
    pub fn get_mut(&mut self, x: i32, y: i32) -> (found: Option<&mut T>)
        ensures
            match found {
                Some(value) => {
                    &&& old(self)@.contains_key((x as int, y as int))
                    &&& *value == old(self)@[(x as int, y as int)]
                    &&& final(self)@ == old(self)@.insert((x as int, y as int), *final(value))
                },
                None => {
                    &&& !old(self)@.contains_key((x as int, y as int))
                    &&& final(self)@ == old(self)@
                },
            },
    {
        let hash = Self::to_hash(x, y);
        proof {
            assert forall|p: (int, int)|
                is_coordinate(p.0) && is_coordinate(p.1) && p != (
                    x as int,
                    y as int,
                ) implies spec_to_hash(p.0, p.1) as u64 != hash by {
                lemma_hash_round_trip(p.0, p.1);
                if spec_to_hash(p.0, p.1) == spec_to_hash(x as int, y as int) {
                    lemma_hash_injective(p.0, p.1, x as int, y as int);
                }
            }
        }
        entry_mut(&mut self.map, hash)
    }

    /// Puts `value` at `(x, y)`, in place of what stood there.
    pub fn set(&mut self, x: i32, y: i32, value: T)
        ensures
            final(self)@ == old(self)@.insert((x as int, y as int), value),
    {
        let hash = Self::to_hash(x, y);
        self.map.insert(hash, value);
        proof {
            assert forall|p: (int, int)|
                is_coordinate(p.0) && is_coordinate(p.1) && p != (
                    x as int,
                    y as int,
                ) implies spec_to_hash(p.0, p.1) as u64 != hash by {
                lemma_hash_round_trip(p.0, p.1);
                if spec_to_hash(p.0, p.1) == spec_to_hash(x as int, y as int) {
                    lemma_hash_injective(p.0, p.1, x as int, y as int);
                }
            }
            assert(self@ =~= old(self)@.insert((x as int, y as int), value));
        }
    }

    /// The key of `(x, y)`: `x` in the low 32 bits, `y` in the high 32 bits,
    /// each read as unsigned.
    pub fn to_hash(x: i32, y: i32) -> (hash: u64)
        ensures
            hash == spec_to_hash(x as int, y as int),
            spec_from_hash(hash as int) == (x as int, y as int),
    {
        proof {
            lemma_hash_round_trip(x as int, y as int);
        }
        let ux: u64 = (x as u32) as u64;
        let uy: u64 = (y as u32) as u64;
        assert(ux == unsigned32(x as int) && uy == unsigned32(y as int)) by {
            assert(x >= 0 ==> (x as u32) as u64 == x) by (bit_vector);
            assert(x < 0 ==> (x as u32) as u64 == x + 0x1_0000_0000) by (bit_vector);
            assert(y >= 0 ==> (y as u32) as u64 == y) by (bit_vector);
            assert(y < 0 ==> (y as u32) as u64 == y + 0x1_0000_0000) by (bit_vector);
        }
        let sy: u64 = uy << 32;
        assert(sy == uy * 0x1_0000_0000) by (bit_vector)
            requires
                sy == uy << 32,
                uy < 0x1_0000_0000,
        ;
        ux + sy
    }

    /// The coordinate pair of a key.
    pub fn from_hash(hash: u64) -> (pos: (i32, i32))
        ensures
            (pos.0 as int, pos.1 as int) == spec_from_hash(hash as int),
    {
        let ux: u32 = hash as u32;
        let uy: u32 = (hash >> 32) as u32;
        assert(ux == hash % 0x1_0000_0000) by (bit_vector)
            requires
                ux == hash as u32,
        ;
        assert(uy == hash / 0x1_0000_0000) by (bit_vector)
            requires
                uy == (hash >> 32) as u32,
        ;
        let x: i32 = ux as i32;
        let y: i32 = uy as i32;
        assert(x as int == signed32(ux as int)) by (bit_vector)
            requires
                x == ux as i32,
        ;
        assert(y as int == signed32(uy as int)) by (bit_vector)
            requires
                y == uy as i32,
        ;
        (x, y)
    }
}

} // verus!
