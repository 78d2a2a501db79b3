//! How the device kernels cut long axes into tiles.

use vstd::prelude::*;

verus! {

/// What the vector register file of a slice holds, in bytes.
pub const REGISTER_FILE_BYTES: usize = 8192;

/// Where the tiles of an axis start, when `length` is cut into tiles of `tile`
/// and a rest makes a shorter tile at the end.
pub open spec fn starts_of(length: nat, tile: nat) -> Seq<usize> {
    Seq::new((length + tile - 1) as nat / tile, |i: int| (i * tile) as usize)
}

/// Where the tiles of an axis start.
pub fn tile_starts(length: usize, tile: usize) -> (r: Vec<usize>)
    requires
        tile > 0,
    ensures
        r@ == starts_of(length as nat, tile as nat),
        forall|i: int| 0 <= i < r@.len() ==> #[trigger] r@[i] == i * tile && r@[i] < length,
        r@.len() * tile >= length,
{
    proof {
        assert forall|i: int| 0 <= i < starts_of(length as nat, tile as nat).len() implies {
            &&& #[trigger] starts_of(length as nat, tile as nat)[i] == i * tile
            &&& starts_of(length as nat, tile as nat)[i] < length
        } by {
            tiles_stay_within_the_axis(length as nat, tile as nat, i);
        }
        count_tiles(length as nat, tile as nat);
        let count = (length + tile - 1) as nat / tile as nat;
        assert(count <= length) by (nonlinear_arith)
            requires
                (count - 1) * tile < length || count == 0,
                tile >= 1,
        ;
    }
    let count: usize = length / tile + if length % tile == 0 {
        0
    } else {
        1
    };
    let mut starts: Vec<usize> = Vec::new();
    let mut start: usize = 0;
    let mut i: usize = 0;
    while i < count
        invariant
            i <= count,
            tile > 0,
            count == (length + tile - 1) as nat / tile as nat,
            i < count ==> start == i * tile,
            starts@ == starts_of(length as nat, tile as nat).take(i as int),
            (count - 1) * tile < length || count == 0,
        decreases count - i,
    {
        starts.push(start);
        assert(starts@ =~= starts_of(length as nat, tile as nat).take(i + 1));
        i += 1;
        if i < count {
            assert(i * tile == (i - 1) * tile + tile) by (nonlinear_arith);
            assert(i * tile <= (count - 1) * tile) by (nonlinear_arith)
                requires
                    i <= count - 1,
            ;
            start = start + tile;
        }
    }
    assert(starts_of(length as nat, tile as nat).take(i as int) =~= starts_of(
        length as nat,
        tile as nat,
    ));
    starts
}

/// The number of tiles, and that the last one begins within the axis.
proof fn count_tiles(length: nat, tile: nat)
    requires
        tile > 0,
    ensures
        ({
            let count = (length + tile - 1) as nat / tile;
            &&& count == length / tile + if length % tile == 0 {
                0nat
            } else {
                1nat
            }
            &&& (count - 1) * tile < length || count == 0
            &&& count * tile >= length
        }),
{
    let q = length / tile;
    let r = length % tile;
    vstd::arithmetic::div_mod::lemma_fundamental_div_mod(length as int, tile as int);
    assert(tile * q == q * tile) by (nonlinear_arith);
    if r == 0 {
        vstd::arithmetic::div_mod::lemma_fundamental_div_mod_converse(
            length + tile - 1,
            tile as int,
            q as int,
            tile - 1,
        );
        assert((q - 1) * tile == q * tile - tile) by (nonlinear_arith);
    } else {
        assert((q + 1) * tile == q * tile + tile) by (nonlinear_arith);
        vstd::arithmetic::div_mod::lemma_fundamental_div_mod_converse(
            length + tile - 1,
            tile as int,
            (q + 1) as int,
            r - 1,
        );
    }
}

/// Every place of the axis lies in exactly one tile: the one with its number
/// over the tile's length.
pub proof fn tiles_cover_once(length: nat, tile: nat, place: nat, i: int)
    requires
        0 < tile,
        place < length <= usize::MAX,
    ensures
        0 <= i < starts_of(length, tile).len() ==> {
            let start = starts_of(length, tile)[i];
            (start <= place < start + tile) <==> i == place / tile
        },
        (place / tile) < starts_of(length, tile).len(),
{
    count_tiles(length, tile);
    let count = (length + tile - 1) as nat / tile;
    let q = place / tile;
    vstd::arithmetic::div_mod::lemma_fundamental_div_mod(place as int, tile as int);
    assert(tile * q == q * tile) by (nonlinear_arith);
    assert(q < count) by (nonlinear_arith)
        requires
            q * tile <= place,
            place < length,
            count * tile >= length,
            tile > 0,
    ;
    if 0 <= i < count {
        assert(i * tile <= (count - 1) * tile) by (nonlinear_arith)
            requires
                i <= count - 1,
                tile > 0,
        ;
        assert(i * tile >= 0) by (nonlinear_arith)
            requires
                i >= 0,
                tile > 0,
        ;
        if i < q {
            assert(i * tile + tile <= q * tile) by (nonlinear_arith)
                requires
                    i + 1 <= q,
                    tile > 0,
            ;
        } else if i > q {
            assert(q * tile + tile <= i * tile) by (nonlinear_arith)
                requires
                    q + 1 <= i,
                    tile > 0,
            ;
        }
    }
}

/// Whether the block scales of `rows` rows, `blocks` of four bytes to a row, fit
/// into the register file.
pub fn scales_fit(rows: usize, blocks: usize) -> (r: bool)
    requires
        rows * blocks * 4 <= usize::MAX,
    ensures
        r == (rows * blocks * 4 <= REGISTER_FILE_BYTES),
{
    rows * blocks * 4 <= REGISTER_FILE_BYTES
}

/// The lane that a rotation takes its other half from.
pub open spec fn other_lane(lane: nat, dim: nat) -> nat {
    if lane < dim / 2 {
        lane + dim / 2
    } else {
        (lane - dim / 2) as nat
    }
}

/// The lane that a rotation takes its other half from.
pub fn opposite_lane(lane: usize, dim: usize) -> (r: usize)
    requires
        lane < dim,
        dim % 2 == 0,
    ensures
        r == other_lane(lane as nat, dim as nat),
        r < dim,
        r == lane + dim / 2 || lane == r + dim / 2,
{
    if lane < dim / 2 {
        lane + dim / 2
    } else {
        lane - dim / 2
    }
}

/// The two halves of a rotation are exchanged: each lane is the other of its
/// other.
pub proof fn lanes_are_exchanged(lane: nat, dim: nat)
    requires
        lane < dim,
        dim % 2 == 0,
    ensures
        other_lane(lane, dim) < dim,
        other_lane(lane, dim) != lane,
        other_lane(lane, dim) == lane + dim / 2 || lane == other_lane(lane, dim) + dim / 2,
        other_lane(other_lane(lane, dim), dim) == lane,
{
}

/// Tiles begin one tile apart, each within the axis, and the last reaches its end.
pub proof fn tiles_stay_within_the_axis(length: nat, tile: nat, i: int)
    requires
        tile > 0,
        length <= usize::MAX,
        0 <= i < starts_of(length, tile).len(),
    ensures
        starts_of(length, tile)[i] == i * tile,
        i * tile < length,
        starts_of(length, tile).len() * tile >= length,
{
    count_tiles(length, tile);
    let count = (length + tile - 1) as nat / tile;
    assert(0 <= i * tile <= (count - 1) * tile) by (nonlinear_arith)
        requires
            0 <= i <= count - 1,
            tile > 0,
    ;
}

} // verus!
