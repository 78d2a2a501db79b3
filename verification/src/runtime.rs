//! Where the decoder reads and writes on the device for each position.

use vstd::prelude::*;

verus! {

/// The tokens of the vocabulary.
pub const VOCABULARY: usize = 262144;

/// The width of the hidden state.
pub const HIDDEN: usize = 3840;

/// The positions that a sliding layer attends to.
pub const SLIDING_WINDOW: usize = 1024;

/// The positions of one page of a full layer's cache.
pub const PAGE: usize = 512;

pub const SLIDING_HEADS: usize = 8;

pub const SLIDING_HEAD_DIM: usize = 256;

pub const FULL_HEAD_DIM: usize = 512;

/// The width of an embedded patch.
pub const PATCH_WIDTH: usize = 3840;

/// Positions up to this one have offsets that the device can take.
pub const MAX_POSITIONS: usize = 2097152;

/// Byte offsets for one position: of its keys and values in the caches, and of
/// its rows in the rotation tables.
#[derive(Clone, Copy, Debug, PartialEq, Eq, Structural)]
pub struct PositionOffsets {
    pub kv_sliding: i32,
    pub kv_full: i32,
    pub rope_sliding: i32,
    pub rope_full: i32,
}

/// The offsets for position `pos`, with two bytes to a number.
pub fn position_offsets(pos: usize) -> (r: PositionOffsets)
    requires
        pos < MAX_POSITIONS,
    ensures
        r.kv_sliding == (pos % SLIDING_WINDOW) * (SLIDING_HEADS * SLIDING_HEAD_DIM * 2),
        r.kv_full == (pos % PAGE) * (FULL_HEAD_DIM * 2),
        r.rope_sliding == pos * (SLIDING_HEAD_DIM * 2),
        r.rope_full == pos * (FULL_HEAD_DIM * 2),
        r.kv_sliding == (pos % 1024) * 4096,
        r.kv_full == (pos % 512) * 1024,
        r.rope_sliding == pos * 512,
        r.rope_full == pos * 1024,
{
    PositionOffsets {
        kv_sliding: (pos % SLIDING_WINDOW * 4096) as i32,
        kv_full: (pos % PAGE * 1024) as i32,
        rope_sliding: (pos * 512) as i32,
        rope_full: (pos * 1024) as i32,
    }
}

/// The byte offset of a token's row in the embedding table.
pub fn embedding_offset(token: usize) -> (r: i32)
    requires
        token < VOCABULARY,
    ensures
        r == token * (HIDDEN * 2),
        r == token * 7680,
{
    (token * 7680) as i32
}

/// Row `row` of a causal mask: which of the columns it lets through.
pub fn causal_row(row: usize, width: usize) -> (r: Vec<bool>)
    ensures
        r@ == Seq::new(width as nat, |col: int| col <= row),
{
    let mut mask: Vec<bool> = Vec::new();
    let mut col: usize = 0;
    while col < width
        invariant
            col <= width,
            mask@ == Seq::new(col as nat, |c: int| c <= row),
        decreases width - col,
    {
        mask.push(col <= row);
        col += 1;
        assert(mask@ =~= Seq::new(col as nat, |c: int| c <= row));
    }
    mask
}

/// The mask row that a sliding layer uses at position `pos`.
pub open spec fn sliding_row(pos: nat) -> nat {
    if pos < SLIDING_WINDOW {
        pos
    } else {
        (SLIDING_WINDOW - 1) as nat
    }
}

/// The mask row that a sliding layer uses at position `pos`.
pub fn sliding_mask_row(pos: usize) -> (r: usize)
    ensures
        r == sliding_row(pos as nat),
        r < SLIDING_WINDOW,
        forall|slot: nat|
            slot < SLIDING_WINDOW ==> (slot <= r <==> #[trigger] in_window(pos as nat, slot)),
{
    proof {
        mask_rows_show_the_window(pos as nat);
    }
    if pos < SLIDING_WINDOW {
        pos
    } else {
        SLIDING_WINDOW - 1
    }
}

/// One of the last positions up to `pos`, as many as a window has, went into
/// `slot` of a sliding cache.
pub open spec fn in_window(pos: nat, slot: nat) -> bool {
    exists|p: nat|
        p <= pos && pos - p < SLIDING_WINDOW && #[trigger] (p % SLIDING_WINDOW as nat) == slot
}

/// A mask row lets through exactly the slots that hold the last positions.
pub proof fn mask_rows_show_the_window(pos: nat)
    ensures
        sliding_row(pos) < SLIDING_WINDOW,
        pos < SLIDING_WINDOW ==> sliding_row(pos) == pos,
        forall|slot: nat|
            slot < SLIDING_WINDOW ==> (slot <= sliding_row(pos) <==> #[trigger] in_window(
                pos,
                slot,
            )),
{
    assert forall|slot: nat| slot < SLIDING_WINDOW implies (slot <= sliding_row(pos)
        <==> #[trigger] in_window(pos, slot)) by {
        if slot <= sliding_row(pos) {
            let p = slot_holds(pos, slot) as nat;
            assert(p % SLIDING_WINDOW as nat == slot);
        }
    }
}

/// The last position up to `pos` whose keys went into `slot` of a sliding cache.
pub open spec fn slot_holds(pos: nat, slot: nat) -> int {
    let newest = pos % SLIDING_WINDOW as nat;
    if slot <= newest {
        pos - newest + slot
    } else {
        pos - newest + slot - SLIDING_WINDOW
    }
}

/// What `slot_holds` names is a position of that slot, and no later one up to
/// `pos` is.
pub proof fn slot_holds_the_last(pos: nat, slot: nat, p: nat)
    requires
        slot < SLIDING_WINDOW,
        p <= pos,
        p % SLIDING_WINDOW as nat == slot,
    ensures
        slot_holds(pos, slot) >= 0,
        slot_holds(pos, slot) <= pos,
        slot_holds(pos, slot) % (SLIDING_WINDOW as int) == slot,
        p <= slot_holds(pos, slot),
{
}

/// At each position, the slots that the mask lets through hold exactly the
/// positions of the window: the last ones, up to the window's size.
pub proof fn sliding_window_is_the_last_positions(pos: nat, slot: nat, p: nat)
    requires
        slot < SLIDING_WINDOW,
    ensures
        slot <= sliding_row(pos) ==> {
            &&& 0 <= slot_holds(pos, slot) <= pos
            &&& pos - slot_holds(pos, slot) < SLIDING_WINDOW
        },
        p <= pos && pos - p < SLIDING_WINDOW ==> {
            &&& p % SLIDING_WINDOW as nat <= sliding_row(pos)
            &&& slot_holds(pos, p % SLIDING_WINDOW as nat) == p
        },
{
}

/// How one page of a full layer's cache is attended to.
#[derive(Clone, Copy, Debug, PartialEq, Eq, Structural)]
pub struct PageStep {
    pub page: usize,
    /// The row of the causal mask on the last page; the others are seen whole.
    pub row: Option<usize>,
    /// The first page starts the sums that the others go on with.
    pub first: bool,
}

/// The pages that a full layer attends to at position `pos`, in order.
pub open spec fn page_steps(pos: nat) -> Seq<PageStep> {
    Seq::new(
        pos / PAGE as nat + 1,
        |page: int|
            PageStep {
                page: page as usize,
                row: if page == pos / PAGE as nat {
                    Some((pos % PAGE as nat) as usize)
                } else {
                    None
                },
                first: page == 0,
            },
    )
}

/// The pages that a full layer attends to at position `pos`, in order.
pub fn full_attention_steps(pos: usize) -> (r: Vec<PageStep>)
    ensures
        r@ == page_steps(pos as nat),
        forall|i: int| 0 <= i < r@.len() ==> (#[trigger] r@[i]).page == i,
        forall|i: int| 0 <= i < r@.len() ==> ((#[trigger] r@[i]).first <==> i == 0),
        forall|p: nat| #[trigger] seen_by(r@, p) <==> p <= pos,
{
    proof {
        steps_see_all_before(pos as nat);
    }
    let last: usize = pos / PAGE;
    let row: usize = pos % PAGE;
    let mut steps: Vec<PageStep> = Vec::new();
    let mut page: usize = 0;
    while page <= last
        invariant
            page <= last + 1,
            last == pos / PAGE,
            row == pos % PAGE,
            steps@ == page_steps(pos as nat).take(page as int),
        decreases last + 1 - page,
    {
        let step = PageStep {
            page,
            row: if page == last {
                Some(row)
            } else {
                None
            },
            first: page == 0,
        };
        steps.push(step);
        page += 1;
        assert(steps@ =~= page_steps(pos as nat).take(page as int));
    }
    assert(page_steps(pos as nat).take(page as int) =~= page_steps(pos as nat));
    steps
}

/// A step sees the row `row` of its page.
pub open spec fn step_sees(step: PageStep, row: nat) -> bool {
    step.row matches Some(last) ==> row <= last
}

/// Some step sees position `p`, on the page and in the row that it was written to.
pub open spec fn seen_by(steps: Seq<PageStep>, p: nat) -> bool {
    exists|i: int|
        {
            &&& 0 <= i < steps.len()
            &&& (#[trigger] steps[i]).page == p / PAGE as nat
            &&& (steps[i].row matches Some(last) ==> p % PAGE as nat <= last)
        }
}

/// The steps go through the pages in order, each page once, the first of them
/// starts the sums, and together they see exactly the positions up to `pos`.
pub proof fn steps_see_all_before(pos: nat)
    requires
        pos <= usize::MAX,
    ensures
        page_steps(pos).len() > 0,
        forall|i: int| 0 <= i < page_steps(pos).len() ==> (#[trigger] page_steps(pos)[i]).page == i,
        forall|i: int|
            0 <= i < page_steps(pos).len() ==> ((#[trigger] page_steps(pos)[i]).first <==> i == 0),
        forall|p: nat| #[trigger] seen_by(page_steps(pos), p) <==> p <= pos,
{
    let steps = page_steps(pos);
    assert forall|p: nat| #[trigger] seen_by(steps, p) <==> p <= pos by {
        if p <= pos {
            let i = (p / PAGE as nat) as int;
            assert(steps[i].page == i);
            assert(seen_by(steps, p));
        }
    }
}

/// A full layer sees position `p` at position `pos`.
pub open spec fn full_sees(pos: nat, p: nat) -> bool {
    let page = p / PAGE as nat;
    page < page_steps(pos).len() && step_sees(page_steps(pos)[page as int], p % PAGE as nat)
}

/// A full layer sees exactly the positions up to its own, each on the page that
/// it was written to.
pub proof fn full_attention_sees_all_before(pos: nat, p: nat)
    requires
        pos <= usize::MAX,
    ensures
        full_sees(pos, p) <==> p <= pos,
        page_steps(pos).len() > 0,
        page_steps(pos)[0].first,
        forall|i: int| 0 < i < page_steps(pos).len() ==> !(#[trigger] page_steps(pos)[i]).first,
{
    assert(page_steps(pos)[0] == PageStep {
        page: 0,
        row: if 0 == pos / 512 {
            Some((pos % 512) as usize)
        } else {
            None
        },
        first: true,
    });
}

/// Whether a layer attends to all positions or to a window of them.
#[derive(Clone, Copy, Debug, PartialEq, Eq, Structural)]
pub enum LayerKind {
    Sliding,
    Full,
}

/// Every sixth layer attends to all positions.
pub open spec fn layer_kind(layer: nat) -> LayerKind {
    if layer % 6 == 5 {
        LayerKind::Full
    } else {
        LayerKind::Sliding
    }
}

/// Whether a layer attends to all positions or to a window of them.
pub fn kind_of_layer(layer: usize) -> (r: LayerKind)
    ensures
        r == layer_kind(layer as nat),
        r == LayerKind::Full <==> (layer + 1) % 6 == 0,
{
    if layer % 6 == 5 {
        LayerKind::Full
    } else {
        LayerKind::Sliding
    }
}

/// One stage of running a position through the model.
#[derive(Clone, Copy, Debug, PartialEq, Eq, Structural)]
pub enum Stage {
    /// A sliding layer, with the mask row that it uses.
    Sliding { layer: usize, mask_row: usize },
    /// A full layer, with the page that its keys go to.
    Full { layer: usize, page: usize },
    /// The logits of the next token.
    Logits,
}

/// The stage of a layer at a position.
pub open spec fn layer_stage(layer: nat, pos: nat) -> Stage {
    match layer_kind(layer) {
        LayerKind::Sliding => Stage::Sliding {
            layer: layer as usize,
            mask_row: sliding_row(pos) as usize,
        },
        LayerKind::Full => Stage::Full {
            layer: layer as usize,
            page: (pos / PAGE as nat) as usize,
        },
    }
}

/// The stages of running position `pos` through `layers` layers.
pub open spec fn stages_at(layers: nat, pos: nat, compute_logits: bool) -> Seq<Stage> {
    let body = Seq::new(layers, |layer: int| layer_stage(layer as nat, pos));
    if compute_logits {
        body.push(Stage::Logits)
    } else {
        body
    }
}

/// The stages run layer after layer, each once. A sliding layer attends to
/// exactly the slots of the last positions; every sixth layer is a full one, and
/// the keys go to the page that has room for the position. The logits come last,
/// where they are wanted.
pub open spec fn stages_in_order(
    stages: Seq<Stage>,
    layers: nat,
    pos: nat,
    compute_logits: bool,
) -> bool {
    &&& stages.len() == layers + if compute_logits {
        1nat
    } else {
        0nat
    }
    &&& forall|i: int|
        0 <= i < stages.len() ==> match #[trigger] stages[i] {
            Stage::Sliding { layer, mask_row } => {
                &&& i < layers
                &&& layer == i
                &&& (i + 1) % 6 != 0
                &&& mask_row < SLIDING_WINDOW
                &&& forall|slot: nat|
                    slot < SLIDING_WINDOW ==> (slot <= mask_row <==> #[trigger] in_window(
                        pos,
                        slot,
                    ))
            },
            Stage::Full { layer, page } => {
                &&& i < layers
                &&& layer == i
                &&& (i + 1) % 6 == 0
                &&& page * PAGE <= pos < page * PAGE + PAGE
            },
            Stage::Logits => i == layers,
        }
}

/// What `stages_at` names runs every layer in order.
pub proof fn stages_run_every_layer(layers: nat, pos: nat, compute_logits: bool)
    requires
        layers <= usize::MAX,
        pos <= usize::MAX,
    ensures
        stages_in_order(stages_at(layers, pos, compute_logits), layers, pos, compute_logits),
{
    mask_rows_show_the_window(pos);
    let stages = stages_at(layers, pos, compute_logits);
    assert forall|i: int| 0 <= i < layers implies stages[i] == layer_stage(i as nat, pos) by {
    }
}

/// The stages of running position `pos` through `layers` layers: each layer in
/// turn, and the logits where they are wanted. There are none for a position
/// outside the context of `positions` positions, or outside a cache of `pages`
/// pages.
pub fn run_stages(
    layers: usize,
    pos: usize,
    positions: usize,
    pages: usize,
    compute_logits: bool,
) -> (r: Result<Vec<Stage>, &'static str>)
    ensures
        match r {
            Ok(stages) => {
                &&& pos < positions
                &&& layers > 5 ==> pos / PAGE < pages
                &&& stages@ == stages_at(layers as nat, pos as nat, compute_logits)
                &&& stages_in_order(stages@, layers as nat, pos as nat, compute_logits)
            },
            Err(message) => {
                if pos >= positions {
                    message@ == "position exceeds runtime context"@
                } else {
                    &&& layers > 5
                    &&& pos / PAGE >= pages
                    &&& message@ == "position exceeds full-attention cache"@
                }
            },
        },
{
    if pos >= positions {
        return Err("position exceeds runtime context");
    }
    let page: usize = pos / PAGE;
    if layers > 5 && page >= pages {
        return Err("position exceeds full-attention cache");
    }
    proof {
        stages_run_every_layer(layers as nat, pos as nat, compute_logits);
    }
    let mask_row: usize = sliding_mask_row(pos);
    let mut stages: Vec<Stage> = Vec::new();
    let mut layer: usize = 0;
    while layer < layers
        invariant
            layer <= layers,
            page == pos / PAGE,
            mask_row == sliding_row(pos as nat),
            stages@ == Seq::new(layer as nat, |l: int| layer_stage(l as nat, pos as nat)),
        decreases layers - layer,
    {
        match kind_of_layer(layer) {
            LayerKind::Sliding => stages.push(Stage::Sliding { layer, mask_row }),
            LayerKind::Full => stages.push(Stage::Full { layer, page }),
        }
        layer += 1;
        assert(stages@ =~= Seq::new(layer as nat, |l: int| layer_stage(l as nat, pos as nat)));
    }
    if compute_logits {
        stages.push(Stage::Logits);
    }
    Ok(stages)
}

/// Where the two halves of a patch's position embedding start in a table of
/// `rows` rows, each two patches wide: that of the column, and that of the row. Places beyond the table
/// count as its last.
pub open spec fn embedding_starts(col: nat, row: nat, rows: nat) -> (int, int) {
    let c = if col < rows {
        col as int
    } else {
        rows - 1
    };
    let r = if row < rows {
        row as int
    } else {
        rows - 1
    };
    (c * 7680, r * 7680 + PATCH_WIDTH)
}

/// Where the two halves of a patch's position embedding start.
pub fn position_embedding_starts(col: usize, row: usize, rows: usize) -> (r: (usize, usize))
    requires
        0 < rows,
        rows * 7680 <= usize::MAX,
    ensures
        (r.0 as int, r.1 as int) == embedding_starts(col as nat, row as nat, rows as nat),
        col < rows ==> r.0 == col * (2 * PATCH_WIDTH),
        col >= rows ==> r.0 == (rows - 1) * (2 * PATCH_WIDTH),
        row < rows ==> r.1 == row * (2 * PATCH_WIDTH) + PATCH_WIDTH,
        row >= rows ==> r.1 == (rows - 1) * (2 * PATCH_WIDTH) + PATCH_WIDTH,
        r.0 + PATCH_WIDTH <= rows * 7680,
        r.1 + PATCH_WIDTH <= rows * 7680,
{
    let c: usize = if col < rows {
        col
    } else {
        rows - 1
    };
    let w: usize = if row < rows {
        row
    } else {
        rows - 1
    };
    (c * 7680, w * 7680 + 3840)
}

/// What a lane of a rotation table holds: the pair that it belongs to, whether
/// that pair is turned at all, and whether its sine is taken with the sign
/// changed.
#[derive(Clone, Copy, Debug, PartialEq, Eq, Structural)]
pub struct RopeLane {
    pub pair: usize,
    pub turned: bool,
    pub negated: bool,
}

/// Lane `lane` of a rotation table of `dim` lanes, of which `rotated` are turned.
pub open spec fn lane_of(lane: nat, dim: nat, rotated: nat) -> RopeLane {
    let pair = lane % (dim / 2);
    RopeLane {
        pair: pair as usize,
        turned: pair < rotated / 2,
        negated: lane < dim / 2 && pair < rotated / 2,
    }
}

/// Lane `lane` of a rotation table of `dim` lanes, of which `rotated` are turned.
pub fn rope_lane(lane: usize, dim: usize, rotated: usize) -> (r: RopeLane)
    requires
        dim >= 2,
        lane < dim / 2 * 2,
    ensures
        r == lane_of(lane as nat, dim as nat, rotated as nat),
        r.pair == lane || r.pair + dim / 2 == lane,
        r.pair < dim / 2,
        r.turned <==> 2 * (r.pair + 1) <= rotated,
        r.negated <==> r.turned && lane == r.pair,
{
    let half: usize = dim / 2;
    let pair: usize = if lane < half {
        lane
    } else {
        lane - half
    };
    proof {
        if lane < half {
            vstd::arithmetic::div_mod::lemma_small_mod(lane as nat, half as nat);
        } else {
            vstd::arithmetic::div_mod::lemma_fundamental_div_mod_converse(
                lane as int,
                half as int,
                1,
                pair as int,
            );
        }
    }
    RopeLane { pair, turned: pair < rotated / 2, negated: lane < half && pair < rotated / 2 }
}

/// The two lanes of a pair are turned alike, and only the sine of the first has
/// its sign changed.
pub proof fn lanes_come_in_pairs(lane: nat, dim: nat, rotated: nat)
    requires
        lane < dim / 2,
        dim <= usize::MAX,
    ensures
        ({
            let first = lane_of(lane, dim, rotated);
            let second = lane_of(lane + dim / 2, dim, rotated);
            &&& first.pair == lane
            &&& second.pair == lane
            &&& first.turned == second.turned
            &&& first.turned <==> 2 * (lane + 1) <= rotated
            &&& first.negated == first.turned
            &&& !second.negated
        }),
{
    let half = dim / 2;
    vstd::arithmetic::div_mod::lemma_small_mod(lane, half);
    vstd::arithmetic::div_mod::lemma_fundamental_div_mod_converse(
        (lane + half) as int,
        half as int,
        1,
        lane as int,
    );
}

/// A sliding layer is run with the mask row that lets through the slots of the
/// last positions, and no others: in the beginning those up to the position
/// itself, and all of them once the window is full.
pub proof fn sliding_layers_see_the_last_positions(
    layers: nat,
    pos: nat,
    compute_logits: bool,
    i: int,
    p: nat,
    slot: nat,
)
    requires
        layers <= usize::MAX,
        pos <= usize::MAX,
        0 <= i < layers,
        slot < 1024,
    ensures
        (i + 1) % 6 != 0 ==> {
            &&& stages_at(layers, pos, compute_logits)[i] matches Stage::Sliding { layer, mask_row }
            &&& layer == i
            &&& pos < 1024 ==> mask_row == pos
            &&& pos >= 1024 ==> mask_row == 1023
            &&& p <= pos && pos - p < 1024 ==> p % 1024 <= mask_row
            &&& slot <= mask_row ==> exists|q: nat|
                q <= pos && pos - q < 1024 && #[trigger] (q % 1024) == slot
        },
        (i + 1) % 6 == 0 ==> {
            &&& stages_at(layers, pos, compute_logits)[i] matches Stage::Full { layer, page }
            &&& layer == i
            &&& page * 512 <= pos < page * 512 + 512
        },
{
    let stage = stages_at(layers, pos, compute_logits)[i];
    assert(stage == layer_stage(i as nat, pos));
    let q = slot_holds(pos, slot) as nat;
    if slot <= sliding_row(pos) {
        assert(q % 1024 == slot);
    }
}

} // verus!
