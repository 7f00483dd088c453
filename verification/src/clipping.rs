//! Clipping masks of a Live2D model: drawables masked by the same set of
//! masks share a clipping context, and the contexts in use are laid out
//! on the mask textures' color channels.
//!
//! A context's place is given as a cell of a grid: `Grid { count, index }`
//! is the `index`-th of `count` cells (1 cell: the whole channel; 2: left
//! and right halves; 3 or 4: quarters; 5 to 9: ninths, row by row). The
//! bounds in texture space and the mask matrices, which are floating
//! point, are computed from it by the renderer.
use std::collections::HashMap;
use vstd::prelude::*;

verus! {

broadcast use vstd::std_specs::hash::group_hash_axioms;

/// What the clipping setup reads of a drawable.
pub struct DrawableMasks {
    pub index: usize,
    pub is_masked: bool,
    /// The indices of the drawables that mask it.
    pub masks: Vec<i32>,
}

/// Where a clipping context is drawn on the mask textures.
#[derive(Debug, Clone, Copy, PartialEq, Eq, Structural)]
pub enum Cell {
    /// Not laid out yet: empty bounds.
    Empty,
    /// The whole channel, as when the masks are too many to lay out.
    Whole,
    /// Cell `index` of a grid of `count` cells.
    Grid { count: u32, index: u32 },
}

/// A set of masks and the drawables it masks.
pub struct ClippingContext {
    pub ids: Vec<i32>,
    pub drawable_ids: Vec<usize>,
    /// Whether a drawable of the context has vertices to clip.
    pub is_using: bool,
    pub layout_channel_index: u32,
    pub buffer_index: u32,
    pub cell: Cell,
}

pub struct ClippingContextV {
    pub ids: Seq<i32>,
    pub drawable_ids: Seq<usize>,
    pub is_using: bool,
    pub layout_channel_index: u32,
    pub buffer_index: u32,
    pub cell: Cell,
}

impl View for ClippingContext {
    type V = ClippingContextV;

    open spec fn view(&self) -> ClippingContextV {
        ClippingContextV {
            ids: self.ids@,
            drawable_ids: self.drawable_ids@,
            is_using: self.is_using,
            layout_channel_index: self.layout_channel_index,
            buffer_index: self.buffer_index,
            cell: self.cell,
        }
    }
}

pub open spec fn contexts_view(v: Seq<ClippingContext>) -> Seq<ClippingContextV> {
    v.map_values(|c: ClippingContext| c@)
}

/// The clipping contexts of a model, and for each masked drawable the
/// position of its context.
pub struct ClippingGraph {
    ccs_for_mask: Vec<ClippingContext>,
    ccs_for_draw: HashMap<usize, usize>,
}

pub struct ClippingGraphV {
    pub contexts: Seq<ClippingContextV>,
    /// The position of each masked drawable's context, by drawable index.
    pub for_draw: Map<usize, usize>,
}

impl View for ClippingGraph {
    type V = ClippingGraphV;

    closed spec fn view(&self) -> ClippingGraphV {
        ClippingGraphV {
            contexts: contexts_view(self.ccs_for_mask@),
            for_draw: self.ccs_for_draw@,
        }
    }
}

// ------------------------------------------------------------------------
// Grouping drawables by their masks
/// The same masks: as many, each of one among the other's.
pub open spec fn same_clip(a: Seq<i32>, b: Seq<i32>) -> bool {
    &&& a.len() == b.len()
    &&& forall|k: int| 0 <= k < a.len() ==> b.contains(#[trigger] a[k])
    &&& forall|k: int| 0 <= k < b.len() ==> a.contains(#[trigger] b[k])
}

/// The first context whose masks are the same as `masks`.
pub open spec fn same_clip_pos(ccs: Seq<ClippingContextV>, masks: Seq<i32>) -> Option<int>
    decreases ccs.len(),
{
    if ccs.len() == 0 {
        None
    } else if same_clip(ccs[0].ids, masks) {
        Some(0)
    } else {
        match same_clip_pos(ccs.drop_first(), masks) {
            Some(i) => Some(i + 1),
            None => None,
        }
    }
}

proof fn lemma_same_clip_pos(ccs: Seq<ClippingContextV>, masks: Seq<i32>)
    ensures
        match same_clip_pos(ccs, masks) {
            Some(i) => 0 <= i < ccs.len() && same_clip(ccs[i].ids, masks) && forall|j: int|
                0 <= j < i ==> !same_clip(#[trigger] ccs[j].ids, masks),
            None => forall|j: int| 0 <= j < ccs.len() ==> !same_clip(#[trigger] ccs[j].ids, masks),
        },
    decreases ccs.len(),
{
    if ccs.len() > 0 && !same_clip(ccs[0].ids, masks) {
        lemma_same_clip_pos(ccs.drop_first(), masks);
        assert forall|j: int| 0 < j < ccs.len() implies ccs[j] == ccs.drop_first()[j - 1] by {}
    }
}

pub open spec fn fresh_context(masks: Seq<i32>) -> ClippingContextV {
    ClippingContextV {
        ids: masks,
        drawable_ids: seq![],
        is_using: false,
        layout_channel_index: 0,
        buffer_index: 0,
        cell: Cell::Empty,
    }
}

/// The contexts after adding a masked drawable: to the first context with
/// the same masks, or to a new one at the end; and that context's
/// position.
pub open spec fn add_masked(ccs: Seq<ClippingContextV>, index: usize, masks: Seq<i32>) -> (
    Seq<ClippingContextV>,
    int,
) {
    let (ccs1, k) = match same_clip_pos(ccs, masks) {
        Some(k) => (ccs, k),
        None => (ccs.push(fresh_context(masks)), ccs.len() as int),
    };
    (ccs1.update(k, ClippingContextV { drawable_ids: ccs1[k].drawable_ids.push(index), ..ccs1[k] }), k)
}

/// The contexts and the drawables' contexts after the first `n`
/// drawables.
pub open spec fn group_spec(ds: Seq<(usize, bool, Seq<i32>)>, n: int) -> (
    Seq<ClippingContextV>,
    Map<usize, usize>,
)
    decreases n,
{
    if n <= 0 {
        (seq![], Map::empty())
    } else {
        let (ccs, m) = group_spec(ds, n - 1);
        let (index, masked, masks) = ds[n - 1];
        if !masked {
            (ccs, m)
        } else {
            let (ccs1, k) = add_masked(ccs, index, masks);
            (ccs1, m.insert(index, k as usize))
        }
    }
}

/// Adding a masked drawable keeps every context's masks and drawables,
/// and records it in a context with its masks.
proof fn lemma_add_masked(ccs: Seq<ClippingContextV>, index: usize, masks: Seq<i32>)
    ensures
        ({
            let (ccs1, k) = add_masked(ccs, index, masks);
            &&& ccs.len() <= ccs1.len() <= ccs.len() + 1
            &&& 0 <= k < ccs1.len()
            &&& ccs1[k].drawable_ids.contains(index)
            &&& same_clip(ccs1[k].ids, masks)
            &&& forall|c: int| 0 <= c < ccs.len() ==> (#[trigger] ccs1[c]).ids == ccs[c].ids
            &&& forall|c: int, x: usize|
                #![trigger ccs1[c].drawable_ids.contains(x)]
                0 <= c < ccs.len() && ccs[c].drawable_ids.contains(x) ==> ccs1[c].drawable_ids.contains(x)
            &&& forall|c: int| 0 <= c < ccs1.len() && c != k ==> #[trigger] ccs1[c] == ccs[c]
            &&& ccs1[k].drawable_ids == (if k < ccs.len() {
                ccs[k].drawable_ids
            } else {
                Seq::<usize>::empty()
            }).push(index)
            &&& k < ccs.len() <==> same_clip_pos(ccs, masks) is Some
            &&& k == ccs.len() ==> ccs1[k].ids == masks && forall|j: int|
                0 <= j < ccs.len() ==> !same_clip(#[trigger] ccs[j].ids, masks)
        }),
{
    lemma_same_clip_pos(ccs, masks);
    let (ccs1, k) = add_masked(ccs, index, masks);
    let base = match same_clip_pos(ccs, masks) {
        Some(k) => ccs,
        None => ccs.push(fresh_context(masks)),
    };
    assert(ccs1[k].drawable_ids == base[k].drawable_ids.push(index));
    assert(ccs1[k].drawable_ids[base[k].drawable_ids.len() as int] == index);
    assert forall|c: int, x: usize|
        #![trigger ccs1[c].drawable_ids.contains(x)]
        0 <= c < ccs.len() && ccs[c].drawable_ids.contains(x) implies ccs1[c].drawable_ids.contains(x) by {
        let t = choose|t: int| 0 <= t < ccs[c].drawable_ids.len() && ccs[c].drawable_ids[t] == x;
        assert(base[c] == ccs[c]);
        if c == k {
            assert(ccs1[c].drawable_ids[t] == x);
        }
    }
}

/// Grouping records every masked drawable, and only those, at a context
/// that holds it and whose masks are the drawable's; every drawable a
/// context holds is recorded at that context, and no two contexts have the
/// same masks.
pub proof fn lemma_group_records_contexts(ds: Seq<(usize, bool, Seq<i32>)>, n: int)
    requires
        distinct_masked(ds),
        0 <= n <= ds.len(),
        ds.len() <= usize::MAX,
    ensures
        ({
            let (ccs, m) = group_spec(ds, n);
            &&& ccs.len() <= n
            &&& forall|i: int|
                0 <= i < n && (#[trigger] ds[i]).1 ==> m.contains_key(ds[i].0) && m[ds[i].0]
                    < ccs.len() && ccs[m[ds[i].0] as int].drawable_ids.contains(ds[i].0) && same_clip(
                    ccs[m[ds[i].0] as int].ids,
                    ds[i].2,
                )
            &&& forall|x: usize|
                #[trigger] m.contains_key(x) ==> exists|i: int| 0 <= i < n && ds[i].1 && ds[i].0 == x
            &&& forall|c: int, t: int|
                0 <= c < ccs.len() && 0 <= t < ccs[c].drawable_ids.len() ==> m.contains_key(
                    #[trigger] ccs[c].drawable_ids[t],
                ) && m[ccs[c].drawable_ids[t]] == c
            &&& forall|c1: int, c2: int|
                0 <= c1 < c2 < ccs.len() ==> !same_clip(#[trigger] ccs[c1].ids, #[trigger] ccs[c2].ids)
        }),
    decreases n,
{
    if n > 0 {
        lemma_group_records_contexts(ds, n - 1);
        let (ccs, m) = group_spec(ds, n - 1);
        let (index, masked, masks) = ds[n - 1];
        if masked {
            lemma_add_masked(ccs, index, masks);
            let (ccs1, k) = add_masked(ccs, index, masks);
            let m1 = m.insert(index, k as usize);
            assert forall|i: int|
                0 <= i < n && (#[trigger] ds[i]).1 implies m1.contains_key(ds[i].0) && m1[ds[i].0]
                < ccs1.len() && ccs1[m1[ds[i].0] as int].drawable_ids.contains(ds[i].0) && same_clip(
                ccs1[m1[ds[i].0] as int].ids,
                ds[i].2,
            ) by {
                if i < n - 1 {
                    assert(ds[i].0 != index);
                    let c = m[ds[i].0] as int;
                    assert(ccs1[c].ids == ccs[c].ids);
                    assert(ccs1[c].drawable_ids.contains(ds[i].0));
                }
            }
            assert forall|x: usize| #[trigger] m1.contains_key(x) implies exists|i: int|
                0 <= i < n && ds[i].1 && ds[i].0 == x by {
                if x == index {
                    assert(ds[n - 1].1 && ds[n - 1].0 == x);
                } else {
                    assert(m.contains_key(x));
                    let i = choose|i: int| 0 <= i < n - 1 && ds[i].1 && ds[i].0 == x;
                }
            }
        } else {
            assert forall|x: usize| #[trigger] m.contains_key(x) implies exists|i: int|
                0 <= i < n && ds[i].1 && ds[i].0 == x by {
                let i = choose|i: int| 0 <= i < n - 1 && ds[i].1 && ds[i].0 == x;
            }
        }
    }
}

pub open spec fn drawables_view(v: Seq<DrawableMasks>) -> Seq<(usize, bool, Seq<i32>)> {
    v.map_values(|d: DrawableMasks| (d.index, d.is_masked, d.masks@))
}

/// No two masked drawables share an index.
pub open spec fn distinct_masked(ds: Seq<(usize, bool, Seq<i32>)>) -> bool {
    forall|i: int, j: int| 0 <= i < j < ds.len() && ds[i].1 && ds[j].1 ==> ds[i].0 != ds[j].0
}

fn ids_contain(v: &Vec<i32>, x: i32) -> (r: bool)
    ensures
        r == v@.contains(x),
{
    let mut i: usize = 0;
    while i < v.len()
        invariant
            i <= v@.len(),
            forall|j: int| 0 <= j < i ==> v@[j] != x,
        decreases v@.len() - i,
    {
        if v[i] == x {
            return true;
        }
        i = i + 1;
    }
    false
}

fn all_in(a: &Vec<i32>, b: &Vec<i32>) -> (r: bool)
    ensures
        r == forall|k: int| 0 <= k < a@.len() ==> b@.contains(#[trigger] a@[k]),
{
    let mut i: usize = 0;
    while i < a.len()
        invariant
            i <= a@.len(),
            forall|k: int| 0 <= k < i ==> b@.contains(#[trigger] a@[k]),
        decreases a@.len() - i,
    {
        if !ids_contain(b, a[i]) {
            return false;
        }
        i = i + 1;
    }
    true
}

fn find_same_clip(ccs: &Vec<ClippingContext>, masks: &Vec<i32>) -> (r: Option<usize>)
    ensures
        match r {
            Some(k) => same_clip_pos(contexts_view(ccs@), masks@) == Some(k as int) && k
                < ccs@.len(),
            None => same_clip_pos(contexts_view(ccs@), masks@) is None,
        },
{
    let ghost cv = contexts_view(ccs@);
    proof {
        lemma_same_clip_pos(cv, masks@);
    }
    let mut k: usize = 0;
    while k < ccs.len()
        invariant
            cv == contexts_view(ccs@),
            k <= ccs@.len(),
            forall|j: int| 0 <= j < k ==> !same_clip(#[trigger] cv[j].ids, masks@),
        decreases ccs@.len() - k,
    {
        let c = &ccs[k];
        if c.ids.len() == masks.len() && all_in(&c.ids, masks) && all_in(masks, &c.ids) {
            proof {
                lemma_same_clip_pos(cv, masks@);
                assert(same_clip(cv[k as int].ids, masks@));
                if let Some(m) = same_clip_pos(cv, masks@) {
                    if m > k {
                        assert(!same_clip(cv[k as int].ids, masks@));
                    }
                }
            }
            return Some(k);
        }
        proof {
            assert(cv[k as int] == ccs@[k as int]@);
        }
        k = k + 1;
    }
    proof {
        lemma_same_clip_pos(cv, masks@);
        if let Some(m) = same_clip_pos(cv, masks@) {
            assert(!same_clip(cv[m].ids, masks@));
        }
    }
    None
}

fn clone_ids(v: &Vec<i32>) -> (r: Vec<i32>)
    ensures
        r@ == v@,
{
    let r = v.clone();
    proof {
        assert forall|i: int| 0 <= i < v@.len() implies r@[i] == v@[i] by {
            assert(cloned::<i32>(v[i], r[i]));
        }
        assert(r@ =~= v@);
    }
    r
}

impl ClippingGraph {
    /// The contexts of the masked drawables, in order: each drawable goes
    /// to the first context with the same masks, or to a new one.
    pub fn new(drawables: &Vec<DrawableMasks>) -> (r: Self)
        requires
            distinct_masked(drawables_view(drawables@)),
        ensures
            ({
                let (ccs, m) = group_spec(drawables_view(drawables@), drawables@.len() as int);
                &&& r@.contexts == ccs
                &&& r@.for_draw == m
            }),
    {
        let ghost ds = drawables_view(drawables@);
        let mut ccs: Vec<ClippingContext> = Vec::new();
        let mut for_draw: HashMap<usize, usize> = HashMap::new();
        let mut i: usize = 0;
        proof {
            assert(contexts_view(ccs@) =~= Seq::<ClippingContextV>::empty());
            assert(for_draw@ =~= Map::<usize, usize>::empty());
        }
        while i < drawables.len()
            invariant
                ds == drawables_view(drawables@),
                distinct_masked(ds),
                i <= drawables@.len(),
                (contexts_view(ccs@), for_draw@) == group_spec(ds, i as int),
                forall|k: usize| #[trigger]
                    for_draw@.contains_key(k) ==> exists|j: int|
                        0 <= j < i && ds[j].1 && ds[j].0 == k,
            decreases drawables@.len() - i,
        {
            let d = &drawables[i];
            proof {
                assert(ds[i as int] == (d.index, d.is_masked, d.masks@));
            }
            if d.is_masked {
                let ghost cb = contexts_view(ccs@);
                let k = match find_same_clip(&ccs, &d.masks) {
                    Some(k) => k,
                    None => {
                        let c = ClippingContext {
                            ids: clone_ids(&d.masks),
                            drawable_ids: Vec::new(),
                            is_using: false,
                            layout_channel_index: 0,
                            buffer_index: 0,
                            cell: Cell::Empty,
                        };
                        proof {
                            assert(c@ =~= fresh_context(d.masks@));
                            assert(contexts_view(ccs@.push(c)) =~= contexts_view(ccs@).push(c@));
                        }
                        ccs.push(c);
                        ccs.len() - 1
                    },
                };
                let ghost mid = contexts_view(ccs@);
                let mut c = ccs.remove(k);
                c.drawable_ids.push(d.index);
                let ghost cv = c@;
                ccs.insert(k, c);
                proof {
                    assert(contexts_view(ccs@) =~= mid.update(k as int, cv));
                    assert(!for_draw@.contains_key(d.index)) by {
                        if for_draw@.contains_key(d.index) {
                            let j = choose|j: int| 0 <= j < i && ds[j].1 && ds[j].0 == d.index;
                            assert(ds[j].0 != ds[i as int].0);
                        }
                    }
                }
                let _ = for_draw.insert(d.index, k);
            }
            i = i + 1;
        }
        ClippingGraph { ccs_for_mask: ccs, ccs_for_draw: for_draw }
    }

    /// The clipping contexts, in order.
    pub fn get_clipping_contexts_for_mask(&self) -> (r: &Vec<ClippingContext>)
        ensures
            contexts_view(r@) == self@.contexts,
    {
        &self.ccs_for_mask
    }

    /// The context of a masked drawable.
    pub fn try_get_clipping_context_for_draw(&self, drawable_index: usize) -> (r: Option<
        &ClippingContext,
    >)
        ensures
            match self@.for_draw.get(drawable_index) {
                Some(k) => if k < self@.contexts.len() {
                    r matches Some(c) && c@ == self@.contexts[k as int]
                } else {
                    r is None
                },
                None => r is None,
            },
    {
        match self.ccs_for_draw.get(&drawable_index) {
            Some(k) => {
                if *k < self.ccs_for_mask.len() {
                    Some(&self.ccs_for_mask[*k])
                } else {
                    None
                }
            },
            None => None,
        }
    }
}

// ------------------------------------------------------------------------
// Laying out the contexts in use
/// The place of one context: color channel, mask texture and grid cell.
#[derive(Debug, Clone, Copy, PartialEq, Eq, Structural)]
pub struct Slot {
    pub channel: u32,
    pub buffer: u32,
    pub count: u32,
    pub index: u32,
}

/// How many contexts the mask textures can take.
pub open spec fn mask_max_count(buffers: u32) -> int {
    if buffers <= 1 {
        36
    } else {
        32 * buffers
    }
}

/// The largest grid a channel is cut into.
pub open spec fn layout_count_max(buffers: u32) -> int {
    if buffers <= 1 {
        9
    } else {
        8
    }
}

/// How many cells the channel `ch` of texture `rt` is cut into when `u`
/// contexts go on `b` textures: each texture takes its share, rounded up,
/// spread over the four channels, the first ones taking one more; the
/// textures after the remainder take one less, from the channel where the
/// spread ends.
pub open spec fn cell_count(u: u32, b: u32, rt: int, ch: int) -> int {
    let c = (u + b - 1) / (b as int);
    let div = c / 4;
    let m = c % 4;
    let base = div + if ch < m {
        1int
    } else {
        0int
    };
    let check = m - if div == 0 {
        1int
    } else {
        0int
    };
    if ch == check && u % b > 0 && rt >= u % b {
        base - 1
    } else {
        base
    }
}

/// The slots of one channel of one texture, cell by cell.
pub open spec fn cell_slots(u: u32, b: u32, rt: int, ch: int) -> Seq<Slot> {
    let n = cell_count(u, b, rt, ch);
    Seq::new(
        n as nat,
        |i: int| Slot { channel: ch as u32, buffer: rt as u32, count: n as u32, index: i as u32 },
    )
}

/// The slots of the first `t` channels, texture by texture.
pub open spec fn slots_upto(u: u32, b: u32, t: int) -> Seq<Slot>
    decreases t,
{
    if t <= 0 {
        seq![]
    } else {
        slots_upto(u, b, t - 1) + cell_slots(u, b, (t - 1) / 4, (t - 1) % 4)
    }
}

/// The slots of `u` contexts on `b` textures, in the order the contexts
/// take them.
pub open spec fn clip_slots(u: u32, b: u32) -> Seq<Slot> {
    slots_upto(u, b, 4 * b)
}

/// The numbers the layout computes fit in a `u32`.
pub open spec fn layout_fits(u: u32, b: u32) -> bool {
    &&& b >= 1
    &&& (b <= 1 || 32 * b <= u32::MAX)
    &&& (u > mask_max_count(b) || u + b <= u32::MAX)
}

/// A channel is never cut into more cells than the grids allow, nor into
/// fewer than none, when the contexts fit on the textures.
pub proof fn lemma_cell_count_supported(u: u32, b: u32, rt: int, ch: int)
    requires
        layout_fits(u, b),
        0 < u <= mask_max_count(b),
        0 <= rt < b,
        0 <= ch < 4,
    ensures
        0 <= cell_count(u, b, rt, ch) <= layout_count_max(b),
{
    let c = (u + b - 1) / (b as int);
    assert(c >= 1) by (nonlinear_arith)
        requires
            u >= 1,
            b >= 1,
            c == (u + b - 1) / (b as int),
    ;
    if b <= 1 {
        assert(c == u);
    } else {
        assert(c <= 32) by (nonlinear_arith)
            requires
                u <= 32 * b,
                b >= 1,
                c == (u + b - 1) / (b as int),
        ;
    }
}

proof fn lemma_slots_upto_len(u: u32, b: u32, t: int)
    requires
        0 <= t,
        forall|x: int| 0 <= x < t ==> #[trigger] cell_count(u, b, x / 4, x % 4) >= 0,
    ensures
        slots_upto(u, b, t).len() == slots_count(u, b, t),
    decreases t,
{
    if t > 0 {
        lemma_slots_upto_len(u, b, t - 1);
        assert(cell_count(u, b, (t - 1) / 4, (t - 1) % 4) >= 0);
    }
}

/// The number of cells of the first `t` channels.
pub open spec fn slots_count(u: u32, b: u32, t: int) -> int
    decreases t,
{
    if t <= 0 {
        0
    } else {
        slots_count(u, b, t - 1) + cell_count(u, b, (t - 1) / 4, (t - 1) % 4)
    }
}

/// The channels of texture `rt` together take the texture's share, one
/// less past the remainder.
proof fn lemma_sheet_count(u: u32, b: u32, rt: int)
    requires
        layout_fits(u, b),
        0 < u <= mask_max_count(b),
        0 <= rt < b,
    ensures
        slots_count(u, b, 4 * (rt + 1)) == slots_count(u, b, 4 * rt) + (u + b - 1) / (b as int) - (
        if u % b > 0 && rt >= u % b {
            1int
        } else {
            0int
        }),
{
    let c = (u + b - 1) / (b as int);
    assert(c >= 1) by (nonlinear_arith)
        requires
            u >= 1,
            b >= 1,
            c == (u + b - 1) / (b as int),
    ;
    let t = 4 * rt;
    assert((t + 3) / 4 == rt && (t + 3) % 4 == 3);
    assert((t + 2) / 4 == rt && (t + 2) % 4 == 2);
    assert((t + 1) / 4 == rt && (t + 1) % 4 == 1);
    assert(t / 4 == rt && t % 4 == 0);
    assert(slots_count(u, b, t + 1) == slots_count(u, b, t) + cell_count(u, b, rt, 0));
    assert(slots_count(u, b, t + 2) == slots_count(u, b, t + 1) + cell_count(u, b, rt, 1));
    assert(slots_count(u, b, t + 3) == slots_count(u, b, t + 2) + cell_count(u, b, rt, 2));
    assert(slots_count(u, b, t + 4) == slots_count(u, b, t + 3) + cell_count(u, b, rt, 3));
    assert(4 * (rt + 1) == t + 4);
}

proof fn lemma_sheets_count(u: u32, b: u32, k: int)
    requires
        layout_fits(u, b),
        0 < u <= mask_max_count(b),
        0 <= k <= b,
    ensures
        slots_count(u, b, 4 * k) == k * ((u + b - 1) / (b as int)) - (if u % b > 0 && k > u % b {
            k - u % b
        } else {
            0
        }),
    decreases k,
{
    if k > 0 {
        lemma_sheets_count(u, b, k - 1);
        lemma_sheet_count(u, b, k - 1);
        let c = (u + b - 1) / (b as int);
        let r = u % b;
        assert(k * c == (k - 1) * c + c) by (nonlinear_arith);
        assert(4 * (k - 1 + 1) == 4 * k);
        let prev = slots_count(u, b, 4 * (k - 1));
        assert(prev == (k - 1) * c - (if r > 0 && k - 1 > r {
            k - 1 - r
        } else {
            0
        }));
        assert(slots_count(u, b, 4 * k) == prev + c - (if r > 0 && k - 1 >= r {
            1int
        } else {
            0int
        }));
        assert(slots_count(u, b, 4 * k) == k * c - (if r > 0 && k > r {
            k - r
        } else {
            0
        }));
    } else {
        let c = (u + b - 1) / (b as int);
        assert(0 * c == 0);
    }
}

/// Every context in use gets one slot: the slots are as many as the
/// contexts when they fit on the textures.
pub proof fn lemma_clip_slots_len(u: u32, b: u32)
    requires
        layout_fits(u, b),
        0 < u <= mask_max_count(b),
    ensures
        clip_slots(u, b).len() == u,
{
    assert forall|x: int| 0 <= x < 4 * b implies #[trigger] cell_count(u, b, x / 4, x % 4) >= 0 by {
        lemma_cell_count_supported(u, b, x / 4, x % 4);
    }
    lemma_slots_upto_len(u, b, 4 * b);
    lemma_sheets_count(u, b, b as int);
    let c = (u + b - 1) / (b as int);
    let q = (u as int) / (b as int);
    let r = (u as int) % (b as int);
    assert(r == u % b);
    assert(u == b * q + r && 0 <= r < b) by (nonlinear_arith)
        requires
            b >= 1,
            q == (u as int) / (b as int),
            r == (u as int) % (b as int),
    ;
    if r == 0 {
        assert(c == q) by (nonlinear_arith)
            requires
                b >= 1,
                u == b * q,
                c == (u + b - 1) / (b as int),
        ;
        assert(b * c == u) by (nonlinear_arith)
            requires
                c == q,
                u == b * q,
        ;
    } else {
        assert(c == q + 1) by (nonlinear_arith)
            requires
                b >= 1,
                u == b * q + r,
                1 <= r < b,
                c == (u + b - 1) / (b as int),
        ;
        assert(b * c - (b - r) == u) by (nonlinear_arith)
            requires
                c == q + 1,
                u == b * q + r,
        ;
    }
}

/// The slots of `using` contexts on `buffers` mask textures, in the order
/// the contexts take them; `None` when there is no context to lay out or
/// more than the textures take, and every context then takes a whole
/// channel. A channel is never cut into more cells than the grids allow
/// (see [`lemma_cell_count_supported`]).
pub fn layout_slots(using: u32, buffers: u32) -> (r: Option<Vec<Slot>>)
    requires
        layout_fits(using, buffers),
    ensures
        using == 0 || using > mask_max_count(buffers) ==> r is None,
        0 < using <= mask_max_count(buffers) ==> (r matches Some(v) && v@ == clip_slots(
            using,
            buffers,
        )),
{
    let max_count: u32 = if buffers <= 1 {
        36
    } else {
        32 * buffers
    };
    assert(max_count == mask_max_count(buffers));
    if using == 0 || using > max_count {
        return None;
    }
    let count_per_sheet = (using + buffers - 1) / buffers;
    let reduce = using % buffers;
    let div = count_per_sheet / 4;
    let m = count_per_sheet % 4;
    let mut out: Vec<Slot> = Vec::new();
    let mut rt: u32 = 0;
    while rt < buffers
        invariant
            layout_fits(using, buffers),
            0 < using <= mask_max_count(buffers),
            count_per_sheet == (using + buffers - 1) / (buffers as int),
            reduce == using % buffers,
            div == count_per_sheet / 4,
            m == count_per_sheet % 4,
            rt <= buffers,
            out@ == slots_upto(using, buffers, 4 * rt),
        decreases buffers - rt,
    {
        let mut ch: u32 = 0;
        while ch < 4
            invariant
                layout_fits(using, buffers),
                0 < using <= mask_max_count(buffers),
                count_per_sheet == (using + buffers - 1) / (buffers as int),
                reduce == using % buffers,
                div == count_per_sheet / 4,
                m == count_per_sheet % 4,
                rt < buffers,
                ch <= 4,
                out@ == slots_upto(using, buffers, 4 * rt + ch),
            decreases 4 - ch,
        {
            proof {
                lemma_cell_count_supported(using, buffers, rt as int, ch as int);
            }
            let is_check = if div == 0 {
                ch + 1 == m
            } else {
                ch == m
            };
            let mut layout_count = div + if ch < m {
                1
            } else {
                0
            };
            if is_check && reduce > 0 && rt >= reduce {
                layout_count = layout_count - 1;
            }
            let ghost t = 4 * rt + ch;
            assert(t / 4 == rt && t % 4 == ch);
            assert(layout_count == cell_count(using, buffers, rt as int, ch as int));
            let ghost cell = cell_slots(using, buffers, rt as int, ch as int);
            let ghost before = out@;
            let mut i: u32 = 0;
            while i < layout_count
                invariant
                    i <= layout_count,
                    cell.len() == layout_count,
                    cell == cell_slots(using, buffers, rt as int, ch as int),
                    layout_count == cell_count(using, buffers, rt as int, ch as int),
                    out@ == before + cell.subrange(0, i as int),
                decreases layout_count - i,
            {
                out.push(Slot { channel: ch, buffer: rt, count: layout_count, index: i });
                proof {
                    assert(before + cell.subrange(0, i + 1) =~= (before + cell.subrange(
                        0,
                        i as int,
                    )).push(cell[i as int]));
                }
                i = i + 1;
            }
            proof {
                assert(cell.subrange(0, cell.len() as int) =~= cell);
                assert(slots_upto(using, buffers, t + 1) == before + cell);
            }
            ch = ch + 1;
        }
        rt = rt + 1;
    }
    Some(out)
}

/// How many of the flags are set.
pub open spec fn count_true(s: Seq<bool>) -> nat
    decreases s.len(),
{
    if s.len() == 0 {
        0
    } else {
        count_true(s.drop_last()) + if s.last() {
            1nat
        } else {
            0nat
        }
    }
}

proof fn lemma_count_true_le(s: Seq<bool>)
    ensures
        count_true(s) <= s.len(),
    decreases s.len(),
{
    if s.len() > 0 {
        lemma_count_true_le(s.drop_last());
    }
}

/// The contexts after `setup`: each marked in use or not; with `u` in use,
/// the first `u` contexts take the slots in order, or, when they are more
/// than the textures take, every context takes a whole channel of the
/// first texture.
pub open spec fn setup_spec(ccs: Seq<ClippingContextV>, is_using: Seq<bool>, buffers: u32) -> Seq<
    ClippingContextV,
> {
    let u = count_true(is_using) as u32;
    let marked = Seq::new(
        ccs.len(),
        |k: int| ClippingContextV { is_using: is_using[k], ..ccs[k] },
    );
    if u > mask_max_count(buffers) {
        Seq::new(
            ccs.len(),
            |k: int|
                ClippingContextV {
                    layout_channel_index: 0,
                    buffer_index: 0,
                    cell: Cell::Whole,
                    ..marked[k]
                },
        )
    } else {
        let slots = clip_slots(u, buffers);
        Seq::new(
            ccs.len(),
            |k: int|
                if k < slots.len() {
                    ClippingContextV {
                        layout_channel_index: slots[k].channel,
                        buffer_index: slots[k].buffer,
                        cell: Cell::Grid { count: slots[k].count, index: slots[k].index },
                        ..marked[k]
                    }
                } else {
                    marked[k]
                },
        )
    }
}

impl ClippingGraph {
    /// Marks the contexts in use and lays them out on `mask_buffer_count`
    /// textures, as `setup_spec` says.
    pub fn setup(&mut self, is_using: &Vec<bool>, mask_buffer_count: u32)
        requires
            is_using@.len() == old(self)@.contexts.len(),
            count_true(is_using@) > 0,
            count_true(is_using@) <= u32::MAX,
            layout_fits(count_true(is_using@) as u32, mask_buffer_count),
        ensures
            final(self)@ == (ClippingGraphV {
                contexts: setup_spec(old(self)@.contexts, is_using@, mask_buffer_count),
                ..old(self)@
            }),
    {
        let ghost g = self@;
        let n = self.ccs_for_mask.len();
        let mut using: u32 = 0;
        let mut k: usize = 0;
        while k < n
            invariant
                n == self.ccs_for_mask@.len(),
                is_using@.len() == n,
                k <= n,
                using == count_true(is_using@.subrange(0, k as int)),
                count_true(is_using@) <= u32::MAX,
                self@.for_draw == g.for_draw,
                self@.contexts.len() == n,
                g.contexts.len() == n,
                forall|j: int|
                    0 <= j < n ==> #[trigger] self@.contexts[j] == (if j < k {
                        ClippingContextV { is_using: is_using@[j], ..g.contexts[j] }
                    } else {
                        g.contexts[j]
                    }),
            decreases n - k,
        {
            proof {
                assert(is_using@.subrange(0, k + 1).drop_last() =~= is_using@.subrange(0, k as int));
                lemma_count_true_prefix(is_using@, k + 1);
            }
            let ghost cb = self.ccs_for_mask@;
            let ghost old_c = self@.contexts[k as int];
            let mut c = self.ccs_for_mask.remove(k);
            c.is_using = is_using[k];
            if is_using[k] {
                using = using + 1;
            }
            self.ccs_for_mask.insert(k, c);
            proof {
                assert(cb[k as int]@ == old_c);
                assert(c@ == ClippingContextV { is_using: is_using@[k as int], ..old_c });
                assert(contexts_view(self.ccs_for_mask@) =~= contexts_view(cb).update(k as int, c@));
            }
            k = k + 1;
        }
        proof {
            assert(is_using@.subrange(0, n as int) =~= is_using@);
            lemma_count_true_le(is_using@);
        }
        let ghost marked = self@.contexts;
        match layout_slots(using, mask_buffer_count) {
            None => {
                let mut k: usize = 0;
                while k < n
                    invariant
                        n == self.ccs_for_mask@.len(),
                        k <= n,
                        self@.for_draw == g.for_draw,
                        self@.contexts.len() == n,
                        marked.len() == n,
                        forall|j: int|
                            0 <= j < n ==> #[trigger] self@.contexts[j] == (if j < k {
                                ClippingContextV {
                                    layout_channel_index: 0,
                                    buffer_index: 0,
                                    cell: Cell::Whole,
                                    ..marked[j]
                                }
                            } else {
                                marked[j]
                            }),
                    decreases n - k,
                {
                    let ghost cb = self.ccs_for_mask@;
                    let ghost old_c = self@.contexts[k as int];
                    let mut c = self.ccs_for_mask.remove(k);
                    c.layout_channel_index = 0;
                    c.buffer_index = 0;
                    c.cell = Cell::Whole;
                    self.ccs_for_mask.insert(k, c);
                    proof {
                        assert(cb[k as int]@ == old_c);
                        assert(c@ == ClippingContextV {
                            layout_channel_index: 0,
                            buffer_index: 0,
                            cell: Cell::Whole,
                            ..old_c
                        });
                        assert(contexts_view(self.ccs_for_mask@) =~= contexts_view(cb).update(
                            k as int,
                            c@,
                        ));
                    }
                    k = k + 1;
                }
            },
            Some(slots) => {
                proof {
                    lemma_clip_slots_len(using, mask_buffer_count);
                }
                let mut k: usize = 0;
                while k < slots.len()
                    invariant
                        n == self.ccs_for_mask@.len(),
                        slots@.len() <= n,
                        k <= slots@.len(),
                        self@.for_draw == g.for_draw,
                        self@.contexts.len() == n,
                        marked.len() == n,
                        forall|j: int|
                            0 <= j < n ==> #[trigger] self@.contexts[j] == (if j < k {
                                ClippingContextV {
                                    layout_channel_index: slots@[j].channel,
                                    buffer_index: slots@[j].buffer,
                                    cell: Cell::Grid { count: slots@[j].count, index: slots@[j].index },
                                    ..marked[j]
                                }
                            } else {
                                marked[j]
                            }),
                    decreases slots@.len() - k,
                {
                    let ghost cb = self.ccs_for_mask@;
                    let ghost old_c = self@.contexts[k as int];
                    let slot = slots[k];
                    let mut c = self.ccs_for_mask.remove(k);
                    c.layout_channel_index = slot.channel;
                    c.buffer_index = slot.buffer;
                    c.cell = Cell::Grid { count: slot.count, index: slot.index };
                    self.ccs_for_mask.insert(k, c);
                    proof {
                        assert(cb[k as int]@ == old_c);
                        assert(c@ == ClippingContextV {
                            layout_channel_index: slot.channel,
                            buffer_index: slot.buffer,
                            cell: Cell::Grid { count: slot.count, index: slot.index },
                            ..old_c
                        });
                        assert(contexts_view(self.ccs_for_mask@) =~= contexts_view(cb).update(
                            k as int,
                            c@,
                        ));
                    }
                    k = k + 1;
                }
            },
        }
        proof {
            assert(self@.contexts =~= setup_spec(g.contexts, is_using@, mask_buffer_count));
        }
    }
}

proof fn lemma_count_true_prefix(s: Seq<bool>, k: int)
    requires
        0 < k <= s.len(),
    ensures
        count_true(s.subrange(0, k)) == count_true(s.subrange(0, k - 1)) + if s[k - 1] {
            1nat
        } else {
            0nat
        },
        count_true(s.subrange(0, k)) <= count_true(s),
    decreases s.len() - k,
{
    assert(s.subrange(0, k).drop_last() =~= s.subrange(0, k - 1));
    if k < s.len() {
        lemma_count_true_prefix(s, k + 1);
    } else {
        assert(s.subrange(0, k) =~= s);
    }
}

/// No two slots are the same cell of the same channel of the same texture.
pub open spec fn distinct_cells(s: Seq<Slot>) -> bool {
    forall|i: int, j: int|
        0 <= i < j < s.len() ==> !(s[i].buffer == s[j].buffer && s[i].channel == s[j].channel
            && s[i].index == s[j].index)
}

proof fn lemma_slots_upto_distinct(u: u32, b: u32, t: int)
    requires
        0 <= t <= 4 * b,
        b <= u32::MAX,
    ensures
        distinct_cells(slots_upto(u, b, t)),
        forall|i: int|
            0 <= i < slots_upto(u, b, t).len() ==> 4 * (#[trigger] slots_upto(u, b, t)[i]).buffer
                + slots_upto(u, b, t)[i].channel < t && slots_upto(u, b, t)[i].channel < 4,
    decreases t,
{
    if t > 0 {
        lemma_slots_upto_distinct(u, b, t - 1);
        let a = slots_upto(u, b, t - 1);
        let c = cell_slots(u, b, (t - 1) / 4, (t - 1) % 4);
        let s = slots_upto(u, b, t);
        assert(s == a + c);
        assert forall|i: int| 0 <= i < c.len() implies 4 * (#[trigger] c[i]).buffer + c[i].channel
            == t - 1 && c[i].index == i && c[i].channel < 4 by {
            assert(((t - 1) / 4) as u32 == (t - 1) / 4);
            assert(((t - 1) % 4) as u32 == (t - 1) % 4);
            assert(i < cell_count(u, b, (t - 1) / 4, (t - 1) % 4));
        }
        assert forall|i: int|
            0 <= i < s.len() implies 4 * (#[trigger] s[i]).buffer + s[i].channel < t
            && s[i].channel < 4 by {
            if i < a.len() {
                assert(s[i] == a[i]);
            } else {
                assert(s[i] == c[i - a.len()]);
            }
        }
        assert forall|i: int, j: int| 0 <= i < j < s.len() implies !(s[i].buffer == s[j].buffer
            && s[i].channel == s[j].channel && s[i].index == s[j].index) by {
            if j < a.len() {
                assert(s[i] == a[i] && s[j] == a[j]);
            } else if i < a.len() {
                assert(s[i] == a[i] && s[j] == c[j - a.len()]);
            } else {
                assert(s[i] == c[i - a.len()] && s[j] == c[j - a.len()]);
            }
        }
    }
}

/// No two contexts in use share a cell: the slots are distinct cells.
pub proof fn lemma_clip_slots_distinct(u: u32, b: u32)
    ensures
        distinct_cells(clip_slots(u, b)),
{
    lemma_slots_upto_distinct(u, b, 4 * b);
}

} // verus!
