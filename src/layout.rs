//! Fitting the measured blocks into the width left of the bar: grouping
//! into series, switching series to their short texts under width pressure,
//! dropping empty blocks and placing everything against the right edge.

use vstd::prelude::*;
use crate::block::opt_view;
use crate::blocks_cache::{opt_string_eq, ComputedBlock};
use crate::button_manager::ButtonManager;

verus! {

/// The width a block takes, with its short text or its full one. A block
/// without a short text keeps its full text in a switched series.
pub open spec fn sel_width<L>(c: ComputedBlock<L>, short: bool) -> int {
    if short {
        match c.short {
            Some(s) => s.width as int,
            None => c.full.width as int,
        }
    } else {
        c.full.width as int
    }
}

/// What switching a block to its short text saves.
pub open spec fn saving<L>(c: ComputedBlock<L>) -> int {
    match c.short {
        Some(s) => c.full.width - s.width,
        None => 0,
    }
}

/// The end of the series that starts at `s`, looking from `e` on: a series
/// goes on while the previous block leaves no gap and the name is the same.
pub open spec fn series_end<L>(bs: Seq<ComputedBlock<L>>, s: int, e: int) -> int
    decreases bs.len() - e,
{
    if 0 <= s < e < bs.len() && bs[e - 1].block.separator_block_width == 0 && opt_view(bs[e].block.name) == opt_view(bs[s].block.name) {
        series_end(bs, s, e + 1)
    } else {
        e
    }
}

/// The series of `bs` from block `s` on, as `(start, end)` pairs.
pub open spec fn series_from<L>(bs: Seq<ComputedBlock<L>>, s: int) -> Seq<(int, int)>
    decreases bs.len() - s,
{
    if 0 <= s < bs.len() {
        let e = series_end(bs, s, s + 1);
        if s < e <= bs.len() {
            seq![(s, e)] + series_from(bs, e)
        } else {
            Seq::empty()
        }
    } else {
        Seq::empty()
    }
}

/// The sum of the savings of the blocks `s..e`.
pub open spec fn saving_sum<L>(bs: Seq<ComputedBlock<L>>, s: int, e: int) -> int
    decreases e - s,
{
    if s < e {
        saving_sum(bs, s, e - 1) + saving(bs[e - 1])
    } else {
        0
    }
}

/// The sum of the full widths of the blocks `s..e`.
pub open spec fn full_sum<L>(bs: Seq<ComputedBlock<L>>, s: int, e: int) -> int
    decreases e - s,
{
    if s < e {
        full_sum(bs, s, e - 1) + bs[e - 1].full.width
    } else {
        0
    }
}

/// The width of the blocks from `s` on with their full texts, with the
/// gap after each series but the last.
pub open spec fn blocks_width_from<L>(bs: Seq<ComputedBlock<L>>, s: int) -> int
    decreases bs.len() - s,
{
    if 0 <= s < bs.len() {
        let e = series_end(bs, s, s + 1);
        if s < e <= bs.len() {
            full_sum(bs, s, e) + (if e < bs.len() {
                bs[e - 1].block.separator_block_width as int
            } else {
                0
            }) + blocks_width_from(bs, e)
        } else {
            0
        }
    } else {
        0
    }
}

/// The savings of the series `ser`.
pub open spec fn series_savings<L>(bs: Seq<ComputedBlock<L>>, ser: Seq<(int, int)>) -> Seq<int> {
    Seq::new(ser.len(), |k: int| saving_sum(bs, ser[k].0, ser[k].1))
}

/// The sum of `d` over the first `k` entries of `order`.
pub open spec fn picked_sum(d: Seq<int>, order: Seq<int>, k: int) -> int
    decreases k,
{
    if 0 < k <= order.len() {
        picked_sum(d, order, k - 1) + d[order[k - 1]]
    } else {
        0
    }
}

/// `order` is the greedy choice of entries of `d` that must be given up to
/// cover `excess`: entries with a positive saving, largest first, each
/// taken only while the ones before do not cover `excess` yet; it ends
/// when they do, or when no positive entry is left.
pub open spec fn greedy_choice(d: Seq<int>, excess: int, order: Seq<int>) -> bool {
    &&& forall|k: int| 0 <= k < order.len() ==> 0 <= #[trigger] order[k] < d.len() && d[order[k]] > 0
    &&& forall|k: int, l: int| 0 <= k < l < order.len() ==> order[k] != order[l]
    &&& forall|k: int, l: int| 0 <= k < l < order.len() ==> d[#[trigger] order[k]] >= d[#[trigger] order[l]]
    &&& forall|k: int, j: int|
        0 <= k < order.len() && 0 <= j < d.len() && d[j] > 0 && !order.contains(j) ==> #[trigger] d[j] <= d[
            #[trigger] order[k]]
    &&& forall|k: int| 0 <= k < order.len() ==> #[trigger] picked_sum(d, order, k) < excess
    &&& picked_sum(d, order, order.len() as int) >= excess || forall|j: int|
        0 <= j < d.len() && d[j] > 0 ==> order.contains(j)
}

/// Picks the entries of `d` to give up, greedily by the largest saving, to
/// cover `excess`; ties go to the lower index.
pub fn choose_short(d: &Vec<i128>, excess: i128) -> (order: Vec<usize>)
    requires
        forall|j: int| 0 <= j < d@.len() ==> -0x1_0000_0000_0000_0000_0000_0000 <= #[trigger] d@[j] <= 0x1_0000_0000_0000_0000_0000_0000,
        -0x1_0000_0000_0000_0000_0000_0000_0000 <= excess <= 0x1_0000_0000_0000_0000_0000_0000_0000,
    ensures
        greedy_choice(d@.map_values(|x: i128| x as int), excess as int, idx_view(order@)),
{
    let ghost dd = d@.map_values(|x: i128| x as int);
    let n = d.len();
    let mut taken: Vec<bool> = Vec::new();
    let mut j: usize = 0;
    while j < n
        invariant
            0 <= j <= n,
            n == d@.len(),
            taken@.len() == j,
            forall|i: int| 0 <= i < j ==> !taken@[i],
        decreases n - j,
    {
        taken.push(false);
        j = j + 1;
    }
    let mut order: Vec<usize> = Vec::new();
    let mut remaining: i128 = excess;
    loop
        invariant
            n == d@.len(),
            dd == d@.map_values(|x: i128| x as int),
            forall|j: int| 0 <= j < d@.len() ==> -0x1_0000_0000_0000_0000_0000_0000 <= #[trigger] d@[j] <= 0x1_0000_0000_0000_0000_0000_0000,
            -0x1_0000_0000_0000_0000_0000_0000_0000 <= excess <= 0x1_0000_0000_0000_0000_0000_0000_0000,
            taken@.len() == n,
            order@.len() <= n,
            forall|i: int| 0 <= i < n ==> (taken@[i] <==> idx_view(order@).contains(i)),
            greedy_prefix(dd, idx_view(order@)),
            remaining == excess - picked_sum(dd, idx_view(order@), order@.len() as int),
            -0x1_0000_0000_0000_0000_0000_0000_0000 <= remaining <= excess,
            forall|k: int| 0 <= k < order@.len() ==> #[trigger] picked_sum(dd, idx_view(order@), k) < excess,
        ensures
            greedy_choice(dd, excess as int, idx_view(order@)),
        decreases n - order@.len(),
    {
        let ghost ord = idx_view(order@);
        if remaining <= 0 {
            break;
        }
        // the untaken entry with the largest positive saving
        let mut best: Option<usize> = None;
        let mut i: usize = 0;
        while i < n
            invariant
                0 <= i <= n,
                n == d@.len(),
                taken@.len() == n,
                best matches Some(b) ==> b < i && !taken@[b as int] && d@[b as int] > 0 && forall|t: int|
                    0 <= t < i && !taken@[t] && d@[t] > 0 ==> #[trigger] d@[t] <= d@[b as int],
                best is None ==> forall|t: int| 0 <= t < i ==> taken@[t] || #[trigger] d@[t] <= 0,
            decreases n - i,
        {
            if !taken[i] && d[i] > 0 {
                match best {
                    Some(b) => if d[i] > d[b] {
                        best = Some(i);
                    },
                    None => best = Some(i),
                }
            }
            i = i + 1;
        }
        match best {
            None => {
                assert forall|j: int| 0 <= j < dd.len() && dd[j] > 0 implies ord.contains(j) by {
                    assert(taken@[j] || d@[j] <= 0);
                }
                break;
            },
            Some(b) => {
                proof {
                    lemma_pick_extends(dd, ord, b as int);
                    if ord.len() >= n {
                        // every entry is taken already, b among them
                        lemma_distinct_full(ord, n as int, b as int);
                    }
                }
                taken.set(b, true);
                order.push(b);
                let ghost ord2 = idx_view(order@);
                assert(ord2 =~= ord.push(b as int));
                assert(picked_sum(dd, ord2, ord.len() as int) == picked_sum(dd, ord, ord.len() as int)) by {
                    lemma_picked_sum_prefix(dd, ord, ord2, ord.len() as int);
                }
                assert forall|k: int| 0 <= k < ord2.len() implies #[trigger] picked_sum(dd, ord2, k) < excess by {
                    if k < ord.len() {
                        lemma_picked_sum_prefix(dd, ord, ord2, k);
                    }
                }
                remaining = remaining - d[b];
                assert forall|t: int| 0 <= t < n implies (taken@[t] <==> ord2.contains(t)) by {
                    if t == b {
                        assert(ord2[ord.len() as int] == t);
                    } else if ord2.contains(t) {
                        let w = choose|w: int| 0 <= w < ord2.len() && ord2[w] == t;
                        assert(ord.contains(t)) by {
                            assert(ord[w] == t);
                        }
                    } else if ord.contains(t) {
                        let w = choose|w: int| 0 <= w < ord.len() && ord[w] == t;
                        assert(ord2[w] == t);
                    }
                }
            },
        }
    }
    order
}

pub open spec fn idx_view(v: Seq<usize>) -> Seq<int> {
    v.map_values(|i: usize| i as int)
}

/// The first four clauses of `greedy_choice`, which every prefix of the
/// choice satisfies.
pub open spec fn greedy_prefix(d: Seq<int>, order: Seq<int>) -> bool {
    &&& forall|k: int| 0 <= k < order.len() ==> 0 <= #[trigger] order[k] < d.len() && d[order[k]] > 0
    &&& forall|k: int, l: int| 0 <= k < l < order.len() ==> order[k] != order[l]
    &&& forall|k: int, l: int| 0 <= k < l < order.len() ==> d[#[trigger] order[k]] >= d[#[trigger] order[l]]
    &&& forall|k: int, j: int|
        0 <= k < order.len() && 0 <= j < d.len() && d[j] > 0 && !order.contains(j) ==> #[trigger] d[j] <= d[
            #[trigger] order[k]]
}

proof fn lemma_picked_sum_prefix(d: Seq<int>, a: Seq<int>, b: Seq<int>, k: int)
    requires
        0 <= k <= a.len() <= b.len(),
        forall|i: int| 0 <= i < a.len() ==> a[i] == b[i],
    ensures
        picked_sum(d, a, k) == picked_sum(d, b, k),
    decreases k,
{
    if k > 0 {
        lemma_picked_sum_prefix(d, a, b, k - 1);
    }
}

proof fn lemma_pick_extends(d: Seq<int>, ord: Seq<int>, b: int)
    requires
        greedy_prefix(d, ord),
        0 <= b < d.len(),
        d[b] > 0,
        !ord.contains(b),
        forall|t: int| 0 <= t < d.len() && !ord.contains(t) && d[t] > 0 ==> #[trigger] d[t] <= d[b],
    ensures
        greedy_prefix(d, ord.push(b)),
{
    let o2 = ord.push(b);
    assert forall|k: int, l: int| 0 <= k < l < o2.len() implies o2[k] != o2[l] by {
        if l == ord.len() {
            assert(ord[k] == o2[k]);
        }
    }
    assert forall|k: int, l: int| 0 <= k < l < o2.len() implies d[#[trigger] o2[k]] >= d[#[trigger] o2[l]] by {
        if l == ord.len() {
            assert(d[b] <= d[ord[k]]);
        }
    }
    assert forall|k: int, j: int|
        0 <= k < o2.len() && 0 <= j < d.len() && d[j] > 0 && !o2.contains(j) implies #[trigger] d[j] <= d[
            #[trigger] o2[k]] by {
        assert(o2[ord.len() as int] == b);
        if !ord.contains(j) {
            assert(j != b);
            if k < ord.len() {
                assert(o2[k] == ord[k]);
            }
        } else {
            let w = choose|w: int| 0 <= w < ord.len() && ord[w] == j;
            assert(o2[w] == j);
        }
    }
}

proof fn lemma_distinct_full(ord: Seq<int>, n: int, b: int)
    requires
        forall|k: int| 0 <= k < ord.len() ==> 0 <= #[trigger] ord[k] < n,
        forall|k: int, l: int| 0 <= k < l < ord.len() ==> ord[k] != ord[l],
        ord.len() >= n,
        0 <= b < n,
    ensures
        ord.contains(b),
{
    let s = ord.to_set();
    assert forall|x: int| #[trigger] s.contains(x) implies 0 <= x < n by {
        let w = choose|w: int| 0 <= w < ord.len() && ord[w] == x;
    }
    assert(ord.no_duplicates());
    ord.unique_seq_to_set();
    let full = vstd::set_lib::set_int_range(0, n);
    assert(s.subset_of(full));
    vstd::set_lib::lemma_int_range(0, n);
    vstd::set_lib::lemma_len_subset(s, full);
    if !ord.contains(b) {
        assert(!s.contains(b));
        assert(s.subset_of(full.remove(b)));
        vstd::set_lib::lemma_len_subset(s, full.remove(b));
    }
}

pub open spec fn ser_view(v: Seq<(usize, usize)>) -> Seq<(int, int)> {
    v.map_values(|p: (usize, usize)| (p.0 as int, p.1 as int))
}

/// Bounds that keep every sum of the layout far inside `i128`.
pub open spec fn saving_bound(x: int) -> bool {
    -0x1_0000_0000_0000_0000_0000_0000 <= x <= 0x1_0000_0000_0000_0000_0000_0000
}

/// Splits `bs` into series; returns them with their savings and the width
/// of all blocks with their full texts and the gaps between series.
fn group_series<L>(bs: &[ComputedBlock<L>]) -> (r: (Vec<(usize, usize)>, Vec<i128>, i128))
    ensures
        ser_view(r.0@) == series_from(bs@, 0),
        r.1@.len() == r.0@.len(),
        forall|k: int| 0 <= k < r.1@.len() ==> #[trigger] r.1@[k] == saving_sum(bs@, series_from(bs@, 0)[k].0, series_from(bs@, 0)[k].1),
        forall|k: int| 0 <= k < r.1@.len() ==> saving_bound(#[trigger] r.1@[k] as int),
        r.2 == blocks_width_from(bs@, 0),
        0 <= r.2 <= 0x2_0000_0000_0000_0000_0000_0000,
{
    let n = bs.len();
    let mut ser: Vec<(usize, usize)> = Vec::new();
    let mut savings: Vec<i128> = Vec::new();
    let mut width: i128 = 0;
    let mut s: usize = 0;
    while s < n
        invariant
            0 <= s <= n,
            n == bs@.len(),
            series_from(bs@, 0) == ser_view(ser@) + series_from(bs@, s as int),
            blocks_width_from(bs@, 0) == width + blocks_width_from(bs@, s as int),
            savings@.len() == ser@.len(),
            forall|k: int| 0 <= k < savings@.len() ==> #[trigger] savings@[k] == saving_sum(bs@, ser_view(ser@)[k].0, ser_view(ser@)[k].1),
            forall|k: int| 0 <= k < savings@.len() ==> saving_bound(#[trigger] savings@[k] as int),
            0 <= width <= s * 0x1_0000_0100,
        decreases n - s,
    {
        let mut e: usize = s + 1;
        let mut full: i128 = bs[s].full.width as i128;
        let mut sv: i128 = match &bs[s].short {
            Some(t) => bs[s].full.width as i128 - t.width as i128,
            None => 0,
        };
        assert(full_sum(bs@, s as int, s as int) == 0);
        assert(saving_sum(bs@, s as int, s as int) == 0);
        assert(full_sum(bs@, s as int, s + 1) == bs@[s as int].full.width);
        assert(saving_sum(bs@, s as int, s + 1) == saving(bs@[s as int]));
        while e < n && bs[e - 1].block.separator_block_width == 0 && opt_string_eq(&bs[e].block.name, &bs[s].block.name)
            invariant
                s < e <= n,
                n == bs@.len(),
                series_end(bs@, s as int, s + 1) == series_end(bs@, s as int, e as int),
                full == full_sum(bs@, s as int, e as int),
                sv == saving_sum(bs@, s as int, e as int),
                0 <= full <= (e - s) * 0x1_0000_0000,
                -((e - s) * 0x1_0000_0000) <= sv <= (e - s) * 0x1_0000_0000,
            decreases n - e,
        {
            full = full + bs[e].full.width as i128;
            sv = sv + match &bs[e].short {
                Some(t) => bs[e].full.width as i128 - t.width as i128,
                None => 0,
            };
            e = e + 1;
        }
        assert(series_end(bs@, s as int, e as int) == e);
        let ghost old_ser = ser@;
        ser.push((s, e));
        savings.push(sv);
        assert(ser_view(ser@) =~= ser_view(old_ser).push((s as int, e as int)));
        assert(seq![(s as int, e as int)] + series_from(bs@, e as int) == series_from(bs@, s as int));
        assert(ser_view(old_ser) + series_from(bs@, s as int) =~= ser_view(ser@) + series_from(bs@, e as int));
        width = width + full;
        if e < n {
            width = width + bs[e - 1].block.separator_block_width as i128;
        }
        s = e;
    }
    assert(ser_view(ser@) + series_from(bs@, n as int) =~= ser_view(ser@));
    (ser, savings, width)
}

/// A piece of the bar: a block's text, or the gap after a series with the
/// separator tick it asks for.
#[derive(Clone, Copy, Debug, PartialEq, Eq, Structural)]
pub enum Piece {
    Text { index: usize, short: bool, round_left: bool, round_right: bool },
    Gap { width: u8, tick: bool },
}

/// A piece at its left edge `x`, `width` wide.
#[derive(Clone, Copy, Debug, PartialEq, Eq, Structural)]
pub struct Placed {
    pub piece: Piece,
    pub x: i128,
    pub width: u32,
}

/// The blocks of `s..e` that are not empty with the chosen text.
pub open spec fn kept_idx<L>(bs: Seq<ComputedBlock<L>>, s: int, e: int, short: bool) -> Seq<int>
    decreases e - s,
{
    if s < e {
        let r = kept_idx(bs, s, e - 1, short);
        if sel_width(bs[e - 1], short) > 0 {
            r.push(e - 1)
        } else {
            r
        }
    } else {
        Seq::empty()
    }
}

/// The text pieces of a series; only its first and last kept blocks get
/// rounded outer corners.
pub open spec fn series_pieces<L>(bs: Seq<ComputedBlock<L>>, s: int, e: int, short: bool) -> Seq<Piece> {
    let ks = kept_idx(bs, s, e, short);
    Seq::new(
        ks.len(),
        |j: int| Piece::Text { index: ks[j] as usize, short, round_left: j == 0, round_right: j == ks.len() - 1 },
    )
}

/// The pieces of the series `ser` from `k` on, `pend` being the gap owed
/// by the last series that showed something. Series that show nothing are
/// left out with their gap, and no gap follows the last series shown.
pub open spec fn pieces_from<L>(bs: Seq<ComputedBlock<L>>, ser: Seq<(int, int)>, sw: Seq<bool>, k: int, pend: Option<Piece>) -> Seq<Piece>
    decreases ser.len() - k,
{
    if 0 <= k < ser.len() {
        let ps = series_pieces(bs, ser[k].0, ser[k].1, sw[k]);
        if ps.len() == 0 {
            pieces_from(bs, ser, sw, k + 1, pend)
        } else {
            let pre = match pend {
                Some(g) => seq![g],
                None => Seq::empty(),
            };
            let last = bs[ser[k].1 - 1].block;
            let np = if last.separator_block_width > 0 {
                Some(Piece::Gap { width: last.separator_block_width, tick: last.separator })
            } else {
                None
            };
            pre + ps + pieces_from(bs, ser, sw, k + 1, np)
        }
    } else {
        Seq::empty()
    }
}

/// The width of a piece.
pub open spec fn piece_width<L>(bs: Seq<ComputedBlock<L>>, p: Piece) -> int {
    match p {
        Piece::Text { index, short, .. } => sel_width(bs[index as int], short),
        Piece::Gap { width, .. } => width as int,
    }
}

/// The width of the first `j` pieces.
pub open spec fn width_prefix<L>(bs: Seq<ComputedBlock<L>>, ps: Seq<Piece>, j: int) -> int
    decreases j,
{
    if 0 < j <= ps.len() {
        width_prefix(bs, ps, j - 1) + piece_width(bs, ps[j - 1])
    } else {
        0
    }
}

/// `placed` puts the pieces `ps` side by side, in order, so that the last
/// one ends at `right`.
pub open spec fn placed_at<L>(bs: Seq<ComputedBlock<L>>, ps: Seq<Piece>, right: int, placed: Seq<Placed>) -> bool {
    &&& placed.len() == ps.len()
    &&& forall|j: int|
        0 <= j < ps.len() ==> {
            &&& (#[trigger] placed[j]).piece == ps[j]
            &&& placed[j].width == piece_width(bs, ps[j])
            &&& placed[j].x == right - width_prefix(bs, ps, ps.len() as int) + width_prefix(bs, ps, j)
        }
}

/// The payload of a block's hit region: its name and instance.
pub type BlockKey = (Option<String>, Option<String>);

/// The hit regions of the placed text pieces, in order, each keyed by the
/// name and instance of its block.
pub open spec fn regions_of<L>(bs: Seq<ComputedBlock<L>>, placed: Seq<Placed>) -> Seq<(i128, i128, BlockKey)>
    decreases placed.len(),
{
    if placed.len() == 0 {
        Seq::empty()
    } else {
        let r = regions_of(bs, placed.drop_last());
        let p = placed.last();
        match p.piece {
            Piece::Text { index, .. } => r.push(
                (p.x, p.width as i128, (bs[index as int].block.name, bs[index as int].block.instance)),
            ),
            Piece::Gap { .. } => r,
        }
    }
}

fn clone_opt(o: &Option<String>) -> (r: Option<String>)
    ensures
        r == *o,
{
    match o {
        Some(s) => Some(s.clone()),
        None => None,
    }
}

/// Every series lies inside `0..n` and is not empty.
pub open spec fn series_valid(n: int, ser: Seq<(int, int)>) -> bool {
    forall|k: int| 0 <= k < ser.len() ==> 0 <= (#[trigger] ser[k]).0 < ser[k].1 <= n
}

proof fn lemma_series_from_valid<L>(bs: Seq<ComputedBlock<L>>, s: int)
    requires
        0 <= s,
    ensures
        forall|k: int|
            0 <= k < series_from(bs, s).len() ==> s <= (#[trigger] series_from(bs, s)[k]).0 < series_from(bs, s)[k].1 <= bs.len(),
    decreases bs.len() - s,
{
    if 0 <= s < bs.len() {
        let e = series_end(bs, s, s + 1);
        if s < e <= bs.len() {
            lemma_series_from_valid(bs, e);
            let r = series_from(bs, e);
            assert forall|k: int| 0 <= k < series_from(bs, s).len() implies s <= (#[trigger] series_from(bs, s)[k]).0
                < series_from(bs, s)[k].1 <= bs.len() by {
                if k > 0 {
                    assert(series_from(bs, s)[k] == r[k - 1]);
                }
            }
        }
    }
}

proof fn lemma_kept_idx<L>(bs: Seq<ComputedBlock<L>>, s: int, e: int, short: bool)
    ensures
        forall|j: int|
            0 <= j < kept_idx(bs, s, e, short).len() ==> s <= #[trigger] kept_idx(bs, s, e, short)[j] < e
                && sel_width(bs[kept_idx(bs, s, e, short)[j]], short) > 0,
    decreases e - s,
{
    if s < e {
        lemma_kept_idx(bs, s, e - 1, short);
        let r = kept_idx(bs, s, e - 1, short);
        let ks = kept_idx(bs, s, e, short);
        assert forall|j: int| 0 <= j < ks.len() implies s <= #[trigger] ks[j] < e && sel_width(bs[ks[j]], short) > 0 by {
            if j < r.len() {
                assert(ks[j] == r[j]);
            }
        }
    }
}

/// Every text piece is a block of `bs` that is not empty with its chosen
/// text.
pub open spec fn texts_shown<L>(bs: Seq<ComputedBlock<L>>, ps: Seq<Piece>) -> bool {
    forall|j: int|
        0 <= j < ps.len() ==> (#[trigger] ps[j] matches Piece::Text { index, short, .. } ==> index < bs.len()
            && sel_width(bs[index as int], short) > 0)
}

proof fn lemma_pieces_from<L>(bs: Seq<ComputedBlock<L>>, ser: Seq<(int, int)>, sw: Seq<bool>, k: int, pend: Option<Piece>)
    requires
        series_valid(bs.len() as int, ser),
        bs.len() <= usize::MAX,
        pend matches Some(g) ==> g is Gap,
    ensures
        texts_shown(bs, pieces_from(bs, ser, sw, k, pend)),
    decreases ser.len() - k,
{
    if 0 <= k < ser.len() {
        let ps = series_pieces(bs, ser[k].0, ser[k].1, sw[k]);
        lemma_kept_idx(bs, ser[k].0, ser[k].1, sw[k]);
        if ps.len() == 0 {
            lemma_pieces_from(bs, ser, sw, k + 1, pend);
        } else {
            let last = bs[ser[k].1 - 1].block;
            let np = if last.separator_block_width > 0 {
                Some(Piece::Gap { width: last.separator_block_width, tick: last.separator })
            } else {
                None
            };
            lemma_pieces_from(bs, ser, sw, k + 1, np);
            let pre = match pend {
                Some(g) => seq![g],
                None => Seq::empty(),
            };
            let all = pieces_from(bs, ser, sw, k, pend);
            let rest = pieces_from(bs, ser, sw, k + 1, np);
            assert(all == pre + ps + rest);
            assert forall|j: int| 0 <= j < all.len() implies (#[trigger] all[j] matches Piece::Text { index, short, .. }
                ==> index < bs.len() && sel_width(bs[index as int], short) > 0) by {
                if j < pre.len() {
                } else if j < pre.len() + ps.len() {
                    assert(all[j] == ps[j - pre.len()]);
                } else {
                    assert(all[j] == rest[j - pre.len() - ps.len()]);
                }
            }
        }
    }
}

fn sel_w<L>(c: &ComputedBlock<L>, short: bool) -> (r: u32)
    ensures
        r == sel_width(*c, short),
{
    if short {
        match &c.short {
            Some(s) => s.width,
            None => c.full.width,
        }
    } else {
        c.full.width
    }
}

fn kept_of<L>(bs: &[ComputedBlock<L>], s: usize, e: usize, short: bool) -> (r: Vec<usize>)
    requires
        s <= e <= bs@.len(),
    ensures
        idx_view(r@) == kept_idx(bs@, s as int, e as int, short),
{
    let mut r: Vec<usize> = Vec::new();
    let mut i: usize = s;
    while i < e
        invariant
            s <= i <= e <= bs@.len(),
            idx_view(r@) == kept_idx(bs@, s as int, i as int, short),
        decreases e - i,
    {
        let ghost old_r = r@;
        if sel_w(&bs[i], short) > 0 {
            r.push(i);
            assert(idx_view(r@) =~= idx_view(old_r).push(i as int));
        }
        i = i + 1;
    }
    r
}

fn plan_pieces<L>(bs: &[ComputedBlock<L>], ser: &Vec<(usize, usize)>, sw: &Vec<bool>) -> (r: Vec<Piece>)
    requires
        series_valid(bs@.len() as int, ser_view(ser@)),
        sw@.len() == ser@.len(),
    ensures
        r@ == pieces_from(bs@, ser_view(ser@), sw@, 0, None),
{
    let ghost sv = ser_view(ser@);
    let mut out: Vec<Piece> = Vec::new();
    let mut pend: Option<Piece> = None;
    let mut k: usize = 0;
    while k < ser.len()
        invariant
            0 <= k <= ser@.len(),
            sv == ser_view(ser@),
            sw@.len() == ser@.len(),
            series_valid(bs@.len() as int, sv),
            pieces_from(bs@, sv, sw@, 0, None) == out@ + pieces_from(bs@, sv, sw@, k as int, pend),
        decreases ser@.len() - k,
    {
        let (s, e) = ser[k];
        assert(sv[k as int] == (s as int, e as int));
        let short = sw[k];
        let kept = kept_of(bs, s, e, short);
        let ghost ps = series_pieces(bs@, s as int, e as int, short);
        if kept.len() > 0 {
            let ghost base = out@;
            let ghost pre = match pend {
                Some(g) => seq![g],
                None => Seq::<Piece>::empty(),
            };
            match pend {
                Some(g) => out.push(g),
                None => {},
            }
            assert(out@ =~= base + pre);
            let m = kept.len();
            let mut j: usize = 0;
            while j < m
                invariant
                    0 <= j <= m,
                    m == kept@.len(),
                    idx_view(kept@) == kept_idx(bs@, s as int, e as int, short),
                    ps == series_pieces(bs@, s as int, e as int, short),
                    out@ =~= base + pre + ps.take(j as int),
                decreases m - j,
            {
                let p = Piece::Text { index: kept[j], short, round_left: j == 0, round_right: j == m - 1 };
                assert(ps[j as int] == p);
                out.push(p);
                assert(ps.take(j as int + 1) =~= ps.take(j as int).push(p));
                j = j + 1;
            }
            assert(ps.take(m as int) =~= ps);
            let last = &bs[e - 1].block;
            pend = if last.separator_block_width > 0 {
                Some(Piece::Gap { width: last.separator_block_width, tick: last.separator })
            } else {
                None
            };
        }
        k = k + 1;
    }
    assert(out@ + pieces_from(bs@, sv, sw@, k as int, pend) =~= out@);
    out
}

fn piece_w<L>(bs: &[ComputedBlock<L>], p: Piece) -> (r: u32)
    requires
        p matches Piece::Text { index, .. } ==> index < bs@.len(),
    ensures
        r == piece_width(bs@, p),
{
    match p {
        Piece::Text { index, short, .. } => sel_w(&bs[index], short),
        Piece::Gap { width, .. } => width as u32,
    }
}

/// Places the pieces side by side so that the last one ends at `right`,
/// and registers a hit region for each text piece.
fn place<L>(bs: &[ComputedBlock<L>], ps: &Vec<Piece>, right: i64, buttons: &mut ButtonManager<BlockKey>) -> (r: Vec<Placed>)
    requires
        texts_shown(bs@, ps@),
    ensures
        placed_at(bs@, ps@, right as int, r@),
        final(buttons)@ == regions_of(bs@, r@),
{
    let n = ps.len();
    let mut total: i128 = 0;
    let mut j: usize = 0;
    while j < n
        invariant
            0 <= j <= n,
            n == ps@.len(),
            texts_shown(bs@, ps@),
            total == width_prefix(bs@, ps@, j as int),
            0 <= total <= j * 0x1_0000_0000,
        decreases n - j,
    {
        assert(ps@[j as int] matches Piece::Text { index, .. } ==> index < bs@.len());
        total = total + piece_w(bs, ps[j]) as i128;
        j = j + 1;
    }
    buttons.clear();
    let mut out: Vec<Placed> = Vec::new();
    let mut x: i128 = right as i128 - total;
    let mut j: usize = 0;
    while j < n
        invariant
            0 <= j <= n,
            n == ps@.len(),
            texts_shown(bs@, ps@),
            total == width_prefix(bs@, ps@, n as int),
            0 <= total <= n * 0x1_0000_0000,
            x == right - total + width_prefix(bs@, ps@, j as int),
            0 <= width_prefix(bs@, ps@, j as int) <= j * 0x1_0000_0000,
            out@.len() == j,
            forall|i: int|
                0 <= i < j ==> {
                    &&& (#[trigger] out@[i]).piece == ps@[i]
                    &&& out@[i].width == piece_width(bs@, ps@[i])
                    &&& out@[i].x == right - total + width_prefix(bs@, ps@, i)
                },
            buttons@ == regions_of(bs@, out@),
        decreases n - j,
    {
        let p = ps[j];
        assert(ps@[j as int] matches Piece::Text { index, .. } ==> index < bs@.len());
        let w = piece_w(bs, p);
        let placed = Placed { piece: p, x, width: w };
        let ghost old_out = out@;
        out.push(placed);
        assert(out@.drop_last() =~= old_out);
        match p {
            Piece::Text { index, .. } => {
                let key = (clone_opt(&bs[index].block.name), clone_opt(&bs[index].block.instance));
                buttons.push(x, w as i128, key);
            },
            Piece::Gap { .. } => {},
        }
        x = x + w as i128;
        j = j + 1;
    }
    out
}

/// The outcome of a layout: the series, the order in which series were
/// switched to their short texts, the flag of each series, and the pieces
/// in place.
pub struct Layout {
    pub series: Vec<(usize, usize)>,
    pub order: Vec<usize>,
    pub short: Vec<bool>,
    pub placed: Vec<Placed>,
}

/// `l` lays out `bs` right of `offset_left` in a bar `full_width` wide:
/// grouped into series, with the greedy choice of series to shorten when
/// the full texts do not fit, and every piece shown placed against the
/// right edge.
pub open spec fn layout_of<L>(bs: Seq<ComputedBlock<L>>, offset_left: int, full_width: int, l: Layout) -> bool {
    let ser = series_from(bs, 0);
    &&& ser_view(l.series@) == ser
    &&& greedy_choice(series_savings(bs, ser), offset_left + blocks_width_from(bs, 0) - full_width, idx_view(l.order@))
    &&& l.short@.len() == ser.len()
    &&& forall|k: int| 0 <= k < ser.len() ==> #[trigger] l.short@[k] == idx_view(l.order@).contains(k)
    &&& placed_at(bs, pieces_from(bs, ser, l.short@, 0, None), full_width, l.placed@)
}

fn contains_idx(v: &Vec<usize>, k: usize) -> (r: bool)
    ensures
        r == idx_view(v@).contains(k as int),
{
    let mut i: usize = 0;
    while i < v.len()
        invariant
            0 <= i <= v@.len(),
            forall|t: int| 0 <= t < i ==> #[trigger] v@[t] != k,
        decreases v@.len() - i,
    {
        if v[i] == k {
            assert(idx_view(v@)[i as int] == k as int);
            return true;
        }
        i = i + 1;
    }
    assert(!idx_view(v@).contains(k as int)) by {
        if idx_view(v@).contains(k as int) {
            let w = choose|w: int| 0 <= w < idx_view(v@).len() && idx_view(v@)[w] == k as int;
            assert(v@[w] == k);
        }
    }
    false
}

/// Every gap stands between two texts: a series whose blocks are all empty
/// adds no gap, and no gap follows the last series shown.
pub open spec fn gaps_between(ps: Seq<Piece>) -> bool {
    forall|j: int|
        0 <= j < ps.len() && (#[trigger] ps[j]) is Gap ==> 0 < j && j + 1 < ps.len() && ps[j - 1] is Text && ps[j
            + 1] is Text
}

proof fn lemma_gaps<L>(bs: Seq<ComputedBlock<L>>, ser: Seq<(int, int)>, sw: Seq<bool>, k: int, pend: Option<Piece>)
    requires
        pend matches Some(g) ==> g is Gap,
    ensures
        ({
            let r = pieces_from(bs, ser, sw, k, pend);
            forall|j: int|
                0 <= j < r.len() && (#[trigger] r[j]) is Gap ==> j + 1 < r.len() && r[j + 1] is Text && (j > 0 ==> r[j
                    - 1] is Text) && (j == 0 ==> pend is Some)
        }),
    decreases ser.len() - k,
{
    if 0 <= k < ser.len() {
        let ps = series_pieces(bs, ser[k].0, ser[k].1, sw[k]);
        if ps.len() == 0 {
            lemma_gaps(bs, ser, sw, k + 1, pend);
        } else {
            let last = bs[ser[k].1 - 1].block;
            let np = if last.separator_block_width > 0 {
                Some(Piece::Gap { width: last.separator_block_width, tick: last.separator })
            } else {
                None
            };
            lemma_gaps(bs, ser, sw, k + 1, np);
            let pre = match pend {
                Some(g) => seq![g],
                None => Seq::empty(),
            };
            let r = pieces_from(bs, ser, sw, k, pend);
            let rest = pieces_from(bs, ser, sw, k + 1, np);
            assert(r == pre + ps + rest);
            let m = pre.len() + ps.len();
            assert forall|j: int|
                0 <= j < r.len() && (#[trigger] r[j]) is Gap implies j + 1 < r.len() && r[j + 1] is Text && (j > 0
                ==> r[j - 1] is Text) && (j == 0 ==> pend is Some) by {
                if j < pre.len() {
                    assert(r[j + 1] == ps[0]);
                } else if j < m {
                    assert(r[j] == ps[j - pre.len()]);
                } else {
                    assert(r[j] == rest[j - m]);
                    if j + 1 < r.len() {
                        assert(r[j + 1] == rest[j - m + 1]);
                    }
                    if j > m {
                        assert(r[j - 1] == rest[j - m - 1]);
                    } else {
                        assert(r[j - 1] == ps[ps.len() - 1]);
                    }
                }
            }
        }
    }
}

/// The greedy abbreviation, in the terms of the layout: series are switched
/// to their short texts by non-increasing saving, only series that save
/// something; before each switch the blocks still overflow; and switching
/// stops once they fit, or when every series that saves something is short.
pub proof fn lemma_abbreviation_stops_at_first_fit<L>(bs: Seq<ComputedBlock<L>>, offset_left: int, full_width: int, l: Layout)
    requires
        layout_of(bs, offset_left, full_width, l),
    ensures
        ({
            let ser = series_from(bs, 0);
            let d = series_savings(bs, ser);
            let order = idx_view(l.order@);
            let w = blocks_width_from(bs, 0);
            &&& forall|k: int| 0 <= k < order.len() ==> d[#[trigger] order[k]] > 0 && l.short@[order[k]]
            &&& forall|k: int, m: int| 0 <= k < m < order.len() ==> d[#[trigger] order[k]] >= d[#[trigger] order[m]]
            &&& forall|k: int| 0 <= k < order.len() ==> offset_left + w - #[trigger] picked_sum(d, order, k) > full_width
            &&& (offset_left + w - picked_sum(d, order, order.len() as int) <= full_width || forall|j: int|
                0 <= j < ser.len() && d[j] > 0 ==> #[trigger] l.short@[j])
            &&& forall|j: int| 0 <= j < ser.len() && #[trigger] l.short@[j] ==> d[j] > 0
        }),
{
    let ser = series_from(bs, 0);
    let d = series_savings(bs, ser);
    let order = idx_view(l.order@);
    assert forall|k: int| 0 <= k < order.len() implies d[#[trigger] order[k]] > 0 && l.short@[order[k]] by {
        assert(order.contains(order[k]));
    }
    assert forall|j: int| 0 <= j < ser.len() && #[trigger] l.short@[j] implies d[j] > 0 by {
        let w = choose|w: int| 0 <= w < order.len() && order[w] == j;
        assert(0 <= #[trigger] order[w] < d.len() && d[order[w]] > 0);
    }
}

proof fn lemma_regions_wide<L>(bs: Seq<ComputedBlock<L>>, placed: Seq<Placed>)
    requires
        forall|j: int| 0 <= j < placed.len() && (#[trigger] placed[j]).piece is Text ==> placed[j].width > 0,
    ensures
        forall|i: int| 0 <= i < regions_of(bs, placed).len() ==> (#[trigger] regions_of(bs, placed)[i]).1 > 0,
    decreases placed.len(),
{
    if placed.len() > 0 {
        let p = placed.drop_last();
        assert forall|j: int| 0 <= j < p.len() && (#[trigger] p[j]).piece is Text implies p[j].width > 0 by {
            assert(p[j] == placed[j]);
        }
        lemma_regions_wide(bs, p);
        let r = regions_of(bs, p);
        let last = placed[placed.len() - 1];
        assert(placed.last() == last);
        let all = regions_of(bs, placed);
        assert forall|i: int| 0 <= i < all.len() implies (#[trigger] all[i]).1 > 0 by {
            if i < r.len() {
                assert(all[i] == r[i]);
            } else {
                assert(last.piece is Text);
            }
        }
    }
}

/// Empty blocks are not shown: every text piece shown is a block that is not
/// empty with its chosen text, so every hit region is wider than zero; and
/// every gap stands between two texts, so a series of empty blocks draws no
/// separator.
pub proof fn lemma_empty_blocks_not_shown<L>(bs: Seq<ComputedBlock<L>>, offset_left: int, full_width: int, l: Layout)
    requires
        layout_of(bs, offset_left, full_width, l),
        texts_shown(bs, l.placed@.map_values(|p: Placed| p.piece)),
    ensures
        forall|j: int|
            0 <= j < l.placed@.len() ==> ((#[trigger] l.placed@[j]).piece matches Piece::Text { index, short, .. }
                ==> sel_width(bs[index as int], short) > 0 && l.placed@[j].width > 0),
        forall|i: int| 0 <= i < regions_of(bs, l.placed@).len() ==> (#[trigger] regions_of(bs, l.placed@)[i]).1 > 0,
        gaps_between(pieces_from(bs, series_from(bs, 0), l.short@, 0, None)),
{
    let ps = l.placed@.map_values(|p: Placed| p.piece);
    let pieces = pieces_from(bs, series_from(bs, 0), l.short@, 0, None);
    assert forall|j: int|
        0 <= j < l.placed@.len() && (#[trigger] l.placed@[j]).piece is Text implies l.placed@[j].width > 0 by {
        assert(ps[j] == l.placed@[j].piece);
    }
    assert forall|j: int|
        0 <= j < l.placed@.len() implies ((#[trigger] l.placed@[j]).piece matches Piece::Text { index, short, .. }
            ==> sel_width(bs[index as int], short) > 0 && l.placed@[j].width > 0) by {
        assert(ps[j] == l.placed@[j].piece);
    }
    lemma_regions_wide(bs, l.placed@);
    lemma_gaps(bs, series_from(bs, 0), l.short@, 0, None);
}

/// Lays out `blocks` right of `offset_left` in a bar `full_width` wide,
/// and replaces the hit regions with one per text shown, keyed by the
/// block's name and instance.
pub fn render_blocks<L>(blocks: &[ComputedBlock<L>], offset_left: i64, full_width: i64, buttons: &mut ButtonManager<BlockKey>) -> (r: Layout)
    ensures
        layout_of(blocks@, offset_left as int, full_width as int, r),
        final(buttons)@ == regions_of(blocks@, r.placed@),
        texts_shown(blocks@, r.placed@.map_values(|p: Placed| p.piece)),
        gaps_between(r.placed@.map_values(|p: Placed| p.piece)),
{
    let nb = blocks.len();
    let (series, savings, width) = group_series(blocks);
    let excess: i128 = offset_left as i128 + width - full_width as i128;
    let order = choose_short(&savings, excess);
    assert(savings@.map_values(|x: i128| x as int) =~= series_savings(blocks@, series_from(blocks@, 0)));
    let mut short: Vec<bool> = Vec::new();
    let mut k: usize = 0;
    while k < series.len()
        invariant
            0 <= k <= series@.len(),
            short@.len() == k,
            forall|t: int| 0 <= t < k ==> #[trigger] short@[t] == idx_view(order@).contains(t),
        decreases series@.len() - k,
    {
        short.push(contains_idx(&order, k));
        k = k + 1;
    }
    proof {
        lemma_series_from_valid(blocks@, 0);
        lemma_pieces_from(blocks@, ser_view(series@), short@, 0, None);
    }
    let pieces = plan_pieces(blocks, &series, &short);
    let placed = place(blocks, &pieces, full_width, buttons);
    proof {
        lemma_gaps(blocks@, ser_view(series@), short@, 0, None);
        assert(placed@.map_values(|p: Placed| p.piece) =~= pieces@);
    }
    Layout { series, order, short, placed }
}

} // verus!
