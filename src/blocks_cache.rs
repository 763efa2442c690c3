//! Measured blocks, kept between snapshots of the feed so that unchanged
//! texts are not shaped again.

use vstd::prelude::*;
use crate::block::{blocks_view, key_is, opt_view, Align, Block, BlockView, MinWidth, MinWidthView};

verus! {

/// Text shaping, as the renderer provides it.
pub trait TextMeasurer {
    /// The shaped text, kept for painting.
    type Layout;

    /// Shapes `text` (as markup when `markup` holds); returns the shaped
    /// text with its width and height in pixels.
    fn measure(&mut self, text: &str, markup: bool) -> (Self::Layout, u32, u32);
}

/// A shaped text, the text and markup flag it was shaped from, and its
/// box: `width` is the text's own width raised to the block's minimal width.
pub struct ComputedText<L> {
    pub layout: L,
    pub source: String,
    pub markup: bool,
    pub text_width: u32,
    pub width: u32,
    pub height: u32,
}

/// The box width of a text of width `text_width` with an optional minimum.
pub open spec fn box_width(text_width: u32, min_width: Option<u32>) -> u32 {
    match min_width {
        Some(m) => if text_width < m {
            m
        } else {
            text_width
        },
        None => text_width,
    }
}

impl<L> ComputedText<L> {
    /// Whether this is the shaping of `text` with `markup`, boxed with
    /// `min_width`.
    pub open spec fn shapes(&self, text: Seq<char>, markup: bool, min_width: Option<u32>) -> bool {
        &&& self.source@ == text
        &&& self.markup == markup
        &&& self.width == box_width(self.text_width, min_width)
    }

    /// The left padding that places the text in its box with the given
    /// alignment, in half pixels.
    pub fn padding_left_halves(&self, align: Align) -> (r: u64)
        requires
            self.width >= self.text_width,
        ensures
            r == match align {
                Align::Left => 0,
                Align::Right => 2 * (self.width - self.text_width),
                Align::Center => self.width - self.text_width,
            },
    {
        let d: u64 = if self.width >= self.text_width {
            (self.width - self.text_width) as u64
        } else {
            0
        };
        match align {
            Align::Left => 0,
            Align::Right => 2 * d,
            Align::Center => d,
        }
    }
}

/// Shapes `text` with one call of the measurer, counted in `calls`.
fn measure_text<M: TextMeasurer>(m: &mut M, text: &String, markup: bool, min_width: Option<u32>, calls: &mut Ghost<nat>) -> (r: ComputedText<M::Layout>)
    ensures
        r.shapes(text@, markup, min_width),
        final(calls)@ == old(calls)@ + 1,
{
    let (layout, text_width, height) = m.measure(text.as_str(), markup);
    *calls = Ghost(calls@ + 1);
    let width = match min_width {
        Some(w) => if text_width < w {
            w
        } else {
            text_width
        },
        None => text_width,
    };
    ComputedText { layout, source: text.clone(), markup, text_width, width, height }
}

/// Whether a block's text is Pango markup.
pub open spec fn is_pango(markup: Option<Seq<char>>) -> bool {
    markup == Some("pango"@)
}

fn block_is_pango(b: &Block) -> (r: bool)
    ensures
        r == is_pango(b@.markup),
{
    match &b.markup {
        Some(m) => key_is(m, "pango"),
        None => false,
    }
}

/// A pixel count as the layout holds it; counts past `u32::MAX` saturate.
pub open spec fn pixels(p: u64) -> u32 {
    if p > u32::MAX as u64 {
        u32::MAX
    } else {
        p as u32
    }
}

/// A block with its shaped texts and its resolved minimal width; a minimal
/// width given as a text keeps the shaping of that text in `min_text`.
pub struct ComputedBlock<L> {
    pub block: Block,
    pub full: ComputedText<L>,
    pub short: Option<ComputedText<L>>,
    pub min_text: Option<ComputedText<L>>,
    pub min_width: Option<u32>,
}

impl<L> ComputedBlock<L> {
    /// Every measurement is that of the block's own texts, under the
    /// block's markup, and the minimal width is resolved from the block's.
    pub open spec fn wf(&self) -> bool {
        let b = self.block@;
        let markup = is_pango(b.markup);
        &&& self.full.shapes(b.full_text, markup, self.min_width)
        &&& match (self.short, b.short_text) {
            (Some(s), Some(t)) => s.shapes(t, markup, self.min_width),
            (None, None) => true,
            _ => false,
        }
        &&& match b.min_width {
            Some(MinWidthView::Pixels(p)) => self.min_width == Some(pixels(p)) && self.min_text is None,
            Some(MinWidthView::Text(t)) => self.min_text matches Some(mt) && mt.shapes(t, markup, None)
                && self.min_width == Some(mt.text_width),
            None => self.min_width is None && self.min_text is None,
        }
    }
}

/// Resolves the minimal width of `b`: a pixel count, or the width of the
/// text shaped with one measurer call.
fn resolve_min_width<M: TextMeasurer>(m: &mut M, b: &Block, calls: &mut Ghost<nat>) -> (r: (Option<u32>, Option<ComputedText<M::Layout>>))
    ensures
        match b@.min_width {
            Some(MinWidthView::Pixels(p)) => r.0 == Some(pixels(p)) && r.1 is None && final(calls)@ == old(calls)@,
            Some(MinWidthView::Text(t)) => r.1 matches Some(mt) && mt.shapes(t, is_pango(b@.markup), None) && r.0
                == Some(mt.text_width) && final(calls)@ == old(calls)@ + 1,
            None => r.0 is None && r.1 is None && final(calls)@ == old(calls)@,
        },
{
    match &b.min_width {
        Some(MinWidth::Pixels(p)) => if *p > u32::MAX as u64 {
            (Some(u32::MAX), None)
        } else {
            (Some(*p as u32), None)
        },
        Some(MinWidth::Text(t)) => {
            let markup = block_is_pango(b);
            let mt = measure_text(m, t, markup, None, calls);
            (Some(mt.text_width), Some(mt))
        },
        None => (None, None),
    }
}

fn comp_short<M: TextMeasurer>(m: &mut M, b: &Block, min_width: Option<u32>, calls: &mut Ghost<nat>) -> (r: Option<ComputedText<M::Layout>>)
    ensures
        match (r, b@.short_text) {
            (Some(s), Some(t)) => s.shapes(t, is_pango(b@.markup), min_width) && final(calls)@ == old(calls)@ + 1,
            (None, None) => final(calls)@ == old(calls)@,
            _ => false,
        },
{
    match &b.short_text {
        Some(t) => {
            let markup = block_is_pango(b);
            Some(measure_text(m, t, markup, min_width, calls))
        },
        None => None,
    }
}

impl<L> ComputedBlock<L> {
    pub(crate) fn new<M: TextMeasurer<Layout = L>>(m: &mut M, block: Block, calls: &mut Ghost<nat>) -> (r: Self)
        ensures
            r.wf(),
            r.block@ == block@,
    {
        let (min_width, min_text) = resolve_min_width(m, &block, calls);
        let markup = block_is_pango(&block);
        let full = measure_text(m, &block.full_text, markup, min_width, calls);
        let short = comp_short(m, &block, min_width, calls);
        ComputedBlock { block, full, short, min_text, min_width }
    }
}

pub(crate) fn opt_string_eq(a: &Option<String>, b: &Option<String>) -> (r: bool)
    ensures
        r == (opt_view(*a) == opt_view(*b)),
{
    match (a, b) {
        (Some(x), Some(y)) => *x == *y,
        (None, None) => true,
        _ => false,
    }
}

fn min_width_eq(a: &Option<MinWidth>, b: &Option<MinWidth>) -> (r: bool)
    ensures
        r == (opt_view(*a) == opt_view(*b)),
{
    match (a, b) {
        (Some(MinWidth::Text(x)), Some(MinWidth::Text(y))) => *x == *y,
        (Some(MinWidth::Pixels(x)), Some(MinWidth::Pixels(y))) => *x == *y,
        (None, None) => true,
        _ => false,
    }
}

/// Whether the cached entry for `old` can be refreshed in place for `new`:
/// the minimal width and the markup kind are the same.
pub open spec fn refreshable(old: BlockView, new: BlockView) -> bool {
    old.min_width == new.min_width && old.markup == new.markup
}

/// What an update of the entry `c` with `block` keeps when nothing that
/// shaping reads changed: the minimal width, and each text whose source
/// text is the same.
pub open spec fn update_keeps<L>(c: ComputedBlock<L>, block: BlockView, r: ComputedBlock<L>) -> bool {
    refreshable(c.block@, block) ==> {
        &&& r.min_width == c.min_width
        &&& r.min_text == c.min_text
        &&& (c.block@.full_text == block.full_text ==> r.full == c.full)
        &&& (c.block@.short_text == block.short_text ==> r.short == c.short)
    }
}

/// Whether `block` has the texts, minimal width and markup that `old` was
/// built from.
pub open spec fn same_texts(old: BlockView, block: BlockView) -> bool {
    &&& refreshable(old, block)
    &&& old.full_text == block.full_text
    &&& old.short_text == block.short_text
}

impl<L> ComputedBlock<L> {
    /// Brings the entry up to date with `block`, shaping again only what
    /// changed: everything when the minimal width or the markup changed,
    /// else each text that changed.
    pub(crate) fn update<M: TextMeasurer<Layout = L>>(&mut self, m: &mut M, block: Block, calls: &mut Ghost<nat>)
        requires
            old(self).wf(),
        ensures
            final(self).wf(),
            final(self).block@ == block@,
            update_keeps(*old(self), block@, *final(self)),
            same_texts(old(self).block@, block@) ==> final(calls)@ == old(calls)@,
    {
        if !min_width_eq(&block.min_width, &self.block.min_width) || !opt_string_eq(&block.markup, &self.block.markup) {
            *self = ComputedBlock::new(m, block, calls);
        } else {
            let markup = block_is_pango(&block);
            if !(block.full_text == self.block.full_text) {
                self.full = measure_text(m, &block.full_text, markup, self.min_width, calls);
            }
            if !opt_string_eq(&block.short_text, &self.block.short_text) {
                self.short = comp_short(m, &block, self.min_width, calls);
            }
            self.block = block;
        }
    }
}

/// What replacing the snapshot of the cache `old` with `blocks` gives:
/// one entry per block, in order; entries refreshed in place, as
/// `update_keeps` says, when the count of blocks did not change.
pub open spec fn cache_updated<L>(old: Seq<ComputedBlock<L>>, blocks: Seq<BlockView>, new: Seq<ComputedBlock<L>>) -> bool {
    &&& new.len() == blocks.len()
    &&& forall|i: int| 0 <= i < blocks.len() ==> (#[trigger] new[i]).block@ == blocks[i]
    &&& old.len() == blocks.len() ==> forall|i: int|
        0 <= i < blocks.len() ==> update_keeps(#[trigger] old[i], blocks[i], new[i])
}

/// Whether `blocks` has, position by position, the texts, minimal widths
/// and markup that the cache `c` was built from.
pub open spec fn same_shape<L>(c: Seq<ComputedBlock<L>>, blocks: Seq<BlockView>) -> bool {
    &&& c.len() == blocks.len()
    &&& forall|i: int| 0 <= i < blocks.len() ==> same_texts((#[trigger] c[i]).block@, blocks[i])
}

/// Updating a cache with a snapshot of the same shape keeps every measured
/// text and every resolved minimal width.
pub proof fn lemma_same_shape_keeps_measurements<L>(
    old: Seq<ComputedBlock<L>>,
    blocks: Seq<BlockView>,
    new: Seq<ComputedBlock<L>>,
)
    requires
        same_shape(old, blocks),
        cache_updated(old, blocks, new),
    ensures
        forall|i: int|
            0 <= i < blocks.len() ==> {
                &&& (#[trigger] new[i]).full == old[i].full
                &&& new[i].short == old[i].short
                &&& new[i].min_width == old[i].min_width
            },
{
    assert forall|i: int| 0 <= i < blocks.len() implies {
        &&& (#[trigger] new[i]).full == old[i].full
        &&& new[i].short == old[i].short
        &&& new[i].min_width == old[i].min_width
    } by {
        assert(same_texts(old[i].block@, blocks[i]));
        assert(update_keeps(old[i], blocks[i], new[i]));
    }
}

/// The measured blocks of the latest snapshot, by position.
pub struct BlocksCache<L> {
    computed: Vec<ComputedBlock<L>>,
    calls: Ghost<nat>,
}

impl<L> View for BlocksCache<L> {
    type V = Seq<ComputedBlock<L>>;

    closed spec fn view(&self) -> Seq<ComputedBlock<L>> {
        self.computed@
    }
}

impl<L> BlocksCache<L> {
    pub open spec fn wf(&self) -> bool {
        forall|i: int| 0 <= i < self@.len() ==> (#[trigger] self@[i]).wf()
    }

    /// How many times this cache has called a measurer.
    pub closed spec fn measure_calls(&self) -> nat {
        self.calls@
    }

    pub fn new() -> (r: Self)
        ensures
            r@ == Seq::<ComputedBlock<L>>::empty(),
            r.wf(),
            r.measure_calls() == 0,
    {
        BlocksCache { computed: Vec::new(), calls: Ghost(0) }
    }

    /// Replaces the snapshot. When the count of blocks is the same, each
    /// entry is refreshed in place; otherwise every entry is built anew.
    /// A snapshot of the same shape as the cached one is not measured at all.
    pub fn process_new_blocks<M: TextMeasurer<Layout = L>>(&mut self, m: &mut M, blocks: Vec<Block>)
        requires
            old(self).wf(),
        ensures
            final(self).wf(),
            cache_updated(old(self)@, blocks_view(blocks), final(self)@),
            same_shape(old(self)@, blocks_view(blocks)) ==> final(self).measure_calls() == old(self).measure_calls(),
    {
        let n = blocks.len();
        let ghost old_c = self@;
        let mut blocks = blocks;
        let ghost bs = blocks@;
        let mut out: Vec<ComputedBlock<L>> = Vec::new();
        let rebuild = n != self.computed.len();
        let ghost calls0 = self.calls@;
        let ghost same = same_shape(old_c, blocks_view(blocks));
        let mut i: usize = 0;
        while i < n
            invariant
                0 <= i <= n,
                n == bs.len(),
                blocks@ == bs.skip(i as int),
                out@.len() == i,
                rebuild == (old_c.len() != n),
                !rebuild ==> self.computed@ == old_c.skip(i as int),
                forall|j: int| 0 <= j < old_c.len() ==> (#[trigger] old_c[j]).wf(),
                same == same_shape(old_c, bs.map_values(|b: Block| b@)),
                same ==> self.calls@ == calls0,
                forall|j: int|
                    0 <= j < i ==> (#[trigger] out@[j]).wf() && out@[j].block@ == bs[j]@ && (!rebuild
                        ==> update_keeps(old_c[j], bs[j]@, out@[j])),
            decreases n - i,
        {
            let b = blocks.remove(0);
            assert(blocks@ =~= bs.skip(i as int + 1));
            if rebuild {
                out.push(ComputedBlock::new(m, b, &mut self.calls));
            } else {
                assert(self.computed@[0] == old_c[i as int]);
                let mut c = self.computed.remove(0);
                assert(self.computed@ =~= old_c.skip(i as int + 1));
                assert(same ==> same_texts(old_c[i as int].block@, bs[i as int]@)) by {
                    if same {
                        assert(bs.map_values(|b: Block| b@)[i as int] == bs[i as int]@);
                    }
                }
                c.update(m, b, &mut self.calls);
                out.push(c);
            }
            i = i + 1;
        }
        self.computed = out;
    }

    pub fn get_computed(&self) -> (r: &[ComputedBlock<L>])
        ensures
            r@ == self@,
    {
        self.computed.as_slice()
    }
}

} // verus!
