//! Horizontal hit regions used to route clicks back to what was drawn.

use vstd::prelude::*;

verus! {

/// Whether the closed interval `[offset, offset + width]` holds `x`.
pub open spec fn region_hit(offset: int, width: int, x: int) -> bool {
    offset <= x && x <= offset + width
}

/// Whether `offset + width >= x`, without overflowing.
fn end_at_least(offset: i128, width: i128, x: i128) -> (r: bool)
    ensures
        r == (offset + width >= x),
{
    match offset.checked_add(width) {
        Some(end) => end >= x,
        None => width > 0,
    }
}

/// An ordered list of `(offset, width, payload)` regions, in the order they
/// were pushed. Coordinates are integers in whatever unit the caller uses.
pub struct ButtonManager<T> {
    regions: Vec<(i128, i128, T)>,
}

impl<T> View for ButtonManager<T> {
    type V = Seq<(i128, i128, T)>;

    closed spec fn view(&self) -> Seq<(i128, i128, T)> {
        self.regions@
    }
}

impl<T> ButtonManager<T> {
    pub fn new() -> (r: Self)
        ensures
            r@ == Seq::<(i128, i128, T)>::empty(),
    {
        ButtonManager { regions: Vec::new() }
    }

    pub fn push(&mut self, x_offset: i128, width: i128, elem: T)
        ensures
            final(self)@ == old(self)@.push((x_offset, width, elem)),
    {
        self.regions.push((x_offset, width, elem));
    }

    pub fn clear(&mut self)
        ensures
            final(self)@ == Seq::<(i128, i128, T)>::empty(),
    {
        self.regions.clear();
    }

    pub fn len(&self) -> (r: usize)
        ensures
            r == self@.len(),
    {
        self.regions.len()
    }

    /// The payload of the first region, in push order, that holds `x`.
    pub fn click(&self, x: i128) -> (r: Option<&T>)
        ensures
            r is None <==> forall|i: int|
                0 <= i < self@.len() ==> !region_hit(#[trigger] self@[i].0 as int, self@[i].1 as int, x as int),
            r matches Some(p) ==> exists|i: int|
                0 <= i < self@.len() && region_hit(self@[i].0 as int, self@[i].1 as int, x as int)
                    && *p == self@[i].2 && forall|j: int|
                    0 <= j < i ==> !region_hit(#[trigger] self@[j].0 as int, self@[j].1 as int, x as int),
    {
        let mut i: usize = 0;
        while i < self.regions.len()
            invariant
                0 <= i <= self@.len(),
                self@ == self.regions@,
                forall|j: int| 0 <= j < i ==> !region_hit(#[trigger] self@[j].0 as int, self@[j].1 as int, x as int),
            decreases self@.len() - i,
        {
            let r = &self.regions[i];
            if x >= r.0 && end_at_least(r.0, r.1, x) {
                return Some(&r.2);
            }
            i = i + 1;
        }
        None
    }

    /// Whether some region starts at or left of `x` and some region ends at
    /// or right of `x`.
    pub fn is_between(&self, x: i128) -> (r: bool)
        ensures
            r == ((exists|i: int| 0 <= i < self@.len() && #[trigger] self@[i].0 <= x) && (exists|i: int|
                0 <= i < self@.len() && #[trigger] self@[i].0 as int + self@[i].1 as int >= x as int)),
    {
        let mut left = false;
        let mut right = false;
        let mut i: usize = 0;
        while i < self.regions.len()
            invariant
                0 <= i <= self@.len(),
                self@ == self.regions@,
                left == exists|j: int| 0 <= j < i && #[trigger] self@[j].0 <= x,
                right == exists|j: int| 0 <= j < i && #[trigger] self@[j].0 as int + self@[j].1 as int >= x as int,
            decreases self@.len() - i,
        {
            let r = &self.regions[i];
            left = left || r.0 <= x;
            right = right || end_at_least(r.0, r.1, x);
            i = i + 1;
        }
        left && right
    }
}

} // verus!
