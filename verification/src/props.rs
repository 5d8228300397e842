//! Per-vertex and per-edge property storage: a flat map from the item's own
//! integer index to a value, filled with a default on creation, owned by the
//! caller and never by the graph.

use vstd::prelude::*;

verus! {

/// Per-vertex traversal state: undiscovered, on the frontier, finished.
#[derive(Clone, Copy, PartialEq, Eq, Structural, Debug)]
pub enum Color {
    /// Not discovered yet.
    White,
    /// Discovered, with unexplored incident edges.
    Gray,
    /// Finished: every incident edge explored.
    Black,
}

/// Colors only ever move forward: white to gray to black.
pub open spec fn color_le(a: Color, b: Color) -> bool {
    match a {
        Color::White => true,
        Color::Gray => !(b is White),
        Color::Black => b is Black,
    }
}

/// A property map: one value of type `T` for every item index below its
/// length.  Addressed by the vertex or edge index, not by name.
pub struct PropMap<T> {
    /// The backing store, one slot per item.
    pub data: Vec<T>,
}

impl<T> View for PropMap<T> {
    type V = Seq<T>;

    open spec fn view(&self) -> Seq<T> {
        self.data@
    }
}

impl<T: Copy> PropMap<T> {
    /// A map over `len` items, every slot holding `value`.
    pub fn with_default(len: usize, value: T) -> (m: Self)
        ensures
            m@.len() == len,
            forall|i: int| 0 <= i < len ==> m@[i] == value,
    {
        let mut data: Vec<T> = Vec::new();
        let mut k: usize = 0;
        while k < len
            invariant
                k <= len,
                data@.len() == k,
                forall|i: int| 0 <= i < k ==> data@[i] == value,
            decreases len - k,
        {
            data.push(value);
            k = k + 1;
        }
        PropMap { data }
    }

    /// How many items the map covers.
    pub fn len(&self) -> (r: usize)
        ensures
            r == self@.len(),
    {
        self.data.len()
    }

    /// The value stored for item `i`.
    pub fn get(&self, i: usize) -> (r: T)
        requires
            i < self@.len(),
        ensures
            r == self@[i as int],
    {
        self.data[i]
    }

    /// Store `value` for item `i`.
    pub fn set(&mut self, i: usize, value: T)
        requires
            i < old(self)@.len(),
        ensures
            final(self)@ == old(self)@.update(i as int, value),
    {
        self.data.set(i, value);
    }

    /// Overwrite every slot with `value`.
    pub fn fill(&mut self, value: T)
        ensures
            final(self)@.len() == old(self)@.len(),
            forall|i: int| 0 <= i < final(self)@.len() ==> final(self)@[i] == value,
    {
        let len = self.data.len();
        let mut k: usize = 0;
        while k < len
            invariant
                k <= len,
                self@.len() == len,
                forall|i: int| 0 <= i < k ==> self@[i] == value,
            decreases len - k,
        {
            self.data.set(k, value);
            k = k + 1;
        }
    }
}

/// How many slots of `s` hold `White`: the measure that shrinks as a
/// traversal discovers vertices.
pub open spec fn white_count(s: Seq<Color>) -> int
    decreases s.len(),
{
    if s.len() == 0 {
        0
    } else {
        white_count(s.drop_last()) + if s.last() is White {
            1int
        } else {
            0int
        }
    }
}

/// The white count never exceeds the length and never goes negative.
pub proof fn lemma_white_count_bounds(s: Seq<Color>)
    ensures
        0 <= white_count(s) <= s.len(),
    decreases s.len(),
{
    if s.len() > 0 {
        lemma_white_count_bounds(s.drop_last());
    }
}

/// Updating one slot changes the white count by the difference the slot
/// itself contributes.
pub proof fn lemma_white_count_update(s: Seq<Color>, i: int, c: Color)
    requires
        0 <= i < s.len(),
    ensures
        white_count(s.update(i, c)) == white_count(s) - (if s[i] is White {
            1int
        } else {
            0int
        }) + (if c is White {
            1int
        } else {
            0int
        }),
    decreases s.len(),
{
    let t = s.update(i, c);
    if i == s.len() - 1 {
        assert(t.drop_last() =~= s.drop_last());
    } else {
        assert(t.drop_last() =~= s.drop_last().update(i, c));
        lemma_white_count_update(s.drop_last(), i, c);
    }
}

} // verus!
