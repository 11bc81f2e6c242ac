//! The search frontier: a priority queue of cells that hands out the entry of
//! least priority first.
use vstd::prelude::*;

verus! {

/// A cell waiting in the frontier, with the priority it was queued under.
#[derive(Clone, Copy, Debug, PartialEq, Eq)]
pub struct FrontierItem {
    pub position: u32,
    pub cost: u128,
}

/// `a` leaves the frontier no later than `b`: it has a lower priority, or the
/// same priority and a position at least as high.
pub open spec fn leaves_before(a: FrontierItem, b: FrontierItem) -> bool {
    a.cost < b.cost || (a.cost == b.cost && a.position >= b.position)
}

/// `e` is an entry of `s` that leaves before all of them, and `t` is `s`
/// with that entry taken out.
pub open spec fn first_out(s: Seq<FrontierItem>, e: FrontierItem, t: Seq<FrontierItem>) -> bool {
    &&& exists|k: int| 0 <= k < s.len() && #[trigger] s[k] == e && t == s.remove(k)
    &&& forall|j: int| 0 <= j < s.len() ==> leaves_before(e, #[trigger] s[j])
}

impl FrontierItem {
    /// Whether `self` leaves the frontier no later than `other`.
    pub fn comes_before(&self, other: &FrontierItem) -> (r: bool)
        ensures
            r == leaves_before(*self, *other),
    {
        self.cost < other.cost || (self.cost == other.cost && self.position >= other.position)
    }
}

/// The entries waiting in a search, in no particular order.
pub struct Frontier {
    items: Vec<FrontierItem>,
}

impl View for Frontier {
    type V = Seq<FrontierItem>;

    closed spec fn view(&self) -> Seq<FrontierItem> {
        self.items@
    }
}

impl Frontier {
    /// An empty frontier.
    pub fn new() -> (r: Frontier)
        ensures
            r@ == Seq::<FrontierItem>::empty(),
    {
        Frontier { items: Vec::new() }
    }

    /// The number of entries waiting.
    pub fn len(&self) -> (r: usize)
        ensures
            r == self@.len(),
    {
        self.items.len()
    }

    /// Whether no entry is waiting.
    pub fn is_empty(&self) -> (r: bool)
        ensures
            r == (self@.len() == 0),
    {
        self.items.len() == 0
    }

    /// Adds an entry.
    pub fn push(&mut self, item: FrontierItem)
        ensures
            final(self)@ == old(self)@.push(item),
    {
        self.items.push(item);
    }

    /// Takes out the entry that leaves first: the least priority, and among
    /// equal priorities the highest position.
    pub fn pop(&mut self) -> (r: Option<FrontierItem>)
        ensures
            old(self)@.len() == 0 ==> r is None && final(self)@ == old(self)@,
            old(self)@.len() > 0 ==> r is Some && first_out(old(self)@, r->0, final(self)@),
    {
        let n = self.items.len();
        if n == 0 {
            return None;
        }
        let mut best: usize = 0;
        let mut i: usize = 1;
        while i < n
            invariant
                n == self.items@.len(),
                self.items@ == old(self)@,
                0 <= best < i <= n,
                forall|j: int| 0 <= j < i ==> leaves_before(self.items@[best as int], #[trigger] self.items@[j]),
            decreases n - i,
        {
            if self.items[i].comes_before(&self.items[best]) {
                best = i;
            }
            i = i + 1;
        }
        let e = self.items.remove(best);
        proof {
            assert(old(self)@[best as int] == e);
        }
        Some(e)
    }
}

} // verus!
