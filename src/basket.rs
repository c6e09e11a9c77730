use std::collections::VecDeque;
use vstd::prelude::*;
use crate::model::{
    Level, Rec, levels_wf, put_level, lemma_level_pos, lemma_put_wf, cut_levels, partitions, stops_at, entries,
    priced, total, lemma_cut, lemma_stop, lemma_total_next_rec, lemma_total_next_level,
};

verus! {

pub type Price = i32;

pub type Size = u32;

pub type Meta = u128;

/// Records grouped under price levels, levels in ascending price order and the
/// records of a level in the order they were put.
#[derive(Debug)]
pub struct Basket {
    inner: Vec<(Price, VecDeque<(Size, Meta)>)>,
}

impl View for Basket {
    type V = Seq<Level>;

    closed spec fn view(&self) -> Seq<Level> {
        self.inner@.map_values(|l: (Price, VecDeque<(Size, Meta)>)| (l.0, l.1@))
    }
}

impl Basket {
    pub open spec fn wf(&self) -> bool {
        levels_wf(self@)
    }

    pub fn new() -> (r: Basket)
        ensures
            r.wf(),
            r@ == Seq::<Level>::empty(),
    {
        let r = Basket { inner: Vec::new() };
        assert(r@ =~= Seq::<Level>::empty());
        r
    }

    /// Puts a record under `price`: at the end of that price's level, or in a
    /// new level at its place in ascending price order.
    pub fn put(&mut self, price: i32, size: u32, meta: u128)
        requires
            old(self).wf(),
        ensures
            final(self).wf(),
            final(self)@ == put_level(old(self)@, price, (size, meta)),
    {
        proof {
            lemma_put_wf(self@, price, (size, meta));
        }
        let mut i: usize = 0;
        while i < self.inner.len() && self.inner[i].0 < price
            invariant
                i <= self.inner@.len(),
                self.inner == old(self).inner,
                forall|k: int| 0 <= k < i ==> #[trigger] self@[k].0 < price,
            decreases self.inner@.len() - i,
        {
            i = i + 1;
        }
        proof {
            lemma_level_pos(self@, price, i as nat);
        }
        if i < self.inner.len() && self.inner[i].0 == price {
            let (p, mut q) = self.inner.remove(i);
            q.push_back((size, meta));
            self.inner.insert(i, (p, q));
            assert(self@ =~= put_level(old(self)@, price, (size, meta)));
        } else {
            self.inner.insert(i, (price, Self::deque((size, meta))));
            assert(self@ =~= put_level(old(self)@, price, (size, meta)));
        }
    }

    /// Finds where a split stops: the count of levels taken whole, and the
    /// count of records taken from the level after them.
    fn cut_point(&self, price: i32, size: u32) -> (r: (usize, usize))
        requires
            self.wf(),
        ensures
            r.0 <= self@.len(),
            r.1 > 0 ==> r.0 < self@.len() && r.1 < self@[r.0 as int].1.len(),
            stops_at(
                cut_levels(self@, r.0 as int, r.1 as int).0,
                cut_levels(self@, r.0 as int, r.1 as int).1,
                price,
                size,
            ),
    {
        let ghost levels = self@;
        let mut sum: u64 = 0;
        let mut i: usize = 0;
        while i < self.inner.len()
            invariant
                i <= levels.len(),
                levels == self@,
                levels_wf(levels),
                sum <= size,
                sum == total(entries(levels.take(i as int))),
                forall|k: int| 0 <= k < i ==> #[trigger] levels[k].0 <= price,
            decreases self.inner@.len() - i,
        {
            if self.inner[i].0 > price {
                proof {
                    assert(levels[i as int].1.take(0) =~= Seq::<Rec>::empty());
                    assert(priced((levels[i as int].0, levels[i as int].1.take(0))) =~= Seq::empty());
                    lemma_stop(levels, price, size, i as int, 0);
                }
                return (i, 0);
            }
            let level = &self.inner[i].1;
            let ghost rs = levels[i as int].1;
            let mut j: usize = 0;
            proof {
                assert(rs.take(0) =~= Seq::<Rec>::empty());
                assert(priced((levels[i as int].0, rs.take(0))) =~= Seq::empty());
            }
            while j < level.len()
                invariant
                    j <= level@.len(),
                    sum <= size,
                    i < self.inner@.len(),
                    levels == self@,
                    levels_wf(levels),
                    *level == self.inner@[i as int].1,
                    level@ == rs,
                    rs == levels[i as int].1,
                    levels[i as int].0 <= price,
                    forall|k: int| 0 <= k < i ==> #[trigger] levels[k].0 <= price,
                    sum == total(entries(levels.take(i as int))) + total(
                        priced((levels[i as int].0, rs.take(j as int))),
                    ),
                decreases level@.len() - j,
            {
                let s = level[j].0 as u64;
                if sum + s > size as u64 {
                    proof {
                        lemma_stop(levels, price, size, i as int, j as int);
                    }
                    return (i, j);
                }
                proof {
                    lemma_total_next_rec(levels[i as int], j as int);
                }
                sum = sum + s;
                j = j + 1;
            }
            proof {
                lemma_total_next_level(levels, i as int);
            }
            i = i + 1;
        }
        proof {
            lemma_stop(levels, price, size, i as int, 0);
        }
        (i, 0)
    }

    /// Moves the first `levels` levels and then `recs` records of the next
    /// level into a new basket.
    fn cut(&mut self, levels: usize, recs: usize) -> (r: Basket)
        requires
            levels <= old(self)@.len(),
            recs > 0 ==> levels < old(self)@.len() && recs < old(self)@[levels as int].1.len(),
        ensures
            (r@, final(self)@) == cut_levels(old(self)@, levels as int, recs as int),
    {
        let mut rest = self.inner.split_off(levels);
        if recs > 0 {
            let (p, mut front) = rest.remove(0);
            let back = front.split_off(recs);
            self.inner.push((p, front));
            rest.insert(0, (p, back));
        }
        std::mem::swap(&mut self.inner, &mut rest);
        let r = Basket { inner: rest };
        assert(r@ =~= cut_levels(old(self)@, levels as int, recs as int).0);
        assert(self@ =~= cut_levels(old(self)@, levels as int, recs as int).1);
        r
    }

    /// Removes and returns the longest leading run of records, in basket
    /// order, whose prices are at most `price` and whose quantities sum to at
    /// most `size`. A level cut inside keeps its price in both baskets.
    pub fn split(&mut self, price: i32, size: u32) -> (r: Basket)
        requires
            old(self).wf(),
        ensures
            r.wf(),
            final(self).wf(),
            partitions(old(self)@, r@, final(self)@),
            stops_at(r@, final(self)@, price, size),
    {
        let (levels, recs) = self.cut_point(price, size);
        proof {
            lemma_cut(self@, levels as int, recs as int);
        }
        self.cut(levels, recs)
    }

    /// The same split as `split`, with the same result.
    pub fn split_1(&mut self, price: i32, size: u32) -> (r: Basket)
        requires
            old(self).wf(),
        ensures
            r.wf(),
            final(self).wf(),
            partitions(old(self)@, r@, final(self)@),
            stops_at(r@, final(self)@, price, size),
    {
        self.split(price, size)
    }

    /// The levels, as prices with their records in order.
    pub fn levels(&self) -> (r: Vec<(i32, Vec<(u32, u128)>)>)
        ensures
            r@.len() == self@.len(),
            forall|k: int|
                0 <= k < r@.len() ==> (#[trigger] r@[k]).0 == self@[k].0 && r@[k].1@ == self@[k].1,
    {
        let mut out: Vec<(i32, Vec<(u32, u128)>)> = Vec::new();
        let mut i: usize = 0;
        while i < self.inner.len()
            invariant
                i <= self.inner@.len(),
                out@.len() == i,
                forall|k: int|
                    0 <= k < i ==> (#[trigger] out@[k]).0 == self@[k].0 && out@[k].1@ == self@[k].1,
            decreases self.inner@.len() - i,
        {
            let level = &self.inner[i].1;
            let mut recs: Vec<(u32, u128)> = Vec::new();
            let mut j: usize = 0;
            while j < level.len()
                invariant
                    j <= level@.len(),
                    i < self.inner@.len(),
                    *level == self.inner@[i as int].1,
                    recs@ == level@.take(j as int),
                decreases level@.len() - j,
            {
                assert(level@.take(j as int).push(level@[j as int]) =~= level@.take(j as int + 1));
                recs.push(level[j]);
                j = j + 1;
            }
            assert(level@.take(level@.len() as int) =~= level@);
            out.push((self.inner[i].0, recs));
            i = i + 1;
        }
        out
    }

    /// A deque that holds `item` alone.
    pub fn deque(item: Rec) -> (r: VecDeque<Rec>)
        ensures
            r@ == seq![item],
    {
        let mut deq = VecDeque::new();
        deq.push_back(item);
        assert(deq@ =~= seq![item]);
        deq
    }
}

} // verus!
