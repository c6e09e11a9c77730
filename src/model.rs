use vstd::prelude::*;

verus! {

/// One record of a level: its quantity and its tag.
pub type Rec = (u32, u128);

/// A price level: its price and its records, oldest first.
pub type Level = (i32, Seq<Rec>);

/// A record together with the price of the level that holds it.
pub type Entry = (i32, u32, u128);

/// Prices strictly increase from level to level, and no level is empty.
pub open spec fn levels_wf(levels: Seq<Level>) -> bool {
    &&& forall|i: int, j: int|
        0 <= i < j < levels.len() ==> #[trigger] levels[i].0 < #[trigger] levels[j].0
    &&& forall|i: int| 0 <= i < levels.len() ==> #[trigger] levels[i].1.len() > 0
}

/// The index of the first level whose price is not below `price`.
pub open spec fn level_pos(levels: Seq<Level>, price: i32) -> nat
    decreases levels.len(),
{
    if levels.len() == 0 || levels[0].0 >= price {
        0
    } else {
        1 + level_pos(levels.drop_first(), price)
    }
}

/// `level_pos` is the first index whose price is not below `price`.
pub proof fn lemma_level_pos(levels: Seq<Level>, price: i32, i: nat)
    requires
        i <= levels.len(),
        forall|k: int| 0 <= k < i ==> #[trigger] levels[k].0 < price,
        i == levels.len() || levels[i as int].0 >= price,
    ensures
        level_pos(levels, price) == i,
    decreases i,
{
    if i > 0 {
        assert(levels[0].0 < price);
        let rest = levels.drop_first();
        assert forall|k: int| 0 <= k < i - 1 implies #[trigger] rest[k].0 < price by {
            assert(rest[k] == levels[k + 1]);
        }
        lemma_level_pos(rest, price, (i - 1) as nat);
    }
}

/// The levels after a record is put under `price`: appended to that price's
/// level if there is one, else in a new level at its place in price order.
pub open spec fn put_level(levels: Seq<Level>, price: i32, rec: Rec) -> Seq<Level> {
    let i = level_pos(levels, price) as int;
    if i < levels.len() && levels[i].0 == price {
        levels.update(i, (price, levels[i].1.push(rec)))
    } else {
        levels.insert(i, (price, seq![rec]))
    }
}

/// The records of one level, each with the level's price.
pub open spec fn priced(level: Level) -> Seq<Entry> {
    level.1.map_values(|r: Rec| (level.0, r.0, r.1))
}

/// All records of a basket in basket order: ascending price, then arrival order.
pub open spec fn entries(levels: Seq<Level>) -> Seq<Entry>
    decreases levels.len(),
{
    if levels.len() == 0 {
        Seq::empty()
    } else {
        priced(levels[0]) + entries(levels.drop_first())
    }
}

/// The sum of the quantities of a sequence of records.
pub open spec fn total(es: Seq<Entry>) -> int
    decreases es.len(),
{
    if es.len() == 0 {
        0
    } else {
        es[0].1 as int + total(es.drop_first())
    }
}

/// The two baskets that a cut after `i` whole levels and then `j` records of
/// the next level leaves: the part taken and the part left.
pub open spec fn cut_levels(levels: Seq<Level>, i: int, j: int) -> (Seq<Level>, Seq<Level>) {
    if j == 0 {
        (levels.take(i), levels.skip(i))
    } else {
        let (p, rs) = levels[i];
        (levels.take(i).push((p, rs.take(j))), seq![(p, rs.skip(j))] + levels.skip(i + 1))
    }
}

/// Taking records in basket order from `levels` into `taken` and leaving
/// `left` kept every record where it stood, and the two are well formed.
pub open spec fn partitions(levels: Seq<Level>, taken: Seq<Level>, left: Seq<Level>) -> bool {
    &&& levels_wf(taken)
    &&& levels_wf(left)
    &&& entries(taken) + entries(left) == entries(levels)
}

/// A split by `price` and `size` took exactly the records of `taken`: each of
/// them is priced at most `price`, their quantities sum to at most `size`, and
/// the first record left would break one of the two bounds.
pub open spec fn stops_at(taken: Seq<Level>, left: Seq<Level>, price: i32, size: u32) -> bool {
    &&& forall|k: int| 0 <= k < entries(taken).len() ==> #[trigger] entries(taken)[k].0 <= price
    &&& total(entries(taken)) <= size
    &&& entries(left).len() == 0 || entries(left)[0].0 > price
        || total(entries(taken)) + entries(left)[0].1 > size
}

pub proof fn lemma_entries_append(a: Seq<Level>, b: Seq<Level>)
    ensures
        entries(a + b) == entries(a) + entries(b),
    decreases a.len(),
{
    if a.len() == 0 {
        assert(a + b =~= b);
    } else {
        assert((a + b).drop_first() =~= a.drop_first() + b);
        lemma_entries_append(a.drop_first(), b);
        assert(entries(a + b) =~= entries(a) + entries(b));
    }
}

pub proof fn lemma_entries_single(l: Level)
    ensures
        entries(seq![l]) == priced(l),
{
    assert(seq![l].drop_first() =~= Seq::<Level>::empty());
    assert(entries(Seq::<Level>::empty()) == Seq::<Entry>::empty());
    assert(entries(seq![l]) =~= priced(l));
}

pub proof fn lemma_total_append(a: Seq<Entry>, b: Seq<Entry>)
    ensures
        total(a + b) == total(a) + total(b),
    decreases a.len(),
{
    if a.len() == 0 {
        assert(a + b =~= b);
    } else {
        assert((a + b).drop_first() =~= a.drop_first() + b);
        lemma_total_append(a.drop_first(), b);
    }
}

pub proof fn lemma_total_single(e: Entry)
    ensures
        total(seq![e]) == e.1,
{
    assert(seq![e].drop_first() =~= Seq::<Entry>::empty());
    assert(total(Seq::<Entry>::empty()) == 0);
}

/// Every record of levels that are all priced at most `price` is too.
pub proof fn lemma_entries_priced_below(levels: Seq<Level>, price: i32)
    requires
        forall|k: int| 0 <= k < levels.len() ==> #[trigger] levels[k].0 <= price,
    ensures
        forall|k: int| 0 <= k < entries(levels).len() ==> #[trigger] entries(levels)[k].0 <= price,
    decreases levels.len(),
{
    if levels.len() > 0 {
        let rest = levels.drop_first();
        assert forall|k: int| 0 <= k < rest.len() implies #[trigger] rest[k].0 <= price by {
            assert(rest[k] == levels[k + 1]);
        }
        lemma_entries_priced_below(rest, price);
        let es = entries(levels);
        assert forall|k: int| 0 <= k < es.len() implies #[trigger] es[k].0 <= price by {
            if k >= priced(levels[0]).len() {
                assert(es[k] == entries(rest)[k - priced(levels[0]).len()]);
            }
        }
    }
}

/// The entries of the two parts of a cut, piece by piece, and that a cut of
/// a well-formed basket partitions it.
pub proof fn lemma_cut(levels: Seq<Level>, i: int, j: int)
    requires
        levels_wf(levels),
        0 <= i <= levels.len(),
        j > 0 ==> i < levels.len() && j < levels[i].1.len(),
        j >= 0,
    ensures
        partitions(levels, cut_levels(levels, i, j).0, cut_levels(levels, i, j).1),
        i < levels.len() ==> entries(cut_levels(levels, i, j).0) == entries(levels.take(i))
            + priced((levels[i].0, levels[i].1.take(j))),
        i < levels.len() ==> entries(cut_levels(levels, i, j).1) == priced(
            (levels[i].0, levels[i].1.skip(j)),
        ) + entries(levels.skip(i + 1)),
        i == levels.len() ==> entries(cut_levels(levels, i, j).0) == entries(levels)
            && cut_levels(levels, i, j).1.len() == 0,
{
    let (a, b) = cut_levels(levels, i, j);
    assert(levels =~= levels.take(i) + levels.skip(i));
    lemma_entries_append(levels.take(i), levels.skip(i));
    if i == levels.len() {
        assert(levels.take(i) =~= levels);
        assert(entries(levels.skip(i)) =~= Seq::<Entry>::empty());
        return;
    }
    let (p, rs) = levels[i];
    assert(levels.skip(i) =~= seq![levels[i]] + levels.skip(i + 1));
    lemma_entries_append(seq![levels[i]], levels.skip(i + 1));
    lemma_entries_single(levels[i]);
    assert(priced(levels[i]) =~= priced((p, rs.take(j))) + priced((p, rs.skip(j))));
    lemma_entries_single((p, rs.take(j)));
    lemma_entries_single((p, rs.skip(j)));
    if j == 0 {
        assert(priced((p, rs.take(j))) =~= Seq::<Entry>::empty());
        assert(rs.skip(j) =~= rs);
    } else {
        lemma_entries_append(levels.take(i), seq![(p, rs.take(j))]);
        assert(levels.take(i).push((p, rs.take(j))) =~= levels.take(i) + seq![(p, rs.take(j))]);
        lemma_entries_append(seq![(p, rs.skip(j))], levels.skip(i + 1));
    }
    assert(entries(a) + entries(b) =~= entries(levels));
    assert forall|x: int, y: int| 0 <= x < y < a.len() implies #[trigger] a[x].0 < #[trigger] a[y].0 by {
        assert(levels[x].0 < levels[y].0);
    }
    assert forall|x: int| 0 <= x < a.len() implies #[trigger] a[x].1.len() > 0 by {
        assert(levels[x].1.len() > 0);
    }
    assert forall|x: int, y: int| 0 <= x < y < b.len() implies #[trigger] b[x].0 < #[trigger] b[y].0 by {
        if j == 0 {
            assert(levels[x + i].0 < levels[y + i].0);
        } else if x == 0 {
            assert(levels[i].0 < levels[y + i].0);
        } else {
            assert(levels[x + i].0 < levels[y + i].0);
        }
    }
    assert forall|x: int| 0 <= x < b.len() implies #[trigger] b[x].1.len() > 0 by {
        if j == 0 || x > 0 {
            assert(levels[x + i].1.len() > 0);
        }
    }
}

/// The quantity total of a level's first `j + 1` records.
pub proof fn lemma_total_next_rec(l: Level, j: int)
    requires
        0 <= j < l.1.len(),
    ensures
        total(priced((l.0, l.1.take(j + 1)))) == total(priced((l.0, l.1.take(j)))) + l.1[j].0,
{
    let e = (l.0, l.1[j].0, l.1[j].1);
    assert(priced((l.0, l.1.take(j + 1))) =~= priced((l.0, l.1.take(j))) + seq![e]);
    lemma_total_append(priced((l.0, l.1.take(j))), seq![e]);
    lemma_total_single(e);
}

/// The quantity total of the first `i + 1` levels.
pub proof fn lemma_total_next_level(levels: Seq<Level>, i: int)
    requires
        0 <= i < levels.len(),
    ensures
        total(entries(levels.take(i + 1))) == total(entries(levels.take(i))) + total(
            priced((levels[i].0, levels[i].1.take(levels[i].1.len() as int))),
        ),
{
    assert(levels.take(i + 1) =~= levels.take(i) + seq![levels[i]]);
    lemma_entries_append(levels.take(i), seq![levels[i]]);
    lemma_entries_single(levels[i]);
    assert(levels[i].1.take(levels[i].1.len() as int) =~= levels[i].1);
    lemma_total_append(entries(levels.take(i)), priced(levels[i]));
}

/// A scan that passed `i` whole levels and `j` records of the next, within
/// both bounds, and stopped where the next record breaks one, leaves a cut
/// that obeys the split's bounds and stopping rule.
pub proof fn lemma_stop(levels: Seq<Level>, price: i32, size: u32, i: int, j: int)
    requires
        levels_wf(levels),
        0 <= i <= levels.len(),
        0 <= j,
        i < levels.len() ==> j < levels[i].1.len(),
        i == levels.len() ==> j == 0,
        forall|k: int| 0 <= k < i ==> #[trigger] levels[k].0 <= price,
        j > 0 ==> levels[i].0 <= price,
        i < levels.len() ==> total(entries(levels.take(i))) + total(
            priced((levels[i].0, levels[i].1.take(j))),
        ) <= size,
        i == levels.len() ==> total(entries(levels.take(i))) <= size,
        i < levels.len() ==> levels[i].0 > price || total(entries(levels.take(i))) + total(
            priced((levels[i].0, levels[i].1.take(j))),
        ) + levels[i].1[j].0 > size,
    ensures
        stops_at(cut_levels(levels, i, j).0, cut_levels(levels, i, j).1, price, size),
{
    let (a, b) = cut_levels(levels, i, j);
    lemma_cut(levels, i, j);
    let front = levels.take(i);
    assert forall|k: int| 0 <= k < front.len() implies #[trigger] front[k].0 <= price by {
        assert(front[k] == levels[k]);
    }
    lemma_entries_priced_below(front, price);
    if i == levels.len() {
        assert(front =~= levels);
        return;
    }
    let (p, rs) = levels[i];
    let head = priced((p, rs.take(j)));
    lemma_total_append(entries(front), head);
    let ea = entries(a);
    assert forall|k: int| 0 <= k < ea.len() implies #[trigger] ea[k].0 <= price by {
        if k >= entries(front).len() {
            assert(ea[k] == head[k - entries(front).len()]);
        } else {
            assert(ea[k] == entries(front)[k]);
        }
    }
    assert(entries(b)[0] == priced((p, rs.skip(j)))[0]);
}

/// The levels before `level_pos` are priced below `price`, the one at it
/// (if any) at or above.
pub proof fn lemma_level_pos_bounds(levels: Seq<Level>, price: i32)
    ensures
        level_pos(levels, price) <= levels.len(),
        forall|k: int| 0 <= k < level_pos(levels, price) ==> #[trigger] levels[k].0 < price,
        level_pos(levels, price) < levels.len() ==> levels[level_pos(levels, price) as int].0
            >= price,
    decreases levels.len(),
{
    if levels.len() > 0 && levels[0].0 < price {
        let rest = levels.drop_first();
        lemma_level_pos_bounds(rest, price);
        assert forall|k: int| 0 <= k < level_pos(levels, price) implies #[trigger] levels[k].0
            < price by {
            if k > 0 {
                assert(levels[k] == rest[k - 1]);
            }
        }
    }
}

/// Putting a record keeps prices strictly increasing and no level empty.
pub proof fn lemma_put_wf(levels: Seq<Level>, price: i32, rec: Rec)
    requires
        levels_wf(levels),
    ensures
        levels_wf(put_level(levels, price, rec)),
{
    lemma_level_pos_bounds(levels, price);
    let i = level_pos(levels, price) as int;
    let n = put_level(levels, price, rec);
    if i < levels.len() && levels[i].0 == price {
        assert forall|x: int, y: int| 0 <= x < y < n.len() implies #[trigger] n[x].0 < #[trigger] n[y].0 by {
            assert(levels[x].0 < levels[y].0);
        }
        assert forall|x: int| 0 <= x < n.len() implies #[trigger] n[x].1.len() > 0 by {
            assert(levels[x].1.len() > 0);
        }
    } else {
        assert forall|x: int, y: int| 0 <= x < y < n.len() implies #[trigger] n[x].0 < #[trigger] n[y].0 by {
            if y < i {
                assert(levels[x].0 < levels[y].0);
            } else if y == i {
                assert(levels[x].0 < price);
            } else if x < i {
                assert(levels[x].0 < levels[y - 1].0);
            } else if x == i {
                assert(levels[i].0 <= levels[y - 1].0);
            } else {
                assert(levels[x - 1].0 < levels[y - 1].0);
            }
        }
        assert forall|x: int| 0 <= x < n.len() implies #[trigger] n[x].1.len() > 0 by {
            if x < i {
                assert(levels[x].1.len() > 0);
            } else if x > i {
                assert(levels[x - 1].1.len() > 0);
            }
        }
    }
}

/// Every record of levels that are all priced above `price` is too.
pub proof fn lemma_entries_priced_above(levels: Seq<Level>, price: i32)
    requires
        forall|k: int| 0 <= k < levels.len() ==> #[trigger] levels[k].0 > price,
    ensures
        forall|k: int| 0 <= k < entries(levels).len() ==> #[trigger] entries(levels)[k].0 > price,
    decreases levels.len(),
{
    if levels.len() > 0 {
        let rest = levels.drop_first();
        assert forall|k: int| 0 <= k < rest.len() implies #[trigger] rest[k].0 > price by {
            assert(rest[k] == levels[k + 1]);
        }
        lemma_entries_priced_above(rest, price);
        let es = entries(levels);
        assert forall|k: int| 0 <= k < es.len() implies #[trigger] es[k].0 > price by {
            if k >= priced(levels[0]).len() {
                assert(es[k] == entries(rest)[k - priced(levels[0]).len()]);
            }
        }
    }
}

/// A well-formed basket is fixed by its records: two with the same records
/// in the same order are the same levels.
pub proof fn lemma_entries_determine_levels(a: Seq<Level>, b: Seq<Level>)
    requires
        levels_wf(a),
        levels_wf(b),
        entries(a) == entries(b),
    ensures
        a == b,
    decreases a.len(),
{
    if a.len() == 0 {
        if b.len() > 0 {
            assert(entries(b).len() > 0);
        }
        assert(a =~= b);
        return;
    }
    if b.len() == 0 {
        assert(entries(a).len() > 0);
        return;
    }
    let (ra, rb) = (a.drop_first(), b.drop_first());
    let (n, m) = (a[0].1.len() as int, b[0].1.len() as int);
    assert(entries(a)[0] == priced(a[0])[0]);
    assert(entries(b)[0] == priced(b[0])[0]);
    let p = a[0].0;
    assert(b[0].0 == p);
    assert forall|k: int| 0 <= k < ra.len() implies #[trigger] ra[k].0 > p by {
        assert(a[0].0 < a[k + 1].0);
    }
    assert forall|k: int| 0 <= k < rb.len() implies #[trigger] rb[k].0 > p by {
        assert(b[0].0 < b[k + 1].0);
    }
    lemma_entries_priced_above(ra, p);
    lemma_entries_priced_above(rb, p);
    if n < m {
        assert(entries(a)[n] == entries(ra)[0]);
        assert(entries(b)[n] == priced(b[0])[n]);
        assert(false);
    }
    if m < n {
        assert(entries(b)[m] == entries(rb)[0]);
        assert(entries(a)[m] == priced(a[0])[m]);
        assert(false);
    }
    assert forall|k: int| 0 <= k < n implies a[0].1[k] == b[0].1[k] by {
        assert(entries(a)[k] == priced(a[0])[k]);
        assert(entries(b)[k] == priced(b[0])[k]);
    }
    assert(a[0].1 =~= b[0].1);
    assert(entries(ra) =~= entries(a).skip(n));
    assert(entries(rb) =~= entries(b).skip(n));
    assert(levels_wf(ra)) by {
        assert forall|x: int, y: int| 0 <= x < y < ra.len() implies #[trigger] ra[x].0 < #[trigger] ra[y].0 by {
            assert(a[x + 1].0 < a[y + 1].0);
        }
        assert forall|x: int| 0 <= x < ra.len() implies #[trigger] ra[x].1.len() > 0 by {
            assert(a[x + 1].1.len() > 0);
        }
    }
    assert(levels_wf(rb)) by {
        assert forall|x: int, y: int| 0 <= x < y < rb.len() implies #[trigger] rb[x].0 < #[trigger] rb[y].0 by {
            assert(b[x + 1].0 < b[y + 1].0);
        }
        assert forall|x: int| 0 <= x < rb.len() implies #[trigger] rb[x].1.len() > 0 by {
            assert(b[x + 1].1.len() > 0);
        }
    }
    lemma_entries_determine_levels(ra, rb);
    assert forall|k: int| 0 <= k < a.len() implies a[k] == b[k] by {
        if k > 0 {
            assert(a[k] == ra[k - 1]);
            assert(b[k] == rb[k - 1]);
        }
    }
    assert(a =~= b);
}

/// A split whose price bound is below every level takes nothing and leaves
/// the basket as it was.
pub proof fn lemma_split_below_all_prices(
    before: Seq<Level>,
    taken: Seq<Level>,
    left: Seq<Level>,
    price: i32,
    size: u32,
)
    requires
        levels_wf(before),
        partitions(before, taken, left),
        stops_at(taken, left, price, size),
        forall|k: int| 0 <= k < before.len() ==> #[trigger] before[k].0 > price,
    ensures
        taken == Seq::<Level>::empty(),
        left == before,
{
    lemma_entries_priced_above(before, price);
    if taken.len() > 0 {
        assert(taken[0].1.len() > 0);
        assert(entries(taken)[0] == priced(taken[0])[0]);
        assert(entries(taken).len() > 0);
        assert(entries(before)[0] == entries(taken)[0]);
        assert(entries(before)[0].0 > price);
        assert(entries(taken)[0].0 <= price);
        assert(false);
    }
    assert(taken =~= Seq::<Level>::empty());
    assert(entries(left) =~= entries(before));
    lemma_entries_determine_levels(left, before);
}

/// A split whose size bound is below the first record's quantity takes
/// nothing and leaves the basket as it was.
pub proof fn lemma_split_first_too_large(
    before: Seq<Level>,
    taken: Seq<Level>,
    left: Seq<Level>,
    price: i32,
    size: u32,
)
    requires
        levels_wf(before),
        partitions(before, taken, left),
        stops_at(taken, left, price, size),
        before.len() > 0,
        before[0].1[0].0 > size,
    ensures
        taken == Seq::<Level>::empty(),
        left == before,
{
    assert(entries(before)[0] == priced(before[0])[0]);
    if taken.len() > 0 {
        assert(taken[0].1.len() > 0);
        assert(entries(taken)[0] == priced(taken[0])[0]);
        assert(entries(before)[0] == entries(taken)[0]);
        lemma_total_nonneg(entries(taken).drop_first());
        assert(false);
    }
    assert(taken =~= Seq::<Level>::empty());
    assert(entries(left) =~= entries(before));
    lemma_entries_determine_levels(left, before);
}

pub proof fn lemma_total_nonneg(es: Seq<Entry>)
    ensures
        total(es) >= 0,
    decreases es.len(),
{
    if es.len() > 0 {
        lemma_total_nonneg(es.drop_first());
    }
}

/// A split whose bounds reach past every record takes the whole basket and
/// leaves it empty.
pub proof fn lemma_split_takes_all(
    before: Seq<Level>,
    taken: Seq<Level>,
    left: Seq<Level>,
    price: i32,
    size: u32,
)
    requires
        levels_wf(before),
        partitions(before, taken, left),
        stops_at(taken, left, price, size),
        forall|k: int| 0 <= k < before.len() ==> #[trigger] before[k].0 <= price,
        total(entries(before)) <= size,
    ensures
        taken == before,
        left == Seq::<Level>::empty(),
{
    lemma_entries_priced_below(before, price);
    lemma_total_append(entries(taken), entries(left));
    if left.len() > 0 {
        assert(left[0].1.len() > 0);
        assert(entries(left)[0] == priced(left[0])[0]);
        let n = entries(taken).len() as int;
        assert(entries(before)[n] == entries(left)[0]);
        assert(entries(before)[n].0 <= price);
        lemma_total_nonneg(entries(left).drop_first());
        assert(false);
    }
    assert(left =~= Seq::<Level>::empty());
    assert(entries(left) =~= Seq::<Entry>::empty());
    assert(entries(taken) =~= entries(before));
    lemma_entries_determine_levels(taken, before);
}

/// The records of a well-formed basket are in ascending price order.
pub proof fn lemma_entries_sorted(levels: Seq<Level>)
    requires
        levels_wf(levels),
    ensures
        forall|i: int, j: int|
            0 <= i <= j < entries(levels).len() ==> #[trigger] entries(levels)[i].0
                <= #[trigger] entries(levels)[j].0,
    decreases levels.len(),
{
    if levels.len() > 0 {
        let rest = levels.drop_first();
        let p = levels[0].0;
        assert forall|k: int| 0 <= k < rest.len() implies #[trigger] rest[k].0 > p by {
            assert(levels[0].0 < levels[k + 1].0);
        }
        assert(levels_wf(rest)) by {
            assert forall|x: int, y: int| 0 <= x < y < rest.len() implies #[trigger] rest[x].0
                < #[trigger] rest[y].0 by {
                assert(levels[x + 1].0 < levels[y + 1].0);
            }
            assert forall|x: int| 0 <= x < rest.len() implies #[trigger] rest[x].1.len() > 0 by {
                assert(levels[x + 1].1.len() > 0);
            }
        }
        lemma_entries_priced_above(rest, p);
        lemma_entries_sorted(rest);
        let es = entries(levels);
        let h = priced(levels[0]).len() as int;
        assert forall|i: int, j: int| 0 <= i <= j < es.len() implies #[trigger] es[i].0
            <= #[trigger] es[j].0 by {
            if j >= h {
                assert(es[j] == entries(rest)[j - h]);
            }
            if i >= h {
                assert(es[i] == entries(rest)[i - h]);
            }
        }
    }
}

/// The levels `taken` followed by the levels `left`, where a level that a
/// split cut in two is one level again.
pub open spec fn join(taken: Seq<Level>, left: Seq<Level>) -> Seq<Level> {
    if taken.len() > 0 && left.len() > 0 && taken.last().0 == left[0].0 {
        let p = left[0].0;
        taken.drop_last() + seq![(p, taken.last().1 + left[0].1)] + left.drop_first()
    } else {
        taken + left
    }
}

/// A split loses nothing: joining what it took with what it left gives back
/// the levels of the basket before it, each price with the same records in
/// the same order.
pub proof fn lemma_split_lossless(before: Seq<Level>, taken: Seq<Level>, left: Seq<Level>)
    requires
        levels_wf(before),
        partitions(before, taken, left),
    ensures
        join(taken, left) == before,
{
    let j = join(taken, left);
    if taken.len() > 0 {
        assert(taken =~= taken.drop_last() + seq![taken.last()]);
        lemma_entries_append(taken.drop_last(), seq![taken.last()]);
        lemma_entries_single(taken.last());
    }
    if taken.len() > 0 && left.len() > 0 && taken.last().0 == left[0].0 {
        let p = left[0].0;
        let mid = (p, taken.last().1 + left[0].1);
        assert(priced(mid) =~= priced(taken.last()) + priced(left[0]));
        lemma_entries_append(taken.drop_last() + seq![mid], left.drop_first());
        lemma_entries_append(taken.drop_last(), seq![mid]);
        lemma_entries_single(mid);
        assert(entries(j) =~= entries(before));
        assert forall|x: int, y: int| 0 <= x < y < j.len() implies #[trigger] j[x].0 < #[trigger] j[y].0 by {
            let t = taken.len() - 1;
            if y < t {
                assert(taken[x].0 < taken[y].0);
            } else if y == t {
                assert(taken[x].0 < taken[t].0);
            } else if x < t {
                assert(taken[x].0 < taken[t].0);
                assert(left[0].0 < left[y - t].0);
            } else if x == t {
                assert(left[0].0 < left[y - t].0);
            } else {
                assert(left[x - t].0 < left[y - t].0);
            }
        }
        assert forall|x: int| 0 <= x < j.len() implies #[trigger] j[x].1.len() > 0 by {
            let t = taken.len() - 1;
            if x < t {
                assert(taken[x].1.len() > 0);
            } else if x > t {
                assert(left[x - t].1.len() > 0);
            }
        }
    } else {
        lemma_entries_append(taken, left);
        if taken.len() > 0 && left.len() > 0 {
            lemma_entries_sorted(before);
            let n = entries(taken).len() as int;
            let t = taken.len() - 1;
            assert(taken[t].1.len() > 0);
            assert(left[0].1.len() > 0);
            assert(entries(taken)[n - 1] == priced(taken.last()).last());
            assert(entries(left)[0] == priced(left[0])[0]);
            assert(entries(before)[n - 1] == entries(taken)[n - 1]);
            assert(entries(before)[n] == entries(left)[0]);
            assert(entries(before)[n - 1].0 <= entries(before)[n].0);
            assert(taken[t].0 < left[0].0);
        }
        assert forall|x: int, y: int| 0 <= x < y < j.len() implies #[trigger] j[x].0 < #[trigger] j[y].0 by {
            let t = taken.len();
            if y < t {
                assert(taken[x].0 < taken[y].0);
            } else if x >= t {
                assert(left[x - t].0 < left[y - t].0);
            } else {
                if x < t - 1 {
                    assert(taken[x].0 < taken[t - 1].0);
                }
                if y > t {
                    assert(left[0].0 < left[y - t].0);
                }
            }
        }
        assert forall|x: int| 0 <= x < j.len() implies #[trigger] j[x].1.len() > 0 by {
            let t = taken.len();
            if x < t {
                assert(taken[x].1.len() > 0);
            } else {
                assert(left[x - t].1.len() > 0);
            }
        }
    }
    lemma_entries_determine_levels(j, before);
}

/// The records of the level priced `price`, empty if there is none.
pub open spec fn level_of(levels: Seq<Level>, price: i32) -> Seq<Rec>
    decreases levels.len(),
{
    if levels.len() == 0 {
        Seq::empty()
    } else if levels[0].0 == price {
        levels[0].1
    } else {
        level_of(levels.drop_first(), price)
    }
}

/// The levels that a sequence of puts builds from an empty basket; each put
/// is a price, a quantity and a tag.
pub open spec fn put_all(puts: Seq<Entry>) -> Seq<Level>
    decreases puts.len(),
{
    if puts.len() == 0 {
        Seq::empty()
    } else {
        let e = puts.last();
        put_level(put_all(puts.drop_last()), e.0, (e.1, e.2))
    }
}

/// The records put under `price`, in the order they were put.
pub open spec fn put_under(puts: Seq<Entry>, price: i32) -> Seq<Rec>
    decreases puts.len(),
{
    if puts.len() == 0 {
        Seq::empty()
    } else {
        let e = puts.last();
        let before = put_under(puts.drop_last(), price);
        if e.0 == price {
            before.push((e.1, e.2))
        } else {
            before
        }
    }
}

pub proof fn lemma_level_of_at(levels: Seq<Level>, k: int)
    requires
        levels_wf(levels),
        0 <= k < levels.len(),
    ensures
        level_of(levels, levels[k].0) == levels[k].1,
    decreases k,
{
    if k > 0 {
        let rest = levels.drop_first();
        assert(levels[0].0 < levels[k].0);
        assert(levels_wf(rest)) by {
            assert forall|x: int, y: int| 0 <= x < y < rest.len() implies #[trigger] rest[x].0
                < #[trigger] rest[y].0 by {
                assert(levels[x + 1].0 < levels[y + 1].0);
            }
            assert forall|x: int| 0 <= x < rest.len() implies #[trigger] rest[x].1.len() > 0 by {
                assert(levels[x + 1].1.len() > 0);
            }
        }
        assert(rest[k - 1] == levels[k]);
        lemma_level_of_at(rest, k - 1);
    }
}

pub proof fn lemma_level_of_absent(levels: Seq<Level>, price: i32)
    requires
        forall|k: int| 0 <= k < levels.len() ==> #[trigger] levels[k].0 != price,
    ensures
        level_of(levels, price) == Seq::<Rec>::empty(),
    decreases levels.len(),
{
    if levels.len() > 0 {
        let rest = levels.drop_first();
        assert forall|k: int| 0 <= k < rest.len() implies #[trigger] rest[k].0 != price by {
            assert(rest[k] == levels[k + 1]);
        }
        lemma_level_of_absent(rest, price);
    }
}

/// The level of `price` in a well-formed basket, found by index or absent.
pub proof fn lemma_level_of(levels: Seq<Level>, price: i32)
    requires
        levels_wf(levels),
    ensures
        (exists|k: int| 0 <= k < levels.len() && #[trigger] levels[k].0 == price && level_of(levels, price) == levels[k].1)
            || ((forall|k: int| 0 <= k < levels.len() ==> #[trigger] levels[k].0 != price) && level_of(levels, price)
            == Seq::<Rec>::empty()),
{
    if exists|k: int| 0 <= k < levels.len() && #[trigger] levels[k].0 == price {
        let k = choose|k: int| 0 <= k < levels.len() && #[trigger] levels[k].0 == price;
        lemma_level_of_at(levels, k);
    } else {
        lemma_level_of_absent(levels, price);
    }
}

/// One put adds its record at the end of its own price's level and changes
/// no other price's level.
pub proof fn lemma_put_level_of(levels: Seq<Level>, price: i32, rec: Rec, q: i32)
    requires
        levels_wf(levels),
    ensures
        level_of(put_level(levels, price, rec), q) == if q == price {
            level_of(levels, q).push(rec)
        } else {
            level_of(levels, q)
        },
{
    lemma_put_wf(levels, price, rec);
    lemma_level_pos_bounds(levels, price);
    let n = put_level(levels, price, rec);
    let i = level_pos(levels, price) as int;
    lemma_level_of(levels, q);
    lemma_level_of(n, q);
    if i < levels.len() && levels[i].0 == price {
        if q == price {
            lemma_level_of_at(levels, i);
            lemma_level_of_at(n, i);
        } else if exists|k: int| 0 <= k < levels.len() && #[trigger] levels[k].0 == q {
            let k = choose|k: int| 0 <= k < levels.len() && #[trigger] levels[k].0 == q;
            lemma_level_of_at(levels, k);
            lemma_level_of_at(n, k);
        } else {
            assert forall|k: int| 0 <= k < n.len() implies #[trigger] n[k].0 != q by {
                assert(n[k].0 == levels[k].0);
            }
            lemma_level_of_absent(n, q);
        }
    } else {
        if q == price {
            assert forall|k: int| 0 <= k < levels.len() implies #[trigger] levels[k].0 != q by {
                if k > i {
                    assert(levels[i].0 < levels[k].0);
                }
            }
            lemma_level_of_absent(levels, q);
            lemma_level_of_at(n, i);
            assert(seq![rec] =~= Seq::<Rec>::empty().push(rec));
        } else if exists|k: int| 0 <= k < levels.len() && #[trigger] levels[k].0 == q {
            let k = choose|k: int| 0 <= k < levels.len() && #[trigger] levels[k].0 == q;
            lemma_level_of_at(levels, k);
            if k < i {
                lemma_level_of_at(n, k);
            } else {
                assert(n[k + 1] == levels[k]);
                lemma_level_of_at(n, k + 1);
            }
        } else {
            assert forall|k: int| 0 <= k < n.len() implies #[trigger] n[k].0 != q by {
                if k < i {
                    assert(n[k] == levels[k]);
                } else if k > i {
                    assert(n[k] == levels[k - 1]);
                }
            }
            lemma_level_of_absent(n, q);
        }
    }
}

/// Any sequence of puts on an empty basket builds levels in strictly
/// ascending price order, none empty, and the level of each price holds the
/// records put under it, in the order they were put.
pub proof fn lemma_puts_ordered(puts: Seq<Entry>, price: i32)
    ensures
        levels_wf(put_all(puts)),
        level_of(put_all(puts), price) == put_under(puts, price),
    decreases puts.len(),
{
    if puts.len() > 0 {
        let e = puts.last();
        lemma_puts_ordered(puts.drop_last(), price);
        lemma_put_wf(put_all(puts.drop_last()), e.0, (e.1, e.2));
        lemma_put_level_of(put_all(puts.drop_last()), e.0, (e.1, e.2), price);
    }
}

/// Of one basket, one price bound and one size bound there is only one
/// split: any two results that partition the basket and obey the bounds and
/// the stopping rule are the same.
pub proof fn lemma_split_unique(
    before: Seq<Level>,
    taken1: Seq<Level>,
    left1: Seq<Level>,
    taken2: Seq<Level>,
    left2: Seq<Level>,
    price: i32,
    size: u32,
)
    requires
        partitions(before, taken1, left1),
        stops_at(taken1, left1, price, size),
        partitions(before, taken2, left2),
        stops_at(taken2, left2, price, size),
    ensures
        taken1 == taken2,
        left1 == left2,
{
    let (e1, e2) = (entries(taken1), entries(taken2));
    lemma_split_takes_longest(before, taken1, left1, taken2, left2, price, size);
    lemma_split_takes_longest(before, taken2, left2, taken1, left1, price, size);
    assert(e1 =~= entries(before).take(e1.len() as int));
    assert(e2 =~= entries(before).take(e2.len() as int));
    assert(entries(left1) =~= entries(before).skip(e1.len() as int));
    assert(entries(left2) =~= entries(before).skip(e2.len() as int));
    lemma_entries_determine_levels(taken1, taken2);
    lemma_entries_determine_levels(left1, left2);
}

/// A split that obeys the bounds takes at least as many records as any
/// other that also obeys them.
proof fn lemma_split_takes_longest(
    before: Seq<Level>,
    taken1: Seq<Level>,
    left1: Seq<Level>,
    taken2: Seq<Level>,
    left2: Seq<Level>,
    price: i32,
    size: u32,
)
    requires
        partitions(before, taken1, left1),
        stops_at(taken1, left1, price, size),
        partitions(before, taken2, left2),
        stops_at(taken2, left2, price, size),
    ensures
        entries(taken1).len() >= entries(taken2).len(),
{
    let (e1, e2) = (entries(taken1), entries(taken2));
    if e1.len() >= e2.len() {
        return;
    }
    let n = e1.len() as int;
    assert(entries(before)[n] == entries(left1)[0]);
    assert(entries(before)[n] == e2[n]);
    assert(e2[n].0 <= price);
    assert forall|k: int| 0 <= k < n implies e2[k] == e1[k] by {
        assert(entries(before)[k] == e1[k]);
        assert(entries(before)[k] == e2[k]);
    }
    assert(e2 =~= e1 + seq![e2[n]] + e2.skip(n + 1));
    lemma_total_append(e1 + seq![e2[n]], e2.skip(n + 1));
    lemma_total_append(e1, seq![e2[n]]);
    lemma_total_single(e2[n]);
    lemma_total_nonneg(e2.skip(n + 1));
}

} // verus!
