//! A convention of layer draw order: each map layer carries a y-order
//! value (layers without one count as -1), and layers are drawn from the
//! smallest y-order to the largest, layers of equal y-order in their
//! original order.

use vstd::prelude::*;

verus! {

/// One layer's place in the draw order: its index in the map's layer
/// list and its y-order value.
#[derive(Clone, Copy, Debug)]
pub struct LayerY {
    pub index: usize,
    pub y: i32,
}

/// Draw order before `a` or alongside it: smaller y first, equal y in
/// index order.
pub open spec fn layer_le(a: LayerY, b: LayerY) -> bool {
    a.y < b.y || (a.y == b.y && a.index <= b.index)
}

/// A layer list in draw order: adjacent entries are ordered.
pub open spec fn layers_sorted(s: Seq<LayerY>) -> bool {
    forall|i: int| 0 <= i < s.len() - 1 ==> layer_le(#[trigger] s[i], s[i + 1])
}

/// Inserting one layer into a draw-ordered list: it lands after every
/// entry with a smaller or equal y-order (so equal y-orders keep their
/// original order) and before every entry with a larger one.
pub open spec fn insert_layer(s: Seq<LayerY>, l: LayerY) -> Seq<LayerY>
    decreases s.len(),
{
    if s.len() == 0 {
        seq![l]
    } else if s.last().y <= l.y {
        s.push(l)
    } else {
        insert_layer(s.drop_last(), l).push(s.last())
    }
}

/// The draw order of a list of y-order values, one per layer in layer
/// order: a stable sort by y-order.
pub open spec fn sort_layers(ys: Seq<i32>) -> Seq<LayerY>
    decreases ys.len(),
{
    if ys.len() == 0 {
        Seq::empty()
    } else {
        insert_layer(
            sort_layers(ys.drop_last()),
            LayerY { index: (ys.len() - 1) as usize, y: ys.last() },
        )
    }
}

/// Inserting grows the list by exactly one entry.
pub proof fn lemma_insert_layer_len(s: Seq<LayerY>, l: LayerY)
    ensures
        insert_layer(s, l).len() == s.len() + 1,
    decreases s.len(),
{
    if s.len() == 0 {
    } else if s.last().y <= l.y {
    } else {
        lemma_insert_layer_len(s.drop_last(), l);
    }
}

/// Inserting only rearranges: the result holds the new layer and
/// everything the list held.
pub proof fn lemma_insert_layer_contains(s: Seq<LayerY>, l: LayerY)
    ensures
        insert_layer(s, l).contains(l),
        forall|x: LayerY| s.contains(x) ==> insert_layer(s, l).contains(x),
    decreases s.len(),
{
    if s.len() == 0 {
        assert(insert_layer(s, l) == seq![l]);
        assert(seq![l][0] == l);
    } else if s.last().y <= l.y {
        assert forall|x: LayerY| s.contains(x) implies insert_layer(s, l).contains(x) by {
            let j = choose|j: int| 0 <= j < s.len() && s[j] == x;
            assert(insert_layer(s, l)[j] == x);
        }
        assert(insert_layer(s, l).last() == l);
    } else {
        lemma_insert_layer_contains(s.drop_last(), l);
        let q = insert_layer(s.drop_last(), l);
        let r = q.push(s.last());
        assert forall|x: LayerY| s.contains(x) implies r.contains(x) by {
            let j = choose|j: int| 0 <= j < s.len() && s[j] == x;
            if j == s.len() - 1 {
                assert(r[r.len() - 1] == x);
            } else {
                assert(s.drop_last()[j] == x);
                assert(s.drop_last().contains(x));
                let j2 = choose|j2: int| 0 <= j2 < q.len() && q[j2] == x;
                assert(r[j2] == x);
            }
        }
        let j3 = choose|j3: int| 0 <= j3 < q.len() && q[j3] == l;
        assert(r[j3] == l);
    }
}

/// Every entry the insertion produces has an index no larger than the
/// inserted layer's, provided the list's entries already do.
proof fn lemma_insert_layer_index_bound(s: Seq<LayerY>, l: LayerY)
    requires
        forall|i: int| 0 <= i < s.len() ==> (#[trigger] s[i]).index < l.index,
    ensures
        forall|i: int|
            0 <= i < insert_layer(s, l).len() ==> (#[trigger] insert_layer(s, l)[i]).index
                <= l.index,
    decreases s.len(),
{
    if s.len() == 0 {
    } else if s.last().y <= l.y {
        let r = s.push(l);
        assert forall|i: int| 0 <= i < r.len() implies (#[trigger] r[i]).index <= l.index by {
            if i < s.len() {
                assert(s[i].index < l.index);
            }
        }
    } else {
        assert forall|i: int| 0 <= i < s.drop_last().len() implies (#[trigger] s.drop_last()[
            i
        ]).index < l.index by {
            assert(s[i].index < l.index);
        }
        lemma_insert_layer_index_bound(s.drop_last(), l);
        let q = insert_layer(s.drop_last(), l);
        let r = q.push(s.last());
        assert forall|i: int| 0 <= i < r.len() implies (#[trigger] r[i]).index <= l.index by {
            if i < q.len() {
                assert(q[i].index <= l.index);
            } else {
                assert(r[i] == s.last());
                assert(s[s.len() - 1].index < l.index);
            }
        }
    }
}

/// Inserting a layer whose index is above every index in the list keeps
/// the list draw-ordered.
#[verifier::rlimit(100)]
#[verifier::spinoff_prover]
pub proof fn lemma_insert_layer_sorted(s: Seq<LayerY>, l: LayerY)
    requires
        layers_sorted(s),
        forall|i: int| 0 <= i < s.len() ==> (#[trigger] s[i]).index < l.index,
    ensures
        layers_sorted(insert_layer(s, l)),
    decreases s.len(),
{
    lemma_insert_layer_len(s, l);
    if s.len() == 0 {
    } else if s.last().y <= l.y {
        let r = s.push(l);
        assert forall|i: int| 0 <= i < r.len() - 1 implies layer_le(#[trigger] r[i], r[i + 1]) by {
            if i < s.len() - 1 {
                assert(layer_le(s[i], s[i + 1]));
            } else {
                assert(r[i] == s.last());
                assert(r[i + 1] == l);
                assert(s[s.len() - 1].index < l.index);
            }
        }
    } else {
        assert forall|i: int| 0 <= i < s.drop_last().len() - 1 implies layer_le(
            #[trigger] s.drop_last()[i],
            s.drop_last()[i + 1],
        ) by {
            assert(layer_le(s[i], s[i + 1]));
        }
        assert forall|i: int| 0 <= i < s.drop_last().len() implies (#[trigger] s.drop_last()[
            i
        ]).index < l.index by {
            assert(s[i].index < l.index);
        }
        lemma_insert_layer_sorted(s.drop_last(), l);
        lemma_insert_layer_len(s.drop_last(), l);
        let q = insert_layer(s.drop_last(), l);
        let r = q.push(s.last());
        // Everything in q is below s.last() in draw order: it is either
        // a former element (sorted before s.last(), whose y exceeds
        // l.y) or l itself (l.y < s.last().y).
        assert forall|i: int| 0 <= i < r.len() - 1 implies layer_le(#[trigger] r[i], r[i + 1]) by {
            if i < q.len() - 1 {
                assert(layer_le(q[i], q[i + 1]));
            } else {
                assert(r[i] == q[q.len() - 1]);
                assert(r[i + 1] == s.last());
                if s.drop_last().len() > 0 {
                    assert(layer_le(s[s.len() - 2], s[s.len() - 1]));
                    assert(s.drop_last().last() == s[s.len() - 2]);
                }
                lemma_insert_last_le(s.drop_last(), l, s.last());
            }
        }
    }
}

/// Helper: the last entry of an insertion is the inserted layer or the
/// list's old last entry, so if both are draw-ordered before `bound`,
/// so is the insertion's last entry.
proof fn lemma_insert_last_le(s: Seq<LayerY>, l: LayerY, bound: LayerY)
    requires
        s.len() > 0 ==> layer_le(s.last(), bound),
        l.y < bound.y,
    ensures
        layer_le(insert_layer(s, l).last(), bound),
{
    if s.len() == 0 {
        assert(insert_layer(s, l) == seq![l]);
        assert(seq![l].last() == l);
    } else if s.last().y <= l.y {
    } else {
    }
}

/// Law: `sort_layers` is a draw-ordered rearrangement. The result is
/// sorted by y-order with equal y-orders in layer order, has one entry
/// per layer, and holds each layer's `(index, y)` pair.
#[verifier::rlimit(100)]
#[verifier::spinoff_prover]
pub proof fn lemma_sort_layers(ys: Seq<i32>)
    requires
        ys.len() <= usize::MAX,
    ensures
        sort_layers(ys).len() == ys.len(),
        layers_sorted(sort_layers(ys)),
        forall|i: int|
            0 <= i < ys.len() ==> sort_layers(ys).contains(
                LayerY { index: i as usize, y: ys[i] },
            ),
        forall|i: int|
            0 <= i < sort_layers(ys).len() ==> (#[trigger] sort_layers(ys)[i]).index < ys.len(),
    decreases ys.len(),
{
    if ys.len() > 0 {
        lemma_sort_layers(ys.drop_last());
        let l = LayerY { index: (ys.len() - 1) as usize, y: ys.last() };
        let s = sort_layers(ys.drop_last());
        assert forall|i: int| 0 <= i < s.len() implies (#[trigger] s[i]).index < l.index by {
            assert(sort_layers(ys.drop_last())[i].index < ys.drop_last().len());
        }
        lemma_insert_layer_sorted(s, l);
        lemma_insert_layer_len(s, l);
        lemma_insert_layer_index_bound(s, l);
        lemma_insert_layer_contains(s, l);
        assert forall|i: int| 0 <= i < ys.len() implies sort_layers(ys).contains(
            LayerY { index: i as usize, y: ys[i] },
        ) by {
            if i < ys.len() - 1 {
                assert(ys.drop_last()[i] == ys[i]);
                assert(sort_layers(ys.drop_last()).contains(
                    LayerY { index: i as usize, y: ys[i] },
                ));
            } else {
                assert(LayerY { index: i as usize, y: ys[i] } == l);
            }
        }
    }
}

/// The draw order of a map's layers, by the y-order convention: greater
/// y-order is drawn later (closer to the foreground).
#[derive(Debug)]
pub struct LayersOrder {
    pub indexes: Vec<LayerY>,
}

impl LayersOrder {
    /// Computes the draw order from the layers' y-order values, one per
    /// layer in layer order.
    pub fn new(layer_orders: &Vec<i32>) -> (r: Self)
        ensures
            r.indexes@ == sort_layers(layer_orders@),
            layers_sorted(r.indexes@),
            r.indexes@.len() == layer_orders@.len(),
    {
        let ghost ys = layer_orders@;
        let mut indexes: Vec<LayerY> = Vec::new();
        let mut i: usize = 0;
        proof {
            assert(ys.take(0) =~= Seq::<i32>::empty());
        }
        while i < layer_orders.len()
            invariant
                0 <= i <= ys.len(),
                ys == layer_orders@,
                indexes@ == sort_layers(ys.take(i as int)),
            decreases ys.len() - i,
        {
            let l = LayerY { index: i, y: layer_orders[i] };
            proof {
                assert(ys.take(i + 1).drop_last() =~= ys.take(i as int));
                assert(ys.take(i + 1).last() == ys[i as int]);
            }
            let mut p: usize = indexes.len();
            proof {
                assert(indexes@.take(indexes@.len() as int) =~= indexes@);
                assert(indexes@.skip(indexes@.len() as int) =~= Seq::<LayerY>::empty());
                assert(insert_layer(indexes@, l) + Seq::<LayerY>::empty() =~= insert_layer(
                    indexes@,
                    l,
                ));
            }
            while p > 0 && indexes[p - 1].y > l.y
                invariant
                    0 <= p <= indexes@.len(),
                    insert_layer(indexes@, l) == insert_layer(indexes@.take(p as int), l)
                        + indexes@.skip(p as int),
                decreases p,
            {
                proof {
                    assert(indexes@.take(p as int).drop_last() =~= indexes@.take(p - 1));
                    assert(indexes@.take(p as int).last() == indexes@[p - 1]);
                    assert(insert_layer(indexes@.take(p - 1), l).push(indexes@[p - 1])
                        + indexes@.skip(p as int) =~= insert_layer(indexes@.take(p - 1), l)
                        + indexes@.skip(p - 1));
                }
                p = p - 1;
            }
            proof {
                if p > 0 {
                    assert(indexes@.take(p as int).last() == indexes@[p - 1]);
                } else {
                    assert(indexes@.take(0) =~= Seq::<LayerY>::empty());
                    assert(seq![l] =~= Seq::<LayerY>::empty().push(l));
                }
                assert(insert_layer(indexes@.take(p as int), l) == indexes@.take(p as int).push(
                    l,
                ));
                assert(indexes@.take(p as int).push(l) + indexes@.skip(p as int)
                    =~= indexes@.insert(p as int, l));
            }
            indexes.insert(p, l);
            i = i + 1;
        }
        proof {
            assert(ys.take(ys.len() as int) =~= ys);
            lemma_sort_layers(ys);
        }
        Self { indexes }
    }

    /// The order to draw the layers in, first to last.
    pub fn order(&self) -> (r: &Vec<LayerY>)
        ensures
            r@ == self.indexes@,
    {
        &self.indexes
    }
}

} // verus!
