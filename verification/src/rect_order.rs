use vstd::prelude::*;

use crate::rectangle::Rectangle;

verus! {

/// The orders in which rectangles are sorted before packing.
#[derive(Debug, Clone, Copy, PartialEq, Eq)]
pub enum RectOrder {
    /// Smallest area first.
    AreaAscending,
    /// Largest area first.
    AreaDescending,
    /// Longest side first, then largest area first.
    MaxSideThenAreaDescending,
}

/// The sort key of a rectangle under `order`; rectangles are sorted by
/// ascending key, compared first component first.
pub open spec fn rank(order: RectOrder, r: Rectangle) -> (int, int) {
    let area = r.width * r.height;
    let side = if r.width >= r.height { r.width as int } else { r.height as int };
    match order {
        RectOrder::AreaAscending => (area, 0),
        RectOrder::AreaDescending => (-area, 0),
        RectOrder::MaxSideThenAreaDescending => (-side, -area),
    }
}

/// `a` sorts strictly before `b`.
pub open spec fn rank_below(order: RectOrder, a: Rectangle, b: Rectangle) -> bool {
    let ka = rank(order, a);
    let kb = rank(order, b);
    ka.0 < kb.0 || (ka.0 == kb.0 && ka.1 < kb.1)
}

/// No element sorts strictly before an earlier one.
pub open spec fn is_sorted_by(order: RectOrder, s: Seq<Rectangle>) -> bool {
    forall|i: int, j: int| 0 <= i < j < s.len() ==> !rank_below(order, #[trigger] s[j], #[trigger] s[i])
}

/// The rectangles of `s` whose key under `order` is `key`, in their order in `s`.
pub open spec fn with_rank(order: RectOrder, s: Seq<Rectangle>, key: (int, int)) -> Seq<Rectangle> {
    s.filter(|x: Rectangle| rank(order, x) == key)
}

/// `out` is `input` sorted stably: in key order, and rectangles of equal key
/// keep their relative order.
pub open spec fn is_stable_sort_of(order: RectOrder, out: Seq<Rectangle>, input: Seq<Rectangle>) -> bool {
    &&& is_sorted_by(order, out)
    &&& forall|key: (int, int)| #[trigger] with_rank(order, out, key) == with_rank(order, input, key)
    &&& out.to_multiset() == input.to_multiset()
    &&& out.len() == input.len()
}

/// What a stable sort under each order puts first, stated on the
/// rectangles' sides: by smaller area (`AreaAscending`), by larger area
/// (`AreaDescending`), or by longer longest side and, among equal longest
/// sides, by larger area (`MaxSideThenAreaDescending`). For every two
/// positions of the output, the earlier rectangle comes first or ties.
pub proof fn lemma_sorted_output_order(order: RectOrder, out: Seq<Rectangle>, input: Seq<Rectangle>)
    requires
        is_stable_sort_of(order, out, input),
    ensures
        forall|i: int, j: int|
            #![trigger out[i], out[j]]
            0 <= i < j < out.len() ==> match order {
                RectOrder::AreaAscending => out[i].width * out[i].height <= out[j].width * out[j].height,
                RectOrder::AreaDescending => out[i].width * out[i].height >= out[j].width * out[j].height,
                RectOrder::MaxSideThenAreaDescending => {
                    let si = if out[i].width >= out[i].height { out[i].width } else { out[i].height };
                    let sj = if out[j].width >= out[j].height { out[j].width } else { out[j].height };
                    si > sj || (si == sj && out[i].width * out[i].height >= out[j].width * out[j].height)
                },
            },
{
    assert forall|i: int, j: int| 0 <= i < j < out.len() implies #[trigger] out[i] == out[i] && !rank_below(
        order,
        #[trigger] out[j],
        out[i],
    ) by {}
}

/// Every rectangle's area fits in a `u32`.
pub open spec fn areas_in_range(s: Seq<Rectangle>) -> bool {
    forall|i: int| 0 <= i < s.len() ==> (#[trigger] s[i]).spec_area() <= u32::MAX
}

/// Whether `a` sorts strictly before `b` under `order`.
fn sorts_before(order: RectOrder, a: &Rectangle, b: &Rectangle) -> (r: bool)
    requires
        a.spec_area() <= u32::MAX,
        b.spec_area() <= u32::MAX,
    ensures
        r == rank_below(order, *a, *b),
{
    match order {
        RectOrder::AreaAscending => a.area() < b.area(),
        RectOrder::AreaDescending => b.area() < a.area(),
        RectOrder::MaxSideThenAreaDescending => {
            let a_max = if a.width >= a.height { a.width } else { a.height };
            let b_max = if b.width >= b.height { b.width } else { b.height };
            b_max < a_max || (b_max == a_max && b.area() < a.area())
        },
    }
}

proof fn lemma_filter_split(order: RectOrder, pre: Seq<Rectangle>, e: Rectangle, suf: Seq<Rectangle>, key: (int, int))
    ensures
        with_rank(order, pre + seq![e] + suf, key) == with_rank(order, pre, key) + with_rank(order, seq![e], key)
            + with_rank(order, suf, key),
        with_rank(order, pre + suf, key) == with_rank(order, pre, key) + with_rank(order, suf, key),
{
    let f = |x: Rectangle| rank(order, x) == key;
    Seq::filter_distributes_over_add(pre + seq![e], suf, f);
    Seq::filter_distributes_over_add(pre, seq![e], f);
    Seq::filter_distributes_over_add(pre, suf, f);
}

proof fn lemma_filter_single(order: RectOrder, e: Rectangle, key: (int, int))
    ensures
        with_rank(order, seq![e], key) == (if rank(order, e) == key { seq![e] } else { Seq::<Rectangle>::empty() }),
{
    reveal_with_fuel(Seq::filter, 2);
    assert(seq![e].drop_last() =~= Seq::<Rectangle>::empty());
}

proof fn lemma_filter_none(order: RectOrder, s: Seq<Rectangle>, key: (int, int))
    requires
        forall|i: int| 0 <= i < s.len() ==> rank(order, #[trigger] s[i]) != key,
    ensures
        with_rank(order, s, key) == Seq::<Rectangle>::empty(),
    decreases s.len(),
{
    reveal(Seq::filter);
    if s.len() > 0 {
        lemma_filter_none(order, s.drop_last(), key);
        assert(rank(order, s[s.len() - 1]) != key);
    }
}

proof fn lemma_with_rank_cons(order: RectOrder, s: Seq<Rectangle>, key: (int, int))
    requires
        s.len() > 0,
    ensures
        with_rank(order, s, key) == (if rank(order, s[0]) == key {
            seq![s[0]]
        } else {
            Seq::<Rectangle>::empty()
        }) + with_rank(order, s.drop_first(), key),
{
    let f = |x: Rectangle| rank(order, x) == key;
    assert(s =~= seq![s[0]] + s.drop_first());
    Seq::filter_distributes_over_add(seq![s[0]], s.drop_first(), f);
    lemma_filter_single(order, s[0], key);
}

/// Where a sequence holds a rectangle of key `key`, its first element's key
/// is at most `key` when the sequence is sorted.
proof fn lemma_sorted_first_lowest(order: RectOrder, s: Seq<Rectangle>, key: (int, int))
    requires
        is_sorted_by(order, s),
        with_rank(order, s, key).len() > 0,
    ensures
        s.len() > 0,
        !(key.0 < rank(order, s[0]).0 || (key.0 == rank(order, s[0]).0 && key.1 < rank(order, s[0]).1)),
{
    if forall|i: int| 0 <= i < s.len() ==> rank(order, #[trigger] s[i]) != key {
        lemma_filter_none(order, s, key);
    }
    let j = choose|j: int| 0 <= j < s.len() && rank(order, #[trigger] s[j]) == key;
    if j > 0 {
        assert(!rank_below(order, s[j], s[0]));
    }
}

/// Two sorted sequences with the same rectangles of each key, in the same
/// order, are equal.
proof fn lemma_sorted_by_ranks_unique(order: RectOrder, a: Seq<Rectangle>, b: Seq<Rectangle>)
    requires
        is_sorted_by(order, a),
        is_sorted_by(order, b),
        a.len() == b.len(),
        forall|key: (int, int)| #[trigger] with_rank(order, a, key) == with_rank(order, b, key),
    ensures
        a == b,
    decreases a.len(),
{
    if a.len() > 0 {
        let ka = rank(order, a[0]);
        let kb = rank(order, b[0]);
        lemma_with_rank_cons(order, a, ka);
        lemma_with_rank_cons(order, b, kb);
        assert(with_rank(order, a, kb) == with_rank(order, b, kb));
        assert(with_rank(order, b, ka) == with_rank(order, a, ka));
        lemma_sorted_first_lowest(order, a, kb);
        lemma_sorted_first_lowest(order, b, ka);
        assert(ka == kb);
        lemma_with_rank_cons(order, a, ka);
        lemma_with_rank_cons(order, b, ka);
        assert(with_rank(order, a, ka)[0] == a[0]);
        assert(with_rank(order, b, ka)[0] == b[0]);
        let a1 = a.drop_first();
        let b1 = b.drop_first();
        assert forall|key: (int, int)| #[trigger] with_rank(order, a1, key) == with_rank(order, b1, key) by {
            lemma_with_rank_cons(order, a, key);
            lemma_with_rank_cons(order, b, key);
            assert(with_rank(order, a, key) == with_rank(order, b, key));
            if key == ka {
                assert(with_rank(order, a1, key) =~= with_rank(order, a, key).drop_first());
                assert(with_rank(order, b1, key) =~= with_rank(order, b, key).drop_first());
            } else {
                assert(with_rank(order, a1, key) =~= with_rank(order, a, key));
                assert(with_rank(order, b1, key) =~= with_rank(order, b, key));
            }
        }
        assert forall|i: int, j: int| 0 <= i < j < a1.len() implies !rank_below(order, #[trigger] a1[j], #[trigger] a1[i]) by {
            assert(a1[i] == a[i + 1] && a1[j] == a[j + 1]);
        }
        assert forall|i: int, j: int| 0 <= i < j < b1.len() implies !rank_below(order, #[trigger] b1[j], #[trigger] b1[i]) by {
            assert(b1[i] == b[i + 1] && b1[j] == b[j + 1]);
        }
        lemma_sorted_by_ranks_unique(order, a1, b1);
        assert(a =~= seq![a[0]] + a1);
        assert(b =~= seq![b[0]] + b1);
    } else {
        assert(a =~= b);
    }
}

/// A stable sort has one result: two stable sorts of the same input under
/// the same order are equal.
pub proof fn lemma_stable_sort_unique(order: RectOrder, a: Seq<Rectangle>, b: Seq<Rectangle>, input: Seq<Rectangle>)
    requires
        is_stable_sort_of(order, a, input),
        is_stable_sort_of(order, b, input),
    ensures
        a == b,
{
    assert forall|key: (int, int)| #[trigger] with_rank(order, a, key) == with_rank(order, b, key) by {
        assert(with_rank(order, a, key) == with_rank(order, input, key));
        assert(with_rank(order, b, key) == with_rank(order, input, key));
    }
    lemma_sorted_by_ranks_unique(order, a, b);
}

proof fn lemma_filter_take_step(order: RectOrder, s: Seq<Rectangle>, i: int, key: (int, int))
    requires
        0 <= i < s.len(),
    ensures
        with_rank(order, s.take(i + 1), key) == with_rank(order, s.take(i), key) + with_rank(order, seq![s[i]], key),
{
    assert(s.take(i + 1) =~= s.take(i) + seq![s[i]]);
    Seq::filter_distributes_over_add(s.take(i), seq![s[i]], |x: Rectangle| rank(order, x) == key);
}

/// Sorts the rectangles by `order`, stably (equal keys keep their order), as
/// a stable `sort_by` would.
pub fn sort_rectangles(rects: &mut Vec<Rectangle>, order: RectOrder)
    requires
        areas_in_range(old(rects)@),
    ensures
        is_stable_sort_of(order, final(rects)@, old(rects)@),
        order == RectOrder::MaxSideThenAreaDescending ==> forall|i: int, j: int|
            #![trigger final(rects)@[i], final(rects)@[j]]
            0 <= i < j < final(rects)@.len() ==> {
                let a = final(rects)@[i];
                let b = final(rects)@[j];
                let sa = if a.width >= a.height { a.width } else { a.height };
                let sb = if b.width >= b.height { b.width } else { b.height };
                sa > sb || (sa == sb && a.width * a.height >= b.width * b.height)
            },
        order == RectOrder::AreaDescending ==> forall|i: int, j: int|
            #![trigger final(rects)@[i], final(rects)@[j]]
            0 <= i < j < final(rects)@.len() ==> final(rects)@[i].width * final(rects)@[i].height
                >= final(rects)@[j].width * final(rects)@[j].height,
        order == RectOrder::AreaAscending ==> forall|i: int, j: int|
            #![trigger final(rects)@[i], final(rects)@[j]]
            0 <= i < j < final(rects)@.len() ==> final(rects)@[i].width * final(rects)@[i].height
                <= final(rects)@[j].width * final(rects)@[j].height,
{
    let ghost input = rects@;
    let n = rects.len();
    let mut out: Vec<Rectangle> = Vec::new();
    let mut i: usize = 0;
    proof {
        assert(input.take(0) =~= Seq::<Rectangle>::empty());
        assert forall|key: (int, int)| #[trigger] with_rank(order, out@, key) == with_rank(order, input.take(0), key) by {
            lemma_filter_none(order, out@, key);
            lemma_filter_none(order, input.take(0), key);
        }
    }
    while i < n
        invariant
            n == input.len(),
            rects@ == input,
            areas_in_range(input),
            i <= n,
            out@.len() == i,
            is_sorted_by(order, out@),
            forall|j: int| 0 <= j < out@.len() ==> (#[trigger] out@[j]).spec_area() <= u32::MAX,
            forall|key: (int, int)| #[trigger] with_rank(order, out@, key) == with_rank(order, input.take(i as int), key),
            out@.to_multiset() == input.take(i as int).to_multiset(),
        decreases n - i,
    {
        let e = rects[i];
        // the place after every element that does not sort strictly after `e`
        let mut p = out.len();
        while p > 0 && sorts_before(order, &e, &out[p - 1])
            invariant
                p <= out@.len(),
                e.spec_area() <= u32::MAX,
                forall|j: int| 0 <= j < out@.len() ==> (#[trigger] out@[j]).spec_area() <= u32::MAX,
                forall|j: int| p <= j < out@.len() ==> rank_below(order, e, #[trigger] out@[j]),
            decreases p,
        {
            p -= 1;
        }
        let ghost old_out = out@;
        proof {
            if p > 0 {
                assert(!rank_below(order, e, old_out[p - 1]));
            }
        }
        out.insert(p, e);
        proof {
            let pre = old_out.subrange(0, p as int);
            let suf = old_out.subrange(p as int, old_out.len() as int);
            assert(out@ =~= pre + seq![e] + suf);
            assert(old_out =~= pre + suf);
            assert forall|a: int, b: int| 0 <= a < b < out@.len() implies !rank_below(order, #[trigger] out@[b], #[trigger] out@[a]) by {
                if a < p && b == p {
                    assert(!rank_below(order, e, old_out[p - 1]));
                    if a < p - 1 {
                        assert(!rank_below(order, old_out[p - 1], old_out[a]));
                    }
                } else if a == p && b > p {
                    assert(rank_below(order, e, old_out[b - 1]));
                } else if a < p && b > p {
                    assert(!rank_below(order, old_out[b - 1], old_out[a]));
                } else if b < p {
                    assert(!rank_below(order, old_out[b], old_out[a]));
                } else {
                    assert(!rank_below(order, old_out[b - 1], old_out[a - 1]));
                }
            }
            assert forall|key: (int, int)| #[trigger] with_rank(order, out@, key) == with_rank(order, input.take(i + 1), key) by {
                lemma_filter_split(order, pre, e, suf, key);
                lemma_filter_single(order, e, key);
                lemma_filter_take_step(order, input, i as int, key);
                assert(input[i as int] == e);
                if rank(order, e) == key {
                    assert forall|j: int| 0 <= j < suf.len() implies rank(order, #[trigger] suf[j]) != key by {
                        assert(suf[j] == old_out[p + j]);
                        assert(rank_below(order, e, old_out[p + j]));
                    }
                    lemma_filter_none(order, suf, key);
                    assert(with_rank(order, pre, key) + seq![e] + Seq::<Rectangle>::empty() =~= (with_rank(order, pre, key) + Seq::<Rectangle>::empty()) + seq![e]);
                } else {
                    assert(with_rank(order, pre, key) + Seq::<Rectangle>::empty() + with_rank(order, suf, key) =~= with_rank(order, pre, key) + with_rank(order, suf, key));
                }
            }
            vstd::seq_lib::to_multiset_insert(old_out, p as int, e);
            assert(input.take(i + 1) =~= input.take(i as int).push(e));
            vstd::seq_lib::to_multiset_build(input.take(i as int), e);
            assert(old_out.insert(p as int, e) =~= out@);
        }
        i += 1;
    }
    proof {
        assert(input.take(n as int) =~= input);
    }
    *rects = out;
    proof {
        lemma_sorted_output_order(order, rects@, input);
    }
}

/// Whether every rectangle's area fits in a `u32` (see `areas_in_range`).
pub fn areas_fit(rects: &[Rectangle]) -> (r: bool)
    ensures
        r == areas_in_range(rects@),
{
    let n = rects.len();
    let mut i: usize = 0;
    while i < n
        invariant
            n == rects@.len(),
            i <= n,
            forall|j: int| 0 <= j < i ==> (#[trigger] rects@[j]).spec_area() <= u32::MAX,
        decreases n - i,
    {
        let w = rects[i].width as u64;
        let h = rects[i].height as u64;
        assert(w * h <= u32::MAX * u32::MAX) by (nonlinear_arith)
            requires
                w <= u32::MAX,
                h <= u32::MAX,
        ;
        if w * h > u32::MAX as u64 {
            return false;
        }
        i += 1;
    }
    true
}

} // verus!
