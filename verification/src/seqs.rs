//! Facts about selecting from sequences and joining them.
use vstd::prelude::*;

verus! {

/// The selection made by `p` and then, from what it gives, by `q`.
pub open spec fn pick_both<X, Y, Z>(
    p: spec_fn(X) -> Option<Y>,
    q: spec_fn(Y) -> Option<Z>,
) -> spec_fn(X) -> Option<Z> {
    |x: X|
        match p(x) {
            Some(y) => q(y),
            None => None,
        }
}

/// The sequences `g(i)`, for the `i` in `order`, joined in that order.
pub open spec fn joined<X>(order: Seq<int>, g: spec_fn(int) -> Seq<X>) -> Seq<X>
    decreases order.len(),
{
    if order.len() == 0 {
        Seq::empty()
    } else {
        joined(order.drop_last(), g) + g(order.last())
    }
}

/// The numbers from `a` up to, not including, `b`.
pub open spec fn upto(a: int, b: int) -> Seq<int> {
    Seq::new(
        if a <= b {
            (b - a) as nat
        } else {
            0
        },
        |i: int| a + i,
    )
}

pub proof fn lemma_pick_add<X, Y>(a: Seq<X>, b: Seq<X>, p: spec_fn(X) -> Option<Y>)
    ensures
        (a + b).filter_map(p) == a.filter_map(p) + b.filter_map(p),
    decreases b.len(),
{
    if b.len() == 0 {
        assert(a + b =~= a);
    } else {
        lemma_pick_add(a, b.drop_last(), p);
        assert((a + b).drop_last() =~= a + b.drop_last());
    }
}

pub proof fn lemma_pick_pick<X, Y, Z>(
    s: Seq<X>,
    p: spec_fn(X) -> Option<Y>,
    q: spec_fn(Y) -> Option<Z>,
)
    ensures
        s.filter_map(p).filter_map(q) == s.filter_map(pick_both(p, q)),
    decreases s.len(),
{
    if s.len() > 0 {
        lemma_pick_pick(s.drop_last(), p, q);
        let rest = s.drop_last().filter_map(p);
        match p(s.last()) {
            Some(y) => {
                assert((rest + seq![y]).drop_last() =~= rest);
            },
            None => {},
        }
    }
}

pub proof fn lemma_pick_same<X, Y>(
    s: Seq<X>,
    p: spec_fn(X) -> Option<Y>,
    q: spec_fn(X) -> Option<Y>,
)
    requires
        forall|i: int| 0 <= i < s.len() ==> p(#[trigger] s[i]) == q(s[i]),
    ensures
        s.filter_map(p) == s.filter_map(q),
    decreases s.len(),
{
    if s.len() > 0 {
        let r = s.drop_last();
        assert forall|i: int| 0 <= i < r.len() implies p(#[trigger] r[i]) == q(r[i]) by {
            assert(r[i] == s[i]);
        }
        lemma_pick_same(r, p, q);
        assert(s.last() == s[s.len() - 1]);
    }
}

pub proof fn lemma_pick_mapped<X, W, Y>(
    s: Seq<X>,
    m: spec_fn(X) -> W,
    p: spec_fn(W) -> Option<Y>,
)
    ensures
        s.map_values(m).filter_map(p) == s.filter_map(|x: X| p(m(x))),
    decreases s.len(),
{
    if s.len() > 0 {
        lemma_pick_mapped(s.drop_last(), m, p);
        assert(s.map_values(m).drop_last() =~= s.drop_last().map_values(m));
    }
}

/// Selecting from a single element.
pub proof fn lemma_one_pick<X, Y>(x: X, p: spec_fn(X) -> Option<Y>)
    ensures
        seq![x].filter_map(p) == (match p(x) {
            Some(y) => seq![y],
            None => Seq::empty(),
        }),
{
    assert(seq![x].drop_last() =~= Seq::empty());
    assert(seq![x].drop_last().filter_map(p) =~= Seq::empty());
    assert(seq![x].filter_map(p) =~= match p(x) {
        Some(y) => seq![y],
        None => Seq::empty(),
    });
}

/// What is selected was selected from somewhere.
pub proof fn lemma_pick_from<X, Y>(s: Seq<X>, p: spec_fn(X) -> Option<Y>, y: Y) -> (i: int)
    requires
        s.filter_map(p).contains(y),
    ensures
        0 <= i < s.len(),
        p(s[i]) == Some(y),
    decreases s.len(),
{
    if s.len() == 0 {
        0
    } else {
        let n = s.len() - 1;
        if p(s.last()) == Some(y) {
            n
        } else {
            let rest = s.drop_last().filter_map(p);
            let j = choose|j: int| 0 <= j < s.filter_map(p).len() && s.filter_map(p)[j] == y;
            assert(rest.contains(y)) by {
                assert(rest[j] == y);
            }
            lemma_pick_from(s.drop_last(), p, y)
        }
    }
}

pub proof fn lemma_joined_add<X>(a: Seq<int>, b: Seq<int>, g: spec_fn(int) -> Seq<X>)
    ensures
        joined(a + b, g) == joined(a, g) + joined(b, g),
    decreases b.len(),
{
    if b.len() == 0 {
        assert(a + b =~= a);
    } else {
        lemma_joined_add(a, b.drop_last(), g);
        assert((a + b).drop_last() =~= a + b.drop_last());
    }
}

pub proof fn lemma_joined_pick<X, Y>(
    order: Seq<int>,
    g: spec_fn(int) -> Seq<X>,
    h: spec_fn(int) -> Seq<Y>,
    p: spec_fn(X) -> Option<Y>,
)
    requires
        forall|i: int| order.contains(i) ==> g(i).filter_map(p) == #[trigger] h(i),
    ensures
        joined(order, g).filter_map(p) == joined(order, h),
    decreases order.len(),
{
    if order.len() > 0 {
        let r = order.drop_last();
        assert forall|i: int| r.contains(i) implies g(i).filter_map(p) == #[trigger] h(i) by {
            let j = choose|j: int| 0 <= j < r.len() && r[j] == i;
            assert(order[j] == i);
        }
        lemma_joined_pick(r, g, h, p);
        lemma_pick_add(joined(r, g), g(order.last()), p);
        assert(order[order.len() - 1] == order.last());
        assert(order.contains(order.last()));
    }
}

pub proof fn lemma_upto_split(a: int, b: int, c: int)
    requires
        a <= b <= c,
    ensures
        upto(a, c) == upto(a, b) + upto(b, c),
{
    assert(upto(a, c) =~= upto(a, b) + upto(b, c));
}

/// Folding over a joined sequence folds over its pieces in turn.
pub proof fn lemma_fold_add<X, Y>(a: Seq<X>, b: Seq<X>, y: Y, f: spec_fn(Y, X) -> Y)
    ensures
        (a + b).fold_left(y, f) == b.fold_left(a.fold_left(y, f), f),
    decreases b.len(),
{
    if b.len() == 0 {
        assert(a + b =~= a);
    } else {
        lemma_fold_add(a, b.drop_last(), y, f);
        assert((a + b).drop_last() =~= a + b.drop_last());
    }
}

/// What is in a joined sequence comes from one of the pieces.
pub proof fn lemma_joined_from<X>(order: Seq<int>, g: spec_fn(int) -> Seq<X>, m: int) -> (r: (
    int,
    int,
))
    requires
        0 <= m < joined(order, g).len(),
    ensures
        order.contains(r.0),
        0 <= r.1 < g(r.0).len(),
        g(r.0)[r.1] == joined(order, g)[m],
    decreases order.len(),
{
    let before = order.drop_last();
    let n = joined(before, g).len();
    if m < n {
        let r = lemma_joined_from(before, g, m);
        let p = choose|p: int| 0 <= p < before.len() && before[p] == r.0;
        assert(order[p] == r.0);
        r
    } else {
        assert(order[order.len() - 1] == order.last());
        (order.last(), m - n)
    }
}

/// Counting from `a` instead of from zero.
pub proof fn lemma_joined_shift<X>(
    a: int,
    b: int,
    g: spec_fn(int) -> Seq<X>,
    h: spec_fn(int) -> Seq<X>,
)
    requires
        a <= b,
        forall|i: int| 0 <= i < b - a ==> #[trigger] g(i) == h(a + i),
    ensures
        joined(upto(0, b - a), g) == joined(upto(a, b), h),
    decreases b - a,
{
    if a < b {
        lemma_joined_shift(a, b - 1, g, h);
        assert(upto(0, b - a).drop_last() =~= upto(0, b - a - 1));
        assert(upto(a, b).drop_last() =~= upto(a, b - 1));
        assert(g(b - a - 1) == h(b - 1));
    } else {
        assert(upto(0, b - a) =~= Seq::<int>::empty());
        assert(upto(a, b) =~= Seq::<int>::empty());
    }
}

/// Following one component of a folded value: `view` gives the component, and `pick` what
/// each step does to it, if anything.
pub proof fn lemma_fold_component<P, X, A, Y>(
    ts: Seq<X>,
    p: P,
    run: spec_fn(P, X) -> P,
    ok: spec_fn(P) -> bool,
    view: spec_fn(P) -> A,
    pick: spec_fn(X) -> Option<Y>,
    apply: spec_fn(A, Y) -> A,
)
    requires
        ok(p),
        forall|i: int, q: P|
            #![trigger run(q, ts[i])]
            0 <= i < ts.len() && ok(q) ==> {
                &&& ok(run(q, ts[i]))
                &&& view(run(q, ts[i])) == (match pick(ts[i]) {
                    Some(y) => apply(view(q), y),
                    None => view(q),
                })
            },
    ensures
        ok(ts.fold_left(p, run)),
        view(ts.fold_left(p, run)) == ts.filter_map(pick).fold_left(view(p), apply),
    decreases ts.len(),
{
    if ts.len() > 0 {
        let r = ts.drop_last();
        assert forall|i: int, q: P|
            #![trigger run(q, r[i])]
            0 <= i < r.len() && ok(q) implies {
            &&& ok(run(q, r[i]))
            &&& view(run(q, r[i])) == (match pick(r[i]) {
                Some(y) => apply(view(q), y),
                None => view(q),
            })
        } by {
            assert(r[i] == ts[i]);
        }
        lemma_fold_component(r, p, run, ok, view, pick, apply);
        let q = r.fold_left(p, run);
        assert(ts[ts.len() - 1] == ts.last());
        assert(ok(run(q, ts[ts.len() - 1])));
        match pick(ts.last()) {
            Some(y) => {
                let picked = r.filter_map(pick) + seq![y];
                assert(picked.drop_last() =~= r.filter_map(pick));
                assert(picked.last() == y);
            },
            None => {},
        }
    }
}

/// Joining when only one index contributes.
pub proof fn lemma_joined_single<X>(order: Seq<int>, g: spec_fn(int) -> Seq<X>, x: int)
    requires
        order.no_duplicates(),
        forall|i: int| order.contains(i) && i != x ==> #[trigger] g(i) == Seq::<X>::empty(),
    ensures
        joined(order, g) == (if order.contains(x) {
            g(x)
        } else {
            Seq::empty()
        }),
    decreases order.len(),
{
    if order.len() > 0 {
        let r = order.drop_last();
        assert forall|i: int| #[trigger] r.contains(i) implies order.contains(i) by {
            let p = choose|p: int| 0 <= p < r.len() && r[p] == i;
            assert(order[p] == i);
        }
        assert(order[order.len() - 1] == order.last());
        assert(order.contains(order.last()));
        lemma_joined_single(r, g, x);
        if order.contains(x) {
            let p = choose|p: int| 0 <= p < order.len() && order[p] == x;
            if p < r.len() {
                assert(r[p] == x);
                assert(r.contains(x));
            }
        }
        if r.contains(x) {
            let p = choose|p: int| 0 <= p < r.len() && r[p] == x;
            assert(order[p] == x);
        }
    }
    assert(joined(order, g) =~= if order.contains(x) {
        g(x)
    } else {
        Seq::empty()
    });
}

/// Selecting nothing.
pub proof fn lemma_pick_none<X, Y>(s: Seq<X>, p: spec_fn(X) -> Option<Y>)
    requires
        forall|i: int| 0 <= i < s.len() ==> p(#[trigger] s[i]) is None,
    ensures
        s.filter_map(p) == Seq::<Y>::empty(),
    decreases s.len(),
{
    if s.len() > 0 {
        let r = s.drop_last();
        assert forall|i: int| 0 <= i < r.len() implies p(#[trigger] r[i]) is None by {
            assert(r[i] == s[i]);
        }
        lemma_pick_none(r, p);
        assert(p(s[s.len() - 1]) is None);
    }
}

/// Selecting one element.
pub proof fn lemma_pick_only<X, Y>(s: Seq<X>, p: spec_fn(X) -> Option<Y>, k: int, y: Y)
    requires
        0 <= k < s.len(),
        p(s[k]) == Some(y),
        forall|i: int| 0 <= i < s.len() && i != k ==> p(#[trigger] s[i]) is None,
    ensures
        s.filter_map(p) == seq![y],
{
    let a = s.take(k);
    let b = s.skip(k + 1);
    assert(s =~= a + seq![s[k]] + b);
    lemma_pick_add(a + seq![s[k]], b, p);
    lemma_pick_add(a, seq![s[k]], p);
    lemma_pick_none(a, p);
    lemma_pick_none(b, p);
    lemma_one_pick(s[k], p);
    assert(s.filter_map(p) =~= seq![y]);
}

/// Selecting two elements.
pub proof fn lemma_pick_two<X, Y>(
    s: Seq<X>,
    p: spec_fn(X) -> Option<Y>,
    k: int,
    l: int,
    y: Y,
    z: Y,
)
    requires
        0 <= k < l < s.len(),
        p(s[k]) == Some(y),
        p(s[l]) == Some(z),
        forall|i: int| 0 <= i < s.len() && i != k && i != l ==> p(#[trigger] s[i]) is None,
    ensures
        s.filter_map(p) == seq![y, z],
{
    let a = s.take(l);
    let b = s.skip(l);
    assert(s =~= a + b);
    lemma_pick_add(a, b, p);
    lemma_pick_only(a, p, k, y);
    lemma_pick_only(b, p, 0, z);
    assert(s.filter_map(p) =~= seq![y, z]);
}

/// Joining when only two indices contribute, those at places `a` and `b` of the order.
pub proof fn lemma_joined_two<X>(order: Seq<int>, g: spec_fn(int) -> Seq<X>, a: int, b: int)
    requires
        order.no_duplicates(),
        0 <= a < b < order.len(),
        forall|i: int|
            order.contains(i) && i != order[a] && i != order[b] ==> #[trigger] g(i) == Seq::<
                X,
            >::empty(),
    ensures
        joined(order, g) == g(order[a]) + g(order[b]),
{
    let front = order.take(b);
    let back = order.skip(b);
    assert(order =~= front + back);
    lemma_joined_add(front, back, g);
    assert forall|i: int| front.contains(i) && i != order[a] implies #[trigger] g(i) == Seq::<
        X,
    >::empty() by {
        let p = choose|p: int| 0 <= p < front.len() && front[p] == i;
        assert(order[p] == i);
        assert(order.contains(i));
    }
    assert forall|i: int| back.contains(i) && i != order[b] implies #[trigger] g(i) == Seq::<
        X,
    >::empty() by {
        let p = choose|p: int| 0 <= p < back.len() && back[p] == i;
        assert(order[b + p] == i);
        assert(order.contains(i));
    }
    assert(front[a] == order[a]);
    assert(front.contains(order[a]));
    assert(back[0] == order[b]);
    assert(back.contains(order[b]));
    lemma_joined_single(front, g, order[a]);
    lemma_joined_single(back, g, order[b]);
}

/// The last element that is selected, and what is selected without it.
pub proof fn lemma_pick_last<X, Y>(s: Seq<X>, p: spec_fn(X) -> Option<Y>, k: int, y: Y)
    requires
        0 <= k < s.len(),
        p(s[k]) == Some(y),
        forall|i: int| k < i < s.len() ==> p(#[trigger] s[i]) is None,
    ensures
        s.filter_map(p) == s.remove(k).filter_map(p).push(y),
{
    let a = s.take(k);
    let b = s.skip(k + 1);
    assert(s =~= a + seq![s[k]] + b);
    assert(s.remove(k) =~= a + b);
    lemma_pick_add(a + seq![s[k]], b, p);
    lemma_pick_add(a, seq![s[k]], p);
    lemma_pick_add(a, b, p);
    lemma_pick_none(b, p);
    lemma_one_pick(s[k], p);
    assert(s.filter_map(p) =~= s.remove(k).filter_map(p).push(y));
}

/// Joining, when one index contributes one element more at its end, and the indices after it
/// contribute nothing.
pub proof fn lemma_joined_push<X>(
    order: Seq<int>,
    g: spec_fn(int) -> Seq<X>,
    h: spec_fn(int) -> Seq<X>,
    a: int,
    y: X,
)
    requires
        0 <= a < order.len(),
        forall|q: int| 0 <= q < order.len() && q != a ==> g(#[trigger] order[q]) == h(order[q]),
        forall|q: int| a < q < order.len() ==> h(#[trigger] order[q]) == Seq::<X>::empty(),
        g(order[a]) == h(order[a]).push(y),
    ensures
        joined(order, g) == joined(order, h).push(y),
    decreases order.len(),
{
    let r = order.drop_last();
    let n = order.len() - 1;
    assert forall|q: int| 0 <= q < r.len() && q != a implies g(#[trigger] r[q]) == h(r[q]) by {
        assert(r[q] == order[q]);
    }
    assert(order.last() == order[n]);
    if a == n {
        lemma_joined_same(r, g, h);
    } else {
        assert forall|q: int| a < q < r.len() implies h(#[trigger] r[q]) == Seq::<X>::empty() by {
            assert(r[q] == order[q]);
        }
        assert(r[a] == order[a]);
        lemma_joined_push(r, g, h, a, y);
        assert(h(order[n]) == Seq::<X>::empty());
    }
    assert(joined(order, g) =~= joined(order, h).push(y));
}

proof fn lemma_joined_same<X>(order: Seq<int>, g: spec_fn(int) -> Seq<X>, h: spec_fn(int) -> Seq<X>)
    requires
        forall|q: int| 0 <= q < order.len() ==> g(#[trigger] order[q]) == h(order[q]),
    ensures
        joined(order, g) == joined(order, h),
    decreases order.len(),
{
    if order.len() > 0 {
        let r = order.drop_last();
        assert forall|q: int| 0 <= q < r.len() implies g(#[trigger] r[q]) == h(r[q]) by {
            assert(r[q] == order[q]);
        }
        lemma_joined_same(r, g, h);
        assert(order.last() == order[order.len() - 1]);
    }
}

/// Where the last of the joined elements comes from.
pub proof fn lemma_joined_last<X>(order: Seq<int>, g: spec_fn(int) -> Seq<X>) -> (a: int)
    requires
        joined(order, g).len() > 0,
    ensures
        0 <= a < order.len(),
        g(order[a]).len() > 0,
        joined(order, g).last() == g(order[a]).last(),
        forall|q: int| a < q < order.len() ==> g(#[trigger] order[q]) == Seq::<X>::empty(),
    decreases order.len(),
{
    let n = order.len() - 1;
    assert(order.last() == order[n]);
    if g(order[n]).len() > 0 {
        n
    } else {
        let r = order.drop_last();
        assert(g(order[n]) =~= Seq::<X>::empty());
        assert(joined(order, g) =~= joined(r, g));
        let a = lemma_joined_last(r, g);
        assert(r[a] == order[a]);
        assert forall|q: int| a < q < order.len() implies g(#[trigger] order[q]) == Seq::<
            X,
        >::empty() by {
            if q < n {
                assert(r[q] == order[q]);
            }
        }
        a
    }
}

} // verus!
