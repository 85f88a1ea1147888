//! The rules of price-time priority matching, stated over plain values.
//!
//! One side of a book is a map from a level key to the orders resting at that
//! level, in arrival order.  Levels are served in increasing key order (a book
//! keys its bids so that higher prices come first), and within a level in
//! arrival order; that serving order is the side's queue.  An incoming order
//! fills the orders at the front of the queue that its limit reaches, each as
//! far as its remaining amount allows.
use vstd::prelude::*;

verus! {

/// A key of a price level: levels are served in increasing order of rank,
/// and distinct keys have distinct ranks.
pub trait LevelKey: Sized {
    spec fn rank(self) -> int;

    proof fn lemma_rank_injective(a: Self, b: Self)
        ensures
            a.rank() == b.rank() ==> a == b,
    ;
}

impl LevelKey for u32 {
    open spec fn rank(self) -> int {
        self as int
    }

    proof fn lemma_rank_injective(a: Self, b: Self) {
    }
}

impl LevelKey for u64 {
    open spec fn rank(self) -> int {
        self as int
    }

    proof fn lemma_rank_injective(a: Self, b: Self) {
    }
}

/// `ks` lists the keys of `dom` in increasing order.
pub open spec fn is_sorted_keys<K: LevelKey>(ks: Seq<K>, dom: Set<K>) -> bool {
    &&& forall|i: int, j: int| 0 <= i < j < ks.len() ==> ks[i].rank() < ks[j].rank()
    &&& forall|k: K| dom.contains(k) <==> ks.contains(k)
}

/// The keys of `dom` in increasing order.
pub open spec fn sorted_keys<K: LevelKey>(dom: Set<K>) -> Seq<K> {
    choose|ks: Seq<K>| is_sorted_keys(ks, dom)
}

/// The sequences of `s`, one after the other.
pub open spec fn flatten(s: Seq<Seq<int>>) -> Seq<int>
    decreases s.len(),
{
    if s.len() == 0 {
        Seq::empty()
    } else {
        s[0] + flatten(s.drop_first())
    }
}

/// The orders of the levels `ks` of `levels`, in that order.
pub open spec fn queue_of<K: LevelKey>(levels: Map<K, Seq<int>>, ks: Seq<K>) -> Seq<int> {
    flatten(ks.map_values(|k: K| levels[k]))
}

/// The serving order of one side of a book: its levels in increasing key
/// order, each in arrival order.
pub open spec fn side_queue<K: LevelKey>(levels: Map<K, Seq<int>>) -> Seq<int> {
    queue_of(levels, sorted_keys(levels.dom()))
}

/// The amounts of a queue after an incoming amount `rem` fills it from the front.
pub open spec fn fill_amounts(amounts: Seq<nat>, rem: nat) -> Seq<nat>
    decreases amounts.len(),
{
    if amounts.len() == 0 {
        Seq::empty()
    } else {
        let f = if amounts[0] <= rem { amounts[0] } else { rem };
        seq![(amounts[0] - f) as nat] + fill_amounts(amounts.drop_first(), (rem - f) as nat)
    }
}

/// What is left of the incoming amount `rem` after it fills the queue.
pub open spec fn fill_left(amounts: Seq<nat>, rem: nat) -> nat
    decreases amounts.len(),
{
    if amounts.len() == 0 {
        rem
    } else {
        let f = if amounts[0] <= rem { amounts[0] } else { rem };
        fill_left(amounts.drop_first(), (rem - f) as nat)
    }
}

/// How many orders at the front of the queue the incoming amount `rem`
/// reaches and fills completely; these leave the book.
pub open spec fn fill_count(amounts: Seq<nat>, rem: nat) -> nat
    decreases amounts.len(),
{
    if amounts.len() == 0 || rem == 0 {
        0
    } else if amounts[0] <= rem {
        1 + fill_count(amounts.drop_first(), (rem - amounts[0]) as nat)
    } else {
        0
    }
}

/// Keys in increasing order are unique for their set.
pub proof fn lemma_sorted_keys_unique<K: LevelKey>(a: Seq<K>, b: Seq<K>, dom: Set<K>)
    requires
        is_sorted_keys(a, dom),
        is_sorted_keys(b, dom),
    ensures
        a == b,
    decreases a.len(),
{
    if a.len() == 0 {
        if b.len() > 0 {
            assert(b.contains(b[0]));
        }
        assert(a =~= b);
    } else {
        assert(a.contains(a[0]));
        assert(b.len() > 0);
        assert(b.contains(b[0]));
        let ia = choose|i: int| 0 <= i < a.len() && a[i] == b[0];
        let ib = choose|i: int| 0 <= i < b.len() && b[i] == a[0];
        assert(a[0].rank() <= a[ia].rank());
        assert(b[0].rank() <= b[ib].rank());
        assert(a[0] == b[0]);
        let d2 = dom.remove(a[0]);
        assert forall|k: K| d2.contains(k) <==> a.drop_first().contains(k) by {
            if d2.contains(k) {
                let i = choose|i: int| 0 <= i < a.len() && a[i] == k;
                assert(i != 0);
                assert(a.drop_first()[i - 1] == k);
            }
            if a.drop_first().contains(k) {
                let i = choose|i: int| 0 <= i < a.len() - 1 && a.drop_first()[i] == k;
                assert(a[i + 1] == k);
                assert(a[0].rank() < a[i + 1].rank());
            }
        }
        assert forall|k: K| d2.contains(k) <==> b.drop_first().contains(k) by {
            if d2.contains(k) {
                let i = choose|i: int| 0 <= i < b.len() && b[i] == k;
                assert(i != 0);
                assert(b.drop_first()[i - 1] == k);
            }
            if b.drop_first().contains(k) {
                let i = choose|i: int| 0 <= i < b.len() - 1 && b.drop_first()[i] == k;
                assert(b[i + 1] == k);
                assert(b[0].rank() < b[i + 1].rank());
            }
        }
        lemma_sorted_keys_unique(a.drop_first(), b.drop_first(), d2);
        assert(a =~= seq![a[0]] + a.drop_first());
        assert(b =~= seq![b[0]] + b.drop_first());
    }
}

/// Inserts `x` into the increasing sequence `ks` at its place.
pub open spec fn insert_sorted<K: LevelKey>(ks: Seq<K>, x: K) -> Seq<K>
    decreases ks.len(),
{
    if ks.len() == 0 {
        seq![x]
    } else if x.rank() < ks[0].rank() {
        seq![x] + ks
    } else {
        seq![ks[0]] + insert_sorted(ks.drop_first(), x)
    }
}

pub proof fn lemma_insert_sorted<K: LevelKey>(ks: Seq<K>, dom: Set<K>, x: K)
    requires
        is_sorted_keys(ks, dom),
        !dom.contains(x),
    ensures
        is_sorted_keys(insert_sorted(ks, x), dom.insert(x)),
        insert_sorted(ks, x).len() == ks.len() + 1,
    decreases ks.len(),
{
    let r = insert_sorted(ks, x);
    if ks.len() == 0 {
        assert forall|k: K| dom.insert(x).contains(k) <==> r.contains(k) by {
            if r.contains(k) {
                assert(r[0] == x);
            }
            if dom.contains(k) {
                assert(ks.contains(k));
            }
            if k == x {
                assert(r[0] == x);
            }
        }
    } else if x.rank() < ks[0].rank() {
        assert forall|i: int, j: int| 0 <= i < j < r.len() implies r[i].rank() < r[j].rank() by {
            if i > 0 {
                assert(r[i] == ks[i - 1]);
            } else {
                assert(ks[0].rank() <= ks[j - 1].rank());
            }
            assert(r[j] == ks[j - 1]);
        }
        assert forall|k: K| dom.insert(x).contains(k) <==> r.contains(k) by {
            if r.contains(k) {
                let i = choose|i: int| 0 <= i < r.len() && r[i] == k;
                if i > 0 {
                    assert(ks[i - 1] == k);
                }
            }
            if dom.contains(k) {
                let i = choose|i: int| 0 <= i < ks.len() && ks[i] == k;
                assert(r[i + 1] == k);
            }
            if k == x {
                assert(r[0] == x);
            }
        }
    } else {
        let d2 = dom.remove(ks[0]);
        let t = ks.drop_first();
        assert(ks.contains(ks[0]));
        assert forall|k: K| d2.contains(k) <==> t.contains(k) by {
            if d2.contains(k) {
                let i = choose|i: int| 0 <= i < ks.len() && ks[i] == k;
                assert(i != 0);
                assert(t[i - 1] == k);
            }
            if t.contains(k) {
                let i = choose|i: int| 0 <= i < t.len() && t[i] == k;
                assert(ks[i + 1] == k);
                assert(ks[0].rank() < ks[i + 1].rank());
            }
        }
        assert(x != ks[0]);
        K::lemma_rank_injective(x, ks[0]);
        lemma_insert_sorted(t, d2, x);
        let r2 = insert_sorted(t, x);
        assert(r == seq![ks[0]] + r2);
        assert forall|i: int, j: int| 0 <= i < j < r.len() implies r[i].rank() < r[j].rank() by {
            if i == 0 {
                assert(r[j] == r2[j - 1]);
                assert(r2.contains(r2[j - 1]));
                assert(d2.insert(x).contains(r2[j - 1]));
                if r2[j - 1] != x {
                    let m = choose|m: int| 0 <= m < t.len() && t[m] == r2[j - 1];
                    assert(ks[0].rank() < ks[m + 1].rank());
                }
            } else {
                assert(r[i] == r2[i - 1]);
                assert(r[j] == r2[j - 1]);
            }
        }
        assert forall|k: K| dom.insert(x).contains(k) <==> r.contains(k) by {
            if r.contains(k) {
                let i = choose|i: int| 0 <= i < r.len() && r[i] == k;
                if i > 0 {
                    assert(r2[i - 1] == k);
                    assert(r2.contains(k));
                }
            }
            if dom.insert(x).contains(k) {
                if k == ks[0] {
                    assert(r[0] == k);
                } else {
                    assert(d2.insert(x).contains(k));
                    assert(r2.contains(k));
                    let i = choose|i: int| 0 <= i < r2.len() && r2[i] == k;
                    assert(r[i + 1] == k);
                }
            }
        }
    }
}

/// Every finite set of keys can be listed in increasing order.
pub proof fn lemma_sorted_keys_exist<K: LevelKey>(dom: Set<K>)
    requires
        dom.finite(),
    ensures
        is_sorted_keys(sorted_keys(dom), dom),
    decreases dom.len(),
{
    if dom.len() == 0 {
        assert(dom =~= Set::<K>::empty());
        assert(is_sorted_keys(Seq::<K>::empty(), dom));
    } else {
        let x = dom.choose();
        let d2 = dom.remove(x);
        lemma_sorted_keys_exist(d2);
        lemma_insert_sorted(sorted_keys(d2), d2, x);
        assert(d2.insert(x) =~= dom);
        assert(is_sorted_keys(insert_sorted(sorted_keys(d2), x), dom));
    }
}

/// The sorted keys of `dom` are the given increasing listing.
pub proof fn lemma_sorted_keys_is<K: LevelKey>(ks: Seq<K>, dom: Set<K>)
    requires
        is_sorted_keys(ks, dom),
    ensures
        sorted_keys(dom) == ks,
{
    lemma_sorted_keys_unique(sorted_keys(dom), ks, dom);
}

/// The levels after the order at the front of the serving queue leaves: the
/// first level loses its first order, and leaves if that was its last one.
pub open spec fn drop_head<K: LevelKey>(levels: Map<K, Seq<int>>) -> Map<K, Seq<int>> {
    let ks = sorted_keys(levels.dom());
    if ks.len() == 0 {
        levels
    } else {
        let k = ks[0];
        let lv = levels[k];
        if lv.len() <= 1 {
            levels.remove(k)
        } else {
            levels.insert(k, lv.drop_first())
        }
    }
}

/// The levels after the first `n` orders of the serving queue leave.
pub open spec fn drop_queue<K: LevelKey>(levels: Map<K, Seq<int>>, n: nat) -> Map<K, Seq<int>>
    decreases n,
{
    if n == 0 {
        levels
    } else {
        drop_head(drop_queue(levels, (n - 1) as nat))
    }
}

/// Dropping orders from the front of the queue only empties or shortens
/// levels: every level left was there before.
pub proof fn lemma_drop_queue_keys<K: LevelKey>(levels: Map<K, Seq<int>>, n: nat)
    requires
        levels.dom().finite(),
    ensures
        drop_queue(levels, n).dom().finite(),
        forall|k: K| #[trigger] drop_queue(levels, n).contains_key(k) ==> levels.contains_key(k),
    decreases n,
{
    if n > 0 {
        lemma_drop_queue_keys(levels, (n - 1) as nat);
        let m = drop_queue(levels, (n - 1) as nat);
        lemma_sorted_keys_exist(m.dom());
        let ks = sorted_keys(m.dom());
        if ks.len() > 0 {
            assert(ks.contains(ks[0]));
            assert(m.dom().contains(ks[0]));
            let lv = m[ks[0]];
            if lv.len() <= 1 {
                assert(m.remove(ks[0]).dom() =~= m.dom().remove(ks[0]));
            } else {
                assert(m.insert(ks[0], lv.drop_first()).dom() =~= m.dom());
            }
        }
    }
}

/// A side without levels serves no order.
pub proof fn lemma_side_queue_empty<K: LevelKey>(levels: Map<K, Seq<int>>)
    requires
        forall|k: K| !levels.contains_key(k),
    ensures
        side_queue(levels) == Seq::<int>::empty(),
{
    lemma_sorted_keys_is(Seq::<K>::empty(), levels.dom());
    assert(Seq::<K>::empty().map_values(|k: K| levels[k]) =~= Seq::<Seq<int>>::empty());
}

/// A side with the single level `k` serves the orders of that level.
pub proof fn lemma_side_queue_single<K: LevelKey>(levels: Map<K, Seq<int>>, k: K)
    requires
        forall|j: K| levels.contains_key(j) <==> j == k,
    ensures
        sorted_keys(levels.dom()) == seq![k],
        side_queue(levels) == levels[k],
        drop_head(levels) == (if levels[k].len() <= 1 {
            levels.remove(k)
        } else {
            levels.insert(k, levels[k].drop_first())
        }),
{
    let ks = seq![k];
    assert(ks.contains(k)) by {
        assert(ks[0] == k);
    }
    lemma_sorted_keys_is(ks, levels.dom());
    let s = ks.map_values(|j: K| levels[j]);
    assert(s.drop_first() =~= Seq::<Seq<int>>::empty());
    assert(s[0] + flatten(s.drop_first()) =~= levels[k]);
}

/// The amount that one order of `x` takes from an incoming `rem`.
pub open spec fn fill_take(x: nat, rem: nat) -> nat {
    if x <= rem {
        x
    } else {
        rem
    }
}

/// Filling `a1 + a2` is filling `a1`, then `a2` with what is left.
pub proof fn lemma_fill_split(a1: Seq<nat>, a2: Seq<nat>, r: nat)
    ensures
        fill_left(a1 + a2, r) == fill_left(a2, fill_left(a1, r)),
        fill_amounts(a1 + a2, r) == fill_amounts(a1, r) + fill_amounts(a2, fill_left(a1, r)),
        fill_count(a1 + a2, r) == (if fill_count(a1, r) == a1.len() {
            a1.len() + fill_count(a2, fill_left(a1, r))
        } else {
            fill_count(a1, r)
        }),
        fill_amounts(a1, r).len() == a1.len(),
        fill_count(a1, r) <= a1.len(),
    decreases a1.len(),
{
    if a1.len() == 0 {
        assert(a1 + a2 =~= a2);
        assert(fill_amounts(a1, r) =~= Seq::<nat>::empty());
    } else {
        let f = fill_take(a1[0], r);
        lemma_fill_split(a1.drop_first(), a2, (r - f) as nat);
        assert((a1 + a2).drop_first() =~= a1.drop_first() + a2);
        assert((a1 + a2)[0] == a1[0]);
        assert(fill_amounts(a1 + a2, r) =~= seq![(a1[0] - f) as nat] + (fill_amounts(
            a1.drop_first(),
            (r - f) as nat,
        ) + fill_amounts(a2, fill_left(a1.drop_first(), (r - f) as nat))));
        if r == 0 {
            lemma_fill_zero(a1.drop_first());
            lemma_fill_zero(a2);
            lemma_fill_zero(a1 + a2);
            lemma_fill_zero(a1);
        }
    }
}

/// Nothing is filled by an incoming amount of zero.
pub proof fn lemma_fill_zero(a: Seq<nat>)
    ensures
        fill_left(a, 0) == 0,
        fill_amounts(a, 0) == a,
        fill_count(a, 0) == 0,
    decreases a.len(),
{
    if a.len() > 0 {
        lemma_fill_zero(a.drop_first());
        assert(fill_amounts(a, 0) =~= seq![a[0]] + a.drop_first());
    }
}

/// One more order at the end of a queue.
pub proof fn lemma_fill_snoc(a: Seq<nat>, x: nat, r: nat)
    ensures
        fill_left(a.push(x), r) == (fill_left(a, r) - fill_take(x, fill_left(a, r))) as nat,
        fill_amounts(a.push(x), r) == fill_amounts(a, r).push((x - fill_take(x, fill_left(a, r))) as nat),
        fill_count(a.push(x), r) == (if fill_count(a, r) == a.len() && fill_left(a, r) > 0 && x
            <= fill_left(a, r) {
            a.len() + 1
        } else {
            fill_count(a, r)
        }),
{
    reveal_with_fuel(fill_left, 2);
    reveal_with_fuel(fill_amounts, 2);
    reveal_with_fuel(fill_count, 2);
    lemma_fill_split(a, seq![x], r);
    assert(a + seq![x] =~= a.push(x));
    let l = fill_left(a, r);
    assert(seq![x].drop_first() =~= Seq::<nat>::empty());
    assert(fill_amounts(seq![x], l) =~= seq![(x - fill_take(x, l)) as nat]);
}

/// The queue of `levels` over the keys `ks` with one more key at the end.
pub proof fn lemma_queue_snoc<K: LevelKey>(levels: Map<K, Seq<int>>, ks: Seq<K>, k: K)
    ensures
        queue_of(levels, ks.push(k)) == queue_of(levels, ks) + levels[k],
    decreases ks.len(),
{
    let m = ks.map_values(|x: K| levels[x]);
    let m2 = ks.push(k).map_values(|x: K| levels[x]);
    assert(m2 =~= m.push(levels[k]));
    lemma_flatten_snoc(m, levels[k]);
}

pub proof fn lemma_flatten_snoc(s: Seq<Seq<int>>, x: Seq<int>)
    ensures
        flatten(s.push(x)) == flatten(s) + x,
    decreases s.len(),
{
    reveal_with_fuel(flatten, 2);
    if s.len() == 0 {
        assert(s.push(x).drop_first() =~= Seq::<Seq<int>>::empty());
        assert(flatten(s.push(x)) =~= x + Seq::<int>::empty());
        assert(flatten(s) + x =~= x);
    } else {
        assert(s.push(x).drop_first() =~= s.drop_first().push(x));
        lemma_flatten_snoc(s.drop_first(), x);
        assert(flatten(s.push(x)) =~= s[0] + (flatten(s.drop_first()) + x));
    }
}

/// The levels of `levels` whose key is at most `bound`.
pub open spec fn levels_upto<K: LevelKey>(levels: Map<K, Seq<int>>, bound: K) -> Map<K, Seq<int>> {
    Map::new(|k: K| levels.contains_key(k) && k.rank() <= bound.rank(), |k: K| levels[k])
}

/// The orders that an incoming order reaches: the front of the queue whose
/// level keys are at most `bound`.
pub open spec fn eligible_queue<K: LevelKey>(levels: Map<K, Seq<int>>, bound: K) -> Seq<int> {
    side_queue(levels_upto(levels, bound))
}

pub proof fn lemma_flatten_append(s1: Seq<Seq<int>>, s2: Seq<Seq<int>>)
    ensures
        flatten(s1 + s2) == flatten(s1) + flatten(s2),
    decreases s1.len(),
{
    if s1.len() == 0 {
        assert(s1 + s2 =~= s2);
        assert(flatten(s1) + flatten(s2) =~= flatten(s2));
    } else {
        assert((s1 + s2).drop_first() =~= s1.drop_first() + s2);
        lemma_flatten_append(s1.drop_first(), s2);
        assert(flatten(s1 + s2) =~= s1[0] + (flatten(s1.drop_first()) + flatten(s2)));
    }
}

/// The keys of `ks` that have a level in `levels`, in the order of `ks`.
pub open spec fn present_keys<K: LevelKey>(levels: Map<K, Seq<int>>, ks: Seq<K>) -> Seq<K> {
    ks.filter(|k: K| levels.contains_key(k))
}

/// A queue over keys some of which have an empty level is the queue over
/// the keys that have a level; those keep their increasing order.
pub proof fn lemma_present_keys<K: LevelKey>(full: Map<K, Seq<int>>, levels: Map<K, Seq<int>>, ks: Seq<K>)
    requires
        forall|i: int, j: int| 0 <= i < j < ks.len() ==> ks[i].rank() < ks[j].rank(),
        forall|k: K| #[trigger] levels.contains_key(k) ==> full[k] == levels[k],
        forall|i: int| 0 <= i < ks.len() && !levels.contains_key(ks[i]) ==> full[#[trigger] ks[i]].len() == 0,
    ensures
        queue_of(full, ks) == queue_of(levels, present_keys(levels, ks)),
        forall|i: int, j: int|
            0 <= i < j < present_keys(levels, ks).len() ==> present_keys(levels, ks)[i].rank()
                < present_keys(levels, ks)[j].rank(),
        forall|k: K| #[trigger] present_keys(levels, ks).contains(k) <==> (ks.contains(k) && levels.contains_key(k)),
    decreases ks.len(),
{
    let p = |k: K| levels.contains_key(k);
    let kp = present_keys(levels, ks);
    broadcast use vstd::seq_lib::group_filter_ensures;
    if ks.len() == 0 {
        assert(ks.filter(p) =~= Seq::<K>::empty()) by {
            reveal(Seq::filter);
        }
        assert(queue_of(full, ks) =~= Seq::<int>::empty()) by {
            assert(ks.map_values(|k: K| full[k]) =~= Seq::<Seq<int>>::empty());
        }
        assert(queue_of(levels, kp) =~= Seq::<int>::empty()) by {
            assert(kp.map_values(|k: K| levels[k]) =~= Seq::<Seq<int>>::empty());
        }
    } else {
        let init = ks.drop_last();
        let x = ks.last();
        lemma_present_keys(full, levels, init);
        let kp0 = present_keys(levels, init);
        assert(ks =~= init + seq![x]);
        Seq::filter_distributes_over_add(init, seq![x], p);
        assert(ks.filter(p) == init.filter(p) + seq![x].filter(p));
        lemma_queue_snoc(full, init, x);
        assert(init.push(x) =~= ks);
        if levels.contains_key(x) {
            assert(seq![x].filter(p) =~= seq![x]) by {
                reveal_with_fuel(Seq::filter, 2);
                assert(seq![x].drop_last() =~= Seq::<K>::empty());
            }
            assert(kp =~= kp0.push(x));
            lemma_queue_snoc(levels, kp0, x);
            assert forall|i: int, j: int| 0 <= i < j < kp.len() implies kp[i].rank() < kp[j].rank() by {
                if j == kp.len() - 1 {
                    assert(kp0.contains(kp[i]));
                    let u = choose|u: int| 0 <= u < init.len() && init[u] == kp[i];
                    assert(ks[u] == kp[i]);
                    assert(ks[ks.len() - 1] == x);
                } else {
                    assert(kp[i] == kp0[i] && kp[j] == kp0[j]);
                }
            }
            assert forall|k: K| #[trigger] kp.contains(k) <==> (ks.contains(k) && levels.contains_key(k)) by {
                if kp.contains(k) && k != x {
                    let u = choose|u: int| 0 <= u < kp.len() && kp[u] == k;
                    assert(kp0[u] == k);
                    assert(kp0.contains(k));
                    let v = choose|v: int| 0 <= v < init.len() && init[v] == k;
                    assert(ks[v] == k);
                }
                if ks.contains(k) && levels.contains_key(k) && k != x {
                    let v = choose|v: int| 0 <= v < ks.len() && ks[v] == k;
                    assert(init[v] == k);
                    assert(init.contains(k));
                    assert(kp0.contains(k));
                    let u = choose|u: int| 0 <= u < kp0.len() && kp0[u] == k;
                    assert(kp[u] == k);
                }
                if k == x {
                    assert(kp[kp.len() - 1] == x);
                    assert(ks[ks.len() - 1] == x);
                }
            }
        } else {
            assert(seq![x].filter(p) =~= Seq::<K>::empty()) by {
                reveal_with_fuel(Seq::filter, 2);
                assert(seq![x].drop_last() =~= Seq::<K>::empty());
            }
            assert(kp =~= kp0);
            assert(full[ks[ks.len() - 1]].len() == 0);
            assert(queue_of(full, ks) =~= queue_of(full, init));
            assert forall|k: K| #[trigger] kp.contains(k) <==> (ks.contains(k) && levels.contains_key(k)) by {
                if kp.contains(k) {
                    assert(kp0.contains(k));
                    let v = choose|v: int| 0 <= v < init.len() && init[v] == k;
                    assert(ks[v] == k);
                }
                if ks.contains(k) && levels.contains_key(k) {
                    let v = choose|v: int| 0 <= v < ks.len() && ks[v] == k;
                    if v == ks.len() - 1 {
                        assert(ks[v] == x);
                    } else {
                        assert(init[v] == k);
                        assert(init.contains(k));
                    }
                }
            }
        }
    }
}

/// A flattening splits around any one of its parts.
pub proof fn lemma_flatten_split(s: Seq<Seq<int>>, p: int)
    requires
        0 <= p < s.len(),
    ensures
        flatten(s) == flatten(s.take(p)) + s[p] + flatten(s.skip(p + 1)),
{
    assert(s =~= s.take(p) + (seq![s[p]] + s.skip(p + 1)));
    lemma_flatten_append(s.take(p), seq![s[p]] + s.skip(p + 1));
    lemma_flatten_append(seq![s[p]], s.skip(p + 1));
    assert(flatten(seq![s[p]]) =~= s[p]) by {
        reveal_with_fuel(flatten, 2);
        assert(seq![s[p]].drop_first() =~= Seq::<Seq<int>>::empty());
    }
    assert(flatten(s) =~= flatten(s.take(p)) + s[p] + flatten(s.skip(p + 1)));
}

/// The queue over the first `m` keys is the front of the queue over all of them.
pub proof fn lemma_queue_take<K: LevelKey>(levels: Map<K, Seq<int>>, ks: Seq<K>, m: int)
    requires
        0 <= m <= ks.len(),
    ensures
        queue_of(levels, ks) == queue_of(levels, ks.take(m)) + queue_of(levels, ks.skip(m)),
{
    let f = |k: K| levels[k];
    assert(ks.map_values(f) =~= ks.take(m).map_values(f) + ks.skip(m).map_values(f));
    lemma_flatten_append(ks.take(m).map_values(f), ks.skip(m).map_values(f));
}

/// An element of a flattened sequence comes from one of its parts.
pub proof fn lemma_flatten_contains(s: Seq<Seq<int>>, x: int)
    requires
        flatten(s).contains(x),
    ensures
        exists|j: int| 0 <= j < s.len() && #[trigger] s[j].contains(x),
    decreases s.len(),
{
    if s.len() > 0 {
        let i = choose|i: int| 0 <= i < flatten(s).len() && flatten(s)[i] == x;
        if i < s[0].len() {
            assert(s[0][i] == x);
            assert(s[0].contains(x));
        } else {
            assert(flatten(s.drop_first())[i - s[0].len()] == x);
            lemma_flatten_contains(s.drop_first(), x);
            let j = choose|j: int| 0 <= j < s.len() - 1 && #[trigger] s.drop_first()[j].contains(x);
            assert(s[j + 1] == s.drop_first()[j]);
        }
    }
}

/// An order of the queue over the keys `ks` rests at one of the levels `ks`.
pub proof fn lemma_queue_contains<K: LevelKey>(levels: Map<K, Seq<int>>, ks: Seq<K>, x: int)
    requires
        queue_of(levels, ks).contains(x),
    ensures
        exists|j: int| 0 <= j < ks.len() && #[trigger] levels[ks[j]].contains(x),
{
    let m = ks.map_values(|k: K| levels[k]);
    lemma_flatten_contains(m, x);
    let j = choose|j: int| 0 <= j < m.len() && #[trigger] m[j].contains(x);
    assert(levels[ks[j]].contains(x));
}

/// How many keys at the front of `ks` are at most `bound`.
pub open spec fn count_upto<K: LevelKey>(ks: Seq<K>, bound: K) -> nat
    decreases ks.len(),
{
    if ks.len() == 0 || ks[0].rank() > bound.rank() {
        0
    } else {
        1 + count_upto(ks.drop_first(), bound)
    }
}

/// In an increasing sequence the keys at most `bound` come first.
pub proof fn lemma_count_upto<K: LevelKey>(ks: Seq<K>, bound: K)
    requires
        forall|i: int, j: int| 0 <= i < j < ks.len() ==> ks[i].rank() < ks[j].rank(),
    ensures
        count_upto(ks, bound) <= ks.len(),
        forall|i: int| 0 <= i < count_upto(ks, bound) ==> ks[i].rank() <= bound.rank(),
        forall|i: int| count_upto(ks, bound) <= i < ks.len() ==> ks[i].rank() > bound.rank(),
    decreases ks.len(),
{
    if ks.len() > 0 && ks[0].rank() <= bound.rank() {
        lemma_count_upto(ks.drop_first(), bound);
        assert forall|i: int| 0 <= i < count_upto(ks, bound) implies ks[i].rank() <= bound.rank() by {
            if i > 0 {
                assert(ks[i] == ks.drop_first()[i - 1]);
            }
        }
        assert forall|i: int| count_upto(ks, bound) <= i < ks.len() implies ks[i].rank() > bound.rank() by {
            assert(ks[i] == ks.drop_first()[i - 1]);
        }
    } else if ks.len() > 0 {
        assert forall|i: int| 0 <= i < ks.len() implies ks[i].rank() > bound.rank() by {
            if i > 0 {
                assert(ks[0].rank() < ks[i].rank());
            }
        }
    }
}

/// The orders that an incoming order reaches are the front of the side's queue.
pub proof fn lemma_eligible_prefix<K: LevelKey>(levels: Map<K, Seq<int>>, bound: K)
    requires
        levels.dom().finite(),
    ensures
        eligible_queue(levels, bound).len() <= side_queue(levels).len(),
        side_queue(levels).take(eligible_queue(levels, bound).len() as int) == eligible_queue(levels, bound),
{
    let ks = sorted_keys(levels.dom());
    lemma_sorted_keys_exist(levels.dom());
    lemma_count_upto(ks, bound);
    let c = count_upto(ks, bound) as int;
    let up = levels_upto(levels, bound);
    let kc = ks.take(c);
    assert forall|k: K| up.dom().contains(k) <==> kc.contains(k) by {
        if up.dom().contains(k) {
            assert(ks.contains(k));
            let i = choose|i: int| 0 <= i < ks.len() && ks[i] == k;
            assert(i < c);
            assert(kc[i] == k);
        }
        if kc.contains(k) {
            let i = choose|i: int| 0 <= i < kc.len() && kc[i] == k;
            assert(ks[i] == k);
            assert(ks.contains(k));
        }
    }
    lemma_sorted_keys_is(kc, up.dom());
    assert(kc.map_values(|k: K| up[k]) =~= kc.map_values(|k: K| levels[k])) by {
        assert forall|i: int| 0 <= i < kc.len() implies up.dom().contains(#[trigger] kc[i]) by {
            assert(kc.contains(kc[i]));
        }
    }
    lemma_queue_take(levels, ks, c);
}

/// Removing the oldest order of the first level takes the first order off the
/// side's queue.
pub proof fn lemma_side_queue_drop_head<K: LevelKey>(levels: Map<K, Seq<int>>)
    requires
        levels.dom().finite(),
        side_queue(levels).len() > 0,
        forall|k: K| #[trigger] levels.contains_key(k) ==> levels[k].len() > 0,
    ensures
        ({
            let k = sorted_keys(levels.dom())[0];
            let lv = levels[k];
            &&& levels.contains_key(k)
            &&& side_queue(levels).len() > 0
            &&& side_queue(levels)[0] == lv[0]
            &&& side_queue(
                if lv.len() == 1 {
                    levels.remove(k)
                } else {
                    levels.insert(k, lv.drop_first())
                },
            ) == side_queue(levels).drop_first()
        }),
{
    let ks = sorted_keys(levels.dom());
    lemma_sorted_keys_exist(levels.dom());
    if ks.len() == 0 {
        assert(ks.map_values(|y: K| levels[y]) =~= Seq::<Seq<int>>::empty());
    }
    let k = ks[0];
    assert(ks.contains(k));
    let lv = levels[k];
    let rest = ks.drop_first();
    assert forall|i: int| 0 <= i < rest.len() implies #[trigger] rest[i] != k by {
        assert(rest[i] == ks[i + 1]);
        assert(ks[0].rank() < ks[i + 1].rank());
    }
    let m = ks.map_values(|y: K| levels[y]);
    assert(m.drop_first() =~= rest.map_values(|y: K| levels[y]));
    assert(side_queue(levels) == lv + queue_of(levels, rest));
    let l2 = if lv.len() == 1 {
        levels.remove(k)
    } else {
        levels.insert(k, lv.drop_first())
    };
    assert(rest.map_values(|y: K| l2[y]) =~= rest.map_values(|y: K| levels[y])) by {
        assert forall|i: int| 0 <= i < rest.len() implies #[trigger] l2[rest[i]] == levels[rest[i]] by {
            assert(rest[i] != k);
        }
    }
    if lv.len() == 1 {
        let d2 = levels.dom().remove(k);
        assert forall|y: K| d2.contains(y) <==> rest.contains(y) by {
            if d2.contains(y) {
                let i = choose|i: int| 0 <= i < ks.len() && ks[i] == y;
                assert(i != 0);
                assert(rest[i - 1] == y);
            }
            if rest.contains(y) {
                let i = choose|i: int| 0 <= i < rest.len() && rest[i] == y;
                assert(ks[i + 1] == y);
                assert(ks.contains(y));
            }
        }
        assert(l2.dom() =~= d2);
        lemma_sorted_keys_is(rest, d2);
        assert(side_queue(l2) == queue_of(l2, rest));
        assert(side_queue(levels).drop_first() =~= queue_of(levels, rest));
    } else {
        assert(l2.dom() =~= levels.dom());
        let m2 = ks.map_values(|y: K| l2[y]);
        assert(m2.drop_first() =~= rest.map_values(|y: K| l2[y]));
        assert(side_queue(l2) == lv.drop_first() + queue_of(l2, rest));
        assert(side_queue(levels).drop_first() =~= lv.drop_first() + queue_of(levels, rest));
    }
}

/// The sum of the amounts `s`.
pub open spec fn total(s: Seq<nat>) -> nat
    decreases s.len(),
{
    if s.len() == 0 {
        0
    } else {
        total(s.drop_last()) + s.last()
    }
}

/// A front part of a sequence of amounts sums to no more than the whole.
pub proof fn lemma_total_prefix(s: Seq<nat>, i: int)
    requires
        0 <= i <= s.len(),
    ensures
        total(s.take(i)) <= total(s),
    decreases s.len() - i,
{
    if i < s.len() {
        lemma_total_prefix(s, i + 1);
        assert(s.take(i + 1).drop_last() =~= s.take(i));
    } else {
        assert(s.take(i) =~= s);
    }
}

/// The queue over increasing keys of levels that share no order, none of
/// which holds an order twice, holds no order twice.
pub proof fn lemma_queue_no_dups<K: LevelKey>(levels: Map<K, Seq<int>>, ks: Seq<K>)
    requires
        forall|i: int, j: int| 0 <= i < j < ks.len() ==> ks[i].rank() < ks[j].rank(),
        forall|i: int| 0 <= i < ks.len() ==> #[trigger] levels[ks[i]].no_duplicates(),
        forall|i: int, j: int, x: int|
            0 <= i < ks.len() && 0 <= j < ks.len() && i != j && #[trigger] levels[ks[i]].contains(x)
                ==> !#[trigger] levels[ks[j]].contains(x),
    ensures
        queue_of(levels, ks).no_duplicates(),
    decreases ks.len(),
{
    if ks.len() == 0 {
        assert(queue_of(levels, ks) =~= Seq::<int>::empty()) by {
            assert(ks.map_values(|k: K| levels[k]) =~= Seq::<Seq<int>>::empty());
        }
    } else {
        let m = ks.len() - 1;
        let init = ks.drop_last();
        let k = ks[m];
        assert forall|i: int, x: int| 0 <= i < init.len() && #[trigger] levels[init[i]].contains(x) implies !levels[k].contains(x) by {
            assert(init[i] == ks[i]);
        }
        lemma_queue_no_dups(levels, init);
        assert(init.push(k) =~= ks);
        lemma_queue_snoc(levels, init, k);
        let q0 = queue_of(levels, init);
        let lv = levels[k];
        assert(levels[ks[m]].no_duplicates());
        assert(lv.no_duplicates());
        assert forall|a: int, b: int| 0 <= a < b < q0.len() + lv.len() implies (q0 + lv)[a] != (q0 + lv)[b] by {
            if b >= q0.len() && a < q0.len() {
                let x = q0[a];
                assert(q0.contains(x));
                lemma_queue_contains(levels, init, x);
                let i = choose|i: int| 0 <= i < init.len() && #[trigger] levels[init[i]].contains(x);
                assert(lv[b - q0.len()] == (q0 + lv)[b]);
                if lv.contains(x) {
                    assert(levels[init[i]].contains(x));
                }
                assert(!lv.contains(x));
            } else if a >= q0.len() {
                assert(lv[a - q0.len()] != lv[b - q0.len()]);
            }
        }
    }
}

/// The side's queue holds no order twice when its levels share no order and
/// none holds an order twice.
pub proof fn lemma_side_queue_no_dups<K: LevelKey>(levels: Map<K, Seq<int>>)
    requires
        levels.dom().finite(),
        forall|k: K| #[trigger] levels.contains_key(k) ==> levels[k].no_duplicates(),
        forall|k1: K, k2: K, x: int|
            k1 != k2 && levels.contains_key(k1) && levels.contains_key(k2) && #[trigger] levels[k1].contains(x)
                ==> !#[trigger] levels[k2].contains(x),
    ensures
        side_queue(levels).no_duplicates(),
{
    let ks = sorted_keys(levels.dom());
    lemma_sorted_keys_exist(levels.dom());
    assert forall|i: int| 0 <= i < ks.len() implies #[trigger] levels[ks[i]].no_duplicates() by {
        assert(ks.contains(ks[i]));
    }
    assert forall|i: int, j: int, x: int|
        0 <= i < ks.len() && 0 <= j < ks.len() && i != j && #[trigger] levels[ks[i]].contains(x)
            implies !#[trigger] levels[ks[j]].contains(x) by {
        assert(ks.contains(ks[i]));
        assert(ks.contains(ks[j]));
        if i < j {
            assert(ks[i].rank() < ks[j].rank());
        } else {
            assert(ks[j].rank() < ks[i].rank());
        }
    }
    lemma_queue_no_dups(levels, ks);
}

/// What is left of an incoming amount is at most that amount.
pub proof fn lemma_fill_left_bound(a: Seq<nat>, r: nat)
    ensures
        fill_left(a, r) <= r,
    decreases a.len(),
{
    if a.len() > 0 {
        lemma_fill_left_bound(a.drop_first(), (r - fill_take(a[0], r)) as nat);
    }
}

} // verus!
