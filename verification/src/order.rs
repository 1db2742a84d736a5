//! Ascending key sequences: the model that both trees are specified over.
//!
//! A tree stands for the sequence of its keys in ascending order. Insertion
//! and deletion are stated as `with_key` and `without_key` on that sequence.

use crate::key::TreeKey;
use vstd::prelude::*;

verus! {

/// Every key comes strictly before each key that follows it.
#[verifier::opaque]
pub open spec fn strictly_increasing<T: TreeKey>(s: Seq<T>) -> bool {
    forall|i: int, j: int| 0 <= i < j < s.len() ==> s[i].rank() < s[j].rank()
}

/// Every key of `s` sorts strictly before `v`.
#[verifier::opaque]
pub open spec fn all_below<T: TreeKey>(s: Seq<T>, v: T) -> bool {
    forall|i: int| 0 <= i < s.len() ==> s[i].rank() < v.rank()
}

/// Every key of `s` sorts strictly after `v`.
#[verifier::opaque]
pub open spec fn all_above<T: TreeKey>(s: Seq<T>, v: T) -> bool {
    forall|i: int| 0 <= i < s.len() ==> v.rank() < s[i].rank()
}

/// The keys of `s` that sort strictly before `v`, in their order in `s`.
#[verifier::opaque]
pub open spec fn keys_below<T: TreeKey>(s: Seq<T>, v: T) -> Seq<T> {
    s.filter(|k: T| k.rank() < v.rank())
}

/// The keys of `s` that sort strictly after `v`, in their order in `s`.
#[verifier::opaque]
pub open spec fn keys_above<T: TreeKey>(s: Seq<T>, v: T) -> Seq<T> {
    s.filter(|k: T| v.rank() < k.rank())
}

/// `s` with `v` put in its place: the keys below `v`, then `v`, then the keys
/// above it. Where `s` is ascending and already holds `v`, this is `s`.
pub open spec fn with_key<T: TreeKey>(s: Seq<T>, v: T) -> Seq<T> {
    keys_below(s, v) + seq![v] + keys_above(s, v)
}

/// `s` with `v` taken out: the keys below `v`, then the keys above it. Where
/// `s` is ascending and does not hold `v`, this is `s`.
pub open spec fn without_key<T: TreeKey>(s: Seq<T>, v: T) -> Seq<T> {
    keys_below(s, v) + keys_above(s, v)
}

/// A sequence `l + [x] + r` is ascending exactly when `l` and `r` are, `l`
/// lies below `x` and `r` lies above it.
pub proof fn lemma_increasing_around<T: TreeKey>(l: Seq<T>, x: T, r: Seq<T>)
    ensures
        strictly_increasing(l + seq![x] + r) <==> {
            &&& strictly_increasing(l)
            &&& strictly_increasing(r)
            &&& all_below(l, x)
            &&& all_above(r, x)
        },
{
    reveal(strictly_increasing);
    reveal(all_below);
    reveal(all_above);
    let s = l + seq![x] + r;
    let n = l.len() as int;
    if strictly_increasing(s) {
        assert forall|i: int, j: int| 0 <= i < j < l.len() implies l[i].rank() < l[j].rank() by {
            assert(s[i] == l[i] && s[j] == l[j]);
        }
        assert forall|i: int, j: int| 0 <= i < j < r.len() implies r[i].rank() < r[j].rank() by {
            assert(s[n + 1 + i] == r[i] && s[n + 1 + j] == r[j]);
        }
        assert forall|i: int| 0 <= i < l.len() implies l[i].rank() < x.rank() by {
            assert(s[i] == l[i] && s[n] == x);
        }
        assert forall|i: int| 0 <= i < r.len() implies x.rank() < r[i].rank() by {
            assert(s[n + 1 + i] == r[i] && s[n] == x);
        }
    }
    if strictly_increasing(l) && strictly_increasing(r) && all_below(l, x) && all_above(r, x) {
        assert forall|i: int, j: int| 0 <= i < j < s.len() implies s[i].rank() < s[j].rank() by {
            if i < n {
                assert(s[i] == l[i]);
            } else if i == n {
                assert(s[i] == x);
            } else {
                assert(s[i] == r[i - n - 1]);
            }
            if j < n {
                assert(s[j] == l[j]);
            } else if j == n {
                assert(s[j] == x);
            } else {
                assert(s[j] == r[j - n - 1]);
            }
        }
    }
}

/// Membership in `l + [x] + r`.
pub proof fn lemma_contains_around<T: TreeKey>(l: Seq<T>, x: T, r: Seq<T>, v: T)
    ensures
        (l + seq![x] + r).contains(v) <==> (l.contains(v) || x == v || r.contains(v)),
{
    let s = l + seq![x] + r;
    let n = l.len() as int;
    if s.contains(v) {
        let i = choose|i: int| 0 <= i < s.len() && s[i] == v;
        if i < n {
            assert(l[i] == v);
        } else if i > n {
            assert(r[i - n - 1] == v);
        }
    }
    if l.contains(v) {
        let i = choose|i: int| 0 <= i < l.len() && l[i] == v;
        assert(s[i] == v);
    }
    if x == v {
        assert(s[n] == v);
    }
    if r.contains(v) {
        let i = choose|i: int| 0 <= i < r.len() && r[i] == v;
        assert(s[n + 1 + i] == v);
    }
}

/// What lies below `x` lies below every key from `x` on; what lies above
/// `x` lies above every key up to `x`.
pub proof fn lemma_bounds_widen<T: TreeKey>(s: Seq<T>, x: T, v: T)
    ensures
        all_below(s, x) && x.rank() <= v.rank() ==> all_below(s, v),
        all_above(s, x) && v.rank() <= x.rank() ==> all_above(s, v),
{
    reveal(all_below);
    reveal(all_above);
}

/// A sequence that lies below `v` has all its keys below `v` and none above.
pub proof fn lemma_keys_of_lower<T: TreeKey>(s: Seq<T>, v: T)
    requires
        all_below(s, v),
    ensures
        keys_below(s, v) == s,
        keys_above(s, v) == Seq::<T>::empty(),
        !s.contains(v),
    decreases s.len(),
{
    reveal(keys_below);
    reveal(keys_above);
    reveal(Seq::filter);
    reveal(all_below);
    if s.len() > 0 {
        let d = s.drop_last();
        assert forall|i: int| 0 <= i < d.len() implies d[i].rank() < v.rank() by {
            assert(d[i] == s[i]);
        }
        lemma_keys_of_lower(d, v);
        assert(s.last().rank() < v.rank());
        assert(keys_below(s, v) == keys_below(d, v).push(s.last()));
        assert(keys_above(s, v) == keys_above(d, v));
        assert(d.push(s.last()) =~= s);
    } else {
        assert(s =~= Seq::<T>::empty());
    }
    if s.contains(v) {
        let i = choose|i: int| 0 <= i < s.len() && s[i] == v;
        assert(s[i].rank() < v.rank());
    }
}

/// A sequence that lies above `v` has all its keys above `v` and none below.
pub proof fn lemma_keys_of_upper<T: TreeKey>(s: Seq<T>, v: T)
    requires
        all_above(s, v),
    ensures
        keys_below(s, v) == Seq::<T>::empty(),
        keys_above(s, v) == s,
        !s.contains(v),
    decreases s.len(),
{
    reveal(keys_below);
    reveal(keys_above);
    reveal(Seq::filter);
    reveal(all_above);
    if s.len() > 0 {
        let d = s.drop_last();
        assert forall|i: int| 0 <= i < d.len() implies v.rank() < d[i].rank() by {
            assert(d[i] == s[i]);
        }
        lemma_keys_of_upper(d, v);
        assert(v.rank() < s.last().rank());
        assert(keys_above(s, v) == keys_above(d, v).push(s.last()));
        assert(keys_below(s, v) == keys_below(d, v));
        assert(d.push(s.last()) =~= s);
    } else {
        assert(s =~= Seq::<T>::empty());
    }
    if s.contains(v) {
        let i = choose|i: int| 0 <= i < s.len() && s[i] == v;
        assert(v.rank() < s[i].rank());
    }
}

/// No keys lie below or above anything.
pub proof fn lemma_no_keys<T: TreeKey>(v: T)
    ensures
        all_below(Seq::<T>::empty(), v),
        all_above(Seq::<T>::empty(), v),
        strictly_increasing(Seq::<T>::empty()),
        keys_below(Seq::<T>::empty(), v) == Seq::<T>::empty(),
        keys_above(Seq::<T>::empty(), v) == Seq::<T>::empty(),
{
    reveal(all_below);
    reveal(all_above);
    reveal(strictly_increasing);
    lemma_keys_of_lower(Seq::<T>::empty(), v);
}

/// No keys ascend, and so does a single key.
pub proof fn lemma_short_increasing<T: TreeKey>(s: Seq<T>)
    requires
        s.len() <= 1,
    ensures
        strictly_increasing(s),
{
    reveal(strictly_increasing);
}

/// What `keys_below` and `keys_above` keep of the one key `x`.
proof fn lemma_keys_of_one<T: TreeKey>(x: T, v: T)
    ensures
        keys_below(seq![x], v) == if x.rank() < v.rank() { seq![x] } else { Seq::<T>::empty() },
        keys_above(seq![x], v) == if v.rank() < x.rank() { seq![x] } else { Seq::<T>::empty() },
{
    reveal(keys_below);
    reveal(keys_above);
    reveal_with_fuel(Seq::filter, 2);
    let one = seq![x];
    assert(one.drop_last() =~= Seq::<T>::empty());
    assert(one.last() == x);
    assert(keys_below(one, v) =~= if x.rank() < v.rank() { one } else { Seq::<T>::empty() });
    assert(keys_above(one, v) =~= if v.rank() < x.rank() { one } else { Seq::<T>::empty() });
}

/// `keys_below` and `keys_above` of `l + [x] + r`, part by part.
proof fn lemma_keys_by_part<T: TreeKey>(l: Seq<T>, x: T, r: Seq<T>, v: T)
    ensures
        keys_below(l + seq![x] + r, v) == keys_below(l, v) + keys_below(seq![x], v) + keys_below(r, v),
        keys_above(l + seq![x] + r, v) == keys_above(l, v) + keys_above(seq![x], v) + keys_above(r, v),
{
    reveal(keys_below);
    reveal(keys_above);
    let lt = |k: T| k.rank() < v.rank();
    let gt = |k: T| v.rank() < k.rank();
    let one = seq![x];
    Seq::filter_distributes_over_add(l + one, r, lt);
    Seq::filter_distributes_over_add(l, one, lt);
    Seq::filter_distributes_over_add(l + one, r, gt);
    Seq::filter_distributes_over_add(l, one, gt);
}

/// How `keys_below` and `keys_above` split an ascending `l + [x] + r`,
/// by the side of `x` on which `v` falls.
pub proof fn lemma_keys_around<T: TreeKey>(l: Seq<T>, x: T, r: Seq<T>, v: T)
    requires
        strictly_increasing(l + seq![x] + r),
    ensures
        v.rank() < x.rank() ==> {
            &&& keys_below(l + seq![x] + r, v) == keys_below(l, v)
            &&& keys_above(l + seq![x] + r, v) == keys_above(l, v) + seq![x] + r
        },
        v.rank() > x.rank() ==> {
            &&& keys_below(l + seq![x] + r, v) == l + seq![x] + keys_below(r, v)
            &&& keys_above(l + seq![x] + r, v) == keys_above(r, v)
        },
        v.rank() == x.rank() ==> {
            &&& keys_below(l + seq![x] + r, v) == l
            &&& keys_above(l + seq![x] + r, v) == r
        },
{
    lemma_increasing_around(l, x, r);
    lemma_keys_by_part(l, x, r, v);
    lemma_keys_of_one(x, v);
    lemma_bounds_widen(l, x, v);
    lemma_bounds_widen(r, x, v);
    let e = Seq::<T>::empty();
    if v.rank() < x.rank() {
        lemma_keys_of_upper(r, v);
        assert(keys_below(l, v) + e + e =~= keys_below(l, v));
    } else if v.rank() > x.rank() {
        lemma_keys_of_lower(l, v);
        assert(e + e + keys_above(r, v) =~= keys_above(r, v));
    } else {
        lemma_keys_of_lower(l, v);
        lemma_keys_of_upper(r, v);
        assert(l + e + e =~= l);
        assert(e + e + r =~= r);
    }
}

/// Where `v` can be in an ascending `l + [x] + r`: in `l` if it sorts before
/// `x`, in `r` if it sorts after `x`.
pub proof fn lemma_contains_by_side<T: TreeKey>(l: Seq<T>, x: T, r: Seq<T>, v: T)
    requires
        strictly_increasing(l + seq![x] + r),
    ensures
        v.rank() < x.rank() ==> ((l + seq![x] + r).contains(v) <==> l.contains(v)),
        x.rank() < v.rank() ==> ((l + seq![x] + r).contains(v) <==> r.contains(v)),
        x.rank() == v.rank() ==> (l + seq![x] + r).contains(v) && x == v,
{
    lemma_contains_around(l, x, r, v);
    lemma_increasing_around(l, x, r);
    lemma_bounds_widen(l, x, v);
    lemma_bounds_widen(r, x, v);
    if v.rank() < x.rank() {
        lemma_keys_of_upper(r, v);
    } else if x.rank() < v.rank() {
        lemma_keys_of_lower(l, v);
    } else {
        T::rank_is_injective(v, x);
    }
}

/// One step of an insertion: what putting `v` into an ascending
/// `l + [x] + r` comes to on the side of `x` where `v` belongs.
pub proof fn lemma_with_key_step<T: TreeKey>(l: Seq<T>, x: T, r: Seq<T>, v: T)
    requires
        strictly_increasing(l + seq![x] + r),
    ensures
        strictly_increasing(l),
        strictly_increasing(r),
        v.rank() < x.rank() ==> {
            &&& with_key(l + seq![x] + r, v) == with_key(l, v) + seq![x] + r
            &&& (l + seq![x] + r).contains(v) <==> l.contains(v)
        },
        x.rank() < v.rank() ==> {
            &&& with_key(l + seq![x] + r, v) == l + seq![x] + with_key(r, v)
            &&& (l + seq![x] + r).contains(v) <==> r.contains(v)
        },
        x.rank() == v.rank() ==> x == v && (l + seq![x] + r).contains(v),
{
    lemma_increasing_around(l, x, r);
    lemma_contains_by_side(l, x, r, v);
    lemma_keys_around(l, x, r, v);
    let one = seq![x];
    let new = seq![v];
    if v.rank() < x.rank() {
        assert(keys_below(l, v) + new + (keys_above(l, v) + one + r) =~= keys_below(l, v) + new + keys_above(l, v)
            + one + r);
    } else if x.rank() < v.rank() {
        assert(l + one + keys_below(r, v) + new + keys_above(r, v) =~= l + one + (keys_below(r, v) + new
            + keys_above(r, v)));
    }
}

/// One step of a deletion: what taking `v` out of an ascending
/// `l + [x] + r` comes to on the side of `x` where `v` belongs, and at `x`.
pub proof fn lemma_without_key_step<T: TreeKey>(l: Seq<T>, x: T, r: Seq<T>, v: T)
    requires
        strictly_increasing(l + seq![x] + r),
    ensures
        strictly_increasing(l),
        strictly_increasing(r),
        v.rank() < x.rank() ==> {
            &&& without_key(l + seq![x] + r, v) == without_key(l, v) + seq![x] + r
            &&& (l + seq![x] + r).contains(v) <==> l.contains(v)
        },
        x.rank() < v.rank() ==> {
            &&& without_key(l + seq![x] + r, v) == l + seq![x] + without_key(r, v)
            &&& (l + seq![x] + r).contains(v) <==> r.contains(v)
        },
        x.rank() == v.rank() ==> {
            &&& x == v
            &&& (l + seq![x] + r).contains(v)
            &&& without_key(l + seq![x] + r, v) == l + r
        },
{
    lemma_increasing_around(l, x, r);
    lemma_contains_by_side(l, x, r, v);
    lemma_keys_around(l, x, r, v);
    let one = seq![x];
    if v.rank() < x.rank() {
        assert(keys_below(l, v) + (keys_above(l, v) + one + r) =~= keys_below(l, v) + keys_above(l, v) + one + r);
    } else if x.rank() < v.rank() {
        assert(l + one + keys_below(r, v) + keys_above(r, v) =~= l + one + (keys_below(r, v) + keys_above(r, v)));
    }
}

/// Taking the first key out of a non-empty ascending sequence leaves the
/// rest.
pub proof fn lemma_without_first<T: TreeKey>(s: Seq<T>)
    requires
        strictly_increasing(s),
        s.len() >= 1,
    ensures
        without_key(s, s[0]) == s.drop_first(),
        s.contains(s[0]),
{
    let e = Seq::<T>::empty();
    assert(e + seq![s[0]] + s.drop_first() =~= s);
    lemma_keys_around(e, s[0], s.drop_first(), s[0]);
    assert(e + s.drop_first() =~= s.drop_first());
}

/// A sequence, then the first key of a second one, then the rest of the
/// second: the two sequences one after the other.
pub proof fn lemma_first_then_rest<T>(l: Seq<T>, s: Seq<T>)
    requires
        s.len() >= 1,
    ensures
        l + seq![s[0]] + s.drop_first() == l + s,
{
    assert(l + seq![s[0]] + s.drop_first() =~= l + s);
}

/// What a filter keeps of an ascending sequence is ascending, satisfies the
/// filter, and comes from the sequence.
proof fn lemma_filter_increasing<T: TreeKey>(s: Seq<T>, p: spec_fn(T) -> bool)
    requires
        strictly_increasing(s),
    ensures
        strictly_increasing(s.filter(p)),
        forall|i: int| 0 <= i < s.filter(p).len() ==> p(#[trigger] s.filter(p)[i]),
        forall|i: int| 0 <= i < s.filter(p).len() ==> s.contains(#[trigger] s.filter(p)[i]),
    decreases s.len(),
{
    reveal(Seq::filter);
    reveal(strictly_increasing);
    if s.len() > 0 {
        let d = s.drop_last();
        let fd = d.filter(p);
        let f = s.filter(p);
        assert forall|i: int, j: int| 0 <= i < j < d.len() implies d[i].rank() < d[j].rank() by {
            assert(d[i] == s[i] && d[j] == s[j]);
        }
        lemma_filter_increasing(d, p);
        assert forall|i: int| 0 <= i < fd.len() implies s.contains(#[trigger] fd[i]) && fd[i].rank()
            < s.last().rank() by {
            assert(d.contains(fd[i]));
            let k = choose|k: int| 0 <= k < d.len() && d[k] == fd[i];
            assert(s[k] == fd[i]);
        }
        if p(s.last()) {
            assert(f == fd.push(s.last()));
            assert(s[s.len() - 1] == s.last());
            assert forall|i: int| 0 <= i < f.len() implies s.contains(#[trigger] f[i]) && p(f[i]) by {
                if i < fd.len() {
                    assert(f[i] == fd[i]);
                }
            }
            assert forall|i: int, j: int| 0 <= i < j < f.len() implies f[i].rank() < f[j].rank() by {
                assert(f[i] == fd[i]);
                if j < fd.len() {
                    assert(f[j] == fd[j]);
                }
            }
        } else {
            assert(f == fd);
        }
    }
}

/// The keys below `v` in an ascending sequence ascend and lie below `v`;
/// the keys above `v` ascend and lie above `v`.
pub proof fn lemma_keys_split_increasing<T: TreeKey>(s: Seq<T>, v: T)
    requires
        strictly_increasing(s),
    ensures
        strictly_increasing(keys_below(s, v)),
        strictly_increasing(keys_above(s, v)),
        all_below(keys_below(s, v), v),
        all_above(keys_above(s, v), v),
{
    reveal(keys_below);
    reveal(keys_above);
    reveal(all_below);
    reveal(all_above);
    lemma_filter_increasing(s, |k: T| k.rank() < v.rank());
    lemma_filter_increasing(s, |k: T| v.rank() < k.rank());
}

/// Which keys are among the keys below `v` and among the keys above `v`.
pub proof fn lemma_keys_split_members<T: TreeKey>(s: Seq<T>, v: T, x: T)
    requires
        strictly_increasing(s),
    ensures
        keys_below(s, v).contains(x) <==> s.contains(x) && x.rank() < v.rank(),
        keys_above(s, v).contains(x) <==> s.contains(x) && v.rank() < x.rank(),
{
    reveal(keys_below);
    reveal(keys_above);
    let lt = |k: T| k.rank() < v.rank();
    let gt = |k: T| v.rank() < k.rank();
    lemma_filter_increasing(s, lt);
    lemma_filter_increasing(s, gt);
    if s.contains(x) {
        let i = choose|i: int| 0 <= i < s.len() && s[i] == x;
        if lt(x) {
            Seq::lemma_filter_contains(s, lt, i);
        }
        if gt(x) {
            Seq::lemma_filter_contains(s, gt, i);
        }
    }
    if s.filter(lt).contains(x) {
        let i = choose|i: int| 0 <= i < s.filter(lt).len() && s.filter(lt)[i] == x;
        assert(lt(s.filter(lt)[i]));
        assert(s.contains(s.filter(lt)[i]));
    }
    if s.filter(gt).contains(x) {
        let i = choose|i: int| 0 <= i < s.filter(gt).len() && s.filter(gt)[i] == x;
        assert(gt(s.filter(gt)[i]));
        assert(s.contains(s.filter(gt)[i]));
    }
}

/// Membership in `l + r`.
pub proof fn lemma_contains_either<T>(l: Seq<T>, r: Seq<T>, v: T)
    ensures
        (l + r).contains(v) <==> (l.contains(v) || r.contains(v)),
{
    let s = l + r;
    let n = l.len() as int;
    if s.contains(v) {
        let i = choose|i: int| 0 <= i < s.len() && s[i] == v;
        if i < n {
            assert(l[i] == v);
        } else {
            assert(r[i - n] == v);
        }
    }
    if l.contains(v) {
        let i = choose|i: int| 0 <= i < l.len() && l[i] == v;
        assert(s[i] == v);
    }
    if r.contains(v) {
        let i = choose|i: int| 0 <= i < r.len() && r[i] == v;
        assert(s[n + i] == v);
    }
}

/// After `v` is put into an ascending sequence, the sequence holds `v` and
/// what it held before.
pub proof fn lemma_with_key_contains<T: TreeKey>(s: Seq<T>, v: T, x: T)
    requires
        strictly_increasing(s),
    ensures
        with_key(s, v).contains(x) <==> (s.contains(x) || x == v),
{
    lemma_keys_split_members(s, v, x);
    lemma_contains_around(keys_below(s, v), v, keys_above(s, v), x);
    if x.rank() == v.rank() {
        T::rank_is_injective(x, v);
    }
}

/// After `v` is taken out of an ascending sequence, the sequence holds what
/// it held before but `v`.
pub proof fn lemma_without_key_contains<T: TreeKey>(s: Seq<T>, v: T, x: T)
    requires
        strictly_increasing(s),
    ensures
        without_key(s, v).contains(x) <==> (s.contains(x) && x != v),
{
    lemma_keys_split_members(s, v, x);
    lemma_contains_either(keys_below(s, v), keys_above(s, v), x);
    if x.rank() == v.rank() {
        T::rank_is_injective(x, v);
    }
}

/// Putting a key in its place in an ascending sequence leaves it ascending.
pub proof fn lemma_with_key_increasing<T: TreeKey>(s: Seq<T>, v: T)
    requires
        strictly_increasing(s),
    ensures
        strictly_increasing(with_key(s, v)),
{
    lemma_keys_split_increasing(s, v);
    lemma_increasing_around(keys_below(s, v), v, keys_above(s, v));
}

/// Taking a key out of an ascending sequence leaves it ascending.
pub proof fn lemma_without_key_increasing<T: TreeKey>(s: Seq<T>, v: T)
    requires
        strictly_increasing(s),
    ensures
        strictly_increasing(without_key(s, v)),
{
    lemma_keys_split_increasing(s, v);
    reveal(strictly_increasing);
    reveal(all_below);
    reveal(all_above);
    let b = keys_below(s, v);
    let a = keys_above(s, v);
    let w = b + a;
    assert forall|i: int, j: int| 0 <= i < j < w.len() implies w[i].rank() < w[j].rank() by {
        if i < b.len() {
            assert(w[i] == b[i]);
        } else {
            assert(w[i] == a[i - b.len()]);
        }
        if j < b.len() {
            assert(w[j] == b[j]);
        } else {
            assert(w[j] == a[j - b.len()]);
        }
    }
}

/// Putting a key in its place in an ascending sequence that holds it
/// changes nothing.
pub proof fn lemma_with_key_present<T: TreeKey>(s: Seq<T>, v: T)
    requires
        strictly_increasing(s),
        s.contains(v),
    ensures
        with_key(s, v) == s,
{
    let i = choose|i: int| 0 <= i < s.len() && s[i] == v;
    let l = s.take(i);
    let r = s.skip(i + 1);
    assert(l + seq![v] + r =~= s);
    lemma_keys_around(l, v, r, v);
}

/// Taking a key out of an ascending sequence that does not hold it changes
/// nothing.
pub proof fn lemma_without_key_absent<T: TreeKey>(s: Seq<T>, v: T)
    requires
        strictly_increasing(s),
        !s.contains(v),
    ensures
        without_key(s, v) == s,
    decreases s.len(),
{
    let e = Seq::<T>::empty();
    if s.len() == 0 {
        assert(s =~= e);
        lemma_no_keys(v);
        assert(e + e =~= e);
    } else {
        let d = s.drop_last();
        let x = s.last();
        assert(d + seq![x] + e =~= s);
        lemma_without_key_step(d, x, e, v);
        lemma_no_keys(v);
        if v.rank() < x.rank() {
            lemma_without_key_absent(d, v);
        } else {
            assert(e + e =~= e);
        }
    }
}

/// Putting a key into an ascending sequence adds one key where the key is
/// new and none where it is not.
pub proof fn lemma_with_key_len<T: TreeKey>(s: Seq<T>, v: T)
    requires
        strictly_increasing(s),
    ensures
        with_key(s, v).len() == if s.contains(v) { s.len() } else { s.len() + 1 },
        with_key(s, v).contains(v),
{
    if s.contains(v) {
        lemma_with_key_present(s, v);
    } else {
        lemma_without_key_absent(s, v);
    }
    assert(with_key(s, v)[keys_below(s, v).len() as int] == v);
}

/// Taking a key out of an ascending sequence removes one key where the
/// sequence holds the key and none where it does not.
pub proof fn lemma_without_key_len<T: TreeKey>(s: Seq<T>, v: T)
    requires
        strictly_increasing(s),
    ensures
        without_key(s, v).len() == if s.contains(v) { s.len() - 1 } else { s.len() as int },
        !without_key(s, v).contains(v),
{
    if s.contains(v) {
        let i = choose|i: int| 0 <= i < s.len() && s[i] == v;
        let l = s.take(i);
        let r = s.skip(i + 1);
        assert(l + seq![v] + r =~= s);
        lemma_keys_around(l, v, r, v);
    } else {
        lemma_without_key_absent(s, v);
    }
    lemma_keys_split_increasing(s, v);
    lemma_keys_of_lower(keys_below(s, v), v);
    lemma_keys_of_upper(keys_above(s, v), v);
    let b = keys_below(s, v);
    let a = keys_above(s, v);
    if (b + a).contains(v) {
        let j = choose|j: int| 0 <= j < (b + a).len() && (b + a)[j] == v;
        if j < b.len() {
            assert(b[j] == v);
        } else {
            assert(a[j - b.len()] == v);
        }
    }
}

/// The sequence of the one key `v` is what `with_key` makes of no keys.
pub proof fn lemma_with_key_alone<T: TreeKey>(v: T)
    ensures
        with_key(Seq::<T>::empty(), v) == seq![v],
{
    lemma_no_keys(v);
    assert(with_key(Seq::<T>::empty(), v) =~= seq![v]);
}

/// Whether the keys of `v` are in strictly ascending order.
pub fn is_strictly_increasing<T: TreeKey>(v: &Vec<T>) -> (b: bool)
    ensures
        b == strictly_increasing(v@),
{
    proof {
        reveal(strictly_increasing);
    }
    if v.len() < 2 {
        return true;
    }
    let mut i: usize = 1;
    while i < v.len()
        invariant
            1 <= i <= v.len(),
            forall|j: int, k: int| 0 <= j < k < i ==> v@[j].rank() < v@[k].rank(),
        decreases v.len() - i,
    {
        if !v[i - 1].less_than(&v[i]) {
            proof {
                reveal(strictly_increasing);
                if strictly_increasing(v@) {
                    assert(v@[i - 1].rank() < v@[i as int].rank());
                }
            }
            return false;
        }
        i = i + 1;
    }
    true
}

} // verus!
