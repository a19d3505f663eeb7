//! Genealogy: the women are numbered 1..n, woman 1 is the ancestor of all,
//! and each other woman has a mother. A depth-first walk gives each woman
//! an interval of visiting times; `a` is an ancestor of `b` exactly when
//! `a`'s interval strictly contains the start of `b`'s and all of it.
use vstd::prelude::*;

verus! {

/// The bit that marks a node on the stack as one to leave.
pub const MARK_BIT: u32 = 0x8000_0000;

/// `(child, mother)` pairs, sorted by mother.
pub open spec fn sorted_by_mother(arr: Seq<(u32, u32)>) -> bool {
    forall|i: int, j: int| 0 <= i <= j < arr.len() ==> #[trigger] arr[i].1 <= #[trigger] arr[j].1
}

/// The number of pairs whose mother is below `value`.
pub open spec fn lower_bound(arr: Seq<(u32, u32)>, value: u32, k: int) -> bool {
    &&& 0 <= k <= arr.len()
    &&& forall|j: int| 0 <= j < k ==> #[trigger] arr[j].1 < value
    &&& forall|j: int| k <= j < arr.len() ==> #[trigger] arr[j].1 >= value
}

/// Finds the first pair whose mother is `value`: `Ok` with its index, or
/// `Err` with the index where such a pair would go.
pub fn binary_search_leftmost(arr: &[(u32, u32)], value: &u32) -> (res: Result<usize, usize>)
    requires
        sorted_by_mother(arr@),
    ensures
        match res {
            Ok(k) => lower_bound(arr@, *value, k as int) && k < arr.len() && arr@[k as int].1
                == *value,
            Err(k) => lower_bound(arr@, *value, k as int) && !(k < arr.len() && arr@[k as int].1
                == *value),
        },
{
    let mut left: usize = 0;
    let mut right: usize = arr.len();
    while left < right
        invariant
            sorted_by_mother(arr@),
            left <= right <= arr.len(),
            forall|j: int| 0 <= j < left ==> #[trigger] arr@[j].1 < *value,
            forall|j: int| right <= j < arr.len() ==> #[trigger] arr@[j].1 >= *value,
        decreases right - left,
    {
        let mid = left + (right - left) / 2;
        if arr[mid].1 < *value {
            left = mid + 1;
        } else {
            right = mid;
        }
    }
    if left < arr.len() && arr[left].1 == *value {
        Ok(left)
    } else {
        Err(left)
    }
}

/// `u`'s interval strictly contains the start of `v`'s and all of it.
pub open spec fn nested(times: Seq<Option<(u32, u32)>>, u: int, v: int) -> bool {
    match (times[u], times[v]) {
        (Some((l, r)), Some((li, ri))) => l < li && ri <= r,
        _ => false,
    }
}

/// Whether `u` is an ancestor of `v`, read off the visiting times.
pub fn is_ancestor(u: usize, v: usize, times: &[Option<(u32, u32)>]) -> (res: bool)
    requires
        u < times.len(),
        v < times.len(),
    ensures
        res == nested(times@, u as int, v as int),
{
    if let Some((l, r)) = times[u] {
        if let Some((li, ri)) = times[v] {
            return l < li && ri <= r;
        }
    }
    false
}

/// The node of a stack entry, without the mark bit.
pub fn unmark(x: u32) -> (r: usize)
    ensures
        r == if x >= MARK_BIT {
            x - MARK_BIT
        } else {
            x as int
        },
{
    proof {
        assert(x >= 0x8000_0000u32 ==> (x & 0x7fff_ffffu32) == x - 0x8000_0000u32) by (bit_vector);
        assert(x < 0x8000_0000u32 ==> (x & 0x7fff_ffffu32) == x) by (bit_vector);
    }
    (x & 0x7fff_ffff) as usize
}

/// A node with the mark bit set.
pub fn mark(x: u32) -> (r: u32)
    ensures
        r == if x >= MARK_BIT {
            x as int
        } else {
            x + MARK_BIT
        },
{
    proof {
        assert(x >= 0x8000_0000u32 ==> (x | 0x8000_0000u32) == x) by (bit_vector);
        assert(x < 0x8000_0000u32 ==> (x | 0x8000_0000u32) == x + 0x8000_0000u32) by (bit_vector);
        assert(1u32 << 31u32 == 0x8000_0000u32) by (bit_vector);
    }
    x | (1 << 31)
}

// ---------------------------------------------------------------------
// The family tree
// ---------------------------------------------------------------------

/// `v` is a descendant of `u`, `k` generations down (`k == 0`: `v` is `u`).
pub open spec fn desc(arr: Seq<(u32, u32)>, u: int, v: int, k: nat) -> bool
    decreases k,
{
    if k == 0 {
        v == u
    } else {
        exists|i: int| 0 <= i < arr.len() && #[trigger] arr[i].0 == v && desc(arr, u, arr[i].1 as int, (k - 1) as nat)
    }
}

/// `u` is an ancestor of `v` (and not `v` itself).
pub open spec fn proper_ancestor(arr: Seq<(u32, u32)>, u: int, v: int) -> bool {
    exists|k: nat| k >= 1 && #[trigger] desc(arr, u, v, k)
}

/// `arr` lists the mother of each of the women `2..=n` (`n = arr.len() + 1`)
/// as `(daughter, mother)`, sorted by mother, and every woman descends
/// from woman 1.
pub open spec fn family(arr: Seq<(u32, u32)>) -> bool {
    let n = arr.len() + 1;
    &&& n < MARK_BIT
    &&& sorted_by_mother(arr)
    &&& forall|i: int| 0 <= i < arr.len() ==> 2 <= #[trigger] arr[i].0 <= n && 1 <= arr[i].1 <= n
    &&& forall|i: int, j: int|
        0 <= i < arr.len() && 0 <= j < arr.len() && i != j ==> #[trigger] arr[i].0 != #[trigger] arr[j].0
    &&& forall|v: int| 1 <= v <= n ==> #[trigger] rooted(arr, v)
}

/// `v` descends from woman 1.
pub open spec fn rooted(arr: Seq<(u32, u32)>, v: int) -> bool {
    exists|k: nat| #[trigger] desc(arr, 1, v, k)
}

// ---------------------------------------------------------------------
// The walk
// ---------------------------------------------------------------------

/// The node of a stack entry.
pub open spec fn node_of(t: u32) -> int {
    if t >= MARK_BIT {
        t - MARK_BIT
    } else {
        t as int
    }
}

/// `a`'s leaving mark is on the stack: `a` is entered and not yet left.
pub open spec fn is_open(stack: Seq<u32>, a: int) -> bool {
    exists|q: int| 0 <= q < stack.len() && #[trigger] stack[q] as int == a + MARK_BIT
}

/// `c` waits on the stack to be entered.
pub open spec fn is_pending(stack: Seq<u32>, c: int) -> bool {
    exists|q: int| 0 <= q < stack.len() && #[trigger] stack[q] as int == c
}

/// `v` has been entered: it has visiting times.
pub open spec fn entered(times: Seq<Option<(u32, u32)>>, v: int) -> bool {
    times[v] is Some
}

/// The time `v` was entered.
pub open spec fn entry(times: Seq<Option<(u32, u32)>>, v: int) -> int {
    times[v].unwrap().0 as int
}

/// The last time at which `v` or one of its descendants was entered.
pub open spec fn exit(times: Seq<Option<(u32, u32)>>, v: int) -> int {
    times[v].unwrap().1 as int
}

/// Some woman among `1..=n` was entered at time `t`.
pub open spec fn is_entry_time(times: Seq<Option<(u32, u32)>>, n: int, t: int) -> bool {
    exists|v: int| 1 <= v <= n && entered(times, v) && #[trigger] entry(times, v) == t
}

/// `v` was entered while `u` was open: at `u`'s entry or later, up to `u`'s exit.
pub open spec fn within(times: Seq<Option<(u32, u32)>>, u: int, v: int) -> bool {
    entry(times, u) <= entry(times, v) <= exit(times, u)
}

/// The entry times so far: no two women share one, the times `0..timer`
/// are all taken, and woman 1 came first.
#[verifier::opaque]
pub open spec fn entries_ok(times: Seq<Option<(u32, u32)>>, n: int, timer: int) -> bool {
    &&& forall|u: int, v: int|
        1 <= u <= n && 1 <= v <= n && u != v && #[trigger] entered(times, u) && #[trigger] entered(
            times,
            v,
        ) ==> entry(times, u) != entry(times, v)
    &&& forall|t: int| 0 <= t < timer ==> #[trigger] is_entry_time(times, n, t)
    &&& timer > 0 ==> entry(times, 1) == 0
}

/// Entering `c` at time `timer` keeps the entry times in order.
proof fn lemma_entries_enter(times: Seq<Option<(u32, u32)>>, n: int, timer: int, c: int)
    requires
        times.len() == n + 1,
        1 <= c <= n,
        0 <= timer < MARK_BIT,
        !entered(times, c),
        forall|v: int| 1 <= v <= n && #[trigger] entered(times, v) ==> entry(times, v) < timer,
        entries_ok(times, n, timer),
        timer == 0 ==> c == 1,
        timer > 0 ==> entered(times, 1),
    ensures
        entries_ok(times.update(c, Some((timer as u32, timer as u32))), n, timer + 1),
{
    reveal(entries_ok);
    let t2 = times.update(c, Some((timer as u32, timer as u32)));
    assert(entry(t2, c) == timer);
    assert forall|u: int, v: int|
        1 <= u <= n && 1 <= v <= n && u != v && #[trigger] entered(t2, u) && #[trigger] entered(
            t2,
            v,
        ) implies entry(t2, u) != entry(t2, v) by {
        if u != c && v != c {
            assert(entered(times, u) && entered(times, v));
        } else if u == c {
            assert(entered(times, v));
        } else {
            assert(entered(times, u));
        }
    }
    assert forall|t: int| 0 <= t < timer + 1 implies #[trigger] is_entry_time(t2, n, t) by {
        if t == timer {
            assert(entered(t2, c) && entry(t2, c) == t);
        } else {
            assert(is_entry_time(times, n, t));
            let v = choose|v: int| 1 <= v <= n && entered(times, v) && #[trigger] entry(times, v) == t;
            assert(v != c);
            assert(entered(t2, v) && entry(t2, v) == t);
        }
    }
}

/// Setting `a`'s exit time keeps the entry times.
proof fn lemma_entries_exit(times: Seq<Option<(u32, u32)>>, n: int, timer: int, a: int, x: u32)
    requires
        times.len() == n + 1,
        1 <= a <= n,
        entered(times, a),
        entries_ok(times, n, timer),
    ensures
        entries_ok(times.update(a, Some((times[a].unwrap().0, x))), n, timer),
{
    reveal(entries_ok);
    let t2 = times.update(a, Some((times[a].unwrap().0, x)));
    assert forall|v: int| 0 <= v <= n implies #[trigger] entered(t2, v) == entered(times, v) && (
    entered(times, v) ==> entry(t2, v) == entry(times, v)) by {}
    assert forall|u: int, v: int|
        1 <= u <= n && 1 <= v <= n && u != v && #[trigger] entered(t2, u) && #[trigger] entered(
            t2,
            v,
        ) implies entry(t2, u) != entry(t2, v) by {
        assert(entered(times, u) && entered(times, v));
    }
    assert forall|t: int| 0 <= t < timer implies #[trigger] is_entry_time(t2, n, t) by {
        assert(is_entry_time(times, n, t));
        let v = choose|v: int| 1 <= v <= n && entered(times, v) && #[trigger] entry(times, v) == t;
        assert(entered(t2, v) && entry(t2, v) == t);
    }
}

/// `v` has been entered and left.
pub open spec fn finished(stack: Seq<u32>, times: Seq<Option<(u32, u32)>>, v: int) -> bool {
    entered(times, v) && !is_open(stack, v)
}

/// The state of the walk after `timer` women have been entered.
pub open spec fn walk_inv(
    arr: Seq<(u32, u32)>,
    stack: Seq<u32>,
    times: Seq<Option<(u32, u32)>>,
    timer: int,
    ent: Set<int>,
) -> bool {
    let n = arr.len() + 1;
    &&& times.len() == n + 1
    &&& 0 <= timer <= n
    &&& ent.finite()
    &&& ent.len() == timer
    &&& forall|v: int| #[trigger] ent.contains(v) <==> 1 <= v <= n && entered(times, v)
    &&& !entered(times, 0)
    &&& timer == 0 ==> stack == seq![1u32]
    &&& timer > 0 ==> entered(times, 1)
    // the entries of the stack
    &&& forall|q: int| 0 <= q < stack.len() ==> 1 <= node_of(#[trigger] stack[q]) <= n
    &&& forall|q: int|
        0 <= q < stack.len() && #[trigger] stack[q] >= MARK_BIT ==> entered(times, node_of(stack[q]))
    &&& forall|q: int|
        0 <= q < stack.len() && #[trigger] stack[q] < MARK_BIT ==> !entered(times, stack[q] as int)
    &&& forall|q1: int, q2: int|
        0 <= q1 < stack.len() && 0 <= q2 < stack.len() && q1 != q2 ==> #[trigger] stack[q1]
            != #[trigger] stack[q2]
    // every mark lies below the descendants of its node
    &&& forall|q: int, p: int|
        0 <= q < p < stack.len() && #[trigger] stack[q] >= MARK_BIT ==> proper_ancestor(
            arr,
            node_of(stack[q]),
            node_of(#[trigger] stack[p]),
        )
    &&& forall|p: int, i: int|
        0 <= p < stack.len() && 0 <= i < arr.len() && #[trigger] arr[i].0 == node_of(
            #[trigger] stack[p],
        ) ==> exists|q: int| 0 <= q < p && #[trigger] stack[q] as int == arr[i].1 + MARK_BIT
    // the times
    &&& forall|v: int| 1 <= v <= n && #[trigger] entered(times, v) ==> entry(times, v) < timer
    &&& entries_ok(times, n as int, timer)
    &&& forall|v: int|
        1 <= v <= n && #[trigger] finished(stack, times, v) ==> entry(times, v) <= exit(times, v)
            < timer
    &&& forall|i: int|
        0 <= i < arr.len() && #[trigger] entered(times, arr[i].0 as int) ==> entered(
            times,
            arr[i].1 as int,
        ) && entry(times, arr[i].1 as int) < entry(times, arr[i].0 as int)
    &&& forall|i: int|
        0 <= i < arr.len() && #[trigger] finished(stack, times, arr[i].0 as int) && finished(
            stack,
            times,
            arr[i].1 as int,
        ) ==> exit(times, arr[i].0 as int) <= exit(times, arr[i].1 as int)
    &&& forall|i: int|
        0 <= i < arr.len() && #[trigger] entered(times, arr[i].1 as int) ==> entered(
            times,
            arr[i].0 as int,
        ) || is_pending(stack, arr[i].0 as int)
    // what is entered while a woman is open descends from her
    &&& forall|a: int, v: int|
        1 <= a <= n && #[trigger] is_open(stack, a) && #[trigger] entered(times, v) && 1 <= v <= n
            && entry(times, v) > entry(times, a) ==> proper_ancestor(arr, a, v)
    &&& forall|a: int, v: int|
        1 <= a <= n && 1 <= v <= n && #[trigger] finished(stack, times, a) && #[trigger] entered(
            times,
            v,
        ) && entry(times, a) < entry(times, v) <= exit(times, a) ==> proper_ancestor(arr, a, v)
}

// ---------------------------------------------------------------------
// Facts about the tree
// ---------------------------------------------------------------------

/// An ancestor of the mother is an ancestor of the daughter.
proof fn lemma_anc_child(arr: Seq<(u32, u32)>, a: int, c: int, i: int)
    requires
        0 <= i < arr.len(),
        arr[i].1 == c,
        proper_ancestor(arr, a, c) || a == c,
    ensures
        proper_ancestor(arr, a, arr[i].0 as int),
{
    let v = arr[i].0 as int;
    if a == c {
        assert(desc(arr, a, c, 0));
        assert(desc(arr, a, v, 1));
    } else {
        let k = choose|k: nat| k >= 1 && #[trigger] desc(arr, a, c, k);
        assert(desc(arr, a, v, k + 1));
    }
}

/// The pairs with mother `c` are exactly those at `lo..hi`.
pub open spec fn children_at(arr: Seq<(u32, u32)>, c: int, lo: int, hi: int) -> bool {
    &&& 0 <= lo <= hi <= arr.len()
    &&& forall|i: int| 0 <= i < arr.len() ==> (lo <= i < hi <==> #[trigger] arr[i].1 == c)
}

/// Opening after a pop: a node other than the popped mark's stays open as it was.
proof fn lemma_open_pop(stack: Seq<u32>, v: int)
    requires
        stack.len() > 0,
        stack.last() as int != v + MARK_BIT,
        stack.last() as int != v,
    ensures
        is_open(stack.drop_last(), v) == is_open(stack, v),
        is_pending(stack.drop_last(), v) == is_pending(stack, v),
{
    let s0 = stack.drop_last();
    if is_open(stack, v) {
        let q = choose|q: int| 0 <= q < stack.len() && #[trigger] stack[q] as int == v + MARK_BIT;
        assert(s0[q] == stack[q]);
    }
    if is_open(s0, v) {
        let q = choose|q: int| 0 <= q < s0.len() && #[trigger] s0[q] as int == v + MARK_BIT;
        assert(stack[q] == s0[q]);
    }
    if is_pending(stack, v) {
        let q = choose|q: int| 0 <= q < stack.len() && #[trigger] stack[q] as int == v;
        assert(s0[q] == stack[q]);
    }
    if is_pending(s0, v) {
        let q = choose|q: int| 0 <= q < s0.len() && #[trigger] s0[q] as int == v;
        assert(stack[q] == s0[q]);
    }
}

/// Leaving the woman whose mark is on top of the stack.
proof fn lemma_exit(
    arr: Seq<(u32, u32)>,
    stack: Seq<u32>,
    times: Seq<Option<(u32, u32)>>,
    timer: int,
    ent: Set<int>,
    a: int,
)
    requires
        family(arr),
        walk_inv(arr, stack, times, timer, ent),
        stack.len() > 0,
        1 <= a,
        stack.last() as int == a + MARK_BIT,
    ensures
        timer >= 1,
        1 <= a <= arr.len() + 1,
        entered(times, a),
        walk_inv(
            arr,
            stack.drop_last(),
            times.update(a, Some((times[a].unwrap().0, (timer - 1) as u32))),
            timer,
            ent,
        ),
{
    let n = arr.len() + 1;
    let top = stack.len() - 1;
    let s2 = stack.drop_last();
    let t2 = times.update(a, Some((times[a].unwrap().0, (timer - 1) as u32)));
    assert(stack[top] >= MARK_BIT);
    assert(node_of(stack[top]) == a);
    lemma_entries_exit(times, n as int, timer, a, (timer - 1) as u32);
    assert(node_of(stack[top]) == a);
    assert(entered(times, a));
    assert(entry(times, a) < timer);
    assert(is_open(stack, a));
    assert forall|v: int| 0 <= v <= n implies #[trigger] entered(t2, v) == entered(times, v) by {}
    assert forall|v: int| 0 <= v <= n && entered(t2, v) implies #[trigger] entry(t2, v) == entry(
        times,
        v,
    ) by {}
    assert forall|v: int| 0 <= v <= n && v != a implies #[trigger] is_open(s2, v) == is_open(
        stack,
        v,
    ) && is_pending(s2, v) == is_pending(stack, v) by {
        lemma_open_pop(stack, v);
    }
    assert(!is_open(s2, a)) by {
        if is_open(s2, a) {
            let q = choose|q: int| 0 <= q < s2.len() && #[trigger] s2[q] as int == a + MARK_BIT;
            assert(stack[q] == stack[top]);
        }
    }
    assert forall|v: int| 0 <= v <= n && v != a implies #[trigger] finished(s2, t2, v) == finished(
        stack,
        times,
        v,
    ) && (finished(s2, t2, v) ==> exit(t2, v) == exit(times, v)) by {
        lemma_open_pop(stack, v);
    }
    assert(finished(s2, t2, a));
    // every daughter of `a` is finished
    assert forall|i: int| 0 <= i < arr.len() && arr[i].1 == a implies #[trigger] finished(
        stack,
        times,
        arr[i].0 as int,
    ) by {
        let v = arr[i].0 as int;
        assert(entered(times, a));
        if is_pending(stack, v) {
            let p = choose|p: int| 0 <= p < stack.len() && #[trigger] stack[p] as int == v;
            assert(node_of(stack[p]) == v);
            let q = choose|q: int| 0 <= q < p && #[trigger] stack[q] as int == arr[i].1 + MARK_BIT;
            assert(stack[q] == stack[top]);
            assert(false);
        }
        assert(entered(times, v));
        if is_open(stack, v) {
            let p = choose|p: int| 0 <= p < stack.len() && #[trigger] stack[p] as int == v + MARK_BIT;
            assert(node_of(stack[p]) == v);
            let q = choose|q: int| 0 <= q < p && #[trigger] stack[q] as int == arr[i].1 + MARK_BIT;
            assert(stack[q] == stack[top]);
            assert(false);
        }
    }
    // stack facts carry over to the shorter stack
    assert forall|p: int, i: int|
        0 <= p < s2.len() && 0 <= i < arr.len() && #[trigger] arr[i].0 == node_of(#[trigger] s2[p])
        implies exists|q: int| 0 <= q < p && #[trigger] s2[q] as int == arr[i].1 + MARK_BIT by {
        assert(s2[p] == stack[p]);
        let q = choose|q: int| 0 <= q < p && #[trigger] stack[q] as int == arr[i].1 + MARK_BIT;
        assert(s2[q] == stack[q]);
    }
    assert forall|i: int|
        0 <= i < arr.len() && #[trigger] finished(s2, t2, arr[i].0 as int) && finished(
            s2,
            t2,
            arr[i].1 as int,
        ) implies exit(t2, arr[i].0 as int) <= exit(t2, arr[i].1 as int) by {
        let v = arr[i].0 as int;
        let m = arr[i].1 as int;
        if m == a {
            assert(finished(stack, times, v));
        } else if v == a {
            // the mother of `a` is still open
            assert(node_of(stack[top]) == a);
            let q = choose|q: int| 0 <= q < top && #[trigger] stack[q] as int == arr[i].1 + MARK_BIT;
            assert(s2[q] == stack[q]);
            assert(is_open(s2, m));
        }
    }
    assert forall|x: int, v: int|
        1 <= x <= n && 1 <= v <= n && #[trigger] finished(s2, t2, x) && #[trigger] entered(t2, v)
            && entry(t2, x) < entry(t2, v) <= exit(t2, x) implies proper_ancestor(arr, x, v) by {
        if x == a {
            assert(1 <= a <= n);
            assert(is_open(stack, a) && entered(times, v) && entry(times, v) > entry(times, a));
        } else {
            assert(finished(stack, times, x));
        }
    }
    assert forall|x: int, v: int|
        1 <= x <= n && #[trigger] is_open(s2, x) && #[trigger] entered(t2, v) && 1 <= v <= n
            && entry(t2, v) > entry(t2, x) implies proper_ancestor(arr, x, v) by {
        let q = choose|q: int| 0 <= q < s2.len() && #[trigger] s2[q] as int == x + MARK_BIT;
        assert(s2[q] == stack[q]);
        assert(is_open(stack, x));
        assert(x != a);
        assert(entered(times, v));
        assert(entry(t2, x) == entry(times, x));
    }
    assert forall|i: int|
        0 <= i < arr.len() && #[trigger] entered(t2, arr[i].1 as int) implies entered(
        t2,
        arr[i].0 as int,
    ) || is_pending(s2, arr[i].0 as int) by {
        let v = arr[i].0 as int;
        if !entered(times, v) {
            assert(is_pending(stack, v));
            lemma_open_pop(stack, v);
        }
    }
    assert forall|v: int|
        1 <= v <= n && #[trigger] finished(s2, t2, v) implies entry(t2, v) <= exit(t2, v) < timer by {
        if v != a {
            assert(finished(stack, times, v));
        }
    }
    assert forall|q: int, p: int|
        0 <= q < p < s2.len() && #[trigger] s2[q] >= MARK_BIT implies proper_ancestor(
        arr,
        node_of(s2[q]),
        node_of(#[trigger] s2[p]),
    ) by {
        assert(s2[q] == stack[q] && s2[p] == stack[p]);
    }
    assert forall|q1: int, q2: int|
        0 <= q1 < s2.len() && 0 <= q2 < s2.len() && q1 != q2 implies #[trigger] s2[q1]
        != #[trigger] s2[q2] by {
        assert(s2[q1] == stack[q1] && s2[q2] == stack[q2]);
    }
}

/// The stack after entering `c`: its mark and its daughters (`kids`) take
/// its place on top, when it has daughters.
pub open spec fn stack_after_entry(stack: Seq<u32>, c: int, kids: Seq<u32>) -> Seq<u32> {
    if kids.len() > 0 {
        stack.drop_last().push((c + MARK_BIT) as u32) + kids
    } else {
        stack.drop_last()
    }
}

/// `kids` are the daughters of `c`, in the order of `arr`.
pub open spec fn kids_of(arr: Seq<(u32, u32)>, c: int, kids: Seq<u32>) -> bool {
    exists|lo: int, hi: int|
        #[trigger] children_at(arr, c, lo, hi) && kids.len() == hi - lo && forall|t: int|
            0 <= t < kids.len() ==> #[trigger] kids[t] == arr[lo + t].0
}

/// Entering the woman `c` on top of the stack.
proof fn lemma_enter(
    arr: Seq<(u32, u32)>,
    stack: Seq<u32>,
    times: Seq<Option<(u32, u32)>>,
    timer: int,
    ent: Set<int>,
    c: int,
    kids: Seq<u32>,
)
    requires
        family(arr),
        walk_inv(arr, stack, times, timer, ent),
        stack.len() > 0,
        stack.last() as int == c,
        c < MARK_BIT,
        kids_of(arr, c, kids),
    ensures
        1 <= c <= arr.len() + 1,
        !entered(times, c),
        timer < arr.len() + 1,
        walk_inv(
            arr,
            stack_after_entry(stack, c, kids),
            times.update(c, Some((timer as u32, timer as u32))),
            timer + 1,
            ent.insert(c),
        ),
{
    let n = arr.len() + 1;
    let n1: int = n as int + 1;
    let top = stack.len() - 1;
    let s0 = stack.drop_last();
    let m = s0.len() as int;
    let ns = stack_after_entry(stack, c, kids);
    let t2 = times.update(c, Some((timer as u32, timer as u32)));
    let ent2 = ent.insert(c);
    let (lo, hi) = choose|lo: int, hi: int|
        #[trigger] children_at(arr, c, lo, hi) && kids.len() == hi - lo && forall|t: int|
            0 <= t < kids.len() ==> #[trigger] kids[t] == arr[lo + t].0;
    let has_kids = kids.len() > 0;
    assert(stack[top] < MARK_BIT);
    assert(node_of(stack[top]) == c);
    assert(1 <= c <= n);
    assert(!entered(times, c));
    assert(!ent.contains(c));
    // the count of entered women
    assert(ent2.len() == timer + 1);
    assert(ent2.subset_of(vstd::set_lib::set_int_range(1, n1)));
    vstd::set_lib::lemma_int_range(1, n1);
    vstd::set_lib::lemma_len_subset(ent2, vstd::set_lib::set_int_range(1, n1));
    assert(timer + 1 <= n);
    assert(timer == 0 ==> c == 1) by {
        if timer == 0 {
            assert(stack == seq![1u32]);
        }
    }
    lemma_entries_enter(times, n as int, timer, c);
    // the shape of the new stack
    assert(forall|p: int| 0 <= p < m ==> #[trigger] ns[p] == stack[p]);
    assert(has_kids ==> ns[m] as int == c + MARK_BIT);
    assert(forall|t: int| has_kids && 0 <= t < kids.len() ==> #[trigger] ns[m + 1 + t] == kids[t]);
    assert(ns.len() == if has_kids {
        m + 1 + kids.len()
    } else {
        m
    });
    // the daughters of `c`
    assert forall|t: int| 0 <= t < kids.len() implies #[trigger] arr[lo + t].1 == c
        && 2 <= kids[t] <= n by {}
    assert forall|i: int| 0 <= i < arr.len() && arr[i].1 == c implies exists|t: int|
        0 <= t < kids.len() && #[trigger] kids[t] == arr[i].0 by {
        assert(kids[i - lo] == arr[lo + (i - lo)].0);
    }
    // the daughters of `c` are neither entered nor waiting
    assert forall|i: int| 0 <= i < arr.len() && arr[i].1 == c implies !entered(
        times,
        arr[i].0 as int,
    ) && !is_pending(stack, arr[i].0 as int) by {
        if entered(times, arr[i].0 as int) {
            assert(entered(times, arr[i].1 as int));
        }
        if is_pending(stack, arr[i].0 as int) {
            let p = choose|p: int| 0 <= p < stack.len() && #[trigger] stack[p] as int == arr[i].0;
            assert(node_of(stack[p]) == arr[i].0);
            let q = choose|q: int| 0 <= q < p && #[trigger] stack[q] as int == arr[i].1 + MARK_BIT;
            assert(node_of(stack[q]) == c);
            assert(entered(times, c));
        }
    }
    // `c` was not open
    assert(!is_open(stack, c)) by {
        if is_open(stack, c) {
            let q = choose|q: int| 0 <= q < stack.len() && #[trigger] stack[q] as int == c + MARK_BIT;
            assert(node_of(stack[q]) == c);
        }
    }
    // the new stack, woman by woman
    assert forall|v: int| 1 <= v <= n implies #[trigger] is_open(ns, v) == (is_open(stack, v) || (
    has_kids && v == c)) by {
        if is_open(stack, v) {
            let q = choose|q: int| 0 <= q < stack.len() && #[trigger] stack[q] as int == v + MARK_BIT;
            assert(q != top);
            assert(ns[q] == stack[q]);
        }
        if has_kids && v == c {
            assert(ns[m] as int == c + MARK_BIT);
        }
        if is_open(ns, v) {
            let q = choose|q: int| 0 <= q < ns.len() && #[trigger] ns[q] as int == v + MARK_BIT;
            if q < m {
                assert(stack[q] == ns[q]);
            } else if q > m {
                assert(ns[q] == kids[q - m - 1]);
            }
        }
    }
    assert forall|v: int| 1 <= v <= n implies #[trigger] is_pending(ns, v) == ((is_pending(stack, v)
        && v != c) || exists|t: int| 0 <= t < kids.len() && #[trigger] kids[t] == v) by {
        if is_pending(stack, v) && v != c {
            let q = choose|q: int| 0 <= q < stack.len() && #[trigger] stack[q] as int == v;
            assert(q != top);
            assert(ns[q] == stack[q]);
        }
        if exists|t: int| 0 <= t < kids.len() && #[trigger] kids[t] == v {
            let t = choose|t: int| 0 <= t < kids.len() && #[trigger] kids[t] == v;
            assert(ns[m + 1 + t] == kids[t]);
        }
        if is_pending(ns, v) {
            let q = choose|q: int| 0 <= q < ns.len() && #[trigger] ns[q] as int == v;
            if q < m {
                assert(stack[q] == ns[q]);
                assert(v != c) by {
                    if v == c {
                        assert(stack[q] == stack[top]);
                    }
                }
            } else if q > m {
                assert(ns[q] == kids[q - m - 1]);
            } else {
                assert(ns[m] as int == c + MARK_BIT);
            }
        }
    }
    assert forall|v: int| 0 <= v <= n implies #[trigger] entered(t2, v) == (entered(times, v) || v
        == c) by {}
    assert forall|v: int| 0 <= v <= n && v != c && entered(times, v) implies #[trigger] entry(t2, v)
        == entry(times, v) && exit(t2, v) == exit(times, v) by {}
    assert(entry(t2, c) == timer && exit(t2, c) == timer);
    assert forall|v: int| 1 <= v <= n && v != c implies #[trigger] finished(ns, t2, v) == finished(
        stack,
        times,
        v,
    ) by {}
    assert(finished(ns, t2, c) == !has_kids);
    // the entries of the stack
    assert forall|q: int| 0 <= q < ns.len() implies 1 <= node_of(#[trigger] ns[q]) <= n by {
        if q > m {
            assert(ns[q] == kids[q - m - 1]);
        }
    }
    assert forall|q: int| 0 <= q < ns.len() && #[trigger] ns[q] >= MARK_BIT implies entered(
        t2,
        node_of(ns[q]),
    ) by {
        if q < m {
            assert(ns[q] == stack[q]);
        } else if q > m {
            assert(ns[q] == kids[q - m - 1]);
        }
    }
    assert forall|q: int| 0 <= q < ns.len() && #[trigger] ns[q] < MARK_BIT implies !entered(
        t2,
        ns[q] as int,
    ) by {
        if q < m {
            assert(ns[q] == stack[q]);
            assert(stack[q] != stack[top]);
        } else if q > m {
            let t = q - m - 1;
            assert(ns[q] == kids[t]);
            assert(kids[t] == arr[lo + t].0);
            assert(arr[lo + t].1 == c);
        }
    }
    assert forall|q1: int, q2: int|
        0 <= q1 < ns.len() && 0 <= q2 < ns.len() && q1 != q2 implies #[trigger] ns[q1]
        != #[trigger] ns[q2] by {
        if q1 < m && q2 < m {
            assert(ns[q1] == stack[q1] && ns[q2] == stack[q2]);
        } else if q1 > m && q2 > m {
            let t1 = q1 - m - 1;
            let t2_ = q2 - m - 1;
            assert(ns[q1] == kids[t1] && ns[q2] == kids[t2_]);
            assert(kids[t1] == arr[lo + t1].0 && kids[t2_] == arr[lo + t2_].0);
        } else if q1 < m && q2 > m {
            let t = q2 - m - 1;
            assert(ns[q1] == stack[q1] && ns[q2] == kids[t]);
            assert(kids[t] == arr[lo + t].0);
            if stack[q1] == kids[t] {
                assert(is_pending(stack, arr[lo + t].0 as int));
            }
        } else if q1 > m && q2 < m {
            let t = q1 - m - 1;
            assert(ns[q2] == stack[q2] && ns[q1] == kids[t]);
            assert(kids[t] == arr[lo + t].0);
            if stack[q2] == kids[t] {
                assert(is_pending(stack, arr[lo + t].0 as int));
            }
        } else if q1 == m {
            if q2 < m {
                assert(ns[q2] == stack[q2]);
                if stack[q2] as int == c + MARK_BIT {
                    assert(is_open(stack, c));
                }
            } else {
                assert(ns[q2] == kids[q2 - m - 1]);
            }
        } else {
            if q1 < m {
                assert(ns[q1] == stack[q1]);
                if stack[q1] as int == c + MARK_BIT {
                    assert(is_open(stack, c));
                }
            } else {
                assert(ns[q1] == kids[q1 - m - 1]);
            }
        }
    }
    // marks lie below descendants
    assert forall|q: int, p: int|
        0 <= q < p < ns.len() && #[trigger] ns[q] >= MARK_BIT implies proper_ancestor(
        arr,
        node_of(ns[q]),
        node_of(#[trigger] ns[p]),
    ) by {
        if p < m {
            assert(ns[q] == stack[q] && ns[p] == stack[p]);
        } else if p == m {
            assert(ns[q] == stack[q]);
            assert(node_of(stack[top]) == c);
            assert(proper_ancestor(arr, node_of(stack[q]), node_of(stack[top])));
        } else {
            let t = p - m - 1;
            assert(ns[p] == kids[t]);
            assert(kids[t] == arr[lo + t].0);
            if q < m {
                assert(ns[q] == stack[q]);
                assert(proper_ancestor(arr, node_of(stack[q]), node_of(stack[top])));
                lemma_anc_child(arr, node_of(stack[q]), c, lo + t);
            } else if q == m {
                lemma_anc_child(arr, c, c, lo + t);
            } else {
                assert(ns[q] == kids[q - m - 1]);
            }
        }
    }
    assert forall|p: int, i: int|
        0 <= p < ns.len() && 0 <= i < arr.len() && #[trigger] arr[i].0 == node_of(#[trigger] ns[p])
        implies exists|q: int| 0 <= q < p && #[trigger] ns[q] as int == arr[i].1 + MARK_BIT by {
        if p < m {
            assert(ns[p] == stack[p]);
            let q = choose|q: int| 0 <= q < p && #[trigger] stack[q] as int == arr[i].1 + MARK_BIT;
            assert(ns[q] == stack[q]);
        } else if p == m {
            assert(node_of(stack[top]) == c);
            let q = choose|q: int| 0 <= q < top && #[trigger] stack[q] as int == arr[i].1 + MARK_BIT;
            assert(ns[q] == stack[q]);
        } else {
            let t = p - m - 1;
            assert(ns[p] == kids[t]);
            assert(kids[t] == arr[lo + t].0);
            if i != lo + t {
                assert(arr[i].0 != arr[lo + t].0);
            }
            assert(arr[i].1 == c);
            assert(ns[m] as int == c + MARK_BIT);
        }
    }
    // the times
    assert forall|v: int| 1 <= v <= n && #[trigger] entered(t2, v) implies entry(t2, v) < timer + 1
        by {}
    assert forall|v: int|
        1 <= v <= n && #[trigger] finished(ns, t2, v) implies entry(t2, v) <= exit(t2, v) < timer
        + 1 by {
        if v != c {
            assert(finished(stack, times, v));
        }
    }
    assert forall|i: int|
        0 <= i < arr.len() && #[trigger] entered(t2, arr[i].0 as int) implies entered(
        t2,
        arr[i].1 as int,
    ) && entry(t2, arr[i].1 as int) < entry(t2, arr[i].0 as int) by {
        let v = arr[i].0 as int;
        let mo = arr[i].1 as int;
        if v == c {
            let q = choose|q: int| 0 <= q < top && #[trigger] stack[q] as int == arr[i].1 + MARK_BIT;
            assert(node_of(stack[q]) == mo);
            assert(entered(times, mo));
        } else {
            assert(entered(times, v));
            assert(entered(times, mo));
            assert(mo != c);
        }
    }
    assert forall|i: int|
        0 <= i < arr.len() && #[trigger] finished(ns, t2, arr[i].0 as int) && finished(
            ns,
            t2,
            arr[i].1 as int,
        ) implies exit(t2, arr[i].0 as int) <= exit(t2, arr[i].1 as int) by {
        let v = arr[i].0 as int;
        let mo = arr[i].1 as int;
        if v == c {
            let q = choose|q: int| 0 <= q < top && #[trigger] stack[q] as int == arr[i].1 + MARK_BIT;
            assert(ns[q] == stack[q]);
            assert(is_open(ns, mo));
        } else if mo == c {
            assert(exists|t: int| 0 <= t < kids.len() && #[trigger] kids[t] == arr[i].0);
        } else {
            assert(finished(stack, times, v));
            assert(finished(stack, times, mo));
        }
    }
    assert forall|i: int|
        0 <= i < arr.len() && #[trigger] entered(t2, arr[i].1 as int) implies entered(
        t2,
        arr[i].0 as int,
    ) || is_pending(ns, arr[i].0 as int) by {
        let v = arr[i].0 as int;
        let mo = arr[i].1 as int;
        if mo == c {
            assert(exists|t: int| 0 <= t < kids.len() && #[trigger] kids[t] == arr[i].0);
        } else {
            assert(entered(times, mo));
        }
    }
    assert forall|x: int, v: int|
        1 <= x <= n && #[trigger] is_open(ns, x) && #[trigger] entered(t2, v) && 1 <= v <= n
            && entry(t2, v) > entry(t2, x) implies proper_ancestor(arr, x, v) by {
        if x != c {
            assert(is_open(stack, x));
            if v == c {
                let q = choose|q: int| 0 <= q < stack.len() && #[trigger] stack[q] as int == x
                    + MARK_BIT;
                assert(q != top);
                assert(node_of(stack[q]) == x);
                assert(node_of(stack[top]) == c);
            }
        }
    }
    assert forall|x: int, v: int|
        1 <= x <= n && 1 <= v <= n && #[trigger] finished(ns, t2, x) && #[trigger] entered(t2, v)
            && entry(t2, x) < entry(t2, v) <= exit(t2, x) implies proper_ancestor(arr, x, v) by {
        if x != c {
            assert(finished(stack, times, x));
        }
    }
    assert(timer + 1 > 0 ==> entered(t2, 1)) by {
        if timer == 0 {
            assert(stack == seq![1u32]);
        }
    }
    assert forall|v: int| #[trigger] ent2.contains(v) <==> 1 <= v <= n && entered(t2, v) by {}
}

/// The entry times of the women `1..=n` number them in preorder: slot 0
/// has no times, each woman is entered no later than she is left and
/// before time `n`, the entry times are `0..n`, one per woman, woman 1 at
/// 0, and the women entered from `u`'s entry up to `u`'s exit are `u` and
/// her descendants (`anc(u, v)`: `u` is a proper ancestor of `v`).
pub open spec fn preorder_times(
    times: Seq<Option<(u32, u32)>>,
    n: int,
    anc: spec_fn(int, int) -> bool,
) -> bool {
    &&& times.len() == n + 1
    &&& !entered(times, 0)
    &&& forall|v: int|
        1 <= v <= n ==> #[trigger] entered(times, v) && entry(times, v) <= exit(times, v) < n
    &&& entry(times, 1) == 0
    &&& forall|u: int, v: int|
        1 <= u <= n && 1 <= v <= n && u != v ==> #[trigger] entry(times, u) != #[trigger] entry(
            times,
            v,
        )
    &&& forall|t: int| 0 <= t < n ==> #[trigger] is_entry_time(times, n, t)
    &&& forall|u: int, v: int|
        1 <= u <= n && 1 <= v <= n ==> (#[trigger] within(times, u, v) <==> u == v || anc(u, v))
}

/// What the walk ends with: every woman is entered and left, the entry
/// times are a preorder numbering, and the intervals are nested exactly
/// along the family tree.
pub open spec fn times_ok(arr: Seq<(u32, u32)>, times: Seq<Option<(u32, u32)>>) -> bool {
    let n = arr.len() + 1;
    &&& times.len() == n + 1
    &&& forall|v: int| 1 <= v <= n ==> #[trigger] entered(times, v)
    &&& preorder_times(times, n as int, |u: int, v: int| proper_ancestor(arr, u, v))
    &&& forall|u: int, v: int|
        1 <= u <= n && 1 <= v <= n ==> (#[trigger] nested(times, u, v) <==> proper_ancestor(
            arr,
            u,
            v,
        ))
}

/// Along a line of descent, entry times grow and exit times shrink.
proof fn lemma_desc_times(
    arr: Seq<(u32, u32)>,
    stack: Seq<u32>,
    times: Seq<Option<(u32, u32)>>,
    timer: int,
    ent: Set<int>,
    u: int,
    v: int,
    k: nat,
)
    requires
        family(arr),
        walk_inv(arr, stack, times, timer, ent),
        stack.len() == 0,
        forall|w: int| 1 <= w <= arr.len() + 1 ==> #[trigger] entered(times, w),
        1 <= v <= arr.len() + 1,
        k >= 1,
        desc(arr, u, v, k),
    ensures
        1 <= u <= arr.len() + 1,
        entry(times, u) < entry(times, v),
        exit(times, v) <= exit(times, u),
    decreases k,
{
    let i = choose|i: int|
        0 <= i < arr.len() && #[trigger] arr[i].0 == v && desc(arr, u, arr[i].1 as int, (k - 1) as nat);
    let w = arr[i].1 as int;
    assert(entered(times, v));
    assert(entered(times, w));
    assert(!is_open(stack, v) && !is_open(stack, w));
    assert(finished(stack, times, arr[i].0 as int) && finished(stack, times, arr[i].1 as int));
    if k > 1 {
        lemma_desc_times(arr, stack, times, timer, ent, u, w, (k - 1) as nat);
    }
}

/// Every woman who descends from woman 1 has been entered once the stack is empty.
proof fn lemma_all_entered(
    arr: Seq<(u32, u32)>,
    stack: Seq<u32>,
    times: Seq<Option<(u32, u32)>>,
    timer: int,
    ent: Set<int>,
    v: int,
    k: nat,
)
    requires
        family(arr),
        walk_inv(arr, stack, times, timer, ent),
        stack.len() == 0,
        desc(arr, 1, v, k),
    ensures
        entered(times, v),
    decreases k,
{
    if k == 0 {
        assert(timer != 0);
    } else {
        let i = choose|i: int|
            0 <= i < arr.len() && #[trigger] arr[i].0 == v && desc(arr, 1, arr[i].1 as int, (k - 1) as nat);
        lemma_all_entered(arr, stack, times, timer, ent, arr[i].1 as int, (k - 1) as nat);
        assert(entered(times, arr[i].1 as int));
        assert(!is_pending(stack, arr[i].0 as int));
    }
}

/// The end of the walk.
proof fn lemma_final(
    arr: Seq<(u32, u32)>,
    stack: Seq<u32>,
    times: Seq<Option<(u32, u32)>>,
    timer: int,
    ent: Set<int>,
)
    requires
        family(arr),
        walk_inv(arr, stack, times, timer, ent),
        stack.len() == 0,
    ensures
        times_ok(arr, times),
{
    let n = arr.len() + 1;
    assert forall|v: int| 1 <= v <= n implies #[trigger] entered(times, v) by {
        assert(rooted(arr, v));
        let k = choose|k: nat| #[trigger] desc(arr, 1, v, k);
        lemma_all_entered(arr, stack, times, timer, ent, v, k);
    }
    assert forall|v: int| 1 <= v <= n implies #[trigger] finished(stack, times, v) by {}
    assert forall|u: int, v: int| 1 <= u <= n && 1 <= v <= n implies (#[trigger] nested(
        times,
        u,
        v,
    ) <==> proper_ancestor(arr, u, v)) by {
        assert(finished(stack, times, u) && finished(stack, times, v));
        if proper_ancestor(arr, u, v) {
            let k = choose|k: nat| k >= 1 && #[trigger] desc(arr, u, v, k);
            lemma_desc_times(arr, stack, times, timer, ent, u, v, k);
        }
        if nested(times, u, v) {
            assert(entry(times, v) <= exit(times, v));
        }
    }
    // the walk entered all `n` women
    assert(ent =~= vstd::set_lib::set_int_range(1, n + 1 as int));
    vstd::set_lib::lemma_int_range(1, n + 1 as int);
    assert(timer == n);
    reveal(entries_ok);
    assert forall|v: int| 1 <= v <= n implies #[trigger] entered(times, v) && entry(times, v) <= exit(
        times,
        v,
    ) < n by {
        assert(finished(stack, times, v));
    }
    assert forall|u: int, v: int| 1 <= u <= n && 1 <= v <= n && u != v implies #[trigger] entry(
        times,
        u,
    ) != #[trigger] entry(times, v) by {
        assert(entered(times, u) && entered(times, v));
    }
    let anc = |u: int, v: int| proper_ancestor(arr, u, v);
    assert forall|u: int, v: int| 1 <= u <= n && 1 <= v <= n implies (#[trigger] within(
        times,
        u,
        v,
    ) <==> u == v || anc(u, v)) by {
        assert(finished(stack, times, u) && finished(stack, times, v));
        assert(entered(times, u) && entered(times, v));
        if proper_ancestor(arr, u, v) {
            assert(nested(times, u, v));
        }
        if within(times, u, v) && u != v {
            assert(entry(times, u) != entry(times, v));
        }
    }
    assert(!entered(times, 0));
    assert(entry(times, 1) == 0);
    assert(forall|t: int| 0 <= t < n ==> #[trigger] is_entry_time(times, n as int, t));
    assert(times.len() == n + 1);
    assert(forall|u: int, v: int|
        1 <= u <= n && 1 <= v <= n && u != v ==> #[trigger] entry(times, u) != #[trigger] entry(
            times,
            v,
        ));
    assert(forall|u: int, v: int|
        1 <= u <= n && 1 <= v <= n ==> (#[trigger] within(times, u, v) <==> u == v || anc(u, v)));
    assert(preorder_times(times, n as int, anc));
}

/// Walks the family tree depth first from woman 1 and records, for each
/// woman, the time she is entered and the last time at which one of her
/// descendants is entered: the entry times number the women in preorder,
/// and `u` is an ancestor of `v` exactly when `u`'s interval strictly
/// contains `v`'s start and all of `v`'s interval.
#[verifier::spinoff_prover]
#[verifier::rlimit(40)]
pub fn iterative_dfs_with_timemarks(arr: Vec<(u32, u32)>) -> (times: Vec<Option<(u32, u32)>>)
    requires
        family(arr@),
    ensures
        times_ok(arr@, times@),
{
    let n = arr.len() + 1;
    let mut stack: Vec<u32> = Vec::new();
    stack.push(1);
    let mut times: Vec<Option<(u32, u32)>> = Vec::new();
    let mut z: usize = 0;
    while z < n + 1
        invariant
            n == arr.len() + 1,
            n < MARK_BIT,
            z <= n + 1,
            times.len() == z,
            forall|v: int| 0 <= v < z ==> #[trigger] times@[v] is None,
        decreases n + 1 - z,
    {
        times.push(None);
        z += 1;
    }
    let mut timer: u32 = 0;
    let ghost mut ent: Set<int> = Set::empty();
    proof {
        assert(stack@ =~= seq![1u32]);
        assert forall|v: int| #[trigger] ent.contains(v) <==> 1 <= v <= n && entered(times@, v) by {}
        assert forall|p: int, i: int|
            0 <= p < stack@.len() && 0 <= i < arr.len() && #[trigger] arr@[i].0 == node_of(
                #[trigger] stack@[p],
            ) implies exists|q: int| 0 <= q < p && #[trigger] stack@[q] as int == arr@[i].1 + MARK_BIT by {
            assert(arr@[i].0 >= 2);
        }
        assert forall|a: int| 1 <= a <= n implies !#[trigger] is_open(stack@, a) by {
            if is_open(stack@, a) {
                let q = choose|q: int| 0 <= q < stack@.len() && #[trigger] stack@[q] as int == a + MARK_BIT;
            }
        }
        reveal(entries_ok);
    }
    while stack.len() > 0
        invariant
            family(arr@),
            n == arr.len() + 1,
            walk_inv(arr@, stack@, times@, timer as int, ent),
        decreases n - timer, stack.len(),
    {
        let ghost old_stack = stack@;
        let node = stack.pop().unwrap();
        proof {
            assert(old_stack.last() == node);
            assert(stack@ == old_stack.drop_last());
            assert(1 <= node_of(old_stack[old_stack.len() - 1]) <= n);
        }
        if node > MARK_BIT {
            // leaving a woman: all her descendants have been entered
            let a = unmark(node);
            proof {
                lemma_exit(arr@, old_stack, times@, timer as int, ent, a as int);
            }
            let (l, _) = times[a].unwrap();
            times.set(a, Some((l, timer - 1)));
        } else {
            // entering a woman: her mark and her daughters go on the stack
            let ghost mut kids: Seq<u32> = Seq::empty();
            let ghost mut lo: int = 0;
            let ghost mut hi: int = 0;
            match binary_search_leftmost(arr.as_slice(), &node) {
                Ok(leftmost_child_index) => {
                    stack.push(mark(node));
                    let ghost base = stack@;
                    let mut children_index = leftmost_child_index;
                    while children_index < arr.len() && arr[children_index].1 == node
                        invariant
                            family(arr@),
                            leftmost_child_index <= children_index <= arr.len(),
                            lower_bound(arr@, node, leftmost_child_index as int),
                            forall|i: int|
                                leftmost_child_index <= i < children_index ==> #[trigger] arr@[i].1
                                    == node,
                            stack@ == base + kids,
                            kids.len() == children_index - leftmost_child_index,
                            forall|t: int|
                                0 <= t < kids.len() ==> #[trigger] kids[t]
                                    == arr@[leftmost_child_index + t].0,
                        decreases arr.len() - children_index,
                    {
                        stack.push(arr[children_index].0);
                        proof {
                            kids = kids.push(arr@[children_index as int].0);
                        }
                        children_index += 1;
                    }
                    proof {
                        lo = leftmost_child_index as int;
                        hi = children_index as int;
                        assert(children_at(arr@, node as int, lo, hi)) by {
                            assert forall|i: int| 0 <= i < arr.len() implies (lo <= i < hi
                                <==> #[trigger] arr@[i].1 == node) by {
                                if i >= hi && hi < arr.len() {
                                    assert(arr@[hi].1 <= arr@[i].1);
                                }
                            }
                        }
                        assert(kids.len() > 0) by {
                            assert(arr@[lo].1 == node);
                        }
                    }
                },
                Err(k) => {
                    proof {
                        lo = k as int;
                        hi = k as int;
                        assert(children_at(arr@, node as int, lo, hi)) by {
                            assert forall|i: int| 0 <= i < arr.len() implies (lo <= i < hi
                                <==> #[trigger] arr@[i].1 == node) by {
                                if i >= lo && lo < arr.len() {
                                    assert(arr@[lo].1 <= arr@[i].1);
                                }
                            }
                        }
                    }
                },
            }
            proof {
                assert(kids_of(arr@, node as int, kids));
                assert(stack@ =~= stack_after_entry(old_stack, node as int, kids));
                lemma_enter(arr@, old_stack, times@, timer as int, ent, node as int, kids);
                ent = ent.insert(node as int);
            }
            times.set(node as usize, Some((timer, timer)));
            timer += 1;
        }
    }
    proof {
        lemma_final(arr@, stack@, times@, timer as int, ent);
    }
    times
}

// ---------------------------------------------------------------------
// From the list of mothers
// ---------------------------------------------------------------------

/// `v` descends from `u`, `k` generations down, where `mothers[i]` is the
/// mother of woman `i + 2`.
pub open spec fn mother_desc(mothers: Seq<u32>, u: int, v: int, k: nat) -> bool
    decreases k,
{
    if k == 0 {
        v == u
    } else {
        2 <= v < mothers.len() + 2 && mother_desc(mothers, u, mothers[v - 2] as int, (k - 1) as nat)
    }
}

/// `u` is an ancestor of `v` (and not `v` itself).
pub open spec fn is_forebear(mothers: Seq<u32>, u: int, v: int) -> bool {
    exists|k: nat| k >= 1 && #[trigger] mother_desc(mothers, u, v, k)
}

/// `v` descends from woman 1.
pub open spec fn mother_rooted(mothers: Seq<u32>, v: int) -> bool {
    exists|k: nat| #[trigger] mother_desc(mothers, 1, v, k)
}

/// The women `1..=n`: each of `2..=n` has a mother among them, and all
/// descend from woman 1.
pub open spec fn family_of_mothers(n: int, mothers: Seq<u32>) -> bool {
    &&& mothers.len() + 1 == n
    &&& n < MARK_BIT
    &&& forall|i: int| 0 <= i < mothers.len() ==> 1 <= #[trigger] mothers[i] <= n
    &&& forall|v: int| 1 <= v <= n ==> #[trigger] mother_rooted(mothers, v)
}

// ---------------------------------------------------------------------
// Checking a list of mothers
// ---------------------------------------------------------------------

/// The number of zeros in `s`.
spec fn zeros(s: Seq<u8>) -> nat
    decreases s.len(),
{
    if s.len() == 0 {
        0
    } else {
        zeros(s.drop_last()) + if s.last() == 0 {
            1nat
        } else {
            0nat
        }
    }
}

/// Setting a zero to something else leaves one zero less.
proof fn lemma_zeros_update(s: Seq<u8>, i: int, b: u8)
    requires
        0 <= i < s.len(),
        s[i] == 0,
        b != 0,
    ensures
        zeros(s.update(i, b)) + 1 == zeros(s),
    decreases s.len(),
{
    let t = s.update(i, b);
    if i == s.len() - 1 {
        assert(t.drop_last() =~= s.drop_last());
    } else {
        lemma_zeros_update(s.drop_last(), i, b);
        assert(t.drop_last() =~= s.drop_last().update(i, b));
    }
}

/// A daughter of a woman who descends from woman 1 descends from her too.
proof fn lemma_rooted_daughter(mothers: Seq<u32>, v: int)
    requires
        2 <= v < mothers.len() + 2,
        mother_rooted(mothers, mothers[v - 2] as int),
    ensures
        mother_rooted(mothers, v),
{
    let k = choose|k: nat| #[trigger] mother_desc(mothers, 1, mothers[v - 2] as int, k);
    assert(mother_desc(mothers, 1, v, k + 1));
}

/// The women `path[q..]`, each the daughter of the next and the last the
/// daughter of the first, form a cycle: none of them descends from woman 1
/// in `k` generations.
proof fn lemma_cycle_unrooted(mothers: Seq<u32>, path: Seq<usize>, q: int, k: nat)
    requires
        0 <= q < path.len(),
        forall|i: int| q <= i < path.len() ==> 2 <= #[trigger] path[i] < mothers.len() + 2,
        forall|i: int|
            q <= i < path.len() - 1 ==> mothers[#[trigger] path[i] - 2] as int == path[i + 1],
        mothers[path[path.len() - 1] - 2] as int == path[q],
    ensures
        forall|i: int| q <= i < path.len() ==> !mother_desc(mothers, 1, #[trigger] path[i] as int, k),
    decreases k,
{
    if k > 0 {
        lemma_cycle_unrooted(mothers, path, q, (k - 1) as nat);
        assert forall|i: int| q <= i < path.len() implies !mother_desc(
            mothers,
            1,
            #[trigger] path[i] as int,
            k,
        ) by {
            if i < path.len() - 1 {
                assert(mothers[path[i] - 2] as int == path[i + 1]);
                assert(!mother_desc(mothers, 1, path[i + 1] as int, (k - 1) as nat));
            } else {
                assert(!mother_desc(mothers, 1, path[q] as int, (k - 1) as nat));
            }
        }
    }
}

/// Whether `mothers` describes a family of the women `1..=n` (see
/// `family_of_mothers`): each woman's line of mothers is followed until it
/// meets a woman known to descend from woman 1, or meets itself.
pub fn is_family(n: usize, mothers: &Vec<u32>) -> (ok: bool)
    ensures
        ok == family_of_mothers(n as int, mothers@),
{
    if n == 0 || n >= 0x8000_0000 || mothers.len() != n - 1 {
        return false;
    }
    let mut i: usize = 0;
    while i < mothers.len()
        invariant
            i <= mothers.len(),
            mothers.len() + 1 == n,
            forall|k: int| 0 <= k < i ==> 1 <= #[trigger] mothers@[k] <= n,
        decreases mothers.len() - i,
    {
        if mothers[i] == 0 || mothers[i] as usize > n {
            return false;
        }
        i += 1;
    }
    // 0: not known yet, 1: on the line being followed, 2: descends from woman 1
    let mut state: Vec<u8> = vec![0u8; n + 1];
    proof {
        assert forall|u: int| 0 <= u <= n implies #[trigger] state@[u] == 0 by {
            assert(cloned(0u8, state@[u]));
        }
        assert(mother_desc(mothers@, 1, 1, 0));
    }
    state.set(1, 2);
    let mut start: usize = 2;
    while start <= n
        invariant
            mothers.len() + 1 == n,
            1 <= n < 0x8000_0000,
            forall|k: int| 0 <= k < mothers.len() ==> 1 <= #[trigger] mothers@[k] <= n,
            state.len() == n + 1,
            2 <= start <= n + 1,
            state@[1] == 2,
            forall|u: int| 1 <= u <= n ==> #[trigger] state@[u] == 0 || state@[u] == 2,
            forall|u: int| 1 <= u <= n && #[trigger] state@[u] == 2 ==> mother_rooted(mothers@, u),
            forall|u: int| 2 <= u < start ==> #[trigger] state@[u] == 2,
        decreases n + 1 - start,
    {
        if state[start] == 0 {
            let mut path: Vec<usize> = Vec::new();
            let mut v: usize = start;
            while state[v] == 0
                invariant
                    mothers.len() + 1 == n,
                    1 <= n < 0x8000_0000,
                    forall|k: int| 0 <= k < mothers.len() ==> 1 <= #[trigger] mothers@[k] <= n,
                    state.len() == n + 1,
                    2 <= start <= n,
                    1 <= v <= n,
                    state@[1] == 2,
                    forall|u: int|
                        1 <= u <= n ==> #[trigger] state@[u] == 0 || state@[u] == 1 || state@[u]
                            == 2,
                    forall|u: int|
                        1 <= u <= n && #[trigger] state@[u] == 2 ==> mother_rooted(mothers@, u),
                    forall|u: int| 2 <= u < start ==> #[trigger] state@[u] == 2,
                    forall|q: int|
                        0 <= q < path.len() ==> 2 <= #[trigger] path@[q] <= n && state@[path@[q] as int]
                            == 1,
                    forall|q1: int, q2: int|
                        0 <= q1 < q2 < path.len() ==> #[trigger] path@[q1] != #[trigger] path@[q2],
                    forall|u: int|
                        1 <= u <= n && #[trigger] state@[u] == 1 ==> exists|q: int|
                            0 <= q < path.len() && #[trigger] path@[q] == u,
                    path.len() == 0 ==> v == start && state@[start as int] == 0,
                    path.len() > 0 ==> path@[0] == start && v == mothers@[path@[path.len() - 1] - 2],
                    forall|q: int|
                        0 <= q < path.len() - 1 ==> mothers@[#[trigger] path@[q] - 2] == path@[q + 1],
                decreases zeros(state@),
            {
                proof {
                    lemma_zeros_update(state@, v as int, 1);
                }
                let ghost state0 = state@;
                let ghost path0 = path@;
                state.set(v, 1);
                path.push(v);
                proof {
                    assert forall|u: int|
                        1 <= u <= n && #[trigger] state@[u] == 1 implies exists|q: int|
                        0 <= q < path.len() && #[trigger] path@[q] == u by {
                        if u == v {
                            assert(path@[path.len() - 1] == u);
                        } else {
                            assert(state0[u] == 1);
                            let q = choose|q: int| 0 <= q < path0.len() && #[trigger] path0[q] == u;
                            assert(path@[q] == path0[q]);
                        }
                    }
                }
                v = mothers[v - 2] as usize;
            }
            if state[v] == 1 {
                proof {
                    let q = choose|q: int| 0 <= q < path.len() && #[trigger] path@[q] == v;
                    assert forall|k: nat| !#[trigger] mother_desc(mothers@, 1, v as int, k) by {
                        lemma_cycle_unrooted(mothers@, path@, q, k);
                        assert(path@[q] == v);
                    }
                    assert(!mother_rooted(mothers@, v as int));
                }
                return false;
            }
            let mut p: usize = path.len();
            while p > 0
                invariant
                    mothers.len() + 1 == n,
                    1 <= n < 0x8000_0000,
                    forall|k: int| 0 <= k < mothers.len() ==> 1 <= #[trigger] mothers@[k] <= n,
                    state.len() == n + 1,
                    2 <= start <= n,
                    1 <= v <= n,
                    state@[v as int] == 2,
                    state@[1] == 2,
                    path.len() >= 1,
                    p <= path.len(),
                    forall|u: int|
                        1 <= u <= n ==> #[trigger] state@[u] == 0 || state@[u] == 1 || state@[u]
                            == 2,
                    forall|u: int|
                        1 <= u <= n && #[trigger] state@[u] == 2 ==> mother_rooted(mothers@, u),
                    forall|u: int| 2 <= u < start ==> #[trigger] state@[u] == 2,
                    forall|q: int| 0 <= q < path.len() ==> 2 <= #[trigger] path@[q] <= n,
                    forall|q: int| 0 <= q < p ==> #[trigger] state@[path@[q] as int] == 1,
                    forall|q: int| p <= q < path.len() ==> #[trigger] state@[path@[q] as int] == 2,
                    forall|q1: int, q2: int|
                        0 <= q1 < q2 < path.len() ==> #[trigger] path@[q1] != #[trigger] path@[q2],
                    forall|u: int|
                        1 <= u <= n && #[trigger] state@[u] == 1 ==> exists|q: int|
                            0 <= q < p && #[trigger] path@[q] == u,
                    path@[0] == start,
                    v == mothers@[path@[path.len() - 1] - 2],
                    forall|q: int|
                        0 <= q < path.len() - 1 ==> mothers@[#[trigger] path@[q] - 2] == path@[q + 1],
                decreases p,
            {
                p -= 1;
                let x = path[p];
                proof {
                    if p == path.len() - 1 {
                        assert(mothers@[x - 2] == v);
                    } else {
                        assert(mothers@[path@[p as int] - 2] == path@[p + 1]);
                        assert(state@[path@[p + 1] as int] == 2);
                    }
                    lemma_rooted_daughter(mothers@, x as int);
                }
                state.set(x, 2);
                proof {
                    assert forall|q: int| 0 <= q < p implies #[trigger] state@[path@[q] as int] == 1 by {
                        assert(path@[q] != path@[p as int]);
                    }
                    assert forall|u: int|
                        1 <= u <= n && #[trigger] state@[u] == 1 implies exists|q: int|
                        0 <= q < p && #[trigger] path@[q] == u by {
                        let q = choose|q: int| 0 <= q < p + 1 && #[trigger] path@[q] == u;
                        assert(path@[q] == u);
                    }
                }
            }
            proof {
                assert forall|u: int| 1 <= u <= n implies #[trigger] state@[u] == 0 || state@[u]
                    == 2 by {
                    if state@[u] == 1 {
                        let q = choose|q: int| 0 <= q < 0 && #[trigger] path@[q] == u;
                    }
                }
                assert(state@[path@[0] as int] == 2);
            }
        }
        start += 1;
    }
    proof {
        assert forall|u: int| 1 <= u <= n implies #[trigger] mother_rooted(mothers@, u) by {
            assert(state@[u] == 2);
        }
    }
    true
}

/// The `(daughter, mother)` pairs of the list of mothers.
pub open spec fn mother_pairs(mothers: Seq<u32>) -> Seq<(u32, u32)> {
    Seq::new(mothers.len(), |i: int| ((i + 2) as u32, mothers[i]))
}

/// Sorts the pairs by mother, with `sort_unstable_by_key` of the standard
/// library: the result holds the same pairs, in order of mother.
#[verifier::external_body]
fn sort_by_mother(v: &mut Vec<(u32, u32)>)
    ensures
        final(v)@.to_multiset() == old(v)@.to_multiset(),
        sorted_by_mother(final(v)@),
{
    v.sort_unstable_by_key(|e| e.1);
}

/// The pairs sorted by mother describe the same descent.
proof fn lemma_desc_equiv(mothers: Seq<u32>, arr: Seq<(u32, u32)>, u: int, v: int, k: nat)
    requires
        forall|x: (u32, u32)| arr.contains(x) <==> mother_pairs(mothers).contains(x),
        mothers.len() + 1 < MARK_BIT,
    ensures
        desc(arr, u, v, k) <==> mother_desc(mothers, u, v, k),
    decreases k,
{
    let pairs = mother_pairs(mothers);
    if k > 0 {
        if desc(arr, u, v, k) {
            let j = choose|j: int|
                0 <= j < arr.len() && #[trigger] arr[j].0 == v && desc(arr, u, arr[j].1 as int, (k - 1) as nat);
            assert(arr.contains(arr[j]));
            assert(pairs.contains(arr[j]));
            let i = choose|i: int| 0 <= i < pairs.len() && pairs[i] == arr[j];
            assert(((i + 2) as u32) as int == i + 2);
            assert(v == i + 2);
            lemma_desc_equiv(mothers, arr, u, arr[j].1 as int, (k - 1) as nat);
        }
        if mother_desc(mothers, u, v, k) {
            let i = v - 2;
            assert(pairs[i] == ((i + 2) as u32, mothers[i]));
            assert(pairs.contains(pairs[i]));
            assert(arr.contains(pairs[i]));
            assert(((i + 2) as u32) as int == i + 2);
            let j = choose|j: int| 0 <= j < arr.len() && arr[j] == pairs[i];
            lemma_desc_equiv(mothers, arr, u, mothers[i] as int, (k - 1) as nat);
            assert(arr[j].0 == v);
        }
    }
}

/// Computes the visiting times of the women `1..=n` from the list of
/// mothers (`mothers[i]` is the mother of woman `i + 2`): the entry times
/// number the women in preorder, and `u` is an ancestor of `v` exactly
/// when `is_ancestor(u, v, times)`.
#[verifier::spinoff_prover]
#[verifier::rlimit(40)]
pub fn produce_times(n: usize, mothers: Vec<u32>) -> (times: Vec<Option<(u32, u32)>>)
    requires
        family_of_mothers(n as int, mothers@),
    ensures
        times.len() == n + 1,
        forall|v: int| 1 <= v <= n ==> #[trigger] entered(times@, v),
        forall|u: int, v: int|
            1 <= u <= n && 1 <= v <= n ==> (#[trigger] nested(times@, u, v) <==> is_forebear(
                mothers@,
                u,
                v,
            )),
        preorder_times(times@, n as int, |u: int, v: int| is_forebear(mothers@, u, v)),
{
    let mut daughters: Vec<(u32, u32)> = Vec::new();
    let mut i: usize = 0;
    while i < n - 1
        invariant
            family_of_mothers(n as int, mothers@),
            i <= n - 1,
            daughters@ == mother_pairs(mothers@).subrange(0, i as int),
        decreases n - 1 - i,
    {
        daughters.push(((i + 2) as u32, mothers[i]));
        proof {
            assert(daughters@ =~= mother_pairs(mothers@).subrange(0, i + 1));
        }
        i += 1;
    }
    let ghost pairs = mother_pairs(mothers@);
    proof {
        assert(daughters@ =~= pairs);
    }
    sort_by_mother(&mut daughters);
    proof {
        let arr = daughters@;
        broadcast use vstd::seq_lib::group_to_multiset_ensures;

        assert forall|x: (u32, u32)| arr.contains(x) <==> pairs.contains(x) by {
            assert(arr.contains(x) <==> arr.to_multiset().count(x) > 0);
            assert(pairs.contains(x) <==> pairs.to_multiset().count(x) > 0);
        }
        assert(pairs.no_duplicates()) by {
            assert forall|a: int, b: int| 0 <= a < pairs.len() && 0 <= b < pairs.len() && a != b
                implies pairs[a] != pairs[b] by {
                assert(pairs[a].0 == a + 2 && pairs[b].0 == b + 2);
            }
        }
        pairs.lemma_multiset_has_no_duplicates();
        arr.lemma_multiset_has_no_duplicates_conv();
        assert forall|j: int| 0 <= j < arr.len() implies 2 <= #[trigger] arr[j].0 <= n && 1
            <= arr[j].1 <= n && arr[j].1 == mothers@[arr[j].0 - 2] by {
            assert(arr.contains(arr[j]));
            let i = choose|i: int| 0 <= i < pairs.len() && pairs[i] == arr[j];
        }
        assert forall|a: int, b: int|
            0 <= a < arr.len() && 0 <= b < arr.len() && a != b implies #[trigger] arr[a].0
            != #[trigger] arr[b].0 by {
            if arr[a].0 == arr[b].0 {
                assert(arr[a].1 == mothers@[arr[a].0 - 2]);
                assert(arr[b].1 == mothers@[arr[b].0 - 2]);
                assert(arr[a] == arr[b]);
            }
        }
        assert forall|v: int| 1 <= v <= n implies #[trigger] rooted(arr, v) by {
            assert(mother_rooted(mothers@, v));
            let k = choose|k: nat| #[trigger] mother_desc(mothers@, 1, v, k);
            lemma_desc_equiv(mothers@, arr, 1, v, k);
        }
        assert(arr.to_multiset().len() == pairs.to_multiset().len());
        assert(arr.len() == pairs.len());
        assert(n < MARK_BIT);
        assert(sorted_by_mother(arr));
        assert(family(arr));
    }
    let times = iterative_dfs_with_timemarks(daughters);
    proof {
        let arr = daughters@;
        assert forall|u: int, v: int| 1 <= u <= n && 1 <= v <= n implies (#[trigger] nested(
            times@,
            u,
            v,
        ) <==> is_forebear(mothers@, u, v)) by {
            assert(nested(times@, u, v) <==> proper_ancestor(arr, u, v));
            if proper_ancestor(arr, u, v) {
                let k = choose|k: nat| k >= 1 && #[trigger] desc(arr, u, v, k);
                lemma_desc_equiv(mothers@, arr, u, v, k);
            }
            if is_forebear(mothers@, u, v) {
                let k = choose|k: nat| k >= 1 && #[trigger] mother_desc(mothers@, u, v, k);
                lemma_desc_equiv(mothers@, arr, u, v, k);
            }
        }
        let anc = |u: int, v: int| is_forebear(mothers@, u, v);
        assert forall|u: int, v: int| 1 <= u <= n && 1 <= v <= n implies (#[trigger] within(
            times@,
            u,
            v,
        ) <==> u == v || anc(u, v)) by {
            assert(within(times@, u, v) <==> u == v || proper_ancestor(arr, u, v));
            if proper_ancestor(arr, u, v) {
                let k = choose|k: nat| k >= 1 && #[trigger] desc(arr, u, v, k);
                lemma_desc_equiv(mothers@, arr, u, v, k);
            }
            if is_forebear(mothers@, u, v) {
                let k = choose|k: nat| k >= 1 && #[trigger] mother_desc(mothers@, u, v, k);
                lemma_desc_equiv(mothers@, arr, u, v, k);
            }
        }
        assert(preorder_times(times@, n as int, anc));
    }
    times
}

} // verus!
