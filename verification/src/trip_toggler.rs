//! The segment layout of the Trip Toggler effect: a clip cut at detected
//! points into consecutive segments.
use vstd::prelude::*;

verus! {

/// `s` is strictly increasing.
pub open spec fn strictly_increasing(s: Seq<usize>) -> bool {
    forall|i: int, j: int| 0 <= i < j < s.len() ==> s[i] < s[j]
}

/// The segment boundaries for cuts `cuts` in a clip of `total_frames`
/// frames: 0, every cut and `total_frames`.
pub open spec fn is_boundary(cuts: Seq<usize>, total_frames: usize, x: usize) -> bool {
    x == 0 || x == total_frames || cuts.contains(x)
}

/// Inserts `x` into the strictly increasing `v`, unless it is already
/// there.
fn insert_sorted(v: &mut Vec<usize>, x: usize)
    requires
        strictly_increasing(old(v)@),
    ensures
        strictly_increasing(final(v)@),
        forall|y: usize| final(v)@.contains(y) <==> (old(v)@.contains(y) || y == x),
{
    let mut j: usize = 0;
    while j < v.len() && v[j] < x
        invariant
            j <= v@.len(),
            v@ == old(v)@,
            strictly_increasing(v@),
            forall|a: int| 0 <= a < j ==> v@[a] < x,
        decreases v@.len() - j,
    {
        j += 1;
    }
    if j < v.len() && v[j] == x {
        assert(v@[j as int] == x);
        return;
    }
    let ghost w = v@;
    v.insert(j, x);
    assert forall|a: int, b: int| 0 <= a < b < v@.len() implies v@[a] < v@[b] by {
        if b < j {
            assert(v@[a] == w[a] && v@[b] == w[b]);
        } else if b == j {
            assert(v@[a] == w[a]);
        } else if a < j {
            assert(v@[a] == w[a] && v@[b] == w[b - 1]);
            assert(w[j as int] > x);
            if b - 1 > j {
                assert(w[j as int] < w[b - 1]);
            }
        } else if a == j {
            assert(v@[b] == w[b - 1]);
            if b - 1 > j {
                assert(w[j as int] < w[b - 1]);
            }
        } else {
            assert(v@[a] == w[a - 1] && v@[b] == w[b - 1]);
        }
    }
    proof {
        lemma_insert_contains(w, j as int, x);
    }
}

proof fn lemma_insert_contains(w: Seq<usize>, j: int, x: usize)
    requires
        0 <= j <= w.len(),
    ensures
        forall|y: usize| #[trigger] w.insert(j, x).contains(y) <==> (w.contains(y) || y == x),
{
    let v = w.insert(j, x);
    assert forall|y: usize| #[trigger] v.contains(y) <==> (w.contains(y) || y == x) by {
        if v.contains(y) {
            let k = choose|k: int| 0 <= k < v.len() && v[k] == y;
            if k < j {
                assert(w[k] == y);
            } else if k > j {
                assert(w[k - 1] == y);
            }
        }
        if w.contains(y) {
            let k = choose|k: int| 0 <= k < w.len() && w[k] == y;
            if k < j {
                assert(v[k] == y);
            } else {
                assert(v[k + 1] == y);
            }
        }
        if y == x {
            assert(v[j] == x);
        }
    }
}

/// The sorted, duplicate-free segment boundaries for `cuts` in a clip of
/// `total_frames` frames: 0, every cut, and `total_frames`.
pub fn build_segments(cuts: &[usize], total_frames: usize) -> (b: Vec<usize>)
    ensures
        strictly_increasing(b@),
        forall|x: usize| b@.contains(x) <==> is_boundary(cuts@, total_frames, x),
{
    let mut b: Vec<usize> = Vec::new();
    insert_sorted(&mut b, 0);
    assert forall|x: usize| b@.contains(x) <==> (x == 0 || cuts@.take(0).contains(x)) by {
        assert(!Seq::<usize>::empty().contains(x));
        assert(cuts@.take(0) =~= Seq::<usize>::empty());
    }
    let mut k: usize = 0;
    while k < cuts.len()
        invariant
            k <= cuts@.len(),
            strictly_increasing(b@),
            forall|x: usize| b@.contains(x) <==> (x == 0 || cuts@.take(k as int).contains(x)),
        decreases cuts@.len() - k,
    {
        insert_sorted(&mut b, cuts[k]);
        proof {
            assert forall|x: usize| cuts@.take(k + 1).contains(x) <==> (cuts@.take(k as int).contains(x) || x == cuts@[k as int]) by {
                if cuts@.take(k + 1).contains(x) {
                    let t = cuts@.take(k + 1);
                    let q = choose|q: int| 0 <= q < t.len() && t[q] == x;
                    if q < k {
                        assert(cuts@.take(k as int)[q] == x);
                    }
                }
                if cuts@.take(k as int).contains(x) {
                    let t = cuts@.take(k as int);
                    let q = choose|q: int| 0 <= q < t.len() && t[q] == x;
                    assert(cuts@.take(k + 1)[q] == x);
                }
                if x == cuts@[k as int] {
                    assert(cuts@.take(k + 1)[k as int] == x);
                }
            }
            assert forall|x: usize| b@.contains(x) <==> (x == 0 || cuts@.take(k + 1).contains(x)) by {
                assert(cuts@.take(k + 1).contains(x) <==> (cuts@.take(k as int).contains(x) || x == cuts@[k as int]));
            }
        }
        k += 1;
    }
    assert(cuts@.take(k as int) =~= cuts@);
    insert_sorted(&mut b, total_frames);
    b
}

/// Peaks `a` and `b` (indexes into `peaks`) are different peaks less than
/// `distance` samples apart.
pub open spec fn near(peaks: Seq<usize>, a: int, b: int, distance: usize) -> bool {
    a != b && (if peaks[a] <= peaks[b] {
        peaks[b] - peaks[a]
    } else {
        peaks[a] - peaks[b]
    }) < distance
}

/// Which peaks are still standing after the first `t` visits of the
/// greedy distance filter. Peaks are visited from the back of `order`
/// (tallest first); a visited peak that is still standing knocks out every
/// other peak near it, and a peak that was already knocked out does
/// nothing.
pub open spec fn standing_after(peaks: Seq<usize>, order: Seq<usize>, distance: usize, t: nat) -> Seq<bool>
    decreases t,
{
    if t == 0 {
        Seq::new(peaks.len(), |i: int| true)
    } else {
        let keep = standing_after(peaks, order, distance, (t - 1) as nat);
        let j = order[order.len() - t] as int;
        if keep[j] {
            knocked_out(keep, peaks, j, distance)
        } else {
            keep
        }
    }
}

/// The positions in `peaks[..i]` whose flag in `keep` is set, in order.
pub open spec fn kept_positions(peaks: Seq<usize>, keep: Seq<bool>, i: nat) -> Seq<usize>
    decreases i,
{
    if i == 0 {
        Seq::<usize>::empty()
    } else {
        let before = kept_positions(peaks, keep, (i - 1) as nat);
        if keep[i - 1] {
            before.push(peaks[i - 1])
        } else {
            before
        }
    }
}

/// The inputs the distance filter works on: peak positions in ascending
/// order, and a visiting order of the same length that holds only valid
/// indexes into them.
pub open spec fn distance_filter_input(peaks: Seq<usize>, order: Seq<usize>) -> bool {
    &&& forall|a: int, b: int| 0 <= a <= b < peaks.len() ==> peaks[a] <= peaks[b]
    &&& order.len() == peaks.len()
    &&& forall|s: int| 0 <= s < order.len() ==> order[s] < peaks.len()
    &&& peaks.len() <= usize::MAX
}

proof fn lemma_standing_len(peaks: Seq<usize>, order: Seq<usize>, distance: usize, t: nat)
    requires
        distance_filter_input(peaks, order),
        t <= order.len(),
    ensures
        standing_after(peaks, order, distance, t).len() == peaks.len(),
    decreases t,
{
    if t > 0 {
        lemma_standing_len(peaks, order, distance, (t - 1) as nat);
    }
}

/// `keep` with every peak near peak `j` knocked out.
pub open spec fn knocked_out(keep: Seq<bool>, peaks: Seq<usize>, j: int, distance: usize) -> Seq<bool> {
    Seq::new(keep.len(), |a: int| keep[a] && !near(peaks, j, a, distance))
}

fn knock_out_near(keep: &mut Vec<bool>, peaks: &[usize], j: usize, distance: usize)
    requires
        forall|a: int, b: int| 0 <= a <= b < peaks@.len() ==> peaks@[a] <= peaks@[b],
        j < peaks@.len(),
        old(keep)@.len() == peaks@.len(),
    ensures
        final(keep)@ == knocked_out(old(keep)@, peaks@, j as int, distance),
{
    let n = peaks.len();
    let ghost before = keep@;
    let mut k = j;
    while k > 0
        invariant
            k <= j < n,
            n == peaks@.len(),
            before == old(keep)@,
            forall|a: int, b: int| 0 <= a <= b < peaks@.len() ==> peaks@[a] <= peaks@[b],
            keep@ == Seq::new(n as nat, |a: int| if k <= a < j { before[a] && !near(peaks@, j as int, a, distance) } else { before[a] }),
        ensures
            keep@ == Seq::new(n as nat, |a: int| if k <= a < j { before[a] && !near(peaks@, j as int, a, distance) } else { before[a] }),
            forall|a: int| 0 <= a < k ==> !near(peaks@, j as int, a, distance),
        decreases k,
    {
        let ghost prev = keep@;
        k -= 1;
        assert(peaks@[k as int] <= peaks@[j as int]);
        if peaks[j] - peaks[k] < distance {
            keep.set(k, false);
            assert(keep@ =~= Seq::new(n as nat, |a: int| if k <= a < j { before[a] && !near(peaks@, j as int, a, distance) } else { before[a] }));
        } else {
            assert forall|a: int| 0 <= a <= k implies !near(peaks@, j as int, a, distance) by {
                assert(peaks@[a] <= peaks@[k as int]);
            }
            assert(keep@ =~= Seq::new(n as nat, |a: int| if k <= a < j { before[a] && !near(peaks@, j as int, a, distance) } else { before[a] }));
            break;
        }
    }
    let ghost left = k;
    let mut k = j;
    while k + 1 < n
        invariant
            left <= j <= k < n,
            n == peaks@.len(),
            forall|a: int, b: int| 0 <= a <= b < peaks@.len() ==> peaks@[a] <= peaks@[b],
            forall|a: int| 0 <= a < left ==> !near(peaks@, j as int, a, distance),
            keep@ == Seq::new(n as nat, |a: int| if left <= a <= k { before[a] && !near(peaks@, j as int, a, distance) } else { before[a] }),
        ensures
            keep@ == Seq::new(n as nat, |a: int| if left <= a <= k { before[a] && !near(peaks@, j as int, a, distance) } else { before[a] }),
            forall|a: int| k < a < n ==> !near(peaks@, j as int, a, distance),
        decreases n - k,
    {
        k += 1;
        assert(peaks@[j as int] <= peaks@[k as int]);
        if peaks[k] - peaks[j] < distance {
            keep.set(k, false);
            assert(keep@ =~= Seq::new(n as nat, |a: int| if left <= a <= k { before[a] && !near(peaks@, j as int, a, distance) } else { before[a] }));
        } else {
            assert forall|a: int| k <= a < n implies !near(peaks@, j as int, a, distance) by {
                assert(peaks@[k as int] <= peaks@[a]);
            }
            assert(keep@ =~= Seq::new(n as nat, |a: int| if left <= a <= k - 1 { before[a] && !near(peaks@, j as int, a, distance) } else { before[a] }));
            k -= 1;
            break;
        }
    }
    assert(keep@ =~= knocked_out(before, peaks@, j as int, distance));
}

/// The greedy peak-distance filter: visiting the peaks from the tallest to
/// the shortest (`order` lists peak indexes from the shortest to the
/// tallest), each peak still standing knocks out every other peak closer
/// than `distance` samples; the positions still standing at the end are
/// returned in ascending order.
pub fn select_by_distance(peaks: &[usize], order: &[usize], distance: usize) -> (kept: Vec<usize>)
    requires
        distance_filter_input(peaks@, order@),
    ensures
        kept@ == kept_positions(peaks@, standing_after(peaks@, order@, distance, peaks@.len()), peaks@.len()),
{
    let n = peaks.len();
    let mut keep: Vec<bool> = Vec::new();
    let mut i: usize = 0;
    while i < n
        invariant
            i <= n,
            n == peaks@.len(),
            keep@ == Seq::new(i as nat, |k: int| true),
        decreases n - i,
    {
        keep.push(true);
        i += 1;
        assert(keep@ =~= Seq::new(i as nat, |k: int| true));
    }
    let mut t: usize = 0;
    while t < n
        invariant
            t <= n,
            n == peaks@.len(),
            distance_filter_input(peaks@, order@),
            keep@ == standing_after(peaks@, order@, distance, t as nat),
        decreases n - t,
    {
        proof {
            lemma_standing_len(peaks@, order@, distance, t as nat);
        }
        let j = order[n - 1 - t];
        if keep[j] {
            knock_out_near(&mut keep, peaks, j, distance);
        }
        t += 1;
    }
    proof {
        lemma_standing_len(peaks@, order@, distance, n as nat);
    }
    let mut kept: Vec<usize> = Vec::new();
    let mut i: usize = 0;
    while i < n
        invariant
            i <= n,
            n == peaks@.len(),
            keep@.len() == n,
            kept@ == kept_positions(peaks@, keep@, i as nat),
        decreases n - i,
    {
        if keep[i] {
            kept.push(peaks[i]);
        }
        i += 1;
    }
    kept
}

/// Peak `v` is among the first `t` visited (the last `t` entries of
/// `order`).
pub open spec fn visited_by(order: Seq<usize>, t: nat, v: int) -> bool {
    exists|s: int| order.len() - t <= s < order.len() && order[s] == v
}

proof fn lemma_standing_shrinks(peaks: Seq<usize>, order: Seq<usize>, distance: usize, t: nat, x: int)
    requires
        distance_filter_input(peaks, order),
        0 < t <= order.len(),
        0 <= x < peaks.len(),
        standing_after(peaks, order, distance, t)[x],
    ensures
        standing_after(peaks, order, distance, (t - 1) as nat)[x],
{
    lemma_standing_len(peaks, order, distance, (t - 1) as nat);
}

/// After `t` visits, no visited peak that is still standing has a
/// standing peak near it.
proof fn lemma_visited_standing_peaks_are_alone(peaks: Seq<usize>, order: Seq<usize>, distance: usize, t: nat)
    requires
        distance_filter_input(peaks, order),
        t <= order.len(),
    ensures
        forall|v: int, k: int|
            #![trigger near(peaks, v, k, distance)]
            0 <= v < peaks.len() && 0 <= k < peaks.len() && visited_by(order, t, v) && standing_after(peaks, order, distance, t)[v]
                && near(peaks, v, k, distance) ==> !standing_after(peaks, order, distance, t)[k],
    decreases t,
{
    if t > 0 {
        let n = order.len();
        let prev = (t - 1) as nat;
        lemma_visited_standing_peaks_are_alone(peaks, order, distance, prev);
        lemma_standing_len(peaks, order, distance, prev);
        lemma_standing_len(peaks, order, distance, t);
        let keep = standing_after(peaks, order, distance, prev);
        let now = standing_after(peaks, order, distance, t);
        let j = order[n - t] as int;
        assert forall|v: int, k: int|
            0 <= v < peaks.len() && 0 <= k < peaks.len() && visited_by(order, t, v) && now[v] && near(peaks, v, k, distance) implies !now[k] by {
            if v == j {
                assert(keep[j]);
            } else {
                let s = choose|s: int| n - t <= s < n && order[s] == v;
                assert(visited_by(order, prev, v)) by {
                    assert(n - prev <= s < n && order[s] == v);
                }
                lemma_standing_shrinks(peaks, order, distance, t, v);
                assert(standing_after(peaks, order, distance, prev)[v]);
                assert(near(peaks, v, k, distance));
                assert(!keep[k]);
            }
        }
    }
}

/// A peak that is standing once it has been visited stays standing.
proof fn lemma_visited_standing_stays(peaks: Seq<usize>, order: Seq<usize>, distance: usize, t1: nat, t2: nat, v: int)
    requires
        distance_filter_input(peaks, order),
        t1 <= t2 <= order.len(),
        0 <= v < peaks.len(),
        visited_by(order, t1, v),
        standing_after(peaks, order, distance, t1)[v],
    ensures
        standing_after(peaks, order, distance, t2)[v],
    decreases t2 - t1,
{
    if t1 < t2 {
        let n = order.len();
        lemma_standing_len(peaks, order, distance, t1);
        lemma_standing_len(peaks, order, distance, (t1 + 1) as nat);
        lemma_visited_standing_peaks_are_alone(peaks, order, distance, t1);
        let keep = standing_after(peaks, order, distance, t1);
        let j = order[n - (t1 + 1)] as int;
        if keep[j] {
            if near(peaks, j, v, distance) {
                assert(near(peaks, v, j, distance));
                assert(!keep[j]);
            }
        }
        let s = choose|s: int| n - t1 <= s < n && order[s] == v;
        assert(visited_by(order, (t1 + 1) as nat, v)) by {
            assert(n - (t1 + 1) <= s < n && order[s] == v);
        }
        lemma_visited_standing_stays(peaks, order, distance, (t1 + 1) as nat, t2, v);
    }
}

/// A peak that is knocked out is near some peak that was visited and
/// stands at that point.
proof fn lemma_knocked_out_by_visited(peaks: Seq<usize>, order: Seq<usize>, distance: usize, t: nat, x: int) -> (w: int)
    requires
        distance_filter_input(peaks, order),
        t <= order.len(),
        0 <= x < peaks.len(),
        !standing_after(peaks, order, distance, t)[x],
    ensures
        0 <= w < peaks.len(),
        visited_by(order, t, w),
        standing_after(peaks, order, distance, t)[w],
        near(peaks, w, x, distance),
    decreases t,
{
    let n = order.len();
    lemma_standing_len(peaks, order, distance, t);
    let prev = (t - 1) as nat;
    lemma_standing_len(peaks, order, distance, prev);
    let keep = standing_after(peaks, order, distance, prev);
    let j = order[n - t] as int;
    if keep[x] {
        assert(keep[j] && near(peaks, j, x, distance));
        assert(visited_by(order, t, j)) by {
            assert(n - t <= n - t < n && order[n - t] == j);
        }
        lemma_visited_standing_stays(peaks, order, distance, t, t, j);
        j
    } else {
        let w = lemma_knocked_out_by_visited(peaks, order, distance, prev, x);
        let s = choose|s: int| n - prev <= s < n && order[s] == w;
        assert(visited_by(order, t, w)) by {
            assert(n - t <= s < n && order[s] == w);
        }
        lemma_visited_standing_stays(peaks, order, distance, prev, t, w);
        w
    }
}

/// The distance filter's promise, for `order` listing every peak: no two
/// surviving peaks are closer than `distance` samples, every peak it
/// removes lies closer than `distance` samples to a surviving one, and the
/// tallest peak (the last in `order`) always survives.
pub proof fn lemma_distance_filter_survivors(peaks: Seq<usize>, order: Seq<usize>, distance: usize)
    requires
        distance_filter_input(peaks, order),
        forall|i: usize| i < peaks.len() ==> #[trigger] order.contains(i),
    ensures
        ({
            let standing = standing_after(peaks, order, distance, peaks.len());
            &&& forall|a: int, b: int|
                0 <= a < peaks.len() && 0 <= b < peaks.len() && standing[a] && standing[b] ==> !#[trigger] near(peaks, a, b, distance)
            &&& forall|x: int|
                0 <= x < peaks.len() && !#[trigger] standing[x] ==> exists|w: int|
                    0 <= w < peaks.len() && standing[w] && #[trigger] near(peaks, w, x, distance)
            &&& peaks.len() > 0 ==> standing[order[peaks.len() - 1] as int]
        }),
{
    let n = peaks.len();
    let standing = standing_after(peaks, order, distance, n);
    lemma_standing_len(peaks, order, distance, n);
    lemma_visited_standing_peaks_are_alone(peaks, order, distance, n);
    assert forall|a: int, b: int|
        0 <= a < n && 0 <= b < n && standing[a] && standing[b] implies !#[trigger] near(peaks, a, b, distance) by {
        assert(order.contains(a as usize));
        let s = choose|s: int| 0 <= s < order.len() && order[s] == a as usize;
        assert(visited_by(order, n, a)) by {
            assert(order.len() - n <= s < order.len() && order[s] == a);
        }
    }
    assert forall|x: int| 0 <= x < n && !#[trigger] standing[x] implies exists|w: int|
        0 <= w < n && standing[w] && #[trigger] near(peaks, w, x, distance) by {
        let w = lemma_knocked_out_by_visited(peaks, order, distance, n, x);
    }
    if n > 0 {
        let j = order[n - 1] as int;
        lemma_standing_len(peaks, order, distance, 0);
        lemma_standing_len(peaks, order, distance, 1);
        assert(standing_after(peaks, order, distance, 0)[j]);
        assert(standing_after(peaks, order, distance, 1)[j]);
        assert(visited_by(order, 1, j)) by {
            assert(order.len() - 1 <= n - 1 < order.len() && order[n - 1] == j);
        }
        lemma_visited_standing_stays(peaks, order, distance, 1, n, j);
    }
}

} // verus!
