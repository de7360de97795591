//! Keyboard nudging on the timeline: moving the playhead or a clip by a
//! step, docking against the first clip edge in the way instead of jumping
//! over it.
use vstd::prelude::*;

verus! {

/// `current` moved by `delta`, floored at 0.
pub open spec fn stepped(current: int, delta: int) -> int {
    if current + delta < 0 {
        0
    } else {
        current + delta
    }
}

/// Edge `e` lies in the way of a move from `from` to `to`: strictly past
/// `from` and no further than `to`, in the direction of the move.
pub open spec fn in_the_way(e: int, from: int, to: int, right: bool) -> bool {
    if right {
        from < e <= to
    } else {
        to <= e < from
    }
}

/// `r` is the first edge of `edges` met on the way from `from` to `to`
/// (the nearest to `from`), or `None` when there is none.
pub open spec fn first_in_the_way(edges: Seq<u64>, from: int, to: int, right: bool, r: Option<u64>) -> bool {
    match r {
        Some(e) => {
            &&& edges.contains(e)
            &&& in_the_way(e as int, from, to, right)
            &&& forall|k: int|
                0 <= k < edges.len() && in_the_way(#[trigger] edges[k] as int, from, to, right) ==> if right {
                    e <= edges[k]
                } else {
                    edges[k] <= e
                }
        },
        None => forall|k: int| 0 <= k < edges.len() ==> !in_the_way(#[trigger] edges[k] as int, from, to, right),
    }
}

fn first_edge_in_the_way(edges: &[u64], from: u64, to: u64, right: bool) -> (r: Option<u64>)
    ensures
        first_in_the_way(edges@, from as int, to as int, right, r),
{
    let mut best: Option<u64> = None;
    let mut k: usize = 0;
    while k < edges.len()
        invariant
            k <= edges@.len(),
            first_in_the_way(edges@.take(k as int), from as int, to as int, right, best),
        decreases edges@.len() - k,
    {
        let e = edges[k];
        let ghost t = edges@.take(k as int);
        let ghost t2 = edges@.take(k + 1);
        assert(t2 =~= t.push(e));
        let hit = if right { from < e && e <= to } else { to <= e && e < from };
        if hit {
            let better = match best {
                Some(b) => if right { e < b } else { e > b },
                None => true,
            };
            if better {
                best = Some(e);
            }
        }
        proof {
            assert(t2[k as int] == e);
            match best {
                Some(b) => {
                    if t.contains(b) {
                        let q = choose|q: int| 0 <= q < t.len() && t[q] == b;
                        assert(t2[q] == b);
                    }
                },
                None => {},
            }
            assert forall|q: int| 0 <= q < t2.len() && in_the_way(#[trigger] t2[q] as int, from as int, to as int, right) implies match best {
                Some(b) => if right { b <= t2[q] } else { t2[q] <= b },
                None => false,
            } by {
                if q < k {
                    assert(t2[q] == t[q]);
                }
            }
        }
        k += 1;
    }
    assert(edges@.take(k as int) =~= edges@);
    best
}

/// Moves the playhead from `current` by `delta` frames (floored at 0),
/// stopping at the first clip edge of `edges` in the way. Returns the new
/// position and the edge it docked against, if any.
pub fn nudge_position(edges: &[u64], current: u64, delta: i64) -> (r: (u64, Option<u64>))
    requires
        current + delta <= i64::MAX,
        current <= i64::MAX,
    ensures
        first_in_the_way(edges@, current as int, stepped(current as int, delta as int), delta > 0, r.1),
        r.0 == (match r.1 {
            Some(e) => e as int,
            None => stepped(current as int, delta as int),
        }),
{
    let moved = current as i64 + delta;
    let naive: u64 = if moved < 0 { 0 } else { moved as u64 };
    let blocking = first_edge_in_the_way(edges, current, naive, delta > 0);
    match blocking {
        Some(e) => (e, blocking),
        None => (naive, blocking),
    }
}

/// Moves a clip starting at `start`, `len` frames long, by `delta` frames
/// (its start floored at 0), stopping it against the first edge of
/// `other_edges` in the way: moving right, its end docks against an edge
/// past its current end; moving left, its start docks against an edge
/// before its current start. Returns the new start and the edge docked
/// against, if any.
pub fn nudge_clip_start(other_edges: &[u64], start: u64, len: u64, delta: i64) -> (r: (u64, Option<u64>))
    requires
        start + delta <= i64::MAX,
        start <= i64::MAX,
        stepped(start as int, delta as int) + len <= u64::MAX,
        start + len <= u64::MAX,
    ensures
        ({
            let naive = stepped(start as int, delta as int);
            if delta > 0 {
                &&& first_in_the_way(other_edges@, start + len, naive + len, true, r.1)
                &&& r.0 == (match r.1 {
                    Some(e) => if e >= len { e - len } else { 0 },
                    None => naive,
                })
            } else {
                &&& first_in_the_way(other_edges@, start as int, naive, false, r.1)
                &&& r.0 == (match r.1 {
                    Some(e) => e as int,
                    None => naive,
                })
            }
        }),
{
    let moved = start as i64 + delta;
    let naive: u64 = if moved < 0 { 0 } else { moved as u64 };
    if delta > 0 {
        let blocking = first_edge_in_the_way(other_edges, start + len, naive + len, true);
        match blocking {
            Some(e) => (e.saturating_sub(len), blocking),
            None => (naive, blocking),
        }
    } else {
        let blocking = first_edge_in_the_way(other_edges, start, naive, false);
        match blocking {
            Some(e) => (e, blocking),
            None => (naive, blocking),
        }
    }
}

} // verus!
