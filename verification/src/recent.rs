//! The "Project File" dialog's list of recently opened or saved projects,
//! most recent first.
use vstd::prelude::*;
use vstd::string::StrSliceExecFns;

verus! {

/// How many recent projects the list remembers.
pub const MAX_RECENT_PROJECTS: usize = 5;

/// The pieces of `s` between `/` separators, in order, empty ones
/// included (there is always at least one).
pub open spec fn segments(s: Seq<char>) -> Seq<Seq<char>>
    decreases s.len(),
{
    if s.len() == 0 {
        seq![Seq::<char>::empty()]
    } else {
        let rest = segments(s.drop_last());
        if s.last() == '/' {
            rest.push(Seq::<char>::empty())
        } else {
            rest.update(rest.len() - 1, rest.last().push(s.last()))
        }
    }
}

/// Whether the `i`-th piece `g` of a path counts as a component: empty
/// pieces (from repeated or trailing separators) do not, nor does `.`
/// except as the very first piece.
pub open spec fn is_component(g: Seq<char>, i: int) -> bool {
    g.len() > 0 && !(g == seq!['.'] && i > 0)
}

/// The components among the first `n` pieces of `segs`.
pub open spec fn components_upto(segs: Seq<Seq<char>>, n: int) -> Seq<Seq<char>>
    decreases n,
{
    if n <= 0 {
        Seq::<Seq<char>>::empty()
    } else {
        let r = components_upto(segs, n - 1);
        if is_component(segs[n - 1], n - 1) {
            r.push(segs[n - 1])
        } else {
            r
        }
    }
}

/// What a path is compared by, under the Unix path rules the standard
/// library's `Path` equality uses: whether it starts at the root, and its
/// components (separators repeated or at the end, and `.` past the start,
/// make no difference).
pub open spec fn path_key(s: Seq<char>) -> (bool, Seq<Seq<char>>) {
    (s.len() > 0 && s[0] == '/', components_upto(segments(s), segments(s).len() as int))
}

proof fn lemma_segments_nonempty(s: Seq<char>)
    ensures
        segments(s).len() >= 1,
    decreases s.len(),
{
    if s.len() > 0 {
        lemma_segments_nonempty(s.drop_last());
    }
}

/// The components of `text`, under `path_key`'s rules.
fn path_components(text: &str) -> (r: Vec<Vec<char>>)
    ensures
        r@.map_values(|v: Vec<char>| v@) == path_key(text@).1,
{
    let n = text.unicode_len();
    let ghost s = text@;
    let mut done: Vec<Vec<char>> = Vec::new();
    let mut cur: Vec<char> = Vec::new();
    let mut index: usize = 0;
    let mut i: usize = 0;
    proof {
        lemma_segments_nonempty(s.take(0));
        assert(s.take(0) =~= Seq::<char>::empty());
    }
    while i < n
        invariant
            n == s.len(),
            s == text@,
            i <= n,
            segments(s.take(i as int)).len() == index + 1,
            segments(s.take(i as int)).last() == cur@,
            done@.map_values(|v: Vec<char>| v@) == components_upto(segments(s.take(i as int)), index as int),
            index <= i,
        decreases n - i,
    {
        let ghost pre = s.take(i as int);
        let ghost segs = segments(pre);
        let c = text.get_char(i);
        assert(s.take(i + 1).drop_last() =~= pre);
        assert(s.take(i + 1).last() == c);
        if c == '/' {
            let keep = cur.len() > 0 && !(cur.len() == 1 && cur[0] == '.' && index > 0);
            proof {
                assert(keep == is_component(segs[index as int], index as int)) by {
                    if cur.len() == 1 {
                        assert(cur@ =~= seq![cur@[0]]);
                    }
                }
            }
            let ghost before = done@.map_values(|v: Vec<char>| v@);
            if keep {
                done.push(cur);
            }
            cur = Vec::new();
            index += 1;
            proof {
                let segs2 = segments(s.take(i + 1));
                assert(segs2 == segs.push(Seq::<char>::empty()));
                assert(segs2[index - 1] == segs[index - 1]);
                assert forall|q: int| 0 <= q < index - 1 implies segs2[q] == segs[q] by {}
                assert(components_upto(segs2, (index - 1) as int) == components_upto(segs, (index - 1) as int)) by {
                    lemma_components_prefix(segs, segs2, (index - 1) as int);
                }
                assert(done@.map_values(|v: Vec<char>| v@) =~= components_upto(segs2, index as int));
                assert(cur@ =~= Seq::<char>::empty());
            }
        } else {
            cur.push(c);
            proof {
                let segs2 = segments(s.take(i + 1));
                assert(segs2 == segs.update(segs.len() - 1, segs.last().push(c)));
                assert forall|q: int| 0 <= q < index implies segs2[q] == segs[q] by {}
                lemma_components_prefix(segs, segs2, index as int);
            }
        }
        i += 1;
    }
    assert(s.take(n as int) =~= s);
    let ghost segs = segments(s);
    let keep = cur.len() > 0 && !(cur.len() == 1 && cur[0] == '.' && index > 0);
    proof {
        assert(keep == is_component(segs[index as int], index as int)) by {
            if cur.len() == 1 {
                assert(cur@ =~= seq![cur@[0]]);
            }
        }
    }
    if keep {
        done.push(cur);
    }
    proof {
        assert(done@.map_values(|v: Vec<char>| v@) =~= components_upto(segs, index + 1));
    }
    done
}

proof fn lemma_components_prefix(a: Seq<Seq<char>>, b: Seq<Seq<char>>, n: int)
    requires
        0 <= n <= a.len(),
        n <= b.len(),
        forall|q: int| 0 <= q < n ==> a[q] == b[q],
    ensures
        components_upto(a, n) == components_upto(b, n),
    decreases n,
{
    if n > 0 {
        lemma_components_prefix(a, b, n - 1);
    }
}

fn same_components(a: &Vec<Vec<char>>, b: &Vec<Vec<char>>) -> (r: bool)
    ensures
        r == (a@.map_values(|v: Vec<char>| v@) == b@.map_values(|v: Vec<char>| v@)),
{
    let ghost av = a@.map_values(|v: Vec<char>| v@);
    let ghost bv = b@.map_values(|v: Vec<char>| v@);
    if a.len() != b.len() {
        assert(av.len() != bv.len());
        return false;
    }
    let mut i: usize = 0;
    while i < a.len()
        invariant
            a@.len() == b@.len(),
            i <= a@.len(),
            av == a@.map_values(|v: Vec<char>| v@),
            bv == b@.map_values(|v: Vec<char>| v@),
            forall|q: int| 0 <= q < i ==> av[q] == bv[q],
        decreases a@.len() - i,
    {
        let x = &a[i];
        let y = &b[i];
        if x.len() != y.len() {
            assert(av[i as int].len() != bv[i as int].len());
            return false;
        }
        assert(av[i as int] == x@ && bv[i as int] == y@);
        let mut j: usize = 0;
        while j < x.len()
            invariant
                i < a@.len(),
                a@.len() == b@.len(),
                av == a@.map_values(|v: Vec<char>| v@),
                bv == b@.map_values(|v: Vec<char>| v@),
                av[i as int] == x@,
                bv[i as int] == y@,
                x@.len() == y@.len(),
                j <= x@.len(),
                forall|q: int| 0 <= q < j ==> x@[q] == y@[q],
            decreases x@.len() - j,
        {
            if x[j] != y[j] {
                assert(x@[j as int] != y@[j as int]);
                assert(av[i as int] != bv[i as int]);
                return false;
            }
            j += 1;
        }
        assert(x@ =~= y@);
        i += 1;
    }
    assert(av =~= bv);
    true
}

/// Whether `a` and `b` name the same path (see `path_key`).
pub fn same_path(a: &str, b: &str) -> (r: bool)
    ensures
        r == (path_key(a@) == path_key(b@)),
{
    let ra = a.unicode_len() > 0 && a.get_char(0) == '/';
    let rb = b.unicode_len() > 0 && b.get_char(0) == '/';
    let ca = path_components(a);
    let cb = path_components(b);
    ra == rb && same_components(&ca, &cb)
}

/// The paths of `v`, in order, as text.
pub open spec fn path_texts(v: Seq<String>) -> Seq<Seq<char>> {
    v.map_values(|s: String| s@)
}

/// The paths of `v` that name another path than `p` (see `path_key`), in
/// order.
pub open spec fn others(v: Seq<String>, p: Seq<char>) -> Seq<Seq<char>>
    decreases v.len(),
{
    if v.len() == 0 {
        Seq::<Seq<char>>::empty()
    } else {
        let rest = others(v.drop_last(), p);
        if path_key(v.last()@) == path_key(p) {
            rest
        } else {
            rest.push(v.last()@)
        }
    }
}

/// The list after `p` is remembered: `p` first, then the other paths in
/// their order, cut to `MAX_RECENT_PROJECTS` entries.
pub open spec fn remembered(v: Seq<String>, p: Seq<char>) -> Seq<Seq<char>> {
    let all = seq![p] + others(v, p);
    if all.len() > MAX_RECENT_PROJECTS {
        all.take(MAX_RECENT_PROJECTS as int)
    } else {
        all
    }
}

/// `recent` without `path`, the other entries in their order.
fn without(recent: &Vec<String>, path: &String) -> (out: Vec<String>)
    ensures
        path_texts(out@) == others(recent@, path@),
{
    let mut out: Vec<String> = Vec::new();
    let mut i: usize = 0;
    while i < recent.len()
        invariant
            i <= recent@.len(),
            path_texts(out@) == others(recent@.take(i as int), path@),
        decreases recent@.len() - i,
    {
        assert(recent@.take(i + 1).drop_last() =~= recent@.take(i as int));
        if !same_path(recent[i].as_str(), path.as_str()) {
            out.push(recent[i].clone());
        }
        proof {
            assert(path_texts(out@) =~= others(recent@.take(i + 1), path@));
        }
        i += 1;
    }
    assert(recent@.take(i as int) =~= recent@);
    out
}

/// Moves `path` to the front of the list (dropping any earlier entry for
/// it, so it appears once) and keeps at most `MAX_RECENT_PROJECTS`
/// entries; done after every successful load or save.
pub fn remember_recent(recent: &mut Vec<String>, path: String)
    ensures
        path_texts(final(recent)@) == remembered(old(recent)@, path@),
{
    let rest = without(recent, &path);
    let mut out: Vec<String> = Vec::new();
    out.push(path);
    let mut i: usize = 0;
    while i < rest.len() && out.len() < MAX_RECENT_PROJECTS
        invariant
            i <= rest@.len(),
            out@.len() == i + 1,
            out@.len() <= MAX_RECENT_PROJECTS,
            path_texts(out@) == (seq![path@] + path_texts(rest@)).take(i + 1),
        decreases rest@.len() - i,
    {
        out.push(rest[i].clone());
        i += 1;
        assert(path_texts(out@) =~= (seq![path@] + path_texts(rest@)).take(i + 1));
    }
    assert(path_texts(out@) =~= remembered(old(recent)@, path@));
    *recent = out;
}

/// Drops `path` from the list, the other entries keeping their order; done
/// when a listed project no longer exists.
pub fn forget_recent(recent: &mut Vec<String>, path: &String)
    ensures
        path_texts(final(recent)@) == others(old(recent)@, path@),
{
    let out = without(recent, path);
    *recent = out;
}

proof fn lemma_others_lacks(v: Seq<String>, p: Seq<char>)
    ensures
        forall|k: int| 0 <= k < others(v, p).len() ==> path_key(#[trigger] others(v, p)[k]) != path_key(p),
        others(v, p).len() <= v.len(),
    decreases v.len(),
{
    if v.len() > 0 {
        lemma_others_lacks(v.drop_last(), p);
        let rest = others(v.drop_last(), p);
        if path_key(v.last()@) != path_key(p) {
            let w = rest.push(v.last()@);
            assert forall|k: int| 0 <= k < w.len() implies path_key(#[trigger] w[k]) != path_key(p) by {
                if k < rest.len() {
                    assert(w[k] == rest[k]);
                }
            }
        }
    }
}

/// After `path` is remembered it is the first entry, no other entry names
/// the same path, and the list holds at most `MAX_RECENT_PROJECTS` entries.
pub proof fn lemma_remembered_path_leads_once(v: Seq<String>, p: Seq<char>)
    ensures
        remembered(v, p).len() >= 1,
        remembered(v, p)[0] == p,
        remembered(v, p).len() <= MAX_RECENT_PROJECTS,
        forall|k: int| 1 <= k < remembered(v, p).len() ==> path_key(#[trigger] remembered(v, p)[k]) != path_key(p),
{
    lemma_others_lacks(v, p);
    let all = seq![p] + others(v, p);
    assert forall|k: int| 1 <= k < remembered(v, p).len() implies path_key(#[trigger] remembered(v, p)[k]) != path_key(p) by {
        assert(remembered(v, p)[k] == all[k]);
        assert(all[k] == others(v, p)[k - 1]);
    }
}

} // verus!
