//! Grouping a faction's provinces into landmasses, and ordering things
//! largest first.

use vstd::prelude::*;

verus! {

/// Position `a` is ranked before position `b`: its key is larger, or the
/// keys are equal and `a` comes first.
pub open spec fn ranks_before(keys: Seq<usize>, a: int, b: int) -> bool {
    keys[a] > keys[b] || (keys[a] == keys[b] && a < b)
}

/// `r` lists every position of `keys` once, largest key first, positions
/// with equal keys in their own order (a stable sort, descending).
pub open spec fn is_order_by_key_desc(keys: Seq<usize>, r: Seq<usize>) -> bool {
    &&& r.len() == keys.len()
    &&& forall|p: int| 0 <= p < r.len() ==> #[trigger] r[p] < keys.len()
    &&& forall|k: usize| k < keys.len() ==> #[trigger] r.contains(k)
    &&& forall|p: int, q: int|
        0 <= p < q < r.len() ==> ranks_before(keys, #[trigger] r[p] as int, #[trigger] r[q] as int)
}

proof fn lemma_insert_keeps_members(s: Seq<usize>, pos: int, x: usize, k: usize)
    requires
        0 <= pos <= s.len(),
        s.contains(k),
    ensures
        s.insert(pos, x).contains(k),
{
    let j = choose|j: int| 0 <= j < s.len() && s[j] == k;
    if j < pos {
        assert(s.insert(pos, x)[j] == k);
    } else {
        assert(s.insert(pos, x)[j + 1] == k);
    }
}

/// The positions of `keys` sorted by key, largest first; equal keys keep
/// their order.
pub fn order_by_key_desc(keys: &Vec<usize>) -> (r: Vec<usize>)
    ensures
        is_order_by_key_desc(keys@, r@),
{
    let mut r: Vec<usize> = Vec::new();
    let mut i: usize = 0;
    while i < keys.len()
        invariant
            i <= keys@.len(),
            r@.len() == i,
            forall|p: int| 0 <= p < r@.len() ==> #[trigger] r@[p] < i,
            forall|k: usize| k < i ==> #[trigger] r@.contains(k),
            forall|p: int, q: int|
                0 <= p < q < r@.len() ==> ranks_before(keys@, #[trigger] r@[p] as int, #[trigger] r@[q] as int),
        decreases keys@.len() - i,
    {
        let mut pos: usize = 0;
        while pos < r.len() && keys[r[pos]] >= keys[i]
            invariant
                pos <= r@.len(),
                r@.len() == i,
                i < keys@.len(),
                forall|p: int| 0 <= p < r@.len() ==> #[trigger] r@[p] < i,
                forall|p: int| 0 <= p < pos ==> keys@[#[trigger] r@[p] as int] >= keys@[i as int],
            decreases r@.len() - pos,
        {
            pos = pos + 1;
        }
        let ghost old_r = r@;
        assert forall|p: int| pos <= p < old_r.len() implies keys@[#[trigger] old_r[p] as int] < keys@[i as int] by {
            if p > pos {
                assert(ranks_before(keys@, old_r[pos as int] as int, old_r[p] as int));
            }
        }
        r.insert(pos, i);
        assert forall|p: int, q: int| 0 <= p < q < r@.len() implies ranks_before(keys@, #[trigger] r@[p] as int, #[trigger] r@[q] as int) by {
            if q < pos {
                assert(r@[p] == old_r[p] && r@[q] == old_r[q]);
            } else if q == pos {
                assert(r@[p] == old_r[p]);
            } else if p < pos {
                assert(r@[p] == old_r[p] && r@[q] == old_r[q - 1]);
                assert(keys@[old_r[p] as int] >= keys@[i as int]);
            } else if p == pos {
                assert(r@[q] == old_r[q - 1]);
            } else {
                assert(r@[p] == old_r[p - 1] && r@[q] == old_r[q - 1]);
            }
        }
        assert forall|k: usize| k < i + 1 implies #[trigger] r@.contains(k) by {
            if k < i {
                lemma_insert_keeps_members(old_r, pos as int, i, k);
            } else {
                assert(r@[pos as int] == i);
            }
        }
        i = i + 1;
    }
    r
}

/// Provinces `a` and `b` lie close enough to belong to one landmass.
pub open spec fn adjacent(near: Seq<Vec<bool>>, a: int, b: int) -> bool {
    near[a]@[b]
}

/// `near` is a square matrix over the provinces, with one row per province.
pub open spec fn is_square(near: Seq<Vec<bool>>) -> bool {
    forall|a: int| 0 <= a < near.len() ==> (#[trigger] near[a])@.len() == near.len()
}

/// Closeness is mutual.
pub open spec fn is_symmetric(near: Seq<Vec<bool>>) -> bool {
    forall|a: int, b: int|
        0 <= a < near.len() && 0 <= b < near.len() ==> #[trigger] adjacent(near, a, b) == #[trigger] adjacent(near, b, a)
}

pub open spec fn clusters_view(cs: Seq<Vec<usize>>) -> Seq<Seq<usize>> {
    cs.map_values(|c: Vec<usize>| c@)
}

/// Every member is a province, and no province is listed twice.
pub open spec fn members_distinct(cs: Seq<Seq<usize>>, n: int) -> bool {
    &&& forall|c: int, p: int| 0 <= c < cs.len() && 0 <= p < cs[c].len() ==> #[trigger] cs[c][p] < n
    &&& forall|c: int, p: int, q: int|
        0 <= c < cs.len() && 0 <= p < q < cs[c].len() ==> #[trigger] cs[c][p] != #[trigger] cs[c][q]
    &&& forall|c: int, d: int, p: int, q: int|
        0 <= c < d < cs.len() && 0 <= p < cs[c].len() && 0 <= q < cs[d].len() ==> #[trigger] cs[c][p]
            != #[trigger] cs[d][q]
}

/// Province `k` is listed in one of the clusters.
pub open spec fn listed(cs: Seq<Seq<usize>>, k: usize) -> bool {
    exists|c: int| 0 <= c < cs.len() && #[trigger] cs[c].contains(k)
}

/// No cluster has a province close to it that lies outside it.
pub open spec fn clusters_closed(near: Seq<Vec<bool>>, cs: Seq<Seq<usize>>) -> bool {
    forall|c: int, p: int, y: int|
        0 <= c < cs.len() && 0 <= p < cs[c].len() && 0 <= y < near.len() && #[trigger] adjacent(
            near,
            cs[c][p] as int,
            y,
        ) ==> cs[c].contains(y as usize)
}

/// Each member after the first is close to a member listed before it, so
/// a cluster is connected.
pub open spec fn clusters_connected(near: Seq<Vec<bool>>, cs: Seq<Seq<usize>>) -> bool {
    forall|c: int, k: int| 0 <= c < cs.len() && 0 < k < cs[c].len() ==> #[trigger] has_parent(near, cs[c], k)
}

/// Member `p` of `cl` is close to member `k`.
pub open spec fn links(near: Seq<Vec<bool>>, cl: Seq<usize>, p: int, k: int) -> bool {
    adjacent(near, cl[p] as int, cl[k] as int)
}

/// Member `k` of `cl` is close to some member listed before it.
pub open spec fn has_parent(near: Seq<Vec<bool>>, cl: Seq<usize>, k: int) -> bool {
    exists|p: int| 0 <= p < k && #[trigger] links(near, cl, p, k)
}

/// Every cluster is non-empty and starts with its smallest member.
pub open spec fn clusters_start_least(cs: Seq<Seq<usize>>) -> bool {
    forall|c: int, p: int| 0 <= c < cs.len() && 0 <= p < cs[c].len() ==> cs[c][0] <= #[trigger] cs[c][p]
}

/// Larger clusters come first; among clusters of one size, the one with
/// the smaller first member.
pub open spec fn largest_first(cs: Seq<Seq<usize>>) -> bool {
    forall|c: int, d: int|
        0 <= c < d < cs.len() ==> #[trigger] cs[c].len() > #[trigger] cs[d].len() || (cs[c].len()
            == cs[d].len() && cs[c][0] < cs[d][0])
}

/// `cs` are the connected components of the closeness graph `near`: every
/// province in exactly one, none with a close province outside it, each
/// connected, listed largest first (ties by smallest member), each starting
/// with its smallest member.
pub open spec fn is_component_clustering(near: Seq<Vec<bool>>, cs: Seq<Seq<usize>>) -> bool {
    &&& forall|c: int| 0 <= c < cs.len() ==> #[trigger] cs[c].len() > 0
    &&& members_distinct(cs, near.len() as int)
    &&& forall|k: usize| k < near.len() ==> #[trigger] listed(cs, k)
    &&& clusters_closed(near, cs)
    &&& clusters_connected(near, cs)
    &&& clusters_start_least(cs)
    &&& largest_first(cs)
}

/// The number of provinces below `k` that are not in `cl`.
pub open spec fn unlisted(k: int, cl: Seq<usize>) -> nat
    decreases k,
{
    if k <= 0 {
        0
    } else {
        unlisted(k - 1, cl) + if cl.contains((k - 1) as usize) {
            0nat
        } else {
            1nat
        }
    }
}

/// Scanning the row of province `curr` from column `j` on: each province
/// close to `curr` that is not yet a member joins the members `cl` and the
/// stack, in column order.
pub open spec fn scan_row(near: Seq<Vec<bool>>, curr: int, j: int, stack: Seq<usize>, cl: Seq<usize>) -> (Seq<usize>, Seq<usize>)
    decreases near.len() - j,
{
    if j < 0 || j >= near.len() {
        (stack, cl)
    } else if adjacent(near, curr, j) && !cl.contains(j as usize) {
        scan_row(near, curr, j + 1, stack.push(j as usize), cl.push(j as usize))
    } else {
        scan_row(near, curr, j + 1, stack, cl)
    }
}

/// Adding a province that was not listed takes it off the unlisted count.
pub proof fn lemma_unlisted_push(k: int, cl: Seq<usize>, x: usize)
    requires
        k <= usize::MAX + 1,
        !cl.contains(x),
    ensures
        unlisted(k, cl.push(x)) + (if x < k { 1int } else { 0int }) == unlisted(k, cl),
    decreases k,
{
    if k > 0 {
        lemma_unlisted_push(k - 1, cl, x);
        let y = (k - 1) as usize;
        assert(cl.push(x).contains(y) == (cl.contains(y) || x == y)) by {
            if cl.push(x).contains(y) {
                let i = choose|i: int| 0 <= i < cl.push(x).len() && cl.push(x)[i] == y;
                if i < cl.len() {
                    assert(cl[i] == y);
                }
            }
            if cl.contains(y) {
                let i = choose|i: int| 0 <= i < cl.len() && cl[i] == y;
                assert(cl.push(x)[i] == y);
            }
            if x == y {
                assert(cl.push(x)[cl.len() as int] == y);
            }
        }
    }
}

/// A scan adds the same provinces to the members and to the stack, each
/// one leaving the unlisted count.
pub proof fn lemma_scan_row_grows(near: Seq<Vec<bool>>, curr: int, j: int, stack: Seq<usize>, cl: Seq<usize>)
    requires
        near.len() <= usize::MAX,
    ensures
        ({
            let r = scan_row(near, curr, j, stack, cl);
            &&& r.1.len() >= cl.len()
            &&& r.0.len() - stack.len() == r.1.len() - cl.len()
            &&& unlisted(near.len() as int, r.1) + (r.1.len() - cl.len()) == unlisted(near.len() as int, cl)
        }),
    decreases near.len() - j,
{
    if j < 0 || j >= near.len() {
    } else if adjacent(near, curr, j) && !cl.contains(j as usize) {
        lemma_unlisted_push(near.len() as int, cl, j as usize);
        lemma_scan_row_grows(near, curr, j + 1, stack.push(j as usize), cl.push(j as usize));
    } else {
        lemma_scan_row_grows(near, curr, j + 1, stack, cl);
    }
}

/// The rest of a depth-first traversal: take the last province off the
/// stack, scan its row, and go on until the stack is empty. The result is
/// the members in the order they were found.
pub open spec fn traverse(near: Seq<Vec<bool>>, stack: Seq<usize>, cl: Seq<usize>) -> Seq<usize>
    decreases unlisted(near.len() as int, cl), stack.len() when near.len() <= usize::MAX
{
    if stack.len() == 0 {
        cl
    } else {
        let r = scan_row(near, stack.last() as int, 0, stack.drop_last(), cl);
        proof {
            lemma_scan_row_grows(near, stack.last() as int, 0, stack.drop_last(), cl);
        }
        traverse(near, r.0, r.1)
    }
}

/// The landmass of province `s` in the order a depth-first traversal from
/// `s` finds it: a stack starting with `s`; each time the last province is
/// taken off and the provinces close to it that are not yet found join, in
/// column order.
pub open spec fn component_order(near: Seq<Vec<bool>>, s: usize) -> Seq<usize> {
    traverse(near, seq![s], seq![s])
}

proof fn lemma_distinct_bounded(s: Seq<usize>, n: int)
    requires
        0 <= n,
        forall|p: int| 0 <= p < s.len() ==> #[trigger] s[p] < n,
        forall|p: int, q: int| 0 <= p < q < s.len() ==> #[trigger] s[p] != #[trigger] s[q],
    ensures
        s.len() <= n,
{
    let t = s.map_values(|x: usize| x as int);
    assert forall|i: int, j: int| 0 <= i < t.len() && 0 <= j < t.len() && i != j implies t[i] != t[j] by {
        if i < j {
            assert(s[i] != s[j]);
        } else {
            assert(s[j] != s[i]);
        }
    }
    assert(t.no_duplicates());
    t.unique_seq_to_set();
    vstd::set_lib::lemma_int_range(0, n);
    assert forall|x: int| t.to_set().contains(x) implies vstd::set_lib::set_int_range(0, n).contains(x) by {
        assert(t.contains(x));
        let i = choose|i: int| 0 <= i < t.len() && t[i] == x;
        assert(s[i] < n);
    }
    vstd::set_lib::lemma_len_subset(t.to_set(), vstd::set_lib::set_int_range(0, n));
}

proof fn lemma_member_listed(cs: Seq<Seq<usize>>, c: int, p: int)
    requires
        0 <= c < cs.len(),
        0 <= p < cs[c].len(),
    ensures
        listed(cs, cs[c][p]),
{
    assert(cs[c].contains(cs[c][p]));
}

proof fn lemma_listed_push(cs: Seq<Seq<usize>>, last: Seq<usize>, k: usize)
    ensures
        listed(cs.push(last), k) == (listed(cs, k) || last.contains(k)),
{
    if listed(cs, k) {
        let c = choose|c: int| 0 <= c < cs.len() && #[trigger] cs[c].contains(k);
        assert(cs.push(last)[c] == cs[c]);
    }
    if last.contains(k) {
        assert(cs.push(last)[cs.len() as int] == last);
    }
    if listed(cs.push(last), k) {
        let c = choose|c: int| 0 <= c < cs.push(last).len() && #[trigger] cs.push(last)[c].contains(k);
        if c < cs.len() {
            assert(cs[c].contains(k));
        }
    }
}

/// Grows the component of `start` over the provinces not yet visited,
/// marking its members visited.
fn grow_component(
    near: &Vec<Vec<bool>>,
    start: usize,
    visited: &mut Vec<bool>,
    Ghost(found): Ghost<Seq<Seq<usize>>>,
) -> (cl: Vec<usize>)
    requires
        is_square(near@),
        is_symmetric(near@),
        start < near@.len(),
        old(visited)@.len() == near@.len(),
        !old(visited)@[start as int],
        members_distinct(found, near@.len() as int),
        clusters_closed(near@, found),
        forall|k: int| 0 <= k < near@.len() ==> #[trigger] old(visited)@[k] == listed(found, k as usize),
        forall|k: int| 0 <= k < start ==> #[trigger] old(visited)@[k],
    ensures
        final(visited)@.len() == near@.len(),
        cl@.len() > 0,
        cl@[0] == start,
        forall|p: int| 0 <= p < cl@.len() ==> start <= #[trigger] cl@[p] < near@.len(),
        forall|p: int, q: int| 0 <= p < q < cl@.len() ==> #[trigger] cl@[p] != #[trigger] cl@[q],
        forall|p: int| 0 <= p < cl@.len() ==> !listed(found, #[trigger] cl@[p]),
        forall|p: int, y: int|
            0 <= p < cl@.len() && 0 <= y < near@.len() && #[trigger] adjacent(near@, cl@[p] as int, y)
                ==> cl@.contains(y as usize),
        forall|k: int| 0 < k < cl@.len() ==> #[trigger] has_parent(near@, cl@, k),
        forall|k: int|
            0 <= k < near@.len() ==> #[trigger] final(visited)@[k] == (listed(found, k as usize) || cl@.contains(
                k as usize,
            )),
        cl@ == component_order(near@, start),
{
    let n = near.len();
    visited.set(start, true);
    let mut cl: Vec<usize> = Vec::new();
    cl.push(start);
    let mut stack: Vec<usize> = Vec::new();
    stack.push(start);
    assert forall|k: int| 0 <= k < n implies #[trigger] visited@[k] == (listed(found, k as usize) || cl@.contains(k as usize)) by {
        if k == start {
            assert(cl@[0] == start);
        }
    }
    assert(stack@ =~= seq![start] && cl@ =~= seq![start]);
    while stack.len() > 0
        invariant
            traverse(near@, stack@, cl@) == component_order(near@, start),
            n == near@.len(),
            is_square(near@),
            is_symmetric(near@),
            members_distinct(found, n as int),
            clusters_closed(near@, found),
            visited@.len() == n,
            cl@.len() > 0,
            cl@.len() <= n,
            cl@[0] == start,
            forall|k: int| 0 <= k < start ==> #[trigger] visited@[k],
            forall|p: int| 0 <= p < cl@.len() ==> start <= #[trigger] cl@[p] < n,
            forall|p: int, q: int| 0 <= p < q < cl@.len() ==> #[trigger] cl@[p] != #[trigger] cl@[q],
            forall|p: int| 0 <= p < cl@.len() ==> !listed(found, #[trigger] cl@[p]),
            forall|k: int|
                0 <= k < n ==> #[trigger] visited@[k] == (listed(found, k as usize) || cl@.contains(k as usize)),
            forall|s: int| 0 <= s < stack@.len() ==> cl@.contains(#[trigger] stack@[s]),
            forall|s: int, t: int| 0 <= s < t < stack@.len() ==> #[trigger] stack@[s] != #[trigger] stack@[t],
            forall|p: int, y: int|
                0 <= p < cl@.len() && 0 <= y < n && !stack@.contains(cl@[p]) && #[trigger] adjacent(
                    near@,
                    cl@[p] as int,
                    y,
                ) ==> visited@[y],
            forall|k: int| 0 < k < cl@.len() ==> #[trigger] has_parent(near@, cl@, k),
        decreases 2 * (n - cl@.len()) + stack@.len(),
    {
        let ghost old_stack = stack@;
        let curr: usize = match stack.pop() {
            Some(c) => c,
            None => start,
        };
        assert(old_stack == stack@.push(curr));
        assert(cl@.contains(curr)) by {
            assert(old_stack[old_stack.len() - 1] == curr);
        }
        assert(!stack@.contains(curr)) by {
            if stack@.contains(curr) {
                let s = choose|s: int| 0 <= s < stack@.len() && stack@[s] == curr;
                assert(old_stack[s] == curr && old_stack[old_stack.len() - 1] == curr);
            }
        }
        let ghost stack_p = stack@;
        let ghost cl_p = cl@;
        assert(old_stack.last() == curr && old_stack.drop_last() =~= stack_p);
        let ghost target = scan_row(near@, curr as int, 0, stack_p, cl_p);
        assert(traverse(near@, old_stack, cl_p) == traverse(near@, target.0, target.1));
        let ghost cl_before = cl@.len();
        let mut j: usize = 0;
        while j < n
            invariant
                scan_row(near@, curr as int, j as int, stack@, cl@) == target,
                target == scan_row(near@, curr as int, 0, stack_p, cl_p),
                traverse(near@, target.0, target.1) == component_order(near@, start),
                n == near@.len(),
                is_square(near@),
                is_symmetric(near@),
                members_distinct(found, n as int),
                clusters_closed(near@, found),
                visited@.len() == n,
                j <= n,
                curr < n,
                cl@.contains(curr),
                !stack@.contains(curr),
                cl@.len() >= cl_before,
                cl@.len() > 0,
                cl@.len() <= n,
                cl@[0] == start,
                forall|k: int| 0 <= k < start ==> #[trigger] visited@[k],
                forall|p: int| 0 <= p < cl@.len() ==> start <= #[trigger] cl@[p] < n,
                forall|p: int, q: int| 0 <= p < q < cl@.len() ==> #[trigger] cl@[p] != #[trigger] cl@[q],
                forall|p: int| 0 <= p < cl@.len() ==> !listed(found, #[trigger] cl@[p]),
                forall|k: int|
                    0 <= k < n ==> #[trigger] visited@[k] == (listed(found, k as usize) || cl@.contains(
                        k as usize,
                    )),
                forall|s: int| 0 <= s < stack@.len() ==> cl@.contains(#[trigger] stack@[s]),
                forall|s: int, t: int| 0 <= s < t < stack@.len() ==> #[trigger] stack@[s] != #[trigger] stack@[t],
                forall|p: int, y: int|
                    0 <= p < cl@.len() && 0 <= y < n && cl@[p] != curr && !stack@.contains(cl@[p])
                        && #[trigger] adjacent(near@, cl@[p] as int, y) ==> visited@[y],
                forall|y: int| 0 <= y < j && #[trigger] adjacent(near@, curr as int, y) ==> visited@[y],
                forall|k: int| 0 < k < cl@.len() ==> #[trigger] has_parent(near@, cl@, k),
                2 * (n - cl@.len()) + stack@.len() <= 2 * (n - cl_before) + old_stack.len() - 1,
            decreases n - j,
        {
            let row = &near[curr];
            proof {
                assert(near@[curr as int]@.len() == n);
            }
            if !visited[j] && row[j] {
                assert(adjacent(near@, curr as int, j as int));
                let ghost cl0 = cl@;
                let ghost st0 = stack@;
                let ghost vis0 = visited@;
                assert(!cl0.contains(j)) by {
                    assert(!vis0[j as int]);
                }
                assert(!listed(found, j)) by {
                    assert(!vis0[j as int]);
                }
                assert(start <= j) by {
                    if j < start {
                        assert(vis0[j as int]);
                    }
                }
                assert(scan_row(near@, curr as int, j as int, st0, cl0) == scan_row(near@, curr as int, j + 1, st0.push(j), cl0.push(j)));
                let ghost pc = choose|p: int| 0 <= p < cl0.len() && cl0[p] == curr;
                visited.set(j, true);
                cl.push(j);
                stack.push(j);
                assert(cl@ == cl0.push(j));
                assert(stack@ == st0.push(j));
                assert(cl@[pc] == curr);
                assert forall|p: int, q: int| 0 <= p < q < cl@.len() implies #[trigger] cl@[p] != #[trigger] cl@[q] by {
                    if q == cl0.len() {
                        assert(cl0.contains(cl0[p]));
                    }
                }
                proof {
                    lemma_distinct_bounded(cl@, n as int);
                }
                assert forall|k: int| 0 <= k < n implies #[trigger] visited@[k] == (listed(found, k as usize) || cl@.contains(k as usize)) by {
                    if k == j {
                        assert(cl@[cl0.len() as int] == j);
                    } else {
                        assert(vis0[k] == visited@[k]);
                        if cl@.contains(k as usize) {
                            let q = choose|q: int| 0 <= q < cl@.len() && cl@[q] == k as usize;
                            assert(cl0[q] == k as usize);
                        }
                        if cl0.contains(k as usize) {
                            let q = choose|q: int| 0 <= q < cl0.len() && cl0[q] == k as usize;
                            assert(cl@[q] == k as usize);
                        }
                    }
                }
                assert forall|s: int| 0 <= s < stack@.len() implies cl@.contains(#[trigger] stack@[s]) by {
                    if s < st0.len() {
                        assert(cl0.contains(st0[s]));
                        let q = choose|q: int| 0 <= q < cl0.len() && cl0[q] == st0[s];
                        assert(cl@[q] == st0[s]);
                    } else {
                        assert(cl@[cl0.len() as int] == j);
                    }
                }
                assert forall|s: int, t: int| 0 <= s < t < stack@.len() implies #[trigger] stack@[s] != #[trigger] stack@[t] by {
                    if t == st0.len() {
                        assert(cl0.contains(st0[s]));
                    }
                }
                assert forall|p: int, y: int|
                    0 <= p < cl@.len() && 0 <= y < n && cl@[p] != curr && !stack@.contains(cl@[p])
                        && #[trigger] adjacent(near@, cl@[p] as int, y) implies visited@[y] by {
                    if p < cl0.len() {
                        assert(cl@[p] == cl0[p]);
                        if st0.contains(cl0[p]) {
                            let s = choose|s: int| 0 <= s < st0.len() && st0[s] == cl0[p];
                            assert(stack@[s] == cl0[p]);
                        }
                        if vis0[y] {
                            assert(visited@[y]);
                        }
                    } else {
                        assert(stack@[st0.len() as int] == j);
                    }
                }
                assert forall|k: int| 0 < k < cl@.len() implies #[trigger] has_parent(near@, cl@, k) by {
                    if k == cl0.len() {
                        assert(cl@[pc] == curr);
                        assert(links(near@, cl@, pc, k));
                    } else {
                        assert(has_parent(near@, cl0, k));
                        let p = choose|p: int| 0 <= p < k && #[trigger] links(near@, cl0, p, k);
                        assert(cl@[p] == cl0[p] && cl@[k] == cl0[k]);
                        assert(links(near@, cl@, p, k));
                    }
                }
                assert forall|y: int| 0 <= y < j + 1 && #[trigger] adjacent(near@, curr as int, y) implies visited@[y] by {
                    if y != j {
                        assert(vis0[y]);
                    }
                }
            } else {
                assert(!(adjacent(near@, curr as int, j as int) && !cl@.contains(j))) by {
                    if adjacent(near@, curr as int, j as int) && !cl@.contains(j) {
                        assert(adjacent(near@, curr as int, j as int) == row@[j as int]);
                        assert(visited@[j as int]);
                        assert(listed(found, j));
                        let c = choose|c: int| 0 <= c < found.len() && #[trigger] found[c].contains(j);
                        let q = choose|q: int| 0 <= q < found[c].len() && found[c][q] == j;
                        assert(adjacent(near@, j as int, curr as int));
                        assert(adjacent(near@, found[c][q] as int, curr as int));
                        assert(found[c].contains(curr));
                        assert(listed(found, curr));
                        let pc = choose|p: int| 0 <= p < cl@.len() && cl@[p] == curr;
                        assert(!listed(found, cl@[pc]));
                    }
                }
                assert forall|y: int| 0 <= y < j + 1 && #[trigger] adjacent(near@, curr as int, y) implies visited@[y] by {
                    if y == j {
                        assert(adjacent(near@, curr as int, j as int) == row@[j as int]);
                    }
                }
            }
            j = j + 1;
        }
        assert(scan_row(near@, curr as int, j as int, stack@, cl@) == (stack@, cl@));
        assert forall|p: int, y: int|
            0 <= p < cl@.len() && 0 <= y < n && !stack@.contains(cl@[p]) && #[trigger] adjacent(
                near@,
                cl@[p] as int,
                y,
            ) implies visited@[y] by {
            if cl@[p] == curr {
                assert(adjacent(near@, curr as int, y));
            }
        }
    }
    assert forall|p: int, y: int|
        0 <= p < cl@.len() && 0 <= y < n && #[trigger] adjacent(near@, cl@[p] as int, y) implies cl@.contains(y as usize) by {
        assert(!stack@.contains(cl@[p]));
        assert(visited@[y]);
        if listed(found, y as usize) {
            let c = choose|c: int| 0 <= c < found.len() && #[trigger] found[c].contains(y as usize);
            let q = choose|q: int| 0 <= q < found[c].len() && found[c][q] == y as usize;
            assert(adjacent(near@, y, cl@[p] as int));
            assert(adjacent(near@, found[c][q] as int, cl@[p] as int));
            assert(found[c].contains(cl@[p]));
            assert(listed(found, cl@[p]));
        }
    }
    assert(traverse(near@, stack@, cl@) == cl@);
    cl
}

/// The components found so far: the clustering conditions other than the
/// order by size, with first members increasing.
pub open spec fn components_so_far(near: Seq<Vec<bool>>, cs: Seq<Seq<usize>>) -> bool {
    &&& forall|c: int| 0 <= c < cs.len() ==> #[trigger] cs[c].len() > 0
    &&& members_distinct(cs, near.len() as int)
    &&& clusters_closed(near, cs)
    &&& clusters_connected(near, cs)
    &&& clusters_start_least(cs)
    &&& forall|c: int, d: int| 0 <= c < d < cs.len() ==> #[trigger] cs[c][0] < #[trigger] cs[d][0]
}

proof fn lemma_push_component(near: Seq<Vec<bool>>, cs: Seq<Seq<usize>>, cl: Seq<usize>, start: usize)
    requires
        components_so_far(near, cs),
        forall|c: int| 0 <= c < cs.len() ==> #[trigger] cs[c][0] < start,
        cl.len() > 0,
        cl[0] == start,
        forall|p: int| 0 <= p < cl.len() ==> start <= #[trigger] cl[p] < near.len(),
        forall|p: int, q: int| 0 <= p < q < cl.len() ==> #[trigger] cl[p] != #[trigger] cl[q],
        forall|p: int| 0 <= p < cl.len() ==> !listed(cs, #[trigger] cl[p]),
        forall|p: int, y: int|
            0 <= p < cl.len() && 0 <= y < near.len() && #[trigger] adjacent(near, cl[p] as int, y)
                ==> cl.contains(y as usize),
        forall|k: int| 0 < k < cl.len() ==> #[trigger] has_parent(near, cl, k),
    ensures
        components_so_far(near, cs.push(cl)),
        forall|c: int| 0 <= c < cs.push(cl).len() ==> #[trigger] cs.push(cl)[c][0] <= start,
{
    let ns = cs.push(cl);
    assert forall|c: int| 0 <= c < ns.len() implies #[trigger] ns[c].len() > 0 by {
        if c < cs.len() {
            assert(ns[c] == cs[c]);
        }
    }
    assert forall|c: int, p: int| 0 <= c < ns.len() && 0 <= p < ns[c].len() implies #[trigger] ns[c][p] < near.len() by {
        if c < cs.len() {
            assert(ns[c] == cs[c]);
        }
    }
    assert forall|c: int, p: int, q: int| 0 <= c < ns.len() && 0 <= p < q < ns[c].len() implies #[trigger] ns[c][p] != #[trigger] ns[c][q] by {
        if c < cs.len() {
            assert(ns[c] == cs[c]);
        }
    }
    assert forall|c: int, d: int, p: int, q: int|
        0 <= c < d < ns.len() && 0 <= p < ns[c].len() && 0 <= q < ns[d].len() implies #[trigger] ns[c][p] != #[trigger] ns[d][q] by {
        assert(ns[c] == cs[c]);
        if d < cs.len() {
            assert(ns[d] == cs[d]);
        } else {
            assert(ns[d] == cl);
            lemma_member_listed(cs, c, p);
            assert(!listed(cs, cl[q]));
        }
    }
    assert forall|c: int, p: int, y: int|
        0 <= c < ns.len() && 0 <= p < ns[c].len() && 0 <= y < near.len() && #[trigger] adjacent(
            near,
            ns[c][p] as int,
            y,
        ) implies ns[c].contains(y as usize) by {
        if c < cs.len() {
            assert(ns[c] == cs[c]);
        } else {
            assert(ns[c] == cl);
        }
    }
    assert forall|c: int, k: int| 0 <= c < ns.len() && 0 < k < ns[c].len() implies #[trigger] has_parent(near, ns[c], k) by {
        if c < cs.len() {
            assert(ns[c] == cs[c]);
        } else {
            assert(ns[c] == cl);
        }
    }
    assert forall|c: int, p: int| 0 <= c < ns.len() && 0 <= p < ns[c].len() implies ns[c][0] <= #[trigger] ns[c][p] by {
        if c < cs.len() {
            assert(ns[c] == cs[c]);
        } else {
            assert(ns[c] == cl);
        }
    }
    assert forall|c: int, d: int| 0 <= c < d < ns.len() implies #[trigger] ns[c][0] < #[trigger] ns[d][0] by {
        assert(ns[c] == cs[c]);
        if d < cs.len() {
            assert(ns[d] == cs[d]);
        } else {
            assert(ns[d] == cl);
        }
    }
    assert forall|c: int| 0 <= c < ns.len() implies #[trigger] ns[c][0] <= start by {
        if c < cs.len() {
            assert(ns[c] == cs[c]);
        } else {
            assert(ns[c] == cl);
        }
    }
    assert(members_distinct(ns, near.len() as int));
    assert(clusters_closed(near, ns));
    assert(clusters_connected(near, ns));
    assert(clusters_start_least(ns));
}

/// The components of the closeness graph, in the order of their smallest
/// members.
fn discover_components(near: &Vec<Vec<bool>>) -> (cs: Vec<Vec<usize>>)
    requires
        is_square(near@),
        is_symmetric(near@),
    ensures
        components_so_far(near@, clusters_view(cs@)),
        forall|k: usize| k < near@.len() ==> #[trigger] listed(clusters_view(cs@), k),
        forall|c: int| 0 <= c < cs@.len() ==> #[trigger] clusters_view(cs@)[c] == component_order(near@, clusters_view(cs@)[c][0]),
{
    let n = near.len();
    let mut visited: Vec<bool> = Vec::new();
    let mut k: usize = 0;
    while k < n
        invariant
            k <= n,
            visited@.len() == k,
            forall|q: int| 0 <= q < k ==> !#[trigger] visited@[q],
        decreases n - k,
    {
        visited.push(false);
        k = k + 1;
    }
    let mut found: Vec<Vec<usize>> = Vec::new();
    let mut i: usize = 0;
    while i < n
        invariant
            n == near@.len(),
            is_square(near@),
            is_symmetric(near@),
            i <= n,
            visited@.len() == n,
            components_so_far(near@, clusters_view(found@)),
            forall|c: int| 0 <= c < found@.len() ==> #[trigger] clusters_view(found@)[c][0] < i,
            forall|c: int| 0 <= c < found@.len() ==> #[trigger] clusters_view(found@)[c] == component_order(near@, clusters_view(found@)[c][0]),
            forall|q: int| 0 <= q < n ==> #[trigger] visited@[q] == listed(clusters_view(found@), q as usize),
            forall|q: int| 0 <= q < i ==> #[trigger] visited@[q],
        decreases n - i,
    {
        if !visited[i] {
            let ghost before = clusters_view(found@);
            let ghost vis0 = visited@;
            let cl = grow_component(near, i, &mut visited, Ghost(before));
            proof {
                lemma_push_component(near@, before, cl@, i);
            }
            found.push(cl);
            assert(clusters_view(found@) =~= before.push(cl@));
            assert forall|q: int| 0 <= q < n implies #[trigger] visited@[q] == listed(clusters_view(found@), q as usize) by {
                lemma_listed_push(before, cl@, q as usize);
            }
            assert forall|q: int| 0 <= q < i + 1 implies #[trigger] visited@[q] by {
                if q < i {
                    assert(vis0[q]);
                } else {
                    assert(cl@[0] == i);
                }
            }
            assert forall|c: int| 0 <= c < found@.len() implies #[trigger] clusters_view(found@)[c] == component_order(near@, clusters_view(found@)[c][0]) by {
                if c < before.len() {
                    assert(clusters_view(found@)[c] == before[c]);
                }
            }
            assert forall|c: int| 0 <= c < found@.len() implies #[trigger] clusters_view(found@)[c][0] < i + 1 by {
                assert(before.push(cl@)[c][0] <= i);
            }
        }
        i = i + 1;
    }
    assert forall|k: usize| k < n implies #[trigger] listed(clusters_view(found@), k) by {
        assert(visited@[k as int]);
    }
    found
}

fn copy_members(src: &Vec<usize>) -> (r: Vec<usize>)
    ensures
        r@ == src@,
{
    let mut r: Vec<usize> = Vec::new();
    let mut i: usize = 0;
    while i < src.len()
        invariant
            i <= src@.len(),
            r@ == src@.take(i as int),
        decreases src@.len() - i,
    {
        r.push(src[i]);
        i = i + 1;
        assert(r@ =~= src@.take(i as int));
    }
    assert(src@.take(i as int) =~= src@);
    r
}

proof fn lemma_reordered(
    near: Seq<Vec<bool>>,
    f: Seq<Seq<usize>>,
    sizes: Seq<usize>,
    order: Seq<usize>,
    g: Seq<Seq<usize>>,
)
    requires
        components_so_far(near, f),
        forall|k: usize| k < near.len() ==> #[trigger] listed(f, k),
        sizes.len() == f.len(),
        f.len() <= usize::MAX,
        forall|c: int| 0 <= c < f.len() ==> #[trigger] sizes[c] == f[c].len(),
        is_order_by_key_desc(sizes, order),
        g.len() == order.len(),
        forall|u: int| 0 <= u < g.len() ==> #[trigger] g[u] == f[order[u] as int],
        forall|c: int| 0 <= c < f.len() ==> #[trigger] f[c] == component_order(near, f[c][0]),
    ensures
        is_component_clustering(near, g),
        forall|u: int| 0 <= u < g.len() ==> #[trigger] g[u] == component_order(near, g[u][0]),
{
    assert forall|u: int| 0 <= u < g.len() implies #[trigger] g[u] == component_order(near, g[u][0]) by {
        assert(order[u] < f.len());
        assert(f[order[u] as int] == component_order(near, f[order[u] as int][0]));
    }
    assert forall|u: int| 0 <= u < g.len() implies #[trigger] g[u].len() > 0 by {
        assert(order[u] < f.len());
    }
    assert forall|u: int, p: int| 0 <= u < g.len() && 0 <= p < g[u].len() implies #[trigger] g[u][p] < near.len() by {
        assert(order[u] < f.len());
    }
    assert forall|u: int, p: int, q: int| 0 <= u < g.len() && 0 <= p < q < g[u].len() implies #[trigger] g[u][p] != #[trigger] g[u][q] by {
        assert(order[u] < f.len());
    }
    assert forall|u: int, v: int, p: int, q: int|
        0 <= u < v < g.len() && 0 <= p < g[u].len() && 0 <= q < g[v].len() implies #[trigger] g[u][p] != #[trigger] g[v][q] by {
        let a = order[u] as int;
        let b = order[v] as int;
        assert(ranks_before(sizes, a, b));
        assert(a < f.len() && b < f.len());
        if a < b {
            assert(f[a][p] != f[b][q]);
        } else {
            assert(f[b][q] != f[a][p]);
        }
    }
    assert forall|k: usize| k < near.len() implies #[trigger] listed(g, k) by {
        assert(listed(f, k));
        let c = choose|c: int| 0 <= c < f.len() && #[trigger] f[c].contains(k);
        assert(c as usize as int == c);
        assert(order.contains(c as usize));
        let u = choose|u: int| 0 <= u < order.len() && order[u] == c as usize;
        assert(g[u] == f[c]);
        assert(g[u].contains(k));
    }
    assert forall|u: int, p: int, y: int|
        0 <= u < g.len() && 0 <= p < g[u].len() && 0 <= y < near.len() && #[trigger] adjacent(
            near,
            g[u][p] as int,
            y,
        ) implies g[u].contains(y as usize) by {
        assert(order[u] < f.len());
        assert(adjacent(near, f[order[u] as int][p] as int, y));
    }
    assert forall|u: int, k: int| 0 <= u < g.len() && 0 < k < g[u].len() implies #[trigger] has_parent(near, g[u], k) by {
        assert(order[u] < f.len());
        assert(has_parent(near, f[order[u] as int], k));
    }
    assert forall|u: int, p: int| 0 <= u < g.len() && 0 <= p < g[u].len() implies g[u][0] <= #[trigger] g[u][p] by {
        assert(order[u] < f.len());
        assert(f[order[u] as int][0] <= f[order[u] as int][p]);
    }
    assert forall|u: int, v: int| 0 <= u < v < g.len() implies #[trigger] g[u].len() > #[trigger] g[v].len() || (g[u].len()
        == g[v].len() && g[u][0] < g[v][0]) by {
        let a = order[u] as int;
        let b = order[v] as int;
        assert(ranks_before(sizes, a, b));
        assert(a < f.len() && b < f.len());
        if sizes[a] == sizes[b] {
            assert(f[a][0] < f[b][0]);
        }
    }
    assert(members_distinct(g, near.len() as int));
    assert(clusters_closed(near, g));
    assert(clusters_connected(near, g));
    assert(clusters_start_least(g));
    assert(largest_first(g));
}

/// Splits a faction's provinces into landmasses: the connected components
/// of `near`, where `near[a][b]` says that provinces `a` and `b` lie within
/// the clustering distance of each other. The largest landmass comes first,
/// and each lists its provinces in the order of a depth-first traversal
/// from its smallest province.
pub fn cluster_provinces(near: &Vec<Vec<bool>>) -> (cs: Vec<Vec<usize>>)
    requires
        is_square(near@),
        is_symmetric(near@),
    ensures
        is_component_clustering(near@, clusters_view(cs@)),
        forall|u: int| 0 <= u < cs@.len() ==> #[trigger] clusters_view(cs@)[u] == component_order(near@, clusters_view(cs@)[u][0]),
{
    let found = discover_components(near);
    let mut sizes: Vec<usize> = Vec::new();
    let mut c: usize = 0;
    while c < found.len()
        invariant
            c <= found@.len(),
            sizes@.len() == c,
            forall|d: int| 0 <= d < c ==> #[trigger] sizes@[d] == found@[d]@.len(),
        decreases found@.len() - c,
    {
        sizes.push(found[c].len());
        c = c + 1;
    }
    let order = order_by_key_desc(&sizes);
    let mut cs: Vec<Vec<usize>> = Vec::new();
    let mut t: usize = 0;
    while t < order.len()
        invariant
            t <= order@.len(),
            is_order_by_key_desc(sizes@, order@),
            sizes@.len() == found@.len(),
            cs@.len() == t,
            forall|u: int| 0 <= u < t ==> #[trigger] cs@[u]@ == found@[order@[u] as int]@,
        decreases order@.len() - t,
    {
        let copy = copy_members(&found[order[t]]);
        cs.push(copy);
        t = t + 1;
    }
    proof {
        let f = clusters_view(found@);
        let g = clusters_view(cs@);
        assert forall|d: int| 0 <= d < f.len() implies #[trigger] sizes@[d] == f[d].len() by {
            assert(sizes@[d] == found@[d]@.len());
        }
        assert forall|u: int| 0 <= u < g.len() implies #[trigger] g[u] == f[order@[u] as int] by {
            assert(cs@[u]@ == found@[order@[u] as int]@);
        }
        lemma_reordered(near@, f, sizes@, order@, g);
    }
    cs
}

} // verus!
