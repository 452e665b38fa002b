use vstd::prelude::*;

verus! {

pub open spec fn graph_view(g: Seq<Vec<usize>>) -> Seq<Seq<usize>> {
    g.map_values(|row: Vec<usize>| row@)
}

/// Every edge of `g` points at a node of `g`.
pub open spec fn graph_wf(g: Seq<Seq<usize>>) -> bool {
    forall|i: int, e: int| 0 <= i < g.len() && 0 <= e < g[i].len() ==> g[i][e] < g.len()
}

/// `order` lists each node once, and each node after everything it depends on.
pub open spec fn is_build_order(g: Seq<Seq<usize>>, order: Seq<usize>) -> bool {
    &&& order.len() == g.len()
    &&& order.no_duplicates()
    &&& forall|k: int| 0 <= k < order.len() ==> order[k] < g.len()
    &&& forall|x: usize| x < g.len() ==> #[trigger] order.contains(x)
    &&& forall|a: int, e: int|
        #![trigger g[order[a] as int][e]]
        0 <= a < order.len() && 0 <= e < g[order[a] as int].len() ==> order.take(a).contains(
            g[order[a] as int][e],
        )
}

/// Node `x` depends on some node of `members`.
pub open spec fn depends_within(g: Seq<Seq<usize>>, x: usize, members: Seq<usize>) -> bool {
    exists|e: int| 0 <= e < g[x as int].len() && members.contains(#[trigger] g[x as int][e])
}

/// A non-empty set of nodes each of which depends on another node of the set:
/// no order can build them.
pub open spec fn is_blocked(g: Seq<Seq<usize>>, members: Seq<usize>) -> bool {
    &&& members.len() > 0
    &&& members.no_duplicates()
    &&& forall|k: int| 0 <= k < members.len() ==> members[k] < g.len()
    &&& forall|k: int| 0 <= k < members.len() ==> #[trigger] depends_within(g, members[k], members)
}

pub open spec fn count_true(s: Seq<bool>) -> nat
    decreases s.len(),
{
    if s.len() == 0 {
        0
    } else {
        count_true(s.drop_last()) + if s.last() {
            1nat
        } else {
            0nat
        }
    }
}

proof fn lemma_count_bound(s: Seq<bool>)
    ensures
        count_true(s) <= s.len(),
        (forall|i: int| 0 <= i < s.len() ==> s[i]) ==> count_true(s) == s.len(),
    decreases s.len(),
{
    if s.len() > 0 {
        lemma_count_bound(s.drop_last());
        if forall|i: int| 0 <= i < s.len() ==> s[i] {
            assert forall|i: int| 0 <= i < s.len() - 1 implies s.drop_last()[i] by {
                assert(s[i]);
            }
        }
    }
}

proof fn lemma_count_set(s: Seq<bool>, x: int)
    requires
        0 <= x < s.len(),
        !s[x],
    ensures
        count_true(s.update(x, true)) == count_true(s) + 1,
    decreases s.len(),
{
    let t = s.update(x, true);
    if x == s.len() - 1 {
        assert(t.drop_last() =~= s.drop_last());
    } else {
        assert(t.drop_last() =~= s.drop_last().update(x, true));
        lemma_count_set(s.drop_last(), x);
    }
}

fn all_placed(deps: &Vec<usize>, placed: &Vec<bool>) -> (r: bool)
    requires
        forall|e: int| 0 <= e < deps@.len() ==> deps@[e] < placed@.len(),
    ensures
        r == forall|e: int| 0 <= e < deps@.len() ==> placed@[#[trigger] deps@[e] as int],
{
    let mut e: usize = 0;
    while e < deps.len()
        invariant
            e <= deps@.len(),
            forall|e2: int| 0 <= e2 < deps@.len() ==> deps@[e2] < placed@.len(),
            forall|e2: int| 0 <= e2 < e ==> placed@[#[trigger] deps@[e2] as int],
        decreases deps@.len() - e,
    {
        if !placed[deps[e]] {
            return false;
        }
        e = e + 1;
    }
    true
}

pub open spec fn deps_before(g: Seq<Seq<usize>>, q: Seq<usize>, p: int) -> bool {
    forall|e: int|
        #![trigger g[q[p] as int][e]]
        0 <= e < g[q[p] as int].len() ==> q.take(p).contains(g[q[p] as int][e])
}

pub open spec fn topo_ok(g: Seq<Seq<usize>>, q: Seq<usize>) -> bool {
    forall|p: int| 0 <= p < q.len() ==> #[trigger] deps_before(g, q, p)
}

pub open spec fn tracks(flags: Seq<bool>, q: Seq<usize>, upto: int) -> bool {
    forall|z: int| 0 <= z < flags.len() ==> (#[trigger] flags[z] <==> q.take(upto).contains(z as usize))
}

pub open spec fn has_unplaced(row: Seq<usize>, placed: Seq<bool>) -> bool {
    exists|e: int| 0 <= e < row.len() && !placed[#[trigger] row[e] as int]
}

pub open spec fn stuck_below(g: Seq<Seq<usize>>, queued: Seq<bool>, placed: Seq<bool>, bound: int) -> bool {
    forall|y: int| 0 <= y < bound && !queued[y] ==> #[trigger] has_unplaced(g[y], placed)
}

pub open spec fn row_in(row: Seq<usize>, q: Seq<usize>) -> bool {
    forall|e: int| 0 <= e < row.len() ==> q.contains(#[trigger] row[e])
}

proof fn lemma_push_topo(g: Seq<Seq<usize>>, q: Seq<usize>, v: usize)
    requires
        topo_ok(g, q),
        row_in(g[v as int], q),
    ensures
        topo_ok(g, q.push(v)),
{
    let q2 = q.push(v);
    assert forall|p: int| 0 <= p < q2.len() implies #[trigger] deps_before(g, q2, p) by {
        assert(q2.take(p) =~= q.take(p));
        if p < q.len() {
            assert(q2[p] == q[p]);
            assert(deps_before(g, q, p));
        } else {
            assert(q2[p] == v);
            assert(q.take(p) =~= q);
        }
    }
}

proof fn lemma_push_tracks(flags: Seq<bool>, q: Seq<usize>, v: usize)
    requires
        tracks(flags, q, q.len() as int),
        0 <= v < flags.len(),
        !flags[v as int],
        q.no_duplicates(),
        flags.len() <= usize::MAX,
        forall|p: int| 0 <= p < q.len() ==> q[p] < flags.len(),
    ensures
        tracks(flags.update(v as int, true), q.push(v), q.len() as int + 1),
        q.push(v).no_duplicates(),
{
    let q2 = q.push(v);
    let f2 = flags.update(v as int, true);
    assert(q.take(q.len() as int) =~= q);
    assert(q2.take(q.len() as int + 1) =~= q2);
    assert forall|z: int| 0 <= z < f2.len() implies (#[trigger] f2[z] <==> q2.take(
        q.len() as int + 1,
    ).contains(z as usize)) by {
        if z == v as int {
            assert(q2[q.len() as int] == v);
        } else {
            if q2.contains(z as usize) {
                let m = choose|m: int| 0 <= m < q2.len() && q2[m] == z as usize;
                assert(m != q.len()) by {
                    if m == q.len() {
                        assert(q2[m] == v);
                    }
                }
                assert(q[m] == q2[m]);
                assert(q.contains(z as usize));
            }
            if q.contains(z as usize) {
                let m = choose|m: int| 0 <= m < q.len() && q[m] == z as usize;
                assert(q2[m] == z as usize);
            }
        }
    }
    assert forall|a: int, b: int| 0 <= a < b < q2.len() implies q2[a] != q2[b] by {
        if b == q.len() {
            assert(q.contains(q[a]));
            assert(flags[q[a] as int]);
        }
    }
}

proof fn lemma_push_keeps(flags: Seq<bool>, q: Seq<usize>, v: usize, upto: int)
    requires
        tracks(flags, q, upto),
        0 <= upto <= q.len(),
    ensures
        tracks(flags, q.push(v), upto),
{
    assert(q.push(v).take(upto) =~= q.take(upto));
}

/// Orders the nodes of `g` so that each comes after the nodes it depends on
/// (`g[i]` lists what node `i` depends on). Nodes become ready in index order and
/// are taken first in, first out. Where some nodes can never become ready, they
/// are returned as the error.
pub fn plan_build_order(g: &Vec<Vec<usize>>) -> (r: Result<Vec<usize>, Vec<usize>>)
    requires
        graph_wf(graph_view(g@)),
    ensures
        match r {
            Ok(order) => is_build_order(graph_view(g@), order@),
            Err(members) => is_blocked(graph_view(g@), members@),
        },
{
    let n = g.len();
    let ghost gv = graph_view(g@);
    let mut queued: Vec<bool> = Vec::new();
    let mut placed: Vec<bool> = Vec::new();
    let mut i: usize = 0;
    while i < n
        invariant
            i <= n,
            queued@.len() == i,
            placed@.len() == i,
            forall|j: int| 0 <= j < i ==> !queued@[j] && !placed@[j],
        decreases n - i,
    {
        queued.push(false);
        placed.push(false);
        i = i + 1;
    }
    proof {
        assert(count_true(queued@) == 0) by {
            lemma_count_zero(queued@);
        }
    }
    let mut queue: Vec<usize> = Vec::new();
    let mut head: usize = 0;
    let mut x: usize = 0;
    while x < n
        invariant
            n == g@.len(),
            gv == graph_view(g@),
            graph_wf(gv),
            queued@.len() == n,
            placed@.len() == n,
            head == 0,
            x <= n,
            queue@.len() == count_true(queued@),
            forall|p: int| 0 <= p < queue@.len() ==> queue@[p] < x,
            tracks(queued@, queue@, queue@.len() as int),
            queue@.no_duplicates(),
            tracks(placed@, queue@, 0),
            topo_ok(gv, queue@),
            stuck_below(gv, queued@, placed@, x as int),
        decreases n - x,
    {
        assert(gv[x as int] == g@[x as int]@);
        if all_placed(&g[x], &placed) {
            proof {
                if gv[x as int].len() > 0 {
                    assert(placed@[gv[x as int][0] as int]);
                }
                assert(row_in(gv[x as int], queue@));
                lemma_count_set(queued@, x as int);
                lemma_push_tracks(queued@, queue@, x);
                lemma_push_keeps(placed@, queue@, x, 0);
                lemma_push_topo(gv, queue@, x);
            }
            queued.set(x, true);
            queue.push(x);
        }
        proof {
            assert forall|p: int| 0 <= p < queue@.len() implies queue@[p] < x + 1 by {
                if queue@[p] == x {
                }
            }
        }
        x = x + 1;
    }
    while head < queue.len()
        invariant
            n == g@.len(),
            gv == graph_view(g@),
            graph_wf(gv),
            queued@.len() == n,
            placed@.len() == n,
            head <= queue@.len(),
            queue@.len() == count_true(queued@),
            forall|p: int| 0 <= p < queue@.len() ==> queue@[p] < n,
            tracks(queued@, queue@, queue@.len() as int),
            queue@.no_duplicates(),
            tracks(placed@, queue@, head as int),
            topo_ok(gv, queue@),
            stuck_below(gv, queued@, placed@, n as int),
        decreases n - head,
    {
        proof {
            lemma_count_bound(queued@);
        }
        let u = queue[head];
        let ghost old_p = placed;
        placed.set(u, true);
        head = head + 1;
        proof {
            let old_placed = old_p@;
            assert(queue@.take(head as int) =~= queue@.take(head - 1).push(u));
            assert forall|z: int|
                0 <= z < placed@.len() implies (#[trigger] placed@[z] <==> queue@.take(
                head as int,
            ).contains(z as usize)) by {
                if z != u as int {
                    assert(placed@[z] == old_placed[z]);
                    if queue@.take(head as int).contains(z as usize) {
                        let m = choose|m: int| 0 <= m < head && queue@.take(head as int)[m] == z as usize;
                        assert(queue@.take(head - 1)[m] == z as usize);
                    }
                } else {
                    assert(queue@.take(head as int)[head - 1] == u);
                }
            }
        }
        let mut v: usize = 0;
        while v < n
            invariant
                n == g@.len(),
                gv == graph_view(g@),
                graph_wf(gv),
                queued@.len() == n,
                placed@.len() == n,
                0 < head <= queue@.len(),
                v <= n,
                queue@.len() == count_true(queued@),
                forall|p: int| 0 <= p < queue@.len() ==> queue@[p] < n,
                tracks(queued@, queue@, queue@.len() as int),
                queue@.no_duplicates(),
                tracks(placed@, queue@, head as int),
                topo_ok(gv, queue@),
                stuck_below(gv, queued@, placed@, v as int),
            decreases n - v,
        {
            assert(gv[v as int] == g@[v as int]@);
            if !queued[v] && all_placed(&g[v], &placed) {
                proof {
                    lemma_count_set(queued@, v as int);
                    let row = gv[v as int];
                    assert forall|e: int| 0 <= e < row.len() implies queue@.contains(#[trigger] row[e]) by {
                        let z = row[e] as int;
                        assert(placed@[z]);
                        let m = choose|m: int| 0 <= m < head && queue@.take(head as int)[m] == z as usize;
                        assert(queue@[m] == z as usize);
                    }
                    assert(row_in(row, queue@));
                    lemma_push_tracks(queued@, queue@, v);
                    lemma_push_keeps(placed@, queue@, v, head as int);
                    lemma_push_topo(gv, queue@, v);
                }
                queued.set(v, true);
                queue.push(v);
            }
            v = v + 1;
        }
    }
    let mut members: Vec<usize> = Vec::new();
    let mut y: usize = 0;
    while y < n
        invariant
            n == g@.len(),
            queued@.len() == n,
            y <= n,
            members@.no_duplicates(),
            forall|k: int| 0 <= k < members@.len() ==> members@[k] < y && !queued@[members@[k] as int],
            forall|z: int| 0 <= z < y && !queued@[z] ==> members@.contains(z as usize),
        decreases n - y,
    {
        let ghost before = members@;
        if !queued[y] {
            members.push(y);
        }
        proof {
            assert forall|z: int| 0 <= z < y + 1 && !queued@[z] implies members@.contains(z as usize) by {
                if z == y as int {
                    assert(members@[members@.len() - 1] == y);
                } else {
                    let k = choose|k: int| 0 <= k < before.len() && before[k] == z as usize;
                    assert(members@[k] == before[k]);
                }
            }
        }
        y = y + 1;
    }
    if members.len() == 0 {
        proof {
            assert forall|z: int| 0 <= z < n implies queued@[z] by {
                if !queued@[z] {
                    assert(members@.contains(z as usize));
                }
            }
            lemma_count_bound(queued@);
            assert(queue@.len() == n);
            assert(queue@.take(queue@.len() as int) =~= queue@);
            assert forall|x: usize| x < n implies #[trigger] queue@.contains(x) by {
                assert(queued@[x as int]);
            }
            assert forall|a: int, e: int|
                #![trigger gv[queue@[a] as int][e]]
                0 <= a < queue@.len() && 0 <= e < gv[queue@[a] as int].len() implies queue@.take(
                a,
            ).contains(gv[queue@[a] as int][e]) by {
                assert(deps_before(gv, queue@, a));
            }
        }
        Ok(queue)
    } else {
        proof {
            assert(queue@.take(head as int) =~= queue@);
            assert forall|k: int| 0 <= k < members@.len() implies #[trigger] depends_within(
                gv,
                members@[k],
                members@,
            ) by {
                let m = members@[k] as int;
                assert(has_unplaced(gv[m], placed@));
                let e = choose|e: int| 0 <= e < gv[m].len() && !placed@[#[trigger] gv[m][e] as int];
                let d = gv[m][e];
                assert(!queued@[d as int]);
                assert(members@.contains(d));
            }
        }
        Err(members)
    }
}

proof fn lemma_count_zero(s: Seq<bool>)
    requires
        forall|i: int| 0 <= i < s.len() ==> !s[i],
    ensures
        count_true(s) == 0,
    decreases s.len(),
{
    if s.len() > 0 {
        lemma_count_zero(s.drop_last());
    }
}

proof fn lemma_no_member_before(g: Seq<Seq<usize>>, members: Seq<usize>, order: Seq<usize>, p: int)
    requires
        is_blocked(g, members),
        is_build_order(g, order),
        0 <= p <= order.len(),
    ensures
        forall|a: int| 0 <= a < p ==> !members.contains(#[trigger] order[a]),
    decreases p,
{
    if p > 0 {
        lemma_no_member_before(g, members, order, p - 1);
        let a = p - 1;
        if members.contains(order[a]) {
            let k = choose|k: int| 0 <= k < members.len() && members[k] == order[a];
            assert(depends_within(g, members[k], members));
            let x = order[a];
            let e = choose|e: int| 0 <= e < g[x as int].len() && members.contains(#[trigger] g[x as int][e]);
            let d = g[x as int][e];
            assert(order.take(a).contains(d));
            let b = choose|b: int| 0 <= b < a && order.take(a)[b] == d;
            assert(order[b] == d);
        }
    }
}

/// A graph with a blocked set of nodes has no build order.
pub proof fn lemma_blocked_has_no_order(g: Seq<Seq<usize>>, members: Seq<usize>, order: Seq<usize>)
    requires
        is_blocked(g, members),
    ensures
        !is_build_order(g, order),
{
    if is_build_order(g, order) {
        lemma_no_member_before(g, members, order, order.len() as int);
        let x = members[0];
        assert(order.contains(x));
        let a = choose|a: int| 0 <= a < order.len() && order[a] == x;
        assert(members.contains(order[a]));
    }
}

} // verus!
