//! The fixed-point engine that saturates the `subsets` and `requires`
//! relations over a control-flow graph, and the violation detector.
use vstd::prelude::*;
use vstd::seq_lib::seq_to_set_is_finite;
use vstd::set_lib::lemma_len_subset;

verus! {

/// A point of the control-flow graph.
pub type Point = u32;

/// A loan: one borrow-creation event.
pub type Loan = u32;

/// A region: a lifetime variable.
pub type Region = u32;

/// A relation of three identifiers, such as `(Region, Region, Point)`.
pub type Triple = (u32, u32, u32);

// ---------------------------------------------------------------------------
// Mathematical model of the relations

/// One pass of the `subsets` rules over `s`: every tuple of `s`, every tuple
/// obtained by transitivity at a point, every tuple moved along a CFG edge.
pub open spec fn subsets_step(s: Set<Triple>, edges: Set<(Point, Point)>) -> Set<Triple> {
    Set::new(
        |t: Triple|
            s.contains(t) || (exists|m: Region| #[trigger]
                s.contains((t.0, m, t.2)) && s.contains((m, t.1, t.2))) || (exists|p: Point| #[trigger]
                s.contains((t.0, t.1, p)) && edges.contains((p, t.2))),
    )
}

/// `s` is closed under the `subsets` rules.
pub open spec fn subsets_closed(s: Set<Triple>, edges: Set<(Point, Point)>) -> bool {
    &&& forall|a: Region, b: Region, c: Region, p: Point|
        #![trigger s.contains((a, b, p)), s.contains((b, c, p))]
        s.contains((a, b, p)) && s.contains((b, c, p)) ==> s.contains((a, c, p))
    &&& forall|a: Region, b: Region, p: Point, q: Point|
        #![trigger s.contains((a, b, p)), edges.contains((p, q))]
        s.contains((a, b, p)) && edges.contains((p, q)) ==> s.contains((a, b, q))
}

/// `s` is the least relation that holds `base` and is closed under the
/// `subsets` rules.
pub open spec fn least_subsets(s: Set<Triple>, base: Set<Triple>, edges: Set<(Point, Point)>) -> bool {
    &&& base <= s
    &&& subsets_closed(s, edges)
    &&& forall|x: Set<Triple>| #![trigger subsets_closed(x, edges)]
        base <= x && subsets_closed(x, edges) ==> s <= x
}

/// One pass of the `requires` rules over `q`, given the saturated `subsets`:
/// a loan required by a region is required by every region it flows into at
/// that point, and a required loan moves along a CFG edge unless it is killed
/// at the edge's source.
pub open spec fn requires_step(
    q: Set<Triple>,
    subsets: Set<Triple>,
    edges: Set<(Point, Point)>,
    kills: Set<(Loan, Point)>,
) -> Set<Triple> {
    Set::new(
        |t: Triple|
            q.contains(t) || (exists|r: Region| #[trigger]
                q.contains((r, t.1, t.2)) && subsets.contains((r, t.0, t.2))) || (exists|p: Point| #[trigger]
                q.contains((t.0, t.1, p)) && edges.contains((p, t.2)) && !kills.contains((t.1, p))),
    )
}

/// `q` is closed under the `requires` rules.
pub open spec fn requires_closed(
    q: Set<Triple>,
    subsets: Set<Triple>,
    edges: Set<(Point, Point)>,
    kills: Set<(Loan, Point)>,
) -> bool {
    &&& forall|r1: Region, l: Loan, p: Point, r2: Region|
        #![trigger q.contains((r1, l, p)), subsets.contains((r1, r2, p))]
        q.contains((r1, l, p)) && subsets.contains((r1, r2, p)) ==> q.contains((r2, l, p))
    &&& forall|r: Region, l: Loan, p: Point, target: Point|
        #![trigger q.contains((r, l, p)), edges.contains((p, target))]
        q.contains((r, l, p)) && edges.contains((p, target)) && !kills.contains((l, p)) ==> q.contains(
            (r, l, target),
        )
}

/// `q` is the least relation that holds `borrows` and is closed under the
/// `requires` rules.
pub open spec fn least_requires(
    q: Set<Triple>,
    borrows: Set<Triple>,
    subsets: Set<Triple>,
    edges: Set<(Point, Point)>,
    kills: Set<(Loan, Point)>,
) -> bool {
    &&& borrows <= q
    &&& requires_closed(q, subsets, edges, kills)
    &&& forall|x: Set<Triple>| #![trigger requires_closed(x, subsets, edges, kills)]
        borrows <= x && requires_closed(x, subsets, edges, kills) ==> q <= x
}

// ---------------------------------------------------------------------------
// Small helpers on vectors of tuples

fn contains_triple(v: &Vec<Triple>, t: Triple) -> (r: bool)
    ensures
        r == v@.contains(t),
{
    let mut i: usize = 0;
    while i < v.len()
        invariant
            i <= v.len(),
            forall|k: int| 0 <= k < i ==> v@[k] != t,
        decreases v.len() - i,
    {
        let (a, b, c) = v[i];
        if a == t.0 && b == t.1 && c == t.2 {
            assert(v@[i as int] == t);
            return true;
        }
        i += 1;
    }
    false
}

fn contains_pair(v: &Vec<(u32, u32)>, t: (u32, u32)) -> (r: bool)
    ensures
        r == v@.contains(t),
{
    let mut i: usize = 0;
    while i < v.len()
        invariant
            i <= v.len(),
            forall|k: int| 0 <= k < i ==> v@[k] != t,
        decreases v.len() - i,
    {
        let (a, b) = v[i];
        if a == t.0 && b == t.1 {
            assert(v@[i as int] == t);
            return true;
        }
        i += 1;
    }
    false
}

/// Appends `t` to `v` unless `v` already holds it.
fn insert_triple(v: &mut Vec<Triple>, t: Triple)
    ensures
        final(v)@ == if old(v)@.contains(t) {
            old(v)@
        } else {
            old(v)@.push(t)
        },
        final(v)@.contains(t),
        forall|x: Triple| old(v)@.contains(x) ==> #[trigger] final(v)@.contains(x),
        forall|x: Triple| #[trigger] final(v)@.contains(x) ==> old(v)@.contains(x) || x == t,
        old(v)@.no_duplicates() ==> final(v)@.no_duplicates(),
{
    if !contains_triple(v, t) {
        v.push(t);
        proof {
            assert(v@[v@.len() - 1] == t);
            assert forall|x: Triple| old(v)@.contains(x) implies #[trigger] v@.contains(x) by {
                let k = choose|k: int| 0 <= k < old(v)@.len() && #[trigger] old(v)@[k] == x;
                assert(v@[k] == x);
            }
            assert forall|x: Triple| #[trigger] v@.contains(x) implies old(v)@.contains(x) || x == t by {
                let k = choose|k: int| 0 <= k < v@.len() && #[trigger] v@[k] == x;
                if k < old(v)@.len() {
                    assert(old(v)@[k] == x);
                }
            }
        }
    }
}

/// The tuples of `v`, each once, in order of first occurrence.
fn dedup_triples(v: &Vec<Triple>) -> (r: Vec<Triple>)
    ensures
        r@.to_set() == v@.to_set(),
        r@.no_duplicates(),
        v@.no_duplicates() ==> r@ == v@,
{
    let mut r: Vec<Triple> = Vec::new();
    let mut i: usize = 0;
    while i < v.len()
        invariant
            i <= v.len(),
            r@.no_duplicates(),
            forall|t: Triple| r@.contains(t) <==> v@.subrange(0, i as int).contains(t),
            v@.no_duplicates() ==> r@ == v@.subrange(0, i as int),
        decreases v.len() - i,
    {
        let ghost before = r@;
        let t = v[i];
        insert_triple(&mut r, t);
        proof {
            let pre = v@.subrange(0, i as int);
            let post = v@.subrange(0, i + 1);
            assert(post == pre.push(t));
            assert forall|x: Triple| r@.contains(x) <==> post.contains(x) by {
                if post.contains(x) {
                    let k = choose|k: int| 0 <= k < post.len() && #[trigger] post[k] == x;
                    if k < i {
                        assert(pre[k] == x);
                        assert(pre.contains(x));
                        assert(before.contains(x));
                        let k2 = choose|k2: int| 0 <= k2 < before.len() && #[trigger] before[k2] == x;
                        assert(r@[k2] == x);
                    } else if before.contains(t) {
                        let k2 = choose|k2: int| 0 <= k2 < before.len() && #[trigger] before[k2] == t;
                        assert(r@[k2] == t);
                    } else {
                        assert(r@[before.len() as int] == t);
                    }
                }
                if r@.contains(x) && x != t {
                    let k = choose|k: int| 0 <= k < r@.len() && #[trigger] r@[k] == x;
                    assert(before[k] == x);
                    assert(before.contains(x));
                    let j = choose|j: int| 0 <= j < pre.len() && #[trigger] pre[j] == x;
                    assert(post[j] == x);
                }
                if x == t {
                    assert(post[i as int] == x);
                    if !before.contains(t) {
                        assert(r@[before.len() as int] == t);
                    }
                }
            }
            if v@.no_duplicates() {
                assert(!pre.contains(t));
            }
        }
        i += 1;
    }
    proof {
        assert(v@.subrange(0, v@.len() as int) == v@);
        assert(r@.to_set() =~= v@.to_set());
    }
    r
}

/// The pairs `(i, j)` of `snap` that are done in lexicographic order before
/// `(a, b)` and meet at a point have their transitive tuple in `cur`.
spec fn transitivity_done(snap: Seq<Triple>, cur: Seq<Triple>, a: int, b: int) -> bool {
    forall|i: int, j: int|
        0 <= i < snap.len() && 0 <= j < snap.len() && (i < a || (i == a && j < b)) && (
        #[trigger] snap[i]).1 == (#[trigger] snap[j]).0 && snap[i].2 == snap[j].2 ==> cur.contains(
            (snap[i].0, snap[j].1, snap[i].2),
        )
}

/// The pairs `(i, j)` of `snap` and `edges` done before `(a, b)` whose point
/// is the edge's source have their moved tuple in `cur`.
spec fn propagation_done(
    snap: Seq<Triple>,
    edges: Seq<(Point, Point)>,
    cur: Seq<Triple>,
    a: int,
    b: int,
) -> bool {
    forall|i: int, j: int|
        0 <= i < snap.len() && 0 <= j < edges.len() && (i < a || (i == a && j < b)) && (
        #[trigger] snap[i]).2 == (#[trigger] edges[j]).0 ==> cur.contains(
            (snap[i].0, snap[i].1, edges[j].1),
        )
}

/// What a pass keeps true of the relation it grows: the snapshot stays a
/// prefix, and each added tuple is new and derived from the snapshot.
spec fn grown_from(snap: Seq<Triple>, cur: Seq<Triple>, step: Set<Triple>) -> bool {
    &&& snap.len() <= cur.len()
    &&& cur.subrange(0, snap.len() as int) == snap
    &&& forall|x: Triple| snap.contains(x) ==> #[trigger] cur.contains(x)
    &&& forall|k: int|
        snap.len() <= k < cur.len() ==> !snap.contains(#[trigger] cur[k]) && step.contains(cur[k])
    &&& snap.no_duplicates() ==> cur.no_duplicates()
}

/// Each tuple that one rule derives from `s` is in a pass over `s`.
proof fn lemma_subsets_step_derives(s: Set<Triple>, edges: Set<(Point, Point)>)
    ensures
        forall|a: Region, b: Region, c: Region, p: Point|
            #[trigger] s.contains((a, b, p)) && #[trigger] s.contains((b, c, p))
                ==> subsets_step(s, edges).contains((a, c, p)),
        forall|a: Region, b: Region, p: Point, q: Point|
            #[trigger] s.contains((a, b, p)) && #[trigger] edges.contains((p, q))
                ==> subsets_step(s, edges).contains((a, b, q)),
{
    let st = subsets_step(s, edges);
    assert forall|a: Region, b: Region, c: Region, p: Point|
        #[trigger] s.contains((a, b, p)) && #[trigger] s.contains((b, c, p)) implies st.contains((a, c, p)) by {
        assert(s.contains(((a, c, p).0, b, (a, c, p).2)));
    }
    assert forall|a: Region, b: Region, p: Point, q: Point|
        #[trigger] s.contains((a, b, p)) && #[trigger] edges.contains((p, q)) implies st.contains((a, b, q)) by {
        assert(s.contains(((a, b, q).0, (a, b, q).1, p)));
    }
}

/// A relation is closed under the `subsets` rules exactly when a pass adds
/// nothing to it.
pub proof fn lemma_subsets_closed_is_fixed(s: Set<Triple>, edges: Set<(Point, Point)>)
    ensures
        s <= subsets_step(s, edges),
        subsets_closed(s, edges) <==> subsets_step(s, edges) == s,
{
    lemma_subsets_step_derives(s, edges);
    if subsets_closed(s, edges) {
        assert(subsets_step(s, edges) =~= s);
    }
}

/// One pass of the `subsets` rules: adds to `subsets` each tuple that the
/// rules derive from the relation as it stood when the call began. Returns
/// `true` when nothing was added, that is when the relation was already
/// closed.
pub fn stabilize_subsets(subsets: &mut Vec<Triple>, cfg_edges: &Vec<(Point, Point)>) -> (stable:
    bool)
    ensures
        final(subsets)@.to_set() == subsets_step(old(subsets)@.to_set(), cfg_edges@.to_set()),
        old(subsets)@.len() <= final(subsets)@.len(),
        final(subsets)@.subrange(0, old(subsets)@.len() as int) == old(subsets)@,
        stable <==> final(subsets)@ == old(subsets)@,
        stable <==> subsets_closed(old(subsets)@.to_set(), cfg_edges@.to_set()),
        old(subsets)@.no_duplicates() ==> final(subsets)@.no_duplicates(),
{
    let ghost snap = subsets@;
    let ghost ss = snap.to_set();
    let ghost es = cfg_edges@.to_set();
    let ghost step = subsets_step(ss, es);
    let n = subsets.len();
    let m = cfg_edges.len();
    assert(subsets@.subrange(0, n as int) =~= snap);
    // if R1: R2 and R2: R3 hold at a point, R1: R3 holds there too
    let mut a: usize = 0;
    while a < n
        invariant
            n == snap.len(),
            a <= n,
            grown_from(snap, subsets@, step),
            ss == snap.to_set(),
            es == cfg_edges@.to_set(),
            step == subsets_step(ss, es),
            transitivity_done(snap, subsets@, a as int, 0),
        decreases n - a,
    {
        let mut b: usize = 0;
        while b < n
            invariant
                n == snap.len(),
                a < n,
                b <= n,
                grown_from(snap, subsets@, step),
                ss == snap.to_set(),
                es == cfg_edges@.to_set(),
                step == subsets_step(ss, es),
            ss == snap.to_set(),
            es == cfg_edges@.to_set(),
            step == subsets_step(ss, es),
                transitivity_done(snap, subsets@, a as int, b as int),
            decreases n - b,
        {
            assert(subsets@[a as int] == snap[a as int]);
            assert(subsets@[b as int] == snap[b as int]);
            let (r1, r2, p) = subsets[a];
            let (r2b, r3, pb) = subsets[b];
            if r2 == r2b && p == pb {
                let ghost before = subsets@;
                proof {
                    assert(snap.contains(snap[a as int]));
                    assert(snap.contains(snap[b as int]));
                    assert(ss.contains((r1, r2, p)));
                    assert(ss.contains((r2, r3, p)));
                    lemma_subsets_step_derives(ss, es);
                }
                insert_triple(subsets, (r1, r3, p));
                proof {
                    assert(subsets@.subrange(0, n as int) =~= before.subrange(0, n as int));
                }
            }
            b += 1;
        }
        a += 1;
    }
    // a tuple that holds at a point holds at each of its successors
    let mut a: usize = 0;
    while a < n
        invariant
            n == snap.len(),
            m == cfg_edges@.len(),
            a <= n,
            grown_from(snap, subsets@, step),
            ss == snap.to_set(),
            es == cfg_edges@.to_set(),
            step == subsets_step(ss, es),
            transitivity_done(snap, subsets@, n as int, 0),
            propagation_done(snap, cfg_edges@, subsets@, a as int, 0),
        decreases n - a,
    {
        let mut b: usize = 0;
        while b < m
            invariant
                n == snap.len(),
                m == cfg_edges@.len(),
                a < n,
                b <= m,
                grown_from(snap, subsets@, step),
                ss == snap.to_set(),
                es == cfg_edges@.to_set(),
                step == subsets_step(ss, es),
            ss == snap.to_set(),
            es == cfg_edges@.to_set(),
            step == subsets_step(ss, es),
                transitivity_done(snap, subsets@, n as int, 0),
                propagation_done(snap, cfg_edges@, subsets@, a as int, b as int),
            decreases m - b,
        {
            assert(subsets@[a as int] == snap[a as int]);
            let (r1, r2, p) = subsets[a];
            let (pb, q) = cfg_edges[b];
            if p == pb {
                let ghost before = subsets@;
                proof {
                    assert(snap.contains(snap[a as int]));
                    assert(cfg_edges@.contains(cfg_edges@[b as int]));
                    assert(ss.contains((r1, r2, p)));
                    assert(es.contains((p, q)));
                    lemma_subsets_step_derives(ss, es);
                }
                insert_triple(subsets, (r1, r2, q));
                proof {
                    assert(subsets@.subrange(0, n as int) =~= before.subrange(0, n as int));
                }
            }
            b += 1;
        }
        a += 1;
    }
    proof {
        lemma_subsets_closed_is_fixed(ss, es);
        assert forall|t: Triple| step.contains(t) implies subsets@.contains(t) by {
            if ss.contains(t) {
            } else if exists|x: Region| #[trigger] ss.contains((t.0, x, t.2)) && ss.contains((x, t.1, t.2)) {
                let x = choose|x: Region| #[trigger] ss.contains((t.0, x, t.2)) && ss.contains((x, t.1, t.2));
                let i = choose|i: int| 0 <= i < snap.len() && #[trigger] snap[i] == (t.0, x, t.2);
                let j = choose|j: int| 0 <= j < snap.len() && #[trigger] snap[j] == (x, t.1, t.2);
                assert(snap[i].1 == snap[j].0);
            } else {
                let p = choose|p: Point| #[trigger] ss.contains((t.0, t.1, p)) && es.contains((p, t.2));
                let i = choose|i: int| 0 <= i < snap.len() && #[trigger] snap[i] == (t.0, t.1, p);
                let j = choose|j: int| 0 <= j < cfg_edges@.len() && #[trigger] cfg_edges@[j] == (p, t.2);
                assert(snap[i].2 == cfg_edges@[j].0);
            }
        }
        assert forall|t: Triple| subsets@.contains(t) implies step.contains(t) by {
            let k = choose|k: int| 0 <= k < subsets@.len() && #[trigger] subsets@[k] == t;
            if k < n {
                assert(snap[k] == t);
            }
        }
        assert(subsets@.to_set() =~= step);
        if subsets@.len() == n {
            assert(subsets@ =~= snap);
        } else {
            assert(!ss.contains(subsets@[n as int]));
            assert(subsets@.to_set().contains(subsets@[n as int]));
        }
    }
    subsets.len() == n
}

/// The pairs `(i, j)` of `snap` and `subsets` done before `(a, b)` where the
/// subset starts at the requiring region, at the same point, have the
/// flowed tuple in `cur`.
spec fn subset_flow_done(
    snap: Seq<Triple>,
    subsets: Seq<Triple>,
    cur: Seq<Triple>,
    a: int,
    b: int,
) -> bool {
    forall|i: int, j: int|
        0 <= i < snap.len() && 0 <= j < subsets.len() && (i < a || (i == a && j < b)) && (
        #[trigger] snap[i]).0 == (#[trigger] subsets[j]).0 && snap[i].2 == subsets[j].2
            ==> cur.contains((subsets[j].1, snap[i].1, snap[i].2))
}

/// The pairs `(i, j)` of `snap` and `edges` done before `(a, b)` whose point
/// is the edge's source, and whose loan is not killed there, have their moved
/// tuple in `cur`.
spec fn kill_gated_done(
    snap: Seq<Triple>,
    edges: Seq<(Point, Point)>,
    kills: Set<(Loan, Point)>,
    cur: Seq<Triple>,
    a: int,
    b: int,
) -> bool {
    forall|i: int, j: int|
        0 <= i < snap.len() && 0 <= j < edges.len() && (i < a || (i == a && j < b)) && (
        #[trigger] snap[i]).2 == (#[trigger] edges[j]).0 && !kills.contains((snap[i].1, snap[i].2))
            ==> cur.contains((snap[i].0, snap[i].1, edges[j].1))
}

/// Each tuple that one rule derives from `q` is in a pass over `q`.
proof fn lemma_requires_step_derives(
    q: Set<Triple>,
    subsets: Set<Triple>,
    edges: Set<(Point, Point)>,
    kills: Set<(Loan, Point)>,
)
    ensures
        forall|r1: Region, l: Loan, p: Point, r2: Region|
            #[trigger] q.contains((r1, l, p)) && #[trigger] subsets.contains((r1, r2, p))
                ==> requires_step(q, subsets, edges, kills).contains((r2, l, p)),
        forall|r: Region, l: Loan, p: Point, target: Point|
            #[trigger] q.contains((r, l, p)) && #[trigger] edges.contains((p, target)) && !kills.contains(
                (l, p),
            ) ==> requires_step(q, subsets, edges, kills).contains((r, l, target)),
{
    let st = requires_step(q, subsets, edges, kills);
    assert forall|r1: Region, l: Loan, p: Point, r2: Region|
        #[trigger] q.contains((r1, l, p)) && #[trigger] subsets.contains((r1, r2, p)) implies st.contains(
        (r2, l, p),
    ) by {
        assert(q.contains((r1, (r2, l, p).1, (r2, l, p).2)));
        assert(subsets.contains((r1, (r2, l, p).0, (r2, l, p).2)));
    }
    assert forall|r: Region, l: Loan, p: Point, target: Point|
        #[trigger] q.contains((r, l, p)) && #[trigger] edges.contains((p, target)) && !kills.contains(
            (l, p),
        ) implies st.contains((r, l, target)) by {
        assert(q.contains(((r, l, target).0, (r, l, target).1, p)));
        assert(!kills.contains(((r, l, target).1, p)));
    }
}

/// A relation is closed under the `requires` rules exactly when a pass adds
/// nothing to it.
pub proof fn lemma_requires_closed_is_fixed(
    q: Set<Triple>,
    subsets: Set<Triple>,
    edges: Set<(Point, Point)>,
    kills: Set<(Loan, Point)>,
)
    ensures
        q <= requires_step(q, subsets, edges, kills),
        requires_closed(q, subsets, edges, kills) <==> requires_step(q, subsets, edges, kills) == q,
{
    lemma_requires_step_derives(q, subsets, edges, kills);
    if requires_closed(q, subsets, edges, kills) {
        assert(requires_step(q, subsets, edges, kills) =~= q);
    }
}

/// One pass of the `requires` rules, given the saturated `subsets`: adds to
/// `requires` each tuple that the rules derive from the relation as it stood
/// when the call began. Returns `true` when nothing was added, that is when
/// the relation was already closed.
pub fn stabilize_requires(
    required: &mut Vec<Triple>,
    subsets: &Vec<Triple>,
    cfg_edges: &Vec<(Point, Point)>,
    kills: &Vec<(Loan, Point)>,
) -> (stable: bool)
    ensures
        final(required)@.to_set() == requires_step(
            old(required)@.to_set(),
            subsets@.to_set(),
            cfg_edges@.to_set(),
            kills@.to_set(),
        ),
        old(required)@.len() <= final(required)@.len(),
        final(required)@.subrange(0, old(required)@.len() as int) == old(required)@,
        stable <==> final(required)@ == old(required)@,
        stable <==> requires_closed(
            old(required)@.to_set(),
            subsets@.to_set(),
            cfg_edges@.to_set(),
            kills@.to_set(),
        ),
        old(required)@.no_duplicates() ==> final(required)@.no_duplicates(),
{
    let ghost snap = required@;
    let ghost qs = snap.to_set();
    let ghost ss = subsets@.to_set();
    let ghost es = cfg_edges@.to_set();
    let ghost ks = kills@.to_set();
    let ghost step = requires_step(qs, ss, es, ks);
    let n = required.len();
    let ns = subsets.len();
    let m = cfg_edges.len();
    assert(required@.subrange(0, n as int) =~= snap);
    // if R1: R2, R2 depends on all the loans of R1
    let mut a: usize = 0;
    while a < n
        invariant
            n == snap.len(),
            ns == subsets@.len(),
            a <= n,
            grown_from(snap, required@, step),
            qs == snap.to_set(),
            ss == subsets@.to_set(),
            es == cfg_edges@.to_set(),
            ks == kills@.to_set(),
            step == requires_step(qs, ss, es, ks),
            subset_flow_done(snap, subsets@, required@, a as int, 0),
        decreases n - a,
    {
        let mut b: usize = 0;
        while b < ns
            invariant
                n == snap.len(),
                ns == subsets@.len(),
                a < n,
                b <= ns,
                grown_from(snap, required@, step),
                qs == snap.to_set(),
                ss == subsets@.to_set(),
                es == cfg_edges@.to_set(),
                ks == kills@.to_set(),
                step == requires_step(qs, ss, es, ks),
                subset_flow_done(snap, subsets@, required@, a as int, b as int),
            decreases ns - b,
        {
            assert(required@[a as int] == snap[a as int]);
            let (r1, l, p) = required[a];
            let (r1b, r2, pb) = subsets[b];
            if r1 == r1b && p == pb {
                let ghost before = required@;
                proof {
                    assert(snap.contains(snap[a as int]));
                    assert(subsets@.contains(subsets@[b as int]));
                    assert(qs.contains((r1, l, p)));
                    assert(ss.contains((r1, r2, p)));
                    lemma_requires_step_derives(qs, ss, es, ks);
                }
                insert_triple(required, (r2, l, p));
                proof {
                    assert(required@.subrange(0, n as int) =~= before.subrange(0, n as int));
                }
            }
            b += 1;
        }
        a += 1;
    }
    // a loan moves along the edges of the CFG, unless it is killed
    let mut a: usize = 0;
    while a < n
        invariant
            n == snap.len(),
            ns == subsets@.len(),
            m == cfg_edges@.len(),
            a <= n,
            grown_from(snap, required@, step),
            qs == snap.to_set(),
            ss == subsets@.to_set(),
            es == cfg_edges@.to_set(),
            ks == kills@.to_set(),
            step == requires_step(qs, ss, es, ks),
            subset_flow_done(snap, subsets@, required@, n as int, 0),
            kill_gated_done(snap, cfg_edges@, ks, required@, a as int, 0),
        decreases n - a,
    {
        assert(required@[a as int] == snap[a as int]);
        let (r, l, p) = required[a];
        let killed = contains_pair(kills, (l, p));
        let mut b: usize = 0;
        while b < m
            invariant
                n == snap.len(),
                ns == subsets@.len(),
                m == cfg_edges@.len(),
                a < n,
                b <= m,
                (r, l, p) == snap[a as int],
                killed == ks.contains((l, p)),
                grown_from(snap, required@, step),
                qs == snap.to_set(),
                ss == subsets@.to_set(),
                es == cfg_edges@.to_set(),
                ks == kills@.to_set(),
                step == requires_step(qs, ss, es, ks),
                subset_flow_done(snap, subsets@, required@, n as int, 0),
                kill_gated_done(snap, cfg_edges@, ks, required@, a as int, b as int),
            decreases m - b,
        {
            let (pb, target) = cfg_edges[b];
            if !killed && p == pb {
                let ghost before = required@;
                proof {
                    assert(snap.contains(snap[a as int]));
                    assert(cfg_edges@.contains(cfg_edges@[b as int]));
                    assert(qs.contains((r, l, p)));
                    assert(es.contains((p, target)));
                    lemma_requires_step_derives(qs, ss, es, ks);
                }
                insert_triple(required, (r, l, target));
                proof {
                    assert(required@.subrange(0, n as int) =~= before.subrange(0, n as int));
                }
            }
            b += 1;
        }
        a += 1;
    }
    proof {
        lemma_requires_closed_is_fixed(qs, ss, es, ks);
        assert forall|t: Triple| step.contains(t) implies required@.contains(t) by {
            if qs.contains(t) {
            } else if exists|x: Region| #[trigger] qs.contains((x, t.1, t.2)) && ss.contains((x, t.0, t.2)) {
                let x = choose|x: Region| #[trigger] qs.contains((x, t.1, t.2)) && ss.contains((x, t.0, t.2));
                let i = choose|i: int| 0 <= i < snap.len() && #[trigger] snap[i] == (x, t.1, t.2);
                let j = choose|j: int| 0 <= j < subsets@.len() && #[trigger] subsets@[j] == (x, t.0, t.2);
                assert(snap[i].0 == subsets@[j].0);
            } else {
                let p = choose|p: Point| #[trigger] qs.contains((t.0, t.1, p)) && es.contains((p, t.2)) && !ks.contains((t.1, p));
                let i = choose|i: int| 0 <= i < snap.len() && #[trigger] snap[i] == (t.0, t.1, p);
                let j = choose|j: int| 0 <= j < cfg_edges@.len() && #[trigger] cfg_edges@[j] == (p, t.2);
                assert(snap[i].2 == cfg_edges@[j].0);
            }
        }
        assert forall|t: Triple| required@.contains(t) implies step.contains(t) by {
            let k = choose|k: int| 0 <= k < required@.len() && #[trigger] required@[k] == t;
            if k < n {
                assert(snap[k] == t);
            }
        }
        assert(required@.to_set() =~= step);
        if required@.len() == n {
            assert(required@ =~= snap);
        } else {
            assert(!qs.contains(required@[n as int]));
            assert(required@.to_set().contains(required@[n as int]));
        }
    }
    required.len() == n
}

// ---------------------------------------------------------------------------
// Why saturation ends: every tuple is made of values from the inputs

/// The identifiers that occur in `s` and `e`.
spec fn values_of(s: Seq<Triple>, e: Seq<(u32, u32)>) -> Seq<u32> {
    s.map_values(|t: Triple| t.0) + s.map_values(|t: Triple| t.1) + s.map_values(|t: Triple| t.2)
        + e.map_values(|x: (u32, u32)| x.0) + e.map_values(|x: (u32, u32)| x.1)
}

/// Every tuple of `s` is made of values of `d`.
spec fn within(s: Set<Triple>, d: Seq<u32>) -> bool {
    forall|t: Triple| #[trigger] s.contains(t) ==> d.contains(t.0) && d.contains(t.1) && d.contains(t.2)
}

/// Every edge of `e` joins values of `d`.
spec fn edges_within(e: Set<(u32, u32)>, d: Seq<u32>) -> bool {
    forall|x: (u32, u32)| #[trigger] e.contains(x) ==> d.contains(x.0) && d.contains(x.1)
}

/// All the tuples `(x, y, z)` with `y` in `b` and `z` in `d`.
spec fn square(x: u32, b: Seq<u32>, d: Seq<u32>) -> Seq<Triple>
    decreases b.len(),
{
    if b.len() == 0 {
        Seq::empty()
    } else {
        square(x, b.drop_last(), d) + d.map_values(|z: u32| (x, b.last(), z))
    }
}

/// All the tuples `(x, y, z)` with `x` in `a` and `y`, `z` in `d`.
spec fn cube(a: Seq<u32>, d: Seq<u32>) -> Seq<Triple>
    decreases a.len(),
{
    if a.len() == 0 {
        Seq::empty()
    } else {
        cube(a.drop_last(), d) + square(a.last(), d, d)
    }
}

proof fn lemma_concat_contains<A>(s1: Seq<A>, s2: Seq<A>, v: A)
    requires
        s1.contains(v) || s2.contains(v),
    ensures
        (s1 + s2).contains(v),
{
    if s1.contains(v) {
        let i = choose|i: int| 0 <= i < s1.len() && s1[i] == v;
        assert((s1 + s2)[i] == v);
    } else {
        let j = choose|j: int| 0 <= j < s2.len() && s2[j] == v;
        assert((s1 + s2)[s1.len() + j] == v);
    }
}

proof fn lemma_square_contains(x: u32, b: Seq<u32>, d: Seq<u32>, y: u32, z: u32)
    requires
        b.contains(y),
        d.contains(z),
    ensures
        square(x, b, d).contains((x, y, z)),
    decreases b.len(),
{
    let tail = d.map_values(|z: u32| (x, b.last(), z));
    if b.last() == y {
        let k = choose|k: int| 0 <= k < d.len() && d[k] == z;
        assert(tail[k] == (x, y, z));
        lemma_concat_contains(square(x, b.drop_last(), d), tail, (x, y, z));
    } else {
        let k = choose|k: int| 0 <= k < b.len() && b[k] == y;
        assert(b.drop_last()[k] == y);
        lemma_square_contains(x, b.drop_last(), d, y, z);
        lemma_concat_contains(square(x, b.drop_last(), d), tail, (x, y, z));
    }
}

proof fn lemma_cube_contains(a: Seq<u32>, d: Seq<u32>, t: Triple)
    requires
        a.contains(t.0),
        d.contains(t.1),
        d.contains(t.2),
    ensures
        cube(a, d).contains(t),
    decreases a.len(),
{
    if a.last() == t.0 {
        lemma_square_contains(t.0, d, d, t.1, t.2);
        lemma_concat_contains(cube(a.drop_last(), d), square(a.last(), d, d), t);
    } else {
        let k = choose|k: int| 0 <= k < a.len() && a[k] == t.0;
        assert(a.drop_last()[k] == t.0);
        lemma_cube_contains(a.drop_last(), d, t);
        lemma_concat_contains(cube(a.drop_last(), d), square(a.last(), d, d), t);
    }
}

/// A relation without repeated tuples, made of values of `d`, has at most as
/// many tuples as the cube over `d`.
proof fn lemma_bounded(cur: Seq<Triple>, d: Seq<u32>)
    requires
        cur.no_duplicates(),
        within(cur.to_set(), d),
    ensures
        cur.len() <= cube(d, d).len(),
{
    let c = cube(d, d);
    assert forall|t: Triple| cur.to_set().contains(t) implies c.to_set().contains(t) by {
        lemma_cube_contains(d, d, t);
    }
    seq_to_set_is_finite(c);
    lemma_len_subset(cur.to_set(), c.to_set());
    cur.unique_seq_to_set();
    c.lemma_cardinality_of_set();
}

proof fn lemma_values_of(s: Seq<Triple>, e: Seq<(u32, u32)>)
    ensures
        within(s.to_set(), values_of(s, e)),
        edges_within(e.to_set(), values_of(s, e)),
{
    let d = values_of(s, e);
    let n = s.len();
    let m = e.len();
    assert forall|t: Triple| #[trigger] s.to_set().contains(t) implies d.contains(t.0) && d.contains(t.1)
        && d.contains(t.2) by {
        let i = choose|i: int| 0 <= i < n && s[i] == t;
        assert(d[i] == t.0);
        assert(d[n + i] == t.1);
        assert(d[2 * n + i] == t.2);
    }
    assert forall|x: (u32, u32)| #[trigger] e.to_set().contains(x) implies d.contains(x.0) && d.contains(x.1) by {
        let j = choose|j: int| 0 <= j < m && e[j] == x;
        assert(d[3 * n + j] == x.0);
        assert(d[3 * n + m + j] == x.1);
    }
}

/// A pass over a larger relation yields a larger relation.
proof fn lemma_subsets_step_monotone(a: Set<Triple>, b: Set<Triple>, edges: Set<(Point, Point)>)
    requires
        a <= b,
    ensures
        subsets_step(a, edges) <= subsets_step(b, edges),
{
    lemma_subsets_step_derives(b, edges);
}

proof fn lemma_requires_step_monotone(
    a: Set<Triple>,
    b: Set<Triple>,
    subsets: Set<Triple>,
    edges: Set<(Point, Point)>,
    kills: Set<(Loan, Point)>,
)
    requires
        a <= b,
    ensures
        requires_step(a, subsets, edges, kills) <= requires_step(b, subsets, edges, kills),
{
    lemma_requires_step_derives(b, subsets, edges, kills);
}

proof fn lemma_subsets_step_within(s: Set<Triple>, edges: Set<(Point, Point)>, d: Seq<u32>)
    requires
        within(s, d),
        edges_within(edges, d),
    ensures
        within(subsets_step(s, edges), d),
{
}

proof fn lemma_requires_step_within(
    q: Set<Triple>,
    subsets: Set<Triple>,
    edges: Set<(Point, Point)>,
    kills: Set<(Loan, Point)>,
    d: Seq<u32>,
)
    requires
        within(q, d),
        within(subsets, d),
        edges_within(edges, d),
    ensures
        within(requires_step(q, subsets, edges, kills), d),
{
}

/// Saturates `base_subsets` under the `subsets` rules: the result is the
/// least relation that holds `base_subsets` and is closed under
/// transitivity at a point and propagation along `cfg_edges`. A relation
/// that is already closed, without repeated tuples, comes back as it was.
pub fn saturate_subsets(base_subsets: &Vec<Triple>, cfg_edges: &Vec<(Point, Point)>) -> (subsets:
    Vec<Triple>)
    ensures
        least_subsets(subsets@.to_set(), base_subsets@.to_set(), cfg_edges@.to_set()),
        subsets@.no_duplicates(),
        base_subsets@.no_duplicates() && subsets_closed(base_subsets@.to_set(), cfg_edges@.to_set())
            ==> subsets@ == base_subsets@,
{
    let ghost base = base_subsets@.to_set();
    let ghost es = cfg_edges@.to_set();
    let ghost d = values_of(base_subsets@, cfg_edges@);
    let mut cur = dedup_triples(base_subsets);
    proof {
        lemma_values_of(base_subsets@, cfg_edges@);
        lemma_bounded(cur@, d);
    }
    let mut stable = false;
    while !stable
        invariant
            base == base_subsets@.to_set(),
            es == cfg_edges@.to_set(),
            cur@.no_duplicates(),
            base <= cur@.to_set(),
            forall|x: Set<Triple>| #![trigger subsets_closed(x, es)]
                base <= x && subsets_closed(x, es) ==> cur@.to_set() <= x,
            within(cur@.to_set(), d),
            edges_within(es, d),
            cur@.len() <= cube(d, d).len(),
            stable ==> subsets_closed(cur@.to_set(), es),
            base_subsets@.no_duplicates() && subsets_closed(base, es) ==> cur@ == base_subsets@,
        decreases cube(d, d).len() - cur@.len() + if stable { 0int } else { 1int },
    {
        let ghost before = cur@;
        stable = stabilize_subsets(&mut cur, cfg_edges);
        proof {
            lemma_subsets_closed_is_fixed(before.to_set(), es);
            lemma_subsets_step_within(before.to_set(), es, d);
            assert forall|x: Set<Triple>| #![trigger subsets_closed(x, es)]
                base <= x && subsets_closed(x, es) implies cur@.to_set() <= x by {
                lemma_subsets_step_monotone(before.to_set(), x, es);
                lemma_subsets_closed_is_fixed(x, es);
            }
            lemma_bounded(cur@, d);
            if !stable {
                assert(cur@.len() != before.len()) by {
                    if cur@.len() == before.len() {
                        assert(cur@ =~= before);
                    }
                }
            }
        }
    }
    cur
}

/// Saturates `borrow_regions` under the `requires` rules, given the
/// saturated `subsets`: the result is the least relation that holds
/// `borrow_regions` and is closed under the flow of loans into larger
/// regions and their kill-gated propagation along `cfg_edges`.
pub fn saturate_requires(
    borrow_regions: &Vec<Triple>,
    subsets: &Vec<Triple>,
    cfg_edges: &Vec<(Point, Point)>,
    kills: &Vec<(Loan, Point)>,
) -> (required: Vec<Triple>)
    ensures
        least_requires(
            required@.to_set(),
            borrow_regions@.to_set(),
            subsets@.to_set(),
            cfg_edges@.to_set(),
            kills@.to_set(),
        ),
        required@.no_duplicates(),
        borrow_regions@.no_duplicates() && requires_closed(
            borrow_regions@.to_set(),
            subsets@.to_set(),
            cfg_edges@.to_set(),
            kills@.to_set(),
        ) ==> required@ == borrow_regions@,
{
    let ghost base = borrow_regions@.to_set();
    let ghost ss = subsets@.to_set();
    let ghost es = cfg_edges@.to_set();
    let ghost ks = kills@.to_set();
    let ghost all = borrow_regions@ + subsets@;
    let ghost d = values_of(all, cfg_edges@);
    let mut cur = dedup_triples(borrow_regions);
    proof {
        lemma_values_of(all, cfg_edges@);
        assert forall|t: Triple| #[trigger] base.contains(t) implies d.contains(t.0) && d.contains(t.1)
            && d.contains(t.2) by {
            let i = choose|i: int| 0 <= i < borrow_regions@.len() && borrow_regions@[i] == t;
            assert(all[i] == t);
            assert(all.to_set().contains(t));
        }
        assert forall|t: Triple| #[trigger] ss.contains(t) implies d.contains(t.0) && d.contains(t.1)
            && d.contains(t.2) by {
            let i = choose|i: int| 0 <= i < subsets@.len() && subsets@[i] == t;
            assert(all[borrow_regions@.len() + i] == t);
            assert(all.to_set().contains(t));
        }
        assert(within(base, d));
        assert(within(ss, d));
        lemma_bounded(cur@, d);
    }
    let mut stable = false;
    while !stable
        invariant
            base == borrow_regions@.to_set(),
            ss == subsets@.to_set(),
            es == cfg_edges@.to_set(),
            ks == kills@.to_set(),
            cur@.no_duplicates(),
            base <= cur@.to_set(),
            forall|x: Set<Triple>| #![trigger requires_closed(x, ss, es, ks)]
                base <= x && requires_closed(x, ss, es, ks) ==> cur@.to_set() <= x,
            within(cur@.to_set(), d),
            within(ss, d),
            edges_within(es, d),
            cur@.len() <= cube(d, d).len(),
            stable ==> requires_closed(cur@.to_set(), ss, es, ks),
            borrow_regions@.no_duplicates() && requires_closed(base, ss, es, ks) ==> cur@
                == borrow_regions@,
        decreases cube(d, d).len() - cur@.len() + if stable { 0int } else { 1int },
    {
        let ghost before = cur@;
        stable = stabilize_requires(&mut cur, subsets, cfg_edges, kills);
        proof {
            lemma_requires_closed_is_fixed(before.to_set(), ss, es, ks);
            lemma_requires_step_within(before.to_set(), ss, es, ks, d);
            assert forall|x: Set<Triple>| #![trigger requires_closed(x, ss, es, ks)]
                base <= x && requires_closed(x, ss, es, ks) implies cur@.to_set() <= x by {
                lemma_requires_step_monotone(before.to_set(), x, ss, es, ks);
                lemma_requires_closed_is_fixed(x, ss, es, ks);
            }
            lemma_bounded(cur@, d);
            if !stable {
                assert(cur@.len() != before.len()) by {
                    if cur@.len() == before.len() {
                        assert(cur@ =~= before);
                    }
                }
            }
        }
    }
    cur
}

/// Two least relations of the same inputs are the same relation.
pub proof fn lemma_least_subsets_unique(
    s1: Set<Triple>,
    s2: Set<Triple>,
    base: Set<Triple>,
    edges: Set<(Point, Point)>,
)
    requires
        least_subsets(s1, base, edges),
        least_subsets(s2, base, edges),
    ensures
        s1 == s2,
{
    assert(s1 =~= s2);
}

/// Two least relations of the same inputs are the same relation.
pub proof fn lemma_least_requires_unique(
    q1: Set<Triple>,
    q2: Set<Triple>,
    borrows: Set<Triple>,
    subsets: Set<Triple>,
    edges: Set<(Point, Point)>,
    kills: Set<(Loan, Point)>,
)
    requires
        least_requires(q1, borrows, subsets, edges, kills),
        least_requires(q2, borrows, subsets, edges, kills),
    ensures
        q1 == q2,
{
    assert(q1 =~= q2);
}

// ---------------------------------------------------------------------------
// Laws of the passes

/// The `subsets` relation after `k` passes over `s`.
pub open spec fn subsets_after(s: Set<Triple>, edges: Set<(Point, Point)>, k: nat) -> Set<Triple>
    decreases k,
{
    if k == 0 {
        s
    } else {
        subsets_step(subsets_after(s, edges, (k - 1) as nat), edges)
    }
}

/// The `requires` relation after `k` passes over `q`.
pub open spec fn requires_after(
    q: Set<Triple>,
    subsets: Set<Triple>,
    edges: Set<(Point, Point)>,
    kills: Set<(Loan, Point)>,
    k: nat,
) -> Set<Triple>
    decreases k,
{
    if k == 0 {
        q
    } else {
        requires_step(requires_after(q, subsets, edges, kills, (k - 1) as nat), subsets, edges, kills)
    }
}

/// Each pass of the `subsets` rules only adds tuples: the relation after
/// pass `k + 1` holds the relation after pass `k`.
pub proof fn lemma_subsets_passes_grow(s: Set<Triple>, edges: Set<(Point, Point)>, k: nat)
    ensures
        subsets_after(s, edges, k) <= subsets_after(s, edges, k + 1),
{
    lemma_subsets_closed_is_fixed(subsets_after(s, edges, k), edges);
}

/// Each pass of the `requires` rules only adds tuples: the relation after
/// pass `k + 1` holds the relation after pass `k`.
pub proof fn lemma_requires_passes_grow(
    q: Set<Triple>,
    subsets: Set<Triple>,
    edges: Set<(Point, Point)>,
    kills: Set<(Loan, Point)>,
    k: nat,
)
    ensures
        requires_after(q, subsets, edges, kills, k) <= requires_after(q, subsets, edges, kills, k + 1),
{
    lemma_requires_closed_is_fixed(requires_after(q, subsets, edges, kills, k), subsets, edges, kills);
}

/// Saturating an already saturated `subsets` relation gives it back: it is
/// the least closed relation that holds itself, and a pass over it adds
/// nothing.
pub proof fn lemma_subsets_resaturation(s: Set<Triple>, base: Set<Triple>, edges: Set<(Point, Point)>)
    requires
        least_subsets(s, base, edges),
    ensures
        least_subsets(s, s, edges),
        subsets_step(s, edges) == s,
{
    lemma_subsets_closed_is_fixed(s, edges);
}

/// Saturating an already saturated `requires` relation gives it back: it is
/// the least closed relation that holds itself, and a pass over it adds
/// nothing.
pub proof fn lemma_requires_resaturation(
    q: Set<Triple>,
    borrows: Set<Triple>,
    subsets: Set<Triple>,
    edges: Set<(Point, Point)>,
    kills: Set<(Loan, Point)>,
)
    requires
        least_requires(q, borrows, subsets, edges, kills),
    ensures
        least_requires(q, q, subsets, edges, kills),
        requires_step(q, subsets, edges, kills) == q,
{
    lemma_requires_closed_is_fixed(q, subsets, edges, kills);
}

/// A pass budget ran out before a relation reached its fixed point.
#[derive(Clone, Copy, Debug, PartialEq, Eq)]
pub struct ResourceExhausted;

/// `saturate_subsets` within `max_passes` passes: succeeds when a pass of
/// the budget finds the relation closed, which is when the relation after
/// `max_passes - 1` passes is closed.
pub fn saturate_subsets_within(
    base_subsets: &Vec<Triple>,
    cfg_edges: &Vec<(Point, Point)>,
    max_passes: u64,
) -> (r: Result<Vec<Triple>, ResourceExhausted>)
    ensures
        r is Ok <==> max_passes > 0 && subsets_closed(
            subsets_after(base_subsets@.to_set(), cfg_edges@.to_set(), (max_passes - 1) as nat),
            cfg_edges@.to_set(),
        ),
        r is Ok ==> least_subsets(r->Ok_0@.to_set(), base_subsets@.to_set(), cfg_edges@.to_set()),
        r is Ok ==> r->Ok_0@.to_set() == subsets_after(
            base_subsets@.to_set(),
            cfg_edges@.to_set(),
            (max_passes - 1) as nat,
        ),
{
    let ghost base = base_subsets@.to_set();
    let ghost es = cfg_edges@.to_set();
    let mut cur = dedup_triples(base_subsets);
    let mut k: u64 = 0;
    while k < max_passes
        invariant
            base == base_subsets@.to_set(),
            es == cfg_edges@.to_set(),
            k <= max_passes,
            cur@.to_set() == subsets_after(base, es, k as nat),
            k > 0 ==> !subsets_closed(subsets_after(base, es, (k - 1) as nat), es),
            base <= cur@.to_set(),
            forall|x: Set<Triple>| #![trigger subsets_closed(x, es)]
                base <= x && subsets_closed(x, es) ==> cur@.to_set() <= x,
        decreases max_passes - k,
    {
        let ghost before = cur@;
        let stable = stabilize_subsets(&mut cur, cfg_edges);
        proof {
            lemma_subsets_closed_is_fixed(before.to_set(), es);
            assert forall|x: Set<Triple>| #![trigger subsets_closed(x, es)]
                base <= x && subsets_closed(x, es) implies cur@.to_set() <= x by {
                lemma_subsets_step_monotone(before.to_set(), x, es);
                lemma_subsets_closed_is_fixed(x, es);
            }
        }
        if stable {
            proof {
                lemma_subsets_closed_stays(base, es, k as nat, (max_passes - 1) as nat);
            }
            return Ok(cur);
        }
        k += 1;
    }
    Err(ResourceExhausted)
}

/// `saturate_requires` within `max_passes` passes: succeeds when a pass of
/// the budget finds the relation closed, which is when the relation after
/// `max_passes - 1` passes is closed.
pub fn saturate_requires_within(
    borrow_regions: &Vec<Triple>,
    subsets: &Vec<Triple>,
    cfg_edges: &Vec<(Point, Point)>,
    kills: &Vec<(Loan, Point)>,
    max_passes: u64,
) -> (r: Result<Vec<Triple>, ResourceExhausted>)
    ensures
        r is Ok <==> max_passes > 0 && requires_closed(
            requires_after(
                borrow_regions@.to_set(),
                subsets@.to_set(),
                cfg_edges@.to_set(),
                kills@.to_set(),
                (max_passes - 1) as nat,
            ),
            subsets@.to_set(),
            cfg_edges@.to_set(),
            kills@.to_set(),
        ),
        r is Ok ==> least_requires(
            r->Ok_0@.to_set(),
            borrow_regions@.to_set(),
            subsets@.to_set(),
            cfg_edges@.to_set(),
            kills@.to_set(),
        ),
{
    let ghost base = borrow_regions@.to_set();
    let ghost ss = subsets@.to_set();
    let ghost es = cfg_edges@.to_set();
    let ghost ks = kills@.to_set();
    let mut cur = dedup_triples(borrow_regions);
    let mut k: u64 = 0;
    while k < max_passes
        invariant
            base == borrow_regions@.to_set(),
            ss == subsets@.to_set(),
            es == cfg_edges@.to_set(),
            ks == kills@.to_set(),
            k <= max_passes,
            cur@.to_set() == requires_after(base, ss, es, ks, k as nat),
            k > 0 ==> !requires_closed(requires_after(base, ss, es, ks, (k - 1) as nat), ss, es, ks),
            base <= cur@.to_set(),
            forall|x: Set<Triple>| #![trigger requires_closed(x, ss, es, ks)]
                base <= x && requires_closed(x, ss, es, ks) ==> cur@.to_set() <= x,
        decreases max_passes - k,
    {
        let ghost before = cur@;
        let stable = stabilize_requires(&mut cur, subsets, cfg_edges, kills);
        proof {
            lemma_requires_closed_is_fixed(before.to_set(), ss, es, ks);
            assert forall|x: Set<Triple>| #![trigger requires_closed(x, ss, es, ks)]
                base <= x && requires_closed(x, ss, es, ks) implies cur@.to_set() <= x by {
                lemma_requires_step_monotone(before.to_set(), x, ss, es, ks);
                lemma_requires_closed_is_fixed(x, ss, es, ks);
            }
        }
        if stable {
            proof {
                lemma_requires_closed_stays(base, ss, es, ks, k as nat, (max_passes - 1) as nat);
            }
            return Ok(cur);
        }
        k += 1;
    }
    Err(ResourceExhausted)
}

/// Once a pass adds nothing to the `subsets` relation, later passes add
/// nothing either.
proof fn lemma_subsets_closed_stays(s: Set<Triple>, edges: Set<(Point, Point)>, k: nat, m: nat)
    requires
        k <= m,
        subsets_closed(subsets_after(s, edges, k), edges),
    ensures
        subsets_after(s, edges, m) == subsets_after(s, edges, k),
    decreases m - k,
{
    if m > k {
        lemma_subsets_closed_stays(s, edges, k, (m - 1) as nat);
        lemma_subsets_closed_is_fixed(subsets_after(s, edges, k), edges);
    }
}

/// Once a pass adds nothing to the `requires` relation, later passes add
/// nothing either.
proof fn lemma_requires_closed_stays(
    q: Set<Triple>,
    subsets: Set<Triple>,
    edges: Set<(Point, Point)>,
    kills: Set<(Loan, Point)>,
    k: nat,
    m: nat,
)
    requires
        k <= m,
        requires_closed(requires_after(q, subsets, edges, kills, k), subsets, edges, kills),
    ensures
        requires_after(q, subsets, edges, kills, m) == requires_after(q, subsets, edges, kills, k),
    decreases m - k,
{
    if m > k {
        lemma_requires_closed_stays(q, subsets, edges, kills, k, (m - 1) as nat);
        lemma_requires_closed_is_fixed(requires_after(q, subsets, edges, kills, k), subsets, edges, kills);
    }
}

// ---------------------------------------------------------------------------
// The checker

/// Loan `l` is live at `p`: some region live at `p` still requires it there.
pub open spec fn loan_live(
    required: Set<Triple>,
    regions_live_at: Set<(Region, Point)>,
    l: Loan,
    p: Point,
) -> bool {
    exists|r: Region| #[trigger] regions_live_at.contains((r, p)) && required.contains((r, l, p))
}

/// Point `p` invalidates a loan that is live there.
pub open spec fn point_is_error(
    required: Set<Triple>,
    regions_live_at: Set<(Region, Point)>,
    invalidates: Set<(Point, Loan)>,
    p: Point,
) -> bool {
    exists|l: Loan| #[trigger] invalidates.contains((p, l)) && loan_live(required, regions_live_at, l, p)
}

/// The invalidations `(point, loan)` whose loan is live at their point.
pub open spec fn offending(
    required: Set<Triple>,
    regions_live_at: Set<(Region, Point)>,
    invalidates: Set<(Point, Loan)>,
) -> Set<(Point, Loan)> {
    Set::new(
        |x: (Point, Loan)| invalidates.contains(x) && loan_live(required, regions_live_at, x.1, x.0),
    )
}

/// An invalidated loan that is still live at the point of invalidation.
#[derive(Clone, Copy, Debug, PartialEq, Eq)]
pub struct Violation {
    /// The point whose action is incompatible with the loan.
    pub point: Point,
    /// The loan that is still live there.
    pub loan: Loan,
}

/// `violations` lists each pair of `pairs` once, and nothing else.
pub open spec fn lists_exactly(violations: Seq<Violation>, pairs: Set<(Point, Loan)>) -> bool {
    &&& forall|x: (Point, Loan)| #![trigger pairs.contains(x)]
        pairs.contains(x) <==> exists|i: int|
            0 <= i < violations.len() && (#[trigger] violations[i]).point == x.0 && violations[i].loan
                == x.1
    &&& forall|i: int, j: int|
        0 <= i < j < violations.len() ==> (#[trigger] violations[i].point, violations[i].loan) != (
        #[trigger] violations[j].point, violations[j].loan)
}

proof fn lemma_listed(violations: Seq<Violation>, pairs: Set<(Point, Loan)>, k: int)
    requires
        lists_exactly(violations, pairs),
        0 <= k < violations.len(),
    ensures
        pairs.contains((violations[k].point, violations[k].loan)),
{
    let x = (violations[k].point, violations[k].loan);
    assert(violations[k].point == x.0 && violations[k].loan == x.1);
}

/// What `check` returns for the set of offending pairs: success when there is
/// none, else every one of them, each once.
pub open spec fn outcome_of(r: Result<(), Vec<Violation>>, pairs: Set<(Point, Loan)>) -> bool {
    match r {
        Ok(()) => pairs == Set::<(Point, Loan)>::empty(),
        Err(v) => v@.len() > 0 && lists_exactly(v@, pairs),
    }
}

/// What `check` returns on `inputs`: the outcome for the offending pairs of
/// the least `requires` over the least `subsets`, which exist and are unique.
pub open spec fn check_outcome(inputs: BorrowCheckerInputs, r: Result<(), Vec<Violation>>) -> bool {
    &&& exists|s: Set<Triple>, q: Set<Triple>|
        #[trigger] least_subsets(s, inputs.base_subsets@.to_set(), inputs.cfg_edges@.to_set())
            && #[trigger] least_requires(
            q,
            inputs.borrow_regions@.to_set(),
            s,
            inputs.cfg_edges@.to_set(),
            inputs.kills@.to_set(),
        ) && outcome_of(
            r,
            offending(q, inputs.regions_live_at@.to_set(), inputs.invalidates@.to_set()),
        )
    &&& forall|s: Set<Triple>, q: Set<Triple>|
        #[trigger] least_subsets(s, inputs.base_subsets@.to_set(), inputs.cfg_edges@.to_set())
            && #[trigger] least_requires(
            q,
            inputs.borrow_regions@.to_set(),
            s,
            inputs.cfg_edges@.to_set(),
            inputs.kills@.to_set(),
        ) ==> outcome_of(
            r,
            offending(q, inputs.regions_live_at@.to_set(), inputs.invalidates@.to_set()),
        )
}

/// Both saturation stages reach their fixed point within `max_passes`
/// passes each.
pub open spec fn saturates_within(inputs: BorrowCheckerInputs, max_passes: u64) -> bool {
    let es = inputs.cfg_edges@.to_set();
    let ks = inputs.kills@.to_set();
    let s = subsets_after(inputs.base_subsets@.to_set(), es, (max_passes - 1) as nat);
    &&& max_passes > 0
    &&& subsets_closed(s, es)
    &&& requires_closed(
        requires_after(inputs.borrow_regions@.to_set(), s, es, ks, (max_passes - 1) as nat),
        s,
        es,
        ks,
    )
}

/// The six base relations of one function.
#[derive(Clone, Debug)]
pub struct BorrowCheckerInputs {
    /// Directed control-flow edges `(from, to)`.
    pub cfg_edges: Vec<(Point, Point)>,
    /// Asserted facts "region A flows into region B at point P".
    pub base_subsets: Vec<Triple>,
    /// Loan creations `(region, loan, point)`.
    pub borrow_regions: Vec<Triple>,
    /// Liveness facts `(region, point)`.
    pub regions_live_at: Vec<(Region, Point)>,
    /// Points `(loan, point)` at which a loan ends.
    pub kills: Vec<(Loan, Point)>,
    /// Actions `(point, loan)` incompatible with the loan being alive.
    pub invalidates: Vec<(Point, Loan)>,
}

/// The inputs of one run, with the two relations derived from them.
#[derive(Clone, Debug)]
pub struct BorrowChecker {
    pub inputs: BorrowCheckerInputs,
    pub subsets: Vec<Triple>,
    pub required: Vec<Triple>,
}

/// The relations of a saturated checker are the only least fixed points of
/// its inputs.
proof fn lemma_saturated_is_unique(bc: BorrowChecker)
    requires
        bc.saturated(),
    ensures
        forall|s: Set<Triple>, q: Set<Triple>|
            #[trigger] least_subsets(s, bc.inputs.base_subsets@.to_set(), bc.inputs.cfg_edges@.to_set())
                && #[trigger] least_requires(
                q,
                bc.inputs.borrow_regions@.to_set(),
                s,
                bc.inputs.cfg_edges@.to_set(),
                bc.inputs.kills@.to_set(),
            ) ==> s == bc.subsets@.to_set() && q == bc.required@.to_set(),
{
    let es = bc.inputs.cfg_edges@.to_set();
    let ks = bc.inputs.kills@.to_set();
    assert forall|s: Set<Triple>, q: Set<Triple>|
        #[trigger] least_subsets(s, bc.inputs.base_subsets@.to_set(), es) && #[trigger] least_requires(
            q,
            bc.inputs.borrow_regions@.to_set(),
            s,
            es,
            ks,
        ) implies s == bc.subsets@.to_set() && q == bc.required@.to_set() by {
        lemma_least_subsets_unique(s, bc.subsets@.to_set(), bc.inputs.base_subsets@.to_set(), es);
        lemma_least_requires_unique(q, bc.required@.to_set(), bc.inputs.borrow_regions@.to_set(), s, es, ks);
    }
}

impl BorrowChecker {
    /// `subsets` and `requires` are the least fixed points over the inputs.
    pub open spec fn saturated(&self) -> bool {
        &&& least_subsets(
            self.subsets@.to_set(),
            self.inputs.base_subsets@.to_set(),
            self.inputs.cfg_edges@.to_set(),
        )
        &&& least_requires(
            self.required@.to_set(),
            self.inputs.borrow_regions@.to_set(),
            self.subsets@.to_set(),
            self.inputs.cfg_edges@.to_set(),
            self.inputs.kills@.to_set(),
        )
    }

    /// Runs both saturation stages over `inputs`, `subsets` first.
    pub fn new(inputs: BorrowCheckerInputs) -> (bc: BorrowChecker)
        ensures
            bc.inputs == inputs,
            bc.saturated(),
    {
        let subsets = saturate_subsets(&inputs.base_subsets, &inputs.cfg_edges);
        let required = saturate_requires(
            &inputs.borrow_regions,
            &subsets,
            &inputs.cfg_edges,
            &inputs.kills,
        );
        BorrowChecker { inputs, subsets, required }
    }

    /// Whether loan `l` is live at `p`: some region live at `p` requires it.
    pub fn loan_live_at(&self, l: Loan, p: Point) -> (r: bool)
        ensures
            r == loan_live(self.required@.to_set(), self.inputs.regions_live_at@.to_set(), l, p),
    {
        let live = &self.inputs.regions_live_at;
        let mut i: usize = 0;
        while i < live.len()
            invariant
                i <= live.len(),
                live == &self.inputs.regions_live_at,
                forall|k: int|
                    0 <= k < i && (#[trigger] live@[k]).1 == p ==> !self.required@.contains(
                        (live@[k].0, l, p),
                    ),
            decreases live.len() - i,
        {
            let (r, q) = live[i];
            if q == p && contains_triple(&self.required, (r, l, p)) {
                assert(live@.contains(live@[i as int]));
                assert(live@.to_set().contains((r, p)));
                assert(self.required@.to_set().contains((r, l, p)));
                return true;
            }
            i += 1;
        }
        proof {
            assert forall|r: Region|
                #[trigger] live@.to_set().contains((r, p)) implies !self.required@.to_set().contains(
                (r, l, p),
            ) by {
                let k = choose|k: int| 0 <= k < live@.len() && live@[k] == (r, p);
                assert(live@[k].1 == p);
            }
        }
        false
    }

    /// Whether point `p` invalidates a loan that is live at `p`.
    pub fn error(&self, p: Point) -> (r: bool)
        ensures
            r == point_is_error(
                self.required@.to_set(),
                self.inputs.regions_live_at@.to_set(),
                self.inputs.invalidates@.to_set(),
                p,
            ),
    {
        let inv = &self.inputs.invalidates;
        let ghost q = self.required@.to_set();
        let ghost live = self.inputs.regions_live_at@.to_set();
        let mut i: usize = 0;
        while i < inv.len()
            invariant
                i <= inv.len(),
                inv == &self.inputs.invalidates,
                q == self.required@.to_set(),
                live == self.inputs.regions_live_at@.to_set(),
                forall|k: int|
                    0 <= k < i && (#[trigger] inv@[k]).0 == p ==> !loan_live(q, live, inv@[k].1, p),
            decreases inv.len() - i,
        {
            let (q2, l) = inv[i];
            if q2 == p && self.loan_live_at(l, p) {
                assert(inv@.contains(inv@[i as int]));
                assert(inv@.to_set().contains((p, l)));
                return true;
            }
            i += 1;
        }
        proof {
            assert forall|l: Loan|
                #[trigger] inv@.to_set().contains((p, l)) implies !loan_live(q, live, l, p) by {
                let k = choose|k: int| 0 <= k < inv@.len() && inv@[k] == (p, l);
                assert(inv@[k].0 == p);
            }
        }
        false
    }

    /// Checks one function: saturates both relations, then reports each
    /// invalidation whose loan is still live at its point, each pair once.
    /// Succeeds when there is none.
    pub fn check(inputs: BorrowCheckerInputs) -> (r: Result<(), Vec<Violation>>)
        ensures
            check_outcome(inputs, r),
            inputs.invalidates@.len() == 0 ==> r is Ok,
    {
        let bc = BorrowChecker::new(inputs);
        proof {
            lemma_saturated_is_unique(bc);
        }
        bc.violations()
    }

    /// Runs both saturation stages over `inputs`, each within `max_passes`
    /// passes; fails when a stage has not reached its fixed point by then.
    pub fn new_within(inputs: BorrowCheckerInputs, max_passes: u64) -> (r: Result<
        BorrowChecker,
        ResourceExhausted,
    >)
        ensures
            r is Ok <==> saturates_within(inputs, max_passes),
            r is Ok ==> r->Ok_0.inputs == inputs && r->Ok_0.saturated(),
    {
        let subsets = match saturate_subsets_within(
            &inputs.base_subsets,
            &inputs.cfg_edges,
            max_passes,
        ) {
            Ok(s) => s,
            Err(e) => {
                return Err(e);
            },
        };
        let required = match saturate_requires_within(
            &inputs.borrow_regions,
            &subsets,
            &inputs.cfg_edges,
            &inputs.kills,
            max_passes,
        ) {
            Ok(q) => q,
            Err(e) => {
                return Err(e);
            },
        };
        Ok(BorrowChecker { inputs, subsets, required })
    }

    /// `check` within a budget of `max_passes` passes for each saturation
    /// stage: the same outcome when both stages reach their fixed point in
    /// time, else `ResourceExhausted`.
    pub fn check_within(inputs: BorrowCheckerInputs, max_passes: u64) -> (r: Result<
        Result<(), Vec<Violation>>,
        ResourceExhausted,
    >)
        ensures
            r is Ok <==> saturates_within(inputs, max_passes),
            r is Ok ==> check_outcome(inputs, r->Ok_0),
    {
        let bc = match BorrowChecker::new_within(inputs, max_passes) {
            Ok(bc) => bc,
            Err(e) => {
                return Err(e);
            },
        };
        proof {
            lemma_saturated_is_unique(bc);
        }
        Ok(bc.violations())
    }

    /// Reports each invalidation whose loan is still live at its point, each
    /// pair once, in the order of `invalidates`. Succeeds when there is none.
    pub fn violations(&self) -> (r: Result<(), Vec<Violation>>)
        ensures
            outcome_of(
                r,
                offending(
                    self.required@.to_set(),
                    self.inputs.regions_live_at@.to_set(),
                    self.inputs.invalidates@.to_set(),
                ),
            ),
            self.inputs.invalidates@.len() == 0 ==> r is Ok,
    {
        let ghost q = self.required@.to_set();
        let ghost live = self.inputs.regions_live_at@.to_set();
        let ghost pairs = offending(q, live, self.inputs.invalidates@.to_set());
        let inv = &self.inputs.invalidates;
        let mut found: Vec<Violation> = Vec::new();
        let mut i: usize = 0;
        while i < inv.len()
            invariant
                i <= inv.len(),
                inv == &self.inputs.invalidates,
                q == self.required@.to_set(),
                live == self.inputs.regions_live_at@.to_set(),
                pairs == offending(q, live, inv@.to_set()),
                lists_exactly(found@, pairs.filter(|x: (Point, Loan)| inv@.subrange(0, i as int).contains(x))),
            decreases inv.len() - i,
        {
            let (p, l) = inv[i];
            let ghost done = inv@.subrange(0, i as int);
            let ghost next = inv@.subrange(0, i + 1);
            let ghost old_found = found@;
            let live_here = self.loan_live_at(l, p);
            let mut seen = false;
            let mut j: usize = 0;
            while j < found.len()
                invariant
                    j <= found.len(),
                    found@ == old_found,
                    seen <==> exists|k: int| 0 <= k < j && (#[trigger] found@[k]).point == p && found@[k].loan == l,
                decreases found.len() - j,
            {
                if found[j].point == p && found[j].loan == l {
                    seen = true;
                }
                j += 1;
            }
            if live_here && !seen {
                found.push(Violation { point: p, loan: l });
            }
            proof {
                assert(next == done.push((p, l)));
                assert(inv@.to_set().contains((p, l))) by {
                    assert(inv@[i as int] == (p, l));
                }
                let before = pairs.filter(|x: (Point, Loan)| done.contains(x));
                let after = pairs.filter(|x: (Point, Loan)| next.contains(x));
                assert forall|x: (Point, Loan)| after.contains(x) <==> before.contains(x) || (x == (p, l) && pairs.contains(x)) by {
                    if next.contains(x) && x != (p, l) {
                        let k = choose|k: int| 0 <= k < next.len() && next[k] == x;
                        assert(done[k] == x);
                    }
                    if done.contains(x) {
                        let k = choose|k: int| 0 <= k < done.len() && done[k] == x;
                        assert(next[k] == x);
                    }
                    if x == (p, l) {
                        assert(next[i as int] == x);
                    }
                }
                if live_here && !seen {
                    assert(pairs.contains((p, l)));
                    assert(!before.contains((p, l)));
                    assert forall|x: (Point, Loan)|
                        after.contains(x) <==> exists|k: int|
                            0 <= k < found@.len() && (#[trigger] found@[k]).point == x.0 && found@[k].loan == x.1 by {
                        if before.contains(x) {
                            let k = choose|k: int| 0 <= k < old_found.len() && (#[trigger] old_found[k]).point == x.0 && old_found[k].loan == x.1;
                            assert(found@[k] == old_found[k]);
                        }
                        if x == (p, l) {
                            assert(found@[old_found.len() as int].point == x.0);
                        }
                        if exists|k: int| 0 <= k < found@.len() && (#[trigger] found@[k]).point == x.0 && found@[k].loan == x.1 {
                            let k = choose|k: int| 0 <= k < found@.len() && (#[trigger] found@[k]).point == x.0 && found@[k].loan == x.1;
                            if k < old_found.len() {
                                assert(old_found[k] == found@[k]);
                            }
                        }
                    }
                } else {
                    if pairs.contains((p, l)) {
                        assert(seen);
                        let k = choose|k: int| 0 <= k < old_found.len() && (#[trigger] old_found[k]).point == p && old_found[k].loan == l;
                        assert(before.contains((p, l)));
                    }
                    assert forall|x: (Point, Loan)|
                        after.contains(x) <==> exists|k: int|
                            0 <= k < found@.len() && (#[trigger] found@[k]).point == x.0 && found@[k].loan == x.1 by {
                        if x == (p, l) && pairs.contains(x) {
                            assert(before.contains(x));
                        }
                    }
                }
            }
            i += 1;
        }
        proof {
            assert(inv@.subrange(0, i as int) == inv@);
            assert forall|x: (Point, Loan)| pairs.contains(x) implies inv@.subrange(0, i as int).contains(x) by {
                assert(inv@.to_set().contains(x));
            }
            assert(pairs.filter(|x: (Point, Loan)| inv@.subrange(0, i as int).contains(x)) =~= pairs);
            assert(lists_exactly(found@, pairs));
        }
        if found.len() == 0 {
            proof {
                assert forall|x: (Point, Loan)| !pairs.contains(x) by {
                    if pairs.contains(x) {
                        let k = choose|k: int|
                            0 <= k < found@.len() && (#[trigger] found@[k]).point == x.0 && found@[k].loan
                                == x.1;
                    }
                }
                assert(pairs =~= Set::<(Point, Loan)>::empty());
            }
            Ok(())
        } else {
            proof {
                if self.inputs.invalidates@.len() == 0 {
                    let x = (found@[0].point, found@[0].loan);
                    lemma_listed(found@, pairs, 0);
                    assert(inv@.to_set().contains(x));
                }
            }
            Err(found)
        }
    }
}

} // verus!
