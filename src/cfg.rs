//! Construction of a function's control-flow graph from its statement tree.
//!
//! The graph is a petgraph `Graph`. Its nodes are numbered in the order in
//! which they are added, and each node is a point of the borrow checker.
use petgraph::graph::{Graph, NodeIndex};
use petgraph::Directed;
use vstd::prelude::*;

verus! {

/// A node of the control-flow graph.
#[derive(Clone, Debug, PartialEq, Eq)]
pub enum Node {
    Start,
    Return,
    ImplicitReturn,
    Statement(String),
    /// Node that is connected to two other nodes, depending on a condition
    ConditionalGoto,
}

/// An edge of the control-flow graph. Its tag is `Some(true)` on the edge
/// that a condition takes when it holds, `Some(false)` on the one it takes
/// when it does not, and `None` on sequential flow.
#[derive(Clone, Copy, Debug, PartialEq, Eq)]
pub struct Edge(pub Option<bool>);

/// petgraph's `Graph`, opaque here: what it holds is read through
/// `graph_nodes` and `graph_edges`.
#[verifier::external_type_specification]
#[verifier::external_body]
#[verifier::reject_recursive_types(N)]
#[verifier::reject_recursive_types(E)]
#[verifier::reject_recursive_types(Ty)]
#[verifier::reject_recursive_types(Ix)]
pub struct ExGraph<N, E, Ty, Ix>(Graph<N, E, Ty, Ix>);

/// petgraph's `Directed`, the edge type of a directed `Graph`.
#[verifier::external_type_specification]
#[verifier::external_body]
pub struct ExDirected(Directed);

/// The nodes of a graph, by index.
pub uninterp spec fn graph_nodes(g: Graph<Node, Edge>) -> Seq<Node>;

/// The edges of a graph `(source, target, weight)`, by index.
pub uninterp spec fn graph_edges(g: Graph<Node, Edge>) -> Seq<(int, int, Edge)>;

/// Relies on petgraph's `Graph::new`: a graph with no nodes and no edges.
#[verifier::external_body]
fn new_graph() -> (g: Graph<Node, Edge>)
    ensures
        graph_nodes(g) == Seq::<Node>::empty(),
        graph_edges(g) == Seq::<(int, int, Edge)>::empty(),
{
    Graph::new()
}

/// Relies on petgraph's `Graph::add_node`: the node is appended and its index
/// is the former node count. It panics only when that count reaches the
/// largest `u32`.
#[verifier::external_body]
fn add_node(g: &mut Graph<Node, Edge>, n: Node) -> (i: usize)
    requires
        graph_nodes(*old(g)).len() < u32::MAX,
    ensures
        graph_nodes(*final(g)) == graph_nodes(*old(g)).push(n),
        graph_edges(*final(g)) == graph_edges(*old(g)),
        i == graph_nodes(*old(g)).len(),
{
    g.add_node(n).index()
}

/// Relies on petgraph's `Graph::add_edge`: the edge is appended. It panics
/// only when an end is not a node or the edge count reaches the largest
/// `u32`.
#[verifier::external_body]
fn add_edge(g: &mut Graph<Node, Edge>, a: usize, b: usize, e: Edge)
    requires
        a < graph_nodes(*old(g)).len(),
        b < graph_nodes(*old(g)).len(),
        graph_nodes(*old(g)).len() < u32::MAX,
        graph_edges(*old(g)).len() < u32::MAX,
    ensures
        graph_nodes(*final(g)) == graph_nodes(*old(g)),
        graph_edges(*final(g)) == graph_edges(*old(g)).push((a as int, b as int, e)),
{
    g.add_edge(NodeIndex::new(a), NodeIndex::new(b), e);
}

/// Relies on petgraph's `Graph::node_count`.
#[verifier::external_body]
fn node_count(g: &Graph<Node, Edge>) -> (n: usize)
    ensures
        n == graph_nodes(*g).len(),
{
    g.node_count()
}

/// Relies on petgraph's `Graph::edge_count`.
#[verifier::external_body]
fn edge_count(g: &Graph<Node, Edge>) -> (n: usize)
    ensures
        n == graph_edges(*g).len(),
{
    g.edge_count()
}

/// Relies on petgraph's indexing of a `Graph` by node: the node's weight.
#[verifier::external_body]
fn node_at(g: &Graph<Node, Edge>, i: usize) -> (n: &Node)
    requires
        i < graph_nodes(*g).len(),
    ensures
        *n == graph_nodes(*g)[i as int],
{
    &g[NodeIndex::new(i)]
}

/// Relies on petgraph's `Graph::raw_edges`: the edges in index order, each
/// with its source, target and weight.
#[verifier::external_body]
fn edge_at(g: &Graph<Node, Edge>, i: usize) -> (e: (usize, usize, Edge))
    requires
        i < graph_edges(*g).len(),
    ensures
        (e.0 as int, e.1 as int, e.2) == graph_edges(*g)[i as int],
{
    let e = &g.raw_edges()[i];
    (e.source().index(), e.target().index(), e.weight)
}

/// A statement of a function body, as the front end hands it over. The
/// children of `if` and `for` are optional: a front end may fail to find
/// them, and the builder then reports the statement as malformed.
#[derive(Debug)]
pub enum Stmt {
    Return,
    Break,
    /// An `if`; `has_else` tells whether it carries an `else` branch.
    If { body: Option<Vec<Stmt>>, has_else: bool },
    /// A `for` loop with its four clauses, each described by its text.
    For {
        init: Option<String>,
        cond: Option<String>,
        after: Option<String>,
        body: Option<Vec<Stmt>>,
    },
    /// Any other statement, with its description.
    Other(String),
}

/// Why a control-flow graph could not be built.
#[derive(Clone, Copy, Debug, PartialEq, Eq)]
pub enum BuildError {
    /// A construct misses one of the children its kind requires.
    MalformedStatement,
    /// A construct that is recognised but not handled, such as `else`.
    UnsupportedConstruct,
}

/// A fragment of graph: its entry node, and the nodes and edges it adds.
pub type Fragment = (int, Seq<Node>, Seq<(int, int, Edge)>);

/// The sequential tag of an edge.
pub open spec fn untagged() -> Edge {
    Edge(None)
}

/// The fragment built from `s`, whose nodes are numbered from `n0`, that
/// flows into `next` and whose `break` goes to `brk`. The statements are
/// taken from the last one back, each flowing into the entry of what
/// follows it.
pub open spec fn build_spec(n0: int, next: int, brk: int, s: Seq<Stmt>) -> Result<Fragment, BuildError>
    decreases s, 1int,
{
    if s.len() == 0 {
        Ok((next, Seq::empty(), Seq::empty()))
    } else {
        match stmt_spec(n0, next, brk, s.last()) {
            Err(e) => Err(e),
            Ok(f1) => match build_spec(n0 + f1.1.len(), f1.0, brk, s.drop_last()) {
                Err(e) => Err(e),
                Ok(f2) => Ok((f2.0, f1.1 + f2.1, f1.2 + f2.2)),
            },
        }
    }
}

/// The fragment of one statement, as in `build_spec`.
pub open spec fn stmt_spec(n0: int, next: int, brk: int, st: Stmt) -> Result<Fragment, BuildError>
    decreases st, 0int,
{
    match st {
        Stmt::Return => Ok((n0, seq![Node::Return], Seq::empty())),
        Stmt::Break => Ok((brk, Seq::empty(), Seq::empty())),
        Stmt::Other(d) => Ok((n0, seq![Node::Statement(d)], seq![(n0, next, untagged())])),
        Stmt::If { body, has_else } => match body {
            None => Err(BuildError::MalformedStatement),
            Some(b) => if has_else {
                Err(BuildError::UnsupportedConstruct)
            } else {
                match build_spec(n0 + 1, next, brk, b@) {
                    Err(e) => Err(e),
                    Ok(fb) => Ok(
                        (
                            n0,
                            seq![Node::ConditionalGoto] + fb.1,
                            fb.2 + seq![(n0, fb.0, Edge(Some(true))), (n0, next, Edge(Some(false)))],
                        ),
                    ),
                }
            },
        },
        Stmt::For { init, cond, after, body } => if init is None || cond is None || after is None
            || body is None {
            Err(BuildError::MalformedStatement)
        } else {
            match build_spec(n0 + 3, n0 + 1, next, body.unwrap()@) {
                Err(e) => Err(e),
                Ok(fb) => Ok(
                    (
                        n0,
                        seq![
                            Node::Statement(init.unwrap()),
                            Node::Statement(after.unwrap()),
                            Node::ConditionalGoto,
                        ] + fb.1,
                        fb.2 + seq![
                            (n0 + 1, n0 + 2, untagged()),
                            (n0, n0 + 2, untagged()),
                            (n0 + 2, fb.0, Edge(Some(true))),
                            (n0 + 2, next, Edge(Some(false))),
                        ],
                    ),
                ),
            }
        },
    }
}

/// Every edge of `g` joins two of its nodes, and the node count fits a `u32`.
pub open spec fn edges_in_range(g: Graph<Node, Edge>) -> bool {
    &&& graph_nodes(g).len() < u32::MAX
    &&& forall|i: int|
        0 <= i < graph_edges(g).len() ==> 0 <= (#[trigger] graph_edges(g)[i]).0 < graph_nodes(g).len()
            && 0 <= graph_edges(g)[i].1 < graph_nodes(g).len()
}

/// The number of statements in `s`, nested ones included.
pub open spec fn count(s: Seq<Stmt>) -> nat
    decreases s, 1int,
{
    if s.len() == 0 {
        0
    } else {
        count(s.drop_last()) + stmt_count(s.last())
    }
}

/// The number of statements in `st`, itself included.
pub open spec fn stmt_count(st: Stmt) -> nat
    decreases st, 0int,
{
    match st {
        Stmt::If { body, has_else: _ } => match body {
            Some(b) => 1 + count(b@),
            None => 1,
        },
        Stmt::For { init: _, cond: _, after: _, body } => match body {
            Some(b) => 1 + count(b@),
            None => 1,
        },
        _ => 1,
    }
}

/// `r` with `ns` and `es` put in front of its nodes and edges.
spec fn extend(ns: Seq<Node>, es: Seq<(int, int, Edge)>, r: Result<Fragment, BuildError>) -> Result<
    Fragment,
    BuildError,
> {
    match r {
        Ok(f) => Ok((f.0, ns + f.1, es + f.2)),
        Err(e) => Err(e),
    }
}

proof fn lemma_extend_step(
    ns: Seq<Node>,
    es: Seq<(int, int, Edge)>,
    cur: int,
    next: int,
    brk: int,
    s: Seq<Stmt>,
)
    requires
        s.len() > 0,
        stmt_spec(cur, next, brk, s.last()) is Ok,
    ensures
        ({
            let f1 = stmt_spec(cur, next, brk, s.last())->Ok_0;
            extend(ns, es, build_spec(cur, next, brk, s)) == extend(
                ns + f1.1,
                es + f1.2,
                build_spec(cur + f1.1.len(), f1.0, brk, s.drop_last()),
            )
        }),
{
    let f1 = stmt_spec(cur, next, brk, s.last())->Ok_0;
    match build_spec(cur + f1.1.len(), f1.0, brk, s.drop_last()) {
        Ok(f2) => {
            assert(ns + (f1.1 + f2.1) =~= (ns + f1.1) + f2.1);
            assert(es + (f1.2 + f2.2) =~= (es + f1.2) + f2.2);
        },
        Err(_) => {},
    }
}

proof fn lemma_error_step(cur: int, next: int, brk: int, s: Seq<Stmt>, e: BuildError)
    requires
        s.len() > 0,
        stmt_spec(cur, next, brk, s.last()) == Err::<Fragment, BuildError>(e),
    ensures
        build_spec(cur, next, brk, s) == Err::<Fragment, BuildError>(e),
{
}

proof fn lemma_whole_error(
    whole: Result<Fragment, BuildError>,
    ns: Seq<Node>,
    es: Seq<(int, int, Edge)>,
    rest: Result<Fragment, BuildError>,
    e: BuildError,
)
    requires
        extend(Seq::empty(), Seq::empty(), whole) == extend(ns, es, rest),
        rest == Err::<Fragment, BuildError>(e),
    ensures
        whole == Err::<Fragment, BuildError>(e),
{
}

/// Builds the fragment of `statements` into `g`, flowing into `next`, with
/// `break` going to `break_to`; returns its entry node.
#[verifier::rlimit(60)]
fn build(g: &mut Graph<Node, Edge>, next: usize, break_to: usize, statements: &Vec<Stmt>) -> (r:
    Result<usize, BuildError>)
    requires
        next < graph_nodes(*old(g)).len(),
        break_to < graph_nodes(*old(g)).len(),
        graph_nodes(*old(g)).len() + 3 * count(statements@) < u32::MAX,
        graph_edges(*old(g)).len() + 4 * count(statements@) < u32::MAX,
        edges_in_range(*old(g)),
    ensures
        match build_spec(
            graph_nodes(*old(g)).len() as int,
            next as int,
            break_to as int,
            statements@,
        ) {
            Ok(f) => {
                &&& r == Ok::<usize, BuildError>(f.0 as usize)
                &&& 0 <= f.0 < graph_nodes(*final(g)).len()
                &&& graph_nodes(*final(g)) == graph_nodes(*old(g)) + f.1
                &&& graph_edges(*final(g)) == graph_edges(*old(g)) + f.2
                &&& graph_nodes(*final(g)).len() <= graph_nodes(*old(g)).len() + 3 * count(
                    statements@,
                )
                &&& graph_edges(*final(g)).len() <= graph_edges(*old(g)).len() + 4 * count(
                    statements@,
                )
                &&& edges_in_range(*final(g))
            },
            Err(e) => r == Err::<usize, BuildError>(e),
        },
    decreases statements@,
{
    let ghost s = statements@;
    let ghost nodes0 = graph_nodes(*g);
    let ghost edges0 = graph_edges(*g);
    let ghost n0 = nodes0.len() as int;
    let ghost whole = build_spec(n0, next as int, break_to as int, s);
    let ghost mut ns: Seq<Node> = Seq::empty();
    let ghost mut es: Seq<(int, int, Edge)> = Seq::empty();
    let mut succ = next;
    let mut i: usize = statements.len();
    proof {
        assert(s.subrange(0, s.len() as int) == s);
    }
    while i > 0
        invariant
            i <= s.len(),
            s == statements@,
            graph_nodes(*g) == nodes0 + ns,
            graph_edges(*g) == edges0 + es,
            n0 == nodes0.len(),
            nodes0 == graph_nodes(*old(g)),
            edges_in_range(*g),
            edges0 == graph_edges(*old(g)),
            whole == build_spec(n0, next as int, break_to as int, s),
            succ < graph_nodes(*g).len(),
            break_to < graph_nodes(*g).len(),
            nodes0.len() + 3 * count(s) < u32::MAX,
            edges0.len() + 4 * count(s) < u32::MAX,
            graph_nodes(*g).len() + 3 * count(s.subrange(0, i as int)) <= nodes0.len() + 3 * count(s),
            graph_edges(*g).len() + 4 * count(s.subrange(0, i as int)) <= edges0.len() + 4 * count(s),
            extend(Seq::empty(), Seq::empty(), whole) == extend(
                ns,
                es,
                build_spec(n0 + ns.len(), succ as int, break_to as int, s.subrange(0, i as int)),
            ),
        decreases i,
    {
        let ghost pre = s.subrange(0, i as int);
        let ghost cur = graph_nodes(*g).len() as int;
        let ghost st = s[i - 1];
        let ghost old_next = succ as int;
        let ghost nodes_before = graph_nodes(*g);
        let ghost edges_before = graph_edges(*g);
        assert(cur == n0 + ns.len());
        proof {
            assert(pre.drop_last() =~= s.subrange(0, i - 1));
            assert(pre.last() == st);
            assert(count(pre) == count(s.subrange(0, i - 1)) + stmt_count(st));
            assert(stmt_count(st) >= 1);
        }
        match &statements[i - 1] {
            Stmt::Return => {
                succ = add_node(g, Node::Return);
            },
            Stmt::Break => {
                succ = break_to;
            },
            Stmt::Other(d) => {
                let n = add_node(g, Node::Statement(d.clone()));
                add_edge(g, n, succ, Edge(None));
                succ = n;
            },
            Stmt::If { body, has_else } => {
                match body {
                    None => {
                        proof {
                            assert(stmt_spec(cur, old_next, break_to as int, st) == Err::<
                                Fragment,
                                BuildError,
                            >(BuildError::MalformedStatement));
                            lemma_error_step(cur, old_next, break_to as int, pre, BuildError::MalformedStatement);
                            lemma_whole_error(whole, ns, es, build_spec(n0 + ns.len(), old_next, break_to as int, pre), BuildError::MalformedStatement);
                        }
                        return Err(BuildError::MalformedStatement);
                    },
                    Some(b) => {
                        if *has_else {
                            proof {
                                assert(stmt_spec(cur, old_next, break_to as int, st) == Err::<
                                    Fragment,
                                    BuildError,
                                >(BuildError::UnsupportedConstruct));
                                lemma_error_step(cur, old_next, break_to as int, pre, BuildError::UnsupportedConstruct);
                            lemma_whole_error(whole, ns, es, build_spec(n0 + ns.len(), old_next, break_to as int, pre), BuildError::UnsupportedConstruct);
                            }
                            return Err(BuildError::UnsupportedConstruct);
                        }
                        let node = add_node(g, Node::ConditionalGoto);
                        let start = match build(g, succ, break_to, b) {
                            Ok(start) => start,
                            Err(e) => {
                                proof {
                                    assert(stmt_spec(cur, old_next, break_to as int, st) == Err::<
                                        Fragment,
                                        BuildError,
                                    >(e));
                                    lemma_error_step(cur, old_next, break_to as int, pre, e);
                            lemma_whole_error(whole, ns, es, build_spec(n0 + ns.len(), old_next, break_to as int, pre), e);
                                }
                                return Err(e);
                            },
                        };
                        add_edge(g, node, start, Edge(Some(true)));
                        add_edge(g, node, succ, Edge(Some(false)));
                        succ = node;
                    },
                }
            },
            Stmt::For { init, cond, after, body } => {
                match (init, cond, after, body) {
                    (Some(init), Some(_), Some(after), Some(b)) => {
                        let init_node = add_node(g, Node::Statement(init.clone()));
                        let after_node = add_node(g, Node::Statement(after.clone()));
                        let condition = add_node(g, Node::ConditionalGoto);
                        let start = match build(g, after_node, succ, b) {
                            Ok(start) => start,
                            Err(e) => {
                                proof {
                                    assert(stmt_spec(cur, old_next, break_to as int, st) == Err::<
                                        Fragment,
                                        BuildError,
                                    >(e));
                                    lemma_error_step(cur, old_next, break_to as int, pre, e);
                            lemma_whole_error(whole, ns, es, build_spec(n0 + ns.len(), old_next, break_to as int, pre), e);
                                }
                                return Err(e);
                            },
                        };
                        add_edge(g, after_node, condition, Edge(None));
                        add_edge(g, init_node, condition, Edge(None));
                        add_edge(g, condition, start, Edge(Some(true)));
                        add_edge(g, condition, succ, Edge(Some(false)));
                        succ = init_node;
                    },
                    _ => {
                        proof {
                            assert(stmt_spec(cur, old_next, break_to as int, st) == Err::<
                                Fragment,
                                BuildError,
                            >(BuildError::MalformedStatement));
                            lemma_error_step(cur, old_next, break_to as int, pre, BuildError::MalformedStatement);
                            lemma_whole_error(whole, ns, es, build_spec(n0 + ns.len(), old_next, break_to as int, pre), BuildError::MalformedStatement);
                        }
                        return Err(BuildError::MalformedStatement);
                    },
                }
            },
        }
        proof {
            let f1 = stmt_spec(cur, old_next, break_to as int, st)->Ok_0;
            assert(graph_nodes(*g) =~= nodes_before + f1.1);
            assert(graph_edges(*g) =~= edges_before + f1.2);
            lemma_extend_step(ns, es, cur, old_next, break_to as int, pre);
            assert(nodes0 + (ns + f1.1) =~= nodes0 + ns + f1.1);
            assert(edges0 + (es + f1.2) =~= edges0 + es + f1.2);
            ns = ns + f1.1;
            es = es + f1.2;
        }
        i -= 1;
    }
    Ok(succ)
}

/// Control-Flow Graph of a function's body
pub struct CFG {
    graph: Graph<Node, Edge>,
}

impl CFG {
    /// The nodes, by index.
    pub closed spec fn spec_nodes(&self) -> Seq<Node> {
        graph_nodes(self.graph)
    }

    /// The edges `(source, target, weight)`, by index.
    pub closed spec fn spec_edges(&self) -> Seq<(int, int, Edge)> {
        graph_edges(self.graph)
    }

    /// Every edge joins two nodes, and each node index fits a `u32`.
    pub closed spec fn well_formed(&self) -> bool {
        edges_in_range(self.graph)
    }

    /// Builds the graph of a function body. Node 0 is `Start`, node 1 the
    /// `ImplicitReturn` that the body flows into and that a `break` outside
    /// any loop goes to, and `Start` has one edge, to the entry of the body.
    pub fn from_statements(statements: &Vec<Stmt>) -> (r: Result<CFG, BuildError>)
        requires
            4 * count(statements@) + 2 < u32::MAX,
        ensures
            match build_spec(2, 1, 1, statements@) {
                Ok(f) => {
                    &&& r is Ok
                    &&& r->Ok_0.well_formed()
                    &&& r->Ok_0.spec_nodes() == seq![Node::Start, Node::ImplicitReturn] + f.1
                    &&& r->Ok_0.spec_edges() == f.2.push((0, f.0, Edge(None)))
                },
                Err(e) => r is Err && r->Err_0 == e,
            },
    {
        let mut graph = new_graph();
        let prev = add_node(&mut graph, Node::Start);
        let next = add_node(&mut graph, Node::ImplicitReturn);
        proof {
            assert(graph_nodes(graph) =~= seq![Node::Start, Node::ImplicitReturn]);
        }
        let entry = match build(&mut graph, next, next, statements) {
            Ok(entry) => entry,
            Err(e) => {
                return Err(e);
            },
        };
        add_edge(&mut graph, prev, entry, Edge(None));
        proof {
            let f = build_spec(2, 1, 1, statements@)->Ok_0;
            assert(graph_edges(graph) =~= f.2.push((0, f.0, Edge(None))));
            assert forall|i: int|
                0 <= i < graph_edges(graph).len() implies 0 <= (#[trigger] graph_edges(graph)[i]).0
                < graph_nodes(graph).len() && 0 <= graph_edges(graph)[i].1 < graph_nodes(graph).len() by {
                if i < graph_edges(graph).len() - 1 {
                    assert(graph_edges(graph)[i] == f.2[i]);
                }
            }
        }
        Ok(CFG { graph })
    }

    /// The number of nodes.
    pub fn node_count(&self) -> (n: usize)
        ensures
            n == self.spec_nodes().len(),
    {
        node_count(&self.graph)
    }

    /// The number of edges.
    pub fn edge_count(&self) -> (n: usize)
        ensures
            n == self.spec_edges().len(),
    {
        edge_count(&self.graph)
    }

    /// The node of index `i`.
    pub fn node(&self, i: usize) -> (n: &Node)
        requires
            i < self.spec_nodes().len(),
        ensures
            *n == self.spec_nodes()[i as int],
    {
        node_at(&self.graph, i)
    }

    /// The edge of index `i`, as `(source, target, weight)`.
    pub fn edge(&self, i: usize) -> (e: (usize, usize, Edge))
        requires
            i < self.spec_edges().len(),
        ensures
            (e.0 as int, e.1 as int, e.2) == self.spec_edges()[i as int],
    {
        edge_at(&self.graph, i)
    }

    /// The edges as pairs of points, for the borrow checker.
    pub fn point_edges(&self) -> (r: Vec<(u32, u32)>)
        requires
            self.well_formed(),
        ensures
            r@.len() == self.spec_edges().len(),
            forall|i: int|
                0 <= i < r@.len() ==> (#[trigger] r@[i]).0 as int == self.spec_edges()[i].0
                    && r@[i].1 as int == self.spec_edges()[i].1,
    {
        let n = edge_count(&self.graph);
        let mut r: Vec<(u32, u32)> = Vec::new();
        let mut i: usize = 0;
        while i < n
            invariant
                n == self.spec_edges().len(),
                i <= n,
                self.well_formed(),
                r@.len() == i,
                forall|k: int|
                    0 <= k < i ==> (#[trigger] r@[k]).0 as int == self.spec_edges()[k].0 && r@[k].1 as int
                        == self.spec_edges()[k].1,
            decreases n - i,
        {
            let (a, b, _) = edge_at(&self.graph, i);
            proof {
                assert(self.spec_edges()[i as int] == graph_edges(self.graph)[i as int]);
            }
            r.push((a as u32, b as u32));
            i += 1;
        }
        r
    }
}

} // verus!
