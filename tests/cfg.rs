use polite_c::cfg::{BuildError, Edge, Node, Stmt, CFG};

fn other(s: &str) -> Stmt {
    Stmt::Other(s.to_string())
}

fn edges(cfg: &CFG) -> Vec<(usize, usize, Edge)> {
    (0..cfg.edge_count()).map(|i| cfg.edge(i)).collect()
}

fn nodes(cfg: &CFG) -> Vec<Node> {
    (0..cfg.node_count()).map(|i| cfg.node(i).clone()).collect()
}

#[test]
fn cfg_branch_construction() {
    let body = vec![
        Stmt::If { body: Some(vec![other("A")]), has_else: false },
        other("B"),
    ];
    let cfg = CFG::from_statements(&body).unwrap();
    let ns = nodes(&cfg);
    let es = edges(&cfg);
    let a = ns.iter().position(|n| *n == Node::Statement("A".to_string())).unwrap();
    let b = ns.iter().position(|n| *n == Node::Statement("B".to_string())).unwrap();
    let goto = ns.iter().position(|n| *n == Node::ConditionalGoto).unwrap();
    assert!(es.contains(&(goto, a, Edge(Some(true)))));
    assert!(es.contains(&(goto, b, Edge(Some(false)))));
    assert!(es.contains(&(a, b, Edge(None))));
    assert!(es.contains(&(0, goto, Edge(None))));
    assert!(es.contains(&(b, 1, Edge(None))));
    assert_eq!(ns[0], Node::Start);
    assert_eq!(ns[1], Node::ImplicitReturn);
    assert_eq!(ns.len(), 5);
    assert_eq!(es.len(), 5);
}

#[test]
fn straight_line_is_chained() {
    let cfg = CFG::from_statements(&vec![other("x"), other("y")]).unwrap();
    // y is built first, as node 2, then x as node 3
    assert_eq!(
        nodes(&cfg),
        vec![
            Node::Start,
            Node::ImplicitReturn,
            Node::Statement("y".to_string()),
            Node::Statement("x".to_string()),
        ]
    );
    assert_eq!(
        edges(&cfg),
        vec![(2, 1, Edge(None)), (3, 2, Edge(None)), (0, 3, Edge(None))]
    );
}

#[test]
fn empty_body_goes_to_implicit_return() {
    let cfg = CFG::from_statements(&vec![]).unwrap();
    assert_eq!(nodes(&cfg), vec![Node::Start, Node::ImplicitReturn]);
    assert_eq!(edges(&cfg), vec![(0, 1, Edge(None))]);
}

#[test]
fn return_supersedes_what_follows() {
    let cfg = CFG::from_statements(&vec![other("x"), Stmt::Return, other("dead")]).unwrap();
    let ns = nodes(&cfg);
    assert_eq!(ns[3], Node::Return);
    assert_eq!(ns[4], Node::Statement("x".to_string()));
    let es = edges(&cfg);
    assert!(es.contains(&(4, 3, Edge(None))));
    assert!(es.contains(&(0, 4, Edge(None))));
}

#[test]
fn for_loop_with_break() {
    let body = vec![
        Stmt::For {
            init: Some("i = 0".to_string()),
            cond: Some("i < n".to_string()),
            after: Some("i++".to_string()),
            body: Some(vec![other("s"), Stmt::Break]),
        },
        other("end"),
    ];
    let cfg = CFG::from_statements(&body).unwrap();
    let ns = nodes(&cfg);
    // end = 2, init = 3, after = 4, condition = 5, s = 6
    assert_eq!(
        ns,
        vec![
            Node::Start,
            Node::ImplicitReturn,
            Node::Statement("end".to_string()),
            Node::Statement("i = 0".to_string()),
            Node::Statement("i++".to_string()),
            Node::ConditionalGoto,
            Node::Statement("s".to_string()),
        ]
    );
    assert_eq!(
        edges(&cfg),
        vec![
            (2, 1, Edge(None)),
            (6, 2, Edge(None)),
            (4, 5, Edge(None)),
            (3, 5, Edge(None)),
            (5, 6, Edge(Some(true))),
            (5, 2, Edge(Some(false))),
            (0, 3, Edge(None)),
        ]
    );
    assert_eq!(
        cfg.point_edges(),
        vec![(2, 1), (6, 2), (4, 5), (3, 5), (5, 6), (5, 2), (0, 3)]
    );
}

#[test]
fn break_outside_loop_goes_to_implicit_return() {
    let cfg = CFG::from_statements(&vec![other("x"), Stmt::Break, other("y")]).unwrap();
    let es = edges(&cfg);
    // y = 2, x = 3 flows into the break target, the implicit return
    assert!(es.contains(&(3, 1, Edge(None))));
}

#[test]
fn if_without_body_is_malformed() {
    let r = CFG::from_statements(&vec![Stmt::If { body: None, has_else: false }]);
    assert_eq!(r.err(), Some(BuildError::MalformedStatement));
}

#[test]
fn else_is_unsupported() {
    let r = CFG::from_statements(&vec![Stmt::If { body: Some(vec![]), has_else: true }]);
    assert_eq!(r.err(), Some(BuildError::UnsupportedConstruct));
}

#[test]
fn for_missing_a_clause_is_malformed() {
    let r = CFG::from_statements(&vec![Stmt::For {
        init: Some("i = 0".to_string()),
        cond: None,
        after: Some("i++".to_string()),
        body: Some(vec![]),
    }]);
    assert_eq!(r.err(), Some(BuildError::MalformedStatement));
}

#[test]
fn nested_malformed_statement_is_reported() {
    let inner = Stmt::If { body: None, has_else: false };
    let r = CFG::from_statements(&vec![
        other("x"),
        Stmt::If { body: Some(vec![inner]), has_else: false },
    ]);
    assert_eq!(r.err(), Some(BuildError::MalformedStatement));
}
