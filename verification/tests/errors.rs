//! The errors of queries that cannot be read or run.

use std::collections::HashMap;

use cypher_parser::ast::Clause;
use cypher_parser::matcher::Executor;
use cypher_parser::row::{Binding, Row};
use cypher_parser::{
    execute, parse, run_query, CypherError, CypherValue, GraphProvider, OutputFormat,
};

/// A graph of named nodes with one label each and integer or text properties.
#[derive(Default)]
struct Graph {
    nodes: Vec<(String, String)>,
    props: HashMap<(usize, String), CypherValue>,
    edges: Vec<(usize, String, usize)>,
}

impl Graph {
    fn node(&mut self, label: &str, name: &str) -> usize {
        self.nodes.push((label.to_string(), name.to_string()));
        self.nodes.len() - 1
    }

    fn prop(&mut self, node: usize, key: &str, value: CypherValue) {
        self.props.insert((node, key.to_string()), value);
    }

    fn edge(&mut self, from: usize, rel: &str, to: usize) {
        self.edges.push((from, rel.to_string(), to));
    }
}

impl GraphProvider for Graph {
    type NodeId = usize;

    fn scan(&self, labels: &[String]) -> Vec<usize> {
        (0..self.nodes.len())
            .filter(|n| labels.is_empty() || labels.iter().any(|l| self.matches_label(*n, l)))
            .collect()
    }

    fn matches_label(&self, node: usize, label: &str) -> bool {
        self.nodes[node].0 == label
    }

    fn relationship_types(&self) -> Vec<String> {
        vec!["KNOWS".to_string(), "LIKES".to_string()]
    }

    fn expand(&self, node: usize, rel_type: &str) -> Vec<usize> {
        self.edges
            .iter()
            .filter(|e| e.0 == node && e.1 == rel_type)
            .map(|e| e.2)
            .collect()
    }

    fn rel_sources(&self, _rel_type: &str) -> Vec<usize> {
        (0..self.nodes.len()).collect()
    }

    fn property(&self, node: usize, prop: &str) -> CypherValue {
        if prop == "name" {
            return CypherValue::Str(self.nodes[node].1.clone());
        }
        self.props
            .get(&(node, prop.to_string()))
            .cloned()
            .unwrap_or(CypherValue::Null)
    }

    fn node_id(&self, node: usize) -> String {
        format!("node:{node}")
    }

    fn label(&self, node: usize) -> String {
        self.nodes[node].0.clone()
    }

    fn name(&self, node: usize) -> String {
        self.nodes[node].1.clone()
    }
}

/// A chain a -> b -> c -> d of KNOWS with a shortcut a -> c, a cycle back from d to a, and
/// LIKES from a to d. The ages are 30, 20, 20 and none.
fn people() -> Graph {
    let mut g = Graph::default();
    let a = g.node("Person", "a");
    let b = g.node("Person", "b");
    let c = g.node("Person", "c");
    let d = g.node("Robot", "d");
    g.prop(a, "age", CypherValue::Int(30));
    g.prop(b, "age", CypherValue::Int(20));
    g.prop(c, "age", CypherValue::Int(20));
    g.edge(a, "KNOWS", b);
    g.edge(b, "KNOWS", c);
    g.edge(a, "KNOWS", c);
    g.edge(c, "KNOWS", d);
    g.edge(d, "KNOWS", a);
    g.edge(a, "LIKES", d);
    g
}

/// The message of a query that parses and cannot be run.
fn failure(query: &str) -> String {
    match execute(&people(), &parse(query).unwrap()) {
        Err(CypherError::Execution { message }) => message,
        other => panic!("unexpected outcome {other:?}"),
    }
}

/// The message and position of a query that cannot be parsed.
fn parse_failure(query: &str) -> (String, usize) {
    match parse(query) {
        Err(CypherError::Parse { message, position }) => (message, position),
        other => panic!("unexpected outcome {other:?}"),
    }
}

/// The message and position of a query that cannot be split into tokens.
fn lex_failure(query: &str) -> (String, usize) {
    match parse(query) {
        Err(CypherError::Lex { message, position }) => (message, position),
        other => panic!("unexpected outcome {other:?}"),
    }
}

fn at(message: &str, position: usize) -> (String, usize) {
    (message.to_string(), position)
}

#[test]
fn text_that_is_no_token() {
    assert_eq!(lex_failure("MATCH (n) RETURN ?"), at("unexpected character", 17));
    assert_eq!(lex_failure("MATCH (n {name: 'x"), at("unterminated string literal", 16));
    assert_eq!(lex_failure("MATCH (n) /* RETURN n"), at("unterminated comment", 10));
    assert_eq!(
        lex_failure("MATCH (n) RETURN n LIMIT 99999999999999999999"),
        at("integer literal out of range", 25)
    );
}

#[test]
fn positions_count_characters() {
    assert_eq!(lex_failure("MATCH (n {name: '\u{e4}\u{f6}'}) ?"), at("unexpected character", 23));
    assert_eq!(
        parse_failure("MATCH (n {name: '\u{e4}\u{f6}'}) n"),
        at("expected MATCH, OPTIONAL MATCH, UNWIND, WITH or RETURN", 23)
    );
}

#[test]
fn tokens_that_are_no_query() {
    assert_eq!(parse_failure(""), at("expected MATCH, OPTIONAL MATCH, UNWIND, WITH or RETURN", 0));
    assert_eq!(
        parse_failure("RETURN 1"),
        at("expected MATCH, OPTIONAL MATCH, UNWIND or WITH", 0)
    );
    assert_eq!(parse_failure("MATCH n RETURN n"), at("expected `(`", 6));
    assert_eq!(parse_failure("MATCH (n RETURN n"), at("expected `)`", 9));
    assert_eq!(parse_failure("MATCH (n)-[:R->(m) RETURN n"), at("expected `]`", 13));
    assert_eq!(parse_failure("MATCH (n) WHERE n.a IS 1 RETURN n"), at("expected NULL or NOT NULL", 23));
    assert_eq!(parse_failure("MATCH (n) WHERE RETURN n"), at("expected an expression", 16));
    assert_eq!(parse_failure("MATCH (n) RETURN n LIMIT x"), at("expected an integer", 25));
    assert_eq!(parse_failure("MATCH (n) RETURN n n"), at("expected the end of the query", 19));
    assert_eq!(parse_failure("UNWIND [1] x RETURN x"), at("expected AS", 11));
    assert_eq!(parse_failure("MATCH (n) RETURN CASE n END"), at("expected WHEN", 24));
    assert_eq!(parse_failure("MATCH (n) CREATE (m) RETURN n").1, 10);
}

#[test]
fn unknown_relationship_type() {
    assert_eq!(
        failure("MATCH (a)-[:KNOWS]->(b)-[:HATES]->(c) RETURN a"),
        "unknown relationship type `HATES`"
    );
    assert_eq!(
        failure("MATCH (a:Ghost)-[:HATES]->(b) RETURN a"),
        "unknown relationship type `HATES`"
    );
}

#[test]
fn functions_with_wrong_arguments() {
    assert_eq!(failure("MATCH (a) RETURN nope(a)"), "unknown function `nope`");
    assert_eq!(failure("MATCH (a) RETURN size(a, a)"), "`size` expects exactly one argument");
    assert_eq!(failure("MATCH (a) RETURN toLower()"), "`toLower` expects exactly one argument");
    assert_eq!(failure("MATCH (a) RETURN toLower(1)"), "`toLower` expects a string argument");
    assert_eq!(failure("MATCH (a) RETURN toUpper(a)"), "`toUpper` expects a string argument");
    assert_eq!(failure("MATCH (a) RETURN size(1)"), "`size` expects a string or list argument");
    assert_eq!(failure("MATCH (a) RETURN labels('x')"), "`labels` expects a node argument");
    assert_eq!(failure("MATCH (a) RETURN coalesce()"), "`coalesce` requires at least one argument");
}

#[test]
fn aggregates_outside_projections() {
    assert_eq!(
        failure("MATCH (a) WHERE count(a) > 1 RETURN a"),
        "aggregate functions are only allowed in WITH or RETURN projections"
    );
    assert_eq!(failure("MATCH (a) RETURN size(collect(a))"), "expected an aggregate function");
    assert_eq!(
        failure("MATCH (a) RETURN count(count(a))"),
        "aggregate functions are only allowed in WITH or RETURN projections"
    );
}

#[test]
fn a_list_evaluated_beforehand_fails_even_if_no_row_needs_it() {
    assert_eq!(
        failure("MATCH (a {name: 'a'}) MATCH (b) WHERE false AND b.name IN [nope(a)] RETURN b"),
        "unknown function `nope`"
    );
}

#[test]
fn nothing_is_evaluated_beforehand_without_rows_or_constant_variables() {
    let g = people();
    let query = parse("MATCH (a) WHERE false AND 1 IN [nope()] RETURN a").unwrap();
    let Clause::Match(clause) = &query.clauses[0] else {
        panic!("expected a MATCH");
    };
    let predicate = clause.where_clause.as_ref().unwrap();
    let mut executor = Executor::new(&g);
    let a = "a".to_string();
    let row = || Row::new().with(&"a".to_string(), Binding::Node(0usize));
    let kept = executor.filter_rows_hoisted(vec![row(), row()], predicate, &vec![]);
    assert_eq!(kept.unwrap().len(), 0);
    let kept = executor.filter_rows_hoisted(vec![], predicate, &vec![a.clone()]);
    assert_eq!(kept.unwrap().len(), 0);
    assert!(executor.filter_rows_hoisted(vec![row()], predicate, &vec![a]).is_err());
}

#[test]
fn projections_that_cannot_be_made() {
    assert_eq!(failure("MATCH () RETURN *"), "`*` requires at least one variable in scope");
    assert_eq!(failure("UNWIND 1 AS x RETURN x"), "UNWIND expects a list");
    assert_eq!(
        failure("MATCH (a) RETURN a.name ORDER BY a.age"),
        "ORDER BY expression `a.age` must also appear in the projection"
    );
}

#[test]
fn a_query_that_never_reaches_an_error_succeeds() {
    let g = people();
    let query = "MATCH (a:Ghost) WHERE nope(a) RETURN a";
    assert_eq!(execute(&g, &parse(query).unwrap()).unwrap().rows.len(), 0);
}

#[test]
fn run_query_hands_on_the_errors() {
    let g = people();
    assert!(matches!(
        run_query(&g, "MATCH (n", OutputFormat::Json),
        Err(CypherError::Parse { position: 8, .. })
    ));
    assert!(matches!(
        run_query(&g, "MATCH (n) ~", OutputFormat::Json),
        Err(CypherError::Lex { position: 10, .. })
    ));
    assert!(matches!(
        run_query(&g, "MATCH (n) RETURN nope(n)", OutputFormat::Table),
        Err(CypherError::Execution { .. })
    ));
}
