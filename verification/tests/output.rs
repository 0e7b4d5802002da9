//! How values and results are computed and rendered.

use std::cmp::Ordering;
use std::collections::HashMap;

use cypher_parser::ast::{AggFn, CmpOp};
use cypher_parser::value::write_json_string;
use cypher_parser::{execute, parse, run_query, CypherValue, GraphProvider, OutputFormat};

/// A graph of named nodes with one label each and integer or text properties.
#[derive(Default)]
struct Graph {
    nodes: Vec<(String, String)>,
    props: HashMap<(usize, String), CypherValue>,
    edges: Vec<(usize, String, usize)>,
}

impl Graph {
    fn node(&mut self, label: &str, name: &str) -> usize {
        self.nodes.push((label.to_string(), name.to_string()));
        self.nodes.len() - 1
    }

    fn prop(&mut self, node: usize, key: &str, value: CypherValue) {
        self.props.insert((node, key.to_string()), value);
    }

    fn edge(&mut self, from: usize, rel: &str, to: usize) {
        self.edges.push((from, rel.to_string(), to));
    }
}

impl GraphProvider for Graph {
    type NodeId = usize;

    fn scan(&self, labels: &[String]) -> Vec<usize> {
        (0..self.nodes.len())
            .filter(|n| labels.is_empty() || labels.iter().any(|l| self.matches_label(*n, l)))
            .collect()
    }

    fn matches_label(&self, node: usize, label: &str) -> bool {
        self.nodes[node].0 == label
    }

    fn relationship_types(&self) -> Vec<String> {
        vec!["KNOWS".to_string(), "LIKES".to_string()]
    }

    fn expand(&self, node: usize, rel_type: &str) -> Vec<usize> {
        self.edges
            .iter()
            .filter(|e| e.0 == node && e.1 == rel_type)
            .map(|e| e.2)
            .collect()
    }

    fn rel_sources(&self, _rel_type: &str) -> Vec<usize> {
        (0..self.nodes.len()).collect()
    }

    fn property(&self, node: usize, prop: &str) -> CypherValue {
        if prop == "name" {
            return CypherValue::Str(self.nodes[node].1.clone());
        }
        self.props
            .get(&(node, prop.to_string()))
            .cloned()
            .unwrap_or(CypherValue::Null)
    }

    fn node_id(&self, node: usize) -> String {
        format!("node:{node}")
    }

    fn label(&self, node: usize) -> String {
        self.nodes[node].0.clone()
    }

    fn name(&self, node: usize) -> String {
        self.nodes[node].1.clone()
    }
}

/// A chain a -> b -> c -> d of KNOWS with a shortcut a -> c, a cycle back from d to a, and
/// LIKES from a to d. The ages are 30, 20, 20 and none.
fn people() -> Graph {
    let mut g = Graph::default();
    let a = g.node("Person", "a");
    let b = g.node("Person", "b");
    let c = g.node("Person", "c");
    let d = g.node("Robot", "d");
    g.prop(a, "age", CypherValue::Int(30));
    g.prop(b, "age", CypherValue::Int(20));
    g.prop(c, "age", CypherValue::Int(20));
    g.edge(a, "KNOWS", b);
    g.edge(b, "KNOWS", c);
    g.edge(a, "KNOWS", c);
    g.edge(c, "KNOWS", d);
    g.edge(d, "KNOWS", a);
    g.edge(a, "LIKES", d);
    g
}

/// The rows of a query, each value as plain text.
fn rows(g: &Graph, query: &str) -> Vec<Vec<String>> {
    let result = execute(g, &parse(query).unwrap()).unwrap();
    result
        .rows
        .iter()
        .map(|row| row.iter().map(CypherValue::to_display_string).collect())
        .collect()
}

/// The only column of a query, each value as plain text.
fn column(g: &Graph, query: &str) -> Vec<String> {
    rows(g, query).into_iter().map(|mut row| row.remove(0)).collect()
}

fn text(s: &str) -> CypherValue {
    CypherValue::Str(s.to_string())
}

/// The value of an expression, given as its plain text.
fn value(expr: &str) -> String {
    let g = people();
    column(&g, &format!("MATCH (x {{name: 'a'}}) RETURN {expr}")).remove(0)
}

#[test]
fn a_table_has_aligned_columns() {
    let g = people();
    let table = run_query(&g, "MATCH (x:Person) RETURN x.name AS name, x.age", OutputFormat::Table).unwrap();
    assert_eq!(table, "name | x.age\n-----+------\na    | 30   \nb    | 20   \nc    | 20   \n");
    let empty = run_query(&g, "MATCH (x:Ghost) RETURN x, 1 AS one", OutputFormat::Table).unwrap();
    assert_eq!(empty, "x | one\n--+----\n");
}

#[test]
fn json_has_one_object_for_each_row() {
    let g = people();
    assert_eq!(
        run_query(&g, "MATCH (x) WHERE x.name <> 'b' RETURN x.name AS n, x.age", OutputFormat::Json).unwrap(),
        "[{\"n\":\"a\",\"x.age\":30},{\"n\":\"c\",\"x.age\":20},{\"n\":\"d\",\"x.age\":null}]"
    );
    assert_eq!(run_query(&g, "MATCH (x:Ghost) RETURN x", OutputFormat::Json).unwrap(), "[]");
}

#[test]
fn json_escapes_texts() {
    let mut g = Graph::default();
    let n = g.node("T", "t");
    g.prop(n, "s", text("a\"b\\c\n\r\t\u{1}\u{1f}\u{e9}/"));
    assert_eq!(
        run_query(&g, "MATCH (x) RETURN x.s AS s", OutputFormat::Json).unwrap(),
        "[{\"s\":\"a\\\"b\\\\c\\n\\r\\t\\u0001\\u001f\u{e9}/\"}]"
    );
}

#[test]
fn json_of_nested_values() {
    let g = people();
    assert_eq!(
        run_query(
            &g,
            "MATCH (x {name: 'a'}) RETURN x {.name, none: x.none, list: [1, true, 'z']} AS m",
            OutputFormat::Json
        )
        .unwrap(),
        "[{\"m\":{\"name\":\"a\",\"none\":null,\"list\":[1,true,\"z\"]}}]"
    );
}

#[test]
fn plain_texts_of_values() {
    assert_eq!(CypherValue::Null.to_display_string(), "");
    assert_eq!(CypherValue::Bool(true).to_display_string(), "true");
    assert_eq!(CypherValue::Int(i64::MIN).to_display_string(), "-9223372036854775808");
    assert_eq!(CypherValue::Int(i64::MAX).to_display_string(), "9223372036854775807");
    assert_eq!(CypherValue::Int(0).to_display_string(), "0");
    let list = CypherValue::List(vec![CypherValue::Int(1), text("x"), CypherValue::Null]);
    assert_eq!(list.to_display_string(), "[1, x, ]");
    let map = CypherValue::Mapping(vec![("k".to_string(), list)]);
    assert_eq!(map.to_display_string(), "{k: [1, x, ]}");
}

#[test]
fn truth_of_values() {
    assert!(!CypherValue::Null.is_truthy());
    assert!(!CypherValue::Bool(false).is_truthy());
    assert!(CypherValue::Bool(true).is_truthy());
    assert!(CypherValue::Int(0).is_truthy());
    assert!(text("").is_truthy());
    assert_eq!(CypherValue::Int(4).as_int(), Some(4));
    assert_eq!(text("4").as_int(), None);
    assert_eq!(text("4").as_str(), Some("4"));
    assert_eq!(CypherValue::Int(4).as_str(), None);
}

#[test]
fn letter_case_functions() {
    assert_eq!(value("toUpper('abC\u{df}\u{e9}1')"), "ABCSS\u{c9}1");
    assert_eq!(value("toLower('ABc\u{c9}\u{130}')"), "abc\u{e9}i\u{307}");
    assert_eq!(value("TOUPPER('x')"), "X");
    assert_eq!(value("toUpper(x.none)"), "");
    assert_eq!(value("toLower(null)"), "");
}

#[test]
fn scalar_functions_of_values() {
    assert_eq!(value("size('h\u{e9}y')"), "3");
    assert_eq!(value("size([1, 2])"), "2");
    assert_eq!(value("size(null)"), "");
    assert_eq!(value("labels(x)"), "[Person]");
    assert_eq!(value("coalesce(null, x.none, 7, 8)"), "7");
    assert_eq!(value("coalesce(null)"), "");
}

#[test]
fn comparisons() {
    assert_eq!(value("1 < 2"), "true");
    assert_eq!(value("2 <= 1"), "false");
    assert_eq!(value("'b' > 'a'"), "true");
    assert_eq!(value("'a' >= 'b'"), "false");
    assert_eq!(value("1 = 1"), "true");
    assert_eq!(value("1 <> 1"), "false");
    assert_eq!(value("'abc' CONTAINS 'b'"), "true");
    assert_eq!(value("'abc' STARTS WITH 'b'"), "false");
    assert_eq!(value("'abc' ENDS WITH 'bc'"), "true");
    assert_eq!(value("2 IN [1, 2]"), "true");
    assert_eq!(value("3 IN [1, 2]"), "false");
    assert_eq!(value("x.none IS NULL"), "true");
    assert_eq!(value("x.none IS NOT NULL"), "false");
}

#[test]
fn connectives() {
    assert_eq!(value("true AND NOT false OR false"), "true");
    assert_eq!(value("NOT (true OR false)"), "false");
    assert_eq!(value("false OR false AND true"), "false");
}

#[test]
fn case_picks_the_first_branch_that_fits() {
    assert_eq!(value("CASE x.age WHEN 20 THEN 'low' WHEN 30 THEN 'high' END"), "high");
    assert_eq!(value("CASE WHEN x.age < 10 THEN 'low' WHEN true THEN 'rest' ELSE 'none' END"), "rest");
    assert_eq!(value("CASE x.age WHEN 1 THEN 'one' ELSE 'other' END"), "other");
    assert_eq!(value("CASE x.age WHEN 1 THEN 'one' END"), "");
}

#[test]
fn sums_wrap_around() {
    let g = people();
    assert_eq!(
        column(&g, "UNWIND [9223372036854775807, 1] AS i RETURN sum(i)"),
        ["-9223372036854775808"]
    );
}

#[test]
fn words_of_the_language_have_no_case() {
    let g = people();
    assert_eq!(
        column(&g, "match (x:Person) where x.age = 20 Return x.name as n Order By n desc limit 1"),
        ["c"]
    );
}

#[test]
fn column_names_are_the_expressions() {
    let g = people();
    let result = execute(
        &g,
        &parse("MATCH (x) RETURN x.name, count(*), count(DISTINCT x.age), toLower('A'), x.age = 1, x.age AS years").unwrap(),
    )
    .unwrap();
    assert_eq!(
        result.columns,
        ["x.name", "count(*)", "count(DISTINCT x.age)", "toLower('A')", "x.age = 1", "years"]
    );
}

#[test]
fn order_of_values() {
    let list = |items: &[i64]| CypherValue::List(items.iter().map(|i| CypherValue::Int(*i)).collect());
    let map = |key: &str, i: i64| CypherValue::Mapping(vec![(key.to_string(), CypherValue::Int(i))]);
    assert_eq!(text("a").total_cmp(&text("b")), Ordering::Less);
    assert_eq!(text("b").total_cmp(&text("a")), Ordering::Greater);
    assert_eq!(text("a").total_cmp(&text("aa")), Ordering::Less);
    assert_eq!(CypherValue::Null.total_cmp(&CypherValue::Null), Ordering::Equal);
    assert_eq!(CypherValue::Null.total_cmp(&CypherValue::Int(0)), Ordering::Greater);
    assert_eq!(text("9").total_cmp(&CypherValue::Int(1)), Ordering::Less);
    assert_eq!(list(&[1, 2]).total_cmp(&list(&[1, 3])), Ordering::Less);
    assert_eq!(list(&[1, 2]).total_cmp(&list(&[1])), Ordering::Greater);
    assert_eq!(map("a", 2).total_cmp(&map("b", 1)), Ordering::Less);
    assert_eq!(map("a", 2).total_cmp(&map("a", 1)), Ordering::Greater);
    let node = |id: &str| CypherValue::Node {
        id: id.to_string(),
        label: "L".to_string(),
        name: "n".to_string(),
    };
    assert_eq!(node("1").total_cmp(&node("2")), Ordering::Equal);
    assert_ne!(node("1"), node("2"));
}

#[test]
fn min_takes_the_first_and_max_the_last_of_equal_values() {
    let mut g = Graph::default();
    g.node("T", "same");
    g.node("T", "same");
    let result = execute(&g, &parse("MATCH (x) RETURN min(x), max(x)").unwrap()).unwrap();
    let ids: Vec<&str> = result.rows[0]
        .iter()
        .map(|v| match v {
            CypherValue::Node { id, .. } => id.as_str(),
            _ => "",
        })
        .collect();
    assert_eq!(ids, ["node:0", "node:1"]);
}

#[test]
fn json_is_appended() {
    let mut out = String::from("x");
    CypherValue::List(vec![CypherValue::Bool(false), CypherValue::Null]).write_json(&mut out);
    assert_eq!(out, "x[false,null]");
    write_json_string(&mut out, "\u{8}");
    assert_eq!(out, "x[false,null]\"\\u0008\"");
}

#[test]
fn names_of_operators_and_functions() {
    assert_eq!(CmpOp::Neq.as_str(), "<>");
    assert_eq!(CmpOp::StartsWith.as_str(), "STARTS WITH");
    assert_eq!(AggFn::Collect.as_str(), "collect");
    assert_eq!(AggFn::Avg.as_str(), "avg");
}

#[test]
fn names_of_parsed_expressions() {
    let query = parse(
        "MATCH (c:Class)-[:INHERITS*1..]->(p:Class {name: 'Base'}) \
         WHERE c.name CONTAINS 'Service' \
         RETURN c.name, count(*) AS total, [1, 'a'], c.x IS NOT NULL, NOT true AND c.a <= -1 \
         ORDER BY total DESC LIMIT 10",
    )
    .unwrap();
    let names: Vec<String> = query.result.items.iter().map(|item| item.column_name()).collect();
    assert_eq!(
        names,
        ["c.name", "total", "[1, 'a']", "c.x IS NOT NULL", "NOT true AND c.a <= -1"]
    );
    assert!(query.result.items[1].expr.contains_aggregate());
    assert!(!query.result.items[0].expr.contains_aggregate());
    assert_eq!(query.result.items[1].expr.display_name(), "count(*)");
}
