//! What holds of every query, on concrete graphs.

use std::collections::HashMap;

use cypher_parser::analysis::collect_vars;
use cypher_parser::ast::{Clause, Direction};
use cypher_parser::pattern::reverse_path;
use cypher_parser::{execute, parse, run_query, CypherValue, GraphProvider, OutputFormat};

/// A graph of named nodes with one label each and integer or text properties.
#[derive(Default)]
struct Graph {
    nodes: Vec<(String, String)>,
    props: HashMap<(usize, String), CypherValue>,
    edges: Vec<(usize, String, usize)>,
}

impl Graph {
    fn node(&mut self, label: &str, name: &str) -> usize {
        self.nodes.push((label.to_string(), name.to_string()));
        self.nodes.len() - 1
    }

    fn prop(&mut self, node: usize, key: &str, value: CypherValue) {
        self.props.insert((node, key.to_string()), value);
    }

    fn edge(&mut self, from: usize, rel: &str, to: usize) {
        self.edges.push((from, rel.to_string(), to));
    }
}

impl GraphProvider for Graph {
    type NodeId = usize;

    fn scan(&self, labels: &[String]) -> Vec<usize> {
        (0..self.nodes.len())
            .filter(|n| labels.is_empty() || labels.iter().any(|l| self.matches_label(*n, l)))
            .collect()
    }

    fn matches_label(&self, node: usize, label: &str) -> bool {
        self.nodes[node].0 == label
    }

    fn relationship_types(&self) -> Vec<String> {
        vec!["KNOWS".to_string(), "LIKES".to_string()]
    }

    fn expand(&self, node: usize, rel_type: &str) -> Vec<usize> {
        self.edges
            .iter()
            .filter(|e| e.0 == node && e.1 == rel_type)
            .map(|e| e.2)
            .collect()
    }

    fn rel_sources(&self, _rel_type: &str) -> Vec<usize> {
        (0..self.nodes.len()).collect()
    }

    fn property(&self, node: usize, prop: &str) -> CypherValue {
        if prop == "name" {
            return CypherValue::Str(self.nodes[node].1.clone());
        }
        self.props
            .get(&(node, prop.to_string()))
            .cloned()
            .unwrap_or(CypherValue::Null)
    }

    fn node_id(&self, node: usize) -> String {
        format!("node:{node}")
    }

    fn label(&self, node: usize) -> String {
        self.nodes[node].0.clone()
    }

    fn name(&self, node: usize) -> String {
        self.nodes[node].1.clone()
    }
}

/// A chain a -> b -> c -> d of KNOWS with a shortcut a -> c, a cycle back from d to a, and
/// LIKES from a to d. The ages are 30, 20, 20 and none.
fn people() -> Graph {
    let mut g = Graph::default();
    let a = g.node("Person", "a");
    let b = g.node("Person", "b");
    let c = g.node("Person", "c");
    let d = g.node("Robot", "d");
    g.prop(a, "age", CypherValue::Int(30));
    g.prop(b, "age", CypherValue::Int(20));
    g.prop(c, "age", CypherValue::Int(20));
    g.edge(a, "KNOWS", b);
    g.edge(b, "KNOWS", c);
    g.edge(a, "KNOWS", c);
    g.edge(c, "KNOWS", d);
    g.edge(d, "KNOWS", a);
    g.edge(a, "LIKES", d);
    g
}

/// The rows of a query, each value as plain text.
fn rows(g: &Graph, query: &str) -> Vec<Vec<String>> {
    let result = execute(g, &parse(query).unwrap()).unwrap();
    result
        .rows
        .iter()
        .map(|row| row.iter().map(CypherValue::to_display_string).collect())
        .collect()
}

/// The only column of a query, each value as plain text.
fn column(g: &Graph, query: &str) -> Vec<String> {
    rows(g, query).into_iter().map(|mut row| row.remove(0)).collect()
}

fn sorted(mut values: Vec<String>) -> Vec<String> {
    values.sort();
    values
}

#[test]
fn a_single_hop_follows_each_edge_once() {
    let g = people();
    assert_eq!(
        rows(&g, "MATCH (x)-[:KNOWS]->(y) RETURN x.name, y.name"),
        [["a", "b"], ["a", "c"], ["b", "c"], ["c", "d"], ["d", "a"]]
    );
}

#[test]
fn a_hop_without_types_follows_all_of_them() {
    let g = people();
    assert_eq!(column(&g, "MATCH (x {name: 'a'})-->(y) RETURN y.name"), ["b", "c", "d"]);
    assert_eq!(
        column(&g, "MATCH (x {name: 'a'})-[:LIKES|KNOWS]->(y) RETURN y.name"),
        ["d", "b", "c"]
    );
}

#[test]
fn an_incoming_hop_is_an_outgoing_hop_from_the_other_end() {
    let g = people();
    let forward = rows(&g, "MATCH (x)-[:KNOWS]->(y) RETURN x.name, y.name");
    let mut backward = rows(&g, "MATCH (y)<-[:KNOWS]-(x) RETURN x.name, y.name");
    backward.sort();
    assert_eq!(forward, backward);
}

#[test]
fn an_undirected_hop_goes_both_ways() {
    let g = people();
    assert_eq!(
        sorted(column(&g, "MATCH (x {name: 'a'})-[:KNOWS]-(y) RETURN y.name")),
        ["b", "c", "d"]
    );
}

#[test]
fn a_variable_length_hop_leads_to_nodes_at_those_distances() {
    let g = people();
    let from_a = "MATCH (x {name: 'a'})-[:KNOWS";
    assert_eq!(column(&g, &format!("{from_a}*1]->(y) RETURN y.name")), ["b", "c"]);
    assert_eq!(column(&g, &format!("{from_a}*2]->(y) RETURN y.name")), ["d"]);
    assert_eq!(column(&g, &format!("{from_a}*2..3]->(y) RETURN y.name")), ["d"]);
    assert_eq!(column(&g, &format!("{from_a}*]->(y) RETURN y.name")), ["b", "c", "d"]);
    assert_eq!(column(&g, &format!("{from_a}*0..1]->(y) RETURN y.name")), ["a", "b", "c"]);
    assert_eq!(column(&g, &format!("{from_a}*..2]->(y) RETURN y.name")), ["b", "c", "d"]);
}

#[test]
fn the_end_a_path_is_walked_from_does_not_matter() {
    let g = people();
    let bound_end = "MATCH (y {name: 'd'}) MATCH (x)-[:KNOWS]->(m)-[:KNOWS]->(y) RETURN x.name, m.name";
    let free_end = "MATCH (x)-[:KNOWS]->(m)-[:KNOWS]->(y {name: 'd'}) RETURN x.name, m.name";
    let mut one = rows(&g, bound_end);
    let mut other = rows(&g, free_end);
    one.sort();
    other.sort();
    assert_eq!(one, other);
    assert_eq!(one, [["a", "c"], ["b", "c"]]);
}

#[test]
fn matching_keeps_the_bindings_of_a_row() {
    let g = people();
    assert_eq!(
        rows(&g, "MATCH (x {name: 'a'}) MATCH (x)-[:KNOWS]->(y) MATCH (y)-[:KNOWS]->(z) RETURN x.name, y.name, z.name"),
        [["a", "b", "c"], ["a", "c", "d"]]
    );
}

#[test]
fn optional_match_keeps_every_row() {
    let g = people();
    assert_eq!(
        rows(&g, "MATCH (x) OPTIONAL MATCH (x)-[:LIKES]->(y) RETURN x.name, y.name"),
        [["a", "d"], ["b", ""], ["c", ""], ["d", ""]]
    );
    assert_eq!(
        rows(&g, "MATCH (x) OPTIONAL MATCH (x)-[:KNOWS]->(y) WHERE y.age > 20 RETURN x.name, y.name"),
        [["a", ""], ["b", ""], ["c", ""], ["d", "a"]]
    );
}

#[test]
fn early_filtering_changes_nothing() {
    let g = people();
    let filtered = "MATCH (x)-[:KNOWS]->(y) MATCH (y)-[:KNOWS]->(z) WHERE x.age = 30 AND z.age = 20 RETURN x.name, y.name, z.name";
    let late = "MATCH (x)-[:KNOWS]->(y) MATCH (y)-[:KNOWS]->(z) WITH x, y, z WHERE x.age = 30 AND z.age = 20 RETURN x.name, y.name, z.name";
    assert_eq!(rows(&g, filtered), [["a", "b", "c"]]);
    assert_eq!(rows(&g, filtered), rows(&g, late));
}

#[test]
fn lists_evaluated_beforehand_change_nothing() {
    let g = people();
    let hoisted = "MATCH (x) WITH collect(x.age) AS ages MATCH (y) WHERE y.age IN ages RETURN y.name";
    assert_eq!(column(&g, hoisted), ["a", "b", "c"]);
    let negated = "MATCH (x {name: 'a'}) WITH collect(x.age) AS ages MATCH (y:Person) WHERE NOT y.age IN ages RETURN y.name";
    assert_eq!(column(&g, negated), ["b", "c"]);
}

#[test]
fn sorting_orders_and_is_stable() {
    let g = people();
    assert_eq!(column(&g, "MATCH (x) RETURN x.name, x.age ORDER BY x.age"), ["b", "c", "a", "d"]);
    assert_eq!(column(&g, "MATCH (x) RETURN x.name, x.age ORDER BY x.age DESC"), ["d", "a", "b", "c"]);
    assert_eq!(
        column(&g, "MATCH (x) RETURN x.name AS n, x.age AS age ORDER BY age ASC, n DESC"),
        ["c", "b", "a", "d"]
    );
}

#[test]
fn skip_and_limit_cut_the_sorted_rows() {
    let g = people();
    let base = "MATCH (x) RETURN x.name AS n ORDER BY n";
    assert_eq!(column(&g, &format!("{base} SKIP 1 LIMIT 2")), ["b", "c"]);
    assert_eq!(column(&g, &format!("{base} SKIP 9")), [""; 0]);
    assert_eq!(column(&g, &format!("{base} LIMIT 0")), [""; 0]);
    assert_eq!(column(&g, &format!("{base} LIMIT 9")), ["a", "b", "c", "d"]);
}

#[test]
fn distinct_keeps_the_first_of_equal_rows() {
    let g = people();
    assert_eq!(column(&g, "MATCH (x) RETURN DISTINCT x.age"), ["30", "20", ""]);
    assert_eq!(rows(&g, "MATCH (x) RETURN count(DISTINCT x.age), count(x.age), count(*)"), [["2", "3", "4"]]);
}

#[test]
fn aggregates_of_a_group() {
    let g = people();
    assert_eq!(
        rows(&g, "MATCH (x) RETURN min(x.age), max(x.age), sum(x.age), avg(x.age), collect(x.name)"),
        [["20", "30", "70", "23", "[a, b, c, d]"]]
    );
    assert_eq!(
        rows(&g, "MATCH (x) RETURN x.age, count(*), collect(x.name)"),
        [["30", "1", "[a]"], ["20", "2", "[b, c]"], ["", "1", "[d]"]]
    );
    assert_eq!(
        rows(&g, "UNWIND [-7, 2] AS i RETURN sum(i), avg(i), min(i), max(i)"),
        [["-5", "-2", "-7", "2"]]
    );
}

#[test]
fn aggregates_over_nothing_give_one_row() {
    let g = people();
    assert_eq!(
        rows(&g, "MATCH (x:Ghost) RETURN count(*), count(x), sum(x.age), min(x.age), max(x.age), avg(x.age), collect(x)"),
        [["0", "0", "0", "", "", "", "[]"]]
    );
    assert_eq!(rows(&g, "MATCH (x:Ghost) RETURN x.name, count(*)").len(), 0);
}

#[test]
fn values_of_different_types_are_ordered_by_type() {
    let g = people();
    assert_eq!(
        column(&g, "UNWIND [null, 1, true, 'x', [2], false, -1, 'a'] AS v RETURN v ORDER BY v"),
        ["[2]", "a", "x", "false", "true", "-1", "1", ""]
    );
}

#[test]
fn a_result_has_one_value_for_each_column() {
    let g = people();
    let query = "MATCH (x)-[:KNOWS]->(y) WITH x, count(y) AS n WHERE n > 1 RETURN *";
    let result = execute(&g, &parse(query).unwrap()).unwrap();
    assert_eq!(result.columns, ["x", "n"]);
    assert_eq!(result.rows.len(), 1);
    let query = "MATCH (x) RETURN x.name, x.age, labels(x), x {.name}";
    let result = execute(&g, &parse(query).unwrap()).unwrap();
    assert_eq!(result.columns.len(), 4);
    assert!(result.rows.iter().all(|row| row.len() == 4));
}

#[test]
fn ids_separate_nodes_but_never_show() {
    let mut g = Graph::default();
    g.node("Thing", "same");
    g.node("Thing", "same");
    assert_eq!(rows(&g, "MATCH (x) RETURN DISTINCT x").len(), 2);
    let json = run_query(&g, "MATCH (x) RETURN x LIMIT 1", OutputFormat::Json).unwrap();
    assert_eq!(json, "[{\"x\":{\"label\":\"Thing\",\"name\":\"same\"}}]");
    let table = run_query(&g, "MATCH (x) RETURN x", OutputFormat::Table).unwrap();
    assert!(!table.contains("node:"));
}

#[test]
fn variables_of_a_clause_stay_in_scope_until_a_projection() {
    let g = people();
    let result = execute(&g, &parse("MATCH (x {name: 'a'}) OPTIONAL MATCH (x)-[:LIKES]->(y) UNWIND [1] AS i RETURN *").unwrap()).unwrap();
    assert_eq!(result.columns, ["x", "y", "i"]);
    let result = execute(&g, &parse("MATCH (x {name: 'a'}) WITH x.name AS n RETURN *").unwrap()).unwrap();
    assert_eq!(result.columns, ["n"]);
}

#[test]
fn exists_is_a_match_of_at_least_one_row() {
    let g = people();
    assert_eq!(column(&g, "MATCH (x) WHERE EXISTS { (x)-[:LIKES]->(y) } RETURN x.name"), ["a"]);
    assert_eq!(
        column(&g, "MATCH (x) WHERE NOT EXISTS { MATCH (x)-[:KNOWS]->(y) WHERE y.age = 20 } RETURN x.name"),
        ["c", "d"]
    );
}

#[test]
fn exists_is_membership_in_what_all_matches_collect() {
    let g = people();
    for path in ["(x)-[:LIKES]->(y)", "(y)-[:KNOWS*2..2]->(x)", "(x)--(y:Robot)", "(x:Robot)"] {
        for collect in ["collect(x)", "collect(DISTINCT x)"] {
            for not in ["", "NOT "] {
                let inside = format!("MATCH (x) WHERE {not}EXISTS {{ {path} }} RETURN x.name");
                let outside = format!(
                    "MATCH {path} WITH {collect} AS used MATCH (x) WHERE {not}x IN used RETURN x.name"
                );
                assert_eq!(column(&g, &inside), column(&g, &outside));
            }
        }
    }
    assert_eq!(column(&g, "MATCH (x) WHERE EXISTS { (x)--(y:Robot) } RETURN x.name"), ["a", "c"]);
}

#[test]
fn what_stands_between_tokens_does_not_matter() {
    let plain = parse("MATCH (n:Person) WHERE n.age < 3 RETURN n.name").unwrap();
    let spread = "MATCH // first\n(n :Person)/* a\nb */WHERE n . age<3\tRETURN\r\n  n.name // last";
    assert_eq!(parse(spread).unwrap(), plain);
    assert_eq!(parse("MATCH(n:Person)WHERE n.age<3 RETURN n.name").unwrap(), plain);
    assert_ne!(parse("MATCH (n:Person) WHERE n.age < 3 RETURN n.name AS x").unwrap(), plain);
}

#[test]
fn comment_signs_in_a_text_are_text() {
    let g = people();
    assert_eq!(column(&g, "MATCH (x {name: 'a'}) RETURN '// /* no */' AS t"), ["// /* no */"]);
}

#[test]
fn collected_variables_are_only_ever_added() {
    let query = parse(
        "MATCH (n) RETURN count(*) = 1 AND x, [a.p, count(*), b], toLower(c), \
         CASE WHEN count(*) THEN d ELSE e END, f {.p, k: g, l: count(*), m: i}",
    )
    .unwrap();
    let collect = |k: usize| {
        let mut out = vec!["old".to_string()];
        let plain = collect_vars(&query.result.items[k].expr, &mut out);
        (plain, out)
    };
    let names = |s: &[&str]| -> Vec<String> { s.iter().map(|n| (*n).to_string()).collect() };
    assert_eq!(collect(0), (false, names(&["old", "x"])));
    assert_eq!(collect(1), (false, names(&["old", "a"])));
    assert_eq!(collect(2), (true, names(&["old", "c"])));
    assert_eq!(collect(3), (false, names(&["old", "d", "e"])));
    assert_eq!(collect(4), (false, names(&["old", "f", "g"])));
}

#[test]
fn a_path_reversed_twice_is_the_path() {
    let query = parse("MATCH (a:A {k: 1})-[r:X|Y*2..3]->(b)<--(c)--(d) RETURN a").unwrap();
    let Clause::Match(clause) = &query.clauses[0] else {
        panic!("expected a MATCH");
    };
    let path = &clause.patterns[0];
    let back = reverse_path(path);
    assert_eq!(back.start, path.rest[2].1);
    assert_eq!(back.rest[2].1, path.start);
    assert_eq!(back.rest[0].0.direction, Direction::Both);
    assert_eq!(back.rest[1].0.direction, Direction::Outgoing);
    assert_eq!(back.rest[2].0.direction, Direction::Incoming);
    assert_eq!(back.rest[2].0.var, path.rest[0].0.var);
    assert_eq!(back.rest[2].0.types, path.rest[0].0.types);
    assert_eq!(back.rest[2].0.length, path.rest[0].0.length);
    assert_eq!(&reverse_path(&back), path);
}

#[test]
fn rows_come_equally_often_from_both_ends() {
    let mut g = Graph::default();
    let a = g.node("Start", "a");
    let b = g.node("End", "b");
    for name in ["m", "n", "o"] {
        let mid = g.node("Mid", name);
        g.edge(a, "KNOWS", mid);
        g.edge(mid, "KNOWS", b);
    }
    let forward = "MATCH (x:Start) MATCH (x)-[:KNOWS]->()-[:KNOWS]->(y:End) RETURN count(*), y.name";
    let backward = "MATCH (y:End) MATCH (x:Start)-[:KNOWS]->()-[:KNOWS]->(y) RETURN count(*), y.name";
    assert_eq!(rows(&g, forward), [["3", "b"]]);
    assert_eq!(rows(&g, backward), [["3", "b"]]);
}

#[test]
fn early_filtering_keeps_rows_that_disagree_on_their_ends() {
    let g = people();
    let shared = "MATCH (x) OPTIONAL MATCH (x)-[:LIKES]->(s) MATCH (y) MATCH (s)-[:KNOWS]->(m)-[:KNOWS]->(y)";
    let early = format!("{shared} WHERE x.age = 30 RETURN x.name, s.name, m.name, y.name");
    let late = format!("{shared} WITH x, s, m, y WHERE x.age = 30 RETURN x.name, s.name, m.name, y.name");
    let mut one = rows(&g, &early);
    let mut other = rows(&g, &late);
    one.sort();
    other.sort();
    assert_eq!(one, other);
    assert_eq!(one, [["a", "d", "a", "b"], ["a", "d", "a", "c"]]);
}

#[test]
fn graphs_with_the_same_answers_give_the_same_result() {
    let query = parse("MATCH (x)-[:KNOWS*1..3]-(y) RETURN x.name, collect(y.name), count(*)").unwrap();
    let first = execute(&people(), &query).unwrap();
    for _ in 0..5 {
        assert_eq!(execute(&people(), &query).unwrap(), first);
    }
}
