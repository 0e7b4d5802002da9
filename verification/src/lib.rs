//! A hand-written lexer, recursive-descent parser, and tree-walking executor for a practical subset
//! of the [Cypher](https://opencypher.org/) graph query language.
//!
//! The crate has two layers:
//!
//! 1. **Parsing** ([`parse`]) turns a query string into a [`Query`] AST (or a positioned
//!    [`CypherError`]). This layer is execution-agnostic.
//! 2. **Execution** ([`execute`] / [`run_query`]) evaluates a parsed query against any backend that
//!    implements the [`GraphProvider`] trait, producing a [`ResultSet`] that can be rendered as a
//!    table or JSON via [`OutputFormat`]. The executor is generic and reads the graph only through
//!    that trait.
//!
//! Each executable type has a model made of sequences and maps, and what the functions do is stated
//! over these models: [`grammar::parsed`] says which query a text stands for,
//! [`executor::query_result`] what a query gives on a graph, and [`format::formatted`] how a result
//! is rendered.

pub mod aggregate;
pub mod analysis;
pub mod answers;
pub mod ast;
pub mod bags;
pub mod clauses;
pub mod compare;
pub mod comparing;
pub mod conditions;
pub mod error;
pub mod eval;
pub mod evaluator;
pub mod executor;
pub mod finalize;
pub mod finishing;
pub mod fitting;
pub mod format;
pub mod forms;
pub mod grammar;
pub mod grouping;
pub mod headings;
pub mod hoist;
pub mod json;
pub mod layout;
pub mod lexer;
pub mod matcher;
pub mod naming;
pub mod order;
pub mod parser;
pub mod paths;
pub mod pattern;
pub mod phrases;
pub mod project;
pub mod provider;
pub mod pushdown;
pub mod reading;
pub mod rendering;
pub mod repeats;
pub mod rereading;
pub mod row;
pub mod safety;
pub mod scopes;
pub mod sentences;
pub mod seqs;
pub mod spelling;
pub mod subqueries;
pub mod tallies;
pub mod text;
pub mod value;
pub mod value_index;
pub mod walks;
pub mod writing;

pub use ast::Query;
pub use error::CypherError;
pub use executor::{execute, ResultSet};
pub use format::OutputFormat;
pub use parser::parse;
pub use provider::GraphProvider;
pub use value::CypherValue;

use error::ErrorModel;
use executor::query_result;
use format::formatted;
use grammar::parsed;
use provider::lawful_nodes;
use text::Text;
use vstd::prelude::*;

verus! {

/// The rendered result of a query text on a graph.
pub open spec fn query_output<G: GraphProvider>(
    graph: &G,
    query: Text,
    output_format: OutputFormat,
) -> Result<Text, ErrorModel> {
    match parsed(query) {
        Err(e) => Err(e),
        Ok(q) => match query_result(graph, q) {
            Err(e) => Err(e),
            Ok(result) => Ok(formatted(result, output_format)),
        },
    }
}

/// Parses and executes a query against a [`GraphProvider`], returning the formatted output.
///
/// # Errors
///
/// Returns a [`CypherError`] if the query cannot be parsed or executed.
pub fn run_query<G: GraphProvider>(graph: &G, query: &str, output_format: OutputFormat) -> (r:
    Result<String, CypherError>)
    requires
        lawful_nodes::<G>(),
    ensures
        match query_output(graph, query@, output_format) {
            Ok(text) => r is Ok && r->Ok_0@ == text,
            Err(e) => r is Err && r->Err_0@ == e,
        },
{
    let query = match parse(query) {
        Ok(query) => query,
        Err(e) => {
            return Err(e);
        },
    };
    match execute(graph, &query) {
        Ok(result) => Ok(format::format(&result, output_format)),
        Err(e) => Err(e),
    }
}

} // verus!
