//! The value of an expression in a row.

use vstd::prelude::*;

use crate::ast::{ExprModel, MapEntryModel};
use crate::compare::{compares, equals};
use crate::error::{failure, prepend, ErrorModel};
use crate::pattern::{keep_all, literal_value, match_paths};
use crate::provider::GraphProvider;
use crate::row::{BindingModel, RowModel};
use crate::text::{ascii_lower, lowercase, uppercase, Text};
use crate::value::{truthy, ValueModel};

verus! {

/// A value, or the reason why there is none.
pub type Outcome = Result<ValueModel, ErrorModel>;

/// A graph node as a value.
pub open spec fn node_model<G: GraphProvider>(g: &G, node: G::NodeId) -> ValueModel {
    ValueModel::Node { id: g.id_text(node), label: g.label_text(node), name: g.name_text(node) }
}

/// A binding as a value.
pub open spec fn binding_model<G: GraphProvider>(
    g: &G,
    binding: BindingModel<G::NodeId>,
) -> ValueModel {
    match binding {
        BindingModel::Node(n) => node_model(g, n),
        BindingModel::Value(v) => v,
    }
}

/// The binding of a variable; an unbound variable is null.
pub open spec fn binding_of<N>(row: RowModel<N>, name: Text) -> BindingModel<N> {
    if row.contains_key(name) {
        row[name]
    } else {
        BindingModel::Value(ValueModel::Null)
    }
}

/// The property of what a variable stands for; anything but a node has none.
pub open spec fn property_model<G: GraphProvider>(
    g: &G,
    binding: BindingModel<G::NodeId>,
    prop: Text,
) -> ValueModel {
    match binding {
        BindingModel::Node(n) => g.prop_value(n, prop),
        BindingModel::Value(_) => ValueModel::Null,
    }
}

/// A length as an integer value; one that does not fit is the greatest integer.
pub open spec fn length_value(n: nat) -> ValueModel {
    ValueModel::Int(
        if n <= i64::MAX {
            n as i64
        } else {
            i64::MAX
        },
    )
}

/// What `toLower` (`lower`) or `toUpper` makes of a value; `name` is the name as it was written.
pub open spec fn change_case(name: Text, lower: bool, v: ValueModel) -> Outcome {
    match v {
        ValueModel::Null => Ok(ValueModel::Null),
        ValueModel::Str(s) => Ok(
            ValueModel::Str(
                if lower {
                    lowercase(s)
                } else {
                    uppercase(s)
                },
            ),
        ),
        _ => Err(failure("`"@ + name + "` expects a string argument"@)),
    }
}

/// What `size` makes of a value: the number of characters or of items.
pub open spec fn size_of(v: ValueModel) -> Outcome {
    match v {
        ValueModel::Null => Ok(ValueModel::Null),
        ValueModel::Str(s) => Ok(length_value(s.len())),
        ValueModel::List(items) => Ok(length_value(items.len())),
        _ => Err(failure("`size` expects a string or list argument"@)),
    }
}

/// What `labels` makes of a value: the list of its primary label.
pub open spec fn labels_of(v: ValueModel) -> Outcome {
    match v {
        ValueModel::Null => Ok(ValueModel::Null),
        ValueModel::Node { id, label, name } => Ok(ValueModel::List(seq![ValueModel::Str(label)])),
        _ => Err(failure("`labels` expects a node argument"@)),
    }
}

/// What a function of one argument makes of the value of its argument; `lower` is the name in
/// lower case.
pub open spec fn apply(name: Text, lower: Text, v: ValueModel) -> Outcome {
    if lower == "tolower"@ {
        change_case(name, true, v)
    } else if lower == "toupper"@ {
        change_case(name, false, v)
    } else if lower == "size"@ {
        size_of(v)
    } else {
        labels_of(v)
    }
}

/// Whether the name, in lower case, is that of a function of one argument.
pub open spec fn takes_one(lower: Text) -> bool {
    lower == "tolower"@ || lower == "toupper"@ || lower == "size"@ || lower == "labels"@
}

/// The value of an expression in a row. Evaluation goes from left to right and stops at the first
/// error; `AND` and `OR` stop when the left side decides.
pub open spec fn eval<G: GraphProvider>(g: &G, row: RowModel<G::NodeId>, e: ExprModel) -> Outcome
    decreases e, 0int,
{
    match e {
        ExprModel::Literal(l) => Ok(literal_value(l)),
        ExprModel::Var(name) => Ok(binding_model(g, binding_of(row, name))),
        ExprModel::Property(var, prop) => Ok(property_model(g, binding_of(row, var), prop)),
        ExprModel::Not(x) => match eval(g, row, *x) {
            Err(e) => Err(e),
            Ok(v) => Ok(ValueModel::Bool(!truthy(v))),
        },
        ExprModel::And(x, y) => match eval(g, row, *x) {
            Err(e) => Err(e),
            Ok(v) => if !truthy(v) {
                Ok(ValueModel::Bool(false))
            } else {
                match eval(g, row, *y) {
                    Err(e) => Err(e),
                    Ok(w) => Ok(ValueModel::Bool(truthy(w))),
                }
            },
        },
        ExprModel::Or(x, y) => match eval(g, row, *x) {
            Err(e) => Err(e),
            Ok(v) => if truthy(v) {
                Ok(ValueModel::Bool(true))
            } else {
                match eval(g, row, *y) {
                    Err(e) => Err(e),
                    Ok(w) => Ok(ValueModel::Bool(truthy(w))),
                }
            },
        },
        ExprModel::Compare(x, op, y) => match eval(g, row, *x) {
            Err(e) => Err(e),
            Ok(v) => match eval(g, row, *y) {
                Err(e) => Err(e),
                Ok(w) => Ok(ValueModel::Bool(compares(v, op, w))),
            },
        },
        ExprModel::List(items) => match eval_all(g, row, items, 0) {
            Err(e) => Err(e),
            Ok(values) => Ok(ValueModel::List(values)),
        },
        ExprModel::IsNull(x, negated) => match eval(g, row, *x) {
            Err(e) => Err(e),
            Ok(v) => Ok(ValueModel::Bool((v is Null) != negated)),
        },
        ExprModel::Exists { patterns, where_clause } => match match_paths(
            g,
            seq![row],
            patterns,
            0,
            keep_all(),
        ) {
            Err(e) => Err(e),
            Ok(rows) => match where_clause {
                None => Ok(ValueModel::Bool(rows.len() > 0)),
                Some(predicate) => match filter_from(g, rows, *predicate, 0) {
                    Err(e) => Err(e),
                    Ok(matched) => Ok(ValueModel::Bool(matched.len() > 0)),
                },
            },
        },
        ExprModel::Case { operand, branches, default } => {
            let picked = match operand {
                Some(subject) => match eval(g, row, *subject) {
                    Err(e) => Err(e),
                    Ok(v) => pick_branch(g, row, Some(v), branches, 0),
                },
                None => pick_branch(g, row, None, branches, 0),
            };
            match picked {
                Err(e) => Err(e),
                Ok(Some(v)) => Ok(v),
                Ok(None) => match default {
                    Some(d) => eval(g, row, *d),
                    None => Ok(ValueModel::Null),
                },
            }
        },
        ExprModel::Function { name, args } => {
            let lower = ascii_lower(name);
            if takes_one(lower) {
                if args.len() == 1 {
                    match eval(g, row, args[0]) {
                        Err(e) => Err(e),
                        Ok(v) => apply(name, lower, v),
                    }
                } else {
                    Err(failure("`"@ + name + "` expects exactly one argument"@))
                }
            } else if lower == "coalesce"@ {
                if args.len() == 0 {
                    Err(failure("`coalesce` requires at least one argument"@))
                } else {
                    first_value(g, row, args, 0)
                }
            } else {
                Err(failure("unknown function `"@ + name + "`"@))
            }
        },
        ExprModel::MapProjection { var, entries } => match binding_of(row, var) {
            BindingModel::Node(node) => match eval_entries(g, row, node, entries, 0) {
                Err(e) => Err(e),
                Ok(values) => Ok(ValueModel::Mapping(values)),
            },
            BindingModel::Value(_) => Ok(ValueModel::Null),
        },
        ExprModel::Aggregate { .. } => Err(
            failure("aggregate functions are only allowed in WITH or RETURN projections"@),
        ),
    }
}

/// The values of the expressions from position `i` on.
pub open spec fn eval_all<G: GraphProvider>(
    g: &G,
    row: RowModel<G::NodeId>,
    items: Seq<ExprModel>,
    i: int,
) -> Result<Seq<ValueModel>, ErrorModel>
    decreases items, items.len() - i,
{
    if i < 0 || i >= items.len() {
        Ok(Seq::empty())
    } else {
        match eval(g, row, items[i]) {
            Err(e) => Err(e),
            Ok(v) => prepend(seq![v], eval_all(g, row, items, i + 1)),
        }
    }
}

/// The first of the values of the expressions from position `i` on that is not null.
pub open spec fn first_value<G: GraphProvider>(
    g: &G,
    row: RowModel<G::NodeId>,
    items: Seq<ExprModel>,
    i: int,
) -> Outcome
    decreases items, items.len() - i,
{
    if i < 0 || i >= items.len() {
        Ok(ValueModel::Null)
    } else {
        match eval(g, row, items[i]) {
            Err(e) => Err(e),
            Ok(v) => if v is Null {
                first_value(g, row, items, i + 1)
            } else {
                Ok(v)
            },
        }
    }
}

/// The value of the first branch from position `i` on that applies: one whose condition equals the
/// subject or, without a subject, one whose condition holds.
pub open spec fn pick_branch<G: GraphProvider>(
    g: &G,
    row: RowModel<G::NodeId>,
    subject: Option<ValueModel>,
    branches: Seq<(ExprModel, ExprModel)>,
    i: int,
) -> Result<Option<ValueModel>, ErrorModel>
    decreases branches, branches.len() - i,
{
    if i < 0 || i >= branches.len() {
        Ok(None)
    } else {
        match eval(g, row, branches[i].0) {
            Err(e) => Err(e),
            Ok(v) => {
                let applies = match subject {
                    Some(s) => equals(s, v),
                    None => truthy(v),
                };
                if applies {
                    match eval(g, row, branches[i].1) {
                        Err(e) => Err(e),
                        Ok(w) => Ok(Some(w)),
                    }
                } else {
                    pick_branch(g, row, subject, branches, i + 1)
                }
            },
        }
    }
}

/// The entries of a map projection over a node, from position `i` on.
pub open spec fn eval_entries<G: GraphProvider>(
    g: &G,
    row: RowModel<G::NodeId>,
    node: G::NodeId,
    entries: Seq<MapEntryModel>,
    i: int,
) -> Result<Seq<(Text, ValueModel)>, ErrorModel>
    decreases entries, entries.len() - i,
{
    if i < 0 || i >= entries.len() {
        Ok(Seq::empty())
    } else {
        match entries[i] {
            MapEntryModel::Property(prop) => prepend(
                seq![(prop, g.prop_value(node, prop))],
                eval_entries(g, row, node, entries, i + 1),
            ),
            MapEntryModel::Literal(key, e) => match eval(g, row, e) {
                Err(e) => Err(e),
                Ok(v) => prepend(seq![(key, v)], eval_entries(g, row, node, entries, i + 1)),
            },
        }
    }
}

/// Those of the rows from position `i` on in which the predicate holds.
pub open spec fn filter_from<G: GraphProvider>(
    g: &G,
    rows: Seq<RowModel<G::NodeId>>,
    predicate: ExprModel,
    i: int,
) -> Result<Seq<RowModel<G::NodeId>>, ErrorModel>
    decreases predicate, 1 + rows.len() - i,
{
    if i < 0 || i >= rows.len() {
        Ok(Seq::empty())
    } else {
        match eval(g, rows[i], predicate) {
            Err(e) => Err(e),
            Ok(v) => if truthy(v) {
                prepend(seq![rows[i]], filter_from(g, rows, predicate, i + 1))
            } else {
                filter_from(g, rows, predicate, i + 1)
            },
        }
    }
}

} // verus!
