//! Laws of expressions: what variables, properties, conditions, functions, `CASE`, lists, maps and
//! subqueries stand for in a row.

use vstd::prelude::*;

use crate::ast::{ExprModel, LiteralModel, MapEntryModel, PathModel};
use crate::comparing::{gives, tells};
use crate::error::ErrorModel;
use crate::eval::{eval, eval_all, eval_entries, filter_from, first_value, pick_branch};
use crate::pattern::{keep_all, match_paths};
use crate::provider::GraphProvider;
use crate::row::{BindingModel, RowModel};
use crate::text::{ascii_lower, lowercase, uppercase, Text};
use crate::value::ValueModel;

verus! {

// ---- Names and literals --------------------------------------------------------------

/// A variable stands for the value or the node that it is bound to, and for null if it is not
/// bound. A node is shown by its id, its primary label and its name.
pub proof fn lemma_variable<G: GraphProvider>(g: &G, row: RowModel<G::NodeId>, name: Text)
    ensures
        !row.contains_key(name) ==> gives(g, row, ExprModel::Var(name), ValueModel::Null),
        row.contains_key(name) ==> match row[name] {
            BindingModel::Value(v) => gives(g, row, ExprModel::Var(name), v),
            BindingModel::Node(n) => gives(
                g,
                row,
                ExprModel::Var(name),
                ValueModel::Node {
                    id: g.id_text(n),
                    label: g.label_text(n),
                    name: g.name_text(n),
                },
            ),
        },
{
}

/// A property is what the graph says of the node; nothing else has properties.
pub proof fn lemma_property<G: GraphProvider>(
    g: &G,
    row: RowModel<G::NodeId>,
    name: Text,
    prop: Text,
)
    ensures
        row.contains_key(name) && row[name] is Node ==> gives(
            g,
            row,
            ExprModel::Property(name, prop),
            g.prop_value(row[name]->Node_0, prop),
        ),
        !(row.contains_key(name) && row[name] is Node) ==> gives(
            g,
            row,
            ExprModel::Property(name, prop),
            ValueModel::Null,
        ),
{
}

/// A literal stands for itself.
pub proof fn lemma_literal<G: GraphProvider>(
    g: &G,
    row: RowModel<G::NodeId>,
    s: Text,
    i: i64,
    b: bool,
)
    ensures
        gives(g, row, ExprModel::Literal(LiteralModel::Str(s)), ValueModel::Str(s)),
        gives(g, row, ExprModel::Literal(LiteralModel::Int(i)), ValueModel::Int(i)),
        gives(g, row, ExprModel::Literal(LiteralModel::Bool(b)), ValueModel::Bool(b)),
        gives(g, row, ExprModel::Literal(LiteralModel::Null), ValueModel::Null),
{
}

// ---- Conditions ----------------------------------------------------------------------

/// Whether a value counts as true: anything but null and `false`.
pub open spec fn counts(v: ValueModel) -> bool {
    v != ValueModel::Null && v != ValueModel::Bool(false)
}

/// `NOT`, `AND` and `OR` are negation, conjunction and disjunction of what counts as true.
pub proof fn lemma_connectives<G: GraphProvider>(
    g: &G,
    row: RowModel<G::NodeId>,
    x: ExprModel,
    y: ExprModel,
    a: ValueModel,
    b: ValueModel,
)
    requires
        gives(g, row, x, a),
        gives(g, row, y, b),
    ensures
        tells(g, row, ExprModel::Not(Box::new(x)), !counts(a)),
        tells(g, row, ExprModel::And(Box::new(x), Box::new(y)), counts(a) && counts(b)),
        tells(g, row, ExprModel::Or(Box::new(x), Box::new(y)), counts(a) || counts(b)),
{
}

/// `AND` and `OR` leave the right side alone where the left side decides; an error goes through.
pub proof fn lemma_connectives_stop<G: GraphProvider>(
    g: &G,
    row: RowModel<G::NodeId>,
    x: ExprModel,
    y: ExprModel,
)
    ensures
        eval(g, row, x) matches Ok(a) ==> !counts(a) ==> tells(
            g,
            row,
            ExprModel::And(Box::new(x), Box::new(y)),
            false,
        ),
        eval(g, row, x) matches Ok(a) ==> counts(a) ==> tells(
            g,
            row,
            ExprModel::Or(Box::new(x), Box::new(y)),
            true,
        ),
        eval(g, row, x) is Err ==> eval(g, row, ExprModel::Not(Box::new(x))) == eval(g, row, x)
            && eval(g, row, ExprModel::And(Box::new(x), Box::new(y))) == eval(g, row, x) && eval(
            g,
            row,
            ExprModel::Or(Box::new(x), Box::new(y)),
        ) == eval(g, row, x),
        eval(g, row, x) matches Ok(a) ==> counts(a) && eval(g, row, y) is Err ==> eval(
            g,
            row,
            ExprModel::And(Box::new(x), Box::new(y)),
        ) == eval(g, row, y),
        eval(g, row, x) matches Ok(a) ==> !counts(a) && eval(g, row, y) is Err ==> eval(
            g,
            row,
            ExprModel::Or(Box::new(x), Box::new(y)),
        ) == eval(g, row, y),
{
}

/// `IS NULL` is true of null alone, and `IS NOT NULL` of everything else.
pub proof fn lemma_is_null<G: GraphProvider>(
    g: &G,
    row: RowModel<G::NodeId>,
    x: ExprModel,
    a: ValueModel,
)
    requires
        gives(g, row, x, a),
    ensures
        tells(g, row, ExprModel::IsNull(Box::new(x), false), a == ValueModel::Null),
        tells(g, row, ExprModel::IsNull(Box::new(x), true), a != ValueModel::Null),
{
}

// ---- Filters -------------------------------------------------------------------------

/// Whether a predicate can be evaluated in every row.
pub open spec fn decided<G: GraphProvider>(
    g: &G,
    rows: Seq<RowModel<G::NodeId>>,
    predicate: ExprModel,
) -> bool {
    forall|i: int| 0 <= i < rows.len() ==> eval(g, #[trigger] rows[i], predicate) is Ok
}

/// The rows in which the value of a predicate counts as true.
pub open spec fn counting<G: GraphProvider>(
    g: &G,
    rows: Seq<RowModel<G::NodeId>>,
    predicate: ExprModel,
) -> Seq<RowModel<G::NodeId>> {
    rows.filter(|row: RowModel<G::NodeId>| counts(eval(g, row, predicate)->Ok_0))
}

/// A filter keeps exactly the rows in which the predicate counts as true, in their order.
pub proof fn lemma_filter<G: GraphProvider>(
    g: &G,
    rows: Seq<RowModel<G::NodeId>>,
    predicate: ExprModel,
)
    requires
        decided(g, rows, predicate),
    ensures
        filter_from(g, rows, predicate, 0) == Ok::<Seq<RowModel<G::NodeId>>, ErrorModel>(
            counting(g, rows, predicate),
        ),
{
    lemma_filter_rest(g, rows, predicate, 0);
    assert(rows.skip(0) =~= rows);
}

proof fn lemma_filter_rest<G: GraphProvider>(
    g: &G,
    rows: Seq<RowModel<G::NodeId>>,
    predicate: ExprModel,
    i: int,
)
    requires
        0 <= i <= rows.len(),
        decided(g, rows, predicate),
    ensures
        filter_from(g, rows, predicate, i) == Ok::<Seq<RowModel<G::NodeId>>, ErrorModel>(
            counting(g, rows.skip(i), predicate),
        ),
    decreases rows.len() - i,
{
    reveal(Seq::filter);
    let p = |row: RowModel<G::NodeId>| counts(eval(g, row, predicate)->Ok_0);
    if i < rows.len() {
        lemma_filter_rest(g, rows, predicate, i + 1);
        let row = rows[i];
        let rest = rows.skip(i + 1);
        assert(rows.skip(i) =~= seq![row] + rest);
        Seq::filter_distributes_over_add(seq![row], rest, p);
        assert(seq![row].drop_last() =~= Seq::empty());
        assert(Seq::<RowModel<G::NodeId>>::empty().filter(p) =~= Seq::empty());
        assert(seq![row].last() == row);
        assert(seq![row].filter(p) =~= if p(row) {
            seq![row]
        } else {
            Seq::empty()
        });
        assert(Seq::<RowModel<G::NodeId>>::empty() + rest.filter(p) =~= rest.filter(p));
        assert(eval(g, rows[i], predicate) is Ok);
    } else {
        assert(rows.skip(i) =~= Seq::empty());
        assert(counting(g, rows.skip(i), predicate) =~= Seq::empty());
    }
}

/// A filter fails with the first error of its predicate.
pub proof fn lemma_filter_fails<G: GraphProvider>(
    g: &G,
    rows: Seq<RowModel<G::NodeId>>,
    predicate: ExprModel,
    k: int,
)
    requires
        0 <= k < rows.len(),
        decided(g, rows.take(k), predicate),
        eval(g, rows[k], predicate) is Err,
    ensures
        filter_from(g, rows, predicate, 0) is Err,
        filter_from(g, rows, predicate, 0)->Err_0 == eval(g, rows[k], predicate)->Err_0,
{
    lemma_filter_fails_from(g, rows, predicate, 0, k);
}

proof fn lemma_filter_fails_from<G: GraphProvider>(
    g: &G,
    rows: Seq<RowModel<G::NodeId>>,
    predicate: ExprModel,
    i: int,
    k: int,
)
    requires
        0 <= i <= k < rows.len(),
        decided(g, rows.take(k), predicate),
        eval(g, rows[k], predicate) is Err,
    ensures
        filter_from(g, rows, predicate, i) is Err,
        filter_from(g, rows, predicate, i)->Err_0 == eval(g, rows[k], predicate)->Err_0,
    decreases k - i,
{
    if i < k {
        assert(rows.take(k)[i] == rows[i]);
        lemma_filter_fails_from(g, rows, predicate, i + 1, k);
    }
}

// ---- Subqueries ----------------------------------------------------------------------

/// `EXISTS` is true just if its patterns match from the row, with a match in which its `WHERE`, if
/// it has one, counts as true.
pub proof fn lemma_exists<G: GraphProvider>(
    g: &G,
    row: RowModel<G::NodeId>,
    patterns: Seq<PathModel>,
    predicate: ExprModel,
)
    requires
        match_paths(g, seq![row], patterns, 0, keep_all()) is Ok,
    ensures
        tells(
            g,
            row,
            ExprModel::Exists { patterns, where_clause: None },
            exists|r: RowModel<G::NodeId>| #[trigger]
                match_paths(g, seq![row], patterns, 0, keep_all())->Ok_0.contains(r),
        ),
        decided(g, match_paths(g, seq![row], patterns, 0, keep_all())->Ok_0, predicate) ==> tells(
            g,
            row,
            ExprModel::Exists { patterns, where_clause: Some(Box::new(predicate)) },
            exists|r: RowModel<G::NodeId>| #[trigger]
                match_paths(g, seq![row], patterns, 0, keep_all())->Ok_0.contains(r) && counts(
                    eval(g, r, predicate)->Ok_0,
                ),
        ),
{
    let rows = match_paths(g, seq![row], patterns, 0, keep_all())->Ok_0;
    if rows.len() > 0 {
        assert(rows.contains(rows[0]));
    }
    if decided(g, rows, predicate) {
        lemma_filter(g, rows, predicate);
        let p = |row: RowModel<G::NodeId>| counts(eval(g, row, predicate)->Ok_0);
        let kept = rows.filter(p);
        broadcast use vstd::seq_lib::group_filter_ensures;

        if kept.len() > 0 {
            rows.lemma_filter_pred(p, 0);
            assert(p(kept[0]));
            assert(kept.contains(kept[0]));
            rows.lemma_filter_contains_rev(p, kept[0]);
            assert(rows.contains(kept[0]));
        }
        if exists|r: RowModel<G::NodeId>| #[trigger]
            rows.contains(r) && counts(eval(g, r, predicate)->Ok_0) {
            let r = choose|r: RowModel<G::NodeId>| #[trigger]
                rows.contains(r) && counts(eval(g, r, predicate)->Ok_0);
            let k = choose|k: int| 0 <= k < rows.len() && rows[k] == r;
            rows.lemma_filter_contains(p, k);
            assert(kept.contains(r));
        }
        assert(kept == counting(g, rows, predicate));
    }
}

/// `EXISTS` fails where its patterns cannot be matched.
pub proof fn lemma_exists_fails<G: GraphProvider>(
    g: &G,
    row: RowModel<G::NodeId>,
    patterns: Seq<PathModel>,
    predicate: Option<Box<ExprModel>>,
)
    requires
        match_paths(g, seq![row], patterns, 0, keep_all()) is Err,
    ensures
        eval(g, row, ExprModel::Exists { patterns, where_clause: predicate }) is Err,
        eval(g, row, ExprModel::Exists { patterns, where_clause: predicate })->Err_0
            == match_paths(g, seq![row], patterns, 0, keep_all())->Err_0,
{
}

// ---- Lists ---------------------------------------------------------------------------

/// Whether expressions have the values, one by one.
pub open spec fn each_gives<G: GraphProvider>(
    g: &G,
    row: RowModel<G::NodeId>,
    items: Seq<ExprModel>,
    values: Seq<ValueModel>,
) -> bool {
    &&& items.len() == values.len()
    &&& forall|i: int| 0 <= i < items.len() ==> gives(g, row, #[trigger] items[i], values[i])
}

/// A list holds the values of its items.
pub proof fn lemma_list<G: GraphProvider>(
    g: &G,
    row: RowModel<G::NodeId>,
    items: Seq<ExprModel>,
    values: Seq<ValueModel>,
)
    requires
        each_gives(g, row, items, values),
    ensures
        gives(g, row, ExprModel::List(items), ValueModel::List(values)),
{
    lemma_list_from(g, row, items, values, 0);
    assert(values.skip(0) =~= values);
    assert(eval_all(g, row, items, 0) == Ok::<Seq<ValueModel>, ErrorModel>(values));
}

proof fn lemma_list_from<G: GraphProvider>(
    g: &G,
    row: RowModel<G::NodeId>,
    items: Seq<ExprModel>,
    values: Seq<ValueModel>,
    i: int,
)
    requires
        each_gives(g, row, items, values),
        0 <= i <= items.len(),
    ensures
        eval_all(g, row, items, i) == Ok::<Seq<ValueModel>, ErrorModel>(values.skip(i)),
    decreases items.len() - i,
{
    if i < items.len() {
        lemma_list_from(g, row, items, values, i + 1);
        assert(gives(g, row, items[i], values[i]));
        assert(seq![values[i]] + values.skip(i + 1) =~= values.skip(i));
    } else {
        assert(values.skip(i) =~= Seq::empty());
    }
}

// ---- Functions -----------------------------------------------------------------------

/// A name in lower case: the capital letters of ASCII give way to the small ones.
pub proof fn lemma_lower(s: Text)
    ensures
        ascii_lower(s).len() == s.len(),
        forall|i: int|
            #![trigger s[i]]
            0 <= i < s.len() ==> if 'A' <= s[i] <= 'Z' {
                ascii_lower(s)[i] as int == s[i] as int + ('a' as int - 'A' as int)
            } else {
                ascii_lower(s)[i] == s[i]
            },
{
}

/// `toLower` and `toUpper` map a text to its lower-case and its upper-case form, whatever the case
/// of their own names; null stays null, and anything else is an error.
pub proof fn lemma_case_functions<G: GraphProvider>(
    g: &G,
    row: RowModel<G::NodeId>,
    name: Text,
    x: ExprModel,
    a: ValueModel,
)
    requires
        gives(g, row, x, a),
        ascii_lower(name) == "tolower"@ || ascii_lower(name) == "toupper"@,
    ensures
        ({
            let call = ExprModel::Function { name, args: seq![x] };
            match a {
                ValueModel::Null => gives(g, row, call, ValueModel::Null),
                ValueModel::Str(s) => gives(
                    g,
                    row,
                    call,
                    ValueModel::Str(
                        if ascii_lower(name) == "tolower"@ {
                            lowercase(s)
                        } else {
                            uppercase(s)
                        },
                    ),
                ),
                _ => eval(g, row, call) is Err,
            }
        }),
{
    lemma_function_names();
    assert(seq![x][0] == x);
}

/// `size` is the number of characters of a text or of items of a list; null stays null, and
/// anything else is an error.
pub proof fn lemma_size<G: GraphProvider>(
    g: &G,
    row: RowModel<G::NodeId>,
    name: Text,
    x: ExprModel,
    a: ValueModel,
)
    requires
        gives(g, row, x, a),
        ascii_lower(name) == "size"@,
    ensures
        ({
            let call = ExprModel::Function { name, args: seq![x] };
            match a {
                ValueModel::Null => gives(g, row, call, ValueModel::Null),
                ValueModel::Str(s) => s.len() <= i64::MAX ==> gives(
                    g,
                    row,
                    call,
                    ValueModel::Int(s.len() as i64),
                ),
                ValueModel::List(items) => items.len() <= i64::MAX ==> gives(
                    g,
                    row,
                    call,
                    ValueModel::Int(items.len() as i64),
                ),
                _ => eval(g, row, call) is Err,
            }
        }),
{
    lemma_function_names();
    assert(seq![x][0] == x);
}

/// `labels` is the list of the primary label of a node; null stays null, and anything else is an
/// error.
pub proof fn lemma_labels<G: GraphProvider>(
    g: &G,
    row: RowModel<G::NodeId>,
    name: Text,
    x: ExprModel,
    a: ValueModel,
)
    requires
        gives(g, row, x, a),
        ascii_lower(name) == "labels"@,
    ensures
        ({
            let call = ExprModel::Function { name, args: seq![x] };
            match a {
                ValueModel::Null => gives(g, row, call, ValueModel::Null),
                ValueModel::Node { label, .. } => gives(
                    g,
                    row,
                    call,
                    ValueModel::List(seq![ValueModel::Str(label)]),
                ),
                _ => eval(g, row, call) is Err,
            }
        }),
{
    lemma_function_names();
    assert(seq![x][0] == x);
}

/// The names of the functions differ.
proof fn lemma_function_names()
    ensures
        "tolower"@ != "toupper"@,
        "tolower"@ != "size"@,
        "toupper"@ != "size"@,
        "tolower"@ != "labels"@,
        "toupper"@ != "labels"@,
        "size"@ != "labels"@,
        "coalesce"@ != "tolower"@,
        "coalesce"@ != "toupper"@,
        "coalesce"@ != "size"@,
        "coalesce"@ != "labels"@,
{
    reveal_strlit("tolower");
    reveal_strlit("toupper");
    reveal_strlit("size");
    reveal_strlit("labels");
    reveal_strlit("coalesce");
    assert("tolower"@[2] == 'l' && "toupper"@[2] == 'u');
    assert("labels"@.len() == 6 && "size"@.len() == 4 && "coalesce"@.len() == 8);
}

/// `coalesce` is the first of its arguments that is not null, and null if all of them are; what
/// stands behind that argument is left alone.
pub proof fn lemma_coalesce<G: GraphProvider>(
    g: &G,
    row: RowModel<G::NodeId>,
    name: Text,
    args: Seq<ExprModel>,
    k: int,
)
    requires
        ascii_lower(name) == "coalesce"@,
        0 <= k <= args.len(),
        args.len() > 0,
        forall|i: int| 0 <= i < k ==> gives(g, row, #[trigger] args[i], ValueModel::Null),
        k < args.len() ==> !gives(g, row, args[k], ValueModel::Null),
    ensures
        k < args.len() ==> eval(g, row, ExprModel::Function { name, args }) == eval(
            g,
            row,
            args[k],
        ),
        k == args.len() ==> gives(g, row, ExprModel::Function { name, args }, ValueModel::Null),
{
    lemma_function_names();
    lemma_first_value(g, row, args, 0, k);
    assert(eval(g, row, ExprModel::Function { name, args }) == first_value(g, row, args, 0));
}

proof fn lemma_first_value<G: GraphProvider>(
    g: &G,
    row: RowModel<G::NodeId>,
    args: Seq<ExprModel>,
    i: int,
    k: int,
)
    requires
        0 <= i <= k <= args.len(),
        forall|j: int| i <= j < k ==> gives(g, row, #[trigger] args[j], ValueModel::Null),
        k < args.len() ==> !gives(g, row, args[k], ValueModel::Null),
    ensures
        k < args.len() ==> first_value(g, row, args, i) == eval(g, row, args[k]),
        k == args.len() ==> first_value(g, row, args, i) == Ok::<ValueModel, ErrorModel>(
            ValueModel::Null,
        ),
    decreases k - i,
{
    if i < k {
        assert(gives(g, row, args[i], ValueModel::Null));
        lemma_first_value(g, row, args, i + 1, k);
    }
}

/// There are no other functions, each but `coalesce` has exactly one argument, and `coalesce` has
/// at least one.
pub proof fn lemma_function_fails<G: GraphProvider>(
    g: &G,
    row: RowModel<G::NodeId>,
    name: Text,
    args: Seq<ExprModel>,
)
    requires
        ({
            let lower = ascii_lower(name);
            let one = lower == "tolower"@ || lower == "toupper"@ || lower == "size"@ || lower
                == "labels"@;
            ||| !one && lower != "coalesce"@
            ||| one && args.len() != 1
            ||| lower == "coalesce"@ && args.len() == 0
        }),
    ensures
        eval(g, row, ExprModel::Function { name, args }) is Err,
{
    lemma_function_names();
}

// ---- CASE ----------------------------------------------------------------------------

/// Whether a branch of a `CASE` applies: its condition equals the operand or, without an operand,
/// counts as true. Null equals nothing.
pub open spec fn applies(subject: Option<ValueModel>, condition: ValueModel) -> bool {
    match subject {
        Some(v) => v == condition && v != ValueModel::Null,
        None => counts(condition),
    }
}

proof fn lemma_pick_branch<G: GraphProvider>(
    g: &G,
    row: RowModel<G::NodeId>,
    subject: Option<ValueModel>,
    branches: Seq<(ExprModel, ExprModel)>,
    i: int,
    k: int,
)
    requires
        0 <= i <= k <= branches.len(),
        forall|j: int|
            i <= j < k ==> eval(g, row, (#[trigger] branches[j]).0) is Ok && !applies(
                subject,
                eval(g, row, branches[j].0)->Ok_0,
            ),
        k < branches.len() ==> eval(g, row, branches[k].0) is Ok && applies(
            subject,
            eval(g, row, branches[k].0)->Ok_0,
        ),
    ensures
        k == branches.len() ==> pick_branch(g, row, subject, branches, i) == Ok::<
            Option<ValueModel>,
            ErrorModel,
        >(None),
        k < branches.len() ==> pick_branch(g, row, subject, branches, i) == match eval(
            g,
            row,
            branches[k].1,
        ) {
            Ok(v) => Ok::<Option<ValueModel>, ErrorModel>(Some(v)),
            Err(e) => Err(e),
        },
    decreases k - i,
{
    if i < k {
        assert(eval(g, row, branches[i].0) is Ok);
        lemma_pick_branch(g, row, subject, branches, i + 1, k);
    }
}

/// A `CASE` is the value of its first branch that applies, or else of its `ELSE`, or else null.
pub proof fn lemma_case<G: GraphProvider>(
    g: &G,
    row: RowModel<G::NodeId>,
    operand: Option<Box<ExprModel>>,
    subject: Option<ValueModel>,
    branches: Seq<(ExprModel, ExprModel)>,
    default: Option<Box<ExprModel>>,
    k: int,
)
    requires
        operand is Some <==> subject is Some,
        operand is Some ==> gives(g, row, *operand->Some_0, subject->Some_0),
        0 <= k <= branches.len(),
        forall|j: int|
            0 <= j < k ==> eval(g, row, (#[trigger] branches[j]).0) is Ok && !applies(
                subject,
                eval(g, row, branches[j].0)->Ok_0,
            ),
        k < branches.len() ==> eval(g, row, branches[k].0) is Ok && applies(
            subject,
            eval(g, row, branches[k].0)->Ok_0,
        ),
    ensures
        k < branches.len() ==> eval(g, row, ExprModel::Case { operand, branches, default }) == eval(
            g,
            row,
            branches[k].1,
        ),
        k == branches.len() ==> match default {
            Some(x) => eval(g, row, ExprModel::Case { operand, branches, default }) == eval(
                g,
                row,
                *x,
            ),
            None => gives(
                g,
                row,
                ExprModel::Case { operand, branches, default },
                ValueModel::Null,
            ),
        },
{
    lemma_pick_branch(g, row, subject, branches, 0, k);
    assert(pick_branch(g, row, subject, branches, 0) == pick_branch(
        g,
        row,
        subject,
        branches,
        0,
    ));
}

// ---- Map projections -------------------------------------------------------------------

/// Whether the entries of a map projection over a node have these keys and values.
pub open spec fn entries_give<G: GraphProvider>(
    g: &G,
    row: RowModel<G::NodeId>,
    node: G::NodeId,
    entries: Seq<MapEntryModel>,
    values: Seq<(Text, ValueModel)>,
) -> bool {
    &&& entries.len() == values.len()
    &&& forall|i: int|
        #![trigger entries[i]]
        0 <= i < entries.len() ==> match entries[i] {
            MapEntryModel::Property(prop) => values[i] == (prop, g.prop_value(node, prop)),
            MapEntryModel::Literal(key, x) => values[i].0 == key && gives(g, row, x, values[i].1),
        }
}

proof fn lemma_entries_from<G: GraphProvider>(
    g: &G,
    row: RowModel<G::NodeId>,
    node: G::NodeId,
    entries: Seq<MapEntryModel>,
    values: Seq<(Text, ValueModel)>,
    i: int,
)
    requires
        entries_give(g, row, node, entries, values),
        0 <= i <= entries.len(),
    ensures
        eval_entries(g, row, node, entries, i) == Ok::<Seq<(Text, ValueModel)>, ErrorModel>(
            values.skip(i),
        ),
    decreases entries.len() - i,
{
    if i < entries.len() {
        lemma_entries_from(g, row, node, entries, values, i + 1);
        assert(entries[i] == entries[i]);
        assert(seq![values[i]] + values.skip(i + 1) =~= values.skip(i));
    } else {
        assert(values.skip(i) =~= Seq::empty());
    }
}

/// A map projection of a node holds, in the order of its entries, the properties of the node and
/// the values of the expressions; of anything else it is null.
pub proof fn lemma_map_projection<G: GraphProvider>(
    g: &G,
    row: RowModel<G::NodeId>,
    var: Text,
    entries: Seq<MapEntryModel>,
    values: Seq<(Text, ValueModel)>,
)
    ensures
        row.contains_key(var) && row[var] is Node && entries_give(
            g,
            row,
            row[var]->Node_0,
            entries,
            values,
        ) ==> gives(
            g,
            row,
            ExprModel::MapProjection { var, entries },
            ValueModel::Mapping(values),
        ),
        !(row.contains_key(var) && row[var] is Node) ==> gives(
            g,
            row,
            ExprModel::MapProjection { var, entries },
            ValueModel::Null,
        ),
{
    if row.contains_key(var) && row[var] is Node && entries_give(
        g,
        row,
        row[var]->Node_0,
        entries,
        values,
    ) {
        lemma_entries_from(g, row, row[var]->Node_0, entries, values, 0);
        assert(values.skip(0) =~= values);
        assert(eval_entries(g, row, row[var]->Node_0, entries, 0) == Ok::<
            Seq<(Text, ValueModel)>,
            ErrorModel,
        >(values));
    }
}

/// An aggregate has no value in a single row.
pub proof fn lemma_no_aggregate<G: GraphProvider>(
    g: &G,
    row: RowModel<G::NodeId>,
    e: ExprModel,
)
    requires
        e is Aggregate,
    ensures
        eval(g, row, e) is Err,
{
}

/// Whatever a filter keeps makes its predicate count as true.
pub proof fn lemma_kept_counts<G: GraphProvider>(
    g: &G,
    rows: Seq<RowModel<G::NodeId>>,
    predicate: ExprModel,
    i: int,
)
    requires
        0 <= i,
        filter_from(g, rows, predicate, i) is Ok,
    ensures
        forall|k: int|
            0 <= k < filter_from(g, rows, predicate, i)->Ok_0.len() ==> (eval(
                g,
                #[trigger] filter_from(g, rows, predicate, i)->Ok_0[k],
                predicate,
            ) matches Ok(v) && counts(v)),
        forall|k: int|
            i <= k < rows.len() ==> eval(g, #[trigger] rows[k], predicate) is Ok,
    decreases rows.len() - i,
{
    if i < rows.len() {
        lemma_kept_counts(g, rows, predicate, i + 1);
        let out = filter_from(g, rows, predicate, i)->Ok_0;
        let rest = filter_from(g, rows, predicate, i + 1)->Ok_0;
        assert forall|k: int| 0 <= k < out.len() implies (eval(
            g,
            #[trigger] out[k],
            predicate,
        ) matches Ok(v) && counts(v)) by {
            if out.len() == rest.len() + 1 {
                if k > 0 {
                    assert(out[k] == rest[k - 1]);
                } else {
                    assert(out[0] == rows[i]);
                }
            } else {
                assert(out[k] == rest[k]);
            }
        }
    }
}

} // verus!
