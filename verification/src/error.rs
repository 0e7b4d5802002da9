//! The errors of lexing, parsing and execution.

use vstd::prelude::*;

use crate::text::Text;

verus! {

/// Why a query could not be read or run.
#[derive(Debug, Clone, PartialEq, Eq)]
pub enum CypherError {
    /// The query text is not a sequence of tokens; `position` counts characters.
    Lex { message: String, position: usize },
    /// The tokens are not a query; `position` counts the characters before the offending token.
    Parse { message: String, position: usize },
    /// The query cannot be run.
    Execution { message: String },
}

/// The model of a [`CypherError`].
pub enum ErrorModel {
    Lex { message: Text, position: nat },
    Parse { message: Text, position: nat },
    Execution { message: Text },
}

impl CypherError {
    /// The model of the error.
    pub open spec fn view(&self) -> ErrorModel {
        match self {
            CypherError::Lex { message, position } => ErrorModel::Lex {
                message: message@,
                position: *position as nat,
            },
            CypherError::Parse { message, position } => ErrorModel::Parse {
                message: message@,
                position: *position as nat,
            },
            CypherError::Execution { message } => ErrorModel::Execution { message: message@ },
        }
    }

    /// An execution error with the given message.
    pub fn execution(message: &str) -> (r: CypherError)
        ensures
            r@ == failure(message@),
    {
        CypherError::Execution { message: message.to_owned() }
    }
}

/// The execution error with the given message.
pub open spec fn failure(message: Text) -> ErrorModel {
    ErrorModel::Execution { message }
}

/// The items with those before them; an error stays an error.
pub open spec fn prepend<A>(before: Seq<A>, rest: Result<Seq<A>, ErrorModel>) -> Result<
    Seq<A>,
    ErrorModel,
> {
    match rest {
        Ok(items) => Ok(before + items),
        Err(e) => Err(e),
    }
}

/// One more item before the rest.
pub proof fn lemma_prepend_push<A>(before: Seq<A>, item: A, rest: Result<Seq<A>, ErrorModel>)
    ensures
        prepend(before, prepend(seq![item], rest)) == prepend(before.push(item), rest),
{
    if let Ok(items) = rest {
        assert(before + (seq![item] + items) =~= before.push(item) + items);
    }
}

/// More items before the rest.
pub proof fn lemma_prepend_concat<A>(a: Seq<A>, b: Seq<A>, rest: Result<Seq<A>, ErrorModel>)
    ensures
        prepend(a, prepend(b, rest)) == prepend(a + b, rest),
{
    if let Ok(items) = rest {
        assert(a + (b + items) =~= (a + b) + items);
    }
}

/// Nothing before the rest leaves the rest as it is.
pub proof fn lemma_prepend_nothing<A>(before: Seq<A>, rest: Result<Seq<A>, ErrorModel>)
    requires
        before.len() == 0,
    ensures
        prepend(before, rest) == rest,
{
    if let Ok(items) = rest {
        assert(before + items =~= items);
    }
}

} // verus!
