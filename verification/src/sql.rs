//! From SQL to a plan: names are bound to the schema, and the tree of the parser becomes
//! the plan of the executor.

pub mod bind;
pub mod literal;
pub mod statement;

use crate::ast::{Parsed, ParsedTree};
use crate::float::Floats;
use crate::parse::{parse_sql, parsed_trees, statements_of};
use crate::plan::{Command, Statement};
pub use crate::sql::literal::parse_vec_str;
pub use crate::sql::statement::Catalog;
use crate::sql::statement::{plan_statement, planned_statement};
use crate::text::{dec, dec_usize, err, in_context, text2, Error};
use vstd::prelude::*;
use vstd::string::*;

verus! {

broadcast use vstd::string::group_string_axioms;

/// What a text with some statements asks for: it must hold just one.
pub open spec fn planned_list<C: Catalog, F: Floats>(v: Seq<ParsedTree>, cat: C, fl: F) -> Result<
    Command,
    Seq<char>,
> {
    if v.len() == 0 {
        Err("пустой запрос"@)
    } else if v.len() == 1 {
        planned_statement(v[0], cat, fl)
    } else {
        Err("за раз выполняется один запрос, получено "@ + dec(v.len() as int))
    }
}

/// What a text asks for.
pub open spec fn planned<C: Catalog, F: Floats>(sql: Seq<char>, cat: C, fl: F) -> Result<
    Command,
    Seq<char>,
> {
    match statements_of(sql) {
        Err(m) => Err(in_context("разбор SQL"@, m)),
        Ok(v) => planned_list(v, cat, fl),
    }
}

/// What some statements ask for: there must be just one.
pub fn plan_parsed<C: Catalog, F: Floats>(stmts: &Vec<Parsed>, catalog: &C, fl: &F) -> (r: Result<
    Statement,
    Error,
>)
    requires
        fl.exact(),
    ensures
        match r {
            Ok(x) => planned_list(parsed_trees(stmts@), *catalog, *fl) == Ok::<Command, Seq<char>>(
                x@,
            ),
            Err(m) => planned_list(parsed_trees(stmts@), *catalog, *fl) == Err::<
                Command,
                Seq<char>,
            >(m@),
        },
{
    if stmts.len() == 0 {
        return Err(err("пустой запрос".to_owned()));
    }
    if stmts.len() != 1 {
        return Err(
            err(
                text2(
                    "за раз выполняется один запрос, получено ",
                    dec_usize(stmts.len()).as_str(),
                ),
            ),
        );
    }
    plan_statement(&stmts[0], catalog, fl)
}

/// What a text asks for.
pub fn plan<C: Catalog, F: Floats>(sql: &str, catalog: &C, fl: &F) -> (r: Result<Statement, Error>)
    requires
        fl.exact(),
    ensures
        match r {
            Ok(x) => planned(sql@, *catalog, *fl) == Ok::<Command, Seq<char>>(x@),
            Err(m) => planned(sql@, *catalog, *fl) == Err::<Command, Seq<char>>(m@),
        },
{
    match parse_sql(sql) {
        Ok(stmts) => plan_parsed(&stmts, catalog, fl),
        Err(e) => Err(e),
    }
}

} // verus!
