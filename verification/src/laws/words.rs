//! Which words name functions, aggregates, distances and types.
use crate::column::{name_of_type, DataType};
use crate::laws::changes::alike;
use crate::laws::texts::lemma_same_name;
use crate::plan::{function_named, metric_named, AggFunc, Metric, ScalarFunc};
use crate::sql::bind::aggregate_named;
use crate::sql::literal::known_type;
use crate::text::ascii_lowered;
use vstd::prelude::*;

verus! {

/// What a word names, whatever the case of its letters.
pub open spec fn names_function(name: Seq<char>, f: ScalarFunc) -> bool {
    let w = ascii_lowered(name);
    function_named(w) == Some(f) && aggregate_named(w) is None && metric_named(w) is None
}

pub open spec fn names_aggregate(name: Seq<char>, f: AggFunc) -> bool {
    aggregate_named(ascii_lowered(name)) == Some(f)
}

pub open spec fn names_distance(name: Seq<char>, m: Metric) -> bool {
    aggregate_named(ascii_lowered(name)) is None && metric_named(ascii_lowered(name)) == Some(m)
}

proof fn lemma_shapes()
    ensures
        "length"@.len() == 6,
        "length"@[0] == 'l' && "length"@[1] == 'e' && "length"@[2] == 'n' && "length"@[3] == 'g',
        "char_length"@.len() == 11,
        "char_length"@[0] == 'c' && "char_length"@[1] == 'h' && "char_length"@[2] == 'a'
            && "char_length"@[3] == 'r',
        "octet_length"@.len() == 12,
        "octet_length"@[0] == 'o' && "octet_length"@[1] == 'c' && "octet_length"@[2] == 't'
            && "octet_length"@[3] == 'e',
        "lower"@.len() == 5,
        "lower"@[0] == 'l' && "lower"@[1] == 'o' && "lower"@[2] == 'w' && "lower"@[3] == 'e',
        "lcase"@.len() == 5,
        "lcase"@[0] == 'l' && "lcase"@[1] == 'c' && "lcase"@[2] == 'a' && "lcase"@[3] == 's',
        "upper"@.len() == 5,
        "upper"@[0] == 'u' && "upper"@[1] == 'p' && "upper"@[2] == 'p' && "upper"@[3] == 'e',
        "ucase"@.len() == 5,
        "ucase"@[0] == 'u' && "ucase"@[1] == 'c' && "ucase"@[2] == 'a' && "ucase"@[3] == 's',
        "abs"@.len() == 3,
        "abs"@[0] == 'a' && "abs"@[1] == 'b' && "abs"@[2] == 's',
        "floor"@.len() == 5,
        "floor"@[0] == 'f' && "floor"@[1] == 'l' && "floor"@[2] == 'o' && "floor"@[3] == 'o',
        "ceil"@.len() == 4,
        "ceil"@[0] == 'c' && "ceil"@[1] == 'e' && "ceil"@[2] == 'i' && "ceil"@[3] == 'l',
        "ceiling"@.len() == 7,
        "ceiling"@[0] == 'c' && "ceiling"@[1] == 'e' && "ceiling"@[2] == 'i'
            && "ceiling"@[3] == 'l',
        "round"@.len() == 5,
        "round"@[0] == 'r' && "round"@[1] == 'o' && "round"@[2] == 'u' && "round"@[3] == 'n',
        "sqrt"@.len() == 4,
        "sqrt"@[0] == 's' && "sqrt"@[1] == 'q' && "sqrt"@[2] == 'r' && "sqrt"@[3] == 't',
        "substring"@.len() == 9,
        "substring"@[0] == 's' && "substring"@[1] == 'u' && "substring"@[2] == 'b'
            && "substring"@[3] == 's',
        "substr"@.len() == 6,
        "substr"@[0] == 's' && "substr"@[1] == 'u' && "substr"@[2] == 'b' && "substr"@[3] == 's',
        "to_hour"@.len() == 7,
        "to_hour"@[0] == 't' && "to_hour"@[1] == 'o' && "to_hour"@[2] == '_'
            && "to_hour"@[3] == 'h',
        "to_minute"@.len() == 9,
        "to_minute"@[0] == 't' && "to_minute"@[1] == 'o' && "to_minute"@[2] == '_'
            && "to_minute"@[3] == 'm',
        "to_day"@.len() == 6,
        "to_day"@[0] == 't' && "to_day"@[1] == 'o' && "to_day"@[2] == '_' && "to_day"@[3] == 'd',
        "to_dayofmonth"@.len() == 13,
        "to_dayofmonth"@[0] == 't' && "to_dayofmonth"@[1] == 'o' && "to_dayofmonth"@[2] == '_'
            && "to_dayofmonth"@[3] == 'd',
        "to_month"@.len() == 8,
        "to_month"@[0] == 't' && "to_month"@[1] == 'o' && "to_month"@[2] == '_'
            && "to_month"@[3] == 'm',
        "to_year"@.len() == 7,
        "to_year"@[0] == 't' && "to_year"@[1] == 'o' && "to_year"@[2] == '_'
            && "to_year"@[3] == 'y',
        "coalesce"@.len() == 8,
        "coalesce"@[0] == 'c' && "coalesce"@[1] == 'o' && "coalesce"@[2] == 'a'
            && "coalesce"@[3] == 'l',
        "if"@.len() == 2,
        "if"@[0] == 'i' && "if"@[1] == 'f',
        "date_trunc"@.len() == 10,
        "date_trunc"@[0] == 'd' && "date_trunc"@[1] == 'a' && "date_trunc"@[2] == 't'
            && "date_trunc"@[3] == 'e',
        "to_start_of"@.len() == 11,
        "to_start_of"@[0] == 't' && "to_start_of"@[1] == 'o' && "to_start_of"@[2] == '_'
            && "to_start_of"@[3] == 's',
        "count"@.len() == 5,
        "count"@[0] == 'c' && "count"@[1] == 'o' && "count"@[2] == 'u' && "count"@[3] == 'n',
        "sum"@.len() == 3,
        "sum"@[0] == 's' && "sum"@[1] == 'u' && "sum"@[2] == 'm',
        "avg"@.len() == 3,
        "avg"@[0] == 'a' && "avg"@[1] == 'v' && "avg"@[2] == 'g',
        "mean"@.len() == 4,
        "mean"@[0] == 'm' && "mean"@[1] == 'e' && "mean"@[2] == 'a' && "mean"@[3] == 'n',
        "min"@.len() == 3,
        "min"@[0] == 'm' && "min"@[1] == 'i' && "min"@[2] == 'n',
        "max"@.len() == 3,
        "max"@[0] == 'm' && "max"@[1] == 'a' && "max"@[2] == 'x',
        "uniq"@.len() == 4,
        "uniq"@[0] == 'u' && "uniq"@[1] == 'n' && "uniq"@[2] == 'i' && "uniq"@[3] == 'q',
        "count_distinct"@.len() == 14,
        "count_distinct"@[0] == 'c' && "count_distinct"@[1] == 'o' && "count_distinct"@[2] == 'u'
            && "count_distinct"@[3] == 'n',
        "l2_distance"@.len() == 11,
        "l2_distance"@[0] == 'l' && "l2_distance"@[1] == '2' && "l2_distance"@[2] == '_'
            && "l2_distance"@[3] == 'd',
        "l2"@.len() == 2,
        "l2"@[0] == 'l' && "l2"@[1] == '2',
        "euclidean_distance"@.len() == 18,
        "euclidean_distance"@[0] == 'e' && "euclidean_distance"@[1] == 'u'
            && "euclidean_distance"@[2] == 'c' && "euclidean_distance"@[3] == 'l',
        "cosine_distance"@.len() == 15,
        "cosine_distance"@[0] == 'c' && "cosine_distance"@[1] == 'o' && "cosine_distance"@[2] == 's'
            && "cosine_distance"@[3] == 'i',
        "cosine"@.len() == 6,
        "cosine"@[0] == 'c' && "cosine"@[1] == 'o' && "cosine"@[2] == 's' && "cosine"@[3] == 'i',
        "inner_product"@.len() == 13,
        "inner_product"@[0] == 'i' && "inner_product"@[1] == 'n' && "inner_product"@[2] == 'n'
            && "inner_product"@[3] == 'e',
        "dot_product"@.len() == 11,
        "dot_product"@[0] == 'd' && "dot_product"@[1] == 'o' && "dot_product"@[2] == 't'
            && "dot_product"@[3] == '_',
{
    reveal_strlit("length");
    reveal_strlit("char_length");
    reveal_strlit("octet_length");
    reveal_strlit("lower");
    reveal_strlit("lcase");
    reveal_strlit("upper");
    reveal_strlit("ucase");
    reveal_strlit("abs");
    reveal_strlit("floor");
    reveal_strlit("ceil");
    reveal_strlit("ceiling");
    reveal_strlit("round");
    reveal_strlit("sqrt");
    reveal_strlit("substring");
    reveal_strlit("substr");
    reveal_strlit("to_hour");
    reveal_strlit("to_minute");
    reveal_strlit("to_day");
    reveal_strlit("to_dayofmonth");
    reveal_strlit("to_month");
    reveal_strlit("to_year");
    reveal_strlit("coalesce");
    reveal_strlit("if");
    reveal_strlit("date_trunc");
    reveal_strlit("to_start_of");
    reveal_strlit("count");
    reveal_strlit("sum");
    reveal_strlit("avg");
    reveal_strlit("mean");
    reveal_strlit("min");
    reveal_strlit("max");
    reveal_strlit("uniq");
    reveal_strlit("count_distinct");
    reveal_strlit("l2_distance");
    reveal_strlit("l2");
    reveal_strlit("euclidean_distance");
    reveal_strlit("cosine_distance");
    reveal_strlit("cosine");
    reveal_strlit("inner_product");
    reveal_strlit("dot_product");
}

proof fn lemma_small()
    ensures
        ascii_lowered("length"@) == "length"@,
        ascii_lowered("char_length"@) == "char_length"@,
        ascii_lowered("octet_length"@) == "octet_length"@,
        ascii_lowered("lower"@) == "lower"@,
        ascii_lowered("lcase"@) == "lcase"@,
        ascii_lowered("upper"@) == "upper"@,
        ascii_lowered("ucase"@) == "ucase"@,
        ascii_lowered("abs"@) == "abs"@,
        ascii_lowered("floor"@) == "floor"@,
        ascii_lowered("ceil"@) == "ceil"@,
        ascii_lowered("ceiling"@) == "ceiling"@,
        ascii_lowered("round"@) == "round"@,
        ascii_lowered("sqrt"@) == "sqrt"@,
        ascii_lowered("substring"@) == "substring"@,
        ascii_lowered("substr"@) == "substr"@,
        ascii_lowered("to_hour"@) == "to_hour"@,
        ascii_lowered("to_minute"@) == "to_minute"@,
        ascii_lowered("to_day"@) == "to_day"@,
        ascii_lowered("to_dayofmonth"@) == "to_dayofmonth"@,
        ascii_lowered("to_month"@) == "to_month"@,
        ascii_lowered("to_year"@) == "to_year"@,
        ascii_lowered("coalesce"@) == "coalesce"@,
        ascii_lowered("if"@) == "if"@,
        ascii_lowered("date_trunc"@) == "date_trunc"@,
        ascii_lowered("to_start_of"@) == "to_start_of"@,
        ascii_lowered("count"@) == "count"@,
        ascii_lowered("sum"@) == "sum"@,
        ascii_lowered("avg"@) == "avg"@,
        ascii_lowered("mean"@) == "mean"@,
        ascii_lowered("min"@) == "min"@,
        ascii_lowered("max"@) == "max"@,
        ascii_lowered("uniq"@) == "uniq"@,
        ascii_lowered("count_distinct"@) == "count_distinct"@,
        ascii_lowered("l2_distance"@) == "l2_distance"@,
        ascii_lowered("l2"@) == "l2"@,
        ascii_lowered("euclidean_distance"@) == "euclidean_distance"@,
        ascii_lowered("cosine_distance"@) == "cosine_distance"@,
        ascii_lowered("cosine"@) == "cosine"@,
        ascii_lowered("inner_product"@) == "inner_product"@,
        ascii_lowered("dot_product"@) == "dot_product"@,
{
    reveal_strlit("length");
    reveal_strlit("char_length");
    reveal_strlit("octet_length");
    reveal_strlit("lower");
    reveal_strlit("lcase");
    reveal_strlit("upper");
    reveal_strlit("ucase");
    reveal_strlit("abs");
    reveal_strlit("floor");
    reveal_strlit("ceil");
    reveal_strlit("ceiling");
    reveal_strlit("round");
    reveal_strlit("sqrt");
    reveal_strlit("substring");
    reveal_strlit("substr");
    reveal_strlit("to_hour");
    reveal_strlit("to_minute");
    reveal_strlit("to_day");
    reveal_strlit("to_dayofmonth");
    reveal_strlit("to_month");
    reveal_strlit("to_year");
    reveal_strlit("coalesce");
    reveal_strlit("if");
    reveal_strlit("date_trunc");
    reveal_strlit("to_start_of");
    reveal_strlit("count");
    reveal_strlit("sum");
    reveal_strlit("avg");
    reveal_strlit("mean");
    reveal_strlit("min");
    reveal_strlit("max");
    reveal_strlit("uniq");
    reveal_strlit("count_distinct");
    reveal_strlit("l2_distance");
    reveal_strlit("l2");
    reveal_strlit("euclidean_distance");
    reveal_strlit("cosine_distance");
    reveal_strlit("cosine");
    reveal_strlit("inner_product");
    reveal_strlit("dot_product");
    assert(ascii_lowered("length"@) =~= "length"@);
    assert(ascii_lowered("char_length"@) =~= "char_length"@);
    assert(ascii_lowered("octet_length"@) =~= "octet_length"@);
    assert(ascii_lowered("lower"@) =~= "lower"@);
    assert(ascii_lowered("lcase"@) =~= "lcase"@);
    assert(ascii_lowered("upper"@) =~= "upper"@);
    assert(ascii_lowered("ucase"@) =~= "ucase"@);
    assert(ascii_lowered("abs"@) =~= "abs"@);
    assert(ascii_lowered("floor"@) =~= "floor"@);
    assert(ascii_lowered("ceil"@) =~= "ceil"@);
    assert(ascii_lowered("ceiling"@) =~= "ceiling"@);
    assert(ascii_lowered("round"@) =~= "round"@);
    assert(ascii_lowered("sqrt"@) =~= "sqrt"@);
    assert(ascii_lowered("substring"@) =~= "substring"@);
    assert(ascii_lowered("substr"@) =~= "substr"@);
    assert(ascii_lowered("to_hour"@) =~= "to_hour"@);
    assert(ascii_lowered("to_minute"@) =~= "to_minute"@);
    assert(ascii_lowered("to_day"@) =~= "to_day"@);
    assert(ascii_lowered("to_dayofmonth"@) =~= "to_dayofmonth"@);
    assert(ascii_lowered("to_month"@) =~= "to_month"@);
    assert(ascii_lowered("to_year"@) =~= "to_year"@);
    assert(ascii_lowered("coalesce"@) =~= "coalesce"@);
    assert(ascii_lowered("if"@) =~= "if"@);
    assert(ascii_lowered("date_trunc"@) =~= "date_trunc"@);
    assert(ascii_lowered("to_start_of"@) =~= "to_start_of"@);
    assert(ascii_lowered("count"@) =~= "count"@);
    assert(ascii_lowered("sum"@) =~= "sum"@);
    assert(ascii_lowered("avg"@) =~= "avg"@);
    assert(ascii_lowered("mean"@) =~= "mean"@);
    assert(ascii_lowered("min"@) =~= "min"@);
    assert(ascii_lowered("max"@) =~= "max"@);
    assert(ascii_lowered("uniq"@) =~= "uniq"@);
    assert(ascii_lowered("count_distinct"@) =~= "count_distinct"@);
    assert(ascii_lowered("l2_distance"@) =~= "l2_distance"@);
    assert(ascii_lowered("l2"@) =~= "l2"@);
    assert(ascii_lowered("euclidean_distance"@) =~= "euclidean_distance"@);
    assert(ascii_lowered("cosine_distance"@) =~= "cosine_distance"@);
    assert(ascii_lowered("cosine"@) =~= "cosine"@);
    assert(ascii_lowered("inner_product"@) =~= "inner_product"@);
    assert(ascii_lowered("dot_product"@) =~= "dot_product"@);
}

/// The functions by their names.
pub proof fn lemma_functions(name: Seq<char>)
    ensures
        alike(name, "length"@) ==> names_function(name, ScalarFunc::Length),
        alike(name, "char_length"@) ==> names_function(name, ScalarFunc::Length),
        alike(name, "octet_length"@) ==> names_function(name, ScalarFunc::Length),
        alike(name, "lower"@) ==> names_function(name, ScalarFunc::Lower),
        alike(name, "lcase"@) ==> names_function(name, ScalarFunc::Lower),
        alike(name, "upper"@) ==> names_function(name, ScalarFunc::Upper),
        alike(name, "ucase"@) ==> names_function(name, ScalarFunc::Upper),
        alike(name, "abs"@) ==> names_function(name, ScalarFunc::Abs),
        alike(name, "floor"@) ==> names_function(name, ScalarFunc::Floor),
        alike(name, "ceil"@) ==> names_function(name, ScalarFunc::Ceil),
        alike(name, "ceiling"@) ==> names_function(name, ScalarFunc::Ceil),
        alike(name, "round"@) ==> names_function(name, ScalarFunc::Round),
        alike(name, "sqrt"@) ==> names_function(name, ScalarFunc::Sqrt),
        alike(name, "substring"@) ==> names_function(name, ScalarFunc::Substring),
        alike(name, "substr"@) ==> names_function(name, ScalarFunc::Substring),
        alike(name, "to_hour"@) ==> names_function(name, ScalarFunc::ExtractHour),
        alike(name, "to_minute"@) ==> names_function(name, ScalarFunc::ExtractMinute),
        alike(name, "to_day"@) ==> names_function(name, ScalarFunc::ExtractDay),
        alike(name, "to_dayofmonth"@) ==> names_function(name, ScalarFunc::ExtractDay),
        alike(name, "to_month"@) ==> names_function(name, ScalarFunc::ExtractMonth),
        alike(name, "to_year"@) ==> names_function(name, ScalarFunc::ExtractYear),
        alike(name, "coalesce"@) ==> names_function(name, ScalarFunc::Coalesce),
        alike(name, "if"@) ==> names_function(name, ScalarFunc::If),
        alike(name, "date_trunc"@) ==> names_function(name, ScalarFunc::DateTrunc),
        alike(name, "to_start_of"@) ==> names_function(name, ScalarFunc::DateTrunc),
{
    lemma_shapes();
    lemma_small();
    reveal(function_named);
    reveal(aggregate_named);
    reveal(metric_named);
    lemma_same_name(name, "length"@);
    lemma_same_name(name, "char_length"@);
    lemma_same_name(name, "octet_length"@);
    lemma_same_name(name, "lower"@);
    lemma_same_name(name, "lcase"@);
    lemma_same_name(name, "upper"@);
    lemma_same_name(name, "ucase"@);
    lemma_same_name(name, "abs"@);
    lemma_same_name(name, "floor"@);
    lemma_same_name(name, "ceil"@);
    lemma_same_name(name, "ceiling"@);
    lemma_same_name(name, "round"@);
    lemma_same_name(name, "sqrt"@);
    lemma_same_name(name, "substring"@);
    lemma_same_name(name, "substr"@);
    lemma_same_name(name, "to_hour"@);
    lemma_same_name(name, "to_minute"@);
    lemma_same_name(name, "to_day"@);
    lemma_same_name(name, "to_dayofmonth"@);
    lemma_same_name(name, "to_month"@);
    lemma_same_name(name, "to_year"@);
    lemma_same_name(name, "coalesce"@);
    lemma_same_name(name, "if"@);
    lemma_same_name(name, "date_trunc"@);
    lemma_same_name(name, "to_start_of"@);
}

/// The aggregates by their names.
pub proof fn lemma_aggregates(name: Seq<char>)
    ensures
        alike(name, "count"@) ==> names_aggregate(name, AggFunc::Count),
        alike(name, "sum"@) ==> names_aggregate(name, AggFunc::Sum),
        alike(name, "avg"@) ==> names_aggregate(name, AggFunc::Avg),
        alike(name, "mean"@) ==> names_aggregate(name, AggFunc::Avg),
        alike(name, "min"@) ==> names_aggregate(name, AggFunc::Min),
        alike(name, "max"@) ==> names_aggregate(name, AggFunc::Max),
        alike(name, "uniq"@) ==> names_aggregate(name, AggFunc::Count),
        alike(name, "count_distinct"@) ==> names_aggregate(name, AggFunc::Count),
{
    lemma_shapes();
    lemma_small();
    reveal(function_named);
    reveal(aggregate_named);
    reveal(metric_named);
    lemma_same_name(name, "count"@);
    lemma_same_name(name, "sum"@);
    lemma_same_name(name, "avg"@);
    lemma_same_name(name, "mean"@);
    lemma_same_name(name, "min"@);
    lemma_same_name(name, "max"@);
    lemma_same_name(name, "uniq"@);
    lemma_same_name(name, "count_distinct"@);
}

/// The distances by their names.
pub proof fn lemma_distances(name: Seq<char>)
    ensures
        alike(name, "l2_distance"@) ==> names_distance(name, Metric::L2),
        alike(name, "l2"@) ==> names_distance(name, Metric::L2),
        alike(name, "euclidean_distance"@) ==> names_distance(name, Metric::L2),
        alike(name, "cosine_distance"@) ==> names_distance(name, Metric::Cosine),
        alike(name, "cosine"@) ==> names_distance(name, Metric::Cosine),
        alike(name, "inner_product"@) ==> names_distance(name, Metric::NegInnerProduct),
        alike(name, "dot_product"@) ==> names_distance(name, Metric::NegInnerProduct),
{
    lemma_shapes();
    lemma_small();
    reveal(function_named);
    reveal(aggregate_named);
    reveal(metric_named);
    lemma_same_name(name, "l2_distance"@);
    lemma_same_name(name, "l2"@);
    lemma_same_name(name, "euclidean_distance"@);
    lemma_same_name(name, "cosine_distance"@);
    lemma_same_name(name, "cosine"@);
    lemma_same_name(name, "inner_product"@);
    lemma_same_name(name, "dot_product"@);
}

/// The types by their names in SQL; the name that a type is shown by means the type.
pub proof fn lemma_types()
    ensures
        known_type("TINYINT"@) == Some(DataType::I64),
        known_type("SMALLINT"@) == Some(DataType::I64),
        known_type("INT"@) == Some(DataType::I64),
        known_type("INTEGER"@) == Some(DataType::I64),
        known_type("BIGINT"@) == Some(DataType::I64),
        known_type("FLOAT"@) == Some(DataType::F64),
        known_type("REAL"@) == Some(DataType::F64),
        known_type("DOUBLE"@) == Some(DataType::F64),
        known_type("BOOLEAN"@) == Some(DataType::Bool),
        known_type("BOOL"@) == Some(DataType::Bool),
        known_type("CHAR"@) == Some(DataType::Str),
        known_type("VARCHAR"@) == Some(DataType::Str),
        known_type("TEXT"@) == Some(DataType::Str),
        known_type("STRING"@) == Some(DataType::Str),
        forall|ty: DataType|
            !(ty is Vector) ==> known_type(#[trigger] name_of_type(ty)) == Some(ty),
{
    reveal_strlit("TINYINT");
    reveal_strlit("SMALLINT");
    reveal_strlit("INT");
    reveal_strlit("INTEGER");
    reveal_strlit("BIGINT");
    reveal_strlit("FLOAT");
    reveal_strlit("REAL");
    reveal_strlit("DOUBLE");
    reveal_strlit("DOUBLE PRECISION");
    reveal_strlit("DECIMAL");
    reveal_strlit("BOOLEAN");
    reveal_strlit("BOOL");
    reveal_strlit("CHAR");
    reveal_strlit("VARCHAR");
    reveal_strlit("TEXT");
    reveal_strlit("STRING");
    reveal_strlit("NVARCHAR");
    assert("TINYINT"@.len() == 7 && "TINYINT"@.last() == 'T' && "TINYINT"@[0] == 'T'
        && "TINYINT"@[1] == 'I');
    assert("SMALLINT"@.len() == 8 && "SMALLINT"@.last() == 'T' && "SMALLINT"@[0] == 'S'
        && "SMALLINT"@[1] == 'M');
    assert("INT"@.len() == 3 && "INT"@.last() == 'T' && "INT"@[0] == 'I' && "INT"@[1] == 'N');
    assert("INTEGER"@.len() == 7 && "INTEGER"@.last() == 'R' && "INTEGER"@[0] == 'I'
        && "INTEGER"@[1] == 'N');
    assert("BIGINT"@.len() == 6 && "BIGINT"@.last() == 'T' && "BIGINT"@[0] == 'B'
        && "BIGINT"@[1] == 'I');
    assert("FLOAT"@.len() == 5 && "FLOAT"@.last() == 'T' && "FLOAT"@[0] == 'F'
        && "FLOAT"@[1] == 'L');
    assert("REAL"@.len() == 4 && "REAL"@.last() == 'L' && "REAL"@[0] == 'R' && "REAL"@[1] == 'E');
    assert("DOUBLE"@.len() == 6 && "DOUBLE"@.last() == 'E' && "DOUBLE"@[0] == 'D'
        && "DOUBLE"@[1] == 'O');
    assert("DOUBLE PRECISION"@.len() == 16 && "DOUBLE PRECISION"@.last() == 'N'
        && "DOUBLE PRECISION"@[0] == 'D' && "DOUBLE PRECISION"@[1] == 'O');
    assert("DECIMAL"@.len() == 7 && "DECIMAL"@.last() == 'L' && "DECIMAL"@[0] == 'D'
        && "DECIMAL"@[1] == 'E');
    assert("BOOLEAN"@.len() == 7 && "BOOLEAN"@.last() == 'N' && "BOOLEAN"@[0] == 'B'
        && "BOOLEAN"@[1] == 'O');
    assert("BOOL"@.len() == 4 && "BOOL"@.last() == 'L' && "BOOL"@[0] == 'B' && "BOOL"@[1] == 'O');
    assert("CHAR"@.len() == 4 && "CHAR"@.last() == 'R' && "CHAR"@[0] == 'C' && "CHAR"@[1] == 'H');
    assert("VARCHAR"@.len() == 7 && "VARCHAR"@.last() == 'R' && "VARCHAR"@[0] == 'V'
        && "VARCHAR"@[1] == 'A');
    assert("TEXT"@.len() == 4 && "TEXT"@.last() == 'T' && "TEXT"@[0] == 'T' && "TEXT"@[1] == 'E');
    assert("STRING"@.len() == 6 && "STRING"@.last() == 'G' && "STRING"@[0] == 'S'
        && "STRING"@[1] == 'T');
    assert("NVARCHAR"@.len() == 8 && "NVARCHAR"@.last() == 'R' && "NVARCHAR"@[0] == 'N'
        && "NVARCHAR"@[1] == 'V');
}

} // verus!
