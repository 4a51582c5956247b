//! SQL text: which dialect it is written in, which relations it reads, and
//! rewriting those reads on the parsed query rather than on its characters.

use polyglot_sql::expressions::Expression::{Select, Subquery as Nested, Table};
use polyglot_sql::expressions::{Cte, Expression, Identifier, Subquery, With};
use polyglot_sql::traversal::{is_aggregate, transform, transform_map, ExpressionWalk};
use polyglot_sql::{generate, parse_one};
use std::cell::RefCell;
use vstd::prelude::*;

use crate::counts::{all_counts_fit, all_held_counts_fit, count_fits, held_counts_fit, sql_models, SqlModel, SqlNode};
use crate::text::{
    ascii_lower, contains_text, eq_ignore_ascii_case, same_ignoring_case, split, split_on, splitting_at_a_separator,
    splitting_without_a_separator, text_eq, texts, trim_matches, trimmed, Text,
};

verus! {

/// The SQL dialects that queries are read and written in.
#[derive(Debug, Clone, Copy, PartialEq, Eq, Structural)]
pub enum Dialect {
    DuckDB,
    PostgreSQL,
    MySQL,
    SQLite,
    BigQuery,
    Generic,
}

/// The name by which the SQL parser knows a dialect.
pub open spec fn dialect_name(d: Dialect) -> Text {
    match d {
        Dialect::DuckDB => "duckdb"@,
        Dialect::PostgreSQL => "postgresql"@,
        Dialect::MySQL => "mysql"@,
        Dialect::SQLite => "sqlite"@,
        Dialect::BigQuery => "bigquery"@,
        Dialect::Generic => "generic"@,
    }
}

impl Dialect {
    /// The name by which the SQL parser knows the dialect.
    pub fn name(self) -> (r: &'static str)
        ensures
            r@ == dialect_name(self),
    {
        match self {
            Dialect::DuckDB => "duckdb",
            Dialect::PostgreSQL => "postgresql",
            Dialect::MySQL => "mysql",
            Dialect::SQLite => "sqlite",
            Dialect::BigQuery => "bigquery",
            Dialect::Generic => "generic",
        }
    }
}

/// What `str::to_lowercase` makes of a text.
pub uninterp spec fn unicode_lower(s: Seq<char>) -> Seq<char>;

/// Every character of the text is ASCII.
pub open spec fn all_ascii(s: Text) -> bool {
    forall|i: int| 0 <= i < s.len() ==> (#[trigger] s[i]) as int <= 127
}

/// `str::to_lowercase` is a function of the text; on ASCII text it lowers the
/// letters `A` to `Z` and leaves the rest.
pub assume_specification[ str::to_lowercase ](s: &str) -> (r: String)
    ensures
        r@ == unicode_lower(s@),
        all_ascii(s@) ==> r@ == ascii_lower(s@),
;

/// The dialect that a lower-case engine name stands for.
pub open spec fn named_dialect(lower: Text) -> Dialect {
    if lower == "postgresql"@ || lower == "postgres"@ {
        Dialect::PostgreSQL
    } else if lower == "mysql"@ {
        Dialect::MySQL
    } else if lower == "sqlite"@ {
        Dialect::SQLite
    } else if lower == "bigquery"@ {
        Dialect::BigQuery
    } else if lower == "default"@ {
        Dialect::Generic
    } else {
        Dialect::DuckDB
    }
}

/// The dialect that a lower-case engine name stands for: DuckDB, the primary
/// target, where the name says nothing else.
pub fn dialect_of_lower(lower: &str) -> (r: Dialect)
    ensures
        r == named_dialect(lower@),
{
    if text_eq(lower, "postgresql") || text_eq(lower, "postgres") {
        Dialect::PostgreSQL
    } else if text_eq(lower, "mysql") {
        Dialect::MySQL
    } else if text_eq(lower, "sqlite") {
        Dialect::SQLite
    } else if text_eq(lower, "bigquery") {
        Dialect::BigQuery
    } else if text_eq(lower, "default") {
        Dialect::Generic
    } else {
        Dialect::DuckDB
    }
}

/// The dialect of the engine named `db`, whatever the case of its letters.
pub fn dialect_for_db(db: &str) -> (r: Dialect)
    ensures
        r == named_dialect(unicode_lower(db@)),
        all_ascii(db@) ==> r == named_dialect(ascii_lower(db@)),
{
    let lower = db.to_lowercase();
    dialect_of_lower(lower.as_str())
}

/// A relation as a query spells it: its name, and what stands before it.
#[derive(Debug)]
pub struct TableName {
    pub catalog: Option<String>,
    pub schema: Option<String>,
    pub name: String,
}

/// A relation's spelling, as the specifications see it.
#[verifier::ext_equal]
pub struct NameModel {
    pub catalog: Option<Text>,
    pub schema: Option<Text>,
    pub name: Text,
}

/// The text inside an optional string.
pub open spec fn text_in(s: Option<String>) -> Option<Text> {
    match s {
        Some(x) => Some(x@),
        None => None,
    }
}

impl View for TableName {
    type V = NameModel;

    open spec fn view(&self) -> NameModel {
        NameModel { catalog: text_in(self.catalog), schema: text_in(self.schema), name: self.name@ }
    }
}

/// The spellings of a list of relations.
pub open spec fn spellings(s: Seq<TableName>) -> Seq<NameModel> {
    s.map_values(|t: TableName| t@)
}

/// The spellings inside a list of optional relations.
pub open spec fn spellings_in(s: Seq<Option<TableName>>) -> Seq<Option<NameModel>> {
    s.map_values(
        |x: Option<TableName>|
            match x {
                Some(t) => Some(t@),
                None => None,
            },
    )
}

/// A reference to a relation: how it is spelled, and whether it has an alias.
#[derive(Debug)]
pub struct TableUse {
    pub table: TableName,
    pub aliased: bool,
}

/// A reference, as the specifications see it.
#[verifier::ext_equal]
pub struct UseModel {
    pub table: NameModel,
    pub aliased: bool,
}

impl View for TableUse {
    type V = UseModel;

    open spec fn view(&self) -> UseModel {
        UseModel { table: self.table@, aliased: self.aliased }
    }
}

/// The references of a list.
pub open spec fn uses(s: Seq<TableUse>) -> Seq<UseModel> {
    s.map_values(|u: TableUse| u@)
}

/// The spellings of a list of references.
pub open spec fn tables_of(s: Seq<UseModel>) -> Seq<NameModel> {
    s.map_values(|u: UseModel| u.table)
}

/// The aliases of a list of optional ones, each of which may leave it to the
/// reference.
pub open spec fn aliases_in(s: Seq<Option<Option<String>>>) -> Seq<Option<Option<Text>>> {
    s.map_values(
        |x: Option<Option<String>>|
            match x {
                Some(a) => Some(text_in(a)),
                None => None,
            },
    )
}

/// One node of the expressions of a select list, each of which stands before
/// what lies below it.
#[derive(Debug)]
pub struct SelectNode {
    /// The kind of node.
    pub kind: String,
    /// Whether it is a call of an aggregate function.
    pub aggregate: bool,
    /// How many nodes it is made of, itself among them.
    pub size: usize,
}

/// A node of a select list, as the specifications see it.
#[verifier::ext_equal]
pub struct SelectModel {
    pub kind: Text,
    pub aggregate: bool,
    pub size: usize,
}

impl View for SelectNode {
    type V = SelectModel;

    open spec fn view(&self) -> SelectModel {
        SelectModel { kind: self.kind@, aggregate: self.aggregate, size: self.size }
    }
}

/// The nodes of a select list.
pub open spec fn select_models(s: Seq<SelectNode>) -> Seq<SelectModel> {
    s.map_values(|n: SelectNode| n@)
}

/// The dialects that the SQL parser is asked for.
pub open spec fn known_dialect(name: Text) -> bool {
    exists|d: Dialect| #[trigger] dialect_name(d) == name
}

/// The dialects whose row counts are worked out before they are printed.
pub open spec fn folds_counts(dialect: Text) -> bool {
    dialect == "mysql"@ || dialect == "bigquery"@
}

/// The row counts of a query can be worked out in machine numbers.
pub open spec fn counts_fit(sql: Text, dialect: Text) -> bool {
    &&& match select_counts_of(sql, dialect) {
        Some(counts) => forall|i: int| 0 <= i < counts.len() ==> count_fits(#[trigger] counts[i]),
        None => true,
    }
    &&& match nodes_of(sql, dialect) {
        Some(nodes) => held_counts_fit(nodes),
        None => true,
    }
}

/// A query can be printed once it is parsed: it has no comment of just `/*/`,
/// which has no inside to print, and its row counts fit where they are worked
/// out.
pub open spec fn printable(sql: Text, dialect: Text) -> bool {
    &&& match comments_of(sql, dialect) {
        Some(comments) => !comments.contains("/*/"@),
        None => true,
    }
    &&& folds_counts(dialect) ==> counts_fit(sql, dialect)
}

/// Whether a query can be printed once it is parsed.
pub fn is_printable(sql: &str, dialect: Dialect) -> (r: bool)
    ensures
        r == printable(sql@, dialect_name(dialect)),
{
    let name = dialect.name();
    if let Some(list) = comments(sql, name) {
        if contains_text(&list, "/*/") {
            return false;
        }
    }
    if !text_eq(name, "mysql") && !text_eq(name, "bigquery") {
        return true;
    }
    if let Some(counts) = select_counts(sql, name) {
        let ghost found = count_models(counts@);
        proof {
            assert(forall|i: int| 0 <= i < counts@.len() ==> #[trigger] found[i] == sql_models(counts@[i]@));
        }
        if !all_counts_fit(&counts) {
            proof {
                let i = choose|i: int| 0 <= i < counts@.len() && !count_fits(sql_models(#[trigger] counts@[i]@));
                assert(0 <= i < found.len() && !count_fits(found[i]));
                let all = select_counts_of(sql@, name@)->Some_0;
                assert(all == found);
                assert(!count_fits(all[i]));
            }
            return false;
        }
        proof {
            assert forall|i: int| 0 <= i < found.len() implies count_fits(#[trigger] found[i]) by {
                assert(count_fits(sql_models(counts@[i]@)));
            }
        }
    }
    if let Some(nodes) = query_nodes(sql, name) {
        if !all_held_counts_fit(&nodes) {
            return false;
        }
    }
    true
}

/// The comments that the tokens of a text carry, as
/// `polyglot_sql::Dialect::tokenize` reads them; none where it does not take the
/// text.
pub uninterp spec fn comments_of(sql: Seq<char>, dialect: Seq<char>) -> Option<Seq<Seq<char>>>;

/// The LIMIT, OFFSET and FETCH counts of every SELECT in a query, node by node;
/// none where `polyglot_sql::parse_one` does not take the text.
pub uninterp spec fn select_counts_of(sql: Seq<char>, dialect: Seq<char>) -> Option<Seq<Seq<SqlModel>>>;

/// The nodes of a query; none where `polyglot_sql::parse_one` does not take the
/// text.
pub uninterp spec fn nodes_of(sql: Seq<char>, dialect: Seq<char>) -> Option<Seq<SqlModel>>;

/// The nodes of each of a list of expressions.
pub open spec fn count_models(s: Seq<Vec<SqlNode>>) -> Seq<Seq<SqlModel>> {
    s.map_values(|v: Vec<SqlNode>| sql_models(v@))
}

/// `polyglot_sql::Dialect::tokenize`, of whose tokens the comments are read off.
/// They are a function of the text and the dialect; no clause says more of it.
#[verifier::external_body]
fn comments(sql: &str, dialect: &str) -> (r: Option<Vec<String>>)
    ensures
        (match r {
            Some(v) => Some(texts(v@)),
            None => None,
        }) == comments_of(sql@, dialect@),
{
    let tokens = polyglot_sql::Dialect::get(dialect.parse().ok()?).tokenize(sql).ok()?;
    Some(tokens.into_iter().flat_map(|t| t.comments.into_iter().chain(t.trailing_comments)).collect())
}

/// `polyglot_sql::parse_one`, of whose result the counts of LIMIT, OFFSET and
/// FETCH of every SELECT are read off, each by its nodes in the order of
/// `traversal::ExpressionWalk::dfs`. They are a function of the text and the
/// dialect; no clause says more of it.
#[verifier::external_body]
fn select_counts(sql: &str, dialect: &str) -> (r: Option<Vec<Vec<SqlNode>>>)
    ensures
        (match r {
            Some(v) => Some(count_models(v@)),
            None => None,
        }) == select_counts_of(sql@, dialect@),
{
    let query = parse_one(sql, dialect.parse().ok()?).ok()?;
    Some(query.dfs().flat_map(|n| match n {
        Select(s) => [s.limit.as_ref().map(|l| &l.this), s.offset.as_ref().map(|o| &o.this),
            s.fetch.as_ref().and_then(|f| f.count.as_ref())],
        _ => [None; 3],
    }).flatten().map(|e| e.dfs().map(|n| SqlNode {
        text: match n { Expression::Literal(l) => l.to_string(), _ => n.variant_name().to_string() },
        size: n.dfs().count(),
    }).collect()).collect())
}

/// `polyglot_sql::parse_one`, of whose result the nodes are read off in the order
/// of `traversal::ExpressionWalk::dfs`. They are a function of the text and the
/// dialect; no clause says more of it.
#[verifier::external_body]
fn query_nodes(sql: &str, dialect: &str) -> (r: Option<Vec<SqlNode>>)
    ensures
        (match r {
            Some(v) => Some(sql_models(v@)),
            None => None,
        }) == nodes_of(sql@, dialect@),
{
    let query = parse_one(sql, dialect.parse().ok()?).ok()?;
    Some(query.dfs().map(|n| SqlNode {
        text: match n { Expression::Literal(l) => l.to_string(), _ => n.variant_name().to_string() },
        size: n.dfs().count(),
    }).collect())
}

/// The table references of a query, in the order in which
/// `polyglot_sql::traversal::transform` visits them; none where
/// `polyglot_sql::parse_one` does not take the text.
pub uninterp spec fn parsed_table_refs(sql: Seq<char>, dialect: Seq<char>) -> Option<Seq<UseModel>>;

/// What `polyglot_sql::generate` prints of a query after each table reference,
/// in the order of the visit, has been given the spelling at its place in the
/// list, where one stands there.
pub uninterp spec fn renamed_sql(sql: Seq<char>, dialect: Seq<char>, names: Seq<Option<NameModel>>) -> Option<Seq<char>>;

/// What `polyglot_sql::generate` prints of a query after each table reference
/// for which something stands at its place in the list has become a subquery of
/// the second text: under the alias that stands there, or else under its own.
pub uninterp spec fn inlined_sql(
    sql: Seq<char>,
    view_sql: Seq<char>,
    dialect: Seq<char>,
    aliases: Seq<Option<Option<Seq<char>>>>,
) -> Option<Seq<char>>;

/// The kind of statement that `polyglot_sql::parse_one` reads, and how many
/// common table expressions a SELECT or a set operation begins with.
pub uninterp spec fn statement_of(sql: Seq<char>, dialect: Seq<char>) -> Option<(Seq<char>, usize)>;

/// What `polyglot_sql::generate` prints of a SELECT or a set operation after a
/// common table expression of the given name, body and mark has been put at the
/// given place among those that it begins with.
pub uninterp spec fn cte_wrapped_sql(
    sql: Seq<char>,
    name: Seq<char>,
    body: Seq<char>,
    dialect: Seq<char>,
    at: usize,
    materialized: Option<bool>,
) -> Option<Seq<char>>;

/// What `polyglot_sql::parse_one` says against a text; nothing where it takes
/// the text.
pub uninterp spec fn sql_parse_error(sql: Seq<char>, dialect: Seq<char>) -> Option<Seq<char>>;

/// Of a query that `polyglot_sql::parse_one` reads as a plain SELECT: whether
/// it has a GROUP BY, and the nodes of its select list.
pub uninterp spec fn select_shape_of(sql: Seq<char>, dialect: Seq<char>) -> Option<(bool, Seq<SelectModel>)>;

/// `polyglot_sql::parse_one` and a visit by
/// `polyglot_sql::traversal::transform` that changes nothing: the table
/// references of `sql`. They are a function of the text and the dialect; what
/// that function is, the grammar says, and no clause does.
#[verifier::external_body]
fn table_refs(sql: &str, dialect: &str) -> (r: Option<Vec<TableUse>>)
    ensures
        (match r {
            Some(v) => Some(uses(v@)),
            None => None,
        }) == parsed_table_refs(sql@, dialect@),
{
    let parsed = parse_one(sql, dialect.parse().ok()?).ok()?;
    let found = RefCell::new(Vec::new());
    let visited = transform(parsed, &|node| {
        if let Table(t) = &node {
            let catalog = t.catalog.as_ref().map(|i| i.name.clone());
            let schema = t.schema.as_ref().map(|i| i.name.clone());
            let table = TableName { catalog, schema, name: t.name.name.clone() };
            found.borrow_mut().push(TableUse { table, aliased: t.alias.is_some() });
        }
        Ok(Some(node))
    });
    visited.ok()?;
    Some(found.into_inner())
}

/// `polyglot_sql::parse_one`, `traversal::transform` and `generate`: spells each
/// table reference as it stands at its place in `names`, where something stands
/// there. The printed text is a function of the arguments; no clause says more
/// of it. `generate` panics on a comment of just `/*/` and, for MySQL and
/// BigQuery, where a constant row count leaves the machine numbers, so the text
/// must be printable.
#[verifier::external_body]
fn rename_tables(sql: &str, dialect: &str, names: &Vec<Option<TableName>>) -> (r: Option<String>)
    requires
        known_dialect(dialect@),
        printable(sql@, dialect@),
    ensures
        text_in(r) == renamed_sql(sql@, dialect@, spellings_in(names@)),
{
    let parsed = parse_one(sql, dialect.parse().ok()?).ok()?;
    let next = RefCell::new(names.iter());
    let rewritten = transform(parsed, &|node| match node {
        Table(mut t) => {
            if let Some(Some(new)) = next.borrow_mut().next() {
                t.name = Identifier::new(new.name.clone());
                t.schema = new.schema.clone().map(Identifier::new);
                t.catalog = new.catalog.clone().map(Identifier::new);
            }
            Ok(Some(Table(t)))
        }
        other => Ok(Some(other)),
    });
    generate(&rewritten.ok()?, dialect.parse().ok()?).ok()
}

/// `polyglot_sql::parse_one`, `traversal::transform_map` and `generate`: puts the
/// query `view_sql`, as a subquery, in place of each table reference for which
/// something stands at its place in `aliases`: under that alias, or else under
/// its own. Nothing where either text does not parse. The printed text is a
/// function of the arguments; no clause says more of it. Both texts must be
/// printable, as for `rename_tables`.
#[verifier::external_body]
fn inline_tables(sql: &str, view_sql: &str, dialect: &str, aliases: Vec<Option<Option<String>>>) -> (r: Option<String>)
    requires
        known_dialect(dialect@),
        printable(sql@, dialect@),
        printable(view_sql@, dialect@),
    ensures
        text_in(r) == inlined_sql(sql@, view_sql@, dialect@, aliases_in(aliases@)),
{
    let d = dialect.parse().ok()?;
    let next = RefCell::new(aliases.into_iter());
    let Nested(mut view) = parse_one("(SELECT 1)", d).ok()? else { return None };
    view.this = parse_one(view_sql, d).ok()?;
    generate(&transform_map(parse_one(sql, d).ok()?, &|node| Ok(match node {
        Table(t) => match next.borrow_mut().next() {
            Some(Some(new)) => Nested(Box::new(Subquery { alias: new.map(Identifier::new).or(t.alias),
                column_aliases: t.column_aliases, alias_explicit_as: t.alias_explicit_as, ..*view.clone() })),
            _ => Table(t),
        },
        other => other,
    })).ok()?, d).ok()
}

/// `polyglot_sql::parse_one`: the kind of statement that a text is, and how many
/// common table expressions it begins with where it is a SELECT or a set
/// operation. They are a function of the text and the dialect; no clause says
/// more of it.
#[verifier::external_body]
fn statement(sql: &str, dialect: &str) -> (r: Option<(String, usize)>)
    ensures
        (match r {
            Some((kind, n)) => Some((kind@, n)),
            None => None,
        }) == statement_of(sql@, dialect@),
{
    let query = parse_one(sql, dialect.parse().ok()?).ok()?;
    let with = match &query {
        Select(s) => s.with.as_ref(),
        Expression::Union(s) => s.with.as_ref(),
        Expression::Intersect(s) => s.with.as_ref(),
        Expression::Except(s) => s.with.as_ref(),
        _ => None,
    };
    Some((query.variant_name().to_string(), with.map(|w| w.ctes.len()).unwrap_or_default()))
}

/// `polyglot_sql::parse_one` on both texts and `generate`: puts `body`, as a
/// common table expression called `name` and with the given mark, at place `at`
/// among those that `sql` begins with; nothing where `sql` is neither a SELECT
/// nor a set operation. The printed text is a function of the arguments; no
/// clause says more of it. Both texts must be printable, as for
/// `rename_tables`.
#[verifier::external_body]
fn insert_cte(sql: &str, name: &str, body: &str, dialect: &str, at: usize, materialized: Option<bool>) -> (r: Option<String>)
    requires
        known_dialect(dialect@),
        printable(sql@, dialect@),
        printable(body@, dialect@),
        statement_of(sql@, dialect@) matches Some(s) && at <= s.1,
    ensures
        text_in(r) == cte_wrapped_sql(sql@, name@, body@, dialect@, at, materialized),
{
    let d = dialect.parse().ok()?;
    let mut query = parse_one(sql, d).ok()?;
    (match &mut query {
        Select(s) => &mut s.with,
        Expression::Union(s) => &mut s.with,
        Expression::Intersect(s) => &mut s.with,
        Expression::Except(s) => &mut s.with,
        _ => return None,
    }).get_or_insert(With { ctes: vec![], recursive: false, leading_comments: vec![], search: None })
        .ctes.insert(at, Cte { alias: Identifier::new(name), this: parse_one(body, d).ok()?, columns: vec![],
            materialized, key_expressions: vec![], alias_first: true, comments: vec![] });
    generate(&query, d).ok()
}

/// `polyglot_sql::parse_one` as a check: nothing where it takes the text, and
/// otherwise the message of its error.
#[verifier::external_body]
pub(crate) fn parse_error(sql: &str, dialect: &str) -> (r: Option<String>)
    ensures
        text_in(r) == sql_parse_error(sql@, dialect@),
{
    parse_one(sql, dialect.parse().unwrap_or_default()).err().map(|e| e.to_string())
}

/// `polyglot_sql::parse_one`, of whose result the nodes of an outermost SELECT's
/// select list are read off, in the order of `traversal::ExpressionWalk::dfs`,
/// with what `traversal::is_aggregate` says of each; nothing where the text does
/// not parse or is no SELECT. They are a function of the text and the dialect;
/// no clause says more of it.
#[verifier::external_body]
fn select_shape(sql: &str, dialect: &str) -> (r: Option<(bool, Vec<SelectNode>)>)
    ensures
        (match r {
            Some(s) => Some((s.0, select_models(s.1@))),
            None => None,
        }) == select_shape_of(sql@, dialect@),
{
    match parse_one(sql, dialect.parse().ok()?).ok()? {
        Select(s) => Some((
            s.group_by.is_some(),
            s.expressions.iter().flat_map(|e| e.dfs()).map(|n| SelectNode {
                kind: n.variant_name().to_string(),
                aggregate: is_aggregate(n),
                size: n.dfs().count(),
            }).collect(),
        )),
        _ => None,
    }
}

/// The parts of a node id that may be qualified, each without its quotes:
/// `"warehouse"."main"."orders"` has three.
pub open spec fn id_parts(node_id: Text) -> Seq<Text> {
    split(node_id, '.').map_values(|p: Text| trimmed(p, '"'))
}

/// The qualifiers that a reference spells out, outermost first.
pub open spec fn qualifiers(t: NameModel) -> Seq<Text> {
    (match t.catalog {
        Some(c) => seq![c],
        None => Seq::<Text>::empty(),
    }) + (match t.schema {
        Some(s) => seq![s],
        None => Seq::<Text>::empty(),
    })
}

/// Two lists of names agree, but for case, as far as both go, counted from
/// their ends.
pub open spec fn agree_from_right(a: Seq<Text>, b: Seq<Text>) -> bool {
    forall|k: int|
        0 <= k < a.len() && k < b.len() ==> #[trigger] same_ignoring_case(a[a.len() - 1 - k], b[b.len() - 1 - k])
}

/// The reference `t` means the node `node_id`: the names agree, and so do the
/// qualifiers that both sides spell out.
pub open spec fn ref_matches(t: NameModel, node_id: Text) -> bool {
    let parts = id_parts(node_id);
    same_ignoring_case(t.name, parts.last()) && agree_from_right(qualifiers(t), parts.drop_last())
}

/// The parts of `node_id`, each without its quotes.
pub fn parts_of(node_id: &str) -> (r: Vec<String>)
    ensures
        texts(r@) == id_parts(node_id@),
        r@.len() >= 1,
{
    let pieces = split_on(node_id, '.');
    let mut out: Vec<String> = Vec::new();
    let mut i: usize = 0;
    while i < pieces.len()
        invariant
            i <= pieces@.len(),
            texts(pieces@) == split(node_id@, '.'),
            texts(out@) == id_parts(node_id@).take(i as int),
        decreases pieces@.len() - i,
    {
        let ghost before = texts(out@);
        out.push(trim_matches(pieces[i].as_str(), '"'));
        proof {
            assert(texts(pieces@)[i as int] == pieces@[i as int]@);
            assert(texts(out@) =~= before.push(id_parts(node_id@)[i as int]));
            assert(id_parts(node_id@).take(i + 1) =~= id_parts(node_id@).take(i as int).push(id_parts(node_id@)[i as int]));
        }
        i = i + 1;
    }
    proof {
        assert(id_parts(node_id@).take(pieces@.len() as int) =~= id_parts(node_id@));
        assert(texts(out@).len() == out@.len());
    }
    out
}

/// Whether the reference `table` means the node `node_id`.
pub fn table_ref_matches(table: &TableName, node_id: &str) -> (r: bool)
    ensures
        r == ref_matches(table@, node_id@),
{
    let parts = parts_of(node_id);
    let last: usize = parts.len() - 1;
    let ghost ids = id_parts(node_id@);
    proof {
        assert(ids.last() == parts@[last as int]@);
        assert forall|k: int| 0 <= k < ids.drop_last().len() implies ids.drop_last()[k] == parts@[k]@ by {
            assert(texts(parts@)[k] == parts@[k]@);
        }
    }
    if !eq_ignore_ascii_case(table.name.as_str(), parts[last].as_str()) {
        return false;
    }
    let mut refs: Vec<&String> = Vec::new();
    if let Some(c) = &table.catalog {
        refs.push(c);
    }
    if let Some(s) = &table.schema {
        refs.push(s);
    }
    let ghost quals = qualifiers(table@);
    proof {
        assert(refs@.len() == quals.len());
        assert forall|k: int| 0 <= k < quals.len() implies quals[k] == refs@[k]@ by {}
    }
    let mut k: usize = 0;
    while k < refs.len() && k < last
        invariant
            k <= refs@.len() == quals.len(),
            k <= last,
            last + 1 == parts@.len(),
            ids == id_parts(node_id@),
            ids.len() == parts@.len(),
            quals == qualifiers(table@),
            forall|q: int| 0 <= q < quals.len() ==> quals[q] == (#[trigger] refs@[q])@,
            forall|q: int| 0 <= q < ids.drop_last().len() ==> ids.drop_last()[q] == (#[trigger] parts@[q])@,
            forall|q: int|
                0 <= q < k ==> #[trigger] same_ignoring_case(
                    quals[quals.len() - 1 - q],
                    ids.drop_last()[ids.drop_last().len() - 1 - q],
                ),
        decreases refs@.len() - k,
    {
        let a: usize = refs.len() - 1 - k;
        let b: usize = last - 1 - k;
        proof {
            assert(quals[a as int] == refs@[a as int]@);
            assert(ids.drop_last()[b as int] == parts@[b as int]@);
        }
        if !eq_ignore_ascii_case(refs[a].as_str(), parts[b].as_str()) {
            proof {
                assert(!same_ignoring_case(quals[quals.len() - 1 - k], ids.drop_last()[ids.drop_last().len() - 1 - k]));
            }
            return false;
        }
        k = k + 1;
    }
    true
}

/// A replacement of references to one node by references to another name.
#[derive(Debug)]
pub struct Renaming {
    pub node_id: String,
    pub new_name: String,
}

impl View for Renaming {
    type V = (Text, Text);

    open spec fn view(&self) -> (Text, Text) {
        (self.node_id@, self.new_name@)
    }
}

/// A list of replacements as pairs of a node id and its new name.
pub open spec fn renamings(s: Seq<Renaming>) -> Seq<(Text, Text)> {
    s.map_values(|r: Renaming| r@)
}

/// The new name that the first entry of `mapping`, from `from` on, that the
/// reference means gives it.
pub open spec fn new_name_from(t: NameModel, mapping: Seq<(Text, Text)>, from: nat) -> Option<Text>
    decreases mapping.len() - from,
{
    if from >= mapping.len() {
        None
    } else if ref_matches(t, mapping[from as int].0) {
        Some(mapping[from as int].1)
    } else {
        new_name_from(t, mapping, from + 1)
    }
}

/// The relations of a list of references.
fn tables_in(refs: &Vec<TableUse>) -> (r: Vec<TableName>)
    ensures
        spellings(r@) == tables_of(uses(refs@)),
{
    let mut out: Vec<TableName> = Vec::new();
    let mut i: usize = 0;
    while i < refs.len()
        invariant
            i <= refs@.len(),
            out@.len() == i,
            forall|k: int| 0 <= k < i ==> (#[trigger] out@[k])@ == refs@[k].table@,
        decreases refs@.len() - i,
    {
        let t = &refs[i].table;
        out.push(TableName { catalog: copy_text_in(&t.catalog), schema: copy_text_in(&t.schema), name: t.name.clone() });
        i = i + 1;
    }
    proof {
        assert(spellings(out@) =~= tables_of(uses(refs@)));
    }
    out
}

fn copy_text_in(s: &Option<String>) -> (r: Option<String>)
    ensures
        text_in(r) == text_in(*s),
{
    match s {
        Some(x) => Some(x.clone()),
        None => None,
    }
}

/// The relations that `sql` refers to; none where it does not parse.
pub fn references(sql: &str, dialect: Dialect) -> (r: Option<Vec<TableName>>)
    ensures
        match r {
            Some(v) => parsed_table_refs(sql@, dialect_name(dialect)) matches Some(refs) && spellings(v@) == tables_of(refs),
            None => parsed_table_refs(sql@, dialect_name(dialect)) is None,
        },
{
    match table_refs(sql, dialect.name()) {
        Some(refs) => Some(tables_in(&refs)),
        None => None,
    }
}

/// The new spelling, if any, of a reference: the new name, unqualified.
pub open spec fn new_spelling(t: NameModel, mapping: Seq<(Text, Text)>) -> Option<NameModel> {
    match new_name_from(t, mapping, 0) {
        Some(name) => Some(NameModel { catalog: None, schema: None, name }),
        None => None,
    }
}

/// The new spelling, if any, of each reference.
pub open spec fn new_names(refs: Seq<NameModel>, mapping: Seq<(Text, Text)>) -> Seq<Option<NameModel>> {
    refs.map_values(|t: NameModel| new_spelling(t, mapping))
}

/// `sql` after the references that `mapping` names have been renamed.
pub open spec fn rewritten_refs(sql: Text, mapping: Seq<(Text, Text)>, dialect: Dialect) -> Option<Text> {
    if !printable(sql, dialect_name(dialect)) {
        None
    } else {
        match parsed_table_refs(sql, dialect_name(dialect)) {
            Some(refs) => renamed_sql(sql, dialect_name(dialect), new_names(tables_of(refs), mapping)),
            None => None,
        }
    }
}

/// The new spelling, if any, that `mapping` gives each of `refs`: the new name,
/// unqualified.
pub fn choose_names(refs: &Vec<TableName>, mapping: &Vec<Renaming>) -> (r: Vec<Option<TableName>>)
    ensures
        spellings_in(r@) == new_names(spellings(refs@), renamings(mapping@)),
{
    let mut out: Vec<Option<TableName>> = Vec::new();
    let mut i: usize = 0;
    while i < refs.len()
        invariant
            i <= refs@.len(),
            out@.len() == i,
            forall|k: int|
                0 <= k < i ==> (match #[trigger] out@[k] {
                    Some(t) => Some(t@),
                    None => None,
                }) == new_spelling(refs@[k]@, renamings(mapping@)),
        decreases refs@.len() - i,
    {
        let mut found: Option<TableName> = None;
        let mut j: usize = 0;
        while j < mapping.len() && found.is_none()
            invariant
                i < refs@.len(),
                j <= mapping@.len(),
                match found {
                    None => new_name_from(refs@[i as int]@, renamings(mapping@), 0) == new_name_from(
                        refs@[i as int]@,
                        renamings(mapping@),
                        j as nat,
                    ),
                    Some(t) => new_name_from(refs@[i as int]@, renamings(mapping@), 0) == Some(t.name@) && t.catalog is None
                        && t.schema is None,
                },
            decreases mapping@.len() - j,
        {
            if table_ref_matches(&refs[i], mapping[j].node_id.as_str()) {
                found = Some(TableName { catalog: None, schema: None, name: mapping[j].new_name.clone() });
            }
            j = j + 1;
        }
        out.push(found);
        i = i + 1;
    }
    proof {
        assert(spellings_in(out@) =~= new_names(spellings(refs@), renamings(mapping@)));
    }
    out
}

/// `sql` with every reference to a node that `mapping` names under its new
/// name; nothing where `sql` does not parse or cannot be printed again.
///
/// Only parsed table references change: a node id inside a string literal, a
/// column name or a longer identifier stays.
pub fn rewrite_node_refs(sql: &str, mapping: &Vec<Renaming>, dialect: Dialect) -> (r: Option<String>)
    ensures
        text_in(r) == rewritten_refs(sql@, renamings(mapping@), dialect),
{
    if !is_printable(sql, dialect) {
        return None;
    }
    match references(sql, dialect) {
        Some(refs) => {
            let names = choose_names(&refs, mapping);
            rename_tables(sql, dialect.name(), &names)
        },
        None => None,
    }
}

/// A statement of this kind can begin with common table expressions.
pub open spec fn takes_cte(kind: Text) -> bool {
    kind == "select"@ || kind == "union"@ || kind == "intersect"@ || kind == "except"@
}

/// `sql` with `body` as the first of its common table expressions, marked
/// `MATERIALIZED`.
pub open spec fn wrapped_in_cte(sql: Text, name: Text, body: Text, dialect: Dialect) -> Option<Text> {
    if !printable(sql, dialect_name(dialect)) || !printable(body, dialect_name(dialect)) {
        None
    } else {
        match statement_of(sql, dialect_name(dialect)) {
            Some(s) => if takes_cte(s.0) {
                cte_wrapped_sql(sql, name, body, dialect_name(dialect), 0, Some(true))
            } else {
                None
            },
            None => None,
        }
    }
}

/// `sql` with `body` before it as a materialized common table expression
/// called `name`, ahead of those that `sql` has. Nothing where either text does
/// not parse or cannot be printed, or `sql` cannot have one.
pub fn wrap_in_materialized_cte(sql: &str, name: &str, body: &str, dialect: Dialect) -> (r: Option<String>)
    ensures
        text_in(r) == wrapped_in_cte(sql@, name@, body@, dialect),
{
    if !is_printable(sql, dialect) || !is_printable(body, dialect) {
        return None;
    }
    match statement(sql, dialect.name()) {
        Some((kind, _)) => {
            let k = kind.as_str();
            if text_eq(k, "select") || text_eq(k, "union") || text_eq(k, "intersect") || text_eq(k, "except") {
                insert_cte(sql, name, body, dialect.name(), 0, Some(true))
            } else {
                None
            }
        },
        None => None,
    }
}

/// How to inline the view at a reference: not at all where the reference does
/// not mean it; else under the reference's own alias, or under the view's bare
/// name where it has none.
pub open spec fn inline_alias(u: UseModel, view_id: Text) -> Option<Option<Text>> {
    if !ref_matches(u.table, view_id) {
        None
    } else if u.aliased {
        Some(None)
    } else {
        Some(Some(id_parts(view_id).last()))
    }
}

/// How to inline the view at each reference.
pub open spec fn inline_aliases(refs: Seq<UseModel>, view_id: Text) -> Seq<Option<Option<Text>>> {
    refs.map_values(|u: UseModel| inline_alias(u, view_id))
}

/// Some reference means the view.
pub open spec fn any_matches(refs: Seq<UseModel>, view_id: Text) -> bool {
    exists|k: int| 0 <= k < refs.len() && ref_matches((#[trigger] refs[k]).table, view_id)
}

/// `table_sql` after each reference to the view has become a subquery of the
/// view's own query; nothing where there is no such reference.
pub open spec fn inlined_view(table_sql: Text, view_id: Text, view_sql: Text, dialect: Dialect) -> Option<Text> {
    if !printable(table_sql, dialect_name(dialect)) || !printable(view_sql, dialect_name(dialect)) {
        None
    } else {
        match parsed_table_refs(table_sql, dialect_name(dialect)) {
            Some(refs) => if any_matches(refs, view_id) {
                inlined_sql(table_sql, view_sql, dialect_name(dialect), inline_aliases(refs, view_id))
            } else {
                None
            },
            None => None,
        }
    }
}

/// How to inline the view at each of `refs`; and whether any means it.
pub fn choose_aliases(refs: &Vec<TableUse>, view_id: &str) -> (r: (Vec<Option<Option<String>>>, bool))
    ensures
        aliases_in(r.0@) == inline_aliases(uses(refs@), view_id@),
        r.1 == any_matches(uses(refs@), view_id@),
{
    let bare = bare_table_name(view_id);
    let mut out: Vec<Option<Option<String>>> = Vec::new();
    let mut any = false;
    let ghost all = uses(refs@);
    let mut i: usize = 0;
    while i < refs.len()
        invariant
            i <= refs@.len(),
            all == uses(refs@),
            out@.len() == i,
            bare@ == id_parts(view_id@).last(),
            aliases_in(out@) == inline_aliases(all, view_id@).take(i as int),
            any == exists|k: int| 0 <= k < i && ref_matches((#[trigger] all[k]).table, view_id@),
        decreases refs@.len() - i,
    {
        let ghost before = any;
        let ghost had = aliases_in(out@);
        proof {
            assert(all[i as int] == refs@[i as int]@);
        }
        if table_ref_matches(&refs[i].table, view_id) {
            if refs[i].aliased {
                out.push(Some(None));
            } else {
                out.push(Some(Some(bare.clone())));
            }
            any = true;
        } else {
            out.push(None);
        }
        proof {
            let want = inline_aliases(all, view_id@);
            assert(aliases_in(out@) =~= had.push(want[i as int]));
            assert(want.take(i + 1) =~= want.take(i as int).push(want[i as int]));
            if before {
                let k = choose|k: int| 0 <= k < i && ref_matches((#[trigger] all[k]).table, view_id@);
                assert(0 <= k < i + 1 && ref_matches(all[k].table, view_id@));
            }
        }
        i = i + 1;
    }
    proof {
        let want = inline_aliases(all, view_id@);
        assert(want.take(refs@.len() as int) =~= want);
    }
    (out, any)
}

/// `table_sql` with every reference to the node `view_id` replaced by a
/// subquery of `view_sql`, under the reference's alias or else under the
/// view's bare name. Nothing where either text does not parse, the result
/// cannot be printed, or `table_sql` does not refer to the view.
pub fn inline_view_ast(table_sql: &str, view_id: &str, view_sql: &str, dialect: Dialect) -> (r: Option<String>)
    ensures
        text_in(r) == inlined_view(table_sql@, view_id@, view_sql@, dialect),
{
    if !is_printable(table_sql, dialect) || !is_printable(view_sql, dialect) {
        return None;
    }
    match table_refs(table_sql, dialect.name()) {
        Some(refs) => {
            let (aliases, any) = choose_aliases(&refs, view_id);
            if any {
                inline_tables(table_sql, view_sql, dialect.name(), aliases)
            } else {
                None
            }
        },
        None => None,
    }
}

/// The bare name of a node whose id may be qualified and quoted.
pub fn bare_table_name(node_id: &str) -> (r: String)
    ensures
        r@ == id_parts(node_id@).last(),
{
    let parts = parts_of(node_id);
    let last: usize = parts.len() - 1;
    proof {
        assert(texts(parts@)[last as int] == parts@[last as int]@);
    }
    parts[last].clone()
}

/// An aggregate below a node of this kind is not the query's own: it is a
/// window's, or another query's.
pub open spec fn shelters(kind: Text) -> bool {
    kind == "window_function"@ || kind == "subquery"@ || kind == "select"@ || kind == "union"@ || kind == "intersect"@ || kind
        == "except"@
}

/// The node at `i` lies above the one at `j` and keeps it from the query.
pub open spec fn sheltered_by(nodes: Seq<SelectModel>, i: int, j: int) -> bool {
    0 <= i < j < i + nodes[i].size && shelters(nodes[i].kind)
}

/// The node at `j` is a call of an aggregate function, of the query itself.
pub open spec fn aggregates_at(nodes: Seq<SelectModel>, j: int) -> bool {
    &&& 0 <= j < nodes.len()
    &&& nodes[j].aggregate
    &&& forall|i: int| 0 <= i < j ==> !#[trigger] sheltered_by(nodes, i, j)
}

/// A SELECT of this shape makes fewer rows of many: it has a GROUP BY, or an
/// aggregate stands in its select list.
pub open spec fn shape_collapses(shape: (bool, Seq<SelectModel>)) -> bool {
    shape.0 || exists|j: int| #[trigger] aggregates_at(shape.1, j)
}

/// Whether an aggregate below a node of this kind is not the query's own.
fn is_shelter(kind: &str) -> (r: bool)
    ensures
        r == shelters(kind@),
{
    text_eq(kind, "window_function") || text_eq(kind, "subquery") || text_eq(kind, "select") || text_eq(kind, "union")
        || text_eq(kind, "intersect") || text_eq(kind, "except")
}

/// Whether a SELECT with or without a GROUP BY, and with these nodes in its
/// select list, makes fewer rows of many.
pub fn select_collapses(grouped: bool, nodes: &Vec<SelectNode>) -> (r: bool)
    ensures
        r == shape_collapses((grouped, select_models(nodes@))),
{
    if grouped {
        return true;
    }
    let ghost all = select_models(nodes@);
    let mut j: usize = 0;
    while j < nodes.len()
        invariant
            j <= nodes@.len(),
            all == select_models(nodes@),
            forall|k: int| 0 <= k < j ==> !#[trigger] aggregates_at(all, k),
        decreases nodes@.len() - j,
    {
        proof {
            assert(all[j as int] == nodes@[j as int]@);
        }
        if nodes[j].aggregate {
            let mut free = true;
            let mut i: usize = 0;
            while i < j
                invariant
                    i <= j < nodes@.len(),
                    all == select_models(nodes@),
                    free == forall|k: int| 0 <= k < i ==> !#[trigger] sheltered_by(all, k, j as int),
                decreases j - i,
            {
                proof {
                    assert(all[i as int] == nodes@[i as int]@);
                }
                if j - i < nodes[i].size && is_shelter(nodes[i].kind.as_str()) {
                    proof {
                        assert(sheltered_by(all, i as int, j as int));
                    }
                    free = false;
                }
                i = i + 1;
            }
            if free {
                proof {
                    assert(aggregates_at((grouped, all).1, j as int));
                }
                return true;
            }
            proof {
                assert(!aggregates_at(all, j as int));
            }
        }
        j = j + 1;
    }
    false
}

/// Whether the outermost query of `sql` makes fewer rows of many. A text that
/// does not parse, or is no SELECT, does not.
pub fn has_top_level_group_by(sql: &str, dialect: Dialect) -> (r: bool)
    ensures
        r == match select_shape_of(sql@, dialect_name(dialect)) {
            Some(shape) => shape_collapses(shape),
            None => false,
        },
{
    match select_shape(sql, dialect.name()) {
        Some((grouped, nodes)) => select_collapses(grouped, &nodes),
        None => false,
    }
}

/// A bare reference means every node with its name, whatever qualifies the
/// node, and none with another name.
pub proof fn a_bare_reference_goes_by_the_name(t: NameModel, node_id: Text)
    requires
        t.catalog is None,
        t.schema is None,
    ensures
        ref_matches(t, node_id) <==> same_ignoring_case(t.name, id_parts(node_id).last()),
{
    assert(qualifiers(t).len() == 0);
}

/// A reference with a schema means a node with a schema only where both agree,
/// and the catalog decides too where both spell it out.
pub proof fn a_qualified_reference_goes_by_its_qualifiers(t: NameModel, node_id: Text)
    requires
        t.schema is Some,
    ensures
        ref_matches(t, node_id) ==> same_ignoring_case(t.name, id_parts(node_id).last()),
        ref_matches(t, node_id) && id_parts(node_id).len() >= 2 ==> same_ignoring_case(
            t.schema->0,
            id_parts(node_id)[id_parts(node_id).len() - 2],
        ),
        ref_matches(t, node_id) && id_parts(node_id).len() >= 3 && t.catalog is Some ==> same_ignoring_case(
            t.catalog->0,
            id_parts(node_id)[id_parts(node_id).len() - 3],
        ),
        id_parts(node_id).len() == 1 && same_ignoring_case(t.name, id_parts(node_id)[0]) ==> ref_matches(t, node_id),
        id_parts(node_id).len() == 2 && same_ignoring_case(t.schema->0, id_parts(node_id)[0]) && same_ignoring_case(
            t.name,
            id_parts(node_id)[1],
        ) ==> ref_matches(t, node_id),
{
    let parts = id_parts(node_id);
    let q = qualifiers(t);
    let outer = parts.drop_last();
    assert(q.last() == t.schema->0);
    if ref_matches(t, node_id) && parts.len() >= 2 {
        assert(same_ignoring_case(q[q.len() - 1 - 0], outer[outer.len() - 1 - 0]));
    }
    if ref_matches(t, node_id) && parts.len() >= 3 && t.catalog is Some {
        assert(same_ignoring_case(q[q.len() - 1 - 1], outer[outer.len() - 1 - 1]));
        assert(q[0] == t.catalog->0);
    }
}

/// A reference gets the name of the first entry that it means, and none where
/// it means none of them.
pub proof fn the_first_renaming_counts(t: NameModel, mapping: Seq<(Text, Text)>, from: nat)
    requires
        from <= mapping.len(),
    ensures
        new_name_from(t, mapping, from) is None <==> forall|i: int|
            from <= i < mapping.len() ==> !ref_matches(t, (#[trigger] mapping[i]).0),
        forall|i: int|
            from <= i < mapping.len() && ref_matches(t, (#[trigger] mapping[i]).0) && (forall|j: int|
                from <= j < i ==> !ref_matches(t, (#[trigger] mapping[j]).0)) ==> new_name_from(t, mapping, from) == Some(
                mapping[i].1,
            ),
    decreases mapping.len() - from,
{
    if from < mapping.len() && !ref_matches(t, mapping[from as int].0) {
        the_first_renaming_counts(t, mapping, from + 1);
    }
}

/// A renaming leaves every reference that it does not name, and writes the new
/// name of each other one without qualifiers.
pub proof fn only_named_references_are_renamed(refs: Seq<NameModel>, mapping: Seq<(Text, Text)>, i: int)
    requires
        0 <= i < refs.len(),
    ensures
        new_names(refs, mapping).len() == refs.len(),
        (forall|k: int| 0 <= k < mapping.len() ==> !ref_matches(refs[i], (#[trigger] mapping[k]).0)) ==> new_names(
            refs,
            mapping,
        )[i] is None,
        mapping.len() > 0 && ref_matches(refs[i], mapping[0].0) ==> new_names(refs, mapping)[i] == Some(
            NameModel { catalog: None, schema: None, name: mapping[0].1 },
        ),
        new_names(refs, mapping)[i] is Some ==> new_names(refs, mapping)[i]->0.catalog is None && new_names(
            refs,
            mapping,
        )[i]->0.schema is None,
{
    the_first_renaming_counts(refs[i], mapping, 0);
}

/// A View is inlined at exactly the references that mean it, under the alias
/// that is there, or else under its own bare name.
pub proof fn a_view_is_inlined_where_it_is_meant(refs: Seq<UseModel>, view_id: Text, i: int)
    requires
        0 <= i < refs.len(),
    ensures
        inline_aliases(refs, view_id).len() == refs.len(),
        inline_aliases(refs, view_id)[i] is Some <==> ref_matches(refs[i].table, view_id),
        inline_aliases(refs, view_id)[i] is Some && refs[i].aliased ==> inline_aliases(refs, view_id)[i]->0 is None,
        inline_aliases(refs, view_id)[i] is Some && !refs[i].aliased ==> inline_aliases(refs, view_id)[i]->0 == Some(
            id_parts(view_id).last(),
        ),
{
}

/// The parts of an id are its pieces between dots, without the quotes around
/// them: two ids joined by a dot have the parts of the one and then the other.
pub proof fn the_parts_of_an_id_are_between_its_dots(a: Text, b: Text)
    ensures
        id_parts(a + seq!['.'] + b) == id_parts(a) + id_parts(b),
        !a.contains('.') ==> id_parts(a) == seq![trimmed(a, '"')],
{
    splitting_at_a_separator(a, b, '.');
    splitting_without_a_separator(a, '.');
    assert(id_parts(a + seq!['.'] + b) =~= id_parts(a) + id_parts(b));
    if !a.contains('.') {
        assert(id_parts(a) =~= seq![trimmed(a, '"')]);
    }
}

/// A SELECT makes fewer rows of many where it has a GROUP BY.
pub proof fn grouping_collapses(nodes: Seq<SelectModel>)
    ensures
        shape_collapses((true, nodes)),
{
}

/// So does one with an aggregate in its list that lies in no window and in no
/// other query.
pub proof fn an_aggregate_collapses_its_query(grouped: bool, nodes: Seq<SelectModel>, j: int)
    requires
        0 <= j < nodes.len(),
        nodes[j].aggregate,
        forall|i: int|
            0 <= i < j && j < i + (#[trigger] nodes[i]).size ==> nodes[i].kind != "window_function"@ && nodes[i].kind
                != "subquery"@ && nodes[i].kind != "select"@ && nodes[i].kind != "union"@ && nodes[i].kind != "intersect"@
                && nodes[i].kind != "except"@,
    ensures
        shape_collapses((grouped, nodes)),
{
    assert forall|i: int| 0 <= i < j implies !#[trigger] sheltered_by(nodes, i, j) by {
        assert(nodes[i] == nodes[i]);
    }
    let shape = (grouped, nodes);
    assert(aggregates_at(shape.1, j));
}

/// No other does: neither one without an aggregate, nor one whose aggregates
/// all lie in windows and in other queries.
pub proof fn a_window_does_not_collapse_its_query(nodes: Seq<SelectModel>)
    requires
        forall|k: int|
            0 <= k < nodes.len() && (#[trigger] nodes[k]).aggregate ==> exists|i: int|
                0 <= i < k && k < i + (#[trigger] nodes[i]).size && (nodes[i].kind == "window_function"@ || nodes[i].kind
                    == "subquery"@ || nodes[i].kind == "select"@ || nodes[i].kind == "union"@ || nodes[i].kind
                    == "intersect"@ || nodes[i].kind == "except"@),
    ensures
        !shape_collapses((false, nodes)),
{
    assert forall|k: int| !#[trigger] aggregates_at(nodes, k) by {
        if 0 <= k < nodes.len() && nodes[k].aggregate {
            let i = choose|i: int|
                0 <= i < k && k < i + (#[trigger] nodes[i]).size && (nodes[i].kind == "window_function"@ || nodes[i].kind
                    == "subquery"@ || nodes[i].kind == "select"@ || nodes[i].kind == "union"@ || nodes[i].kind
                    == "intersect"@ || nodes[i].kind == "except"@);
            assert(sheltered_by(nodes, i, k));
        }
    }
}

/// A View is not inlined into a query that does not read it.
pub proof fn nothing_is_inlined_unread(table_sql: Text, view_id: Text, view_sql: Text, dialect: Dialect)
    ensures
        inlined_view(table_sql, view_id, view_sql, dialect) is Some ==> {
            let refs = parsed_table_refs(table_sql, dialect_name(dialect));
            refs is Some && exists|k: int| 0 <= k < refs->0.len() && ref_matches((#[trigger] refs->0[k]).table, view_id)
        },
{
}

/// A query with a comment that has no inside is not rewritten.
pub proof fn a_comment_without_an_inside_stops_a_rewrite(
    sql: Text,
    mapping: Seq<(Text, Text)>,
    name: Text,
    body: Text,
    dialect: Dialect,
)
    ensures
        comments_of(sql, dialect_name(dialect)) is Some && comments_of(sql, dialect_name(dialect))->0.contains("/*/"@)
            ==> {
            &&& rewritten_refs(sql, mapping, dialect) is None
            &&& wrapped_in_cte(sql, name, body, dialect) is None
            &&& wrapped_in_cte(body, name, sql, dialect) is None
            &&& inlined_view(sql, name, body, dialect) is None
            &&& inlined_view(body, name, sql, dialect) is None
        },
{
}

/// Only a query that can begin with common table expressions gets one.
pub proof fn only_queries_get_an_expression(sql: Text, name: Text, body: Text, dialect: Dialect)
    ensures
        wrapped_in_cte(sql, name, body, dialect) is Some ==> match statement_of(sql, dialect_name(dialect)) {
            Some((kind, _)) => kind == "select"@ || kind == "union"@ || kind == "intersect"@ || kind == "except"@,
            None => false,
        },
{
}

} // verus!
