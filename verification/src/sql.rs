//! What is shown of the answer to a query, and whom the query goes to.

use vstd::prelude::*;
use vstd::string::{StrSliceExecFns, StringExecFns};

use crate::text::{decimal, decimal_text};
use crate::types::{name_model, ProductType, RowType};

verus! {

/// `c` is a hexadecimal digit.
pub open spec fn is_hex_digit(c: char) -> bool {
    '0' <= c <= '9' || 'a' <= c <= 'f' || 'A' <= c <= 'F'
}

/// `s` is the address of a database: sixteen bytes, in hexadecimal.
pub open spec fn address_text(s: Seq<char>) -> bool {
    s.len() == 32 && forall|i: int| 0 <= i < s.len() ==> is_hex_digit(#[trigger] s[i])
}

/// Whether `hex` is the address of a database.
pub fn is_address(hex: &str) -> (r: bool)
    ensures
        r == address_text(hex@),
{
    if hex.unicode_len() != 32 {
        return false;
    }
    for i in 0..32usize
        invariant
            hex@.len() == 32,
            forall|j: int| 0 <= j < i ==> is_hex_digit(#[trigger] hex@[j]),
    {
        let c: char = hex.get_char(i);
        if !(('0' <= c && c <= '9') || ('a' <= c && c <= 'f') || ('A' <= c && c <= 'F')) {
            return false;
        }
    }
    true
}

/// What a name server answered.
#[derive(Debug, PartialEq, Eq)]
pub enum DnsLookupResponse {
    Success { domain: String, address: String },
    Failure { domain: String },
}

/// How the address of a database is found.
#[derive(Debug, PartialEq, Eq)]
pub enum AddressStep {
    /// This is it.
    Known(String),
    /// A name server is asked for it.
    LookUp(String),
}

/// How the address of `database` is found: it is one, or it is looked up.
pub fn address_step(database: &str) -> (r: AddressStep)
    ensures
        match r {
            AddressStep::Known(address) => address_text(database@) && address@ == database@,
            AddressStep::LookUp(name) => !address_text(database@) && name@ == database@,
        },
{
    if is_address(database) {
        AddressStep::Known(database.to_owned())
    } else {
        AddressStep::LookUp(database.to_owned())
    }
}

/// The address that a name server answered, or what to say where it had none.
pub fn address_from_lookup(response: DnsLookupResponse) -> (r: Result<String, String>)
    ensures
        match response {
            DnsLookupResponse::Success { domain, address } => r == Ok::<String, String>(address),
            DnsLookupResponse::Failure { domain } => {
                &&& r is Err
                &&& r->Err_0@ == "The dns resolution of "@ + domain@ + " failed."@
            },
        },
{
    match response {
        DnsLookupResponse::Success { domain: _, address } => Ok(address),
        DnsLookupResponse::Failure { domain } => {
            let mut said = "The dns resolution of ".to_owned();
            said.append(domain.as_str());
            said.append(" failed.");
            Err(said)
        },
    }
}

/// The name that column `i` is shown under: its own, or its number.
pub open spec fn column_title(name: Option<Seq<char>>, i: nat) -> Seq<char> {
    match name {
        Some(name) => name,
        None => "column "@ + decimal_text(i),
    }
}

/// The names that the columns are shown under.
pub open spec fn column_titles(schema: RowType) -> Seq<Seq<char>> {
    Seq::new(schema.len(), |i: int| column_title(schema[i].0, i as nat))
}

/// What each of `s` is.
pub open spec fn texts(s: Seq<String>) -> Seq<Seq<char>> {
    s.map_values(|t: String| t@)
}

/// What each of `s` is.
pub open spec fn text_rows(s: Seq<Vec<String>>) -> Seq<Seq<Seq<char>>> {
    s.map_values(|t: Vec<String>| texts(t@))
}

/// The names that the columns are shown under.
pub fn titles(schema: &ProductType) -> (r: Vec<String>)
    ensures
        texts(r@) == column_titles(schema@),
{
    let mut r: Vec<String> = Vec::new();
    let n: usize = schema.elements.len();
    for i in 0..n
        invariant
            n == schema.elements@.len(),
            r@.len() == i,
            forall|j: int| 0 <= j < i ==> (#[trigger] r@[j])@ == column_titles(schema@)[j],
    {
        assert(schema@[i as int].0 == name_model(schema.elements@[i as int].name));
        let title = match &schema.elements[i].name {
            Some(name) => name.clone(),
            None => {
                let mut title = "column ".to_owned();
                title.append(decimal(i as u128).as_str());
                title
            },
        };
        r.push(title);
    }
    assert(texts(r@) =~= column_titles(schema@));
    r
}

/// At most the first `n` of `cells`.
pub open spec fn cut_cells(cells: Seq<Seq<char>>, n: nat) -> Seq<Seq<char>> {
    if cells.len() <= n {
        cells
    } else {
        cells.take(n as int)
    }
}

/// The rows that are shown: of each, at most as many cells as there are columns.
pub open spec fn shown_rows(rows: Seq<Seq<Seq<char>>>, n: nat) -> Seq<Seq<Seq<char>>> {
    rows.map_values(|cells: Seq<Seq<char>>| cut_cells(cells, n))
}

/// At most the first `n` of `cells`.
fn cut(cells: &Vec<String>, n: usize) -> (r: Vec<String>)
    ensures
        texts(r@) == cut_cells(texts(cells@), n as nat),
{
    let mut r: Vec<String> = Vec::new();
    let m: usize = if cells.len() <= n {
        cells.len()
    } else {
        n
    };
    for i in 0..m
        invariant
            m <= cells@.len(),
            r@.len() == i,
            forall|j: int| 0 <= j < i ==> (#[trigger] r@[j])@ == cells@[j]@,
    {
        r.push(cells[i].clone());
    }
    assert(texts(r@) =~= cut_cells(texts(cells@), n as nat));
    r
}

/// The text of the table in the style of psql with these columns and rows.
pub uninterp spec fn psql_text(columns: Seq<Seq<char>>, rows: Seq<Seq<Seq<char>>>) -> Seq<char>;

/// `tabled`: a `Builder` made from the rows and given the columns, built into a table with the
/// style `psql`, and the table's text. The text depends on the columns and the rows alone.
#[verifier::external_body]
fn psql_table(columns: Vec<String>, rows: Vec<Vec<String>>) -> (r: String)
    ensures
        r@ == psql_text(texts(columns@), text_rows(rows@)),
{
    let mut builder = tabled::builder::Builder::from(rows);
    builder.set_columns(columns);
    builder.build().with(tabled::Style::psql()).to_string()
}

/// What one statement of a query came to: the type of the rows, and the rows, each as the texts
/// of its cells.
pub struct StmtResult {
    pub schema: ProductType,
    pub rows: Vec<Vec<String>>,
}

/// The text of the table that a statement's result is shown as.
pub open spec fn stmt_text(schema: RowType, rows: Seq<Seq<Seq<char>>>) -> Seq<char> {
    psql_text(column_titles(schema), shown_rows(rows, schema.len()))
}

/// The columns and rows that are shown of a statement's result.
pub fn shown(result: &StmtResult) -> (r: (Vec<String>, Vec<Vec<String>>))
    ensures
        texts(r.0@) == column_titles(result.schema@),
        text_rows(r.1@) == shown_rows(text_rows(result.rows@), result.schema@.len()),
{
    let n: usize = result.schema.elements.len();
    assert(result.schema@.len() == n);
    let mut rows: Vec<Vec<String>> = Vec::new();
    let m: usize = result.rows.len();
    for i in 0..m
        invariant
            m == result.rows@.len(),
            rows@.len() == i,
            forall|j: int|
                0 <= j < i ==> texts((#[trigger] rows@[j])@) == cut_cells(
                    texts(result.rows@[j]@),
                    n as nat,
                ),
    {
        rows.push(cut(&result.rows[i], n));
    }
    assert(text_rows(rows@) =~= shown_rows(text_rows(result.rows@), n as nat));
    (titles(&result.schema), rows)
}

/// What is shown of the answer to a query: the table of its first statement's result. An answer
/// without a result is that of an invalid query.
pub fn show_results(results: &Vec<StmtResult>) -> (r: Result<String, String>)
    ensures
        match r {
            Ok(text) => results@.len() > 0 && text@ == stmt_text(
                results@[0].schema@,
                text_rows(results@[0].rows@),
            ),
            Err(said) => results@.len() == 0 && said@ == "Invalid sql query."@,
        },
{
    if results.len() == 0 {
        return Err("Invalid sql query.".to_owned());
    }
    let (columns, rows) = shown(&results[0]);
    Ok(psql_table(columns, rows))
}

} // verus!
