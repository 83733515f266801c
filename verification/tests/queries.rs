use tx_datastore::sql::{
    address_from_lookup, address_step, is_address, show_results, shown, titles, AddressStep,
    DnsLookupResponse, StmtResult,
};
use tx_datastore::types::{AlgebraicType, ProductType, ProductTypeElement};

fn schema() -> ProductType {
    ProductType {
        elements: vec![
            ProductTypeElement { name: Some("id".to_string()), algebraic_type: AlgebraicType::U32 },
            ProductTypeElement { name: None, algebraic_type: AlgebraicType::String },
        ],
    }
}

fn cells(row: &[&str]) -> Vec<String> {
    row.iter().map(|c| c.to_string()).collect()
}

#[test]
fn addresses() {
    assert!(is_address("0123456789abcdef0123456789ABCDEF"));
    assert!(!is_address("0123456789abcdef0123456789ABCDE"));
    assert!(!is_address("0123456789abcdef0123456789ABCDEF0"));
    assert!(!is_address("0123456789abcdeg0123456789ABCDEF"));
    assert!(!is_address(""));
    let address = "00000000000000000000000000000001";
    assert_eq!(address_step(address), AddressStep::Known(address.to_string()));
    assert_eq!(address_step("my_db"), AddressStep::LookUp("my_db".to_string()));
}

#[test]
fn lookups() {
    let found = DnsLookupResponse::Success { domain: "my_db".to_string(), address: "abc".to_string() };
    assert_eq!(address_from_lookup(found), Ok("abc".to_string()));
    let lost = DnsLookupResponse::Failure { domain: "my_db".to_string() };
    assert_eq!(address_from_lookup(lost), Err("The dns resolution of my_db failed.".to_string()));
}

#[test]
fn columns_are_named_or_numbered() {
    assert_eq!(titles(&schema()), cells(&["id", "column 1"]));
    let unnamed = (0..12)
        .map(|_| ProductTypeElement { name: None, algebraic_type: AlgebraicType::U8 })
        .collect();
    let names = titles(&ProductType { elements: unnamed });
    assert_eq!(names[0], "column 0");
    assert_eq!(names[11], "column 11");
}

#[test]
fn rows_are_cut_to_the_columns() {
    let result = StmtResult {
        schema: schema(),
        rows: vec![cells(&["1", "a", "b"]), cells(&["2"])],
    };
    let (columns, rows) = shown(&result);
    assert_eq!(columns, cells(&["id", "column 1"]));
    assert_eq!(rows, vec![cells(&["1", "a"]), cells(&["2"])]);
}

#[test]
fn the_first_result_is_shown() {
    let first = StmtResult { schema: schema(), rows: vec![cells(&["1", "Foo"]), cells(&["20", "B"])] };
    let second = StmtResult { schema: schema(), rows: vec![] };
    assert_eq!(
        show_results(&vec![first, second]),
        Ok(" id | column 1 \n----+----------\n 1  | Foo      \n 20 | B        ".to_string())
    );
}

#[test]
fn no_result_is_an_invalid_query() {
    assert_eq!(show_results(&vec![]), Err("Invalid sql query.".to_string()));
}
