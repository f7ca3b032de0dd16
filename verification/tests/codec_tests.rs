use commodity_ledger::codec::{parse_ledger, to_json};
use commodity_ledger::input::{parse_amount, ParseError};
use commodity_ledger::ledger::Ledger;

#[test]
fn empty_ledger_serializes_to_empty_object() {
    let l = Ledger::new();
    assert_eq!(to_json(&l), "{}");
}

#[test]
fn one_entry_serializes_in_field_order() {
    let mut l = Ledger::new();
    l.buy("Gold", 10, 100, 10);
    assert_eq!(to_json(&l), "{\"Gold\":{\"inventory\":10,\"total_cost\":110}}");
}

#[test]
fn round_trip_preserves_every_holding() {
    let mut l = Ledger::new();
    l.buy("Gold", 10, 100, 10);
    l.buy("Iron", 3, 12, 0);
    l.buy("Quantainium", 900, 100000, 250);
    let text = to_json(&l);
    let back = parse_ledger(&text).unwrap();
    assert_eq!(back.asset_count(), 3);
    for name in ["Gold", "Iron", "Quantainium"] {
        assert_eq!(back.get(name).unwrap(), l.get(name).unwrap());
    }
    // The reloaded ledger serializes to the same bytes.
    assert_eq!(to_json(&back), text);
}

#[test]
fn round_trip_escapes_quotes_and_backslashes_in_names() {
    let mut l = Ledger::new();
    l.buy("odd \"name\" with \\ inside", 1, 2, 3);
    let text = to_json(&l);
    let back = parse_ledger(&text).unwrap();
    let h = back.get("odd \"name\" with \\ inside").unwrap();
    assert_eq!(h.quantity, 1);
    assert_eq!(h.total_cost, 5);
}

#[test]
fn parse_accepts_whitespace_and_either_field_order() {
    let text = " {\n  \"Gold\" : { \"total_cost\" : 110 , \"inventory\" : 10 },\n  \"Iron\": {\"inventory\":3,\"total_cost\":12}\n}\n";
    let l = parse_ledger(text).unwrap();
    let gold = l.get("Gold").unwrap();
    assert_eq!(gold.quantity, 10);
    assert_eq!(gold.total_cost, 110);
    let iron = l.get("Iron").unwrap();
    assert_eq!(iron.quantity, 3);
    assert_eq!(iron.total_cost, 12);
}

#[test]
fn parse_accepts_string_escapes() {
    let text = "{\"a\\\"b\\\\c\\n\":{\"inventory\":1,\"total_cost\":2}}";
    let l = parse_ledger(text).unwrap();
    assert!(l.contains("a\"b\\c\n"));
}

#[test]
fn parse_rejects_corrupt_documents() {
    for text in [
        "",
        "   ",
        "not json",
        "{",
        "{}}",
        "{\"Gold\":{\"inventory\":10}}",
        "{\"Gold\":{\"inventory\":10,\"total_cost\":}}",
        "{\"Gold\":{\"inventory\":10,\"total_cost\":1,\"extra\":2}}",
        "{\"Gold\":{\"inventory\":-1,\"total_cost\":1}}",
        "{\"Gold\":{\"inventory\":1.5,\"total_cost\":1}}",
        "{\"Gold\":{\"inventory\":1,\"total_cost\":2},}",
        "{\"\":{\"inventory\":1,\"total_cost\":2}}",
        "{\"Gold\":{\"inventory\":99999999999999999999999,\"total_cost\":1}}",
        "[]",
    ] {
        assert!(parse_ledger(text).is_none(), "accepted: {}", text);
    }
}

#[test]
fn parse_rejects_repeated_asset_names() {
    let text = "{\"Gold\":{\"inventory\":1,\"total_cost\":2},\"Gold\":{\"inventory\":3,\"total_cost\":4}}";
    assert!(parse_ledger(text).is_none());
}

#[test]
fn parse_amount_accepts_plain_digits() {
    assert_eq!(parse_amount("0"), Ok(0));
    assert_eq!(parse_amount("42"), Ok(42));
    assert_eq!(parse_amount("18446744073709551615"), Ok(u64::MAX));
}

#[test]
fn parse_amount_rejects_bad_input() {
    assert_eq!(parse_amount(""), Err(ParseError));
    assert_eq!(parse_amount("-3"), Err(ParseError));
    assert_eq!(parse_amount("3.5"), Err(ParseError));
    assert_eq!(parse_amount("ten"), Err(ParseError));
    assert_eq!(parse_amount(" 7"), Err(ParseError));
    assert_eq!(parse_amount("18446744073709551616"), Err(ParseError));
}
