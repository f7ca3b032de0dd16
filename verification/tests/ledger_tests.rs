use commodity_ledger::ledger::{Holding, Ledger, Session, TransactionError};

#[test]
fn buy_creates_holding_with_fees_in_cost() {
    let mut l = Ledger::new();
    l.buy("Gold", 10, 100, 10);
    let h = l.get("Gold").unwrap();
    assert_eq!(h.quantity, 10);
    assert_eq!(h.total_cost, 110);
}

#[test]
fn buy_then_partial_sell_realizes_profit() {
    // Buy Gold 10 units for 100 plus 10 fees, then sell 4 for 50 with 2 fees:
    // average cost 11, cost of goods sold 44, net 50 - 44 - 2 = 4.
    let mut l = Ledger::new();
    let mut session = Session::new();
    l.buy("Gold", 10, 100, 10);
    let h = l.get("Gold").unwrap();
    assert_eq!(h.average_cost_per_unit(), 11);
    let net = l.sell("Gold", 4, 50, 2).unwrap();
    assert_eq!(net, 4);
    session.record(net);
    let h = l.get("Gold").unwrap();
    assert_eq!(h.quantity, 6);
    assert_eq!(h.total_cost, 66);
    assert_eq!(session.total, 4);
}

#[test]
fn sell_without_holding_fails_and_changes_nothing() {
    let mut l = Ledger::new();
    l.buy("Iron", 5, 50, 0);
    let r = l.sell("Gold", 1, 10, 0);
    assert_eq!(r, Err(TransactionError::InsufficientInventory));
    assert!(!l.contains("Gold"));
    let h = l.get("Iron").unwrap();
    assert_eq!(h.quantity, 5);
    assert_eq!(h.total_cost, 50);
    assert_eq!(l.asset_count(), 1);
}

#[test]
fn oversell_fails_and_changes_nothing() {
    let mut l = Ledger::new();
    l.buy("Gold", 10, 100, 10);
    let r = l.sell("Gold", 11, 500, 0);
    assert_eq!(r, Err(TransactionError::InsufficientInventory));
    let h = l.get("Gold").unwrap();
    assert_eq!(h.quantity, 10);
    assert_eq!(h.total_cost, 110);
}

#[test]
fn sell_full_quantity_removes_asset() {
    let mut l = Ledger::new();
    let mut session = Session::new();
    l.buy("Gold", 10, 100, 10);
    let net = l.sell("Gold", 10, 150, 5).unwrap();
    // cost of goods sold is the whole basis: 10 * 11 = 110; net 150 - 110 - 5.
    assert_eq!(net, 35);
    session.record(net);
    assert!(!l.contains("Gold"));
    assert_eq!(l.asset_count(), 0);
    assert_eq!(session.total, 35);
}

#[test]
fn repeated_buys_accumulate_sums() {
    let mut l = Ledger::new();
    l.buy("Quantainium", 3, 30, 1);
    l.buy("Quantainium", 7, 140, 2);
    l.buy("Quantainium", 5, 60, 0);
    let h = l.get("Quantainium").unwrap();
    assert_eq!(h.quantity, 3 + 7 + 5);
    assert_eq!(h.total_cost, 31 + 142 + 60);
}

#[test]
fn sell_at_a_loss_gives_negative_net() {
    let mut l = Ledger::new();
    let mut session = Session::new();
    l.buy("Laranite", 10, 200, 0);
    let net = l.sell("Laranite", 5, 40, 10).unwrap();
    // average cost 20, cost of goods sold 100, net 40 - 100 - 10 = -70.
    assert_eq!(net, -70);
    session.record(net);
    assert_eq!(session.total, -70);
    let h = l.get("Laranite").unwrap();
    assert_eq!(h.quantity, 5);
    assert_eq!(h.total_cost, 100);
}

#[test]
fn average_cost_of_empty_holding_is_zero() {
    let h = Holding { quantity: 0, total_cost: 0 };
    assert_eq!(h.average_cost_per_unit(), 0);
}

#[test]
fn zero_quantity_sell_on_absent_asset_keeps_ledger_empty() {
    let mut l = Ledger::new();
    let net = l.sell("Gold", 0, 7, 2).unwrap();
    assert_eq!(net, 5);
    assert!(!l.contains("Gold"));
    assert_eq!(l.asset_count(), 0);
}

#[test]
fn names_lists_assets_in_first_buy_order() {
    let mut l = Ledger::new();
    l.buy("Gold", 1, 1, 0);
    l.buy("Iron", 1, 1, 0);
    l.buy("Gold", 1, 1, 0);
    let names = l.names();
    assert_eq!(names, vec!["Gold".to_string(), "Iron".to_string()]);
}

#[test]
fn cost_of_goods_sold_never_exceeds_cost_basis() {
    // The sold share of the cost basis stays within the basis, so the
    // remaining total_cost never goes negative.
    let cases: [(u64, u64, u64); 4] = [(10, 110, 4), (3, 10, 2), (7, 1, 7), (1000, 999, 999)];
    for (qty, cost, sold) in cases {
        let mut l = Ledger::new();
        l.buy("Ore", qty, cost, 0);
        let h = l.get("Ore").unwrap();
        let cogs = sold * h.average_cost_per_unit();
        assert!(cogs <= h.total_cost);
        l.sell("Ore", sold, 0, 0).unwrap();
        if let Some(rest) = l.get("Ore") {
            assert_eq!(rest.total_cost, cost - cogs);
        }
    }
}

#[test]
fn zero_quantity_buy_keeps_a_row_until_it_is_closed() {
    let mut l = Ledger::new();
    l.buy("Gold", 0, 5, 5);
    let h = l.get("Gold").unwrap();
    assert_eq!(h.quantity, 0);
    assert_eq!(h.total_cost, 10);
    assert_eq!(h.average_cost_per_unit(), 0);
    // Selling the entire held quantity (zero) closes the position.
    let net = l.sell("Gold", 0, 3, 1).unwrap();
    assert_eq!(net, 2);
    assert!(!l.contains("Gold"));
}

#[test]
fn session_accumulates_over_multiple_sells() {
    let mut l = Ledger::new();
    let mut session = Session::new();
    l.buy("Gold", 4, 40, 0);
    session.record(l.sell("Gold", 2, 30, 0).unwrap());
    session.record(l.sell("Gold", 2, 10, 5).unwrap());
    assert_eq!(session.total, 10 + (10 - 20 - 5));
    assert!(!l.contains("Gold"));
}
