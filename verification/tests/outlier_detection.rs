use bank_analysis::models::{Date, Transaction};
use bank_analysis::outliers::{
    detect_anomaly_for_transaction_count, detect_anomaly_for_value, detect_outliers, AnomalyField,
};

fn tx(value: u64, transaction_count: u32) -> Transaction {
    Transaction {
        date: Date::new(2022, 1, 1),
        domain: String::from("RESTAURANT"),
        location: String::from("Goa"),
        value,
        transaction_count,
    }
}

#[test]
fn value_outlier_is_flagged() {
    let mut txs: Vec<Transaction> = (0..10).map(|_| tx(100, 1)).collect();
    txs.push(tx(1_000_000, 1));
    let flagged = detect_anomaly_for_value(&txs);
    assert_eq!(flagged.len(), 1);
    assert_eq!(flagged[0].value, 1_000_000);
}

#[test]
fn transaction_count_outlier_is_flagged() {
    let mut txs: Vec<Transaction> = (0..10).map(|_| tx(100, 2)).collect();
    txs.push(tx(100, 5_000));
    let flagged = detect_anomaly_for_transaction_count(&txs);
    assert_eq!(flagged.len(), 1);
    assert_eq!(flagged[0].transaction_count, 5_000);
    // the value detector sees nothing unusual in the same data
    assert_eq!(detect_anomaly_for_value(&txs).len(), 0);
}

#[test]
fn homogeneous_values_are_never_flagged() {
    let txs: Vec<Transaction> = (0..8).map(|_| tx(777, 3)).collect();
    assert_eq!(detect_anomaly_for_value(&txs).len(), 0);
    assert_eq!(detect_anomaly_for_transaction_count(&txs).len(), 0);
}

#[test]
fn outliers_keep_input_order() {
    let values = [1u64, 900_000, 2, 950_000, 3, 4, 5, 6, 7, 8];
    let txs: Vec<Transaction> = values.iter().map(|v| tx(*v, 1)).collect();
    let flagged = detect_anomaly_for_value(&txs);
    assert_eq!(flagged.len(), 2);
    assert_eq!(flagged[0].value, 900_000);
    assert_eq!(flagged[1].value, 950_000);
}

#[test]
fn widening_the_multiplier_never_flags_more() {
    // values: [1, 2, 3, 4, 9, 100]; Q1 = 2, Q3 = 9
    let values = [1u64, 2, 3, 4, 9, 100];
    let txs: Vec<Transaction> = values.iter().map(|v| tx(*v, 1)).collect();
    let narrow = detect_outliers(&txs, AnomalyField::Value, 0);
    let usual = detect_outliers(&txs, AnomalyField::Value, 3);
    let wide = detect_outliers(&txs, AnomalyField::Value, 6);
    // with the fences at the quartiles themselves, 1 and 100 fall outside
    assert_eq!(narrow.iter().map(|t| t.value).collect::<Vec<_>>(), vec![1, 100]);
    // the usual 1.5 multiplier keeps 1 inside
    assert_eq!(usual.iter().map(|t| t.value).collect::<Vec<_>>(), vec![100]);
    assert_eq!(wide.iter().map(|t| t.value).collect::<Vec<_>>(), vec![100]);
    // each widening flags a subset of the narrower run
    assert!(usual.len() <= narrow.len());
    assert!(wide.len() <= usual.len());
    for t in &usual {
        assert!(narrow.iter().any(|n| n.value == t.value));
    }
    for t in &wide {
        assert!(usual.iter().any(|n| n.value == t.value));
    }
}

#[test]
fn quartiles_may_coincide_on_tiny_inputs() {
    // with fewer than 4 observations the nearest-rank quartiles can meet;
    // nothing is flagged when they do
    let txs: Vec<Transaction> = vec![tx(10, 1), tx(10, 1), tx(10, 1)];
    assert_eq!(detect_anomaly_for_value(&txs).len(), 0);
}
