use bank_analysis::grouping::{
    aggregate, aggregate_by_month, aggregate_by_month_ordered, compute_date_stats,
    compute_domain_stats, compute_region_stats, compute_region_stats_ordered, Dimension,
    MonthBucket, Order,
};
use bank_analysis::models::{Date, Transaction};

fn tx(date: Date, domain: &str, location: &str, value: u64, transaction_count: u32) -> Transaction {
    Transaction {
        date,
        domain: String::from(domain),
        location: String::from(location),
        value,
        transaction_count,
    }
}

fn d(year: u32, month: u32, day: u32) -> Date {
    Date::new(year, month, day)
}

#[test]
fn region_stats_two_regions() {
    let txs = vec![
        tx(d(2022, 1, 1), "RESTAURANT", "Goa", 100, 2),
        tx(d(2022, 1, 2), "SHOPPING", "Delhi", 50, 1),
        tx(d(2022, 2, 3), "RESTAURANT", "Goa", 300, 4),
    ];
    let stats = compute_region_stats(&txs);
    assert_eq!(stats.len(), 2);
    // sorted ascending by region name
    assert_eq!(stats[0].region, "Delhi");
    assert_eq!(stats[1].region, "Goa");
    assert_eq!(stats[0].total, 50);
    assert_eq!(stats[0].count, 1);
    assert_eq!(stats[1].total, 400);
    assert_eq!(stats[1].count, 2);
    // average is the exact ratio total / count
    assert_eq!(stats[1].average.num, 400);
    assert_eq!(stats[1].average.den, 2);
    // median of [100, 300] is 200.0
    assert_eq!(stats[1].median.num, 400);
    assert_eq!(stats[1].median.den, 2);
    assert_eq!(stats[1].median.num as f64 / stats[1].median.den as f64, 200.0);
}

#[test]
fn region_counts_partition_the_input() {
    let txs = vec![
        tx(d(2022, 1, 1), "RESTAURANT", "Goa", 100, 2),
        tx(d(2022, 1, 2), "SHOPPING", "Delhi", 50, 1),
        tx(d(2022, 2, 3), "RESTAURANT", "Goa", 300, 4),
        tx(d(2022, 3, 4), "TRAVEL", "Pune", 75, 2),
        tx(d(2022, 3, 5), "TRAVEL", "Delhi", 25, 1),
    ];
    let regions = compute_region_stats(&txs);
    let total_count: usize = regions.iter().map(|s| s.count).sum();
    assert_eq!(total_count, txs.len());

    let domains = compute_domain_stats(&txs, Order::ByKey);
    let total_count: usize = domains.iter().map(|s| s.count).sum();
    assert_eq!(total_count, txs.len());

    let months = aggregate_by_month(&txs);
    let total_count: usize = months.iter().map(|s| s.count).sum();
    assert_eq!(total_count, txs.len());

    let dates = compute_date_stats(&txs, Order::ByKey);
    let total_count: usize = dates.iter().map(|s| s.count).sum();
    assert_eq!(total_count, txs.len());
}

#[test]
fn region_sum_consistency() {
    let txs = vec![
        tx(d(2022, 1, 1), "RESTAURANT", "Goa", 7, 1),
        tx(d(2022, 1, 2), "RESTAURANT", "Goa", 11, 1),
        tx(d(2022, 1, 3), "RESTAURANT", "Goa", 20, 1),
        tx(d(2022, 1, 4), "SHOPPING", "Delhi", 5, 1),
    ];
    let stats = compute_region_stats(&txs);
    for s in &stats {
        let values: Vec<u64> = txs
            .iter()
            .filter(|t| t.location == s.region)
            .map(|t| t.value)
            .collect();
        let total: u64 = values.iter().sum();
        assert_eq!(s.total, total);
        assert_eq!(s.count, values.len());
        // average == total / count, exactly
        assert_eq!(s.average.num, s.total as u128);
        assert_eq!(s.average.den, s.count as u128);
    }
}

#[test]
fn month_stats_merge_years_or_not() {
    let txs = vec![
        tx(d(2022, 1, 10), "A", "X", 100, 1),
        tx(d(2023, 1, 20), "A", "X", 200, 2),
        tx(d(2022, 3, 5), "A", "X", 50, 1),
    ];
    // month-only bucketing merges January of both years
    let merged = aggregate_by_month(&txs);
    assert_eq!(merged.len(), 2);
    assert_eq!(merged[0].month, 1);
    assert_eq!(merged[0].value, 300);
    assert_eq!(merged[0].transaction_count, 3);
    assert_eq!(merged[0].count, 2);
    assert_eq!(merged[1].month, 3);

    // year-month bucketing keeps them apart, chronologically ordered
    let split = aggregate_by_month_ordered(&txs, MonthBucket::YearMonth, Order::ByKey);
    assert_eq!(split.len(), 3);
    assert_eq!(split[0].month, 202201);
    assert_eq!(split[1].month, 202203);
    assert_eq!(split[2].month, 202301);
    assert_eq!(split[2].value, 200);
}

#[test]
fn date_stats_keep_calendar_days() {
    let txs = vec![
        tx(d(2022, 5, 7), "A", "X", 10, 1),
        tx(d(2022, 5, 7), "B", "Y", 30, 1),
        tx(d(2022, 5, 8), "A", "X", 20, 1),
    ];
    let stats = compute_date_stats(&txs, Order::ByKey);
    assert_eq!(stats.len(), 2);
    assert_eq!(stats[0].date, d(2022, 5, 7));
    assert_eq!(stats[0].total, 40);
    assert_eq!(stats[0].count, 2);
    assert_eq!(stats[1].date, d(2022, 5, 8));
    assert_eq!(stats[1].total, 20);
}

#[test]
fn region_order_by_total_descending() {
    let txs = vec![
        tx(d(2022, 1, 1), "A", "Goa", 10, 1),
        tx(d(2022, 1, 2), "A", "Delhi", 500, 1),
        tx(d(2022, 1, 3), "A", "Pune", 200, 1),
    ];
    let stats = compute_region_stats_ordered(&txs, Order::ByTotalDesc);
    assert_eq!(stats.len(), 3);
    assert_eq!(stats[0].region, "Delhi");
    assert_eq!(stats[1].region, "Pune");
    assert_eq!(stats[2].region, "Goa");
}

#[test]
fn order_by_total_breaks_ties_by_key() {
    let txs = vec![
        tx(d(2022, 1, 1), "A", "Goa", 100, 1),
        tx(d(2022, 1, 2), "A", "Delhi", 100, 1),
    ];
    let stats = compute_region_stats_ordered(&txs, Order::ByTotalDesc);
    assert_eq!(stats[0].region, "Delhi");
    assert_eq!(stats[1].region, "Goa");
}

#[test]
fn generic_aggregate_covers_every_key() {
    let txs = vec![
        tx(d(2022, 1, 1), "RESTAURANT", "Goa", 10, 1),
        tx(d(2022, 1, 2), "SHOPPING", "Goa", 20, 1),
        tx(d(2022, 1, 3), "RESTAURANT", "Delhi", 30, 1),
    ];
    let rows = aggregate(&txs, Dimension::Domain, Order::ByKey);
    assert_eq!(rows.len(), 2);
    let counts: usize = rows.iter().map(|s| s.count).sum();
    assert_eq!(counts, txs.len());
}

#[test]
fn scenario_goa_restaurant_grouping() {
    let values: [u64; 10] = [
        365554, 584958, 885720, 127394, 440052, 903200, 11203, 665441, 320500, 780003,
    ];
    let locations = [
        "Goa", "Goa", "Delhi", "Goa", "Mumbai", "Delhi", "Goa", "Mumbai", "Goa", "Delhi",
    ];
    let domains = [
        "RESTAURANT",
        "SHOPPING",
        "RESTAURANT",
        "RESTAURANT",
        "TRAVEL",
        "RESTAURANT",
        "SHOPPING",
        "RESTAURANT",
        "RESTAURANT",
        "TRAVEL",
    ];
    let mut txs = Vec::new();
    for i in 0..10 {
        txs.push(tx(d(2022, 1, (i + 1) as u32), domains[i], locations[i], values[i], 1));
    }

    let regions = compute_region_stats(&txs);
    // exactly one row per distinct location
    assert_eq!(regions.len(), 3);
    for s in &regions {
        let expected = txs.iter().filter(|t| t.location == s.region).count();
        assert_eq!(s.count, expected);
    }
    let goa = regions.iter().find(|s| s.region == "Goa").unwrap();
    assert_eq!(goa.count, 5);

    let doms = compute_domain_stats(&txs, Order::ByKey);
    // exactly one row per distinct domain
    assert_eq!(doms.len(), 3);
    for s in &doms {
        let expected = txs.iter().filter(|t| t.domain == s.domain).count();
        assert_eq!(s.count, expected);
    }
    let rest = doms.iter().find(|s| s.domain == "RESTAURANT").unwrap();
    assert_eq!(rest.count, 6);
}
