use bbolt::stats::{Stats, TxStats};

#[test]
fn test_db_stats_sub() {
    let mut a = Stats::default();
    let mut b = Stats::default();
    a.tx_stats.page_count = 3;
    a.free_page_n = 4;
    b.tx_stats.page_count = 10;
    b.free_page_n = 14;
    let diff = b.sub(&a);
    assert_eq!(diff.tx_stats.page_count, 7);
    assert_eq!(diff.free_page_n, 14);
}

#[test]
fn test_tx_stats_sub() {
    let mut a = TxStats::default();
    let mut b = TxStats::default();
    a.page_count = 3;
    a.split = 1;
    b.page_count = 10;
    b.split = 4;
    let diff = b.sub(&a);
    assert_eq!(diff.page_count, 7);
    assert_eq!(diff.split, 3);
}

#[test]
fn test_tx_stats_get_and_inc_atomically() {
    let mut stats = TxStats::default();

    stats.inc_page_count(1);
    assert_eq!(stats.get_page_count(), 1);
    stats.inc_page_alloc(2);
    assert_eq!(stats.get_page_alloc(), 2);
    stats.inc_cursor_count(3);
    assert_eq!(stats.get_cursor_count(), 3);
    stats.inc_node_count(100);
    assert_eq!(stats.get_node_count(), 100);
    stats.inc_node_deref(101);
    assert_eq!(stats.get_node_deref(), 101);
    stats.inc_rebalance(1000);
    assert_eq!(stats.get_rebalance(), 1000);
    stats.inc_rebalance_time_ns(1001);
    assert_eq!(stats.get_rebalance_time_ns(), 1001);
    stats.inc_split(10000);
    assert_eq!(stats.get_split(), 10000);
    stats.inc_spill(10001);
    assert_eq!(stats.get_spill(), 10001);
    stats.inc_spill_time_ns(10001);
    assert_eq!(stats.get_spill_time_ns(), 10001);
    stats.inc_write(100000);
    assert_eq!(stats.get_write(), 100000);
    stats.inc_write_time_ns(100001);
    assert_eq!(stats.get_write_time_ns(), 100001);

    assert_eq!(stats.page_count, 1);
    assert_eq!(stats.page_alloc, 2);
    assert_eq!(stats.cursor_count, 3);
    assert_eq!(stats.node_count, 100);
    assert_eq!(stats.node_deref, 101);
    assert_eq!(stats.rebalance, 1000);
    assert_eq!(stats.rebalance_time_ns, 1001);
    assert_eq!(stats.split, 10000);
    assert_eq!(stats.spill, 10001);
    assert_eq!(stats.spill_time_ns, 10001);
    assert_eq!(stats.write, 100000);
    assert_eq!(stats.write_time_ns, 100001);
}
