use transformer::kv_cache::KvCache;

#[test]
fn newly_created_cache_is_empty() {
    let c = KvCache::<f32>::new(16, 8);
    assert_eq!(c.cur_len(), 0);
    assert_eq!(c.capacity(), 16);
    assert_eq!(c.d_kv_model(), 8);
    assert_eq!(c.k().shape(), (0, 8));
    assert_eq!(c.v().shape(), (0, 8));
}

#[test]
fn append_grows_by_one_row_each_call() {
    let mut c = KvCache::new(4, 3);
    c.append(&[1.0, 2.0, 3.0], &[10.0, 20.0, 30.0]);
    assert_eq!(c.cur_len(), 1);
    assert_eq!(c.k().shape(), (1, 3));
    assert_eq!(c.k().row(0), &[1.0, 2.0, 3.0]);
    assert_eq!(c.v().row(0), &[10.0, 20.0, 30.0]);

    c.append(&[4.0, 5.0, 6.0], &[40.0, 50.0, 60.0]);
    assert_eq!(c.cur_len(), 2);
    assert_eq!(c.k().shape(), (2, 3));
    assert_eq!(c.k().row(0), &[1.0, 2.0, 3.0]);
    assert_eq!(c.k().row(1), &[4.0, 5.0, 6.0]);
    assert_eq!(c.v().row(0), &[10.0, 20.0, 30.0]);
    assert_eq!(c.v().row(1), &[40.0, 50.0, 60.0]);
}

#[test]
fn reset_clears_history() {
    let mut c = KvCache::new(4, 2);
    c.append(&[1.0, 2.0], &[3.0, 4.0]);
    c.append(&[5.0, 6.0], &[7.0, 8.0]);
    assert_eq!(c.cur_len(), 2);
    c.reset();
    assert_eq!(c.cur_len(), 0);
    assert_eq!(c.k().shape(), (0, 2));
    c.append(&[100.0, 200.0], &[300.0, 400.0]);
    assert_eq!(c.cur_len(), 1);
    assert_eq!(c.k().row(0), &[100.0, 200.0]);
}
