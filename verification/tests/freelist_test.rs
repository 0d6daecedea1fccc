use bbolt::bytes::write_u64;
use bbolt::freelist::Freelist;
use bbolt::freeset::FreelistType;
use bbolt::page::{set_page_count, set_page_flags, set_page_id, Pgid, Txid, FREELIST_PAGE_FLAG, PAGE_HEADER_SIZE};
use bbolt::pgids::sort_pgids;

#[test]
fn array_allocate_contiguous() {
    let mut f = Freelist::new(FreelistType::Array);
    f.init(vec![3, 4, 5, 8, 9]);
    assert_eq!(f.allocate(1, 3), 3);
    assert_eq!(f.allocate(1, 2), 8);
    assert_eq!(f.allocate(1, 1), 0);
}

#[test]
fn hashmap_allocate_exact_and_split() {
    let mut f = Freelist::new(FreelistType::HashMap);
    f.init(vec![3, 4, 5, 6, 7, 9, 12, 13, 18]);
    assert_eq!(f.free_count(), 9);
    assert_eq!(f.allocate(1, 3), 3);
    assert_eq!(f.free_count(), 6);
    assert_ne!(f.allocate(1, 2), 0);
    assert_eq!(f.free_count(), 4);
    assert_ne!(f.allocate(1, 1), 0);
    assert_eq!(f.free_count(), 3);
    assert_eq!(f.allocate(1, 0), 0);
    assert_eq!(f.free_count(), 3);
}

#[test]
fn hashmap_merge_adjacent() {
    let mut f = Freelist::new(FreelistType::HashMap);
    f.init(vec![10, 11]);
    f.merge_spans(vec![12, 13]);
    assert_eq!(f.free_count(), 4);
    assert_eq!(f.allocate(1, 4), 10);
}

#[test]
fn freelist_free_single_page() {
    let mut f = Freelist::new(FreelistType::Array);
    f.free(100, 12, 0);
    assert_eq!(f.pending_page_ids_sorted(), vec![12]);
}

#[test]
fn freelist_free_overflow() {
    let mut f = Freelist::new(FreelistType::Array);
    f.free(100, 12, 3);
    assert_eq!(f.pending_page_ids_sorted(), vec![12, 13, 14, 15]);
}

#[test]
fn freelist_release() {
    let mut f = Freelist::new(FreelistType::Array);
    f.free(100, 12, 1);
    f.free(100, 9, 0);
    f.free(102, 39, 0);
    f.release(100);
    f.release(101);
    assert_eq!(f.free_page_ids(), vec![9, 12, 13]);
    f.release(102);
    assert_eq!(f.free_page_ids(), vec![9, 12, 13, 39]);
}

#[test]
fn freelist_init_and_reload() {
    let mut buf = vec![0u8; 4096];
    let mut f = Freelist::new(FreelistType::Array);
    f.init(vec![5, 6, 8]);
    f.write_page(&mut buf);
    let mut f2 = Freelist::new(FreelistType::Array);
    f2.read_page(&buf);
    assert_eq!(f2.free_page_ids(), vec![5, 6, 8]);
    f2.init(vec![]);
    assert!(f2.free_page_ids().is_empty());

    f2.init(vec![5, 6, 8]);
    f2.free(5, 10, 2);
    f2.reload(&buf);
    assert_eq!(f2.free_page_ids(), vec![5, 6, 8]);
    assert_eq!(f2.pending_page_ids_sorted(), vec![10, 11, 12]);
}

#[test]
fn freelist_copy_all_merges_pending() {
    let mut f = Freelist::new(FreelistType::Array);
    f.init(vec![4, 7]);
    f.free(10, 5, 0);
    f.free(10, 6, 0);
    f.release(10);
    assert_eq!(f.copy_all(), vec![4, 5, 6, 7]);
}

#[test]
fn hashmap_rollback() {
    let mut f = Freelist::new(FreelistType::HashMap);
    f.init(vec![3, 5, 6, 7, 12, 13]);
    f.free(100, 20, 1);
    f.allocate(100, 3);
    f.free(100, 25, 0);
    f.allocate(100, 2);
    f.rollback(100);
    assert_eq!(f.alloc_count(), 0);
    assert_eq!(f.pending_count(), 0);
}

#[test]
fn free_and_release() {
    let mut f = Freelist::new(FreelistType::Array);
    f.free(10, 5, 0);
    f.free(10, 6, 0);
    assert_eq!(f.pending_count(), 2);
    assert!(f.freed(5));
    f.release(10);
    assert_eq!(f.free_page_ids(), vec![5, 6]);
    assert_eq!(f.pending_count(), 0);
}

#[test]
fn hashmap_free_page_ids_sorted() {
    let mut f = Freelist::new(FreelistType::HashMap);
    f.init(vec![2, 5, 6, 10]);
    let ids = f.copy_all();
    assert!(ids.windows(2).all(|w| w[0] < w[1]));
}

#[test]
fn freelist_free_freelist_page() {
    let mut f = Freelist::new(FreelistType::Array);
    f.free(100, 12, 0);
    assert_eq!(f.pending_count(), 1);
    assert!(f.freed(12));
}

#[test]
fn freelist_free_freelist_alloctx() {
    let mut f = Freelist::new(FreelistType::Array);
    f.free(100, 12, 0);
    f.rollback(100);
    assert!(f.copy_all().is_empty());
    assert_eq!(f.pending_count(), 0);
    assert!(!f.freed(12));

    f.free(101, 12, 0);
    assert!(f.freed(12));
    assert_eq!(f.pending_count(), 1);
    f.release_pending_pages();
    assert_eq!(f.pending_count(), 0);
    assert_eq!(f.copy_all(), vec![12]);
}

#[test]
fn freelist_write_read_roundtrip() {
    let mut f = Freelist::new(FreelistType::Array);
    f.init(vec![5, 6, 8]);
    let mut buf = vec![0u8; 4096];
    set_page_id(&mut buf, 2);
    f.write_page(&mut buf);
    let mut f2 = Freelist::new(FreelistType::Array);
    f2.read_page(&buf);
    assert_eq!(f2.copy_all(), vec![5, 6, 8]);
    f2.init(vec![]);
    assert!(f2.copy_all().is_empty());
}

#[test]
fn freelist_reload_preserves_pending() {
    let mut f = Freelist::new(FreelistType::Array);
    f.init(vec![5, 6, 8]);
    let mut buf = vec![0u8; 4096];
    set_page_id(&mut buf, 2);
    f.write_page(&mut buf);

    let mut f2 = Freelist::new(FreelistType::Array);
    f2.read_page(&buf);
    assert_eq!(f2.copy_all(), vec![5, 6, 8]);
    f2.free(5, 10, 2); // 10,11,12
    f2.reload(&buf);
    assert_eq!(f2.free_page_ids(), vec![5, 6, 8]);
    assert_eq!(f2.pending_count(), 3);
    assert!(f2.freed(10));
}

#[test]
fn freelist_release_range_basic() {
    let mut f = Freelist::new(FreelistType::Array);
    f.init(vec![3, 4, 5]);
    let _ = f.allocate(100, 1); // takes 3
    f.free(150, 3, 0);
    f.release_range(100, 200);
    assert!(f.copy_all().contains(&3) || f.free_count() >= 2);
}

#[test]
fn freelist_array_rollback() {
    let mut f = Freelist::new(FreelistType::Array);
    f.init(vec![3, 5, 6, 7, 12, 13]);
    f.free(100, 20, 1);
    let _ = f.allocate(100, 3);
    f.free(100, 25, 0);
    let _ = f.allocate(100, 2);
    f.rollback(100);
    assert_eq!(f.pending_count(), 0);
}

#[test]
fn freelist_read_ids_and_get_free_page_ids() {
    let mut f = Freelist::new(FreelistType::Array);
    f.init(vec![2, 3, 4, 10]);
    assert_eq!(f.free_page_ids(), vec![2, 3, 4, 10]);
    let mut buf = vec![0u8; 4096];
    set_page_id(&mut buf, 2);
    f.write_page(&mut buf);
    let mut f2 = Freelist::new(FreelistType::HashMap);
    f2.read_page(&buf);
    assert_eq!(f2.free_page_ids(), vec![2, 3, 4, 10]);
}

fn for_each_backend(f: impl Fn(FreelistType)) {
    f(FreelistType::Array);
    f(FreelistType::HashMap);
}

fn require_pages(f: &Freelist, free: &[Pgid], pending: &[Pgid]) {
    assert_eq!(f.free_count() + f.pending_count(), f.count());
    assert_eq!(f.free_page_ids(), free, "unexpected free pages");
    assert_eq!(f.free_count(), free.len());
    let pp = f.pending_page_ids_sorted();
    assert_eq!(pp, pending, "unexpected pending pages");
    assert_eq!(pp.len(), f.pending_count());
    for &pgid in f.free_page_ids().iter().chain(pp.iter()) {
        assert!(f.freed(pgid), "expected page {pgid} to be marked freed");
    }
}

#[test]
fn freelist_read() {
    for_each_backend(|kind| {
        let mut buf = [0u8; 4096];
        set_page_flags(&mut buf, FREELIST_PAGE_FLAG);
        set_page_count(&mut buf, 2);
        write_u64(&mut buf, PAGE_HEADER_SIZE, 23);
        write_u64(&mut buf, PAGE_HEADER_SIZE + 8, 50);
        let mut f = Freelist::new(kind);
        f.read_page(&buf);
        assert_eq!(f.free_page_ids(), vec![23, 50]);
    });
}

#[test]
fn freelist_write() {
    for_each_backend(|kind| {
        let mut f = Freelist::new(kind);
        f.init(vec![12, 39]);
        f.free(100, 28, 0);
        f.free(100, 11, 0);
        f.free(101, 3, 0);
        let mut buf = vec![0u8; 4096];
        f.write_page(&mut buf);
        let mut f2 = Freelist::new(kind);
        f2.read_page(&buf);
        assert_eq!(f2.free_page_ids(), vec![3, 11, 12, 28, 39]);
    });
}

#[test]
fn freelist_e2e_happy_path() {
    for_each_backend(|kind| {
        let mut f = Freelist::new(kind);
        f.init(vec![]);
        require_pages(&f, &[], &[]);

        assert_eq!(f.allocate(1, 5), 0);
        f.free(2, 5, 0);
        f.free(2, 3, 0);
        f.free(2, 8, 0);
        require_pages(&f, &[], &[3, 5, 8]);

        f.add_readonly_txid(3);
        f.release_pending_pages();
        require_pages(&f, &[3, 5, 8], &[]);

        assert_eq!(f.allocate(4, 2), 0);
        let mut expected = std::collections::HashSet::from([3u64, 5, 8]);
        for _ in 0..3 {
            let allocated = f.allocate(4, 1);
            assert!(expected.remove(&allocated), "unexpected pgid {allocated}");
            assert!(!f.freed(allocated));
        }
        assert!(expected.is_empty());
        assert_eq!(f.allocate(4, 1), 0);
    });
}

#[test]
fn freelist_e2e_multi_span_overflows() {
    for_each_backend(|kind| {
        let mut f = Freelist::new(kind);
        f.init(vec![]);
        f.free(10, 20, 1);
        f.free(10, 25, 2);
        f.free(10, 35, 3);
        f.free(10, 39, 2);
        f.free(10, 45, 4);
        require_pages(
            &f,
            &[],
            &[
                20, 21, 25, 26, 27, 35, 36, 37, 38, 39, 40, 41, 45, 46, 47, 48, 49,
            ],
        );
        f.release_pending_pages();
        require_pages(
            &f,
            &[
                20, 21, 25, 26, 27, 35, 36, 37, 38, 39, 40, 41, 45, 46, 47, 48, 49,
            ],
            &[],
        );

        let alloc_sequence = [7usize, 5, 3, 2];
        let expected_starts = [35u64, 45, 25, 20];
        for (i, &page_nums) in alloc_sequence.iter().enumerate() {
            let allocated = f.allocate(11, page_nums);
            assert_eq!(allocated, expected_starts[i]);
            for j in 0..page_nums as u64 {
                assert!(!f.freed(allocated + j));
            }
        }
    });
}

#[test]
fn freelist_e2e_rollbacks() {
    for_each_backend(|kind| {
        let mut f = Freelist::new(kind);
        f.init(vec![]);
        f.free(2, 5, 1);
        f.free(2, 8, 0);
        require_pages(&f, &[], &[5, 6, 8]);
        f.rollback(2);
        require_pages(&f, &[], &[]);

        f.free(4, 13, 3);
        require_pages(&f, &[], &[13, 14, 15, 16]);
        f.release_pending_pages();
        require_pages(&f, &[13, 14, 15, 16], &[]);
        f.rollback(1337);
        require_pages(&f, &[13, 14, 15, 16], &[]);
    });
}

#[test]
fn freelist_e2e_reload() {
    for_each_backend(|kind| {
        let mut freelist = Freelist::new(kind);
        freelist.init(vec![]);
        freelist.free(2, 5, 1);
        freelist.free(2, 8, 0);
        freelist.release_pending_pages();
        require_pages(&freelist, &[5, 6, 8], &[]);
        let mut buf = vec![0u8; 4096];
        freelist.write_page(&mut buf);

        freelist.free(3, 3, 1);
        freelist.free(3, 10, 2);
        require_pages(&freelist, &[5, 6, 8], &[3, 4, 10, 11, 12]);

        let mut other_buf = vec![0u8; 4096];
        freelist.write_page(&mut other_buf);

        let mut load_freelist = Freelist::new(kind);
        load_freelist.init(vec![]);
        load_freelist.read_page(&other_buf);
        require_pages(
            &load_freelist,
            &[3, 4, 5, 6, 8, 10, 11, 12],
            &[],
        );
        load_freelist.reload(&buf);
        require_pages(&load_freelist, &[5, 6, 8], &[]);

        let mut freelist2 = Freelist::new(kind);
        freelist2.init(vec![]);
        freelist2.free(5, 5, 4);
        freelist2.reload(&buf);
        require_pages(&freelist2, &[], &[5, 6, 7, 8, 9]);
    });
}

#[test]
fn freelist_e2e_serde_happy_path() {
    for_each_backend(|kind| {
        let mut freelist = Freelist::new(kind);
        freelist.init(vec![]);
        freelist.free(2, 5, 1);
        freelist.free(2, 8, 0);
        freelist.release_pending_pages();
        require_pages(&freelist, &[5, 6, 8], &[]);

        freelist.free(3, 3, 1);
        freelist.free(3, 10, 2);
        require_pages(&freelist, &[5, 6, 8], &[3, 4, 10, 11, 12]);

        assert_eq!(freelist.estimated_write_page_size(), 80);
        let mut buf = vec![0u8; freelist.estimated_write_page_size()];
        freelist.write_page(&mut buf);

        let mut load_freelist = Freelist::new(kind);
        load_freelist.init(vec![]);
        load_freelist.read_page(&buf);
        require_pages(
            &load_freelist,
            &[3, 4, 5, 6, 8, 10, 11, 12],
            &[],
        );
    });
}

#[test]
fn freelist_e2e_serde_across_implementations() {
    let sizes = [0usize, 1, 10, 100, 1000, 0xFFFF, 0xFFFF + 1];
    for &size in &sizes {
        for kind in [FreelistType::Array, FreelistType::HashMap] {
            let mut freelist = Freelist::new(kind);
            let mut expected: Vec<Pgid> = Vec::new();
            for i in 0..size {
                let pgid = (i + 2) as Pgid;
                freelist.free(1, pgid, 0);
                expected.push(pgid);
            }
            freelist.release_pending_pages();
            require_pages(&freelist, &expected, &[]);
            let mut buf = vec![0u8; freelist.estimated_write_page_size()];
            freelist.write_page(&mut buf);
            for load_kind in [FreelistType::Array, FreelistType::HashMap] {
                let mut load_freelist = Freelist::new(load_kind);
                load_freelist.read_page(&buf);
                require_pages(&load_freelist, &expected, &[]);
            }
        }
    }
}

#[test]
fn txid_sorting() {
    for seed in 0u64..200 {
        let mut txids: Vec<Txid> = (0..20)
            .map(|i| seed.wrapping_mul(31).wrapping_add(i * 17) % 1000)
            .collect();
        txids = sort_pgids(&txids);
        for w in txids.windows(2) {
            assert!(w[0] <= w[1], "txids not sorted: {txids:?}");
        }
    }
}

#[test]
fn freelist_release_range_table() {
    struct TestPage {
        id: Pgid,
        n: usize,
        alloc_tx: Txid,
        free_tx: Txid,
    }
    struct TestRange {
        begin: Txid,
        end: Txid,
    }
    struct Case {
        title: &'static str,
        pages_in: &'static [TestPage],
        release_ranges: &'static [TestRange],
        want_free: &'static [Pgid],
    }

    let cases = [
        Case {
            title: "Single pending in range",
            pages_in: &[TestPage {
                id: 3,
                n: 1,
                alloc_tx: 100,
                free_tx: 200,
            }],
            release_ranges: &[TestRange { begin: 1, end: 300 }],
            want_free: &[3],
        },
        Case {
            title: "Single pending with minimum end range",
            pages_in: &[TestPage {
                id: 3,
                n: 1,
                alloc_tx: 100,
                free_tx: 200,
            }],
            release_ranges: &[TestRange { begin: 1, end: 200 }],
            want_free: &[3],
        },
        Case {
            title: "Single pending outsize minimum end range",
            pages_in: &[TestPage {
                id: 3,
                n: 1,
                alloc_tx: 100,
                free_tx: 200,
            }],
            release_ranges: &[TestRange { begin: 1, end: 199 }],
            want_free: &[],
        },
        Case {
            title: "Single pending with minimum begin range",
            pages_in: &[TestPage {
                id: 3,
                n: 1,
                alloc_tx: 100,
                free_tx: 200,
            }],
            release_ranges: &[TestRange { begin: 100, end: 300 }],
            want_free: &[3],
        },
        Case {
            title: "Single pending outside minimum begin range",
            pages_in: &[TestPage {
                id: 3,
                n: 1,
                alloc_tx: 100,
                free_tx: 200,
            }],
            release_ranges: &[TestRange { begin: 101, end: 300 }],
            want_free: &[],
        },
        Case {
            title: "Single pending in minimum range",
            pages_in: &[TestPage {
                id: 3,
                n: 1,
                alloc_tx: 199,
                free_tx: 200,
            }],
            release_ranges: &[TestRange { begin: 199, end: 200 }],
            want_free: &[3],
        },
        Case {
            title: "Single pending and read transaction at 199",
            pages_in: &[TestPage {
                id: 3,
                n: 1,
                alloc_tx: 199,
                free_tx: 200,
            }],
            release_ranges: &[
                TestRange { begin: 100, end: 198 },
                TestRange { begin: 200, end: 300 },
            ],
            want_free: &[],
        },
        Case {
            title: "Adjacent pending and read transactions at 199, 200",
            pages_in: &[
                TestPage {
                    id: 3,
                    n: 1,
                    alloc_tx: 199,
                    free_tx: 200,
                },
                TestPage {
                    id: 4,
                    n: 1,
                    alloc_tx: 200,
                    free_tx: 201,
                },
            ],
            release_ranges: &[
                TestRange { begin: 100, end: 198 },
                TestRange { begin: 200, end: 199 },
                TestRange { begin: 201, end: 300 },
            ],
            want_free: &[],
        },
        Case {
            title: "Out of order ranges",
            pages_in: &[
                TestPage {
                    id: 3,
                    n: 1,
                    alloc_tx: 199,
                    free_tx: 200,
                },
                TestPage {
                    id: 4,
                    n: 1,
                    alloc_tx: 200,
                    free_tx: 201,
                },
            ],
            release_ranges: &[
                TestRange { begin: 201, end: 199 },
                TestRange { begin: 201, end: 200 },
                TestRange { begin: 200, end: 200 },
            ],
            want_free: &[],
        },
        Case {
            title: "Multiple pending, read transaction at 150",
            pages_in: &[
                TestPage {
                    id: 3,
                    n: 1,
                    alloc_tx: 100,
                    free_tx: 200,
                },
                TestPage {
                    id: 4,
                    n: 1,
                    alloc_tx: 100,
                    free_tx: 125,
                },
                TestPage {
                    id: 5,
                    n: 1,
                    alloc_tx: 125,
                    free_tx: 150,
                },
                TestPage {
                    id: 6,
                    n: 1,
                    alloc_tx: 125,
                    free_tx: 175,
                },
                TestPage {
                    id: 7,
                    n: 2,
                    alloc_tx: 150,
                    free_tx: 175,
                },
                TestPage {
                    id: 9,
                    n: 2,
                    alloc_tx: 175,
                    free_tx: 200,
                },
            ],
            release_ranges: &[
                TestRange { begin: 50, end: 149 },
                TestRange { begin: 151, end: 300 },
            ],
            want_free: &[4, 9, 10],
        },
    ];

    for_each_backend(|kind| {
        for c in &cases {
            let mut f = Freelist::new(kind);
            let mut ids = Vec::new();
            for p in c.pages_in {
                for i in 0..p.n {
                    ids.push(p.id + i as u64);
                }
            }
            f.init(ids);
            for p in c.pages_in {
                let _ = f.allocate(p.alloc_tx, p.n);
            }
            for p in c.pages_in {
                f.free(p.free_tx, p.id, (p.n - 1) as u32);
            }
            for r in c.release_ranges {
                f.release_range(r.begin, r.end);
            }
            assert_eq!(
                f.free_page_ids(),
                c.want_free,
                "{} ({:?})",
                c.title,
                kind
            );
        }
    });
}

#[test]
fn pages_for_write_leaves_room() {
    for (ids, pages) in [(0, 1), (125, 1), (126, 2), (127, 2), (254, 3)] {
        let mut f = Freelist::new(FreelistType::Array);
        f.init((2..2 + ids).collect());
        assert_eq!(f.pages_for_write(1024), pages, "{ids}");
        assert!(f.estimated_write_page_size() < pages * 1024);
        assert!((pages - 1) * 1024 <= f.estimated_write_page_size());
    }
}

#[test]
fn readers_hold_back_what_they_may_need() {
    for kind in [FreelistType::Array, FreelistType::HashMap] {
        for (readers, free) in [
            (vec![], true),
            (vec![9], true),
            (vec![10], false),
            (vec![15], false),
            (vec![20], false),
            (vec![21], true),
            (vec![9, 21], true),
            (vec![21, 15, 9], false),
        ] {
            let mut f = Freelist::new(kind);
            f.init(vec![7]);
            assert_eq!(f.allocate(10, 1), 7);
            f.free(20, 7, 0);
            for r in &readers {
                f.add_readonly_txid(*r);
            }
            f.release_pending_pages();
            assert_eq!(f.free_count(), usize::from(free), "{readers:?}");
            assert_eq!(f.pending_count(), usize::from(!free), "{readers:?}");
        }
    }
}
