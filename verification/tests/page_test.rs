use bbolt::inode::{leaf_at, write_inodes, Inode};
use bbolt::page::{set_page_id, InBucket, Meta, PageHeader, BRANCH_PAGE_FLAG, BUCKET_LEAF_FLAG, FREELIST_PAGE_FLAG, LEAF_PAGE_FLAG, MAGIC, META_PAGE_FLAG, VERSION};
use bbolt::pgids::merge_pgids;

#[test]
fn fnv_matches_go_meta0_txid2() {
    let mut m = Meta {
        magic: MAGIC,
        version: VERSION,
        page_size: 4096,
        flags: 0,
        root: InBucket::new(5, 0),
        freelist: 6,
        pgid: 7,
        txid: 2,
        checksum: 0,
    };
    m.finish_checksum();
    assert_eq!(m.checksum, 0x38c1_0c38_2f8a_ff2d);
}

#[test]
fn fnv_matches_go_init_meta() {
    let mut m0 = Meta {
        magic: MAGIC,
        version: VERSION,
        page_size: 4096,
        flags: 0,
        root: InBucket::new(3, 0),
        freelist: 2,
        pgid: 4,
        txid: 0,
        checksum: 0,
    };
    m0.finish_checksum();
    assert_eq!(m0.checksum, 0x0751_6e11_4689_fdee);

    let mut m1 = m0.clone();
    m1.txid = 1;
    m1.finish_checksum();
    assert_eq!(m1.checksum, 0x264c_351a_5179_480f);
}

#[test]
fn merge_pgids_union() {
    let a = vec![4, 5, 6, 10, 11, 12, 13, 27];
    let b = vec![1, 3, 8, 9, 25, 30];
    assert_eq!(
        merge_pgids(&a, &b),
        vec![1, 3, 4, 5, 6, 8, 9, 10, 11, 12, 13, 25, 27, 30]
    );
}

#[test]
fn merge_pgids_quick() {
    let mut state = 0x9e37_79b9_7f4a_7c15;
    for _ in 0..200 {
        let mut a: Vec<u64> = (0..20).map(|_| fastrand_u64(&mut state, 50)).collect();
        let mut b: Vec<u64> = (0..20).map(|_| fastrand_u64(&mut state, 50)).collect();
        a.sort_unstable();
        b.sort_unstable();
        let m = merge_pgids(&a, &b);
        let mut exp = a.clone();
        exp.extend_from_slice(&b);
        exp.sort_unstable();
        assert_eq!(m, exp);
    }
}

fn fastrand_u64(state: &mut u64, n: u64) -> u64 {
    *state = state.wrapping_mul(0x2545_f491_4f6c_dd1d).wrapping_add(1);
    *state % n.max(1)
}

#[test]
fn leaf_roundtrip() {
    let mut page = vec![0u8; 4096];
    set_page_id(&mut page, 4);
    let inodes = vec![
        Inode {
            flags: 0,
            pgid: 0,
            key: b"alice".to_vec(),
            value: b"data1".to_vec(),
        },
        Inode {
            flags: BUCKET_LEAF_FLAG,
            pgid: 0,
            key: b"nested".to_vec(),
            value: vec![0u8; 16],
        },
    ];
    write_inodes(&mut page, true, &inodes);
    let hdr = PageHeader::read(&page);
    assert!(hdr.is_leaf());
    assert_eq!(hdr.count, 2);
    let (flags, key, val) = leaf_at(&page, 0);
    assert_eq!(flags, 0);
    assert_eq!(key, b"alice");
    assert_eq!(val, b"data1");
    let (flags, key, _) = leaf_at(&page, 1);
    assert_eq!(flags, BUCKET_LEAF_FLAG);
    assert_eq!(key, b"nested");
}

#[test]
fn page_type_names() {
    assert_eq!(
        PageHeader {
            flags: BRANCH_PAGE_FLAG,
            ..Default::default()
        }
        .typ(),
        "branch"
    );
    assert_eq!(
        PageHeader {
            flags: LEAF_PAGE_FLAG,
            ..Default::default()
        }
        .typ(),
        "leaf"
    );
    assert_eq!(
        PageHeader {
            flags: META_PAGE_FLAG,
            ..Default::default()
        }
        .typ(),
        "meta"
    );
    assert_eq!(
        PageHeader {
            flags: FREELIST_PAGE_FLAG,
            ..Default::default()
        }
        .typ(),
        "freelist"
    );
    assert_eq!(
        PageHeader {
            flags: 20000,
            ..Default::default()
        }
        .typ(),
        "unknown<4e20>"
    );
}
