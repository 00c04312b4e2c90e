use jif::deduper::Deduper;
use jif::digest::{build_ordering_digest, build_private_pages_hash_set, build_shared_pages_set, shared_page_split, JifDigest};
use jif::itree::interval::{AnonIntervalData, DataSource, Interval, RefIntervalData};
use jif::itree::ITree;
use jif::jif::Jif;
use jif::ord::OrdChunk;
use jif::pheader::{JifPheader, Prot};
use sha2::{Digest, Sha256};

const PAGE: u64 = 0x1000;

fn hash(data: &[u8]) -> [u8; 32] {
    Sha256::digest(data).into()
}

/// An anonymous pheader with two equal data pages and one other, and a reference pheader of
/// four pages whose first one is zero
fn sample() -> Jif {
    let a = (0x10000, 0x10000 + 4 * PAGE);
    let mut data = vec![7u8; 2 * PAGE as usize];
    data.extend(vec![9u8; PAGE as usize]);
    let anon = JifPheader::Anonymous {
        vaddr_range: a,
        itree: ITree::build(vec![Interval::new(a.0, a.0 + 3 * PAGE, AnonIntervalData::Owned(data))], a).unwrap(),
        prot: Prot::Read.bit(),
    };
    let r = (0x20000, 0x20000 + 4 * PAGE);
    let reference = JifPheader::Reference {
        vaddr_range: r,
        itree: ITree::build(vec![Interval::new(r.0, r.0 + PAGE, RefIntervalData::Zero)], r).unwrap(),
        prot: Prot::Read.bit(),
        ref_path: "/lib/libc.so".to_string(),
        ref_offset: 0x3000,
    };
    Jif { pheaders: vec![anon, reference], ord_chunks: Vec::new(), deduper: Deduper::default() }
}

#[test]
fn private_pages_are_hashed_once_each() {
    let jif = sample();
    let set = build_private_pages_hash_set(&jif);
    assert_eq!(set, vec![hash(&[7u8; 0x1000]), hash(&[9u8; 0x1000])]);
}

#[test]
fn shared_pages_are_file_pages() {
    let jif = sample();
    let set = build_shared_pages_set(&jif);
    // the file-backed part of the reference region, [0x21000; 0x24000), is the file's
    // [0x4000; 0x7000), one entry per page
    assert_eq!(
        set,
        vec![("/lib/libc.so".to_string(), 0x4000), ("/lib/libc.so".to_string(), 0x5000), ("/lib/libc.so".to_string(), 0x6000)]
    );
}

#[test]
fn ordering_digest_by_kind() {
    let mut jif = sample();
    jif.ord_chunks = vec![
        OrdChunk { timestamp_us: 1, vaddr: 0x10000, n_pages: 3, kind: DataSource::Private, is_written_to: false },
        OrdChunk { timestamp_us: 2, vaddr: 0x20000, n_pages: 2, kind: DataSource::Shared, is_written_to: false },
        OrdChunk { timestamp_us: 3, vaddr: 0x90000, n_pages: 1, kind: DataSource::Private, is_written_to: false },
    ];
    let d = build_ordering_digest(&jif, true, true);
    assert_eq!(d.private_pages, vec![hash(&[7u8; 0x1000]), hash(&[9u8; 0x1000])]);
    // 0x21000 lies one page into the region, which starts at file offset 0x3000
    assert_eq!(d.shared_pages, vec![("/lib/libc.so".to_string(), 0x4000)]);
    assert_eq!(d.zero_pages, 1);

    let only_private = build_ordering_digest(&jif, true, false);
    assert!(only_private.shared_pages.is_empty());
    assert_eq!(only_private.private_pages.len(), 2);
}

#[test]
fn shared_pages_split_into_unique_and_truly_shared() {
    let a = JifDigest {
        private_pages: Vec::new(),
        shared_pages: vec![("x".to_string(), 0), ("x".to_string(), 0x1000), ("y".to_string(), 0)],
        zero_pages: 0,
    };
    let b = JifDigest { private_pages: Vec::new(), shared_pages: vec![("x".to_string(), 0x1000)], zero_pages: 3 };
    let c = JifDigest { private_pages: Vec::new(), shared_pages: vec![("y".to_string(), 0)], zero_pages: 0 };
    let ds = vec![a, b, c];
    assert_eq!(shared_page_split(&ds, 0), (1, 2));
    assert_eq!(shared_page_split(&ds, 1), (0, 1));
    assert_eq!(shared_page_split(&ds, 2), (0, 1));
}
