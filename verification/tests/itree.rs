use jif::deduper::Deduper;
use jif::error::ITreeError;
use jif::itree::diff::{create_anon_itree_from_zero_page, create_itree_from_diff, create_ref_itree_from_zero_page};
use jif::itree::interval::{AnonIntervalData, DataSource, Interval, IntervalData, RefIntervalData};
use jif::itree::itree_node::ITreeNode;
use jif::itree::{ITree, ITreeView};

const VADDR_BEGIN: u64 = 0x100000;
const VADDR_END: u64 = 0x200000;
const VADDRS: [u64; 17] = [
    VADDR_BEGIN,
    0x110000,
    0x120000,
    0x130000,
    0x140000,
    0x150000,
    0x160000,
    0x170000,
    0x180000,
    0x190000,
    0x1a0000,
    0x1b0000,
    0x1c0000,
    0x1d0000,
    0x1e0000,
    0x1f0000,
    VADDR_END,
];

fn gen_empty<Data: IntervalData + Default + std::fmt::Debug>() -> ITree<Data> {
    ITree::new(Vec::new(), (VADDR_BEGIN, VADDR_END)).unwrap()
}

fn gen_anon_tree() -> ITree<AnonIntervalData> {
    let mut intervals = Vec::new();
    for (cnt, (start, end)) in VADDRS.iter().copied().zip(VADDRS.iter().copied().skip(1)).enumerate() {
        if cnt % 2 == 0 {
            intervals.push(Interval::new(start, end, AnonIntervalData::Owned(vec![cnt as u8 + 1; (end - start) as usize])));
        }
    }
    ITree::build(intervals, (VADDR_BEGIN, VADDR_END)).unwrap()
}

fn gen_ref_tree() -> ITree<RefIntervalData> {
    let mut intervals = Vec::new();
    for (cnt, (start, end)) in VADDRS.iter().copied().zip(VADDRS.iter().copied().skip(1)).enumerate() {
        match cnt % 3 {
            0 => intervals.push(Interval::new(start, end, RefIntervalData::Owned(vec![cnt as u8 + 1; (end - start) as usize]))),
            1 => intervals.push(Interval::new(start, end, RefIntervalData::Zero)),
            _ => {},
        }
    }
    ITree::build(intervals, (VADDR_BEGIN, VADDR_END)).unwrap()
}

fn create_anon_from_zero(data: &[u8], virtual_range: (u64, u64)) -> ITree<AnonIntervalData> {
    let mut intervals = Vec::new();
    create_anon_itree_from_zero_page(data, virtual_range.0, &mut intervals);
    ITree::build(intervals, virtual_range).unwrap()
}

fn create_ref_from_zero(data: &[u8], virtual_range: (u64, u64)) -> ITree<RefIntervalData> {
    let mut intervals = Vec::new();
    create_ref_itree_from_zero_page(data, virtual_range.0, &mut intervals);
    ITree::build(intervals, virtual_range).unwrap()
}

fn create_from_diff(base: &[u8], overlay: &[u8], virtual_range: (u64, u64)) -> ITree<RefIntervalData> {
    let mut intervals = Vec::new();
    create_itree_from_diff(base, overlay, virtual_range.0, &mut intervals);
    ITree::build(intervals, virtual_range).unwrap()
}

fn pages_eq(pages: &[&[u8]], expected: &[Vec<u8>]) {
    assert_eq!(pages.len(), expected.len());
    for (p, e) in pages.iter().zip(expected.iter()) {
        assert_eq!(p.to_vec(), *e);
    }
}

#[test]
fn interval_intersect() {
    let interval = Interval::new(0x1000, 0x2000, RefIntervalData::Zero);

    // non-intersecting
    assert_eq!(interval.intersect(0x0000, 0x1000), None);
    assert_eq!(interval.intersect(0x2000, 0x3000), None);

    // invalid interval
    assert_eq!(interval.intersect(0x2000, 0x1000), None);

    // empty interval
    assert_eq!(interval.intersect(0x1800, 0x1800), None);

    // full intersection
    assert_eq!(interval.intersect(0x1000, 0x2000), Some((0x1000, 0x2000)));

    // partial intersections
    assert_eq!(interval.intersect(0x0000, 0x2000), Some((0x1000, 0x2000)));
    assert_eq!(interval.intersect(0x0000, 0x3000), Some((0x1000, 0x2000)));
    assert_eq!(interval.intersect(0x1800, 0x2000), Some((0x1800, 0x2000)));
    assert_eq!(interval.intersect(0x1800, 0x3000), Some((0x1800, 0x2000)));
    assert_eq!(interval.intersect(0x0000, 0x1800), Some((0x1000, 0x1800)));
    assert_eq!(interval.intersect(0x1200, 0x1400), Some((0x1200, 0x1400)));
}

#[test]
fn create_anon_zero_0() {
    let deduper = Deduper::default();
    let data = [0xffu8; 0x1000 * 5];

    let itree = create_anon_from_zero(&data, (0x0000, 0x5000));
    let target_itree = ITree::build(
        vec![Interval::new(0x0000, 0x5000, AnonIntervalData::Owned(vec![0xff; 0x1000 * 5]))],
        (0x0000, 0x5000),
    )
    .unwrap();

    assert_eq!(itree.nodes, target_itree.nodes);
    assert_eq!(itree.zero_byte_size(), 0);
    assert_eq!(itree.private_data_size(), 0x1000 * 5);
    assert_eq!(itree.explicitely_mapped_subregion_size(0x0000, 0x3000), 0x1000 * 3);

    let it = itree.iter_private_pages(&deduper);
    pages_eq(&it, &vec![vec![0xff; 0x1000]; 5]);
}

#[test]
fn create_anon_zero_1() {
    let deduper = Deduper::default();
    let data = [0x00u8; 0x1000 * 5];

    let itree = create_anon_from_zero(&data, (0x0000, 0x5000));
    let target_itree: ITree<AnonIntervalData> = ITree::build(vec![], (0x0000, 0x5000)).unwrap();

    assert_eq!(itree.nodes, target_itree.nodes);
    assert_eq!(itree.zero_byte_size(), 0);
    assert_eq!(itree.private_data_size(), 0);
    assert_eq!(itree.explicitely_mapped_subregion_size(0x0000, 0x3000), 0);

    let it = itree.iter_private_pages(&deduper);
    assert!(it.is_empty());
}

#[test]
fn create_anon_zero_2() {
    let deduper = Deduper::default();
    let mut data = [0x00u8; 0x1000 * 5];
    data[0x0000..0x1000].fill(0xff);
    data[0x2000..0x3000].fill(0xff);

    let itree = create_anon_from_zero(&data, (0x0000, 0x5000));
    let target_itree = ITree::build(
        vec![
            Interval::new(0x0000, 0x1000, AnonIntervalData::Owned(vec![0xff; 0x1000])),
            Interval::new(0x2000, 0x3000, AnonIntervalData::Owned(vec![0xff; 0x1000])),
        ],
        (0x0000, 0x5000),
    )
    .unwrap();

    assert_eq!(itree.nodes, target_itree.nodes);
    assert_eq!(itree.zero_byte_size(), 0);
    assert_eq!(itree.private_data_size(), 0x1000 * 2);
    assert_eq!(itree.explicitely_mapped_subregion_size(0x0000, 0x4000), 0x1000 * 2);

    let it = itree.iter_private_pages(&deduper);
    pages_eq(&it, &vec![vec![0xff; 0x1000]; 2]);
}

#[test]
fn create_anon_zero_3() {
    let deduper = Deduper::default();
    let mut data = [0x00u8; 0x1000 * 5];
    data[0x0000..0x1000].fill(0xff);
    data[0x3000..0x5000].fill(0xff);

    let itree = create_anon_from_zero(&data, (0x0000, 0x5000));
    let target_itree = ITree::build(
        vec![
            Interval::new(0x0000, 0x1000, AnonIntervalData::Owned(vec![0xff; 0x1000])),
            Interval::new(0x3000, 0x5000, AnonIntervalData::Owned(vec![0xff; 0x2000])),
        ],
        (0x0000, 0x5000),
    )
    .unwrap();

    assert_eq!(itree.nodes, target_itree.nodes);
    assert_eq!(itree.zero_byte_size(), 0);
    assert_eq!(itree.private_data_size(), 0x1000 * 3);
    assert_eq!(itree.explicitely_mapped_subregion_size(0x0000, 0x4000), 0x1000 * 2);

    let it = itree.iter_private_pages(&deduper);
    pages_eq(&it, &vec![vec![0xff; 0x1000]; 3]);
}

#[test]
fn create_ref_zero_0() {
    let deduper = Deduper::default();
    let data = [0xffu8; 0x1000 * 5];

    let itree = create_ref_from_zero(&data, (0x0000, 0x5000));
    let target_itree = ITree::build(
        vec![Interval::new(0x0000, 0x5000, RefIntervalData::Owned(vec![0xff; 0x1000 * 5]))],
        (0x0000, 0x5000),
    )
    .unwrap();

    assert_eq!(itree.nodes, target_itree.nodes);
    assert_eq!(itree.zero_byte_size(), 0);
    assert_eq!(itree.private_data_size(), 0x1000 * 5);
    assert_eq!(itree.explicitely_mapped_subregion_size(0x0000, 0x3000), 0x1000 * 3);

    let it = itree.iter_private_pages(&deduper);
    pages_eq(&it, &vec![vec![0xff; 0x1000]; 5]);
}

#[test]
fn create_ref_zero_1() {
    let deduper = Deduper::default();
    let data = [0x00u8; 0x1000 * 5];

    let itree = create_ref_from_zero(&data, (0x0000, 0x5000));
    let target_itree = ITree::build(vec![Interval::new(0x0000, 0x5000, RefIntervalData::Zero)], (0x0000, 0x5000)).unwrap();

    assert_eq!(itree.nodes, target_itree.nodes);
    assert_eq!(itree.zero_byte_size(), 5 * 0x1000);
    assert_eq!(itree.private_data_size(), 0);
    assert_eq!(itree.explicitely_mapped_subregion_size(0x0000, 0x3000), 3 * 0x1000);

    let it = itree.iter_private_pages(&deduper);
    assert!(it.is_empty());
}

#[test]
fn create_ref_zero_2() {
    let deduper = Deduper::default();
    let mut data = [0x00u8; 0x1000 * 5];
    data[0x0000..0x1000].fill(0xff);
    data[0x2000..0x3000].fill(0xff);

    let itree = create_ref_from_zero(&data, (0x0000, 0x5000));
    let target_itree = ITree::build(
        vec![
            Interval::new(0x0000, 0x1000, RefIntervalData::Owned(vec![0xff; 0x1000])),
            Interval::new(0x1000, 0x2000, RefIntervalData::Zero),
            Interval::new(0x2000, 0x3000, RefIntervalData::Owned(vec![0xff; 0x1000])),
            Interval::new(0x3000, 0x5000, RefIntervalData::Zero),
        ],
        (0x0000, 0x5000),
    )
    .unwrap();

    assert_eq!(itree.nodes, target_itree.nodes);
    assert_eq!(itree.zero_byte_size(), 3 * 0x1000);
    assert_eq!(itree.private_data_size(), 0x1000 * 2);
    assert_eq!(itree.explicitely_mapped_subregion_size(0x0000, 0x4000), 4 * 0x1000);

    let it = itree.iter_private_pages(&deduper);
    pages_eq(&it, &vec![vec![0xff; 0x1000]; 2]);
}

#[test]
fn create_ref_zero_3() {
    let deduper = Deduper::default();
    let mut data = [0x00u8; 0x1000 * 5];
    data[0x0000..0x1000].fill(0xff);
    data[0x3000..0x5000].fill(0xff);

    let itree = create_ref_from_zero(&data, (0x0000, 0x5000));
    let target_itree = ITree::build(
        vec![
            Interval::new(0x0000, 0x1000, RefIntervalData::Owned(vec![0xff; 0x1000])),
            Interval::new(0x1000, 0x3000, RefIntervalData::Zero),
            Interval::new(0x3000, 0x5000, RefIntervalData::Owned(vec![0xff; 0x2000])),
        ],
        (0x0000, 0x5000),
    )
    .unwrap();

    assert_eq!(itree.nodes, target_itree.nodes);
    assert_eq!(itree.zero_byte_size(), 2 * 0x1000);
    assert_eq!(itree.private_data_size(), 0x1000 * 3);
    assert_eq!(itree.explicitely_mapped_subregion_size(0x0000, 0x4000), 0x1000 * 4);

    let it = itree.iter_private_pages(&deduper);
    pages_eq(&it, &vec![vec![0xff; 0x1000]; 3]);
}

#[test]
fn create_diff_0() {
    let deduper = Deduper::default();
    let base = [0xffu8; 0x1000 * 5];
    let overlay = [0xffu8; 0x1000 * 5];

    let itree = create_from_diff(&base, &overlay, (0x0000, 0x5000));
    let target_itree: ITree<RefIntervalData> = ITree::build(vec![], (0x0000, 0x5000)).unwrap();
    assert_eq!(itree.nodes, target_itree.nodes);
    assert_eq!(itree.zero_byte_size(), 0);
    assert_eq!(itree.private_data_size(), 0);
    assert_eq!(itree.explicitely_mapped_subregion_size(0x0000, 0x5000), 0);
    assert_eq!(itree.implicitely_mapped_subregion_size(0x0000, 0x5000), 0x1000 * 5);

    let it = itree.iter_private_pages(&deduper);
    assert!(it.is_empty());
}

#[test]
fn create_diff_1() {
    let deduper = Deduper::default();
    let base = [0xffu8; 0x1000 * 5];
    let overlay = [0x88u8; 0x1000 * 5];

    let itree = create_from_diff(&base, &overlay, (0x0000, 0x5000));
    let target_itree = ITree::build(
        vec![Interval::new(0x0000, 0x5000, RefIntervalData::Owned(vec![0x88u8; 0x1000 * 5]))],
        (0x0000, 0x5000),
    )
    .unwrap();
    assert_eq!(itree.nodes, target_itree.nodes);
    assert_eq!(itree.zero_byte_size(), 0);
    assert_eq!(itree.private_data_size(), 0x1000 * 5);
    assert_eq!(itree.explicitely_mapped_subregion_size(0x0000, 0x5000), 0x1000 * 5);
    assert_eq!(itree.implicitely_mapped_subregion_size(0x0000, 0x5000), 0);

    let it = itree.iter_private_pages(&deduper);
    pages_eq(&it, &vec![vec![0x88; 0x1000]; 5]);
}

#[test]
fn create_diff_2() {
    let deduper = Deduper::default();
    let base = [0xffu8; 0x1000 * 5];
    let overlay = [0x00u8; 0x1000 * 5];

    let itree = create_from_diff(&base, &overlay, (0x0000, 0x5000));
    let target_itree = ITree::build(vec![Interval::new(0x0000, 0x5000, RefIntervalData::Zero)], (0x0000, 0x5000)).unwrap();
    assert_eq!(itree.nodes, target_itree.nodes);
    assert_eq!(itree.zero_byte_size(), 0x1000 * 5);
    assert_eq!(itree.private_data_size(), 0);
    assert_eq!(itree.explicitely_mapped_subregion_size(0x0000, 0x5000), 0x1000 * 5);
    assert_eq!(itree.implicitely_mapped_subregion_size(0x0000, 0x5000), 0);

    let it = itree.iter_private_pages(&deduper);
    assert!(it.is_empty());
}

#[test]
fn create_diff_3() {
    let deduper = Deduper::default();
    let base = [0xffu8; 0x1000];
    let mut overlay = [0xffu8; 0x1000 * 5];
    overlay[0x4000..].fill(0x00);

    let itree = create_from_diff(&base, &overlay, (0x0000, 0x5000));
    let target_itree = ITree::build(
        vec![
            Interval::new(0x1000, 0x4000, RefIntervalData::Owned(vec![0xffu8; 0x1000 * 3])),
            Interval::new(0x4000, 0x5000, RefIntervalData::Zero),
        ],
        (0x0000, 0x5000),
    )
    .unwrap();
    assert_eq!(itree.nodes, target_itree.nodes);
    assert_eq!(itree.zero_byte_size(), 0x1000);
    assert_eq!(itree.private_data_size(), 0x1000 * 3);
    assert_eq!(itree.explicitely_mapped_subregion_size(0x0000, 0x5000), 0x1000 * 4);
    assert_eq!(itree.implicitely_mapped_subregion_size(0x0000, 0x5000), 0x1000);

    let it = itree.iter_private_pages(&deduper);
    pages_eq(&it, &vec![vec![0xff; 0x1000]; 3]);
}

#[test]
fn create_diff_4() {
    let deduper = Deduper::default();
    let base = [0xffu8; 0x1000 * 6];
    let mut overlay = [0x00u8; 0x1000 * 10];
    overlay[0x0000..0x1000].fill(0xff); // same
    overlay[0x1000..0x2000].fill(0x00); // zero
    overlay[0x2000..0x3000].fill(0x00); // zero
    overlay[0x3000..0x4000].fill(0xaa); // diff
    overlay[0x4000..0x5000].fill(0xff); // same
    overlay[0x5000..0x6000].fill(0xaa); // diff

    overlay[0x6000..0x7000].fill(0xff); // non-zero
    overlay[0x7000..0x8000].fill(0x00); // zero
    overlay[0x8000..0x9000].fill(0xff); // non-zero
    overlay[0x9000..0xa000].fill(0x00); // zero

    let itree = create_from_diff(&base, &overlay, (0x0000, 0xa000));
    let target_itree = ITree::build(
        vec![
            Interval::new(0x1000, 0x3000, RefIntervalData::Zero),
            Interval::new(0x3000, 0x4000, RefIntervalData::Owned(vec![0xaa; 0x1000])),
            Interval::new(
                0x5000,
                0x7000,
                RefIntervalData::Owned({
                    let mut v = vec![0x00; 0x1000 * 2];
                    v[..0x1000].fill(0xaa);
                    v[0x1000..].fill(0xff);
                    v
                }),
            ),
            Interval::new(0x7000, 0x8000, RefIntervalData::Zero),
            Interval::new(0x8000, 0x9000, RefIntervalData::Owned(vec![0xff; 0x1000])),
            Interval::new(0x9000, 0xa000, RefIntervalData::Zero),
        ],
        (0x0000, 0xa000),
    )
    .unwrap();
    assert_eq!(itree.nodes, target_itree.nodes);
    assert_eq!(itree.zero_byte_size(), 0x1000 * 4);
    assert_eq!(itree.private_data_size(), 0x1000 * 4);
    assert_eq!(itree.explicitely_mapped_subregion_size(0x0000, 0x5000), 0x1000 * 3);
}

fn test_empty() {
    let tree: ITree<RefIntervalData> = gen_empty();
    assert_eq!(tree.n_nodes(), 0);
    assert_eq!(tree.n_explicit_intervals(), 0);
    assert_eq!(tree.n_data_intervals(), 0);
    assert_eq!(tree.in_order_intervals().len(), 0);
    assert_eq!(tree.zero_byte_size(), 0);
    assert_eq!(tree.private_data_size(), 0);
    assert_eq!(tree.explicitely_mapped_subregion_size(VADDR_BEGIN, VADDR_END), 0);
    assert_eq!(tree.implicitely_mapped_subregion_size(VADDR_BEGIN, VADDR_END), VADDR_END - VADDR_BEGIN);
    let deduper = Deduper::default();
    assert_eq!(tree.iter_private_pages(&deduper).len(), 0);
    assert_eq!(tree.resolve(0), Err((VADDR_BEGIN, VADDR_END)));
    assert_eq!(tree.resolve(VADDR_BEGIN), Err((VADDR_BEGIN, VADDR_END)));
    assert_eq!(tree.resolve((VADDR_BEGIN + VADDR_END) / 2), Err((VADDR_BEGIN, VADDR_END)));
    assert_eq!(tree.resolve(VADDR_END), Err((VADDR_BEGIN, VADDR_END)));
}

#[test]
fn test_empty_anon() {
    test_empty()
}

#[test]
fn test_empty_ref() {
    test_empty()
}

#[test]
fn test_anon_tree() {
    let tree = gen_anon_tree();
    // ranges are mapped on and off; we query the midpoint in each range
    for (cnt, range) in VADDRS.into_iter().zip(VADDRS.into_iter().skip(1)).enumerate() {
        let addr = (range.0 + range.1) / 2;
        let resolve = tree.resolve(addr);
        match cnt % 2 {
            0 => assert!(matches!(&resolve.unwrap().data, &AnonIntervalData::Owned(_))),
            _ => assert_eq!(resolve.unwrap_err(), range),
        };
    }

    // the in order traversal is in order
    let ivals = tree.in_order_intervals();
    for (i1, i2) in ivals.iter().zip(ivals.iter().skip(1)) {
        assert!(i1.end <= i2.start);
    }

    let mut bounds = vec![(0u64, VADDR_BEGIN)];
    bounds.extend(ivals.iter().map(|ival| (ival.start, ival.end)));
    bounds.push((VADDR_END, u64::MAX));
    let gaps: u64 = bounds.iter().zip(bounds.iter().skip(1)).map(|((_s1, e1), (s2, _e2))| s2 - e1).sum();
    assert_eq!(tree.implicitely_mapped_subregion_size(VADDR_BEGIN, VADDR_END), gaps);
}

#[test]
fn test_ref_tree() {
    let tree = gen_ref_tree();
    // ranges are mapped in an Owned -> Zero -> Ref cycle (Ref is implied)
    for (cnt, range) in VADDRS.into_iter().zip(VADDRS.into_iter().skip(1)).enumerate() {
        let addr = (range.0 + range.1) / 2;
        let resolve = tree.resolve(addr);
        match cnt % 3 {
            0 => assert!(matches!(&resolve.unwrap().data, &RefIntervalData::Owned(_))),
            1 => assert!(matches!(&resolve.unwrap().data, &RefIntervalData::Zero)),
            _ => assert_eq!(resolve.unwrap_err(), range),
        };
    }

    let ivals = tree.in_order_intervals();
    for (i1, i2) in ivals.iter().zip(ivals.iter().skip(1)) {
        assert!(i1.end <= i2.start);
    }
}

#[test]
fn anon_resolve_empty() {
    let itree: ITree<AnonIntervalData> = gen_empty();
    let view = ITreeView::Anon { inner: &itree };
    assert_eq!(view.resolve(0).source, DataSource::Zero);
    assert_eq!(view.resolve(VADDR_BEGIN).source, DataSource::Zero);
    assert_eq!(view.resolve((VADDR_BEGIN + VADDR_END) / 2).source, DataSource::Zero);
    assert_eq!(view.resolve(VADDR_END).source, DataSource::Zero);
}

#[test]
fn ref_resolve_empty() {
    let itree: ITree<RefIntervalData> = gen_empty();
    let view = ITreeView::Ref { inner: &itree };
    assert_eq!(view.resolve(0).source, DataSource::Shared);
    assert_eq!(view.resolve(VADDR_BEGIN).source, DataSource::Shared);
    assert_eq!(view.resolve((VADDR_BEGIN + VADDR_END) / 2).source, DataSource::Shared);
    assert_eq!(view.resolve(VADDR_END).source, DataSource::Shared);
}

#[test]
fn anon_resolve_filled() {
    let itree = gen_anon_tree();
    let view = ITreeView::Anon { inner: &itree };

    for (cnt, addr) in VADDRS.iter().zip(VADDRS.iter().skip(1)).map(|(start, end)| (start + end) / 2).enumerate() {
        let resolve = view.resolve(addr);
        match cnt % 2 {
            0 => assert_eq!(resolve.source, DataSource::Private),
            _ => assert_eq!(resolve.source, DataSource::Zero),
        };
    }
}

#[test]
fn ref_resolve_filled() {
    let itree = gen_ref_tree();
    let view = ITreeView::Ref { inner: &itree };

    for (cnt, addr) in VADDRS.iter().zip(VADDRS.iter().skip(1)).map(|(start, end)| (start + end) / 2).enumerate() {
        let resolve = view.resolve(addr);
        match cnt % 3 {
            0 => assert_eq!(resolve.source, DataSource::Private),
            1 => assert_eq!(resolve.source, DataSource::Zero),
            _ => assert_eq!(resolve.source, DataSource::Shared),
        };
    }
}

#[test]
fn diff_pages_past_the_base_at_a_nonzero_address() {
    let base = vec![0xffu8; 0x1000];
    let overlay = vec![0xffu8; 0x2000];
    let mut intervals = Vec::new();
    create_itree_from_diff(&base, &overlay, 0x1000, &mut intervals);
    assert_eq!(intervals, vec![Interval::new(0x2000, 0x3000, RefIntervalData::Owned(vec![0xff; 0x1000]))]);

    let mut overlay = vec![0xffu8; 0x1000];
    overlay.extend(vec![0u8; 0x1000]);
    overlay.extend(vec![7u8; 0x1000]);
    let mut intervals = Vec::new();
    create_itree_from_diff(&base, &overlay, 0x40000, &mut intervals);
    assert_eq!(
        intervals,
        vec![
            Interval::new(0x41000, 0x42000, RefIntervalData::Zero),
            Interval::new(0x42000, 0x43000, RefIntervalData::Owned(vec![7; 0x1000])),
        ]
    );
}

fn owned(start: u64, end: u64, byte: u8) -> Interval<AnonIntervalData> {
    Interval::new(start, end, AnonIntervalData::Owned(vec![byte; (end - start) as usize]))
}

#[test]
fn new_tree_stays_within_its_range() {
    let tree = gen_anon_tree();
    let (begin, end) = tree.virtual_range();
    let ivals = tree.in_order_intervals();
    assert_eq!(ivals.len(), 8);
    for (i1, i2) in ivals.iter().zip(ivals.iter().skip(1)) {
        assert!(i1.end <= i2.start);
    }
    for ival in ivals.iter() {
        assert!(begin <= ival.start && ival.end <= end);
    }
    assert_eq!(tree.zero_byte_size(), 0);
    assert_eq!(tree.private_data_size(), 8 * 0x10000);
    assert!(tree.zero_byte_size() + tree.private_data_size() <= end - begin);
    assert_eq!(tree.n_logical_intervals(), 16);
    assert_eq!(ITree::<AnonIntervalData>::n_itree_nodes_from_intervals(16), 6);
    assert!(tree.n_nodes() <= ITree::<AnonIntervalData>::n_itree_nodes_from_intervals(tree.n_logical_intervals()));
}

#[test]
fn new_counts_the_gaps_when_checking_compactness() {
    let root = ITreeNode { ranges: vec![owned(0x150000, 0x160000, 3), Interval::empty(), Interval::empty()] };
    let child = ITreeNode { ranges: vec![owned(0x110000, 0x120000, 1), owned(0x130000, 0x140000, 2), Interval::empty()] };
    let tree = ITree::new(vec![root, child], (VADDR_BEGIN, VADDR_END)).unwrap();
    assert_eq!(tree.n_nodes(), 2);
    assert_eq!(tree.n_intervals(), 3);
    assert_eq!(tree.n_logical_intervals(), 5);
    assert_eq!(ITree::<AnonIntervalData>::n_itree_nodes_from_intervals(tree.n_intervals()), 1);
    assert_eq!(ITree::<AnonIntervalData>::n_itree_nodes_from_intervals(tree.n_logical_intervals()), 2);
}

#[test]
fn new_refuses_a_tree_with_more_nodes_than_its_logical_intervals_need() {
    let root = ITreeNode { ranges: vec![owned(0x150000, 0x160000, 3), Interval::empty(), Interval::empty()] };
    let child = ITreeNode { ranges: vec![owned(0x110000, 0x120000, 1), Interval::empty(), Interval::empty()] };
    let r = ITree::new(vec![root, child], (VADDR_BEGIN, VADDR_END));
    assert_eq!(r.err(), Some(ITreeError::NotCompact { expected_n_nodes: 1, n_nodes: 2 }));
}

#[test]
fn new_accepts_a_node_whose_first_slot_is_empty() {
    let node = ITreeNode { ranges: vec![Interval::empty(), owned(0x150000, 0x160000, 2), owned(0x110000, 0x120000, 1)] };
    let tree = ITree::new(vec![node], (VADDR_BEGIN, VADDR_END)).unwrap();
    assert_eq!(tree.n_nodes(), 1);
    assert_eq!(tree.n_intervals(), 2);
    assert_eq!(tree.in_order_intervals().len(), 0);
    assert_eq!(tree.n_logical_intervals(), 1);
}

#[test]
fn build_accepts_disjoint_intervals_in_any_order() {
    let ivals = vec![
        owned(0x1c0000, 0x1d0000, 4),
        owned(0x110000, 0x120000, 1),
        owned(0x1e0000, 0x200000, 5),
        owned(0x100000, 0x110000, 0),
        owned(0x150000, 0x160000, 3),
        owned(0x130000, 0x140000, 2),
    ];
    let tree = ITree::build(ivals, (VADDR_BEGIN, VADDR_END)).unwrap();
    assert_eq!(tree.n_nodes(), 2);
    let starts: Vec<u64> = tree.in_order_intervals().iter().map(|i| i.start).collect();
    assert_eq!(starts, vec![0x100000, 0x110000, 0x130000, 0x150000, 0x1c0000, 0x1e0000]);
}

#[test]
fn build_refuses_overlapping_intervals() {
    let ivals = vec![owned(0x110000, 0x130000, 1), owned(0x120000, 0x140000, 2)];
    let r = ITree::build(ivals, (VADDR_BEGIN, VADDR_END));
    assert_eq!(r.err(), Some(ITreeError::IntersectingInterval { interval_1: (0x110000, 0x130000), interval_2: (0x120000, 0x140000) }));
}
