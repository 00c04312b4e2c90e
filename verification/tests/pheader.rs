use jif::deduper::Deduper;
use jif::error::{ITreeError, JifError};
use jif::itree::interval::{AnonIntervalData, Interval, IntervalData, RefIntervalData};
use jif::itree::ITree;
use jif::jif::Jif;
use jif::pheader::{JifPheader, Prot};

const PAGE: u64 = 0x1000;
const VADDR_BEGIN: u64 = 0x100000;
const VADDR_END: u64 = 0x200000;
const VADDRS: [u64; 17] = [
    VADDR_BEGIN,
    0x110000,
    0x120000,
    0x130000,
    0x140000,
    0x150000,
    0x160000,
    0x170000,
    0x180000,
    0x190000,
    0x1a0000,
    0x1b0000,
    0x1c0000,
    0x1d0000,
    0x1e0000,
    0x1f0000,
    VADDR_END,
];

fn gen_anon_tree() -> ITree<AnonIntervalData> {
    let mut intervals = Vec::new();
    for (cnt, (start, end)) in VADDRS.iter().copied().zip(VADDRS.iter().copied().skip(1)).enumerate() {
        if cnt % 2 == 0 {
            intervals.push(Interval::new(start, end, AnonIntervalData::Owned(vec![cnt as u8 + 1; (end - start) as usize])));
        }
    }
    ITree::build(intervals, (VADDR_BEGIN, VADDR_END)).unwrap()
}

fn gen_ref_tree() -> ITree<RefIntervalData> {
    let mut intervals = Vec::new();
    for (cnt, (start, end)) in VADDRS.iter().copied().zip(VADDRS.iter().copied().skip(1)).enumerate() {
        match cnt % 3 {
            0 => intervals.push(Interval::new(start, end, RefIntervalData::Owned(vec![cnt as u8 + 1; (end - start) as usize]))),
            1 => intervals.push(Interval::new(start, end, RefIntervalData::Zero)),
            _ => {},
        }
    }
    ITree::build(intervals, (VADDR_BEGIN, VADDR_END)).unwrap()
}

fn page_of(byte: u8) -> Vec<u8> {
    vec![byte; PAGE as usize]
}

/// A reference pheader over three pages whose single data interval spans the whole range
fn single_data_ref_pheader(data: Vec<u8>) -> JifPheader {
    let vr = (0x10000, 0x10000 + 3 * PAGE);
    JifPheader::Reference {
        vaddr_range: vr,
        itree: ITree::build(vec![Interval::new(vr.0, vr.1, RefIntervalData::Owned(data))], vr).unwrap(),
        prot: Prot::Read.bit(),
        ref_path: "lib.so".to_string(),
        ref_offset: 0x2000,
    }
}

#[test]
fn fragment_anon_pheader() {
    let itree = gen_anon_tree();
    let mut cnt = 0;
    // ranges are mapped on and off
    // we query the midpoint in each range
    for range in VADDRS.into_iter().zip(VADDRS.into_iter().skip(1)) {
        let addr = (range.0 + range.1) / 2;
        let resolve = itree.resolve(addr);
        match cnt % 2 {
            0 => assert!(matches!(&resolve.unwrap().data, &AnonIntervalData::Owned(_))),
            1 => assert_eq!(resolve.unwrap_err(), range),
            _ => unreachable!(),
        };
        cnt += 1
    }

    let pheader = JifPheader::Anonymous { vaddr_range: (VADDR_BEGIN, VADDR_END), itree, prot: Prot::Read.bit() };

    let prot = pheader.prot();

    let deduper = Deduper::default();
    let pheaders = pheader.fragment_vmas(&deduper, None).unwrap();
    assert_eq!(pheaders.len(), 16);

    for (cnt, pheader) in pheaders.iter().enumerate() {
        let cnt = cnt % 2;
        assert_eq!(prot, pheader.prot());
        match pheader {
            JifPheader::Anonymous { itree, .. } if itree.n_intervals() > 0 => {
                assert_eq!(cnt, 0)
            },
            JifPheader::Anonymous { .. } => assert_eq!(cnt, 1),
            JifPheader::Reference { .. } => {
                assert!(false);
            },
        }
    }
}

#[test]
fn fragment_ref_pheader() {
    let itree = gen_ref_tree();
    let mut cnt = 0;
    // ranges are mapped in an Owned -> Zero -> Ref cycle (Ref is implied)
    // we query the midpoint in each range
    for range in VADDRS.into_iter().zip(VADDRS.into_iter().skip(1)) {
        let addr = (range.0 + range.1) / 2;
        let resolve = itree.resolve(addr);
        match cnt % 3 {
            0 => assert!(matches!(&resolve.unwrap().data, &RefIntervalData::Owned(_))),
            1 => assert!(matches!(&resolve.unwrap().data, &RefIntervalData::Zero)),
            2 => assert_eq!(resolve.unwrap_err(), range),
            _ => unreachable!(),
        };
        cnt += 1
    }

    let pheader = JifPheader::Reference {
        vaddr_range: (VADDR_BEGIN, VADDR_END),
        itree,
        prot: Prot::Read.bit(),
        ref_path: "abc".into(),
        ref_offset: 0,
    };

    let prot = pheader.prot();

    let deduper = Deduper::default();
    let pheaders = pheader.fragment_vmas(&deduper, None).unwrap();
    assert_eq!(pheaders.len(), 16);

    for (cnt, pheader) in pheaders.iter().enumerate() {
        let cnt = cnt % 3;
        assert_eq!(prot, pheader.prot());
        match pheader {
            JifPheader::Anonymous { itree, .. } if itree.n_intervals() > 0 => {
                assert_eq!(cnt, 0)
            },
            JifPheader::Anonymous { .. } => assert_eq!(cnt, 1),
            JifPheader::Reference { itree, .. } => {
                assert_eq!(itree.n_intervals(), 0);
                assert_eq!(cnt, 2);
            },
        }
    }
}

#[test]
fn build_anon_itree_drops_zero_pages() {
    // one data interval over four pages: data, zero, zero, data
    let vr = (0x40000, 0x40000 + 4 * PAGE);
    let mut data = page_of(7);
    data.extend(page_of(0));
    data.extend(page_of(0));
    data.extend(page_of(9));
    let mut pheader = JifPheader::Anonymous {
        vaddr_range: vr,
        itree: ITree::build(vec![Interval::new(vr.0, vr.1, AnonIntervalData::Owned(data))], vr).unwrap(),
        prot: Prot::Write.bit(),
    };
    let deduper = Deduper::default();
    assert!(!pheader.needs_reference());
    pheader.build_itree(&deduper, None).unwrap();
    match &pheader {
        JifPheader::Anonymous { itree, vaddr_range, prot } => {
            assert_eq!(*vaddr_range, vr);
            assert_eq!(*prot, Prot::Write.bit());
            assert_eq!(itree.in_order_bounds(), vec![(vr.0, vr.0 + PAGE), (vr.0 + 3 * PAGE, vr.1)]);
            assert_eq!(itree.resolve_data(vr.0, &deduper).unwrap().to_vec(), page_of(7));
            assert_eq!(itree.resolve_data(vr.0 + 3 * PAGE, &deduper).unwrap().to_vec(), page_of(9));
            assert!(itree.resolve(vr.0 + PAGE).is_err());
        },
        JifPheader::Reference { .. } => panic!("the pheader changed kind"),
    }
}

#[test]
fn build_ref_itree_from_zero_keeps_zero_intervals() {
    // a zero interval, then a data interval with a zero page in the middle
    let vr = (0x80000, 0x80000 + 5 * PAGE);
    let mut data = page_of(1);
    data.extend(page_of(0));
    data.extend(page_of(2));
    let intervals = vec![
        Interval::new(vr.0, vr.0 + PAGE, RefIntervalData::Zero),
        Interval::new(vr.0 + 2 * PAGE, vr.1, RefIntervalData::Owned(data)),
    ];
    let mut pheader = JifPheader::Reference {
        vaddr_range: vr,
        itree: ITree::build(intervals, vr).unwrap(),
        prot: Prot::Read.bit(),
        ref_path: "f".to_string(),
        ref_offset: 0,
    };
    let deduper = Deduper::default();
    // the data interval does not start the range: no diff against the file
    assert!(!pheader.needs_reference());
    pheader.build_itree(&deduper, None).unwrap();
    let itree = match &pheader {
        JifPheader::Reference { itree, .. } => itree,
        JifPheader::Anonymous { .. } => panic!("the pheader changed kind"),
    };
    assert_eq!(
        itree.in_order_bounds(),
        vec![
            (vr.0, vr.0 + PAGE),
            (vr.0 + 2 * PAGE, vr.0 + 3 * PAGE),
            (vr.0 + 3 * PAGE, vr.0 + 4 * PAGE),
            (vr.0 + 4 * PAGE, vr.1),
        ]
    );
    assert!(itree.resolve(vr.0).unwrap().data.is_zero());
    assert!(itree.resolve(vr.0 + 3 * PAGE).unwrap().data.is_zero());
    assert_eq!(itree.resolve_data(vr.0 + 4 * PAGE, &deduper).unwrap().to_vec(), page_of(2));
    assert!(itree.resolve(vr.0 + PAGE).is_err());
}

#[test]
fn build_ref_itree_from_diff() {
    // the saved data: same as the file, then a zero page, then a page of its own
    let mut data = page_of(3);
    data.extend(page_of(0));
    data.extend(page_of(5));
    let mut pheader = single_data_ref_pheader(data);
    let deduper = Deduper::default();
    assert!(pheader.needs_reference());

    // the file holds two and a half pages from the reference offset on
    let mut file = page_of(3);
    file.extend(page_of(4));
    file.extend(vec![5u8; (PAGE / 2) as usize]);
    pheader.build_itree(&deduper, Some(file)).unwrap();

    let vr = pheader.virtual_range();
    let itree = match &pheader {
        JifPheader::Reference { itree, .. } => itree,
        JifPheader::Anonymous { .. } => panic!("the pheader changed kind"),
    };
    assert_eq!(itree.in_order_bounds(), vec![(vr.0 + PAGE, vr.0 + 2 * PAGE), (vr.0 + 2 * PAGE, vr.1)]);
    assert!(itree.resolve(vr.0 + PAGE).unwrap().data.is_zero());
    assert_eq!(itree.resolve_data(vr.0 + 2 * PAGE, &deduper).unwrap().to_vec(), page_of(5));
    // the first page matches the file
    assert_eq!(itree.resolve(vr.0).unwrap_err(), (vr.0, vr.0 + PAGE));
}

#[test]
fn build_ref_itree_needs_the_file() {
    let mut pheader = single_data_ref_pheader(page_of(8).repeat(3));
    let deduper = Deduper::default();
    assert!(pheader.needs_reference());
    assert_eq!(pheader.build_itree(&deduper, None), Err(ITreeError::MissingReference));
    // the pheader is left as it was
    assert_eq!(pheader.n_itree_nodes(), 1);
    assert_eq!(pheader.data_size(), 3 * PAGE);
}

#[test]
fn fragment_ref_pheader_from_diff() {
    let mut data = page_of(3);
    data.extend(page_of(0));
    data.extend(page_of(5));
    let pheader = single_data_ref_pheader(data);
    let vr = pheader.virtual_range();
    let deduper = Deduper::default();
    let pheaders = pheader.fragment_vmas(&deduper, Some(page_of(3).repeat(3))).unwrap();
    assert_eq!(pheaders.len(), 3);
    // the page that matches the file maps the file, at the offset of that page
    match &pheaders[0] {
        JifPheader::Reference { vaddr_range, itree, ref_path, ref_offset, .. } => {
            assert_eq!(*vaddr_range, (vr.0, vr.0 + PAGE));
            assert_eq!(itree.n_intervals(), 0);
            assert_eq!(ref_path, "lib.so");
            assert_eq!(*ref_offset, 0x2000);
        },
        JifPheader::Anonymous { .. } => panic!("expected a reference pheader"),
    }
    // the zero page is an empty anonymous pheader
    match &pheaders[1] {
        JifPheader::Anonymous { vaddr_range, itree, .. } => {
            assert_eq!(*vaddr_range, (vr.0 + PAGE, vr.0 + 2 * PAGE));
            assert_eq!(itree.n_intervals(), 0);
        },
        JifPheader::Reference { .. } => panic!("expected an anonymous pheader"),
    }
    // the data page keeps its data
    match &pheaders[2] {
        JifPheader::Anonymous { vaddr_range, itree, .. } => {
            assert_eq!(*vaddr_range, (vr.0 + 2 * PAGE, vr.1));
            assert_eq!(itree.resolve_data(vr.0 + 2 * PAGE, &deduper).unwrap().to_vec(), page_of(5));
        },
        JifPheader::Reference { .. } => panic!("expected an anonymous pheader"),
    }
}

#[test]
fn fragment_reports_a_bad_tree() {
    let pheader = single_data_ref_pheader(page_of(1).repeat(3));
    let vr = pheader.virtual_range();
    let deduper = Deduper::default();
    match pheader.fragment_vmas(&deduper, None) {
        Err(JifError::InvalidITree { virtual_range, error }) => {
            assert_eq!(virtual_range, vr);
            assert_eq!(error, ITreeError::MissingReference);
        },
        _ => panic!("expected an invalid tree"),
    }
}

#[test]
fn jif_fragment_vmas_concatenates_fragments() {
    let anon_vr = (0x1000, 0x1000 + 2 * PAGE);
    let mut data = page_of(0);
    data.extend(page_of(6));
    let anon = JifPheader::Anonymous {
        vaddr_range: anon_vr,
        itree: ITree::build(vec![Interval::new(anon_vr.0, anon_vr.1, AnonIntervalData::Owned(data))], anon_vr).unwrap(),
        prot: Prot::Read.bit(),
    };
    let reference = single_data_ref_pheader(page_of(2).repeat(3));
    let mut jif = Jif { pheaders: vec![anon, reference], ord_chunks: Vec::new(), deduper: Deduper::default() };
    // the file matches the data of the reference pheader: it all maps the file
    jif.fragment_vmas(vec![None, Some(page_of(2).repeat(3))]).unwrap();
    let ranges: Vec<(u64, u64)> = jif.pheaders.iter().map(|p| p.virtual_range()).collect();
    assert_eq!(ranges, vec![(0x1000, 0x2000), (0x2000, 0x3000), (0x10000, 0x13000)]);
    assert!(matches!(jif.pheaders[2], JifPheader::Reference { .. }));
}

#[test]
fn jif_build_itrees_stops_at_the_first_failure() {
    let first = single_data_ref_pheader(page_of(1).repeat(3));
    let second = single_data_ref_pheader(page_of(2).repeat(3));
    let mut jif = Jif { pheaders: vec![first, second], ord_chunks: Vec::new(), deduper: Deduper::default() };
    match jif.build_itrees(vec![Some(page_of(1).repeat(3)), None]) {
        Err(JifError::InvalidITree { error, .. }) => assert_eq!(error, ITreeError::MissingReference),
        _ => panic!("expected the second pheader to fail"),
    }
    // the first tree was rebuilt: its data matches the file, so no interval is left
    assert_eq!(jif.pheaders[0].n_itree_nodes(), 0);
    assert_eq!(jif.pheaders[1].n_itree_nodes(), 1);
}

#[test]
fn page_counts_add_up() {
    let r = (0x10000, 0x10000 + 8 * 0x1000);
    let itree = ITree::build(
        vec![
            Interval::new(r.0, r.0 + 0x2000, RefIntervalData::Owned(vec![1u8; 0x2000])),
            Interval::new(r.0 + 0x4000, r.0 + 0x5000, RefIntervalData::Zero),
        ],
        r,
    )
    .unwrap();
    let p = JifPheader::Reference { vaddr_range: r, itree, prot: Prot::Read.bit(), ref_path: "f".to_string(), ref_offset: 0 };
    assert_eq!(p.private_pages(), 2);
    assert_eq!(p.zero_pages(), 1);
    assert_eq!(p.shared_pages(), 5);
    assert_eq!(p.total_pages(), p.zero_pages() + p.private_pages() + p.shared_pages());

    let a = (0x40000, 0x40000 + 4 * 0x1000);
    let itree = ITree::build(vec![Interval::new(a.0 + 0x1000, a.0 + 0x2000, AnonIntervalData::Owned(vec![1u8; 0x1000]))], a).unwrap();
    let p = JifPheader::Anonymous { vaddr_range: a, itree, prot: Prot::Read.bit() };
    assert_eq!(p.private_pages(), 1);
    assert_eq!(p.zero_pages(), 3);
    assert_eq!(p.shared_pages(), 0);
    assert_eq!(p.total_pages(), p.zero_pages() + p.private_pages() + p.shared_pages());
}

#[test]
fn fragments_cover_the_range_one_after_another() {
    let pheader = JifPheader::Reference {
        vaddr_range: (VADDR_BEGIN, VADDR_END),
        itree: gen_ref_tree(),
        prot: Prot::Read.bit(),
        ref_path: "abc".into(),
        ref_offset: 0,
    };
    let deduper = Deduper::default();
    let pheaders = pheader.fragment_vmas(&deduper, None).unwrap();
    assert_eq!(pheaders.len(), 16);
    assert_eq!(pheaders[0].virtual_range().0, VADDR_BEGIN);
    assert_eq!(pheaders[15].virtual_range().1, VADDR_END);
    for (p1, p2) in pheaders.iter().zip(pheaders.iter().skip(1)) {
        assert!(p1.virtual_range().0 < p1.virtual_range().1);
        assert_eq!(p1.virtual_range().1, p2.virtual_range().0);
    }
    for (k, p) in pheaders.iter().enumerate() {
        assert_eq!(p.virtual_range(), (VADDRS[k], VADDRS[k + 1]));
    }
}
