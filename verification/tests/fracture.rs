use jif::deduper::Deduper;
use jif::error::{ITreeError, JifError};
use jif::itree::interval::{AnonIntervalData, DataSource, Interval, IntervalData, RefIntervalData};
use jif::itree::ITree;
use jif::jif::Jif;
use jif::ord::OrdChunk;
use jif::pheader::{JifPheader, Prot};

const PAGE: u64 = 0x1000;

/// Four pages whose bytes tell the page apart
fn four_pages() -> Vec<u8> {
    let mut data = Vec::new();
    for p in 0..4u8 {
        data.extend(vec![p + 1; PAGE as usize]);
    }
    data
}

fn private_chunk(vaddr: u64, n_pages: u64) -> OrdChunk {
    OrdChunk::new(0, vaddr, n_pages, DataSource::Private)
}

#[test]
fn fracture_cuts_a_data_interval_by_a_chunk() {
    let vr = (0x10000, 0x10000 + 4 * PAGE);
    let mut itree = ITree::build(vec![Interval::new(vr.0, vr.1, AnonIntervalData::Owned(four_pages()))], vr).unwrap();
    let deduper = Deduper::default();
    itree.fracture(&[private_chunk(vr.0 + PAGE, 1)], &deduper).unwrap();
    assert_eq!(itree.in_order_bounds(), vec![(vr.0, vr.0 + PAGE), (vr.0 + PAGE, vr.0 + 2 * PAGE), (vr.0 + 2 * PAGE, vr.1)]);
    // each piece owns its own bytes
    assert_eq!(itree.resolve_data(vr.0, &deduper).unwrap().to_vec(), vec![1u8; PAGE as usize]);
    assert_eq!(itree.resolve_data(vr.0 + PAGE, &deduper).unwrap().to_vec(), vec![2u8; PAGE as usize]);
    assert_eq!(itree.resolve_data(vr.0 + 3 * PAGE, &deduper).unwrap().to_vec(), vec![4u8; PAGE as usize]);
}

#[test]
fn fracture_cuts_by_several_chunks() {
    let vr = (0x10000, 0x10000 + 4 * PAGE);
    let mut itree = ITree::build(vec![Interval::new(vr.0, vr.1, AnonIntervalData::Owned(four_pages()))], vr).unwrap();
    let deduper = Deduper::default();
    // given out of order: the chunks are sorted by address first
    let chunks = [private_chunk(vr.0 + 2 * PAGE, 2), private_chunk(vr.0, 1)];
    itree.fracture(&chunks, &deduper).unwrap();
    assert_eq!(itree.in_order_bounds(), vec![(vr.0, vr.0 + PAGE), (vr.0 + PAGE, vr.0 + 2 * PAGE), (vr.0 + 2 * PAGE, vr.1)]);
    assert_eq!(itree.n_intervals(), 3);
}

#[test]
fn fracture_ignores_other_chunks() {
    let vr = (0x10000, 0x10000 + 4 * PAGE);
    let mut itree = ITree::build(vec![Interval::new(vr.0, vr.1, AnonIntervalData::Owned(four_pages()))], vr).unwrap();
    let deduper = Deduper::default();
    // a chunk of shared data, a chunk out of the range, and a chunk spanning the interval exactly
    let chunks = [
        OrdChunk::new(0, vr.0 + PAGE, 1, DataSource::Shared),
        private_chunk(vr.1, 1),
        private_chunk(vr.0, 4),
    ];
    itree.fracture(&chunks, &deduper).unwrap();
    assert_eq!(itree.in_order_bounds(), vec![vr]);
}

#[test]
fn fracture_copies_referenced_data() {
    let vr = (0x20000, 0x20000 + 2 * PAGE);
    let mut deduper = Deduper::default();
    let mut data = vec![5u8; PAGE as usize];
    data.extend(vec![6u8; PAGE as usize]);
    let token = deduper.insert(data);
    let mut itree = ITree::build(
        vec![
            Interval::new(vr.0, vr.1, RefIntervalData::Ref(token)),
        ],
        vr,
    )
    .unwrap();
    itree.fracture(&[private_chunk(vr.0 + PAGE, 1)], &deduper).unwrap();
    let second = itree.resolve(vr.0 + PAGE).unwrap();
    assert!(second.data.is_owned());
    assert_eq!(second.data.get_data(&deduper).unwrap().to_vec(), vec![6u8; PAGE as usize]);
}

#[test]
fn fracture_of_an_empty_tree_does_nothing() {
    let vr = (0x10000, 0x20000);
    let mut itree: ITree<AnonIntervalData> = ITree::build(Vec::new(), vr).unwrap();
    let deduper = Deduper::default();
    itree.fracture(&[private_chunk(vr.0, 1)], &deduper).unwrap();
    assert_eq!(itree.n_nodes(), 0);
}

#[test]
fn fracture_reports_a_bad_tree() {
    // a reference tree whose zero interval leaves the range: the rebuilt tree fails its checks
    let vr = (0x10000, 0x10000 + 2 * PAGE);
    let nodes_tree = ITree::build(
        vec![
            Interval::new(vr.0, vr.1, RefIntervalData::Owned(vec![1u8; 2 * PAGE as usize])),
        ],
        vr,
    )
    .unwrap();
    let mut itree = ITree { nodes: nodes_tree.nodes, virtual_range: (vr.0, vr.0 + PAGE) };
    let deduper = Deduper::default();
    match itree.fracture(&[private_chunk(vr.0, 1)], &deduper) {
        Err(JifError::InvalidITree { virtual_range, error }) => {
            assert_eq!(virtual_range, (vr.0, vr.0 + PAGE));
            assert!(matches!(error, ITreeError::IntervalOutOfRange { .. }));
        },
        _ => panic!("expected an invalid tree"),
    }
    // the tree is left as it was
    assert_eq!(itree.in_order_bounds(), vec![vr]);
}

#[test]
fn jif_fracture_moves_pieces_into_the_deduper() {
    let vr = (0x10000, 0x10000 + 4 * PAGE);
    let itree = ITree::build(vec![Interval::new(vr.0, vr.1, AnonIntervalData::Owned(four_pages()))], vr).unwrap();
    let pheader = JifPheader::Anonymous { vaddr_range: vr, itree, prot: Prot::Read.bit() };
    let mut jif = Jif {
        pheaders: vec![pheader],
        ord_chunks: vec![private_chunk(vr.0 + PAGE, 2)],
        deduper: Deduper::default(),
    };
    jif.fracture_by_ord_chunk().unwrap();
    let itree = match &jif.pheaders[0] {
        JifPheader::Anonymous { itree, .. } => itree,
        JifPheader::Reference { .. } => panic!("the pheader changed kind"),
    };
    assert_eq!(itree.in_order_bounds(), vec![(vr.0, vr.0 + PAGE), (vr.0 + PAGE, vr.0 + 3 * PAGE), (vr.0 + 3 * PAGE, vr.1)]);
    // every piece now references the deduper
    for addr in [vr.0, vr.0 + PAGE, vr.0 + 3 * PAGE] {
        assert!(itree.resolve(addr).unwrap().data.is_ref());
    }
    let middle = jif.resolve_data(vr.0 + 2 * PAGE).unwrap().to_vec();
    assert_eq!(middle, vec![3u8; PAGE as usize]);
}
