use jif::deduper::Deduper;
use jif::itree::interval::{DataSource, IntermediateInterval, IntermediateIntervalData, RawInterval};
use jif::itree::itree_node::IntermediateITreeNode;
use jif::layout::order_data_segments;
use jif::ord::OrdChunk;

fn inter_node(ival: IntermediateInterval) -> IntermediateITreeNode {
    let mut node = IntermediateITreeNode::default();
    node.ranges[0] = ival;
    node
}

fn chunk(vaddr: u64, n_pages: u64) -> OrdChunk {
    OrdChunk { timestamp_us: 0, vaddr, n_pages, kind: DataSource::Zero, is_written_to: false }
}

#[test]
fn test_order_segments_empty() {
    let (token_map, itree_nodes, _n_prefetch) = order_data_segments(vec![], &[], 0);
    assert!(token_map.is_empty());
    assert!(itree_nodes.is_empty());
}

#[test]
fn test_order_segments() {
    // 1: dedup some segments and create some intermediate itree nodes
    let mut deduper = Deduper::default();
    let mut intermediate_nodes = Vec::new();
    intermediate_nodes.push(inter_node(IntermediateInterval { start: 0x1000, end: 0x2000, data: IntermediateIntervalData::Zero }));

    let token1 = deduper.insert(vec![42; 0x2000]);
    intermediate_nodes.push(inter_node(IntermediateInterval { start: 0x3000, end: 0x5000, data: IntermediateIntervalData::Ref(token1) }));

    let token2 = deduper.insert(vec![42; 0x2000]);
    assert_eq!(token1, token2);
    intermediate_nodes.push(inter_node(IntermediateInterval { start: 0x6000, end: 0x8000, data: IntermediateIntervalData::Ref(token2) }));

    intermediate_nodes.push(inter_node(IntermediateInterval { start: 0x8000, end: 0x9000, data: IntermediateIntervalData::Zero }));

    let token3 = deduper.insert(vec![84; 0x1000]);
    intermediate_nodes.push(inter_node(IntermediateInterval { start: 0x10000, end: 0x11000, data: IntermediateIntervalData::Ref(token3) }));

    // 2: create some ordering segments
    let ord_chunks = [chunk(0x10000, 1), chunk(0x7000, 1), chunk(0x8000, 1), chunk(0x6000, 1), chunk(0x3000, 2), chunk(0x1000, 1)];

    // 3: order the data segments
    let (token_map, itree_nodes, _n_prefetch) = order_data_segments(intermediate_nodes, &ord_chunks, 0);

    // 4: check order
    let get = |t| token_map.iter().find(|(tok, _)| *tok == t).map(|(_, range)| *range);
    assert_eq!(get(token1), Some((0x1000, 0x3000)));
    assert_eq!(get(token3), Some((0x0000, 0x1000)));

    // 5: check intervals
    let intervals = {
        let mut ivals = itree_nodes
            .into_iter()
            .flat_map(|node| node.ranges.into_iter())
            .filter(|ival| ival.start != u64::MAX && ival.end != u64::MAX)
            .collect::<Vec<_>>();
        ivals.sort_by_key(|ival| ival.start);
        ivals
    };
    assert_eq!(
        intervals,
        vec![
            RawInterval { start: 0x1000, end: 0x2000, offset: u64::MAX },
            RawInterval { start: 0x3000, end: 0x5000, offset: 0x1000 },
            RawInterval { start: 0x6000, end: 0x8000, offset: 0x1000 },
            RawInterval { start: 0x8000, end: 0x9000, offset: u64::MAX },
            RawInterval { start: 0x10000, end: 0x11000, offset: 0x0000 },
        ]
    );
}

#[test]
fn order_segments_counts_prefetched_pages() {
    let mut deduper = Deduper::default();
    let token = deduper.insert(vec![7; 0x3000]);
    let nodes = vec![
        inter_node(IntermediateInterval { start: 0x1000, end: 0x4000, data: IntermediateIntervalData::Ref(token) }),
        inter_node(IntermediateInterval { start: 0x8000, end: 0xa000, data: IntermediateIntervalData::Zero }),
    ];
    // the chunk names the data interval: its three pages are prefetched
    let (map, _nodes, n_prefetch) = order_data_segments(nodes, &[chunk(0x2000, 1)], 0x5000);
    assert_eq!(map, vec![(token, (0x5000, 0x8000))]);
    assert_eq!(n_prefetch, 3);
}
