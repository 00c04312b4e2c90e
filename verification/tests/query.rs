use jif::selectors::SelectorError;
use jif::text::IntErrorKind;
use jif::deduper::Deduper;
use jif::itree::interval::{AnonIntervalData, DataSource, Interval, RefIntervalData};
use jif::itree::ITree;
use jif::jif::Jif;
use jif::ord::OrdChunk;
use jif::pheader::{JifPheader, Prot};
use jif::query::{ord_interval_counts, ord_pages, ord_vma_count};
use jif::selectors::IndexRange;

const PAGE: u64 = 0x1000;

fn chunk(vaddr: u64, n_pages: u64, kind: DataSource) -> OrdChunk {
    OrdChunk { timestamp_us: 0, vaddr, n_pages, kind, is_written_to: false }
}

/// An anonymous pheader with data on its first page, and a reference pheader with a zero
/// page first
fn two_pheaders() -> Jif {
    let a = (0x10000, 0x10000 + 4 * PAGE);
    let anon = JifPheader::Anonymous {
        vaddr_range: a,
        itree: ITree::build(vec![Interval::new(a.0, a.0 + PAGE, AnonIntervalData::Owned(vec![1u8; PAGE as usize]))], a).unwrap(),
        prot: Prot::Read.bit(),
    };
    let r = (0x20000, 0x20000 + 4 * PAGE);
    let reference = JifPheader::Reference {
        vaddr_range: r,
        itree: ITree::build(vec![Interval::new(r.0, r.0 + PAGE, RefIntervalData::Zero)], r).unwrap(),
        prot: Prot::Read.bit(),
        ref_path: "f".to_string(),
        ref_offset: 0,
    };
    Jif { pheaders: vec![anon, reference], ord_chunks: Vec::new(), deduper: Deduper::default() }
}

#[test]
fn range_bounds() {
    assert_eq!(IndexRange::NoRange.bounds(5), Some((0, 5)));
    assert_eq!(IndexRange::LeftOpen { end: 3 }.bounds(5), Some((0, 3)));
    assert_eq!(IndexRange::LeftOpen { end: 9 }.bounds(5), Some((0, 5)));
    assert_eq!(IndexRange::RightOpen { start: 2 }.bounds(5), Some((2, 5)));
    assert_eq!(IndexRange::RightOpen { start: 7 }.bounds(5), Some((0, 0)));
    assert_eq!(IndexRange::Closed { start: 1, end: 3 }.bounds(5), Some((1, 3)));
    assert_eq!(IndexRange::Closed { start: 1, end: 30 }.bounds(5), Some((1, 5)));
    assert_eq!(IndexRange::Closed { start: 4, end: 2 }.bounds(5), None);
    assert_eq!(IndexRange::Index(4).bounds(5), Some((4, 5)));
    assert_eq!(IndexRange::Index(5).bounds(5), Some((0, 0)));
}

#[test]
fn pages_by_kind() {
    let cs = [chunk(0x1000, 2, DataSource::Private), chunk(0x9000, 3, DataSource::Zero), chunk(0x5000, 4, DataSource::Private)];
    assert_eq!(ord_pages(&cs, Some(DataSource::Private)), Some(6));
    assert_eq!(ord_pages(&cs, Some(DataSource::Zero)), Some(3));
    assert_eq!(ord_pages(&cs, Some(DataSource::Shared)), Some(0));
    assert_eq!(ord_pages(&cs, None), Some(9));
    let huge = [chunk(0x1000, u64::MAX, DataSource::Private), chunk(0x1000, 1, DataSource::Private)];
    assert_eq!(ord_pages(&huge, None), None);
}

#[test]
fn interval_counts_of_the_ordering_section() {
    let mut jif = two_pheaders();
    jif.ord_chunks = vec![
        // twice the data page: one interval
        chunk(0x10000, 1, DataSource::Private),
        chunk(0x10000, 1, DataSource::Private),
        // the implicit zero part of the anonymous pheader
        chunk(0x12000, 1, DataSource::Zero),
        // the zero page of the reference pheader, then its file-backed part
        chunk(0x20000, 1, DataSource::Zero),
        chunk(0x22000, 1, DataSource::Shared),
        // nothing maps this one
        chunk(0x90000, 1, DataSource::Private),
    ];
    let (counts, lost) = ord_interval_counts(&jif);
    assert_eq!(counts.private, 1);
    assert_eq!(counts.zero, 2);
    assert_eq!(counts.shared, 1);
    assert_eq!(counts.total, 4);
    assert_eq!(lost.len(), 1);
    assert_eq!(lost[0].vaddr, 0x90000);
    assert_eq!(ord_vma_count(&jif), 2);
}

#[test]
fn selector_error_messages() {
    assert_eq!(SelectorError::UnknownCommand.message(), "unknown command");
    assert_eq!(SelectorError::TrailingData.message(), "trailing data after range");
    assert_eq!(SelectorError::BadIndex(IntErrorKind::Empty).message(), "failed to parse index");
}
