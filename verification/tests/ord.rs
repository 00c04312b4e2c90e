use jif::utils::ByteReader;
use jif::itree::interval::DataSource;
use jif::ord::OrdChunk;

#[test]
fn empty_ord() {
    let ord = OrdChunk::new(0, 0x1234, 0, DataSource::Zero);
    assert_eq!(ord, OrdChunk { timestamp_us: 0, vaddr: 0x1000, n_pages: 0, kind: DataSource::Zero, is_written_to: false });
    assert!(ord.is_empty());
}

#[test]
fn single_page_ord() {
    let ord = OrdChunk::new(0, 0x1234, 1, DataSource::Zero);
    assert_eq!(ord, OrdChunk { timestamp_us: 0, vaddr: 0x1000, n_pages: 1, kind: DataSource::Zero, is_written_to: false });
    assert!(!ord.is_empty());
    assert_eq!(ord.last_page_addr(), 0x1000);
}

#[test]
fn multi_page_ord() {
    let ord = OrdChunk::new(0, 0x1234, 10, DataSource::Zero);
    assert_eq!(ord, OrdChunk { timestamp_us: 0, vaddr: 0x1000, n_pages: 10, kind: DataSource::Zero, is_written_to: false });
    assert!(!ord.is_empty());
    assert_eq!(ord.last_page_addr(), 0xa000);
}

#[test]
fn ord_new_keeps_the_write_flag_apart() {
    let ord = OrdChunk::new(5, 0x1000_0000_0000_3456, 2, DataSource::Private);
    assert_eq!(ord.addr(), 0x3000);
    assert!(ord.is_written_to);
    assert_eq!(ord.end(), 0x5000);
    assert_eq!(ord.pages(), vec![0x3000, 0x4000]);
}

use jif::deduper::Deduper;
use jif::itree::interval::{AnonIntervalData, Interval};
use jif::itree::ITree;
use jif::pheader::{JifPheader, Prot};
use jif::jif::Jif;

fn gen_pheader(vaddr_range: (u64, u64), ivals: &[(u64, u64)]) -> JifPheader {
    JifPheader::Anonymous {
        vaddr_range,
        itree: ITree::build(
            ivals
                .iter()
                .map(|(start, end)| Interval::new(*start, *end, AnonIntervalData::Owned(vec![42; (end - start) as usize])))
                .collect(),
            vaddr_range,
        )
        .unwrap(),
        prot: Prot::Read.bit(),
    }
}

fn gen_jif(vaddrs: &[((u64, u64), &[(u64, u64)])]) -> Jif {
    Jif { pheaders: vaddrs.iter().map(|(range, ivals)| gen_pheader(*range, ivals)).collect(), ord_chunks: vec![], deduper: Deduper::default() }
}

#[test]
fn merge_diff_sources() {
    let jif = gen_jif(&[((0x10000, 0x20000), &[(0x10000, 0x18000)]), ((0x20000, 0x30000), &[(0x28000, 0x30000)])]);

    {
        let mut ord = OrdChunk::new(0, 0x11000, 0x6, DataSource::Zero);

        assert!(ord.merge_page(&jif, 0, 0x10000));
        assert_eq!(ord, OrdChunk::new(0, 0x10000, 0x7, DataSource::Zero));

        assert!(ord.merge_page(&jif, 0, 0x17000));
        assert_eq!(ord, OrdChunk::new(0, 0x10000, 0x8, DataSource::Zero));

        assert!(!ord.merge_page(&jif, 0, 0x1f000));
        assert_eq!(ord, OrdChunk::new(0, 0x10000, 0x8, DataSource::Zero));
    }

    {
        let mut ord = OrdChunk::new(0, 0x19000, 0x6, DataSource::Zero);

        assert!(ord.merge_page(&jif, 0, 0x18000));
        assert_eq!(ord, OrdChunk::new(0, 0x18000, 0x7, DataSource::Zero));

        assert!(!ord.merge_page(&jif, 0, 0x17000));

        assert!(ord.merge_page(&jif, 0, 0x1f000));
        assert_eq!(ord, OrdChunk::new(0, 0x18000, 0x8, DataSource::Zero));

        assert!(!ord.merge_page(&jif, 0, 0x20000));
    }
}

#[test]
fn merge_same_sources() {
    let jif = gen_jif(&[((0x10000, 0x20000), &[]), ((0x20000, 0x30000), &[])]);

    {
        let mut ord = OrdChunk::new(0, 0x11000, 0xe, DataSource::Zero);

        assert!(ord.merge_page(&jif, 0, 0x10000));
        assert_eq!(ord, OrdChunk::new(0, 0x10000, 0xf, DataSource::Zero));

        assert!(ord.merge_page(&jif, 0, 0x17000));
        assert_eq!(ord, OrdChunk::new(0, 0x10000, 0xf, DataSource::Zero));

        assert!(ord.merge_page(&jif, 0, 0x1f000));
        assert_eq!(ord, OrdChunk::new(0, 0x10000, 0x10, DataSource::Zero));

        assert!(!ord.merge_page(&jif, 0, 0x20000));
        assert_eq!(ord, OrdChunk::new(0, 0x10000, 0x10, DataSource::Zero));
    }
}

#[test]
fn merge_with_timestamp() {
    let jif = gen_jif(&[((0x10000, 0x20000), &[]), ((0x20000, 0x30000), &[])]);

    {
        let mut ord = OrdChunk::new(100, 0x11000, 0xe, DataSource::Zero);

        assert!(ord.merge_page(&jif, 150, 0x10000));
        assert_eq!(ord, OrdChunk::new(100, 0x10000, 0xf, DataSource::Zero));

        assert!(ord.merge_page(&jif, 50, 0x17000));
        assert_eq!(ord, OrdChunk::new(50, 0x10000, 0xf, DataSource::Zero));

        assert!(ord.merge_page(&jif, 100, 0x1f000));
        assert_eq!(ord, OrdChunk::new(50, 0x10000, 0x10, DataSource::Zero));

        assert!(!ord.merge_page(&jif, 0, 0x20000));
        assert_eq!(ord, OrdChunk::new(50, 0x10000, 0x10, DataSource::Zero));
    }
}

#[test]
fn split_chunk_by_intervals() {
    let jif = gen_jif(&[((0x10000, 0x20000), &[(0x12000, 0x14000)])]);
    let ord = OrdChunk::new(7, 0x10000, 6, DataSource::Zero);
    let parts = ord.split_by_intervals(&jif);
    // the last page of the chunk is not covered
    assert_eq!(
        parts,
        vec![
            OrdChunk { timestamp_us: 7, vaddr: 0x10000, n_pages: 2, kind: DataSource::Zero, is_written_to: false },
            OrdChunk { timestamp_us: 7, vaddr: 0x12000, n_pages: 2, kind: DataSource::Private, is_written_to: false },
            OrdChunk { timestamp_us: 7, vaddr: 0x14000, n_pages: 1, kind: DataSource::Zero, is_written_to: false },
        ]
    );
}

#[test]
fn written_chunk_reads_back() {
    let c = OrdChunk::new(5, 0x1000_0000_0000_1000, 1, DataSource::Zero);
    assert!(c.is_written_to);
    assert_eq!(c.vaddr, 0x1000);
    let mut buf = Vec::new();
    c.to_writer(&mut buf);
    let r = OrdChunk::from_reader(&mut ByteReader::new(&buf)).unwrap();
    assert_eq!(r, c);
}
