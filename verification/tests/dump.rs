use jif::error::JifError;
use jif::jif::JifRaw;
use jif::pheader::JifRawPheader;
use jif::deduper::Deduper;
use jif::itree::interval::{AnonIntervalData, DataSource, Interval, RefIntervalData};
use jif::itree::ITree;
use jif::jif::Jif;
use jif::ord::OrdChunk;
use jif::pheader::{JifPheader, Prot};
use jif::utils::ByteReader;

const PAGE: u64 = 0x1000;

fn sample_jif() -> Jif {
    let anon_vr = (0x10000, 0x10000 + 2 * PAGE);
    let anon = JifPheader::Anonymous {
        vaddr_range: anon_vr,
        itree: ITree::build(vec![Interval::new(anon_vr.0, anon_vr.0 + PAGE, AnonIntervalData::Owned(vec![7u8; PAGE as usize]))], anon_vr).unwrap(),
        prot: Prot::Read.bit() | Prot::Write.bit(),
    };
    let ref_vr = (0x40000, 0x40000 + 3 * PAGE);
    let reference = JifPheader::Reference {
        vaddr_range: ref_vr,
        itree: ITree::build(
            vec![
                Interval::new(ref_vr.0, ref_vr.0 + PAGE, RefIntervalData::Zero),
                Interval::new(ref_vr.0 + 2 * PAGE, ref_vr.1, RefIntervalData::Owned(vec![9u8; PAGE as usize])),
            ],
            ref_vr,
        )
        .unwrap(),
        prot: Prot::Read.bit() | Prot::Exec.bit(),
        ref_path: "/usr/lib/libc.so".to_string(),
        ref_offset: 0x3000,
    };
    Jif {
        pheaders: vec![reference, anon],
        ord_chunks: vec![OrdChunk::new(5, ref_vr.0 + 2 * PAGE, 1, DataSource::Private)],
        deduper: Deduper::default(),
    }
}

#[test]
fn write_then_read_back() {
    let mut bytes = Vec::new();
    let n = sample_jif().to_writer(&mut bytes);
    assert_eq!(n, bytes.len());
    // the data section starts on a page, after the tables
    assert_eq!(bytes.len() % PAGE as usize, 0);

    let mut reader = ByteReader::new(&bytes);
    let jif = Jif::from_reader(&mut reader).unwrap();
    // the pheaders come back sorted by start
    let ranges: Vec<(u64, u64)> = jif.pheaders.iter().map(|p| p.virtual_range()).collect();
    assert_eq!(ranges, vec![(0x10000, 0x12000), (0x40000, 0x43000)]);
    assert_eq!(jif.pheaders[1].pathname(), Some("/usr/lib/libc.so"));
    assert_eq!(jif.pheaders[1].ref_offset(), Some(0x3000));
    assert_eq!(jif.pheaders[0].prot(), Prot::Read.bit() | Prot::Write.bit());
    // the data reads back
    assert_eq!(jif.resolve_data(0x10000).unwrap().to_vec(), vec![7u8; PAGE as usize]);
    assert_eq!(jif.resolve_data(0x42000).unwrap().to_vec(), vec![9u8; PAGE as usize]);
    assert!(jif.resolve_data(0x40000).is_none());
    // and so does the ordering section
    assert_eq!(jif.ord_chunks.len(), 1);
    assert_eq!(jif.ord_chunks[0].vaddr, 0x42000);
    assert_eq!(jif.ord_chunks[0].kind, DataSource::Private);
}

#[test]
fn write_an_empty_jif() {
    let jif = Jif { pheaders: Vec::new(), ord_chunks: Vec::new(), deduper: Deduper::default() };
    let mut bytes = Vec::new();
    let n = jif.to_writer(&mut bytes);
    // the header page and nothing else
    assert_eq!(n, PAGE as usize);
    let back = Jif::from_reader(&mut ByteReader::new(&bytes)).unwrap();
    assert!(back.pheaders.is_empty());
}

#[test]
fn materializing_needs_the_tree_nodes() {
    let pheader = |itree_n_nodes: u32| JifRawPheader {
        vbegin: 0x10000,
        vend: 0x12000,
        ref_offset: 0,
        itree_idx: 0,
        itree_n_nodes,
        pathname_offset: u32::MAX,
        prot: Prot::Read.bit(),
    };
    let raw = |itree_n_nodes: u32| JifRaw {
        pheaders: vec![pheader(itree_n_nodes)],
        strings_backing: Vec::new(),
        itree_nodes: Vec::new(),
        ord_chunks: Vec::new(),
        data_offset: 0x1000,
        data_segments: Vec::new(),
        n_prefetch: 0,
    };
    // a pheader without a tree materializes as an empty anonymous area
    let jif = Jif::from_raw(raw(0)).unwrap();
    assert_eq!(jif.pheaders.len(), 1);
    assert_eq!(jif.pheaders[0].virtual_range(), (0x10000, 0x12000));
    // one whose tree lies past the node table does not
    assert!(matches!(Jif::from_raw(raw(1)), Err(JifError::ITreeNotFound { index: 0, len: 1, n_nodes: 0 })));
}

#[test]
fn raw_jif_reads_back() {
    let mut strings = b"/lib/a.so\0".to_vec();
    strings.resize(0x1000, 0);
    let raw = JifRaw {
        pheaders: Vec::new(),
        strings_backing: strings.clone(),
        itree_nodes: Vec::new(),
        ord_chunks: vec![OrdChunk::new(7, 0x1000_0000_0000_5000, 2, DataSource::Private)],
        data_offset: 0x3000,
        data_segments: Vec::new(),
        n_prefetch: 3,
    };
    let mut buf = Vec::new();
    raw.to_writer(&mut buf);
    let back = JifRaw::from_reader(&mut ByteReader::new(&buf)).unwrap();
    assert_eq!(back.strings_backing, strings);
    assert_eq!(back.ord_chunks, raw.ord_chunks);
    assert!(back.ord_chunks[0].is_written_to);
    assert_eq!(back.data_offset, 0x3000);
    assert_eq!(back.n_prefetch, 3);
    assert!(back.pheaders.is_empty() && back.itree_nodes.is_empty() && back.data_segments.is_empty());
}
