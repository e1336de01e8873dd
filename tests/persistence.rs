use sparse_search::inverted_index::{InvertedIndexBuilder, InvertedIndexRam};
use sparse_search::inverted_index_mmap::{InvertedIndex, InvertedIndexMmap};
use sparse_search::persistence::{
    calculate_file_length, posting_from_bytes, serialize_index, InvertedIndexFileHeader,
};
use sparse_search::posting::PostingList;
use sparse_search::scored_candidate::ScoredCandidate;
use sparse_search::vector::SparseVector;

fn scenario_index() -> InvertedIndexRam {
    InvertedIndexBuilder::new()
        .add(
            1,
            PostingList::from(vec![(1, 10), (2, 20), (3, 30), (4, 1), (5, 2), (6, 3), (7, 4), (8, 5), (9, 6)]),
        )
        .add(2, PostingList::from(vec![(1, 10), (2, 20), (3, 30)]))
        .add(3, PostingList::from(vec![(1, 10), (2, 20), (3, 30)]))
        .build()
}

fn mapped(bytes: &[u8]) -> memmap2::Mmap {
    let mut m = memmap2::MmapMut::map_anon(bytes.len().max(1)).unwrap();
    m[..bytes.len()].copy_from_slice(bytes);
    m.make_read_only().unwrap()
}

#[test]
fn file_length_counts_headers_and_elements() {
    let index = scenario_index();
    assert_eq!(calculate_file_length(&index), Some((4 * 16, 15 * 12)));
}

#[test]
fn serialized_layout_is_little_endian() {
    let index = InvertedIndexBuilder::new().add(0, PostingList::from(vec![(258, -2)])).build();
    let bytes = serialize_index(&index).unwrap();
    let expected: Vec<u8> = vec![
        16, 0, 0, 0, 0, 0, 0, 0, // start of list 0
        28, 0, 0, 0, 0, 0, 0, 0, // end of list 0
        2, 1, 0, 0, // id 258
        0xfe, 0xff, 0xff, 0xff, // weight -2
        0, 0, 0, 0x80, // no next weight
    ];
    assert_eq!(bytes, expected);
}

#[test]
fn serialized_index_reads_back() {
    let index = scenario_index();
    let bytes = serialize_index(&index).unwrap();
    for d in 0..index.postings.len() {
        let back = posting_from_bytes(&bytes, index.postings.len(), d as u32).unwrap();
        assert_eq!(back, index.postings[d].elements);
    }
    assert!(posting_from_bytes(&bytes, index.postings.len(), index.postings.len() as u32).is_none());
}

#[test]
fn test_inverted_index_mmap() {
    let index = scenario_index();
    let bytes = serialize_index(&index).unwrap();
    let mmap_index = InvertedIndexMmap {
        mmap: mapped(&bytes),
        file_header: InvertedIndexFileHeader { posting_count: index.postings.len() },
    };
    for d in 0..index.postings.len() as u32 {
        let ram = index.get(&d).unwrap();
        let from_file = mmap_index.get(&d).unwrap();
        assert_eq!(ram.elements.len(), from_file.elements.len());
        for i in 0..ram.elements.len() {
            assert_eq!(ram.elements[i], from_file.elements[i]);
        }
    }
    assert!(mmap_index.get(&4).is_none());
}

#[test]
fn malformed_header_is_refused() {
    let mut bytes = serialize_index(&scenario_index()).unwrap();
    // Make the end offset of list 1 point past the file.
    bytes[24] = 0xff;
    bytes[25] = 0xff;
    assert!(posting_from_bytes(&bytes, 4, 1).is_none());
    assert!(posting_from_bytes(&bytes, 4, 2).is_some());
    assert!(posting_from_bytes(&bytes[..10], 4, 0).is_none());
}

#[test]
fn empty_index_has_one_empty_list() {
    let index = InvertedIndexBuilder::new().build();
    assert_eq!(index.postings.len(), 1);
    let bytes = serialize_index(&index).unwrap();
    assert_eq!(bytes.len(), 16);
    assert_eq!(posting_from_bytes(&bytes, 1, 0), Some(vec![]));
}

#[test]
fn builder_pads_absent_dimensions() {
    let index = InvertedIndexBuilder::new()
        .add(4, PostingList::from(vec![(1, 1)]))
        .add(1, PostingList::from(vec![(2, 2)]))
        .build();
    let lens: Vec<usize> = index.postings.iter().map(|p| p.elements.len()).collect();
    assert_eq!(lens, vec![0, 1, 0, 0, 1]);
    assert!(index.get(&5).is_none());
}

#[test]
fn builder_add_replaces() {
    let index = InvertedIndexBuilder::new()
        .add(0, PostingList::from(vec![(1, 1)]))
        .add(0, PostingList::from(vec![(2, 2), (3, 3)]))
        .build();
    assert_eq!(index.postings[0].elements.len(), 2);
}

#[test]
fn both_index_forms_answer_alike() {
    let bytes = serialize_index(&scenario_index()).unwrap();
    let ram = InvertedIndex::Ram(scenario_index());
    let mmap = InvertedIndex::Mmap(InvertedIndexMmap {
        mmap: mapped(&bytes),
        file_header: InvertedIndexFileHeader { posting_count: 4 },
    });
    for d in 0..6u32 {
        let a = ram.get(&d).map(|p| p.elements);
        let b = mmap.get(&d).map(|p| p.elements);
        assert_eq!(a, b);
    }
    assert_eq!(ram.get(&2).unwrap().elements.len(), 3);
}

#[test]
fn mapped_index_searches_like_the_ram_index() {
    let index = scenario_index();
    let bytes = serialize_index(&index).unwrap();
    let mmap = InvertedIndex::Mmap(InvertedIndexMmap {
        mmap: mapped(&bytes),
        file_header: InvertedIndexFileHeader { posting_count: index.postings.len() },
    });
    let ram = InvertedIndex::Ram(index);
    let q = || SparseVector::new(vec![1, 2, 3], vec![1, 1, 1]);
    let expected = vec![
        ScoredCandidate { score: 90, vector_id: 3 },
        ScoredCandidate { score: 60, vector_id: 2 },
        ScoredCandidate { score: 30, vector_id: 1 },
        ScoredCandidate { score: 6, vector_id: 9 },
    ];
    assert_eq!(ram.search(q(), 4), Some(expected.clone()));
    assert_eq!(mmap.search(q(), 4), Some(expected));
    // dimensions past the table read as empty lists
    let far = SparseVector::new(vec![2, 40], vec![2, 5]);
    assert_eq!(mmap.search(far, 1), Some(vec![ScoredCandidate { score: 60, vector_id: 3 }]));
}

#[test]
fn mapped_index_refuses_an_invalid_list() {
    let mut bytes = serialize_index(&scenario_index()).unwrap();
    // List 2 starts after the header table (4 * 16 bytes) and list 1 (9 * 12 bytes);
    // give its second element the id of its first.
    let second = 64 + 9 * 12 + 12;
    bytes[second] = 1;
    let mmap = InvertedIndex::Mmap(InvertedIndexMmap {
        mmap: mapped(&bytes),
        file_header: InvertedIndexFileHeader { posting_count: 4 },
    });
    assert!(mmap.search(SparseVector::new(vec![2], vec![1]), 3).is_none());
    assert!(mmap.search(SparseVector::new(vec![3], vec![1]), 3).is_some());
}
