//! Unit tests: the layout helper, page builder bytes, the codecs, the
//! parsers, node-level errors, and the persistence round trip.
use btree_db::btree::{Node, NodeResult};
use btree_db::cell::{Cell, InternalCell, LeafCell};
use btree_db::commands::MetaCommand;
use btree_db::cursor::Cursor;
use btree_db::layout::{calculate_offsets, LEAF_HEADER_SIZE, PAGE_SIZE};
use btree_db::page::{bool_to_u8, u8_to_bool, CachedPage, Page, PageBuilder, PageType};
use btree_db::statement::Statement;
use btree_db::table::Table;

#[test]
fn calculate_offset() {
    let start = 0;
    let len = 10;
    let (start, end) = calculate_offsets(start, len);

    assert_eq!(start, 0);
    assert_eq!(start + len, end);
}

#[test]
fn fresh_root_page_bytes() {
    // A fresh root leaf: magic, kind tag and root flag pinned by the
    // on-disk format.
    let page = PageBuilder::default()
        .kind(&PageType::Leaf)
        .is_root(true)
        .build();
    let bytes = &page.0;
    assert_eq!(bytes.len(), PAGE_SIZE);
    assert_eq!(u64::from_be_bytes(bytes[0..8].try_into().unwrap()), 0xFEBA);
    assert_eq!(bytes[8], 0x0A);
    assert_eq!(bytes[9], 0x01);
}

#[test]
fn empty_database_round_trips_builder_bytes() {
    // Opening an empty file then flushing writes exactly the bytes of
    // a default-built root leaf page.
    let table = Table::new(Vec::new()).unwrap();
    let flushed = table.flush_contents();
    let built = PageBuilder::default()
        .kind(&PageType::Leaf)
        .is_root(true)
        .build();
    assert_eq!(flushed.len(), PAGE_SIZE);
    assert_eq!(&flushed[..], &built.0[..]);
}

#[test]
fn bool_byte_conversions() {
    assert_eq!(bool_to_u8(true), 1);
    assert_eq!(bool_to_u8(false), 0);
    assert_eq!(u8_to_bool(1), Ok(true));
    assert_eq!(u8_to_bool(0), Ok(false));
    assert!(u8_to_bool(7).is_err());
}

#[test]
fn page_type_bytes() {
    assert_eq!(PageType::Leaf.as_byte(), 0x0A);
    assert_eq!(PageType::Internal.as_byte(), 0x0B);
    assert_eq!(PageType::from_byte(0x0A), Ok(PageType::Leaf));
    assert_eq!(PageType::from_byte(0x0B), Ok(PageType::Internal));
    assert!(PageType::from_byte(0x0C).is_err());
}

#[test]
fn invalid_page_is_rejected() {
    // A zero-filled page has no magic value, so loading it fails.
    let page = Page(vec![0u8; PAGE_SIZE]);
    match Node::load(CachedPage::new(page)) {
        Err(NodeResult::InvalidPage { .. }) => {}
        _ => panic!("expected an invalid page error"),
    }
}

#[test]
fn invalid_file_is_rejected() {
    // A file that is not a whole number of pages is refused, as is a
    // page-sized block of garbage.
    assert!(Table::new(vec![1u8, 2, 3]).is_err());
    assert!(Table::new(vec![0u8; PAGE_SIZE]).is_err());
}

#[test]
fn duplicate_key_on_node() {
    let page = PageBuilder::default()
        .kind(&PageType::Leaf)
        .is_root(false)
        .build();
    let mut node = Node::load(CachedPage::new(page)).unwrap();
    node.insert_cell(LeafCell::new(7, b"seven".to_vec(), false))
        .unwrap();
    match node.insert_cell(LeafCell::new(7, b"again".to_vec(), false)) {
        Err(NodeResult::DuplicateKey) => {}
        _ => panic!("expected a duplicate key error"),
    }
    assert_eq!(node.num_cells(), 1);
    assert_eq!(node.read_cell_bytes(0), b"seven".to_vec());
}

#[test]
fn leaf_fills_up() {
    // Filling a leaf with fixed-size records eventually trips the
    // fullness rule.
    let page = PageBuilder::default()
        .kind(&PageType::Leaf)
        .is_root(false)
        .build();
    let mut node = Node::load(CachedPage::new(page)).unwrap();
    let mut key = 0u64;
    loop {
        match node.insert_cell(LeafCell::new(key, Vec::new(), false)) {
            Ok(()) => key += 1,
            Err(NodeResult::IsFull) => break,
            Err(e) => panic!("unexpected error: {:?}", e),
        }
        assert!(key < 300, "the leaf never filled up");
    }
    assert!(node.num_cells() > 0);
}

#[test]
fn oversized_value_has_overflow() {
    let mut table = Table::new(Vec::new()).unwrap();
    let mut cursor = Cursor::new(&mut table);
    let err = cursor
        .insert(&mut table, 1, vec![0x61u8; PAGE_SIZE])
        .unwrap_err();
    assert_eq!(err, "node has overflow");
}

#[test]
fn update_missing_key() {
    let page = PageBuilder::default()
        .kind(&PageType::Internal)
        .is_root(false)
        .build();
    let mut node = Node::load(CachedPage::new(page)).unwrap();
    match node.update(5, InternalCell::new(5, 9u64.to_be_bytes())) {
        Err(NodeResult::KeyDoesNotExist) => {}
        _ => panic!("expected a missing key error"),
    }
}

#[test]
fn node_search_and_high_key() {
    let page = PageBuilder::default()
        .kind(&PageType::Leaf)
        .is_root(false)
        .build();
    let mut node = Node::load(CachedPage::new(page)).unwrap();
    for key in [10u64, 20, 30] {
        node.insert_cell(LeafCell::new(key, b"v".to_vec(), false))
            .unwrap();
    }
    assert_eq!(node.find_cell_num(5), 0);
    assert_eq!(node.find_cell_num(10), 0);
    assert_eq!(node.find_cell_num(15), 1);
    assert_eq!(node.find_cell_num(31), 3);
    assert_eq!(node.node_high_key(), 30);
    assert_eq!(node.node_type(), PageType::Leaf);
    assert!(!node.is_root());
    assert_eq!(node.next_sibling(), None);
    assert_eq!(node.overflow_pointer(), None);
    assert_eq!(node.right_child(), None);
}

#[test]
fn cells_expose_their_parts() {
    let leaf = LeafCell::new(3, b"abc".to_vec(), false);
    assert_eq!(leaf.identifier(), 3);
    assert_eq!(leaf.content_size(), 3);
    assert!(!leaf.has_overflow());
    assert_eq!(leaf.get_key(), 3);
    assert_eq!(leaf.get_content(), b"abc".to_vec());
    let internal = InternalCell::new(9, 12u64.to_be_bytes());
    assert_eq!(internal.key(), 9);
    assert_eq!(internal.pointer(), 12);
    assert_eq!(internal.get_key(), 9);
    let body = internal.get_content();
    assert_eq!(body.len(), 16);
    assert_eq!(u64::from_be_bytes(body[8..16].try_into().unwrap()), 12);
}

#[test]
fn statement_parser() {
    match Statement::parse(b"select") {
        Ok(Statement::Select) => {}
        _ => panic!("select must parse"),
    }
    match Statement::parse(b"insert 1 hello world!") {
        Ok(Statement::Insert(id, content)) => {
            assert_eq!(id, 1);
            assert_eq!(content, b"hello world!".to_vec());
        }
        _ => panic!("insert must parse"),
    }
    match Statement::parse(b"insert 42 x") {
        Ok(Statement::Insert(id, content)) => {
            assert_eq!(id, 42);
            assert_eq!(content, b"x".to_vec());
        }
        _ => panic!("insert must parse"),
    }
    assert_eq!(
        Statement::parse(b"bogus").unwrap_err(),
        "unknown command".to_string()
    );
    assert_eq!(
        Statement::parse(b"insert nonsense").unwrap_err(),
        "invalid syntax".to_string()
    );
    assert_eq!(
        Statement::parse(b"insert 1").unwrap_err(),
        "invalid syntax".to_string()
    );
    assert_eq!(
        Statement::parse(b"insert 99999999999999999999 x").unwrap_err(),
        "invalid syntax".to_string()
    );
}

#[test]
fn meta_command_parser() {
    assert_eq!(MetaCommand::parse(b".exit"), Ok(MetaCommand::Exit));
    assert_eq!(MetaCommand::parse(b".layout"), Ok(MetaCommand::Layout));
    assert!(MetaCommand::parse(b".quit").is_err());
    assert!(MetaCommand::parse(b"select").is_err());
}

#[test]
fn select_scans_once_per_cursor() {
    // A scan leaves the cursor at the end; a second scan with the same
    // cursor yields nothing, while a fresh cursor scans again.
    let mut table = Table::new(Vec::new()).unwrap();
    let mut cursor = Cursor::new(&mut table);
    cursor.insert(&mut table, 1, b"one".to_vec()).unwrap();
    let mut cursor = Cursor::new(&mut table);
    assert_eq!(cursor.select(&table), vec![b"one".to_vec()]);
    assert_eq!(cursor.select(&table), Vec::<Vec<u8>>::new());
    let mut fresh = Cursor::new(&mut table);
    assert_eq!(fresh.select(&table), vec![b"one".to_vec()]);
}

#[test]
fn duplicate_leaves_table_unchanged() {
    // A refused duplicate modifies nothing: the flushed images before
    // and after are byte-identical.
    let mut table = Table::new(Vec::new()).unwrap();
    let mut cursor = Cursor::new(&mut table);
    cursor.insert(&mut table, 5, b"five".to_vec()).unwrap();
    let before = table.flush_contents();
    let mut cursor = Cursor::new(&mut table);
    let err = cursor.insert(&mut table, 5, b"other".to_vec()).unwrap_err();
    assert_eq!(err, "duplicate key");
    assert_eq!(table.flush_contents(), before);
}

#[test]
fn split_links_siblings() {
    // Force one leaf split and check the sibling chain on disk: the
    // left half points at the right half and both halves stay sorted.
    let mut table = Table::new(Vec::new()).unwrap();
    for i in 0..139u64 {
        let mut cursor = Cursor::new(&mut table);
        cursor
            .insert(&mut table, i, format!("{i}name").into_bytes())
            .unwrap();
    }
    let bytes = table.flush_contents();
    assert!(bytes.len() >= 3 * PAGE_SIZE, "no split happened");
    // Page 0 must be the one and only root.
    assert_eq!(bytes[9], 0x01);
    for p in 1..bytes.len() / PAGE_SIZE {
        assert_eq!(bytes[p * PAGE_SIZE + 9], 0x00);
    }
    // Every page carries the magic and a known kind.
    for p in 0..bytes.len() / PAGE_SIZE {
        let off = p * PAGE_SIZE;
        let magic = u64::from_be_bytes(bytes[off..off + 8].try_into().unwrap());
        assert_eq!(magic, 0xFEBA);
        assert!(bytes[off + 8] == 0x0A || bytes[off + 8] == 0x0B);
    }
    // Leaf free-space accounting stays consistent.
    for p in 0..bytes.len() / PAGE_SIZE {
        let off = p * PAGE_SIZE;
        if bytes[off + 8] == 0x0A {
            let cells =
                u64::from_be_bytes(bytes[off + 26..off + 34].try_into().unwrap());
            let fss = u64::from_be_bytes(bytes[off + 34..off + 42].try_into().unwrap());
            let fse = u64::from_be_bytes(bytes[off + 42..off + 50].try_into().unwrap());
            assert!(fss <= fse);
            assert_eq!(fss - LEAF_HEADER_SIZE as u64, cells * 17);
            assert!(fse <= PAGE_SIZE as u64);
        }
    }
}
