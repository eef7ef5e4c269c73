use phoenixdb::audit::{verify, Audit, EXIT_CORRUPTION, EXIT_OK};
use phoenixdb::btree::{BTree, FillFactor};
use phoenixdb::page::{Page, PageType, PAGE_SIZE};
use phoenixdb::pager::Pager;

fn filled(keys: u32) -> Pager {
    let mut pager = Pager::open(&[], &[], 64).unwrap();
    let tree = BTree::new(FillFactor::default());
    for i in 0..keys {
        tree.insert(&mut pager, format!("key{i:05}").as_bytes(), b"value")
            .unwrap();
    }
    pager
}

#[test]
fn a_healthy_database_is_reported() {
    let mut pager = filled(500);
    let found = verify(&mut pager);
    assert_eq!(found.exit_code(), EXIT_OK);
    match found {
        Audit::Healthy(r) => {
            assert_eq!(r.keys, 500);
            assert_eq!(r.unreachable_pages, 0);
        }
        other => panic!("{other:?}"),
    }
}

#[test]
fn pages_of_no_known_kind_are_listed() {
    let mut pager = filled(500);
    let mut bytes = [0u8; PAGE_SIZE];
    for id in [1u32, 3] {
        bytes.copy_from_slice(pager.read_page(id).unwrap().as_bytes());
        bytes[20] = 9;
        pager.write_page(Page::from_raw(&bytes));
    }
    let found = verify(&mut pager);
    assert_eq!(found.exit_code(), EXIT_CORRUPTION);
    match found {
        Audit::Damaged(list) => {
            let ids: Vec<u32> = list.iter().map(|p| p.0).collect();
            assert_eq!(ids, [1, 3]);
        }
        other => panic!("{other:?}"),
    }
}

#[test]
fn page_zero_has_to_be_the_meta_page() {
    let mut pager = filled(1);
    let mut page = pager.read_page(0).unwrap();
    page.set_page_type(PageType::Free);
    pager.write_page(page);
    match verify(&mut pager) {
        Audit::Damaged(list) => {
            assert_eq!(list.len(), 1);
            assert_eq!(list[0].0, 0);
            assert!(list[0].1.describe().contains("not a meta page"));
        }
        other => panic!("{other:?}"),
    }
}

#[test]
fn an_unsound_tree_is_found_when_all_pages_can_be_read() {
    let mut pager = filled(1);
    let page = pager.allocate_page(PageType::Overflow).unwrap();
    let mut meta = pager.meta();
    meta.root = page.page_id();
    pager.set_meta(meta);
    let found = verify(&mut pager);
    assert_eq!(found.exit_code(), EXIT_CORRUPTION);
    assert!(matches!(found, Audit::Unsound(_)), "{found:?}");
}
