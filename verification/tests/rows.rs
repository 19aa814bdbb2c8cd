use unlock_all::rows::{adds_rows, can_add_rows, held_report, row_count, row_owned, rows_to_add, skins_report, sorted, source};

#[test]
fn rows_for_skins_not_held() {
    assert_eq!(rows_to_add(&[5, 1, 7, 1, 9], &[1, 9]), vec![5, 7]);
    assert_eq!(rows_to_add(&[], &[1]), Vec::<u32>::new());
}

#[test]
fn columns_while_adding() {
    assert_eq!(row_count(0, true), 1);
    assert_eq!(row_count(0, false), 0);
    assert_eq!(row_count(3, true), 3);
    assert_eq!(row_owned(0, true), 1);
    assert_eq!(row_owned(0, false), 0);
    assert_eq!(row_owned(2, true), 2);
}

#[test]
fn populate_adds_rows_when_rebuilding() {
    assert!(adds_rows(1, 1));
    assert!(adds_rows(0, 0));
    assert!(!adds_rows(0, 1));
}

#[test]
fn the_source_needs_an_inventory() {
    assert_eq!(source(0), 0);
    assert_eq!(source(0x1000), 0);
    assert_eq!(source(0x10_0000), 0x10_0000 + 0xE8B0 + 0x8A0);
}

#[test]
fn reports() {
    assert_eq!(sorted(&[3, 1, 2, 1]), vec![1, 1, 2, 3]);
    assert_eq!(held_report(&[30, 10, 20]), "3 [10, 20, 30]");
    assert_eq!(held_report(&[]), "0 []");
    let ids: Vec<u32> = (1..=45).collect();
    let expected = format!("45 {:?}", &ids[..40]);
    assert_eq!(skins_report(&ids), expected);
    assert_eq!(skins_report(&[4, 5]), "2 [4, 5]");
}

#[test]
fn rows_need_definitions_and_inventory() {
    assert!(can_add_rows(0x10000, 0x7FFF_FFFF_FFFE));
    assert!(!can_add_rows(0, 0x10000));
    assert!(!can_add_rows(0x10000, 0x7FFF_FFFF_FFFF));
}
