use unlock_all::gamelog::{string_slots, wanted};

fn expand(fmt: &str, args: &[usize]) -> String {
    let slots = string_slots(fmt.as_bytes(), args);
    assert!(slots.is_empty());
    unlock_all::gamelog::format(fmt.as_bytes(), args, &[])
}

#[test]
fn wanted_lines() {
    assert!(wanted("ClientSkinItemManager::Foo %d"));
    assert!(wanted("ClientCharacterEquipmentManager: x"));
    assert!(wanted("set Skin %u"));
    assert!(wanted("the AccountItem list"));
    assert!(!wanted("xClientCharacterEquipmentManager"));
    assert!(!wanted("skin lower case"));
    assert!(!wanted(""));
}

#[test]
fn integer_conversions() {
    let args = [0xffff_fffe_usize, 0xffff_ffff_ffff_fffe, 255, 0x1_0000_0010, 7, 9];
    assert_eq!(expand("%d %I64d %x %llx %u %i", &args), "-2 -2 ff 100000010 7 9");
    assert_eq!(expand("%lu %I64u %X", &[0x1_0000_0005, 0x1_0000_0005, 0xABC]), "5 4294967301 abc");
}

#[test]
fn percent_forms() {
    assert_eq!(expand("100%% done", &[]), "100% done");
    assert_eq!(expand("tail %", &[]), "tail %");
    assert_eq!(expand("a %l", &[]), "a %l");
    assert_eq!(expand("%c|%5d|%q", &[65, 3, 4]), "65|3|4");
}

#[test]
fn missing_slots_read_as_zero() {
    assert_eq!(expand("%d %d", &[1]), "1 0");
}

#[test]
fn strings_come_from_the_slots_named() {
    let fmt = "name %s at %s, %d";
    let args = [0x20_0000usize, 5, 3];
    let slots = string_slots(fmt.as_bytes(), &args);
    assert_eq!(slots, vec![0]);
    let strs = vec![Some("Skin".to_string()), None, None];
    assert_eq!(unlock_all::gamelog::format(fmt.as_bytes(), &args, &strs), "name Skin at (null), 3");
}

#[test]
fn non_ascii_bytes_are_copied_byte_by_byte() {
    // each byte of the format becomes the character of the same number
    assert_eq!(unlock_all::gamelog::format("é".as_bytes(), &[], &[]), "\u{c3}\u{a9}");
}
