use unlock_all::text::{dec_vec, push_byte_list, push_dec, push_dec_list, push_hex, push_hex2, push_signed, push_str};

#[test]
fn decimal_and_hex() {
    let mut s = String::new();
    push_dec(&mut s, 0);
    push_str(&mut s, " ");
    push_dec(&mut s, 18446744073709551615);
    push_str(&mut s, " ");
    push_hex(&mut s, 0xdead_beef);
    push_str(&mut s, " ");
    push_signed(&mut s, -9223372036854775808);
    push_str(&mut s, " ");
    push_signed(&mut s, 42);
    assert_eq!(s, "0 18446744073709551615 deadbeef -9223372036854775808 42");
    assert_eq!(dec_vec(907), vec!['9', '0', '7']);
}

#[test]
fn two_digit_hex_and_lists() {
    let mut s = String::new();
    push_hex2(&mut s, 0x0a, true);
    push_hex2(&mut s, 0xf0, false);
    push_byte_list(&mut s, &[0x48, 0x0b]);
    push_dec_list(&mut s, &[1, 22, 333]);
    push_dec_list(&mut s, &[]);
    assert_eq!(s, "0Af0[48, 0B][1, 22, 333][]");
    assert_eq!(format!("{:02X?}", [0x48u8, 0x0b]), "[48, 0B]");
}
