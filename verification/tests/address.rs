use blue_track::address::MacAddress;

#[test]
fn mac_address_text_is_lower_hex_joined_by_colons() {
    let m = MacAddress::from([0x0a, 0x1b, 0x2c, 0x3d, 0x4e, 0x5f]);
    assert_eq!(m.to_string(), "0a:1b:2c:3d:4e:5f");
}

#[test]
fn mac_address_text_pads_small_bytes() {
    let m = MacAddress::from([0, 1, 2, 0xff, 0x10, 0x09]);
    assert_eq!(m.to_string(), "00:01:02:ff:10:09");
}

#[test]
fn mac_address_as_bytes_gives_the_bytes_in_order() {
    let m = MacAddress::from([1, 2, 3, 4, 5, 6]);
    assert_eq!(m.as_bytes(), &[1u8, 2, 3, 4, 5, 6][..]);
}

#[test]
fn distinct_addresses_give_distinct_text() {
    let a = MacAddress::from([1, 2, 3, 4, 5, 6]);
    let b = MacAddress::from([1, 2, 3, 4, 5, 7]);
    assert_ne!(a.to_string(), b.to_string());
}
