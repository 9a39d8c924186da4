use graphite::carbon_msg::split_datagram;

#[test]
fn test_good_datagram() {
    let datagram = "home.pets.bears.lua.purr_volume 100.00 1434598525\n";
    let (rel_path, value_text, timestamp) = split_datagram(datagram).unwrap();
    assert_eq!(rel_path, "home/pets/bears/lua/purr_volume.wsp");
    assert_eq!(value_text.parse::<f64>().unwrap(), 100.0);
    assert_eq!(timestamp, 1434598525);
}

#[test]
fn bad_datagrams_are_rejected() {
    // missing newline
    assert!(split_datagram("a.b 1.0 1434598525").is_err());
    // not three parts
    assert!(split_datagram("a.b 1.0\n").is_err());
    assert!(split_datagram("a.b 1.0 2 3\n").is_err());
    // timestamp is not an unsigned integer
    assert!(split_datagram("a.b 1.0 t\n").is_err());
    assert!(split_datagram("a.b 1.0 99999999999999999999999\n").is_err());
}
