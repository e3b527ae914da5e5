use noumenon_gleaner::encode_image_path;

#[test]
fn image_values_become_paths() {
    assert_eq!(encode_image_path("65002"), Some("065000/065002.png".to_string()));
    assert_eq!(encode_image_path("1"), Some("000000/000001.png".to_string()));
    assert_eq!(encode_image_path("1000"), Some("001000/001000.png".to_string()));
    assert_eq!(encode_image_path("999999"), Some("999000/999999.png".to_string()));
    assert_eq!(encode_image_path("021001"), Some("021000/021001.png".to_string()));
    assert_eq!(encode_image_path("  65002\n"), Some("065000/065002.png".to_string()));
    assert_eq!(encode_image_path("007"), Some("000000/000007.png".to_string()));
    assert_eq!(encode_image_path("00"), Some("000000/000000.png".to_string()));
}

#[test]
fn image_values_without_a_path() {
    assert_eq!(encode_image_path(""), None);
    assert_eq!(encode_image_path("   "), None);
    assert_eq!(encode_image_path("0"), None);
    assert_eq!(encode_image_path(" 0 "), None);
    assert_eq!(encode_image_path("1234567"), None);
    assert_eq!(encode_image_path("0000001"), None);
    assert_eq!(encode_image_path("-5"), None);
    assert_eq!(encode_image_path("+5"), None);
    assert_eq!(encode_image_path("12a"), None);
    assert_eq!(encode_image_path("1 2"), None);
    assert_eq!(encode_image_path("1.5"), None);
    assert_eq!(encode_image_path("\u{661}\u{662}"), None);
}

#[test]
fn image_paths_agree_with_the_padded_number() {
    for value in [1u32, 9, 10, 99, 100, 999, 1000, 12345, 65002, 100000, 999999] {
        let padded = format!("{:06}", value);
        let expected = format!("{}000/{}.png", &padded[..3], padded);
        assert_eq!(encode_image_path(&value.to_string()), Some(expected));
    }
}
