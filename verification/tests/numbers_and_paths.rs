use ruvector::decimal::{parse_counter, print_counter};
use ruvector::distance::{bits_from_distance, distance_from_bits, FARTHEST};
use ruvector::metadata::Metadata;
use ruvector::path_rules::{check_path, PathError, PathPart};
use ruvector::sorting::order_by_key;
use ruvector::text::{begins_with, text_before};

#[test]
fn counters_are_printed_in_decimal() {
    assert_eq!(print_counter(0), "0");
    assert_eq!(print_counter(9), "9");
    assert_eq!(print_counter(10), "10");
    assert_eq!(print_counter(1234567890), "1234567890");
    assert_eq!(print_counter(u64::MAX), u64::MAX.to_string());
}

#[test]
fn counters_are_parsed_as_the_standard_library_does() {
    let texts = [
        "", "+", "-", "0", "+0", "007", "5", "+5", "++5", "-1", " 5", "5 ", "1_000", "12a", "٣",
        "18446744073709551615", "18446744073709551616", "99999999999999999999", "000000000000000000000001",
    ];
    for text in texts {
        assert_eq!(parse_counter(text), text.parse::<u64>().ok(), "{}", text);
    }
}

#[test]
fn a_printed_counter_is_parsed_back() {
    for n in [0, 1, 42, 1000, u64::MAX - 1, u64::MAX] {
        assert_eq!(parse_counter(&print_counter(n)), Some(n));
    }
}

#[test]
fn distances_are_ordered_like_their_numbers() {
    let numbers = [f32::MIN, -3.5, -1.0, -1e-30, 0.0, 1e-30, 0.25, 1.0, 3.5, f32::MAX];
    for a in numbers {
        for b in numbers {
            assert_eq!(
                distance_from_bits(a.to_bits()) < distance_from_bits(b.to_bits()),
                a < b,
                "{} {}",
                a,
                b
            );
        }
    }
    assert_eq!(distance_from_bits((-0.0f32).to_bits()), 0);
    assert_eq!(distance_from_bits(1.0f32.to_bits()), 0x3F80_0000);
    assert_eq!(distance_from_bits((-1.0f32).to_bits()), -0x3F80_0000);
    assert_eq!(distance_from_bits(f32::MAX.to_bits()), FARTHEST);
}

#[test]
fn distances_keep_their_bits() {
    for number in [f32::MIN, -2.5, 0.0, 0.1, 7.0, f32::MAX] {
        assert_eq!(bits_from_distance(distance_from_bits(number.to_bits())), number.to_bits());
    }
    assert_eq!(bits_from_distance(distance_from_bits((-0.0f32).to_bits())), 0);
}

#[test]
fn positions_come_by_key_and_then_as_they_stand() {
    assert_eq!(order_by_key(&vec![]), Vec::<usize>::new());
    assert_eq!(order_by_key(&vec![3, 1, 2, 1, 3, 0]), vec![5, 1, 3, 2, 0, 4]);
}

#[test]
fn texts_are_ordered_like_strings() {
    let texts = ["", "a", "ab", "b", "Z", "é", "漢", "a b", "🦀"];
    for a in texts {
        for b in texts {
            assert_eq!(text_before(a, b), a < b, "{} {}", a, b);
        }
    }
}

#[test]
fn beginnings_of_texts() {
    for (text, prefix) in [
        ("__atlas_lsn", "__atlas_"),
        ("__atlas", "__atlas_"),
        ("user", "__atlas_"),
        ("", ""),
        ("x", ""),
        ("", "x"),
        ("été", "ét"),
        ("__Atlas_x", "__atlas_"),
    ] {
        assert_eq!(begins_with(text, prefix), text.starts_with(prefix), "{} {}", text, prefix);
    }
}

#[test]
fn a_path_may_not_lead_above_its_start() {
    let refused = Err(PathError::Traversal);
    assert_eq!(check_path(false, &vec![]), Ok(()));
    assert_eq!(check_path(false, &vec![PathPart::Normal, PathPart::Normal]), Ok(()));
    assert_eq!(check_path(false, &vec![PathPart::ParentDir]), refused);
    assert_eq!(check_path(false, &vec![PathPart::Other, PathPart::ParentDir, PathPart::Normal]), refused);
    assert_eq!(check_path(false, &vec![PathPart::Normal, PathPart::ParentDir, PathPart::Normal]), Ok(()));
    assert_eq!(check_path(false, &vec![PathPart::Normal, PathPart::ParentDir, PathPart::ParentDir, PathPart::Normal, PathPart::Normal]), refused);
    assert_eq!(check_path(true, &vec![PathPart::ParentDir]), Ok(()));
    assert_eq!(PathError::Traversal.message(), "Path traversal attempt detected");
}

#[test]
fn metadata_is_read_by_key() {
    let metadata = Metadata::new()
        .with("type".to_string(), "table".to_string())
        .with("name".to_string(), "orders".to_string())
        .with("type".to_string(), "view".to_string());
    assert_eq!(metadata.get("type"), Some(&"view".to_string()));
    assert_eq!(metadata.get("name"), Some(&"orders".to_string()));
    assert_eq!(metadata.get("owner"), None);
    assert!(!metadata.is_empty());
    assert!(Metadata::new().is_empty());
}

#[test]
fn metadata_matches_filters_it_holds() {
    let metadata = Metadata::new()
        .with("type".to_string(), "table".to_string())
        .with("name".to_string(), "orders".to_string());
    let same = Metadata::new().with("type".to_string(), "table".to_string());
    let other = Metadata::new().with("type".to_string(), "view".to_string());
    let more = Metadata::new()
        .with("type".to_string(), "table".to_string())
        .with("owner".to_string(), "me".to_string());
    assert!(metadata.matches_all(&same));
    assert!(metadata.matches_all(&Metadata::new()));
    assert!(!metadata.matches_all(&other));
    assert!(!metadata.matches_all(&more));
    assert!(!Metadata::new().matches_all(&same));
}
