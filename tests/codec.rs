use tagmenu::tag::{CodecError, TagCodec, TagFamily};

fn codec(numbered: bool, count: usize) -> TagCodec {
    TagCodec::new(numbered, count).unwrap()
}

#[test]
fn decimal_encodes_base_ten() {
    let c = codec(true, 43);
    assert_eq!(c.family, TagFamily::Decimal);
    assert_eq!(c.encode(0), "0");
    assert_eq!(c.encode(7), "7");
    assert_eq!(c.encode(10), "10");
    assert_eq!(c.encode(42), "42");
}

#[test]
fn decimal_decode_takes_the_longest_digit_run() {
    let c = codec(true, 12);
    assert_eq!(c.decode("10 edit"), Some(10));
    assert_eq!(c.decode("1 edit"), Some(1));
    assert_eq!(c.decode("11"), Some(11));
    assert_eq!(c.decode("007"), Some(7));
}

#[test]
fn decimal_decode_rejects_out_of_range_and_unrelated_text() {
    let c = codec(true, 12);
    assert_eq!(c.decode("12"), None);
    assert_eq!(c.decode("123 x"), None);
    assert_eq!(c.decode("99999999999999999999999999"), None);
    assert_eq!(c.decode("edit"), None);
    assert_eq!(c.decode(""), None);
    assert_eq!(c.decode(" 1"), None);
    let empty = codec(true, 0);
    assert_eq!(empty.decode("0"), None);
}

#[test]
fn ternary_width_is_the_least_that_covers_the_entries() {
    assert_eq!(codec(false, 0).width, 1);
    assert_eq!(codec(false, 1).width, 1);
    assert_eq!(codec(false, 3).width, 1);
    assert_eq!(codec(false, 4).width, 2);
    assert_eq!(codec(false, 9).width, 2);
    assert_eq!(codec(false, 10).width, 3);
    assert_eq!(codec(false, 27).width, 3);
    assert_eq!(codec(false, 28).width, 4);
}

#[test]
fn ternary_four_entries_have_two_symbol_tags() {
    let c = codec(false, 4);
    assert_eq!(c.family, TagFamily::Ternary);
    assert_eq!(c.width, 2);
    let tags: Vec<String> = (0..4).map(|i| c.encode(i)).collect();
    assert_eq!(tags, vec!["jj", "jk", "jl", "kj"]);
    for i in 0..4 {
        assert_eq!(tags[i].chars().count(), 2);
        for j in 0..4 {
            if i != j {
                assert_ne!(tags[i], tags[j]);
                assert!(!tags[j].starts_with(tags[i].as_str()));
            }
        }
        assert_eq!(c.decode(&tags[i]), Some(i));
    }
}

#[test]
fn ternary_decode_reads_exactly_the_width() {
    let c = codec(false, 4);
    assert_eq!(c.decode("kj build"), Some(3));
    assert_eq!(c.decode("jkjelly"), Some(1));
    assert_eq!(c.decode("kk"), None);
    assert_eq!(c.decode("j"), None);
    assert_eq!(c.decode("ja"), None);
    assert_eq!(c.decode("x"), None);
    assert_eq!(c.decode(""), None);
}

#[test]
fn round_trip_both_families() {
    for n in 1..60usize {
        for numbered in [true, false] {
            let c = codec(numbered, n);
            for i in 0..n {
                assert_eq!(c.decode(&c.encode(i)), Some(i));
            }
        }
    }
}

#[test]
fn tags_are_distinct() {
    for numbered in [true, false] {
        let c = codec(numbered, 40);
        let tags: Vec<String> = (0..40).map(|i| c.encode(i)).collect();
        for i in 0..40 {
            for j in 0..40 {
                if i != j {
                    assert_ne!(tags[i], tags[j]);
                }
            }
        }
    }
}

#[test]
fn ternary_tags_are_prefix_free() {
    for n in [2usize, 3, 4, 10, 30, 81, 82] {
        let c = codec(false, n);
        let tags: Vec<String> = (0..n).map(|i| c.encode(i)).collect();
        for i in 0..n {
            for j in 0..n {
                if i != j {
                    assert!(!tags[j].starts_with(tags[i].as_str()));
                }
            }
        }
    }
}

#[test]
fn ternary_capacity_is_bounded_by_usize() {
    let mut largest: usize = 1;
    let mut width: usize = 0;
    while let Some(p) = largest.checked_mul(3) {
        largest = p;
        width += 1;
    }
    let c = codec(false, largest);
    assert_eq!(c.width, width);
    assert_eq!(
        TagCodec::new(false, largest + 1),
        Err(CodecError::CapacityExceeded { count: largest + 1 })
    );
    assert_eq!(
        TagCodec::new(false, usize::MAX),
        Err(CodecError::CapacityExceeded { count: usize::MAX })
    );
    assert!(TagCodec::new(true, usize::MAX).is_ok());
}

#[test]
fn families_separate_tag_and_name_with_a_space() {
    assert_eq!(codec(true, 3).separator_default(), Some(" "));
    assert_eq!(codec(false, 3).separator_default(), Some(" "));
}
