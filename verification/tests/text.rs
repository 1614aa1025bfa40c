use schematic_diff::error::Error;
use schematic_diff::text::{
    characters, contains, decimal_length, push_decimal, push_flush_right, push_large, push_signed,
    same, same_when_small, standing, without_prefix, without_suffix, Standing,
};

fn decimal(n: u64) -> String {
    let mut out = String::new();
    push_decimal(&mut out, n);
    out
}

#[test]
fn decimals_are_written_without_leading_zeros() {
    assert_eq!(decimal(0), "0");
    assert_eq!(decimal(10), "10");
    assert_eq!(decimal(987_654_321), "987654321");
    assert_eq!(decimal(u64::MAX), u64::MAX.to_string());
    for n in [0, 9, 10, 99, 100, 12_345, u64::MAX] {
        assert_eq!(decimal_length(n), n.to_string().len());
    }
}

#[test]
fn signed_and_large_decimals() {
    for n in [0i64, -1, 7, i64::MIN, i64::MAX] {
        let mut out = String::from("x");
        push_signed(&mut out, n);
        assert_eq!(out, format!("x{n}"));
    }
    for n in [0u128, 9, u64::MAX as u128, u64::MAX as u128 + 1, u128::MAX] {
        let mut out = String::new();
        push_large(&mut out, n);
        assert_eq!(out, n.to_string());
    }
}

#[test]
fn numbers_stand_flush_right() {
    let mut out = String::new();
    push_flush_right(&mut out, "42", 2, 5);
    assert_eq!(out, "   42");
    push_flush_right(&mut out, "42", 2, 1);
    assert_eq!(out, "   4242");
}

#[test]
fn strings_are_ordered_as_std_orders_them() {
    let words = ["", "a", "ab", "b", "minecraft:stone", "minecraft:stone_bricks", "é", "z", "\u{10348}"];
    for a in words {
        for b in words {
            let expected = if a < b {
                Standing::Before
            } else if a == b {
                Standing::Same
            } else {
                Standing::After
            };
            assert_eq!(standing(a, b), expected);
            assert_eq!(same(a, b), a == b);
        }
    }
}

#[test]
fn parts_of_strings() {
    assert_eq!(characters("aé"), vec!['a', 'é']);
    assert_eq!(without_prefix("minecraft:air", "minecraft:"), Some("air".to_string()));
    assert_eq!(without_prefix("mine", "minecraft:"), None);
    assert_eq!(without_suffix("red_wool", "_wool"), Some("red".to_string()));
    assert_eq!(without_suffix("red_wool", "_bed"), None);
    assert!(contains("xterm-kitty", "kitty"));
    assert!(contains("anything", ""));
    assert!(!contains("kit", "kitty"));
    assert!(same_when_small("GhosTTY", "ghostty"));
    assert!(!same_when_small("É", "é"));
}

#[test]
fn an_error_keeps_its_words() {
    assert_eq!(Error::message("went wrong".to_string()).to_text(), "went wrong");
}
