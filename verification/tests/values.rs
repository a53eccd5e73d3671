//! Texts, scores, sorting and tables on given values.

use context_footprint::app::context::{select_lines, symbol_is_parameter};
use context_footprint::domain::score::Score;
use context_footprint::domain::sort::{sort_positions, sort_texts};
use context_footprint::domain::symbol_table::SymbolTable;
use context_footprint::domain::text::{
    chars_of, contains_text, copy_texts, count_bytes, cut_bytes, extension_of, format_list, join,
    low_word, push_decimal, same_text, split_lines, text_of, text_order, TextOrder,
};

fn score(value: f32) -> Score {
    Score::from_bits(value.to_bits())
}

fn texts(list: &[&str]) -> Vec<String> {
    list.iter().map(|text| text.to_string()).collect()
}

/// Numbers of all sizes, with the halves that rounding to even decides.
fn numbers() -> Vec<f32> {
    let mut list = vec![
        0.0,
        -0.0,
        0.5,
        0.8,
        1.0,
        -1.0,
        0.0005,
        0.0015,
        0.0625,
        0.1875,
        0.3125,
        1.0005,
        2.5005,
        1234.5,
        16777216.0,
        33554434.0,
        1.0e10,
        1.0e20,
        f32::MAX,
        f32::MIN,
        f32::MIN_POSITIVE,
        1.0e-45,
        f32::INFINITY,
        f32::NEG_INFINITY,
        f32::NAN,
    ];
    for step in 0..2000u32 {
        list.push(step as f32 / 1600.0);
        list.push(f32::from_bits(step.wrapping_mul(2147483).wrapping_add(77)));
    }
    list
}

#[test]
fn scores_print_with_three_places() {
    for number in numbers() {
        let mut text = "x".to_string();
        score(number).push_thousandths(&mut text);
        assert_eq!(text, format!("x{:.3}", number), "bits {:x}", number.to_bits());
    }
}

#[test]
fn scores_compare_as_numbers() {
    let list = numbers();
    for a in list.iter().take(60) {
        for b in list.iter().take(60) {
            assert_eq!(score(*a).at_least(score(*b)), a >= b, "{} >= {}", a, b);
            assert_eq!(score(*a).below(score(*b)), a < b, "{} < {}", a, b);
        }
    }
    assert_eq!(score(0.5), Score::half());
    assert_eq!(Score::from_bits(0x3f80_0000).to_bits(), 0x3f80_0000);
}

#[test]
fn lines_are_split_at_line_feeds() {
    for source in [
        "",
        "\n",
        "one",
        "one\n",
        "one\ntwo",
        "one\r\ntwo\r\n",
        "one\rtwo",
        "\n\n",
        "one\n\ntwo\n",
        "one\n\r",
        "é\r\n\u{1F600}",
    ] {
        let expected: Vec<String> = source.lines().map(|line| line.to_string()).collect();
        assert_eq!(split_lines(source), expected, "{:?}", source);
    }
}

#[test]
fn texts_are_joined_and_cut() {
    assert_eq!(join(&texts(&["a", "b", "c"]), ", "), "a, b, c");
    assert_eq!(join(&texts(&["a"]), ", "), "a");
    assert_eq!(join(&texts(&[]), ", "), "");
    assert_eq!(count_bytes("aé\u{20AC}\u{1F600}"), 10);
    assert_eq!(cut_bytes("abcdef", 3), "abc");
    assert_eq!(cut_bytes("aéb", 2), "a");
    assert_eq!(cut_bytes("aéb", 3), "aé");
    assert_eq!(cut_bytes("ab", 9), "ab");
    assert_eq!(chars_of("aé"), vec!['a', 'é']);
    assert_eq!(text_of(&chars_of("abcd"), 1, 3), "bc");
    assert_eq!(copy_texts(&texts(&["a", "b"])), texts(&["a", "b"]));
}

#[test]
fn extensions_follow_the_last_full_stop() {
    assert_eq!(extension_of("src/main.py"), "py");
    assert_eq!(extension_of("a.tar.gz"), "gz");
    assert_eq!(extension_of("Makefile"), "Makefile");
    assert_eq!(extension_of("odd."), "");
}

#[test]
fn occurrences_are_found() {
    assert!(contains_text("sym/func1().", "func"));
    assert!(contains_text("aaab", "aab"));
    assert!(contains_text("abc", ""));
    assert!(contains_text("", ""));
    assert!(!contains_text("ab", "abc"));
    assert!(!contains_text("abc", "cb"));
    assert!(symbol_is_parameter("pkg/f().(x)"));
    assert!(!symbol_is_parameter("pkg/f()."));
    assert!(!symbol_is_parameter("pkg/f().(x)."));
}

#[test]
fn lists_print_with_quotation_marks() {
    for list in [
        texts(&[]),
        texts(&["int#"]),
        texts(&["int#", "a\"b", "tab\there", "é\u{0}\\"]),
    ] {
        assert_eq!(format_list(&list), format!("{:?}", list));
    }
}

#[test]
fn numbers_print_in_decimal() {
    for number in [0u128, 9, 10, 4294967295, 18446744073709551616] {
        let mut text = "n=".to_string();
        push_decimal(&mut text, number);
        assert_eq!(text, format!("n={}", number));
    }
    assert_eq!(low_word(7), 7);
    assert_eq!(low_word(0xffff_ffff), u32::MAX);
}

#[test]
fn texts_are_ordered_as_strings_are() {
    let list = ["", "a", "ab", "b", "B", "é", "\u{1F600}", "\u{FFFF}", "a_"];
    for a in list {
        for b in list {
            let order = text_order(a, b);
            assert_eq!(matches!(order, TextOrder::Before), a < b);
            assert_eq!(matches!(order, TextOrder::Same), a == b);
            assert_eq!(matches!(order, TextOrder::After), a > b);
            assert_eq!(same_text(a, b), a == b);
        }
    }
}

#[test]
fn sorted_texts_are_the_same_texts_in_order() {
    let keys = vec!["pear", "apple", "fig", "apple", ""];
    assert_eq!(sort_texts(&keys), vec![4, 1, 3, 2, 0]);
    let mut table: SymbolTable<u32> = SymbolTable::new();
    for (i, key) in keys.iter().enumerate() {
        table.insert(key.to_string(), i as u32);
    }
    assert_eq!(table.sorted_symbols(), texts(&["", "apple", "fig", "pear"]));
}

#[test]
fn sorting_by_keys_is_stable() {
    let keys: Vec<u32> = vec![3, 1, 3, 2, 1, 1];
    assert_eq!(sort_positions(&keys), vec![1, 4, 5, 3, 0, 2]);
    let none: Vec<u32> = vec![];
    assert!(sort_positions(&none).is_empty());
}

#[test]
fn tables_keep_the_last_value_of_a_key() {
    let mut table: SymbolTable<u32> = SymbolTable::new();
    assert!(table.is_empty());
    table.insert("b".to_string(), 1);
    table.insert("a".to_string(), 2);
    table.insert("b".to_string(), 3);
    assert_eq!(table.len(), 2);
    assert_eq!(table.get("b"), Some(&3));
    assert_eq!(table.get("c"), None);
    assert!(table.contains_key("a"));
    assert!(!table.contains_key("c"));
    if let Some(value) = table.get_mut("a") {
        *value = 7;
    }
    assert!(table.get_mut("c").is_none());
    assert_eq!(table.key_at(0), "b");
    assert_eq!(table.key_at(1), "a");
    assert_eq!(*table.value_at(1), 7);
}

#[test]
fn selected_lines_end_with_the_file() {
    let lines = texts(&["l0", "l1", "l2", "l3"]);
    assert_eq!(select_lines(&lines, 1, 2), texts(&["l1", "l2"]));
    assert_eq!(select_lines(&lines, 3, 9), texts(&["l3"]));
    assert!(select_lines(&lines, 7, 9).is_empty());
}
