use sort_engines::radix::RadixSort;
use sort_engines::fixed::Fixed;

fn fx(x: f64) -> Fixed {
    Fixed::from_micros((x * 1e6) as i64)
}

#[test]
fn lib_test_integer_sort() {
    let mut arr: Vec<i32> = vec![170, -45, 75, 90, -802, 24, 2, 66];
    let mut sorter = RadixSort::new();
    sorter.sort(&mut arr);
    assert_eq!(arr, vec![-802, -45, 2, 24, 66, 75, 90, 170]);
}

#[test]
fn lib_test_float_sort() {
    let mut arr: Vec<Fixed> = vec![
        fx(64.5),
        fx(34.0),
        fx(25.5),
        fx(12.2),
        fx(22.7),
        fx(11.1),
        fx(90.0),
    ];
    let mut sorter = RadixSort::new();
    sorter.sort(&mut arr);
    assert_eq!(
        arr,
        vec![
            fx(11.1),
            fx(12.2),
            fx(22.7),
            fx(25.5),
            fx(34.0),
            fx(64.5),
            fx(90.0)
        ]
    );
}

#[test]
fn test_string_sort() {
    let mut arr: Vec<&str> = vec!["170", "45", "7", "90", "802", "24", "2", "66"];
    let mut sorter = RadixSort::new();
    sorter.sort(&mut arr);
    assert_eq!(arr, vec!["2", "7", "24", "45", "66", "90", "170", "802"]);
}

#[test]
fn radix_empty_input_resets_counters() {
    let mut sorter = RadixSort::new();
    let mut arr: Vec<i32> = vec![2, 1];
    sorter.sort(&mut arr);
    let (c, m) = sorter.get_stats();
    assert!(c > 0);
    assert!(m > 0);
    let mut empty: Vec<i32> = vec![];
    sorter.sort(&mut empty);
    assert_eq!(empty, Vec::<i32>::new());
    assert_eq!(sorter.get_stats(), (0, 0));
}

#[test]
fn radix_singleton_is_unchanged() {
    let mut arr: Vec<i32> = vec![7];
    let mut sorter = RadixSort::new();
    sorter.sort(&mut arr);
    assert_eq!(arr, vec![7]);
    assert_eq!(sorter.get_stats(), (1, 2));
}

#[test]
fn radix_sorted_input_reproduced() {
    let mut arr: Vec<i32> = vec![1, 2, 3, 4];
    let mut sorter = RadixSort::new();
    sorter.sort(&mut arr);
    assert_eq!(arr, vec![1, 2, 3, 4]);
}

#[test]
fn radix_move_count_follows_digit_passes() {
    // two elements of seven digits each: two moves per element and pass
    let mut arr: Vec<Fixed> = vec![fx(2.0), fx(1.0)];
    let mut sorter = RadixSort::new();
    sorter.sort(&mut arr);
    assert_eq!(arr, vec![fx(1.0), fx(2.0)]);
    assert_eq!(sorter.get_stats(), (2, 28));
}

#[test]
fn radix_stats_reset_between_calls() {
    let mut sorter = RadixSort::new();
    let mut first: Vec<Fixed> = vec![fx(3.0), fx(1.0), fx(2.0)];
    sorter.sort(&mut first);
    let mut second: Vec<Fixed> = vec![fx(2.0), fx(1.0)];
    sorter.sort(&mut second);
    assert_eq!(sorter.get_stats(), (2, 28));
}

#[test]
fn radix_reset_stats_zeroes_counters() {
    let mut sorter = RadixSort::new();
    let mut arr: Vec<i32> = vec![9, 3, 5];
    sorter.sort(&mut arr);
    let (c, m) = sorter.get_stats();
    assert!(c > 0);
    assert!(m > 0);
    sorter.reset_stats();
    assert_eq!(sorter.get_stats(), (0, 0));
}

#[test]
fn radix_duplicates_kept() {
    let mut arr: Vec<i32> = vec![5, 3, 3, 1, 5, 3];
    let mut sorter = RadixSort::new();
    sorter.sort(&mut arr);
    assert_eq!(arr, vec![1, 3, 3, 3, 5, 5]);
}

#[test]
fn radix_mixed_sign_floats_keep_magnitude_order() {
    // without the signed-integer correction pass the digit passes order
    // values by magnitude; mixed signs keep that order, as designed
    let mut arr: Vec<Fixed> = vec![fx(-1.5), fx(1.0)];
    let mut sorter = RadixSort::new();
    sorter.sort(&mut arr);
    assert_eq!(arr, vec![fx(1.0), fx(-1.5)]);
}

#[test]
fn radix_decimal_strings_sort_by_value() {
    let mut arr: Vec<&str> = vec!["170.7", "45.7", "7.5", "9.0", "80.2", "2.4", "2.7", "6.6"];
    let mut sorter = RadixSort::new();
    sorter.sort(&mut arr);
    assert_eq!(
        arr,
        vec!["2.4", "2.7", "6.6", "7.5", "9.0", "45.7", "80.2", "170.7"]
    );
}

#[test]
fn radix_signed_numeric_strings_keep_magnitude_order() {
    // string digits come from the magnitude, and strings get no sign
    // correction pass
    let mut arr: Vec<&str> = vec!["-45.7", "2.0"];
    let mut sorter = RadixSort::new();
    sorter.sort(&mut arr);
    assert_eq!(arr, vec!["2.0", "-45.7"]);
}

#[test]
fn radix_sorted_nonneg_fixed_reproduced() {
    let mut arr: Vec<Fixed> = vec![fx(1.25), fx(2.0), fx(3.5)];
    let mut sorter = RadixSort::new();
    sorter.sort(&mut arr);
    assert_eq!(arr, vec![fx(1.25), fx(2.0), fx(3.5)]);
}

#[test]
fn radix_plain_strings_order_by_character_code() {
    // seven digit places per character spell the full character codes, so
    // the passes deliver the fixed-width-from-the-right code ordering
    let mut arr: Vec<&str> = vec!["b", "a"];
    let mut sorter = RadixSort::new();
    sorter.sort(&mut arr);
    assert_eq!(arr, vec!["a", "b"]);
}

#[test]
fn radix_plain_strings_shorter_reads_zero() {
    // a shorter string reads zero at the places the longest one fills, so
    // it sorts ahead of it: code order, not dictionary order
    let mut arr: Vec<&str> = vec!["dog", "cat", "bird", "ant"];
    let mut sorter = RadixSort::new();
    sorter.sort(&mut arr);
    assert_eq!(arr, vec!["ant", "cat", "dog", "bird"]);
}

#[test]
fn radix_string_digit_uses_full_character_code() {
    // a character beyond one byte keeps its full code: U+0100 outranks 'z'
    let mut arr: Vec<&str> = vec!["\u{100}", "z"];
    let mut sorter = RadixSort::new();
    sorter.sort(&mut arr);
    assert_eq!(arr, vec!["z", "\u{100}"]);
}

#[test]
fn radix_empty_string_takes_one_place() {
    let mut arr: Vec<&str> = vec!["a", ""];
    let mut sorter = RadixSort::new();
    sorter.sort(&mut arr);
    assert_eq!(arr, vec!["", "a"]);
}
