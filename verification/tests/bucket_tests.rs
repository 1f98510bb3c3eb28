use sort_engines::bucket::BucketSort;
use sort_engines::fixed::Fixed;

fn fx(x: f64) -> Fixed {
    Fixed::from_micros((x * 1e6) as i64)
}

#[test]
fn test_integer_sort() {
    let mut arr: Vec<i32> = vec![64, 34, 25, 12, 22, 11, 90];
    let mut sorter = BucketSort::new();
    sorter.sort(&mut arr);
    assert_eq!(arr, vec![11, 12, 22, 25, 34, 64, 90]);
    let (comparisons, moves) = sorter.get_stats();
    assert!(comparisons > 0);
    assert!(moves > 0);
}

#[test]
fn test_float_sort() {
    let mut arr: Vec<Fixed> = vec![
        fx(64.5),
        fx(34.0),
        fx(25.5),
        fx(12.2),
        fx(22.7),
        fx(11.1),
        fx(90.0),
    ];
    let mut sorter = BucketSort::new();
    sorter.sort(&mut arr);
    assert_eq!(
        arr,
        vec![
            fx(11.1),
            fx(12.2),
            fx(22.7),
            fx(25.5),
            fx(34.0),
            fx(64.5),
            fx(90.0)
        ]
    );
}

#[test]
fn test_str_char_sort() {
    let mut arr: Vec<&str> = vec!["dog", "cat", "bird", "ant"];
    let mut sorter = BucketSort::new();
    sorter.sort(&mut arr);
    assert_eq!(arr, vec!["ant", "bird", "cat", "dog"]);
}

#[test]
fn test_str_floats_sort() {
    let mut arr: Vec<&str> = vec!["170.7", "45.7", "7.5", "9.0", "80.2", "2.4", "2.7", "6.6"];
    let mut sorter = BucketSort::new();
    sorter.sort(&mut arr);
    assert_eq!(
        arr,
        vec!["2.4", "2.7", "6.6", "7.5", "9.0", "45.7", "80.2", "170.7"]
    );
}

#[test]
fn test_str_integers_sort() {
    let mut arr: Vec<&str> = vec!["170", "45", "7", "9", "80", "2", "2", "6"];
    let mut sorter = BucketSort::new();
    sorter.sort(&mut arr);
    assert_eq!(arr, vec!["2", "2", "6", "7", "9", "45", "80", "170"]);
}

#[test]
fn bucket_empty_input_resets_counters() {
    let mut sorter = BucketSort::new();
    let mut arr: Vec<i32> = vec![3, 1, 2];
    sorter.sort(&mut arr);
    let (c, m) = sorter.get_stats();
    assert!(c > 0);
    assert!(m > 0);
    let mut empty: Vec<i32> = vec![];
    sorter.sort(&mut empty);
    assert_eq!(empty, Vec::<i32>::new());
    assert_eq!(sorter.get_stats(), (0, 0));
}

#[test]
fn bucket_singleton_is_untouched() {
    let mut arr: Vec<i32> = vec![42];
    let mut sorter = BucketSort::new();
    sorter.sort(&mut arr);
    assert_eq!(arr, vec![42]);
    let (_, moves) = sorter.get_stats();
    assert_eq!(moves, 0);
}

#[test]
fn bucket_sorted_input_fast_path() {
    let mut arr: Vec<i32> = vec![1, 2, 3, 4, 5];
    let mut sorter = BucketSort::new();
    sorter.sort(&mut arr);
    assert_eq!(arr, vec![1, 2, 3, 4, 5]);
    let (comparisons, moves) = sorter.get_stats();
    assert_eq!(comparisons, 4);
    assert_eq!(moves, 0);
}

#[test]
fn bucket_stats_reset_between_calls() {
    let mut sorter = BucketSort::new();
    let mut arr: Vec<i32> = vec![3, 1, 2];
    sorter.sort(&mut arr);
    let (c1, m1) = sorter.get_stats();
    assert!(c1 > 0);
    assert!(m1 > 0);
    let mut sorted_arr: Vec<i32> = vec![1, 2, 3];
    sorter.sort(&mut sorted_arr);
    assert_eq!(sorter.get_stats(), (2, 0));
}

#[test]
fn bucket_duplicates_kept() {
    let mut arr: Vec<i32> = vec![5, 3, 3, 1, 5, 3];
    let mut sorter = BucketSort::new();
    sorter.sort(&mut arr);
    assert_eq!(arr, vec![1, 3, 3, 3, 5, 5]);
}

#[test]
fn bucket_zero_maximum_is_clamped() {
    let mut arr: Vec<i32> = vec![0, -1];
    let mut sorter = BucketSort::new();
    sorter.sort(&mut arr);
    assert_eq!(arr, vec![-1, 0]);
}

#[test]
fn bucket_all_negative() {
    let mut arr: Vec<i32> = vec![-5, -20, -1, -7];
    let mut sorter = BucketSort::new();
    sorter.sort(&mut arr);
    assert_eq!(arr, vec![-20, -7, -5, -1]);
}

#[test]
fn bucket_negative_floats() {
    let mut arr: Vec<Fixed> = vec![fx(1.5), fx(-2.25), fx(0.0), fx(3.75), fx(-0.5)];
    let mut sorter = BucketSort::new();
    sorter.sort(&mut arr);
    assert_eq!(arr, vec![fx(-2.25), fx(-0.5), fx(0.0), fx(1.5), fx(3.75)]);
}

#[test]
fn bucket_numeric_strings_above_ceiling() {
    let mut arr: Vec<&str> = vec!["2500", "1200", "3", "1800"];
    let mut sorter = BucketSort::new();
    sorter.sort(&mut arr);
    assert_eq!(arr, vec!["3", "1200", "1800", "2500"]);
}

#[test]
fn bucket_first_letter_grouping_wraps() {
    // leading-character grouping works modulo the bucket count, so letters
    // past the wrap point land in earlier buckets than alphabetical order
    let mut arr: Vec<&str> = vec!["hat", "ant"];
    let mut sorter = BucketSort::new();
    sorter.sort(&mut arr);
    assert_eq!(arr, vec!["hat", "ant"]);
}
