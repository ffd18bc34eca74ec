use secure_chat_lib::bench::{group_instances, mean_difference, total_average};
use secure_chat_lib::timestamps::{chars_of, parse_i64, sent_timestamps, split_words};

fn p(s: &str) -> Option<i64> {
    parse_i64(&chars_of(s))
}

#[test]
fn parse_i64_like_std() {
    for s in ["0", "123", "-5", "+7", "", "-", "+", "12a", " 1", "1 ", "007",
        "9223372036854775807", "9223372036854775808", "-9223372036854775808",
        "-9223372036854775809", "99999999999999999999999", "--1", "+-1", "١٢"] {
        assert_eq!(p(s), s.parse::<i64>().ok(), "{:?}", s);
    }
}

#[test]
fn split_words_like_std() {
    for s in ["", "  a b  ", "one", "x\u{3000}y\tz\n", "\u{a0}lead", "a  \u{2029}  b"] {
        let words: Vec<Vec<char>> = s.split_whitespace().map(|w| w.chars().collect()).collect();
        assert_eq!(split_words(&chars_of(s)), words, "{:?}", s);
    }
}

#[test]
fn sent_timestamps_whole_or_words() {
    assert_eq!(sent_timestamps(&"1700000000000".to_string()), vec![1700000000000i64]);
    assert_eq!(sent_timestamps(&"1700000000000 ".to_string()), vec![1700000000000i64]);
    assert_eq!(sent_timestamps(&"1 2 x 3".to_string()), vec![1i64, 2, 3]);
    assert_eq!(sent_timestamps(&"none here".to_string()), Vec::<i64>::new());
}

#[test]
fn mean_difference_cases() {
    assert_eq!(mean_difference(&vec![10, 20, 31]), 20);
    assert_eq!(mean_difference(&vec![-10, 5]), -5);
    assert_eq!(mean_difference(&vec![]), 0);
}

#[test]
fn total_average_skips_non_positive() {
    assert_eq!(total_average(&vec![10, -4, 20, 0]), 7);
    assert_eq!(total_average(&vec![-1]), 0);
}

#[test]
fn group_instances_like_test_setup() {
    let items: Vec<u32> = (0..120).collect();
    let groups = group_instances(items, 12);
    assert_eq!(groups.len(), 10);
    assert!(groups.iter().all(|g| g.len() == 12));
    assert_eq!(groups[9][11], 119);
    let groups = group_instances(vec![1, 2, 3, 4, 5], 2);
    assert_eq!(groups, vec![vec![1, 2], vec![3, 4], vec![5]]);
    let groups = group_instances(Vec::<u8>::new(), 3);
    assert_eq!(groups, vec![Vec::<u8>::new()]);
}
