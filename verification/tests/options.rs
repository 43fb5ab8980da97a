use ascii_tree::options::{parse_args, parse_depth, DEFAULT_MAX_DEPTH};

fn args(list: &[&str]) -> Vec<String> {
    list.iter().map(|s| s.to_string()).collect()
}

fn parsed(list: &[&str]) -> (String, usize) {
    let options = parse_args(&args(list));
    (options.root_dir, options.max_depth)
}

#[test]
fn no_arguments_give_the_defaults() {
    assert_eq!(DEFAULT_MAX_DEPTH, 10);
    assert_eq!(parsed(&[]), (".".to_string(), 10));
}

#[test]
fn non_numeric_depth_falls_back_to_default() {
    assert_eq!(parsed(&["--depth", "abc"]), (".".to_string(), 10));
    assert_eq!(parsed(&["--depth", "abc", "dir"]), ("dir".to_string(), 10));
}

#[test]
fn depth_and_root_are_read_in_either_order() {
    assert_eq!(parsed(&["--depth", "3", "dir"]), ("dir".to_string(), 3));
    assert_eq!(parsed(&["dir", "--depth", "3"]), ("dir".to_string(), 3));
    assert_eq!(parsed(&["dir"]), ("dir".to_string(), 10));
    assert_eq!(parsed(&["--depth", "0"]), (".".to_string(), 0));
}

#[test]
fn flag_without_value_changes_nothing() {
    assert_eq!(parsed(&["--depth"]), (".".to_string(), 10));
    assert_eq!(parsed(&["dir", "--depth"]), ("dir".to_string(), 10));
    assert_eq!(parsed(&["--depth", "4", "--depth"]), (".".to_string(), 4));
}

#[test]
fn value_of_the_flag_is_never_the_root() {
    assert_eq!(parsed(&["--depth", "dir"]), (".".to_string(), 10));
    assert_eq!(parsed(&["--depth", "--depth"]), (".".to_string(), 10));
    assert_eq!(parsed(&["--depth", "--depth", "5"]), ("5".to_string(), 10));
}

#[test]
fn later_arguments_replace_earlier_ones() {
    assert_eq!(parsed(&["a", "b"]), ("b".to_string(), 10));
    assert_eq!(parsed(&["--depth", "2", "--depth", "7"]), (".".to_string(), 7));
    assert_eq!(parsed(&["--depth", "2", "--depth", "x"]), (".".to_string(), 10));
    assert_eq!(parsed(&["a", "--depth", "1", "b"]), ("b".to_string(), 1));
}

#[test]
fn depth_is_a_decimal_number() {
    assert_eq!(parse_depth("0"), Some(0));
    assert_eq!(parse_depth("7"), Some(7));
    assert_eq!(parse_depth("10"), Some(10));
    assert_eq!(parse_depth("007"), Some(7));
    assert_eq!(parse_depth("+5"), Some(5));
    assert_eq!(parse_depth("123456789"), Some(123456789));
}

#[test]
fn depth_rejects_what_is_not_a_number() {
    let texts =
        ["", "+", "-", "-1", "abc", "1a", "a1", " 1", "1 ", "1_000", "++1", "+-1", "1.5", "٣"];
    for text in texts {
        assert_eq!(parse_depth(text), None, "{:?}", text);
    }
}

#[test]
fn depth_rejects_what_the_machine_cannot_hold() {
    let most = usize::MAX.to_string();
    assert_eq!(parse_depth(&most), Some(usize::MAX));
    assert_eq!(parse_depth(&format!("{}0", most)), None);
    assert_eq!(parse_depth("340282366920938463463374607431768211456"), None);
    let mut one_more = most.into_bytes();
    let last = one_more.len() - 1;
    one_more[last] += 1;
    assert_eq!(parse_depth(&String::from_utf8(one_more).unwrap()), None);
    assert_eq!(parse_depth("99999999999999999999x"), None);
}

#[test]
fn depth_reads_as_the_standard_library_does() {
    let most = usize::MAX.to_string();
    let beyond = format!("{}0", most);
    let pieces = ["", "+", "-", "0", "1", "9", "a", " ", "00", most.as_str(), beyond.as_str()];
    for a in pieces {
        for b in pieces {
            for c in pieces {
                let text = format!("{}{}{}", a, b, c);
                assert_eq!(parse_depth(&text), text.parse::<usize>().ok(), "{:?}", text);
            }
        }
    }
}
