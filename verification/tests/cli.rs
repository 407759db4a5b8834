use udev_hid_bpf::cli::{split_paths, tuple_parse, SplitError};

fn strings(items: &[&str]) -> Vec<String> {
    items.iter().map(|s| s.to_string()).collect()
}

#[test]
fn test_split_paths() {
    let paths: Vec<String> = strings(&["a"]);
    let (a, b) = split_paths(paths).unwrap();
    assert_eq!(a, vec!["a"]);
    assert_eq!(b, vec![] as Vec<&str>);

    let paths: Vec<String> = strings(&["a", "b"]);
    let (a, b) = split_paths(paths).unwrap();
    assert_eq!(a, vec!["a"]);
    assert_eq!(b, vec!["b"]);

    let paths: Vec<String> = strings(&["a", "b", "c"]);
    let (a, b) = split_paths(paths).unwrap();
    assert_eq!(a, vec!["a", "b", "c"]);
    assert_eq!(b, vec![] as Vec<&str>);

    let paths: Vec<String> = strings(&["a", "b", "-", "c"]);
    let (a, b) = split_paths(paths).unwrap();
    assert_eq!(a, vec!["a", "b"]);
    assert_eq!(b, vec!["c"]);

    let paths: Vec<String> = strings(&["a", "-", "b", "c"]);
    let (a, b) = split_paths(paths).unwrap();
    assert_eq!(a, vec!["a"]);
    assert_eq!(b, vec!["b", "c"] as Vec<&str>);

    let paths: Vec<String> = strings(&["a", "b", "c", "-"]);
    let (a, b) = split_paths(paths).unwrap();
    assert_eq!(a, vec!["a", "b", "c"]);
    assert_eq!(b, vec![] as Vec<&str>);

    let paths: Vec<String> = strings(&["-", "b", "c", "d"]);
    assert!(split_paths(paths).is_err());
    let paths: Vec<String> = strings(&["a", "-"]);
    assert!(split_paths(paths).is_err());
    let paths: Vec<String> = strings(&["-", "a"]);
    assert!(split_paths(paths).is_err());
    let paths: Vec<String> = strings(&["-"]);
    assert!(split_paths(paths).is_err());
    let paths: Vec<String> = strings(&[""]);
    assert!(split_paths(paths).is_err());
    let paths: Vec<String> = strings(&["a", "-", ""]);
    assert!(split_paths(paths).is_err());
}

#[test]
fn test_tuple_parse() {
    let p = tuple_parse("foo=bar").unwrap();
    assert_eq!(p.name, "foo");
    assert_eq!(p.value, "bar");

    let p = tuple_parse("foo=bar=baz").unwrap();
    assert_eq!(p.name, "foo");
    assert_eq!(p.value, "bar=baz");

    let p = tuple_parse("foo=").unwrap();
    assert_eq!(p.name, "foo");
    assert_eq!(p.value, "");

    assert!(tuple_parse("foo bar=baz").is_err());
    assert!(tuple_parse("foo\tbar=baz").is_err());
    assert!(tuple_parse("foobar =baz").is_err());
    assert!(tuple_parse("foobar").is_err());
}

#[test]
fn split_paths_names_each_error() {
    assert_eq!(split_paths(vec![]), Err(SplitError::NoPaths));
    assert_eq!(split_paths(strings(&["-", "b", "c"])), Err(SplitError::MissingDevice));
    assert_eq!(split_paths(strings(&["a", "-", "b", "-"])), Err(SplitError::InvalidPath));
    assert_eq!(split_paths(strings(&["a", ""])), Err(SplitError::InvalidPath));
}

#[test]
fn a_property_name_holds_no_white_space() {
    assert!(tuple_parse("fo\u{a0}o=bar").is_err());
    assert!(tuple_parse("foo\u{3000}=bar").is_err());
    assert!(tuple_parse("=bar").is_ok());
    let p = tuple_parse("NAME=a value with spaces").unwrap();
    assert_eq!(p.value, "a value with spaces");
}
