use mandelbrot_set::{complex_of, pair_of, parse_complex, parse_pair, split_pair};
use num::Complex;

#[test]
fn test_parse_pair() {
    assert_eq!(parse_pair::<f64>("1.25x0.42", "x"), Some((1.25, 0.42)));
    assert_eq!(parse_pair::<i32>("125#42", "#"), Some((125, 42)));
    assert_eq!(parse_pair::<i8>("a,b", ","), None);
    assert_eq!(parse_pair::<i8>("ab", ","), None);
}

#[test]
fn test_parse_complex() {
    assert_eq!(parse_complex::<f64>("1.25,-0.42"), Some(Complex { re: 1.25, im: -0.42 }));
    assert_eq!(parse_complex::<u32>("125,42"), Some(Complex { re: 125, im: 42 }));
    assert_eq!(parse_complex::<u32>("1.25xb"), None);
}

#[test]
fn parse_pair_reads_image_bounds() {
    assert_eq!(parse_pair::<usize>("1500x750", "x"), Some((1500, 750)));
}

#[test]
fn parse_pair_fails_when_one_side_fails() {
    assert_eq!(parse_pair::<u32>("12x", "x"), None);
    assert_eq!(parse_pair::<u32>("x12", "x"), None);
    assert_eq!(parse_pair::<u32>("12xb", "x"), None);
    assert_eq!(parse_pair::<u32>("ax12", "x"), None);
}

#[test]
fn parse_pair_does_not_trim() {
    assert_eq!(parse_pair::<u32>("12 x 13", "x"), None);
    assert_eq!(parse_pair::<u32>(" 12x13", "x"), None);
    assert_eq!(parse_pair::<u32>("12x13 ", "x"), None);
}

#[test]
fn parse_pair_splits_at_the_first_separator() {
    assert_eq!(parse_pair::<String>("a,b,c", ","), Some(("a".to_string(), "b,c".to_string())));
    assert_eq!(parse_pair::<u32>("1,2,3", ","), None);
}

#[test]
fn parse_pair_leaves_out_a_long_separator() {
    assert_eq!(parse_pair::<i32>("1::2", "::"), Some((1, 2)));
    assert_eq!(parse_pair::<String>("1ab2", "ab"), Some(("1".to_string(), "2".to_string())));
    assert_eq!(parse_pair::<u32>("1ab2", "ab"), Some((1, 2)));
    assert_eq!(parse_pair::<u32>("1a2", "ab"), None);
    assert_eq!(parse_pair::<String>("1::2::3", "::"), Some(("1".to_string(), "2::3".to_string())));
}

#[test]
fn parse_pair_with_empty_texts() {
    assert_eq!(parse_pair::<String>("", ""), Some(("".to_string(), "".to_string())));
    assert_eq!(parse_pair::<u32>("", ""), None);
    assert_eq!(parse_pair::<String>("", ","), None);
    assert_eq!(parse_pair::<String>("abc", ""), Some(("".to_string(), "abc".to_string())));
    assert_eq!(parse_pair::<u32>("12", ""), None);
    assert_eq!(parse_pair::<String>(",", ","), Some(("".to_string(), "".to_string())));
}

#[test]
fn parse_pair_with_wide_characters() {
    assert_eq!(parse_pair::<String>("é1→2é", "→"), Some(("é1".to_string(), "2é".to_string())));
    assert_eq!(parse_pair::<u32>("12é34", "é"), Some((12, 34)));
}

#[test]
fn split_pair_gives_both_sides() {
    assert_eq!(split_pair("1.25x0.42", "x"), Some(("1.25", "0.42")));
    assert_eq!(split_pair("125#42", "#"), Some(("125", "42")));
    assert_eq!(split_pair("a,b", ","), Some(("a", "b")));
    assert_eq!(split_pair("ab", ","), None);
    assert_eq!(split_pair("ab", "abc"), None);
    assert_eq!(split_pair("xaxbx", "x"), Some(("", "axbx")));
    assert_eq!(split_pair("aab", "ab"), Some(("a", "")));
    assert_eq!(split_pair("1::2", "::"), Some(("1", "2")));
    assert_eq!(split_pair("a:b::c", "::"), Some(("a:b", "c")));
    assert_eq!(split_pair("abc", ""), Some(("", "abc")));
    assert_eq!(split_pair("", ""), Some(("", "")));
    assert_eq!(split_pair("abc", "abc"), Some(("", "")));
}

#[test]
fn pair_of_needs_both() {
    assert_eq!(pair_of(Some(1), Some(2)), Some((1, 2)));
    assert_eq!(pair_of(Some(1), None), None);
    assert_eq!(pair_of(None, Some(2)), None);
    assert_eq!(pair_of::<u8>(None, None), None);
}

#[test]
fn complex_of_puts_the_real_part_first() {
    assert_eq!(complex_of(Some((3, 4))), Some(Complex { re: 3, im: 4 }));
    assert_eq!(complex_of::<i32>(None), None);
}

#[test]
fn parse_complex_needs_a_comma() {
    assert_eq!(parse_complex::<f64>("1.25 -0.42"), None);
    assert_eq!(parse_complex::<f64>(",-0.42"), None);
    assert_eq!(parse_complex::<f64>("-1.0,1.25"), Some(Complex { re: -1.0, im: 1.25 }));
}
