use opvm::index::{destruct_input, parse, purify, ParsedRange};

fn s(x: &str) -> String {
    x.to_string()
}

fn positions(valid: Vec<ParsedRange>, boundary: usize) -> Vec<usize> {
    purify(valid, boundary).into_iter().collect()
}

#[test]
fn empty_expression_is_first_position() {
    for b in [1usize, 2, 5, 100] {
        let (valid, invalid) = parse("", b);
        assert_eq!(valid, vec![ParsedRange::Single(1)]);
        assert!(invalid.is_empty());
    }
}

#[test]
fn single_digit_tokens_follow_bounds() {
    for d in 0..10usize {
        let t = d.to_string();
        let (valid, invalid) = parse(&t, 5);
        if (1..=5).contains(&d) {
            assert_eq!(valid, vec![ParsedRange::Single(d)]);
            assert!(invalid.is_empty());
        } else {
            assert!(valid.is_empty());
            assert_eq!(invalid, vec![(t.clone(), s("Range should between 1~5"))]);
        }
    }
}

#[test]
fn inclusive_range_and_its_positions() {
    let (valid, invalid) = parse("1~3", 5);
    assert_eq!(valid, vec![ParsedRange::Inclusive(1, 3)]);
    assert!(invalid.is_empty());
    assert_eq!(positions(valid, 5), vec![1, 2, 3]);
}

#[test]
fn full_range_and_its_positions() {
    let (valid, invalid) = parse("~", 5);
    assert_eq!(valid, vec![ParsedRange::Full]);
    assert!(invalid.is_empty());
    assert_eq!(positions(valid, 5), vec![1, 2, 3, 4, 5]);
}

#[test]
fn reversed_range_is_an_order_violation() {
    let (valid, invalid) = parse("3~1", 5);
    assert!(valid.is_empty());
    assert_eq!(
        invalid,
        vec![(s("3~1"), s("The starting index(3) must not greater than the ending index(1)"))]
    );
}

#[test]
fn out_of_bounds_and_syntax_errors() {
    assert_eq!(parse("0", 5).1, vec![(s("0"), s("Range should between 1~5"))]);
    assert_eq!(parse("6", 5).1, vec![(s("6"), s("Range should between 1~5"))]);
    assert_eq!(parse("a", 5).1, vec![(s("a"), s("Syntax error"))]);
    assert!(parse("0", 5).0.is_empty());
    assert!(parse("6", 5).0.is_empty());
    assert!(parse("a", 5).0.is_empty());
}

#[test]
fn open_ranges() {
    assert_eq!(parse("2~", 5).0, vec![ParsedRange::From(2)]);
    assert_eq!(parse("~4", 5).0, vec![ParsedRange::To(4)]);
    assert_eq!(parse("6~", 5).1, vec![(s("6~"), s("Range should between 1~5"))]);
    assert_eq!(parse("~0", 5).1, vec![(s("~0"), s("Range should between 1~5"))]);
    assert_eq!(positions(parse("4~", 5).0, 5), vec![4, 5]);
    assert_eq!(positions(parse("~2", 5).0, 5), vec![1, 2]);
}

#[test]
fn range_sides_out_of_bounds() {
    assert_eq!(parse("0~3", 5).1, vec![(s("0~3"), s("Range should between 1~5"))]);
    assert_eq!(parse("2~9", 5).1, vec![(s("2~9"), s("Range should between 1~5"))]);
    assert_eq!(parse("9~2", 5).1, vec![(s("9~2"), s("Range should between 1~5"))]);
}

#[test]
fn overflowing_numbers_are_boundary_violations() {
    let big = "99999999999999999999999";
    let t = format!("1~{big}");
    assert_eq!(parse(&t, 5).1, vec![(t.clone(), s("Range should between 1~5"))]);
    let t = format!("{big}~");
    assert_eq!(parse(&t, 5).1, vec![(t.clone(), s("Range should between 1~5"))]);
}

#[test]
fn multi_digit_without_tilde_is_a_syntax_error() {
    assert_eq!(parse("12", 20).1, vec![(s("12"), s("Syntax error"))]);
    assert_eq!(parse("1~2~3", 5).1, vec![(s("1~2~3"), s("Syntax error"))]);
    assert_eq!(parse("1 ", 5).1, vec![(s("1 "), s("Syntax error"))]);
}

#[test]
fn multi_digit_range_values() {
    assert_eq!(parse("10~12", 20).0, vec![ParsedRange::Inclusive(10, 12)]);
    assert_eq!(
        parse("12~10", 20).1,
        vec![(s("12~10"), s("The starting index(12) must not greater than the ending index(10)"))]
    );
}

#[test]
fn tokens_are_classified_independently() {
    let (valid, invalid) = parse("/1//x/3~/9/", 5);
    assert_eq!(valid, vec![ParsedRange::Single(1), ParsedRange::From(3)]);
    assert_eq!(
        invalid,
        vec![(s("x"), s("Syntax error")), (s("9"), s("Range should between 1~5"))]
    );
    let (valid, invalid) = parse("///", 5);
    assert!(valid.is_empty());
    assert!(invalid.is_empty());
}

#[test]
fn purify_keeps_first_appearance_order() {
    let ranges = vec![ParsedRange::Inclusive(2, 4), ParsedRange::Full, ParsedRange::To(3)];
    let got = positions(ranges, 5);
    assert_eq!(got, vec![2, 3, 4, 1, 5]);
    let mut sorted = got.clone();
    sorted.sort();
    sorted.dedup();
    assert_eq!(sorted.len(), got.len());
    assert!(got.len() <= 5);
}

#[test]
fn purify_ignores_invalid_and_empty_spans() {
    let ranges = vec![
        ParsedRange::Invalid(s("x"), s("Syntax error")),
        ParsedRange::Single(3),
        ParsedRange::From(3),
    ];
    assert_eq!(positions(ranges, 4), vec![3, 4]);
    assert!(positions(vec![], 4).is_empty());
}

#[test]
fn destruct_splits_name_and_index() {
    assert_eq!(destruct_input("1.16.5[1~2]"), Some((s("1.16.5"), s("1~2"))));
    assert_eq!(destruct_input("1.16.5_HD_U_G8"), None);
    assert_eq!(destruct_input("1.20.4[]"), Some((s("1.20.4"), s(""))));
    assert_eq!(destruct_input("[1]"), None);
    assert_eq!(destruct_input("a[1]b[2]"), Some((s("a[1]b"), s("2"))));
    assert_eq!(destruct_input("a[1]b[2"), Some((s("a"), s("1"))));
    assert_eq!(destruct_input("a[1]x]"), Some((s("a"), s("1"))));
}
