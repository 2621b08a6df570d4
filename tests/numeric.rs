use reactive_core::boundary::{collect_errors, render_boundary, BoundaryView};
use reactive_core::numeric::{format_i32, load_data, parse_i32, parse_or_zero, NumError};
use reactive_core::runtime::Runtime;

#[test]
fn forty_two_round_trips() {
    let v = parse_i32("42").unwrap();
    assert_eq!(v, 42);
    assert_eq!(format_i32(v), "42");
}

#[test]
fn non_number_goes_to_the_fallback() {
    let parsed = parse_i32("abc");
    assert_eq!(parsed, Err(NumError::InvalidDigit));
    match render_boundary(&vec![parsed]) {
        BoundaryView::Fallback(errors) => {
            assert_eq!(errors.len(), 1);
            assert_eq!(errors[0], (0, NumError::InvalidDigit));
        }
        BoundaryView::Children => panic!("expected the fallback"),
    }
}

#[test]
fn boundary_shows_children_without_errors() {
    let children: Vec<Result<i32, NumError>> = vec![Ok(1), Ok(2)];
    assert!(matches!(render_boundary(&children), BoundaryView::Children));
    let mixed: Vec<Result<i32, NumError>> = vec![Ok(1), Err(NumError::Empty), Ok(3), Err(NumError::PosOverflow)];
    assert_eq!(collect_errors(&mixed), vec![(1, NumError::Empty), (3, NumError::PosOverflow)]);
}

#[test]
fn parse_errors() {
    assert_eq!(parse_i32(""), Err(NumError::Empty));
    assert_eq!(parse_i32("-"), Err(NumError::InvalidDigit));
    assert_eq!(parse_i32("+"), Err(NumError::InvalidDigit));
    assert_eq!(parse_i32(" 1"), Err(NumError::InvalidDigit));
    assert_eq!(parse_i32("1.5"), Err(NumError::InvalidDigit));
    assert_eq!(parse_i32("2147483648"), Err(NumError::PosOverflow));
    assert_eq!(parse_i32("-2147483649"), Err(NumError::NegOverflow));
    assert_eq!(parse_i32("99999999999x"), Err(NumError::PosOverflow));
}

#[test]
fn parse_matches_std() {
    for s in ["0", "-0", "+7", "-15", "2147483647", "-2147483648", "007", "12a", "", "-", "x", "99999999999"] {
        assert_eq!(parse_i32(s).ok(), s.parse::<i32>().ok(), "{s}");
    }
}

#[test]
fn format_extremes() {
    assert_eq!(format_i32(0), "0");
    assert_eq!(format_i32(-7), "-7");
    assert_eq!(format_i32(i32::MAX), "2147483647");
    assert_eq!(format_i32(i32::MIN), "-2147483648");
    for v in [-1000, -1, 1, 9, 10, 99, 100, 123456] {
        assert_eq!(parse_i32(&format_i32(v)), Ok(v));
    }
}

#[test]
fn error_value_in_signal_propagates_like_any_value() {
    let mut rt: Runtime<Result<i32, NumError>> = Runtime::new(10);
    let root = rt.root_scope();
    let s = rt.create_signal(root, Ok(0)).unwrap();
    let e = rt.create_effect(root).unwrap();
    assert_eq!(rt.take_pass().unwrap(), vec![e]);
    rt.begin_run(e).unwrap();
    rt.read(s).unwrap();
    rt.end_run(e).unwrap();
    assert!(rt.take_pass().unwrap().is_empty());
    rt.write(s, parse_i32("abc")).unwrap();
    assert_eq!(rt.take_pass().unwrap(), vec![e]);
    assert_eq!(rt.read(s).unwrap(), Some(&Err(NumError::InvalidDigit)));
}

#[test]
fn parse_or_zero_and_loader() {
    assert_eq!(parse_or_zero("12"), 12);
    assert_eq!(parse_or_zero("twelve"), 0);
    assert_eq!(load_data(7), Some(70));
    assert_eq!(load_data(-3), Some(-30));
    assert_eq!(load_data(i32::MAX), None);
}
