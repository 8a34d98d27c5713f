use fpm::authors;
use fpm::cache::{added_text, initial_text, parse_value};
use fpm::error::{Error, IntErrorKind};
use fpm::library::get_data::{section_value, value_name, SectionValue};

#[test]
fn authors_line() {
    assert_eq!(authors("Amit Upadhyay <upadhyay@gmail.com>:Arpita Jaiswal <arpita@fifthtry.com>"), "Amit Upadhyay, Arpita Jaiswal");
    assert_eq!(authors("nobody"), "");
    assert_eq!(authors(""), "");
}

#[test]
fn counter_text() {
    assert_eq!(parse_value("41").unwrap(), 41);
    assert_eq!(parse_value(&initial_text()).unwrap(), 1);
    assert_eq!(added_text(41, 1), "42");
    assert_eq!(parse_value(&added_text(usize::MAX - 3, 3)).unwrap(), usize::MAX);
    assert_eq!(parse_value(""), Err(Error::ParseIntError(IntErrorKind::Empty)));
    assert_eq!(parse_value("4x"), Err(Error::ParseIntError(IntErrorKind::InvalidDigit)));
    assert_eq!(parse_value("+"), Err(Error::ParseIntError(IntErrorKind::InvalidDigit)));
    assert_eq!(parse_value("99999999999999999999999"), Err(Error::ParseIntError(IntErrorKind::PosOverflow)));
    for t in ["", "4x", "+", "99999999999999999999999", "-1"] {
        let std_kind = t.parse::<usize>().unwrap_err().kind().clone();
        let ours = match parse_value(t) {
            Err(Error::ParseIntError(k)) => k,
            o => panic!("{:?}", o),
        };
        let same = matches!((std_kind, ours),
            (std::num::IntErrorKind::Empty, IntErrorKind::Empty)
            | (std::num::IntErrorKind::InvalidDigit, IntErrorKind::InvalidDigit)
            | (std::num::IntErrorKind::PosOverflow, IntErrorKind::PosOverflow));
        assert!(same, "{}", t);
    }
}

#[test]
fn section_values() {
    assert_eq!(value_name(Some("k"), "x y"), "k");
    assert_eq!(value_name(None, "integer age"), "age");
    assert_eq!(value_name(None, "age"), "age");
    match section_value("n", false, Some("{}"), Some("c")) {
        SectionValue::Conflict { message } => assert_eq!(message, "Cannot pass both caption and body"),
        v => panic!("{:?}", v),
    }
    assert!(matches!(section_value("n", true, Some("{}"), None), SectionValue::ExtraData { .. }));
    assert!(matches!(section_value("n", false, Some("{}"), None), SectionValue::Body { .. }));
    match section_value("age", false, None, None) {
        SectionValue::Missing { message } => assert_eq!(message, "Value is not passed for age"),
        v => panic!("{:?}", v),
    }
    assert!(matches!(section_value("n", false, None, Some("true")), SectionValue::Bool(true)));
    assert!(matches!(section_value("n", false, None, Some("-12")), SectionValue::Integer(-12)));
    match section_value("n", false, None, Some("1.5")) {
        SectionValue::Caption { caption } => assert_eq!(caption, "1.5"),
        v => panic!("{:?}", v),
    }
}
