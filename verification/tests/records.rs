use maiconv::tempo::Timing;
use maiconv::notes::HitObj;
use maiconv::errors::ChartError;
use maiconv::scan::{parse_i32, parse_decimal};
use maiconv::{gcd, reduce_fraction};

fn chars(s: &str) -> Vec<char> {
    s.chars().collect()
}

#[test]
fn tempo_change_record() {
    let t = Timing::parse("0,500,4,2,0,100,1").unwrap();
    match t {
        Timing::Red { start, bpm, pat_num } => {
            assert_eq!(start, 0);
            assert_eq!(bpm.num, 60000);
            assert_eq!(bpm.den, 500);
            assert_eq!(pat_num, 2);
        },
        _ => panic!("expected a tempo change"),
    }
}

#[test]
fn tempo_change_with_decimal_beat_length() {
    let t = Timing::parse("12.9,333.33,4,2,0,100,1").unwrap();
    match t {
        Timing::Red { start, bpm, .. } => {
            assert_eq!(start, 12);
            assert_eq!(bpm.num, 6000000);
            assert_eq!(bpm.den, 33333);
        },
        _ => panic!("expected a tempo change"),
    }
}

#[test]
fn scroll_change_record() {
    let t = Timing::parse("250,-50,4,2,0,100,0").unwrap();
    match t {
        Timing::Green { start, speed } => {
            assert_eq!(start, 250);
            assert_eq!(speed.num, 100);
            assert_eq!(speed.den, 50);
        },
        _ => panic!("expected a scroll change"),
    }
}

#[test]
fn tempo_record_with_six_fields_is_malformed() {
    let r = Timing::parse("0,500,4,2,0,100");
    assert_eq!(r.unwrap_err(), ChartError::MalformedInput);
}

#[test]
fn tempo_record_with_text_field_is_malformed() {
    let r = Timing::parse("0,fast,4,2,0,100,1");
    assert_eq!(r.unwrap_err(), ChartError::MalformedInput);
}

#[test]
fn tempo_record_with_nonpositive_beat_length_is_malformed() {
    assert!(Timing::parse("0,0,4,2,0,100,1").is_err());
    assert!(Timing::parse("0,-500,4,2,0,100,1").is_err());
}

#[test]
fn tap_record() {
    let h = HitObj::parse("64,192,1000,1,0,0:0:0:0:").unwrap();
    match h {
        HitObj::Tap { pos, start } => {
            assert_eq!(pos, 0);
            assert_eq!(start, 1000);
        },
        _ => panic!("expected a tap"),
    }
    assert_eq!(h.pos(), 0);
    assert_eq!(h.start(), 1000);
}

#[test]
fn hold_record() {
    let h = HitObj::parse("448,192,100,128,0,600:0:0:0:").unwrap();
    match h {
        HitObj::Long { pos, start, end } => {
            assert_eq!(pos, 3);
            assert_eq!(start, 100);
            assert_eq!(end, 600);
        },
        _ => panic!("expected a hold"),
    }
}

#[test]
fn lane_boundaries() {
    assert_eq!(HitObj::parse("511,192,0,1,0,0:").unwrap().pos(), 3);
    assert_eq!(HitObj::parse("512,192,0,1,0,0:").unwrap().pos(), 4);
    assert_eq!(HitObj::parse("1023,192,0,1,0,0:").unwrap().pos(), 7);
    assert!(HitObj::parse("1024,192,0,1,0,0:").is_err());
    // a slightly negative coordinate truncates toward zero onto lane 0
    assert_eq!(HitObj::parse("-64,192,0,1,0,0:").unwrap().pos(), 0);
    assert!(HitObj::parse("-200,192,0,1,0,0:").is_err());
}

#[test]
fn hit_record_without_colon_is_malformed() {
    assert!(HitObj::parse("64,192,0,1,0,0").is_err());
}

#[test]
fn hold_must_end_after_it_starts() {
    assert!(HitObj::parse("64,192,100,128,0,100:").is_err());
    assert!(HitObj::parse("64,192,100,128,0,50:").is_err());
}

#[test]
fn hold_needs_its_end_field() {
    assert!(HitObj::parse("64,192,100,128:").is_err());
}

#[test]
fn integer_parsing() {
    assert_eq!(parse_i32(&chars("123")), Some(123));
    assert_eq!(parse_i32(&chars("-123")), Some(-123));
    assert_eq!(parse_i32(&chars("+7")), Some(7));
    assert_eq!(parse_i32(&chars("2147483647")), Some(2147483647));
    assert_eq!(parse_i32(&chars("-2147483648")), Some(-2147483648));
    assert_eq!(parse_i32(&chars("2147483648")), None);
    assert_eq!(parse_i32(&chars("")), None);
    assert_eq!(parse_i32(&chars("12a")), None);
    assert_eq!(parse_i32(&chars("1.5")), None);
}

#[test]
fn decimal_parsing() {
    assert_eq!(parse_decimal(&chars("3.14")), Some((314, 2)));
    assert_eq!(parse_decimal(&chars("-0.5")), Some((-5, 1)));
    assert_eq!(parse_decimal(&chars(".5")), Some((5, 1)));
    assert_eq!(parse_decimal(&chars("5.")), Some((5, 0)));
    assert_eq!(parse_decimal(&chars("500")), Some((500, 0)));
    assert_eq!(parse_decimal(&chars("1e3")), None);
    assert_eq!(parse_decimal(&chars("")), None);
    assert_eq!(parse_decimal(&chars(".")), None);
}

#[test]
fn gcd_values() {
    assert_eq!(gcd(96, 384), 96);
    assert_eq!(gcd(384, 384), 384);
    assert_eq!(gcd(0, 384), 384);
    assert_eq!(gcd(7, 384), 1);
}

#[test]
fn fraction_reduction_is_exact() {
    // the reduced pair cross-multiplies back to the raw tick count,
    // and the denominator always divides 384
    for raw in [0i128, 1, 12, 48, 96, 144, 200, 384, 500, 768] {
        let (n, d) = reduce_fraction(raw);
        assert_eq!(n * 384, raw * d);
        assert_eq!(384 % d, 0);
        assert_eq!(gcd(n, d), 1);
    }
    assert_eq!(reduce_fraction(96), (1, 4));
    assert_eq!(reduce_fraction(384), (1, 1));
    assert_eq!(reduce_fraction(0), (0, 1));
    assert_eq!(reduce_fraction(144), (3, 8));
}

#[test]
fn error_messages() {
    assert_eq!(ChartError::MalformedInput.message(), "malformed record in input");
    assert_eq!(ChartError::InvalidKeyLayout.message(), "not a valid key config");
}
