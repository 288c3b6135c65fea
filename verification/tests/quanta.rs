//! Units, quantity texts and the calendar.
use casacure::calendar::{angle_text, civil_days, mjd_weekday, mjd_ymd, time_text};
use casacure::quanta::{fixed_text, is_fixed, scientific_text, split_quantity_string};
use casacure::units::{parse_unit, Scale, Unit, UnitError};
use casacure::unittable::Dims;

#[allow(clippy::too_many_arguments)]
fn dims(m: i32, kg: i32, s: i32, a: i32, k: i32, mol: i32, cd: i32, rad: i32) -> Dims {
    Dims {
        m,
        kg,
        s,
        a,
        k,
        mol,
        cd,
        rad,
    }
}

/// The number that a scale stands for.
fn value(s: &Scale) -> f64 {
    match s {
        Scale::One => 1.0,
        Scale::Atom(u, None) => f64::from_bits(*u),
        Scale::Atom(u, Some(p)) => f64::from_bits(*u) * f64::from_bits(*p),
        Scale::Product(a, b) => value(a) * value(b),
        Scale::Quotient(a, b) => value(a) / value(b),
        Scale::Power(a, n) => value(a).powi(*n),
        Scale::Root(a, n) => value(a).powf(1.0 / f64::from(*n)),
    }
}

fn unit(s: &str) -> Unit {
    parse_unit(s).unwrap()
}

#[test]
fn parse_dimensions_and_scale() {
    let m = parse_unit("km").unwrap();
    assert_eq!(m.dims, dims(1, 0, 0, 0, 0, 0, 0, 0));
    assert!((value(&m.scale) - 1e3).abs() < 1e-9);
    let ms = parse_unit("mJy").unwrap();
    assert_eq!(ms.dims, dims(0, 1, -2, 0, 0, 0, 0, 0));
    assert!((value(&ms.scale) - 1e-29).abs() < 1e-40);
    let compound = parse_unit("kg.m.s-2").unwrap();
    assert_eq!(compound.dims, dims(1, 1, -2, 0, 0, 0, 0, 0));
    assert!((value(&compound.scale) - 1.0).abs() < 1e-12);
    let wm2 = parse_unit("W/m2").unwrap();
    assert_eq!(wm2.dims, dims(0, 1, -3, 0, 0, 0, 0, 0));
    assert!((value(&wm2.scale) - 1.0).abs() < 1e-12);
}

#[test]
fn conversion_matches_casacore() {
    let q = unit("Jy");
    let in_unit = |v: f64, u: &str| v * value(&q.scale) / value(&unit(u).scale);
    assert!((in_unit(1.5, "mJy") - 1500.0).abs() < 1e-9);
    assert!(q.conforms(&unit("mJy")));
    assert!(in_unit(1.5, "Jy") == 1.5);
    assert!(!q.conforms(&unit("W")));
    assert!((1.5 * value(&q.scale) - 1.5e-26).abs() < 1e-34);
    assert_eq!(q.canonical_string(), "kg.s-2");
}

/// A number with a number of significant digits.
fn digits(v: f64, prec: usize) -> String {
    if v == 0.0 {
        return "0".into();
    }
    let x = v.abs();
    let mut exp = x.log10().floor() as i64;
    let round = 10f64.powi(prec as i32 - 1);
    let mut mant = (x / 10f64.powi(exp as i32) * round).round() / round;
    if mant >= 10.0 {
        mant /= 10.0;
        exp += 1;
    }
    if is_fixed(exp, prec as u64) {
        let places = (prec as i64 - 1 - exp).max(0) as usize;
        fixed_text(v < 0.0, &format!("{:.places$}", mant * 10f64.powi(exp as i32)))
    } else {
        scientific_text(v < 0.0, &format!("{:.*}", prec - 1, mant), exp as i32)
    }
}

/// A value with its unit.
struct Q(f64, Unit);

fn q(v: f64, u: &str) -> Q {
    Q(v, unit(u))
}

impl Q {
    fn text(&self) -> String {
        format!("{} {}", digits(self.0, 5), self.1.display)
    }

    fn value_in(&self, u: &str) -> f64 {
        let u = unit(u);
        assert!(self.1.conforms(&u));
        self.0 * value(&self.1.scale) / value(&u.scale)
    }

    fn repr(&self) -> String {
        let parts = |x: f64| {
            let d = x.floor();
            let m = ((x - d) * 60.0).floor();
            (d as u64, m as u64, ((x - d) * 3600.0 - m * 60.0).round() as u64)
        };
        if self.1.is_time() {
            let (h, m, s) = parts(self.value_in("d").fract().rem_euclid(1.0) * 24.0);
            time_text(h, m, s)
        } else if self.1.is_angle() {
            let deg = self.value_in("rad") * 180.0 / std::f64::consts::PI;
            let (d, m, s) = parts(deg.abs());
            angle_text(deg < 0.0, d, m, s)
        } else {
            format!("{} {}", digits(self.0, 6), self.1.display)
        }
    }
}

#[test]
fn arithmetic_display_matches_casacore() {
    let a = q(3.0, "km");
    let b = q(500.0, "m");
    assert_eq!(Q(a.0 + b.value_in("km"), unit("km")).text(), "3.5 km");
    assert_eq!(Q(a.0 - b.value_in("km"), unit("km")).text(), "2.5 km");
    assert_eq!(Q(a.0 * b.0, a.1.multiplied(&b.1).unwrap()).text(), "1500 km.m");
    assert_eq!(Q(a.0 / b.0, a.1.divided(&b.1).unwrap()).text(), "0.006 km/(m)");
    assert_eq!(Q(b.0 / a.0, b.1.divided(&a.1).unwrap()).text(), "166.67 m/(km)");
    assert_eq!(Q(a.0.powi(2), a.1.raised(2).unwrap()).text(), "9 (km)2");
    assert_eq!(Q(9f64.sqrt(), unit("m2").rooted(2).unwrap()).text(), "3 m");
    assert_eq!(Q(8f64.powf(1.0 / 3.0), unit("m3").rooted(3).unwrap()).text(), "2 m");
    assert_eq!(q(100000.0, "m").text(), "1e+05 m");
}

#[test]
fn time_and_angle_display_matches_casacore() {
    assert_eq!(q(2.0, "h").text(), "2 h");
    assert_eq!(q(45.0, "deg").text(), "45 deg");
    assert_eq!(q(1.5, "h").text(), "1.5 h");
    assert_eq!(q(2.0, "h").repr(), "02:00:00");
    assert_eq!(q(1.5, "h").repr(), "01:30:00");
    assert_eq!(q(51544.0, "d").repr(), "00:00:00");
    assert_eq!(q(45.0, "deg").repr(), "+045.00.00");
    assert_eq!(q(2.0, "rad").repr(), "+114.35.30");
}

#[test]
fn unix_time_matches_casacore() {
    let seconds = (q(51544.0, "d").value_in("d") - 40_587.0) * 86_400.0;
    assert!((seconds - 946_684_800.0).abs() < 1.0);
    assert_eq!(civil_days(2000, 1, 1) * 86_400, 946_684_800);
}

#[test]
fn calendar_roundtrip_anchors() {
    // 2000-01-01 == MJD 51544.
    assert_eq!(mjd_ymd(51544), (2000, 1, 1));
    assert_eq!(mjd_weekday(51544), 6); // Saturday
    assert_eq!(civil_days(2000, 1, 1), 10_957);
    // 1858-11-17 == MJD 0.
    assert_eq!(mjd_ymd(0), (1858, 11, 17));
}

#[test]
fn split_string_forms() {
    let split = |s: &str| {
        split_quantity_string(s).map(|(n, u)| (n.parse::<f64>().unwrap(), u))
    };
    assert_eq!(split("1.5 Jy"), Some((1.5, "Jy".to_string())));
    assert_eq!(split("1.5Jy"), Some((1.5, "Jy".to_string())));
    assert_eq!(split("2 deg"), Some((2.0, "deg".to_string())));
    assert_eq!(split("-2.5 Jy"), Some((-2.5, "Jy".to_string())));
}

#[test]
fn faults_of_unit_texts() {
    assert!(matches!(parse_unit("m)"), Err(UnitError::Invalid(s)) if s == "m)"));
    assert!(matches!(parse_unit("(m"), Err(UnitError::Unbalanced)));
    assert!(matches!(
        parse_unit("m/2"),
        Err(UnitError::ExpectedName(Some('2')))
    ));
    assert!(matches!(
        parse_unit("m."),
        Err(UnitError::ExpectedName(None))
    ));
    assert!(matches!(parse_unit("xyz"), Err(UnitError::Unknown(s)) if s == "xyz"));
    assert!(matches!(
        parse_unit("m99999999999"),
        Err(UnitError::Exponent)
    ));
    let none = unit("  \u{2003} ");
    assert_eq!(none.display, "");
    assert_eq!(none.dims, dims(0, 0, 0, 0, 0, 0, 0, 0));
    assert_eq!(unit(" (km/s)^2 ").dims, dims(2, 0, -2, 0, 0, 0, 0, 0));
    assert_eq!(unit("µm").dims, dims(1, 0, 0, 0, 0, 0, 0, 0));
}

#[test]
fn exponents_may_stand_in_brackets() {
    for text in ["m^(2)", "m^2", "m2"] {
        let u = unit(text);
        assert_eq!(u.dims, dims(2, 0, 0, 0, 0, 0, 0, 0), "{text}");
        assert_eq!(value(&u.scale), 1.0, "{text}");
    }
    assert_eq!(unit("s^(-1)").dims, dims(0, 0, -1, 0, 0, 0, 0, 0));
    assert_eq!(unit("kg.m^(2)/s2").dims, dims(2, 1, -2, 0, 0, 0, 0, 0));
}
