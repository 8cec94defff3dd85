//! The command line and what is printed.

use ccm::cli::{
    bad_model, cannot_read, complaint, count, parse, print_benchmark, print_error, print_solution,
    reason, report, start, Command, Message, Out, USAGE,
};
use ccm::ieee::double::to_units;
use ccm::Error;

fn args(list: &[&str]) -> Vec<Vec<u8>> {
    list.iter().map(|a| a.as_bytes().to_vec()).collect()
}

fn text(f: impl FnOnce(&mut Out)) -> String {
    let mut o = Out::new();
    f(&mut o);
    String::from_utf8(o.0).unwrap()
}

#[test]
fn integers_are_printed_in_decimal() {
    for v in [0i64, 1, 9, 10, 99, 100, -1, -10, 1234567890123456789, i64::MAX, i64::MIN] {
        assert_eq!(text(|o| o.integer(v)), v.to_string());
    }
}

fn fixed(v: f64, digits: u32) -> String {
    text(|o| o.fixed(v.to_bits(), digits))
}

#[test]
fn numbers_have_all_their_decimals() {
    assert_eq!(fixed(0.225842, 6), "0.225842");
    assert_eq!(fixed(-1.000001, 6), "-1.000001");
    assert_eq!(fixed(-0.0, 3), "0.000");
    assert_eq!(fixed(-0.0004, 3), "0.000");
    assert_eq!((fixed(2.5, 0), fixed(-7.25, 0), fixed(-0.25, 0)), ("3.".into(), "-7.".into(), "0.".into()));
    assert_eq!(fixed(12.3455, 3), "12.346");
    assert_eq!(fixed(0.0005, 3), "0.001");
    assert_eq!(fixed(f64::NAN, 3), "0.000");
    assert_eq!(fixed(f64::INFINITY, 1), "1844674407370955161.5");
    assert_eq!(fixed(f64::NEG_INFINITY, 1), "-1844674407370955161.5");
    // Without decimals the whole part turns negative at 2^63.
    assert_eq!(fixed(9223372036854774784.0, 0), "9223372036854774784.");
    assert_eq!(fixed(9223372036854775808.0, 0), "-9223372036854775808.");
    assert_eq!((fixed(1e19, 0), fixed(f64::INFINITY, 0)), ("-8446744073709551616.".into(), "-1.".into()));
    assert_eq!(fixed(f64::NEG_INFINITY, 0), "--1.");
    assert_eq!(fixed(7e-19, 19), "0.0000000000000000007");
    assert_eq!(fixed(0.1f32 as f64, 10), "0.1000000015");
}

#[test]
fn rounding_goes_through_double_precision() {
    let mut seed = 0x2545f4914f6cdd1du64;
    let mut rand = || {
        seed ^= seed << 13;
        seed ^= seed >> 7;
        seed ^= seed << 17;
        seed
    };
    let check = |v: f64, scale: u64| {
        let want = (v.abs() * scale as f64 + 0.5) as u64;
        assert_eq!(to_units(v.to_bits(), scale), want, "{v:e} * {scale}");
    };
    for _ in 0..100000 {
        let (bits, digits) = (rand(), rand() % 20);
        check(f64::from_bits(bits), 10u64.pow(digits as u32));
        // Nearby exponents, where the half matters.
        let near = (1023 - 70 + rand() % 140) << 52 | bits >> 12;
        check(f64::from_bits(near), 10u64.pow(digits as u32));
    }
    for v in [0.0, -0.0, 0.5, 0.49999999999999994, 1.5, 4503599627370497.5, 9007199254740991.0, 9007199254740993.0, 1e300, 5e-324, f64::MAX] {
        for scale in [1, 10, 1000, 10000, 1000000, 10000000000000000000] {
            check(v, scale);
            check(-v, scale);
        }
    }
}

#[test]
fn names_are_escaped() {
    assert_eq!(text(|o| o.json_str(b"a.jpg")), "\"a.jpg\"");
    assert_eq!(text(|o| o.json_str(b"a\"b\\c\n\x1f")), "\"a\\\"b\\\\c\\u000a\\u001f\"");
    assert_eq!(text(|o| o.json_str("é".as_bytes())), "\"é\"");
}

#[test]
fn solutions_are_lines() {
    let points = [[101, 45], [179, 48], [14, 51], [51, 49]];
    assert_eq!(
        text(|o| print_solution(o, b"captcha.jpg", &points, 0.225842f64.to_bits(), false, false)),
        "101-45,179-48,14-51,51-49 0.225842\n"
    );
    assert_eq!(
        text(|o| print_solution(o, b"a.jpg", &points, 0.225842f64.to_bits(), false, true)),
        "a.jpg 101-45,179-48,14-51,51-49 0.225842\n"
    );
    assert_eq!(
        text(|o| print_solution(o, b"a.jpg", &points, 0.225842f64.to_bits(), true, true)),
        "{\"file\": \"a.jpg\", \"points\": [[101, 45], [179, 48], [14, 51], [51, 49]], \"margin\": 0.225842}\n"
    );
}

#[test]
fn errors_are_explained() {
    let all = [
        (Error::Arg, "bad argument", -1),
        (Error::Jpeg, "not a valid JPEG", -2),
        (Error::Unsupported, "unsupported JPEG variant", -3),
        (Error::Size, "not a 250x80 image", -4),
        (Error::Model, "bad model file", -5),
    ];
    for (e, why, code) in all {
        assert_eq!((reason(e), e.code()), (why.as_bytes(), code));
    }
    assert_eq!(text(|o| print_error(o, b"x", Error::Size)), "{\"file\": \"x\", \"error\": \"not a 250x80 image\"}\n");
    assert_eq!(complaint(b"cannot read x").0, b"ccm-cli: cannot read x\n");
    assert_eq!(
        text(|o| print_benchmark(o, 3, 20, 1.64f64.to_bits(), "avx2", 0.25f64.to_bits())),
        "3 images x 20 rounds: 1.640 ms/captcha end-to-end, 1 thread, kernel avx2 (checksum 0.2500)\n"
    );
}

#[test]
fn counts_are_digits() {
    assert_eq!((count(b"20"), count(b"007"), count(b"0"), count(b"")), (20, 7, 0, 0));
    assert_eq!((count(b"-1"), count(b"2x"), count(b" 2")), (0, 0, 0));
    assert_eq!(count(b"99999999999999999999999999"), usize::MAX);
    assert_eq!(count(usize::MAX.to_string().as_bytes()), usize::MAX);
}

#[test]
fn arguments_are_sorted_out() {
    match parse(&args(&["ccm-cli", "-j", "a.jpg", "-m", "x.ccm", "-", "-b", "20", "-g"])) {
        Command::Run(o) => {
            assert!(o.json && o.generic);
            assert_eq!((o.rounds, o.model, o.files), (20, Some(4), vec![2, 5]));
        }
        _ => panic!("should run"),
    }
    match parse(&args(&["ccm-cli", "a.jpg"])) {
        Command::Run(o) => {
            assert!(!o.json && !o.generic);
            assert_eq!((o.rounds, o.model, o.files), (0, None, vec![1]));
        }
        _ => panic!("should run"),
    }
    assert!(matches!(parse(&args(&["ccm-cli", "-j", "--help", "-x"])), Command::Help));
    assert!(matches!(parse(&args(&["ccm-cli", "a", "-h"])), Command::Help));
    assert!(matches!(parse(&args(&["ccm-cli", "-b", "0", "a"])), Command::BadCount));
    assert!(matches!(parse(&args(&["ccm-cli", "-b", "many", "a"])), Command::BadCount));
    assert!(matches!(parse(&args(&["ccm-cli", "a", "-x"])), Command::Unknown(2)));
    // An option that lacks its argument is unknown.
    assert!(matches!(parse(&args(&["ccm-cli", "a", "-m"])), Command::Unknown(2)));
    assert!(matches!(parse(&args(&["ccm-cli", "-j"])), Command::NoFiles));
    assert!(matches!(parse(&args(&["ccm-cli"])), Command::NoFiles));
    assert!(matches!(parse(&args(&[])), Command::NoFiles));
}

fn said(m: Message) -> (String, String, u8) {
    (String::from_utf8(m.out.0).unwrap(), String::from_utf8(m.err.0).unwrap(), m.status)
}

fn refused(list: &[&str]) -> (String, String, u8) {
    match start(&args(list)) {
        Ok(_) => panic!("should not run"),
        Err(m) => said(m),
    }
}

#[test]
fn refusals_are_explained() {
    assert!(start(&args(&["ccm-cli", "a.jpg"])).is_ok_and(|o| o.files == [1]));
    assert!(USAGE.starts_with("usage: ccm-cli [-j] [-m model.ccm] [-b N] [-g] image.jpg|- ...\nprints `x0-y0,"));
    assert!(USAGE.ends_with("\n-g    use the portable kernel instead of AVX2 / NEON\n"));
    assert_eq!(USAGE.lines().count(), 6);
    let none = String::new;
    assert_eq!(refused(&["ccm-cli", "-h"]), (USAGE.to_string(), none(), 0));
    assert_eq!(refused(&["ccm-cli"]), (none(), format!("ccm-cli: {USAGE}\n"), 2));
    assert_eq!(
        refused(&["ccm-cli", "a", "-b", "x"]),
        (none(), "ccm-cli: -b needs a positive count\n".to_string(), 2)
    );
    assert_eq!(
        refused(&["ccm-cli", "a", "-x"]),
        (none(), format!("ccm-cli: unknown option -x\n{USAGE}\n"), 2)
    );
}

#[test]
fn files_are_reported() {
    let none = String::new;
    let solved = Ok(([[101, 45], [179, 48], [14, 51], [51, 49]], 0.225842f64.to_bits()));
    let line = "101-45,179-48,14-51,51-49 0.225842\n";
    assert_eq!(said(report(b"a", &solved, false, false, false)), (line.to_string(), none(), 0));
    assert_eq!(said(report(b"a", &solved, false, true, false)), (format!("a {line}"), none(), 0));
    assert_eq!(said(report(b"a", &solved, true, true, true)), (none(), none(), 0));
    let failed = Err(Error::Jpeg);
    assert_eq!(
        said(report(b"a", &failed, false, false, true)),
        (none(), "ccm-cli: a: not a valid JPEG\n".to_string(), 1)
    );
    assert_eq!(
        said(report(b"a", &failed, true, false, true)),
        ("{\"file\": \"a\", \"error\": \"not a valid JPEG\"}\n".to_string(), none(), 1)
    );
    assert_eq!(said(cannot_read(b"m.ccm", 2)), (none(), "ccm-cli: cannot read m.ccm\n".to_string(), 2));
    assert_eq!(said(bad_model()), (none(), "ccm-cli: bad model file\n".to_string(), 2));
}
