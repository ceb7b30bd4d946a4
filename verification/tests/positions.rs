use drone_detection_pipeline::gps::{checksum_ok, read_line, read_sentence, settle_fix};
use drone_detection_pipeline::number::Real64;

const FIX: &str = "$GPGGA,123519,4807.038,N,01131.000,E,1,08,0.9,545.4,M,46.9,M,,*47";

fn framed(body: &str) -> String {
    let sum = body.bytes().fold(0u8, |acc, b| acc ^ b);
    format!("${body}*{sum:02X}")
}

fn gga(lat: &str, ns: &str, lon: &str, ew: &str, quality: &str, satellites: &str) -> String {
    framed(&format!("GNGGA,1,{lat},{ns},{lon},{ew},{quality},{satellites},1.0,12.5,M,0,M,,"))
}

fn double(x: f64) -> Option<Real64> {
    Some(Real64 { bits: x.to_bits() })
}

#[test]
fn checksum_of_a_sentence() {
    assert!(checksum_ok(FIX));
    assert!(!checksum_ok(&FIX.replace("*47", "*48")));
    assert!(!checksum_ok(&FIX.replace("545.4", "545.5")));
    assert!(checksum_ok("$PUBX*37") == framed("PUBX").ends_with("37"));
}

#[test]
fn checksum_needs_a_star_and_two_digits() {
    assert!(!checksum_ok(""));
    assert!(!checksum_ok("$GPGGA"));
    assert!(!checksum_ok("*00"));
    assert!(checksum_ok("$*00"));
    assert!(!checksum_ok("$*0"));
    assert!(!checksum_ok("$*0g"));
    assert!(checksum_ok("$*00 and more"));
}

#[test]
fn checksum_is_two_hexadecimal_digits_of_either_case() {
    assert!(checksum_ok("$J*4A"));
    assert!(checksum_ok("$J*4a"));
    assert!(checksum_ok("$AD*05"));
    assert!(!checksum_ok("$AD*+5"));
    assert!(!checksum_ok("$AD*5"));
    assert!(checksum_ok("$\u{5}*05"));
    assert!(!checksum_ok("$\u{5}*+5"));
    assert!(!checksum_ok("$\u{5}*-5"));
    assert!(!checksum_ok("$\u{5}* 5"));
}

#[test]
fn checksum_runs_up_to_the_last_star() {
    let body = "A*41B";
    assert!(checksum_ok(&framed(body)));
    assert!(checksum_ok("$A*41B"));
    assert!(!checksum_ok("$A*41*41"));
}

#[test]
fn checksum_skips_one_leading_byte_whatever_it_is() {
    assert!(checksum_ok("!A*41"));
    assert!(!checksum_ok("\u{e9}A*41"));
    assert!(checksum_ok(&framed("\u{e9}")));
    assert!(!checksum_ok("$A*\u{e9}"));
}

#[test]
fn every_framed_body_is_accepted() {
    for body in ["", "A", "***", "GPGGA,,,", "\u{20ac}uro", "a,b*c"] {
        assert!(checksum_ok(&framed(body)), "{body}");
    }
}

#[test]
fn fix_is_read() {
    let r = read_sentence(FIX, 4).unwrap();
    assert_eq!(r.lat_degrees, b"48");
    assert_eq!(r.lat_minutes, b"07.038");
    assert_eq!(r.lon_degrees, b"011");
    assert_eq!(r.lon_minutes, b"31.000");
    assert_eq!(r.altitude, b"545.4");
    assert_eq!((r.south, r.west, r.satellites), (false, false, 8));
}

#[test]
fn white_space_around_a_sentence_does_not_matter() {
    assert!(read_line(&format!("  {FIX}\r\n"), 4).is_some());
    assert!(read_line(&format!("\u{3000}{FIX}\u{a0}"), 4).is_some());
    assert!(read_sentence(&format!(" {FIX}"), 4).is_none());
    assert!(read_line("", 0).is_none());
}

#[test]
fn sentence_needs_a_dollar_sign() {
    assert!(read_sentence(&FIX.replace('$', "!"), 4).is_none());
}

#[test]
fn other_kinds_are_passed_over() {
    assert!(read_sentence(&framed("GPRMC,1,4807.038,N,01131.000,E,1,08,1,2,3"), 0).is_none());
    assert!(read_sentence(&framed("GA,1,4807.038,N,01131.000,E,1,08,1,2,3"), 0).is_none());
    assert!(read_sentence(&framed("GGA,1,4807.038,N,01131.000,E,1,08,1,2,3"), 0).is_some());
}

#[test]
fn short_sentences_are_passed_over() {
    assert!(read_sentence(&framed("GPGGA,1,4807.038,N,01131.000,E,1,08,1"), 0).is_none());
    let r = read_sentence(&framed("GPGGA,1,4807.038,N,01131.000,E,1,08,1,2"), 0).unwrap();
    assert_eq!(r.altitude[0], b'2');
    assert_eq!(r.altitude[1], b'*');
}

#[test]
fn invalid_fix_is_passed_over() {
    assert!(read_sentence(&gga("4807.038", "N", "01131.000", "E", "0", "08"), 0).is_none());
    assert!(read_sentence(&gga("4807.038", "N", "01131.000", "E", "", "08"), 0).is_some());
}

#[test]
fn too_few_satellites_are_passed_over() {
    let with = |n: &str| read_sentence(&gga("4807.038", "N", "01131.000", "E", "1", n), 4);
    assert!(with("03").is_none());
    assert_eq!(with("04").unwrap().satellites, 4);
    assert_eq!(with("+12").unwrap().satellites, 12);
    assert_eq!(with("4294967295").unwrap().satellites, u32::MAX);
    assert!(with("4294967296").is_none());
    assert!(with("").is_none());
    assert!(with("+").is_none());
    assert!(with("9x").is_none());
    let any = read_sentence(&gga("4807.038", "N", "01131.000", "E", "1", "x"), 0);
    assert_eq!(any.unwrap().satellites, 0);
}

#[test]
fn coordinates_need_degrees_and_minutes() {
    assert!(read_sentence(&gga("48", "N", "01131.000", "E", "1", "08"), 0).is_none());
    assert!(read_sentence(&gga("487", "N", "011", "E", "1", "08"), 0).is_none());
    let r = read_sentence(&gga("487", "N", "0113", "E", "1", "08"), 0).unwrap();
    assert_eq!((r.lat_minutes, r.lon_minutes), (b"7".to_vec(), b"3".to_vec()));
}

#[test]
fn south_and_west_count_negative() {
    let r = read_sentence(&gga("4807.038", "S", "01131.000", "W", "1", "08"), 0).unwrap();
    assert!(r.south && r.west);
    let fix = settle_fix(&r, double(48.1173), double(11.5166), double(545.4)).unwrap();
    assert_eq!(f64::from_bits(fix.lat.bits), -48.1173);
    assert_eq!(f64::from_bits(fix.lon.bits), -11.5166);
    assert_eq!(f64::from_bits(fix.altitude_m.unwrap().bits), 545.4);
    assert_eq!(fix.satellites, Some(8));
    let r = read_sentence(&gga("4807.038", "s", "01131.000", "", "1", "08"), 0).unwrap();
    assert!(!r.south && !r.west);
    let fix = settle_fix(&r, double(48.1173), double(11.5166), None).unwrap();
    assert_eq!(f64::from_bits(fix.lat.bits), 48.1173);
    assert!(fix.altitude_m.is_none());
}

#[test]
fn fix_needs_both_coordinates() {
    let r = read_sentence(FIX, 4).unwrap();
    assert!(settle_fix(&r, None, double(1.0), None).is_none());
    assert!(settle_fix(&r, double(1.0), None, None).is_none());
}
