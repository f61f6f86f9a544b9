use n1mm_bridge::band::{band_center_khz, band_from_khz, band_from_n1mm, band_mhz_str};
use n1mm_bridge::number::{parse_scaled, parse_whole};

fn float_whole(s: &str) -> u32 {
    s.parse::<f64>().unwrap_or(0.0) as u32
}

fn float_scaled(s: &str) -> Option<u32> {
    let f: f64 = s.parse().ok()?;
    let khz = if f >= 100_000.0 {
        f / 100.0
    } else if f >= 1_000.0 {
        f
    } else {
        f * 1_000.0
    };
    Some(khz as u32)
}

fn agree(s: &str) {
    assert_eq!(parse_whole(s), float_whole(s), "{}", s);
    assert_eq!(parse_scaled(s), float_scaled(s), "{}", s);
}

#[test]
fn numbers_are_read_as_binary64() {
    for s in [
        "14200.00", "14.0", "1420000", "0", "-1", "+7", "", "+", "-", ".", "1.", ".5", "+.5", "-.5e1", "1e3", "1E3",
        "1e+3", "1e-3", "1e", "1e+", "e5", ".e5", "1.e5", "1..2", "1e5e5", "1e5.0", "nan", "NaN", "-nan", "+NAN",
        "inf", "-inf", "+Inf", "INFINITY", "-infinity", "infinit", "infinityy", "1_000", "0x10", " 1", "1 ",
        "1e400", "-1e400", "1e-400", "4294967295", "4294967296", "4294967295.9999999999",
        "4294967294.99999999999999999999", "429496729599", "429496729500", "429496729600", "1e16", "9007199254740993",
        "1799.9999999999999", "1799.99999999999988", "1799.99999999999989", "1799.999999999999886313",
        "1799.9999999999998863131622783839702606201171875", "1799.99999999999988631316227838397026062011718751",
        "1799.99999999999988631316227838397026062011718749", "0.99999999999999994", "0.99999999999999995",
        "0.999999999999999944488848768742172978818416595458984375",
        "0.9999999999999999444888487687421729788184165954589843750001", "99999.99999999999", "99999.999999999993",
        "99999.9999999999927", "99999.99999999999272404238581657409667968750", "999.9999999999999", "999.99999999999994",
        "999.99999999999995", "999.9999999999999431566", "1e-20", "1e-21", "1e-5", "0.0009999999999999999",
        "0.001", "0.00099999999999999999", "10.1", "18.1", "24.9", "5.3", "1.8", "0.1e2", "000014.0", "0.0000000000000000000000000001",
        "1e99999999999999999999999999999999999999999999", "1e-99999999999999999999999999999999999999999999",
        "0e99999999999999999999999999999999999999999999", "180099.99999999997", "180099.99999999998", "180099.99999999999",
        "1.8e0", "1.8e1", "\u{661}", "１", "1e１",
    ] {
        agree(s);
    }
}

#[test]
fn many_decimals_are_read_as_binary64() {
    let mut x: u64 = 88172645463325252;
    for round in 0..20000u64 {
        x ^= x << 13;
        x ^= x >> 7;
        x ^= x << 17;
        let whole = x % [10, 1000, 100_000, 10_000_000, u64::MAX / 4][(round % 5) as usize];
        let places = (x >> 20) % 25;
        let mut s = whole.to_string();
        if places > 0 {
            s.push('.');
            let mut y = x;
            for _ in 0..places {
                y = y.wrapping_mul(6364136223846793005).wrapping_add(1442695040888963407);
                let nine = round % 3 == 0;
                s.push(if nine { '9' } else { (b'0' + ((y >> 40) % 10) as u8) as char });
            }
        }
        agree(&s);
        if round % 7 == 0 {
            let e = ((x >> 33) % 40) as i64 - 20;
            agree(&format!("{}e{}", s, e));
        }
    }
}

#[test]
fn scaled_numbers_meet_their_thresholds() {
    for khz in 0..2000u32 {
        for tail in ["", ".0", ".001", ".5", ".999", ".9999999999999", ".99999999999999999"] {
            agree(&format!("{}{}", khz, tail));
            agree(&format!("0.{:03}{}", khz % 1000, tail.replace('.', "")));
            agree(&format!("{}{}", khz + 99_000, tail));
            agree(&format!("{}{}", (khz + 1700) * 100, tail));
        }
    }
}

#[test]
fn bands_by_frequency() {
    assert_eq!(band_from_khz(1799), None);
    assert_eq!(band_from_khz(1800).as_deref(), Some("160M"));
    assert_eq!(band_from_khz(2000).as_deref(), Some("160M"));
    assert_eq!(band_from_khz(2001), None);
    assert_eq!(band_from_khz(450_000).as_deref(), Some("70CM"));
    assert_eq!(band_from_khz(450_001), None);
    assert_eq!(band_center_khz("60M"), 5357);
    assert_eq!(band_mhz_str("60M"), "5.3");
    assert_eq!(band_from_n1mm("5.3").as_deref(), Some("60M"));
    assert_eq!(band_from_n1mm(" 14.0 ").as_deref(), Some("20M"));
}
