use n1mm_bridge::band::{
    band_center_khz, band_from_khz, band_from_n1mm, band_mhz_str, mode_from_n1mm, mode_to_n1mm,
};
use n1mm_bridge::config::Config;
use n1mm_bridge::contact::{
    call_prefix, msg_qso_contact, parse_tcp_qso, split_timestamp, timestamp_of, DbContact,
};
use n1mm_bridge::message::parse_frame;

fn config() -> Config {
    Config {
        callsign: "KB3GTN".to_string(),
        station: "STN".to_string(),
        contest: "FD".to_string(),
        local_ip: "192.168.1.17".to_string(),
        broadcast: "255.255.255.255".to_string(),
        db_path: "x.db".to_string(),
    }
}

fn contact() -> DbContact {
    DbContact {
        id: 42,
        call: "w1aw".to_string(),
        band: "20M".to_string(),
        mode: "CW".to_string(),
        class: "3a".to_string(),
        section: "ct".to_string(),
        operator: "jo".to_string(),
        date: "2024-06-22".to_string(),
        time: "18:05".to_string(),
    }
}

const ID: &str = "00000000667712340000000000000029";

#[test]
fn contact_message() {
    assert_eq!(
        msg_qso_contact(&config(), &contact(), ID),
        "DATA__00%STN%QSO%1900-01-01 00:00:00%2024-06-22 18:05:00%w1aw%14200.00%14200.00%CW%FD%59%59%K%KB3GTN\
         %%%%0%ct%%0%1%42%1%0%0%%14.0%w%3a%1%jo%%1%0%%NA%%1%%0%0%STN%1%0%00000000667712340000000000000029%1%%~__DATA"
    );
}

#[test]
fn contact_message_has_45_fields() {
    let msg = parse_frame(&msg_qso_contact(&config(), &contact(), ID)).unwrap();
    assert_eq!(msg.command, "QSO");
    assert_eq!(msg.fields.len(), 46);
    let mut c = contact();
    c.id = i64::MIN;
    c.band = "70CM".to_string();
    c.mode = "PH".to_string();
    let msg = parse_frame(&msg_qso_contact(&config(), &c, ID)).unwrap();
    assert_eq!(msg.fields[19], "-9223372036854775808");
    assert_eq!(msg.fields[3], "432100.00");
    assert_eq!(msg.fields[4], "432100.00");
    assert_eq!(msg.fields[24], "420.0");
    assert_eq!(msg.fields[5], "USB");
}

#[test]
fn sent_contacts_come_back() {
    for band in [
        "160M", "80M", "60M", "40M", "30M", "20M", "17M", "15M", "12M", "10M", "6M", "2M", "70CM", "33CM",
    ] {
        for mode in ["CW", "DIG", "PH", "FT8"] {
            let mut c = contact();
            c.band = band.to_string();
            c.mode = mode.to_string();
            let msg = parse_frame(&msg_qso_contact(&config(), &c, ID)).unwrap();
            let got = parse_tcp_qso(&msg.fields).unwrap();
            assert_eq!(got.call, "W1AW");
            assert_eq!(got.band, if band == "33CM" { "20M" } else { band });
            assert_eq!(got.mode, if mode == "FT8" { "PH" } else { mode });
            assert_eq!(got.class, "3A");
            assert_eq!(got.section, "CT");
            assert_eq!(got.operator, "JO");
            assert_eq!(got.date, "2024-06-22");
            assert_eq!(got.time, "18:05");
            assert_eq!(got.n1mm_id, ID);
        }
    }
}

fn fields() -> Vec<String> {
    let mut f = vec![String::new(); 43];
    f[1] = " 2024-06-22 18:05:59 ".to_string();
    f[2] = " k1a ".to_string();
    f[3] = " 7200.55 ".to_string();
    f[5] = " lsb ".to_string();
    f[15] = " mdc ".to_string();
    f[26] = " 1d ".to_string();
    f[28] = " ann ".to_string();
    f[42] = " abc ".to_string();
    f
}

#[test]
fn contact_fields_are_read() {
    let got = parse_tcp_qso(&fields()).unwrap();
    assert_eq!(got.call, "K1A");
    assert_eq!(got.band, "40M");
    assert_eq!(got.mode, "PH");
    assert_eq!(got.class, "1D");
    assert_eq!(got.section, "MDC");
    assert_eq!(got.operator, "ANN");
    assert_eq!(got.date, "2024-06-22");
    assert_eq!(got.time, "18:05");
    assert_eq!(got.n1mm_id, "abc");
}

#[test]
fn bad_contact_fields_are_dropped() {
    let mut f = fields();
    f.pop();
    assert!(parse_tcp_qso(&f).is_none());
    assert!(parse_tcp_qso(&[]).is_none());
    for (place, text) in [(2, "  "), (42, "\t"), (3, ""), (3, "abc"), (3, "999999"), (3, "-7200"), (3, "nan"), (3, "inf")] {
        let mut f = fields();
        f[place] = text.to_string();
        assert!(parse_tcp_qso(&f).is_none(), "{} {}", place, text);
    }
}

#[test]
fn timestamps_are_split() {
    let split = |s: &str| split_timestamp(s);
    let pair = |a: &str, b: &str| (a.to_string(), b.to_string());
    assert_eq!(split("2024-06-22 18:05:59"), pair("2024-06-22", "18:05"));
    assert_eq!(split("2024-06-22"), pair("2024-06-22", "00:00"));
    assert_eq!(split(""), pair("", "00:00"));
    assert_eq!(split("2024-06-22 "), pair("2024-06-22", ""));
    assert_eq!(split("a b c d e f"), pair("a", "b c d"));
    assert_eq!(split("d 1:05"), pair("d", "1:05"));
    // five bytes that end inside a character are not cut
    assert_eq!(split("d 18:0é9"), pair("d", "18:0é9"));
    assert_eq!(split("d 18:é9"), pair("d", "18:é"));
    assert_eq!(timestamp_of(&contact()), "2024-06-22 18:05:00");
}

#[test]
fn call_prefixes() {
    assert_eq!(call_prefix("KB3GTN"), "KB");
    assert_eq!(call_prefix("w1aw"), "w");
    assert_eq!(call_prefix("3DA0RU"), "");
    assert_eq!(call_prefix("ABC"), "ABC");
    assert_eq!(call_prefix("ÄB"), "");
    assert_eq!(call_prefix(""), "");
}

#[test]
fn band_tables() {
    let rows = [
        ("160M", "1.8", 1825, Some("160M")),
        ("80M", "3.5", 3750, Some("80M")),
        ("60M", "5.3", 5357, Some("60M")),
        ("40M", "7.0", 7200, Some("40M")),
        ("30M", "10.1", 10125, Some("30M")),
        ("20M", "14.0", 14200, Some("20M")),
        ("17M", "18.1", 18120, Some("17M")),
        ("15M", "21.0", 21200, Some("15M")),
        ("12M", "24.9", 24920, Some("12M")),
        ("10M", "28.0", 28400, Some("10M")),
        ("6M", "50.0", 50200, Some("6M")),
        ("2M", "144.0", 144200, Some("2M")),
        ("70CM", "420.0", 432100, Some("70CM")),
        ("?", "14.0", 14200, Some("20M")),
    ];
    for (band, edge, center, named) in rows {
        assert_eq!(band_mhz_str(band), edge);
        assert_eq!(band_center_khz(band), center);
        assert_eq!(band_from_n1mm(edge).as_deref(), named);
        if band != "?" {
            assert_eq!(band_from_khz(center).as_deref(), Some(band));
        }
    }
}

#[test]
fn band_fields() {
    for (s, band) in [
        ("160", "160M"), ("80", "80M"), ("60", "60M"), ("40", "40M"), ("30", "30M"), (" 20 ", "20M"), ("17", "17M"),
        ("15", "15M"), ("12", "12M"), ("10", "10M"), ("6", "6M"), ("2", "2M"), ("0.7", "70CM"), ("70cm", "70CM"),
        ("70CM", "70CM"), ("14200.00", "20M"), ("14.0", "20M"), ("1420000", "20M"), ("7.2", "40M"), ("1e4", "?"),
        ("10120", "30M"), ("14.3e0", "20M"), ("+14.1", "20M"), (" 5.3 ", "60M"), ("5.35", "60M"), ("5357.00", "60M"),
    ] {
        assert_eq!(band_from_n1mm(s).as_deref(), if band == "?" { None } else { Some(band) }, "{}", s);
    }
    for s in ["", "x", "20M", "70Cm", "14,0", "0", "-14", "nan", "inf", "1000", "99999", "5.2", "5.32", "5300"] {
        assert!(band_from_n1mm(s).is_none(), "{}", s);
    }
}

#[test]
fn modes() {
    assert_eq!(mode_to_n1mm("CW"), "CW");
    assert_eq!(mode_to_n1mm("DIG"), "DIG");
    assert_eq!(mode_to_n1mm("PH"), "USB");
    assert_eq!(mode_to_n1mm("cw"), "USB");
    for (s, mode) in [
        ("cw", "CW"), (" CW ", "CW"), ("usb", "PH"), ("LSB", "PH"), ("fm", "PH"), ("Am", "PH"), ("RTTY", "DIG"),
        ("FT8", "DIG"), ("", "DIG"), ("CWR", "DIG"),
    ] {
        assert_eq!(mode_from_n1mm(s), mode, "{}", s);
    }
}

#[test]
fn frequencies_name_bands() {
    for khz in (1000u32..100_000).step_by(3) {
        assert_eq!(band_from_n1mm(&format!("{}.00", khz)), band_from_khz(khz));
    }
    for khz in (1000u32..460_000).step_by(7) {
        assert_eq!(band_from_n1mm(&format!("{}00", khz)), band_from_khz(khz));
    }
    assert_eq!(band_from_n1mm("144200.00"), None);
    assert_eq!(band_from_n1mm("14420000").as_deref(), Some("2M"));
}

#[test]
fn calls_beyond_ascii_are_kept() {
    let mut f = fields();
    f[2] = " ß1é ".to_string();
    assert_eq!(parse_tcp_qso(&f).unwrap().call, "SS1É");
}
