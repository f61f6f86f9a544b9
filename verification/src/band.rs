//! Bands and modes, as the contact database and as N1MM+ name them.

use vstd::prelude::*;

use crate::number::{
    bottom, digit_values, num, number, parse_scaled, scaled_part, top, Number,
};
use crate::rounding::bits;
use crate::text::{decimal, is_digit, opt_view, same, trim, trimmed, uppercase};

verus! {

/// The bands that the contact database knows.
pub open spec fn is_band(b: Seq<char>) -> bool {
    ||| b == "160M"@
    ||| b == "80M"@
    ||| b == "60M"@
    ||| b == "40M"@
    ||| b == "30M"@
    ||| b == "20M"@
    ||| b == "17M"@
    ||| b == "15M"@
    ||| b == "12M"@
    ||| b == "10M"@
    ||| b == "6M"@
    ||| b == "2M"@
    ||| b == "70CM"@
}

/// The lower edge of a band in megahertz, as N1MM+ writes it.
pub open spec fn band_mhz(b: Seq<char>) -> Seq<char> {
    if b == "160M"@ {
        "1.8"@
    } else if b == "80M"@ {
        "3.5"@
    } else if b == "60M"@ {
        "5.3"@
    } else if b == "40M"@ {
        "7.0"@
    } else if b == "30M"@ {
        "10.1"@
    } else if b == "20M"@ {
        "14.0"@
    } else if b == "17M"@ {
        "18.1"@
    } else if b == "15M"@ {
        "21.0"@
    } else if b == "12M"@ {
        "24.9"@
    } else if b == "10M"@ {
        "28.0"@
    } else if b == "6M"@ {
        "50.0"@
    } else if b == "2M"@ {
        "144.0"@
    } else if b == "70CM"@ {
        "420.0"@
    } else {
        "14.0"@
    }
}

/// The lower edge of a band in megahertz, as N1MM+ writes it.
pub fn band_mhz_str(b: &str) -> (r: &'static str)
    ensures
        r@ == band_mhz(b@),
{
    if same(b, "160M") {
        "1.8"
    } else if same(b, "80M") {
        "3.5"
    } else if same(b, "60M") {
        "5.3"
    } else if same(b, "40M") {
        "7.0"
    } else if same(b, "30M") {
        "10.1"
    } else if same(b, "20M") {
        "14.0"
    } else if same(b, "17M") {
        "18.1"
    } else if same(b, "15M") {
        "21.0"
    } else if same(b, "12M") {
        "24.9"
    } else if same(b, "10M") {
        "28.0"
    } else if same(b, "6M") {
        "50.0"
    } else if same(b, "2M") {
        "144.0"
    } else if same(b, "70CM") {
        "420.0"
    } else {
        "14.0"
    }
}

/// A frequency in the middle of a band, in kilohertz.
pub open spec fn center_khz(b: Seq<char>) -> u32 {
    if b == "160M"@ {
        1825
    } else if b == "80M"@ {
        3750
    } else if b == "60M"@ {
        5357
    } else if b == "40M"@ {
        7200
    } else if b == "30M"@ {
        10_125
    } else if b == "20M"@ {
        14_200
    } else if b == "17M"@ {
        18_120
    } else if b == "15M"@ {
        21_200
    } else if b == "12M"@ {
        24_920
    } else if b == "10M"@ {
        28_400
    } else if b == "6M"@ {
        50_200
    } else if b == "2M"@ {
        144_200
    } else if b == "70CM"@ {
        432_100
    } else {
        14_200
    }
}

/// A frequency in the middle of a band, in kilohertz.
pub fn band_center_khz(b: &str) -> (r: u32)
    ensures
        r == center_khz(b@),
{
    if same(b, "160M") {
        1825
    } else if same(b, "80M") {
        3750
    } else if same(b, "60M") {
        5357
    } else if same(b, "40M") {
        7200
    } else if same(b, "30M") {
        10_125
    } else if same(b, "20M") {
        14_200
    } else if same(b, "17M") {
        18_120
    } else if same(b, "15M") {
        21_200
    } else if same(b, "12M") {
        24_920
    } else if same(b, "10M") {
        28_400
    } else if same(b, "6M") {
        50_200
    } else if same(b, "2M") {
        144_200
    } else if same(b, "70CM") {
        432_100
    } else {
        14_200
    }
}

/// The band that a frequency in kilohertz lies in.
pub open spec fn band_at(khz: u32) -> Option<Seq<char>> {
    if 1800 <= khz <= 2000 {
        Some("160M"@)
    } else if 3500 <= khz <= 4000 {
        Some("80M"@)
    } else if 5330 <= khz <= 5407 {
        Some("60M"@)
    } else if 7000 <= khz <= 7300 {
        Some("40M"@)
    } else if 10_100 <= khz <= 10_150 {
        Some("30M"@)
    } else if 14_000 <= khz <= 14_350 {
        Some("20M"@)
    } else if 18_068 <= khz <= 18_168 {
        Some("17M"@)
    } else if 21_000 <= khz <= 21_450 {
        Some("15M"@)
    } else if 24_890 <= khz <= 24_990 {
        Some("12M"@)
    } else if 28_000 <= khz <= 29_700 {
        Some("10M"@)
    } else if 50_000 <= khz <= 54_000 {
        Some("6M"@)
    } else if 144_000 <= khz <= 148_000 {
        Some("2M"@)
    } else if 420_000 <= khz <= 450_000 {
        Some("70CM"@)
    } else {
        None
    }
}

/// The band that a frequency in kilohertz lies in.
pub fn band_from_khz(khz: u32) -> (r: Option<String>)
    ensures
        opt_view(r) == band_at(khz),
{
    if 1800 <= khz && khz <= 2000 {
        Some("160M".to_owned())
    } else if 3500 <= khz && khz <= 4000 {
        Some("80M".to_owned())
    } else if 5330 <= khz && khz <= 5407 {
        Some("60M".to_owned())
    } else if 7000 <= khz && khz <= 7300 {
        Some("40M".to_owned())
    } else if 10_100 <= khz && khz <= 10_150 {
        Some("30M".to_owned())
    } else if 14_000 <= khz && khz <= 14_350 {
        Some("20M".to_owned())
    } else if 18_068 <= khz && khz <= 18_168 {
        Some("17M".to_owned())
    } else if 21_000 <= khz && khz <= 21_450 {
        Some("15M".to_owned())
    } else if 24_890 <= khz && khz <= 24_990 {
        Some("12M".to_owned())
    } else if 28_000 <= khz && khz <= 29_700 {
        Some("10M".to_owned())
    } else if 50_000 <= khz && khz <= 54_000 {
        Some("6M".to_owned())
    } else if 144_000 <= khz && khz <= 148_000 {
        Some("2M".to_owned())
    } else if 420_000 <= khz && khz <= 450_000 {
        Some("70CM".to_owned())
    } else {
        None
    }
}

/// The band with a name in meters, as N1MM+ writes it.
pub open spec fn band_in_meters(s: Seq<char>) -> Option<Seq<char>> {
    if s == "160"@ {
        Some("160M"@)
    } else if s == "80"@ {
        Some("80M"@)
    } else if s == "60"@ {
        Some("60M"@)
    } else if s == "40"@ {
        Some("40M"@)
    } else if s == "30"@ {
        Some("30M"@)
    } else if s == "20"@ {
        Some("20M"@)
    } else if s == "17"@ {
        Some("17M"@)
    } else if s == "15"@ {
        Some("15M"@)
    } else if s == "12"@ {
        Some("12M"@)
    } else if s == "10"@ {
        Some("10M"@)
    } else if s == "6"@ {
        Some("6M"@)
    } else if s == "2"@ {
        Some("2M"@)
    } else if s == "0.7"@ || s == "70cm"@ || s == "70CM"@ {
        Some("70CM"@)
    } else {
        None
    }
}

/// The band with a name in meters, as N1MM+ writes it.
fn band_by_meters(s: &str) -> (r: Option<String>)
    ensures
        opt_view(r) == band_in_meters(s@),
{
    if same(s, "160") {
        Some("160M".to_owned())
    } else if same(s, "80") {
        Some("80M".to_owned())
    } else if same(s, "60") {
        Some("60M".to_owned())
    } else if same(s, "40") {
        Some("40M".to_owned())
    } else if same(s, "30") {
        Some("30M".to_owned())
    } else if same(s, "20") {
        Some("20M".to_owned())
    } else if same(s, "17") {
        Some("17M".to_owned())
    } else if same(s, "15") {
        Some("15M".to_owned())
    } else if same(s, "12") {
        Some("12M".to_owned())
    } else if same(s, "10") {
        Some("10M".to_owned())
    } else if same(s, "6") {
        Some("6M".to_owned())
    } else if same(s, "2") {
        Some("2M".to_owned())
    } else if same(s, "0.7") || same(s, "70cm") || same(s, "70CM") {
        Some("70CM".to_owned())
    } else {
        None
    }
}

/// The band that a band field of N1MM+ names: in meters, or else by a frequency in megahertz,
/// in kilohertz or in tens of hertz. The lower edge that N1MM+ writes for 60M lies below the
/// frequencies of the band, and is known by its text.
pub open spec fn band_named(s: Seq<char>) -> Option<Seq<char>> {
    let t = trimmed(s);
    match band_in_meters(t) {
        Some(b) => Some(b),
        None => if t == "5.3"@ {
            Some("60M"@)
        } else {
            match number(t) {
                Some(n) => band_at(scaled_part(n)),
                None => None,
            }
        },
    }
}

/// Maps a band field of N1MM+ to a band of the contact database.
pub fn band_from_n1mm(s: &str) -> (r: Option<String>)
    ensures
        opt_view(r) == band_named(s@),
{
    let t: String = trim(s);
    match band_by_meters(t.as_str()) {
        Some(b) => Some(b),
        None => if same(t.as_str(), "5.3") {
            Some("60M".to_owned())
        } else {
            match parse_scaled(t.as_str()) {
                Some(khz) => band_from_khz(khz),
                None => None,
            }
        },
    }
}

/// The mode that N1MM+ has for a mode of the contact database.
pub open spec fn n1mm_mode(m: Seq<char>) -> Seq<char> {
    if m == "CW"@ {
        "CW"@
    } else if m == "DIG"@ {
        "DIG"@
    } else {
        "USB"@
    }
}

/// Maps a mode of the contact database (PH, CW or DIG) to a mode of N1MM+.
pub fn mode_to_n1mm(m: &str) -> (r: &'static str)
    ensures
        r@ == n1mm_mode(m@),
{
    if same(m, "CW") {
        "CW"
    } else if same(m, "DIG") {
        "DIG"
    } else {
        "USB"
    }
}

/// The mode of the contact database for a mode of N1MM+.
pub open spec fn log_mode(s: Seq<char>) -> Seq<char> {
    let u = uppercase(trimmed(s));
    if u == "CW"@ {
        "CW"@
    } else if u == "USB"@ || u == "LSB"@ || u == "FM"@ || u == "AM"@ {
        "PH"@
    } else {
        "DIG"@
    }
}

/// Maps a mode of N1MM+ to a mode of the contact database: PH, CW or DIG.
pub fn mode_from_n1mm(s: &str) -> (r: String)
    ensures
        r@ == log_mode(s@),
{
    let t: String = trim(s);
    let u: String = t.as_str().to_uppercase();
    if same(u.as_str(), "CW") {
        "CW".to_owned()
    } else if same(u.as_str(), "USB") || same(u.as_str(), "LSB") || same(u.as_str(), "FM") || same(
        u.as_str(),
        "AM",
    ) {
        "PH".to_owned()
    } else {
        "DIG".to_owned()
    }
}

// ---------------------------------------------------------------------------
// Laws
// ---------------------------------------------------------------------------

/// The frequency in the middle of a band lies in that band; that of a band which the
/// database does not know lies in 20M.
pub proof fn center_lies_in_band(b: Seq<char>)
    ensures
        is_band(b) ==> band_at(center_khz(b)) == Some(b),
        !is_band(b) ==> band_at(center_khz(b)) == Some("20M"@),
{
}

/// Every band that a frequency or a band field maps to is one that the database knows.
pub proof fn mapped_bands_are_known(khz: u32, s: Seq<char>)
    ensures
        band_at(khz) matches Some(b) ==> is_band(b),
        band_named(s) matches Some(b) ==> is_band(b),
{
}

/// A mode goes through N1MM+ and back as itself; what is neither CW nor DIG comes back as PH.
pub proof fn mode_comes_back(m: Seq<char>)
    ensures
        log_mode(n1mm_mode(m)) == (if m == "CW"@ || m == "DIG"@ {
            m
        } else {
            "PH"@
        }),
{
    reveal_strlit("CW");
    reveal_strlit("DIG");
    reveal_strlit("USB");
    reveal_strlit("LSB");
    reveal_strlit("FM");
    reveal_strlit("AM");
    let s = n1mm_mode(m);
    crate::text::lemma_trimmed_unchanged(s);
    assert(vstd::utf8::is_ascii_chars(s));
    assert(uppercase(s) =~= s);
    assert("CW"@.len() == 2 && "FM"@.len() == 2 && "AM"@.len() == 2);
    assert("CW"@[0] == 'C' && "FM"@[0] == 'F' && "AM"@[0] == 'A');
    assert("DIG"@[0] == 'D' && "USB"@[0] == 'U' && "LSB"@[0] == 'L');
}

/// The lower edge of a band, as N1MM+ writes it, names that band; that of a band which the
/// database does not know names 20M.
pub proof fn edge_names_band(b: Seq<char>)
    ensures
        is_band(b) ==> band_named(band_mhz(b)) == Some(b),
        !is_band(b) ==> band_named(band_mhz(b)) == Some("20M"@),
{
    lemma_lower_edges();
    lemma_middle_edges();
    lemma_upper_edges();
    lemma_60m_edge();
    if b == "60M"@ {
        lemma_band_letters();
    }
}

/// What the lower edges name that lie in their bands.
proof fn lemma_lower_edges()
    ensures
        band_named("1.8"@) == Some("160M"@),
        band_named("3.5"@) == Some("80M"@),
        band_named("7.0"@) == Some("40M"@),
        band_named("10.1"@) == Some("30M"@),
{
    reveal_strlit("5.3");
    assert("5.3"@.len() == 3 && "5.3"@[0] == '5');
    reveal_strlit("1.8");
    assert("1.8"@[0] == '1');
    assert(num(seq![1u8, 8u8]) == 18) by {
        reveal_with_fuel(num, 6);
    }
    assert(bits(1800) == bits(1) + 10) by {
        reveal_with_fuel(bits, 24);
    }
    lemma_tenths_named("1.8"@, seq![1u8, 8u8], 18);
    reveal_strlit("3.5");
    assert("3.5"@[0] == '3');
    assert(num(seq![3u8, 5u8]) == 35) by {
        reveal_with_fuel(num, 6);
    }
    assert(bits(3500) == bits(3) + 10) by {
        reveal_with_fuel(bits, 24);
    }
    lemma_tenths_named("3.5"@, seq![3u8, 5u8], 35);
    reveal_strlit("7.0");
    assert("7.0"@[0] == '7');
    assert(num(seq![7u8, 0u8]) == 70) by {
        reveal_with_fuel(num, 6);
    }
    assert(bits(7000) == bits(7) + 10) by {
        reveal_with_fuel(bits, 24);
    }
    lemma_tenths_named("7.0"@, seq![7u8, 0u8], 70);
    reveal_strlit("10.1");
    assert(num(seq![1u8, 0u8, 1u8]) == 101) by {
        reveal_with_fuel(num, 6);
    }
    assert(bits(10100) == bits(10) + 10) by {
        reveal_with_fuel(bits, 24);
    }
    lemma_tenths_named("10.1"@, seq![1u8, 0u8, 1u8], 101);
}

proof fn lemma_middle_edges()
    ensures
        band_named("14.0"@) == Some("20M"@),
        band_named("18.1"@) == Some("17M"@),
        band_named("21.0"@) == Some("15M"@),
        band_named("24.9"@) == Some("12M"@),
{
    reveal_strlit("5.3");
    assert("5.3"@.len() == 3 && "5.3"@[0] == '5');
    reveal_strlit("14.0");
    assert(num(seq![1u8, 4u8, 0u8]) == 140) by {
        reveal_with_fuel(num, 6);
    }
    assert(bits(14000) == bits(14) + 10) by {
        reveal_with_fuel(bits, 24);
    }
    lemma_tenths_named("14.0"@, seq![1u8, 4u8, 0u8], 140);
    reveal_strlit("18.1");
    assert(num(seq![1u8, 8u8, 1u8]) == 181) by {
        reveal_with_fuel(num, 6);
    }
    assert(bits(18100) == bits(18) + 10) by {
        reveal_with_fuel(bits, 24);
    }
    lemma_tenths_named("18.1"@, seq![1u8, 8u8, 1u8], 181);
    reveal_strlit("21.0");
    assert(num(seq![2u8, 1u8, 0u8]) == 210) by {
        reveal_with_fuel(num, 6);
    }
    assert(bits(21000) == bits(21) + 10) by {
        reveal_with_fuel(bits, 24);
    }
    lemma_tenths_named("21.0"@, seq![2u8, 1u8, 0u8], 210);
    reveal_strlit("24.9");
    assert(num(seq![2u8, 4u8, 9u8]) == 249) by {
        reveal_with_fuel(num, 6);
    }
    assert(bits(24900) == bits(24) + 10) by {
        reveal_with_fuel(bits, 24);
    }
    lemma_tenths_named("24.9"@, seq![2u8, 4u8, 9u8], 249);
}

proof fn lemma_upper_edges()
    ensures
        band_named("28.0"@) == Some("10M"@),
        band_named("50.0"@) == Some("6M"@),
        band_named("144.0"@) == Some("2M"@),
        band_named("420.0"@) == Some("70CM"@),
{
    reveal_strlit("5.3");
    assert("5.3"@.len() == 3 && "5.3"@[0] == '5');
    reveal_strlit("28.0");
    assert(num(seq![2u8, 8u8, 0u8]) == 280) by {
        reveal_with_fuel(num, 6);
    }
    assert(bits(28000) == bits(28) + 10) by {
        reveal_with_fuel(bits, 24);
    }
    lemma_tenths_named("28.0"@, seq![2u8, 8u8, 0u8], 280);
    reveal_strlit("50.0");
    assert(num(seq![5u8, 0u8, 0u8]) == 500) by {
        reveal_with_fuel(num, 6);
    }
    assert(bits(50000) == bits(50) + 10) by {
        reveal_with_fuel(bits, 24);
    }
    lemma_tenths_named("50.0"@, seq![5u8, 0u8, 0u8], 500);
    reveal_strlit("144.0");
    assert(num(seq![1u8, 4u8, 4u8, 0u8]) == 1440) by {
        reveal_with_fuel(num, 6);
    }
    assert(bits(144000) == bits(144) + 10) by {
        reveal_with_fuel(bits, 24);
    }
    lemma_tenths_named("144.0"@, seq![1u8, 4u8, 4u8, 0u8], 1440);
    reveal_strlit("420.0");
    assert(num(seq![4u8, 2u8, 0u8, 0u8]) == 4200) by {
        reveal_with_fuel(num, 6);
    }
    assert(bits(420000) == bits(420) + 10) by {
        reveal_with_fuel(bits, 24);
    }
    lemma_tenths_named("420.0"@, seq![4u8, 2u8, 0u8, 0u8], 4200);
}

/// The lower edge of 60M is known by its text.
proof fn lemma_60m_edge()
    ensures
        band_named("5.3"@) == Some("60M"@),
{
    reveal_strlit("5.3");
    let s = "5.3"@;
    assert(s[0] == '5' && s[1] == '.' && s[2] == '3');
    crate::text::lemma_trimmed_unchanged(s);
    lemma_edge_is_no_meter(s);
}

/// A band is given for the frequencies between its edges, both included, and for no others; where
/// no band has its edges around a frequency, none is given.
pub proof fn bands_have_their_edges(khz: u32)
    ensures
        band_at(khz) == Some("160M"@) <==> 1800 <= khz <= 2000,
        band_at(khz) == Some("80M"@) <==> 3500 <= khz <= 4000,
        band_at(khz) == Some("60M"@) <==> 5330 <= khz <= 5407,
        band_at(khz) == Some("40M"@) <==> 7000 <= khz <= 7300,
        band_at(khz) == Some("30M"@) <==> 10_100 <= khz <= 10_150,
        band_at(khz) == Some("20M"@) <==> 14_000 <= khz <= 14_350,
        band_at(khz) == Some("17M"@) <==> 18_068 <= khz <= 18_168,
        band_at(khz) == Some("15M"@) <==> 21_000 <= khz <= 21_450,
        band_at(khz) == Some("12M"@) <==> 24_890 <= khz <= 24_990,
        band_at(khz) == Some("10M"@) <==> 28_000 <= khz <= 29_700,
        band_at(khz) == Some("6M"@) <==> 50_000 <= khz <= 54_000,
        band_at(khz) == Some("2M"@) <==> 144_000 <= khz <= 148_000,
        band_at(khz) == Some("70CM"@) <==> 420_000 <= khz <= 450_000,
        band_at(khz) matches Some(b) ==> is_band(b),
{
    lemma_band_letters();
}

/// The bands that the database knows are those that some frequency lies in.
pub proof fn known_bands_have_frequencies(b: Seq<char>)
    ensures
        is_band(b) <==> exists|khz: u32| band_at(khz) == Some(b),
{
    if is_band(b) {
        center_lies_in_band(b);
    }
    if exists|khz: u32| band_at(khz) == Some(b) {
        let khz = choose|khz: u32| band_at(khz) == Some(b);
        mapped_bands_are_known(khz, b);
    }
}

/// How the names of bands begin, which tells them apart.
proof fn lemma_band_letters()
    ensures
        "160M"@.len() == 4 && "160M"@[0] == '1' && "160M"@[1] == '6',
        "80M"@.len() == 3 && "80M"@[0] == '8' && "80M"@[1] == '0',
        "60M"@.len() == 3 && "60M"@[0] == '6' && "60M"@[1] == '0',
        "40M"@.len() == 3 && "40M"@[0] == '4' && "40M"@[1] == '0',
        "30M"@.len() == 3 && "30M"@[0] == '3' && "30M"@[1] == '0',
        "20M"@.len() == 3 && "20M"@[0] == '2' && "20M"@[1] == '0',
        "17M"@.len() == 3 && "17M"@[0] == '1' && "17M"@[1] == '7',
        "15M"@.len() == 3 && "15M"@[0] == '1' && "15M"@[1] == '5',
        "12M"@.len() == 3 && "12M"@[0] == '1' && "12M"@[1] == '2',
        "10M"@.len() == 3 && "10M"@[0] == '1' && "10M"@[1] == '0',
        "6M"@.len() == 2 && "6M"@[0] == '6' && "6M"@[1] == 'M',
        "2M"@.len() == 2 && "2M"@[0] == '2' && "2M"@[1] == 'M',
        "70CM"@.len() == 4 && "70CM"@[0] == '7' && "70CM"@[1] == '0',
{
    reveal_strlit("160M");
    reveal_strlit("80M");
    reveal_strlit("60M");
    reveal_strlit("40M");
    reveal_strlit("30M");
    reveal_strlit("20M");
    reveal_strlit("17M");
    reveal_strlit("15M");
    reveal_strlit("12M");
    reveal_strlit("10M");
    reveal_strlit("6M");
    reveal_strlit("2M");
    reveal_strlit("70CM");
}

/// The names in meters, white space around them aside, name their bands.
pub proof fn meters_name_bands(s: Seq<char>)
    ensures
        trimmed(s) == "160"@ ==> band_named(s) == Some("160M"@),
        trimmed(s) == "80"@ ==> band_named(s) == Some("80M"@),
        trimmed(s) == "60"@ ==> band_named(s) == Some("60M"@),
        trimmed(s) == "40"@ ==> band_named(s) == Some("40M"@),
        trimmed(s) == "30"@ ==> band_named(s) == Some("30M"@),
        trimmed(s) == "20"@ ==> band_named(s) == Some("20M"@),
        trimmed(s) == "17"@ ==> band_named(s) == Some("17M"@),
        trimmed(s) == "15"@ ==> band_named(s) == Some("15M"@),
        trimmed(s) == "12"@ ==> band_named(s) == Some("12M"@),
        trimmed(s) == "10"@ ==> band_named(s) == Some("10M"@),
        trimmed(s) == "6"@ ==> band_named(s) == Some("6M"@),
        trimmed(s) == "2"@ ==> band_named(s) == Some("2M"@),
        trimmed(s) == "0.7"@ ==> band_named(s) == Some("70CM"@),
        trimmed(s) == "70cm"@ ==> band_named(s) == Some("70CM"@),
        trimmed(s) == "70CM"@ ==> band_named(s) == Some("70CM"@),
        trimmed(s) == "5.3"@ ==> band_named(s) == Some("60M"@),
        band_in_meters(trimmed(s)) is Some <==> (trimmed(s) == "160"@ || trimmed(s) == "80"@ || trimmed(s) == "60"@ || trimmed(s) == "40"@ || trimmed(s) == "30"@ || trimmed(s) == "20"@ || trimmed(s) == "17"@ || trimmed(s) == "15"@ || trimmed(s) == "12"@ || trimmed(s) == "10"@ || trimmed(s) == "6"@ || trimmed(s) == "2"@ || trimmed(s) == "0.7"@ || trimmed(s) == "70cm"@ || trimmed(s) == "70CM"@),
{
    reveal_strlit("5.3");
    assert("5.3"@.len() == 3 && "5.3"@[0] == '5');
    reveal_strlit("160");
    assert("160"@.len() == 3 && "160"@[0] == '1' && "160"@[1] == '6' && "160"@[2] == '0');
    reveal_strlit("80");
    assert("80"@.len() == 2 && "80"@[0] == '8' && "80"@[1] == '0');
    reveal_strlit("60");
    assert("60"@.len() == 2 && "60"@[0] == '6' && "60"@[1] == '0');
    reveal_strlit("40");
    assert("40"@.len() == 2 && "40"@[0] == '4' && "40"@[1] == '0');
    reveal_strlit("30");
    assert("30"@.len() == 2 && "30"@[0] == '3' && "30"@[1] == '0');
    reveal_strlit("20");
    assert("20"@.len() == 2 && "20"@[0] == '2' && "20"@[1] == '0');
    reveal_strlit("17");
    assert("17"@.len() == 2 && "17"@[0] == '1' && "17"@[1] == '7');
    reveal_strlit("15");
    assert("15"@.len() == 2 && "15"@[0] == '1' && "15"@[1] == '5');
    reveal_strlit("12");
    assert("12"@.len() == 2 && "12"@[0] == '1' && "12"@[1] == '2');
    reveal_strlit("10");
    assert("10"@.len() == 2 && "10"@[0] == '1' && "10"@[1] == '0');
    reveal_strlit("6");
    assert("6"@.len() == 1 && "6"@[0] == '6');
    reveal_strlit("2");
    assert("2"@.len() == 1 && "2"@[0] == '2');
    reveal_strlit("0.7");
    assert("0.7"@.len() == 3 && "0.7"@[0] == '0' && "0.7"@[1] == '.' && "0.7"@[2] == '7');
    reveal_strlit("70cm");
    assert("70cm"@.len() == 4 && "70cm"@[0] == '7' && "70cm"@[1] == '0' && "70cm"@[2] == 'c' && "70cm"@[3] == 'm');
    reveal_strlit("70CM");
    assert("70CM"@.len() == 4 && "70CM"@[0] == '7' && "70CM"@[1] == '0' && "70CM"@[2] == 'C' && "70CM"@[3] == 'M');
}

/// White space around a band or a mode does not matter.
pub proof fn white_space_does_not_matter(s: Seq<char>)
    ensures
        band_named(s) == band_named(trimmed(s)),
        log_mode(s) == log_mode(trimmed(s)),
{
    crate::text::trimmed_has_visible_ends(s);
    crate::text::lemma_trimmed_unchanged(trimmed(s));
}

/// Two spellings of one number name the same band, unless one of them is a name of its own.
pub proof fn spelling_does_not_matter(s: Seq<char>, t: Seq<char>)
    requires
        number(trimmed(s)) == number(trimmed(t)),
        band_in_meters(trimmed(s)) is None && trimmed(s) != "5.3"@,
        band_in_meters(trimmed(t)) is None && trimmed(t) != "5.3"@,
    ensures
        band_named(s) == band_named(t),
{
}

/// A number that is no name of its own names the band of the frequency that it gives. From 1000
/// up to 100000 it gives kilohertz, from there up tens of hertz, and below megahertz; what is
/// above a whole number of kilohertz by nine tenths at most is cut off. In megahertz, the
/// precision of the number may cost one kilohertz, unless they are whole.
pub proof fn frequency_names_band(s: Seq<char>, digits: nat, exponent: int, khz: u32)
    requires
        number(trimmed(s)) == Some(Number::Finite { negative: false, digits, exponent }),
        band_in_meters(trimmed(s)) is None && trimmed(s) != "5.3"@,
    ensures
        1000 <= khz < 100_000 && khz * bottom(exponent) <= top(digits, exponent) && 10 * top(
            digits,
            exponent,
        ) <= (10 * khz + 9) * bottom(exponent) ==> band_named(s) == band_at(khz),
        1000 <= khz && 100 * khz * bottom(exponent) <= top(digits, exponent) <= (100 * khz + 90)
            * bottom(exponent) ==> band_named(s) == band_at(khz),
        0 < khz < 1_000_000 && khz * bottom(exponent) <= 1000 * top(digits, exponent) && 10_000
            * top(digits, exponent) <= (10 * khz + 9) * bottom(exponent) ==> {
            ||| band_named(s) == band_at(khz)
            ||| band_named(s) == band_at((khz - 1) as u32) && (khz % 1000 != 0 || 1000 * top(
                digits,
                exponent,
            ) != khz * bottom(exponent))
        },
{
    let a = top(digits, exponent);
    let b = bottom(exponent);
    if 1000 <= khz < 100_000 && khz * b <= a && 10 * a <= (10 * khz + 9) * b {
        crate::number::kilohertz_are_cut(digits, exponent, khz as nat);
    }
    if 1000 <= khz && 100 * khz * b <= a <= (100 * khz + 90) * b {
        crate::number::tens_of_hertz_are_cut(digits, exponent, khz as nat);
    }
    if 0 < khz < 1_000_000 && khz * b <= 1000 * a && 10_000 * a <= (10 * khz + 9) * b {
        crate::number::megahertz_are_cut(digits, exponent, khz as nat);
    }
}

/// What is no number, or one below zero, and is no name of its own, names no band.
pub proof fn what_is_no_frequency_names_no_band(s: Seq<char>)
    requires
        band_in_meters(trimmed(s)) is None && trimmed(s) != "5.3"@,
        match number(trimmed(s)) {
            Some(Number::Finite { negative, .. }) => negative,
            _ => true,
        },
    ensures
        band_named(s) is None,
{
}

/// A whole number of megahertz below 1000 that is no name in meters names the band that it lies
/// in.
pub proof fn whole_megahertz_name_band(m: nat)
    requires
        m < 1000,
        m != 160 && m != 80 && m != 60 && m != 40 && m != 30 && m != 20,
        m != 17 && m != 15 && m != 12 && m != 10 && m != 6 && m != 2,
    ensures
        band_named(decimal(m)) == band_at((1000 * m) as u32),
{
    let d = decimal(m);
    crate::number::lemma_decimal_digits(m);
    assert(is_digit(d[0]) && is_digit(d[d.len() - 1]));
    crate::text::lemma_trimmed_unchanged(d);
    crate::number::lemma_number_of_digits(d);
    lemma_digits_no_meter(m);
    if m == 0 {
        crate::number::lemma_zero_is_read();
    } else {
        assert(crate::number::pow10(0) == 1);
        assert(top(m, 0) == m) by (nonlinear_arith)
            requires
                top(m, 0) == m * crate::number::pow10(0),
                crate::number::pow10(0) == 1,
        ;
        frequency_names_band(d, m, 0, (1000 * m) as u32);
    }
}

/// The digits of a number are a name in meters only for the numbers of meters.
proof fn lemma_digits_no_meter(m: nat)
    requires
        m != 160 && m != 80 && m != 60 && m != 40 && m != 30 && m != 20,
        m != 17 && m != 15 && m != 12 && m != 10 && m != 6 && m != 2,
    ensures
        band_in_meters(decimal(m)) is None,
        decimal(m) != "5.3"@,
{
    let d = decimal(m);
    crate::number::lemma_decimal_digits(m);
    reveal_strlit("0.7");
    reveal_strlit("70cm");
    reveal_strlit("70CM");
    reveal_strlit("5.3");
    assert(d.len() > 2 ==> is_digit(d[1]) && is_digit(d[2]));
    assert("0.7"@[1] == '.' && "5.3"@[1] == '.' && "70cm"@[2] == 'c' && "70CM"@[2] == 'C');
    lemma_meter_numbers();
}

/// What the names in meters denote that are digits.
proof fn lemma_meter_numbers()
    ensures
        num(digit_values("160"@)) == 160,
        num(digit_values("80"@)) == 80,
        num(digit_values("60"@)) == 60,
        num(digit_values("40"@)) == 40,
        num(digit_values("30"@)) == 30,
        num(digit_values("20"@)) == 20,
        num(digit_values("17"@)) == 17,
        num(digit_values("15"@)) == 15,
        num(digit_values("12"@)) == 12,
        num(digit_values("10"@)) == 10,
        num(digit_values("6"@)) == 6,
        num(digit_values("2"@)) == 2,
{
    reveal_strlit("160");
    assert(digit_values("160"@) =~= seq![1u8, 6u8, 0u8]);
    assert(num(seq![1u8, 6u8, 0u8]) == 160) by {
        reveal_with_fuel(num, 4);
    }
    reveal_strlit("80");
    assert(digit_values("80"@) =~= seq![8u8, 0u8]);
    assert(num(seq![8u8, 0u8]) == 80) by {
        reveal_with_fuel(num, 4);
    }
    reveal_strlit("60");
    assert(digit_values("60"@) =~= seq![6u8, 0u8]);
    assert(num(seq![6u8, 0u8]) == 60) by {
        reveal_with_fuel(num, 4);
    }
    reveal_strlit("40");
    assert(digit_values("40"@) =~= seq![4u8, 0u8]);
    assert(num(seq![4u8, 0u8]) == 40) by {
        reveal_with_fuel(num, 4);
    }
    reveal_strlit("30");
    assert(digit_values("30"@) =~= seq![3u8, 0u8]);
    assert(num(seq![3u8, 0u8]) == 30) by {
        reveal_with_fuel(num, 4);
    }
    reveal_strlit("20");
    assert(digit_values("20"@) =~= seq![2u8, 0u8]);
    assert(num(seq![2u8, 0u8]) == 20) by {
        reveal_with_fuel(num, 4);
    }
    reveal_strlit("17");
    assert(digit_values("17"@) =~= seq![1u8, 7u8]);
    assert(num(seq![1u8, 7u8]) == 17) by {
        reveal_with_fuel(num, 4);
    }
    reveal_strlit("15");
    assert(digit_values("15"@) =~= seq![1u8, 5u8]);
    assert(num(seq![1u8, 5u8]) == 15) by {
        reveal_with_fuel(num, 4);
    }
    reveal_strlit("12");
    assert(digit_values("12"@) =~= seq![1u8, 2u8]);
    assert(num(seq![1u8, 2u8]) == 12) by {
        reveal_with_fuel(num, 4);
    }
    reveal_strlit("10");
    assert(digit_values("10"@) =~= seq![1u8, 0u8]);
    assert(num(seq![1u8, 0u8]) == 10) by {
        reveal_with_fuel(num, 4);
    }
    reveal_strlit("6");
    assert(digit_values("6"@) =~= seq![6u8]);
    assert(num(seq![6u8]) == 6) by {
        reveal_with_fuel(num, 4);
    }
    reveal_strlit("2");
    assert(digit_values("2"@) =~= seq![2u8]);
    assert(num(seq![2u8]) == 2) by {
        reveal_with_fuel(num, 4);
    }
}

/// A band that the database does not know is sent as 20M.
pub proof fn unknown_bands_go_as_20m(b: Seq<char>)
    requires
        !is_band(b),
    ensures
        band_mhz(b) == "14.0"@,
        center_khz(b) == 14_200,
        band_mhz(b) == band_mhz("20M"@),
        center_khz(b) == center_khz("20M"@),
{
    lemma_band_letters();
}

/// CW and DIG go out as themselves, and every other mode as USB.
pub proof fn modes_that_go_out(m: Seq<char>)
    ensures
        n1mm_mode("CW"@) == "CW"@,
        n1mm_mode("DIG"@) == "DIG"@,
        m != "CW"@ && m != "DIG"@ ==> n1mm_mode(m) == "USB"@,
{
}

/// USB, LSB, FM and AM come in as PH and CW as itself, in whatever case; everything else comes in
/// as DIG.
pub proof fn modes_that_come_in(s: Seq<char>)
    ensures
        ({
            let u = uppercase(trimmed(s));
            &&& log_mode(s) == "CW"@ <==> u == "CW"@
            &&& log_mode(s) == "PH"@ <==> u == "USB"@ || u == "LSB"@ || u == "FM"@ || u == "AM"@
            &&& log_mode(s) == "DIG"@ <==> !(u == "CW"@ || u == "USB"@ || u == "LSB"@ || u
                == "FM"@ || u == "AM"@)
        }),
{
    reveal_strlit("CW");
    reveal_strlit("PH");
    reveal_strlit("DIG");
    reveal_strlit("USB");
    reveal_strlit("LSB");
    reveal_strlit("FM");
    reveal_strlit("AM");
    assert("CW"@[0] == 'C' && "PH"@[0] == 'P' && "FM"@[0] == 'F' && "AM"@[0] == 'A');
}

/// A whole number of kilohertz below 100000, written with two places behind the point, names
/// the band that it lies in.
pub proof fn kilohertz_name_band(khz: u32)
    requires
        1000 <= khz < 100_000,
    ensures
        band_named(decimal(khz as nat) + ".00"@) == band_at(khz),
{
    let n = khz as nat;
    crate::number::lemma_number_with_zeros(n);
    lemma_four_digits(n);
    lemma_long_is_no_meter(decimal(n) + ".00"@);
    crate::number::lemma_scaled_hundredths(n);
}

/// A whole number of kilohertz from 1000 up, written in tens of hertz, names the band that it
/// lies in.
pub proof fn tens_of_hertz_name_band(khz: u32)
    requires
        1000 <= khz,
    ensures
        band_named(decimal((100 * khz) as nat)) == band_at(khz),
{
    let n = khz as nat;
    let d = decimal(100 * n);
    crate::number::lemma_decimal_digits(100 * n);
    assert(is_digit(d[0]) && is_digit(d[d.len() - 1]));
    crate::text::lemma_trimmed_unchanged(d);
    lemma_four_digits(100 * n);
    lemma_four_digits(100 * n / 10);
    assert(d == decimal(100 * n / 10).push(crate::text::digit_char(100 * n % 10)));
    lemma_long_is_no_meter(d);
    crate::number::lemma_number_of_digits(d);
    crate::number::lemma_scaled_hundredfold(n);
}

/// A number from 1000 up has at least four digits.
proof fn lemma_four_digits(n: nat)
    requires
        n >= 1000,
    ensures
        decimal(n).len() >= 4,
{
    assert(decimal(n).len() == decimal(n / 10).len() + 1);
    assert(decimal(n / 10).len() == decimal(n / 10 / 10).len() + 1);
    assert(decimal(n / 10 / 10).len() == decimal(n / 10 / 10 / 10).len() + 1);
    crate::number::lemma_decimal_digits(n / 10 / 10 / 10);
}

/// The names of bands in meters have at most four characters, and the edge of 60M has three.
proof fn lemma_long_is_no_meter(s: Seq<char>)
    requires
        s.len() > 4,
    ensures
        band_in_meters(s) is None,
        s != "5.3"@,
{
    reveal_strlit("5.3");
    reveal_strlit("160");
    reveal_strlit("80");
    reveal_strlit("60");
    reveal_strlit("40");
    reveal_strlit("30");
    reveal_strlit("20");
    reveal_strlit("17");
    reveal_strlit("15");
    reveal_strlit("12");
    reveal_strlit("10");
    reveal_strlit("6");
    reveal_strlit("2");
    reveal_strlit("0.7");
    reveal_strlit("70cm");
    reveal_strlit("70CM");
}

/// The lower edge of a band, as N1MM+ writes it, is digits with a point in front of the last.
pub proof fn lemma_edge_text(b: Seq<char>)
    ensures
        ({
            let s = band_mhz(b);
            &&& 3 <= s.len() <= 5
            &&& s[0] != '0'
            &&& s[s.len() - 2] == '.'
            &&& forall|i: int| 0 <= i < s.len() && i != s.len() - 2 ==> is_digit(#[trigger] s[i])
            &&& trimmed(s) == s
        }),
{
    reveal_strlit("1.8");
    reveal_strlit("3.5");
    reveal_strlit("5.3");
    reveal_strlit("7.0");
    reveal_strlit("10.1");
    reveal_strlit("14.0");
    reveal_strlit("18.1");
    reveal_strlit("21.0");
    reveal_strlit("24.9");
    reveal_strlit("28.0");
    reveal_strlit("50.0");
    reveal_strlit("144.0");
    reveal_strlit("420.0");
    let s = band_mhz(b);
    assert(is_digit(s[0]) && is_digit(s[s.len() - 1]));
    crate::text::lemma_trimmed_unchanged(s);
}

/// What a band field with one place behind the point names: `d` are its digits.
proof fn lemma_tenths_named(s: Seq<char>, d: Seq<u8>, w: nat)
    requires
        3 <= s.len() <= 5,
        d.len() == s.len() - 1,
        s[s.len() - 2] == '.',
        s.last() == (48 + d.last()) as char,
        forall|i: int| 0 <= i < d.len() - 1 ==> #[trigger] s[i] == (48 + d[i]) as char,
        forall|i: int| 0 <= i < d.len() ==> #[trigger] d[i] < 10,
        d[0] > 0,
        w == num(d),
        10 <= w < 10_000,
        bits(100 * w) == bits(w / 10) + 10,
        s != "5.3"@,
    ensures
        band_named(s) == band_at((100 * w) as u32),
{
    let n = s.len() as int;
    let before = s.take(n - 2);
    let after = s.skip(n - 1);
    assert(d.last() == d[n - 2]);
    assert forall|i: int| 0 <= i < before.len() implies is_digit(#[trigger] before[i]) by {
        assert(before[i] == s[i]);
        assert(d[i] < 10);
    }
    assert(after[0] == s.last());
    crate::number::lemma_number_with_point(before, after);
    assert(s == before.push('.') + after);
    assert(digit_values(before + after) =~= d);
    crate::number::lemma_scaled_tenths(w);
    assert(is_digit(before[0]));
    assert(s[0] == before[0]);
    crate::text::lemma_trimmed_unchanged(s);
    lemma_edge_is_no_meter(s);
}

/// No name in meters has a point in front of its last character, but for 0.7.
proof fn lemma_edge_is_no_meter(s: Seq<char>)
    requires
        3 <= s.len() <= 5,
        s[s.len() - 2] == '.',
        s[0] != '0',
    ensures
        band_in_meters(s) is None,
{
    reveal_strlit("160");
    reveal_strlit("80");
    reveal_strlit("60");
    reveal_strlit("40");
    reveal_strlit("30");
    reveal_strlit("20");
    reveal_strlit("17");
    reveal_strlit("15");
    reveal_strlit("12");
    reveal_strlit("10");
    reveal_strlit("6");
    reveal_strlit("2");
    reveal_strlit("0.7");
    reveal_strlit("70cm");
    reveal_strlit("70CM");
    assert(s.len() == 3 ==> s[1] == '.' && s[0] != '0');
    assert(s.len() == 4 ==> s[2] == '.');
    assert("160"@[1] == '6' && "0.7"@[0] == '0' && "70cm"@[2] == 'c' && "70CM"@[2] == 'C');
}

} // verus!
