use schedulez::types::{Day, FileExt, Month};

#[test]
fn day_parse_full_names() {
    assert_eq!(Day::from("Sunday").to_u32(), 0);
    assert_eq!(Day::from("monday").to_u32(), 1);
    assert_eq!(Day::from("TUESDAY").to_u32(), 2);
    assert_eq!(Day::from("Wednesday").to_u32(), 3);
    assert_eq!(Day::from("thursday").to_u32(), 4);
    assert_eq!(Day::from("Friday").to_u32(), 5);
    assert_eq!(Day::from("saturday").to_u32(), 6);
}

#[test]
fn day_parse_abbreviations() {
    assert_eq!(Day::from("SUN").to_u32(), 0);
    assert_eq!(Day::from("su").to_u32(), 0);
    assert_eq!(Day::from("Mon").to_u32(), 1);
    assert_eq!(Day::from("mo").to_u32(), 1);
    assert_eq!(Day::from("M").to_u32(), 1);
    assert_eq!(Day::from("tue").to_u32(), 2);
    assert_eq!(Day::from("TU").to_u32(), 2);
    assert_eq!(Day::from("wed").to_u32(), 3);
    assert_eq!(Day::from("We").to_u32(), 3);
    assert_eq!(Day::from("w").to_u32(), 3);
    assert_eq!(Day::from("THU").to_u32(), 4);
    assert_eq!(Day::from("th").to_u32(), 4);
    assert_eq!(Day::from("fRi").to_u32(), 5);
    assert_eq!(Day::from("FR").to_u32(), 5);
    assert_eq!(Day::from("f").to_u32(), 5);
    assert_eq!(Day::from("sat").to_u32(), 6);
    assert_eq!(Day::from("SA").to_u32(), 6);
}

#[test]
fn day_parse_fails_open_to_sunday() {
    assert_eq!(Day::from("").to_u32(), 0);
    assert_eq!(Day::from("noday").to_u32(), 0);
    assert_eq!(Day::from("Mond").to_u32(), 0);
    assert_eq!(Day::from("S").to_u32(), 0);
    assert_eq!(Day::from("  mon  ").to_u32(), 0);
}

#[test]
fn day_ordinal_round_trip() {
    for i in 0..7u32 {
        assert_eq!(Day::from_u32(i).to_u32(), i);
    }
}

#[test]
fn day_from_u32_out_of_range_is_sunday() {
    assert_eq!(Day::from_u32(7).to_u32(), 0);
    assert_eq!(Day::from_u32(100).to_u32(), 0);
}

#[test]
fn day_names() {
    assert_eq!(Day::Sunday.as_str(), "Sunday");
    assert_eq!(Day::Wednesday.as_str(), "Wednesday");
    assert_eq!(Day::Saturday.as_str(), "Saturday");
    assert_eq!(Day::from("we").as_str(), "Wednesday");
}

#[test]
fn day_name_parse_round_trip() {
    for i in 0..7u32 {
        let d = Day::from_u32(i);
        assert_eq!(Day::from(d.as_str()).to_u32(), i);
    }
}

#[test]
fn month_from_u32() {
    assert_eq!(Month::from_u32(1).as_str(), "January");
    assert_eq!(Month::from_u32(2).as_str(), "February");
    assert_eq!(Month::from_u32(6).as_str(), "June");
    assert_eq!(Month::from_u32(9).as_str(), "September");
    assert_eq!(Month::from_u32(12).as_str(), "December");
}

#[test]
fn month_out_of_range_is_january() {
    assert_eq!(Month::from_u32(0).as_str(), "January");
    assert_eq!(Month::from_u32(13).as_str(), "January");
}

#[test]
fn defaults() {
    assert_eq!(Day::default().to_u32(), 0);
    assert_eq!(Month::default().as_str(), "January");
    assert!(FileExt::default() == FileExt::Xlsx);
}
