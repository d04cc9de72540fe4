use frece::{
    format_time, parse_line, parse_time, record_line, time_from_parsed, Field, TimeError, Timestamp,
};

#[test]
fn record_round_trip() {
    let line = "000005,2023-01-01T00:00:00.000000+00:00,/home/user/project";
    let f = parse_line(line).unwrap();
    assert_eq!(f.to_record(), line);
    let line2 = "000000,1999-12-31T23:59:59.999999+00:00,a,b";
    assert_eq!(parse_line(line2).unwrap().to_record(), line2);
}

#[test]
fn record_of_a_field() {
    let f = Field::new(5, Timestamp::from_micros(1_672_531_200_000_000), "/home/user/project");
    assert_eq!(
        f.to_record(),
        "000005,2023-01-01T00:00:00.000000+00:00,/home/user/project"
    );
    let back = parse_line(&f.to_record()).unwrap();
    assert_eq!(back, f);
}

#[test]
fn count_field_is_zero_padded_to_six() {
    let t = Timestamp::epoch();
    assert_eq!(&Field::new(0, t, "a").to_record()[..7], "000000,");
    assert_eq!(&Field::new(123456, t, "a").to_record()[..7], "123456,");
    assert_eq!(&Field::new(-5, t, "a").to_record()[..7], "-00005,");
    assert_eq!(&Field::new(1234567, t, "a").to_record()[..8], "1234567,");
    assert_eq!(
        &Field::new(i64::MIN, t, "a").to_record()[..21],
        "-9223372036854775808,"
    );
}

#[test]
fn same_data_same_length() {
    let a = Field::new(0, Timestamp::epoch(), "entry");
    let b = Field::new(999999, Timestamp::from_micros(253_402_300_799_999_999), "entry");
    let c = Field::new(-99999, Timestamp::from_micros(-62_167_219_200_000_000), "entry");
    assert_eq!(a.to_record().len(), b.to_record().len());
    assert_eq!(a.to_record().len(), c.to_record().len());
}

#[test]
fn time_text_has_microseconds_and_offset() {
    assert_eq!(format_time(Timestamp::epoch()), "1970-01-01T00:00:00.000000+00:00");
    assert_eq!(
        format_time(Timestamp::from_micros(1)),
        "1970-01-01T00:00:00.000001+00:00"
    );
    assert_eq!(
        format_time(Timestamp::from_micros(-1)),
        "1969-12-31T23:59:59.999999+00:00"
    );
    assert_eq!(
        format_time(Timestamp::from_micros(253_402_300_799_999_999)),
        "9999-12-31T23:59:59.999999+00:00"
    );
}

#[test]
fn time_is_read_in_any_offset() {
    let t = parse_time("2023-01-01T01:00:00+01:00").unwrap();
    assert_eq!(t.micros, 1_672_531_200_000_000);
    let u = parse_time("2023-01-01T00:00:00.5Z").unwrap();
    assert_eq!(u.micros, 1_672_531_200_500_000);
    assert_eq!(parse_time("1970-01-01T00:00:00Z").unwrap(), Timestamp::epoch());
}

#[test]
fn time_errors() {
    assert_eq!(parse_time("not a time"), Err(TimeError::Syntax));
    assert_eq!(parse_time("2023-13-01T00:00:00Z"), Err(TimeError::Syntax));
    assert_eq!(parse_time("0000-01-01T00:00:00+01:00"), Err(TimeError::OutOfRange));
    assert_eq!(parse_time("9999-12-31T23:30:00-01:00"), Err(TimeError::OutOfRange));
    assert!(parse_time("0000-01-01T00:00:00Z").is_ok());
}

#[test]
fn record_line_joins_the_fields() {
    assert_eq!(record_line(42, "T", "d,e"), "000042,T,d,e");
    assert_eq!(record_line(-42, "", ""), "-00042,,");
    assert_eq!(record_line(1_000_000, "x", "y"), "1000000,x,y");
}

#[test]
fn parsed_instants_need_four_digit_years() {
    assert_eq!(time_from_parsed(None), Err(TimeError::Syntax));
    assert_eq!(time_from_parsed(Some(0)), Ok(Timestamp::epoch()));
    assert_eq!(
        time_from_parsed(Some(-62_167_219_200_000_000)),
        Ok(Timestamp::from_micros(-62_167_219_200_000_000))
    );
    assert_eq!(
        time_from_parsed(Some(-62_167_219_200_000_001)),
        Err(TimeError::OutOfRange)
    );
    assert_eq!(
        time_from_parsed(Some(253_402_300_800_000_000)),
        Err(TimeError::OutOfRange)
    );
    assert!(Timestamp::from_micros(253_402_300_799_999_999).is_valid());
    assert!(!Timestamp::from_micros(i64::MAX).is_valid());
}
