use frece::{
    add_db, get_old_fields, increment_db, init_db, is_valid_entry, parse_line, parse_time, read_db,
    setfield_db, split_lines, update_db, update_fields, write_fields, DbError, Field, RecordError,
    Timestamp,
};

const NEW_YEAR_2023: i64 = 1_672_531_200_000_000;

fn t2023() -> Timestamp {
    Timestamp::from_micros(NEW_YEAR_2023)
}

fn store_abc() -> String {
    let mut s = String::new();
    s.push_str("000000,2023-01-01T00:00:00.000000+00:00,a\n");
    s.push_str("000005,2023-01-01T00:00:00.000000+00:00,b\n");
    s.push_str("000002,2023-01-01T00:00:00.000000+00:00,c\n");
    s
}

fn apply(text: &str, offset: usize, patch: &str) -> String {
    let mut bytes = text.as_bytes().to_vec();
    bytes[offset..offset + patch.len()].copy_from_slice(patch.as_bytes());
    String::from_utf8(bytes).unwrap()
}

#[test]
fn increment_rewrites_only_its_line() {
    let text = store_abc();
    let (fields, lines) = read_db(&text).unwrap();
    let now = parse_time("2024-05-06T07:08:09.123456+00:00").unwrap();
    let patch = increment_db(&fields, &lines, now, "a").unwrap();
    assert_eq!(patch.offset, 0);
    assert_eq!(patch.text, "000001,2024-05-06T07:08:09.123456+00:00,a");
    assert_eq!(patch.text.len(), lines[0].len());
    let after = apply(&text, patch.offset, &patch.text);
    assert_eq!(after.len(), text.len());
    let (fields2, lines2) = read_db(&after).unwrap();
    assert_eq!(fields2[0].count, 1);
    assert_eq!(fields2[0].time, now);
    assert_eq!(fields2[0].data, "a");
    assert_eq!(lines2[1], lines[1]);
    assert_eq!(lines2[2], lines[2]);
    assert_eq!(&after[lines[0].len()..], &text[lines[0].len()..]);
}

#[test]
fn increment_of_a_later_line_seeks_past_earlier_lines() {
    let text = store_abc();
    let (fields, lines) = read_db(&text).unwrap();
    let patch = increment_db(&fields, &lines, t2023(), "c").unwrap();
    assert_eq!(patch.offset, lines[0].len() + 1 + lines[1].len() + 1);
    let after = apply(&text, patch.offset, &patch.text);
    let (fields2, _) = read_db(&after).unwrap();
    assert_eq!(fields2[2].count, 3);
    assert_eq!(fields2[1].count, 5);
}

#[test]
fn increment_of_a_missing_entry_fails() {
    let text = store_abc();
    let (fields, lines) = read_db(&text).unwrap();
    assert_eq!(increment_db(&fields, &lines, t2023(), "z"), Err(DbError::EntryNotFound));
}

#[test]
fn increment_past_six_digits_breaks_the_length() {
    let text = "999999,2023-01-01T00:00:00.000000+00:00,a\n";
    let (fields, lines) = read_db(text).unwrap();
    assert_eq!(
        increment_db(&fields, &lines, t2023(), "a"),
        Err(DbError::LengthInvariantViolation)
    );
}

#[test]
fn increment_of_the_largest_count_fails() {
    let text = "9223372036854775807,2023-01-01T00:00:00.000000+00:00,a\n";
    let (fields, lines) = read_db(text).unwrap();
    assert_eq!(increment_db(&fields, &lines, t2023(), "a"), Err(DbError::CountOverflow));
}

#[test]
fn setfield_changes_only_what_is_given() {
    let text = store_abc();
    let (fields, lines) = read_db(&text).unwrap();
    let patch = setfield_db(&fields, &lines, "b", Some(42), None).unwrap();
    assert_eq!(patch.text, "000042,2023-01-01T00:00:00.000000+00:00,b");
    assert_eq!(patch.offset, lines[0].len() + 1);
    let later = parse_time("2030-12-31T23:59:59Z").unwrap();
    let patch = setfield_db(&fields, &lines, "b", None, Some(later)).unwrap();
    assert_eq!(patch.text, "000005,2030-12-31T23:59:59.000000+00:00,b");
    assert_eq!(
        setfield_db(&fields, &lines, "q", Some(1), None),
        Err(DbError::EntryNotFound)
    );
}

#[test]
fn byte_offsets_count_bytes_not_characters() {
    let mut text = String::new();
    text.push_str("000001,2023-01-01T00:00:00.000000+00:00,caf\u{e9}\n");
    text.push_str("000002,2023-01-01T00:00:00.000000+00:00,x\n");
    let (fields, lines) = read_db(&text).unwrap();
    let patch = increment_db(&fields, &lines, t2023(), "x").unwrap();
    assert_eq!(patch.offset, text.find("000002").unwrap());
    let after = apply(&text, patch.offset, &patch.text);
    assert_eq!(read_db(&after).unwrap().0[1].count, 3);
}

#[test]
fn add_appends_a_fresh_record() {
    let text = store_abc();
    let (fields, _) = read_db(&text).unwrap();
    let line = add_db(&fields, "d", Timestamp::epoch()).unwrap();
    assert_eq!(line, "000000,1970-01-01T00:00:00.000000+00:00,d\n");
    let mut after = text.clone();
    after.push_str(&line);
    let (fields2, _) = read_db(&after).unwrap();
    assert_eq!(fields2.len(), 4);
    assert_eq!(fields2[3].data, "d");
    assert_eq!(fields2[3].count, 0);
}

#[test]
fn add_keeps_entries_unique() {
    let text = store_abc();
    let (fields, _) = read_db(&text).unwrap();
    assert_eq!(add_db(&fields, "b", t2023()), Err(DbError::DuplicateEntry));
    let line = add_db(&fields, "e", t2023()).unwrap();
    let mut after = text.clone();
    after.push_str(&line);
    let (fields2, _) = read_db(&after).unwrap();
    for i in 0..fields2.len() {
        for j in 0..fields2.len() {
            if i != j {
                assert_ne!(fields2[i].data, fields2[j].data);
            }
        }
    }
    assert_eq!(add_db(&fields2, "e", t2023()), Err(DbError::DuplicateEntry));
}

#[test]
fn add_rejects_empty_and_multiline_names() {
    let fields: Vec<Field> = Vec::new();
    assert_eq!(add_db(&fields, "", t2023()), Err(DbError::InvalidEntry));
    assert_eq!(add_db(&fields, "a\nb", t2023()), Err(DbError::InvalidEntry));
}

#[test]
fn read_reports_the_first_bad_line() {
    let mut text = store_abc();
    text.push_str("oops\n");
    text.push_str("also bad\n");
    assert_eq!(
        read_db(&text),
        Err(DbError::MalformedRecord { line: 3, error: RecordError::MissingField })
    );
}

#[test]
fn read_of_an_empty_store_is_empty() {
    let (fields, lines) = read_db("").unwrap();
    assert!(fields.is_empty());
    assert!(lines.is_empty());
}

#[test]
fn update_merges_names_into_the_store() {
    let existing = vec![
        Field::new(3, t2023(), "a"),
        Field::new(1, t2023(), "b"),
    ];
    let now = Timestamp::epoch();
    let names = vec!["x".to_string(), "a".to_string(), "y".to_string()];
    let merged = update_fields(&names, &existing, now, false);
    let data: Vec<&str> = merged.iter().map(|f| f.data.as_str()).collect();
    assert_eq!(data, vec!["x", "a", "y", "b"]);
    let counts: Vec<i64> = merged.iter().map(|f| f.count).collect();
    assert_eq!(counts, vec![0, 3, 0, 1]);
    assert_eq!(merged[0].time, now);
    assert_eq!(merged[1].time, t2023());
    assert_eq!(merged[3].time, t2023());
}

#[test]
fn update_with_purge_drops_unnamed_entries() {
    let existing = vec![
        Field::new(3, t2023(), "a"),
        Field::new(1, t2023(), "b"),
    ];
    let names = vec!["x".to_string(), "a".to_string(), "x".to_string()];
    let merged = update_fields(&names, &existing, Timestamp::epoch(), true);
    let data: Vec<&str> = merged.iter().map(|f| f.data.as_str()).collect();
    assert_eq!(data, vec!["x", "a"]);
    assert_eq!(merged[1].count, 3);
}

#[test]
fn stale_entries_keep_store_order() {
    let existing = vec![
        Field::new(1, t2023(), "s3"),
        Field::new(2, t2023(), "k"),
        Field::new(3, t2023(), "s1"),
        Field::new(4, t2023(), "s2"),
    ];
    let names = vec!["k".to_string()];
    let merged = update_fields(&names, &existing, Timestamp::epoch(), false);
    let data: Vec<&str> = merged.iter().map(|f| f.data.as_str()).collect();
    assert_eq!(data, vec!["k", "s3", "s1", "s2"]);
}

#[test]
fn update_db_writes_the_merged_store() {
    let text = store_abc();
    let (fields, _) = read_db(&text).unwrap();
    let out = update_db(&fields, "c\nnew\n", Timestamp::epoch(), false).unwrap();
    let mut expected = String::new();
    expected.push_str("000002,2023-01-01T00:00:00.000000+00:00,c\n");
    expected.push_str("000000,1970-01-01T00:00:00.000000+00:00,new\n");
    expected.push_str("000000,2023-01-01T00:00:00.000000+00:00,a\n");
    expected.push_str("000005,2023-01-01T00:00:00.000000+00:00,b\n");
    assert_eq!(out, expected);
    let purged = update_db(&fields, "c\nnew\n", Timestamp::epoch(), true).unwrap();
    assert_eq!(read_db(&purged).unwrap().0.len(), 2);
}

#[test]
fn init_creates_fresh_records_once_each() {
    let out = init_db("one\ntwo\none\n", Timestamp::epoch()).unwrap();
    let mut expected = String::new();
    expected.push_str("000000,1970-01-01T00:00:00.000000+00:00,one\n");
    expected.push_str("000000,1970-01-01T00:00:00.000000+00:00,two\n");
    assert_eq!(out, expected);
    assert_eq!(init_db("", Timestamp::epoch()).unwrap(), "");
}

#[test]
fn init_rejects_empty_names() {
    assert_eq!(init_db("a\n\nb\n", Timestamp::epoch()), Err(DbError::InvalidEntry));
}

#[test]
fn written_store_reads_back() {
    let fields = vec![
        Field::new(7, t2023(), "/home/user/project"),
        Field::new(0, Timestamp::epoch(), "with,comma"),
    ];
    let text = write_fields(&fields);
    let (back, lines) = read_db(&text).unwrap();
    assert_eq!(back, fields);
    assert_eq!(lines[0], "000007,2023-01-01T00:00:00.000000+00:00,/home/user/project");
}

#[test]
fn split_lines_follows_newlines() {
    assert_eq!(split_lines(""), Vec::<String>::new());
    assert_eq!(split_lines("a"), vec!["a"]);
    assert_eq!(split_lines("a\n"), vec!["a"]);
    assert_eq!(split_lines("a\nb"), vec!["a", "b"]);
    assert_eq!(split_lines("a\n\nb\n"), vec!["a", "", "b"]);
    assert_eq!(split_lines("\n"), vec![""]);
}

#[test]
fn parse_line_reads_the_three_fields() {
    let f = parse_line("000005,2023-01-01T00:00:00.000000+00:00,/home/user/project").unwrap();
    assert_eq!(f.count, 5);
    assert_eq!(f.time, t2023());
    assert_eq!(f.data, "/home/user/project");
    let g = parse_line("12,2023-01-01T02:00:00+02:00,a,b,c").unwrap();
    assert_eq!(g.count, 12);
    assert_eq!(g.time, t2023());
    assert_eq!(g.data, "a,b,c");
    let h = parse_line("-3,2023-01-01T00:00:00Z,").unwrap();
    assert_eq!(h.count, -3);
    assert_eq!(h.data, "");
}

#[test]
fn parse_line_errors() {
    assert_eq!(parse_line("no commas"), Err(RecordError::MissingField));
    assert_eq!(parse_line("1,2023-01-01T00:00:00Z"), Err(RecordError::MissingField));
    assert_eq!(parse_line("1,yesterday,a"), Err(RecordError::BadTime));
    assert_eq!(parse_line("x1,2023-01-01T00:00:00Z,a"), Err(RecordError::BadCount));
    assert_eq!(parse_line(",2023-01-01T00:00:00Z,a"), Err(RecordError::BadCount));
    assert_eq!(
        parse_line("9223372036854775808,2023-01-01T00:00:00Z,a"),
        Err(RecordError::BadCount)
    );
    assert_eq!(parse_line("x,bad time,a"), Err(RecordError::BadTime));
}

#[test]
fn old_fields_are_the_unnamed_ones() {
    let existing = vec![
        Field::new(1, t2023(), "p"),
        Field::new(2, t2023(), "q"),
        Field::new(3, t2023(), "r"),
    ];
    let names = vec!["q".to_string(), "zz".to_string()];
    let old = get_old_fields(&names, &existing);
    let data: Vec<&str> = old.iter().map(|f| f.data.as_str()).collect();
    assert_eq!(data, vec!["p", "r"]);
    assert_eq!(old[1].count, 3);
    assert!(get_old_fields(&names, &Vec::new()).is_empty());
}

#[test]
fn entry_names_are_checked() {
    assert!(is_valid_entry("/home/user/project"));
    assert!(is_valid_entry("a,b"));
    assert!(!is_valid_entry(""));
    assert!(!is_valid_entry("two\nlines"));
}
