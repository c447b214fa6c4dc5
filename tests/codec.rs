use rtd::model::{str_to_timestamp, timestamp_to_raw_string, timestamp_to_datetime_string, Item, ParseItemError};

fn sample(name: &str) -> Item {
    Item::new(7, name, true, false, Some(1700000000), Some(-5), None)
}

fn same(a: &Item, b: &Item) -> bool {
    a.id() == b.id()
        && a.name() == b.name()
        && a.completed() == b.completed()
        && a.deleted() == b.deleted()
        && a.created_at() == b.created_at()
        && a.completed_at() == b.completed_at()
        && a.deleted_at() == b.deleted_at()
}

#[test]
fn encode_plain_record() {
    let item = Item::new(0, "buy milk", false, false, Some(100), None, None);
    assert_eq!(item.to_string(), "0,buy milk,false,false,100,,");
}

#[test]
fn encode_escapes_comma_and_newline_sequence() {
    let item = Item::new(3, "a,b\\nc", false, true, None, None, Some(9));
    assert_eq!(
        item.to_string(),
        "3,a<@^_fake_comma_$#>b<@^_fake_newline_$#>c,false,true,,,9"
    );
}

#[test]
fn round_trip_with_delimiters() {
    for name in ["buy milk", "a,b,,c", "line\\nnext", "", ",", "\\n", "<@^_fake", "x\ny"] {
        let item = sample(name);
        let back = Item::from_str(&item.to_string()).unwrap();
        assert!(same(&item, &back), "name {:?}", name);
    }
}

#[test]
fn round_trip_extreme_values() {
    let item = Item::new(u32::MAX, "z", false, true, Some(i64::MIN), Some(i64::MAX), Some(0));
    let back = Item::from_str(&item.to_string()).unwrap();
    assert!(same(&item, &back));
    assert_eq!(item.to_string(), "4294967295,z,false,true,-9223372036854775808,9223372036854775807,0");
}

#[test]
fn decode_wrong_field_count() {
    assert_eq!(Item::from_str("1,a,false").unwrap_err(), ParseItemError::FieldCount(3));
    assert_eq!(Item::from_str("").unwrap_err(), ParseItemError::FieldCount(1));
    assert_eq!(
        Item::from_str("id,name,completed,deleted,createdAt,completedAt,deletedAt").unwrap_err(),
        ParseItemError::InvalidField(0)
    );
}

#[test]
fn decode_invalid_fields() {
    assert_eq!(Item::from_str("x,a,false,false,,,").unwrap_err(), ParseItemError::InvalidField(0));
    assert_eq!(Item::from_str("4294967296,a,false,false,,,").unwrap_err(), ParseItemError::InvalidField(0));
    assert_eq!(Item::from_str("1,a,yes,false,,,").unwrap_err(), ParseItemError::InvalidField(2));
    assert_eq!(Item::from_str("1,a,true,no,,,").unwrap_err(), ParseItemError::InvalidField(3));
    assert_eq!(Item::from_str("1,a,true,false,1x,,").unwrap_err(), ParseItemError::InvalidField(4));
    assert_eq!(Item::from_str("1,a,true,false,,-,").unwrap_err(), ParseItemError::InvalidField(5));
    assert_eq!(
        Item::from_str("1,a,true,false,,,9223372036854775808").unwrap_err(),
        ParseItemError::InvalidField(6)
    );
}

#[test]
fn decode_unescapes_name() {
    let item = Item::from_str("2,x<@^_fake_comma_$#>y<@^_fake_newline_$#>,false,false,1,,").unwrap();
    assert_eq!(item.name(), "x,y\\n");
    assert_eq!(item.id(), 2);
    assert_eq!(item.created_at(), Some(1));
}

#[test]
fn timestamp_fields() {
    assert_eq!(timestamp_to_raw_string(None), "");
    assert_eq!(timestamp_to_raw_string(Some(-42)), "-42");
    assert_eq!(timestamp_to_raw_string(Some(i64::MIN)), "-9223372036854775808");
    assert_eq!(str_to_timestamp(""), Some(None));
    assert_eq!(str_to_timestamp("-42"), Some(Some(-42)));
    assert_eq!(str_to_timestamp("-9223372036854775808"), Some(Some(i64::MIN)));
    assert_eq!(str_to_timestamp("abc"), None);
    assert_eq!(str_to_timestamp("-9223372036854775809"), None);
}

#[test]
fn pretty_form_with_given_times() {
    let item = Item::new(5, "read", true, true, Some(1), None, Some(2));
    assert_eq!(
        item.to_pretty_string_with("T1", "", "T2"),
        "  5 \u{2705} \u{1f6ae} read\n\n\tCreated at: T1\n\tDeleted at: T2\n"
    );
    let item = Item::new(1234, "x", false, false, None, None, None);
    assert_eq!(item.to_pretty_string_with("", "", ""), "1234 \u{1f532}  x\n\n");
}

#[test]
fn pretty_form_in_local_time() {
    assert_eq!(timestamp_to_datetime_string(None), "");
    assert!(!timestamp_to_datetime_string(Some(0)).is_empty());
    let item = Item::new(0, "a", false, false, Some(0), None, None);
    let s = item.to_prettier_string();
    assert!(s.starts_with("  0 \u{1f532}  a\n\n\tCreated at: "));
    assert!(s.ends_with("\n"));
}

#[test]
fn encode_escapes_real_newline() {
    let item = Item::new(1, "a\nb", false, false, None, None, None);
    let line = item.to_string();
    assert!(!line.contains('\n'));
    assert_eq!(line, "1,a<@^_fake_linefeed_$#>b,false,false,,,");
    let back = Item::from_str(&line).unwrap();
    assert_eq!(back.name(), "a\nb");
    let both = Item::new(2, "x\n\\n,\n", false, false, None, None, None);
    assert!(!both.to_string().contains('\n'));
    assert_eq!(Item::from_str(&both.to_string()).unwrap().name(), "x\n\\n,\n");
}

#[test]
fn datetime_text_follows_chrono_range() {
    assert!(!timestamp_to_datetime_string(Some(8210266876799)).is_empty());
    assert_eq!(timestamp_to_datetime_string(Some(8210266876800)), "");
    assert!(!timestamp_to_datetime_string(Some(-8334601228800)).is_empty());
    assert_eq!(timestamp_to_datetime_string(Some(-8334601228801)), "");
    assert_eq!(timestamp_to_datetime_string(Some(i64::MAX)), "");
    assert_eq!(timestamp_to_datetime_string(Some(i64::MIN)), "");
}

#[test]
fn pretty_form_without_times() {
    let item = Item::new(7, "x", false, false, None, None, None);
    assert_eq!(item.to_prettier_string(), "  7 \u{1f532}  x\n\n");
    let far = Item::new(8, "y", true, false, Some(i64::MAX), None, None);
    assert_eq!(far.to_prettier_string(), "  8 \u{2705}  y\n\n");
}

#[test]
fn numbers_take_a_leading_plus() {
    let item = Item::from_str("+1,a,true,true,+5,-6,").unwrap();
    assert_eq!(item.id(), 1);
    assert_eq!(item.created_at(), Some(5));
    assert_eq!(item.completed_at(), Some(-6));
    assert_eq!(str_to_timestamp("+5"), Some(Some(5)));
    assert_eq!(str_to_timestamp("+"), None);
    assert_eq!(str_to_timestamp("-"), None);
    assert_eq!(str_to_timestamp("+-5"), None);
    assert_eq!(Item::from_str("+,a,true,true,,,").unwrap_err(), ParseItemError::InvalidField(0));
    assert_eq!(Item::from_str("-1,a,true,true,,,").unwrap_err(), ParseItemError::InvalidField(0));
    assert_eq!(Item::from_str("++1,a,true,true,,,").unwrap_err(), ParseItemError::InvalidField(0));
    assert_eq!("+5".parse::<i64>().ok(), Some(5));
    assert_eq!("+1".parse::<u32>().ok(), Some(1));
}
