use sana::value::{
    id_from_integer, id_from_text, parse_uuid_hyphenated, same_id, uuid_to_hyphenated,
    value_from_unsigned, Id, Value,
};

#[test]
fn id_uuid_string_round_trips_losslessly() {
    let bytes = [
        0x55, 0x0e, 0x84, 0x00, 0xe2, 0x9b, 0x41, 0xd4, 0xa7, 0x16, 0x44, 0x66, 0x55, 0x44, 0x00,
        0x00,
    ];
    let text = uuid_to_hyphenated(&bytes);
    assert_eq!(text, "550e8400-e29b-41d4-a716-446655440000");
    assert_eq!(parse_uuid_hyphenated(&text), Some(bytes));
    assert!(same_id(&id_from_text(&text), &Id::Uuid(bytes)));
    assert!(same_id(&id_from_text("not-a-uuid"), &Id::String("not-a-uuid".into())));
}

#[test]
fn value_json_rejects_unsigned_integers_outside_i64_range() {
    assert!(matches!(
        value_from_unsigned(9007199254740993),
        Some(Value::Int(9_007_199_254_740_993))
    ));
    assert!(matches!(value_from_unsigned(9223372036854775807), Some(Value::Int(i64::MAX))));
    assert!(value_from_unsigned(9223372036854775808).is_none());
    assert!(value_from_unsigned(18446744073709551615).is_none());
}

#[test]
fn whole_numbers_are_keys_from_zero_on() {
    assert!(same_id(&id_from_integer(7).unwrap(), &Id::U64(7)));
    assert!(same_id(&id_from_integer(0).unwrap(), &Id::U64(0)));
    assert!(id_from_integer(-1).is_none());
}
