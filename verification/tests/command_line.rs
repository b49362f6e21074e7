use sana::cli::{
    arg, flag_value, has_flag, is_bucket, parse_id, parse_value, positional_args, serve_role,
    split_pair, ServeRole,
};
use sana::value::{Id, Value};

fn args(values: &[&str]) -> Vec<String> {
    values.iter().map(|value| (*value).to_string()).collect()
}

#[test]
fn serve_role_defaults_to_all_and_accepts_api() {
    assert_eq!(
        serve_role(&args(&["sana", "serve", "./data"])).unwrap(),
        ServeRole::All
    );
    assert_eq!(
        serve_role(&args(&["sana", "serve", "./data", "--role", "api"])).unwrap(),
        ServeRole::Api
    );
    assert!(serve_role(&args(&["sana", "serve", "./data", "--role", "bad"])).is_err());
}

#[test]
fn positional_args_skip_loop_and_role_flags() {
    assert_eq!(
        positional_args(
            &args(&[
                "sana",
                "serve",
                "./data",
                "--role",
                "api",
                "127.0.0.1:8081",
                "1024"
            ]),
            &["--role"],
            &[]
        )
        .unwrap(),
        vec!["./data", "127.0.0.1:8081", "1024"]
    );
    assert_eq!(
        positional_args(
            &args(&["sana", "work-indexing", "./data", "--loop", "worker-a"]),
            &[],
            &["--loop"]
        )
        .unwrap(),
        vec!["./data", "worker-a"]
    );
}

#[test]
fn flags_without_a_value_are_refused() {
    let given = args(&["sana", "serve", "./data", "--role"]);
    assert_eq!(flag_value(&given, "--role").unwrap_err(), "--role requires a value");
    assert_eq!(
        positional_args(&given, &["--role"], &[]).unwrap_err(),
        "--role requires a value"
    );
    assert_eq!(serve_role(&given).unwrap_err(), "--role requires a value");
    assert_eq!(
        serve_role(&args(&["sana", "serve", "d", "--role", "x"])).unwrap_err(),
        "unknown serve role 'x', expected all or api"
    );
}

#[test]
fn flags_and_arguments_are_found() {
    let given = args(&["sana", "maintain", "./data", "--loop"]);
    assert!(has_flag(&given, "--loop"));
    assert!(!has_flag(&given, "maintain"));
    assert_eq!(arg(&given, 2).unwrap(), "./data");
    assert_eq!(arg(&given, 9).unwrap_err(), "missing argument #9");
    assert_eq!(flag_value(&given, "--role").unwrap(), None);
    assert!(!has_flag(&args(&[]), "--loop"));
}

#[test]
fn keys_and_values_take_the_narrowest_type() {
    assert!(matches!(parse_id("42"), Id::U64(42)));
    assert!(matches!(parse_id("+7"), Id::U64(7)));
    assert!(matches!(parse_id("18446744073709551616"), Id::String(s) if s == "18446744073709551616"));
    assert!(matches!(parse_id("-1"), Id::String(s) if s == "-1"));
    assert!(matches!(parse_value("-9223372036854775808", None), Value::Int(i64::MIN)));
    let half: f64 = 0.5;
    assert!(matches!(parse_value("0.5", Some(half.to_bits())), Value::Float(b) if b == half.to_bits()));
    assert!(matches!(parse_value("true", None), Value::Bool(true)));
    assert!(matches!(parse_value("false", None), Value::Bool(false)));
    assert!(matches!(parse_value("True", None), Value::String(s) if s == "True"));
}

#[test]
fn assignments_split_at_the_first_sign() {
    assert_eq!(
        split_pair("a=b=c").unwrap(),
        ("a".to_string(), "b=c".to_string())
    );
    assert_eq!(split_pair("=").unwrap(), (String::new(), String::new()));
    assert_eq!(split_pair("a").unwrap_err(), "expected key=value, got 'a'");
    assert!(is_bucket("s3://bucket/prefix"));
    assert!(!is_bucket("./s3"));
}
