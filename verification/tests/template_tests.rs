use dbseed::rows::Row;
use dbseed::template::render_template;
use dbseed::value::Value;

fn sample_row() -> Row {
    let mut row = Row::new();
    row.set(String::from("first_name"), Value::Str(String::from("Ann")));
    row.set(String::from("age"), Value::Int(30));
    row
}

#[test]
fn substitutes_strings_and_numbers() {
    let row = sample_row();
    let digits = String::from("0000");
    let out = render_template("{first_name} is {age}", &row, &digits);
    assert_eq!(out, "Ann is 30");
}

#[test]
fn substitutes_random_digits_token() {
    let row = Row::new();
    let digits = String::from("4217");
    let out = render_template("order-{random_digits:4}", &row, &digits);
    assert_eq!(out, "order-4217");
}

#[test]
fn unknown_placeholders_stay_verbatim() {
    let row = sample_row();
    let digits = String::from("0000");
    assert_eq!(render_template("{nope}!", &row, &digits), "{nope}!");
    assert_eq!(render_template("{unclosed", &row, &digits), "{unclosed");
    assert_eq!(render_template("plain text", &row, &digits), "plain text");
}

#[test]
fn empty_and_missing_values_leave_the_token() {
    let mut row = Row::new();
    row.set(String::from("note"), Value::Str(String::new()));
    row.set(String::from("flag"), Value::Bool(true));
    let digits = String::from("0000");
    // empty text and non-textual values do not substitute
    assert_eq!(render_template("a{note}b", &row, &digits), "a{note}b");
    assert_eq!(render_template("a{flag}b", &row, &digits), "a{flag}b");
}

#[test]
fn later_value_replaces_earlier_one() {
    let mut row = Row::new();
    row.set(String::from("x"), Value::Str(String::from("old")));
    row.set(String::from("x"), Value::Str(String::from("new")));
    let digits = String::from("0000");
    assert_eq!(render_template("{x}", &row, &digits), "new");
    assert_eq!(row.len(), 1);
}
