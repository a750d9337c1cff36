use rwatch::load::load_average_fields;

#[test]
fn fields_of_typical_proc_loadavg() {
    assert_eq!(
        load_average_fields("0.52 0.58 0.59 1/467 12345"),
        Some(("0.52", "0.58", "0.59"))
    );
    assert_eq!(load_average_fields("0.00 0.00 0.00 2/123 456\n"), Some(("0.00", "0.00", "0.00")));
}

#[test]
fn fewer_than_three_fields_is_none() {
    assert_eq!(load_average_fields(""), None);
    assert_eq!(load_average_fields("   "), None);
    assert_eq!(load_average_fields("0.1 0.2"), None);
}

#[test]
fn fields_are_taken_whatever_they_hold() {
    assert_eq!(load_average_fields("not numbers here"), Some(("not", "numbers", "here")));
    assert_eq!(load_average_fields("\t1\n 2   3"), Some(("1", "2", "3")));
}
