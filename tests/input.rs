use rain::input::Config;

#[test]
fn empty_argument() {
    let b = "example.yaml";
    let received = Config::new(&[], b).filename;
    let expected = b;
    assert_eq!(received, expected);
}

#[test]
fn valid_argument() {
    let a: &[String] = &["binary".to_string(), "foo.yaml".to_string()];
    let b = "example.yaml";
    let received = Config::new(a, b).filename;
    let expected = "foo.yaml";
    assert_eq!(received, expected);
}

#[test]
fn single_argument_is_the_program() {
    let a: &[String] = &["binary".to_string()];
    let received = Config::new(a, "example.toml").filename;
    assert_eq!(received, "example.toml");
}
