use naming_game::input::Input;

fn lines(ls: &[&str]) -> Vec<String> {
    ls.iter().map(|s| s.to_string()).collect()
}

#[test]
fn pair_from_first_line() {
    let mut inp = Input::new(lines(&["3 2", "alice"]));
    let mut l = inp.line();
    assert_eq!(l.pair(), (3, 2));
    assert_eq!(inp.string(), "alice");
}

#[test]
fn next_skips_whitespace() {
    let mut inp = Input::new(lines(&["   12 \t 7  "]));
    let mut l = inp.line();
    assert_eq!(l.next(), 12);
    assert_eq!(l.next(), 7);
}

#[test]
fn string_walks_lines() {
    let mut inp = Input::new(lines(&["one", "two"]));
    assert_eq!(inp.string(), "one");
    assert_eq!(inp.string(), "two");
    // past the end the cursor answers the empty string, like a drained reader
    assert_eq!(inp.string(), "");
}

#[test]
fn skip_passes_a_line() {
    let mut inp = Input::new(lines(&["header", "4"]));
    inp.skip();
    assert_eq!(inp.parse(), 4);
}

#[test]
fn parse_whole_line_number() {
    let mut inp = Input::new(lines(&["  41  ", "x"]));
    assert_eq!(inp.parse(), 41);
    assert_eq!(inp.string(), "x");
}

#[test]
fn parse_zero_and_large() {
    let mut inp = Input::new(lines(&["0", "4294967295"]));
    assert_eq!(inp.parse(), 0);
    assert_eq!(inp.parse(), 4294967295usize);
}
