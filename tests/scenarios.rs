use datadriven::case::TestCase;
use datadriven::directive::DirectiveParser;
use datadriven::error::DataDrivenError;
use datadriven::file::{render_stanzas, write_result, Stanza, TestFile};
use datadriven::run::check_outcome;
use datadriven::walk::{failure_report, should_ignore_file, walk, walk_exclusive};

fn parse_line(s: &str) -> Result<(String, Vec<(String, Vec<String>)>), DataDrivenError> {
    DirectiveParser::new(s).parse_directive()
}

fn cases(tf: &TestFile) -> Vec<TestCase> {
    let mut out = Vec::new();
    for st in &tf.stanzas {
        if let Stanza::Test(c) = st {
            out.push(c.clone());
        }
    }
    out
}

fn parse_message(e: &DataDrivenError) -> String {
    match e {
        DataDrivenError::Parse(m) => m.clone(),
        DataDrivenError::WithContext { inner, .. } => parse_message(inner),
        other => panic!("not a parse error: {:?}", other),
    }
}

fn argument_message(e: &DataDrivenError) -> String {
    match e {
        DataDrivenError::Argument(m) => m.clone(),
        other => panic!("not an argument error: {:?}", other),
    }
}

fn repeat_handler(c: &mut TestCase) -> Result<String, String> {
    let times: u64 = c.take_arg("times").map_err(|e| format!("{:?}", e))?;
    let mut result = String::new();
    for _ in 0..times {
        result.push_str(c.input.trim());
    }
    result.push('\n');
    c.expect_empty().map_err(|e| format!("{:?}", e))?;
    Ok(result)
}

fn one_case(text: &str) -> TestCase {
    let tf = TestFile::new("t".to_string(), text).unwrap();
    cases(&tf).remove(0)
}

#[test]
fn filenames_correct() {
    let mut filenames = std::collections::BTreeSet::from([
        "tests/testdata/args".to_string(),
        "tests/testdata/excluded".to_string(),
        "tests/testdata/multiline".to_string(),
        "tests/testdata/nonewline".to_string(),
        "tests/testdata/unicode".to_string(),
        "tests/testdata/nested/nested_file".to_string(),
    ]);

    // The listing of tests/testdata, with the hidden and backup files a directory walk skips.
    let listing = [
        ("tests/testdata/args", "args"),
        ("tests/testdata/excluded", "excluded"),
        ("tests/testdata/.hidden", ".hidden"),
        ("tests/testdata/multiline", "multiline"),
        ("tests/testdata/multiline~", "multiline~"),
        ("tests/testdata/nonewline", "nonewline"),
        ("tests/testdata/#unicode#", "#unicode#"),
        ("tests/testdata/unicode", "unicode"),
        ("tests/testdata/nested/nested_file", "nested_file"),
    ];
    let files: Vec<(String, String)> = listing
        .iter()
        .filter(|(_, name)| !should_ignore_file(name))
        .map(|(path, _)| (path.to_string(), "echo\nhi\n----\nhi\n".to_string()))
        .collect();

    let report = walk(&files, |f| {
        assert!(filenames.remove(&f.filename), "could not find {}", f.filename);
    });

    assert!(report.failures.is_empty());
    assert!(report.errors.is_empty());
    assert!(filenames.is_empty(), "missing filenames: {:?}", filenames);
}

#[test]
fn argument_round_trip() {
    let (directive, args) = parse_line("foo bar=(1,2,3) baz=x qux").unwrap();
    assert_eq!(directive, "foo");
    let mut sorted = args.clone();
    sorted.sort();
    assert_eq!(
        sorted,
        vec![
            ("bar".to_string(), vec!["1".to_string(), "2".to_string(), "3".to_string()]),
            ("baz".to_string(), vec!["x".to_string()]),
            ("qux".to_string(), vec![]),
        ]
    );
}

#[test]
fn directive_spacing_and_empty_list() {
    let (directive, args) = parse_line("  hello  world = ( a , b )  none=() flag").unwrap();
    assert_eq!(directive, "hello");
    assert_eq!(
        args,
        vec![
            ("world".to_string(), vec!["a".to_string(), "b".to_string()]),
            ("none".to_string(), vec![]),
            ("flag".to_string(), vec![]),
        ]
    );
}

#[test]
fn duplicate_argument_rejected() {
    let e = parse_line("foo x=1 x=2").unwrap_err();
    assert_eq!(parse_message(&e), "duplicate argument: x");
}

#[test]
fn directive_errors() {
    assert_eq!(parse_message(&parse_line("").unwrap_err()), "expected directive but directive line ended");
    assert_eq!(parse_message(&parse_line("foo =x").unwrap_err()), "expected argument name, got =");
    assert_eq!(parse_message(&parse_line("foo x=").unwrap_err()), "expected argument value but directive line ended");
    assert_eq!(parse_message(&parse_line("foo x=(1,)").unwrap_err()), "expected argument value, got )");
    assert_eq!(parse_message(&parse_line("foo x=(1 2)").unwrap_err()), "expected ',' or ')', got '2'");
    assert_eq!(parse_message(&parse_line("foo x=(1").unwrap_err()), "expected ',' or '', but directive line ended");
}

#[test]
fn blank_mode_necessity() {
    let mut w = String::new();
    write_result(&mut w, "a\n\nb\n");
    assert_eq!(w, "----\n----\na\n\nb\n----\n----\n");
    let c = one_case(&format!("cmd\n{}", w));
    assert_eq!(c.expected, "a\n\nb\n");
}

#[test]
fn no_newline_round_trip() {
    let mut w = String::new();
    write_result(&mut w, "abc");
    assert_eq!(w, "----\n----\nabc\n----\n---- (no newline)\n");
    let c = one_case(&format!("cmd\n{}", w));
    assert_eq!(c.expected, "abc");
}

#[test]
fn write_result_forms() {
    let mut w = String::new();
    write_result(&mut w, "");
    assert_eq!(w, "----\n");
    let mut w = String::new();
    write_result(&mut w, "\n");
    assert_eq!(w, "----\n");
    let mut w = String::new();
    write_result(&mut w, "x\ny\n");
    assert_eq!(w, "----\nx\ny\n");
}

#[test]
fn fail_fast_ordering() {
    let text = "echo\na\n----\na\n\necho\nb\n----\nwrong\n\necho\nc\n----\nc\n";
    let mut tf = TestFile::new("cases".to_string(), text).unwrap();
    let mut seen: Vec<String> = Vec::new();
    tf.run_normal(|c| {
        seen.push(c.input.clone());
        Ok(c.input.clone())
    });
    assert_eq!(seen, vec!["a\n".to_string(), "b\n".to_string()]);
    assert_eq!(
        tf.failure,
        Some("failure:\ncases:6:\nb\n\nexpected:\nwrong\n\nactual:\nb\n".to_string())
    );
}

#[test]
fn evaluation_error_stops_the_pass() {
    let text = "err\nx\n----\nx\n\necho\ny\n----\ny\n";
    let mut tf = TestFile::new("f".to_string(), text).unwrap();
    let mut count = 0;
    tf.run_normal(|_| {
        count += 1;
        Err("oh no!".to_string())
    });
    assert_eq!(count, 1);
    assert_eq!(tf.failure, Some("failure:\nf:1:\nx\n\noh no!".to_string()));
}

#[test]
fn argument_consumption() {
    let mut c = one_case("cmd one=1\nin\n----\nout\n");
    let v: u64 = c.take_arg("one").unwrap();
    assert_eq!(v, 1);
    assert!(c.expect_empty().is_ok());

    let mut c = one_case("cmd one=1 extra\nin\n----\nout\n");
    let v: u64 = c.take_arg("one").unwrap();
    assert_eq!(v, 1);
    match c.expect_empty() {
        Err(DataDrivenError::DidntUseAllArguments(keys)) => assert_eq!(keys, vec!["extra".to_string()]),
        other => panic!("unexpected: {:?}", other),
    }
}

#[test]
fn replicate_scenario() {
    let text = "replicate times=3\nhi\n----\nhihihi\n\n";
    let mut tf = TestFile::new("r".to_string(), text).unwrap();
    tf.run_normal(repeat_handler);
    assert_eq!(tf.failure, None);

    let changed = text.replace("times=3", "times=4");
    let mut tf = TestFile::new("r".to_string(), &changed).unwrap();
    let out = tf.run_rewrite(repeat_handler).unwrap();
    assert_eq!(out, "replicate times=4\nhi\n----\nhihihihi\n");
    let again = TestFile::new("r".to_string(), &out).unwrap();
    assert_eq!(cases(&again)[0].expected, "hihihihi\n");
}

#[test]
fn round_trip_of_a_canonical_file() {
    let text = "# a comment\n\necho\nhello\n----\nhello\n\nblank\nx\n----\n----\na\n\nb\n----\n----\n\nstrip\ny\n----\n----\ny\n----\n---- (no newline)\n";
    let tf = TestFile::new("f".to_string(), text).unwrap();
    assert_eq!(tf.to_text(), text);
    let cs = cases(&tf);
    assert_eq!(cs.len(), 3);
    assert_eq!(cs[1].expected, "a\n\nb\n");
    assert_eq!(cs[2].expected, "y");
    assert_eq!(cs[2].line_number, 18);
}

#[test]
fn rewrite_is_idempotent() {
    let text = "echo\nhello\n----\nold\n\n# note\necho\nworld\n----\n----\nstale\n\nx\n----\n----\n";
    let eval = |c: &mut TestCase| -> Result<String, String> {
        Ok(format!("{}\n\n{}", c.input.trim(), c.input.trim()))
    };
    let mut tf = TestFile::new("f".to_string(), text).unwrap();
    let first = tf.run_rewrite(eval).unwrap();
    let mut tf2 = TestFile::new("f".to_string(), &first).unwrap();
    let second = tf2.run_rewrite(eval).unwrap();
    assert_eq!(first, second);
}

#[test]
fn rewrite_stops_on_error() {
    let mut tf = TestFile::new("f".to_string(), "a\n----\n\nb\n----\n").unwrap();
    let r = tf.run_rewrite(|c| if c.directive == "b" { Err("bad".to_string()) } else { Ok("ok\n".to_string()) });
    assert_eq!(r, Err("bad".to_string()));
}

#[test]
fn comments_and_stanzas() {
    let tf = TestFile::new("f".to_string(), "  # only a comment\necho # trailing\nin\n----\nout\n").unwrap();
    match &tf.stanzas[0] {
        Stanza::Comment(c) => assert_eq!(c, "  # only a comment"),
        _ => panic!("expected a comment"),
    }
    let c = cases(&tf).remove(0);
    assert_eq!(c.directive, "echo");
    assert_eq!(c.directive_line, "echo # trailing");
    assert_eq!(c.input, "in\n");
    assert_eq!(c.expected, "out\n");
    assert_eq!(c.line_number, 2);
}

#[test]
fn unclosed_block_is_an_error() {
    let e = TestFile::new("f".to_string(), "cmd\nin\n----\n----\nbody\n").unwrap_err();
    match e {
        DataDrivenError::WithContext { filename, line, inner } => {
            assert_eq!(filename, "f");
            assert_eq!(line, 0);
            assert_eq!(parse_message(&inner), "unclosed double-separator block for test case starting at line 1");
        }
        other => panic!("unexpected: {:?}", other),
    }
}

#[test]
fn bad_directive_reports_line_and_file() {
    let e = TestFile::new("data/f".to_string(), "\n\nfoo x=1 x=2\n----\n").unwrap_err();
    match e {
        DataDrivenError::WithContext { filename, line, inner } => {
            assert_eq!(filename, "data/f");
            assert_eq!(line, 3);
            assert_eq!(parse_message(&inner), "duplicate argument: x");
        }
        other => panic!("unexpected: {:?}", other),
    }
}

#[test]
fn take_flag_and_errors() {
    let mut c = one_case("cmd zero one=1 two=(1,2) word=abc\n----\n");
    assert!(c.take_flag("zero").unwrap());
    assert!(!c.take_flag("zero").unwrap());
    let e = c.take_flag("one").unwrap_err();
    assert_eq!(argument_message(&e), "must be no arguments to take_flag, one had 1");
    let e = c.take_arg::<u64>("two").unwrap_err();
    assert_eq!(argument_message(&e), "must be exactly one argument to take_arg, two had 2");
    let e = c.take_arg::<u64>("word").unwrap_err();
    assert_eq!(argument_message(&e), "couldn't parse: abc");
    let e = c.take_arg::<u64>("missing").unwrap_err();
    assert_eq!(argument_message(&e), "no argument named missing");
    assert!(c.expect_empty().is_ok());
}

#[test]
fn try_take_forms() {
    let mut c = one_case("cmd one=1 two=(1,2) flag bad=(1,x)\n----\n");
    assert_eq!(c.try_take_arg::<u64>("one").unwrap(), Some(1));
    assert_eq!(c.try_take_arg::<u64>("one").unwrap(), None);
    assert_eq!(c.try_take_args::<u64>("two").unwrap(), Some(vec![1, 2]));
    assert_eq!(c.try_take_args::<u64>("two").unwrap(), None);
    assert_eq!(c.take_args::<u64>("flag").unwrap(), Vec::<u64>::new());
    let e = c.take_args::<u64>("bad").unwrap_err();
    assert_eq!(argument_message(&e), "couldn't parse: x");
    let e = c.take_args::<u64>("gone").unwrap_err();
    assert_eq!(argument_message(&e), "no argument named gone");
    let s: String = one_case("cmd suffix=abc\n----\n").take_arg("suffix").unwrap();
    assert_eq!(s, "abc");
}

#[test]
fn ignored_file_names() {
    assert!(should_ignore_file(".hidden"));
    assert!(should_ignore_file("backup~"));
    assert!(should_ignore_file("#scratch#"));
    assert!(!should_ignore_file("#only-start"));
    assert!(!should_ignore_file("plain"));
    assert!(!should_ignore_file(""));
}

#[test]
fn walk_exclusion_and_report() {
    let files = vec![
        ("a".to_string(), "echo\nx\n----\nx\n".to_string()),
        ("excluded".to_string(), "echo\nx\n----\nx\n".to_string()),
        ("c".to_string(), "echo\nx\n----\ny\n".to_string()),
    ];
    let rep = walk_exclusive(
        &files,
        |f| f.run_normal(|c| Ok(c.input.clone())),
        |f| f.filename.contains("excluded"),
    );
    assert_eq!(rep.excluded, 1);
    assert!(rep.errors.is_empty());
    assert_eq!(rep.failures, vec!["failure:\nc:1:\nx\n\nexpected:\ny\n\nactual:\nx\n".to_string()]);
    assert_eq!(failure_report(&rep.failures), "failure:\nc:1:\nx\n\nexpected:\ny\n\nactual:\nx\n\n");
}

#[test]
fn walk_goes_on_after_a_parse_error() {
    let files = vec![
        ("ok".to_string(), String::new()),
        ("bad".to_string(), "x=\n".to_string()),
        ("after".to_string(), "echo\nx\n----\ny\n".to_string()),
    ];
    let mut seen: Vec<String> = Vec::new();
    let rep = walk(&files, |f| {
        seen.push(f.filename.clone());
        f.run_normal(|c| Ok(c.input.clone()));
    });
    assert_eq!(seen, vec!["ok".to_string(), "after".to_string()]);
    assert_eq!(rep.failures.len(), 1);
    assert_eq!(rep.errors.len(), 1);
    match &rep.errors[0] {
        DataDrivenError::WithContext { filename, line, .. } => {
            assert_eq!(filename, "bad");
            assert_eq!(*line, 1);
        }
        other => panic!("unexpected: {:?}", other),
    }
}

#[test]
fn with_line_and_filename() {
    let e = DataDrivenError::Argument("x".to_string()).with_line(4).with_filename("f".to_string());
    match e {
        DataDrivenError::WithContext { line, filename, inner } => {
            assert_eq!(line, 4);
            assert_eq!(filename, "f");
            assert_eq!(argument_message(&inner), "x");
        }
        other => panic!("unexpected: {:?}", other),
    }
    let io = DataDrivenError::Io(std::io::Error::new(std::io::ErrorKind::NotFound, "gone"));
    assert!(matches!(io.with_filename("g".to_string()), DataDrivenError::WithContext { line: 0, .. }));
}

#[test]
fn crlf_and_whitespace_lines() {
    let c = one_case("echo\r\nin\r\n----\r\nout\r\n \r\n");
    assert_eq!(c.directive_line, "echo");
    assert_eq!(c.input, "in\n");
    assert_eq!(c.expected, "out\n");
}

#[test]
fn outcome_checks() {
    let c = one_case("echo\nin\n----\nout\n");
    assert_eq!(check_outcome(&"f".to_string(), &c, &Ok("out\n".to_string())), None);
    assert_eq!(
        check_outcome(&"f".to_string(), &c, &Ok("other\n".to_string())),
        Some("failure:\nf:1:\nin\n\nexpected:\nout\n\nactual:\nother\n".to_string())
    );
    assert_eq!(
        check_outcome(&"f".to_string(), &c, &Err("boom".to_string())),
        Some("failure:\nf:1:\nin\n\nboom".to_string())
    );
}

#[test]
fn render_with_new_outputs() {
    let tf = TestFile::new("f".to_string(), "# c\na\nx\n----\nold\n\nb\n----\n").unwrap();
    let text = render_stanzas(&tf.stanzas, &vec!["new\n".to_string(), "last".to_string()]);
    assert_eq!(text, "# c\na\nx\n----\nnew\n\nb\n----\n----\nlast\n----\n---- (no newline)\n");
}

#[test]
fn stepwise_pass() {
    let text = "# c\na\nx\n----\nx\n\nb\ny\n----\nz\n\nc\nw\n----\nw\n";
    let mut tf = TestFile::new("s".to_string(), text).unwrap();
    let first = tf.next_case(0).unwrap();
    assert_eq!(first, 1);
    assert!(!tf.record_outcome(first, Ok("x\n".to_string())));
    assert_eq!(tf.failure, None);
    let second = tf.next_case(first + 1).unwrap();
    assert_eq!(second, 3);
    assert!(tf.record_outcome(second, Ok("y\n".to_string())));
    assert_eq!(tf.failure, Some("failure:\ns:7:\ny\n\nexpected:\nz\n\nactual:\ny\n".to_string()));
    assert_eq!(tf.next_case(6), None);
}
