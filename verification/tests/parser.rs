use clg::config::{Config, Library};
use clg::lex::ConfigSyntaxError;
use clg::parser::{lines_of, parse, parse_lines};

fn parsed(text: &str) -> Config {
    match parse(text) {
        Ok(config) => config,
        Err(error) => panic!("line {}: {}", error.line, error.content),
    }
}

fn names(config: &Config) -> Vec<&str> {
    config.libraries.keys().map(|name| name.as_str()).collect()
}

fn library<'a>(config: &'a Config, name: &str) -> &'a Library {
    match config.libraries.get(name) {
        Some(library) => library,
        None => panic!("no library {}", name),
    }
}

fn steps(library: &Library) -> Vec<(&str, Vec<&str>)> {
    library
        .steps
        .iter()
        .map(|(name, commands)| (name.as_str(), commands.iter().map(|c| c.as_str()).collect()))
        .collect()
}

fn variables(library: &Library) -> Vec<(&str, &str)> {
    library.variables.iter().map(|(name, value)| (name.as_str(), value.as_str())).collect()
}

const SAMPLE: &str = "[library-name]
source = \"https://example.org/repo\"
commit = \"abcdef0\"
custom_var = \"value\"
#step-name:
    command one $custom_var
    command two $source $commit
#other-step:
    command three
%end
";

#[test]
fn sample_configuration_is_read() {
    let config = parsed(SAMPLE);
    assert_eq!(names(&config), vec!["library-name"]);
    let library = library(&config, "library-name");
    assert_eq!(library.source, "https://example.org/repo");
    assert_eq!(library.commit, "abcdef0");
    assert_eq!(variables(library), vec![("custom_var", "value")]);
    assert_eq!(
        steps(library),
        vec![
            ("step-name", vec!["command one value", "command two https://example.org/repo abcdef0"]),
            ("other-step", vec!["command three"]),
        ]
    );
}

#[test]
fn empty_text_is_an_empty_configuration() {
    assert_eq!(parsed("").libraries.len(), 0);
    assert_eq!(parsed("\n\n").libraries.len(), 0);
    assert_eq!(parsed("%end").libraries.len(), 0);
}

#[test]
fn libraries_stand_in_the_order_of_their_declaration() {
    let config = parsed("[zeta]\n[alpha]\nsource = a\n[mid]\n#s:\nrun\n[beta]\n%end\n");
    assert_eq!(names(&config), vec!["zeta", "alpha", "mid", "beta"]);
    assert_eq!(config.libraries.len(), 4);
}

#[test]
fn library_without_content_is_there_and_empty() {
    let config = parsed("[bare]");
    let library = library(&config, "bare");
    assert_eq!(library.source, "");
    assert_eq!(library.commit, "");
    assert_eq!(library.variables.len(), 0);
    assert_eq!(library.steps.len(), 0);
}

#[test]
fn library_declared_twice_keeps_its_place_and_takes_the_later_block() {
    let text = "[a]\nsource = first\nx = 1\n#build:\nold\n[b]\n[a]\ncommit = later\n#test:\nnew\n";
    let config = parsed(text);
    assert_eq!(names(&config), vec!["a", "b"]);
    let library = library(&config, "a");
    assert_eq!(library.source, "");
    assert_eq!(library.commit, "later");
    assert_eq!(library.variables.len(), 0);
    assert_eq!(steps(library), vec![("test", vec!["new"])]);
}

#[test]
fn same_block_twice_gives_one_library() {
    let block = "[a]\nsource = s\n#build:\nmake $source\n";
    let config = parsed(&format!("{}{}", block, block));
    assert_eq!(names(&config), vec!["a"]);
    assert_eq!(steps(library(&config, "a")), vec![("build", vec!["make s"])]);
}

#[test]
fn step_declared_twice_keeps_its_place_and_takes_the_later_commands() {
    let config = parsed("[a]\n#build:\none\ntwo\n#test:\nt\n#build:\nthree\n");
    assert_eq!(
        steps(library(&config, "a")),
        vec![("build", vec!["three"]), ("test", vec!["t"])]
    );
}

#[test]
fn variable_assigned_twice_keeps_its_place_and_takes_the_later_value() {
    let config = parsed("[a]\nx = 1\ny = 2\nx = 3\n#s:\necho $x $y\n");
    let library = library(&config, "a");
    assert_eq!(variables(library), vec![("x", "3"), ("y", "2")]);
    assert_eq!(steps(library), vec![("s", vec!["echo 3 2"])]);
}

#[test]
fn source_and_commit_are_no_variables() {
    let config = parsed("[a]\nsource = s\ncommit = c\nSource = other\n");
    let library = library(&config, "a");
    assert_eq!(library.source, "s");
    assert_eq!(library.commit, "c");
    assert_eq!(variables(library), vec![("Source", "other")]);
}

#[test]
fn assignment_after_a_step_header_is_a_command() {
    let config = parsed("[a]\nx = 1\n#early:\necho $x $y\ny = 2\nsource = s\n#late:\necho $x $y [$source]\n");
    let library = library(&config, "a");
    assert_eq!(variables(library), vec![("x", "1")]);
    assert_eq!(library.source, "");
    assert_eq!(
        steps(library),
        vec![("early", vec!["echo 1 $y", "y = 2", "source = s"]), ("late", vec!["echo 1 $y []"])]
    );
}

#[test]
fn value_put_into_a_command_is_not_searched_for_placeholders() {
    let config = parsed("[a]\nx = \"$y\"\ny = \"2\"\n#s:\necho $x\n");
    assert_eq!(steps(library(&config, "a")), vec![("s", vec!["echo $y"])]);
}

#[test]
fn unset_source_and_commit_fill_in_as_nothing() {
    let config = parsed("[a]\n#s:\nclone [$source] at [$commit]\n");
    assert_eq!(steps(library(&config, "a")), vec![("s", vec!["clone [] at []"])]);
}

#[test]
fn step_without_commands_is_stored_empty() {
    let config = parsed("[a]\n#empty:\n#next:\nrun\n#last:\n");
    assert_eq!(
        steps(library(&config, "a")),
        vec![("empty", vec![]), ("next", vec!["run"]), ("last", vec![])]
    );
}

#[test]
fn nothing_after_the_end_marker_is_read() {
    let config = parsed("[a]\n#s:\nrun\n%end\nmore\n[b]\nsource = x\n#:\n");
    assert_eq!(names(&config), vec!["a"]);
    assert_eq!(steps(library(&config, "a")), vec![("s", vec!["run"])]);
}

#[test]
fn end_marker_in_token_mode_ends_the_configuration() {
    let config = parsed("[a]\nsource = s\n%end\ncommit = c\n[b]\n");
    assert_eq!(names(&config), vec!["a"]);
    assert_eq!(library(&config, "a").commit, "");
}

#[test]
fn step_header_without_a_name_fails_the_whole_parse() {
    let result = parse("[a]\nsource = s\n\n  #:\n[b]\n");
    match result {
        Err(error) => {
            assert_eq!(error, ConfigSyntaxError { line: 4, content: "  #:".to_string() })
        }
        Ok(_) => panic!("accepted"),
    }
}

#[test]
fn step_header_with_a_name_does_not_fail() {
    assert!(parse("[a]\n#x:\n").is_ok());
}

#[test]
fn nameless_step_header_among_commands_fails_too() {
    let result = parse("[a]\n#s:\nrun\n#:\nmore\n");
    match result {
        Err(error) => assert_eq!(error, ConfigSyntaxError { line: 4, content: "#:".to_string() }),
        Ok(_) => panic!("accepted"),
    }
}

#[test]
fn nameless_step_header_before_any_library_fails() {
    assert!(parse("#:\n[a]\n").is_err());
}

#[test]
fn what_stands_before_the_first_library_is_dropped() {
    let config = parsed("x = 1\n#lost:\nrun $x\nCC=gcc make\n[a]\n#s:\necho $x\n");
    assert_eq!(names(&config), vec!["a"]);
    let library = library(&config, "a");
    assert_eq!(library.variables.len(), 0);
    assert_eq!(steps(library), vec![("s", vec!["echo $x"])]);
}

#[test]
fn empty_lines_and_comments_change_nothing() {
    let plain = parsed(SAMPLE);
    let mut lines: Vec<&str> = SAMPLE.lines().collect();
    let count = lines.len();
    let mut at = 0;
    while at <= count {
        for extra in ["", "   ", "/* note */", "\t/* [x] = #y: */  "] {
            lines.insert(at, extra);
            let config = match parse_lines(&lines) {
                Ok(config) => config,
                Err(_) => panic!("refused"),
            };
            assert_eq!(names(&config), names(&plain));
            let (a, b) = (library(&config, "library-name"), library(&plain, "library-name"));
            assert_eq!(a.source, b.source);
            assert_eq!(a.commit, b.commit);
            assert_eq!(variables(a), variables(b));
            assert_eq!(steps(a), steps(b));
            lines.remove(at);
        }
        at += 1;
    }
}

#[test]
fn lines_end_at_line_feeds() {
    assert_eq!(lines_of("a\nb"), vec!["a", "b"]);
    assert_eq!(lines_of("a\nb\n"), vec!["a", "b"]);
    assert_eq!(lines_of("a\n\nb\n\n"), vec!["a", "", "b", ""]);
    assert_eq!(lines_of("\n"), vec![""]);
    assert_eq!(lines_of("one line"), vec!["one line"]);
    assert_eq!(lines_of(""), Vec::<&str>::new());
}

#[test]
fn carriage_return_before_a_line_feed_is_no_part_of_the_line() {
    assert_eq!(lines_of("a\r\nb\r\n"), vec!["a", "b"]);
    assert_eq!(lines_of("a\r\r\nb\r"), vec!["a\r", "b\r"]);
    assert_eq!(lines_of("\r\n\r\n"), vec!["", ""]);
    assert_eq!(lines_of("a\rb\n"), vec!["a\rb"]);
}

#[test]
fn lines_agree_with_the_standard_library() {
    for text in ["", "\n", "a", "a\n", "a\r\n", "\r", "\r\n", "a\n\rb", "x\r\n\r\ny\n\n", "\u{e9}\n\u{1f600}\r\n"] {
        let expected: Vec<&str> = text.lines().collect();
        assert_eq!(lines_of(text), expected);
    }
}

#[test]
fn windows_line_endings_are_read() {
    let config = parsed("[a]\r\nsource = \"s\"\r\n#build:\r\n  make\r\n%end\r\n");
    let library = library(&config, "a");
    assert_eq!(library.source, "s");
    assert_eq!(steps(library), vec![("build", vec!["make"])]);
}

#[test]
fn parse_lines_reads_what_parse_reads() {
    let lines = ["[a]", "k = v", "#s:", "echo $k"];
    let config = match parse_lines(&lines) {
        Ok(config) => config,
        Err(_) => panic!("refused"),
    };
    assert_eq!(steps(library(&config, "a")), vec![("s", vec!["echo v"])]);
}
