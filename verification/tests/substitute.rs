use clg::config::Library;
use clg::substitute::{replace_placeholders, substitute};
use indexmap::IndexMap;

fn library(source: &str, commit: &str, variables: &[(&str, &str)]) -> Library {
    let mut map = IndexMap::new();
    for (name, value) in variables {
        map.insert(name.to_string(), value.to_string());
    }
    Library {
        source: source.to_string(),
        commit: commit.to_string(),
        variables: map,
        steps: IndexMap::new(),
    }
}

#[test]
fn source_commit_and_variable_are_filled_in() {
    let library = library("http://x", "deadbeef", &[("lib", "foo")]);
    assert_eq!(
        substitute("clone $source at $commit into $lib", &library),
        "clone http://x at deadbeef into foo"
    );
}

#[test]
fn unknown_placeholder_stays_as_written() {
    let library = library("http://x", "deadbeef", &[("lib", "foo")]);
    assert_eq!(substitute("echo $name $ $$ $LIB", &library), "echo $name $ $$ $LIB");
    assert_eq!(replace_placeholders("echo $name", &library.variables), "echo $name");
}

#[test]
fn command_without_placeholder_stays_as_written() {
    let library = library("s", "c", &[("a", "1")]);
    assert_eq!(substitute("make -j4 all", &library), "make -j4 all");
    assert_eq!(substitute("", &library), "");
}

#[test]
fn no_variables_leave_the_command_to_source_and_commit() {
    let library = library("s", "c", &[]);
    assert_eq!(replace_placeholders("$a $source", &library.variables), "$a $source");
    assert_eq!(substitute("$a $source $commit", &library), "$a s c");
}

#[test]
fn every_occurrence_is_filled_in() {
    let library = library("s", "c", &[("a", "1")]);
    assert_eq!(substitute("$a$a $a-$source$source", &library), "11 1-ss");
}

#[test]
fn replace_placeholders_leaves_source_and_commit() {
    let library = library("s", "c", &[("a", "1")]);
    assert_eq!(replace_placeholders("$a $source $commit", &library.variables), "1 $source $commit");
}

#[test]
fn placeholder_is_found_inside_a_longer_word() {
    let library = library("s", "c", &[("a", "1")]);
    assert_eq!(substitute("$ab x$a", &library), "1b x1");
}

#[test]
fn variables_go_in_the_order_of_the_map() {
    let short_first = library("s", "c", &[("lib", "L"), ("libdir", "D")]);
    assert_eq!(substitute("$libdir", &short_first), "Ldir");
    let long_first = library("s", "c", &[("libdir", "D"), ("lib", "L")]);
    assert_eq!(substitute("$libdir $lib", &long_first), "D L");
}

#[test]
fn variables_go_before_source_and_commit() {
    let library = library("S", "C", &[("so", "X"), ("commit", "mine")]);
    assert_eq!(substitute("$source $commit", &library), "Xurce mine");
}

#[test]
fn later_pass_does_not_search_what_an_earlier_pass_put_in() {
    let library = library("S", "C", &[("a", "$b"), ("b", "$a $source")]);
    assert_eq!(substitute("$a", &library), "$b");
    assert_eq!(substitute("$b", &library), "$a $source");
    assert_eq!(substitute("$a $b", &library), "$b $a $source");
    assert_eq!(replace_placeholders("$a", &library.variables), "$b");
}

#[test]
fn value_that_names_a_later_variable_stays_as_it_is() {
    let library = library("", "", &[("x", "$y"), ("y", "2")]);
    assert_eq!(substitute("echo $x", &library), "echo $y");
    assert_eq!(substitute("echo $x $y", &library), "echo $y 2");
}

#[test]
fn pass_does_not_look_again_at_what_it_put_in() {
    let library = library("$source", "$commit$commit", &[("a", "$a!")]);
    assert_eq!(substitute("$a", &library), "$a!");
    assert_eq!(substitute("$source", &library), "$source");
    assert_eq!(substitute("$commit", &library), "$commit$commit");
}

#[test]
fn values_of_source_and_commit_are_not_searched() {
    let library = library("$commit", "$source", &[]);
    assert_eq!(substitute("$source", &library), "$commit");
    assert_eq!(substitute("$commit", &library), "$source");
    assert_eq!(substitute("$source $commit", &library), "$commit $source");
}

#[test]
fn placeholder_is_not_found_across_what_was_put_in() {
    let library = library("S", "C", &[("a", ""), ("b", "ource")]);
    assert_eq!(substitute("$s$aource", &library), "$source");
    assert_eq!(substitute("$s$b", &library), "$source");
    assert_eq!(substitute("$$acommit", &library), "$commit");
}

#[test]
fn occurrences_are_taken_from_the_left_without_overlap() {
    let library = library("S", "C", &[("$", "x")]);
    assert_eq!(replace_placeholders("$$$", &library.variables), "x$");
    assert_eq!(replace_placeholders("$$$$", &library.variables), "xx");
    assert_eq!(replace_placeholders("$", &library.variables), "$");
}

#[test]
fn one_pass_agrees_with_plain_replacement() {
    let texts = ["", "$", "$x", "a$xb", "$x$x", "$$x$", "$xy $x", "x$", "say $x twice: $x"];
    for name in ["x", "", "xy", "$"] {
        let library = library("S", "C", &[(name, "<$x>")]);
        let pattern = format!("${}", name);
        for text in texts {
            assert_eq!(
                replace_placeholders(text, &library.variables),
                text.replace(&pattern, "<$x>")
            );
        }
    }
}

#[test]
fn characters_of_several_bytes_pass_through() {
    let library = library("\u{e9}", "C", &[("n\u{e4}me", "\u{1f600}")]);
    assert_eq!(substitute("\u{fc} $n\u{e4}me $source \u{df}", &library), "\u{fc} \u{1f600} \u{e9} \u{df}");
}
