use goreutils::args::{construct, Arg, Parse, Round, Rule};

fn all(args: &[&'static str]) -> Vec<(char, &'static str)> {
    let mut parse = Parse::new(args.to_vec());
    let mut out = vec![];
    while let Some(a) = parse.next() {
        let kind = match a {
            Arg::Long(_) => 'l',
            Arg::Short(_) => 's',
            Arg::Value(_) => 'v',
        };
        out.push((kind, a.as_str()));
    }
    assert!(parse.next().is_none());
    out
}

#[test]
fn options_are_told_from_values() {
    assert_eq!(all(&[]), vec![]);
    assert_eq!(all(&["a", "b"]), vec![('v', "a"), ('v', "b")]);
    assert_eq!(all(&["--help", "x"]), vec![('l', "help"), ('v', "x")]);
    assert_eq!(all(&["-o", "x"]), vec![('s', "o"), ('v', "x")]);
    assert_eq!(all(&[""]), vec![('v', "")]);
}

#[test]
fn a_cluster_gives_its_characters_one_by_one() {
    assert_eq!(all(&["-abc", "x"]), vec![('s', "a"), ('s', "b"), ('s', "c"), ('v', "x")]);
    assert_eq!(all(&["-", "x"]), vec![('v', "x")]);
    assert_eq!(all(&["-é"]), vec![('s', "é")]);
}

#[test]
fn leading_dashes_are_taken_off() {
    assert_eq!(all(&["----x"]), vec![('l', "x")]);
    assert_eq!(all(&["---x"]), vec![('l', "-x")]);
    assert_eq!(all(&["----"]), vec![('l', "")]);
    assert_eq!(all(&["---"]), vec![('l', "-")]);
    assert_eq!(all(&["--a--b"]), vec![('l', "a--b")]);
}

#[test]
fn after_two_dashes_all_is_a_value() {
    assert_eq!(
        all(&["-a", "--", "-b", "--c", "--", "d"]),
        vec![('s', "a"), ('v', "-b"), ('v', "--c"), ('v', "--"), ('v', "d")]
    );
    assert_eq!(all(&["--"]), vec![]);
}

fn rules() -> Vec<Rule<'static>> {
    vec![
        Rule { name: "help", short: None, arity: 0 },
        Rule { name: "output", short: Some('o'), arity: 1 },
        Rule { name: "size", short: Some('d'), arity: 2 },
        Rule { name: "output", short: Some('d'), arity: 0 },
    ]
}

fn rounds(args: &[&'static str]) -> (Vec<String>, Vec<&'static str>) {
    let rules = rules();
    let mut parse = Parse::new(args.to_vec());
    let mut params = vec![];
    let mut out = vec![];
    loop {
        let r = construct(&mut parse, &rules, &mut params);
        let stop = !matches!(r, Round::Value(_) | Round::Call(_));
        out.push(format!("{:?}", r));
        if stop {
            break;
        }
    }
    (out, params)
}

#[test]
fn an_option_is_matched_against_the_first_rule_that_fits() {
    let (out, params) = rounds(&["--help", "a", "--output", "x", "-d", "3", "4", "b"]);
    assert_eq!(
        out,
        vec!["Call(0)", "Value(\"a\")", "Call(1)", "Call(2)", "Value(\"b\")", "Done"]
    );
    assert_eq!(params, vec!["x", "3", "4"]);
    let (out, params) = rounds(&["-o", "-x"]);
    assert_eq!(out, vec!["Call(1)", "Done"]);
    assert_eq!(params, vec!["x"]);
}

#[test]
fn each_failure_of_a_round_has_its_input() {
    assert_eq!(rounds(&["--nope"]).0, vec!["Unrecognized(\"nope\")"]);
    assert_eq!(rounds(&["-x"]).0, vec!["Invalid(\"x\")"]);
    assert_eq!(rounds(&["--size", "1"]), (vec!["MissingLong(\"size\", 2)".to_string()], vec!["1"]));
    assert_eq!(rounds(&["-o"]).0, vec!["MissingShort(\"o\", 1, \"output\")"]);
    assert_eq!(rounds(&["a", "--help", "-q", "b"]).0, vec!["Value(\"a\")", "Call(0)", "Invalid(\"q\")"]);
}
