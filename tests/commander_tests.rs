use commander::{CmdArgumentValue, CmdOptionValueType, Commander};

fn strings(v: &[&str]) -> Vec<String> {
    v.iter().map(|s| s.to_string()).collect()
}

fn parsed(opts: &[(&str, &str, CmdOptionValueType)], args: &[&str]) -> Commander {
    let mut cmd = Commander::new();
    for (s, l, t) in opts {
        cmd.add_option(s, l, "description", *t);
    }
    let args = strings(args);
    cmd.add_executable_arg(&args);
    cmd.parse_args(args).unwrap();
    cmd
}

#[test]
fn test_add_1_option() {
    let mut cmd = Commander::new();

    cmd.add_option("1", "one", "Option 1 description", CmdOptionValueType::NoValue);
    assert_eq!(1, cmd.option_count());
}

#[test]
fn test_add_2_options() {
    let mut cmd = Commander::new();

    cmd.add_option("v", "version", "Prints the version of the application", CmdOptionValueType::NoValue);
    cmd.add_option("h", "help", "Prints this help", CmdOptionValueType::NoValue);
    assert_eq!(cmd.option_count(), 2);
}

#[test]
fn test_get_number_arg() {
    let mut cmd = Commander::new();
    let args = vec!["test_executable".to_string(), "-c".to_string(), "10".to_string()];
    cmd.add_option("c", "count", "Number of iterations", CmdOptionValueType::Number);
    cmd.add_executable_arg(&args);
    cmd.parse_args(args).unwrap();
    assert_eq!(10, cmd.get_number_option("c", false).unwrap());
}

#[test]
fn test_get_float_arg() {
    let mut cmd = Commander::new();
    let args = vec!["test_executable".to_string(), "-b".to_string(), "0.10".to_string()];
    cmd.add_option("b", "balance", "Balance amount", CmdOptionValueType::Float);
    cmd.add_executable_arg(&args);
    cmd.parse_args(args).unwrap();
    assert_eq!(0.10, cmd.get_float_option("b", false).unwrap().parse::<f32>().unwrap());
}

#[test]
fn test_get_string_arg() {
    let mut cmd = Commander::new();
    let args = vec!["test_executable".to_string(), "-f".to_string(), "textfile.txt".to_string()];
    cmd.add_option("f", "file", "File name", CmdOptionValueType::String);
    cmd.add_executable_arg(&args);
    cmd.parse_args(args).unwrap();
    assert_eq!("textfile.txt", cmd.get_string_option("f", false).unwrap());
}

#[test]
fn duplicates_are_counted() {
    let mut cmd = Commander::new();
    cmd.add_option("a", "alpha", "first", CmdOptionValueType::NoValue);
    cmd.add_option("a", "alpha", "second", CmdOptionValueType::NoValue);
    cmd.add_option("b", "beta", "third", CmdOptionValueType::String);
    assert_eq!(3, cmd.option_count());
}

#[test]
fn help_lists_options_sorted_by_short_form() {
    let mut cmd = Commander::new();
    cmd.add_option("v", "version", "Print the version", CmdOptionValueType::NoValue);
    cmd.add_option("h", "help", "Prints this help", CmdOptionValueType::NoValue);
    cmd.add_option("c", "count", "Count", CmdOptionValueType::Number);
    cmd.add_option("b", "balance", "Balance", CmdOptionValueType::Float);
    cmd.add_option("f", "file", "File", CmdOptionValueType::String);
    let expected = "Options available:\n\
        \t--balance, -b\t\t[Float]\t\tBalance\n\
        \t--count, -c\t\t[Number]\t\tCount\n\
        \t--file, -f\t\t[string]\t\tFile\n\
        \t--help, -h\t\t[no parameter]\t\tPrints this help\n\
        \t--version, -v\t\t[no parameter]\t\tPrint the version\n";
    let help = cmd.help();
    assert_eq!(expected, help);
    assert_eq!(6, help.lines().count());
}

#[test]
fn help_of_empty_registry_is_header_only() {
    let cmd = Commander::new();
    assert_eq!("Options available:\n", cmd.help());
}

#[test]
fn equal_short_forms_keep_insertion_order() {
    let mut cmd = Commander::new();
    cmd.add_option("x", "first", "one", CmdOptionValueType::Number);
    cmd.add_option("x", "second", "two", CmdOptionValueType::String);
    cmd.add_option("a", "early", "three", CmdOptionValueType::NoValue);
    let help = cmd.help();
    let lines: Vec<&str> = help.lines().collect();
    assert_eq!(4, lines.len());
    assert!(lines[1].starts_with("\t--early, -a"));
    assert!(lines[2].starts_with("\t--first, -x"));
    assert!(lines[3].starts_with("\t--second, -x"));
}

#[test]
fn executable_alone_gives_one_argument() {
    let cmd = parsed(&[("c", "count", CmdOptionValueType::Number)], &["exec"]);
    assert_eq!(1, cmd.arg_count());
    assert_eq!(0, cmd.diagnostics().len());
    let a = &cmd.arguments()[0];
    assert_eq!("__exec__", a.option());
    assert!(matches!(a.value(), CmdArgumentValue::String(s) if s == "exec"));
}

#[test]
fn float_of_string_option_is_absent() {
    let cmd = parsed(&[("f", "file", CmdOptionValueType::String)], &["exec", "-f", "1.5"]);
    assert_eq!(Some("1.5".to_string()), cmd.get_string_option("f", false));
    assert_eq!(None, cmd.get_float_option("f", false));
    assert_eq!(None, cmd.get_number_option("f", false));
}

#[test]
fn unknown_flag_is_reported_and_skipped() {
    let cmd = parsed(&[("c", "count", CmdOptionValueType::Number)], &["exec", "-z", "--zeta", "-c", "3"]);
    assert_eq!(vec!["[BAD] O(S): z".to_string(), "[BAD] O(L): zeta".to_string()], *cmd.diagnostics());
    assert_eq!(None, cmd.get_string_option("z", false));
    assert_eq!(None, cmd.get_number_option("zeta", true));
    assert_eq!(2, cmd.arg_count());
    assert_eq!(Some(3), cmd.get_number_option("c", false));
}

#[test]
fn stray_value_is_reported_and_dropped() {
    let cmd = parsed(&[("v", "version", CmdOptionValueType::NoValue)], &["exec", "-v", "loose"]);
    assert_eq!(vec!["[BAD?] V: loose".to_string()], *cmd.diagnostics());
    assert_eq!(2, cmd.arg_count());
}

#[test]
fn second_occurrence_wins() {
    let cmd = parsed(&[("c", "count", CmdOptionValueType::Number)], &["exec", "-c", "1", "--count", "2"]);
    assert_eq!(Some(2), cmd.get_number_option("c", false));
    assert_eq!(Some(2), cmd.get_number_option("count", true));
    assert_eq!(2, cmd.arg_count());
}

#[test]
fn long_form_resolves_to_short_name() {
    let cmd = parsed(&[("if", "input", CmdOptionValueType::String)], &["exec", "--input", "data.csv"]);
    assert_eq!(Some("data.csv".to_string()), cmd.get_string_option("if", false));
    assert_eq!(Some("data.csv".to_string()), cmd.get_string_option("input", true));
    assert_eq!(None, cmd.get_string_option("input", false));
    assert!(cmd.arguments().iter().any(|a| a.option() == "if"));
}

#[test]
fn missing_value_degrades_to_no_value() {
    let cmd = parsed(&[("c", "count", CmdOptionValueType::Number)], &["exec", "-c"]);
    assert_eq!(2, cmd.arg_count());
    assert_eq!(None, cmd.get_number_option("c", false));
    assert!(cmd.arguments().iter().any(|a| a.option() == "c" && matches!(a.value(), CmdArgumentValue::NoValue)));
}

#[test]
fn number_edges() {
    let opts = [("c", "count", CmdOptionValueType::Number)];
    assert_eq!(Some(-2147483648), parsed(&opts, &["e", "-c", "-2147483648"]).get_number_option("c", false));
    assert_eq!(Some(2147483647), parsed(&opts, &["e", "-c", "2147483647"]).get_number_option("c", false));
    assert_eq!(Some(5), parsed(&opts, &["e", "-c", "+5"]).get_number_option("c", false));
    assert_eq!(Some(12), parsed(&opts, &["e", "-c", "00012"]).get_number_option("c", false));
}

#[test]
fn bad_number_is_an_error() {
    for text in ["2147483648", "-2147483649", "abc", "", "-", "1.5", " 1"] {
        let mut cmd = Commander::new();
        cmd.add_option("c", "count", "Count", CmdOptionValueType::Number);
        let args = strings(&["exec", "-v", "-c", text, "-c", "4"]);
        cmd.add_executable_arg(&args);
        let e = cmd.parse_args(args).unwrap_err();
        assert_eq!("c", e.option);
        assert_eq!(text, e.text);
        assert_eq!(CmdOptionValueType::Number, e.expected);
        assert_eq!(None, cmd.get_number_option("c", false));
        assert_eq!(vec!["[BAD] O(S): v".to_string()], *cmd.diagnostics());
    }
}

#[test]
fn float_texts() {
    let opts = [("b", "balance", CmdOptionValueType::Float)];
    for text in ["0.10", "1e5", "-2.5E-3", ".5", "5.", "inf", "-Infinity", "NaN", "+7"] {
        let cmd = parsed(&opts, &["e", "-b", text]);
        let got = cmd.get_float_option("b", false).unwrap();
        assert_eq!(text, got);
        assert!(got.parse::<f32>().is_ok());
    }
}

#[test]
fn bad_float_is_an_error() {
    for text in ["1.2.3", ".", "e5", "1e", "abc", "", "1,5"] {
        assert!(text.parse::<f32>().is_err());
        let mut cmd = Commander::new();
        cmd.add_option("b", "balance", "Balance", CmdOptionValueType::Float);
        let args = strings(&["exec", "-b", text]);
        cmd.add_executable_arg(&args);
        let e = cmd.parse_args(args).unwrap_err();
        assert_eq!(CmdOptionValueType::Float, e.expected);
        assert_eq!(text, e.text);
    }
}

#[test]
fn init_from_args_stores_executable_then_parses() {
    let mut cmd = Commander::new();
    cmd.add_option("v", "version", "Version", CmdOptionValueType::NoValue);
    cmd.init_from_args(strings(&["prog", "--version"])).unwrap();
    assert_eq!(2, cmd.arg_count());
    assert!(cmd.arguments().iter().any(|a| a.option() == "v" && matches!(a.value(), CmdArgumentValue::NoValue)));
    assert!(cmd.arguments().iter().any(|a| a.option() == "__exec__"));
}
