use pirate::errors::ErrorKind;
use pirate::matches::Match;
use pirate::vars::vars;

#[test]
fn test_matches_good() {
    let env_args = vec![String::from("test"), String::from("-a"), String::from("Test")];
    let opts = vec!["o/opt#An option", "a#An argument:"];

    let mut var = match vars("Test", &opts) {
        Ok(m) => m,
        Err(_why) => panic!("An error occurred"),
    };

    let matches = pirate::matches::matches(&env_args, &mut var).unwrap();

    let has_opt = match matches.get("opt") {
        Some(_) => true,
        None => false,
    };
    let argument = matches.get("a").unwrap();
    assert_eq!(*argument, String::from("Test"));
    assert_eq!(has_opt, false);
}

#[test]
#[should_panic]
fn test_matches_bad() {
    let env_args = vec![String::from("test"), String::from("-a")];
    let opts = vec!["o/opt#An option", "a#An argument:"];

    let mut vars = vars("Test", &opts).unwrap();
    match pirate::matches::matches(&env_args, &mut vars) {
        Ok(m) => m,
        Err(_why) => panic!("An error occurred"),
    };
}

#[test]
fn flag_present_maps_to_empty_string() {
    let env_args = vec![String::from("prog"), String::from("--opt")];
    let opts = vec!["o/opt#An option"];
    let mut var = vars("prog", &opts).unwrap();
    let m = pirate::matches::matches(&env_args, &mut var).unwrap();
    assert_eq!(m.get("opt"), Some(&String::new()));
    assert!(m.has_match("opt"));
}

#[test]
fn flag_by_short_alias_stored_under_long_name() {
    let env_args = vec![String::from("prog"), String::from("-o")];
    let opts = vec!["o/opt#An option"];
    let mut var = vars("prog", &opts).unwrap();
    let m = pirate::matches::matches(&env_args, &mut var).unwrap();
    assert!(m.has_match("opt"));
    assert!(!m.has_match("o"));
}

#[test]
fn absent_flag_is_missing_key_not_empty_value() {
    let env_args = vec![String::from("prog")];
    let opts = vec!["o/opt#An option"];
    let mut var = vars("prog", &opts).unwrap();
    let m = pirate::matches::matches(&env_args, &mut var).unwrap();
    assert_eq!(m.get("opt"), None);
    assert!(!m.has_match("opt"));
}

#[test]
fn unknown_short_alias_is_invalid_argument() {
    let env_args = vec![String::from("prog"), String::from("-z")];
    let opts = vec!["o/opt#An option", "a#An argument:"];
    let mut var = vars("prog", &opts).unwrap();
    let e = pirate::matches::matches(&env_args, &mut var).unwrap_err();
    assert_eq!(e.kind, ErrorKind::InvalidArgument);
    assert_eq!(e.arg, "z");
}

#[test]
fn unknown_alias_later_in_stream_is_invalid_argument() {
    let env_args = vec![String::from("prog"), String::from("--opt"), String::from("-z")];
    let opts = vec!["o/opt#An option"];
    let mut var = vars("prog", &opts).unwrap();
    let e = pirate::matches::matches(&env_args, &mut var).unwrap_err();
    assert_eq!(e.kind, ErrorKind::InvalidArgument);
    assert_eq!(e.arg, "z");
}

#[test]
fn unknown_long_alias_is_invalid_argument() {
    let env_args = vec![String::from("prog"), String::from("--zeta")];
    let opts = vec!["o/opt#An option"];
    let mut var = vars("prog", &opts).unwrap();
    let e = pirate::matches::matches(&env_args, &mut var).unwrap_err();
    assert_eq!(e.kind, ErrorKind::InvalidArgument);
    assert_eq!(e.arg, "zeta");
}

#[test]
fn value_option_as_last_token_is_missing_argument() {
    let env_args = vec![String::from("prog"), String::from("-a")];
    let opts = vec!["o/opt#An option", "a#An argument:"];
    let mut var = vars("prog", &opts).unwrap();
    let e = pirate::matches::matches(&env_args, &mut var).unwrap_err();
    assert_eq!(e.kind, ErrorKind::MissingArgument);
    assert_eq!(e.arg, "a");
}

#[test]
fn long_option_consumes_following_token() {
    let env_args = vec![String::from("prog"), String::from("--opt"), String::from("val")];
    let opts = vec!["o/opt#An option:"];
    let mut var = vars("prog", &opts).unwrap();
    let m = pirate::matches::matches(&env_args, &mut var).unwrap();
    assert_eq!(m.get("opt"), Some(&String::from("val")));
}

#[test]
fn missing_positional_is_missing_argument() {
    let env_args = vec![String::from("prog")];
    let opts = vec!["file#The file"];
    let mut var = vars("prog", &opts).unwrap();
    let e = pirate::matches::matches(&env_args, &mut var).unwrap_err();
    assert_eq!(e.kind, ErrorKind::MissingArgument);
    assert_eq!(e.arg, "file");
}

#[test]
fn second_missing_positional_is_named() {
    let env_args = vec![String::from("prog"), String::from("one")];
    let opts = vec!["src#The source", "dst#The destination"];
    let mut var = vars("prog", &opts).unwrap();
    let e = pirate::matches::matches(&env_args, &mut var).unwrap_err();
    assert_eq!(e.kind, ErrorKind::MissingArgument);
    assert_eq!(e.arg, "dst");
}

#[test]
fn extra_positional_is_invalid_argument() {
    let env_args = vec![String::from("prog"), String::from("extra")];
    let opts = vec!["o/opt#An option"];
    let mut var = vars("prog", &opts).unwrap();
    let e = pirate::matches::matches(&env_args, &mut var).unwrap_err();
    assert_eq!(e.kind, ErrorKind::InvalidArgument);
    assert_eq!(e.arg, "extra");
}

#[test]
fn positionals_are_filled_in_declaration_order() {
    let env_args = vec![String::from("prog"), String::from("one"), String::from("two")];
    let opts = vec!["src#The source", "dst#The destination"];
    let mut var = vars("prog", &opts).unwrap();
    let m = pirate::matches::matches(&env_args, &mut var).unwrap();
    assert_eq!(m.get("src"), Some(&String::from("one")));
    assert_eq!(m.get("dst"), Some(&String::from("two")));
}

#[test]
fn bundled_flags_all_match() {
    let env_args = vec![String::from("prog"), String::from("-ab")];
    let opts = vec!["a/alpha#First flag", "b/beta#Second flag"];
    let mut var = vars("prog", &opts).unwrap();
    let m = pirate::matches::matches(&env_args, &mut var).unwrap();
    assert_eq!(m.get("alpha"), Some(&String::new()));
    assert_eq!(m.get("beta"), Some(&String::new()));
}

#[test]
fn bundled_value_options_share_the_cursor() {
    let env_args = vec![
        String::from("prog"),
        String::from("-xz"),
        String::from("value1"),
        String::from("value2"),
    ];
    let opts = vec!["x#First value:", "z#Second value:"];
    let mut var = vars("prog", &opts).unwrap();
    let m = pirate::matches::matches(&env_args, &mut var).unwrap();
    assert_eq!(m.get("x"), Some(&String::from("value1")));
    assert_eq!(m.get("z"), Some(&String::from("value2")));
}

#[test]
fn bundled_value_options_starve_the_last_alias() {
    let env_args = vec![String::from("prog"), String::from("-xz"), String::from("value1")];
    let opts = vec!["x#First value:", "z#Second value:"];
    let mut var = vars("prog", &opts).unwrap();
    let e = pirate::matches::matches(&env_args, &mut var).unwrap_err();
    assert_eq!(e.kind, ErrorKind::MissingArgument);
    assert_eq!(e.arg, "z");
}

#[test]
fn result_holds_exactly_the_matched_names() {
    let env_args = vec![
        String::from("prog"),
        String::from("-v"),
        String::from("-a"),
        String::from("Test"),
        String::from("input"),
    ];
    let opts = vec!["v/verbose#Flag", "a#An argument:", "o/opt#Another flag", "file#The file"];
    let mut var = vars("prog", &opts).unwrap();
    let m = pirate::matches::matches(&env_args, &mut var).unwrap();
    let mut names = m.matches();
    names.sort();
    assert_eq!(names, vec![
        String::from("a"),
        String::from("file"),
        String::from("verbose"),
    ]);
    assert_eq!(m.get("verbose"), Some(&String::new()));
    assert_eq!(m.get("a"), Some(&String::from("Test")));
    assert_eq!(m.get("file"), Some(&String::from("input")));
    assert!(!m.has_match("opt"));
}

#[test]
fn empty_token_list_matches_empty_schema() {
    let env_args: Vec<String> = Vec::new();
    let opts = vec!["o/opt#An option"];
    let mut var = vars("prog", &opts).unwrap();
    let m = pirate::matches::matches(&env_args, &mut var).unwrap();
    assert!(!m.has_match("opt"));
    assert_eq!(m.matches().len(), 0);
}

#[test]
fn repeated_option_keeps_last_value() {
    let env_args = vec![
        String::from("prog"),
        String::from("-a"),
        String::from("first"),
        String::from("-a"),
        String::from("second"),
    ];
    let opts = vec!["a#An argument:"];
    let mut var = vars("prog", &opts).unwrap();
    let m = pirate::matches::matches(&env_args, &mut var).unwrap();
    assert_eq!(m.get("a"), Some(&String::from("second")));
    assert_eq!(m.matches().len(), 1);
}
