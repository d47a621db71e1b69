use pirate::errors::ErrorKind;
use pirate::vars::vars;

#[test]
fn builder_accepts_wellformed_declarations() {
    let opts = vec!["o/opt#An option", "a#An argument:", "file#The file"];
    let v = vars("prog", &opts).unwrap();
    assert_eq!(*v.program(), String::from("prog"));
    assert_eq!(v.arg_len(), 1);
}

#[test]
fn builder_rejects_declaration_without_separator() {
    let opts = vec!["o/opt#An option", "nohash"];
    let e = vars("prog", &opts).unwrap_err();
    assert_eq!(e.kind, ErrorKind::InvalidArgument);
    assert_eq!(e.arg, "nohash");
}

#[test]
fn lookup_knows_both_aliases() {
    let opts = vec!["o/opt#An option"];
    let v = vars("prog", &opts).unwrap();
    assert!(v.contains_opt(&String::from("o")));
    assert!(v.contains_opt(&String::from("opt")));
    assert!(!v.contains_opt(&String::from("x")));
}

#[test]
fn descriptor_records_value_consumption() {
    let opts = vec!["o/opt#An option", "a#An argument:"];
    let v = vars("prog", &opts).unwrap();
    let flag = v.get_opt(&String::from("opt")).unwrap();
    assert!(!flag.has_arg);
    assert_eq!(flag.name(), String::from("opt"));
    let value_opt = v.get_opt(&String::from("a")).unwrap();
    assert!(value_opt.has_arg);
    assert_eq!(value_opt.name(), String::from("a"));
}

#[test]
fn positionals_pop_in_declaration_order() {
    let opts = vec!["src#The source", "dst#The destination"];
    let mut v = vars("prog", &opts).unwrap();
    assert_eq!(v.arg_len(), 2);
    assert_eq!(v.get_arg(), Some(String::from("src")));
    assert_eq!(v.get_arg(), Some(String::from("dst")));
    assert_eq!(v.get_arg(), None);
    assert_eq!(v.arg_len(), 0);
}
