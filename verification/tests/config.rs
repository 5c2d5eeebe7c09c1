use boost::config::{
    Config, DependsOn, Input, Selector, dependency_names, effective_selectors,
};
use boost::globs::{compile_filters, matches_any};

#[test]
fn default_selector_takes_everything_under_here() {
    let s = Selector::default();
    assert_eq!(s.root, ".");
    assert_eq!(s.filters, vec!["*".to_string()]);
}

#[test]
fn default_input_has_the_default_selector() {
    let i = Input::default();
    let files = i.files.unwrap();
    assert_eq!(files.len(), 1);
    assert_eq!(files[0].root, ".");
    assert_eq!(files[0].filters, vec!["*".to_string()]);
    assert!(i.invariants.is_none());
    assert!(i.env_vars.is_none());
}

#[test]
fn missing_files_fall_back_to_the_default_selector() {
    let i = Input { files: None, invariants: None, env_vars: None };
    let sels = effective_selectors(&i);
    assert_eq!(sels.len(), 1);
    assert_eq!(sels[0].root, ".");
    let declared = Input {
        files: Some(vec![Selector { root: "src".to_string(), filters: vec!["*.rs".to_string()] }]),
        invariants: None,
        env_vars: None,
    };
    let sels = effective_selectors(&declared);
    assert_eq!(sels.len(), 1);
    assert_eq!(sels[0].root, "src");
}

#[test]
fn dependency_names_keep_order_and_drop_nameless() {
    let c = Config {
        description: None,
        run: "true".to_string(),
        depends_on: Some(vec![
            DependsOn { name: Some("b".to_string()) },
            DependsOn { name: None },
            DependsOn { name: Some("c".to_string()) },
        ]),
        input: Input { files: None, invariants: None, env_vars: None },
        output: None,
    };
    assert_eq!(dependency_names(&c), vec!["b".to_string(), "c".to_string()]);
}

#[test]
fn depends_on_prints_its_name_or_nothing() {
    assert_eq!(DependsOn { name: Some("x".to_string()) }.name_or_empty(), "x");
    assert_eq!(DependsOn::default().name_or_empty(), "");
}

#[test]
fn glob_filters_select_by_any_match() {
    let filters = vec!["*.txt".to_string(), "*.md".to_string()];
    let compiled = compile_filters(&filters).unwrap();
    assert!(matches_any(&compiled, "notes.txt"));
    assert!(matches_any(&compiled, "README.md"));
    assert!(!matches_any(&compiled, "binary.o"));
}

#[test]
fn glob_star_is_not_identity() {
    // a matcher that handed its input back unchanged could not say yes here
    let compiled = compile_filters(&vec!["he*o".to_string()]).unwrap();
    assert!(matches_any(&compiled, "hello"));
    assert!(!matches_any(&compiled, "help"));
}
