use boost::cache::{CommandOutput, InputFile, Manifest};
use boost::config::{Config, Input, Output, Selector};
use boost::errors::Error;

fn file(path: &str, contents: &[u8]) -> InputFile {
    InputFile { path: path.to_string(), contents: contents.to_vec() }
}

fn simple_input() -> Input {
    Input {
        files: Some(vec![Selector { root: ".".to_string(), filters: vec!["*.txt".to_string()] }]),
        invariants: None,
        env_vars: None,
    }
}

fn compute(input: &Input, walked: Vec<Vec<InputFile>>, config: &[u8]) -> Result<boost::cache::Hash, Error> {
    boost::cache::Hash::new(input, &walked, &vec![], &vec![], &config.to_vec())
}

#[test]
fn fingerprint_is_deterministic() {
    let input = simple_input();
    let walked1 = vec![vec![file("a.txt", b"hello"), file("b.txt", b"world")]];
    let walked2 = vec![vec![file("a.txt", b"hello"), file("b.txt", b"world")]];
    let h1 = compute(&input, walked1, b"cfg").unwrap();
    let h2 = compute(&input, walked2, b"cfg").unwrap();
    assert_eq!(h1.0, h2.0);
    assert_eq!(h1.0.len(), 32);
}

#[test]
fn fingerprint_changes_with_file_contents() {
    let input = simple_input();
    let h1 = compute(&input, vec![vec![file("a.txt", b"hello")]], b"cfg").unwrap();
    let h2 = compute(&input, vec![vec![file("a.txt", b"hellp")]], b"cfg").unwrap();
    assert_ne!(h1.0, h2.0);
}

#[test]
fn fingerprint_changes_with_config_bytes() {
    let input = simple_input();
    let h1 = compute(&input, vec![vec![file("a.txt", b"hello")]], b"cfg1").unwrap();
    let h2 = compute(&input, vec![vec![file("a.txt", b"hello")]], b"cfg2").unwrap();
    assert_ne!(h1.0, h2.0);
}

#[test]
fn fingerprint_ignores_unmatched_file() {
    let input = simple_input();
    let h1 = compute(&input, vec![vec![file("a.txt", b"hello")]], b"cfg").unwrap();
    let h2 = compute(&input, vec![vec![file("a.txt", b"hello"), file("b.bin", b"junk")]], b"cfg")
        .unwrap();
    assert_eq!(h1.0, h2.0);
}

#[test]
fn fingerprint_changes_with_env_value() {
    let input = Input {
        files: Some(vec![]),
        invariants: None,
        env_vars: Some(vec!["FOO".to_string()]),
    };
    let h1 = boost::cache::Hash::new(&input, &vec![], &vec![], &vec![Some(b"1".to_vec())], &b"c".to_vec())
        .unwrap();
    let h2 = boost::cache::Hash::new(&input, &vec![], &vec![], &vec![Some(b"2".to_vec())], &b"c".to_vec())
        .unwrap();
    let h3 = boost::cache::Hash::new(&input, &vec![], &vec![], &vec![Some(b"1".to_vec())], &b"c".to_vec())
        .unwrap();
    assert_ne!(h1.0, h2.0);
    assert_eq!(h1.0, h3.0);
}

#[test]
fn fingerprint_changes_with_invariant_stdout() {
    let input = Input {
        files: Some(vec![]),
        invariants: Some(vec!["date +%Y".to_string()]),
        env_vars: None,
    };
    let run_a = vec![CommandOutput { status: 0, stdout: b"2024\n".to_vec() }];
    let run_b = vec![CommandOutput { status: 0, stdout: b"2025\n".to_vec() }];
    let h1 = boost::cache::Hash::new(&input, &vec![], &run_a, &vec![], &b"c".to_vec()).unwrap();
    let h2 = boost::cache::Hash::new(&input, &vec![], &run_b, &vec![], &b"c".to_vec()).unwrap();
    assert_ne!(h1.0, h2.0);
}

#[test]
fn fingerprint_fails_on_failed_invariant() {
    let input = Input {
        files: Some(vec![]),
        invariants: Some(vec!["false".to_string()]),
        env_vars: None,
    };
    let runs = vec![CommandOutput { status: 1, stdout: vec![] }];
    let r = boost::cache::Hash::new(&input, &vec![], &runs, &vec![], &b"c".to_vec());
    match r {
        Err(Error::InputAccessError(cmd)) => assert_eq!(cmd, "false"),
        other => panic!("expected InputAccessError, got {:?}", other),
    }
}

#[test]
fn fingerprint_fails_on_bad_glob() {
    let input = Input {
        files: Some(vec![Selector { root: ".".to_string(), filters: vec!["a{b".to_string()] }]),
        invariants: None,
        env_vars: None,
    };
    let r = boost::cache::Hash::new(&input, &vec![vec![]], &vec![], &vec![], &b"c".to_vec());
    match r {
        Err(Error::ConfigParseError(p)) => assert_eq!(p, "a{b"),
        other => panic!("expected ConfigParseError, got {:?}", other),
    }
}

#[test]
fn fingerprint_digest_is_not_input() {
    // the digest is hex of a 16-byte hash, never the raw buffer handed in
    let input = Input { files: Some(vec![]), invariants: None, env_vars: None };
    let h = boost::cache::Hash::new(&input, &vec![], &vec![], &vec![], &b"x".to_vec()).unwrap();
    assert_eq!(h.0.len(), 32);
    assert_ne!(h.0, b"x".to_vec());
    assert!(h.0.iter().all(|b| b.is_ascii_digit() || (b'A'..=b'F').contains(b)));
}

#[test]
fn manifest_keeps_its_fields() {
    let config = Config {
        description: Some("demo".to_string()),
        run: "echo hi".to_string(),
        depends_on: None,
        input: Input { files: None, invariants: None, env_vars: None },
        output: Some(Output { files: None }),
    };
    let input = Input { files: Some(vec![]), invariants: None, env_vars: None };
    let h = boost::cache::Hash::new(&input, &vec![], &vec![], &vec![], &b"c".to_vec()).unwrap();
    let hex = h.0.clone();
    let m = Manifest::new(h, &config, 123456);
    assert_eq!(m.created, 123456);
    assert_eq!(m.hash.0, hex);
    assert_eq!(m.config.run, "echo hi");
}

#[test]
fn file_counts_once_per_matching_selector() {
    // the same tree walked under two selectors contributes its digests twice
    let one = Input {
        files: Some(vec![Selector { root: ".".to_string(), filters: vec!["*.txt".to_string()] }]),
        invariants: None,
        env_vars: None,
    };
    let two = Input {
        files: Some(vec![
            Selector { root: ".".to_string(), filters: vec!["*.txt".to_string()] },
            Selector { root: ".".to_string(), filters: vec!["*.txt".to_string()] },
        ]),
        invariants: None,
        env_vars: None,
    };
    let h1 = compute(&one, vec![vec![file("a.txt", b"hello")]], b"cfg").unwrap();
    let h2 = boost::cache::Hash::new(
        &two,
        &vec![vec![file("a.txt", b"hello")], vec![file("a.txt", b"hello")]],
        &vec![],
        &vec![],
        &b"cfg".to_vec(),
    )
    .unwrap();
    assert_ne!(h1.0, h2.0);
}
