use audion::summary::generate;

#[test]
fn summary_sections() {
    let text = generate(&["SinOsc", "Saw"], &[("amp".to_string(), "0.5".to_string())]);
    assert!(text.starts_with("# Audion Language Spec (auto-generated)\n\n"));
    assert!(text.contains("## Keywords\n\n`fn` `let` `if`"));
    assert!(text.contains("`true` `false` `nil`\n\n## Operators"));
    assert!(text.contains("## UGens (inside define blocks)\n\n`SinOsc` `Saw`\n\n"));
    assert!(text.contains("## Default SynthDef Params\n\n`amp`=0.5\n\n## Execution"));
    assert!(text.ends_with("- Ctrl+C frees all synth nodes cleanly\n"));
}

#[test]
fn builtins_by_longest_prefix() {
    let text = generate(&[], &[]);
    let line = |label: &str| -> String {
        let start = text.find(&format!("**{}**: ", label)).unwrap();
        let rest = &text[start..];
        rest[..rest.find("\n\n").unwrap()].to_string()
    };
    assert!(line("sequence").contains("`array_seq_euclidean`"));
    assert!(!line("array").contains("`array_seq_euclidean`"));
    assert!(line("array").contains("`array_push`"));
    assert!(line("core").starts_with("**core**: `print` `bpm`"));
    assert!(line("date").contains("`timestamp_ms`"));
    assert!(line("string").contains("`str_upper`"));
    assert!(line("os").contains("`os_env_get`"));
    assert!(!line("os").contains("`osc_send`"));
    assert_eq!(text.matches("**date**").count(), 1);
}
