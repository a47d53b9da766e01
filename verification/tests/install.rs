//! Install targets: checking, template expansion and tool lookup.

use updater_sdk::install::{
    display_arg, echo_line, next_step, plan, prepare, resolve_tool_in, run_failure, Exit,
    InstallConfig, InstallError, Invocation, PlanError, RunStep, Target,
};

/// The strings of a TOML array.
fn strings(v: Option<&toml::Value>) -> Vec<String> {
    v.and_then(toml::Value::as_array)
        .map(|a| a.iter().map(|s| s.as_str().unwrap().to_string()).collect())
        .unwrap_or_default()
}

/// Reads a configuration the way a caller would, and checks it.
fn parse_config(text: &str, source: &str) -> Result<InstallConfig, String> {
    let root: toml::Table = text.parse().unwrap();
    let mut cfg = InstallConfig::new();
    for (name, entry) in root["targets"].as_table().unwrap() {
        let pre = entry
            .get("pre")
            .and_then(toml::Value::as_array)
            .map(|steps| steps.iter().map(|s| strings(Some(s))).collect())
            .unwrap_or_default();
        let target = Target {
            tool: entry["tool"].as_str().unwrap().to_string(),
            args: strings(entry.get("args")),
            pre,
            port_arg: entry.get("port_arg").map(|p| p.as_str().unwrap().to_string()),
        };
        cfg = cfg.with_target(name.clone(), target);
    }
    cfg.check(source)?;
    Ok(cfg)
}

/// The plan for a target of a configuration.
fn plan_for(
    toml_text: &str,
    name: &str,
    image: &str,
    port: Option<&str>,
) -> Result<Vec<Invocation>, PlanError> {
    let cfg = parse_config(toml_text, "test.toml").expect("config must parse");
    plan(cfg.target(name, "test.toml").expect("target must exist"), image, port)
}

const REFERENCE: &str = r#"
[targets.avr64ea28-updi]
tool = "avrdude"
args = ["-c", "atmelice_updi", "-p", "avr64ea28", "-U", "flash:w:{image}:i"]
pre = [["avrdude", "-U", "bootsize:w:8:m"]]
port_arg = "-P"
"#;

// -- parse / validate ------------------------------------------------

#[test]
fn parses_the_full_schema() {
    let cfg = parse_config(REFERENCE, "install.toml").unwrap();
    let t = cfg.target("avr64ea28-updi", "install.toml").unwrap();
    assert_eq!(t.tool, "avrdude");
    assert_eq!(t.args[4], "-U");
    assert_eq!(t.pre, vec![vec!["avrdude", "-U", "bootsize:w:8:m"]]);
    assert_eq!(t.port_arg.as_deref(), Some("-P"));
}

#[test]
fn empty_tool_rejected_naming_the_target() {
    let msg = parse_config("[targets.pico]\ntool = \"\"\nargs = []\n", "install.toml")
        .unwrap_err();
    assert!(msg.contains("pico"), "must name the target: {msg}");
    assert!(msg.contains("tool"), "must say what is wrong: {msg}");
}

#[test]
fn empty_pre_step_rejected() {
    let msg = parse_config(
        "[targets.x]\ntool = \"t\"\nargs = []\npre = [[]]\n",
        "install.toml",
    )
    .unwrap_err();
    assert!(msg.contains("pre"), "must name the offending field: {msg}");
}

#[test]
fn unknown_target_lists_available_ones() {
    let cfg = parse_config(REFERENCE, "my.toml").unwrap();
    let msg = cfg.target("rp2040", "my.toml").unwrap_err();
    assert!(msg.contains("rp2040"), "must name the request: {msg}");
    assert!(msg.contains("avr64ea28-updi"), "must list what exists: {msg}");
    assert!(msg.contains("my.toml"), "must name the file: {msg}");
}

// -- template expansion ----------------------------------------------

#[test]
fn image_placeholder_expands_inside_a_token() {
    let plan = plan_for(REFERENCE, "avr64ea28-updi", "fw.hex", None).unwrap();
    let main = plan.last().unwrap();
    assert_eq!(main.args.last().unwrap(), "flash:w:fw.hex:i");
}

#[test]
fn port_placeholder_expands_when_port_given() {
    let plan = plan_for(
        "[targets.x]\ntool = \"t\"\nargs = [\"--port={port}\", \"{image}\"]\n",
        "x",
        "fw.hex",
        Some("/dev/ttyACM0"),
    )
    .unwrap();
    assert_eq!(plan[0].args, vec!["--port=/dev/ttyACM0", "fw.hex"]);
}

#[test]
fn port_placeholder_without_port_flag_errors_actionably() {
    let msg = plan_for(
        "[targets.x]\ntool = \"t\"\nargs = [\"{port}\"]\n",
        "x",
        "fw.hex",
        None,
    )
    .unwrap_err()
    .message();
    assert!(msg.contains("--port"), "must tell the user what to pass: {msg}");
}

#[test]
fn unknown_placeholder_rejected_by_name() {
    let msg = plan_for(
        "[targets.x]\ntool = \"t\"\nargs = [\"{flash}\"]\n",
        "x",
        "fw.hex",
        None,
    )
    .unwrap_err()
    .message();
    assert!(msg.contains("{flash}"), "must name the offender: {msg}");
    assert!(msg.contains("{image}"), "must list what is supported: {msg}");
    assert!(msg.contains("{port}"), "must list what is supported: {msg}");
}

#[test]
fn unmatched_brace_rejected() {
    let msg = plan_for(
        "[targets.x]\ntool = \"t\"\nargs = [\"oops{image\"]\n",
        "x",
        "fw.hex",
        None,
    )
    .unwrap_err()
    .message();
    assert!(msg.contains("oops{image"), "must show the broken argument: {msg}");
}

#[test]
fn port_flag_appends_port_arg_pair_when_template_has_no_port() {
    let plan = plan_for(
        REFERENCE,
        "avr64ea28-updi",
        "fw.hex",
        Some("/dev/ttyACM1"),
    )
    .unwrap();
    let main = plan.last().unwrap();
    let n = main.args.len();
    assert_eq!(&main.args[n - 2..], ["-P", "/dev/ttyACM1"]);
}

#[test]
fn port_flag_without_any_port_slot_errors() {
    let msg = plan_for(
        "[targets.x]\ntool = \"t\"\nargs = [\"{image}\"]\n",
        "x",
        "fw.hex",
        Some("/dev/ttyACM0"),
    )
    .unwrap_err()
    .message();
    assert!(msg.contains("{port}"), "must explain how to accept a port: {msg}");
    assert!(msg.contains("port_arg"), "must offer the alternative: {msg}");
}

#[test]
fn no_port_means_no_injection() {
    let plan = plan_for(REFERENCE, "avr64ea28-updi", "fw.hex", None).unwrap();
    let main = plan.last().unwrap();
    assert!(!main.args.contains(&"-P".to_string()), "{:?}", main.args);
}

#[test]
fn pre_steps_run_first_expanded_with_literal_tool() {
    let plan = plan_for(
        "[targets.x]\ntool = \"t\"\nargs = [\"{image}\"]\n\
         pre = [[\"fuse-tool\", \"write\", \"{image}\"]]\n",
        "x",
        "fw.hex",
        None,
    )
    .unwrap();
    assert_eq!(plan.len(), 2);
    assert_eq!(plan[0], Invocation {
        tool: "fuse-tool".into(),
        args: vec!["write".into(), "fw.hex".into()],
    });
    assert_eq!(plan[1].tool, "t");
}

#[test]
fn port_used_only_in_pre_still_counts_as_consumed() {
    let plan = plan_for(
        "[targets.x]\ntool = \"t\"\nargs = [\"{image}\"]\n\
         pre = [[\"fuse-tool\", \"{port}\"]]\n",
        "x",
        "fw.hex",
        Some("/dev/ttyACM0"),
    )
    .unwrap();
    assert_eq!(plan[0].args, vec!["/dev/ttyACM0"]);
    assert_eq!(plan[1].args, vec!["fw.hex"], "no injection into main args");
}

// -- echo-line display quoting (display only, spawn is argv-exact) ------

#[test]
fn display_arg_quotes_whitespace_and_empty_only() {
    assert_eq!(display_arg("plain"), "plain");
    assert_eq!(display_arg("flash:w:fw.hex:i"), "flash:w:fw.hex:i");
    assert_eq!(display_arg("with space"), "\"with space\"");
    assert_eq!(display_arg(""), "\"\"");
    assert_eq!(display_arg("tab\there"), "\"tab\\there\"");
}

// -- tool resolution ---------------------------------------------------

#[test]
fn resolves_executable_from_path_dirs() {
    let exe = "/tmp/updater-inst/fake-prog";
    let path_var = "/nonexistent:/tmp/updater-inst";
    assert_eq!(resolve_tool_in("fake-prog", path_var, |p: &str| p == exe).unwrap(), exe);
}

#[test]
fn missing_tool_error_names_the_install_ladder() {
    let msg = resolve_tool_in("avrdude", "/nonexistent", |_: &str| false).unwrap_err();
    assert!(msg.contains("avrdude"), "must name the tool: {msg}");
    assert!(msg.contains("apt install avrdude"), "ladder must be actionable: {msg}");
    assert!(msg.contains("probe-rs-tools"), "ladder must cover probe-rs: {msg}");
    assert!(msg.contains("openocd"), "ladder must cover openocd: {msg}");
}

#[test]
fn path_like_tool_is_checked_directly_not_via_path() {
    let msg = resolve_tool_in("/no/such/dir/avrdude", "/usr/bin", |p: &str| {
        p == "/usr/bin/avrdude"
    })
    .unwrap_err();
    assert!(msg.contains("/no/such/dir/avrdude"), "must show the path: {msg}");
}

// -- echo line and exit status ------------------------------------------

#[test]
fn echo_line_quotes_each_token() {
    let inv = Invocation {
        tool: "my-tool".into(),
        args: vec!["-U".into(), "two words".into(), String::new()],
    };
    assert_eq!(echo_line(&inv), "+ my-tool -U \"two words\" \"\"");
}

#[test]
fn run_failures_name_the_tool_and_its_status() {
    assert_eq!(
        run_failure("/bin/fake-prog", Some(3)),
        "/bin/fake-prog failed with exit status 3 \u{2014} its output above says why; fix that \
         and re-run"
    );
    assert!(run_failure("x", Some(-7)).starts_with("x failed with exit status -7 "));
    assert_eq!(run_failure("x", None), "x was killed by a signal");
}

// -- everything is settled before the first command -----------------------

#[test]
fn prepare_finds_every_tool_in_order() {
    let cfg = parse_config(REFERENCE, "install.toml").unwrap();
    let t = cfg.target("avr64ea28-updi", "install.toml").unwrap();
    let (invocations, exes) =
        prepare(t, "fw.hex", None, ":/bin:/opt/", |p: &str| p == "/opt/avrdude").unwrap();
    assert_eq!(invocations, plan(t, "fw.hex", None).unwrap());
    assert_eq!(exes, vec!["/opt/avrdude", "/opt/avrdude"]);
}

#[test]
fn prepare_names_the_first_missing_tool() {
    let cfg = parse_config(
        "[targets.x]\ntool = \"main\"\nargs = []\npre = [[\"a\"], [\"b\"], [\"c\"]]\n",
        "t",
    )
    .unwrap();
    let t = cfg.target("x", "t").unwrap();
    let e = prepare(t, "fw.hex", None, "/bin", |p: &str| p == "/bin/a").unwrap_err();
    assert!(matches!(e, InstallError::Tool(_)));
    assert!(e.message().starts_with("\"b\" not found on PATH"), "{}", e.message());
    // A template error is found before any file is looked for.
    let e = prepare(t, "fw.hex", Some("/dev/x"), "/bin", |_: &str| panic!("no file is asked for"))
        .unwrap_err();
    assert!(matches!(e, InstallError::Plan(PlanError::NoPortSlot { .. })));
    assert_eq!(e.message(), plan(t, "fw.hex", Some("/dev/x")).unwrap_err().message());
}

#[test]
fn path_entries_are_tried_in_order_and_empty_ones_skipped() {
    let found = resolve_tool_in("t", "::/a:/b/:/c", |p: &str| p == "/b/t" || p == "/c/t");
    assert_eq!(found.unwrap(), "/b/t");
    assert_eq!(resolve_tool_in("./t", "/a", |p: &str| p == "./t").unwrap(), "./t");
    assert!(resolve_tool_in("t", "", |_: &str| true).is_err());
}

#[test]
fn plan_errors_are_typed_and_quoted() {
    let one = |arg: &str, port: Option<&str>| {
        let cfg = InstallConfig::new().with_target(
            "x".into(),
            Target { tool: "t".into(), args: vec![arg.into()], pre: vec![], port_arg: None },
        );
        plan(cfg.target("x", "s").unwrap(), "i", port)
    };
    let e = one("a\"{image", None).unwrap_err();
    assert!(matches!(e, PlanError::Unclosed { .. }));
    assert!(e.message().contains("\"a\\\"{image\""), "{}", e.message());
    let e = one("{port}", None).unwrap_err();
    assert!(matches!(e, PlanError::NeedsPort { .. }));
    let e = one("{}", None).unwrap_err();
    assert!(matches!(e, PlanError::Unknown { .. }));
    let e = one("x", Some("p\n")).unwrap_err();
    assert!(matches!(e, PlanError::NoPortSlot { .. }));
    assert!(e.message().contains("\"p\\n\""), "{}", e.message());
    // A lone closing brace is literal; placeholders may repeat and touch.
    assert_eq!(one("}{image}{image}}", None).unwrap()[0].args, vec!["}ii}"]);
    // What a placeholder brings in is not expanded again.
    assert_eq!(one("{port}", Some("{image}")).unwrap()[0].args, vec!["{image}"]);
}

#[test]
fn last_definition_of_a_name_wins_and_listing_is_sorted() {
    let t = |tool: &str| Target {
        tool: tool.into(),
        args: vec![],
        pre: vec![],
        port_arg: None,
    };
    let cfg = InstallConfig::new()
        .with_target("b".into(), t("one"))
        .with_target("a".into(), t("two"))
        .with_target("b".into(), t("three"));
    assert_eq!(cfg.target("b", "s").unwrap().tool, "three");
    assert_eq!(
        cfg.target("c", "s").unwrap_err(),
        "no target \"c\" in s \u{2014} available: a, b (add a [targets.c] table to define it)"
    );
    assert!(cfg.check("s").is_ok());
    let bad = cfg.with_target("a0".into(), t(" \t"));
    assert!(bad.check("s").unwrap_err().starts_with("s: targets.a0: tool is empty"));
}

// -- running ----------------------------------------------------------------

#[test]
fn the_first_command_that_fails_stops_the_run() {
    assert_eq!(next_step(2, 0, None), RunStep::Start(0));
    assert_eq!(next_step(2, 1, Some(Exit::Code(0))), RunStep::Start(1));
    assert_eq!(next_step(2, 2, Some(Exit::Code(0))), RunStep::Finished);
    for last in [Exit::Code(3), Exit::Code(-1), Exit::Signal] {
        assert_eq!(next_step(2, 1, Some(last)), RunStep::Failed);
        assert_eq!(next_step(2, 2, Some(last)), RunStep::Failed);
    }
    assert_eq!(next_step(0, 0, None), RunStep::Finished);
}
