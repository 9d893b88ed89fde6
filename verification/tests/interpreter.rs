use earwig::datatypes::{Node, Parameter};
use earwig::effects::{apply_substitutions, CallEffect, PlanFailure};
use earwig::errorhandler::{error_message, handle_error_reason, ErrorDescription, ErrorReason, ErrorReport, ErrorType, InvalidTemplate};
use earwig::jsondeserializer::{deserialize, try_deserialize};
use earwig::settingshandler::parse_settings_arg;

fn param(value: &str, var_type: &str) -> Parameter {
    Parameter { value: value.to_string(), var_type: var_type.to_string() }
}

fn leaf(value: &str, render: bool, tab: i32, args: Vec<Parameter>) -> Node {
    Node { value: value.to_string(), render, tab_number: tab, scope: Vec::new(), args }
}

fn with_children(mut n: Node, children: Vec<Node>) -> Node {
    for c in children {
        n.scope.push((c.value.clone(), c));
    }
    n
}

#[test]
fn interpret_rebuilds_scope_by_name() {
    let mut root = Node { value: "SCOPE_GLOBAL".to_string(), render: false, tab_number: -1, scope: Vec::new(), args: Vec::new() };
    root.scope.push(("0".to_string(), leaf("TEXT_GLOBAL", true, 0, vec![param("a", "str")])));
    root.scope.push(("1".to_string(), leaf("MIME", true, 0, vec![param("JSON", "keyword")])));
    root.scope.push(("2".to_string(), leaf("TEXT_GLOBAL", true, 0, vec![param("b", "str")])));
    let (after, calls) = root.interpret(false, "f".to_string());
    let keys: Vec<&str> = after.scope.iter().map(|(k, _)| k.as_str()).collect();
    assert_eq!(keys, vec!["TEXT_GLOBAL", "MIME"]);
    assert_eq!(after.scope[0].1.args[0].value, "b");
    assert_eq!(root.scope.len(), 2);
    assert_eq!(calls.len(), 3);
    assert_eq!(calls[1].node.value, "MIME");
    assert!(calls.iter().all(|c| c.file_path == "f" && !c.is_preset));
}

#[test]
fn new_presets_switch_the_flag() {
    let api = with_children(leaf("API", false, 2, Vec::new()), vec![leaf("MIME", true, 3, vec![param("JSON", "keyword")])]);
    let np = with_children(leaf("NEW_PRESETS", false, 1, Vec::new()), vec![api]);
    let mut preset = with_children(leaf("PRESET", true, 0, Vec::new()), vec![np, leaf("X", false, 1, Vec::new())]);
    let (_, calls) = preset.interpret(false, "f".to_string());
    let seen: Vec<(&str, bool)> = calls.iter().map(|c| (c.node.value.as_str(), c.is_preset)).collect();
    assert_eq!(
        seen,
        vec![("MIME", true), ("NEW_PRESETS", true), ("X", false), ("PRESET", false)]
    );
}

#[test]
fn global_scope_needs_index_keys() {
    let mut root = Node { value: "SCOPE_GLOBAL".to_string(), render: false, tab_number: -1, scope: Vec::new(), args: Vec::new() };
    root.scope.push(("5".to_string(), leaf("A", false, 0, Vec::new())));
    assert!(!root.can_interpret());
    root.scope[0].0 = "0".to_string();
    assert!(root.can_interpret());
}

#[test]
fn call_effects() {
    let f = "file.ear".to_string();
    let text = leaf("TEXT_GLOBAL", true, 0, vec![param("hi", "str")]);
    assert!(matches!(text.call_effect(false, &f), CallEffect::Print(s) if s == "hi"));
    assert!(matches!(text.call_effect(true, &f), CallEffect::Nothing));
    assert!(!leaf("TEXT_GLOBAL", true, 0, Vec::new()).can_call(false));
    assert!(leaf("TEXT_GLOBAL", true, 0, Vec::new()).can_call(true));
    assert!(!leaf("MIME", true, 0, Vec::new()).can_call(false));
    assert!(!leaf("REQUEST_LIMIT", true, 0, vec![param("10", "number")]).can_call(false));
    assert!(!leaf("REQUEST_LIMIT", true, 0, vec![param("a", "time"), param("PER", "keyword"), param("1", "time")]).can_call(false));
    let limit = leaf("REQUEST_LIMIT", true, 0, vec![param("10", "number"), param("PER", "keyword"), param("1:00", "time")]);
    assert!(matches!(limit.call_effect(false, &f), CallEffect::Print(s) if s == "request_limit(10, 60000);"));
    assert!(matches!(leaf("IF", true, 0, Vec::new()).call_effect(false, &f), CallEffect::Nothing));
    assert!(!leaf("INSERT", true, 0, Vec::new()).can_call(false));
    let path_only = with_children(
        leaf("INSERT", true, 0, Vec::new()),
        vec![leaf("PATH", false, 1, vec![param("../PAGES/navbar.ear", "str")])],
    );
    assert!(!path_only.can_call(false));
    let insert = with_children(
        path_only,
        vec![with_children(leaf("SUBSTITUTIONS", false, 1, Vec::new()), vec![leaf("Home", false, 2, vec![param("True", "str")])])],
    );
    assert!(insert.can_call(false));
    match insert.call_effect(false, &f) {
        CallEffect::Insert(p, subs) => {
            assert_eq!(p, "../PAGES/navbar.ear");
            assert_eq!(subs.value, "SUBSTITUTIONS");
            assert_eq!(subs.scope[0].0, "Home");
        }
        _ => panic!("expected an insert"),
    }
    assert!(matches!(leaf("PRESET", false, 0, Vec::new()).call_effect(true, &f), CallEffect::LoadPresets));
    match leaf("BOGUS", true, 3, Vec::new()).call_effect(false, &f) {
        CallEffect::Report(r) => {
            assert_eq!(r.column, "3");
            assert_eq!(r.file, "file.ear");
            assert_eq!(r.details, vec!["BOGUS".to_string()]);
            assert!(r.error_type == ErrorType::Grammar);
        }
        _ => panic!("expected a report"),
    }
    assert!(matches!(leaf("BOGUS", false, 3, Vec::new()).call_effect(false, &f), CallEffect::Nothing));
}

#[test]
fn presets_are_saved_as_one_object() {
    let api = with_children(leaf("API", false, 2, Vec::new()), vec![leaf("MIME", true, 3, vec![param("JSON", "keyword")])]);
    let np = with_children(leaf("NEW_PRESETS", false, 1, Vec::new()), vec![api]);
    let preset = with_children(leaf("PRESET", true, 0, Vec::new()), vec![np]);
    match preset.call_effect(false, &"f".to_string()) {
        CallEffect::SavePresets(s) => assert_eq!(
            s,
            "{\"API\":{\"!#!nodeparam:tab_number\":2,\"MIME\":[\"!#!KEYWORD:JSON\"]}}"
        ),
        _ => panic!("expected presets"),
    }
}

#[test]
fn loading_presets() {
    let f = "f".to_string();
    let wanted = with_children(leaf("PRESET", true, 0, Vec::new()), vec![leaf("API", false, 1, Vec::new())]);
    match wanted.preset_plan(Some(String::new()), &f).failure {
        Some(PlanFailure::Report(r)) => {
            assert!(r.reason == ErrorReason::InvalidTemplate(InvalidTemplate::NoPresets));
            assert!(r.error_type == ErrorType::Fatal);
        }
        _ => panic!("expected the no-presets error"),
    }
    let plan = wanted.preset_plan(None, &f);
    assert!(plan.presets.is_empty());
    match plan.failure {
        Some(PlanFailure::Report(r)) => {
            assert!(r.reason == ErrorReason::InvalidTemplate(InvalidTemplate::PresetDoesntExist));
            assert_eq!(r.details, vec!["API".to_string()]);
            assert_eq!(r.column, "1");
        }
        _ => panic!("expected the missing-preset error"),
    }
    let plan = wanted.preset_plan(Some("{\"API\":{\"!#!RENDER\":true}}".to_string()), &f);
    assert!(plan.failure.is_none());
    assert_eq!(plan.presets.len(), 1);
    assert_eq!(plan.presets[0].value, "API");
    assert!(plan.presets[0].render);
    assert!(matches!(wanted.preset_plan(Some("no braces".to_string()), &f).failure, Some(PlanFailure::Abort)));
}

#[test]
fn reading_stored_presets() {
    let n = deserialize("{\"x\":{\"!#!RENDER\":true},\"y\":{}}".to_string());
    assert_eq!(n.value, "");
    let keys: Vec<&str> = n.scope.iter().map(|(k, _)| k.as_str()).collect();
    assert_eq!(keys, vec!["x", "y"]);
    assert!(n.scope[0].1.render);
    assert!(!n.scope[1].1.render);
    assert!(try_deserialize("abc".to_string()).is_none());
    assert!(try_deserialize("".to_string()).is_none());
    let empty = deserialize("{}".to_string());
    assert!(empty.scope.is_empty());
}

#[test]
fn substitutions() {
    let subs = with_children(leaf("SUBSTITUTIONS", false, 1, Vec::new()), vec![leaf("Home", false, 2, vec![param("True", "str")])]);
    let out = apply_substitutions(&"<a {Home}> <b {Home:False}>".to_string(), &subs).unwrap();
    assert_eq!(out, "<a \"True\"> <b \"True\">");
    let none = leaf("SUBSTITUTIONS", false, 1, Vec::new());
    assert_eq!(apply_substitutions(&"{x}".to_string(), &none).unwrap(), "{x}");
    let bad = with_children(leaf("SUBSTITUTIONS", false, 1, Vec::new()), vec![leaf("(", false, 2, vec![param("1", "number")])]);
    assert!(apply_substitutions(&"x".to_string(), &bad).is_none());
    let no_arg = with_children(leaf("SUBSTITUTIONS", false, 1, Vec::new()), vec![leaf("k", false, 2, Vec::new())]);
    assert!(apply_substitutions(&"x".to_string(), &no_arg).is_none());
}

#[test]
fn settings() {
    let s = parse_settings_arg("a:1,b:2,".to_string());
    assert_eq!(s, vec![("a".to_string(), "1".to_string()), ("ab".to_string(), "12".to_string())]);
    let t = parse_settings_arg("a:1,:2,".to_string());
    assert_eq!(t, vec![("a".to_string(), "12".to_string())]);
    assert!(parse_settings_arg("no comma".to_string()).is_empty());
}

#[test]
fn error_reasons() {
    let mut hint = "abc".to_string();
    assert_eq!(handle_error_reason(ErrorReason::NoReason, &mut hint), "");
    assert_eq!(hint, "\n│ HINT : abc");
    let mut empty = String::new();
    handle_error_reason(ErrorReason::NoReason, &mut empty);
    assert_eq!(empty, "");
    let mut h = String::new();
    let r = handle_error_reason(ErrorReason::InvalidTemplate(InvalidTemplate::Lowercase), &mut h);
    assert_eq!(r, "\n│   REASON: Template keywords must be uppercase.");
    assert_eq!(h, "\n│ HINT : Capitalize all language defined template keywords.");
}

#[test]
fn error_messages() {
    let report = ErrorReport {
        description: ErrorDescription::MissingCharacter,
        reason: ErrorReason::NoReason,
        details: vec![":".to_string(), "MIME JSON".to_string()],
        suggestion: "add a colon".to_string(),
        error_type: ErrorType::Syntax,
        line: "3".to_string(),
        column: "5".to_string(),
        file: "a.ear".to_string(),
    };
    assert_eq!(
        error_message(&report),
        "\n┍━━━━━━━━━━━━━━━━━━━━━━━━━━━━━━━━╍┅┈┈\n▼ ERROR ( Syntax ) : 3 | 5 !\n● ━⚋━⚋━⚋━⚋━⚋━⚋━⚋━⚋━⚋━⚋━⚋━⚋━⚋━⚋━⚋━╍┅┈┈\n│  ⟲ a.ear\n│\n│ ▻  Expected character: ':'\n│   AT: MIME JSON\n│\n│ HINT : add a colon\n┕━━━━━━━━━━━━━━━━━━━━━━━━━━━━━━━━╍┅┈┈\n"
    );
    let fatal = ErrorReport {
        description: ErrorDescription::InvalidTemplate,
        reason: ErrorReason::InvalidTemplate(InvalidTemplate::PresetDoesntExist),
        details: vec!["API".to_string()],
        suggestion: String::new(),
        error_type: ErrorType::Fatal,
        line: "?".to_string(),
        column: "1".to_string(),
        file: "f".to_string(),
    };
    let m = error_message(&fatal);
    assert!(m.contains("ERROR ( FATAL ) : ? | 1 !"));
    assert!(m.contains("TEMPLATE: \"API\"\n│\n│   REASON: The PRESET in your query does not exist"));
    for (d, text) in [(ErrorDescription::InvalidType, "Type is invalid: \"v\""), (ErrorDescription::UnclosedString, "Unclosed string: \"v...")] {
        let r = ErrorReport { description: d, reason: ErrorReason::NoReason, details: vec!["v".to_string()], suggestion: String::new(), error_type: ErrorType::Grammar, line: "1".to_string(), column: "2".to_string(), file: "f".to_string() };
        assert!(error_message(&r).contains(text));
    }
}

#[test]
fn saved_presets_load_by_name() {
    let f = "f".to_string();
    let np = with_children(
        leaf("NEW_PRESETS", false, 1, Vec::new()),
        vec![leaf("API", true, 2, vec![param("x", "str")]), leaf("HTML", false, 2, Vec::new())],
    );
    let saving = with_children(leaf("PRESET", true, 0, Vec::new()), vec![np]);
    let stored = match saving.call_effect(false, &f) {
        CallEffect::SavePresets(s) => s,
        _ => panic!("expected presets"),
    };
    let wanted = with_children(
        leaf("PRESET", true, 0, Vec::new()),
        vec![leaf("HTML", false, 1, Vec::new()), leaf("API", false, 1, Vec::new())],
    );
    let plan = wanted.preset_plan(Some(stored), &f);
    assert!(plan.failure.is_none());
    let names: Vec<&str> = plan.presets.iter().map(|p| p.value.as_str()).collect();
    assert_eq!(names, vec!["HTML", "API"]);
}

#[test]
fn presets_with_children_lose_their_followers() {
    let f = "f".to_string();
    let api = with_children(leaf("API", false, 2, Vec::new()), vec![leaf("MIME", true, 3, Vec::new())]);
    let np = with_children(leaf("NEW_PRESETS", false, 1, Vec::new()), vec![api, leaf("HTML", false, 2, Vec::new())]);
    let saving = with_children(leaf("PRESET", true, 0, Vec::new()), vec![np]);
    let stored = match saving.call_effect(false, &f) {
        CallEffect::SavePresets(s) => s,
        _ => panic!("expected presets"),
    };
    assert_eq!(stored, "{\"API\":{\"!#!nodeparam:tab_number\":2,\"MIME\":]},\"HTML\":{\"!#!nodeparam:tab_number\":2}}");
    let wanted = with_children(leaf("PRESET", true, 0, Vec::new()), vec![leaf("HTML", false, 1, Vec::new())]);
    match wanted.preset_plan(Some(stored), &f).failure {
        Some(PlanFailure::Report(r)) => {
            assert!(r.reason == ErrorReason::InvalidTemplate(InvalidTemplate::PresetDoesntExist));
            assert_eq!(r.details, vec!["HTML".to_string()]);
        }
        _ => panic!("expected the missing-preset error"),
    }
}

#[test]
fn a_leaf_with_several_arguments_loses_the_followers() {
    let f = "f".to_string();
    let pair = leaf("PAIR", false, 3, vec![param("1", "number"), param("2", "number")]);
    let api = with_children(leaf("API", false, 2, Vec::new()), vec![pair]);
    let np = with_children(leaf("NEW_PRESETS", false, 1, Vec::new()), vec![api, leaf("HTML", false, 2, Vec::new())]);
    let saving = with_children(leaf("PRESET", true, 0, Vec::new()), vec![np]);
    let stored = match saving.call_effect(false, &f) {
        CallEffect::SavePresets(s) => s,
        _ => panic!("expected presets"),
    };
    let wanted = with_children(leaf("PRESET", true, 0, Vec::new()), vec![leaf("API", false, 1, Vec::new()), leaf("HTML", false, 1, Vec::new())]);
    let plan = wanted.preset_plan(Some(stored), &f);
    assert_eq!(plan.presets.len(), 1);
    match plan.failure {
        Some(PlanFailure::Report(r)) => assert_eq!(r.details, vec!["HTML".to_string()]),
        _ => panic!("expected the missing-preset error"),
    }
}

#[test]
fn reading_a_repeated_name_keeps_one_entry() {
    let n = deserialize("{\"x\":{},\"y\":{},\"x\":{\"!#!RENDER\":true}}".to_string());
    let keys: Vec<&str> = n.scope.iter().map(|(k, _)| k.as_str()).collect();
    assert_eq!(keys, vec!["x", "y"]);
    assert!(n.scope[0].1.render);
}
