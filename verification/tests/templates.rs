use earwig::datatypes::{Node, Parameter};
use earwig::effects::{insert_file, path_steps, CallEffect, PathStep};
use earwig::parser::parse_source;
use earwig::parserutilities::{parameter_determine, parse_type, try_parse_type, node_to_json_preset};

fn global() -> Node {
    Node {
        value: "SCOPE_GLOBAL".to_string(),
        render: false,
        tab_number: -1,
        scope: Vec::new(),
        args: Vec::new(),
    }
}

fn param(value: &str, var_type: &str) -> Parameter {
    Parameter { value: value.to_string(), var_type: var_type.to_string() }
}

fn leaf(value: &str, render: bool, tab: i32, args: Vec<Parameter>) -> Node {
    Node { value: value.to_string(), render, tab_number: tab, scope: Vec::new(), args }
}

/// Runs the interpreter over a parsed source and collects what gets printed.
fn render(src: &str) -> String {
    let mut tree = parse_source(format!("{}\n$", src), global()).expect("parse");
    assert!(tree.can_interpret());
    let (_, calls) = tree.interpret(false, "test.ear".to_string());
    let mut out = String::new();
    for c in calls.iter() {
        assert!(c.node.can_call(c.is_preset));
        match c.node.call_effect(c.is_preset, &c.file_path) {
            CallEffect::Print(s) => out.push_str(&s),
            CallEffect::Nothing => {}
            _ => panic!("unexpected effect"),
        }
    }
    out
}

#[test]
fn argument_types() {
    assert_eq!(parameter_determine("JSON".to_string(), false), "keyword");
    assert_eq!(parameter_determine("json".to_string(), false), "str");
    assert_eq!(parameter_determine("123".to_string(), false), "number");
    assert_eq!(parameter_determine("-1.5".to_string(), false), "number");
    assert_eq!(parameter_determine("12a3".to_string(), false), "str");
    assert_eq!(parameter_determine("1:30".to_string(), false), "time");
    assert_eq!(parameter_determine("JSON".to_string(), true), "str");
    assert_eq!(parameter_determine("".to_string(), true), "str");
}

#[test]
fn argument_rendering() {
    assert_eq!(parse_type(param("1:30", "time")), "90000");
    assert_eq!(parse_type(param("1:00:00", "time")), "3600000");
    assert_eq!(parse_type(param("5", "time")), "5000");
    assert_eq!(parse_type(param("-2:0", "time")), "-120000");
    assert_eq!(parse_type(param("1:2:3:4", "time")), "1000");
    assert_eq!(parse_type(param("x", "str")), "\"x\"");
    assert_eq!(parse_type(param("42", "number")), "42");
    assert_eq!(parse_type(param("JSON", "keyword")), "\"!#!KEYWORD:JSON\"");
    assert_eq!(parse_type(param("x", "other")), "");
    assert!(try_parse_type(&param("a:b", "time")).is_none());
    assert!(try_parse_type(&param("999:0:0", "time")).is_none());
}

#[test]
fn preset_json() {
    let mut api = leaf("API", false, 1, Vec::new());
    api.scope.push(("Cors".to_string(), leaf("Cors", false, 2, vec![param("*", "str")])));
    assert_eq!(
        node_to_json_preset(api, "API".to_string()),
        "\"API\":{\"!#!nodeparam:tab_number\":1,\"Cors\":[\"*\"]},"
    );
    let mut bare = leaf("B", false, 0, Vec::new());
    bare.scope.push(("K".to_string(), leaf("K", false, 1, Vec::new())));
    assert_eq!(
        node_to_json_preset(bare, "B".to_string()),
        "\"B\":{\"!#!nodeparam:tab_number\":0,\"K\":]}," 
    );
}

#[test]
fn text_and_mime() {
    assert_eq!(render("Hello\n$\n?MIME: JSON\n$\nBye"), "Hello\nmime_type(\"JSON\");\nBye\n");
}

#[test]
fn mime_needs_the_question_mark() {
    assert_eq!(render("$\nMIME: JSON\n$\nok"), "\nok\n");
}

#[test]
fn headers_render() {
    assert_eq!(
        render("$\n?HEADERS:\n\tUsername: \"name\"\n\tData:\n\t\tsubData: \"123\"\n$"),
        "set_headers({ \"Username\" : \"name\", \"Data\" : { \"subData\" : \"123\", }, });\n"
    );
}

#[test]
fn parsed_tree_shape() {
    let tree = parse_source("Hello\n$\n?MIME: JSON\n$\nBye\n$".to_string(), global()).unwrap();
    let keys: Vec<&str> = tree.scope.iter().map(|(k, _)| k.as_str()).collect();
    assert_eq!(keys, vec!["0", "1", "2", "3"]);
    assert_eq!(tree.scope[0].1.value, "TEXT_GLOBAL");
    assert_eq!(tree.scope[0].1.args[0].value, "Hello\n");
    let mime = &tree.scope[2].1;
    assert_eq!(mime.value, "MIME");
    assert!(mime.render);
    assert_eq!(mime.args.len(), 1);
    assert_eq!(mime.args[0].value, "JSON");
    assert_eq!(mime.args[0].var_type, "keyword");
    assert_eq!(tree.scope[3].1.args[0].value, "\nBye\n");
    // The last `$` line opens an unnamed template under the innermost open one.
    assert_eq!(mime.scope.len(), 1);
    assert_eq!(mime.scope[0].0, "");
}

#[test]
fn nesting_by_tabs() {
    let tree = parse_source(
        "$\n?HEADERS:\n\tCors: \"*\"\n\tAuth:\n\t\tID: 1\nMIME: HTML\n$".to_string(),
        global(),
    )
    .unwrap();
    assert_eq!(tree.scope[1].1.value, "");
    let headers = &tree.scope[2].1;
    assert_eq!(headers.value, "HEADERS");
    let names: Vec<&str> = headers.scope.iter().map(|(k, _)| k.as_str()).collect();
    assert_eq!(names, vec!["Cors", "Auth"]);
    let auth = &headers.scope[1].1;
    assert_eq!(auth.tab_number, 1);
    assert_eq!(auth.scope[0].0, "ID");
    assert_eq!(auth.scope[0].1.args[0].var_type, "number");
    assert_eq!(tree.scope[3].1.value, "MIME");
    assert_eq!(tree.scope[3].1.tab_number, 0);
}

#[test]
fn comments_and_blank_lines() {
    // A template line that holds a comment is not added at all.
    let tree = parse_source("$\n   \n# a comment\n?MIME: JSON # trailing\n?MIME: HTML\n$".to_string(), global()).unwrap();
    let values: Vec<&str> = tree.scope.iter().map(|(_, n)| n.value.as_str()).collect();
    assert_eq!(values, vec!["TEXT_GLOBAL", "", "MIME"]);
    assert_eq!(tree.scope[2].1.args.len(), 1);
    assert_eq!(tree.scope[2].1.args[0].value, "HTML");
}

#[test]
fn quoted_arguments_are_strings() {
    let tree = parse_source("$\nA: \"12\" 12\n$".to_string(), global()).unwrap();
    let a = &tree.scope[2].1;
    assert_eq!(a.args[0].value, "12");
    assert_eq!(a.args[0].var_type, "str");
    assert_eq!(a.args[1].var_type, "number");
}

#[test]
fn negative_root_never_closes() {
    for src in ["", "$", "x\n$\nA:\nB:\n\tC:\nD:\n$", "$\n\t\tdeep:\nshallow:\n$"] {
        assert!(parse_source(src.to_string(), global()).is_some());
    }
}

#[test]
fn shallow_root_can_be_closed() {
    let mut root = global();
    root.tab_number = 0;
    assert!(parse_source("$\nAB:\n$".to_string(), root).is_none());
}

#[test]
fn parsed_trees_can_be_interpreted() {
    for src in ["", "t\n$\nA: 1\n\tB:\n$\nu\n$", "$\nSCOPE_GLOBAL:\n\tX:\n\tY:\n$"] {
        let tree = parse_source(src.to_string(), global()).unwrap();
        assert!(tree.can_interpret());
    }
}

#[test]
fn readme_presets_are_stored_and_found() {
    let src = "$\n?PRESET:\n\tNEW_PRESETS:\n\t\tAPI:\n\t\t\t?HEADERS:\n\t\t\t\tCors: \"*\"\n\t\t\t\tAuth:\n\t\t\t\t\tToken: \"abc\"\n\t\t\t\t\tID: 1\n\t\t\t?MIME: JSON\n\t\tHTML:\n\t\t\t?MIME: HTML\n\t\t\t?INSERT:\n\t\t\t\tPATH: \"../PAGES/navbar.ear\"\n\t\t\t\tSUBSTITUTIONS:\n\t\t\t\t\t#Home is set to true because it is the active tab in the navbar.\n\t\t\t\t\tHome: \"True\"\n$";
    let tree = parse_source(format!("{}\n$", src), global()).expect("parse");
    let preset = tree.scope.iter().map(|(_, n)| n).find(|n| n.value == "PRESET").expect("a PRESET template");
    let stored = match preset.call_effect(false, &"test.ear".to_string()) {
        CallEffect::SavePresets(s) => s,
        _ => panic!("expected presets"),
    };
    let request = parse_source("$\n?PRESET:\n\tHTML:\n\tAPI:\n$\n$".to_string(), global()).expect("parse");
    let wanted = request.scope.iter().map(|(_, n)| n).find(|n| n.value == "PRESET").expect("a PRESET template");
    let plan = wanted.preset_plan(Some(stored), &"test.ear".to_string());
    assert!(plan.failure.is_none());
    let names: Vec<&str> = plan.presets.iter().map(|p| p.value.as_str()).collect();
    assert_eq!(names, vec!["HTML", "API"]);
}

#[test]
fn a_repeated_key_keeps_one_entry() {
    let tree = parse_source("$\n?HEADERS:\n\tA: 1\n\tB: 2\n\tA: 3\n$\n$".to_string(), global()).expect("parse");
    let headers = tree.scope.iter().map(|(_, n)| n).find(|n| n.value == "HEADERS").expect("HEADERS");
    let keys: Vec<&str> = headers.scope.iter().map(|(k, _)| k.as_str()).collect();
    assert_eq!(keys, vec!["A", "B"]);
    assert_eq!(headers.scope[0].1.args[0].value, "3");
}

#[test]
fn only_a_leading_question_mark_renders_and_others_are_dropped() {
    let tree = parse_source("$\n?MIME: JSON\nNAME: b?\n$\n$".to_string(), global()).expect("parse");
    let mime = tree.scope.iter().map(|(_, n)| n).find(|n| n.value == "MIME").expect("MIME");
    assert!(mime.render);
    let name = tree.scope.iter().map(|(_, n)| n).find(|n| n.value == "NAME").expect("NAME");
    assert_eq!(name.value, "NAME");
    assert!(!name.render);
    assert_eq!(name.args[0].value, "b");
}

#[test]
fn inserted_files_are_substituted_and_rendered() {
    let mut subs = leaf("SUBSTITUTIONS", false, 1, Vec::new());
    subs.scope.push(("Home".to_string(), leaf("Home", false, 2, vec![param("True", "str")])));
    let text = "<a {Home}>\n\n<b {Home:False}>".to_string();
    let (_, calls) = insert_file(&text, &subs, "main.ear ~> nav.ear".to_string()).expect("insert");
    let mut out = String::new();
    for c in calls.iter() {
        assert_eq!(c.file_path, "main.ear ~> nav.ear");
        if let CallEffect::Print(s) = c.node.call_effect(c.is_preset, &c.file_path) {
            out.push_str(&s);
        }
    }
    assert_eq!(out, "<a \"True\">\n<b \"True\">\n");
    let mut bad = leaf("SUBSTITUTIONS", false, 1, Vec::new());
    bad.scope.push(("k".to_string(), leaf("k", false, 2, Vec::new())));
    assert!(insert_file(&text, &bad, "f".to_string()).is_none());
}

#[test]
fn parsing_keeps_the_global_scope() {
    let mut root = global();
    root.scope.push(("0".to_string(), leaf("KEEP", true, 0, vec![param("x", "str")])));
    let tree = parse_source("hi\n$\n?MIME: JSON\n$".to_string(), root).expect("parse");
    assert_eq!(tree.value, "SCOPE_GLOBAL");
    assert_eq!(tree.tab_number, -1);
    assert!(!tree.render);
    assert_eq!(tree.scope[0].0, "0");
    assert_eq!(tree.scope[0].1.value, "KEEP");
    let keys: Vec<&str> = tree.scope.iter().map(|(k, _)| k.as_str()).collect();
    assert_eq!(keys, vec!["0", "1", "2", "3"]);
}

#[test]
fn blank_lines_change_nothing() {
    assert_eq!(render("a\n\nb\n$\n?MIME: JSON\n  \n$\nc"), render("a\nb\n$\n?MIME: JSON\n$\nc"));
    assert_eq!(render("a\n\nb"), "a\nb\n");
}

#[test]
fn comment_lines_change_nothing() {
    assert_eq!(
        render("$\n?HEADERS:\n\t# a note: {x}\n\tA: \"1\"\n$"),
        render("$\n?HEADERS:\n\tA: \"1\"\n$")
    );
}

#[test]
fn stored_form_ignores_name_render_and_arguments() {
    let mut a = leaf("API", false, 1, Vec::new());
    a.scope.push(("Cors".to_string(), leaf("Cors", false, 2, vec![param("*", "str")])));
    let mut b = leaf("OTHER", true, 1, vec![param("z", "str")]);
    b.scope.push(("Cors".to_string(), leaf("Cors", false, 2, vec![param("*", "str")])));
    assert_eq!(node_to_json_preset(a, "P".to_string()), node_to_json_preset(b, "P".to_string()));
}

#[test]
fn parsing_keeps_a_global_scope_keyed_in_any_order() {
    let mut root = global();
    root.scope.push(("1".to_string(), leaf("B", false, 0, Vec::new())));
    root.scope.push(("0".to_string(), leaf("A", false, 0, Vec::new())));
    let tree = parse_source("hi\n$\n?MIME: JSON\n$".to_string(), root).expect("parse");
    let keys: Vec<&str> = tree.scope.iter().map(|(k, _)| k.as_str()).collect();
    assert_eq!(keys, vec!["1", "0", "2", "3", "4"]);
    assert_eq!(tree.scope[0].1.value, "B");
    assert_eq!(tree.scope[1].1.value, "A");
    assert!(tree.can_interpret());
}

#[test]
fn path_steps_go_up_and_into() {
    let steps = path_steps(&"../PAGES/navbar.ear".to_string());
    assert_eq!(steps.len(), 3);
    assert!(matches!(steps[0], PathStep::Up));
    assert!(matches!(&steps[1], PathStep::Into(p) if p == "PAGES"));
    assert!(matches!(&steps[2], PathStep::Into(p) if p == "navbar.ear"));
    let single = path_steps(&"".to_string());
    assert!(matches!(&single[0], PathStep::Into(p) if p.is_empty()));
}

#[test]
fn unicode_blank_lines_are_skipped() {
    assert_eq!(render("a\n\u{3000}\u{a0}\nb"), "a\nb\n");
}
