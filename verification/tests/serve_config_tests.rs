use roflow::builder::build_project;
use roflow::builder::build_project_json;
use roflow::builder::BuildFailure;
use roflow::builder::SourceFile;
use roflow::config::config_fields_of;
use roflow::config::default_config;
use roflow::config::get_aliases;
use roflow::config::parse_config;
use roflow::install::trim_text;
use roflow::json::get_field;
use roflow::json::parse_json;
use roflow::json::JsonValue;
use roflow::route::route_file;
use roflow::routing::route_from_word;
use roflow::routing::AliasMap;
use roflow::serve::rojo_candidates;
use roflow::serve::rojo_next;
use roflow::serve::serve_event_action;
use roflow::serve::RojoAction;
use roflow::serve::ServeAction;
use roflow::suffix::get_suffix_route;

fn strings(v: &[&str]) -> Vec<String> {
    v.iter().map(|s| s.to_string()).collect()
}

fn text(s: &str) -> JsonValue {
    JsonValue::Text(s.to_string())
}

#[test]
fn default_config_parses_to_its_fields() {
    let c = parse_config(default_config()).unwrap();
    assert_eq!(c.source.as_deref(), Some("src"));
    assert_eq!(c.build.as_deref(), Some("src"));
    assert_eq!(c.output.as_deref(), Some("default.project.json"));
    assert_eq!(c.include_rojo, Some(false));
    let aliases = c.aliases.unwrap();
    assert_eq!(
        aliases,
        vec![
            ("Controller".to_string(), Some("ReplicatedStorage/Client".to_string())),
            ("Service".to_string(), Some("ServerScriptService".to_string())),
        ]
    );
}

#[test]
fn invalid_config_is_refused() {
    assert!(parse_config("").is_none());
    assert!(parse_config("{").is_none());
    assert!(parse_config("{\"source\": }").is_none());
    assert!(parse_config("not json").is_none());
}

#[test]
fn wrong_types_read_as_missing() {
    let c = parse_config("{\"source\": 3, \"build\": true, \"includeRojo\": \"yes\", \"aliases\": [1]}")
        .unwrap();
    assert_eq!(c.source, None);
    assert_eq!(c.build, None);
    assert_eq!(c.output, None);
    assert_eq!(c.include_rojo, None);
    assert!(c.aliases.is_none());
}

#[test]
fn non_object_config_has_no_fields() {
    let c = parse_config("[\"src\"]").unwrap();
    assert_eq!(c.source, None);
    assert_eq!(c.include_rojo, None);
    assert!(c.aliases.is_none());
    let c = parse_config("null").unwrap();
    assert_eq!(c.output, None);
}

#[test]
fn alias_values_that_are_not_text() {
    let c = parse_config("{\"aliases\": {\"Lib\": 5, \"Net\": \"ServerStorage\"}}").unwrap();
    assert_eq!(
        c.aliases.unwrap(),
        vec![("Lib".to_string(), None), ("Net".to_string(), Some("ServerStorage".to_string()))]
    );
}

#[test]
fn alias_keys_come_in_parser_order() {
    // serde_json's map keeps its keys sorted, so "Api" comes before "api"
    // and "Zed", and the first of two keys equal in lowercase wins.
    let c = parse_config("{\"aliases\": {\"Zed\": \"Workspace\", \"api\": \"ServerStorage\", \"Api\": \"Lighting\"}}")
        .unwrap();
    let keys: Vec<String> = c.aliases.as_ref().unwrap().iter().map(|(k, _)| k.clone()).collect();
    assert_eq!(keys, strings(&["Api", "Zed", "api"]));
    let aliases = get_aliases(&c);
    assert_eq!(route_from_word("API", &aliases), "Lighting");
    assert_eq!(route_from_word("zed", &aliases), "Workspace");
}

#[test]
fn parse_json_values() {
    assert!(matches!(parse_json("true"), Some(JsonValue::Bool(true))));
    assert!(matches!(parse_json("1.5"), Some(JsonValue::Number)));
    assert!(matches!(parse_json("null"), Some(JsonValue::Null)));
    match parse_json("\"a\\u0062\"") {
        Some(JsonValue::Text(s)) => assert_eq!(s, "ab"),
        _ => panic!("expected a string"),
    }
    match parse_json("[1, \"x\"]") {
        Some(JsonValue::Array(items)) => assert_eq!(items.len(), 2),
        _ => panic!("expected an array"),
    }
    assert!(parse_json("{,}").is_none());
}

#[test]
fn fields_of_a_value_built_by_hand() {
    let json = JsonValue::Object(vec![
        ("source".to_string(), text("lib")),
        ("output".to_string(), JsonValue::Null),
        ("includeRojo".to_string(), JsonValue::Bool(true)),
        (
            "aliases".to_string(),
            JsonValue::Object(vec![("Net".to_string(), text("ServerStorage"))]),
        ),
    ]);
    let c = config_fields_of(&json);
    assert_eq!(c.source.as_deref(), Some("lib"));
    assert_eq!(c.build, None);
    assert_eq!(c.output, None);
    assert_eq!(c.include_rojo, Some(true));
    assert_eq!(c.aliases.unwrap(), vec![("Net".to_string(), Some("ServerStorage".to_string()))]);
    assert!(matches!(get_field(&json, "includeRojo"), Some(JsonValue::Bool(true))));
    assert!(get_field(&json, "build").is_none());
    assert!(get_field(&text("x"), "source").is_none());
}

#[test]
fn rojo_candidates_in_order() {
    assert_eq!(rojo_candidates(), vec!["rojo", "./rojo", "./rojo.exe", "./bin/rojo", "./bin/rojo.exe"]);
}

#[test]
fn rojo_tries_each_candidate_then_gives_up() {
    assert_eq!(rojo_next(0, false), RojoAction::Try(0));
    assert_eq!(rojo_next(3, false), RojoAction::Try(3));
    assert_eq!(rojo_next(4, false), RojoAction::Try(4));
    assert_eq!(rojo_next(5, false), RojoAction::GiveUp);
    assert_eq!(rojo_next(1, true), RojoAction::Started);
    assert_eq!(rojo_next(5, true), RojoAction::Started);
}

#[test]
fn serve_events() {
    assert_eq!(serve_event_action(true), ServeAction::Rebuild);
    assert_eq!(serve_event_action(false), ServeAction::ReportError);
}

#[test]
fn ascii_names_always_route() {
    let none = AliasMap::new();
    for stem in ["a.", ".", "..", "x-", "Q_Server", "init", "A.B.C", "Zz"] {
        assert!(get_suffix_route(stem, &none).is_some(), "{stem}");
        let r = route_file(&Vec::new(), stem, "src", &none);
        assert!(r.is_some(), "{stem}");
        assert!(!r.unwrap().route.is_empty());
    }
}

#[test]
fn routes_are_never_empty_and_folders_keep_order() {
    let none = AliasMap::new();
    let r = route_file(&strings(&["a", "Server", "b", "c"]), "x.lua", "src", &none).unwrap();
    assert_eq!(r.route, "ServerScriptService");
    assert_eq!(r.folders, strings(&["a", "b", "c"]));
    let r = route_file(&strings(&["a", "Client", "b", "Shared", "c"]), "init.lua", "src", &none).unwrap();
    assert_eq!(r.route, "ReplicatedStorage/Shared");
    assert_eq!(r.folders, strings(&["a", "b"]));
    assert_eq!(r.name, "c");
    let r = route_file(&strings(&["p", "Client"]), "init.lua", "src", &none).unwrap();
    assert_eq!(r.folders, strings(&[]));
    assert_eq!(r.name, "p");
    let r = route_file(&strings(&["Client", "Server"]), "init.lua", "src", &none).unwrap();
    assert_eq!(r.route, "ServerScriptService");
    assert_eq!(r.name, "Server");
}

#[test]
fn ascii_build_is_never_refused_for_routing() {
    let none = AliasMap::new();
    let files = vec![
        SourceFile { parent_parts: strings(&["Server"]), file_name: "a.lua".to_string() },
        SourceFile { parent_parts: Vec::new(), file_name: "b.client.luau".to_string() },
    ];
    assert!(build_project(&files, "src", &none).is_ok());
    let files = vec![SourceFile { parent_parts: Vec::new(), file_name: "İİé.x.lua".to_string() }];
    assert!(matches!(build_project(&files, "src", &none), Err(BuildFailure::Route(0))));
}

#[test]
fn trim_matches_std() {
    for text in [
        "",
        "   ",
        " a ",
        "\t\n x y \r\n",
        "\u{3000}\u{a0}wide\u{2028}",
        "\u{200b}zero\u{200b}",
        "\u{85}\u{1680}\u{2000}\u{200a}\u{2029}\u{202f}\u{205f}in\u{b}\u{c}",
        "no-space",
    ] {
        assert_eq!(trim_text(text), text.trim(), "{text:?}");
    }
}

#[test]
fn project_json_text_of_a_build() {
    let none = AliasMap::new();
    let files = vec![SourceFile { parent_parts: strings(&["Server"]), file_name: "Main.lua".to_string() }];
    let text = build_project_json(&files, "src", &none).unwrap();
    assert!(text.starts_with("{\n  \"emitLegacyScripts\": false,\n  \"name\": \"roflow-project\",\n  \"tree\": {"));
    let value: serde_json::Value = serde_json::from_str(&text).unwrap();
    assert_eq!(value["tree"]["ServerScriptService"]["Main"]["$path"], "src/Server/Main.lua");
    assert_eq!(value["tree"]["ReplicatedStorage"]["Client"]["$className"], "Folder");
    assert_eq!(value["tree"]["$className"], "DataModel");
    let bad = vec![SourceFile { parent_parts: Vec::new(), file_name: "İİé.x.lua".to_string() }];
    assert!(matches!(build_project_json(&bad, "src", &none), Err(BuildFailure::Route(0))));
}

#[test]
fn duplicate_alias_keys_parse_once() {
    let c = parse_config("{\"aliases\": {\"A\": \"Lighting\", \"A\": \"Workspace\", \"B\": \"\"}}").unwrap();
    assert_eq!(
        c.aliases.clone().unwrap(),
        vec![("A".to_string(), Some("Workspace".to_string())), ("B".to_string(), Some(String::new()))]
    );
    let aliases = get_aliases(&c);
    assert_eq!(aliases.len(), 1);
    assert_eq!(aliases.key_at(0), "A");
    assert_eq!(aliases.route_at(0), "Workspace");
}
