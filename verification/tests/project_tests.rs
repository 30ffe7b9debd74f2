use roflow::builder::build_project;
use roflow::builder::BuildFailure;
use roflow::builder::SourceFile;
use roflow::project::can_insert_file;
use roflow::project::create_project;
use roflow::project::get_class_name;
use roflow::project::insert_file;
use roflow::project::Project;
use roflow::project::ProjectValue;
use roflow::route::route_file;
use roflow::route::join_parts;
use roflow::routing::route_from_word;
use roflow::routing::AliasMap;

fn strings(v: &[&str]) -> Vec<String> {
    v.iter().map(|s| s.to_string()).collect()
}

fn get<'a>(entries: &'a [(String, ProjectValue)], key: &str) -> Option<&'a ProjectValue> {
    entries.iter().find(|(k, _)| k == key).map(|(_, v)| v)
}

fn table<'a>(v: Option<&'a ProjectValue>) -> &'a [(String, ProjectValue)] {
    match v {
        Some(ProjectValue::Table(t)) => t,
        _ => panic!("not a table"),
    }
}

fn text(v: Option<&ProjectValue>) -> &str {
    match v {
        Some(ProjectValue::Text(t)) => t,
        _ => panic!("not a text"),
    }
}

fn read<'a>(project: &'a Project, keys: &[&str]) -> Option<&'a ProjectValue> {
    let mut cur: &[(String, ProjectValue)] = &project.tree;
    let mut found = None;
    for (i, k) in keys.iter().enumerate() {
        found = get(cur, k);
        if i + 1 < keys.len() {
            cur = table(found);
        }
    }
    found
}

fn default_aliases() -> AliasMap {
    let mut m = AliasMap::new();
    m.insert("Controller", "ReplicatedStorage/Client");
    m.insert("Service", "ServerScriptService");
    m
}

#[test]
fn class_names() {
    assert_eq!(get_class_name("Client"), "Folder");
    assert_eq!(get_class_name("Shared"), "Folder");
    assert_eq!(get_class_name("ReplicatedStorage"), "ReplicatedStorage");
    assert_eq!(get_class_name("client"), "client");
}

#[test]
fn fresh_project() {
    let p = create_project();
    assert!(!p.emit_legacy_scripts);
    assert_eq!(p.name, "roflow-project");
    assert_eq!(p.tree.len(), 8);
    assert_eq!(text(read(&p, &["$className"])), "DataModel");
    assert_eq!(text(read(&p, &["ReplicatedStorage", "$className"])), "ReplicatedStorage");
    assert_eq!(text(read(&p, &["ReplicatedStorage", "Client", "$className"])), "Folder");
    assert_eq!(text(read(&p, &["ReplicatedStorage", "Shared", "$className"])), "Folder");
    for service in ["ServerScriptService", "ServerStorage", "ReplicatedFirst", "StarterGui", "StarterPack"] {
        assert_eq!(text(read(&p, &[service, "$className"])), service);
    }
    assert_eq!(text(read(&p, &["StarterPlayer", "$className"])), "StarterPlayer");
    assert_eq!(
        text(read(&p, &["StarterPlayer", "StarterPlayerScripts", "$className"])),
        "StarterPlayerScripts"
    );
    assert_eq!(
        text(read(&p, &["StarterPlayer", "StarterCharacterScripts", "$className"])),
        "StarterCharacterScripts"
    );
}

#[test]
fn insert_then_read_back() {
    let mut p = create_project();
    let folders = strings(&["Utils", "Math"]);
    assert!(can_insert_file(&p, "ReplicatedStorage/Shared", &folders));
    insert_file(&mut p, "ReplicatedStorage/Shared", &folders, "Vector", "src/Shared/Utils/Math/Vector.lua");
    assert_eq!(
        text(read(&p, &["ReplicatedStorage", "Shared", "Utils", "Math", "Vector", "$path"])),
        "src/Shared/Utils/Math/Vector.lua"
    );
    assert_eq!(text(read(&p, &["ReplicatedStorage", "Shared", "Utils", "$className"])), "Folder");
    assert_eq!(text(read(&p, &["ReplicatedStorage", "Shared", "$className"])), "Folder");
    assert_eq!(text(read(&p, &["ReplicatedStorage", "Client", "$className"])), "Folder");
    assert_eq!(table(read(&p, &["ServerStorage"])).len(), 1);
    assert_eq!(text(read(&p, &["$className"])), "DataModel");
    assert_eq!(p.tree.len(), 8);
}

#[test]
fn insert_creates_route_tables() {
    let mut p = create_project();
    insert_file(&mut p, "Workspace/Client", &Vec::new(), "Thing", "src/x.lua");
    assert_eq!(text(read(&p, &["Workspace", "$className"])), "Workspace");
    assert_eq!(text(read(&p, &["Workspace", "Client", "$className"])), "Folder");
    assert_eq!(text(read(&p, &["Workspace", "Client", "Thing", "$path"])), "src/x.lua");
}

#[test]
fn insert_twice_changes_nothing() {
    let mut p = create_project();
    insert_file(&mut p, "ServerScriptService", &strings(&["A"]), "Main", "src/Server/A/Main.lua");
    let before = format!("{:?}", p.tree.len());
    let snapshot = text(read(&p, &["ServerScriptService", "A", "Main", "$path"])).to_string();
    insert_file(&mut p, "ServerScriptService", &strings(&["A"]), "Main", "src/Server/A/Main.lua");
    assert_eq!(format!("{:?}", p.tree.len()), before);
    assert_eq!(text(read(&p, &["ServerScriptService", "A", "Main", "$path"])), snapshot);
    assert_eq!(table(read(&p, &["ServerScriptService", "A"])).len(), 2);
}

#[test]
fn insert_through_text_is_refused() {
    let p = create_project();
    assert!(!can_insert_file(&p, "ReplicatedStorage", &strings(&["$className"])));
    assert!(can_insert_file(&p, "ReplicatedStorage", &strings(&["Stuff"])));
    assert!(!can_insert_file(&p, "$className/X", &Vec::new()));
}

#[test]
fn route_plain_file_in_route_folder() {
    let aliases = default_aliases();
    let r = route_file(&strings(&["Server", "Utils"]), "Math.lua", "src", &aliases).unwrap();
    assert_eq!(r.route, "ServerScriptService");
    assert_eq!(r.folders, strings(&["Utils"]));
    assert_eq!(r.name, "Math");
    assert_eq!(r.project_path, "src/Server/Utils/Math.lua");
}

#[test]
fn route_suffix_when_no_folder_route() {
    let aliases = default_aliases();
    let r = route_file(&Vec::new(), "Main.server.lua", "build", &aliases).unwrap();
    assert_eq!(r.route, "ServerScriptService");
    assert!(r.folders.is_empty());
    assert_eq!(r.name, "Main");
    assert_eq!(r.project_path, "build/Main.server.lua");
}

#[test]
fn folder_route_beats_suffix() {
    let aliases = default_aliases();
    let r = route_file(&strings(&["Client"]), "Thing.server.lua", "src", &aliases).unwrap();
    assert_eq!(r.route, "ReplicatedStorage/Client");
    assert_eq!(r.name, "Thing");
}

#[test]
fn default_route_is_replicated_storage() {
    let aliases = AliasMap::new();
    let r = route_file(&strings(&["Lib"]), "Util.lua", "src", &aliases).unwrap();
    assert_eq!(r.route, "ReplicatedStorage");
    assert_eq!(r.folders, strings(&["Lib"]));
    assert_eq!(r.name, "Util");
}

#[test]
fn alias_suffix_routes() {
    let aliases = default_aliases();
    let r = route_file(&Vec::new(), "InputController.lua", "src", &aliases).unwrap();
    assert_eq!(r.route, "ReplicatedStorage/Client");
    assert_eq!(r.name, "Input");
}

#[test]
fn init_file_takes_folder_name() {
    let aliases = AliasMap::new();
    let r = route_file(&strings(&["Shared", "Thing"]), "init.lua", "src", &aliases).unwrap();
    assert_eq!(r.route, "ReplicatedStorage/Shared");
    assert!(r.folders.is_empty());
    assert_eq!(r.name, "Thing");
    assert_eq!(r.project_path, "src/Shared/Thing");
}

#[test]
fn init_file_in_route_folder_takes_its_name() {
    let aliases = AliasMap::new();
    let r = route_file(&strings(&["Server"]), "init.server.lua", "src", &aliases).unwrap();
    assert_eq!(r.route, "ServerScriptService");
    assert_eq!(r.name, "Server");
    assert_eq!(r.project_path, "src/Server");
}

#[test]
fn init_file_at_root_is_source() {
    let aliases = AliasMap::new();
    let r = route_file(&Vec::new(), "init.lua", "src", &aliases).unwrap();
    assert_eq!(r.route, "ReplicatedStorage");
    assert_eq!(r.name, "source");
    assert_eq!(r.project_path, "src");
}

#[test]
fn backslashes_become_slashes() {
    let aliases = AliasMap::new();
    let r = route_file(&strings(&["A"]), "x.lua", "out\\dir", &aliases).unwrap();
    assert_eq!(r.project_path, "out/dir/A/x.lua");
    let r = route_file(&Vec::new(), "init.lua", "out\\dir", &aliases).unwrap();
    assert_eq!(r.project_path, "out\\dir");
}

#[test]
fn route_fails_where_stem_cannot_be_cut() {
    let aliases = AliasMap::new();
    assert!(route_file(&Vec::new(), "İİé.x.lua", "src", &aliases).is_none());
}

#[test]
fn joins() {
    assert_eq!(join_parts(&strings(&["a", "b", "c"])), "a/b/c");
    assert_eq!(join_parts(&Vec::new()), "");
    assert_eq!(join_parts(&strings(&["one"])), "one");
}

#[test]
fn build_whole_project() {
    let aliases = default_aliases();
    let files = vec![
        SourceFile { parent_parts: strings(&["Server"]), file_name: "Main.lua".to_string() },
        SourceFile { parent_parts: strings(&["Shared", "Util"]), file_name: "init.lua".to_string() },
        SourceFile { parent_parts: Vec::new(), file_name: "InputController.luau".to_string() },
    ];
    let p = build_project(&files, "src", &aliases).unwrap();
    assert_eq!(text(read(&p, &["ServerScriptService", "Main", "$path"])), "src/Server/Main.lua");
    assert_eq!(text(read(&p, &["ReplicatedStorage", "Shared", "Util", "$path"])), "src/Shared/Util");
    assert_eq!(
        text(read(&p, &["ReplicatedStorage", "Client", "Input", "$path"])),
        "src/InputController.luau"
    );
}

#[test]
fn build_stops_at_blocked_placement() {
    let aliases = AliasMap::new();
    let files = vec![
        SourceFile { parent_parts: strings(&["A"]), file_name: "ok.lua".to_string() },
        SourceFile { parent_parts: strings(&["$className"]), file_name: "bad.lua".to_string() },
    ];
    assert_eq!(build_project(&files, "src", &aliases).err(), Some(BuildFailure::Insert(1)));
}

#[test]
fn build_stops_at_uncuttable_stem() {
    let aliases = AliasMap::new();
    let files = vec![SourceFile { parent_parts: Vec::new(), file_name: "İİé.x.lua".to_string() }];
    assert_eq!(build_project(&files, "src", &aliases).err(), Some(BuildFailure::Route(0)));
}

#[test]
fn builtin_route_tables_exist() {
    let p = create_project();
    let none = AliasMap::new();
    let words = [
        "server",
        "client",
        "shared",
        "player",
        "character",
        "serverscriptservice",
        "replicatedstorage",
        "replicatedfirst",
        "serverstorage",
        "startergui",
        "starterpack",
        "starterplayerscripts",
        "startercharacterscripts",
    ];
    for word in words {
        let route = route_from_word(word, &none);
        assert!(!route.is_empty(), "{word}");
        let parts: Vec<&str> = route.split('/').collect();
        for j in 1..=parts.len() {
            let mut keys: Vec<&str> = parts[..j].to_vec();
            keys.push("$className");
            assert_eq!(text(read(&p, &keys)), get_class_name(parts[j - 1]), "{route}");
        }
    }
}

#[test]
fn insert_creates_folder_classes_and_keeps_existing() {
    let mut p = create_project();
    insert_file(&mut p, "StarterPlayer/Extra", &strings(&["A", "B"]), "Main", "src/m.lua");
    assert_eq!(text(read(&p, &["StarterPlayer", "$className"])), "StarterPlayer");
    assert_eq!(text(read(&p, &["StarterPlayer", "Extra", "$className"])), "Extra");
    assert_eq!(text(read(&p, &["StarterPlayer", "Extra", "A", "$className"])), "Folder");
    assert_eq!(text(read(&p, &["StarterPlayer", "Extra", "A", "B", "$className"])), "Folder");
    assert_eq!(text(read(&p, &["StarterPlayer", "Extra", "A", "B", "Main", "$path"])), "src/m.lua");
    assert_eq!(
        text(read(&p, &["StarterPlayer", "StarterPlayerScripts", "$className"])),
        "StarterPlayerScripts"
    );
}

#[test]
fn name_class_name_replaces_the_class() {
    let mut p = create_project();
    insert_file(&mut p, "Workspace", &Vec::new(), "$className", "src/c.lua");
    assert_eq!(text(read(&p, &["Workspace", "$className", "$path"])), "src/c.lua");
}

#[test]
fn insert_keeps_values_off_its_walk() {
    let mut p = create_project();
    insert_file(&mut p, "ReplicatedStorage/Client", &strings(&["Ui"]), "A", "src/a.lua");
    insert_file(&mut p, "ReplicatedStorage/Client", &strings(&["Ui"]), "B", "src/b.lua");
    assert_eq!(text(read(&p, &["ReplicatedStorage", "Client", "Ui", "A", "$path"])), "src/a.lua");
    assert_eq!(text(read(&p, &["ReplicatedStorage", "Client", "$className"])), "Folder");
    assert_eq!(text(read(&p, &["ReplicatedStorage", "Shared", "$className"])), "Folder");
    assert_eq!(table(read(&p, &["ReplicatedStorage", "Shared"])).len(), 1);
}
