use roflow::cli::parse_command;
use roflow::cli::Command;
use roflow::config::build_settings;
use roflow::config::default_config;
use roflow::config::get_aliases;
use roflow::config::serve_includes_rojo;
use roflow::config::ConfigFields;
use roflow::install::add_install_folder_to_path;
use roflow::install::get_installed_exe_name;
use roflow::install::home_folder_from;
use roflow::install::unix_path_has_folder;
use roflow::install::windows_path_update;
use roflow::install::windows_path_update_for;
use roflow::install::PathSetup;
use roflow::install::WindowsPathUpdate;
use roflow::sources::scan_folder_plan;
use roflow::sources::DirEntryInfo;
use roflow::sources::ScanPlan;
use roflow::sources::ScanStep;

fn args(v: &[&str]) -> Vec<String> {
    v.iter().map(|s| s.to_string()).collect()
}

fn empty_config() -> ConfigFields {
    ConfigFields { source: None, build: None, output: None, include_rojo: None, aliases: None }
}

fn entry(name: &str, is_file: bool, is_dir: bool) -> DirEntryInfo {
    DirEntryInfo { name: name.to_string(), is_file, is_dir }
}

#[test]
fn commands() {
    assert!(matches!(parse_command(&args(&["roflow"])), Command::Help));
    assert!(matches!(parse_command(&args(&["roflow", "init"])), Command::Init));
    assert!(matches!(parse_command(&args(&["roflow", "--init"])), Command::Init));
    assert!(matches!(parse_command(&args(&["roflow", "build"])), Command::Build));
    assert!(matches!(parse_command(&args(&["roflow", "--build"])), Command::Build));
    assert!(matches!(parse_command(&args(&["roflow", "install"])), Command::Install));
    assert!(matches!(
        parse_command(&args(&["roflow", "serve"])),
        Command::Serve { include_rojo: false }
    ));
    assert!(matches!(
        parse_command(&args(&["roflow", "--serve", "--include-rojo"])),
        Command::Serve { include_rojo: true }
    ));
    match parse_command(&args(&["roflow", "deploy"])) {
        Command::Unknown(s) => assert_eq!(s, "deploy"),
        _ => panic!("expected unknown"),
    }
    assert!(matches!(parse_command(&args(&["roflow", "--include-rojo"])), Command::Unknown(_)));
}

#[test]
fn default_config_parses() {
    let text = default_config();
    let v: serde_json::Value = serde_json::from_str(text).unwrap();
    assert_eq!(v["source"], "src");
    assert_eq!(v["build"], "src");
    assert_eq!(v["output"], "default.project.json");
    assert_eq!(v["includeRojo"], false);
    assert_eq!(v["aliases"]["Controller"], "ReplicatedStorage/Client");
    assert_eq!(v["aliases"]["Service"], "ServerScriptService");
    assert!(text.starts_with("{\n\t\"source\""));
}

#[test]
fn settings_defaults() {
    let s = build_settings(&empty_config());
    assert_eq!(s.source, "src");
    assert_eq!(s.build_folder, "src");
    assert_eq!(s.output_file, "default.project.json");
    let mut c = empty_config();
    c.source = Some("code".to_string());
    let s = build_settings(&c);
    assert_eq!(s.build_folder, "code");
    c.build = Some("out".to_string());
    c.output = Some("p.json".to_string());
    let s = build_settings(&c);
    assert_eq!(s.source, "code");
    assert_eq!(s.build_folder, "out");
    assert_eq!(s.output_file, "p.json");
}

#[test]
fn rojo_switch() {
    let mut c = empty_config();
    assert!(!serve_includes_rojo(false, &c));
    assert!(serve_includes_rojo(true, &c));
    c.include_rojo = Some(true);
    assert!(serve_includes_rojo(false, &c));
    c.include_rojo = Some(false);
    assert!(!serve_includes_rojo(false, &c));
}

#[test]
fn aliases_from_config() {
    let mut c = empty_config();
    assert_eq!(get_aliases(&c).len(), 0);
    c.aliases = Some(vec![
        ("Controller".to_string(), Some("ReplicatedStorage/Client".to_string())),
        ("Empty".to_string(), Some(String::new())),
        ("Number".to_string(), None),
        ("Service".to_string(), Some("ServerScriptService".to_string())),
    ]);
    let m = get_aliases(&c);
    assert_eq!(m.len(), 2);
    assert_eq!(m.key_at(0), "Controller");
    assert_eq!(m.route_at(0), "ReplicatedStorage/Client");
    assert_eq!(m.key_at(1), "Service");
    assert_eq!(m.route_at(1), "ServerScriptService");
}

#[test]
fn scan_prefers_init_file() {
    let entries = vec![
        entry("a.lua", true, false),
        entry("sub", false, true),
        entry("init.lua", true, false),
        entry("index.lua", true, false),
    ];
    assert!(matches!(scan_folder_plan(&entries), ScanPlan::InitFile(2)));
}

#[test]
fn scan_walks_without_init() {
    let entries = vec![
        entry("a.lua", true, false),
        entry("notes.md", true, false),
        entry("sub", false, true),
        entry("init.lua", false, true),
        entry("b.RBXM", true, false),
    ];
    match scan_folder_plan(&entries) {
        ScanPlan::Walk(steps) => assert_eq!(
            steps,
            vec![ScanStep::Collect(0), ScanStep::Descend(2), ScanStep::Descend(3), ScanStep::Collect(4)]
        ),
        ScanPlan::InitFile(_) => panic!("no init file here"),
    }
}

#[test]
fn installed_names() {
    assert_eq!(get_installed_exe_name(true), "roflow.exe");
    assert_eq!(get_installed_exe_name(false), "roflow");
    assert_eq!(add_install_folder_to_path(true), PathSetup::WindowsUserPath);
    assert_eq!(add_install_folder_to_path(false), PathSetup::UnixInstructions);
}

#[test]
fn home_folder_choice() {
    assert_eq!(home_folder_from(Some("/home/u".to_string()), Some("C:\\U".to_string())), "/home/u");
    assert_eq!(home_folder_from(Some(String::new()), Some("C:\\U".to_string())), "C:\\U");
    assert_eq!(home_folder_from(None, Some("C:\\U".to_string())), "C:\\U");
    assert_eq!(home_folder_from(None, None), ".");
    assert_eq!(home_folder_from(Some(String::new()), None), ".");
}

#[test]
fn unix_path_lookup() {
    assert!(unix_path_has_folder("/usr/bin:/home/u/.roflow:/bin", "/home/u/.roflow"));
    assert!(!unix_path_has_folder("/usr/bin:/bin", "/home/u/.roflow"));
    assert!(!unix_path_has_folder("/usr/bin:/HOME/U/.ROFLOW", "/home/u/.roflow"));
    assert!(unix_path_has_folder("", ""));
}

#[test]
fn windows_path_updates() {
    match windows_path_update_for("C:\\Tools;C:\\Users\\U\\.roflow", "c:\\users\\u\\.ROFLOW") {
        WindowsPathUpdate::AlreadyListed => {}
        WindowsPathUpdate::Replace(_) => panic!("already listed"),
    }
    match windows_path_update_for("C:\\Tools", "C:\\R") {
        WindowsPathUpdate::Replace(p) => assert_eq!(p, "C:\\Tools;C:\\R"),
        WindowsPathUpdate::AlreadyListed => panic!("not listed"),
    }
    match windows_path_update_for("", "C:\\R") {
        WindowsPathUpdate::Replace(p) => assert_eq!(p, "C:\\R"),
        WindowsPathUpdate::AlreadyListed => panic!("not listed"),
    }
}

#[test]
fn windows_path_from_command_output() {
    match windows_path_update(b"  C:\\Tools;C:\\Bin \r\n", "C:\\R") {
        WindowsPathUpdate::Replace(p) => assert_eq!(p, "C:\\Tools;C:\\Bin;C:\\R"),
        WindowsPathUpdate::AlreadyListed => panic!("not listed"),
    }
    match windows_path_update(b"C:\\T\xff", "C:\\R") {
        WindowsPathUpdate::Replace(p) => assert_eq!(p, "C:\\T\u{fffd};C:\\R"),
        WindowsPathUpdate::AlreadyListed => panic!("not listed"),
    }
    match windows_path_update(b"C:\\R\n", "c:\\r") {
        WindowsPathUpdate::AlreadyListed => {}
        WindowsPathUpdate::Replace(_) => panic!("listed"),
    }
}

#[test]
fn appended_path_lists_folder() {
    let new_path = match windows_path_update_for("C:\\Tools;D:\\Bin", "C:\\R") {
        WindowsPathUpdate::Replace(p) => p,
        WindowsPathUpdate::AlreadyListed => panic!("not listed"),
    };
    assert!(matches!(
        windows_path_update_for(&new_path, "C:\\R"),
        WindowsPathUpdate::AlreadyListed
    ));
}

#[test]
fn windows_path_trims_unicode_whitespace() {
    let output = "\u{3000}\u{a0}C:\\A\u{2028}\t\u{85}".as_bytes();
    match windows_path_update(output, "C:\\R") {
        WindowsPathUpdate::Replace(p) => assert_eq!(p, "C:\\A;C:\\R"),
        WindowsPathUpdate::AlreadyListed => panic!("not listed"),
    }
    match windows_path_update(" \u{200b}C:\\A".as_bytes(), "C:\\R") {
        WindowsPathUpdate::Replace(p) => assert_eq!(p, "\u{200b}C:\\A;C:\\R"),
        WindowsPathUpdate::AlreadyListed => panic!("not listed"),
    }
    match windows_path_update(b" \t\r\n", "C:\\R") {
        WindowsPathUpdate::Replace(p) => assert_eq!(p, "C:\\R"),
        WindowsPathUpdate::AlreadyListed => panic!("not listed"),
    }
}

fn run_scan(tree: &[(&str, Vec<DirEntryInfo>)]) -> Vec<String> {
    let mut scan = roflow::scan::FolderScan::new();
    loop {
        match scan.next_action() {
            roflow::scan::ScanAction::ListFolder(names) => {
                let key = names.join("/");
                let listing = tree.iter().find(|(k, _)| *k == key).map(|(_, v)| v).unwrap();
                let entries: Vec<DirEntryInfo> = listing
                    .iter()
                    .map(|e| DirEntryInfo { name: e.name.clone(), is_file: e.is_file, is_dir: e.is_dir })
                    .collect();
                scan.take_listing(&names, &entries);
            }
            roflow::scan::ScanAction::Done => break,
        }
    }
    scan.into_found().iter().map(|names| names.join("/")).collect()
}

#[test]
fn whole_scan_is_depth_first_and_keeps_only_scripts() {
    let tree = vec![
        (
            "",
            vec![
                entry("a.lua", true, false),
                entry("sub", false, true),
                entry("b.txt", true, false),
                entry("c.luau", true, false),
            ],
        ),
        ("sub", vec![entry("x.lua", true, false), entry("deep", false, true), entry("w.rbxm", true, false)]),
        ("sub/deep", vec![entry("y.lua", true, false), entry("init.client.lua", true, false)]),
    ];
    assert_eq!(run_scan(&tree), vec!["a.lua", "sub/x.lua", "sub/deep/init.client.lua", "sub/w.rbxm", "c.luau"]);
}

#[test]
fn whole_scan_of_a_folder_with_an_init_script() {
    let tree = vec![(
        "",
        vec![entry("z.lua", true, false), entry("init.server.lua", true, false), entry("d", false, true)],
    )];
    assert_eq!(run_scan(&tree), vec!["init.server.lua"]);
    let empty = vec![("", Vec::new())];
    assert!(run_scan(&empty).is_empty());
}
