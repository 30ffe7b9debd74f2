use roflow::routing::route_from_lowered_word;
use roflow::routing::route_from_word;
use roflow::routing::builtin_route_of;
use roflow::routing::AliasMap;
use roflow::sources::has_source_extension;
use roflow::sources::is_init_file;
use roflow::sources::is_init_stem;
use roflow::sources::is_valid_source;
use roflow::suffix::get_suffix_route;
use roflow::suffix::suffix_route_from_lowered;
use roflow::text::file_stem;
use roflow::text::split_text;
use roflow::text::to_forward_slashes;

fn default_aliases() -> AliasMap {
    let mut m = AliasMap::new();
    m.insert("Controller", "ReplicatedStorage/Client");
    m.insert("Service", "ServerScriptService");
    m
}

#[test]
fn valid_source_extensions() {
    assert!(is_valid_source("main.lua"));
    assert!(is_valid_source("main.luau"));
    assert!(is_valid_source("Model.rbxm"));
    assert!(is_valid_source("Model.rbxmx"));
    assert!(is_valid_source("SHOUT.LUAU"));
    assert!(is_valid_source(".lua"));
    assert!(!is_valid_source("notes.txt"));
    assert!(!is_valid_source("lua"));
    assert!(!is_valid_source("script.lua.bak"));
}

#[test]
fn source_extension_of_lowercase_name() {
    assert!(has_source_extension("a.lua"));
    assert!(!has_source_extension("a.LUA"));
}

#[test]
fn init_files() {
    assert!(is_init_file("init.lua"));
    assert!(is_init_file("Init.luau"));
    assert!(is_init_file("index.server.luau"));
    assert!(is_init_file("INIT-client.lua"));
    assert!(is_init_file("index_shared.rbxm"));
    assert!(!is_init_file("initial.lua"));
    assert!(!is_init_file("init.txt"));
    assert!(!is_init_file("main.lua"));
}

#[test]
fn init_stems() {
    assert!(is_init_stem("init"));
    assert!(is_init_stem("index.x"));
    assert!(!is_init_stem("Init"));
    assert!(!is_init_stem("indexer"));
}

#[test]
fn file_stems() {
    assert_eq!(file_stem("a.b.lua"), "a.b");
    assert_eq!(file_stem("plain"), "plain");
    assert_eq!(file_stem(".lua"), ".lua");
    assert_eq!(file_stem(".."), "..");
    assert_eq!(file_stem("trail."), "trail");
    assert_eq!(file_stem("..."), "..");
}

#[test]
fn split_like_std() {
    assert_eq!(split_text("a/b//c", '/'), vec!["a", "b", "", "c"]);
    assert_eq!(split_text("", '/'), vec![""]);
    assert_eq!(split_text("a/", '/'), vec!["a", ""]);
}

#[test]
fn forward_slashes() {
    assert_eq!(to_forward_slashes("a\\b\\c"), "a/b/c");
    assert_eq!(to_forward_slashes("plain"), "plain");
}

#[test]
fn builtin_words() {
    let none = AliasMap::new();
    assert_eq!(route_from_word("Server", &none), "ServerScriptService");
    assert_eq!(route_from_word("CLIENT", &none), "ReplicatedStorage/Client");
    assert_eq!(route_from_word("shared", &none), "ReplicatedStorage/Shared");
    assert_eq!(route_from_word("Player", &none), "StarterPlayer/StarterPlayerScripts");
    assert_eq!(route_from_word("character", &none), "StarterPlayer/StarterCharacterScripts");
    assert_eq!(route_from_word("ServerScriptService", &none), "ServerScriptService");
    assert_eq!(route_from_word("ReplicatedStorage", &none), "ReplicatedStorage");
    assert_eq!(route_from_word("ReplicatedFirst", &none), "ReplicatedFirst");
    assert_eq!(route_from_word("ServerStorage", &none), "ServerStorage");
    assert_eq!(route_from_word("StarterGui", &none), "StarterGui");
    assert_eq!(route_from_word("StarterPack", &none), "StarterPack");
    assert_eq!(route_from_word("StarterPlayerScripts", &none), "StarterPlayer/StarterPlayerScripts");
    assert_eq!(
        route_from_word("StarterCharacterScripts", &none),
        "StarterPlayer/StarterCharacterScripts"
    );
    assert_eq!(route_from_word("Utils", &none), "");
    assert_eq!(builtin_route_of("Server"), "");
    assert_eq!(builtin_route_of("server"), "ServerScriptService");
}

#[test]
fn aliases_route_words() {
    let aliases = default_aliases();
    assert_eq!(route_from_word("controller", &aliases), "ReplicatedStorage/Client");
    assert_eq!(route_from_word("SERVICE", &aliases), "ServerScriptService");
    assert_eq!(route_from_lowered_word("controller", &aliases), "ReplicatedStorage/Client");
    assert_eq!(route_from_lowered_word("Controller", &aliases), "");
}

#[test]
fn alias_overrides_builtin() {
    let mut aliases = AliasMap::new();
    aliases.insert("server", "ServerStorage");
    assert_eq!(route_from_word("Server", &aliases), "ServerStorage");
}

#[test]
fn alias_insert_replaces_route() {
    let mut aliases = AliasMap::new();
    aliases.insert("Lib", "ReplicatedStorage");
    aliases.insert("Other", "StarterGui");
    aliases.insert("Lib", "ServerStorage");
    assert_eq!(aliases.len(), 2);
    assert_eq!(aliases.key_at(0), "Lib");
    assert_eq!(aliases.route_at(0), "ServerStorage");
    assert_eq!(route_from_word("lib", &aliases), "ServerStorage");
}

#[test]
fn suffix_after_separator() {
    let none = AliasMap::new();
    assert_eq!(get_suffix_route("Main.server", &none), Some(("ServerScriptService".to_string(), 7)));
    assert_eq!(get_suffix_route("Ui-Client", &none), Some(("ReplicatedStorage/Client".to_string(), 7)));
    assert_eq!(get_suffix_route("Lib_shared", &none), Some(("ReplicatedStorage/Shared".to_string(), 7)));
    assert_eq!(get_suffix_route("a.b_Client", &none), Some(("ReplicatedStorage/Client".to_string(), 7)));
}

#[test]
fn suffix_glued() {
    let none = AliasMap::new();
    assert_eq!(get_suffix_route("MainServer", &none), Some(("ServerScriptService".to_string(), 6)));
    assert_eq!(get_suffix_route("HudStarterGui", &none), Some(("StarterGui".to_string(), 10)));
    assert_eq!(get_suffix_route("Server", &none), Some((String::new(), 0)));
    assert_eq!(get_suffix_route("mainserver", &none), Some((String::new(), 0)));
    assert_eq!(get_suffix_route("Plain", &none), Some((String::new(), 0)));
}

#[test]
fn suffix_from_alias_key() {
    let aliases = default_aliases();
    assert_eq!(
        get_suffix_route("InputController", &aliases),
        Some(("ReplicatedStorage/Client".to_string(), 10))
    );
    assert_eq!(get_suffix_route("Data.service", &aliases), Some(("ServerScriptService".to_string(), 8)));
}

#[test]
fn suffix_cut_inside_character_fails() {
    let none = AliasMap::new();
    // The lowercase form of "İ" takes one byte more than "İ" itself, so the
    // separator's position in the lowercase stem lies past the stem's end.
    assert_eq!(get_suffix_route("İİé.x", &none), None);
    assert_eq!(get_suffix_route("İ.server", &none), Some((String::new(), 0)));
}

#[test]
fn suffix_with_given_lowercase() {
    let none = AliasMap::new();
    assert_eq!(
        suffix_route_from_lowered("Main.Server", "main.server", &none),
        Some(("ServerScriptService".to_string(), 7))
    );
    assert_eq!(suffix_route_from_lowered("ab", "a.b", &none), Some((String::new(), 0)));
    assert_eq!(suffix_route_from_lowered("ab", "abc.x", &none), None);
}

#[test]
fn suffix_shape_on_ascii_stems() {
    let none = AliasMap::new();
    // A separator that starts the ending occurs nowhere later in the stem.
    assert_eq!(get_suffix_route("a.server.b-client", &none), Some(("ReplicatedStorage/Client".to_string(), 7)));
    // A found route has a non-empty ending; none found has length 0.
    assert_eq!(get_suffix_route("Notes.txt", &none), Some((String::new(), 0)));
    assert_eq!(get_suffix_route("x_Character", &none), Some(("StarterPlayer/StarterCharacterScripts".to_string(), 10)));
}

#[test]
fn empty_alias_key_routes_with_an_empty_ending() {
    let mut aliases = AliasMap::new();
    aliases.insert("", "Workspace");
    assert_eq!(get_suffix_route("Abc", &aliases), Some(("Workspace".to_string(), 0)));
}
