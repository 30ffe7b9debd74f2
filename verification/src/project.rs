//! The Rojo project document: its tree of tables, the tree that every build
//! starts from, and the placement of one script in it.

use vstd::prelude::*;

use crate::route::texts;
use crate::routing::route_for_word;
use crate::text::lemma_split_on_push_piece;
use crate::text::lemma_split_on_whole;
use crate::text::split_on;
use crate::text::split_text;
use crate::text::str_eq;

verus! {

/// A value of the project tree: a text, or a table of named values.
pub enum ProjectValue {
    Text(String),
    Table(Vec<(String, ProjectValue)>),
}

/// The plain view of a project value.
pub enum Node {
    Text(Seq<char>),
    Table(Seq<(Seq<char>, Node)>),
}

pub open spec fn entry_view(e: (String, ProjectValue)) -> (Seq<char>, Node)
    decreases e, 0nat,
{
    (e.0@, node_view(e.1))
}

pub open spec fn entries_view(es: Seq<(String, ProjectValue)>) -> Seq<(Seq<char>, Node)>
    decreases es, 1nat,
{
    Seq::new(
        es.len(),
        |i: int|
            if 0 <= i < es.len() {
                entry_view(es[i])
            } else {
                (Seq::empty(), Node::Text(Seq::empty()))
            },
    )
}

pub open spec fn node_view(v: ProjectValue) -> Node
    decreases v, 2nat,
{
    match v {
        ProjectValue::Text(s) => Node::Text(s@),
        ProjectValue::Table(es) => Node::Table(entries_view(es@)),
    }
}

/// The project document: the root's fixed fields and its tree.
pub struct Project {
    pub emit_legacy_scripts: bool,
    pub name: String,
    pub tree: Vec<(String, ProjectValue)>,
}

/// The plain view of a project document.
pub struct ProjectView {
    pub emit_legacy_scripts: bool,
    pub name: Seq<char>,
    pub tree: Seq<(Seq<char>, Node)>,
}

impl View for Project {
    type V = ProjectView;

    open spec fn view(&self) -> ProjectView {
        ProjectView {
            emit_legacy_scripts: self.emit_legacy_scripts,
            name: self.name@,
            tree: entries_view(self.tree@),
        }
    }
}

/// Position of the first entry named `k`.
pub open spec fn entry_position(es: Seq<(Seq<char>, Node)>, k: Seq<char>) -> Option<int>
    decreases es.len(),
{
    if es.len() == 0 {
        None
    } else if es[0].0 == k {
        Some(0)
    } else {
        match entry_position(es.drop_first(), k) {
            Some(i) => Some(i + 1),
            None => None,
        }
    }
}

/// The value named `k` in a table.
pub open spec fn table_get(es: Seq<(Seq<char>, Node)>, k: Seq<char>) -> Option<Node> {
    match entry_position(es, k) {
        Some(i) => Some(es[i].1),
        None => None,
    }
}

/// The table with `k` set to `v`: an existing entry keeps its place, a new
/// one goes at the end.
pub open spec fn table_set(es: Seq<(Seq<char>, Node)>, k: Seq<char>, v: Node) -> Seq<
    (Seq<char>, Node),
> {
    match entry_position(es, k) {
        Some(i) => es.update(i, (k, v)),
        None => es.push((k, v)),
    }
}

/// A table that holds only a class name.
pub open spec fn class_node(class: Seq<char>) -> Node {
    Node::Table(seq![("$className"@, Node::Text(class))])
}

/// A table that holds only a file path.
pub open spec fn path_node(path: Seq<char>) -> Node {
    Node::Table(seq![("$path"@, Node::Text(path))])
}

/// Places `leaf` under `name` at the end of the walk `steps` from table
/// `es`. Each step names a key and the class of the table created there when
/// the key is missing; the walk continues into the table found or created.
/// `None` where a step meets a text (indexing into a text fails).
pub open spec fn place(
    es: Seq<(Seq<char>, Node)>,
    steps: Seq<(Seq<char>, Seq<char>)>,
    name: Seq<char>,
    leaf: Node,
) -> Option<Seq<(Seq<char>, Node)>>
    decreases steps.len(),
{
    if steps.len() == 0 {
        Some(table_set(es, name, leaf))
    } else {
        let k = steps[0].0;
        let child = match table_get(es, k) {
            Some(c) => c,
            None => class_node(steps[0].1),
        };
        match child {
            Node::Table(sub) => match place(sub, steps.drop_first(), name, leaf) {
                Some(sub2) => Some(table_set(es, k, Node::Table(sub2))),
                None => None,
            },
            Node::Text(_) => None,
        }
    }
}

/// The class given to a table created for a part of a route.
pub open spec fn class_name_of(part: Seq<char>) -> Seq<char> {
    if part == "Client"@ || part == "Shared"@ {
        "Folder"@
    } else {
        part
    }
}

/// The walk that places a script: each part of the route (split at `/`)
/// with its class, then each folder with class `Folder`.
pub open spec fn insertion_steps(route: Seq<char>, folders: Seq<Seq<char>>) -> Seq<
    (Seq<char>, Seq<char>),
> {
    split_on(route, '/').map_values(|p: Seq<char>| (p, class_name_of(p))) + folders.map_values(
        |f: Seq<char>| (f, "Folder"@),
    )
}

/// The tree after placing a script, `None` where the placement fails.
pub open spec fn inserted_tree(
    tree: Seq<(Seq<char>, Node)>,
    route: Seq<char>,
    folders: Seq<Seq<char>>,
    name: Seq<char>,
    path: Seq<char>,
) -> Option<Seq<(Seq<char>, Node)>> {
    place(tree, insertion_steps(route, folders), name, path_node(path))
}

/// A table with only a class name.
pub open spec fn class_entries(class: Seq<char>) -> Seq<(Seq<char>, Node)> {
    seq![("$className"@, Node::Text(class))]
}

/// The tree that every build starts from.
pub open spec fn initial_tree() -> Seq<(Seq<char>, Node)> {
    seq![
        ("$className"@, Node::Text("DataModel"@)),
        (
            "ReplicatedStorage"@,
            Node::Table(
                seq![
                    ("$className"@, Node::Text("ReplicatedStorage"@)),
                    ("Client"@, class_node("Folder"@)),
                    ("Shared"@, class_node("Folder"@)),
                ],
            ),
        ),
        ("ServerScriptService"@, class_node("ServerScriptService"@)),
        ("ServerStorage"@, class_node("ServerStorage"@)),
        ("ReplicatedFirst"@, class_node("ReplicatedFirst"@)),
        ("StarterGui"@, class_node("StarterGui"@)),
        ("StarterPack"@, class_node("StarterPack"@)),
        (
            "StarterPlayer"@,
            Node::Table(
                seq![
                    ("$className"@, Node::Text("StarterPlayer"@)),
                    ("StarterPlayerScripts"@, class_node("StarterPlayerScripts"@)),
                    ("StarterCharacterScripts"@, class_node("StarterCharacterScripts"@)),
                ],
            ),
        ),
    ]
}

/// The project document that every build starts from.
pub open spec fn initial_project() -> ProjectView {
    ProjectView {
        emit_legacy_scripts: false,
        name: "roflow-project"@,
        tree: initial_tree(),
    }
}

pub proof fn lemma_entry_position(es: Seq<(Seq<char>, Node)>, k: Seq<char>)
    ensures
        entry_position(es, k) matches Some(i) ==> 0 <= i < es.len() && es[i].0 == k && forall|j: int|
            0 <= j < i ==> es[j].0 != k,
        entry_position(es, k) is None ==> forall|j: int| 0 <= j < es.len() ==> es[j].0 != k,
    decreases es.len(),
{
    if es.len() > 0 {
        let rest = es.drop_first();
        lemma_entry_position(rest, k);
        assert forall|j: int| 0 <= j < rest.len() implies rest[j] == es[j + 1] by {}
        assert forall|j: int| 1 <= j < es.len() implies es[j] == rest[j - 1] by {}
    }
}

proof fn lemma_entries_view_update(es: Seq<(String, ProjectValue)>, j: int, e: (String, ProjectValue))
    requires
        0 <= j < es.len(),
    ensures
        entries_view(es.update(j, e)) =~= entries_view(es).update(j, entry_view(e)),
{
}

proof fn lemma_entries_view_push(es: Seq<(String, ProjectValue)>, e: (String, ProjectValue))
    ensures
        entries_view(es.push(e)) =~= entries_view(es).push(entry_view(e)),
{
}

/// Position of the first entry named `key`.
fn find_entry(entries: &Vec<(String, ProjectValue)>, key: &str) -> (r: Option<usize>)
    ensures
        r matches Some(j) ==> entry_position(entries_view(entries@), key@) == Some(j as int),
        r is None ==> entry_position(entries_view(entries@), key@) is None,
{
    let ghost ev = entries_view(entries@);
    proof {
        lemma_entry_position(ev, key@);
    }
    let mut j: usize = 0;
    while j < entries.len()
        invariant
            ev == entries_view(entries@),
            ev.len() == entries@.len(),
            j <= entries@.len(),
            forall|i: int| 0 <= i < j ==> ev[i].0 != key@,
            entry_position(ev, key@) matches Some(p) ==> 0 <= p < ev.len() && ev[p].0 == key@
                && forall|q: int| 0 <= q < p ==> ev[q].0 != key@,
            entry_position(ev, key@) is None ==> forall|q: int| 0 <= q < ev.len() ==> ev[q].0 != key@,
        decreases entries.len() - j,
    {
        assert(ev[j as int].0 == entries@[j as int].0@);
        if str_eq(entries[j].0.as_str(), key) {
            return Some(j);
        }
        j = j + 1;
    }
    None
}

/// Sets `key` to `value` in a table.
fn set_entry(entries: &mut Vec<(String, ProjectValue)>, key: &str, value: ProjectValue)
    ensures
        entries_view(final(entries)@) == table_set(entries_view(old(entries)@), key@, node_view(value)),
{
    proof {
        lemma_entry_position(entries_view(entries@), key@);
    }
    match find_entry(entries, key) {
        Some(j) => {
            let ghost before = entries@;
            let entry = (key.to_owned(), value);
            entries.set(j, entry);
            proof {
                lemma_entries_view_update(before, j as int, entry);
            }
        },
        None => {
            let ghost before = entries@;
            let entry = (key.to_owned(), value);
            entries.push(entry);
            proof {
                lemma_entries_view_push(before, entry);
            }
        },
    }
}

/// A table holding only the class name `class`.
fn class_table(class: &str) -> (v: Vec<(String, ProjectValue)>)
    ensures
        entries_view(v@) == class_entries(class@),
{
    let v = vec![("$className".to_owned(), ProjectValue::Text(class.to_owned()))];
    assert(entries_view(v@) =~= class_entries(class@));
    v
}

/// The plain view of a walk.
pub open spec fn steps_view(steps: Seq<(String, String)>) -> Seq<(Seq<char>, Seq<char>)> {
    steps.map_values(|s: (String, String)| (s.0@, s.1@))
}

/// Can the walk from step `idx` on be made from this table?
fn placement_possible(entries: &Vec<(String, ProjectValue)>, steps: &Vec<(String, String)>, idx: usize) -> (r:
    bool)
    requires
        idx <= steps@.len(),
    ensures
        r == (place(
            entries_view(entries@),
            steps_view(steps@).skip(idx as int),
            Seq::empty(),
            Node::Text(Seq::empty()),
        ) is Some),
    decreases steps@.len() - idx,
{
    let ghost sv = steps_view(steps@).skip(idx as int);
    if idx == steps.len() {
        return true;
    }
    assert(sv.drop_first() =~= steps_view(steps@).skip(idx + 1));
    assert(sv[0] == (steps@[idx as int].0@, steps@[idx as int].1@));
    match find_entry(entries, steps[idx].0.as_str()) {
        Some(j) => {
            proof {
                lemma_entry_position(entries_view(entries@), steps@[idx as int].0@);
            }
            match &entries[j].1 {
                ProjectValue::Table(sub) => placement_possible(sub, steps, idx + 1),
                ProjectValue::Text(_) => false,
            }
        },
        None => {
            let fresh = class_table(steps[idx].1.as_str());
            placement_possible(&fresh, steps, idx + 1)
        },
    }
}

/// Whether a walk can be made does not depend on what is placed at its end.
proof fn lemma_place_defined_any_leaf(
    es: Seq<(Seq<char>, Node)>,
    steps: Seq<(Seq<char>, Seq<char>)>,
    name: Seq<char>,
    leaf: Node,
)
    ensures
        (place(es, steps, name, leaf) is Some) == (place(
            es,
            steps,
            Seq::empty(),
            Node::Text(Seq::empty()),
        ) is Some),
    decreases steps.len(),
{
    if steps.len() > 0 {
        let child = match table_get(es, steps[0].0) {
            Some(c) => c,
            None => class_node(steps[0].1),
        };
        match child {
            Node::Table(sub) => lemma_place_defined_any_leaf(sub, steps.drop_first(), name, leaf),
            Node::Text(_) => {},
        }
    }
}

/// Makes the walk from step `idx` on and places a path table at its end.
fn place_entries(
    entries: &mut Vec<(String, ProjectValue)>,
    steps: &Vec<(String, String)>,
    idx: usize,
    name: &str,
    path: &str,
)
    requires
        idx <= steps@.len(),
        place(entries_view(old(entries)@), steps_view(steps@).skip(idx as int), name@, path_node(path@))
            is Some,
    ensures
        Some(entries_view(final(entries)@)) == place(
            entries_view(old(entries)@),
            steps_view(steps@).skip(idx as int),
            name@,
            path_node(path@),
        ),
    decreases steps@.len() - idx,
{
    let ghost sv = steps_view(steps@).skip(idx as int);
    let ghost before = entries@;
    if idx == steps.len() {
        let leaf = vec![("$path".to_owned(), ProjectValue::Text(path.to_owned()))];
        assert(entries_view(leaf@) =~= seq![("$path"@, Node::Text(path@))]);
        set_entry(entries, name, ProjectValue::Table(leaf));
        return;
    }
    assert(sv.drop_first() =~= steps_view(steps@).skip(idx + 1));
    assert(sv[0] == (steps@[idx as int].0@, steps@[idx as int].1@));
    proof {
        lemma_entry_position(entries_view(entries@), steps@[idx as int].0@);
    }
    match find_entry(entries, steps[idx].0.as_str()) {
        Some(j) => {
            let (key, child) = entries.remove(j);
            assert(before[j as int] == (key, child));
            match child {
                ProjectValue::Table(mut sub) => {
                    place_entries(&mut sub, steps, idx + 1, name, path);
                    let entry = (key, ProjectValue::Table(sub));
                    entries.insert(j, entry);
                    assert(entries@ =~= before.update(j as int, entry));
                    proof {
                        lemma_entries_view_update(before, j as int, entry);
                    }
                },
                ProjectValue::Text(t) => {
                    assert(false);
                    entries.insert(j, (key, ProjectValue::Text(t)));
                },
            }
        },
        None => {
            let mut sub = class_table(steps[idx].1.as_str());
            place_entries(&mut sub, steps, idx + 1, name, path);
            let entry = (steps[idx].0.clone(), ProjectValue::Table(sub));
            entries.push(entry);
            proof {
                lemma_entries_view_push(before, entry);
            }
        },
    }
}

/// The class of the table created for a part of a route: `Folder` for
/// `Client` and `Shared`, the part itself otherwise.
pub fn get_class_name(part: &str) -> (r: &str)
    ensures
        r@ == class_name_of(part@),
{
    if str_eq(part, "Client") || str_eq(part, "Shared") {
        "Folder"
    } else {
        part
    }
}

/// The walk that places a script under `route` and `folders`.
fn build_steps(route: &str, folders: &Vec<String>) -> (steps: Vec<(String, String)>)
    ensures
        steps_view(steps@) == insertion_steps(route@, texts(folders@)),
{
    let parts = split_text(route, '/');
    let ghost pv = parts@.map_values(|p: String| p@);
    let ghost target = insertion_steps(route@, texts(folders@));
    let ghost n = pv.len();
    let mut steps: Vec<(String, String)> = Vec::new();
    let mut i: usize = 0;
    while i < parts.len()
        invariant
            pv == parts@.map_values(|p: String| p@),
            pv == split_on(route@, '/'),
            target == insertion_steps(route@, texts(folders@)),
            n == pv.len(),
            i <= n,
            steps_view(steps@) == target.take(i as int),
        decreases parts.len() - i,
    {
        let part = parts[i].as_str();
        let class = get_class_name(part).to_owned();
        let ghost before = steps@;
        let entry = (parts[i].clone(), class);
        steps.push(entry);
        assert(pv[i as int] == parts@[i as int]@);
        assert(target[i as int] == (pv[i as int], class_name_of(pv[i as int])));
        assert(steps_view(steps@) =~= steps_view(before).push((entry.0@, entry.1@)));
        assert(steps_view(steps@) =~= target.take(i + 1));
        i = i + 1;
    }
    let mut f: usize = 0;
    while f < folders.len()
        invariant
            target == insertion_steps(route@, texts(folders@)),
            n == split_on(route@, '/').len(),
            f <= folders@.len(),
            target.len() == n + folders@.len(),
            steps_view(steps@) == target.take(n + f),
        decreases folders.len() - f,
    {
        let ghost before = steps@;
        let entry = (folders[f].clone(), "Folder".to_owned());
        steps.push(entry);
        assert(target[n + f] == (folders@[f as int]@, "Folder"@));
        assert(steps_view(steps@) =~= steps_view(before).push((entry.0@, entry.1@)));
        assert(steps_view(steps@) =~= target.take(n + f + 1));
        f = f + 1;
    }
    assert(target.take(n + f) =~= target);
    steps
}

/// Can a script be placed under `route` and `folders` (whatever its name and
/// path)? It cannot where a part of the walk names a text of the tree (such
/// as `$className`).
pub fn can_insert_file(project: &Project, route: &str, folders: &Vec<String>) -> (r: bool)
    ensures
        forall|name: Seq<char>, path: Seq<char>|
            (#[trigger] inserted_tree(project@.tree, route@, texts(folders@), name, path) is Some)
                == r,
{
    let steps = build_steps(route, folders);
    let r = placement_possible(&project.tree, &steps, 0);
    assert(steps_view(steps@).skip(0) =~= steps_view(steps@));
    proof {
        assert forall|name: Seq<char>, path: Seq<char>|
            #[trigger] inserted_tree(project@.tree, route@, texts(folders@), name, path) is Some
                == r by {
            lemma_place_defined_any_leaf(
                project@.tree,
                insertion_steps(route@, texts(folders@)),
                name,
                path_node(path),
            );
        }
    }
    r
}

/// Places a script in the project tree: walks (creating missing tables) the
/// parts of `route` split at `/`, whose tables get the part as class name
/// (`Folder` for `Client` and `Shared`), then `folders`, whose tables get
/// class `Folder`, and sets `name` to a table holding `$path`.
pub fn insert_file(project: &mut Project, route: &str, folders: &Vec<String>, name: &str, path: &str)
    requires
        inserted_tree(old(project)@.tree, route@, texts(folders@), name@, path@) is Some,
    ensures
        Some(final(project)@.tree) == inserted_tree(
            old(project)@.tree,
            route@,
            texts(folders@),
            name@,
            path@,
        ),
        final(project)@.emit_legacy_scripts == old(project)@.emit_legacy_scripts,
        final(project)@.name == old(project)@.name,
{
    let steps = build_steps(route, folders);
    assert(steps_view(steps@).skip(0) =~= steps_view(steps@));
    place_entries(&mut project.tree, &steps, 0, name, path);
}

/// A table holding only the class name `class`, as a value.
fn class_value(class: &str) -> (v: ProjectValue)
    ensures
        node_view(v) == class_node(class@),
{
    let t = class_table(class);
    ProjectValue::Table(t)
}

/// The project document that every build starts from: a `DataModel` tree
/// with `ReplicatedStorage` (holding the `Client` and `Shared` folders),
/// `ServerScriptService`, `ServerStorage`, `ReplicatedFirst`, `StarterGui`,
/// `StarterPack` and `StarterPlayer` (holding `StarterPlayerScripts` and
/// `StarterCharacterScripts`).
pub fn create_project() -> (p: Project)
    ensures
        p@ == initial_project(),
{
    let mut storage: Vec<(String, ProjectValue)> = Vec::new();
    storage.push(("$className".to_owned(), ProjectValue::Text("ReplicatedStorage".to_owned())));
    storage.push(("Client".to_owned(), class_value("Folder")));
    storage.push(("Shared".to_owned(), class_value("Folder")));
    let mut player: Vec<(String, ProjectValue)> = Vec::new();
    player.push(("$className".to_owned(), ProjectValue::Text("StarterPlayer".to_owned())));
    player.push(("StarterPlayerScripts".to_owned(), class_value("StarterPlayerScripts")));
    player.push(("StarterCharacterScripts".to_owned(), class_value("StarterCharacterScripts")));
    let mut tree: Vec<(String, ProjectValue)> = Vec::new();
    tree.push(("$className".to_owned(), ProjectValue::Text("DataModel".to_owned())));
    tree.push(("ReplicatedStorage".to_owned(), ProjectValue::Table(storage)));
    tree.push(("ServerScriptService".to_owned(), class_value("ServerScriptService")));
    tree.push(("ServerStorage".to_owned(), class_value("ServerStorage")));
    tree.push(("ReplicatedFirst".to_owned(), class_value("ReplicatedFirst")));
    tree.push(("StarterGui".to_owned(), class_value("StarterGui")));
    tree.push(("StarterPack".to_owned(), class_value("StarterPack")));
    tree.push(("StarterPlayer".to_owned(), ProjectValue::Table(player)));
    let p = Project { emit_legacy_scripts: false, name: "roflow-project".to_owned(), tree };
    assert(entries_view(storage@) =~= initial_tree()[1].1->Table_0);
    assert(entries_view(player@) =~= initial_tree()[7].1->Table_0);
    assert(entries_view(tree@) =~= initial_tree());
    p
}

/// The text that `serde_json::to_string_pretty` makes of a project document
/// as a JSON object (`emitLegacyScripts`, `name`, `tree`, each table an
/// object); `None` where it reports an error.
pub uninterp spec fn pretty_project_json(p: ProjectView) -> Option<Seq<char>>;

/// A project value as a `serde_json::Value`: a text as a string, a table as
/// an object of its entries. Used by `project_json_text` alone.
#[verifier::external_body]
fn value_json(v: &ProjectValue) -> serde_json::Value {
    match v {
        ProjectValue::Text(t) => serde_json::Value::String(t.clone()),
        ProjectValue::Table(es) => table_json(es),
    }
}

/// A table as a `serde_json::Value` object. Used by `project_json_text`
/// alone.
#[verifier::external_body]
fn table_json(es: &Vec<(String, ProjectValue)>) -> serde_json::Value {
    serde_json::Value::Object(es.iter().map(|(k, v)| (k.clone(), value_json(v))).collect())
}

/// Calls `serde_json::to_string_pretty` on the project document as a JSON
/// object with the members `emitLegacyScripts`, `name` and `tree`. Trusted:
/// the result is the named text of the document (the same document gives the
/// same text), `None` where serde_json reports an error. The text itself is
/// not stated.
#[verifier::external_body]
pub(crate) fn project_json_text(p: &Project) -> (r: Option<String>)
    ensures
        r matches Some(t) ==> pretty_project_json(p@) == Some(t@),
        r is None ==> pretty_project_json(p@) is None,
{
    let mut root = serde_json::Map::new();
    root.insert("emitLegacyScripts".to_owned(), serde_json::Value::Bool(p.emit_legacy_scripts));
    root.insert("name".to_owned(), serde_json::Value::String(p.name.clone()));
    root.insert("tree".to_owned(), table_json(&p.tree));
    serde_json::to_string_pretty(&serde_json::Value::Object(root)).ok()
}

/// The value reached by following `keys` from table `es`, each key but the
/// last naming a table.
pub open spec fn read_path(es: Seq<(Seq<char>, Node)>, keys: Seq<Seq<char>>) -> Option<Node>
    decreases keys.len(),
{
    if keys.len() == 0 {
        None
    } else if keys.len() == 1 {
        table_get(es, keys[0])
    } else {
        match table_get(es, keys[0]) {
            Some(Node::Table(sub)) => read_path(sub, keys.drop_first()),
            _ => None,
        }
    }
}

/// The keys of a walk.
pub open spec fn step_keys(steps: Seq<(Seq<char>, Seq<char>)>) -> Seq<Seq<char>> {
    steps.map_values(|s: (Seq<char>, Seq<char>)| s.0)
}

/// No key occurs twice in a table.
pub open spec fn keys_unique(es: Seq<(Seq<char>, Node)>) -> bool {
    forall|i: int, j: int| 0 <= i < j < es.len() ==> es[i].0 != es[j].0
}

/// No key occurs twice in any table of a tree.
pub open spec fn node_wf(n: Node) -> bool
    decreases n,
{
    match n {
        Node::Text(_) => true,
        Node::Table(es) => keys_unique(es) && table_wf(es),
    }
}

/// Every value of a table is well formed.
pub open spec fn table_wf(es: Seq<(Seq<char>, Node)>) -> bool
    decreases es,
{
    if es.len() == 0 {
        true
    } else {
        node_wf(es.last().1) && table_wf(es.drop_last())
    }
}

pub proof fn lemma_table_wf(es: Seq<(Seq<char>, Node)>)
    ensures
        table_wf(es) <==> forall|i: int| 0 <= i < es.len() ==> #[trigger] node_wf(es[i].1),
    decreases es.len(),
{
    if es.len() > 0 {
        lemma_table_wf(es.drop_last());
        assert(table_wf(es) == (node_wf(es.last().1) && table_wf(es.drop_last())));
        assert(es.last() == es[es.len() - 1]);
        assert forall|i: int| 0 <= i < es.len() - 1 implies es.drop_last()[i] == es[i] by {}
    }
}

/// The first entry named `k` is where `entry_position` points.
pub proof fn lemma_entry_position_at(es: Seq<(Seq<char>, Node)>, k: Seq<char>, p: int)
    requires
        0 <= p < es.len(),
        es[p].0 == k,
        forall|q: int| 0 <= q < p ==> es[q].0 != k,
    ensures
        entry_position(es, k) == Some(p),
{
    lemma_entry_position(es, k);
    match entry_position(es, k) {
        Some(i) => {
            if i < p {
                assert(es[i].0 != k);
            } else if i > p {
                assert(es[p].0 != k);
            }
        },
        None => {
            assert(es[p].0 != k);
        },
    }
}

/// Reading a key just set gives the value set.
pub proof fn lemma_get_after_set(es: Seq<(Seq<char>, Node)>, k: Seq<char>, v: Node)
    ensures
        table_get(table_set(es, k, v), k) == Some(v),
{
    lemma_entry_position(es, k);
    let t = table_set(es, k, v);
    match entry_position(es, k) {
        Some(i) => {
            assert forall|q: int| 0 <= q < i implies t[q].0 != k by {
                assert(t[q] == es[q]);
            }
            lemma_entry_position_at(t, k, i);
        },
        None => {
            let n = es.len() as int;
            assert forall|q: int| 0 <= q < n implies t[q].0 != k by {
                assert(t[q] == es[q]);
            }
            lemma_entry_position_at(t, k, n);
        },
    }
}

/// Setting a key leaves every other key as it was.
pub proof fn lemma_get_other_after_set(es: Seq<(Seq<char>, Node)>, k: Seq<char>, v: Node, k2: Seq<char>)
    requires
        k2 != k,
    ensures
        table_get(table_set(es, k, v), k2) == table_get(es, k2),
{
    lemma_entry_position(es, k);
    lemma_entry_position(es, k2);
    let t = table_set(es, k, v);
    lemma_entry_position(t, k2);
    assert forall|q: int| 0 <= q < es.len() implies t[q].0 == es[q].0 && (t[q].0 == k2 ==> t[q]
        == es[q]) by {
        if entry_position(es, k) == Some(q) {
            assert(es[q].0 == k);
        }
    }
    match entry_position(es, k2) {
        Some(i) => {
            assert forall|q: int| 0 <= q < i implies t[q].0 != k2 by {}
            lemma_entry_position_at(t, k2, i);
        },
        None => {
            if let Some(i) = entry_position(t, k2) {
                if i < es.len() {
                    assert(es[i].0 == k2);
                } else {
                    assert(t[i].0 == k);
                }
            }
        },
    }
}

/// Setting a key to the value it holds changes nothing.
pub proof fn lemma_set_same(es: Seq<(Seq<char>, Node)>, k: Seq<char>, v: Node)
    requires
        table_get(es, k) == Some(v),
    ensures
        table_set(es, k, v) == es,
{
    lemma_entry_position(es, k);
    let i = entry_position(es, k)->0;
    assert(es.update(i, (k, v)) =~= es);
}

/// Setting a key keeps keys unique, and keeps every table well formed when
/// the new value is.
pub proof fn lemma_set_wf(es: Seq<(Seq<char>, Node)>, k: Seq<char>, v: Node)
    requires
        node_wf(Node::Table(es)),
        node_wf(v),
    ensures
        node_wf(Node::Table(table_set(es, k, v))),
{
    lemma_entry_position(es, k);
    let t = table_set(es, k, v);
    lemma_table_wf(es);
    lemma_table_wf(t);
    assert forall|i: int| 0 <= i < t.len() implies #[trigger] node_wf(t[i].1) by {
        if t[i] == (k, v) {
        } else {
            assert(t[i] == es[i]);
            assert(node_wf(es[i].1));
        }
    }
    assert forall|i: int, j: int| 0 <= i < j < t.len() implies t[i].0 != t[j].0 by {
        if j < es.len() {
            assert(t[i].0 == es[i].0);
            assert(t[j].0 == es[j].0);
        }
    }
}

/// A placement can be read back along its walk: what the walk's keys and
/// the name lead to is the placed value.
pub proof fn lemma_place_then_read(
    es: Seq<(Seq<char>, Node)>,
    steps: Seq<(Seq<char>, Seq<char>)>,
    name: Seq<char>,
    leaf: Node,
)
    requires
        place(es, steps, name, leaf) is Some,
    ensures
        read_path(place(es, steps, name, leaf)->0, step_keys(steps).push(name)) == Some(leaf),
    decreases steps.len(),
{
    let keys = step_keys(steps).push(name);
    if steps.len() == 0 {
        lemma_get_after_set(es, name, leaf);
    } else {
        let k = steps[0].0;
        let child = match table_get(es, k) {
            Some(c) => c,
            None => class_node(steps[0].1),
        };
        if let Node::Table(sub) = child {
            lemma_place_then_read(sub, steps.drop_first(), name, leaf);
            let sub2 = place(sub, steps.drop_first(), name, leaf)->0;
            lemma_get_after_set(es, k, Node::Table(sub2));
            assert(keys.drop_first() =~= step_keys(steps.drop_first()).push(name));
        }
    }
}

/// A table that a placement creates on its walk keeps the class of its
/// step, unless the name placed in it is `$className` itself.
pub proof fn lemma_place_creates_classes(
    es: Seq<(Seq<char>, Node)>,
    steps: Seq<(Seq<char>, Seq<char>)>,
    name: Seq<char>,
    leaf: Node,
)
    requires
        place(es, steps, name, leaf) is Some,
    ensures
        forall|j: int|
            0 <= j < steps.len() && read_path(es, step_keys(steps).take(j + 1)) is None && (j + 1
                < steps.len() || name != "$className"@) ==> #[trigger] read_path(
                place(es, steps, name, leaf)->0,
                step_keys(steps).take(j + 1).push("$className"@),
            ) == Some(Node::Text(steps[j].1)),
    decreases steps.len(),
{
    if steps.len() > 0 {
        let k = steps[0].0;
        let rest = steps.drop_first();
        let keys = step_keys(steps);
        let rkeys = step_keys(rest);
        let child = match table_get(es, k) {
            Some(c) => c,
            None => class_node(steps[0].1),
        };
        let sub = child->Table_0;
        let sub2 = place(sub, rest, name, leaf)->0;
        let new = place(es, steps, name, leaf)->0;
        lemma_place_creates_classes(sub, rest, name, leaf);
        lemma_get_after_set(es, k, Node::Table(sub2));
        assert(table_get(new, k) == Some(Node::Table(sub2)));
        assert forall|j: int|
            0 <= j < steps.len() && read_path(es, keys.take(j + 1)) is None && (j + 1 < steps.len()
                || name != "$className"@) implies #[trigger] read_path(
            new,
            keys.take(j + 1).push("$className"@),
        ) == Some(Node::Text(steps[j].1)) by {
            let path = keys.take(j + 1).push("$className"@);
            assert(path[0] == k);
            assert(path.drop_first() =~= rkeys.take(j).push("$className"@));
            assert(read_path(new, path) == read_path(sub2, rkeys.take(j).push("$className"@)));
            if j == 0 {
                assert(keys.take(1) =~= seq![k]);
                assert(table_get(es, k) is None);
                lemma_entry_position_at(class_entries(steps[0].1), "$className"@, 0);
                if rest.len() > 0 {
                    assert(rest[0].0 != "$className"@);
                }
                lemma_place_keeps_others(sub, rest, name, leaf, "$className"@);
                assert(rkeys.take(0).push("$className"@) =~= seq!["$className"@]);
                assert(table_get(sub, "$className"@) == Some(Node::Text(steps[0].1)));
                assert(table_get(sub2, "$className"@) == Some(Node::Text(steps[0].1)));
            } else {
                assert(keys.take(j + 1)[0] == k);
                assert(keys.take(j + 1).drop_first() =~= rkeys.take(j));
                assert(rkeys.take(j)[0] == rest[0].0);
                if table_get(es, k) is None {
                    lemma_entry_position(class_entries(steps[0].1), rest[0].0);
                    assert(read_path(sub, rkeys.take(j)) is None);
                }
                let i = j - 1;
                assert(rkeys.take(j) == rkeys.take(i + 1));
                assert(read_path(sub, rkeys.take(i + 1)) is None);
                assert(0 <= i < rest.len());
                assert(read_path(sub2, rkeys.take(i + 1).push("$className"@)) == Some(
                    Node::Text(rest[i].1),
                ));
                assert(rest[i] == steps[j]);
            }
        }
    }
}

/// `keys` leaves the walk `walk` at position `j`: it agrees with the walk
/// before `j` and differs from it at `j`.
pub open spec fn leaves_walk_at(keys: Seq<Seq<char>>, walk: Seq<Seq<char>>, j: int) -> bool {
    &&& 0 <= j < keys.len()
    &&& j < walk.len()
    &&& keys.take(j) == walk.take(j)
    &&& keys[j] != walk[j]
}

/// Reading along keys in two tables that hold the same value under the
/// first key gives the same result.
proof fn lemma_read_same_head(a: Seq<(Seq<char>, Node)>, b: Seq<(Seq<char>, Node)>, keys: Seq<Seq<char>>)
    requires
        keys.len() > 0,
        table_get(a, keys[0]) == table_get(b, keys[0]),
    ensures
        read_path(a, keys) == read_path(b, keys),
{
}

/// A placement leaves every value off its walk as it was, at any depth: a
/// path of keys that leaves the walk (its keys, then the name) inside a
/// table that existed before reads the same before and after.
pub proof fn lemma_place_keeps_off_walk(
    es: Seq<(Seq<char>, Node)>,
    steps: Seq<(Seq<char>, Seq<char>)>,
    name: Seq<char>,
    leaf: Node,
    keys: Seq<Seq<char>>,
    j: int,
)
    requires
        place(es, steps, name, leaf) is Some,
        leaves_walk_at(keys, step_keys(steps).push(name), j),
        j == 0 || read_path(es, keys.take(j)) is Some,
    ensures
        read_path(place(es, steps, name, leaf)->0, keys) == read_path(es, keys),
    decreases steps.len(),
{
    let walk = step_keys(steps).push(name);
    let new = place(es, steps, name, leaf)->0;
    if j == 0 {
        lemma_place_keeps_others(es, steps, name, leaf, keys[0]);
        lemma_read_same_head(new, es, keys);
    } else {
        assert(steps.len() > 0);
        let k = steps[0].0;
        let rest = steps.drop_first();
        assert(keys.take(j)[0] == walk.take(j)[0]);
        assert(keys[0] == k);
        let child = match table_get(es, k) {
            Some(c) => c,
            None => class_node(steps[0].1),
        };
        let sub = child->Table_0;
        let sub2 = place(sub, rest, name, leaf)->0;
        lemma_get_after_set(es, k, Node::Table(sub2));
        if j == 1 {
            assert(keys.take(1) =~= seq![k]);
        } else {
            assert(keys.take(j).drop_first() =~= keys.drop_first().take(j - 1));
        }
        assert(table_get(es, k) == Some(child));
        let walk2 = step_keys(rest).push(name);
        assert(walk.drop_first() =~= walk2);
        assert(keys.drop_first().take(j - 1) =~= keys.take(j).drop_first());
        assert(walk2.take(j - 1) =~= walk.take(j).drop_first());
        assert(keys.drop_first()[j - 1] == keys[j]);
        assert(walk2[j - 1] == walk[j]);
        if j - 1 > 0 {
            assert(read_path(sub, keys.drop_first().take(j - 1)) == read_path(es, keys.take(j)));
        }
        lemma_place_keeps_off_walk(sub, rest, name, leaf, keys.drop_first(), j - 1);
        assert(keys.len() > 1);
    }
}

/// A placement leaves every entry of the table other than the one that its
/// walk (or, for an empty walk, the name) goes through as it was.
pub proof fn lemma_place_keeps_others(
    es: Seq<(Seq<char>, Node)>,
    steps: Seq<(Seq<char>, Seq<char>)>,
    name: Seq<char>,
    leaf: Node,
    other: Seq<char>,
)
    requires
        place(es, steps, name, leaf) is Some,
        other != (if steps.len() == 0 {
            name
        } else {
            steps[0].0
        }),
    ensures
        table_get(place(es, steps, name, leaf)->0, other) == table_get(es, other),
{
    if steps.len() == 0 {
        lemma_get_other_after_set(es, name, leaf, other);
    } else {
        let k = steps[0].0;
        let child = match table_get(es, k) {
            Some(c) => c,
            None => class_node(steps[0].1),
        };
        if let Node::Table(sub) = child {
            let sub2 = place(sub, steps.drop_first(), name, leaf)->0;
            lemma_get_other_after_set(es, k, Node::Table(sub2), other);
        }
    }
}

/// A placement keeps every table's keys unique.
pub proof fn lemma_place_wf(
    es: Seq<(Seq<char>, Node)>,
    steps: Seq<(Seq<char>, Seq<char>)>,
    name: Seq<char>,
    leaf: Node,
)
    requires
        place(es, steps, name, leaf) is Some,
        node_wf(Node::Table(es)),
        node_wf(leaf),
    ensures
        node_wf(Node::Table(place(es, steps, name, leaf)->0)),
    decreases steps.len(),
{
    if steps.len() == 0 {
        lemma_set_wf(es, name, leaf);
    } else {
        let k = steps[0].0;
        lemma_entry_position(es, k);
        let child = match table_get(es, k) {
            Some(c) => c,
            None => class_node(steps[0].1),
        };
        if table_get(es, k) is Some {
            let i = entry_position(es, k)->0;
            lemma_table_wf(es);
            assert(node_wf(es[i].1));
        } else {
            lemma_class_node_wf(steps[0].1);
        }
        if let Node::Table(sub) = child {
            lemma_place_wf(sub, steps.drop_first(), name, leaf);
            let sub2 = place(sub, steps.drop_first(), name, leaf)->0;
            lemma_set_wf(es, k, Node::Table(sub2));
        }
    }
}

/// Making the same placement again changes nothing.
pub proof fn lemma_place_idempotent(
    es: Seq<(Seq<char>, Node)>,
    steps: Seq<(Seq<char>, Seq<char>)>,
    name: Seq<char>,
    leaf: Node,
)
    requires
        place(es, steps, name, leaf) is Some,
    ensures
        place(place(es, steps, name, leaf)->0, steps, name, leaf) == place(es, steps, name, leaf),
    decreases steps.len(),
{
    let es2 = place(es, steps, name, leaf)->0;
    if steps.len() == 0 {
        lemma_get_after_set(es, name, leaf);
        lemma_set_same(es2, name, leaf);
    } else {
        let k = steps[0].0;
        let child = match table_get(es, k) {
            Some(c) => c,
            None => class_node(steps[0].1),
        };
        if let Node::Table(sub) = child {
            lemma_place_idempotent(sub, steps.drop_first(), name, leaf);
            let sub2 = place(sub, steps.drop_first(), name, leaf)->0;
            lemma_get_after_set(es, k, Node::Table(sub2));
            lemma_set_same(es2, k, Node::Table(sub2));
        }
    }
}

/// After `insert_file`, following the route's parts, the folders and the
/// name through the tree leads to the table holding the script's path.
pub proof fn lemma_insert_then_read(
    tree: Seq<(Seq<char>, Node)>,
    route: Seq<char>,
    folders: Seq<Seq<char>>,
    name: Seq<char>,
    path: Seq<char>,
)
    requires
        inserted_tree(tree, route, folders, name, path) is Some,
    ensures
        read_path(
            inserted_tree(tree, route, folders, name, path)->0,
            split_on(route, '/') + folders + seq![name],
        ) == Some(path_node(path)),
{
    let steps = insertion_steps(route, folders);
    lemma_place_then_read(tree, steps, name, path_node(path));
    assert(step_keys(steps).push(name) =~= split_on(route, '/') + folders + seq![name]);
}

/// Each table that inserting a script creates on its walk (where the old
/// tree had nothing) holds the class of its step: `get_class_name` of the
/// route's part, or `Folder` for a folder; unless the script's name is
/// `$className` and the table is the last one.
pub proof fn lemma_insert_creates_classes(
    tree: Seq<(Seq<char>, Node)>,
    route: Seq<char>,
    folders: Seq<Seq<char>>,
    name: Seq<char>,
    path: Seq<char>,
)
    requires
        inserted_tree(tree, route, folders, name, path) is Some,
    ensures
        ({
            let parts = split_on(route, '/');
            let keys = parts + folders;
            forall|j: int|
                0 <= j < keys.len() && read_path(tree, keys.take(j + 1)) is None && (j + 1
                    < keys.len() || name != "$className"@) ==> #[trigger] read_path(
                    inserted_tree(tree, route, folders, name, path)->0,
                    keys.take(j + 1).push("$className"@),
                ) == Some(
                    Node::Text(
                        if j < parts.len() {
                            class_name_of(parts[j])
                        } else {
                            "Folder"@
                        },
                    ),
                )
        }),
{
    let steps = insertion_steps(route, folders);
    let parts = split_on(route, '/');
    assert(step_keys(steps) =~= parts + folders);
    lemma_place_creates_classes(tree, steps, name, path_node(path));
    assert forall|j: int| 0 <= j < steps.len() implies steps[j].1 == if j < parts.len() {
        class_name_of(parts[j])
    } else {
        "Folder"@
    } by {}
}

/// Inserting a script leaves every value off its walk as it was, at any
/// depth: a path that leaves the route's parts, the folders and the name
/// inside a table that existed before reads the same before and after.
pub proof fn lemma_insert_keeps_off_walk(
    tree: Seq<(Seq<char>, Node)>,
    route: Seq<char>,
    folders: Seq<Seq<char>>,
    name: Seq<char>,
    path: Seq<char>,
    keys: Seq<Seq<char>>,
    j: int,
)
    requires
        inserted_tree(tree, route, folders, name, path) is Some,
        leaves_walk_at(keys, split_on(route, '/') + folders + seq![name], j),
        j == 0 || read_path(tree, keys.take(j)) is Some,
    ensures
        read_path(inserted_tree(tree, route, folders, name, path)->0, keys) == read_path(tree, keys),
{
    let steps = insertion_steps(route, folders);
    assert(step_keys(steps).push(name) =~= split_on(route, '/') + folders + seq![name]);
    lemma_place_keeps_off_walk(tree, steps, name, path_node(path), keys, j);
}

/// Inserting the same script twice leaves the tree as one insertion does.
pub proof fn lemma_insert_twice(
    tree: Seq<(Seq<char>, Node)>,
    route: Seq<char>,
    folders: Seq<Seq<char>>,
    name: Seq<char>,
    path: Seq<char>,
)
    requires
        inserted_tree(tree, route, folders, name, path) is Some,
    ensures
        inserted_tree(inserted_tree(tree, route, folders, name, path)->0, route, folders, name, path)
            == inserted_tree(tree, route, folders, name, path),
{
    lemma_place_idempotent(tree, insertion_steps(route, folders), name, path_node(path));
}

/// Inserting a script keeps every table's keys unique.
pub proof fn lemma_insert_keeps_keys_unique(
    tree: Seq<(Seq<char>, Node)>,
    route: Seq<char>,
    folders: Seq<Seq<char>>,
    name: Seq<char>,
    path: Seq<char>,
)
    requires
        inserted_tree(tree, route, folders, name, path) is Some,
        node_wf(Node::Table(tree)),
    ensures
        node_wf(Node::Table(inserted_tree(tree, route, folders, name, path)->0)),
{
    assert(node_wf(path_node(path))) by {
        let pe = seq![("$path"@, Node::Text(path))];
        lemma_table_wf(pe);
    }
    lemma_place_wf(tree, insertion_steps(route, folders), name, path_node(path));
}

/// Inserting a script leaves every top-level entry of the tree other than
/// the first part of its route as it was.
pub proof fn lemma_insert_keeps_other_roots(
    tree: Seq<(Seq<char>, Node)>,
    route: Seq<char>,
    folders: Seq<Seq<char>>,
    name: Seq<char>,
    path: Seq<char>,
    other: Seq<char>,
)
    requires
        inserted_tree(tree, route, folders, name, path) is Some,
        other != split_on(route, '/')[0],
    ensures
        table_get(inserted_tree(tree, route, folders, name, path)->0, other) == table_get(tree, other),
{
    crate::text::lemma_split_on_nonempty(route, '/');
    let steps = insertion_steps(route, folders);
    assert(steps[0].0 == split_on(route, '/')[0]);
    lemma_place_keeps_others(tree, steps, name, path_node(path), other);
}

/// A table with only a class name is well formed.
pub proof fn lemma_class_node_wf(c: Seq<char>)
    ensures
        node_wf(class_node(c)),
{
    lemma_table_wf(seq![("$className"@, Node::Text(c))]);
}

/// The texts of the starting tree's keys, as far as telling them apart needs.
proof fn lemma_tree_key_texts()
    ensures
        "$className"@.len() == 10 && "$className"@[0] == '$',
        "ReplicatedStorage"@.len() == 17,
        "Client"@.len() == 6 && "Client"@[0] == 'C',
        "Shared"@.len() == 6 && "Shared"@[0] == 'S',
        "ServerScriptService"@.len() == 19,
        "ServerStorage"@.len() == 13 && "ServerStorage"@[1] == 'e',
        "ReplicatedFirst"@.len() == 15,
        "StarterGui"@.len() == 10 && "StarterGui"@[0] == 'S',
        "StarterPack"@.len() == 11,
        "StarterPlayer"@.len() == 13 && "StarterPlayer"@[1] == 't',
        "StarterPlayerScripts"@.len() == 20,
        "StarterCharacterScripts"@.len() == 23,
        "Folder"@.len() == 6 && "Folder"@[0] == 'F',
{
    reveal_strlit("$className");
    reveal_strlit("ReplicatedStorage");
    reveal_strlit("Client");
    reveal_strlit("Shared");
    reveal_strlit("ServerScriptService");
    reveal_strlit("ServerStorage");
    reveal_strlit("ReplicatedFirst");
    reveal_strlit("StarterGui");
    reveal_strlit("StarterPack");
    reveal_strlit("StarterPlayer");
    reveal_strlit("StarterPlayerScripts");
    reveal_strlit("StarterCharacterScripts");
    reveal_strlit("Folder");
}

/// Every key of a table that does not start with `$`, at any depth, names a
/// table whose `$className` is what `get_class_name` gives that key.
pub open spec fn classes_follow_keys(es: Seq<(Seq<char>, Node)>) -> bool
    decreases es,
{
    if es.len() == 0 {
        true
    } else {
        let e = es[es.len() - 1];
        let here = if e.0.len() > 0 && e.0[0] == '$' {
            true
        } else {
            match e.1 {
                Node::Table(sub) => table_get(sub, "$className"@) == Some(
                    Node::Text(class_name_of(e.0)),
                ) && classes_follow_keys(sub),
                Node::Text(_) => false,
            }
        };
        here && classes_follow_keys(es.drop_last())
    }
}

/// Every table of the starting tree below the root has the class that
/// `get_class_name` gives its key.
pub proof fn lemma_initial_classes()
    ensures
        classes_follow_keys(initial_tree()),
{
    lemma_tree_key_texts();
    reveal_strlit("DataModel");
    let t = initial_tree();
    let rs = t[1].1->Table_0;
    let sp = t[7].1->Table_0;
    lemma_entry_position_at(rs, "$className"@, 0);
    lemma_entry_position_at(sp, "$className"@, 0);
    lemma_class_classes("Folder"@, "Client"@);
    lemma_class_classes("Folder"@, "Shared"@);
    lemma_class_classes("StarterPlayerScripts"@, "StarterPlayerScripts"@);
    lemma_class_classes("StarterCharacterScripts"@, "StarterCharacterScripts"@);
    assert(class_name_of("Client"@) == "Folder"@);
    assert(class_name_of("Shared"@) == "Folder"@);
    reveal_with_fuel(classes_follow_keys, 4);
    assert(classes_follow_keys(rs));
    assert(classes_follow_keys(sp));
    assert forall|i: int| 2 <= i <= 6 implies classes_follow_keys(t[i].1->Table_0) && table_get(
        t[i].1->Table_0,
        "$className"@,
    ) == Some(Node::Text(class_name_of(t[i].0))) by {
        lemma_class_classes(t[i].0, t[i].0);
    }
    reveal_with_fuel(classes_follow_keys, 9);
}

/// A table with only a class name has that class and no other key.
proof fn lemma_class_classes(class: Seq<char>, key: Seq<char>)
    requires
        class == class_name_of(key),
    ensures
        table_get(class_entries(class), "$className"@) == Some(Node::Text(class_name_of(key))),
        classes_follow_keys(class_entries(class)),
{
    lemma_tree_key_texts();
    lemma_entry_position_at(class_entries(class), "$className"@, 0);
    reveal_with_fuel(classes_follow_keys, 2);
}

/// The parts of a route lead, one after the other, to tables of the starting
/// tree, and each of these tables has the class that `get_class_name` gives
/// its key.
pub open spec fn route_tables_exist(parts: Seq<Seq<char>>) -> bool {
    forall|j: int|
        1 <= j <= parts.len() ==> {
            &&& read_path(initial_tree(), #[trigger] parts.take(j)) matches Some(Node::Table(t))
            &&& table_get(t, "$className"@) == Some(Node::Text(class_name_of(parts[j - 1])))
        }
}

/// A key of the starting tree's root is a route to a table with its class.
proof fn lemma_root_table(p: int)
    requires
        1 <= p < 8,
    ensures
        route_tables_exist(seq![initial_tree()[p].0]),
{
    lemma_tree_key_texts();
    let t = initial_tree();
    let k = t[p].0;
    lemma_entry_position_at(t, k, p);
    assert(seq![k].take(1) =~= seq![k]);
    if let Node::Table(sub) = t[p].1 {
        lemma_entry_position_at(sub, "$className"@, 0);
    }
}

/// A key of the `ReplicatedStorage` or `StarterPlayer` table, after that
/// root key, is a route to tables with their classes.
proof fn lemma_nested_table(p: int, q: int)
    requires
        p == 1 || p == 7,
        q == 1 || q == 2,
    ensures
        ({
            let sub = initial_tree()[p].1->Table_0;
            route_tables_exist(seq![initial_tree()[p].0, sub[q].0])
        }),
{
    lemma_tree_key_texts();
    let t = initial_tree();
    let k = t[p].0;
    let sub = t[p].1->Table_0;
    let k2 = sub[q].0;
    let parts = seq![k, k2];
    lemma_root_table(p);
    lemma_entry_position_at(t, k, p);
    lemma_entry_position_at(sub, k2, q);
    assert(parts.take(1) =~= seq![k]);
    assert(parts.take(2) =~= parts);
    assert(parts.drop_first() =~= seq![k2]);
    assert(read_path(t, parts) == read_path(sub, seq![k2]));
    lemma_entry_position_at(sub[q].1->Table_0, "$className"@, 0);
}

/// Every route that a word names without aliases leads through tables of
/// the starting tree, and each of those tables has the class that
/// `get_class_name` gives its key.
pub proof fn lemma_builtin_routes_exist(w: Seq<char>)
    requires
        route_for_word(w, Seq::empty()).len() > 0,
    ensures
        route_tables_exist(split_on(route_for_word(w, Seq::empty()), '/')),
{
    lemma_tree_key_texts();
    let r = route_for_word(w, Seq::empty());
    let t = initial_tree();
    reveal_strlit("ReplicatedStorage/Client");
    reveal_strlit("ReplicatedStorage/Shared");
    reveal_strlit("StarterPlayer/StarterPlayerScripts");
    reveal_strlit("StarterPlayer/StarterCharacterScripts");
    reveal_strlit("ServerScriptService");
    reveal_strlit("ReplicatedStorage");
    reveal_strlit("ReplicatedFirst");
    reveal_strlit("ServerStorage");
    reveal_strlit("StarterGui");
    reveal_strlit("StarterPack");
    reveal_strlit("StarterPlayer");
    reveal_strlit("Client");
    reveal_strlit("Shared");
    reveal_strlit("StarterPlayerScripts");
    reveal_strlit("StarterCharacterScripts");
    if r == "ReplicatedStorage/Client"@ || r == "ReplicatedStorage/Shared"@ || r
        == "StarterPlayer/StarterPlayerScripts"@ || r == "StarterPlayer/StarterCharacterScripts"@ {
        let (p, q) = if r == "ReplicatedStorage/Client"@ {
            (1int, 1int)
        } else if r == "ReplicatedStorage/Shared"@ {
            (1int, 2int)
        } else if r == "StarterPlayer/StarterPlayerScripts"@ {
            (7int, 1int)
        } else {
            (7int, 2int)
        };
        let a = t[p].0;
        let b = t[p].1->Table_0[q].0;
        assert(r =~= a + seq!['/'] + b);
        lemma_split_on_push_piece(a, b, '/');
        lemma_split_on_whole(a, '/');
        assert(seq![a].push(b) =~= seq![a, b]);
        lemma_nested_table(p, q);
    } else {
        let p = if r == "ReplicatedStorage"@ {
            1int
        } else if r == "ServerScriptService"@ {
            2int
        } else if r == "ServerStorage"@ {
            3int
        } else if r == "ReplicatedFirst"@ {
            4int
        } else if r == "StarterGui"@ {
            5int
        } else {
            6int
        };
        assert(r == t[p].0);
        lemma_split_on_whole(r, '/');
        lemma_root_table(p);
    }
}

/// The starting tree has unique keys in every table.
pub proof fn lemma_initial_tree_wf()
    ensures
        node_wf(Node::Table(initial_tree())),
{
    lemma_tree_key_texts();
    let t = initial_tree();
    let rs = seq![
        ("$className"@, Node::Text("ReplicatedStorage"@)),
        ("Client"@, class_node("Folder"@)),
        ("Shared"@, class_node("Folder"@)),
    ];
    lemma_class_node_wf("Folder"@);
    lemma_table_wf(rs);
    assert(node_wf(rs[0].1) && node_wf(rs[1].1) && node_wf(rs[2].1));
    assert(node_wf(Node::Table(rs)));
    let sp = seq![
        ("$className"@, Node::Text("StarterPlayer"@)),
        ("StarterPlayerScripts"@, class_node("StarterPlayerScripts"@)),
        ("StarterCharacterScripts"@, class_node("StarterCharacterScripts"@)),
    ];
    lemma_class_node_wf("StarterPlayerScripts"@);
    lemma_class_node_wf("StarterCharacterScripts"@);
    lemma_table_wf(sp);
    assert(node_wf(sp[0].1) && node_wf(sp[1].1) && node_wf(sp[2].1));
    assert(node_wf(Node::Table(sp)));
    lemma_class_node_wf("ServerScriptService"@);
    lemma_class_node_wf("ServerStorage"@);
    lemma_class_node_wf("ReplicatedFirst"@);
    lemma_class_node_wf("StarterGui"@);
    lemma_class_node_wf("StarterPack"@);
    lemma_table_wf(t);
    assert(node_wf(t[0].1) && node_wf(t[1].1) && node_wf(t[2].1) && node_wf(t[3].1));
    assert(node_wf(t[4].1) && node_wf(t[5].1) && node_wf(t[6].1) && node_wf(t[7].1));
    assert forall|i: int, j: int| 0 <= i < j < t.len() implies t[i].0 != t[j].0 by {}
}

} // verus!
