//! A whole build: every script found, routed and placed in a fresh project.

use vstd::prelude::*;
use vstd::utf8::is_ascii_chars;

use crate::project::create_project;
use crate::project::initial_project;
use crate::project::inserted_tree;
use crate::project::can_insert_file;
use crate::project::insert_file;
use crate::project::lemma_initial_tree_wf;
use crate::project::lemma_insert_keeps_keys_unique;
use crate::project::lemma_insert_then_read;
use crate::project::node_wf;
use crate::project::path_node;
use crate::project::pretty_project_json;
use crate::project::project_json_text;
use crate::project::read_path;
use crate::project::Node;
use crate::project::Project;
use crate::project::ProjectView;
use crate::route::route_file;
use crate::route::routed;
use crate::route::texts;
use crate::routing::AliasMap;
use crate::text::split_on;

verus! {

/// A script found by the scan: the folders between the source folder and
/// it, and its file name.
pub struct SourceFile {
    pub parent_parts: Vec<String>,
    pub file_name: String,
}

/// Where a build stops, by the position of the script in the scan.
#[derive(Clone, Copy, PartialEq, Eq, Debug)]
pub enum BuildFailure {
    /// The script's stem cannot be cut at the position of its ending.
    Route(usize),
    /// The walk to the script's place meets a text of the tree.
    Insert(usize),
    /// The project's JSON text cannot be made.
    Output,
}

/// The plain view of the scripts of a scan.
pub open spec fn files_view(files: Seq<SourceFile>) -> Seq<(Seq<Seq<char>>, Seq<char>)> {
    files.map_values(|f: SourceFile| (texts(f.parent_parts@), f.file_name@))
}

/// The project that a build of these scripts writes, in scan order; or where
/// it stops.
pub open spec fn built(
    files: Seq<(Seq<Seq<char>>, Seq<char>)>,
    build_folder: Seq<char>,
    aliases: Seq<(Seq<char>, Seq<char>)>,
) -> Result<ProjectView, BuildFailure>
    decreases files.len(),
{
    if files.len() == 0 {
        Ok(initial_project())
    } else {
        match built(files.drop_last(), build_folder, aliases) {
            Err(e) => Err(e),
            Ok(p) => {
                let (parts, name) = files.last();
                match routed(parts, name, build_folder, aliases) {
                    None => Err(BuildFailure::Route((files.len() - 1) as usize)),
                    Some(r) => match inserted_tree(p.tree, r.route, r.folders, r.name, r.project_path) {
                        None => Err(BuildFailure::Insert((files.len() - 1) as usize)),
                        Some(t) => Ok(ProjectView { tree: t, ..p }),
                    },
                }
            },
        }
    }
}

/// Builds the project: starts from `create_project` and, for each script in
/// order, routes it with `route_file` and places it with `insert_file`.
/// Stops at the first script that cannot be routed or placed; a scan whose
/// file names are all ASCII is always routed.
pub fn build_project(files: &Vec<SourceFile>, build_folder: &str, aliases: &AliasMap) -> (r: Result<
    Project,
    BuildFailure,
>)
    requires
        aliases.wf(),
    ensures
        match r {
            Ok(p) => built(files_view(files@), build_folder@, aliases@) == Ok::<
                ProjectView,
                BuildFailure,
            >(p@),
            Err(e) => built(files_view(files@), build_folder@, aliases@) == Err::<
                ProjectView,
                BuildFailure,
            >(e),
        },
        (forall|k: int| 0 <= k < files@.len() ==> is_ascii_chars(#[trigger] files@[k].file_name@))
            ==> !(r matches Err(BuildFailure::Route(_))),
{
    let ghost fv = files_view(files@);
    let mut project = create_project();
    let mut i: usize = 0;
    assert(fv.take(0) =~= Seq::<(Seq<Seq<char>>, Seq<char>)>::empty());
    while i < files.len()
        invariant
            aliases.wf(),
            fv == files_view(files@),
            i <= files@.len(),
            built(fv.take(i as int), build_folder@, aliases@) == Ok::<ProjectView, BuildFailure>(
                project@,
            ),
        decreases files.len() - i,
    {
        assert(fv.take(i + 1).drop_last() =~= fv.take(i as int));
        assert(fv.take(i + 1).last() == (texts(files@[i as int].parent_parts@), files@[i as int].file_name@));
        let file = &files[i];
        let routed_file = match route_file(&file.parent_parts, file.file_name.as_str(), build_folder, aliases) {
            None => {
                proof {
                    lemma_built_prefix_err(fv, (i + 1) as int, build_folder@, aliases@);
                }
                return Err(BuildFailure::Route(i));
            },
            Some(f) => f,
        };
        if !can_insert_file(&project, routed_file.route.as_str(), &routed_file.folders) {
            proof {
                lemma_built_prefix_err(fv, (i + 1) as int, build_folder@, aliases@);
            }
            return Err(BuildFailure::Insert(i));
        }
        insert_file(
            &mut project,
            routed_file.route.as_str(),
            &routed_file.folders,
            routed_file.name.as_str(),
            routed_file.project_path.as_str(),
        );
        i = i + 1;
    }
    assert(fv.take(files.len() as int) =~= fv);
    Ok(project)
}

/// The text of the project file that a build writes: the built project as
/// pretty JSON; the build's failure where it stops, and `Output` where the
/// JSON text cannot be made.
pub fn build_project_json(files: &Vec<SourceFile>, build_folder: &str, aliases: &AliasMap) -> (r:
    Result<String, BuildFailure>)
    requires
        aliases.wf(),
    ensures
        match built(files_view(files@), build_folder@, aliases@) {
            Err(e) => r == Err::<String, BuildFailure>(e),
            Ok(p) => match pretty_project_json(p) {
                Some(t) => r matches Ok(s) && s@ == t,
                None => r == Err::<String, BuildFailure>(BuildFailure::Output),
            },
        },
        (forall|k: int| 0 <= k < files@.len() ==> is_ascii_chars(#[trigger] files@[k].file_name@))
            ==> !(r matches Err(BuildFailure::Route(_))),
{
    match build_project(files, build_folder, aliases) {
        Err(e) => Err(e),
        Ok(project) => match project_json_text(&project) {
            Some(text) => Ok(text),
            None => Err(BuildFailure::Output),
        },
    }
}

/// A build that stops on a prefix of the scan stops there on the whole scan.
proof fn lemma_built_prefix_err(
    files: Seq<(Seq<Seq<char>>, Seq<char>)>,
    k: int,
    build_folder: Seq<char>,
    aliases: Seq<(Seq<char>, Seq<char>)>,
)
    requires
        0 <= k <= files.len(),
        built(files.take(k), build_folder, aliases) is Err,
    ensures
        built(files, build_folder, aliases) == built(files.take(k), build_folder, aliases),
    decreases files.len() - k,
{
    if k < files.len() {
        assert(files.take(k + 1).drop_last() =~= files.take(k));
        lemma_built_prefix_err(files, k + 1, build_folder, aliases);
    } else {
        assert(files.take(k) =~= files);
    }
}

/// Every table of a built project has unique keys.
pub proof fn lemma_built_keys_unique(
    files: Seq<(Seq<Seq<char>>, Seq<char>)>,
    build_folder: Seq<char>,
    aliases: Seq<(Seq<char>, Seq<char>)>,
)
    ensures
        built(files, build_folder, aliases) matches Ok(p) ==> node_wf(Node::Table(p.tree)),
    decreases files.len(),
{
    if files.len() == 0 {
        lemma_initial_tree_wf();
    } else {
        lemma_built_keys_unique(files.drop_last(), build_folder, aliases);
        if let Ok(p) = built(files.drop_last(), build_folder, aliases) {
            let (parts, name) = files.last();
            if let Some(r) = routed(parts, name, build_folder, aliases) {
                if inserted_tree(p.tree, r.route, r.folders, r.name, r.project_path) is Some {
                    lemma_insert_keeps_keys_unique(p.tree, r.route, r.folders, r.name, r.project_path);
                }
            }
        }
    }
}

/// In a built project, the last script of the scan can be read back: its
/// route's parts, its folders and its name lead to the table holding its
/// project path.
pub proof fn lemma_built_last_readable(
    files: Seq<(Seq<Seq<char>>, Seq<char>)>,
    build_folder: Seq<char>,
    aliases: Seq<(Seq<char>, Seq<char>)>,
)
    requires
        files.len() > 0,
        built(files, build_folder, aliases) is Ok,
    ensures
        ({
            let r = routed(files.last().0, files.last().1, build_folder, aliases)->0;
            read_path(
                built(files, build_folder, aliases)->Ok_0.tree,
                split_on(r.route, '/') + r.folders + seq![r.name],
            ) == Some(path_node(r.project_path))
        }),
{
    let p = built(files.drop_last(), build_folder, aliases)->Ok_0;
    let r = routed(files.last().0, files.last().1, build_folder, aliases)->0;
    lemma_insert_then_read(p.tree, r.route, r.folders, r.name, r.project_path);
}

} // verus!
