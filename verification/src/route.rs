//! Where one script goes: its route, the folders between the route and the
//! script, the script's name, and the path that the project file records.

use vstd::prelude::*;
use vstd::utf8::decode_utf8;
use vstd::utf8::encode_utf8;
use vstd::utf8::group_utf8_lib;
use vstd::utf8::is_ascii_chars;
use vstd::utf8::is_char_boundary;

use crate::routing::route_for_word;
use crate::routing::route_from_word;
use crate::routing::AliasMap;
use crate::sources::init_file;
use crate::sources::is_init_file;
use crate::suffix::get_suffix_route;
use crate::suffix::lemma_suffix_length_bounds;
use crate::suffix::suffix_route;
use crate::text::file_stem;
use crate::text::file_stem_of;
use crate::text::forward_slashes;
use crate::text::join_with_slash;
use crate::text::lemma_ascii_boundary;
use crate::text::lemma_ascii_stem;
use crate::text::lowercase;
use crate::text::push_char;
use crate::text::to_forward_slashes;

verus! {

broadcast use group_utf8_lib;

/// The texts of a list of strings.
pub open spec fn texts(v: Seq<String>) -> Seq<Seq<char>> {
    v.map_values(|s: String| s@)
}

/// Where a script goes, as the project file needs it.
pub struct RoutedFile {
    /// The route, `/`-separated, from the root of the game tree.
    pub route: String,
    /// The folders between the route and the script.
    pub folders: Vec<String>,
    /// The script's name in the game tree.
    pub name: String,
    /// The path that the project file records for the script.
    pub project_path: String,
}

/// The plain view of a routed script.
pub struct RoutedView {
    pub route: Seq<char>,
    pub folders: Seq<Seq<char>>,
    pub name: Seq<char>,
    pub project_path: Seq<char>,
}

impl View for RoutedFile {
    type V = RoutedView;

    open spec fn view(&self) -> RoutedView {
        RoutedView {
            route: self.route@,
            folders: texts(self.folders@),
            name: self.name@,
            project_path: self.project_path@,
        }
    }
}

/// The state of the walk over a script's parent folders.
pub struct FolderWalk {
    /// The route so far.
    pub route: Seq<char>,
    /// Some folder named a route.
    pub has_folder_route: bool,
    /// The last folder that named a route.
    pub last_route_folder: Seq<char>,
    /// The folders that named no route, in order.
    pub folders: Seq<Seq<char>>,
}

/// The walk over the parent folders: a folder that names a route sets the
/// route, any other folder is kept. The route starts as `ReplicatedStorage`.
pub open spec fn folder_walk(parts: Seq<Seq<char>>, aliases: Seq<(Seq<char>, Seq<char>)>) -> FolderWalk
    decreases parts.len(),
{
    if parts.len() == 0 {
        FolderWalk {
            route: "ReplicatedStorage"@,
            has_folder_route: false,
            last_route_folder: Seq::empty(),
            folders: Seq::empty(),
        }
    } else {
        let w = folder_walk(parts.drop_last(), aliases);
        let p = parts.last();
        let fr = route_for_word(p, aliases);
        if fr.len() > 0 {
            FolderWalk { route: fr, has_folder_route: true, last_route_folder: p, folders: w.folders }
        } else {
            FolderWalk { folders: w.folders.push(p), ..w }
        }
    }
}

/// The project path for a path relative to the source folder: the build
/// folder itself for the empty path, else both joined by `/` with every
/// backslash turned into `/`.
pub open spec fn project_path_for(build_folder: Seq<char>, relative: Seq<char>) -> Seq<char> {
    if relative.len() == 0 {
        build_folder
    } else {
        forward_slashes(build_folder + seq!['/'] + relative)
    }
}

/// Where the script `file_name`, inside the parent folders `parts` (relative
/// to the source folder), goes. `None` where the stem cannot be cut at the
/// position of its ending.
pub open spec fn routed(
    parts: Seq<Seq<char>>,
    file_name: Seq<char>,
    build_folder: Seq<char>,
    aliases: Seq<(Seq<char>, Seq<char>)>,
) -> Option<RoutedView> {
    let w = folder_walk(parts, aliases);
    let stem = file_stem_of(file_name);
    let sb = encode_utf8(stem);
    match suffix_route(stem, aliases) {
        None => None,
        Some((sr, k)) => if sr.len() > 0 && !is_char_boundary(sb, sb.len() - k) {
            None
        } else {
            let route = if sr.len() > 0 && !w.has_folder_route {
                sr
            } else {
                w.route
            };
            let plain_name = if sr.len() > 0 {
                decode_utf8(sb.subrange(0, sb.len() - k))
            } else {
                stem
            };
            if init_file(file_name) {
                let relative = forward_slashes(join_with_slash(parts));
                let project_path = project_path_for(build_folder, relative);
                if w.folders.len() > 0 {
                    Some(
                        RoutedView {
                            route,
                            folders: w.folders.drop_last(),
                            name: w.folders.last(),
                            project_path,
                        },
                    )
                } else if w.last_route_folder.len() > 0 {
                    Some(
                        RoutedView {
                            route,
                            folders: w.folders,
                            name: w.last_route_folder,
                            project_path,
                        },
                    )
                } else {
                    Some(RoutedView { route, folders: w.folders, name: "source"@, project_path })
                }
            } else {
                let relative = forward_slashes(join_with_slash(parts.push(file_name)));
                Some(
                    RoutedView {
                        route,
                        folders: w.folders,
                        name: plain_name,
                        project_path: project_path_for(build_folder, relative),
                    },
                )
            }
        },
    }
}

/// A copy of a list of strings.
fn copy_strings(v: &Vec<String>) -> (r: Vec<String>)
    ensures
        r@ == v@,
{
    let mut r: Vec<String> = Vec::new();
    let mut i: usize = 0;
    while i < v.len()
        invariant
            i <= v@.len(),
            r@ == v@.take(i as int),
        decreases v.len() - i,
    {
        r.push(v[i].clone());
        assert(v@.take(i + 1) =~= v@.take(i as int).push(v@[i as int]));
        i = i + 1;
    }
    assert(v@.take(v@.len() as int) =~= v@);
    r
}

/// The pieces joined with `/`.
pub fn join_parts(parts: &Vec<String>) -> (r: String)
    ensures
        r@ == join_with_slash(texts(parts@)),
{
    let mut r = String::new();
    let mut i: usize = 0;
    let ghost tv = texts(parts@);
    assert(tv.take(0) =~= Seq::<Seq<char>>::empty());
    while i < parts.len()
        invariant
            tv == texts(parts@),
            i <= parts@.len(),
            r@ == join_with_slash(tv.take(i as int)),
        decreases parts.len() - i,
    {
        assert(tv.take(i + 1).drop_last() =~= tv.take(i as int));
        assert(tv.take(i + 1).last() == parts@[i as int]@);
        if i == 0 {
            assert(r@ + parts@[0]@ =~= parts@[0]@);
        } else {
            push_char(&mut r, '/');
        }
        r.append(parts[i].as_str());
        i = i + 1;
    }
    assert(tv.take(parts.len() as int) =~= tv);
    r
}

/// The project path for a path relative to the source folder.
fn project_path_of(build_folder: &str, relative: &str) -> (r: String)
    ensures
        r@ == project_path_for(build_folder@, relative@),
{
    if relative.is_empty() {
        build_folder.to_owned()
    } else {
        let mut joined = build_folder.to_owned();
        push_char(&mut joined, '/');
        joined.append(relative);
        to_forward_slashes(joined.as_str())
    }
}

/// Where a script goes. `parent_parts` are the folders between the source
/// folder and the script, `file_name` the script's file name.
///
/// The route starts as `ReplicatedStorage`; each parent folder that names a
/// route (see `route_from_word`) sets it, the others are kept as folders. An
/// ending of the stem that names a route (see `get_suffix_route`) sets the
/// route when no folder did, and is cut from the name. An init script takes
/// the name of its last kept folder (which it then leaves out), else of the
/// last folder that named a route, else `source`, and records its folder's
/// path. `None` where the stem cannot be cut at the position of its ending,
/// which never happens to an ASCII file name.
pub fn route_file(
    parent_parts: &Vec<String>,
    file_name: &str,
    build_folder: &str,
    aliases: &AliasMap,
) -> (r: Option<RoutedFile>)
    requires
        aliases.wf(),
    ensures
        r matches Some(f) ==> routed(texts(parent_parts@), file_name@, build_folder@, aliases@)
            == Some(f@),
        r is None ==> routed(texts(parent_parts@), file_name@, build_folder@, aliases@) is None,
        is_ascii_chars(file_name@) ==> r is Some,
{
    let ghost pv = texts(parent_parts@);
    let mut route = "ReplicatedStorage".to_owned();
    let mut has_folder_route = false;
    let mut last_route_folder = String::new();
    let mut folders: Vec<String> = Vec::new();
    let mut i: usize = 0;
    assert(pv.take(0) =~= Seq::<Seq<char>>::empty());
    assert(texts(folders@) =~= Seq::<Seq<char>>::empty());
    while i < parent_parts.len()
        invariant
            aliases.wf(),
            pv == texts(parent_parts@),
            i <= parent_parts@.len(),
            folder_walk(pv.take(i as int), aliases@) == (FolderWalk {
                route: route@,
                has_folder_route,
                last_route_folder: last_route_folder@,
                folders: texts(folders@),
            }),
        decreases parent_parts.len() - i,
    {
        assert(pv.take(i + 1).drop_last() =~= pv.take(i as int));
        assert(pv.take(i + 1).last() == parent_parts@[i as int]@);
        let part = &parent_parts[i];
        let folder_route = route_from_word(part.as_str(), aliases);
        if !folder_route.as_str().is_empty() {
            route = folder_route;
            has_folder_route = true;
            last_route_folder = part.clone();
        } else {
            let ghost before = texts(folders@);
            folders.push(part.clone());
            assert(texts(folders@) =~= before.push(part@));
        }
        i = i + 1;
    }
    assert(pv.take(parent_parts.len() as int) =~= pv);
    let stem = file_stem(file_name);
    proof {
        if is_ascii_chars(file_name@) {
            lemma_ascii_stem(file_name@);
        }
    }
    let found = get_suffix_route(stem, aliases);
    let (suffix_route_found, suffix_length) = match found {
        None => {
            return None;
        },
        Some(pair) => pair,
    };
    proof {
        lemma_suffix_length_bounds(stem@, lowercase(stem@), aliases@);
    }
    let mut name = stem.to_owned();
    if !suffix_route_found.as_str().is_empty() {
        if !has_folder_route {
            route = suffix_route_found;
        }
        let cut = stem.as_bytes().len() - suffix_length;
        proof {
            if is_ascii_chars(file_name@) {
                vstd::utf8::is_ascii_chars_encode_utf8(stem@);
                lemma_ascii_boundary(stem@, cut as int);
            }
        }
        if !stem.is_char_boundary(cut) {
            return None;
        }
        let (head, _tail) = stem.split_at(cut);
        assert(head@ == decode_utf8(encode_utf8(head@)));
        name = head.to_owned();
    }
    if is_init_file(file_name) {
        let relative = to_forward_slashes(join_parts(parent_parts).as_str());
        let project_path = project_path_of(build_folder, relative.as_str());
        if folders.len() > 0 {
            let ghost before = texts(folders@);
            let last = folders.pop();
            assert(texts(folders@) =~= before.drop_last());
            match last {
                Some(n) => {
                    name = n;
                },
                None => {},
            }
        } else if !last_route_folder.as_str().is_empty() {
            name = last_route_folder;
        } else {
            name = "source".to_owned();
        }
        Some(RoutedFile { route, folders, name, project_path })
    } else {
        let mut all_parts = copy_strings(parent_parts);
        all_parts.push(file_name.to_owned());
        assert(texts(all_parts@) =~= pv.push(file_name@));
        let relative = to_forward_slashes(join_parts(&all_parts).as_str());
        let project_path = project_path_of(build_folder, relative.as_str());
        Some(RoutedFile { route, folders, name, project_path })
    }
}

/// The parent folders that name no route (`routing == false`) or that name
/// one (`routing == true`), in order.
pub open spec fn folders_by_route(
    parts: Seq<Seq<char>>,
    aliases: Seq<(Seq<char>, Seq<char>)>,
    routing: bool,
) -> Seq<Seq<char>>
    decreases parts.len(),
{
    if parts.len() == 0 {
        Seq::empty()
    } else {
        let before = folders_by_route(parts.drop_last(), aliases, routing);
        if (route_for_word(parts.last(), aliases).len() > 0) == routing {
            before.push(parts.last())
        } else {
            before
        }
    }
}

/// The parent folders that name no route, in order.
pub open spec fn plain_folders(parts: Seq<Seq<char>>, aliases: Seq<(Seq<char>, Seq<char>)>) -> Seq<
    Seq<char>,
> {
    folders_by_route(parts, aliases, false)
}

/// The parent folders that name a route, in order.
pub open spec fn routing_folders(parts: Seq<Seq<char>>, aliases: Seq<(Seq<char>, Seq<char>)>) -> Seq<
    Seq<char>,
> {
    folders_by_route(parts, aliases, true)
}

/// The walk over the parent folders keeps exactly the folders that name no
/// route, in order; it has met a routing folder exactly when there is one,
/// and then its route is the route of the last such folder; otherwise the
/// route is `ReplicatedStorage`. Either way the route is not empty.
pub proof fn lemma_folder_walk(parts: Seq<Seq<char>>, aliases: Seq<(Seq<char>, Seq<char>)>)
    ensures
        ({
            let w = folder_walk(parts, aliases);
            let routing = routing_folders(parts, aliases);
            &&& w.folders == plain_folders(parts, aliases)
            &&& w.has_folder_route == (routing.len() > 0)
            &&& w.has_folder_route ==> w.last_route_folder == routing.last() && w.route
                == route_for_word(routing.last(), aliases)
            &&& !w.has_folder_route ==> w.route == "ReplicatedStorage"@ && w.last_route_folder.len()
                == 0
            &&& w.route.len() > 0
        }),
    decreases parts.len(),
{
    reveal_strlit("ReplicatedStorage");
    if parts.len() > 0 {
        let prev = parts.drop_last();
        lemma_folder_walk(prev, aliases);
    }
}

/// Where a script goes, stated over its parent folders: the route is that of
/// the last parent folder that names one, else the one its ending names, else
/// `ReplicatedStorage`, and never empty. The folders are the parent folders
/// that name no route, in order, but for the last of them when the script is
/// an init script, which takes that folder's name; an init script without
/// such a folder takes the name of the last routing folder (when it is not
/// empty, as a path's folders never are), else `source`. Any other script's
/// name is its stem with the ending cut off: the first `stem bytes - n`
/// bytes, which for an ASCII name are its first `stem length - n`
/// characters.
pub proof fn lemma_routed_by_folders(
    parts: Seq<Seq<char>>,
    file_name: Seq<char>,
    build_folder: Seq<char>,
    aliases: Seq<(Seq<char>, Seq<char>)>,
)
    ensures
        routed(parts, file_name, build_folder, aliases) matches Some(v) ==> {
            let plain = plain_folders(parts, aliases);
            let routing = routing_folders(parts, aliases);
            let found = suffix_route(file_stem_of(file_name), aliases)->0;
            let sr = found.0;
            &&& v.route == if routing.len() > 0 {
                route_for_word(routing.last(), aliases)
            } else if sr.len() > 0 {
                sr
            } else {
                "ReplicatedStorage"@
            }
            &&& v.route.len() > 0
            &&& v.folders == if init_file(file_name) && plain.len() > 0 {
                plain.drop_last()
            } else {
                plain
            }
            &&& init_file(file_name) ==> v.name == if plain.len() > 0 {
                plain.last()
            } else if routing.len() > 0 && routing.last().len() > 0 {
                routing.last()
            } else {
                "source"@
            }
            &&& (forall|i: int| 0 <= i < parts.len() ==> #[trigger] parts[i].len() > 0) && init_file(
                file_name,
            ) && plain.len() == 0 && routing.len() > 0 ==> v.name == routing.last()
            &&& !init_file(file_name) ==> v.name == if sr.len() > 0 {
                decode_utf8(
                    encode_utf8(file_stem_of(file_name)).subrange(
                        0,
                        encode_utf8(file_stem_of(file_name)).len() - found.1,
                    ),
                )
            } else {
                file_stem_of(file_name)
            }
            &&& is_ascii_chars(file_name) && !init_file(file_name) ==> v.name == file_stem_of(
                file_name,
            ).subrange(0, file_stem_of(file_name).len() - found.1)
        },
{
    lemma_folder_walk(parts, aliases);
    let routing = routing_folders(parts, aliases);
    if forall|i: int| 0 <= i < parts.len() ==> #[trigger] parts[i].len() > 0 {
        lemma_routing_folders_nonempty(parts, aliases);
    }
    let stem = file_stem_of(file_name);
    if is_ascii_chars(file_name) {
        lemma_ascii_stem(file_name);
        lemma_suffix_length_bounds(stem, lowercase(stem), aliases);
        vstd::utf8::is_ascii_chars_encode_utf8(stem);
        if let Some((sr, k)) = suffix_route(stem, aliases) {
            if sr.len() > 0 {
                crate::text::lemma_ascii_range(stem, 0, stem.len() - k);
            } else {
                assert(stem.subrange(0, stem.len() as int) =~= stem);
            }
        }
    }
}

/// The routing folders of a path whose folders are not empty are not empty.
proof fn lemma_routing_folders_nonempty(parts: Seq<Seq<char>>, aliases: Seq<(Seq<char>, Seq<char>)>)
    requires
        forall|i: int| 0 <= i < parts.len() ==> #[trigger] parts[i].len() > 0,
    ensures
        forall|i: int|
            0 <= i < routing_folders(parts, aliases).len() ==> #[trigger] routing_folders(
                parts,
                aliases,
            )[i].len() > 0,
    decreases parts.len(),
{
    if parts.len() > 0 {
        let prev = parts.drop_last();
        assert forall|i: int| 0 <= i < prev.len() implies #[trigger] prev[i].len() > 0 by {
            assert(prev[i] == parts[i]);
        }
        lemma_routing_folders_nonempty(prev, aliases);
        assert(parts.last() == parts[parts.len() - 1]);
        let before = routing_folders(prev, aliases);
        let now = routing_folders(parts, aliases);
        assert(now == folders_by_route(parts, aliases, true));
        if route_for_word(parts.last(), aliases).len() > 0 {
            assert(now == before.push(parts.last()));
            assert forall|i: int| 0 <= i < now.len() implies #[trigger] now[i].len() > 0 by {
                if i < before.len() {
                    assert(now[i] == before[i]);
                }
            }
        } else {
            assert(now == before);
        }
    }
}

/// A parent folder that names a route decides the route, whatever the
/// script's ending names.
pub proof fn lemma_folder_route_wins(
    parts: Seq<Seq<char>>,
    file_name: Seq<char>,
    build_folder: Seq<char>,
    aliases: Seq<(Seq<char>, Seq<char>)>,
)
    requires
        folder_walk(parts, aliases).has_folder_route,
    ensures
        routed(parts, file_name, build_folder, aliases) matches Some(v) ==> v.route == folder_walk(
            parts,
            aliases,
        ).route,
{
}

/// Without a routing folder, a script whose ending names a route goes to that
/// route; with neither, it goes to `ReplicatedStorage`.
pub proof fn lemma_suffix_route_used(
    parts: Seq<Seq<char>>,
    file_name: Seq<char>,
    build_folder: Seq<char>,
    aliases: Seq<(Seq<char>, Seq<char>)>,
)
    requires
        !folder_walk(parts, aliases).has_folder_route,
    ensures
        routed(parts, file_name, build_folder, aliases) matches Some(v) ==> match suffix_route(
            file_stem_of(file_name),
            aliases,
        ) {
            Some((sr, _k)) => v.route == if sr.len() > 0 {
                sr
            } else {
                "ReplicatedStorage"@
            },
            None => false,
        },
    decreases parts.len(),
{
    if parts.len() > 0 {
        lemma_suffix_route_used(parts.drop_last(), file_name, build_folder, aliases);
    }
}

} // verus!
