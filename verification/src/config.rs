//! The `.roflow.json` configuration: its default text, the fields a build
//! reads from it, and the aliases it declares.

use vstd::prelude::*;

use crate::json::get_field;
use crate::json::json_field;
use crate::json::json_keys_distinct;
use crate::json::lemma_member_position;
use crate::json::member_position;
use crate::json::json_view;
use crate::json::members_view;
use crate::json::parse_json;
use crate::json::parsed_json;
use crate::json::JsonValue;
use crate::json::JsonView;
use crate::routing::key_position;
use crate::routing::with_alias;
use crate::routing::AliasMap;

verus! {

/// The fields of the configuration that the tool reads. A field that is
/// missing, or not of the expected JSON type, is `None`. `aliases` is `Some`
/// when the `aliases` field is an object: its entries in order, each with its
/// value when that is a string.
pub struct ConfigFields {
    pub source: Option<String>,
    pub build: Option<String>,
    pub output: Option<String>,
    pub include_rojo: Option<bool>,
    pub aliases: Option<Vec<(String, Option<String>)>>,
}

/// The text that `roflow init` writes.
pub open spec fn default_config_text() -> Seq<char> {
    "{\n\t\"source\": \"src\",\n\t\"build\": \"src\",\n\t\"output\": \"default.project.json\",\n\t\"includeRojo\": false,\n\t\"aliases\": {\n\t\t\"Controller\": \"ReplicatedStorage/Client\",\n\t\t\"Service\": \"ServerScriptService\"\n\t}\n}"@
}

/// The text of a fresh configuration: sources and build in `src`, output to
/// `default.project.json`, no Rojo, and the aliases `Controller` (to
/// `ReplicatedStorage/Client`) and `Service` (to `ServerScriptService`).
pub fn default_config() -> (r: &'static str)
    ensures
        r@ == default_config_text(),
{
    "{\n\t\"source\": \"src\",\n\t\"build\": \"src\",\n\t\"output\": \"default.project.json\",\n\t\"includeRojo\": false,\n\t\"aliases\": {\n\t\t\"Controller\": \"ReplicatedStorage/Client\",\n\t\t\"Service\": \"ServerScriptService\"\n\t}\n}"
}

/// The plain view of the alias entries of a configuration.
pub open spec fn alias_fields(v: Seq<(String, Option<String>)>) -> Seq<(Seq<char>, Option<Seq<char>>)> {
    v.map_values(
        |e: (String, Option<String>)|
            (
                e.0@,
                match e.1 {
                    Some(r) => Some(r@),
                    None => None,
                },
            ),
    )
}

/// The alias table that configuration entries declare: each entry whose
/// value is a non-empty text sets its key to that route, in order; the other
/// entries are skipped.
pub open spec fn collect_aliases(fields: Seq<(Seq<char>, Option<Seq<char>>)>) -> Seq<
    (Seq<char>, Seq<char>),
>
    decreases fields.len(),
{
    if fields.len() == 0 {
        Seq::empty()
    } else {
        let prev = collect_aliases(fields.drop_last());
        let (k, v) = fields.last();
        match v {
            Some(r) => if r.len() > 0 {
                with_alias(prev, k, r)
            } else {
                prev
            },
            None => prev,
        }
    }
}

/// No two alias entries have the same key.
pub open spec fn field_keys_distinct(fields: Seq<(Seq<char>, Option<Seq<char>>)>) -> bool {
    forall|a: int, b: int| 0 <= a < b < fields.len() ==> fields[a].0 != fields[b].0
}

/// The alias entries whose value is a non-empty text, with that text, in
/// order.
pub open spec fn text_aliases(fields: Seq<(Seq<char>, Option<Seq<char>>)>) -> Seq<
    (Seq<char>, Seq<char>),
>
    decreases fields.len(),
{
    if fields.len() == 0 {
        Seq::empty()
    } else {
        let prev = text_aliases(fields.drop_last());
        let (k, v) = fields.last();
        match v {
            Some(r) => if r.len() > 0 {
                prev.push((k, r))
            } else {
                prev
            },
            None => prev,
        }
    }
}

proof fn lemma_text_aliases_lack(fields: Seq<(Seq<char>, Option<Seq<char>>)>, k: Seq<char>)
    requires
        forall|j: int| 0 <= j < fields.len() ==> #[trigger] fields[j].0 != k,
    ensures
        key_position(text_aliases(fields), k) is None,
    decreases fields.len(),
{
    if fields.len() > 0 {
        let prev = fields.drop_last();
        assert forall|j: int| 0 <= j < prev.len() implies #[trigger] prev[j].0 != k by {
            assert(prev[j] == fields[j]);
        }
        lemma_text_aliases_lack(prev, k);
        assert(fields.last() == fields[fields.len() - 1]);
        let t = text_aliases(prev);
        if let Some(r) = fields.last().1 {
            if r.len() > 0 {
                assert(t.push((fields.last().0, r)).drop_last() =~= t);
            }
        }
    }
}

/// With distinct keys, the alias table holds exactly the entries whose value
/// is a non-empty text, each with that text, in order.
pub proof fn lemma_distinct_aliases_collected(fields: Seq<(Seq<char>, Option<Seq<char>>)>)
    requires
        field_keys_distinct(fields),
    ensures
        collect_aliases(fields) == text_aliases(fields),
    decreases fields.len(),
{
    if fields.len() > 0 {
        let prev = fields.drop_last();
        assert forall|a: int, b: int| 0 <= a < b < prev.len() implies prev[a].0 != prev[b].0 by {
            assert(prev[a] == fields[a] && prev[b] == fields[b]);
        }
        lemma_distinct_aliases_collected(prev);
        let k = fields.last().0;
        assert forall|j: int| 0 <= j < prev.len() implies #[trigger] prev[j].0 != k by {
            assert(prev[j] == fields[j]);
            assert(fields.last() == fields[fields.len() - 1]);
        }
        lemma_text_aliases_lack(prev, k);
    }
}

/// The aliases that a configuration declares, as `collect_aliases` says; an
/// empty table when `aliases` is not an object. With distinct keys (as in a
/// parsed configuration), exactly the entries with a non-empty text value.
pub fn get_aliases(config: &ConfigFields) -> (m: AliasMap)
    ensures
        m.wf(),
        m@ == match config.aliases {
            Some(v) => collect_aliases(alias_fields(v@)),
            None => Seq::empty(),
        },
        config.aliases matches Some(v) ==> (field_keys_distinct(alias_fields(v@)) ==> m@
            == text_aliases(alias_fields(v@))),
{
    proof {
        if config.aliases is Some {
            let fv = alias_fields(config.aliases->0@);
            if field_keys_distinct(fv) {
                lemma_distinct_aliases_collected(fv);
            }
        }
    }
    let mut m = AliasMap::new();
    match &config.aliases {
        None => m,
        Some(fields) => {
            let ghost fv = alias_fields(fields@);
            let mut i: usize = 0;
            assert(fv.take(0) =~= Seq::<(Seq<char>, Option<Seq<char>>)>::empty());
            while i < fields.len()
                invariant
                    fv == alias_fields(fields@),
                    i <= fields@.len(),
                    m.wf(),
                    m@ == collect_aliases(fv.take(i as int)),
                decreases fields.len() - i,
            {
                assert(fv.take(i + 1).drop_last() =~= fv.take(i as int));
                assert(fv.take(i + 1).last() == fv[i as int]);
                match &fields[i].1 {
                    Some(route) => {
                        if !route.as_str().is_empty() {
                            m.insert(fields[i].0.as_str(), route.as_str());
                        }
                    },
                    None => {},
                }
                i = i + 1;
            }
            assert(fv.take(fields.len() as int) =~= fv);
            m
        },
    }
}

/// Every route that configuration entries declare is non-empty, and keys
/// do not repeat.
pub proof fn lemma_collected_aliases_nonempty(fields: Seq<(Seq<char>, Option<Seq<char>>)>)
    ensures
        forall|i: int|
            0 <= i < collect_aliases(fields).len() ==> (#[trigger] collect_aliases(fields)[i]).1.len()
                > 0,
    decreases fields.len(),
{
    if fields.len() > 0 {
        let prev = collect_aliases(fields.drop_last());
        lemma_collected_aliases_nonempty(fields.drop_last());
        let (k, v) = fields.last();
        if let Some(r) = v {
            if r.len() > 0 {
                crate::routing::lemma_key_position(prev, k);
                let now = collect_aliases(fields);
                assert forall|i: int| 0 <= i < now.len() implies (#[trigger] now[i]).1.len() > 0 by {
                    if i < prev.len() && now[i] != (k, r) {
                        assert(now[i] == prev[i]);
                    }
                }
            }
        }
    }
}

/// Where a build reads, writes its paths from, and writes to.
pub struct BuildSettings {
    /// The folder scanned for scripts.
    pub source: String,
    /// The folder that paths in the project file start with.
    pub build_folder: String,
    /// The project file written.
    pub output_file: String,
}

/// A configured text, or a fallback.
pub open spec fn text_or(v: Option<String>, fallback: Seq<char>) -> Seq<char> {
    match v {
        Some(s) => s@,
        None => fallback,
    }
}

fn text_or_else(v: &Option<String>, fallback: &str) -> (r: String)
    ensures
        r@ == text_or(*v, fallback@),
{
    match v {
        Some(s) => s.clone(),
        None => fallback.to_owned(),
    }
}

/// The folders and output of a build: `source` defaults to `src`, `build`
/// to the source folder, `output` to `default.project.json`.
pub fn build_settings(config: &ConfigFields) -> (s: BuildSettings)
    ensures
        s.source@ == text_or(config.source, "src"@),
        s.build_folder@ == text_or(config.build, s.source@),
        s.output_file@ == text_or(config.output, "default.project.json"@),
{
    let source = text_or_else(&config.source, "src");
    let build_folder = text_or_else(&config.build, source.as_str());
    let output_file = text_or_else(&config.output, "default.project.json");
    BuildSettings { source, build_folder, output_file }
}

/// Does `roflow serve` also start Rojo? When asked on the command line, or
/// when the configuration's `includeRojo` is `true`.
pub fn serve_includes_rojo(requested: bool, config: &ConfigFields) -> (r: bool)
    ensures
        r == (requested || config.include_rojo == Some(true)),
{
    requested || match config.include_rojo {
        Some(b) => b,
        None => false,
    }
}

/// The text of a JSON value that is a string.
pub open spec fn text_value(v: JsonView) -> Option<Seq<char>> {
    match v {
        JsonView::Text(s) => Some(s),
        _ => None,
    }
}

/// The member `k` of a configuration when it is a string.
pub open spec fn text_member(j: JsonView, k: Seq<char>) -> Option<Seq<char>> {
    match json_field(j, k) {
        Some(v) => text_value(v),
        None => None,
    }
}

/// The member `k` of a configuration when it is a boolean.
pub open spec fn bool_member(j: JsonView, k: Seq<char>) -> Option<bool> {
    match json_field(j, k) {
        Some(JsonView::Bool(b)) => Some(b),
        _ => None,
    }
}

/// The entries of the `aliases` member when it is an object, in order, each
/// with its value when that is a string.
pub open spec fn alias_members(j: JsonView) -> Option<Seq<(Seq<char>, Option<Seq<char>>)>> {
    match json_field(j, "aliases"@) {
        Some(JsonView::Object(ms)) => Some(
            ms.map_values(|m: (Seq<char>, JsonView)| (m.0, text_value(m.1))),
        ),
        _ => None,
    }
}

/// The plain view of an optional text.
pub open spec fn opt_text(v: Option<String>) -> Option<Seq<char>> {
    match v {
        Some(s) => Some(s@),
        None => None,
    }
}

fn text_of(v: Option<&JsonValue>) -> (r: Option<String>)
    ensures
        opt_text(r) == match v {
            Some(j) => text_value(json_view(*j)),
            None => None,
        },
{
    match v {
        Some(JsonValue::Text(s)) => Some(s.clone()),
        _ => None,
    }
}

/// The fields that the tool reads from a parsed configuration: `source`,
/// `build` and `output` when they are strings, `includeRojo` when it is a
/// boolean, and the entries of `aliases` when it is an object (each with
/// its value when that is a string). A configuration that is not an object
/// has none of them.
pub fn config_fields_of(json: &JsonValue) -> (c: ConfigFields)
    ensures
        opt_text(c.source) == text_member(json_view(*json), "source"@),
        opt_text(c.build) == text_member(json_view(*json), "build"@),
        opt_text(c.output) == text_member(json_view(*json), "output"@),
        c.include_rojo == bool_member(json_view(*json), "includeRojo"@),
        match c.aliases {
            Some(v) => alias_members(json_view(*json)) == Some(alias_fields(v@)),
            None => alias_members(json_view(*json)) is None,
        },
{
    let source = text_of(get_field(json, "source"));
    let build = text_of(get_field(json, "build"));
    let output = text_of(get_field(json, "output"));
    let include_rojo = match get_field(json, "includeRojo") {
        Some(JsonValue::Bool(b)) => Some(*b),
        _ => None,
    };
    let aliases = match get_field(json, "aliases") {
        Some(JsonValue::Object(ms)) => {
            let ghost mv = members_view(ms@);
            let mut entries: Vec<(String, Option<String>)> = Vec::new();
            let mut i: usize = 0;
            while i < ms.len()
                invariant
                    mv == members_view(ms@),
                    i <= ms@.len(),
                    alias_fields(entries@) == mv.take(i as int).map_values(
                        |m: (Seq<char>, JsonView)| (m.0, text_value(m.1)),
                    ),
                decreases ms.len() - i,
            {
                let ghost before = entries@;
                let entry = (ms[i].0.clone(), text_of(Some(&ms[i].1)));
                entries.push(entry);
                assert(mv[i as int] == (ms@[i as int].0@, json_view(ms@[i as int].1)));
                assert(alias_fields(entries@) =~= alias_fields(before).push(
                    (entry.0@, opt_text(entry.1)),
                ));
                assert(mv.take(i + 1).map_values(|m: (Seq<char>, JsonView)| (m.0, text_value(m.1)))
                    =~= mv.take(i as int).map_values(
                    |m: (Seq<char>, JsonView)| (m.0, text_value(m.1)),
                ).push((mv[i as int].0, text_value(mv[i as int].1))));
                assert(alias_fields(entries@) =~= mv.take(i + 1).map_values(
                    |m: (Seq<char>, JsonView)| (m.0, text_value(m.1)),
                ));
                i = i + 1;
            }
            assert(mv.take(ms.len() as int) =~= mv);
            Some(entries)
        },
        _ => None,
    };
    ConfigFields { source, build, output, include_rojo, aliases }
}

/// The fields of a configuration text: its JSON parse read by
/// `config_fields_of`; `None` where the text is not JSON.
pub fn parse_config(text: &str) -> (r: Option<ConfigFields>)
    ensures
        r is None <==> parsed_json(text@) is None,
        r matches Some(c) ==> ({
            let j = parsed_json(text@)->0;
            &&& opt_text(c.source) == text_member(j, "source"@)
            &&& opt_text(c.build) == text_member(j, "build"@)
            &&& opt_text(c.output) == text_member(j, "output"@)
            &&& c.include_rojo == bool_member(j, "includeRojo"@)
            &&& match c.aliases {
                Some(v) => alias_members(j) == Some(alias_fields(v@)),
                None => alias_members(j) is None,
            }
            &&& c.aliases matches Some(v) ==> field_keys_distinct(alias_fields(v@))
        }),
{
    match parse_json(text) {
        Some(json) => {
            let c = config_fields_of(&json);
            proof {
                let j = json_view(json);
                if let Some(JsonView::Object(ms)) = json_field(j, "aliases"@) {
                    if let JsonView::Object(top) = j {
                        lemma_member_position(top, "aliases"@);
                        let p = member_position(top, "aliases"@)->0;
                        assert(json_keys_distinct(top[p].1));
                    }
                    let v = c.aliases->0;
                    assert(alias_fields(v@) == ms.map_values(
                        |m: (Seq<char>, JsonView)| (m.0, text_value(m.1)),
                    ));
                    assert forall|a: int, b: int|
                        0 <= a < b < alias_fields(v@).len() implies alias_fields(v@)[a].0
                        != alias_fields(v@)[b].0 by {
                        assert(alias_fields(v@)[a].0 == ms[a].0);
                        assert(alias_fields(v@)[b].0 == ms[b].0);
                    }
                }
            }
            Some(c)
        },
        None => None,
    }
}

} // verus!
