//! Which files are scripts, which scripts stand for their folder, and what a
//! scan of one folder keeps.

use vstd::prelude::*;
use vstd::utf8::is_ascii_chars;

use crate::text::ascii_lowercase;
use crate::text::ends_with;
use crate::text::ends_with_str;
use crate::text::file_stem;
use crate::text::file_stem_of;
use crate::text::lowercase;
use crate::text::starts_with;
use crate::text::starts_with_str;
use crate::text::str_eq;
use crate::text::to_lower;

verus! {

/// A lowercase file name ends in one of the script extensions.
pub open spec fn source_extension(lower_name: Seq<char>) -> bool {
    ||| ends_with(lower_name, ".luau"@)
    ||| ends_with(lower_name, ".lua"@)
    ||| ends_with(lower_name, ".rbxm"@)
    ||| ends_with(lower_name, ".rbxmx"@)
}

/// A lowercase file stem marks the script that stands for its folder.
pub open spec fn init_stem(lower_stem: Seq<char>) -> bool {
    ||| lower_stem == "init"@
    ||| lower_stem == "index"@
    ||| starts_with(lower_stem, "init."@)
    ||| starts_with(lower_stem, "index."@)
    ||| starts_with(lower_stem, "init-"@)
    ||| starts_with(lower_stem, "index-"@)
    ||| starts_with(lower_stem, "init_"@)
    ||| starts_with(lower_stem, "index_"@)
}

/// A file name is a script.
pub open spec fn valid_source(name: Seq<char>) -> bool {
    source_extension(lowercase(name))
}

/// A file name is a script that stands for its folder.
pub open spec fn init_file(name: Seq<char>) -> bool {
    valid_source(name) && init_stem(lowercase(file_stem_of(name)))
}

/// Does a lowercase file name end in a script extension?
pub fn has_source_extension(lower_name: &str) -> (r: bool)
    ensures
        r == source_extension(lower_name@),
{
    ends_with_str(lower_name, ".luau") || ends_with_str(lower_name, ".lua") || ends_with_str(
        lower_name,
        ".rbxm",
    ) || ends_with_str(lower_name, ".rbxmx")
}

/// Is the file with this name a script (`.luau`, `.lua`, `.rbxm`, `.rbxmx`,
/// in any case)?
pub fn is_valid_source(file_name: &str) -> (r: bool)
    ensures
        r == valid_source(file_name@),
        is_ascii_chars(file_name@) ==> r == source_extension(ascii_lowercase(file_name@)),
{
    let lower = to_lower(file_name);
    has_source_extension(lower.as_str())
}

/// Is a lowercase stem one that marks the script standing for its folder?
pub fn is_init_stem(lower_stem: &str) -> (r: bool)
    ensures
        r == init_stem(lower_stem@),
{
    str_eq(lower_stem, "init") || str_eq(lower_stem, "index") || starts_with_str(
        lower_stem,
        "init.",
    ) || starts_with_str(lower_stem, "index.") || starts_with_str(lower_stem, "init-")
        || starts_with_str(lower_stem, "index-") || starts_with_str(lower_stem, "init_")
        || starts_with_str(lower_stem, "index_")
}

/// Is the file with this name a script whose stem is `init` or `index`, or
/// begins with one of them followed by `.`, `-` or `_` (in any case)?
pub fn is_init_file(file_name: &str) -> (r: bool)
    ensures
        r == init_file(file_name@),
{
    if !is_valid_source(file_name) {
        return false;
    }
    let stem = file_stem(file_name);
    let lower = to_lower(stem);
    is_init_stem(lower.as_str())
}

/// A script that stands for its folder is a script.
pub proof fn lemma_init_file_is_source(name: Seq<char>)
    ensures
        init_file(name) ==> valid_source(name),
{
}

/// A file is a script exactly when its lowercase name ends in `.luau`,
/// `.lua`, `.rbxm` or `.rbxmx`; so a name ending in `.json` (such as a
/// `.meta.json` file) or `.txt` is never a script.
pub proof fn lemma_script_names(name: Seq<char>)
    ensures
        valid_source(name) <==> ({
            let l = lowercase(name);
            ||| ends_with(l, ".luau"@)
            ||| ends_with(l, ".lua"@)
            ||| ends_with(l, ".rbxm"@)
            ||| ends_with(l, ".rbxmx"@)
        }),
        ends_with(lowercase(name), ".json"@) ==> !valid_source(name),
        ends_with(lowercase(name), ".txt"@) ==> !valid_source(name),
{
    reveal_strlit(".luau");
    reveal_strlit(".lua");
    reveal_strlit(".rbxm");
    reveal_strlit(".rbxmx");
    reveal_strlit(".json");
    reveal_strlit(".txt");
    assert(".luau"@.len() == 5 && ".luau"@[4] == 'u');
    assert(".lua"@.len() == 4 && ".lua"@[3] == 'a');
    assert(".rbxm"@.len() == 5 && ".rbxm"@[4] == 'm');
    assert(".rbxmx"@.len() == 6 && ".rbxmx"@[5] == 'x');
    assert(".json"@.len() == 5 && ".json"@[4] == 'n');
    assert(".txt"@.len() == 4 && ".txt"@[3] == 't');
    let l = lowercase(name);
    if ends_with(l, ".json"@) || ends_with(l, ".txt"@) {
        let n = l.len() - 1;
        if ends_with(l, ".json"@) {
            assert(l[n] == l.subrange(l.len() - 5, l.len() as int)[4]);
        } else {
            assert(l[n] == l.subrange(l.len() - 4, l.len() as int)[3]);
        }
        assert(l[n] == 'n' || l[n] == 't');
        if ends_with(l, ".luau"@) {
            assert(l[n] == l.subrange(l.len() - 5, l.len() as int)[4]);
        }
        if ends_with(l, ".lua"@) {
            assert(l[n] == l.subrange(l.len() - 4, l.len() as int)[3]);
        }
        if ends_with(l, ".rbxm"@) {
            assert(l[n] == l.subrange(l.len() - 5, l.len() as int)[4]);
        }
        if ends_with(l, ".rbxmx"@) {
            assert(l[n] == l.subrange(l.len() - 6, l.len() as int)[5]);
        }
    }
}

/// `s` is `base`, or begins with `base` followed by `.`, `-` or `_`.
pub open spec fn is_base_or_dotted(s: Seq<char>, base: Seq<char>) -> bool {
    ||| s == base
    ||| s.len() > base.len() && s.subrange(0, base.len() as int) == base && (s[base.len() as int]
        == '.' || s[base.len() as int] == '-' || s[base.len() as int] == '_')
}

proof fn lemma_dotted_prefix(s: Seq<char>, base: Seq<char>, sep: char)
    ensures
        starts_with(s, base + seq![sep]) <==> (s.len() > base.len() && s.subrange(0, base.len() as int)
            == base && s[base.len() as int] == sep),
{
    let b2 = base + seq![sep];
    if starts_with(s, b2) {
        assert(s.subrange(0, base.len() as int) =~= b2.subrange(0, base.len() as int));
        assert(b2.subrange(0, base.len() as int) =~= base);
        assert(s[base.len() as int] == s.subrange(0, b2.len() as int)[base.len() as int]);
    }
    if s.len() > base.len() && s.subrange(0, base.len() as int) == base && s[base.len() as int]
        == sep {
        assert forall|i: int| 0 <= i < b2.len() implies s.subrange(0, b2.len() as int)[i] == b2[i] by {
            if i < base.len() {
                assert(s.subrange(0, base.len() as int)[i] == s[i]);
            }
        }
        assert(s.subrange(0, b2.len() as int) =~= b2);
    }
}

/// A lowercase stem marks an init script exactly when it is `init` or
/// `index`, or begins with one of them followed by `.`, `-` or `_`.
pub proof fn lemma_init_stem_forms(s: Seq<char>)
    ensures
        init_stem(s) <==> is_base_or_dotted(s, "init"@) || is_base_or_dotted(s, "index"@),
{
    reveal_strlit("init");
    reveal_strlit("index");
    reveal_strlit("init.");
    reveal_strlit("init-");
    reveal_strlit("init_");
    reveal_strlit("index.");
    reveal_strlit("index-");
    reveal_strlit("index_");
    assert("init."@ =~= "init"@ + seq!['.']);
    assert("init-"@ =~= "init"@ + seq!['-']);
    assert("init_"@ =~= "init"@ + seq!['_']);
    assert("index."@ =~= "index"@ + seq!['.']);
    assert("index-"@ =~= "index"@ + seq!['-']);
    assert("index_"@ =~= "index"@ + seq!['_']);
    lemma_dotted_prefix(s, "init"@, '.');
    lemma_dotted_prefix(s, "init"@, '-');
    lemma_dotted_prefix(s, "init"@, '_');
    lemma_dotted_prefix(s, "index"@, '.');
    lemma_dotted_prefix(s, "index"@, '-');
    lemma_dotted_prefix(s, "index"@, '_');
}

/// A script whose lowercase stem is `init` or `index`, or begins with one of
/// them followed by `.`, `-` or `_`, stands for its folder.
pub proof fn lemma_init_and_index_files(name: Seq<char>)
    requires
        valid_source(name),
        is_base_or_dotted(lowercase(file_stem_of(name)), "init"@) || is_base_or_dotted(
            lowercase(file_stem_of(name)),
            "index"@,
        ),
    ensures
        init_file(name),
{
    lemma_init_stem_forms(lowercase(file_stem_of(name)));
}

/// One entry of a folder listing, as the file system reports it.
pub struct DirEntryInfo {
    pub name: String,
    pub is_file: bool,
    pub is_dir: bool,
}

/// What to do with one entry of a folder that has no init script.
#[derive(Clone, Copy, PartialEq, Eq, Debug)]
pub enum ScanStep {
    /// Scan the sub-folder at this position of the listing.
    Descend(usize),
    /// Keep the script at this position of the listing.
    Collect(usize),
}

/// What a scan of one folder yields.
pub enum ScanPlan {
    /// The folder is represented by the init script at this position alone.
    InitFile(usize),
    /// The folder is walked, entry by entry.
    Walk(Vec<ScanStep>),
}

/// The listing as name, is-file and is-folder.
pub open spec fn listing_view(entries: Seq<DirEntryInfo>) -> Seq<(Seq<char>, bool, bool)> {
    entries.map_values(|e: DirEntryInfo| (e.name@, e.is_file, e.is_dir))
}

/// Position of the first file of the listing that is an init script.
pub open spec fn first_init_file(listing: Seq<(Seq<char>, bool, bool)>) -> Option<int>
    decreases listing.len(),
{
    if listing.len() == 0 {
        None
    } else {
        match first_init_file(listing.drop_last()) {
            Some(i) => Some(i),
            None => if listing.last().1 && init_file(listing.last().0) {
                Some(listing.len() - 1)
            } else {
                None
            },
        }
    }
}

/// The steps of a walk: each folder is descended into, each other entry that
/// is a script is kept, in listing order.
pub open spec fn walk_steps(listing: Seq<(Seq<char>, bool, bool)>) -> Seq<ScanStep>
    decreases listing.len(),
{
    if listing.len() == 0 {
        Seq::empty()
    } else {
        let prev = walk_steps(listing.drop_last());
        let last = listing.last();
        if last.2 {
            prev.push(ScanStep::Descend((listing.len() - 1) as usize))
        } else if valid_source(last.0) {
            prev.push(ScanStep::Collect((listing.len() - 1) as usize))
        } else {
            prev
        }
    }
}

/// Decides what a scan of one folder yields from its listing: the first
/// file that is an init script alone, if there is one; otherwise every
/// sub-folder to descend into and every script to keep, in listing order.
pub fn scan_folder_plan(entries: &Vec<DirEntryInfo>) -> (plan: ScanPlan)
    ensures
        match plan {
            ScanPlan::InitFile(i) => first_init_file(listing_view(entries@)) == Some(i as int),
            ScanPlan::Walk(steps) => first_init_file(listing_view(entries@)) is None && steps@
                == walk_steps(listing_view(entries@)),
        },
{
    let ghost lv = listing_view(entries@);
    let n = entries.len();
    let mut i: usize = 0;
    while i < n
        invariant
            n == entries@.len(),
            lv == listing_view(entries@),
            i <= n,
            first_init_file(lv.take(i as int)) is None,
        decreases n - i,
    {
        assert(lv.take(i + 1).drop_last() =~= lv.take(i as int));
        if entries[i].is_file && is_init_file(entries[i].name.as_str()) {
            assert(first_init_file(lv.take(i + 1)) == Some(i as int));
            proof {
                lemma_first_init_prefix(lv, (i + 1) as int);
            }
            return ScanPlan::InitFile(i);
        }
        i = i + 1;
    }
    assert(lv.take(n as int) =~= lv);
    let mut steps: Vec<ScanStep> = Vec::new();
    let mut j: usize = 0;
    while j < n
        invariant
            n == entries@.len(),
            lv == listing_view(entries@),
            j <= n,
            steps@ == walk_steps(lv.take(j as int)),
        decreases n - j,
    {
        assert(lv.take(j + 1).drop_last() =~= lv.take(j as int));
        if entries[j].is_dir {
            steps.push(ScanStep::Descend(j));
        } else if is_valid_source(entries[j].name.as_str()) {
            steps.push(ScanStep::Collect(j));
        }
        j = j + 1;
    }
    assert(lv.take(n as int) =~= lv);
    ScanPlan::Walk(steps)
}

/// An init script found in a prefix of the listing is the first one of the
/// whole listing.
proof fn lemma_first_init_prefix(listing: Seq<(Seq<char>, bool, bool)>, k: int)
    requires
        0 <= k <= listing.len(),
        first_init_file(listing.take(k)) is Some,
    ensures
        first_init_file(listing) == first_init_file(listing.take(k)),
    decreases listing.len() - k,
{
    if k < listing.len() {
        assert(listing.take(k + 1).drop_last() =~= listing.take(k));
        lemma_first_init_prefix(listing, k + 1);
    } else {
        assert(listing.take(k) =~= listing);
    }
}

/// The walk keeps only scripts that are not folders and descends only into
/// folders, each step naming a position of the listing.
pub proof fn lemma_walk_steps_sound(listing: Seq<(Seq<char>, bool, bool)>)
    requires
        listing.len() <= usize::MAX,
    ensures
        forall|k: int|
            0 <= k < walk_steps(listing).len() ==> match #[trigger] walk_steps(listing)[k] {
                ScanStep::Descend(i) => i < listing.len() && listing[i as int].2,
                ScanStep::Collect(i) => i < listing.len() && !listing[i as int].2 && valid_source(
                    listing[i as int].0,
                ),
            },
    decreases listing.len(),
{
    if listing.len() > 0 {
        let prefix = listing.drop_last();
        lemma_walk_steps_sound(prefix);
        assert forall|k: int| 0 <= k < walk_steps(listing).len() implies match #[trigger] walk_steps(
            listing,
        )[k] {
            ScanStep::Descend(i) => i < listing.len() && listing[i as int].2,
            ScanStep::Collect(i) => i < listing.len() && !listing[i as int].2 && valid_source(
                listing[i as int].0,
            ),
        } by {
            if k < walk_steps(prefix).len() {
                assert(walk_steps(listing)[k] == walk_steps(prefix)[k]);
                match walk_steps(prefix)[k] {
                    ScanStep::Descend(i) => assert(listing[i as int] == prefix[i as int]),
                    ScanStep::Collect(i) => assert(listing[i as int] == prefix[i as int]),
                }
            }
        }
    }
}

/// The init script that a scan picks is a file of the listing that is an
/// init script, and no earlier file is one.
pub proof fn lemma_first_init_file_sound(listing: Seq<(Seq<char>, bool, bool)>)
    ensures
        first_init_file(listing) matches Some(i) ==> 0 <= i < listing.len() && listing[i].1
            && init_file(listing[i].0) && forall|j: int|
            0 <= j < i ==> !(#[trigger] listing[j].1 && init_file(listing[j].0)),
        first_init_file(listing) is None ==> forall|j: int|
            0 <= j < listing.len() ==> !(#[trigger] listing[j].1 && init_file(listing[j].0)),
    decreases listing.len(),
{
    if listing.len() > 0 {
        let prefix = listing.drop_last();
        lemma_first_init_file_sound(prefix);
        assert forall|j: int| 0 <= j < prefix.len() implies prefix[j] == listing[j] by {}
    }
}

} // verus!
