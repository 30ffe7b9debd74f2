//! The route that a file's stem names by its ending: a word after the last
//! `.`, `-` or `_`, or a known word glued to the end of the stem.
//!
//! Positions here are byte positions, as in `str`: the separator is sought in
//! the lowercase stem and the stem itself is cut at that position.

use vstd::prelude::*;
use vstd::utf8::decode_utf8;
use vstd::utf8::encode_utf8;
use vstd::utf8::group_utf8_lib;
use vstd::utf8::is_char_boundary;

use crate::routing::is_builtin_word;
use crate::routing::first_alias_route;
use crate::routing::route_for_word;
use crate::routing::route_from_word;
use crate::routing::AliasMap;
use crate::text::ends_with;
use crate::text::ends_with_str;
use crate::text::last_byte_index;
use crate::text::last_index_of_byte;
use crate::text::ascii_lowercase;
use crate::text::lowercase;
use crate::text::to_lower;
use vstd::utf8::is_ascii_chars;

verus! {

broadcast use group_utf8_lib;

/// The words that may be glued to the end of a stem, before the aliases.
pub open spec fn builtin_suffixes() -> Seq<Seq<char>> {
    seq![
        "Server"@,
        "Client"@,
        "Shared"@,
        "Player"@,
        "Character"@,
        "ServerScriptService"@,
        "ReplicatedStorage"@,
        "ReplicatedFirst"@,
        "ServerStorage"@,
        "StarterGui"@,
        "StarterPack"@,
        "StarterPlayerScripts"@,
        "StarterCharacterScripts"@,
    ]
}

/// Every word that may be glued to the end of a stem, in the order tried:
/// the built-in words, then the alias keys in table order.
pub open spec fn suffix_candidates(aliases: Seq<(Seq<char>, Seq<char>)>) -> Seq<Seq<char>> {
    builtin_suffixes() + aliases.map_values(|e: (Seq<char>, Seq<char>)| e.0)
}

/// The first candidate that the stem ends with (case kept), that is shorter
/// than the stem, and that names a route: that route and the candidate's
/// length in bytes; the empty route and 0 when there is none.
pub open spec fn glued_suffix_route(
    stem: Seq<char>,
    candidates: Seq<Seq<char>>,
    aliases: Seq<(Seq<char>, Seq<char>)>,
) -> (Seq<char>, int)
    decreases candidates.len(),
{
    if candidates.len() == 0 {
        (Seq::empty(), 0)
    } else {
        let c = candidates[0];
        if ends_with(stem, c) && encode_utf8(stem).len() > encode_utf8(c).len() && route_for_word(
            c,
            aliases,
        ).len() > 0 {
            (route_for_word(c, aliases), encode_utf8(c).len() as int)
        } else {
            glued_suffix_route(stem, candidates.drop_first(), aliases)
        }
    }
}

/// The separators tried, in order: `.`, `-`, `_`.
pub open spec fn separators() -> Seq<u8> {
    seq![46u8, 45u8, 95u8]
}

/// The suffix route of a stem whose lowercase form is `lower`, trying the
/// separators in `seps` before the glued words. For a separator found at byte
/// `i` of the lowercase stem, the word is the stem from byte `i + 1`; when
/// that byte is not a character boundary of the stem (or lies past its end),
/// cutting the stem there fails and the result is `None`. A word that names a
/// route gives that route and the length `stem bytes - i`.
pub open spec fn separated_suffix_route(
    stem: Seq<char>,
    lower: Seq<char>,
    seps: Seq<u8>,
    aliases: Seq<(Seq<char>, Seq<char>)>,
) -> Option<(Seq<char>, int)>
    decreases seps.len(),
{
    if seps.len() == 0 {
        Some(glued_suffix_route(stem, suffix_candidates(aliases), aliases))
    } else {
        let sb = encode_utf8(stem);
        match last_byte_index(encode_utf8(lower), seps[0]) {
            None => separated_suffix_route(stem, lower, seps.drop_first(), aliases),
            Some(i) => if !is_char_boundary(sb, i + 1) {
                None
            } else {
                let r = route_for_word(decode_utf8(sb.subrange(i + 1, sb.len() as int)), aliases);
                if r.len() > 0 {
                    Some((r, sb.len() - i))
                } else {
                    separated_suffix_route(stem, lower, seps.drop_first(), aliases)
                }
            },
        }
    }
}

/// The suffix route of a stem, given its lowercase form.
pub open spec fn suffix_route_lowered(
    stem: Seq<char>,
    lower: Seq<char>,
    aliases: Seq<(Seq<char>, Seq<char>)>,
) -> Option<(Seq<char>, int)> {
    separated_suffix_route(stem, lower, separators(), aliases)
}

/// The suffix route of a stem.
pub open spec fn suffix_route(stem: Seq<char>, aliases: Seq<(Seq<char>, Seq<char>)>) -> Option<
    (Seq<char>, int),
> {
    suffix_route_lowered(stem, lowercase(stem), aliases)
}

/// The plain view of a found suffix route.
pub open spec fn found_view(r: Option<(String, usize)>) -> Option<(Seq<char>, int)> {
    match r {
        Some((route, n)) => Some((route@, n as int)),
        None => None,
    }
}

/// The glued-word part of the search.
fn glued_suffix_route_of(stem: &str, aliases: &AliasMap) -> (r: (String, usize))
    requires
        aliases.wf(),
    ensures
        (r.0@, r.1 as int) == glued_suffix_route(stem@, suffix_candidates(aliases@), aliases@),
{
    let builtins: Vec<&str> = vec![
        "Server",
        "Client",
        "Shared",
        "Player",
        "Character",
        "ServerScriptService",
        "ReplicatedStorage",
        "ReplicatedFirst",
        "ServerStorage",
        "StarterGui",
        "StarterPack",
        "StarterPlayerScripts",
        "StarterCharacterScripts",
    ];
    let ghost cands = suffix_candidates(aliases@);
    let ghost nb = builtin_suffixes().len();
    assert(builtins@.map_values(|s: &str| s@) =~= builtin_suffixes());
    assert(cands.subrange(0, cands.len() as int) =~= cands);
    let mut k: usize = 0;
    while k < builtins.len()
        invariant
            aliases.wf(),
            cands == suffix_candidates(aliases@),
            builtins@.map_values(|s: &str| s@) == builtin_suffixes(),
            nb == builtins@.len(),
            k <= nb,
            glued_suffix_route(stem@, cands, aliases@) == glued_suffix_route(
                stem@,
                cands.subrange(k as int, cands.len() as int),
                aliases@,
            ),
        decreases builtins.len() - k,
    {
        let ghost rest = cands.subrange(k as int, cands.len() as int);
        assert(rest.drop_first() =~= cands.subrange(k + 1, cands.len() as int));
        assert(cands[k as int] == builtin_suffixes()[k as int]);
        assert(builtins@.map_values(|s: &str| s@)[k as int] == builtins@[k as int]@);
        assert(rest[0] == builtins@[k as int]@);
        let cand = builtins[k];
        if ends_with_str(stem, cand) && stem.as_bytes().len() > cand.as_bytes().len() {
            let route = route_from_word(cand, aliases);
            if !route.as_str().is_empty() {
                return (route, cand.as_bytes().len());
            }
        }
        k = k + 1;
    }
    let mut a: usize = 0;
    while a < aliases.len()
        invariant
            aliases.wf(),
            cands == suffix_candidates(aliases@),
            nb == 13,
            cands.len() == nb + aliases@.len(),
            a <= aliases@.len(),
            glued_suffix_route(stem@, cands, aliases@) == glued_suffix_route(
                stem@,
                cands.subrange(nb + a, cands.len() as int),
                aliases@,
            ),
        decreases aliases@.len() - a,
    {
        let ghost rest = cands.subrange(nb + a, cands.len() as int);
        assert(rest.drop_first() =~= cands.subrange(nb + a + 1, cands.len() as int));
        assert(cands[nb + a] == aliases@.map_values(|e: (Seq<char>, Seq<char>)| e.0)[a as int]);
        assert(rest[0] == aliases@[a as int].0);
        let cand = aliases.key_at(a);
        if ends_with_str(stem, cand) && stem.as_bytes().len() > cand.as_bytes().len() {
            let route = route_from_word(cand, aliases);
            if !route.as_str().is_empty() {
                return (route, cand.as_bytes().len());
            }
        }
        a = a + 1;
    }
    assert(cands.subrange(nb + a, cands.len() as int) =~= Seq::<Seq<char>>::empty());
    (String::new(), 0)
}

/// The suffix route of a stem whose lowercase form is `lower`: the route
/// and the length in bytes of the ending that names it, (`""`, 0) when no
/// ending names a route, and `None` where cutting the stem at a separator
/// found in `lower` falls inside a character or past the stem's end.
pub fn suffix_route_from_lowered(stem: &str, lower: &str, aliases: &AliasMap) -> (r: Option<
    (String, usize),
>)
    requires
        aliases.wf(),
    ensures
        found_view(r) == suffix_route_lowered(stem@, lower@, aliases@),
        is_ascii_chars(stem@) && lower@ == ascii_lowercase(stem@) ==> r is Some,
{
    proof {
        if is_ascii_chars(stem@) && lower@ == ascii_lowercase(stem@) {
            lemma_ascii_suffix_route(stem@, aliases@);
        }
    }
    let seps: Vec<u8> = vec![46u8, 45u8, 95u8];
    assert(seps@ =~= separators());
    let lb = lower.as_bytes();
    let sb = stem.as_bytes();
    let lbn = lb.len();
    assert(seps@.subrange(0, 3) =~= seps@);
    let mut s: usize = 0;
    while s < 3
        invariant
            aliases.wf(),
            seps@ == separators(),
            s <= 3,
            lb@ == encode_utf8(lower@),
            lbn == lb@.len(),
            sb@ == encode_utf8(stem@),
            is_ascii_chars(stem@) && lower@ == ascii_lowercase(stem@) ==> suffix_route_lowered(
                stem@,
                lower@,
                aliases@,
            ) is Some,
            suffix_route_lowered(stem@, lower@, aliases@) == separated_suffix_route(
                stem@,
                lower@,
                seps@.subrange(s as int, 3),
                aliases@,
            ),
        decreases 3 - s,
    {
        let ghost rest = seps@.subrange(s as int, 3);
        assert(rest.drop_first() =~= seps@.subrange(s + 1, 3));
        assert(rest[0] == seps@[s as int]);
        match last_index_of_byte(lb, seps[s]) {
            None => {},
            Some(i) => {
                proof {
                    crate::text::lemma_last_byte_index(lb@, seps@[s as int]);
                }
                assert(i < lbn);
                if !stem.is_char_boundary(i + 1) {
                    return None;
                }
                assert(i + 1 <= sb@.len());
                let (_head, tail) = stem.split_at(i + 1);
                assert(tail@ == decode_utf8(encode_utf8(tail@)));
                let route = route_from_word(tail, aliases);
                if !route.as_str().is_empty() {
                    return Some((route, sb.len() - i));
                }
            },
        }
        s = s + 1;
    }
    Some(glued_suffix_route_of(stem, aliases))
}

/// The route that a stem names by its ending, and the ending's length in
/// bytes: first a word after the last `.`, `-` or `_` (sought in that order
/// in the lowercase stem), then a known word or alias key glued to the end of
/// the stem; (`""`, 0) when none names a route. `None` where the stem cannot
/// be cut at the separator's position.
pub fn get_suffix_route(file_stem: &str, aliases: &AliasMap) -> (r: Option<(String, usize)>)
    requires
        aliases.wf(),
    ensures
        found_view(r) == suffix_route(file_stem@, aliases@),
        is_ascii_chars(file_stem@) ==> found_view(r) == suffix_route_lowered(
            file_stem@,
            ascii_lowercase(file_stem@),
            aliases@,
        ),
        is_ascii_chars(file_stem@) ==> r is Some,
        is_ascii_chars(file_stem@) && alias_keys_nonempty(aliases@) ==> (r matches Some((route, n))
            && ascii_suffix_shape(file_stem@, aliases@, route@, n as int)),
{
    let lower = to_lower(file_stem);
    proof {
        if is_ascii_chars(file_stem@) && alias_keys_nonempty(aliases@) {
            lemma_ascii_suffix_shape(file_stem@, aliases@);
        }
    }
    suffix_route_from_lowered(file_stem, lower.as_str(), aliases)
}

/// Cutting an ASCII stem never fails: its suffix route, with the lowercase
/// form taken letter by letter, is always found.
pub proof fn lemma_ascii_suffix_route(stem: Seq<char>, aliases: Seq<(Seq<char>, Seq<char>)>)
    requires
        is_ascii_chars(stem),
    ensures
        suffix_route_lowered(stem, ascii_lowercase(stem), aliases) is Some,
{
    lemma_ascii_separated(stem, separators(), aliases);
}

proof fn lemma_ascii_separated(
    stem: Seq<char>,
    seps: Seq<u8>,
    aliases: Seq<(Seq<char>, Seq<char>)>,
)
    requires
        is_ascii_chars(stem),
    ensures
        separated_suffix_route(stem, ascii_lowercase(stem), seps, aliases) is Some,
    decreases seps.len(),
{
    if seps.len() > 0 {
        let lower = ascii_lowercase(stem);
        crate::text::lemma_ascii_lowercase(stem);
        vstd::utf8::is_ascii_chars_encode_utf8(stem);
        vstd::utf8::is_ascii_chars_encode_utf8(lower);
        crate::text::lemma_last_byte_index(encode_utf8(lower), seps[0]);
        if let Some(i) = last_byte_index(encode_utf8(lower), seps[0]) {
            crate::text::lemma_ascii_boundary(stem, i + 1);
        }
        lemma_ascii_separated(stem, seps.drop_first(), aliases);
    }
}

/// The words that may be glued to the end of a stem, as written.
pub open spec fn is_glued_builtin(w: Seq<char>) -> bool {
    ||| w == "Server"@
    ||| w == "Client"@
    ||| w == "Shared"@
    ||| w == "Player"@
    ||| w == "Character"@
    ||| w == "ServerScriptService"@
    ||| w == "ReplicatedStorage"@
    ||| w == "ReplicatedFirst"@
    ||| w == "ServerStorage"@
    ||| w == "StarterGui"@
    ||| w == "StarterPack"@
    ||| w == "StarterPlayerScripts"@
    ||| w == "StarterCharacterScripts"@
}

/// Each glued word is a built-in suffix, and its ASCII lowercase form is a
/// built-in word.
proof fn lemma_glued_builtin(w: Seq<char>)
    requires
        is_glued_builtin(w),
    ensures
        is_builtin_word(ascii_lowercase(w)),
        exists|k: int| 0 <= k < builtin_suffixes().len() && builtin_suffixes()[k] == w,
{
    if w == "Server"@ {
        reveal_strlit("Server");
        reveal_strlit("server");
        assert(ascii_lowercase(w) =~= "server"@);
        assert(w == builtin_suffixes()[0]);
    } else if w == "Client"@ {
        reveal_strlit("Client");
        reveal_strlit("client");
        assert(ascii_lowercase(w) =~= "client"@);
        assert(w == builtin_suffixes()[1]);
    } else if w == "Shared"@ {
        reveal_strlit("Shared");
        reveal_strlit("shared");
        assert(ascii_lowercase(w) =~= "shared"@);
        assert(w == builtin_suffixes()[2]);
    } else if w == "Player"@ {
        reveal_strlit("Player");
        reveal_strlit("player");
        assert(ascii_lowercase(w) =~= "player"@);
        assert(w == builtin_suffixes()[3]);
    } else if w == "Character"@ {
        reveal_strlit("Character");
        reveal_strlit("character");
        assert(ascii_lowercase(w) =~= "character"@);
        assert(w == builtin_suffixes()[4]);
    } else if w == "ServerScriptService"@ {
        reveal_strlit("ServerScriptService");
        reveal_strlit("serverscriptservice");
        assert(ascii_lowercase(w) =~= "serverscriptservice"@);
        assert(w == builtin_suffixes()[5]);
    } else if w == "ReplicatedStorage"@ {
        reveal_strlit("ReplicatedStorage");
        reveal_strlit("replicatedstorage");
        assert(ascii_lowercase(w) =~= "replicatedstorage"@);
        assert(w == builtin_suffixes()[6]);
    } else if w == "ReplicatedFirst"@ {
        reveal_strlit("ReplicatedFirst");
        reveal_strlit("replicatedfirst");
        assert(ascii_lowercase(w) =~= "replicatedfirst"@);
        assert(w == builtin_suffixes()[7]);
    } else if w == "ServerStorage"@ {
        reveal_strlit("ServerStorage");
        reveal_strlit("serverstorage");
        assert(ascii_lowercase(w) =~= "serverstorage"@);
        assert(w == builtin_suffixes()[8]);
    } else if w == "StarterGui"@ {
        reveal_strlit("StarterGui");
        reveal_strlit("startergui");
        assert(ascii_lowercase(w) =~= "startergui"@);
        assert(w == builtin_suffixes()[9]);
    } else if w == "StarterPack"@ {
        reveal_strlit("StarterPack");
        reveal_strlit("starterpack");
        assert(ascii_lowercase(w) =~= "starterpack"@);
        assert(w == builtin_suffixes()[10]);
    } else if w == "StarterPlayerScripts"@ {
        reveal_strlit("StarterPlayerScripts");
        reveal_strlit("starterplayerscripts");
        assert(ascii_lowercase(w) =~= "starterplayerscripts"@);
        assert(w == builtin_suffixes()[11]);
    } else if w == "StarterCharacterScripts"@ {
        reveal_strlit("StarterCharacterScripts");
        reveal_strlit("startercharacterscripts");
        assert(ascii_lowercase(w) =~= "startercharacterscripts"@);
        assert(w == builtin_suffixes()[12]);
    }
}

/// No alias names the empty route (as in every table `get_aliases` builds).
pub open spec fn alias_routes_nonempty(aliases: Seq<(Seq<char>, Seq<char>)>) -> bool {
    forall|i: int| 0 <= i < aliases.len() ==> #[trigger] aliases[i].1.len() > 0
}

/// The stem holds none of the separators `.`, `-`, `_`.
pub open spec fn has_no_separator(stem: Seq<char>) -> bool {
    forall|i: int| 0 <= i < stem.len() ==> !is_separator_char(#[trigger] stem[i])
}

proof fn lemma_alias_route_nonempty(aliases: Seq<(Seq<char>, Seq<char>)>, lw: Seq<char>)
    requires
        alias_routes_nonempty(aliases),
    ensures
        first_alias_route(aliases, lw) matches Some(r) ==> r.len() > 0,
    decreases aliases.len(),
{
    if aliases.len() > 0 {
        let rest = aliases.drop_first();
        assert forall|i: int| 0 <= i < rest.len() implies #[trigger] rest[i].1.len() > 0 by {
            assert(rest[i] == aliases[i + 1]);
        }
        lemma_alias_route_nonempty(rest, lw);
        assert(aliases[0].1.len() > 0);
    }
}

proof fn lemma_glued_finds(
    stem: Seq<char>,
    candidates: Seq<Seq<char>>,
    aliases: Seq<(Seq<char>, Seq<char>)>,
    k: int,
)
    requires
        0 <= k < candidates.len(),
        ends_with(stem, candidates[k]),
        encode_utf8(stem).len() > encode_utf8(candidates[k]).len(),
        route_for_word(candidates[k], aliases).len() > 0,
    ensures
        glued_suffix_route(stem, candidates, aliases).0.len() > 0,
    decreases k,
{
    if k > 0 {
        let rest = candidates.drop_first();
        assert(rest[k - 1] == candidates[k]);
        lemma_glued_finds(stem, rest, aliases, k - 1);
    }
}

proof fn lemma_separators_skipped(
    stem: Seq<char>,
    lower: Seq<char>,
    seps: Seq<u8>,
    aliases: Seq<(Seq<char>, Seq<char>)>,
)
    requires
        forall|i: int| 0 <= i < seps.len() ==> #[trigger] seps[i] == 46u8 || seps[i] == 45u8 || seps[i]
            == 95u8,
        forall|j: int|
            0 <= j < encode_utf8(lower).len() ==> #[trigger] encode_utf8(lower)[j] != 46u8
                && encode_utf8(lower)[j] != 45u8 && encode_utf8(lower)[j] != 95u8,
    ensures
        separated_suffix_route(stem, lower, seps, aliases) == Some(
            glued_suffix_route(stem, suffix_candidates(aliases), aliases),
        ),
    decreases seps.len(),
{
    if seps.len() > 0 {
        let rest = seps.drop_first();
        assert forall|i: int| 0 <= i < rest.len() implies #[trigger] rest[i] == 46u8 || rest[i] == 45u8
            || rest[i] == 95u8 by {
            assert(rest[i] == seps[i + 1]);
        }
        crate::text::lemma_last_byte_index(encode_utf8(lower), seps[0]);
        lemma_separators_skipped(stem, lower, rest, aliases);
    }
}

/// The glued search is complete for the built-in words: an ASCII stem
/// without separators that ends with one of the thirteen built-in words (as
/// written, `Server` to `StarterCharacterScripts`) and is longer than it has
/// a suffix route, and that route is not empty;
/// given aliases that name no empty route, and the word's lowercase form
/// being its ASCII lowercase form (as `str::to_lowercase` gives for ASCII
/// text).
pub proof fn lemma_glued_builtin_found(stem: Seq<char>, w: Seq<char>, aliases: Seq<(Seq<char>, Seq<char>)>)
    requires
        is_ascii_chars(stem),
        has_no_separator(stem),
        is_glued_builtin(w),
        ends_with(stem, w),
        stem.len() > w.len(),
        alias_routes_nonempty(aliases),
        lowercase(w) == ascii_lowercase(w),
    ensures
        suffix_route_lowered(stem, ascii_lowercase(stem), aliases) matches Some((r, n)) && r.len() > 0,
{
    let lower = ascii_lowercase(stem);
    let l = stem.len() as int;
    crate::text::lemma_ascii_lowercase(stem);
    vstd::utf8::is_ascii_chars_encode_utf8(stem);
    vstd::utf8::is_ascii_chars_encode_utf8(lower);
    assert forall|j: int| 0 <= j < encode_utf8(lower).len() implies #[trigger] encode_utf8(lower)[j]
        != 46u8 && encode_utf8(lower)[j] != 45u8 && encode_utf8(lower)[j] != 95u8 by {
        assert(!is_separator_char(stem[j]));
        assert(lower[j] == crate::text::ascii_lower_char(stem[j]));
        assert(lower[j] as u8 == encode_utf8(lower)[j]);
        assert('\0' <= lower[j] <= '\u{7f}');
    }
    lemma_separators_skipped(stem, lower, separators(), aliases);
    lemma_glued_builtin(w);
    let k = choose|k: int| 0 <= k < builtin_suffixes().len() && builtin_suffixes()[k] == w;
    let cands = suffix_candidates(aliases);
    assert(cands[k] == w);
    crate::text::lemma_ascii_range(stem, l - w.len(), l);
    assert(stem.subrange(l - w.len(), l) == w);
    vstd::utf8::is_ascii_chars_encode_utf8(w);
    lemma_alias_route_nonempty(aliases, ascii_lowercase(w));
    crate::routing::lemma_builtin_words(ascii_lowercase(w));
    assert(route_for_word(w, aliases).len() > 0);
    lemma_glued_finds(stem, cands, aliases, k);
}

/// A character that separates a word at the end of a stem: `.`, `-`, `_`.
pub open spec fn is_separator_char(c: char) -> bool {
    c == '.' || c == '-' || c == '_'
}

/// No alias key is empty.
pub open spec fn alias_keys_nonempty(aliases: Seq<(Seq<char>, Seq<char>)>) -> bool {
    forall|i: int| 0 <= i < aliases.len() ==> #[trigger] aliases[i].0.len() > 0
}

/// The suffix route of an ASCII stem of `L` characters (= bytes), with
/// ending length `n`: a route is found exactly when `n > 0`, and `n <= L`.
/// A found route is either the route of the word after a separator that
/// starts the ending (and occurs nowhere later in the stem), or the route of
/// the whole ending, which is shorter than the stem.
pub open spec fn ascii_suffix_shape(
    stem: Seq<char>,
    aliases: Seq<(Seq<char>, Seq<char>)>,
    r: Seq<char>,
    n: int,
) -> bool {
    let l = stem.len() as int;
    &&& (r.len() > 0 <==> n > 0)
    &&& 0 <= n <= l
    &&& r.len() > 0 ==> {
        ||| {
            &&& is_separator_char(stem[l - n])
            &&& forall|k: int| l - n < k < l ==> #[trigger] stem[k] != stem[l - n]
            &&& r == route_for_word(stem.subrange(l - n + 1, l), aliases)
        }
        ||| n < l && r == route_for_word(stem.subrange(l - n, l), aliases)
    }
}

proof fn lemma_builtin_suffixes_nonempty()
    ensures
        forall|i: int| 0 <= i < builtin_suffixes().len() ==> #[trigger] builtin_suffixes()[i].len() > 0,
{
    reveal_strlit("Server");
    reveal_strlit("Client");
    reveal_strlit("Shared");
    reveal_strlit("Player");
    reveal_strlit("Character");
    reveal_strlit("ServerScriptService");
    reveal_strlit("ReplicatedStorage");
    reveal_strlit("ReplicatedFirst");
    reveal_strlit("ServerStorage");
    reveal_strlit("StarterGui");
    reveal_strlit("StarterPack");
    reveal_strlit("StarterPlayerScripts");
    reveal_strlit("StarterCharacterScripts");
}

proof fn lemma_ascii_glued_shape(
    stem: Seq<char>,
    candidates: Seq<Seq<char>>,
    aliases: Seq<(Seq<char>, Seq<char>)>,
)
    requires
        is_ascii_chars(stem),
        forall|i: int| 0 <= i < candidates.len() ==> #[trigger] candidates[i].len() > 0,
    ensures
        ({
            let (r, n) = glued_suffix_route(stem, candidates, aliases);
            ascii_suffix_shape(stem, aliases, r, n)
        }),
    decreases candidates.len(),
{
    vstd::utf8::is_ascii_chars_encode_utf8(stem);
    if candidates.len() > 0 {
        let c = candidates[0];
        let rest = candidates.drop_first();
        assert forall|i: int| 0 <= i < rest.len() implies #[trigger] rest[i].len() > 0 by {
            assert(rest[i] == candidates[i + 1]);
        }
        lemma_ascii_glued_shape(stem, rest, aliases);
        if ends_with(stem, c) {
            let l = stem.len() as int;
            crate::text::lemma_ascii_range(stem, l - c.len(), l);
            vstd::utf8::is_ascii_chars_encode_utf8(c);
        }
    }
}

proof fn lemma_ascii_separated_shape(
    stem: Seq<char>,
    seps: Seq<u8>,
    aliases: Seq<(Seq<char>, Seq<char>)>,
)
    requires
        is_ascii_chars(stem),
        alias_keys_nonempty(aliases),
        forall|i: int| 0 <= i < seps.len() ==> #[trigger] seps[i] == 46u8 || seps[i] == 45u8 || seps[i]
            == 95u8,
    ensures
        separated_suffix_route(stem, ascii_lowercase(stem), seps, aliases) matches Some((r, n))
            ==> ascii_suffix_shape(stem, aliases, r, n),
    decreases seps.len(),
{
    let lower = ascii_lowercase(stem);
    let l = stem.len() as int;
    crate::text::lemma_ascii_lowercase(stem);
    vstd::utf8::is_ascii_chars_encode_utf8(stem);
    vstd::utf8::is_ascii_chars_encode_utf8(lower);
    if seps.len() == 0 {
        lemma_builtin_suffixes_nonempty();
        let cands = suffix_candidates(aliases);
        assert forall|i: int| 0 <= i < cands.len() implies #[trigger] cands[i].len() > 0 by {
            if i >= builtin_suffixes().len() {
                assert(cands[i] == aliases[i - builtin_suffixes().len()].0);
            }
        }
        lemma_ascii_glued_shape(stem, cands, aliases);
    } else {
        let sep = seps[0];
        let rest = seps.drop_first();
        assert forall|i: int| 0 <= i < rest.len() implies #[trigger] rest[i] == 46u8 || rest[i] == 45u8
            || rest[i] == 95u8 by {
            assert(rest[i] == seps[i + 1]);
        }
        lemma_ascii_separated_shape(stem, rest, aliases);
        crate::text::lemma_last_byte_index(encode_utf8(lower), sep);
        if let Some(i) = last_byte_index(encode_utf8(lower), sep) {
            crate::text::lemma_ascii_boundary(stem, i + 1);
            crate::text::lemma_ascii_range(stem, i + 1, l);
            assert(lower[i] as u8 == sep);
            assert(stem[i] == lower[i]);
            assert(is_separator_char(stem[i]));
            assert forall|k: int| i < k < l implies stem[k] != stem[i] by {
                assert(encode_utf8(lower)[k] != sep);
                assert(lower[k] as u8 != sep);
            }
        }
    }
}

/// The shape of a suffix route found in an ASCII stem (`ascii_suffix_shape`),
/// for aliases without an empty key.
pub proof fn lemma_ascii_suffix_shape(stem: Seq<char>, aliases: Seq<(Seq<char>, Seq<char>)>)
    requires
        is_ascii_chars(stem),
        alias_keys_nonempty(aliases),
    ensures
        suffix_route_lowered(stem, ascii_lowercase(stem), aliases) matches Some((r, n))
            ==> ascii_suffix_shape(stem, aliases, r, n),
{
    lemma_ascii_separated_shape(stem, separators(), aliases);
}

/// A found ending that names a route is no longer than the stem; one that
/// names none has length 0.
pub proof fn lemma_suffix_length_bounds(
    stem: Seq<char>,
    lower: Seq<char>,
    aliases: Seq<(Seq<char>, Seq<char>)>,
)
    ensures
        suffix_route_lowered(stem, lower, aliases) matches Some((route, n)) ==> if route.len() > 0 {
            0 <= n <= encode_utf8(stem).len()
        } else {
            n == 0
        },
{
    lemma_separated_bounds(stem, lower, separators(), aliases);
}

proof fn lemma_separated_bounds(
    stem: Seq<char>,
    lower: Seq<char>,
    seps: Seq<u8>,
    aliases: Seq<(Seq<char>, Seq<char>)>,
)
    ensures
        separated_suffix_route(stem, lower, seps, aliases) matches Some((route, n)) ==> if route.len()
            > 0 {
            0 <= n <= encode_utf8(stem).len()
        } else {
            n == 0
        },
    decreases seps.len(),
{
    if seps.len() == 0 {
        lemma_glued_bounds(stem, suffix_candidates(aliases), aliases);
    } else {
        lemma_separated_bounds(stem, lower, seps.drop_first(), aliases);
        crate::text::lemma_last_byte_index(encode_utf8(lower), seps[0]);
    }
}

proof fn lemma_glued_bounds(
    stem: Seq<char>,
    candidates: Seq<Seq<char>>,
    aliases: Seq<(Seq<char>, Seq<char>)>,
)
    ensures
        ({
            let (route, n) = glued_suffix_route(stem, candidates, aliases);
            if route.len() > 0 {
                0 <= n < encode_utf8(stem).len()
            } else {
                n == 0
            }
        }),
    decreases candidates.len(),
{
    if candidates.len() > 0 {
        lemma_glued_bounds(stem, candidates.drop_first(), aliases);
    }
}

} // verus!
