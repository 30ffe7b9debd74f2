//! Where a word sends a script: the built-in service names, the user's
//! aliases, and the table of aliases itself.

use vstd::prelude::*;
use vstd::utf8::is_ascii_chars;

use crate::text::ascii_lowercase;
use crate::text::lowercase;
use crate::text::str_eq;
use crate::text::to_lower;

verus! {

/// The route that a built-in word (already in lowercase) names, or the empty
/// text when the word is not one of them.
pub open spec fn builtin_route(w: Seq<char>) -> Seq<char> {
    if w == "server"@ {
        "ServerScriptService"@
    } else if w == "client"@ {
        "ReplicatedStorage/Client"@
    } else if w == "shared"@ {
        "ReplicatedStorage/Shared"@
    } else if w == "player"@ {
        "StarterPlayer/StarterPlayerScripts"@
    } else if w == "character"@ {
        "StarterPlayer/StarterCharacterScripts"@
    } else if w == "serverscriptservice"@ {
        "ServerScriptService"@
    } else if w == "replicatedstorage"@ {
        "ReplicatedStorage"@
    } else if w == "replicatedfirst"@ {
        "ReplicatedFirst"@
    } else if w == "serverstorage"@ {
        "ServerStorage"@
    } else if w == "startergui"@ {
        "StarterGui"@
    } else if w == "starterpack"@ {
        "StarterPack"@
    } else if w == "starterplayerscripts"@ {
        "StarterPlayer/StarterPlayerScripts"@
    } else if w == "startercharacterscripts"@ {
        "StarterPlayer/StarterCharacterScripts"@
    } else {
        Seq::empty()
    }
}

/// The route of the first alias, in table order, whose key has the given
/// lowercase form.
pub open spec fn first_alias_route(aliases: Seq<(Seq<char>, Seq<char>)>, lower_word: Seq<char>) -> Option<
    Seq<char>,
>
    decreases aliases.len(),
{
    if aliases.len() == 0 {
        None
    } else if lowercase(aliases[0].0) == lower_word {
        Some(aliases[0].1)
    } else {
        first_alias_route(aliases.drop_first(), lower_word)
    }
}

/// The route that a word in lowercase names: an alias first, a built-in
/// word otherwise, the empty text when neither.
pub open spec fn route_for_lowered(lower_word: Seq<char>, aliases: Seq<(Seq<char>, Seq<char>)>) -> Seq<
    char,
> {
    match first_alias_route(aliases, lower_word) {
        Some(r) => r,
        None => builtin_route(lower_word),
    }
}

/// The route that a word names, compared without regard to case.
pub open spec fn route_for_word(word: Seq<char>, aliases: Seq<(Seq<char>, Seq<char>)>) -> Seq<char> {
    route_for_lowered(lowercase(word), aliases)
}

/// Position of the entry with key `k`.
pub open spec fn key_position(aliases: Seq<(Seq<char>, Seq<char>)>, k: Seq<char>) -> Option<int>
    decreases aliases.len(),
{
    if aliases.len() == 0 {
        None
    } else if aliases.last().0 == k {
        Some(aliases.len() - 1)
    } else {
        key_position(aliases.drop_last(), k)
    }
}

/// The table after setting key `k` to route `r`: an existing entry keeps its
/// place and takes the new route, a new key goes at the end.
pub open spec fn with_alias(aliases: Seq<(Seq<char>, Seq<char>)>, k: Seq<char>, r: Seq<char>) -> Seq<
    (Seq<char>, Seq<char>),
> {
    match key_position(aliases, k) {
        Some(i) => aliases.update(i, (k, r)),
        None => aliases.push((k, r)),
    }
}

/// No key occurs twice.
pub open spec fn keys_distinct(aliases: Seq<(Seq<char>, Seq<char>)>) -> bool {
    forall|i: int, j: int| 0 <= i < j < aliases.len() ==> aliases[i].0 != aliases[j].0
}

struct AliasEntry {
    alias: String,
    lowered: String,
    route: String,
}

/// The user's aliases: words that name a route, in the order in which they
/// are consulted. Keys are distinct, as in a map.
pub struct AliasMap {
    entries: Vec<AliasEntry>,
}

impl View for AliasMap {
    type V = Seq<(Seq<char>, Seq<char>)>;

    closed spec fn view(&self) -> Seq<(Seq<char>, Seq<char>)> {
        self.entries@.map_values(|e: AliasEntry| (e.alias@, e.route@))
    }
}

pub proof fn lemma_key_position(aliases: Seq<(Seq<char>, Seq<char>)>, k: Seq<char>)
    ensures
        key_position(aliases, k) matches Some(i) ==> 0 <= i < aliases.len() && aliases[i].0 == k,
        key_position(aliases, k) is None ==> forall|j: int|
            0 <= j < aliases.len() ==> aliases[j].0 != k,
    decreases aliases.len(),
{
    if aliases.len() > 0 {
        let prefix = aliases.drop_last();
        lemma_key_position(prefix, k);
        assert forall|j: int| 0 <= j < prefix.len() implies prefix[j] == aliases[j] by {}
    }
}

impl AliasMap {
    /// Every stored lowercase key is the lowercase form of its key, and keys
    /// are distinct.
    pub closed spec fn wf(&self) -> bool {
        &&& forall|i: int|
            0 <= i < self.entries@.len() ==> #[trigger] self.entries@[i].lowered@ == lowercase(
                self.entries@[i].alias@,
            )
        &&& keys_distinct(self@)
    }

    /// Keys do not repeat.
    pub proof fn lemma_keys_distinct(&self)
        requires
            self.wf(),
        ensures
            keys_distinct(self@),
    {
    }

    /// An empty table.
    pub fn new() -> (m: AliasMap)
        ensures
            m.wf(),
            m@ == Seq::<(Seq<char>, Seq<char>)>::empty(),
    {
        let m = AliasMap { entries: Vec::new() };
        assert(m@ =~= Seq::<(Seq<char>, Seq<char>)>::empty());
        m
    }

    /// Number of aliases.
    pub fn len(&self) -> (n: usize)
        ensures
            n == self@.len(),
    {
        self.entries.len()
    }

    /// The key of the alias at position `i`.
    pub fn key_at(&self, i: usize) -> (k: &str)
        requires
            i < self@.len(),
        ensures
            k@ == self@[i as int].0,
    {
        self.entries[i].alias.as_str()
    }

    /// The route of the alias at position `i`.
    pub fn route_at(&self, i: usize) -> (r: &str)
        requires
            i < self@.len(),
        ensures
            r@ == self@[i as int].1,
    {
        self.entries[i].route.as_str()
    }

    /// Sets `alias` to name `route`, as `HashMap::insert` does: an existing
    /// key takes the new route.
    pub fn insert(&mut self, alias: &str, route: &str)
        requires
            old(self).wf(),
        ensures
            final(self).wf(),
            final(self)@ == with_alias(old(self)@, alias@, route@),
    {
        let ghost before = self@;
        proof {
            lemma_key_position(before, alias@);
        }
        let mut i: usize = self.entries.len();
        assert(before.take(before.len() as int) =~= before);
        while i > 0
            invariant
                self.wf(),
                i <= self.entries@.len(),
                self@ == before,
                before == old(self)@,
                self.entries@.len() == before.len(),
                key_position(before, alias@) == key_position(before.take(i as int), alias@),
            decreases i,
        {
            assert(before.take(i as int).drop_last() =~= before.take(i - 1));
            assert(before[i - 1].0 == self.entries@[i - 1].alias@);
            if str_eq(self.entries[i - 1].alias.as_str(), alias) {
                let lowered = self.entries[i - 1].lowered.clone();
                let entry = AliasEntry {
                    alias: alias.to_owned(),
                    lowered,
                    route: route.to_owned(),
                };
                let ghost old_entries = self.entries@;
                assert(old_entries[i - 1].lowered@ == lowercase(old_entries[i - 1].alias@));
                assert(entry.lowered@ == lowercase(entry.alias@));
                assert(before.take(i as int).last() == before[i - 1]);
                assert(key_position(before, alias@) == Some((i - 1) as int));
                self.entries.set(i - 1, entry);
                assert(self@ =~= before.update(i - 1, (alias@, route@)));
                assert(self@ == with_alias(before, alias@, route@));
                assert forall|j: int| 0 <= j < self.entries@.len() implies #[trigger] self.entries@[j].lowered@
                    == lowercase(self.entries@[j].alias@) by {
                    if j != i - 1 {
                        assert(self.entries@[j] == old_entries[j]);
                        assert(old_entries[j].lowered@ == lowercase(old_entries[j].alias@));
                    }
                }
                assert(keys_distinct(self@)) by {
                    assert forall|a: int, b: int| 0 <= a < b < self@.len() implies self@[a].0
                        != self@[b].0 by {
                        assert(self@[a].0 == before[a].0);
                        assert(self@[b].0 == before[b].0);
                        assert(before[a].0 != before[b].0);
                    }
                }
                return;
            }
            i = i - 1;
        }
        let entry = AliasEntry { alias: alias.to_owned(), lowered: to_lower(alias), route: route.to_owned() };
        let ghost old_entries = self.entries@;
        self.entries.push(entry);
        assert(self@ =~= before.push((alias@, route@)));
        assert(keys_distinct(self@)) by {
            assert forall|a: int, b: int| 0 <= a < b < self@.len() implies self@[a].0
                != self@[b].0 by {
                if b < before.len() {
                    assert(self@[a].0 == before[a].0);
                    assert(self@[b].0 == before[b].0);
                } else {
                    assert(self@[a].0 == before[a].0);
                }
            }
        }
        assert forall|j: int| 0 <= j < self.entries@.len() implies #[trigger] self.entries@[j].lowered@
            == lowercase(self.entries@[j].alias@) by {
            if j < old_entries.len() {
                assert(self.entries@[j] == old_entries[j]);
                assert(old_entries[j].lowered@ == lowercase(old_entries[j].alias@));
            }
        }
    }

    /// The route that a word in lowercase names through this table.
    fn alias_route_lowered(&self, lower_word: &str) -> (r: Option<&str>)
        requires
            self.wf(),
        ensures
            r matches Some(s) ==> first_alias_route(self@, lower_word@) == Some(s@),
            r is None ==> first_alias_route(self@, lower_word@) is None,
    {
        let n = self.entries.len();
        let mut i: usize = 0;
        assert(self@.subrange(0, n as int) =~= self@);
        while i < n
            invariant
                self.wf(),
                n == self@.len(),
                n == self.entries@.len(),
                i <= n,
                first_alias_route(self@, lower_word@) == first_alias_route(
                    self@.subrange(i as int, n as int),
                    lower_word@,
                ),
            decreases n - i,
        {
            let ghost rest = self@.subrange(i as int, n as int);
            assert(rest.drop_first() =~= self@.subrange(i + 1, n as int));
            assert(rest[0] == self@[i as int]);
            assert(self.entries@[i as int].lowered@ == lowercase(self.entries@[i as int].alias@));
            if str_eq(self.entries[i].lowered.as_str(), lower_word) {
                return Some(self.entries[i].route.as_str());
            }
            i = i + 1;
        }
        None
    }
}

/// The route that a built-in word, already in lowercase, names; the empty
/// text for any other word.
pub fn builtin_route_of(w: &str) -> (r: String)
    ensures
        r@ == builtin_route(w@),
{
    if str_eq(w, "server") {
        "ServerScriptService".to_owned()
    } else if str_eq(w, "client") {
        "ReplicatedStorage/Client".to_owned()
    } else if str_eq(w, "shared") {
        "ReplicatedStorage/Shared".to_owned()
    } else if str_eq(w, "player") {
        "StarterPlayer/StarterPlayerScripts".to_owned()
    } else if str_eq(w, "character") {
        "StarterPlayer/StarterCharacterScripts".to_owned()
    } else if str_eq(w, "serverscriptservice") {
        "ServerScriptService".to_owned()
    } else if str_eq(w, "replicatedstorage") {
        "ReplicatedStorage".to_owned()
    } else if str_eq(w, "replicatedfirst") {
        "ReplicatedFirst".to_owned()
    } else if str_eq(w, "serverstorage") {
        "ServerStorage".to_owned()
    } else if str_eq(w, "startergui") {
        "StarterGui".to_owned()
    } else if str_eq(w, "starterpack") {
        "StarterPack".to_owned()
    } else if str_eq(w, "starterplayerscripts") {
        "StarterPlayer/StarterPlayerScripts".to_owned()
    } else if str_eq(w, "startercharacterscripts") {
        "StarterPlayer/StarterCharacterScripts".to_owned()
    } else {
        String::new()
    }
}

/// The route that a word already in lowercase names: the first alias whose
/// key has that lowercase form, else the built-in word, else empty.
pub fn route_from_lowered_word(lower_word: &str, aliases: &AliasMap) -> (r: String)
    requires
        aliases.wf(),
    ensures
        r@ == route_for_lowered(lower_word@, aliases@),
{
    match aliases.alias_route_lowered(lower_word) {
        Some(route) => route.to_owned(),
        None => builtin_route_of(lower_word),
    }
}

/// The route that a word names, without regard to case; empty when the word
/// names none.
pub fn route_from_word(word: &str, aliases: &AliasMap) -> (r: String)
    requires
        aliases.wf(),
    ensures
        r@ == route_for_word(word@, aliases@),
        is_ascii_chars(word@) ==> r@ == route_for_lowered(ascii_lowercase(word@), aliases@),
{
    let lower = to_lower(word);
    route_from_lowered_word(lower.as_str(), aliases)
}

/// A word names the same route whatever its case: only its lowercase form
/// counts.
pub proof fn lemma_route_ignores_case(
    w1: Seq<char>,
    w2: Seq<char>,
    aliases: Seq<(Seq<char>, Seq<char>)>,
)
    requires
        lowercase(w1) == lowercase(w2),
    ensures
        route_for_word(w1, aliases) == route_for_word(w2, aliases),
{
}

/// The first alias whose key matches the word without regard to case
/// decides the route, ahead of any built-in word.
pub proof fn lemma_alias_takes_precedence(
    word: Seq<char>,
    aliases: Seq<(Seq<char>, Seq<char>)>,
    i: int,
)
    requires
        0 <= i < aliases.len(),
        lowercase(aliases[i].0) == lowercase(word),
        forall|j: int| 0 <= j < i ==> lowercase(#[trigger] aliases[j].0) != lowercase(word),
    ensures
        route_for_word(word, aliases) == aliases[i].1,
    decreases i,
{
    lemma_first_alias_at(aliases, lowercase(word), i);
}

proof fn lemma_first_alias_at(aliases: Seq<(Seq<char>, Seq<char>)>, lw: Seq<char>, i: int)
    requires
        0 <= i < aliases.len(),
        lowercase(aliases[i].0) == lw,
        forall|j: int| 0 <= j < i ==> lowercase(#[trigger] aliases[j].0) != lw,
    ensures
        first_alias_route(aliases, lw) == Some(aliases[i].1),
    decreases i,
{
    if i > 0 {
        let rest = aliases.drop_first();
        assert forall|j: int| 0 <= j < i - 1 implies lowercase(#[trigger] rest[j].0) != lw by {
            assert(rest[j] == aliases[j + 1]);
        }
        assert(lowercase(aliases[0].0) != lw);
        lemma_first_alias_at(rest, lw, i - 1);
    }
}

/// With no alias matching the word, the built-in words decide.
pub proof fn lemma_builtin_without_alias(word: Seq<char>, aliases: Seq<(Seq<char>, Seq<char>)>)
    requires
        forall|j: int| 0 <= j < aliases.len() ==> lowercase(#[trigger] aliases[j].0) != lowercase(word),
    ensures
        route_for_word(word, aliases) == builtin_route(lowercase(word)),
    decreases aliases.len(),
{
    if aliases.len() > 0 {
        let rest = aliases.drop_first();
        assert forall|j: int| 0 <= j < rest.len() implies lowercase(#[trigger] rest[j].0) != lowercase(
            word,
        ) by {
            assert(rest[j] == aliases[j + 1]);
        }
        assert(lowercase(aliases[0].0) != lowercase(word));
        lemma_builtin_without_alias(word, rest);
    }
}

/// The lowercase words that name a built-in route: the thirteen service
/// words and their short forms.
pub open spec fn is_builtin_word(w: Seq<char>) -> bool {
    ||| w == "server"@
    ||| w == "client"@
    ||| w == "shared"@
    ||| w == "player"@
    ||| w == "character"@
    ||| w == "serverscriptservice"@
    ||| w == "replicatedstorage"@
    ||| w == "replicatedfirst"@
    ||| w == "serverstorage"@
    ||| w == "startergui"@
    ||| w == "starterpack"@
    ||| w == "starterplayerscripts"@
    ||| w == "startercharacterscripts"@
}

/// A lowercase word names a built-in route exactly when it is one of the
/// thirteen built-in words; the short forms name their services (`server`
/// the `ServerScriptService`, `client` and `shared` their folders of
/// `ReplicatedStorage`, `player` and `character` their folders of
/// `StarterPlayer`), and every service word names its own service.
pub proof fn lemma_builtin_words(w: Seq<char>)
    ensures
        builtin_route(w).len() > 0 <==> is_builtin_word(w),
        w == "server"@ || w == "serverscriptservice"@ ==> builtin_route(w) == "ServerScriptService"@,
        w == "client"@ ==> builtin_route(w) == "ReplicatedStorage/Client"@,
        w == "shared"@ ==> builtin_route(w) == "ReplicatedStorage/Shared"@,
        w == "player"@ || w == "starterplayerscripts"@ ==> builtin_route(w)
            == "StarterPlayer/StarterPlayerScripts"@,
        w == "character"@ || w == "startercharacterscripts"@ ==> builtin_route(w)
            == "StarterPlayer/StarterCharacterScripts"@,
        w == "replicatedstorage"@ ==> builtin_route(w) == "ReplicatedStorage"@,
        w == "replicatedfirst"@ ==> builtin_route(w) == "ReplicatedFirst"@,
        w == "serverstorage"@ ==> builtin_route(w) == "ServerStorage"@,
        w == "startergui"@ ==> builtin_route(w) == "StarterGui"@,
        w == "starterpack"@ ==> builtin_route(w) == "StarterPack"@,
{
    reveal_strlit("ServerScriptService");
    reveal_strlit("ReplicatedStorage/Client");
    reveal_strlit("ReplicatedStorage/Shared");
    reveal_strlit("StarterPlayer/StarterPlayerScripts");
    reveal_strlit("StarterPlayer/StarterCharacterScripts");
    reveal_strlit("ReplicatedStorage");
    reveal_strlit("ReplicatedFirst");
    reveal_strlit("ServerStorage");
    reveal_strlit("StarterGui");
    reveal_strlit("StarterPack");
    reveal_strlit("server");
    reveal_strlit("client");
    reveal_strlit("shared");
    reveal_strlit("player");
    reveal_strlit("character");
    reveal_strlit("serverscriptservice");
    reveal_strlit("replicatedstorage");
    reveal_strlit("replicatedfirst");
    reveal_strlit("serverstorage");
    reveal_strlit("startergui");
    reveal_strlit("starterpack");
    reveal_strlit("starterplayerscripts");
    reveal_strlit("startercharacterscripts");
    assert("server"@.len() == 6 && "client"@.len() == 6 && "shared"@.len() == 6);
    assert("player"@.len() == 6 && "character"@.len() == 9);
    assert("serverscriptservice"@.len() == 19 && "replicatedstorage"@.len() == 17);
    assert("replicatedfirst"@.len() == 15 && "serverstorage"@.len() == 13);
    assert("startergui"@.len() == 10 && "starterpack"@.len() == 11);
    assert("starterplayerscripts"@.len() == 20 && "startercharacterscripts"@.len() == 23);
    assert("server"@[0] == 's' && "server"@[1] == 'e');
    assert("client"@[0] == 'c');
    assert("shared"@[0] == 's' && "shared"@[1] == 'h');
    assert("player"@[0] == 'p');
    if w == "serverscriptservice"@ {
        assert(w != "server"@ && w != "client"@ && w != "shared"@ && w != "player"@ && w
            != "character"@);
    }
    if w == "starterplayerscripts"@ {
        assert(w != "server"@ && w != "client"@ && w != "shared"@ && w != "player"@ && w
            != "character"@ && w != "serverscriptservice"@ && w != "replicatedstorage"@ && w
            != "replicatedfirst"@ && w != "serverstorage"@ && w != "startergui"@ && w
            != "starterpack"@);
    }
    if w == "player"@ {
        assert(w != "server"@ && w != "client"@ && w != "shared"@);
    }
}

/// Without aliases, a word names a route exactly when its lowercase form is
/// one of the built-in words; any other word names none.
pub proof fn lemma_route_without_aliases(word: Seq<char>)
    ensures
        route_for_word(word, Seq::empty()) == builtin_route(lowercase(word)),
        route_for_word(word, Seq::empty()).len() > 0 <==> is_builtin_word(lowercase(word)),
{
    lemma_builtin_words(lowercase(word));
}

/// A word that no alias matches and whose lowercase form is not a built-in
/// word names no route.
pub proof fn lemma_other_words_route_nowhere(word: Seq<char>, aliases: Seq<(Seq<char>, Seq<char>)>)
    requires
        forall|j: int| 0 <= j < aliases.len() ==> lowercase(#[trigger] aliases[j].0) != lowercase(word),
        !is_builtin_word(lowercase(word)),
    ensures
        route_for_word(word, aliases).len() == 0,
{
    lemma_builtin_without_alias(word, aliases);
    lemma_builtin_words(lowercase(word));
}

/// After setting a key, the table holds that key with the new route, and
/// keys stay distinct.
pub proof fn lemma_with_alias_holds(aliases: Seq<(Seq<char>, Seq<char>)>, k: Seq<char>, r: Seq<char>)
    requires
        keys_distinct(aliases),
    ensures
        with_alias(aliases, k, r).contains((k, r)),
        keys_distinct(with_alias(aliases, k, r)),
{
    lemma_key_position(aliases, k);
    let t = with_alias(aliases, k, r);
    match key_position(aliases, k) {
        Some(i) => {
            assert(t[i] == (k, r));
            assert forall|a: int, b: int| 0 <= a < b < t.len() implies t[a].0 != t[b].0 by {
                assert(t[a].0 == aliases[a].0);
                assert(t[b].0 == aliases[b].0);
            }
        },
        None => {
            assert(t[aliases.len() as int] == (k, r));
            assert forall|a: int, b: int| 0 <= a < b < t.len() implies t[a].0 != t[b].0 by {
                assert(t[a].0 == aliases[a].0);
                if b < aliases.len() {
                    assert(t[b].0 == aliases[b].0);
                }
            }
        },
    }
}

} // verus!
