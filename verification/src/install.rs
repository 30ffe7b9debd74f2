//! The decisions of `roflow install`: the executable's name, the home
//! folder, and how the install folder gets onto `PATH`.

use vstd::prelude::*;
use vstd::utf8::decode_utf8;
use vstd::utf8::valid_utf8;

use crate::text::chars_of;
use crate::text::lowercase;
use crate::text::push_char;
use crate::text::split_on;
use crate::text::split_text;
use crate::text::str_eq;
use crate::text::to_lower;

verus! {

/// The text that `String::from_utf8_lossy` makes of bytes.
pub uninterp spec fn lossy_utf8(bytes: Seq<u8>) -> Seq<char>;

/// A character with Unicode's `White_Space` property, the whitespace of
/// `str::trim`: U+0009 to U+000D, U+0020, U+0085, U+00A0, U+1680, U+2000 to
/// U+200A, U+2028, U+2029, U+202F, U+205F and U+3000.
pub open spec fn is_white_space(c: char) -> bool {
    ||| '\u{9}' <= c <= '\u{d}'
    ||| c == ' '
    ||| c == '\u{85}'
    ||| c == '\u{a0}'
    ||| c == '\u{1680}'
    ||| '\u{2000}' <= c <= '\u{200a}'
    ||| c == '\u{2028}'
    ||| c == '\u{2029}'
    ||| c == '\u{202f}'
    ||| c == '\u{205f}'
    ||| c == '\u{3000}'
}

/// The text without its leading whitespace.
pub open spec fn trim_front(s: Seq<char>) -> Seq<char>
    decreases s.len(),
{
    if s.len() > 0 && is_white_space(s[0]) {
        trim_front(s.drop_first())
    } else {
        s
    }
}

/// The text without its trailing whitespace.
pub open spec fn trim_back(s: Seq<char>) -> Seq<char>
    decreases s.len(),
{
    if s.len() > 0 && is_white_space(s.last()) {
        trim_back(s.drop_last())
    } else {
        s
    }
}

/// The text without its leading and trailing whitespace.
pub open spec fn trimmed(s: Seq<char>) -> Seq<char> {
    trim_back(trim_front(s))
}

/// Calls `String::from_utf8_lossy`. Trusted: the result is the named lossy
/// decoding of the bytes, and for valid UTF-8 it is their decoding, as the
/// documentation says. How invalid sequences are replaced is not stated.
#[verifier::external_body]
fn decode_lossy(bytes: &[u8]) -> (r: String)
    ensures
        r@ == lossy_utf8(bytes@),
        valid_utf8(bytes@) ==> r@ == decode_utf8(bytes@),
{
    String::from_utf8_lossy(bytes).into_owned()
}

/// Whether a character has Unicode's `White_Space` property.
fn is_white_space_char(c: char) -> (r: bool)
    ensures
        r == is_white_space(c),
{
    ('\u{9}' <= c && c <= '\u{d}') || c == ' ' || c == '\u{85}' || c == '\u{a0}' || c == '\u{1680}'
        || ('\u{2000}' <= c && c <= '\u{200a}') || c == '\u{2028}' || c == '\u{2029}' || c
        == '\u{202f}' || c == '\u{205f}' || c == '\u{3000}'
}

/// The text without its leading and trailing whitespace, as `str::trim`
/// leaves it.
pub fn trim_text(s: &str) -> (r: String)
    ensures
        r@ == trimmed(s@),
{
    let cs = chars_of(s);
    let n = cs.len();
    let mut i: usize = 0;
    assert(s@.subrange(0, n as int) =~= s@);
    while i < n && is_white_space_char(cs[i])
        invariant
            cs@ == s@,
            n == s@.len(),
            i <= n,
            trim_front(s@) == trim_front(s@.subrange(i as int, n as int)),
        decreases n - i,
    {
        assert(s@.subrange(i as int, n as int).drop_first() =~= s@.subrange(i + 1, n as int));
        i = i + 1;
    }
    let ghost front = s@.subrange(i as int, n as int);
    assert(trim_front(s@) == front);
    let mut j: usize = n;
    assert(front =~= s@.subrange(i as int, j as int));
    while j > i && is_white_space_char(cs[j - 1])
        invariant
            cs@ == s@,
            n == s@.len(),
            i <= j <= n,
            trim_back(front) == trim_back(s@.subrange(i as int, j as int)),
        decreases j - i,
    {
        assert(s@.subrange(i as int, j as int).drop_last() =~= s@.subrange(i as int, j - 1));
        j = j - 1;
    }
    let mut r = String::new();
    let mut k: usize = i;
    assert(r@ =~= s@.subrange(i as int, k as int));
    while k < j
        invariant
            cs@ == s@,
            i <= k <= j <= n,
            n == s@.len(),
            r@ == s@.subrange(i as int, k as int),
        decreases j - k,
    {
        push_char(&mut r, cs[k]);
        assert(s@.subrange(i as int, k + 1) =~= s@.subrange(i as int, k as int).push(s@[k as int]));
        k = k + 1;
    }
    r
}

/// The name of the installed executable.
pub fn get_installed_exe_name(windows: bool) -> (r: &'static str)
    ensures
        r@ == (if windows {
            "roflow.exe"@
        } else {
            "roflow"@
        }),
{
    if windows {
        "roflow.exe"
    } else {
        "roflow"
    }
}

/// How the install folder gets onto `PATH`.
#[derive(Clone, Copy, PartialEq, Eq, Debug)]
pub enum PathSetup {
    /// Add it to the user's `Path` variable (Windows).
    WindowsUserPath,
    /// Tell the user how to add it (elsewhere).
    UnixInstructions,
}

/// On Windows the install folder is added to the user's `Path`; elsewhere
/// the user is told how to add it.
pub fn add_install_folder_to_path(windows: bool) -> (r: PathSetup)
    ensures
        r == (if windows {
            PathSetup::WindowsUserPath
        } else {
            PathSetup::UnixInstructions
        }),
{
    if windows {
        PathSetup::WindowsUserPath
    } else {
        PathSetup::UnixInstructions
    }
}

/// The home folder: `HOME` when set and not empty, else `USERPROFILE`, else
/// `.` (an unset or non-Unicode variable is `None`).
pub fn home_folder_from(home: Option<String>, user_profile: Option<String>) -> (r: String)
    ensures
        r@ == (match home {
            Some(h) if h@.len() > 0 => h@,
            _ => match user_profile {
                Some(u) => u@,
                None => "."@,
            },
        }),
{
    match home {
        Some(h) => {
            if !h.as_str().is_empty() {
                return h;
            }
        },
        None => {},
    }
    match user_profile {
        Some(u) => u,
        None => ".".to_owned(),
    }
}

/// Some entry of a `:`-separated `PATH` is exactly the folder.
pub open spec fn unix_path_lists(current_path: Seq<char>, folder: Seq<char>) -> bool {
    exists|i: int|
        0 <= i < split_on(current_path, ':').len() && #[trigger] split_on(current_path, ':')[i]
            == folder
}

/// Is the install folder already an entry of the `:`-separated `PATH`?
pub fn unix_path_has_folder(current_path: &str, install_folder: &str) -> (r: bool)
    ensures
        r == unix_path_lists(current_path@, install_folder@),
{
    let parts = split_text(current_path, ':');
    let ghost pv = parts@.map_values(|p: String| p@);
    let mut found = false;
    let mut i: usize = 0;
    while i < parts.len()
        invariant
            pv == parts@.map_values(|p: String| p@),
            pv == split_on(current_path@, ':'),
            i <= parts@.len(),
            found == exists|j: int| 0 <= j < i && #[trigger] pv[j] == install_folder@,
        decreases parts.len() - i,
    {
        assert(pv[i as int] == parts@[i as int]@);
        if str_eq(parts[i].as_str(), install_folder) {
            found = true;
        }
        i = i + 1;
    }
    found
}

/// What happens to the user's Windows `Path`.
pub enum WindowsPathUpdate {
    /// The folder is already listed.
    AlreadyListed,
    /// The `Path` to set.
    Replace(String),
}

/// Some entry of a `;`-separated `Path` is the folder, compared in
/// lowercase.
pub open spec fn windows_path_lists(user_path: Seq<char>, folder: Seq<char>) -> bool {
    exists|i: int|
        0 <= i < split_on(user_path, ';').len() && lowercase(#[trigger] split_on(user_path, ';')[i])
            == lowercase(folder)
}

/// The `Path` with the folder appended: the folder alone for an empty `Path`,
/// else after a `;`.
pub open spec fn windows_path_appended(user_path: Seq<char>, folder: Seq<char>) -> Seq<char> {
    if user_path.len() == 0 {
        folder
    } else {
        user_path + seq![';'] + folder
    }
}

/// The update of the user's `Path` (already trimmed): nothing when the
/// folder is listed (compared in lowercase), else the `Path` with the folder
/// appended.
pub fn windows_path_update_for(user_path: &str, install_folder: &str) -> (r: WindowsPathUpdate)
    ensures
        match r {
            WindowsPathUpdate::AlreadyListed => windows_path_lists(user_path@, install_folder@),
            WindowsPathUpdate::Replace(p) => !windows_path_lists(user_path@, install_folder@) && p@
                == windows_path_appended(user_path@, install_folder@),
        },
{
    let parts = split_text(user_path, ';');
    let ghost pv = parts@.map_values(|p: String| p@);
    let lower_folder = to_lower(install_folder);
    let mut found = false;
    let mut i: usize = 0;
    while i < parts.len()
        invariant
            pv == parts@.map_values(|p: String| p@),
            pv == split_on(user_path@, ';'),
            lower_folder@ == lowercase(install_folder@),
            i <= parts@.len(),
            found == exists|j: int|
                0 <= j < i && lowercase(#[trigger] pv[j]) == lowercase(install_folder@),
        decreases parts.len() - i,
    {
        assert(pv[i as int] == parts@[i as int]@);
        let lower_part = to_lower(parts[i].as_str());
        if str_eq(lower_part.as_str(), lower_folder.as_str()) {
            found = true;
        }
        i = i + 1;
    }
    if found {
        return WindowsPathUpdate::AlreadyListed;
    }
    if user_path.is_empty() {
        WindowsPathUpdate::Replace(install_folder.to_owned())
    } else {
        let mut p = user_path.to_owned();
        push_char(&mut p, ';');
        p.append(install_folder);
        WindowsPathUpdate::Replace(p)
    }
}

/// The update of the user's Windows `Path` from what the query of it printed:
/// the output is decoded (invalid UTF-8 replaced) and trimmed, then
/// `windows_path_update_for` decides.
pub fn windows_path_update(user_path_output: &[u8], install_folder: &str) -> (r: WindowsPathUpdate)
    ensures
        match r {
            WindowsPathUpdate::AlreadyListed => windows_path_lists(
                trimmed(lossy_utf8(user_path_output@)),
                install_folder@,
            ),
            WindowsPathUpdate::Replace(p) => !windows_path_lists(
                trimmed(lossy_utf8(user_path_output@)),
                install_folder@,
            ) && p@ == windows_path_appended(trimmed(lossy_utf8(user_path_output@)), install_folder@),
        },
{
    let decoded = decode_lossy(user_path_output);
    let user_path = trim_text(decoded.as_str());
    windows_path_update_for(user_path.as_str(), install_folder)
}

/// The appended `Path` lists the folder.
pub proof fn lemma_appended_path_lists(user_path: Seq<char>, folder: Seq<char>)
    requires
        forall|c: char| folder.contains(c) ==> c != ';',
    ensures
        windows_path_lists(windows_path_appended(user_path, folder), folder),
{
    let appended = windows_path_appended(user_path, folder);
    if user_path.len() > 0 {
        assert(appended.subrange(appended.len() - folder.len(), appended.len() as int) =~= folder);
        assert(appended[appended.len() - folder.len() - 1] == ';');
    }
    lemma_split_last_piece(appended, folder, ';');
    crate::text::lemma_split_on_nonempty(appended, ';');
    let n = split_on(appended, ';').len();
    assert(lowercase(split_on(appended, ';')[n - 1]) == lowercase(folder));
}

/// A text that ends with a separator-free tail after a separator (or is that
/// tail) splits with that tail as its last piece.
proof fn lemma_split_last_piece(s: Seq<char>, tail: Seq<char>, sep: char)
    requires
        forall|c: char| tail.contains(c) ==> c != sep,
        s == tail || (s.len() > tail.len() && s.subrange(s.len() - tail.len(), s.len() as int) == tail
            && s[s.len() - tail.len() - 1] == sep),
    ensures
        split_on(s, sep).last() == tail,
    decreases tail.len(),
{
    crate::text::lemma_split_on_nonempty(s, sep);
    if tail.len() == 0 {
        if s.len() > 0 {
            assert(s.last() == sep);
        }
    } else {
        let t2 = tail.drop_last();
        assert(tail.contains(tail.last()));
        assert forall|c: char| t2.contains(c) implies c != sep by {
            let k = choose|k: int| 0 <= k < t2.len() && t2[k] == c;
            assert(tail[k] == c);
            assert(tail.contains(c));
        }
        let s2 = s.drop_last();
        if s == tail {
            assert(s2 =~= t2);
        } else {
            assert(s2.subrange(s2.len() - t2.len(), s2.len() as int) =~= t2);
            assert(s2[s2.len() - t2.len() - 1] == s[s.len() - tail.len() - 1]);
        }
        lemma_split_last_piece(s2, t2, sep);
        crate::text::lemma_split_on_nonempty(s2, sep);
        assert(s.last() == tail.last());
        assert(split_on(s2, sep).last().push(s.last()) =~= tail);
    }
}

} // verus!
