use vstd::prelude::*;
use vstd::string::*;

use crate::loader::{app_views, eq_ignore_ascii_case, same_ignoring_ascii_case, App};
use crate::search::views;

verus! {

/// `k` is the position of the last dot of the file name `s`.
pub open spec fn is_last_dot(s: Seq<char>, k: int) -> bool {
    0 <= k < s.len() && s[k] == '.' && forall|j: int| k < j < s.len() ==> s[j] != '.'
}

/// The file name `s` ends in the extension `ext`: after its last dot, which
/// is not its first character.
pub open spec fn has_extension(s: Seq<char>, ext: Seq<char>) -> bool {
    exists|k: int| 0 < k && is_last_dot(s, k) && s.subrange(k + 1, s.len() as int) == ext
}

/// The file name `s` without its extension.
pub open spec fn stem(s: Seq<char>) -> Seq<char> {
    if exists|k: int| 0 < k && is_last_dot(s, k) {
        s.subrange(0, choose|k: int| 0 < k && is_last_dot(s, k))
    } else {
        s
    }
}

/// The command that opens the application bundle called `name`.
pub open spec fn open_command(name: Seq<char>) -> Seq<char> {
    "open -a \""@ + name + "\""@
}

/// The entry for a directory entry called `file`, when it is an application
/// bundle: named after the bundle, run through `open`.
pub open spec fn bundle_view(file: Seq<char>) -> Option<(Seq<char>, Seq<char>)> {
    if has_extension(file, "app"@) {
        Some((stem(file), open_command(stem(file))))
    } else {
        None
    }
}

/// The entry for a shortcut file called `file`, whose target resolved to
/// `target` (`None` where it did not resolve, or points nowhere).
pub open spec fn shortcut_view(file: Seq<char>, target: Option<Seq<char>>) -> Option<
    (Seq<char>, Seq<char>),
> {
    if has_extension(file, "lnk"@) && target is Some {
        Some((file, target->0))
    } else {
        None
    }
}

/// The entries found among the directory entries called `files`, in order.
pub open spec fn bundle_views(files: Seq<Seq<char>>) -> Seq<(Seq<char>, Seq<char>)>
    decreases files.len(),
{
    if files.len() == 0 {
        Seq::empty()
    } else {
        let init = bundle_views(files.drop_last());
        match bundle_view(files.last()) {
            Some(a) => init.push(a),
            None => init,
        }
    }
}

/// The entries found among the shortcut files `links`, in order.
pub open spec fn shortcut_views(links: Seq<(Seq<char>, Option<Seq<char>>)>) -> Seq<
    (Seq<char>, Seq<char>),
>
    decreases links.len(),
{
    if links.len() == 0 {
        Seq::empty()
    } else {
        let init = shortcut_views(links.drop_last());
        match shortcut_view(links.last().0, links.last().1) {
            Some(a) => init.push(a),
            None => init,
        }
    }
}

/// Shortcut files and what each resolved to, as character sequences.
pub open spec fn link_views(links: Seq<(String, Option<String>)>) -> Seq<
    (Seq<char>, Option<Seq<char>>),
> {
    links.map_values(
        |l: (String, Option<String>)|
            (
                l.0@,
                match l.1 {
                    Some(t) => Some(t@),
                    None => None,
                },
            ),
    )
}

/// Some entry of `apps` has the name `name`, ignoring ASCII case.
pub open spec fn has_name(apps: Seq<(Seq<char>, Seq<char>)>, name: Seq<char>) -> bool {
    exists|i: int| 0 <= i < apps.len() && same_ignoring_ascii_case(#[trigger] apps[i].0, name)
}

/// `apps` with `a` added, unless an entry of that name is already there.
pub open spec fn admitted(apps: Seq<(Seq<char>, Seq<char>)>, a: (Seq<char>, Seq<char>)) -> Seq<
    (Seq<char>, Seq<char>),
> {
    if has_name(apps, a.0) {
        apps
    } else {
        apps.push(a)
    }
}

/// The entries of `found` that survive deduplication by name, ignoring
/// ASCII case: the first of each name wins.
pub open spec fn first_wins(found: Seq<(Seq<char>, Seq<char>)>) -> Seq<(Seq<char>, Seq<char>)>
    decreases found.len(),
{
    if found.len() == 0 {
        Seq::empty()
    } else {
        admitted(first_wins(found.drop_last()), found.last())
    }
}

/// No two entries of `apps` have the same name, ignoring ASCII case.
pub open spec fn names_distinct(apps: Seq<(Seq<char>, Seq<char>)>) -> bool {
    forall|i: int, j: int|
        0 <= i < j < apps.len() ==> !same_ignoring_ascii_case(#[trigger] apps[i].0, #[trigger] apps[j].0)
}

/// Where the extension of the file name `name` starts: the position of its
/// last dot, unless that dot is the first character or there is none.
fn extension_dot(name: &str) -> (r: Option<usize>)
    ensures
        match r {
            Some(k) => 0 < k && is_last_dot(name@, k as int),
            None => forall|k: int| !(0 < k && #[trigger] is_last_dot(name@, k)),
        },
{
    let n = name.unicode_len();
    let mut i: usize = n;
    while i > 0
        invariant
            n == name@.len(),
            i <= n,
            forall|j: int| i <= j < n ==> name@[j] != '.',
        decreases i,
    {
        if name.get_char(i - 1) == '.' {
            if i - 1 == 0 {
                return None;
            }
            return Some(i - 1);
        }
        i = i - 1;
    }
    None
}

fn str_eq(a: &str, b: &str) -> (r: bool)
    ensures
        r == (a@ == b@),
{
    String::from_str(a) == String::from_str(b)
}

/// The catalog entry for a directory entry called `file_name`: an
/// application bundle (extension `app`) gives an entry named after it that
/// runs `open -a "<name>"`; anything else gives none.
pub fn bundle_entry(file_name: &str) -> (r: Option<App>)
    ensures
        match r {
            Some(a) => bundle_view(file_name@) == Some(a@),
            None => bundle_view(file_name@) is None,
        },
{
    let ghost f = file_name@;
    let n = file_name.unicode_len();
    match extension_dot(file_name) {
        Some(k) => {
            if str_eq(file_name.substring_char(k + 1, n), "app") {
                let name = String::from_str(file_name.substring_char(0, k));
                let mut command = String::from_str("open -a \"");
                command.append(name.as_str());
                command.append("\"");
                proof {
                    assert(has_extension(f, "app"@));
                    let c = choose|c: int| 0 < c && is_last_dot(f, c);
                    assert(c == k);
                }
                Some(App { path: command, name })
            } else {
                proof {
                    assert forall|c: int| 0 < c && is_last_dot(f, c) implies f.subrange(c + 1, f.len() as int) != "app"@ by {
                        assert(c == k);
                    }
                }
                None
            }
        },
        None => None,
    }
}

/// The catalog entry for a shortcut file called `file_name` whose target
/// resolved to `target`: a `.lnk` file whose target resolved gives an entry
/// named after the file that runs the target; anything else gives none.
pub fn shortcut_entry(file_name: &str, target: Option<String>) -> (r: Option<App>)
    ensures
        match r {
            Some(a) => shortcut_view(
                file_name@,
                match target {
                    Some(t) => Some(t@),
                    None => None,
                },
            ) == Some(a@),
            None => shortcut_view(
                file_name@,
                match target {
                    Some(t) => Some(t@),
                    None => None,
                },
            ) is None,
        },
{
    let ghost f = file_name@;
    let n = file_name.unicode_len();
    match target {
        Some(t) => match extension_dot(file_name) {
            Some(k) => {
                if str_eq(file_name.substring_char(k + 1, n), "lnk") {
                    Some(App { path: t, name: String::from_str(file_name) })
                } else {
                    proof {
                        assert forall|c: int| 0 < c && is_last_dot(f, c) implies f.subrange(c + 1, f.len() as int) != "lnk"@ by {
                            assert(c == k);
                        }
                    }
                    None
                }
            },
            None => None,
        },
        None => None,
    }
}

/// Adds `entry` to the catalog unless an entry of the same name, ignoring
/// ASCII case, is already there.
pub fn add_unless_named(apps: &mut Vec<App>, entry: App)
    ensures
        app_views(final(apps)@) == admitted(app_views(old(apps)@), entry@),
{
    let ghost before = app_views(apps@);
    let mut i: usize = 0;
    while i < apps.len()
        invariant
            apps@ == old(apps)@,
            before == app_views(apps@),
            i <= apps@.len(),
            forall|j: int| 0 <= j < i ==> !same_ignoring_ascii_case(#[trigger] before[j].0, entry@.0),
        decreases apps@.len() - i,
    {
        if eq_ignore_ascii_case(apps[i].name.as_str(), entry.name.as_str()) {
            proof {
                assert(before[i as int].0 == apps@[i as int].name@);
                assert(has_name(before, entry@.0));
            }
            return;
        }
        i = i + 1;
    }
    apps.push(entry);
    proof {
        assert(app_views(apps@) =~= before.push(entry@));
    }
}

/// The catalog built from the names of the entries of the application
/// directories, in scanning order: one entry per application bundle, the
/// first of each name, ignoring ASCII case, winning.
pub fn catalog_from_bundles(files: &Vec<String>) -> (r: Vec<App>)
    ensures
        app_views(r@) == first_wins(bundle_views(views(files@))),
        names_distinct(app_views(r@)),
{
    let mut r: Vec<App> = Vec::new();
    let mut i: usize = 0;
    while i < files.len()
        invariant
            i <= files@.len(),
            app_views(r@) == first_wins(bundle_views(views(files@.take(i as int)))),
        decreases files@.len() - i,
    {
        let ghost found = bundle_views(views(files@.take(i as int)));
        proof {
            assert(views(files@.take(i + 1)).drop_last() =~= views(files@.take(i as int)));
            assert(views(files@.take(i + 1)).last() == files@[i as int]@);
        }
        match bundle_entry(files[i].as_str()) {
            Some(a) => {
                add_unless_named(&mut r, a);
                proof {
                    assert(bundle_views(views(files@.take(i + 1))).drop_last() == found);
                }
            },
            None => {},
        }
        i = i + 1;
    }
    proof {
        assert(files@.take(i as int) =~= files@);
        lemma_first_wins_distinct(bundle_views(views(files@)));
    }
    r
}

/// The catalog built from the shortcut files, in scanning order, each with
/// what its target resolved to: one entry per `.lnk` file whose target
/// resolved, the first of each name, ignoring ASCII case, winning.
pub fn catalog_from_shortcuts(links: &Vec<(String, Option<String>)>) -> (r: Vec<App>)
    ensures
        app_views(r@) == first_wins(shortcut_views(link_views(links@))),
        names_distinct(app_views(r@)),
{
    let mut r: Vec<App> = Vec::new();
    let mut i: usize = 0;
    while i < links.len()
        invariant
            i <= links@.len(),
            app_views(r@) == first_wins(shortcut_views(link_views(links@.take(i as int)))),
        decreases links@.len() - i,
    {
        let ghost found = shortcut_views(link_views(links@.take(i as int)));
        proof {
            assert(link_views(links@.take(i + 1)).drop_last() =~= link_views(links@.take(i as int)));
        }
        let target = match &links[i].1 {
            Some(t) => Some(t.clone()),
            None => None,
        };
        match shortcut_entry(links[i].0.as_str(), target) {
            Some(a) => {
                add_unless_named(&mut r, a);
                proof {
                    assert(shortcut_views(link_views(links@.take(i + 1))).drop_last() == found);
                }
            },
            None => {},
        }
        i = i + 1;
    }
    proof {
        assert(links@.take(i as int) =~= links@);
        lemma_first_wins_distinct(shortcut_views(link_views(links@)));
    }
    r
}

/// Deduplication leaves no two entries with the same name, ignoring ASCII
/// case.
pub proof fn lemma_first_wins_distinct(found: Seq<(Seq<char>, Seq<char>)>)
    ensures
        names_distinct(first_wins(found)),
    decreases found.len(),
{
    if found.len() > 0 {
        let prev = first_wins(found.drop_last());
        lemma_first_wins_distinct(found.drop_last());
        let a = found.last();
        if !has_name(prev, a.0) {
            let r = prev.push(a);
            assert forall|i: int, j: int| 0 <= i < j < r.len() implies !same_ignoring_ascii_case(
                #[trigger] r[i].0,
                #[trigger] r[j].0,
            ) by {
                if j == prev.len() {
                    assert(r[i] == prev[i]);
                    if same_ignoring_ascii_case(r[i].0, a.0) {
                        assert(has_name(prev, a.0));
                    }
                } else {
                    assert(r[i] == prev[i] && r[j] == prev[j]);
                }
            }
        }
    }
}

} // verus!
