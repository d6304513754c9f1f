use vstd::prelude::*;
use vstd::string::*;

use crate::search::{after_inserts, RadixNode};

verus! {

/// One catalog entry: the name shown to the user and looked up, and the
/// path or command that launching it runs.
#[derive(Debug, Clone)]
pub struct App {
    pub path: String,
    pub name: String,
}

impl View for App {
    /// The entry as (name, path).
    type V = (Seq<char>, Seq<char>);

    open spec fn view(&self) -> (Seq<char>, Seq<char>) {
        (self.name@, self.path@)
    }
}

impl App {
    pub fn new(path: &str, name: &str) -> (r: App)
        ensures
            r@ == (name@, path@),
    {
        App { path: String::from_str(path), name: String::from_str(name) }
    }
}

/// Why an entry could not be launched.
#[derive(Debug, PartialEq, Eq, Structural)]
pub enum LaunchError {
    /// No entry of the catalog has the requested name.
    NotFound,
    /// The operating system refused to start the entry's target.
    SpawnFailed,
}

/// The entries of a catalog, as (name, path) pairs.
pub open spec fn app_views(apps: Seq<App>) -> Seq<(Seq<char>, Seq<char>)> {
    apps.map_values(|a: App| a@)
}

/// The names of a catalog's entries.
pub open spec fn names_of(apps: Seq<App>) -> Seq<Seq<char>> {
    apps.map_values(|a: App| a.name@)
}

/// `x` and `y` are the same character once ASCII letters are lowercased.
pub open spec fn same_char_ignoring_ascii_case(x: char, y: char) -> bool {
    x == y || ('A' <= x <= 'Z' && x as u32 + 32 == y as u32) || ('A' <= y <= 'Z' && y as u32 + 32
        == x as u32)
}

/// `a` and `b` are the same string once ASCII letters are lowercased.
pub open spec fn same_ignoring_ascii_case(a: Seq<char>, b: Seq<char>) -> bool {
    a.len() == b.len() && forall|i: int|
        0 <= i < a.len() ==> same_char_ignoring_ascii_case(#[trigger] a[i], b[i])
}

fn chars_eq_ignore_ascii_case(x: char, y: char) -> (r: bool)
    ensures
        r == same_char_ignoring_ascii_case(x, y),
{
    x == y || ('A' <= x && x <= 'Z' && x as u32 + 32 == y as u32) || ('A' <= y && y <= 'Z' && y as u32
        + 32 == x as u32)
}

/// Compares two strings, ignoring the case of ASCII letters.
pub fn eq_ignore_ascii_case(a: &str, b: &str) -> (r: bool)
    ensures
        r == same_ignoring_ascii_case(a@, b@),
{
    let la = a.unicode_len();
    let lb = b.unicode_len();
    if la != lb {
        return false;
    }
    let mut i: usize = 0;
    while i < la
        invariant
            la == a@.len(),
            lb == b@.len(),
            la == lb,
            i <= la,
            forall|j: int| 0 <= j < i ==> same_char_ignoring_ascii_case(#[trigger] a@[j], b@[j]),
        decreases la - i,
    {
        if !chars_eq_ignore_ascii_case(a.get_char(i), b.get_char(i)) {
            return false;
        }
        i = i + 1;
    }
    true
}

/// The path of the catalog file under the user's configuration directory.
pub fn apps_json_path(config_dir: &str) -> (r: String)
    ensures
        r@ == config_dir@ + "/vimcast/apps.json"@,
{
    let mut r = String::from_str(config_dir);
    r.append("/vimcast/apps.json");
    r
}

/// Adds the name of each entry of the catalog to the index, in order.
pub fn load(db: &mut RadixNode, apps: &Vec<App>)
    requires
        old(db).wf(),
    ensures
        final(db).wf(),
        final(db)@ == after_inserts(old(db)@, names_of(apps@)),
{
    let mut i: usize = 0;
    while i < apps.len()
        invariant
            db.wf(),
            i <= apps@.len(),
            db@ == after_inserts(old(db)@, names_of(apps@.take(i as int))),
        decreases apps@.len() - i,
    {
        proof {
            assert(names_of(apps@.take(i + 1)).drop_last() =~= names_of(apps@.take(i as int)));
        }
        db.insert(apps[i].name.as_str());
        i = i + 1;
    }
    proof {
        assert(apps@.take(i as int) =~= apps@);
    }
}

/// Finds the path to run for `name`: that of the first entry whose name
/// matches it, ignoring ASCII case.
pub fn find_target(apps: &Vec<App>, name: &str) -> (r: Result<String, LaunchError>)
    ensures
        match r {
            Ok(t) => exists|i: int|
                0 <= i < apps@.len() && same_ignoring_ascii_case(apps@[i].name@, name@) && (forall|j: int|
                    0 <= j < i ==> !same_ignoring_ascii_case(#[trigger] apps@[j].name@, name@))
                    && t@ == apps@[i].path@,
            Err(e) => e == LaunchError::NotFound && forall|i: int|
                0 <= i < apps@.len() ==> !same_ignoring_ascii_case(#[trigger] apps@[i].name@, name@),
        },
{
    let mut i: usize = 0;
    while i < apps.len()
        invariant
            i <= apps@.len(),
            forall|j: int| 0 <= j < i ==> !same_ignoring_ascii_case(#[trigger] apps@[j].name@, name@),
        decreases apps@.len() - i,
    {
        if eq_ignore_ascii_case(apps[i].name.as_str(), name) {
            return Ok(apps[i].path.clone());
        }
        i = i + 1;
    }
    Err(LaunchError::NotFound)
}

} // verus!
