//! Where the tool keeps its data.
//!
//! These are per user, never per directory. Data goes to the local directory,
//! not the one that roams with the user profile; configuration goes to the one
//! that does.
use vstd::prelude::*;
use vstd::string::*;

use crate::text::same_text;

verus! {

/// The folder name every path here is built from.
pub const APPLICATION: &'static str = "snob-ig";

/// A place in the file system: where the names start, and the names down from
/// there.
#[derive(Debug)]
pub struct Location {
    /// What the names hang off, as the platform writes it: `/`, `C:\`, or
    /// nothing for a relative place.
    pub root: String,
    pub names: Vec<String>,
}

/// What a place is: the root and the names.
pub struct Place {
    pub root: Seq<char>,
    pub names: Seq<Seq<char>>,
}

impl View for Location {
    type V = Place;

    open spec fn view(&self) -> Place {
        Place { root: self.root@, names: self.names@.map_values(|name: String| name@) }
    }
}

impl Place {
    /// The place written out, with this between the names.
    pub open spec fn text(self, separator: char) -> Seq<char> {
        self.root + joined(self.names, separator)
    }

    /// The place of that name inside this one.
    pub open spec fn inside(self, name: Seq<char>) -> Place {
        Place { root: self.root, names: self.names.push(name) }
    }

    /// Whether this is another place or somewhere below it.
    pub open spec fn is_under(self, other: Place) -> bool {
        &&& self.root == other.root
        &&& self.names.len() >= other.names.len()
        &&& self.names.take(other.names.len() as int) == other.names
    }
}

/// Names written one behind another.
pub open spec fn joined(names: Seq<Seq<char>>, separator: char) -> Seq<char>
    decreases names.len(),
{
    if names.len() == 0 {
        Seq::empty()
    } else if names.len() == 1 {
        names[0]
    } else {
        joined(names.drop_last(), separator) + seq![separator] + names.last()
    }
}

fn copy_names(names: &Vec<String>) -> (r: Vec<String>)
    ensures
        r@ == names@,
{
    let mut r: Vec<String> = Vec::new();
    let mut i: usize = 0;
    while i < names.len()
        invariant
            i <= names@.len(),
            r@ == names@.take(i as int),
        decreases names@.len() - i,
    {
        r.push(names[i].clone());
        assert(r@ == names@.take(i + 1));
        i = i + 1;
    }
    assert(names@.take(names@.len() as int) == names@);
    r
}

impl Clone for Location {
    fn clone(&self) -> (r: Location)
        ensures
            r@ == self@,
    {
        Location { root: self.root.clone(), names: copy_names(&self.names) }
    }
}

impl Location {
    /// The place written out, with what this platform puts between the names.
    pub fn to_text(&self, separator: char) -> (r: String)
        ensures
            r@ == self@.text(separator),
    {
        let mut out = self.root.clone();
        let ghost all = self@.names;
        let mut i: usize = 0;
        assert(out@ =~= self@.root + joined(all.take(0), separator));
        while i < self.names.len()
            invariant
                all == self@.names,
                i <= self.names@.len() == all.len(),
                out@ == self@.root + joined(all.take(i as int), separator),
            decreases self.names@.len() - i,
        {
            let ghost before = out@;
            if i > 0 {
                out.push(separator);
            }
            out.append(self.names[i].as_str());
            proof {
                let next = all.take(i + 1);
                assert(next.drop_last() == all.take(i as int));
                assert(next.last() == self.names@[i as int]@);
                if i > 0 {
                    assert(out@ =~= before + seq![separator] + next.last());
                } else {
                    assert(all.take(0) == Seq::<Seq<char>>::empty());
                    assert(out@ =~= before + next.last());
                }
                assert(out@ =~= self@.root + joined(next, separator));
            }
            i = i + 1;
        }
        assert(all.take(all.len() as int) == all);
        out
    }

    /// The place of that name inside this one.
    pub fn join(&self, name: &str) -> (r: Location)
        ensures
            r@ == self@.inside(name@),
    {
        let mut names = copy_names(&self.names);
        names.push(name.to_owned());
        let r = Location { root: self.root.clone(), names };
        assert(r@.names =~= self@.names.push(name@));
        r
    }

    /// Whether two places are the same, name by name.
    pub fn same(&self, other: &Location) -> (r: bool)
        ensures
            r == (self@ == other@),
    {
        if self.names.len() != other.names.len() {
            assert(self@.names.len() != other@.names.len());
            return false;
        }
        self.starts_with(other)
    }

    /// Whether this is another place or somewhere below it.
    pub fn starts_with(&self, other: &Location) -> (r: bool)
        ensures
            r == self@.is_under(other@),
            self@.names.len() == other@.names.len() ==> r == (self@ == other@),
    {
        if self.names.len() < other.names.len() || !same_text(
            self.root.as_str(),
            other.root.as_str(),
        ) {
            return false;
        }
        let mut i: usize = 0;
        while i < other.names.len()
            invariant
                self@.root == other@.root,
                i <= other.names@.len() <= self.names@.len(),
                forall|j: int| 0 <= j < i ==> #[trigger] self@.names[j] == other@.names[j],
            decreases other.names@.len() - i,
        {
            if !same_text(self.names[i].as_str(), other.names[i].as_str()) {
                assert(self@.names[i as int] != other@.names[i as int]);
                assert(self@.names.take(other@.names.len() as int)[i as int]
                    != other@.names[i as int]);
                return false;
            }
            i = i + 1;
        }
        assert(self@.names.take(other@.names.len() as int) =~= other@.names);
        assert(self@.names.len() == other@.names.len() ==> self@.names =~= other@.names);
        true
    }
}

/// What can go wrong with a place.
#[derive(Debug, PartialEq, Eq)]
pub enum PathError {
    NoHome,
    Create { path: String, source: String },
    /// The directory exists and could not be limited to this account.
    NotPrivate { path: String, detail: String },
}

impl PathError {
    /// What is said to the user.
    pub open spec fn says(self) -> Seq<char> {
        match self {
            PathError::NoHome => "could not determine the user's data directory"@,
            PathError::Create { path, source } => "could not create the directory "@ + path@ + ": "@
                + source@,
            PathError::NotPrivate { path, detail } => "could not restrict "@ + path@
                + " to your account: "@ + detail@,
        }
    }

    pub fn to_string(&self) -> (r: String)
        ensures
            r@ == self.says(),
    {
        match self {
            PathError::NoHome => "could not determine the user's data directory".to_owned(),
            PathError::Create { path, source } => {
                let mut out = "could not create the directory ".to_owned();
                out.append(path.as_str());
                out.append(": ");
                out.append(source.as_str());
                out
            },
            PathError::NotPrivate { path, detail } => {
                let mut out = "could not restrict ".to_owned();
                out.append(path.as_str());
                out.append(" to your account: ");
                out.append(detail.as_str());
                out
            },
        }
    }
}

/// Where a platform keeps what belongs to one user and this program.
#[derive(Debug)]
pub struct UserDirs {
    pub config: Location,
    /// Data that stays on this machine.
    pub local_data: Location,
    /// Data that follows the user to others, where the platform tells the two
    /// apart.
    pub roaming_data: Location,
}

/// The directories of one user.
#[derive(Debug)]
pub struct AppPaths {
    config: Location,
    data: Location,
    /// Data directory used by earlier versions. It is read to rescue whatever is
    /// there, never written to.
    legacy_data: Option<Location>,
}

/// The place in an optional location.
pub open spec fn place_in(location: Option<Location>) -> Option<Place> {
    match location {
        Some(location) => Some(location@),
        None => None,
    }
}

impl Clone for AppPaths {
    fn clone(&self) -> (r: AppPaths)
        ensures
            r.config_place() == self.config_place(),
            r.data_place() == self.data_place(),
            r.legacy_place() == self.legacy_place(),
    {
        AppPaths {
            config: self.config.clone(),
            data: self.data.clone(),
            legacy_data: match &self.legacy_data {
                Some(legacy) => Some(legacy.clone()),
                None => None,
            },
        }
    }
}

/// The places in some locations.
pub open spec fn places(list: Seq<Location>) -> Seq<Place> {
    list.map_values(|location: Location| location@)
}

impl AppPaths {
    pub closed spec fn config_place(self) -> Place {
        self.config@
    }

    pub closed spec fn data_place(self) -> Place {
        self.data@
    }

    pub closed spec fn legacy_place(self) -> Option<Place> {
        place_in(self.legacy_data)
    }

    /// The directories of a user, from where the platform keeps theirs. Earlier
    /// versions used the roaming one, so that is where to look for what they left,
    /// where it is another.
    pub fn discover(dirs: Option<UserDirs>) -> (r: Result<AppPaths, PathError>)
        ensures
            match dirs {
                None => r == Err::<AppPaths, PathError>(PathError::NoHome),
                Some(dirs) => r matches Ok(paths) && {
                    &&& paths.config_place() == dirs.config@
                    &&& paths.data_place() == dirs.local_data@
                    &&& paths.legacy_place() == (if dirs.roaming_data@ == dirs.local_data@ {
                        None
                    } else {
                        Some(dirs.roaming_data@)
                    })
                },
            },
    {
        match dirs {
            None => Err(PathError::NoHome),
            Some(dirs) => {
                let legacy_data = if dirs.roaming_data.same(&dirs.local_data) {
                    None
                } else {
                    Some(dirs.roaming_data)
                };
                Ok(AppPaths { config: dirs.config, data: dirs.local_data, legacy_data })
            },
        }
    }

    /// Puts every directory under one root.
    pub fn rooted_at(root: Location) -> (r: AppPaths)
        ensures
            r.config_place() == root@.inside("config"@),
            r.data_place() == root@.inside("data"@),
            r.legacy_place() == Some(root@.inside("legacy-data"@)),
    {
        AppPaths {
            config: root.join("config"),
            data: root.join("data"),
            legacy_data: Some(root.join("legacy-data")),
        }
    }

    /// Where configuration lives. Not created until something writes to it.
    pub fn config_dir(&self) -> (r: &Location)
        ensures
            r@ == self.config_place(),
    {
        &self.config
    }

    pub fn data_dir(&self) -> (r: &Location)
        ensures
            r@ == self.data_place(),
    {
        &self.data
    }

    /// What to create before anything is written: only the data directory. The
    /// configuration directory is created by what writes to it.
    pub fn ensure_dirs(&self) -> (r: Vec<Location>)
        ensures
            places(r@) == seq![self.data_place()],
    {
        let mut r: Vec<Location> = Vec::new();
        r.push(self.data.clone());
        assert(places(r@) =~= seq![self.data_place()]);
        r
    }

    pub fn db_file(&self) -> (r: Location)
        ensures
            r@ == self.data_place().inside("snob.db"@),
    {
        self.data.join("snob.db")
    }

    /// Where the session is kept when the system keyring is unavailable.
    pub open spec fn session_place(self) -> Place {
        self.data_place().inside("session.json"@)
    }

    pub fn session_file(&self) -> (r: Location)
        ensures
            r@ == self.session_place(),
    {
        self.data.join("session.json")
    }

    /// Where an earlier version of the tool would look for the session.
    pub open spec fn legacy_session_place(self) -> Option<Place> {
        match self.legacy_place() {
            Some(legacy) => Some(legacy.inside("session.json"@)),
            None => None,
        }
    }

    pub fn legacy_session_file(&self) -> (r: Option<Location>)
        ensures
            place_in(r) == self.legacy_session_place(),
    {
        match &self.legacy_data {
            Some(legacy) => Some(legacy.join("session.json")),
            None => None,
        }
    }

    /// Every file a session can be sitting in.
    pub open spec fn session_places(self) -> Seq<Place> {
        match self.legacy_session_place() {
            Some(legacy) => seq![self.session_place(), legacy],
            None => seq![self.session_place()],
        }
    }

    pub fn session_files(&self) -> (r: Vec<Location>)
        ensures
            places(r@) == self.session_places(),
    {
        let mut r: Vec<Location> = Vec::new();
        r.push(self.session_file());
        if let Some(legacy) = self.legacy_session_file() {
            r.push(legacy);
        }
        assert(places(r@) =~= self.session_places());
        r
    }

    /// Browser profile used by the login. Never the user's real profile.
    pub fn browser_profile(&self) -> (r: Location)
        ensures
            r@ == self.data_place().inside("browser-profile"@),
    {
        self.data.join("browser-profile")
    }

    /// The directories this tool may have created, as they come.
    pub open spec fn all_places(self) -> Seq<Place> {
        match self.legacy_place() {
            Some(legacy) => seq![self.data_place(), self.config_place(), legacy],
            None => seq![self.data_place(), self.config_place()],
        }
    }

    /// Every directory this tool may have created, each once: on some platforms
    /// two of them are one place.
    pub fn owned_dirs(&self) -> (r: Vec<Location>)
        ensures
            places(r@) == without_repeats(self.all_places()),
    {
        let mut r: Vec<Location> = Vec::new();
        r.push(self.data.clone());
        let ghost first = self.all_places().take(1);
        proof {
            assert(first.drop_last() == Seq::<Place>::empty());
            assert(without_repeats(first.drop_last()) == Seq::<Place>::empty());
            assert(places(r@) =~= without_repeats(first));
        }
        add_place(&mut r, &self.config);
        let ghost second = self.all_places().take(2);
        proof {
            assert(second.drop_last() == first);
            assert(second.last() == self.config@);
            assert(places(r@) == without_repeats(second));
        }
        if let Some(legacy) = &self.legacy_data {
            add_place(&mut r, legacy);
            proof {
                assert(self.all_places().drop_last() == second);
                assert(self.all_places().last() == legacy@);
            }
        } else {
            assert(self.all_places() == second);
        }
        r
    }
}

/// Some places, each once, where it first comes.
pub open spec fn without_repeats(list: Seq<Place>) -> Seq<Place>
    decreases list.len(),
{
    if list.len() == 0 {
        Seq::empty()
    } else {
        let rest = without_repeats(list.drop_last());
        if rest.contains(list.last()) {
            rest
        } else {
            rest.push(list.last())
        }
    }
}

fn add_place(list: &mut Vec<Location>, place: &Location)
    ensures
        places(final(list)@) == (if places(old(list)@).contains(place@) {
            places(old(list)@)
        } else {
            places(old(list)@).push(place@)
        }),
{
    let ghost known = places(list@);
    let mut i: usize = 0;
    while i < list.len()
        invariant
            list@ == old(list)@,
            known == places(list@),
            i <= list@.len(),
            forall|j: int| 0 <= j < i ==> #[trigger] known[j] != place@,
        decreases list@.len() - i,
    {
        if list[i].same(place) {
            assert(known[i as int] == place@);
            return;
        }
        i = i + 1;
    }
    assert(!known.contains(place@));
    list.push(place.clone());
    assert(places(list@) =~= known.push(place@));
}

/// The folder name every path here is built from, for a caller that recognizes
/// one of these directories.
pub fn app_dir_name() -> (r: &'static str)
    ensures
        r@ == APPLICATION@,
{
    APPLICATION
}

/// Whether a directory is plausible as one of ours, and so may be deleted whole:
/// at least two levels below the root, and not the home directory, where there
/// is one to tell it from.
pub open spec fn may_be_removed(dir: Place, home: Option<Place>) -> bool {
    &&& dir.names.len() >= 2
    &&& home != Some(dir)
}

pub fn is_safe_to_remove(dir: &Location, home: Option<&Location>) -> (r: bool)
    ensures
        r == may_be_removed(
            dir@,
            match home {
                Some(home) => Some(home@),
                None => None,
            },
        ),
{
    if dir.names.len() < 2 {
        return false;
    }
    match home {
        Some(home) => !dir.same(home),
        None => true,
    }
}

proof fn lemma_without_repeats(list: Seq<Place>)
    ensures
        forall|i: int, j: int|
            0 <= i < j < without_repeats(list).len() ==> #[trigger] without_repeats(list)[i]
                != #[trigger] without_repeats(list)[j],
        forall|place: Place| #[trigger]
            without_repeats(list).contains(place) <==> list.contains(place),
    decreases list.len(),
{
    if list.len() > 0 {
        let rest = list.drop_last();
        let all = without_repeats(list);
        let some = without_repeats(rest);
        lemma_without_repeats(rest);
        assert forall|place: Place| #[trigger] all.contains(place) <==> list.contains(place) by {
            assert(some.contains(place) <==> rest.contains(place));
            if rest.contains(place) {
                let i = choose|i: int| 0 <= i < rest.len() && rest[i] == place;
                assert(list[i] == place);
                let k = choose|k: int| 0 <= k < some.len() && some[k] == place;
                assert(all[k] == place);
            }
            if place == list.last() {
                assert(list[list.len() - 1] == place);
                if !some.contains(place) {
                    assert(all[some.len() as int] == place);
                }
            }
            if list.contains(place) && place != list.last() {
                let i = choose|i: int| 0 <= i < list.len() && list[i] == place;
                assert(rest[i] == place);
            }
            if all.contains(place) && !some.contains(place) {
                let k = choose|k: int| 0 <= k < all.len() && all[k] == place;
                if k < some.len() {
                    assert(some[k] == place);
                }
            }
        }
        assert forall|i: int, j: int| 0 <= i < j < all.len() implies #[trigger] all[i]
            != #[trigger] all[j] by {
            assert(all[i] == some[i]);
            if j < some.len() {
                assert(all[j] == some[j]);
            } else {
                assert(some.contains(some[i]));
            }
        }
    } else {
        assert(without_repeats(list) == list);
    }
}

/// Everything that is written is under a directory that is removed whole: the
/// database, the session wherever it was kept, the browser profile and the
/// configuration.
pub proof fn every_file_is_under_a_directory_that_is_removed(paths: AppPaths, name: Seq<char>, place: Place)
    requires
        paths.all_places().contains(place),
    ensures
        without_repeats(paths.all_places()).contains(place),
        place.inside(name).is_under(place),
        paths.all_places().contains(paths.data_place()),
        paths.all_places().contains(paths.config_place()),
        paths.legacy_place() matches Some(legacy) ==> paths.all_places().contains(legacy),
        paths.session_place().is_under(paths.data_place()),
{
    lemma_without_repeats(paths.all_places());
    let all = paths.all_places();
    assert(all[0] == paths.data_place());
    assert(all[1] == paths.config_place());
    if paths.legacy_place() is Some {
        assert(all[2] == paths.legacy_place()->0);
    }
    assert(place.inside(name).names.take(place.names.len() as int) =~= place.names);
    let data = paths.data_place();
    assert(paths.session_place().names.take(data.names.len() as int) =~= data.names);
}

/// No directory is on the list to remove twice, and it lists what there is.
pub proof fn the_list_to_remove_has_no_repeats(paths: AppPaths, place: Place)
    ensures
        forall|i: int, j: int|
            0 <= i < j < without_repeats(paths.all_places()).len()
                ==> #[trigger] without_repeats(paths.all_places())[i]
                != #[trigger] without_repeats(paths.all_places())[j],
        without_repeats(paths.all_places()).contains(place) <==> paths.all_places().contains(place),
{
    lemma_without_repeats(paths.all_places());
}

/// Nothing near the root is removed, nor the home directory itself.
pub proof fn nothing_near_the_root_is_removed(dir: Place, home: Place)
    ensures
        dir.names.len() < 2 ==> !may_be_removed(dir, Some(home)) && !may_be_removed(dir, None),
        !may_be_removed(home, Some(home)),
{
}

/// A directory that is two names below a root or deeper may be removed, unless it is the
/// home directory.
pub proof fn a_directory_of_its_own_may_be_removed(dir: Place, home: Place)
    requires
        dir.names.len() >= 2,
        dir != home,
    ensures
        may_be_removed(dir, Some(home)),
        may_be_removed(dir, None),
{
}

/// A place inside another is written behind it, with the separator between them.
pub proof fn a_place_is_written_behind_the_one_it_is_in(
    dir: Place,
    name: Seq<char>,
    separator: char,
)
    ensures
        dir.names.len() > 0 ==> dir.inside(name).text(separator) == dir.text(separator) + seq![
            separator,
        ] + name,
        dir.names.len() == 0 ==> dir.inside(name).text(separator) == dir.root + name,
        dir.inside(name).root == dir.root,
        dir.inside(name).names.len() == dir.names.len() + 1,
        dir.inside(name).names.last() == name,
{
    let inner = dir.inside(name);
    assert(inner.names.drop_last() =~= dir.names);
    if dir.names.len() > 0 {
        assert(inner.text(separator) =~= dir.text(separator) + seq![separator] + name);
    }
}

/// The session is looked for in the data directory, and where an earlier version kept it
/// when that is somewhere else.
pub proof fn where_a_session_is_looked_for(paths: AppPaths)
    ensures
        paths.session_places()[0] == paths.data_place().inside("session.json"@),
        paths.legacy_place() is None ==> paths.session_places().len() == 1,
        paths.legacy_place() matches Some(legacy) ==> paths.session_places().len() == 2
            && paths.session_places()[1] == legacy.inside("session.json"@),
{
}

} // verus!
