//! What a configuration holds: libraries, each with its source, its pinned
//! revision, its variables and its steps. The maps are `indexmap::IndexMap`s,
//! which keep their entries in the order in which the keys first came.

use indexmap::IndexMap;
use vstd::prelude::*;
use crate::ordered::put;

verus! {

/// `indexmap::IndexMap`, taken as it is. Nothing of its inside is known here:
/// what a map holds is told by `variable_entries`, `step_entries` and
/// `library_entries`, and what its methods do to that by the functions at
/// the end of this file, none of which is proved.
#[verifier::external_type_specification]
#[verifier::external_body]
#[verifier::reject_recursive_types(K)]
#[verifier::reject_recursive_types(V)]
#[verifier::reject_recursive_types(S)]
pub struct ExIndexMap<K, V, S>(IndexMap<K, V, S>);

/// One library of a configuration.
#[derive(Debug)]
pub struct Library {
    /// Where the library comes from.
    pub source: String,
    /// The revision it is pinned to.
    pub commit: String,
    /// Its variables, in the order of their first assignment.
    pub variables: IndexMap<String, String>,
    /// Its steps, in the order of their first declaration: each a name and the
    /// commands to run, placeholders filled in.
    pub steps: IndexMap<String, Vec<String>>,
}

/// A library as a mathematical value.
pub struct LibraryView {
    pub source: Seq<char>,
    pub commit: Seq<char>,
    pub variables: Seq<(Seq<char>, Seq<char>)>,
    pub steps: Seq<(Seq<char>, Seq<Seq<char>>)>,
}

/// The entries of a map of variables, in the map's order: name and value.
pub uninterp spec fn variable_entries(map: IndexMap<String, String>) -> Seq<(Seq<char>, Seq<char>)>;

/// The entries of a map of steps, in the map's order: name and commands.
pub uninterp spec fn step_entries(map: IndexMap<String, Vec<String>>) -> Seq<
    (Seq<char>, Seq<Seq<char>>),
>;

/// The entries of a map of libraries, in the map's order: name and library.
pub uninterp spec fn library_entries(map: IndexMap<String, Library>) -> Seq<
    (Seq<char>, LibraryView),
>;

impl View for Library {
    type V = LibraryView;

    open spec fn view(&self) -> LibraryView {
        LibraryView {
            source: self.source@,
            commit: self.commit@,
            variables: variable_entries(self.variables),
            steps: step_entries(self.steps),
        }
    }
}

/// A parsed configuration.
#[derive(Debug)]
pub struct Config {
    /// The libraries, in the order of their first declaration.
    pub libraries: IndexMap<String, Library>,
}

impl View for Config {
    type V = Seq<(Seq<char>, LibraryView)>;

    open spec fn view(&self) -> Seq<(Seq<char>, LibraryView)> {
        library_entries(self.libraries)
    }
}

/// The commands of a step, each as its characters.
pub open spec fn command_views(commands: Seq<String>) -> Seq<Seq<char>> {
    Seq::new(commands.len(), |i: int| commands[i]@)
}

/// `IndexMap::new`, for variables: the new map has no entry.
#[verifier::external_body]
pub(crate) fn new_variables() -> (map: IndexMap<String, String>)
    ensures
        variable_entries(map) == Seq::<(Seq<char>, Seq<char>)>::empty(),
{
    IndexMap::new()
}

/// `IndexMap::new`, for steps: the new map has no entry.
#[verifier::external_body]
pub(crate) fn new_steps() -> (map: IndexMap<String, Vec<String>>)
    ensures
        step_entries(map) == Seq::<(Seq<char>, Seq<Seq<char>>)>::empty(),
{
    IndexMap::new()
}

/// `IndexMap::new`, for libraries: the new map has no entry.
#[verifier::external_body]
pub(crate) fn new_libraries() -> (map: IndexMap<String, Library>)
    ensures
        library_entries(map) == Seq::<(Seq<char>, LibraryView)>::empty(),
{
    IndexMap::new()
}

/// `IndexMap::insert`, for variables. A name that the map holds keeps its place
/// and gets the new value; a new name goes last.
#[verifier::external_body]
pub(crate) fn insert_variable(map: &mut IndexMap<String, String>, name: String, value: String)
    ensures
        variable_entries(*final(map)) == put(variable_entries(*old(map)), name@, value@),
{
    map.insert(name, value);
}

/// `IndexMap::insert`, for steps. A name that the map holds keeps its place and
/// gets the new commands; a new name goes last.
#[verifier::external_body]
pub(crate) fn insert_step(
    map: &mut IndexMap<String, Vec<String>>,
    name: String,
    commands: Vec<String>,
)
    ensures
        step_entries(*final(map)) == put(step_entries(*old(map)), name@, command_views(commands@)),
{
    map.insert(name, commands);
}

/// `IndexMap::insert`, for libraries. A name that the map holds keeps its place
/// and gets the new library; a new name goes last.
#[verifier::external_body]
pub(crate) fn insert_library(map: &mut IndexMap<String, Library>, name: String, library: Library)
    ensures
        library_entries(*final(map)) == put(library_entries(*old(map)), name@, library@),
{
    map.insert(name, library);
}

/// `IndexMap::len`, for variables: the number of entries.
#[verifier::external_body]
pub(crate) fn variable_count(map: &IndexMap<String, String>) -> (count: usize)
    ensures
        count == variable_entries(*map).len(),
{
    map.len()
}

/// `IndexMap::len`, for steps: the number of entries.
#[verifier::external_body]
pub(crate) fn step_count(map: &IndexMap<String, Vec<String>>) -> (count: usize)
    ensures
        count == step_entries(*map).len(),
{
    map.len()
}

/// `IndexMap::get_index`, for variables: the entry at `index` in the map's
/// order, and `None` from the number of entries on.
#[verifier::external_body]
pub(crate) fn variable_at(map: &IndexMap<String, String>, index: usize) -> (entry: Option<
    (&String, &String),
>)
    ensures
        match entry {
            Some((name, value)) => index < variable_entries(*map).len() && (name@, value@)
                == variable_entries(*map)[index as int],
            None => index >= variable_entries(*map).len(),
        },
{
    map.get_index(index)
}

/// `IndexMap::get_index`, for steps: the entry at `index` in the map's order,
/// and `None` from the number of entries on.
#[verifier::external_body]
pub(crate) fn step_at(map: &IndexMap<String, Vec<String>>, index: usize) -> (entry: Option<
    (&String, &Vec<String>),
>)
    ensures
        match entry {
            Some((name, commands)) => index < step_entries(*map).len() && (
                name@,
                command_views(commands@),
            ) == step_entries(*map)[index as int],
            None => index >= step_entries(*map).len(),
        },
{
    map.get_index(index)
}

} // verus!
