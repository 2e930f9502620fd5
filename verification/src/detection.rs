//! Finding out how a repository is set up, for the settings that are offered.

use vstd::prelude::*;

use crate::config;
use crate::config::{Config, FileText, Settings};
use crate::devbox;
use crate::devbox::{Node, NodeData};
use crate::environment;
use crate::model;
use crate::paths;
use crate::process;
use crate::process::Output;
use crate::servers;
use crate::servers::{Findings, FindingsData};
use crate::text;

verus! {

broadcast use crate::model::lemma_views_push;

// ---------------------------------------------------------------------------
// What is known of a repository
// ---------------------------------------------------------------------------

/// The parts of a `package.json` that matter.
pub struct Package {
    pub package_manager: Option<String>,
    pub scripts: Vec<(String, String)>,
    pub dependencies: Vec<String>,
    pub dev_dependencies: Vec<String>,
}

/// A package and the directory that it is in.
pub struct PackageAt {
    pub root: String,
    pub package: Package,
}

/// A file that holds one of the ports searched for.
pub struct Match {
    pub path: String,
    pub contents: Vec<u8>,
}

/// A repository as it was found.
pub struct Project {
    /// The paths that Git keeps.
    pub versioned: Vec<String>,
    /// The ignored env files.
    pub env_files: Vec<String>,
    /// The contents of files.
    pub texts: Vec<FileText>,
    /// The paths that are regular files.
    pub files: Vec<String>,
    /// The paths that exist.
    pub existing: Vec<String>,
    pub packages: Vec<PackageAt>,
    /// The paths that Git ignores, among those that may be disposable.
    pub ignored: Vec<String>,
    /// The files that hold a local address with one of the leased ports.
    pub matches: Vec<Match>,
    /// Whether direnv is installed.
    pub direnv: bool,
}

/// A template for an env file, and the file to create from it.
pub struct EnvTemplate {
    pub source: String,
    pub target: String,
}

pub open spec fn opt_template(template: Option<EnvTemplate>) -> Option<(Seq<char>, Seq<char>)> {
    match template {
        Some(template) => Some((template.source@, template.target@)),
        None => None,
    }
}

/// What was detected: settings, and what the user should know.
pub struct Report {
    pub config: Config,
    pub development: Vec<String>,
    pub notices: Vec<String>,
    pub warnings: Vec<String>,
    pub env_template: Option<EnvTemplate>,
}

#[verifier::ext_equal]
pub ghost struct ReportData {
    pub settings: Settings,
    pub development: Seq<Seq<char>>,
    pub notices: Seq<Seq<char>>,
    pub warnings: Seq<Seq<char>>,
    pub env_template: Option<(Seq<char>, Seq<char>)>,
}

impl View for Report {
    type V = ReportData;

    open spec fn view(&self) -> ReportData {
        ReportData {
            settings: self.config@,
            development: model::views(self.development@),
            notices: model::views(self.notices@),
            warnings: model::views(self.warnings@),
            env_template: opt_template(self.env_template),
        }
    }
}

/// The contents of a file under this path.
pub open spec fn contents_under(path: Seq<char>) -> spec_fn((Seq<char>, Seq<char>)) -> Option<Seq<char>> {
    |f: (Seq<char>, Seq<char>)|
        if paths::same_path(f.0, path) {
            Some(f.1)
        } else {
            None
        }
}

impl Project {
    pub open spec fn text_at(&self, path: Seq<char>) -> Option<Seq<char>> {
        model::first_some(environment::file_views(self.texts@), contents_under(path))
    }

    pub open spec fn has_file(&self, path: Seq<char>) -> bool {
        paths::listed(model::views(self.files@), path)
    }

    pub open spec fn has(&self, path: Seq<char>) -> bool {
        paths::listed(model::views(self.existing@), path)
    }

    pub fn read(&self, path: &str) -> (r: Option<String>)
        ensures
            model::opt(r) == self.text_at(path@),
    {
        let ghost all = environment::file_views(self.texts@);
        for i in 0..self.texts.len()
            invariant
                all == environment::file_views(self.texts@),
                forall|k: int| 0 <= k < i ==> contents_under(path@)(#[trigger] all[k]) is None,
        {
            assert(all[i as int] == (self.texts@[i as int].path@, self.texts@[i as int].contents@));
            if paths::same(&self.texts[i].path, path) {
                proof {
                    model::found_some(all, contents_under(path@), i as int);
                }
                return Some(self.texts[i].contents.clone());
            }
        }
        proof {
            model::found_none(all, contents_under(path@));
        }
        None
    }

    pub fn is_file(&self, path: &str) -> (r: bool)
        ensures
            r == self.has_file(path@),
    {
        paths::list_contains(&self.files, path)
    }

    pub fn exists_at(&self, path: &str) -> (r: bool)
        ensures
            r == self.has(path@),
    {
        paths::list_contains(&self.existing, path)
    }
}

// ---------------------------------------------------------------------------
// Answers of Git
// ---------------------------------------------------------------------------

/// The paths that a listing of Git holds, or why there is none.
pub open spec fn listed_by(output: Output) -> Result<Seq<Seq<char>>, Seq<char>> {
    if output.success() {
        process::nul_texts(output.stdout@)
    } else {
        Err("git failed: "@ + output.complaint())
    }
}

/// Reads a listing of Git, whose entries are ended by zero bytes.
pub fn listed_paths(output: &Output) -> (r: Result<Vec<String>, String>)
    ensures
        model::outcome_list(r) == listed_by(*output),
{
    if output.succeeded() {
        process::nul_paths(&output.stdout)
    } else {
        Err(text::concat("git failed: ", &output.complaint_text()))
    }
}

/// The paths that Git ignores, by what its check printed.
pub open spec fn ignored_by(output: Output) -> Result<Seq<Seq<char>>, Seq<char>> {
    if output.code == Some(0i32) || output.code == Some(1i32) {
        process::nul_texts(output.stdout@)
    } else {
        Err("cannot check ignored paths: "@ + output.complaint())
    }
}

/// Reads which paths Git ignores: none ignored is no failure.
pub fn ignored_paths(output: &Output) -> (r: Result<Vec<String>, String>)
    ensures
        model::outcome_list(r) == ignored_by(*output),
{
    match output.code {
        Some(0) | Some(1) => process::nul_paths(&output.stdout),
        _ => Err(text::concat("cannot check ignored paths: ", &output.complaint_text())),
    }
}

/// The files that a search of Git found.
pub open spec fn found_by(output: Output) -> Result<Seq<Seq<char>>, Seq<char>> {
    if output.code == Some(1i32) {
        Ok(Seq::empty())
    } else if output.success() {
        process::nul_texts(output.stdout@)
    } else {
        Err("cannot search for hard-coded localhost ports"@)
    }
}

/// Reads which files a search of Git found: none found is no failure.
pub fn found_paths(output: &Output) -> (r: Result<Vec<String>, String>)
    ensures
        model::outcome_list(r) == found_by(*output),
{
    match output.code {
        Some(1) => {
            let none: Vec<String> = Vec::new();
            assert(model::views(none@) =~= Seq::empty());
            return Ok(none);
        },
        _ => {},
    }
    if output.succeeded() {
        process::nul_paths(&output.stdout)
    } else {
        Err("cannot search for hard-coded localhost ports".to_owned())
    }
}

// ---------------------------------------------------------------------------
// Env files
// ---------------------------------------------------------------------------

/// Whether a part of a name marks a file that is no env file of its own.
pub open spec fn is_template_word(word: Seq<char>) -> bool {
    word == "bak"@ || word == "backup"@ || word == "example"@ || word == "invalid"@ || word == "sample"@ || word
        == "template"@
}

/// Whether no part of the end of a name marks it as another kind of file.
pub open spec fn is_plain_suffix(suffix: Seq<char>) -> bool {
    forall|i: int|
        0 <= i < text::split(suffix, '.').len() ==> !is_template_word(#[trigger] text::split(suffix, '.')[i])
}

/// Whether a file is an env file by its name.
pub open spec fn is_env_name(name: Seq<char>) -> bool {
    name == ".dev.vars"@ || name == ".env"@ || (text::after_prefix(name, ".env."@) matches Some(suffix)
        && is_plain_suffix(suffix))
}

fn template_word(word: &str) -> (r: bool)
    ensures
        r == is_template_word(word@),
{
    text::same(word, "bak") || text::same(word, "backup") || text::same(word, "example") || text::same(
        word,
        "invalid",
    ) || text::same(word, "sample") || text::same(word, "template")
}

pub fn valid_env_name(name: &str) -> (r: bool)
    ensures
        r == is_env_name(name@),
{
    if text::same(name, ".dev.vars") || text::same(name, ".env") {
        return true;
    }
    match text::strip_prefix(name, ".env.") {
        Some(suffix) => {
            let parts = text::split_text(&suffix, '.');
            let ghost all = text::split(suffix@, '.');
            for i in 0..parts.len()
                invariant
                    all == model::views(parts@),
                    all == text::split(suffix@, '.'),
                    text::after_prefix(name@, ".env."@) == Some(suffix@),
                    name@ != ".dev.vars"@,
                    name@ != ".env"@,
                    forall|k: int| 0 <= k < i ==> !is_template_word(#[trigger] all[k]),
            {
                assert(all[i as int] == parts@[i as int]@);
                if template_word(&parts[i]) {
                    assert(is_template_word(text::split(suffix@, '.')[i as int]));
                    assert(!is_plain_suffix(suffix@));
                    return false;
                }
            }
            true
        },
        None => false,
    }
}

/// Whether a directory holds generated files.
pub open spec fn is_generated(component: Seq<char>) -> bool {
    component == ".cache"@ || component == ".devbox"@ || component == ".direnv"@ || component == ".next"@ || component
        == ".nuxt"@ || component == ".venv"@ || component == "build"@ || component == "coverage"@ || component
        == "dist"@ || component == "node_modules"@ || component == "target"@ || component == "vendor"@ || component
        == "venv"@
}

fn generated(component: &str) -> (r: bool)
    ensures
        r == is_generated(component@),
{
    text::same(component, ".cache") || text::same(component, ".devbox") || text::same(component, ".direnv")
        || text::same(component, ".next") || text::same(component, ".nuxt") || text::same(component, ".venv")
        || text::same(component, "build") || text::same(component, "coverage") || text::same(component, "dist")
        || text::same(component, "node_modules") || text::same(component, "target") || text::same(component, "vendor")
        || text::same(component, "venv")
}

/// Whether a path is an env file that is not generated.
pub open spec fn is_candidate(path: Seq<char>) -> bool {
    &&& paths::name_of(path) matches Some(name) && is_env_name(name)
    &&& forall|i: int|
        0 <= i < paths::components(path).len() ==> !is_generated(#[trigger] paths::components(path)[i])
}

pub fn is_env_candidate(path: &str) -> (r: bool)
    ensures
        r == is_candidate(path@),
{
    match paths::file_name(path) {
        Some(name) => {
            if !valid_env_name(&name) {
                return false;
            }
        },
        None => {
            return false;
        },
    }
    let parts = paths::components_of(path);
    let ghost all = paths::components(path@);
    for i in 0..parts.len()
        invariant
            all == model::views(parts@),
            all == paths::components(path@),
            paths::name_of(path@) matches Some(name) && is_env_name(name),
            forall|k: int| 0 <= k < i ==> !is_generated(#[trigger] all[k]),
    {
        assert(all[i as int] == parts@[i as int]@);
        if generated(&parts[i]) {
            return false;
        }
    }
    true
}

/// The paths of a listing that are env files, with whether each is a regular file.
pub open spec fn env_candidates(listing: Seq<Seq<char>>, regular: Seq<bool>) -> Seq<Seq<char>> {
    Seq::new(listing.len(), |i: int| (listing[i], regular[i])).filter_map(
        |f: (Seq<char>, bool)|
            if is_candidate(f.0) && f.1 {
                Some(f.0)
            } else {
                None
            },
    )
}

pub open spec fn is_main_env() -> spec_fn(Seq<char>) -> bool {
    |p: Seq<char>| paths::same_path(p, ".env"@)
}

pub open spec fn is_other_env() -> spec_fn(Seq<char>) -> bool {
    |p: Seq<char>| !paths::same_path(p, ".env"@)
}

/// The ignored env files of a listing, the main one first.
pub fn ignored_env_files(listing: &Vec<String>, regular: &Vec<bool>) -> (r: Vec<String>)
    requires
        listing@.len() == regular@.len(),
    ensures
        ({
            let found = env_candidates(model::views(listing@), regular@);
            model::views(r@) == found.filter(is_main_env()) + found.filter(is_other_env())
        }),
{
    let ghost names = model::views(listing@);
    let ghost all = Seq::new(names.len(), |i: int| (names[i], regular@[i]));
    let ghost f = |f: (Seq<char>, bool)|
        if is_candidate(f.0) && f.1 {
            Some(f.0)
        } else {
            None
        };
    let mut main: Vec<String> = Vec::new();
    let mut other: Vec<String> = Vec::new();
    proof {
        model::start_filter_map(all, f);
        reveal(Seq::filter);
    }
    for i in 0..listing.len()
        invariant
            listing@.len() == regular@.len(),
            names == model::views(listing@),
            all == Seq::new(names.len(), |i: int| (names[i], regular@[i])),
            f == (|f: (Seq<char>, bool)|
                if is_candidate(f.0) && f.1 {
                    Some(f.0)
                } else {
                    None
                }),
            model::views(main@) == all.take(i as int).filter_map(f).filter(is_main_env()),
            model::views(other@) == all.take(i as int).filter_map(f).filter(is_other_env()),
    {
        let ghost before = all.take(i as int).filter_map(f);
        proof {
            model::step_filter_map(all, i as int, f);
            assert(all[i as int] == (listing@[i as int]@, regular@[i as int]));
            reveal(Seq::filter);
            assert(before.push(listing@[i as int]@).drop_last() =~= before);
        }
        if is_env_candidate(&listing[i]) && regular[i] {
            if paths::same(&listing[i], ".env") {
                main.push(listing[i].clone());
            } else {
                other.push(listing[i].clone());
            }
        }
    }
    proof {
        model::whole(all);
        assert(all.filter_map(f) == env_candidates(names, regular@));
    }
    let ghost first = model::views(main@);
    let ghost second = model::views(other@);
    main.append(&mut other);
    assert(model::views(main@) =~= first + second);
    main
}

/// Whether a path lies in the root of the repository.
pub open spec fn at_root(path: Seq<char>) -> bool {
    paths::parent_of(path) == Some(Seq::<char>::empty())
}

fn is_at_root(path: &str) -> (r: bool)
    ensures
        r == at_root(path@),
{
    match paths::parent(path) {
        Some(parent) => {
            if parent.as_str().is_empty() {
                assert(parent@ =~= Seq::<char>::empty());
                true
            } else {
                false
            }
        },
        None => false,
    }
}

/// Whether a path is a template for an env file.
pub open spec fn is_template(path: Seq<char>) -> bool {
    paths::name_of(path) matches Some(name) && (name == ".env.example"@ || name == ".env.sample"@ || name
        == ".dev.vars.example"@ || ".env.example"@.is_suffix_of(name))
}

pub fn is_env_template(path: &str) -> (r: bool)
    ensures
        r == is_template(path@),
{
    match paths::file_name(path) {
        Some(name) => text::same(&name, ".env.example") || text::same(&name, ".env.sample") || text::same(
            &name,
            ".dev.vars.example",
        ) || text::ends_with(&name, ".env.example"),
        None => false,
    }
}

/// Whether a line names a source and, behind it, a target.
pub open spec fn names_both(source: Seq<char>, target: Seq<char>) -> spec_fn(Seq<char>) -> Option<bool> {
    |line: Seq<char>|
        match text::first_at(line, source) {
            Some(at) => if text::has_part(line.skip(at + source.len()), target) {
                Some(true)
            } else {
                None
            },
            None => None,
        }
}

/// Whether a text documents that a target is made from a source.
pub open spec fn documents(contents: Seq<char>, source: Seq<char>, target: Seq<char>) -> bool {
    model::first_some(text::lines(contents), names_both(source, target)) is Some
}

fn is_documented(contents: &str, source: &str, target: &str) -> (r: bool)
    ensures
        r == documents(contents@, source@, target@),
{
    let lines = text::lines_of(contents);
    let ghost all = text::lines(contents@);
    for i in 0..lines.len()
        invariant
            all == model::views(lines@),
            all == text::lines(contents@),
            forall|k: int| 0 <= k < i ==> names_both(source@, target@)(#[trigger] all[k]) is None,
    {
        assert(all[i as int] == lines@[i as int]@);
        match text::find(&lines[i], source) {
            Some(at) => {
                let line = text::chars(&lines[i]);
                let size: usize = text::chars(source).len();
                let rest = text::text_of(&line, at + size, line.len());
                assert(rest@ =~= lines@[i as int]@.skip(at + source@.len()));
                if text::contains(&rest, target) {
                    proof {
                        model::found_some(all, names_both(source@, target@), i as int);
                    }
                    return true;
                }
            },
            None => {},
        }
    }
    proof {
        model::found_none(all, names_both(source@, target@));
    }
    false
}

/// The target that a text documents for a source: the first of the usual ones.
pub open spec fn target_in(contents: Seq<char>, source: Seq<char>) -> Option<Seq<char>> {
    if documents(contents, source, ".env.local"@) {
        Some(".env.local"@)
    } else if documents(contents, source, ".dev.vars"@) {
        Some(".dev.vars"@)
    } else if documents(contents, source, ".env"@) {
        Some(".env"@)
    } else {
        None
    }
}

fn documented_target(contents: &str, source: &str) -> (r: Option<String>)
    ensures
        model::opt(r) == target_in(contents@, source@),
{
    if is_documented(contents, source, ".env.local") {
        Some(".env.local".to_owned())
    } else if is_documented(contents, source, ".dev.vars") {
        Some(".dev.vars".to_owned())
    } else if is_documented(contents, source, ".env") {
        Some(".env".to_owned())
    } else {
        None
    }
}

/// The directory that a path lies in; the root for a path without one.
pub open spec fn directory_of(path: Seq<char>) -> Seq<char> {
    match paths::parent_of(path) {
        Some(parent) => parent,
        None => Seq::empty(),
    }
}

pub fn directory(path: &str) -> (r: String)
    ensures
        r@ == directory_of(path@),
{
    match paths::parent(path) {
        Some(parent) => parent,
        None => {
            let none = String::new();
            assert(none@ =~= Seq::<char>::empty());
            none
        },
    }
}

/// Whether a path is a README in this directory.
pub open spec fn is_readme_in(path: Seq<char>, root: Seq<char>) -> bool {
    &&& paths::parent_of(path) matches Some(parent) && paths::same_path(parent, root)
    &&& paths::name_of(path) matches Some(name) && "README"@.is_prefix_of(name)
}

fn is_readme(path: &str, root: &str) -> (r: bool)
    ensures
        r == is_readme_in(path@, root@),
{
    match paths::parent(path) {
        Some(parent) => {
            if !paths::same(&parent, root) {
                return false;
            }
        },
        None => {
            return false;
        },
    }
    match paths::file_name(path) {
        Some(name) => text::starts_with(&name, "README"),
        None => false,
    }
}

/// The target that a README next to a template documents for it.
pub open spec fn documented_by(project: Project, source: Seq<char>) -> spec_fn(Seq<char>) -> Option<Seq<char>> {
    |readme: Seq<char>|
        if is_readme_in(readme, directory_of(source)) {
            match (project.text_at(readme), paths::name_of(source)) {
                (Some(contents), Some(name)) => match target_in(contents, name) {
                    Some(target) => Some(paths::joined(directory_of(source), target)),
                    None => None,
                },
                _ => None,
            }
        } else {
            None
        }
}

pub fn documented_env_target(project: &Project, source: &str) -> (r: Option<String>)
    ensures
        model::opt(r) == model::first_some(
            model::views(project.versioned@),
            documented_by(*project, source@),
        ),
{
    let ghost all = model::views(project.versioned@);
    let ghost f = documented_by(*project, source@);
    let root = directory(source);
    let name = paths::file_name(source);
    for i in 0..project.versioned.len()
        invariant
            all == model::views(project.versioned@),
            f == documented_by(*project, source@),
            root@ == directory_of(source@),
            model::opt(name) == paths::name_of(source@),
            forall|k: int| 0 <= k < i ==> f(#[trigger] all[k]) is None,
    {
        assert(all[i as int] == project.versioned@[i as int]@);
        if is_readme(&project.versioned[i], &root) {
            match (project.read(&project.versioned[i]), &name) {
                (Some(contents), Some(name)) => match documented_target(&contents, name) {
                    Some(target) => {
                        proof {
                            model::found_some(all, f, i as int);
                        }
                        return Some(paths::join(&root, &target));
                    },
                    None => {},
                },
                _ => {},
            }
        }
    }
    proof {
        model::found_none(all, f);
    }
    None
}

/// A template in the root of the repository whose target is documented.
pub open spec fn usable_template(project: Project) -> spec_fn(Seq<char>) -> Option<(Seq<char>, Seq<char>)> {
    |source: Seq<char>|
        if at_root(source) && is_template(source) {
            match model::first_some(model::views(project.versioned@), documented_by(project, source)) {
                Some(target) => Some((source, target)),
                None => None,
            }
        } else {
            None
        }
}

/// The template to create an env file from, where there is none yet and none was asked for.
pub open spec fn template_for(project: Project, supplied: bool) -> Option<(Seq<char>, Seq<char>)> {
    if supplied || project.env_files@.len() > 0 {
        None
    } else {
        model::first_some(model::views(project.versioned@), usable_template(project))
    }
}

pub fn select_env_template(project: &Project, supplied: bool) -> (r: Option<EnvTemplate>)
    ensures
        opt_template(r) == template_for(*project, supplied),
{
    if supplied || project.env_files.len() > 0 {
        return None;
    }
    let ghost all = model::views(project.versioned@);
    let ghost f = usable_template(*project);
    for i in 0..project.versioned.len()
        invariant
            all == model::views(project.versioned@),
            f == usable_template(*project),
            !supplied && project.env_files@.len() == 0,
            forall|k: int| 0 <= k < i ==> f(#[trigger] all[k]) is None,
    {
        assert(all[i as int] == project.versioned@[i as int]@);
        let source = project.versioned[i].as_str();
        if is_at_root(source) && is_env_template(source) {
            match documented_env_target(project, source) {
                Some(target) => {
                    proof {
                        model::found_some(all, f, i as int);
                    }
                    return Some(EnvTemplate { source: source.to_owned(), target });
                },
                None => {},
            }
        }
    }
    proof {
        model::found_none(all, f);
    }
    None
}

/// Whether a path is another than the primary env file.
pub open spec fn other_than(env: Option<Seq<char>>) -> spec_fn(Seq<char>) -> bool {
    |p: Seq<char>| !(env matches Some(env) && paths::same_path(p, env))
}

/// The files to copy: those asked for, else every env file but the primary one.
pub open spec fn copies_of(supplied: Seq<Seq<char>>, candidates: Seq<Seq<char>>, env: Option<Seq<char>>) -> Seq<
    Seq<char>,
> {
    if supplied.len() > 0 {
        supplied
    } else {
        candidates.filter(other_than(env))
    }
}

pub fn detected_copies(supplied: &Vec<String>, candidates: &Vec<String>, env: &Option<String>) -> (r: Vec<String>)
    ensures
        model::views(r@) == copies_of(model::views(supplied@), model::views(candidates@), model::opt(*env)),
{
    if supplied.len() > 0 {
        return text::copies_of(supplied);
    }
    let ghost all = model::views(candidates@);
    let ghost keep = other_than(model::opt(*env));
    let mut out: Vec<String> = Vec::new();
    proof {
        model::start_filter(all, keep);
    }
    for i in 0..candidates.len()
        invariant
            all == model::views(candidates@),
            keep == other_than(model::opt(*env)),
            model::views(out@) == all.take(i as int).filter(keep),
    {
        proof {
            model::step_filter(all, i as int, keep);
            assert(all[i as int] == candidates@[i as int]@);
        }
        let is_env = match env {
            Some(env) => paths::same(&candidates[i], env),
            None => false,
        };
        if !is_env {
            out.push(candidates[i].clone());
        }
    }
    proof {
        model::whole(all);
    }
    out
}

// ---------------------------------------------------------------------------
// Servers
// ---------------------------------------------------------------------------

/// Whether a package has a Vite configuration.
pub open spec fn vite_configured(project: Project, root: Seq<char>) -> bool {
    project.has_file(paths::joined(root, "vite.config.js"@)) || project.has_file(
        paths::joined(root, "vite.config.mjs"@),
    ) || project.has_file(paths::joined(root, "vite.config.ts"@)) || project.has_file(
        paths::joined(root, "vite.config.mts"@),
    )
}

pub fn has_vite_config(project: &Project, root: &str) -> (r: bool)
    ensures
        r == vite_configured(*project, root@),
{
    project.is_file(&paths::join(root, "vite.config.js")) || project.is_file(&paths::join(root, "vite.config.mjs"))
        || project.is_file(&paths::join(root, "vite.config.ts")) || project.is_file(
        &paths::join(root, "vite.config.mts"),
    )
}

/// What a script says of servers.
pub open spec fn script_found(found: FindingsData, project: Project, root: Seq<char>, script: Seq<char>) -> FindingsData {
    let next = match servers::command_after(script, "next"@) {
        Some(command) => servers::next_found(found, command, root),
        None => found,
    };
    let vite = match servers::command_after(script, "vite"@) {
        Some(command) => if vite_configured(project, root) {
            next
        } else {
            servers::vite_found(next, command, root)
        },
        None => next,
    };
    match servers::command_after(script, "wrangler"@) {
        Some(command) => servers::wrangler_found(vite, command, root),
        None => vite,
    }
}

pub open spec fn scripts_found(
    found: FindingsData,
    project: Project,
    root: Seq<char>,
    scripts: Seq<(String, String)>,
) -> FindingsData
    decreases scripts.len(),
{
    if scripts.len() == 0 {
        found
    } else {
        script_found(scripts_found(found, project, root, scripts.drop_last()), project, root, scripts.last().1@)
    }
}

pub open spec fn packages_found(found: FindingsData, project: Project, packages: Seq<PackageAt>) -> FindingsData
    decreases packages.len(),
{
    if packages.len() == 0 {
        found
    } else {
        scripts_found(
            packages_found(found, project, packages.drop_last()),
            project,
            packages.last().root@,
            packages.last().package.scripts@,
        )
    }
}

fn detect_script(found: &mut Findings, project: &Project, root: &str, script: &str)
    ensures
        final(found)@ == script_found(old(found)@, *project, root@, script@),
{
    match servers::server_command(script, "next") {
        Some(command) => {
            servers::detect_next(found, &command, root);
        },
        None => {},
    }
    match servers::server_command(script, "vite") {
        Some(command) => {
            if !has_vite_config(project, root) {
                servers::detect_vite(found, &command, root);
            }
        },
        None => {},
    }
    match servers::server_command(script, "wrangler") {
        Some(command) => {
            servers::detect_wrangler(found, &command, root);
        },
        None => {},
    }
}

pub fn detect_package_servers(found: &mut Findings, project: &Project)
    ensures
        final(found)@ == packages_found(old(found)@, *project, project.packages@),
{
    let ghost start = found@;
    let packages = &project.packages;
    assert(packages@.take(0) =~= Seq::empty());
    for i in 0..packages.len()
        invariant
            packages == project.packages,
            found@ == packages_found(start, *project, packages@.take(i as int)),
    {
        proof {
            model::step(packages@, i as int);
        }
        let scripts = &packages[i].package.scripts;
        let root = packages[i].root.as_str();
        let ghost before = found@;
        assert(scripts@.take(0) =~= Seq::empty());
        for j in 0..scripts.len()
            invariant
                found@ == scripts_found(before, *project, root@, scripts@.take(j as int)),
        {
            proof {
                model::step(scripts@, j as int);
            }
            detect_script(found, project, root, &scripts[j].1);
        }
        proof {
            model::whole(scripts@);
        }
    }
    proof {
        model::whole(packages@);
    }
}

/// Whether a path is a Vite configuration.
pub open spec fn is_vite_config(path: Seq<char>) -> bool {
    paths::name_of(path) matches Some(name) && "vite.config."@.is_prefix_of(name)
}

/// Whether a path is a Wrangler configuration.
pub open spec fn is_wrangler(path: Seq<char>) -> bool {
    paths::name_of(path) matches Some(name) && (name == "wrangler.toml"@ || name == "wrangler.json"@ || name
        == "wrangler.jsonc"@)
}

pub fn is_wrangler_config(path: &str) -> (r: bool)
    ensures
        r == is_wrangler(path@),
{
    match paths::file_name(path) {
        Some(name) => text::same(&name, "wrangler.toml") || text::same(&name, "wrangler.json") || text::same(
            &name,
            "wrangler.jsonc",
        ),
        None => false,
    }
}

/// What the Vite configurations among the paths say.
pub open spec fn vite_configs_found(found: FindingsData, project: Project, list: Seq<Seq<char>>) -> FindingsData
    decreases list.len(),
{
    if list.len() == 0 {
        found
    } else {
        let before = vite_configs_found(found, project, list.drop_last());
        match project.text_at(list.last()) {
            Some(contents) => if is_vite_config(list.last()) {
                servers::vite_config_found(before, list.last(), contents)
            } else {
                before
            },
            None => before,
        }
    }
}

pub fn detect_vite_configs(found: &mut Findings, project: &Project)
    ensures
        final(found)@ == vite_configs_found(old(found)@, *project, model::views(project.versioned@)),
{
    let ghost start = found@;
    let ghost all = model::views(project.versioned@);
    assert(all.take(0) =~= Seq::empty());
    for i in 0..project.versioned.len()
        invariant
            all == model::views(project.versioned@),
            found@ == vite_configs_found(start, *project, all.take(i as int)),
    {
        proof {
            model::step(all, i as int);
            assert(all[i as int] == project.versioned@[i as int]@);
        }
        let path = project.versioned[i].as_str();
        let is_config = match paths::file_name(path) {
            Some(name) => text::starts_with(&name, "vite.config."),
            None => false,
        };
        if is_config {
            match project.read(path) {
                Some(contents) => {
                    servers::detect_vite_config(found, path, &contents);
                },
                None => {},
            }
        }
    }
    proof {
        model::whole(all);
    }
}

/// What the Wrangler configurations among the paths say.
pub open spec fn wrangler_configs_found(found: FindingsData, project: Project, list: Seq<Seq<char>>) -> FindingsData
    decreases list.len(),
{
    if list.len() == 0 {
        found
    } else {
        let before = wrangler_configs_found(found, project, list.drop_last());
        match project.text_at(list.last()) {
            Some(contents) => if is_wrangler(list.last()) {
                servers::wrangler_config_found(before, list.last(), contents)
            } else {
                before
            },
            None => before,
        }
    }
}

pub fn detect_wrangler_configs(found: &mut Findings, project: &Project)
    ensures
        final(found)@ == wrangler_configs_found(old(found)@, *project, model::views(project.versioned@)),
{
    let ghost start = found@;
    let ghost all = model::views(project.versioned@);
    assert(all.take(0) =~= Seq::empty());
    for i in 0..project.versioned.len()
        invariant
            all == model::views(project.versioned@),
            found@ == wrangler_configs_found(start, *project, all.take(i as int)),
    {
        proof {
            model::step(all, i as int);
            assert(all[i as int] == project.versioned@[i as int]@);
        }
        let path = project.versioned[i].as_str();
        if is_wrangler_config(path) {
            match project.read(path) {
                Some(contents) => {
                    servers::detect_wrangler_config(found, path, &contents);
                },
                None => {},
            }
        }
    }
    proof {
        model::whole(all);
    }
}

// ---------------------------------------------------------------------------
// Compose
// ---------------------------------------------------------------------------

/// The names of Compose files that are used without being asked for.
pub open spec fn compose_names() -> Seq<Seq<char>> {
    seq!["compose.yml"@, "compose.yaml"@, "docker-compose.yml"@, "docker-compose.yaml"@]
}

fn compose_files() -> (r: Vec<String>)
    ensures
        model::views(r@) == compose_names(),
{
    let mut out: Vec<String> = Vec::new();
    out.push("compose.yml".to_owned());
    out.push("compose.yaml".to_owned());
    out.push("docker-compose.yml".to_owned());
    out.push("docker-compose.yaml".to_owned());
    assert(model::views(out@) =~= compose_names());
    out
}

/// The names of lock files that tell the package manager.
pub open spec fn lock_names() -> Seq<Seq<char>> {
    seq!["bun.lock"@, "bun.lockb"@, "pnpm-lock.yaml"@, "yarn.lock"@, "package-lock.json"@]
}

/// What the names of configurations that are scripts end with.
pub open spec fn script_endings() -> Seq<Seq<char>> {
    seq!["js"@, "mjs"@, "ts"@, "mts"@]
}

pub open spec fn below(root: Seq<char>, stem: Seq<char>) -> spec_fn(Seq<char>) -> Seq<char> {
    |ending: Seq<char>| paths::joined(root, stem + ending)
}

/// The places of a configuration in each package.
pub open spec fn script_places(packages: Seq<PackageAt>, stem: Seq<char>) -> Seq<Seq<char>>
    decreases packages.len(),
{
    if packages.len() == 0 {
        Seq::empty()
    } else {
        script_places(packages.drop_last(), stem) + script_endings().map_values(below(packages.last().root@, stem))
    }
}

/// The first of a list, as a list.
pub open spec fn first_of(list: Seq<Seq<char>>) -> Seq<Seq<char>> {
    if list.len() > 0 {
        seq![list[0]]
    } else {
        Seq::empty()
    }
}

/// A path that is configured, as a list.
pub open spec fn listed_path(path: Option<Seq<char>>) -> Seq<Seq<char>> {
    match path {
        Some(path) => seq![path],
        None => Seq::empty(),
    }
}

/// Whether the contents of a path that Git keeps matter; those of a README do where no env file is
/// known.
pub open spec fn is_telling(documented: bool) -> spec_fn(Seq<char>) -> bool {
    |path: Seq<char>|
        is_vite_config(path) || is_wrangler(path) || is_template(path) || documented && (paths::name_of(path) matches Some(
            name,
        ) && "README"@.is_prefix_of(name))
}

/// The files whose contents the detection reads, where they are there.
pub open spec fn telling_texts(
    versioned: Seq<Seq<char>>,
    env_files: Seq<Seq<char>>,
    packages: Seq<PackageAt>,
    env: Option<Seq<char>>,
) -> Seq<Seq<char>> {
    versioned.filter(is_telling(env is None && env_files.len() == 0)) + compose_names() + seq!["devbox.json"@]
        + listed_path(env) + first_of(env_files) + script_places(packages, "next.config."@)
}

/// The files of which the detection asks whether they are there.
pub open spec fn telling_files(env_files: Seq<Seq<char>>, packages: Seq<PackageAt>, env: Option<Seq<char>>) -> Seq<
    Seq<char>,
> {
    compose_names() + lock_names() + listed_path(env) + first_of(env_files) + script_places(
        packages,
        "vite.config."@,
    )
}

fn lock_files() -> (r: Vec<String>)
    ensures
        model::views(r@) == lock_names(),
{
    let mut out: Vec<String> = Vec::new();
    out.push("bun.lock".to_owned());
    out.push("bun.lockb".to_owned());
    out.push("pnpm-lock.yaml".to_owned());
    out.push("yarn.lock".to_owned());
    out.push("package-lock.json".to_owned());
    assert(model::views(out@) =~= lock_names());
    out
}

fn add_scripts(list: &mut Vec<String>, packages: &Vec<PackageAt>, stem: &str)
    ensures
        model::views(final(list)@) == model::views(old(list)@) + script_places(packages@, stem@),
{
    let ghost before = model::views(list@);
    assert(packages@.take(0) =~= Seq::empty());
    assert(before + script_places(packages@.take(0), stem@) =~= before);
    for i in 0..packages.len()
        invariant
            model::views(list@) == before + script_places(packages@.take(i as int), stem@),
    {
        let root = &packages[i].root;
        let ghost start = model::views(list@);
        list.push(paths::join(root, &text::concat(stem, "js")));
        list.push(paths::join(root, &text::concat(stem, "mjs")));
        list.push(paths::join(root, &text::concat(stem, "ts")));
        list.push(paths::join(root, &text::concat(stem, "mts")));
        proof {
            model::step(packages@, i as int);
            let f = below(root@, stem@);
            assert(script_endings().map_values(f) =~= seq![f("js"@), f("mjs"@), f("ts"@), f("mts"@)]);
            assert(model::views(list@) =~= start + script_endings().map_values(f));
            assert(model::views(list@) =~= before + script_places(packages@.take(i + 1), stem@));
        }
    }
    proof {
        model::whole(packages@);
    }
}

fn add_env(list: &mut Vec<String>, env: &Option<String>, env_files: &Vec<String>)
    ensures
        model::views(final(list)@) == model::views(old(list)@) + listed_path(model::opt(*env)) + first_of(
            model::views(env_files@),
        ),
{
    let ghost before = model::views(list@);
    match env {
        Some(path) => {
            list.push(path.clone());
        },
        None => {},
    }
    assert(model::views(list@) =~= before + listed_path(model::opt(*env)));
    let ghost middle = model::views(list@);
    if env_files.len() > 0 {
        list.push(env_files[0].clone());
    }
    assert(model::views(list@) =~= middle + first_of(model::views(env_files@)));
}

pub fn texts_to_read(
    versioned: &Vec<String>,
    env_files: &Vec<String>,
    packages: &Vec<PackageAt>,
    env: &Option<String>,
) -> (r: Vec<String>)
    ensures
        model::views(r@) == telling_texts(
            model::views(versioned@),
            model::views(env_files@),
            packages@,
            model::opt(*env),
        ),
{
    let documented = env.is_none() && env_files.len() == 0;
    let ghost all = model::views(versioned@);
    let ghost keep = is_telling(documented);
    let mut out: Vec<String> = Vec::new();
    proof {
        model::start_filter(all, keep);
    }
    for i in 0..versioned.len()
        invariant
            all == model::views(versioned@),
            keep == is_telling(documented),
            model::views(out@) == all.take(i as int).filter(keep),
    {
        let path = &versioned[i];
        proof {
            model::step_filter(all, i as int, keep);
            assert(all[i as int] == path@);
        }
        let named = match paths::file_name(path) {
            Some(name) => text::starts_with(&name, "vite.config.") || documented && text::starts_with(
                &name,
                "README",
            ),
            None => false,
        };
        if named || is_wrangler_config(path) || is_env_template(path) {
            out.push(path.clone());
        }
    }
    proof {
        model::whole(all);
    }
    let ghost found = model::views(out@);
    let mut names = compose_files();
    let ghost listed = model::views(names@);
    out.append(&mut names);
    assert(model::views(out@) =~= found + listed);
    let ghost middle = model::views(out@);
    out.push("devbox.json".to_owned());
    assert(model::views(out@) =~= middle + seq!["devbox.json"@]);
    add_env(&mut out, env, env_files);
    add_scripts(&mut out, packages, "next.config.");
    out
}

pub fn files_to_find(env_files: &Vec<String>, packages: &Vec<PackageAt>, env: &Option<String>) -> (r: Vec<String>)
    ensures
        model::views(r@) == telling_files(model::views(env_files@), packages@, model::opt(*env)),
{
    let mut out = compose_files();
    let ghost before = model::views(out@);
    let mut names = lock_files();
    let ghost listed = model::views(names@);
    out.append(&mut names);
    assert(model::views(out@) =~= before + listed);
    add_env(&mut out, env, env_files);
    add_scripts(&mut out, packages, "vite.config.");
    out
}

/// Whether the repository has a Compose file in its root.
pub open spec fn root_compose(project: Project) -> bool {
    exists|i: int| 0 <= i < compose_names().len() && project.has_file(#[trigger] compose_names()[i])
}

pub fn has_root_compose(project: &Project) -> (r: bool)
    ensures
        r == root_compose(*project),
{
    let files = compose_files();
    for i in 0..files.len()
        invariant
            model::views(files@) == compose_names(),
            forall|k: int| 0 <= k < i ==> !project.has_file(#[trigger] compose_names()[k]),
    {
        assert(compose_names()[i as int] == files@[i as int]@);
        if project.is_file(&files[i]) {
            return true;
        }
    }
    false
}

/// The variables that name ports of the host in the Compose files of the root.
pub open spec fn host_ports(project: Project, names: Seq<Seq<char>>) -> Seq<Seq<char>>
    decreases names.len(),
{
    if names.len() == 0 {
        Seq::empty()
    } else {
        let before = host_ports(project, names.drop_last());
        match project.text_at(names.last()) {
            Some(contents) => if project.has_file(names.last()) {
                before + servers::host_variables_of(text::lines(contents))
            } else {
                before
            },
            None => before,
        }
    }
}

pub fn compose_host_port_variables(project: &Project) -> (r: Vec<String>)
    ensures
        model::views(r@) == host_ports(*project, compose_names()),
{
    let files = compose_files();
    let ghost all = compose_names();
    let mut out: Vec<String> = Vec::new();
    assert(all.take(0) =~= Seq::empty());
    assert(model::views(out@) =~= Seq::empty());
    for i in 0..files.len()
        invariant
            all == compose_names(),
            model::views(files@) == all,
            model::views(out@) == host_ports(*project, all.take(i as int)),
    {
        proof {
            model::step(all, i as int);
            assert(all[i as int] == files@[i as int]@);
        }
        if project.is_file(&files[i]) {
            match project.read(&files[i]) {
                Some(contents) => {
                    let mut more = servers::compose_variables(&contents);
                    let ghost before = model::views(out@);
                    let ghost extra = model::views(more@);
                    out.append(&mut more);
                    assert(model::views(out@) =~= before + extra);
                },
                None => {},
            }
        }
    }
    proof {
        model::whole(all);
    }
    out
}

/// The file that the ports of Compose are read from: the primary env file, else its template.
pub open spec fn port_source(project: Project, env: Option<Seq<char>>, template: Option<(Seq<char>, Seq<char>)>) -> Option<
    Seq<char>,
> {
    match (env, template) {
        (Some(env), _) if project.has_file(env) => Some(env),
        (Some(_), Some((source, _))) => Some(source),
        _ => None,
    }
}

pub open spec fn is_host_port(host: Seq<Seq<char>>) -> spec_fn(Seq<char>) -> bool {
    |port: Seq<char>| host.contains(port)
}

/// Ports of Compose that are leased.
pub open spec fn with_compose_ports(found: FindingsData, ports: Seq<Seq<char>>) -> FindingsData {
    FindingsData {
        ports: found.ports + ports,
        development: found.development + ports.map_values(|p: Seq<char>| "Docker Compose: isolated via "@ + p),
        warnings: found.warnings,
    }
}

/// The ports that Compose publishes through variables of the env file.
pub open spec fn compose_found(
    found: FindingsData,
    project: Project,
    settings: Settings,
    template: Option<(Seq<char>, Seq<char>)>,
) -> FindingsData {
    match port_source(project, settings.env, template) {
        Some(source) => match project.text_at(source) {
            Some(contents) => if settings.compose {
                with_compose_ports(
                    found,
                    text::lines(contents).filter_map(environment::port_variable()).filter(
                        is_host_port(host_ports(project, compose_names())),
                    ),
                )
            } else {
                found
            },
            None => found,
        },
        None => found,
    }
}

pub fn detect_compose_ports(found: &mut Findings, project: &Project, config: &Config, template: &Option<EnvTemplate>)
    ensures
        final(found)@ == compose_found(old(found)@, *project, config@, opt_template(*template)),
{
    if !config.compose {
        return;
    }
    let source = match &config.env {
        Some(env) => {
            if project.is_file(env) {
                env.clone()
            } else {
                match template {
                    Some(template) => template.source.clone(),
                    None => {
                        return;
                    },
                }
            }
        },
        None => {
            return;
        },
    };
    let contents = match project.read(&source) {
        Some(contents) => contents,
        None => {
            return;
        },
    };
    let available = environment::discover_ports(&contents);
    let host = compose_host_port_variables(project);
    let ghost all = model::views(available@);
    let ghost keep = is_host_port(model::views(host@));
    let ghost start = found@;
    let ghost line = |p: Seq<char>| "Docker Compose: isolated via "@ + p;
    proof {
        model::start_filter(all, keep);
        assert(start.ports + Seq::<Seq<char>>::empty() =~= start.ports);
        assert(start.development + Seq::<Seq<char>>::empty().map_values(line) =~= start.development);
        assert(found@ =~= with_compose_ports(start, all.take(0).filter(keep)));
    }
    for i in 0..available.len()
        invariant
            all == model::views(available@),
            keep == is_host_port(model::views(host@)),
            found@ == with_compose_ports(start, all.take(i as int).filter(keep)),
    {
        let ghost before = all.take(i as int).filter(keep);
        let ghost line = |p: Seq<char>| "Docker Compose: isolated via "@ + p;
        proof {
            model::step_filter(all, i as int, keep);
            assert(all[i as int] == available@[i as int]@);
        }
        if text::list_contains(&host, &available[i]) {
            let ghost earlier = found@;
            found.development.push(text::concat("Docker Compose: isolated via ", &available[i]));
            found.ports.push(available[i].clone());
            proof {
                let more = before.push(all[i as int]);
                assert(start.ports + more =~= (start.ports + before).push(all[i as int]));
                assert(more.map_values(line) =~= before.map_values(line).push(line(all[i as int])));
                assert(start.development + more.map_values(line) =~= (start.development + before.map_values(
                    line,
                )).push(line(all[i as int])));
                assert(found@ =~= with_compose_ports(start, more));
            }
        }
    }
    proof {
        model::whole(all);
    }
}

/// What is known of servers and ports: the ports asked for, or those that were found, each once
/// and in order.
pub open spec fn development_found(
    project: Project,
    settings: Settings,
    template: Option<(Seq<char>, Seq<char>)>,
) -> FindingsData {
    if settings.ports.len() > 0 {
        FindingsData {
            ports: settings.ports,
            development: settings.ports.map_values(|p: Seq<char>| "Configured port "@ + p),
            warnings: Seq::empty(),
        }
    } else {
        let versioned = model::views(project.versioned@);
        let found = compose_found(
            wrangler_configs_found(
                vite_configs_found(
                    packages_found(servers::nothing_found(), project, project.packages@),
                    project,
                    versioned,
                ),
                project,
                versioned,
            ),
            project,
            settings,
            template,
        );
        FindingsData {
            ports: text::sorted_set(found.ports),
            development: text::sorted_set(found.development),
            warnings: found.warnings,
        }
    }
}

pub fn detect_development(project: &Project, config: &Config, template: &Option<EnvTemplate>) -> (r: Findings)
    ensures
        r@ == development_found(*project, config@, opt_template(*template)),
{
    let mut found = Findings::new();
    if config.ports.len() > 0 {
        let ghost lines = config@.ports.map_values(|p: Seq<char>| "Configured port "@ + p);
        let mut development: Vec<String> = Vec::new();
        for i in 0..config.ports.len()
            invariant
                lines == config@.ports.map_values(|p: Seq<char>| "Configured port "@ + p),
                model::views(development@) == lines.take(i as int),
        {
            proof {
                model::step(lines, i as int);
                assert(config@.ports[i as int] == config.ports@[i as int]@);
            }
            development.push(text::concat("Configured port ", &config.ports[i]));
        }
        proof {
            model::whole(lines);
        }
        let r = Findings { ports: text::copies_of(&config.ports), development, warnings: Vec::new() };
        assert(r@ =~= development_found(*project, config@, opt_template(*template)));
        return r;
    }
    detect_package_servers(&mut found, project);
    detect_vite_configs(&mut found, project);
    detect_wrangler_configs(&mut found, project);
    detect_compose_ports(&mut found, project, config, template);
    let ghost all = found@;
    let r = Findings {
        ports: text::sort_unique(&found.ports),
        development: text::sort_unique(&found.development),
        warnings: found.warnings,
    };
    assert(r@ =~= development_found(*project, config@, opt_template(*template)));
    r
}

// ---------------------------------------------------------------------------
// Setup commands
// ---------------------------------------------------------------------------

/// Whether this is a package manager whose command is known.
pub open spec fn is_manager(name: Seq<char>) -> bool {
    name == "bun"@ || name == "npm"@ || name == "pnpm"@ || name == "yarn"@
}

/// The package manager of a package: the one it asks for, where that is known, else the one whose
/// lock file is there.
pub open spec fn manager_of(project: Project, field: Option<Seq<char>>) -> Option<Seq<char>> {
    match field {
        Some(field) => {
            let name = text::split(field, '@')[0];
            if is_manager(name) {
                Some(name)
            } else {
                None
            }
        },
        None => if project.has_file("bun.lock"@) || project.has_file("bun.lockb"@) {
            Some("bun"@)
        } else if project.has_file("pnpm-lock.yaml"@) {
            Some("pnpm"@)
        } else if project.has_file("yarn.lock"@) {
            Some("yarn"@)
        } else if project.has_file("package-lock.json"@) {
            Some("npm"@)
        } else {
            None
        },
    }
}

pub fn package_manager(project: &Project, package: &Package) -> (r: Option<String>)
    ensures
        model::opt(r) == manager_of(*project, model::opt(package.package_manager)),
{
    match &package.package_manager {
        Some(field) => {
            proof {
                text::lemma_split_nonempty(field@, '@');
            }
            let parts = text::split_text(field, '@');
            assert(text::split(field@, '@')[0] == parts@[0]@);
            let name = parts[0].as_str();
            if text::same(name, "bun") || text::same(name, "npm") || text::same(name, "pnpm") || text::same(
                name,
                "yarn",
            ) {
                Some(name.to_owned())
            } else {
                None
            }
        },
        None => {
            if project.is_file("bun.lock") || project.is_file("bun.lockb") {
                Some("bun".to_owned())
            } else if project.is_file("pnpm-lock.yaml") {
                Some("pnpm".to_owned())
            } else if project.is_file("yarn.lock") {
                Some("yarn".to_owned())
            } else if project.is_file("package-lock.json") {
                Some("npm".to_owned())
            } else {
                None
            }
        },
    }
}

/// How a package manager installs exactly what its lock file says.
pub open spec fn install_of(manager: Seq<char>) -> Seq<char> {
    if manager == "npm"@ {
        "npm ci"@
    } else if manager == "yarn"@ {
        "yarn install --immutable"@
    } else {
        manager + " install --frozen-lockfile"@
    }
}

pub fn install_command(manager: &str) -> (r: String)
    ensures
        r@ == install_of(manager@),
{
    if text::same(manager, "npm") {
        "npm ci".to_owned()
    } else if text::same(manager, "yarn") {
        "yarn install --immutable".to_owned()
    } else {
        text::concat(manager, " install --frozen-lockfile")
    }
}

/// Whether one of the lines of an init hook installs dependencies.
pub open spec fn installs(node: NodeData, manager: Seq<char>) -> bool {
    node matches NodeData::List(lines) && exists|i: int|
        0 <= i < lines.len() && (#[trigger] lines[i] matches Some(line) && text::has_part(
            line,
            manager + " install"@,
        ))
}

pub fn devbox_installs_dependencies(node: &Node, manager: &str) -> (r: bool)
    ensures
        r == installs(node@, manager@),
{
    match node {
        Node::List(lines) => {
            let wanted = text::concat(manager, " install");
            for i in 0..lines.len()
                invariant
                    wanted@ == manager@ + " install"@,
                    node@ == NodeData::List(devbox::opt_views(lines@)),
                    forall|k: int|
                        0 <= k < i ==> !(#[trigger] devbox::opt_views(lines@)[k] matches Some(line) && text::has_part(
                            line,
                            manager@ + " install"@,
                        )),
            {
                assert(devbox::opt_views(lines@)[i as int] == model::opt(lines@[i as int]));
                match &lines[i] {
                    Some(line) => {
                        if text::contains(line, &wanted) {
                            return true;
                        }
                    },
                    None => {},
                }
            }
            false
        },
        _ => false,
    }
}

/// The package in the root of the repository.
pub open spec fn is_root_package(package: PackageAt) -> bool {
    package.root@.len() == 0
}

/// The first package in the root of the repository, by its package manager.
pub open spec fn root_manager(project: Project) -> Option<Option<Seq<char>>> {
    model::first_some(
        project.packages@,
        |p: PackageAt|
            if is_root_package(p) {
                Some(manager_of(project, model::opt(p.package.package_manager)))
            } else {
                None
            },
    )
}

fn find_root_manager(project: &Project) -> (r: Option<String>)
    ensures
        model::opt(r) == match root_manager(*project) {
            Some(manager) => manager,
            None => None,
        },
{
    let ghost f = |p: PackageAt|
        if is_root_package(p) {
            Some(manager_of(*project, model::opt(p.package.package_manager)))
        } else {
            None
        };
    for i in 0..project.packages.len()
        invariant
            f == (|p: PackageAt|
                if is_root_package(p) {
                    Some(manager_of(*project, model::opt(p.package.package_manager)))
                } else {
                    None
                }),
            forall|k: int| 0 <= k < i ==> f(#[trigger] project.packages@[k]) is None,
    {
        if project.packages[i].root.as_str().is_empty() {
            proof {
                model::found_some(project.packages@, f, i as int);
            }
            return package_manager(project, &project.packages[i].package);
        }
    }
    proof {
        model::found_none(project.packages@, f);
    }
    None
}

/// The setup command of a repository, and a notice where Devbox takes care of dependencies.
pub open spec fn bootstrap_found(project: Project) -> Result<(Option<Seq<char>>, Seq<Seq<char>>), Seq<char>> {
    let document = project.text_at("devbox.json"@);
    let script = match document {
        Some(document) => devbox::json_node(document, "/shell/scripts/bootstrap"@),
        None => Some(NodeData::Missing),
    };
    let hook = match document {
        Some(document) => devbox::json_node(document, "/shell/init_hook"@),
        None => Some(NodeData::Missing),
    };
    match (script, hook, root_manager(project)) {
        (None, _, _) => Err("parse devbox.json"@),
        (Some(NodeData::Text(_)), _, _) => Ok((Some("devbox run bootstrap"@), Seq::empty())),
        (Some(NodeData::List(_)), _, _) => Ok((Some("devbox run bootstrap"@), Seq::empty())),
        (_, None, _) => Err("parse devbox.json"@),
        (_, Some(hook), Some(Some(manager))) => if installs(hook, manager) {
            Ok(
                (
                    None,
                    seq!["Dependencies: handled by the Devbox init hook ("@ + manager + " install)"@],
                ),
            )
        } else if document is Some {
            Ok((Some("devbox run -- "@ + install_of(manager)), Seq::empty()))
        } else {
            Ok((Some(install_of(manager)), Seq::empty()))
        },
        _ => Ok((None, Seq::empty())),
    }
}

/// What detecting the setup command came to.
pub open spec fn outcome_bootstrap(r: Result<(Option<String>, Vec<String>), String>) -> Result<
    (Option<Seq<char>>, Seq<Seq<char>>),
    Seq<char>,
> {
    match r {
        Ok((command, notices)) => Ok((model::opt(command), model::views(notices@))),
        Err(message) => Err(message@),
    }
}

pub fn detect_bootstrap(project: &Project) -> (r: Result<(Option<String>, Vec<String>), String>)
    ensures
        outcome_bootstrap(r) == bootstrap_found(*project),
{
    let mut notices: Vec<String> = Vec::new();
    assert(model::views(notices@) =~= Seq::empty());
    let document = project.read("devbox.json");
    let mut hook = Node::Missing;
    match &document {
        Some(document) => {
            match devbox::json_at(document, "/shell/scripts/bootstrap") {
                Err(_) => {
                    return Err("parse devbox.json".to_owned());
                },
                Ok(Node::Text(_)) => {
                    return Ok((Some("devbox run bootstrap".to_owned()), notices));
                },
                Ok(Node::List(_)) => {
                    return Ok((Some("devbox run bootstrap".to_owned()), notices));
                },
                Ok(_) => {},
            }
            match devbox::json_at(document, "/shell/init_hook") {
                Err(_) => {
                    return Err("parse devbox.json".to_owned());
                },
                Ok(node) => {
                    hook = node;
                },
            }
        },
        None => {},
    }
    let manager = match find_root_manager(project) {
        Some(manager) => manager,
        None => {
            return Ok((None, notices));
        },
    };
    if devbox_installs_dependencies(&hook, &manager) {
        let notice = text::concat3("Dependencies: handled by the Devbox init hook (", &manager, " install)");
        notices.push(notice);
        assert(model::views(notices@) =~= seq![notice@]);
        return Ok((None, notices));
    }
    let command = install_command(&manager);
    if document.is_some() {
        Ok((Some(text::concat("devbox run -- ", &command)), notices))
    } else {
        Ok((Some(command), notices))
    }
}

/// Whether a command is one of those that are known.
pub open spec fn is_known_command(command: Seq<char>) -> bool {
    command == "devbox run bootstrap"@ || exists|manager: Seq<char>| #[trigger]
        is_manager(manager) && (command == install_of(manager) || command == "devbox run -- "@ + install_of(manager))
}

/// What a repository says of its package manager cannot inject a setup command: only known
/// commands are detected.
pub proof fn detected_commands_are_known(project: Project)
    ensures
        bootstrap_found(project) matches Ok((Some(command), _)) ==> is_known_command(command),
{
    match root_manager(project) {
        Some(Some(manager)) => {
            lemma_root_manager(project, project.packages@);
            assert(is_manager(manager));
        },
        _ => {},
    }
}

proof fn lemma_root_manager(project: Project, packages: Seq<PackageAt>)
    ensures
        ({
            let f = |p: PackageAt|
                if is_root_package(p) {
                    Some(manager_of(project, model::opt(p.package.package_manager)))
                } else {
                    None
                };
            model::first_some(packages, f) matches Some(Some(manager)) ==> is_manager(manager)
        }),
    decreases packages.len(),
{
    if packages.len() > 0 {
        lemma_root_manager(project, packages.drop_first());
    }
}

// ---------------------------------------------------------------------------
// Disposable paths
// ---------------------------------------------------------------------------

/// Whether a package depends on another.
pub open spec fn depends_on(package: Package, name: Seq<char>) -> bool {
    model::views(package.dependencies@).contains(name) || model::views(package.dev_dependencies@).contains(name)
}

pub fn package_has(package: &Package, name: &str) -> (r: bool)
    ensures
        r == depends_on(*package, name@),
{
    text::list_contains(&package.dependencies, name) || text::list_contains(&package.dev_dependencies, name)
}

/// Whether one of the scripts holds a text.
pub open spec fn some_script_has(scripts: Seq<(String, String)>, needle: Seq<char>) -> bool {
    exists|i: int| 0 <= i < scripts.len() && text::has_part((#[trigger] scripts[i]).1@, needle)
}

pub fn scripts_contain(package: &Package, needle: &str) -> (r: bool)
    ensures
        r == some_script_has(package.scripts@, needle@),
{
    for i in 0..package.scripts.len()
        invariant
            forall|k: int| 0 <= k < i ==> !text::has_part((#[trigger] package.scripts@[k]).1@, needle@),
    {
        if text::contains(&package.scripts[i].1, needle) {
            return true;
        }
    }
    false
}

/// Whether a Next.js configuration asks for an export.
pub open spec fn asks_for_export(contents: Option<Seq<char>>) -> bool {
    contents matches Some(contents) && (text::has_part(contents, "output: \"export\""@) || text::has_part(
        contents,
        "output: 'export'"@,
    ))
}

fn exports(contents: &Option<String>) -> (r: bool)
    ensures
        r == asks_for_export(model::opt(*contents)),
{
    match contents {
        Some(contents) => text::contains(contents, "output: \"export\"") || text::contains(
            contents,
            "output: 'export'",
        ),
        None => false,
    }
}

pub open spec fn has_export(project: Project, root: Seq<char>) -> bool {
    asks_for_export(project.text_at(paths::joined(root, "next.config.js"@))) || asks_for_export(
        project.text_at(paths::joined(root, "next.config.mjs"@)),
    ) || asks_for_export(project.text_at(paths::joined(root, "next.config.ts"@))) || asks_for_export(
        project.text_at(paths::joined(root, "next.config.mts"@)),
    )
}

pub fn next_exports(project: &Project, root: &str) -> (r: bool)
    ensures
        r == has_export(*project, root@),
{
    exports(&project.read(&paths::join(root, "next.config.js"))) || exports(
        &project.read(&paths::join(root, "next.config.mjs")),
    ) || exports(&project.read(&paths::join(root, "next.config.ts"))) || exports(
        &project.read(&paths::join(root, "next.config.mts")),
    )
}

/// Whether a script measures coverage by its name or by its flags.
pub open spec fn some_script_covers(scripts: Seq<(String, String)>) -> bool {
    exists|i: int|
        0 <= i < scripts.len() && (text::has_part((#[trigger] scripts[i]).0@, "coverage"@) || text::has_part(
            scripts[i].1@,
            "--coverage"@,
        ))
}

fn scripts_cover(package: &Package) -> (r: bool)
    ensures
        r == some_script_covers(package.scripts@),
{
    for i in 0..package.scripts.len()
        invariant
            forall|k: int|
                0 <= k < i ==> !(text::has_part((#[trigger] package.scripts@[k]).0@, "coverage"@) || text::has_part(
                    package.scripts@[k].1@,
                    "--coverage"@,
                )),
    {
        if text::contains(&package.scripts[i].0, "coverage") || text::contains(&package.scripts[i].1, "--coverage") {
            return true;
        }
    }
    false
}

/// Whether there is evidence that a package measures coverage.
pub open spec fn has_coverage(project: Project, package: PackageAt) -> bool {
    project.has(paths::joined(package.root@, "coverage"@)) || depends_on(package.package, "jest"@) || depends_on(
        package.package,
        "vitest"@,
    ) || depends_on(package.package, "c8"@) || depends_on(package.package, "nyc"@) || some_script_covers(
        package.package.scripts@,
    )
}

pub fn coverage_evidence(project: &Project, package: &PackageAt) -> (r: bool)
    ensures
        r == has_coverage(*project, *package),
{
    project.exists_at(&paths::join(&package.root, "coverage")) || package_has(&package.package, "jest") || package_has(
        &package.package,
        "vitest",
    ) || package_has(&package.package, "c8") || package_has(&package.package, "nyc") || scripts_cover(
        &package.package,
    )
}

/// The generated paths of a package.
pub open spec fn generated_paths(project: Project, package: PackageAt) -> Seq<Seq<char>> {
    let root = package.root@;
    seq![paths::joined(root, "node_modules"@)] + (if depends_on(package.package, "next"@) || some_script_has(
        package.package.scripts@,
        "next "@,
    ) {
        seq![
            paths::joined(root, ".next"@),
            paths::joined(root, "next-env.d.ts"@),
            paths::joined(root, "tsconfig.tsbuildinfo"@),
        ]
    } else {
        Seq::empty()
    }) + (if some_script_has(package.package.scripts@, "next export"@) || has_export(project, root) {
        seq![paths::joined(root, "out"@)]
    } else {
        Seq::empty()
    }) + (if has_coverage(project, package) {
        seq![paths::joined(root, "coverage"@)]
    } else {
        Seq::empty()
    })
}

pub fn node_disposable_candidates(project: &Project, package: &PackageAt) -> (r: Vec<String>)
    ensures
        model::views(r@) == generated_paths(*project, *package),
{
    let root = package.root.as_str();
    let mut out: Vec<String> = Vec::new();
    out.push(paths::join(root, "node_modules"));
    let next = package_has(&package.package, "next") || scripts_contain(&package.package, "next ");
    if next {
        out.push(paths::join(root, ".next"));
        out.push(paths::join(root, "next-env.d.ts"));
        out.push(paths::join(root, "tsconfig.tsbuildinfo"));
    }
    let export = scripts_contain(&package.package, "next export") || next_exports(project, root);
    if export {
        out.push(paths::join(root, "out"));
    }
    let coverage = coverage_evidence(project, package);
    if coverage {
        out.push(paths::join(root, "coverage"));
    }
    assert(model::views(out@) =~= generated_paths(*project, *package));
    out
}

pub open spec fn all_generated(project: Project, packages: Seq<PackageAt>) -> Seq<Seq<char>>
    decreases packages.len(),
{
    if packages.len() == 0 {
        Seq::empty()
    } else {
        all_generated(project, packages.drop_last()) + generated_paths(project, packages.last())
    }
}

/// The directories that hold a manifest.
pub open spec fn manifest_root(manifest: Seq<char>) -> spec_fn(Seq<char>) -> Option<Seq<char>> {
    |path: Seq<char>|
        if paths::name_of(path) == Some(manifest) {
            Some(directory_of(path))
        } else {
            None
        }
}

pub fn manifest_roots(versioned: &Vec<String>, manifest: &str) -> (r: Vec<String>)
    ensures
        model::views(r@) == model::views(versioned@).filter_map(manifest_root(manifest@)),
{
    let ghost all = model::views(versioned@);
    let ghost f = manifest_root(manifest@);
    let mut out: Vec<String> = Vec::new();
    proof {
        model::start_filter_map(all, f);
    }
    for i in 0..versioned.len()
        invariant
            all == model::views(versioned@),
            f == manifest_root(manifest@),
            model::views(out@) == all.take(i as int).filter_map(f),
    {
        proof {
            model::step_filter_map(all, i as int, f);
            assert(all[i as int] == versioned@[i as int]@);
        }
        match paths::file_name(&versioned[i]) {
            Some(name) => {
                if text::same(&name, manifest) {
                    out.push(directory(&versioned[i]));
                }
            },
            None => {},
        }
    }
    proof {
        model::whole(all);
    }
    out
}

/// The paths that may be disposable, for Git to say which of them it ignores.
pub open spec fn disposable_candidates(project: Project) -> Seq<Seq<char>> {
    all_generated(project, project.packages@) + model::views(project.versioned@).filter_map(
        manifest_root("Cargo.toml"@),
    ).map_values(|root: Seq<char>| paths::joined(root, "target"@))
}

pub fn candidates_for_disposal(project: &Project) -> (r: Vec<String>)
    ensures
        model::views(r@) == disposable_candidates(*project),
{
    let packages = &project.packages;
    let mut out: Vec<String> = Vec::new();
    assert(packages@.take(0) =~= Seq::empty());
    assert(model::views(out@) =~= Seq::empty());
    for i in 0..packages.len()
        invariant
            packages == project.packages,
            model::views(out@) == all_generated(*project, packages@.take(i as int)),
    {
        proof {
            model::step(packages@, i as int);
        }
        let mut more = node_disposable_candidates(project, &packages[i]);
        let ghost before = model::views(out@);
        let ghost extra = model::views(more@);
        out.append(&mut more);
        assert(model::views(out@) =~= before + extra);
    }
    proof {
        model::whole(packages@);
    }
    let ghost start = model::views(out@);
    let roots = manifest_roots(&project.versioned, "Cargo.toml");
    let ghost targets = model::views(roots@).map_values(|root: Seq<char>| paths::joined(root, "target"@));
    assert(start + targets.take(0) =~= start);
    for i in 0..roots.len()
        invariant
            targets == model::views(roots@).map_values(|root: Seq<char>| paths::joined(root, "target"@)),
            model::views(out@) == start + targets.take(i as int),
    {
        proof {
            model::step(targets, i as int);
            assert(start + targets.take(i + 1) =~= (start + targets.take(i as int)).push(targets[i as int]));
        }
        out.push(paths::join(&roots[i], "target"));
    }
    proof {
        model::whole(targets);
    }
    out
}

pub open spec fn is_ignored(ignored: Seq<Seq<char>>) -> spec_fn(Seq<char>) -> bool {
    |path: Seq<char>| paths::listed(ignored, path)
}

/// The paths that may be discarded with a worktree: Devbox's own, and generated paths that Git
/// ignores.
pub open spec fn disposables(project: Project) -> Seq<Seq<char>> {
    paths::sorted_set(
        (if project.text_at("devbox.json"@) is Some {
            seq![".devbox"@]
        } else {
            Seq::empty()
        }) + disposable_candidates(project).filter(is_ignored(model::views(project.ignored@))),
    )
}

pub fn detect_disposables(project: &Project) -> (r: Vec<String>)
    ensures
        model::views(r@) == disposables(*project),
{
    let mut out: Vec<String> = Vec::new();
    if project.read("devbox.json").is_some() {
        out.push(".devbox".to_owned());
        assert(model::views(out@) =~= seq![".devbox"@]);
    } else {
        assert(model::views(out@) =~= Seq::empty());
    }
    let ghost start = model::views(out@);
    let candidates = candidates_for_disposal(project);
    let ghost all = model::views(candidates@);
    let ghost keep = is_ignored(model::views(project.ignored@));
    proof {
        model::start_filter(all, keep);
        assert(start + Seq::<Seq<char>>::empty() =~= start);
    }
    for i in 0..candidates.len()
        invariant
            all == model::views(candidates@),
            keep == is_ignored(model::views(project.ignored@)),
            model::views(out@) == start + all.take(i as int).filter(keep),
    {
        let ghost before = all.take(i as int).filter(keep);
        proof {
            model::step_filter(all, i as int, keep);
            assert(all[i as int] == candidates@[i as int]@);
            assert(start + before.push(all[i as int]) =~= (start + before).push(all[i as int]));
        }
        if paths::list_contains(&project.ignored, &candidates[i]) {
            out.push(candidates[i].clone());
        }
    }
    proof {
        model::whole(all);
    }
    paths::sort_unique(&out)
}

proof fn lemma_generated(project: Project, packages: Seq<PackageAt>, k: int, path: Seq<char>)
    requires
        0 <= k < packages.len(),
        generated_paths(project, packages[k]).contains(path),
    ensures
        all_generated(project, packages).contains(path),
    decreases packages.len(),
{
    let init = packages.drop_last();
    let before = all_generated(project, init);
    let last = generated_paths(project, packages.last());
    let all = all_generated(project, packages);
    if k == packages.len() - 1 {
        let i = choose|i: int| 0 <= i < last.len() && last[i] == path;
        assert(all[before.len() + i] == path);
    } else {
        assert(init[k] == packages[k]);
        lemma_generated(project, init, k, path);
        let i = choose|i: int| 0 <= i < before.len() && before[i] == path;
        assert(all[i] == path);
    }
}

proof fn lemma_generated_by_one(project: Project, packages: Seq<PackageAt>, path: Seq<char>)
    requires
        all_generated(project, packages).contains(path),
    ensures
        exists|k: int| 0 <= k < packages.len() && generated_paths(project, #[trigger] packages[k]).contains(path),
    decreases packages.len(),
{
    if packages.len() > 0 {
        let init = packages.drop_last();
        let before = all_generated(project, init);
        let last = generated_paths(project, packages.last());
        let all = all_generated(project, packages);
        let i = choose|i: int| 0 <= i < all.len() && all[i] == path;
        if i < before.len() {
            assert(before[i] == path);
            lemma_generated_by_one(project, init, path);
            let k = choose|k: int| 0 <= k < init.len() && generated_paths(project, #[trigger] init[k]).contains(path);
            assert(packages[k] == init[k]);
        } else {
            assert(last[i - before.len()] == path);
            assert(generated_paths(project, packages[packages.len() - 1]).contains(path));
        }
    }
}

/// Every path that a package generates may be disposable, whichever package it is.
pub proof fn every_generated_path_is_a_candidate(project: Project, k: int, path: Seq<char>)
    requires
        0 <= k < project.packages@.len(),
        generated_paths(project, project.packages@[k]).contains(path),
    ensures
        disposable_candidates(project).contains(path),
{
    lemma_generated(project, project.packages@, k, path);
    let generated = all_generated(project, project.packages@);
    let i = choose|i: int| 0 <= i < generated.len() && generated[i] == path;
    assert(disposable_candidates(project)[i] == path);
}

/// The dependencies of every package may be disposable.
pub proof fn every_node_modules_is_a_candidate(project: Project, k: int)
    requires
        0 <= k < project.packages@.len(),
    ensures
        disposable_candidates(project).contains(paths::joined(project.packages@[k].root@, "node_modules"@)),
{
    let package = project.packages@[k];
    assert(generated_paths(project, package)[0] == paths::joined(package.root@, "node_modules"@));
    every_generated_path_is_a_candidate(project, k, paths::joined(package.root@, "node_modules"@));
}

/// The build directory beside every versioned `Cargo.toml` may be disposable.
pub proof fn every_cargo_target_is_a_candidate(project: Project, k: int, root: Seq<char>)
    requires
        0 <= k < project.versioned@.len(),
        paths::name_of(project.versioned@[k]@) == Some("Cargo.toml"@),
        paths::parent_of(project.versioned@[k]@) == Some(root),
    ensures
        disposable_candidates(project).contains(paths::joined(root, "target"@)),
{
    let versioned = model::views(project.versioned@);
    let f = manifest_root("Cargo.toml"@);
    let roots = versioned.filter_map(f);
    model::filter_map_keeps(versioned, f);
    assert(versioned[k] == project.versioned@[k]@);
    assert(f(versioned[k]) == Some(root));
    let i = choose|i: int| 0 <= i < roots.len() && roots[i] == root;
    let generated = all_generated(project, project.packages@);
    assert(disposable_candidates(project)[generated.len() + i] == paths::joined(root, "target"@));
}

/// Nothing else may be disposable: a candidate is generated by a package or stands beside a
/// versioned `Cargo.toml`.
pub proof fn candidates_are_generated(project: Project, path: Seq<char>)
    requires
        disposable_candidates(project).contains(path),
    ensures
        ({
            ||| exists|k: int|
                0 <= k < project.packages@.len() && generated_paths(project, #[trigger] project.packages@[k]).contains(
                    path,
                )
            ||| exists|k: int|
                0 <= k < project.versioned@.len() && paths::name_of((#[trigger] project.versioned@[k])@) == Some(
                    "Cargo.toml"@,
                ) && path == paths::joined(directory_of(project.versioned@[k]@), "target"@)
        }),
{
    let versioned = model::views(project.versioned@);
    let f = manifest_root("Cargo.toml"@);
    let roots = versioned.filter_map(f);
    let generated = all_generated(project, project.packages@);
    let all = disposable_candidates(project);
    let i = choose|i: int| 0 <= i < all.len() && all[i] == path;
    if i < generated.len() {
        assert(generated[i] == path);
        lemma_generated_by_one(project, project.packages@, path);
    } else {
        let root = roots[i - generated.len()];
        model::filter_map_keeps(versioned, f);
        assert(roots.contains(root));
        let k = choose|k: int| 0 <= k < versioned.len() && f(#[trigger] versioned[k]) == Some(root);
        assert(versioned[k] == project.versioned@[k]@);
    }
}

/// What a package generates follows from its dependencies and scripts: the outputs of Next.js where
/// it depends on it or runs it, an export where a script or the configuration asks for one, coverage
/// where a test runner, a script or the checkout shows it, and its dependencies in any case.
pub proof fn packages_generate_what_they_use(project: Project, package: PackageAt, i: int, path: Seq<char>)
    ensures
        generated_paths(project, package).contains(paths::joined(package.root@, "node_modules"@)),
        0 <= i < package.package.dependencies@.len() && package.package.dependencies@[i]@ == "next"@ || 0 <= i
            < package.package.dev_dependencies@.len() && package.package.dev_dependencies@[i]@ == "next"@ || 0 <= i
            < package.package.scripts@.len() && text::has_part(package.package.scripts@[i].1@, "next "@) ==> {
            &&& generated_paths(project, package).contains(paths::joined(package.root@, ".next"@))
            &&& generated_paths(project, package).contains(paths::joined(package.root@, "next-env.d.ts"@))
            &&& generated_paths(project, package).contains(paths::joined(package.root@, "tsconfig.tsbuildinfo"@))
        },
        0 <= i < package.package.scripts@.len() && text::has_part(package.package.scripts@[i].1@, "next export"@)
            ==> generated_paths(project, package).contains(paths::joined(package.root@, "out"@)),
        0 <= i < script_endings().len() && (project.text_at(
            paths::joined(package.root@, "next.config."@ + script_endings()[i]),
        ) matches Some(contents) && (text::has_part(contents, "output: \"export\""@) || text::has_part(
            contents,
            "output: 'export'"@,
        ))) ==> generated_paths(project, package).contains(paths::joined(package.root@, "out"@)),
        0 <= i < package.package.scripts@.len() && (text::has_part(package.package.scripts@[i].0@, "coverage"@)
            || text::has_part(package.package.scripts@[i].1@, "--coverage"@)) ==> generated_paths(
            project,
            package,
        ).contains(paths::joined(package.root@, "coverage"@)),
{
    let all = generated_paths(project, package);
    let root = package.root@;
    let next = depends_on(package.package, "next"@) || some_script_has(package.package.scripts@, "next "@);
    let out = some_script_has(package.package.scripts@, "next export"@) || has_export(project, root);
    assert(all[0] == paths::joined(root, "node_modules"@));
    if 0 <= i < package.package.dependencies@.len() {
        assert(model::views(package.package.dependencies@)[i] == package.package.dependencies@[i]@);
    }
    if 0 <= i < package.package.dev_dependencies@.len() {
        assert(model::views(package.package.dev_dependencies@)[i] == package.package.dev_dependencies@[i]@);
    }
    if next {
        assert(all[1] == paths::joined(root, ".next"@));
        assert(all[2] == paths::joined(root, "next-env.d.ts"@));
        assert(all[3] == paths::joined(root, "tsconfig.tsbuildinfo"@));
    }
    lemma_next_configs();
    if out {
        let at = if next {
            4int
        } else {
            1int
        };
        assert(all[at] == paths::joined(root, "out"@));
    }
    if has_coverage(project, package) {
        assert(all[all.len() - 1] == paths::joined(root, "coverage"@));
    }
}

proof fn lemma_next_configs()
    ensures
        script_endings().len() == 4,
        "next.config."@ + script_endings()[0] == "next.config.js"@,
        "next.config."@ + script_endings()[1] == "next.config.mjs"@,
        "next.config."@ + script_endings()[2] == "next.config.ts"@,
        "next.config."@ + script_endings()[3] == "next.config.mts"@,
{
    reveal_strlit("next.config.");
    reveal_strlit("js");
    reveal_strlit("mjs");
    reveal_strlit("ts");
    reveal_strlit("mts");
    reveal_strlit("next.config.js");
    reveal_strlit("next.config.mjs");
    reveal_strlit("next.config.ts");
    reveal_strlit("next.config.mts");
    assert("next.config."@ + "js"@ =~= "next.config.js"@);
    assert("next.config."@ + "mjs"@ =~= "next.config.mjs"@);
    assert("next.config."@ + "ts"@ =~= "next.config.ts"@);
    assert("next.config."@ + "mts"@ =~= "next.config.mts"@);
}

/// A test runner among the dependencies, and a coverage report in the checkout, show that a package
/// measures coverage.
pub proof fn test_runners_measure_coverage(project: Project, package: PackageAt, name: Seq<char>, i: int)
    requires
        ({
            ||| (name == "jest"@ || name == "vitest"@ || name == "c8"@ || name == "nyc"@) && (0 <= i
                < package.package.dependencies@.len() && package.package.dependencies@[i]@ == name || 0 <= i
                < package.package.dev_dependencies@.len() && package.package.dev_dependencies@[i]@ == name)
            ||| 0 <= i < project.existing@.len() && paths::same_path(
                project.existing@[i]@,
                paths::joined(package.root@, "coverage"@),
            )
        }),
    ensures
        generated_paths(project, package).contains(paths::joined(package.root@, "coverage"@)),
{
    let all = generated_paths(project, package);
    if 0 <= i < package.package.dependencies@.len() {
        assert(model::views(package.package.dependencies@)[i] == package.package.dependencies@[i]@);
    }
    if 0 <= i < package.package.dev_dependencies@.len() {
        assert(model::views(package.package.dev_dependencies@)[i] == package.package.dev_dependencies@[i]@);
    }
    if 0 <= i < project.existing@.len() {
        assert(model::views(project.existing@)[i] == project.existing@[i]@);
    }
    assert(has_coverage(project, package));
    assert(all[all.len() - 1] == paths::joined(package.root@, "coverage"@));
}

/// Every candidate that Git ignores may be discarded, and so may Devbox's own directory where the
/// project has a `devbox.json`; nothing else may.
pub proof fn disposable_means_ignored(project: Project)
    ensures
        forall|path: Seq<char>, i: int| #[trigger]
            disposable_candidates(project).contains(path) && 0 <= i < project.ignored@.len() && paths::same_path(
                (#[trigger] project.ignored@[i])@,
                path,
            ) ==> paths::listed(disposables(project), path),
        project.text_at("devbox.json"@) is Some ==> paths::listed(disposables(project), ".devbox"@),
        forall|path: Seq<char>| #[trigger]
            disposables(project).contains(path) ==> {
                ||| path == ".devbox"@ && project.text_at("devbox.json"@) is Some
                ||| disposable_candidates(project).contains(path) && exists|i: int|
                    0 <= i < project.ignored@.len() && paths::same_path((#[trigger] project.ignored@[i])@, path)
            },
{
    let own = if project.text_at("devbox.json"@) is Some {
        seq![".devbox"@]
    } else {
        Seq::empty()
    };
    let candidates = disposable_candidates(project);
    let ignored = model::views(project.ignored@);
    let keep = is_ignored(ignored);
    let kept = candidates.filter(keep);
    let all = own + kept;
    model::filter_keeps(candidates, keep);
    paths::sorted_set_is_the_set(all);
    assert forall|path: Seq<char>, i: int| #[trigger]
        candidates.contains(path) && 0 <= i < project.ignored@.len() && paths::same_path(
            (#[trigger] project.ignored@[i])@,
            path,
        ) implies paths::listed(disposables(project), path) by {
        assert(ignored[i] == project.ignored@[i]@);
        assert(kept.contains(path));
        let k = choose|k: int| 0 <= k < kept.len() && kept[k] == path;
        assert(all[own.len() + k] == path);
        assert(all.contains(path));
    }
    if own.len() > 0 {
        assert(all[0] == ".devbox"@);
        assert(all.contains(".devbox"@));
    }
    assert forall|path: Seq<char>| #[trigger] disposables(project).contains(path) implies {
        ||| path == ".devbox"@ && project.text_at("devbox.json"@) is Some
        ||| candidates.contains(path) && exists|i: int|
            0 <= i < project.ignored@.len() && paths::same_path((#[trigger] project.ignored@[i])@, path)
    } by {
        assert(all.contains(path));
        let k = choose|k: int| 0 <= k < all.len() && all[k] == path;
        if k >= own.len() {
            assert(kept[k - own.len()] == path);
            assert(kept.contains(path));
            let i = choose|i: int| 0 <= i < ignored.len() && paths::same_path(#[trigger] ignored[i], path);
            assert(project.ignored@[i]@ == ignored[i]);
        }
    }
}

// ---------------------------------------------------------------------------
// Notices and warnings
// ---------------------------------------------------------------------------

/// Whether a path is a Compose file.
pub open spec fn is_compose(path: Seq<char>) -> bool {
    paths::name_of(path) matches Some(name) && (".yml"@.is_suffix_of(name) || ".yaml"@.is_suffix_of(name)) && (
    "compose"@.is_prefix_of(name) || "docker-compose"@.is_prefix_of(name))
}

/// Whether a path is a Compose file that is used without being asked for.
pub open spec fn is_default_compose(path: Seq<char>) -> bool {
    at_root(path) && (paths::name_of(path) matches Some(name) && compose_names().contains(name))
}

pub fn is_compose_path(path: &str) -> (r: bool)
    ensures
        r == is_compose(path@),
{
    match paths::file_name(path) {
        Some(name) => (text::ends_with(&name, ".yml") || text::ends_with(&name, ".yaml")) && (text::starts_with(
            &name,
            "compose",
        ) || text::starts_with(&name, "docker-compose")),
        None => false,
    }
}

pub fn is_root_compose_path(path: &str) -> (r: bool)
    ensures
        r == is_default_compose(path@),
{
    if !is_at_root(path) {
        return false;
    }
    match paths::file_name(path) {
        Some(name) => text::list_contains(&compose_files(), &name),
        None => false,
    }
}

pub open spec fn is_extra_compose() -> spec_fn(Seq<char>) -> bool {
    |path: Seq<char>| is_compose(path) && !is_default_compose(path)
}

/// A notice about Compose files that are not used.
pub open spec fn compose_notices(versioned: Seq<Seq<char>>) -> Seq<Seq<char>> {
    let extra = versioned.filter(is_extra_compose());
    if extra.len() == 0 {
        Seq::empty()
    } else {
        seq!["Additional Compose files (not enabled): "@ + text::joined(extra, ", "@)]
    }
}

pub fn add_compose_notices(versioned: &Vec<String>) -> (r: Vec<String>)
    ensures
        model::views(r@) == compose_notices(model::views(versioned@)),
{
    let ghost all = model::views(versioned@);
    let ghost keep = is_extra_compose();
    let mut extra: Vec<String> = Vec::new();
    proof {
        model::start_filter(all, keep);
    }
    for i in 0..versioned.len()
        invariant
            all == model::views(versioned@),
            keep == is_extra_compose(),
            model::views(extra@) == all.take(i as int).filter(keep),
    {
        proof {
            model::step_filter(all, i as int, keep);
            assert(all[i as int] == versioned@[i as int]@);
        }
        if is_compose_path(&versioned[i]) && !is_root_compose_path(&versioned[i]) {
            extra.push(versioned[i].clone());
        }
    }
    proof {
        model::whole(all);
    }
    let mut out: Vec<String> = Vec::new();
    if extra.len() > 0 {
        out.push(text::concat("Additional Compose files (not enabled): ", &text::join(&extra, ", ")));
    }
    assert(model::views(out@) =~= compose_notices(all));
    out
}

/// Whether Devbox keeps the Go cache inside the worktree.
pub open spec fn keeps_gopath(document: Option<Seq<char>>) -> bool {
    document matches Some(contents) && text::has_part(contents, "\"GOPATH\""@) && (text::has_part(
        contents,
        "$PWD/.devbox"@,
    ) || text::has_part(contents, "${PWD}/.devbox"@))
}

pub fn devbox_uses_worktree_gopath(document: &Option<String>) -> (r: bool)
    ensures
        r == keeps_gopath(model::opt(*document)),
{
    match document {
        Some(contents) => text::contains(contents, "\"GOPATH\"") && (text::contains(contents, "$PWD/.devbox")
            || text::contains(contents, "${PWD}/.devbox")),
        None => false,
    }
}

/// The default of a port setting, or why it has none.
pub open spec fn default_of() -> spec_fn(Seq<char>) -> Result<Option<u16>, Seq<char>> {
    |port: Seq<char>|
        match config::port_spec(port) {
            Ok(spec) => Ok(spec.1),
            Err(message) => Err(message),
        }
}

pub open spec fn given() -> spec_fn(Option<u16>) -> Option<u16> {
    |port: Option<u16>| port
}

/// The ports that processes read, by their defaults.
pub open spec fn defaults_of(ports: Seq<Seq<char>>) -> Result<Seq<u16>, Seq<char>> {
    match environment::collected(ports.map_values(default_of())) {
        Ok(list) => Ok(list.filter_map(given())),
        Err(message) => Err(message),
    }
}

pub fn process_defaults(config: &Config) -> (r: Result<Vec<u16>, String>)
    ensures
        model::outcome(r) == defaults_of(config@.ports),
{
    let ghost all = config@.ports.map_values(default_of());
    let mut out: Vec<u16> = Vec::new();
    let ghost mut list: Seq<Option<u16>> = Seq::empty();
    proof {
        assert(all.take(0) =~= Seq::empty());
        model::start_filter_map(list, given());
        assert(list.take(0) =~= list);
    }
    for i in 0..config.ports.len()
        invariant
            all == config@.ports.map_values(default_of()),
            environment::collected(all.take(i as int)) == Ok::<Seq<Option<u16>>, Seq<char>>(list),
            out@ == list.filter_map(given()),
    {
        proof {
            model::step(all, i as int);
            assert(config@.ports[i as int] == config.ports@[i as int]@);
        }
        match config::parse_port_spec(&config.ports[i]) {
            Ok(spec) => {
                let ghost more = list.push(spec.default);
                proof {
                    model::step_filter_map(more, list.len() as int, given());
                    assert(more.take(list.len() as int) =~= list);
                    assert(more.take(more.len() as int) =~= more);
                    list = more;
                }
                match spec.default {
                    Some(port) => {
                        out.push(port);
                    },
                    None => {},
                }
            },
            Err(message) => {
                proof {
                    environment::lemma_collected_error(all, i + 1);
                }
                return Err(message);
            },
        }
    }
    proof {
        model::whole(all);
    }
    Ok(out)
}

/// The directory of a service that runs isolated.
pub open spec fn service_root() -> spec_fn(Seq<char>) -> Option<Seq<char>> {
    |path: Seq<char>|
        if is_wrangler(path) {
            paths::parent_of(path)
        } else {
            None
        }
}

/// The directories of services that run isolated, each once, in order.
pub open spec fn service_roots(versioned: Seq<Seq<char>>) -> Seq<Seq<char>> {
    paths::sorted_set(versioned.filter_map(service_root()))
}

pub fn isolated_service_roots(versioned: &Vec<String>) -> (r: Vec<String>)
    ensures
        model::views(r@) == service_roots(model::views(versioned@)),
{
    let ghost all = model::views(versioned@);
    let mut out: Vec<String> = Vec::new();
    proof {
        model::start_filter_map(all, service_root());
    }
    for i in 0..versioned.len()
        invariant
            all == model::views(versioned@),
            model::views(out@) == all.take(i as int).filter_map(service_root()),
    {
        proof {
            model::step_filter_map(all, i as int, service_root());
            assert(all[i as int] == versioned@[i as int]@);
        }
        if is_wrangler_config(&versioned[i]) {
            match paths::parent(&versioned[i]) {
                Some(parent) => {
                    out.push(parent);
                },
                None => {},
            }
        }
    }
    proof {
        model::whole(all);
    }
    paths::sort_unique(&out)
}

/// Whether a file runs in production or development, by its path.
pub open spec fn is_runtime(path: Seq<char>) -> bool {
    let name = match paths::name_of(path) {
        Some(name) => name,
        None => Seq::empty(),
    };
    &&& !paths::components(path).contains("tests"@)
    &&& !text::has_part(name, ".test."@) && !text::has_part(name, ".spec."@)
    &&& paths::extension_of(path) matches Some(extension) && is_runtime_extension(extension)
}

pub open spec fn is_runtime_extension(extension: Seq<char>) -> bool {
    extension == "ts"@ || extension == "tsx"@ || extension == "js"@ || extension == "mjs"@ || extension == "cjs"@
        || extension == "toml"@ || extension == "json"@ || extension == "jsonc"@ || extension == "yaml"@ || extension
        == "yml"@
}

pub fn is_runtime_file(path: &str) -> (r: bool)
    ensures
        r == is_runtime(path@),
{
    let name = match paths::file_name(path) {
        Some(name) => name,
        None => {
            let none = String::new();
            assert(none@ =~= Seq::<char>::empty());
            none
        },
    };
    if text::list_contains(&paths::components_of(path), "tests") || text::contains(&name, ".test.") || text::contains(
        &name,
        ".spec.",
    ) {
        return false;
    }
    match paths::extension(path) {
        Some(extension) => {
            let e = extension.as_str();
            text::same(e, "ts") || text::same(e, "tsx") || text::same(e, "js") || text::same(e, "mjs") || text::same(
                e,
                "cjs",
            ) || text::same(e, "toml") || text::same(e, "json") || text::same(e, "jsonc") || text::same(e, "yaml")
                || text::same(e, "yml")
        },
        None => false,
    }
}

/// Whether bytes stand in others at a position.
pub open spec fn bytes_at(contents: Seq<u8>, needle: Seq<u8>, at: int) -> bool {
    0 <= at && at + needle.len() <= contents.len() && contents.subrange(at, at + needle.len()) == needle
}

/// Whether bytes stand somewhere in others.
pub open spec fn has_bytes(contents: Seq<u8>, needle: Seq<u8>) -> bool {
    exists|at: int| bytes_at(contents, needle, at)
}

pub fn contains_bytes(contents: &Vec<u8>, needle: &[u8]) -> (r: bool)
    ensures
        r == has_bytes(contents@, needle@),
{
    if needle.len() > contents.len() {
        return false;
    }
    let size: usize = contents.len();
    let last: usize = size - needle.len();
    let mut at: usize = 0;
    while at <= last
        invariant
            size == contents@.len(),
            last == size - needle@.len(),
            at <= last + 1,
            forall|k: int| 0 <= k < at ==> !bytes_at(contents@, needle@, k),
        decreases last + 1 - at,
    {
        let mut same = true;
        for j in 0..needle.len()
            invariant
                at + needle@.len() <= size,
                size == contents@.len(),
                same == forall|k: int| 0 <= k < j ==> contents@[at + k] == needle@[k],
        {
            if contents[at + j] != needle[j] {
                same = false;
            }
        }
        if same {
            assert(contents@.subrange(at as int, at + needle@.len()) =~= needle@);
            assert(bytes_at(contents@, needle@, at as int));
            return true;
        }
        assert(!bytes_at(contents@, needle@, at as int)) by {
            if bytes_at(contents@, needle@, at as int) {
                assert forall|k: int| 0 <= k < needle@.len() implies contents@[at + k] == needle@[k] by {
                    assert(contents@.subrange(at as int, at + needle@.len())[k] == needle@[k]);
                }
            }
        }
        if at == last {
            return false;
        }
        at += 1;
    }
    false
}

/// A local address with a port.
pub open spec fn local_address(port: u16) -> Seq<char> {
    "localhost:"@ + text::decimal(port as nat)
}

pub fn localhost_needle(port: u16) -> (r: String)
    ensures
        r@ == local_address(port),
{
    text::concat("localhost:", &text::to_decimal(port as u64))
}

/// The local addresses to search for: none where no service runs isolated.
pub open spec fn addresses(project: Project, ports: Seq<Seq<char>>) -> Result<Seq<Seq<char>>, Seq<char>> {
    match defaults_of(ports) {
        Err(message) => Err(message),
        Ok(defaults) => if service_roots(model::views(project.versioned@)).len() == 0 {
            Ok(Seq::empty())
        } else {
            Ok(servers::sorted_numbers(defaults).map_values(|port: u16| local_address(port)))
        },
    }
}

/// The local addresses to search the files of a repository for.
pub fn localhost_needles(project: &Project, config: &Config) -> (r: Result<Vec<String>, String>)
    ensures
        model::outcome_list(r) == addresses(*project, config@.ports),
{
    let defaults = match process_defaults(config) {
        Ok(defaults) => defaults,
        Err(message) => {
            return Err(message);
        },
    };
    let mut out: Vec<String> = Vec::new();
    let roots = isolated_service_roots(&project.versioned);
    assert(model::views(roots@).len() == roots@.len());
    if roots.len() == 0 {
        assert(model::views(out@) =~= Seq::empty());
        return Ok(out);
    }
    let numbers = servers::sort_numbers(&defaults);
    let ghost all = numbers@.map_values(|port: u16| local_address(port));
    for i in 0..numbers.len()
        invariant
            all == numbers@.map_values(|port: u16| local_address(port)),
            model::views(out@) == all.take(i as int),
    {
        proof {
            model::step(all, i as int);
        }
        out.push(localhost_needle(numbers[i]));
    }
    proof {
        model::whole(all);
    }
    Ok(out)
}

/// A file of an isolated service that has a port written into it.
pub open spec fn hardcodes(roots: Seq<Seq<char>>, port: u16, only: bool) -> spec_fn(Match) -> Option<Seq<char>> {
    |m: Match|
        if is_runtime(m.path@) && paths::covered(roots, m.path@) && (only || has_bytes(
            m.contents@,
            vstd::utf8::encode_utf8(local_address(port)),
        )) {
            Some(m.path@)
        } else {
            None
        }
}

/// The files of isolated services that have a port written into them.
pub fn hardcoded_localhost_paths(project: &Project, roots: &Vec<String>, port: u16, only: bool) -> (r: Vec<String>)
    ensures
        model::views(r@) == project.matches@.filter_map(hardcodes(model::views(roots@), port, only)),
{
    let needle = localhost_needle(port);
    let ghost f = hardcodes(model::views(roots@), port, only);
    let mut out: Vec<String> = Vec::new();
    proof {
        model::start_filter_map(project.matches@, f);
    }
    for i in 0..project.matches.len()
        invariant
            needle@ == local_address(port),
            f == hardcodes(model::views(roots@), port, only),
            model::views(out@) == project.matches@.take(i as int).filter_map(f),
    {
        proof {
            model::step_filter_map(project.matches@, i as int, f);
        }
        let found = &project.matches[i];
        if is_runtime_file(&found.path) && paths::list_covers(roots, &found.path) && (only || contains_bytes(
            &found.contents,
            needle.as_str().as_bytes(),
        )) {
            out.push(found.path.clone());
        }
    }
    proof {
        model::whole(project.matches@);
    }
    out
}

/// The warning about a port that is written into files of isolated services.
pub open spec fn localhost_warning(project: Project, roots: Seq<Seq<char>>, only: bool) -> spec_fn(u16) -> Option<
    Seq<char>,
> {
    |port: u16|
        {
            let found = project.matches@.filter_map(hardcodes(roots, port, only));
            if found.len() == 0 {
                None
            } else {
                Some(
                    "Tracked runtime files hard-code localhost:"@ + text::decimal(port as nat) + ": "@ + text::joined(
                        found,
                        ", "@,
                    ) + ". They may not follow the assigned port."@,
                )
            }
        }
}

/// The warnings about leased ports that are written into files.
pub open spec fn localhost_warnings(project: Project, ports: Seq<Seq<char>>) -> Result<Seq<Seq<char>>, Seq<char>> {
    match defaults_of(ports) {
        Err(message) => Err(message),
        Ok(defaults) => {
            let numbers = servers::sorted_numbers(defaults);
            let roots = service_roots(model::views(project.versioned@));
            if roots.len() == 0 {
                Ok(Seq::empty())
            } else {
                Ok(numbers.filter_map(localhost_warning(project, roots, numbers.len() == 1)))
            }
        },
    }
}

pub fn add_localhost_warnings(project: &Project, config: &Config) -> (r: Result<Vec<String>, String>)
    ensures
        model::outcome_list(r) == localhost_warnings(*project, config@.ports),
{
    let defaults = match process_defaults(config) {
        Ok(defaults) => defaults,
        Err(message) => {
            return Err(message);
        },
    };
    let numbers = servers::sort_numbers(&defaults);
    let roots = isolated_service_roots(&project.versioned);
    let mut out: Vec<String> = Vec::new();
    if roots.len() == 0 {
        assert(model::views(out@) =~= Seq::empty());
        assert(model::views(roots@).len() == 0);
        return Ok(out);
    }
    let only = numbers.len() == 1;
    let ghost f = localhost_warning(*project, model::views(roots@), only);
    proof {
        model::start_filter_map(numbers@, f);
    }
    for i in 0..numbers.len()
        invariant
            f == localhost_warning(*project, model::views(roots@), only),
            model::views(out@) == numbers@.take(i as int).filter_map(f),
    {
        proof {
            model::step_filter_map(numbers@, i as int, f);
        }
        let found = hardcoded_localhost_paths(project, &roots, numbers[i], only);
        assert(model::views(found@).len() == found@.len());
        if found.len() > 0 {
            let mut warning = text::concat3(
                "Tracked runtime files hard-code localhost:",
                &text::to_decimal(numbers[i] as u64),
                ": ",
            );
            warning.append(&text::join(&found, ", "));
            warning.append(". They may not follow the assigned port.");
            out.push(warning);
        }
    }
    proof {
        model::whole(numbers@);
        assert(model::views(roots@).len() != 0);
    }
    Ok(out)
}

/// The warnings about a repository and the settings for it.
pub open spec fn repository_warnings(project: Project, settings: Settings) -> Result<Seq<Seq<char>>, Seq<char>> {
    match localhost_warnings(project, settings.ports) {
        Err(message) => Err(message),
        Ok(more) => Ok(
            (if keeps_gopath(project.text_at("devbox.json"@)) {
                seq!["devbox.json stores GOPATH inside .devbox; each worktree duplicates the Go cache."@]
            } else {
                Seq::empty()
            }) + (if settings.env is None && settings.compose {
                seq!["Docker Compose isolation needs a primary env file."@]
            } else {
                Seq::empty()
            }) + (if environment::has_process_port(settings.ports) && !project.direnv {
                seq!["Process-port isolation needs direnv, but direnv is not installed."@]
            } else {
                Seq::empty()
            }) + more,
        ),
    }
}

pub fn add_repository_warnings(project: &Project, config: &Config) -> (r: Result<Vec<String>, String>)
    ensures
        model::outcome_list(r) == repository_warnings(*project, config@),
{
    let mut more = match add_localhost_warnings(project, config) {
        Ok(more) => more,
        Err(message) => {
            return Err(message);
        },
    };
    let ghost last = model::views(more@);
    let mut out: Vec<String> = Vec::new();
    if devbox_uses_worktree_gopath(&project.read("devbox.json")) {
        out.push("devbox.json stores GOPATH inside .devbox; each worktree duplicates the Go cache.".to_owned());
    }
    if config.env.is_none() && config.compose {
        out.push("Docker Compose isolation needs a primary env file.".to_owned());
    }
    if environment::has_process_ports(config) && !project.direnv {
        out.push("Process-port isolation needs direnv, but direnv is not installed.".to_owned());
    }
    let ghost first = model::views(out@);
    out.append(&mut more);
    assert(model::views(out@) =~= first + last);
    assert(first + last =~= repository_warnings(*project, config@)->Ok_0);
    Ok(out)
}

// ---------------------------------------------------------------------------
// The report
// ---------------------------------------------------------------------------

/// The settings with what is known before servers are looked for.
pub open spec fn with_files(project: Project, settings: Settings) -> Settings {
    let existing = model::views(project.env_files@);
    let template = template_for(project, settings.env is Some);
    let env = match settings.env {
        Some(env) => Some(env),
        None => if existing.len() > 0 {
            Some(existing[0])
        } else {
            match template {
                Some((_, target)) => Some(target),
                None => None,
            }
        },
    };
    Settings {
        env,
        copies: copies_of(settings.copies, existing, env),
        compose: settings.compose || root_compose(project),
        ..settings
    }
}

/// The settings with commands and disposable paths.
pub open spec fn with_commands(project: Project, settings: Settings, bootstrap: Option<Seq<char>>) -> Settings {
    Settings {
        bootstrap,
        teardown: match settings.teardown {
            Some(command) => Some(command),
            None => if settings.compose {
                Some("docker compose down --remove-orphans"@)
            } else {
                None
            },
        },
        disposable: if settings.disposable.len() == 0 {
            disposables(project)
        } else {
            settings.disposable
        },
        ..settings
    }
}

/// What detection comes to: what was asked for stays, the rest is found out.
pub open spec fn detected(project: Project, settings: Settings) -> Result<ReportData, Seq<char>> {
    let template = template_for(project, settings.env is Some);
    let files = with_files(project, settings);
    let found = development_found(project, files, template);
    let ports = Settings { ports: found.ports, ..files };
    let bootstrap = match settings.bootstrap {
        Some(command) => Ok((Some(command), Seq::empty())),
        None => bootstrap_found(project),
    };
    match bootstrap {
        Err(message) => Err(message),
        Ok((command, notices)) => {
            let all = with_commands(project, ports, command);
            match repository_warnings(project, all) {
                Err(message) => Err(message),
                Ok(warnings) => Ok(
                    ReportData {
                        settings: all,
                        development: found.development,
                        notices: notices + compose_notices(model::views(project.versioned@)),
                        warnings: text::sorted_set(found.warnings + warnings),
                        env_template: template,
                    },
                ),
            }
        },
    }
}

/// What was asked for stays as it was asked for; detection only adds to it.
pub proof fn what_was_asked_for_stays(project: Project, settings: Settings)
    ensures
        detected(project, settings) matches Ok(report) ==> {
            &&& report.settings.base == settings.base
            &&& settings.env is Some ==> report.settings.env == settings.env
            &&& settings.copies.len() > 0 ==> report.settings.copies == settings.copies
            &&& settings.compose ==> report.settings.compose
            &&& settings.ports.len() > 0 ==> report.settings.ports == settings.ports
            &&& settings.bootstrap is Some ==> report.settings.bootstrap == settings.bootstrap
            &&& settings.teardown is Some ==> report.settings.teardown == settings.teardown
            &&& settings.disposable.len() > 0 ==> report.settings.disposable == settings.disposable
        },
{
}

/// Where nothing else was asked for, what Git ignores of a project's outputs may be discarded: the
/// build directory beside every versioned `Cargo.toml`, and the dependencies and every other
/// generated path of every package.
pub proof fn ignored_outputs_are_discarded(project: Project, settings: Settings, k: int, i: int)
    requires
        settings.disposable.len() == 0,
        0 <= i < project.ignored@.len(),
    ensures
        detected(project, settings) matches Ok(report) ==> {
            &&& 0 <= k < project.versioned@.len() && paths::name_of(project.versioned@[k]@) == Some("Cargo.toml"@)
                ==> (paths::parent_of(project.versioned@[k]@) matches Some(root) ==> (paths::same_path(
                project.ignored@[i]@,
                paths::joined(root, "target"@),
            ) ==> paths::covered(report.settings.disposable, paths::joined(root, "target"@))))
            &&& 0 <= k < project.packages@.len() ==> (paths::same_path(
                project.ignored@[i]@,
                paths::joined(project.packages@[k].root@, "node_modules"@),
            ) ==> paths::covered(
                report.settings.disposable,
                paths::joined(project.packages@[k].root@, "node_modules"@),
            ))
            &&& 0 <= k < project.packages@.len() ==> forall|path: Seq<char>| #[trigger]
                generated_paths(project, project.packages@[k]).contains(path) && paths::same_path(
                    project.ignored@[i]@,
                    path,
                ) ==> paths::covered(report.settings.disposable, path)
        },
{
    disposable_means_ignored(project);
    assert forall|path: Seq<char>| #[trigger]
        disposable_candidates(project).contains(path) && paths::same_path(
            project.ignored@[i]@,
            path,
        ) implies paths::covered(disposables(project), path) by {
        paths::listed_is_covered(disposables(project), path);
    }
    if 0 <= k < project.versioned@.len() && paths::name_of(project.versioned@[k]@) == Some("Cargo.toml"@)
        && paths::parent_of(project.versioned@[k]@) is Some {
        every_cargo_target_is_a_candidate(project, k, paths::parent_of(project.versioned@[k]@)->0);
    }
    if 0 <= k < project.packages@.len() {
        every_node_modules_is_a_candidate(project, k);
        assert forall|path: Seq<char>| #[trigger]
            generated_paths(project, project.packages@[k]).contains(path) implies disposable_candidates(
            project,
        ).contains(path) by {
            every_generated_path_is_a_candidate(project, k, path);
        }
    }
}

/// What was not asked for is filled in: the first private env file, every other one as a copy, a
/// Compose file at the root, and the command that stops it.
pub proof fn what_was_left_open_is_detected(project: Project, settings: Settings)
    ensures
        detected(project, settings) matches Ok(report) ==> {
            &&& settings.env is None && project.env_files@.len() > 0 ==> report.settings.env == Some(
                project.env_files@[0]@,
            )
            &&& settings.copies.len() == 0 ==> forall|k: int|
                0 <= k < project.env_files@.len() ==> (report.settings.copies.contains(
                    (#[trigger] project.env_files@[k])@,
                ) <==> !(report.settings.env matches Some(env) && paths::same_path(project.env_files@[k]@, env)))
            &&& settings.copies.len() == 0 ==> forall|path: Seq<char>| #[trigger]
                report.settings.copies.contains(path) ==> exists|k: int|
                    0 <= k < project.env_files@.len() && (#[trigger] project.env_files@[k])@ == path
            &&& report.settings.compose <==> settings.compose || project.has_file("compose.yml"@) || project.has_file(
                "compose.yaml"@,
            ) || project.has_file("docker-compose.yml"@) || project.has_file("docker-compose.yaml"@)
            &&& settings.teardown is None ==> report.settings.teardown == if report.settings.compose {
                Some("docker compose down --remove-orphans"@)
            } else {
                None
            }
        },
{
    if detected(project, settings) is Ok {
        let report = detected(project, settings)->Ok_0;
        let existing = model::views(project.env_files@);
        let env = report.settings.env;
        model::filter_keeps(existing, other_than(env));
        if settings.copies.len() == 0 {
            assert(report.settings.copies == existing.filter(other_than(env)));
            assert forall|k: int| 0 <= k < project.env_files@.len() implies (report.settings.copies.contains(
                (#[trigger] project.env_files@[k])@,
            ) <==> !(env matches Some(env) && paths::same_path(project.env_files@[k]@, env))) by {
                assert(existing[k] == project.env_files@[k]@);
                assert(existing.contains(existing[k]));
            }
            assert forall|path: Seq<char>| #[trigger] report.settings.copies.contains(path) implies exists|k: int|
                0 <= k < project.env_files@.len() && (#[trigger] project.env_files@[k])@ == path by {
                assert(existing.contains(path));
                let k = choose|k: int| 0 <= k < existing.len() && existing[k] == path;
                assert(project.env_files@[k]@ == path);
            }
        }
        if project.env_files@.len() > 0 {
            assert(existing[0] == project.env_files@[0]@);
        }
        let names = compose_names();
        assert(names.len() == 4);
        assert(root_compose(project) <==> project.has_file(names[0]) || project.has_file(names[1])
            || project.has_file(names[2]) || project.has_file(names[3])) by {
            if root_compose(project) {
                let i = choose|i: int| 0 <= i < compose_names().len() && project.has_file(#[trigger] compose_names()[i]);
                assert(i == 0 || i == 1 || i == 2 || i == 3);
            }
        }
    }
}

pub fn detect(project: &Project, config: Config) -> (r: Result<Report, String>)
    ensures
        model::outcome(r) == detected(*project, config@),
{
    let ghost asked = config@;
    let template = select_env_template(project, config.env.is_some());
    let mut config = config;
    if config.env.is_none() {
        if project.env_files.len() > 0 {
            assert(model::views(project.env_files@)[0] == project.env_files@[0]@);
            config.env = Some(project.env_files[0].clone());
        } else {
            config.env = match &template {
                Some(template) => Some(template.target.clone()),
                None => None,
            };
        }
    }
    config.copies = detected_copies(&config.copies, &project.env_files, &config.env);
    config.compose = config.compose || has_root_compose(project);
    assert(config@ =~= with_files(*project, asked));
    let found = detect_development(project, &config, &template);
    config.ports = found.ports;
    let ghost ports = Settings { ports: found@.ports, ..with_files(*project, asked) };
    assert(config@ =~= ports);
    let mut notices: Vec<String> = Vec::new();
    assert(model::views(notices@) =~= Seq::empty());
    if config.bootstrap.is_none() {
        match detect_bootstrap(project) {
            Ok((command, more)) => {
                config.bootstrap = command;
                notices = more;
            },
            Err(message) => {
                return Err(message);
            },
        }
    }
    let ghost command = model::opt(config.bootstrap);
    let ghost first = model::views(notices@);
    if config.teardown.is_none() && config.compose {
        config.teardown = Some("docker compose down --remove-orphans".to_owned());
    }
    assert(model::views(config.disposable@).len() == config.disposable@.len());
    if config.disposable.len() == 0 {
        config.disposable = detect_disposables(project);
    }
    assert(config@ =~= with_commands(*project, ports, command));
    let mut more = add_compose_notices(&project.versioned);
    let ghost second = model::views(more@);
    notices.append(&mut more);
    assert(model::views(notices@) =~= first + second);
    let mut warnings = found.warnings;
    let ghost earlier = model::views(warnings@);
    let mut others = match add_repository_warnings(project, &config) {
        Ok(others) => others,
        Err(message) => {
            return Err(message);
        },
    };
    let ghost later = model::views(others@);
    warnings.append(&mut others);
    assert(model::views(warnings@) =~= earlier + later);
    let report = Report {
        config,
        development: found.development,
        notices,
        warnings: text::sort_unique(&warnings),
        env_template: template,
    };
    assert(report@ =~= detected(*project, asked)->Ok_0);
    Ok(report)
}

// ---------------------------------------------------------------------------
// Changes to the repository
// ---------------------------------------------------------------------------

/// Whether a line of a file is `expected`, apart from white space around it.
pub open spec fn line_is(expected: Seq<char>) -> spec_fn(Seq<char>) -> Option<bool> {
    |line: Seq<char>|
        if text::trimmed(line) == expected {
            Some(true)
        } else {
            None
        }
}

/// Whether a file has a line.
pub open spec fn has_line(contents: Option<Seq<char>>, expected: Seq<char>) -> bool {
    contents matches Some(contents) && model::first_some(text::lines(contents), line_is(expected)) is Some
}

pub fn file_has_line(contents: Option<&str>, expected: &str) -> (r: bool)
    ensures
        r == has_line(model::opt_str(contents), expected@),
{
    match contents {
        Some(known) => {
            let lines = text::lines_of(known);
            let ghost all = text::lines(known@);
            for i in 0..lines.len()
                invariant
                    contents == Some(known),
                    all == model::views(lines@),
                    all == text::lines(known@),
                    forall|k: int| 0 <= k < i ==> line_is(expected@)(#[trigger] all[k]) is None,
            {
                assert(all[i as int] == lines@[i as int]@);
                if text::same(&text::trim(&lines[i]), expected) {
                    proof {
                        model::found_some(all, line_is(expected@), i as int);
                    }
                    return true;
                }
            }
            proof {
                model::found_none(all, line_is(expected@));
            }
            false
        },
        None => false,
    }
}

/// A file with a line added at its end.
pub open spec fn with_line(contents: Option<Seq<char>>, line: Seq<char>) -> Seq<char> {
    let contents = match contents {
        Some(contents) => contents,
        None => Seq::empty(),
    };
    if text::ends_a_line(contents) {
        contents + line + "\n"@
    } else {
        contents + "\n"@ + line + "\n"@
    }
}

/// The new contents of a file that has to have a line, where it does not have it yet.
pub fn append_line(contents: Option<&str>, line: &str) -> (r: Option<String>)
    ensures
        model::opt(r) == if has_line(model::opt_str(contents), line@) {
            None
        } else {
            Some(with_line(model::opt_str(contents), line@))
        },
{
    if file_has_line(contents, line) {
        return None;
    }
    let mut out = match contents {
        Some(contents) => contents.to_owned(),
        None => {
            let none = String::new();
            assert(none@ =~= Seq::<char>::empty());
            none
        },
    };
    let source = text::chars(&out);
    if source.len() > 0 && source[source.len() - 1] != '\n' {
        out.append("\n");
    }
    out.append(line);
    out.append("\n");
    Some(out)
}

/// The lines of a text stay when the last of them is ended.
proof fn lemma_ended(s: Seq<char>)
    requires
        !text::ends_a_line(s),
        s.last() != '\r',
    ensures
        text::lines(s.push('\n')) == text::lines(s),
{
    let f = |p: Seq<char>| text::without_return(p);
    text::lemma_split_nonempty(s, '\n');
    text::lemma_split_nonempty(s.drop_last(), '\n');
    let pieces = text::split(s, '\n');
    assert(s.push('\n').drop_last() =~= s);
    assert(text::split(s.push('\n'), '\n') == pieces.push(Seq::<char>::empty()));
    assert(pieces.push(Seq::<char>::empty()).drop_last() =~= pieces);
    assert(pieces.last().len() > 0 && pieces.last().last() == s.last());
    assert(pieces.map_values(f) =~= pieces.drop_last().map_values(f).push(pieces.last()));
}

/// A line that was added is there, and the lines that were there before stay as they were.
pub proof fn an_added_line_is_there(contents: Option<Seq<char>>, line: Seq<char>)
    requires
        !line.contains('\n'),
        text::trimmed(line) == line,
        line.len() > 0 ==> line.last() != '\r',
    ensures
        has_line(Some(with_line(contents, line)), line),
        contents is None ==> text::lines(with_line(contents, line)) == seq![line],
        contents matches Some(before) ==> (before.len() == 0 || before.last() != '\r' ==> text::lines(
            with_line(contents, line),
        ) == text::lines(before).push(line)),
{
    let before = match contents {
        Some(contents) => contents,
        None => Seq::empty(),
    };
    reveal_strlit("\n");
    assert("\n"@ =~= seq!['\n']);
    assert(text::without_return(line) == line);
    if text::ends_a_line(before) {
        text::lemma_lines_append(before, line);
        model::first_some_push(text::lines(before), line, line_is(line));
        if contents is None {
            assert(text::lines(before) =~= Seq::empty()) by {
                assert(text::split(before, '\n') == seq![Seq::<char>::empty()]);
            }
            assert(text::lines(before).push(line) =~= seq![line]);
        }
    } else {
        let ended = before.push('\n');
        assert(before + "\n"@ =~= ended);
        text::lemma_lines_append(ended, line);
        model::first_some_push(text::lines(ended), line, line_is(line));
        if before.last() != '\r' {
            lemma_ended(before);
        }
    }
}

/// What setting a repository up changes in it: an env file from its template, and what makes
/// direnv load the leased ports.
pub open spec fn changes_planned(
    settings: Settings,
    template: Option<(Seq<char>, Seq<char>)>,
    target_exists: bool,
    envrc: Option<Seq<char>>,
    gitignore: Option<Seq<char>>,
) -> Seq<Seq<char>> {
    let process = environment::has_process_port(settings.ports);
    (match template {
        Some((source, target)) => if target_exists {
            Seq::empty()
        } else {
            seq!["Create "@ + target + " from "@ + source]
        },
        None => Seq::empty(),
    }) + (if process && !(envrc matches Some(contents) && text::has_part(contents, "dotenv_if_exists .wt.env"@)) {
        seq!["Add `dotenv_if_exists .wt.env` to .envrc"@]
    } else {
        Seq::empty()
    }) + (if process && !has_line(gitignore, "/.wt.env"@) {
        seq!["Ignore /.wt.env"@]
    } else {
        Seq::empty()
    })
}

/// What setting a repository up will change, given the files as they are.
pub fn planned_changes(
    config: &Config,
    template: Option<&EnvTemplate>,
    target_exists: bool,
    envrc: Option<&str>,
    gitignore: Option<&str>,
) -> (r: Vec<String>)
    ensures
        model::views(r@) == changes_planned(
            config@,
            match template {
                Some(template) => Some((template.source@, template.target@)),
                None => None,
            },
            target_exists,
            model::opt_str(envrc),
            model::opt_str(gitignore),
        ),
{
    let process = environment::has_process_ports(config);
    let mut out: Vec<String> = Vec::new();
    let ghost mut first: Seq<Seq<char>> = Seq::empty();
    let ghost mut second: Seq<Seq<char>> = Seq::empty();
    let ghost mut third: Seq<Seq<char>> = Seq::empty();
    match template {
        Some(template) => {
            if !target_exists {
                let mut line = text::concat3("Create ", &template.target, " from ");
                line.append(&template.source);
                proof {
                    first = seq![line@];
                }
                out.push(line);
            }
        },
        None => {},
    }
    let loaded = match envrc {
        Some(contents) => text::contains(contents, "dotenv_if_exists .wt.env"),
        None => false,
    };
    if process && !loaded {
        out.push("Add `dotenv_if_exists .wt.env` to .envrc".to_owned());
        proof {
            second = seq!["Add `dotenv_if_exists .wt.env` to .envrc"@];
        }
    }
    if process && !file_has_line(gitignore, "/.wt.env") {
        out.push("Ignore /.wt.env".to_owned());
        proof {
            third = seq!["Ignore /.wt.env"@];
        }
    }
    assert(model::views(out@) =~= first + second + third);
    out
}

/// What setting a repository up does to it.
pub struct Applied {
    /// The template to copy, and where to.
    pub copy: Option<(String, String)>,
    pub envrc: Option<String>,
    pub gitignore: Option<String>,
}

/// The changes themselves: a template to copy, and the new contents of `.envrc` and `.gitignore`.
pub fn apply_changes(
    config: &Config,
    template: Option<&EnvTemplate>,
    target_exists: bool,
    envrc: Option<&str>,
    gitignore: Option<&str>,
) -> (r: Applied)
    ensures
        model::opt_pair(r.copy) == match template {
            Some(template) => if target_exists {
                None
            } else {
                Some((template.source@, template.target@))
            },
            None => None,
        },
        model::opt(r.envrc) == if environment::has_process_port(config@.ports) && !has_line(
            model::opt_str(envrc),
            "dotenv_if_exists .wt.env"@,
        ) {
            Some(with_line(model::opt_str(envrc), "dotenv_if_exists .wt.env"@))
        } else {
            None
        },
        model::opt(r.gitignore) == if environment::has_process_port(config@.ports) && !has_line(
            model::opt_str(gitignore),
            "/.wt.env"@,
        ) {
            Some(with_line(model::opt_str(gitignore), "/.wt.env"@))
        } else {
            None
        },
{
    let copy = match template {
        Some(template) => {
            if target_exists {
                None
            } else {
                Some((template.source.clone(), template.target.clone()))
            }
        },
        None => None,
    };
    if environment::has_process_ports(config) {
        Applied {
            copy,
            envrc: append_line(envrc, "dotenv_if_exists .wt.env"),
            gitignore: append_line(gitignore, "/.wt.env"),
        }
    } else {
        Applied { copy, envrc: None, gitignore: None }
    }
}

// ---------------------------------------------------------------------------
// Everything is looked at
// ---------------------------------------------------------------------------

/// A file of the project has the contents that were read of it, however its path is spelled.
pub proof fn texts_are_found_by_path(project: Project, path: Seq<char>, k: int)
    ensures
        0 <= k < project.texts@.len() && paths::same_path(project.texts@[k].path@, path) && (forall|i: int|
            0 <= i < k ==> !paths::same_path((#[trigger] project.texts@[i]).path@, path)) ==> project.text_at(path)
            == Some(project.texts@[k].contents@),
        (forall|i: int| 0 <= i < project.texts@.len() ==> !paths::same_path((#[trigger] project.texts@[i]).path@, path))
            ==> project.text_at(path) is None,
{
    let all = environment::file_views(project.texts@);
    let f = contents_under(path);
    assert(forall|i: int| 0 <= i < all.len() ==> #[trigger] all[i] == environment::file_view(project.texts@[i]));
    if 0 <= k < project.texts@.len() && paths::same_path(project.texts@[k].path@, path) && (forall|i: int|
        0 <= i < k ==> !paths::same_path((#[trigger] project.texts@[i]).path@, path)) {
        assert forall|i: int| 0 <= i < k implies f(#[trigger] all[i]) is None by {
            assert(!paths::same_path(project.texts@[i].path@, path));
        }
        model::found_some(all, f, k);
    }
    if forall|i: int| 0 <= i < project.texts@.len() ==> !paths::same_path((#[trigger] project.texts@[i]).path@, path) {
        assert forall|i: int| 0 <= i < all.len() implies f(#[trigger] all[i]) is None by {
            assert(!paths::same_path(project.texts@[i].path@, path));
        }
        model::found_none(all, f);
    }
}

/// Whether an ignored file's name is that of a private env file: `.env`, `.dev.vars`, or `.env.` with
/// parts of which none marks a template or a backup.
pub proof fn env_names(suffix: Seq<char>, name: Seq<char>)
    ensures
        is_env_name(".env"@),
        is_env_name(".dev.vars"@),
        is_env_name(".env."@ + suffix) <==> forall|i: int|
            0 <= i < text::split(suffix, '.').len() ==> {
                let word = #[trigger] text::split(suffix, '.')[i];
                word != "bak"@ && word != "backup"@ && word != "example"@ && word != "invalid"@ && word != "sample"@
                    && word != "template"@
            },
        is_env_name(name) ==> name == ".env"@ || name == ".dev.vars"@ || exists|rest: Seq<char>|
            name == #[trigger] (".env."@ + rest),
{
    reveal_strlit(".env");
    reveal_strlit(".dev.vars");
    reveal_strlit(".env.");
    let full = ".env."@ + suffix;
    assert(full.subrange(0, ".env."@.len() as int) =~= ".env."@);
    assert(full.skip(".env."@.len() as int) =~= suffix);
    assert(full[1] == 'e' && ".dev.vars"@[1] == 'd');
    assert(full.len() > ".env"@.len());
    if ".env."@.is_prefix_of(name) {
        assert(name =~= ".env."@ + name.skip(".env."@.len() as int));
    }
    assert(is_env_name(full) <==> is_plain_suffix(suffix));
    if is_plain_suffix(suffix) {
        assert forall|i: int| 0 <= i < text::split(suffix, '.').len() implies {
            let word = #[trigger] text::split(suffix, '.')[i];
            word != "bak"@ && word != "backup"@ && word != "example"@ && word != "invalid"@ && word != "sample"@ && word
                != "template"@
        } by {
            assert(!is_template_word(text::split(suffix, '.')[i]));
        }
    }
}

/// Every regular ignored file with the name of an env file, outside generated directories, is an env
/// file of the project, and no other path is; the one at the root comes first.
pub proof fn every_env_file_is_found(listing: Seq<Seq<char>>, regular: Seq<bool>, k: int)
    requires
        listing.len() == regular.len(),
    ensures
        ({
            let found = env_candidates(listing, regular);
            let all = found.filter(is_main_env()) + found.filter(is_other_env());
            &&& 0 <= k < listing.len() && regular[k] && is_candidate(listing[k]) ==> all.contains(listing[k])
            &&& forall|p: Seq<char>| #[trigger]
                all.contains(p) ==> exists|i: int|
                    0 <= i < listing.len() && #[trigger] listing[i] == p && regular[i] && is_candidate(p)
            &&& 0 <= k < listing.len() && regular[k] && is_candidate(listing[k]) && paths::same_path(
                listing[k],
                ".env"@,
            ) ==> all.len() > 0 && paths::same_path(all[0], ".env"@)
            &&& all.len() == found.len()
        }),
{
    let pairs = Seq::new(listing.len(), |i: int| (listing[i], regular[i]));
    let f = |f: (Seq<char>, bool)|
        if is_candidate(f.0) && f.1 {
            Some(f.0)
        } else {
            None
        };
    let found = env_candidates(listing, regular);
    assert(found == pairs.filter_map(f));
    let main = found.filter(is_main_env());
    let other = found.filter(is_other_env());
    let all = main + other;
    model::filter_map_keeps(pairs, f);
    model::filter_keeps(found, is_main_env());
    model::filter_keeps(found, is_other_env());
    lemma_two_sides(found);
    if 0 <= k < listing.len() && regular[k] && is_candidate(listing[k]) {
        assert(f(pairs[k]) == Some(listing[k]));
        assert(found.contains(listing[k]));
        if is_main_env()(listing[k]) {
            let i = choose|i: int| 0 <= i < main.len() && main[i] == listing[k];
            assert(all[i] == listing[k]);
            assert(main.contains(main[0]));
            assert(all[0] == main[0]);
        } else {
            assert(other.contains(listing[k]));
            let i = choose|i: int| 0 <= i < other.len() && other[i] == listing[k];
            assert(all[main.len() + i] == listing[k]);
        }
    }
    assert forall|p: Seq<char>| #[trigger] all.contains(p) implies exists|i: int|
        0 <= i < listing.len() && #[trigger] listing[i] == p && regular[i] && is_candidate(p) by {
        let j = choose|j: int| 0 <= j < all.len() && all[j] == p;
        if j < main.len() {
            assert(main.contains(main[j]));
        } else {
            assert(other.contains(other[j - main.len()]));
        }
        assert(found.contains(p));
        let i = choose|i: int| 0 <= i < pairs.len() && f(#[trigger] pairs[i]) == Some(p);
        assert(listing[i] == p);
    }
}

proof fn lemma_two_sides(found: Seq<Seq<char>>)
    ensures
        found.filter(is_main_env()).len() + found.filter(is_other_env()).len() == found.len(),
    decreases found.len(),
{
    if found.len() == 0 {
        model::filter_keeps(found, is_main_env());
        model::filter_keeps(found, is_other_env());
    } else {
        let init = found.drop_last();
        lemma_two_sides(init);
        assert(found =~= init.push(found.last()));
        init.lemma_filter_push(found.last(), is_main_env());
        init.lemma_filter_push(found.last(), is_other_env());
    }
}

proof fn lemma_script_extends(found: FindingsData, project: Project, root: Seq<char>, script: Seq<char>)
    ensures
        servers::extends(script_found(found, project, root, script), found),
{
    let next = match servers::command_after(script, "next"@) {
        Some(command) => servers::next_found(found, command, root),
        None => found,
    };
    let vite = match servers::command_after(script, "vite"@) {
        Some(command) => if vite_configured(project, root) {
            next
        } else {
            servers::vite_found(next, command, root)
        },
        None => next,
    };
    if servers::command_after(script, "next"@) is Some {
        servers::next_servers_get_ports(found, servers::command_after(script, "next"@)->0, root);
    }
    if servers::command_after(script, "vite"@) is Some {
        servers::vite_servers_are_shown(next, servers::command_after(script, "vite"@)->0, root);
    }
    if servers::command_after(script, "wrangler"@) is Some {
        servers::wrangler_servers_are_shown(vite, servers::command_after(script, "wrangler"@)->0, root);
    }
    lemma_itself(found);
    lemma_itself(next);
    lemma_itself(vite);
    servers::lemma_extends(vite, next, found);
    servers::lemma_extends(script_found(found, project, root, script), vite, found);
}

proof fn lemma_itself(found: FindingsData)
    ensures
        servers::extends(found, found),
{
    assert(found.ports =~= found.ports.subrange(0, found.ports.len() as int));
    assert(found.development =~= found.development.subrange(0, found.development.len() as int));
    assert(found.warnings =~= found.warnings.subrange(0, found.warnings.len() as int));
}

/// A script is looked at for each of the servers that it may run: what it finds holds what Next.js
/// finds, what Vite finds unless a configuration speaks for it, and what Wrangler finds.
pub proof fn a_script_may_run_any_server(found: FindingsData, project: Project, root: Seq<char>, script: Seq<char>)
    ensures
        servers::command_after(script, "next"@) matches Some(command) ==> servers::extends(
            script_found(found, project, root, script),
            servers::next_found(found, command, root),
        ),
        servers::command_after(script, "vite"@) matches Some(command) ==> (!vite_configured(project, root)
            ==> exists|before: FindingsData|
            servers::extends(before, found) && servers::extends(
                script_found(found, project, root, script),
                #[trigger] servers::vite_found(before, command, root),
            )),
        servers::command_after(script, "wrangler"@) matches Some(command) ==> exists|before: FindingsData|
            servers::extends(before, found) && script_found(found, project, root, script)
                == #[trigger] servers::wrangler_found(before, command, root),
{
    let next = match servers::command_after(script, "next"@) {
        Some(command) => servers::next_found(found, command, root),
        None => found,
    };
    let vite = match servers::command_after(script, "vite"@) {
        Some(command) => if vite_configured(project, root) {
            next
        } else {
            servers::vite_found(next, command, root)
        },
        None => next,
    };
    let all = script_found(found, project, root, script);
    lemma_itself(found);
    lemma_itself(next);
    lemma_itself(vite);
    if servers::command_after(script, "next"@) is Some {
        servers::next_servers_get_ports(found, servers::command_after(script, "next"@)->0, root);
    }
    if servers::command_after(script, "vite"@) is Some {
        servers::vite_servers_are_shown(next, servers::command_after(script, "vite"@)->0, root);
    }
    if servers::command_after(script, "wrangler"@) is Some {
        servers::wrangler_servers_are_shown(vite, servers::command_after(script, "wrangler"@)->0, root);
    }
    servers::lemma_extends(vite, next, found);
    servers::lemma_extends(all, vite, next);
}

proof fn lemma_scripts_extend(found: FindingsData, project: Project, root: Seq<char>, scripts: Seq<(String, String)>, k: int)
    requires
        0 <= k <= scripts.len(),
    ensures
        servers::extends(
            scripts_found(found, project, root, scripts),
            scripts_found(found, project, root, scripts.take(k)),
        ),
        servers::extends(scripts_found(found, project, root, scripts), found),
    decreases scripts.len(),
{
    let all = scripts_found(found, project, root, scripts);
    lemma_itself(all);
    lemma_itself(found);
    if k == scripts.len() {
        model::whole(scripts);
    }
    if scripts.len() > 0 {
        let init = scripts.drop_last();
        let before = scripts_found(found, project, root, init);
        lemma_script_extends(before, project, root, scripts.last().1@);
        if k < scripts.len() {
            lemma_scripts_extend(found, project, root, init, k);
            assert(init.take(k) =~= scripts.take(k));
            servers::lemma_extends(all, before, scripts_found(found, project, root, scripts.take(k)));
        } else {
            lemma_scripts_extend(found, project, root, init, 0);
        }
        servers::lemma_extends(all, before, found);
    }
}

proof fn lemma_packages_extend(found: FindingsData, project: Project, packages: Seq<PackageAt>, k: int)
    requires
        0 <= k <= packages.len(),
    ensures
        servers::extends(
            packages_found(found, project, packages),
            packages_found(found, project, packages.take(k)),
        ),
        servers::extends(packages_found(found, project, packages), found),
    decreases packages.len(),
{
    let all = packages_found(found, project, packages);
    lemma_itself(all);
    lemma_itself(found);
    if k == packages.len() {
        model::whole(packages);
    }
    if packages.len() > 0 {
        let init = packages.drop_last();
        let before = packages_found(found, project, init);
        lemma_scripts_extend(before, project, packages.last().root@, packages.last().package.scripts@, 0);
        if k < packages.len() {
            lemma_packages_extend(found, project, init, k);
            assert(init.take(k) =~= packages.take(k));
            servers::lemma_extends(all, before, packages_found(found, project, packages.take(k)));
        } else {
            lemma_packages_extend(found, project, init, 0);
        }
        servers::lemma_extends(all, before, found);
    }
}

/// Every script of every package is looked at: what it finds is among what is found, and nothing that
/// was found before is lost.
pub proof fn every_script_is_looked_at(found: FindingsData, project: Project, packages: Seq<PackageAt>, k: int, j: int)
    requires
        0 <= k < packages.len(),
        0 <= j < packages[k].package.scripts@.len(),
    ensures
        servers::extends(packages_found(found, project, packages), found),
        exists|before: FindingsData|
            servers::extends(before, found) && servers::extends(
                packages_found(found, project, packages),
                #[trigger] script_found(before, project, packages[k].root@, packages[k].package.scripts@[j].1@),
            ),
{
    let all = packages_found(found, project, packages);
    let root = packages[k].root@;
    let scripts = packages[k].package.scripts@;
    lemma_packages_extend(found, project, packages, k + 1);
    model::step(packages, k);
    let start = packages_found(found, project, packages.take(k));
    let after = packages_found(found, project, packages.take(k + 1));
    assert(after == scripts_found(start, project, root, scripts));
    lemma_packages_extend(found, project, packages.take(k), 0);
    lemma_scripts_extend(start, project, root, scripts, j + 1);
    model::step(scripts, j);
    let before = scripts_found(start, project, root, scripts.take(j));
    let one = script_found(before, project, root, scripts[j].1@);
    assert(scripts_found(start, project, root, scripts.take(j + 1)) == one);
    lemma_scripts_extend(start, project, root, scripts.take(j), 0);
    servers::lemma_extends(before, start, found);
    servers::lemma_extends(all, after, one);
}

proof fn lemma_vite_configs_extend(found: FindingsData, project: Project, list: Seq<Seq<char>>, k: int)
    requires
        0 <= k <= list.len(),
    ensures
        servers::extends(
            vite_configs_found(found, project, list),
            vite_configs_found(found, project, list.take(k)),
        ),
        servers::extends(vite_configs_found(found, project, list), found),
    decreases list.len(),
{
    let all = vite_configs_found(found, project, list);
    lemma_itself(all);
    lemma_itself(found);
    if k == list.len() {
        model::whole(list);
    }
    if list.len() > 0 {
        let init = list.drop_last();
        let before = vite_configs_found(found, project, init);
        lemma_itself(before);
        if project.text_at(list.last()) is Some {
            servers::vite_configurations_are_shown(before, list.last(), project.text_at(list.last())->0, 0);
        }
        if k < list.len() {
            lemma_vite_configs_extend(found, project, init, k);
            assert(init.take(k) =~= list.take(k));
            servers::lemma_extends(all, before, vite_configs_found(found, project, list.take(k)));
        } else {
            lemma_vite_configs_extend(found, project, init, 0);
        }
        servers::lemma_extends(all, before, found);
    }
}

/// Every versioned Vite configuration is looked at, whatever its ending.
pub proof fn every_vite_configuration_is_looked_at(
    found: FindingsData,
    project: Project,
    list: Seq<Seq<char>>,
    k: int,
    ending: Seq<char>,
)
    requires
        0 <= k < list.len(),
        paths::name_of(list[k]) == Some("vite.config."@ + ending),
        project.text_at(list[k]) is Some,
    ensures
        servers::extends(vite_configs_found(found, project, list), found),
        exists|before: FindingsData|
            servers::extends(before, found) && servers::extends(
                vite_configs_found(found, project, list),
                #[trigger] servers::vite_config_found(before, list[k], project.text_at(list[k])->0),
            ),
{
    let name = "vite.config."@ + ending;
    assert(name.subrange(0, "vite.config."@.len() as int) =~= "vite.config."@);
    lemma_vite_configs_extend(found, project, list, k + 1);
    model::step(list, k);
    let before = vite_configs_found(found, project, list.take(k));
    lemma_vite_configs_extend(found, project, list.take(k), 0);
    let one = servers::vite_config_found(before, list[k], project.text_at(list[k])->0);
    assert(vite_configs_found(found, project, list.take(k + 1)) == one);
}

proof fn lemma_wrangler_configs_extend(found: FindingsData, project: Project, list: Seq<Seq<char>>, k: int)
    requires
        0 <= k <= list.len(),
    ensures
        servers::extends(
            wrangler_configs_found(found, project, list),
            wrangler_configs_found(found, project, list.take(k)),
        ),
        servers::extends(wrangler_configs_found(found, project, list), found),
    decreases list.len(),
{
    let all = wrangler_configs_found(found, project, list);
    lemma_itself(all);
    lemma_itself(found);
    if k == list.len() {
        model::whole(list);
    }
    if list.len() > 0 {
        let init = list.drop_last();
        let before = wrangler_configs_found(found, project, init);
        lemma_itself(before);
        if project.text_at(list.last()) is Some {
            servers::wrangler_configurations_are_shown(before, list.last(), project.text_at(list.last())->0, 0);
        }
        if k < list.len() {
            lemma_wrangler_configs_extend(found, project, init, k);
            assert(init.take(k) =~= list.take(k));
            servers::lemma_extends(all, before, wrangler_configs_found(found, project, list.take(k)));
        } else {
            lemma_wrangler_configs_extend(found, project, init, 0);
        }
        servers::lemma_extends(all, before, found);
    }
}

/// Every versioned Wrangler configuration is looked at, in any of its formats.
pub proof fn every_wrangler_configuration_is_looked_at(
    found: FindingsData,
    project: Project,
    list: Seq<Seq<char>>,
    k: int,
)
    requires
        0 <= k < list.len(),
        paths::name_of(list[k]) == Some("wrangler.toml"@) || paths::name_of(list[k]) == Some("wrangler.json"@)
            || paths::name_of(list[k]) == Some("wrangler.jsonc"@),
        project.text_at(list[k]) is Some,
    ensures
        servers::extends(wrangler_configs_found(found, project, list), found),
        exists|before: FindingsData|
            servers::extends(before, found) && servers::extends(
                wrangler_configs_found(found, project, list),
                #[trigger] servers::wrangler_config_found(before, list[k], project.text_at(list[k])->0),
            ),
{
    lemma_wrangler_configs_extend(found, project, list, k + 1);
    model::step(list, k);
    let before = wrangler_configs_found(found, project, list.take(k));
    lemma_wrangler_configs_extend(found, project, list.take(k), 0);
    let one = servers::wrangler_config_found(before, list[k], project.text_at(list[k])->0);
    assert(wrangler_configs_found(found, project, list.take(k + 1)) == one);
}

proof fn lemma_compose_extends(
    found: FindingsData,
    project: Project,
    settings: Settings,
    template: Option<(Seq<char>, Seq<char>)>,
)
    ensures
        servers::extends(compose_found(found, project, settings, template), found),
        compose_found(found, project, settings, template).warnings == found.warnings,
{
    let after = compose_found(found, project, settings, template);
    lemma_itself(found);
    if after.ports.len() >= found.ports.len() && after.development.len() >= found.development.len() {
        assert(found.ports =~= after.ports.subrange(0, found.ports.len() as int));
        assert(found.development =~= after.development.subrange(0, found.development.len() as int));
    }
}

/// What is detected of the development servers holds every port, line and warning of the scripts, of
/// the Vite and Wrangler configurations and of Compose, each once and in order; configured ports
/// stand as they are, without looking further.
pub proof fn detection_keeps_what_is_found(
    project: Project,
    settings: Settings,
    template: Option<(Seq<char>, Seq<char>)>,
    s: Seq<char>,
)
    ensures
        settings.ports.len() > 0 ==> development_found(project, settings, template).ports == settings.ports
            && development_found(project, settings, template).warnings.len() == 0,
        settings.ports.len() == 0 ==> {
            let versioned = model::views(project.versioned@);
            let scripts = packages_found(servers::nothing_found(), project, project.packages@);
            let vite = vite_configs_found(scripts, project, versioned);
            let wrangler = wrangler_configs_found(vite, project, versioned);
            let all = compose_found(wrangler, project, settings, template);
            let result = development_found(project, settings, template);
            &&& servers::extends(vite, scripts)
            &&& servers::extends(wrangler, vite)
            &&& servers::extends(all, wrangler)
            &&& result.ports.contains(s) <==> all.ports.contains(s)
            &&& result.development.contains(s) <==> all.development.contains(s)
            &&& result.warnings == all.warnings
        },
{
    if settings.ports.len() == 0 {
        let versioned = model::views(project.versioned@);
        let scripts = packages_found(servers::nothing_found(), project, project.packages@);
        let vite = vite_configs_found(scripts, project, versioned);
        let wrangler = wrangler_configs_found(vite, project, versioned);
        let all = compose_found(wrangler, project, settings, template);
        lemma_vite_configs_extend(scripts, project, versioned, 0);
        lemma_wrangler_configs_extend(vite, project, versioned, 0);
        lemma_compose_extends(wrangler, project, settings, template);
        text::sorted_set_is_the_set(all.ports);
        text::sorted_set_is_the_set(all.development);
    }
}

/// No file in a generated directory is an env file of the project, however deep.
pub proof fn generated_directories_hold_no_env_files(path: Seq<char>, i: int)
    requires
        0 <= i < paths::components(path).len(),
        ({
            let c = paths::components(path)[i];
            ||| c == ".cache"@ || c == ".devbox"@ || c == ".direnv"@ || c == ".next"@ || c == ".nuxt"@
            ||| c == ".venv"@ || c == "build"@ || c == "coverage"@ || c == "dist"@ || c == "node_modules"@
            ||| c == "target"@ || c == "vendor"@ || c == "venv"@
        }),
    ensures
        !is_candidate(path),
{
    assert(is_generated(paths::components(path)[i]));
}

/// Every Compose file at the root is read for the variables of its host ports.
pub proof fn every_compose_file_is_read(project: Project, names: Seq<Seq<char>>, k: int, key: Seq<char>)
    requires
        0 <= k < names.len(),
        project.has_file(names[k]),
        project.text_at(names[k]) matches Some(contents) && servers::host_variables_of(text::lines(contents)).contains(
            key,
        ),
    ensures
        host_ports(project, names).contains(key),
    decreases names.len(),
{
    let init = names.drop_last();
    let before = host_ports(project, init);
    let all = host_ports(project, names);
    if k < init.len() {
        assert(init[k] == names[k]);
        every_compose_file_is_read(project, init, k, key);
        let i = choose|i: int| 0 <= i < before.len() && before[i] == key;
        assert(all[i] == key);
    } else {
        let own = servers::host_variables_of(text::lines(project.text_at(names.last())->0));
        let i = choose|i: int| 0 <= i < own.len() && own[i] == key;
        assert(all[before.len() + i] == key);
    }
}

/// With Compose, every port variable of the env file that a Compose file publishes gets a port of its
/// own, and no other variable does.
pub proof fn published_variables_get_ports(
    found: FindingsData,
    project: Project,
    settings: Settings,
    template: Option<(Seq<char>, Seq<char>)>,
    env: Seq<char>,
    contents: Seq<char>,
    key: Seq<char>,
)
    requires
        settings.compose,
        settings.env == Some(env),
        project.has_file(env),
        project.text_at(env) == Some(contents),
    ensures
        ({
            let after = compose_found(found, project, settings, template);
            &&& (exists|i: int|
                0 <= i < text::lines(contents).len() && environment::port_variable()(
                    #[trigger] text::lines(contents)[i],
                ) == Some(key)) && host_ports(project, compose_names()).contains(key) ==> after.ports.contains(key)
                && after.development.contains("Docker Compose: isolated via "@ + key)
            &&& after.ports.contains(key) ==> found.ports.contains(key) || (exists|i: int|
                0 <= i < text::lines(contents).len() && environment::port_variable()(
                    #[trigger] text::lines(contents)[i],
                ) == Some(key)) && host_ports(project, compose_names()).contains(key)
        }),
{
    let lines = text::lines(contents);
    let f = environment::port_variable();
    let host = host_ports(project, compose_names());
    let named = lines.filter_map(f);
    let ports = named.filter(is_host_port(host));
    let after = compose_found(found, project, settings, template);
    assert(port_source(project, settings.env, template) == Some(env));
    assert(after == with_compose_ports(found, ports));
    model::filter_map_keeps(lines, f);
    model::filter_keeps(named, is_host_port(host));
    if (exists|i: int| 0 <= i < lines.len() && f(#[trigger] lines[i]) == Some(key)) && host.contains(key) {
        let i = choose|i: int| 0 <= i < lines.len() && f(#[trigger] lines[i]) == Some(key);
        assert(named.contains(key));
        assert(ports.contains(key));
        let j = choose|j: int| 0 <= j < ports.len() && ports[j] == key;
        assert(after.ports[found.ports.len() + j] == key);
        assert(after.development[found.development.len() + j] == "Docker Compose: isolated via "@ + key);
    }
    if after.ports.contains(key) {
        let j = choose|j: int| 0 <= j < after.ports.len() && after.ports[j] == key;
        if j < found.ports.len() {
            assert(found.ports[j] == key);
        } else {
            assert(ports[j - found.ports.len()] == key);
            assert(ports.contains(key));
            assert(named.contains(key));
        }
    }
}

/// Without Compose, and without a file that names the ports, Compose adds nothing.
pub proof fn only_compose_adds_published_ports(
    found: FindingsData,
    project: Project,
    settings: Settings,
    template: Option<(Seq<char>, Seq<char>)>,
)
    requires
        !settings.compose || settings.env is None,
    ensures
        compose_found(found, project, settings, template) == found,
{
}

/// The package manager is the one that the package names, with any version, and otherwise the one
/// whose lock file is there: Bun's before pnpm's, then Yarn's, then npm's.
pub proof fn managers_are_named_or_locked(project: Project, name: Seq<char>, version: Seq<char>)
    requires
        !name.contains('@'),
    ensures
        manager_of(project, Some(name)) == if name == "bun"@ || name == "npm"@ || name == "pnpm"@ || name == "yarn"@ {
            Some(name)
        } else {
            None
        },
        manager_of(project, Some(name + seq!['@'] + version)) == manager_of(project, Some(name)),
        project.has_file("bun.lock"@) || project.has_file("bun.lockb"@) ==> manager_of(project, None) == Some("bun"@),
        manager_of(project, None) == Some("pnpm"@) ==> project.has_file("pnpm-lock.yaml"@),
        project.has_file("pnpm-lock.yaml"@) && !project.has_file("bun.lock"@) && !project.has_file("bun.lockb"@)
            ==> manager_of(project, None) == Some("pnpm"@),
        project.has_file("yarn.lock"@) && !project.has_file("pnpm-lock.yaml"@) && !project.has_file("bun.lock"@)
            && !project.has_file("bun.lockb"@) ==> manager_of(project, None) == Some("yarn"@),
        project.has_file("package-lock.json"@) ==> manager_of(project, None) is Some,
        manager_of(project, None) is None <==> !project.has_file("bun.lock"@) && !project.has_file("bun.lockb"@)
            && !project.has_file("pnpm-lock.yaml"@) && !project.has_file("yarn.lock"@) && !project.has_file(
            "package-lock.json"@,
        ),
        manager_of(project, None) == Some("npm"@) ==> project.has_file("package-lock.json"@),
{
    let none = Seq::<char>::empty();
    reveal_strlit("bun");
    reveal_strlit("npm");
    reveal_strlit("pnpm");
    reveal_strlit("yarn");
    assert("npm"@.len() != "pnpm"@.len() && "pnpm"@[0] == 'p' && "yarn"@[0] == 'y' && "bun"@[0] == 'b' && "npm"@[0]
        == 'n');
    text::lemma_split_extend(none, name, '@');
    assert(none + name =~= name);
    assert(text::split(none, '@') =~= seq![none]);
    assert(text::split(name, '@') =~= seq![name]);
    lemma_first_piece(name, version);
}

proof fn lemma_first_piece(name: Seq<char>, rest: Seq<char>)
    requires
        !name.contains('@'),
    ensures
        text::split(name + seq!['@'] + rest, '@')[0] == name,
        text::split(name + seq!['@'] + rest, '@').len() > 1,
    decreases rest.len(),
{
    let none = Seq::<char>::empty();
    let s = name + seq!['@'] + rest;
    if rest.len() == 0 {
        assert(s.drop_last() =~= name);
        text::lemma_split_extend(none, name, '@');
        assert(none + name =~= name);
        assert(text::split(none, '@') =~= seq![none]);
        assert(text::split(name, '@') =~= seq![name]);
        assert(s.last() == '@');
    } else {
        lemma_first_piece(name, rest.drop_last());
        assert(s.drop_last() =~= name + seq!['@'] + rest.drop_last());
    }
}

/// The setup command that is detected: Devbox's own script where it has one; otherwise the root
/// package's install command, inside Devbox where there is one, and none where Devbox's init hook
/// installs already or no package manager is known.
pub proof fn setup_commands_are_detected(project: Project, document: Seq<char>, hook: NodeData)
    ensures
        project.text_at("devbox.json"@) == Some(document) && (devbox::json_node(
            document,
            "/shell/scripts/bootstrap"@,
        ) matches Some(NodeData::Text(_))) ==> bootstrap_found(project) == Ok::<
            (Option<Seq<char>>, Seq<Seq<char>>),
            Seq<char>,
        >((Some("devbox run bootstrap"@), Seq::empty())),
        project.text_at("devbox.json"@) == Some(document) && (devbox::json_node(
            document,
            "/shell/scripts/bootstrap"@,
        ) matches Some(NodeData::List(_))) ==> bootstrap_found(project) == Ok::<
            (Option<Seq<char>>, Seq<Seq<char>>),
            Seq<char>,
        >((Some("devbox run bootstrap"@), Seq::empty())),
        project.text_at("devbox.json"@) is None ==> (root_manager(project) matches Some(Some(manager))
            ==> bootstrap_found(project) == Ok::<(Option<Seq<char>>, Seq<Seq<char>>), Seq<char>>(
            (Some(install_of(manager)), Seq::empty()),
        )),
        project.text_at("devbox.json"@) is None && !(root_manager(project) matches Some(Some(_))) ==> bootstrap_found(
            project,
        ) == Ok::<(Option<Seq<char>>, Seq<Seq<char>>), Seq<char>>((None, Seq::empty())),
        project.text_at("devbox.json"@) == Some(document) && devbox::json_node(document, "/shell/scripts/bootstrap"@)
            == Some(NodeData::Missing) && devbox::json_node(document, "/shell/init_hook"@) == Some(hook) ==> (
        root_manager(project) matches Some(Some(manager)) ==> if installs(hook, manager) {
            bootstrap_found(project) matches Ok((None, notices)) && notices.len() == 1
        } else {
            bootstrap_found(project) == Ok::<(Option<Seq<char>>, Seq<Seq<char>>), Seq<char>>(
                (Some("devbox run -- "@ + install_of(manager)), Seq::empty()),
            )
        }),
{
}

/// Every versioned Compose file that is not used by itself is named in the notice, wherever it is.
pub proof fn every_extra_compose_file_is_named(versioned: Seq<Seq<char>>, k: int, name: Seq<char>)
    requires
        0 <= k < versioned.len(),
        paths::name_of(versioned[k]) == Some(name),
        ".yml"@.is_suffix_of(name) || ".yaml"@.is_suffix_of(name),
        "compose"@.is_prefix_of(name) || "docker-compose"@.is_prefix_of(name),
        paths::parent_of(versioned[k]) != Some(Seq::<char>::empty()) || (name != "compose.yml"@ && name
            != "compose.yaml"@ && name != "docker-compose.yml"@ && name != "docker-compose.yaml"@),
    ensures
        compose_notices(versioned).len() == 1,
        text::has_part(compose_notices(versioned)[0], versioned[k]),
{
    let keep = is_extra_compose();
    let extra = versioned.filter(keep);
    model::filter_keeps(versioned, keep);
    assert(compose_names().contains(name) ==> name == "compose.yml"@ || name == "compose.yaml"@ || name
        == "docker-compose.yml"@ || name == "docker-compose.yaml"@);
    assert(keep(versioned[k]));
    assert(extra.contains(versioned[k]));
    let i = choose|i: int| 0 <= i < extra.len() && extra[i] == versioned[k];
    text::joined_texts_hold_each(extra, ", "@, i);
    let list = text::joined(extra, ", "@);
    let none = Seq::<char>::empty();
    text::parts_of_a_part("Additional Compose files (not enabled): "@, list, none, versioned[k]);
    assert("Additional Compose files (not enabled): "@ + list + none =~= "Additional Compose files (not enabled): "@
        + list);
}

/// Without such a file there is no notice: the ones that are used by themselves are not named.
pub proof fn default_compose_files_are_not_named(versioned: Seq<Seq<char>>)
    requires
        forall|k: int|
            0 <= k < versioned.len() ==> !is_compose(#[trigger] versioned[k]) || (paths::parent_of(versioned[k]) == Some(
                Seq::<char>::empty(),
            ) && (paths::name_of(versioned[k]) == Some("compose.yml"@) || paths::name_of(versioned[k]) == Some(
                "compose.yaml"@,
            ) || paths::name_of(versioned[k]) == Some("docker-compose.yml"@) || paths::name_of(versioned[k]) == Some(
                "docker-compose.yaml"@,
            ))),
    ensures
        compose_notices(versioned).len() == 0,
{
    let keep = is_extra_compose();
    let extra = versioned.filter(keep);
    model::filter_keeps(versioned, keep);
    let names = compose_names();
    assert(names[0] == "compose.yml"@ && names[1] == "compose.yaml"@ && names[2] == "docker-compose.yml"@ && names[3]
        == "docker-compose.yaml"@);
    if extra.len() > 0 {
        assert(extra.contains(extra[0]));
        let k = choose|k: int| 0 <= k < versioned.len() && versioned[k] == extra[0];
        assert(keep(versioned[k]));
        assert(!is_compose(versioned[k]) || is_default_compose(versioned[k]));
    }
}

/// Every versioned runtime file of a service that holds the address of a leased port is named in the
/// warning about that port.
pub proof fn every_fixed_address_is_named(project: Project, roots: Seq<Seq<char>>, port: u16, only: bool, k: int)
    requires
        0 <= k < project.matches@.len(),
        is_runtime(project.matches@[k].path@),
        exists|i: int| 0 <= i < roots.len() && paths::lies_in(project.matches@[k].path@, #[trigger] roots[i]),
        only || has_bytes(
            project.matches@[k].contents@,
            vstd::utf8::encode_utf8("localhost:"@ + text::decimal(port as nat)),
        ),
    ensures
        localhost_warning(project, roots, only)(port) matches Some(warning) && text::has_part(
            warning,
            project.matches@[k].path@,
        ) && text::has_part(warning, "localhost:"@ + text::decimal(port as nat)),
{
    let f = hardcodes(roots, port, only);
    let found = project.matches@.filter_map(f);
    let path = project.matches@[k].path@;
    model::filter_map_keeps(project.matches@, f);
    assert(f(project.matches@[k]) == Some(path));
    assert(found.contains(path));
    let i = choose|i: int| 0 <= i < found.len() && found[i] == path;
    text::joined_texts_hold_each(found, ", "@, i);
    let list = text::joined(found, ", "@);
    let start = "Tracked runtime files hard-code localhost:"@ + text::decimal(port as nat) + ": "@;
    let end = ". They may not follow the assigned port."@;
    text::parts_of_a_part(start, list, end, path);
    let warning = localhost_warning(project, roots, only)(port)->0;
    assert(warning =~= start + list + end);
    let address = "localhost:"@ + text::decimal(port as nat);
    reveal_strlit("Tracked runtime files hard-code localhost:");
    reveal_strlit("localhost:");
    let at = 32int;
    assert(warning.subrange(at, at + address.len()) =~= address);
    assert(text::occurs_at(warning, address, at));
}

/// Whether a versioned file is one that runs: by its ending, outside tests.
pub proof fn runtime_files_have_runtime_endings(path: Seq<char>, name: Seq<char>, extension: Seq<char>)
    requires
        paths::name_of(path) == Some(name),
        paths::extension_of(path) == Some(extension),
    ensures
        is_runtime(path) <==> {
            &&& forall|i: int| 0 <= i < paths::components(path).len() ==> #[trigger] paths::components(path)[i] != "tests"@
            &&& !text::has_part(name, ".test."@)
            &&& !text::has_part(name, ".spec."@)
            &&& extension == "ts"@ || extension == "tsx"@ || extension == "js"@ || extension == "mjs"@ || extension
                == "cjs"@ || extension == "toml"@ || extension == "json"@ || extension == "jsonc"@ || extension == "yaml"@
                || extension == "yml"@
        },
{
}

/// Every service is looked at: the directory of every versioned Wrangler configuration is a root.
pub proof fn every_service_is_a_root(versioned: Seq<Seq<char>>, k: int, root: Seq<char>)
    requires
        0 <= k < versioned.len(),
        paths::name_of(versioned[k]) == Some("wrangler.toml"@) || paths::name_of(versioned[k]) == Some(
            "wrangler.json"@,
        ) || paths::name_of(versioned[k]) == Some("wrangler.jsonc"@),
        paths::parent_of(versioned[k]) == Some(root),
    ensures
        paths::listed(service_roots(versioned), root),
{
    let f = service_root();
    let all = versioned.filter_map(f);
    model::filter_map_keeps(versioned, f);
    assert(f(versioned[k]) == Some(root));
    assert(all.contains(root));
    paths::sorted_set_is_the_set(all);
}

/// Every warning that a project gives cause for is given: a Go cache inside the worktree, Compose
/// without an env file, ports of processes without direnv, and every fixed address.
pub proof fn every_warning_is_given(project: Project, settings: Settings, more: Seq<Seq<char>>, k: int)
    requires
        localhost_warnings(project, settings.ports) == Ok::<Seq<Seq<char>>, Seq<char>>(more),
    ensures
        repository_warnings(project, settings) matches Ok(warnings) && {
            &&& keeps_gopath(project.text_at("devbox.json"@)) ==> warnings.contains(
                "devbox.json stores GOPATH inside .devbox; each worktree duplicates the Go cache."@,
            )
            &&& settings.env is None && settings.compose ==> warnings.contains(
                "Docker Compose isolation needs a primary env file."@,
            )
            &&& environment::has_process_port(settings.ports) && !project.direnv ==> warnings.contains(
                "Process-port isolation needs direnv, but direnv is not installed."@,
            )
            &&& 0 <= k < more.len() ==> warnings.contains(more[k])
            &&& warnings.len() <= more.len() + 3
        },
{
    let warnings = repository_warnings(project, settings)->Ok_0;
    let a = if keeps_gopath(project.text_at("devbox.json"@)) {
        1int
    } else {
        0int
    };
    let b = if settings.env is None && settings.compose {
        1int
    } else {
        0int
    };
    let c = if environment::has_process_port(settings.ports) && !project.direnv {
        1int
    } else {
        0int
    };
    assert(warnings.len() == a + b + c + more.len());
    if a == 1 {
        assert(warnings[0] == "devbox.json stores GOPATH inside .devbox; each worktree duplicates the Go cache."@);
    }
    if b == 1 {
        assert(warnings[a] == "Docker Compose isolation needs a primary env file."@);
    }
    if c == 1 {
        assert(warnings[a + b] == "Process-port isolation needs direnv, but direnv is not installed."@);
    }
    if 0 <= k < more.len() {
        assert(warnings[a + b + c + k] == more[k]);
    }
}

/// A report warns of everything that was found and of everything the project gives cause for.
pub proof fn reports_keep_every_warning(project: Project, settings: Settings)
    ensures
        detected(project, settings) matches Ok(report) ==> {
            let files = with_files(project, settings);
            let found = development_found(project, files, template_for(project, settings.env is Some));
            &&& forall|w: Seq<char>| #[trigger] found.warnings.contains(w) ==> report.warnings.contains(w)
            &&& repository_warnings(project, report.settings) matches Ok(more) && forall|w: Seq<char>| #[trigger]
                more.contains(w) ==> report.warnings.contains(w)
            &&& forall|n: Seq<char>| #[trigger]
                compose_notices(model::views(project.versioned@)).contains(n) ==> report.notices.contains(n)
            &&& report.development == found.development
        },
{
    if detected(project, settings) is Ok {
        let report = detected(project, settings)->Ok_0;
        let files = with_files(project, settings);
        let found = development_found(project, files, template_for(project, settings.env is Some));
        let more = repository_warnings(project, report.settings)->Ok_0;
        let all = found.warnings + more;
        text::sorted_set_is_the_set(all);
        assert forall|w: Seq<char>| #[trigger] found.warnings.contains(w) implies report.warnings.contains(w) by {
            let i = choose|i: int| 0 <= i < found.warnings.len() && found.warnings[i] == w;
            assert(all[i] == w);
            assert(all.contains(w));
        }
        assert forall|w: Seq<char>| #[trigger] more.contains(w) implies report.warnings.contains(w) by {
            let i = choose|i: int| 0 <= i < more.len() && more[i] == w;
            assert(all[found.warnings.len() + i] == w);
            assert(all.contains(w));
        }
        let notices = compose_notices(model::views(project.versioned@));
        assert forall|n: Seq<char>| #[trigger] notices.contains(n) implies report.notices.contains(n) by {
            let i = choose|i: int| 0 <= i < notices.len() && notices[i] == n;
            let before = report.notices.len() - notices.len();
            assert(report.notices[before + i] == n);
        }
    }
}

/// A template at the root is used where a versioned README beside it names it and then the file to
/// make of it, on one line, and neither a setting nor an env file makes it needless.
pub proof fn documented_templates_are_used(
    project: Project,
    k: int,
    j: int,
    i: int,
    contents: Seq<char>,
    before: Seq<char>,
    name: Seq<char>,
    between: Seq<char>,
    after: Seq<char>,
)
    requires
        project.env_files@.len() == 0,
        0 <= k < project.versioned@.len(),
        paths::parent_of(project.versioned@[k]@) == Some(Seq::<char>::empty()),
        paths::name_of(project.versioned@[k]@) == Some(name),
        name == ".env.example"@ || name == ".env.sample"@ || name == ".dev.vars.example"@,
        0 <= j < project.versioned@.len(),
        paths::parent_of(project.versioned@[j]@) == Some(Seq::<char>::empty()),
        paths::name_of(project.versioned@[j]@) matches Some(readme) && "README"@.is_prefix_of(readme),
        project.text_at(project.versioned@[j]@) == Some(contents),
        0 <= i < text::lines(contents).len(),
        text::lines(contents)[i] == before + name + (between + ".env.local"@ + after),
        forall|n: int|
            0 <= n < before.len() ==> !text::occurs_at(before + name + (between + ".env.local"@ + after), name, n),
    ensures
        target_in(contents, name) == Some(".env.local"@),
        template_for(project, false) is Some,
        template_for(project, true) is None,
{
    let line = text::lines(contents)[i];
    let rest = between + ".env.local"@ + after;
    let f = names_both(name, ".env.local"@);
    text::the_first_occurrence_is_found(before, name, rest);
    assert(line.skip((before.len() + name.len()) as int) =~= rest);
    assert(rest.subrange(between.len() as int, (between.len() + ".env.local"@.len()) as int) =~= ".env.local"@);
    assert(text::occurs_at(rest, ".env.local"@, between.len() as int));
    assert(text::has_part(rest, ".env.local"@));
    assert(f(line) == Some(true));
    if model::first_some(text::lines(contents), f) is None {
        model::none_found(text::lines(contents), f, i);
    }
    assert(documents(contents, name, ".env.local"@));
    let versioned = model::views(project.versioned@);
    let source = versioned[k];
    let readme = versioned[j];
    assert(source == project.versioned@[k]@ && readme == project.versioned@[j]@);
    let g = documented_by(project, source);
    assert(is_readme_in(readme, directory_of(source)));
    assert(g(readme) is Some);
    if model::first_some(versioned, g) is None {
        model::none_found(versioned, g, j);
    }
    let h = usable_template(project);
    assert(h(source) is Some);
    if model::first_some(versioned, h) is None {
        model::none_found(versioned, h, k);
    }
}

/// Outside generated directories, a file is an env file of the project by its name alone.
pub proof fn env_files_are_found_by_name(path: Seq<char>, name: Seq<char>)
    requires
        paths::name_of(path) == Some(name),
        forall|i: int|
            0 <= i < paths::components(path).len() ==> {
                let c = #[trigger] paths::components(path)[i];
                &&& c != ".cache"@ && c != ".devbox"@ && c != ".direnv"@ && c != ".next"@ && c != ".nuxt"@
                &&& c != ".venv"@ && c != "build"@ && c != "coverage"@ && c != "dist"@ && c != "node_modules"@
                &&& c != "target"@ && c != "vendor"@ && c != "venv"@
            },
    ensures
        is_candidate(path) <==> is_env_name(name),
{
    assert forall|i: int| 0 <= i < paths::components(path).len() implies !is_generated(
        #[trigger] paths::components(path)[i],
    ) by {
        assert(paths::components(path)[i] != ".cache"@);
    }
}

/// A line is there exactly where one of the lines, without the white space around it, is that line.
pub proof fn lines_are_compared_without_white_space(contents: Seq<char>, expected: Seq<char>)
    ensures
        has_line(Some(contents), expected) <==> exists|i: int|
            0 <= i < text::lines(contents).len() && text::trimmed(#[trigger] text::lines(contents)[i]) == expected,
        !has_line(None, expected),
{
    let lines = text::lines(contents);
    let f = line_is(expected);
    if model::first_some(lines, f) is None {
        assert forall|i: int| 0 <= i < lines.len() implies text::trimmed(#[trigger] lines[i]) != expected by {
            model::none_found(lines, f, i);
        }
    } else if forall|i: int| 0 <= i < lines.len() ==> text::trimmed(#[trigger] lines[i]) != expected {
        assert forall|i: int| 0 <= i < lines.len() implies f(#[trigger] lines[i]) is None by {
            assert(text::trimmed(lines[i]) != expected);
        }
        model::found_none(lines, f);
    }
}

/// A text documents what is made of a template exactly where one of its lines names the template and,
/// behind it, the file.
pub proof fn documentation_names_both_in_order(contents: Seq<char>, source: Seq<char>, target: Seq<char>)
    ensures
        documents(contents, source, target) <==> exists|i: int|
            0 <= i < text::lines(contents).len() && ({
                let line = #[trigger] text::lines(contents)[i];
                text::first_at(line, source) matches Some(at) && text::has_part(line.skip(at + source.len()), target)
            }),
{
    let lines = text::lines(contents);
    let f = names_both(source, target);
    if model::first_some(lines, f) is None {
        assert forall|i: int| 0 <= i < lines.len() implies f(#[trigger] lines[i]) is None by {
            model::none_found(lines, f, i);
        }
        if exists|i: int|
            0 <= i < lines.len() && ({
                let line = #[trigger] lines[i];
                text::first_at(line, source) matches Some(at) && text::has_part(line.skip(at + source.len()), target)
            }) {
            let i = choose|i: int|
                0 <= i < lines.len() && ({
                    let line = #[trigger] lines[i];
                    text::first_at(line, source) matches Some(at) && text::has_part(line.skip(at + source.len()), target)
                });
            assert(f(lines[i]) is Some);
        }
    } else {
        if forall|i: int| 0 <= i < lines.len() ==> f(#[trigger] lines[i]) is None {
            model::found_none(lines, f);
        }
        let i = choose|i: int| 0 <= i < lines.len() && f(#[trigger] lines[i]) is Some;
        assert(f(lines[i]) is Some);
    }
}

/// Where several files are documented, `.env.local` is preferred to `.dev.vars`, and that to `.env`.
pub proof fn local_env_files_are_preferred(contents: Seq<char>, source: Seq<char>)
    ensures
        documents(contents, source, ".env.local"@) ==> target_in(contents, source) == Some(".env.local"@),
        documents(contents, source, ".dev.vars"@) && !documents(contents, source, ".env.local"@) ==> target_in(
            contents,
            source,
        ) == Some(".dev.vars"@),
        documents(contents, source, ".env"@) ==> target_in(contents, source) is Some,
        target_in(contents, source) is None <==> !documents(contents, source, ".env.local"@) && !documents(
            contents,
            source,
            ".dev.vars"@,
        ) && !documents(contents, source, ".env"@),
        target_in(contents, source) matches Some(target) ==> documents(contents, source, target),
{
}

/// A template is one by its name: an example or a sample of an env file.
pub proof fn templates_are_examples(path: Seq<char>, stem: Seq<char>)
    ensures
        paths::name_of(path) == Some(stem + ".env.example"@) ==> is_template(path),
        paths::name_of(path) == Some(".env.sample"@) || paths::name_of(path) == Some(".dev.vars.example"@)
            ==> is_template(path),
        is_template(path) ==> paths::name_of(path) == Some(".env.sample"@) || paths::name_of(path) == Some(
            ".dev.vars.example"@,
        ) || exists|before: Seq<char>| paths::name_of(path) == Some(#[trigger] (before + ".env.example"@)),
{
    let name = stem + ".env.example"@;
    assert(name.subrange(stem.len() as int, name.len() as int) =~= ".env.example"@);
    if paths::name_of(path) is Some {
        let own = paths::name_of(path)->0;
        if ".env.example"@.is_suffix_of(own) {
            let before = own.take(own.len() - ".env.example"@.len());
            assert(own =~= before + ".env.example"@);
        }
        let none = Seq::<char>::empty();
        assert(none + ".env.example"@ =~= ".env.example"@);
    }
}

/// A template is chosen only where it is needed, stands at the root and is documented: the first such
/// one among the versioned paths.
pub proof fn templates_are_chosen_in_order(project: Project, supplied: bool, source: Seq<char>, target: Seq<char>)
    requires
        template_for(project, supplied) == Some((source, target)),
    ensures
        !supplied,
        project.env_files@.len() == 0,
        is_template(source),
        paths::parent_of(source) == Some(Seq::<char>::empty()),
        exists|k: int|
            0 <= k < project.versioned@.len() && (#[trigger] project.versioned@[k])@ == source && forall|i: int|
                0 <= i < k ==> usable_template(project)((#[trigger] project.versioned@[i])@) is None,
{
    let versioned = model::views(project.versioned@);
    let f = usable_template(project);
    lemma_first_found(versioned, f);
    let k = choose|k: int|
        0 <= k < versioned.len() && f(#[trigger] versioned[k]) == Some((source, target)) && forall|i: int|
            0 <= i < k ==> f(#[trigger] versioned[i]) is None;
    assert(project.versioned@[k]@ == versioned[k]);
    assert forall|i: int| 0 <= i < k implies f((#[trigger] project.versioned@[i])@) is None by {
        assert(versioned[i] == project.versioned@[i]@);
    }
}

proof fn lemma_first_found<A, B>(s: Seq<A>, f: spec_fn(A) -> Option<B>)
    ensures
        model::first_some(s, f) matches Some(b) ==> exists|k: int|
            0 <= k < s.len() && f(#[trigger] s[k]) == Some(b) && forall|i: int| 0 <= i < k ==> f(#[trigger] s[i]) is None,
    decreases s.len(),
{
    if s.len() > 0 && f(s[0]) is None && model::first_some(s, f) is Some {
        let rest = s.drop_first();
        lemma_first_found(rest, f);
        let b = model::first_some(s, f)->0;
        let k = choose|k: int|
            0 <= k < rest.len() && f(#[trigger] rest[k]) == Some(b) && forall|i: int|
                0 <= i < k ==> f(#[trigger] rest[i]) is None;
        assert(s[k + 1] == rest[k]);
        assert forall|i: int| 0 <= i < k + 1 implies f(#[trigger] s[i]) is None by {
            if i > 0 {
                assert(rest[i - 1] == s[i]);
            }
        }
    } else if s.len() > 0 && f(s[0]) is Some {
        assert(f(s[0]) == model::first_some(s, f));
    }
}

/// The defaults of ports are those that they are configured with, in order; a port without one has
/// none, and one that is not well formed is an error.
pub proof fn every_default_is_taken(ports: Seq<Seq<char>>, k: int)
    ensures
        defaults_of(ports) is Ok <==> forall|i: int| 0 <= i < ports.len() ==> config::port_spec(#[trigger] ports[i]) is Ok,
        0 <= k < ports.len() && (config::port_spec(ports[k]) matches Ok((_, Some(port))) && defaults_of(ports) is Ok)
            ==> defaults_of(ports)->Ok_0.contains(config::port_spec(ports[k])->Ok_0.1->0),
        defaults_of(ports) matches Ok(list) ==> forall|port: u16| #[trigger]
            list.contains(port) ==> exists|i: int|
                0 <= i < ports.len() && (config::port_spec(#[trigger] ports[i]) matches Ok((_, default)) && default
                    == Some(port)),
{
    let all = ports.map_values(default_of());
    assert(forall|i: int| 0 <= i < ports.len() ==> #[trigger] all[i] == default_of()(ports[i]));
    environment::collecting_keeps_every_value(all);
    if forall|i: int| 0 <= i < ports.len() ==> config::port_spec(#[trigger] ports[i]) is Ok {
        assert forall|i: int| 0 <= i < all.len() implies #[trigger] all[i] is Ok by {
            assert(config::port_spec(ports[i]) is Ok);
        }
    }
    match environment::collected(all) {
        Err(_) => {},
        Ok(list) => {
            assert forall|i: int| 0 <= i < ports.len() implies config::port_spec(#[trigger] ports[i]) is Ok by {
                assert(all[i] is Ok);
            }
            model::filter_map_keeps(list, given());
            if 0 <= k < ports.len() && (config::port_spec(ports[k]) matches Ok((_, Some(_)))) {
                assert(all[k] == Ok::<Option<u16>, Seq<char>>(list[k]));
                assert(given()(list[k]) == list[k]);
            }
            let kept = list.filter_map(given());
            assert forall|port: u16| #[trigger] kept.contains(port) implies exists|i: int|
                0 <= i < ports.len() && (config::port_spec(#[trigger] ports[i]) matches Ok((_, default)) && default
                    == Some(port)) by {
                let i = choose|i: int| 0 <= i < list.len() && given()(#[trigger] list[i]) == Some(port);
                assert(all[i] == Ok::<Option<u16>, Seq<char>>(list[i]));
                assert(config::port_spec(ports[i]) is Ok);
            }
        },
    }
}

/// Every file that detection draws on is read: the versioned configurations and templates, READMEs
/// where they may document a template, the Compose files, `devbox.json`, the env file and the Next.js
/// configurations of every package.
pub proof fn every_telling_file_is_read(
    versioned: Seq<Seq<char>>,
    env_files: Seq<Seq<char>>,
    packages: Seq<PackageAt>,
    env: Option<Seq<char>>,
    k: int,
)
    ensures
        ({
            let texts = telling_texts(versioned, env_files, packages, env);
            &&& 0 <= k < versioned.len() && (is_vite_config(versioned[k]) || is_wrangler(versioned[k]) || is_template(
                versioned[k],
            )) ==> texts.contains(versioned[k])
            &&& 0 <= k < versioned.len() && env is None && env_files.len() == 0 && (paths::name_of(
                versioned[k],
            ) matches Some(name) && "README"@.is_prefix_of(name)) ==> texts.contains(versioned[k])
            &&& texts.contains("compose.yml"@) && texts.contains("compose.yaml"@) && texts.contains(
                "docker-compose.yml"@,
            ) && texts.contains("docker-compose.yaml"@)
            &&& texts.contains("devbox.json"@)
            &&& env matches Some(path) ==> texts.contains(path)
            &&& env_files.len() > 0 ==> texts.contains(env_files[0])
            &&& 0 <= k < packages.len() ==> texts.contains(paths::joined(packages[k].root@, "next.config.js"@))
                && texts.contains(paths::joined(packages[k].root@, "next.config.mjs"@)) && texts.contains(
                paths::joined(packages[k].root@, "next.config.ts"@),
            ) && texts.contains(paths::joined(packages[k].root@, "next.config.mts"@))
        }),
{
    let texts = telling_texts(versioned, env_files, packages, env);
    let keep = is_telling(env is None && env_files.len() == 0);
    let a = versioned.filter(keep);
    let b = compose_names();
    let c = seq!["devbox.json"@];
    let d = listed_path(env);
    let e = first_of(env_files);
    let g = script_places(packages, "next.config."@);
    model::filter_keeps(versioned, keep);
    assert(texts == a + b + c + d + e + g);
    if 0 <= k < versioned.len() && keep(versioned[k]) {
        assert(a.contains(versioned[k]));
        let i = choose|i: int| 0 <= i < a.len() && a[i] == versioned[k];
        assert(texts[i] == versioned[k]);
    }
    let n = a.len() as int;
    assert(texts[n] == "compose.yml"@ && texts[n + 1] == "compose.yaml"@ && texts[n + 2] == "docker-compose.yml"@
        && texts[n + 3] == "docker-compose.yaml"@);
    assert(texts[n + 4] == "devbox.json"@);
    if env is Some {
        assert(texts[n + 5] == env->0);
    }
    if env_files.len() > 0 {
        assert(texts[n + 5 + d.len()] == env_files[0]);
    }
    if 0 <= k < packages.len() {
        lemma_script_places(packages, "next.config."@, k);
        lemma_next_configs();
        let m = n + 5 + d.len() + e.len();
        assert forall|p: Seq<char>| #[trigger] g.contains(p) implies texts.contains(p) by {
            let i = choose|i: int| 0 <= i < g.len() && g[i] == p;
            assert(texts[m + i] == p);
        }
    }
}

proof fn lemma_script_places(packages: Seq<PackageAt>, stem: Seq<char>, k: int)
    requires
        0 <= k < packages.len(),
    ensures
        script_endings().len() == 4,
        forall|i: int|
            0 <= i < 4 ==> script_places(packages, stem).contains(
                paths::joined(packages[k].root@, stem + #[trigger] script_endings()[i]),
            ),
    decreases packages.len(),
{
    let init = packages.drop_last();
    let before = script_places(init, stem);
    let own = script_endings().map_values(below(packages.last().root@, stem));
    let all = script_places(packages, stem);
    if k < init.len() {
        lemma_script_places(init, stem, k);
        assert(init[k] == packages[k]);
    }
    assert forall|i: int| 0 <= i < 4 implies all.contains(
        paths::joined(packages[k].root@, stem + #[trigger] script_endings()[i]),
    ) by {
        let p = paths::joined(packages[k].root@, stem + script_endings()[i]);
        if k < init.len() {
            assert(before.contains(p));
            let j = choose|j: int| 0 <= j < before.len() && before[j] == p;
            assert(all[j] == p);
        } else {
            assert(own[i] == p);
            assert(all[before.len() + i] == p);
        }
    }
}

/// Every file whose presence detection draws on is looked for: the Compose files, the lock files, the
/// env file and the Vite configurations of every package.
pub proof fn every_telling_file_is_looked_for(
    env_files: Seq<Seq<char>>,
    packages: Seq<PackageAt>,
    env: Option<Seq<char>>,
    k: int,
)
    ensures
        ({
            let files = telling_files(env_files, packages, env);
            &&& files.contains("compose.yml"@) && files.contains("compose.yaml"@) && files.contains(
                "docker-compose.yml"@,
            ) && files.contains("docker-compose.yaml"@)
            &&& files.contains("bun.lock"@) && files.contains("bun.lockb"@) && files.contains("pnpm-lock.yaml"@)
                && files.contains("yarn.lock"@) && files.contains("package-lock.json"@)
            &&& env matches Some(path) ==> files.contains(path)
            &&& env_files.len() > 0 ==> files.contains(env_files[0])
            &&& 0 <= k < packages.len() ==> forall|i: int|
                0 <= i < 4 ==> files.contains(
                    paths::joined(packages[k].root@, "vite.config."@ + #[trigger] script_endings()[i]),
                )
        }),
{
    let files = telling_files(env_files, packages, env);
    let d = listed_path(env);
    let e = first_of(env_files);
    let g = script_places(packages, "vite.config."@);
    assert(files == compose_names() + lock_names() + d + e + g);
    assert(files[0] == "compose.yml"@ && files[1] == "compose.yaml"@ && files[2] == "docker-compose.yml"@ && files[3]
        == "docker-compose.yaml"@);
    assert(files[4] == "bun.lock"@ && files[5] == "bun.lockb"@ && files[6] == "pnpm-lock.yaml"@ && files[7]
        == "yarn.lock"@ && files[8] == "package-lock.json"@);
    if env is Some {
        assert(files[9] == env->0);
    }
    if env_files.len() > 0 {
        assert(files[9int + d.len()] == env_files[0]);
    }
    if 0 <= k < packages.len() {
        lemma_script_places(packages, "vite.config."@, k);
        let m = 9int + d.len() + e.len();
        assert forall|i: int| 0 <= i < 4 implies files.contains(
            paths::joined(packages[k].root@, "vite.config."@ + #[trigger] script_endings()[i]),
        ) by {
            let p = paths::joined(packages[k].root@, "vite.config."@ + script_endings()[i]);
            assert(g.contains(p));
            let j = choose|j: int| 0 <= j < g.len() && g[j] == p;
            assert(files[m + j] == p);
        }
    }
}

/// A package is configured for Vite where a configuration with any of the four endings stands in its
/// directory.
pub proof fn any_ending_configures_vite(project: Project, root: Seq<char>)
    ensures
        vite_configured(project, root) <==> exists|i: int|
            0 <= i < 4 && project.has_file(paths::joined(root, "vite.config."@ + #[trigger] script_endings()[i])),
{
    reveal_strlit("vite.config.");
    reveal_strlit("js");
    reveal_strlit("mjs");
    reveal_strlit("ts");
    reveal_strlit("mts");
    reveal_strlit("vite.config.js");
    reveal_strlit("vite.config.mjs");
    reveal_strlit("vite.config.ts");
    reveal_strlit("vite.config.mts");
    let endings = script_endings();
    assert("vite.config."@ + endings[0] =~= "vite.config.js"@);
    assert("vite.config."@ + endings[1] =~= "vite.config.mjs"@);
    assert("vite.config."@ + endings[2] =~= "vite.config.ts"@);
    assert("vite.config."@ + endings[3] =~= "vite.config.mts"@);
    if exists|i: int| 0 <= i < 4 && project.has_file(paths::joined(root, "vite.config."@ + #[trigger] endings[i])) {
        let i = choose|i: int| 0 <= i < 4 && project.has_file(paths::joined(root, "vite.config."@ + #[trigger] endings[i]));
        assert(i == 0 || i == 1 || i == 2 || i == 3);
    }
}

/// What setup will change is announced: the env file to make, the line for direnv and the line for
/// Git, each exactly where it is missing and needed.
pub proof fn every_planned_change_is_announced(
    settings: Settings,
    source: Seq<char>,
    target: Seq<char>,
    target_exists: bool,
    envrc: Option<Seq<char>>,
    gitignore: Option<Seq<char>>,
)
    ensures
        ({
            let planned = changes_planned(settings, Some((source, target)), target_exists, envrc, gitignore);
            let process = environment::has_process_port(settings.ports);
            let loads = envrc matches Some(contents) && text::has_part(contents, "dotenv_if_exists .wt.env"@);
            &&& !target_exists ==> planned.contains("Create "@ + target + " from "@ + source)
            &&& process && !loads ==> planned.contains("Add `dotenv_if_exists .wt.env` to .envrc"@)
            &&& process && !has_line(gitignore, "/.wt.env"@) ==> planned.contains("Ignore /.wt.env"@)
            &&& planned.len() == (if target_exists {
                0int
            } else {
                1int
            }) + (if process && !loads {
                1int
            } else {
                0int
            }) + (if process && !has_line(gitignore, "/.wt.env"@) {
                1int
            } else {
                0int
            })
        }),
        !environment::has_process_port(settings.ports) ==> changes_planned(
            settings,
            None,
            target_exists,
            envrc,
            gitignore,
        ).len() == 0,
{
    let planned = changes_planned(settings, Some((source, target)), target_exists, envrc, gitignore);
    let process = environment::has_process_port(settings.ports);
    let loads = envrc matches Some(contents) && text::has_part(contents, "dotenv_if_exists .wt.env"@);
    let a = if target_exists {
        0int
    } else {
        1int
    };
    let b = if process && !loads {
        1int
    } else {
        0int
    };
    if a == 1 {
        assert(planned[0] == "Create "@ + target + " from "@ + source);
    }
    if b == 1 {
        assert(planned[a] == "Add `dotenv_if_exists .wt.env` to .envrc"@);
    }
    if process && !has_line(gitignore, "/.wt.env"@) {
        assert(planned[a + b] == "Ignore /.wt.env"@);
    }
}

} // verus!
