//! What is remembered of each worktree, and which commands are trusted.

use vstd::prelude::*;

use crate::model;
use crate::paths;
use crate::text;

verus! {

broadcast use {crate::model::lemma_views_push, crate::model::lemma_pairs_push};

/// A managed worktree. The ports and the copied files are kept in the order of their keys.
pub struct Record {
    pub repository: String,
    pub issue: Option<u64>,
    pub branch: String,
    pub path: String,
    pub ports: Vec<(String, u16)>,
    pub copied_files: Vec<(String, String)>,
    pub teardown: Option<String>,
    pub disposable: Vec<String>,
    pub config_hash: Option<String>,
}

/// A record as texts.
#[verifier::ext_equal]
pub ghost struct RecordData {
    pub repository: Seq<char>,
    pub issue: Option<u64>,
    pub branch: Seq<char>,
    pub path: Seq<char>,
    pub ports: Seq<(Seq<char>, u16)>,
    pub copied_files: Seq<(Seq<char>, Seq<char>)>,
    pub teardown: Option<Seq<char>>,
    pub disposable: Seq<Seq<char>>,
    pub config_hash: Option<Seq<char>>,
}

/// The names and numbers of a list of ports.
pub open spec fn port_views(list: Seq<(String, u16)>) -> Seq<(Seq<char>, u16)> {
    list.map_values(|p: (String, u16)| (p.0@, p.1))
}

impl View for Record {
    type V = RecordData;

    open spec fn view(&self) -> RecordData {
        RecordData {
            repository: self.repository@,
            issue: self.issue,
            branch: self.branch@,
            path: self.path@,
            ports: port_views(self.ports@),
            copied_files: model::pairs(self.copied_files@),
            teardown: model::opt(self.teardown),
            disposable: model::views(self.disposable@),
            config_hash: model::opt(self.config_hash),
        }
    }
}

fn copy_ports(list: &Vec<(String, u16)>) -> (r: Vec<(String, u16)>)
    ensures
        port_views(r@) == port_views(list@),
{
    let mut out: Vec<(String, u16)> = Vec::new();
    for i in 0..list.len()
        invariant
            port_views(out@) == port_views(list@).take(i as int),
    {
        let ghost before = port_views(out@);
        let item = (list[i].0.clone(), list[i].1);
        proof {
            model::step(port_views(list@), i as int);
        }
        out.push(item);
        assert(port_views(out@) =~= before.push((item.0@, item.1)));
    }
    proof {
        model::whole(port_views(list@));
    }
    out
}

fn copy_pairs(list: &Vec<(String, String)>) -> (r: Vec<(String, String)>)
    ensures
        model::pairs(r@) == model::pairs(list@),
{
    let mut out: Vec<(String, String)> = Vec::new();
    for i in 0..list.len()
        invariant
            model::pairs(out@) == model::pairs(list@).take(i as int),
    {
        proof {
            model::step(model::pairs(list@), i as int);
        }
        out.push((list[i].0.clone(), list[i].1.clone()));
    }
    proof {
        model::whole(model::pairs(list@));
    }
    out
}

fn same_ports(a: &Vec<(String, u16)>, b: &Vec<(String, u16)>) -> (r: bool)
    ensures
        r == (port_views(a@) == port_views(b@)),
{
    if a.len() != b.len() {
        assert(port_views(a@).len() != port_views(b@).len());
        return false;
    }
    for i in 0..a.len()
        invariant
            a@.len() == b@.len(),
            forall|k: int| 0 <= k < i ==> port_views(a@)[k] == port_views(b@)[k],
    {
        if !text::same(&a[i].0, &b[i].0) || a[i].1 != b[i].1 {
            assert(port_views(a@)[i as int] != port_views(b@)[i as int]);
            return false;
        }
    }
    assert(port_views(a@) =~= port_views(b@));
    true
}

fn same_pairs(a: &Vec<(String, String)>, b: &Vec<(String, String)>) -> (r: bool)
    ensures
        r == (model::pairs(a@) == model::pairs(b@)),
{
    if a.len() != b.len() {
        assert(model::pairs(a@).len() != model::pairs(b@).len());
        return false;
    }
    for i in 0..a.len()
        invariant
            a@.len() == b@.len(),
            forall|k: int| 0 <= k < i ==> model::pairs(a@)[k] == model::pairs(b@)[k],
    {
        if !text::same(&a[i].0, &b[i].0) || !text::same(&a[i].1, &b[i].1) {
            assert(model::pairs(a@)[i as int] != model::pairs(b@)[i as int]);
            return false;
        }
    }
    assert(model::pairs(a@) =~= model::pairs(b@));
    true
}

impl Clone for Record {
    fn clone(&self) -> (r: Record)
        ensures
            r@ == self@,
    {
        let r = Record {
            repository: self.repository.clone(),
            issue: self.issue,
            branch: self.branch.clone(),
            path: self.path.clone(),
            ports: copy_ports(&self.ports),
            copied_files: copy_pairs(&self.copied_files),
            teardown: text::copy_of(&self.teardown),
            disposable: text::copies_of(&self.disposable),
            config_hash: text::copy_of(&self.config_hash),
        };
        assert(r@ =~= self@);
        r
    }
}

impl Record {
    /// Whether two records say the same.
    pub fn same(&self, other: &Record) -> (r: bool)
        ensures
            r == (self@ == other@),
    {
        text::same(&self.repository, &other.repository) && self.issue == other.issue && text::same(
            &self.branch,
            &other.branch,
        ) && text::same(&self.path, &other.path) && same_ports(&self.ports, &other.ports) && same_pairs(
            &self.copied_files,
            &other.copied_files,
        ) && text::same_options(&self.teardown, &other.teardown) && text::same_lists(
            &self.disposable,
            &other.disposable,
        ) && text::same_options(&self.config_hash, &other.config_hash)
    }
}

// ---------------------------------------------------------------------------
// File names
// ---------------------------------------------------------------------------

/// A step of the FNV-1a hash.
pub open spec fn hash_step(hash: u64, byte: u8) -> u64 {
    (((hash ^ (byte as u64)) * 0x100000001b3) % 0x1_0000_0000_0000_0000) as u64
}

/// The FNV-1a hash of a byte sequence.
pub open spec fn hash_of(bytes: Seq<u8>) -> u64
    decreases bytes.len(),
{
    if bytes.len() == 0 {
        0xcbf29ce484222325
    } else {
        hash_step(hash_of(bytes.drop_last()), bytes.last())
    }
}

/// The hash by which the records of branches are found.
pub fn branch_key(branch: &str) -> (r: u64)
    ensures
        r == hash_of(vstd::utf8::encode_utf8(branch@)),
{
    let bytes = branch.as_bytes();
    let ghost all = vstd::utf8::encode_utf8(branch@);
    let mut hash: u64 = 0xcbf29ce484222325;
    assert(all.take(0) =~= Seq::<u8>::empty());
    for i in 0..bytes.len()
        invariant
            bytes@ == all,
            hash == hash_of(all.take(i as int)),
    {
        let byte: u8 = bytes[i];
        proof {
            model::step(all, i as int);
        }
        hash = (hash ^ (byte as u64)).wrapping_mul(0x100000001b3);
    }
    proof {
        model::whole(all);
    }
    hash
}

/// A repository in a file name.
pub open spec fn flat(repository: Seq<char>) -> Seq<char> {
    text::replaced(repository, "/"@, "--"@)
}

fn flattened(repository: &str) -> (r: String)
    ensures
        r@ == flat(repository@),
{
    proof {
        reveal_strlit("/");
    }
    text::replace(repository, "/", "--")
}

/// The file of an issue's record.
pub open spec fn issue_name(repository: Seq<char>, issue: u64) -> Seq<char> {
    flat(repository) + "--"@ + text::decimal(issue as nat) + ".json"@
}

/// The file of a standalone branch's record.
pub open spec fn branch_name(repository: Seq<char>, branch: Seq<char>) -> Seq<char> {
    flat(repository) + "--branch-"@ + text::hexadecimal(
        hash_of(vstd::utf8::encode_utf8(branch)) as nat,
        16,
    ) + ".json"@
}

fn issue_file(repository: &str, issue: u64) -> (r: String)
    ensures
        r@ == issue_name(repository@, issue),
{
    let mut name = flattened(repository);
    name.append("--");
    name.append(&text::to_decimal(issue));
    name.append(".json");
    name
}

fn branch_file(repository: &str, branch: &str) -> (r: String)
    ensures
        r@ == branch_name(repository@, branch@),
{
    let mut name = flattened(repository);
    name.append("--branch-");
    name.append(&text::to_hexadecimal(branch_key(branch), 16));
    name.append(".json");
    name
}

/// The file of a record.
pub open spec fn record_name(record: RecordData) -> Seq<char> {
    match record.issue {
        Some(issue) => issue_name(record.repository, issue),
        None => branch_name(record.repository, record.branch),
    }
}

fn record_file(record: &Record) -> (r: String)
    ensures
        r@ == record_name(record@),
{
    match record.issue {
        Some(issue) => issue_file(&record.repository, issue),
        None => branch_file(&record.repository, &record.branch),
    }
}

/// A name that differs from `name` at most in case, as itself.
pub open spec fn alike(name: Seq<char>) -> spec_fn(Seq<char>) -> Option<Seq<char>> {
    |n: Seq<char>|
        if text::same_ignoring_case(n, name) {
            Some(n)
        } else {
            None
        }
}

/// The name that stands for `name` in a directory: itself where it is there, else the first that
/// differs only in case, else itself.
pub open spec fn matching(names: Seq<Seq<char>>, name: Seq<char>) -> Seq<char> {
    if names.contains(name) {
        name
    } else {
        match model::first_some(names, alike(name)) {
            Some(other) => other,
            None => name,
        }
    }
}

fn matching_name(names: &Vec<String>, name: String) -> (r: String)
    ensures
        r@ == matching(model::views(names@), name@),
{
    if text::list_contains(names, &name) {
        return name;
    }
    let ghost all = model::views(names@);
    for i in 0..names.len()
        invariant
            all == model::views(names@),
            !all.contains(name@),
            forall|k: int| 0 <= k < i ==> alike(name@)(#[trigger] all[k]) is None,
    {
        assert(all[i as int] == names@[i as int]@);
        if text::eq_ignore_ascii_case(&names[i], &name) {
            proof {
                model::found_some(all, alike(name@), i as int);
            }
            return names[i].clone();
        }
    }
    proof {
        model::found_none(all, alike(name@));
    }
    name
}

// ---------------------------------------------------------------------------
// The store
// ---------------------------------------------------------------------------

/// A file of the records directory; without a record where it could not be read as one.
pub struct Entry {
    pub name: String,
    pub record: Option<Record>,
}

/// A file of the trust directory.
pub struct TrustFile {
    pub name: String,
    pub contents: String,
}

/// The state directory as it was found.
pub struct Store {
    pub root: String,
    pub entries: Vec<Entry>,
    pub trusted: Vec<TrustFile>,
}

/// The record that an entry holds.
pub open spec fn opt_record(record: Option<Record>) -> Option<RecordData> {
    match record {
        Some(record) => Some(record@),
        None => None,
    }
}

/// The names of the record files and what they hold.
pub open spec fn entry_views(entries: Seq<Entry>) -> Seq<(Seq<char>, Option<RecordData>)> {
    entries.map_values(|e: Entry| (e.name@, opt_record(e.record)))
}

/// The names of the trust files and their contents.
pub open spec fn trust_views(files: Seq<TrustFile>) -> Seq<(Seq<char>, Seq<char>)> {
    files.map_values(|f: TrustFile| (f.name@, f.contents@))
}

/// The directory that state is kept in.
pub open spec fn state_directory(
    wt_state_home: Option<Seq<char>>,
    xdg_state_home: Option<Seq<char>>,
    home: Option<Seq<char>>,
) -> Result<Seq<char>, Seq<char>> {
    match (wt_state_home, xdg_state_home, home) {
        (Some(directory), _, _) => Ok(directory),
        (None, Some(directory), _) => Ok(paths::joined(directory, "wt"@)),
        (None, None, Some(directory)) => Ok(paths::joined(directory, ".local/state/wt"@)),
        (None, None, None) => Err("HOME is not set"@),
    }
}

pub fn state_root(wt_state_home: Option<&str>, xdg_state_home: Option<&str>, home: Option<&str>) -> (r: Result<
    String,
    String,
>)
    ensures
        model::outcome(r) == state_directory(
            model::opt_str(wt_state_home),
            model::opt_str(xdg_state_home),
            model::opt_str(home),
        ),
{
    match (wt_state_home, xdg_state_home, home) {
        (Some(directory), _, _) => Ok(directory.to_owned()),
        (None, Some(directory), _) => Ok(paths::join(directory, "wt")),
        (None, None, Some(directory)) => Ok(paths::join(directory, ".local/state/wt")),
        (None, None, None) => Err("HOME is not set".to_owned()),
    }
}

pub open spec fn names_of<A>(files: Seq<(Seq<char>, A)>) -> Seq<Seq<char>> {
    files.map_values(|f: (Seq<char>, A)| f.0)
}

/// What a file of this name holds.
pub open spec fn held_under<A>(name: Seq<char>) -> spec_fn((Seq<char>, A)) -> Option<A> {
    |f: (Seq<char>, A)|
        if f.0 == name {
            Some(f.1)
        } else {
            None
        }
}

/// What the file that stands for `name` holds, if there is one.
pub open spec fn held<A>(files: Seq<(Seq<char>, A)>, name: Seq<char>) -> Option<A> {
    model::first_some(files, held_under(matching(names_of(files), name)))
}

/// The record under a name: none where there is no such file, an error where the file does not
/// hold one.
pub open spec fn record_under(entries: Seq<(Seq<char>, Option<RecordData>)>, name: Seq<char>) -> Result<
    Option<RecordData>,
    Seq<char>,
> {
    match held(entries, name) {
        None => Ok(None),
        Some(None) => Err("parse wt state"@),
        Some(Some(record)) => Ok(Some(record)),
    }
}

/// The record of a standalone branch, which must be about that branch.
pub open spec fn branch_record(
    entries: Seq<(Seq<char>, Option<RecordData>)>,
    repository: Seq<char>,
    branch: Seq<char>,
) -> Result<Option<RecordData>, Seq<char>> {
    match record_under(entries, branch_name(repository, branch)) {
        Ok(Some(record)) => if text::same_ignoring_case(record.repository, repository) && record.issue is None
            && record.branch == branch {
            Ok(Some(record))
        } else {
            Err("state key collision for branch "@ + branch)
        },
        other => other,
    }
}

/// What looking for a record came to.
pub open spec fn outcome_record(r: Result<Option<Record>, String>) -> Result<Option<RecordData>, Seq<char>> {
    match r {
        Ok(record) => Ok(opt_record(record)),
        Err(message) => Err(message@),
    }
}

/// Whether a file of the records directory holds a record by its name.
pub open spec fn is_record_file() -> spec_fn((Seq<char>, Option<RecordData>)) -> bool {
    |e: (Seq<char>, Option<RecordData>)| paths::extension_of(e.0) == Some("json"@)
}

/// Whether every file holds a record.
pub open spec fn all_readable(files: Seq<(Seq<char>, Option<RecordData>)>) -> bool {
    forall|i: int| 0 <= i < files.len() ==> (#[trigger] files[i]).1 is Some
}

proof fn lemma_all_readable_push(files: Seq<(Seq<char>, Option<RecordData>)>, file: (Seq<char>, Option<RecordData>))
    ensures
        all_readable(files.push(file)) == (all_readable(files) && file.1 is Some),
{
    let more = files.push(file);
    if all_readable(more) {
        assert(more[files.len() as int].1 is Some);
        assert forall|i: int| 0 <= i < files.len() implies (#[trigger] files[i]).1 is Some by {
            assert(more[i].1 is Some);
        }
    }
}

/// Every record, or an error where a file does not hold one.
pub open spec fn all_records(entries: Seq<(Seq<char>, Option<RecordData>)>) -> Result<Seq<RecordData>, Seq<char>> {
    let files = entries.filter(is_record_file());
    if all_readable(files) {
        Ok(files.map_values(|e: (Seq<char>, Option<RecordData>)| e.1->0))
    } else {
        Err("parse wt state"@)
    }
}

/// The records as texts.
pub open spec fn record_views(list: Seq<Record>) -> Seq<RecordData> {
    list.map_values(|r: Record| r@)
}

/// What listing the records came to.
pub open spec fn outcome_records(r: Result<Vec<Record>, String>) -> Result<Seq<RecordData>, Seq<char>> {
    match r {
        Ok(list) => Ok(record_views(list@)),
        Err(message) => Err(message@),
    }
}

/// The ports that records lease, one record after the other.
pub open spec fn leased(records: Seq<RecordData>) -> Seq<u16>
    decreases records.len(),
{
    if records.len() == 0 {
        Seq::empty()
    } else {
        leased(records.drop_last()) + records.last().ports.map_values(|p: (Seq<char>, u16)| p.1)
    }
}

/// A file of this name with new contents: in the place of the file that stands for it, else last.
pub open spec fn stored<A>(files: Seq<(Seq<char>, A)>, name: Seq<char>, contents: A) -> Seq<(Seq<char>, A)> {
    let target = matching(names_of(files), name);
    if names_of(files).contains(target) {
        files.map_values(|f: (Seq<char>, A)|
            if f.0 == target {
                (f.0, contents)
            } else {
                f
            })
    } else {
        files.push((target, contents))
    }
}

/// Whether a file has another name.
pub open spec fn not_named<A>(name: Seq<char>) -> spec_fn((Seq<char>, A)) -> bool {
    |f: (Seq<char>, A)| f.0 != name
}

/// The files without the one that stands for `name`.
pub open spec fn without<A>(files: Seq<(Seq<char>, A)>, name: Seq<char>) -> Seq<(Seq<char>, A)> {
    let target = matching(names_of(files), name);
    files.filter(not_named(target))
}

/// The contents of a repository's trust file; nothing where there is none.
pub open spec fn trust_text(files: Seq<(Seq<char>, Seq<char>)>, repository: Seq<char>) -> Seq<char> {
    match held(files, flat(repository)) {
        Some(contents) => contents,
        None => Seq::empty(),
    }
}

/// Whether commands with this fingerprint are trusted in a repository.
pub open spec fn trusts(files: Seq<(Seq<char>, Seq<char>)>, repository: Seq<char>, hash: Seq<char>) -> bool {
    text::lines(trust_text(files, repository)).contains(hash)
}

/// The trust files after trusting a fingerprint.
pub open spec fn trusting(files: Seq<(Seq<char>, Seq<char>)>, repository: Seq<char>, hash: Seq<char>) -> Seq<
    (Seq<char>, Seq<char>),
> {
    if trusts(files, repository, hash) {
        files
    } else {
        stored(files, flat(repository), trust_text(files, repository) + hash + "\n"@)
    }
}

impl Store {
    pub open spec fn files(&self) -> Seq<(Seq<char>, Option<RecordData>)> {
        entry_views(self.entries@)
    }

    pub open spec fn trust_files(&self) -> Seq<(Seq<char>, Seq<char>)> {
        trust_views(self.trusted@)
    }

    /// The store whose directory the environment chooses, with the files that were found there.
    pub fn open_readonly(
        wt_state_home: Option<&str>,
        xdg_state_home: Option<&str>,
        home: Option<&str>,
        entries: Vec<Entry>,
        trusted: Vec<TrustFile>,
    ) -> (r: Result<Store, String>)
        ensures
            match state_directory(
                model::opt_str(wt_state_home),
                model::opt_str(xdg_state_home),
                model::opt_str(home),
            ) {
                Ok(root) => r matches Ok(store) && store.root@ == root && store.entries == entries && store.trusted
                    == trusted,
                Err(message) => r matches Err(e) && e@ == message,
            },
    {
        match state_root(wt_state_home, xdg_state_home, home) {
            Ok(root) => Ok(Store { root, entries, trusted }),
            Err(message) => Err(message),
        }
    }

    fn entry_names(&self) -> (r: Vec<String>)
        ensures
            model::views(r@) == names_of(self.files()),
    {
        let ghost all = names_of(self.files());
        let mut out: Vec<String> = Vec::new();
        for i in 0..self.entries.len()
            invariant
                all == names_of(self.files()),
                model::views(out@) == all.take(i as int),
        {
            proof {
                model::step(all, i as int);
            }
            out.push(self.entries[i].name.clone());
        }
        proof {
            model::whole(all);
        }
        out
    }

    fn trust_names(&self) -> (r: Vec<String>)
        ensures
            model::views(r@) == names_of(self.trust_files()),
    {
        let ghost all = names_of(self.trust_files());
        let mut out: Vec<String> = Vec::new();
        for i in 0..self.trusted.len()
            invariant
                all == names_of(self.trust_files()),
                model::views(out@) == all.take(i as int),
        {
            proof {
                model::step(all, i as int);
            }
            out.push(self.trusted[i].name.clone());
        }
        proof {
            model::whole(all);
        }
        out
    }

    fn read_record(&self, name: String) -> (r: Result<Option<Record>, String>)
        ensures
            outcome_record(r) == record_under(self.files(), name@),
    {
        let target = matching_name(&self.entry_names(), name);
        let ghost all = self.files();
        for i in 0..self.entries.len()
            invariant
                all == self.files(),
                target@ == matching(names_of(all), name@),
                forall|k: int| 0 <= k < i ==> held_under(target@)(#[trigger] all[k]) is None,
        {
            assert(all[i as int] == (self.entries@[i as int].name@, opt_record(self.entries@[i as int].record)));
            if text::same(&self.entries[i].name, &target) {
                proof {
                    model::found_some(all, held_under(target@), i as int);
                }
                return match &self.entries[i].record {
                    Some(record) => Ok(Some(record.clone())),
                    None => Err("parse wt state".to_owned()),
                };
            }
        }
        proof {
            model::found_none(all, held_under(target@));
        }
        Ok(None)
    }

    pub fn find_issue(&self, repository: &str, issue: u64) -> (r: Result<Option<Record>, String>)
        ensures
            outcome_record(r) == record_under(self.files(), issue_name(repository@, issue)),
    {
        self.read_record(issue_file(repository, issue))
    }

    pub fn find_branch(&self, repository: &str, branch: &str) -> (r: Result<Option<Record>, String>)
        ensures
            outcome_record(r) == branch_record(self.files(), repository@, branch@),
    {
        match self.read_record(branch_file(repository, branch)) {
            Ok(Some(record)) => {
                if text::eq_ignore_ascii_case(&record.repository, repository) && record.issue.is_none() && text::same(
                    &record.branch,
                    branch,
                ) {
                    Ok(Some(record))
                } else {
                    Err(text::concat("state key collision for branch ", branch))
                }
            },
            other => other,
        }
    }

    pub fn records(&self) -> (r: Result<Vec<Record>, String>)
        ensures
            outcome_records(r) == all_records(self.files()),
    {
        let ghost all = self.files();
        let ghost value = |e: (Seq<char>, Option<RecordData>)| e.1->0;
        let ghost files = all.filter(is_record_file());
        let mut out: Vec<Record> = Vec::new();
        let mut broken = false;
        proof {
            model::start_filter(all, is_record_file());
            assert(record_views(out@) =~= Seq::<RecordData>::empty());
            assert(Seq::<(Seq<char>, Option<RecordData>)>::empty().map_values(value) =~= Seq::<RecordData>::empty());
        }
        for i in 0..self.entries.len()
            invariant
                all == self.files(),
                value == (|e: (Seq<char>, Option<RecordData>)| e.1->0),
                broken == !all_readable(all.take(i as int).filter(is_record_file())),
                !broken ==> record_views(out@) == all.take(i as int).filter(is_record_file()).map_values(value),
        {
            let entry = &self.entries[i];
            let ghost before = all.take(i as int).filter(is_record_file());
            let ghost after = all.take(i + 1).filter(is_record_file());
            let ghost listed = record_views(out@);
            proof {
                reveal_strlit("json");
                model::step_filter(all, i as int, is_record_file());
                assert(all[i as int] == (entry.name@, opt_record(entry.record)));
            }
            let is_record = match paths::extension(&entry.name) {
                Some(extension) => text::same(&extension, "json"),
                None => false,
            };
            if is_record {
                proof {
                    lemma_all_readable_push(before, all[i as int]);
                }
                match &entry.record {
                    Some(record) => {
                        out.push(record.clone());
                        assert(record_views(out@) =~= listed.push(record@));
                        assert(after.map_values(value) =~= before.map_values(value).push(record@));
                    },
                    None => {
                        broken = true;
                    },
                }
            }
        }
        proof {
            model::whole(all);
        }
        if broken {
            Err("parse wt state".to_owned())
        } else {
            Ok(out)
        }
    }

    /// The ports that are leased to worktrees.
    pub fn used_ports(&self) -> (r: Result<Vec<u16>, String>)
        ensures
            match all_records(self.files()) {
                Ok(records) => r matches Ok(ports) && ports@ == leased(records),
                Err(message) => r matches Err(e) && e@ == message,
            },
    {
        let records = match self.records() {
            Ok(records) => records,
            Err(message) => {
                return Err(message);
            },
        };
        let ghost all = record_views(records@);
        let mut out: Vec<u16> = Vec::new();
        assert(all.take(0) =~= Seq::<RecordData>::empty());
        for i in 0..records.len()
            invariant
                all == record_views(records@),
                out@ == leased(all.take(i as int)),
        {
            let ghost start = out@;
            let ghost numbers = records@[i as int]@.ports.map_values(|p: (Seq<char>, u16)| p.1);
            proof {
                model::step(all, i as int);
                assert(start + numbers.take(0) =~= start);
            }
            let ports = &records[i].ports;
            for j in 0..ports.len()
                invariant
                    i < records@.len(),
                    ports == records@[i as int].ports,
                    numbers == records@[i as int]@.ports.map_values(|p: (Seq<char>, u16)| p.1),
                    out@ == start + numbers.take(j as int),
            {
                proof {
                    model::step(numbers, j as int);
                    assert(start + numbers.take(j + 1) =~= (start + numbers.take(j as int)).push(numbers[j as int]));
                }
                out.push(ports[j].1);
            }
            proof {
                model::whole(numbers);
            }
        }
        proof {
            model::whole(all);
        }
        Ok(out)
    }

    /// Remembers a record and names the file to write it to.
    pub fn save(&mut self, record: &Record) -> (file: String)
        ensures
            file@ == matching(names_of(old(self).files()), record_name(record@)),
            final(self).files() == stored(old(self).files(), record_name(record@), Some(record@)),
            final(self).root == old(self).root,
            final(self).trusted == old(self).trusted,
    {
        let names = self.entry_names();
        let target = matching_name(&names, record_file(record));
        let ghost before = self.files();
        let ghost change = |f: (Seq<char>, Option<RecordData>)|
            if f.0 == target@ {
                (f.0, Some(record@))
            } else {
                f
            };
        if text::list_contains(&names, &target) {
            let count: usize = self.entries.len();
            for i in 0..count
                invariant
                    count == self.entries@.len(),
                    before.len() == count,
                    change == (|f: (Seq<char>, Option<RecordData>)|
                        if f.0 == target@ {
                            (f.0, Some(record@))
                        } else {
                            f
                        }),
                    self.files() == before.take(i as int).map_values(change) + before.skip(i as int),
                    self.root == old(self).root,
                    self.trusted == old(self).trusted,
            {
                let ghost now = self.files();
                assert(now[i as int] == before[i as int]);
                assert(now[i as int] == (self.entries@[i as int].name@, opt_record(self.entries@[i as int].record)));
                if text::same(&self.entries[i].name, &target) {
                    let entry = Entry { name: target.clone(), record: Some(record.clone()) };
                    self.entries.set(i, entry);
                    assert(self.files() =~= now.update(i as int, change(before[i as int])));
                } else {
                    assert(self.files() =~= now.update(i as int, change(before[i as int])));
                }
                proof {
                    assert(self.files() =~= before.take(i + 1).map_values(change) + before.skip(i + 1));
                }
            }
            proof {
                assert(before.take(count as int) =~= before);
                assert(before.map_values(change) + before.skip(count as int) =~= before.map_values(change));
                assert(self.files() =~= stored(before, record_name(record@), Some(record@)));
            }
        } else {
            let entry = Entry { name: target.clone(), record: Some(record.clone()) };
            self.entries.push(entry);
            assert(self.files() =~= before.push((target@, Some(record@))));
        }
        target
    }

    /// Forgets a record and names the file to remove.
    pub fn delete(&mut self, record: &Record) -> (r: Result<String, String>)
        ensures
            ({
                let target = matching(names_of(old(self).files()), record_name(record@));
                model::outcome(r) == if names_of(old(self).files()).contains(target) {
                    Ok(target)
                } else {
                    Err("remove wt state"@)
                }
            }),
            final(self).files() == without(old(self).files(), record_name(record@)),
            final(self).root == old(self).root,
            final(self).trusted == old(self).trusted,
    {
        let names = self.entry_names();
        let target = matching_name(&names, record_file(record));
        let ghost before = self.files();
        let ghost keep = not_named::<Option<RecordData>>(target@);
        let mut kept: Vec<Entry> = Vec::new();
        proof {
            model::start_filter(before, keep);
            assert(entry_views(kept@) =~= Seq::empty());
        }
        for i in 0..self.entries.len()
            invariant
                before == self.files(),
                keep == not_named::<Option<RecordData>>(target@),
                entry_views(kept@) == before.take(i as int).filter(keep),
        {
            let entry = &self.entries[i];
            let ghost so_far = entry_views(kept@);
            proof {
                model::step_filter(before, i as int, keep);
                assert(before[i as int] == (entry.name@, opt_record(entry.record)));
            }
            if !text::same(&entry.name, &target) {
                let copy = Entry {
                    name: entry.name.clone(),
                    record: match &entry.record {
                        Some(record) => Some(record.clone()),
                        None => None,
                    },
                };
                kept.push(copy);
                assert(entry_views(kept@) =~= so_far.push(before[i as int]));
            }
        }
        proof {
            model::whole(before);
        }
        self.entries = kept;
        if text::list_contains(&names, &target) {
            Ok(target)
        } else {
            Err("remove wt state".to_owned())
        }
    }

    fn trusted_text(&self, repository: &str) -> (r: String)
        ensures
            r@ == trust_text(self.trust_files(), repository@),
    {
        let target = matching_name(&self.trust_names(), flattened(repository));
        let ghost all = self.trust_files();
        for i in 0..self.trusted.len()
            invariant
                all == self.trust_files(),
                target@ == matching(names_of(all), flat(repository@)),
                forall|k: int| 0 <= k < i ==> held_under(target@)(#[trigger] all[k]) is None,
        {
            assert(all[i as int] == (self.trusted@[i as int].name@, self.trusted@[i as int].contents@));
            if text::same(&self.trusted[i].name, &target) {
                proof {
                    model::found_some(all, held_under(target@), i as int);
                }
                return self.trusted[i].contents.clone();
            }
        }
        proof {
            model::found_none(all, held_under(target@));
        }
        String::new()
    }

    pub fn is_trusted(&self, repository: &str, hash: &str) -> (r: bool)
        ensures
            r == trusts(self.trust_files(), repository@, hash@),
    {
        text::list_contains(&text::lines_of(&self.trusted_text(repository)), hash)
    }

    /// Trusts commands with this fingerprint; the name and the new contents of the file to write,
    /// where it has to change.
    pub fn trust(&mut self, repository: &str, hash: &str) -> (r: Option<(String, String)>)
        ensures
            final(self).trust_files() == trusting(old(self).trust_files(), repository@, hash@),
            final(self).root == old(self).root,
            final(self).entries == old(self).entries,
            model::opt_pair(r) == if trusts(old(self).trust_files(), repository@, hash@) {
                None
            } else {
                Some(
                    (
                        matching(names_of(old(self).trust_files()), flat(repository@)),
                        trust_text(old(self).trust_files(), repository@) + hash@ + "\n"@,
                    ),
                )
            },
    {
        if self.is_trusted(repository, hash) {
            return None;
        }
        let mut contents = self.trusted_text(repository);
        contents.append(hash);
        contents.append("\n");
        let names = self.trust_names();
        let target = matching_name(&names, flattened(repository));
        let ghost before = self.trust_files();
        let ghost change = |f: (Seq<char>, Seq<char>)|
            if f.0 == target@ {
                (f.0, contents@)
            } else {
                f
            };
        if text::list_contains(&names, &target) {
            let count: usize = self.trusted.len();
            for i in 0..count
                invariant
                    count == self.trusted@.len(),
                    before.len() == count,
                    change == (|f: (Seq<char>, Seq<char>)|
                        if f.0 == target@ {
                            (f.0, contents@)
                        } else {
                            f
                        }),
                    self.trust_files() == before.take(i as int).map_values(change) + before.skip(i as int),
                    self.root == old(self).root,
                    self.entries == old(self).entries,
            {
                let ghost now = self.trust_files();
                assert(now[i as int] == before[i as int]);
                assert(now[i as int] == (self.trusted@[i as int].name@, self.trusted@[i as int].contents@));
                if text::same(&self.trusted[i].name, &target) {
                    let file = TrustFile { name: target.clone(), contents: contents.clone() };
                    self.trusted.set(i, file);
                    assert(self.trust_files() =~= now.update(i as int, change(before[i as int])));
                } else {
                    assert(self.trust_files() =~= now.update(i as int, change(before[i as int])));
                }
                proof {
                    assert(self.trust_files() =~= before.take(i + 1).map_values(change) + before.skip(i + 1));
                }
            }
            proof {
                assert(before.take(count as int) =~= before);
                assert(before.map_values(change) + before.skip(count as int) =~= before.map_values(change));
                assert(self.trust_files() =~= stored(before, flat(repository@), contents@));
            }
        } else {
            let file = TrustFile { name: target.clone(), contents: contents.clone() };
            self.trusted.push(file);
            assert(self.trust_files() =~= before.push((target@, contents@)));
        }
        Some((target, contents))
    }

    /// The name of the lock that adding and removing a worktree take.
    pub fn lock_name(&self, repository: &str, reference: &str) -> (r: String)
        ensures
            r@ == matching(
                names_of(self.files()),
                match text::number_upto(reference@, u64::MAX as nat) {
                    Some(issue) => issue_name(repository@, issue as u64),
                    None => branch_name(repository@, reference@),
                },
            ),
    {
        let name = match text::parse_u64(reference) {
            Some(issue) => issue_file(repository, issue),
            None => branch_file(repository, reference),
        };
        matching_name(&self.entry_names(), name)
    }
}

// ---------------------------------------------------------------------------
// What the state holds
// ---------------------------------------------------------------------------

/// Every port of every record is in use, and no other port is.
pub proof fn every_leased_port_is_used(records: Seq<RecordData>)
    ensures
        forall|k: int, i: int|
            0 <= k < records.len() && 0 <= i < records[k].ports.len() ==> leased(records).contains(
                (#[trigger] records[k].ports[i]).1,
            ),
        forall|port: u16| #[trigger]
            leased(records).contains(port) ==> exists|k: int, i: int|
                0 <= k < records.len() && 0 <= i < records[k].ports.len() && (#[trigger] records[k].ports[i]).1 == port,
    decreases records.len(),
{
    if records.len() > 0 {
        let init = records.drop_last();
        let last = records[records.len() - 1];
        let before = leased(init);
        let own = last.ports.map_values(|p: (Seq<char>, u16)| p.1);
        let all = leased(records);
        every_leased_port_is_used(init);
        assert(all == before + own);
        assert forall|k: int, i: int|
            0 <= k < records.len() && 0 <= i < records[k].ports.len() implies all.contains(
            (#[trigger] records[k].ports[i]).1,
        ) by {
            let port = records[k].ports[i].1;
            if k < init.len() {
                assert(init[k] == records[k]);
                assert(before.contains(init[k].ports[i].1));
                let j = choose|j: int| 0 <= j < before.len() && before[j] == port;
                assert(all[j] == port);
            } else {
                assert(own[i] == port);
                assert(all[before.len() + i] == port);
            }
        }
        assert forall|port: u16| #[trigger] all.contains(port) implies exists|k: int, i: int|
            0 <= k < records.len() && 0 <= i < records[k].ports.len() && (#[trigger] records[k].ports[i]).1 == port by {
            let j = choose|j: int| 0 <= j < all.len() && all[j] == port;
            if j < before.len() {
                assert(before[j] == port);
                assert(before.contains(port));
                let (k, i) = choose|k: int, i: int|
                    0 <= k < init.len() && 0 <= i < init[k].ports.len() && (#[trigger] init[k].ports[i]).1 == port;
                assert(records[k].ports[i].1 == port);
            } else {
                let i = j - before.len();
                assert(own[i] == port);
                assert(records[records.len() - 1].ports[i].1 == port);
            }
        }
    }
}

/// The records are those of the readable files that end in `.json`, each of them; one such file that
/// cannot be read keeps all from being read.
pub proof fn every_record_file_is_read(entries: Seq<(Seq<char>, Option<RecordData>)>, k: int)
    ensures
        0 <= k < entries.len() && paths::extension_of(entries[k].0) == Some("json"@) ==> (entries[k].1 is None
            ==> all_records(entries) is Err) && (all_records(entries) matches Ok(records) ==> entries[k].1 is Some
            && records.contains(entries[k].1->0)),
        (forall|i: int|
            0 <= i < entries.len() ==> paths::extension_of((#[trigger] entries[i]).0) != Some("json"@)
                || entries[i].1 is Some) ==> all_records(entries) is Ok,
        all_records(entries) matches Ok(records) ==> forall|record: RecordData| #[trigger]
            records.contains(record) ==> exists|i: int|
                0 <= i < entries.len() && (#[trigger] entries[i]).1 == Some(record) && paths::extension_of(entries[i].0)
                    == Some("json"@),
{
    let keep = is_record_file();
    let files = entries.filter(keep);
    model::filter_keeps(entries, keep);
    if 0 <= k < entries.len() && paths::extension_of(entries[k].0) == Some("json"@) {
        assert(files.contains(entries[k]));
        let i = choose|i: int| 0 <= i < files.len() && files[i] == entries[k];
        if entries[k].1 is None {
            assert(files[i].1 is None);
        }
        if all_records(entries) is Ok {
            let records = all_records(entries)->Ok_0;
            assert(files[i].1 is Some);
            assert(records[i] == entries[k].1->0);
        }
    }
    if forall|i: int|
        0 <= i < entries.len() ==> paths::extension_of((#[trigger] entries[i]).0) != Some("json"@)
            || entries[i].1 is Some {
        assert forall|i: int| 0 <= i < files.len() implies (#[trigger] files[i]).1 is Some by {
            assert(files.contains(files[i]));
            let j = choose|j: int| 0 <= j < entries.len() && entries[j] == files[i];
            assert(keep(entries[j]));
        }
    }
    if all_records(entries) is Ok {
        let records = all_records(entries)->Ok_0;
        assert forall|record: RecordData| #[trigger] records.contains(record) implies exists|i: int|
            0 <= i < entries.len() && (#[trigger] entries[i]).1 == Some(record) && paths::extension_of(entries[i].0)
                == Some("json"@) by {
            let j = choose|j: int| 0 <= j < records.len() && records[j] == record;
            assert(files[j].1 is Some);
            assert(files.contains(files[j]));
            let i = choose|i: int| 0 <= i < entries.len() && entries[i] == files[j];
            assert(keep(entries[i]));
        }
    }
}

/// A name stands for the file of exactly that name, where there is one; otherwise for the first file
/// whose name differs in large and small letters alone; otherwise for itself.
pub proof fn names_stand_for_their_files(names: Seq<Seq<char>>, name: Seq<char>, k: int)
    ensures
        names.contains(name) ==> matching(names, name) == name,
        !names.contains(name) && 0 <= k < names.len() && text::lower_text(names[k]) == text::lower_text(name) && (
        forall|i: int| 0 <= i < k ==> text::lower_text(#[trigger] names[i]) != text::lower_text(name)) ==> matching(
            names,
            name,
        ) == names[k],
        (forall|i: int| 0 <= i < names.len() ==> text::lower_text(#[trigger] names[i]) != text::lower_text(name))
            ==> matching(names, name) == name,
{
    let f = alike(name);
    if 0 <= k < names.len() && text::lower_text(names[k]) == text::lower_text(name) && (forall|i: int|
        0 <= i < k ==> text::lower_text(#[trigger] names[i]) != text::lower_text(name)) {
        assert forall|i: int| 0 <= i < k implies f(#[trigger] names[i]) is None by {
            assert(text::lower_text(names[i]) != text::lower_text(name));
        }
        model::found_some(names, f, k);
    }
    if forall|i: int| 0 <= i < names.len() ==> text::lower_text(#[trigger] names[i]) != text::lower_text(name) {
        assert forall|i: int| 0 <= i < names.len() implies f(#[trigger] names[i]) is None by {
            assert(text::lower_text(names[i]) != text::lower_text(name));
        }
        model::found_none(names, f);
    }
}

/// The state stands where it was asked to, then where the system keeps state, then in the home
/// directory; without any of them there is no place for it.
pub proof fn the_nearest_directory_holds_the_state(
    directory: Seq<char>,
    other: Option<Seq<char>>,
    home: Option<Seq<char>>,
)
    ensures
        state_directory(Some(directory), other, home) == Ok::<Seq<char>, Seq<char>>(directory),
        state_directory(None, Some(directory), home) == Ok::<Seq<char>, Seq<char>>(paths::joined(directory, "wt"@)),
        state_directory(None, None, Some(directory)) == Ok::<Seq<char>, Seq<char>>(
            paths::joined(directory, ".local/state/wt"@),
        ),
        state_directory(None, None, None) is Err,
{
}

/// A branch's record is its own or none: a record that stands under the same name but is of another
/// branch, repository or an issue is reported as a collision.
pub proof fn a_branch_finds_only_its_own_record(
    entries: Seq<(Seq<char>, Option<RecordData>)>,
    repository: Seq<char>,
    branch: Seq<char>,
)
    ensures
        branch_record(entries, repository, branch) matches Ok(Some(record)) ==> record.branch == branch
            && record.issue is None && text::lower_text(record.repository) == text::lower_text(repository),
        record_under(entries, branch_name(repository, branch)) matches Ok(Some(record)) ==> (branch_record(
            entries,
            repository,
            branch,
        ) is Ok <==> record.branch == branch && record.issue is None && text::lower_text(record.repository)
            == text::lower_text(repository)),
        record_under(entries, branch_name(repository, branch)) matches Ok(None) ==> branch_record(
            entries,
            repository,
            branch,
        ) == Ok::<Option<RecordData>, Seq<char>>(None),
{
}

} // verus!
