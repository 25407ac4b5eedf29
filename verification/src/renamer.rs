use vstd::prelude::*;
use vstd::string::{StrSliceExecFns, StringExecFns};

use crate::config::{Config, ConfigV};
use crate::datefmt::{
    already_formatted, date_parses, render_timestamp, spec_already_formatted, spec_estimate_len,
    spec_strip_date_prefix, strip_date_prefix,
};
use crate::globs::{compile_patterns, glob_match, pattern_matches, spec_valid_srcs, srcs_of};
use crate::slug::{slugify, spec_slugify};
use crate::strutil::{contains_str, str_eq};

verus! {

/// A proposed rename of one file: the source path and the destination
/// path, each as a `/`-separated string.
pub struct RenameOp {
    pub from: String,
    pub to: String,
}

/// The mathematical content of a `RenameOp`.
pub struct RenameOpV {
    pub from: Seq<char>,
    pub to: Seq<char>,
}

impl View for RenameOp {
    type V = RenameOpV;

    open spec fn view(&self) -> RenameOpV {
        RenameOpV { from: self.from@, to: self.to@ }
    }
}

impl DeepView for RenameOp {
    type V = RenameOpV;

    open spec fn deep_view(&self) -> RenameOpV {
        self@
    }
}

/// One regular file of a directory snapshot: its name and the timestamp it
/// carries, already rendered under the configured format. Keeping the
/// rendered text in the snapshot makes the planner a function of its
/// arguments, so one snapshot always yields one plan.
pub struct FileEntry {
    pub name: String,
    pub date_str: String,
}

/// The mathematical content of a `FileEntry`.
pub struct FileEntryV {
    pub name: Seq<char>,
    pub date_str: Seq<char>,
}

impl View for FileEntry {
    type V = FileEntryV;

    open spec fn view(&self) -> FileEntryV {
        FileEntryV { name: self.name@, date_str: self.date_str@ }
    }
}

impl DeepView for FileEntry {
    type V = FileEntryV;

    open spec fn deep_view(&self) -> FileEntryV {
        self@
    }
}

impl FileEntry {
    /// Builds the snapshot entry for one regular file from its name and its
    /// origin timestamp in seconds since the Unix epoch.
    pub fn new(name: String, secs: i64, format: &str) -> (r: FileEntry)
        ensures
            r.name@ == name@,
    {
        let date_str = render_timestamp(secs, format);
        FileEntry { name, date_str }
    }
}

/// One directory of a snapshot: its path relative to the scanned root
/// (empty for the root itself), the regular files it holds, and the names
/// of its other entries, which count when a destination is checked for a
/// collision.
pub struct DirListing {
    pub rel_path: String,
    pub files: Vec<FileEntry>,
    pub subdirs: Vec<String>,
}

/// The mathematical content of a `DirListing`.
pub struct DirListingV {
    pub rel_path: Seq<char>,
    pub files: Seq<FileEntryV>,
    pub subdirs: Seq<Seq<char>>,
}

impl View for DirListing {
    type V = DirListingV;

    open spec fn view(&self) -> DirListingV {
        DirListingV {
            rel_path: self.rel_path@,
            files: self.files.deep_view(),
            subdirs: self.subdirs.deep_view(),
        }
    }
}

impl DeepView for DirListing {
    type V = DirListingV;

    open spec fn deep_view(&self) -> DirListingV {
        self@
    }
}

/// The first path segment of a relative path: the characters before the
/// first `/`.
pub open spec fn spec_top_segment(rel: Seq<char>) -> Seq<char>
    decreases rel.len(),
{
    if rel.len() == 0 {
        rel
    } else if rel[0] == '/' {
        Seq::empty()
    } else {
        seq![rel[0]] + spec_top_segment(rel.drop_first())
    }
}

proof fn lemma_top_segment_take(s: Seq<char>, j: int)
    requires
        0 <= j <= s.len(),
        forall|t: int| 0 <= t < j ==> s[t] != '/',
        j == s.len() || s[j] == '/',
    ensures
        spec_top_segment(s) == s.take(j),
    decreases j,
{
    if j == 0 {
        assert(s.take(0) =~= Seq::<char>::empty());
        if s.len() > 0 && s[0] != '/' {
            assert(false);
        }
    } else {
        lemma_top_segment_take(s.drop_first(), j - 1);
        assert(seq![s[0]] + s.drop_first().take(j - 1) =~= s.take(j));
    }
}

fn top_segment<'a>(rel: &'a str) -> (r: &'a str)
    ensures
        r@ == spec_top_segment(rel@),
{
    let n = rel.unicode_len();
    let mut j: usize = 0;
    while j < n && rel.get_char(j) != '/'
        invariant
            n == rel@.len(),
            j <= n,
            forall|t: int| 0 <= t < j ==> rel@[t] != '/',
        decreases n - j,
    {
        j += 1;
    }
    let s = rel.substring_char(0, j);
    proof {
        lemma_top_segment_take(rel@, j as int);
        assert(s@ =~= rel@.take(j as int));
    }
    s
}

/// Number of `/` characters in a path.
pub open spec fn spec_slash_count(s: Seq<char>) -> nat
    decreases s.len(),
{
    if s.len() == 0 {
        0
    } else {
        (if s[0] == '/' {
            1nat
        } else {
            0nat
        }) + spec_slash_count(s.drop_first())
    }
}

/// Number of `/`-separated segments of a non-empty relative path: how many
/// directory levels below the root the path reaches.
pub open spec fn spec_depth_of(rel: Seq<char>) -> nat {
    spec_slash_count(rel) + 1
}

fn slash_count(s: &str) -> (r: usize)
    ensures
        r == spec_slash_count(s@),
{
    let n = s.unicode_len();
    let mut i: usize = 0;
    let mut acc: usize = 0;
    proof {
        assert(s@.skip(0) =~= s@);
    }
    while i < n
        invariant
            n == s@.len(),
            i <= n,
            acc <= i,
            acc + spec_slash_count(s@.skip(i as int)) == spec_slash_count(s@),
        decreases n - i,
    {
        proof {
            assert(s@.skip(i as int)[0] == s@[i as int]);
            assert(s@.skip(i as int).drop_first() =~= s@.skip(i as int + 1));
        }
        if s.get_char(i) == '/' {
            acc += 1;
        }
        i += 1;
    }
    proof {
        assert(s@.skip(n as int) =~= Seq::<char>::empty());
    }
    acc
}

/// The allow/deny rule on a subdirectory path relative to the root, decided
/// on its top-level segment alone: with no allow patterns nothing is
/// permitted; a matching deny pattern rejects, whatever the allow patterns
/// say; otherwise a matching allow pattern permits.
pub open spec fn spec_subfolder_allowed(
    rel: Seq<char>,
    allow: Seq<Seq<char>>,
    deny: Seq<Seq<char>>,
) -> bool {
    let top = spec_top_segment(rel);
    &&& allow.len() > 0
    &&& !(exists|i: int| 0 <= i < deny.len() && glob_match(#[trigger] deny[i], top))
    &&& (exists|i: int| 0 <= i < allow.len() && glob_match(#[trigger] allow[i], top))
}

/// Decides whether files under the subdirectory `subfolder` (a path
/// relative to the root) may be planned, from the compiled allow and deny
/// patterns.
pub fn is_subfolder_allowed(subfolder: &str, allow: &Vec<glob::Pattern>, deny: &Vec<
    glob::Pattern,
>) -> (r: bool)
    ensures
        r == spec_subfolder_allowed(subfolder@, srcs_of(allow@), srcs_of(deny@)),
{
    if allow.len() == 0 {
        return false;
    }
    let top = top_segment(subfolder);
    let mut i: usize = 0;
    while i < deny.len()
        invariant
            i <= deny.len(),
            top@ == spec_top_segment(subfolder@),
            forall|k: int| 0 <= k < i ==> !glob_match(#[trigger] srcs_of(deny@)[k], top@),
        decreases deny.len() - i,
    {
        if pattern_matches(&deny[i], top) {
            assert(glob_match(srcs_of(deny@)[i as int], top@));
            return false;
        }
        i += 1;
    }
    let mut j: usize = 0;
    while j < allow.len()
        invariant
            j <= allow.len(),
            top@ == spec_top_segment(subfolder@),
            forall|k: int| 0 <= k < deny.len() ==> !glob_match(#[trigger] srcs_of(deny@)[k], top@),
            forall|k: int| 0 <= k < j ==> !glob_match(#[trigger] srcs_of(allow@)[k], top@),
        decreases allow.len() - j,
    {
        if pattern_matches(&allow[j], top) {
            assert(glob_match(srcs_of(allow@)[j as int], top@));
            return true;
        }
        j += 1;
    }
    false
}

/// Index of the last `.` in a file name, or `-1` when there is none.
pub open spec fn spec_last_dot(name: Seq<char>) -> int
    decreases name.len(),
{
    if name.len() == 0 {
        -1
    } else if name[name.len() - 1] == '.' {
        name.len() - 1
    } else {
        spec_last_dot(name.drop_last())
    }
}

/// The extension of a file name: the characters after the last `.`, which
/// must exist and must not open the name.
pub open spec fn spec_file_ext(name: Seq<char>) -> Option<Seq<char>> {
    let d = spec_last_dot(name);
    if d > 0 {
        Some(name.skip(d + 1))
    } else {
        None
    }
}

/// The stem of a file name: what stands before the extension, or the whole
/// name when there is no extension.
pub open spec fn spec_file_stem(name: Seq<char>) -> Seq<char> {
    let d = spec_last_dot(name);
    if d > 0 {
        name.take(d)
    } else {
        name
    }
}

proof fn lemma_last_dot_at(s: Seq<char>, j: int)
    requires
        0 <= j < s.len(),
        s[j] == '.',
        forall|t: int| j < t < s.len() ==> s[t] != '.',
    ensures
        spec_last_dot(s) == j,
    decreases s.len(),
{
    if j < s.len() - 1 {
        lemma_last_dot_at(s.drop_last(), j);
    }
}

proof fn lemma_no_dot(s: Seq<char>)
    requires
        forall|t: int| 0 <= t < s.len() ==> s[t] != '.',
    ensures
        spec_last_dot(s) == -1,
    decreases s.len(),
{
    if s.len() > 0 {
        lemma_no_dot(s.drop_last());
    }
}

proof fn lemma_last_dot_range(s: Seq<char>)
    ensures
        -1 <= spec_last_dot(s) < s.len(),
        spec_last_dot(s) >= 0 ==> s[spec_last_dot(s)] == '.',
    decreases s.len(),
{
    if s.len() > 0 && s[s.len() - 1] != '.' {
        lemma_last_dot_range(s.drop_last());
    }
}

fn last_dot_index(name: &str) -> (r: Option<usize>)
    ensures
        (match r {
            Some(j) => j == spec_last_dot(name@),
            None => spec_last_dot(name@) == -1,
        }),
{
    let n = name.unicode_len();
    let mut j: usize = n;
    while j > 0
        invariant
            n == name@.len(),
            j <= n,
            forall|t: int| j <= t < n ==> name@[t] != '.',
        decreases j,
    {
        if name.get_char(j - 1) == '.' {
            proof {
                lemma_last_dot_at(name@, j - 1);
            }
            return Some(j - 1);
        }
        j -= 1;
    }
    proof {
        lemma_no_dot(name@);
    }
    None
}

/// The destination file name: the rendered date, `-`, the slug of the
/// stripped stem, `.`, and the original extension.
pub open spec fn spec_dest_name(date_str: Seq<char>, stem: Seq<char>, ext: Seq<char>) -> Seq<
    char,
> {
    date_str + seq!['-'] + spec_slugify(spec_strip_date_prefix(stem)) + seq!['.'] + ext
}

/// Some entry of the directory, file or subdirectory, carries this name.
pub open spec fn spec_name_exists(d: DirListingV, name: Seq<char>) -> bool {
    ||| exists|i: int| 0 <= i < d.files.len() && (#[trigger] d.files[i]).name == name
    ||| exists|i: int| 0 <= i < d.subdirs.len() && #[trigger] d.subdirs[i] == name
}

fn name_exists(d: &DirListing, name: &str) -> (r: bool)
    ensures
        r == spec_name_exists(d@, name@),
{
    let mut i: usize = 0;
    while i < d.files.len()
        invariant
            i <= d.files.len(),
            d@.files.len() == d.files.len(),
            forall|k: int| 0 <= k < i ==> (#[trigger] d@.files[k]).name != name@,
        decreases d.files.len() - i,
    {
        if str_eq(d.files[i].name.as_str(), name) {
            assert(d@.files[i as int].name == name@);
            return true;
        }
        i += 1;
    }
    if contains_str(&d.subdirs, name) {
        proof {
            let w = choose|k: int|
                0 <= k < d.subdirs.deep_view().len() && d.subdirs.deep_view()[k] == name@;
            assert(d@.subdirs[w] == name@);
        }
        return true;
    }
    false
}

/// `base/rel/name`, or `base/name` when `rel` is empty (the root itself).
pub open spec fn spec_join(base: Seq<char>, rel: Seq<char>, name: Seq<char>) -> Seq<char> {
    if rel.len() == 0 {
        base + seq!['/'] + name
    } else {
        base + seq!['/'] + rel + seq!['/'] + name
    }
}

fn join_path(base: &str, rel: &str, name: &str) -> (r: String)
    ensures
        r@ == spec_join(base@, rel@, name@),
{
    proof {
        reveal_strlit("/");
        assert("/"@ =~= seq!['/']);
    }
    let mut s = String::from_str(base);
    s.append("/");
    if rel.unicode_len() > 0 {
        s.append(rel);
        s.append("/");
    }
    s.append(name);
    proof {
        assert(s@ =~= spec_join(base@, rel@, name@));
    }
    s
}

/// The file passes every per-file test before its destination is checked:
/// it has an extension among the eligible ones and its stem is not already
/// in canonical form.
pub open spec fn spec_file_eligible(c: ConfigV, f: FileEntryV) -> bool {
    &&& spec_file_ext(f.name) is Some
    &&& c.extensions.contains(spec_file_ext(f.name)->0)
    &&& !spec_already_formatted(spec_file_stem(f.name), c.format)
}

/// The destination name the file would receive.
pub open spec fn spec_file_dest(f: FileEntryV) -> Seq<char> {
    spec_dest_name(f.date_str, spec_file_stem(f.name), spec_file_ext(f.name)->0)
}

/// The file is renameable on its own: eligible, and no entry of its
/// directory already carries the computed destination name.
pub open spec fn spec_file_planned(c: ConfigV, d: DirListingV, f: FileEntryV) -> bool {
    &&& spec_file_eligible(c, f)
    &&& !spec_name_exists(d, spec_file_dest(f))
}

/// The file collides: it is eligible, but its destination name is carried
/// by an entry of its directory or already claimed by an earlier operation
/// of the same plan (`taken`).
pub open spec fn spec_file_conflicted(
    c: ConfigV,
    d: DirListingV,
    f: FileEntryV,
    taken: Seq<Seq<char>>,
) -> bool {
    &&& spec_file_eligible(c, f)
    &&& (spec_name_exists(d, spec_file_dest(f)) || taken.contains(spec_file_dest(f)))
}

/// The file's rename enters the plan: renameable, and its destination is
/// claimed by no earlier operation — so the destinations of one plan never
/// collide with each other.
pub open spec fn spec_file_emitted(
    c: ConfigV,
    d: DirListingV,
    f: FileEntryV,
    taken: Seq<Seq<char>>,
) -> bool {
    &&& spec_file_planned(c, d, f)
    &&& !taken.contains(spec_file_dest(f))
}

/// The rename that a planned file receives: from its current path to the
/// canonical destination in the same directory.
pub open spec fn spec_op(c: ConfigV, d: DirListingV, f: FileEntryV) -> RenameOpV {
    RenameOpV {
        from: spec_join(c.docs_dir, d.rel_path, f.name),
        to: spec_join(c.docs_dir, d.rel_path, spec_file_dest(f)),
    }
}

/// The directory takes part in planning: it is the root itself, or it lies
/// within the depth bound and its top-level segment passes the allow/deny
/// rule (restricted to the patterns that compile).
pub open spec fn spec_dir_included(c: ConfigV, rel: Seq<char>) -> bool {
    rel.len() == 0 || (spec_depth_of(rel) <= c.depth && spec_subfolder_allowed(
        rel,
        spec_valid_srcs(c.allow),
        spec_valid_srcs(c.deny),
    ))
}

/// The ops of one directory's files, in file order; `taken` holds the
/// destination names that earlier operations of this directory claimed.
pub open spec fn spec_files_ops(
    c: ConfigV,
    d: DirListingV,
    fs: Seq<FileEntryV>,
    taken: Seq<Seq<char>>,
) -> Seq<RenameOpV>
    decreases fs.len(),
{
    if fs.len() == 0 {
        Seq::empty()
    } else if spec_file_emitted(c, d, fs[0], taken) {
        seq![spec_op(c, d, fs[0])] + spec_files_ops(
            c,
            d,
            fs.drop_first(),
            taken.push(spec_file_dest(fs[0])),
        )
    } else {
        spec_files_ops(c, d, fs.drop_first(), taken)
    }
}

/// The collisions among one directory's files, in file order: the rename
/// each conflicted file would have received.
pub open spec fn spec_files_conflicts(
    c: ConfigV,
    d: DirListingV,
    fs: Seq<FileEntryV>,
    taken: Seq<Seq<char>>,
) -> Seq<RenameOpV>
    decreases fs.len(),
{
    if fs.len() == 0 {
        Seq::empty()
    } else if spec_file_emitted(c, d, fs[0], taken) {
        spec_files_conflicts(c, d, fs.drop_first(), taken.push(spec_file_dest(fs[0])))
    } else if spec_file_conflicted(c, d, fs[0], taken) {
        seq![spec_op(c, d, fs[0])] + spec_files_conflicts(c, d, fs.drop_first(), taken)
    } else {
        spec_files_conflicts(c, d, fs.drop_first(), taken)
    }
}

/// The ops of one directory: none when the directory is excluded.
pub open spec fn spec_dir_ops(c: ConfigV, d: DirListingV) -> Seq<RenameOpV> {
    if spec_dir_included(c, d.rel_path) {
        spec_files_ops(c, d, d.files, Seq::empty())
    } else {
        Seq::empty()
    }
}

/// The collisions of one directory: none when the directory is excluded.
pub open spec fn spec_dir_conflicts(c: ConfigV, d: DirListingV) -> Seq<RenameOpV> {
    if spec_dir_included(c, d.rel_path) {
        spec_files_conflicts(c, d, d.files, Seq::empty())
    } else {
        Seq::empty()
    }
}

/// The whole plan: the ops of each directory, in snapshot order.
pub open spec fn spec_plan(c: ConfigV, dirs: Seq<DirListingV>) -> Seq<RenameOpV>
    decreases dirs.len(),
{
    if dirs.len() == 0 {
        Seq::empty()
    } else {
        spec_dir_ops(c, dirs[0]) + spec_plan(c, dirs.drop_first())
    }
}

/// The collisions of the whole snapshot, in snapshot order.
pub open spec fn spec_conflicts(c: ConfigV, dirs: Seq<DirListingV>) -> Seq<RenameOpV>
    decreases dirs.len(),
{
    if dirs.len() == 0 {
        Seq::empty()
    } else {
        spec_dir_conflicts(c, dirs[0]) + spec_conflicts(c, dirs.drop_first())
    }
}

/// What the planner decides for one file: the rename it receives together
/// with the destination name it claims, the rename it would have received
/// had its destination been free, or nothing.
enum FileDecision {
    Planned(RenameOp, String),
    Conflict(RenameOp),
    Skipped,
}

/// Decides one file against the settings, its directory, and the
/// destination names that earlier operations of the directory claimed.
fn plan_file(config: &Config, d: &DirListing, f: &FileEntry, taken: &Vec<String>) -> (r:
    FileDecision)
    requires
        config.format@.len() <= usize::MAX as int / 2,
    ensures
        (r is Planned) == spec_file_emitted(config@, d@, f@, taken.deep_view()),
        (r is Conflict) == spec_file_conflicted(config@, d@, f@, taken.deep_view()),
        r matches FileDecision::Planned(op, dn) ==> op@ == spec_op(config@, d@, f@) && dn@
            == spec_file_dest(f@),
        r matches FileDecision::Conflict(op) ==> op@ == spec_op(config@, d@, f@),
{
    let name = f.name.as_str();
    let n = name.unicode_len();
    proof {
        lemma_last_dot_range(name@);
    }
    let dot = match last_dot_index(name) {
        Some(j) => j,
        None => {
            return FileDecision::Skipped;
        },
    };
    if dot == 0 {
        return FileDecision::Skipped;
    }
    let stem = name.substring_char(0, dot);
    let ext = name.substring_char(dot + 1, n);
    proof {
        assert(stem@ =~= spec_file_stem(f@.name));
        assert(ext@ =~= spec_file_ext(f@.name)->0);
    }
    if !contains_str(&config.extensions, ext) {
        return FileDecision::Skipped;
    }
    if already_formatted(stem, config.format.as_str()) {
        return FileDecision::Skipped;
    }
    let stripped = strip_date_prefix(stem);
    let title = slugify(stripped);
    let mut dest = f.date_str.clone();
    proof {
        reveal_strlit("-");
        reveal_strlit(".");
        assert("-"@ =~= seq!['-']);
        assert("."@ =~= seq!['.']);
    }
    dest.append("-");
    dest.append(title.as_str());
    dest.append(".");
    dest.append(ext);
    proof {
        assert(dest@ =~= spec_file_dest(f@));
    }
    let conflict = name_exists(d, dest.as_str()) || contains_str(taken, dest.as_str());
    let from = join_path(config.docs_dir.as_str(), d.rel_path.as_str(), name);
    let to = join_path(config.docs_dir.as_str(), d.rel_path.as_str(), dest.as_str());
    if conflict {
        FileDecision::Conflict(RenameOp { from, to })
    } else {
        FileDecision::Planned(RenameOp { from, to }, dest)
    }
}

/// One pass over the snapshot, producing the plan and the collisions.
fn plan_with_conflicts(config: &Config, dirs: &Vec<DirListing>) -> (r: (
    Vec<RenameOp>,
    Vec<RenameOp>,
))
    requires
        config.format@.len() <= usize::MAX as int / 2,
    ensures
        r.0.deep_view() == spec_plan(config@, dirs.deep_view()),
        r.1.deep_view() == spec_conflicts(config@, dirs.deep_view()),
{
    let ghost c = config@;
    let ghost dv = dirs.deep_view();
    let allow_pats = compile_patterns(&config.allow);
    let deny_pats = compile_patterns(&config.deny);
    let mut ops: Vec<RenameOp> = Vec::new();
    let mut confs: Vec<RenameOp> = Vec::new();
    let mut di: usize = 0;
    proof {
        assert(dv.skip(0) =~= dv);
        assert(ops.deep_view() + spec_plan(c, dv) =~= spec_plan(c, dv));
        assert(confs.deep_view() + spec_conflicts(c, dv) =~= spec_conflicts(c, dv));
    }
    while di < dirs.len()
        invariant
            c == config@,
            dirs.deep_view() == dv,
            dv.len() == dirs.len(),
            config.format@.len() <= usize::MAX as int / 2,
            srcs_of(allow_pats@) == spec_valid_srcs(c.allow),
            srcs_of(deny_pats@) == spec_valid_srcs(c.deny),
            di <= dirs.len(),
            ops.deep_view() + spec_plan(c, dv.skip(di as int)) == spec_plan(c, dv),
            confs.deep_view() + spec_conflicts(c, dv.skip(di as int)) == spec_conflicts(c, dv),
        decreases dirs.len() - di,
    {
        let ghost dV = dv[di as int];
        proof {
            assert(dv.skip(di as int)[0] == dV);
            assert(dv.skip(di as int).drop_first() =~= dv.skip(di as int + 1));
            assert(spec_plan(c, dv.skip(di as int)) == spec_dir_ops(c, dV) + spec_plan(
                c,
                dv.skip(di as int + 1),
            ));
            assert(spec_conflicts(c, dv.skip(di as int)) == spec_dir_conflicts(c, dV)
                + spec_conflicts(c, dv.skip(di as int + 1)));
        }
        let d = &dirs[di];
        proof {
            assert(d@ == dV);
        }
        let included = if d.rel_path.as_str().unicode_len() == 0 {
            true
        } else {
            slash_count(d.rel_path.as_str()) < config.depth && is_subfolder_allowed(
                d.rel_path.as_str(),
                &allow_pats,
                &deny_pats,
            )
        };
        proof {
            assert(included == spec_dir_included(c, dV.rel_path));
        }
        let ghost ops0 = ops.deep_view();
        let ghost confs0 = confs.deep_view();
        if included {
            let mut taken: Vec<String> = Vec::new();
            let mut fi: usize = 0;
            proof {
                assert(dV.files.skip(0) =~= dV.files);
                assert(taken.deep_view() =~= Seq::<Seq<char>>::empty());
                assert(ops.deep_view() + spec_files_ops(c, dV, dV.files, taken.deep_view()) =~=
                    ops0 + spec_files_ops(c, dV, dV.files, Seq::empty()));
                assert(confs.deep_view() + spec_files_conflicts(c, dV, dV.files, taken.deep_view())
                    =~= confs0 + spec_files_conflicts(c, dV, dV.files, Seq::empty()));
            }
            while fi < d.files.len()
                invariant
                    c == config@,
                    config.format@.len() <= usize::MAX as int / 2,
                    d@ == dV,
                    dV.files.len() == d.files.len(),
                    fi <= d.files.len(),
                    ops.deep_view() + spec_files_ops(c, dV, dV.files.skip(fi as int), taken.deep_view())
                        == ops0 + spec_files_ops(c, dV, dV.files, Seq::empty()),
                    confs.deep_view() + spec_files_conflicts(
                        c,
                        dV,
                        dV.files.skip(fi as int),
                        taken.deep_view(),
                    ) == confs0 + spec_files_conflicts(c, dV, dV.files, Seq::empty()),
                decreases d.files.len() - fi,
            {
                let ghost fs = dV.files;
                let ghost tk = taken.deep_view();
                let ghost opsb = ops.deep_view();
                let ghost confsb = confs.deep_view();
                proof {
                    assert(fs.skip(fi as int)[0] == fs[fi as int]);
                    assert(fs.skip(fi as int).drop_first() =~= fs.skip(fi as int + 1));
                }
                let f = &d.files[fi];
                proof {
                    assert(f@ == fs[fi as int]);
                }
                match plan_file(config, d, f, &taken) {
                    FileDecision::Planned(op, dn) => {
                        ops.push(op);
                        taken.push(dn);
                        proof {
                            assert(taken.deep_view() =~= tk.push(spec_file_dest(fs[fi as int])));
                            assert(spec_files_ops(c, dV, fs.skip(fi as int), tk) == seq![
                                spec_op(c, dV, fs[fi as int]),
                            ] + spec_files_ops(c, dV, fs.skip(fi as int + 1), taken.deep_view()));
                            assert(spec_files_conflicts(c, dV, fs.skip(fi as int), tk)
                                == spec_files_conflicts(
                                c,
                                dV,
                                fs.skip(fi as int + 1),
                                taken.deep_view(),
                            ));
                            assert(ops.deep_view() =~= opsb.push(spec_op(c, dV, fs[fi as int])));
                            assert(ops.deep_view() + spec_files_ops(
                                c,
                                dV,
                                fs.skip(fi as int + 1),
                                taken.deep_view(),
                            ) =~= opsb + spec_files_ops(c, dV, fs.skip(fi as int), tk));
                        }
                    },
                    FileDecision::Conflict(op) => {
                        confs.push(op);
                        proof {
                            assert(spec_files_ops(c, dV, fs.skip(fi as int), tk)
                                == spec_files_ops(c, dV, fs.skip(fi as int + 1), tk));
                            assert(spec_files_conflicts(c, dV, fs.skip(fi as int), tk) == seq![
                                spec_op(c, dV, fs[fi as int]),
                            ] + spec_files_conflicts(c, dV, fs.skip(fi as int + 1), tk));
                            assert(confs.deep_view() =~= confsb.push(spec_op(c, dV, fs[fi as int])));
                            assert(confs.deep_view() + spec_files_conflicts(
                                c,
                                dV,
                                fs.skip(fi as int + 1),
                                tk,
                            ) =~= confsb + spec_files_conflicts(c, dV, fs.skip(fi as int), tk));
                        }
                    },
                    FileDecision::Skipped => {
                        proof {
                            assert(spec_files_ops(c, dV, fs.skip(fi as int), tk)
                                == spec_files_ops(c, dV, fs.skip(fi as int + 1), tk));
                            assert(spec_files_conflicts(c, dV, fs.skip(fi as int), tk)
                                == spec_files_conflicts(c, dV, fs.skip(fi as int + 1), tk));
                        }
                    },
                }
                fi += 1;
            }
            proof {
                assert(dV.files.skip(d.files.len() as int) =~= Seq::<FileEntryV>::empty());
                assert(spec_files_ops(c, dV, Seq::<FileEntryV>::empty(), taken.deep_view()) =~=
                    Seq::<RenameOpV>::empty());
                assert(spec_files_conflicts(c, dV, Seq::<FileEntryV>::empty(), taken.deep_view())
                    =~= Seq::<RenameOpV>::empty());
                assert(ops.deep_view() =~= ops.deep_view() + Seq::<RenameOpV>::empty());
                assert(confs.deep_view() =~= confs.deep_view() + Seq::<RenameOpV>::empty());
                assert(ops.deep_view() =~= ops0 + spec_dir_ops(c, dV));
                assert(confs.deep_view() =~= confs0 + spec_dir_conflicts(c, dV));
            }
        } else {
            proof {
                assert(spec_dir_ops(c, dV) =~= Seq::<RenameOpV>::empty());
                assert(spec_dir_conflicts(c, dV) =~= Seq::<RenameOpV>::empty());
                assert(ops.deep_view() =~= ops0 + spec_dir_ops(c, dV));
                assert(confs.deep_view() =~= confs0 + spec_dir_conflicts(c, dV));
            }
        }
        proof {
            assert((ops0 + spec_dir_ops(c, dV)) + spec_plan(c, dv.skip(di as int + 1)) =~= ops0 + (
            spec_dir_ops(c, dV) + spec_plan(c, dv.skip(di as int + 1))));
            assert((confs0 + spec_dir_conflicts(c, dV)) + spec_conflicts(
                c,
                dv.skip(di as int + 1),
            ) =~= confs0 + (spec_dir_conflicts(c, dV) + spec_conflicts(c, dv.skip(di as int + 1))));
        }
        di += 1;
    }
    proof {
        assert(dv.skip(dirs.len() as int) =~= Seq::<DirListingV>::empty());
        assert(spec_plan(c, Seq::<DirListingV>::empty()) =~= Seq::<RenameOpV>::empty());
        assert(spec_conflicts(c, Seq::<DirListingV>::empty()) =~= Seq::<RenameOpV>::empty());
        assert(ops.deep_view() =~= ops.deep_view() + Seq::<RenameOpV>::empty());
        assert(confs.deep_view() =~= confs.deep_view() + Seq::<RenameOpV>::empty());
    }
    (ops, confs)
}

/// Produces the ordered rename plan for a directory snapshot: for every
/// included directory, in order, the eligible files not already in
/// canonical form whose destination no directory entry carries and no
/// earlier operation claims, renamed to `<date>-<slug>.<ext>` in their own
/// directory.
pub fn plan_renames(config: &Config, dirs: &Vec<DirListing>) -> (ops: Vec<RenameOp>)
    requires
        config.format@.len() <= usize::MAX as int / 2,
    ensures
        ops.deep_view() == spec_plan(config@, dirs.deep_view()),
{
    let r = plan_with_conflicts(config, dirs);
    r.0
}

/// Reports the collisions of a directory snapshot: for each otherwise
/// eligible file whose computed destination an entry of its directory
/// already carries, or an earlier operation of the plan already claims, the
/// rename it would have received. Such a file is skipped by the plan and
/// must be surfaced as a warning.
pub fn plan_conflicts(config: &Config, dirs: &Vec<DirListing>) -> (confs: Vec<RenameOp>)
    requires
        config.format@.len() <= usize::MAX as int / 2,
    ensures
        confs.deep_view() == spec_conflicts(config@, dirs.deep_view()),
{
    let r = plan_with_conflicts(config, dirs);
    r.1
}

/// The op at position `k` of a plan arises from file `j` of directory `i`
/// of the snapshot: that directory is included, the file passes every test,
/// and the op is exactly the rename the file receives.
pub open spec fn spec_op_witnessed(
    c: ConfigV,
    dirs: Seq<DirListingV>,
    op: RenameOpV,
    i: int,
    j: int,
) -> bool {
    &&& 0 <= i < dirs.len()
    &&& 0 <= j < dirs[i].files.len()
    &&& spec_dir_included(c, dirs[i].rel_path)
    &&& spec_file_planned(c, dirs[i], dirs[i].files[j])
    &&& op == spec_op(c, dirs[i], dirs[i].files[j])
}

proof fn lemma_files_ops_sound(
    c: ConfigV,
    d: DirListingV,
    fs: Seq<FileEntryV>,
    taken: Seq<Seq<char>>,
    k: int,
) -> (j: int)
    requires
        0 <= k < spec_files_ops(c, d, fs, taken).len(),
    ensures
        0 <= j < fs.len(),
        spec_file_planned(c, d, fs[j]),
        spec_files_ops(c, d, fs, taken)[k] == spec_op(c, d, fs[j]),
    decreases fs.len(),
{
    if spec_file_emitted(c, d, fs[0], taken) {
        if k == 0 {
            0
        } else {
            let j = lemma_files_ops_sound(
                c,
                d,
                fs.drop_first(),
                taken.push(spec_file_dest(fs[0])),
                k - 1,
            );
            assert(fs.drop_first()[j] == fs[j + 1]);
            j + 1
        }
    } else {
        let j = lemma_files_ops_sound(c, d, fs.drop_first(), taken, k);
        assert(fs.drop_first()[j] == fs[j + 1]);
        j + 1
    }
}

proof fn lemma_plan_sound_at(c: ConfigV, dirs: Seq<DirListingV>, k: int) -> (w: (int, int))
    requires
        0 <= k < spec_plan(c, dirs).len(),
    ensures
        spec_op_witnessed(c, dirs, spec_plan(c, dirs)[k], w.0, w.1),
    decreases dirs.len(),
{
    let d_ops = spec_dir_ops(c, dirs[0]);
    if k < d_ops.len() {
        let j = lemma_files_ops_sound(c, dirs[0], dirs[0].files, Seq::empty(), k);
        (0, j)
    } else {
        let w = lemma_plan_sound_at(c, dirs.drop_first(), k - d_ops.len());
        assert(dirs.drop_first()[w.0] == dirs[w.0 + 1]);
        (w.0 + 1, w.1)
    }
}

/// Every op of a plan arises from an eligible file of an included
/// directory: the file's extension is configured, its stem is not already
/// canonical, its destination is free, and its directory is the root or an
/// allowed subdirectory within the depth bound. Returns which directory and
/// file the op at position `k` comes from.
pub proof fn lemma_plan_sound(c: ConfigV, dirs: Seq<DirListingV>, k: int) -> (w: (int, int))
    requires
        0 <= k < spec_plan(c, dirs).len(),
    ensures
        spec_op_witnessed(c, dirs, spec_plan(c, dirs)[k], w.0, w.1),
{
    lemma_plan_sound_at(c, dirs, k)
}

/// Extension filtering: every planned op comes from a file whose extension
/// stands among the configured ones, so a file with any other extension
/// never appears in a plan.
pub proof fn lemma_extension_filtering(c: ConfigV, dirs: Seq<DirListingV>, k: int) -> (w: (
    int,
    int,
))
    requires
        0 <= k < spec_plan(c, dirs).len(),
    ensures
        spec_op_witnessed(c, dirs, spec_plan(c, dirs)[k], w.0, w.1),
        spec_file_ext(dirs[w.0].files[w.1].name) is Some,
        c.extensions.contains(spec_file_ext(dirs[w.0].files[w.1].name)->0),
{
    lemma_plan_sound_at(c, dirs, k)
}

/// Depth bound: every planned op comes from the root itself or from a
/// directory within the configured depth, so a file in a deeper directory
/// never appears in a plan.
pub proof fn lemma_depth_bound(c: ConfigV, dirs: Seq<DirListingV>, k: int) -> (w: (int, int))
    requires
        0 <= k < spec_plan(c, dirs).len(),
    ensures
        spec_op_witnessed(c, dirs, spec_plan(c, dirs)[k], w.0, w.1),
        dirs[w.0].rel_path.len() == 0 || spec_depth_of(dirs[w.0].rel_path) <= c.depth,
{
    lemma_plan_sound_at(c, dirs, k)
}

/// Allow/deny precedence: no planned op comes from a subdirectory whose
/// top-level segment matches a deny pattern, whatever the allow patterns
/// say.
pub proof fn lemma_deny_precedence(c: ConfigV, dirs: Seq<DirListingV>, k: int) -> (w: (int, int))
    requires
        0 <= k < spec_plan(c, dirs).len(),
    ensures
        spec_op_witnessed(c, dirs, spec_plan(c, dirs)[k], w.0, w.1),
        dirs[w.0].rel_path.len() > 0 ==> !(exists|t: int|
            0 <= t < spec_valid_srcs(c.deny).len() && glob_match(
                #[trigger] spec_valid_srcs(c.deny)[t],
                spec_top_segment(dirs[w.0].rel_path),
            )),
{
    lemma_plan_sound_at(c, dirs, k)
}

/// Default exclusion: with no allow patterns, every planned op comes from a
/// file directly in the root; files in any subdirectory are excluded.
pub proof fn lemma_default_exclusion(c: ConfigV, dirs: Seq<DirListingV>, k: int) -> (w: (
    int,
    int,
))
    requires
        c.allow.len() == 0,
        0 <= k < spec_plan(c, dirs).len(),
    ensures
        spec_op_witnessed(c, dirs, spec_plan(c, dirs)[k], w.0, w.1),
        dirs[w.0].rel_path.len() == 0,
{
    let w = lemma_plan_sound_at(c, dirs, k);
    reveal(Seq::filter);
    assert(c.allow =~= Seq::<Seq<char>>::empty());
    assert(spec_valid_srcs(c.allow).len() == 0);
    w
}

/// Conflict avoidance: every planned op comes from a file whose computed
/// destination name no entry of its directory carries; a file whose
/// destination already exists is excluded and the entry at the destination
/// is not touched.
pub proof fn lemma_conflict_avoidance(c: ConfigV, dirs: Seq<DirListingV>, k: int) -> (w: (
    int,
    int,
))
    requires
        0 <= k < spec_plan(c, dirs).len(),
    ensures
        spec_op_witnessed(c, dirs, spec_plan(c, dirs)[k], w.0, w.1),
        !spec_name_exists(
            dirs[w.0],
            spec_dest_name(
                dirs[w.0].files[w.1].date_str,
                spec_file_stem(dirs[w.0].files[w.1].name),
                spec_file_ext(dirs[w.0].files[w.1].name)->0,
            ),
        ),
{
    lemma_plan_sound_at(c, dirs, k)
}

/// One snapshot yields one plan: any two results that meet the planner's
/// contract on the same settings and snapshot are equal.
pub proof fn lemma_plan_deterministic(
    c: ConfigV,
    dirs: Seq<DirListingV>,
    plan1: Seq<RenameOpV>,
    plan2: Seq<RenameOpV>,
)
    requires
        plan1 == spec_plan(c, dirs),
        plan2 == spec_plan(c, dirs),
    ensures
        plan1 == plan2,
{
}

/// No character after the last dot is a dot.
proof fn lemma_after_last_dot(s: Seq<char>)
    ensures
        forall|t: int| spec_last_dot(s) < t < s.len() ==> s[t] != '.',
    decreases s.len(),
{
    lemma_last_dot_range(s);
    if s.len() > 0 && s[s.len() - 1] != '.' {
        lemma_after_last_dot(s.drop_last());
        lemma_last_dot_range(s.drop_last());
        assert forall|t: int| spec_last_dot(s) < t < s.len() implies s[t] != '.' by {
            if t < s.len() - 1 {
                assert(s.drop_last()[t] == s[t]);
            }
        }
    }
}

/// A destination name is itself already in canonical form: its stem begins
/// with the rendered date, which parses back, followed by `-`.
proof fn lemma_dest_already_formatted(
    date: Seq<char>,
    title: Seq<char>,
    ext: Seq<char>,
    fmt: Seq<char>,
)
    requires
        date.len() == spec_estimate_len(fmt),
        date_parses(date, fmt),
        forall|t: int| 0 <= t < ext.len() ==> ext[t] != '.',
    ensures
        spec_already_formatted(spec_file_stem(date + seq!['-'] + title + seq!['.'] + ext), fmt),
{
    let dest = date + seq!['-'] + title + seq!['.'] + ext;
    let pos = date.len() + 1 + title.len();
    assert(dest.len() == pos + 1 + ext.len());
    assert(dest[pos as int] == '.');
    assert forall|t: int| pos < t < dest.len() implies dest[t] != '.' by {
        assert(dest[t] == ext[t - pos - 1]);
    }
    lemma_last_dot_at(dest, pos as int);
    let stem = spec_file_stem(dest);
    assert(stem == dest.take(pos as int));
    let ll = spec_estimate_len(fmt);
    assert(stem[ll as int] == '-');
    assert(stem.take(ll as int) =~= date);
}

/// The destination names that the operations of the first `j` files of one
/// directory claim.
pub open spec fn spec_taken_upto(c: ConfigV, d: DirListingV, fs: Seq<FileEntryV>, j: int) -> Seq<
    Seq<char>,
>
    decreases j,
{
    if j <= 0 {
        Seq::empty()
    } else {
        let t = spec_taken_upto(c, d, fs, j - 1);
        if spec_file_emitted(c, d, fs[j - 1], t) {
            t.push(spec_file_dest(fs[j - 1]))
        } else {
            t
        }
    }
}

/// The files of one directory once the plan has been performed: a file
/// whose rename entered the plan carries its destination name, any other
/// file keeps its own.
pub open spec fn spec_applied_files(c: ConfigV, d: DirListingV) -> Seq<FileEntryV> {
    Seq::new(
        d.files.len(),
        |h: int|
            if spec_file_emitted(c, d, d.files[h], spec_taken_upto(c, d, d.files, h)) {
                FileEntryV { name: spec_file_dest(d.files[h]), date_str: d.files[h].date_str }
            } else {
                d.files[h]
            },
    )
}

/// One directory once the plan has been performed; an excluded directory is
/// untouched.
pub open spec fn spec_applied_dir(c: ConfigV, d: DirListingV) -> DirListingV {
    if spec_dir_included(c, d.rel_path) {
        DirListingV { rel_path: d.rel_path, files: spec_applied_files(c, d), subdirs: d.subdirs }
    } else {
        d
    }
}

/// The snapshot once the plan has been performed.
pub open spec fn spec_applied(c: ConfigV, dirs: Seq<DirListingV>) -> Seq<DirListingV> {
    dirs.map_values(|d: DirListingV| spec_applied_dir(c, d))
}

/// Every name a directory's operations claim is the destination of an
/// earlier file whose rename entered the plan.
proof fn lemma_taken_upto_covered(
    c: ConfigV,
    d: DirListingV,
    fs: Seq<FileEntryV>,
    j: int,
    name: Seq<char>,
)
    requires
        j <= fs.len(),
        spec_taken_upto(c, d, fs, j).contains(name),
    ensures
        exists|h: int|
            0 <= h < j && spec_file_emitted(c, d, #[trigger] fs[h], spec_taken_upto(c, d, fs, h))
                && spec_file_dest(fs[h]) == name,
    decreases j,
{
    if j <= 0 {
        assert(false);
    } else {
        let t = spec_taken_upto(c, d, fs, j - 1);
        if spec_file_emitted(c, d, fs[j - 1], t) {
            let tp = t.push(spec_file_dest(fs[j - 1]));
            if spec_file_dest(fs[j - 1]) == name {
                assert(spec_file_emitted(c, d, fs[j - 1], spec_taken_upto(c, d, fs, j - 1)));
            } else {
                let w = choose|w: int| 0 <= w < tp.len() && tp[w] == name;
                assert(w < t.len());
                assert(t[w] == name);
                lemma_taken_upto_covered(c, d, fs, j - 1, name);
            }
        } else {
            lemma_taken_upto_covered(c, d, fs, j - 1, name);
        }
    }
}

/// Each rendered date in the snapshot has the estimated width and parses
/// back under the format: what chrono guarantees of the timestamps it
/// renders under a well-formed pattern.
pub open spec fn spec_dates_render_canonically(c: ConfigV, dirs: Seq<DirListingV>) -> bool {
    forall|i: int, j: int|
        0 <= i < dirs.len() && 0 <= j < dirs[i].files.len() ==> {
            let f = #[trigger] dirs[i].files[j];
            f.date_str.len() == spec_estimate_len(c.format) && date_parses(f.date_str, c.format)
        }
}

proof fn lemma_files_ops_none(
    c: ConfigV,
    d: DirListingV,
    fs: Seq<FileEntryV>,
    taken: Seq<Seq<char>>,
)
    requires
        forall|j: int| 0 <= j < fs.len() ==> !spec_file_planned(c, d, #[trigger] fs[j]),
    ensures
        spec_files_ops(c, d, fs, taken).len() == 0,
    decreases fs.len(),
{
    if fs.len() > 0 {
        assert forall|j: int|
            0 <= j < fs.drop_first().len() implies !spec_file_planned(
            c,
            d,
            #[trigger] fs.drop_first()[j],
        ) by {
            assert(fs.drop_first()[j] == fs[j + 1]);
        }
        lemma_files_ops_none(c, d, fs.drop_first(), taken);
    }
}

proof fn lemma_applied_not_planned(c: ConfigV, d: DirListingV, j: int)
    requires
        0 <= j < d.files.len(),
        spec_dir_included(c, d.rel_path),
        forall|t: int|
            0 <= t < d.files.len() ==> {
                let f = #[trigger] d.files[t];
                f.date_str.len() == spec_estimate_len(c.format) && date_parses(
                    f.date_str,
                    c.format,
                )
            },
    ensures
        !spec_file_planned(c, spec_applied_dir(c, d), spec_applied_files(c, d)[j]),
{
    let ad = spec_applied_dir(c, d);
    let fs = d.files;
    let f = fs[j];
    let tkj = spec_taken_upto(c, d, fs, j);
    let af = spec_applied_files(c, d)[j];
    if spec_file_emitted(c, d, f, tkj) {
        lemma_after_last_dot(f.name);
        lemma_last_dot_range(f.name);
        let ld = spec_last_dot(f.name);
        let ext = spec_file_ext(f.name)->0;
        assert forall|t: int| 0 <= t < ext.len() implies ext[t] != '.' by {
            assert(ext[t] == f.name[ld + 1 + t]);
        }
        lemma_dest_already_formatted(
            f.date_str,
            spec_slugify(spec_strip_date_prefix(spec_file_stem(f.name))),
            ext,
            c.format,
        );
        assert(spec_already_formatted(spec_file_stem(af.name), c.format));
    } else {
        assert(af == f);
        if spec_file_eligible(c, f) {
            let dest = spec_file_dest(f);
            lemma_after_last_dot(f.name);
            lemma_last_dot_range(f.name);
            let ld = spec_last_dot(f.name);
            let ext = spec_file_ext(f.name)->0;
            assert forall|t: int| 0 <= t < ext.len() implies ext[t] != '.' by {
                assert(ext[t] == f.name[ld + 1 + t]);
            }
            lemma_dest_already_formatted(
                f.date_str,
                spec_slugify(spec_strip_date_prefix(spec_file_stem(f.name))),
                ext,
                c.format,
            );
            if spec_name_exists(d, dest) {
                if exists|h: int| 0 <= h < fs.len() && (#[trigger] fs[h]).name == dest {
                    let h = choose|h: int| 0 <= h < fs.len() && (#[trigger] fs[h]).name == dest;
                    let g = fs[h];
                    assert(spec_already_formatted(spec_file_stem(g.name), c.format));
                    assert(!spec_file_eligible(c, g));
                    assert(!spec_file_emitted(c, d, g, spec_taken_upto(c, d, fs, h)));
                    assert(ad.files == spec_applied_files(c, d));
                    assert(ad.files[h] == g);
                    assert(ad.files[h].name == dest);
                    assert(spec_name_exists(ad, dest));
                } else {
                    let h = choose|h: int|
                        0 <= h < d.subdirs.len() && #[trigger] d.subdirs[h] == dest;
                    assert(ad.subdirs[h] == dest);
                    assert(spec_name_exists(ad, dest));
                }
            } else {
                assert(tkj.contains(dest));
                lemma_taken_upto_covered(c, d, fs, j, dest);
                let h = choose|h: int|
                    0 <= h < j && spec_file_emitted(
                        c,
                        d,
                        #[trigger] fs[h],
                        spec_taken_upto(c, d, fs, h),
                    ) && spec_file_dest(fs[h]) == dest;
                assert(ad.files == spec_applied_files(c, d));
                assert(ad.files[h].name == dest);
                assert(spec_name_exists(ad, dest));
            }
        }
    }
}

proof fn lemma_plan_all_empty(c: ConfigV, ds: Seq<DirListingV>)
    requires
        forall|i: int| 0 <= i < ds.len() ==> spec_dir_ops(c, #[trigger] ds[i]).len() == 0,
    ensures
        spec_plan(c, ds).len() == 0,
    decreases ds.len(),
{
    if ds.len() > 0 {
        assert(spec_dir_ops(c, ds[0]).len() == 0);
        assert forall|i: int|
            0 <= i < ds.drop_first().len() implies spec_dir_ops(
            c,
            #[trigger] ds.drop_first()[i],
        ).len() == 0 by {
            assert(ds.drop_first()[i] == ds[i + 1]);
        }
        lemma_plan_all_empty(c, ds.drop_first());
    }
}

/// Planning is idempotent: once the executor has performed a plan, planning
/// the resulting snapshot again proposes nothing, provided each rendered
/// date has the estimated width and parses back under the format — which is
/// what chrono's rendering guarantees for a well-formed pattern.
pub proof fn lemma_plan_idempotent(c: ConfigV, dirs: Seq<DirListingV>)
    requires
        spec_dates_render_canonically(c, dirs),
    ensures
        spec_plan(c, spec_applied(c, dirs)).len() == 0,
{
    let ads = spec_applied(c, dirs);
    assert forall|i: int| 0 <= i < ads.len() implies spec_dir_ops(c, #[trigger] ads[i]).len()
        == 0 by {
        let d = dirs[i];
        let ad = spec_applied_dir(c, d);
        assert(ads[i] == ad);
        if spec_dir_included(c, ad.rel_path) {
            assert(ad.files == spec_applied_files(c, d));
            assert forall|jj: int|
                0 <= jj < ad.files.len() implies !spec_file_planned(
                c,
                ad,
                #[trigger] ad.files[jj],
            ) by {
                lemma_applied_not_planned(c, d, jj);
            }
            lemma_files_ops_none(c, ad, ad.files, Seq::empty());
        }
    }
    lemma_plan_all_empty(c, ads);
}


/// The destination names of one directory's operations, in plan order.
pub open spec fn spec_files_dests(
    c: ConfigV,
    d: DirListingV,
    fs: Seq<FileEntryV>,
    taken: Seq<Seq<char>>,
) -> Seq<Seq<char>>
    decreases fs.len(),
{
    if fs.len() == 0 {
        Seq::empty()
    } else if spec_file_emitted(c, d, fs[0], taken) {
        seq![spec_file_dest(fs[0])] + spec_files_dests(
            c,
            d,
            fs.drop_first(),
            taken.push(spec_file_dest(fs[0])),
        )
    } else {
        spec_files_dests(c, d, fs.drop_first(), taken)
    }
}

/// Each op's destination path is its directory joined with the matching
/// destination name.
proof fn lemma_files_ops_to(c: ConfigV, d: DirListingV, fs: Seq<FileEntryV>, taken: Seq<Seq<char>>)
    ensures
        spec_files_ops(c, d, fs, taken).len() == spec_files_dests(c, d, fs, taken).len(),
        forall|k: int|
            0 <= k < spec_files_ops(c, d, fs, taken).len() ==> (#[trigger] spec_files_ops(
                c,
                d,
                fs,
                taken,
            )[k]).to == spec_join(c.docs_dir, d.rel_path, spec_files_dests(c, d, fs, taken)[k]),
    decreases fs.len(),
{
    if fs.len() == 0 {
    } else if spec_file_emitted(c, d, fs[0], taken) {
        lemma_files_ops_to(c, d, fs.drop_first(), taken.push(spec_file_dest(fs[0])));
    } else {
        lemma_files_ops_to(c, d, fs.drop_first(), taken);
    }
}

/// The destination names of one directory's operations avoid the names
/// already claimed and never repeat.
proof fn lemma_files_dests_nodup(
    c: ConfigV,
    d: DirListingV,
    fs: Seq<FileEntryV>,
    taken: Seq<Seq<char>>,
)
    ensures
        forall|k: int|
            0 <= k < spec_files_dests(c, d, fs, taken).len() ==> !taken.contains(
                #[trigger] spec_files_dests(c, d, fs, taken)[k],
            ),
        forall|k1: int, k2: int|
            0 <= k1 < k2 < spec_files_dests(c, d, fs, taken).len() ==> spec_files_dests(
                c,
                d,
                fs,
                taken,
            )[k1] != spec_files_dests(c, d, fs, taken)[k2],
    decreases fs.len(),
{
    if fs.len() == 0 {
    } else if spec_file_emitted(c, d, fs[0], taken) {
        let dest0 = spec_file_dest(fs[0]);
        let tp = taken.push(dest0);
        lemma_files_dests_nodup(c, d, fs.drop_first(), tp);
        let ds = spec_files_dests(c, d, fs, taken);
        let dsp = spec_files_dests(c, d, fs.drop_first(), tp);
        assert(tp[taken.len() as int] == dest0);
        assert(tp.contains(dest0));
        assert forall|k: int| 0 <= k < ds.len() implies !taken.contains(#[trigger] ds[k]) by {
            if k == 0 {
            } else {
                assert(ds[k] == dsp[k - 1]);
                assert(!tp.contains(dsp[k - 1]));
                if taken.contains(ds[k]) {
                    let w = choose|w: int| 0 <= w < taken.len() && taken[w] == ds[k];
                    assert(tp[w] == ds[k]);
                    assert(tp.contains(ds[k]));
                    assert(false);
                }
            }
        }
        assert forall|k1: int, k2: int| 0 <= k1 < k2 < ds.len() implies ds[k1] != ds[k2] by {
            if k1 == 0 {
                assert(ds[k2] == dsp[k2 - 1]);
                assert(!tp.contains(dsp[k2 - 1]));
                assert(ds[0] == dest0);
            } else {
                assert(ds[k1] == dsp[k1 - 1]);
                assert(ds[k2] == dsp[k2 - 1]);
            }
        }
    } else {
        lemma_files_dests_nodup(c, d, fs.drop_first(), taken);
        let ds = spec_files_dests(c, d, fs, taken);
        let dsp = spec_files_dests(c, d, fs.drop_first(), taken);
        assert(ds == dsp);
        assert forall|k: int| 0 <= k < ds.len() implies !taken.contains(#[trigger] ds[k]) by {
            assert(ds[k] == dsp[k]);
        }
        assert forall|k1: int, k2: int| 0 <= k1 < k2 < ds.len() implies ds[k1] != ds[k2] by {
            assert(ds[k1] == dsp[k1]);
            assert(ds[k2] == dsp[k2]);
        }
    }
}

/// Each destination name of a plan belongs to an eligible file.
proof fn lemma_files_dests_sound(
    c: ConfigV,
    d: DirListingV,
    fs: Seq<FileEntryV>,
    taken: Seq<Seq<char>>,
    k: int,
) -> (j: int)
    requires
        0 <= k < spec_files_dests(c, d, fs, taken).len(),
    ensures
        0 <= j < fs.len(),
        spec_file_eligible(c, fs[j]),
        spec_files_dests(c, d, fs, taken)[k] == spec_file_dest(fs[j]),
    decreases fs.len(),
{
    if spec_file_emitted(c, d, fs[0], taken) {
        if k == 0 {
            0
        } else {
            let j = lemma_files_dests_sound(
                c,
                d,
                fs.drop_first(),
                taken.push(spec_file_dest(fs[0])),
                k - 1,
            );
            assert(fs.drop_first()[j] == fs[j + 1]);
            j + 1
        }
    } else {
        let j = lemma_files_dests_sound(c, d, fs.drop_first(), taken, k);
        assert(fs.drop_first()[j] == fs[j + 1]);
        j + 1
    }
}

/// No character of the sequence is the path separator `/`.
pub open spec fn spec_no_slash(s: Seq<char>) -> bool {
    forall|t: int| 0 <= t < s.len() ==> #[trigger] s[t] != '/'
}

/// A destination name holds no separator when the date, the slug and the
/// file name hold none.
proof fn lemma_dest_no_slash(f: FileEntryV)
    requires
        spec_file_ext(f.name) is Some,
        spec_no_slash(f.name),
        spec_no_slash(f.date_str),
        spec_no_slash(spec_slugify(spec_strip_date_prefix(spec_file_stem(f.name)))),
    ensures
        spec_no_slash(spec_file_dest(f)),
{
    let date = f.date_str;
    let title = spec_slugify(spec_strip_date_prefix(spec_file_stem(f.name)));
    let ext = spec_file_ext(f.name)->0;
    lemma_last_dot_range(f.name);
    let ld = spec_last_dot(f.name);
    assert forall|t: int| 0 <= t < ext.len() implies ext[t] != '/' by {
        assert(ext[t] == f.name[ld + 1 + t]);
    }
    let dest = spec_file_dest(f);
    let p1 = date.len() as int;
    let p2 = p1 + 1 + title.len();
    assert forall|t: int| 0 <= t < dest.len() implies #[trigger] dest[t] != '/' by {
        if t < p1 {
            assert(dest[t] == date[t]);
        } else if t == p1 {
            assert(dest[t] == '-');
        } else if t < p2 {
            assert(dest[t] == title[t - p1 - 1]);
        } else if t == p2 {
            assert(dest[t] == '.');
        } else {
            assert(dest[t] == ext[t - p2 - 1]);
        }
    }
}

/// Joining separator-free names is injective: equal joined paths come from
/// the same relative path and the same name.
proof fn lemma_join_injective(
    base: Seq<char>,
    rel1: Seq<char>,
    d1: Seq<char>,
    rel2: Seq<char>,
    d2: Seq<char>,
)
    requires
        spec_no_slash(d1),
        spec_no_slash(d2),
        spec_join(base, rel1, d1) == spec_join(base, rel2, d2),
    ensures
        rel1 == rel2,
        d1 == d2,
{
    let s = spec_join(base, rel1, d1);
    let b = base.len() as int;
    if rel1.len() == 0 && rel2.len() == 0 {
        assert(rel1 =~= rel2);
        assert(s.len() == b + 1 + d1.len());
        assert(s.len() == b + 1 + d2.len());
        assert forall|t: int| 0 <= t < d1.len() implies d1[t] == d2[t] by {
            assert(s[b + 1 + t] == d1[t]);
            assert(s[b + 1 + t] == d2[t]);
        }
        assert(d1 =~= d2);
    } else if rel1.len() > 0 && rel2.len() > 0 {
        let p1 = b + 1 + rel1.len();
        let p2 = b + 1 + rel2.len();
        assert(s[p1] == '/');
        assert(s[p2] == '/');
        assert forall|t: int| p1 < t < s.len() implies s[t] != '/' by {
            assert(s[t] == d1[t - p1 - 1]);
        }
        assert forall|t: int| p2 < t < s.len() implies s[t] != '/' by {
            assert(s[t] == d2[t - p2 - 1]);
        }
        assert(p1 == p2);
        assert forall|t: int| 0 <= t < rel1.len() implies rel1[t] == rel2[t] by {
            assert(s[b + 1 + t] == rel1[t]);
            assert(s[b + 1 + t] == rel2[t]);
        }
        assert(rel1 =~= rel2);
        assert forall|t: int| 0 <= t < d1.len() implies d1[t] == d2[t] by {
            assert(s[p1 + 1 + t] == d1[t]);
            assert(s[p1 + 1 + t] == d2[t]);
        }
        assert(d1 =~= d2);
    } else if rel1.len() == 0 {
        let p2 = b + 1 + rel2.len();
        assert forall|t: int| b < t < s.len() implies s[t] != '/' by {
            assert(s[t] == d1[t - b - 1]);
        }
        assert(s[p2] == '/');
        assert(false);
    } else {
        let p1 = b + 1 + rel1.len();
        assert forall|t: int| b < t < s.len() implies s[t] != '/' by {
            assert(s[t] == d2[t - b - 1]);
        }
        assert(s[p1] == '/');
        assert(false);
    }
}

/// The name parts of the snapshot hold no separator: file names cannot, a
/// rendered date holds one only when the format asks for it, and the slug
/// of a separator-free stem holds none, since lower-casing never yields `/`
/// and every non-alphanumeric character becomes `-`.
pub open spec fn spec_snapshot_separator_free(dirs: Seq<DirListingV>) -> bool {
    forall|i: int, j: int|
        0 <= i < dirs.len() && 0 <= j < dirs[i].files.len() ==> {
            let f = #[trigger] dirs[i].files[j];
            &&& spec_no_slash(f.name)
            &&& spec_no_slash(f.date_str)
            &&& spec_no_slash(spec_slugify(spec_strip_date_prefix(spec_file_stem(f.name))))
        }
}

/// Destinations never collide with each other: any two operations of one
/// plan name different destination paths, by construction — provided the
/// snapshot lists each directory once and its name parts hold no separator.
pub proof fn lemma_plan_destinations_distinct(c: ConfigV, dirs: Seq<DirListingV>)
    requires
        forall|i1: int, i2: int|
            0 <= i1 < i2 < dirs.len() ==> (#[trigger] dirs[i1]).rel_path != (
            #[trigger] dirs[i2]).rel_path,
        spec_snapshot_separator_free(dirs),
    ensures
        forall|k1: int, k2: int|
            0 <= k1 < k2 < spec_plan(c, dirs).len() ==> (#[trigger] spec_plan(c, dirs)[k1]).to != (
            #[trigger] spec_plan(c, dirs)[k2]).to,
    decreases dirs.len(),
{
    if dirs.len() > 0 {
        let d0 = dirs[0];
        let head = spec_dir_ops(c, d0);
        let rest = dirs.drop_first();
        let plan = spec_plan(c, dirs);
        assert forall|i1: int, i2: int|
            0 <= i1 < i2 < rest.len() implies (#[trigger] rest[i1]).rel_path != (
        #[trigger] rest[i2]).rel_path by {
            assert(rest[i1] == dirs[i1 + 1]);
            assert(rest[i2] == dirs[i2 + 1]);
        }
        assert forall|i: int, j: int|
            0 <= i < rest.len() && 0 <= j < (#[trigger] rest[i]).files.len() implies {
                let f = #[trigger] rest[i].files[j];
                &&& spec_no_slash(f.name)
                &&& spec_no_slash(f.date_str)
                &&& spec_no_slash(spec_slugify(spec_strip_date_prefix(spec_file_stem(f.name))))
            } by {
            assert(rest[i] == dirs[i + 1]);
            assert(rest[i].files[j] == dirs[i + 1].files[j]);
        }
        lemma_plan_destinations_distinct(c, rest);
        lemma_files_ops_to(c, d0, d0.files, Seq::empty());
        lemma_files_dests_nodup(c, d0, d0.files, Seq::empty());
        assert forall|k1: int, k2: int|
            0 <= k1 < k2 < plan.len() implies (#[trigger] plan[k1]).to != (
        #[trigger] plan[k2]).to by {
            let hl = head.len() as int;
            if k2 < hl {
                let ds = spec_files_dests(c, d0, d0.files, Seq::empty());
                assert(plan[k1] == head[k1]);
                assert(plan[k2] == head[k2]);
                assert(plan[k1].to == spec_join(c.docs_dir, d0.rel_path, ds[k1]));
                assert(plan[k2].to == spec_join(c.docs_dir, d0.rel_path, ds[k2]));
                assert(ds[k1] != ds[k2]);
                let j1 = lemma_files_dests_sound(c, d0, d0.files, Seq::empty(), k1);
                let j2 = lemma_files_dests_sound(c, d0, d0.files, Seq::empty(), k2);
                lemma_dest_no_slash(d0.files[j1]);
                lemma_dest_no_slash(d0.files[j2]);
                if plan[k1].to == plan[k2].to {
                    lemma_join_injective(c.docs_dir, d0.rel_path, ds[k1], d0.rel_path, ds[k2]);
                    assert(false);
                }
            } else if k1 < hl {
                let ds = spec_files_dests(c, d0, d0.files, Seq::empty());
                assert(plan[k1] == head[k1]);
                assert(plan[k1].to == spec_join(c.docs_dir, d0.rel_path, ds[k1]));
                let j1 = lemma_files_dests_sound(c, d0, d0.files, Seq::empty(), k1);
                lemma_dest_no_slash(d0.files[j1]);
                assert(plan[k2] == spec_plan(c, rest)[k2 - hl]);
                let w = lemma_plan_sound_at(c, rest, k2 - hl);
                let dw = rest[w.0];
                assert(dw == dirs[w.0 + 1]);
                let fw = dw.files[w.1];
                assert(plan[k2].to == spec_join(c.docs_dir, dw.rel_path, spec_file_dest(fw)));
                assert(dirs[0].rel_path != dirs[w.0 + 1].rel_path);
                lemma_dest_no_slash(fw);
                if plan[k1].to == plan[k2].to {
                    lemma_join_injective(
                        c.docs_dir,
                        d0.rel_path,
                        ds[k1],
                        dw.rel_path,
                        spec_file_dest(fw),
                    );
                    assert(false);
                }
            } else {
                assert(plan[k1] == spec_plan(c, rest)[k1 - hl]);
                assert(plan[k2] == spec_plan(c, rest)[k2 - hl]);
            }
        }
    }
}

} // verus!
