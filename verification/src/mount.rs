//! Mounting: the snapshot a caller uploads, the server-side shadow project
//! it lands in, and the dependency-manifest rewrite the snapshot builder
//! performs.
//!
//! The shadow project is modeled as a map from project-relative paths to
//! file contents; a mount folds its entries into that map in order, so a
//! later entry or a later mount at the same path silently supersedes the
//! earlier one.
use vstd::prelude::*;
use vstd::string::StrSliceExecFns;
use crate::codec::string_to_chars;
use crate::errors::MiniModalError;
use crate::text::find_sub;
use crate::text::find_sub_from;
use crate::text::is_prefix;
use crate::text::lines_from;
use crate::text::matches_at;
use crate::text::split_lines;
use crate::text::str_eq;

verus! {

/// One file of a mounted snapshot: a project-relative path and raw bytes.
#[derive(Debug)]
pub struct FileEntry {
    pub file_path: String,
    pub content: Vec<u8>,
}

/// An ordered collection of files to mount.
#[derive(Debug)]
pub struct MountRequest {
    pub files: Vec<FileEntry>,
}

/// A path that would leave the project root: an absolute path, or one that
/// walks through a `..` segment.
pub open spec fn path_escapes(p: Seq<char>) -> bool {
    ||| p.len() == 0
    ||| p[0] == '/'
    ||| p == ".."@
    ||| is_prefix(p, "../"@)
    ||| find_sub_from(p, "/../"@, 0) is Some
    ||| (p.len() >= 3 && p.subrange(p.len() - 3, p.len() as int) == "/.."@)
}

/// Whether writing `p` would leave the project root, exactly as
/// `path_escapes` describes.
pub fn path_escapes_check(p: &str) -> (r: bool)
    ensures
        r == path_escapes(p@),
{
    proof {
        reveal_strlit("..");
        reveal_strlit("../");
        reveal_strlit("/..");
        reveal_strlit("/../");
    }
    let chars = string_to_chars(p);
    if chars.len() == 0 {
        return true;
    }
    if chars[0] == '/' {
        return true;
    }
    let dotdot = string_to_chars("..");
    if chars.len() == 2 && matches_at(&chars, &dotdot, 0) {
        assert(p@ =~= ".."@) by {
            assert(p@.subrange(0, 2) =~= p@);
        }
        return true;
    }
    proof {
        if p@ == ".."@ {
            assert(p@.len() == ".."@.len());
            assert(p@.subrange(0, 2) =~= p@);
        }
    }
    let updir = string_to_chars("../");
    if chars.len() >= 3 && matches_at(&chars, &updir, 0) {
        return true;
    }
    proof {
        if is_prefix(p@, "../"@) {
            assert(p@.len() >= "../"@.len());
        }
    }
    let inner = string_to_chars("/../");
    match find_sub(&chars, &inner) {
        Some(_) => {
            return true;
        },
        None => {},
    }
    let tail = string_to_chars("/..");
    if chars.len() >= 3 {
        let at = chars.len() - 3;
        if matches_at(&chars, &tail, at) {
            assert(p@.subrange(p@.len() - 3, p@.len() as int) == "/.."@);
            return true;
        }
        assert(p@.subrange(p@.len() - 3, p@.len() as int) != "/.."@);
    }
    proof {
        if path_escapes(p@) {
            assert(p@.len() >= 3 && p@.subrange(p@.len() - 3, p@.len() as int) == "/.."@);
        }
    }
    false
}

/// A mount request the receiver accepts: every path stays under the project
/// root, and no path repeats within the request.
pub open spec fn wf_mount_request(files: Seq<FileEntry>) -> bool {
    &&& forall|i: int| 0 <= i < files.len() ==> !path_escapes((#[trigger] files[i]).file_path@)
    &&& forall|i: int, j: int|
        0 <= i < j < files.len() ==> (#[trigger] files[i]).file_path@ != (
        #[trigger] files[j]).file_path@
}

/// Whether the receiver accepts the request, exactly as `wf_mount_request`
/// describes.
pub fn mount_request_ok(files: &Vec<FileEntry>) -> (r: bool)
    ensures
        r == wf_mount_request(files@),
{
    let n = files.len();
    let mut i: usize = 0;
    while i < n
        invariant
            i <= n,
            n == files@.len(),
            forall|m: int| 0 <= m < i ==> !path_escapes((#[trigger] files@[m]).file_path@),
            forall|m: int, l: int|
                0 <= m < l < i ==> (#[trigger] files@[m]).file_path@ != (
                #[trigger] files@[l]).file_path@,
        decreases n - i,
    {
        if path_escapes_check(files[i].file_path.as_str()) {
            return false;
        }
        let mut j: usize = 0;
        while j < i
            invariant
                j <= i < n,
                n == files@.len(),
                forall|m: int| 0 <= m < j ==> (#[trigger] files@[m]).file_path@ != files@[
                    i as int].file_path@,
            decreases i - j,
        {
            if str_eq(files[j].file_path.as_str(), files[i].file_path.as_str()) {
                return false;
            }
            j = j + 1;
        }
        i = i + 1;
    }
    true
}

/// The server-local shadow project: every file ever mounted, in write
/// order.  Its view is the current tree: the last write at each path wins.
#[derive(Debug)]
pub struct ShadowStore {
    pub files: Vec<(String, Vec<u8>)>,
}

/// The tree a write history stands for.
pub open spec fn store_map(files: Seq<(String, Vec<u8>)>) -> Map<Seq<char>, Seq<u8>>
    decreases files.len(),
{
    if files.len() == 0 {
        Map::empty()
    } else {
        store_map(files.drop_last()).insert(files.last().0@, files.last().1@)
    }
}

impl View for ShadowStore {
    type V = Map<Seq<char>, Seq<u8>>;

    open spec fn view(&self) -> Map<Seq<char>, Seq<u8>> {
        store_map(self.files@)
    }
}

/// A mount's effect on the tree: each entry written in order, overwriting
/// whatever stood at its path.
pub open spec fn apply_files(m: Map<Seq<char>, Seq<u8>>, files: Seq<FileEntry>) -> Map<
    Seq<char>,
    Seq<u8>,
>
    decreases files.len(),
{
    if files.len() == 0 {
        m
    } else {
        apply_files(m.insert(files[0].file_path@, files[0].content@), files.drop_first())
    }
}

/// The receiver's answer to a mount.
#[derive(Debug)]
pub enum MountResult {
    Success(String),
    Failure(String),
}

impl ShadowStore {
    /// A fresh, empty shadow project.
    pub fn new() -> (r: ShadowStore)
        ensures
            r@ == Map::<Seq<char>, Seq<u8>>::empty(),
    {
        ShadowStore { files: Vec::new() }
    }

    /// Writes one file: after it, the tree holds `content` at `path` and is
    /// unchanged elsewhere.
    pub fn write(&mut self, path: String, content: Vec<u8>)
        ensures
            final(self)@ == old(self)@.insert(path@, content@),
    {
        let ghost p = path@;
        let ghost c = content@;
        self.files.push((path, content));
        proof {
            assert(self.files@.drop_last() =~= old(self).files@);
            assert(store_map(self.files@) == store_map(old(self).files@).insert(p, c));
        }
    }

    /// The current content at a path: what the latest write there left, or
    /// nothing when the path was never written.
    pub fn read(&self, path: &str) -> (r: Option<&Vec<u8>>)
        ensures
            match r {
                Some(c) => self@.contains_key(path@) && self@[path@] == c@,
                None => !self@.contains_key(path@),
            },
    {
        assert(self.files@.take(self.files@.len() as int) =~= self.files@);
        self.read_prefix(path, self.files.len())
    }

    /// The content at a path considering only the first `k` writes.
    fn read_prefix(&self, path: &str, k: usize) -> (r: Option<&Vec<u8>>)
        requires
            k <= self.files@.len(),
        ensures
            ({
                let m = store_map(self.files@.take(k as int));
                match r {
                    Some(c) => m.contains_key(path@) && m[path@] == c@,
                    None => !m.contains_key(path@),
                }
            }),
        decreases k,
    {
        if k == 0 {
            assert(self.files@.take(0) =~= Seq::<(String, Vec<u8>)>::empty());
            return None;
        }
        proof {
            assert(self.files@.take(k as int).drop_last() =~= self.files@.take(k as int - 1));
            assert(self.files@.take(k as int).last() == self.files@[k as int - 1]);
        }
        if str_eq(self.files[k - 1].0.as_str(), path) {
            Some(&self.files[k - 1].1)
        } else {
            self.read_prefix(path, k - 1)
        }
    }

    /// Mounts a request: accepts it exactly when it is well formed, and then
    /// folds every entry into the tree, in order.  A refused request leaves
    /// the tree untouched.
    pub fn mount_project(&mut self, req: MountRequest) -> (r: MountResult)
        ensures
            match r {
                MountResult::Success(msg) => {
                    &&& wf_mount_request(req.files@)
                    &&& final(self)@ == apply_files(old(self)@, req.files@)
                    &&& msg@ == "Mounted project"@
                },
                MountResult::Failure(msg) => {
                    &&& !wf_mount_request(req.files@)
                    &&& final(self)@ == old(self)@
                    &&& msg@ == "mount request refused: a path leaves the project root or repeats"@
                },
            },
    {
        if !mount_request_ok(&req.files) {
            let mut m = String::new();
            m.append("mount request refused: a path leaves the project root or repeats");
            return MountResult::Failure(m);
        }
        let mut files = req.files;
        let ghost all = files@;
        let ghost m0 = self@;
        while files.len() > 0
            invariant
                apply_files(m0, all) == apply_files(self@, files@),
            decreases files@.len(),
        {
            let ghost fseq = files@;
            let ghost mpre = self@;
            let entry = files.remove(0);
            let ghost ep = entry.file_path@;
            let ghost ec = entry.content@;
            proof {
                assert(fseq[0] == entry);
                assert(files@ =~= fseq.drop_first());
            }
            self.write(entry.file_path, entry.content);
            proof {
                assert(apply_files(mpre, fseq) == apply_files(mpre.insert(ep, ec), fseq.drop_first()));
            }
        }
        proof {
            assert(files@.len() == 0);
            assert(apply_files(self@, files@) == self@);
        }
        let mut m = String::new();
        m.append("Mounted project");
        MountResult::Success(m)
    }
}

/// Mounting a file and then mounting another at the same path leaves the
/// later content, and only the later content, at that path.
pub proof fn lemma_mount_overwrite(
    m: Map<Seq<char>, Seq<u8>>,
    e1: FileEntry,
    e2: FileEntry,
)
    requires
        e1.file_path@ == e2.file_path@,
    ensures
        apply_files(apply_files(m, seq![e1]), seq![e2]) == apply_files(m, seq![e2]),
        apply_files(apply_files(m, seq![e1]), seq![e2])[e2.file_path@] == e2.content@,
{
    let s1 = seq![e1];
    let s2 = seq![e2];
    assert(s1.len() == 1 && s1[0] == e1);
    assert(s2.len() == 1 && s2[0] == e2);
    assert(s1.drop_first() =~= Seq::<FileEntry>::empty());
    assert(s2.drop_first() =~= Seq::<FileEntry>::empty());
    let m1 = m.insert(e1.file_path@, e1.content@);
    assert(apply_files(m1, s1.drop_first()) == m1);
    assert(apply_files(m, s1) == m1);
    let m12 = m1.insert(e2.file_path@, e2.content@);
    assert(apply_files(m12, s2.drop_first()) == m12);
    assert(apply_files(m1, s2) == m12);
    let m2 = m.insert(e2.file_path@, e2.content@);
    assert(apply_files(m2, s2.drop_first()) == m2);
    assert(apply_files(m, s2) == m2);
    assert(m12 =~= m2);
}

/// A mount that touches none of a path leaves that path's content alone:
/// concurrent invocations writing distinct artifact paths cannot see one
/// another's files change.
pub proof fn lemma_mount_isolation(
    m: Map<Seq<char>, Seq<u8>>,
    files: Seq<FileEntry>,
    other: Seq<char>,
)
    requires
        forall|i: int| 0 <= i < files.len() ==> (#[trigger] files[i]).file_path@ != other,
    ensures
        apply_files(m, files).contains_key(other) == m.contains_key(other),
        m.contains_key(other) ==> apply_files(m, files)[other] == m[other],
    decreases files.len(),
{
    if files.len() > 0 {
        assert(files[0].file_path@ != other);
        let m2 = m.insert(files[0].file_path@, files[0].content@);
        assert forall|i: int| 0 <= i < files.drop_first().len() implies (#[trigger] files.drop_first()[i]).file_path@
            != other by {
            assert(files.drop_first()[i] == files[i + 1]);
        }
        lemma_mount_isolation(m2, files.drop_first(), other);
    }
}

/// One resolved dependency of the caller's project.  A pinned dependency
/// (a path or source-control reference) cannot be reproduced server-side
/// and is left out of the rewritten manifest.
#[derive(Debug)]
pub struct DepSpec {
    pub name: String,
    pub version: String,
    pub pinned: bool,
}

/// The manifest's lines with every dependency section removed: a
/// `[dependencies]` header and the entries under it disappear; every other
/// line stays, in order.
pub open spec fn strip_deps(lv: Seq<Seq<char>>, i: int, in_deps: bool) -> Seq<Seq<char>>
    decreases lv.len() - i,
{
    if i < 0 || i >= lv.len() {
        Seq::empty()
    } else {
        let l = lv[i];
        if l == "[dependencies]"@ {
            strip_deps(lv, i + 1, true)
        } else if l.len() > 0 && l[0] == '[' {
            seq![l] + strip_deps(lv, i + 1, false)
        } else if in_deps {
            strip_deps(lv, i + 1, true)
        } else {
            seq![l] + strip_deps(lv, i + 1, false)
        }
    }
}

/// Lines joined back into text, each ending in a newline.
pub open spec fn join_lines(ls: Seq<Seq<char>>) -> Seq<char>
    decreases ls.len(),
{
    if ls.len() == 0 {
        Seq::empty()
    } else {
        ls[0] + seq!['\n'] + join_lines(ls.drop_first())
    }
}

/// One `name = "version"` manifest line per dependency that is not pinned,
/// in order.
pub open spec fn dep_lines(deps: Seq<DepSpec>) -> Seq<Seq<char>>
    decreases deps.len(),
{
    if deps.len() == 0 {
        Seq::empty()
    } else if deps[0].pinned {
        dep_lines(deps.drop_first())
    } else {
        seq![deps[0].name@ + " = \""@ + deps[0].version@ + "\""@] + dep_lines(deps.drop_first())
    }
}

/// The rewritten manifest's lines: the original lines with every dependency
/// section truncated away, then one fresh `[dependencies]` header, then one
/// line per resolved dependency.
pub open spec fn rewritten_manifest_lines(text: Seq<char>, deps: Seq<DepSpec>) -> Seq<Seq<char>> {
    strip_deps(lines_from(text, 0), 0, false) + seq!["[dependencies]"@] + dep_lines(deps)
}

/// The rewritten manifest text.
pub open spec fn manifest_rewrite(text: Seq<char>, deps: Seq<DepSpec>) -> Seq<char> {
    join_lines(rewritten_manifest_lines(text, deps))
}

/// Appends the joined, stripped lines `lv[k..]`.
fn push_stripped(
    out: &mut String,
    lines: &Vec<String>,
    k: usize,
    in_deps: bool,
    Ghost(lv): Ghost<Seq<Seq<char>>>,
)
    requires
        lines@.len() == lv.len(),
        forall|m: int| 0 <= m < lv.len() ==> (#[trigger] lines@[m])@ == lv[m],
        k <= lv.len(),
    ensures
        final(out)@ == old(out)@ + join_lines(strip_deps(lv, k as int, in_deps)),
    decreases lv.len() - k,
{
    if k == lines.len() {
        assert(join_lines(strip_deps(lv, k as int, in_deps)) =~= Seq::<char>::empty());
        return ;
    }
    let l = &lines[k];
    assert(l@ == lv[k as int]);
    if str_eq(l.as_str(), "[dependencies]") {
        push_stripped(out, lines, k + 1, true, Ghost(lv));
    } else {
        let is_header = crate::text::starts_with(l.as_str(), "[");
        proof {
            reveal_strlit("[");
            if is_header {
                assert(l@.subrange(0, 1) =~= seq!['[']);
                assert(l@.subrange(0, 1)[0] == l@[0]);
                assert(l@[0] == '[');
            } else {
                if l@.len() > 0 && l@[0] == '[' {
                    assert(l@.subrange(0, 1) =~= "["@);
                }
            }
        }
        if is_header {
            out.append(l.as_str());
            out.append("\n");
            push_stripped(out, lines, k + 1, false, Ghost(lv));
            proof {
                let stripped = strip_deps(lv, k as int, in_deps);
                assert(stripped == seq![lv[k as int]] + strip_deps(lv, k as int + 1, false));
                assert(stripped[0] == lv[k as int]);
                assert(stripped.drop_first() =~= strip_deps(lv, k as int + 1, false));
                reveal_strlit("\n");
                assert("\n"@ =~= seq!['\n']);
                assert(old(out)@ + lv[k as int] + "\n"@ + join_lines(
                    strip_deps(lv, k as int + 1, false),
                ) =~= old(out)@ + join_lines(stripped));
            }
        } else if in_deps {
            push_stripped(out, lines, k + 1, true, Ghost(lv));
        } else {
            out.append(l.as_str());
            out.append("\n");
            push_stripped(out, lines, k + 1, false, Ghost(lv));
            proof {
                let stripped = strip_deps(lv, k as int, in_deps);
                assert(stripped == seq![lv[k as int]] + strip_deps(lv, k as int + 1, false));
                assert(stripped[0] == lv[k as int]);
                assert(stripped.drop_first() =~= strip_deps(lv, k as int + 1, false));
                reveal_strlit("\n");
                assert("\n"@ =~= seq!['\n']);
                assert(old(out)@ + lv[k as int] + "\n"@ + join_lines(
                    strip_deps(lv, k as int + 1, false),
                ) =~= old(out)@ + join_lines(stripped));
            }
        }
    }
}

/// Appends the joined dependency lines for `deps[k..]`.
fn push_dep_lines(out: &mut String, deps: &Vec<DepSpec>, k: usize)
    requires
        k <= deps@.len(),
    ensures
        final(out)@ == old(out)@ + join_lines(dep_lines(deps@.skip(k as int))),
    decreases deps@.len() - k,
{
    if k == deps.len() {
        assert(deps@.skip(k as int) =~= Seq::<DepSpec>::empty());
        assert(join_lines(dep_lines(deps@.skip(k as int))) =~= Seq::<char>::empty());
        return ;
    }
    proof {
        let rest = deps@.skip(k as int);
        assert(rest[0] == deps@[k as int]);
        assert(rest.drop_first() =~= deps@.skip(k as int + 1));
    }
    if deps[k].pinned {
        push_dep_lines(out, deps, k + 1);
    } else {
        out.append(deps[k].name.as_str());
        out.append(" = \"");
        out.append(deps[k].version.as_str());
        out.append("\"");
        out.append("\n");
        push_dep_lines(out, deps, k + 1);
        proof {
            let rest = deps@.skip(k as int);
            let line = rest[0].name@ + " = \""@ + rest[0].version@ + "\""@;
            assert(dep_lines(rest) == seq![line] + dep_lines(rest.drop_first()));
            assert(dep_lines(rest)[0] == line);
            assert(dep_lines(rest).drop_first() =~= dep_lines(rest.drop_first()));
            reveal_strlit("\n");
            assert("\n"@ =~= seq!['\n']);
            assert(old(out)@ + line + "\n"@ + join_lines(dep_lines(deps@.skip(k as int + 1))) =~= old(
                out,
            )@ + join_lines(dep_lines(rest)));
        }
    }
}

/// Rewrites the caller's dependency manifest for the shadow project:
/// truncates any existing dependency section and appends a fresh
/// `[dependencies]` section with one `name = "version"` line per resolved,
/// unpinned dependency.
pub fn build_cargo_toml(cargo_toml_content: &str, deps: &Vec<DepSpec>) -> (r: String)
    ensures
        r@ == manifest_rewrite(cargo_toml_content@, deps@),
{
    let chars = string_to_chars(cargo_toml_content);
    let lines = split_lines(&chars, 0);
    let ghost lv = lines_from(chars@, 0);
    let mut out = String::new();
    push_stripped(&mut out, &lines, 0, false, Ghost(lv));
    out.append("[dependencies]\n");
    proof {
        assert(deps@.skip(0) =~= deps@);
        reveal_strlit("\n");
        reveal_strlit("[dependencies]");
        reveal_strlit("[dependencies]\n");
        assert("[dependencies]\n"@ =~= "[dependencies]"@ + "\n"@);
    }
    push_dep_lines(&mut out, deps, 0);
    proof {
        let stripped = strip_deps(lv, 0, false);
        let hdr = seq!["[dependencies]"@];
        let dl = dep_lines(deps@);
        lemma_join_lines_concat(stripped, hdr + dl);
        lemma_join_lines_concat(hdr, dl);
        assert(hdr.drop_first() =~= Seq::<Seq<char>>::empty());
        assert(join_lines(Seq::<Seq<char>>::empty()) == Seq::<char>::empty());
        assert(hdr[0] == "[dependencies]"@);
        assert(join_lines(hdr) =~= "[dependencies]"@ + seq!['\n']);
        assert("\n"@ =~= seq!['\n']);
        assert(stripped + hdr + dl =~= stripped + (hdr + dl));
        assert(out@ =~= manifest_rewrite(cargo_toml_content@, deps@));
    }
    out
}

proof fn lemma_join_lines_concat(a: Seq<Seq<char>>, b: Seq<Seq<char>>)
    ensures
        join_lines(a + b) == join_lines(a) + join_lines(b),
    decreases a.len(),
{
    if a.len() == 0 {
        assert(a + b =~= b);
        assert(join_lines(a) =~= Seq::<char>::empty());
        assert(join_lines(a) + join_lines(b) =~= join_lines(b));
    } else {
        assert((a + b)[0] == a[0]);
        assert((a + b).drop_first() =~= a.drop_first() + b);
        lemma_join_lines_concat(a.drop_first(), b);
        assert(join_lines(a + b) == (a + b)[0] + seq!['\n'] + join_lines((a + b).drop_first()));
        assert(a[0] + seq!['\n'] + (join_lines(a.drop_first()) + join_lines(b)) =~= (a[0]
            + seq!['\n'] + join_lines(a.drop_first())) + join_lines(b));
    }
}

/// How many lines are exactly the dependency-section header.
pub open spec fn count_dep_headers(ls: Seq<Seq<char>>) -> int
    decreases ls.len(),
{
    if ls.len() == 0 {
        0
    } else {
        (if ls[0] == "[dependencies]"@ {
            1int
        } else {
            0int
        }) + count_dep_headers(ls.drop_first())
    }
}

proof fn lemma_count_dep_headers_concat(a: Seq<Seq<char>>, b: Seq<Seq<char>>)
    ensures
        count_dep_headers(a + b) == count_dep_headers(a) + count_dep_headers(b),
    decreases a.len(),
{
    if a.len() == 0 {
        assert(a + b =~= b);
    } else {
        assert((a + b)[0] == a[0]);
        assert((a + b).drop_first() =~= a.drop_first() + b);
        lemma_count_dep_headers_concat(a.drop_first(), b);
    }
}

proof fn lemma_strip_deps_no_header(lv: Seq<Seq<char>>, i: int, in_deps: bool)
    ensures
        count_dep_headers(strip_deps(lv, i, in_deps)) == 0,
    decreases lv.len() - i,
{
    reveal_strlit("[dependencies]");
    if 0 <= i < lv.len() {
        let l = lv[i];
        if l == "[dependencies]"@ {
            lemma_strip_deps_no_header(lv, i + 1, true);
        } else if l.len() > 0 && l[0] == '[' {
            lemma_strip_deps_no_header(lv, i + 1, false);
            assert(strip_deps(lv, i, in_deps).drop_first() =~= strip_deps(lv, i + 1, false));
        } else if in_deps {
            lemma_strip_deps_no_header(lv, i + 1, true);
        } else {
            lemma_strip_deps_no_header(lv, i + 1, false);
            assert(strip_deps(lv, i, in_deps).drop_first() =~= strip_deps(lv, i + 1, false));
        }
    }
}

proof fn lemma_dep_lines_no_header(deps: Seq<DepSpec>)
    ensures
        count_dep_headers(dep_lines(deps)) == 0,
    decreases deps.len(),
{
    if deps.len() > 0 {
        lemma_dep_lines_no_header(deps.drop_first());
        if !deps[0].pinned {
            let line = deps[0].name@ + " = \""@ + deps[0].version@ + "\""@;
            reveal_strlit("[dependencies]");
            reveal_strlit("\"");
            assert(line.last() == '"');
            if line == "[dependencies]"@ {
                assert(line.last() == ']');
                assert(false);
            }
            assert(dep_lines(deps)[0] == line);
            assert(dep_lines(deps).drop_first() =~= dep_lines(deps.drop_first()));
        }
    }
}

/// The merge never produces a duplicate manifest section: the rewritten
/// manifest holds exactly one dependency-section header, whatever the
/// incoming manifest held.
pub proof fn lemma_manifest_single_dep_section(text: Seq<char>, deps: Seq<DepSpec>)
    ensures
        count_dep_headers(rewritten_manifest_lines(text, deps)) == 1,
{
    let stripped = strip_deps(lines_from(text, 0), 0, false);
    let hdr = seq!["[dependencies]"@];
    let dl = dep_lines(deps);
    lemma_strip_deps_no_header(lines_from(text, 0), 0, false);
    lemma_dep_lines_no_header(deps);
    lemma_count_dep_headers_concat(stripped, hdr + dl);
    lemma_count_dep_headers_concat(hdr, dl);
    assert(hdr.drop_first() =~= Seq::<Seq<char>>::empty());
    assert(count_dep_headers(Seq::<Seq<char>>::empty()) == 0);
    assert(hdr[0] == "[dependencies]"@);
    assert(count_dep_headers(hdr) == 1);
    assert(stripped + hdr + dl =~= stripped + (hdr + dl));
}

/// Whether the snapshot walk leaves a file out: true exactly when the
/// file's project-relative path begins with one of the exclusion prefixes.
pub fn should_exclude(path: &str, filter_entries: &Vec<String>) -> (r: bool)
    ensures
        r == exists|i: int|
            0 <= i < filter_entries@.len() && is_prefix(path@, (#[trigger] filter_entries@[i])@),
{
    let n = filter_entries.len();
    let mut k: usize = 0;
    while k < n
        invariant
            k <= n,
            n == filter_entries@.len(),
            forall|i: int| 0 <= i < k ==> !is_prefix(path@, (#[trigger] filter_entries@[i])@),
        decreases n - k,
    {
        if crate::text::starts_with(path, filter_entries[k].as_str()) {
            return true;
        }
        k = k + 1;
    }
    false
}

/// Relies on `String::from_utf8`: it succeeds exactly on valid UTF-8 and
/// decodes it to the characters those bytes encode.
#[verifier::external_body]
fn bytes_to_string(b: &Vec<u8>) -> (r: Option<String>)
    ensures
        match r {
            Some(s) => vstd::utf8::valid_utf8(b@) && vstd::utf8::encode_utf8(s@) == b@,
            None => !vstd::utf8::valid_utf8(b@),
        },
{
    std::string::String::from_utf8(b.clone()).ok()
}

/// Builds the mount request for a walked project tree: the caller's entry
/// source, stripped of its bootstrap, is added under a fresh path, and the
/// dependency manifest is rewritten with the resolved dependency list.
/// Fails when the tree has no entry source, no manifest or more than one
/// manifest, or when either file is not UTF-8 text.
pub fn build_snapshot(files: Vec<FileEntry>, deps: &Vec<DepSpec>) -> (r: Result<
    MountRequest,
    MiniModalError,
>)
    ensures
        match r {
            Ok(req) => exists|mi: int, ci: int|
                {
                    &&& 0 <= mi < files@.len()
                    &&& (#[trigger] files@[mi]).file_path@ == "src/main.rs"@
                    &&& 0 <= ci < files@.len()
                    &&& (#[trigger] files@[ci]).file_path@ == "Cargo.toml"@
                    &&& req.files@.len() == files@.len() + 1
                    &&& (forall|i: int|
                        0 <= i < files@.len() && i != ci ==> #[trigger] req.files@[i] == files@[i])
                    &&& req.files@[ci].file_path@ == "Cargo.toml"@
                    &&& (exists|s: Seq<char>|
                        vstd::utf8::encode_utf8(s) == files@[ci].content@
                            && req.files@[ci].content@ == vstd::utf8::encode_utf8(
                            #[trigger] manifest_rewrite(s, deps@),
                        ))
                    &&& req.files@.last().file_path@ == "src/original_main.rs"@
                    &&& (exists|s: Seq<char>|
                        vstd::utf8::encode_utf8(s) == files@[mi].content@
                            && req.files@.last().content@ == vstd::utf8::encode_utf8(
                            #[trigger] crate::parse_file::stripped_entry_text(s),
                        ))
                },
            Err(e) => {
                &&& e is OtherError
                &&& {
                    ||| (e.message_spec() == "src/main.rs does not exist"@ && forall|i: int|
                        0 <= i < files@.len() ==> (#[trigger] files@[i]).file_path@
                            != "src/main.rs"@)
                    ||| (e.message_spec() == "src/main.rs is not valid UTF-8"@ && exists|i: int|
                        0 <= i < files@.len() && (#[trigger] files@[i]).file_path@
                            == "src/main.rs"@ && !vstd::utf8::valid_utf8(files@[i].content@))
                    ||| (e.message_spec() == "Cargo.toml not found in the project"@ && forall|
                        i: int,
                    |
                        0 <= i < files@.len() ==> (#[trigger] files@[i]).file_path@
                            != "Cargo.toml"@)
                    ||| (e.message_spec() == "more than one manifest in the project"@ && exists|
                        i: int,
                        j: int,
                    |
                        0 <= i < j < files@.len() && (#[trigger] files@[i]).file_path@
                            == "Cargo.toml"@ && (#[trigger] files@[j]).file_path@ == "Cargo.toml"@)
                    ||| (e.message_spec() == "Cargo.toml is not valid UTF-8"@ && exists|i: int|
                        0 <= i < files@.len() && (#[trigger] files@[i]).file_path@ == "Cargo.toml"@
                            && !vstd::utf8::valid_utf8(files@[i].content@))
                }
            },
        },
{
    let n = files.len();
    let mut main_idx: usize = 0;
    let mut found_main = false;
    let mut k: usize = 0;
    while k < n
        invariant
            k <= n,
            n == files@.len(),
            !found_main ==> forall|i: int|
                0 <= i < k ==> (#[trigger] files@[i]).file_path@ != "src/main.rs"@,
            found_main ==> main_idx < k && files@[main_idx as int].file_path@ == "src/main.rs"@,
        decreases n - k,
    {
        if !found_main && str_eq(files[k].file_path.as_str(), "src/main.rs") {
            found_main = true;
            main_idx = k;
        }
        k = k + 1;
    }
    if !found_main {
        let mut m = String::new();
        m.append("src/main.rs does not exist");
        return Err(MiniModalError::OtherError(m));
    }
    let manifest_idx = match find_manifest(&files) {
        Ok(i) => i,
        Err(e) => {
            return Err(e);
        },
    };
    let main_text = match bytes_to_string(&files[main_idx].content) {
        Some(t) => t,
        None => {
            let mut m = String::new();
            m.append("src/main.rs is not valid UTF-8");
            return Err(MiniModalError::OtherError(m));
        },
    };
    let manifest_text = match bytes_to_string(&files[manifest_idx].content) {
        Some(t) => t,
        None => {
            let mut m = String::new();
            m.append("Cargo.toml is not valid UTF-8");
            return Err(MiniModalError::OtherError(m));
        },
    };
    let stripped = crate::parse_file::strip_entry_code(main_text.as_str());
    let rewritten = build_cargo_toml(manifest_text.as_str(), deps);
    let mut out_files = files;
    let ghost before = out_files@;
    let old_manifest = out_files.remove(manifest_idx);
    let new_manifest = FileEntry {
        file_path: old_manifest.file_path,
        content: rewritten.as_str().as_bytes_vec(),
    };
    out_files.insert(manifest_idx, new_manifest);
    let mut main_name = String::new();
    main_name.append("src/original_main.rs");
    out_files.push(FileEntry { file_path: main_name, content: stripped.as_str().as_bytes_vec() });
    proof {
        assert(out_files@.len() == before.len() + 1);
        assert forall|i: int| 0 <= i < before.len() && i != manifest_idx implies #[trigger] out_files@[i]
            == before[i] by {
            if i < manifest_idx {
            } else {
                assert(before.remove(manifest_idx as int)[i - 1] == before[i]);
            }
        }
    }
    Ok(MountRequest { files: out_files })
}

/// Finds the one manifest file of a snapshot: succeeds exactly when the
/// request holds a single entry at the manifest path, and says whether the
/// manifest was missing or ambiguous otherwise.
pub fn find_manifest(files: &Vec<FileEntry>) -> (r: Result<usize, MiniModalError>)
    ensures
        match r {
            Ok(i) => {
                &&& i < files@.len()
                &&& files@[i as int].file_path@ == "Cargo.toml"@
                &&& forall|j: int|
                    0 <= j < files@.len() && j != i ==> (#[trigger] files@[j]).file_path@
                        != "Cargo.toml"@
            },
            Err(e) => {
                &&& e is OtherError
                &&& ((forall|j: int|
                    0 <= j < files@.len() ==> (#[trigger] files@[j]).file_path@ != "Cargo.toml"@)
                    ==> e.message_spec() == "Cargo.toml not found in the project"@)
                &&& (!(forall|j: int|
                    0 <= j < files@.len() ==> (#[trigger] files@[j]).file_path@ != "Cargo.toml"@)
                    ==> (exists|i: int, j: int|
                    0 <= i < j < files@.len() && (#[trigger] files@[i]).file_path@ == "Cargo.toml"@
                        && (#[trigger] files@[j]).file_path@ == "Cargo.toml"@)
                    && e.message_spec() == "more than one manifest in the project"@)
            },
        },
{
    let mut found: Option<usize> = None;
    let n = files.len();
    let mut k: usize = 0;
    while k < n
        invariant
            k <= n,
            n == files@.len(),
            match found {
                Some(i) => {
                    &&& i < k
                    &&& files@[i as int].file_path@ == "Cargo.toml"@
                    &&& forall|j: int|
                        0 <= j < k && j != i ==> (#[trigger] files@[j]).file_path@
                            != "Cargo.toml"@
                },
                None => forall|j: int|
                    0 <= j < k ==> (#[trigger] files@[j]).file_path@ != "Cargo.toml"@,
            },
        decreases n - k,
    {
        if str_eq(files[k].file_path.as_str(), "Cargo.toml") {
            match found {
                Some(i) => {
                    let mut m = String::new();
                    m.append("more than one manifest in the project");
                    return Err(MiniModalError::OtherError(m));
                },
                None => {
                    found = Some(k);
                },
            }
        }
        k = k + 1;
    }
    match found {
        Some(i) => Ok(i),
        None => {
            let mut m = String::new();
            m.append("Cargo.toml not found in the project");
            Err(MiniModalError::OtherError(m))
        },
    }
}

} // verus!
