//! Choosing the source files of a project by glob patterns, and where the
//! output of each goes.

use vstd::prelude::*;
use crate::text::{push_char, chars_of, concat2, string_of};

verus! {

#[verifier::external_type_specification]
#[verifier::external_body]
pub struct ExGlob(globset::Glob);

#[verifier::external_type_specification]
#[verifier::external_body]
pub struct ExGlobSet(globset::GlobSet);

#[verifier::external_type_specification]
#[verifier::external_body]
pub struct ExGlobSetBuilder(globset::GlobSetBuilder);

#[verifier::external_type_specification]
#[verifier::external_body]
pub struct ExGlobError(globset::Error);

/// Whether `Glob::new` accepts `pattern`.
pub uninterp spec fn glob_parses(pattern: Seq<char>) -> bool;

/// The pattern that a `Glob` was built from, as `Glob::glob` returns it.
pub uninterp spec fn glob_pattern(g: globset::Glob) -> Seq<char>;

/// The patterns of the globs added to a `GlobSetBuilder`, in order.
pub uninterp spec fn builder_patterns(b: globset::GlobSetBuilder) -> Seq<Seq<char>>;

/// The patterns of the globs of a `GlobSet`, in order.
pub uninterp spec fn set_patterns(s: globset::GlobSet) -> Seq<Seq<char>>;

/// Whether `GlobSetBuilder::build` compiles a set of `patterns`.
pub uninterp spec fn globs_compile(patterns: Seq<Seq<char>>) -> bool;

/// Whether the glob `pattern`, with default options, matches `path`.
pub uninterp spec fn glob_matches(pattern: Seq<char>, path: Seq<char>) -> bool;

/// Calls `Glob::new`: it succeeds exactly on the patterns it parses, and the
/// glob it builds keeps the pattern it was built from.
#[verifier::external_body]
fn glob_new(pattern: &str) -> (r: Result<globset::Glob, globset::Error>)
    ensures
        r is Ok <==> glob_parses(pattern@),
        r matches Ok(g) ==> glob_pattern(g) == pattern@,
{
    globset::Glob::new(pattern)
}

/// Calls `GlobSetBuilder::new`: a builder without patterns.
#[verifier::external_body]
fn builder_new() -> (b: globset::GlobSetBuilder)
    ensures
        builder_patterns(b) == Seq::<Seq<char>>::empty(),
{
    globset::GlobSetBuilder::new()
}

/// Calls `GlobSetBuilder::add`: the glob goes after those added before.
#[verifier::external_body]
fn builder_add(b: &mut globset::GlobSetBuilder, g: globset::Glob)
    ensures
        builder_patterns(*final(b)) == builder_patterns(*old(b)).push(glob_pattern(g)),
{
    b.add(g);
}

/// Calls `GlobSetBuilder::build`: a set of the globs added so far, when they
/// compile together.
#[verifier::external_body]
fn builder_build(b: &globset::GlobSetBuilder) -> (r: Result<globset::GlobSet, globset::Error>)
    ensures
        r is Ok <==> globs_compile(builder_patterns(*b)),
        r matches Ok(s) ==> set_patterns(s) == builder_patterns(*b),
{
    b.build()
}

/// Whether some pattern of `patterns` matches `path`.
pub open spec fn any_match(patterns: Seq<Seq<char>>, path: Seq<char>) -> bool {
    exists|i: int| 0 <= i < patterns.len() && glob_matches(#[trigger] patterns[i], path)
}

/// Calls `GlobSet::is_match`: whether any glob of the set matches `path`.
#[verifier::external_body]
fn set_is_match(s: &globset::GlobSet, path: &str) -> (r: bool)
    ensures
        r == (exists|i: int|
            0 <= i < set_patterns(*s).len() && glob_matches(#[trigger] set_patterns(*s)[i], path@)),
{
    s.is_match(std::path::Path::new(path))
}

/// Why the include patterns could not be used.
pub enum DiscoveryError {
    /// The pattern at `index` does not parse.
    InvalidGlob { index: usize, error: globset::Error },
    /// The patterns parse but do not compile together.
    Build(globset::Error),
}

pub open spec fn strings_view(v: Seq<String>) -> Seq<Seq<char>> {
    v.map_values(|s: String| s@)
}

/// Selects files by include patterns.
pub struct FileDiscovery {
    include_set: globset::GlobSet,
}

impl FileDiscovery {
    /// The include patterns, in order.
    pub closed spec fn patterns(&self) -> Seq<Seq<char>> {
        set_patterns(self.include_set)
    }

    /// A discovery over the patterns `includes`: an error for the first
    /// pattern that does not parse, or when they do not compile together.
    pub fn new(includes: &[String]) -> (r: Result<FileDiscovery, DiscoveryError>)
        ensures
            match r {
                Ok(d) => (forall|i: int| 0 <= i < includes@.len() ==> glob_parses(#[trigger] includes@[i]@))
                    && globs_compile(strings_view(includes@)) && d.patterns() == strings_view(includes@),
                Err(DiscoveryError::InvalidGlob { index, .. }) => index < includes@.len() && !glob_parses(
                    includes@[index as int]@,
                ) && forall|i: int| 0 <= i < index ==> glob_parses(#[trigger] includes@[i]@),
                Err(DiscoveryError::Build(_)) => (forall|i: int|
                    0 <= i < includes@.len() ==> glob_parses(#[trigger] includes@[i]@)) && !globs_compile(
                    strings_view(includes@),
                ),
            },
    {
        let mut builder = builder_new();
        let mut i: usize = 0;
        while i < includes.len()
            invariant
                i <= includes@.len(),
                builder_patterns(builder) == strings_view(includes@).subrange(0, i as int),
                forall|j: int| 0 <= j < i ==> glob_parses(#[trigger] includes@[j]@),
            decreases includes@.len() - i,
        {
            match glob_new(includes[i].as_str()) {
                Ok(g) => {
                    builder_add(&mut builder, g);
                },
                Err(e) => {
                    return Err(DiscoveryError::InvalidGlob { index: i, error: e });
                },
            }
            i = i + 1;
            assert(builder_patterns(builder) =~= strings_view(includes@).subrange(0, i as int));
        }
        assert(strings_view(includes@).subrange(0, i as int) =~= strings_view(includes@));
        match builder_build(&builder) {
            Ok(set) => Ok(FileDiscovery { include_set: set }),
            Err(e) => Err(DiscoveryError::Build(e)),
        }
    }

    /// Whether some include pattern matches `rel_path`, a path relative to
    /// the project root.
    pub fn matches(&self, rel_path: &str) -> (r: bool)
        ensures
            r == any_match(self.patterns(), rel_path@),
    {
        set_is_match(&self.include_set, rel_path)
    }

    /// Of the files found under the root, each given as its path and its
    /// path relative to the root, the paths of those that an include
    /// pattern matches, in order.
    pub fn select(&self, files: Vec<(String, String)>) -> (r: Vec<String>)
        ensures
            strings_view(r@) == selected(self.patterns(), files_view(files@)),
    {
        let ghost fv = files_view(files@);
        let mut out: Vec<String> = Vec::new();
        for f in it: files
            invariant
                it.seq() == files@,
                fv == files_view(files@),
                strings_view(out@) == selected(self.patterns(), fv.take(it.index() as int)),
        {
            let ghost idx = it.index() as int;
            assert(fv.take(idx + 1).drop_last() =~= fv.take(idx));
            assert(fv.take(idx + 1).last() == (f.0@, f.1@));
            let (path, rel) = f;
            if self.matches(rel.as_str()) {
                out.push(path);
            }
            assert(strings_view(out@) =~= selected(self.patterns(), fv.take(idx + 1)));
        }
        assert(fv.take(fv.len() as int) =~= fv);
        out
    }
}

pub open spec fn files_view(fs: Seq<(String, String)>) -> Seq<(Seq<char>, Seq<char>)> {
    fs.map_values(|f: (String, String)| (f.0@, f.1@))
}

/// The paths of the files whose relative path some pattern matches.
pub open spec fn selected(patterns: Seq<Seq<char>>, files: Seq<(Seq<char>, Seq<char>)>) -> Seq<Seq<char>>
    decreases files.len(),
{
    if files.len() == 0 {
        seq![]
    } else {
        let rest = selected(patterns, files.drop_last());
        if any_match(patterns, files.last().1) {
            rest.push(files.last().0)
        } else {
            rest
        }
    }
}

// ---------------------------------------------------------------------------
// Output paths.
// ---------------------------------------------------------------------------

/// The parts collected so far with `cur` added, unless it is empty, or it is
/// `.` anywhere but at the start of a relative path (`rel`).
pub open spec fn add_part(ps: Seq<Seq<char>>, cur: Seq<char>, rel: bool) -> Seq<Seq<char>> {
    if cur.len() == 0 || (cur == "."@ && !(rel && ps.len() == 0)) {
        ps
    } else {
        ps.push(cur)
    }
}

/// The parts of the first `n` characters of `s` split at `/`: those
/// complete, and the one being read.
pub open spec fn split_upto(s: Seq<char>, n: int, rel: bool) -> (Seq<Seq<char>>, Seq<char>)
    decreases n,
{
    if n <= 0 {
        (seq![], seq![])
    } else {
        let r = split_upto(s, n - 1, rel);
        if s[n - 1] == '/' {
            (add_part(r.0, r.1, rel), seq![])
        } else {
            (r.0, r.1.push(s[n - 1]))
        }
    }
}

/// The components of a `/`-separated path, as `Path::components` gives
/// them after a root: without empty ones, and without `.` but at the start
/// of a relative path.
pub open spec fn path_parts(s: Seq<char>) -> Seq<Seq<char>> {
    let rel = !is_absolute(s);
    let r = split_upto(s, s.len() as int, rel);
    add_part(r.0, r.1, rel)
}

pub open spec fn is_absolute(s: Seq<char>) -> bool {
    s.len() > 0 && s[0] == '/'
}

/// The position of the last `.` among the first `n` characters of `name`,
/// or -1.
pub open spec fn last_dot(name: Seq<char>, n: int) -> int
    decreases n,
{
    if n <= 0 {
        -1
    } else if name[n - 1] == '.' {
        n - 1
    } else {
        last_dot(name, n - 1)
    }
}

/// A file name without its extension: the part before the last `.`,
/// unless the name has no `.` past its first character.
pub open spec fn file_stem(name: Seq<char>) -> Seq<char> {
    let d = last_dot(name, name.len() as int);
    if d <= 0 {
        name
    } else {
        name.subrange(0, d)
    }
}

/// The output name of a source file: its stem, without a leading `_`.
pub open spec fn out_stem(name: Seq<char>) -> Seq<char> {
    let stem = file_stem(name);
    if stem.len() > 0 && stem[0] == '_' {
        stem.subrange(1, stem.len() as int)
    } else {
        stem
    }
}

/// `base` with the component `part` appended, with a `/` between them
/// unless `base` is empty or ends with one.
pub open spec fn push_part(base: Seq<char>, part: Seq<char>) -> Seq<char> {
    if base.len() > 0 && base.last() != '/' {
        base + seq!['/'] + part
    } else {
        base + part
    }
}

/// `base` with the first `n` of `parts` appended.
pub open spec fn join_parts(base: Seq<char>, parts: Seq<Seq<char>>, n: int) -> Seq<char>
    decreases n,
{
    if n <= 0 {
        base
    } else {
        push_part(join_parts(base, parts, n - 1), parts[n - 1])
    }
}

/// Where the output of `src` goes: the path of `src` below `root`, put
/// below `out_dir`, with the file's stem (without a leading `_`) and
/// extension `ext`; none when `src` is not below `root` or names no file.
pub open spec fn output_path(src: Seq<char>, root: Seq<char>, out_dir: Seq<char>, ext: Seq<char>) -> Option<
    Seq<char>,
> {
    let sp = path_parts(src);
    let rp = path_parts(root);
    if is_absolute(src) != is_absolute(root) || rp.len() > sp.len() || sp.subrange(0, rp.len() as int)
        != rp {
        None
    } else {
        let rel = sp.subrange(rp.len() as int, sp.len() as int);
        if rel.len() == 0 || rel.last() == ".."@ || rel.last() == "."@ {
            None
        } else {
            Some(
                push_part(
                    join_parts(out_dir, rel, rel.len() - 1),
                    out_stem(rel.last()) + seq!['.'] + ext,
                ),
            )
        }
    }
}

fn chars_to_string(cs: &Vec<char>, lo: usize, hi: usize) -> (r: String)
    requires
        lo <= hi <= cs@.len(),
    ensures
        r@ == cs@.subrange(lo as int, hi as int),
{
    let mut out = String::new();
    let mut i = lo;
    while i < hi
        invariant
            lo <= i <= hi,
            hi <= cs@.len(),
            out@ == cs@.subrange(lo as int, i as int),
        decreases hi - i,
    {
        push_char(&mut out, cs[i]);
        i = i + 1;
        assert(out@ =~= cs@.subrange(lo as int, i as int));
    }
    out
}

fn add_part_to(ps: &mut Vec<String>, cur: String, rel: bool)
    ensures
        strings_view(final(ps)@) == add_part(strings_view(old(ps)@), cur@, rel),
{
    let dot = string_of(".");
    let at_start = ps.len() == 0;
    if !(cur.as_str().is_empty() || (cur == dot && !(rel && at_start))) {
        ps.push(cur);
    }
    assert(strings_view(final(ps)@) =~= add_part(strings_view(old(ps)@), cur@, rel));
}

fn parts_of(s: &str) -> (r: Vec<String>)
    ensures
        strings_view(r@) == path_parts(s@),
{
    let rel = !starts_with_slash(s);
    let cs = chars_of(s);
    let mut ps: Vec<String> = Vec::new();
    let mut cur = String::new();
    let mut i: usize = 0;
    assert(strings_view(ps@) =~= seq![]);
    while i < cs.len()
        invariant
            cs@ == s@,
            i <= cs@.len(),
            rel == !is_absolute(s@),
            (strings_view(ps@), cur@) == split_upto(s@, i as int, rel),
        decreases cs@.len() - i,
    {
        if cs[i] == '/' {
            add_part_to(&mut ps, cur, rel);
            cur = String::new();
        } else {
            push_char(&mut cur, cs[i]);
        }
        i = i + 1;
    }
    add_part_to(&mut ps, cur, rel);
    ps
}

fn starts_with_slash(s: &str) -> (r: bool)
    ensures
        r == is_absolute(s@),
{
    let n = s.unicode_len();
    n > 0 && s.get_char(0) == '/'
}

fn out_stem_of(name: &String) -> (r: String)
    ensures
        r@ == out_stem(name@),
{
    let cs = chars_of(name.as_str());
    let mut n: usize = cs.len();
    let ghost full = cs@;
    while n > 0 && cs[n - 1] != '.'
        invariant
            cs@ == name@,
            n <= cs@.len(),
            last_dot(name@, n as int) == last_dot(name@, name@.len() as int),
        decreases n,
    {
        n = n - 1;
    }
    let stem_end: usize = if n == 0 || n - 1 == 0 {
        cs.len()
    } else {
        n - 1
    };
    assert(file_stem(name@) == cs@.subrange(0, stem_end as int)) by {
        assert(cs@.subrange(0, cs@.len() as int) =~= cs@);
    }
    if stem_end > 0 && cs[0] == '_' {
        chars_to_string(&cs, 1, stem_end)
    } else {
        chars_to_string(&cs, 0, stem_end)
    }
}

fn push_part_to(base: &mut String, part: &str)
    ensures
        final(base)@ == push_part(old(base)@, part@),
{
    let cs = chars_of(base.as_str());
    if cs.len() > 0 && cs[cs.len() - 1] != '/' {
        push_char(base, '/');
    }
    base.append(part);
}

/// Where the output of `src_path` goes, with extension `ext`: its path
/// below `root`, put below `output_dir`, the file named by its stem without
/// a leading `_`. `None` when `src_path` is not below `root` or names no
/// file. Paths are `/`-separated; the result is a path equal, component by
/// component, to the one `PathBuf::push` builds.
pub fn map_output_path(src_path: &str, root: &str, output_dir: &str, ext: &str) -> (r: Option<String>)
    ensures
        match r {
            Some(p) => output_path(src_path@, root@, output_dir@, ext@) == Some(p@),
            None => output_path(src_path@, root@, output_dir@, ext@) is None,
        },
{
    let sp = parts_of(src_path);
    let rp = parts_of(root);
    if starts_with_slash(src_path) != starts_with_slash(root) || rp.len() > sp.len() {
        return None;
    }
    let ghost spv = strings_view(sp@);
    let ghost rpv = strings_view(rp@);
    let mut i: usize = 0;
    while i < rp.len()
        invariant
            i <= rp@.len(),
            rp@.len() <= sp@.len(),
            spv == strings_view(sp@),
            rpv == strings_view(rp@),
            spv == path_parts(src_path@),
            rpv == path_parts(root@),
            spv.subrange(0, i as int) == rpv.subrange(0, i as int),
        decreases rp@.len() - i,
    {
        if sp[i] != rp[i] {
            assert(spv[i as int] != rpv[i as int]);
            assert(spv.subrange(0, rpv.len() as int)[i as int] == spv[i as int]);
            assert(spv.subrange(0, rpv.len() as int) != rpv);
            return None;
        }
        i = i + 1;
        assert(spv.subrange(0, i as int) =~= rpv.subrange(0, i as int));
    }
    assert(rpv.subrange(0, rpv.len() as int) =~= rpv);
    let ghost rel = spv.subrange(rpv.len() as int, spv.len() as int);
    if rp.len() == sp.len() {
        return None;
    }
    let last = &sp[sp.len() - 1];
    assert(rel.last() == last@);
    let dotdot = string_of("..");
    let dot = string_of(".");
    if *last == dotdot || *last == dot {
        return None;
    }
    let mut out = string_of(output_dir);
    let mut k: usize = rp.len();
    while k < sp.len() - 1
        invariant
            rp@.len() <= k <= sp@.len() - 1,
            spv == strings_view(sp@),
            rpv == strings_view(rp@),
            rel == spv.subrange(rpv.len() as int, spv.len() as int),
            out@ == join_parts(output_dir@, rel, k - rp@.len()),
        decreases sp@.len() - 1 - k,
    {
        push_part_to(&mut out, sp[k].as_str());
        k = k + 1;
    }
    let stem = out_stem_of(last);
    let mut file = concat2(stem.as_str(), ".");
    file.append(ext);
    proof {
        reveal_strlit(".");
    }
    assert(file@ =~= out_stem(rel.last()) + seq!['.'] + ext@);
    push_part_to(&mut out, file.as_str());
    Some(out)
}

} // verus!
