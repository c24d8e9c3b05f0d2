//! Where a project keeps its `symbols.txt` and `splits.txt`.
use vstd::prelude::*;

use relative_path::RelativePath;

use crate::util::parsing::{debug_quoted, debug_text, with_quoted};

verus! {

/// The configuration of a project, as its `config.yml` gives it: the paths of
/// the symbols and splits files, relative to the project directory.
pub struct Config {
    pub symbols: String,
    pub splits: String,
}

/// Why a path could not be found.
#[derive(Debug, Clone, PartialEq, Eq)]
pub enum ConfigError {
    /// The configuration directory (as given) has no directory two levels
    /// above it.
    NoProjectDir(String),
}

impl ConfigError {
    /// What went wrong, in words: `failed to determine project directory for `
    /// and the configuration directory quoted.
    pub fn message(&self) -> (res: String)
        ensures
            match self {
                ConfigError::NoProjectDir(d) => res@ == "failed to determine project directory for "@
                    + debug_text(d@),
            },
    {
        match self {
            ConfigError::NoProjectDir(d) => with_quoted(
                "failed to determine project directory for ",
                debug_quoted(d.as_str()).as_str(),
            ),
        }
    }
}

/// The components of a relative path: the non-empty runs of characters
/// between `/` separators, in order.
pub open spec fn rel_components(s: Seq<char>) -> Seq<Seq<char>>
    decreases s.len(),
{
    if s.len() == 0 {
        seq![]
    } else {
        let k = slash_free_len(s);
        let piece = s.take(k as int);
        let rest = if k < s.len() {
            s.skip(k + 1int)
        } else {
            seq![]
        };
        (if piece.len() > 0 {
            seq![piece]
        } else {
            seq![]
        }) + rel_components(rest)
    }
}

/// How many characters at the start of `s` are not `/`.
pub open spec fn slash_free_len(s: Seq<char>) -> nat
    decreases s.len(),
{
    if s.len() == 0 || s[0] == '/' {
        0
    } else {
        1 + slash_free_len(s.drop_first())
    }
}

/// `base` followed by each of `comps`, with `sep` before each one except
/// where nothing precedes it.
pub open spec fn join_components(base: Seq<char>, comps: Seq<Seq<char>>, sep: char) -> Seq<char>
    decreases comps.len(),
{
    if comps.len() == 0 {
        base
    } else {
        let p = join_components(base, comps.drop_last(), sep);
        if p.len() == 0 {
            comps.last()
        } else {
            p + seq![sep] + comps.last()
        }
    }
}

/// `q` is `p` with something removed from its end.
pub open spec fn is_proper_prefix(q: Seq<char>, p: Seq<char>) -> bool {
    q.len() < p.len() && q == p.take(q.len() as int)
}

/// A character that no platform's path syntax treats specially: an ASCII
/// letter or digit, `_` or `-`.
pub open spec fn is_plain_char(c: char) -> bool {
    ('a' <= c <= 'z') || ('A' <= c <= 'Z') || ('0' <= c <= '9') || c == '_' || c == '-'
}

/// A relative path of plain components, each separated from the next by one
/// `/`, such as `project/config/GLME01`.
pub open spec fn is_plain_path(p: Seq<char>) -> bool {
    &&& p.len() > 0
    &&& is_plain_char(p[0])
    &&& is_plain_char(p.last())
    &&& forall|k: int| 0 <= k < p.len() ==> is_plain_char(#[trigger] p[k]) || p[k] == '/'
    &&& forall|k: int| 0 < k < p.len() && #[trigger] p[k] == '/' ==> p[k - 1] != '/'
}

/// The position of the last `/` in `p`, or -1 when there is none.
pub open spec fn last_slash(p: Seq<char>) -> int
    decreases p.len(),
{
    if p.len() == 0 {
        -1
    } else if p.last() == '/' {
        p.len() - 1
    } else {
        last_slash(p.drop_last())
    }
}

/// A plain path without its final component: what comes before the last
/// `/`, or nothing when the path is a single component.
pub open spec fn plain_parent(p: Seq<char>) -> Seq<char> {
    if last_slash(p) < 0 {
        seq![]
    } else {
        p.take(last_slash(p))
    }
}

/// `/` followed by a plain path, such as `/home/u/proj`.
pub open spec fn is_rooted_plain_path(p: Seq<char>) -> bool {
    p.len() >= 2 && p[0] == '/' && is_plain_path(p.drop_first())
}

/// A rooted plain path without its final component: what comes before the
/// last `/`, or `/` itself when the path has a single component.
pub open spec fn rooted_parent(p: Seq<char>) -> Seq<char> {
    if last_slash(p) == 0 {
        seq!['/']
    } else {
        p.take(last_slash(p))
    }
}

/// The directory two levels above `p`, for a plain path with or without a
/// leading `/`; `None` when there are not two levels above it.
pub open spec fn grandparent(p: Seq<char>) -> Option<Seq<char>> {
    if is_rooted_plain_path(p) {
        if rooted_parent(p) == seq!['/'] {
            None
        } else {
            Some(rooted_parent(rooted_parent(p)))
        }
    } else if last_slash(p) < 0 {
        None
    } else {
        Some(plain_parent(plain_parent(p)))
    }
}

/// `p` is a path whose grandparent `grandparent` describes: a plain path
/// with or without a leading `/`.
pub open spec fn is_simple_path(p: Seq<char>) -> bool {
    is_plain_path(p) || is_rooted_plain_path(p)
}

/// A character that some platform's path syntax gives a meaning besides `/`:
/// the backslash (a separator) and `:` (after a drive letter).
pub open spec fn is_platform_special(c: char) -> bool {
    c as u32 == 0x5C || c == ':'
}

/// A path that every platform splits into components the same way: no
/// backslash, no `:`, and not starting with `//` (which some platforms read
/// as the start of a network name).
pub open spec fn is_dotted_path(p: Seq<char>) -> bool {
    &&& forall|k: int| 0 <= k < p.len() ==> !is_platform_special(#[trigger] p[k])
    &&& !(p.len() >= 2 && p[0] == '/' && p[1] == '/')
}

/// The components of such a path, as `std::path::Path::components`
/// documents them: a leading `/` stands for the root (written `/` here),
/// repeated separators are ignored, and `.` is dropped except at the start of
/// a relative path.
pub open spec fn path_components(p: Seq<char>) -> Seq<Seq<char>> {
    let cs = rel_components(p);
    if p.len() > 0 && p[0] == '/' {
        seq![seq!['/']] + cs.filter(|c: Seq<char>| c != seq!['.'])
    } else if cs.len() > 0 && cs[0] == seq!['.'] {
        seq![seq!['.']] + cs.drop_first().filter(|c: Seq<char>| c != seq!['.'])
    } else {
        cs.filter(|c: Seq<char>| c != seq!['.'])
    }
}

/// `q` is `p` or `p` with something removed from its end.
pub open spec fn is_prefix(q: Seq<char>, p: Seq<char>) -> bool {
    q.len() <= p.len() && q == p.take(q.len() as int)
}

/// `std::path::Path::parent`: the path without its final component. Claimed
/// here, as its documentation gives it: there is none for the empty path or
/// for the root `/`; when there is one it is the path with something removed
/// from its end; a relative path of plain components has one, the path
/// without its final component (nothing for a single component); and so has
/// `/` followed by plain components (`/` itself for a single component); and
/// for a path without a backslash or `:` that does not start with `//`, there
/// is one exactly when its last component is not the root, and its
/// components are the path's without the last one. For other paths, which
/// have a parent and how long it is depends on the platform's path syntax and
/// is not stated.
#[verifier::external_body]
fn path_parent(path: &str) -> (res: Option<String>)
    ensures
        path@.len() == 0 ==> res is None,
        path@ == seq!['/'] ==> res is None,
        res matches Some(q) ==> is_proper_prefix(q@, path@),
        is_plain_path(path@) ==> res is Some && res->0@ == plain_parent(path@),
        is_rooted_plain_path(path@) ==> res is Some && res->0@ == rooted_parent(path@),
        is_dotted_path(path@) ==> (res is Some <==> (path_components(path@).len() > 0
            && path_components(path@).last() != seq!['/'])),
        is_dotted_path(path@) && res is Some ==> path_components(res->0@) == path_components(
            path@,
        ).drop_last(),
{
    match std::path::Path::new(path).parent() {
        Some(p) => Some(p.to_string_lossy().into_owned()),
        None => None,
    }
}

/// A character that some platform uses to separate path components: `/`,
/// or the backslash.
pub open spec fn is_separator(c: char) -> bool {
    c == '/' || c as u32 == 0x5C
}

/// `path` is `base` followed by `comps`, joined by one and the same
/// separator.
pub open spec fn joined(path: Seq<char>, base: Seq<char>, comps: Seq<Seq<char>>) -> bool {
    exists|sep: char| is_separator(sep) && path == join_components(base, comps, sep)
}

/// `relative_path::RelativePath::to_path`: `base`, then each component of
/// `rel` in order, each preceded by the platform's path separator
/// (`std::path::MAIN_SEPARATOR`, `/` or `\`) unless nothing comes before it.
/// Which of the two it is depends on the platform and is not stated.
#[verifier::external_body]
fn relative_to_path(rel: &str, base: &str) -> (res: String)
    ensures
        joined(res@, base@, rel_components(rel@)),
{
    RelativePath::new(rel).to_path(base).to_string_lossy().into_owned()
}

/// What stands before the last `/` of a plain path is itself a plain path.
proof fn lemma_plain_parent(p: Seq<char>)
    requires
        is_plain_path(p),
        last_slash(p) >= 0,
    ensures
        is_plain_path(plain_parent(p)),
{
    lemma_last_slash(p);
    let k = last_slash(p);
    let q = p.take(k);
    assert(k > 0) by {
        assert(is_plain_char(p[0]));
    }
    assert(p[k - 1] != '/');
    assert forall|j: int| 0 < j < q.len() && #[trigger] q[j] == '/' implies q[j - 1] != '/' by {
        assert(p[j] == '/');
    }
    assert forall|j: int| 0 <= j < q.len() implies is_plain_char(#[trigger] q[j]) || q[j] == '/' by {
        assert(q[j] == p[j]);
    }
}

proof fn lemma_last_slash(p: Seq<char>)
    ensures
        -1 <= last_slash(p) < p.len(),
        last_slash(p) >= 0 ==> p[last_slash(p)] == '/',
        forall|j: int| last_slash(p) < j < p.len() ==> p[j] != '/',
    decreases p.len(),
{
    if p.len() > 0 && p.last() != '/' {
        lemma_last_slash(p.drop_last());
        assert forall|j: int| last_slash(p) < j < p.len() implies p[j] != '/' by {
            if j < p.len() - 1 {
                assert(p[j] == p.drop_last()[j]);
            }
        }
    }
}

/// The last `/` of a path with one more character in front.
proof fn lemma_last_slash_cons(c: char, q: Seq<char>)
    ensures
        last_slash(seq![c] + q) == (if last_slash(q) >= 0 {
            last_slash(q) + 1
        } else if c == '/' {
            0
        } else {
            -1
        }),
    decreases q.len(),
{
    let p = seq![c] + q;
    if q.len() == 0 {
        assert(p.drop_last() =~= Seq::<char>::empty());
        assert(last_slash(Seq::<char>::empty()) == -1);
        assert(last_slash(q) == -1);
        assert(p.last() == c);
    } else {
        assert(p.last() == q.last());
        assert(p.drop_last() =~= seq![c] + q.drop_last());
        lemma_last_slash_cons(c, q.drop_last());
        if q.last() != '/' {
            assert(last_slash(q) == last_slash(q.drop_last()));
            assert(last_slash(p) == last_slash(p.drop_last()));
        }
    }
}

/// What stands before the last `/` of a rooted plain path is `/` or itself a
/// rooted plain path.
proof fn lemma_rooted_parent(p: Seq<char>)
    requires
        is_rooted_plain_path(p),
    ensures
        rooted_parent(p) == seq!['/'] <==> last_slash(p.drop_first()) < 0,
        rooted_parent(p) != seq!['/'] ==> is_rooted_plain_path(rooted_parent(p)),
{
    let q = p.drop_first();
    assert(p =~= seq!['/'] + q);
    lemma_last_slash_cons('/', q);
    lemma_last_slash(q);
    if last_slash(q) >= 0 {
        lemma_plain_parent(q);
        let k = last_slash(q);
        assert(is_plain_char(q[0]));
        assert(k > 0);
        assert(rooted_parent(p).drop_first() =~= plain_parent(q));
        assert(rooted_parent(p).len() == k + 1);
    }
}

/// A path without a backslash or `:` that does not start with `//` has a
/// directory two levels above it: it has at least two components, and neither of its last two is the
/// root.
pub open spec fn two_levels_up(p: Seq<char>) -> bool {
    let c = path_components(p);
    c.len() >= 2 && c.last() != seq!['/'] && c[c.len() - 2] != seq!['/']
}

/// The components of the directory two levels above such a path.
pub open spec fn grandparent_components(p: Seq<char>) -> Seq<Seq<char>> {
    path_components(p).drop_last().drop_last()
}

/// A start of such a path is one too.
proof fn lemma_dotted_prefix(p: Seq<char>, q: Seq<char>)
    requires
        is_dotted_path(p),
        is_prefix(q, p),
    ensures
        is_dotted_path(q),
{
    assert forall|k: int| 0 <= k < q.len() implies !is_platform_special(#[trigger] q[k]) by {
        assert(q[k] == p[k]);
    }
    if q.len() >= 2 {
        assert(q[0] == p[0] && q[1] == p[1]);
    }
}

/// The project directory of a configuration directory: the directory two
/// levels above it (a configuration directory is `<project>/config/<name>`).
/// For a path without a backslash or `:` that does not start with `//`
/// there is one exactly when there are two levels above it, and its
/// components are those two levels up: `a/config/b` gives `a`, `config/b`
/// the empty path, `/home/u/my proj/config/b` gives `/home/u/my proj` and
/// `/config/b` gives `/`.
pub fn project_dir_from_config_dir(config_dir: &str) -> (res: Result<String, ConfigError>)
    ensures
        config_dir@.len() == 0 ==> res is Err,
        match res {
            Ok(dir) => exists|p: Seq<char>|
                is_proper_prefix(dir@, p) && is_proper_prefix(p, config_dir@),
            Err(ConfigError::NoProjectDir(d)) => d@ == config_dir@,
        },
        is_simple_path(config_dir@) ==> match grandparent(config_dir@) {
            Some(g) => res matches Ok(dir) && dir@ == g,
            None => res is Err,
        },
        is_dotted_path(config_dir@) ==> (res is Ok <==> two_levels_up(config_dir@)),
        is_dotted_path(config_dir@) && res is Ok ==> is_prefix(res->Ok_0@, config_dir@)
            && path_components(res->Ok_0@) == grandparent_components(config_dir@),
{
    proof {
        if is_plain_path(config_dir@) && last_slash(config_dir@) >= 0 {
            lemma_plain_parent(config_dir@);
        }
        if is_rooted_plain_path(config_dir@) {
            lemma_rooted_parent(config_dir@);
            assert(!is_plain_path(config_dir@));
        }
    }
    match path_parent(config_dir) {
        Some(parent) => {
            proof {
                if is_dotted_path(config_dir@) {
                    lemma_dotted_prefix(config_dir@, parent@);
                }
            }
            match path_parent(parent.as_str()) {
                Some(project) => {
                    proof {
                        if is_dotted_path(config_dir@) {
                            let c = path_components(config_dir@);
                            assert(c.drop_last().last() == c[c.len() - 2]);
                            assert(project@ =~= config_dir@.take(project@.len() as int));
                        }
                    }
                    Ok(project)
                },
                None => {
                    proof {
                        if is_dotted_path(config_dir@) {
                            let c = path_components(config_dir@);
                            if c.len() >= 2 {
                                assert(c.drop_last().last() == c[c.len() - 2]);
                            }
                        }
                    }
                    Err(ConfigError::NoProjectDir(config_dir.to_owned()))
                },
            }
        },
        None => Err(ConfigError::NoProjectDir(config_dir.to_owned())),
    }
}

impl Config {
    /// The path of `relative` inside the project of `config_dir`.
    fn project_path(config_dir: &str, relative: &str) -> (res: Result<String, ConfigError>)
        ensures
            config_dir@.len() == 0 ==> res is Err,
            match res {
                Ok(path) => exists|dir: Seq<char>, p: Seq<char>, sep: char|
                    is_separator(sep) && is_proper_prefix(dir, p) && is_proper_prefix(
                        p,
                        config_dir@,
                    ) && path@ == join_components(dir, rel_components(relative@), sep),
                Err(ConfigError::NoProjectDir(d)) => d@ == config_dir@,
            },
            is_simple_path(config_dir@) ==> match grandparent(config_dir@) {
                Some(g) => res matches Ok(path) && exists|sep: char|
                    is_separator(sep) && path@ == join_components(
                        g,
                        rel_components(relative@),
                        sep,
                    ),
                None => res is Err,
            },
            is_dotted_path(config_dir@) ==> (res is Ok <==> two_levels_up(config_dir@)),
            is_dotted_path(config_dir@) && res is Ok ==> exists|dir: Seq<char>|
                is_prefix(dir, config_dir@) && path_components(dir) == grandparent_components(
                    config_dir@,
                ) && joined(res->Ok_0@, dir, rel_components(relative@)),
    {
        let dir = project_dir_from_config_dir(config_dir)?;
        Ok(relative_to_path(relative, dir.as_str()))
    }

    /// The path of the symbols file of the project of `config_dir`.
    pub fn symbols_path(&self, config_dir: &str) -> (res: Result<String, ConfigError>)
        ensures
            config_dir@.len() == 0 ==> res is Err,
            match res {
                Ok(path) => exists|dir: Seq<char>, p: Seq<char>, sep: char|
                    is_separator(sep) && is_proper_prefix(dir, p) && is_proper_prefix(
                        p,
                        config_dir@,
                    ) && path@ == join_components(dir, rel_components(self.symbols@), sep),
                Err(ConfigError::NoProjectDir(d)) => d@ == config_dir@,
            },
            is_simple_path(config_dir@) ==> match grandparent(config_dir@) {
                Some(g) => res matches Ok(path) && exists|sep: char|
                    is_separator(sep) && path@ == join_components(
                        g,
                        rel_components(self.symbols@),
                        sep,
                    ),
                None => res is Err,
            },
            is_dotted_path(config_dir@) ==> (res is Ok <==> two_levels_up(config_dir@)),
            is_dotted_path(config_dir@) && res is Ok ==> exists|dir: Seq<char>|
                is_prefix(dir, config_dir@) && path_components(dir) == grandparent_components(
                    config_dir@,
                ) && joined(res->Ok_0@, dir, rel_components(self.symbols@)),
    {
        Self::project_path(config_dir, self.symbols.as_str())
    }

    /// The path of the splits file of the project of `config_dir`.
    pub fn splits_path(&self, config_dir: &str) -> (res: Result<String, ConfigError>)
        ensures
            config_dir@.len() == 0 ==> res is Err,
            match res {
                Ok(path) => exists|dir: Seq<char>, p: Seq<char>, sep: char|
                    is_separator(sep) && is_proper_prefix(dir, p) && is_proper_prefix(
                        p,
                        config_dir@,
                    ) && path@ == join_components(dir, rel_components(self.splits@), sep),
                Err(ConfigError::NoProjectDir(d)) => d@ == config_dir@,
            },
            is_simple_path(config_dir@) ==> match grandparent(config_dir@) {
                Some(g) => res matches Ok(path) && exists|sep: char|
                    is_separator(sep) && path@ == join_components(
                        g,
                        rel_components(self.splits@),
                        sep,
                    ),
                None => res is Err,
            },
            is_dotted_path(config_dir@) ==> (res is Ok <==> two_levels_up(config_dir@)),
            is_dotted_path(config_dir@) && res is Ok ==> exists|dir: Seq<char>|
                is_prefix(dir, config_dir@) && path_components(dir) == grandparent_components(
                    config_dir@,
                ) && joined(res->Ok_0@, dir, rel_components(self.splits@)),
    {
        Self::project_path(config_dir, self.splits.as_str())
    }
}

} // verus!
