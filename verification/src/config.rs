//! Configuration: which files a check covers, by ordered glob patterns
//! relative to the configuration's directory.

use vstd::prelude::*;

use crate::report::{decimal, decimal_string};
use crate::text::{chars_of, lemma_utf8_len_concat, string_of, utf8_len};

verus! {

/// The value of `useGitIgnoreFile` where the configuration leaves it out.
pub fn git_ignore_default() -> (r: bool)
    ensures
        r,
{
    true
}

/// A configuration that cannot be read or used, with the file it concerns.
#[derive(Debug)]
pub struct ConfigError {
    pub path: String,
    pub message: String,
}

impl ConfigError {
    pub fn new(path: &str, message: String) -> (r: ConfigError)
        ensures
            r.path@ == path@,
            r.message == message,
    {
        ConfigError { path: path.to_owned(), message }
    }
}

/// The message of an attempt to create a configuration file over one that
/// exists.
pub open spec fn exists_message() -> Seq<char> {
    "設定ファイルが既に存在します（上書きしません）"@
}

/// The error of creating the configuration file at `path`: the message for
/// an existing file where the file already existed, else `message`, the
/// text of the failure.
pub fn init_error(path: &str, already_exists: bool, message: String) -> (r: ConfigError)
    ensures
        r.path@ == path@,
        r.message@ == if already_exists {
            exists_message()
        } else {
            message@
        },
{
    if already_exists {
        ConfigError::new(path, String::from_str("設定ファイルが既に存在します（上書きしません）"))
    } else {
        ConfigError::new(path, message)
    }
}

/// What a directory holds, while looking for the configuration upwards.
pub enum Lookup {
    /// Neither file: look in the parent directory.
    Continue,
    /// Read the file found: `deordinal.jsonc` where `jsonc`, else
    /// `deordinal.json`.
    Read { jsonc: bool },
}

/// The message for a directory with both configuration files.
pub open spec fn both_message() -> Seq<char> {
    "deordinal.json と deordinal.jsonc を同じ場所に置くことはできません"@
}

/// The decision for the directory `root`, which holds `deordinal.json`
/// where `has_json` and `deordinal.jsonc` where `has_jsonc`: both are an
/// error; else the one there is read; else the search goes on.
pub fn lookup(root: &str, has_json: bool, has_jsonc: bool) -> (r: Result<Lookup, ConfigError>)
    ensures
        has_json && has_jsonc <==> r is Err,
        r matches Err(e) ==> e.path@ == root@ && e.message@ == both_message(),
        r matches Ok(l) ==> match l {
            Lookup::Continue => !has_json && !has_jsonc,
            Lookup::Read { jsonc } => jsonc == !has_json,
        },
{
    if has_json && has_jsonc {
        Err(
            ConfigError::new(
                root,
                String::from_str("deordinal.json と deordinal.jsonc を同じ場所に置くことはできません"),
            ),
        )
    } else if has_json {
        Ok(Lookup::Read { jsonc: false })
    } else if has_jsonc {
        Ok(Lookup::Read { jsonc: true })
    } else {
        Ok(Lookup::Continue)
    }
}

// ---------------------------------------------------------------------------
// Glob patterns
// ---------------------------------------------------------------------------
/// The message with which building the glob `glob` fails, `None` where it
/// builds.
pub uninterp spec fn glob_error(glob: Seq<char>) -> Option<Seq<char>>;

/// The message with which building a `globset::GlobSet` of the one built
/// glob `glob` fails, `None` where it builds.
pub uninterp spec fn glob_set_error(glob: Seq<char>) -> Option<Seq<char>>;

/// Whether the `globset::GlobSet` of the one built glob `glob` matches the
/// path `path`.
pub uninterp spec fn glob_match(glob: Seq<char>, path: Seq<char>) -> bool;

/// The Rust debug notation of the text `s`: quoted and escaped.
pub uninterp spec fn str_debug(s: Seq<char>) -> Seq<char>;

/// A glob whose UTF-8 encoding is shorter than 2^30 bytes: every literal
/// that a glob set builds of it fits the index range of the Aho-Corasick
/// automaton behind it, whose construction the set unwraps.
pub open spec fn glob_fits(glob: Seq<char>) -> bool {
    utf8_len(glob) < 0x4000_0000
}

/// A glob that builds, and whose glob set builds.
pub open spec fn compiled(glob: Seq<char>) -> bool {
    glob_fits(glob) && glob_error(glob) is None && glob_set_error(glob) is None
}

/// Builds `glob` with `globset::GlobBuilder`, `*` and `?` not matching `/`
/// (`literal_separator`). Claimed: the result is the name `glob_error` of
/// the glob, the text (`Display`) of `globset::Error` where building fails.
#[verifier::external_body]
fn build_glob(glob: &str) -> (r: Option<String>)
    ensures
        match r {
            Some(e) => glob_error(glob@) == Some(e@),
            None => glob_error(glob@) is None,
        },
{
    globset::GlobBuilder::new(glob).literal_separator(true).build().err().map(|e| e.to_string())
}

/// Builds `glob` as `build_glob` does and then a `globset::GlobSet` of it
/// with `GlobSetBuilder::build`, which reports a regular expression that is
/// too large as an error. Claimed: the result is the name `glob_set_error`,
/// the text of that error. The glob builds (`requires`), and it fits, so
/// the literal automata that the set unwraps are built.
#[verifier::external_body]
fn build_glob_set(glob: &str) -> (r: Option<String>)
    requires
        glob_error(glob@) is None,
        glob_fits(glob@),
    ensures
        match r {
            Some(e) => glob_set_error(glob@) == Some(e@),
            None => glob_set_error(glob@) is None,
        },
{
    let built = globset::GlobBuilder::new(glob).literal_separator(true).build();
    built.and_then(|g| globset::GlobSetBuilder::new().add(g).build()).err().map(|e| e.to_string())
}

/// Builds the glob set of `glob` as `build_glob_set` does and tests `path`
/// with `GlobSet::is_match`. Claimed: the result is the name `glob_match` of
/// the glob and path.
#[verifier::external_body]
fn glob_is_match(glob: &str, path: &str) -> (r: bool)
    requires
        compiled(glob@),
    ensures
        r == glob_match(glob@, path@),
{
    let built = globset::GlobBuilder::new(glob).literal_separator(true).build();
    let set = built.and_then(|g| globset::GlobSetBuilder::new().add(g).build());
    set.map_or(false, |set| set.is_match(path))
}

/// `format!("{:?}", s)`. Claimed: the result is the name `str_debug` of `s`.
#[verifier::external_body]
fn debug_text(s: &str) -> (r: String)
    ensures
        r@ == str_debug(s@),
{
    format!("{:?}", s)
}

/// `g` without the `./` prefixes it starts with.
pub open spec fn strip_current(g: Seq<char>) -> Seq<char>
    decreases g.len(),
{
    if g.len() >= 2 && g[0] == '.' && g[1] == '/' {
        strip_current(g.skip(2))
    } else {
        g
    }
}

/// Whether a pattern excludes, and its glob: a leading `!` marks an
/// exclusion and is dropped, then leading `./` are.
pub open spec fn pattern_parts(p: Seq<char>) -> (bool, Seq<char>) {
    if p.len() > 0 && p[0] == '!' {
        (true, strip_current(p.skip(1)))
    } else {
        (false, strip_current(p))
    }
}

/// Whether `g` has a `..` segment.
pub open spec fn has_parent_segment(g: Seq<char>) -> bool {
    exists|k: int|
        0 <= k && k + 2 <= g.len() && #[trigger] g[k] == '.' && g[k + 1] == '.' && (k == 0 || g[k
            - 1] == '/') && (k + 2 == g.len() || g[k + 2] == '/')
}

/// A glob that may be used: not empty, not negated twice, relative, and
/// never leaving the configuration's directory.
pub open spec fn usable_glob(g: Seq<char>) -> bool {
    g.len() > 0 && g[0] != '!' && g[0] != '/' && !has_parent_segment(g)
}

/// The start of the messages about the pattern at `index`.
pub open spec fn includes_prefix(index: nat) -> Seq<char> {
    "includes["@ + decimal(index) + "]: "@
}

/// The pattern at `index` of the configuration at `path`, read: whether it
/// excludes and its glob, or the error, with the configuration's path.
pub open spec fn parse_spec(path: Seq<char>, index: nat, p: Seq<char>) -> Result<
    (bool, Seq<char>),
    (Seq<char>, Seq<char>),
> {
    let (exclude, g) = pattern_parts(p);
    if !usable_glob(g) {
        Err((path, includes_prefix(index) + "無効な相対 glob: "@ + str_debug(p)))
    } else {
        match glob_error(g) {
            Some(e) => Err((path, includes_prefix(index) + e)),
            None => match glob_set_error(g) {
                Some(e) => Err((path, includes_prefix(index) + e)),
                None => Ok((exclude, g)),
            },
        }
    }
}

/// A pattern of `includes`: a glob, and whether it includes or excludes the
/// paths it matches.
pub struct Pattern {
    exclude: bool,
    glob: String,
}

/// Whether `path` ends a segment of `p` at `k`: one of the paths that `p`
/// is in, `p` itself included.
pub open spec fn ancestor_end(p: Seq<char>, k: int) -> bool {
    0 < k <= p.len() && (k == p.len() || p[k] == '/')
}

/// Whether the glob `g` matches `p` or a directory that `p` is in.
pub open spec fn pattern_matches(g: Seq<char>, p: Seq<char>) -> bool {
    exists|k: int|
        ancestor_end(p, k) && #[trigger] glob_match(g, p.take(k))
}

/// A relative path of non-empty segments between single slashes, none of
/// them `.`.
pub open spec fn plain_relative(p: Seq<char>) -> bool {
    &&& forall|k: int| 0 <= k < p.len() && #[trigger] p[k] == '/' ==> 0 < k < p.len() - 1 && p[k + 1] != '/'
    &&& forall|k: int|
        0 <= k < p.len() && #[trigger] p[k] == '.' && (k == 0 || p[k - 1] == '/') ==> k + 1 < p.len()
            && p[k + 1] != '/'
}

/// Whether `path` is a plain relative path; see [`plain_relative`].
pub fn is_plain_relative(path: &str) -> (r: bool)
    ensures
        r == plain_relative(path@),
{
    let p = chars_of(path);
    let n = p.len();
    let mut k: usize = 0;
    while k < n
        invariant
            p@ == path@,
            n == p@.len(),
            k <= n,
            forall|j: int| 0 <= j < k && #[trigger] p@[j] == '/' ==> 0 < j < n - 1 && p@[j + 1] != '/',
            forall|j: int|
                0 <= j < k && #[trigger] p@[j] == '.' && (j == 0 || p@[j - 1] == '/') ==> j + 1 < n
                    && p@[j + 1] != '/',
        decreases n - k,
    {
        if p[k] == '/' && !(0 < k && k + 1 < n && p[k + 1] != '/') {
            proof {
                assert(path@[k as int] == '/');
            }
            return false;
        }
        if p[k] == '.' && (k == 0 || p[k - 1] == '/') && !(k + 1 < n && p[k + 1] != '/') {
            proof {
                assert(path@[k as int] == '.');
            }
            return false;
        }
        k = k + 1;
    }
    true
}

impl Pattern {
    /// Whether the pattern excludes, and its glob.
    pub closed spec fn view(&self) -> (bool, Seq<char>) {
        (self.exclude, self.glob@)
    }

    /// A pattern's glob builds, and so does its glob set.
    #[verifier::type_invariant]
    closed spec fn inv(self) -> bool {
        compiled(self.glob@)
    }

    /// Whether the pattern excludes the paths it matches.
    pub fn exclude(&self) -> (r: bool)
        ensures
            r == self@.0,
    {
        self.exclude
    }

    /// The pattern's glob.
    pub fn glob(&self) -> (r: &str)
        ensures
            r@ == self@.1,
    {
        self.glob.as_str()
    }

    /// Reads the pattern at `index` of the configuration at `path`; see
    /// [`parse_spec`].
    pub fn parse(path: &str, index: usize, pattern: &str) -> (r: Result<Pattern, ConfigError>)
        requires
            glob_fits(pattern@),
        ensures
            match r {
                Ok(p) => parse_spec(path@, index as nat, pattern@) == Ok::<
                    (bool, Seq<char>),
                    (Seq<char>, Seq<char>),
                >(p@),
                Err(e) => parse_spec(path@, index as nat, pattern@) == Err::<
                    (bool, Seq<char>),
                    (Seq<char>, Seq<char>),
                >((e.path@, e.message@)),
            },
    {
        let p = chars_of(pattern);
        let exclude = p.len() > 0 && p[0] == '!';
        let mut i: usize = if exclude {
            1
        } else {
            0
        };
        proof {
            assert(p@.skip(0) =~= p@);
        }
        while i < p.len() && p.len() - i >= 2 && p[i] == '.' && p[i + 1] == '/'
            invariant
                p@ == pattern@,
                i <= p@.len(),
                strip_current(p@.skip(i as int)) == pattern_parts(pattern@).1,
            decreases p@.len() - i,
        {
            proof {
                assert(p@.skip(i as int).skip(2) =~= p@.skip(i + 2));
            }
            i = i + 2;
        }
        let ghost g = p@.skip(i as int);
        proof {
            assert(strip_current(g) == g);
        }
        // Whether the glob has a `..` segment.
        let n = p.len();
        let mut parent = false;
        let mut k: usize = i;
        while k < n && !parent
            invariant
                p@ == pattern@,
                g == p@.skip(i as int),
                i <= k <= n,
                n == p@.len(),
                parent ==> has_parent_segment(g),
                !parent ==> forall|j: int|
                    i <= j < k ==> !(j + 2 <= n && #[trigger] p@[j] == '.' && p@[j + 1] == '.' && (j
                        == i || p@[j - 1] == '/') && (j + 2 == n || p@[j + 2] == '/')),
            decreases n - k,
        {
            if n - k >= 2 && p[k] == '.' && p[k + 1] == '.' && (k == i || p[k - 1] == '/') && (n - k
                == 2 || p[k + 2] == '/') {
                proof {
                    assert(g[k - i] == '.');
                    assert(has_parent_segment(g));
                }
                parent = true;
            }
            k = k + 1;
        }
        proof {
            if !parent {
                assert(!has_parent_segment(g)) by {
                    assert forall|j: int|
                        0 <= j && j + 2 <= g.len() && #[trigger] g[j] == '.' && g[j + 1] == '.'
                            && (j == 0 || g[j - 1] == '/') implies !(j + 2 == g.len() || g[j + 2]
                        == '/') by {
                        assert(p@[i + j] == '.');
                    }
                }
            }
        }
        let usable = i < n && p[i] != '!' && p[i] != '/' && !parent;
        if !usable {
            let mut message = String::from_str("includes[");
            let number = decimal_string(index);
            message.append(number.as_str());
            message.append("]: 無効な相対 glob: ");
            let quoted = debug_text(pattern);
            message.append(quoted.as_str());
            proof {
                reveal_strlit("includes[");
                reveal_strlit("]: 無効な相対 glob: ");
                reveal_strlit("]: ");
                reveal_strlit("無効な相対 glob: ");
                assert(message@ =~= includes_prefix(index as nat) + "無効な相対 glob: "@ + str_debug(
                    pattern@,
                ));
            }
            return Err(ConfigError::new(path, message));
        }
        let glob = string_of(p.as_slice(), i, n);
        proof {
            assert(glob@ =~= g);
        }
        match build_glob(glob.as_str()) {
            Some(e) => {
                let mut message = String::from_str("includes[");
                let number = decimal_string(index);
                message.append(number.as_str());
                message.append("]: ");
                message.append(e.as_str());
                proof {
                    reveal_strlit("includes[");
                    reveal_strlit("]: ");
                    assert(message@ =~= includes_prefix(index as nat) + e@);
                }
                Err(ConfigError::new(path, message))
            },
            None => {
                proof {
                    lemma_utf8_len_concat(p@.take(i as int), p@.skip(i as int));
                    assert(p@.take(i as int) + p@.skip(i as int) =~= p@);
                }
                match build_glob_set(glob.as_str()) {
                    Some(e) => {
                        let mut message = String::from_str("includes[");
                        let number = decimal_string(index);
                        message.append(number.as_str());
                        message.append("]: ");
                        message.append(e.as_str());
                        proof {
                            reveal_strlit("includes[");
                            reveal_strlit("]: ");
                            assert(message@ =~= includes_prefix(index as nat) + e@);
                        }
                        Err(ConfigError::new(path, message))
                    },
                    None => Ok(Pattern { exclude, glob }),
                }
            },
        }
    }

    /// Whether the pattern's glob matches the relative path `path` or one
    /// of the directories it is in.
    pub fn matches(&self, path: &str) -> (r: bool)
        requires
            plain_relative(path@),
        ensures
            r == pattern_matches(self@.1, path@),
    {
        proof {
            use_type_invariant(self);
        }
        let p = chars_of(path);
        let n = p.len();
        let mut k: usize = 1;
        while k < n
            invariant
                p@ == path@,
                n == p@.len(),
                1 <= k,
                forall|j: int|
                    0 < j < k && ancestor_end(path@, j) ==> !glob_match(self.glob@, path@.take(j)),
                compiled(self.glob@),
            decreases n - k,
        {
            if p[k] == '/' {
                let ancestor = string_of(p.as_slice(), 0, k);
                proof {
                    assert(ancestor@ =~= path@.take(k as int));
                }
                if glob_is_match(self.glob.as_str(), ancestor.as_str()) {
                    return true;
                }
            }
            k = k + 1;
        }
        if n == 0 {
            return false;
        }
        let whole = string_of(p.as_slice(), 0, n);
        proof {
            assert(whole@ =~= path@.take(n as int));
        }
        glob_is_match(self.glob.as_str(), whole.as_str())
    }
}

/// Whether the last of the patterns that matches `p` includes it; false
/// where none matches.
pub open spec fn included(ps: Seq<(bool, Seq<char>)>, p: Seq<char>) -> bool
    decreases ps.len(),
{
    if ps.len() == 0 {
        false
    } else if pattern_matches(ps.last().1, p) {
        !ps.last().0
    } else {
        included(ps.drop_last(), p)
    }
}

pub open spec fn string_views(v: Seq<String>) -> Seq<Seq<char>> {
    v.map_values(|s: String| s@)
}

pub open spec fn pattern_views(v: Seq<Pattern>) -> Seq<(bool, Seq<char>)> {
    v.map_values(|p: Pattern| p@)
}

/// The patterns of `ps` read in order, or the error of the first that
/// cannot be read.
pub open spec fn parse_all(path: Seq<char>, ps: Seq<Seq<char>>) -> Result<
    Seq<(bool, Seq<char>)>,
    (Seq<char>, Seq<char>),
>
    decreases ps.len(),
{
    if ps.len() == 0 {
        Ok(seq![])
    } else {
        match parse_all(path, ps.drop_last()) {
            Err(e) => Err(e),
            Ok(v) => match parse_spec(path, (ps.len() - 1) as nat, ps.last()) {
                Err(e) => Err(e),
                Ok(p) => Ok(v.push(p)),
            },
        }
    }
}

/// A configuration: the directory that its patterns are relative to,
/// whether git's ignore files apply, and the patterns, where it has them.
pub struct Config {
    pub root: String,
    pub use_git_ignore_file: bool,
    pub includes: Option<Vec<Pattern>>,
}

impl Config {
    /// The patterns, where the configuration has them.
    pub open spec fn spec_includes(&self) -> Option<Seq<(bool, Seq<char>)>> {
        match self.includes {
            Some(v) => Some(pattern_views(v@)),
            None => None,
        }
    }

    /// The configuration where no file is found: everything in `root` is
    /// included and git's ignore files apply.
    pub fn default_at(root: String) -> (r: Config)
        ensures
            r.root == root,
            r.use_git_ignore_file,
            r.spec_includes() is None,
    {
        Config { root, use_git_ignore_file: true, includes: None }
    }

    /// The configuration read from the file at `path` in the directory
    /// `root`, from the values it holds; an error where one of the patterns
    /// cannot be read (the first such).
    pub fn from_values(
        path: &str,
        root: String,
        use_git_ignore_file: bool,
        includes: Option<Vec<String>>,
    ) -> (r: Result<Config, ConfigError>)
        requires
            includes matches Some(v) ==> forall|k: int|
                0 <= k < v@.len() ==> glob_fits(#[trigger] v@[k]@),
        ensures
            match includes {
                None => r matches Ok(c) && c.root == root && c.use_git_ignore_file
                    == use_git_ignore_file && c.spec_includes() is None,
                Some(v) => match parse_all(path@, string_views(v@)) {
                    Ok(ps) => r matches Ok(c) && c.root == root && c.use_git_ignore_file
                        == use_git_ignore_file && c.spec_includes() == Some(ps),
                    Err(e) => r matches Err(err) && (err.path@, err.message@) == e,
                },
            },
    {
        match includes {
            None => Ok(Config { root, use_git_ignore_file, includes: None }),
            Some(v) => {
                let ghost sv = string_views(v@);
                let mut patterns: Vec<Pattern> = Vec::new();
                let mut k: usize = 0;
                proof {
                    assert(sv.take(0) =~= Seq::<Seq<char>>::empty());
                    assert(pattern_views(patterns@) =~= Seq::<(bool, Seq<char>)>::empty());
                }
                while k < v.len()
                    invariant
                        sv == string_views(v@),
                        includes == Some(v),
                        forall|j: int| 0 <= j < v@.len() ==> glob_fits(#[trigger] v@[j]@),
                        k <= v@.len(),
                        parse_all(path@, sv.take(k as int)) == Ok::<
                            Seq<(bool, Seq<char>)>,
                            (Seq<char>, Seq<char>),
                        >(pattern_views(patterns@)),
                    decreases v@.len() - k,
                {
                    proof {
                        assert(sv.take(k + 1).drop_last() =~= sv.take(k as int));
                        assert(sv.take(k + 1).last() == v@[k as int]@);
                    }
                    match Pattern::parse(path, k, v[k].as_str()) {
                        Ok(p) => {
                            proof {
                                assert(pattern_views(patterns@.push(p)) =~= pattern_views(
                                    patterns@,
                                ).push(p@));
                            }
                            patterns.push(p);
                        },
                        Err(e) => {
                            proof {
                                assert(parse_all(path@, sv.take(k + 1)) == Err::<
                                    Seq<(bool, Seq<char>)>,
                                    (Seq<char>, Seq<char>),
                                >((e.path@, e.message@)));
                                lemma_parse_all_err(path@, sv, k + 1);
                            }
                            return Err(e);
                        },
                    }
                    k = k + 1;
                }
                proof {
                    assert(sv.take(v@.len() as int) =~= sv);
                }
                Ok(Config { root, use_git_ignore_file, includes: Some(patterns) })
            },
        }
    }

    /// Whether the configuration has patterns.
    pub fn has_includes(&self) -> (r: bool)
        ensures
            r == self.spec_includes() is Some,
    {
        self.includes.is_some()
    }

    /// Whether a file is checked: always where the configuration has no
    /// patterns; else never where the file is outside `root` (`relative` is
    /// `None`), and else where the last pattern that matches its path
    /// relative to `root` includes it.
    pub fn includes(&self, relative: Option<&str>) -> (r: bool)
        requires
            relative matches Some(p) ==> plain_relative(p@),
        ensures
            r == match self.spec_includes() {
                None => true,
                Some(ps) => match relative {
                    None => false,
                    Some(p) => included(ps, p@),
                },
            },
    {
        match &self.includes {
            None => true,
            Some(patterns) => match relative {
                None => false,
                Some(p) => {
                    let ghost pv = pattern_views(patterns@);
                    let mut result = false;
                    let mut k: usize = 0;
                    proof {
                        assert(pv.take(0) =~= Seq::<(bool, Seq<char>)>::empty());
                    }
                    while k < patterns.len()
                        invariant
                            pv == pattern_views(patterns@),
                            plain_relative(p@),
                            k <= pv.len(),
                            result == included(pv.take(k as int), p@),
                        decreases pv.len() - k,
                    {
                        proof {
                            assert(pv.take(k + 1).drop_last() =~= pv.take(k as int));
                            assert(pv.take(k + 1).last() == patterns@[k as int]@);
                        }
                        if patterns[k].matches(p) {
                            result = !patterns[k].exclude;
                        }
                        k = k + 1;
                    }
                    proof {
                        assert(pv.take(pv.len() as int) =~= pv);
                    }
                    result
                },
            },
        }
    }
}

proof fn lemma_parse_all_err(path: Seq<char>, ps: Seq<Seq<char>>, k: int)
    requires
        0 < k <= ps.len(),
        parse_all(path, ps.take(k)) is Err,
    ensures
        parse_all(path, ps) == parse_all(path, ps.take(k)),
    decreases ps.len() - k,
{
    if k < ps.len() {
        assert(ps.take(k + 1).drop_last() =~= ps.take(k));
        lemma_parse_all_err(path, ps, k + 1);
    } else {
        assert(ps.take(k) =~= ps);
    }
}

} // verus!
