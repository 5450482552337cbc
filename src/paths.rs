//! File paths, written with `/` between components: the parent of a path,
//! joining a name onto a directory, and resolving a script path as a
//! project declares it.
use vstd::prelude::*;
use crate::names::{names_match, eq_ignore_case};

verus! {

/// The index of the last `/` of `p`, or -1.
pub open spec fn last_slash(p: Seq<char>) -> int
    decreases p.len(),
{
    if p.len() == 0 {
        -1
    } else if p.last() == '/' {
        p.len() - 1
    } else {
        last_slash(p.drop_last())
    }
}

/// The directory that holds `p`, if `p` has one.
pub open spec fn parent(p: Seq<char>) -> Option<Seq<char>> {
    let k = last_slash(p);
    if k < 0 {
        None
    } else if k == 0 {
        if p.len() > 1 {
            Some(seq!['/'])
        } else {
            None
        }
    } else {
        Some(p.subrange(0, k))
    }
}

/// `name` inside the directory `dir`.
pub open spec fn join(dir: Seq<char>, name: Seq<char>) -> Seq<char> {
    if dir.len() > 0 && dir.last() == '/' {
        dir + name
    } else {
        dir + seq!['/'] + name
    }
}

proof fn lemma_last_slash_at(p: Seq<char>, k: int)
    requires
        -1 <= k < p.len(),
        k >= 0 ==> p[k] == '/',
        forall|j: int| k < j < p.len() ==> #[trigger] p[j] != '/',
    ensures
        last_slash(p) == k,
    decreases p.len(),
{
    if p.len() > 0 && k < p.len() - 1 {
        assert forall|j: int| k < j < p.len() - 1 implies #[trigger] p.drop_last()[j] != '/' by {
            assert(p.drop_last()[j] == p[j]);
        }
        lemma_last_slash_at(p.drop_last(), k);
    }
}

/// A string literal of one character.
fn slash() -> (r: String)
    ensures
        r@ == seq!['/'],
{
    let r = String::from_str("/");
    proof {
        reveal_strlit("/");
    }
    assert(r@ =~= seq!['/']);
    r
}

/// The directory that holds `p`, if `p` has one.
pub fn parent_of(p: &String) -> (r: Option<String>)
    ensures
        match r {
            Some(d) => parent(p@) == Some(d@),
            None => parent(p@) is None,
        },
{
    let n = p.as_str().unicode_len();
    let mut k: usize = n;
    while k > 0 && p.as_str().get_char(k - 1) != '/'
        invariant
            n == p@.len(),
            k <= n,
            forall|j: int| k <= j < n ==> #[trigger] p@[j] != '/',
        decreases k,
    {
        k = k - 1;
    }
    proof {
        lemma_last_slash_at(p@, k - 1);
    }
    if k == 0 {
        return None;
    }
    if k == 1 {
        if n > 1 {
            return Some(slash());
        }
        return None;
    }
    let d = p.as_str().substring_char(0, k - 1);
    Some(String::from_str(d))
}

/// `name` inside the directory `dir`.
pub fn join_path(dir: &String, name: &str) -> (r: String)
    ensures
        r@ == join(dir@, name@),
{
    let n = dir.as_str().unicode_len();
    let mut r = dir.clone();
    if !(n > 0 && dir.as_str().get_char(n - 1) == '/') {
        r.append("/");
        proof {
            reveal_strlit("/");
        }
        assert("/"@ =~= seq!['/']);
    }
    r.append(name);
    r
}

/// The order in which marker files are looked for in each directory.
#[derive(Debug, Clone, Copy, PartialEq, Eq, Structural)]
pub enum MarkerKind {
    /// `config.cpp`, the descriptor of an addon.
    Addon,
    /// `description.ext`, the descriptor of a mission.
    Mission,
}

pub open spec fn marker_name(kind: MarkerKind) -> Seq<char> {
    match kind {
        MarkerKind::Addon => "config.cpp"@,
        MarkerKind::Mission => "description.ext"@,
    }
}

impl MarkerKind {
    /// The name of the marker file of this kind.
    pub fn file_name(&self) -> (r: &'static str)
        ensures
            r@ == marker_name(*self),
    {
        match self {
            MarkerKind::Addon => "config.cpp",
            MarkerKind::Mission => "description.ext",
        }
    }
}

/// The search for the project that holds a file: each directory from the
/// file's own up to the root is tried, for an addon marker and then for a
/// mission marker, until a marker yields declarations.
#[derive(Debug)]
pub struct Locator {
    /// The directory being tried, or none when the search is over.
    pub dir: Option<String>,
    pub kind: MarkerKind,
}

/// The candidate marker file of a search state.
pub open spec fn candidate_of(dir: Option<String>, kind: MarkerKind) -> Option<Seq<char>> {
    match dir {
        Some(d) => Some(join(d@, marker_name(kind))),
        None => None,
    }
}

/// `dir` holds the text of `expected`.
pub open spec fn candidate_dir(dir: Option<String>, expected: Option<Seq<char>>) -> bool {
    match dir {
        Some(p) => expected == Some(p@),
        None => expected is None,
    }
}

impl Locator {
    /// The search for the project that holds the file `path`.
    pub fn new(path: &String) -> (r: Locator)
        ensures
            match r.dir {
                Some(d) => parent(path@) == Some(d@),
                None => parent(path@) is None,
            },
            r.kind == MarkerKind::Addon,
    {
        Locator { dir: parent_of(path), kind: MarkerKind::Addon }
    }

    /// The marker file to try next, if any is left.
    pub fn candidate(&self) -> (r: Option<String>)
        ensures
            match r {
                Some(c) => candidate_of(self.dir, self.kind) == Some(c@),
                None => candidate_of(self.dir, self.kind) is None,
            },
    {
        match &self.dir {
            Some(d) => Some(join_path(d, self.kind.file_name())),
            None => None,
        }
    }

    /// Moves past a candidate that yielded no declarations: to the mission
    /// marker of the same directory, or to the addon marker of its parent.
    pub fn advance(&mut self)
        ensures
            match old(self).dir {
                None => final(self).dir is None,
                Some(d) => match old(self).kind {
                    MarkerKind::Addon => final(self).dir == Some(d) && final(self).kind
                        == MarkerKind::Mission,
                    MarkerKind::Mission => final(self).kind == MarkerKind::Addon && candidate_dir(
                        final(self).dir,
                        parent(d@),
                    ),
                },
            },
    {
        match self.kind {
            MarkerKind::Addon => {
                if self.dir.is_some() {
                    self.kind = MarkerKind::Mission;
                }
            },
            MarkerKind::Mission => {
                let next = match &self.dir {
                    Some(d) => parent_of(d),
                    None => None,
                };
                self.dir = next;
                self.kind = MarkerKind::Addon;
            },
        }
    }
}


/// A name that declared paths may start with, and the directory it stands for.
#[derive(Debug)]
pub struct Alias {
    pub name: String,
    pub path: String,
}

impl Alias {
    /// An alias from the settings: its directory is written with slashes.
    pub fn new(name: String, path: &String) -> (r: Alias)
        ensures
            r.name == name,
            r.path@ == normalized(path@),
    {
        let d = normalize_from(path.as_str(), 0);
        assert(path@.subrange(0, path@.len() as int) =~= path@);
        Alias { name, path: d }
    }
}

pub open spec fn is_separator(c: char) -> bool {
    c == '\\' || c == '/'
}

/// `s` with each backslash written as a slash.
pub open spec fn normalized(s: Seq<char>) -> Seq<char> {
    s.map_values(|c: char| if c == '\\' { '/' } else { c })
}

/// The index of the first separator of `s`, or its length.
pub open spec fn first_separator(s: Seq<char>) -> int
    decreases s.len(),
{
    if s.len() == 0 {
        0
    } else if is_separator(s[0]) {
        0
    } else {
        1 + first_separator(s.drop_first())
    }
}

/// The directory of the last alias named `name`, compared without regard
/// to case.
pub open spec fn alias_target(aliases: Seq<Alias>, name: Seq<char>) -> Option<String>
    decreases aliases.len(),
{
    if aliases.len() == 0 {
        None
    } else if names_match(aliases.last().name@, name) {
        Some(aliases.last().path)
    } else {
        alias_target(aliases.drop_last(), name)
    }
}

/// The file that a declared script path names. A path that starts with a
/// separator starts with an alias, which the alias table resolves; any
/// other path is relative to `base`. Backslashes become slashes.
pub open spec fn resolved(declared: Seq<char>, base: Seq<char>, aliases: Seq<Alias>) -> Option<
    Seq<char>,
> {
    if declared.len() == 0 {
        None
    } else if !is_separator(declared[0]) {
        Some(join(base, normalized(declared)))
    } else {
        let rest = declared.drop_first();
        let k = first_separator(rest);
        match alias_target(aliases, rest.subrange(0, k)) {
            Some(t) => if k == rest.len() {
                Some(t@)
            } else {
                Some(join(t@, normalized(rest.subrange(k + 1, rest.len() as int))))
            },
            None => None,
        }
    }
}

proof fn lemma_first_separator_at(s: Seq<char>, m: int)
    requires
        0 <= m <= s.len(),
        forall|k: int| 0 <= k < m ==> !is_separator(#[trigger] s[k]),
        m < s.len() ==> is_separator(s[m]),
    ensures
        first_separator(s) == m,
    decreases s.len(),
{
    if s.len() > 0 && m > 0 {
        assert(!is_separator(s[0]));
        assert forall|k: int| 0 <= k < m - 1 implies !is_separator(#[trigger] s.drop_first()[k]) by {
            assert(s.drop_first()[k] == s[k + 1]);
        }
        lemma_first_separator_at(s.drop_first(), m - 1);
    }
}

/// `s[from..]` with each backslash written as a slash.
fn normalize_from(s: &str, from: usize) -> (r: String)
    requires
        from <= s@.len(),
    ensures
        r@ == normalized(s@.subrange(from as int, s@.len() as int)),
{
    let n = s.unicode_len();
    let mut r = String::new();
    let mut i: usize = from;
    while i < n
        invariant
            n == s@.len(),
            from <= i <= n,
            r@ == normalized(s@.subrange(from as int, i as int)),
        decreases n - i,
    {
        let ghost before = r@;
        if s.get_char(i) == '\\' {
            r.append("/");
            proof {
                reveal_strlit("/");
            }
            assert("/"@ =~= seq!['/']);
        } else {
            r.append(s.substring_char(i, i + 1));
        }
        i = i + 1;
        assert(r@ =~= normalized(s@.subrange(from as int, i as int)));
    }
    r
}

/// The directory of the last alias named `name`.
fn find_alias<'a>(aliases: &'a Vec<Alias>, name: &String) -> (r: Option<&'a String>)
    ensures
        match r {
            Some(p) => alias_target(aliases@, name@) == Some(*p),
            None => alias_target(aliases@, name@) is None,
        },
{
    let mut i: usize = aliases.len();
    assert(aliases@.subrange(0, i as int) =~= aliases@);
    while i > 0
        invariant
            i <= aliases@.len(),
            alias_target(aliases@, name@) == alias_target(aliases@.subrange(0, i as int), name@),
        decreases i,
    {
        let ghost prefix = aliases@.subrange(0, i as int);
        assert(prefix.drop_last() =~= aliases@.subrange(0, i - 1));
        if eq_ignore_case(aliases[i - 1].name.as_str(), name.as_str()) {
            return Some(&aliases[i - 1].path);
        }
        i = i - 1;
    }
    None
}

/// The file that a declared script path names, if its alias is known.
pub fn resolve(declared: &String, base: &String, aliases: &Vec<Alias>) -> (r: Option<String>)
    ensures
        match r {
            Some(p) => resolved(declared@, base@, aliases@) == Some(p@),
            None => resolved(declared@, base@, aliases@) is None,
        },
{
    let s = declared.as_str();
    let n = s.unicode_len();
    if n == 0 {
        return None;
    }
    let c0 = s.get_char(0);
    if !(c0 == '\\' || c0 == '/') {
        let rel = normalize_from(s, 0);
        assert(s@.subrange(0, n as int) =~= s@);
        return Some(join_path(base, rel.as_str()));
    }
    let mut k: usize = 1;
    while k < n && !(s.get_char(k) == '\\' || s.get_char(k) == '/')
        invariant
            n == s@.len(),
            1 <= k <= n,
            forall|j: int| 1 <= j < k ==> !is_separator(#[trigger] s@[j]),
        decreases n - k,
    {
        k = k + 1;
    }
    let ghost rest = s@.drop_first();
    proof {
        assert forall|j: int| 0 <= j < k - 1 implies !is_separator(#[trigger] rest[j]) by {
            assert(rest[j] == s@[j + 1]);
        }
        if k < n {
            assert(rest[k - 1] == s@[k as int]);
        }
        lemma_first_separator_at(rest, k - 1);
    }
    let alias = String::from_str(s.substring_char(1, k));
    assert(alias@ =~= rest.subrange(0, k - 1));
    match find_alias(aliases, &alias) {
        Some(target) => {
            if k == n {
                Some(target.clone())
            } else {
                let tail = normalize_from(s, k + 1);
                assert(s@.subrange(k + 1, n as int) =~= rest.subrange(k as int, rest.len() as int));
                Some(join_path(target, tail.as_str()))
            }
        },
        None => None,
    }
}

} // verus!
