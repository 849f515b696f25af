use crate::glob::{glob_match_bytes, glob_matches};
use crate::paths::{
    clone_bytes, join_path, join_path_bytes, path_eq, path_range, split_path, split_path_bytes,
    SLASH,
};
use crate::text::{
    bytes_range, eq_bytes, first_ws, is_ws, is_ws_byte, lemma_first_ws_is, lemma_ws_end_is, lower,
    lower_bytes, spec_lines, split_lines, views_of, ws_end, SPACE,
};
use vstd::prelude::*;

verus! {

broadcast use vstd::std_specs::vec::group_vec_axioms;

/// One entry under consideration: its path relative to the walk's root, and
/// whether it is a directory, where that could be decided.
#[derive(Debug)]
pub struct FsEntry {
    pub path: Vec<Vec<u8>>,
    pub is_directory: Option<bool>,
}

/// The mathematical shape of an entry.
pub ghost struct FsEntryV {
    pub path: Seq<Seq<u8>>,
    pub is_directory: Option<bool>,
}

impl View for FsEntry {
    type V = FsEntryV;

    open spec fn view(&self) -> FsEntryV {
        FsEntryV { path: views_of(self.path@), is_directory: self.is_directory }
    }
}

/// The views of a list of entries.
pub open spec fn entry_views(s: Seq<FsEntry>) -> Seq<FsEntryV> {
    Seq::new(s.len(), |i: int| s[i]@)
}

/// An ordered list of ignore rules; a later rule overrides the earlier ones.
#[derive(Debug, PartialEq, Eq)]
pub struct Ignore(pub Vec<Specifier>);

/// One ignore rule.
#[derive(Debug, PartialEq, Eq)]
pub enum Specifier {
    /// Inverts what its rules answer; what they leave open stays open.
    Except(Ignore),
    /// Matches entries of any kind by their path.
    Entries(Match),
    /// Matches non-directories by their path.
    Files(Match),
    /// Scopes into directories: `inner` sees paths relative to the matched
    /// directory. With no inner rules it matches the directory itself.
    InDir { dir: Match, inner: Ignore },
}

/// How a rule recognises a path.
#[derive(Debug, PartialEq, Eq)]
pub enum Match {
    Any,
    Eq(Vec<Vec<u8>>),
    Glob(Vec<u8>),
}

/// Whether a matcher recognises a component path.
pub open spec fn spec_match_matches(m: Match, path: Seq<Seq<u8>>) -> bool {
    match m {
        Match::Any => true,
        Match::Eq(v) => views_of(v@) == path,
        Match::Glob(g) => glob_matches(g@, join_path(path)),
    }
}

/// The candidates an `InDir` rule tries: for every strict prefix of the
/// entry's path of length below `n` that the directory matcher recognises,
/// the entry seen relative to that prefix; longest prefix first.
pub open spec fn candidates_below(dir: Match, e: FsEntryV, n: int) -> Seq<FsEntryV>
    decreases n,
{
    if n <= 0 {
        seq![]
    } else {
        let plen = n - 1;
        let rest = candidates_below(dir, e, plen);
        if spec_match_matches(dir, e.path.take(plen)) {
            seq![FsEntryV { path: e.path.skip(plen), is_directory: e.is_directory }] + rest
        } else {
            rest
        }
    }
}

/// All candidates of an `InDir` rule for this entry.
pub open spec fn spec_candidates(dir: Match, e: FsEntryV) -> Seq<FsEntryV> {
    candidates_below(dir, e, e.path.len() as int)
}

/// The verdict of the rules of `ig` for `e`: the rules are tried from the
/// last to the first, and the first one with an answer decides.
pub open spec fn spec_ignore_matches(ig: Ignore, e: FsEntryV) -> Option<bool>
    decreases ig, 1int, 0int,
{
    spec_scan(ig.0@, ig.0@.len() as int, e)
}

/// The verdict of the first `i` rules, tried backwards from rule `i - 1`.
pub open spec fn spec_scan(specs: Seq<Specifier>, i: int, e: FsEntryV) -> Option<bool>
    decreases specs, 0int, i,
{
    if i <= 0 || i > specs.len() {
        None
    } else {
        match spec_specifier_matches(specs[i - 1], e) {
            Some(v) => Some(v),
            None => spec_scan(specs, i - 1, e),
        }
    }
}

/// The verdict of one rule for one entry.
pub open spec fn spec_specifier_matches(s: Specifier, e: FsEntryV) -> Option<bool>
    decreases s, 1int, 0int,
{
    match s {
        Specifier::Except(inner) => match spec_ignore_matches(inner, e) {
            Some(v) => Some(!v),
            None => None,
        },
        Specifier::Entries(m) => if spec_match_matches(m, e.path) {
            Some(true)
        } else {
            None
        },
        Specifier::Files(m) => if e.is_directory == Some(false) && spec_match_matches(m, e.path) {
            Some(true)
        } else {
            None
        },
        Specifier::InDir { dir, inner } => if inner.0@.len() == 0 {
            if e.is_directory == Some(true) && spec_match_matches(dir, e.path) {
                Some(true)
            } else {
                None
            }
        } else {
            spec_matches_of(inner, spec_candidates(dir, e))
        },
    }
}

/// The verdict of the rules of `ig` over a list of entries: rules are tried
/// from the last to the first, each against every entry in order, and the
/// first answer decides.
pub open spec fn spec_matches_of(ig: Ignore, es: Seq<FsEntryV>) -> Option<bool>
    decreases ig, 1int, 0int,
{
    spec_scan_of(ig.0@, ig.0@.len() as int, es)
}

/// As `spec_matches_of`, over the first `i` rules.
pub open spec fn spec_scan_of(specs: Seq<Specifier>, i: int, es: Seq<FsEntryV>) -> Option<bool>
    decreases specs, 0int, i,
{
    if i <= 0 || i > specs.len() {
        None
    } else {
        match spec_first_of(specs[i - 1], es, 0) {
            Some(v) => Some(v),
            None => spec_scan_of(specs, i - 1, es),
        }
    }
}

/// The verdict of one rule for the first entry from `j` on that it answers.
pub open spec fn spec_first_of(s: Specifier, es: Seq<FsEntryV>, j: int) -> Option<bool>
    decreases s, 1int, es.len() - j,
{
    if j < 0 || j >= es.len() {
        None
    } else {
        match spec_specifier_matches(s, es[j]) {
            Some(v) => Some(v),
            None => spec_first_of(s, es, j + 1),
        }
    }
}

// ---------------------------------------------------------------------------
// The mathematical shape of the rule language, for stating what the parser
// yields.
// ---------------------------------------------------------------------------

pub ghost enum MatchV {
    Any,
    Eq(Seq<Seq<u8>>),
    Glob(Seq<u8>),
}

pub ghost enum SpecifierV {
    Except(Seq<SpecifierV>),
    Entries(MatchV),
    Files(MatchV),
    InDir { dir: MatchV, inner: Seq<SpecifierV> },
}

/// The shape of a matcher.
pub open spec fn match_view(m: Match) -> MatchV {
    match m {
        Match::Any => MatchV::Any,
        Match::Eq(v) => MatchV::Eq(views_of(v@)),
        Match::Glob(g) => MatchV::Glob(g@),
    }
}

/// The shape of one rule.
pub open spec fn specifier_view(s: Specifier) -> SpecifierV
    decreases s, 0int,
{
    match s {
        Specifier::Except(inner) => SpecifierV::Except(ignore_view(inner)),
        Specifier::Entries(m) => SpecifierV::Entries(match_view(m)),
        Specifier::Files(m) => SpecifierV::Files(match_view(m)),
        Specifier::InDir { dir, inner } => SpecifierV::InDir {
            dir: match_view(dir),
            inner: ignore_view(inner),
        },
    }
}

/// The shape of a rule list.
pub open spec fn ignore_view(ig: Ignore) -> Seq<SpecifierV>
    decreases ig, 0int,
{
    specs_view(ig.0@)
}

/// The shapes of a sequence of rules.
pub open spec fn specs_view(s: Seq<Specifier>) -> Seq<SpecifierV>
    decreases s, 1int,
{
    if s.len() == 0 {
        seq![]
    } else {
        specs_view(s.drop_last()).push(specifier_view(s.last()))
    }
}

// ---------------------------------------------------------------------------
// The rule document grammar: blocks of lines sharing one indentation level,
// nested blocks indented one space deeper.
// ---------------------------------------------------------------------------

/// A parse failure: the offending line, one-based, and what went wrong.
#[derive(Clone, Copy, PartialEq, Eq, Structural, Debug)]
pub struct ConfigParseError {
    pub line: usize,
    pub kind: ParseErrorKind,
}

#[derive(Clone, Copy, PartialEq, Eq, Structural, Debug)]
pub enum ParseErrorKind {
    /// a line was indented with a whitespace character other than a space
    IndentChar,
    /// a line's indentation differs from its block's
    IndentMismatch,
    /// a line starts with no known directive
    UnknownDirective,
    /// a directive names no known match kind
    UnknownMatchKind,
}

pub const HASH: u8 = 35;
pub const STAR: u8 = 42;
pub const PLUS: u8 = 43;

/// The directive that inverts a nested block.
pub open spec fn except_token() -> Seq<u8> {
    seq![101u8, 120u8, 99u8, 101u8, 112u8, 116u8]
}

pub open spec fn perr(pos: int, kind: ParseErrorKind) -> ConfigParseError {
    ConfigParseError { line: (pos + 1) as usize, kind }
}

/// What one match-kind byte and an argument parse to.
pub open spec fn spec_parse_m(m: u8, args: Seq<u8>, pos: int) -> Result<MatchV, ConfigParseError> {
    if m == 97 {
        Ok(MatchV::Any)
    } else if m == 61 {
        Ok(MatchV::Eq(split_path(args)))
    } else if m == STAR {
        Ok(MatchV::Glob(args))
    } else {
        Err(perr(pos, ParseErrorKind::UnknownMatchKind))
    }
}

/// A nested read never moves backwards; this clamp only guards termination
/// and is the identity for every position a read can actually return.
pub open spec fn advance(p: int, pos: int, len: int) -> int {
    if p <= pos {
        pos + 1
    } else if p > len {
        len
    } else {
        p
    }
}

/// Reads one block: the maximal run of lines from `pos` on whose indentation
/// stays at the level the block's first line fixes, at least `min_indent`.
/// Yields the rules of the block and the position of the first line after it.
pub open spec fn spec_block(
    lines: Seq<Seq<u8>>,
    pos: int,
    min_indent: int,
    indent: Option<int>,
) -> (Result<Seq<SpecifierV>, ConfigParseError>, int)
    decreases lines.len() - pos,
{
    if pos < 0 || pos >= lines.len() {
        (Ok(seq![]), pos)
    } else {
        let line = lines[pos];
        let w = ws_end(line);
        if exists|j: int| 0 <= j < w && line[j] != SPACE {
            (Err(perr(pos, ParseErrorKind::IndentChar)), pos)
        } else if w < min_indent {
            // a shallower line ends the block and belongs to the caller
            (Ok(seq![]), pos)
        } else if match indent {
            Some(x) => w != x,
            None => false,
        } {
            (Err(perr(pos, ParseErrorKind::IndentMismatch)), pos)
        } else {
            let ind = w;
            let content = line.skip(w);
            if content.len() > 0 && content[0] == HASH {
                // a comment carries nothing
                spec_block(lines, pos + 1, min_indent, Some(ind))
            } else {
                let k = first_ws(content);
                let directive = lower(content.take(k));
                let args = if k < content.len() {
                    content.skip(k + 1)
                } else {
                    Seq::<u8>::empty()
                };
                if directive == except_token() {
                    let nested = spec_block(lines, pos + 1, ind + 1, None);
                    match nested.0 {
                        Err(e) => (Err(e), nested.1),
                        Ok(inner) => {
                            let rest = spec_block(
                                lines,
                                advance(nested.1, pos, lines.len() as int),
                                min_indent,
                                Some(ind),
                            );
                            match rest.0 {
                                Err(e) => (Err(e), rest.1),
                                Ok(rs) => (Ok(seq![SpecifierV::Except(inner)] + rs), rest.1),
                            }
                        },
                    }
                } else {
                    let c1 = if directive.len() >= 1 {
                        directive[0]
                    } else {
                        SPACE
                    };
                    let c2 = if directive.len() >= 2 {
                        directive[1]
                    } else {
                        SPACE
                    };
                    if c1 == STAR || c1 == PLUS {
                        match spec_parse_m(c2, args, pos) {
                            Err(e) => (Err(e), pos),
                            Ok(m) => {
                                let sp = if c1 == STAR {
                                    SpecifierV::Entries(m)
                                } else {
                                    SpecifierV::Files(m)
                                };
                                let rest = spec_block(lines, pos + 1, min_indent, Some(ind));
                                match rest.0 {
                                    Err(e) => (Err(e), rest.1),
                                    Ok(rs) => (Ok(seq![sp] + rs), rest.1),
                                }
                            },
                        }
                    } else if c1 == SLASH {
                        match spec_parse_m(c2, args, pos) {
                            Err(e) => (Err(e), pos),
                            Ok(m) => {
                                let nested = spec_block(lines, pos + 1, ind + 1, None);
                                match nested.0 {
                                    Err(e) => (Err(e), nested.1),
                                    Ok(inner) => {
                                        let rest = spec_block(
                                            lines,
                                            advance(nested.1, pos, lines.len() as int),
                                            min_indent,
                                            Some(ind),
                                        );
                                        match rest.0 {
                                            Err(e) => (Err(e), rest.1),
                                            Ok(rs) => (
                                                Ok(
                                                    seq![SpecifierV::InDir { dir: m, inner }] + rs,
                                                ),
                                                rest.1,
                                            ),
                                        }
                                    },
                                }
                            },
                        }
                    } else {
                        (Err(perr(pos, ParseErrorKind::UnknownDirective)), pos)
                    }
                }
            }
        }
    }
}

/// What a whole rule document parses to.
pub open spec fn spec_parse(src: Seq<u8>) -> Result<Seq<SpecifierV>, ConfigParseError> {
    spec_block(spec_lines(src), 0, 0, None).0
}

impl Match {
    /// Whether this matcher recognises the path.
    pub fn matches(&self, path: &Vec<Vec<u8>>) -> (r: bool)
        ensures
            r == spec_match_matches(*self, views_of(path@)),
    {
        match self {
            Match::Any => true,
            Match::Eq(v) => path_eq(v, path),
            Match::Glob(g) => {
                let joined = join_path_bytes(path);
                glob_match_bytes(g, &joined)
            },
        }
    }
}

impl Specifier {
    /// The verdict of this rule for the entry.
    pub fn matches(&self, entry: &FsEntry) -> (r: Option<bool>)
        ensures
            r == spec_specifier_matches(*self, entry@),
        decreases *self, 1int, 0int,
    {
        match self {
            Specifier::Except(inner) => match inner.matches(entry) {
                Some(v) => Some(!v),
                None => None,
            },
            Specifier::Entries(m) => if m.matches(&entry.path) {
                Some(true)
            } else {
                None
            },
            Specifier::Files(m) => {
                let is_file = match entry.is_directory {
                    Some(d) => !d,
                    None => false,
                };
                if is_file && m.matches(&entry.path) {
                    Some(true)
                } else {
                    None
                }
            },
            Specifier::InDir { dir, inner } => {
                if inner.0.len() == 0 {
                    let is_dir = match entry.is_directory {
                        Some(d) => d,
                        None => false,
                    };
                    if is_dir && dir.matches(&entry.path) {
                        Some(true)
                    } else {
                        None
                    }
                } else {
                    // collect the entry as seen relative to each matching
                    // ancestor directory, nearest ancestor first
                    let n = entry.path.len();
                    let mut cands: Vec<FsEntry> = Vec::new();
                    let mut plen = n;
                    proof {
                        assert(entry_views(cands@) + candidates_below(*dir, entry@, plen as int)
                            =~= spec_candidates(*dir, entry@));
                    }
                    while plen > 0
                        invariant
                            0 <= plen <= n == entry.path@.len(),
                            entry_views(cands@) + candidates_below(*dir, entry@, plen as int)
                                =~= spec_candidates(*dir, entry@),
                        decreases plen,
                    {
                        plen = plen - 1;
                        let ghost old_cands = entry_views(cands@);
                        let prefix = path_range(&entry.path, 0, plen);
                        proof {
                            assert(views_of(prefix@) =~= entry@.path.take(plen as int));
                        }
                        if dir.matches(&prefix) {
                            let cpath = path_range(&entry.path, plen, n);
                            proof {
                                assert(views_of(cpath@) =~= entry@.path.skip(plen as int));
                            }
                            let cand = FsEntry { path: cpath, is_directory: entry.is_directory };
                            let ghost cv = cand@;
                            cands.push(cand);
                            proof {
                                assert(entry_views(cands@) =~= old_cands + seq![cv]);
                                assert(entry_views(cands@) + candidates_below(
                                    *dir,
                                    entry@,
                                    plen as int,
                                ) =~= spec_candidates(*dir, entry@));
                            }
                        }
                    }
                    proof {
                        assert(candidates_below(*dir, entry@, 0) =~= Seq::<FsEntryV>::empty());
                        assert(entry_views(cands@) =~= spec_candidates(*dir, entry@));
                    }
                    inner.matches_of(&cands)
                }
            },
        }
    }
}

impl Ignore {
    /// The verdict for the entry, `false` where no rule answered.
    pub fn matches_or_default(&self, entry: &FsEntry) -> (r: bool)
        ensures
            r == (spec_ignore_matches(*self, entry@) == Some(true)),
    {
        match self.matches(entry) {
            Some(v) => v,
            None => false,
        }
    }

    /// The verdict for the entry: the last rule with an answer decides.
    pub fn matches(&self, entry: &FsEntry) -> (r: Option<bool>)
        ensures
            r == spec_ignore_matches(*self, entry@),
        decreases *self, 1int, 0int,
    {
        let mut i = self.0.len();
        while i > 0
            invariant
                0 <= i <= self.0@.len(),
                spec_scan(self.0@, i as int, entry@) == spec_ignore_matches(*self, entry@),
            decreases *self, 0int, i,
        {
            match self.0[i - 1].matches(entry) {
                Some(v) => {
                    return Some(v);
                },
                None => {},
            }
            i = i - 1;
        }
        None
    }

    /// The verdict over a list of entries: the last rule that answers for
    /// any of them decides, each rule trying the entries in order.
    pub fn matches_of(&self, entries: &Vec<FsEntry>) -> (r: Option<bool>)
        ensures
            r == spec_matches_of(*self, entry_views(entries@)),
        decreases *self, 1int, 0int,
    {
        let ghost es = entry_views(entries@);
        let mut i = self.0.len();
        while i > 0
            invariant
                0 <= i <= self.0@.len(),
                es == entry_views(entries@),
                spec_scan_of(self.0@, i as int, es) == spec_matches_of(*self, es),
            decreases *self, 0int, i,
        {
            let rule = &self.0[i - 1];
            let mut j: usize = 0;
            while j < entries.len()
                invariant
                    0 <= j <= entries@.len(),
                    es == entry_views(entries@),
                    *rule == self.0@[i - 1],
                    0 < i <= self.0@.len(),
                    spec_scan_of(self.0@, i as int, es) == spec_matches_of(*self, es),
                    spec_first_of(self.0@[i - 1], es, j as int) == spec_first_of(
                        self.0@[i - 1],
                        es,
                        0,
                    ),
                decreases *self, 0int, entries@.len() - j,
            {
                match rule.matches(&entries[j]) {
                    Some(v) => {
                        proof {
                            assert(es[j as int] == entries@[j as int]@);
                            assert(spec_first_of(self.0@[i - 1], es, j as int) == Some(v));
                            assert(spec_scan_of(self.0@, i as int, es) == Some(v));
                        }
                        return Some(v);
                    },
                    None => {
                        proof {
                            assert(es[j as int] == entries@[j as int]@);
                            assert(spec_first_of(self.0@[i - 1], es, j + 1) == spec_first_of(
                                self.0@[i - 1],
                                es,
                                j as int,
                            ));
                        }
                    },
                }
                j = j + 1;
            }
            proof {
                assert(spec_first_of(self.0@[i - 1], es, j as int) is None);
                assert(spec_scan_of(self.0@, i as int, es) == spec_scan_of(
                    self.0@,
                    i - 1,
                    es,
                ));
            }
            i = i - 1;
        }
        None
    }
}

/// Composing a block read: the rules already read, then whatever the rest of
/// the block yields.
pub open spec fn block_compose(
    acc: Seq<SpecifierV>,
    rest: (Result<Seq<SpecifierV>, ConfigParseError>, int),
) -> (Result<Seq<SpecifierV>, ConfigParseError>, int) {
    match rest.0 {
        Ok(rs) => (Ok(acc + rs), rest.1),
        Err(e) => (Err(e), rest.1),
    }
}

impl Match {
    /// Reads one matcher from its (lower-cased) kind byte and argument text.
    pub fn parse_m(args: &Vec<u8>, m: u8, line_nr: usize) -> (r: Result<Match, ConfigParseError>)
        requires
            line_nr < usize::MAX,
        ensures
            match r {
                Ok(mm) => spec_parse_m(m, args@, line_nr as int) == Ok::<_, ConfigParseError>(
                    match_view(mm),
                ),
                Err(e) => spec_parse_m(m, args@, line_nr as int) == Err::<MatchV, _>(e),
            },
    {
        if m == 97 {
            Ok(Match::Any)
        } else if m == 61 {
            Ok(Match::Eq(split_path_bytes(args)))
        } else if m == STAR {
            Match::parse_glob(args, line_nr)
        } else {
            Err(ConfigParseError { line: line_nr + 1, kind: ParseErrorKind::UnknownMatchKind })
        }
    }

    /// Reads a glob matcher; the argument text is the pattern as it stands.
    pub fn parse_glob(args: &Vec<u8>, _line_nr: usize) -> (r: Result<Match, ConfigParseError>)
        ensures
            r matches Ok(mm) && match_view(mm) == MatchV::Glob(args@),
    {
        Ok(Match::Glob(clone_bytes(args)))
    }
}

proof fn lemma_specs_view_push(s: Seq<Specifier>, x: Specifier)
    ensures
        specs_view(s.push(x)) == specs_view(s).push(specifier_view(x)),
{
    assert(s.push(x).drop_last() =~= s);
    assert(s.push(x).last() == x);
}

impl Ignore {
    /// Reads a whole rule document.
    pub fn parse(config: &Vec<u8>) -> (r: Result<Ignore, ConfigParseError>)
        ensures
            match r {
                Ok(ig) => spec_parse(config@) == Ok::<_, ConfigParseError>(ignore_view(ig)),
                Err(e) => spec_parse(config@) == Err::<Seq<SpecifierV>, _>(e),
            },
    {
        let lines = split_lines(config);
        let (r, _pos) = Ignore::parsei(&lines, 0, 0);
        r
    }

    /// Reads one block of lines from `pos` on, all indented `min_indent` or
    /// deeper, and returns the rules together with the position of the first
    /// line after the block.
    #[verifier::rlimit(100)]
    pub fn parsei(lines: &Vec<Vec<u8>>, pos: usize, min_indent: usize) -> (r: (
        Result<Ignore, ConfigParseError>,
        usize,
    ))
        requires
            pos <= lines@.len(),
        ensures
            pos <= r.1 <= lines@.len(),
            match r.0 {
                Ok(ig) => spec_block(views_of(lines@), pos as int, min_indent as int, None) == (
                    Ok::<Seq<SpecifierV>, ConfigParseError>(ignore_view(ig)),
                    r.1 as int,
                ),
                Err(e) => spec_block(views_of(lines@), pos as int, min_indent as int, None).0
                    == Err::<Seq<SpecifierV>, ConfigParseError>(e),
            },
        decreases lines@.len() - pos,
    {
        let ghost lv = views_of(lines@);
        let ghost whole = spec_block(lv, pos as int, min_indent as int, None);
        let mut specifiers: Vec<Specifier> = Vec::new();
        let mut cur: usize = pos;
        let mut indent: Option<usize> = None;
        let ghost gind: Option<int> = None;
        proof {
            assert(specs_view(specifiers@) =~= Seq::<SpecifierV>::empty());
            match whole.0 {
                Ok(rs) => {
                    assert(Seq::<SpecifierV>::empty() + rs =~= rs);
                },
                Err(_) => {},
            }
            assert(whole == block_compose(
                specs_view(specifiers@),
                spec_block(lv, cur as int, min_indent as int, gind),
            ));
        }
        loop
            invariant
                pos <= cur <= lines@.len(),
                lv == views_of(lines@),
                whole == spec_block(lv, pos as int, min_indent as int, None),
                gind == match indent {
                    Some(u) => Some(u as int),
                    None => None::<int>,
                },
                whole == block_compose(
                    specs_view(specifiers@),
                    spec_block(lv, cur as int, min_indent as int, gind),
                ),
            decreases lines@.len() - cur,
        {
            let ghost gind0 = gind;
            let ghost acc0 = specs_view(specifiers@);
            let ghost step = spec_block(lv, cur as int, min_indent as int, gind0);
            if cur >= lines.len() {
                proof {
                    assert(step == (Ok::<Seq<SpecifierV>, ConfigParseError>(
                        Seq::<SpecifierV>::empty(),
                    ), cur as int));
                    assert(acc0 + Seq::<SpecifierV>::empty() =~= acc0);
                }
                let ig = Ignore(specifiers);
                proof {
                    assert(ignore_view(ig) == acc0);
                }
                return (Ok(ig), cur);
            }
            let line = &lines[cur];
            proof {
                assert(lv[cur as int] == line@);
            }
            // measure the leading whitespace; only spaces may indent
            let mut w: usize = 0;
            let mut bad = false;
            while w < line.len() && is_ws_byte(line[w])
                invariant
                    0 <= w <= line@.len(),
                    forall|j: int| 0 <= j < w ==> is_ws(#[trigger] line@[j]),
                    bad == exists|j: int| 0 <= j < w && line@[j] != SPACE,
                decreases line@.len() - w,
            {
                if line[w] != SPACE {
                    bad = true;
                    assert(line@[w as int] != SPACE);
                }
                w = w + 1;
            }
            proof {
                lemma_ws_end_is(line@, w as int);
            }
            if bad {
                proof {
                    assert(step.0 == Err::<Seq<SpecifierV>, _>(perr(
                        cur as int,
                        ParseErrorKind::IndentChar,
                    )));
                }
                return (Err(ConfigParseError { line: cur + 1, kind: ParseErrorKind::IndentChar }), cur);
            }
            if w < min_indent {
                // this line belongs to a shallower block: the block ends here
                proof {
                    assert(step == (Ok::<Seq<SpecifierV>, ConfigParseError>(
                        Seq::<SpecifierV>::empty(),
                    ), cur as int));
                    assert(acc0 + Seq::<SpecifierV>::empty() =~= acc0);
                }
                let ig = Ignore(specifiers);
                proof {
                    assert(ignore_view(ig) == acc0);
                }
                return (Ok(ig), cur);
            }
            match indent {
                Some(ind) => {
                    if w != ind {
                        proof {
                            assert(step.0 == Err::<Seq<SpecifierV>, _>(perr(
                                cur as int,
                                ParseErrorKind::IndentMismatch,
                            )));
                        }
                        return (
                            Err(
                                ConfigParseError {
                                    line: cur + 1,
                                    kind: ParseErrorKind::IndentMismatch,
                                },
                            ),
                            cur,
                        );
                    }
                },
                None => {
                    indent = Some(w);
                    proof {
                        gind = Some(w as int);
                    }
                },
            }
            let ind = w;
            let content = bytes_range(line, w, line.len());
            proof {
                assert(content@ =~= line@.skip(w as int));
            }
            if content.len() > 0 && content[0] == HASH {
                // a comment line carries nothing
                proof {
                    assert(step == spec_block(lv, cur + 1, min_indent as int, Some(ind as int)));
                }
                cur = cur + 1;
                continue;
            }
            // split the line into its directive and the argument text
            let mut k: usize = 0;
            while k < content.len() && !is_ws_byte(content[k])
                invariant
                    0 <= k <= content@.len(),
                    forall|j: int| 0 <= j < k ==> !is_ws(#[trigger] content@[j]),
                decreases content@.len() - k,
            {
                k = k + 1;
            }
            proof {
                lemma_first_ws_is(content@, k as int);
            }
            let directive_raw = bytes_range(&content, 0, k);
            let directive = lower_bytes(&directive_raw);
            proof {
                assert(directive_raw@ =~= content@.take(k as int));
            }
            let args: Vec<u8> = if k < content.len() {
                bytes_range(&content, k + 1, content.len())
            } else {
                Vec::new()
            };
            let ghost argv = if k < content@.len() {
                content@.skip(k + 1)
            } else {
                Seq::<u8>::empty()
            };
            proof {
                assert(args@ =~= argv);
            }
            let mut exceptv: Vec<u8> = Vec::new();
            exceptv.push(101);
            exceptv.push(120);
            exceptv.push(99);
            exceptv.push(101);
            exceptv.push(112);
            exceptv.push(116);
            proof {
                assert(exceptv@ =~= except_token());
            }
            if eq_bytes(&directive, &exceptv) {
                // a nested block, inverted
                proof {
                    assert(content@.len() >= 6) by {
                        assert(directive@.len() == k);
                    }
                }
                let (r1, p1) = Ignore::parsei(lines, cur + 1, ind + 1);
                let ghost nested = spec_block(lv, cur + 1, ind + 1, None);
                match r1 {
                    Err(e) => {
                        proof {
                            assert(step.0 == Err::<Seq<SpecifierV>, _>(e));
                        }
                        return (Err(e), cur);
                    },
                    Ok(inner) => {
                        let ghost iv = ignore_view(inner);
                        proof {
                            assert(nested == (Ok::<Seq<SpecifierV>, ConfigParseError>(iv), p1 as int));
                            assert(advance(p1 as int, cur as int, lv.len() as int) == p1 as int);
                        }
                        let ghost old_specs = specifiers@;
                        specifiers.push(Specifier::Except(inner));
                        proof {
                            lemma_specs_view_push(old_specs, specifiers@.last());
                            assert(specs_view(specifiers@) == acc0.push(
                                SpecifierV::Except(iv),
                            ));
                            let after = spec_block(lv, p1 as int, min_indent as int, Some(ind as int));
                            match after.0 {
                                Ok(rs) => {
                                    assert(acc0 + (seq![SpecifierV::Except(iv)] + rs) =~= acc0.push(
                                        SpecifierV::Except(iv),
                                    ) + rs);
                                },
                                Err(_) => {},
                            }
                        }
                        cur = p1;
                        continue;
                    },
                }
            }
            let c1 = if directive.len() >= 1 {
                directive[0]
            } else {
                SPACE
            };
            let c2 = if directive.len() >= 2 {
                directive[1]
            } else {
                SPACE
            };
            if c1 == STAR || c1 == PLUS {
                match Match::parse_m(&args, c2, cur) {
                    Err(e) => {
                        proof {
                            assert(step.0 == Err::<Seq<SpecifierV>, _>(e));
                        }
                        return (Err(e), cur);
                    },
                    Ok(m) => {
                        let ghost mv = match_view(m);
                        let sp = if c1 == STAR {
                            Specifier::Entries(m)
                        } else {
                            Specifier::Files(m)
                        };
                        let ghost spv = specifier_view(sp);
                        let ghost old_specs = specifiers@;
                        specifiers.push(sp);
                        proof {
                            lemma_specs_view_push(old_specs, specifiers@.last());
                            assert(specs_view(specifiers@) == acc0.push(spv));
                            let after = spec_block(lv, cur + 1, min_indent as int, Some(ind as int));
                            match after.0 {
                                Ok(rs) => {
                                    assert(acc0 + (seq![spv] + rs) =~= acc0.push(spv) + rs);
                                },
                                Err(_) => {},
                            }
                        }
                        cur = cur + 1;
                        continue;
                    },
                }
            } else if c1 == SLASH {
                match Match::parse_m(&args, c2, cur) {
                    Err(e) => {
                        proof {
                            assert(step.0 == Err::<Seq<SpecifierV>, _>(e));
                        }
                        return (Err(e), cur);
                    },
                    Ok(dir) => {
                        proof {
                            assert(content@.len() >= 1) by {
                                assert(directive@.len() == k);
                                assert(directive@.len() >= 1);
                            }
                        }
                        let ghost dv = match_view(dir);
                        let (r1, p1) = Ignore::parsei(lines, cur + 1, ind + 1);
                        let ghost nested = spec_block(lv, cur + 1, ind + 1, None);
                        match r1 {
                            Err(e) => {
                                proof {
                                    assert(step.0 == Err::<Seq<SpecifierV>, _>(e));
                                }
                                return (Err(e), cur);
                            },
                            Ok(inner) => {
                                let ghost iv = ignore_view(inner);
                                proof {
                                    assert(nested == (Ok::<Seq<SpecifierV>, ConfigParseError>(iv),
                                    p1 as int));
                                    assert(advance(p1 as int, cur as int, lv.len() as int)
                                        == p1 as int);
                                }
                                let sp = Specifier::InDir { dir, inner };
                                let ghost spv = specifier_view(sp);
                                proof {
                                    assert(spv == (SpecifierV::InDir { dir: dv, inner: iv }));
                                }
                                let ghost old_specs = specifiers@;
                                specifiers.push(sp);
                                proof {
                                    lemma_specs_view_push(old_specs, specifiers@.last());
                                    assert(specs_view(specifiers@) == acc0.push(spv));
                                    let after = spec_block(
                                        lv,
                                        p1 as int,
                                        min_indent as int,
                                        Some(ind as int),
                                    );
                                    match after.0 {
                                        Ok(rs) => {
                                            assert(acc0 + (seq![spv] + rs) =~= acc0.push(spv)
                                                + rs);
                                        },
                                        Err(_) => {},
                                    }
                                }
                                cur = p1;
                                continue;
                            },
                        }
                    },
                }
            } else {
                proof {
                    assert(step.0 == Err::<Seq<SpecifierV>, _>(perr(
                        cur as int,
                        ParseErrorKind::UnknownDirective,
                    )));
                }
                return (
                    Err(ConfigParseError { line: cur + 1, kind: ParseErrorKind::UnknownDirective }),
                    cur,
                );
            }
        }
    }
}

} // verus!
