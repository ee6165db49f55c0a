//! One link relationship `source -> target`, and the parser for the lines of
//! a per-entry mapping file.
use vstd::prelude::*;

use crate::utils::{
    abs_of, absolute_path, clean_path, cleaned, dotdot, expand_home, expand_home_dir, is_abs,
    is_space, is_space_char, join_segs, lemma_abs_of_shape, lemma_parent_shape, lemma_resolve_rel,
    keep_segs, no_parent_refs, path_concat, path_segs, pieces, rel_segs, seg_kept, split_state,
    strip_path_prefix, token_state, tokens, trim, trimmed,
};

verus! {

/// The mathematical value of a link relationship: the two paths as character
/// sequences.
pub ghost struct LinkV {
    pub source: Seq<char>,
    pub target: Seq<char>,
}

/// A directed relationship: a symbolic link at `target` is meant to point at
/// `source`.
#[derive(Debug)]
pub struct Symlink {
    pub source: String,
    pub target: String,
}

impl View for Symlink {
    type V = LinkV;

    open spec fn view(&self) -> LinkV {
        LinkV { source: self.source@, target: self.target@ }
    }
}

/// Why a mapping line was rejected.
#[derive(Clone, Copy, Debug, PartialEq, Eq, Structural)]
pub enum ParseError {
    /// The line does not split into exactly two whitespace-separated tokens.
    NotTwoTokens,
    /// The source token is an absolute path.
    SourceNotRelative,
    /// The source, once cleaned, leaves its entry directory.
    SourceEscapes,
    /// The target, once home-expanded, is not absolute.
    TargetNotAbsolute,
}

/// A cleaned path references the parent directory when its first segment is
/// `..`.
pub open spec fn starts_with_parent_ref(s: Seq<char>) -> bool {
    s.len() >= 2 && s[0] == '.' && s[1] == '.' && (s.len() == 2 || s[2] == '/')
}

/// What parsing one mapping line yields: the line must hold exactly two
/// whitespace-separated tokens; the source must be relative and must not
/// escape its directory; the target, after home expansion, must be absolute.
pub open spec fn parse_line(line: Seq<char>, home: Seq<char>) -> Result<LinkV, ParseError> {
    let toks = tokens(line);
    if toks.len() != 2 {
        Err(ParseError::NotTwoTokens)
    } else {
        let src = toks[0];
        let tgt = expand_home(toks[1], home);
        if is_abs(src) {
            Err(ParseError::SourceNotRelative)
        } else if starts_with_parent_ref(cleaned(src)) {
            Err(ParseError::SourceEscapes)
        } else if !is_abs(tgt) {
            Err(ParseError::TargetNotAbsolute)
        } else {
            Ok(LinkV { source: src, target: tgt })
        }
    }
}

/// The mapping line `. ~/.bin` parses, under any absolute home directory,
/// to the entry directory itself as source (the bare `.`, which the caller
/// joins onto the entry's path) and `<home>/.bin` as target.
pub proof fn lemma_dot_bin_line(home: Seq<char>)
    requires
        is_abs(home),
    ensures
        parse_line(". ~/.bin"@, home) == Ok::<LinkV, ParseError>(
            LinkV { source: "."@, target: home + "/.bin"@ },
        ),
{
    reveal_strlit(". ~/.bin");
    reveal_strlit(".");
    reveal_strlit("/.bin");
    let s = ". ~/.bin"@;
    assert(s.len() == 8);
    assert(s.take(0) =~= Seq::<char>::empty());
    assert(s.take(1).drop_last() =~= s.take(0));
    assert(s.take(2).drop_last() =~= s.take(1));
    assert(s.take(3).drop_last() =~= s.take(2));
    assert(s.take(4).drop_last() =~= s.take(3));
    assert(s.take(5).drop_last() =~= s.take(4));
    assert(s.take(6).drop_last() =~= s.take(5));
    assert(s.take(7).drop_last() =~= s.take(6));
    assert(s.drop_last() =~= s.take(7));
    assert(token_state(s.take(0)).0 =~= Seq::<Seq<char>>::empty());
    assert(token_state(s.take(0)).1 =~= Seq::<char>::empty());
    assert(token_state(s.take(1)).0 =~= Seq::<Seq<char>>::empty());
    assert(token_state(s.take(1)).1 =~= seq!['.']);
    assert(token_state(s.take(2)).0 =~= seq![seq!['.']]);
    assert(token_state(s.take(2)).1 =~= Seq::<char>::empty());
    assert(token_state(s.take(3)).1 =~= s.subrange(2, 3));
    assert(token_state(s.take(4)).1 =~= s.subrange(2, 4));
    assert(token_state(s.take(5)).1 =~= s.subrange(2, 5));
    assert(token_state(s.take(6)).1 =~= s.subrange(2, 6));
    assert(token_state(s.take(7)).1 =~= s.subrange(2, 7));
    assert(token_state(s).0 =~= seq![seq!['.']]);
    assert(token_state(s).1 =~= s.subrange(2, 8));
    assert(tokens(s) =~= seq![seq!['.'], s.subrange(2, 8)]);
    assert("."@ =~= seq!['.']);
    assert(s.subrange(2, 8).skip(1) =~= "/.bin"@);
    assert(expand_home(s.subrange(2, 8), home) =~= home + "/.bin"@);
    let d = seq!['.'];
    assert(d.drop_last() =~= Seq::<char>::empty());
    assert(split_state(Seq::<char>::empty(), '/').0 =~= Seq::<Seq<char>>::empty());
    assert(split_state(Seq::<char>::empty(), '/').1 =~= Seq::<char>::empty());
    assert(split_state(d, '/').0 =~= Seq::<Seq<char>>::empty());
    assert(split_state(d, '/').1 =~= d);
    assert(pieces(d, '/') =~= seq![d]);
    assert(seq![d].drop_last() =~= Seq::<Seq<char>>::empty());
    assert(!seg_kept(d));
    assert(keep_segs(Seq::<Seq<char>>::empty()) =~= Seq::<Seq<char>>::empty());
    assert(path_segs(d) =~= Seq::<Seq<char>>::empty());
    assert(cleaned(d) =~= d);
    assert(!starts_with_parent_ref(cleaned(d)));
    assert(is_abs(home + "/.bin"@));
}

/// The model of a parse result.
pub open spec fn parse_result_model(r: Result<Symlink, ParseError>) -> Result<
    LinkV,
    ParseError,
> {
    match r {
        Ok(l) => Ok(l@),
        Err(e) => Err(e),
    }
}

impl Symlink {
    /// Creates a new link relationship.
    pub fn new(source: String, target: String) -> (r: Self)
        ensures
            r@.source == source@,
            r@.target == target@,
    {
        Self { source, target }
    }

    /// Parses one mapping line, `<relative-source> <target>`, expanding a
    /// home placeholder in the target against `home`.
    pub fn parse(s: &str, home: &str) -> (r: Result<Self, ParseError>)
        ensures
            parse_result_model(r) == parse_line(s@, home@),
    {
        let n = s.unicode_len();
        let mut count: usize = 0;
        let mut in_tok = false;
        let mut cur_start: usize = 0;
        let mut t1s: usize = 0;
        let mut t1e: usize = 0;
        let mut t2s: usize = 0;
        let mut t2e: usize = 0;
        let mut c: usize = 0;
        proof {
            assert(s@.take(0) =~= Seq::<char>::empty());
        }
        while c < n
            invariant
                c <= n,
                n == s@.len(),
                count as int + (if in_tok {
                    1int
                } else {
                    0int
                }) <= c as int,
                cur_start <= c,
                count == token_state(s@.take(c as int)).0.len(),
                in_tok ==> token_state(s@.take(c as int)).1 == s@.subrange(
                    cur_start as int,
                    c as int,
                ) && cur_start < c,
                !in_tok ==> token_state(s@.take(c as int)).1.len() == 0,
                count >= 1 ==> t1s <= t1e <= c && token_state(s@.take(c as int)).0[0]
                    == s@.subrange(t1s as int, t1e as int),
                count >= 2 ==> t2s <= t2e <= c && token_state(s@.take(c as int)).0[1]
                    == s@.subrange(t2s as int, t2e as int),
            decreases n - c,
        {
            proof {
                assert(s@.take(c as int + 1).drop_last() =~= s@.take(c as int));
            }
            let ch = s.get_char(c);
            if is_space_char(ch) {
                if in_tok {
                    if count == 0 {
                        t1s = cur_start;
                        t1e = c;
                    } else if count == 1 {
                        t2s = cur_start;
                        t2e = c;
                    }
                    count += 1;
                    in_tok = false;
                }
            } else {
                if !in_tok {
                    cur_start = c;
                    in_tok = true;
                }
                proof {
                    assert(s@.subrange(cur_start as int, c as int).push(s@[c as int])
                        =~= s@.subrange(cur_start as int, c as int + 1));
                }
            }
            c += 1;
        }
        proof {
            assert(s@.take(n as int) =~= s@);
        }
        if in_tok {
            if count == 0 {
                t1s = cur_start;
                t1e = n;
            } else if count == 1 {
                t2s = cur_start;
                t2e = n;
            }
            count += 1;
        }
        assert(count == tokens(s@).len());
        if count != 2 {
            return Err(ParseError::NotTwoTokens);
        }
        let src = s.substring_char(t1s, t1e);
        let tgt_raw = s.substring_char(t2s, t2e);
        let tgt = expand_home_dir(tgt_raw, home);
        assert(src@ == tokens(s@)[0]);
        assert(tgt@ == expand_home(tokens(s@)[1], home@));
        if src.unicode_len() > 0 && src.get_char(0) == '/' {
            return Err(ParseError::SourceNotRelative);
        }
        let cs = clean_path(src);
        let c = cs.as_str();
        let cn = c.unicode_len();
        if cn >= 2 && c.get_char(0) == '.' && c.get_char(1) == '.' && (cn == 2 || c.get_char(2)
            == '/') {
            return Err(ParseError::SourceEscapes);
        }
        if !(tgt.as_str().unicode_len() > 0 && tgt.as_str().get_char(0) == '/') {
            return Err(ParseError::TargetNotAbsolute);
        }
        Ok(Self { source: String::from_str(src), target: tgt })
    }
}

/// The mathematical value of a mapping-file error: the 1-based line that was
/// rejected, and why.
pub ghost struct FileErrV {
    pub line: int,
    pub kind: ParseError,
}

/// A rejected mapping file: the 1-based line number and the reason.
#[derive(Debug)]
pub struct LinkFileError {
    pub line: usize,
    pub kind: ParseError,
}

impl View for LinkFileError {
    type V = FileErrV;

    open spec fn view(&self) -> FileErrV {
        FileErrV { line: self.line as int, kind: self.kind }
    }
}

/// What parsing a sequence of mapping-file lines yields: blank lines and
/// `#` comments are dropped after trimming, every other line must parse, and
/// the first bad line stops the whole file.
pub open spec fn parse_pieces(ps: Seq<Seq<char>>, home: Seq<char>) -> Result<
    Seq<LinkV>,
    FileErrV,
>
    decreases ps.len(),
{
    if ps.len() == 0 {
        Ok(Seq::empty())
    } else {
        match parse_pieces(ps.drop_last(), home) {
            Err(e) => Err(e),
            Ok(ls) => {
                let t = trimmed(ps.last());
                if t.len() == 0 || t[0] == '#' {
                    Ok(ls)
                } else {
                    match parse_line(t, home) {
                        Ok(l) => Ok(ls.push(l)),
                        Err(k) => Err(FileErrV { line: ps.len() as int, kind: k }),
                    }
                }
            },
        }
    }
}

/// What parsing a whole mapping file yields: its lines are the pieces of the
/// text between newlines.
pub open spec fn parse_link_file_spec(contents: Seq<char>, home: Seq<char>) -> Result<
    Seq<LinkV>,
    FileErrV,
> {
    parse_pieces(pieces(contents, '\n'), home)
}

/// The models of a sequence of link relationships.
pub open spec fn links_model(ls: Seq<Symlink>) -> Seq<LinkV> {
    ls.map_values(|l: Symlink| l@)
}

/// The model of a whole-file parse result.
pub open spec fn file_result_model(r: Result<Vec<Symlink>, LinkFileError>) -> Result<
    Seq<LinkV>,
    FileErrV,
> {
    match r {
        Ok(ls) => Ok(links_model(ls@)),
        Err(e) => Err(e@),
    }
}

proof fn lemma_split0_prefix(s: Seq<char>, c: int, sep: char)
    requires
        0 <= c <= s.len(),
    ensures
        split_state(s.take(c), sep).0.len() < pieces(s, sep).len(),
        pieces(s, sep).take(split_state(s.take(c), sep).0.len() as int) == split_state(
            s.take(c),
            sep,
        ).0,
    decreases s.len() - c,
{
    if c == s.len() {
        assert(s.take(c) =~= s);
        assert(pieces(s, sep).take(pieces(s, sep).len() - 1) =~= split_state(s, sep).0);
    } else {
        lemma_split0_prefix(s, c + 1, sep);
        assert(s.take(c + 1).drop_last() =~= s.take(c));
        let l0 = split_state(s.take(c), sep).0.len() as int;
        let l1 = split_state(s.take(c + 1), sep).0.len() as int;
        if s.take(c + 1).last() == sep {
            assert(pieces(s, sep).take(l0) =~= split_state(s.take(c), sep).0);
        } else {
            assert(pieces(s, sep).take(l0) =~= split_state(s.take(c), sep).0);
        }
    }
}

proof fn lemma_parse_pieces_err(ps: Seq<Seq<char>>, qs: Seq<Seq<char>>, home: Seq<char>)
    requires
        ps.len() <= qs.len(),
        qs.take(ps.len() as int) == ps,
        parse_pieces(ps, home) is Err,
    ensures
        parse_pieces(qs, home) == parse_pieces(ps, home),
    decreases qs.len(),
{
    if qs.len() == ps.len() {
        assert(qs =~= ps);
    } else {
        assert(qs.drop_last().take(ps.len() as int) =~= ps);
        lemma_parse_pieces_err(ps, qs.drop_last(), home);
    }
}

/// Parses a whole mapping file: one relationship per line, blank lines and
/// `#` comments ignored, the first bad line rejected with its 1-based line
/// number.
pub fn parse_link_file(contents: &str, home: &str) -> (r: Result<Vec<Symlink>, LinkFileError>)
    ensures
        file_result_model(r) == parse_link_file_spec(contents@, home@),
{
    let n = contents.unicode_len();
    let mut out: Vec<Symlink> = Vec::new();
    let mut line_start: usize = 0;
    let mut line_idx: usize = 0;
    let mut c: usize = 0;
    proof {
        assert(contents@.take(0) =~= Seq::<char>::empty());
        assert(contents@.subrange(0, 0) =~= Seq::<char>::empty());
        assert(links_model(Seq::<Symlink>::empty()) =~= Seq::<LinkV>::empty());
    }
    while c < n
        invariant
            line_start <= c <= n,
            line_idx <= line_start,
            n == contents@.len(),
            line_idx == split_state(contents@.take(c as int), '\n').0.len(),
            split_state(contents@.take(c as int), '\n').1 == contents@.subrange(
                line_start as int,
                c as int,
            ),
            parse_pieces(split_state(contents@.take(c as int), '\n').0, home@) == Ok::<
                Seq<LinkV>,
                FileErrV,
            >(links_model(out@)),
        decreases n - c,
    {
        proof {
            assert(contents@.take(c as int + 1).drop_last() =~= contents@.take(c as int));
        }
        if contents.get_char(c) == '\n' {
            let ghost done = split_state(contents@.take(c as int), '\n').0;
            let ghost piece = contents@.subrange(line_start as int, c as int);
            proof {
                assert(done.push(piece).drop_last() =~= done);
            }
            let line = contents.substring_char(line_start, c);
            let t = trim(line);
            if t.unicode_len() == 0 || t.get_char(0) == '#' {
            } else {
                match Symlink::parse(t, home) {
                    Ok(l) => {
                        out.push(l);
                        proof {
                            assert(links_model(out@) =~= parse_pieces(
                                done.push(piece),
                                home@,
                            )->Ok_0);
                        }
                    },
                    Err(k) => {
                        proof {
                            lemma_split0_prefix(contents@, c as int + 1, '\n');
                            lemma_parse_pieces_err(done.push(piece), pieces(contents@, '\n'), home@);
                        }
                        return Err(LinkFileError { line: line_idx + 1, kind: k });
                    },
                }
            }
            line_start = c + 1;
            line_idx = line_idx + 1;
            proof {
                assert(contents@.subrange(c as int + 1, c as int + 1) =~= Seq::<char>::empty());
            }
        } else {
            proof {
                assert(contents@.subrange(line_start as int, c as int).push(contents@[c as int])
                    =~= contents@.subrange(line_start as int, c as int + 1));
            }
        }
        c += 1;
    }
    proof {
        assert(contents@.take(n as int) =~= contents@);
    }
    let ghost done = split_state(contents@, '\n').0;
    let ghost piece = contents@.subrange(line_start as int, n as int);
    proof {
        assert(done.push(piece).drop_last() =~= done);
        assert(pieces(contents@, '\n') == done.push(piece));
    }
    let line = contents.substring_char(line_start, n);
    let t = trim(line);
    if t.unicode_len() == 0 || t.get_char(0) == '#' {
        return Ok(out);
    }
    match Symlink::parse(t, home) {
        Ok(l) => {
            out.push(l);
            proof {
                assert(links_model(out@) =~= parse_pieces(done.push(piece), home@)->Ok_0);
            }
            Ok(out)
        },
        Err(k) => {
            proof {
                if line_start == n {
                    assert(contents@.subrange(n as int, n as int) =~= Seq::<char>::empty());
                }
            }
            Err(LinkFileError { line: line_idx + 1, kind: k })
        },
    }
}

/// How a path is shown: a path under the home directory is collapsed onto
/// the `~` placeholder, any other comes back unchanged.
pub open spec fn display_path_spec(p: Seq<char>, home: Seq<char>) -> Seq<char> {
    if home.len() < p.len() && p.take(home.len() as int) == home && p[home.len() as int] == '/' {
        seq!['~'] + p.skip(home.len() as int)
    } else if p == home {
        seq!['~']
    } else {
        p
    }
}

/// Whether `pre` is a leading run of `s`'s characters.
pub fn has_char_prefix(s: &str, pre: &str) -> (r: bool)
    ensures
        r == (s@.len() >= pre@.len() && s@.take(pre@.len() as int) == pre@),
{
    let np = pre.unicode_len();
    let ns = s.unicode_len();
    if np > ns {
        return false;
    }
    let mut i: usize = 0;
    while i < np
        invariant
            i <= np <= ns,
            np == pre@.len(),
            ns == s@.len(),
            forall|j: int| 0 <= j < i ==> s@[j] == pre@[j],
        decreases np - i,
    {
        if s.get_char(i) != pre.get_char(i) {
            assert(s@.take(np as int)[i as int] != pre@[i as int]);
            return false;
        }
        i += 1;
    }
    proof {
        assert(s@.take(np as int) =~= pre@);
    }
    true
}

/// Renders a path for terminal output, collapsing the home directory to the
/// `~` placeholder.
pub fn display_path(path: &str, home: &str) -> (r: String)
    ensures
        r@ == display_path_spec(path@, home@),
{
    let n = path.unicode_len();
    let h = home.unicode_len();
    proof {
        reveal_strlit("~");
        assert("~"@ =~= seq!['~']);
    }
    if h < n && path.get_char(h) == '/' && has_char_prefix(path, home) {
        proof {
            assert(path@.subrange(h as int, n as int) =~= path@.skip(h as int));
        }
        String::from_str("~").concat(path.substring_char(h, n))
    } else if n == h && has_char_prefix(path, home) {
        proof {
            assert(path@ =~= home@);
        }
        String::from_str("~")
    } else {
        proof {
            assert(path@.take(n as int) =~= path@);
        }
        String::from_str(path)
    }
}

/// Removes a leading directory prefix: the part of `s` below the directory
/// `pre` when there is one, nothing when `s` is `pre` itself, all of `s`
/// otherwise.
pub fn strip_prefix_dir<'a>(s: &'a str, pre: &str) -> (r: &'a str)
    ensures
        r@ == strip_path_prefix(s@, pre@),
{
    let n = s.unicode_len();
    let h = pre.unicode_len();
    if h < n && s.get_char(h) == '/' && has_char_prefix(s, pre) {
        proof {
            assert(s@.subrange(h as int + 1, n as int) =~= s@.skip(h as int + 1));
        }
        s.substring_char(h + 1, n)
    } else if n == h && has_char_prefix(s, pre) {
        proof {
            assert(s@ =~= pre@);
            assert(s@.subrange(0, 0) =~= Seq::<char>::empty());
        }
        s.substring_char(0, 0)
    } else {
        proof {
            assert(s@.take(n as int) =~= s@);
        }
        s
    }
}

/// The mathematical value of a filesystem probe of one relationship.
pub ghost struct ProbeV {
    pub source_exists: bool,
    pub target_exists: bool,
    pub target_is_symlink: bool,
    pub target_canonical: Option<Seq<char>>,
}

/// What the caller observed on the filesystem about one relationship: do the
/// source and the target exist, is the target a symbolic link, and what does
/// the target fully resolve to (`None` when resolution failed).
pub struct LinkProbe {
    pub source_exists: bool,
    pub target_exists: bool,
    pub target_is_symlink: bool,
    pub target_canonical: Option<String>,
}

impl View for LinkProbe {
    type V = ProbeV;

    open spec fn view(&self) -> ProbeV {
        ProbeV {
            source_exists: self.source_exists,
            target_exists: self.target_exists,
            target_is_symlink: self.target_is_symlink,
            target_canonical: match self.target_canonical {
                Some(ref c) => Some(c@),
                None => None,
            },
        }
    }
}

/// A relationship is realized on disk exactly when the source exists, the
/// target is a symbolic link, and the target's fully resolved referent is
/// the same absolute path as the source. A missing source or a failed
/// resolution is never linked.
pub open spec fn is_linked_spec(l: LinkV, probe: ProbeV, cwd: Seq<char>) -> bool {
    &&& probe.source_exists
    &&& probe.target_is_symlink
    &&& match probe.target_canonical {
        Some(c) => abs_of(c, cwd) == abs_of(l.source, cwd),
        None => false,
    }
}

/// A relationship whose source is missing is never reported linked, whatever
/// the target points at.
pub proof fn lemma_missing_source_never_linked(l: LinkV, probe: ProbeV, cwd: Seq<char>)
    requires
        !probe.source_exists,
    ensures
        !is_linked_spec(l, probe, cwd),
{
}

/// The mathematical value of a planned link creation.
pub ghost struct PlanV {
    pub parent: Seq<char>,
    pub target: Seq<char>,
    pub contents: Seq<char>,
}

/// Everything the caller needs to realize one relationship: the directory
/// chain to create, the absolute path at which to create the symbolic link,
/// and the relative path to store in it.
pub struct LinkPlan {
    pub parent: String,
    pub target: String,
    pub contents: String,
}

impl View for LinkPlan {
    type V = PlanV;

    open spec fn view(&self) -> PlanV {
        PlanV { parent: self.parent@, target: self.target@, contents: self.contents@ }
    }
}

/// Relies on pathdiff::diff_paths for two absolute paths: the shared leading
/// segments drop out, one `..` climbs over each remaining segment of the
/// base, and the rest of `path` follows; when the base still holds a `..`
/// segment after the shared prefix, there is no answer.
#[verifier::external_body]
pub(crate) fn relative_path_from(path: &str, base: &str) -> (r: Option<String>)
    requires
        is_abs(path@),
        is_abs(base@),
    ensures
        no_parent_refs(path_segs(base@)) ==> (match r {
            Some(s) => s@ == join_segs(rel_segs(path_segs(path@), path_segs(base@))),
            None => false,
        }),
{
    match pathdiff::diff_paths(path, base) {
        Some(p) => match p.into_os_string().into_string() {
            Ok(s) => Some(s),
            Err(_) => None,
        },
        None => None,
    }
}

/// The cleaned target's parent directory: one `..` step, resolved lexically.
pub open spec fn parent_of(t: Seq<char>) -> Seq<char> {
    cleaned(t + seq!['/', '.', '.'])
}

impl Symlink {
    /// Decides from a filesystem probe whether this relationship is
    /// currently realized on disk.
    pub fn is_linked(&self, probe: &LinkProbe, cwd: &str) -> (r: bool)
        ensures
            r == is_linked_spec(self@, probe@, cwd@),
    {
        if !probe.source_exists {
            return false;
        }
        if !probe.target_is_symlink {
            return false;
        }
        match &probe.target_canonical {
            None => false,
            Some(c) => {
                let a = absolute_path(c.as_str(), cwd);
                let b = absolute_path(self.source.as_str(), cwd);
                a == b
            },
        }
    }

    /// Plans the creation of this link: the target is made absolute and its
    /// parent determined, and the link's stored path walks from that parent
    /// to the absolute source, so the link stays valid if the tree moves as
    /// a whole. A target with no parent, or one whose parent still holds a
    /// `..` segment, cannot be planned.
    pub fn link_plan(&self, cwd: &str) -> (r: Option<LinkPlan>)
        requires
            is_abs(cwd@),
        ensures
            r is Some <==> abs_of(self@.target, cwd@) != seq!['/'],
            r matches Some(p) ==> {
                &&& p@.target == abs_of(self@.target, cwd@)
                &&& p@.parent == parent_of(abs_of(self@.target, cwd@))
                &&& p@.contents == join_segs(
                    rel_segs(path_segs(abs_of(self@.source, cwd@)), path_segs(p@.parent)),
                )
            },
    {
        let source = absolute_path(self.source.as_str(), cwd);
        let target = absolute_path(self.target.as_str(), cwd);
        proof {
            reveal_strlit("/");
        }
        if target.as_str().unicode_len() == 1 && target.as_str().get_char(0) == '/' {
            assert(target@ =~= seq!['/']);
            return None;
        }
        assert(target@ != seq!['/']);
        let with_step = target.clone().concat("/..");
        proof {
            reveal_strlit("/..");
            assert("/.."@ =~= seq!['/', '.', '.']);
        }
        let parent = clean_path(with_step.as_str());
        proof {
            lemma_abs_of_shape(self@.target, cwd@);
            assert(with_step@ == target@ + seq!['/', '.', '.']);
            lemma_parent_shape(target@);
        }
        match relative_path_from(source.as_str(), parent.as_str()) {
            Some(contents) => Some(LinkPlan { parent, target, contents }),
            None => {
                proof {
                    assert(false);
                }
                None
            },
        }
    }

    /// A link created as planned points back at its source: the relative
    /// path the plan stores at the target, read from the target's parent
    /// directory and normalized, is exactly the source's absolute path. This
    /// is the lexical half of "after a successful link() the relationship is
    /// linked"; what remains is the filesystem's word that the symbolic link
    /// holds the planned contents and resolves through its directory.
    pub proof fn lemma_plan_resolves_to_source(l: LinkV, p: PlanV, cwd: Seq<char>)
        requires
            is_abs(cwd),
            abs_of(l.target, cwd) != seq!['/'],
            p.target == abs_of(l.target, cwd),
            p.parent == parent_of(abs_of(l.target, cwd)),
            p.contents == join_segs(
                rel_segs(path_segs(abs_of(l.source, cwd)), path_segs(p.parent)),
            ),
        ensures
            abs_of(path_concat(p.parent, p.contents), cwd) == abs_of(l.source, cwd),
    {
        lemma_abs_of_shape(l.source, cwd);
        lemma_abs_of_shape(l.target, cwd);
        lemma_parent_shape(abs_of(l.target, cwd));
        lemma_resolve_rel(p.parent, abs_of(l.source, cwd));
    }

    /// The same, phrased on the probe: once a creation went through as
    /// planned — the source is present, the target is a symbolic link, and
    /// the target resolves to the parent joined with the planned contents —
    /// the relationship tests as linked.
    pub proof fn lemma_linked_after_plan(l: LinkV, p: PlanV, probe: ProbeV, cwd: Seq<char>)
        requires
            is_abs(cwd),
            abs_of(l.target, cwd) != seq!['/'],
            p.target == abs_of(l.target, cwd),
            p.parent == parent_of(abs_of(l.target, cwd)),
            p.contents == join_segs(
                rel_segs(path_segs(abs_of(l.source, cwd)), path_segs(p.parent)),
            ),
            probe.source_exists,
            probe.target_is_symlink,
            probe.target_canonical == Some(path_concat(p.parent, p.contents)),
        ensures
            is_linked_spec(l, probe, cwd),
    {
        Self::lemma_plan_resolves_to_source(l, p, cwd);
    }

    /// Describes the relationship for terminal output, with home-relative
    /// display of both paths.
    pub fn render(&self, home: &str) -> (r: String)
        ensures
            r@ == display_path_spec(self@.source, home@) + seq![' ', '🠆', ' ']
                + display_path_spec(self@.target, home@),
    {
        let s = display_path(self.source.as_str(), home);
        let t = display_path(self.target.as_str(), home);
        proof {
            reveal_strlit(" 🠆 ");
            assert(" 🠆 "@ =~= seq![' ', '🠆', ' ']);
        }
        s.concat(" 🠆 ").concat(t.as_str())
    }
}

} // verus!
