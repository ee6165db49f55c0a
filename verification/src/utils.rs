//! Path utilities: a lexical model of Unix-style paths as character
//! sequences, home-placeholder expansion, absolute-path normalization, and
//! hidden-entry detection.
use vstd::prelude::*;

verus! {

/// A path is absolute when it begins with the root separator.
pub open spec fn is_abs(p: Seq<char>) -> bool {
    p.len() > 0 && p[0] == '/'
}

/// The home placeholder occupies the leading path segment: the path is `~`
/// alone or begins with `~/`.
pub open spec fn has_home_prefix(p: Seq<char>) -> bool {
    p.len() >= 1 && p[0] == '~' && (p.len() == 1 || p[1] == '/')
}

/// What home expansion yields: the placeholder segment is replaced by the
/// home directory; a `~` anywhere else is left untouched.
pub open spec fn expand_home(p: Seq<char>, home: Seq<char>) -> Seq<char> {
    if has_home_prefix(p) {
        if p.len() == 1 {
            home
        } else {
            home + p.skip(1)
        }
    } else {
        p
    }
}

/// Replaces a leading home-placeholder segment with the home directory,
/// keeping the rest of the path; paths without the placeholder come back
/// unchanged.
pub fn expand_home_dir(path: &str, home: &str) -> (r: String)
    ensures
        r@ == expand_home(path@, home@),
        !has_home_prefix(path@) ==> r@ == path@,
{
    let n = path.unicode_len();
    if n >= 1 && path.get_char(0) == '~' && (n == 1 || path.get_char(1) == '/') {
        if n == 1 {
            String::from_str(home)
        } else {
            let rest = path.substring_char(1, n);
            assert(rest@ == path@.skip(1));
            String::from_str(home).concat(rest)
        }
    } else {
        String::from_str(path)
    }
}

/// A directory entry is hidden when its name begins with a dot.
pub fn is_dotfile(name: &str) -> (r: bool)
    ensures
        r == (name@.len() > 0 && name@[0] == '.'),
{
    name.unicode_len() > 0 && name.get_char(0) == '.'
}

/// Splits `s` at every occurrence of `sep`: the pieces that were closed by a
/// separator, and the still-open piece after the last separator.
pub open spec fn split_state(s: Seq<char>, sep: char) -> (Seq<Seq<char>>, Seq<char>)
    decreases s.len(),
{
    if s.len() == 0 {
        (Seq::empty(), Seq::empty())
    } else {
        let r = split_state(s.drop_last(), sep);
        if s.last() == sep {
            (r.0.push(r.1), Seq::empty())
        } else {
            (r.0, r.1.push(s.last()))
        }
    }
}

/// All pieces of `s` between occurrences of `sep`, in order.
pub open spec fn pieces(s: Seq<char>, sep: char) -> Seq<Seq<char>> {
    split_state(s, sep).0.push(split_state(s, sep).1)
}

/// How often `c` occurs in `s`.
pub open spec fn char_count(s: Seq<char>, c: char) -> nat
    decreases s.len(),
{
    if s.len() == 0 {
        0
    } else {
        char_count(s.drop_last(), c) + if s.last() == c {
            1nat
        } else {
            0nat
        }
    }
}

/// The parent-directory segment.
pub open spec fn dotdot() -> Seq<char> {
    seq!['.', '.']
}

/// The current-directory segment.
pub open spec fn dot() -> Seq<char> {
    seq!['.']
}

/// A piece that counts as a segment: non-empty and not the bare `.`.
pub open spec fn seg_kept(w: Seq<char>) -> bool {
    w.len() > 0 && w != dot()
}

/// The pieces that count as segments, in order.
pub open spec fn keep_segs(ps: Seq<Seq<char>>) -> Seq<Seq<char>>
    decreases ps.len(),
{
    if ps.len() == 0 {
        Seq::empty()
    } else {
        let rest = keep_segs(ps.drop_last());
        if seg_kept(ps.last()) {
            rest.push(ps.last())
        } else {
            rest
        }
    }
}

/// The path's segments: the pieces between separators, with empty pieces
/// (repeated or trailing separators) and bare `.` pieces dropped.
pub open spec fn path_segs(s: Seq<char>) -> Seq<Seq<char>> {
    keep_segs(pieces(s, '/'))
}

/// Lexical resolution of `..` segments, processed left to right: a `..`
/// cancels a preceding ordinary segment; at the root of an absolute path it
/// vanishes; at the start of a relative path (or after an uncancelled `..`)
/// it stays.
pub open spec fn clean_fold(segs: Seq<Seq<char>>, abs: bool) -> Seq<Seq<char>>
    decreases segs.len(),
{
    if segs.len() == 0 {
        Seq::empty()
    } else {
        let out = clean_fold(segs.drop_last(), abs);
        let x = segs.last();
        if x == dotdot() {
            if out.len() == 0 {
                if abs {
                    out
                } else {
                    out.push(x)
                }
            } else if out.last() == dotdot() {
                out.push(x)
            } else {
                out.drop_last()
            }
        } else {
            out.push(x)
        }
    }
}

/// Segments joined with single separators, no leading or trailing one.
pub open spec fn join_segs(segs: Seq<Seq<char>>) -> Seq<char>
    decreases segs.len(),
{
    if segs.len() == 0 {
        Seq::empty()
    } else if segs.len() == 1 {
        segs[0]
    } else {
        join_segs(segs.drop_last()) + seq!['/'] + segs.last()
    }
}

/// Lexical cleaning of a Unix-style path: separators reduced to one, `.`
/// segments dropped, `..` segments resolved against what precedes them; an
/// absolute path keeps its leading `/`, and a path with nothing left becomes
/// `.` (relative) or `/` (absolute).
pub open spec fn cleaned(s: Seq<char>) -> Seq<char> {
    let out = clean_fold(path_segs(s), is_abs(s));
    if is_abs(s) {
        seq!['/'] + join_segs(out)
    } else if out.len() == 0 {
        dot()
    } else {
        join_segs(out)
    }
}

/// Relies on path_clean::clean: it reduces repeated separators, eliminates
/// `.` segments and resolves `..` segments lexically, returning `.` for an
/// emptied relative path, exactly as `cleaned` states.
#[verifier::external_body]
pub(crate) fn clean_path(s: &str) -> (r: String)
    ensures
        r@ == cleaned(s@),
{
    path_clean::clean(s).into_os_string().into_string().unwrap()
}

/// Joining under a base directory: an absolute path stands alone; a relative
/// one goes after the base and a separator.
pub open spec fn path_concat(base: Seq<char>, rel: Seq<char>) -> Seq<char> {
    if is_abs(rel) {
        rel
    } else if base.len() == 0 {
        rel
    } else if base.last() == '/' {
        base + rel
    } else {
        base + seq!['/'] + rel
    }
}

/// Joins a path onto a base directory, adding a separator where one is
/// needed.
pub fn join_path(base: &str, rel: &str) -> (r: String)
    ensures
        r@ == path_concat(base@, rel@),
{
    let nb = base.unicode_len();
    if rel.unicode_len() > 0 && rel.get_char(0) == '/' {
        String::from_str(rel)
    } else if nb == 0 {
        String::from_str(rel)
    } else if base.get_char(nb - 1) == '/' {
        String::from_str(base).concat(rel)
    } else {
        proof {
            reveal_strlit("/");
        }
        String::from_str(base).concat("/").concat(rel)
    }
}

/// The absolute, cleaned form of a path: joined under the working directory
/// when relative, then cleaned lexically.
pub open spec fn abs_of(p: Seq<char>, cwd: Seq<char>) -> Seq<char> {
    cleaned(
        if is_abs(p) {
            p
        } else {
            path_concat(cwd, p)
        },
    )
}

/// Makes a path absolute against the given working directory and cleans it
/// lexically, without touching the filesystem.
pub fn absolute_path(path: &str, cwd: &str) -> (r: String)
    ensures
        r@ == abs_of(path@, cwd@),
{
    if path.unicode_len() > 0 && path.get_char(0) == '/' {
        clean_path(path)
    } else {
        let joined = join_path(cwd, path);
        clean_path(joined.as_str())
    }
}

/// The relative walk from directory `b` to `a`, both given as segment
/// sequences: the shared leading segments drop out, one `..` climbs over
/// each remaining segment of `b`, and the rest of `a` follows.
pub open spec fn rel_segs(a: Seq<Seq<char>>, b: Seq<Seq<char>>) -> Seq<Seq<char>>
    decreases a.len() + b.len(),
{
    if a.len() > 0 && b.len() > 0 && a[0] == b[0] {
        rel_segs(a.drop_first(), b.drop_first())
    } else {
        Seq::new(b.len(), |i: int| dotdot()) + a
    }
}

/// A path with a leading directory prefix removed: when `s` lies under the
/// directory `pre`, the part below it; when `s` is `pre` itself, nothing;
/// otherwise `s` unchanged.
pub open spec fn strip_path_prefix(s: Seq<char>, pre: Seq<char>) -> Seq<char> {
    if pre.len() < s.len() && s.take(pre.len() as int) == pre && s[pre.len() as int] == '/' {
        s.skip(pre.len() as int + 1)
    } else if s == pre {
        Seq::empty()
    } else {
        s
    }
}

/// No segment of the sequence is a parent reference.
pub open spec fn no_parent_refs(segs: Seq<Seq<char>>) -> bool {
    forall|i: int| 0 <= i < segs.len() ==> segs[i] != dotdot()
}

/// The Unicode white-space class, as stripped from the edges of a
/// mapping-file line and separating its tokens.
pub open spec fn is_space(c: char) -> bool {
    c == ' ' || c == '\t' || c == '\n' || c == '\u{b}' || c == '\u{c}' || c == '\r' || c
        == '\u{85}' || c == '\u{a0}' || c == '\u{1680}' || c == '\u{2000}' || c == '\u{2001}' || c
        == '\u{2002}' || c == '\u{2003}' || c == '\u{2004}' || c == '\u{2005}' || c == '\u{2006}'
        || c == '\u{2007}' || c == '\u{2008}' || c == '\u{2009}' || c == '\u{200a}' || c
        == '\u{2028}' || c == '\u{2029}' || c == '\u{202f}' || c == '\u{205f}' || c == '\u{3000}'
}

/// `s` without its leading whitespace.
pub open spec fn trim_start(s: Seq<char>) -> Seq<char>
    decreases s.len(),
{
    if s.len() > 0 && is_space(s[0]) {
        trim_start(s.skip(1))
    } else {
        s
    }
}

/// `s` without its trailing whitespace.
pub open spec fn trim_end(s: Seq<char>) -> Seq<char>
    decreases s.len(),
{
    if s.len() > 0 && is_space(s.last()) {
        trim_end(s.drop_last())
    } else {
        s
    }
}

/// `s` without leading and trailing whitespace.
pub open spec fn trimmed(s: Seq<char>) -> Seq<char> {
    trim_end(trim_start(s))
}

/// Whether `c` is whitespace.
pub fn is_space_char(c: char) -> (r: bool)
    ensures
        r == is_space(c),
{
    c == ' ' || c == '\t' || c == '\n' || c == '\u{b}' || c == '\u{c}' || c == '\r' || c
        == '\u{85}' || c == '\u{a0}' || c == '\u{1680}' || c == '\u{2000}' || c == '\u{2001}' || c
        == '\u{2002}' || c == '\u{2003}' || c == '\u{2004}' || c == '\u{2005}' || c == '\u{2006}'
        || c == '\u{2007}' || c == '\u{2008}' || c == '\u{2009}' || c == '\u{200a}' || c
        == '\u{2028}' || c == '\u{2029}' || c == '\u{202f}' || c == '\u{205f}' || c == '\u{3000}'
}

/// Splitting at whitespace, part way through `s`: the non-empty runs closed
/// so far, and the still-open run.
pub open spec fn token_state(s: Seq<char>) -> (Seq<Seq<char>>, Seq<char>)
    decreases s.len(),
{
    if s.len() == 0 {
        (Seq::empty(), Seq::empty())
    } else {
        let r = token_state(s.drop_last());
        if is_space(s.last()) {
            if r.1.len() > 0 {
                (r.0.push(r.1), Seq::empty())
            } else {
                (r.0, Seq::empty())
            }
        } else {
            (r.0, r.1.push(s.last()))
        }
    }
}

/// The whitespace-separated tokens of `s`: its maximal non-empty runs of
/// non-whitespace characters, in order.
pub open spec fn tokens(s: Seq<char>) -> Seq<Seq<char>> {
    let r = token_state(s);
    if r.1.len() > 0 {
        r.0.push(r.1)
    } else {
        r.0
    }
}

proof fn lemma_trim_start_at(s: Seq<char>, k: int)
    requires
        0 <= k <= s.len(),
        forall|j: int| 0 <= j < k ==> is_space(s[j]),
        k < s.len() ==> !is_space(s[k]),
    ensures
        trim_start(s) == s.skip(k),
    decreases k,
{
    if k == 0 {
        assert(s.skip(0) =~= s);
    } else {
        lemma_trim_start_at(s.skip(1), k - 1);
        assert(s.skip(1).skip(k - 1) =~= s.skip(k));
    }
}

proof fn lemma_trim_end_at(s: Seq<char>, k: int)
    requires
        0 <= k <= s.len(),
        forall|j: int| k <= j < s.len() ==> is_space(s[j]),
        k > 0 ==> !is_space(s[k - 1]),
    ensures
        trim_end(s) == s.take(k),
    decreases s.len() - k,
{
    if k == s.len() {
        assert(s.take(k) =~= s);
    } else {
        lemma_trim_end_at(s.drop_last(), k);
        assert(s.drop_last().take(k) =~= s.take(k));
    }
}

/// Strips leading and trailing whitespace.
pub fn trim(s: &str) -> (r: &str)
    ensures
        r@ == trimmed(s@),
{
    let n = s.unicode_len();
    let mut start: usize = 0;
    while start < n && is_space_char(s.get_char(start))
        invariant
            start <= n,
            n == s@.len(),
            forall|j: int| 0 <= j < start ==> is_space(s@[j]),
        decreases n - start,
    {
        start += 1;
    }
    let mut end: usize = n;
    while end > start && is_space_char(s.get_char(end - 1))
        invariant
            start <= end <= n,
            n == s@.len(),
            forall|j: int| end <= j < n ==> is_space(s@[j]),
        decreases end,
    {
        end -= 1;
    }
    proof {
        lemma_trim_start_at(s@, start as int);
        lemma_trim_end_at(s@.skip(start as int), end - start as int);
        assert(s@.skip(start as int).take(end - start) =~= s@.subrange(
            start as int,
            end as int,
        ));
    }
    s.substring_char(start, end)
}

/// No character of `w` is `c`.
pub open spec fn has_no_char(w: Seq<char>, c: char) -> bool {
    forall|i: int| 0 <= i < w.len() ==> w[i] != c
}

/// A well-formed segment sequence: every segment is non-empty, is not the
/// bare `.`, and holds no separator.
pub open spec fn segs_wf(ws: Seq<Seq<char>>) -> bool {
    forall|i: int|
        0 <= i < ws.len() ==> seg_kept(#[trigger] ws[i]) && has_no_char(ws[i], '/')
}

proof fn lemma_pieces_no_sep(s: Seq<char>, sep: char)
    ensures
        forall|i: int|
            0 <= i < split_state(s, sep).0.len() ==> has_no_char(
                #[trigger] split_state(s, sep).0[i],
                sep,
            ),
        has_no_char(split_state(s, sep).1, sep),
    decreases s.len(),
{
    if s.len() > 0 {
        lemma_pieces_no_sep(s.drop_last(), sep);
    }
}

proof fn lemma_keep_segs_wf(ps: Seq<Seq<char>>)
    requires
        forall|i: int| 0 <= i < ps.len() ==> has_no_char(#[trigger] ps[i], '/'),
    ensures
        segs_wf(keep_segs(ps)),
    decreases ps.len(),
{
    if ps.len() > 0 {
        assert forall|i: int| 0 <= i < ps.drop_last().len() implies has_no_char(
            #[trigger] ps.drop_last()[i],
            '/',
        ) by {
            assert(ps.drop_last()[i] == ps[i]);
        }
        lemma_keep_segs_wf(ps.drop_last());
    }
}

proof fn lemma_path_segs_wf(s: Seq<char>)
    ensures
        segs_wf(path_segs(s)),
{
    lemma_pieces_no_sep(s, '/');
    let ps = pieces(s, '/');
    assert forall|i: int| 0 <= i < ps.len() implies has_no_char(#[trigger] ps[i], '/') by {
        if i < ps.len() - 1 {
            assert(ps[i] == split_state(s, '/').0[i]);
        } else {
            assert(ps[i] == split_state(s, '/').1);
        }
    }
    lemma_keep_segs_wf(ps);
}

proof fn lemma_fold_wf(segs: Seq<Seq<char>>, abs: bool)
    requires
        segs_wf(segs),
    ensures
        segs_wf(clean_fold(segs, abs)),
    decreases segs.len(),
{
    if segs.len() > 0 {
        assert forall|i: int| 0 <= i < segs.drop_last().len() implies seg_kept(
            #[trigger] segs.drop_last()[i],
        ) && has_no_char(segs.drop_last()[i], '/') by {
            assert(segs.drop_last()[i] == segs[i]);
        }
        lemma_fold_wf(segs.drop_last(), abs);
        assert(seg_kept(dotdot()));
        assert(has_no_char(dotdot(), '/'));
        let out = clean_fold(segs.drop_last(), abs);
        let x = segs.last();
        assert(seg_kept(x) && has_no_char(x, '/'));
        if x == dotdot() && out.len() > 0 && out.last() != dotdot() {
            assert forall|i: int| 0 <= i < out.drop_last().len() implies seg_kept(
                #[trigger] out.drop_last()[i],
            ) && has_no_char(out.drop_last()[i], '/') by {
                assert(out.drop_last()[i] == out[i]);
            }
        }
    }
}

proof fn lemma_fold_abs_no_dotdot(segs: Seq<Seq<char>>)
    ensures
        no_parent_refs(clean_fold(segs, true)),
    decreases segs.len(),
{
    if segs.len() > 0 {
        lemma_fold_abs_no_dotdot(segs.drop_last());
    }
}

proof fn lemma_fold_id(segs: Seq<Seq<char>>, abs: bool)
    requires
        no_parent_refs(segs),
    ensures
        clean_fold(segs, abs) == segs,
    decreases segs.len(),
{
    if segs.len() > 0 {
        assert forall|i: int| 0 <= i < segs.drop_last().len() implies segs.drop_last()[i]
            != dotdot() by {
            assert(segs.drop_last()[i] == segs[i]);
        }
        lemma_fold_id(segs.drop_last(), abs);
        assert(segs.drop_last().push(segs.last()) =~= segs);
    }
}

proof fn lemma_split_append_seg(x: Seq<char>, w: Seq<char>)
    requires
        has_no_char(w, '/'),
    ensures
        split_state(x + seq!['/'] + w, '/') == (pieces(x, '/'), w),
    decreases w.len(),
{
    if w.len() == 0 {
        assert(x + seq!['/'] + w =~= x.push('/'));
        assert((x.push('/')).drop_last() =~= x);
        assert(w =~= Seq::<char>::empty());
    } else {
        assert forall|i: int| 0 <= i < w.drop_last().len() implies w.drop_last()[i] != '/' by {
            assert(w.drop_last()[i] == w[i]);
        }
        lemma_split_append_seg(x, w.drop_last());
        let s = x + seq!['/'] + w;
        assert(s.drop_last() =~= x + seq!['/'] + w.drop_last());
        assert(s.last() == w.last());
        assert(w.drop_last().push(w.last()) =~= w);
    }
}

proof fn lemma_segs_append(x: Seq<char>, w: Seq<char>)
    requires
        has_no_char(w, '/'),
    ensures
        seg_kept(w) ==> path_segs(x + seq!['/'] + w) == path_segs(x).push(w),
        !seg_kept(w) ==> path_segs(x + seq!['/'] + w) == path_segs(x),
{
    lemma_split_append_seg(x, w);
    assert(pieces(x + seq!['/'] + w, '/') =~= pieces(x, '/').push(w));
    assert(pieces(x, '/').push(w).drop_last() =~= pieces(x, '/'));
}

proof fn lemma_append_join(x: Seq<char>, ws: Seq<Seq<char>>)
    requires
        segs_wf(ws),
    ensures
        path_segs(x + seq!['/'] + join_segs(ws)) == path_segs(x) + ws,
    decreases ws.len(),
{
    if ws.len() == 0 {
        assert(join_segs(ws) =~= Seq::<char>::empty());
        lemma_segs_append(x, Seq::empty());
        assert(path_segs(x) + ws =~= path_segs(x));
    } else if ws.len() == 1 {
        lemma_segs_append(x, ws[0]);
        assert(join_segs(ws) == ws[0]);
        assert(path_segs(x).push(ws[0]) =~= path_segs(x) + ws);
    } else {
        assert forall|i: int| 0 <= i < ws.drop_last().len() implies seg_kept(
            #[trigger] ws.drop_last()[i],
        ) && has_no_char(ws.drop_last()[i], '/') by {
            assert(ws.drop_last()[i] == ws[i]);
        }
        lemma_append_join(x, ws.drop_last());
        let y = x + seq!['/'] + join_segs(ws.drop_last());
        assert(x + seq!['/'] + join_segs(ws) =~= y + seq!['/'] + ws.last());
        lemma_segs_append(y, ws.last());
        assert((path_segs(x) + ws.drop_last()).push(ws.last()) =~= path_segs(x) + ws);
    }
}

proof fn lemma_segs_of_cleaned_abs(s: Seq<char>)
    requires
        is_abs(s),
    ensures
        is_abs(cleaned(s)),
        path_segs(cleaned(s)) == clean_fold(path_segs(s), true),
        segs_wf(path_segs(cleaned(s))),
        no_parent_refs(path_segs(cleaned(s))),
{
    lemma_path_segs_wf(s);
    let out = clean_fold(path_segs(s), true);
    lemma_fold_wf(path_segs(s), true);
    lemma_fold_abs_no_dotdot(path_segs(s));
    assert(seq!['/'] + join_segs(out) =~= Seq::<char>::empty() + seq!['/'] + join_segs(out));
    lemma_append_join(Seq::empty(), out);
    assert(keep_segs(Seq::<Seq<char>>::empty()) =~= Seq::<Seq<char>>::empty());
    assert(pieces(Seq::<char>::empty(), '/') =~= seq![Seq::<char>::empty()]);
    assert(seq![Seq::<char>::empty()].drop_last() =~= Seq::<Seq<char>>::empty());
    assert(!seg_kept(Seq::<char>::empty()));
    assert(path_segs(Seq::<char>::empty()) =~= Seq::<Seq<char>>::empty());
    assert(Seq::<Seq<char>>::empty() + out =~= out);
    assert(cleaned(s) == seq!['/'] + join_segs(out));
    assert(cleaned(s)[0] == '/');
}

proof fn lemma_join_first(ws: Seq<Seq<char>>)
    requires
        ws.len() > 0,
        seg_kept(ws[0]),
    ensures
        join_segs(ws).len() > 0,
        join_segs(ws)[0] == ws[0][0],
    decreases ws.len(),
{
    if ws.len() > 1 {
        assert(ws.drop_last()[0] == ws[0]);
        lemma_join_first(ws.drop_last());
    }
}

proof fn lemma_join_last(ws: Seq<Seq<char>>)
    requires
        ws.len() > 0,
        seg_kept(ws.last()),
        has_no_char(ws.last(), '/'),
    ensures
        join_segs(ws).len() > 0,
        join_segs(ws).last() != '/',
{
    if ws.len() == 1 {
        assert(join_segs(ws) == ws[0]);
        assert(ws[0].last() != '/');
    } else {
        let j = join_segs(ws.drop_last()) + seq!['/'] + ws.last();
        assert(join_segs(ws) == j);
        assert(j.last() == ws.last().last());
        assert(ws.last().last() != '/');
    }
}

proof fn lemma_fold_pop(out: Seq<Seq<char>>, k: int)
    requires
        no_parent_refs(out),
        0 <= k <= out.len(),
    ensures
        clean_fold(out + Seq::new(k as nat, |i: int| dotdot()), true) == out.take(out.len() - k),
    decreases k,
{
    if k == 0 {
        assert(out + Seq::new(0, |i: int| dotdot()) =~= out);
        lemma_fold_id(out, true);
        assert(out.take(out.len() as int) =~= out);
    } else {
        lemma_fold_pop(out, k - 1);
        let s = out + Seq::new(k as nat, |i: int| dotdot());
        assert(s.drop_last() =~= out + Seq::new((k - 1) as nat, |i: int| dotdot()));
        assert(s.last() == dotdot());
        let prev = out.take(out.len() - (k - 1));
        assert(prev.len() > 0);
        assert(prev.last() == out[out.len() - k]);
        assert(prev.last() != dotdot());
        assert(prev.drop_last() =~= out.take(out.len() - k));
    }
}

proof fn lemma_fold_append(xs: Seq<Seq<char>>, ys: Seq<Seq<char>>, abs: bool)
    requires
        no_parent_refs(ys),
    ensures
        clean_fold(xs + ys, abs) == clean_fold(xs, abs) + ys,
    decreases ys.len(),
{
    if ys.len() == 0 {
        assert(xs + ys =~= xs);
        assert(clean_fold(xs, abs) + ys =~= clean_fold(xs, abs));
    } else {
        assert forall|i: int| 0 <= i < ys.drop_last().len() implies ys.drop_last()[i]
            != dotdot() by {
            assert(ys.drop_last()[i] == ys[i]);
        }
        lemma_fold_append(xs, ys.drop_last(), abs);
        let s = xs + ys;
        assert(s.drop_last() =~= xs + ys.drop_last());
        assert(s.last() == ys.last());
        assert(ys.last() != dotdot());
        assert((clean_fold(xs, abs) + ys.drop_last()).push(ys.last()) =~= clean_fold(xs, abs)
            + ys);
    }
}

/// How many leading segments two sequences share.
pub open spec fn common_len(a: Seq<Seq<char>>, b: Seq<Seq<char>>) -> nat
    decreases a.len() + b.len(),
{
    if a.len() > 0 && b.len() > 0 && a[0] == b[0] {
        1 + common_len(a.drop_first(), b.drop_first())
    } else {
        0
    }
}

proof fn lemma_rel_shape(a: Seq<Seq<char>>, b: Seq<Seq<char>>)
    ensures
        common_len(a, b) <= a.len(),
        common_len(a, b) <= b.len(),
        a.take(common_len(a, b) as int) == b.take(common_len(a, b) as int),
        rel_segs(a, b) == Seq::new((b.len() - common_len(a, b)) as nat, |i: int| dotdot())
            + a.skip(common_len(a, b) as int),
    decreases a.len() + b.len(),
{
    if a.len() > 0 && b.len() > 0 && a[0] == b[0] {
        lemma_rel_shape(a.drop_first(), b.drop_first());
        let k = common_len(a, b) as int;
        assert(k == 1 + common_len(a.drop_first(), b.drop_first()));
        assert forall|i: int| 0 <= i < k implies a.take(k)[i] == b.take(k)[i] by {
            if i > 0 {
                assert(a.drop_first().take(k - 1)[i - 1] == b.drop_first().take(k - 1)[i - 1]);
                assert(a.drop_first()[i - 1] == a[i]);
                assert(b.drop_first()[i - 1] == b[i]);
            }
        }
        assert(a.take(k) =~= b.take(k));
        assert(a.drop_first().skip(k - 1) =~= a.skip(k));
        assert(Seq::new((b.len() - k) as nat, |i: int| dotdot()) =~= Seq::new(
            (b.drop_first().len() - (k - 1)) as nat,
            |i: int| dotdot(),
        ));
    } else {
        assert(a.skip(0) =~= a);
        assert(a.take(0) =~= b.take(0));
    }
}

proof fn lemma_rel_fold(a: Seq<Seq<char>>, b: Seq<Seq<char>>)
    requires
        no_parent_refs(a),
        no_parent_refs(b),
    ensures
        clean_fold(b + rel_segs(a, b), true) == a,
{
    lemma_rel_shape(a, b);
    let k = common_len(a, b) as int;
    let dd = Seq::new((b.len() - k) as nat, |i: int| dotdot());
    assert(b + rel_segs(a, b) =~= (b + dd) + a.skip(k));
    lemma_fold_pop(b, b.len() - k);
    assert(b.take(b.len() - (b.len() - k)) =~= b.take(k));
    assert forall|i: int| 0 <= i < a.skip(k).len() implies a.skip(k)[i] != dotdot() by {
        assert(a.skip(k)[i] == a[i + k]);
    }
    lemma_fold_append(b + dd, a.skip(k), true);
    assert(b.take(k) + a.skip(k) =~= a);
}

/// The shape of an absolutized path: it is absolute, it is the separator
/// followed by its own joined segments, and its segments are well-formed
/// with every `..` resolved away.
pub proof fn lemma_abs_of_shape(p: Seq<char>, cwd: Seq<char>)
    requires
        is_abs(cwd),
    ensures
        is_abs(abs_of(p, cwd)),
        abs_of(p, cwd) == seq!['/'] + join_segs(path_segs(abs_of(p, cwd))),
        segs_wf(path_segs(abs_of(p, cwd))),
        no_parent_refs(path_segs(abs_of(p, cwd))),
{
    let z = if is_abs(p) {
        p
    } else {
        path_concat(cwd, p)
    };
    assert(is_abs(z));
    lemma_segs_of_cleaned_abs(z);
}

/// Stepping to the parent of a normalized absolute path that is not the
/// root: the `..` step cancels exactly the last segment.
pub proof fn lemma_parent_shape(t: Seq<char>)
    requires
        is_abs(t),
        t == seq!['/'] + join_segs(path_segs(t)),
        segs_wf(path_segs(t)),
        no_parent_refs(path_segs(t)),
        t != seq!['/'],
    ensures
        path_segs(cleaned(t + seq!['/', '.', '.'])) == path_segs(t).drop_last(),
        cleaned(t + seq!['/', '.', '.']) == seq!['/'] + join_segs(path_segs(t).drop_last()),
        is_abs(cleaned(t + seq!['/', '.', '.'])),
        segs_wf(path_segs(cleaned(t + seq!['/', '.', '.']))),
        no_parent_refs(path_segs(cleaned(t + seq!['/', '.', '.']))),
{
    let tt = path_segs(t);
    if tt.len() == 0 {
        assert(join_segs(tt) =~= Seq::<char>::empty());
        assert(t =~= seq!['/']);
    }
    assert(tt.len() > 0);
    assert(seg_kept(dotdot()));
    assert(has_no_char(dotdot(), '/'));
    lemma_segs_append(t, dotdot());
    assert(t + seq!['/'] + dotdot() =~= t + seq!['/', '.', '.']);
    let s = t + seq!['/', '.', '.'];
    assert(is_abs(s));
    assert(path_segs(s) == tt.push(dotdot()));
    lemma_segs_of_cleaned_abs(s);
    lemma_fold_id(tt, true);
    assert(tt.push(dotdot()).drop_last() =~= tt);
    assert(tt.last() != dotdot());
    assert(clean_fold(tt.push(dotdot()), true) == tt.drop_last());
}

/// Walking the planned relative path from the base directory and
/// normalizing lands exactly on the destination.
pub proof fn lemma_resolve_rel(parent: Seq<char>, a: Seq<char>)
    requires
        is_abs(parent),
        parent == seq!['/'] + join_segs(path_segs(parent)),
        segs_wf(path_segs(parent)),
        no_parent_refs(path_segs(parent)),
        is_abs(a),
        a == seq!['/'] + join_segs(path_segs(a)),
        segs_wf(path_segs(a)),
        no_parent_refs(path_segs(a)),
    ensures
        abs_of(
            path_concat(parent, join_segs(rel_segs(path_segs(a), path_segs(parent)))),
            parent,
        ) == a,
        is_abs(path_concat(parent, join_segs(rel_segs(path_segs(a), path_segs(parent))))),
        cleaned(path_concat(parent, join_segs(rel_segs(path_segs(a), path_segs(parent))))) == a,
{
    let pp = path_segs(parent);
    let aa = path_segs(a);
    let rel = rel_segs(aa, pp);
    lemma_rel_shape(aa, pp);
    let k = common_len(aa, pp) as int;
    assert forall|i: int| 0 <= i < rel.len() implies seg_kept(#[trigger] rel[i]) && has_no_char(
        rel[i],
        '/',
    ) by {
        if i < pp.len() - k {
            assert(rel[i] == dotdot());
        } else {
            assert(rel[i] == aa.skip(k)[i - (pp.len() - k)]);
            assert(aa.skip(k)[i - (pp.len() - k)] == aa[i - (pp.len() - k) + k]);
        }
    }
    let contents = join_segs(rel);
    if rel.len() > 0 {
        lemma_join_first(rel);
        assert(contents[0] != '/');
    } else {
        assert(contents =~= Seq::<char>::empty());
    }
    assert(!is_abs(contents));
    let pc = path_concat(parent, contents);
    if pp.len() == 0 {
        assert(join_segs(pp) =~= Seq::<char>::empty());
        assert(parent =~= seq!['/']);
        assert(parent.last() == '/');
        assert(pc == parent + contents);
        assert(pc =~= Seq::<char>::empty() + seq!['/'] + contents);
        lemma_append_join(Seq::empty(), rel);
        assert(keep_segs(Seq::<Seq<char>>::empty()) =~= Seq::<Seq<char>>::empty());
        assert(pieces(Seq::<char>::empty(), '/') =~= seq![Seq::<char>::empty()]);
        assert(seq![Seq::<char>::empty()].drop_last() =~= Seq::<Seq<char>>::empty());
        assert(!seg_kept(Seq::<char>::empty()));
        assert(path_segs(Seq::<char>::empty()) =~= Seq::<Seq<char>>::empty());
        assert(path_segs(pc) =~= pp + rel);
    } else {
        assert(seg_kept(pp.last()) && has_no_char(pp.last(), '/'));
        lemma_join_last(pp);
        assert(parent.last() == join_segs(pp).last());
        assert(parent.last() != '/');
        assert(pc == parent + seq!['/'] + contents);
        lemma_append_join(parent, rel);
        assert(path_segs(pc) =~= pp + rel);
    }
    assert(pc[0] == '/');
    assert(is_abs(pc));
    lemma_rel_fold(aa, pp);
    assert(clean_fold(path_segs(pc), true) == aa);
    assert(cleaned(pc) == seq!['/'] + join_segs(aa));
    assert(cleaned(pc) == a);
}

} // verus!
