//! The link resolution engine: walks the store's top-level entries, resolves
//! each to its link relationships, classifies every relationship against the
//! observed filesystem state, and decides what a reconciliation sweep does.
use vstd::prelude::*;

use crate::symlink::{
    display_path, display_path_spec, is_linked_spec, links_model, parse_link_file,
    parse_link_file_spec, strip_prefix_dir, LinkProbe, LinkV, ParseError, ProbeV, Symlink,
};
use crate::utils::{
    expand_home, expand_home_dir, is_abs, is_dotfile, join_path, path_concat, strip_path_prefix,
};

verus! {

/// The mathematical value of one store entry: its name and, when the entry
/// carries a mapping file, that file's text.
pub ghost struct EntryV {
    pub name: Seq<char>,
    pub link_file: Option<Seq<char>>,
}

/// One top-level entry of the store, as the caller listed it: the entry's
/// name and the text of its mapping file, if the entry has one.
pub struct StoreEntry {
    pub name: String,
    pub link_file: Option<String>,
}

impl View for StoreEntry {
    type V = EntryV;

    open spec fn view(&self) -> EntryV {
        EntryV {
            name: self.name@,
            link_file: match self.link_file {
                Some(ref t) => Some(t@),
                None => None,
            },
        }
    }
}

/// The models of a sequence of store entries.
pub open spec fn entries_model(es: Seq<StoreEntry>) -> Seq<EntryV> {
    es.map_values(|e: StoreEntry| e@)
}

/// Why resolution failed.
#[derive(Debug)]
pub enum ResolveError {
    /// The store root, after home expansion, is not an absolute path.
    StoreNotAbsolute,
    /// A mapping file did not parse: the entry it belongs to, the 1-based
    /// line, and the reason.
    BadLinkFile { entry: String, line: usize, kind: ParseError },
}

/// The mathematical value of a resolution error.
pub ghost enum ResolveErrV {
    StoreNotAbsolute,
    BadLinkFile { entry: Seq<char>, line: int, kind: ParseError },
}

/// The model of a resolution error.
pub open spec fn resolve_error_model(e: ResolveError) -> ResolveErrV {
    match e {
        ResolveError::StoreNotAbsolute => ResolveErrV::StoreNotAbsolute,
        ResolveError::BadLinkFile { entry, line, kind } => ResolveErrV::BadLinkFile {
            entry: entry@,
            line: line as int,
            kind,
        },
    }
}

/// What one store entry contributes: a hidden entry nothing; an entry with a
/// mapping file one relationship per mapping, each source joined under the
/// entry's path; any other entry exactly one relationship, from the entry's
/// path to the default target root joined with the entry's name.
pub open spec fn entry_links(e: EntryV, dir: Seq<char>, default: Seq<char>, home: Seq<char>) -> Result<
    Seq<LinkV>,
    ResolveErrV,
> {
    if e.name.len() > 0 && e.name[0] == '.' {
        Ok(Seq::empty())
    } else {
        let path = path_concat(dir, e.name);
        match e.link_file {
            Some(text) => match parse_link_file_spec(text, home) {
                Ok(ls) => Ok(
                    ls.map_values(
                        |l: LinkV| LinkV { source: path_concat(path, l.source), target: l.target },
                    ),
                ),
                Err(fe) => Err(
                    ResolveErrV::BadLinkFile { entry: e.name, line: fe.line, kind: fe.kind },
                ),
            },
            None => Ok(seq![LinkV { source: path, target: path_concat(default, e.name) }]),
        }
    }
}

/// What resolving the whole listing yields, in listing order; the first bad
/// mapping file aborts the whole resolution.
pub open spec fn resolve_links(
    es: Seq<EntryV>,
    dir: Seq<char>,
    default: Seq<char>,
    home: Seq<char>,
) -> Result<Seq<LinkV>, ResolveErrV>
    decreases es.len(),
{
    if es.len() == 0 {
        Ok(Seq::empty())
    } else {
        match resolve_links(es.drop_last(), dir, default, home) {
            Err(e) => Err(e),
            Ok(ls) => match entry_links(es.last(), dir, default, home) {
                Err(e) => Err(e),
                Ok(more) => Ok(ls + more),
            },
        }
    }
}

/// The mathematical value of the resolution engine.
pub ghost struct ManagerV {
    pub default_target_path: Seq<char>,
    pub dotfile_dir: Seq<char>,
    pub links: Seq<LinkV>,
}

/// The resolution engine for one invocation: the expanded default target
/// root, the expanded store root, and the resolved relationships in listing
/// order.
pub struct Linkmanager {
    pub default_target_path: String,
    pub dotfile_dir: String,
    pub links: Vec<Symlink>,
}

impl View for Linkmanager {
    type V = ManagerV;

    open spec fn view(&self) -> ManagerV {
        ManagerV {
            default_target_path: self.default_target_path@,
            dotfile_dir: self.dotfile_dir@,
            links: links_model(self.links@),
        }
    }
}

/// What constructing the engine yields: both roots home-expanded, the store
/// root required absolute, and the listing resolved.
pub open spec fn new_manager_spec(
    default_target_path: Seq<char>,
    dotfile_dir: Seq<char>,
    home: Seq<char>,
    es: Seq<EntryV>,
) -> Result<ManagerV, ResolveErrV> {
    let default = expand_home(default_target_path, home);
    let dir = expand_home(dotfile_dir, home);
    if !is_abs(dir) {
        Err(ResolveErrV::StoreNotAbsolute)
    } else {
        match resolve_links(es, dir, default, home) {
            Ok(ls) => Ok(ManagerV { default_target_path: default, dotfile_dir: dir, links: ls }),
            Err(e) => Err(e),
        }
    }
}

/// The model of a construction result.
pub open spec fn manager_result_model(r: Result<Linkmanager, ResolveError>) -> Result<
    ManagerV,
    ResolveErrV,
> {
    match r {
        Ok(m) => Ok(m@),
        Err(e) => Err(resolve_error_model(e)),
    }
}

proof fn lemma_resolve_err_extends(
    es: Seq<EntryV>,
    k: int,
    dir: Seq<char>,
    default: Seq<char>,
    home: Seq<char>,
)
    requires
        0 <= k <= es.len(),
        resolve_links(es.take(k), dir, default, home) is Err,
    ensures
        resolve_links(es, dir, default, home) == resolve_links(es.take(k), dir, default, home),
    decreases es.len() - k,
{
    if k == es.len() {
        assert(es.take(k) =~= es);
    } else {
        assert(es.take(k + 1).drop_last() =~= es.take(k));
        assert(resolve_links(es.take(k + 1), dir, default, home) == resolve_links(
            es.take(k),
            dir,
            default,
            home,
        ));
        lemma_resolve_err_extends(es, k + 1, dir, default, home);
    }
}

impl Linkmanager {
    /// Builds the engine from the store's top-level directory listing:
    /// expands both roots, rejects a relative store root, and resolves every
    /// non-hidden entry in listing order. The first mapping file that fails
    /// to parse aborts the whole resolution.
    pub fn new(
        default_target_path: &str,
        dotfile_dir: &str,
        home: &str,
        entries: &Vec<StoreEntry>,
    ) -> (r: Result<Self, ResolveError>)
        ensures
            manager_result_model(r) == new_manager_spec(
                default_target_path@,
                dotfile_dir@,
                home@,
                entries_model(entries@),
            ),
    {
        let default = expand_home_dir(default_target_path, home);
        let dir = expand_home_dir(dotfile_dir, home);
        if !(dir.as_str().unicode_len() > 0 && dir.as_str().get_char(0) == '/') {
            return Err(ResolveError::StoreNotAbsolute);
        }
        let ghost es = entries_model(entries@);
        let mut links: Vec<Symlink> = Vec::new();
        proof {
            assert(es.take(0) =~= Seq::<EntryV>::empty());
            assert(links_model(Seq::<Symlink>::empty()) =~= Seq::<LinkV>::empty());
        }
        let mut i: usize = 0;
        while i < entries.len()
            invariant
                i <= entries.len(),
                es == entries_model(entries@),
                es.len() == entries.len(),
                dir@ == expand_home(dotfile_dir@, home@),
                default@ == expand_home(default_target_path@, home@),
                is_abs(dir@),
                forall|k: int| 0 <= k < es.len() ==> es[k] == entries@[k]@,
                resolve_links(es.take(i as int), dir@, default@, home@) == Ok::<
                    Seq<LinkV>,
                    ResolveErrV,
                >(links_model(links@)),
            decreases entries.len() - i,
        {
            let entry = &entries[i];
            proof {
                assert(es.take(i as int + 1).drop_last() =~= es.take(i as int));
                assert(es.take(i as int + 1).last() == es[i as int]);
            }
            if is_dotfile(entry.name.as_str()) {
                proof {
                    assert(links_model(links@) + Seq::<LinkV>::empty() =~= links_model(links@));
                }
            } else {
                let path = join_path(dir.as_str(), entry.name.as_str());
                match &entry.link_file {
                    Some(text) => {
                        match parse_link_file(text.as_str(), home) {
                            Ok(parsed) => {
                                let ghost base = links_model(links@);
                                let ghost mapped = parse_link_file_spec(
                                    text@,
                                    home@,
                                )->Ok_0.map_values(
                                    |l: LinkV|
                                        LinkV {
                                            source: path_concat(path@, l.source),
                                            target: l.target,
                                        },
                                );
                                proof {
                                    assert(base + mapped.take(0) =~= base);
                                }
                                let mut j: usize = 0;
                                while j < parsed.len()
                                    invariant
                                        j <= parsed.len(),
                                        path@ == path_concat(dir@, es[i as int].name),
                                        mapped.len() == parsed.len(),
                                        forall|k: int|
                                            0 <= k < parsed.len() ==> mapped[k] == (LinkV {
                                                source: path_concat(path@, parsed@[k]@.source),
                                                target: parsed@[k]@.target,
                                            }),
                                        links_model(links@) == base + mapped.take(j as int),
                                    decreases parsed.len() - j,
                                {
                                    let l = &parsed[j];
                                    let joined = join_path(path.as_str(), l.source.as_str());
                                    let target = l.target.clone();
                                    links.push(Symlink::new(joined, target));
                                    proof {
                                        assert(base + mapped.take(j as int + 1)
                                            =~= (base + mapped.take(j as int)).push(
                                            mapped[j as int],
                                        ));
                                        assert(links_model(links@) =~= (base + mapped.take(
                                            j as int,
                                        )).push(mapped[j as int]));
                                    }
                                    j += 1;
                                }
                                proof {
                                    assert(mapped.take(parsed.len() as int) =~= mapped);
                                }
                            },
                            Err(e) => {
                                proof {
                                    assert(resolve_links(
                                        es.take(i as int + 1),
                                        dir@,
                                        default@,
                                        home@,
                                    ) is Err);
                                    lemma_resolve_err_extends(
                                        es,
                                        i as int + 1,
                                        dir@,
                                        default@,
                                        home@,
                                    );
                                }
                                return Err(
                                    ResolveError::BadLinkFile {
                                        entry: entry.name.clone(),
                                        line: e.line,
                                        kind: e.kind,
                                    },
                                );
                            },
                        }
                    },
                    None => {
                        let ghost prev = links_model(links@);
                        let target = join_path(default.as_str(), entry.name.as_str());
                        links.push(Symlink::new(path, target));
                        proof {
                            let one = seq![
                                LinkV {
                                    source: path_concat(dir@, es[i as int].name),
                                    target: path_concat(default@, es[i as int].name),
                                },
                            ];
                            assert(links_model(links@) =~= prev + one);
                        }
                    },
                }
            }
            i += 1;
        }
        proof {
            assert(es.take(es.len() as int) =~= es);
        }
        Ok(Self { default_target_path: default, dotfile_dir: dir, links })
    }
}

/// One relationship's state against the filesystem. Exactly one applies, in
/// this precedence order: realized on disk; blocked by something that
/// occupies the target; dangling because the source is missing; or pending,
/// ready to be created.
#[derive(Clone, Copy, Debug, PartialEq, Eq, Structural)]
pub enum LinkStatus {
    Linked,
    TargetOccupied,
    SourceMissing,
    Pending,
}

/// The classification of one relationship, in precedence order: linked
/// first, then an occupied target, then a missing source, else pending.
pub open spec fn classify_spec(l: LinkV, p: ProbeV, cwd: Seq<char>) -> LinkStatus {
    if is_linked_spec(l, p, cwd) {
        LinkStatus::Linked
    } else if p.target_exists {
        LinkStatus::TargetOccupied
    } else if !p.source_exists {
        LinkStatus::SourceMissing
    } else {
        LinkStatus::Pending
    }
}

/// Classifies one relationship against what was observed on the filesystem.
pub fn classify(link: &Symlink, probe: &LinkProbe, cwd: &str) -> (r: LinkStatus)
    ensures
        r == classify_spec(link@, probe@, cwd@),
{
    if link.is_linked(probe, cwd) {
        LinkStatus::Linked
    } else if probe.target_exists {
        LinkStatus::TargetOccupied
    } else if !probe.source_exists {
        LinkStatus::SourceMissing
    } else {
        LinkStatus::Pending
    }
}

/// A run of `n` spaces.
pub open spec fn spaces(n: nat) -> Seq<char> {
    Seq::new(n, |i: int| ' ')
}

/// A string padded on the left with spaces up to width `n`; a longer string
/// stays as it is.
pub open spec fn pad_spec(s: Seq<char>, n: nat) -> Seq<char> {
    if s.len() >= n {
        s
    } else {
        spaces((n - s.len()) as nat) + s
    }
}

/// Right-aligns a string in a column of width `n`.
pub fn pad(s: &str, n: usize) -> (r: String)
    ensures
        r@ == pad_spec(s@, n as nat),
{
    let len = s.unicode_len();
    if len >= n {
        return String::from_str(s);
    }
    let mut acc = String::new();
    proof {
        assert(acc@ =~= spaces(0));
        reveal_strlit(" ");
    }
    let mut k: usize = 0;
    while k < n - len
        invariant
            k <= n - len,
            len < n,
            len == s@.len(),
            acc@ == spaces(k as nat),
            " "@.len() == 1 && " "@[0] == ' ',
        decreases n - len - k,
    {
        acc.append(" ");
        proof {
            assert(acc@ =~= spaces(k as nat + 1));
        }
        k += 1;
    }
    acc.concat(s)
}

/// The models of a sequence of probes.
pub open spec fn probes_model(ps: Seq<LinkProbe>) -> Seq<ProbeV> {
    ps.map_values(|p: LinkProbe| p@)
}

/// The mathematical value of one status report row.
pub ghost struct RowV {
    pub source: Seq<char>,
    pub target: Seq<char>,
    pub status: LinkStatus,
}

/// One line of the status report: the rendered source and target, each
/// padded to its column, and the relationship's state.
pub struct StatusRow {
    pub source: String,
    pub target: String,
    pub status: LinkStatus,
}

impl View for StatusRow {
    type V = RowV;

    open spec fn view(&self) -> RowV {
        RowV { source: self.source@, target: self.target@, status: self.status }
    }
}

/// The models of a sequence of report rows.
pub open spec fn rows_model(rs: Seq<StatusRow>) -> Seq<RowV> {
    rs.map_values(|r: StatusRow| r@)
}

/// How a relationship's source is shown in the report: relative to the
/// store root, then home-collapsed.
pub open spec fn row_source(l: LinkV, dir: Seq<char>, home: Seq<char>) -> Seq<char> {
    display_path_spec(strip_path_prefix(l.source, dir), home)
}

/// How a relationship's target is shown in the report.
pub open spec fn row_target(l: LinkV, home: Seq<char>) -> Seq<char> {
    display_path_spec(l.target, home)
}

/// The width of the source column: the longest rendered source.
pub open spec fn source_col_width(ls: Seq<LinkV>, dir: Seq<char>, home: Seq<char>) -> nat
    decreases ls.len(),
{
    if ls.len() == 0 {
        0
    } else {
        let w = source_col_width(ls.drop_last(), dir, home);
        let x = row_source(ls.last(), dir, home).len();
        if x > w {
            x
        } else {
            w
        }
    }
}

/// The width of the target column: the longest rendered target.
pub open spec fn target_col_width(ls: Seq<LinkV>, home: Seq<char>) -> nat
    decreases ls.len(),
{
    if ls.len() == 0 {
        0
    } else {
        let w = target_col_width(ls.drop_last(), home);
        let x = row_target(ls.last(), home).len();
        if x > w {
            x
        } else {
            w
        }
    }
}

/// What the status report holds: one row per relationship, in resolution
/// order, sources and targets each padded to their column's width, and each
/// relationship classified against its probe.
pub open spec fn status_rows_ok(
    m: ManagerV,
    probes: Seq<ProbeV>,
    cwd: Seq<char>,
    home: Seq<char>,
    rows: Seq<RowV>,
) -> bool {
    &&& rows.len() == m.links.len()
    &&& forall|i: int|
        0 <= i < rows.len() ==> rows[i] == (RowV {
            source: pad_spec(
                row_source(m.links[i], m.dotfile_dir, home),
                source_col_width(m.links, m.dotfile_dir, home),
            ),
            target: pad_spec(row_target(m.links[i], home), target_col_width(m.links, home)),
            status: classify_spec(m.links[i], probes[i], cwd),
        })
}

impl Linkmanager {
    /// Reports every relationship's state, one row per relationship in
    /// resolution order, with the two path columns independently padded to
    /// their longest rendered value. An empty relationship set yields an
    /// empty report.
    pub fn status(&self, probes: &Vec<LinkProbe>, cwd: &str, home: &str) -> (rows: Vec<StatusRow>)
        requires
            probes@.len() == self.links@.len(),
        ensures
            status_rows_ok(self@, probes_model(probes@), cwd@, home@, rows_model(rows@)),
    {
        let ghost ls = links_model(self.links@);
        let mut raw: Vec<StatusRow> = Vec::new();
        let mut wsrc: usize = 0;
        let mut wtgt: usize = 0;
        proof {
            assert(ls.take(0) =~= Seq::<LinkV>::empty());
        }
        let mut i: usize = 0;
        while i < self.links.len()
            invariant
                i <= self.links.len(),
                probes@.len() == self.links@.len(),
                ls == links_model(self.links@),
                ls.len() == self.links@.len(),
                raw@.len() == i,
                forall|k: int|
                    0 <= k < i ==> raw@[k]@ == (RowV {
                        source: row_source(ls[k], self.dotfile_dir@, home@),
                        target: row_target(ls[k], home@),
                        status: classify_spec(ls[k], probes@[k]@, cwd@),
                    }),
                wsrc as nat == source_col_width(ls.take(i as int), self.dotfile_dir@, home@),
                wtgt as nat == target_col_width(ls.take(i as int), home@),
            decreases self.links.len() - i,
        {
            let l = &self.links[i];
            let stripped = strip_prefix_dir(l.source.as_str(), self.dotfile_dir.as_str());
            let s = display_path(stripped, home);
            let t = display_path(l.target.as_str(), home);
            let st = classify(l, &probes[i], cwd);
            let sl = s.as_str().unicode_len();
            let tl = t.as_str().unicode_len();
            if sl > wsrc {
                wsrc = sl;
            }
            if tl > wtgt {
                wtgt = tl;
            }
            raw.push(StatusRow { source: s, target: t, status: st });
            proof {
                assert(ls.take(i as int + 1).drop_last() =~= ls.take(i as int));
                assert(ls.take(i as int + 1).last() == ls[i as int]);
            }
            i += 1;
        }
        proof {
            assert(ls.take(self.links@.len() as int) =~= ls);
        }
        let mut rows: Vec<StatusRow> = Vec::new();
        let mut j: usize = 0;
        while j < raw.len()
            invariant
                j <= raw.len(),
                ls == links_model(self.links@),
                raw@.len() == ls.len(),
                wsrc as nat == source_col_width(ls, self.dotfile_dir@, home@),
                wtgt as nat == target_col_width(ls, home@),
                probes@.len() == ls.len(),
                forall|k: int|
                    0 <= k < raw@.len() ==> raw@[k]@ == (RowV {
                        source: row_source(ls[k], self.dotfile_dir@, home@),
                        target: row_target(ls[k], home@),
                        status: classify_spec(ls[k], probes@[k]@, cwd@),
                    }),
                rows@.len() == j,
                forall|k: int|
                    0 <= k < j ==> rows@[k]@ == (RowV {
                        source: pad_spec(
                            row_source(ls[k], self.dotfile_dir@, home@),
                            source_col_width(ls, self.dotfile_dir@, home@),
                        ),
                        target: pad_spec(row_target(ls[k], home@), target_col_width(ls, home@)),
                        status: classify_spec(ls[k], probes@[k]@, cwd@),
                    }),
            decreases raw.len() - j,
        {
            let r = &raw[j];
            let source = pad(r.source.as_str(), wsrc);
            let target = pad(r.target.as_str(), wtgt);
            rows.push(StatusRow { source, target, status: r.status });
            j += 1;
        }
        rows
    }

    /// Decides one reconciliation sweep over the resolved set, in resolution
    /// order: an already linked relationship is skipped, an occupied target
    /// is a conflict and skipped, a missing source is skipped, and only a
    /// pending relationship is to be created.
    pub fn create_actions(&self, probes: &Vec<LinkProbe>, cwd: &str) -> (r: Vec<LinkStatus>)
        requires
            probes@.len() == self.links@.len(),
        ensures
            r@.len() == self@.links.len(),
            forall|i: int|
                0 <= i < r@.len() ==> r@[i] == classify_spec(
                    self@.links[i],
                    probes@[i]@,
                    cwd@,
                ),
    {
        let ghost ls = links_model(self.links@);
        let mut out: Vec<LinkStatus> = Vec::new();
        let mut i: usize = 0;
        while i < self.links.len()
            invariant
                i <= self.links.len(),
                probes@.len() == self.links@.len(),
                ls == links_model(self.links@),
                ls.len() == self.links@.len(),
                out@.len() == i,
                forall|k: int|
                    0 <= k < i ==> out@[k] == classify_spec(ls[k], probes@[k]@, cwd@),
            decreases self.links.len() - i,
        {
            let st = classify(&self.links[i], &probes[i], cwd);
            out.push(st);
            i += 1;
        }
        out
    }
}

/// Rerunning the sweep once everything is linked changes nothing: when every
/// relationship's probe reports it linked, every action is the silent
/// already-linked skip — nothing is created and nothing fails.
pub proof fn lemma_create_idempotent(
    m: ManagerV,
    probes: Seq<ProbeV>,
    cwd: Seq<char>,
    actions: Seq<LinkStatus>,
)
    requires
        probes.len() == m.links.len(),
        actions.len() == m.links.len(),
        forall|i: int|
            0 <= i < actions.len() ==> actions[i] == classify_spec(m.links[i], probes[i], cwd),
        forall|i: int| 0 <= i < probes.len() ==> is_linked_spec(m.links[i], probes[i], cwd),
    ensures
        forall|i: int| 0 <= i < actions.len() ==> actions[i] == LinkStatus::Linked,
{
}

/// Rerunning the sweep after a completed one changes nothing more: a
/// relationship the first sweep created now probes linked, a skipped
/// conflict still finds its target occupied, and a skipped missing source
/// is still missing — so no action of the second sweep is a creation, and
/// nothing can fail.
pub proof fn lemma_second_sweep_creates_nothing(
    m: ManagerV,
    probes: Seq<ProbeV>,
    cwd: Seq<char>,
    actions: Seq<LinkStatus>,
)
    requires
        probes.len() == m.links.len(),
        actions.len() == m.links.len(),
        forall|i: int|
            0 <= i < actions.len() ==> actions[i] == classify_spec(m.links[i], probes[i], cwd),
        forall|i: int|
            0 <= i < probes.len() ==> is_linked_spec(m.links[i], probes[i], cwd)
                || probes[i].target_exists || !probes[i].source_exists,
    ensures
        forall|i: int| 0 <= i < actions.len() ==> actions[i] != LinkStatus::Pending,
{
}

/// What one invocation asks of the engine.
pub enum Command {
    /// Report every relationship's state.
    Status,
    /// Decide a reconciliation sweep.
    Create,
}

/// What the engine answers: the status report, or the sweep's actions.
pub enum Report {
    Status(Vec<StatusRow>),
    Create(Vec<LinkStatus>),
}

/// Runs one command against the resolved set and the observed filesystem
/// state: `Status` yields the padded report, `Create` the sweep's actions.
pub fn run(cmd: &Command, manager: &Linkmanager, probes: &Vec<LinkProbe>, cwd: &str, home: &str) -> (r:
    Report)
    requires
        probes@.len() == manager.links@.len(),
    ensures
        match r {
            Report::Status(rows) => cmd is Status && status_rows_ok(
                manager@,
                probes_model(probes@),
                cwd@,
                home@,
                rows_model(rows@),
            ),
            Report::Create(acts) => cmd is Create && acts@.len() == manager@.links.len()
                && forall|i: int|
                0 <= i < acts@.len() ==> acts@[i] == classify_spec(
                    manager@.links[i],
                    probes@[i]@,
                    cwd@,
                ),
        },
{
    match cmd {
        Command::Status => Report::Status(manager.status(probes, cwd, home)),
        Command::Create => Report::Create(manager.create_actions(probes, cwd)),
    }
}

} // verus!
