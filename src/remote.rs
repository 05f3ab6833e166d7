//! The decisions of a remote (FTP) destination: what a reply means, where a
//! file's size is found when the server cannot say it, and which directories
//! a path goes through.

use vstd::prelude::*;
use vstd::string::{StrSliceExecFns, StringExecFns};
use crate::error::XisoError;
use crate::listing::chars_of;

verus! {

/// A server's reply to a command, as far as the decisions here need it.
#[derive(Debug)]
pub enum RemoteReply {
    /// The command succeeded.
    Done,
    /// The size asked for.
    Size(usize),
    /// "File unavailable" (550).
    FileUnavailable,
    /// A reply whose syntax is invalid; some servers send one for the size of
    /// a large file.
    BadResponse,
    /// Any other failure.
    Failed { reason: String },
}

/// Where the size of a remote file comes from.
#[derive(Debug, PartialEq, Eq, Structural)]
pub enum RemoteSize {
    /// The server said it.
    Known(u64),
    /// There is no such file.
    Absent,
    /// It is to be found in the listing of the file's directory.
    FromListing,
}

/// What a reply to a change of directory says of the directory: it exists, it
/// does not ("file unavailable"), or the server failed.
pub fn dir_exists_from(reply: RemoteReply) -> (r: Result<bool, XisoError>)
    ensures
        reply is Done ==> r == Ok::<bool, XisoError>(true),
        reply is FileUnavailable ==> r == Ok::<bool, XisoError>(false),
        reply matches RemoteReply::Failed { reason } ==> r matches Err(XisoError::Remote { reason: why })
            && why@ == reason@,
        (reply is Size || reply is BadResponse) ==> r matches Err(XisoError::Remote { .. }),
{
    match reply {
        RemoteReply::Done => Ok(true),
        RemoteReply::FileUnavailable => Ok(false),
        RemoteReply::Failed { reason } => Err(XisoError::Remote { reason }),
        _ => Err(XisoError::Remote { reason: String::from_str("unexpected reply to a change of directory") }),
    }
}

/// What a reply to a size query says: the size, no such file ("file
/// unavailable"), a garbled size to be looked up in the listing, or a failure.
pub fn size_from(reply: RemoteReply) -> (r: Result<RemoteSize, XisoError>)
    ensures
        reply matches RemoteReply::Size(n) ==> r == Ok::<RemoteSize, XisoError>(RemoteSize::Known(n as u64)),
        reply is FileUnavailable ==> r == Ok::<RemoteSize, XisoError>(RemoteSize::Absent),
        reply is BadResponse ==> r == Ok::<RemoteSize, XisoError>(RemoteSize::FromListing),
        reply matches RemoteReply::Failed { reason } ==> r matches Err(XisoError::Remote { reason: why })
            && why@ == reason@,
        reply is Done ==> r matches Err(XisoError::Remote { .. }),
{
    match reply {
        RemoteReply::Size(n) => Ok(RemoteSize::Known(n as u64)),
        RemoteReply::FileUnavailable => Ok(RemoteSize::Absent),
        RemoteReply::BadResponse => Ok(RemoteSize::FromListing),
        RemoteReply::Failed { reason } => Err(XisoError::Remote { reason }),
        RemoteReply::Done => Err(XisoError::Remote { reason: String::from_str("no size in the reply") }),
    }
}

/// Relies on suppaftp's `list::File::from_str`, which reads a POSIX or DOS
/// listing line: the name and size of the entry that a line describes, `None`
/// where it reads neither. A POSIX date without a year is read in the current
/// year, so whether a line is read can depend on the day it is read.
#[verifier::external_body]
fn parse_list_line(line: &str) -> (r: Option<(String, usize)>) {
    match <suppaftp::list::File as std::str::FromStr>::from_str(line) {
        Ok(f) => Some((f.name().to_string(), f.size())),
        Err(_) => None,
    }
}

/// The entries that suppaftp reads in the lines of a directory listing, one
/// for each line.
pub fn parse_listing(lines: &Vec<String>) -> (r: Vec<Option<(String, usize)>>)
    ensures
        r@.len() == lines@.len(),
{
    let mut entries: Vec<Option<(String, usize)>> = Vec::new();
    let mut i: usize = 0;
    while i < lines.len()
        invariant
            i <= lines@.len(),
            entries@.len() == i,
        decreases lines@.len() - i,
    {
        entries.push(parse_list_line(lines[i].as_str()));
        i = i + 1;
    }
    entries
}

/// The size of the last entry named `name` among `entries`.
pub open spec fn last_size_of(entries: Seq<Option<(Seq<char>, usize)>>, name: Seq<char>) -> Option<usize>
    decreases entries.len(),
{
    if entries.len() == 0 {
        None
    } else {
        match entries.last() {
            Some((n, size)) if n == name => Some(size),
            _ => last_size_of(entries.drop_last(), name),
        }
    }
}

/// The entries of a listing over plain values.
pub open spec fn entry_views(entries: Seq<Option<(String, usize)>>) -> Seq<Option<(Seq<char>, usize)>> {
    entries.map_values(
        |e: Option<(String, usize)>|
            match e {
                Some((n, size)) => Some((n@, size)),
                None => None,
            },
    )
}

/// The size that the last entry named `name` gives, `None` where no entry has
/// that name.
pub fn pick_listed_size(entries: &Vec<Option<(String, usize)>>, name: &String) -> (r: Option<usize>)
    ensures
        r == last_size_of(entry_views(entries@), name@),
{
    let mut found: Option<usize> = None;
    let mut i: usize = 0;
    while i < entries.len()
        invariant
            i <= entries@.len(),
            found == last_size_of(entry_views(entries@.subrange(0, i as int)), name@),
        decreases entries@.len() - i,
    {
        proof {
            assert(entry_views(entries@.subrange(0, i + 1)).drop_last() =~= entry_views(
                entries@.subrange(0, i as int),
            ));
        }
        match &entries[i] {
            Some((n, size)) => {
                if *n == *name {
                    found = Some(*size);
                }
            },
            None => {},
        }
        i = i + 1;
    }
    assert(entries@.subrange(0, entries@.len() as int) =~= entries@);
    found
}

/// The names between the slashes of `s`, empty ones left out, after `cur`,
/// the part of a name already read.
pub open spec fn split_from(s: Seq<char>, cur: Seq<char>) -> Seq<Seq<char>>
    decreases s.len(),
{
    let done = if cur.len() > 0 { seq![cur] } else { Seq::empty() };
    if s.len() == 0 {
        done
    } else if s[0] == '/' {
        done + split_from(s.drop_first(), Seq::empty())
    } else {
        split_from(s.drop_first(), cur.push(s[0]))
    }
}

/// The names between the slashes of a path, empty ones left out.
pub open spec fn path_segments(s: Seq<char>) -> Seq<Seq<char>> {
    split_from(s, Seq::empty())
}

/// A list of texts over plain values.
pub open spec fn texts(v: Seq<String>) -> Seq<Seq<char>> {
    v.map_values(|x: String| x@)
}

/// Splits a path into the names between its slashes, empty ones left out.
pub fn split_path(path: &str) -> (r: Vec<String>)
    ensures
        texts(r@) == path_segments(path@),
{
    let cs = chars_of(path);
    let mut out: Vec<String> = Vec::new();
    let mut start: usize = 0;
    let mut i: usize = 0;
    assert(cs@.subrange(0, cs@.len() as int) =~= cs@);
    assert(cs@.subrange(0, 0) =~= Seq::<char>::empty());
    assert(texts(out@) + path_segments(cs@) =~= path_segments(cs@));
    while i < cs.len()
        invariant
            cs@ == path@,
            start <= i <= cs@.len(),
            path_segments(cs@) == texts(out@) + split_from(
                cs@.subrange(i as int, cs@.len() as int),
                cs@.subrange(start as int, i as int),
            ),
        decreases cs@.len() - i,
    {
        let ghost rest = cs@.subrange(i as int, cs@.len() as int);
        assert(rest.drop_first() =~= cs@.subrange(i + 1, cs@.len() as int));
        if cs[i] == '/' {
            if start < i {
                let piece = String::from_str(path.substring_char(start, i));
                let ghost before = out@;
                out.push(piece);
                assert(texts(out@) =~= texts(before).push(cs@.subrange(start as int, i as int)));
                assert(texts(out@) + split_from(cs@.subrange(i + 1, cs@.len() as int), Seq::empty()) =~= texts(
                    before,
                ) + (seq![cs@.subrange(start as int, i as int)] + split_from(
                    cs@.subrange(i + 1, cs@.len() as int),
                    Seq::empty(),
                )));
            } else {
                assert(cs@.subrange(start as int, i as int) =~= Seq::<char>::empty());
                assert(Seq::<Seq<char>>::empty() + split_from(cs@.subrange(i + 1, cs@.len() as int), Seq::empty())
                    =~= split_from(cs@.subrange(i + 1, cs@.len() as int), Seq::empty()));
            }
            start = i + 1;
            assert(cs@.subrange(start as int, i + 1) =~= Seq::<char>::empty());
        } else {
            assert(cs@.subrange(start as int, i as int).push(cs@[i as int]) =~= cs@.subrange(
                start as int,
                i + 1,
            ));
        }
        i = i + 1;
    }
    if start < i {
        let piece = String::from_str(path.substring_char(start, i));
        let ghost before = out@;
        out.push(piece);
        assert(texts(out@) =~= texts(before).push(cs@.subrange(start as int, i as int)));
        assert(texts(before) + seq![cs@.subrange(start as int, i as int)] =~= texts(out@));
    } else {
        assert(texts(out@) + Seq::<Seq<char>>::empty() =~= texts(out@));
    }
    out
}

/// `/` and the first `k` names, joined by `/`: the absolute path of the
/// directory they lead to.
pub open spec fn rooted(segs: Seq<Seq<char>>) -> Seq<char>
    decreases segs.len(),
{
    if segs.len() == 0 {
        Seq::empty()
    } else {
        rooted(segs.drop_last()) + seq!['/'] + segs.last()
    }
}

/// The absolute path of the directory that the first `k` names lead to:
/// `/a/b` for `a` and `b`, `/` for none.
pub fn rooted_path(segs: &Vec<String>, k: usize) -> (r: String)
    requires
        k <= segs@.len(),
    ensures
        k > 0 ==> r@ == rooted(texts(segs@).subrange(0, k as int)),
        k == 0 ==> r@ == seq!['/'],
{
    let mut r = String::new();
    let mut i: usize = 0;
    proof {
        reveal_strlit("/");
        assert(texts(segs@).subrange(0, 0) =~= Seq::<Seq<char>>::empty());
    }
    while i < k
        invariant
            i <= k <= segs@.len(),
            r@ == rooted(texts(segs@).subrange(0, i as int)),
        decreases k - i,
    {
        r.append("/");
        r.append(segs[i].as_str());
        proof {
            reveal_strlit("/");
            let next = texts(segs@).subrange(0, i + 1);
            assert(next.drop_last() =~= texts(segs@).subrange(0, i as int));
        }
        i = i + 1;
    }
    if k == 0 {
        r = String::from_str("/");
        proof {
            reveal_strlit("/");
        }
    }
    r
}


/// Where the last `/` of `s` is; -1 where there is none.
pub open spec fn last_slash(s: Seq<char>) -> int
    decreases s.len(),
{
    if s.len() == 0 {
        -1
    } else if s.last() == '/' {
        s.len() - 1
    } else {
        last_slash(s.drop_last())
    }
}

proof fn lemma_last_slash_bounds(s: Seq<char>)
    ensures
        -1 <= last_slash(s) < s.len(),
        last_slash(s) >= 0 ==> s[last_slash(s)] == '/',
    decreases s.len(),
{
    if s.len() > 0 && s.last() != '/' {
        lemma_last_slash_bounds(s.drop_last());
    }
}

/// Splits a file's path at its last `/` into its directory and its name: the
/// directory is `/` for a file at the root, empty where there is no `/`.
pub fn split_parent(path: &str) -> (r: (String, String))
    ensures
        ({
            let k = last_slash(path@);
            &&& k > 0 ==> r.0@ == path@.subrange(0, k)
            &&& k == 0 ==> r.0@ == seq!['/']
            &&& k < 0 ==> r.0@ == Seq::<char>::empty()
            &&& r.1@ == path@.subrange(k + 1, path@.len() as int)
        }),
{
    let cs = chars_of(path);
    let n = cs.len();
    let mut i: usize = n;
    proof {
        lemma_last_slash_bounds(path@);
        assert(path@.subrange(0, n as int) =~= path@);
    }
    while i > 0 && cs[i - 1] != '/'
        invariant
            cs@ == path@,
            n == cs@.len(),
            i <= n,
            last_slash(path@) == last_slash(path@.subrange(0, i as int)),
        decreases i,
    {
        assert(path@.subrange(0, i as int).drop_last() =~= path@.subrange(0, i - 1));
        i = i - 1;
    }
    proof {
        if i > 0 {
            assert(path@.subrange(0, i as int).last() == '/');
        }
    }
    let name = String::from_str(path.substring_char(i, n));
    if i == 0 {
        return (String::new(), name);
    }
    if i == 1 {
        proof {
            reveal_strlit("/");
        }
        return (String::from_str("/"), name);
    }
    (String::from_str(path.substring_char(0, i - 1)), name)
}

/// Whether a destination names a remote target: it starts with `ftp://`.
pub fn is_remote_destination(out: &str) -> (r: bool)
    ensures
        r == (out@.len() >= 6 && out@.subrange(0, 6) == seq!['f', 't', 'p', ':', '/', '/']),
{
    let cs = chars_of(out);
    if cs.len() < 6 {
        return false;
    }
    let r = cs[0] == 'f' && cs[1] == 't' && cs[2] == 'p' && cs[3] == ':' && cs[4] == '/' && cs[5] == '/';
    proof {
        if r {
            assert(out@.subrange(0, 6) =~= seq!['f', 't', 'p', ':', '/', '/']);
        } else {
            if out@.subrange(0, 6) == seq!['f', 't', 'p', ':', '/', '/'] {
                assert(out@.subrange(0, 6)[0] == 'f');
                assert(out@.subrange(0, 6)[1] == 't');
                assert(out@.subrange(0, 6)[2] == 'p');
                assert(out@.subrange(0, 6)[3] == ':');
                assert(out@.subrange(0, 6)[4] == '/');
                assert(out@.subrange(0, 6)[5] == '/');
            }
        }
    }
    r
}

/// What a URL holds, as far as a remote target needs it: the parts as
/// url_parse's parser reads them.
pub struct UrlParts {
    pub user: Option<String>,
    pub password: Option<String>,
    pub domain: Option<String>,
    pub top_level_domain: Option<String>,
    pub port: Option<u32>,
    pub path: Option<Vec<String>>,
}

/// The parts of a URL over plain values.
pub struct UrlView {
    pub user: Option<Seq<char>>,
    pub password: Option<Seq<char>>,
    pub domain: Option<Seq<char>>,
    pub top_level_domain: Option<Seq<char>>,
    pub port: Option<u32>,
    pub path: Option<Seq<Seq<char>>>,
}

pub open spec fn text_opt(s: Option<String>) -> Option<Seq<char>> {
    match s {
        Some(v) => Some(v@),
        None => None,
    }
}

impl View for UrlParts {
    type V = UrlView;

    open spec fn view(&self) -> UrlView {
        UrlView {
            user: text_opt(self.user),
            password: text_opt(self.password),
            domain: text_opt(self.domain),
            top_level_domain: text_opt(self.top_level_domain),
            port: self.port,
            path: match self.path {
                Some(segs) => Some(texts(segs@)),
                None => None,
            },
        }
    }
}

/// The login used where a URL holds none.
pub open spec fn default_login() -> Seq<char> {
    seq!['x', 'b', 'o', 'x']
}

/// Where a remote destination is and how to log in to it.
#[derive(Debug)]
pub struct RemoteTarget {
    pub host: String,
    pub port: u32,
    pub user: String,
    pub password: String,
    pub path: String,
}

fn or_default_login(s: Option<String>) -> (r: String)
    ensures
        r@ == match s {
            Some(v) => v@,
            None => default_login(),
        },
{
    match s {
        Some(v) => v,
        None => {
            let r = String::from_str("xbox");
            proof {
                reveal_strlit("xbox");
                assert(r@ =~= default_login());
            }
            r
        },
    }
}

/// The parts name a host and a port.
pub open spec fn names_target(v: UrlView) -> bool {
    v.domain is Some && v.port is Some
}

/// `t` is the target that the parts `v` describe.
pub open spec fn target_of(v: UrlView, t: RemoteTarget) -> bool {
    &&& t.host@ == match v.top_level_domain {
        Some(tld) => v.domain->0 + seq!['.'] + tld,
        None => v.domain->0,
    }
    &&& t.port == v.port->0
    &&& t.user@ == match v.user {
        Some(u) => u,
        None => default_login(),
    }
    &&& t.password@ == match (v.user, v.password) {
        (Some(_), Some(p)) => p,
        _ => default_login(),
    }
    &&& t.path@ == match v.path {
        Some(segs) => if segs.len() > 0 {
            rooted(segs)
        } else {
            seq!['/']
        },
        None => seq!['/'],
    }
}

impl RemoteTarget {
    /// The target that the parts of a URL describe: the host is the domain,
    /// followed by `.` and the top-level domain where there is one; user and
    /// password are `xbox` where the URL gives none, and a password counts
    /// only beside a user; the path is `/` and the URL's path names joined by
    /// `/`. A URL without a domain or a port names no target.
    pub fn from_parts(parts: UrlParts) -> (r: Result<RemoteTarget, XisoError>)
        ensures
            r is Err <==> !names_target(parts@),
            r matches Ok(t) ==> target_of(parts@, t),
    {
        let UrlParts { user, password, domain, top_level_domain, port, path } = parts;
        let mut host = match domain {
            Some(d) => d,
            None => {
                return Err(XisoError::Remote { reason: String::from_str("the URL names no host") });
            },
        };
        let port = match port {
            Some(p) => p,
            None => {
                return Err(XisoError::Remote { reason: String::from_str("the URL names no port") });
            },
        };
        match top_level_domain {
            Some(tld) => {
                host.append(".");
                host.append(tld.as_str());
                proof {
                    reveal_strlit(".");
                }
            },
            None => {},
        }
        let ghost v0 = parts@;
        let path = match path {
            Some(segs) => {
                let p = rooted_path(&segs, segs.len());
                proof {
                    assert(texts(segs@).subrange(0, segs@.len() as int) =~= texts(segs@));
                    assert(texts(segs@).len() == segs@.len());
                    assert(v0.path == Some(texts(segs@)));
                    assert(p@ == match v0.path {
                        Some(sg) => if sg.len() > 0 {
                            rooted(sg)
                        } else {
                            seq!['/']
                        },
                        None => seq!['/'],
                    });
                }
                p
            },
            None => {
                proof {
                    reveal_strlit("/");
                }
                String::from_str("/")
            },
        };
        let ghost v = parts@;
        let password = match user {
            Some(_) => password,
            None => None,
        };
        let t = RemoteTarget { host, port, user: or_default_login(user), password: or_default_login(password), path };
        proof {
            assert(t.host@ == match v.top_level_domain {
                Some(tld) => v.domain->0 + seq!['.'] + tld,
                None => v.domain->0,
            });
            assert(t.port == v.port->0);
            assert(t.user@ == match v.user {
                Some(u) => u,
                None => default_login(),
            });
            assert(t.password@ == match (v.user, v.password) {
                (Some(_), Some(p)) => p,
                _ => default_login(),
            });
            assert(v == v0);
            assert(t.path@ == match v.path {
                Some(sg) => if sg.len() > 0 {
                    rooted(sg)
                } else {
                    seq!['/']
                },
                None => seq!['/'],
            });
            assert(target_of(v, t));
        }
        Ok(t)
    }
}


/// Where a walk down a remote path stands.
#[derive(Clone, Copy, Debug, PartialEq, Eq, Structural)]
pub enum WalkPhase {
    /// Asked whether the next directory exists where the walk stands.
    Checking,
    /// Asked to create it.
    Creating,
    /// Asked to enter it.
    Entering,
    /// The whole path exists and is entered.
    Done,
}

/// What the caller does next on a walk down a remote path.
#[derive(Debug)]
pub enum DirAction {
    /// Tell whether the directory `name` exists where the walk stands
    /// (answer `DirExists`).
    Check { name: String },
    /// Create the directory `name` where the walk stands (answer `Completed`).
    Create { name: String },
    /// Enter the directory at this absolute path (answer `Completed`).
    Enter { path: String },
    /// The path exists.
    Done,
}

/// An action of a walk over plain values.
pub enum DirActionView {
    Check(Seq<char>),
    Create(Seq<char>),
    Enter(Seq<char>),
    Done,
}

impl View for DirAction {
    type V = DirActionView;

    open spec fn view(&self) -> DirActionView {
        match self {
            DirAction::Check { name } => DirActionView::Check(name@),
            DirAction::Create { name } => DirActionView::Create(name@),
            DirAction::Enter { path } => DirActionView::Enter(path@),
            DirAction::Done => DirActionView::Done,
        }
    }
}

/// The state of a walk over plain values: the names along the path, the index
/// of the current one, and where it stands.
pub struct WalkView {
    pub segs: Seq<Seq<char>>,
    pub index: int,
    pub phase: WalkPhase,
}

/// Takes up the name at `w.index`, or ends when none is left.
pub open spec fn walk_begin(w: WalkView) -> (WalkView, DirActionView) {
    if w.index >= w.segs.len() {
        (WalkView { phase: WalkPhase::Done, ..w }, DirActionView::Done)
    } else {
        (WalkView { phase: WalkPhase::Checking, ..w }, DirActionView::Check(w.segs[w.index]))
    }
}

/// One step of a walk: each directory along the path is checked, created
/// where it is absent, then entered, one after the other.
pub open spec fn walk_step(w: WalkView, exists: bool) -> (WalkView, DirActionView) {
    let enter = DirActionView::Enter(rooted(w.segs.subrange(0, w.index + 1)));
    match w.phase {
        WalkPhase::Checking => if exists {
            (WalkView { phase: WalkPhase::Entering, ..w }, enter)
        } else {
            (WalkView { phase: WalkPhase::Creating, ..w }, DirActionView::Create(w.segs[w.index]))
        },
        WalkPhase::Creating => (WalkView { phase: WalkPhase::Entering, ..w }, enter),
        WalkPhase::Entering => walk_begin(WalkView { index: w.index + 1, ..w }),
        WalkPhase::Done => (w, DirActionView::Done),
    }
}

/// A walk down a remote path that makes each directory along it.
pub struct DirWalk {
    segs: Vec<String>,
    index: usize,
    phase: WalkPhase,
}

impl View for DirWalk {
    type V = WalkView;

    closed spec fn view(&self) -> WalkView {
        WalkView { segs: texts(self.segs@), index: self.index as int, phase: self.phase }
    }
}

impl DirWalk {
    pub closed spec fn wf(&self) -> bool {
        &&& self.index <= self.segs@.len()
        &&& (self.phase == WalkPhase::Done <==> self.index == self.segs@.len())
    }

    /// Starts a walk down `path`, whose names are split at its slashes.
    pub fn start(path: &str) -> (r: (DirWalk, DirAction))
        ensures
            r.0.wf(),
            (r.0@, r.1@) == walk_begin(WalkView { segs: path_segments(path@), index: 0, phase: WalkPhase::Done }),
    {
        let segs = split_path(path);
        let mut w = DirWalk { segs, index: 0, phase: WalkPhase::Done };
        let a = w.begin();
        (w, a)
    }

    fn begin(&mut self) -> (r: DirAction)
        requires
            old(self).index <= old(self).segs@.len(),
        ensures
            final(self).wf(),
            (final(self)@, r@) == walk_begin(old(self)@),
    {
        if self.index >= self.segs.len() {
            self.phase = WalkPhase::Done;
            return DirAction::Done;
        }
        self.phase = WalkPhase::Checking;
        DirAction::Check { name: self.segs[self.index].clone() }
    }

    /// Takes the answer to the last action (`exists` matters only to a
    /// check) and gives the next action.
    pub fn step(&mut self, exists: bool) -> (r: DirAction)
        requires
            old(self).wf(),
            old(self)@.phase != WalkPhase::Done,
        ensures
            final(self).wf(),
            (final(self)@, r@) == walk_step(old(self)@, exists),
    {
        let n = self.segs.len();
        assert(self.index < n);
        match self.phase {
            WalkPhase::Checking => {
                if exists {
                    self.phase = WalkPhase::Entering;
                    DirAction::Enter { path: self.entered() }
                } else {
                    self.phase = WalkPhase::Creating;
                    DirAction::Create { name: self.segs[self.index].clone() }
                }
            },
            WalkPhase::Creating => {
                self.phase = WalkPhase::Entering;
                DirAction::Enter { path: self.entered() }
            },
            WalkPhase::Entering => {
                self.index = self.index + 1;
                self.begin()
            },
            WalkPhase::Done => DirAction::Done,
        }
    }

    /// The absolute path of the directory at `index`.
    fn entered(&self) -> (r: String)
        requires
            self.index < self.segs@.len(),
        ensures
            r@ == rooted(texts(self.segs@).subrange(0, self.index + 1)),
    {
        let count = self.segs.len();
        assert(self.index < count);
        rooted_path(&self.segs, self.index + 1)
    }
}

} // verus!
