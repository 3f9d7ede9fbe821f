//! Repositories and their commit history records: the tolerant log-line
//! decoder, the display ordering of records and repositories, and the
//! derivation of a repository's local mirror path.
use crate::datetime::DateTime;
use crate::time::parse_i64_spec;
use vstd::prelude::*;

verus! {

/// Where a repository stands in its synchronization cycle.  A repository
/// only moves forward through these states; `Failed` and `Finished` are
/// terminal until a reset returns every repository to `Checking`.
#[derive(Clone, Copy, Debug, PartialEq, Eq, Structural)]
pub enum RepoStatus {
    Checking,
    Cloning,
    Pulling,
    Failed,
    Log,
    Finished,
}

impl Default for RepoStatus {
    /// Every repository starts out `Checking`.
    fn default() -> (r: Self)
        ensures
            r == RepoStatus::Checking,
    {
        RepoStatus::Checking
    }
}

/// One decoded commit record.
#[derive(Debug)]
pub struct Log {
    pub age: String,
    pub author: String,
    pub cdate: String,
    pub commit_datetime: DateTime,
    pub message: String,
    pub sha: String,
}

impl Clone for Log {
    /// A clone carries the very same record.
    fn clone(&self) -> (r: Self)
        ensures
            r == *self,
    {
        Log {
            age: self.age.clone(),
            author: self.author.clone(),
            cdate: self.cdate.clone(),
            commit_datetime: self.commit_datetime,
            message: self.message.clone(),
            sha: self.sha.clone(),
        }
    }
}

/// The field separator of a raw history line: a control byte the version
/// control tool is configured never to emit inside a field.
pub open spec fn sep_char() -> char {
    '\u{b}'
}

/// Index of the first separator in `s` at or after `i`; the length of
/// `s` when there is none.
pub open spec fn next_sep(s: Seq<char>, i: int) -> int
    decreases s.len() - i,
{
    if i < 0 || i >= s.len() {
        s.len() as int
    } else if s[i] == sep_char() {
        i
    } else {
        next_sep(s, i + 1)
    }
}

/// Positions of the first four separators of `s`, each the length of `s`
/// where the chain runs out.
pub open spec fn sep_positions(s: Seq<char>) -> (int, int, int, int) {
    let p1 = next_sep(s, 0);
    let p2 = next_sep(s, p1 + 1);
    let p3 = next_sep(s, p2 + 1);
    let p4 = next_sep(s, p3 + 1);
    (p1, p2, p3, p4)
}

/// Whether `s` splits into exactly five fields: four separators are
/// present and no fifth follows.
pub open spec fn five_fields(s: Seq<char>) -> bool {
    let (p1, p2, p3, p4) = sep_positions(s);
    p4 < s.len() && next_sep(s, p4 + 1) == s.len()
}

/// The five fields of a line that `five_fields` accepts, in their raw
/// order: hash, commit timestamp, age text, author, message.
pub open spec fn fields_of(s: Seq<char>) -> (Seq<char>, Seq<char>, Seq<char>, Seq<char>, Seq<
    char,
>) {
    let (p1, p2, p3, p4) = sep_positions(s);
    (
        s.subrange(0, p1),
        s.subrange(p1 + 1, p2),
        s.subrange(p2 + 1, p3),
        s.subrange(p3 + 1, p4),
        s.subrange(p4 + 1, s.len() as int),
    )
}

/// Epoch seconds a decoded line's timestamp field denotes: what the
/// field reads as a decimal integer, or zero when it does not read as
/// one.  The fallback keeps decoding total.
pub open spec fn decoded_epoch(cdate: Seq<char>) -> int {
    match parse_i64_spec(cdate) {
        Some(t) => t as int,
        None => 0,
    }
}

/// What decoding a line must produce.  A five-field line populates every
/// field verbatim; anything else is the all-empty sentinel record with
/// the epoch-zero instant.
pub open spec fn decoded_record(s: Seq<char>, r: Log) -> bool {
    &&& r.commit_datetime.valid()
    &&& if five_fields(s) {
        let (sha, cdate, age, author, message) = fields_of(s);
        &&& r.sha@ == sha
        &&& r.cdate@ == cdate
        &&& r.age@ == age
        &&& r.author@ == author
        &&& r.message@ == message
        &&& r.commit_datetime.epoch() == decoded_epoch(cdate)
    } else {
        &&& r.sha@ == Seq::<char>::empty()
        &&& r.cdate@ == Seq::<char>::empty()
        &&& r.age@ == Seq::<char>::empty()
        &&& r.author@ == Seq::<char>::empty()
        &&& r.message@ == Seq::<char>::empty()
        &&& r.commit_datetime.epoch() == 0
    }
}

/// A scan that found no separator up to `k`, and a separator (or the
/// end) at `k`, pins down where the next separator is.
proof fn lemma_next_sep_at(s: Seq<char>, i: int, k: int)
    requires
        0 <= i <= k <= s.len(),
        forall|j: int| i <= j < k ==> #[trigger] s[j] != sep_char(),
        k == s.len() || s[k] == sep_char(),
    ensures
        next_sep(s, i) == if k < s.len() {
            k
        } else {
            s.len() as int
        },
    decreases k - i,
{
    if i < k {
        lemma_next_sep_at(s, i + 1, k);
    }
}

/// Index of the first separator of `line` at or after `from`, or the
/// line's length when there is none.
fn scan_sep(line: &str, from: usize, len: usize) -> (r: usize)
    requires
        from <= len,
        len == line@.len(),
    ensures
        r as int == next_sep(line@, from as int),
        from <= r <= len,
{
    let mut i: usize = from;
    while i < len && line.get_char(i) != '\u{b}'
        invariant
            from <= i <= len,
            len == line@.len(),
            forall|j: int| from <= j < i ==> #[trigger] line@[j] != sep_char(),
        decreases len - i,
    {
        i = i + 1;
    }
    proof {
        lemma_next_sep_at(line@, from as int, i as int);
    }
    i
}

impl Log {
    /// The sentinel record: all fields empty, instant at the epoch.
    pub fn sentinel() -> (r: Log)
        ensures
            r.commit_datetime.valid(),
            r.sha@ == Seq::<char>::empty(),
            r.cdate@ == Seq::<char>::empty(),
            r.age@ == Seq::<char>::empty(),
            r.author@ == Seq::<char>::empty(),
            r.message@ == Seq::<char>::empty(),
            r.commit_datetime.epoch() == 0,
    {
        Log {
            age: String::new(),
            author: String::new(),
            cdate: String::new(),
            commit_datetime: DateTime::from_epoch_seconds(0),
            message: String::new(),
            sha: String::new(),
        }
    }

    /// Decodes one raw history line.  Decoding is total: a line without
    /// exactly five separated fields, or with an unreadable timestamp,
    /// degrades to well-defined values rather than failing.
    pub fn from_line(line: &str) -> (r: Log)
        ensures
            decoded_record(line@, r),
    {
        let len = line.unicode_len();
        let p1 = scan_sep(line, 0, len);
        if p1 == len {
            return Log::sentinel();
        }
        let p2 = scan_sep(line, p1 + 1, len);
        if p2 == len {
            return Log::sentinel();
        }
        let p3 = scan_sep(line, p2 + 1, len);
        if p3 == len {
            return Log::sentinel();
        }
        let p4 = scan_sep(line, p3 + 1, len);
        if p4 == len {
            return Log::sentinel();
        }
        let p5 = scan_sep(line, p4 + 1, len);
        if p5 < len {
            return Log::sentinel();
        }
        let sha = line.substring_char(0, p1).to_owned();
        let cdate = line.substring_char(p1 + 1, p2).to_owned();
        let age = line.substring_char(p2 + 1, p3).to_owned();
        let author = line.substring_char(p3 + 1, p4).to_owned();
        let message = line.substring_char(p4 + 1, len).to_owned();
        let commit_datetime = match crate::time::parse_decimal_i64(cdate.as_str()) {
            Some(t) => DateTime::from_epoch_seconds(t),
            None => DateTime::from_epoch_seconds(0),
        };
        Log { age, author, cdate, commit_datetime, message, sha }
    }
}

/// Whether the character at `i` ends a `.` path component of `s`: a dot
/// standing alone or right after a separator.
pub open spec fn dot_component_end(s: Seq<char>, i: int) -> bool {
    s[i] == '.' && (i == 0 || s[i - 1] == '/')
}

/// `s` with trailing separators and trailing `.` path components
/// removed, the way path normalization drops them.
pub open spec fn trim_path_end(s: Seq<char>) -> Seq<char>
    decreases s.len(),
{
    if s.len() > 0 && (s.last() == '/' || dot_component_end(s, s.len() - 1)) {
        trim_path_end(s.drop_last())
    } else {
        s
    }
}

/// Index of the last `/` of `s`, or `-1` when there is none.
pub open spec fn last_slash(s: Seq<char>) -> int
    decreases s.len(),
{
    if s.len() == 0 {
        -1
    } else if s.last() == '/' {
        s.len() - 1
    } else {
        last_slash(s.drop_last())
    }
}

/// The final path component of `origin`: what follows the last `/` once
/// trailing separators and `.` components are dropped.
pub open spec fn last_segment(origin: Seq<char>) -> Seq<char> {
    let t = trim_path_end(origin);
    t.subrange(last_slash(t) + 1, t.len() as int)
}

/// Whether a local directory name can be derived from `origin`: its
/// final component must be nonempty and must name a real directory
/// entry, not the parent directory.
pub open spec fn local_path_ok(origin: Seq<char>) -> bool {
    let seg = last_segment(origin);
    seg.len() > 0 && seg != seq!['.', '.']
}

/// `root` and `name` joined by a single separator.
pub open spec fn joined_path(root: Seq<char>, name: Seq<char>) -> Seq<char> {
    if root.len() == 0 {
        name
    } else if root.last() == '/' {
        root + name
    } else {
        root + seq!['/'] + name
    }
}

/// A scan of `s` backwards over separators and `.` components pins the
/// trimmed length, and one further backwards scan without `/` pins the
/// last separator.
proof fn lemma_trim_at(s: Seq<char>, e: int)
    requires
        0 <= e <= s.len(),
        forall|j: int|
            e <= j < s.len() ==> #[trigger] s[j] == '/' || dot_component_end(s, j),
        e == 0 || !(s[e - 1] == '/' || dot_component_end(s, e - 1)),
    ensures
        trim_path_end(s) == s.subrange(0, e),
    decreases s.len(),
{
    if s.len() > e {
        assert(s.last() == '/' || dot_component_end(s, s.len() - 1));
        let t = s.drop_last();
        assert forall|j: int|
            e <= j < t.len() implies #[trigger] t[j] == '/' || dot_component_end(t, j) by {
            assert(t[j] == s[j]);
            if j > 0 {
                assert(t[j - 1] == s[j - 1]);
            }
        }
        if e > 0 {
            assert(t[e - 1] == s[e - 1]);
            if e >= 2 {
                assert(t[e - 2] == s[e - 2]);
            }
        }
        lemma_trim_at(t, e);
        assert(t.subrange(0, e) =~= s.subrange(0, e));
    } else {
        assert(s.subrange(0, e) =~= s);
    }
}

/// A backwards scan without `/` down to a `/` (or the start) pins where
/// the last separator is.
proof fn lemma_last_slash_at(s: Seq<char>, k: int)
    requires
        -1 <= k < s.len(),
        forall|j: int| k < j < s.len() ==> #[trigger] s[j] != '/',
        k == -1 || s[k] == '/',
    ensures
        last_slash(s) == k,
    decreases s.len(),
{
    if s.len() > 0 && k < s.len() - 1 {
        assert(s.last() != '/');
        lemma_last_slash_at(s.drop_last(), k);
    }
}

/// Whether the character ending `o[..e]` belongs to a trailing separator
/// or a trailing `.` path component.
fn path_end_trimmable(o: &str, e: usize) -> (r: bool)
    requires
        1 <= e <= o@.len(),
    ensures
        r == (o@[e - 1] == '/' || dot_component_end(o@, e - 1)),
{
    let c = o.get_char(e - 1);
    c == '/' || (c == '.' && (e == 1 || o.get_char(e - 2) == '/'))
}

impl Repo {
    /// The entity a configured remote starts out as: its name and origin,
    /// no records, `Checking`.
    pub fn from_remote(remote: crate::manifest::Remote) -> (r: Repo)
        ensures
            r.branch == remote.branch,
            r.logs@.len() == 0,
            r.name == remote.name,
            r.origin == remote.origin,
            r.status == RepoStatus::Checking,
    {
        Repo {
            branch: remote.branch,
            logs: Vec::new(),
            name: remote.name,
            origin: remote.origin,
            status: RepoStatus::Checking,
        }
    }

    /// The line a repository is listed under: its name, and the branch
    /// override when one is configured.
    pub fn display_name(&self) -> (r: String)
        ensures
            r@ == match self.branch {
                Some(b) => self.name@ + " ("@ + b@ + ")"@,
                None => self.name@,
            },
    {
        match &self.branch {
            Some(branch) => {
                let mut out = self.name.clone();
                out.append(" (");
                out.append(branch.as_str());
                out.append(")");
                out
            },
            None => self.name.clone(),
        }
    }

    /// The local mirror path of this repository under `root`: the root,
    /// one separator, and the final segment of the remote origin.  An
    /// origin without a usable final segment is a configuration error,
    /// fatal to this one repository only.
    pub fn path(&self, root: &str) -> (r: Result<String, RepoPathError>)
        ensures
            match r {
                Ok(p) => local_path_ok(self.origin@) && p@ == joined_path(
                    root@,
                    last_segment(self.origin@),
                ),
                Err(e) => !local_path_ok(self.origin@) && e == RepoPathError::NoLocalPath,
            },
    {
        let o: &str = self.origin.as_str();
        let olen = o.unicode_len();
        let mut e: usize = olen;
        while e > 0 && path_end_trimmable(o, e)
            invariant
                0 <= e <= olen,
                olen == o@.len(),
                forall|j: int|
                    e <= j < olen ==> #[trigger] o@[j] == '/' || dot_component_end(o@, j),
            decreases e,
        {
            e = e - 1;
        }
        proof {
            lemma_trim_at(o@, e as int);
        }
        let ghost t = trim_path_end(o@);
        let mut k: usize = e;
        while k > 0 && o.get_char(k - 1) != '/'
            invariant
                0 <= k <= e <= olen,
                olen == o@.len(),
                t == o@.subrange(0, e as int),
                forall|j: int| k <= j < e ==> #[trigger] o@[j] != '/',
            decreases k,
        {
            k = k - 1;
        }
        proof {
            assert forall|j: int| k <= j < t.len() implies #[trigger] t[j] != '/' by {
                assert(t[j] == o@[j]);
            }
            if k > 0 {
                assert(t[k - 1] == o@[k - 1]);
            }
            lemma_last_slash_at(t, k - 1);
        }
        let seg_len = e - k;
        if seg_len == 0 {
            return Err(RepoPathError::NoLocalPath);
        }
        let ghost seg = last_segment(self.origin@);
        proof {
            assert(seg =~= o@.subrange(k as int, e as int));
        }
        if seg_len == 2 && o.get_char(k) == '.' && o.get_char(k + 1) == '.' {
            proof {
                assert(seg =~= seq!['.', '.']);
            }
            return Err(RepoPathError::NoLocalPath);
        }
        proof {
            if seg == seq!['.', '.'] {
                assert(seg.len() == 2 && seg[0] == '.' && seg[1] == '.');
                assert(o@[k as int] == '.' && o@[k + 1] == '.');
            }
        }
        let tail: &str = o.substring_char(k, e);
        let rlen = root.unicode_len();
        let mut out: String;
        if rlen == 0 {
            out = String::new();
        } else if root.get_char(rlen - 1) == '/' {
            out = root.to_owned();
        } else {
            out = root.to_owned();
            out.append("/");
            proof {
                reveal_strlit("/");
                assert("/"@ =~= seq!['/']);
            }
        }
        out.append(tail);
        proof {
            if root@.len() == 0 {
                assert(out@ =~= joined_path(root@, seg));
            }
        }
        Ok(out)
    }
}

/// Why no local path could be derived for a repository.
#[derive(Clone, Copy, Debug, PartialEq, Eq, Structural)]
pub enum RepoPathError {
    /// The remote origin has no usable final path segment.
    NoLocalPath,
}

/// Strict lexicographic order on character sequences, by Unicode scalar
/// value; a proper prefix sorts before its extensions.
pub open spec fn lex_lt(a: Seq<char>, b: Seq<char>) -> bool
    decreases a.len(),
{
    if b.len() == 0 {
        false
    } else if a.len() == 0 {
        true
    } else if a[0] != b[0] {
        (a[0] as u32) < (b[0] as u32)
    } else {
        lex_lt(a.drop_first(), b.drop_first())
    }
}

/// Two sequences neither of which sorts before the other are equal.
pub proof fn lemma_lex_connected(a: Seq<char>, b: Seq<char>)
    requires
        !lex_lt(a, b),
        !lex_lt(b, a),
    ensures
        a == b,
    decreases a.len(),
{
    if a.len() == 0 || b.len() == 0 {
        assert(a =~= b);
    } else if a[0] == b[0] {
        lemma_lex_connected(a.drop_first(), b.drop_first());
        assert(a =~= seq![a[0]] + a.drop_first());
        assert(b =~= seq![b[0]] + b.drop_first());
    } else {
        lemma_char_value(a[0], b[0]);
    }
}

/// Two characters with one scalar value are one character.
proof fn lemma_char_value(x: char, y: char)
    requires
        x as u32 == y as u32,
    ensures
        x == y,
{
}

/// No sequence sorts before itself.
pub proof fn lemma_lex_irrefl(a: Seq<char>)
    ensures
        !lex_lt(a, a),
    decreases a.len(),
{
    if a.len() > 0 {
        lemma_lex_irrefl(a.drop_first());
    }
}

/// The lexicographic order is transitive.
pub proof fn lemma_lex_trans(a: Seq<char>, b: Seq<char>, c: Seq<char>)
    requires
        lex_lt(a, b),
        lex_lt(b, c),
    ensures
        lex_lt(a, c),
    decreases a.len() + b.len() + c.len(),
{
    if a.len() > 0 && b.len() > 0 && c.len() > 0 && a[0] == b[0] && b[0] == c[0] {
        lemma_lex_trans(a.drop_first(), b.drop_first(), c.drop_first());
    }
}

/// Whether `a` sorts before `b` or equal to it, comparing by character.
fn str_lex_le(a: &str, b: &str) -> (r: bool)
    ensures
        r == !lex_lt(b@, a@),
{
    let alen = a.unicode_len();
    let blen = b.unicode_len();
    proof {
        assert(a@.skip(0) =~= a@);
        assert(b@.skip(0) =~= b@);
    }
    let mut i: usize = 0;
    while i < alen && i < blen
        invariant
            0 <= i <= alen,
            i <= blen,
            alen == a@.len(),
            blen == b@.len(),
            lex_lt(b@, a@) == lex_lt(b@.skip(i as int), a@.skip(i as int)),
            forall|j: int| 0 <= j < i ==> a@[j] == b@[j],
        decreases alen - i,
    {
        let ca = a.get_char(i);
        let cb = b.get_char(i);
        proof {
            assert(a@.skip(i as int)[0] == a@[i as int]);
            assert(b@.skip(i as int)[0] == b@[i as int]);
            assert(a@.skip(i as int).drop_first() =~= a@.skip(i + 1));
            assert(b@.skip(i as int).drop_first() =~= b@.skip(i + 1));
        }
        if ca as u32 != cb as u32 {
            proof {
                assert(ca != cb);
            }
            return (ca as u32) < (cb as u32);
        }
        proof {
            assert(ca == cb);
        }
        i = i + 1;
    }
    proof {
        assert(a@.skip(i as int).len() == alen - i);
        assert(b@.skip(i as int).len() == blen - i);
    }
    alen <= blen
}

/// Display order of commit records: a greater instant sorts first; on
/// tied instants the lexicographically smaller message sorts first — an
/// arbitrary but deterministic tie-break.
pub open spec fn log_le(a: Log, b: Log) -> bool {
    if a.commit_datetime.epoch() != b.commit_datetime.epoch() {
        a.commit_datetime.epoch() > b.commit_datetime.epoch()
    } else {
        !lex_lt(b.message@, a.message@)
    }
}

/// Whether record `a` sorts before record `b` or ties with it.
pub fn log_sorts_before(a: &Log, b: &Log) -> (r: bool)
    requires
        a.commit_datetime.valid(),
        b.commit_datetime.valid(),
    ensures
        r == log_le(*a, *b),
{
    let ea = a.commit_datetime.epoch_seconds();
    let eb = b.commit_datetime.epoch_seconds();
    if ea != eb {
        ea > eb
    } else {
        str_lex_le(a.message.as_str(), b.message.as_str())
    }
}

/// A repository entity: identity, configuration and the state the
/// aggregator maintains for it.
#[derive(Debug)]
pub struct Repo {
    pub branch: Option<String>,
    pub logs: Vec<Log>,
    pub name: String,
    pub origin: String,
    pub status: RepoStatus,
}

/// The abstract value of a repository: the same fields with the record
/// list as a sequence.
pub struct RepoView {
    pub branch: Option<String>,
    pub logs: Seq<Log>,
    pub name: String,
    pub origin: String,
    pub status: RepoStatus,
}

impl View for Repo {
    type V = RepoView;

    open spec fn view(&self) -> RepoView {
        RepoView {
            branch: self.branch,
            logs: self.logs@,
            name: self.name,
            origin: self.origin,
            status: self.status,
        }
    }
}

impl Clone for Repo {
    /// A clone carries the very same repository state.
    fn clone(&self) -> (r: Self)
        ensures
            r@ == self@,
    {
        let mut logs: Vec<Log> = Vec::new();
        let mut i: usize = 0;
        while i < self.logs.len()
            invariant
                0 <= i <= self.logs@.len(),
                logs@ =~= self.logs@.subrange(0, i as int),
            decreases self.logs@.len() - i,
        {
            logs.push(self.logs[i].clone());
            i = i + 1;
        }
        proof {
            assert(logs@ =~= self.logs@);
        }
        let branch = match &self.branch {
            Some(b) => Some(b.clone()),
            None => None,
        };
        Repo {
            branch,
            logs,
            name: self.name.clone(),
            origin: self.origin.clone(),
            status: self.status,
        }
    }
}

/// Whether every record a repository holds denotes a real instant; the
/// decoder only ever produces such records.
pub open spec fn logs_valid(r: RepoView) -> bool {
    forall|i: int| 0 <= i < r.logs.len() ==> (#[trigger] r.logs[i]).commit_datetime.valid()
}

/// Display order of repositories: one with records sorts by its most
/// recent record and ahead of one without records; two without records
/// sort by name, ascending.
pub open spec fn repo_le(a: RepoView, b: RepoView) -> bool {
    if a.logs.len() > 0 && b.logs.len() > 0 {
        log_le(a.logs[0], b.logs[0])
    } else if a.logs.len() > 0 {
        true
    } else if b.logs.len() > 0 {
        false
    } else {
        !lex_lt(b.name@, a.name@)
    }
}

/// The repository order always relates two repositories one way or the
/// other.
pub proof fn lemma_repo_le_total(a: RepoView, b: RepoView)
    ensures
        repo_le(a, b) || repo_le(b, a),
{
    if a.logs.len() > 0 && b.logs.len() > 0 {
        let x = a.logs[0];
        let y = b.logs[0];
        if !log_le(x, y) && !log_le(y, x) {
            lemma_lex_trans(x.message@, y.message@, x.message@);
            lemma_lex_irrefl(x.message@);
        }
    } else if a.logs.len() == 0 && b.logs.len() == 0 {
        if lex_lt(b.name@, a.name@) && lex_lt(a.name@, b.name@) {
            lemma_lex_trans(a.name@, b.name@, a.name@);
            lemma_lex_irrefl(a.name@);
        }
    }
}

/// Helper: the record order is transitive.
proof fn lemma_log_le_trans(a: Log, b: Log, c: Log)
    requires
        log_le(a, b),
        log_le(b, c),
    ensures
        log_le(a, c),
{
    if a.commit_datetime.epoch() == c.commit_datetime.epoch() && a.commit_datetime.epoch()
        == b.commit_datetime.epoch() {
        if lex_lt(c.message@, a.message@) {
            if lex_lt(b.message@, c.message@) {
                lemma_lex_trans(b.message@, c.message@, a.message@);
            } else {
                lemma_lex_connected(c.message@, b.message@);
            }
        }
    }
}

/// The repository order is transitive.
pub proof fn lemma_repo_le_trans(a: RepoView, b: RepoView, c: RepoView)
    requires
        repo_le(a, b),
        repo_le(b, c),
    ensures
        repo_le(a, c),
{
    if a.logs.len() > 0 && b.logs.len() > 0 && c.logs.len() > 0 {
        lemma_log_le_trans(a.logs[0], b.logs[0], c.logs[0]);
    } else if a.logs.len() == 0 && b.logs.len() == 0 && c.logs.len() == 0 {
        if lex_lt(c.name@, a.name@) {
            if lex_lt(b.name@, c.name@) {
                lemma_lex_trans(b.name@, c.name@, a.name@);
            } else {
                lemma_lex_connected(c.name@, b.name@);
            }
        }
    }
}

/// A repository with records always sorts ahead of one without,
/// whatever either is named.
pub proof fn lemma_nonempty_sorts_first(a: RepoView, b: RepoView)
    requires
        a.logs.len() > 0,
        b.logs.len() == 0,
    ensures
        repo_le(a, b),
        !repo_le(b, a),
{
}

/// On tied instants the record with the lexicographically smaller
/// message sorts first, and so does the repository led by it.
pub proof fn lemma_tie_break_smaller_message(a: RepoView, b: RepoView)
    requires
        a.logs.len() > 0,
        b.logs.len() > 0,
        a.logs[0].commit_datetime.epoch() == b.logs[0].commit_datetime.epoch(),
        lex_lt(a.logs[0].message@, b.logs[0].message@),
    ensures
        repo_le(a, b),
        !repo_le(b, a),
{
    let x = a.logs[0];
    let y = b.logs[0];
    if lex_lt(y.message@, x.message@) {
        lemma_lex_trans(x.message@, y.message@, x.message@);
        lemma_lex_irrefl(x.message@);
    }
}

/// Whether repository `a` sorts before repository `b` or ties with it;
/// the explicit display comparator.
pub fn repo_sorts_before(a: &Repo, b: &Repo) -> (r: bool)
    requires
        logs_valid(a@),
        logs_valid(b@),
    ensures
        r == repo_le(a@, b@),
{
    if a.logs.len() > 0 && b.logs.len() > 0 {
        proof {
            assert(a@.logs[0] == a.logs@[0]);
            assert(b@.logs[0] == b.logs@[0]);
        }
        log_sorts_before(&a.logs[0], &b.logs[0])
    } else if a.logs.len() > 0 {
        true
    } else if b.logs.len() > 0 {
        false
    } else {
        str_lex_le(a.name.as_str(), b.name.as_str())
    }
}

} // verus!
