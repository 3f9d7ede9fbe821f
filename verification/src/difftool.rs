//! Choice of diff viewer and assembly of its command line.  Everything up
//! to the command text is computed and specified here; actually spawning
//! the viewer is the surrounding program's business.
use crate::repo::{Log, Repo};
use crate::time::first_space;
use std::collections::HashMap;
use vstd::prelude::*;

verus! {

/// Which diff viewer to launch.
#[derive(Clone, Debug)]
pub enum Difftool {
    Git,
    GitHub,
    Fallthrough(String),
}

impl Default for Difftool {
    /// The stock git difftool.
    fn default() -> (r: Self)
        ensures
            r == Difftool::Git,
    {
        Difftool::Git
    }
}

/// Whether `c` is ASCII whitespace.
pub open spec fn is_ws(c: char) -> bool {
    c == ' ' || c == '\t' || c == '\n' || c == '\r'
}

/// `s` without leading ASCII whitespace.
pub open spec fn trim_start_ws(s: Seq<char>) -> Seq<char>
    decreases s.len(),
{
    if s.len() > 0 && is_ws(s[0]) {
        trim_start_ws(s.drop_first())
    } else {
        s
    }
}

/// `s` without trailing ASCII whitespace.
pub open spec fn trim_end_ws(s: Seq<char>) -> Seq<char>
    decreases s.len(),
{
    if s.len() > 0 && is_ws(s.last()) {
        trim_end_ws(s.drop_last())
    } else {
        s
    }
}

/// `s` without ASCII whitespace at either end.
pub open spec fn trim_ws(s: Seq<char>) -> Seq<char> {
    trim_end_ws(trim_start_ws(s))
}

/// `s` with every `:` replaced by `/`.
pub open spec fn slashed(s: Seq<char>) -> Seq<char> {
    s.map_values(
        |c: char|
            if c == ':' {
                '/'
            } else {
                c
            },
    )
}

/// `s` with every occurrence of `git@`, scanned left to right, replaced
/// by `https://`.
pub open spec fn dehosted(s: Seq<char>) -> Seq<char>
    decreases s.len(),
{
    if s.len() == 0 {
        s
    } else if s.len() >= 4 && s[0] == 'g' && s[1] == 'i' && s[2] == 't' && s[3] == '@' {
        seq!['h', 't', 't', 'p', 's', ':', '/', '/'] + dehosted(s.skip(4))
    } else {
        seq![s[0]] + dehosted(s.skip(1))
    }
}

/// `s` without a final `.git`, when it ends in one.
pub open spec fn degit(s: Seq<char>) -> Seq<char> {
    if s.len() >= 4 && s[s.len() - 4] == '.' && s[s.len() - 3] == 'g' && s[s.len() - 2] == 'i'
        && s[s.len() - 1] == 't' {
        s.subrange(0, s.len() - 4)
    } else {
        s
    }
}

/// The browsable form of a remote origin: trimmed, `:` turned into `/`,
/// `git@` turned into `https://`, and a trailing `.git` dropped.
pub open spec fn browse_origin(origin: Seq<char>) -> Seq<char> {
    degit(dehosted(slashed(trim_ws(origin))))
}

/// The reference a diff runs up to: the remote branch when one is
/// configured, the local head otherwise.
pub open spec fn ref_to_of(branch: Option<String>) -> Seq<char> {
    match branch {
        Some(b) => "origin/"@ + b@,
        None => "HEAD"@,
    }
}

/// The command template each viewer choice stands for.
pub open spec fn template_of(d: Difftool, origin: Seq<char>, from_sha: Seq<char>, branch: Option<
    String,
>) -> Seq<char> {
    match d {
        Difftool::Git => "git difftool -g -y ${DIFF}"@,
        Difftool::GitHub => "open "@ + browse_origin(origin) + "/compare/"@ + from_sha + ".."@
            + (match branch {
            Some(b) => b@,
            None => "HEAD"@,
        }) + "?diff=split"@,
        Difftool::Fallthrough(s) => s@,
    }
}

/// Whether `c` is ASCII whitespace.
fn is_ws_char(c: char) -> (r: bool)
    ensures
        r == is_ws(c),
{
    c == ' ' || c == '\t' || c == '\n' || c == '\r'
}

/// Relies on `String::push`: appends one character.
#[verifier::external_body]
fn push_char(s: &mut String, c: char)
    ensures
        final(s)@ == old(s)@ + seq![c],
{
    s.push(c);
}

/// Builds the browsable form of a remote origin.
fn browse_origin_of(origin: &str) -> (r: String)
    ensures
        r@ == browse_origin(origin@),
{
    let olen = origin.unicode_len();
    proof {
        assert(origin@.skip(0) =~= origin@);
    }
    // Trim ASCII whitespace from both ends.
    let mut a: usize = 0;
    while a < olen && is_ws_char(origin.get_char(a))
        invariant
            0 <= a <= olen,
            olen == origin@.len(),
            forall|j: int| 0 <= j < a ==> is_ws(#[trigger] origin@[j]),
            trim_start_ws(origin@) == trim_start_ws(origin@.skip(a as int)),
        decreases olen - a,
    {
        proof {
            assert(origin@.skip(a as int)[0] == origin@[a as int]);
            assert(origin@.skip(a as int).drop_first() =~= origin@.skip(a + 1));
        }
        a = a + 1;
    }
    proof {
        if a < olen {
            assert(origin@.skip(a as int)[0] == origin@[a as int]);
        }
        assert(trim_start_ws(origin@) =~= origin@.skip(a as int).subrange(
            0,
            origin@.skip(a as int).len() as int,
        ));
        assert(trim_start_ws(origin@) =~= origin@.subrange(a as int, olen as int));
    }
    let ghost ts = trim_start_ws(origin@);
    let mut b: usize = olen;
    while b > a && is_ws_char(origin.get_char(b - 1))
        invariant
            a <= b <= olen,
            olen == origin@.len(),
            ts == origin@.subrange(a as int, olen as int),
            forall|j: int| b <= j < olen ==> is_ws(#[trigger] origin@[j]),
            trim_end_ws(ts) == trim_end_ws(origin@.subrange(a as int, b as int)),
        decreases b,
    {
        proof {
            let cur = origin@.subrange(a as int, b as int);
            assert(cur.last() == origin@[b - 1]);
            assert(cur.drop_last() =~= origin@.subrange(a as int, b - 1));
        }
        b = b - 1;
    }
    proof {
        let cur = origin@.subrange(a as int, b as int);
        if b > a {
            assert(cur.last() == origin@[b - 1]);
        }
        assert(trim_ws(origin@) == origin@.subrange(a as int, b as int));
    }
    let ghost t = trim_ws(origin@);
    // Replace `:` by `/`, then `git@` by `https://`, in one pass each.
    let mut sl: String = String::new();
    let mut i: usize = a;
    while i < b
        invariant
            a <= i <= b <= olen,
            olen == origin@.len(),
            t == origin@.subrange(a as int, b as int),
            sl@ =~= slashed(t.subrange(0, i - a)),
        decreases b - i,
    {
        let c = origin.get_char(i);
        proof {
            assert(t[i - a] == origin@[i as int]);
            assert(t.subrange(0, i + 1 - a) =~= t.subrange(0, i - a).push(t[i - a]));
            assert(slashed(t.subrange(0, i + 1 - a)) =~= slashed(t.subrange(0, i - a)).push(
                if t[i - a] == ':' {
                    '/'
                } else {
                    t[i - a]
                },
            ));
        }
        if c == ':' {
            push_char(&mut sl, '/');
        } else {
            push_char(&mut sl, c);
        }
        i = i + 1;
    }
    proof {
        assert(t.subrange(0, b - a) =~= t);
    }
    let ghost sv = slashed(t);
    let s: &str = sl.as_str();
    let slen = s.unicode_len();
    let mut out: String = String::new();
    proof {
        assert(sv.skip(0) =~= sv);
        assert(out@ + dehosted(sv) =~= dehosted(sv));
    }
    let mut i: usize = 0;
    while i < slen
        invariant
            0 <= i <= slen,
            slen == s@.len(),
            s@ == sv,
            out@ + dehosted(sv.skip(i as int)) == dehosted(sv),
        decreases slen - i,
    {
        let ghost rest = sv.skip(i as int);
        if slen - i >= 4 && s.get_char(i) == 'g' && s.get_char(i + 1) == 'i' && s.get_char(i + 2)
            == 't' && s.get_char(i + 3) == '@' {
            proof {
                assert(rest[0] == sv[i as int] && rest[1] == sv[i + 1] && rest[2] == sv[i + 2]
                    && rest[3] == sv[i + 3]);
                assert(rest.skip(4) =~= sv.skip(i + 4));
            }
            out.append("https://");
            proof {
                reveal_strlit("https://");
                assert("https://"@ =~= seq!['h', 't', 't', 'p', 's', ':', '/', '/']);
            }
            i = i + 4;
        } else {
            proof {
                assert(rest[0] == sv[i as int]);
                assert(rest.skip(1) =~= sv.skip(i + 1));
                if rest.len() >= 4 {
                    assert(rest[1] == sv[i + 1] && rest[2] == sv[i + 2] && rest[3] == sv[i + 3]);
                }
            }
            push_char(&mut out, s.get_char(i));
            i = i + 1;
        }
    }
    proof {
        assert(sv.skip(i as int) =~= Seq::<char>::empty());
        assert(out@ + Seq::<char>::empty() =~= out@);
    }
    // Drop a trailing `.git`.
    let ov: &str = out.as_str();
    let olen2 = ov.unicode_len();
    if olen2 >= 4 && ov.get_char(olen2 - 4) == '.' && ov.get_char(olen2 - 3) == 'g' && ov.get_char(
        olen2 - 2,
    ) == 'i' && ov.get_char(olen2 - 1) == 't' {
        let r = ov.substring_char(0, olen2 - 4).to_owned();
        r
    } else {
        out
    }
}

/// Why a command line could not be assembled.
#[derive(Clone, Copy, Debug, PartialEq, Eq, Structural)]
pub enum DifftoolError {
    /// A substitution value contains `$`, `{` or `}`, which the variable
    /// substitution refuses.
    InvalidContext,
}

/// Whether `s` is free of the characters variable substitution refuses.
pub open spec fn no_forbidden(s: Seq<char>) -> bool {
    forall|i: int|
        0 <= i < s.len() ==> (#[trigger] s[i]) != '$' && s[i] != '{' && s[i] != '}'
}

/// The character contents of a sequence of string pairs.
pub open spec fn pairs_views(q: Seq<(String, String)>) -> Seq<(Seq<char>, Seq<char>)> {
    q.map_values(|p: (String, String)| (p.0@, p.1@))
}

/// Whether every key and value of a substitution context is free of the
/// characters substitution refuses.
pub open spec fn context_clean(ctx: Seq<(Seq<char>, Seq<char>)>) -> bool {
    forall|i: int|
        0 <= i < ctx.len() ==> no_forbidden((#[trigger] ctx[i]).0) && no_forbidden(ctx[i].1)
}

/// A complete substitution token `${k}` stands at positions `a..b` of
/// `t`.
pub open spec fn token_at(t: Seq<char>, a: int, b: int, k: Seq<char>) -> bool {
    &&& 0 <= a
    &&& b <= t.len()
    &&& b == a + k.len() + 3
    &&& t[a] == '$'
    &&& t[a + 1] == '{'
    &&& t.subrange(a + 2, b - 1) == k
    &&& t[b - 1] == '}'
}

/// The keys of a substitution context.
pub open spec fn ctx_keys(ctx: Seq<(Seq<char>, Seq<char>)>) -> Set<Seq<char>> {
    Set::new(|k: Seq<char>| exists|i: int| 0 <= i < ctx.len() && (#[trigger] ctx[i]).0 == k)
}

/// Whether every `$`, `{` and `}` of a template lies inside a complete
/// `${key}` token for one of the given keys.  Only of such a template is
/// the substituted result independent of the order the keys are replaced
/// in: one key's replacement can neither create, destroy nor overlap
/// another key's token.
pub open spec fn template_wf(t: Seq<char>, keys: Set<Seq<char>>) -> bool {
    forall|i: int|
        0 <= i < t.len() && ((#[trigger] t[i]) == '$' || t[i] == '{' || t[i] == '}')
            ==> exists|a: int, b: int, k: Seq<char>|
            #[trigger] token_at(t, a, b, k) && keys.contains(k) && a <= i < b
}

/// What substituting a clean context into a well-formed template yields.
/// With every `$`, `{` and `}` of the template inside a complete token
/// of a context key, the keys pairwise distinct and every key and value
/// free of `$`, `{` and `}`, the result is each token replaced by its
/// key's value — a function of the template and the pairs alone.  Of a
/// template with a stray `$`, `{` or `}` the substitution's result can
/// depend on the order the keys are replaced in, so nothing relates it
/// to this name.
pub uninterp spec fn subst_of(template: Seq<char>, ctx: Seq<(Seq<char>, Seq<char>)>) -> Seq<char>;

/// Relies on `envsubst::substitute`: it replaces `${name}` tokens using
/// the given pairs, one key after another, returns the substituted
/// string when every key and value is free of `$`, `{` and `}`, and
/// refuses the context otherwise.  The pairs are handed over as a map,
/// so keys must be pairwise distinct for the call to see them all; the
/// map fixes no replacement order, so the result is pinned only for
/// templates whose every `$`, `{` and `}` sits in a complete token of a
/// key.
#[verifier::external_body]
fn substitute_vars(template: &str, pairs: Vec<(String, String)>) -> (r: Option<String>)
    requires
        forall|i: int, j: int|
            0 <= i < j < pairs@.len() ==> (#[trigger] pairs@[i]).0@ != (#[trigger] pairs@[j]).0@,
    ensures
        r is Some <==> context_clean(pairs_views(pairs@)),
        r matches Some(out) ==> template_wf(template@, ctx_keys(pairs_views(pairs@))) ==> out@
            == subst_of(template@, pairs_views(pairs@)),
{
    let mut context: HashMap<String, String> = HashMap::new();
    for (k, v) in pairs {
        context.insert(k, v);
    }
    envsubst::substitute(template, &context).ok()
}

/// The words of `s`, split at every single space; each of a run of
/// consecutive spaces ends a word, so such runs yield empty words.
pub open spec fn split_from(s: Seq<char>, i: int) -> Seq<Seq<char>>
    decreases s.len() - i,
{
    let sp = first_space(s, i);
    if i <= sp < s.len() {
        seq![s.subrange(i, sp)] + split_from(s, sp + 1)
    } else {
        seq![s.subrange(i, s.len() as int)]
    }
}

/// The words of `s`, split at each space.
pub open spec fn split_spaces(s: Seq<char>) -> Seq<Seq<char>> {
    split_from(s, 0)
}

/// The character contents of a sequence of strings.
pub open spec fn views_of(q: Seq<String>) -> Seq<Seq<char>> {
    q.map_values(|x: String| x@)
}

/// A scan without spaces up to `k`, with a space or the end at `k`,
/// pins down where the first space is.
proof fn lemma_first_space_found(s: Seq<char>, i: int, k: int)
    requires
        0 <= i <= k <= s.len(),
        forall|j: int| i <= j < k ==> #[trigger] s[j] != ' ',
        k == s.len() || s[k] == ' ',
    ensures
        first_space(s, i) == if k < s.len() {
            k
        } else {
            s.len() as int
        },
    decreases k - i,
{
    if i < k {
        lemma_first_space_found(s, i + 1, k);
    }
}

/// Index of the first space of `s` at or after `from`, or the length.
fn scan_space(s: &str, from: usize, len: usize) -> (r: usize)
    requires
        from <= len,
        len == s@.len(),
    ensures
        r as int == first_space(s@, from as int),
        from <= r <= len,
{
    let mut i: usize = from;
    while i < len && s.get_char(i) != ' '
        invariant
            from <= i <= len,
            len == s@.len(),
            forall|j: int| from <= j < i ==> #[trigger] s@[j] != ' ',
        decreases len - i,
    {
        i = i + 1;
    }
    proof {
        lemma_first_space_found(s@, from as int, i as int);
    }
    i
}

/// Splits a command line at spaces into the program word and its
/// argument words.
pub fn split_command(s: &str) -> (r: (String, Vec<String>))
    ensures
        ({
            let parts = split_spaces(s@);
            &&& r.0@ == parts[0]
            &&& views_of(r.1@) == parts.drop_first()
        }),
{
    let len = s.unicode_len();
    let mut parts: Vec<String> = Vec::new();
    let mut pos: usize = 0;
    let mut done = false;
    while !done
        invariant
            0 <= pos <= len,
            len == s@.len(),
            !done ==> views_of(parts@) + split_from(s@, pos as int) == split_spaces(s@),
            done ==> views_of(parts@) == split_spaces(s@) && parts@.len() >= 1,
        decreases len - pos, if done {
            0int
        } else {
            1int
        },
    {
        let sp = scan_space(s, pos, len);
        let piece: String = s.substring_char(pos, sp).to_owned();
        proof {
            let old_views = views_of(parts@);
            assert(views_of(parts@.push(piece)) =~= old_views.push(piece@));
            if sp < len {
                assert(split_from(s@, pos as int) == seq![s@.subrange(pos as int, sp as int)]
                    + split_from(s@, sp + 1));
                assert((old_views.push(piece@)) + split_from(s@, sp + 1) =~= old_views + (seq![
                    piece@,
                ] + split_from(s@, sp + 1)));
            } else {
                assert(split_from(s@, pos as int) =~= seq![s@.subrange(pos as int, len as int)]);
                assert(old_views.push(piece@) =~= old_views + split_from(s@, pos as int));
            }
        }
        parts.push(piece);
        if sp == len {
            done = true;
        } else {
            pos = sp + 1;
        }
    }
    let cmd: String = parts.remove(0);
    proof {
        assert(views_of(parts@) =~= split_spaces(s@).drop_first());
        assert(cmd@ == split_spaces(s@)[0]);
    }
    (cmd, parts)
}

/// The diff range handed to the viewer: the chosen hash up to the
/// configured branch or head.
pub open spec fn diff_range_of(from_sha: Seq<char>, branch: Option<String>) -> Seq<char> {
    from_sha + ".."@ + ref_to_of(branch)
}

/// The substitution context a viewer command is assembled with: the
/// caller's working directory, the diff range, and the repository's
/// origin and references, under their fixed names.
pub open spec fn command_context(
    cwd: Seq<char>,
    origin: Seq<char>,
    from_sha: Seq<char>,
    branch: Option<String>,
) -> Seq<(Seq<char>, Seq<char>)> {
    seq![
        ("DYD_PWD"@, cwd),
        ("DIFF"@, diff_range_of(from_sha, branch)),
        ("ORIGIN"@, origin),
        ("REF_FROM"@, from_sha),
        ("REF_TO"@, ref_to_of(branch)),
    ]
}

/// Ground facts about the five context keys: each is free of the
/// characters substitution refuses, and no two are alike.
proof fn lemma_context_keys()
    ensures
        no_forbidden("DYD_PWD"@),
        no_forbidden("DIFF"@),
        no_forbidden("ORIGIN"@),
        no_forbidden("REF_FROM"@),
        no_forbidden("REF_TO"@),
        "DYD_PWD"@ != "DIFF"@ && "DYD_PWD"@ != "ORIGIN"@ && "DYD_PWD"@ != "REF_FROM"@ && "DYD_PWD"@
            != "REF_TO"@,
        "DIFF"@ != "ORIGIN"@ && "DIFF"@ != "REF_FROM"@ && "DIFF"@ != "REF_TO"@,
        "ORIGIN"@ != "REF_FROM"@ && "ORIGIN"@ != "REF_TO"@,
        "REF_FROM"@ != "REF_TO"@,
{
    reveal_strlit("DYD_PWD");
    reveal_strlit("DIFF");
    reveal_strlit("ORIGIN");
    reveal_strlit("REF_FROM");
    reveal_strlit("REF_TO");
    assert("DYD_PWD"@.len() == 7 && "DIFF"@.len() == 4 && "ORIGIN"@.len() == 6 && "REF_FROM"@.len()
        == 8 && "REF_TO"@.len() == 6);
    assert("ORIGIN"@[0] == 'O' && "REF_TO"@[0] == 'R');
}

/// The stock difftool template is well-formed over any key set holding
/// `DIFF`: its one `$`, `{` and `}` all sit in the `${DIFF}` token.
#[verifier::rlimit(50)]
proof fn lemma_git_template_wf(keys: Set<Seq<char>>)
    requires
        keys.contains("DIFF"@),
    ensures
        template_wf("git difftool -g -y ${DIFF}"@, keys),
{
    reveal_strlit("git difftool -g -y ${DIFF}");
    reveal_strlit("DIFF");
    let t = "git difftool -g -y ${DIFF}"@;
    assert(t.subrange(21, 25) =~= "DIFF"@);
    assert(token_at(t, 19, 26, "DIFF"@));
    assert forall|i: int|
        0 <= i < t.len() && ((#[trigger] t[i]) == '$' || t[i] == '{' || t[i] == '}') implies exists|
        a: int,
        b: int,
        k: Seq<char>,
    |
        #[trigger] token_at(t, a, b, k) && keys.contains(k) && a <= i < b by {
        assert(19 <= i < 26);
    }
}

impl Difftool {
    /// The viewer a configured entry names: the two recognised names
    /// select the stock viewers, any other entry is kept verbatim as a
    /// custom command.
    pub fn from_entry(entry: String) -> (r: Difftool)
        ensures
            entry@ == "git"@ ==> r == Difftool::Git,
            entry@ == "github"@ ==> r == Difftool::GitHub,
            entry@ != "git"@ && entry@ != "github"@ ==> (r matches Difftool::Fallthrough(s) && s@
                == entry@),
    {
        proof {
            reveal_strlit("git");
            reveal_strlit("github");
            assert("git"@.len() == 3 && "github"@.len() == 6);
        }
        let git: String = "git".to_owned();
        let github: String = "github".to_owned();
        if entry == git {
            Difftool::Git
        } else if entry == github {
            Difftool::GitHub
        } else {
            Difftool::Fallthrough(entry)
        }
    }

    /// Assembles the diff viewer's command line for one chosen commit:
    /// the viewer's template with the working directory, diff range,
    /// origin and references substituted, split into the program word
    /// and its arguments.  Assembly succeeds exactly when every context
    /// value is free of the characters substitution refuses.  The stock
    /// template is well-formed, so its result is pinned exactly; of a
    /// template with a stray `$`, `{` or `}` the substituted text can
    /// depend on the replacement order, and only success is promised.
    /// Launching the program is the caller's business.
    pub fn command(&self, repo: &Repo, log: &Log, cwd: &str) -> (r: Result<
        (String, Vec<String>),
        DifftoolError,
    >)
        ensures
            ({
                let ctx = command_context(cwd@, repo.origin@, log.sha@, repo.branch);
                let tpl = template_of(*self, repo.origin@, log.sha@, repo.branch);
                let parts = split_spaces(subst_of(tpl, ctx));
                &&& (r is Ok <==> context_clean(ctx))
                &&& (*self is Git ==> template_wf(tpl, ctx_keys(ctx)))
                &&& (r matches Ok(ca) ==> template_wf(tpl, ctx_keys(ctx)) ==> ca.0@ == parts[0]
                    && views_of(ca.1@) == parts.drop_first())
                &&& (r is Err ==> r == Err::<(String, Vec<String>), DifftoolError>(
                    DifftoolError::InvalidContext,
                ))
            }),
    {
        let ghost ctx = command_context(cwd@, repo.origin@, log.sha@, repo.branch);
        let ref_to: String = match &repo.branch {
            Some(branch) => {
                let mut s: String = "origin/".to_owned();
                s.append(branch.as_str());
                s
            },
            None => "HEAD".to_owned(),
        };
        let mut diff: String = log.sha.clone();
        diff.append("..");
        diff.append(ref_to.as_str());
        let template = self.to_str(repo, &log.sha, &repo.branch);
        let mut pairs: Vec<(String, String)> = Vec::new();
        pairs.push(("DYD_PWD".to_owned(), cwd.to_owned()));
        pairs.push(("DIFF".to_owned(), diff));
        pairs.push(("ORIGIN".to_owned(), repo.origin.clone()));
        pairs.push(("REF_FROM".to_owned(), log.sha.clone()));
        pairs.push(("REF_TO".to_owned(), ref_to));
        proof {
            lemma_context_keys();
            assert(pairs_views(pairs@) =~= ctx);
            if *self is Git {
                assert(ctx_keys(ctx).contains("DIFF"@)) by {
                    assert(ctx[1].0 == "DIFF"@);
                }
                lemma_git_template_wf(ctx_keys(ctx));
            }
        }
        match substitute_vars(template.as_str(), pairs) {
            Some(expansion) => Ok(split_command(expansion.as_str())),
            None => Err(DifftoolError::InvalidContext),
        }
    }

    /// The command template this choice of viewer stands for, ready for
    /// variable substitution.
    pub fn to_str(&self, repo: &Repo, from_sha: &String, branch: &Option<String>) -> (r: String)
        ensures
            r@ == template_of(*self, repo.origin@, from_sha@, *branch),
    {
        match self {
            Difftool::Git => {
                let r: String = "git difftool -g -y ${DIFF}".to_owned();
                r
            },
            Difftool::GitHub => Difftool::open_github(repo, from_sha, branch),
            Difftool::Fallthrough(difftool) => difftool.clone(),
        }
    }

    /// The command that opens the hosting site's compare view between
    /// `from_sha` and the configured branch or head.
    fn open_github(repo: &Repo, from_sha: &String, branch: &Option<String>) -> (r: String)
        ensures
            r@ == template_of(Difftool::GitHub, repo.origin@, from_sha@, *branch),
    {
        let origin = browse_origin_of(repo.origin.as_str());
        let mut r: String = "open ".to_owned();
        r.append(origin.as_str());
        r.append("/compare/");
        r.append(from_sha.as_str());
        r.append("..");
        match branch {
            Some(b) => r.append(b.as_str()),
            None => r.append("HEAD"),
        }
        r.append("?diff=split");
        r
    }
}

} // verus!
