//! Validated branch names.
//!
//! A [`BranchName`] is a non-empty string that satisfies every rule of
//! [`valid_branch_name`]: the version-control system's own naming rules plus
//! a ban on shell metacharacters. Construction fails with a precise reason
//! otherwise, and no other code path can produce a `BranchName`, so every
//! value of the type is valid.

use vstd::prelude::*;
use vstd::string::*;

use crate::errors::Error;
use crate::text::push_char;

verus! {

/// ASCII control characters: `0x00`-`0x1f` and `0x7f`.
pub open spec fn is_control_char(c: char) -> bool {
    (c as u32) < 32 || c as u32 == 127
}

/// Characters the version-control system forbids in ref names.
pub open spec fn is_git_forbidden(c: char) -> bool {
    c == ' ' || c == '~' || c == '^' || c == ':' || c == '?' || c == '*' || c == '['
}

/// Characters with a meaning to a shell, banned for safety.
pub open spec fn is_shell_meta(c: char) -> bool {
    ||| c == '$' || c == ';' || c == '|' || c == '&' || c == '>' || c == '<'
    ||| c == '`' || c == '\\' || c == '"' || c == '\'' || c == '(' || c == ')'
    ||| c == '{' || c == '}' || c == '!'
}

/// Every rule checked at position `i`: the character itself and the pair
/// it forms with its successor.
pub open spec fn char_ok(s: Seq<char>, i: int) -> bool {
    &&& !is_control_char(s[i])
    &&& !is_git_forbidden(s[i])
    &&& !is_shell_meta(s[i])
    &&& !(s[i] == '.' && i + 1 < s.len() && s[i + 1] == '.')
    &&& !(s[i] == '/' && i + 1 < s.len() && s[i + 1] == '/')
    &&& !(s[i] == '@' && i + 1 < s.len() && s[i + 1] == '{')
    &&& !(s[i] == '/' && i + 1 < s.len() && s[i + 1] == '.')
}

/// The forbidden suffix `.lock`.
pub open spec fn dot_lock_suffix() -> Seq<char> {
    seq!['.', 'l', 'o', 'c', 'k']
}

/// A name the model accepts: non-empty, not `@`, no leading or trailing
/// `.` or `/`, no `.lock` suffix, and every position passes [`char_ok`].
pub open spec fn valid_branch_name(s: Seq<char>) -> bool {
    &&& s.len() > 0
    &&& !(s.len() == 1 && s[0] == '@')
    &&& s[0] != '.'
    &&& s[s.len() - 1] != '.'
    &&& !(s.len() >= 5 && s.subrange(s.len() - 5, s.len() as int) == dot_lock_suffix())
    &&& s[0] != '/'
    &&& s[s.len() - 1] != '/'
    &&& forall|i: int| 0 <= i < s.len() ==> char_ok(s, i)
}

/// Reason reported for a forbidden ref character.
pub open spec fn reason_git_char(c: char) -> Seq<char> {
    "branch name cannot contain '"@ + seq![c] + "'"@
}

/// Reason reported for a shell metacharacter.
pub open spec fn reason_shell_char(c: char) -> Seq<char> {
    "branch name cannot contain shell metacharacter '"@ + seq![c] + "'"@
}

/// The reason produced by the left-to-right scan of the per-character
/// rules, or `None` if every position from `i` on passes.
pub open spec fn scan_reason(s: Seq<char>, i: int) -> Option<Seq<char>>
    decreases s.len() - i,
{
    if i < 0 || i >= s.len() {
        None
    } else if is_control_char(s[i]) {
        Some("branch name cannot contain control characters"@)
    } else if is_git_forbidden(s[i]) {
        Some(reason_git_char(s[i]))
    } else if is_shell_meta(s[i]) {
        Some(reason_shell_char(s[i]))
    } else if s[i] == '.' && i + 1 < s.len() && s[i + 1] == '.' {
        Some("branch name cannot contain '..'"@)
    } else if s[i] == '/' && i + 1 < s.len() && s[i + 1] == '/' {
        Some("branch name cannot contain '//'"@)
    } else if s[i] == '@' && i + 1 < s.len() && s[i + 1] == '{' {
        Some("branch name cannot contain '@{'"@)
    } else if s[i] == '/' && i + 1 < s.len() && s[i + 1] == '.' {
        Some("branch name component cannot start with '.'"@)
    } else {
        scan_reason(s, i + 1)
    }
}

/// The exact reason validation reports for an invalid name: the first
/// rule broken — the per-character scan runs first, the shape rules after
/// it, in the order they are listed.
pub open spec fn invalid_reason(s: Seq<char>) -> Seq<char> {
    if s.len() == 0 {
        "branch name cannot be empty"@
    } else if scan_reason(s, 0) is Some {
        scan_reason(s, 0).unwrap()
    } else if s.len() == 1 && s[0] == '@' {
        "branch name cannot be '@'"@
    } else if s[0] == '.' {
        "branch name cannot start with '.'"@
    } else if s[s.len() - 1] == '.' {
        "branch name cannot end with '.'"@
    } else if s.len() >= 5 && s.subrange(s.len() - 5, s.len() as int) == dot_lock_suffix() {
        "branch name cannot end with '.lock'"@
    } else if s[0] == '/' || s[s.len() - 1] == '/' {
        "branch name cannot start or end with '/'"@
    } else {
        Seq::empty()
    }
}

/// The scan finds nothing exactly when every position passes `char_ok`.
proof fn lemma_scan_none(s: Seq<char>, i: int)
    requires
        0 <= i <= s.len(),
    ensures
        scan_reason(s, i) is None <==> forall|j: int| i <= j < s.len() ==> char_ok(s, j),
    decreases s.len() - i,
{
    if i < s.len() {
        lemma_scan_none(s, i + 1);
        if char_ok(s, i) {
            assert(scan_reason(s, i) == scan_reason(s, i + 1));
            if scan_reason(s, i) is None {
                assert forall|j: int| i <= j < s.len() implies char_ok(s, j) by {
                    if j == i {
                        assert(char_ok(s, i));
                    }
                }
            }
        } else {
            assert(scan_reason(s, i) is Some);
            assert(!(forall|j: int| i <= j < s.len() ==> char_ok(s, j))) by {
                assert(i <= i < s.len() && !char_ok(s, i));
            }
        }
    }
}

/// Check a candidate branch name, reporting the first rule it breaks.
#[verifier::rlimit(50)]
pub fn validate_branch_name(name: &str) -> (r: Result<(), Error>)
    ensures
        (r is Ok) == valid_branch_name(name@),
        r matches Err(e) ==> (e matches Error::InvalidBranchName { name: n, reason }
            && n@ == name@ && reason@ == invalid_reason(name@)),
{
    let v = crate::text::chars_of(name);
    let n = v.len();
    let ghost s = name@;
    proof {
        lemma_scan_none(s, 0);
    }

    if n == 0 {
        return Err(Error::InvalidBranchName {
            name: String::from_str(name),
            reason: String::from_str("branch name cannot be empty"),
        });
    }
    let mut i: usize = 0;
    while i < n
        invariant
            0 <= i <= n,
            n == s.len(),
            v@ == s,
            s == name@,
            s.len() > 0,
            scan_reason(s, 0) == scan_reason(s, i as int),
            scan_reason(s, 0) is None <==> (forall|j: int| 0 <= j < s.len() ==> char_ok(s, j)),
        decreases n - i,
    {
        let c = v[i];
        if (c as u32) < 32 || c as u32 == 127 {
            proof {
                assert(scan_reason(s, i as int)
                    == Some("branch name cannot contain control characters"@));
                assert(!valid_branch_name(s));
            }
            return Err(Error::InvalidBranchName {
                name: String::from_str(name),
                reason: String::from_str("branch name cannot contain control characters"),
            });
        }
        proof {
            assert(!is_control_char(s[i as int]));
        }
        if c == ' ' || c == '~' || c == '^' || c == ':' || c == '?' || c == '*' || c == '[' {
            let mut reason = String::from_str("branch name cannot contain '");
            push_char(&mut reason, c);
            proof {
                assert(reason@ =~= "branch name cannot contain '"@ + seq![c]);
            }
            reason.append("'");
            proof {
                assert(reason@ =~= reason_git_char(c));
                assert(scan_reason(s, i as int) == Some(reason_git_char(c)));
                assert(!valid_branch_name(s));
            }
            return Err(Error::InvalidBranchName { name: String::from_str(name), reason });
        }
        if c == '$' || c == ';' || c == '|' || c == '&' || c == '>' || c == '<' || c == '`'
            || c == '\\' || c == '"' || c == '\'' || c == '(' || c == ')' || c == '{' || c == '}'
            || c == '!' {
            let mut reason = String::from_str("branch name cannot contain shell metacharacter '");
            push_char(&mut reason, c);
            proof {
                assert(reason@ =~= "branch name cannot contain shell metacharacter '"@ + seq![c]);
            }
            reason.append("'");
            proof {
                assert(reason@ =~= reason_shell_char(c));
                assert(scan_reason(s, i as int) == Some(reason_shell_char(c)));
                assert(!valid_branch_name(s));
            }
            return Err(Error::InvalidBranchName { name: String::from_str(name), reason });
        }
        proof {
            assert(!is_git_forbidden(s[i as int]));
            assert(!is_shell_meta(s[i as int]));
        }
        if c == '.' && i + 1 < n && v[i + 1] == '.' {
            proof {
                assert(scan_reason(s, i as int) == Some("branch name cannot contain '..'"@));
                assert(!valid_branch_name(s));
            }
            return Err(Error::InvalidBranchName {
                name: String::from_str(name),
                reason: String::from_str("branch name cannot contain '..'"),
            });
        }
        if c == '/' && i + 1 < n && v[i + 1] == '/' {
            proof {
                assert(scan_reason(s, i as int) == Some("branch name cannot contain '//'"@));
                assert(!valid_branch_name(s));
            }
            return Err(Error::InvalidBranchName {
                name: String::from_str(name),
                reason: String::from_str("branch name cannot contain '//'"),
            });
        }
        if c == '@' && i + 1 < n && v[i + 1] == '{' {
            proof {
                assert(scan_reason(s, i as int) == Some("branch name cannot contain '@{'"@));
                assert(!valid_branch_name(s));
            }
            return Err(Error::InvalidBranchName {
                name: String::from_str(name),
                reason: String::from_str("branch name cannot contain '@{'"),
            });
        }
        if c == '/' && i + 1 < n && v[i + 1] == '.' {
            proof {
                assert(scan_reason(s, i as int)
                    == Some("branch name component cannot start with '.'"@));
                assert(!valid_branch_name(s));
            }
            return Err(Error::InvalidBranchName {
                name: String::from_str(name),
                reason: String::from_str("branch name component cannot start with '.'"),
            });
        }
        proof {
            assert(char_ok(s, i as int));
            assert(scan_reason(s, i as int) == scan_reason(s, i + 1 as int));
        }
        i += 1;
    }
    proof {
        assert(scan_reason(s, 0) is None);
    }
    if n == 1 && v[0] == '@' {
        return Err(Error::InvalidBranchName {
            name: String::from_str(name),
            reason: String::from_str("branch name cannot be '@'"),
        });
    }
    if v[0] == '.' {
        return Err(Error::InvalidBranchName {
            name: String::from_str(name),
            reason: String::from_str("branch name cannot start with '.'"),
        });
    }
    if v[n - 1] == '.' {
        return Err(Error::InvalidBranchName {
            name: String::from_str(name),
            reason: String::from_str("branch name cannot end with '.'"),
        });
    }
    if n >= 5 && v[n - 5] == '.' && v[n - 4] == 'l' && v[n - 3] == 'o' && v[n - 2] == 'c'
        && v[n - 1] == 'k' {
        proof {
            assert(s.subrange(s.len() - 5, s.len() as int) =~= dot_lock_suffix());
        }
        return Err(Error::InvalidBranchName {
            name: String::from_str(name),
            reason: String::from_str("branch name cannot end with '.lock'"),
        });
    }
    proof {
        if n >= 5 && s.subrange(s.len() - 5, s.len() as int) == dot_lock_suffix() {
            assert(s[s.len() - 5] == dot_lock_suffix()[0]);
            assert(s[s.len() - 4] == dot_lock_suffix()[1]);
            assert(s[s.len() - 3] == dot_lock_suffix()[2]);
            assert(s[s.len() - 2] == dot_lock_suffix()[3]);
            assert(s[s.len() - 1] == dot_lock_suffix()[4]);
        }
    }
    if v[0] == '/' || v[n - 1] == '/' {
        return Err(Error::InvalidBranchName {
            name: String::from_str(name),
            reason: String::from_str("branch name cannot start or end with '/'"),
        });
    }

    Ok(())
}

/// A validated branch name. Every value of this type satisfies
/// [`valid_branch_name`]; see the constructors for the exact contracts.
#[derive(Debug)]
pub struct BranchName {
    name: String,
}

impl View for BranchName {
    type V = Seq<char>;

    closed spec fn view(&self) -> Seq<char> {
        self.name@
    }
}

impl BranchName {
    /// Every branch name the core materializes passes validation.
    #[verifier::type_invariant]
    pub open spec fn wf(self) -> bool {
        valid_branch_name(self@)
    }

    /// Create a validated branch name, or report the first rule broken.
    pub fn new(name: &str) -> (r: Result<BranchName, Error>)
        ensures
            r is Ok <==> valid_branch_name(name@),
            r matches Ok(b) ==> b@ == name@,
            r matches Err(e) ==> (e matches Error::InvalidBranchName { name: n, reason }
                && n@ == name@ && reason@ == invalid_reason(name@)),
    {
        match validate_branch_name(name) {
            Ok(()) => Ok(BranchName { name: String::from_str(name) }),
            Err(e) => Err(e),
        }
    }

    /// The name as a string slice.
    pub fn as_str(&self) -> (r: &str)
        ensures
            r@ == self@,
    {
        self.name.as_str()
    }

    /// Consume the name and return the inner string.
    pub fn into_inner(self) -> (r: String)
        ensures
            r@ == self@,
    {
        self.name
    }

    /// An owned copy of this name.
    pub fn duplicate(&self) -> (r: BranchName)
        ensures
            r@ == self@,
    {
        proof {
            use_type_invariant(self);
        }
        BranchName { name: self.name.clone() }
    }

    /// Whether this name reads exactly as the given string.
    pub fn is(&self, other: &str) -> (r: bool)
        ensures
            r == (self@ == other@),
    {
        let o = String::from_str(other);
        self.name == o
    }
}

/// Maximum length, in characters, of a generated branch name.
pub const MAX_BRANCH_NAME_LENGTH: usize = 50;

/// Position of the first newline at or after `i`, if any.
pub open spec fn find_newline(s: Seq<char>, i: int) -> Option<int>
    decreases s.len() - i,
{
    if i < 0 || i >= s.len() {
        None
    } else if s[i] == '\n' {
        Some(i)
    } else {
        find_newline(s, i + 1)
    }
}

/// The first line of a text: everything before the first newline, minus a
/// carriage return left at the end by a CRLF line ending.
pub open spec fn first_line(s: Seq<char>) -> Seq<char> {
    match find_newline(s, 0) {
        None => s,
        Some(i) => {
            let line = s.subrange(0, i);
            if line.len() > 0 && line[line.len() - 1] == '\r' {
                line.subrange(0, line.len() - 1)
            } else {
                line
            }
        },
    }
}

/// The text a slug is computed from: the lowercased first line.
pub open spec fn slug_source(text: Seq<char>) -> Seq<char> {
    crate::text::lower_of(first_line(text))
}

/// The dash-collapsing pass over a lowercased line: alphanumeric runs are
/// kept and joined by single dashes; everything else separates runs.
/// `started` says whether a run was already emitted, `pending` whether a
/// separator has been seen since.
pub open spec fn slug_core(s: Seq<char>, started: bool, pending: bool) -> Seq<char>
    decreases s.len(),
{
    if s.len() == 0 {
        Seq::empty()
    } else if !crate::text::is_alphanum(s[0]) {
        slug_core(s.drop_first(), started, true)
    } else if started && pending {
        seq!['-', s[0]] + slug_core(s.drop_first(), true, false)
    } else {
        seq![s[0]] + slug_core(s.drop_first(), true, false)
    }
}

/// Position of the last dash at or before `i`, if any.
pub open spec fn last_dash_upto(s: Seq<char>, i: int) -> Option<int>
    decreases i + 1,
{
    if i < 0 {
        None
    } else if 0 <= i < s.len() && s[i] == '-' {
        Some(i)
    } else {
        last_dash_upto(s, i - 1)
    }
}

/// Truncation of an over-long slug: cut at the last dash among the first
/// `MAX_BRANCH_NAME_LENGTH` characters, or hard-cut when there is none.
pub open spec fn truncate_slug(s: Seq<char>) -> Seq<char> {
    if s.len() <= MAX_BRANCH_NAME_LENGTH {
        s
    } else {
        match last_dash_upto(s, MAX_BRANCH_NAME_LENGTH - 1) {
            None => s.subrange(0, MAX_BRANCH_NAME_LENGTH as int),
            Some(i) => s.subrange(0, i),
        }
    }
}

/// What [`slugify`] returns for a text.
pub open spec fn slug_of(text: Seq<char>) -> Seq<char> {
    truncate_slug(slug_core(slug_source(text), false, false))
}

/// The first `end` characters of a vector.
fn take_chars(v: &Vec<char>, end: usize) -> (r: Vec<char>)
    requires
        end <= v@.len(),
    ensures
        r@ == v@.subrange(0, end as int),
{
    let mut r: Vec<char> = Vec::new();
    let mut i: usize = 0;
    while i < end
        invariant
            i <= end <= v@.len(),
            r@ == v@.subrange(0, i as int),
        decreases end - i,
    {
        r.push(v[i]);
        assert(r@ =~= v@.subrange(0, i + 1 as int));
        i += 1;
    }
    r
}

/// Characterization of [`last_dash_upto`]: the greatest dash position at
/// or before `i`, when one exists.
proof fn lemma_last_dash(s: Seq<char>, i: int)
    requires
        i < s.len(),
    ensures
        match last_dash_upto(s, i) {
            None => forall|k: int| 0 <= k <= i ==> s[k] != '-',
            Some(k) => 0 <= k <= i && s[k] == '-' && forall|m: int| k < m <= i ==> s[m] != '-',
        },
    decreases i + 1,
{
    if i >= 0 {
        lemma_last_dash(s, i - 1);
    }
}

/// Convert arbitrary text into a slug: take the first line, lowercase it,
/// replace each run of non-alphanumeric characters with a single dash,
/// trim dashes at both ends, and truncate to the length limit.
pub fn slugify(text: &str) -> (r: String)
    ensures
        r@ == slug_of(text@),
{
    let cs = crate::text::chars_of(text);
    let n = cs.len();
    let ghost s = text@;

    // First line.
    let mut i: usize = 0;
    while i < n && cs[i] != '\n'
        invariant
            i <= n,
            n == s.len(),
            cs@ == s,
            find_newline(s, 0) == find_newline(s, i as int),
        decreases n - i,
    {
        i += 1;
    }
    let mut line = take_chars(&cs, i);
    if i < n {
        assert(find_newline(s, 0) == Some(i as int));
        if line.len() > 0 && line[line.len() - 1] == '\r' {
            line.pop();
            proof {
                assert(line@ =~= s.subrange(0, i as int).subrange(0, i - 1));
            }
        }
    }
    assert(line@ == first_line(s));

    // Lowercase.
    let line_string = crate::text::string_of_chars(&line);
    let lowered = crate::text::to_lowercase(line_string.as_str());
    let lcs = crate::text::chars_of(lowered.as_str());
    let ghost l = slug_source(s);
    assert(lcs@ == l);

    // Collapse into dash-joined alphanumeric runs.
    let m = lcs.len();
    let mut out: Vec<char> = Vec::new();
    let mut pending = false;
    let mut j: usize = 0;
    proof {
        assert(l.skip(0) =~= l);
        assert(Seq::<char>::empty() + slug_core(l, false, false) =~= slug_core(l, false, false));
    }
    while j < m
        invariant
            j <= m,
            m == l.len(),
            lcs@ == l,
            slug_core(l, false, false) == out@ + slug_core(l.skip(j as int), out@.len() > 0, pending),
        decreases m - j,
    {
        let c = lcs[j];
        let ghost rest = l.skip(j as int);
        proof {
            assert(rest.len() > 0 && rest[0] == l[j as int]);
            assert(rest.drop_first() =~= l.skip(j + 1 as int));
        }
        if crate::text::char_is_alphanumeric(c) {
            if out.len() > 0 && pending {
                out.push('-');
                out.push(c);
                proof {
                    assert(out@.drop_last().drop_last() + (seq!['-', c]
                        + slug_core(l.skip(j + 1 as int), true, false))
                        =~= out@ + slug_core(l.skip(j + 1 as int), true, false));
                }
            } else {
                out.push(c);
                proof {
                    assert(out@.drop_last() + (seq![c]
                        + slug_core(l.skip(j + 1 as int), true, false))
                        =~= out@ + slug_core(l.skip(j + 1 as int), true, false));
                }
            }
            pending = false;
        } else {
            pending = true;
        }
        j += 1;
    }
    proof {
        assert(l.skip(m as int) =~= Seq::<char>::empty());
        assert(out@ + Seq::<char>::empty() =~= out@);
        assert(out@ == slug_core(l, false, false));
    }

    // Truncate at a dash boundary within the limit.
    if out.len() <= MAX_BRANCH_NAME_LENGTH {
        assert(truncate_slug(out@) == out@);
        return crate::text::string_of_chars(&out);
    }
    let mut last: Option<usize> = None;
    let mut k: usize = 0;
    while k < MAX_BRANCH_NAME_LENGTH
        invariant
            k <= MAX_BRANCH_NAME_LENGTH,
            out@.len() > MAX_BRANCH_NAME_LENGTH,
            match last {
                None => forall|t: int| 0 <= t < k ==> out@[t] != '-',
                Some(d) => d < k && out@[d as int] == '-'
                    && forall|t: int| d < t < k ==> out@[t] != '-',
            },
        decreases MAX_BRANCH_NAME_LENGTH - k,
    {
        if out[k] == '-' {
            last = Some(k);
        }
        k += 1;
    }
    proof {
        lemma_last_dash(out@, MAX_BRANCH_NAME_LENGTH - 1);
        match last_dash_upto(out@, MAX_BRANCH_NAME_LENGTH - 1) {
            None => {
                assert(last is None) by {
                    if last is Some {
                        let d = last.unwrap();
                        assert(out@[d as int] == '-');
                    }
                }
            },
            Some(p) => {
                assert(last == Some(p as usize)) by {
                    if last is None {
                        assert(out@[p] != '-');
                    } else {
                        let d = last.unwrap() as int;
                        if d < p {
                            assert(out@[p] != '-');
                        }
                        if p < d {
                            assert(out@[d] != '-');
                        }
                    }
                }
            },
        }
    }
    match last {
        None => {
            let cut = take_chars(&out, MAX_BRANCH_NAME_LENGTH);
            crate::text::string_of_chars(&cut)
        },
        Some(p) => {
            let cut = take_chars(&out, p);
            crate::text::string_of_chars(&cut)
        },
    }
}

/// Every character a slug holds is a dash or an alphanumeric.
proof fn lemma_slug_core_chars(s: Seq<char>, started: bool, pending: bool)
    ensures
        forall|i: int| 0 <= i < slug_core(s, started, pending).len()
            ==> (#[trigger] slug_core(s, started, pending)[i] == '-'
                || crate::text::is_alphanum(slug_core(s, started, pending)[i])),
    decreases s.len(),
{
    if s.len() > 0 {
        let rest = s.drop_first();
        let out = slug_core(s, started, pending);
        if !crate::text::is_alphanum(s[0]) {
            lemma_slug_core_chars(rest, started, true);
            assert forall|i: int| 0 <= i < out.len()
                implies (#[trigger] out[i] == '-'
                    || crate::text::is_alphanum(out[i])) by {
                assert(out[i] == slug_core(rest, started, true)[i]);
            }
        } else {
            lemma_slug_core_chars(rest, true, false);
            let tail = slug_core(rest, true, false);
            if started && pending {
                assert forall|i: int| 0 <= i < out.len()
                    implies (#[trigger] out[i] == '-'
                        || crate::text::is_alphanum(out[i])) by {
                    if i >= 2 {
                        assert(out[i] == tail[i - 2]);
                    } else if i == 1 {
                        assert(out[1] == s[0]);
                    }
                }
            } else {
                assert forall|i: int| 0 <= i < out.len()
                    implies (#[trigger] out[i] == '-'
                        || crate::text::is_alphanum(out[i])) by {
                    if i >= 1 {
                        assert(out[i] == tail[i - 1]);
                    } else {
                        assert(out[0] == s[0]);
                    }
                }
            }
        }
    }
}

/// When a dash does not count as alphanumeric, a slug has no dash at the
/// start (unless a run was already emitted), none at the end, and no two
/// dashes in a row.
proof fn lemma_slug_core_shape(s: Seq<char>, started: bool, pending: bool)
    requires
        !crate::text::is_alphanum('-'),
    ensures
        ({
            let out = slug_core(s, started, pending);
            &&& forall|i: int| 0 <= i < out.len() - 1 ==> !(#[trigger] out[i] == '-' && out[i + 1] == '-')
            &&& (out.len() > 0 ==> out[out.len() - 1] != '-')
            &&& (!started && out.len() > 0 ==> out[0] != '-')
        }),
    decreases s.len(),
{
    if s.len() > 0 {
        let rest = s.drop_first();
        if !crate::text::is_alphanum(s[0]) {
            lemma_slug_core_shape(rest, started, true);
        } else {
            lemma_slug_core_shape(rest, true, false);
            let tail = slug_core(rest, true, false);
            if started && pending {
                let out = seq!['-', s[0]] + tail;
                assert(out[0] == '-' && out[1] == s[0]);
                assert(s[0] != '-');
                assert forall|i: int| 0 <= i < out.len() - 1
                    implies !(#[trigger] out[i] == '-' && out[i + 1] == '-') by {
                    if i >= 2 {
                        assert(out[i] == tail[i - 2] && out[i + 1] == tail[i - 1]);
                    }
                    if i == 1 && out.len() > 2 {
                        assert(out[2] == tail[0]);
                    }
                }
            } else {
                let out = seq![s[0]] + tail;
                assert(out[0] == s[0] && s[0] != '-');
                assert forall|i: int| 0 <= i < out.len() - 1
                    implies !(#[trigger] out[i] == '-' && out[i + 1] == '-') by {
                    if i >= 1 {
                        assert(out[i] == tail[i - 1] && out[i + 1] == tail[i]);
                    }
                }
            }
        }
    }
}

/// A text whose characters are all alphanumeric passes through the
/// dash-collapsing pass unchanged.
proof fn lemma_slug_core_fixed_alphanum(t: Seq<char>)
    requires
        forall|i: int| 0 <= i < t.len() ==> crate::text::is_alphanum(#[trigger] t[i]),
    ensures
        slug_core(t, true, false) == t,
        slug_core(t, false, false) == t,
    decreases t.len(),
{
    if t.len() == 0 {
        assert(slug_core(t, true, false) =~= t);
    } else {
        lemma_slug_core_fixed_alphanum(t.drop_first());
        assert(seq![t[0]] + t.drop_first() =~= t);
    }
}

/// A text already in slug shape passes through the dash-collapsing pass
/// unchanged; if it does not start with a dash, that also holds when no
/// run was emitted yet.
proof fn lemma_slug_core_fixed_shape(t: Seq<char>)
    requires
        !crate::text::is_alphanum('-'),
        forall|i: int| 0 <= i < t.len()
            ==> (#[trigger] t[i] == '-' || crate::text::is_alphanum(t[i])),
        forall|i: int| 0 <= i < t.len() - 1 ==> !(#[trigger] t[i] == '-' && t[i + 1] == '-'),
        t.len() > 0 ==> t[t.len() - 1] != '-',
    ensures
        slug_core(t, true, false) == t,
        t.len() == 0 || t[0] != '-' ==> slug_core(t, false, false) == t,
    decreases t.len(),
{
    if t.len() == 0 {
        assert(slug_core(t, true, false) =~= t);
    } else if t[0] != '-' {
        let rest = t.drop_first();
        lemma_slug_core_fixed_shape(rest);
        assert(crate::text::is_alphanum(t[0]));
        if rest.len() == 0 || rest[0] != '-' {
            assert(slug_core(rest, true, false) == rest);
        }
        assert(seq![t[0]] + rest =~= t);
    } else {
        // t starts with a dash: the next character exists, is not a dash,
        // and the pass re-emits the dash before it.
        let rest = t.drop_first();
        assert(rest.len() > 0 && rest[0] != '-') by {
            assert(t[t.len() - 1] != '-');
            if rest.len() > 0 {
                assert(!(t[0] == '-' && t[1] == '-'));
            }
        }
        assert(crate::text::is_alphanum(rest[0]));
        let rest2 = rest.drop_first();
        assert(forall|i: int| 0 <= i < rest2.len()
            ==> (#[trigger] rest2[i] == '-' || crate::text::is_alphanum(rest2[i]))) by {
            assert(forall|i: int| 0 <= i < rest2.len() ==> rest2[i] == t[i + 2]);
        }
        assert(forall|i: int| 0 <= i < rest2.len() - 1
            ==> !(#[trigger] rest2[i] == '-' && rest2[i + 1] == '-')) by {
            assert(forall|i: int| 0 <= i < rest2.len() ==> rest2[i] == t[i + 2]);
        }
        lemma_slug_core_fixed_shape(rest2);
        if rest2.len() == 0 || rest2[0] != '-' {
            assert(slug_core(rest2, true, false) == rest2);
        }
        assert(slug_core(t, true, false) == slug_core(rest, true, true));
        assert(slug_core(rest, true, true) == seq!['-', rest[0]] + slug_core(rest2, true, false));
        assert(seq!['-', rest[0]] + rest2 =~= t);
    }
}

/// No newline occurs at or after `i`, so none is found.
proof fn lemma_no_newline(s: Seq<char>, i: int)
    requires
        forall|j: int| 0 <= j < s.len() ==> s[j] != '\n',
    ensures
        find_newline(s, i) is None,
    decreases s.len() - i,
{
    if 0 <= i < s.len() {
        lemma_no_newline(s, i + 1);
    }
}

/// Law: slugifying is idempotent. If the slug of a text is a valid branch
/// name and Unicode lowercasing leaves it unchanged, slugifying it again
/// returns it as it is.
pub proof fn lemma_slugify_idempotent(text: Seq<char>)
    requires
        valid_branch_name(slug_of(text)),
        crate::text::lower_of(slug_of(text)) == slug_of(text),
    ensures
        slug_of(slug_of(text)) == slug_of(text),
{
    let core = slug_core(slug_source(text), false, false);
    let t = slug_of(text);
    // t is a prefix of core, of length at most the limit.
    lemma_slug_core_chars(slug_source(text), false, false);
    assert(t.len() <= MAX_BRANCH_NAME_LENGTH && (forall|i: int| 0 <= i < t.len()
        ==> t[i] == core[i])) by {
        if core.len() > MAX_BRANCH_NAME_LENGTH {
            lemma_last_dash(core, MAX_BRANCH_NAME_LENGTH - 1);
        }
    }
    // The text slugified again is t itself: no newline is in it (it is a
    // valid name, so it has no control character), and lowercasing fixes it.
    assert forall|j: int| 0 <= j < t.len() implies t[j] != '\n' by {
        assert(char_ok(t, j));
        assert(!is_control_char(t[j]));
        assert(('\n' as u32) < 32);
    }
    lemma_no_newline(t, 0);
    assert(first_line(t) == t);
    assert(slug_source(t) == t);

    if crate::text::is_alphanum('-') {
        assert(forall|i: int| 0 <= i < t.len() ==> crate::text::is_alphanum(#[trigger] t[i]));
        lemma_slug_core_fixed_alphanum(t);
    } else {
        lemma_slug_core_shape(slug_source(text), false, false);
        // Shape carries over from core to its prefix t.
        assert(forall|i: int| 0 <= i < t.len() - 1 ==> !(#[trigger] t[i] == '-' && t[i + 1] == '-'));
        assert(t.len() > 0 ==> t[t.len() - 1] != '-') by {
            if t.len() > 0 {
                if core.len() <= MAX_BRANCH_NAME_LENGTH {
                    assert(t =~= core);
                } else {
                    lemma_last_dash(core, MAX_BRANCH_NAME_LENGTH - 1);
                    match last_dash_upto(core, MAX_BRANCH_NAME_LENGTH - 1) {
                        None => {
                            assert(t == core.subrange(0, MAX_BRANCH_NAME_LENGTH as int));
                            assert(core[MAX_BRANCH_NAME_LENGTH - 1] != '-');
                        },
                        Some(p) => {
                            assert(t == core.subrange(0, p));
                            assert(!(core[p - 1] == '-' && core[p] == '-'));
                        },
                    }
                }
            }
        }
        assert(t.len() > 0 ==> t[0] != '-');
        lemma_slug_core_fixed_shape(t);
    }
    assert(slug_core(t, false, false) == t);
    assert(truncate_slug(t) == t);
    assert(slug_of(t) == t);
}

impl BranchName {
    /// Derive a branch name from a commit message by slugifying its first
    /// line; fails when the slug is empty or breaks a naming rule.
    pub fn from_message(message: &str) -> (r: Result<BranchName, Error>)
        ensures
            (r is Ok) == (slug_of(message@).len() > 0 && valid_branch_name(slug_of(message@))),
            r matches Ok(b) ==> b@ == slug_of(message@),
            slug_of(message@).len() == 0 ==> (r matches Err(Error::InvalidBranchName {
                name: n, reason })
                && n@ == message@
                && reason@ == "message contains no alphanumeric characters"@),
            slug_of(message@).len() > 0 && !valid_branch_name(slug_of(message@))
                ==> (r matches Err(Error::InvalidBranchName { name: n, reason })
                    && n@ == slug_of(message@)
                    && reason@ == invalid_reason(slug_of(message@))),
    {
        let slugified = slugify(message);
        if slugified.as_str().is_empty() {
            return Err(Error::InvalidBranchName {
                name: String::from_str(message),
                reason: String::from_str("message contains no alphanumeric characters"),
            });
        }
        Self::new(slugified.as_str())
    }
}

impl PartialEq for BranchName {
    /// Equality is bytewise on the underlying text.
    fn eq(&self, other: &Self) -> bool {
        self.name == other.name
    }
}

impl vstd::std_specs::cmp::PartialEqSpecImpl for BranchName {
    open spec fn obeys_eq_spec() -> bool {
        true
    }

    open spec fn eq_spec(&self, other: &Self) -> bool {
        self@ == other@
    }
}

} // verus!
