//! Where the logs of a run are written.
use crate::path;
use crate::path::joined_path;
use crate::text;
use crate::text::{chars_of, decimal_of, string_of};
use vstd::prelude::*;
use vstd::string::*;

verus! {

/// Whether a character is kept in the name of a log file.
pub open spec fn safe_char(c: char) -> bool {
    ('a' <= c && c <= 'z') || ('A' <= c && c <= 'Z') || ('0' <= c && c <= '9') || c == '.' || c
        == '_' || c == '-'
}

fn is_safe(c: char) -> (r: bool)
    ensures
        r == safe_char(c),
{
    ('a' <= c && c <= 'z') || ('A' <= c && c <= 'Z') || ('0' <= c && c <= '9') || c == '.' || c
        == '_' || c == '-'
}

/// A text with each character that is not safe replaced by `_`.
pub open spec fn masked(s: Seq<char>) -> Seq<char> {
    s.map_values(
        |c: char|
            if safe_char(c) {
                c
            } else {
                '_'
            },
    )
}

/// A text with each `..`, from left to right, replaced by `__`.
pub open spec fn without_dots(s: Seq<char>) -> Seq<char>
    decreases s.len(),
{
    if s.len() == 0 {
        s
    } else if s.len() >= 2 && s[0] == '.' && s[1] == '.' {
        seq!['_', '_'] + without_dots(s.skip(2))
    } else {
        seq![s[0]] + without_dots(s.skip(1))
    }
}

/// The name of a log file, without its extension.
pub open spec fn stem_of(target: Seq<char>) -> Seq<char> {
    let s = without_dots(masked(target));
    if s.len() == 0 {
        seq!['_']
    } else if s[0] == '.' {
        s.update(0, '_')
    } else {
        s
    }
}

fn mask(s: &[char]) -> (r: Vec<char>)
    ensures
        r@ == masked(s@),
{
    let mut r: Vec<char> = Vec::new();
    let mut i: usize = 0;
    while i < s.len()
        invariant
            i <= s@.len(),
            r@ == masked(s@).take(i as int),
        decreases s@.len() - i,
    {
        let c: char = if is_safe(s[i]) {
            s[i]
        } else {
            '_'
        };
        r.push(c);
        assert(r@ =~= masked(s@).take(i + 1));
        i += 1;
    }
    assert(r@ =~= masked(s@));
    r
}

fn undot(s: &[char]) -> (r: Vec<char>)
    ensures
        r@ == without_dots(s@),
{
    let mut r: Vec<char> = Vec::new();
    let mut i: usize = 0;
    assert(s@.skip(0) =~= s@);
    assert(r@ + without_dots(s@) =~= without_dots(s@));
    while i < s.len()
        invariant
            i <= s@.len(),
            without_dots(s@) == r@ + without_dots(s@.skip(i as int)),
        decreases s@.len() - i,
    {
        let ghost here = s@.skip(i as int);
        let ghost before = r@;
        assert(here[0] == s@[i as int]);
        if s[i] == '.' && s.len() - i >= 2 && s[i + 1] == '.' {
            r.push('_');
            r.push('_');
            proof {
                assert(here[1] == s@[i + 1]);
                assert(here.skip(2) =~= s@.skip(i + 2));
                let rest = without_dots(here.skip(2));
                assert(before + (seq!['_', '_'] + rest) =~= r@ + rest);
            }
            i += 2;
        } else {
            r.push(s[i]);
            proof {
                if here.len() >= 2 {
                    assert(here[1] == s@[i + 1]);
                }
                assert(here.skip(1) =~= s@.skip(i + 1));
                let rest = without_dots(here.skip(1));
                assert(before + (seq![here[0]] + rest) =~= r@ + rest);
            }
            i += 1;
        }
    }
    assert(s@.skip(i as int).len() == 0);
    assert(r@ + without_dots(s@.skip(i as int)) =~= r@);
    r
}

/// A name for the log file of a target: one path component, whatever the target is called. A
/// target may be called anything, such as `../../etc/cron.d/x`.
pub fn safe_file_stem(target: &str) -> (r: String)
    ensures
        r@ == stem_of(target@),
{
    let chars = chars_of(target);
    let mut s = undot(mask(chars.as_slice()).as_slice());
    if s.len() == 0 {
        s.push('_');
        assert(s@ =~= seq!['_']);
    } else if s[0] == '.' {
        s.set(0, '_');
    }
    string_of(s.as_slice())
}

/// The directory for the logs of a run.
pub open spec fn log_dir_of(temp_dir: Seq<char>, run_id: nat) -> Seq<char> {
    path::join_path(path::join_path(temp_dir, "dbake-logs"@), text::decimal(run_id))
}

/// The directory for the logs of a run, in the directory for temporary files. Each run has its
/// own, so that runs do not write into each other's files and the logs of the last one stay.
pub fn run_log_dir(temp_dir: &str, run_id: u32) -> (r: String)
    ensures
        r@ == log_dir_of(temp_dir@, run_id as nat),
{
    let logs = joined_path(temp_dir, "dbake-logs");
    joined_path(logs.as_str(), decimal_of(run_id as u64).as_str())
}

/// The log file of a target.
pub open spec fn log_file_of(run_dir: Seq<char>, target: Seq<char>) -> Seq<char> {
    path::join_path(run_dir, stem_of(target) + ".log"@)
}

/// The log file of a target, in the directory of its run.
pub fn log_path(run_dir: &str, target: &str) -> (r: String)
    ensures
        r@ == log_file_of(run_dir@, target@),
{
    let name = safe_file_stem(target).concat(".log");
    joined_path(run_dir, name.as_str())
}

/// What is wrong with a directory for logs.
#[derive(Debug, Clone, Copy, PartialEq, Eq, Structural)]
pub enum LogDirFault {
    /// It is a symbolic link.
    Symlink,
    /// It is no directory.
    NotADirectory,
    /// It belongs to someone else.
    Foreign { owner: u32, me: u32 },
}

/// What is wrong with a directory, by what it is and whom it belongs to.
pub open spec fn dir_fault(
    is_symlink: bool,
    is_dir: bool,
    owner: u32,
    me: u32,
) -> Option<LogDirFault> {
    if is_symlink {
        Some(LogDirFault::Symlink)
    } else if !is_dir {
        Some(LogDirFault::NotADirectory)
    } else if owner != me {
        Some(LogDirFault::Foreign { owner, me })
    } else {
        None
    }
}

/// Whether logs may be written into a directory: a real one that is ours. Anyone can make a
/// directory, or a link, of the expected name where temporary files go.
pub fn vet_log_dir(is_symlink: bool, is_dir: bool, owner: u32, me: u32) -> (r: Result<
    (),
    LogDirFault,
>)
    ensures
        match r {
            Ok(_) => dir_fault(is_symlink, is_dir, owner, me) is None,
            Err(f) => dir_fault(is_symlink, is_dir, owner, me) == Some(f),
        },
{
    if is_symlink {
        Err(LogDirFault::Symlink)
    } else if !is_dir {
        Err(LogDirFault::NotADirectory)
    } else if owner != me {
        Err(LogDirFault::Foreign { owner, me })
    } else {
        Ok(())
    }
}

/// The text of a fault.
pub open spec fn fault_text(f: LogDirFault, dir: Seq<char>) -> Seq<char> {
    match f {
        LogDirFault::Symlink => "refusing to write logs through the symlink "@ + dir
            + " — remove it"@,
        LogDirFault::NotADirectory => "log path "@ + dir + " exists and is not a directory"@,
        LogDirFault::Foreign { owner, me } => "log directory "@ + dir + " is owned by uid "@
            + text::decimal(owner as nat) + ", not "@ + text::decimal(me as nat)
            + " — refusing to use it"@,
    }
}

impl LogDirFault {
    /// The text of the fault.
    pub fn message(&self, dir: &str) -> (r: String)
        ensures
            r@ == fault_text(*self, dir@),
    {
        match self {
            LogDirFault::Symlink => "refusing to write logs through the symlink ".to_string().concat(
                dir,
            ).concat(" — remove it"),
            LogDirFault::NotADirectory => "log path ".to_string().concat(dir).concat(
                " exists and is not a directory",
            ),
            LogDirFault::Foreign { owner, me } => "log directory ".to_string().concat(dir).concat(
                " is owned by uid ",
            ).concat(decimal_of(*owner as u64).as_str()).concat(", not ").concat(
                decimal_of(*me as u64).as_str(),
            ).concat(" — refusing to use it"),
        }
    }
}

/// Whether a text has two dots next to each other.
pub open spec fn has_dots(s: Seq<char>) -> bool {
    exists|i: int| 0 <= i < s.len() - 1 && #[trigger] s[i] == '.' && s[i + 1] == '.'
}

proof fn lemma_without_dots(s: Seq<char>)
    ensures
        without_dots(s).len() == s.len(),
        !has_dots(without_dots(s)),
        s.len() > 0 && s[0] != '.' ==> without_dots(s)[0] == s[0],
        s.len() > 0 && without_dots(s)[0] == '.' ==> s.len() == 1 || s[1] != '.',
        forall|i: int|
            0 <= i < s.len() ==> #[trigger] without_dots(s)[i] == s[i] || without_dots(s)[i] == '_',
        !has_dots(s) ==> without_dots(s) == s,
    decreases s.len(),
{
    let r = without_dots(s);
    if s.len() == 0 {
    } else if s.len() >= 2 && s[0] == '.' && s[1] == '.' {
        let t = s.skip(2);
        lemma_without_dots(t);
        assert forall|i: int| 0 <= i < r.len() - 1 implies !(#[trigger] r[i] == '.' && r[i + 1]
            == '.') by {
            if i >= 2 {
                assert(r[i] == without_dots(t)[i - 2]);
                assert(r[i + 1] == without_dots(t)[i - 1]);
            }
        }
        assert forall|i: int| 0 <= i < s.len() implies #[trigger] r[i] == s[i] || r[i] == '_' by {
            if i >= 2 {
                assert(r[i] == without_dots(t)[i - 2]);
                assert(t[i - 2] == s[i]);
            }
        }
        assert(has_dots(s)) by {
            assert(s[0] == '.' && s[1] == '.');
        }
    } else {
        let t = s.skip(1);
        lemma_without_dots(t);
        assert forall|i: int| 0 <= i < r.len() - 1 implies !(#[trigger] r[i] == '.' && r[i + 1]
            == '.') by {
            if i >= 1 {
                assert(r[i] == without_dots(t)[i - 1]);
                assert(r[i + 1] == without_dots(t)[i]);
            } else {
                assert(r[1] == without_dots(t)[0]);
                assert(t[0] == s[1]);
            }
        }
        assert forall|i: int| 0 <= i < s.len() implies #[trigger] r[i] == s[i] || r[i] == '_' by {
            if i >= 1 {
                assert(r[i] == without_dots(t)[i - 1]);
                assert(t[i - 1] == s[i]);
            }
        }
        if !has_dots(s) {
            assert forall|i: int| 0 <= i < t.len() - 1 implies !(#[trigger] t[i] == '.' && t[i + 1]
                == '.') by {
                assert(t[i] == s[i + 1]);
                assert(t[i + 1] == s[i + 1 + 1]);
            }
            assert(r =~= s);
        }
    }
}

/// A name that is fit for a log file as it is.
pub open spec fn fit(s: Seq<char>) -> bool {
    &&& s.len() > 0
    &&& forall|i: int| 0 <= i < s.len() ==> safe_char(#[trigger] s[i])
    &&& !has_dots(s)
    &&& s[0] != '.'
}

/// The name of a log file is never empty, has only safe characters, no `..` in it and no dot at
/// its start.
pub proof fn law_stem_is_fit(target: Seq<char>)
    ensures
        fit(stem_of(target)),
{
    let m = masked(target);
    let s = without_dots(m);
    let r = stem_of(target);
    lemma_without_dots(m);
    assert forall|i: int| 0 <= i < s.len() implies safe_char(#[trigger] s[i]) by {
        assert(s[i] == m[i] || s[i] == '_');
    }
    if s.len() == 0 {
        assert(!has_dots(r));
    } else if s[0] == '.' {
        assert forall|i: int| 0 <= i < r.len() - 1 implies !(#[trigger] r[i] == '.' && r[i + 1]
            == '.') by {
            if i > 0 {
                assert(r[i] == s[i] && r[i + 1] == s[i + 1]);
                assert(!(s[i] == '.' && s[i + 1] == '.'));
            }
        }
    }
}

/// A name that is fit for a log file stays as it is; so does every name made here.
pub proof fn law_fit_name_unchanged(target: Seq<char>)
    requires
        fit(target),
    ensures
        stem_of(target) == target,
{
    assert(masked(target) =~= target);
    lemma_without_dots(target);
}

/// A log file lies directly in the directory of its run, whatever its target is called.
pub proof fn law_log_stays_in_run_dir(run_dir: Seq<char>, target: Seq<char>)
    ensures
        path::file_name(log_file_of(run_dir, target)) == Some(stem_of(target) + ".log"@),
        run_dir.is_prefix_of(log_file_of(run_dir, target)),
{
    reveal_strlit(".log");
    law_stem_is_fit(target);
    let stem = stem_of(target);
    let name = stem + ".log"@;
    assert forall|i: int| 0 <= i < name.len() implies #[trigger] name[i] != '/' by {
        if i < stem.len() {
            assert(name[i] == stem[i]);
            assert(safe_char(stem[i]));
        } else {
            assert(name[i] == ".log"@[i - stem.len()]);
        }
    }
    assert(name.last() == 'g');
    path::lemma_joined_file_name(run_dir, name);
}

/// Two runs never share a directory for their logs.
pub proof fn law_runs_have_their_own_dir(temp_dir: Seq<char>, a: nat, b: nat)
    requires
        a != b,
    ensures
        log_dir_of(temp_dir, a) != log_dir_of(temp_dir, b),
{
    reveal_strlit("dbake-logs");
    let base = path::join_path(temp_dir, "dbake-logs"@);
    assert(base.last() == 's');
    let head = base.push('/');
    let x = log_dir_of(temp_dir, a);
    let y = log_dir_of(temp_dir, b);
    if x == y {
        assert(x.skip(head.len() as int) =~= text::decimal(a));
        assert(y.skip(head.len() as int) =~= text::decimal(b));
        text::lemma_decimal_injective(a, b);
    }
}

/// Every character of a target's name that is fit for a file's name stays in its place, but for
/// dots: what is lost is what is not fit.
pub proof fn law_safe_characters_stay(target: Seq<char>, i: int)
    requires
        0 <= i < target.len(),
    ensures
        stem_of(target).len() == target.len(),
        safe_char(target[i]) && target[i] != '.' ==> stem_of(target)[i] == target[i],
        !safe_char(target[i]) ==> stem_of(target)[i] == '_',
{
    let m = masked(target);
    lemma_without_dots(m);
    lemma_dots_only(m, i);
    assert(m[i] == if safe_char(target[i]) {
        target[i]
    } else {
        '_'
    });
}

/// Taking out dots leaves every other character.
proof fn lemma_dots_only(s: Seq<char>, i: int)
    requires
        0 <= i < s.len(),
    ensures
        s[i] != '.' ==> without_dots(s)[i] == s[i],
    decreases s.len(),
{
    if s.len() >= 2 && s[0] == '.' && s[1] == '.' {
        if i >= 2 {
            lemma_dots_only(s.skip(2), i - 2);
            lemma_without_dots(s.skip(2));
        }
    } else if i >= 1 {
        lemma_dots_only(s.skip(1), i - 1);
        lemma_without_dots(s.skip(1));
    }
}

/// Logs are written only into a real directory that is our own; what is wrong with any other is
/// told for what it is.
pub proof fn law_only_own_directories_are_used(
    is_symlink: bool,
    is_dir: bool,
    owner: u32,
    me: u32,
)
    ensures
        dir_fault(is_symlink, is_dir, owner, me) is None <==> !is_symlink && is_dir && owner == me,
        is_symlink ==> dir_fault(is_symlink, is_dir, owner, me) == Some(LogDirFault::Symlink),
        !is_symlink && is_dir && owner != me ==> dir_fault(is_symlink, is_dir, owner, me) == Some(
            LogDirFault::Foreign { owner, me },
        ),
        !is_symlink && !is_dir ==> dir_fault(is_symlink, is_dir, owner, me) == Some(
            LogDirFault::NotADirectory,
        ),
{
}

/// The logs of a run lie in a directory of the run's number, below one of ours where temporary
/// files go; the log of a target has its name.
pub proof fn law_logs_have_their_place(temp_dir: Seq<char>, run_id: nat, target: Seq<char>)
    requires
        temp_dir.len() > 0,
        temp_dir.last() != '/',
        fit(target),
    ensures
        log_dir_of(temp_dir, run_id) == temp_dir + "/dbake-logs/"@ + text::decimal(run_id),
        log_file_of(log_dir_of(temp_dir, run_id), target) == temp_dir + "/dbake-logs/"@
            + text::decimal(run_id) + "/"@ + target + ".log"@,
{
    reveal_strlit("dbake-logs");
    reveal_strlit("/dbake-logs/");
    reveal_strlit("/");
    law_fit_name_unchanged(target);
    let a = temp_dir.push('/') + "dbake-logs"@;
    assert(a.last() == 's');
    let n = text::decimal(run_id);
    text::lemma_decimal_reads_back(run_id);
    assert(a.push('/') + n =~= temp_dir + "/dbake-logs/"@ + n);
    let dir = log_dir_of(temp_dir, run_id);
    assert(dir.last() == n.last());
    assert(text::is_digit(n[n.len() - 1]));
    assert(dir.push('/') + (target + ".log"@) =~= temp_dir + "/dbake-logs/"@ + n + "/"@ + target
        + ".log"@);
}

/// What is said of a directory that is not used names it, and whose it is.
pub proof fn law_faults_name_the_directory(fault: LogDirFault, dir: Seq<char>)
    ensures
        text::occurs(fault_text(fault, dir), dir),
        fault matches LogDirFault::Foreign { owner, me } ==> text::occurs(
            fault_text(fault, dir),
            text::decimal(owner as nat),
        ) && text::occurs(fault_text(fault, dir), text::decimal(me as nat)),
{
    match fault {
        LogDirFault::Symlink => {
            text::lemma_occurs_between(
                "refusing to write logs through the symlink "@,
                dir,
                " — remove it"@,
            );
        },
        LogDirFault::NotADirectory => {
            text::lemma_occurs_between("log path "@, dir, " exists and is not a directory"@);
        },
        LogDirFault::Foreign { owner, me } => {
            let a = "log directory "@;
            let b = " is owned by uid "@;
            let o = text::decimal(owner as nat);
            let c = ", not "@;
            let m = text::decimal(me as nat);
            let d = " — refusing to use it"@;
            let all = a + dir + b + o + c + m + d;
            text::lemma_occurs_between(a, dir, b + o + c + m + d);
            assert(a + dir + (b + o + c + m + d) =~= all);
            text::lemma_occurs_between(a + dir + b, o, c + m + d);
            assert(a + dir + b + o + (c + m + d) =~= all);
            text::lemma_occurs_between(a + dir + b + o + c, m, d);
        },
    }
}

/// Letters, digits, dots, underscores and hyphens are fit for the name of a log file; what parts a
/// path, and white space, is not.
pub proof fn law_plain_characters_are_safe(c: char)
    ensures
        'a' as int <= c as int <= 'z' as int ==> safe_char(c),
        'A' as int <= c as int <= 'Z' as int ==> safe_char(c),
        '0' as int <= c as int <= '9' as int ==> safe_char(c),
        safe_char('.') && safe_char('_') && safe_char('-'),
        !safe_char('/') && !safe_char('\\') && !safe_char(':') && !safe_char('\0'),
        text::white(c) ==> !safe_char(c),
        c as int > 127 ==> !safe_char(c),
        !('a' as int <= c as int <= 'z' as int) && !('A' as int <= c as int <= 'Z' as int) && !(
        '0' as int <= c as int <= '9' as int) && !seq!['.', '_', '-'].contains(c) ==> !safe_char(c),
{
    let signs = seq!['.', '_', '-'];
    assert(signs[0] == '.' && signs[1] == '_' && signs[2] == '-');
    assert(signs.contains(signs[0]) && signs.contains(signs[1]) && signs.contains(signs[2]));
}

}
