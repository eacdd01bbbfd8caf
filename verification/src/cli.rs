//! The command line: turning arguments into intentions.
//!
//! Nothing here reads a file or opens a socket, so every refusal below is a
//! function of the arguments alone.
use vstd::prelude::*;
use crate::text::{append, chars_of, decimal, from_chars, owned, push_decimal};

verus! {

pub const DEFAULT_LAST: usize = 20;

pub const DEFAULT_K: usize = 10;

pub const DEFAULT_CONFIG: &'static str = "askable.toml";

pub const USAGE: &'static str = "usage:
  askable run   --candidate NAME --corpus FILE --label TEXT
                [--judge REFERENCE.json] [--config FILE] [--k N] [--out FILE]
  askable judge REFERENCE.json CANDIDATE.json [--config FILE]
  askable tail  [--match k=v]... [--show a,b,c] [--last N]

exit code: 0 nothing to report, 1 a regression the corpus can see, 2 a mistake";

/// The decimal value of a sequence of digits.
pub open spec fn digits_value(s: Seq<char>) -> nat
    decreases s.len(),
{
    if s.len() == 0 {
        0
    } else {
        digits_value(s.drop_last()) * 10 + (s.last() as nat - 48) as nat
    }
}

pub open spec fn all_digits(s: Seq<char>) -> bool {
    forall|i: int| 0 <= i < s.len() ==> '0' <= #[trigger] s[i] <= '9'
}

/// What `usize::from_str` accepts: an optional `+`, then at least one
/// decimal digit and nothing else, of a value that fits.
pub open spec fn parsed_usize(s: Seq<char>) -> Option<nat> {
    let body = if s.len() > 0 && s[0] == '+' {
        s.drop_first()
    } else {
        s
    };
    if body.len() > 0 && all_digits(body) && digits_value(body) <= usize::MAX {
        Some(digits_value(body))
    } else {
        None
    }
}

proof fn lemma_digits_value_grows(s: Seq<char>, j: int)
    requires
        0 <= j <= s.len(),
        all_digits(s),
    ensures
        digits_value(s.subrange(0, j)) <= digits_value(s),
    decreases s.len() - j,
{
    if j < s.len() {
        lemma_digits_value_grows(s, j + 1);
        assert(s.subrange(0, j + 1).drop_last() =~= s.subrange(0, j));
        assert('0' <= s.subrange(0, j + 1).last());
    } else {
        assert(s.subrange(0, j) =~= s);
    }
}

/// Reads a `usize` the way `str::parse::<usize>` does.
pub fn parse_usize(s: &str) -> (r: Option<usize>)
    ensures
        match (r, parsed_usize(s@)) {
            (Some(v), Some(w)) => v == w,
            (None, None) => true,
            _ => false,
        },
{
    let c = chars_of(s);
    let ghost body = if s@.len() > 0 && s@[0] == '+' {
        s@.drop_first()
    } else {
        s@
    };
    let start: usize = if c.len() > 0 && c[0] == '+' {
        1
    } else {
        0
    };
    assert(body =~= c@.subrange(start as int, c@.len() as int));
    if start >= c.len() {
        return None;
    }
    let mut v: usize = 0;
    let mut i: usize = start;
    while i < c.len()
        invariant
            c@ == s@,
            body == (if s@.len() > 0 && s@[0] == '+' {
                s@.drop_first()
            } else {
                s@
            }),
            body == c@.subrange(start as int, c@.len() as int),
            start <= i <= c@.len(),
            forall|t: int| start <= t < i ==> '0' <= #[trigger] c@[t] <= '9',
            v == digits_value(c@.subrange(start as int, i as int)),
        decreases c.len() - i,
    {
        let ch = c[i];
        if !('0' <= ch && ch <= '9') {
            assert(body[i - start] == ch);
            return None;
        }
        let d = (ch as u32 - 48) as usize;
        assert(c@.subrange(start as int, i + 1).drop_last() =~= c@.subrange(start as int, i as int));
        match v.checked_mul(10) {
            Some(m) => match m.checked_add(d) {
                Some(w) => {
                    v = w;
                },
                None => {
                    proof {
                        lemma_overflow_is_final(c@, start as int, i as int + 1);
                    }
                    return None;
                },
            },
            None => {
                proof {
                    lemma_overflow_is_final(c@, start as int, i as int + 1);
                }
                return None;
            },
        }
        i = i + 1;
    }
    assert(all_digits(body));
    Some(v)
}

/// A prefix of the digits already too large for a `usize` means the whole
/// number is, or the number is not all digits.
proof fn lemma_overflow_is_final(c: Seq<char>, start: int, j: int)
    requires
        0 <= start < j <= c.len(),
        digits_value(c.subrange(start, j)) > usize::MAX,
    ensures
        !(all_digits(c.subrange(start, c.len() as int)) && digits_value(c.subrange(start, c.len() as int))
            <= usize::MAX),
{
    let body = c.subrange(start, c.len() as int);
    if all_digits(body) {
        lemma_digits_value_grows(body, j - start);
        assert(body.subrange(0, j - start) =~= c.subrange(start, j));
    }
}

/// The first position of `c` among the first `n` characters of `s`.
pub open spec fn first_of(s: Seq<char>, c: char, n: int) -> Option<int>
    decreases n,
{
    if n <= 0 {
        None
    } else {
        match first_of(s, c, n - 1) {
            Some(i) => Some(i),
            None => if s[n - 1] == c {
                Some(n - 1)
            } else {
                None
            },
        }
    }
}

proof fn lemma_first_of_stays(s: Seq<char>, c: char, n: int, m: int)
    requires
        0 < n <= m,
        first_of(s, c, n) is Some,
    ensures
        first_of(s, c, m) == first_of(s, c, n),
    decreases m - n,
{
    if m > n {
        lemma_first_of_stays(s, c, n, m - 1);
    }
}

/// A character `char::is_whitespace` accepts: the Unicode White_Space set.
pub open spec fn is_white(c: char) -> bool {
    ||| '\t' <= c <= '\r'
    ||| c == ' '
    ||| c == '\u{85}'
    ||| c == '\u{A0}'
    ||| c == '\u{1680}'
    ||| '\u{2000}' <= c <= '\u{200A}'
    ||| c == '\u{2028}'
    ||| c == '\u{2029}'
    ||| c == '\u{202F}'
    ||| c == '\u{205F}'
    ||| c == '\u{3000}'
}

fn white(c: char) -> (b: bool)
    ensures
        b == is_white(c),
{
    ('\t' <= c && c <= '\r') || c == ' ' || c == '\u{85}' || c == '\u{A0}' || c == '\u{1680}' || (
    '\u{2000}' <= c && c <= '\u{200A}') || c == '\u{2028}' || c == '\u{2029}' || c == '\u{202F}'
        || c == '\u{205F}' || c == '\u{3000}'
}

/// `s` without the white space at its start.
pub open spec fn trim_start(s: Seq<char>) -> Seq<char>
    decreases s.len(),
{
    if s.len() > 0 && is_white(s[0]) {
        trim_start(s.drop_first())
    } else {
        s
    }
}

/// `s` without the white space at its end.
pub open spec fn trim_end(s: Seq<char>) -> Seq<char>
    decreases s.len(),
{
    if s.len() > 0 && is_white(s.last()) {
        trim_end(s.drop_last())
    } else {
        s
    }
}

/// `s` without the white space at either end (`str::trim`).
pub open spec fn trimmed(s: Seq<char>) -> Seq<char> {
    trim_end(trim_start(s))
}

/// The pieces of `s` between occurrences of `sep` (`str::split`): one more
/// piece than there are separators, empty ones included.
pub open spec fn split_on(s: Seq<char>, sep: char) -> Seq<Seq<char>>
    decreases s.len(),
{
    if s.len() == 0 {
        seq![seq![]]
    } else {
        let init = split_on(s.drop_last(), sep);
        if s.last() == sep {
            init.push(seq![])
        } else {
            init.update(init.len() - 1, init.last().push(s.last()))
        }
    }
}

proof fn lemma_split_on_nonempty(s: Seq<char>, sep: char)
    ensures
        split_on(s, sep).len() >= 1,
    decreases s.len(),
{
    if s.len() > 0 {
        lemma_split_on_nonempty(s.drop_last(), sep);
    }
}

/// A fresh string of the characters of `c` from `a` to `b`.
fn slice_string(c: &Vec<char>, a: usize, b: usize) -> (s: String)
    requires
        a <= b <= c@.len(),
    ensures
        s@ == c@.subrange(a as int, b as int),
{
    let mut v: Vec<char> = Vec::new();
    let mut i = a;
    while i < b
        invariant
            a <= i <= b <= c@.len(),
            v@ == c@.subrange(a as int, i as int),
        decreases b - i,
    {
        v.push(c[i]);
        i = i + 1;
        assert(v@ =~= c@.subrange(a as int, i as int));
    }
    from_chars(v.as_slice())
}

/// The characters of `c` from `a` to `b`, without surrounding white space.
pub fn trim(c: &Vec<char>, a: usize, b: usize) -> (s: String)
    requires
        a <= b <= c@.len(),
    ensures
        s@ == trimmed(c@.subrange(a as int, b as int)),
{
    let mut lo = a;
    while lo < b && white(c[lo])
        invariant
            a <= lo <= b <= c@.len(),
            trim_start(c@.subrange(a as int, b as int)) == trim_start(c@.subrange(lo as int, b as int)),
        decreases b - lo,
    {
        assert(c@.subrange(lo as int, b as int).drop_first() =~= c@.subrange(lo + 1, b as int));
        lo = lo + 1;
    }
    assert(trim_start(c@.subrange(lo as int, b as int)) == c@.subrange(lo as int, b as int));
    let mut hi = b;
    while hi > lo && white(c[hi - 1])
        invariant
            a <= lo <= hi <= b <= c@.len(),
            trim_end(c@.subrange(lo as int, b as int)) == trim_end(c@.subrange(lo as int, hi as int)),
        decreases hi - lo,
    {
        assert(c@.subrange(lo as int, hi as int).drop_last() =~= c@.subrange(lo as int, hi - 1));
        hi = hi - 1;
    }
    slice_string(c, lo, hi)
}

/// What the flags of `run` have said so far.
pub struct RunDraft {
    pub candidate: Option<Seq<char>>,
    pub label: Option<Seq<char>>,
    pub corpus: Option<Seq<char>>,
    pub judge: Option<Seq<char>>,
    pub config: Seq<char>,
    pub k: nat,
    pub out: Option<Seq<char>>,
}

pub open spec fn expects_value_message(flag: Seq<char>) -> Seq<char> {
    flag + " expects a value"@
}

pub open spec fn unknown_flag_message(flag: Seq<char>) -> Seq<char> {
    "unknown flag `"@ + flag + "`\n"@ + USAGE@
}

pub open spec fn is_run_flag(f: Seq<char>) -> bool {
    ||| f == "--candidate"@
    ||| f == "--corpus"@
    ||| f == "--label"@
    ||| f == "--judge"@
    ||| f == "--config"@
    ||| f == "--out"@
    ||| f == "--k"@
}

/// The flags of `run` from position `i` on, applied to `d`, or the first
/// refusal among them. Flags come in pairs: a name, then its value.
pub open spec fn run_fold(args: Seq<Seq<char>>, i: nat, d: RunDraft) -> Result<RunDraft, Seq<char>>
    decreases args.len() - i,
{
    if i >= args.len() {
        Ok(d)
    } else {
        let f = args[i as int];
        if !is_run_flag(f) {
            Err(unknown_flag_message(f))
        } else if i + 1 >= args.len() {
            Err(expects_value_message(f))
        } else {
            let v = args[i + 1 as int];
            if f == "--k"@ {
                match parsed_usize(v) {
                    None => Err("--k wants a number"@),
                    Some(k) => run_fold(args, i + 2, RunDraft { k, ..d }),
                }
            } else {
                run_fold(
                    args,
                    i + 2,
                    if f == "--candidate"@ {
                        RunDraft { candidate: Some(v), ..d }
                    } else if f == "--corpus"@ {
                        RunDraft { corpus: Some(v), ..d }
                    } else if f == "--label"@ {
                        RunDraft { label: Some(v), ..d }
                    } else if f == "--judge"@ {
                        RunDraft { judge: Some(v), ..d }
                    } else if f == "--config"@ {
                        RunDraft { config: v, ..d }
                    } else {
                        RunDraft { out: Some(v), ..d }
                    },
                )
            }
        }
    }
}

pub open spec fn run_start() -> RunDraft {
    RunDraft {
        candidate: None,
        label: None,
        corpus: None,
        judge: None,
        config: DEFAULT_CONFIG@,
        k: DEFAULT_K as nat,
        out: None,
    }
}

pub open spec fn missing_label_message() -> Seq<char> {
    "run needs --label TEXT, saying WHICH version this measures (a commit, a model name, a row count). Nothing else can tell two records apart"@
}

/// What `run` makes of its arguments: every flag read, then the ones it
/// cannot do without checked, in this order.
pub open spec fn run_args_of(args: Seq<Seq<char>>) -> Result<RunDraft, Seq<char>> {
    match run_fold(args, 0, run_start()) {
        Err(e) => Err(e),
        Ok(d) => if d.candidate is None {
            Err("run needs --candidate NAME"@)
        } else if d.corpus is None {
            Err("run needs --corpus FILE"@)
        } else if d.label is None {
            Err(missing_label_message())
        } else if d.k == 0 {
            Err("--k 0 would ask for no result at all"@)
        } else {
            Ok(d)
        },
    }
}

/// The value after the last occurrence of `flag` among the flag positions
/// `i`, `i + 2`, ... of `args`, if it occurs there with a value.
pub open spec fn last_value(args: Seq<Seq<char>>, flag: Seq<char>, i: nat) -> Option<Seq<char>>
    decreases args.len() + 2 - i,
{
    if i >= args.len() {
        None
    } else {
        match last_value(args, flag, i + 2) {
            Some(v) => Some(v),
            None => if args[i as int] == flag && i + 1 < args.len() {
                Some(args[i + 1 as int])
            } else {
                None
            },
        }
    }
}

pub open spec fn or_else(o: Option<Seq<char>>, d: Seq<char>) -> Seq<char> {
    match o {
        Some(v) => v,
        None => d,
    }
}

pub open spec fn or_keep(o: Option<Seq<char>>, d: Option<Seq<char>>) -> Option<Seq<char>> {
    match o {
        Some(v) => Some(v),
        None => d,
    }
}

/// From position `i` on, the arguments of `run` come in pairs: a flag `run`
/// knows, then its value; and every value of `--k` is a number.
pub open spec fn run_pairs_ok(args: Seq<Seq<char>>, i: nat) -> bool
    decreases args.len() - i,
{
    if i >= args.len() {
        true
    } else {
        &&& is_run_flag(args[i as int])
        &&& i + 1 < args.len()
        &&& (args[i as int] == "--k"@ ==> parsed_usize(args[i + 1 as int]) is Some)
        &&& run_pairs_ok(args, i + 2)
    }
}

/// The draft `d` with each field taken from the last occurrence of its flag
/// from position `i` on, where there is one.
pub open spec fn run_applied(args: Seq<Seq<char>>, i: nat, d: RunDraft) -> RunDraft {
    RunDraft {
        candidate: or_keep(last_value(args, "--candidate"@, i), d.candidate),
        label: or_keep(last_value(args, "--label"@, i), d.label),
        corpus: or_keep(last_value(args, "--corpus"@, i), d.corpus),
        judge: or_keep(last_value(args, "--judge"@, i), d.judge),
        config: or_else(last_value(args, "--config"@, i), d.config),
        k: match last_value(args, "--k"@, i) {
            Some(v) => parsed_usize(v)->0,
            None => d.k,
        },
        out: or_keep(last_value(args, "--out"@, i), d.out),
    }
}

/// The flags of `run` are seven different words.
proof fn lemma_run_flags_differ()
    ensures
        "--candidate"@ != "--corpus"@,
        "--candidate"@ != "--label"@,
        "--candidate"@ != "--judge"@,
        "--candidate"@ != "--config"@,
        "--candidate"@ != "--out"@,
        "--candidate"@ != "--k"@,
        "--corpus"@ != "--label"@,
        "--corpus"@ != "--judge"@,
        "--corpus"@ != "--config"@,
        "--corpus"@ != "--out"@,
        "--corpus"@ != "--k"@,
        "--label"@ != "--judge"@,
        "--label"@ != "--config"@,
        "--label"@ != "--out"@,
        "--label"@ != "--k"@,
        "--judge"@ != "--config"@,
        "--judge"@ != "--out"@,
        "--judge"@ != "--k"@,
        "--config"@ != "--out"@,
        "--config"@ != "--k"@,
        "--out"@ != "--k"@,
{
    reveal_strlit("--candidate");
    reveal_strlit("--corpus");
    reveal_strlit("--label");
    reveal_strlit("--judge");
    reveal_strlit("--config");
    reveal_strlit("--out");
    reveal_strlit("--k");
    assert("--candidate"@.len() == 11);
    assert("--corpus"@.len() == 8);
    assert("--label"@.len() == 7);
    assert("--judge"@.len() == 7);
    assert("--config"@.len() == 8);
    assert("--out"@.len() == 5);
    assert("--k"@.len() == 3);
    assert("--corpus"@[4] != "--config"@[4]);
    assert("--label"@[2] != "--judge"@[2]);
}

proof fn lemma_run_fold(args: Seq<Seq<char>>, i: nat, d: RunDraft)
    requires
        run_pairs_ok(args, i),
    ensures
        run_fold(args, i, d) == Ok::<RunDraft, Seq<char>>(run_applied(args, i, d)),
    decreases args.len() - i,
{
    if i < args.len() {
        let f = args[i as int];
        let v = args[i + 1 as int];
        let d2 = if f == "--k"@ {
            RunDraft { k: parsed_usize(v)->0, ..d }
        } else if f == "--candidate"@ {
            RunDraft { candidate: Some(v), ..d }
        } else if f == "--corpus"@ {
            RunDraft { corpus: Some(v), ..d }
        } else if f == "--label"@ {
            RunDraft { label: Some(v), ..d }
        } else if f == "--judge"@ {
            RunDraft { judge: Some(v), ..d }
        } else if f == "--config"@ {
            RunDraft { config: v, ..d }
        } else {
            RunDraft { out: Some(v), ..d }
        };
        lemma_run_fold(args, i + 2, d2);
        assert(run_fold(args, i, d) == run_fold(args, i + 2, d2));
        lemma_run_flags_differ();
        let a = run_applied(args, i + 2, d2);
        let b = run_applied(args, i, d);
        assert(a.candidate == b.candidate);
        assert(a.label == b.label);
        assert(a.corpus == b.corpus);
        assert(a.judge == b.judge);
        assert(a.config == b.config);
        assert(a.k == b.k);
        assert(a.out == b.out);
    }
}

proof fn lemma_run_fold_refuses(args: Seq<Seq<char>>, i: nat, d: RunDraft)
    requires
        !run_pairs_ok(args, i),
    ensures
        run_fold(args, i, d) is Err,
    decreases args.len() - i,
{
    if i < args.len() {
        let f = args[i as int];
        if is_run_flag(f) && i + 1 < args.len() && (f == "--k"@ ==> parsed_usize(args[i + 1 as int]) is Some) {
            let v = args[i + 1 as int];
            let d2 = if f == "--k"@ {
                RunDraft { k: parsed_usize(v)->0, ..d }
            } else if f == "--candidate"@ {
                RunDraft { candidate: Some(v), ..d }
            } else if f == "--corpus"@ {
                RunDraft { corpus: Some(v), ..d }
            } else if f == "--label"@ {
                RunDraft { label: Some(v), ..d }
            } else if f == "--judge"@ {
                RunDraft { judge: Some(v), ..d }
            } else if f == "--config"@ {
                RunDraft { config: v, ..d }
            } else {
                RunDraft { out: Some(v), ..d }
            };
            lemma_run_fold_refuses(args, i + 2, d2);
            assert(run_fold(args, i, d) == run_fold(args, i + 2, d2));
        }
    }
}

/// The pairs are well made exactly when there is an even number of
/// arguments, each at an even position is a flag `run` knows, and each
/// value of `--k` is a number.
proof fn lemma_run_pairs_closed(args: Seq<Seq<char>>, i: nat)
    requires
        i % 2 == 0,
    ensures
        run_pairs_ok(args, i) <==> ((i >= args.len() || args.len() % 2 == 0) && forall|j: int|
            i <= j < args.len() && j % 2 == 0 ==> is_run_flag(#[trigger] args[j]) && (args[j] == "--k"@
                ==> parsed_usize(args[j + 1]) is Some)),
    decreases args.len() + 2 - i,
{
    if i < args.len() {
        lemma_run_pairs_closed(args, i + 2);
    }
}

/// What `run` makes of its arguments, in closed form: they are accepted
/// exactly when they come in pairs of a known flag and its value (so there
/// is an even number of them), every `--k` value is a number, `--candidate`,
/// `--corpus` and `--label` each occur, and the number of results asked for
/// is not zero. Then each field holds the value after the last occurrence
/// of its flag, or its default: `askable.toml` for the configuration, ten
/// results, no reference record, no output file.
pub proof fn law_run_arguments_in_closed_form(args: Seq<Seq<char>>)
    ensures
        run_args_of(args) is Ok <==> {
            &&& args.len() % 2 == 0
            &&& forall|j: int|
                0 <= j < args.len() && j % 2 == 0 ==> is_run_flag(#[trigger] args[j]) && (args[j] == "--k"@
                    ==> parsed_usize(args[j + 1]) is Some)
            &&& last_value(args, "--candidate"@, 0) is Some
            &&& last_value(args, "--corpus"@, 0) is Some
            &&& last_value(args, "--label"@, 0) is Some
            &&& run_applied(args, 0, run_start()).k != 0
        },
        run_args_of(args) is Ok ==> run_args_of(args) == Ok::<RunDraft, Seq<char>>(
            run_applied(args, 0, run_start()),
        ),
{
    lemma_run_pairs_closed(args, 0);
    if run_pairs_ok(args, 0) {
        lemma_run_fold(args, 0, run_start());
    } else {
        lemma_run_fold_refuses(args, 0, run_start());
    }
}

pub open spec fn opt_view(o: Option<String>) -> Option<Seq<char>> {
    match o {
        Some(s) => Some(s@),
        None => None,
    }
}

#[derive(Debug)]
pub struct RunArgs {
    pub candidate: String,
    pub label: String,
    /// A reference record to judge against as soon as the replay is done.
    pub judge: Option<String>,
    pub corpus: String,
    pub config: String,
    pub k: usize,
    pub out: Option<String>,
}

impl RunArgs {
    /// The arguments, as the draft they complete.
    pub open spec fn draft(self) -> RunDraft {
        RunDraft {
            candidate: Some(self.candidate@),
            label: Some(self.label@),
            corpus: Some(self.corpus@),
            judge: opt_view(self.judge),
            config: self.config@,
            k: self.k as nat,
            out: opt_view(self.out),
        }
    }
}

fn is(a: &String, lit: &str) -> (b: bool)
    ensures
        b == (a@ == lit@),
{
    let o = owned(lit);
    *a == o
}

fn clone_opt(o: &Option<String>) -> (r: Option<String>)
    ensures
        opt_view(r) == opt_view(*o),
{
    match o {
        Some(s) => Some(s.clone()),
        None => None,
    }
}

fn expects_value(flag: &String) -> (e: String)
    ensures
        e@ == expects_value_message(flag@),
{
    let mut e = flag.clone();
    append(&mut e, " expects a value");
    e
}

fn unknown_flag(flag: &String) -> (e: String)
    ensures
        e@ == unknown_flag_message(flag@),
{
    let mut e = owned("unknown flag `");
    append(&mut e, flag.as_str());
    append(&mut e, "`\n");
    append(&mut e, USAGE);
    e
}

/// Reads the arguments of `run`.
pub fn run_args(args: &[String]) -> (r: Result<RunArgs, String>)
    ensures
        match (r, run_args_of(args.deep_view())) {
            (Ok(a), Ok(d)) => a.draft() == d,
            (Err(e), Err(m)) => e@ == m,
            _ => false,
        },
{
    let ghost av = args.deep_view();
    let mut candidate: Option<String> = None;
    let mut label: Option<String> = None;
    let mut corpus: Option<String> = None;
    let mut judge: Option<String> = None;
    let mut config: String = owned(DEFAULT_CONFIG);
    let mut k: usize = DEFAULT_K;
    let mut out: Option<String> = None;
    let mut i: usize = 0;
    while i < args.len()
        invariant
            av == args.deep_view(),
            i <= args@.len() + 1,
            run_fold(av, i as nat, RunDraft {
                candidate: opt_view(candidate),
                label: opt_view(label),
                corpus: opt_view(corpus),
                judge: opt_view(judge),
                config: config@,
                k: k as nat,
                out: opt_view(out),
            }) == run_fold(av, 0, run_start()),
        decreases args.len() - i,
    {
        let f = &args[i];
        assert(av[i as int] == f@);
        let known = is(f, "--candidate") || is(f, "--corpus") || is(f, "--label") || is(f, "--judge")
            || is(f, "--config") || is(f, "--out") || is(f, "--k");
        if !known {
            return Err(unknown_flag(f));
        }
        if i + 1 >= args.len() {
            return Err(expects_value(f));
        }
        let v = &args[i + 1];
        assert(av[i + 1] == v@);
        if is(f, "--k") {
            match parse_usize(v.as_str()) {
                Some(n) => {
                    k = n;
                },
                None => {
                    return Err(owned("--k wants a number"));
                },
            }
        } else if is(f, "--candidate") {
            candidate = Some(v.clone());
        } else if is(f, "--corpus") {
            corpus = Some(v.clone());
        } else if is(f, "--label") {
            label = Some(v.clone());
        } else if is(f, "--judge") {
            judge = Some(v.clone());
        } else if is(f, "--config") {
            config = v.clone();
        } else {
            out = Some(v.clone());
        }
        i = i + 2;
    }
    let candidate = match candidate {
        Some(c) => c,
        None => {
            return Err(owned("run needs --candidate NAME"));
        },
    };
    let corpus = match corpus {
        Some(c) => c,
        None => {
            return Err(owned("run needs --corpus FILE"));
        },
    };
    let label = match label {
        Some(l) => l,
        None => {
            return Err(
                owned(
                    "run needs --label TEXT, saying WHICH version this measures (a commit, a model name, a row count). Nothing else can tell two records apart",
                ),
            );
        },
    };
    if k == 0 {
        return Err(owned("--k 0 would ask for no result at all"));
    }
    Ok(RunArgs { candidate, label, judge, corpus, config, k, out })
}

/// What the flags of `tail` have said so far.
pub struct TailDraft {
    pub filters: Seq<(Seq<char>, Seq<char>)>,
    pub columns: Seq<Seq<char>>,
    pub last: nat,
}

pub open spec fn is_tail_flag(f: Seq<char>) -> bool {
    f == "--match"@ || f == "--show"@ || f == "--last"@
}

pub open spec fn not_key_value_message(kv: Seq<char>) -> Seq<char> {
    "--match wants key=value, got `"@ + kv + "`"@
}

/// The column names of a `--show` value: split on commas, each trimmed.
pub open spec fn shown_columns(v: Seq<char>) -> Seq<Seq<char>> {
    split_on(v, ',').map_values(|p: Seq<char>| trimmed(p))
}

/// The flags of `tail` from position `i` on, applied to `d`, or the first
/// refusal among them.
pub open spec fn tail_fold(args: Seq<Seq<char>>, i: nat, d: TailDraft) -> Result<TailDraft, Seq<char>>
    decreases args.len() - i,
{
    if i >= args.len() {
        Ok(d)
    } else {
        let f = args[i as int];
        if !is_tail_flag(f) {
            Err(unknown_flag_message(f))
        } else if i + 1 >= args.len() {
            Err(expects_value_message(f))
        } else {
            let v = args[i + 1 as int];
            if f == "--match"@ {
                match first_of(v, '=', v.len() as int) {
                    None => Err(not_key_value_message(v)),
                    Some(e) => tail_fold(
                        args,
                        i + 2,
                        TailDraft {
                            filters: d.filters.push((v.subrange(0, e), v.subrange(e + 1, v.len() as int))),
                            ..d
                        },
                    ),
                }
            } else if f == "--show"@ {
                tail_fold(args, i + 2, TailDraft { columns: shown_columns(v), ..d })
            } else {
                match parsed_usize(v) {
                    None => Err("--last wants a number"@),
                    Some(n) => tail_fold(args, i + 2, TailDraft { last: n, ..d }),
                }
            }
        }
    }
}

pub open spec fn tail_start() -> TailDraft {
    TailDraft { filters: seq![], columns: seq![], last: DEFAULT_LAST as nat }
}

/// From position `i` on, the arguments of `tail` come in pairs: a flag
/// `tail` knows, then its value; every `--match` value holds a `=`, and
/// every `--last` value is a number.
pub open spec fn tail_pairs_ok(args: Seq<Seq<char>>, i: nat) -> bool
    decreases args.len() + 2 - i,
{
    if i >= args.len() {
        true
    } else {
        &&& is_tail_flag(args[i as int])
        &&& i + 1 < args.len()
        &&& (args[i as int] == "--match"@ ==> first_of(
            args[i + 1 as int],
            '=',
            args[i + 1 as int].len() as int,
        ) is Some)
        &&& (args[i as int] == "--last"@ ==> parsed_usize(args[i + 1 as int]) is Some)
        &&& tail_pairs_ok(args, i + 2)
    }
}

/// A `key=value` split at its first `=`.
pub open spec fn split_at_equals(v: Seq<char>) -> (Seq<char>, Seq<char>) {
    let e = first_of(v, '=', v.len() as int)->0;
    (v.subrange(0, e), v.subrange(e + 1, v.len() as int))
}

/// Every `--match` value from position `i` on, split at its first `=`, in
/// order.
pub open spec fn match_filters(args: Seq<Seq<char>>, i: nat) -> Seq<(Seq<char>, Seq<char>)>
    decreases args.len() + 2 - i,
{
    if i >= args.len() {
        seq![]
    } else {
        (if args[i as int] == "--match"@ && i + 1 < args.len() {
            seq![split_at_equals(args[i + 1 as int])]
        } else {
            seq![]
        }) + match_filters(args, i + 2)
    }
}

/// The draft `d` with every filter from position `i` on added in order,
/// and the columns and the count taken from the last `--show` and the last
/// `--last`, where there is one.
pub open spec fn tail_applied(args: Seq<Seq<char>>, i: nat, d: TailDraft) -> TailDraft {
    TailDraft {
        filters: d.filters + match_filters(args, i),
        columns: match last_value(args, "--show"@, i) {
            Some(v) => shown_columns(v),
            None => d.columns,
        },
        last: match last_value(args, "--last"@, i) {
            Some(v) => parsed_usize(v)->0,
            None => d.last,
        },
    }
}

/// The flags of `tail` are three different words.
proof fn lemma_tail_flags_differ()
    ensures
        "--match"@ != "--show"@,
        "--match"@ != "--last"@,
        "--show"@ != "--last"@,
{
    reveal_strlit("--match");
    reveal_strlit("--show");
    reveal_strlit("--last");
    assert("--match"@.len() == 7);
    assert("--show"@.len() == 6);
    assert("--last"@.len() == 6);
    assert("--show"@[2] != "--last"@[2]);
}

proof fn lemma_tail_fold(args: Seq<Seq<char>>, i: nat, d: TailDraft)
    ensures
        tail_pairs_ok(args, i) ==> tail_fold(args, i, d) == Ok::<TailDraft, Seq<char>>(tail_applied(args, i, d)),
        !tail_pairs_ok(args, i) ==> tail_fold(args, i, d) is Err,
    decreases args.len() + 2 - i,
{
    if i < args.len() {
        let f = args[i as int];
        lemma_tail_flags_differ();
        if is_tail_flag(f) && i + 1 < args.len() {
            let v = args[i + 1 as int];
            if f == "--match"@ {
                match first_of(v, '=', v.len() as int) {
                    None => {},
                    Some(e) => {
                        let d2 = TailDraft {
                            filters: d.filters.push((v.subrange(0, e), v.subrange(e + 1, v.len() as int))),
                            ..d
                        };
                        lemma_tail_fold(args, i + 2, d2);
                        assert(d2.filters + match_filters(args, i + 2) =~= d.filters + match_filters(args, i));
                    },
                }
            } else if f == "--show"@ {
                let d2 = TailDraft { columns: shown_columns(v), ..d };
                lemma_tail_fold(args, i + 2, d2);
                assert(d2.filters + match_filters(args, i + 2) =~= d.filters + match_filters(args, i));
            } else {
                match parsed_usize(v) {
                    None => {},
                    Some(n) => {
                        let d2 = TailDraft { last: n, ..d };
                        lemma_tail_fold(args, i + 2, d2);
                        assert(d2.filters + match_filters(args, i + 2) =~= d.filters + match_filters(args, i));
                    },
                }
            }
        }
    } else {
        assert(d.filters + match_filters(args, i) =~= d.filters);
    }
}

proof fn lemma_tail_pairs_closed(args: Seq<Seq<char>>, i: nat)
    requires
        i % 2 == 0,
    ensures
        tail_pairs_ok(args, i) <==> ((i >= args.len() || args.len() % 2 == 0) && forall|j: int|
            i <= j < args.len() && j % 2 == 0 ==> is_tail_flag(#[trigger] args[j]) && (args[j] == "--match"@
                ==> first_of(args[j + 1], '=', args[j + 1].len() as int) is Some) && (args[j] == "--last"@
                ==> parsed_usize(args[j + 1]) is Some)),
    decreases args.len() + 2 - i,
{
    if i < args.len() {
        lemma_tail_pairs_closed(args, i + 2);
    }
}

/// What `tail` makes of its arguments, in closed form: they are accepted
/// exactly when there is an even number of them, each at an even position
/// is `--match`, `--show` or `--last`, every `--match` value holds a `=`
/// and every `--last` value is a number. Then the filters are every
/// `--match` value split at its first `=`, in order; the columns those of
/// the last `--show` (none without one); the count that of the last
/// `--last` (twenty without one).
pub proof fn law_tail_arguments_in_closed_form(args: Seq<Seq<char>>)
    ensures
        tail_fold(args, 0, tail_start()) is Ok <==> {
            &&& args.len() % 2 == 0
            &&& forall|j: int|
                0 <= j < args.len() && j % 2 == 0 ==> is_tail_flag(#[trigger] args[j]) && (args[j]
                    == "--match"@ ==> first_of(args[j + 1], '=', args[j + 1].len() as int) is Some) && (args[j]
                    == "--last"@ ==> parsed_usize(args[j + 1]) is Some)
        },
        tail_fold(args, 0, tail_start()) is Ok ==> tail_fold(args, 0, tail_start()) == Ok::<TailDraft, Seq<char>>(
            TailDraft {
                filters: match_filters(args, 0),
                columns: match last_value(args, "--show"@, 0) {
                    Some(v) => shown_columns(v),
                    None => seq![],
                },
                last: match last_value(args, "--last"@, 0) {
                    Some(v) => parsed_usize(v)->0,
                    None => DEFAULT_LAST as nat,
                },
            },
        ),
{
    lemma_tail_pairs_closed(args, 0);
    lemma_tail_fold(args, 0, tail_start());
    assert(tail_start().filters + match_filters(args, 0) =~= match_filters(args, 0));
}

#[derive(Debug)]
pub struct TailArgs {
    /// Only events whose field `k` holds `v`, for every `(k, v)`.
    pub filters: Vec<(String, String)>,
    /// The columns to show; empty means every field seen.
    pub columns: Vec<String>,
    /// How many of the last matching events to show.
    pub last: usize,
}

pub open spec fn pairs_view(v: Seq<(String, String)>) -> Seq<(Seq<char>, Seq<char>)> {
    v.map_values(|p: (String, String)| (p.0@, p.1@))
}

impl TailArgs {
    pub open spec fn draft(self) -> TailDraft {
        TailDraft {
            filters: pairs_view(self.filters@),
            columns: self.columns.deep_view(),
            last: self.last as nat,
        }
    }
}

/// The first `=` of `c`, if any.
fn find_equals(c: &Vec<char>) -> (r: Option<usize>)
    ensures
        match r {
            Some(e) => first_of(c@, '=', c@.len() as int) == Some(e as int) && e < c@.len(),
            None => first_of(c@, '=', c@.len() as int) is None,
        },
{
    let mut i: usize = 0;
    while i < c.len()
        invariant
            i <= c@.len(),
            first_of(c@, '=', i as int) is None,
        decreases c.len() - i,
    {
        if c[i] == '=' {
            proof {
                lemma_first_of_stays(c@, '=', i + 1, c@.len() as int);
            }
            return Some(i);
        }
        i = i + 1;
    }
    None
}

/// The column names of a `--show` value.
fn columns_of(v: &String) -> (cols: Vec<String>)
    ensures
        cols.deep_view() == shown_columns(v@),
{
    let c = chars_of(v.as_str());
    let mut cols: Vec<String> = Vec::new();
    let ghost mut done: Seq<Seq<char>> = seq![];
    let mut start: usize = 0;
    let mut i: usize = 0;
    assert(c@.subrange(0, 0) =~= Seq::<char>::empty());
    assert(split_on(c@.subrange(0, 0), ',') =~= done.push(c@.subrange(0, 0)));
    assert(cols.deep_view() =~= done.map_values(|p: Seq<char>| trimmed(p)));
    while i < c.len()
        invariant
            c@ == v@,
            start <= i <= c@.len(),
            split_on(c@.subrange(0, i as int), ',') == done.push(c@.subrange(start as int, i as int)),
            cols.deep_view() == done.map_values(|p: Seq<char>| trimmed(p)),
        decreases c.len() - i,
    {
        let ghost prefix = c@.subrange(0, i + 1);
        proof {
            assert(prefix.drop_last() =~= c@.subrange(0, i as int));
            assert(prefix.last() == c@[i as int]);
        }
        if c[i] == ',' {
            let t = trim(&c, start, i);
            let ghost dv = cols.deep_view();
            let ghost piece = c@.subrange(start as int, i as int);
            cols.push(t);
            assert(cols.deep_view() =~= dv.push(t@));
            proof {
                assert(done.push(piece).map_values(|p: Seq<char>| trimmed(p)) =~= done.map_values(
                    |p: Seq<char>| trimmed(p),
                ).push(trimmed(piece)));
                done = done.push(piece);
            }
            start = i + 1;
            i = i + 1;
            assert(c@.subrange(start as int, i as int) =~= Seq::<char>::empty());
            assert(split_on(prefix, ',') =~= done.push(c@.subrange(start as int, i as int)));
        } else {
            i = i + 1;
            assert(c@.subrange(start as int, i as int) =~= c@.subrange(start as int, i - 1).push(c@[i - 1]));
            assert(split_on(prefix, ',') =~= done.push(c@.subrange(start as int, i as int)));
        }
    }
    let t = trim(&c, start, c.len());
    let ghost dv = cols.deep_view();
    let ghost piece = c@.subrange(start as int, c@.len() as int);
    cols.push(t);
    assert(cols.deep_view() =~= dv.push(t@));
    proof {
        assert(c@.subrange(0, c@.len() as int) =~= c@);
        assert(done.push(piece).map_values(|p: Seq<char>| trimmed(p)) =~= done.map_values(
            |p: Seq<char>| trimmed(p),
        ).push(trimmed(piece)));
        done = done.push(piece);
    }
    cols
}

/// Reads the arguments of `tail`.
pub fn tail_args(args: &[String]) -> (r: Result<TailArgs, String>)
    ensures
        match (r, tail_fold(args.deep_view(), 0, tail_start())) {
            (Ok(a), Ok(d)) => a.draft() == d,
            (Err(e), Err(m)) => e@ == m,
            _ => false,
        },
{
    let ghost av = args.deep_view();
    let mut filters: Vec<(String, String)> = Vec::new();
    let mut columns: Vec<String> = Vec::new();
    let mut last: usize = DEFAULT_LAST;
    let mut i: usize = 0;
    assert(pairs_view(filters@) =~= Seq::<(Seq<char>, Seq<char>)>::empty());
    assert(columns.deep_view() =~= Seq::<Seq<char>>::empty());
    while i < args.len()
        invariant
            av == args.deep_view(),
            i <= args@.len() + 1,
            tail_fold(av, i as nat, TailDraft {
                filters: pairs_view(filters@),
                columns: columns.deep_view(),
                last: last as nat,
            }) == tail_fold(av, 0, tail_start()),
        decreases args.len() - i,
    {
        let f = &args[i];
        assert(av[i as int] == f@);
        let known = is(f, "--match") || is(f, "--show") || is(f, "--last");
        if !known {
            return Err(unknown_flag(f));
        }
        if i + 1 >= args.len() {
            return Err(expects_value(f));
        }
        let v = &args[i + 1];
        assert(av[i + 1 as int] == v@);
        if is(f, "--match") {
            let c = chars_of(v.as_str());
            match find_equals(&c) {
                None => {
                    let mut e = owned("--match wants key=value, got `");
                    append(&mut e, v.as_str());
                    append(&mut e, "`");
                    return Err(e);
                },
                Some(eq) => {
                    let key = slice_string(&c, 0, eq);
                    let value = slice_string(&c, eq + 1, c.len());
                    let ghost before = pairs_view(filters@);
                    filters.push((key, value));
                    assert(pairs_view(filters@) =~= before.push(
                        (v@.subrange(0, eq as int), v@.subrange(eq + 1, v@.len() as int)),
                    ));
                },
            }
        } else if is(f, "--show") {
            columns = columns_of(v);
        } else {
            match parse_usize(v.as_str()) {
                Some(n) => {
                    last = n;
                },
                None => {
                    return Err(owned("--last wants a number"));
                },
            }
        }
        i = i + 2;
    }
    Ok(TailArgs { filters, columns, last })
}

/// What the arguments of `judge` have said so far: the record files named,
/// in order, and the configuration file.
pub struct JudgeDraft {
    pub files: Seq<Seq<char>>,
    pub config: Seq<char>,
}

/// An argument that looks like a flag: it starts with two dashes.
pub open spec fn is_flag_like(f: Seq<char>) -> bool {
    f.len() >= 2 && f[0] == '-' && f[1] == '-'
}

/// The arguments of `judge` from position `i` on, applied to `d`, or the
/// first refusal among them. `--config` takes the next argument as its
/// value; any other argument is a record file.
pub open spec fn judge_fold(args: Seq<Seq<char>>, i: nat, d: JudgeDraft) -> Result<JudgeDraft, Seq<char>>
    decreases args.len() - i,
{
    if i >= args.len() {
        Ok(d)
    } else {
        let f = args[i as int];
        if f == "--config"@ {
            if i + 1 >= args.len() {
                Err("--config expects a value"@)
            } else {
                judge_fold(args, i + 2, JudgeDraft { config: args[i + 1 as int], ..d })
            }
        } else if is_flag_like(f) {
            Err(unknown_flag_message(f))
        } else {
            judge_fold(args, i + 1, JudgeDraft { files: d.files.push(f), ..d })
        }
    }
}

pub open spec fn judge_start() -> JudgeDraft {
    JudgeDraft { files: seq![], config: DEFAULT_CONFIG@ }
}

pub open spec fn wrong_count_message(n: nat) -> Seq<char> {
    "judge wants two records, got "@ + decimal(n) + "\n"@ + USAGE@
}

/// What `judge` makes of its arguments: every argument read, then exactly
/// two record files asked for.
pub open spec fn judge_args_of(args: Seq<Seq<char>>) -> Result<JudgeDraft, Seq<char>> {
    match judge_fold(args, 0, judge_start()) {
        Err(e) => Err(e),
        Ok(d) => if d.files.len() == 2 {
            Ok(d)
        } else {
            Err(wrong_count_message(d.files.len()))
        },
    }
}

#[derive(Debug)]
pub struct JudgeArgs {
    /// The record judged against.
    pub reference: String,
    /// The record judged.
    pub candidate: String,
    pub config: String,
}

impl JudgeArgs {
    pub open spec fn draft(self) -> JudgeDraft {
        JudgeDraft { files: seq![self.reference@, self.candidate@], config: self.config@ }
    }
}

fn flag_like(f: &String) -> (b: bool)
    ensures
        b == is_flag_like(f@),
{
    let c = chars_of(f.as_str());
    c.len() >= 2 && c[0] == '-' && c[1] == '-'
}

/// Reads the arguments of `judge`: two record files, and perhaps
/// `--config FILE`, in any order.
pub fn judge_args(args: &[String]) -> (r: Result<JudgeArgs, String>)
    ensures
        match (r, judge_args_of(args.deep_view())) {
            (Ok(a), Ok(d)) => a.draft() == d,
            (Err(e), Err(m)) => e@ == m,
            _ => false,
        },
{
    let ghost av = args.deep_view();
    let mut files: Vec<String> = Vec::new();
    let mut config: String = owned(DEFAULT_CONFIG);
    let mut i: usize = 0;
    assert(files.deep_view() =~= Seq::<Seq<char>>::empty());
    while i < args.len()
        invariant
            av == args.deep_view(),
            i <= args@.len(),
            judge_fold(av, i as nat, JudgeDraft { files: files.deep_view(), config: config@ })
                == judge_fold(av, 0, judge_start()),
        decreases args.len() - i,
    {
        let f = &args[i];
        assert(av[i as int] == f@);
        if is(f, "--config") {
            if i + 1 >= args.len() {
                return Err(owned("--config expects a value"));
            }
            config = args[i + 1].clone();
            assert(av[i + 1 as int] == config@);
            i = i + 2;
        } else if flag_like(f) {
            return Err(unknown_flag(f));
        } else {
            let ghost before = files.deep_view();
            files.push(f.clone());
            assert(files.deep_view() =~= before.push(f@));
            i = i + 1;
        }
    }
    if files.len() != 2 {
        let mut e = owned("judge wants two records, got ");
        push_decimal(&mut e, files.len() as u64);
        append(&mut e, "\n");
        append(&mut e, USAGE);
        return Err(e);
    }
    let ghost fs = files@;
    let ghost fv = files.deep_view();
    assert(fv[0] == fs[0]@ && fv[1] == fs[1]@);
    let candidate = files.pop().unwrap();
    let reference = files.pop().unwrap();
    assert(seq![reference@, candidate@] =~= fv);
    Ok(JudgeArgs { reference, candidate, config })
}

} // verus!
