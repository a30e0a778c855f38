use vstd::prelude::*;

verus! {

/// The command line, as the log-storing program takes it. `get_args`
/// fills it from the raw arguments; the caller turns it into a logger
/// configuration.
#[derive(Debug)]
pub struct CLIArgs {
    /// Value of `-r`/`--rotate`: rotate the log file at this
    /// human-readable size.
    pub rotate: Option<String>,
    /// Value of `-c`/`--count`: the max count of log files.
    pub count: Option<usize>,
    /// `--compress`: compress the rotated log files.
    pub compress: bool,
    /// `--err`: re-output logs through stderr instead of stdout.
    pub err: bool,
    /// The path that the logs are stored at, from `--log-path` or the
    /// positional argument. Paths are modeled as UTF-8 strings; a caller
    /// holding a non-UTF-8 path converts it lossily.
    pub log_path: String,
}

/// Spec-level image of [`CLIArgs`].
pub ghost struct CLIArgsView {
    pub rotate: Option<Seq<char>>,
    pub count: Option<usize>,
    pub compress: bool,
    pub err: bool,
    pub log_path: Seq<char>,
}

impl View for CLIArgs {
    type V = CLIArgsView;

    open spec fn view(&self) -> CLIArgsView {
        CLIArgsView {
            rotate: match self.rotate {
                Some(s) => Some(s@),
                None => None,
            },
            count: self.count,
            compress: self.compress,
            err: self.err,
            log_path: self.log_path@,
        }
    }
}

/// Why a command line was rejected, each variant tied by
/// [`parse_args_spec`] to exactly the inputs that produce it.
#[derive(Clone, Copy, Debug, PartialEq, Eq, Structural)]
pub enum ArgError {
    /// `-h` or `--help` was given.
    HelpRequested,
    /// `-V` or `--version` was given.
    VersionRequested,
    /// An argument starting with `-` that is none of the known options.
    UnknownOption,
    /// `-r`/`--rotate` came last, with no value after it.
    MissingRotateValue,
    /// `-c`/`--count` came last, with no value after it.
    MissingCountValue,
    /// `--log-path` came last, with no value after it.
    MissingLogPathValue,
    /// The value of `-c`/`--count` is not a decimal number in range.
    InvalidCount,
    /// A positional argument where the log path was already given.
    UnexpectedArgument,
}

pub open spec fn char_is_digit(c: char) -> bool {
    48 <= c as u32 <= 57
}

pub open spec fn char_digit_val(c: char) -> int {
    c as u32 - 48
}

pub open spec fn all_digits(s: Seq<char>) -> bool {
    forall|i: int| 0 <= i < s.len() ==> char_is_digit(#[trigger] s[i])
}

/// The number the digit string denotes.
pub open spec fn digits_val(s: Seq<char>) -> int
    decreases s.len(),
{
    if s.len() == 0 {
        0
    } else {
        digits_val(s.drop_last()) * 10 + char_digit_val(s.last())
    }
}

/// What a count value means: a nonempty all-digit string whose value fits
/// the machine; anything else is rejected.
pub open spec fn parse_usize_spec(s: Seq<char>) -> Option<usize> {
    if s.len() > 0 && all_digits(s) && digits_val(s) <= usize::MAX {
        Some(digits_val(s) as usize)
    } else {
        None
    }
}

/// The arguments gathered so far while walking the command line.
pub ghost struct ArgsAcc {
    pub rotate: Option<Seq<char>>,
    pub count: Option<usize>,
    pub compress: bool,
    pub err: bool,
    pub log_path: Option<Seq<char>>,
}

pub open spec fn init_acc() -> ArgsAcc {
    ArgsAcc { rotate: None, count: None, compress: false, err: false, log_path: None }
}

/// The argument grammar, one argument at a time, from `args[i]` on:
/// `-r`/`--rotate`, `-c`/`--count` and `--log-path` each take the
/// following argument as their value or carry it after `=` in the long
/// form (a repeated option keeps its last value, and `--log-path`
/// supersedes an earlier positional path); the flags `--compress` and
/// `--err`; help and version requests; one positional log path; and a
/// rejection for anything else that looks like an option.
pub open spec fn parse_args_from(args: Seq<Seq<char>>, i: int, acc: ArgsAcc) -> Result<
    ArgsAcc,
    ArgError,
>
    decreases args.len() - i,
{
    if i < 0 || i >= args.len() {
        Ok(acc)
    } else {
        let a = args[i];
        if a == "-h"@ || a == "--help"@ {
            Err(ArgError::HelpRequested)
        } else if a == "-V"@ || a == "--version"@ {
            Err(ArgError::VersionRequested)
        } else if a == "-r"@ || a == "--rotate"@ {
            if i + 1 < args.len() {
                parse_args_from(args, i + 2, (ArgsAcc { rotate: Some(args[i + 1]), ..acc }))
            } else {
                Err(ArgError::MissingRotateValue)
            }
        } else if a == "-c"@ || a == "--count"@ {
            if i + 1 < args.len() {
                match parse_usize_spec(args[i + 1]) {
                    Some(c) => parse_args_from(args, i + 2, (ArgsAcc { count: Some(c), ..acc })),
                    None => Err(ArgError::InvalidCount),
                }
            } else {
                Err(ArgError::MissingCountValue)
            }
        } else if a == "--log-path"@ {
            if i + 1 < args.len() {
                parse_args_from(args, i + 2, (ArgsAcc { log_path: Some(args[i + 1]), ..acc }))
            } else {
                Err(ArgError::MissingLogPathValue)
            }
        } else if a == "--compress"@ {
            parse_args_from(args, i + 1, (ArgsAcc { compress: true, ..acc }))
        } else if a == "--err"@ {
            parse_args_from(args, i + 1, (ArgsAcc { err: true, ..acc }))
        } else if a.len() >= 9 && a.subrange(0, 9) == "--rotate="@ {
            parse_args_from(
                args,
                i + 1,
                (ArgsAcc { rotate: Some(a.subrange(9, a.len() as int)), ..acc }),
            )
        } else if a.len() >= 8 && a.subrange(0, 8) == "--count="@ {
            match parse_usize_spec(a.subrange(8, a.len() as int)) {
                Some(c) => parse_args_from(args, i + 1, (ArgsAcc { count: Some(c), ..acc })),
                None => Err(ArgError::InvalidCount),
            }
        } else if a.len() >= 11 && a.subrange(0, 11) == "--log-path="@ {
            parse_args_from(
                args,
                i + 1,
                (ArgsAcc { log_path: Some(a.subrange(11, a.len() as int)), ..acc }),
            )
        } else if a.len() >= 2 && a[0] == '-' {
            Err(ArgError::UnknownOption)
        } else {
            match acc.log_path {
                Some(_) => Err(ArgError::UnexpectedArgument),
                None => parse_args_from(args, i + 1, (ArgsAcc { log_path: Some(a), ..acc })),
            }
        }
    }
}

/// The parsed command line: the gathered options, with the log path
/// defaulting to `logfile.log` when none was given.
pub open spec fn finish_acc(acc: ArgsAcc) -> CLIArgsView {
    CLIArgsView {
        rotate: acc.rotate,
        count: acc.count,
        compress: acc.compress,
        err: acc.err,
        log_path: match acc.log_path {
            Some(p) => p,
            None => "logfile.log"@,
        },
    }
}

/// What [`get_args`] returns for a whole command line.
pub open spec fn parse_args_spec(args: Seq<Seq<char>>) -> Result<CLIArgsView, ArgError> {
    match parse_args_from(args, 0, init_acc()) {
        Ok(acc) => Ok(finish_acc(acc)),
        Err(e) => Err(e),
    }
}

proof fn lemma_digits_val_nonneg(s: Seq<char>)
    requires
        all_digits(s),
    ensures
        digits_val(s) >= 0,
    decreases s.len(),
{
    if s.len() > 0 {
        assert(forall|i: int| 0 <= i < s.drop_last().len() ==> char_is_digit(
            #[trigger] s.drop_last()[i],
        ));
        lemma_digits_val_nonneg(s.drop_last());
    }
}

/// A digit string is worth at least any of its prefixes.
proof fn lemma_digits_val_prefix(s: Seq<char>, i: int)
    requires
        all_digits(s),
        0 <= i <= s.len(),
    ensures
        digits_val(s.subrange(0, i)) <= digits_val(s),
    decreases s.len() - i,
{
    if i < s.len() {
        let a = s.subrange(0, i);
        let b = s.subrange(0, i + 1);
        assert(b.drop_last() =~= a);
        assert(forall|j: int| 0 <= j < a.len() ==> char_is_digit(#[trigger] a[j]));
        lemma_digits_val_nonneg(a);
        assert(digits_val(b) == digits_val(a) * 10 + char_digit_val(b.last()));
        assert(digits_val(a) * 10 >= digits_val(a));
        lemma_digits_val_prefix(s, i + 1);
    } else {
        assert(s.subrange(0, i) =~= s);
    }
}

/// Parses a decimal count. Exactly the nonempty all-digit strings whose
/// value fits in `usize` are accepted.
pub fn parse_usize(s: &String) -> (r: Option<usize>)
    ensures
        r == parse_usize_spec(s@),
{
    let len = s.as_str().unicode_len();
    if len == 0 {
        return None;
    }
    let mut val: usize = 0;
    let mut i: usize = 0;
    while i < len
        invariant
            i <= len,
            len == s@.len(),
            all_digits(s@.subrange(0, i as int)),
            val as int == digits_val(s@.subrange(0, i as int)),
        decreases len - i,
    {
        let c = s.as_str().get_char(i);
        let u = c as u32;
        if u < 48 || u > 57 {
            assert(!char_is_digit(s@[i as int]));
            return None;
        }
        let d = (u - 48) as usize;
        let ghost pre = s@.subrange(0, i as int);
        let ghost cur = s@.subrange(0, i + 1);
        proof {
            assert(cur.drop_last() =~= pre);
            assert(cur.last() == s@[i as int]);
            assert(forall|j: int| 0 <= j < cur.len() ==> char_is_digit(#[trigger] cur[j]));
        }
        if val > (usize::MAX - d) / 10 {
            proof {
                lemma_fundamental_div_mod_usize(usize::MAX - d);
                assert(digits_val(cur) > usize::MAX);
                if all_digits(s@) {
                    lemma_digits_val_prefix(s@, i + 1);
                }
            }
            return None;
        }
        proof {
            lemma_fundamental_div_mod_usize(usize::MAX - d);
        }
        val = val * 10 + d;
        i = i + 1;
    }
    proof {
        assert(s@.subrange(0, len as int) =~= s@);
    }
    Some(val)
}

/// `x == 10 * (x / 10) + x % 10` with the remainder under 10, for the
/// overflow guard above.
proof fn lemma_fundamental_div_mod_usize(x: int)
    requires
        x >= 0,
    ensures
        x == 10 * (x / 10) + x % 10,
        0 <= x % 10 < 10,
{
    vstd::arithmetic::div_mod::lemma_fundamental_div_mod(x, 10);
    vstd::arithmetic::div_mod::lemma_mod_bound(x, 10);
}

/// Whether the first `p.len()` characters of `a` are exactly `p`, and if
/// so hands back the rest of `a`; the long options carry their value this
/// way after `=`.
fn split_option_value(a: &String, p: &String) -> (r: Option<String>)
    ensures
        (match r {
            Some(v) => a@.len() >= p@.len() && a@.subrange(0, p@.len() as int) == p@ && v@
                == a@.subrange(p@.len() as int, a@.len() as int),
            None => !(a@.len() >= p@.len() && a@.subrange(0, p@.len() as int) == p@),
        }),
{
    let al = a.as_str().unicode_len();
    let pl = p.as_str().unicode_len();
    if al < pl {
        return None;
    }
    let head = a.as_str().substring_char(0, pl).to_owned();
    if head.eq(p) {
        Some(a.as_str().substring_char(pl, al).to_owned())
    } else {
        None
    }
}

/// Parses the program's arguments (without the program name itself) into
/// [`CLIArgs`], exactly as [`parse_args_spec`] reads them. The caller
/// prints the help, version or error text these results call for.
pub fn get_args(args: &Vec<String>) -> (r: Result<CLIArgs, ArgError>)
    ensures
        (match r {
            Ok(c) => parse_args_spec(args.deep_view()) == Ok::<CLIArgsView, ArgError>(c@),
            Err(e) => parse_args_spec(args.deep_view()) == Err::<CLIArgsView, ArgError>(e),
        }),
{
    let ghost dv = args.deep_view();
    let opt_h = String::from_str("-h");
    let opt_help = String::from_str("--help");
    let opt_v = String::from_str("-V");
    let opt_version = String::from_str("--version");
    let opt_r = String::from_str("-r");
    let opt_rotate = String::from_str("--rotate");
    let opt_c = String::from_str("-c");
    let opt_count = String::from_str("--count");
    let opt_log_path = String::from_str("--log-path");
    let opt_compress = String::from_str("--compress");
    let opt_err = String::from_str("--err");
    let pre_rotate = String::from_str("--rotate=");
    let pre_count = String::from_str("--count=");
    let pre_log_path = String::from_str("--log-path=");
    proof {
        reveal_strlit("--rotate=");
        reveal_strlit("--count=");
        reveal_strlit("--log-path=");
    }
    let n = args.len();
    let mut rotate: Option<String> = None;
    let mut count: Option<usize> = None;
    let mut compress: bool = false;
    let mut err: bool = false;
    let mut log_path: Option<String> = None;
    let mut i: usize = 0;
    while i < n
        invariant
            i <= n,
            n == args@.len(),
            dv == args.deep_view(),
            dv.len() == args@.len(),
            opt_h@ == "-h"@ && opt_help@ == "--help"@ && opt_v@ == "-V"@ && opt_version@
                == "--version"@ && opt_r@ == "-r"@ && opt_rotate@ == "--rotate"@ && opt_c@ == "-c"@
                && opt_count@ == "--count"@ && opt_log_path@ == "--log-path"@ && opt_compress@
                == "--compress"@ && opt_err@ == "--err"@,
            pre_rotate@ == "--rotate="@ && pre_rotate@.len() == 9,
            pre_count@ == "--count="@ && pre_count@.len() == 8,
            pre_log_path@ == "--log-path="@ && pre_log_path@.len() == 11,
            parse_args_from(dv, 0, init_acc()) == parse_args_from(
                dv,
                i as int,
                (ArgsAcc {
                    rotate: match &rotate {
                        Some(s) => Some(s@),
                        None => None,
                    },
                    count: count,
                    compress: compress,
                    err: err,
                    log_path: match &log_path {
                        Some(p) => Some(p@),
                        None => None,
                    },
                }),
            ),
        decreases n - i,
    {
        let ghost acc0 = ArgsAcc {
            rotate: match &rotate {
                Some(s) => Some(s@),
                None => None,
            },
            count: count,
            compress: compress,
            err: err,
            log_path: match &log_path {
                Some(p) => Some(p@),
                None => None,
            },
        };
        let a = &args[i];
        proof {
            assert(dv[i as int] == args@[i as int]@);
        }
        if a.eq(&opt_h) || a.eq(&opt_help) {
            return Err(ArgError::HelpRequested);
        } else if a.eq(&opt_v) || a.eq(&opt_version) {
            return Err(ArgError::VersionRequested);
        } else if a.eq(&opt_r) || a.eq(&opt_rotate) {
            if i + 1 < n {
                rotate = Some(args[i + 1].clone());
                proof {
                    assert(dv[i + 1] == args@[i + 1]@);
                }
                i = i + 2;
            } else {
                return Err(ArgError::MissingRotateValue);
            }
        } else if a.eq(&opt_c) || a.eq(&opt_count) {
            if i + 1 < n {
                proof {
                    assert(dv[i + 1] == args@[i + 1]@);
                }
                match parse_usize(&args[i + 1]) {
                    Some(c) => {
                        count = Some(c);
                        i = i + 2;
                    },
                    None => {
                        return Err(ArgError::InvalidCount);
                    },
                }
            } else {
                return Err(ArgError::MissingCountValue);
            }
        } else if a.eq(&opt_log_path) {
            if i + 1 < n {
                log_path = Some(args[i + 1].clone());
                proof {
                    assert(dv[i + 1] == args@[i + 1]@);
                }
                i = i + 2;
            } else {
                return Err(ArgError::MissingLogPathValue);
            }
        } else if a.eq(&opt_compress) {
            compress = true;
            i = i + 1;
        } else if a.eq(&opt_err) {
            err = true;
            i = i + 1;
        } else if let Some(v) = split_option_value(a, &pre_rotate) {
            rotate = Some(v);
            i = i + 1;
        } else if let Some(v) = split_option_value(a, &pre_count) {
            match parse_usize(&v) {
                Some(c) => {
                    count = Some(c);
                    i = i + 1;
                },
                None => {
                    return Err(ArgError::InvalidCount);
                },
            }
        } else if let Some(v) = split_option_value(a, &pre_log_path) {
            log_path = Some(v);
            i = i + 1;
        } else {
            let al = a.as_str().unicode_len();
            let dashed = al >= 2 && a.as_str().get_char(0) == '-';
            if dashed {
                return Err(ArgError::UnknownOption);
            }
            match &log_path {
                Some(_) => {
                    return Err(ArgError::UnexpectedArgument);
                },
                None => {
                    log_path = Some(a.clone());
                    i = i + 1;
                },
            }
        }
    }
    let lp = match log_path {
        Some(p) => p,
        None => String::from_str("logfile.log"),
    };
    let c = CLIArgs { rotate, count, compress, err, log_path: lp };
    Ok(c)
}

} // verus!
