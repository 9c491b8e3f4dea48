use vstd::prelude::*;
use vstd::string::StrSliceExecFns;
use crate::filetype::{extension_of, path_extension};

verus! {

/// What a run is asked to do: the source image, the requested output path and
/// the number of cores, which does not change what a run does.
#[derive(Clone, Debug)]
pub struct Config {
    pub input: String,
    pub output: String,
    pub cores: usize,
}

/// Why the command line does not start a run.
#[derive(Clone, Copy, Debug, PartialEq, Eq, Structural)]
pub enum ArgError {
    NoArguments,
    TooManyArguments,
    Help,
    MissingFileValue,
    MissingOutputValue,
    MissingCoresValue,
    InvalidCores,
    MissingInput,
    MissingOutput,
}

/// Whether `c` is an ASCII decimal digit.
pub open spec fn is_digit(c: char) -> bool {
    '0' <= c <= '9'
}

/// The value of a string of decimal digits.
pub open spec fn decimal_value(s: Seq<char>) -> int
    decreases s.len(),
{
    if s.len() == 0 {
        0
    } else {
        decimal_value(s.drop_last()) * 10 + (s.last() as int - '0' as int)
    }
}

/// The number that `str::parse::<usize>` reads from `s`: an optional `+`
/// followed by one or more decimal digits, whose value fits in `usize`.
pub open spec fn parse_usize_spec(s: Seq<char>) -> Option<int> {
    let ds = if s.len() > 0 && s[0] == '+' {
        s.drop_first()
    } else {
        s
    };
    if ds.len() > 0 && (forall|i: int| 0 <= i < ds.len() ==> is_digit(#[trigger] ds[i]))
        && decimal_value(ds) <= usize::MAX {
        Some(decimal_value(ds))
    } else {
        None
    }
}

/// Relies on `str::parse::<usize>` (usize's `FromStr`): it accepts an optional
/// `+` followed by one or more ASCII digits whose value fits in `usize`, and
/// fails on anything else.
#[verifier::external_body]
fn parse_usize(s: &str) -> (r: Option<usize>)
    ensures
        match r {
            Some(n) => parse_usize_spec(s@) == Some(n as int),
            None => parse_usize_spec(s@) is None,
        },
{
    s.parse::<usize>().ok()
}

/// The option words, with the state so far, from position `i` on: later
/// values replace earlier ones, unknown words are skipped, and the first
/// option that cannot be read ends the scan.
pub open spec fn scan(
    args: Seq<Seq<char>>,
    i: int,
    input: Seq<char>,
    output: Seq<char>,
    cores: int,
) -> Result<(Seq<char>, Seq<char>, int), ArgError>
    decreases args.len() - i,
{
    if i < 0 || i >= args.len() {
        Ok((input, output, cores))
    } else {
        let has_value = i + 1 < args.len();
        if args[i] == "--help"@ {
            Err(ArgError::Help)
        } else if args[i] == "--file"@ {
            if has_value {
                scan(args, i + 1, args[i + 1], output, cores)
            } else {
                Err(ArgError::MissingFileValue)
            }
        } else if args[i] == "--output"@ {
            if has_value {
                scan(args, i + 1, input, args[i + 1], cores)
            } else {
                Err(ArgError::MissingOutputValue)
            }
        } else if args[i] == "--cpu"@ {
            if has_value {
                match parse_usize_spec(args[i + 1]) {
                    Some(n) => if n > 0 {
                        scan(args, i + 1, input, output, n)
                    } else {
                        Err(ArgError::InvalidCores)
                    },
                    None => Err(ArgError::InvalidCores),
                }
            } else {
                Err(ArgError::MissingCoresValue)
            }
        } else {
            scan(args, i + 1, input, output, cores)
        }
    }
}

/// The outcome of reading a command line whose first word is the program:
/// a configuration with an input, an output and a core count (one unless
/// given), or the reason there is none.
pub open spec fn parse_args_spec(args: Seq<Seq<char>>) -> Result<
    (Seq<char>, Seq<char>, int),
    ArgError,
> {
    if args.len() == 1 {
        Err(ArgError::NoArguments)
    } else if args.len() > 7 {
        Err(ArgError::TooManyArguments)
    } else {
        match scan(args, 1, Seq::empty(), Seq::empty(), 1) {
            Err(e) => Err(e),
            Ok((input, output, cores)) => if input.len() == 0 {
                Err(ArgError::MissingInput)
            } else if output.len() == 0 {
                Err(ArgError::MissingOutput)
            } else {
                Ok((input, output, cores))
            },
        }
    }
}

/// `r` is the executable form of `s`.
pub open spec fn outcome_matches(
    r: Result<Config, ArgError>,
    s: Result<(Seq<char>, Seq<char>, int), ArgError>,
) -> bool {
    match (r, s) {
        (Ok(c), Ok((input, output, cores))) => c.input@ == input && c.output@ == output
            && c.cores as int == cores,
        (Err(e), Err(f)) => e == f,
        _ => false,
    }
}

/// Reads a command line, its first word being the program's name.
pub fn parse_args(args: &Vec<String>) -> (r: Result<Config, ArgError>)
    ensures
        outcome_matches(r, parse_args_spec(args@.map_values(|s: String| s@))),
{
    let ghost words = args@.map_values(|s: String| s@);
    let n = args.len();
    if n == 1 {
        return Err(ArgError::NoArguments);
    }
    if n > 7 {
        return Err(ArgError::TooManyArguments);
    }
    let help = "--help".to_owned();
    let file = "--file".to_owned();
    let out = "--output".to_owned();
    let cpu = "--cpu".to_owned();
    let mut input = String::new();
    let mut output = String::new();
    let mut cores: usize = 1;
    let mut i: usize = 1;
    while i < n
        invariant
            n == args@.len(),
            n != 1,
            n <= 7,
            words == args@.map_values(|s: String| s@),
            words.len() == n,
            1 <= i,
            help@ == "--help"@,
            file@ == "--file"@,
            out@ == "--output"@,
            cpu@ == "--cpu"@,
            scan(words, 1, Seq::empty(), Seq::empty(), 1) == scan(
                words,
                i as int,
                input@,
                output@,
                cores as int,
            ),
        decreases n - i,
    {
        proof {
            assert(words[i as int] == args@[i as int]@);
            if i + 1 < n {
                assert(words[i + 1] == args@[i + 1]@);
            }
        }
        if args[i] == help {
            return Err(ArgError::Help);
        } else if args[i] == file {
            if i + 1 < n {
                input = args[i + 1].clone();
            } else {
                return Err(ArgError::MissingFileValue);
            }
        } else if args[i] == out {
            if i + 1 < n {
                output = args[i + 1].clone();
            } else {
                return Err(ArgError::MissingOutputValue);
            }
        } else if args[i] == cpu {
            if i + 1 < n {
                match parse_usize(args[i + 1].as_str()) {
                    Some(c) => {
                        if c > 0 {
                            cores = c;
                        } else {
                            return Err(ArgError::InvalidCores);
                        }
                    },
                    None => {
                        return Err(ArgError::InvalidCores);
                    },
                }
            } else {
                return Err(ArgError::MissingCoresValue);
            }
        }
        i = i + 1;
    }
    if input.as_str().unicode_len() == 0 {
        return Err(ArgError::MissingInput);
    }
    if output.as_str().unicode_len() == 0 {
        return Err(ArgError::MissingOutput);
    }
    Ok(Config { input, output, cores })
}

/// The position of the first dot in `p`, where `p` holds one.
pub open spec fn first_dot(p: Seq<char>) -> int {
    choose|i: int| 0 <= i < p.len() && p[i] == '.' && forall|j: int| 0 <= j < i ==> p[j] != '.'
}

/// Where the mosaic of the image at `p` is written: the part of `p` before its
/// first dot, then `_output.`, then the extension of `p`. A path without an
/// extension has none.
pub open spec fn output_path_spec(p: Seq<char>) -> Option<Seq<char>> {
    match extension_of(p) {
        Some(e) => if p.contains('.') {
            Some(p.take(first_dot(p)) + "_output."@ + e)
        } else {
            None
        },
        None => None,
    }
}

/// The path that the mosaic of the image at `input` is written to.
pub fn output_path(input: &str) -> (r: Option<String>)
    ensures
        match r {
            Some(o) => output_path_spec(input@) == Some(o@),
            None => output_path_spec(input@) is None,
        },
{
    let ext = match path_extension(input) {
        Some(e) => e,
        None => {
            return None;
        },
    };
    let len = input.unicode_len();
    let mut i: usize = 0;
    while i < len
        invariant
            len == input@.len(),
            extension_of(input@) == Some(ext@),
            i <= len,
            forall|j: int| 0 <= j < i ==> input@[j] != '.',
        decreases len - i,
    {
        if input.get_char(i) == '.' {
            proof {
                let f = first_dot(input@);
                assert(input@.contains('.'));
                assert(0 <= i < input@.len() && input@[i as int] == '.' && forall|j: int|
                    0 <= j < i ==> input@[j] != '.');
                if f < i {
                    assert(input@[f] != '.');
                }
                if f > i {
                    assert(input@[i as int] != '.');
                }
                assert(input@.subrange(0, i as int) == input@.take(i as int));
            }
            let stem = input.substring_char(0, i).to_owned();
            let r = stem.concat("_output.").concat(ext.as_str());
            proof {
                assert(stem@ == input@.take(first_dot(input@)));
            }
            return Some(r);
        }
        i = i + 1;
    }
    None
}

} // verus!
