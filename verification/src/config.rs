//! The validated invocation parameters: target, file path, and the two
//! display flags.

use vstd::prelude::*;

verus! {

/// Some token of `args` equals `t`, character for character.
pub open spec fn has_token(args: Seq<String>, t: Seq<char>) -> bool {
    exists|i: int| 0 <= i < args.len() && (#[trigger] args[i])@ == t
}

/// The validated invocation parameters. Immutable once constructed.
pub struct Config {
    /// The substring being searched for.
    pub target: String,
    /// The file whose lines are to be searched.
    pub file_path: String,
    /// Prefix each reported line with its 1-based line number.
    pub show_line_number: bool,
    /// Match after lowercasing both target and line.
    pub ignore_case: bool,
}

/// With exactly a target and a file path, and neither spelled like a
/// flag, a constructed `Config` has both display flags off: no token
/// equals `"-n"` or `"-i"`, so `Config::new` sets neither.
pub proof fn lemma_no_flags(args: Seq<String>)
    requires
        args.len() == 2,
        args[0]@ != "-n"@,
        args[0]@ != "-i"@,
        args[1]@ != "-n"@,
        args[1]@ != "-i"@,
    ensures
        !has_token(args, "-n"@),
        !has_token(args, "-i"@),
{
}

fn str_eq(a: &str, b: &str) -> (r: bool)
    ensures
        r == (a@ == b@),
{
    let na = a.unicode_len();
    let nb = b.unicode_len();
    if na != nb {
        proof {
            if a@ == b@ {
                assert(a@.len() == b@.len());
            }
        }
        return false;
    }
    let mut i: usize = 0;
    while i < na
        invariant
            na == a@.len(),
            nb == b@.len(),
            na == nb,
            i <= na,
            forall|k: int| 0 <= k < i ==> a@[k] == b@[k],
        decreases na - i,
    {
        if a.get_char(i) != b.get_char(i) {
            return false;
        }
        i += 1;
    }
    proof {
        assert(a@ =~= b@);
    }
    true
}

fn contains_token(args: &Vec<String>, t: &str) -> (r: bool)
    ensures
        r == has_token(args@, t@),
{
    let mut i: usize = 0;
    while i < args.len()
        invariant
            i <= args@.len(),
            forall|k: int| 0 <= k < i ==> (#[trigger] args@[k])@ != t@,
        decreases args@.len() - i,
    {
        if str_eq(args[i].as_str(), t) {
            assert(has_token(args@, t@));
            return true;
        }
        i += 1;
    }
    false
}

impl Config {
    /// Builds a `Config` from the invocation tokens, program name
    /// excluded. The first two tokens are the target and the file path;
    /// a separate `"-n"` token anywhere in the list turns line numbers
    /// on, and a `"-i"` token turns case-insensitive matching on. Fewer
    /// than two tokens is a configuration error.
    pub fn new(args: Vec<String>) -> (r: Result<Config, &'static str>)
        ensures
            r is Err <==> args@.len() < 2,
            r is Err ==> r->Err_0@ == "not enough arguments"@,
            r is Ok ==> {
                let c = r->Ok_0;
                &&& c.target@ == args@[0]@
                &&& c.file_path@ == args@[1]@
                &&& c.show_line_number == has_token(args@, "-n"@)
                &&& c.ignore_case == has_token(args@, "-i"@)
            },
    {
        if args.len() < 2 {
            return Err("not enough arguments");
        }
        let show_line_number = contains_token(&args, "-n");
        let ignore_case = contains_token(&args, "-i");
        let config = Config {
            target: args[0].clone(),
            file_path: args[1].clone(),
            show_line_number,
            ignore_case,
        };
        Ok(config)
    }
}

} // verus!
