//! The options of a run: where the trace is, and whether to reorder.

use vstd::prelude::*;

verus! {

/// The options of a run.
pub struct UserArgs {
    /// Emit quotes in accept-time order through the reordering buffer.
    pub reorder: bool,
    /// The trace to read.
    pub in_path: String,
}

/// Why the command-line arguments were refused.
#[derive(Debug, Clone, Copy, PartialEq, Eq, Structural)]
pub enum ArgsError {
    /// There must be one or two arguments.
    WrongCount,
}

/// Fewest and most arguments accepted.
pub const MIN_ARGS: usize = 1;

pub const MAX_ARGS: usize = 2;

pub open spec fn is_help(a: Seq<char>) -> bool {
    a == "-h"@ || a == "--help"@
}

pub open spec fn is_reorder(a: Seq<char>) -> bool {
    a == "-r"@ || a == "--reorder"@
}

pub open spec fn is_path(a: Seq<char>) -> bool {
    !is_help(a) && !is_reorder(a)
}

/// The path that `args` leave: the last argument that is not an option, or
/// `default` where there is none.
pub open spec fn last_path(args: Seq<String>, default: Seq<char>) -> Seq<char>
    decreases args.len(),
{
    if args.len() == 0 {
        default
    } else if is_path(args.last()@) {
        args.last()@
    } else {
        last_path(args.drop_last(), default)
    }
}

impl UserArgs {
    /// No reordering and an empty path.
    pub fn new() -> (r: Self)
        ensures
            !r.reorder,
            r.in_path@ == Seq::<char>::empty(),
    {
        UserArgs { reorder: false, in_path: String::new() }
    }
}

/// Applies the command-line arguments `args` (the program name left out) to
/// `user_args`: `-r` or `--reorder` turns reordering on, any other argument
/// but `-h` and `--help` is the path, the last one winning.  Returns whether
/// help was asked for, or `WrongCount`, leaving `user_args` unchanged, unless
/// there are one or two arguments.
pub fn parse_args(user_args: &mut UserArgs, args: &Vec<String>) -> (r: Result<bool, ArgsError>)
    ensures
        args@.len() < MIN_ARGS || args@.len() > MAX_ARGS ==> r == Err::<bool, ArgsError>(
            ArgsError::WrongCount,
        ) && *final(user_args) == *old(user_args),
        MIN_ARGS <= args@.len() <= MAX_ARGS ==> {
            &&& r == Ok::<bool, ArgsError>(exists|i: int| 0 <= i < args@.len() && is_help(#[trigger] args@[i]@))
            &&& final(user_args).reorder == (old(user_args).reorder || exists|i: int|
                0 <= i < args@.len() && is_reorder(#[trigger] args@[i]@))
            &&& final(user_args).in_path@ == last_path(args@, old(user_args).in_path@)
        },
{
    if args.len() < MIN_ARGS || args.len() > MAX_ARGS {
        return Err(ArgsError::WrongCount);
    }
    proof {
        reveal_strlit("-h");
        reveal_strlit("--help");
        reveal_strlit("-r");
        reveal_strlit("--reorder");
        assert("-h"@ != "-r"@) by {
            assert("-h"@[1] != "-r"@[1]);
        }
        assert("--help"@.len() == 6 && "--reorder"@.len() == 9);
        assert("-h"@.len() == 2 && "-r"@.len() == 2);
        assert(forall|a: Seq<char>| is_help(a) ==> !is_reorder(a));
    }
    let short_help = "-h".to_owned();
    let long_help = "--help".to_owned();
    let short_reorder = "-r".to_owned();
    let long_reorder = "--reorder".to_owned();
    let ghost start_reorder = user_args.reorder;
    let ghost start_path = user_args.in_path@;
    let mut help = false;
    let mut i: usize = 0;
    while i < args.len()
        invariant
            i <= args@.len(),
            short_help@ == "-h"@ && long_help@ == "--help"@,
            short_reorder@ == "-r"@ && long_reorder@ == "--reorder"@,
            forall|a: Seq<char>| is_help(a) ==> !is_reorder(a),
            help == exists|k: int| 0 <= k < i && is_help(#[trigger] args@[k]@),
            user_args.reorder == (start_reorder || exists|k: int|
                0 <= k < i && is_reorder(#[trigger] args@[k]@)),
            user_args.in_path@ == last_path(args@.subrange(0, i as int), start_path),
        decreases args@.len() - i,
    {
        let arg = &args[i];
        assert(args@.subrange(0, i + 1).drop_last() =~= args@.subrange(0, i as int));
        assert(args@.subrange(0, i + 1).last() == args@[i as int]);
        if *arg == short_help || *arg == long_help {
            assert(!is_reorder(args@[i as int]@));
            help = true;
        } else if *arg == short_reorder || *arg == long_reorder {
            assert(is_reorder(args@[i as int]@));
            user_args.reorder = true;
        } else {
            assert(!is_reorder(args@[i as int]@));
            user_args.in_path = arg.clone();
        }
        i = i + 1;
    }
    assert(args@.subrange(0, i as int) =~= args@);
    Ok(help)
}

} // verus!
