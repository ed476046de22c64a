//! The flags of the flat lister.

use crate::text::{str_equal, texts};
use vstd::prelude::*;
use vstd::string::*;

verus! {

/// The flag that shows hidden entries.
pub const FLAG_SHOW_HIDDEN: &'static str = "-a";

/// The flag that prints one entry on each line.
pub const FLAG_ONE_PER_LINE: &'static str = "-1";

/// The flag that turns color on.
pub const FLAG_SHOW_COLOR: &'static str = "-G";

/// The directory that is listed when no other is named.
pub const DEFAULT_DIRECTORY: &'static str = ".";

/// The flags that a listing goes by.
#[derive(Clone, Copy, Debug, PartialEq, Eq, Structural)]
pub struct Config {
    pub show_hidden: bool,
    pub one_per_line: bool,
    pub show_color: bool,
}

/// Whether a token is one of the three flags.
pub open spec fn is_flag(token: Seq<char>) -> bool {
    token == FLAG_SHOW_HIDDEN@ || token == FLAG_ONE_PER_LINE@ || token == FLAG_SHOW_COLOR@
}

/// The configuration that a sequence of tokens asks for: a flag is on when
/// it occurs among them.
pub open spec fn config_of(tokens: Seq<Seq<char>>) -> Config {
    Config {
        show_hidden: tokens.contains(FLAG_SHOW_HIDDEN@),
        one_per_line: tokens.contains(FLAG_ONE_PER_LINE@),
        show_color: tokens.contains(FLAG_SHOW_COLOR@),
    }
}

/// The tokens that are no flags, in their order.
pub open spec fn positionals(tokens: Seq<Seq<char>>) -> Seq<Seq<char>> {
    tokens.filter(|t: Seq<char>| !is_flag(t))
}

/// The three flags are three different tokens.
pub proof fn lemma_flags_differ()
    ensures
        FLAG_SHOW_HIDDEN@ != FLAG_ONE_PER_LINE@,
        FLAG_SHOW_HIDDEN@ != FLAG_SHOW_COLOR@,
        FLAG_ONE_PER_LINE@ != FLAG_SHOW_COLOR@,
{
    reveal_strlit("-a");
    reveal_strlit("-1");
    reveal_strlit("-G");
    assert(FLAG_SHOW_HIDDEN@[1] == 'a');
    assert(FLAG_ONE_PER_LINE@[1] == '1');
    assert(FLAG_SHOW_COLOR@[1] == 'G');
}

/// Sorts the tokens that follow the program's name into flags and
/// positional arguments.
pub fn parse_args(env_args: Vec<String>) -> (parsed: (Vec<String>, Config))
    ensures
        texts(parsed.0@) == positionals(texts(env_args@)),
        parsed.1 == config_of(texts(env_args@)),
{
    let mut args: Vec<String> = Vec::new();
    let mut config = Config { show_hidden: false, one_per_line: false, show_color: false };
    let ghost tokens = texts(env_args@);
    let n = env_args.len();
    let mut i: usize = 0;
    while i < n
        invariant
            n == env_args@.len(),
            tokens == texts(env_args@),
            0 <= i <= n,
            texts(args@) == positionals(tokens.take(i as int)),
            config == config_of(tokens.take(i as int)),
        decreases n - i,
    {
        let arg = &env_args[i];
        proof {
            let pred = |t: Seq<char>| !is_flag(t);
            let before = tokens.take(i as int);
            let upto = tokens.take(i + 1);
            assert(upto =~= before.push(tokens[i as int]));
            assert(upto.drop_last() =~= before);
            reveal(Seq::filter);
            assert(upto.filter(pred) == if pred(tokens[i as int]) {
                before.filter(pred).push(tokens[i as int])
            } else {
                before.filter(pred)
            });
            assert forall|t: Seq<char>|
                upto.contains(t) <==> (before.contains(t) || t == tokens[i as int]) by {
                if before.contains(t) {
                    let k = choose|k: int| 0 <= k < before.len() && before[k] == t;
                    assert(upto[k] == t);
                }
                if t == tokens[i as int] {
                    assert(upto[i as int] == t);
                }
            }
            assert(tokens[i as int] == arg@);
            lemma_flags_differ();
        }
        if str_equal(arg.as_str(), FLAG_SHOW_HIDDEN) {
            config.show_hidden = true;
        } else if str_equal(arg.as_str(), FLAG_ONE_PER_LINE) {
            config.one_per_line = true;
        } else if str_equal(arg.as_str(), FLAG_SHOW_COLOR) {
            config.show_color = true;
        } else {
            let ghost before = args@;
            args.push(arg.clone());
            proof {
                assert(texts(args@) =~= texts(before).push(arg@));
            }
        }
        i += 1;
    }
    proof {
        assert(tokens.take(n as int) =~= tokens);
    }
    (args, config)
}

/// The directory that the lister is asked for: the last positional
/// argument, or the current directory where there is none.
pub open spec fn target_of(args: Seq<Seq<char>>) -> Seq<char> {
    if args.len() == 0 {
        DEFAULT_DIRECTORY@
    } else {
        args.last()
    }
}

/// The directory to list.
pub fn target_directory(args: &Vec<String>) -> (dir: String)
    ensures
        dir@ == target_of(texts(args@)),
{
    if args.len() == 0 {
        String::from_str(DEFAULT_DIRECTORY)
    } else {
        args[args.len() - 1].clone()
    }
}

} // verus!
