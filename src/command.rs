//! Splitting a configured command line into a program and its arguments.

use vstd::prelude::*;

verus! {

/// The words that a POSIX shell would split `s` into.
pub uninterp spec fn shell_words(s: Seq<char>) -> Seq<Seq<char>>;

/// Relies on `shlex::Shlex`: the words it yields for `s`, in order, with
/// quotes and escapes resolved as a POSIX shell would.
#[verifier::external_body]
fn split_words(s: &str) -> (r: Vec<String>)
    ensures
        r.deep_view() == shell_words(s@),
{
    shlex::Shlex::new(s).collect()
}

/// The first word, as the program, and the rest, as its arguments; `None`
/// where there is no word.
pub fn program_and_args(words: Vec<String>) -> (r: Option<(String, Vec<String>)>)
    ensures
        r is None <==> words@.len() == 0,
        r matches Some((program, args)) ==> program@ == words.deep_view()[0] && args.deep_view()
            == words.deep_view().skip(1),
{
    let mut words = words;
    if words.len() == 0 {
        return None;
    }
    let ghost all = words.deep_view();
    let program = words.remove(0);
    proof {
        assert(words.deep_view() =~= all.skip(1));
    }
    Some((program, words))
}

/// The program and the arguments of the command line `s`, split as a shell
/// would split it; `None` where `s` holds no word.
pub fn split_command(s: &str) -> (r: Option<(String, Vec<String>)>)
    ensures
        r is None <==> shell_words(s@).len() == 0,
        r matches Some((program, args)) ==> program@ == shell_words(s@)[0] && args.deep_view()
            == shell_words(s@).skip(1),
{
    program_and_args(split_words(s))
}

} // verus!
