//! The `echo` builtin: the text it prints.

use vstd::prelude::*;

use crate::parser::{pn_spec, Parser, ParsingState};
use vstd::string::StringExecFns;

verus! {

proof fn lemma_pn_consumes(
    state: ParsingState,
    rem: Seq<char>,
    sep: Seq<char>,
    keep: bool,
    arg: Seq<char>,
    wq: bool,
)
    ensures
        rem.len() > 0 ==> pn_spec(state, rem, sep, keep, arg, wq).1.len() < rem.len(),
        rem.len() == 0 ==> pn_spec(state, rem, sep, keep, arg, wq).1 == rem,
    decreases rem.len(),
{
    if rem.len() > 0 {
        let rest = rem.drop_first();
        lemma_pn_consumes(ParsingState::Normal, rest, sep, keep, arg, wq);
        lemma_pn_consumes(ParsingState::Normal, rest, sep, keep, arg.push(rem[0]), wq);
        lemma_pn_consumes(ParsingState::Escaped, rest, sep, keep, arg, wq);
        lemma_pn_consumes(ParsingState::Escaped, rest, sep, keep, arg.push(rem[0]), wq);
        lemma_pn_consumes(ParsingState::SingleQuoted, rest, sep, keep, arg, wq);
        lemma_pn_consumes(ParsingState::SingleQuoted, rest, sep, keep, arg.push(rem[0]), wq);
        lemma_pn_consumes(ParsingState::Normal, rest, sep, keep, arg, true);
        lemma_pn_consumes(ParsingState::DoubleQuoted, rest, sep, keep, arg, wq);
        lemma_pn_consumes(ParsingState::DoubleQuoted, rest, sep, keep, arg.push(rem[0]), wq);
        lemma_pn_consumes(ParsingState::DoubleQuotedEscaped, rest, sep, keep, arg, wq);
        lemma_pn_consumes(
            ParsingState::DoubleQuotedEscaped,
            rest,
            sep,
            keep,
            arg.push(rem[0]),
            wq,
        );
        lemma_pn_consumes(
            ParsingState::DoubleQuoted,
            rest,
            sep,
            keep,
            arg.push('\\').push(rem[0]),
            wq,
        );
        lemma_pn_consumes(ParsingState::Separator, rest, sep, keep, arg, wq);
    }
}

/// The arguments the parser hands out, joined without a separator.
pub open spec fn echo_spec(
    state: ParsingState,
    rem: Seq<char>,
    sep: Seq<char>,
    keep: bool,
) -> Seq<char>
    decreases rem.len(),
    via echo_spec_decreases
{
    let t = pn_spec(state, rem, sep, keep, Seq::empty(), false);
    match t.2 {
        None => Seq::empty(),
        Some(a) => a + echo_spec(t.0, t.1, sep, keep),
    }
}

#[via_fn]
proof fn echo_spec_decreases(state: ParsingState, rem: Seq<char>, sep: Seq<char>, keep: bool) {
    lemma_pn_consumes(state, rem, sep, keep, Seq::empty(), false);
    let t = pn_spec(state, rem, sep, keep, Seq::empty(), false);
    if rem.len() == 0 {
        assert(t.2 is None);
    }
}

/// The text `echo` prints: every remaining argument of the parser,
/// concatenated.
pub fn echo(args: Parser) -> (r: String)
    requires
        args.wf(),
    ensures
        r@ == echo_spec(args.state_view(), args.rem_view(), args.sep_view(), args.keep_view()),
{
    let mut p = args;
    let ghost target = echo_spec(p.state_view(), p.rem_view(), p.sep_view(), p.keep_view());
    let mut out = String::new();
    loop
        invariant
            p.wf(),
            target == echo_spec(
                args.state_view(),
                args.rem_view(),
                args.sep_view(),
                args.keep_view(),
            ),
            p.sep_view() == args.sep_view(),
            p.keep_view() == args.keep_view(),
            target == out@ + echo_spec(p.state_view(), p.rem_view(), p.sep_view(), p.keep_view()),
        decreases p.rem_view().len(),
    {
        proof {
            lemma_pn_consumes(
                p.state_view(),
                p.rem_view(),
                p.sep_view(),
                p.keep_view(),
                Seq::empty(),
                false,
            );
        }
        match p.next() {
            Some(word) => {
                out.append(word.as_str());
                proof {
                    assert(target == out@ + echo_spec(
                        p.state_view(),
                        p.rem_view(),
                        p.sep_view(),
                        p.keep_view(),
                    ));
                }
            },
            None => {
                proof {
                    assert(target =~= out@);
                }
                return out;
            },
        }
    }
}

} // verus!
