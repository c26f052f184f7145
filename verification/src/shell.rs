//! The execution engine's decision layer: which command of a line runs
//! next under `&&` / `||` short-circuiting, and what each parsed pipeline
//! part asks the process layer to do. Spawning, waiting and stream wiring
//! happen outside the library; every decision here is verified.

use vstd::prelude::*;

use crate::parsers::lexer;
use crate::parsers::tokens::LineToCmdTokens;
use crate::parsers::parser::strs_view;
use crate::parsers::tokens::ParseCmdTokens;
use crate::chars::trim_str;

verus! {

/// The shell's own state: the exit status of the last completed command.
pub struct Shell {
    pub status: i32,
}

impl Shell {
    pub fn new() -> (r: Shell)
        ensures
            r.status == 0,
    {
        Shell { status: 0 }
    }
}

fn str_eqs(a: &String, b: &str) -> (r: bool)
    ensures
        r == (a@ == b@),
{
    let bo = b.to_owned();
    *a == bo
}

/// Whether the separator before a command stops the line: `&&` after a
/// failure, `||` after a success.
pub open spec fn spec_short_circuits(sep: Seq<char>, status: int) -> bool {
    (sep == "&&"@ && status != 0) || (sep == "||"@ && status == 0)
}

pub fn short_circuits(sep: &String, status: i32) -> (r: bool)
    ensures
        r == spec_short_circuits(sep@, status as int),
{
    (str_eqs(sep, "&&") && status != 0) || (str_eqs(sep, "||") && status == 0)
}

/// What one call of `LineRunner::next_command` does: skips separators,
/// remembering the last one, then either hands out the next command text
/// or ends the line where the separator and status short-circuit it.
pub open spec fn runner_next_spec(
    cmds: Seq<(LineToCmdTokens, Seq<char>)>,
    i: int,
    sep: Seq<char>,
    status: int,
) -> (int, Seq<char>, Option<Seq<char>>)
    decreases cmds.len() - i,
{
    if i < 0 || i >= cmds.len() {
        (i, sep, None::<Seq<char>>)
    } else if cmds[i].0 is Separator {
        runner_next_spec(cmds, i + 1, cmds[i].1, status)
    } else if spec_short_circuits(sep, status) {
        (cmds.len() as int, sep, None::<Seq<char>>)
    } else {
        (i + 1, sep, Some(cmds[i].1))
    }
}

/// Walks the commands of one line in order, applying short-circuit
/// evaluation: the caller runs each command it is handed and reports the
/// status back through the next call.
pub struct LineRunner {
    cmds: Vec<(LineToCmdTokens, String)>,
    idx: usize,
    sep: String,
}

impl LineRunner {
    pub closed spec fn cmds_view(&self) -> Seq<(LineToCmdTokens, Seq<char>)> {
        Seq::new(self.cmds@.len(), |i: int| (self.cmds@[i].0, self.cmds@[i].1@))
    }

    pub closed spec fn idx_view(&self) -> int {
        self.idx as int
    }

    pub closed spec fn sep_view(&self) -> Seq<char> {
        self.sep@
    }

    pub closed spec fn wf(&self) -> bool {
        self.idx <= self.cmds@.len()
    }

    /// Splits the trimmed line into commands and separators and stands at
    /// its beginning.
    pub fn new(line: &str) -> (r: LineRunner)
        ensures
            r.wf(),
            r.cmds_view() == lexer::line_to_cmds_spec(crate::chars::trim_spec(line@)),
            r.idx_view() == 0,
            r.sep_view() == Seq::<char>::empty(),
    {
        let trimmed = trim_str(line);
        let cmds = lexer::line_to_cmds(trimmed.as_str());
        let r = LineRunner { cmds, idx: 0, sep: String::new() };
        proof {
            assert(r.cmds_view() =~= lexer::line_to_cmds_spec(crate::chars::trim_spec(line@)));
        }
        r
    }

    /// The text of the next command to run under the current status, or
    /// `None` when the line is over — exhausted or short-circuited.
    pub fn next_command(&mut self, status: i32) -> (r: Option<String>)
        requires
            old(self).wf(),
        ensures
            final(self).wf(),
            final(self).cmds_view() == old(self).cmds_view(),
            ({
                let t = runner_next_spec(
                    old(self).cmds_view(),
                    old(self).idx_view(),
                    old(self).sep_view(),
                    status as int,
                );
                &&& final(self).idx_view() == t.0
                &&& final(self).sep_view() == t.1
                &&& match (r, t.2) {
                    (Some(a), Some(b)) => a@ == b,
                    (None, None) => true,
                    _ => false,
                }
            }),
    {
        let ghost cmds0 = self.cmds_view();
        let ghost target = runner_next_spec(
            cmds0,
            self.idx as int,
            self.sep@,
            status as int,
        );
        while self.idx < self.cmds.len()
            invariant
                self.wf(),
                self.cmds_view() == cmds0,
                cmds0 == old(self).cmds_view(),
                target == runner_next_spec(
                    old(self).cmds_view(),
                    old(self).idx_view(),
                    old(self).sep_view(),
                    status as int,
                ),
                target == runner_next_spec(cmds0, self.idx as int, self.sep@, status as int),
            decreases self.cmds@.len() - self.idx,
        {
            let is_sep = match self.cmds[self.idx].0 {
                LineToCmdTokens::Separator => true,
                LineToCmdTokens::Command => false,
            };
            if is_sep {
                self.sep = self.cmds[self.idx].1.clone();
                self.idx = self.idx + 1;
            } else {
                if short_circuits(&self.sep, status) {
                    self.idx = self.cmds.len();
                    return None;
                }
                let text = self.cmds[self.idx].1.clone();
                self.idx = self.idx + 1;
                return Some(text);
            }
        }
        None
    }
}

/// Short-circuit law: between two commands, `&&` lets the second run
/// exactly when the first exited 0, `||` exactly when it did not, and `;`
/// always.
pub proof fn lemma_separator_gates(a: Seq<char>, b: Seq<char>, sep: Seq<char>, status: int)
    requires
        sep == "&&"@ || sep == "||"@ || sep == ";"@,
    ensures
        ({
            let cmds = seq![
                (LineToCmdTokens::Command, a),
                (LineToCmdTokens::Separator, sep),
                (LineToCmdTokens::Command, b),
            ];
            let t = runner_next_spec(cmds, 1, Seq::empty(), status);
            &&& (sep == "&&"@ ==> ((t.2 == Some(b)) <==> status == 0))
            &&& (sep == "||"@ ==> ((t.2 == Some(b)) <==> status != 0))
            &&& (sep == ";"@ ==> t.2 == Some(b))
        }),
{
    reveal_strlit("&&");
    reveal_strlit("||");
    reveal_strlit(";");
    let cmds = seq![
        (LineToCmdTokens::Command, a),
        (LineToCmdTokens::Separator, sep),
        (LineToCmdTokens::Command, b),
    ];
    assert(cmds[1].0 is Separator);
    assert(cmds[2].0 is Command);
    assert(runner_next_spec(cmds, 1, Seq::empty(), status) == runner_next_spec(
        cmds,
        2,
        sep,
        status,
    ));
    let t2 = runner_next_spec(cmds, 2, sep, status);
    assert(";"@.len() == 1);
    assert("&&"@.len() == 2);
    assert("||"@.len() == 2);
    assert("&&"@[0] == '&');
    assert("||"@[0] == '|');
    if sep == ";"@ {
        assert(sep != "&&"@ && sep != "||"@);
        assert(!spec_short_circuits(sep, status));
        assert(t2.2 == Some(b));
    } else if sep == "&&"@ {
        assert(sep != "||"@);
        if status == 0 {
            assert(t2.2 == Some(b));
        } else {
            assert(t2.2 == None::<Seq<char>>);
        }
    } else {
        if status == 0 {
            assert(t2.2 == None::<Seq<char>>);
        } else {
            assert(t2.2 == Some(b));
        }
    }
}

/// What the executor is asked to do for one parsed part.
#[derive(Debug)]
pub enum Step {
    /// Change directory through the `cd` builtin, with the arguments after
    /// `cd`.
    RunCd(Vec<String>),
    /// Leave the shell through the `exit` builtin, with the arguments
    /// after `exit`.
    RunExit(Vec<String>),
    /// Spawn the program `argv[0]`; its stdout feeds the next segment when
    /// `piped`.
    Spawn { argv: Vec<String>, piped: bool },
    /// The `|` between two segments: the stream wiring is implied by the
    /// neighbouring `Spawn` steps.
    PipeJoin,
    /// A recognized but unimplemented separator (`<`, `>`): report and
    /// stop with status 1.
    Unimplemented,
    /// A command with no words at all: stop with status 1.
    EmptyCommand,
}

/// The specification-level form of a `Step`.
pub enum StepSpec {
    RunCd(Seq<Seq<char>>),
    RunExit(Seq<Seq<char>>),
    Spawn(Seq<Seq<char>>, bool),
    PipeJoin,
    Unimplemented,
    EmptyCommand,
}

pub open spec fn step_view(s: Step) -> StepSpec {
    match s {
        Step::RunCd(v) => StepSpec::RunCd(strs_view(v@)),
        Step::RunExit(v) => StepSpec::RunExit(strs_view(v@)),
        Step::Spawn { argv, piped } => StepSpec::Spawn(strs_view(argv@), piped),
        Step::PipeJoin => StepSpec::PipeJoin,
        Step::Unimplemented => StepSpec::Unimplemented,
        Step::EmptyCommand => StepSpec::EmptyCommand,
    }
}

/// The step one parsed part asks for; `piped` says whether a separator
/// follows, so that the segment's stdout must feed a pipe.
pub open spec fn spec_step_of(part: (ParseCmdTokens, Seq<Seq<char>>), piped: bool) -> StepSpec {
    if part.0 is Separator {
        if part.1 == seq!["|"@] {
            StepSpec::PipeJoin
        } else {
            StepSpec::Unimplemented
        }
    } else if part.1.len() == 0 {
        StepSpec::EmptyCommand
    } else if part.1[0] == "cd"@ {
        StepSpec::RunCd(part.1.drop_first())
    } else if part.1[0] == "exit"@ {
        StepSpec::RunExit(part.1.drop_first())
    } else {
        StepSpec::Spawn(part.1, piped)
    }
}

pub open spec fn pp_view(v: Seq<(ParseCmdTokens, Vec<String>)>) -> Seq<
    (ParseCmdTokens, Seq<Seq<char>>),
> {
    Seq::new(v.len(), |i: int| (v[i].0, strs_view(v[i].1@)))
}

/// The executor's plan for a parsed command: one step per part, each
/// spawn marked as piped exactly when a separator follows it.
pub open spec fn spec_plan(parts: Seq<(ParseCmdTokens, Seq<Seq<char>>)>) -> Seq<StepSpec> {
    Seq::new(
        parts.len(),
        |i: int| spec_step_of(parts[i], i + 1 < parts.len() && parts[i + 1].0 is Separator),
    )
}

fn clone_strings_from(v: &Vec<String>, start: usize) -> (r: Vec<String>)
    requires
        start <= v@.len(),
    ensures
        strs_view(r@) == strs_view(v@).skip(start as int),
{
    let mut r: Vec<String> = Vec::new();
    let mut i = start;
    while i < v.len()
        invariant
            start <= i <= v@.len(),
            strs_view(r@) =~= strs_view(v@).subrange(start as int, i as int),
        decreases v@.len() - i,
    {
        let ghost prevr = r@;
        r.push(v[i].clone());
        proof {
            assert(r@ == prevr.push(v@[i as int]));
            assert(strs_view(r@) =~= strs_view(prevr).push(v@[i as int]@));
            assert(strs_view(v@).subrange(start as int, i + 1) =~= strs_view(v@).subrange(
                start as int,
                i as int,
            ).push(v@[i as int]@));
            assert(strs_view(r@) =~= strs_view(v@).subrange(start as int, i + 1));
        }
        i = i + 1;
    }
    proof {
        assert(strs_view(r@) =~= strs_view(v@).skip(start as int));
    }
    r
}

/// Plans a parsed command for the executor: dispatches the builtins `cd`
/// and `exit`, marks each external spawn as piped when a separator
/// follows, and flags unimplemented separators and empty commands.
pub fn plan_parts(parts: &Vec<(ParseCmdTokens, Vec<String>)>) -> (r: Vec<Step>)
    ensures
        r@.len() == parts@.len(),
        forall|i: int|
            0 <= i < r@.len() ==> step_view(#[trigger] r@[i]) == spec_plan(pp_view(parts@))[i],
{
    let ghost pv = pp_view(parts@);
    let mut r: Vec<Step> = Vec::new();
    let mut i: usize = 0;
    while i < parts.len()
        invariant
            0 <= i <= parts@.len(),
            pv == pp_view(parts@),
            r@.len() == i,
            forall|k: int| 0 <= k < i ==> step_view(#[trigger] r@[k]) == spec_plan(pv)[k],
        decreases parts@.len() - i,
    {
        let is_sep = match parts[i].0 {
            ParseCmdTokens::Separator => true,
            ParseCmdTokens::Command => false,
        };
        let argv = &parts[i].1;
        let step: Step;
        if is_sep {
            if argv.len() == 1 && str_eqs(&argv[0], "|") {
                proof {
                    assert(strs_view(argv@) =~= seq!["|"@]);
                }
                step = Step::PipeJoin;
            } else {
                proof {
                    if strs_view(argv@) == seq!["|"@] {
                        assert(seq!["|"@].len() == 1);
                        assert(strs_view(argv@).len() == 1);
                        assert(argv@.len() == 1);
                        assert(seq!["|"@][0] == "|"@);
                        assert(strs_view(argv@)[0] == argv@[0]@);
                        assert(argv@[0]@ == "|"@);
                    }
                }
                step = Step::Unimplemented;
            }
        } else if argv.len() == 0 {
            proof {
                assert(strs_view(argv@).len() == 0);
            }
            step = Step::EmptyCommand;
        } else if str_eqs(&argv[0], "cd") {
            let rest = clone_strings_from(argv, 1);
            proof {
                assert(strs_view(argv@).skip(1) =~= strs_view(argv@).drop_first());
            }
            step = Step::RunCd(rest);
        } else if str_eqs(&argv[0], "exit") {
            let rest = clone_strings_from(argv, 1);
            proof {
                assert(strs_view(argv@).skip(1) =~= strs_view(argv@).drop_first());
            }
            step = Step::RunExit(rest);
        } else {
            let piped = i + 1 < parts.len() && match parts[i + 1].0 {
                ParseCmdTokens::Separator => true,
                ParseCmdTokens::Command => false,
            };
            step = Step::Spawn { argv: clone_strings_from(argv, 0), piped };
            proof {
                assert(strs_view(argv@).skip(0) =~= strs_view(argv@));
            }
        }
        r.push(step);
        proof {
            assert(pv[i as int] == (parts@[i as int].0, strs_view(parts@[i as int].1@)));
            if i + 1 < parts@.len() {
                assert(pv[i + 1] == (parts@[i + 1].0, strs_view(parts@[i + 1].1@)));
            }
            assert(spec_plan(pv)[i as int] == spec_step_of(
                pv[i as int],
                i + 1 < pv.len() && pv[i + 1].0 is Separator,
            ));
            assert(step_view(r@[i as int]) == spec_plan(pv)[i as int]);
        }
        i = i + 1;
    }
    r
}

} // verus!
