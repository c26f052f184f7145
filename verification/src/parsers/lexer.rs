//! The two lexer stages: `line_to_cmds` splits a raw line into command texts
//! and separators (`;`, `&&`, `||`), honouring quotes, escapes and `#`
//! comments; `cmd_to_tokens` splits one command text into typed tokens.
//!
//! Both are single-pass state machines. Each has a specification-level
//! machine (`ltc_*`, `ctt_*`) mirroring the transition table it is defined
//! by; the executable code is proved to fold that machine over the input.

use vstd::prelude::*;

use super::tokens::LineToCmdTokens;
use crate::chars::{chars_of, string_of, trim_chars, trim_spec};

verus! {

#[derive(Clone, Copy, Eq, PartialEq, Structural, Debug)]
pub enum LineTCmdState {
    Normal,
    Escaped,
    SingleQuoted,
    DoubleQuoted,
    DoubleQuotedEscaped,
    WaitingSeparator,
}

/// One configuration of the line-splitting machine: its state, the text
/// accumulated for the current command, the candidate separator character,
/// the tokens already emitted, and whether a comment ended the line.
pub struct LtcConfig {
    pub state: LineTCmdState,
    pub token: Seq<char>,
    pub sep_before: char,
    pub out: Seq<(LineToCmdTokens, Seq<char>)>,
    pub done: bool,
}

pub open spec fn ltc_init() -> LtcConfig {
    LtcConfig {
        state: LineTCmdState::Normal,
        token: Seq::empty(),
        sep_before: '\0',
        out: Seq::empty(),
        done: false,
    }
}

/// Emits the accumulated text as a trimmed `Command` token, unless it is
/// empty.
pub open spec fn ltc_flush(
    out: Seq<(LineToCmdTokens, Seq<char>)>,
    token: Seq<char>,
) -> Seq<(LineToCmdTokens, Seq<char>)> {
    if token.len() > 0 {
        out.push((LineToCmdTokens::Command, trim_spec(token)))
    } else {
        out
    }
}

/// One transition of the line-splitting machine.
pub open spec fn ltc_step(cfg: LtcConfig, c: char) -> LtcConfig {
    if cfg.done {
        cfg
    } else {
        match cfg.state {
            LineTCmdState::Normal => {
                if c == '#' {
                    LtcConfig { done: true, ..cfg }
                } else if c == '\\' {
                    LtcConfig { state: LineTCmdState::Escaped, token: cfg.token.push(c), ..cfg }
                } else if c == '\'' {
                    LtcConfig {
                        state: LineTCmdState::SingleQuoted,
                        token: cfg.token.push(c),
                        ..cfg
                    }
                } else if c == '"' {
                    LtcConfig {
                        state: LineTCmdState::DoubleQuoted,
                        token: cfg.token.push(c),
                        ..cfg
                    }
                } else if c == ';' {
                    LtcConfig {
                        state: LineTCmdState::Normal,
                        token: Seq::empty(),
                        out: ltc_flush(cfg.out, cfg.token).push(
                            (LineToCmdTokens::Separator, seq![c]),
                        ),
                        ..cfg
                    }
                } else if c == '&' || c == '|' {
                    LtcConfig {
                        state: LineTCmdState::WaitingSeparator,
                        token: cfg.token.push(c),
                        sep_before: c,
                        ..cfg
                    }
                } else {
                    LtcConfig { state: LineTCmdState::Normal, token: cfg.token.push(c), ..cfg }
                }
            },
            LineTCmdState::WaitingSeparator => {
                if cfg.sep_before == c {
                    LtcConfig {
                        state: LineTCmdState::Normal,
                        token: Seq::empty(),
                        out: ltc_flush(cfg.out, cfg.token.drop_last()).push(
                            (LineToCmdTokens::Separator, seq![c, c]),
                        ),
                        ..cfg
                    }
                } else {
                    LtcConfig { state: LineTCmdState::Normal, token: cfg.token.push(c), ..cfg }
                }
            },
            LineTCmdState::Escaped => {
                LtcConfig { state: LineTCmdState::Normal, token: cfg.token.push(c), ..cfg }
            },
            LineTCmdState::SingleQuoted => {
                if c == '\'' {
                    LtcConfig { state: LineTCmdState::Normal, token: cfg.token.push(c), ..cfg }
                } else {
                    LtcConfig {
                        state: LineTCmdState::SingleQuoted,
                        token: cfg.token.push(c),
                        ..cfg
                    }
                }
            },
            LineTCmdState::DoubleQuoted => {
                if c == '"' {
                    LtcConfig { state: LineTCmdState::Normal, token: cfg.token.push(c), ..cfg }
                } else if c == '\\' {
                    LtcConfig { state: LineTCmdState::DoubleQuotedEscaped, ..cfg }
                } else {
                    LtcConfig {
                        state: LineTCmdState::DoubleQuoted,
                        token: cfg.token.push(c),
                        ..cfg
                    }
                }
            },
            LineTCmdState::DoubleQuotedEscaped => {
                if c == '"' || c == '\\' {
                    LtcConfig {
                        state: LineTCmdState::DoubleQuoted,
                        token: cfg.token.push(c),
                        ..cfg
                    }
                } else {
                    LtcConfig {
                        state: LineTCmdState::DoubleQuoted,
                        token: cfg.token.push('\\').push(c),
                        ..cfg
                    }
                }
            },
        }
    }
}

/// The machine folded over the input characters.
pub open spec fn ltc_run(cfg: LtcConfig, s: Seq<char>) -> LtcConfig
    decreases s.len(),
{
    if s.len() == 0 {
        cfg
    } else {
        ltc_run(ltc_step(cfg, s[0]), s.drop_first())
    }
}

/// What `line_to_cmds` returns for a given line.
pub open spec fn line_to_cmds_spec(s: Seq<char>) -> Seq<(LineToCmdTokens, Seq<char>)> {
    let cfg = ltc_run(ltc_init(), s);
    ltc_flush(cfg.out, cfg.token)
}

proof fn lemma_ltc_run_done(cfg: LtcConfig, s: Seq<char>)
    requires
        cfg.done,
    ensures
        ltc_run(cfg, s) == cfg,
    decreases s.len(),
{
    if s.len() > 0 {
        lemma_ltc_run_done(cfg, s.drop_first());
    }
}

proof fn lemma_ltc_run_snoc(cfg: LtcConfig, s: Seq<char>, c: char)
    ensures
        ltc_run(cfg, s.push(c)) == ltc_step(ltc_run(cfg, s), c),
    decreases s.len(),
{
    if s.len() == 0 {
        assert(s.push(c)[0] == c);
        assert(s.push(c).drop_first() =~= Seq::<char>::empty());
        assert(ltc_run(cfg, s.push(c)) == ltc_run(ltc_step(cfg, c), s.push(c).drop_first()));
        assert(ltc_run(ltc_step(cfg, c), Seq::<char>::empty()) == ltc_step(cfg, c));
        assert(ltc_run(cfg, s) == cfg);
    } else {
        assert(s.push(c)[0] == s[0]);
        assert(s.push(c).drop_first() =~= s.drop_first().push(c));
        assert(ltc_run(cfg, s.push(c)) == ltc_run(ltc_step(cfg, s[0]), s.drop_first().push(c)));
        lemma_ltc_run_snoc(ltc_step(cfg, s[0]), s.drop_first(), c);
        assert(ltc_run(cfg, s) == ltc_run(ltc_step(cfg, s[0]), s.drop_first()));
    }
}

proof fn lemma_ltc_run_concat(cfg: LtcConfig, a: Seq<char>, b: Seq<char>)
    ensures
        ltc_run(cfg, a + b) == ltc_run(ltc_run(cfg, a), b),
    decreases a.len(),
{
    if a.len() == 0 {
        assert(a + b =~= b);
    } else {
        assert((a + b)[0] == a[0]);
        assert((a + b).drop_first() =~= a.drop_first() + b);
        lemma_ltc_run_concat(ltc_step(cfg, a[0]), a.drop_first(), b);
    }
}

/// The emitted token pairs of the executable lexer match the
/// specification-level ones.
pub open spec fn line_tokens_match(
    v: Seq<(LineToCmdTokens, String)>,
    o: Seq<(LineToCmdTokens, Seq<char>)>,
) -> bool {
    &&& v.len() == o.len()
    &&& forall|i: int| 0 <= i < v.len() ==> #[trigger] v[i].0 == o[i].0 && v[i].1@ == o[i].1
}

/// Splits a raw line into trimmed command texts and the separators `;`,
/// `&&`, `||` between them. Quoted or escaped separator characters stay in
/// the command text, and an unquoted `#` ends the line.
pub fn line_to_cmds(line: &str) -> (r: Vec<(LineToCmdTokens, String)>)
    ensures
        line_tokens_match(r@, line_to_cmds_spec(line@)),
{
    let s = chars_of(line);
    let mut result: Vec<(LineToCmdTokens, String)> = Vec::new();
    let mut token: Vec<char> = Vec::new();
    let mut sep_before: char = '\0';
    let mut state = LineTCmdState::Normal;
    let mut commented = false;
    let ghost input = line@;
    let mut i: usize = 0;
    while i < s.len() && !commented
        invariant
            0 <= i <= s@.len(),
            s@ == input,
            ({
                let cfg = if commented {
                    ltc_run(ltc_init(), input)
                } else {
                    ltc_run(ltc_init(), input.take(i as int))
                };
                &&& cfg.state == state
                &&& cfg.token == token@
                &&& cfg.sep_before == sep_before
                &&& cfg.done == commented
                &&& line_tokens_match(result@, cfg.out)
            }),
            state is WaitingSeparator ==> token@.len() > 0,
        decreases s@.len() - i,
    {
        let c = s[i];
        let ghost pre = ltc_run(ltc_init(), input.take(i as int));
        proof {
            assert(input.take(i + 1).drop_last() =~= input.take(i as int));
            assert(input.take(i + 1) =~= input.take(i as int).push(input[i as int]));
            lemma_ltc_run_snoc(ltc_init(), input.take(i as int), input[i as int]);
        }
        match state {
            LineTCmdState::Normal => {
                if c == '#' {
                    commented = true;
                    proof {
                        assert(input =~= input.take(i + 1) + input.skip(i + 1));
                        lemma_ltc_run_concat(ltc_init(), input.take(i + 1), input.skip(i + 1));
                        lemma_ltc_run_done(ltc_step(pre, '#'), input.skip(i + 1));
                    }
                } else if c == '\\' {
                    token.push(c);
                    state = LineTCmdState::Escaped;
                } else if c == '\'' {
                    token.push(c);
                    state = LineTCmdState::SingleQuoted;
                } else if c == '"' {
                    token.push(c);
                    state = LineTCmdState::DoubleQuoted;
                } else if c == ';' {
                    if token.len() > 0 {
                        let trimmed = trim_chars(&token);
                        result.push((LineToCmdTokens::Command, string_of(&trimmed)));
                    }
                    let mut sep: Vec<char> = Vec::new();
                    sep.push(c);
                    proof {
                        assert(sep@ =~= seq![c]);
                    }
                    result.push((LineToCmdTokens::Separator, string_of(&sep)));
                    token = Vec::new();
                    proof {
                        let nxt = ltc_step(pre, c);
                        assert(nxt.token == token@);
                        assert(nxt.out == ltc_flush(pre.out, pre.token).push(
                            (LineToCmdTokens::Separator, seq![c]),
                        ));
                        assert(line_tokens_match(result@, nxt.out));
                    }
                } else if c == '&' || c == '|' {
                    sep_before = c;
                    token.push(c);
                    state = LineTCmdState::WaitingSeparator;
                } else {
                    token.push(c);
                }
            },
            LineTCmdState::WaitingSeparator => {
                if sep_before == c {
                    let _ = token.pop();
                    if token.len() > 0 {
                        let trimmed = trim_chars(&token);
                        result.push((LineToCmdTokens::Command, string_of(&trimmed)));
                    }
                    let mut sep: Vec<char> = Vec::new();
                    sep.push(c);
                    sep.push(c);
                    proof {
                        assert(sep@ =~= seq![c, c]);
                    }
                    result.push((LineToCmdTokens::Separator, string_of(&sep)));
                    token = Vec::new();
                    state = LineTCmdState::Normal;
                    proof {
                        let nxt = ltc_step(pre, c);
                        assert(nxt.token == token@);
                        assert(line_tokens_match(result@, nxt.out));
                    }
                } else {
                    token.push(c);
                    state = LineTCmdState::Normal;
                }
            },
            LineTCmdState::Escaped => {
                token.push(c);
                state = LineTCmdState::Normal;
            },
            LineTCmdState::SingleQuoted => {
                token.push(c);
                if c == '\'' {
                    state = LineTCmdState::Normal;
                }
            },
            LineTCmdState::DoubleQuoted => {
                if c == '"' {
                    token.push(c);
                    state = LineTCmdState::Normal;
                } else if c == '\\' {
                    state = LineTCmdState::DoubleQuotedEscaped;
                } else {
                    token.push(c);
                }
            },
            LineTCmdState::DoubleQuotedEscaped => {
                if c == '"' || c == '\\' {
                    token.push(c);
                } else {
                    token.push('\\');
                    token.push(c);
                }
                state = LineTCmdState::DoubleQuoted;
            },
        }
        i = i + 1;
    }
    proof {
        if !commented {
            assert(input.take(i as int) =~= input);
        }
    }
    if token.len() > 0 {
        let trimmed = trim_chars(&token);
        result.push((LineToCmdTokens::Command, string_of(&trimmed)));
    }
    result
}

/// The line-splitting machine copies its input verbatim on this input: it
/// never hits an unquoted `#` or `;`, never completes a doubled `&&` or
/// `||`, and never reads a backslash inside double quotes (which would
/// collapse an escape).
pub open spec fn ltc_verbatim(cfg: LtcConfig, s: Seq<char>) -> bool
    decreases s.len(),
{
    s.len() == 0 || {
        let c = s[0];
        &&& !cfg.done
        &&& !(cfg.state is DoubleQuotedEscaped)
        &&& !(cfg.state is Normal && (c == '#' || c == ';'))
        &&& !(cfg.state is WaitingSeparator && cfg.sep_before == c)
        &&& !(cfg.state is DoubleQuoted && c == '\\')
        &&& ltc_verbatim(ltc_step(cfg, c), s.drop_first())
    }
}

proof fn lemma_ltc_verbatim_run(cfg: LtcConfig, s: Seq<char>)
    requires
        ltc_verbatim(cfg, s),
    ensures
        ltc_run(cfg, s).token == cfg.token + s,
        ltc_run(cfg, s).out == cfg.out,
    decreases s.len(),
{
    if s.len() == 0 {
        assert(cfg.token + s =~= cfg.token);
    } else {
        let c = s[0];
        let nxt = ltc_step(cfg, c);
        assert(nxt.token == cfg.token.push(c));
        assert(nxt.out == cfg.out);
        lemma_ltc_verbatim_run(nxt, s.drop_first());
        assert(cfg.token.push(c) + s.drop_first() =~= cfg.token + s);
    }
}

/// Round trip: a non-empty line on which the machine stays verbatim — no
/// unquoted `#` or `;`, no completed `&&` or `||`, no escape collapsed
/// inside double quotes — comes back as exactly one `Command` holding the
/// trimmed line.
pub proof fn lemma_line_round_trip(s: Seq<char>)
    requires
        ltc_verbatim(ltc_init(), s),
        s.len() > 0,
    ensures
        line_to_cmds_spec(s) =~= seq![(LineToCmdTokens::Command, trim_spec(s))],
{
    lemma_ltc_verbatim_run(ltc_init(), s);
    let cfg = ltc_run(ltc_init(), s);
    assert(cfg.token =~= s);
    assert(cfg.out =~= Seq::<(LineToCmdTokens, Seq<char>)>::empty());
}

#[derive(Clone, Copy, Eq, PartialEq, Structural, Debug)]
pub enum CmdTTokenState {
    Normal,
    Escaped,
    SingleQuoted,
    DoubleQuoted,
    DoubleQuotedEscaped,
    DollarVariable,
}

/// A character that may stand in a variable name: a Unicode letter or
/// number, `_`, or `?`.
pub open spec fn spec_valid_name_check(c: char) -> bool {
    (crate::chars::is_alphanum(c) || c == '_' || c == '?') && c != '$'
}

fn valid_name_check(c: char) -> (r: bool)
    ensures
        r == spec_valid_name_check(c),
{
    (crate::chars::alphanumeric(c) || c == '_' || c == '?') && c != '$'
}

/// Every character of the name may stand in a variable name.
pub open spec fn spec_is_valid_name(s: Seq<char>) -> bool {
    forall|i: int| 0 <= i < s.len() ==> spec_valid_name_check(s[i])
}

fn valid_name_chars(v: &Vec<char>) -> (r: bool)
    ensures
        r == spec_is_valid_name(v@),
{
    let mut i: usize = 0;
    while i < v.len()
        invariant
            0 <= i <= v@.len(),
            forall|k: int| 0 <= k < i ==> spec_valid_name_check(v@[k]),
        decreases v@.len() - i,
    {
        if !valid_name_check(v[i]) {
            return false;
        }
        i = i + 1;
    }
    true
}

/// Whether the string can be the name on the left of an assignment.
pub fn is_valid_variable_name(name: String) -> (r: bool)
    ensures
        r == spec_is_valid_name(name@),
{
    let v = chars_of(name.as_str());
    valid_name_chars(&v)
}

use super::tokens::CmdTokens;

/// One configuration of the tokenizing machine: its state, the accumulated
/// token text, whether an `=` made the current token an assignment, and the
/// tokens already emitted (kind, text, join flag).
pub struct CttConfig {
    pub state: CmdTTokenState,
    pub token: Seq<char>,
    pub is_definition: bool,
    pub out: Seq<(CmdTokens, Seq<char>, bool)>,
}

pub open spec fn ctt_init() -> CttConfig {
    CttConfig {
        state: CmdTTokenState::Normal,
        token: Seq::empty(),
        is_definition: false,
        out: Seq::empty(),
    }
}

/// Emits the accumulated text as a trimmed `Definition` or `Normal` token,
/// unless it is empty; `join` records adjacency with what follows.
pub open spec fn ctt_flush_word(cfg: CttConfig, join: bool) -> (Seq<
    (CmdTokens, Seq<char>, bool),
>, bool) {
    if cfg.token.len() > 0 {
        let kind = if cfg.is_definition {
            CmdTokens::Definition
        } else {
            CmdTokens::Normal
        };
        (cfg.out.push((kind, trim_spec(cfg.token), join)), false)
    } else {
        (cfg.out, cfg.is_definition)
    }
}

/// One transition of the tokenizing machine.
pub open spec fn ctt_step(cfg: CttConfig, c: char) -> CttConfig {
    match cfg.state {
        CmdTTokenState::Normal => {
            if c == '\\' {
                CttConfig { state: CmdTTokenState::Escaped, ..cfg }
            } else if c == '\'' {
                CttConfig { state: CmdTTokenState::SingleQuoted, ..cfg }
            } else if c == '"' {
                CttConfig { state: CmdTTokenState::DoubleQuoted, ..cfg }
            } else if c == '>' || c == '<' || c == '|' {
                let out1 = if cfg.token.len() > 0 {
                    cfg.out.push((CmdTokens::Normal, trim_spec(cfg.token), false))
                } else {
                    cfg.out
                };
                CttConfig {
                    state: CmdTTokenState::Normal,
                    token: Seq::empty(),
                    is_definition: false,
                    out: out1.push((CmdTokens::Pipe, seq![c], false)),
                }
            } else if c == '=' {
                if spec_is_valid_name(cfg.token) {
                    CttConfig { is_definition: true, token: cfg.token.push(c), ..cfg }
                } else {
                    cfg
                }
            } else if c == ' ' || c == '$' {
                let (out1, def1) = ctt_flush_word(cfg, c == '$');
                CttConfig {
                    state: if c == ' ' {
                        CmdTTokenState::Normal
                    } else {
                        CmdTTokenState::DollarVariable
                    },
                    token: Seq::empty(),
                    is_definition: def1,
                    out: out1,
                }
            } else {
                CttConfig { state: CmdTTokenState::Normal, token: cfg.token.push(c), ..cfg }
            }
        },
        CmdTTokenState::Escaped => {
            CttConfig { state: CmdTTokenState::Normal, token: cfg.token.push(c), ..cfg }
        },
        CmdTTokenState::DollarVariable => {
            if c == '\\' {
                CttConfig { state: CmdTTokenState::Escaped, ..cfg }
            } else if c == '\'' {
                CttConfig { state: CmdTTokenState::SingleQuoted, ..cfg }
            } else if c == '"' {
                CttConfig { state: CmdTTokenState::DoubleQuoted, ..cfg }
            } else if c == ' ' {
                CttConfig {
                    state: CmdTTokenState::Normal,
                    token: Seq::empty(),
                    out: cfg.out.push(
                        (CmdTokens::Variable, trim_spec(cfg.token.push(c)), false),
                    ),
                    ..cfg
                }
            } else if !spec_valid_name_check(c) {
                CttConfig {
                    state: CmdTTokenState::Normal,
                    token: seq![c],
                    out: cfg.out.push((CmdTokens::Variable, trim_spec(cfg.token), true)),
                    ..cfg
                }
            } else {
                CttConfig { token: cfg.token.push(c), ..cfg }
            }
        },
        CmdTTokenState::SingleQuoted => {
            if c == '\'' {
                CttConfig { state: CmdTTokenState::Normal, ..cfg }
            } else {
                CttConfig { token: cfg.token.push(c), ..cfg }
            }
        },
        CmdTTokenState::DoubleQuoted => {
            if c == '"' {
                CttConfig { state: CmdTTokenState::Normal, ..cfg }
            } else if c == '\\' {
                CttConfig { state: CmdTTokenState::DoubleQuotedEscaped, ..cfg }
            } else {
                CttConfig { token: cfg.token.push(c), ..cfg }
            }
        },
        CmdTTokenState::DoubleQuotedEscaped => {
            if c == '"' || c == '\\' {
                CttConfig {
                    state: CmdTTokenState::DoubleQuoted,
                    token: cfg.token.push(c),
                    ..cfg
                }
            } else {
                CttConfig {
                    state: CmdTTokenState::DoubleQuoted,
                    token: cfg.token.push('\\').push(c),
                    ..cfg
                }
            }
        },
    }
}

/// The tokenizing machine folded over the input characters.
pub open spec fn ctt_run(cfg: CttConfig, s: Seq<char>) -> CttConfig
    decreases s.len(),
{
    if s.len() == 0 {
        cfg
    } else {
        ctt_run(ctt_step(cfg, s[0]), s.drop_first())
    }
}

/// A command text is well formed when the machine does not end inside a
/// quote or an escape: exactly then `cmd_to_tokens` succeeds.
pub open spec fn ctt_accepts(s: Seq<char>) -> bool {
    let st = ctt_run(ctt_init(), s).state;
    st is Normal || st is DollarVariable
}

/// What `cmd_to_tokens` returns on a well-formed command text.
pub open spec fn cmd_to_tokens_spec(s: Seq<char>) -> Seq<(CmdTokens, Seq<char>, bool)> {
    let cfg = ctt_run(ctt_init(), s);
    match cfg.state {
        CmdTTokenState::Normal => ctt_flush_word(cfg, false).0,
        CmdTTokenState::DollarVariable => if cfg.token.len() > 0 {
            cfg.out.push((CmdTokens::Variable, trim_spec(cfg.token), false))
        } else {
            cfg.out
        },
        _ => cfg.out,
    }
}

proof fn lemma_ctt_run_snoc(cfg: CttConfig, s: Seq<char>, c: char)
    ensures
        ctt_run(cfg, s.push(c)) == ctt_step(ctt_run(cfg, s), c),
    decreases s.len(),
{
    if s.len() == 0 {
        assert(s.push(c)[0] == c);
        assert(s.push(c).drop_first() =~= Seq::<char>::empty());
        assert(ctt_run(cfg, s.push(c)) == ctt_run(ctt_step(cfg, c), s.push(c).drop_first()));
    } else {
        assert(s.push(c)[0] == s[0]);
        assert(s.push(c).drop_first() =~= s.drop_first().push(c));
        assert(ctt_run(cfg, s.push(c)) == ctt_run(ctt_step(cfg, s[0]), s.drop_first().push(c)));
        lemma_ctt_run_snoc(ctt_step(cfg, s[0]), s.drop_first(), c);
    }
}

/// The emitted token triples of the executable tokenizer match the
/// specification-level ones.
pub open spec fn cmd_tokens_match(
    v: Seq<(CmdTokens, String, bool)>,
    o: Seq<(CmdTokens, Seq<char>, bool)>,
) -> bool {
    &&& v.len() == o.len()
    &&& forall|i: int|
        0 <= i < v.len() ==> #[trigger] v[i].0 == o[i].0 && v[i].1@ == o[i].1 && v[i].2 == o[i].2
}

/// Splits one command text into typed tokens: `Normal` fragments, `Pipe`
/// operators, `NAME=...` definitions and `$` variable references, each with
/// a flag saying whether it joins the following token into one word.
/// Fails exactly where the text ends inside a quote or an escape. A
/// pending definition flushed by a pipe operator is emitted as `Normal`,
/// so every `Definition` token carries its `=`
/// (`lemma_cmd_tokens_definitions`).
pub fn cmd_to_tokens(line: &str) -> (r: Result<
    Vec<(CmdTokens, String, bool)>,
    super::errors::SyntaxError,
>)
    ensures
        r is Ok <==> ctt_accepts(line@),
        r is Ok ==> cmd_tokens_match(r->Ok_0@, cmd_to_tokens_spec(line@)),
{
    let s = chars_of(line);
    let mut result: Vec<(CmdTokens, String, bool)> = Vec::new();
    let mut token: Vec<char> = Vec::new();
    let mut is_definition = false;
    let mut state = CmdTTokenState::Normal;
    let ghost input = line@;
    let mut i: usize = 0;
    while i < s.len()
        invariant
            0 <= i <= s@.len(),
            s@ == input,
            ({
                let cfg = ctt_run(ctt_init(), input.take(i as int));
                &&& cfg.state == state
                &&& cfg.token == token@
                &&& cfg.is_definition == is_definition
                &&& cmd_tokens_match(result@, cfg.out)
            }),
        decreases s@.len() - i,
    {
        let c = s[i];
        let ghost pre = ctt_run(ctt_init(), input.take(i as int));
        proof {
            assert(input.take(i + 1) =~= input.take(i as int).push(input[i as int]));
            lemma_ctt_run_snoc(ctt_init(), input.take(i as int), input[i as int]);
        }
        match state {
            CmdTTokenState::Normal => {
                if c == '\\' {
                    state = CmdTTokenState::Escaped;
                } else if c == '\'' {
                    state = CmdTTokenState::SingleQuoted;
                } else if c == '"' {
                    state = CmdTTokenState::DoubleQuoted;
                } else if c == '>' || c == '<' || c == '|' {
                    if token.len() > 0 {
                        let trimmed = trim_chars(&token);
                        result.push((CmdTokens::Normal, string_of(&trimmed), false));
                    }
                    let mut p: Vec<char> = Vec::new();
                    p.push(c);
                    proof {
                        assert(p@ =~= seq![c]);
                    }
                    result.push((CmdTokens::Pipe, string_of(&p), false));
                    token = Vec::new();
                    is_definition = false;
                    proof {
                        let nxt = ctt_step(pre, c);
                        assert(nxt.token == token@);
                        let out1 = if pre.token.len() > 0 {
                            pre.out.push((CmdTokens::Normal, trim_spec(pre.token), false))
                        } else {
                            pre.out
                        };
                        assert(nxt.out == out1.push((CmdTokens::Pipe, seq![c], false)));
                        assert(cmd_tokens_match(result@, nxt.out));
                    }
                } else if c == '=' {
                    if valid_name_chars(&token) {
                        is_definition = true;
                        token.push(c);
                    }
                } else if c == ' ' || c == '$' {
                    if token.len() > 0 {
                        let kind = if is_definition {
                            CmdTokens::Definition
                        } else {
                            CmdTokens::Normal
                        };
                        is_definition = false;
                        let trimmed = trim_chars(&token);
                        result.push((kind, string_of(&trimmed), c == '$'));
                    }
                    token = Vec::new();
                    state = if c == ' ' {
                        CmdTTokenState::Normal
                    } else {
                        CmdTTokenState::DollarVariable
                    };
                    proof {
                        let nxt = ctt_step(pre, c);
                        assert(nxt.token == token@);
                        assert(nxt.is_definition == is_definition);
                        assert(cmd_tokens_match(result@, nxt.out));
                    }
                } else {
                    token.push(c);
                }
            },
            CmdTTokenState::Escaped => {
                token.push(c);
                state = CmdTTokenState::Normal;
            },
            CmdTTokenState::DollarVariable => {
                if c == '\\' {
                    state = CmdTTokenState::Escaped;
                } else if c == '\'' {
                    state = CmdTTokenState::SingleQuoted;
                } else if c == '"' {
                    state = CmdTTokenState::DoubleQuoted;
                } else if c == ' ' {
                    token.push(c);
                    let trimmed = trim_chars(&token);
                    result.push((CmdTokens::Variable, string_of(&trimmed), false));
                    token = Vec::new();
                    state = CmdTTokenState::Normal;
                    proof {
                        let nxt = ctt_step(pre, c);
                        assert(nxt.token == token@);
                        assert(cmd_tokens_match(result@, nxt.out));
                    }
                } else if !valid_name_check(c) {
                    let trimmed = trim_chars(&token);
                    result.push((CmdTokens::Variable, string_of(&trimmed), true));
                    token = Vec::new();
                    token.push(c);
                    state = CmdTTokenState::Normal;
                    proof {
                        let nxt = ctt_step(pre, c);
                        assert(nxt.token =~= token@);
                        assert(nxt.out == pre.out.push(
                            (CmdTokens::Variable, trim_spec(pre.token), true),
                        ));
                        assert(cmd_tokens_match(result@, nxt.out));
                    }
                } else {
                    token.push(c);
                }
            },
            CmdTTokenState::SingleQuoted => {
                if c == '\'' {
                    state = CmdTTokenState::Normal;
                } else {
                    token.push(c);
                }
            },
            CmdTTokenState::DoubleQuoted => {
                if c == '"' {
                    state = CmdTTokenState::Normal;
                } else if c == '\\' {
                    state = CmdTTokenState::DoubleQuotedEscaped;
                } else {
                    token.push(c);
                }
            },
            CmdTTokenState::DoubleQuotedEscaped => {
                if c == '"' || c == '\\' {
                    token.push(c);
                } else {
                    token.push('\\');
                    token.push(c);
                }
                state = CmdTTokenState::DoubleQuoted;
            },
        }
        i = i + 1;
    }
    proof {
        assert(input.take(i as int) =~= input);
    }
    match state {
        CmdTTokenState::Normal => {
            if token.len() > 0 {
                let kind = if is_definition {
                    CmdTokens::Definition
                } else {
                    CmdTokens::Normal
                };
                let trimmed = trim_chars(&token);
                result.push((kind, string_of(&trimmed), false));
            }
            proof {
                let cfg = ctt_run(ctt_init(), input);
                assert(cmd_to_tokens_spec(input) == ctt_flush_word(cfg, false).0);
                assert(cmd_tokens_match(result@, cmd_to_tokens_spec(input)));
            }
            Ok(result)
        },
        CmdTTokenState::DollarVariable => {
            if token.len() > 0 {
                let trimmed = trim_chars(&token);
                result.push((CmdTokens::Variable, string_of(&trimmed), false));
            }
            proof {
                let cfg = ctt_run(ctt_init(), input);
                assert(cmd_tokens_match(result@, cmd_to_tokens_spec(input)));
            }
            Ok(result)
        },
        _ => Err(super::errors::SyntaxError),
    }
}

proof fn lemma_push_contains(s: Seq<char>, c: char, x: char)
    requires
        s.contains(x),
    ensures
        s.push(c).contains(x),
{
    let i = choose|i: int| 0 <= i < s.len() && s[i] == x;
    assert(s.push(c)[i] == x);
}

/// A machine configuration in which every pending or emitted assignment
/// carries its `=`.
pub open spec fn ctt_defs_ok(cfg: CttConfig) -> bool {
    &&& (cfg.is_definition ==> cfg.token.contains('='))
    &&& (cfg.state is DollarVariable ==> !cfg.is_definition)
    &&& (forall|i: int|
        0 <= i < cfg.out.len() ==> (#[trigger] cfg.out[i]).0 is Definition ==> cfg.out[i].1.contains(
            '=',
        ))
}

proof fn lemma_ctt_step_defs(cfg: CttConfig, c: char)
    requires
        ctt_defs_ok(cfg),
    ensures
        ctt_defs_ok(ctt_step(cfg, c)),
{
    let nxt = ctt_step(cfg, c);
    if cfg.is_definition && cfg.token.contains('=') {
        lemma_push_contains(cfg.token, c, '=');
        lemma_push_contains(cfg.token, '\\', '=');
        lemma_push_contains(cfg.token.push('\\'), c, '=');
    }
    if cfg.state is Normal && !(c == '\\' || c == '\'' || c == '"' || c == '>' || c == '<' || c
        == '|') {
        if c == '=' {
            if spec_is_valid_name(cfg.token) {
                assert(nxt.token.last() == '=');
                assert(nxt.token.contains('='));
            }
        } else if c == ' ' || c == '$' {
            if cfg.token.len() > 0 && cfg.is_definition {
                crate::chars::lemma_trim_contains(cfg.token, '=');
            }
        }
    }
}

proof fn lemma_ctt_run_defs(cfg: CttConfig, s: Seq<char>)
    requires
        ctt_defs_ok(cfg),
    ensures
        ctt_defs_ok(ctt_run(cfg, s)),
    decreases s.len(),
{
    if s.len() > 0 {
        lemma_ctt_step_defs(cfg, s[0]);
        lemma_ctt_run_defs(ctt_step(cfg, s[0]), s.drop_first());
    }
}

/// Every `Definition` token the tokenizer emits contains an `=`.
pub proof fn lemma_cmd_tokens_definitions(s: Seq<char>)
    ensures
        forall|i: int|
            0 <= i < cmd_to_tokens_spec(s).len() ==> (#[trigger] cmd_to_tokens_spec(s)[i]).0
                is Definition ==> cmd_to_tokens_spec(s)[i].1.contains('='),
{
    lemma_ctt_run_defs(ctt_init(), s);
    let cfg = ctt_run(ctt_init(), s);
    if cfg.state is Normal && cfg.token.len() > 0 && cfg.is_definition {
        crate::chars::lemma_trim_contains(cfg.token, '=');
    }
}

} // verus!
