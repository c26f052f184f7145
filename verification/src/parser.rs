//! A separator-driven word splitter: `Parser` hands out one argument at a
//! time from a command line, honouring quotes and escapes, and its own
//! `line_to_cmds` splits a raw line at `;`, `&&` and `||`.
//!
//! Both are single-pass state machines with specification-level
//! counterparts (`pn_spec`, `ltc_*`) that the executable code is proved to
//! follow.

use vstd::prelude::*;

use crate::chars::{chars_of, string_of, trim_chars, trim_spec};

verus! {

#[derive(Clone, Copy, Eq, PartialEq, Structural, Debug)]
pub enum ParsingState {
    Normal,
    Escaped,
    SingleQuoted,
    DoubleQuoted,
    DoubleQuotedEscaped,
    Separator,
}

/// What one call of `Parser::next` does from a given state: the state and
/// input left afterwards, and the argument handed out, if any.
pub open spec fn pn_spec(
    state: ParsingState,
    rem: Seq<char>,
    sep: Seq<char>,
    keep: bool,
    arg: Seq<char>,
    wq: bool,
) -> (ParsingState, Seq<char>, Option<Seq<char>>)
    decreases rem.len(),
{
    if rem.len() == 0 {
        (state, rem, if arg.len() > 0 || wq {
            Some(arg)
        } else {
            None
        })
    } else {
        let c = rem[0];
        let rest = rem.drop_first();
        match state {
            ParsingState::Normal => {
                if c == '#' {
                    (state, rest, if arg.len() > 0 || wq {
                        Some(arg)
                    } else {
                        None
                    })
                } else if c == '\\' {
                    pn_spec(
                        ParsingState::Escaped,
                        rest,
                        sep,
                        keep,
                        if keep {
                            arg.push(c)
                        } else {
                            arg
                        },
                        wq,
                    )
                } else if c == '\'' {
                    pn_spec(
                        ParsingState::SingleQuoted,
                        rest,
                        sep,
                        keep,
                        if keep {
                            arg.push(c)
                        } else {
                            arg
                        },
                        wq,
                    )
                } else if c == '"' {
                    pn_spec(
                        ParsingState::DoubleQuoted,
                        rest,
                        sep,
                        keep,
                        if keep {
                            arg.push(c)
                        } else {
                            arg
                        },
                        wq,
                    )
                } else if c == sep[0] {
                    if sep.len() > 1 {
                        pn_spec(ParsingState::Separator, rest, sep, keep, arg, wq)
                    } else if arg.len() > 0 || wq {
                        (ParsingState::Normal, rest, Some(arg))
                    } else {
                        pn_spec(ParsingState::Normal, rest, sep, keep, arg, wq)
                    }
                } else {
                    pn_spec(ParsingState::Normal, rest, sep, keep, arg.push(c), wq)
                }
            },
            ParsingState::Escaped => pn_spec(ParsingState::Normal, rest, sep, keep, arg.push(c), wq),
            ParsingState::SingleQuoted => {
                if c == '\'' {
                    pn_spec(ParsingState::Normal, rest, sep, keep, arg, true)
                } else {
                    pn_spec(ParsingState::SingleQuoted, rest, sep, keep, arg.push(c), wq)
                }
            },
            ParsingState::DoubleQuoted => {
                if c == '"' {
                    pn_spec(ParsingState::Normal, rest, sep, keep, arg, true)
                } else if c == '\\' {
                    pn_spec(ParsingState::DoubleQuotedEscaped, rest, sep, keep, arg, wq)
                } else {
                    pn_spec(ParsingState::DoubleQuoted, rest, sep, keep, arg.push(c), wq)
                }
            },
            ParsingState::DoubleQuotedEscaped => {
                if c == '"' || c == '\\' {
                    pn_spec(ParsingState::DoubleQuoted, rest, sep, keep, arg.push(c), wq)
                } else {
                    pn_spec(ParsingState::DoubleQuoted, rest, sep, keep, arg.push('\\').push(c), wq)
                }
            },
            ParsingState::Separator => {
                if arg.len() > 0 || wq {
                    (ParsingState::Normal, rest, Some(arg))
                } else {
                    pn_spec(ParsingState::Normal, rest, sep, keep, arg, wq)
                }
            },
        }
    }
}

/// Splits a command line into arguments, one per call of `next`. The
/// separator is one or two characters; of a two-character separator only
/// the first is compared, and the character after it is consumed.
pub struct Parser {
    state: ParsingState,
    cmdline: Vec<char>,
    pos: usize,
    separator: String,
    keep_escape: bool,
}

impl Parser {
    pub closed spec fn state_view(&self) -> ParsingState {
        self.state
    }

    /// The input characters not yet consumed.
    pub closed spec fn rem_view(&self) -> Seq<char> {
        self.cmdline@.skip(self.pos as int)
    }

    pub closed spec fn sep_view(&self) -> Seq<char> {
        self.separator@
    }

    pub closed spec fn keep_view(&self) -> bool {
        self.keep_escape
    }

    pub closed spec fn wf(&self) -> bool {
        self.pos <= self.cmdline@.len() && self.separator@.len() > 0
    }

    /// A parser over `cmdline` with the given separator. The separator must
    /// not be empty: `next` reads its first character.
    pub fn new(cmdline: &str, sep: String, keep_escape: bool) -> (r: Parser)
        requires
            sep@.len() > 0,
        ensures
            r.wf(),
            r.state_view() == ParsingState::Normal,
            r.rem_view() == cmdline@,
            r.sep_view() == sep@,
            r.keep_view() == keep_escape,
    {
        let r = Parser {
            state: ParsingState::Normal,
            cmdline: chars_of(cmdline),
            pos: 0,
            separator: sep,
            keep_escape,
        };
        proof {
            assert(r.rem_view() =~= cmdline@);
        }
        r
    }

    /// The next argument of the command line, or `None` when the input is
    /// exhausted without one.
    pub fn next(&mut self) -> (r: Option<String>)
        requires
            old(self).wf(),
        ensures
            final(self).wf(),
            final(self).sep_view() == old(self).sep_view(),
            final(self).keep_view() == old(self).keep_view(),
            ({
                let t = pn_spec(
                    old(self).state_view(),
                    old(self).rem_view(),
                    old(self).sep_view(),
                    old(self).keep_view(),
                    Seq::empty(),
                    false,
                );
                &&& final(self).state_view() == t.0
                &&& final(self).rem_view() == t.1
                &&& match (r, t.2) {
                    (Some(a), Some(b)) => a@ == b,
                    (None, None) => true,
                    _ => false,
                }
            }),
    {
        let ghost st0 = self.state;
        let ghost rem0 = self.rem_view();
        let ghost sep0 = self.separator@;
        let ghost keep0 = self.keep_escape;
        let ghost target = pn_spec(st0, rem0, sep0, keep0, Seq::empty(), false);
        let mut arg: Vec<char> = Vec::new();
        let mut was_quoted = false;
        let keep = self.keep_escape;
        let sep_first = self.separator.as_str().get_char(0);
        let sep_long = self.separator.as_str().unicode_len() > 1;
        while self.pos < self.cmdline.len()
            invariant
                self.wf(),
                st0 == old(self).state_view(),
                rem0 == old(self).rem_view(),
                sep0 == old(self).sep_view(),
                keep0 == old(self).keep_view(),
                target == pn_spec(st0, rem0, sep0, keep0, Seq::empty(), false),
                self.separator@ == sep0,
                self.keep_escape == keep0,
                keep == keep0,
                sep_first == sep0[0],
                sep_long == (sep0.len() > 1),
                target == pn_spec(
                    self.state,
                    self.rem_view(),
                    sep0,
                    keep0,
                    arg@,
                    was_quoted,
                ),
            decreases self.cmdline@.len() - self.pos,
        {
            let ghost rem_pre = self.rem_view();
            let ghost arg_pre = arg@;
            let c = self.cmdline[self.pos];
            self.pos = self.pos + 1;
            proof {
                assert(rem_pre[0] == c);
                assert(self.rem_view() =~= rem_pre.drop_first());
            }
            match self.state {
                ParsingState::Normal => {
                    if c == '#' {
                        if arg.len() > 0 || was_quoted {
                            return Some(string_of(&arg));
                        } else {
                            return None;
                        }
                    } else if c == '\\' {
                        if keep {
                            arg.push(c);
                        }
                        self.state = ParsingState::Escaped;
                    } else if c == '\'' {
                        if keep {
                            arg.push(c);
                        }
                        self.state = ParsingState::SingleQuoted;
                    } else if c == '"' {
                        if keep {
                            arg.push(c);
                        }
                        self.state = ParsingState::DoubleQuoted;
                    } else if c == sep_first {
                        if sep_long {
                            self.state = ParsingState::Separator;
                        } else if arg.len() > 0 || was_quoted {
                            return Some(string_of(&arg));
                        }
                    } else {
                        arg.push(c);
                    }
                },
                ParsingState::Escaped => {
                    arg.push(c);
                    self.state = ParsingState::Normal;
                },
                ParsingState::SingleQuoted => {
                    if c == '\'' {
                        was_quoted = true;
                        self.state = ParsingState::Normal;
                    } else {
                        arg.push(c);
                    }
                },
                ParsingState::DoubleQuoted => {
                    if c == '"' {
                        was_quoted = true;
                        self.state = ParsingState::Normal;
                    } else if c == '\\' {
                        self.state = ParsingState::DoubleQuotedEscaped;
                    } else {
                        arg.push(c);
                    }
                },
                ParsingState::DoubleQuotedEscaped => {
                    if c == '"' || c == '\\' {
                        arg.push(c);
                    } else {
                        arg.push('\\');
                        arg.push(c);
                    }
                    self.state = ParsingState::DoubleQuoted;
                },
                ParsingState::Separator => {
                    if arg.len() > 0 || was_quoted {
                        self.state = ParsingState::Normal;
                        return Some(string_of(&arg));
                    }
                    self.state = ParsingState::Normal;
                },
            }
        }
        proof {
            assert(self.rem_view() =~= Seq::<char>::empty());
        }
        if arg.len() > 0 || was_quoted {
            Some(string_of(&arg))
        } else {
            None
        }
    }
}

#[derive(Clone, Copy, Eq, PartialEq, Structural, Debug)]
pub enum LineTCmdState {
    Normal,
    Escaped,
    SingleQuoted,
    DoubleQuoted,
    DoubleQuotedEscaped,
    WaitingSeparator,
}

#[derive(Clone, Copy, Eq, PartialEq, Structural, Debug)]
pub enum LineTCmdTokens {
    Command,
    Separator,
}

/// One configuration of this module's line-splitting machine.
pub struct LtcConfig {
    pub state: LineTCmdState,
    pub token: Seq<char>,
    pub sep_before: char,
    pub out: Seq<(LineTCmdTokens, Seq<char>)>,
    pub done: bool,
}

pub open spec fn ltc_init() -> LtcConfig {
    LtcConfig {
        state: LineTCmdState::Normal,
        token: Seq::empty(),
        sep_before: '\0',
        out: Seq::empty(),
        done: false,
    }
}

pub open spec fn ltc_flush(
    out: Seq<(LineTCmdTokens, Seq<char>)>,
    token: Seq<char>,
) -> Seq<(LineTCmdTokens, Seq<char>)> {
    if token.len() > 0 {
        out.push((LineTCmdTokens::Command, trim_spec(token)))
    } else {
        out
    }
}

/// One transition of this module's line-splitting machine. Unlike the
/// machine in `parsers::lexer`, a candidate `&` or `|` is held back in
/// `sep_before` and only appended once the next character shows it was not
/// doubled; a lone trailing one is dropped with the end of input.
pub open spec fn ltc_step(cfg: LtcConfig, c: char) -> LtcConfig {
    if cfg.done {
        cfg
    } else {
        match cfg.state {
            LineTCmdState::Normal => {
                if c == '#' {
                    LtcConfig { done: true, ..cfg }
                } else if c == '\\' {
                    LtcConfig { state: LineTCmdState::Escaped, token: cfg.token.push(c), ..cfg }
                } else if c == '\'' {
                    LtcConfig {
                        state: LineTCmdState::SingleQuoted,
                        token: cfg.token.push(c),
                        ..cfg
                    }
                } else if c == '"' {
                    LtcConfig {
                        state: LineTCmdState::DoubleQuoted,
                        token: cfg.token.push(c),
                        ..cfg
                    }
                } else if c == ';' {
                    LtcConfig {
                        state: LineTCmdState::Normal,
                        token: Seq::empty(),
                        out: ltc_flush(cfg.out, cfg.token).push(
                            (LineTCmdTokens::Separator, seq![c]),
                        ),
                        ..cfg
                    }
                } else if c == '&' || c == '|' {
                    LtcConfig {
                        state: LineTCmdState::WaitingSeparator,
                        sep_before: c,
                        ..cfg
                    }
                } else {
                    LtcConfig { state: LineTCmdState::Normal, token: cfg.token.push(c), ..cfg }
                }
            },
            LineTCmdState::WaitingSeparator => {
                if cfg.sep_before == c {
                    LtcConfig {
                        state: LineTCmdState::Normal,
                        token: Seq::empty(),
                        out: ltc_flush(cfg.out, cfg.token).push(
                            (LineTCmdTokens::Separator, seq![c, c]),
                        ),
                        ..cfg
                    }
                } else {
                    LtcConfig {
                        state: LineTCmdState::Normal,
                        token: cfg.token.push(cfg.sep_before).push(c),
                        ..cfg
                    }
                }
            },
            LineTCmdState::Escaped => {
                LtcConfig { state: LineTCmdState::Normal, token: cfg.token.push(c), ..cfg }
            },
            LineTCmdState::SingleQuoted => {
                if c == '\'' {
                    LtcConfig { state: LineTCmdState::Normal, token: cfg.token.push(c), ..cfg }
                } else {
                    LtcConfig {
                        state: LineTCmdState::SingleQuoted,
                        token: cfg.token.push(c),
                        ..cfg
                    }
                }
            },
            LineTCmdState::DoubleQuoted => {
                if c == '"' {
                    LtcConfig { state: LineTCmdState::Normal, token: cfg.token.push(c), ..cfg }
                } else if c == '\\' {
                    LtcConfig { state: LineTCmdState::DoubleQuotedEscaped, ..cfg }
                } else {
                    LtcConfig {
                        state: LineTCmdState::DoubleQuoted,
                        token: cfg.token.push(c),
                        ..cfg
                    }
                }
            },
            LineTCmdState::DoubleQuotedEscaped => {
                if c == '"' || c == '\\' {
                    LtcConfig {
                        state: LineTCmdState::DoubleQuoted,
                        token: cfg.token.push(c),
                        ..cfg
                    }
                } else {
                    LtcConfig {
                        state: LineTCmdState::DoubleQuoted,
                        token: cfg.token.push('\\').push(c),
                        ..cfg
                    }
                }
            },
        }
    }
}

pub open spec fn ltc_run(cfg: LtcConfig, s: Seq<char>) -> LtcConfig
    decreases s.len(),
{
    if s.len() == 0 {
        cfg
    } else {
        ltc_run(ltc_step(cfg, s[0]), s.drop_first())
    }
}

/// What this module's `line_to_cmds` returns for a given line.
pub open spec fn line_to_cmds_spec(s: Seq<char>) -> Seq<(LineTCmdTokens, Seq<char>)> {
    let cfg = ltc_run(ltc_init(), s);
    ltc_flush(cfg.out, cfg.token)
}

proof fn lemma_ltc_run_done(cfg: LtcConfig, s: Seq<char>)
    requires
        cfg.done,
    ensures
        ltc_run(cfg, s) == cfg,
    decreases s.len(),
{
    if s.len() > 0 {
        lemma_ltc_run_done(cfg, s.drop_first());
    }
}

proof fn lemma_ltc_run_snoc(cfg: LtcConfig, s: Seq<char>, c: char)
    ensures
        ltc_run(cfg, s.push(c)) == ltc_step(ltc_run(cfg, s), c),
    decreases s.len(),
{
    if s.len() == 0 {
        assert(s.push(c)[0] == c);
        assert(s.push(c).drop_first() =~= Seq::<char>::empty());
        assert(ltc_run(cfg, s.push(c)) == ltc_run(ltc_step(cfg, c), s.push(c).drop_first()));
    } else {
        assert(s.push(c)[0] == s[0]);
        assert(s.push(c).drop_first() =~= s.drop_first().push(c));
        assert(ltc_run(cfg, s.push(c)) == ltc_run(ltc_step(cfg, s[0]), s.drop_first().push(c)));
        lemma_ltc_run_snoc(ltc_step(cfg, s[0]), s.drop_first(), c);
    }
}

proof fn lemma_ltc_run_concat(cfg: LtcConfig, a: Seq<char>, b: Seq<char>)
    ensures
        ltc_run(cfg, a + b) == ltc_run(ltc_run(cfg, a), b),
    decreases a.len(),
{
    if a.len() == 0 {
        assert(a + b =~= b);
    } else {
        assert((a + b)[0] == a[0]);
        assert((a + b).drop_first() =~= a.drop_first() + b);
        lemma_ltc_run_concat(ltc_step(cfg, a[0]), a.drop_first(), b);
    }
}

pub open spec fn line_tokens_match(
    v: Seq<(LineTCmdTokens, String)>,
    o: Seq<(LineTCmdTokens, Seq<char>)>,
) -> bool {
    &&& v.len() == o.len()
    &&& forall|i: int| 0 <= i < v.len() ==> #[trigger] v[i].0 == o[i].0 && v[i].1@ == o[i].1
}

/// Splits a raw line into trimmed command texts and the separators `;`,
/// `&&`, `||` between them, holding back a lone `&` or `|` until the next
/// character decides whether it was doubled.
pub fn line_to_cmds(line: &str) -> (r: Vec<(LineTCmdTokens, String)>)
    ensures
        line_tokens_match(r@, line_to_cmds_spec(line@)),
{
    let s = chars_of(line);
    let mut result: Vec<(LineTCmdTokens, String)> = Vec::new();
    let mut token: Vec<char> = Vec::new();
    let mut sep_before: char = '\0';
    let mut state = LineTCmdState::Normal;
    let mut commented = false;
    let ghost input = line@;
    let mut i: usize = 0;
    while i < s.len() && !commented
        invariant
            0 <= i <= s@.len(),
            s@ == input,
            ({
                let cfg = if commented {
                    ltc_run(ltc_init(), input)
                } else {
                    ltc_run(ltc_init(), input.take(i as int))
                };
                &&& cfg.state == state
                &&& cfg.token == token@
                &&& cfg.sep_before == sep_before
                &&& cfg.done == commented
                &&& line_tokens_match(result@, cfg.out)
            }),
        decreases s@.len() - i,
    {
        let c = s[i];
        let ghost pre = ltc_run(ltc_init(), input.take(i as int));
        proof {
            assert(input.take(i + 1) =~= input.take(i as int).push(input[i as int]));
            lemma_ltc_run_snoc(ltc_init(), input.take(i as int), input[i as int]);
        }
        match state {
            LineTCmdState::Normal => {
                if c == '#' {
                    commented = true;
                    proof {
                        assert(input =~= input.take(i + 1) + input.skip(i + 1));
                        lemma_ltc_run_concat(ltc_init(), input.take(i + 1), input.skip(i + 1));
                        lemma_ltc_run_done(ltc_step(pre, '#'), input.skip(i + 1));
                    }
                } else if c == '\\' {
                    token.push(c);
                    state = LineTCmdState::Escaped;
                } else if c == '\'' {
                    token.push(c);
                    state = LineTCmdState::SingleQuoted;
                } else if c == '"' {
                    token.push(c);
                    state = LineTCmdState::DoubleQuoted;
                } else if c == ';' {
                    if token.len() > 0 {
                        let trimmed = trim_chars(&token);
                        result.push((LineTCmdTokens::Command, string_of(&trimmed)));
                    }
                    let mut sep: Vec<char> = Vec::new();
                    sep.push(c);
                    proof {
                        assert(sep@ =~= seq![c]);
                    }
                    result.push((LineTCmdTokens::Separator, string_of(&sep)));
                    token = Vec::new();
                    proof {
                        let nxt = ltc_step(pre, c);
                        assert(nxt.token == token@);
                        assert(nxt.out == ltc_flush(pre.out, pre.token).push(
                            (LineTCmdTokens::Separator, seq![c]),
                        ));
                        assert(line_tokens_match(result@, nxt.out));
                    }
                } else if c == '&' || c == '|' {
                    sep_before = c;
                    state = LineTCmdState::WaitingSeparator;
                } else {
                    token.push(c);
                }
            },
            LineTCmdState::WaitingSeparator => {
                if sep_before == c {
                    if token.len() > 0 {
                        let trimmed = trim_chars(&token);
                        result.push((LineTCmdTokens::Command, string_of(&trimmed)));
                    }
                    let mut sep: Vec<char> = Vec::new();
                    sep.push(c);
                    sep.push(c);
                    proof {
                        assert(sep@ =~= seq![c, c]);
                    }
                    result.push((LineTCmdTokens::Separator, string_of(&sep)));
                    token = Vec::new();
                    state = LineTCmdState::Normal;
                    proof {
                        let nxt = ltc_step(pre, c);
                        assert(nxt.token == token@);
                        assert(line_tokens_match(result@, nxt.out));
                    }
                } else {
                    token.push(sep_before);
                    token.push(c);
                    state = LineTCmdState::Normal;
                }
            },
            LineTCmdState::Escaped => {
                token.push(c);
                state = LineTCmdState::Normal;
            },
            LineTCmdState::SingleQuoted => {
                token.push(c);
                if c == '\'' {
                    state = LineTCmdState::Normal;
                }
            },
            LineTCmdState::DoubleQuoted => {
                if c == '"' {
                    token.push(c);
                    state = LineTCmdState::Normal;
                } else if c == '\\' {
                    state = LineTCmdState::DoubleQuotedEscaped;
                } else {
                    token.push(c);
                }
            },
            LineTCmdState::DoubleQuotedEscaped => {
                if c == '"' || c == '\\' {
                    token.push(c);
                } else {
                    token.push('\\');
                    token.push(c);
                }
                state = LineTCmdState::DoubleQuoted;
            },
        }
        i = i + 1;
    }
    proof {
        if !commented {
            assert(input.take(i as int) =~= input);
        }
    }
    if token.len() > 0 {
        let trimmed = trim_chars(&token);
        result.push((LineTCmdTokens::Command, string_of(&trimmed)));
    }
    result
}

} // verus!
