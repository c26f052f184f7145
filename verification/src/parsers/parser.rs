//! The command parser: consumes the tokenizer's stream, expands `$NAME`
//! and `$?` references, a leading `~`, and `NAME=VALUE` assignments, joins
//! adjacent fragments into words, then glob-expands each word and groups
//! the results into pipeline segments.
//!
//! The token-to-word pass (`cmd_to_words`) is exact: its fold
//! (`pc_run`) pins every word, assignment and error. Glob matches come from
//! the filesystem, so the grouping pass (`expand_parts`) is specified
//! against every possible outcome of the matching (`assemble`).

use vstd::prelude::*;

use super::errors::SyntaxError;
use super::lexer;
use super::tokens::{CmdTokens, ParseCmdTokens};
use crate::chars::{chars_of, string_of};
use crate::environment::Env;
use crate::numbers::int_dec;

verus! {

/// A word of a command after expansion, or the pipe separator between
/// words.
#[derive(Debug)]
pub enum WordPart {
    Word(String),
    Pipe(String),
}

/// The specification-level form of a `WordPart`.
pub enum PartSpec {
    Word(Seq<char>),
    Pipe(Seq<char>),
}

pub open spec fn word_part_view(w: WordPart) -> PartSpec {
    match w {
        WordPart::Word(s) => PartSpec::Word(s@),
        WordPart::Pipe(s) => PartSpec::Pipe(s@),
    }
}

pub open spec fn parts_match(v: Seq<WordPart>, o: Seq<PartSpec>) -> bool {
    &&& v.len() == o.len()
    &&& forall|i: int| 0 <= i < v.len() ==> word_part_view(#[trigger] v[i]) == o[i]
}

/// The index of the first `=` in `s`, or `s.len()` if there is none.
pub open spec fn find_eq(s: Seq<char>) -> int
    decreases s.len(),
{
    if s.len() == 0 {
        0
    } else if s[0] == '=' {
        0
    } else {
        1 + find_eq(s.drop_first())
    }
}

/// The name of an assignment: everything before the first `=`.
pub open spec fn def_name(val: Seq<char>) -> Seq<char> {
    val.take(find_eq(val))
}

/// The value of an assignment: everything between the first `=` and the
/// second, or the rest if there is no second.
pub open spec fn def_value(val: Seq<char>) -> Seq<char> {
    let rest = val.skip(find_eq(val) + 1);
    rest.take(find_eq(rest))
}

proof fn lemma_find_eq_bounds(s: Seq<char>)
    ensures
        0 <= find_eq(s) <= s.len(),
        forall|k: int| 0 <= k < find_eq(s) ==> s[k] != '=',
        find_eq(s) < s.len() ==> s[find_eq(s)] == '=',
    decreases s.len(),
{
    if s.len() > 0 && s[0] != '=' {
        lemma_find_eq_bounds(s.drop_first());
        assert(forall|k: int| 1 <= k < find_eq(s) ==> s[k] == s.drop_first()[k - 1]);
    }
}

proof fn lemma_find_eq_at(s: Seq<char>, i: int)
    requires
        0 <= i <= s.len(),
        forall|k: int| 0 <= k < i ==> s[k] != '=',
        i < s.len() ==> s[i] == '=',
    ensures
        find_eq(s) == i,
    decreases i,
{
    if i > 0 {
        assert(s[0] != '=');
        lemma_find_eq_at(s.drop_first(), i - 1);
    } else {
        if s.len() > 0 {
            assert(s[0] == '=');
        }
    }
}

proof fn lemma_contains_concat(a: Seq<char>, b: Seq<char>, x: char)
    requires
        a.contains(x) || b.contains(x),
    ensures
        (a + b).contains(x),
{
    if a.contains(x) {
        let i = choose|i: int| 0 <= i < a.len() && a[i] == x;
        assert((a + b)[i] == x);
    } else {
        let i = choose|i: int| 0 <= i < b.len() && b[i] == x;
        assert((a + b)[a.len() + i] == x);
    }
}

/// One configuration of the word-building fold: the fragment accumulator,
/// the words and pipes built so far, the variable table with its export
/// log, the kind of the previous token, whether the current word is an
/// assignment, and whether a pipe error was hit.
pub struct PcConfig {
    pub combine: Seq<char>,
    pub parts: Seq<PartSpec>,
    pub env: Map<Seq<char>, Seq<char>>,
    pub exports: Seq<(Seq<char>, Seq<char>)>,
    pub before: Option<CmdTokens>,
    pub is_def: bool,
    pub err: bool,
}

pub open spec fn pc_init(env0: Map<Seq<char>, Seq<char>>) -> PcConfig {
    PcConfig {
        combine: Seq::empty(),
        parts: Seq::empty(),
        env: env0,
        exports: Seq::empty(),
        before: None,
        is_def: false,
        err: false,
    }
}

/// What one token contributes to the current word: a variable's value (with
/// `$?` the status), a `~`-expanded fragment, or its own text.
pub open spec fn pc_fragment(
    tok: (CmdTokens, Seq<char>, bool),
    status: int,
    home: Seq<char>,
    env: Map<Seq<char>, Seq<char>>,
) -> Seq<char> {
    if tok.0 is Variable {
        if tok.1 == seq!['?'] {
            int_dec(status)
        } else if env.contains_key(tok.1) {
            env[tok.1]
        } else {
            Seq::empty()
        }
    } else if tok.0 is Normal && tok.1.len() > 0 && tok.1[0] == '~' {
        home + tok.1.skip(1)
    } else {
        tok.1
    }
}

/// One step of the word-building fold.
pub open spec fn pc_step(
    cfg: PcConfig,
    tok: (CmdTokens, Seq<char>, bool),
    status: int,
    home: Seq<char>,
) -> PcConfig {
    if cfg.err {
        cfg
    } else if tok.0 is Pipe {
        let bad = match cfg.before {
            None => true,
            Some(k) => k is Pipe,
        };
        if bad {
            PcConfig { err: true, ..cfg }
        } else {
            PcConfig {
                parts: cfg.parts.push(PartSpec::Pipe(tok.1)),
                before: Some(CmdTokens::Pipe),
                ..cfg
            }
        }
    } else {
        let str_part = pc_fragment(tok, status, home, cfg.env);
        let def1 = cfg.is_def || tok.0 is Definition;
        if tok.2 {
            PcConfig {
                combine: cfg.combine + str_part,
                is_def: def1,
                before: Some(tok.0),
                ..cfg
            }
        } else {
            let val = cfg.combine + str_part;
            if def1 {
                PcConfig {
                    combine: Seq::empty(),
                    is_def: false,
                    env: cfg.env.insert(def_name(val), def_value(val)),
                    exports: cfg.exports.push((def_name(val), def_value(val))),
                    before: Some(tok.0),
                    ..cfg
                }
            } else {
                PcConfig {
                    combine: Seq::empty(),
                    is_def: false,
                    parts: cfg.parts.push(PartSpec::Word(val)),
                    before: Some(tok.0),
                    ..cfg
                }
            }
        }
    }
}

/// The word-building fold over a token stream.
pub open spec fn pc_run(
    cfg: PcConfig,
    toks: Seq<(CmdTokens, Seq<char>, bool)>,
    status: int,
    home: Seq<char>,
) -> PcConfig
    decreases toks.len(),
{
    if toks.len() == 0 {
        cfg
    } else {
        pc_run(pc_step(cfg, toks[0], status, home), toks.drop_first(), status, home)
    }
}

/// The fold applied to the tokens of a command text, from a given variable
/// table.
pub open spec fn pc_of_cmd(
    s: Seq<char>,
    status: int,
    home: Seq<char>,
    env0: Map<Seq<char>, Seq<char>>,
) -> PcConfig {
    pc_run(pc_init(env0), lexer::cmd_to_tokens_spec(s), status, home)
}

/// A pipe with nothing on one side of it: an error, before or after the
/// fold.
pub open spec fn pc_rejects(cfg: PcConfig) -> bool {
    cfg.err || cfg.before == Some(CmdTokens::Pipe)
}

proof fn lemma_pc_run_err(cfg: PcConfig, toks: Seq<(CmdTokens, Seq<char>, bool)>, status: int, home: Seq<char>)
    requires
        cfg.err,
    ensures
        pc_run(cfg, toks, status, home) == cfg,
    decreases toks.len(),
{
    if toks.len() > 0 {
        lemma_pc_run_err(cfg, toks.drop_first(), status, home);
    }
}

proof fn lemma_pc_run_snoc(
    cfg: PcConfig,
    toks: Seq<(CmdTokens, Seq<char>, bool)>,
    t: (CmdTokens, Seq<char>, bool),
    status: int,
    home: Seq<char>,
)
    ensures
        pc_run(cfg, toks.push(t), status, home) == pc_step(
            pc_run(cfg, toks, status, home),
            t,
            status,
            home,
        ),
    decreases toks.len(),
{
    if toks.len() == 0 {
        assert(toks.push(t)[0] == t);
        assert(toks.push(t).drop_first() =~= Seq::<(CmdTokens, Seq<char>, bool)>::empty());
        assert(pc_run(cfg, toks.push(t), status, home) == pc_run(
            pc_step(cfg, t, status, home),
            toks.push(t).drop_first(),
            status,
            home,
        ));
    } else {
        assert(toks.push(t)[0] == toks[0]);
        assert(toks.push(t).drop_first() =~= toks.drop_first().push(t));
        assert(pc_run(cfg, toks.push(t), status, home) == pc_run(
            pc_step(cfg, toks[0], status, home),
            toks.drop_first().push(t),
            status,
            home,
        ));
        lemma_pc_run_snoc(pc_step(cfg, toks[0], status, home), toks.drop_first(), t, status, home);
    }
}

/// A configuration whose pending assignment carries its `=`.
pub open spec fn pc_defs_ok(cfg: PcConfig) -> bool {
    cfg.is_def ==> cfg.combine.contains('=')
}

proof fn lemma_pc_step_defs(
    cfg: PcConfig,
    tok: (CmdTokens, Seq<char>, bool),
    status: int,
    home: Seq<char>,
)
    requires
        pc_defs_ok(cfg),
        tok.0 is Definition ==> tok.1.contains('='),
    ensures
        pc_defs_ok(pc_step(cfg, tok, status, home)),
{
    let nxt = pc_step(cfg, tok, status, home);
    if !cfg.err && !(tok.0 is Pipe) && tok.2 {
        let str_part = pc_fragment(tok, status, home, cfg.env);
        if cfg.is_def {
            lemma_contains_concat(cfg.combine, str_part, '=');
        } else if tok.0 is Definition {
            lemma_contains_concat(cfg.combine, tok.1, '=');
        }
    }
}

fn find_eq_from(v: &Vec<char>, start: usize) -> (idx: usize)
    requires
        start <= v@.len(),
    ensures
        start <= idx <= v@.len(),
        forall|k: int| start <= k < idx ==> v@[k] != '=',
        idx < v@.len() ==> v@[idx as int] == '=',
{
    let mut i = start;
    while i < v.len()
        invariant
            start <= i <= v@.len(),
            forall|k: int| start <= k < i ==> v@[k] != '=',
        decreases v@.len() - i,
    {
        if v[i] == '=' {
            return i;
        }
        i = i + 1;
    }
    i
}

fn subvec_chars(v: &Vec<char>, from: usize, to: usize) -> (r: Vec<char>)
    requires
        from <= to <= v@.len(),
    ensures
        r@ == v@.subrange(from as int, to as int),
{
    let mut r: Vec<char> = Vec::new();
    let mut i = from;
    while i < to
        invariant
            from <= i <= to <= v@.len(),
            r@ =~= v@.subrange(from as int, i as int),
        decreases to - i,
    {
        r.push(v[i]);
        i = i + 1;
    }
    proof {
        assert(r@ =~= v@.subrange(from as int, to as int));
    }
    r
}

/// Turns one command text into expanded words and pipe separators,
/// applying variable, status and home expansion, performing assignments on
/// `env`, and rejecting a pipe with nothing on one side of it.
pub fn cmd_to_words(token: &String, status: i32, env: &mut Env, home: &String) -> (r: Result<
    Vec<WordPart>,
    SyntaxError,
>)
    ensures
        ({
            let accepted = lexer::ctt_accepts(token@);
            let cfg = pc_of_cmd(token@, status as int, home@, old(env).map_view());
            &&& !accepted ==> r is Err
            &&& !accepted ==> final(env).map_view() == old(env).map_view()
            &&& !accepted ==> final(env).log_view() == old(env).log_view()
            &&& accepted ==> final(env).map_view() == cfg.env
            &&& accepted ==> final(env).log_view() == old(env).log_view() + cfg.exports
            &&& accepted ==> ((r is Ok) <==> !pc_rejects(cfg))
            &&& (accepted && r is Ok) ==> parts_match(r->Ok_0@, cfg.parts)
        }),
{
    let ghost env0 = env.map_view();
    let ghost log0 = env.log_view();
    let toks = match lexer::cmd_to_tokens(token.as_str()) {
        Ok(t) => t,
        Err(e) => {
            return Err(e);
        },
    };
    let ghost tspec = lexer::cmd_to_tokens_spec(token@);
    let ghost st = status as int;
    let ghost hm = home@;
    proof {
        lexer::lemma_cmd_tokens_definitions(token@);
    }
    let mut words: Vec<WordPart> = Vec::new();
    let mut combine: Vec<char> = Vec::new();
    let mut before: Option<CmdTokens> = None;
    let mut is_def = false;
    let mut j: usize = 0;
    proof {
        assert(tspec.take(0) =~= Seq::<(CmdTokens, Seq<char>, bool)>::empty());
        assert(pc_run(pc_init(env0), tspec.take(0), st, hm) == pc_init(env0));
        assert(env.log_view() =~= log0 + pc_init(env0).exports);
    }
    while j < toks.len()
        invariant
            0 <= j <= toks@.len(),
            st == status as int,
            hm == home@,
            env0 == old(env).map_view(),
            log0 == old(env).log_view(),
            tspec == lexer::cmd_to_tokens_spec(token@),
            lexer::ctt_accepts(token@),
            lexer::cmd_tokens_match(toks@, tspec),
            forall|i: int|
                0 <= i < tspec.len() ==> (#[trigger] tspec[i]).0 is Definition
                    ==> tspec[i].1.contains('='),
            ({
                let cfg = pc_run(pc_init(env0), tspec.take(j as int), st, hm);
                &&& !cfg.err
                &&& cfg.combine == combine@
                &&& cfg.is_def == is_def
                &&& cfg.before == before
                &&& parts_match(words@, cfg.parts)
                &&& env.map_view() == cfg.env
                &&& env.log_view() == log0 + cfg.exports
                &&& pc_defs_ok(cfg)
            }),
        decreases toks@.len() - j,
    {
        let ghost pre = pc_run(pc_init(env0), tspec.take(j as int), st, hm);
        proof {
            assert(tspec.take(j + 1) =~= tspec.take(j as int).push(tspec[j as int]));
            lemma_pc_run_snoc(pc_init(env0), tspec.take(j as int), tspec[j as int], st, hm);
            lemma_pc_step_defs(pre, tspec[j as int], st, hm);
        }
        let kind = toks[j].0;
        match kind {
            CmdTokens::Pipe => {
                let bad = match before {
                    None => true,
                    Some(k) => match k {
                        CmdTokens::Pipe => true,
                        _ => false,
                    },
                };
                if bad {
                    proof {
                        let nxt = pc_step(pre, tspec[j as int], st, hm);
                        assert(nxt.err);
                        assert(tspec =~= tspec.take(j + 1) + tspec.skip(j + 1));
                        lemma_pc_run_concat(pc_init(env0), tspec.take(j + 1), tspec.skip(j + 1), st, hm);
                        lemma_pc_run_err(nxt, tspec.skip(j + 1), st, hm);
                    }
                    return Err(SyntaxError);
                }
                words.push(WordPart::Pipe(toks[j].1.clone()));
                before = Some(CmdTokens::Pipe);
                proof {
                    let nxt = pc_step(pre, tspec[j as int], st, hm);
                    assert(nxt.parts == pre.parts.push(PartSpec::Pipe(tspec[j as int].1)));
                    assert(parts_match(words@, nxt.parts));
                }
            },
            _ => {
                let text = &toks[j].1;
                let join = toks[j].2;
                let mut str_part: Vec<char>;
                match kind {
                    CmdTokens::Variable => {
                        let tc = chars_of(text.as_str());
                        if tc.len() == 1 && tc[0] == '?' {
                            proof {
                                assert(tspec[j as int].1 =~= seq!['?']);
                            }
                            let sstr = crate::numbers::i32_to_string(status);
                            str_part = chars_of(sstr.as_str());
                        } else {
                            proof {
                                assert(tspec[j as int].1 != seq!['?']);
                            }
                            match env.get(text.as_str()) {
                                Some(v) => {
                                    str_part = chars_of(v.as_str());
                                },
                                None => {
                                    str_part = Vec::new();
                                    proof {
                                        assert(str_part@ =~= Seq::<char>::empty());
                                    }
                                },
                            }
                        }
                    },
                    CmdTokens::Normal => {
                        let tc = chars_of(text.as_str());
                        if tc.len() > 0 && tc[0] == '~' {
                            str_part = chars_of(home.as_str());
                            proof {
                                assert(str_part@ =~= hm + tc@.subrange(1, 1));
                            }
                            let mut k: usize = 1;
                            while k < tc.len()
                                invariant
                                    1 <= k <= tc@.len(),
                                    str_part@ =~= hm + tc@.subrange(1, k as int),
                                decreases tc@.len() - k,
                            {
                                str_part.push(tc[k]);
                                k = k + 1;
                            }
                            proof {
                                assert(str_part@ =~= hm + tspec[j as int].1.skip(1));
                            }
                        } else {
                            str_part = tc;
                        }
                    },
                    _ => {
                        str_part = chars_of(text.as_str());
                    },
                }
                proof {
                    assert(str_part@ == pc_fragment(tspec[j as int], st, hm, pre.env));
                }
                if kind == CmdTokens::Definition {
                    is_def = true;
                }
                if join {
                    crate::chars::extend_chars(&mut combine, &str_part);
                } else {
                    let mut val = combine;
                    crate::chars::extend_chars(&mut val, &str_part);
                    combine = Vec::new();
                    if is_def {
                        is_def = false;
                        proof {
                            let v = val@;
                            lemma_contains_concat(pre.combine, str_part@, '=');
                            assert(v.contains('='));
                            lemma_find_eq_bounds(v);
                        }
                        let idx1 = find_eq_from(&val, 0);
                        proof {
                            lemma_find_eq_at(val@, idx1 as int);
                            if idx1 as int == val@.len() {
                                let k = choose|k: int| 0 <= k < val@.len() && val@[k] == '=';
                                assert(val@[k] != '=');
                            }
                            assert(idx1 < val@.len());
                        }
                        let n = val.len();
                        assert(idx1 < n);
                        let idx2 = find_eq_from(&val, idx1 + 1);
                        proof {
                            let rest = val@.skip(idx1 + 1);
                            assert(forall|k: int|
                                0 <= k < idx2 - (idx1 + 1) ==> rest[k] == val@[k + idx1 + 1]);
                            if (idx2 as int) < val@.len() {
                                assert(rest[idx2 - (idx1 + 1)] == '=');
                            }
                            lemma_find_eq_at(rest, idx2 - (idx1 + 1));
                            assert(def_name(val@) == val@.subrange(0, idx1 as int));
                            assert(def_value(val@) =~= val@.subrange(idx1 + 1, idx2 as int));
                        }
                        let namev = subvec_chars(&val, 0, idx1);
                        let valuev = subvec_chars(&val, idx1 + 1, idx2);
                        env.set(string_of(&namev), string_of(&valuev));
                        proof {
                            let nxt = pc_step(pre, tspec[j as int], st, hm);
                            assert(env.log_view() =~= log0 + nxt.exports);
                        }
                    } else {
                        words.push(WordPart::Word(string_of(&val)));
                        proof {
                            let nxt = pc_step(pre, tspec[j as int], st, hm);
                            assert(nxt.parts == pre.parts.push(PartSpec::Word(val@)));
                            assert(parts_match(words@, nxt.parts));
                        }
                    }
                }
                before = Some(kind);
            },
        }
        j = j + 1;
    }
    proof {
        assert(tspec.take(tspec.len() as int) =~= tspec);
    }
    let trailing = match before {
        Some(k) => match k {
            CmdTokens::Pipe => true,
            _ => false,
        },
        None => false,
    };
    if trailing {
        return Err(SyntaxError);
    }
    Ok(words)
}

proof fn lemma_pc_run_concat(
    cfg: PcConfig,
    a: Seq<(CmdTokens, Seq<char>, bool)>,
    b: Seq<(CmdTokens, Seq<char>, bool)>,
    status: int,
    home: Seq<char>,
)
    ensures
        pc_run(cfg, a + b, status, home) == pc_run(pc_run(cfg, a, status, home), b, status, home),
    decreases a.len(),
{
    if a.len() == 0 {
        assert(a + b =~= b);
    } else {
        assert((a + b)[0] == a[0]);
        assert((a + b).drop_first() =~= a.drop_first() + b);
        lemma_pc_run_concat(pc_step(cfg, a[0], status, home), a.drop_first(), b, status, home);
    }
}

pub open spec fn strs_view(v: Seq<String>) -> Seq<Seq<char>> {
    v.map_values(|s: String| s@)
}

pub open spec fn opt_strs_view(v: Option<Vec<String>>) -> Option<Seq<Seq<char>>> {
    match v {
        None => None,
        Some(m) => Some(strs_view(m@)),
    }
}

/// What a word contributes to the argument vector, for a given outcome of
/// glob matching: nothing for an invalid pattern, the matches where there
/// are any, the word itself where there are none.
pub open spec fn expand_spec(w: Seq<char>, m: Option<Seq<Seq<char>>>) -> Seq<Seq<char>> {
    match m {
        None => Seq::empty(),
        Some(v) => if v.len() == 0 {
            seq![w]
        } else {
            v
        },
    }
}

/// Relies on `glob::glob`: `None` where the pattern fails to parse, else
/// the paths matching the pattern. The matches come from the filesystem,
/// so nothing is promised of them; callers handle every outcome.
#[verifier::external_body]
fn glob_word(pattern: &String) -> (r: Option<Vec<String>>) {
    match glob::glob(pattern) {
        Ok(paths) => Some(paths.flatten().map(|p| p.display().to_string()).collect()),
        Err(_) => None,
    }
}

/// The argument-vector contribution of one word, given the outcome of glob
/// matching it.
pub fn expand_word(word: String, matches: Option<Vec<String>>) -> (r: Vec<String>)
    ensures
        strs_view(r@) == expand_spec(word@, opt_strs_view(matches)),
{
    let ghost m = opt_strs_view(matches);
    match matches {
        None => {
            let r: Vec<String> = Vec::new();
            proof {
                assert(strs_view(r@) =~= expand_spec(word@, m));
            }
            r
        },
        Some(v) => {
            if v.len() == 0 {
                let mut r: Vec<String> = Vec::new();
                r.push(word);
                proof {
                    assert(strs_view(r@) =~= expand_spec(r[0]@, m));
                }
                r
            } else {
                v
            }
        },
    }
}

/// One configuration of the grouping pass: the argument vector being
/// filled, and the parts already emitted.
pub struct AsmConfig {
    pub argv: Seq<Seq<char>>,
    pub out: Seq<(ParseCmdTokens, Seq<Seq<char>>)>,
}

pub open spec fn asm_init() -> AsmConfig {
    AsmConfig { argv: Seq::empty(), out: Seq::empty() }
}

/// One step of the grouping pass: a word adds its expansion to the current
/// argument vector; a pipe flushes a non-empty vector as a `Command` and
/// emits a `Separator`.
pub open spec fn asm_step(cfg: AsmConfig, part: PartSpec, m: Option<Seq<Seq<char>>>) -> AsmConfig {
    match part {
        PartSpec::Word(w) => AsmConfig { argv: cfg.argv + expand_spec(w, m), out: cfg.out },
        PartSpec::Pipe(p) => {
            let out1 = if cfg.argv.len() > 0 {
                cfg.out.push((ParseCmdTokens::Command, cfg.argv))
            } else {
                cfg.out
            };
            AsmConfig {
                argv: Seq::empty(),
                out: out1.push((ParseCmdTokens::Separator, seq![p])),
            }
        },
    }
}

pub open spec fn asm_run(
    cfg: AsmConfig,
    parts: Seq<PartSpec>,
    outs: Seq<Option<Seq<Seq<char>>>>,
) -> AsmConfig
    decreases parts.len(),
{
    if parts.len() == 0 || outs.len() == 0 {
        cfg
    } else {
        asm_run(asm_step(cfg, parts[0], outs[0]), parts.drop_first(), outs.drop_first())
    }
}

/// The parser's output for given words and given glob outcomes.
pub open spec fn assemble(parts: Seq<PartSpec>, outs: Seq<Option<Seq<Seq<char>>>>) -> Seq<
    (ParseCmdTokens, Seq<Seq<char>>),
> {
    let cfg = asm_run(asm_init(), parts, outs);
    if cfg.argv.len() > 0 {
        cfg.out.push((ParseCmdTokens::Command, cfg.argv))
    } else {
        cfg.out
    }
}

pub open spec fn word_parts_view(v: Seq<WordPart>) -> Seq<PartSpec> {
    v.map_values(|w: WordPart| word_part_view(w))
}

/// The emitted parts of the executable parser match the
/// specification-level ones.
pub open spec fn out_parts_match(
    v: Seq<(ParseCmdTokens, Vec<String>)>,
    o: Seq<(ParseCmdTokens, Seq<Seq<char>>)>,
) -> bool {
    &&& v.len() == o.len()
    &&& forall|i: int|
        0 <= i < v.len() ==> #[trigger] v[i].0 == o[i].0 && strs_view(v[i].1@) == o[i].1
}

proof fn lemma_asm_run_snoc(
    cfg: AsmConfig,
    parts: Seq<PartSpec>,
    outs: Seq<Option<Seq<Seq<char>>>>,
    p: PartSpec,
    m: Option<Seq<Seq<char>>>,
)
    requires
        parts.len() == outs.len(),
    ensures
        asm_run(cfg, parts.push(p), outs.push(m)) == asm_step(asm_run(cfg, parts, outs), p, m),
    decreases parts.len(),
{
    if parts.len() == 0 {
        assert(parts.push(p)[0] == p && outs.push(m)[0] == m);
        assert(parts.push(p).drop_first() =~= Seq::<PartSpec>::empty());
        assert(outs.push(m).drop_first() =~= Seq::<Option<Seq<Seq<char>>>>::empty());
        assert(asm_run(cfg, parts.push(p), outs.push(m)) == asm_run(
            asm_step(cfg, p, m),
            parts.push(p).drop_first(),
            outs.push(m).drop_first(),
        ));
    } else {
        assert(parts.push(p)[0] == parts[0] && outs.push(m)[0] == outs[0]);
        assert(parts.push(p).drop_first() =~= parts.drop_first().push(p));
        assert(outs.push(m).drop_first() =~= outs.drop_first().push(m));
        assert(asm_run(cfg, parts.push(p), outs.push(m)) == asm_run(
            asm_step(cfg, parts[0], outs[0]),
            parts.drop_first().push(p),
            outs.drop_first().push(m),
        ));
        lemma_asm_run_snoc(asm_step(cfg, parts[0], outs[0]), parts.drop_first(), outs.drop_first(), p, m);
    }
}

fn push_clones(dst: &mut Vec<String>, src: &Vec<String>)
    ensures
        final(dst)@.len() == old(dst)@.len() + src@.len(),
        strs_view(final(dst)@) == strs_view(old(dst)@) + strs_view(src@),
{
    let ghost base = dst@;
    let mut i: usize = 0;
    while i < src.len()
        invariant
            0 <= i <= src@.len(),
            dst@.len() == base.len() + i,
            strs_view(dst@) =~= strs_view(base) + strs_view(src@.take(i as int)),
        decreases src@.len() - i,
    {
        let ghost prev = dst@;
        dst.push(src[i].clone());
        proof {
            assert(dst@ == prev.push(src@[i as int]));
            assert(strs_view(dst@) =~= strs_view(prev).push(src@[i as int]@));
            assert(src@.take(i + 1).drop_last() =~= src@.take(i as int));
            assert(src@.take(i + 1).last() == src@[i as int]);
            assert(strs_view(src@.take(i + 1)) =~= strs_view(src@.take(i as int)).push(
                src@[i as int]@,
            ));
            assert(strs_view(dst@) =~= strs_view(base) + strs_view(src@.take(i + 1)));
        }
        i = i + 1;
    }
    proof {
        assert(src@.take(src@.len() as int) =~= src@);
        assert(base == old(dst)@);
        assert(strs_view(final(dst)@) =~= strs_view(old(dst)@) + strs_view(src@));
    }
}

/// Glob-expands each word and groups the results into `Command` argument
/// vectors split at pipe `Separator`s; a `Command` is emitted only when its
/// argument vector is non-empty.
pub fn expand_parts(words: &Vec<WordPart>) -> (r: Vec<(ParseCmdTokens, Vec<String>)>)
    ensures
        exists|outs: Seq<Option<Seq<Seq<char>>>>|
            outs.len() == words@.len() && out_parts_match(
                r@,
                assemble(word_parts_view(words@), outs),
            ),
        forall|i: int|
            0 <= i < r@.len() ==> ((#[trigger] r@[i]).0 is Command ==> r@[i].1@.len() > 0),
{
    let ghost pviews = word_parts_view(words@);
    let mut result: Vec<(ParseCmdTokens, Vec<String>)> = Vec::new();
    let mut argv: Vec<String> = Vec::new();
    let ghost mut outs: Seq<Option<Seq<Seq<char>>>> = Seq::empty();
    let mut i: usize = 0;
    proof {
        assert(pviews.take(0) =~= Seq::<PartSpec>::empty());
    }
    while i < words.len()
        invariant
            0 <= i <= words@.len(),
            pviews == word_parts_view(words@),
            pviews.len() == words@.len(),
            outs.len() == i,
            ({
                let cfg = asm_run(asm_init(), pviews.take(i as int), outs);
                &&& cfg.argv == strs_view(argv@)
                &&& out_parts_match(result@, cfg.out)
            }),
            forall|k: int|
                0 <= k < result@.len() ==> ((#[trigger] result@[k]).0 is Command
                    ==> result@[k].1@.len() > 0),
        decreases words@.len() - i,
    {
        let ghost pre = asm_run(asm_init(), pviews.take(i as int), outs);
        proof {
            assert(pviews.take(i + 1) =~= pviews.take(i as int).push(pviews[i as int]));
            assert(word_part_view(words@[i as int]) == pviews[i as int]);
        }
        match &words[i] {
            WordPart::Word(w) => {
                let m = glob_word(w);
                proof {
                    lemma_asm_run_snoc(
                        asm_init(),
                        pviews.take(i as int),
                        outs,
                        pviews[i as int],
                        opt_strs_view(m),
                    );
                    outs = outs.push(opt_strs_view(m));
                }
                let exp = expand_word(w.clone(), m);
                push_clones(&mut argv, &exp);
            },
            WordPart::Pipe(p) => {
                proof {
                    lemma_asm_run_snoc(
                        asm_init(),
                        pviews.take(i as int),
                        outs,
                        pviews[i as int],
                        None,
                    );
                    outs = outs.push(None);
                }
                if argv.len() > 0 {
                    result.push((ParseCmdTokens::Command, argv));
                    argv = Vec::new();
                }
                let mut sep: Vec<String> = Vec::new();
                sep.push(p.clone());
                proof {
                    assert(strs_view(sep@) =~= seq![p@]);
                }
                result.push((ParseCmdTokens::Separator, sep));
                proof {
                    let nxt = asm_step(pre, pviews[i as int], None);
                    assert(strs_view(argv@) =~= nxt.argv);
                    assert(out_parts_match(result@, nxt.out));
                }
            },
        }
        i = i + 1;
    }
    proof {
        assert(pviews.take(pviews.len() as int) =~= pviews);
    }
    let ghost cfg = asm_run(asm_init(), pviews, outs);
    if argv.len() > 0 {
        result.push((ParseCmdTokens::Command, argv));
    }
    proof {
        assert(out_parts_match(result@, assemble(pviews, outs)));
        assert(outs.len() == words@.len() && out_parts_match(
            result@,
            assemble(word_parts_view(words@), outs),
        ));
    }
    result
}

proof fn lemma_parts_match_view(v: Seq<WordPart>, o: Seq<PartSpec>)
    requires
        parts_match(v, o),
    ensures
        word_parts_view(v) == o,
{
    assert(word_parts_view(v) =~= o);
}

pub open spec fn all_words(parts: Seq<PartSpec>) -> bool {
    forall|i: int| 0 <= i < parts.len() ==> (#[trigger] parts[i]) is Word
}

proof fn lemma_pc_run_no_pipe(
    cfg: PcConfig,
    toks: Seq<(CmdTokens, Seq<char>, bool)>,
    status: int,
    home: Seq<char>,
)
    requires
        forall|i: int| 0 <= i < toks.len() ==> !((#[trigger] toks[i]).0 is Pipe),
        all_words(cfg.parts),
    ensures
        all_words(pc_run(cfg, toks, status, home).parts),
    decreases toks.len(),
{
    if toks.len() > 0 {
        let nxt = pc_step(cfg, toks[0], status, home);
        assert(!(toks[0].0 is Pipe));
        assert(all_words(nxt.parts));
        assert(forall|i: int|
            0 <= i < toks.drop_first().len() ==> toks.drop_first()[i] == toks[i + 1]);
        lemma_pc_run_no_pipe(nxt, toks.drop_first(), status, home);
    }
}

proof fn lemma_asm_run_all_words(
    cfg: AsmConfig,
    parts: Seq<PartSpec>,
    outs: Seq<Option<Seq<Seq<char>>>>,
)
    requires
        all_words(parts),
    ensures
        asm_run(cfg, parts, outs).out == cfg.out,
    decreases parts.len(),
{
    if parts.len() > 0 && outs.len() > 0 {
        assert(parts[0] is Word);
        assert(forall|i: int|
            0 <= i < parts.drop_first().len() ==> parts.drop_first()[i] == parts[i + 1]);
        lemma_asm_run_all_words(asm_step(cfg, parts[0], outs[0]), parts.drop_first(), outs.drop_first());
    }
}

/// A command text whose tokens hold no pipe parses to at most one part,
/// and that part is a `Command` — whatever the glob matching returned.
pub proof fn lemma_no_pipe_single_command(
    s: Seq<char>,
    status: int,
    home: Seq<char>,
    env0: Map<Seq<char>, Seq<char>>,
    outs: Seq<Option<Seq<Seq<char>>>>,
)
    requires
        forall|i: int|
            0 <= i < lexer::cmd_to_tokens_spec(s).len() ==> !((#[trigger] lexer::cmd_to_tokens_spec(
                s,
            )[i]).0 is Pipe),
    ensures
        ({
            let out = assemble(pc_of_cmd(s, status, home, env0).parts, outs);
            &&& out.len() <= 1
            &&& forall|j: int| 0 <= j < out.len() ==> (#[trigger] out[j]).0 is Command
        }),
{
    let parts = pc_of_cmd(s, status, home, env0).parts;
    assert(all_words(pc_init(env0).parts));
    lemma_pc_run_no_pipe(pc_init(env0), lexer::cmd_to_tokens_spec(s), status, home);
    lemma_asm_run_all_words(asm_init(), parts, outs);
    let cfg = asm_run(asm_init(), parts, outs);
    assert(cfg.out =~= Seq::<(ParseCmdTokens, Seq<Seq<char>>)>::empty());
}

/// Glob composition: two fragments joined by the adjacency flag form one
/// word, so the grouping pass glob-expands the composed word `a + b`, not
/// the fragments.
pub proof fn lemma_join_composes(
    a: Seq<char>,
    b: Seq<char>,
    status: int,
    home: Seq<char>,
    env0: Map<Seq<char>, Seq<char>>,
)
    requires
        a.len() == 0 || a[0] != '~',
        b.len() == 0 || b[0] != '~',
    ensures
        pc_run(
            pc_init(env0),
            seq![(CmdTokens::Normal, a, true), (CmdTokens::Normal, b, false)],
            status,
            home,
        ).parts =~= seq![PartSpec::Word(a + b)],
{
    let toks = seq![(CmdTokens::Normal, a, true), (CmdTokens::Normal, b, false)];
    assert(toks[0] == (CmdTokens::Normal, a, true));
    assert(toks[1] == (CmdTokens::Normal, b, false));
    let c1 = pc_step(pc_init(env0), toks[0], status, home);
    assert(c1.combine =~= a);
    let c2 = pc_step(c1, toks[1], status, home);
    assert(toks.drop_first()[0] == toks[1]);
    assert(toks.drop_first().drop_first() =~= Seq::<(CmdTokens, Seq<char>, bool)>::empty());
    assert(pc_run(pc_init(env0), toks, status, home) == pc_run(
        c1,
        toks.drop_first(),
        status,
        home,
    ));
    assert(pc_run(c1, toks.drop_first(), status, home) == pc_run(
        c2,
        toks.drop_first().drop_first(),
        status,
        home,
    ));
    assert(pc_run(pc_init(env0), toks, status, home) == c2);
    assert(c2.parts =~= seq![PartSpec::Word(a + b)]);
}

/// Glob composition with a variable: a fragment joined to a variable
/// reference forms the one word `a + env[v]`, so glob expansion sees the
/// value of the variable spliced into the word.
pub proof fn lemma_join_composes_variable(
    a: Seq<char>,
    v: Seq<char>,
    status: int,
    home: Seq<char>,
    env0: Map<Seq<char>, Seq<char>>,
)
    requires
        a.len() == 0 || a[0] != '~',
        v != seq!['?'],
        env0.contains_key(v),
    ensures
        pc_run(
            pc_init(env0),
            seq![(CmdTokens::Normal, a, true), (CmdTokens::Variable, v, false)],
            status,
            home,
        ).parts =~= seq![PartSpec::Word(a + env0[v])],
{
    let toks = seq![(CmdTokens::Normal, a, true), (CmdTokens::Variable, v, false)];
    assert(toks[0] == (CmdTokens::Normal, a, true));
    assert(toks[1] == (CmdTokens::Variable, v, false));
    let c1 = pc_step(pc_init(env0), toks[0], status, home);
    assert(c1.combine =~= a);
    let c2 = pc_step(c1, toks[1], status, home);
    assert(toks.drop_first()[0] == toks[1]);
    assert(toks.drop_first().drop_first() =~= Seq::<(CmdTokens, Seq<char>, bool)>::empty());
    assert(pc_run(pc_init(env0), toks, status, home) == pc_run(
        c1,
        toks.drop_first(),
        status,
        home,
    ));
    assert(pc_run(c1, toks.drop_first(), status, home) == pc_run(
        c2,
        toks.drop_first().drop_first(),
        status,
        home,
    ));
    assert(pc_run(pc_init(env0), toks, status, home) == c2);
    assert(c2.parts =~= seq![PartSpec::Word(a + env0[v])]);
}

/// Parses one command text into pipeline parts: each `Command` a non-empty
/// argument vector, each `Separator` one pipe glyph. Expands `$NAME` from
/// `env`, `$?` from `status`, a leading `~` from `home` and glob patterns
/// from the filesystem, performs `NAME=VALUE` assignments on `env`, and
/// fails exactly on an unterminated quote or a pipe with nothing on one
/// side of it.
pub fn parse_cmd(token: String, status: i32, env: &mut Env, home: &String) -> (r: Result<
    Vec<(ParseCmdTokens, Vec<String>)>,
    SyntaxError,
>)
    ensures
        ({
            let accepted = lexer::ctt_accepts(token@);
            let cfg = pc_of_cmd(token@, status as int, home@, old(env).map_view());
            &&& !accepted ==> r is Err
            &&& !accepted ==> final(env).map_view() == old(env).map_view()
            &&& !accepted ==> final(env).log_view() == old(env).log_view()
            &&& accepted ==> final(env).map_view() == cfg.env
            &&& accepted ==> final(env).log_view() == old(env).log_view() + cfg.exports
            &&& accepted ==> ((r is Ok) <==> !pc_rejects(cfg))
            &&& (accepted && r is Ok) ==> exists|outs: Seq<Option<Seq<Seq<char>>>>|
                outs.len() == cfg.parts.len() && out_parts_match(
                    r->Ok_0@,
                    assemble(cfg.parts, outs),
                )
            &&& (accepted && r is Ok) ==> forall|i: int|
                0 <= i < r->Ok_0@.len() ==> ((#[trigger] r->Ok_0@[i]).0 is Command
                    ==> r->Ok_0@[i].1@.len() > 0)
        }),
{
    match cmd_to_words(&token, status, env, home) {
        Ok(words) => {
            proof {
                lemma_parts_match_view(
                    words@,
                    pc_of_cmd(token@, status as int, home@, old(env).map_view()).parts,
                );
            }
            Ok(expand_parts(&words))
        },
        Err(e) => Err(e),
    }
}

} // verus!
