use vstd::prelude::*;
use vstd::string::StrSliceExecFns;

use crate::instruction::{
    Instr,
    Instruction,
    model_seq,
    lemma_model_seq_push,
    lemma_model_unfold,
    lemma_model_seq_empty,
};
use crate::engine::LSystem;

verus! {

/// Why a piece of grammar text was rejected.
#[derive(Debug, Clone, Copy, PartialEq, Eq, Structural)]
pub enum ParseError {
    /// A run of symbols was required and none was found.
    EmptySymbolRun,
    /// A branch was required and the text does not start with `[`.
    ExpectedOpenBracket,
    /// A branch was opened and no `]` closes it.
    UnbalancedBranch,
    /// A rule was required and the text is not `symbol -> instructions`.
    MalformedRule,
    /// A single symbol was required and the text is not one.
    NotASymbol,
    /// The initial word is not followed by `;`.
    UnterminatedWord,
}

/// A rewrite rule: a symbol and the instructions that replace it.
pub type Rule = (Instruction, Vec<Instruction>);

/// The model of a rule.
pub type RuleModel = (Instr, Seq<Instr>);

/// The model of a rule: its two sides, modelled.
pub open spec fn rule_model(r: Rule) -> RuleModel {
    (r.0.model(), model_seq(r.1@))
}

/// The models of a sequence of rules, in order.
pub open spec fn rules_model(s: Seq<Rule>) -> Seq<RuleModel> {
    Seq::new(s.len(), |k: int| rule_model(s[k]))
}

/// Characters skipped between tokens.
pub open spec fn is_ws(c: char) -> bool {
    c == ' ' || c == '\n' || c == '\t'
}

/// Characters that stand for themselves as a symbol.
pub open spec fn is_symbol(c: char) -> bool {
    !(c == '[' || c == ']' || c == ';' || is_ws(c))
}

/// The first position at or after `p` that does not hold whitespace.
pub open spec fn skip_ws(s: Seq<char>, p: int) -> int
    decreases s.len() - p,
{
    if 0 <= p < s.len() && is_ws(s[p]) {
        skip_ws(s, p + 1)
    } else {
        p
    }
}

/// The first position at or after `p` that does not hold a symbol.
pub open spec fn symbol_run_end(s: Seq<char>, p: int) -> int
    decreases s.len() - p,
{
    if 0 <= p < s.len() && is_symbol(s[p]) {
        symbol_run_end(s, p + 1)
    } else {
        p
    }
}

/// The symbols of `s` from `p` to `q`, as instructions.
pub open spec fn symbols(s: Seq<char>, p: int, q: int) -> Seq<Instr>
    decreases q - p,
{
    if q <= p {
        Seq::empty()
    } else {
        symbols(s, p, q - 1).push(Instr::Sym(s[q - 1]))
    }
}

/// Zero or more of: a symbol, a balanced branch, whitespace; starting at `p`.
/// Returns where the parse stopped and what it read. A `[` whose branch is not
/// closed stops the parse at that `[`.
#[verifier::opaque]
pub open spec fn parse_instrs(s: Seq<char>, p: int) -> (int, Seq<Instr>)
    decreases s.len() - p,
{
    if p < 0 || p >= s.len() {
        (p, Seq::empty())
    } else if is_ws(s[p]) {
        parse_instrs(s, p + 1)
    } else if is_symbol(s[p]) {
        let rest = parse_instrs(s, p + 1);
        (rest.0, seq![Instr::Sym(s[p])] + rest.1)
    } else if s[p] == '[' {
        let inner = parse_instrs(s, p + 1);
        if p < inner.0 < s.len() && s[inner.0] == ']' {
            let rest = parse_instrs(s, inner.0 + 1);
            (rest.0, seq![Instr::Br(inner.1)] + rest.1)
        } else {
            (p, Seq::empty())
        }
    } else {
        (p, Seq::empty())
    }
}

/// A branch starting at `p`: `[`, instructions, `]`. `None` where it is not one.
pub open spec fn parse_branch(s: Seq<char>, p: int) -> Option<(int, Instr)> {
    if 0 <= p < s.len() && s[p] == '[' {
        let inner = parse_instrs(s, p + 1);
        if inner.0 < s.len() && s[inner.0] == ']' {
            Some((inner.0 + 1, Instr::Br(inner.1)))
        } else {
            None
        }
    } else {
        None
    }
}

/// A rule starting at `p`: optional whitespace, one symbol, optional
/// whitespace, `->`, instructions.
pub open spec fn parse_rule(s: Seq<char>, p: int) -> Option<(int, RuleModel)> {
    let a = skip_ws(s, p);
    if 0 <= a < s.len() && is_symbol(s[a]) {
        let b = skip_ws(s, a + 1);
        if b < s.len() && b + 1 < s.len() && s[b] == '-' && s[b + 1] == '>' {
            let t = parse_instrs(s, b + 2);
            Some((t.0, (Instr::Sym(s[a]), t.1)))
        } else {
            None
        }
    } else {
        None
    }
}

/// As many rules, each closed by `;`, as stand from `p` on.
#[verifier::opaque]
pub open spec fn parse_rules(s: Seq<char>, p: int) -> (int, Seq<RuleModel>)
    decreases s.len() - p,
{
    match parse_rule(s, p) {
        Some(r) => if p <= r.0 < s.len() && s[r.0] == ';' {
            let rest = parse_rules(s, r.0 + 1);
            (rest.0, seq![r.1] + rest.1)
        } else {
            (p, Seq::empty())
        },
        None => (p, Seq::empty()),
    }
}

/// A whole grammar: the initial word, `;`, then the rules. `None` where that word is
/// not followed by `;`.
pub open spec fn parse_grammar(s: Seq<char>) -> Option<(int, (Seq<Instr>, Seq<RuleModel>))> {
    let ax = parse_instrs(s, 0);
    if ax.0 < s.len() && s[ax.0] == ';' {
        let rs = parse_rules(s, ax.0 + 1);
        Some((rs.0, (ax.1, rs.1)))
    } else {
        None
    }
}

proof fn lemma_push_concat(a: Seq<Instr>, x: Instr, r: Seq<Instr>)
    ensures
        a + (seq![x] + r) == a.push(x) + r,
{
    assert(a + (seq![x] + r) =~= a.push(x) + r);
}

/// One step of `parse_instrs`, as its definition gives it.
pub proof fn lemma_parse_instrs_step(s: Seq<char>, p: int)
    requires
        0 <= p,
    ensures
        p >= s.len() ==> parse_instrs(s, p) == (p, Seq::<Instr>::empty()),
        p < s.len() && is_ws(s[p]) ==> parse_instrs(s, p) == parse_instrs(s, p + 1),
        p < s.len() && is_symbol(s[p]) ==> parse_instrs(s, p) == (
            parse_instrs(s, p + 1).0,
            seq![Instr::Sym(s[p])] + parse_instrs(s, p + 1).1,
        ),
        p < s.len() && s[p] == '[' ==> {
            let inner = parse_instrs(s, p + 1);
            parse_instrs(s, p) == if p < inner.0 < s.len() && s[inner.0] == ']' {
                (
                    parse_instrs(s, inner.0 + 1).0,
                    seq![Instr::Br(inner.1)] + parse_instrs(s, inner.0 + 1).1,
                )
            } else {
                (p, Seq::<Instr>::empty())
            }
        },
        p < s.len() && !is_ws(s[p]) && !is_symbol(s[p]) && s[p] != '[' ==> parse_instrs(s, p) == (
            p,
            Seq::<Instr>::empty(),
        ),
{
    reveal_with_fuel(parse_instrs, 1);
}

/// What `instrs_at` has read from `p` up to `i`, and what is left to read.
spec fn instrs_progress(s: Seq<char>, p: int, i: int, acc: Seq<Instruction>) -> bool {
    parse_instrs(s, p) == (parse_instrs(s, i).0, model_seq(acc) + parse_instrs(s, i).1)
}

proof fn lemma_progress_push(s: Seq<char>, p: int, i: int, j: int, acc: Seq<Instruction>, x: Instruction)
    requires
        instrs_progress(s, p, i, acc),
        parse_instrs(s, i) == (parse_instrs(s, j).0, seq![x.model()] + parse_instrs(s, j).1),
    ensures
        instrs_progress(s, p, j, acc.push(x)),
{
    lemma_model_seq_push(acc, x);
    lemma_push_concat(model_seq(acc), x.model(), parse_instrs(s, j).1);
}

proof fn lemma_progress_stop(s: Seq<char>, p: int, i: int, acc: Seq<Instruction>)
    requires
        instrs_progress(s, p, i, acc),
        parse_instrs(s, i) == (i, Seq::<Instr>::empty()),
    ensures
        parse_instrs(s, p) == (i, model_seq(acc)),
{
    assert(model_seq(acc) + Seq::<Instr>::empty() =~= model_seq(acc));
}

/// Whether `c` opens or closes a branch.
pub fn is_branch_symbol(c: char) -> (r: bool)
    ensures
        r == (c == '[' || c == ']'),
{
    c == '[' || c == ']'
}

fn is_ws_char(c: char) -> (r: bool)
    ensures
        r == is_ws(c),
{
    c == ' ' || c == '\n' || c == '\t'
}

fn is_symbol_char(c: char) -> (r: bool)
    ensures
        r == is_symbol(c),
{
    !(is_branch_symbol(c) || c == ';' || is_ws_char(c))
}

/// The instruction for a text that is exactly one symbol character.
pub fn to_symbol(input: &str) -> (r: Result<Instruction, ParseError>)
    ensures
        r == if input@.len() == 1 && is_symbol(input@[0]) {
            Ok::<Instruction, ParseError>(Instruction::Symbol(input@[0]))
        } else {
            Err::<Instruction, ParseError>(ParseError::NotASymbol)
        },
{
    if input.unicode_len() != 1 {
        return Err(ParseError::NotASymbol);
    }
    let c = input.get_char(0);
    if is_symbol_char(c) {
        Ok(Instruction::Symbol(c))
    } else {
        Err(ParseError::NotASymbol)
    }
}

/// The characters of a string, one by one.
fn chars_of(input: &str) -> (r: Vec<char>)
    ensures
        r@ == input@,
{
    let n = input.unicode_len();
    let mut r: Vec<char> = Vec::new();
    let mut k: usize = 0;
    while k < n
        invariant
            n == input@.len(),
            k <= n,
            r@ == input@.subrange(0, k as int),
        decreases n - k,
    {
        r.push(input.get_char(k));
        k = k + 1;
    }
    r
}

/// Parses instructions from position `p` of `s` (see `parse_instrs`).
fn instrs_at(s: &Vec<char>, p: usize) -> (r: (usize, Vec<Instruction>))
    requires
        p <= s@.len(),
    ensures
        r.0 as int == parse_instrs(s@, p as int).0,
        model_seq(r.1@) == parse_instrs(s@, p as int).1,
        p <= r.0 <= s@.len(),
    decreases s@.len() - p,
{
    let mut acc: Vec<Instruction> = Vec::new();
    let mut i: usize = p;
    assert(model_seq(acc@) + parse_instrs(s@, p as int).1 =~= parse_instrs(s@, p as int).1);
    loop
        invariant
            p <= i <= s@.len(),
            instrs_progress(s@, p as int, i as int, acc@),
        ensures
            p <= i <= s@.len(),
            parse_instrs(s@, p as int) == (i as int, model_seq(acc@)),
        decreases s@.len() - i,
    {
        if i >= s.len() {
            proof {
                lemma_parse_instrs_step(s@, i as int);
                lemma_progress_stop(s@, p as int, i as int, acc@);
            }
            break;
        }
        let c = s[i];
        proof {
            lemma_parse_instrs_step(s@, i as int);
        }
        if is_ws_char(c) {
            i = i + 1;
        } else if is_symbol_char(c) {
            proof {
                lemma_model_unfold(Instruction::Symbol(c));
                lemma_progress_push(s@, p as int, i as int, i + 1, acc@, Instruction::Symbol(c));
            }
            acc.push(Instruction::Symbol(c));
            i = i + 1;
        } else if c == '[' {
            let (q, inner) = instrs_at(s, i + 1);
            if q < s.len() && s[q] == ']' {
                let x = Instruction::Branch(inner);
                proof {
                    lemma_model_unfold(x);
                    lemma_progress_push(s@, p as int, i as int, q + 1, acc@, x);
                }
                acc.push(x);
                i = q + 1;
            } else {
                proof {
                    lemma_progress_stop(s@, p as int, i as int, acc@);
                }
                break;
            }
        } else {
            proof {
                lemma_progress_stop(s@, p as int, i as int, acc@);
            }
            break;
        }
    }
    (i, acc)
}

/// One step of `parse_rules`, as its definition gives it.
pub proof fn lemma_parse_rules_step(s: Seq<char>, p: int)
    ensures
        parse_rules(s, p) == match parse_rule(s, p) {
            Some(r) => if p <= r.0 < s.len() && s[r.0] == ';' {
                (parse_rules(s, r.0 + 1).0, seq![r.1] + parse_rules(s, r.0 + 1).1)
            } else {
                (p, Seq::<RuleModel>::empty())
            },
            None => (p, Seq::<RuleModel>::empty()),
        },
{
    reveal_with_fuel(parse_rules, 1);
}

/// The first position at or after `p` without whitespace (see `skip_ws`).
fn skip_ws_at(s: &Vec<char>, p: usize) -> (r: usize)
    requires
        p <= s@.len(),
    ensures
        r as int == skip_ws(s@, p as int),
        p <= r <= s@.len(),
{
    let mut i: usize = p;
    while i < s.len() && is_ws_char(s[i])
        invariant
            p <= i <= s@.len(),
            skip_ws(s@, p as int) == skip_ws(s@, i as int),
        decreases s@.len() - i,
    {
        i = i + 1;
    }
    i
}

/// Parses a rule from position `p` of `s` (see `parse_rule`).
fn rule_at(s: &Vec<char>, p: usize) -> (r: Option<(usize, Rule)>)
    requires
        p <= s@.len(),
    ensures
        match parse_rule(s@, p as int) {
            Some((q, m)) => match r {
                Some((e, rl)) => e as int == q && rule_model(rl) == m,
                None => false,
            },
            None => r is None,
        },
        match r {
            Some((e, _)) => p <= e <= s@.len(),
            None => true,
        },
{
    let a = skip_ws_at(s, p);
    if a < s.len() && is_symbol_char(s[a]) {
        let b = skip_ws_at(s, a + 1);
        if b < s.len() && b + 1 < s.len() && s[b] == '-' && s[b + 1] == '>' {
            let (q, target) = instrs_at(s, b + 2);
            let from = Instruction::Symbol(s[a]);
            proof {
                lemma_model_unfold(from);
            }
            Some((q, (from, target)))
        } else {
            None
        }
    } else {
        None
    }
}

/// Parses rules, each closed by `;`, from position `p` of `s` (see `parse_rules`).
fn rules_at(s: &Vec<char>, p: usize) -> (r: (usize, Vec<Rule>))
    requires
        p <= s@.len(),
    ensures
        r.0 as int == parse_rules(s@, p as int).0,
        rules_model(r.1@) == parse_rules(s@, p as int).1,
        p <= r.0 <= s@.len(),
{
    let mut acc: Vec<Rule> = Vec::new();
    let mut i: usize = p;
    assert(rules_model(acc@) + parse_rules(s@, p as int).1 =~= parse_rules(s@, p as int).1);
    loop
        invariant
            p <= i <= s@.len(),
            parse_rules(s@, p as int) == (
                parse_rules(s@, i as int).0,
                rules_model(acc@) + parse_rules(s@, i as int).1,
            ),
        ensures
            p <= i <= s@.len(),
            parse_rules(s@, p as int) == (i as int, rules_model(acc@)),
        decreases s@.len() - i,
    {
        proof {
            lemma_parse_rules_step(s@, i as int);
        }
        match rule_at(s, i) {
            Some((q, rl)) => {
                if q < s.len() && s[q] == ';' {
                    let ghost old_acc = acc@;
                    let ghost rest = parse_rules(s@, q + 1);
                    acc.push(rl);
                    proof {
                        assert(rules_model(acc@) =~= rules_model(old_acc).push(rule_model(rl)));
                        assert(rules_model(old_acc) + (seq![rule_model(rl)] + rest.1)
                            =~= rules_model(acc@) + rest.1);
                    }
                    i = q + 1;
                } else {
                    assert(rules_model(acc@) + Seq::<RuleModel>::empty() =~= rules_model(acc@));
                    break;
                }
            },
            None => {
                assert(rules_model(acc@) + Seq::<RuleModel>::empty() =~= rules_model(acc@));
                break;
            },
        }
    }
    (i, acc)
}

/// The text of `input` from character `p` on.
fn rest_from<'a>(input: &'a str, n: usize, p: usize) -> (r: &'a str)
    requires
        n == input@.len(),
        p <= n,
    ensures
        r@ == input@.subrange(p as int, n as int),
{
    input.substring_char(p, n)
}

/// Instructions: zero or more symbols, balanced branches and whitespace, as
/// many as stand at the start of `input`. Never fails; returns the text that
/// was not read, which starts at the first character that cannot continue
/// the instructions (a `[` whose branch is not closed, a `]`, a `;`).
pub fn instructions(input: &str) -> (r: Result<(&str, Vec<Instruction>), ParseError>)
    ensures
        match r {
            Ok((rest, v)) => {
                &&& rest@ == input@.subrange(parse_instrs(input@, 0).0, input@.len() as int)
                &&& model_seq(v@) == parse_instrs(input@, 0).1
            },
            Err(_) => false,
        },
{
    let s = chars_of(input);
    let (q, v) = instrs_at(&s, 0);
    Ok((rest_from(input, s.len(), q), v))
}

/// A run of one or more symbols at the start of `input`, as long as it goes.
pub fn simple_instructions(input: &str) -> (r: Result<(&str, Vec<Instruction>), ParseError>)
    ensures
        symbol_run_end(input@, 0) == 0 <==> r == Err::<(&str, Vec<Instruction>), ParseError>(
            ParseError::EmptySymbolRun,
        ),
        match r {
            Ok((rest, v)) => {
                &&& rest@ == input@.subrange(symbol_run_end(input@, 0), input@.len() as int)
                &&& model_seq(v@) == symbols(input@, 0, symbol_run_end(input@, 0))
            },
            Err(e) => e == ParseError::EmptySymbolRun,
        },
{
    let s = chars_of(input);
    let mut acc: Vec<Instruction> = Vec::new();
    let mut i: usize = 0;
    proof {
        lemma_model_seq_empty();
    }
    assert(model_seq(acc@) =~= symbols(s@, 0, 0));
    while i < s.len() && is_symbol_char(s[i])
        invariant
            i <= s@.len(),
            symbol_run_end(s@, 0) == symbol_run_end(s@, i as int),
            model_seq(acc@) == symbols(s@, 0, i as int),
        decreases s@.len() - i,
    {
        let x = Instruction::Symbol(s[i]);
        proof {
            lemma_model_seq_push(acc@, x);
            lemma_model_unfold(x);
        }
        acc.push(x);
        i = i + 1;
    }
    if i == 0 {
        Err(ParseError::EmptySymbolRun)
    } else {
        Ok((rest_from(input, s.len(), i), acc))
    }
}

/// A branch at the start of `input`: `[`, instructions, `]`.
pub fn branch(input: &str) -> (r: Result<(&str, Vec<Instruction>), ParseError>)
    ensures
        match parse_branch(input@, 0) {
            Some(b) => match r {
                Ok((rest, v)) => {
                    &&& rest@ == input@.subrange(b.0, input@.len() as int)
                    &&& model_seq(v@) == seq![b.1]
                },
                Err(_) => false,
            },
            None => r == Err::<(&str, Vec<Instruction>), ParseError>(
                if input@.len() > 0 && input@[0] == '[' {
                    ParseError::UnbalancedBranch
                } else {
                    ParseError::ExpectedOpenBracket
                },
            ),
        },
{
    let s = chars_of(input);
    if s.len() == 0 || s[0] != '[' {
        return Err(ParseError::ExpectedOpenBracket);
    }
    let (q, inner) = instrs_at(&s, 1);
    if q < s.len() && s[q] == ']' {
        let x = Instruction::Branch(inner);
        let mut v: Vec<Instruction> = Vec::new();
        proof {
            lemma_model_seq_push(v@, x);
            lemma_model_unfold(x);
            lemma_model_seq_empty();
            assert(Seq::<Instr>::empty().push(x.model()) =~= seq![x.model()]);
        }
        v.push(x);
        Ok((rest_from(input, s.len(), q + 1), v))
    } else {
        Err(ParseError::UnbalancedBranch)
    }
}

/// A rule at the start of `input`: optional whitespace, one symbol, optional
/// whitespace, `->`, then the instructions that replace the symbol.
pub fn rule(input: &str) -> (r: Result<(&str, Rule), ParseError>)
    ensures
        match parse_rule(input@, 0) {
            Some(m) => match r {
                Ok((rest, rl)) => {
                    &&& rest@ == input@.subrange(m.0, input@.len() as int)
                    &&& rule_model(rl) == m.1
                },
                Err(_) => false,
            },
            None => r == Err::<(&str, Rule), ParseError>(ParseError::MalformedRule),
        },
{
    let s = chars_of(input);
    match rule_at(&s, 0) {
        Some((q, rl)) => Ok((rest_from(input, s.len(), q), rl)),
        None => Err(ParseError::MalformedRule),
    }
}

/// A whole grammar at the start of `input`: the initial word, `;`, then rules
/// each closed by `;`. Reading stops before the first text that is not such a
/// rule; that text is returned, not rejected.
pub fn lsystem(input: &str) -> (r: Result<(&str, LSystem), ParseError>)
    ensures
        match parse_grammar(input@) {
            Some((q, (w, rs))) => match r {
                Ok((rest, l)) => {
                    &&& rest@ == input@.subrange(q, input@.len() as int)
                    &&& l@.initial == w
                    &&& l@.word == w
                    &&& l@.rules == rs
                },
                Err(_) => false,
            },
            None => r is Err && r->Err_0 == ParseError::UnterminatedWord,
        },
{
    let s = chars_of(input);
    let (p, word) = instrs_at(&s, 0);
    if p < s.len() && s[p] == ';' {
        let (q, rules) = rules_at(&s, p + 1);
        Ok((rest_from(input, s.len(), q), LSystem::new(word, rules)))
    } else {
        Err(ParseError::UnterminatedWord)
    }
}

impl LSystem {
    /// Parses a grammar (see `lsystem`); what follows the last rule is ignored.
    pub fn from_str(input: &str) -> (r: Result<LSystem, ParseError>)
        ensures
            match parse_grammar(input@) {
                Some((_, (w, rs))) => match r {
                    Ok(l) => l@.initial == w && l@.word == w && l@.rules == rs,
                    Err(_) => false,
                },
                None => r == Err::<LSystem, ParseError>(ParseError::UnterminatedWord),
            },
    {
        match lsystem(input) {
            Ok((_, l)) => Ok(l),
            Err(e) => Err(e),
        }
    }
}

/// Parsing is deterministic: the same text always yields the same initial
/// word, the same rules and the same unread remainder, or always fails.
pub proof fn lemma_parse_deterministic(s: Seq<char>, t: Seq<char>)
    requires
        s == t,
    ensures
        parse_grammar(s) == parse_grammar(t),
        parse_grammar(s) is Some <==> parse_grammar(t) is Some,
{
}

} // verus!
