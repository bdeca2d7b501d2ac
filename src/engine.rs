use vstd::prelude::*;

use crate::instruction::{
    Instr,
    Instruction,
    model_seq,
    lemma_model_seq_push,
    lemma_model_unfold,
    copy_instruction,
    copy_instructions,
};
use crate::parser::{Rule, RuleModel, rules_model};

verus! {

/// The replacement of the first rule, in declaration order, whose left-hand
/// side is the symbol `c`; `None` where no rule has it.
pub open spec fn lookup(rules: Seq<RuleModel>, c: char) -> Option<Seq<Instr>>
    decreases rules.len(),
{
    if rules.len() == 0 {
        None
    } else if rules[0].0 == Instr::Sym(c) {
        Some(rules[0].1)
    } else {
        lookup(rules.subrange(1, rules.len() as int), c)
    }
}

/// What one rewrite step makes of one instruction: a symbol becomes the
/// replacement of its first rule, or stays as it is; a branch stays a branch,
/// with its contents rewritten.
pub open spec fn apply(i: Instr, rules: Seq<RuleModel>) -> Seq<Instr>
    decreases i,
{
    match i {
        Instr::Sym(c) => match lookup(rules, c) {
            Some(t) => t,
            None => seq![Instr::Sym(c)],
        },
        Instr::Br(inner) => seq![Instr::Br(apply_word(inner, rules))],
    }
}

/// One rewrite step on a whole word: the rewritten instructions, in order,
/// concatenated.
pub open spec fn apply_word(w: Seq<Instr>, rules: Seq<RuleModel>) -> Seq<Instr>
    decreases w,
{
    if w.len() == 0 {
        Seq::empty()
    } else {
        apply_word(w.subrange(0, w.len() - 1), rules) + apply(w[w.len() - 1], rules)
    }
}

/// The word after `n` rewrite steps from `w`.
pub open spec fn generation(w: Seq<Instr>, rules: Seq<RuleModel>, n: nat) -> Seq<Instr>
    decreases n,
{
    if n == 0 {
        w
    } else {
        apply_word(generation(w, rules, (n - 1) as nat), rules)
    }
}

/// The model of an L-system: its initial word, its current word and its rules.
pub struct LSystemModel {
    pub initial: Seq<Instr>,
    pub word: Seq<Instr>,
    pub rules: Seq<RuleModel>,
}

/// An initial word, the current generation grown from it, and the rules that rewrite it.
#[derive(Debug, PartialEq)]
pub struct LSystem {
    initial: Vec<Instruction>,
    word: Vec<Instruction>,
    rules: Vec<Rule>,
}

impl View for LSystem {
    type V = LSystemModel;

    closed spec fn view(&self) -> LSystemModel {
        LSystemModel {
            initial: model_seq(self.initial@),
            word: model_seq(self.word@),
            rules: rules_model(self.rules@),
        }
    }
}

proof fn lemma_lookup_shift(rules: Seq<RuleModel>, k: int, c: char)
    requires
        0 <= k < rules.len(),
    ensures
        lookup(rules.subrange(k, rules.len() as int), c) == if rules[k].0 == Instr::Sym(c) {
            Some(rules[k].1)
        } else {
            lookup(rules.subrange(k + 1, rules.len() as int), c)
        },
{
    let tail = rules.subrange(k, rules.len() as int);
    assert(tail.subrange(1, tail.len() as int) =~= rules.subrange(k + 1, rules.len() as int));
}

/// Finds the replacement of the first rule whose left-hand side is `c`.
fn lookup_rule(rules: &Vec<Rule>, c: char) -> (r: Option<&Vec<Instruction>>)
    ensures
        match lookup(rules_model(rules@), c) {
            Some(t) => r is Some && model_seq(r->0@) == t,
            None => r is None,
        },
{
    let ghost m = rules_model(rules@);
    assert(m.subrange(0, m.len() as int) =~= m);
    let mut k: usize = 0;
    while k < rules.len()
        invariant
            k <= rules@.len(),
            m == rules_model(rules@),
            lookup(m, c) == lookup(m.subrange(k as int, m.len() as int), c),
        decreases rules@.len() - k,
    {
        proof {
            lemma_lookup_shift(m, k as int, c);
            lemma_model_unfold(rules@[k as int].0);
        }
        let hit = match &rules[k].0 {
            Instruction::Symbol(d) => *d == c,
            Instruction::Branch(_) => false,
        };
        if hit {
            return Some(&rules[k].1);
        }
        k = k + 1;
    }
    None
}

proof fn lemma_model_seq_prefix(v: Seq<Instruction>, k: int)
    requires
        0 <= k < v.len(),
    ensures
        model_seq(v.subrange(0, k + 1)) == model_seq(v.subrange(0, k)).push(v[k].model()),
{
    assert(v.subrange(0, k + 1).subrange(0, k) =~= v.subrange(0, k));
}

proof fn lemma_apply_word_push(w: Seq<Instr>, x: Instr, rules: Seq<RuleModel>)
    ensures
        apply_word(w.push(x), rules) == apply_word(w, rules) + apply(x, rules),
{
    assert(w.push(x).subrange(0, w.len() as int) =~= w);
}

/// Appends deep copies of the instructions of `v` to `out`.
fn extend_copy(out: &mut Vec<Instruction>, v: &Vec<Instruction>)
    ensures
        model_seq(final(out)@) == model_seq(old(out)@) + model_seq(v@),
{
    let ghost start = model_seq(out@);
    let mut k: usize = 0;
    assert(start + model_seq(v@.subrange(0, 0)) =~= start);
    while k < v.len()
        invariant
            k <= v@.len(),
            model_seq(out@) == start + model_seq(v@.subrange(0, k as int)),
        decreases v@.len() - k,
    {
        let x = copy_instruction(&v[k]);
        proof {
            lemma_model_seq_push(out@, x);
            lemma_model_seq_prefix(v@, k as int);
            assert(start + model_seq(v@.subrange(0, k as int)).push(x.model()) =~= (start
                + model_seq(v@.subrange(0, k as int))).push(x.model()));
        }
        out.push(x);
        k = k + 1;
    }
    assert(v@.subrange(0, v@.len() as int) =~= v@);
}

/// Appends to `out` what one rewrite step makes of `i`.
fn apply_instruction(i: &Instruction, rules: &Vec<Rule>, out: &mut Vec<Instruction>)
    ensures
        model_seq(final(out)@) == model_seq(old(out)@) + apply(i.model(), rules_model(rules@)),
    decreases i,
{
    proof {
        lemma_model_unfold(*i);
    }
    match i {
        Instruction::Symbol(c) => {
            match lookup_rule(rules, *c) {
                Some(t) => extend_copy(out, t),
                None => {
                    let x = Instruction::Symbol(*c);
                    proof {
                        lemma_model_seq_push(out@, x);
                        lemma_model_unfold(x);
                        assert(model_seq(out@) + seq![Instr::Sym(*c)] =~= model_seq(out@).push(
                            Instr::Sym(*c),
                        ));
                    }
                    out.push(x);
                },
            }
        },
        Instruction::Branch(v) => {
            let mut inner: Vec<Instruction> = Vec::new();
            apply_into(v, rules, &mut inner);
            assert(model_seq(inner@) == apply_word(model_seq(v@), rules_model(rules@)));
            let x = Instruction::Branch(inner);
            proof {
                lemma_model_seq_push(out@, x);
                lemma_model_unfold(x);
                assert(model_seq(out@) + seq![x.model()] =~= model_seq(out@).push(x.model()));
            }
            out.push(x);
        },
    }
}

/// Appends to `out` what one rewrite step makes of the word `w`.
fn apply_into(w: &Vec<Instruction>, rules: &Vec<Rule>, out: &mut Vec<Instruction>)
    ensures
        model_seq(final(out)@) == model_seq(old(out)@) + apply_word(
            model_seq(w@),
            rules_model(rules@),
        ),
    decreases w,
{
    let ghost start = model_seq(out@);
    let ghost rm = rules_model(rules@);
    let mut k: usize = 0;
    assert(start + apply_word(model_seq(w@.subrange(0, 0)), rm) =~= start);
    while k < w.len()
        invariant
            k <= w@.len(),
            rm == rules_model(rules@),
            model_seq(out@) == start + apply_word(model_seq(w@.subrange(0, k as int)), rm),
        decreases w@.len() - k,
    {
        let ghost before = model_seq(out@);
        apply_instruction(&w[k], rules, out);
        proof {
            let mk = model_seq(w@.subrange(0, k as int));
            lemma_model_seq_prefix(w@, k as int);
            lemma_apply_word_push(mk, w@[k as int].model(), rm);
            assert(start + apply_word(mk, rm) + apply(w@[k as int].model(), rm) =~= start
                + (apply_word(mk, rm) + apply(w@[k as int].model(), rm)));
        }
        k = k + 1;
    }
    assert(w@.subrange(0, w@.len() as int) =~= w@);
}

impl LSystem {
    /// An L-system whose current word is its initial word.
    pub fn new(initial: Vec<Instruction>, rules: Vec<Rule>) -> (r: LSystem)
        ensures
            r@.initial == model_seq(initial@),
            r@.word == model_seq(initial@),
            r@.rules == rules_model(rules@),
    {
        let word = copy_instructions(&initial);
        LSystem { initial, word, rules }
    }

    /// The initial word.
    pub fn initial(&self) -> (r: &Vec<Instruction>)
        ensures
            model_seq(r@) == self@.initial,
    {
        &self.initial
    }

    /// The current word.
    pub fn word(&self) -> (r: &Vec<Instruction>)
        ensures
            model_seq(r@) == self@.word,
    {
        &self.word
    }

    /// The rules, in declaration order.
    pub fn rules(&self) -> (r: &Vec<Rule>)
        ensures
            rules_model(r@) == self@.rules,
    {
        &self.rules
    }

    /// Sets the current word back to the initial word.
    pub fn reset(&mut self)
        ensures
            final(self)@.word == old(self)@.initial,
            final(self)@.initial == old(self)@.initial,
            final(self)@.rules == old(self)@.rules,
    {
        self.word = copy_instructions(&self.initial);
    }

    /// Rewrites the current word once.
    pub fn step(&mut self)
        ensures
            final(self)@.word == apply_word(old(self)@.word, old(self)@.rules),
            final(self)@.initial == old(self)@.initial,
            final(self)@.rules == old(self)@.rules,
    {
        let mut next: Vec<Instruction> = Vec::new();
        apply_into(&self.word, &self.rules, &mut next);
        assert(Seq::<Instr>::empty() + apply_word(self@.word, self@.rules) =~= apply_word(
            self@.word,
            self@.rules,
        ));
        self.word = next;
    }

    /// Hands out a copy of the current word, then rewrites it once.
    pub fn next(&mut self) -> (r: Vec<Instruction>)
        ensures
            model_seq(r@) == old(self)@.word,
            final(self)@.word == apply_word(old(self)@.word, old(self)@.rules),
            final(self)@.initial == old(self)@.initial,
            final(self)@.rules == old(self)@.rules,
    {
        let r = copy_instructions(&self.word);
        self.step();
        r
    }

    /// Skips `n` generations, then hands out the next one as `next` does.
    pub fn nth(&mut self, n: usize) -> (r: Vec<Instruction>)
        ensures
            model_seq(r@) == generation(old(self)@.word, old(self)@.rules, n as nat),
            final(self)@.word == generation(old(self)@.word, old(self)@.rules, (n + 1) as nat),
            final(self)@.initial == old(self)@.initial,
            final(self)@.rules == old(self)@.rules,
    {
        let ghost w0 = self@.word;
        let mut k: usize = 0;
        while k < n
            invariant
                k <= n,
                self@.word == generation(w0, self@.rules, k as nat),
                self@.initial == old(self)@.initial,
                self@.rules == old(self)@.rules,
            decreases n - k,
        {
            self.step();
            k = k + 1;
        }
        self.next()
    }
}

proof fn lemma_lookup_hit_from(rules: Seq<RuleModel>, c: char, j: int, k: int)
    requires
        0 <= j <= k < rules.len(),
        rules[k].0 == Instr::Sym(c),
        forall|i: int| j <= i < k ==> rules[i].0 != Instr::Sym(c),
    ensures
        lookup(rules.subrange(j, rules.len() as int), c) == Some(rules[k].1),
    decreases k - j,
{
    lemma_lookup_shift(rules, j, c);
    if j < k {
        lemma_lookup_hit_from(rules, c, j + 1, k);
    }
}

proof fn lemma_lookup_miss_from(rules: Seq<RuleModel>, c: char, j: int)
    requires
        0 <= j <= rules.len(),
        forall|i: int| j <= i < rules.len() ==> rules[i].0 != Instr::Sym(c),
    ensures
        lookup(rules.subrange(j, rules.len() as int), c) is None,
    decreases rules.len() - j,
{
    if j < rules.len() {
        lemma_lookup_shift(rules, j, c);
        lemma_lookup_miss_from(rules, c, j + 1);
    } else {
        assert(rules.subrange(j, rules.len() as int).len() == 0);
    }
}

/// A symbol that no rule has on its left-hand side is rewritten to itself,
/// alone: it is neither dropped nor replaced.
pub proof fn lemma_unmatched_symbol_unchanged(c: char, rules: Seq<RuleModel>)
    requires
        forall|k: int| 0 <= k < rules.len() ==> rules[k].0 != Instr::Sym(c),
    ensures
        apply(Instr::Sym(c), rules) == seq![Instr::Sym(c)],
{
    lemma_lookup_miss_from(rules, c, 0);
    assert(rules.subrange(0, rules.len() as int) =~= rules);
}

/// Where several rules have the symbol `c` on their left-hand side, the first
/// of them in declaration order decides what `c` becomes; the later ones are
/// never used.
pub proof fn lemma_first_match_wins(c: char, rules: Seq<RuleModel>, k: int)
    requires
        0 <= k < rules.len(),
        rules[k].0 == Instr::Sym(c),
        forall|j: int| 0 <= j < k ==> rules[j].0 != Instr::Sym(c),
    ensures
        apply(Instr::Sym(c), rules) == rules[k].1,
        forall|j: int|
            k < j < rules.len() && rules[j].1 != rules[k].1 ==> apply(Instr::Sym(c), rules)
                != rules[j].1,
{
    lemma_lookup_hit_from(rules, c, 0, k);
    assert(rules.subrange(0, rules.len() as int) =~= rules);
}

/// Rewriting is deterministic: two L-systems with the same current word and
/// the same rules step to the same next word, and to the same word after any
/// number of steps.
pub proof fn lemma_step_deterministic(a: LSystemModel, b: LSystemModel, n: nat)
    requires
        a.word == b.word,
        a.rules == b.rules,
    ensures
        apply_word(a.word, a.rules) == apply_word(b.word, b.rules),
        generation(a.word, a.rules, n) == generation(b.word, b.rules, n),
{
}

} // verus!
