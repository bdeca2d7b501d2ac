use vstd::prelude::*;

verus! {

/// The mathematical model of one instruction: a literal symbol, or a bracketed
/// sub-sequence of instructions.
pub enum Instr {
    Sym(char),
    Br(Seq<Instr>),
}

/// One parsed token of an L-system word.
#[derive(Debug, PartialEq)]
pub enum Instruction {
    Symbol(char),
    Branch(Vec<Instruction>),
}

impl Instruction {
    /// The model of this instruction.
    pub open spec fn model(&self) -> Instr
        decreases self,
    {
        match self {
            Instruction::Symbol(c) => Instr::Sym(*c),
            Instruction::Branch(v) => Instr::Br(model_seq(v@)),
        }
    }
}

/// The model of a sequence of instructions, element by element.
pub open spec fn model_seq(s: Seq<Instruction>) -> Seq<Instr>
    decreases s,
{
    if s.len() == 0 {
        Seq::empty()
    } else {
        model_seq(s.subrange(0, s.len() - 1)).push(s[s.len() - 1].model())
    }
}

/// The empty sequence models the empty sequence.
pub proof fn lemma_model_seq_empty()
    ensures
        model_seq(Seq::<Instruction>::empty()) == Seq::<Instr>::empty(),
{
}

/// Appending one instruction appends its model.
pub proof fn lemma_model_seq_push(s: Seq<Instruction>, x: Instruction)
    ensures
        model_seq(s.push(x)) == model_seq(s).push(x.model()),
{
    assert(s.push(x).subrange(0, s.len() as int) =~= s);
}

/// The model of a symbol, and of a branch.
pub proof fn lemma_model_unfold(x: Instruction)
    ensures
        x.model() == match x {
            Instruction::Symbol(c) => Instr::Sym(c),
            Instruction::Branch(v) => Instr::Br(model_seq(v@)),
        },
{
}

/// Copies an instruction and everything nested in it.
pub fn copy_instruction(i: &Instruction) -> (r: Instruction)
    ensures
        r.model() == i.model(),
    decreases i,
{
    match i {
        Instruction::Symbol(c) => Instruction::Symbol(*c),
        Instruction::Branch(v) => Instruction::Branch(copy_instructions(v)),
    }
}

/// Copies a sequence of instructions, deeply.
pub fn copy_instructions(v: &Vec<Instruction>) -> (r: Vec<Instruction>)
    ensures
        model_seq(r@) == model_seq(v@),
    decreases v,
{
    let mut r: Vec<Instruction> = Vec::new();
    let mut k: usize = 0;
    while k < v.len()
        invariant
            k <= v@.len(),
            model_seq(r@) == model_seq(v@.subrange(0, k as int)),
        decreases v@.len() - k,
    {
        let x = copy_instruction(&v[k]);
        proof {
            lemma_model_seq_push(r@, x);
            assert(v@.subrange(0, k + 1).subrange(0, k as int) =~= v@.subrange(0, k as int));
        }
        r.push(x);
        k = k + 1;
    }
    assert(v@.subrange(0, v@.len() as int) =~= v@);
    r
}

} // verus!
