use vstd::prelude::*;
use vstd::string::StrSliceExecFns;

use crate::instruction::{Instr, Instruction, model_seq, lemma_model_unfold};

verus! {

/// How a symbol moves the turtle.
#[derive(Debug, Clone, Copy, PartialEq, Eq, Structural)]
pub enum Step {
    Forward,
    Backward,
    DrawForward,
    DrawBackward,
}

/// One thing the turtle does. `Save` and `Restore` bracket a branch: what is
/// between them runs on a copy of the state that `Save` took, and `Restore`
/// goes back to that state.
#[derive(Debug, Clone, Copy, PartialEq, Eq, Structural)]
pub enum Action {
    TurnLeft,
    TurnRight,
    Move(Step),
    Save,
    Restore,
}

/// The model of the four character classes.
pub struct StepSetsModel {
    pub draw_forward: Seq<char>,
    pub draw_backward: Seq<char>,
    pub forward: Seq<char>,
    pub backwards: Seq<char>,
}

/// Which characters make the turtle step, and how.
#[derive(Debug, Clone, PartialEq, Eq)]
pub struct StepSets {
    draw_forward: String,
    draw_backward: String,
    forward: String,
    backwards: String,
}

impl View for StepSets {
    type V = StepSetsModel;

    closed spec fn view(&self) -> StepSetsModel {
        StepSetsModel {
            draw_forward: self.draw_forward@,
            draw_backward: self.draw_backward@,
            forward: self.forward@,
            backwards: self.backwards@,
        }
    }
}

/// The step of `c`, looking at the classes in the order draw-forward,
/// draw-backward, forward, backward; `None` where no class holds it.
pub open spec fn classify_spec(sets: StepSetsModel, c: char) -> Option<Step> {
    if sets.draw_forward.contains(c) {
        Some(Step::DrawForward)
    } else if sets.draw_backward.contains(c) {
        Some(Step::DrawBackward)
    } else if sets.forward.contains(c) {
        Some(Step::Forward)
    } else if sets.backwards.contains(c) {
        Some(Step::Backward)
    } else {
        None
    }
}

/// What the turtle does for one instruction: `+` turns left, `-` turns right,
/// another symbol steps as its class says or does nothing, and a branch runs
/// its contents between `Save` and `Restore`.
pub open spec fn plan_instr(sets: StepSetsModel, i: Instr) -> Seq<Action>
    decreases i,
{
    match i {
        Instr::Sym(c) => if c == '+' {
            seq![Action::TurnLeft]
        } else if c == '-' {
            seq![Action::TurnRight]
        } else {
            match classify_spec(sets, c) {
                Some(s) => seq![Action::Move(s)],
                None => Seq::empty(),
            }
        },
        Instr::Br(inner) => seq![Action::Save] + plan_word(sets, inner) + seq![Action::Restore],
    }
}

/// What the turtle does for a word: the actions of its instructions, in order.
pub open spec fn plan_word(sets: StepSetsModel, w: Seq<Instr>) -> Seq<Action>
    decreases w,
{
    if w.len() == 0 {
        Seq::empty()
    } else {
        plan_word(sets, w.subrange(0, w.len() - 1)) + plan_instr(sets, w[w.len() - 1])
    }
}

/// Whether `c` is one of the characters of `s`.
fn has_char(s: &String, c: char) -> (r: bool)
    ensures
        r == s@.contains(c),
{
    let t = s.as_str();
    let n = t.unicode_len();
    let mut k: usize = 0;
    while k < n
        invariant
            n == t@.len(),
            t@ == s@,
            k <= n,
            forall|j: int| 0 <= j < k ==> t@[j] != c,
        decreases n - k,
    {
        if t.get_char(k) == c {
            return true;
        }
        k = k + 1;
    }
    false
}

fn owned(s: &str) -> (r: String)
    ensures
        r@ == s@,
{
    s.to_owned()
}

impl StepSets {
    /// `F` draws forward, `f` draws backward, nothing steps without drawing.
    pub fn new() -> (r: StepSets)
        ensures
            r@.draw_forward == seq!['F'],
            r@.draw_backward == seq!['f'],
            r@.forward.len() == 0,
            r@.backwards.len() == 0,
    {
        proof {
            reveal_strlit("F");
            reveal_strlit("f");
            reveal_strlit("");
        }
        let r = StepSets {
            draw_forward: owned("F"),
            draw_backward: owned("f"),
            forward: owned(""),
            backwards: owned(""),
        };
        assert(r@.draw_forward =~= seq!['F']);
        assert(r@.draw_backward =~= seq!['f']);
        r
    }

    /// The same classes, with `chars` as the draw-forward class.
    pub fn draw_forward(self, chars: &str) -> (r: StepSets)
        ensures
            r@ == (StepSetsModel { draw_forward: chars@, ..self@ }),
    {
        StepSets { draw_forward: owned(chars), ..self }
    }

    /// The same classes, with `chars` as the draw-backward class.
    pub fn draw_backward(self, chars: &str) -> (r: StepSets)
        ensures
            r@ == (StepSetsModel { draw_backward: chars@, ..self@ }),
    {
        StepSets { draw_backward: owned(chars), ..self }
    }

    /// The same classes, with `chars` as the forward class.
    pub fn forward(self, chars: &str) -> (r: StepSets)
        ensures
            r@ == (StepSetsModel { forward: chars@, ..self@ }),
    {
        StepSets { forward: owned(chars), ..self }
    }

    /// The same classes, with `chars` as the backward class.
    pub fn backwards(self, chars: &str) -> (r: StepSets)
        ensures
            r@ == (StepSetsModel { backwards: chars@, ..self@ }),
    {
        StepSets { backwards: owned(chars), ..self }
    }

    /// The step of `symbol` (see `classify_spec`).
    pub fn classify(&self, symbol: char) -> (r: Option<Step>)
        ensures
            r == classify_spec(self@, symbol),
    {
        if has_char(&self.draw_forward, symbol) {
            Some(Step::DrawForward)
        } else if has_char(&self.draw_backward, symbol) {
            Some(Step::DrawBackward)
        } else if has_char(&self.forward, symbol) {
            Some(Step::Forward)
        } else if has_char(&self.backwards, symbol) {
            Some(Step::Backward)
        } else {
            None
        }
    }
}

impl Default for StepSets {
    fn default() -> (r: StepSets)
        ensures
            r@.draw_forward == seq!['F'],
            r@.draw_backward == seq!['f'],
            r@.forward.len() == 0,
            r@.backwards.len() == 0,
    {
        StepSets::new()
    }
}

proof fn lemma_plan_word_push(sets: StepSetsModel, w: Seq<Instr>, x: Instr)
    ensures
        plan_word(sets, w.push(x)) == plan_word(sets, w) + plan_instr(sets, x),
{
    assert(w.push(x).subrange(0, w.len() as int) =~= w);
}

/// Appends to `out` what the turtle does for `i`.
fn plan_instruction_into(sets: &StepSets, i: &Instruction, out: &mut Vec<Action>)
    ensures
        final(out)@ == old(out)@ + plan_instr(sets@, i.model()),
    decreases i,
{
    proof {
        lemma_model_unfold(*i);
    }
    match i {
        Instruction::Symbol(c) => {
            if *c == '+' {
                out.push(Action::TurnLeft);
                assert(out@ =~= old(out)@ + seq![Action::TurnLeft]);
            } else if *c == '-' {
                out.push(Action::TurnRight);
                assert(out@ =~= old(out)@ + seq![Action::TurnRight]);
            } else {
                match sets.classify(*c) {
                    Some(s) => {
                        out.push(Action::Move(s));
                        assert(out@ =~= old(out)@ + seq![Action::Move(s)]);
                    },
                    None => {
                        assert(out@ =~= out@ + Seq::<Action>::empty());
                    },
                }
            }
        },
        Instruction::Branch(v) => {
            out.push(Action::Save);
            plan_into(sets, v, out);
            out.push(Action::Restore);
            assert(out@ =~= old(out)@ + (seq![Action::Save] + plan_word(sets@, model_seq(v@))
                + seq![Action::Restore]));
        },
    }
}

/// Appends to `out` what the turtle does for the word `w`.
fn plan_into(sets: &StepSets, w: &Vec<Instruction>, out: &mut Vec<Action>)
    ensures
        final(out)@ == old(out)@ + plan_word(sets@, model_seq(w@)),
    decreases w,
{
    let ghost start = out@;
    let mut k: usize = 0;
    proof {
        assert(w@.subrange(0, 0).len() == 0);
    }
    assert(start + plan_word(sets@, model_seq(w@.subrange(0, 0))) =~= start);
    while k < w.len()
        invariant
            k <= w@.len(),
            out@ == start + plan_word(sets@, model_seq(w@.subrange(0, k as int))),
        decreases w@.len() - k,
    {
        plan_instruction_into(sets, &w[k], out);
        proof {
            let mk = model_seq(w@.subrange(0, k as int));
            assert(w@.subrange(0, k + 1).subrange(0, k as int) =~= w@.subrange(0, k as int));
            assert(model_seq(w@.subrange(0, k + 1)) == mk.push(w@[k as int].model()));
            lemma_plan_word_push(sets@, mk, w@[k as int].model());
            assert(start + plan_word(sets@, mk) + plan_instr(sets@, w@[k as int].model()) =~= start
                + (plan_word(sets@, mk) + plan_instr(sets@, w@[k as int].model())));
        }
        k = k + 1;
    }
    assert(w@.subrange(0, w@.len() as int) =~= w@);
}

/// The actions that interpret `instructions` with these classes, in order.
pub fn plan(sets: &StepSets, instructions: &Vec<Instruction>) -> (r: Vec<Action>)
    ensures
        r@ == plan_word(sets@, model_seq(instructions@)),
{
    let mut out: Vec<Action> = Vec::new();
    plan_into(sets, instructions, &mut out);
    assert(out@ =~= plan_word(sets@, model_seq(instructions@)));
    out
}

/// How far an action moves the depth of saved states: `Save` one deeper,
/// `Restore` one shallower, the others not at all.
pub open spec fn action_depth(a: Action) -> int {
    match a {
        Action::Save => 1,
        Action::Restore => -1,
        _ => 0,
    }
}

/// The number of saved states after running `a`.
pub open spec fn depth(a: Seq<Action>) -> int
    decreases a.len(),
{
    if a.len() == 0 {
        0
    } else {
        depth(a.subrange(0, a.len() - 1)) + action_depth(a[a.len() - 1])
    }
}

/// `Save` and `Restore` pair up: no `Restore` comes without a `Save` before
/// it, and none is left open at the end.
pub open spec fn balanced(a: Seq<Action>) -> bool {
    &&& depth(a) == 0
    &&& forall|k: int| 0 <= k <= a.len() ==> depth(#[trigger] a.subrange(0, k)) >= 0
}

proof fn lemma_depth_concat(a: Seq<Action>, b: Seq<Action>)
    ensures
        depth(a + b) == depth(a) + depth(b),
    decreases b.len(),
{
    if b.len() == 0 {
        assert(a + b =~= a);
    } else {
        let c = a + b;
        let b1 = b.subrange(0, b.len() - 1);
        assert(c.subrange(0, c.len() - 1) =~= a + b1);
        lemma_depth_concat(a, b1);
    }
}

proof fn lemma_balanced_concat(a: Seq<Action>, b: Seq<Action>)
    requires
        balanced(a),
        balanced(b),
    ensures
        balanced(a + b),
{
    lemma_depth_concat(a, b);
    assert forall|k: int| 0 <= k <= (a + b).len() implies depth(#[trigger] (a + b).subrange(0, k))
        >= 0 by {
        if k <= a.len() {
            assert((a + b).subrange(0, k) =~= a.subrange(0, k));
        } else {
            assert((a + b).subrange(0, k) =~= a + b.subrange(0, k - a.len()));
            assert(a.subrange(0, a.len() as int) =~= a);
            lemma_depth_concat(a, b.subrange(0, k - a.len()));
        }
    }
}

proof fn lemma_balanced_wrap(x: Seq<Action>)
    requires
        balanced(x),
    ensures
        balanced(seq![Action::Save] + x + seq![Action::Restore]),
{
    let open = seq![Action::Save];
    let close = seq![Action::Restore];
    let w = open + x + close;
    reveal_with_fuel(depth, 2);
    assert(depth(open) == 1) by {
        assert(open.subrange(0, 0) =~= Seq::<Action>::empty());
    }
    assert(depth(close) == -1) by {
        assert(close.subrange(0, 0) =~= Seq::<Action>::empty());
    }
    lemma_depth_concat(open, x);
    lemma_depth_concat(open + x, close);
    assert forall|k: int| 0 <= k <= w.len() implies depth(#[trigger] w.subrange(0, k)) >= 0 by {
        if k == 0 {
            assert(w.subrange(0, k).len() == 0);
        } else if k <= x.len() + 1 {
            assert(w.subrange(0, k) =~= open + x.subrange(0, k - 1));
            lemma_depth_concat(open, x.subrange(0, k - 1));
        } else {
            assert(w.subrange(0, k) =~= w);
        }
    }
}

proof fn lemma_plan_instr_balanced(sets: StepSetsModel, i: Instr)
    ensures
        balanced(plan_instr(sets, i)),
    decreases i,
{
    match i {
        Instr::Sym(_) => {
            reveal_with_fuel(depth, 2);
            let p = plan_instr(sets, i);
            assert(p.len() <= 1);
            if p.len() == 1 {
                assert(p.subrange(0, 0) =~= Seq::<Action>::empty());
                assert(p[0] != Action::Save && p[0] != Action::Restore);
                assert(p.subrange(0, 1) =~= p);
            }
            assert forall|k: int| 0 <= k <= p.len() implies depth(#[trigger] p.subrange(0, k))
                >= 0 by {
                if k == 0 {
                    assert(p.subrange(0, k).len() == 0);
                } else {
                    assert(p.subrange(0, k) =~= p);
                }
            }
        },
        Instr::Br(inner) => {
            lemma_plan_word_balanced(sets, inner);
            lemma_balanced_wrap(plan_word(sets, inner));
        },
    }
}

proof fn lemma_plan_word_balanced(sets: StepSetsModel, w: Seq<Instr>)
    ensures
        balanced(plan_word(sets, w)),
    decreases w,
{
    if w.len() == 0 {
        let p = plan_word(sets, w);
        assert forall|k: int| 0 <= k <= p.len() implies depth(#[trigger] p.subrange(0, k))
            >= 0 by {
            assert(p.subrange(0, k).len() == 0);
        }
    } else {
        lemma_plan_word_balanced(sets, w.subrange(0, w.len() - 1));
        lemma_plan_instr_balanced(sets, w[w.len() - 1]);
        lemma_balanced_concat(
            plan_word(sets, w.subrange(0, w.len() - 1)),
            plan_instr(sets, w[w.len() - 1]),
        );
    }
}

/// Branches are isolated: a branch runs its contents between a `Save` and
/// the `Restore` that returns to the saved state, and in the actions of any
/// word every `Restore` has its own earlier `Save` and every `Save` is
/// restored, so that the turtle leaves each branch in the state it entered
/// it with.
pub proof fn lemma_branch_isolation(sets: StepSetsModel, w: Seq<Instr>, inner: Seq<Instr>)
    ensures
        balanced(plan_word(sets, w)),
        plan_instr(sets, Instr::Br(inner)) == seq![Action::Save] + plan_word(sets, inner)
            + seq![Action::Restore],
        balanced(plan_word(sets, inner)),
{
    lemma_plan_word_balanced(sets, w);
    lemma_plan_word_balanced(sets, inner);
}

} // verus!
