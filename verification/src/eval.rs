//! The reduction machine: a task, its steps, and what each step means.

use vstd::prelude::*;
use crate::symbol::{Dict, Symb, lookup};
use crate::term::{Term, TermRef, Tree, app, dbool, eager, t_app, term_copy, trees_of};
use crate::heap::Heap;
use crate::compile::{compile_ski, compile_tree, contract_root};

verus! {

/// Why a task cannot go on.
#[derive(Clone, Copy, PartialEq, Eq, Structural, Debug)]
pub enum EvalError {
    /// A variable has no definition.
    UnboundSymbol(Symb),
    /// A primitive met an operand of the wrong kind.
    TypeMismatch,
    /// An integer was divided by zero.
    DivideByZero,
    /// A literal was applied to arguments.
    NotAFunction,
    /// The focus is a term that the machine does not reduce.
    UnknownTerm,
    /// The head lacks arguments and no eager frame waits for its value.
    Stuck,
}

/// The state of a task, as trees.
#[verifier::ext_equal]
pub struct TaskView {
    /// The term in focus.
    pub with: Tree,
    /// Pending arguments and saved frames, the newest last.
    pub stack: Seq<Tree>,
    /// The number of arguments of the current frame, at the top of `stack`.
    pub len: nat,
    /// For each suspended frame, its number of arguments plus one.
    pub frame: Seq<nat>,
    /// The value of an eager evaluation that has just returned.
    pub ret: Option<Tree>,
}

/// What one step of the machine does.
pub enum Step {
    /// The task goes on in this state.
    Next(TaskView),
    /// The task is complete, with this literal.
    Done(Tree),
    /// The task has failed.
    Fault(EvalError),
}

/// Where a run of the machine stands: the last state reached, and how the
/// task halted, if it did.
pub struct Run {
    pub state: TaskView,
    pub halt: Option<Result<Tree, EvalError>>,
}

/// `w` applied to the top `n` entries of `stack`, the topmost first.
pub open spec fn unwind(w: Tree, stack: Seq<Tree>, n: nat) -> Tree
    decreases n,
{
    if n == 0 || stack.len() == 0 {
        w
    } else {
        unwind(t_app(w, stack.last()), stack.drop_last(), (n - 1) as nat)
    }
}

/// `w` is an eager marker that can take up a returned value in a frame of
/// `len` arguments: it forces `n >= 1` arguments and `len > n`.
pub open spec fn resumable(w: Tree, len: nat) -> bool {
    match w {
        Tree::Leaf(t) => match t.eager_index() {
            Some(n) => n >= 1 && len >= n + 1,
            None => false,
        },
        _ => false,
    }
}

/// The stack holds the current frame of `len` arguments on top of the
/// suspended frames: below each frame lies the eager marker that suspended
/// the frame beneath, which has the size that `frame` records.
pub open spec fn frames_ok(stack: Seq<Tree>, len: nat, frame: Seq<nat>) -> bool
    decreases frame.len(),
{
    if frame.len() == 0 {
        stack.len() == len
    } else {
        let f = frame.last();
        &&& f >= 1
        &&& stack.len() >= len + 1
        &&& resumable(stack[stack.len() - len - 1], (f - 1) as nat)
        &&& frames_ok(stack.take(stack.len() - len - 1), (f - 1) as nat, frame.drop_last())
    }
}

impl TaskView {
    /// The state of a new task on `t`.
    pub open spec fn start(t: Tree) -> TaskView {
        TaskView { with: t, stack: Seq::empty(), len: 0, frame: Seq::empty(), ret: None }
    }

    /// The invariant of the machine: the frames are laid out as recorded, and
    /// a returned value waits only before the marker that asked for it.
    pub open spec fn wf(self) -> bool {
        &&& frames_ok(self.stack, self.len, self.frame)
        &&& self.ret is Some ==> resumable(self.with, self.len)
    }

    /// No argument is pending, no frame is suspended, no value waits.
    pub open spec fn balanced(self) -> bool {
        self.len == 0 && self.frame.len() == 0 && self.ret is None
    }

    /// The argument `i` places below the top of the stack.
    pub open spec fn arg(self, i: nat) -> Tree {
        self.stack[self.stack.len() - 1 - i]
    }

    /// The state after `n` arguments were taken, `pushed` were put in their
    /// place (the last on top), and `with` came into focus.
    pub open spec fn rewrite(self, n: nat, with: Tree, pushed: Seq<Tree>) -> TaskView {
        TaskView {
            with,
            stack: self.stack.take(self.stack.len() - n) + pushed,
            len: (self.len - n + pushed.len()) as nat,
            frame: self.frame,
            ret: self.ret,
        }
    }

    /// The state after the current frame was suspended to evaluate `t`.
    pub open spec fn call(self, t: Tree) -> TaskView {
        TaskView {
            with: t,
            stack: self.stack.push(self.with),
            len: 0,
            frame: self.frame.push(self.len + 1),
            ret: self.ret,
        }
    }

    /// The state after a return: the focus applied to the arguments of its
    /// frame is the returned value, and the frame beneath is resumed.
    pub open spec fn retn(self) -> TaskView {
        let base = self.stack.len() - self.len - 1;
        TaskView {
            with: self.stack[base],
            stack: self.stack.take(base),
            len: (self.frame.last() - 1) as nat,
            frame: self.frame.drop_last(),
            ret: Some(unwind(self.with, self.stack, self.len)),
        }
    }

    /// What happens where the focus lacks arguments: a return to the frame
    /// beneath, or a fault where there is none.
    pub open spec fn rewind(self) -> Step {
        if self.frame.len() == 0 {
            Step::Fault(EvalError::Stuck)
        } else {
            Step::Next(self.retn())
        }
    }

    /// The state after the marker that forces `n` arguments took up the
    /// returned value `v`: `v` replaces the argument `n` places below the
    /// top; then the marker for `n - 1` comes into focus, or, for `n == 1`,
    /// the topmost argument does.
    pub open spec fn resume(self, n: u8, v: Tree) -> TaskView {
        let filled = self.stack.update(self.stack.len() - 1 - n, v);
        if n == 1 {
            TaskView {
                with: filled.last(),
                stack: filled.drop_last(),
                len: (self.len - 1) as nat,
                frame: self.frame,
                ret: None,
            }
        } else {
            TaskView {
                with: Tree::Leaf(Term::E((n - 1) as u8).canonical()),
                stack: filled,
                len: self.len,
                frame: self.frame,
                ret: None,
            }
        }
    }
}

/// Integer division that wraps: the quotient rounded toward zero, and the
/// least integer where the quotient does not fit.
pub open spec fn div_wrapping(a: i64, b: i64) -> i64 {
    match a.checked_div(b) {
        Some(q) => q,
        None => i64::MIN,
    }
}

/// The result of a primitive on two integers; `None` for a division by
/// zero, and for a node that is no such primitive.
pub open spec fn int_op(op: Term, a: i64, b: i64) -> Option<Term> {
    match op {
        Term::AddI => Some(Term::DInt(a.wrapping_add(b))),
        Term::SubI => Some(Term::DInt(a.wrapping_sub(b))),
        Term::MulI => Some(Term::DInt(a.wrapping_mul(b))),
        Term::DivI => if b == 0 {
            None
        } else {
            Some(Term::DInt(div_wrapping(a, b)))
        },
        Term::GrtI => Some(Term::DBool(a > b)),
        Term::LssI => Some(Term::DBool(a < b)),
        Term::EqlI => Some(Term::DBool(a == b)),
        _ => None,
    }
}

/// The step of a primitive on two integers.
pub open spec fn step_int(s: TaskView, op: Term) -> Step {
    if s.len < 2 {
        s.rewind()
    } else {
        match (s.arg(0), s.arg(1)) {
            (Tree::Leaf(Term::DInt(a)), Tree::Leaf(Term::DInt(b))) => match int_op(op, a, b) {
                Some(v) => Step::Next(s.rewrite(2, Tree::Leaf(v), Seq::empty())),
                None => Step::Fault(EvalError::DivideByZero),
            },
            _ => Step::Fault(EvalError::TypeMismatch),
        }
    }
}

/// The step of `And` and `Or`.
pub open spec fn step_bool(s: TaskView, op: Term) -> Step {
    if s.len < 2 {
        s.rewind()
    } else {
        match (s.arg(0), s.arg(1)) {
            (Tree::Leaf(Term::DBool(a)), Tree::Leaf(Term::DBool(b))) => Step::Next(
                s.rewrite(
                    2,
                    Tree::Leaf(
                        Term::DBool(
                            if op == Term::And {
                                a && b
                            } else {
                                a || b
                            },
                        ),
                    ),
                    Seq::empty(),
                ),
            ),
            _ => Step::Fault(EvalError::TypeMismatch),
        }
    }
}

/// The step of an eager marker that forces `n` arguments.
///
/// With too few arguments the frame returns.  Otherwise the marker looks at
/// the argument `n` places below the top: with no returned value at hand it
/// suspends the frame to evaluate that argument; with one, it puts the value
/// in the argument's place and goes on to the next argument.
pub open spec fn step_eager(s: TaskView, n: u8) -> Step {
    if n == 0 {
        Step::Fault(EvalError::UnknownTerm)
    } else if s.len < n + 1 {
        s.rewind()
    } else {
        match s.ret {
            None => Step::Next(s.call(s.arg(n as nat))),
            Some(v) => Step::Next(s.resume(n, v)),
        }
    }
}

/// The step of a literal in focus.
pub open spec fn step_literal(s: TaskView) -> Step {
    if s.len > 0 {
        Step::Fault(EvalError::NotAFunction)
    } else if s.frame.len() == 0 {
        Step::Done(s.with)
    } else {
        Step::Next(s.retn())
    }
}

/// The step of a combinator in focus.
pub open spec fn step_comb(s: TaskView, t: Term) -> Step {
    match t {
        Term::I => if s.len < 1 {
            s.rewind()
        } else {
            Step::Next(s.rewrite(1, s.arg(0), Seq::empty()))
        },
        Term::K => if s.len < 2 {
            s.rewind()
        } else {
            Step::Next(s.rewrite(2, s.arg(0), Seq::empty()))
        },
        Term::S => if s.len < 3 {
            s.rewind()
        } else {
            Step::Next(s.rewrite(3, s.arg(0), seq![t_app(s.arg(1), s.arg(2)), s.arg(2)]))
        },
        Term::B => if s.len < 3 {
            s.rewind()
        } else {
            Step::Next(s.rewrite(3, s.arg(0), seq![t_app(s.arg(1), s.arg(2))]))
        },
        Term::C => if s.len < 3 {
            s.rewind()
        } else {
            Step::Next(s.rewrite(3, s.arg(0), seq![s.arg(1), s.arg(2)]))
        },
        Term::Sp => if s.len < 4 {
            s.rewind()
        } else {
            Step::Next(
                s.rewrite(
                    4,
                    s.arg(0),
                    seq![t_app(s.arg(2), s.arg(3)), t_app(s.arg(1), s.arg(3))],
                ),
            )
        },
        Term::Bs => if s.len < 4 {
            s.rewind()
        } else {
            Step::Next(s.rewrite(4, s.arg(0), seq![t_app(s.arg(2), s.arg(3)), s.arg(1)]))
        },
        Term::Cp => if s.len < 4 {
            s.rewind()
        } else {
            Step::Next(s.rewrite(4, s.arg(0), seq![s.arg(2), t_app(s.arg(1), s.arg(3))]))
        },
        Term::Not => if s.len < 1 {
            s.rewind()
        } else {
            match s.arg(0) {
                Tree::Leaf(Term::DBool(a)) => Step::Next(
                    s.rewrite(1, Tree::Leaf(Term::DBool(!a)), Seq::empty()),
                ),
                _ => Step::Fault(EvalError::TypeMismatch),
            }
        },
        Term::Ifte => if s.len < 3 {
            s.rewind()
        } else {
            match s.arg(0) {
                Tree::Leaf(Term::DBool(p)) => Step::Next(
                    s.rewrite(
                        3,
                        if p {
                            s.arg(1)
                        } else {
                            s.arg(2)
                        },
                        Seq::empty(),
                    ),
                ),
                _ => Step::Fault(EvalError::TypeMismatch),
            }
        },
        _ => Step::Fault(EvalError::UnknownTerm),
    }
}

/// One step of the machine on state `s`, with `defs` the meaning of the
/// defined symbols.
pub open spec fn step_view(defs: Map<Symb, Tree>, s: TaskView) -> Step {
    match s.with {
        Tree::App(f, a) => Step::Next(s.rewrite(0, *f, seq![*a])),
        Tree::Lam(_, _) => Step::Next(s.rewrite(0, compile_tree(s.with), Seq::empty())),
        Tree::Leaf(t) => match t {
            Term::Var(x) => if defs.contains_key(x) {
                Step::Next(s.rewrite(0, defs[x], Seq::empty()))
            } else {
                Step::Fault(EvalError::UnboundSymbol(x))
            },
            Term::E1 | Term::E2 | Term::E3 | Term::E4 | Term::E(_) => step_eager(
                s,
                t.eager_index().unwrap(),
            ),
            Term::AddI | Term::SubI | Term::MulI | Term::DivI | Term::GrtI | Term::LssI
            | Term::EqlI => step_int(s, t),
            Term::And | Term::Or => step_bool(s, t),
            Term::DBool(_) | Term::DChar(_) | Term::DInt(_) | Term::DReal(_) => step_literal(s),
            _ => step_comb(s, t),
        },
    }
}

/// The machine run for at most `n` steps from state `s`.
pub open spec fn run_view(defs: Map<Symb, Tree>, s: TaskView, n: nat) -> Run
    decreases n,
{
    if n == 0 {
        Run { state: s, halt: None }
    } else {
        match step_view(defs, s) {
            Step::Next(s1) => run_view(defs, s1, (n - 1) as nat),
            Step::Done(v) => Run { state: s, halt: Some(Ok(v)) },
            Step::Fault(e) => Run { state: s, halt: Some(Err(e)) },
        }
    }
}

/// Two stacks that agree below their top frames have the same frames.
pub proof fn lemma_frames_same_base(
    s1: Seq<Tree>,
    len1: nat,
    s2: Seq<Tree>,
    len2: nat,
    frame: Seq<nat>,
)
    requires
        s1.len() >= len1,
        s2.len() >= len2,
        s1.len() - len1 == s2.len() - len2,
        s1.take(s1.len() - len1) =~= s2.take(s2.len() - len2),
    ensures
        frames_ok(s1, len1, frame) == frames_ok(s2, len2, frame),
{
    if frame.len() > 0 {
        let base = s1.len() - len1;
        if base >= 1 {
            assert(s1[base - 1] == s1.take(base)[base - 1]);
            assert(s2[base - 1] == s2.take(base)[base - 1]);
            assert(s1.take(base - 1) =~= s1.take(base).take(base - 1));
            assert(s2.take(base - 1) =~= s2.take(base).take(base - 1));
        }
    }
}

/// Taking arguments of the current frame and putting others in their place
/// keeps the invariant, where no returned value waits.
pub proof fn lemma_rewrite_wf(s: TaskView, n: nat, with: Tree, pushed: Seq<Tree>)
    requires
        s.wf(),
        n <= s.len,
        s.ret is None,
    ensures
        s.rewrite(n, with, pushed).wf(),
{
    let r = s.rewrite(n, with, pushed);
    if s.frame.len() > 0 {
    }
    assert(s.stack.len() >= s.len);
    lemma_frames_same_base(s.stack, s.len, r.stack, r.len, s.frame);
}

/// Every step keeps the invariant of the machine.
pub proof fn lemma_step_wf(defs: Map<Symb, Tree>, s: TaskView)
    requires
        s.wf(),
    ensures
        step_view(defs, s) matches Step::Next(s1) ==> s1.wf(),
{
    assert(s.stack.len() >= s.len);
    match step_view(defs, s) {
        Step::Next(s1) => {
            match s.with {
                Tree::Leaf(t) => {
                    if t.eager_index() is Some {
                        let n = t.eager_index().unwrap();
                        if n >= 1 && s.len >= n + 1 {
                            match s.ret {
                                None => {
                                    assert(s1 == s.call(s.arg(n as nat)));
                                    assert(s1.stack.take(s1.stack.len() - 0 - 1) =~= s.stack);
                                    assert(s1.frame.drop_last() =~= s.frame);
                                },
                                Some(v) => {
                                    assert(s1 == s.resume(n, v));
                                    lemma_frames_same_base(
                                        s.stack,
                                        s.len,
                                        s1.stack,
                                        s1.len,
                                        s.frame,
                                    );
                                },
                            }
                        } else {
                            assert(s1 == s.retn());
                        }
                    } else {
                        assert(s.ret is None);
                        if s1 != s.retn() || s.frame.len() == 0 {
                            lemma_rewrite_any(defs, s);
                        }
                    }
                },
                _ => {
                    assert(s.ret is None);
                    lemma_rewrite_any(defs, s);
                },
            }
        },
        _ => {},
    }
}

/// A step that is no return, call or resumption takes arguments of the
/// current frame and puts others in their place.
proof fn lemma_rewrite_any(defs: Map<Symb, Tree>, s: TaskView)
    requires
        s.wf(),
        s.ret is None,
        step_view(defs, s) is Next,
        !(s.with matches Tree::Leaf(t) && t.eager_index() is Some),
        step_view(defs, s)->Next_0 != s.retn() || s.frame.len() == 0,
    ensures
        step_view(defs, s)->Next_0.wf(),
{
    let s1 = step_view(defs, s)->Next_0;
    assert(exists|n: nat, with: Tree, pushed: Seq<Tree>|
        n <= s.len && s1 == #[trigger] s.rewrite(n, with, pushed)) by {
        match s.with {
            Tree::App(f, a) => {
                assert(s1 == s.rewrite(0, *f, seq![*a]));
            },
            Tree::Lam(_, _) => {
                assert(s1 == s.rewrite(0, compile_tree(s.with), Seq::empty()));
            },
            Tree::Leaf(t) => {
                match t {
                    Term::Var(x) => {
                        assert(s1 == s.rewrite(0, defs[x], Seq::empty()));
                    },
                    Term::AddI | Term::SubI | Term::MulI | Term::DivI | Term::GrtI | Term::LssI
                    | Term::EqlI => {
                        assert(s1 == s.rewrite(2, s1.with, Seq::empty()));
                    },
                    Term::And | Term::Or => {
                        assert(s1 == s.rewrite(2, s1.with, Seq::empty()));
                    },
                    Term::I => {
                        assert(s1 == s.rewrite(1, s.arg(0), Seq::empty()));
                    },
                    Term::K => {
                        assert(s1 == s.rewrite(2, s.arg(0), Seq::empty()));
                    },
                    Term::S => {
                        assert(s1 == s.rewrite(
                            3,
                            s.arg(0),
                            seq![t_app(s.arg(1), s.arg(2)), s.arg(2)],
                        ));
                    },
                    Term::B => {
                        assert(s1 == s.rewrite(3, s.arg(0), seq![t_app(s.arg(1), s.arg(2))]));
                    },
                    Term::C => {
                        assert(s1 == s.rewrite(3, s.arg(0), seq![s.arg(1), s.arg(2)]));
                    },
                    Term::Sp => {
                        assert(s1 == s.rewrite(
                            4,
                            s.arg(0),
                            seq![t_app(s.arg(2), s.arg(3)), t_app(s.arg(1), s.arg(3))],
                        ));
                    },
                    Term::Bs => {
                        assert(s1 == s.rewrite(
                            4,
                            s.arg(0),
                            seq![t_app(s.arg(2), s.arg(3)), s.arg(1)],
                        ));
                    },
                    Term::Cp => {
                        assert(s1 == s.rewrite(
                            4,
                            s.arg(0),
                            seq![s.arg(2), t_app(s.arg(1), s.arg(3))],
                        ));
                    },
                    Term::Not => {
                        assert(s1 == s.rewrite(1, s1.with, Seq::empty()));
                    },
                    Term::Ifte => {
                        assert(s1 == s.rewrite(3, s1.with, Seq::empty()));
                    },
                    _ => {},
                }
            },
        }
    }
    let (n, with, pushed) = choose|n: nat, with: Tree, pushed: Seq<Tree>|
        n <= s.len && s1 == #[trigger] s.rewrite(n, with, pushed);
    lemma_rewrite_wf(s, n, with, pushed);
}

/// A run keeps the invariant, and a task that completes is balanced: no
/// argument is pending, no frame is suspended, and no returned value waits.
pub proof fn lemma_run_wf(defs: Map<Symb, Tree>, s: TaskView, n: nat)
    requires
        s.wf(),
    ensures
        run_view(defs, s, n).state.wf(),
        run_view(defs, s, n).halt matches Some(Ok(v)) ==> run_view(defs, s, n).state.balanced()
            && run_view(defs, s, n).state.with == v && (v matches Tree::Leaf(t)
            && t.is_literal()),
    decreases n,
{
    if n > 0 {
        lemma_step_wf(defs, s);
        match step_view(defs, s) {
            Step::Next(s1) => {
                lemma_run_wf(defs, s1, (n - 1) as nat);
            },
            _ => {},
        }
    }
}

/// The head of a spine: the term that is applied to the arguments.
pub open spec fn spine_head(v: Tree) -> Tree
    decreases v,
{
    match v {
        Tree::App(f, _) => spine_head(*f),
        _ => v,
    }
}

/// The number of arguments of a spine.
pub open spec fn spine_len(v: Tree) -> nat
    decreases v,
{
    match v {
        Tree::App(f, _) => 1 + spine_len(*f),
        _ => 0,
    }
}

/// The number of arguments that a head takes before the machine reduces
/// it; nothing for a term that is no such head.
pub open spec fn arity(t: Term) -> Option<nat> {
    match t {
        Term::I | Term::Not => Some(1nat),
        Term::K | Term::AddI | Term::SubI | Term::MulI | Term::DivI | Term::GrtI | Term::LssI
        | Term::EqlI | Term::And | Term::Or => Some(2nat),
        Term::S | Term::B | Term::C | Term::Ifte => Some(3nat),
        Term::Sp | Term::Bs | Term::Cp => Some(4nat),
        Term::E1 | Term::E2 | Term::E3 | Term::E4 | Term::E(_) => if t.eager_index().unwrap()
            >= 1 {
            Some((t.eager_index().unwrap() + 1) as nat)
        } else {
            None
        },
        _ => None,
    }
}

/// A value in head normal form: a literal, or a head with fewer arguments
/// than it takes.
pub open spec fn head_normal(v: Tree) -> bool {
    match spine_head(v) {
        Tree::Leaf(t) => (t.is_literal() && spine_len(v) == 0) || (arity(t) matches Some(a)
            && spine_len(v) < a),
        _ => false,
    }
}

/// The state with its current frame taken away: the frame beneath, as it
/// was suspended.
pub open spec fn pop_frame(s: TaskView) -> TaskView {
    let base = s.stack.len() - s.len - 1;
    TaskView {
        with: s.stack[base],
        stack: s.stack.take(base),
        len: (s.frame.last() - 1) as nat,
        frame: s.frame.drop_last(),
        ret: None,
    }
}

/// The frame at depth `d` beneath the current one, as it was suspended; the
/// state itself, without its returned value, where it is no deeper than `d`.
pub open spec fn ancestor(s: TaskView, d: nat) -> TaskView
    decreases s.frame.len(),
{
    if s.frame.len() <= d {
        TaskView { ret: None, ..s }
    } else {
        ancestor(pop_frame(s), d)
    }
}

/// `s` is a state of an evaluation that the state `s0` has called and that
/// has not returned: `s0` lies suspended beneath it, untouched.
pub open spec fn inside(s0: TaskView, s: TaskView) -> bool {
    &&& s0.ret is None
    &&& s.frame.len() > s0.frame.len()
    &&& ancestor(s, s0.frame.len()) == s0
}

/// Unwinding applies the focus to the arguments of the frame.
pub proof fn lemma_unwind_spine(w: Tree, stack: Seq<Tree>, n: nat)
    requires
        n <= stack.len(),
    ensures
        spine_head(unwind(w, stack, n)) == spine_head(w),
        spine_len(unwind(w, stack, n)) == spine_len(w) + n,
    decreases n,
{
    if n > 0 {
        lemma_unwind_spine(t_app(w, stack.last()), stack.drop_last(), (n - 1) as nat);
    }
}

/// A state that calls an evaluation lies beneath it.
pub proof fn lemma_call_inside(s: TaskView, t: Tree)
    requires
        s.ret is None,
    ensures
        inside(s, s.call(t)),
{
    let c = s.call(t);
    assert(pop_frame(c) =~= s) by {
        assert(c.stack.take(c.stack.len() - 1) =~= s.stack);
        assert(c.frame.drop_last() =~= s.frame);
    }
    assert(ancestor(pop_frame(c), s.frame.len()) =~= s);
}

/// The frames beneath the current one are the same in two states that agree
/// below their current frames.
proof fn lemma_same_ancestor(a: TaskView, b: TaskView, d: nat)
    requires
        a.frame == b.frame,
        a.frame.len() > d,
        a.stack.len() >= a.len + 1,
        b.stack.len() >= b.len + 1,
        a.stack.len() - a.len == b.stack.len() - b.len,
        a.stack.take(a.stack.len() - a.len) =~= b.stack.take(b.stack.len() - b.len),
    ensures
        ancestor(a, d) == ancestor(b, d),
{
    let base = a.stack.len() - a.len;
    assert(a.stack[base - 1] == a.stack.take(base)[base - 1]);
    assert(b.stack[base - 1] == b.stack.take(base)[base - 1]);
    assert(a.stack.take(base - 1) =~= a.stack.take(base).take(base - 1));
    assert(b.stack.take(base - 1) =~= b.stack.take(base).take(base - 1));
    assert(pop_frame(a) =~= pop_frame(b));
}

/// Eager forcing: an evaluation that was called runs on top of the frame
/// that called it and leaves that frame untouched, until it returns to it
/// with a value in head normal form.
///
/// Of a step from a state inside such an evaluation: the task cannot
/// complete; and where it goes on, the next state is inside the evaluation
/// too, or else it is the calling state with the returned value in `ret`.
pub proof fn lemma_forcing_step(defs: Map<Symb, Tree>, s0: TaskView, s: TaskView)
    requires
        s.wf(),
        inside(s0, s),
    ensures
        match step_view(defs, s) {
            Step::Next(s1) => inside(s0, s1) || (s1.ret matches Some(v) && head_normal(v) && s1
                == TaskView { ret: Some(v), ..s0 }),
            Step::Done(_) => false,
            Step::Fault(_) => true,
        },
{
    let d = s0.frame.len();
    assert(s.stack.len() >= s.len + 1);
    match step_view(defs, s) {
        Step::Next(s1) => {
            lemma_step_wf(defs, s);
            if s1.frame.len() == s.frame.len() + 1 {
                // a call
                assert(s.with is Leaf);
                let n = s.with->Leaf_0.eager_index().unwrap();
                assert(s1 == s.call(s.arg(n as nat)));
                assert(pop_frame(s1) =~= TaskView { ret: None, ..s }) by {
                    assert(s1.stack.take(s1.stack.len() - 1) =~= s.stack);
                    assert(s1.frame.drop_last() =~= s.frame);
                }
                assert(ancestor(s1, d) == ancestor(pop_frame(s1), d));
                assert(ancestor(TaskView { ret: None, ..s }, d) == ancestor(s, d)) by {
                    assert(pop_frame(TaskView { ret: None, ..s }) == pop_frame(s));
                }
            } else if s1.frame.len() + 1 == s.frame.len() {
                // a return
                assert(s1 == s.retn());
                assert(TaskView { ret: None, ..s1 } == pop_frame(s));
                let v = s1.ret->Some_0;
                lemma_unwind_spine(s.with, s.stack, s.len);
                assert(head_normal(v));
                if s1.frame.len() > d {
                    assert(ancestor(s1, d) == ancestor(pop_frame(s1), d));
                    assert(pop_frame(s1) == pop_frame(pop_frame(s)));
                } else {
                    assert(ancestor(pop_frame(s), d) == pop_frame(s));
                    assert(s1 =~= TaskView { ret: Some(v), ..s0 });
                }
            } else {
                assert(s1.frame == s.frame);
                assert(s1.stack.len() - s1.len == s.stack.len() - s.len && s1.stack.take(
                    s1.stack.len() - s1.len,
                ) =~= s.stack.take(s.stack.len() - s.len)) by {
                    lemma_step_local(defs, s);
                }
                assert(s1.stack.len() >= s1.len + 1);
                lemma_same_ancestor(s1, s, d);
            }
        },
        _ => {},
    }
}

/// A step that neither calls nor returns leaves the stack beneath the
/// current frame as it was.
proof fn lemma_step_local(defs: Map<Symb, Tree>, s: TaskView)
    requires
        s.wf(),
        step_view(defs, s) is Next,
        step_view(defs, s)->Next_0.frame == s.frame,
    ensures
        ({
            let s1 = step_view(defs, s)->Next_0;
            &&& s1.stack.len() - s1.len == s.stack.len() - s.len
            &&& s1.stack.take(s1.stack.len() - s1.len) =~= s.stack.take(s.stack.len() - s.len)
        }),
{
    assert(s.stack.len() >= s.len);
    let s1 = step_view(defs, s)->Next_0;
    if s.frame.len() > 0 && s1 == s.retn() {
        assert(s1.frame.len() + 1 == s.frame.len());
    }
    if s.with matches Tree::Leaf(t) && t.eager_index() is Some {
        let n = s.with->Leaf_0.eager_index().unwrap();
        if n >= 1 && s.len >= n + 1 {
            if s.ret is None {
                assert(s1 == s.call(s.arg(n as nat)));
                assert(s1.frame.len() == s.frame.len() + 1);
            } else {
                assert(s1 == s.resume(n, s.ret->Some_0));
            }
        }
    }
}

/// Eager forcing, the call: a marker in focus that forces `n` arguments,
/// and has them and one more, suspends its frame to evaluate the argument
/// `n` places below the top.
pub proof fn lemma_eager_calls(defs: Map<Symb, Tree>, s: TaskView, n: u8)
    requires
        s.with matches Tree::Leaf(t) && t.eager_index() == Some(n),
        n >= 1,
        s.len >= n + 1,
        s.ret is None,
    ensures
        step_view(defs, s) == Step::Next(s.call(s.arg(n as nat))),
        inside(s, s.call(s.arg(n as nat))),
{
    lemma_call_inside(s, s.arg(n as nat));
}

/// Eager forcing, the return: with the returned value at hand the marker
/// puts it in the argument's place and goes on, to the marker for one
/// argument less or, after the last argument, to the function on top.
pub proof fn lemma_eager_resumes(defs: Map<Symb, Tree>, s: TaskView, n: u8, v: Tree)
    requires
        s.with matches Tree::Leaf(t) && t.eager_index() == Some(n),
        n >= 1,
        s.len >= n + 1,
        s.ret == Some(v),
    ensures
        step_view(defs, s) == Step::Next(s.resume(n, v)),
        s.resume(n, v).ret is None,
        s.stack.len() >= n + 1 ==> s.resume(n, v).stack.len() >= n && s.resume(n, v).stack[
            s.stack.len() - 1 - n
        ] == v,
{
}

/// The term that the current frame of a state stands for: the focus
/// applied to the arguments of the frame.
pub open spec fn frame_term(s: TaskView) -> Tree {
    unwind(s.with, s.stack, s.len)
}

/// Unwinding one argument more applies the focus to the topmost argument
/// first.
pub proof fn lemma_unwind_push(w: Tree, rest: Seq<Tree>, a: Tree, n: nat)
    ensures
        unwind(w, rest.push(a), n + 1) == unwind(t_app(w, a), rest, n),
{
    assert(rest.push(a).drop_last() =~= rest);
}

/// Unwinding in two stages: first the topmost `a` arguments, then the
/// others.
pub proof fn lemma_unwind_split(w: Tree, stack: Seq<Tree>, n: nat, a: nat)
    requires
        a <= n <= stack.len(),
    ensures
        unwind(w, stack, n) == unwind(
            unwind(w, stack.subrange(stack.len() - a, stack.len() as int), a),
            stack.take(stack.len() - a),
            (n - a) as nat,
        ),
    decreases a,
{
    let top = stack.subrange(stack.len() - a, stack.len() as int);
    if a == 0 {
        assert(stack.take(stack.len() as int) =~= stack);
    } else {
        assert(top.last() == stack.last());
        assert(top.drop_last() =~= stack.drop_last().subrange(
            stack.drop_last().len() - (a - 1),
            stack.drop_last().len() as int,
        ));
        assert(stack.drop_last().take(stack.drop_last().len() - (a - 1)) =~= stack.take(
            stack.len() - a,
        ));
        lemma_unwind_split(
            t_app(w, stack.last()),
            stack.drop_last(),
            (n - 1) as nat,
            (a - 1) as nat,
        );
    }
}

/// A head applied to the topmost arguments of a stack, up to four of them.
pub proof fn lemma_unwind_top(w: Tree, stack: Seq<Tree>, a: nat)
    requires
        1 <= a <= 4,
        a <= stack.len(),
    ensures
        ({
            let m = stack.len() as int;
            let redex = unwind(w, stack.subrange(m - a, m), a);
            &&& a == 1 ==> redex == t_app(w, stack[m - 1])
            &&& a == 2 ==> redex == t_app(t_app(w, stack[m - 1]), stack[m - 2])
            &&& a == 3 ==> redex == t_app(t_app(t_app(w, stack[m - 1]), stack[m - 2]), stack[m - 3])
            &&& a == 4 ==> redex == t_app(
                t_app(t_app(t_app(w, stack[m - 1]), stack[m - 2]), stack[m - 3]),
                stack[m - 4],
            )
        }),
    decreases a,
{
    let m = stack.len() as int;
    let top = stack.subrange(m - a, m);
    assert(top.last() == stack[m - 1]);
    if a == 1 {
        assert(top.drop_last().len() == 0);
        assert(unwind(t_app(w, stack[m - 1]), top.drop_last(), 0) == t_app(w, stack[m - 1]));
    } else {
        let below = stack.drop_last();
        assert(top.drop_last() =~= below.subrange(below.len() - (a - 1), below.len() as int));
        lemma_unwind_top(t_app(w, stack[m - 1]), below, (a - 1) as nat);
    }
}

/// The state after a combinator took `a` arguments and put `pushed` in
/// their place stands for the new focus applied to `pushed`, the last first,
/// before the arguments that are left.
proof fn lemma_rewrite_term(s: TaskView, a: nat, with: Tree, pushed: Seq<Tree>)
    requires
        a <= s.len <= s.stack.len(),
        pushed.len() <= 2,
    ensures
        ({
            let rest = s.stack.take(s.stack.len() - a);
            let k = (s.len - a) as nat;
            let s1 = s.rewrite(a, with, pushed);
            &&& pushed.len() == 0 ==> frame_term(s1) == unwind(with, rest, k)
            &&& pushed.len() == 1 ==> frame_term(s1) == unwind(t_app(with, pushed[0]), rest, k)
            &&& pushed.len() == 2 ==> frame_term(s1) == unwind(
                t_app(t_app(with, pushed[1]), pushed[0]),
                rest,
                k,
            )
        }),
{
    let rest = s.stack.take(s.stack.len() - a);
    let k = (s.len - a) as nat;
    let s1 = s.rewrite(a, with, pushed);
    if pushed.len() == 0 {
        assert(s1.stack =~= rest);
    } else if pushed.len() == 1 {
        assert(s1.stack =~= rest.push(pushed[0]));
        lemma_unwind_push(with, rest, pushed[0], k);
    } else {
        assert(s1.stack =~= rest.push(pushed[0]).push(pushed[1]));
        lemma_unwind_push(with, rest.push(pushed[0]), pushed[1], k + 1);
        lemma_unwind_push(t_app(with, pushed[1]), rest, pushed[0], k);
    }
}

/// The machine reduces by the rules of the combinators: a step on a
/// combinator that has its arguments rewrites the term of the frame at the
/// head of its spine, as `contract_root` rewrites the combinator applied to
/// those arguments.
pub proof fn lemma_step_contracts(defs: Map<Symb, Tree>, s: TaskView, t: Term, a: nat)
    requires
        s.wf(),
        s.with == Tree::Leaf(t),
        t is I || t is K || t is S || t is B || t is C || t is Sp || t is Bs || t is Cp,
        arity(t) == Some(a),
        s.len >= a,
    ensures
        ({
            let rest = s.stack.take(s.stack.len() - a);
            let redex = unwind(
                s.with,
                s.stack.subrange(s.stack.len() - a, s.stack.len() as int),
                a,
            );
            &&& frame_term(s) == unwind(redex, rest, (s.len - a) as nat)
            &&& contract_root(redex) is Some
            &&& step_view(defs, s) matches Step::Next(s1) && frame_term(s1) == unwind(
                contract_root(redex).unwrap(),
                rest,
                (s.len - a) as nat,
            )
        }),
{
    assert(s.stack.len() >= s.len);
    lemma_unwind_split(s.with, s.stack, s.len, a);
    lemma_unwind_top(s.with, s.stack, a);
    match t {
        Term::I => {
            lemma_rewrite_term(s, 1, s.arg(0), Seq::empty());
        },
        Term::K => {
            lemma_rewrite_term(s, 2, s.arg(0), Seq::empty());
        },
        Term::S => {
            lemma_rewrite_term(s, 3, s.arg(0), seq![t_app(s.arg(1), s.arg(2)), s.arg(2)]);
        },
        Term::B => {
            lemma_rewrite_term(s, 3, s.arg(0), seq![t_app(s.arg(1), s.arg(2))]);
        },
        Term::C => {
            lemma_rewrite_term(s, 3, s.arg(0), seq![s.arg(1), s.arg(2)]);
        },
        Term::Sp => {
            lemma_rewrite_term(
                s,
                4,
                s.arg(0),
                seq![t_app(s.arg(2), s.arg(3)), t_app(s.arg(1), s.arg(3))],
            );
        },
        Term::Bs => {
            lemma_rewrite_term(s, 4, s.arg(0), seq![t_app(s.arg(2), s.arg(3)), s.arg(1)]);
        },
        Term::Cp => {
            lemma_rewrite_term(s, 4, s.arg(0), seq![s.arg(2), t_app(s.arg(1), s.arg(3))]);
        },
        _ => {},
    }
}

/// Unwinding the spine keeps the term of the frame: a step on an
/// application in focus moves its argument to the stack.
pub proof fn lemma_step_unwinds(defs: Map<Symb, Tree>, s: TaskView)
    requires
        s.with is App,
    ensures
        step_view(defs, s) matches Step::Next(s1) && frame_term(s1) == frame_term(s),
{
    let s1 = step_view(defs, s)->Next_0;
    let a = *s.with->App_1;
    assert(s1.stack =~= s.stack.push(a)) by {
        assert(s.stack.take(s.stack.len() as int) =~= s.stack);
    }
    lemma_unwind_push(*s.with->App_0, s.stack, a, s.len);
}

/// Every handle of the sequence is valid in `heap`.
pub open spec fn all_valid(heap: &Heap, s: Seq<TermRef>) -> bool {
    forall|i: int| 0 <= i < s.len() ==> heap.valid(#[trigger] s[i])
}

/// The first `n` handles of the sequence name constants or slots of pages
/// numbered `lo` or higher.
pub open spec fn all_fresh(s: Seq<TermRef>, n: int, lo: nat) -> bool {
    forall|j: int| 0 <= j < n ==> (#[trigger] s[j]).fresh(lo)
}

/// The trees that were pushed, given up to two handles.
pub open spec fn pushed_trees(heap: &Heap, first: Option<TermRef>, second: Option<TermRef>) -> Seq<
    Tree,
> {
    match (first, second) {
        (Some(a), Some(b)) => seq![heap.tree(a), heap.tree(b)],
        (Some(a), None) => seq![heap.tree(a)],
        _ => Seq::empty(),
    }
}

/// What a step returns: nothing while the task goes on, the literal when it
/// is complete, the error when it has failed.
pub type Outcome = Option<Result<TermRef, EvalError>>;

/// A task: a term under reduction, with its stack of arguments and frames.
pub struct Task {
    stack: Vec<TermRef>,
    with: TermRef,
    frame: Vec<usize>,
    len: usize,
    ret: Option<TermRef>,
}

/// The outcome `out` and the task and store after a step are what `expected`
/// says: the next state; or the literal, with task and store as before; or
/// the error, with task and store as before.
pub open spec fn refines(
    out: Outcome,
    task: &Task,
    heap: &Heap,
    old_task: &Task,
    old_heap: &Heap,
    expected: Step,
) -> bool {
    match expected {
        Step::Next(s) => out is None && task.valid(heap) && task.view(heap) == s,
        Step::Done(v) => out matches Some(Ok(r)) && heap.valid(r) && heap.tree(r) == v && *task
            == *old_task && *heap == *old_heap,
        Step::Fault(e) => out == Some::<Result<TermRef, EvalError>>(Err(e)) && *task == *old_task
            && *heap == *old_heap,
    }
}

impl Task {
    /// The state of the task, with every handle read in `heap`.
    pub closed spec fn view(&self, heap: &Heap) -> TaskView {
        TaskView {
            with: heap.tree(self.with),
            stack: trees_of(heap, self.stack@),
            len: self.len as nat,
            frame: self.frame@.map_values(|f: usize| f as nat),
            ret: match self.ret {
                Some(r) => Some(heap.tree(r)),
                None => None,
            },
        }
    }

    /// Every handle of the task is valid in `heap`.
    pub closed spec fn valid(&self, heap: &Heap) -> bool {
        &&& heap.valid(self.with)
        &&& all_valid(heap, self.stack@)
        &&& self.ret matches Some(r) ==> heap.valid(r)
    }

    /// The task belongs to `heap` and its state meets the invariant of the
    /// machine.
    pub open spec fn wf(&self, heap: &Heap) -> bool {
        self.valid(heap) && self.view(heap).wf()
    }

    /// In a store that extends `old`, a task keeps its state.
    pub proof fn lemma_extends(&self, old: &Heap, new: &Heap)
        requires
            self.valid(old),
            new.preserves(old),
        ensures
            self.valid(new),
            self.view(new) == self.view(old),
    {
        assert forall|i: int| 0 <= i < self.stack@.len() implies new.valid(
            #[trigger] self.stack@[i],
        ) && new.tree(self.stack@[i]) == old.tree(self.stack@[i]) by {
            assert(old.valid(self.stack@[i]));
        }
        assert(trees_of(new, self.stack@) =~= trees_of(old, self.stack@));
    }

    /// Every handle of the task names a constant or a slot of a page numbered
    /// `lo` or higher.
    pub closed spec fn fresh(&self, lo: nat) -> bool {
        &&& self.with.fresh(lo)
        &&& all_fresh(self.stack@, self.stack@.len() as int, lo)
        &&& self.ret matches Some(r) ==> r.fresh(lo)
    }

    /// The terms of the task share no slot with the terms of `old`: every
    /// slot that the focus, a stack entry or the returned value reaches is
    /// one that `old` does not have in use.
    pub closed spec fn apart(&self, heap: &Heap, old: &Heap) -> bool {
        &&& heap.apart(old, self.with)
        &&& forall|i: int| 0 <= i < self.stack@.len() ==> heap.apart(old, #[trigger] self.stack@[i])
        &&& self.ret matches Some(r) ==> heap.apart(old, r)
    }

    /// Handles that lie on pages from `hi` on lie on pages from any lower
    /// page on.
    pub proof fn lemma_fresh_lower(&self, hi: nat, lo: nat)
        requires
            self.fresh(hi),
            lo <= hi,
        ensures
            self.fresh(lo),
    {
        assert forall|j: int| 0 <= j < self.stack@.len() implies (#[trigger] self.stack@[j]).fresh(
            lo,
        ) by {
            assert(self.stack@[j].fresh(hi));
        }
    }

    /// A task whose handles lie on pages from `lo` on keeps its state in a
    /// store that keeps those pages.
    pub proof fn lemma_restrict(&self, old: &Heap, new: &Heap, lo: nat)
        requires
            self.valid(old),
            self.fresh(lo),
            forall|r: TermRef| #[trigger] new.valid(r) <==> old.valid(r) && r.fresh(lo),
            forall|r: TermRef| #[trigger]
                new.valid(r) ==> new.node(r) == old.node(r) && new.tree(r) == old.tree(r),
        ensures
            self.valid(new),
            self.view(new) == self.view(old),
    {
        assert(new.valid(self.with));
        assert forall|i: int| 0 <= i < self.stack@.len() implies new.valid(
            #[trigger] self.stack@[i],
        ) && new.tree(self.stack@[i]) == old.tree(self.stack@[i]) by {
            let x = self.stack@[i];
            assert(old.valid(x));
            assert(x.fresh(lo));
            assert(new.valid(x) <==> old.valid(x) && x.fresh(lo));
        }
        assert(trees_of(new, self.stack@) =~= trees_of(old, self.stack@));
        if self.ret is Some {
            assert(new.valid(self.ret.unwrap()));
        }
    }

    /// A task on `term`, before its first step.
    pub fn new(term: TermRef) -> (t: Task)
        ensures
            forall|h: Heap|
                h.valid(term) ==> #[trigger] t.wf(&h) && t.view(&h) == TaskView::start(
                    h.tree(term),
                ),
    {
        let t = Task { stack: Vec::new(), with: term, frame: Vec::new(), len: 0, ret: None };
        proof {
            assert forall|h: Heap| h.valid(term) implies #[trigger] t.wf(&h) && t.view(&h)
                == TaskView::start(h.tree(term)) by {
                assert(t.view(&h) =~= TaskView::start(h.tree(term)));
            }
        }
        t
    }

    /// The term in focus.
    pub fn focus(&self) -> (r: TermRef)
        ensures
            forall|h: Heap| #[trigger] h.tree(r) == self.view(&h).with,
            forall|h: Heap| self.valid(&h) ==> #[trigger] h.valid(r),
    {
        self.with
    }

    /// Whether no argument is pending, no frame is suspended and no returned
    /// value waits.
    pub fn is_balanced(&self) -> (b: bool)
        ensures
            forall|h: Heap| b == #[trigger] self.view(&h).balanced(),
    {
        self.len == 0 && self.frame.len() == 0 && self.ret.is_none()
    }

    /// The value that an eager evaluation has just returned, if one waits.
    pub fn returned(&self) -> (r: Option<TermRef>)
        ensures
            forall|h: Heap| #[trigger]
                self.view(&h).ret == match r {
                    Some(x) => Some(h.tree(x)),
                    None => None,
                },
    {
        self.ret
    }

    /// The stack from its top down: first the arguments of the current
    /// frame, then what lies suspended beneath them.
    pub fn entries(&self) -> (v: Vec<TermRef>)
        ensures
            forall|h: Heap| trees_of(&h, v@) == #[trigger] self.view(&h).stack.reverse(),
    {
        let mut v: Vec<TermRef> = Vec::new();
        let n = self.stack.len();
        let mut i: usize = n;
        while i > 0
            invariant
                i <= n,
                n == self.stack.len(),
                v.len() == n - i,
                forall|k: int| 0 <= k < v.len() ==> v[k] == self.stack[n - 1 - k],
            decreases i,
        {
            i = i - 1;
            v.push(self.stack[i]);
        }
        proof {
            assert forall|h: Heap| trees_of(&h, v@) == #[trigger] self.view(&h).stack.reverse() by {
                assert(trees_of(&h, v@) =~= self.view(&h).stack.reverse());
            }
        }
        v
    }

    /// The number of arguments of the current frame.
    pub fn arguments(&self) -> (n: usize)
        ensures
            forall|h: Heap| n == #[trigger] self.view(&h).len,
    {
        self.len
    }

    /// For each suspended frame, from the oldest to the newest, its number
    /// of arguments plus one.
    pub fn frames(&self) -> (v: Vec<usize>)
        ensures
            forall|h: Heap|
                v@.map_values(|f: usize| f as nat) == #[trigger] self.view(&h).frame,
    {
        self.frame.clone()
    }

    /// Takes `n` arguments from the current frame, puts up to two terms in
    /// their place and brings `with` into focus.
    fn rewrite(
        &mut self,
        heap: &Heap,
        n: usize,
        with: TermRef,
        first: Option<TermRef>,
        second: Option<TermRef>,
    )
        requires
            old(self).wf(heap),
            n <= old(self).len,
            heap.valid(with),
            first matches Some(a) ==> heap.valid(a),
            second matches Some(b) ==> heap.valid(b),
            second is Some ==> first is Some,
        ensures
            final(self).valid(heap),
            final(self).view(heap) == old(self).view(heap).rewrite(
                n as nat,
                heap.tree(with),
                pushed_trees(heap, first, second),
            ),
    {
        let m = self.stack.len();
        assert(m >= self.len) by {
            assert(frames_ok(self.view(heap).stack, self.len as nat, self.view(heap).frame));
        }
        self.stack.truncate(m - n);
        self.len = self.len - n;
        match first {
            Some(a) => {
                self.stack.push(a);
                let _ = self.stack.len();
                self.len = self.len + 1;
            },
            None => {},
        }
        match second {
            Some(b) => {
                self.stack.push(b);
                let _ = self.stack.len();
                self.len = self.len + 1;
            },
            None => {},
        }
        self.with = with;
        proof {
            assert(self.view(heap).stack =~= old(self).view(heap).stack.take(m - n) + pushed_trees(
                heap,
                first,
                second,
            ));
        }
    }

    /// Puts `term` on the stack as an argument of the current frame.
    fn push(&mut self, heap: &Heap, term: TermRef)
        requires
            old(self).wf(heap),
            heap.valid(term),
        ensures
            final(self).valid(heap),
            final(self).view(heap) == old(self).view(heap).rewrite(
                0,
                old(self).view(heap).with,
                seq![heap.tree(term)],
            ),
    {
        let with = self.with;
        self.rewrite(heap, 0, with, Some(term), None);
    }

    /// Takes the topmost argument of the current frame.
    fn pop(&mut self, heap: &Heap) -> (r: TermRef)
        requires
            old(self).wf(heap),
            old(self).len > 0,
        ensures
            heap.valid(r),
            heap.tree(r) == old(self).view(heap).arg(0),
            final(self).valid(heap),
            final(self).view(heap) == old(self).view(heap).rewrite(
                1,
                old(self).view(heap).with,
                Seq::empty(),
            ),
    {
        let r = self.arg(heap, 0);
        let with = self.with;
        self.rewrite(heap, 1, with, None, None);
        r
    }

    /// The argument `i` places below the top of the stack.
    fn arg(&self, heap: &Heap, i: usize) -> (r: TermRef)
        requires
            self.wf(heap),
            i < self.len,
        ensures
            heap.valid(r),
            heap.tree(r) == self.view(heap).arg(i as nat),
    {
        let m = self.stack.len();
        assert(m >= self.len) by {
            assert(frames_ok(self.view(heap).stack, self.len as nat, self.view(heap).frame));
        }
        self.stack[m - 1 - i]
    }

    /// Suspends the current frame to evaluate `term`: the focus is saved on
    /// the stack and the size of the frame, plus one, is recorded.
    fn call(&mut self, heap: &Heap, term: TermRef)
        requires
            old(self).wf(heap),
            heap.valid(term),
        ensures
            final(self).valid(heap),
            final(self).view(heap) == old(self).view(heap).call(heap.tree(term)),
    {
        let m = self.stack.len();
        assert(m >= self.len) by {
            assert(frames_ok(self.view(heap).stack, self.len as nat, self.view(heap).frame));
        }
        self.stack.push(self.with);
        let _ = self.stack.len();
        self.frame.push(self.len + 1);
        self.with = term;
        self.len = 0;
        proof {
            assert(self.view(heap).stack =~= old(self).view(heap).stack.push(
                old(self).view(heap).with,
            ));
            assert(self.view(heap).frame =~= old(self).view(heap).frame.push(
                (old(self).len + 1) as nat,
            ));
        }
    }

    /// Returns from the current frame: the focus applied to the arguments of
    /// the frame, the topmost first, becomes the returned value, and the
    /// frame beneath is resumed.
    fn retn(&mut self, heap: &mut Heap)
        requires
            old(heap).wf(),
            old(self).wf(old(heap)),
            old(self).frame.len() > 0,
            old(self).ret is None,
        ensures
            final(heap).wf(),
            final(heap).extends(old(heap)),
            final(self).valid(final(heap)),
            final(self).view(final(heap)) == old(self).view(old(heap)).retn(),
    {
        let ghost s0 = self.view(heap);
        let ghost stack0 = self.stack@;
        assert(frames_ok(s0.stack, s0.len, s0.frame));
        let n = self.len;
        let mut term = self.with;
        let mut i: usize = 0;
        assert(s0.stack.take(stack0.len() as int) =~= s0.stack);
        while i < n
            invariant
                heap.wf(),
                heap.extends(old(heap)),
                i <= n,
                n == s0.len,
                stack0.len() >= n + 1,
                stack0.len() == s0.stack.len(),
                self.stack@ =~= stack0.take(stack0.len() - i),
                self.frame == old(self).frame,
                self.ret is None,
                all_valid(old(heap), stack0),
                s0.stack == trees_of(old(heap), stack0),
                heap.valid(term),
                unwind(heap.tree(term), s0.stack.take(stack0.len() - i), (n - i) as nat) == unwind(
                    s0.with,
                    s0.stack,
                    s0.len,
                ),
            decreases n - i,
        {
            let ghost before = s0.stack.take(stack0.len() - i);
            let top = self.stack.pop().unwrap();
            proof {
                assert(top == stack0[stack0.len() - i - 1]);
                assert(old(heap).valid(top));
                assert(heap.tree(top) == before.last());
                assert(before.drop_last() =~= s0.stack.take(stack0.len() - i - 1));
            }
            term = app(heap, term, top);
            i = i + 1;
        }
        let saved = self.stack.pop().unwrap();
        let f = self.frame.pop().unwrap();
        proof {
            assert(s0.frame.last() == f as nat);
            assert(saved == stack0[stack0.len() - n - 1]);
            assert(old(heap).valid(saved));
            assert(unwind(heap.tree(term), s0.stack.take(stack0.len() - i), 0) == heap.tree(term));
        }
        self.ret = Some(term);
        self.with = saved;
        self.len = f - 1;
        proof {
            let base = stack0.len() - n - 1;
            assert forall|j: int| 0 <= j < self.stack@.len() implies heap.valid(
                #[trigger] self.stack@[j],
            ) && heap.tree(self.stack@[j]) == s0.stack[j] by {
                assert(self.stack@[j] == stack0[j]);
                assert(old(heap).valid(stack0[j]));
            }
            assert(self.view(heap).stack =~= s0.stack.take(base));
            assert(self.view(heap).frame =~= s0.frame.drop_last());
        }
    }

    /// What the machine does where the focus lacks arguments: a return to the
    /// frame beneath, or the fault `Stuck` where there is none.
    fn rewind(&mut self, heap: &mut Heap) -> (out: Outcome)
        requires
            old(heap).wf(),
            old(self).wf(old(heap)),
            old(self).ret is None,
        ensures
            final(heap).wf(),
            final(heap).extends(old(heap)),
            refines(
                out,
                final(self),
                final(heap),
                old(self),
                old(heap),
                old(self).view(old(heap)).rewind(),
            ),
    {
        if self.frame.len() == 0 {
            Some(Err(EvalError::Stuck))
        } else {
            self.retn(heap);
            None
        }
    }
    /// The step of a combinator, of `Not` or of `Ifte` in focus.
    fn comb(&mut self, heap: &mut Heap, t: Term) -> (out: Outcome)
        requires
            old(heap).wf(),
            old(self).wf(old(heap)),
            old(self).ret is None,
        ensures
            final(heap).wf(),
            final(heap).extends(old(heap)),
            refines(
                out,
                final(self),
                final(heap),
                old(self),
                old(heap),
                step_comb(old(self).view(old(heap)), t),
            ),
    {
        match t {
            Term::I => {
                if self.len < 1 {
                    return self.rewind(heap);
                }
                let ghost s0 = self.view(heap);
                let x = self.pop(heap);
                proof {
                    lemma_rewrite_wf(s0, 1, s0.with, Seq::empty());
                }
                self.rewrite(heap, 0, x, None, None);
                proof {
                    assert(self.view(heap) =~= s0.rewrite(1, heap.tree(x), Seq::empty()));
                }
                None
            },
            Term::K => {
                if self.len < 2 {
                    return self.rewind(heap);
                }
                let c = self.arg(heap, 0);
                self.rewrite(heap, 2, c, None, None);
                None
            },
            Term::S => {
                if self.len < 3 {
                    return self.rewind(heap);
                }
                let f = self.arg(heap, 0);
                let g = self.arg(heap, 1);
                let x = self.arg(heap, 2);
                let gx = app(heap, g, x);
                proof {
                    self.lemma_extends(old(heap), heap);
                }
                self.rewrite(heap, 3, f, Some(gx), Some(x));
                None
            },
            Term::B => {
                if self.len < 3 {
                    return self.rewind(heap);
                }
                let f = self.arg(heap, 0);
                let g = self.arg(heap, 1);
                let x = self.arg(heap, 2);
                let gx = app(heap, g, x);
                proof {
                    self.lemma_extends(old(heap), heap);
                }
                self.rewrite(heap, 3, f, Some(gx), None);
                None
            },
            Term::C => {
                if self.len < 3 {
                    return self.rewind(heap);
                }
                let f = self.arg(heap, 0);
                let g = self.arg(heap, 1);
                let x = self.arg(heap, 2);
                self.rewrite(heap, 3, f, Some(g), Some(x));
                None
            },
            Term::Sp => {
                if self.len < 4 {
                    return self.rewind(heap);
                }
                let c = self.arg(heap, 0);
                let f = self.arg(heap, 1);
                let g = self.arg(heap, 2);
                let x = self.arg(heap, 3);
                let gx = app(heap, g, x);
                let fx = app(heap, f, x);
                proof {
                    self.lemma_extends(old(heap), heap);
                }
                self.rewrite(heap, 4, c, Some(gx), Some(fx));
                None
            },
            Term::Bs => {
                if self.len < 4 {
                    return self.rewind(heap);
                }
                let c = self.arg(heap, 0);
                let f = self.arg(heap, 1);
                let g = self.arg(heap, 2);
                let x = self.arg(heap, 3);
                let gx = app(heap, g, x);
                proof {
                    self.lemma_extends(old(heap), heap);
                }
                self.rewrite(heap, 4, c, Some(gx), Some(f));
                None
            },
            Term::Cp => {
                if self.len < 4 {
                    return self.rewind(heap);
                }
                let c = self.arg(heap, 0);
                let f = self.arg(heap, 1);
                let g = self.arg(heap, 2);
                let x = self.arg(heap, 3);
                let fx = app(heap, f, x);
                proof {
                    self.lemma_extends(old(heap), heap);
                }
                self.rewrite(heap, 4, c, Some(g), Some(fx));
                None
            },
            Term::Not => {
                if self.len < 1 {
                    return self.rewind(heap);
                }
                let x = self.arg(heap, 0);
                match heap.get(x) {
                    Term::DBool(a) => {
                        let r = dbool(heap, !a);
                        proof {
                            self.lemma_extends(old(heap), heap);
                        }
                        self.rewrite(heap, 1, r, None, None);
                        None
                    },
                    _ => Some(Err(EvalError::TypeMismatch)),
                }
            },
            Term::Ifte => {
                if self.len < 3 {
                    return self.rewind(heap);
                }
                let x = self.arg(heap, 0);
                let y = self.arg(heap, 1);
                let z = self.arg(heap, 2);
                match heap.get(x) {
                    Term::DBool(p) => {
                        if p {
                            self.rewrite(heap, 3, y, None, None);
                        } else {
                            self.rewrite(heap, 3, z, None, None);
                        }
                        None
                    },
                    _ => Some(Err(EvalError::TypeMismatch)),
                }
            },
            _ => Some(Err(EvalError::UnknownTerm)),
        }
    }

    /// The step of a primitive on two integers in focus.
    fn prim_int(&mut self, heap: &mut Heap, op: Term) -> (out: Outcome)
        requires
            old(heap).wf(),
            old(self).wf(old(heap)),
            old(self).ret is None,
        ensures
            final(heap).wf(),
            final(heap).extends(old(heap)),
            refines(
                out,
                final(self),
                final(heap),
                old(self),
                old(heap),
                step_int(old(self).view(old(heap)), op),
            ),
    {
        if self.len < 2 {
            return self.rewind(heap);
        }
        let x = self.arg(heap, 0);
        let y = self.arg(heap, 1);
        match heap.get(x) {
            Term::DInt(a) => match heap.get(y) {
                Term::DInt(b) => match apply_int(op, a, b) {
                    Some(v) => {
                        let r = crate::heap::term_alloc(heap, v);
                        proof {
                            self.lemma_extends(old(heap), heap);
                        }
                        self.rewrite(heap, 2, r, None, None);
                        None
                    },
                    None => Some(Err(EvalError::DivideByZero)),
                },
                _ => Some(Err(EvalError::TypeMismatch)),
            },
            _ => Some(Err(EvalError::TypeMismatch)),
        }
    }

    /// The step of `And` or `Or` in focus.
    fn prim_bool(&mut self, heap: &mut Heap, op: Term) -> (out: Outcome)
        requires
            old(heap).wf(),
            old(self).wf(old(heap)),
            old(self).ret is None,
        ensures
            final(heap).wf(),
            final(heap).extends(old(heap)),
            refines(
                out,
                final(self),
                final(heap),
                old(self),
                old(heap),
                step_bool(old(self).view(old(heap)), op),
            ),
    {
        if self.len < 2 {
            return self.rewind(heap);
        }
        let x = self.arg(heap, 0);
        let y = self.arg(heap, 1);
        match heap.get(x) {
            Term::DBool(a) => match heap.get(y) {
                Term::DBool(b) => {
                    let v = if op == Term::And {
                        a && b
                    } else {
                        a || b
                    };
                    let r = dbool(heap, v);
                    proof {
                        self.lemma_extends(old(heap), heap);
                    }
                    self.rewrite(heap, 2, r, None, None);
                    None
                },
                _ => Some(Err(EvalError::TypeMismatch)),
            },
            _ => Some(Err(EvalError::TypeMismatch)),
        }
    }

    /// The step of a literal in focus: a fault where arguments are pending,
    /// completion where no frame is suspended, a return otherwise.
    fn literal(&mut self, heap: &mut Heap) -> (out: Outcome)
        requires
            old(heap).wf(),
            old(self).wf(old(heap)),
            old(self).ret is None,
        ensures
            final(heap).wf(),
            final(heap).extends(old(heap)),
            refines(
                out,
                final(self),
                final(heap),
                old(self),
                old(heap),
                step_literal(old(self).view(old(heap))),
            ),
    {
        if self.len > 0 {
            Some(Err(EvalError::NotAFunction))
        } else if self.frame.len() == 0 {
            Some(Ok(self.with))
        } else {
            self.retn(heap);
            None
        }
    }

    /// The step of the eager marker that forces `index` arguments.
    fn eager(&mut self, heap: &mut Heap, index: u8) -> (out: Outcome)
        requires
            old(heap).wf(),
            old(self).wf(old(heap)),
            old(self).view(old(heap)).with matches Tree::Leaf(t) && t.eager_index() == Some(index),
        ensures
            final(heap).wf(),
            final(heap).extends(old(heap)),
            refines(
                out,
                final(self),
                final(heap),
                old(self),
                old(heap),
                step_eager(old(self).view(old(heap)), index),
            ),
    {
        let ghost s0 = self.view(heap);
        let ghost stack0 = self.stack@;
        if index == 0 {
            return Some(Err(EvalError::UnknownTerm));
        }
        let n = index as usize;
        if self.len < n + 1 {
            return self.rewind(heap);
        }
        let m = self.stack.len();
        assert(m >= self.len) by {
            assert(frames_ok(s0.stack, s0.len, s0.frame));
        }
        match self.ret {
            None => {
                let target = self.arg(heap, n);
                self.call(heap, target);
            },
            Some(res) => {
                if n == 1 {
                    self.stack.set(m - n - 1, res);
                    self.ret = None;
                    self.with = self.stack.pop().unwrap();
                    self.len = self.len - 1;
                    proof {
                        assert(self.view(heap).stack =~= s0.resume(index, heap.tree(res)).stack);
                        assert(self.view(heap) =~= s0.resume(index, heap.tree(res)));
                    }
                } else {
                    let w = eager(heap, index - 1);
                    proof {
                        self.lemma_extends(old(heap), heap);
                    }
                    self.stack.set(m - n - 1, res);
                    self.ret = None;
                    self.with = w;
                    proof {
                        assert(self.view(heap).stack =~= s0.resume(index, heap.tree(res)).stack);
                        assert(self.view(heap) =~= s0.resume(index, heap.tree(res)));
                    }
                }
            },
        }
        None
    }

    /// One step of the machine.
    ///
    /// The task and the store afterwards are what `step_view` says of the
    /// state before: the next state while the task goes on; the literal in
    /// focus when the task is complete; the error when it has failed.  On
    /// completion and on failure the task and the store are left as they
    /// were.
    pub fn step(&mut self, heap: &mut Heap, dict: &Dict) -> (out: Outcome)
        requires
            old(heap).wf(),
            old(self).wf(old(heap)),
            dict.wf(old(heap)),
        ensures
            final(heap).wf(),
            final(heap).extends(old(heap)),
            refines(
                out,
                final(self),
                final(heap),
                old(self),
                old(heap),
                step_view(dict.defs(old(heap)), old(self).view(old(heap))),
            ),
            out is None ==> final(self).wf(final(heap)),
    {
        let with = self.with;
        let t = heap.get(with);
        proof {
            lemma_step_wf(dict.defs(heap), self.view(heap));
        }
        match t {
            Term::Var(x) => match lookup(dict, x) {
                Some(d) => {
                    assert(dict.entries()[x].wf(heap));
                    self.rewrite(heap, 0, d, None, None);
                    None
                },
                None => Some(Err(EvalError::UnboundSymbol(x))),
            },
            Term::Lam(_, _) => {
                let c = compile_ski(heap, with);
                proof {
                    self.lemma_extends(old(heap), heap);
                }
                self.rewrite(heap, 0, c, None, None);
                None
            },
            Term::App(t1, t2) => {
                let ghost s0 = self.view(heap);
                self.push(heap, t2);
                proof {
                    lemma_rewrite_wf(s0, 0, s0.with, seq![heap.tree(t2)]);
                }
                self.rewrite(heap, 0, t1, None, None);
                proof {
                    assert(self.view(heap) =~= s0.rewrite(0, heap.tree(t1), seq![heap.tree(t2)]));
                }
                None
            },
            Term::E1 => self.eager(heap, 1),
            Term::E2 => self.eager(heap, 2),
            Term::E3 => self.eager(heap, 3),
            Term::E4 => self.eager(heap, 4),
            Term::E(n) => self.eager(heap, n),
            Term::AddI | Term::SubI | Term::MulI | Term::DivI | Term::GrtI | Term::LssI
            | Term::EqlI => self.prim_int(heap, t),
            Term::And | Term::Or => self.prim_bool(heap, t),
            Term::DBool(_) | Term::DChar(_) | Term::DInt(_) | Term::DReal(_) => self.literal(heap),
            _ => self.comb(heap, t),
        }
    }

    /// Runs the machine for at most `timeslice` steps.
    ///
    /// Returns the literal when the task completes within the slice, the
    /// error when it fails, and nothing when the slice runs out, in which
    /// case the task can be run again.  A task that has completed is
    /// balanced: no argument is pending, no frame is suspended and no
    /// returned value waits.
    pub fn eval(&mut self, heap: &mut Heap, dict: &Dict, timeslice: i32) -> (out: Outcome)
        requires
            timeslice > 0,
            old(heap).wf(),
            old(self).wf(old(heap)),
            dict.wf(old(heap)),
        ensures
            final(heap).wf(),
            final(heap).extends(old(heap)),
            final(self).wf(final(heap)),
            ({
                let run = run_view(
                    dict.defs(old(heap)),
                    old(self).view(old(heap)),
                    timeslice as nat,
                );
                &&& final(self).view(final(heap)) == run.state
                &&& match run.halt {
                    None => out is None,
                    Some(Ok(v)) => out matches Some(Ok(r)) && final(heap).valid(r) && final(
                        heap
                    ).tree(r) == v && run.state.balanced(),
                    Some(Err(e)) => out == Some::<Result<TermRef, EvalError>>(Err(e)),
                }
            }),
    {
        let ghost defs = dict.defs(heap);
        let ghost s0 = self.view(heap);
        let mut i: i32 = 0;
        while i < timeslice
            invariant
                0 <= i <= timeslice,
                heap.wf(),
                heap.extends(old(heap)),
                self.wf(heap),
                dict.wf(heap),
                dict.defs(heap) == defs,
                defs == dict.defs(old(heap)),
                s0 == old(self).view(old(heap)),
                run_view(defs, self.view(heap), (timeslice - i) as nat) == run_view(
                    defs,
                    s0,
                    timeslice as nat,
                ),
            decreases timeslice - i,
        {
            let ghost before = *heap;
            let ghost s = self.view(heap);
            let out = self.step(heap, dict);
            proof {
                dict.lemma_extends(&before, heap);
                lemma_run_wf(defs, s, (timeslice - i) as nat);
            }
            match out {
                Some(r) => {
                    proof {
                        let k = (timeslice - i) as nat;
                        assert(k > 0);
                        assert(step_view(defs, s) !is Next);
                        assert(run_view(defs, s, k).state == s);
                        assert(self.view(heap) == s);
                    }
                    return Some(r);
                },
                None => {},
            }
            i = i + 1;
        }
        None
    }
}

/// The result of a primitive on two integers, with wrapping arithmetic;
/// `None` for a division by zero.
fn apply_int(op: Term, a: i64, b: i64) -> (r: Option<Term>)
    ensures
        r == int_op(op, a, b),
{
    match op {
        Term::AddI => Some(Term::DInt(a.wrapping_add(b))),
        Term::SubI => Some(Term::DInt(a.wrapping_sub(b))),
        Term::MulI => Some(Term::DInt(a.wrapping_mul(b))),
        Term::DivI => {
            if b == 0 {
                None
            } else {
                match a.checked_div(b) {
                    Some(q) => Some(Term::DInt(q)),
                    None => Some(Term::DInt(i64::MIN)),
                }
            }
        },
        Term::GrtI => Some(Term::DBool(a > b)),
        Term::LssI => Some(Term::DBool(a < b)),
        Term::EqlI => Some(Term::DBool(a == b)),
        _ => None,
    }
}

/// Copies every term of a task onto the current page: the focus, each stack
/// entry and the returned value.  The state of the task is unchanged.  The
/// copies share no slot with the terms that the store held before, and lie
/// on the page that was current or on pages made since.  The store has
/// grown by allocation alone.
pub fn task_copy(task: &mut Task, heap: &mut Heap)
    requires
        old(heap).wf(),
        old(task).valid(old(heap)),
    ensures
        final(heap).wf(),
        final(heap).extends(old(heap)),
        final(heap).grows_from(old(heap)),
        final(task).valid(final(heap)),
        final(task).view(final(heap)) == old(task).view(old(heap)),
        final(task).fresh(old(heap).current_page()),
        final(task).apart(final(heap), old(heap)),
{
    let ghost stack0 = task.stack@;
    let ghost view0 = task.view(heap);
    let ghost c0 = heap.current_page();
    task.with = term_copy(heap, task.with);
    let n = task.stack.len();
    let mut i: usize = 0;
    while i < n
        invariant
            i <= n,
            n == stack0.len(),
            task.stack@.len() == n,
            old(heap).wf(),
            heap.wf(),
            heap.grows_from(old(heap)),
            c0 == old(heap).current_page(),
            all_valid(old(heap), stack0),
            task.frame == old(task).frame,
            task.len == old(task).len,
            task.ret == old(task).ret,
            heap.valid(task.with),
            heap.tree(task.with) == view0.with,
            task.with.fresh(c0),
            heap.apart(old(heap), task.with),
            view0 == old(task).view(old(heap)),
            view0.stack == trees_of(old(heap), stack0),
            forall|j: int| i <= j < n ==> task.stack@[j] == stack0[j],
            forall|j: int|
                0 <= j < i ==> heap.valid(#[trigger] task.stack@[j]) && heap.tree(task.stack@[j])
                    == old(heap).tree(stack0[j]) && task.stack@[j].fresh(c0) && heap.apart(
                    old(heap),
                    task.stack@[j],
                ),
        decreases n - i,
    {
        let ghost before = *heap;
        let ghost stack_before = task.stack@;
        let ghost with = task.with;
        let r = task.stack[i];
        assert(old(heap).valid(stack0[i as int]));
        let c = term_copy(heap, r);
        task.stack.set(i, c);
        i = i + 1;
        proof {
            heap.lemma_grows_chain(&before, old(heap));
            heap.lemma_apart_older(&before, old(heap), c);
            heap.lemma_apart_kept(&before, old(heap), with);
            assert forall|j: int| 0 <= j < i implies heap.valid(#[trigger] task.stack@[j])
                && heap.tree(task.stack@[j]) == old(heap).tree(stack0[j]) && task.stack@[j].fresh(
                c0,
            ) && heap.apart(old(heap), task.stack@[j]) by {
                if j < i - 1 {
                    assert(task.stack@[j] == stack_before[j]);
                    assert(before.valid(stack_before[j]));
                    heap.lemma_apart_kept(&before, old(heap), stack_before[j]);
                }
            }
        }
    }
    let ghost before = *heap;
    let ghost with = task.with;
    match task.ret {
        Some(ret) => {
            assert(old(heap).valid(ret));
            let c = term_copy(heap, ret);
            task.ret = Some(c);
            proof {
                heap.lemma_grows_chain(&before, old(heap));
                heap.lemma_apart_older(&before, old(heap), c);
            }
        },
        None => {},
    }
    proof {
        heap.lemma_apart_kept(&before, old(heap), with);
        assert forall|j: int| 0 <= j < n implies heap.valid(#[trigger] task.stack@[j])
            && heap.tree(task.stack@[j]) == old(heap).tree(stack0[j]) && heap.apart(
            old(heap),
            task.stack@[j],
        ) by {
            assert(before.valid(task.stack@[j]));
            heap.lemma_apart_kept(&before, old(heap), task.stack@[j]);
        }
        assert(all_fresh(task.stack@, n as int, c0));
        assert(trees_of(heap, task.stack@) =~= view0.stack);
        assert(task.view(heap).frame =~= view0.frame);
        assert(task.view(heap) =~= view0);
    }
}

} // verus!
