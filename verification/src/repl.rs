//! The state of the whole runtime and the execution of commands.

use vstd::prelude::*;
use vstd::string::*;
use vstd::utf8::*;
use crate::compile::{compile_ski, compile_tree, optimize, optimize_tree};
use crate::eval::{EvalError, Task, TaskView, run_view};
use crate::heap::Heap;
use crate::parser::{
    Command, CommandSyntax, Parser, command_at, command_denotes, full, grown, read_command,
};
use crate::symbol::{
    Dict, DictError, Interner, Symb, bound, define, delete, show_dict, update,
};
use crate::task::{TaskPool, send_task};
use crate::term::TermRef;

verus! {

broadcast use vstd::utf8::group_utf8_lib;

/// The number of steps a term is given before it is handed to the pool.
pub const FIRST_SLICE: i32 = 256;

/// Everything that the runtime holds: the store, the dictionary, the table
/// of symbols and the pool of tasks.
pub struct Runtime {
    pub heap: Heap,
    pub dict: Dict,
    pub interner: Interner,
    pub pool: TaskPool,
}

/// How a term that was entered has fared.
pub struct Launch {
    /// The combinator form of the term.
    pub compiled: TermRef,
    /// The combinator form after the optimizer.
    pub optimized: TermRef,
    /// The literal or the error, where the task ended within its first
    /// slice; nothing where it went to the pool.
    pub outcome: Option<Result<TermRef, EvalError>>,
}

/// What the caller is to do after a command.
pub enum Reply {
    /// The line was blank.
    Nothing,
    /// The line is no command.
    Unreadable,
    /// Leave the program.
    Quit,
    /// Show these definitions.
    Listing(Vec<Symb>),
    /// The symbol was defined.
    Defined(Symb),
    /// The symbol was defined anew.
    Updated(Symb),
    /// The definition of the symbol was removed.
    Deleted(Symb),
    /// The symbol was not defined, for this reason.
    NotDefined(Symb, DictError),
    /// The symbol was not defined anew, for this reason.
    NotUpdated(Symb, DictError),
    /// The symbol had no definition to remove.
    NotDeleted(Symb),
    /// Run the commands of the file at this path.
    Load(String),
    /// A term was read as `parsed` and launched.
    Ran(TermRef, Launch),
}

/// Whether a character is white space: a tab, a line feed, a vertical tab,
/// a form feed, a carriage return, a space, a next line, or one of the
/// spaces and separators beyond them.
pub open spec fn is_white(c: char) -> bool {
    let u = c as u32;
    ||| 9 <= u <= 13
    ||| u == 32
    ||| u == 0x85
    ||| u == 0xA0
    ||| u == 0x1680
    ||| 0x2000 <= u <= 0x200A
    ||| u == 0x2028
    ||| u == 0x2029
    ||| u == 0x202F
    ||| u == 0x205F
    ||| u == 0x3000
}

/// The first place from `i` on that holds no white space.
pub open spec fn lead(s: Seq<char>, i: int) -> int
    decreases s.len() - i,
{
    if 0 <= i < s.len() && is_white(s[i]) {
        lead(s, i + 1)
    } else {
        i
    }
}

/// The place after the last character before `j` that is no white space,
/// not looking before `from`.
pub open spec fn tail(s: Seq<char>, j: int, from: int) -> int
    decreases j,
{
    if 0 <= from < j <= s.len() && is_white(s[j - 1]) {
        tail(s, j - 1, from)
    } else {
        j
    }
}

/// The text without the white space at its start and at its end.
pub open spec fn trimmed(s: Seq<char>) -> Seq<char> {
    let from = lead(s, 0);
    s.subrange(from, tail(s, s.len() as int, from))
}

/// Whether a character is white space.
fn is_white_char(c: char) -> (b: bool)
    ensures
        b == is_white(c),
{
    let u = c as u32;
    (9 <= u && u <= 13) || u == 32 || u == 0x85 || u == 0xA0 || u == 0x1680 || (0x2000 <= u && u
        <= 0x200A) || u == 0x2028 || u == 0x2029 || u == 0x202F || u == 0x205F || u == 0x3000
}

/// The text without the white space at its start and at its end.
pub fn trim_text(text: &str) -> (r: &str)
    ensures
        r@ == trimmed(text@),
{
    let n = text.unicode_len();
    let mut from: usize = 0;
    loop
        invariant
            from <= n,
            n == text@.len(),
            lead(text@, from as int) == lead(text@, 0),
        ensures
            from <= n,
            from == lead(text@, 0),
        decreases n - from,
    {
        if from == n {
            break ;
        }
        let c = text.get_char(from);
        if is_white_char(c) {
            from = from + 1;
        } else {
            break ;
        }
    }
    let mut to: usize = n;
    loop
        invariant
            from <= to <= n,
            n == text@.len(),
            tail(text@, to as int, from as int) == tail(text@, n as int, from as int),
        ensures
            from <= to <= n,
            to == tail(text@, n as int, from as int),
        decreases to,
    {
        if to == from {
            break ;
        }
        let c = text.get_char(to - 1);
        if is_white_char(c) {
            to = to - 1;
        } else {
            break ;
        }
    }
    text.substring_char(from, to)
}

impl Runtime {
    /// Every part is well formed, and the tasks and definitions belong to
    /// the store.
    pub open spec fn wf(&self) -> bool {
        &&& self.heap.wf()
        &&& self.dict.wf(&self.heap)
        &&& self.interner.inv()
        &&& self.pool.wf(&self.heap)
    }

    /// A runtime with an empty store, no definition, no symbol and no task.
    pub fn new() -> (rt: Runtime)
        ensures
            rt.wf(),
            rt.dict.entries() == (Map::<Symb, crate::symbol::DictValue>::empty()),
            rt.pool.tasks() == Seq::<Task>::empty(),
            rt.heap.running(),
    {
        let rt = Runtime {
            heap: Heap::new(),
            dict: Dict::new(),
            interner: Interner::new(),
            pool: TaskPool::new(),
        };
        rt
    }
}

/// `after` is `before` after `term` was launched, with `l` the report: the
/// compiled forms denote the combinator form of the term and its optimized
/// form, and the outcome is that of the first slice of a task on the
/// optimized form.  A task that has not ended waits at the back of the pool
/// in the state it has reached.
pub open spec fn launched(before: &Runtime, after: &Runtime, term: TermRef, l: Launch) -> bool {
    let compiled = compile_tree(before.heap.tree(term));
    let run = run_view(
        before.dict.defs(&before.heap),
        TaskView::start(optimize_tree(compiled)),
        FIRST_SLICE as nat,
    );
    &&& after.dict == before.dict
    &&& after.interner == before.interner
    &&& after.heap.valid(l.compiled)
    &&& after.heap.valid(l.optimized)
    &&& after.heap.tree(l.compiled) == compiled
    &&& after.heap.tree(l.optimized) == optimize_tree(compiled)
    &&& match run.halt {
        Some(Ok(v)) => l.outcome matches Some(Ok(r)) && after.heap.valid(r) && after.heap.tree(r)
            == v && after.pool.tasks() == before.pool.tasks(),
        Some(Err(e)) => l.outcome == Some::<Result<TermRef, EvalError>>(Err(e))
            && after.pool.tasks() == before.pool.tasks(),
        None => l.outcome is None && after.pool.views(&after.heap) == before.pool.views(
            &before.heap,
        ).push(run.state),
    }
}

/// Launches a term: it is compiled and optimized, and a task on it runs for
/// `FIRST_SLICE` steps.  A task that has not ended by then goes to the back
/// of the pool, in the state it has reached.
pub fn launch(rt: &mut Runtime, term: TermRef) -> (l: Launch)
    requires
        old(rt).wf(),
        old(rt).heap.valid(term),
    ensures
        final(rt).wf(),
        final(rt).heap.extends(&old(rt).heap),
        launched(old(rt), final(rt), term, l),
{
    let compiled = compile_ski(&mut rt.heap, term);
    let optimized = optimize(&mut rt.heap, compiled);
    let ghost h1 = rt.heap;
    proof {
        rt.dict.lemma_extends(&old(rt).heap, &rt.heap);
        rt.pool.lemma_extends(&old(rt).heap, &rt.heap);
    }
    let mut task = Task::new(optimized);
    assert(task.wf(&rt.heap));
    let outcome = task.eval(&mut rt.heap, &rt.dict, FIRST_SLICE);
    proof {
        rt.dict.lemma_extends(&h1, &rt.heap);
        rt.pool.lemma_extends(&h1, &rt.heap);
    }
    if outcome.is_none() {
        let ghost state = task.view(&rt.heap);
        send_task(&mut rt.pool, task);
        proof {
            assert(rt.pool.views(&rt.heap) =~= old(rt).pool.views(&old(rt).heap).push(state));
        }
    }
    Launch { compiled, optimized, outcome }
}

/// The reply to `:define` fits what `define` did.
pub open spec fn defined(before: &Runtime, after: &Runtime, symb: Symb, text: Seq<char>, reply: Reply) -> bool {
    match reply {
        Reply::Defined(s) => s == symb && !before.dict.entries().contains_key(symb) && bound(
            &before.dict,
            &after.dict,
            &after.heap,
            symb,
            text,
        ),
        Reply::NotDefined(s, e) => s == symb && after.dict.entries() == before.dict.entries()
            && (e == DictError::Exists <==> before.dict.entries().contains_key(symb)) && (e
            == DictError::Exists || e == DictError::Parse),
        _ => false,
    }
}

/// The reply to `:update` fits what `update` did.
pub open spec fn updated(before: &Runtime, after: &Runtime, symb: Symb, text: Seq<char>, reply: Reply) -> bool {
    match reply {
        Reply::Updated(s) => s == symb && before.dict.entries().contains_key(symb) && bound(
            &before.dict,
            &after.dict,
            &after.heap,
            symb,
            text,
        ),
        Reply::NotUpdated(s, e) => s == symb && after.dict.entries() == before.dict.entries()
            && (e == DictError::Missing <==> !before.dict.entries().contains_key(symb)) && (e
            == DictError::Missing || e == DictError::Parse),
        _ => false,
    }
}

/// The reply to `:delete` fits what `delete` did.
pub open spec fn deleted(before: &Runtime, after: &Runtime, symb: Symb, reply: Reply) -> bool {
    match reply {
        Reply::Deleted(s) => s == symb && before.dict.entries().contains_key(symb)
            && after.dict.entries() == before.dict.entries().remove(symb),
        Reply::NotDeleted(s) => s == symb && !before.dict.entries().contains_key(symb)
            && after.dict.entries() == before.dict.entries(),
        _ => false,
    }
}

/// Carries out `:define`.
fn run_define(rt: &mut Runtime, symb: Symb, text: String) -> (reply: Reply)
    requires
        old(rt).wf(),
    ensures
        final(rt).wf(),
        final(rt).heap.extends(&old(rt).heap),
        grown(old(rt).interner.names(), final(rt).interner.names()),
        final(rt).pool == old(rt).pool,
        defined(old(rt), final(rt), symb, text@, reply),
{
    let r = define(&mut rt.dict, &mut rt.heap, &mut rt.interner, symb, text);
    proof {
        rt.pool.lemma_extends(&old(rt).heap, &rt.heap);
    }
    match r {
        Ok(_) => Reply::Defined(symb),
        Err(e) => Reply::NotDefined(symb, e),
    }
}

/// Carries out `:update`.
fn run_update(rt: &mut Runtime, symb: Symb, text: String) -> (reply: Reply)
    requires
        old(rt).wf(),
    ensures
        final(rt).wf(),
        final(rt).heap.extends(&old(rt).heap),
        grown(old(rt).interner.names(), final(rt).interner.names()),
        final(rt).pool == old(rt).pool,
        updated(old(rt), final(rt), symb, text@, reply),
{
    let r = update(&mut rt.dict, &mut rt.heap, &mut rt.interner, symb, text);
    proof {
        rt.pool.lemma_extends(&old(rt).heap, &rt.heap);
    }
    match r {
        Ok(_) => Reply::Updated(symb),
        Err(e) => Reply::NotUpdated(symb, e),
    }
}

/// Carries out `:delete`.
fn run_delete(rt: &mut Runtime, symb: Symb) -> (reply: Reply)
    requires
        old(rt).wf(),
    ensures
        final(rt).wf(),
        final(rt).heap == old(rt).heap,
        final(rt).interner == old(rt).interner,
        final(rt).pool == old(rt).pool,
        deleted(old(rt), final(rt), symb, reply),
{
    let r = delete(&mut rt.dict, symb);
    proof {
        assert forall|s: Symb| #[trigger]
            rt.dict.entries().contains_key(s) implies rt.dict.entries()[s].wf(&rt.heap) by {
            assert(old(rt).dict.entries().contains_key(s));
        }
    }
    match r {
        Ok(_) => Reply::Deleted(symb),
        Err(_) => Reply::NotDeleted(symb),
    }
}

/// `after` and `reply` are what carrying out `command` in `before` gives.
///
/// `Quit`, `Dict` and `Load` change nothing and ask the caller to act.
/// `Define`, `Update` and `Delete` change the dictionary as `define`,
/// `update` and `delete` do, and a refusal is passed on.  `Repl` launches
/// its term.
pub open spec fn carried_out(
    before: &Runtime,
    after: &Runtime,
    command: Command,
    reply: Reply,
) -> bool {
    &&& match command {
        Command::Quit => reply is Quit && *after == *before,
        Command::Dict => reply matches Reply::Listing(v) && v@ == before.dict.symbols() && *after
            == *before,
        Command::Load(path) => reply matches Reply::Load(p) && p == path && *after == *before,
        Command::Define(symb, text) => defined(before, after, symb, text@, reply),
        Command::Update(symb, text) => updated(before, after, symb, text@, reply),
        Command::Delete(symb) => deleted(before, after, symb, reply),
        Command::Repl(term) => reply matches Reply::Ran(parsed, l) && parsed == term && launched(
            before,
            after,
            term,
            l,
        ),
    }
    &&& !(command is Repl) ==> after.pool == before.pool
    &&& command is Quit || command is Dict || command is Load || command is Repl ==> after.dict
        == before.dict
}

/// Carries out a command.
pub fn execute(rt: &mut Runtime, command: Command) -> (reply: Reply)
    requires
        old(rt).wf(),
        command matches Command::Repl(t) ==> old(rt).heap.valid(t),
    ensures
        final(rt).wf(),
        final(rt).heap.extends(&old(rt).heap),
        grown(old(rt).interner.names(), final(rt).interner.names()),
        carried_out(old(rt), final(rt), command, reply),
{
    match command {
        Command::Quit => Reply::Quit,
        Command::Dict => Reply::Listing(show_dict(&rt.dict)),
        Command::Load(path) => Reply::Load(path),
        Command::Define(symb, text) => run_define(rt, symb, text),
        Command::Update(symb, text) => run_update(rt, symb, text),
        Command::Delete(symb) => run_delete(rt, symb),
        Command::Repl(term) => {
            let l = launch(rt, term);
            Reply::Ran(term, l)
        },
    }
}

/// Reads one line as a command and carries it out.
///
/// The line is read without the white space at its ends.  A line that is
/// blank then does nothing.  A line that is no
/// command is unreadable and, but for symbols and terms made while reading,
/// changes nothing.  Any other line is carried out as `execute` carries out
/// the command read, from the state that reading has left.
pub fn command_line(rt: &mut Runtime, input: String) -> (reply: Reply)
    requires
        old(rt).wf(),
    ensures
        final(rt).wf(),
        final(rt).heap.extends(&old(rt).heap),
        grown(old(rt).interner.names(), final(rt).interner.names()),
        trimmed(input@).len() == 0 ==> reply is Nothing && *final(rt) == *old(rt),
        trimmed(input@).len() > 0 ==> !(reply is Nothing),
        reply is Unreadable ==> final(rt).dict == old(rt).dict && final(rt).pool == old(rt).pool,
        reply is Nothing || reply is Unreadable || exists|command: Command, read: Runtime|
            {
                &&& read.wf()
                &&& read.heap.extends(&old(rt).heap)
                &&& read.dict == old(rt).dict
                &&& read.pool == old(rt).pool
                &&& grown(old(rt).interner.names(), read.interner.names())
                &&& #[trigger] carried_out(&read, final(rt), command, reply)
                &&& !full(read.interner.names()) ==> (command_at(
                    encode_utf8(trimmed(input@)),
                    0,
                ) matches Some(c) && command_denotes(
                    read.interner.names(),
                    &read.heap,
                    command,
                    c,
                ))
            },
        trimmed(input@).len() > 0 && !full(final(rt).interner.names()) ==> (reply is Unreadable
            <==> command_at(encode_utf8(trimmed(input@)), 0) is None),
{
    let text = trim_text(input.as_str());
    if text.unicode_len() == 0 {
        return Reply::Nothing;
    }
    let mut par = Parser::new(text.to_owned());
    let ghost names0 = rt.interner.names();
    match read_command(&mut par, &mut rt.heap, &mut rt.interner) {
        Some(command) => {
            let ghost names1 = rt.interner.names();
            let ghost read = *rt;
            proof {
                rt.dict.lemma_extends(&old(rt).heap, &rt.heap);
                rt.pool.lemma_extends(&old(rt).heap, &rt.heap);
            }
            let reply = execute(rt, command);
            proof {
                assert(carried_out(&read, rt, command, reply));
                if !full(rt.interner.names()) {
                    if full(names1) {
                        crate::parser::lemma_full_grown(names1, rt.interner.names());
                    }
                }
            }
            reply
        },
        None => {
            proof {
                rt.dict.lemma_extends(&old(rt).heap, &rt.heap);
                rt.pool.lemma_extends(&old(rt).heap, &rt.heap);
            }
            Reply::Unreadable
        },
    }
}

/// The first place from `i` on at which two semicolons stand; the length of
/// the text where there is none.
pub open spec fn next_break(t: Seq<u8>, i: int) -> int
    decreases t.len() - i,
{
    if i < 0 || i + 2 > t.len() {
        t.len() as int
    } else if t[i] == 59 && t[i + 1] == 59 {
        i
    } else {
        next_break(t, i + 1)
    }
}

/// The pieces of the text from `i` on that two semicolons part.
pub open spec fn pieces(t: Seq<u8>, i: int) -> Seq<Seq<u8>>
    decreases t.len() - i,
{
    let j = next_break(t, i);
    if 0 <= i <= j && j + 2 <= t.len() {
        seq![t.subrange(i, j)] + pieces(t, j + 2)
    } else {
        seq![t.subrange(i, t.len() as int)]
    }
}

/// The next break lies at or after `i`, inside the text or at its end.
pub proof fn lemma_next_break(t: Seq<u8>, i: int)
    requires
        0 <= i <= t.len(),
    ensures
        i <= next_break(t, i) <= t.len(),
        next_break(t, i) < t.len() ==> next_break(t, i) + 2 <= t.len() && t[next_break(t, i)] == 59
            && t[next_break(t, i) + 1] == 59,
    decreases t.len() - i,
{
    if i + 2 <= t.len() && !(t[i] == 59 && t[i + 1] == 59) {
        lemma_next_break(t, i + 1);
    }
}

/// Splits the text of a file into its commands: the pieces that two
/// semicolons part, in order.  A text without such a break is one piece.
pub fn split_commands(text: &str) -> (v: Vec<String>)
    ensures
        v@.map_values(|s: String| encode_utf8(s@)) == pieces(encode_utf8(text@), 0),
{
    let ghost t = encode_utf8(text@);
    let bytes = text.as_bytes();
    let n = bytes.len();
    let mut v: Vec<String> = Vec::new();
    let mut start: usize = 0;
    let mut i: usize = 0;
    loop
        invariant_except_break
            v@.map_values(|s: String| encode_utf8(s@)) + pieces(t, start as int) == pieces(t, 0),
        invariant
            bytes@ == t,
            t == encode_utf8(text@),
            n == t.len(),
            start <= i <= n,
            is_char_boundary(t, start as int),
            next_break(t, i as int) == next_break(t, start as int),
        ensures
            v@.map_values(|s: String| encode_utf8(s@)) == pieces(t, 0),
        decreases n - i,
    {
        if n - i >= 2 && bytes[i] == 59 && bytes[i + 1] == 59 {
            proof {
                lemma_boundary_in(t, start as int, i as int);
                crate::parser::lemma_ascii_step(t, i as int);
                crate::parser::lemma_ascii_step(t, i + 1);
            }
            let piece = cut(text, start, i);
            let ghost before = v@.map_values(|s: String| encode_utf8(s@));
            v.push(piece);
            proof {
                assert(v@.map_values(|s: String| encode_utf8(s@)) =~= before.push(
                    t.subrange(start as int, i as int),
                ));
                assert(before.push(t.subrange(start as int, i as int)) + pieces(t, i + 2)
                    =~= before + (seq![t.subrange(start as int, i as int)] + pieces(t, i + 2)));
            }
            i = i + 2;
            start = i;
        } else if i < n {
            i = i + 1;
        } else {
            proof {
                lemma_boundary_in(t, start as int, n as int);
            }
            let piece = cut(text, start, n);
            let ghost before = v@.map_values(|s: String| encode_utf8(s@));
            v.push(piece);
            proof {
                lemma_next_break(t, start as int);
                assert(v@.map_values(|s: String| encode_utf8(s@)) =~= before.push(
                    t.subrange(start as int, n as int),
                ));
                assert(before.push(t.subrange(start as int, n as int)) =~= before + seq![
                    t.subrange(start as int, n as int),
                ]);
            }
            break ;
        }
    }
    v
}

/// A place that holds a semicolon, or the end of the text, starts a
/// character.
proof fn lemma_boundary_in(t: Seq<u8>, start: int, i: int)
    requires
        valid_utf8(t),
        0 <= start <= i <= t.len(),
        i < t.len() ==> t[i] == 59,
    ensures
        is_char_boundary(t, i),
{
    if i < t.len() {
        is_char_boundary_iff_not_is_continuation_byte(t, i);
    } else {
        is_char_boundary_start_end_of_seq(t);
    }
}

/// The part of the text from `from` up to `to`.
fn cut(text: &str, from: usize, to: usize) -> (s: String)
    requires
        from <= to <= encode_utf8(text@).len(),
        is_char_boundary(encode_utf8(text@), from as int),
        is_char_boundary(encode_utf8(text@), to as int),
    ensures
        encode_utf8(s@) == encode_utf8(text@).subrange(from as int, to as int),
{
    let ghost t = encode_utf8(text@);
    let (head, _) = text.split_at(to);
    proof {
        assert(head.spec_bytes() =~= t.subrange(0, to as int));
        crate::parser::lemma_boundary_prefix(t, from as int, to as int);
    }
    let (_, piece) = head.split_at(from);
    proof {
        assert(piece.spec_bytes() =~= t.subrange(from as int, to as int));
    }
    piece.to_owned()
}

} // verus!
