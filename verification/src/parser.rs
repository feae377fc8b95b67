//! The reader of terms and commands.

use vstd::prelude::*;
use vstd::string::*;
use vstd::utf8::*;
use regex::Regex;
use crate::symbol::{Interner, Symb};
use crate::term::{Constant, Term, TermRef, Tree, app, dint, lam, t_app, t_const, t_lam, var};
use crate::heap::Heap;

verus! {

broadcast use vstd::utf8::group_utf8_lib;

/// A text under reading, and the byte at which reading stands.
#[derive(Debug)]
pub struct Parser {
    text: String,
    index: usize,
}

/// Whether a byte is a blank: a space, a line feed, a carriage return or a
/// tab.
pub open spec fn is_space(b: u8) -> bool {
    b == 32 || b == 10 || b == 13 || b == 9
}

/// The first place from `i` on that holds no blank.
pub open spec fn skip(t: Seq<u8>, i: int) -> int
    decreases t.len() - i,
{
    if 0 <= i < t.len() && is_space(t[i]) {
        skip(t, i + 1)
    } else {
        i
    }
}

/// After a byte below 128 that starts a character, the next character
/// starts.
pub proof fn lemma_ascii_step(bytes: Seq<u8>, i: int)
    requires
        valid_utf8(bytes),
        is_char_boundary(bytes, i),
        0 <= i < bytes.len(),
        bytes[i] < 128,
    ensures
        is_char_boundary(bytes, i + 1),
    decreases bytes.len(),
{
    reveal_with_fuel(valid_utf8, 2);
    reveal_with_fuel(is_char_boundary, 2);
    let tail = pop_first_scalar(bytes);
    let first = length_of_first_scalar(bytes);
    if i == 0 {
        assert(first == 1);
        assert(is_char_boundary(tail, 0));
    } else {
        assert(is_char_boundary(tail, i - first));
        assert(i - first >= 0);
        assert(tail[i - first] == bytes[i]);
        lemma_ascii_step(tail, i - first);
        assert(is_char_boundary(tail, i - first + 1));
    }
}

/// Where the first match of a pattern lies in a text, by the byte at which
/// it starts and the byte after its end; nothing where the pattern matches
/// nowhere or is no valid pattern.
pub uninterp spec fn regex_find(pattern: Seq<char>, hay: Seq<char>) -> Option<(nat, nat)>;

/// `Regex::new` and `Regex::find`: the byte offsets of the first match of
/// `pattern` in `hay`.
#[verifier::external_body]
fn regex_find_first(pattern: &str, hay: &str) -> (r: Option<(usize, usize)>)
    ensures
        match r {
            Some((start, end)) => regex_find(pattern@, hay@) == Some((start as nat, end as nat)),
            None => regex_find(pattern@, hay@) is None,
        },
{
    match Regex::new(pattern) {
        Ok(re) => re.find(hay).map(|m| (m.start(), m.end())),
        Err(_) => None,
    }
}

/// A place in the rest of a text from a character's start on is a
/// character's start exactly when it is one in the whole text.
pub proof fn lemma_boundary_shift(bytes: Seq<u8>, i: int, e: int)
    requires
        valid_utf8(bytes),
        is_char_boundary(bytes, i),
        0 <= i,
        0 <= e,
        i + e <= bytes.len(),
    ensures
        valid_utf8(bytes.subrange(i, bytes.len() as int)),
        is_char_boundary(bytes.subrange(i, bytes.len() as int), e) <==> is_char_boundary(
            bytes,
            i + e,
        ),
    decreases bytes.len(),
{
    reveal_with_fuel(valid_utf8, 2);
    reveal_with_fuel(is_char_boundary, 2);
    valid_utf8_split(bytes, i);
    if i == 0 {
        assert(bytes.subrange(0, bytes.len() as int) =~= bytes);
    } else {
        let tail = pop_first_scalar(bytes);
        let first = length_of_first_scalar(bytes);
        assert(is_char_boundary(tail, i - first));
        assert(i - first >= 0);
        lemma_boundary_shift(tail, i - first, e);
        assert(tail.subrange(i - first, tail.len() as int) =~= bytes.subrange(
            i,
            bytes.len() as int,
        ));
    }
}

/// A character's start in a text that ends at a character's start is one
/// in the text up to that end.
pub proof fn lemma_boundary_prefix(bytes: Seq<u8>, i: int, e: int)
    requires
        valid_utf8(bytes),
        is_char_boundary(bytes, i),
        is_char_boundary(bytes, e),
        0 <= i <= e <= bytes.len(),
    ensures
        valid_utf8(bytes.subrange(0, e)),
        is_char_boundary(bytes.subrange(0, e), i),
    decreases bytes.len(),
{
    reveal_with_fuel(valid_utf8, 2);
    reveal_with_fuel(is_char_boundary, 2);
    valid_utf8_split(bytes, e);
    if i == 0 {
    } else {
        let tail = pop_first_scalar(bytes);
        let first = length_of_first_scalar(bytes);
        assert(is_char_boundary(tail, i - first));
        assert(i - first >= 0);
        assert(is_char_boundary(tail, e - first));
        lemma_boundary_prefix(tail, i - first, e - first);
        let head = bytes.subrange(0, e);
        assert(length_of_first_scalar(head) == first);
        assert(pop_first_scalar(head) =~= tail.subrange(0, e - first));
    }
}

/// The place after the bytes `s`, where the text holds them at `i` and a
/// character starts after them.
pub open spec fn lit(t: Seq<u8>, i: int, s: Seq<u8>) -> Option<int> {
    if 0 <= i && i + s.len() <= t.len() && t.subrange(i, i + s.len()) == s && is_char_boundary(
        t,
        i + s.len(),
    ) {
        Some(i + s.len())
    } else {
        None
    }
}

/// The text that `pattern` matches at `i`, and the place after it: the
/// first match in the rest of the text, where it starts at once, is not
/// empty and ends inside the text at the start of a character.
pub open spec fn word(t: Seq<u8>, i: int, pattern: Seq<char>) -> Option<(Seq<char>, int)> {
    match regex_find(pattern, decode_utf8(t.subrange(i, t.len() as int))) {
        Some((start, end)) => if start == 0 && 0 < end && i + end <= t.len() && is_char_boundary(
            t,
            i + end,
        ) {
            Some((decode_utf8(t.subrange(i, i + end)), i + end))
        } else {
            None
        },
        None => None,
    }
}

/// The number that a text of decimal digits denotes, where it is one.
pub open spec fn decimal(s: Seq<char>) -> Option<int>
    decreases s.len(),
{
    if s.len() == 0 {
        Some(0int)
    } else {
        let c = s.last();
        match decimal(s.drop_last()) {
            Some(v) => if '0' <= c <= '9' {
                Some(10 * v + (c as int - '0' as int))
            } else {
                None
            },
            None => None,
        }
    }
}

/// The integer that a text denotes: its decimal value, where that is at
/// most the greatest 64-bit integer.
pub open spec fn int_value(s: Seq<char>) -> Option<i64> {
    match decimal(s) {
        Some(v) => if s.len() > 0 && v <= i64::MAX {
            Some(v as i64)
        } else {
            None
        },
        None => None,
    }
}

/// The pattern of an integer.
pub open spec fn int_pattern() -> Seq<char> {
    "^\\d+"@
}

/// The pattern of a name.
pub open spec fn name_pattern() -> Seq<char> {
    "^[_A-Za-z][_A-Za-z0-9]*"@
}

/// The pattern of a path.
pub open spec fn path_pattern() -> Seq<char> {
    "^.+"@
}

impl Parser {
    /// The bytes of the text.
    pub closed spec fn input(&self) -> Seq<u8> {
        encode_utf8(self.text@)
    }

    /// The place at which reading stands.
    pub closed spec fn pos(&self) -> int {
        self.index as int
    }

    /// Reading stands inside the text, at the start of a character.
    pub closed spec fn wf(&self) -> bool {
        &&& self.index <= self.input().len()
        &&& is_char_boundary(self.input(), self.index as int)
    }

    /// A reader at the start of `str`.
    pub fn new(str: String) -> (p: Parser)
        ensures
            p.wf(),
            p.pos() == 0,
            p.input() == encode_utf8(str@),
    {
        Parser { text: str, index: 0 }
    }

    /// Whether the text has been read to its end.
    pub fn is_end(&mut self) -> (r: Option<()>)
        requires
            old(self).wf(),
        ensures
            *final(self) == *old(self),
            r is Some <==> old(self).pos() == old(self).input().len(),
    {
        if self.index == self.text.as_str().as_bytes().len() {
            Some(())
        } else {
            None
        }
    }

    /// Moves past the blanks at which reading stands.
    pub fn skip_space(&mut self)
        requires
            old(self).wf(),
        ensures
            final(self).wf(),
            final(self).input() == old(self).input(),
            final(self).pos() == skip(old(self).input(), old(self).pos()),
            final(self).pos() >= old(self).pos(),
    {
        loop
            invariant
                self.wf(),
                self.text == old(self).text,
                old(self).pos() <= self.pos(),
                skip(self.input(), self.pos()) == skip(old(self).input(), old(self).pos()),
            ensures
                self.wf(),
                self.text == old(self).text,
                old(self).pos() <= self.pos(),
                self.pos() == skip(old(self).input(), old(self).pos()),
            decreases self.input().len() - self.pos(),
        {
            let bytes = self.text.as_str().as_bytes();
            if self.index == bytes.len() {
                break ;
            }
            let b = bytes[self.index];
            if b == 32 || b == 10 || b == 13 || b == 9 {
                proof {
                    lemma_ascii_step(self.input(), self.index as int);
                }
                self.index = self.index + 1;
            } else {
                break ;
            }
        }
    }

    /// Reads the text `string`, where it stands next: moves past it and
    /// returns a value.  Otherwise nothing is read.
    pub fn read_string(&mut self, string: &str) -> (r: Option<()>)
        requires
            old(self).wf(),
        ensures
            final(self).wf(),
            final(self).input() == old(self).input(),
            match lit(old(self).input(), old(self).pos(), encode_utf8(string@)) {
                Some(j) => r is Some && final(self).pos() == j,
                None => r is None && final(self).pos() == old(self).pos(),
            },
    {
        let t = self.text.as_str().as_bytes();
        let s = string.as_bytes();
        let n = s.len();
        if n > t.len() - self.index {
            return None;
        }
        let new_index = self.index + n;
        let mut k: usize = 0;
        while k < n
            invariant
                k <= n,
                n == s@.len(),
                new_index == self.index + n,
                new_index <= t@.len(),
                t@ == self.input(),
                s@ == encode_utf8(string@),
                *self == *old(self),
                self.wf(),
                forall|j: int| 0 <= j < k ==> t@[self.index + j] == s@[j],
            decreases n - k,
        {
            if t[self.index + k] != s[k] {
                proof {
                    let sub = t@.subrange(self.index as int, new_index as int);
                    assert(sub[k as int] != s@[k as int]);
                }
                return None;
            }
            k = k + 1;
        }
        assert(t@.subrange(self.index as int, new_index as int) =~= s@);
        if !self.text.as_str().is_char_boundary(new_index) {
            return None;
        }
        self.index = new_index;
        Some(())
    }

    /// Reads what `pattern` matches, where it matches the text that stands
    /// next: moves past the match and returns it.  Otherwise nothing is
    /// read.
    pub fn read_regex(&mut self, pattern: &str) -> (r: Option<String>)
        requires
            old(self).wf(),
        ensures
            final(self).wf(),
            final(self).input() == old(self).input(),
            match word(old(self).input(), old(self).pos(), pattern@) {
                Some((found, j)) => r matches Some(s) && s@ == found && final(self).pos() == j,
                None => r is None && final(self).pos() == old(self).pos(),
            },
            r is Some ==> final(self).pos() > old(self).pos(),
    {
        let ghost t = self.input();
        let ghost i = self.index as int;
        let total = self.text.as_str().as_bytes().len();
        let (_, rest) = self.text.as_str().split_at(self.index);
        proof {
            lemma_boundary_shift(t, i, 0);
            assert(rest.spec_bytes().len() == total - self.index);
            assert(rest@ == decode_utf8(t.subrange(i, t.len() as int)));
        }
        match regex_find_first(pattern, rest) {
            Some((start, end)) => {
                if start == 0 && 0 < end && end <= rest.as_bytes().len() {
                    proof {
                        lemma_boundary_shift(t, i, end as int);
                    }
                    if rest.is_char_boundary(end) {
                        let (found, _) = rest.split_at(end);
                        proof {
                            assert(found.spec_bytes() =~= t.subrange(i, i + end));
                            assert(found@ == decode_utf8(t.subrange(i, i + end)));
                        }
                        let owned = found.to_owned();
                        self.index = self.index + end;
                        return Some(owned);
                    }
                }
                None
            },
            None => None,
        }
    }

    /// The rest of the text, from where reading stands.
    pub fn get_rest(&mut self) -> (r: String)
        requires
            old(self).wf(),
        ensures
            *final(self) == *old(self),
            encode_utf8(r@) == old(self).input().subrange(
                old(self).pos(),
                old(self).input().len() as int,
            ),
    {
        let (_, rest) = self.text.as_str().split_at(self.index);
        rest.to_owned()
    }
}

/// The value of a text of decimal digits, where it is at most the greatest
/// 64-bit integer.
pub fn parse_decimal(text: &str) -> (r: Option<i64>)
    ensures
        r == int_value(text@),
{
    let n = text.unicode_len();
    if n == 0 {
        return None;
    }
    let mut value: i64 = 0;
    let mut k: usize = 0;
    while k < n
        invariant
            k <= n,
            n == text@.len(),
            decimal(text@.take(k as int)) == Some(value as int),
            value >= 0,
        decreases n - k,
    {
        let c = text.get_char(k);
        proof {
            assert(text@.take(k + 1).drop_last() =~= text@.take(k as int));
            assert(text@.take(k + 1).last() == c);
        }
        if c < '0' || c > '9' {
            proof {
                lemma_decimal_fails(text@, k as int);
            }
            return None;
        }
        let d = (c as u32 - '0' as u32) as i64;
        if value > (i64::MAX - d) / 10 {
            proof {
                lemma_decimal_grows(text@, k + 1);
                assert(text@.take(n as int) =~= text@);
            }
            return None;
        }
        value = value * 10 + d;
        k = k + 1;
    }
    assert(text@.take(n as int) =~= text@);
    Some(value)
}

/// A text with a character that is no digit denotes no number.
pub proof fn lemma_decimal_fails(s: Seq<char>, k: int)
    requires
        0 <= k < s.len(),
        !('0' <= s[k] <= '9'),
    ensures
        decimal(s) is None,
    decreases s.len(),
{
    if k == s.len() - 1 {
    } else {
        lemma_decimal_fails(s.drop_last(), k);
    }
}

/// The number of a text is at least the number of each of its beginnings.
pub proof fn lemma_decimal_grows(s: Seq<char>, k: int)
    requires
        0 <= k <= s.len(),
    ensures
        decimal(s) matches Some(v) ==> decimal(s.take(k)) matches Some(w) && 0 <= w <= v,
    decreases s.len(),
{
    if k == s.len() {
        assert(s.take(k) =~= s);
        lemma_decimal_nonneg(s);
    } else {
        lemma_decimal_grows(s.drop_last(), k);
        assert(s.drop_last().take(k) =~= s.take(k));
    }
}

/// The number of a text is not negative.
pub proof fn lemma_decimal_nonneg(s: Seq<char>)
    ensures
        decimal(s) matches Some(v) ==> v >= 0,
    decreases s.len(),
{
    if s.len() > 0 {
        lemma_decimal_nonneg(s.drop_last());
    }
}

/// Reads an integer: decimal digits whose value is at most the greatest
/// 64-bit integer.  Otherwise nothing is read.
pub fn read_int(par: &mut Parser) -> (r: Option<i64>)
    requires
        old(par).wf(),
    ensures
        final(par).wf(),
        final(par).input() == old(par).input(),
        match int_at(old(par).input(), old(par).pos()) {
            Some((v, j)) => r == Some(v) && final(par).pos() == j,
            None => r is None && final(par).pos() == old(par).pos(),
        },
        r is Some ==> final(par).pos() > old(par).pos(),
{
    let record = par.index;
    match par.read_regex("^\\d+") {
        Some(digits) => match parse_decimal(digits.as_str()) {
            Some(v) => Some(v),
            None => {
                par.index = record;
                None
            },
        },
        None => None,
    }
}

/// The integer at `i` and the place after it.
pub open spec fn int_at(t: Seq<u8>, i: int) -> Option<(i64, int)> {
    match word(t, i, int_pattern()) {
        Some((digits, j)) => match int_value(digits) {
            Some(v) => Some((v, j)),
            None => None,
        },
        None => None,
    }
}

/// The name at `i` and the place after it.
pub open spec fn name_at(t: Seq<u8>, i: int) -> Option<(Seq<char>, int)> {
    word(t, i, name_pattern())
}

/// Every number names a symbol: the table has no room for another.
pub open spec fn full(names: Map<u32, Seq<char>>) -> bool {
    forall|id: u32| names.contains_key(id)
}

/// The table `new` holds every symbol of `old`.
pub open spec fn grown(old: Map<u32, Seq<char>>, new: Map<u32, Seq<char>>) -> bool {
    forall|id: u32| #[trigger] old.contains_key(id) ==> new.contains_key(id) && new[id] == old[id]
}

/// Reads a name and returns its symbol, which is made if the name has none
/// yet.  Otherwise nothing is read; so too where the table has no room for
/// a new symbol.
pub fn read_symb(par: &mut Parser, interner: &mut Interner) -> (r: Option<Symb>)
    requires
        old(par).wf(),
        old(interner).inv(),
    ensures
        final(par).wf(),
        final(par).input() == old(par).input(),
        final(interner).inv(),
        grown(old(interner).names(), final(interner).names()),
        r is Some ==> final(par).pos() > old(par).pos(),
        r is None ==> final(par).pos() == old(par).pos(),
        r matches Some(s) ==> final(interner).names().contains_key(s.0),
        !full(final(interner).names()) ==> match name_at(old(par).input(), old(par).pos()) {
            Some((name, j)) => r matches Some(s) && final(interner).names()[s.0] == name && final(par).pos() == j,
            None => r is None,
        },
{
    let record = par.index;
    match par.read_regex("^[_A-Za-z][_A-Za-z0-9]*") {
        Some(name) => match Symb::new(interner, name.as_str()) {
            Some(s) => Some(s),
            None => {
                par.index = record;
                None
            },
        },
        None => None,
    }
}

/// Reads a path: the rest of the line.  Otherwise nothing is read.
pub fn read_path(par: &mut Parser) -> (r: Option<String>)
    requires
        old(par).wf(),
    ensures
        final(par).wf(),
        final(par).input() == old(par).input(),
        match word(old(par).input(), old(par).pos(), path_pattern()) {
            Some((path, j)) => r matches Some(s) && s@ == path && final(par).pos() == j,
            None => r is None && final(par).pos() == old(par).pos(),
        },
{
    par.read_regex("^.+")
}

impl Parser {
    /// Runs `func`; where it reads nothing, reading goes back to where it
    /// stood.  The result is a result of `func` on the reader as it was; where
    /// something was read, the reader is as `func` left it.
    pub fn try_read<T, F: Fn(&mut Parser) -> Option<T>>(&mut self, func: F) -> (r: Option<T>)
        requires
            old(self).wf(),
            forall|p: &mut Parser| p.wf() ==> #[trigger] call_requires(func, (p,)),
            forall|p: &mut Parser, out: Option<T>| #[trigger]
                call_ensures(func, (p,), out) ==> final(p).wf() && final(p).input() == p.input(),
        ensures
            final(self).wf(),
            final(self).input() == old(self).input(),
            r is None ==> final(self).pos() == old(self).pos(),
            exists|p: &mut Parser| #[trigger]
                call_ensures(func, (p,), r) && *p == *old(self) && (r is Some ==> *final(p)
                    == *final(self)),
    {
        let record = self.index;
        let r = func(self);
        if r.is_none() {
            self.index = record;
        }
        r
    }

    /// Runs the functions in turn, each from where reading stood, until one
    /// reads something.  The result is the result of that function, and the
    /// reader is as it left it; every function before it read nothing.
    /// Where none reads anything, reading stands where it stood.
    pub fn try_read_many<T, F: Fn(&mut Parser) -> Option<T>>(&mut self, funcs: Vec<F>) -> (r:
        Option<T>)
        requires
            old(self).wf(),
            forall|k: int, p: &mut Parser|
                0 <= k < funcs.len() && p.wf() ==> #[trigger] call_requires(funcs[k], (p,)),
            forall|k: int, p: &mut Parser, out: Option<T>|
                0 <= k < funcs.len() && #[trigger] call_ensures(funcs[k], (p,), out) ==> final(
                    p
                ).wf() && final(p).input() == p.input(),
        ensures
            final(self).wf(),
            final(self).input() == old(self).input(),
            r is None ==> final(self).pos() == old(self).pos(),
            r is None ==> forall|k: int|
                0 <= k < funcs.len() ==> declines(
                    #[trigger] funcs[k],
                    old(self).input(),
                    old(self).pos(),
                ),
            r is Some ==> exists|n: int, p: &mut Parser|
                {
                    &&& 0 <= n < funcs.len()
                    &&& #[trigger] call_ensures(funcs[n], (p,), r)
                    &&& p.input() == old(self).input()
                    &&& p.pos() == old(self).pos()
                    &&& *final(p) == *final(self)
                    &&& forall|k: int|
                        0 <= k < n ==> declines(
                            #[trigger] funcs[k],
                            old(self).input(),
                            old(self).pos(),
                        )
                },
    {
        let record = self.index;
        let mut i: usize = 0;
        while i < funcs.len()
            invariant
                i <= funcs.len(),
                self.wf(),
                self.input() == old(self).input(),
                self.index == record,
                record == old(self).pos(),
                forall|k: int, p: &mut Parser|
                    0 <= k < funcs.len() && p.wf() ==> #[trigger] call_requires(funcs[k], (p,)),
                forall|k: int, p: &mut Parser, out: Option<T>|
                    0 <= k < funcs.len() && #[trigger] call_ensures(funcs[k], (p,), out)
                        ==> final(p).wf() && final(p).input() == p.input(),
                forall|k: int|
                    0 <= k < i ==> declines(
                        #[trigger] funcs[k],
                        old(self).input(),
                        old(self).pos(),
                    ),
            decreases funcs.len() - i,
        {
            let r = (funcs[i])(self);
            if r.is_some() {
                return r;
            }
            self.index = record;
            i = i + 1;
        }
        None
    }
}

/// `func`, run on a reader of `input` that stands at `pos`, can read
/// nothing.
pub open spec fn declines<T, F: Fn(&mut Parser) -> Option<T>>(
    func: F,
    input: Seq<u8>,
    pos: int,
) -> bool {
    exists|p: &mut Parser| #[trigger]
        call_ensures(func, (p,), None::<T>) && p.input() == input && p.pos() == pos
}

/// A term as it is written: with names where the term has symbols.
pub enum Syntax {
    App(Box<Syntax>, Box<Syntax>),
    Lam(Seq<char>, Box<Syntax>),
    Var(Seq<char>),
    Fixed(Tree),
}

/// `tree` is the term written as `syn`, with each name read as the symbol
/// that `names` gives it.
pub open spec fn denotes(names: Map<u32, Seq<char>>, tree: Tree, syn: Syntax) -> bool
    decreases syn,
{
    match syn {
        Syntax::App(f, a) => match tree {
            Tree::App(tf, ta) => denotes(names, *tf, *f) && denotes(names, *ta, *a),
            _ => false,
        },
        Syntax::Lam(x, b) => match tree {
            Tree::Lam(s, tb) => names.contains_key(s.0) && names[s.0] == x && denotes(
                names,
                *tb,
                *b,
            ),
            _ => false,
        },
        Syntax::Var(x) => match tree {
            Tree::Leaf(Term::Var(s)) => names.contains_key(s.0) && names[s.0] == x,
            _ => false,
        },
        Syntax::Fixed(t) => tree == t,
    }
}

/// A term keeps its reading when the table of symbols grows.
pub proof fn lemma_denotes_grown(
    old: Map<u32, Seq<char>>,
    new: Map<u32, Seq<char>>,
    tree: Tree,
    syn: Syntax,
)
    requires
        grown(old, new),
        denotes(old, tree, syn),
    ensures
        denotes(new, tree, syn),
    decreases syn,
{
    match syn {
        Syntax::App(f, a) => {
            match tree {
                Tree::App(tf, ta) => {
                    lemma_denotes_grown(old, new, *tf, *f);
                    lemma_denotes_grown(old, new, *ta, *a);
                },
                _ => {},
            }
        },
        Syntax::Lam(x, b) => {
            match tree {
                Tree::Lam(s, tb) => {
                    assert(old.contains_key(s.0));
                    lemma_denotes_grown(old, new, *tb, *b);
                },
                _ => {},
            }
        },
        Syntax::Var(x) => {
            match tree {
                Tree::Leaf(Term::Var(s)) => {
                    assert(old.contains_key(s.0));
                },
                _ => {},
            }
        },
        Syntax::Fixed(_) => {},
    }
}

/// `E2` applied to a primitive on two operands.
pub open spec fn forced2(k: Constant) -> Tree {
    t_app(t_const(Constant::E2), t_const(k))
}

/// The constant of the token `s` with the place after it, where the text
/// holds the token at `i`; `otherwise` where it does not.  A token is not
/// empty.
pub open spec fn token(
    t: Seq<u8>,
    i: int,
    s: Seq<char>,
    k: Constant,
    otherwise: Option<(Constant, int)>,
) -> Option<(Constant, int)> {
    match lit(t, i, encode_utf8(s)) {
        Some(j) => if j > i {
            Some((k, j))
        } else {
            otherwise
        },
        None => otherwise,
    }
}

/// The combinator or eager marker whose token stands at `i`.  Of two tokens
/// of which one begins the other, the longer is tried first.
pub open spec fn combinator_at(t: Seq<u8>, i: int) -> Option<(Constant, int)> {
    token(t, i, "I"@, Constant::I,
    token(t, i, "K"@, Constant::K,
    token(t, i, "S'"@, Constant::Sp,
    token(t, i, "S"@, Constant::S,
    token(t, i, "B*"@, Constant::Bs,
    token(t, i, "B"@, Constant::B,
    token(t, i, "C'"@, Constant::Cp,
    token(t, i, "C"@, Constant::C,
    token(t, i, "E1"@, Constant::E1,
    token(t, i, "E2"@, Constant::E2,
    token(t, i, "E3"@, Constant::E3,
    None)))))))))))
}

/// The primitive whose token stands at `i`.
pub open spec fn primitive_at(t: Seq<u8>, i: int) -> Option<(Constant, int)> {
    token(t, i, "+"@, Constant::AddI,
    token(t, i, "-"@, Constant::SubI,
    token(t, i, "*"@, Constant::MulI,
    token(t, i, "/"@, Constant::DivI,
    token(t, i, ">"@, Constant::GrtI,
    token(t, i, "<"@, Constant::LssI,
    token(t, i, "="@, Constant::EqlI,
    token(t, i, "not"@, Constant::Not,
    token(t, i, "and"@, Constant::And,
    token(t, i, "or"@, Constant::Or,
    token(t, i, "if"@, Constant::Ifte,
    None)))))))))))
}

/// The term of a primitive as it is read: under `E1` for `Ifte`, whose
/// condition alone is forced, and under `E2` for every other primitive.
pub open spec fn primitive_tree(k: Constant) -> Tree {
    if k == Constant::Ifte {
        t_app(t_const(Constant::E1), t_const(Constant::Ifte))
    } else {
        forced2(k)
    }
}

/// The reserved token at `i`, as its term, and the place after it.
pub open spec fn const_at(t: Seq<u8>, i: int) -> Option<(Tree, int)> {
    match combinator_at(t, i) {
        Some((k, j)) => Some((t_const(k), j)),
        None => match primitive_at(t, i) {
            Some((k, j)) => Some((primitive_tree(k), j)),
            None => None,
        },
    }
}

/// The place after the mark `s`, where the text holds it at `i`.
pub open spec fn mark(t: Seq<u8>, i: int, s: Seq<char>) -> Option<int> {
    match lit(t, i, encode_utf8(s)) {
        Some(j) => if j > i {
            Some(j)
        } else {
            None
        },
        None => None,
    }
}

/// `j` lies after `i` and inside the text.
pub open spec fn ahead(t: Seq<u8>, i: int, j: int) -> bool {
    0 <= i < j <= t.len()
}

/// The term at `i` and the place after it: a reserved token, an integer, a
/// name, an abstraction or a parenthesized application, whichever is found
/// first in this order.
pub open spec fn term_at(t: Seq<u8>, i: int) -> Option<(Syntax, int)>
    decreases t.len() - i, 2int,
{
    if !(0 <= i <= t.len()) {
        None
    } else {
        match const_at(t, i) {
            Some((tree, j)) => Some((Syntax::Fixed(tree), j)),
            None => match int_at(t, i) {
                Some((v, j)) => Some((Syntax::Fixed(Tree::Leaf(Term::DInt(v))), j)),
                None => match name_at(t, i) {
                    Some((name, j)) => Some((Syntax::Var(name), j)),
                    None => match lam_at(t, i) {
                        Some(found) => Some(found),
                        None => app_at(t, i),
                    },
                },
            },
        }
    }
}

/// The abstraction at `i`: a backslash, a name, a dot and a list of
/// applications, with blanks between them.
pub open spec fn lam_at(t: Seq<u8>, i: int) -> Option<(Syntax, int)>
    decreases t.len() - i, 1int,
{
    if !(0 <= i <= t.len()) {
        None
    } else {
        match mark(t, i, "\\"@) {
            None => None,
            Some(j0) => match name_at(t, skip(t, j0)) {
                None => None,
                Some((x, j2)) => match mark(t, skip(t, j2), "."@) {
                    None => None,
                    Some(j4) => {
                        let j5 = skip(t, j4);
                        if ahead(t, i, j5) {
                            match app_list_at(t, j5) {
                                Some((b, j6)) => Some((Syntax::Lam(x, Box::new(b)), j6)),
                                None => None,
                            }
                        } else {
                            None
                        }
                    },
                },
            },
        }
    }
}

/// The parenthesized list of applications at `i`.
pub open spec fn app_at(t: Seq<u8>, i: int) -> Option<(Syntax, int)>
    decreases t.len() - i, 1int,
{
    if !(0 <= i <= t.len()) {
        None
    } else {
        match mark(t, i, "("@) {
            None => None,
            Some(j0) => {
                let j1 = skip(t, j0);
                if ahead(t, i, j1) {
                    match app_list_at(t, j1) {
                        None => None,
                        Some((body, j2)) => match mark(t, skip(t, j2), ")"@) {
                            Some(j3) => Some((body, j3)),
                            None => None,
                        },
                    }
                } else {
                    None
                }
            },
        }
    }
}

/// The list of applications at `i`: a term followed by its arguments.
pub open spec fn app_list_at(t: Seq<u8>, i: int) -> Option<(Syntax, int)>
    decreases t.len() - i, 4int,
{
    if !(0 <= i <= t.len()) {
        None
    } else {
        match term_at(t, i) {
            None => None,
            Some((first, j)) => {
                let j1 = skip(t, j);
                if ahead(t, i, j1) {
                    app_tail(t, j1, first)
                } else {
                    None
                }
            },
        }
    }
}

/// The arguments from `i` on, applied to `acc` from left to right.  Each is
/// a term, or, after a semicolon, a list of applications that extends to
/// the end of the enclosing list.
pub open spec fn app_tail(t: Seq<u8>, i: int, acc: Syntax) -> Option<(Syntax, int)>
    decreases t.len() - i, 3int,
{
    if !(0 <= i <= t.len()) {
        None
    } else {
        match term_at(t, i) {
            Some((arg, j)) => {
                let j1 = skip(t, j);
                if ahead(t, i, j1) {
                    app_tail(t, j1, Syntax::App(Box::new(acc), Box::new(arg)))
                } else {
                    None
                }
            },
            None => match mark(t, i, ";"@) {
                Some(j) => {
                    let j1 = skip(t, j);
                    if ahead(t, i, j1) {
                        match app_list_at(t, j1) {
                            Some((list, k)) => {
                                let k1 = skip(t, k);
                                if ahead(t, i, k1) {
                                    app_tail(t, k1, Syntax::App(Box::new(acc), Box::new(list)))
                                } else {
                                    None
                                }
                            },
                            None => None,
                        }
                    } else {
                        None
                    }
                },
                None => Some((acc, i)),
            },
        }
    }
}

/// What a reader of terms has done: the reader stands in the same text, the
/// store and the table of symbols have only grown, a term was returned
/// exactly when something was read, and, unless the table has run out of
/// room, the term and the place reached are those that `expected` gives.
pub open spec fn parsed(
    before: &Parser,
    after: &Parser,
    heap_before: &Heap,
    heap_after: &Heap,
    names_before: Map<u32, Seq<char>>,
    names_after: Map<u32, Seq<char>>,
    r: Option<TermRef>,
    expected: Option<(Syntax, int)>,
) -> bool {
    &&& after.wf()
    &&& after.input() == before.input()
    &&& heap_after.wf()
    &&& heap_after.extends(heap_before)
    &&& grown(names_before, names_after)
    &&& r is None ==> after.pos() == before.pos()
    &&& r matches Some(h) ==> after.pos() > before.pos() && heap_after.valid(h)
    &&& !full(names_after) ==> match expected {
        Some((syn, j)) => r matches Some(h) && after.pos() == j && denotes(
            names_after,
            heap_after.tree(h),
            syn,
        ),
        None => r is None,
    }
}

/// Reads the token `s`, where it stands next and is not empty.
fn read_token(par: &mut Parser, s: &str) -> (found: bool)
    requires
        old(par).wf(),
    ensures
        final(par).wf(),
        final(par).input() == old(par).input(),
        found ==> final(par).pos() > old(par).pos(),
        !found ==> final(par).pos() == old(par).pos(),
        forall|k: Constant, otherwise: Option<(Constant, int)>|
            #[trigger] token(old(par).input(), old(par).pos(), s@, k, otherwise) == if found {
                Some((k, final(par).pos()))
            } else {
                otherwise
            },
        mark(old(par).input(), old(par).pos(), s@) == if found {
            Some(final(par).pos())
        } else {
            None
        },
{
    let record = par.index;
    match par.read_string(s) {
        Some(_) => {
            if par.index > record {
                true
            } else {
                false
            }
        },
        None => false,
    }
}

/// Reads the token of a combinator or of an eager marker.
fn read_combinator(par: &mut Parser) -> (r: Option<Constant>)
    requires
        old(par).wf(),
    ensures
        final(par).wf(),
        final(par).input() == old(par).input(),
        r is Some ==> final(par).pos() > old(par).pos(),
        match combinator_at(old(par).input(), old(par).pos()) {
            Some((k, j)) => r == Some(k) && final(par).pos() == j,
            None => r is None && final(par).pos() == old(par).pos(),
        },
{
    if read_token(par, "I") {
        Some(Constant::I)
    } else if read_token(par, "K") {
        Some(Constant::K)
    } else if read_token(par, "S'") {
        Some(Constant::Sp)
    } else if read_token(par, "S") {
        Some(Constant::S)
    } else if read_token(par, "B*") {
        Some(Constant::Bs)
    } else if read_token(par, "B") {
        Some(Constant::B)
    } else if read_token(par, "C'") {
        Some(Constant::Cp)
    } else if read_token(par, "C") {
        Some(Constant::C)
    } else if read_token(par, "E1") {
        Some(Constant::E1)
    } else if read_token(par, "E2") {
        Some(Constant::E2)
    } else if read_token(par, "E3") {
        Some(Constant::E3)
    } else {
        None
    }
}

/// Reads the token of a primitive.
fn read_primitive(par: &mut Parser) -> (r: Option<Constant>)
    requires
        old(par).wf(),
    ensures
        final(par).wf(),
        final(par).input() == old(par).input(),
        r is Some ==> final(par).pos() > old(par).pos(),
        match primitive_at(old(par).input(), old(par).pos()) {
            Some((k, j)) => r == Some(k) && final(par).pos() == j,
            None => r is None && final(par).pos() == old(par).pos(),
        },
{
    if read_token(par, "+") {
        Some(Constant::AddI)
    } else if read_token(par, "-") {
        Some(Constant::SubI)
    } else if read_token(par, "*") {
        Some(Constant::MulI)
    } else if read_token(par, "/") {
        Some(Constant::DivI)
    } else if read_token(par, ">") {
        Some(Constant::GrtI)
    } else if read_token(par, "<") {
        Some(Constant::LssI)
    } else if read_token(par, "=") {
        Some(Constant::EqlI)
    } else if read_token(par, "not") {
        Some(Constant::Not)
    } else if read_token(par, "and") {
        Some(Constant::And)
    } else if read_token(par, "or") {
        Some(Constant::Or)
    } else if read_token(par, "if") {
        Some(Constant::Ifte)
    } else {
        None
    }
}

/// Reads a reserved token and returns its term: a combinator, an eager
/// marker, or a primitive under the marker that forces its operands.
pub fn read_const_func(par: &mut Parser, heap: &mut Heap) -> (r: Option<TermRef>)
    requires
        old(par).wf(),
        old(heap).wf(),
    ensures
        final(par).wf(),
        final(par).input() == old(par).input(),
        final(heap).wf(),
        final(heap).extends(old(heap)),
        match const_at(old(par).input(), old(par).pos()) {
            Some((tree, j)) => r matches Some(h) && final(heap).valid(h) && final(heap).tree(h)
                == tree && final(par).pos() == j,
            None => r is None && final(par).pos() == old(par).pos(),
        },
        r is Some ==> final(par).pos() > old(par).pos(),
{
    match read_combinator(par) {
        Some(k) => Some(TermRef::Static(k)),
        None => match read_primitive(par) {
            Some(k) => {
                let marker = if k == Constant::Ifte {
                    Constant::E1
                } else {
                    Constant::E2
                };
                Some(app(heap, TermRef::Static(marker), TermRef::Static(k)))
            },
            None => None,
        },
    }
}

/// Reads a name as a variable.
pub fn read_var(par: &mut Parser, heap: &mut Heap, interner: &mut Interner) -> (r: Option<
    TermRef,
>)
    requires
        old(par).wf(),
        old(heap).wf(),
        old(interner).inv(),
    ensures
        final(interner).inv(),
        parsed(
            old(par),
            final(par),
            old(heap),
            final(heap),
            old(interner).names(),
            final(interner).names(),
            r,
            match name_at(old(par).input(), old(par).pos()) {
                Some((name, j)) => Some((Syntax::Var(name), j)),
                None => None,
            },
        ),
{
    match read_symb(par, interner) {
        Some(s) => Some(var(heap, s)),
        None => None,
    }
}

/// A full table stays full when it grows.
pub proof fn lemma_full_grown(old: Map<u32, Seq<char>>, new: Map<u32, Seq<char>>)
    requires
        grown(old, new),
        full(old),
    ensures
        full(new),
{
    assert forall|id: u32| new.contains_key(id) by {
        assert(old.contains_key(id));
    }
}

/// Reads a term: a reserved token, an integer, a name, an abstraction or a
/// parenthesized application, whichever is found first in this order.
pub fn read_term(par: &mut Parser, heap: &mut Heap, interner: &mut Interner) -> (r: Option<
    TermRef,
>)
    requires
        old(par).wf(),
        old(heap).wf(),
        old(interner).inv(),
    ensures
        final(interner).inv(),
        parsed(
            old(par),
            final(par),
            old(heap),
            final(heap),
            old(interner).names(),
            final(interner).names(),
            r,
            term_at(old(par).input(), old(par).pos()),
        ),
    decreases old(par).input().len() - old(par).pos(), 2int,
{
    let ghost t = par.input();
    let ghost i = par.pos();
    match read_const_func(par, heap) {
        Some(c) => {
            return Some(c);
        },
        None => {},
    }
    match read_int(par) {
        Some(v) => {
            let h = dint(heap, v);
            return Some(h);
        },
        None => {},
    }
    let ghost h1 = *heap;
    match read_var(par, heap, interner) {
        Some(x) => {
            return Some(x);
        },
        None => {},
    }
    let ghost n1 = interner.names();
    let ghost h2 = *heap;
    match read_lam(par, heap, interner) {
        Some(l) => {
            proof {
                if !full(interner.names()) {
                    if full(n1) {
                        lemma_full_grown(n1, interner.names());
                    }
                }
            }
            return Some(l);
        },
        None => {},
    }
    let ghost n2 = interner.names();
    let r = read_app(par, heap, interner);
    proof {
        if !full(interner.names()) {
            if full(n2) {
                lemma_full_grown(n2, interner.names());
            }
            if full(n1) {
                lemma_full_grown(n1, n2);
            }
        }
    }
    r
}

/// Reads an abstraction: a backslash, a name, a dot and a list of
/// applications, with blanks between them.
pub fn read_lam(par: &mut Parser, heap: &mut Heap, interner: &mut Interner) -> (r: Option<
    TermRef,
>)
    requires
        old(par).wf(),
        old(heap).wf(),
        old(interner).inv(),
    ensures
        final(interner).inv(),
        parsed(
            old(par),
            final(par),
            old(heap),
            final(heap),
            old(interner).names(),
            final(interner).names(),
            r,
            lam_at(old(par).input(), old(par).pos()),
        ),
    decreases old(par).input().len() - old(par).pos(), 1int,
{
    let record = par.index;
    let ghost t = par.input();
    if !read_token(par, "\\") {
        return None;
    }
    par.skip_space();
    let x = match read_symb(par, interner) {
        Some(x) => x,
        None => {
            par.index = record;
            return None;
        },
    };
    let ghost n1 = interner.names();
    par.skip_space();
    if !read_token(par, ".") {
        par.index = record;
        return None;
    }
    par.skip_space();
    let body = match read_app_list(par, heap, interner) {
        Some(b) => b,
        None => {
            proof {
                if !full(interner.names()) && full(n1) {
                    lemma_full_grown(n1, interner.names());
                }
            }
            par.index = record;
            return None;
        },
    };
    let ghost n2 = interner.names();
    let ghost h2 = *heap;
    let l = lam(heap, x, body);
    proof {
        if !full(n2) {
            if full(n1) {
                lemma_full_grown(n1, n2);
            }
        }
    }
    Some(l)
}

/// Reads a list of applications in parentheses.
pub fn read_app(par: &mut Parser, heap: &mut Heap, interner: &mut Interner) -> (r: Option<
    TermRef,
>)
    requires
        old(par).wf(),
        old(heap).wf(),
        old(interner).inv(),
    ensures
        final(interner).inv(),
        parsed(
            old(par),
            final(par),
            old(heap),
            final(heap),
            old(interner).names(),
            final(interner).names(),
            r,
            app_at(old(par).input(), old(par).pos()),
        ),
    decreases old(par).input().len() - old(par).pos(), 1int,
{
    let record = par.index;
    if !read_token(par, "(") {
        return None;
    }
    par.skip_space();
    let body = match read_app_list(par, heap, interner) {
        Some(b) => b,
        None => {
            par.index = record;
            return None;
        },
    };
    par.skip_space();
    if !read_token(par, ")") {
        par.index = record;
        return None;
    }
    Some(body)
}

/// Reads a list of applications: a term followed by its arguments, applied
/// from left to right.  After a semicolon the rest of the list is one
/// argument.
pub fn read_app_list(par: &mut Parser, heap: &mut Heap, interner: &mut Interner) -> (r: Option<
    TermRef,
>)
    requires
        old(par).wf(),
        old(heap).wf(),
        old(interner).inv(),
    ensures
        final(interner).inv(),
        parsed(
            old(par),
            final(par),
            old(heap),
            final(heap),
            old(interner).names(),
            final(interner).names(),
            r,
            app_list_at(old(par).input(), old(par).pos()),
        ),
    decreases old(par).input().len() - old(par).pos(), 4int,
{
    let record = par.index;
    let ghost t = par.input();
    let ghost names0 = interner.names();
    let mut t1 = match read_term(par, heap, interner) {
        Some(x) => x,
        None => {
            return None;
        },
    };
    let ghost mut acc: Syntax = match term_at(t, record as int) {
        Some((syn, _)) => syn,
        None => Syntax::Fixed(heap.tree(t1)),
    };
    par.skip_space();
    loop
        invariant
            par.wf(),
            par.input() == t,
            t == old(par).input(),
            record == old(par).pos(),
            record < par.pos(),
            is_char_boundary(t, record as int),
            heap.wf(),
            heap.extends(old(heap)),
            interner.inv(),
            names0 == old(interner).names(),
            grown(names0, interner.names()),
            heap.valid(t1),
            !full(interner.names()) ==> app_list_at(t, record as int) == app_tail(
                t,
                par.pos(),
                acc,
            ) && denotes(interner.names(), heap.tree(t1), acc),
        ensures
            par.wf(),
            par.input() == t,
            record < par.pos(),
            heap.wf(),
            heap.extends(old(heap)),
            interner.inv(),
            grown(names0, interner.names()),
            heap.valid(t1),
            !full(interner.names()) ==> app_list_at(t, record as int) == Some((acc, par.pos()))
                && denotes(interner.names(), heap.tree(t1), acc),
        decreases t.len() - par.pos(),
    {
        let ghost here = par.pos();
        let ghost names1 = interner.names();
        let ghost heap1 = *heap;
        let ghost acc1 = acc;
        match read_term(par, heap, interner) {
            Some(t2) => {
                let ghost names2 = interner.names();
                let ghost arg_tree = heap.tree(t2);
                let ghost fun_tree = heap.tree(t1);
                t1 = app(heap, t1, t2);
                par.skip_space();
                proof {
                    if !full(names2) {
                        if full(names1) {
                            lemma_full_grown(names1, names2);
                        }
                        let arg = term_at(t, here).unwrap().0;
                        lemma_denotes_grown(names1, names2, fun_tree, acc1);
                        acc = Syntax::App(Box::new(acc1), Box::new(arg));
                    }
                }
            },
            None => {
                let ghost names2 = interner.names();
                if read_token(par, ";") {
                    par.skip_space();
                    let ghost after = par.pos();
                    let ghost fun_tree = heap.tree(t1);
                    match read_app_list(par, heap, interner) {
                        Some(list) => {
                            let ghost names3 = interner.names();
                            t1 = app(heap, t1, list);
                            par.skip_space();
                            proof {
                                if !full(names3) {
                                    if full(names2) {
                                        lemma_full_grown(names2, names3);
                                    }
                                    if full(names1) {
                                        lemma_full_grown(names1, names2);
                                    }
                                    let arg = app_list_at(t, after).unwrap().0;
                                    lemma_denotes_grown(names1, names3, fun_tree, acc1);
                                    acc = Syntax::App(Box::new(acc1), Box::new(arg));
                                }
                            }
                        },
                        None => {
                            proof {
                                if !full(interner.names()) {
                                    if full(names2) {
                                        lemma_full_grown(names2, interner.names());
                                    }
                                    if full(names1) {
                                        lemma_full_grown(names1, names2);
                                    }
                                }
                            }
                            par.index = record;
                            return None;
                        },
                    }
                } else {
                    proof {
                        if !full(names2) && full(names1) {
                            lemma_full_grown(names1, names2);
                        }
                        if !full(names2) {
                            lemma_denotes_grown(names1, names2, heap.tree(t1), acc1);
                        }
                    }
                    break ;
                }
            },
        }
    }
    Some(t1)
}

/// The term that a whole text is: a list of applications, with blanks
/// before and after it and nothing else.
pub open spec fn whole_term(t: Seq<u8>) -> Option<Syntax> {
    match app_list_at(t, skip(t, 0)) {
        Some((term, j)) => if skip(t, j) == t.len() {
            Some(term)
        } else {
            None
        },
        None => None,
    }
}

/// Reads the text `input` as one term: a list of applications, which may
/// stand between blanks.  Text that goes on after the term is no term.
pub fn parse_term(input: &str, heap: &mut Heap, interner: &mut Interner) -> (r: Option<TermRef>)
    requires
        old(heap).wf(),
        old(interner).inv(),
    ensures
        final(heap).wf(),
        final(heap).extends(old(heap)),
        final(interner).inv(),
        grown(old(interner).names(), final(interner).names()),
        r matches Some(h) ==> final(heap).valid(h),
        !full(final(interner).names()) ==> match whole_term(encode_utf8(input@)) {
            Some(syn) => r matches Some(h) && denotes(
                final(interner).names(),
                final(heap).tree(h),
                syn,
            ),
            None => r is None,
        },
{
    let mut par = Parser::new(input.to_owned());
    par.skip_space();
    match read_app_list(&mut par, heap, interner) {
        Some(term) => {
            par.skip_space();
            if par.is_end().is_some() {
                Some(term)
            } else {
                None
            }
        },
        None => None,
    }
}

/// A command of the reader.
pub enum Command {
    /// Leave the program.
    Quit,
    /// Show the dictionary.
    Dict,
    /// Define a symbol as the term that a text denotes.
    Define(Symb, String),
    /// Define a symbol anew.
    Update(Symb, String),
    /// Remove the definition of a symbol.
    Delete(Symb),
    /// Run the commands of a file.
    Load(String),
    /// Evaluate a term.
    Repl(TermRef),
}

/// A command as it is written.
pub enum CommandSyntax {
    Quit,
    Dict,
    Define(Seq<char>, Seq<u8>),
    Update(Seq<char>, Seq<u8>),
    Delete(Seq<char>),
    Load(Seq<char>),
    Repl(Syntax),
}

/// `cmd` is the command written as `syn`, with each name read as the symbol
/// that `names` gives it and each term read in `heap`.
pub open spec fn command_denotes(
    names: Map<u32, Seq<char>>,
    heap: &Heap,
    cmd: Command,
    syn: CommandSyntax,
) -> bool {
    match syn {
        CommandSyntax::Quit => cmd is Quit,
        CommandSyntax::Dict => cmd is Dict,
        CommandSyntax::Define(name, rest) => cmd matches Command::Define(s, text)
            && names.contains_key(s.0) && names[s.0] == name && encode_utf8(text@) == rest,
        CommandSyntax::Update(name, rest) => cmd matches Command::Update(s, text)
            && names.contains_key(s.0) && names[s.0] == name && encode_utf8(text@) == rest,
        CommandSyntax::Delete(name) => cmd matches Command::Delete(s) && names.contains_key(s.0)
            && names[s.0] == name,
        CommandSyntax::Load(path) => cmd matches Command::Load(p) && p@ == path,
        CommandSyntax::Repl(term) => cmd matches Command::Repl(h) && heap.valid(h) && denotes(
            names,
            heap.tree(h),
            term,
        ),
    }
}

/// The place after the keyword `s` and the blanks behind it.
pub open spec fn keyword(t: Seq<u8>, i: int, s: Seq<char>) -> Option<int> {
    match mark(t, i, s) {
        Some(j) => Some(skip(t, j)),
        None => None,
    }
}

/// A term to evaluate: a list of applications that fills the text, which
/// does not begin with a colon.
pub open spec fn repl_at(t: Seq<u8>, i: int) -> Option<CommandSyntax> {
    if mark(t, i, ":"@) is Some {
        None
    } else {
        match app_list_at(t, skip(t, i)) {
            Some((term, j)) => if skip(t, j) == t.len() {
                Some(CommandSyntax::Repl(term))
            } else {
                None
            },
            None => None,
        }
    }
}

/// The keyword `s` alone in the text.
pub open spec fn bare_at(t: Seq<u8>, i: int, s: Seq<char>) -> bool {
    keyword(t, i, s) == Some(t.len() as int)
}

/// The keyword `s`, a name, and the rest of the text.
pub open spec fn binding_at(t: Seq<u8>, i: int, s: Seq<char>) -> Option<(Seq<char>, Seq<u8>)> {
    match keyword(t, i, s) {
        Some(j) => match name_at(t, j) {
            Some((name, k)) => Some((name, t.subrange(skip(t, k), t.len() as int))),
            None => None,
        },
        None => None,
    }
}

/// The keyword `:delete` and a name, alone in the text.
pub open spec fn delete_at(t: Seq<u8>, i: int) -> Option<Seq<char>> {
    match keyword(t, i, ":delete"@) {
        Some(j) => match name_at(t, j) {
            Some((name, k)) => if skip(t, k) == t.len() {
                Some(name)
            } else {
                None
            },
            None => None,
        },
        None => None,
    }
}

/// The keyword `:load` and a path, alone in the text.
pub open spec fn load_at(t: Seq<u8>, i: int) -> Option<Seq<char>> {
    match keyword(t, i, ":load"@) {
        Some(j) => match word(t, j, path_pattern()) {
            Some((path, k)) => if skip(t, k) == t.len() {
                Some(path)
            } else {
                None
            },
            None => None,
        },
        None => None,
    }
}

/// The command at `i`: a term to evaluate, or one of the commands that begin
/// with a colon, whichever is found first in this order.
pub open spec fn command_at(t: Seq<u8>, i: int) -> Option<CommandSyntax> {
    match repl_at(t, i) {
        Some(c) => Some(c),
        None => if bare_at(t, i, ":quit"@) {
            Some(CommandSyntax::Quit)
        } else if bare_at(t, i, ":dict"@) {
            Some(CommandSyntax::Dict)
        } else {
            match binding_at(t, i, ":define"@) {
                Some((name, rest)) => Some(CommandSyntax::Define(name, rest)),
                None => match binding_at(t, i, ":update"@) {
                    Some((name, rest)) => Some(CommandSyntax::Update(name, rest)),
                    None => match delete_at(t, i) {
                        Some(name) => Some(CommandSyntax::Delete(name)),
                        None => match load_at(t, i) {
                            Some(path) => Some(CommandSyntax::Load(path)),
                            None => None,
                        },
                    },
                },
            }
        },
    }
}

/// Reads the keyword `s` and the blanks behind it.
fn read_keyword(par: &mut Parser, s: &str) -> (found: bool)
    requires
        old(par).wf(),
    ensures
        final(par).wf(),
        final(par).input() == old(par).input(),
        !found ==> final(par).pos() == old(par).pos(),
        keyword(old(par).input(), old(par).pos(), s@) == if found {
            Some(final(par).pos())
        } else {
            None
        },
{
    if read_token(par, s) {
        par.skip_space();
        true
    } else {
        false
    }
}

/// Reads the keyword `s` alone in the text.
fn read_bare(par: &mut Parser, s: &str) -> (found: bool)
    requires
        old(par).wf(),
    ensures
        final(par).wf(),
        final(par).input() == old(par).input(),
        !found ==> final(par).pos() == old(par).pos(),
        found == bare_at(old(par).input(), old(par).pos(), s@),
{
    let record = par.index;
    if read_keyword(par, s) && par.is_end().is_some() {
        true
    } else {
        par.index = record;
        false
    }
}

/// Reads the keyword `s`, a name, and the rest of the text.
fn read_binding(par: &mut Parser, interner: &mut Interner, s: &str) -> (r: Option<(Symb, String)>)
    requires
        old(par).wf(),
        old(interner).inv(),
    ensures
        final(par).wf(),
        final(par).input() == old(par).input(),
        final(interner).inv(),
        grown(old(interner).names(), final(interner).names()),
        r is None ==> final(par).pos() == old(par).pos(),
        r matches Some((symb, _)) ==> final(interner).names().contains_key(symb.0),
        !full(final(interner).names()) ==> match binding_at(
            old(par).input(),
            old(par).pos(),
            s@,
        ) {
            Some((name, rest)) => r matches Some((symb, text)) && final(interner).names()[symb.0]
                == name && encode_utf8(text@) == rest,
            None => r is None,
        },
{
    let record = par.index;
    if !read_keyword(par, s) {
        return None;
    }
    match read_symb(par, interner) {
        Some(symb) => {
            par.skip_space();
            let text = par.get_rest();
            Some((symb, text))
        },
        None => {
            par.index = record;
            None
        },
    }
}

/// Reads the keyword `:delete` and a name, alone in the text.
fn read_delete(par: &mut Parser, interner: &mut Interner) -> (r: Option<Symb>)
    requires
        old(par).wf(),
        old(interner).inv(),
    ensures
        final(par).wf(),
        final(par).input() == old(par).input(),
        final(interner).inv(),
        grown(old(interner).names(), final(interner).names()),
        r is None ==> final(par).pos() == old(par).pos(),
        r matches Some(symb) ==> final(interner).names().contains_key(symb.0),
        !full(final(interner).names()) ==> match delete_at(old(par).input(), old(par).pos()) {
            Some(name) => r matches Some(symb) && final(interner).names()[symb.0] == name,
            None => r is None,
        },
{
    let record = par.index;
    if !read_keyword(par, ":delete") {
        return None;
    }
    match read_symb(par, interner) {
        Some(symb) => {
            par.skip_space();
            if par.is_end().is_some() {
                Some(symb)
            } else {
                par.index = record;
                None
            }
        },
        None => {
            par.index = record;
            None
        },
    }
}

/// Reads the keyword `:load` and a path, alone in the text.
fn read_load(par: &mut Parser) -> (r: Option<String>)
    requires
        old(par).wf(),
    ensures
        final(par).wf(),
        final(par).input() == old(par).input(),
        r is None ==> final(par).pos() == old(par).pos(),
        match load_at(old(par).input(), old(par).pos()) {
            Some(path) => r matches Some(p) && p@ == path,
            None => r is None,
        },
{
    let record = par.index;
    if !read_keyword(par, ":load") {
        return None;
    }
    match read_path(par) {
        Some(path) => {
            par.skip_space();
            if par.is_end().is_some() {
                Some(path)
            } else {
                par.index = record;
                None
            }
        },
        None => {
            par.index = record;
            None
        },
    }
}

/// Reads a term to evaluate: a list of applications that fills the text,
/// which does not begin with a colon.
fn read_repl(par: &mut Parser, heap: &mut Heap, interner: &mut Interner) -> (r: Option<TermRef>)
    requires
        old(par).wf(),
        old(heap).wf(),
        old(interner).inv(),
    ensures
        final(par).wf(),
        final(par).input() == old(par).input(),
        final(heap).wf(),
        final(heap).extends(old(heap)),
        final(interner).inv(),
        grown(old(interner).names(), final(interner).names()),
        r is None ==> final(par).pos() == old(par).pos(),
        r matches Some(h) ==> final(heap).valid(h),
        !full(final(interner).names()) ==> match repl_at(old(par).input(), old(par).pos()) {
            Some(c) => r matches Some(h) && c matches CommandSyntax::Repl(term) && denotes(
                final(interner).names(),
                final(heap).tree(h),
                term,
            ),
            None => r is None,
        },
{
    let record = par.index;
    if read_token(par, ":") {
        par.index = record;
        return None;
    }
    par.skip_space();
    match read_app_list(par, heap, interner) {
        Some(term) => {
            par.skip_space();
            if par.is_end().is_some() {
                Some(term)
            } else {
                par.index = record;
                None
            }
        },
        None => {
            par.index = record;
            None
        },
    }
}

/// Reads a command: a term to evaluate, or one of `:quit`, `:dict`,
/// `:define`, `:update`, `:delete` and `:load` with what it takes.
pub fn read_command(par: &mut Parser, heap: &mut Heap, interner: &mut Interner) -> (r: Option<
    Command,
>)
    requires
        old(par).wf(),
        old(heap).wf(),
        old(interner).inv(),
    ensures
        final(par).wf(),
        final(par).input() == old(par).input(),
        final(heap).wf(),
        final(heap).extends(old(heap)),
        final(interner).inv(),
        grown(old(interner).names(), final(interner).names()),
        r is None ==> final(par).pos() == old(par).pos(),
        r matches Some(Command::Repl(h)) ==> final(heap).valid(h),
        !full(final(interner).names()) ==> match command_at(old(par).input(), old(par).pos()) {
            Some(c) => r matches Some(cmd) && command_denotes(
                final(interner).names(),
                final(heap),
                cmd,
                c,
            ),
            None => r is None,
        },
{
    let ghost n0 = interner.names();
    match read_repl(par, heap, interner) {
        Some(term) => {
            return Some(Command::Repl(term));
        },
        None => {},
    }
    let ghost n1 = interner.names();
    if read_bare(par, ":quit") {
        return Some(Command::Quit);
    }
    if read_bare(par, ":dict") {
        return Some(Command::Dict);
    }
    match read_binding(par, interner, ":define") {
        Some((symb, text)) => {
            proof {
                if !full(interner.names()) && full(n1) {
                    lemma_full_grown(n1, interner.names());
                }
            }
            return Some(Command::Define(symb, text));
        },
        None => {},
    }
    let ghost n2 = interner.names();
    match read_binding(par, interner, ":update") {
        Some((symb, text)) => {
            proof {
                if !full(interner.names()) {
                    if full(n2) {
                        lemma_full_grown(n2, interner.names());
                    }
                    if full(n1) {
                        lemma_full_grown(n1, n2);
                    }
                }
            }
            return Some(Command::Update(symb, text));
        },
        None => {},
    }
    let ghost n3 = interner.names();
    match read_delete(par, interner) {
        Some(symb) => {
            proof {
                if !full(interner.names()) {
                    if full(n3) {
                        lemma_full_grown(n3, interner.names());
                    }
                    if full(n2) {
                        lemma_full_grown(n2, n3);
                    }
                    if full(n1) {
                        lemma_full_grown(n1, n2);
                    }
                }
            }
            return Some(Command::Delete(symb));
        },
        None => {},
    }
    let ghost n4 = interner.names();
    let r = read_load(par);
    proof {
        if !full(n4) {
            if full(n3) {
                lemma_full_grown(n3, n4);
            }
            if full(n2) {
                lemma_full_grown(n2, n3);
            }
            if full(n1) {
                lemma_full_grown(n1, n2);
            }
        }
    }
    match r {
        Some(path) => Some(Command::Load(path)),
        None => None,
    }
}

} // verus!
