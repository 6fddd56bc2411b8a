//! The front end: source text to linked statements, in one pass.

use vstd::prelude::*;
use vstd::std_specs::iter::IteratorSpec;
use crate::bytecode::{raw, Stmt};
use crate::link::{close_loop, emit, lemma_link_same_shape, lemma_linking_done, link, linking, open_loop, profile, same_shape, well_formed};
use crate::nesting::{balanced, depth, lemma_depth_agrees};

verus! {

/// Which bracket has no partner.
#[derive(Debug, Clone, Copy, PartialEq, Eq, Structural)]
pub enum Unmatched {
    /// A `[` that is never closed.
    Open,
    /// A `]` with no `[` before it left to close.
    Close,
}

/// Why a source text is no program, and the index of the character at which that was found.
#[derive(Debug, Clone, Copy, PartialEq, Eq, Structural)]
pub struct ParseError {
    pub kind: Unmatched,
    pub index: usize,
}

/// The statement that a command character stands for; every other character is a comment.
pub open spec fn token(c: char) -> Option<Stmt> {
    if c == '>' {
        Some(Stmt::PAdd(1))
    } else if c == '<' {
        Some(Stmt::PAdd(-1i16))
    } else if c == '+' {
        Some(Stmt::DAdd(1, 0))
    } else if c == '-' {
        Some(Stmt::DAdd(-1i8, 0))
    } else if c == '[' {
        Some(Stmt::Jz(0))
    } else if c == ']' {
        Some(Stmt::Jnz(0))
    } else if c == '.' {
        Some(Stmt::Putc(0))
    } else if c == ',' {
        Some(Stmt::Getc(0))
    } else {
        None
    }
}

/// The statements of a source text in order, comments dropped, branch targets not yet set.
pub open spec fn lex(src: Seq<char>) -> Seq<Stmt>
    decreases src.len(),
{
    if src.len() == 0 {
        Seq::empty()
    } else {
        match token(src.last()) {
            Some(s) => lex(src.drop_last()).push(s),
            None => lex(src.drop_last()),
        }
    }
}

/// Every statement that source text gives reaches the cell at the data pointer itself.
pub proof fn lemma_lex_raw(src: Seq<char>)
    ensures
        raw(lex(src)),
        raw(link(lex(src))),
    decreases src.len(),
{
    if src.len() > 0 {
        lemma_lex_raw(src.drop_last());
    }
}

/// The bracket profile of a source text: `1` at each `[`, `-1` at each `]`.
pub open spec fn marks(src: Seq<char>) -> Seq<int> {
    Seq::new(
        src.len(),
        |i: int|
            if src[i] == '[' {
                1
            } else if src[i] == ']' {
                -1
            } else {
                0
            },
    )
}

/// The character at `i` is the first `]` that closes nothing.
pub open spec fn stray_close(src: Seq<char>, i: int) -> bool {
    &&& 0 <= i < src.len()
    &&& depth(marks(src), i + 1) < 0
    &&& forall|p: int| 0 <= p <= i ==> depth(marks(src), p) >= 0
}

/// No `]` is stray, but some `[` is never closed.
pub open spec fn left_open(src: Seq<char>) -> bool {
    &&& depth(marks(src), src.len() as int) > 0
    &&& forall|p: int| 0 <= p <= src.len() ==> depth(marks(src), p) >= 0
}

/// Reads a source text. The result holds one statement for each command
/// character, in order, with the branch targets set; or the first bracket
/// that has no partner.
pub fn parse(code: &str) -> (r: Result<Vec<Stmt>, ParseError>)
    ensures
        r is Ok <==> balanced(marks(code@)),
        match r {
            Ok(ir) => {
                &&& ir@ == link(lex(code@))
                &&& raw(ir@)
                &&& balanced(profile(ir@))
                &&& ir@.len() <= 32767 ==> well_formed(ir@)
            },
            Err(e) => match e.kind {
                Unmatched::Close => stray_close(code@, e.index as int),
                Unmatched::Open => left_open(code@) && e.index == code@.len() - 1,
            },
        },
{
    let total = code.unicode_len();
    let mut res: Vec<Stmt> = Vec::new();
    let mut labels: Vec<usize> = Vec::new();
    let mut index: usize = 0;
    assert(code@.take(0) =~= Seq::<char>::empty());
    for c in it: code.chars()
        invariant
            it.seq() == code@,
            index == it.index(),
            total == code@.len(),
            linking(res@, labels@),
            same_shape(res@, lex(code@.take(index as int))),
            labels@.len() == depth(marks(code@), index as int),
            forall|p: int| 0 <= p <= index ==> depth(marks(code@), p) >= 0,
    {
        let ghost before = code@.take(index as int);
        let ghost after = code@.take(index as int + 1);
        proof {
            assert(after.drop_last() =~= before);
            assert(after.last() == c);
            assert(marks(code@)[index as int] == sign_of_char(c));
        }
        if c == '>' {
            emit(&mut res, &labels, Stmt::PAdd(1));
        } else if c == '<' {
            emit(&mut res, &labels, Stmt::PAdd(-1));
        } else if c == '+' {
            emit(&mut res, &labels, Stmt::DAdd(1, 0));
        } else if c == '-' {
            emit(&mut res, &labels, Stmt::DAdd(-1, 0));
        } else if c == '[' {
            open_loop(&mut res, &mut labels);
        } else if c == ']' {
            if labels.len() == 0 {
                assert(depth(marks(code@), index as int + 1) < 0);
                return Err(ParseError { kind: Unmatched::Close, index });
            }
            close_loop(&mut res, &mut labels);
        } else if c == '.' {
            emit(&mut res, &labels, Stmt::Putc(0));
        } else if c == ',' {
            emit(&mut res, &labels, Stmt::Getc(0));
        }
        index = index + 1;
    }
    proof {
        assert(code@.take(index as int) =~= code@);
    }
    if labels.len() != 0 {
        Err(ParseError { kind: Unmatched::Open, index: index - 1 })
    } else {
        proof {
            lemma_linking_done(res@, labels@);
            lemma_link_same_shape(res@, lex(code@));
            lemma_lex_raw(code@);
        }
        Ok(res)
    }
}

/// The character that stands for a statement in source text.
pub open spec fn symbol(s: Stmt) -> char {
    match s {
        Stmt::PAdd(i) => if i < 0 { '<' } else { '>' },
        Stmt::DAdd(n, _) => if n < 0 { '-' } else { '+' },
        Stmt::Jz(_) => '[',
        Stmt::Jnz(_) => ']',
        Stmt::Putc(_) => '.',
        Stmt::Getc(_) => ',',
    }
}

/// A program written out as source text, one character for each statement.
pub open spec fn spell(code: Seq<Stmt>) -> Seq<char> {
    Seq::new(code.len(), |k: int| symbol(code[k]))
}

/// The command characters of a source text in order: the text without its comments.
pub open spec fn commands(src: Seq<char>) -> Seq<char>
    decreases src.len(),
{
    if src.len() == 0 {
        Seq::empty()
    } else if token(src.last()) is Some {
        commands(src.drop_last()).push(src.last())
    } else {
        commands(src.drop_last())
    }
}

/// Writes a program out as source text, one character for each statement.
pub fn serialize(code: &[Stmt]) -> (text: String)
    ensures
        text@ == spell(code@),
{
    let mut text = String::new();
    let mut k: usize = 0;
    while k < code.len()
        invariant
            k <= code@.len(),
            text@ == spell(code@.take(k as int)),
        decreases code.len() - k,
    {
        proof {
            reveal_strlit("<");
            reveal_strlit(">");
            reveal_strlit("-");
            reveal_strlit("+");
            reveal_strlit("[");
            reveal_strlit("]");
            reveal_strlit(".");
            reveal_strlit(",");
            assert(code@.take(k + 1) =~= code@.take(k as int).push(code@[k as int]));
        }
        let next: &str = match code[k] {
            Stmt::PAdd(i) => if i < 0 { "<" } else { ">" },
            Stmt::DAdd(n, _) => if n < 0 { "-" } else { "+" },
            Stmt::Jz(_) => "[",
            Stmt::Jnz(_) => "]",
            Stmt::Putc(_) => ".",
            Stmt::Getc(_) => ",",
        };
        text.append(next);
        assert(text@ =~= spell(code@.take(k + 1)));
        k = k + 1;
    }
    assert(code@.take(k as int) =~= code@);
    text
}

/// The statements of a source text, written out, spell its commands; comments do not count.
proof fn lemma_spell_lex(src: Seq<char>)
    ensures
        spell(lex(src)) == commands(src),
        lex(commands(src)) == lex(src),
    decreases src.len(),
{
    if src.len() > 0 {
        lemma_spell_lex(src.drop_last());
        if token(src.last()) is Some {
            assert(spell(lex(src)) =~= spell(lex(src.drop_last())).push(src.last()));
            assert(commands(src).drop_last() =~= commands(src.drop_last()));
        }
    } else {
        assert(spell(lex(src)) =~= commands(src));
    }
}

/// The brackets of a source text nest as those of its statements do.
proof fn lemma_marks_lex(src: Seq<char>)
    ensures
        depth(marks(src), src.len() as int) == depth(profile(lex(src)), lex(src).len() as int),
        (forall|p: int| 0 <= p <= src.len() ==> depth(marks(src), p) >= 0) <==> (forall|q: int|
            0 <= q <= lex(src).len() ==> depth(profile(lex(src)), q) >= 0),
    decreases src.len(),
{
    let n = src.len() as int;
    if n > 0 {
        let rest = src.drop_last();
        lemma_marks_lex(rest);
        let a = marks(src);
        let b = profile(lex(src));
        let a0 = marks(rest);
        let b0 = profile(lex(rest));
        assert forall|p: int| 0 <= p < n implies depth(a, p) == depth(a0, p) by {
            lemma_depth_agrees(a, a0, p);
        }
        assert forall|q: int| 0 <= q <= lex(rest).len() implies depth(b, q) == depth(b0, q) by {
            lemma_depth_agrees(b, b0, q);
        }
        assert(a[n - 1] == sign_of_char(src.last()));
        if token(src.last()) is Some {
            assert(lex(src).last() == token(src.last())->0);
        }
        if forall|p: int| 0 <= p <= src.len() ==> depth(a, p) >= 0 {
            assert forall|q: int| 0 <= q <= lex(src).len() implies depth(b, q) >= 0 by {
                if q <= lex(rest).len() {
                    assert forall|p: int| 0 <= p <= rest.len() implies depth(a0, p) >= 0 by {
                        assert(depth(a, p) >= 0);
                    }
                    assert(depth(b0, q) >= 0);
                } else {
                    assert(depth(a, n) >= 0);
                }
            }
        }
        if forall|q: int| 0 <= q <= lex(src).len() ==> depth(b, q) >= 0 {
            assert forall|p: int| 0 <= p <= src.len() implies depth(a, p) >= 0 by {
                if p < n {
                    assert forall|q: int| 0 <= q <= lex(rest).len() implies depth(b0, q) >= 0 by {
                        assert(depth(b, q) >= 0);
                    }
                    assert(depth(a0, p) >= 0);
                } else {
                    assert(depth(b, lex(src).len() as int) >= 0);
                }
            }
        }
    }
}

/// Reading and writing undo each other. The program read from a source
/// text, written out, is that text without its comments; the text without
/// its comments reads as the text itself does; and so a program that was
/// read, written out and read again is the same program.
pub proof fn lemma_parse_roundtrip(src: Seq<char>)
    ensures
        spell(link(lex(src))) == commands(src),
        link(lex(commands(src))) == link(lex(src)),
        balanced(marks(commands(src))) <==> balanced(marks(src)),
        link(lex(spell(link(lex(src))))) == link(lex(src)),
{
    lemma_spell_lex(src);
    assert(spell(link(lex(src))) =~= spell(lex(src)));
    lemma_marks_lex(src);
    lemma_marks_lex(commands(src));
}

/// The entry of the bracket profile that a character gives.
pub open spec fn sign_of_char(c: char) -> int {
    if c == '[' {
        1
    } else if c == ']' {
        -1
    } else {
        0
    }
}

} // verus!
