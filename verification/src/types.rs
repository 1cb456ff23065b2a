//! The layered data model of a Morse message: symbols, coded characters,
//! words and sentences, together with their renderings, and the `(word,
//! char)` coordinate that every located error carries.

use crate::text::{dec_rep, join, push_char, push_decimal};
use vstd::prelude::*;
use vstd::string::StringExecFns;

verus! {

/// Every fallible operation of the codec reports a plain message.
pub type MorseResult<T> = Result<T, String>;

/// One Morse mark: a dash or a dot.
#[derive(Clone, Copy, PartialEq, Eq, Structural, Debug)]
pub enum Sym {
    Dash,
    Dot,
}

/// The character a symbol renders as.
pub open spec fn sym_char(y: Sym) -> char {
    match y {
        Sym::Dash => '-',
        Sym::Dot => '.',
    }
}

/// The rendering of one coded character: its symbols, with no separator.
pub open spec fn render_char(cs: Seq<Sym>) -> Seq<char> {
    cs.map_values(|y: Sym| sym_char(y))
}

/// The rendering of one word: coded characters joined by single spaces.
pub open spec fn render_word(w: Seq<Seq<Sym>>) -> Seq<char> {
    join(w.map_values(|c: Seq<Sym>| render_char(c)), seq![' '])
}

/// The rendering of a sentence: words joined by ` / `.
pub open spec fn render_sen(s: Seq<Seq<Seq<Sym>>>) -> Seq<char> {
    join(s.map_values(|w: Seq<Seq<Sym>>| render_word(w)), seq![' ', '/', ' '])
}

pub fn char_of_sym(y: Sym) -> (c: char)
    ensures
        c == sym_char(y),
{
    match y {
        Sym::Dash => '-',
        Sym::Dot => '.',
    }
}

/// The Morse coding of one plaintext character: an ordered run of symbols.
#[derive(Debug)]
pub struct Char(Vec<Sym>);

impl View for Char {
    type V = Seq<Sym>;

    closed spec fn view(&self) -> Seq<Sym> {
        self.0@
    }
}

impl Char {
    pub fn new(syms: Vec<Sym>) -> (c: Char)
        ensures
            c@ == syms@,
    {
        Char(syms)
    }

    pub fn iter(&self) -> (r: &Vec<Sym>)
        ensures
            r@ == self@,
    {
        &self.0
    }
}

impl Clone for Char {
    /// A clone renders and decodes exactly as the original.
    fn clone(&self) -> (r: Self)
        ensures
            r@ == self@,
    {
        let mut v: Vec<Sym> = Vec::new();
        let mut i: usize = 0;
        while i < self.0.len()
            invariant
                i <= self.0.len(),
                v@ == self.0@.take(i as int),
            decreases self.0.len() - i,
        {
            v.push(self.0[i]);
            proof {
                assert(self.0@.take(i as int).push(self.0@[i as int]) =~= self.0@.take(
                    i as int + 1,
                ));
            }
            i = i + 1;
        }
        proof {
            assert(self.0@.take(self.0.len() as int) =~= self.0@);
        }
        Char(v)
    }
}

impl PartialEq for Char {
    fn eq(&self, other: &Self) -> (r: bool) {
        if self.0.len() != other.0.len() {
            return false;
        }
        let mut i: usize = 0;
        while i < self.0.len()
            invariant
                i <= self.0.len(),
                self.0.len() == other.0.len(),
                forall|k: int| 0 <= k < i ==> self.0@[k] == other.0@[k],
            decreases self.0.len() - i,
        {
            if self.0[i] != other.0[i] {
                return false;
            }
            i = i + 1;
        }
        proof {
            assert(self.0@ =~= other.0@);
        }
        true
    }
}

impl vstd::std_specs::cmp::PartialEqSpecImpl for Char {
    open spec fn obeys_eq_spec() -> bool {
        true
    }

    open spec fn eq_spec(&self, other: &Self) -> bool {
        self@ == other@
    }
}

/// The Morse coding of one plaintext word: a run of coded characters.
#[derive(Debug)]
pub struct Word(Vec<Char>);

impl View for Word {
    type V = Seq<Seq<Sym>>;

    closed spec fn view(&self) -> Seq<Seq<Sym>> {
        self.0@.map_values(|c: Char| c@)
    }
}

impl Word {
    pub fn new(chars: Vec<Char>) -> (w: Word)
        ensures
            w@ == chars@.map_values(|c: Char| c@),
    {
        Word(chars)
    }

    pub fn iter(&self) -> (r: &Vec<Char>)
        ensures
            r@.map_values(|c: Char| c@) == self@,
    {
        &self.0
    }
}

/// A full Morse message: a run of words.
#[derive(Debug)]
pub struct Sen(Vec<Word>);

impl View for Sen {
    type V = Seq<Seq<Seq<Sym>>>;

    closed spec fn view(&self) -> Seq<Seq<Seq<Sym>>> {
        self.0@.map_values(|w: Word| w@)
    }
}

impl Sen {
    pub fn new(words: Vec<Word>) -> (s: Sen)
        ensures
            s@ == words@.map_values(|w: Word| w@),
    {
        Sen(words)
    }

    pub fn iter(&self) -> (r: &Vec<Word>)
        ensures
            r@.map_values(|w: Word| w@) == self@,
    {
        &self.0
    }
}

/// Renders one coded character as dots and dashes.
pub fn string_of_char(c: &Char) -> (r: String)
    ensures
        r@ == render_char(c@),
{
    let mut out = String::new();
    let mut i: usize = 0;
    proof {
        assert(out@ =~= render_char(c@.take(0)));
    }
    while i < c.0.len()
        invariant
            i <= c.0.len(),
            out@ == render_char(c@.take(i as int)),
        decreases c.0.len() - i,
    {
        push_char(&mut out, char_of_sym(c.0[i]));
        proof {
            assert(c@.take(i as int + 1) =~= c@.take(i as int).push(c@[i as int]));
            assert(render_char(c@.take(i as int + 1)) =~= render_char(c@.take(i as int)).push(
                sym_char(c@[i as int]),
            ));
            assert(render_char(c@.take(i as int)) + seq![sym_char(c@[i as int])] =~= render_char(
                c@.take(i as int),
            ).push(sym_char(c@[i as int])));
        }
        i = i + 1;
    }
    proof {
        assert(c@.take(c.0.len() as int) =~= c@);
    }
    out
}

/// Renders one word: coded characters joined by single spaces.
pub fn string_of_word(w: &Word) -> (r: String)
    ensures
        r@ == render_word(w@),
{
    let ghost parts = w@.map_values(|c: Seq<Sym>| render_char(c));
    let mut out = String::new();
    let mut j: usize = 0;
    proof {
        assert(join(parts.take(0), seq![' ']) =~= out@);
    }
    while j < w.0.len()
        invariant
            j <= w.0.len(),
            parts == w@.map_values(|c: Seq<Sym>| render_char(c)),
            out@ == join(parts.take(j as int), seq![' ']),
        decreases w.0.len() - j,
    {
        if j > 0 {
            push_char(&mut out, ' ');
        }
        let piece = string_of_char(&w.0[j]);
        out.append(piece.as_str());
        proof {
            assert(parts[j as int] == render_char(w@[j as int]));
            assert(w@[j as int] == w.0@[j as int]@);
            assert(parts.take(j as int + 1) =~= parts.take(j as int).push(parts[j as int]));
            crate::text::lemma_join_push(parts.take(j as int), seq![' '], parts[j as int]);
            if j > 0 {
                assert(out@ =~= join(parts.take(j as int), seq![' ']) + seq![' ']
                    + parts[j as int]);
            } else {
                assert(parts.take(0int) =~= Seq::<Seq<char>>::empty());
                assert(out@ =~= parts[0int]);
            }
        }
        j = j + 1;
    }
    proof {
        assert(parts.take(w.0.len() as int) =~= parts);
    }
    out
}

/// Renders a sentence: words joined by ` / `; empty sentences render empty.
pub fn string_of_sen(s: &Sen) -> (r: String)
    ensures
        r@ == render_sen(s@),
{
    let ghost parts = s@.map_values(|w: Seq<Seq<Sym>>| render_word(w));
    let mut out = String::new();
    let mut i: usize = 0;
    proof {
        assert(join(parts.take(0), seq![' ', '/', ' ']) =~= out@);
    }
    while i < s.0.len()
        invariant
            i <= s.0.len(),
            parts == s@.map_values(|w: Seq<Seq<Sym>>| render_word(w)),
            out@ == join(parts.take(i as int), seq![' ', '/', ' ']),
        decreases s.0.len() - i,
    {
        if i > 0 {
            push_char(&mut out, ' ');
            push_char(&mut out, '/');
            push_char(&mut out, ' ');
        }
        let piece = string_of_word(&s.0[i]);
        out.append(piece.as_str());
        proof {
            assert(parts[i as int] == render_word(s@[i as int]));
            assert(s@[i as int] == s.0@[i as int]@);
            assert(parts.take(i as int + 1) =~= parts.take(i as int).push(parts[i as int]));
            crate::text::lemma_join_push(parts.take(i as int), seq![' ', '/', ' '], parts[i as int]);
            if i > 0 {
                assert(out@ =~= join(parts.take(i as int), seq![' ', '/', ' ']) + seq![' ', '/', ' ']
                    + parts[i as int]);
            } else {
                assert(parts.take(0int) =~= Seq::<Seq<char>>::empty());
                assert(out@ =~= parts[0int]);
            }
        }
        i = i + 1;
    }
    proof {
        assert(parts.take(s.0.len() as int) =~= parts);
    }
    out
}

/// A 0-based (word, char) coordinate; rendered 1-based for humans.
#[derive(Clone, Copy, Debug)]
pub struct Pos(pub usize, pub usize);

/// The display form of a coordinate: `(word W, char C)`, 1-based.
pub open spec fn pos_text(w: nat, c: nat) -> Seq<char> {
    "(word "@ + dec_rep(w + 1) + ", char "@ + dec_rep(c + 1) + ")"@
}

impl Pos {
    /// The 1-based display form `(word W, char C)`.
    pub fn render(&self) -> (r: String)
        requires
            self.0 < usize::MAX,
            self.1 < usize::MAX,
        ensures
            r@ == pos_text(self.0 as nat, self.1 as nat),
    {
        let mut out = String::new();
        out.append("(word ");
        push_decimal(&mut out, self.0 + 1);
        out.append(", char ");
        push_decimal(&mut out, self.1 + 1);
        out.append(")");
        proof {
            assert(out@ =~= pos_text(self.0 as nat, self.1 as nat));
        }
        out
    }
}

} // verus!
