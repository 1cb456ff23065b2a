//! The symbol table and the two translation directions.
//!
//! A `SymbolMap` is a list of entries `(plaintext char, coded char,
//! canonical)`.  Every entry serves the encoding direction; only canonical
//! entries serve the decoding direction, so two plaintext characters may
//! deliberately share one coded character (the parenthesis pair of the
//! default table) while decoding stays a function.  The builder rejects a
//! repeated plaintext character, and — for canonical entries — a repeated
//! coded character.

use crate::parse;
use crate::parse::{parse_err_of, parse_ok, parse_syms};
use crate::text::{
    chars_of, first_fail, is_ws, join, lemma_first_fail, lemma_join_push, lower_of, lowercase,
    push_char, split_ws, split_ws_exec, string_of_range, trim, trim_bounds,
};
use crate::types::{
    pos_text, render_char, render_sen, string_of_char, string_of_sen, Char, MorseResult, Pos, Sen,
    Sym, Word,
};
use crate::types::Sym::{Dash, Dot};
use vstd::prelude::*;
use vstd::string::StringExecFns;

verus! {

/// The encoding direction of a list of entries: the first entry for each
/// plaintext character wins.
pub open spec fn plain_map_of(es: Seq<(char, Seq<Sym>, bool)>) -> Map<char, Seq<Sym>>
    decreases es.len(),
{
    if es.len() == 0 {
        Map::<char, Seq<Sym>>::empty()
    } else {
        plain_map_of(es.drop_first()).insert(es[0].0, es[0].1)
    }
}

/// The decoding direction: the first canonical entry for each coded
/// character wins; alias entries do not decode.
pub open spec fn code_map_of(es: Seq<(char, Seq<Sym>, bool)>) -> Map<Seq<Sym>, char>
    decreases es.len(),
{
    if es.len() == 0 {
        Map::<Seq<Sym>, char>::empty()
    } else {
        let m = code_map_of(es.drop_first());
        if es[0].2 {
            m.insert(es[0].1, es[0].0)
        } else {
            m
        }
    }
}

/// Some entry carries this plaintext character.
pub open spec fn has_plain(es: Seq<(char, Seq<Sym>, bool)>, p: char) -> bool {
    exists|k: int| 0 <= k < es.len() && (#[trigger] es[k]).0 == p
}

/// Some entry carries this coded character, canonical or alias.
pub open spec fn has_code(es: Seq<(char, Seq<Sym>, bool)>, code: Seq<Sym>) -> bool {
    exists|k: int| 0 <= k < es.len() && (#[trigger] es[k]).1 == code
}

/// The two uniqueness invariants of a table: no plaintext character twice,
/// and no coded character twice among the canonical entries.
pub open spec fn entries_wf(es: Seq<(char, Seq<Sym>, bool)>) -> bool {
    &&& forall|i: int, j: int|
        0 <= i < j < es.len() ==> (#[trigger] es[i]).0 != (#[trigger] es[j]).0
    &&& forall|i: int, j: int|
        0 <= i < j < es.len() && (#[trigger] es[i]).2 && (#[trigger] es[j]).2 ==> es[i].1
            != es[j].1
}

proof fn lemma_plain_map_first(es: Seq<(char, Seq<Sym>, bool)>, p: char, i: int)
    requires
        0 <= i < es.len(),
        es[i].0 == p,
        forall|k: int| 0 <= k < i ==> (#[trigger] es[k]).0 != p,
    ensures
        plain_map_of(es).contains_key(p),
        plain_map_of(es)[p] == es[i].1,
    decreases i,
{
    if i > 0 {
        assert(es.drop_first()[i - 1] == es[i]);
        assert(forall|k: int| 0 <= k < i - 1 ==> (#[trigger] es.drop_first()[k]).0 != p);
        lemma_plain_map_first(es.drop_first(), p, i - 1);
        assert(es[0].0 != p);
    }
}

proof fn lemma_plain_map_none(es: Seq<(char, Seq<Sym>, bool)>, p: char)
    requires
        forall|k: int| 0 <= k < es.len() ==> (#[trigger] es[k]).0 != p,
    ensures
        !plain_map_of(es).contains_key(p),
    decreases es.len(),
{
    if es.len() > 0 {
        assert(forall|k: int| 0 <= k < es.len() - 1 ==> (#[trigger] es.drop_first()[k]).0 != p);
        lemma_plain_map_none(es.drop_first(), p);
    }
}

proof fn lemma_code_map_first(es: Seq<(char, Seq<Sym>, bool)>, code: Seq<Sym>, i: int)
    requires
        0 <= i < es.len(),
        es[i].2,
        es[i].1 == code,
        forall|k: int| 0 <= k < i ==> !((#[trigger] es[k]).2 && es[k].1 == code),
    ensures
        code_map_of(es).contains_key(code),
        code_map_of(es)[code] == es[i].0,
    decreases i,
{
    if i > 0 {
        assert(es.drop_first()[i - 1] == es[i]);
        assert(forall|k: int|
            0 <= k < i - 1 ==> !((#[trigger] es.drop_first()[k]).2 && es.drop_first()[k].1
                == code));
        lemma_code_map_first(es.drop_first(), code, i - 1);
        assert(!(es[0].2 && es[0].1 == code));
    }
}

proof fn lemma_code_map_none(es: Seq<(char, Seq<Sym>, bool)>, code: Seq<Sym>)
    requires
        forall|k: int| 0 <= k < es.len() ==> !((#[trigger] es[k]).2 && es[k].1 == code),
    ensures
        !code_map_of(es).contains_key(code),
    decreases es.len(),
{
    if es.len() > 0 {
        assert(forall|k: int|
            0 <= k < es.len() - 1 ==> !((#[trigger] es.drop_first()[k]).2 && es.drop_first()[k].1
                == code));
        lemma_code_map_none(es.drop_first(), code);
    }
}

/// The bidirectional dictionary between plaintext and coded characters.
#[derive(Debug)]
pub struct SymbolMap {
    entries: Vec<(char, Char, bool)>,
}

impl SymbolMap {
    /// The entries as plain values: (plaintext char, symbols, canonical).
    pub closed spec fn entries(&self) -> Seq<(char, Seq<Sym>, bool)> {
        self.entries@.map_values(|e: (char, Char, bool)| (e.0, e.1@, e.2))
    }

    pub open spec fn plain_map(&self) -> Map<char, Seq<Sym>> {
        plain_map_of(self.entries())
    }

    pub open spec fn code_map(&self) -> Map<Seq<Sym>, char> {
        code_map_of(self.entries())
    }

    pub open spec fn wf(&self) -> bool {
        entries_wf(self.entries())
    }

    /// A table whose every pair serves both directions, taken as given:
    /// the caller answers for duplicates (the builder checks them).
    pub fn new(pairs: Vec<(char, Char)>) -> (m: SymbolMap)
        ensures
            m.entries() == pairs@.map_values(|p: (char, Char)| (p.0, p.1@, true)),
    {
        let ghost target = pairs@.map_values(|p: (char, Char)| (p.0, p.1@, true));
        let mut entries: Vec<(char, Char, bool)> = Vec::new();
        let mut k: usize = 0;
        proof {
            assert(entries@.map_values(|e: (char, Char, bool)| (e.0, e.1@, e.2)) =~= target.take(
                0,
            ));
        }
        while k < pairs.len()
            invariant
                k <= pairs@.len(),
                target == pairs@.map_values(|p: (char, Char)| (p.0, p.1@, true)),
                entries@.map_values(|e: (char, Char, bool)| (e.0, e.1@, e.2)) == target.take(
                    k as int,
                ),
            decreases pairs@.len() - k,
        {
            let ghost ev = entries@;
            let code = pairs[k].1.clone();
            entries.push((pairs[k].0, code, true));
            proof {
                assert(entries@.map_values(|e: (char, Char, bool)| (e.0, e.1@, e.2)) =~= ev
                    .map_values(|e: (char, Char, bool)| (e.0, e.1@, e.2)).push(target[k as int]));
                assert(target.take(k as int + 1) =~= target.take(k as int).push(target[k as int]));
            }
            k = k + 1;
        }
        proof {
            assert(target.take(pairs@.len() as int) =~= target);
        }
        SymbolMap { entries }
    }

    /// The coded character for a plaintext character, or a message that the
    /// character is unknown.
    pub fn get_morse(&self, plaintext: char) -> (r: MorseResult<Char>)
        ensures
            match r {
                Ok(code) => self.plain_map().contains_key(plaintext) && code@
                    == self.plain_map()[plaintext],
                Err(m) => !self.plain_map().contains_key(plaintext) && m@ == seq![plaintext]
                    + " is not a valid symbol"@,
            },
    {
        let mut k: usize = 0;
        while k < self.entries.len()
            invariant
                k <= self.entries@.len(),
                forall|x: int| 0 <= x < k ==> (#[trigger] self.entries()[x]).0 != plaintext,
            decreases self.entries@.len() - k,
        {
            assert(self.entries()[k as int] == (
                self.entries@[k as int].0,
                self.entries@[k as int].1@,
                self.entries@[k as int].2,
            ));
            if self.entries[k].0 == plaintext {
                proof {
                    lemma_plain_map_first(self.entries(), plaintext, k as int);
                }
                return Ok(self.entries[k].1.clone());
            }
            k = k + 1;
        }
        proof {
            lemma_plain_map_none(self.entries(), plaintext);
        }
        let mut m = String::new();
        push_char(&mut m, plaintext);
        m.append(" is not a valid symbol");
        proof {
            assert(m@ =~= seq![plaintext] + " is not a valid symbol"@);
        }
        Err(m)
    }

    /// The canonical plaintext character for a coded character, or a
    /// message that the sequence is unknown.
    pub fn get_plain(&self, morse: Char) -> (r: MorseResult<char>)
        ensures
            match r {
                Ok(p) => self.code_map().contains_key(morse@) && p == self.code_map()[morse@],
                Err(m) => !self.code_map().contains_key(morse@) && m@ == render_char(morse@)
                    + " is not a valid morse sequence"@,
            },
    {
        let mut k: usize = 0;
        while k < self.entries.len()
            invariant
                k <= self.entries@.len(),
                forall|x: int|
                    0 <= x < k ==> !((#[trigger] self.entries()[x]).2 && self.entries()[x].1
                        == morse@),
            decreases self.entries@.len() - k,
        {
            assert(self.entries()[k as int] == (
                self.entries@[k as int].0,
                self.entries@[k as int].1@,
                self.entries@[k as int].2,
            ));
            if self.entries[k].2 && self.entries[k].1 == morse {
                proof {
                    lemma_code_map_first(self.entries(), morse@, k as int);
                }
                return Ok(self.entries[k].0);
            }
            k = k + 1;
        }
        proof {
            lemma_code_map_none(self.entries(), morse@);
        }
        let mut m = string_of_char(&morse);
        m.append(" is not a valid morse sequence");
        Err(m)
    }
}

/// The message a rejected builder insertion carries.
pub open spec fn dup_err_text(p: char, code: Seq<Sym>) -> Seq<char> {
    "duplicate error: failed to add ("@ + seq![p] + ", "@ + render_char(code)
        + ") as it's a duplicate entry"@
}

/// Builds a `SymbolMap` pair by pair, rejecting duplicates as it goes.
#[derive(Debug)]
pub struct SymbolMapBuilder {
    entries: Vec<(char, Char, bool)>,
}

impl SymbolMapBuilder {
    /// The entries accepted so far, as plain values.
    pub closed spec fn entries(&self) -> Seq<(char, Seq<Sym>, bool)> {
        self.entries@.map_values(|e: (char, Char, bool)| (e.0, e.1@, e.2))
    }

    pub open spec fn wf(&self) -> bool {
        entries_wf(self.entries())
    }

    pub fn new() -> (b: SymbolMapBuilder)
        ensures
            b.entries() == Seq::<(char, Seq<Sym>, bool)>::empty(),
            b.wf(),
    {
        let b = SymbolMapBuilder { entries: Vec::new() };
        proof {
            assert(b.entries() =~= Seq::<(char, Seq<Sym>, bool)>::empty());
        }
        b
    }

    /// Accepts a pair serving both directions, unless its plaintext
    /// character or its coded character is already present.
    pub fn with(self, plain: char, cipher: Char) -> (r: MorseResult<SymbolMapBuilder>)
        ensures
            match r {
                Ok(b) => {
                    &&& !has_plain(self.entries(), plain)
                    &&& !has_code(self.entries(), cipher@)
                    &&& b.entries() == self.entries().push((plain, cipher@, true))
                    &&& self.wf() ==> b.wf()
                },
                Err(m) => {
                    &&& has_plain(self.entries(), plain) || has_code(self.entries(), cipher@)
                    &&& m@ == dup_err_text(plain, cipher@)
                },
            },
    {
        if self.find_duplicate(plain, &cipher, false) {
            return Err(dup_message(plain, &cipher));
        }
        let ghost before = self.entries();
        let ghost cv = cipher@;
        let mut entries = self.entries;
        entries.push((plain, cipher, true));
        let b = SymbolMapBuilder { entries };
        proof {
            assert(b.entries() =~= before.push((plain, cv, true)));
        }
        Ok(b)
    }

    /// Accepts an alias: the pair encodes, but never decodes; only its
    /// plaintext character must be fresh.
    pub fn with_alias(self, plain: char, cipher: Char) -> (r: MorseResult<SymbolMapBuilder>)
        ensures
            match r {
                Ok(b) => {
                    &&& !has_plain(self.entries(), plain)
                    &&& b.entries() == self.entries().push((plain, cipher@, false))
                    &&& self.wf() ==> b.wf()
                },
                Err(m) => has_plain(self.entries(), plain) && m@ == dup_err_text(plain, cipher@),
            },
    {
        if self.find_duplicate(plain, &cipher, true) {
            return Err(dup_message(plain, &cipher));
        }
        let ghost before = self.entries();
        let ghost cv = cipher@;
        let mut entries = self.entries;
        entries.push((plain, cipher, false));
        let b = SymbolMapBuilder { entries };
        proof {
            assert(b.entries() =~= before.push((plain, cv, false)));
        }
        Ok(b)
    }

    /// Whether `plain` is already present — or, unless `plain_only`, the
    /// coded character is.
    fn find_duplicate(&self, plain: char, cipher: &Char, plain_only: bool) -> (dup: bool)
        ensures
            dup == (has_plain(self.entries(), plain) || (!plain_only && has_code(
                self.entries(),
                cipher@,
            ))),
    {
        let mut k: usize = 0;
        while k < self.entries.len()
            invariant
                k <= self.entries@.len(),
                forall|x: int| 0 <= x < k ==> (#[trigger] self.entries()[x]).0 != plain,
                forall|x: int|
                    0 <= x < k ==> plain_only || (#[trigger] self.entries()[x]).1 != cipher@,
            decreases self.entries@.len() - k,
        {
            assert(self.entries()[k as int] == (
                self.entries@[k as int].0,
                self.entries@[k as int].1@,
                self.entries@[k as int].2,
            ));
            if self.entries[k].0 == plain {
                return true;
            }
            if !plain_only && self.entries[k].1 == *cipher {
                return true;
            }
            k = k + 1;
        }
        false
    }

    /// Seals the accepted entries into a table.
    pub fn build(self) -> (m: SymbolMap)
        ensures
            m.entries() == self.entries(),
    {
        SymbolMap { entries: self.entries }
    }
}

// ---------------------------------------------------------------- encoding

pub open spec fn enc_word_ok(w: Seq<char>, pm: Map<char, Seq<Sym>>) -> bool {
    forall|k: int| 0 <= k < w.len() ==> pm.contains_key(#[trigger] w[k])
}

/// The coded characters of one plaintext word under table `pm`.
pub open spec fn enc_word_syms(w: Seq<char>, pm: Map<char, Seq<Sym>>) -> Seq<Seq<Sym>> {
    w.map_values(|c: char| pm[c])
}

pub open spec fn encode_ok(t: Seq<char>, pm: Map<char, Seq<Sym>>) -> bool {
    forall|i: int| 0 <= i < split_ws(t).len() ==> enc_word_ok(#[trigger] split_ws(t)[i], pm)
}

/// The sentence a plaintext encodes to: its whitespace-separated words,
/// each character looked up in the table.
pub open spec fn encode_syms(t: Seq<char>, pm: Map<char, Seq<Sym>>) -> Seq<Seq<Seq<Sym>>> {
    split_ws(t).map_values(|w: Seq<char>| enc_word_syms(w, pm))
}

/// The message for an unknown plaintext character at (0-based) word `w`,
/// char `j`.
pub open spec fn enc_err_text(c: char, w: nat, j: nat) -> Seq<char> {
    "invalid character '"@ + seq![c] + "' at position "@ + pos_text(w, j)
}

/// The located message for the first unknown character of word `w` at
/// index `i`.
pub open spec fn enc_word_err_text(w: Seq<char>, i: nat, pm: Map<char, Seq<Sym>>) -> Seq<char> {
    let j = first_fail(w, |c: char| pm.contains_key(c));
    enc_err_text(w[j], i, j as nat)
}

/// The located message for the first unknown character of the plaintext.
pub open spec fn encode_err_of(t: Seq<char>, pm: Map<char, Seq<Sym>>) -> Seq<char> {
    let ws = split_ws(t);
    let i = first_fail(ws, |w: Seq<char>| enc_word_ok(w, pm));
    enc_word_err_text(ws[i], i as nat, pm)
}

/// Looks up one plaintext character, or reports it unknown at `p`.
fn encode_char(p: Pos, c: char, map: &SymbolMap) -> (r: MorseResult<Char>)
    requires
        p.0 < usize::MAX,
        p.1 < usize::MAX,
    ensures
        match r {
            Ok(code) => map.plain_map().contains_key(c) && code@ == map.plain_map()[c],
            Err(m) => !map.plain_map().contains_key(c) && m@ == enc_err_text(
                c,
                p.0 as nat,
                p.1 as nat,
            ),
        },
{
    match map.get_morse(c) {
        Ok(code) => Ok(code),
        Err(_) => {
            let mut m = String::new();
            m.append("invalid character '");
            push_char(&mut m, c);
            m.append("' at position ");
            let ptxt = p.render();
            m.append(ptxt.as_str());
            proof {
                assert(m@ =~= enc_err_text(c, p.0 as nat, p.1 as nat));
            }
            Err(m)
        },
    }
}

/// Encodes one plaintext word, or reports its first unknown character.
fn encode_word(word_number: usize, plaintext: &Vec<char>, map: &SymbolMap) -> (r: MorseResult<
    Word,
>)
    requires
        word_number < usize::MAX,
    ensures
        match r {
            Ok(w) => enc_word_ok(plaintext@, map.plain_map()) && w@ == enc_word_syms(
                plaintext@,
                map.plain_map(),
            ),
            Err(m) => !enc_word_ok(plaintext@, map.plain_map()) && m@ == enc_word_err_text(
                plaintext@,
                word_number as nat,
                map.plain_map(),
            ),
        },
{
    let ghost pm = map.plain_map();
    let mut chars: Vec<Char> = Vec::new();
    let mut j: usize = 0;
    proof {
        assert(chars@.map_values(|c: Char| c@) =~= plaintext@.take(0).map_values(
            |c: char| pm[c],
        ));
    }
    while j < plaintext.len()
        invariant
            j <= plaintext@.len(),
            pm == map.plain_map(),
            forall|x: int| 0 <= x < j ==> pm.contains_key(#[trigger] plaintext@[x]),
            chars@.map_values(|c: Char| c@) == plaintext@.take(j as int).map_values(
                |c: char| pm[c],
            ),
        decreases plaintext@.len() - j,
    {
        match encode_char(Pos(word_number, j), plaintext[j], map) {
            Ok(code) => {
                let ghost cv = chars@;
                chars.push(code);
                proof {
                    assert(chars@.map_values(|c: Char| c@) =~= cv.map_values(|c: Char| c@).push(
                        pm[plaintext@[j as int]],
                    ));
                    assert(plaintext@.take(j as int + 1) =~= plaintext@.take(j as int).push(
                        plaintext@[j as int],
                    ));
                    assert(plaintext@.take(j as int + 1).map_values(|c: char| pm[c])
                        =~= plaintext@.take(j as int).map_values(|c: char| pm[c]).push(
                        pm[plaintext@[j as int]],
                    ));
                }
            },
            Err(m) => {
                proof {
                    lemma_first_fail(plaintext@, |c: char| pm.contains_key(c), j as int);
                }
                return Err(m);
            },
        }
        j = j + 1;
    }
    proof {
        assert(plaintext@.take(plaintext@.len() as int) =~= plaintext@);
    }
    Ok(Word::new(chars))
}

/// Encodes plaintext that is already in the table's (lower) case: splits
/// it at whitespace runs, looks every character up, and renders the
/// resulting sentence.
pub fn encode_lowered(t: &str, map: &SymbolMap) -> (r: MorseResult<String>)
    ensures
        match r {
            Ok(out) => encode_ok(t@, map.plain_map()) && out@ == render_sen(
                encode_syms(t@, map.plain_map()),
            ),
            Err(m) => !encode_ok(t@, map.plain_map()) && m@ == encode_err_of(
                t@,
                map.plain_map(),
            ),
        },
{
    let ghost pm = map.plain_map();
    let v = chars_of(t);
    let toks = split_ws_exec(&v);
    let ghost wv = toks@.map_values(|w: Vec<char>| w@);
    let mut words: Vec<Word> = Vec::new();
    let mut i: usize = 0;
    proof {
        assert(words@.map_values(|w: Word| w@) =~= wv.take(0).map_values(
            |w: Seq<char>| enc_word_syms(w, pm),
        ));
    }
    while i < toks.len()
        invariant
            i <= toks@.len(),
            pm == map.plain_map(),
            wv == split_ws(t@),
            wv == toks@.map_values(|w: Vec<char>| w@),
            forall|x: int| 0 <= x < i ==> enc_word_ok(#[trigger] wv[x], pm),
            words@.map_values(|w: Word| w@) == wv.take(i as int).map_values(
                |w: Seq<char>| enc_word_syms(w, pm),
            ),
        decreases toks@.len() - i,
    {
        assert(toks@[i as int]@ == wv[i as int]);
        match encode_word(i, &toks[i], map) {
            Ok(w) => {
                let ghost done = words@;
                words.push(w);
                proof {
                    assert(words@.map_values(|w: Word| w@) =~= done.map_values(
                        |w: Word| w@,
                    ).push(enc_word_syms(wv[i as int], pm)));
                    assert(wv.take(i as int + 1) =~= wv.take(i as int).push(wv[i as int]));
                    assert(wv.take(i as int + 1).map_values(|w: Seq<char>| enc_word_syms(w, pm))
                        =~= wv.take(i as int).map_values(|w: Seq<char>| enc_word_syms(w, pm)).push(
                        enc_word_syms(wv[i as int], pm),
                    ));
                }
            },
            Err(m) => {
                proof {
                    lemma_first_fail(wv, |w: Seq<char>| enc_word_ok(w, pm), i as int);
                }
                return Err(m);
            },
        }
        i = i + 1;
    }
    proof {
        assert(wv.take(wv.len() as int) =~= wv);
    }
    let sen = Sen::new(words);
    Ok(string_of_sen(&sen))
}

/// Encodes plaintext: folds its case, then translates word by word.  On an
/// unknown character the message locates it in the whitespace-split, folded
/// text, 1-based.
pub fn encode(plaintext: &str, map: &SymbolMap) -> (r: MorseResult<String>)
    ensures
        match r {
            Ok(out) => encode_ok(lower_of(plaintext@), map.plain_map()) && out@ == render_sen(
                encode_syms(lower_of(plaintext@), map.plain_map()),
            ),
            Err(m) => !encode_ok(lower_of(plaintext@), map.plain_map()) && m@ == encode_err_of(
                lower_of(plaintext@),
                map.plain_map(),
            ),
        },
{
    let lowered = lowercase(plaintext);
    encode_lowered(lowered.as_str(), map)
}

// ---------------------------------------------------------------- decoding

pub open spec fn dec_word_ok(w: Seq<Seq<Sym>>, cm: Map<Seq<Sym>, char>) -> bool {
    forall|j: int| 0 <= j < w.len() ==> cm.contains_key(#[trigger] w[j])
}

pub open spec fn decode_ok(sen: Seq<Seq<Seq<Sym>>>, cm: Map<Seq<Sym>, char>) -> bool {
    forall|i: int| 0 <= i < sen.len() ==> dec_word_ok(#[trigger] sen[i], cm)
}

/// The plaintext of one decoded word: its coded characters looked up, in
/// order, with no separator.
pub open spec fn dec_word_text(w: Seq<Seq<Sym>>, cm: Map<Seq<Sym>, char>) -> Seq<char> {
    w.map_values(|c: Seq<Sym>| cm[c])
}

/// The plaintext of a decoded sentence: words joined by single spaces,
/// then trimmed.
pub open spec fn decoded_text(sen: Seq<Seq<Seq<Sym>>>, cm: Map<Seq<Sym>, char>) -> Seq<char> {
    trim(join(sen.map_values(|w: Seq<Seq<Sym>>| dec_word_text(w, cm)), seq![' ']))
}

/// The message for an unknown coded character at (0-based) word `w`, char
/// `j`.
pub open spec fn dec_err_text(code: Seq<Sym>, w: nat, j: nat) -> Seq<char> {
    "invalid morse sequence ["@ + render_char(code) + "] at position "@ + pos_text(w, j)
}

/// The located message for the first unknown coded character of word `w`
/// at index `i`.
pub open spec fn dec_word_err_text(w: Seq<Seq<Sym>>, i: nat, cm: Map<Seq<Sym>, char>) -> Seq<
    char,
> {
    let j = first_fail(w, |c: Seq<Sym>| cm.contains_key(c));
    dec_err_text(w[j], i, j as nat)
}

/// The located message for the first unknown coded character of the
/// sentence.
pub open spec fn decode_err_of(sen: Seq<Seq<Seq<Sym>>>, cm: Map<Seq<Sym>, char>) -> Seq<char> {
    let i = first_fail(sen, |w: Seq<Seq<Sym>>| dec_word_ok(w, cm));
    dec_word_err_text(sen[i], i as nat, cm)
}

/// Looks up one coded character, or reports it unknown at `p`.
fn decode_character(p: Pos, code: &Char, map: &SymbolMap) -> (r: MorseResult<char>)
    requires
        p.0 < usize::MAX,
        p.1 < usize::MAX,
    ensures
        match r {
            Ok(c) => map.code_map().contains_key(code@) && c == map.code_map()[code@],
            Err(m) => !map.code_map().contains_key(code@) && m@ == dec_err_text(
                code@,
                p.0 as nat,
                p.1 as nat,
            ),
        },
{
    match map.get_plain(code.clone()) {
        Ok(c) => Ok(c),
        Err(_) => {
            let mut m = String::new();
            m.append("invalid morse sequence [");
            let rendered = string_of_char(code);
            m.append(rendered.as_str());
            m.append("] at position ");
            let ptxt = p.render();
            m.append(ptxt.as_str());
            proof {
                assert(m@ =~= dec_err_text(code@, p.0 as nat, p.1 as nat));
            }
            Err(m)
        },
    }
}

/// Decodes one word into its plaintext characters, or reports its first
/// unknown coded character.
fn decode_word(index: usize, word: &Word, map: &SymbolMap) -> (r: MorseResult<Vec<char>>)
    requires
        index < usize::MAX,
    ensures
        match r {
            Ok(cs) => dec_word_ok(word@, map.code_map()) && cs@ == dec_word_text(
                word@,
                map.code_map(),
            ),
            Err(m) => !dec_word_ok(word@, map.code_map()) && m@ == dec_word_err_text(
                word@,
                index as nat,
                map.code_map(),
            ),
        },
{
    let ghost cm = map.code_map();
    let chars = word.iter();
    let mut out: Vec<char> = Vec::new();
    let mut j: usize = 0;
    proof {
        assert(out@ =~= word@.take(0).map_values(|c: Seq<Sym>| cm[c]));
    }
    while j < chars.len()
        invariant
            j <= chars@.len(),
            cm == map.code_map(),
            chars@.map_values(|c: Char| c@) == word@,
            forall|x: int| 0 <= x < j ==> cm.contains_key(#[trigger] word@[x]),
            out@ == word@.take(j as int).map_values(|c: Seq<Sym>| cm[c]),
        decreases chars@.len() - j,
    {
        assert(chars@[j as int]@ == word@[j as int]);
        match decode_character(Pos(index, j), &chars[j], map) {
            Ok(c) => {
                out.push(c);
                proof {
                    assert(word@.take(j as int + 1) =~= word@.take(j as int).push(
                        word@[j as int],
                    ));
                    assert(word@.take(j as int + 1).map_values(|c: Seq<Sym>| cm[c]) =~= word@.take(
                        j as int,
                    ).map_values(|c: Seq<Sym>| cm[c]).push(cm[word@[j as int]]));
                }
            },
            Err(m) => {
                proof {
                    lemma_first_fail(word@, |c: Seq<Sym>| cm.contains_key(c), j as int);
                }
                return Err(m);
            },
        }
        j = j + 1;
    }
    proof {
        assert(word@.take(word@.len() as int) =~= word@);
    }
    Ok(out)
}

/// Decodes ciphertext: parses it, looks every coded character up, joins
/// the words with single spaces and trims the result.  A parse error or an
/// unknown coded character is reported with its (word, char) coordinate.
pub fn decode(cipher: &str, map: &SymbolMap) -> (r: MorseResult<String>)
    ensures
        match r {
            Ok(out) => parse_ok(cipher@) && decode_ok(parse_syms(cipher@), map.code_map())
                && out@ == decoded_text(parse_syms(cipher@), map.code_map()),
            Err(m) => (!parse_ok(cipher@) && m@ == parse_err_of(cipher@)) || (parse_ok(cipher@)
                && !decode_ok(parse_syms(cipher@), map.code_map()) && m@ == decode_err_of(
                parse_syms(cipher@),
                map.code_map(),
            )),
        },
{
    let ghost cm = map.code_map();
    let sen = match parse::parse(cipher) {
        Ok(sen) => sen,
        Err(m) => {
            return Err(m);
        },
    };
    let words = sen.iter();
    let ghost sv = sen@;
    let ghost parts = sv.map_values(|w: Seq<Seq<Sym>>| dec_word_text(w, cm));
    let mut joined: Vec<char> = Vec::new();
    let mut i: usize = 0;
    proof {
        assert(joined@ =~= join(parts.take(0), seq![' ']));
    }
    while i < words.len()
        invariant
            i <= words@.len(),
            cm == map.code_map(),
            sv == sen@,
            words@.map_values(|w: Word| w@) == sv,
            parts == sv.map_values(|w: Seq<Seq<Sym>>| dec_word_text(w, cm)),
            forall|x: int| 0 <= x < i ==> dec_word_ok(#[trigger] sv[x], cm),
            joined@ == join(parts.take(i as int), seq![' ']),
        decreases words@.len() - i,
    {
        assert(words@[i as int]@ == sv[i as int]);
        match decode_word(i, &words[i], map) {
            Ok(cs) => {
                let mut cs = cs;
                if i > 0 {
                    joined.push(' ');
                }
                joined.append(&mut cs);
                proof {
                    assert(parts[i as int] == dec_word_text(sv[i as int], cm));
                    assert(parts.take(i as int + 1) =~= parts.take(i as int).push(
                        parts[i as int],
                    ));
                    lemma_join_push(parts.take(i as int), seq![' '], parts[i as int]);
                    if i > 0 {
                        assert(joined@ =~= join(parts.take(i as int), seq![' ']) + seq![' ']
                            + parts[i as int]);
                    } else {
                        assert(parts.take(0int) =~= Seq::<Seq<char>>::empty());
                        assert(joined@ =~= parts[0int]);
                    }
                }
            },
            Err(m) => {
                proof {
                    lemma_first_fail(sv, |w: Seq<Seq<Sym>>| dec_word_ok(w, cm), i as int);
                }
                return Err(m);
            },
        }
        i = i + 1;
    }
    proof {
        assert(parts.take(parts.len() as int) =~= parts);
    }
    let bounds = trim_bounds(&joined);
    let out = string_of_range(&joined, bounds.0, bounds.1);
    Ok(out)
}

/// The pair at `i` repeats the plaintext or the coded character of an
/// earlier pair.
pub open spec fn dup_at(pv: Seq<(char, Seq<Sym>)>, i: int) -> bool {
    exists|k: int|
        0 <= k < i && ((#[trigger] pv[k]).0 == pv[i].0 || pv[k].1 == pv[i].1)
}

/// Builds a table from a list of pairs, each serving both directions:
/// every pair is checked against all earlier ones, and the first repeated
/// plaintext or coded character is rejected.
pub fn build_symbol_table(pairs: Vec<(char, Char)>) -> (r: MorseResult<SymbolMap>)
    ensures
        match r {
            Ok(m) => {
                let pv = pairs@.map_values(|p: (char, Char)| (p.0, p.1@));
                &&& forall|i: int| 0 <= i < pv.len() ==> !dup_at(pv, i)
                &&& m.entries() == pairs@.map_values(|p: (char, Char)| (p.0, p.1@, true))
                &&& m.wf()
            },
            Err(msg) => {
                let pv = pairs@.map_values(|p: (char, Char)| (p.0, p.1@));
                exists|i: int|
                    {
                        &&& 0 <= i < pv.len()
                        &&& #[trigger] dup_at(pv, i)
                        &&& forall|k: int| 0 <= k < i ==> !dup_at(pv, k)
                        &&& msg@ == dup_err_text(pv[i].0, pv[i].1)
                    }
            },
        },
{
    let ghost pv = pairs@.map_values(|p: (char, Char)| (p.0, p.1@));
    let mut b = SymbolMapBuilder::new();
    let mut i: usize = 0;
    proof {
        assert(b.entries() =~= pv.take(0).map_values(|p: (char, Seq<Sym>)| (p.0, p.1, true)));
    }
    while i < pairs.len()
        invariant
            i <= pairs@.len(),
            pv == pairs@.map_values(|p: (char, Char)| (p.0, p.1@)),
            b.entries() == pv.take(i as int).map_values(|p: (char, Seq<Sym>)| (p.0, p.1, true)),
            b.wf(),
            forall|k: int| 0 <= k < i ==> !(#[trigger] dup_at(pv, k)),
        decreases pairs@.len() - i,
    {
        let ghost before = b.entries();
        let plain = pairs[i].0;
        let cipher = pairs[i].1.clone();
        assert(pv[i as int] == (plain, cipher@));
        b = match b.with(plain, cipher) {
            Ok(next) => {
                proof {
                    assert(!dup_at(pv, i as int)) by {
                        if dup_at(pv, i as int) {
                            let k = choose|k: int|
                                0 <= k < i as int && ((#[trigger] pv[k]).0 == pv[i as int].0
                                    || pv[k].1 == pv[i as int].1);
                            assert(before[k] == (pv[k].0, pv[k].1, true));
                            if pv[k].0 == pv[i as int].0 {
                                assert(has_plain(before, plain));
                            } else {
                                assert(has_code(before, pv[i as int].1));
                            }
                        }
                    }
                    assert(next.entries() =~= pv.take(i as int + 1).map_values(
                        |p: (char, Seq<Sym>)| (p.0, p.1, true),
                    ));
                }
                next
            },
            Err(msg) => {
                proof {
                    assert(dup_at(pv, i as int)) by {
                        if has_plain(before, plain) {
                            let k = choose|k: int|
                                0 <= k < before.len() && (#[trigger] before[k]).0 == plain;
                            assert(before[k] == (pv[k].0, pv[k].1, true));
                        } else {
                            let k = choose|k: int|
                                0 <= k < before.len() && (#[trigger] before[k]).1
                                    == pv[i as int].1;
                            assert(before[k] == (pv[k].0, pv[k].1, true));
                        }
                    }
                }
                return Err(msg);
            },
        };
        i = i + 1;
    }
    proof {
        assert(pv.take(pairs@.len() as int) =~= pv);
        assert(b.entries() =~= pairs@.map_values(|p: (char, Char)| (p.0, p.1@, true)));
    }
    Ok(b.build())
}

/// Renders the rejection message for a duplicate pair.
fn dup_message(plain: char, cipher: &Char) -> (m: String)
    ensures
        m@ == dup_err_text(plain, cipher@),
{
    let mut m = String::new();
    m.append("duplicate error: failed to add (");
    push_char(&mut m, plain);
    m.append(", ");
    let rendered = string_of_char(cipher);
    m.append(rendered.as_str());
    m.append(") as it's a duplicate entry");
    proof {
        assert(m@ =~= dup_err_text(plain, cipher@));
    }
    m
}

/// Decoding an encoding gives the plaintext back.  This holds of any table
/// and any plaintext `t` already in the table's case, with its words
/// separated by single spaces, no outer whitespace, and every character
/// carried by an entry that is non-empty and decodes to that same
/// character again (an alias such as `)`, which decodes to `(`, is the
/// kind of character this last condition leaves out).
pub proof fn lemma_decode_encode_roundtrip(
    t: Seq<char>,
    pm: Map<char, Seq<Sym>>,
    cm: Map<Seq<Sym>, char>,
)
    requires
        forall|k: int| 0 <= k < t.len() && is_ws(#[trigger] t[k]) ==> t[k] == ' ',
        forall|k: int|
            0 <= k < t.len() && #[trigger] t[k] == ' ' ==> 0 < k < t.len() - 1 && t[k - 1] != ' '
                && t[k + 1] != ' ',
        forall|k: int|
            0 <= k < t.len() && !is_ws(#[trigger] t[k]) ==> pm.contains_key(t[k]) && pm[t[k]].len()
                > 0 && cm.contains_key(pm[t[k]]) && cm[pm[t[k]]] == t[k],
    ensures
        encode_ok(t, pm),
        parse_ok(render_sen(encode_syms(t, pm))),
        decode_ok(parse_syms(render_sen(encode_syms(t, pm))), cm),
        decoded_text(parse_syms(render_sen(encode_syms(t, pm))), cm) == t,
{
    let toks = split_ws(t);
    let s = encode_syms(t, pm);
    crate::text::lemma_split_ws_chars(t);
    assert forall|j: int, k: int|
        #![trigger toks[j][k]]
        0 <= j < toks.len() && 0 <= k < toks[j].len() implies {
        &&& pm.contains_key(toks[j][k])
        &&& pm[toks[j][k]].len() > 0
        &&& cm.contains_key(pm[toks[j][k]])
        &&& cm[pm[toks[j][k]]] == toks[j][k]
    } by {
        let c = toks[j][k];
        assert(t.contains(c));
        let i = choose|i: int| 0 <= i < t.len() && t[i] == c;
        assert(!is_ws(t[i]));
    }
    assert forall|i: int| 0 <= i < toks.len() implies enc_word_ok(#[trigger] toks[i], pm) by {
        assert(forall|k: int| 0 <= k < toks[i].len() ==> pm.contains_key(#[trigger] toks[i][k]));
    }
    assert(encode_ok(t, pm));
    assert forall|i: int, j: int|
        #![trigger s[i][j]]
        0 <= i < s.len() && 0 <= j < s[i].len() implies s[i][j].len() > 0 && cm.contains_key(
        s[i][j],
    ) && cm[s[i][j]] == toks[i][j] by {
        assert(s[i] == enc_word_syms(toks[i], pm));
        assert(s[i][j] == pm[toks[i][j]]);
    }
    if t.len() == 0 {
        assert(toks =~= Seq::<Seq<char>>::empty());
        assert(s =~= Seq::<Seq<Seq<Sym>>>::empty());
        parse::lemma_parse_render_roundtrip(s);
        let ps = parse_syms(render_sen(s));
        assert(ps == seq![Seq::<Seq<Sym>>::empty()]);
        assert(decode_ok(ps, cm)) by {
            assert(forall|j: int| 0 <= j < ps[0].len() ==> cm.contains_key(#[trigger] ps[0][j]));
        }
        let parts = ps.map_values(|w: Seq<Seq<Sym>>| dec_word_text(w, cm));
        assert(dec_word_text(ps[0], cm) =~= Seq::<char>::empty());
        assert(parts =~= seq![Seq::<char>::empty()]);
        assert(join(parts, seq![' ']) == Seq::<char>::empty());
        let e = Seq::<char>::empty();
        assert(crate::text::trim_front(e) == e);
        assert(crate::text::trim_back(e) == e);
        assert(decoded_text(ps, cm) =~= t);
    } else {
        assert(!is_ws(t[0]));
        crate::text::lemma_split_ws_len(t);
        assert(s.len() == toks.len() >= 1);
        parse::lemma_parse_render_roundtrip(s);
        let ps = parse_syms(render_sen(s));
        assert(ps == s);
        assert(decode_ok(s, cm)) by {
            assert forall|i: int| 0 <= i < s.len() implies dec_word_ok(#[trigger] s[i], cm) by {
                assert(forall|j: int| 0 <= j < s[i].len() ==> cm.contains_key(#[trigger] s[i][j]));
            }
        }
        let parts = s.map_values(|w: Seq<Seq<Sym>>| dec_word_text(w, cm));
        assert forall|i: int| 0 <= i < s.len() implies #[trigger] parts[i] == toks[i] by {
            assert(parts[i] == dec_word_text(s[i], cm));
            assert(s[i] == enc_word_syms(toks[i], pm));
            assert(dec_word_text(s[i], cm) =~= toks[i]) by {
                assert(forall|j: int|
                    0 <= j < s[i].len() ==> #[trigger] dec_word_text(s[i], cm)[j] == cm[s[i][j]]);
            }
        }
        assert(parts =~= toks);
        crate::text::lemma_join_split_ws_id(t);
        assert(decoded_text(ps, cm) == trim(join(toks, seq![' '])));
        assert(decoded_text(ps, cm) == t);
    }
}

// ------------------------------------------------------------- translater

/// Encodes plaintext into rendered Morse ciphertext.
pub trait MorseEncoder {
    fn encode(&self, plaintext: &str) -> MorseResult<String>;
}

/// Decodes rendered Morse ciphertext into plaintext.
pub trait MorseDecoder {
    fn decode(&self, cipher: &str) -> MorseResult<String>;
}

/// A symbol table bundled with the two translation directions.
pub struct MorseTranslater {
    symbol_map: SymbolMap,
}

impl MorseTranslater {
    /// The table this translater consults.
    pub closed spec fn table(&self) -> SymbolMap {
        self.symbol_map
    }

    pub fn new(symbol_map: SymbolMap) -> (t: MorseTranslater)
        ensures
            t.table() == symbol_map,
    {
        MorseTranslater { symbol_map }
    }

    /// As the free `encode`, against this translater's table.
    pub fn encode(&self, plaintext: &str) -> (r: MorseResult<String>)
        ensures
            match r {
                Ok(out) => encode_ok(lower_of(plaintext@), self.table().plain_map()) && out@
                    == render_sen(encode_syms(lower_of(plaintext@), self.table().plain_map())),
                Err(m) => !encode_ok(lower_of(plaintext@), self.table().plain_map()) && m@
                    == encode_err_of(lower_of(plaintext@), self.table().plain_map()),
            },
    {
        encode(plaintext, &self.symbol_map)
    }

    /// As the free `decode`, against this translater's table.
    pub fn decode(&self, cipher: &str) -> (r: MorseResult<String>)
        ensures
            match r {
                Ok(out) => parse_ok(cipher@) && decode_ok(
                    parse_syms(cipher@),
                    self.table().code_map(),
                ) && out@ == decoded_text(parse_syms(cipher@), self.table().code_map()),
                Err(m) => (!parse_ok(cipher@) && m@ == parse_err_of(cipher@)) || (parse_ok(
                    cipher@,
                ) && !decode_ok(parse_syms(cipher@), self.table().code_map()) && m@
                    == decode_err_of(parse_syms(cipher@), self.table().code_map())),
            },
    {
        decode(cipher, &self.symbol_map)
    }
}

impl MorseEncoder for MorseTranslater {
    fn encode(&self, plaintext: &str) -> MorseResult<String> {
        encode(plaintext, &self.symbol_map)
    }
}

impl MorseDecoder for MorseTranslater {
    fn decode(&self, cipher: &str) -> MorseResult<String> {
        decode(cipher, &self.symbol_map)
    }
}

impl Default for MorseTranslater {
    /// A translater over the default table.
    fn default() -> (t: MorseTranslater)
        ensures
            t.table().entries() == default_entries(),
    {
        MorseTranslater { symbol_map: SymbolMap::default() }
    }
}

// ----------------------------------------------------------- default table

/// The default table: the International Morse alphabet of letters,
/// accented letters, digits and punctuation.  `(` and `)` share one coded
/// character; `)` is the alias, so the pair decodes to `(`.
pub open spec fn default_entries() -> Seq<(char, Seq<Sym>, bool)> {
    seq![
        ('a', seq![Dot, Dash], true),
        ('b', seq![Dash, Dot, Dot, Dot], true),
        ('c', seq![Dash, Dot, Dash, Dot], true),
        ('d', seq![Dash, Dot, Dot], true),
        ('e', seq![Dot], true),
        ('f', seq![Dot, Dot, Dash, Dot], true),
        ('g', seq![Dash, Dash, Dot], true),
        ('h', seq![Dot, Dot, Dot, Dot], true),
        ('i', seq![Dot, Dot], true),
        ('j', seq![Dot, Dash, Dash, Dash], true),
        ('k', seq![Dash, Dot, Dash], true),
        ('l', seq![Dot, Dash, Dot, Dot], true),
        ('m', seq![Dash, Dash], true),
        ('n', seq![Dash, Dot], true),
        ('o', seq![Dash, Dash, Dash], true),
        ('p', seq![Dot, Dash, Dash, Dot], true),
        ('q', seq![Dash, Dash, Dot, Dash], true),
        ('r', seq![Dot, Dash, Dot], true),
        ('s', seq![Dot, Dot, Dot], true),
        ('t', seq![Dash], true),
        ('u', seq![Dot, Dot, Dash], true),
        ('v', seq![Dot, Dot, Dot, Dash], true),
        ('w', seq![Dot, Dash, Dash], true),
        ('x', seq![Dash, Dot, Dot, Dash], true),
        ('y', seq![Dash, Dot, Dash, Dash], true),
        ('z', seq![Dash, Dash, Dot, Dot], true),
        ('ü', seq![Dot, Dot, Dash, Dash], true),
        ('ä', seq![Dot, Dash, Dot, Dash], true),
        ('ö', seq![Dash, Dash, Dash, Dot], true),
        ('1', seq![Dot, Dash, Dash, Dash, Dash], true),
        ('2', seq![Dot, Dot, Dash, Dash, Dash], true),
        ('3', seq![Dot, Dot, Dot, Dash, Dash], true),
        ('4', seq![Dot, Dot, Dot, Dot, Dash], true),
        ('5', seq![Dot, Dot, Dot, Dot, Dot], true),
        ('6', seq![Dash, Dot, Dot, Dot, Dot], true),
        ('7', seq![Dash, Dash, Dot, Dot, Dot], true),
        ('8', seq![Dash, Dash, Dash, Dot, Dot], true),
        ('9', seq![Dash, Dash, Dash, Dash, Dot], true),
        ('0', seq![Dash, Dash, Dash, Dash, Dash], true),
        ('é', seq![Dot, Dot, Dash, Dot, Dot], true),
        ('è', seq![Dot, Dash, Dot, Dot, Dash], true),
        ('à', seq![Dot, Dash, Dash, Dot, Dash], true),
        ('+', seq![Dot, Dash, Dot, Dash, Dot], true),
        ('=', seq![Dash, Dot, Dot, Dot, Dash], true),
        ('/', seq![Dash, Dot, Dot, Dash, Dot], true),
        ('ñ', seq![Dash, Dash, Dot, Dash, Dash], true),
        ('?', seq![Dot, Dot, Dash, Dash, Dot, Dot], true),
        ('_', seq![Dot, Dot, Dash, Dash, Dot, Dash], true),
        ('"', seq![Dot, Dash, Dot, Dot, Dash, Dot], true),
        ('.', seq![Dot, Dash, Dot, Dash, Dot, Dash], true),
        ('@', seq![Dot, Dash, Dash, Dot, Dash, Dot], true),
        ('\'', seq![Dot, Dash, Dash, Dash, Dash, Dot], true),
        ('-', seq![Dash, Dot, Dot, Dot, Dot, Dash], true),
        (';', seq![Dash, Dot, Dash, Dot, Dash, Dot], true),
        ('!', seq![Dash, Dot, Dash, Dot, Dash, Dash], true),
        ('(', seq![Dash, Dot, Dash, Dash, Dot, Dash], true),
        (')', seq![Dash, Dot, Dash, Dash, Dot, Dash], false),
        (',', seq![Dash, Dash, Dot, Dot, Dash, Dash], true),
        (':', seq![Dash, Dash, Dash, Dot, Dot, Dot], true),
    ]
}

impl Default for SymbolMapBuilder {
    /// A builder already holding the whole default table.
    #[verifier::rlimit(100)]
    fn default() -> (b: SymbolMapBuilder)
        ensures
            b.entries() == default_entries(),
    {
        let mut v: Vec<(char, Char, bool)> = Vec::new();
        v.push(('a', Char::new(vec![Dot, Dash]), true));
        v.push(('b', Char::new(vec![Dash, Dot, Dot, Dot]), true));
        v.push(('c', Char::new(vec![Dash, Dot, Dash, Dot]), true));
        v.push(('d', Char::new(vec![Dash, Dot, Dot]), true));
        v.push(('e', Char::new(vec![Dot]), true));
        v.push(('f', Char::new(vec![Dot, Dot, Dash, Dot]), true));
        v.push(('g', Char::new(vec![Dash, Dash, Dot]), true));
        v.push(('h', Char::new(vec![Dot, Dot, Dot, Dot]), true));
        v.push(('i', Char::new(vec![Dot, Dot]), true));
        v.push(('j', Char::new(vec![Dot, Dash, Dash, Dash]), true));
        v.push(('k', Char::new(vec![Dash, Dot, Dash]), true));
        v.push(('l', Char::new(vec![Dot, Dash, Dot, Dot]), true));
        v.push(('m', Char::new(vec![Dash, Dash]), true));
        v.push(('n', Char::new(vec![Dash, Dot]), true));
        v.push(('o', Char::new(vec![Dash, Dash, Dash]), true));
        v.push(('p', Char::new(vec![Dot, Dash, Dash, Dot]), true));
        v.push(('q', Char::new(vec![Dash, Dash, Dot, Dash]), true));
        v.push(('r', Char::new(vec![Dot, Dash, Dot]), true));
        v.push(('s', Char::new(vec![Dot, Dot, Dot]), true));
        v.push(('t', Char::new(vec![Dash]), true));
        v.push(('u', Char::new(vec![Dot, Dot, Dash]), true));
        v.push(('v', Char::new(vec![Dot, Dot, Dot, Dash]), true));
        v.push(('w', Char::new(vec![Dot, Dash, Dash]), true));
        v.push(('x', Char::new(vec![Dash, Dot, Dot, Dash]), true));
        v.push(('y', Char::new(vec![Dash, Dot, Dash, Dash]), true));
        v.push(('z', Char::new(vec![Dash, Dash, Dot, Dot]), true));
        v.push(('ü', Char::new(vec![Dot, Dot, Dash, Dash]), true));
        v.push(('ä', Char::new(vec![Dot, Dash, Dot, Dash]), true));
        v.push(('ö', Char::new(vec![Dash, Dash, Dash, Dot]), true));
        v.push(('1', Char::new(vec![Dot, Dash, Dash, Dash, Dash]), true));
        v.push(('2', Char::new(vec![Dot, Dot, Dash, Dash, Dash]), true));
        v.push(('3', Char::new(vec![Dot, Dot, Dot, Dash, Dash]), true));
        v.push(('4', Char::new(vec![Dot, Dot, Dot, Dot, Dash]), true));
        v.push(('5', Char::new(vec![Dot, Dot, Dot, Dot, Dot]), true));
        v.push(('6', Char::new(vec![Dash, Dot, Dot, Dot, Dot]), true));
        v.push(('7', Char::new(vec![Dash, Dash, Dot, Dot, Dot]), true));
        v.push(('8', Char::new(vec![Dash, Dash, Dash, Dot, Dot]), true));
        v.push(('9', Char::new(vec![Dash, Dash, Dash, Dash, Dot]), true));
        v.push(('0', Char::new(vec![Dash, Dash, Dash, Dash, Dash]), true));
        v.push(('é', Char::new(vec![Dot, Dot, Dash, Dot, Dot]), true));
        v.push(('è', Char::new(vec![Dot, Dash, Dot, Dot, Dash]), true));
        v.push(('à', Char::new(vec![Dot, Dash, Dash, Dot, Dash]), true));
        v.push(('+', Char::new(vec![Dot, Dash, Dot, Dash, Dot]), true));
        v.push(('=', Char::new(vec![Dash, Dot, Dot, Dot, Dash]), true));
        v.push(('/', Char::new(vec![Dash, Dot, Dot, Dash, Dot]), true));
        v.push(('ñ', Char::new(vec![Dash, Dash, Dot, Dash, Dash]), true));
        v.push(('?', Char::new(vec![Dot, Dot, Dash, Dash, Dot, Dot]), true));
        v.push(('_', Char::new(vec![Dot, Dot, Dash, Dash, Dot, Dash]), true));
        v.push(('"', Char::new(vec![Dot, Dash, Dot, Dot, Dash, Dot]), true));
        v.push(('.', Char::new(vec![Dot, Dash, Dot, Dash, Dot, Dash]), true));
        v.push(('@', Char::new(vec![Dot, Dash, Dash, Dot, Dash, Dot]), true));
        v.push(('\'', Char::new(vec![Dot, Dash, Dash, Dash, Dash, Dot]), true));
        v.push(('-', Char::new(vec![Dash, Dot, Dot, Dot, Dot, Dash]), true));
        v.push((';', Char::new(vec![Dash, Dot, Dash, Dot, Dash, Dot]), true));
        v.push(('!', Char::new(vec![Dash, Dot, Dash, Dot, Dash, Dash]), true));
        v.push(('(', Char::new(vec![Dash, Dot, Dash, Dash, Dot, Dash]), true));
        v.push((')', Char::new(vec![Dash, Dot, Dash, Dash, Dot, Dash]), false));
        v.push((',', Char::new(vec![Dash, Dash, Dot, Dot, Dash, Dash]), true));
        v.push((':', Char::new(vec![Dash, Dash, Dash, Dot, Dot, Dot]), true));
        let b = SymbolMapBuilder { entries: v };
        proof {
            assert(b.entries() =~~= default_entries());
        }
        b
    }
}

impl Default for SymbolMap {
    /// The table of the default builder, sealed.
    fn default() -> (m: SymbolMap)
        ensures
            m.entries() == default_entries(),
    {
        SymbolMapBuilder::default().build()
    }
}

} // verus!
