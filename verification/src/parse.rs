//! The strict Morse parser: a raw ciphertext string becomes a structured
//! `Sen`, or a located error naming the first character that is neither a
//! dot, a dash, a `/` nor whitespace.

use crate::text::{
    chars_of, first_fail, is_ws, join, lemma_first_fail, lemma_split_slash_no_slash,
    lemma_split_slash_append, lemma_split_slash_push, lemma_split_ws_push_ws, lemma_split_ws_token,
    push_char, split_slash, split_slash_exec, split_ws, split_ws_exec, trim, trim_back, trim_bounds,
    trim_front,
};
use crate::types::{pos_text, render_char, render_sen, render_word, Char, Pos, Sen, Sym, Word};
use vstd::prelude::*;
use vstd::string::StringExecFns;

verus! {

/// The two characters a coded character may consist of.
pub open spec fn char_valid(c: char) -> bool {
    c == '.' || c == '-'
}

/// The symbol a valid character stands for.
pub open spec fn sym_of_char(c: char) -> Sym {
    if c == '.' {
        Sym::Dot
    } else {
        Sym::Dash
    }
}

/// The symbols of one token, read off character by character.
pub open spec fn token_syms(t: Seq<char>) -> Seq<Sym> {
    t.map_values(|c: char| sym_of_char(c))
}

pub open spec fn token_ok(t: Seq<char>) -> bool {
    forall|k: int| 0 <= k < t.len() ==> char_valid(#[trigger] t[k])
}

/// The coded characters of one word fragment: its whitespace-separated
/// tokens, each read as symbols.
pub open spec fn word_syms(f: Seq<char>) -> Seq<Seq<Sym>> {
    split_ws(f).map_values(|t: Seq<char>| token_syms(t))
}

pub open spec fn word_ok(f: Seq<char>) -> bool {
    forall|j: int| 0 <= j < split_ws(f).len() ==> token_ok(#[trigger] split_ws(f)[j])
}

/// The word fragments of the input: trimmed, then split at every `/`.
pub open spec fn parse_frags(s: Seq<char>) -> Seq<Seq<char>> {
    split_slash(trim(s))
}

/// The sentence the input parses to, when every token is valid.
pub open spec fn parse_syms(s: Seq<char>) -> Seq<Seq<Seq<Sym>>> {
    parse_frags(s).map_values(|f: Seq<char>| word_syms(f))
}

pub open spec fn parse_ok(s: Seq<char>) -> bool {
    forall|i: int| 0 <= i < parse_frags(s).len() ==> word_ok(#[trigger] parse_frags(s)[i])
}

/// The message for an invalid symbol `c` in the token at (0-based) word `w`,
/// char `j`.
pub open spec fn parse_err_text(c: char, w: nat, j: nat) -> Seq<char> {
    "parsing error: invalid symbol '"@ + seq![c] + "' at position "@ + pos_text(w, j)
}

/// The located message for the first invalid token of word fragment `f` at
/// word index `i`.
pub open spec fn word_err_text(f: Seq<char>, i: nat) -> Seq<char> {
    let toks = split_ws(f);
    let j = first_fail(toks, |t: Seq<char>| token_ok(t));
    let k = first_fail(toks[j], |c: char| char_valid(c));
    parse_err_text(toks[j][k], i, j as nat)
}

/// The located message for the first invalid token of the whole input.
pub open spec fn parse_err_of(s: Seq<char>) -> Seq<char> {
    let frags = parse_frags(s);
    let i = first_fail(frags, |f: Seq<char>| word_ok(f));
    word_err_text(frags[i], i as nat)
}

/// A rendered coded character reads back as itself: its characters are
/// valid, none is whitespace or `/`, and its symbols are the original.
proof fn lemma_render_char_facts(cs: Seq<Sym>)
    ensures
        render_char(cs).len() == cs.len(),
        token_syms(render_char(cs)) == cs,
        token_ok(render_char(cs)),
        forall|k: int|
            0 <= k < render_char(cs).len() ==> !is_ws(#[trigger] render_char(cs)[k])
                && render_char(cs)[k] != '/',
{
    assert(token_syms(render_char(cs)) =~= cs);
}

/// A rendered word splits back into exactly its rendered coded characters,
/// provided none of them is empty; and it contains no `/`.
proof fn lemma_render_word_facts(w: Seq<Seq<Sym>>)
    requires
        forall|j: int| 0 <= j < w.len() ==> (#[trigger] w[j]).len() > 0,
    ensures
        split_ws(render_word(w)) == w.map_values(|c: Seq<Sym>| render_char(c)),
        forall|k: int| 0 <= k < render_word(w).len() ==> #[trigger] render_word(w)[k] != '/',
    decreases w.len(),
{
    let parts = w.map_values(|c: Seq<Sym>| render_char(c));
    if w.len() == 0 {
        assert(parts =~= Seq::<Seq<char>>::empty());
        assert(render_word(w) == Seq::<char>::empty());
        assert(split_ws(render_word(w)) =~= parts);
    } else if w.len() == 1 {
        assert(render_word(w) == parts[0]);
        lemma_render_char_facts(w[0]);
        lemma_split_ws_token(render_char(w[0]), Seq::<char>::empty());
        assert(render_char(w[0]) + Seq::<char>::empty() =~= render_char(w[0]));
        assert(split_ws(Seq::<char>::empty()) =~= Seq::<Seq<char>>::empty());
        assert(split_ws(render_word(w)) =~= parts);
    } else {
        let rc0 = render_char(w[0]);
        let tail = w.drop_first();
        let rw = render_word(tail);
        lemma_render_char_facts(w[0]);
        assert(forall|j: int| 0 <= j < tail.len() ==> (#[trigger] tail[j]).len() > 0);
        lemma_render_word_facts(tail);
        assert(parts.drop_first() =~= tail.map_values(|c: Seq<Sym>| render_char(c)));
        assert(render_word(w) == parts[0] + seq![' '] + join(parts.drop_first(), seq![' ']));
        assert(join(parts.drop_first(), seq![' ']) == rw);
        assert(render_word(w) =~= rc0 + (seq![' '] + rw));
        lemma_split_ws_token(rc0, seq![' '] + rw);
        assert((seq![' '] + rw).drop_first() =~= rw);
        assert(split_ws(seq![' '] + rw) == split_ws(rw));
        assert(split_ws(render_word(w)) =~= parts);
        assert(forall|k: int|
            0 <= k < render_word(w).len() ==> #[trigger] render_word(w)[k] != '/') by {
            assert(render_word(w) == rc0 + (seq![' '] + rw));
        }
    }
}

/// Removing leading whitespace changes no word fragment's tokens.
proof fn lemma_trim_front_tokens(s: Seq<char>)
    ensures
        split_slash(trim_front(s)).map_values(|f: Seq<char>| split_ws(f)) == split_slash(
            s,
        ).map_values(|f: Seq<char>| split_ws(f)),
    decreases s.len(),
{
    if s.len() > 0 && is_ws(s[0]) {
        lemma_trim_front_tokens(s.drop_first());
        let rest = split_slash(s.drop_first());
        crate::text::lemma_split_slash_len(s.drop_first());
        assert(s[0] != '/');
        assert(split_slash(s) == rest.update(0, seq![s[0]] + rest[0]));
        assert((seq![s[0]] + rest[0]).drop_first() =~= rest[0]);
        assert(split_ws(seq![s[0]] + rest[0]) == split_ws(rest[0]));
        assert(split_slash(s).map_values(|f: Seq<char>| split_ws(f)) =~= rest.map_values(
            |f: Seq<char>| split_ws(f),
        ));
    }
}

/// Removing trailing whitespace changes no word fragment's tokens.
proof fn lemma_trim_back_tokens(s: Seq<char>)
    ensures
        split_slash(trim_back(s)).map_values(|f: Seq<char>| split_ws(f)) == split_slash(
            s,
        ).map_values(|f: Seq<char>| split_ws(f)),
    decreases s.len(),
{
    if s.len() > 0 && is_ws(s.last()) {
        lemma_trim_back_tokens(s.drop_last());
        assert(s.last() != '/');
        lemma_split_slash_push(s.drop_last(), s.last());
        assert(s.drop_last().push(s.last()) =~= s);
        let q = split_slash(s.drop_last());
        crate::text::lemma_split_slash_len(s.drop_last());
        assert(split_slash(s) == q.update(q.len() - 1, q.last().push(s.last())));
        lemma_split_ws_push_ws(q.last(), s.last());
        assert(split_slash(s).map_values(|f: Seq<char>| split_ws(f)) =~= q.map_values(
            |f: Seq<char>| split_ws(f),
        ));
    }
}

/// Trimming the input changes no word fragment's tokens.
proof fn lemma_trim_tokens(s: Seq<char>)
    ensures
        split_slash(trim(s)).map_values(|f: Seq<char>| split_ws(f)) == split_slash(s).map_values(
            |f: Seq<char>| split_ws(f),
        ),
{
    lemma_trim_front_tokens(s);
    lemma_trim_back_tokens(trim_front(s));
}

/// A rendered sentence splits back into exactly its words' rendered
/// coded characters, provided every coded character is non-empty.
proof fn lemma_render_sen_tokens(sen: Seq<Seq<Seq<Sym>>>)
    requires
        sen.len() > 0,
        forall|i: int, j: int|
            #![trigger sen[i][j]]
            0 <= i < sen.len() && 0 <= j < sen[i].len() ==> sen[i][j].len() > 0,
    ensures
        split_slash(render_sen(sen)).map_values(|f: Seq<char>| split_ws(f)) == sen.map_values(
            |w: Seq<Seq<Sym>>| w.map_values(|c: Seq<Sym>| render_char(c)),
        ),
    decreases sen.len(),
{
    let parts = sen.map_values(|w: Seq<Seq<Sym>>| render_word(w));
    let target = sen.map_values(|w: Seq<Seq<Sym>>| w.map_values(|c: Seq<Sym>| render_char(c)));
    assert(forall|j: int| 0 <= j < sen[0].len() ==> (#[trigger] sen[0][j]).len() > 0);
    lemma_render_word_facts(sen[0]);
    let rw0 = render_word(sen[0]);
    if sen.len() == 1 {
        assert(render_sen(sen) == parts[0]);
        lemma_split_slash_no_slash(rw0);
        assert(split_slash(render_sen(sen)).map_values(|f: Seq<char>| split_ws(f)) =~= target);
    } else {
        let tail = sen.drop_first();
        assert(forall|i: int, j: int|
            #![trigger tail[i][j]]
            0 <= i < tail.len() && 0 <= j < tail[i].len() ==> tail[i][j].len() > 0) by {
            assert(forall|i: int|
                0 <= i < tail.len() ==> #[trigger] tail[i] == sen[i + 1]);
        }
        lemma_render_sen_tokens(tail);
        assert(parts.drop_first() =~= tail.map_values(|w: Seq<Seq<Sym>>| render_word(w)));
        let rs = render_sen(tail);
        assert(render_sen(sen) == parts[0] + seq![' ', '/', ' '] + render_sen(tail));
        let a = rw0 + seq![' '];
        let b = seq![' '] + rs;
        assert(render_sen(sen) =~= a + seq!['/'] + b);
        assert(forall|k: int| 0 <= k < a.len() ==> #[trigger] a[k] != '/');
        lemma_split_slash_append(a, b);
        assert(b[0] == ' ');
        assert(b.drop_first() =~= rs);
        let qb = split_slash(rs);
        crate::text::lemma_split_slash_len(rs);
        assert(split_slash(b) == qb.update(0, seq![' '] + qb[0]));
        assert((seq![' '] + qb[0]).drop_first() =~= qb[0]);
        assert(split_ws(seq![' '] + qb[0]) == split_ws(qb[0]));
        assert(a =~= rw0.push(' '));
        lemma_split_ws_push_ws(rw0, ' ');
        assert(split_ws(a) == split_ws(rw0));
        let lhs = seq![a] + split_slash(b);
        assert(split_slash(render_sen(sen)) == lhs);
        assert(qb.map_values(|f: Seq<char>| split_ws(f)) == tail.map_values(
            |w: Seq<Seq<Sym>>| w.map_values(|c: Seq<Sym>| render_char(c)),
        ));
        assert(split_slash(b).len() == qb.len());
        assert(qb.map_values(|f: Seq<char>| split_ws(f)).len() == qb.len());
        assert(tail.map_values(
            |w: Seq<Seq<Sym>>| w.map_values(|c: Seq<Sym>| render_char(c)),
        ).len() == tail.len());
        assert(lhs.len() == target.len());
        assert forall|i: int| 0 <= i < lhs.len() implies split_ws(#[trigger] lhs[i])
            == target[i] by {
            if i == 0 {
                assert(lhs[0] == a);
                assert(target[0] == sen[0].map_values(|c: Seq<Sym>| render_char(c)));
            } else {
                assert(lhs[i] == split_slash(b)[i - 1]);
                if i == 1 {
                    assert(split_slash(b)[0] == seq![' '] + qb[0]);
                    assert(split_ws(qb[0]) == qb.map_values(|f: Seq<char>| split_ws(f))[0]);
                } else {
                    assert(split_slash(b)[i - 1] == qb[i - 1]);
                    assert(split_ws(qb[i - 1]) == qb.map_values(
                        |f: Seq<char>| split_ws(f),
                    )[i - 1]);
                }
                assert(qb.map_values(|f: Seq<char>| split_ws(f))[i - 1] == tail.map_values(
                    |w: Seq<Seq<Sym>>| w.map_values(|c: Seq<Sym>| render_char(c)),
                )[i - 1]);
                assert(tail[i - 1] == sen[i]);
                assert(target[i] == sen[i].map_values(|c: Seq<Sym>| render_char(c)));
            }
        }
        assert(split_slash(render_sen(sen)).map_values(|f: Seq<char>| split_ws(f)) =~= target);
    }
}

/// Rendering a sentence and parsing the rendering yields the sentence
/// back, provided every coded character is non-empty: a non-empty
/// sentence exactly, and the empty sentence as one empty word (the parser
/// reads an empty string as that).
pub proof fn lemma_parse_render_roundtrip(sen: Seq<Seq<Seq<Sym>>>)
    requires
        forall|i: int, j: int|
            #![trigger sen[i][j]]
            0 <= i < sen.len() && 0 <= j < sen[i].len() ==> sen[i][j].len() > 0,
    ensures
        parse_ok(render_sen(sen)),
        sen.len() > 0 ==> parse_syms(render_sen(sen)) == sen,
        sen.len() == 0 ==> parse_syms(render_sen(sen)) == seq![Seq::<Seq<Sym>>::empty()],
{
    if sen.len() == 0 {
        assert(sen.map_values(|w: Seq<Seq<Sym>>| render_word(w)) =~= Seq::<Seq<char>>::empty());
        assert(render_sen(sen) == Seq::<char>::empty());
        let e = Seq::<char>::empty();
        assert(trim_front(e) == e);
        assert(trim_back(e) == e);
        assert(parse_frags(e) =~= seq![e]);
        assert(split_ws(e) =~= Seq::<Seq<char>>::empty());
        assert(word_syms(e) =~= Seq::<Seq<Sym>>::empty());
        assert(word_ok(e));
        assert(parse_syms(e) =~= seq![Seq::<Seq<Sym>>::empty()]);
    } else {
        lemma_render_sen_tokens(sen);
        lemma_trim_tokens(render_sen(sen));
        let frags = parse_frags(render_sen(sen));
        let toks = frags.map_values(|f: Seq<char>| split_ws(f));
        assert(toks == sen.map_values(
            |w: Seq<Seq<Sym>>| w.map_values(|c: Seq<Sym>| render_char(c)),
        ));
        assert(frags.len() == sen.len());
        assert forall|i: int| 0 <= i < frags.len() implies word_ok(#[trigger] frags[i])
            && word_syms(frags[i]) == sen[i] by {
            assert(split_ws(frags[i]) == toks[i]);
            assert(toks[i] == sen[i].map_values(|c: Seq<Sym>| render_char(c)));
            assert forall|j: int| 0 <= j < split_ws(frags[i]).len() implies token_ok(
                #[trigger] split_ws(frags[i])[j],
            ) && token_syms(split_ws(frags[i])[j]) == sen[i][j] by {
                assert(split_ws(frags[i])[j] == render_char(sen[i][j]));
                lemma_render_char_facts(sen[i][j]);
            }
            assert(word_syms(frags[i]) =~= sen[i]);
        }
        assert(parse_syms(render_sen(sen)) =~= sen);
    }
}

/// Reads one token as a coded character, or reports its first invalid
/// character, located at `p`.
pub fn parse_char(p: Pos, s: &Vec<char>) -> (r: Result<Char, String>)
    requires
        p.0 < usize::MAX,
        p.1 < usize::MAX,
    ensures
        match r {
            Ok(c) => token_ok(s@) && c@ == token_syms(s@),
            Err(m) => !token_ok(s@) && m@ == parse_err_text(
                s@[first_fail(s@, |c: char| char_valid(c))],
                p.0 as nat,
                p.1 as nat,
            ),
        },
{
    let mut syms: Vec<Sym> = Vec::new();
    let mut k: usize = 0;
    proof {
        assert(syms@ =~= token_syms(s@.take(0)));
    }
    while k < s.len()
        invariant
            k <= s@.len(),
            forall|x: int| 0 <= x < k ==> char_valid(#[trigger] s@[x]),
            syms@ == token_syms(s@.take(k as int)),
        decreases s@.len() - k,
    {
        let c = s[k];
        if c == '.' {
            syms.push(Sym::Dot);
        } else if c == '-' {
            syms.push(Sym::Dash);
        } else {
            proof {
                lemma_first_fail(s@, |c: char| char_valid(c), k as int);
            }
            let mut m = String::new();
            m.append("parsing error: invalid symbol '");
            push_char(&mut m, c);
            m.append("' at position ");
            let ptxt = p.render();
            m.append(ptxt.as_str());
            proof {
                assert(m@ =~= parse_err_text(c, p.0 as nat, p.1 as nat));
            }
            return Err(m);
        }
        proof {
            assert(s@.take(k as int + 1) =~= s@.take(k as int).push(s@[k as int]));
            assert(token_syms(s@.take(k as int + 1)) =~= token_syms(s@.take(k as int)).push(
                sym_of_char(s@[k as int]),
            ));
            assert(token_syms(s@.take(k as int)) + seq![sym_of_char(s@[k as int])] =~= token_syms(
                s@.take(k as int),
            ).push(sym_of_char(s@[k as int])));
        }
        k = k + 1;
    }
    proof {
        assert(s@.take(s@.len() as int) =~= s@);
    }
    Ok(Char::new(syms))
}

/// Reads one word fragment: its tokens become coded characters, or the
/// first invalid token is reported at word index `i`.
pub fn parse_words(i: usize, s: &Vec<char>) -> (r: Result<Word, String>)
    requires
        i < usize::MAX,
    ensures
        match r {
            Ok(w) => word_ok(s@) && w@ == word_syms(s@),
            Err(m) => !word_ok(s@) && m@ == word_err_text(s@, i as nat),
        },
{
    let toks = split_ws_exec(s);
    let ghost tv = toks@.map_values(|t: Vec<char>| t@);
    let mut chars: Vec<Char> = Vec::new();
    let mut j: usize = 0;
    proof {
        assert(chars@.map_values(|c: Char| c@) =~= tv.take(0).map_values(
            |t: Seq<char>| token_syms(t),
        ));
    }
    while j < toks.len()
        invariant
            j <= toks@.len(),
            tv == split_ws(s@),
            tv == toks@.map_values(|t: Vec<char>| t@),
            forall|x: int| 0 <= x < j ==> token_ok(#[trigger] tv[x]),
            chars@.map_values(|c: Char| c@) == tv.take(j as int).map_values(
                |t: Seq<char>| token_syms(t),
            ),
        decreases toks@.len() - j,
    {
        assert(toks@[j as int]@ == tv[j as int]);
        match parse_char(Pos(i, j), &toks[j]) {
            Ok(c) => {
                let ghost cv = chars@;
                chars.push(c);
                proof {
                    assert(chars@.map_values(|c: Char| c@) =~= cv.map_values(
                        |c: Char| c@,
                    ).push(token_syms(tv[j as int])));
                    assert(tv.take(j as int + 1) =~= tv.take(j as int).push(tv[j as int]));
                    assert(tv.take(j as int + 1).map_values(|t: Seq<char>| token_syms(t))
                        =~= tv.take(j as int).map_values(|t: Seq<char>| token_syms(t)).push(
                        token_syms(tv[j as int]),
                    ));
                }
            },
            Err(m) => {
                proof {
                    lemma_first_fail(tv, |t: Seq<char>| token_ok(t), j as int);
                }
                return Err(m);
            },
        }
        j = j + 1;
    }
    proof {
        assert(tv.take(tv.len() as int) =~= tv);
    }
    Ok(Word::new(chars))
}

/// Parses raw ciphertext into a sentence, or reports the first invalid
/// character with its (word, char) coordinate.
pub fn parse(s: &str) -> (r: Result<Sen, String>)
    ensures
        match r {
            Ok(sen) => parse_ok(s@) && sen@ == parse_syms(s@),
            Err(m) => !parse_ok(s@) && m@ == parse_err_of(s@),
        },
{
    let v = chars_of(s);
    let bounds = trim_bounds(&v);
    let frags = split_slash_exec(&v, bounds.0, bounds.1);
    let ghost fv = frags@.map_values(|f: Vec<char>| f@);
    let mut words: Vec<Word> = Vec::new();
    let mut i: usize = 0;
    proof {
        assert(fv == parse_frags(s@));
        assert(words@.map_values(|w: Word| w@) =~= fv.take(0).map_values(
            |f: Seq<char>| word_syms(f),
        ));
    }
    while i < frags.len()
        invariant
            i <= frags@.len(),
            fv == parse_frags(s@),
            fv == frags@.map_values(|f: Vec<char>| f@),
            forall|x: int| 0 <= x < i ==> word_ok(#[trigger] fv[x]),
            words@.map_values(|w: Word| w@) == fv.take(i as int).map_values(
                |f: Seq<char>| word_syms(f),
            ),
        decreases frags@.len() - i,
    {
        assert(frags@[i as int]@ == fv[i as int]);
        match parse_words(i, &frags[i]) {
            Ok(w) => {
                let ghost wv = words@;
                words.push(w);
                proof {
                    assert(words@.map_values(|w: Word| w@) =~= wv.map_values(
                        |w: Word| w@,
                    ).push(word_syms(fv[i as int])));
                    assert(fv.take(i as int + 1) =~= fv.take(i as int).push(fv[i as int]));
                    assert(fv.take(i as int + 1).map_values(|f: Seq<char>| word_syms(f))
                        =~= fv.take(i as int).map_values(|f: Seq<char>| word_syms(f)).push(
                        word_syms(fv[i as int]),
                    ));
                }
            },
            Err(m) => {
                proof {
                    lemma_first_fail(fv, |f: Seq<char>| word_ok(f), i as int);
                }
                return Err(m);
            },
        }
        i = i + 1;
    }
    proof {
        assert(fv.take(fv.len() as int) =~= fv);
    }
    Ok(Sen::new(words))
}

} // verus!
