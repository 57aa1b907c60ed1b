//! Splitting schema text into tokens.
use vstd::prelude::*;
use vstd::string::*;

verus! {

/// Whether two strings hold the same characters.
pub fn str_eq(a: &str, b: &str) -> (r: bool)
    ensures
        r == (a@ == b@),
{
    let n = a.unicode_len();
    if n != b.unicode_len() {
        return false;
    }
    let mut i: usize = 0;
    while i < n
        invariant
            n == a@.len() == b@.len(),
            i <= n,
            a@.subrange(0, i as int) == b@.subrange(0, i as int),
        decreases n - i,
    {
        if a.get_char(i) != b.get_char(i) {
            return false;
        }
        assert(a@.subrange(0, i + 1) =~= a@.subrange(0, i as int).push(a@[i as int]));
        assert(b@.subrange(0, i + 1) =~= b@.subrange(0, i as int).push(b@[i as int]));
        i = i + 1;
    }
    assert(a@ =~= a@.subrange(0, n as int));
    assert(b@ =~= b@.subrange(0, n as int));
    true
}

/// The whitespace that separates tokens: the characters with Unicode's
/// `White_Space` property.
pub open spec fn is_space(c: char) -> bool {
    ('\u{9}' <= c && c <= '\u{d}') || c == ' ' || c == '\u{85}' || c == '\u{a0}' || c == '\u{1680}'
        || ('\u{2000}' <= c && c <= '\u{200a}') || c == '\u{2028}' || c == '\u{2029}' || c == '\u{202f}'
        || c == '\u{205f}' || c == '\u{3000}'
}

/// `done` with the pending run `cur` closed, if it holds anything.
pub open spec fn flush(done: Seq<Seq<char>>, cur: Seq<char>) -> Seq<Seq<char>> {
    if cur.len() > 0 {
        done.push(cur)
    } else {
        done
    }
}

/// Reads `s` left to right: the tokens closed so far and the pending run of
/// characters. A comma closes the run and is a token of its own; where
/// `spaces` holds, whitespace closes the run and is dropped; every other
/// character extends the run.
pub open spec fn lex(s: Seq<char>, spaces: bool) -> (Seq<Seq<char>>, Seq<char>)
    decreases s.len(),
{
    if s.len() == 0 {
        (Seq::empty(), Seq::empty())
    } else {
        let (done, cur) = lex(s.drop_last(), spaces);
        let c = s.last();
        if c == ',' {
            (flush(done, cur).push(seq![',']), Seq::empty())
        } else if spaces && is_space(c) {
            (flush(done, cur), Seq::empty())
        } else {
            (done, cur.push(c))
        }
    }
}

/// The tokens of `s`.
pub open spec fn tokens_of(s: Seq<char>, spaces: bool) -> Seq<Seq<char>> {
    flush(lex(s, spaces).0, lex(s, spaces).1)
}

/// The tokens `ts` written one after another.
pub open spec fn concat(ts: Seq<Seq<char>>) -> Seq<char>
    decreases ts.len(),
{
    if ts.len() == 0 {
        Seq::empty()
    } else {
        concat(ts.drop_last()) + ts.last()
    }
}

/// The characters of `s` that the lexer keeps: all of them, less the
/// whitespace where `spaces` holds.
pub open spec fn kept(s: Seq<char>, spaces: bool) -> Seq<char>
    decreases s.len(),
{
    if s.len() == 0 {
        Seq::empty()
    } else if spaces && is_space(s.last()) {
        kept(s.drop_last(), spaces)
    } else {
        kept(s.drop_last(), spaces).push(s.last())
    }
}

proof fn lemma_concat_push(ts: Seq<Seq<char>>, t: Seq<char>)
    ensures
        concat(ts.push(t)) == concat(ts) + t,
{
    assert(ts.push(t).drop_last() =~= ts);
}

proof fn lemma_lex_keeps(s: Seq<char>, spaces: bool)
    ensures
        concat(lex(s, spaces).0) + lex(s, spaces).1 == kept(s, spaces),
    decreases s.len(),
{
    if s.len() == 0 {
        assert(concat(Seq::<Seq<char>>::empty()) + Seq::<char>::empty() =~= Seq::<char>::empty());
    } else {
        let init = s.drop_last();
        let c = s.last();
        lemma_lex_keeps(init, spaces);
        let (done, cur) = lex(init, spaces);
        let flushed = flush(done, cur);
        if cur.len() > 0 {
            lemma_concat_push(done, cur);
        } else {
            assert(concat(done) + cur =~= concat(done));
        }
        assert(concat(flushed) == concat(done) + cur);
        if c == ',' {
            lemma_concat_push(flushed, seq![',']);
            assert(concat(flushed) + seq![','] + Seq::<char>::empty() =~= (concat(done) + cur).push(','));
        } else if spaces && is_space(c) {
            assert(concat(flushed) + Seq::<char>::empty() =~= concat(done) + cur);
        } else {
            assert(concat(done) + cur.push(c) =~= (concat(done) + cur).push(c));
        }
    }
}

/// Lexing loses no character but whitespace: the tokens, written one after
/// another, are the input less its whitespace (where `spaces` holds).
pub proof fn lemma_tokens_keep_characters(s: Seq<char>, spaces: bool)
    ensures
        concat(tokens_of(s, spaces)) == kept(s, spaces),
{
    lemma_lex_keeps(s, spaces);
    let (done, cur) = lex(s, spaces);
    if cur.len() > 0 {
        lemma_concat_push(done, cur);
    } else {
        assert(concat(done) + cur =~= concat(done));
    }
}

/// The characters of each string of `v`.
pub open spec fn views(v: Seq<&str>) -> Seq<Seq<char>> {
    v.map_values(|t: &str| t@)
}

fn is_space_exec(c: char) -> (r: bool)
    ensures
        r == is_space(c),
{
    ('\u{9}' <= c && c <= '\u{d}') || c == ' ' || c == '\u{85}' || c == '\u{a0}' || c == '\u{1680}'
        || ('\u{2000}' <= c && c <= '\u{200a}') || c == '\u{2028}' || c == '\u{2029}' || c == '\u{202f}'
        || c == '\u{205f}' || c == '\u{3000}'
}

/// Splits `s` into the tokens `tokens_of(s@, spaces)`.
fn lex_exec<'a>(s: &'a str, spaces: bool) -> (r: Vec<&'a str>)
    ensures
        views(r@) == tokens_of(s@, spaces),
{
    let n = s.unicode_len();
    let mut out: Vec<&'a str> = Vec::new();
    let mut start: usize = 0;
    let mut i: usize = 0;
    assert(s@.take(0) =~= Seq::<char>::empty());
    assert(views(out@) =~= Seq::<Seq<char>>::empty());
    while i < n
        invariant
            n == s@.len(),
            start <= i <= n,
            views(out@) == lex(s@.take(i as int), spaces).0,
            s@.subrange(start as int, i as int) == lex(s@.take(i as int), spaces).1,
        decreases n - i,
    {
        let c = s.get_char(i);
        let ghost prev = s@.take(i as int);
        assert(s@.take(i + 1).drop_last() =~= prev);
        assert(s@.take(i + 1).last() == c);
        let ends_run = c == ',' || (spaces && is_space_exec(c));
        if ends_run {
            let ghost before = out@;
            if i > start {
                let t = s.substring_char(start, i);
                out.push(t);
                assert(views(out@) =~= views(before).push(t@));
            } else {
                assert(s@.subrange(start as int, i as int).len() == 0);
            }
            let ghost flushed = out@;
            if c == ',' {
                let t = s.substring_char(i, i + 1);
                out.push(t);
                assert(t@ =~= seq![',']);
                assert(views(out@) =~= views(flushed).push(t@));
            }
            start = i + 1;
            assert(s@.subrange(start as int, i + 1) =~= Seq::<char>::empty());
        } else {
            assert(s@.subrange(start as int, i + 1) =~= s@.subrange(start as int, i as int).push(c));
        }
        i = i + 1;
    }
    assert(s@.take(n as int) =~= s@);
    if start < n {
        let t = s.substring_char(start, n);
        let ghost before = out@;
        out.push(t);
        assert(views(out@) =~= views(before).push(t@));
    }
    out
}

/// Splits `s` after and before each comma, keeping each comma as a token of
/// its own; the runs between commas are kept whole, spaces included.
pub fn split_keep_separator<'a>(s: &'a str) -> (r: Vec<&'a str>)
    ensures
        views(r@) == tokens_of(s@, false),
{
    lex_exec(s, false)
}

/// Splits schema text into tokens: whitespace separates tokens and is
/// dropped, and each comma is a token of its own.
pub fn tokenizer<'a>(s: &'a str) -> (r: Vec<&'a str>)
    ensures
        views(r@) == tokens_of(s@, true),
{
    lex_exec(s, true)
}

} // verus!
