//! Lexical tokenizing for sparse retrieval.
use vstd::prelude::*;
use crate::text::{chars_of, char_is_alphanumeric, is_alphanumeric_char, str_to_lowercase, lowercase_of};
use crate::cli::repl::string_views;

verus! {

/// Maximal runs of alphanumeric characters, with the run being read.
pub open spec fn alnum_run(cs: Seq<char>) -> (Seq<Seq<char>>, Seq<char>)
    decreases cs.len(),
{
    if cs.len() == 0 {
        (Seq::empty(), Seq::empty())
    } else {
        let (words, cur) = alnum_run(cs.drop_last());
        let c = cs.last();
        if is_alphanumeric_char(c) {
            (words, cur.push(c))
        } else if cur.len() > 0 {
            (words.push(cur), Seq::empty())
        } else {
            (words, cur)
        }
    }
}

/// The maximal runs of alphanumeric characters of `cs`, in order.
pub open spec fn alnum_words(cs: Seq<char>) -> Seq<Seq<char>> {
    let (words, cur) = alnum_run(cs);
    if cur.len() > 0 { words.push(cur) } else { words }
}

/// Splits text at every character that is not alphanumeric, drops empty
/// pieces, and lowers each piece.
pub fn tokenize(text: &str) -> (r: Vec<String>)
    ensures
        string_views(r@) == alnum_words(text@).map_values(|w: Seq<char>| lowercase_of(w)),
{
    let cs = chars_of(text);
    let mut words: Vec<String> = Vec::new();
    let mut cur = String::new();
    let ghost mut raw: Seq<Seq<char>> = Seq::empty();
    let mut i: usize = 0;
    while i < cs.len()
        invariant
            i <= cs@.len(),
            cs@ == text@,
            alnum_run(cs@.take(i as int)) == (raw, cur@),
            string_views(words@) == raw.map_values(|w: Seq<char>| lowercase_of(w)),
        decreases cs@.len() - i,
    {
        let c = cs[i];
        proof {
            assert(cs@.take(i + 1).drop_last() =~= cs@.take(i as int));
            assert(cs@.take(i + 1).last() == c);
        }
        if char_is_alphanumeric(c) {
            cur.push(c);
        } else if !cur.as_str().is_empty() {
            let lw = str_to_lowercase(cur.as_str());
            let ghost before = words@;
            words.push(lw);
            proof {
                assert(string_views(words@) =~= string_views(before).push(lw@));
                assert(raw.push(cur@).map_values(|w: Seq<char>| lowercase_of(w))
                    =~= raw.map_values(|w: Seq<char>| lowercase_of(w)).push(lowercase_of(cur@)));
                raw = raw.push(cur@);
            }
            cur = String::new();
        }
        i = i + 1;
    }
    assert(cs@.take(cs@.len() as int) =~= cs@);
    if !cur.as_str().is_empty() {
        let lw = str_to_lowercase(cur.as_str());
        let ghost before = words@;
        words.push(lw);
        proof {
            assert(string_views(words@) =~= string_views(before).push(lw@));
            assert(raw.push(cur@).map_values(|w: Seq<char>| lowercase_of(w))
                =~= raw.map_values(|w: Seq<char>| lowercase_of(w)).push(lowercase_of(cur@)));
        }
    }
    words
}

/// The alphanumeric characters of `cs`, in order.
pub open spec fn alnum_chars(cs: Seq<char>) -> Seq<char>
    decreases cs.len(),
{
    if cs.len() == 0 {
        Seq::empty()
    } else {
        alnum_chars(cs.drop_last()) + (if is_alphanumeric_char(cs.last()) { seq![cs.last()] } else { Seq::empty() })
    }
}

/// The number of maximal runs of alphanumeric characters in `cs`: the
/// alphanumeric characters not preceded by one.
pub open spec fn run_count(cs: Seq<char>) -> nat
    decreases cs.len(),
{
    if cs.len() == 0 {
        0
    } else {
        run_count(cs.drop_last()) + (if is_alphanumeric_char(cs.last())
            && (cs.len() == 1 || !is_alphanumeric_char(cs[cs.len() - 2])) { 1nat } else { 0nat })
    }
}

/// Words written one after another.
pub open spec fn joined(ws: Seq<Seq<char>>) -> Seq<char>
    decreases ws.len(),
{
    if ws.len() == 0 {
        Seq::empty()
    } else {
        joined(ws.drop_last()) + ws.last()
    }
}

proof fn lemma_alnum_run_shape(cs: Seq<char>)
    ensures
        ({
            let (words, cur) = alnum_run(cs);
            &&& joined(words) + cur == alnum_chars(cs)
            &&& words.len() + (if cur.len() > 0 { 1int } else { 0int }) == run_count(cs)
            &&& (cur.len() > 0 <==> (cs.len() > 0 && is_alphanumeric_char(cs.last())))
            &&& forall|k: int| 0 <= k < words.len() ==> (#[trigger] words[k]).len() > 0
        }),
    decreases cs.len(),
{
    if cs.len() > 0 {
        let p = cs.drop_last();
        lemma_alnum_run_shape(p);
        let (words, cur) = alnum_run(p);
        let c = cs.last();
        if p.len() > 0 {
            assert(p.last() == cs[cs.len() - 2]);
        }
        if is_alphanumeric_char(c) {
            assert(joined(words) + cur.push(c) =~= (joined(words) + cur) + seq![c]);
        } else if cur.len() > 0 {
            let w2 = words.push(cur);
            assert(w2.drop_last() =~= words);
            assert(joined(w2) + Seq::<char>::empty() =~= joined(words) + cur);
            assert forall|k: int| 0 <= k < w2.len() implies (#[trigger] w2[k]).len() > 0 by {
                if k < words.len() {
                    assert(w2[k] == words[k]);
                }
            }
        } else {
            assert(alnum_chars(cs) =~= alnum_chars(p));
        }
    }
}

/// Tokenizing keeps every run of letters and digits, however short: the
/// words, before lowering, are as many as the text's maximal alphanumeric runs,
/// none is empty, and written one after another they give back exactly the
/// text's alphanumeric characters, in order; the tokens `tokenize` gives are
/// these words lowered, one for each.
pub proof fn law_tokens_keep_every_run(cs: Seq<char>, tokens: Seq<Seq<char>>)
    requires
        tokens == alnum_words(cs).map_values(|w: Seq<char>| lowercase_of(w)),
    ensures
        tokens.len() == run_count(cs),
        forall|k: int| 0 <= k < tokens.len() ==> #[trigger] tokens[k] == lowercase_of(alnum_words(cs)[k]),
        alnum_words(cs).len() == run_count(cs),
        joined(alnum_words(cs)) == alnum_chars(cs),
        forall|k: int| 0 <= k < alnum_words(cs).len() ==> (#[trigger] alnum_words(cs)[k]).len() > 0,
{
    lemma_alnum_run_shape(cs);
    let (words, cur) = alnum_run(cs);
    if cur.len() > 0 {
        let w2 = words.push(cur);
        assert(w2.drop_last() =~= words);
        assert forall|k: int| 0 <= k < w2.len() implies (#[trigger] w2[k]).len() > 0 by {
            if k < words.len() {
                assert(w2[k] == words[k]);
            }
        }
    } else {
        assert(joined(words) + cur =~= joined(words));
    }
}

} // verus!
