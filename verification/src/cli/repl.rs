//! Splitting a shell line into words.
use vstd::prelude::*;
use crate::error::FlashStoreError;
use crate::text::chars_of;

verus! {

/// Lexer state: finished words, the word being read, inside single quotes,
/// inside double quotes, after a backslash.
pub type LineLexState = (Seq<Seq<char>>, Seq<char>, bool, bool, bool);

/// A character that ends a word outside quotes.
pub open spec fn is_word_break(c: char) -> bool {
    c == ' ' || c == '\t' || c == '\r' || c == '\n'
}

/// One character of input: an escaped character is taken literally; a
/// backslash escapes the next one; a quote toggles quoting unless inside the
/// other kind of quote; a break outside quotes ends the current word, if any;
/// anything else extends the current word.
pub open spec fn lex_step(st: LineLexState, c: char) -> LineLexState {
    let (words, cur, single, double, escaped) = st;
    if escaped {
        (words, cur.push(c), single, double, false)
    } else if c == '\\' {
        (words, cur, single, double, true)
    } else if c == '\'' && !double {
        (words, cur, !single, double, false)
    } else if c == '"' && !single {
        (words, cur, single, !double, false)
    } else if is_word_break(c) && !single && !double {
        if cur.len() > 0 { (words.push(cur), Seq::empty(), single, double, false) } else { st }
    } else {
        (words, cur.push(c), single, double, false)
    }
}

pub open spec fn lex_run(cs: Seq<char>) -> LineLexState
    decreases cs.len(),
{
    if cs.len() == 0 {
        (Seq::empty(), Seq::empty(), false, false, false)
    } else {
        lex_step(lex_run(cs.drop_last()), cs.last())
    }
}

/// The words of a line, or `None` when a quote is left open.
pub open spec fn line_words(cs: Seq<char>) -> Option<Seq<Seq<char>>> {
    let st = lex_run(cs);
    if st.2 || st.3 {
        None
    } else if st.1.len() > 0 {
        Some(st.0.push(st.1))
    } else {
        Some(st.0)
    }
}

pub open spec fn string_views(ss: Seq<String>) -> Seq<Seq<char>> {
    ss.map_values(|s: String| s@)
}

/// Splits a line into words, respecting single and double quotes and
/// backslash escapes; an unclosed quote is an invalid argument.
pub fn tokenize_line(line: &str) -> (r: Result<Vec<String>, FlashStoreError>)
    ensures
        r is Ok <==> line_words(line@) is Some,
        r matches Ok(ws) ==> line_words(line@) == Some(string_views(ws@)),
        r matches Ok(ws) ==> forall|j: int| 0 <= j < ws@.len() ==> (#[trigger] ws@[j])@.len() > 0,
        r matches Err(e) ==> (e matches FlashStoreError::InvalidArgument(m) && m@ == "Unclosed quote in input line"@),
{
    let cs = chars_of(line);
    let mut words: Vec<String> = Vec::new();
    let mut cur = String::new();
    let mut single = false;
    let mut double = false;
    let mut escaped = false;
    let mut i: usize = 0;
    while i < cs.len()
        invariant
            i <= cs@.len(),
            cs@ == line@,
            lex_run(cs@.take(i as int)) == (string_views(words@), cur@, single, double, escaped),
            forall|j: int| 0 <= j < words@.len() ==> (#[trigger] words@[j])@.len() > 0,
        decreases cs@.len() - i,
    {
        let c = cs[i];
        proof {
            assert(cs@.take(i + 1).drop_last() =~= cs@.take(i as int));
            assert(cs@.take(i + 1).last() == c);
        }
        if escaped {
            cur.push(c);
            escaped = false;
        } else if c == '\\' {
            escaped = true;
        } else if c == '\'' && !double {
            single = !single;
        } else if c == '"' && !single {
            double = !double;
        } else if (c == ' ' || c == '\t' || c == '\r' || c == '\n') && !single && !double {
            if !cur.as_str().is_empty() {
                let ghost before = words@;
                let w = cur;
                words.push(w);
                cur = String::new();
                assert(string_views(words@) =~= string_views(before).push(w@));
            }
        } else {
            cur.push(c);
        }
        i = i + 1;
    }
    assert(cs@.take(cs@.len() as int) =~= cs@);
    if single || double {
        return Err(FlashStoreError::InvalidArgument(String::from_str("Unclosed quote in input line")));
    }
    if !cur.as_str().is_empty() {
        let ghost before = words@;
        let w = cur;
        words.push(w);
        assert(string_views(words@) =~= string_views(before).push(w@));
    }
    Ok(words)
}

/// Words of characters split at spaces, tabs, carriage returns and line feeds,
/// with the word being read.
pub open spec fn break_split(cs: Seq<char>) -> (Seq<Seq<char>>, Seq<char>)
    decreases cs.len(),
{
    if cs.len() == 0 {
        (Seq::empty(), Seq::empty())
    } else {
        let (ws, cur) = break_split(cs.drop_last());
        let c = cs.last();
        if c == ' ' || c == '\t' || c == '\r' || c == '\n' {
            if cur.len() > 0 { (ws.push(cur), Seq::empty()) } else { (ws, cur) }
        } else {
            (ws, cur.push(c))
        }
    }
}

/// The non-empty pieces of `cs` between spaces, tabs, carriage returns and line feeds.
pub open spec fn break_words(cs: Seq<char>) -> Seq<Seq<char>> {
    let (ws, cur) = break_split(cs);
    if cur.len() > 0 { ws.push(cur) } else { ws }
}

proof fn lemma_plain_lex(cs: Seq<char>)
    requires
        forall|i: int| 0 <= i < cs.len() ==> #[trigger] cs[i] != '\'' && cs[i] != '"' && cs[i] != '\\',
    ensures
        lex_run(cs) == (break_split(cs).0, break_split(cs).1, false, false, false),
    decreases cs.len(),
{
    if cs.len() > 0 {
        let p = cs.drop_last();
        assert forall|i: int| 0 <= i < p.len() implies #[trigger] p[i] != '\'' && p[i] != '"' && p[i] != '\\' by {
            assert(p[i] == cs[i]);
        }
        lemma_plain_lex(p);
        assert(cs[cs.len() - 1] == cs.last());
    }
}

/// A line without quotes or backslashes splits into its pieces between spaces,
/// tabs, carriage returns and line feeds, none empty, in order.
pub proof fn law_plain_line_words(cs: Seq<char>)
    requires
        forall|i: int| 0 <= i < cs.len() ==> #[trigger] cs[i] != '\'' && cs[i] != '"' && cs[i] != '\\',
    ensures
        line_words(cs) == Some(break_words(cs)),
{
    lemma_plain_lex(cs);
}

proof fn lemma_quoted_lex(cs: Seq<char>, k: int)
    requires
        cs.len() >= 1,
        cs[0] == '"',
        1 <= k <= cs.len(),
        forall|i: int| 1 <= i < cs.len() ==> #[trigger] cs[i] != '"' && cs[i] != '\\',
    ensures
        lex_run(cs.take(k)) == (Seq::<Seq<char>>::empty(), cs.subrange(1, k), false, true, false),
    decreases k,
{
    if k == 1 {
        assert(cs.take(1).drop_last() =~= Seq::<char>::empty());
        assert(cs.take(1).last() == '"');
        assert(cs.subrange(1, 1) =~= Seq::<char>::empty());
        assert(lex_run(Seq::<char>::empty()) == (Seq::<Seq<char>>::empty(), Seq::<char>::empty(), false, false, false));
        assert(lex_run(cs.take(1)) == lex_step(lex_run(Seq::<char>::empty()), '"'));
    } else {
        lemma_quoted_lex(cs, k - 1);
        assert(cs.take(k).drop_last() =~= cs.take(k - 1));
        assert(cs.take(k).last() == cs[k - 1]);
        assert(cs.subrange(1, k) =~= cs.subrange(1, k - 1).push(cs[k - 1]));
        assert(cs[k - 1] != '"' && cs[k - 1] != '\\');
        assert(lex_run(cs.take(k)) == lex_step(lex_run(cs.take(k - 1)), cs[k - 1]));
    }
}

/// Double quotes keep a word whole: a line that is a double quote, then text
/// without double quotes or backslashes (spaces and single quotes included),
/// then a closing double quote, is one word, that text, when it is not empty;
/// without the closing quote it is refused.
pub proof fn law_double_quotes_keep_word(x: Seq<char>)
    requires
        forall|i: int| 0 <= i < x.len() ==> #[trigger] x[i] != '"' && x[i] != '\\',
    ensures
        x.len() > 0 ==> line_words(seq!['"'] + x + seq!['"']) == Some(seq![x]),
        line_words(seq!['"'] + x) is None,
{
    let open = seq!['"'] + x;
    let line = open + seq!['"'];
    assert forall|i: int| 1 <= i < open.len() implies #[trigger] open[i] != '"' && open[i] != '\\' by {
        assert(open[i] == x[i - 1]);
    }
    lemma_quoted_lex(open, open.len() as int);
    assert(open.take(open.len() as int) =~= open);
    assert(open.subrange(1, open.len() as int) =~= x);
    assert(line.drop_last() =~= open);
    assert(line.last() == '"');
}

} // verus!
