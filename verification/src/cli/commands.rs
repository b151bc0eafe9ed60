//! Interactive commands: what a line of words asks for, or why it is refused.
use vstd::prelude::*;
use vstd::string::StringExecFns;
use crate::error::FlashStoreError;
use crate::cli::repl::string_views;
use crate::cli::batch_parser::{line_words, words_of_line};
use crate::text::{chars_of, str_eq, str_to_uppercase, uppercase_of, parse_usize, parsed_usize, join_words,
    joined_words, string_of};

verus! {

/// A store command of the interactive shell.
#[derive(Debug, Clone)]
pub enum ReplCommand {
    /// An empty line.
    Nothing,
    Put { key: String, value: String },
    Get { key: String },
    Delete { key: String },
    Scan { start: Option<String>, end: Option<String>, limit: Option<usize> },
    Flush,
    Compact,
    Stats,
    /// A retrieval command with its words.
    Rag(Vec<String>),
    Help,
    Clear,
    Exit,
}

/// A retrieval command of the interactive shell.
#[derive(Debug, Clone)]
pub enum RagReplCommand {
    Ingest { id: String, text: String },
    Get { id: String },
    Delete { id: String },
    Query { query: String, top_k: usize },
    Prompt { query: String, top_k: usize },
    Stats,
    List { limit: usize },
    ClearCache,
    Eval,
}

pub open spec fn opt_string_view(o: Option<String>) -> Option<Seq<char>> {
    match o {
        Some(s) => Some(s@),
        None => None,
    }
}

/// The word at `i`, if there is one.
pub open spec fn word_at(ws: Seq<Seq<char>>, i: int) -> Option<Seq<char>> {
    if 0 <= i < ws.len() { Some(ws[i]) } else { None }
}

/// `r` is the invalid-argument error with message `m`.
pub open spec fn refused_with<T>(r: Result<T, FlashStoreError>, m: Seq<char>) -> bool {
    r matches Err(FlashStoreError::InvalidArgument(s)) && s@ == m
}

/// What a line of words asks of the store: the first word, taken in upper
/// case, names the command, the others are its arguments.
pub open spec fn repl_parsed(ws: Seq<Seq<char>>, r: Result<ReplCommand, FlashStoreError>) -> bool {
    if ws.len() == 0 {
        r matches Ok(ReplCommand::Nothing)
    } else {
        let u = uppercase_of(ws[0]);
        let args = ws.drop_first();
        if u == "PUT"@ || u == "SET"@ {
            if args.len() < 2 {
                refused_with(r, "Usage: PUT <key> <value>"@)
            } else {
                r matches Ok(ReplCommand::Put { key, value }) && key@ == args[0] && value@ == args[1]
            }
        } else if u == "GET"@ {
            if args.len() == 0 {
                refused_with(r, "Usage: GET <key>"@)
            } else {
                r matches Ok(ReplCommand::Get { key }) && key@ == args[0]
            }
        } else if u == "DEL"@ || u == "DELETE"@ {
            if args.len() == 0 {
                refused_with(r, "Usage: DEL <key>"@)
            } else {
                r matches Ok(ReplCommand::Delete { key }) && key@ == args[0]
            }
        } else if u == "SCAN"@ {
            r matches Ok(ReplCommand::Scan { start, end, limit })
                && opt_string_view(start) == word_at(args, 0)
                && opt_string_view(end) == word_at(args, 1)
                && limit == (if args.len() > 2 { parsed_usize(args[2]) } else { None })
        } else if u == "FLUSH"@ {
            r matches Ok(ReplCommand::Flush)
        } else if u == "COMPACT"@ {
            r matches Ok(ReplCommand::Compact)
        } else if u == "STATS"@ {
            r matches Ok(ReplCommand::Stats)
        } else if u == "RAG"@ {
            r matches Ok(ReplCommand::Rag(a)) && string_views(a@) == args
        } else if u.len() >= 4 && (u.take(4) == "RAG-"@ || u.take(4) == "RAG_"@) {
            r matches Ok(ReplCommand::Rag(a)) && string_views(a@) == seq![u.skip(4)] + args
        } else if u == "HELP"@ || u == "?"@ {
            r matches Ok(ReplCommand::Help)
        } else if u == "CLEAR"@ {
            r matches Ok(ReplCommand::Clear)
        } else if u == "EXIT"@ || u == "QUIT"@ || u == "Q"@ {
            r matches Ok(ReplCommand::Exit)
        } else {
            refused_with(r, "Unknown command '"@ + u + "'. Type 'HELP' for commands."@)
        }
    }
}

fn refuse<T>(m: &str) -> (r: Result<T, FlashStoreError>)
    ensures
        refused_with(r, m@),
{
    Err(FlashStoreError::InvalidArgument(String::from_str(m)))
}

fn words_from(ws: &Vec<String>, from: usize) -> (r: Vec<String>)
    requires
        from <= ws@.len(),
    ensures
        string_views(r@) == string_views(ws@).skip(from as int),
{
    let mut r: Vec<String> = Vec::new();
    let mut i = from;
    while i < ws.len()
        invariant
            from <= i <= ws@.len(),
            string_views(r@) == string_views(ws@).subrange(from as int, i as int),
        decreases ws@.len() - i,
    {
        let ghost before = r@;
        r.push(String::from_str(ws[i].as_str()));
        assert(string_views(r@) =~= string_views(before).push(ws@[i as int]@));
        assert(string_views(ws@).subrange(from as int, i + 1) =~= string_views(ws@).subrange(from as int, i as int).push(ws@[i as int]@));
        i = i + 1;
    }
    assert(string_views(ws@).subrange(from as int, ws@.len() as int) =~= string_views(ws@).skip(from as int));
    r
}

/// Reads a line of words as a store command.
pub fn parse_repl_command(words: &Vec<String>) -> (r: Result<ReplCommand, FlashStoreError>)
    ensures
        repl_parsed(string_views(words@), r),
{
    let ghost ws = string_views(words@);
    if words.len() == 0 {
        return Ok(ReplCommand::Nothing);
    }
    let upper = str_to_uppercase(words[0].as_str());
    let u = upper.as_str();
    let n = words.len();
    proof {
        assert(ws[0] == words@[0]@);
        assert(ws.drop_first().len() == n - 1);
        assert forall|i: int| 0 <= i < n - 1 implies #[trigger] ws.drop_first()[i] == words@[i + 1]@ by {}
    }
    if str_eq(u, "PUT") || str_eq(u, "SET") {
        if n < 3 {
            return refuse("Usage: PUT <key> <value>");
        }
        return Ok(ReplCommand::Put { key: String::from_str(words[1].as_str()), value: String::from_str(words[2].as_str()) });
    }
    if str_eq(u, "GET") {
        if n < 2 {
            return refuse("Usage: GET <key>");
        }
        return Ok(ReplCommand::Get { key: String::from_str(words[1].as_str()) });
    }
    if str_eq(u, "DEL") || str_eq(u, "DELETE") {
        if n < 2 {
            return refuse("Usage: DEL <key>");
        }
        return Ok(ReplCommand::Delete { key: String::from_str(words[1].as_str()) });
    }
    if str_eq(u, "SCAN") {
        let start = if n > 1 { Some(String::from_str(words[1].as_str())) } else { None };
        let end = if n > 2 { Some(String::from_str(words[2].as_str())) } else { None };
        let limit = if n > 3 { parse_usize(words[3].as_str()) } else { None };
        return Ok(ReplCommand::Scan { start, end, limit });
    }
    if str_eq(u, "FLUSH") {
        return Ok(ReplCommand::Flush);
    }
    if str_eq(u, "COMPACT") {
        return Ok(ReplCommand::Compact);
    }
    if str_eq(u, "STATS") {
        return Ok(ReplCommand::Stats);
    }
    if str_eq(u, "RAG") {
        let rest = words_from(words, 1);
        assert(ws.skip(1) =~= ws.drop_first());
        return Ok(ReplCommand::Rag(rest));
    }
    let cs = chars_of(u);
    if cs.len() >= 4 && cs[0] == 'R' && cs[1] == 'A' && cs[2] == 'G' && (cs[3] == '-' || cs[3] == '_') {
        let sub = string_of(&cs, 4, cs.len());
        let mut combined: Vec<String> = Vec::new();
        combined.push(sub);
        let mut rest = words_from(words, 1);
        combined.append(&mut rest);
        proof {
            reveal_strlit("RAG-");
            reveal_strlit("RAG_");
            assert("RAG-"@ =~= seq!['R', 'A', 'G', '-']);
            assert("RAG_"@ =~= seq!['R', 'A', 'G', '_']);
            if cs@[3] == '-' {
                assert(cs@.take(4) =~= "RAG-"@);
            } else {
                assert(cs@.take(4) =~= "RAG_"@);
            }
            assert(cs@.subrange(4, cs@.len() as int) =~= cs@.skip(4));
            assert(ws.skip(1) =~= ws.drop_first());
            assert(string_views(combined@) =~= seq![cs@.skip(4)] + ws.drop_first());
        }
        return Ok(ReplCommand::Rag(combined));
    }
    proof {
        reveal_strlit("RAG-");
        reveal_strlit("RAG_");
        assert("RAG-"@ =~= seq!['R', 'A', 'G', '-']);
        assert("RAG_"@ =~= seq!['R', 'A', 'G', '_']);
        if cs@.len() >= 4 {
            if cs@.take(4) == "RAG-"@ {
                assert(cs@.take(4)[0] == cs@[0] && cs@.take(4)[1] == cs@[1] && cs@.take(4)[2] == cs@[2] && cs@.take(4)[3] == cs@[3]);
            }
            if cs@.take(4) == "RAG_"@ {
                assert(cs@.take(4)[0] == cs@[0] && cs@.take(4)[1] == cs@[1] && cs@.take(4)[2] == cs@[2] && cs@.take(4)[3] == cs@[3]);
            }
        }
    }
    if str_eq(u, "HELP") || str_eq(u, "?") {
        return Ok(ReplCommand::Help);
    }
    if str_eq(u, "CLEAR") {
        return Ok(ReplCommand::Clear);
    }
    if str_eq(u, "EXIT") || str_eq(u, "QUIT") || str_eq(u, "Q") {
        return Ok(ReplCommand::Exit);
    }
    let mut msg = String::from_str("Unknown command '");
    msg.append(u);
    msg.append("'. Type 'HELP' for commands.");
    Err(FlashStoreError::InvalidArgument(msg))
}

/// The query words and result count of a search: a trailing number is the
/// count, otherwise five results are asked for.
pub open spec fn query_and_count(args: Seq<Seq<char>>) -> (Seq<char>, usize) {
    if args.len() > 1 {
        match parsed_usize(args.last()) {
            Some(k) => (joined_words(args.drop_last()), k),
            None => (joined_words(args), 5),
        }
    } else {
        (args[0], 5)
    }
}

/// What the words of a retrieval command ask for: the first word, taken in
/// upper case, names the command, the others are its arguments.
pub open spec fn rag_parsed(ws: Seq<Seq<char>>, r: Result<RagReplCommand, FlashStoreError>) -> bool {
    if ws.len() == 0 {
        refused_with(r, "Usage: RAG <INGEST|GET|DEL|QUERY|PROMPT|STATS|LIST|CLEAR-CACHE|EVAL> ..."@)
    } else {
        let u = uppercase_of(ws[0]);
        let args = ws.drop_first();
        if u == "INGEST"@ {
            if args.len() < 2 {
                refused_with(r, "Usage: RAG INGEST <id> <text>"@)
            } else {
                r matches Ok(RagReplCommand::Ingest { id, text }) && id@ == args[0] && text@ == joined_words(args.drop_first())
            }
        } else if u == "GET"@ {
            if args.len() == 0 {
                refused_with(r, "Usage: RAG GET <id>"@)
            } else {
                r matches Ok(RagReplCommand::Get { id }) && id@ == args[0]
            }
        } else if u == "DEL"@ || u == "DELETE"@ {
            if args.len() == 0 {
                refused_with(r, "Usage: RAG DEL <id>"@)
            } else {
                r matches Ok(RagReplCommand::Delete { id }) && id@ == args[0]
            }
        } else if u == "QUERY"@ || u == "SEARCH"@ {
            if args.len() == 0 {
                refused_with(r, "Usage: RAG QUERY <query> [top_k]"@)
            } else {
                r matches Ok(RagReplCommand::Query { query, top_k }) && (query@, top_k) == query_and_count(args)
            }
        } else if u == "PROMPT"@ {
            if args.len() == 0 {
                refused_with(r, "Usage: RAG PROMPT <query> [top_k]"@)
            } else {
                r matches Ok(RagReplCommand::Prompt { query, top_k }) && (query@, top_k) == query_and_count(args)
            }
        } else if u == "STATS"@ {
            r matches Ok(RagReplCommand::Stats)
        } else if u == "LIST"@ {
            r matches Ok(RagReplCommand::List { limit }) && limit == (if args.len() > 0 {
                match parsed_usize(args[0]) { Some(k) => k, None => 20 }
            } else {
                20
            })
        } else if u == "CLEAR-CACHE"@ {
            r matches Ok(RagReplCommand::ClearCache)
        } else if u == "CACHE"@ {
            if args.len() > 0 && uppercase_of(args[0]) == "CLEAR"@ {
                r matches Ok(RagReplCommand::ClearCache)
            } else {
                refused_with(r, "Usage: RAG CACHE CLEAR"@)
            }
        } else if u == "EVAL"@ {
            r matches Ok(RagReplCommand::Eval)
        } else {
            refused_with(r, "Unknown RAG command '"@ + u + "'. Available: INGEST, GET, DEL, QUERY, PROMPT, STATS, LIST, CACHE CLEAR, EVAL"@)
        }
    }
}

fn query_args(words: &Vec<String>) -> (r: (String, usize))
    requires
        words@.len() >= 2,
    ensures
        (r.0@, r.1) == query_and_count(string_views(words@).drop_first()),
{
    let ghost args = string_views(words@).drop_first();
    let n = words.len();
    proof {
        assert forall|i: int| 0 <= i < n - 1 implies #[trigger] args[i] == words@[i + 1]@ by {}
    }
    if n > 2 {
        match parse_usize(words[n - 1].as_str()) {
            Some(k) => {
                let q = join_words(words, 1, n - 1);
                assert(words@.subrange(1, n - 1).map_values(|w: String| w@) =~= args.drop_last());
                (q, k)
            },
            None => {
                let q = join_words(words, 1, n);
                assert(words@.subrange(1, n as int).map_values(|w: String| w@) =~= args);
                (q, 5)
            },
        }
    } else {
        (String::from_str(words[1].as_str()), 5)
    }
}

/// Reads the words of a retrieval command.
pub fn parse_rag_command(words: &Vec<String>) -> (r: Result<RagReplCommand, FlashStoreError>)
    ensures
        rag_parsed(string_views(words@), r),
{
    let ghost ws = string_views(words@);
    if words.len() == 0 {
        return refuse("Usage: RAG <INGEST|GET|DEL|QUERY|PROMPT|STATS|LIST|CLEAR-CACHE|EVAL> ...");
    }
    let upper = str_to_uppercase(words[0].as_str());
    let u = upper.as_str();
    let n = words.len();
    proof {
        assert(ws[0] == words@[0]@);
        assert forall|i: int| 0 <= i < n - 1 implies #[trigger] ws.drop_first()[i] == words@[i + 1]@ by {}
    }
    if str_eq(u, "INGEST") {
        if n < 3 {
            return refuse("Usage: RAG INGEST <id> <text>");
        }
        let text = join_words(words, 2, n);
        assert(words@.subrange(2, n as int).map_values(|w: String| w@) =~= ws.drop_first().drop_first());
        return Ok(RagReplCommand::Ingest { id: String::from_str(words[1].as_str()), text });
    }
    if str_eq(u, "GET") {
        if n < 2 {
            return refuse("Usage: RAG GET <id>");
        }
        return Ok(RagReplCommand::Get { id: String::from_str(words[1].as_str()) });
    }
    if str_eq(u, "DEL") || str_eq(u, "DELETE") {
        if n < 2 {
            return refuse("Usage: RAG DEL <id>");
        }
        return Ok(RagReplCommand::Delete { id: String::from_str(words[1].as_str()) });
    }
    if str_eq(u, "QUERY") || str_eq(u, "SEARCH") {
        if n < 2 {
            return refuse("Usage: RAG QUERY <query> [top_k]");
        }
        let (query, top_k) = query_args(words);
        return Ok(RagReplCommand::Query { query, top_k });
    }
    if str_eq(u, "PROMPT") {
        if n < 2 {
            return refuse("Usage: RAG PROMPT <query> [top_k]");
        }
        let (query, top_k) = query_args(words);
        return Ok(RagReplCommand::Prompt { query, top_k });
    }
    if str_eq(u, "STATS") {
        return Ok(RagReplCommand::Stats);
    }
    if str_eq(u, "LIST") {
        let limit = if n > 1 {
            match parse_usize(words[1].as_str()) {
                Some(k) => k,
                None => 20,
            }
        } else {
            20
        };
        return Ok(RagReplCommand::List { limit });
    }
    if str_eq(u, "CLEAR-CACHE") {
        return Ok(RagReplCommand::ClearCache);
    }
    if str_eq(u, "CACHE") {
        if n > 1 {
            let a = str_to_uppercase(words[1].as_str());
            if str_eq(a.as_str(), "CLEAR") {
                return Ok(RagReplCommand::ClearCache);
            }
        }
        return refuse("Usage: RAG CACHE CLEAR");
    }
    if str_eq(u, "EVAL") {
        return Ok(RagReplCommand::Eval);
    }
    let mut msg = String::from_str("Unknown RAG command '");
    msg.append(u);
    msg.append("'. Available: INGEST, GET, DEL, QUERY, PROMPT, STATS, LIST, CACHE CLEAR, EVAL");
    Err(FlashStoreError::InvalidArgument(msg))
}

/// The query that an evaluation run asks about a document: the first three
/// words of its text joined by single spaces, or the whole text when it has
/// fewer than three words.
pub fn eval_query(text: &str) -> (r: String)
    ensures
        r@ == (if line_words(text@).len() >= 3 { joined_words(line_words(text@).take(3)) } else { text@ }),
{
    let cs = chars_of(text);
    let words = words_of_line(&cs, 0, cs.len());
    assert(cs@.subrange(0, cs@.len() as int) =~= text@);
    if words.len() >= 3 {
        let r = join_words(&words, 0, 3);
        assert(words@.subrange(0, 3).map_values(|w: String| w@) =~= string_views(words@).take(3));
        r
    } else {
        String::from_str(text)
    }
}

/// `DELETE` is another name for `DEL`: a line whose first word reads `DELETE`
/// in upper case asks exactly what the same line with `DEL` asks, and with a key
/// it is the deletion of that key.
pub proof fn law_delete_is_del(ws: Seq<Seq<char>>, alias: Seq<Seq<char>>, r: Result<ReplCommand, FlashStoreError>)
    requires
        ws.len() > 0,
        uppercase_of(ws[0]) == "DELETE"@,
        alias.len() == ws.len(),
        uppercase_of(alias[0]) == "DEL"@,
        alias.drop_first() == ws.drop_first(),
    ensures
        repl_parsed(ws, r) <==> repl_parsed(alias, r),
        ws.len() >= 2 ==> (repl_parsed(ws, r) <==> (r matches Ok(ReplCommand::Delete { key }) && key@ == ws[1])),
{
    reveal_strlit("DELETE");
    reveal_strlit("DEL");
    reveal_strlit("PUT");
    reveal_strlit("SET");
    reveal_strlit("GET");
    assert("DELETE"@.len() == 6 && "DEL"@.len() == 3);
    assert("DELETE"@ != "PUT"@ && "DELETE"@ != "SET"@ && "DELETE"@ != "GET"@) by {
        assert("PUT"@.len() == 3 && "SET"@.len() == 3 && "GET"@.len() == 3);
    }
    assert("DEL"@ != "PUT"@ && "DEL"@ != "SET"@ && "DEL"@ != "GET"@) by {
        assert("DEL"@[0] == 'D' && "PUT"@[0] == 'P' && "SET"@[0] == 'S' && "GET"@[0] == 'G');
    }
    let u = uppercase_of(ws[0]);
    let v = uppercase_of(alias[0]);
    assert(!(u == "PUT"@ || u == "SET"@) && !(u == "GET"@) && (u == "DEL"@ || u == "DELETE"@));
    assert(!(v == "PUT"@ || v == "SET"@) && !(v == "GET"@) && (v == "DEL"@ || v == "DELETE"@));
    assert(ws.len() >= 2 ==> ws.drop_first()[0] == ws[1]);
}

/// The other names of shell commands ask the same as the names they stand for:
/// `SET` as `PUT`, `?` as `HELP`, and `QUIT` and `Q` as `EXIT`, whatever follows.
pub proof fn law_command_aliases(ws: Seq<Seq<char>>, alias: Seq<Seq<char>>, r: Result<ReplCommand, FlashStoreError>)
    requires
        ws.len() > 0,
        alias.len() == ws.len(),
        alias.drop_first() == ws.drop_first(),
        (uppercase_of(ws[0]) == "SET"@ && uppercase_of(alias[0]) == "PUT"@)
            || (uppercase_of(ws[0]) == "?"@ && uppercase_of(alias[0]) == "HELP"@)
            || (uppercase_of(ws[0]) == "QUIT"@ && uppercase_of(alias[0]) == "EXIT"@)
            || (uppercase_of(ws[0]) == "Q"@ && uppercase_of(alias[0]) == "EXIT"@),
    ensures
        repl_parsed(ws, r) <==> repl_parsed(alias, r),
{
    reveal_strlit("PUT");
    reveal_strlit("SET");
    reveal_strlit("GET");
    reveal_strlit("DEL");
    reveal_strlit("DELETE");
    reveal_strlit("SCAN");
    reveal_strlit("FLUSH");
    reveal_strlit("COMPACT");
    reveal_strlit("STATS");
    reveal_strlit("RAG");
    reveal_strlit("RAG-");
    reveal_strlit("RAG_");
    reveal_strlit("HELP");
    reveal_strlit("?");
    reveal_strlit("CLEAR");
    reveal_strlit("EXIT");
    reveal_strlit("QUIT");
    reveal_strlit("Q");
    let u = uppercase_of(ws[0]);
    let v = uppercase_of(alias[0]);
    assert("PUT"@.len() == 3 && "PUT"@[0] == 'P');
    assert("SET"@.len() == 3 && "SET"@[0] == 'S');
    assert("GET"@.len() == 3 && "GET"@[0] == 'G');
    assert("DEL"@.len() == 3 && "DEL"@[0] == 'D');
    assert("DELETE"@.len() == 6 && "DELETE"@[0] == 'D');
    assert("SCAN"@.len() == 4 && "SCAN"@[0] == 'S');
    assert("FLUSH"@.len() == 5 && "FLUSH"@[0] == 'F');
    assert("COMPACT"@.len() == 7 && "COMPACT"@[0] == 'C');
    assert("STATS"@.len() == 5 && "STATS"@[0] == 'S');
    assert("RAG"@.len() == 3 && "RAG"@[0] == 'R');
    assert("HELP"@.len() == 4 && "HELP"@[0] == 'H');
    assert("?"@.len() == 1 && "?"@[0] == '?');
    assert("CLEAR"@.len() == 5 && "CLEAR"@[0] == 'C');
    assert("EXIT"@.len() == 4 && "EXIT"@[0] == 'E');
    assert("QUIT"@.len() == 4 && "QUIT"@[0] == 'Q');
    assert("Q"@.len() == 1 && "Q"@[0] == 'Q');
    assert("RAG-"@[0] == 'R' && "RAG_"@[0] == 'R');
    if u.len() >= 4 {
        assert(u.take(4)[0] == u[0]);
    }
    if v.len() >= 4 {
        assert(v.take(4)[0] == v[0]);
    }
}

/// The other names of retrieval commands ask the same as the names they stand
/// for: `DELETE` as `DEL`, `SEARCH` as `QUERY`, and `CACHE CLEAR` as
/// `CLEAR-CACHE`, whatever follows.
pub proof fn law_rag_command_aliases(ws: Seq<Seq<char>>, alias: Seq<Seq<char>>, r: Result<RagReplCommand, FlashStoreError>)
    requires
        ws.len() > 0,
        alias.len() > 0,
        ((uppercase_of(ws[0]) == "DELETE"@ && uppercase_of(alias[0]) == "DEL"@)
            || (uppercase_of(ws[0]) == "SEARCH"@ && uppercase_of(alias[0]) == "QUERY"@))
            && alias.drop_first() == ws.drop_first()
        || (ws.len() >= 2 && uppercase_of(ws[0]) == "CACHE"@ && uppercase_of(ws[1]) == "CLEAR"@
            && uppercase_of(alias[0]) == "CLEAR-CACHE"@),
    ensures
        rag_parsed(ws, r) <==> rag_parsed(alias, r),
{
    reveal_strlit("INGEST");
    assert("INGEST"@.len() == 6 && "INGEST"@[0] == 'I');
    reveal_strlit("GET");
    assert("GET"@.len() == 3 && "GET"@[0] == 'G');
    reveal_strlit("DEL");
    assert("DEL"@.len() == 3 && "DEL"@[0] == 'D');
    reveal_strlit("DELETE");
    assert("DELETE"@.len() == 6 && "DELETE"@[0] == 'D');
    reveal_strlit("QUERY");
    assert("QUERY"@.len() == 5 && "QUERY"@[0] == 'Q');
    reveal_strlit("SEARCH");
    assert("SEARCH"@.len() == 6 && "SEARCH"@[0] == 'S');
    reveal_strlit("PROMPT");
    assert("PROMPT"@.len() == 6 && "PROMPT"@[0] == 'P');
    reveal_strlit("STATS");
    assert("STATS"@.len() == 5 && "STATS"@[0] == 'S');
    reveal_strlit("LIST");
    assert("LIST"@.len() == 4 && "LIST"@[0] == 'L');
    reveal_strlit("CLEAR-CACHE");
    assert("CLEAR-CACHE"@.len() == 11 && "CLEAR-CACHE"@[0] == 'C');
    reveal_strlit("CACHE");
    assert("CACHE"@.len() == 5 && "CACHE"@[0] == 'C');
    reveal_strlit("EVAL");
    assert("EVAL"@.len() == 4 && "EVAL"@[0] == 'E');
    reveal_strlit("CLEAR");
    assert("CLEAR"@.len() == 5 && "CLEAR"@[0] == 'C');
    let u = uppercase_of(ws[0]);
    let v = uppercase_of(alias[0]);
    if ws.len() >= 2 {
        assert(ws.drop_first()[0] == ws[1]);
    }
}

} // verus!
