//! Settings for assembling retrieved passages into a prompt context.
use vstd::prelude::*;
use vstd::string::StringExecFns;

verus! {

/// Layout of the passages of a context.
#[derive(Debug, Clone, Copy, PartialEq, Eq, Structural)]
pub enum ContextFormat {
    /// `### [1] doc_id (Score: 0.95)` headings followed by the text.
    Markdown,
    /// `<document id=".." index=".." score="..">` elements inside `<context>`.
    Xml,
    /// `[1] (doc_id): text` citation lines.
    Numbered,
    /// `[1] text` with line breaks flattened.
    Compact,
}

impl Default for ContextFormat {
    fn default() -> (r: ContextFormat)
        ensures
            r == ContextFormat::Markdown,
    {
        ContextFormat::Markdown
    }
}

/// What happens to a passage that does not fit the remaining budget.
#[derive(Debug, Clone, Copy, PartialEq, Eq, Structural)]
pub enum TruncationStrategy {
    /// Stop before it and leave it out.
    DropOversized,
    /// Cut its text to fill the remaining budget, then stop.
    TruncateLast,
}

impl Default for TruncationStrategy {
    fn default() -> (r: TruncationStrategy)
        ensures
            r == TruncationStrategy::TruncateLast,
    {
        TruncationStrategy::TruncateLast
    }
}

/// Options of context assembly.
#[derive(Debug, Clone)]
pub struct ContextConfig {
    /// Budget of the assembled text, in bytes.
    pub max_chars: usize,
    pub format: ContextFormat,
    pub truncation_strategy: TruncationStrategy,
    pub include_scores: bool,
    pub include_metadata: bool,
    /// Text placed before the passages.
    pub header: Option<String>,
}

/// The header a configuration carries, by its characters.
pub open spec fn header_view(h: Option<String>) -> Option<Seq<char>> {
    match h {
        Some(s) => Some(s@),
        None => None,
    }
}

impl Default for ContextConfig {
    fn default() -> (r: ContextConfig)
        ensures
            r.max_chars == 16384,
            r.format == ContextFormat::Markdown,
            r.truncation_strategy == TruncationStrategy::TruncateLast,
            r.include_scores,
            r.include_metadata,
            header_view(r.header) == Some("Relevant Context Passages:"@),
    {
        ContextConfig {
            max_chars: 16384,
            format: ContextFormat::Markdown,
            truncation_strategy: TruncationStrategy::TruncateLast,
            include_scores: true,
            include_metadata: true,
            header: Some(String::from_str("Relevant Context Passages:")),
        }
    }
}

impl ContextConfig {
    /// The default configuration.
    pub fn new() -> (r: ContextConfig)
        ensures
            r.max_chars == 16384,
            r.format == ContextFormat::Markdown,
            r.truncation_strategy == TruncationStrategy::TruncateLast,
            r.include_scores,
            r.include_metadata,
            header_view(r.header) == Some("Relevant Context Passages:"@),
    {
        ContextConfig::default()
    }

    pub fn max_chars(self, chars: usize) -> (r: ContextConfig)
        ensures
            r == (ContextConfig { max_chars: chars, ..self }),
    {
        let mut s = self;
        s.max_chars = chars;
        s
    }

    pub fn format(self, format: ContextFormat) -> (r: ContextConfig)
        ensures
            r == (ContextConfig { format, ..self }),
    {
        let mut s = self;
        s.format = format;
        s
    }

    pub fn truncation_strategy(self, strategy: TruncationStrategy) -> (r: ContextConfig)
        ensures
            r == (ContextConfig { truncation_strategy: strategy, ..self }),
    {
        let mut s = self;
        s.truncation_strategy = strategy;
        s
    }

    pub fn include_scores(self, enabled: bool) -> (r: ContextConfig)
        ensures
            r == (ContextConfig { include_scores: enabled, ..self }),
    {
        let mut s = self;
        s.include_scores = enabled;
        s
    }

    pub fn include_metadata(self, enabled: bool) -> (r: ContextConfig)
        ensures
            r == (ContextConfig { include_metadata: enabled, ..self }),
    {
        let mut s = self;
        s.include_metadata = enabled;
        s
    }

    /// Sets the header text.
    pub fn header(self, header: &str) -> (r: ContextConfig)
        ensures
            header_view(r.header) == Some(header@),
            r.max_chars == self.max_chars,
            r.format == self.format,
            r.truncation_strategy == self.truncation_strategy,
            r.include_scores == self.include_scores,
            r.include_metadata == self.include_metadata,
    {
        let mut s = self;
        s.header = Some(String::from_str(header));
        s
    }

    /// Removes the header.
    pub fn without_header(self) -> (r: ContextConfig)
        ensures
            r == (ContextConfig { header: None, ..self }),
    {
        let mut s = self;
        s.header = None;
        s
    }
}

/// Assembles retrieved passages into a context.
pub struct ContextAssembler;

impl ContextAssembler {
    /// A block from a prepared header and a (possibly cut) text; an XML block is
    /// closed after the text.
    pub fn format_custom_block(header: &str, text: &str, config: &ContextConfig) -> (r: String)
        ensures
            r@ == header@ + text@ + (if config.format == ContextFormat::Xml { "\n  </document>"@ } else { Seq::<char>::empty() }),
    {
        let mut r = String::from_str(header);
        r.append(text);
        if config.format == ContextFormat::Xml {
            r.append("\n  </document>");
        } else {
            assert(r@ + Seq::<char>::empty() =~= r@);
        }
        r
    }
}

/// Byte lengths of one passage: its full block, the heading of its block
/// alone, and its text.
#[derive(Debug, Clone, Copy, PartialEq, Eq, Structural)]
pub struct BlockSizes {
    pub block: usize,
    pub head: usize,
    pub text: usize,
}

/// What becomes of the first passage that does not fit.
#[derive(Debug, Clone, Copy, PartialEq, Eq, Structural)]
pub enum LastBlock {
    /// It is left out, with its citation.
    Omitted,
    /// Its heading is followed by its whole text.
    WholeText,
    /// Its heading is followed by this many bytes of its text and `... [truncated]`.
    CutAt(usize),
}

/// How much of a list of passages a budget takes in.
#[derive(Debug, Clone, Copy, PartialEq, Eq, Structural)]
pub struct BudgetPlan {
    /// The passages, from the first, kept with their full blocks.
    pub full_blocks: usize,
    /// The passage after them, where there is one that did not fit.
    pub last: LastBlock,
    /// Whether some passage did not fit whole.
    pub was_truncated: bool,
}

impl BudgetPlan {
    /// The number of citations kept: one per block in the context.
    pub fn citations(&self) -> (r: usize)
        requires
            self.full_blocks < usize::MAX,
        ensures
            r == self.full_blocks + (if self.last == LastBlock::Omitted { 0int } else { 1int }),
    {
        if self.last == LastBlock::Omitted { self.full_blocks } else { self.full_blocks + 1 }
    }
}

/// The plan from passage `i` on, `used` bytes being taken: a passage whose
/// block fits is kept and takes its block and a two-byte separator; the
/// first that does not fit is left out under `DropOversized`; under
/// `TruncateLast` it is cut to fill what remains, less its heading and the
/// fifteen bytes of the `... [truncated]` marker, where more than that remains,
/// and left out otherwise.
pub open spec fn budget_from(sizes: Seq<BlockSizes>, max: int, strategy: TruncationStrategy, i: nat, used: int) -> BudgetPlan
    decreases sizes.len() - i,
{
    if i >= sizes.len() {
        BudgetPlan { full_blocks: i as usize, last: LastBlock::Omitted, was_truncated: false }
    } else if used + sizes[i as int].block <= max {
        budget_from(sizes, max, strategy, i + 1, used + sizes[i as int].block + 2)
    } else {
        match strategy {
            TruncationStrategy::DropOversized => BudgetPlan { full_blocks: i as usize, last: LastBlock::Omitted, was_truncated: true },
            TruncationStrategy::TruncateLast => {
                let remaining = if max > used { max - used } else { 0 };
                let sz = sizes[i as int];
                if remaining > sz.head + 15 {
                    let avail = remaining - sz.head - 15;
                    BudgetPlan {
                        full_blocks: i as usize,
                        last: if avail < sz.text { LastBlock::CutAt(avail as usize) } else { LastBlock::WholeText },
                        was_truncated: true,
                    }
                } else {
                    BudgetPlan { full_blocks: i as usize, last: LastBlock::Omitted, was_truncated: true }
                }
            },
        }
    }
}

/// The plan for a context: a header of `header_len` bytes takes those bytes
/// and two more.
pub open spec fn budget(header_len: Option<usize>, sizes: Seq<BlockSizes>, max: int, strategy: TruncationStrategy) -> BudgetPlan {
    let used = match header_len { Some(h) => h + 2, None => 0 };
    budget_from(sizes, max, strategy, 0, used)
}

/// Bytes the blocks `i..k` take with their two-byte separators.
pub open spec fn blocks_bytes(sizes: Seq<BlockSizes>, i: int, k: int) -> int
    decreases k - i,
{
    if k <= i {
        0
    } else {
        blocks_bytes(sizes, i, k - 1) + sizes[k - 1].block + 2
    }
}

proof fn lemma_budget_from_fits(sizes: Seq<BlockSizes>, max: int, strategy: TruncationStrategy, i: nat, used: int)
    requires
        i <= sizes.len() <= usize::MAX,
        used >= 0,
    ensures
        ({
            let p = budget_from(sizes, max, strategy, i, used);
            &&& i <= p.full_blocks <= sizes.len()
            &&& p.full_blocks > i ==> used + blocks_bytes(sizes, i as int, p.full_blocks as int) <= max + 2
            &&& !p.was_truncated ==> p.full_blocks == sizes.len() && p.last == LastBlock::Omitted
        }),
    decreases sizes.len() - i,
{
    if i < sizes.len() && used + sizes[i as int].block <= max {
        let next = used + sizes[i as int].block + 2;
        lemma_budget_from_fits(sizes, max, strategy, i + 1, next);
        let p = budget_from(sizes, max, strategy, i + 1, next);
        assert(budget_from(sizes, max, strategy, i, used) == p);
        lemma_blocks_bytes_front(sizes, i as int, p.full_blocks as int);
        if p.full_blocks == i + 1 {
            assert(blocks_bytes(sizes, i as int + 1, i as int + 1) == 0);
        }
    }
}

proof fn lemma_blocks_bytes_front(sizes: Seq<BlockSizes>, i: int, k: int)
    requires
        i < k,
    ensures
        blocks_bytes(sizes, i, k) == sizes[i].block + 2 + blocks_bytes(sizes, i + 1, k),
    decreases k - i,
{
    if k - 1 > i {
        lemma_blocks_bytes_front(sizes, i, k - 1);
        assert(blocks_bytes(sizes, i + 1, k) == blocks_bytes(sizes, i + 1, k - 1) + sizes[k - 1].block + 2);
    } else {
        assert(blocks_bytes(sizes, i, i) == 0);
        assert(blocks_bytes(sizes, i + 1, k) == 0);
    }
}

/// The passages a context keeps whole fit its budget: the header with its
/// blank line, then the kept blocks separated by blank lines, take at most
/// `max` bytes. A plan reports no truncation only when every passage was
/// kept whole.
pub proof fn law_whole_blocks_fit_budget(header_len: Option<usize>, sizes: Seq<BlockSizes>, max: int, strategy: TruncationStrategy)
    requires
        sizes.len() <= usize::MAX,
    ensures
        ({
            let p = budget(header_len, sizes, max, strategy);
            let head = match header_len { Some(h) => h + 2, None => 0 };
            &&& p.full_blocks <= sizes.len()
            &&& p.full_blocks > 0 ==> head + blocks_bytes(sizes, 0, p.full_blocks as int) - 2 <= max
            &&& !p.was_truncated <==> (p.full_blocks == sizes.len() && p.last == LastBlock::Omitted)
            &&& p.last != LastBlock::Omitted ==> p.full_blocks < sizes.len()
            &&& p.last matches LastBlock::CutAt(n) ==>
                head + blocks_bytes(sizes, 0, p.full_blocks as int) + sizes[p.full_blocks as int].head + n + 15 == max
            &&& p.last == LastBlock::WholeText ==>
                head + blocks_bytes(sizes, 0, p.full_blocks as int) + sizes[p.full_blocks as int].head
                    + sizes[p.full_blocks as int].text + 15 <= max
        }),
{
    let head = match header_len { Some(h) => h + 2, None => 0int };
    lemma_budget_from_fits(sizes, max, strategy, 0, head);
    lemma_budget_truncated(sizes, max, strategy, 0, head);
    lemma_budget_last_fits(sizes, max, strategy, 0, head);
    assert(blocks_bytes(sizes, 0, 0) == 0);
}

/// A passage kept after the whole ones, cut or whole, fits with its heading and
/// the truncation marker in what the whole ones leave.
proof fn lemma_budget_last_fits(sizes: Seq<BlockSizes>, max: int, strategy: TruncationStrategy, i: nat, used: int)
    requires
        i <= sizes.len() <= usize::MAX,
    ensures
        ({
            let p = budget_from(sizes, max, strategy, i, used);
            &&& p.last != LastBlock::Omitted ==> i <= p.full_blocks < sizes.len()
            &&& p.last matches LastBlock::CutAt(n) ==>
                used + blocks_bytes(sizes, i as int, p.full_blocks as int) + sizes[p.full_blocks as int].head + n + 15 == max
            &&& p.last == LastBlock::WholeText ==>
                used + blocks_bytes(sizes, i as int, p.full_blocks as int) + sizes[p.full_blocks as int].head
                    + sizes[p.full_blocks as int].text + 15 <= max
        }),
    decreases sizes.len() - i,
{
    if i < sizes.len() && used + sizes[i as int].block <= max {
        let next = used + sizes[i as int].block + 2;
        lemma_budget_last_fits(sizes, max, strategy, i + 1, next);
        let p = budget_from(sizes, max, strategy, i + 1, next);
        assert(budget_from(sizes, max, strategy, i, used) == p);
        if p.last != LastBlock::Omitted {
            lemma_blocks_bytes_front(sizes, i as int, p.full_blocks as int);
        }
    } else {
        assert(blocks_bytes(sizes, i as int, i as int) == 0);
    }
}

proof fn lemma_budget_truncated(sizes: Seq<BlockSizes>, max: int, strategy: TruncationStrategy, i: nat, used: int)
    requires
        i <= sizes.len() <= usize::MAX,
    ensures
        budget_from(sizes, max, strategy, i, used).was_truncated ==> budget_from(sizes, max, strategy, i, used).full_blocks < sizes.len(),
    decreases sizes.len() - i,
{
    if i < sizes.len() && used + sizes[i as int].block <= max {
        lemma_budget_truncated(sizes, max, strategy, i + 1, used + sizes[i as int].block + 2);
    }
}

impl ContextAssembler {
    /// Decides which passages a context of `max_chars` bytes takes in, given
    /// the byte lengths of its header and of each passage's blocks.
    pub fn plan_budget(header_len: Option<usize>, sizes: &Vec<BlockSizes>, max_chars: usize, strategy: TruncationStrategy) -> (r: BudgetPlan)
        ensures
            r == budget(header_len, sizes@, max_chars as int, strategy),
    {
        let mut used: u128 = match header_len {
            Some(h) => h as u128 + 2,
            None => 0,
        };
        let max = max_chars as u128;
        let mut i: usize = 0;
        while i < sizes.len()
            invariant
                i <= sizes@.len(),
                used <= max + 2 || i == 0,
                used <= usize::MAX as u128 + 2,
                max == max_chars as u128,
                budget(header_len, sizes@, max_chars as int, strategy)
                    == budget_from(sizes@, max_chars as int, strategy, i as nat, used as int),
            decreases sizes@.len() - i,
        {
            let sz = sizes[i];
            if used + sz.block as u128 <= max {
                used = used + sz.block as u128 + 2;
                i = i + 1;
            } else {
                match strategy {
                    TruncationStrategy::DropOversized => {
                        return BudgetPlan { full_blocks: i, last: LastBlock::Omitted, was_truncated: true };
                    },
                    TruncationStrategy::TruncateLast => {
                        let remaining: u128 = if max > used { max - used } else { 0 };
                        if remaining > sz.head as u128 + 15 {
                            let avail = (remaining - sz.head as u128 - 15) as usize;
                            let last = if avail < sz.text { LastBlock::CutAt(avail) } else { LastBlock::WholeText };
                            return BudgetPlan { full_blocks: i, last, was_truncated: true };
                        } else {
                            return BudgetPlan { full_blocks: i, last: LastBlock::Omitted, was_truncated: true };
                        }
                    },
                }
            }
        }
        BudgetPlan { full_blocks: i, last: LastBlock::Omitted, was_truncated: false }
    }
}

/// Instruction and query prefix framing a prompt.
#[derive(Debug, Clone)]
pub struct RagPromptTemplate {
    pub system_instruction: String,
    pub user_query_prefix: String,
}

impl Default for RagPromptTemplate {
    fn default() -> (r: RagPromptTemplate)
        ensures
            r.system_instruction@ == "Answer the question accurately based solely on the provided context passages."@,
            r.user_query_prefix@ == "User Query:"@,
    {
        RagPromptTemplate {
            system_instruction: String::from_str("Answer the question accurately based solely on the provided context passages."),
            user_query_prefix: String::from_str("User Query:"),
        }
    }
}

impl RagPromptTemplate {
    /// A template with its own instruction and the usual query prefix.
    pub fn new(system_instruction: &str) -> (r: RagPromptTemplate)
        ensures
            r.system_instruction@ == system_instruction@,
            r.user_query_prefix@ == "User Query:"@,
    {
        RagPromptTemplate {
            system_instruction: String::from_str(system_instruction),
            user_query_prefix: String::from_str("User Query:"),
        }
    }

    /// The prompt: instruction, a blank line, the context text, a blank line, then
    /// the query prefix, a space and the query.
    pub fn format_prompt_text(&self, query: &str, context_text: &str) -> (r: String)
        ensures
            r@ == self.system_instruction@ + "\n\n"@ + context_text@ + "\n\n"@ + self.user_query_prefix@ + " "@ + query@,
    {
        let mut r = String::from_str(self.system_instruction.as_str());
        r.append("\n\n");
        r.append(context_text);
        r.append("\n\n");
        r.append(self.user_query_prefix.as_str());
        r.append(" ");
        r.append(query);
        r
    }
}

} // verus!
