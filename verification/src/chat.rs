//! Repository-aware chat context building. Pure, deterministic functions that
//! turn a repository snapshot and a conversation into the messages sent to an
//! LLM, within an approximate token budget.
//!
//! Token counts are estimated as characters / 4: good enough to keep
//! prompts within a model's context window without a tokenizer.
use vstd::prelude::*;

use crate::entities::ast::strings_view;
use crate::entities::language::language_name;
use crate::entities::llm::MessageView;
use crate::entities::{ChatMessage, Language, Role};
use crate::intel::search::{lemma_long_words_bytes, lemma_split_bytes, query_words, words_of};
use crate::order::{
    is_sorted, lemma_seq_lt_total, lemma_seq_lt_trans, lemma_sort_contains, lemma_sort_sorted,
    lemma_sorted_take, order_total, order_transitive, seq_le, seq_lt, sort_by_key, sort_seq, views,
    Comparison, SortKey, SpecOrder,
};
use crate::text::{
    chars_of, concat, contains, contains_sub, decimal, decimal_string, join, join_chars, lowercase,
    pieces_view, slice_to_vec, split, string_of, to_lowercase, utf8_len, Separator,
};

verus! {

/// Default prompt token budget when the caller does not specify one.
pub const DEFAULT_TOKEN_BUDGET: usize = 12_000;

/// Characters per token, for rough budgeting.
pub const CHARS_PER_TOKEN: usize = 4;

/// Hard cap on a single file's included content, in characters.
pub const MAX_FILE_CHARS: usize = 4_000;

/// A file included in the chat context.
#[derive(Clone, PartialEq, Eq, Debug)]
pub struct RelevantFile {
    /// Path relative to the repository root.
    pub path: String,
    /// File content (already read).
    pub content: String,
}

/// A snapshot of the repository used to build chat context.
#[derive(Clone, PartialEq, Eq, Debug)]
pub struct RepoContext {
    /// Project name.
    pub name: String,
    /// Current branch.
    pub branch: String,
    /// Per-language file counts, most first.
    pub languages: Vec<(Language, usize)>,
    /// Top-level directory names.
    pub top_level_dirs: Vec<String>,
    /// Files selected as relevant to the question.
    pub relevant_files: Vec<RelevantFile>,
}

impl Default for RepoContext {
    /// An empty snapshot.
    fn default() -> (r: RepoContext)
        ensures
            r.name@.len() == 0,
            r.branch@.len() == 0,
            r.languages@.len() == 0,
            r.top_level_dirs@.len() == 0,
            r.relevant_files@.len() == 0,
    {
        RepoContext {
            name: String::new(),
            branch: String::new(),
            languages: Vec::new(),
            top_level_dirs: Vec::new(),
            relevant_files: Vec::new(),
        }
    }
}

// --- Token estimates ------------------------------------------------------

/// Estimated tokens of a text: its number of characters over four.
pub open spec fn tokens_of(s: Seq<char>) -> nat {
    s.len() / 4
}

/// Estimates the token count of a string.
fn estimate_tokens(text: &str) -> (r: usize)
    ensures
        r == tokens_of(text@),
        r <= usize::MAX / 4,
{
    text.unicode_len() / CHARS_PER_TOKEN
}

// --- Relevant files -------------------------------------------------------

/// How many of `words` occur in `lower`.
pub open spec fn overlap(words: Seq<Seq<char>>, lower: Seq<char>) -> nat
    decreases words.len(),
{
    if words.len() == 0 {
        0
    } else {
        overlap(words.drop_last(), lower) + if contains_sub(lower, words.last()) {
            1nat
        } else {
            0nat
        }
    }
}

/// Each path with a positive overlap score, with its score, in order.
pub open spec fn scored_paths(words: Seq<Seq<char>>, paths: Seq<Seq<char>>) -> Seq<(usize, Seq<char>)>
    decreases paths.len(),
{
    if paths.len() == 0 {
        Seq::empty()
    } else {
        let r = scored_paths(words, paths.drop_last());
        let score = overlap(words, lowercase(paths.last()));
        if score > 0 {
            r.push((score as usize, paths.last()))
        } else {
            r
        }
    }
}

impl SpecOrder for (usize, Seq<char>) {
    /// Higher scores first, then paths in order.
    open spec fn order_le(&self, other: &Self) -> bool {
        if self.0 != other.0 {
            self.0 > other.0
        } else {
            seq_le(self.1, other.1)
        }
    }
}

impl SortKey for (usize, String) {
    fn sort_le_exec(&self, other: &Self) -> (r: bool) {
        if self.0 != other.0 {
            self.0 > other.0
        } else {
            match crate::order::compare_str(&self.1, &other.1) {
                Comparison::Greater => false,
                _ => true,
            }
        }
    }
}

/// The (up to) `max` paths most relevant to `question`, best first.
pub open spec fn relevant_spec(paths: Seq<Seq<char>>, question: Seq<char>, max: usize) -> Seq<
    Seq<char>,
> {
    let s = sort_seq(scored_paths(query_words(question), paths));
    let t = if s.len() <= max {
        s
    } else {
        s.take(max as int)
    };
    t.map_values(|p: (usize, Seq<char>)| p.1)
}

/// How many of `words` occur in `lower`.
fn count_overlap(words: &Vec<String>, lower: &[char]) -> (r: usize)
    ensures
        r == overlap(strings_view(words@), lower@),
        r <= words@.len(),
{
    let ghost ws = strings_view(words@);
    let mut n: usize = 0;
    let mut i: usize = 0;
    assert(ws.take(0) =~= Seq::<Seq<char>>::empty());
    while i < words.len()
        invariant
            i <= words@.len(),
            ws == strings_view(words@),
            n <= i,
            n == overlap(ws.take(i as int), lower@),
        decreases words@.len() - i,
    {
        assert(ws.take(i + 1).drop_last() == ws.take(i as int));
        assert(ws.take(i + 1).last() == words@[i as int]@);
        let w = chars_of(&words[i]);
        if contains(lower, &w) {
            n += 1;
        }
        i += 1;
    }
    assert(ws.take(words@.len() as int) == ws);
    n
}

/// Selects up to `max` repository files most relevant to `question`, by simple
/// word-overlap with the file path. Returns paths ordered by descending score.
pub fn select_relevant(paths: &[String], question: &str, max: usize) -> (r: Vec<String>)
    ensures
        strings_view(r@) == relevant_spec(strings_view(paths@), question@, max),
{
    let words = words_of(question);
    let ghost ws = strings_view(words@);
    let ghost pv = strings_view(paths@);
    let mut scored: Vec<(usize, String)> = Vec::new();
    let mut i: usize = 0;
    assert(pv.take(0) =~= Seq::<Seq<char>>::empty());
    assert(views(scored@) =~= scored_paths(ws, pv.take(0)));
    while i < paths.len()
        invariant
            i <= paths@.len(),
            ws == strings_view(words@),
            pv == strings_view(paths@),
            views(scored@) == scored_paths(ws, pv.take(i as int)),
        decreases paths@.len() - i,
    {
        assert(pv.take(i + 1).drop_last() == pv.take(i as int));
        assert(pv.take(i + 1).last() == paths@[i as int]@);
        let lowered = to_lowercase(&paths[i]);
        let lower = chars_of(&lowered);
        let score = count_overlap(&words, &lower);
        let ghost before = views(scored@);
        if score > 0 {
            scored.push((score, paths[i].clone()));
            assert(views(scored@) =~= before.push((score, paths@[i as int]@)));
        }
        i += 1;
    }
    assert(pv.take(paths@.len() as int) == pv);
    proof {
        lemma_scored_order();
    }
    let sorted = sort_by_key(scored);
    let ghost s = views(sorted@);
    let n = if sorted.len() <= max {
        sorted.len()
    } else {
        max
    };
    let mut r: Vec<String> = Vec::new();
    let mut j: usize = 0;
    while j < n
        invariant
            n <= sorted@.len(),
            j <= n,
            s == views(sorted@),
            strings_view(r@) == s.take(j as int).map_values(|p: (usize, Seq<char>)| p.1),
        decreases n - j,
    {
        let ghost before = r@;
        r.push(sorted[j].1.clone());
        assert(s[j as int] == (sorted@[j as int].0, sorted@[j as int].1@));
        assert(strings_view(r@) =~= strings_view(before).push(s[j as int].1));
        assert(s.take(j + 1) == s.take(j as int).push(s[j as int]));
        assert(strings_view(r@) =~= s.take(j + 1).map_values(|p: (usize, Seq<char>)| p.1));
        j += 1;
    }
    proof {
        if s.len() <= max {
            assert(s.take(n as int) == s);
        }
    }
    r
}

// --- System prompt ---------------------------------------------------------

/// The opening instructions of every system prompt.
pub open spec fn intro_text() -> Seq<char> {
    "You are DevPilot, an assistant that answers questions about a specific code repository using the provided context. Be concise, and cite file paths when relevant.\n\n"@
}

/// `Name (count)` for one language.
pub open spec fn language_entry(p: (Language, usize)) -> Seq<char> {
    language_name(p.0) + " ("@ + decimal(p.1 as nat) + ")"@
}

/// The repository line and the language and directory lines, when present.
pub open spec fn header_text(
    name: Seq<char>,
    branch: Seq<char>,
    languages: Seq<(Language, usize)>,
    dirs: Seq<Seq<char>>,
) -> Seq<char> {
    intro_text() + "Repository: "@ + name + " (branch "@ + branch + ")\n"@ + (if languages.len()
        > 0 {
        "Languages: "@ + join(languages.map_values(|p: (Language, usize)| language_entry(p)), ", "@)
            + "\n"@
    } else {
        Seq::empty()
    }) + (if dirs.len() > 0 {
        "Top-level directories: "@ + join(dirs, ", "@) + "\n"@
    } else {
        Seq::empty()
    })
}

/// The first (up to) `n` characters of `s`.
pub open spec fn prefix_chars(s: Seq<char>, n: nat) -> Seq<char> {
    if s.len() <= n {
        s
    } else {
        s.take(n as int)
    }
}

/// The block that presents one file's (possibly cut) content.
pub open spec fn file_block(path: Seq<char>, content: Seq<char>) -> Seq<char> {
    "\n--- "@ + path + " ---\n```\n"@ + content + "\n```\n"@
}

/// How many characters of a file fit when `spent` of `budget` tokens are
/// used: four per remaining token, at most `MAX_FILE_CHARS`.
pub open spec fn file_char_limit(spent: nat, budget: nat) -> nat {
    let remaining = (budget - spent) * 4;
    let r = if remaining > usize::MAX { usize::MAX as int } else { remaining };
    if r < MAX_FILE_CHARS { r as nat } else { MAX_FILE_CHARS as nat }
}

/// The blocks of `files` that are started while fewer than `budget` tokens
/// are spent, `spent` counting the tokens used before them.
pub open spec fn file_blocks(files: Seq<RelevantFile>, spent: nat, budget: nat) -> Seq<char>
    decreases files.len(),
{
    if files.len() == 0 || spent >= budget {
        Seq::empty()
    } else {
        let f = files[0];
        let block = file_block(f.path@, prefix_chars(f.content@, file_char_limit(spent, budget)));
        block + file_blocks(files.drop_first(), spent + tokens_of(block), budget)
    }
}

/// The system prompt for a repository snapshot with `budget` tokens for
/// files.
pub open spec fn system_prompt_spec(ctx: RepoContext, budget: nat) -> Seq<char> {
    let header = header_text(
        ctx.name@,
        ctx.branch@,
        ctx.languages@,
        strings_view(ctx.top_level_dirs@),
    );
    header + if ctx.relevant_files@.len() > 0 {
        "\nRelevant files:\n"@ + file_blocks(ctx.relevant_files@, tokens_of(header), budget)
    } else {
        Seq::empty()
    }
}

/// `a` followed by `b`.
fn append(a: String, b: &str) -> (r: String)
    ensures
        r@ == a@ + b@,
{
    concat(&a, b)
}

/// The language entries joined by `, `.
fn languages_line(languages: &Vec<(Language, usize)>) -> (r: String)
    ensures
        r@ == join(languages@.map_values(|p: (Language, usize)| language_entry(p)), ", "@),
{
    let ghost entries = languages@.map_values(|p: (Language, usize)| language_entry(p));
    let mut pieces: Vec<Vec<char>> = Vec::new();
    let mut i: usize = 0;
    while i < languages.len()
        invariant
            i <= languages@.len(),
            entries == languages@.map_values(|p: (Language, usize)| language_entry(p)),
            pieces_view(pieces@) == entries.take(i as int),
        decreases languages@.len() - i,
    {
        let (l, c) = languages[i];
        let head = concat(l.name(), " (");
        let n = decimal_string(c as u64);
        let head = concat(&head, &n);
        let entry = concat(&head, ")");
        assert(entries[i as int] == language_entry(languages@[i as int]));
        assert(entry@ =~= language_entry(languages@[i as int]));
        let ghost before = pieces_view(pieces@);
        pieces.push(chars_of(&entry));
        assert(pieces_view(pieces@) =~= before.push(entries[i as int]));
        assert(entries.take(i + 1) == entries.take(i as int).push(entries[i as int]));
        assert(pieces_view(pieces@) =~= entries.take(i + 1));
        i += 1;
    }
    assert(entries.take(languages@.len() as int) == entries);
    let sep = chars_of(", ");
    let joined = join_chars(&pieces, &sep);
    string_of(&joined)
}

/// The strings joined by `, `.
fn comma_list(items: &Vec<String>) -> (r: String)
    ensures
        r@ == join(strings_view(items@), ", "@),
{
    let mut pieces: Vec<Vec<char>> = Vec::new();
    let mut i: usize = 0;
    while i < items.len()
        invariant
            i <= items@.len(),
            pieces_view(pieces@) == strings_view(items@).take(i as int),
        decreases items@.len() - i,
    {
        let ghost before = pieces_view(pieces@);
        pieces.push(chars_of(&items[i]));
        assert(pieces_view(pieces@) =~= before.push(items@[i as int]@));
        assert(strings_view(items@).take(i + 1) == strings_view(items@).take(i as int).push(
            items@[i as int]@,
        ));
        assert(pieces_view(pieces@) =~= strings_view(items@).take(i + 1));
        i += 1;
    }
    assert(strings_view(items@).take(items@.len() as int) == strings_view(items@));
    let sep = chars_of(", ");
    let joined = join_chars(&pieces, &sep);
    string_of(&joined)
}

/// The first (up to) `n` characters of `s`.
fn take_chars(s: &str, n: usize) -> (r: String)
    ensures
        r@ == prefix_chars(s@, n as nat),
{
    let cs = chars_of(s);
    let k = if cs.len() <= n {
        cs.len()
    } else {
        n
    };
    let t = slice_to_vec(&cs, 0, k);
    proof {
        if cs@.len() <= n {
            assert(cs@.subrange(0, k as int) == cs@);
        }
    }
    string_of(&t)
}

/// Builds the system prompt, including relevant files up to `file_budget`
/// tokens (each file also capped by `MAX_FILE_CHARS`).
fn system_prompt(context: &RepoContext, file_budget: usize) -> (r: String)
    requires
        file_budget <= usize::MAX / 2,
    ensures
        r@ == system_prompt_spec(*context, file_budget as nat),
{
    let mut prompt = "You are DevPilot, an assistant that answers questions about a specific code repository using the provided context. Be concise, and cite file paths when relevant.\n\n".to_string();
    prompt = append(prompt, "Repository: ");
    prompt = append(prompt, &context.name);
    prompt = append(prompt, " (branch ");
    prompt = append(prompt, &context.branch);
    prompt = append(prompt, ")\n");
    if context.languages.len() > 0 {
        prompt = append(prompt, "Languages: ");
        let line = languages_line(&context.languages);
        prompt = append(prompt, &line);
        prompt = append(prompt, "\n");
    }
    if context.top_level_dirs.len() > 0 {
        prompt = append(prompt, "Top-level directories: ");
        let line = comma_list(&context.top_level_dirs);
        prompt = append(prompt, &line);
        prompt = append(prompt, "\n");
    }
    let ghost header = header_text(
        context.name@,
        context.branch@,
        context.languages@,
        strings_view(context.top_level_dirs@),
    );
    assert(prompt@ =~= header);
    let mut spent = estimate_tokens(&prompt);
    if context.relevant_files.len() > 0 {
        prompt = append(prompt, "\nRelevant files:\n");
        let ghost files = context.relevant_files@;
        let ghost start = prompt@;
        let mut i: usize = 0;
        assert(files.skip(0) == files);
        while i < context.relevant_files.len()
            invariant
                i <= files.len(),
                files == context.relevant_files@,
                file_budget <= usize::MAX / 2,
                prompt@ + file_blocks(files.skip(i as int), spent as nat, file_budget as nat)
                    == start + file_blocks(files, tokens_of(header), file_budget as nat),
            ensures
                prompt@ == start + file_blocks(files, tokens_of(header), file_budget as nat),
            decreases files.len() - i,
        {
            if spent >= file_budget {
                assert(prompt@ + file_blocks(files.skip(i as int), spent as nat, file_budget as nat)
                    =~= prompt@);
                break;
            }
            let file = &context.relevant_files[i];
            assert(files.skip(i as int)[0] == *file);
            assert(files.skip(i as int).drop_first() == files.skip(i + 1));
            let left = file_budget - spent;
            // Saturating multiplication by CHARS_PER_TOKEN.
            let remaining_chars = if left > usize::MAX / CHARS_PER_TOKEN {
                usize::MAX
            } else {
                left * CHARS_PER_TOKEN
            };
            let limit = if remaining_chars < MAX_FILE_CHARS {
                remaining_chars
            } else {
                MAX_FILE_CHARS
            };
            assert(limit == file_char_limit(spent as nat, file_budget as nat));
            let content = take_chars(&file.content, limit);
            let mut block = "\n--- ".to_string();
            block = append(block, &file.path);
            block = append(block, " ---\n```\n");
            block = append(block, &content);
            block = append(block, "\n```\n");
            assert(block@ =~= file_block(file.path@, content@));
            let cost = estimate_tokens(&block);
            assert(cost <= usize::MAX / 4 + 1);
            spent = spent + cost;
            let ghost before = prompt@;
            prompt = append(prompt, &block);
            assert(before + file_blocks(files.skip(i as int), (spent - cost) as nat, file_budget as nat)
                =~= prompt@ + file_blocks(files.skip(i + 1), spent as nat, file_budget as nat));
            i += 1;
            proof {
                if i == files.len() {
                    assert(files.skip(i as int).len() == 0);
                    assert(prompt@ + file_blocks(files.skip(i as int), spent as nat, file_budget as nat)
                        =~= prompt@);
                }
            }
        }
    }
    prompt
}

// --- Messages --------------------------------------------------------------

/// How many of the latest messages of `h` fit `remaining` tokens, newest
/// first; the newest one is kept in any case (`any` says whether one was
/// kept already).
pub open spec fn kept_count(h: Seq<MessageView>, remaining: nat, any: bool) -> nat
    decreases h.len(),
{
    if h.len() == 0 {
        0
    } else {
        let cost = tokens_of(h.last().content);
        if !any || cost <= remaining {
            1 + kept_count(
                h.drop_last(),
                if cost <= remaining { (remaining - cost) as nat } else { 0 },
                true,
            )
        } else {
            0
        }
    }
}

/// The messages sent to the model: the system prompt with repository
/// context, then the latest history messages that fit the budget.
pub open spec fn messages_spec(ctx: RepoContext, history: Seq<MessageView>, budget: usize) -> Seq<
    MessageView,
> {
    let system = system_prompt_spec(ctx, (budget / 2) as nat);
    let cost = tokens_of(system);
    let remaining = if cost <= budget { (budget - cost) as nat } else { 0 };
    let k = kept_count(history, remaining, false);
    seq![MessageView { role: Role::System, content: system }] + history.skip(history.len() - k)
}

proof fn lemma_kept_count_bound(h: Seq<MessageView>, remaining: nat, any: bool)
    ensures
        kept_count(h, remaining, any) <= h.len(),
    decreases h.len(),
{
    if h.len() > 0 {
        let cost = tokens_of(h.last().content);
        lemma_kept_count_bound(
            h.drop_last(),
            if cost <= remaining { (remaining - cost) as nat } else { 0 },
            true,
        );
    }
}

/// Builds the messages to send to the model: a system prompt with repository
/// context, followed by as much recent history as fits the budget (the most
/// recent message is always kept).
pub fn build_messages(context: &RepoContext, history: &[ChatMessage], token_budget: usize) -> (r: Vec<
    ChatMessage,
>)
    ensures
        views(r@) == messages_spec(*context, views(history@), token_budget),
{
    let system = system_prompt(context, token_budget / 2);
    let ghost hv = views(history@);
    let ghost rem0: nat = if tokens_of(system@) <= token_budget {
        (token_budget - tokens_of(system@)) as nat
    } else {
        0
    };
    let mut remaining = token_budget.saturating_sub(estimate_tokens(&system));
    let mut kept: Vec<ChatMessage> = Vec::new();
    let mut i: usize = history.len();
    proof {
        lemma_kept_count_bound(hv, rem0, false);
    }
    assert(hv.take(history@.len() as int) == hv);
    while i > 0
        invariant
            i <= history@.len(),
            hv == views(history@),
            kept@.len() == history@.len() - i,
            forall|j: int| 0 <= j < kept@.len() ==> kept@[j]@ == hv[hv.len() - 1 - j],
            kept_count(hv, rem0, false) == kept@.len() + kept_count(
                hv.take(i as int),
                remaining as nat,
                kept@.len() > 0,
            ),
        ensures
            kept@.len() <= history@.len(),
            forall|j: int| 0 <= j < kept@.len() ==> kept@[j]@ == hv[hv.len() - 1 - j],
            kept_count(hv, rem0, false) == kept@.len(),
        decreases i,
    {
        let message = &history[i - 1];
        let cost = estimate_tokens(&message.content);
        assert(hv.take(i as int).last() == message@);
        assert(hv.take(i as int).drop_last() == hv.take(i - 1));
        if kept.len() == 0 || cost <= remaining {
            remaining = remaining.saturating_sub(cost);
            kept.push(message.duplicate());
            i -= 1;
            proof {
                if i == 0 {
                    assert(hv.take(0).len() == 0);
                }
            }
        } else {
            assert(kept_count(hv.take(i as int), remaining as nat, true) == 0);
            break;
        }
    }
    let mut messages: Vec<ChatMessage> = Vec::new();
    messages.push(ChatMessage::new(Role::System, system));
    let mut j: usize = kept.len();
    let n = kept.len();
    while j > 0
        invariant
            j <= n,
            n == kept@.len(),
            n <= hv.len(),
            hv == views(history@),
            forall|t: int| 0 <= t < kept@.len() ==> kept@[t]@ == hv[hv.len() - 1 - t],
            messages@.len() == 1 + (n - j),
            messages@[0]@ == (MessageView {
                role: Role::System,
                content: system_prompt_spec(*context, (token_budget / 2) as nat),
            }),
            forall|t: int|
                1 <= t < messages@.len() ==> messages@[t]@ == hv[hv.len() - n + (t - 1)],
        decreases j,
    {
        messages.push(kept[j - 1].duplicate());
        j -= 1;
    }
    assert(views(messages@) =~= messages_spec(*context, hv, token_budget));
    messages
}

// --- Laws -------------------------------------------------------------------------

/// Every scored path is one of the paths, with its positive overlap score.
proof fn lemma_scored_paths(words: Seq<Seq<char>>, paths: Seq<Seq<char>>)
    requires
        words.len() <= usize::MAX,
    ensures
        forall|k: int|
            0 <= k < scored_paths(words, paths).len() ==> paths.contains(
                (#[trigger] scored_paths(words, paths)[k]).1,
            ) && scored_paths(words, paths)[k].0 > 0 && scored_paths(words, paths)[k].0 == overlap(
                words,
                lowercase(scored_paths(words, paths)[k].1),
            ),
    decreases paths.len(),
{
    if paths.len() > 0 {
        let p = paths.drop_last();
        lemma_scored_paths(words, p);
        lemma_overlap_le(words, lowercase(paths.last()));
        let r = scored_paths(words, paths);
        let q = scored_paths(words, p);
        assert forall|k: int| 0 <= k < r.len() implies paths.contains((#[trigger] r[k]).1) && r[k].0
            > 0 && r[k].0 == overlap(words, lowercase(r[k].1)) by {
            if k < q.len() {
                assert(r[k] == q[k]);
                let m = choose|m: int| 0 <= m < p.len() && p[m] == q[k].1;
                assert(paths[m] == p[m]);
            } else {
                assert(paths[paths.len() - 1] == r[k].1);
            }
        }
    }
}

/// An overlap count is at most the number of words.
proof fn lemma_overlap_le(words: Seq<Seq<char>>, lower: Seq<char>)
    ensures
        overlap(words, lower) <= words.len(),
    decreases words.len(),
{
    if words.len() > 0 {
        lemma_overlap_le(words.drop_last(), lower);
    }
}

/// Scored paths order totally and transitively.
proof fn lemma_scored_order()
    ensures
        order_total::<(usize, Seq<char>)>(),
        order_transitive::<(usize, Seq<char>)>(),
{
    assert forall|a: (usize, Seq<char>), b: (usize, Seq<char>)| #[trigger] a.order_le(&b) || b.order_le(&a) by {
        lemma_seq_lt_total(a.1, b.1);
    }
    assert forall|a: (usize, Seq<char>), b: (usize, Seq<char>), c: (usize, Seq<char>)|
        #![trigger a.order_le(&b), b.order_le(&c)]
        a.order_le(&b) && b.order_le(&c) implies a.order_le(&c) by {
        lemma_seq_lt_total(a.1, c.1);
        if seq_lt(a.1, b.1) && seq_lt(b.1, c.1) {
            lemma_seq_lt_trans(a.1, b.1, c.1);
        }
    }
}

/// At most `max` files are selected; each is one of the candidate paths
/// and shares at least one word of three or more bytes with the question;
/// they come by descending number of shared words, then by path.
pub proof fn law_relevant_files(paths: Seq<Seq<char>>, question: Seq<char>, max: usize)
    requires
        utf8_len(question) <= usize::MAX,
    ensures
        relevant_spec(paths, question, max).len() <= max,
        forall|k: int|
            0 <= k < relevant_spec(paths, question, max).len() ==> paths.contains(
                #[trigger] relevant_spec(paths, question, max)[k],
            ) && overlap(query_words(question), lowercase(relevant_spec(paths, question, max)[k]))
                > 0,
        is_sorted(
            sort_seq(scored_paths(query_words(question), paths)).take(
                relevant_spec(paths, question, max).len() as int,
            ),
        ),
        relevant_spec(paths, question, max) == sort_seq(
            scored_paths(query_words(question), paths),
        ).take(relevant_spec(paths, question, max).len() as int).map_values(
            |p: (usize, Seq<char>)| p.1,
        ),
{
    let words = query_words(question);
    lemma_long_words_bytes(split(question, Separator::NonAlphanumeric));
    lemma_split_bytes(question, Separator::NonAlphanumeric);
    let sc = scored_paths(words, paths);
    let s = sort_seq(sc);
    lemma_scored_paths(words, paths);
    lemma_scored_order();
    lemma_sort_sorted(sc);
    lemma_sort_contains(sc);
    let r = relevant_spec(paths, question, max);
    let n = r.len() as int;
    if s.len() <= max {
        assert(s.take(n) == s);
    }
    lemma_sorted_take(s, n);
    assert forall|k: int| 0 <= k < r.len() implies paths.contains(#[trigger] r[k]) && overlap(
        words,
        lowercase(r[k]),
    ) > 0 by {
        assert(r[k] == s[k].1);
        assert(sc.contains(s[k]));
        let m = choose|m: int| 0 <= m < sc.len() && sc[m] == s[k];
        assert(paths.contains(sc[m].1));
    }
}

/// Keeping the newest message: with history, at least one message is kept.
proof fn lemma_kept_count_newest(h: Seq<MessageView>, remaining: nat)
    requires
        h.len() > 0,
    ensures
        kept_count(h, remaining, false) >= 1,
{
}

/// The messages sent start with the system prompt built from the
/// repository context, followed by the newest history messages in their
/// order; the newest message is always among them, whatever the budget.
pub proof fn law_messages_keep_newest(ctx: RepoContext, history: Seq<MessageView>, budget: usize)
    ensures
        messages_spec(ctx, history, budget).len() >= 1,
        messages_spec(ctx, history, budget)[0] == (MessageView {
            role: Role::System,
            content: system_prompt_spec(ctx, (budget / 2) as nat),
        }),
        messages_spec(ctx, history, budget).skip(1) == history.skip(
            history.len() - (messages_spec(ctx, history, budget).len() - 1),
        ),
        messages_spec(ctx, history, budget).len() - 1 <= history.len(),
        history.len() > 0 ==> messages_spec(ctx, history, budget).len() >= 2
            && messages_spec(ctx, history, budget).last() == history.last(),
{
    let system = system_prompt_spec(ctx, (budget / 2) as nat);
    let cost = tokens_of(system);
    let remaining: nat = if cost <= budget { (budget - cost) as nat } else { 0 };
    let k = kept_count(history, remaining, false);
    lemma_kept_count_bound(history, remaining, false);
    let m = messages_spec(ctx, history, budget);
    let sys = MessageView { role: Role::System, content: system };
    assert(m == seq![sys] + history.skip(history.len() - k));
    assert(m.skip(1) =~= history.skip(history.len() - k));
    if history.len() > 0 {
        lemma_kept_count_newest(history, remaining);
        assert(m.last() == history.skip(history.len() - k).last());
    }
}

/// The estimated tokens of the contents of `s`, summed.
pub open spec fn tokens_total(s: Seq<MessageView>) -> nat
    decreases s.len(),
{
    if s.len() == 0 {
        0
    } else {
        tokens_total(s.drop_last()) + tokens_of(s.last().content)
    }
}

/// Once one message is kept, the kept messages fit `remaining`, and the
/// next older message, if any, does not fit what is left.
proof fn lemma_kept_count_fits(h: Seq<MessageView>, remaining: nat)
    ensures
        kept_count(h, remaining, true) <= h.len(),
        tokens_total(h.skip(h.len() - kept_count(h, remaining, true))) <= remaining,
        kept_count(h, remaining, true) < h.len() ==> tokens_of(
            h[h.len() - kept_count(h, remaining, true) - 1].content,
        ) > remaining - tokens_total(h.skip(h.len() - kept_count(h, remaining, true))),
    decreases h.len(),
{
    let k = kept_count(h, remaining, true);
    if h.len() == 0 {
        assert(h.skip(0).len() == 0);
    } else {
        let cost = tokens_of(h.last().content);
        if cost <= remaining {
            let t = h.drop_last();
            let r2 = (remaining - cost) as nat;
            lemma_kept_count_fits(t, r2);
            let k2 = kept_count(t, r2, true);
            assert(k == k2 + 1);
            let tail = h.skip(h.len() - k);
            assert(tail.drop_last() =~= t.skip(t.len() - k2));
            assert(tail.last() == h.last());
            if k < h.len() {
                assert(h[h.len() - k - 1] == t[t.len() - k2 - 1]);
            }
        } else {
            assert(k == 0);
            assert(h.skip(h.len() - 0).len() == 0);
        }
    }
}

/// The history sent fits the budget: past the newest message, which is
/// always sent, the older messages sent cost no more than the tokens the
/// system prompt and the newest message leave, and the next older message
/// would not have fit what those leave.
pub proof fn law_history_fits_budget(ctx: RepoContext, history: Seq<MessageView>, budget: usize)
    requires
        history.len() > 0,
    ensures
        ({
            let cost = tokens_of(system_prompt_spec(ctx, (budget / 2) as nat));
            let remaining: int = if cost <= budget { budget - cost } else { 0 };
            let left: int = if tokens_of(history.last().content) <= remaining {
                remaining - tokens_of(history.last().content)
            } else {
                0
            };
            let m = messages_spec(ctx, history, budget);
            let older = m.skip(1).drop_last();
            &&& tokens_total(older) <= left
            &&& m.len() - 1 < history.len() ==> tokens_of(
                history[history.len() - m.len()].content,
            ) > left - tokens_total(older)
        }),
{
    let system = system_prompt_spec(ctx, (budget / 2) as nat);
    let cost = tokens_of(system);
    let remaining: nat = if cost <= budget { (budget - cost) as nat } else { 0 };
    let last_cost = tokens_of(history.last().content);
    let left: nat = if last_cost <= remaining { (remaining - last_cost) as nat } else { 0 };
    let t = history.drop_last();
    lemma_kept_count_fits(t, left);
    let k2 = kept_count(t, left, true);
    let k = kept_count(history, remaining, false);
    assert(k == k2 + 1);
    law_messages_keep_newest(ctx, history, budget);
    let m = messages_spec(ctx, history, budget);
    assert(m.len() == k + 1);
    assert(m.skip(1) == history.skip(history.len() - k));
    assert(m.skip(1).drop_last() =~= t.skip(t.len() - k2));
    if k < history.len() {
        assert(history[history.len() - m.len()] == t[t.len() - k2 - 1]);
    }
}

/// `files` shown one after the other in order, each under a `--- path ---`
/// line and fenced, with the first `min(len, limits[i])` characters of its
/// content; as many files as there are limits.
pub open spec fn shown_files(files: Seq<RelevantFile>, limits: Seq<nat>) -> Seq<char>
    decreases files.len(),
{
    if files.len() == 0 || limits.len() == 0 {
        Seq::empty()
    } else {
        "\n--- "@ + files[0].path@ + " ---\n```\n"@ + prefix_chars(files[0].content@, limits[0])
            + "\n```\n"@ + shown_files(files.drop_first(), limits.drop_first())
    }
}

/// The file part of a prompt shows a prefix of `files`, each with a
/// positive character limit, the first with four characters per token left.
proof fn lemma_blocks_shown(files: Seq<RelevantFile>, spent: nat, budget: nat) -> (limits: Seq<nat>)
    ensures
        file_blocks(files, spent, budget) == shown_files(files, limits),
        limits.len() <= files.len(),
        forall|i: int| 0 <= i < limits.len() ==> 1 <= #[trigger] limits[i] <= MAX_FILE_CHARS,
        files.len() > 0 && spent < budget ==> limits.len() >= 1 && limits[0] == (if 4 * (budget - spent)
            < MAX_FILE_CHARS {
            4 * (budget - spent)
        } else {
            MAX_FILE_CHARS as int
        }),
    decreases files.len(),
{
    if files.len() == 0 || spent >= budget {
        Seq::empty()
    } else {
        let f = files[0];
        let l = file_char_limit(spent, budget);
        let block = file_block(f.path@, prefix_chars(f.content@, l));
        let rest = lemma_blocks_shown(files.drop_first(), spent + tokens_of(block), budget);
        let limits = seq![l] + rest;
        assert(limits.drop_first() =~= rest);
        assert(limits[0] == l);
        assert forall|i: int| 0 <= i < limits.len() implies 1 <= #[trigger] limits[i] <= MAX_FILE_CHARS by {
            if i > 0 {
                assert(limits[i] == rest[i - 1]);
            }
        }
        limits
    }
}

/// Each relevant file the system prompt shows comes with the beginning of
/// its content: after the header, the prompt lists the relevant files in
/// order, each fenced under its path with its first `min(len, limit)`
/// characters for a positive limit of at most `MAX_FILE_CHARS`, the
/// first file's limit being four characters per token left after the
/// header; once the header leaves budget, at least the first file is shown.
pub proof fn law_prompt_shows_file_contents(ctx: RepoContext, budget: nat)
    ensures
        ({
            let header = header_text(
                ctx.name@,
                ctx.branch@,
                ctx.languages@,
                strings_view(ctx.top_level_dirs@),
            );
            let files = ctx.relevant_files@;
            files.len() > 0 ==> exists|limits: Seq<nat>|
                #![trigger shown_files(files, limits)]
                {
                    &&& limits.len() <= files.len()
                    &&& forall|i: int| 0 <= i < limits.len() ==> 1 <= #[trigger] limits[i] <= MAX_FILE_CHARS
                    &&& tokens_of(header) < budget ==> limits.len() >= 1 && limits[0] == (if 4 * (budget
                        - tokens_of(header)) < MAX_FILE_CHARS {
                        4 * (budget - tokens_of(header))
                    } else {
                        MAX_FILE_CHARS as int
                    })
                    &&& system_prompt_spec(ctx, budget) == header + "\nRelevant files:\n"@ + shown_files(
                        files,
                        limits,
                    )
                }
        }),
{
    let header = header_text(
        ctx.name@,
        ctx.branch@,
        ctx.languages@,
        strings_view(ctx.top_level_dirs@),
    );
    let files = ctx.relevant_files@;
    if files.len() > 0 {
        let limits = lemma_blocks_shown(files, tokens_of(header), budget);
        assert(system_prompt_spec(ctx, budget) == header + "\nRelevant files:\n"@ + shown_files(files, limits));
    }
}

} // verus!
