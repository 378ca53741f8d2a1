//! The text protocols around a local language model: prompt shaping, the decoding state
//! machine, model selection and the cleanup of what the model wrote.
use vstd::prelude::*;
use std::time::Duration;
use crate::search::{lemma_first_from_occurs, first_from, last_from, lemma_first_from_found, lemma_last_from_occurs, lemma_occurs_within, occurs_at, chars_range, lemma_trim_start, matches_at, trim_start,
    contains, contains_chars, find, find_chars, replace_all, replace_chars, rfind, rfind_chars, trim, trim_chars};
use crate::text::{chars_of, string_from_chars};
use crate::reject::{is_whitespace, spec_is_whitespace};

verus! {

/// What one generation produced, with its token counts and timings.
#[derive(Debug)]
pub struct LlmResponse {
    pub thinking: String,
    pub content: String,
    pub prompt_tokens: usize,
    pub thinking_tokens: usize,
    pub generated_tokens: usize,
    pub time_to_first_token: Duration,
    pub duration: Duration,
}

impl Clone for LlmResponse {
    fn clone(&self) -> (r: Self)
        ensures
            r.thinking@ == self.thinking@,
            r.content@ == self.content@,
            r.prompt_tokens == self.prompt_tokens,
            r.thinking_tokens == self.thinking_tokens,
            r.generated_tokens == self.generated_tokens,
            r.time_to_first_token == self.time_to_first_token,
            r.duration == self.duration,
    {
        LlmResponse {
            thinking: self.thinking.clone(),
            content: self.content.clone(),
            prompt_tokens: self.prompt_tokens,
            thinking_tokens: self.thinking_tokens,
            generated_tokens: self.generated_tokens,
            time_to_first_token: self.time_to_first_token,
            duration: self.duration,
        }
    }
}

/// The chat-template tails that close an empty thinking block, tried in this order.
pub open spec fn closed_thinking() -> Seq<Seq<char>> {
    seq!["<think>\n\n</think>\n\n"@, "<think>\n</think>\n\n"@, "<think></think>"@]
}

/// A formatted chat prompt with its thinking block left open, so that the model thinks
/// before it answers: an empty closed block (the last occurrence of the first tail of
/// [`closed_thinking`] found) is cut off with everything after it and an open tag put in its
/// place; a prompt that opens a block without closing one is kept; any other prompt gets an
/// open tag appended.
pub open spec fn spec_open_thinking(f: Seq<char>) -> Seq<char> {
    let open = "<think>\n"@;
    let c = closed_thinking();
    if rfind(f, c[0]) is Some {
        f.take(rfind(f, c[0])->0) + open
    } else if rfind(f, c[1]) is Some {
        f.take(rfind(f, c[1])->0) + open
    } else if rfind(f, c[2]) is Some {
        f.take(rfind(f, c[2])->0) + open
    } else if contains(f, "<think>"@) && !contains(f, "</think>"@) {
        f
    } else {
        f + open
    }
}

fn append_chars(out: &mut Vec<char>, s: &str)
    ensures
        final(out)@ == old(out)@ + s@,
{
    let c = chars_of(s);
    let ghost before = out@;
    let mut i: usize = 0;
    while i < c.len()
        invariant
            c@ == s@,
            i <= c@.len(),
            out@ == before + c@.take(i as int),
        decreases c@.len() - i,
    {
        out.push(c[i]);
        i += 1;
        proof {
            assert(out@ =~= before + c@.take(i as int));
        }
    }
    proof {
        assert(c@.take(c@.len() as int) =~= c@);
    }
}

/// `formatted` with its thinking block left open (see [`spec_open_thinking`]).
pub fn open_thinking(formatted: &str) -> (r: String)
    ensures
        r@ == spec_open_thinking(formatted@),
{
    let f = chars_of(formatted);
    let tails: [&str; 3] = ["<think>\n\n</think>\n\n", "<think>\n</think>\n\n", "<think></think>"];
    let mut t: usize = 0;
    while t < 3
        invariant
            f@ == formatted@,
            t <= 3,
            tails@ == seq!["<think>\n\n</think>\n\n", "<think>\n</think>\n\n", "<think></think>"],
            forall|k: int| 0 <= k < t ==> rfind(f@, #[trigger] closed_thinking()[k]) is None,
        decreases 3 - t,
    {
        let closed = chars_of(tails[t]);
        proof {
            assert(closed@ == closed_thinking()[t as int]);
        }
        match rfind_chars(&f, &closed) {
            Some(index) => {
                let mut out: Vec<char> = Vec::new();
                let mut k: usize = 0;
                while k < index
                    invariant
                        index <= f@.len(),
                        k <= index,
                        out@ == f@.take(k as int),
                    decreases index - k,
                {
                    out.push(f[k]);
                    k += 1;
                    proof {
                        assert(out@ =~= f@.take(k as int));
                    }
                }
                append_chars(&mut out, "<think>\n");
                proof {
                    let c = closed_thinking();
                    if t == 1 {
                        assert(rfind(f@, c[0]) is None);
                    }
                    if t == 2 {
                        assert(rfind(f@, c[0]) is None);
                        assert(rfind(f@, c[1]) is None);
                    }
                }
                return string_from_chars(out);
            },
            None => {},
        }
        t += 1;
    }
    proof {
        let c = closed_thinking();
        assert(rfind(f@, c[0]) is None);
        assert(rfind(f@, c[1]) is None);
        assert(rfind(f@, c[2]) is None);
    }
    let open_tag = chars_of("<think>");
    let close_tag = chars_of("</think>");
    if contains_chars(&f, &open_tag) && !contains_chars(&f, &close_tag) {
        return string_from_chars(f);
    }
    let mut out = f;
    append_chars(&mut out, "<think>\n");
    string_from_chars(out)
}

/// What the model wrote while thinking, without the think tags and outer whitespace.
pub open spec fn spec_strip_think_tags(text: Seq<char>) -> Seq<char> {
    trim(replace_all(replace_all(text, "<think>"@, Seq::empty()), "</think>"@, Seq::empty()))
}

/// `text` without the think tags, trimmed.
pub fn strip_think_tags(text: &str) -> (r: String)
    ensures
        r@ == spec_strip_think_tags(text@),
{
    let t = chars_of(text);
    let open_tag = chars_of("<think>");
    let close_tag = chars_of("</think>");
    proof {
        reveal_strlit("<think>");
        reveal_strlit("</think>");
    }
    let none: Vec<char> = Vec::new();
    let a = replace_chars(&t, &open_tag, &none);
    let b = replace_chars(&a, &close_tag, &none);
    string_from_chars(trim_chars(&b))
}

/// The JSON answer in what a constrained generation wrote: what follows the last closing
/// think tag (or everything), from its first `{` on if it has one, trimmed.
pub open spec fn spec_json_payload(output: Seq<char>) -> Seq<char> {
    let from = match rfind(output, "</think>"@) {
        Some(i) => i + "</think>"@.len(),
        None => 0,
    };
    let rest = output.skip(from);
    match find(rest, seq!['{']) {
        Some(start) => trim(rest.skip(start)),
        None => trim(rest),
    }
}

fn skip_chars(s: &Vec<char>, from: usize) -> (r: Vec<char>)
    requires
        from <= s@.len(),
    ensures
        r@ == s@.skip(from as int),
{
    let mut out: Vec<char> = Vec::new();
    let mut k: usize = from;
    while k < s.len()
        invariant
            from <= k <= s@.len(),
            out@ == s@.subrange(from as int, k as int),
        decreases s@.len() - k,
    {
        out.push(s[k]);
        k += 1;
        proof {
            assert(out@ =~= s@.subrange(from as int, k as int));
        }
    }
    out
}

/// The JSON answer in `output` (see [`spec_json_payload`]).
pub fn json_payload(output: &str) -> (r: String)
    ensures
        r@ == spec_json_payload(output@),
{
    let o = chars_of(output);
    let close_tag = chars_of("</think>");
    let from = match rfind_chars(&o, &close_tag) {
        Some(i) => {
            assert(i + close_tag@.len() <= o.len());
            i + close_tag.len()
        },
        None => 0,
    };
    let rest = skip_chars(&o, from);
    let mut brace: Vec<char> = Vec::new();
    brace.push('{');
    proof {
        assert(brace@ =~= seq!['{']);
    }
    match find_chars(&rest, &brace) {
        Some(start) => {
            let tail = skip_chars(&rest, start);
            string_from_chars(trim_chars(&tail))
        },
        None => string_from_chars(trim_chars(&rest)),
    }
}

/// The user message of a chat: the prompt as is when the answer is constrained, else with
/// the marker that turns thinking off.
pub open spec fn spec_chat_content(prompt: Seq<char>, constrained: bool) -> Seq<char> {
    if constrained {
        prompt
    } else {
        prompt + " /no_think"@
    }
}

/// The user message of a chat (see [`spec_chat_content`]).
pub fn chat_content(prompt: &str, constrained: bool) -> (r: String)
    ensures
        r@ == spec_chat_content(prompt@, constrained),
{
    let mut out = String::from_str(prompt);
    if !constrained {
        out.append(" /no_think");
    }
    out
}

/// Bytes a model needs beyond its weights for a context.
pub const CTX_OVERHEAD: u64 = 536870912;

/// A quantized model that can be downloaded, with its size in tenths of billions of
/// parameters and the memory it is expected to take.
#[derive(Debug, Clone, Copy, PartialEq, Eq)]
pub struct GgufModel {
    pub repo: &'static str,
    pub file: &'static str,
    pub params_tenths: u32,
    pub estimated_ram: u64,
}

/// Size (tenths of billions of parameters) and expected memory of each model, smallest first.
pub open spec fn spec_models() -> Seq<(int, int)> {
    seq![
        (8int, 579_615_840 + CTX_OVERHEAD as int),
        (20int, 1_396_198_496 + CTX_OVERHEAD as int),
        (40int, 3_013_027_808 + CTX_OVERHEAD as int),
        (90int, 6_169_341_984 + CTX_OVERHEAD as int),
    ]
}

/// Repository and file each model is downloaded from, smallest first.
pub open spec fn spec_model_files() -> Seq<(Seq<char>, Seq<char>)> {
    seq![
        ("bartowski/Qwen_Qwen3.5-0.8B-GGUF"@, "Qwen_Qwen3.5-0.8B-Q4_K_M.gguf"@),
        ("bartowski/Qwen_Qwen3.5-2B-GGUF"@, "Qwen_Qwen3.5-2B-Q4_K_M.gguf"@),
        ("bartowski/Qwen_Qwen3.5-4B-GGUF"@, "Qwen_Qwen3.5-4B-Q4_K_M.gguf"@),
        ("bartowski/Qwen_Qwen3.5-9B-GGUF"@, "Qwen_Qwen3.5-9B-Q4_K_M.gguf"@),
    ]
}

/// The models to choose from, smallest first.
pub fn models() -> (r: Vec<GgufModel>)
    ensures
        r@.map_values(|m: GgufModel| (m.params_tenths as int, m.estimated_ram as int)) == spec_models(),
        r@.map_values(|m: GgufModel| (m.repo@, m.file@)) == spec_model_files(),
{
    let r = vec![
        GgufModel {
            repo: "bartowski/Qwen_Qwen3.5-0.8B-GGUF",
            file: "Qwen_Qwen3.5-0.8B-Q4_K_M.gguf",
            params_tenths: 8,
            estimated_ram: 579_615_840 + CTX_OVERHEAD,
        },
        GgufModel {
            repo: "bartowski/Qwen_Qwen3.5-2B-GGUF",
            file: "Qwen_Qwen3.5-2B-Q4_K_M.gguf",
            params_tenths: 20,
            estimated_ram: 1_396_198_496 + CTX_OVERHEAD,
        },
        GgufModel {
            repo: "bartowski/Qwen_Qwen3.5-4B-GGUF",
            file: "Qwen_Qwen3.5-4B-Q4_K_M.gguf",
            params_tenths: 40,
            estimated_ram: 3_013_027_808 + CTX_OVERHEAD,
        },
        GgufModel {
            repo: "bartowski/Qwen_Qwen3.5-9B-GGUF",
            file: "Qwen_Qwen3.5-9B-Q4_K_M.gguf",
            params_tenths: 90,
            estimated_ram: 6_169_341_984 + CTX_OVERHEAD,
        },
    ];
    proof {
        assert(r@.map_values(|m: GgufModel| (m.params_tenths as int, m.estimated_ram as int)) =~= spec_models());
        assert(r@.map_values(|m: GgufModel| (m.repo@, m.file@)) =~= spec_model_files());
    }
    r
}

/// The largest index at or below `i` of a model at least `min` in size that fits `budget`.
pub open spec fn last_fit(ms: Seq<(int, int)>, min: int, budget: int, i: int) -> Option<int>
    decreases i + 1,
{
    if i < 0 {
        None
    } else if ms[i].0 >= min && ms[i].1 <= budget {
        Some(i)
    } else {
        last_fit(ms, min, budget, i - 1)
    }
}

/// The first index from `i` on of a model at least `min` in size.
pub open spec fn first_capable(ms: Seq<(int, int)>, min: int, i: int) -> Option<int>
    decreases ms.len() - i,
{
    if i < 0 || i >= ms.len() {
        None
    } else if ms[i].0 >= min {
        Some(i)
    } else {
        first_capable(ms, min, i + 1)
    }
}

/// The model chosen for a machine with `total_ram` bytes: the largest model of at least
/// `min` size whose expected memory fits a fifth of the machine's, else the smallest model
/// of at least `min` size, else the first model.
pub open spec fn spec_select_model(ms: Seq<(int, int)>, total_ram: int, min: int) -> int {
    match last_fit(ms, min, total_ram / 5, ms.len() - 1) {
        Some(k) => k,
        None => match first_capable(ms, min, 0) {
            Some(k) => k,
            None => 0,
        },
    }
}

/// The index in [`models`] of the model to use (see [`spec_select_model`]); sizes are in
/// tenths of billions of parameters.
pub fn select_model(total_ram: u64, min_params_tenths: u32) -> (r: usize)
    ensures
        r == spec_select_model(spec_models(), total_ram as int, min_params_tenths as int),
        r < spec_models().len(),
{
    let ms = models();
    let ghost sm = spec_models();
    let budget = total_ram / 5;
    let mut i: usize = ms.len();
    while i > 0
        invariant
            i <= ms@.len(),
            ms@.len() == sm.len(),
            sm == spec_models(),
            budget as int == total_ram as int / 5,
            ms@.map_values(|m: GgufModel| (m.params_tenths as int, m.estimated_ram as int)) == sm,
            last_fit(sm, min_params_tenths as int, budget as int, sm.len() - 1)
                == last_fit(sm, min_params_tenths as int, budget as int, i - 1),
        decreases i,
    {
        let m = ms[i - 1];
        proof {
            assert(sm[i - 1] == (m.params_tenths as int, m.estimated_ram as int));
        }
        if m.params_tenths >= min_params_tenths && m.estimated_ram <= budget {
            return i - 1;
        }
        i -= 1;
    }
    let mut j: usize = 0;
    while j < ms.len()
        invariant
            j <= ms@.len(),
            ms@.len() == sm.len(),
            sm == spec_models(),
            budget as int == total_ram as int / 5,
            ms@.map_values(|m: GgufModel| (m.params_tenths as int, m.estimated_ram as int)) == sm,
            last_fit(sm, min_params_tenths as int, budget as int, sm.len() - 1) is None,
            first_capable(sm, min_params_tenths as int, 0) == first_capable(sm, min_params_tenths as int, j as int),
        decreases ms@.len() - j,
    {
        let m = ms[j];
        proof {
            assert(sm[j as int] == (m.params_tenths as int, m.estimated_ram as int));
        }
        if m.params_tenths >= min_params_tenths {
            return j;
        }
        j += 1;
    }
    0
}

/// Why the total memory could not be read from a `/proc/meminfo` text.
#[derive(Debug, Clone, Copy, PartialEq, Eq)]
pub enum MemInfoError {
    /// No line starts with `MemTotal:`.
    Missing,
    /// The `MemTotal:` line holds no value.
    MissingValue,
    /// The value is not a number of kilobytes that fits 64 bits.
    InvalidNumber,
}

/// The index of the first line break at or after `i`, or the end of `s`.
pub open spec fn line_end(s: Seq<char>, i: int) -> int
    decreases s.len() - i,
{
    if 0 <= i < s.len() && s[i] != '\n' {
        line_end(s, i + 1)
    } else {
        i
    }
}

/// A line ends at the first line break from its start, or at the end of the text.
pub proof fn lemma_line_end(s: Seq<char>, i: int)
    requires
        0 <= i <= s.len(),
    ensures
        i <= line_end(s, i) <= s.len(),
        forall|k: int| i <= k < line_end(s, i) ==> s[k] != '\n',
        line_end(s, i) < s.len() ==> s[line_end(s, i)] == '\n',
    decreases s.len() - i,
{
    if i < s.len() && s[i] != '\n' {
        lemma_line_end(s, i + 1);
    }
}

/// What follows `MemTotal:` on the first line, from offset `i` on, that starts with it.
pub open spec fn mem_total_from(s: Seq<char>, i: int) -> Option<Seq<char>>
    decreases s.len() + 1 - i,
{
    if i < 0 || i > s.len() {
        None
    } else {
        let e = line_end(s, i);
        let line = s.subrange(i, e);
        if line.len() >= 9 && line.take(9) == "MemTotal:"@ {
            Some(line.skip(9))
        } else if e >= s.len() {
            None
        } else {
            proof {
                lemma_line_end(s, i);
            }
            mem_total_from(s, e + 1)
        }
    }
}

/// The end of the word of `t` that starts at `i`.
pub open spec fn word_end(t: Seq<char>, i: int) -> int
    decreases t.len() - i,
{
    if 0 <= i < t.len() && !spec_is_whitespace(t[i]) {
        word_end(t, i + 1)
    } else {
        i
    }
}

/// The first whitespace-separated word of `r` (`split_whitespace().next()`).
pub open spec fn first_word(r: Seq<char>) -> Option<Seq<char>> {
    let t = trim_start(r);
    if t.len() == 0 {
        None
    } else {
        Some(t.take(word_end(t, 0)))
    }
}

/// The value of a string of decimal digits.
pub open spec fn digits_value(d: Seq<char>) -> int
    decreases d.len(),
{
    if d.len() == 0 {
        0
    } else {
        digits_value(d.drop_last()) * 10 + (d.last() as int - '0' as int)
    }
}

/// `w` is made of decimal digits only.
pub open spec fn all_digits(d: Seq<char>) -> bool {
    forall|k: int| 0 <= k < d.len() ==> '0' <= #[trigger] d[k] <= '9'
}

/// `u64`'s `FromStr`: an optional `+` and at least one decimal digit, of a value that fits.
pub open spec fn parse_u64(w: Seq<char>) -> Option<int> {
    let d = if w.len() > 0 && w[0] == '+' { w.drop_first() } else { w };
    if d.len() > 0 && all_digits(d) && digits_value(d) <= u64::MAX {
        Some(digits_value(d))
    } else {
        None
    }
}

/// The total memory a `/proc/meminfo` text reports, in bytes: the kilobytes of its first
/// `MemTotal:` line times 1024, saturated at the largest 64-bit value.
pub open spec fn spec_mem_total(s: Seq<char>) -> Result<int, MemInfoError> {
    match mem_total_from(s, 0) {
        None => Err(MemInfoError::Missing),
        Some(rest) => match first_word(rest) {
            None => Err(MemInfoError::MissingValue),
            Some(w) => match parse_u64(w) {
                None => Err(MemInfoError::InvalidNumber),
                Some(kb) => Ok(if kb * 1024 > u64::MAX { u64::MAX as int } else { kb * 1024 }),
            },
        },
    }
}

proof fn lemma_digits_grow(d: Seq<char>, j: int, k: int)
    requires
        0 <= j <= k <= d.len(),
        all_digits(d),
    ensures
        digits_value(d.take(j)) <= digits_value(d.take(k)),
    decreases k - j,
{
    if j < k {
        lemma_digits_grow(d, j, k - 1);
        let t = d.take(k);
        assert(t.drop_last() =~= d.take(k - 1));
        assert(t.last() == d[k - 1]);
        assert('0' <= d[k - 1] <= '9');
        assert(digits_value(d.take(k - 1)) >= 0) by {
            lemma_digits_nonneg(d.take(k - 1));
        }
    }
}

proof fn lemma_digits_nonneg(d: Seq<char>)
    requires
        all_digits(d),
    ensures
        digits_value(d) >= 0,
    decreases d.len(),
{
    if d.len() > 0 {
        let p = d.drop_last();
        assert forall|k: int| 0 <= k < p.len() implies '0' <= #[trigger] p[k] <= '9' by {
            assert(p[k] == d[k]);
        }
        lemma_digits_nonneg(p);
        assert('0' <= d[d.len() - 1] <= '9');
    }
}

/// The value of the word `w` as `u64`'s `FromStr` reads it.
fn parse_u64_chars(w: &Vec<char>) -> (r: Option<u64>)
    ensures
        r matches Some(v) ==> parse_u64(w@) == Some(v as int),
        r is None ==> parse_u64(w@) is None,
{
    let start: usize = if w.len() > 0 && w[0] == '+' { 1 } else { 0 };
    let ghost d = if w@.len() > 0 && w@[0] == '+' { w@.drop_first() } else { w@ };
    proof {
        assert(d =~= w@.skip(start as int));
    }
    if start >= w.len() {
        return None;
    }
    let mut v: u64 = 0;
    let mut k: usize = start;
    while k < w.len()
        invariant
            start <= k <= w@.len(),
            start < w@.len(),
            d == w@.skip(start as int),
            d == (if w@.len() > 0 && w@[0] == '+' { w@.drop_first() } else { w@ }),
            all_digits(d.take(k - start)),
            v as int == digits_value(d.take(k - start)),
        decreases w@.len() - k,
    {
        let c = w[k];
        let ghost t = d.take(k - start + 1);
        proof {
            assert(d[k - start] == c);
            assert(t.drop_last() =~= d.take(k - start));
            assert(t.last() == c);
        }
        if !('0' <= c && c <= '9') {
            proof {
                assert(!('0' <= d[k - start] <= '9'));
            }
            return None;
        }
        let digit = (c as u32 - '0' as u32) as u64;
        proof {
            assert(digit as int == c as int - '0' as int);
            assert(digits_value(t) == v * 10 + digit);
        }
        let n = match v.checked_mul(10) {
            Some(m) => m.checked_add(digit),
            None => None,
        };
        match n {
            Some(n) => {
                v = n;
            },
            None => {
                proof {
                    assert(digits_value(t) > u64::MAX);
                    if all_digits(d) {
                        lemma_digits_grow(d, k - start + 1, d.len() as int);
                        assert(d.take(d.len() as int) =~= d);
                    }
                }
                return None;
            },
        }
        k += 1;
        proof {
            assert forall|q: int| 0 <= q < t.len() implies '0' <= #[trigger] t[q] <= '9' by {
                if q < k - 1 - start {
                    assert(t[q] == d.take(k - 1 - start)[q]);
                }
            }
        }
    }
    proof {
        assert(d.take(d.len() as int) =~= d);
    }
    Some(v)
}

/// The total memory a `/proc/meminfo` text reports, in bytes (see [`spec_mem_total`]).
pub fn mem_total_bytes(meminfo: &str) -> (r: Result<u64, MemInfoError>)
    ensures
        match r {
            Ok(v) => spec_mem_total(meminfo@) == Ok::<int, MemInfoError>(v as int),
            Err(e) => spec_mem_total(meminfo@) == Err::<int, MemInfoError>(e),
        },
{
    let c = chars_of(meminfo);
    let tag = chars_of("MemTotal:");
    proof {
        reveal_strlit("MemTotal:");
    }
    let mut i: usize = 0;
    loop
        invariant
            c@ == meminfo@,
            tag@ == "MemTotal:"@,
            tag@.len() == 9,
            i <= c@.len(),
            mem_total_from(c@, 0) == mem_total_from(c@, i as int),
        decreases c@.len() - i,
    {
        let mut e: usize = i;
        while e < c.len() && c[e] != '\n'
            invariant
                i <= e <= c@.len(),
                line_end(c@, i as int) == line_end(c@, e as int),
            decreases c@.len() - e,
        {
            e += 1;
        }
        proof {
            lemma_line_end(c@, i as int);
        }
        let ghost line = c@.subrange(i as int, e as int);
        let starts = e - i >= 9 && matches_at(&c, &tag, i);
        proof {
            if e - i >= 9 {
                assert(line.take(9) =~= c@.subrange(i as int, i + 9));
            }
        }
        if starts {
            let rest = chars_range(&c, i + 9, e);
            proof {
                assert(rest@ =~= line.skip(9));
                assert(mem_total_from(c@, i as int) == Some(rest@));
            }
            return parse_mem_value(&rest);
        }
        if e >= c.len() {
            return Err(MemInfoError::Missing);
        }
        i = e + 1;
    }
}

/// The result for the text after `MemTotal:`.
fn parse_mem_value(rest: &Vec<char>) -> (r: Result<u64, MemInfoError>)
    ensures
        match first_word(rest@) {
            None => r == Err::<u64, MemInfoError>(MemInfoError::MissingValue),
            Some(w) => match parse_u64(w) {
                None => r == Err::<u64, MemInfoError>(MemInfoError::InvalidNumber),
                Some(kb) => r matches Ok(v) && v as int == (if kb * 1024 > u64::MAX { u64::MAX as int } else { kb * 1024 }),
            },
        },
{
    let mut a: usize = 0;
    while a < rest.len() && is_whitespace(rest[a])
        invariant
            a <= rest@.len(),
            forall|k: int| 0 <= k < a ==> spec_is_whitespace(#[trigger] rest@[k]),
        decreases rest@.len() - a,
    {
        a += 1;
    }
    proof {
        lemma_trim_start(rest@, a as int);
    }
    if a == rest.len() {
        return Err(MemInfoError::MissingValue);
    }
    let ghost t = rest@.skip(a as int);
    let mut b: usize = a;
    while b < rest.len() && !is_whitespace(rest[b])
        invariant
            a <= b <= rest@.len(),
            t == rest@.skip(a as int),
            word_end(t, 0) == word_end(t, b - a),
        decreases rest@.len() - b,
    {
        proof {
            assert(t[b - a] == rest@[b as int]);
        }
        b += 1;
    }
    proof {
        if b < rest@.len() {
            assert(t[b - a] == rest@[b as int]);
        }
        assert(word_end(t, b - a) == b - a);
    }
    let word = chars_range(rest, a, b);
    proof {
        assert(word@ =~= t.take(b - a));
    }
    match parse_u64_chars(&word) {
        None => Err(MemInfoError::InvalidNumber),
        Some(kb) => match kb.checked_mul(1024) {
            Some(v) => Ok(v),
            None => Ok(u64::MAX),
        },
    }
}

/// What the decoding loop does next.
#[derive(Debug, Clone, Copy, PartialEq, Eq)]
pub enum GenerationStep {
    /// The thinking budget is spent: feed the closing think tag to the model when `feed`
    /// holds, each of its pieces through [`Generation::push_closing_piece`], then call
    /// [`Generation::end_thinking`].
    CloseThinking { feed: bool },
    /// Sample the next token: with the plain sampler while thinking, else with the content
    /// sampler, which applies the grammar when `constrained` holds.
    Sample { thinking: bool, constrained: bool },
    /// The generation is over.
    Done,
}

/// Why a generation cannot start.
#[derive(Debug, Clone, Copy, PartialEq, Eq)]
pub enum GenerationError {
    /// The context size is zero.
    EmptyContext,
    /// The token budget is negative.
    NegativeBudget,
}

/// The state of one generation: what was written so far, in and out of the thinking block,
/// and the budgets it runs under.
#[derive(Debug, Clone)]
pub struct Generation {
    pub thinking: String,
    pub content: String,
    pub produced: usize,
    pub thinking_tokens: usize,
    pub in_thinking: bool,
    pub max_new_tokens: usize,
    pub max_think_tokens: usize,
    pub grammar: bool,
    pub stopped: bool,
}

/// The closing think tag.
pub open spec fn close_tag() -> Seq<char> {
    "</think>"@
}

impl Generation {
    /// The thinking budget never exceeds the whole budget.
    pub open spec fn wf(&self) -> bool {
        self.max_think_tokens <= self.max_new_tokens
    }

    /// The step [`Generation::step`] returns.
    pub open spec fn spec_step(&self) -> GenerationStep {
        if self.stopped || self.produced >= self.max_new_tokens {
            GenerationStep::Done
        } else if self.in_thinking && self.thinking_tokens >= self.max_think_tokens {
            GenerationStep::CloseThinking { feed: !contains(self.thinking@, close_tag()) }
        } else {
            GenerationStep::Sample { thinking: self.in_thinking, constrained: !self.in_thinking && self.grammar }
        }
    }

    /// A new generation with at most `max_new_tokens` pieces, of which at most
    /// `max_think_tokens` (capped at the whole budget) are spent thinking, in a context of
    /// `ctx_size` tokens; it starts in the thinking block exactly when a grammar constrains
    /// the answer. Refused for an empty context, and else for a negative budget.
    pub fn new(max_new_tokens: i32, max_think_tokens: usize, ctx_size: u32, grammar: bool) -> (r: Result<
        Generation,
        GenerationError,
    >)
        ensures
            ctx_size == 0 <==> r == Err::<Generation, GenerationError>(GenerationError::EmptyContext),
            ctx_size > 0 && max_new_tokens < 0 <==> r == Err::<Generation, GenerationError>(
                GenerationError::NegativeBudget,
            ),
            r matches Ok(g) ==> {
                &&& g.wf()
                &&& g.thinking@ == Seq::<char>::empty()
                &&& g.content@ == Seq::<char>::empty()
                &&& g.produced == 0
                &&& g.thinking_tokens == 0
                &&& g.in_thinking == grammar
                &&& g.max_new_tokens == max_new_tokens
                &&& g.max_think_tokens == (if max_think_tokens < max_new_tokens { max_think_tokens as int } else { max_new_tokens as int })
                &&& g.grammar == grammar
                &&& !g.stopped
            },
    {
        if ctx_size == 0 {
            return Err(GenerationError::EmptyContext);
        }
        if max_new_tokens < 0 {
            return Err(GenerationError::NegativeBudget);
        }
        let max_new = max_new_tokens as usize;
        let max_think = if max_think_tokens < max_new { max_think_tokens } else { max_new };
        Ok(Generation {
            thinking: String::new(),
            content: String::new(),
            produced: 0,
            thinking_tokens: 0,
            in_thinking: grammar,
            max_new_tokens: max_new,
            max_think_tokens: max_think,
            grammar,
            stopped: false,
        })
    }

    /// What the decoding loop does next: stop once the model ended or the budget is spent;
    /// close the thinking block once its budget is spent; else sample.
    pub fn step(&self) -> (r: GenerationStep)
        ensures
            r == self.spec_step(),
    {
        if self.stopped || self.produced >= self.max_new_tokens {
            return GenerationStep::Done;
        }
        if self.in_thinking && self.thinking_tokens >= self.max_think_tokens {
            let t = chars_of(self.thinking.as_str());
            let c = chars_of("</think>");
            return GenerationStep::CloseThinking { feed: !contains_chars(&t, &c) };
        }
        GenerationStep::Sample { thinking: self.in_thinking, constrained: !self.in_thinking && self.grammar }
    }

    /// Records a piece of the closing think tag fed to the model: it counts as thinking and
    /// as produced.
    pub fn push_closing_piece(&mut self, piece: &str)
        requires
            old(self).produced < usize::MAX,
            old(self).thinking_tokens < usize::MAX,
        ensures
            final(self).thinking@ == old(self).thinking@ + piece@,
            final(self).thinking_tokens == old(self).thinking_tokens + 1,
            final(self).produced == old(self).produced + 1,
            final(self).content == old(self).content,
            final(self).in_thinking == old(self).in_thinking,
            final(self).max_new_tokens == old(self).max_new_tokens,
            final(self).max_think_tokens == old(self).max_think_tokens,
            final(self).grammar == old(self).grammar,
            final(self).stopped == old(self).stopped,
    {
        self.thinking.append(piece);
        self.thinking_tokens = self.thinking_tokens + 1;
        self.produced = self.produced + 1;
    }

    /// Leaves the thinking block.
    pub fn end_thinking(&mut self)
        ensures
            *final(self) == (Generation { in_thinking: false, ..*old(self) }),
    {
        self.in_thinking = false;
    }

    /// Records a sampled piece: while thinking it goes to the thinking text, which it closes
    /// once that text holds the closing tag; else to the content.
    pub fn accept(&mut self, piece: &str)
        requires
            old(self).produced < usize::MAX,
            old(self).thinking_tokens < usize::MAX,
        ensures
            final(self).produced == old(self).produced + 1,
            old(self).in_thinking ==> {
                &&& final(self).thinking@ == old(self).thinking@ + piece@
                &&& final(self).thinking_tokens == old(self).thinking_tokens + 1
                &&& final(self).content == old(self).content
                &&& final(self).in_thinking == !contains(final(self).thinking@, close_tag())
            },
            !old(self).in_thinking ==> {
                &&& final(self).content@ == old(self).content@ + piece@
                &&& final(self).thinking == old(self).thinking
                &&& final(self).thinking_tokens == old(self).thinking_tokens
                &&& !final(self).in_thinking
            },
            final(self).max_new_tokens == old(self).max_new_tokens,
            final(self).max_think_tokens == old(self).max_think_tokens,
            final(self).grammar == old(self).grammar,
            final(self).stopped == old(self).stopped,
    {
        if self.in_thinking {
            self.thinking.append(piece);
            self.thinking_tokens = self.thinking_tokens + 1;
            let t = chars_of(self.thinking.as_str());
            let c = chars_of("</think>");
            if contains_chars(&t, &c) {
                self.in_thinking = false;
            }
        } else {
            self.content.append(piece);
        }
        self.produced = self.produced + 1;
    }

    /// Records that the model ended its output.
    pub fn stop(&mut self)
        ensures
            *final(self) == (Generation { stopped: true, ..*old(self) }),
    {
        self.stopped = true;
    }

    /// The response of a finished generation: the thinking without its tags, and the
    /// content, reduced to its JSON answer when a grammar constrained it.
    pub fn response(&self, prompt_tokens: usize, time_to_first_token: Duration, duration: Duration) -> (r: LlmResponse)
        ensures
            r.thinking@ == spec_strip_think_tags(self.thinking@),
            r.content@ == (if self.grammar { spec_json_payload(self.content@) } else { self.content@ }),
            r.prompt_tokens == prompt_tokens,
            r.thinking_tokens == self.thinking_tokens,
            r.generated_tokens == self.produced,
            r.time_to_first_token == time_to_first_token,
            r.duration == duration,
    {
        let content = if self.grammar {
            json_payload(self.content.as_str())
        } else {
            self.content.clone()
        };
        LlmResponse {
            thinking: strip_think_tags(self.thinking.as_str()),
            content,
            prompt_tokens,
            thinking_tokens: self.thinking_tokens,
            generated_tokens: self.produced,
            time_to_first_token,
            duration,
        }
    }
}

proof fn lemma_last_fit(ms: Seq<(int, int)>, min: int, budget: int, i: int)
    requires
        i < ms.len(),
    ensures
        last_fit(ms, min, budget, i) matches Some(k) ==> 0 <= k <= i && ms[k].0 >= min && ms[k].1 <= budget,
    decreases i + 1,
{
    if i >= 0 && !(ms[i].0 >= min && ms[i].1 <= budget) {
        lemma_last_fit(ms, min, budget, i - 1);
    }
}

proof fn lemma_first_capable(ms: Seq<(int, int)>, min: int, i: int)
    requires
        0 <= i,
    ensures
        first_capable(ms, min, i) matches Some(k) ==> i <= k < ms.len() && ms[k].0 >= min,
        (exists|j: int| i <= j < ms.len() && ms[j].0 >= min) ==> first_capable(ms, min, i) is Some,
    decreases ms.len() - i,
{
    if i < ms.len() && ms[i].0 < min {
        lemma_first_capable(ms, min, i + 1);
        if exists|j: int| i <= j < ms.len() && ms[j].0 >= min {
            let j = choose|j: int| i <= j < ms.len() && ms[j].0 >= min;
            assert(j != i);
        }
    }
}

/// The chosen model is never smaller than asked for when some model is large enough, and
/// it fits a fifth of the memory whenever a model that large does.
pub proof fn lemma_select_model(total_ram: int, min: int)
    ensures
        ({
            let ms = spec_models();
            let k = spec_select_model(ms, total_ram, min);
            &&& 0 <= k < ms.len()
            &&& (exists|j: int| 0 <= j < ms.len() && ms[j].0 >= min) ==> ms[k].0 >= min
            &&& (exists|j: int| 0 <= j < ms.len() && ms[j].0 >= min && ms[j].1 <= total_ram / 5) ==> ms[k].1 <= total_ram / 5
        }),
{
    let ms = spec_models();
    let budget = total_ram / 5;
    lemma_last_fit(ms, min, budget, ms.len() - 1);
    lemma_first_capable(ms, min, 0);
    if exists|j: int| 0 <= j < ms.len() && ms[j].0 >= min && ms[j].1 <= budget {
        let j = choose|j: int| 0 <= j < ms.len() && ms[j].0 >= min && ms[j].1 <= budget;
        lemma_last_fit_found(ms, min, budget, ms.len() - 1, j);
    }
}

proof fn lemma_last_fit_found(ms: Seq<(int, int)>, min: int, budget: int, i: int, j: int)
    requires
        0 <= j <= i < ms.len(),
        ms[j].0 >= min && ms[j].1 <= budget,
    ensures
        last_fit(ms, min, budget, i) is Some,
    decreases i + 1,
{
    if i > j && !(ms[i].0 >= min && ms[i].1 <= budget) {
        lemma_last_fit_found(ms, min, budget, i - 1, j);
    }
}

/// A generation outside its thinking block neither closes thinking nor samples thinking
/// tokens, and its content is constrained exactly when a grammar is given.
pub proof fn lemma_thinking_stays_closed(g: Generation)
    requires
        !g.in_thinking,
    ensures
        !(g.spec_step() is CloseThinking),
        g.spec_step() matches GenerationStep::Sample { thinking, constrained } ==> !thinking && constrained == g.grammar,
{
}

/// A thinking token is only sampled below the thinking budget, so sampled thinking never
/// exceeds it; the budget is closed as soon as it is spent.
pub proof fn lemma_thinking_budget(g: Generation)
    requires
        g.wf(),
        g.in_thinking,
    ensures
        g.spec_step() matches GenerationStep::Sample { thinking, .. } ==> thinking && g.thinking_tokens < g.max_think_tokens,
        !g.stopped && g.produced < g.max_new_tokens && g.thinking_tokens >= g.max_think_tokens ==> g.spec_step() is CloseThinking,
{
}

proof fn lemma_tail_not_found(f: Seq<char>, t: Seq<char>, j: int)
    requires
        !contains(f, close_tag()),
        occurs_at(t, close_tag(), j),
    ensures
        rfind(f, t) is None,
{
    lemma_last_from_occurs(f, t, f.len() - t.len());
    if rfind(f, t) is Some {
        let i = rfind(f, t)->0;
        lemma_occurs_within(f, t, close_tag(), i, j);
        lemma_first_from_found(f, close_tag(), 0, i + j);
    }
}

proof fn lemma_no_closed_tails(f: Seq<char>)
    requires
        !contains(f, close_tag()),
    ensures
        rfind(f, closed_thinking()[0]) is None,
        rfind(f, closed_thinking()[1]) is None,
        rfind(f, closed_thinking()[2]) is None,
{
    reveal_strlit("<think>\n\n</think>\n\n");
    reveal_strlit("<think>\n</think>\n\n");
    reveal_strlit("<think></think>");
    reveal_strlit("</think>");
    let c = closed_thinking();
    assert(c[0].subrange(9, 17) =~= close_tag());
    assert(c[1].subrange(8, 16) =~= close_tag());
    assert(c[2].subrange(7, 15) =~= close_tag());
    lemma_tail_not_found(f, c[0], 9);
    lemma_tail_not_found(f, c[1], 8);
    lemma_tail_not_found(f, c[2], 7);
}

proof fn lemma_open_tag_appended(f: Seq<char>)
    requires
        !contains(f, close_tag()),
    ensures
        contains(f + "<think>\n"@, "<think>"@),
        !contains(f + "<think>\n"@, close_tag()),
{
    reveal_strlit("<think>\n");
    reveal_strlit("<think>");
    reveal_strlit("</think>");
    let o = "<think>\n"@;
    let h = f + o;
    let n = f.len() as int;
    assert(h.subrange(n, n + 7) =~= "<think>"@);
    lemma_first_from_found(h, "<think>"@, 0, n);
    if contains(h, close_tag()) {
        let k = choose_occurrence(h, close_tag());
        if k + 8 <= n {
            assert(f.subrange(k, k + 8) =~= h.subrange(k, k + 8));
            lemma_first_from_found(f, close_tag(), 0, k);
        } else if k < n {
            assert(h.subrange(k, k + 8)[n - k] == h[n]);
            assert(h[n] == '<');
        } else {
            assert(h.subrange(k, k + 8)[1] == h[k + 1]);
            assert(h[k + 1] == 't');
        }
    }
}

/// An index where `p` occurs in `h`, when the search finds one.
proof fn choose_occurrence(h: Seq<char>, p: Seq<char>) -> (k: int)
    requires
        contains(h, p),
    ensures
        occurs_at(h, p, k),
{
    lemma_first_from_occurs(h, p, 0);
    find(h, p)->0
}

/// A prompt without a closing think tag comes out with its thinking block open and still
/// without a closing tag: kept when it already opens a block, else with an open tag
/// appended; opening it again changes nothing.
pub proof fn lemma_open_thinking_shape(f: Seq<char>)
    requires
        !contains(f, "</think>"@),
    ensures
        spec_open_thinking(f) == (if contains(f, "<think>"@) { f } else { f + "<think>\n"@ }),
        contains(spec_open_thinking(f), "<think>"@),
        !contains(spec_open_thinking(f), "</think>"@),
        spec_open_thinking(spec_open_thinking(f)) == spec_open_thinking(f),
{
    lemma_no_closed_tails(f);
    let r = spec_open_thinking(f);
    if !contains(f, "<think>"@) {
        lemma_open_tag_appended(f);
    }
    lemma_no_closed_tails(r);
}

} // verus!
