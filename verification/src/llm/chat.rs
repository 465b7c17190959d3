//! Logic of the OpenAI-compatible chat client: endpoint and model
//! normalisation, cleaning of answers, reading text and reasoning out of
//! JSON message content, request preparation, response interpretation,
//! model-list post-processing and fallback across configured endpoints.
use vstd::prelude::*;
use vstd::string::*;
use crate::json::{as_str, obj_get, obj_index, object_get, value_as_str, JsonValue};
use crate::error::AppError;
use crate::http::{check_status, failure_message};
use crate::llm::model::{
    AssistantMessage, ChatCompletionRequest, ChatCompletionResponse, Message, ModelListResponse,
};
use crate::model::LLMChatResponse;
use crate::order::{
    bytes_less, find_slot, law_code_point_order_is_byte_order, lemma_less_transitive, seq_less,
    strictly_sorted,
};
use crate::model::{LLMConfig, DEFAULT_LLM_BASE_URL, DEFAULT_LLM_MODEL};
use crate::text::{
    blank, chars_of, contains, dec, decimal, ends_with, find_exec, find_from, is_blank, join, join_strings,
    line_bounds, lines, string_of_range, trim, trim_bounds, trim_end, trim_end_bound,
    views,
};

verus! {

/// The path of the chat completion endpoint under an API root.
pub const CHAT_COMPLETIONS_PATH: &'static str = "/chat/completions";

/// The path of the model list endpoint under an API root.
pub const MODELS_PATH: &'static str = "/models";

/// The prefix of the name shown for an unnamed configuration.
pub const UNNAMED_CONFIG_PREFIX: &'static str = "LLM ";

// ---------------------------------------------------------------------------
// Endpoint and configuration normalisation
// ---------------------------------------------------------------------------

/// `s` without the copies of `c` at its end.
pub open spec fn trim_end_char(s: Seq<char>, c: char) -> Seq<char>
    decreases s.len(),
{
    if s.len() > 0 && s.last() == c {
        trim_end_char(s.drop_last(), c)
    } else {
        s
    }
}

/// `s` without the suffix `suffix` (which it ends with).
pub open spec fn without_suffix(s: Seq<char>, suffix: Seq<char>) -> Seq<char> {
    s.subrange(0, s.len() - suffix.len())
}

/// The API root of a configured base URL: trimmed (the default root when
/// blank), without trailing slashes, and without a trailing
/// `/chat/completions` or else `/models`.
pub open spec fn api_root(base_url: Seq<char>) -> Seq<char> {
    let trimmed = trim(base_url);
    let base = if trimmed.len() == 0 {
        DEFAULT_LLM_BASE_URL@
    } else {
        trimmed
    };
    let base = trim_end_char(base, '/');
    if ends_with(base, CHAT_COMPLETIONS_PATH@) {
        without_suffix(base, CHAT_COMPLETIONS_PATH@)
    } else if ends_with(base, MODELS_PATH@) {
        without_suffix(base, MODELS_PATH@)
    } else {
        base
    }
}

/// The model of a configuration: trimmed, the default model when blank.
pub open spec fn model_name(model: Seq<char>) -> Seq<char> {
    if trim(model).len() == 0 {
        DEFAULT_LLM_MODEL@
    } else {
        trim(model)
    }
}

/// The name shown for configuration number `index` (counted from zero).
pub open spec fn config_name(name: Seq<char>, index: nat) -> Seq<char> {
    if trim(name).len() == 0 {
        UNNAMED_CONFIG_PREFIX@ + dec(index + 1)
    } else {
        trim(name)
    }
}

/// A configuration with blank base URL and model replaced by the defaults.
pub open spec fn normalized(config: LLMConfig, result: LLMConfig) -> bool {
    &&& result.name == config.name
    &&& result.api_key == config.api_key
    &&& result.enabled == config.enabled
    &&& result.base_url@ == if blank(config.base_url@) {
        DEFAULT_LLM_BASE_URL@
    } else {
        config.base_url@
    }
    &&& result.model@ == if blank(config.model@) {
        DEFAULT_LLM_MODEL@
    } else {
        config.model@
    }
}

/// Whether `v` ends with `suffix`.
fn ends_with_exec(v: &Vec<char>, len: usize, suffix: &Vec<char>) -> (res: bool)
    requires
        len <= v.len(),
    ensures
        res == ends_with(v@.subrange(0, len as int), suffix@),
{
    let ghost s = v@.subrange(0, len as int);
    if suffix.len() > len {
        return false;
    }
    let start = len - suffix.len();
    let mut k: usize = 0;
    while k < suffix.len()
        invariant
            start + suffix.len() == len <= v.len(),
            k <= suffix.len(),
            s == v@.subrange(0, len as int),
            forall|j: int| 0 <= j < k ==> v@[start + j] == suffix@[j],
        decreases suffix.len() - k,
    {
        if v[start + k] != suffix[k] {
            assert(s.subrange(start as int, len as int)[k as int] != suffix@[k as int]);
            return false;
        }
        k += 1;
    }
    assert(s.subrange(start as int, len as int) =~= suffix@);
    true
}

/// The API root of a configured base URL.
pub fn normalize_api_root(base_url: &str) -> (res: String)
    ensures
        res@ == api_root(base_url@),
{
    let v = chars_of(base_url);
    let (a, b) = trim_bounds(&v, 0, v.len());
    assert(v@.subrange(0, v@.len() as int) =~= v@);
    let base = if a == b {
        chars_of(DEFAULT_LLM_BASE_URL)
    } else {
        chars_of(string_of_range(&v, a, b).as_str())
    };
    let mut e = base.len();
    assert(base@.subrange(0, e as int) =~= base@);
    while e > 0 && base[e - 1] == '/'
        invariant
            e <= base.len(),
            trim_end_char(base@, '/') == trim_end_char(base@.subrange(0, e as int), '/'),
        decreases e,
    {
        assert(base@.subrange(0, e as int).drop_last() =~= base@.subrange(0, e - 1));
        e -= 1;
    }
    let chat = chars_of(CHAT_COMPLETIONS_PATH);
    let models = chars_of(MODELS_PATH);
    if ends_with_exec(&base, e, &chat) {
        assert(base@.subrange(0, e as int).subrange(0, e - chat.len()) =~= base@.subrange(0, e - chat.len()));
        string_of_range(&base, 0, e - chat.len())
    } else if ends_with_exec(&base, e, &models) {
        assert(base@.subrange(0, e as int).subrange(0, e - models.len()) =~= base@.subrange(0, e - models.len()));
        string_of_range(&base, 0, e - models.len())
    } else {
        string_of_range(&base, 0, e)
    }
}

/// The chat completion endpoint of a configured base URL.
pub fn normalize_base_url(base_url: &str) -> (res: String)
    ensures
        res@ == api_root(base_url@) + CHAT_COMPLETIONS_PATH@,
{
    let mut res = normalize_api_root(base_url);
    res.append(CHAT_COMPLETIONS_PATH);
    res
}

/// The model list endpoint of a configured base URL.
pub fn normalize_models_url(base_url: &str) -> (res: String)
    ensures
        res@ == api_root(base_url@) + MODELS_PATH@,
{
    let mut res = normalize_api_root(base_url);
    res.append(MODELS_PATH);
    res
}

/// The model of a configuration, the default one when blank.
pub fn normalize_model(model: &str) -> (res: String)
    ensures
        res@ == model_name(model@),
{
    let trimmed = crate::text::trim_string(model);
    if is_blank(trimmed.as_str()) {
        assert(trim(trimmed@).len() == 0 ==> trimmed@.len() == 0) by {
            lemma_trim_idempotent(model@);
        }
        DEFAULT_LLM_MODEL.to_string()
    } else {
        trimmed
    }
}

/// The name shown for configuration number `index` (counted from zero).
pub fn display_name(config: &LLMConfig, index: usize) -> (res: String)
    requires
        index < usize::MAX,
    ensures
        res@ == config_name(config.name@, index as nat),
{
    let trimmed = crate::text::trim_string(config.name.as_str());
    proof {
        lemma_trim_idempotent(config.name@);
    }
    if is_blank(trimmed.as_str()) {
        let mut res = UNNAMED_CONFIG_PREFIX.to_string();
        res.append(decimal(index as u64 + 1).as_str());
        res
    } else {
        trimmed
    }
}

/// The configuration with a blank base URL or model replaced by the default.
pub fn normalize_config(config: &LLMConfig) -> (res: LLMConfig)
    ensures
        normalized(*config, res),
{
    let mut normalized = config.clone();
    if is_blank(normalized.base_url.as_str()) {
        normalized.base_url = DEFAULT_LLM_BASE_URL.to_string();
    }
    if is_blank(normalized.model.as_str()) {
        normalized.model = DEFAULT_LLM_MODEL.to_string();
    }
    normalized
}

/// Trimming a trimmed sequence changes nothing.
pub proof fn lemma_trim_idempotent(s: Seq<char>)
    ensures
        trim(trim(s)) == trim(s),
{
    lemma_trim_end_no_ws(s);
    lemma_trim_start_keeps_end(trim_end(s));
    lemma_trim_start_no_ws(trim_end(s));
    let t = trim(s);
    lemma_trim_end_fixed(t);
}

proof fn lemma_trim_end_no_ws(s: Seq<char>)
    ensures
        trim_end(s).len() > 0 ==> !crate::text::is_ws(trim_end(s).last()),
        trim_end(s).len() <= s.len(),
        trim_end(s) == s.subrange(0, trim_end(s).len() as int),
    decreases s.len(),
{
    if s.len() > 0 && crate::text::is_ws(s.last()) {
        lemma_trim_end_no_ws(s.drop_last());
    } else {
        assert(s.subrange(0, s.len() as int) =~= s);
    }
}

proof fn lemma_trim_start_keeps_end(s: Seq<char>)
    ensures
        crate::text::trim_start(s).len() <= s.len(),
        crate::text::trim_start(s) == s.subrange(s.len() - crate::text::trim_start(s).len(), s.len() as int),
    decreases s.len(),
{
    if s.len() > 0 && crate::text::is_ws(s[0]) {
        lemma_trim_start_keeps_end(s.drop_first());
        let t = crate::text::trim_start(s.drop_first());
        assert(s.drop_first().subrange(s.drop_first().len() - t.len(), s.drop_first().len() as int)
            =~= s.subrange(s.len() - t.len(), s.len() as int));
    } else {
        assert(s.subrange(0, s.len() as int) =~= s);
    }
}

proof fn lemma_trim_start_no_ws(s: Seq<char>)
    ensures
        crate::text::trim_start(s).len() > 0 ==> !crate::text::is_ws(crate::text::trim_start(s)[0]),
    decreases s.len(),
{
    if s.len() > 0 && crate::text::is_ws(s[0]) {
        lemma_trim_start_no_ws(s.drop_first());
    }
}

proof fn lemma_trim_end_fixed(t: Seq<char>)
    requires
        t.len() > 0 ==> !crate::text::is_ws(t.last()) && !crate::text::is_ws(t[0]),
    ensures
        trim(t) == t,
{
}


// ---------------------------------------------------------------------------
// Cleaning answers
// ---------------------------------------------------------------------------

/// The tag that opens a reasoning block inside an answer.
pub open spec fn think_open() -> Seq<char> {
    seq!['<', 't', 'h', 'i', 'n', 'k', '>']
}

/// The tag that closes a reasoning block inside an answer.
pub open spec fn think_close() -> Seq<char> {
    seq!['<', '/', 't', 'h', 'i', 'n', 'k', '>']
}

pub proof fn lemma_find_from_range(s: Seq<char>, pat: Seq<char>, i: int)
    ensures
        find_from(s, pat, i) matches Some(k) ==> i <= k && k + pat.len() <= s.len()
            && crate::text::occurs_at(s, pat, k),
        find_from(s, pat, i) matches Some(k) ==> forall|j: int| i <= j < k ==> !crate::text::occurs_at(s, pat, j),
        find_from(s, pat, i) is None && 0 <= i && pat.len() > 0 ==> forall|j: int| i <= j ==> !crate::text::occurs_at(s, pat, j),
    decreases s.len() - i,
{
    if i < 0 || i + pat.len() > s.len() {
    } else if crate::text::occurs_at(s, pat, i) {
    } else if pat.len() == 0 {
    } else {
        lemma_find_from_range(s, pat, i + 1);
    }
}

/// The text from position `p` on, without its `<think>…</think>` blocks;
/// an unclosed `<think>` drops everything after it.
pub open spec fn strip_think_from(s: Seq<char>, p: int) -> Seq<char>
    decreases s.len() - p,
{
    if p < 0 || p > s.len() {
        seq![]
    } else {
        match find_from(s, think_open(), p) {
            None => s.subrange(p, s.len() as int),
            Some(i) => s.subrange(p, i) + match find_from(s, think_close(), i + 7) {
                None => seq![],
                Some(j) => {
                    proof {
                        lemma_find_from_range(s, think_open(), p);
                        lemma_find_from_range(s, think_close(), i + 7);
                    }
                    strip_think_from(s, j + 8)
                },
            },
        }
    }
}

/// Each line without its trailing whitespace.
pub open spec fn trim_ends(ls: Seq<Seq<char>>) -> Seq<Seq<char>> {
    Seq::new(ls.len(), |i: int| trim_end(ls[i]))
}

/// An answer without its reasoning blocks, each line without trailing
/// whitespace.
pub open spec fn stripped_answer(text: Seq<char>) -> Seq<char> {
    join(trim_ends(lines(strip_think_from(text, 0))), seq!['\n'])
}

/// Removes `<think>…</think>` blocks from an answer and trailing whitespace
/// from each of its lines.
pub fn strip_think_blocks(text: &str) -> (res: String)
    ensures
        res@ == stripped_answer(text@),
{
    let v = chars_of(text);
    let open = chars_of("<think>");
    let close = chars_of("</think>");
    proof {
        reveal_strlit("<think>");
        reveal_strlit("</think>");
        assert(open@ =~= think_open());
        assert(close@ =~= think_close());
    }
    let mut cleaned: Vec<char> = Vec::new();
    let mut p: usize = 0;
    loop
        invariant_except_break
            p <= v.len(),
            open@ == think_open(),
            close@ == think_close(),
            cleaned@ + strip_think_from(v@, p as int) == strip_think_from(v@, 0),
        ensures
            cleaned@ == strip_think_from(v@, 0),
        decreases v.len() - p,
    {
        let ghost before = cleaned@;
        match find_exec(&v, &open, p) {
            None => {
                let mut k = p;
                while k < v.len()
                    invariant
                        p <= k <= v.len(),
                        cleaned@ == before + v@.subrange(p as int, k as int),
                    decreases v.len() - k,
                {
                    cleaned.push(v[k]);
                    assert(v@.subrange(p as int, k + 1) =~= v@.subrange(p as int, k as int).push(v@[k as int]));
                    k += 1;
                }
                break;
            },
            Some(i) => {
                proof {
                    lemma_find_from_range(v@, think_open(), p as int);
                }
                let mut k = p;
                while k < i
                    invariant
                        p <= k <= i <= v.len(),
                        cleaned@ == before + v@.subrange(p as int, k as int),
                    decreases i - k,
                {
                    cleaned.push(v[k]);
                    assert(v@.subrange(p as int, k + 1) =~= v@.subrange(p as int, k as int).push(v@[k as int]));
                    k += 1;
                }
                match find_exec(&v, &close, i + 7) {
                    None => {
                        assert(before + strip_think_from(v@, p as int) =~= cleaned@);
                        break;
                    },
                    Some(j) => {
                        proof {
                            lemma_find_from_range(v@, think_close(), i + 7);
                            assert(before + strip_think_from(v@, p as int) =~= cleaned@ + strip_think_from(v@, j + 8));
                        }
                        p = j + 8;
                    },
                }
            },
        }
    }
    let bounds = line_bounds(&cleaned);
    let mut trimmed_lines: Vec<String> = Vec::new();
    let mut k: usize = 0;
    let ghost ls = lines(cleaned@);
    while k < bounds.len()
        invariant
            k <= bounds@.len() == ls.len(),
            ls == lines(cleaned@),
            forall|i: int|
                #![trigger bounds@[i]]
                0 <= i < bounds@.len() ==> {
                    &&& bounds@[i].0 <= bounds@[i].1 <= cleaned@.len()
                    &&& cleaned@.subrange(bounds@[i].0 as int, bounds@[i].1 as int) == ls[i]
                },
            views(trimmed_lines@) == trim_ends(ls.take(k as int)),
        decreases bounds@.len() - k,
    {
        let (lo, hi) = bounds[k];
        assert(cleaned@.subrange(lo as int, hi as int) == ls[k as int]);
        let e = trim_end_bound(&cleaned, lo, hi);
        let line = string_of_range(&cleaned, lo, e);
        assert(line@ == trim_end(ls[k as int]));
        let ghost old_views = views(trimmed_lines@);
        trimmed_lines.push(line);
        assert(views(trimmed_lines@) =~= old_views.push(trim_end(ls[k as int])));
        assert(trim_ends(ls.take(k + 1)) =~= trim_ends(ls.take(k as int)).push(trim_end(ls[k as int])));
        k += 1;
    }
    assert(ls.take(ls.len() as int) =~= ls);
    assert(trim_ends(ls.take(ls.len() as int)) == trim_ends(ls));
    proof {
        reveal_strlit("\n");
        assert("\n"@ =~= seq!['\n']);
    }
    join_strings(&trimmed_lines, "\n")
}


// ---------------------------------------------------------------------------
// Text and reasoning inside JSON message content
// ---------------------------------------------------------------------------

pub const KEY_TYPE: &'static str = "type";
pub const KEY_TEXT: &'static str = "text";
pub const KEY_CONTENT: &'static str = "content";
pub const KEY_REASONING_CONTENT: &'static str = "reasoning_content";
pub const TYPE_OUTPUT_TEXT: &'static str = "output_text";
pub const TYPE_INPUT_TEXT: &'static str = "input_text";
pub const REASON_MARK: &'static str = "reason";

/// The text of a member that is a JSON string, or nothing.
pub open spec fn str_or_empty(v: Option<JsonValue>) -> Seq<char> {
    match as_str(v) {
        Some(s) => s,
        None => seq![],
    }
}

/// The first of two optional texts that is present.
pub open spec fn either(a: Option<Seq<char>>, b: Option<Seq<char>>) -> Option<Seq<char>> {
    if a is Some {
        a
    } else {
        b
    }
}

/// A content part type that carries answer text.
pub open spec fn is_text_type(t: Seq<char>) -> bool {
    t == KEY_TEXT@ || t == TYPE_OUTPUT_TEXT@ || t == TYPE_INPUT_TEXT@ || t.len() == 0
}

/// The answer text of one content part: a string, or an object of a text
/// type with a string `text` (else `content`).
pub open spec fn text_part(part: JsonValue) -> Option<Seq<char>> {
    match part {
        JsonValue::Object(m) => if is_text_type(str_or_empty(obj_get(m@, KEY_TYPE@))) {
            either(as_str(obj_get(m@, KEY_TEXT@)), as_str(obj_get(m@, KEY_CONTENT@)))
        } else {
            None
        },
        JsonValue::String(s) => Some(s@),
        _ => None,
    }
}

/// The reasoning text of one content part: a string, or an object whose
/// type mentions `reason` with a string `text` (else `content`, else
/// `reasoning_content`).
pub open spec fn reasoning_part(part: JsonValue) -> Option<Seq<char>> {
    match part {
        JsonValue::Object(m) => if contains(str_or_empty(obj_get(m@, KEY_TYPE@)), REASON_MARK@) {
            either(
                as_str(obj_get(m@, KEY_TEXT@)),
                either(as_str(obj_get(m@, KEY_CONTENT@)), as_str(obj_get(m@, KEY_REASONING_CONTENT@))),
            )
        } else {
            None
        },
        JsonValue::String(s) => Some(s@),
        _ => None,
    }
}

/// The texts that `f` finds in the parts, in order.
pub open spec fn collect_parts(parts: Seq<JsonValue>, f: spec_fn(JsonValue) -> Option<Seq<char>>) -> Seq<
    Seq<char>,
>
    decreases parts.len(),
{
    if parts.len() == 0 {
        seq![]
    } else {
        match f(parts.last()) {
            Some(t) => collect_parts(parts.drop_last(), f).push(t),
            None => collect_parts(parts.drop_last(), f),
        }
    }
}

/// The answer text of a message content: a string as it is, the text parts
/// of an array joined by newlines, nothing otherwise.
pub open spec fn content_text(v: Option<JsonValue>) -> Seq<char> {
    match v {
        Some(JsonValue::String(s)) => s@,
        Some(JsonValue::Array(parts)) => join(collect_parts(parts@, |p: JsonValue| text_part(p)), seq!['\n']),
        _ => seq![],
    }
}

/// The reasoning text of a value: a string as it is, the reasoning parts of
/// an array joined by newlines, the string `text` of an object or else the
/// reasoning of its `content` when not blank, nothing otherwise.
pub open spec fn reasoning_text(v: JsonValue) -> Seq<char>
    decreases v,
{
    match v {
        JsonValue::String(s) => s@,
        JsonValue::Array(parts) => join(
            collect_parts(parts@, |p: JsonValue| reasoning_part(p)),
            seq!['\n'],
        ),
        JsonValue::Object(m) => match as_str(obj_get(m@, KEY_TEXT@)) {
            Some(t) => t,
            None => match obj_index(m@, KEY_CONTENT@) {
                Some(k) => {
                    proof {
                        crate::json::lemma_obj_index_bounds(m@, KEY_CONTENT@);
                    }
                    let r = reasoning_text(m@[k].1);
                    if blank(r) {
                        seq![]
                    } else {
                        r
                    }
                },
                None => seq![],
            },
        },
        _ => seq![],
    }
}

/// The reasoning of an assistant message: its `reasoning_content` when not
/// blank, else the reasoning text of its `reasoning` when not blank.
pub open spec fn message_reasoning(message: AssistantMessage) -> Seq<char> {
    match message.reasoning_content {
        Some(r) if !blank(r@) => r@,
        _ => match message.reasoning {
            Some(v) => if blank(reasoning_text(v)) {
                seq![]
            } else {
                reasoning_text(v)
            },
            None => seq![],
        },
    }
}

/// The text of a member that is a JSON string, or the empty string.
fn member_str_or_empty(entries: &Vec<(String, JsonValue)>, key: &str) -> (res: String)
    ensures
        res@ == str_or_empty(obj_get(entries@, key@)),
{
    match value_as_str(object_get(entries, key)) {
        Some(s) => s,
        None => String::new(),
    }
}

/// The text of a member that is a JSON string.
fn member_str(entries: &Vec<(String, JsonValue)>, key: &str) -> (res: Option<String>)
    ensures
        match res {
            Some(s) => as_str(obj_get(entries@, key@)) == Some(s@),
            None => as_str(obj_get(entries@, key@)) is None,
        },
{
    value_as_str(object_get(entries, key))
}

fn text_part_exec(part: &JsonValue) -> (res: Option<String>)
    ensures
        match res {
            Some(s) => text_part(*part) == Some(s@),
            None => text_part(*part) is None,
        },
{
    match part {
        JsonValue::Object(m) => {
            let part_type = member_str_or_empty(m, KEY_TYPE);
            if part_type == KEY_TEXT.to_string() || part_type == TYPE_OUTPUT_TEXT.to_string()
                || part_type == TYPE_INPUT_TEXT.to_string() || part_type.as_str().is_empty() {
                match member_str(m, KEY_TEXT) {
                    Some(t) => Some(t),
                    None => member_str(m, KEY_CONTENT),
                }
            } else {
                None
            }
        },
        JsonValue::String(s) => Some(s.clone()),
        _ => None,
    }
}

fn reasoning_part_exec(part: &JsonValue) -> (res: Option<String>)
    ensures
        match res {
            Some(s) => reasoning_part(*part) == Some(s@),
            None => reasoning_part(*part) is None,
        },
{
    match part {
        JsonValue::Object(m) => {
            let part_type = chars_of(member_str_or_empty(m, KEY_TYPE).as_str());
            let mark = chars_of(REASON_MARK);
            if find_exec(&part_type, &mark, 0).is_some() {
                match member_str(m, KEY_TEXT) {
                    Some(t) => Some(t),
                    None => match member_str(m, KEY_CONTENT) {
                        Some(t) => Some(t),
                        None => member_str(m, KEY_REASONING_CONTENT),
                    },
                }
            } else {
                None
            }
        },
        JsonValue::String(s) => Some(s.clone()),
        _ => None,
    }
}

/// The answer texts of the parts, joined by newlines.
fn join_text_parts(parts: &Vec<JsonValue>) -> (res: String)
    ensures
        res@ == join(collect_parts(parts@, |p: JsonValue| text_part(p)), seq!['\n']),
{
    let ghost f = |p: JsonValue| text_part(p);
    let mut found: Vec<String> = Vec::new();
    let mut i: usize = 0;
    while i < parts.len()
        invariant
            i <= parts@.len(),
            f == (|p: JsonValue| text_part(p)),
            views(found@) == collect_parts(parts@.take(i as int), f),
        decreases parts@.len() - i,
    {
        assert(parts@.take(i + 1).drop_last() =~= parts@.take(i as int));
        assert(parts@.take(i + 1).last() == parts@[i as int]);
        match text_part_exec(&parts[i]) {
            Some(t) => {
                found.push(t);
                assert(views(found@) =~= collect_parts(parts@.take(i + 1), f));
            },
            None => {},
        }
        i += 1;
    }
    assert(parts@.take(parts@.len() as int) =~= parts@);
    proof {
        reveal_strlit("\n");
        assert("\n"@ =~= seq!['\n']);
    }
    join_strings(&found, "\n")
}

/// The reasoning texts of the parts, joined by newlines.
fn join_reasoning_parts(parts: &Vec<JsonValue>) -> (res: String)
    ensures
        res@ == join(collect_parts(parts@, |p: JsonValue| reasoning_part(p)), seq!['\n']),
{
    let ghost f = |p: JsonValue| reasoning_part(p);
    let mut found: Vec<String> = Vec::new();
    let mut i: usize = 0;
    while i < parts.len()
        invariant
            i <= parts@.len(),
            f == (|p: JsonValue| reasoning_part(p)),
            views(found@) == collect_parts(parts@.take(i as int), f),
        decreases parts@.len() - i,
    {
        assert(parts@.take(i + 1).drop_last() =~= parts@.take(i as int));
        assert(parts@.take(i + 1).last() == parts@[i as int]);
        match reasoning_part_exec(&parts[i]) {
            Some(t) => {
                found.push(t);
                assert(views(found@) =~= collect_parts(parts@.take(i + 1), f));
            },
            None => {},
        }
        i += 1;
    }
    assert(parts@.take(parts@.len() as int) =~= parts@);
    proof {
        reveal_strlit("\n");
        assert("\n"@ =~= seq!['\n']);
    }
    join_strings(&found, "\n")
}

/// The answer text of a message content.
pub fn extract_text(value: &Option<JsonValue>) -> (res: String)
    ensures
        res@ == content_text(*value),
{
    match value {
        Some(JsonValue::String(text)) => text.clone(),
        Some(JsonValue::Array(parts)) => join_text_parts(parts),
        _ => String::new(),
    }
}

/// The reasoning text of a value.
pub fn extract_reasoning_content_from_value(value: &JsonValue) -> (res: String)
    ensures
        res@ == reasoning_text(*value),
    decreases value,
{
    match value {
        JsonValue::String(text) => text.clone(),
        JsonValue::Array(parts) => join_reasoning_parts(parts),
        JsonValue::Object(map) => match member_str(map, KEY_TEXT) {
            Some(t) => t,
            None => {
                proof {
                    crate::json::lemma_obj_index_bounds(map@, KEY_CONTENT@);
                }
                match object_get(map, KEY_CONTENT) {
                    Some(inner) => {
                        let r = extract_reasoning_content_from_value(inner);
                        if is_blank(r.as_str()) {
                            String::new()
                        } else {
                            r
                        }
                    },
                    None => String::new(),
                }
            },
        },
        _ => String::new(),
    }
}

/// The reasoning of an assistant message.
pub fn extract_reasoning_content(message: &AssistantMessage) -> (res: String)
    ensures
        res@ == message_reasoning(*message),
{
    if let Some(reasoning_content) = &message.reasoning_content {
        if !is_blank(reasoning_content.as_str()) {
            return reasoning_content.clone();
        }
    }
    if let Some(reasoning) = &message.reasoning {
        let content = extract_reasoning_content_from_value(reasoning);
        if !is_blank(content.as_str()) {
            return content;
        }
    }
    String::new()
}


// ---------------------------------------------------------------------------
// Requests and responses
// ---------------------------------------------------------------------------

pub const MISSING_KEY_MESSAGE: &'static str = "请先在设置页填写 LLM API Key。";
pub const MISSING_NODE_KEY_MESSAGE: &'static str = "请先填写对应节点的 LLM API Key。";
pub const EMPTY_ANSWER_MESSAGE: &'static str = "LLM 返回了空内容，请检查模型配置后重试。";
pub const NO_MODELS_MESSAGE: &'static str = "接口未返回可用模型，请确认该 API 兼容 OpenAI 的 /models。";
pub const CHAT_FAILURE_PREFIX: &'static str = "请求失败，状态码：";
pub const MODELS_FAILURE_PREFIX: &'static str = "拉取模型列表失败，状态码：";
pub const SYSTEM_ROLE: &'static str = "system";
pub const USER_ROLE: &'static str = "user";
pub const SYSTEM_PROMPT: &'static str = "You are a helpful assistant.";
pub const BEARER_PREFIX: &'static str = "Bearer ";
pub const HEADER_CONTENT_TYPE: &'static str = "Content-Type";
pub const HEADER_AUTHORIZATION: &'static str = "Authorization";
pub const HEADER_ACCEPT: &'static str = "Accept";
pub const JSON_MIME: &'static str = "application/json";

/// Where a request goes and the headers it carries.
pub struct RequestPlan {
    pub endpoint: String,
    pub headers: Vec<(String, String)>,
}

/// The header pairs of a request, as text.
pub open spec fn header_views(h: Seq<(String, String)>) -> Seq<(Seq<char>, Seq<char>)> {
    h.map_values(|p: (String, String)| (p.0@, p.1@))
}

/// The answer text of a chat completion: that of its first choice, without
/// reasoning blocks, trimmed; nothing when there is no choice.
pub open spec fn answer_content(resp: ChatCompletionResponse) -> Seq<char> {
    if resp.choices@.len() > 0 {
        trim(stripped_answer(content_text(resp.choices@[0].message.content)))
    } else {
        seq![]
    }
}

/// The reasoning of a chat completion: that of its first choice, trimmed.
pub open spec fn answer_reasoning(resp: ChatCompletionResponse) -> Seq<char> {
    if resp.choices@.len() > 0 {
        trim(message_reasoning(resp.choices@[0].message))
    } else {
        seq![]
    }
}

fn header(name: &str, value: String) -> (res: (String, String))
    ensures
        res.0@ == name@,
        res.1 == value,
{
    (name.to_string(), value)
}

/// The chat completion request for `prompt` under `config`, refused when
/// the configuration has no API key.
pub fn prepare_chat_completion(config: &LLMConfig, prompt: String) -> (res: Result<
    (RequestPlan, ChatCompletionRequest),
    AppError,
>)
    ensures
        match res {
            Ok((plan, request)) => {
                &&& !blank(config.api_key@)
                &&& plan.endpoint@ == api_root(config.base_url@) + CHAT_COMPLETIONS_PATH@
                &&& header_views(plan.headers@) == seq![
                    (HEADER_CONTENT_TYPE@, JSON_MIME@),
                    (HEADER_AUTHORIZATION@, BEARER_PREFIX@ + trim(config.api_key@)),
                ]
                &&& request.model@ == model_name(config.model@)
                &&& request.messages@.len() == 2
                &&& request.messages@[0].role@ == SYSTEM_ROLE@
                &&& request.messages@[0].content@ == SYSTEM_PROMPT@
                &&& request.messages@[1].role@ == USER_ROLE@
                &&& request.messages@[1].content == prompt
                &&& !request.stream
            },
            Err(e) => blank(config.api_key@) && (e matches AppError::LLMError(m) && m@
                == MISSING_KEY_MESSAGE@),
        },
{
    let api_key = crate::text::trim_string(config.api_key.as_str());
    proof {
        lemma_trim_idempotent(config.api_key@);
    }
    if is_blank(api_key.as_str()) {
        return Err(AppError::LLMError(MISSING_KEY_MESSAGE.to_string()));
    }
    let mut messages: Vec<Message> = Vec::new();
    messages.push(Message { role: SYSTEM_ROLE.to_string(), content: SYSTEM_PROMPT.to_string() });
    messages.push(Message { role: USER_ROLE.to_string(), content: prompt });
    let request = ChatCompletionRequest {
        model: normalize_model(config.model.as_str()),
        messages,
        stream: false,
    };
    let mut bearer = BEARER_PREFIX.to_string();
    bearer.append(api_key.as_str());
    let mut headers: Vec<(String, String)> = Vec::new();
    headers.push(header(HEADER_CONTENT_TYPE, JSON_MIME.to_string()));
    headers.push(header(HEADER_AUTHORIZATION, bearer));
    assert(header_views(headers@) =~= seq![
        (HEADER_CONTENT_TYPE@, JSON_MIME@),
        (HEADER_AUTHORIZATION@, BEARER_PREFIX@ + trim(config.api_key@)),
    ]);
    let plan = RequestPlan { endpoint: normalize_base_url(config.base_url.as_str()), headers };
    Ok((plan, request))
}

/// The model list request under `config`, refused when the configuration
/// has no API key.
pub fn prepare_model_list(config: &LLMConfig) -> (res: Result<RequestPlan, AppError>)
    ensures
        match res {
            Ok(plan) => {
                &&& !blank(config.api_key@)
                &&& plan.endpoint@ == api_root(config.base_url@) + MODELS_PATH@
                &&& header_views(plan.headers@) == seq![
                    (HEADER_AUTHORIZATION@, BEARER_PREFIX@ + trim(config.api_key@)),
                    (HEADER_ACCEPT@, JSON_MIME@),
                ]
            },
            Err(e) => blank(config.api_key@) && (e matches AppError::LLMError(m) && m@
                == MISSING_NODE_KEY_MESSAGE@),
        },
{
    let api_key = crate::text::trim_string(config.api_key.as_str());
    proof {
        lemma_trim_idempotent(config.api_key@);
    }
    if is_blank(api_key.as_str()) {
        return Err(AppError::LLMError(MISSING_NODE_KEY_MESSAGE.to_string()));
    }
    let mut bearer = BEARER_PREFIX.to_string();
    bearer.append(api_key.as_str());
    let mut headers: Vec<(String, String)> = Vec::new();
    headers.push(header(HEADER_AUTHORIZATION, bearer));
    headers.push(header(HEADER_ACCEPT, JSON_MIME.to_string()));
    assert(header_views(headers@) =~= seq![
        (HEADER_AUTHORIZATION@, BEARER_PREFIX@ + trim(config.api_key@)),
        (HEADER_ACCEPT@, JSON_MIME@),
    ]);
    Ok(RequestPlan { endpoint: normalize_models_url(config.base_url.as_str()), headers })
}

/// Accepts the status of a chat completion response, or reports it.
pub fn check_chat_status(code: u16, body: &[u8]) -> (res: Result<(), AppError>)
    requires
        100 <= code <= 999,
    ensures
        match res {
            Ok(()) => 200 <= code < 300,
            Err(e) => !(200 <= code < 300) && (e matches AppError::LLMError(m) && m@ == failure_message(
                CHAT_FAILURE_PREFIX@,
                code,
                body@,
            )),
        },
{
    check_status(CHAT_FAILURE_PREFIX, code, body)
}

/// Accepts the status of a model list response, or reports it.
pub fn check_models_status(code: u16, body: &[u8]) -> (res: Result<(), AppError>)
    requires
        100 <= code <= 999,
    ensures
        match res {
            Ok(()) => 200 <= code < 300,
            Err(e) => !(200 <= code < 300) && (e matches AppError::LLMError(m) && m@ == failure_message(
                MODELS_FAILURE_PREFIX@,
                code,
                body@,
            )),
        },
{
    check_status(MODELS_FAILURE_PREFIX, code, body)
}

/// The answer of a chat completion, refused when its text is blank.
pub fn chat_response_from_completion(resp: &ChatCompletionResponse) -> (res: Result<
    LLMChatResponse,
    AppError,
>)
    ensures
        match res {
            Ok(r) => r.content@ == answer_content(*resp) && r.reasoning_content@ == answer_reasoning(
                *resp,
            ) && !blank(answer_content(*resp)) && r.content@.len() > 0 && trim(r.content@)
                == r.content@,
            Err(e) => blank(answer_content(*resp)) && (e matches AppError::LLMError(m) && m@
                == EMPTY_ANSWER_MESSAGE@),
        },
{
    let (content, reasoning_content) = if resp.choices.len() > 0 {
        let choice = &resp.choices[0];
        let text = extract_text(&choice.message.content);
        let content = crate::text::trim_string(strip_think_blocks(text.as_str()).as_str());
        let reasoning = crate::text::trim_string(extract_reasoning_content(&choice.message).as_str());
        (content, reasoning)
    } else {
        (String::new(), String::new())
    };
    if is_blank(content.as_str()) {
        return Err(AppError::LLMError(EMPTY_ANSWER_MESSAGE.to_string()));
    }
    proof {
        if resp.choices@.len() > 0 {
            lemma_trim_idempotent(stripped_answer(content_text(resp.choices@[0].message.content)));
        }
    }
    Ok(LLMChatResponse { content, reasoning_content })
}

/// The model ids of a list that are not blank.
pub open spec fn listed_model(data: Seq<crate::llm::model::ModelData>, id: Seq<char>) -> bool {
    exists|i: int| 0 <= i < data.len() && !blank(#[trigger] data[i].id@) && data[i].id@ == id
}

/// The model ids of a list, sorted (by code point, which is byte order),
/// without blank ids or repeats; refused when none is left.
pub fn models_from_list(resp: &ModelListResponse) -> (res: Result<Vec<String>, AppError>)
    ensures
        match res {
            Ok(models) => {
                &&& models@.len() > 0
                &&& strictly_sorted(views(models@))
                &&& forall|i: int, j: int|
                    0 <= i < j < models@.len() ==> bytes_less(
                        vstd::utf8::encode_utf8(#[trigger] models@[i]@),
                        vstd::utf8::encode_utf8(#[trigger] models@[j]@),
                    )
                &&& forall|id: Seq<char>| views(models@).contains(id) <==> listed_model(resp.data@, id)
            },
            Err(e) => (forall|id: Seq<char>| !listed_model(resp.data@, id)) && (e matches AppError::LLMError(
                m,
            ) && m@ == NO_MODELS_MESSAGE@),
        },
{
    let data = &resp.data;
    let mut keys: Vec<Vec<char>> = Vec::new();
    let mut models: Vec<String> = Vec::new();
    let mut i: usize = 0;
    while i < data.len()
        invariant
            i <= data@.len(),
            keys@.len() == models@.len(),
            forall|j: int| 0 <= j < keys@.len() ==> (#[trigger] keys@[j])@ == models@[j]@,
            strictly_sorted(keys@.map_values(|k: Vec<char>| k@)),
            forall|id: Seq<char>|
                views(models@).contains(id) <==> listed_model(data@.take(i as int), id),
        decreases data@.len() - i,
    {
        let ghost prefix = data@.take(i + 1);
        assert forall|id: Seq<char>| listed_model(prefix, id) <==> (listed_model(data@.take(i as int), id) || (
            !blank(data@[i as int].id@) && data@[i as int].id@ == id)) by {
            if listed_model(prefix, id) {
                let j = choose|j: int| 0 <= j < prefix.len() && !blank(#[trigger] prefix[j].id@) && prefix[j].id@ == id;
                if j < i {
                    assert(data@.take(i as int)[j] == prefix[j]);
                }
            }
            if listed_model(data@.take(i as int), id) {
                let j = choose|j: int| 0 <= j < i && !blank(#[trigger] data@.take(i as int)[j].id@) && data@.take(i as int)[j].id@ == id;
                assert(prefix[j] == data@.take(i as int)[j]);
            }
            if !blank(data@[i as int].id@) && data@[i as int].id@ == id {
                assert(prefix[i as int] == data@[i as int]);
            }
        }
        let id = &data[i].id;
        let ghost idv = data@[i as int].id@;
        assert(id@ == idv);
        let ghost before = views(models@);
        if !is_blank(id.as_str()) {
            let key = chars_of(id.as_str());
            let (p, present) = find_slot(&keys, &key);
            if !present {
                let ghost old_keys = keys@.map_values(|k: Vec<char>| k@);
                let ghost old_views = views(models@);
                keys.insert(p, key);
                models.insert(p, id.clone());
                let ghost new_keys = keys@.map_values(|k: Vec<char>| k@);
                assert(new_keys =~= old_keys.insert(p as int, id@));
                assert forall|q: int| p <= q < old_keys.len() implies seq_less(id@, #[trigger] old_keys[q]) by {
                    if q > p {
                        lemma_less_transitive(id@, old_keys[p as int], old_keys[q]);
                    }
                }
                assert(views(models@) =~= old_views.insert(p as int, id@));
                assert forall|a: int, b: int| 0 <= a < b < new_keys.len() implies seq_less(
                    #[trigger] new_keys[a],
                    #[trigger] new_keys[b],
                ) by {
                    if b < p {
                    } else if b == p {
                    } else if a < p {
                        assert(new_keys[b] == old_keys[b - 1]);
                        assert(seq_less(id@, old_keys[b - 1]));
                        lemma_less_transitive(new_keys[a], id@, new_keys[b]);
                    } else if a == p {
                        assert(new_keys[b] == old_keys[b - 1]);
                    } else {
                        assert(new_keys[a] == old_keys[a - 1]);
                        assert(new_keys[b] == old_keys[b - 1]);
                    }
                }
                assert forall|x: Seq<char>| views(models@).contains(x) <==> (old_views.contains(x) || x == id@) by {
                    if views(models@).contains(x) {
                        let j = choose|j: int| 0 <= j < views(models@).len() && views(models@)[j] == x;
                        if j < p {
                            assert(old_views[j] == x);
                        } else if j > p {
                            assert(old_views[j - 1] == x);
                        }
                    }
                    if old_views.contains(x) {
                        let j = choose|j: int| 0 <= j < old_views.len() && old_views[j] == x;
                        if j < p {
                            assert(views(models@)[j] == x);
                        } else {
                            assert(views(models@)[j + 1] == x);
                        }
                    }
                    if x == id@ {
                        assert(views(models@)[p as int] == x);
                    }
                }
                assert(views(models@)[p as int] == idv);
                assert(views(models@).contains(idv));
            } else {
                assert(keys@[p as int]@ == models@[p as int]@);
                assert(views(models@)[p as int] == id@);
                assert(views(models@) == before);
                assert(before.contains(idv));
            }
            assert forall|x: Seq<char>| views(models@).contains(x) <==> (before.contains(x) || x == idv) by {
            }
        } else {
            assert(views(models@) == before);
        }
        assert forall|x: Seq<char>| views(models@).contains(x) <==> listed_model(prefix, x) by {
            assert(before.contains(x) <==> listed_model(data@.take(i as int), x));
            if !blank(idv) && idv == x {
                assert(listed_model(prefix, x));
            }
        }
        i += 1;
    }
    assert(data@.take(data@.len() as int) =~= data@);
    if models.len() == 0 {
        assert forall|id: Seq<char>| !listed_model(data@, id) by {
            if listed_model(data@, id) {
                assert(!views(models@).contains(id));
            }
        }
        return Err(AppError::LLMError(NO_MODELS_MESSAGE.to_string()));
    }
    assert(views(models@) =~= keys@.map_values(|k: Vec<char>| k@));
    assert forall|i: int, j: int| 0 <= i < j < models@.len() implies bytes_less(
        vstd::utf8::encode_utf8(#[trigger] models@[i]@),
        vstd::utf8::encode_utf8(#[trigger] models@[j]@),
    ) by {
        assert(seq_less(views(models@)[i], views(models@)[j]));
        law_code_point_order_is_byte_order(models@[i]@, models@[j]@);
    }
    Ok(models)
}


// ---------------------------------------------------------------------------
// Fallback across configurations
// ---------------------------------------------------------------------------

pub const NO_ENABLED_CONFIG_MESSAGE: &'static str = "请先配置至少一个启用的 LLM 选项。";
pub const ALL_FAILED_PREFIX: &'static str = "所有 LLM 选项都调用失败：";
pub const FAILURE_SEPARATOR: &'static str = " | ";
pub const NAME_SEPARATOR: &'static str = ": ";

/// A configuration that can be tried: enabled, with an API key.
pub open spec fn usable(config: LLMConfig) -> bool {
    config.enabled && !blank(config.api_key@)
}

/// The positions of the usable configurations, in order.
pub open spec fn usable_positions(configs: Seq<LLMConfig>) -> Seq<int>
    decreases configs.len(),
{
    if configs.len() == 0 {
        seq![]
    } else if usable(configs.last()) {
        usable_positions(configs.drop_last()).push(configs.len() - 1)
    } else {
        usable_positions(configs.drop_last())
    }
}

pub proof fn lemma_usable_positions(configs: Seq<LLMConfig>)
    ensures
        forall|j: int|
            0 <= j < usable_positions(configs).len() ==> 0 <= #[trigger] usable_positions(configs)[j]
                < configs.len() && usable(configs[usable_positions(configs)[j]]),
        forall|i: int|
            0 <= i < configs.len() && usable(#[trigger] configs[i]) ==> usable_positions(configs).contains(i),
    decreases configs.len(),
{
    if configs.len() > 0 {
        let rest = configs.drop_last();
        lemma_usable_positions(rest);
        let pr = usable_positions(rest);
        assert forall|j: int| 0 <= j < pr.len() implies rest[pr[j]] == configs[pr[j]] by {}
        assert forall|i: int| 0 <= i < configs.len() && usable(#[trigger] configs[i]) implies usable_positions(configs).contains(i) by {
            if i < configs.len() - 1 {
                assert(rest[i] == configs[i]);
                assert(pr.contains(i));
                let j = choose|j: int| 0 <= j < pr.len() && pr[j] == i;
                if usable(configs.last()) {
                    assert(usable_positions(configs)[j] == i);
                }
            } else {
                assert(usable_positions(configs)[pr.len() as int] == i);
            }
        }
    }
}

/// The line that reports a failed configuration.
pub open spec fn failure_line(name: Seq<char>, error: AppError) -> Seq<char> {
    name + NAME_SEPARATOR@ + error.message()
}

/// Tries the usable configurations one after another until one answers.
pub struct ChatFallback {
    candidates: Vec<LLMConfig>,
    failures: Vec<String>,
    answered: bool,
}

impl ChatFallback {
    /// The configurations to try, in order, normalised.
    pub closed spec fn candidates(&self) -> Seq<LLMConfig> {
        self.candidates@
    }

    /// The reports of the configurations that failed so far.
    pub closed spec fn failures(&self) -> Seq<Seq<char>> {
        views(self.failures@)
    }

    /// Whether a candidate has answered, which ends the fallback.
    pub closed spec fn answered(&self) -> bool {
        self.answered
    }

    /// The fallback's invariant: no more failures than candidates.
    pub closed spec fn wf(&self) -> bool {
        self.failures@.len() <= self.candidates@.len()
    }

    /// The usable configurations, normalised, in order; refused when there
    /// is none.
    pub fn new(configs: &[LLMConfig]) -> (res: Result<ChatFallback, AppError>)
        ensures
            match res {
                Ok(f) => {
                    &&& f.wf()
                    &&& f.failures().len() == 0
                    &&& !f.answered()
                    &&& (f.failures(), f.answered()) == fallback_run(f.candidates(), seq![])
                    &&& f.candidates().len() == usable_positions(configs@).len() > 0
                    &&& forall|j: int|
                        0 <= j < f.candidates().len() ==> normalized(
                            configs@[usable_positions(configs@)[j]],
                            #[trigger] f.candidates()[j],
                        )
                },
                Err(e) => usable_positions(configs@).len() == 0 && (e matches AppError::LLMError(m) && m@
                    == NO_ENABLED_CONFIG_MESSAGE@),
            },
    {
        let mut candidates: Vec<LLMConfig> = Vec::new();
        let mut i: usize = 0;
        while i < configs.len()
            invariant
                i <= configs@.len(),
                candidates@.len() == usable_positions(configs@.take(i as int)).len(),
                forall|j: int|
                    0 <= j < candidates@.len() ==> normalized(
                        configs@.take(i as int)[usable_positions(configs@.take(i as int))[j]],
                        #[trigger] candidates@[j],
                    ),
            decreases configs@.len() - i,
        {
            let ghost prefix = configs@.take(i + 1);
            let ghost before = configs@.take(i as int);
            assert(prefix.drop_last() =~= before);
            assert(prefix.last() == configs@[i as int]);
            proof {
                lemma_usable_positions(before);
            }
            let config = normalize_config(&configs[i]);
            if config.enabled && !is_blank(config.api_key.as_str()) {
                candidates.push(config);
            }
            assert forall|j: int| 0 <= j < candidates@.len() implies normalized(
                prefix[usable_positions(prefix)[j]],
                #[trigger] candidates@[j],
            ) by {
                if j < usable_positions(before).len() {
                    assert(usable_positions(prefix)[j] == usable_positions(before)[j]);
                    assert(prefix[usable_positions(before)[j]] == before[usable_positions(before)[j]]);
                }
            }
            i += 1;
        }
        assert(configs@.take(configs@.len() as int) =~= configs@);
        if candidates.len() == 0 {
            return Err(AppError::LLMError(NO_ENABLED_CONFIG_MESSAGE.to_string()));
        }
        Ok(ChatFallback { candidates, failures: Vec::new(), answered: false })
    }

    /// The next configuration to try, with the name it is reported under;
    /// nothing once a candidate has answered or every candidate has failed.
    pub fn next_attempt(&self) -> (res: Option<(LLMConfig, String)>)
        requires
            self.wf(),
        ensures
            match res {
                Some((config, name)) => {
                    &&& !self.answered()
                    &&& self.failures().len() < self.candidates().len()
                    &&& config == self.candidates()[self.failures().len() as int]
                    &&& name@ == config_name(config.name@, self.failures().len())
                },
                None => self.answered() || self.failures().len() == self.candidates().len(),
            },
    {
        let k = self.failures.len();
        if !self.answered && k < self.candidates.len() {
            let config = self.candidates[k].clone();
            let name = display_name(&config, k);
            Some((config, name))
        } else {
            None
        }
    }

    /// Records that the current candidate failed with `error`.
    pub fn record_failure(&mut self, error: &AppError)
        requires
            old(self).wf(),
            !old(self).answered(),
            old(self).failures().len() < old(self).candidates().len(),
        ensures
            final(self).wf(),
            !final(self).answered(),
            final(self).candidates() == old(self).candidates(),
            (final(self).failures(), final(self).answered()) == fallback_step(
                old(self).candidates(),
                (old(self).failures(), old(self).answered()),
                Some(*error),
            ),
            final(self).failures() == old(self).failures().push(
                failure_line(
                    config_name(
                        old(self).candidates()[old(self).failures().len() as int].name@,
                        old(self).failures().len(),
                    ),
                    *error,
                ),
            ),
    {
        let k = self.failures.len();
        let n = self.candidates.len();
        assert(views(self.failures@).len() == self.failures@.len());
        assert(k < n);
        let mut line = display_name(&self.candidates[k], k);
        line.append(NAME_SEPARATOR);
        line.append(error.describe().as_str());
        self.failures.push(line);
        assert(views(self.failures@) =~= views(old(self).failures@).push(
            failure_line(config_name(self.candidates@[k as int].name@, k as nat), *error),
        ));
    }

    /// Records that the current candidate answered: no candidate after it is
    /// tried.
    pub fn record_success(&mut self)
        requires
            old(self).wf(),
            !old(self).answered(),
            old(self).failures().len() < old(self).candidates().len(),
        ensures
            final(self).wf(),
            final(self).answered(),
            final(self).candidates() == old(self).candidates(),
            final(self).failures() == old(self).failures(),
            (final(self).failures(), final(self).answered()) == fallback_step(
                old(self).candidates(),
                (old(self).failures(), old(self).answered()),
                None,
            ),
    {
        self.answered = true;
    }

    /// The error once every candidate has failed: all failure reports, in
    /// order.
    pub fn exhausted_error(&self) -> (res: AppError)
        ensures
            res matches AppError::LLMError(m) && m@ == ALL_FAILED_PREFIX@ + join(
                self.failures(),
                FAILURE_SEPARATOR@,
            ),
    {
        let mut message = ALL_FAILED_PREFIX.to_string();
        message.append(join_strings(&self.failures, FAILURE_SEPARATOR).as_str());
        AppError::LLMError(message)
    }
}


// ---------------------------------------------------------------------------
// Laws
// ---------------------------------------------------------------------------

proof fn lemma_defaults_not_blank()
    ensures
        !blank(DEFAULT_LLM_BASE_URL@),
        !blank(DEFAULT_LLM_MODEL@),
        trim(DEFAULT_LLM_MODEL@) == DEFAULT_LLM_MODEL@,
{
    reveal_strlit("https://api.deepseek.com");
    reveal_strlit("deepseek-chat");
    let b = DEFAULT_LLM_BASE_URL@;
    let m = DEFAULT_LLM_MODEL@;
    assert(!crate::text::is_ws(b.last()) && !crate::text::is_ws(b[0]));
    assert(trim_end(b) == b);
    assert(!crate::text::is_ws(m.last()) && !crate::text::is_ws(m[0]));
    assert(trim_end(m) == m);
}

/// Normalising a configuration twice changes nothing more than once.
pub proof fn law_normalize_config_idempotent(config: LLMConfig, once: LLMConfig, twice: LLMConfig)
    requires
        normalized(config, once),
        normalized(once, twice),
    ensures
        twice.name == once.name,
        twice.api_key == once.api_key,
        twice.enabled == once.enabled,
        twice.base_url@ == once.base_url@,
        twice.model@ == once.model@,
{
    lemma_defaults_not_blank();
}

/// The model of a configuration, normalised twice, is the model normalised
/// once.
pub proof fn law_model_name_idempotent(model: Seq<char>)
    ensures
        model_name(model_name(model)) == model_name(model),
{
    lemma_defaults_not_blank();
    lemma_trim_idempotent(model);
}

/// An answer without any `<think>` tag keeps its text: only the trailing
/// whitespace of its lines goes.
pub proof fn law_strip_without_think(text: Seq<char>)
    requires
        !contains(text, think_open()),
    ensures
        stripped_answer(text) == join(trim_ends(lines(text)), seq!['\n']),
{
    assert(text.subrange(0, text.len() as int) =~= text);
}


proof fn lemma_trim_end_char_prefix(s: Seq<char>, c: char)
    ensures
        trim_end_char(s, c).len() <= s.len(),
        trim_end_char(s, c) == s.subrange(0, trim_end_char(s, c).len() as int),
    decreases s.len(),
{
    if s.len() > 0 && s.last() == c {
        lemma_trim_end_char_prefix(s.drop_last(), c);
        let t = trim_end_char(s.drop_last(), c);
        assert(s.drop_last().subrange(0, t.len() as int) =~= s.subrange(0, t.len() as int));
    } else {
        assert(s.subrange(0, s.len() as int) =~= s);
    }
}

/// An API root is empty or starts with a character that is not whitespace.
proof fn lemma_api_root_start(base_url: Seq<char>)
    ensures
        api_root(base_url).len() > 0 ==> !crate::text::is_ws(api_root(base_url)[0]),
{
    reveal_strlit("https://api.deepseek.com");
    let trimmed = trim(base_url);
    lemma_trim_start_no_ws(trim_end(base_url));
    let base = if trimmed.len() == 0 {
        DEFAULT_LLM_BASE_URL@
    } else {
        trimmed
    };
    assert(base.len() > 0 ==> !crate::text::is_ws(base[0]));
    let base2 = trim_end_char(base, '/');
    lemma_trim_end_char_prefix(base, '/');
    assert(base2.len() > 0 ==> base2[0] == base[0]);
    let r = api_root(base_url);
    if ends_with(base2, CHAT_COMPLETIONS_PATH@) {
        assert(r == base2.subrange(0, base2.len() - CHAT_COMPLETIONS_PATH@.len()));
        assert(r.len() > 0 ==> r[0] == base2[0]);
    } else if ends_with(base2, MODELS_PATH@) {
        assert(r == base2.subrange(0, base2.len() - MODELS_PATH@.len()));
        assert(r.len() > 0 ==> r[0] == base2[0]);
    }
}

/// An endpoint made from an API root gives back that root: normalising the
/// chat or the model-list endpoint of a configured base URL yields the same
/// root as normalising the base URL itself.
pub proof fn law_endpoint_root_stable(base_url: Seq<char>)
    ensures
        api_root(api_root(base_url) + CHAT_COMPLETIONS_PATH@) == api_root(base_url),
        api_root(api_root(base_url) + MODELS_PATH@) == api_root(base_url),
{
    reveal_strlit("/chat/completions");
    reveal_strlit("/models");
    let r = api_root(base_url);
    lemma_api_root_start(base_url);
    let chat = CHAT_COMPLETIONS_PATH@;
    let models = MODELS_PATH@;
    // The chat endpoint.
    let t = r + chat;
    assert(t.last() == 's');
    assert(t[0] == if r.len() > 0 { r[0] } else { '/' });
    lemma_trim_end_fixed(t);
    assert(trim_end_char(t, '/') == t);
    assert(t.subrange(t.len() - chat.len(), t.len() as int) =~= chat);
    assert(without_suffix(t, chat) =~= r);
    // The model-list endpoint.
    let u = r + models;
    assert(u.last() == 's');
    assert(u[0] == if r.len() > 0 { r[0] } else { '/' });
    lemma_trim_end_fixed(u);
    assert(trim_end_char(u, '/') == u);
    if ends_with(u, chat) {
        assert(u.subrange(u.len() - chat.len(), u.len() as int)[10] == chat[10]);
        assert(u[u.len() - 7] == '/');
    }
    assert(u.subrange(u.len() - models.len(), u.len() as int) =~= models);
    assert(without_suffix(u, models) =~= r);
}


/// The failure reports and whether a candidate answered, after a fallback
/// run over `candidates` has had the outcomes `outcomes` (`None` for an
/// answer, `Some(error)` for a failure), one per attempt while attempts are
/// offered, as `ChatFallback::record_success` and
/// `ChatFallback::record_failure` record them; outcomes after the run ended
/// are never asked for.
pub open spec fn fallback_run(candidates: Seq<LLMConfig>, outcomes: Seq<Option<AppError>>) -> (
    Seq<Seq<char>>,
    bool,
)
    decreases outcomes.len(),
{
    if outcomes.len() == 0 {
        (seq![], false)
    } else {
        fallback_step(candidates, fallback_run(candidates, outcomes.drop_last()), outcomes.last())
    }
}

/// One step of a fallback run from `(failure reports, answered)`: an answer
/// ends the run; a failure adds the numbered report of the current
/// candidate; nothing changes once the run has ended.
pub open spec fn fallback_step(
    candidates: Seq<LLMConfig>,
    state: (Seq<Seq<char>>, bool),
    outcome: Option<AppError>,
) -> (Seq<Seq<char>>, bool) {
    let (failures, answered) = state;
    if answered || failures.len() >= candidates.len() {
        state
    } else {
        match outcome {
            None => (failures, true),
            Some(e) => (
                failures.push(
                    failure_line(config_name(candidates[failures.len() as int].name@, failures.len()), e),
                ),
                false,
            ),
        }
    }
}

/// The report of candidate `i` failing with `e`.
pub open spec fn numbered_failure(candidates: Seq<LLMConfig>, i: int, e: AppError) -> Seq<char> {
    failure_line(config_name(candidates[i].name@, i as nat), e)
}

proof fn lemma_fallback_prefix(candidates: Seq<LLMConfig>, outcomes: Seq<Option<AppError>>, k: int)
    requires
        0 <= k <= outcomes.len(),
        k <= candidates.len(),
        forall|i: int| 0 <= i < k ==> (#[trigger] outcomes[i]) is Some,
    ensures
        fallback_run(candidates, outcomes.take(k)).1 == false,
        fallback_run(candidates, outcomes.take(k)).0 == Seq::new(
            k as nat,
            |i: int| numbered_failure(candidates, i, outcomes[i]->0),
        ),
    decreases k,
{
    if k > 0 {
        lemma_fallback_prefix(candidates, outcomes, k - 1);
        assert(outcomes.take(k).drop_last() =~= outcomes.take(k - 1));
        assert(outcomes.take(k).last() == outcomes[k - 1]);
        assert(fallback_run(candidates, outcomes.take(k)).0 =~= Seq::new(
            k as nat,
            |i: int| numbered_failure(candidates, i, outcomes[i]->0),
        ));
    } else {
        assert(outcomes.take(0) =~= Seq::<Option<AppError>>::empty());
        assert(fallback_run(candidates, outcomes.take(0)).0 =~= Seq::new(
            0,
            |i: int| numbered_failure(candidates, i, outcomes[i]->0),
        ));
    }
}

proof fn lemma_fallback_settled(candidates: Seq<LLMConfig>, outcomes: Seq<Option<AppError>>, k: int)
    requires
        0 <= k <= outcomes.len(),
        ({
            let (f, a) = fallback_run(candidates, outcomes.take(k));
            a || f.len() >= candidates.len()
        }),
    ensures
        fallback_run(candidates, outcomes) == fallback_run(candidates, outcomes.take(k)),
    decreases outcomes.len() - k,
{
    if k < outcomes.len() {
        assert(outcomes.take(k + 1).drop_last() =~= outcomes.take(k));
        lemma_fallback_settled(candidates, outcomes, k + 1);
    } else {
        assert(outcomes.take(k) =~= outcomes);
    }
}

/// A fallback run contacts the usable configurations in order and stops at
/// the first that answers: when candidate `k` answers after the ones before
/// it failed, the run ends answered, with one failure report per earlier
/// candidate, numbered by its position, and no later candidate is reached.
pub proof fn law_fallback_stops_at_first_answer(
    candidates: Seq<LLMConfig>,
    outcomes: Seq<Option<AppError>>,
    k: int,
)
    requires
        0 <= k < candidates.len(),
        k < outcomes.len(),
        outcomes[k] is None,
        forall|i: int| 0 <= i < k ==> (#[trigger] outcomes[i]) is Some,
    ensures
        fallback_run(candidates, outcomes) == (
            Seq::new(k as nat, |i: int| numbered_failure(candidates, i, outcomes[i]->0)),
            true,
        ),
{
    lemma_fallback_prefix(candidates, outcomes, k);
    assert(outcomes.take(k + 1).drop_last() =~= outcomes.take(k));
    assert(outcomes.take(k + 1).last() == outcomes[k]);
    lemma_fallback_settled(candidates, outcomes, k + 1);
}

/// When every usable configuration fails, the run ends unanswered with one
/// failure report per candidate, in order, numbered by position; the error
/// then lists them all.
pub proof fn law_fallback_all_fail(candidates: Seq<LLMConfig>, outcomes: Seq<Option<AppError>>)
    requires
        candidates.len() <= outcomes.len(),
        forall|i: int| 0 <= i < candidates.len() ==> (#[trigger] outcomes[i]) is Some,
    ensures
        fallback_run(candidates, outcomes) == (
            Seq::new(candidates.len(), |i: int| numbered_failure(candidates, i, outcomes[i]->0)),
            false,
        ),
{
    lemma_fallback_prefix(candidates, outcomes, candidates.len() as int);
    lemma_fallback_settled(candidates, outcomes, candidates.len() as int);
}

/// The reasoning text of a JSON object is its first `text` member when that
/// is a string, whatever other members it has.
pub proof fn law_object_reasoning_is_its_text(entries: Vec<(String, JsonValue)>, k: int, t: String)
    requires
        0 <= k < entries@.len(),
        entries@[k].0@ == seq!['t', 'e', 'x', 't'],
        entries@[k].1 == JsonValue::String(t),
        forall|j: int| 0 <= j < k ==> entries@[j].0@ != seq!['t', 'e', 'x', 't'],
    ensures
        reasoning_text(JsonValue::Object(entries)) == t@,
{
    reveal_strlit("text");
    assert(KEY_TEXT@ == seq!['t', 'e', 'x', 't']);
    crate::json::lemma_obj_index_bounds(entries@, KEY_TEXT@);
    match obj_index(entries@, KEY_TEXT@) {
        Some(i) => {
            if i < k {
                assert(entries@[i].0@ != seq!['t', 'e', 'x', 't']);
            } else if i > k {
                assert(entries@[k].0@ != KEY_TEXT@);
            }
        },
        None => {
            assert(entries@[k].0@ != KEY_TEXT@);
        },
    }
}

/// The configurations a fallback tries are exactly those that are enabled
/// and whose API key is not blank once trimmed (whitespace around a key
/// never excludes it), in their given order; `ChatFallback::new` refuses
/// exactly when there is none.
pub proof fn law_usable_configs_are_tried(configs: Seq<LLMConfig>)
    ensures
        forall|i: int|
            0 <= i < configs.len() ==> (usable_positions(configs).contains(i) <==> (
            configs[i].enabled && !blank(#[trigger] configs[i].api_key@))),
        forall|a: int, b: int|
            0 <= a < b < usable_positions(configs).len() ==> #[trigger] usable_positions(configs)[a]
                < #[trigger] usable_positions(configs)[b],
        usable_positions(configs).len() > 0 <==> exists|i: int|
            0 <= i < configs.len() && configs[i].enabled && !blank(#[trigger] configs[i].api_key@),
    decreases configs.len(),
{
    lemma_usable_positions(configs);
    let ps = usable_positions(configs);
    assert forall|i: int|
        0 <= i < configs.len() && #[trigger] ps.contains(i) implies configs[i].enabled && !blank(
        configs[i].api_key@,
    ) by {
        let j = choose|j: int| 0 <= j < ps.len() && ps[j] == i;
        assert(usable(configs[ps[j]]));
    }
    if ps.len() > 0 {
        assert(usable(configs[ps[0]]));
        assert(configs[ps[0]].enabled && !blank(configs[ps[0]].api_key@));
    }
    if configs.len() > 0 {
        let rest = configs.drop_last();
        law_usable_configs_are_tried(rest);
        lemma_usable_positions(rest);
        let pr = usable_positions(rest);
        assert forall|a: int, b: int| 0 <= a < b < ps.len() implies #[trigger] ps[a] < #[trigger] ps[b] by {
            if usable(configs.last()) {
                assert(ps == pr.push(configs.len() - 1));
                if b < pr.len() {
                    assert(pr[a] < pr[b]);
                } else {
                    assert(0 <= pr[a] < rest.len());
                }
            } else {
                assert(pr[a] < pr[b]);
            }
        }
    }
}

/// A JSON object without a `text` member takes its reasoning from its first
/// `content` member: that member's reasoning text, or nothing when that is
/// blank.
pub proof fn law_object_reasoning_falls_back_to_content(entries: Vec<(String, JsonValue)>, k: int)
    requires
        0 <= k < entries@.len(),
        entries@[k].0@ == seq!['c', 'o', 'n', 't', 'e', 'n', 't'],
        forall|j: int| 0 <= j < k ==> entries@[j].0@ != seq!['c', 'o', 'n', 't', 'e', 'n', 't'],
        forall|j: int| 0 <= j < entries@.len() ==> entries@[j].0@ != seq!['t', 'e', 'x', 't'],
    ensures
        reasoning_text(JsonValue::Object(entries)) == if blank(reasoning_text(entries@[k].1)) {
            Seq::<char>::empty()
        } else {
            reasoning_text(entries@[k].1)
        },
{
    reveal_strlit("text");
    reveal_strlit("content");
    assert(KEY_TEXT@ == seq!['t', 'e', 'x', 't']);
    assert(KEY_CONTENT@ == seq!['c', 'o', 'n', 't', 'e', 'n', 't']);
    crate::json::lemma_obj_index_bounds(entries@, KEY_TEXT@);
    crate::json::lemma_obj_index_bounds(entries@, KEY_CONTENT@);
    match obj_index(entries@, KEY_TEXT@) {
        Some(i) => {
            assert(entries@[i].0@ != seq!['t', 'e', 'x', 't']);
        },
        None => {},
    }
    match obj_index(entries@, KEY_CONTENT@) {
        Some(i) => {
            if i < k {
                assert(entries@[i].0@ != seq!['c', 'o', 'n', 't', 'e', 'n', 't']);
            } else if i > k {
                assert(entries@[k].0@ != KEY_CONTENT@);
            }
        },
        None => {
            assert(entries@[k].0@ != KEY_CONTENT@);
        },
    }
}

} // verus!
