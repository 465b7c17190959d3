//! Lecture-subtitle processing for the course assistant: compressing timed
//! subtitle items into sentences, splitting long transcripts into chunks,
//! and the prompts and progress reports of a summary task.
use vstd::prelude::*;
use vstd::string::*;
use crate::error::AppError;
use crate::model::CanvasVideoSubTitle;
use crate::text::{
    byte_len, chars_of, join, join_strings, line_bounds, lines, push_char, string_of_range, trim,
    trim_bounds, views, lemma_byte_len_concat, lemma_byte_len_push, lemma_join_push,
};
use crate::text::{blank, dec, decimal, is_blank, lemma_byte_len_char};
use crate::time::{format_time, time_text};

verus! {

/// The client's own logic; the transport lives with the caller.
pub struct Client {}

impl Client {
    pub fn new() -> (res: Client) {
        Client {}
    }
}

/// The length, in characters, at which a sentence is closed in any case.
pub const SUBTITLE_FORCE_WRAP_CHARS: usize = 120;

/// A sentence is complete once it ends with sentence punctuation (ASCII or
/// full-width) or has reached `SUBTITLE_FORCE_WRAP_CHARS` characters.
pub open spec fn closes_sentence(s: Seq<char>) -> bool {
    ||| s.len() >= SUBTITLE_FORCE_WRAP_CHARS
    ||| s.len() > 0 && {
        let c = s.last();
        c == '.' || c == '。' || c == '!' || c == '！' || c == '?' || c == '？' || c == ';'
            || c == '；'
    }
}

/// One compressed line: `[HH:MM:SS,mmm] sentence`.
pub open spec fn subtitle_entry(start: u64, sentence: Seq<char>) -> Seq<char> {
    seq!['['] + time_text(start as nat) + seq![']', ' '] + trim(sentence)
}

/// After the first items: the finished lines, the sentence being gathered,
/// and the start time of that sentence (taken from the first item after the
/// previous sentence closed, even one without text).
pub open spec fn compress_state(items: Seq<CanvasVideoSubTitle>) -> (
    Seq<Seq<char>>,
    Seq<char>,
    Option<u64>,
)
    decreases items.len(),
{
    if items.len() == 0 {
        (seq![], seq![], None)
    } else {
        let (lines, sentence, start) = compress_state(items.drop_last());
        let item = items.last();
        let start1 = if start is None {
            Some(item.bg)
        } else {
            start
        };
        let content = trim(item.res@);
        if content.len() == 0 {
            (lines, sentence, start1)
        } else {
            let sentence1 = sentence + content;
            if closes_sentence(sentence1) {
                (lines.push(subtitle_entry(start1.unwrap(), sentence1)), seq![], None)
            } else {
                (lines, sentence1, start1)
            }
        }
    }
}

/// The compressed lines of a subtitle, the unfinished last sentence included.
pub open spec fn compressed_lines(items: Seq<CanvasVideoSubTitle>) -> Seq<Seq<char>> {
    let (lines, sentence, start) = compress_state(items);
    if sentence.len() > 0 {
        lines.push(subtitle_entry(start.unwrap(), sentence))
    } else {
        lines
    }
}

/// The compressed subtitle: its lines joined by newlines.
pub open spec fn compressed_subtitle(items: Seq<CanvasVideoSubTitle>) -> Seq<char> {
    join(compressed_lines(items), seq!['\n'])
}

pub proof fn lemma_compress_state_start(items: Seq<CanvasVideoSubTitle>)
    ensures
        compress_state(items).1.len() > 0 ==> compress_state(items).2 is Some,
    decreases items.len(),
{
    if items.len() > 0 {
        lemma_compress_state_start(items.drop_last());
    }
}

/// Whether `s` closes a sentence.
fn sentence_closed(s: &Vec<char>) -> (res: bool)
    ensures
        res == closes_sentence(s@),
{
    if s.len() >= SUBTITLE_FORCE_WRAP_CHARS {
        return true;
    }
    if s.len() == 0 {
        return false;
    }
    let c = s[s.len() - 1];
    c == '.' || c == '。' || c == '!' || c == '！' || c == '?' || c == '？' || c == ';' || c == '；'
}

/// One compressed line: `[HH:MM:SS,mmm] sentence`.
fn entry_line(start: u64, sentence: &Vec<char>) -> (res: String)
    ensures
        res@ == subtitle_entry(start, sentence@),
{
    let mut res = String::new();
    push_char(&mut res, '[');
    res.append(format_time(start).as_str());
    push_char(&mut res, ']');
    push_char(&mut res, ' ');
    let (a, b) = trim_bounds(sentence, 0, sentence.len());
    assert(sentence@.subrange(0, sentence@.len() as int) =~= sentence@);
    res.append(string_of_range(sentence, a, b).as_str());
    assert(res@ =~= subtitle_entry(start, sentence@));
    res
}

impl Client {
    /// Gathers the subtitle items into sentences, one line per sentence,
    /// each led by the start time of its first item.
    pub fn compress_subtitle(&self, subtitle: &[CanvasVideoSubTitle]) -> (res: Result<
        String,
        AppError,
    >)
        ensures
            res matches Ok(s) && s@ == compressed_subtitle(subtitle@),
    {
        let mut result: Vec<String> = Vec::new();
        let mut current: Vec<char> = Vec::new();
        let mut start: Option<u64> = None;
        let mut i: usize = 0;
        while i < subtitle.len()
            invariant
                i <= subtitle@.len(),
                views(result@) == compress_state(subtitle@.take(i as int)).0,
                current@ == compress_state(subtitle@.take(i as int)).1,
                start == compress_state(subtitle@.take(i as int)).2,
                current@.len() > 0 ==> start is Some,
            decreases subtitle@.len() - i,
        {
            let ghost prefix = subtitle@.take(i + 1);
            assert(prefix.drop_last() =~= subtitle@.take(i as int));
            assert(prefix.last() == subtitle@[i as int]);
            let item = &subtitle[i];
            if start.is_none() {
                start = Some(item.bg);
            }
            let content = chars_of(item.res.as_str());
            let (a, b) = trim_bounds(&content, 0, content.len());
            assert(content@.subrange(0, content@.len() as int) =~= content@);
            if a < b {
                let ghost before = current@;
                let mut k = a;
                while k < b
                    invariant
                        a <= k <= b <= content@.len(),
                        current@ == before + content@.subrange(a as int, k as int),
                    decreases b - k,
                {
                    current.push(content[k]);
                    assert(content@.subrange(a as int, k + 1) =~= content@.subrange(a as int, k as int).push(content@[k as int]));
                    k += 1;
                }
                if sentence_closed(&current) {
                    let line = entry_line(start.unwrap(), &current);
                    result.push(line);
                    assert(views(result@) =~= compress_state(prefix).0);
                    current = Vec::new();
                    start = None;
                }
            }
            i += 1;
        }
        assert(subtitle@.take(subtitle@.len() as int) =~= subtitle@);
        if current.len() > 0 {
            let line = entry_line(start.unwrap(), &current);
            result.push(line);
            assert(views(result@) =~= compressed_lines(subtitle@));
        } else {
            assert(views(result@) == compressed_lines(subtitle@));
        }
        proof {
            reveal_strlit("\n");
        }
        let joined = join_strings(&result, "\n");
        assert("\n"@ =~= seq!['\n']);
        assert(joined@ == join(compressed_lines(subtitle@), seq!['\n']));
        Ok(joined)
    }
}

/// The pieces of `ss`, one after another.
pub open spec fn flatten(ss: Seq<Seq<char>>) -> Seq<char>
    decreases ss.len(),
{
    if ss.len() == 0 {
        seq![]
    } else {
        flatten(ss.drop_last()) + ss.last()
    }
}

/// The text of each subtitle item, trimmed.
pub open spec fn trimmed_texts(items: Seq<CanvasVideoSubTitle>) -> Seq<Seq<char>> {
    Seq::new(items.len(), |i: int| trim(items[i].res@))
}

/// The sentences of (start, sentence) pairs.
pub open spec fn sentences_of(parts: Seq<(u64, Seq<char>)>) -> Seq<Seq<char>> {
    Seq::new(parts.len(), |i: int| parts[i].1)
}

proof fn lemma_compress_parts(items: Seq<CanvasVideoSubTitle>) -> (parts: Seq<(u64, Seq<char>)>)
    ensures
        parts.len() == compress_state(items).0.len(),
        forall|i: int|
            0 <= i < parts.len() ==> compress_state(items).0[i] == subtitle_entry(
                (#[trigger] parts[i]).0,
                parts[i].1,
            ),
        flatten(sentences_of(parts)) + compress_state(items).1 == flatten(trimmed_texts(items)),
    decreases items.len(),
{
    if items.len() == 0 {
        assert(flatten(sentences_of(seq![])) =~= seq![]);
        assert(trimmed_texts(items) =~= seq![]);
        seq![]
    } else {
        let rest = items.drop_last();
        let parts = lemma_compress_parts(rest);
        let (lines, sentence, start) = compress_state(rest);
        let item = items.last();
        let start1 = if start is None {
            Some(item.bg)
        } else {
            start
        };
        let content = trim(item.res@);
        assert(trimmed_texts(items).drop_last() =~= trimmed_texts(rest));
        assert(trimmed_texts(items).last() == content);
        if content.len() == 0 {
            assert(flatten(trimmed_texts(items)) =~= flatten(trimmed_texts(rest)) + content);
            parts
        } else {
            let sentence1 = sentence + content;
            if closes_sentence(sentence1) {
                let parts1 = parts.push((start1.unwrap(), sentence1));
                assert(sentences_of(parts1).drop_last() =~= sentences_of(parts));
                assert(flatten(sentences_of(parts1)) + compress_state(items).1 =~= flatten(
                    trimmed_texts(items),
                ));
                assert forall|i: int|
                    0 <= i < parts1.len() implies compress_state(items).0[i] == subtitle_entry(
                    (#[trigger] parts1[i]).0,
                    parts1[i].1,
                ) by {
                    if i < parts.len() {
                        assert(parts1[i] == parts[i]);
                    }
                }
                parts1
            } else {
                assert(flatten(sentences_of(parts)) + compress_state(items).1 =~= flatten(
                    trimmed_texts(items),
                ));
                parts
            }
        }
    }
}

/// Compression loses and reorders no text: each line is a start time and a
/// sentence, and the sentences, one after another, are the trimmed item
/// texts, one after another.
pub proof fn law_compress_keeps_text(items: Seq<CanvasVideoSubTitle>)
    ensures
        exists|parts: Seq<(u64, Seq<char>)>|
            {
                &&& parts.len() == compressed_lines(items).len()
                &&& forall|i: int|
                    0 <= i < parts.len() ==> compressed_lines(items)[i] == subtitle_entry(
                        (#[trigger] parts[i]).0,
                        parts[i].1,
                    )
                &&& flatten(sentences_of(parts)) == flatten(trimmed_texts(items))
            },
{
    let parts = lemma_compress_parts(items);
    let (lines, sentence, start) = compress_state(items);
    lemma_compress_state_start(items);
    if sentence.len() > 0 {
        let parts1 = parts.push((start.unwrap(), sentence));
        assert(sentences_of(parts1).drop_last() =~= sentences_of(parts));
        assert forall|i: int|
            0 <= i < parts1.len() implies compressed_lines(items)[i] == subtitle_entry(
            (#[trigger] parts1[i]).0,
            parts1[i].1,
        ) by {
            if i < parts.len() {
                assert(parts1[i] == parts[i]);
            }
        }
        assert(flatten(sentences_of(parts1)) == flatten(trimmed_texts(items)));
    } else {
        assert(flatten(sentences_of(parts)) + sentence =~= flatten(sentences_of(parts)));
        assert(flatten(sentences_of(parts)) == flatten(trimmed_texts(items)));
    }
}

proof fn lemma_compress_state_concat(p: Seq<CanvasVideoSubTitle>, ys: Seq<CanvasVideoSubTitle>)
    requires
        compress_state(p).1.len() == 0,
        compress_state(p).2 is None,
    ensures
        compress_state(p + ys) == (
            compress_state(p).0 + compress_state(ys).0,
            compress_state(ys).1,
            compress_state(ys).2,
        ),
    decreases ys.len(),
{
    if ys.len() == 0 {
        assert(p + ys =~= p);
        assert(compress_state(p).0 + compress_state(ys).0 =~= compress_state(p).0);
    } else {
        lemma_compress_state_concat(p, ys.drop_last());
        assert((p + ys).drop_last() =~= p + ys.drop_last());
        assert((p + ys).last() == ys.last());
        let l0 = compress_state(p).0;
        let ly = compress_state(ys.drop_last()).0;
        let item = ys.last();
        let (_, sentence, start) = compress_state(ys.drop_last());
        let start1 = if start is None {
            Some(item.bg)
        } else {
            start
        };
        let sentence1 = sentence + trim(item.res@);
        assert((l0 + ly).push(subtitle_entry(start1.unwrap(), sentence1)) =~= l0 + ly.push(
            subtitle_entry(start1.unwrap(), sentence1),
        ));
    }
}

/// A sentence ends at sentence punctuation: when an item's trimmed text
/// ends with one of `.` `。` `!` `！` `?` `？` `;` `；`, or the sentence
/// gathered with it reaches `SUBTITLE_FORCE_WRAP_CHARS` characters, the
/// line being gathered ends there, and what follows is compressed on its
/// own, as if the subtitle began with it (its first line stamped with the
/// start time of the first item after the mark).
pub proof fn law_sentence_ends_at_punctuation(
    before: Seq<CanvasVideoSubTitle>,
    item: CanvasVideoSubTitle,
    after: Seq<CanvasVideoSubTitle>,
)
    requires
        trim(item.res@).len() > 0,
        ({
            let c = trim(item.res@).last();
            c == '.' || c == '。' || c == '!' || c == '！' || c == '?' || c == '？' || c == ';' || c
                == '；'
        }) || (compress_state(before).1 + trim(item.res@)).len() >= 120,
    ensures
        compress_state(before.push(item)).1.len() == 0,
        compressed_lines(before.push(item) + after) == compressed_lines(before.push(item))
            + compressed_lines(after),
{
    let p = before.push(item);
    assert(p.drop_last() =~= before);
    let sentence = compress_state(before).1;
    let content = trim(item.res@);
    assert((sentence + content).last() == content.last());
    assert(closes_sentence(sentence + content));
    lemma_compress_state_concat(p, after);
    let (ly, sy, st) = compress_state(after);
    let l0 = compress_state(p).0;
    if sy.len() > 0 {
        assert((l0 + ly).push(subtitle_entry(st.unwrap(), sy)) =~= l0 + ly.push(
            subtitle_entry(st.unwrap(), sy),
        ));
    }
}

proof fn lemma_compress_first_start(items: Seq<CanvasVideoSubTitle>)
    requires
        items.len() > 0,
    ensures
        compress_state(items).0.len() == 0 ==> compress_state(items).2 == Some(items[0].bg),
        compress_state(items).0.len() > 0 ==> exists|sentence: Seq<char>|
            compress_state(items).0[0] == subtitle_entry(items[0].bg, sentence),
    decreases items.len(),
{
    if items.len() > 1 {
        let rest = items.drop_last();
        lemma_compress_first_start(rest);
        assert(rest[0] == items[0]);
        let (lines, sentence, start) = compress_state(rest);
        let item = items.last();
        let content = trim(item.res@);
        let sentence1 = sentence + content;
        if lines.len() > 0 {
            let w = choose|w: Seq<char>| lines[0] == subtitle_entry(items[0].bg, w);
            if content.len() > 0 && closes_sentence(sentence1) {
                let start1 = if start is None { Some(item.bg) } else { start };
                assert(lines.push(subtitle_entry(start1.unwrap(), sentence1))[0] == lines[0]);
            }
            assert(compress_state(items).0[0] == subtitle_entry(items[0].bg, w));
        } else if content.len() > 0 && closes_sentence(sentence1) {
            assert(compress_state(items).0[0] == subtitle_entry(items[0].bg, sentence1));
        }
    } else {
        let item = items.last();
        let content = trim(item.res@);
        assert(compress_state(items.drop_last()) == (Seq::<Seq<char>>::empty(), Seq::<char>::empty(), Option::<u64>::None));
        assert(items.last() == items[0]);
        if content.len() > 0 && closes_sentence(Seq::<char>::empty() + content) {
            assert(compress_state(items).0[0] == subtitle_entry(items[0].bg, Seq::<char>::empty() + content));
        }
    }
}

/// The first compressed line is stamped with the start time of the first
/// subtitle item, even when that item has no text.
pub proof fn law_first_line_starts_at_first_item(items: Seq<CanvasVideoSubTitle>)
    requires
        compressed_lines(items).len() > 0,
    ensures
        exists|sentence: Seq<char>| compressed_lines(items)[0] == subtitle_entry(items[0].bg, sentence),
{
    if items.len() == 0 {
        assert(compressed_lines(items).len() == 0);
    } else {
        lemma_compress_first_start(items);
        let (lines, sentence, start) = compress_state(items);
        if lines.len() > 0 {
            let w = choose|w: Seq<char>| lines[0] == subtitle_entry(items[0].bg, w);
            if sentence.len() > 0 {
                assert(lines.push(subtitle_entry(start.unwrap(), sentence))[0] == lines[0]);
            }
            assert(compressed_lines(items)[0] == subtitle_entry(items[0].bg, w));
        } else {
            assert(sentence.len() > 0);
            assert(compressed_lines(items)[0] == subtitle_entry(items[0].bg, sentence));
        }
    }
}

// ---------------------------------------------------------------------------
// Transcript chunks
// ---------------------------------------------------------------------------

/// The largest number of bytes a transcript chunk may take.
pub const SUBTITLE_CHUNK_MAX_CHARS: usize = 24000;

/// After the first lines: the finished chunks and the chunk being filled.
/// Each non-blank line, trimmed, joins the current chunk after a newline,
/// unless that would take the chunk over `max` bytes: then the current chunk
/// is closed and the line starts the next one.
pub open spec fn chunk_state(ls: Seq<Seq<char>>, max: nat) -> (Seq<Seq<char>>, Seq<char>)
    decreases ls.len(),
{
    if ls.len() == 0 {
        (seq![], seq![])
    } else {
        let (chunks, cur) = chunk_state(ls.drop_last(), max);
        let line = trim(ls.last());
        if line.len() == 0 {
            (chunks, cur)
        } else if cur.len() > 0 && byte_len(cur) + byte_len(line) + 1 > max {
            (chunks.push(cur), line)
        } else if cur.len() > 0 {
            (chunks, cur.push('\n') + line)
        } else {
            (chunks, line)
        }
    }
}

/// The finished chunks with the current one, if it holds anything.
pub open spec fn flush_chunks(state: (Seq<Seq<char>>, Seq<char>)) -> Seq<Seq<char>> {
    if state.1.len() > 0 {
        state.0.push(state.1)
    } else {
        state.0
    }
}

/// The chunks of a transcript, for a bound of `max` bytes per chunk.
pub open spec fn subtitle_chunks(s: Seq<char>, max: nat) -> Seq<Seq<char>> {
    flush_chunks(chunk_state(lines(s), max))
}

/// The non-blank lines of `ls`, trimmed.
pub open spec fn kept_lines(ls: Seq<Seq<char>>) -> Seq<Seq<char>>
    decreases ls.len(),
{
    if ls.len() == 0 {
        seq![]
    } else if trim(ls.last()).len() == 0 {
        kept_lines(ls.drop_last())
    } else {
        kept_lines(ls.drop_last()).push(trim(ls.last()))
    }
}

/// The smaller of the byte length of `v[lo..hi]` and `cap`.
fn capped_byte_len(v: &Vec<char>, lo: usize, hi: usize, cap: u128) -> (n: u128)
    requires
        lo <= hi <= v.len(),
        1 <= cap <= u64::MAX as u128 + 1,
    ensures
        n == if byte_len(v@.subrange(lo as int, hi as int)) < cap {
            byte_len(v@.subrange(lo as int, hi as int)) as int
        } else {
            cap as int
        },
{
    let mut n: u128 = 0;
    let mut i = lo;
    assert(v@.subrange(lo as int, lo as int) =~= Seq::<char>::empty());
    while i < hi
        invariant
            lo <= i <= hi <= v.len(),
            n == byte_len(v@.subrange(lo as int, i as int)),
            n < cap,
            cap <= u64::MAX as u128 + 1,
        decreases hi - i,
    {
        proof {
            assert(v@.subrange(lo as int, i + 1) =~= v@.subrange(lo as int, i as int).push(v@[i as int]));
            lemma_byte_len_push(v@.subrange(lo as int, i as int), v@[i as int]);
            assert(v@.subrange(lo as int, hi as int) =~= v@.subrange(lo as int, i + 1) + v@.subrange(i + 1, hi as int));
            lemma_byte_len_concat(v@.subrange(lo as int, i + 1), v@.subrange(i + 1, hi as int));
        }
        n = n + crate::text::utf8_width(v[i]) as u128;
        if n >= cap {
            return cap;
        }
        i += 1;
    }
    if n >= cap {
        return cap;
    }
    n
}

impl Client {
    /// Splits a transcript into chunks of at most `max_chars` bytes, line by
    /// line; a single line longer than that forms a chunk of its own.
    pub fn split_subtitle_chunks(&self, subtitle: &str, max_chars: usize) -> (res: Vec<String>)
        ensures
            views(res@) == subtitle_chunks(subtitle@, max_chars as nat),
            res@.len() <= (usize::MAX as nat + 1) / 2,
    {
        let v = chars_of(subtitle);
        let bounds = line_bounds(&v);
        let ghost ls = lines(v@);
        let ghost max = max_chars as nat;
        let cap: u128 = max_chars as u128 + 1;
        let mut chunks: Vec<String> = Vec::new();
        let mut current = String::new();
        let mut current_filled = false;
        let mut current_cap: u128 = 0;
        let mut k: usize = 0;
        let ghost mut kept: nat = 0;
        while k < bounds.len()
            invariant
                k <= bounds@.len() == ls.len(),
                forall|i: int, j: int|
                    #![trigger bounds@[i], bounds@[j]]
                    0 <= i < j < bounds@.len() ==> bounds@[i].1 < bounds@[j].0,
                chunks@.len() + (if current_filled { 1nat } else { 0nat }) <= kept,
                2 * kept <= if k == 0 { 0 } else { bounds@[k - 1].1 + 1 },
                ls == lines(v@),
                max == max_chars as nat,
                cap == max + 1,
                forall|i: int|
                    #![trigger bounds@[i]]
                    0 <= i < bounds@.len() ==> {
                        &&& bounds@[i].0 <= bounds@[i].1 <= v@.len()
                        &&& v@.subrange(bounds@[i].0 as int, bounds@[i].1 as int) == ls[i]
                    },
                views(chunks@) == chunk_state(ls.take(k as int), max).0,
                current@ == chunk_state(ls.take(k as int), max).1,
                current_filled == (current@.len() > 0),
                current_cap == if byte_len(current@) < cap {
                    byte_len(current@) as int
                } else {
                    cap as int
                },
            decreases bounds@.len() - k,
        {
            let ghost prefix = ls.take(k + 1);
            assert(prefix.drop_last() =~= ls.take(k as int));
            assert(prefix.last() == ls[k as int]);
            let (lo, hi) = bounds[k];
            let (a, b) = trim_bounds(&v, lo, hi);
            if k > 0 {
                assert(bounds@[k - 1].1 < bounds@[k as int].0);
            }
            if a < b {
                proof {
                    kept = kept + 1;
                }
                let line_cap = capped_byte_len(&v, a, b, cap);
                let line = string_of_range(&v, a, b);
                if current_filled && current_cap + line_cap + 1 > max_chars as u128 {
                    chunks.push(current);
                    current = line;
                    current_cap = line_cap;
                } else if current_filled {
                    let ghost old_current = current@;
                    push_char(&mut current, '\n');
                    current.append(line.as_str());
                    proof {
                        lemma_byte_len_push(old_current, '\n');
                        lemma_byte_len_concat(old_current.push('\n'), line@);
                        crate::text::lemma_byte_len_char('\n');
                    }
                    current_cap = current_cap + 1 + line_cap;
                } else {
                    current = line;
                    current_filled = true;
                    current_cap = line_cap;
                }
            }
            k += 1;
        }
        assert(ls.take(ls.len() as int) =~= ls);
        if k > 0 {
            assert(bounds@[k - 1].1 <= v@.len());
        }
        if current_filled {
            chunks.push(current);
        }
        chunks
    }
}


proof fn lemma_chunk_state(ls: Seq<Seq<char>>, max: nat)
    ensures
        ({
            let (chunks, cur) = chunk_state(ls, max);
            &&& join(flush_chunks(chunk_state(ls, max)), seq!['\n']) == join(kept_lines(ls), seq!['\n'])
            &&& cur.len() == 0 ==> chunks.len() == 0 && kept_lines(ls).len() == 0
            &&& forall|i: int|
                0 <= i < chunks.len() ==> (#[trigger] chunks[i]).len() > 0 && (byte_len(chunks[i])
                    <= max || kept_lines(ls).contains(chunks[i]))
            &&& cur.len() > 0 ==> (byte_len(cur) <= max || kept_lines(ls).contains(cur))
        }),
    decreases ls.len(),
{
    if ls.len() > 0 {
        let rest = ls.drop_last();
        lemma_chunk_state(rest, max);
        let (chunks, cur) = chunk_state(rest, max);
        let kept = kept_lines(rest);
        let line = trim(ls.last());
        let nl = seq!['\n'];
        if line.len() > 0 {
            assert(kept_lines(ls) == kept.push(line));
            lemma_join_push(kept, nl, line);
            assert forall|x: Seq<char>| kept.contains(x) implies kept.push(line).contains(x) by {
                let j = choose|j: int| 0 <= j < kept.len() && kept[j] == x;
                assert(kept.push(line)[j] == x);
            }
            assert(kept.push(line)[kept.len() as int] == line);
            if cur.len() > 0 && byte_len(cur) + byte_len(line) + 1 > max {
                lemma_join_push(chunks, nl, cur);
                lemma_join_push(chunks.push(cur), nl, line);
                assert(flush_chunks(chunk_state(ls, max)) == chunks.push(cur).push(line));
            } else if cur.len() > 0 {
                lemma_join_push(chunks, nl, cur);
                lemma_join_push(chunks, nl, cur.push('\n') + line);
                assert(flush_chunks(chunk_state(ls, max)) == chunks.push(cur.push('\n') + line));
                if chunks.len() == 0 {
                    assert(join(kept, nl) == cur);
                } else {
                    assert(join(kept, nl) == join(chunks, nl) + nl + cur);
                }
                assert(join(chunks.push(cur.push('\n') + line), nl) =~= join(kept, nl) + nl + line);
                lemma_byte_len_push(cur, '\n');
                lemma_byte_len_concat(cur.push('\n'), line);
                lemma_byte_len_char('\n');
            } else {
                assert(join(seq![line], nl) == line);
                assert(flush_chunks(chunk_state(ls, max)) =~= seq![line]);
                assert(kept.push(line) =~= seq![line]);
            }
            let (chunks1, cur1) = chunk_state(ls, max);
            assert forall|i: int|
                0 <= i < chunks1.len() implies (#[trigger] chunks1[i]).len() > 0 && (byte_len(chunks1[i])
                    <= max || kept_lines(ls).contains(chunks1[i])) by {
                if i < chunks.len() {
                    assert(chunks1[i] == chunks[i]);
                }
            }
        }
    }
}

/// Chunking loses and reorders nothing: the chunks joined by newlines are
/// the non-blank lines of the transcript, trimmed, joined by newlines.
pub proof fn law_chunks_keep_lines(s: Seq<char>, max: nat)
    ensures
        join(subtitle_chunks(s, max), seq!['\n']) == join(kept_lines(lines(s)), seq!['\n']),
{
    lemma_chunk_state(lines(s), max);
}

/// No chunk is empty, and a chunk exceeds the byte bound only when it is a
/// single line that exceeds it by itself.
pub proof fn law_chunks_bounded(s: Seq<char>, max: nat)
    ensures
        forall|i: int|
            0 <= i < subtitle_chunks(s, max).len() ==> {
                let c = #[trigger] subtitle_chunks(s, max)[i];
                &&& c.len() > 0
                &&& byte_len(c) <= max || kept_lines(lines(s)).contains(c)
            },
{
    lemma_chunk_state(lines(s), max);
    let (chunks, cur) = chunk_state(lines(s), max);
    assert forall|i: int| 0 <= i < subtitle_chunks(s, max).len() implies {
        let c = #[trigger] subtitle_chunks(s, max)[i];
        &&& c.len() > 0
        &&& byte_len(c) <= max || kept_lines(lines(s)).contains(c)
    } by {
        if i < chunks.len() {
            assert(subtitle_chunks(s, max)[i] == chunks[i]);
        }
    }
}

/// The text of `c` before its first newline (all of it when it has none).
pub open spec fn first_line(c: Seq<char>) -> Seq<char>
    decreases c.len(),
{
    if c.len() == 0 {
        c
    } else if c[0] == '\n' {
        seq![]
    } else {
        seq![c[0]] + first_line(c.drop_first())
    }
}

/// `s` holds no newline.
pub open spec fn no_newline(s: Seq<char>) -> bool {
    forall|i: int| 0 <= i < s.len() ==> s[i] != '\n'
}

proof fn lemma_first_line_after(a: Seq<char>, b: Seq<char>)
    ensures
        first_line(a.push('\n') + b) == first_line(a),
    decreases a.len(),
{
    if a.len() > 0 && a[0] != '\n' {
        assert((a.push('\n') + b).drop_first() =~= a.drop_first().push('\n') + b);
        lemma_first_line_after(a.drop_first(), b);
    }
}

proof fn lemma_first_line_whole(a: Seq<char>)
    requires
        no_newline(a),
    ensures
        first_line(a) == a,
    decreases a.len(),
{
    if a.len() > 0 {
        assert(no_newline(a.drop_first()));
        lemma_first_line_whole(a.drop_first());
        assert(seq![a[0]] + a.drop_first() =~= a);
    }
}

proof fn lemma_trim_no_newline(s: Seq<char>)
    requires
        no_newline(s),
    ensures
        no_newline(trim(s)),
{
    lemma_trim_end_no_newline(s);
    lemma_trim_start_no_newline(crate::text::trim_end(s));
}

proof fn lemma_trim_end_no_newline(s: Seq<char>)
    requires
        no_newline(s),
    ensures
        no_newline(crate::text::trim_end(s)),
    decreases s.len(),
{
    if s.len() > 0 {
        assert(no_newline(s.drop_last()));
        lemma_trim_end_no_newline(s.drop_last());
    }
}

proof fn lemma_trim_start_no_newline(s: Seq<char>)
    requires
        no_newline(s),
    ensures
        no_newline(crate::text::trim_start(s)),
    decreases s.len(),
{
    if s.len() > 0 {
        assert(no_newline(s.drop_first()));
        lemma_trim_start_no_newline(s.drop_first());
    }
}

proof fn lemma_lines_from_no_newline(s: Seq<char>, p: int, q: int)
    requires
        0 <= p <= q,
        forall|k: int| p <= k < q && k < s.len() ==> s[k] != '\n',
    ensures
        forall|i: int|
            0 <= i < crate::text::lines_from(s, p, q).len() ==> no_newline(
                #[trigger] crate::text::lines_from(s, p, q)[i],
            ),
    decreases s.len() - q,
{
    if q >= s.len() {
        if p < s.len() {
            let l = s.subrange(p, s.len() as int);
            assert(crate::text::lines_from(s, p, q) == seq![l]);
            assert(no_newline(l));
        } else {
            assert(crate::text::lines_from(s, p, q).len() == 0);
        }
    } else if s[q] == '\n' {
        lemma_lines_from_no_newline(s, q + 1, q + 1);
        let l = s.subrange(p, q);
        assert(no_newline(l));
        assert(no_newline(crate::text::strip_cr(l)));
        let rest = crate::text::lines_from(s, q + 1, q + 1);
        assert(crate::text::lines_from(s, p, q) == seq![crate::text::strip_cr(l)] + rest);
        assert forall|i: int|
            0 <= i < crate::text::lines_from(s, p, q).len() implies no_newline(
            #[trigger] crate::text::lines_from(s, p, q)[i],
        ) by {
            if i > 0 {
                assert(crate::text::lines_from(s, p, q)[i] == rest[i - 1]);
            }
        }
    } else {
        lemma_lines_from_no_newline(s, p, q + 1);
        assert(crate::text::lines_from(s, p, q) == crate::text::lines_from(s, p, q + 1));
    }
}

proof fn lemma_chunk_greedy(ls: Seq<Seq<char>>, max: nat)
    requires
        forall|i: int| 0 <= i < ls.len() ==> no_newline(#[trigger] ls[i]),
    ensures
        ({
            let (chunks, cur) = chunk_state(ls, max);
            &&& forall|i: int|
                0 <= i < chunks.len() - 1 ==> byte_len(#[trigger] chunks[i]) + 1 + byte_len(
                    first_line(chunks[i + 1]),
                ) > max
            &&& chunks.len() > 0 && cur.len() > 0 ==> byte_len(chunks.last()) + 1 + byte_len(
                first_line(cur),
            ) > max
        }),
    decreases ls.len(),
{
    if ls.len() > 0 {
        let rest = ls.drop_last();
        assert forall|i: int| 0 <= i < rest.len() implies no_newline(#[trigger] rest[i]) by {
            assert(rest[i] == ls[i]);
        }
        lemma_chunk_greedy(rest, max);
        lemma_chunk_state(rest, max);
        let (chunks, cur) = chunk_state(rest, max);
        let line = trim(ls.last());
        assert(no_newline(ls[ls.len() - 1]));
        lemma_trim_no_newline(ls.last());
        lemma_first_line_whole(line);
        if line.len() > 0 {
            if cur.len() > 0 && byte_len(cur) + byte_len(line) + 1 > max {
                let c1 = chunks.push(cur);
                assert forall|i: int|
                    0 <= i < c1.len() - 1 implies byte_len(#[trigger] c1[i]) + 1 + byte_len(
                    first_line(c1[i + 1]),
                ) > max by {
                    if i < chunks.len() - 1 {
                        assert(c1[i] == chunks[i] && c1[i + 1] == chunks[i + 1]);
                    } else {
                        assert(c1[i] == chunks.last() && c1[i + 1] == cur);
                    }
                }
            } else if cur.len() > 0 {
                lemma_first_line_after(cur, line);
            }
        }
    }
}

/// Chunks are filled greedily: a chunk is closed only when the next line,
/// with the newline before it, would take it over the byte bound. For each
/// two neighbouring chunks, the bytes of the first, one for a newline, and
/// the bytes of the second's first line together exceed `max`.
pub proof fn law_chunks_greedy(s: Seq<char>, max: nat)
    ensures
        forall|i: int|
            0 <= i < subtitle_chunks(s, max).len() - 1 ==> byte_len(
                #[trigger] subtitle_chunks(s, max)[i],
            ) + 1 + byte_len(first_line(subtitle_chunks(s, max)[i + 1])) > max,
{
    let ls = lines(s);
    lemma_lines_from_no_newline(s, 0, 0);
    lemma_chunk_greedy(ls, max);
    lemma_chunk_state(ls, max);
    let (chunks, cur) = chunk_state(ls, max);
    let all = subtitle_chunks(s, max);
    assert forall|i: int| 0 <= i < all.len() - 1 implies byte_len(#[trigger] all[i]) + 1 + byte_len(
        first_line(all[i + 1]),
    ) > max by {
        if cur.len() > 0 {
            if i < chunks.len() - 1 {
                assert(all[i] == chunks[i] && all[i + 1] == chunks[i + 1]);
            } else {
                assert(all[i] == chunks.last() && all[i + 1] == cur);
            }
        }
    }
}

// ---------------------------------------------------------------------------
// Prompts
// ---------------------------------------------------------------------------

/// The instructions that precede a whole transcript in a notes request.
pub const SUBTITLE_REQUEST_PREVIEW_PREFIX: &'static str = "你是一名认真负责的大学课程助教。请根据以下课堂视频字幕整理一份适合课后复习的课堂笔记。\n\
输出要求：\n\
1. 只输出 Markdown 正文，不要使用代码块包住全文，也不要输出额外寒暄。\n\
2. 使用一个一级标题，标题写成“课堂笔记”或更贴合内容的标题。\n\
3. 在一级标题后，最先输出一个二级标题 `课堂内容`。\n\
4. `课堂内容` 部分必须按时间顺序整理 5-12 条小片段；每条用项目符号表示，尽量以时间戳开头或结尾，并用内联代码包裹，例如 `- [00:12:34,000] 讲解了卷积的基本直觉与应用场景`。\n\
5. `课堂内容` 的每条都要简短，聚焦该时间段老师讲了什么，不要写成长段。\n\
6. 在 `课堂内容` 之后，再优先包含以下二级标题：课程概览、知识点梳理、课堂通知与任务、待复习问题。\n\
7. 如果课堂里没有提到某类内容，可以省略对应章节，不要编造。\n\
8. 关键结论、通知、作业、签到、小测、考试提醒，要整理成清晰的项目符号。\n\
9. 如果某个知识点或通知能对应到字幕时间，请在该条目末尾补上内联代码时间戳，例如 `[00:12:34,000]`。\n\
10. 保持语言准确、简洁，像学生可以直接保存的课堂笔记。\n\
\n\
以下是字幕：\n";

/// The start of a chunk request, before `index/count`.
pub const CHUNK_EXTRACTION_HEAD: &'static str = "你正在为一节课整理课堂笔记。下面是第 ";

/// The instructions of a chunk request, after `index/count` and before the chunk.
pub const CHUNK_EXTRACTION_BODY: &'static str = " 段字幕，请先提炼这一段的结构化笔记。\n\
输出要求：\n\
1. 只输出 Markdown。\n\
2. 使用三级标题，标题仅限：### 时间片段、### 本段主题、### 知识点、### 课堂通知与任务、### 待确认问题。\n\
3. `### 时间片段` 必须放在最前面，并按时间顺序列出 3-8 条小片段摘要；每条尽量保留时间戳，并用内联代码包裹，如 `- [00:12:34,000] 介绍了牛顿迭代法的基本思路`。\n\
4. 其他部分继续提炼知识点、通知和待确认问题。\n\
5. 每条项目符号尽量保留原文中的时间戳，并用内联代码包裹，如 `[00:12:34,000]`。\n\
6. 不要编造未出现的信息。\n\
\n\
字幕如下：\n\
";

/// The instructions of the request that merges the partial notes.
pub const CHUNK_MERGE_HEAD: &'static str = "你是一名认真负责的大学课程助教。下面是同一节课不同字幕片段提炼出的阶段性笔记，请合并成一份完整的课堂笔记。\n\
输出要求：\n\
1. 只输出 Markdown 正文，不要加代码块。\n\
2. 使用一个一级标题。\n\
3. 在一级标题后，最先输出二级标题 `课堂内容`。\n\
4. `课堂内容` 部分要把各阶段笔记中的时间片段合并去重后，按时间顺序整理成 5-12 条小片段摘要。\n\
5. `课堂内容` 中每条尽量保留内联代码时间戳，例如 `- [00:12:34,000] 说明了傅里叶级数和周期信号之间的关系`。\n\
6. 在 `课堂内容` 之后，再优先包含以下二级标题：课程概览、知识点梳理、课堂通知与任务、待复习问题。\n\
7. 合并重复内容，按知识结构和时间顺序组织。\n\
8. 对有明确时间点的内容，在条目末尾保留内联代码时间戳，例如 `[00:12:34,000]`。\n\
9. 不要编造原始笔记中没有的信息。\n\
\n\
阶段性笔记如下：\n\
";

/// The instructions of a file explanation request, before the file name.
pub const EXPLAIN_FILE_HEAD: &'static str = "你是一个大学课程助教，你的职责是帮助学生解释和总结课程文件的内容。如果文件是关于作业的，请列出得分点、作业提交要求等重要信息。
            请以 `Markdown` 格式输出（不需要用代码块包起来），并控制在 200-300 字。以下是文件的相关信息：
            文件名：";

/// The text between the file name and the file content.
pub const EXPLAIN_FILE_MIDDLE: &'static str = "。
            文件内容：";

/// The separator between partial notes in the merge request.
pub const PARTIAL_NOTES_SEPARATOR: &'static str = "\n\n---\n\n";

/// The request for notes on a whole transcript.
pub open spec fn notes_prompt(subtitle: Seq<char>) -> Seq<char> {
    SUBTITLE_REQUEST_PREVIEW_PREFIX@ + subtitle
}

/// The request for the notes of chunk `index` (counted from zero) of `count`.
pub open spec fn extraction_prompt(chunk: Seq<char>, index: nat, count: nat) -> Seq<char> {
    CHUNK_EXTRACTION_HEAD@ + dec(index + 1) + seq!['/'] + dec(count) + CHUNK_EXTRACTION_BODY@ + chunk
}

/// The request that merges the partial notes into one set of notes.
pub open spec fn merge_prompt(partial_notes: Seq<Seq<char>>) -> Seq<char> {
    CHUNK_MERGE_HEAD@ + join(partial_notes, PARTIAL_NOTES_SEPARATOR@)
}

/// The request that explains a course file.
pub open spec fn explain_prompt(display_name: Seq<char>, text: Seq<char>) -> Seq<char> {
    EXPLAIN_FILE_HEAD@ + display_name + EXPLAIN_FILE_MIDDLE@ + text
}

/// The message of a notes request whose transcript turned out empty.
pub const EMPTY_SUBTITLE_MESSAGE: &'static str = "字幕内容为空，暂时无法生成课堂笔记。";

impl Client {
    /// The request for notes on a whole transcript.
    pub fn build_subtitle_notes_prompt(&self, subtitle: &str) -> (res: String)
        ensures
            res@ == notes_prompt(subtitle@),
    {
        let mut res = SUBTITLE_REQUEST_PREVIEW_PREFIX.to_string();
        res.append(subtitle);
        res
    }

    /// The request for the notes of one chunk of a long transcript.
    pub fn build_chunk_extraction_prompt(&self, chunk: &str, chunk_index: usize, chunk_count: usize) -> (res: String)
        requires
            chunk_index < usize::MAX,
        ensures
            res@ == extraction_prompt(chunk@, chunk_index as nat, chunk_count as nat),
    {
        let mut res = CHUNK_EXTRACTION_HEAD.to_string();
        res.append(decimal(chunk_index as u64 + 1).as_str());
        push_char(&mut res, '/');
        res.append(decimal(chunk_count as u64).as_str());
        res.append(CHUNK_EXTRACTION_BODY);
        res.append(chunk);
        assert(res@ =~= extraction_prompt(chunk@, chunk_index as nat, chunk_count as nat));
        res
    }

    /// The request that merges partial notes into one set of notes.
    pub fn build_chunk_merge_prompt(&self, partial_notes: &Vec<String>) -> (res: String)
        ensures
            res@ == merge_prompt(views(partial_notes@)),
    {
        let mut res = CHUNK_MERGE_HEAD.to_string();
        res.append(join_strings(partial_notes, PARTIAL_NOTES_SEPARATOR).as_str());
        res
    }

    /// The request that explains a course file from its name and text.
    pub fn build_explain_prompt(&self, display_name: &str, text: &str) -> (res: String)
        ensures
            res@ == explain_prompt(display_name@, text@),
    {
        let mut res = EXPLAIN_FILE_HEAD.to_string();
        res.append(display_name);
        res.append(EXPLAIN_FILE_MIDDLE);
        res.append(text);
        assert(res@ =~= explain_prompt(display_name@, text@));
        res
    }

    /// The compressed transcript of a lecture, refused when it is blank.
    pub fn subtitle_text(&self, subtitle: &[CanvasVideoSubTitle]) -> (res: Result<String, AppError>)
        ensures
            match res {
                Ok(s) => s@ == compressed_subtitle(subtitle@) && !blank(s@),
                Err(e) => blank(compressed_subtitle(subtitle@)) && (e matches AppError::LLMError(m)
                    && m@ == EMPTY_SUBTITLE_MESSAGE@),
            },
    {
        let compressed = self.compress_subtitle(subtitle);
        match compressed {
            Ok(text) => {
                if is_blank(text.as_str()) {
                    Err(AppError::LLMError(EMPTY_SUBTITLE_MESSAGE.to_string()))
                } else {
                    Ok(text)
                }
            },
            Err(e) => Err(e),
        }
    }
}

// ---------------------------------------------------------------------------
// File extensions
// ---------------------------------------------------------------------------

/// The position of the last `c` in `s[0..end]`.
pub open spec fn last_index_of(s: Seq<char>, c: char, end: int) -> Option<int>
    decreases end,
{
    if end <= 0 || end > s.len() {
        None
    } else if s[end - 1] == c {
        Some(end - 1)
    } else {
        last_index_of(s, c, end - 1)
    }
}

/// The file name of the path `s[0..end]`, as `Path::file_name` finds it on
/// Unix: the last `/`-separated segment that is neither empty nor `.`, unless
/// that segment is `..`. Only `/` separates; a `\` is part of a name, as on
/// Unix (on Windows std also splits at `\` and reads drive prefixes).
pub open spec fn file_name_of(s: Seq<char>, end: int) -> Option<Seq<char>>
    decreases end,
{
    if end < 0 || end > s.len() {
        None
    } else {
        let start = match last_index_of(s, '/', end) {
            Some(k) => k + 1,
            None => 0,
        };
        let seg = s.subrange(start, end);
        if seg.len() > 0 && seg != seq!['.'] {
            if seg == seq!['.', '.'] {
                None
            } else {
                Some(seg)
            }
        } else if start == 0 {
            None
        } else {
            proof {
                lemma_last_index_range(s, '/', end);
            }
            file_name_of(s, start - 1)
        }
    }
}

/// The extension of a file name as `Path::extension` gives it on Unix (empty
/// when there is none): the text after the last `.` of the file name, provided
/// that dot is not its first character. Paths follow Unix rules, `/` being
/// the only separator.
pub open spec fn extension_of(path: Seq<char>) -> Seq<char> {
    match file_name_of(path, path.len() as int) {
        None => seq![],
        Some(name) => match last_index_of(name, '.', name.len() as int) {
            Some(k) => if k > 0 {
                name.subrange(k + 1, name.len() as int)
            } else {
                seq![]
            },
            None => seq![],
        },
    }
}

pub proof fn lemma_last_index_range(s: Seq<char>, c: char, end: int)
    ensures
        last_index_of(s, c, end) matches Some(k) ==> 0 <= k < end && s[k] == c,
        last_index_of(s, c, end) is None && 0 <= end <= s.len() ==> forall|j: int|
            0 <= j < end ==> s[j] != c,
        last_index_of(s, c, end) matches Some(k) ==> forall|j: int| k < j < end ==> s[j] != c,
    decreases end,
{
    if 0 < end <= s.len() && s[end - 1] != c {
        lemma_last_index_range(s, c, end - 1);
    }
}

fn last_index_exec(s: &Vec<char>, c: char, end: usize) -> (res: Option<usize>)
    requires
        end <= s.len(),
    ensures
        match res {
            Some(k) => last_index_of(s@, c, end as int) == Some(k as int),
            None => last_index_of(s@, c, end as int) is None,
        },
{
    let mut e = end;
    while e > 0
        invariant
            e <= end <= s.len(),
            last_index_of(s@, c, end as int) == last_index_of(s@, c, e as int),
        decreases e,
    {
        if s[e - 1] == c {
            return Some(e - 1);
        }
        e -= 1;
    }
    None
}

/// The extension of the file that a path names, empty when it has none.
/// The path is read by Unix rules: `/` is the only separator, so for
/// `a\b.txt` the whole text is the file name (on Windows std would take
/// `b.txt`); the extension is `txt` either way, but `a.d\b` gives `d\b`.
pub fn file_extension(path: &str) -> (res: String)
    ensures
        res@ == extension_of(path@),
{
    let v = chars_of(path);
    let mut end = v.len();
    loop
        invariant
            end <= v.len(),
            v@ == path@,
            file_name_of(v@, v@.len() as int) == file_name_of(v@, end as int),
        decreases end,
    {
        proof {
            lemma_last_index_range(v@, '/', end as int);
        }
        let start = match last_index_exec(&v, '/', end) {
            Some(k) => k + 1,
            None => 0,
        };
        let len = end - start;
        let is_dot = len == 1 && v[start] == '.';
        if len == 1 {
            assert(v@.subrange(start as int, end as int) =~= seq![v@[start as int]]);
        }
        if len == 2 {
            assert(v@.subrange(start as int, end as int) =~= seq![v@[start as int], v@[start + 1]]);
        }
        let is_dot_dot = len == 2 && v[start] == '.' && v[start + 1] == '.';
        let ghost seg = v@.subrange(start as int, end as int);
        if is_dot {
            assert(seg =~= seq!['.']);
        } else if len == 1 {
            assert(seg[0] != seq!['.'][0]);
        } else {
            assert(seg.len() != seq!['.'].len());
        }
        if is_dot_dot {
            assert(seg =~= seq!['.', '.']);
        } else if len == 2 {
            assert(seg[0] != seq!['.', '.'][0] || seg[1] != seq!['.', '.'][1]);
        } else {
            assert(seg.len() != seq!['.', '.'].len());
        }
        if len > 0 && !is_dot {
            if is_dot_dot {
                return String::new();
            }
            assert(file_name_of(v@, end as int) == Some(seg));
            let name = string_of_range(&v, start, end);
            let chars = chars_of(name.as_str());
            proof {
                lemma_last_index_range(chars@, '.', chars@.len() as int);
            }
            return match last_index_exec(&chars, '.', chars.len()) {
                Some(k) => if k > 0 {
                    string_of_range(&chars, k + 1, chars.len())
                } else {
                    String::new()
                },
                None => String::new(),
            };
        }
        if start == 0 {
            return String::new();
        }
        end = start - 1;
    }
}

} // verus!
