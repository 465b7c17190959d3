//! Character-level text model: whitespace, trimming, searching, line
//! splitting, joining and decimal rendering, over `Seq<char>`, with the
//! executable routines that compute them.
use vstd::prelude::*;
use vstd::string::*;

verus! {

// ---------------------------------------------------------------------------
// Specifications
// ---------------------------------------------------------------------------

/// Unicode `White_Space`, the property behind `char::is_whitespace`.
pub open spec fn is_ws(c: char) -> bool {
    let u = c as u32;
    ||| 0x09 <= u <= 0x0D
    ||| u == 0x20
    ||| u == 0x85
    ||| u == 0xA0
    ||| u == 0x1680
    ||| 0x2000 <= u <= 0x200A
    ||| u == 0x2028
    ||| u == 0x2029
    ||| u == 0x202F
    ||| u == 0x205F
    ||| u == 0x3000
}

/// `s` without its trailing whitespace.
pub open spec fn trim_end(s: Seq<char>) -> Seq<char>
    decreases s.len(),
{
    if s.len() > 0 && is_ws(s.last()) {
        trim_end(s.drop_last())
    } else {
        s
    }
}

/// `s` without its leading whitespace.
pub open spec fn trim_start(s: Seq<char>) -> Seq<char>
    decreases s.len(),
{
    if s.len() > 0 && is_ws(s[0]) {
        trim_start(s.drop_first())
    } else {
        s
    }
}

/// `s` without leading and trailing whitespace.
pub open spec fn trim(s: Seq<char>) -> Seq<char> {
    trim_start(trim_end(s))
}

/// `s` is empty once trimmed.
pub open spec fn blank(s: Seq<char>) -> bool {
    trim(s).len() == 0
}

/// `pat` occurs in `s` at position `i`.
pub open spec fn occurs_at(s: Seq<char>, pat: Seq<char>, i: int) -> bool {
    0 <= i && i + pat.len() <= s.len() && s.subrange(i, i + pat.len()) == pat
}

/// The first position at or after `i` where `pat` occurs in `s`.
pub open spec fn find_from(s: Seq<char>, pat: Seq<char>, i: int) -> Option<int>
    decreases s.len() - i,
{
    if i < 0 || i + pat.len() > s.len() {
        None
    } else if occurs_at(s, pat, i) {
        Some(i)
    } else if pat.len() == 0 {
        None
    } else {
        find_from(s, pat, i + 1)
    }
}

/// `pat` occurs somewhere in `s`.
pub open spec fn contains(s: Seq<char>, pat: Seq<char>) -> bool {
    find_from(s, pat, 0) is Some
}

/// `s` ends with `pat`.
pub open spec fn ends_with(s: Seq<char>, pat: Seq<char>) -> bool {
    pat.len() <= s.len() && s.subrange(s.len() - pat.len(), s.len() as int) == pat
}

/// A line without the carriage return that ends it, if any.
pub open spec fn strip_cr(line: Seq<char>) -> Seq<char> {
    if line.len() > 0 && line.last() == '\r' {
        line.drop_last()
    } else {
        line
    }
}

/// The lines of `s` from the line that starts at `p`, the scan having
/// reached `q`: as `str::lines` splits them, at `\n` (with a `\r` before it
/// dropped), and without an empty line after a final `\n`.
pub open spec fn lines_from(s: Seq<char>, p: int, q: int) -> Seq<Seq<char>>
    decreases s.len() - q,
{
    if q < p || p < 0 || q >= s.len() {
        if 0 <= p < s.len() {
            seq![s.subrange(p, s.len() as int)]
        } else {
            seq![]
        }
    } else if s[q] == '\n' {
        seq![strip_cr(s.subrange(p, q))] + lines_from(s, q + 1, q + 1)
    } else {
        lines_from(s, p, q + 1)
    }
}

/// The lines of `s`.
pub open spec fn lines(s: Seq<char>) -> Seq<Seq<char>> {
    lines_from(s, 0, 0)
}

/// The pieces of `list` with `sep` between each two neighbours.
pub open spec fn join(list: Seq<Seq<char>>, sep: Seq<char>) -> Seq<char>
    decreases list.len(),
{
    if list.len() == 0 {
        seq![]
    } else if list.len() == 1 {
        list[0]
    } else {
        join(list.drop_last(), sep) + sep + list.last()
    }
}

/// The views of a sequence of strings.
pub open spec fn views(v: Seq<String>) -> Seq<Seq<char>> {
    v.map_values(|s: String| s@)
}

/// The ASCII digit for `d < 10`.
pub open spec fn digit(d: nat) -> char {
    ((48 + d) as u8) as char
}

/// The decimal rendering of `n`, without leading zeros.
pub open spec fn dec(n: nat) -> Seq<char>
    decreases n,
{
    if n < 10 {
        seq![digit(n)]
    } else {
        dec(n / 10).push(digit(n % 10))
    }
}

/// The decimal rendering of `n`, left-padded with zeros to `width` digits.
pub open spec fn dec_padded(n: nat, width: nat) -> Seq<char> {
    let d = dec(n);
    if d.len() >= width {
        d
    } else {
        Seq::new((width - d.len()) as nat, |i: int| '0') + d
    }
}

/// The number of bytes of the UTF-8 encoding of `c`.
pub open spec fn char_width(c: char) -> nat {
    let u = c as u32;
    if u < 0x80 {
        1
    } else if u < 0x800 {
        2
    } else if u < 0x10000 {
        3
    } else {
        4
    }
}

/// The number of bytes of the UTF-8 encoding of `s` (what `str::len` gives).
pub open spec fn byte_len(s: Seq<char>) -> nat {
    vstd::utf8::encode_utf8(s).len()
}

// ---------------------------------------------------------------------------
// Lemmas
// ---------------------------------------------------------------------------

/// UTF-8 encoding distributes over concatenation.
pub proof fn lemma_encode_concat(a: Seq<char>, b: Seq<char>)
    ensures
        vstd::utf8::encode_utf8(a + b) == vstd::utf8::encode_utf8(a) + vstd::utf8::encode_utf8(b),
    decreases a.len(),
{
    if a.len() == 0 {
        assert(a + b =~= b);
        assert(vstd::utf8::encode_utf8(a) =~= seq![]);
        assert(vstd::utf8::encode_utf8(a) + vstd::utf8::encode_utf8(b) =~= vstd::utf8::encode_utf8(b));
    } else {
        assert((a + b).drop_first() =~= a.drop_first() + b);
        assert((a + b)[0] == a[0]);
        lemma_encode_concat(a.drop_first(), b);
        assert(vstd::utf8::encode_utf8(a + b) =~= vstd::utf8::encode_scalar(a[0] as u32)
            + (vstd::utf8::encode_utf8(a.drop_first()) + vstd::utf8::encode_utf8(b)));
    }
}

pub proof fn lemma_byte_len_concat(a: Seq<char>, b: Seq<char>)
    ensures
        byte_len(a + b) == byte_len(a) + byte_len(b),
{
    lemma_encode_concat(a, b);
}

pub proof fn lemma_byte_len_char(c: char)
    ensures
        byte_len(seq![c]) == char_width(c),
{
    broadcast use vstd::utf8::char_is_scalar;
    let s = seq![c];
    assert(s.drop_first() =~= Seq::<char>::empty());
    assert(vstd::utf8::encode_utf8(s.drop_first()) =~= Seq::<u8>::empty());
    assert(vstd::utf8::encode_utf8(s) =~= vstd::utf8::encode_scalar(c as u32));
}

pub proof fn lemma_byte_len_push(s: Seq<char>, c: char)
    ensures
        byte_len(s.push(c)) == byte_len(s) + char_width(c),
{
    assert(s.push(c) =~= s + seq![c]);
    lemma_byte_len_concat(s, seq![c]);
    lemma_byte_len_char(c);
}

/// Joining one more piece appends the separator and the piece.
pub proof fn lemma_join_push(list: Seq<Seq<char>>, sep: Seq<char>, x: Seq<char>)
    ensures
        join(list.push(x), sep) == if list.len() == 0 {
            x
        } else {
            join(list, sep) + sep + x
        },
{
    assert(list.push(x).drop_last() =~= list);
}

/// A trailing whitespace character goes with the trimming of the end.
pub proof fn lemma_trim_end_step(s: Seq<char>, lo: int, e: int)
    requires
        0 <= lo < e <= s.len(),
        is_ws(s[e - 1]),
    ensures
        trim_end(s.subrange(lo, e)) == trim_end(s.subrange(lo, e - 1)),
{
    assert(s.subrange(lo, e).drop_last() =~= s.subrange(lo, e - 1));
}

/// A leading whitespace character goes with the trimming of the start.
pub proof fn lemma_trim_start_step(s: Seq<char>, a: int, e: int)
    requires
        0 <= a < e <= s.len(),
        is_ws(s[a]),
    ensures
        trim_start(s.subrange(a, e)) == trim_start(s.subrange(a + 1, e)),
{
    assert(s.subrange(a, e).drop_first() =~= s.subrange(a + 1, e));
}

// ---------------------------------------------------------------------------
// Trusted std conversions
// ---------------------------------------------------------------------------

/// `String::push`: appends one character.
#[verifier::external_body]
pub(crate) fn push_char(s: &mut String, c: char)
    ensures
        final(s)@ == old(s)@.push(c),
{
    s.push(c);
}

// ---------------------------------------------------------------------------
// Executable routines
// ---------------------------------------------------------------------------

/// The characters of a string slice, in order.
pub fn chars_of(s: &str) -> (res: Vec<char>)
    ensures
        res@ == s@,
{
    let mut res: Vec<char> = Vec::new();
    for c in it: s.chars()
        invariant
            res@ == it.seq().take(it.index() as int),
            it.seq() == s@,
    {
        res.push(c);
    }
    res
}

/// The string made of `v[lo..hi]`.
pub fn string_of_range(v: &Vec<char>, lo: usize, hi: usize) -> (res: String)
    requires
        lo <= hi <= v.len(),
    ensures
        res@ == v@.subrange(lo as int, hi as int),
{
    let mut res = String::new();
    let mut i = lo;
    while i < hi
        invariant
            lo <= i <= hi <= v.len(),
            res@ == v@.subrange(lo as int, i as int),
        decreases hi - i,
    {
        push_char(&mut res, v[i]);
        assert(v@.subrange(lo as int, i + 1) =~= v@.subrange(lo as int, i as int).push(v@[i as int]));
        i += 1;
    }
    res
}

/// Whether `c` is Unicode whitespace.
pub fn is_whitespace(c: char) -> (res: bool)
    ensures
        res == is_ws(c),
{
    let u = c as u32;
    (0x09 <= u && u <= 0x0D) || u == 0x20 || u == 0x85 || u == 0xA0 || u == 0x1680
        || (0x2000 <= u && u <= 0x200A) || u == 0x2028 || u == 0x2029 || u == 0x202F
        || u == 0x205F || u == 0x3000
}

/// The end of `v[lo..hi]` once its trailing whitespace is dropped.
pub fn trim_end_bound(v: &Vec<char>, lo: usize, hi: usize) -> (e: usize)
    requires
        lo <= hi <= v.len(),
    ensures
        lo <= e <= hi,
        v@.subrange(lo as int, e as int) == trim_end(v@.subrange(lo as int, hi as int)),
{
    let mut e = hi;
    while e > lo && is_whitespace(v[e - 1])
        invariant
            lo <= e <= hi <= v.len(),
            trim_end(v@.subrange(lo as int, hi as int)) == trim_end(v@.subrange(lo as int, e as int)),
        decreases e,
    {
        proof {
            lemma_trim_end_step(v@, lo as int, e as int);
        }
        e -= 1;
    }
    e
}

/// The bounds of `v[lo..hi]` once trimmed at both ends.
pub fn trim_bounds(v: &Vec<char>, lo: usize, hi: usize) -> (r: (usize, usize))
    requires
        lo <= hi <= v.len(),
    ensures
        lo <= r.0 <= r.1 <= hi,
        v@.subrange(r.0 as int, r.1 as int) == trim(v@.subrange(lo as int, hi as int)),
{
    let e = trim_end_bound(v, lo, hi);
    let mut a = lo;
    while a < e && is_whitespace(v[a])
        invariant
            lo <= a <= e <= hi <= v.len(),
            trim_start(v@.subrange(lo as int, e as int)) == trim_start(v@.subrange(a as int, e as int)),
        decreases e - a,
    {
        proof {
            lemma_trim_start_step(v@, a as int, e as int);
        }
        a += 1;
    }
    (a, e)
}

/// `s` with leading and trailing whitespace removed.
pub fn trim_string(s: &str) -> (res: String)
    ensures
        res@ == trim(s@),
{
    let v = chars_of(s);
    let (a, b) = trim_bounds(&v, 0, v.len());
    assert(v@.subrange(0, v@.len() as int) =~= v@);
    string_of_range(&v, a, b)
}

/// Whether `s` is empty once trimmed.
pub fn is_blank(s: &str) -> (res: bool)
    ensures
        res == blank(s@),
{
    let v = chars_of(s);
    let (a, b) = trim_bounds(&v, 0, v.len());
    assert(v@.subrange(0, v@.len() as int) =~= v@);
    a == b
}

/// Whether `pat` occurs in `s` at `i`.
pub fn occurs_at_exec(s: &Vec<char>, pat: &Vec<char>, i: usize) -> (res: bool)
    ensures
        res == occurs_at(s@, pat@, i as int),
{
    if i > s.len() || pat.len() > s.len() - i {
        return false;
    }
    let mut k: usize = 0;
    while k < pat.len()
        invariant
            i + pat.len() <= s.len(),
            k <= pat.len(),
            forall|j: int| 0 <= j < k ==> s@[i + j] == pat@[j],
        decreases pat.len() - k,
    {
        if s[i + k] != pat[k] {
            assert(s@.subrange(i as int, i + pat.len())[k as int] != pat@[k as int]);
            return false;
        }
        k += 1;
    }
    assert(s@.subrange(i as int, i + pat.len()) =~= pat@);
    true
}

/// The first position at or after `from` where `pat` occurs in `s`.
pub fn find_exec(s: &Vec<char>, pat: &Vec<char>, from: usize) -> (res: Option<usize>)
    ensures
        match res {
            Some(k) => find_from(s@, pat@, from as int) == Some(k as int),
            None => find_from(s@, pat@, from as int) is None,
        },
{
    let mut i = from;
    loop
        invariant
            from <= i,
            find_from(s@, pat@, from as int) == find_from(s@, pat@, i as int),
        decreases s.len() + 1 - i,
    {
        if i > s.len() || pat.len() > s.len() - i {
            return None;
        }
        if occurs_at_exec(s, pat, i) {
            return Some(i);
        }
        if pat.len() == 0 {
            return None;
        }
        i += 1;
    }
}

/// The pieces of `list` with `sep` between each two neighbours.
pub fn join_strings(list: &Vec<String>, sep: &str) -> (res: String)
    ensures
        res@ == join(views(list@), sep@),
{
    let mut res = String::new();
    let mut i: usize = 0;
    while i < list.len()
        invariant
            i <= list.len(),
            res@ == join(views(list@).take(i as int), sep@),
        decreases list.len() - i,
    {
        proof {
            lemma_join_push(views(list@).take(i as int), sep@, list@[i as int]@);
            assert(views(list@).take(i + 1) =~= views(list@).take(i as int).push(list@[i as int]@));
        }
        if i > 0 {
            res.append(sep);
        }
        res.append(list[i].as_str());
        i += 1;
    }
    assert(views(list@).take(list.len() as int) =~= views(list@));
    res
}

/// The decimal rendering of `n`.
pub fn decimal(n: u64) -> (res: String)
    ensures
        res@ == dec(n as nat),
    decreases n,
{
    if n < 10 {
        let mut s = String::new();
        push_char(&mut s, ((n as u8) + 48u8) as char);
        assert(s@ =~= seq![digit(n as nat)]);
        s
    } else {
        let mut s = decimal(n / 10);
        push_char(&mut s, (((n % 10) as u8) + 48u8) as char);
        s
    }
}

/// The decimal rendering of `n`, zero-padded on the left to `width` digits.
pub fn decimal_padded(n: u64, width: usize) -> (res: String)
    ensures
        res@ == dec_padded(n as nat, width as nat),
{
    let digits = decimal(n);
    let v = chars_of(digits.as_str());
    let len = v.len();
    if len >= width {
        return digits;
    }
    let mut res = String::new();
    let mut i: usize = 0;
    while i < width - len
        invariant
            len < width,
            i <= width - len,
            res@ == Seq::new(i as nat, |j: int| '0'),
        decreases width - len - i,
    {
        push_char(&mut res, '0');
        assert(res@ =~= Seq::new((i + 1) as nat, |j: int| '0'));
        i += 1;
    }
    res.append(digits.as_str());
    assert(res@ =~= dec_padded(n as nat, width as nat));
    res
}

/// The bounds in `v` of each line of `v`, in order.
pub fn line_bounds(v: &Vec<char>) -> (res: Vec<(usize, usize)>)
    ensures
        res@.len() == lines(v@).len(),
        forall|i: int|
            #![trigger res@[i]]
            0 <= i < res@.len() ==> {
                &&& res@[i].0 <= res@[i].1 <= v@.len()
                &&& v@.subrange(res@[i].0 as int, res@[i].1 as int) == lines(v@)[i]
            },
        forall|i: int, j: int|
            #![trigger res@[i], res@[j]]
            0 <= i < j < res@.len() ==> res@[i].1 < res@[j].0,
{
    let mut res: Vec<(usize, usize)> = Vec::new();
    let ghost mut done: Seq<Seq<char>> = seq![];
    let mut p: usize = 0;
    let mut q: usize = 0;
    while q < v.len()
        invariant
            p <= q <= v.len(),
            res@.len() == done.len(),
            forall|i: int|
                #![trigger res@[i]]
                0 <= i < res@.len() ==> {
                    &&& res@[i].0 <= res@[i].1 <= v@.len()
                    &&& v@.subrange(res@[i].0 as int, res@[i].1 as int) == done[i]
                },
            lines(v@) == done + lines_from(v@, p as int, q as int),
            forall|i: int| #![trigger res@[i]] 0 <= i < res@.len() ==> res@[i].1 < p,
            forall|i: int, j: int|
                #![trigger res@[i], res@[j]]
                0 <= i < j < res@.len() ==> res@[i].1 < res@[j].0,
        decreases v.len() - q,
    {
        if v[q] == '\n' {
            let mut e = q;
            if e > p && v[e - 1] == '\r' {
                e = e - 1;
                assert(v@.subrange(p as int, q as int).drop_last() =~= v@.subrange(p as int, e as int));
            }
            let ghost line = strip_cr(v@.subrange(p as int, q as int));
            assert(v@.subrange(p as int, e as int) == line);
            assert(done.push(line) + lines_from(v@, q + 1, q + 1) =~= done + (seq![line] + lines_from(v@, q + 1, q + 1)));
            res.push((p, e));
            proof {
                done = done.push(line);
            }
            p = q + 1;
        }
        q += 1;
    }
    if p < v.len() {
        res.push((p, v.len()));
        proof {
            assert(done + lines_from(v@, p as int, q as int) =~= done.push(v@.subrange(p as int, v@.len() as int)));
            done = done.push(v@.subrange(p as int, v@.len() as int));
        }
    } else {
        assert(done + lines_from(v@, p as int, q as int) =~= done);
    }
    res
}

/// The UTF-8 width of `c` in bytes.
pub fn utf8_width(c: char) -> (w: usize)
    ensures
        w == char_width(c),
        1 <= w <= 4,
{
    let u = c as u32;
    if u < 0x80 {
        1
    } else if u < 0x800 {
        2
    } else if u < 0x10000 {
        3
    } else {
        4
    }
}

} // verus!
