use vstd::prelude::*;

use crate::notation::{chars_of, coord_of_label, coord_to_label, label_of, parse_label, parse_number, text_of};
use crate::types::Coord;

verus! {

/// The text of the `move` field, when `raw` is a JSON document whose top-level object
/// has a string-valued `move` field.
pub uninterp spec fn json_move_field(raw: Seq<char>) -> Option<Seq<char>>;

/// Relies on serde_json: `from_str::<Value>` parses the text, `Value::get("move")` looks
/// the field up in an object, and `Value::as_str` reads a string value. The result depends
/// on the text alone.
#[verifier::external_body]
fn move_field(raw: &str) -> (r: Option<String>)
    ensures
        r is None <==> json_move_field(raw@) is None,
        r matches Some(t) ==> json_move_field(raw@) == Some(t@),
{
    let value: serde_json::Value = serde_json::from_str(raw).ok()?;
    value.get("move").and_then(|m| m.as_str()).map(|m| m.to_owned())
}

/// Whether `f` is `pass` in any mix of cases.
pub open spec fn is_pass(f: Seq<char>) -> bool {
    &&& f.len() == 4
    &&& (f[0] == 'p' || f[0] == 'P')
    &&& (f[1] == 'a' || f[1] == 'A')
    &&& (f[2] == 's' || f[2] == 'S')
    &&& (f[3] == 's' || f[3] == 'S')
}

/// The move a `move` field names: none for `pass`, otherwise the cell of its label.
pub open spec fn move_of_field(f: Seq<char>) -> Option<Coord> {
    if is_pass(f) {
        None
    } else {
        coord_of_label(f)
    }
}

/// The move of a JSON reply such as `{"move":"H8"}`.
pub open spec fn json_move(raw: Seq<char>) -> Option<Coord> {
    match json_move_field(raw) {
        None => None,
        Some(f) => move_of_field(f),
    }
}

/// Reads the value of a `move` field: `pass` in any case gives no move, otherwise the
/// cell its label names.
pub fn extract_move_from_field(f: &str) -> (r: Option<Coord>)
    ensures
        r == move_of_field(f@),
{
    let cs = crate::notation::chars_of(f);
    if cs.len() == 4 && (cs[0] == 'p' || cs[0] == 'P') && (cs[1] == 'a' || cs[1] == 'A') && (cs[2] == 's'
        || cs[2] == 'S') && (cs[3] == 's' || cs[3] == 'S') {
        return None;
    }
    parse_label(f)
}

/// The move of a reply that is a JSON object with a `move` field.
pub fn try_parse_json(raw: &str) -> (r: Option<Coord>)
    ensures
        r == json_move(raw@),
{
    match move_field(raw) {
        None => None,
        Some(f) => extract_move_from_field(f.as_str()),
    }
}

/// Unicode white space, as `char::is_whitespace` decides it.
pub open spec fn is_ws(c: char) -> bool {
    ||| '\u{9}' <= c && c <= '\u{d}'
    ||| c == ' '
    ||| c == '\u{85}'
    ||| c == '\u{a0}'
    ||| c == '\u{1680}'
    ||| '\u{2000}' <= c && c <= '\u{200a}'
    ||| c == '\u{2028}'
    ||| c == '\u{2029}'
    ||| c == '\u{202f}'
    ||| c == '\u{205f}'
    ||| c == '\u{3000}'
}

fn is_ws_exec(c: char) -> (r: bool)
    ensures
        r == is_ws(c),
{
    ('\u{9}' <= c && c <= '\u{d}') || c == ' ' || c == '\u{85}' || c == '\u{a0}' || c == '\u{1680}' || ('\u{2000}'
        <= c && c <= '\u{200a}') || c == '\u{2028}' || c == '\u{2029}' || c == '\u{202f}' || c == '\u{205f}' || c
        == '\u{3000}'
}

/// Index of the first non-space character at or after `i`.
pub open spec fn trim_start_at(s: Seq<char>, i: int) -> int
    decreases s.len() - i,
{
    if i < s.len() && is_ws(s[i]) {
        trim_start_at(s, i + 1)
    } else {
        i
    }
}

/// End of `s[lo..j]` once trailing white space is dropped.
pub open spec fn trim_end_at(s: Seq<char>, lo: int, j: int) -> int
    decreases j - lo,
{
    if j > lo && is_ws(s[j - 1]) {
        trim_end_at(s, lo, j - 1)
    } else {
        j
    }
}

/// `s` without leading and trailing white space.
pub open spec fn trim(s: Seq<char>) -> Seq<char> {
    let lo = trim_start_at(s, 0);
    s.subrange(lo, trim_end_at(s, lo, s.len() as int))
}

pub(crate) fn trim_chars(s: &Vec<char>) -> (r: Vec<char>)
    ensures
        r@ == trim(s@),
{
    let mut lo: usize = 0;
    while lo < s.len() && is_ws_exec(s[lo])
        invariant
            lo <= s@.len(),
            trim_start_at(s@, lo as int) == trim_start_at(s@, 0),
        decreases s@.len() - lo,
    {
        lo += 1;
    }
    let mut hi: usize = s.len();
    while hi > lo && is_ws_exec(s[hi - 1])
        invariant
            lo <= hi <= s@.len(),
            lo == trim_start_at(s@, 0),
            trim_end_at(s@, lo as int, hi as int) == trim_end_at(s@, lo as int, s@.len() as int),
        decreases hi - lo,
    {
        hi -= 1;
    }
    slice_chars(s, lo, hi)
}

/// `s[lo..hi]` as a new vector.
pub(crate) fn slice_chars(s: &Vec<char>, lo: usize, hi: usize) -> (r: Vec<char>)
    requires
        lo <= hi <= s@.len(),
    ensures
        r@ == s@.subrange(lo as int, hi as int),
{
    let mut r: Vec<char> = Vec::new();
    let mut i = lo;
    while i < hi
        invariant
            lo <= i <= hi <= s@.len(),
            r@ == s@.subrange(lo as int, i as int),
        decreases hi - i,
    {
        r.push(s[i]);
        i += 1;
        assert(r@ =~= s@.subrange(lo as int, i as int));
    }
    r
}

/// `s` without `prefix`, when it starts with it.
pub open spec fn strip_prefix(s: Seq<char>, prefix: Seq<char>) -> Option<Seq<char>> {
    if prefix.len() <= s.len() && s.subrange(0, prefix.len() as int) == prefix {
        Some(s.subrange(prefix.len() as int, s.len() as int))
    } else {
        None
    }
}

/// `s` without `suffix`, when it ends with it.
pub open spec fn strip_suffix(s: Seq<char>, suffix: Seq<char>) -> Option<Seq<char>> {
    if suffix.len() <= s.len() && s.subrange(s.len() - suffix.len(), s.len() as int) == suffix {
        Some(s.subrange(0, s.len() - suffix.len()))
    } else {
        None
    }
}

fn strip_prefix_exec(s: &Vec<char>, prefix: &Vec<char>) -> (r: Option<Vec<char>>)
    ensures
        r matches Some(t) ==> strip_prefix(s@, prefix@) == Some(t@),
        r is None ==> strip_prefix(s@, prefix@) is None,
{
    if prefix.len() > s.len() {
        return None;
    }
    let mut i: usize = 0;
    while i < prefix.len()
        invariant
            prefix@.len() <= s@.len(),
            i <= prefix@.len(),
            forall|k: int| 0 <= k < i ==> s@[k] == prefix@[k],
        decreases prefix@.len() - i,
    {
        if s[i] != prefix[i] {
            proof {
                assert(s@.subrange(0, prefix@.len() as int)[i as int] != prefix@[i as int]);
            }
            return None;
        }
        i += 1;
    }
    assert(s@.subrange(0, prefix@.len() as int) =~= prefix@);
    Some(slice_chars(s, prefix.len(), s.len()))
}

fn strip_suffix_exec(s: &Vec<char>, suffix: &Vec<char>) -> (r: Option<Vec<char>>)
    ensures
        r matches Some(t) ==> strip_suffix(s@, suffix@) == Some(t@),
        r is None ==> strip_suffix(s@, suffix@) is None,
{
    if suffix.len() > s.len() {
        return None;
    }
    let n = s.len();
    let base = n - suffix.len();
    let mut i: usize = 0;
    while i < suffix.len()
        invariant
            n == s@.len(),
            suffix@.len() <= s@.len(),
            base == s@.len() - suffix@.len(),
            i <= suffix@.len(),
            forall|k: int| 0 <= k < i ==> s@[base + k] == suffix@[k],
        decreases suffix@.len() - i,
    {
        if s[base + i] != suffix[i] {
            proof {
                assert(s@.subrange(base as int, s@.len() as int)[i as int] != suffix@[i as int]);
            }
            return None;
        }
        i += 1;
    }
    assert(s@.subrange(base as int, s@.len() as int) =~= suffix@);
    Some(slice_chars(s, 0, base))
}

/// A reply inside a Markdown code fence (```` ```json ```` or ```` ``` ````), with the
/// fence and surrounding space removed; otherwise the reply as it is.
pub open spec fn unfenced(raw: Seq<char>) -> Seq<char> {
    let t = trim(raw);
    let opened = match strip_prefix(t, "```json"@) {
        Some(u) => Some(u),
        None => strip_prefix(t, "```"@),
    };
    match opened {
        None => raw,
        Some(u) => match strip_suffix(u, "```"@) {
            None => raw,
            Some(w) => trim(w),
        },
    }
}

fn unfenced_exec(raw: &Vec<char>) -> (r: Vec<char>)
    ensures
        r@ == unfenced(raw@),
{
    let t = trim_chars(raw);
    let json_fence = crate::notation::chars_of("```json");
    let fence = crate::notation::chars_of("```");
    let opened = match strip_prefix_exec(&t, &json_fence) {
        Some(u) => Some(u),
        None => strip_prefix_exec(&t, &fence),
    };
    match opened {
        None => slice_chars(raw, 0, raw.len()),
        Some(u) => match strip_suffix_exec(&u, &fence) {
            None => {
                let r = slice_chars(raw, 0, raw.len());
                assert(r@ =~= raw@);
                r
            },
            Some(w) => trim_chars(&w),
        },
    }
}

/// Index of the first `c` at or after `i`, or -1.
pub open spec fn first_index(s: Seq<char>, c: char, i: int) -> int
    decreases s.len() - i,
{
    if i >= s.len() {
        -1
    } else if s[i] == c {
        i
    } else {
        first_index(s, c, i + 1)
    }
}

/// Index of the last `c` before `j`, or -1.
pub open spec fn last_index(s: Seq<char>, c: char, j: int) -> int
    decreases j,
{
    if j <= 0 {
        -1
    } else if s[j - 1] == c {
        j - 1
    } else {
        last_index(s, c, j - 1)
    }
}

/// The text from the first `{` to the last `}`, when the `}` comes later.
pub open spec fn braced(raw: Seq<char>) -> Option<Seq<char>> {
    let a = first_index(raw, '{', 0);
    let b = last_index(raw, '}', raw.len() as int);
    if a >= 0 && b > a {
        Some(raw.subrange(a, b + 1))
    } else {
        None
    }
}

/// The move of a JSON object found in a reply: inside a code fence, or between the first
/// `{` and the last `}`.
pub open spec fn text_json_move(raw: Seq<char>) -> Option<Coord> {
    match json_move(unfenced(raw)) {
        Some(c) => Some(c),
        None => match braced(raw) {
            Some(t) => json_move(t),
            None => None,
        },
    }
}

fn first_index_exec(s: &Vec<char>, c: char) -> (r: Option<usize>)
    ensures
        r matches Some(i) ==> first_index(s@, c, 0) == i as int,
        r is None ==> first_index(s@, c, 0) == -1,
{
    let mut i: usize = 0;
    while i < s.len()
        invariant
            i <= s@.len(),
            first_index(s@, c, i as int) == first_index(s@, c, 0),
        decreases s@.len() - i,
    {
        if s[i] == c {
            return Some(i);
        }
        i += 1;
    }
    None
}

fn last_index_exec(s: &Vec<char>, c: char) -> (r: Option<usize>)
    ensures
        r matches Some(i) ==> last_index(s@, c, s@.len() as int) == i as int && i < s@.len(),
        r is None ==> last_index(s@, c, s@.len() as int) == -1,
{
    let mut j: usize = s.len();
    while j > 0
        invariant
            j <= s@.len(),
            last_index(s@, c, j as int) == last_index(s@, c, s@.len() as int),
        decreases j,
    {
        if s[j - 1] == c {
            return Some(j - 1);
        }
        j -= 1;
    }
    None
}

fn json_move_of_chars(v: &Vec<char>) -> (r: Option<Coord>)
    ensures
        r == json_move(v@),
{
    let t = text_of(v);
    try_parse_json(t.as_str())
}

/// The move of a JSON object inside a reply: in a Markdown code fence, or between the
/// first `{` and the last `}`.
pub fn try_extract_json_from_text(raw: &str) -> (r: Option<Coord>)
    ensures
        r == text_json_move(raw@),
{
    let cs = chars_of(raw);
    let n = cs.len();
    let cleaned = unfenced_exec(&cs);
    match json_move_of_chars(&cleaned) {
        Some(c) => {
            return Some(c);
        },
        None => {},
    }
    match (first_index_exec(&cs, '{'), last_index_exec(&cs, '}')) {
        (Some(a), Some(b)) => {
            if b > a {
                assert(b < n);
                let inner = slice_chars(&cs, a, b + 1);
                json_move_of_chars(&inner)
            } else {
                None
            }
        },
        _ => None,
    }
}

/// The text in upper case, by the Unicode rules.
pub uninterp spec fn upper_of(s: Seq<char>) -> Seq<char>;

/// Whether a character is a letter or a digit, by the Unicode rules.
pub uninterp spec fn alnum(c: char) -> bool;

/// Relies on `str::to_uppercase`: Unicode upper case; the result depends on the text alone.
#[verifier::external_body]
fn to_upper(s: &str) -> (r: String)
    ensures
        r@ == upper_of(s@),
{
    s.to_uppercase()
}

/// Relies on `char::is_alphanumeric`: Unicode Alphabetic or Numeric.
#[verifier::external_body]
fn is_alnum(c: char) -> (r: bool)
    ensures
        r == alnum(c),
{
    c.is_alphanumeric()
}

/// A word that reads as a move: two or three characters, a column letter `A` to `O`, then a
/// row from 1 to 15. (Characters that can pass are ASCII, so counting characters here
/// counts bytes too.)
pub open spec fn is_move_word(w: Seq<char>) -> bool {
    &&& 2 <= w.len() <= 3
    &&& 'A' <= w[0] && w[0] <= 'O'
    &&& parse_number(w.drop_first()) matches Some(n) && 1 <= n <= 15
}

/// Scans `u` from `i`, the current word having started at `start`: the cell of the first
/// word, separated by characters that are not letters or digits, that reads as a move.
pub open spec fn scan_words(u: Seq<char>, i: int, start: int) -> Option<Coord>
    decreases u.len() - i,
{
    if i >= u.len() {
        if is_move_word(u.subrange(start, u.len() as int)) {
            coord_of_label(u.subrange(start, u.len() as int))
        } else {
            None
        }
    } else if alnum(u[i]) {
        scan_words(u, i + 1, start)
    } else if is_move_word(u.subrange(start, i)) {
        coord_of_label(u.subrange(start, i))
    } else {
        scan_words(u, i + 1, i + 1)
    }
}

fn move_word_exec(w: &Vec<char>) -> (r: bool)
    ensures
        r == is_move_word(w@),
{
    if w.len() < 2 || w.len() > 3 {
        return false;
    }
    if !('A' <= w[0] && w[0] <= 'O') {
        return false;
    }
    let rest = slice_chars(w, 1, w.len());
    assert(rest@ =~= w@.drop_first());
    let n = crate::notation::parse_number_chars(&rest);
    match n {
        Some(n) => 1 <= n && n <= 15,
        None => false,
    }
}

/// The cell of the first word of `upper` that reads as a move, words being separated by
/// characters that are not letters or digits.
pub fn move_in_upper_text(upper: &str) -> (r: Option<Coord>)
    ensures
        r == scan_words(upper@, 0, 0),
{
    let u = chars_of(upper);
    let mut start: usize = 0;
    let mut i: usize = 0;
    while i < u.len()
        invariant
            u@ == upper@,
            start <= i <= u@.len(),
            scan_words(u@, i as int, start as int) == scan_words(u@, 0, 0),
        decreases u@.len() - i,
    {
        if !is_alnum(u[i]) {
            let w = slice_chars(&u, start, i);
            if move_word_exec(&w) {
                let t = text_of(&w);
                return parse_label(t.as_str());
            }
            start = i + 1;
        }
        i += 1;
    }
    let w = slice_chars(&u, start, u.len());
    if move_word_exec(&w) {
        let t = text_of(&w);
        return parse_label(t.as_str());
    }
    None
}

/// The cell of the first word of the reply, taken in upper case, that reads as a move,
/// such as `H8` in `I play h8.`.
pub fn try_extract_move_directly(raw: &str) -> (r: Option<Coord>)
    ensures
        r == scan_words(upper_of(raw@), 0, 0),
{
    let upper = to_upper(raw);
    move_in_upper_text(upper.as_str())
}

/// Bytes a character takes in UTF-8.
pub open spec fn utf8_len(c: char) -> int {
    if (c as int) < 0x80 {
        1
    } else if (c as int) < 0x800 {
        2
    } else if (c as int) < 0x10000 {
        3
    } else {
        4
    }
}

/// Bytes the text takes in UTF-8.
pub open spec fn byte_len(s: Seq<char>) -> int
    decreases s.len(),
{
    if s.len() == 0 {
        0
    } else {
        byte_len(s.drop_last()) + utf8_len(s.last())
    }
}

/// The most characters, counted from `k` on, whose prefix still fits in 100 bytes.
pub open spec fn fit_prefix(s: Seq<char>, k: int) -> int
    decreases s.len() - k,
{
    if 0 <= k < s.len() && byte_len(s.subrange(0, k + 1)) <= 100 {
        fit_prefix(s, k + 1)
    } else {
        k
    }
}

/// A text of more than 100 bytes cut to the whole characters within its first 100 bytes,
/// followed by `...`; a shorter text as it is.
pub open spec fn truncated(s: Seq<char>) -> Seq<char> {
    if byte_len(s) > 100 {
        s.subrange(0, fit_prefix(s, 0)) + "..."@
    } else {
        s
    }
}

fn utf8_len_exec(c: char) -> (r: usize)
    ensures
        r == utf8_len(c),
{
    let v = c as u32;
    if v < 0x80 {
        1
    } else if v < 0x800 {
        2
    } else if v < 0x10000 {
        3
    } else {
        4
    }
}

proof fn lemma_byte_len_step(s: Seq<char>, k: int)
    requires
        0 <= k < s.len(),
    ensures
        byte_len(s.subrange(0, k + 1)) == byte_len(s.subrange(0, k)) + utf8_len(s[k]),
{
    assert(s.subrange(0, k + 1).drop_last() =~= s.subrange(0, k));
}

/// A text shortened for an error message: more than 100 bytes are cut to the whole
/// characters within the first 100 bytes, followed by `...`.
pub fn truncate_for_error(s: &str) -> (r: String)
    ensures
        r@ == truncated(s@),
{
    let cs = chars_of(s);
    let n = cs.len();
    let mut bytes: usize = 0;
    let mut keep: usize = 0;
    let mut k: usize = 0;
    while k < n && bytes <= 100
        invariant
            cs@ == s@,
            n == cs@.len(),
            k <= n,
            bytes as int == byte_len(cs@.subrange(0, k as int)),
            bytes <= 104,
            bytes <= 100 ==> keep == k && fit_prefix(cs@, k as int) == fit_prefix(cs@, 0),
            bytes > 100 ==> keep + 1 == k && fit_prefix(cs@, 0) == keep,
        decreases n - k,
    {
        proof {
            lemma_byte_len_step(cs@, k as int);
        }
        bytes = bytes + utf8_len_exec(cs[k]);
        if bytes <= 100 {
            keep = k + 1;
        }
        k += 1;
    }
    if bytes > 100 {
        proof {
            lemma_byte_len_grows(cs@, k as int);
            assert(cs@.subrange(0, cs@.len() as int) =~= cs@);
            assert(byte_len(cs@.subrange(0, n as int)) >= bytes);
            reveal_strlit("...");
        }
        let mut out = slice_chars(&cs, 0, keep);
        out.push('.');
        out.push('.');
        out.push('.');
        assert(out@ =~= truncated(s@));
        text_of(&out)
    } else {
        assert(cs@.subrange(0, cs@.len() as int) =~= cs@);
        text_of(&cs)
    }
}

proof fn lemma_byte_len_grows(s: Seq<char>, k: int)
    requires
        0 <= k <= s.len(),
    ensures
        forall|m: int| k <= m <= s.len() ==> byte_len(s.subrange(0, m)) >= byte_len(s.subrange(0, k)),
    decreases s.len() - k,
{
    if k < s.len() {
        lemma_byte_len_grows(s, k + 1);
        lemma_byte_len_step(s, k);
    }
}

/// The move a reply names: as JSON, as JSON inside other text, or as the first word that
/// reads as a move.
pub open spec fn reply_move(raw: Seq<char>) -> Option<Coord> {
    match json_move(raw) {
        Some(c) => Some(c),
        None => match text_json_move(raw) {
            Some(c) => Some(c),
            None => scan_words(upper_of(raw), 0, 0),
        },
    }
}

/// The move a reply names, or an error quoting the start of the reply.
pub fn parse_response(raw: &str) -> (r: Result<Coord, String>)
    ensures
        r matches Ok(c) ==> reply_move(raw@) == Some(c),
        r is Err <==> reply_move(raw@) is None,
        r matches Err(e) ==> e@ == "Failed to parse LLM response: "@ + truncated(raw@),
{
    if let Some(c) = try_parse_json(raw) {
        return Ok(c);
    }
    if let Some(c) = try_extract_json_from_text(raw) {
        return Ok(c);
    }
    if let Some(c) = try_extract_move_directly(raw) {
        return Ok(c);
    }
    let mut out = chars_of("Failed to parse LLM response: ");
    let tail = chars_of(truncate_for_error(raw).as_str());
    let mut i: usize = 0;
    let ghost head = out@;
    while i < tail.len()
        invariant
            i <= tail@.len(),
            out@ == head + tail@.subrange(0, i as int),
        decreases tail@.len() - i,
    {
        out.push(tail[i]);
        i += 1;
        assert(out@ =~= head + tail@.subrange(0, i as int));
    }
    assert(tail@.subrange(0, tail@.len() as int) =~= tail@);
    Err(text_of(&out))
}

/// Whether `label` is one of `labels`.
pub open spec fn offered(labels: Seq<String>, label: Seq<char>) -> bool {
    exists|i: int| 0 <= i < labels.len() && (#[trigger] labels[i])@ == label
}

/// The move a reply names, accepted only when its label is one of the offered
/// `candidates`; otherwise an error saying what went wrong.
pub fn check_reply(raw: &str, candidates: &Vec<String>) -> (r: Result<Coord, String>)
    ensures
        r is Ok <==> (reply_move(raw@) matches Some(c) && offered(candidates@, label_of(c))),
        r matches Ok(c) ==> reply_move(raw@) == Some(c),
        reply_move(raw@) is None ==> (r matches Err(e) && e@ == "Failed to parse LLM response: "@ + truncated(
            raw@,
        )),
        reply_move(raw@) is Some && !offered(candidates@, label_of(reply_move(raw@)->Some_0)) ==> (r matches Err(e)
            && e@ == "LLM returned move "@ + label_of(reply_move(raw@)->Some_0) + " outside candidate list"@),
{
    let coord = match parse_response(raw) {
        Ok(c) => c,
        Err(e) => {
            return Err(e);
        },
    };
    let label = coord_to_label(coord);
    let mut i: usize = 0;
    while i < candidates.len()
        invariant
            i <= candidates@.len(),
            label@ == label_of(coord),
            reply_move(raw@) == Some(coord),
            forall|k: int| 0 <= k < i ==> (#[trigger] candidates@[k])@ != label@,
        decreases candidates@.len() - i,
    {
        if candidates[i] == label {
            return Ok(coord);
        }
        i += 1;
    }
    let mut out = chars_of("LLM returned move ");
    let tail = chars_of(label.as_str());
    let mut k: usize = 0;
    let ghost head = out@;
    while k < tail.len()
        invariant
            k <= tail@.len(),
            out@ == head + tail@.subrange(0, k as int),
        decreases tail@.len() - k,
    {
        out.push(tail[k]);
        k += 1;
        assert(out@ =~= head + tail@.subrange(0, k as int));
    }
    assert(tail@.subrange(0, tail@.len() as int) =~= tail@);
    let rest = chars_of(" outside candidate list");
    let mut j: usize = 0;
    let ghost mid = out@;
    while j < rest.len()
        invariant
            j <= rest@.len(),
            out@ == mid + rest@.subrange(0, j as int),
        decreases rest@.len() - j,
    {
        out.push(rest[j]);
        j += 1;
        assert(out@ =~= mid + rest@.subrange(0, j as int));
    }
    assert(rest@.subrange(0, rest@.len() as int) =~= rest@);
    Err(text_of(&out))
}

} // verus!
