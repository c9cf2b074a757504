//! Putting streamed text together: where a chunk continues what came before
//! it, and where it starts on a line of its own.

use vstd::prelude::*;

use crate::format::split_message;
use crate::text::{alphanumeric, chars_of, ends_with, space};

verus! {

/// Shown where a message would otherwise be empty: a zero-width space.
pub const BLANK: &'static str = "\u{200b}";

/// The messages that show a text while it streams: never none.
pub open spec fn shown(content: Seq<char>, limit: nat) -> Seq<Seq<char>> {
    if content.len() == 0 {
        seq![BLANK@]
    } else {
        crate::format::messages(content, limit)
    }
}

/// Splits what is shown while streaming into messages; an empty text is shown
/// as a zero-width space.
pub fn split_streaming_display(content: &str, message_limit: usize) -> (r: Vec<String>)
    ensures
        crate::text::texts(r@) == shown(content@, message_limit as nat),
        r@.len() > 0,
{
    if content.is_empty() {
        let mut r: Vec<String> = Vec::new();
        r.push(BLANK.to_owned());
        assert(crate::text::texts(r@) =~= seq![BLANK@]);
        return r;
    }
    split_message(content, message_limit)
}

/// A character that ends a sentence or a clause, in Latin or full-width form.
pub open spec fn ends_sentence(c: char) -> bool {
    ||| c == '.'
    ||| c == '!'
    ||| c == '?'
    ||| c == ':'
    ||| c == ';'
    ||| c == '。'
    ||| c == '！'
    ||| c == '？'
    ||| c == '：'
    ||| c == '；'
}

/// Whether the character ends a sentence or a clause.
pub fn is_sentence_terminal(ch: char) -> (r: bool)
    ensures
        r == ends_sentence(ch),
{
    ch == '.' || ch == '!' || ch == '?' || ch == ':' || ch == ';' || ch == '。' || ch == '！' || ch
        == '？' || ch == '：' || ch == '；'
}

/// Whether the character can begin a text: a letter or a digit.
pub fn is_text_start(ch: char) -> (r: bool)
    ensures
        r == crate::text::is_alphanumeric(ch),
{
    alphanumeric(ch)
}

/// The text after its last line feed.
pub open spec fn last_line(s: Seq<char>) -> Seq<char>
    decreases s.len(),
{
    if s.len() == 0 || s.last() == '\n' {
        Seq::empty()
    } else {
        last_line(s.drop_last()).push(s.last())
    }
}

/// Whether an inline code span is open at the end of `line`, read from `i` on,
/// with the run of backticks that is open and the number of backslashes that
/// stand directly before `i`. A run of backticks behind an odd number of
/// backslashes starts one character later; an open run closes with a run of
/// the same length.
pub open spec fn span_open(line: Seq<char>, i: int, open: Option<nat>, slashes: nat) -> bool
    decreases line.len() - i,
{
    if i < 0 || i >= line.len() {
        open is Some
    } else if line[i] == '\\' {
        span_open(line, i + 1, open, slashes + 1)
    } else if line[i] == '`' && slashes % 2 == 0 {
        proof {
            lemma_ticks(line, i);
        }
        let run = ticks(line, i);
        span_open(
            line,
            i + run,
            match open {
                None => Some(run),
                Some(n) => if n == run {
                    None
                } else {
                    Some(n)
                },
            },
            0,
        )
    } else {
        span_open(line, i + 1, open, 0)
    }
}

/// The number of backticks that stand in a row from position `i` on.
pub open spec fn ticks(line: Seq<char>, i: int) -> nat
    decreases line.len() - i,
{
    if 0 <= i < line.len() && line[i] == '`' {
        1 + ticks(line, i + 1)
    } else {
        0
    }
}

/// A run of backticks ends within the line.
pub proof fn lemma_ticks(line: Seq<char>, i: int)
    requires
        0 <= i <= line.len(),
    ensures
        ticks(line, i) <= line.len() - i,
    decreases line.len() - i,
{
    if i < line.len() {
        lemma_ticks(line, i + 1);
    }
}

/// An inline code span is open at the end of the text.
pub open spec fn in_code_span(s: Seq<char>) -> bool {
    span_open(last_line(s), 0, None, 0)
}

proof fn lemma_last_line(s: Seq<char>, p: int)
    requires
        0 <= p <= s.len(),
        p > 0 ==> s[p - 1] == '\n',
        forall|j: int| p <= j < s.len() ==> s[j] != '\n',
    ensures
        last_line(s) == s.skip(p),
    decreases s.len(),
{
    if s.len() == p {
        assert(s.skip(p) =~= Seq::empty());
    } else {
        lemma_last_line(s.drop_last(), p);
        assert(s.drop_last().skip(p).push(s.last()) =~= s.skip(p));
    }
}

/// Whether an inline code span is open at the end of the text.
pub fn is_inside_inline_code_span(text: &str) -> (r: bool)
    ensures
        r == in_code_span(text@),
{
    let all = chars_of(text);
    let mut p: usize = all.len();
    while p > 0 && all[p - 1] != '\n'
        invariant
            p <= all.len(),
            forall|j: int| p <= j < all@.len() ==> all@[j] != '\n',
        decreases p,
    {
        p -= 1;
    }
    proof {
        lemma_last_line(text@, p as int);
    }
    let line = crate::text::skip(all.as_slice(), p);
    let mut open: Option<usize> = None;
    let mut odd = false;
    let ghost mut slashes: nat = 0;
    let mut i: usize = 0;
    while i < line.len()
        invariant
            i <= line.len(),
            odd == (slashes % 2 == 1),
            span_open(line@, 0, None, 0) == span_open(
                line@,
                i as int,
                match open {
                    Some(n) => Some(n as nat),
                    None => None,
                },
                slashes,
            ),
        decreases line.len() - i,
    {
        let c = line[i];
        if c == '\\' {
            odd = !odd;
            proof {
                slashes = slashes + 1;
            }
            i += 1;
        } else {
            if c == '`' && !odd {
                let start = i;
                i += 1;
                while i < line.len() && line[i] == '`'
                    invariant
                        start < i <= line.len(),
                        ticks(line@, start as int) == i - start + ticks(line@, i as int),
                    decreases line.len() - i,
                {
                    i += 1;
                }
                let run: usize = i - start;
                open = match open {
                    None => Some(run),
                    Some(n) => if n == run {
                        None
                    } else {
                        Some(n)
                    },
                };
            } else {
                i += 1;
            }
            odd = false;
            proof {
                slashes = 0;
            }
        }
    }
    open.is_some()
}

/// A chunk belongs on a new line: what came before ends a sentence outside a
/// code span, the chunk begins with a letter or digit, and no white space
/// stands between them.
pub open spec fn separates(s: Seq<char>, chunk: Seq<char>) -> bool {
    &&& s.len() > 0
    &&& chunk.len() > 0
    &&& !crate::text::is_space(chunk[0])
    &&& !crate::text::is_space(s.last())
    &&& !in_code_span(s)
    &&& ends_sentence(s.last())
    &&& crate::text::is_alphanumeric(chunk[0])
}

/// Whether a streamed chunk starts a line of its own.
pub fn should_separate_stream_chunk(text_buf: &str, chunk: &str) -> (r: bool)
    ensures
        r == separates(text_buf@, chunk@),
{
    let before = chars_of(text_buf);
    let next = chars_of(chunk);
    if before.len() == 0 || next.len() == 0 {
        return false;
    }
    let prev = before[before.len() - 1];
    if space(next[0]) || space(prev) {
        return false;
    }
    if is_inside_inline_code_span(text_buf) {
        return false;
    }
    is_sentence_terminal(prev) && is_text_start(next[0])
}

/// What stands between a finished response and the next one: as many line
/// feeds as are missing to an empty line, and none where the next response
/// brings its own.
pub open spec fn separator(s: Seq<char>, next: Seq<char>) -> Seq<char> {
    if s.len() == 0 || (next.len() > 0 && next[0] == '\n') || crate::text::ends(s, "\n\n"@) {
        Seq::empty()
    } else if s.last() == '\n' {
        "\n"@
    } else {
        "\n\n"@
    }
}

/// Puts an empty line behind the text unless the next chunk or the text itself
/// already provides for it.
pub fn ensure_response_separator(text_buf: &mut String, next_chunk: &str)
    ensures
        final(text_buf)@ == old(text_buf)@ + separator(old(text_buf)@, next_chunk@),
{
    let before = chars_of(text_buf.as_str());
    let next = chars_of(next_chunk);
    assert(text_buf@ + Seq::empty() =~= text_buf@);
    if before.len() == 0 || (next.len() > 0 && next[0] == '\n') || ends_with(
        before.as_slice(),
        "\n\n",
    ) {
        return;
    }
    if before[before.len() - 1] == '\n' {
        text_buf.push_str("\n");
    } else {
        text_buf.push_str("\n\n");
    }
}

/// The text with a chunk behind it. A chunk of a separate response is set off
/// by an empty line; another goes on a new line or follows directly.
pub open spec fn appended(s: Seq<char>, chunk: Seq<char>, separate: bool) -> Seq<char> {
    if separate {
        s + separator(s, chunk) + chunk
    } else if separates(s, chunk) {
        s + "\n"@ + chunk
    } else {
        s + chunk
    }
}

/// Appends a streamed chunk.
pub fn append_text_chunk(text_buf: &mut String, chunk: &str, separate_response: bool)
    ensures
        final(text_buf)@ == appended(old(text_buf)@, chunk@, separate_response),
{
    if separate_response {
        ensure_response_separator(text_buf, chunk);
    } else if should_separate_stream_chunk(text_buf.as_str(), chunk) {
        text_buf.push_str("\n");
    }
    text_buf.push_str(chunk);
}

/// Appending loses nothing: the text stays in front, the chunk comes last, and
/// only line feeds stand between them.
pub proof fn lemma_appended_keeps_both(s: Seq<char>, chunk: Seq<char>, separate: bool)
    ensures
        ({
            let r = appended(s, chunk, separate);
            &&& s.len() + chunk.len() <= r.len() <= s.len() + chunk.len() + 2
            &&& r.take(s.len() as int) == s
            &&& r.skip(r.len() - chunk.len()) == chunk
            &&& forall|i: int| s.len() <= i < r.len() - chunk.len() ==> r[i] == '\n'
        }),
{
    reveal_strlit("\n");
    reveal_strlit("\n\n");
    let r = appended(s, chunk, separate);
    assert(r.take(s.len() as int) =~= s);
    assert(r.skip(r.len() - chunk.len()) =~= chunk);
}

/// A separate response never runs on from the text before it: an empty line
/// stands between them, unless the response brings a line feed of its own.
pub proof fn lemma_separate_response_is_set_off(s: Seq<char>, chunk: Seq<char>)
    requires
        s.len() > 0,
        chunk.len() > 0,
        chunk[0] != '\n',
    ensures
        ({
            let r = appended(s, chunk, true);
            let n = r.len() - chunk.len();
            n >= 2 && r[n - 1] == '\n' && r[n - 2] == '\n'
        }),
{
    reveal_strlit("\n");
    reveal_strlit("\n\n");
    if crate::text::ends(s, "\n\n"@) {
        assert(s.subrange(s.len() - 2, s.len() as int)[0] == '\n');
        assert(s.subrange(s.len() - 2, s.len() as int)[1] == '\n');
    }
}

/// What is shown while a text streams loses nothing of it, fits the platform and
/// is never nothing.
pub proof fn lemma_shown_is_the_whole_text(content: Seq<char>, limit: nat)
    ensures
        content.len() > 0 ==> shown(content, limit).flatten() == content,
        content.len() == 0 ==> shown(content, limit) == seq![seq!['\u{200b}']],
        forall|i: int|
            0 <= i < shown(content, limit).len() ==> 0 < (#[trigger] shown(content, limit)[i]).len()
                <= crate::format::room(limit),
        shown(content, limit).len() > 0,
{
    reveal_strlit("\u{200b}");
    crate::format::lemma_messages_lossless(content, limit);
    crate::format::lemma_messages_fit(content, limit);
    crate::format::lemma_cut(content, limit);
    assert(BLANK@ =~= seq!['\u{200b}']);
}

/// A streamed chunk that continues a sentence follows directly: where either is
/// empty, where white space stands at the seam, or where the text does not end a
/// sentence.
pub proof fn lemma_running_text_is_joined(s: Seq<char>, chunk: Seq<char>)
    requires
        s.len() == 0 || chunk.len() == 0 || crate::text::is_space(chunk[0]) || crate::text::is_space(
            s.last(),
        ) || !crate::text::is_alphanumeric(chunk[0]) || !(s.last() == '.' || s.last() == '!'
            || s.last() == '?' || s.last() == ':' || s.last() == ';' || s.last() == '。' || s.last()
            == '！' || s.last() == '？' || s.last() == '：' || s.last() == '；'),
    ensures
        appended(s, chunk, false) == s + chunk,
{
}

/// A chunk that starts a sentence after the end of one starts a line of its own,
/// where no code is open.
pub proof fn lemma_new_sentence_starts_a_line(s: Seq<char>, chunk: Seq<char>)
    requires
        s.len() > 0,
        chunk.len() > 0,
        !crate::text::is_space(chunk[0]),
        !crate::text::is_space(s.last()),
        crate::text::is_alphanumeric(chunk[0]),
        s.last() == '.' || s.last() == '!' || s.last() == '?' || s.last() == ':' || s.last() == ';'
            || s.last() == '。' || s.last() == '！' || s.last() == '？' || s.last() == '：'
            || s.last() == '；',
        forall|i: int| 0 <= i < s.len() ==> (#[trigger] s[i]) != '`',
    ensures
        appended(s, chunk, false) == s + "\n"@ + chunk,
{
    lemma_no_ticks_no_span(s);
}

/// The text after the last line feed is a part of the text.
proof fn lemma_last_line_is_part(s: Seq<char>)
    ensures
        last_line(s).len() <= s.len(),
        last_line(s) == s.skip(s.len() - last_line(s).len()),
    decreases s.len(),
{
    if s.len() > 0 && s.last() != '\n' {
        lemma_last_line_is_part(s.drop_last());
        assert(last_line(s) =~= s.skip(s.len() - last_line(s).len()));
    } else {
        assert(s.skip(s.len() as int) =~= Seq::empty());
    }
}

proof fn lemma_no_ticks_no_span(s: Seq<char>)
    requires
        forall|i: int| 0 <= i < s.len() ==> (#[trigger] s[i]) != '`',
    ensures
        !in_code_span(s),
{
    lemma_last_line_is_part(s);
    let line = last_line(s);
    assert forall|i: int| 0 <= i < line.len() implies (#[trigger] line[i]) != '`' by {
        assert(line[i] == s[s.len() - line.len() + i]);
    }
    lemma_span_stays(line, 0, None, 0);
}

/// Without backticks from `i` on, what is open stays so.
proof fn lemma_span_stays(line: Seq<char>, i: int, open: Option<nat>, slashes: nat)
    requires
        0 <= i <= line.len(),
        forall|j: int| i <= j < line.len() ==> (#[trigger] line[j]) != '`',
    ensures
        span_open(line, i, open, slashes) == (open is Some),
    decreases line.len() - i,
{
    if i < line.len() {
        if line[i] == '\\' {
            lemma_span_stays(line, i + 1, open, slashes + 1);
        } else {
            lemma_span_stays(line, i + 1, open, 0);
        }
    }
}

/// Ordinary characters: no backtick, no backslash, no line feed.
pub open spec fn ordinary(s: Seq<char>) -> bool {
    forall|i: int|
        0 <= i < s.len() ==> (#[trigger] s[i]) != '`' && s[i] != '\\' && s[i] != '\n'
}

/// A run of backticks.
pub open spec fn tick_run(n: nat) -> Seq<char> {
    Seq::new(n, |i: int| '`')
}

proof fn lemma_run_length(line: Seq<char>, i: int, n: nat)
    requires
        0 <= i,
        i + n <= line.len(),
        forall|j: int| i <= j < i + n ==> (#[trigger] line[j]) == '`',
        i + n < line.len() ==> line[i + n] != '`',
    ensures
        ticks(line, i) == n,
    decreases n,
{
    if n > 0 {
        lemma_run_length(line, i + 1, (n - 1) as nat);
    }
}

proof fn lemma_span_skips(line: Seq<char>, i: int, k: int, open: Option<nat>)
    requires
        0 <= i <= k <= line.len(),
        forall|j: int| i <= j < k ==> (#[trigger] line[j]) != '`' && line[j] != '\\',
    ensures
        span_open(line, i, open, 0) == span_open(line, k, open, 0),
    decreases k - i,
{
    if i < k {
        lemma_span_skips(line, i + 1, k, open);
    }
}

proof fn lemma_line_without_feeds(line: Seq<char>)
    requires
        forall|i: int| 0 <= i < line.len() ==> (#[trigger] line[i]) != '\n',
    ensures
        last_line(line) == line,
{
    lemma_last_line(line, 0);
    assert(line.skip(0) =~= line);
}

/// Code opens with a run of backticks and closes with a run of the same length,
/// whatever its length: inside it a chunk follows directly, behind it a sentence
/// starts a line of its own.
pub proof fn lemma_code_span_opens_and_closes(
    a: Seq<char>,
    n: nat,
    b: Seq<char>,
    c: Seq<char>,
)
    requires
        ordinary(a),
        ordinary(b),
        ordinary(c),
        b.len() > 0,
        n > 0,
    ensures
        in_code_span(a + tick_run(n) + b),
        !in_code_span(a + tick_run(n) + b + tick_run(n) + c),
        forall|m: nat|
            m > 0 && m != n ==> in_code_span(a + tick_run(n) + b + #[trigger] tick_run(m) + c),
        forall|chunk: Seq<char>| (#[trigger] appended(a + tick_run(n) + b, chunk, false))
            == a + tick_run(n) + b + chunk,
{
    let first = a + tick_run(n) + b;
    let p = a.len() as int;
    let q = p + n;
    assert forall|i: int| 0 <= i < first.len() implies (#[trigger] first[i]) != '\n' by {
        if i < p {
            assert(first[i] == a[i]);
        } else if i >= q {
            assert(first[i] == b[i - q]);
        }
    }
    lemma_line_without_feeds(first);
    assert forall|j: int| 0 <= j < p implies (#[trigger] first[j]) != '`' && first[j] != '\\' by {
        assert(first[j] == a[j]);
    }
    lemma_span_skips(first, 0, p, None);
    assert(first[q] == b[0]);
    lemma_run_length(first, p, n);
    assert forall|j: int| q <= j < first.len() implies (#[trigger] first[j]) != '`' by {
        assert(first[j] == b[j - q]);
    }
    lemma_span_stays(first, q, Some(n), 0);
    assert(span_open(first, p, None, 0) == span_open(first, q, Some(n), 0));
    assert forall|m: nat| m > 0 implies (in_code_span(
        a + tick_run(n) + b + #[trigger] tick_run(m) + c,
    ) <==> m != n) by {
        lemma_second_run(a, n, b, m, c);
    }
    assert(tick_run(n) == tick_run(n));
}

proof fn lemma_second_run(a: Seq<char>, n: nat, b: Seq<char>, m: nat, c: Seq<char>)
    requires
        ordinary(a),
        ordinary(b),
        ordinary(c),
        b.len() > 0,
        n > 0,
        m > 0,
    ensures
        in_code_span(a + tick_run(n) + b + tick_run(m) + c) <==> m != n,
{
    let line = a + tick_run(n) + b + tick_run(m) + c;
    let p = a.len() as int;
    let q = p + n;
    let r = q + b.len();
    let t = r + m;
    assert forall|j: int| 0 <= j < p implies (#[trigger] line[j]) == a[j] by {}
    assert forall|j: int| q <= j < r implies (#[trigger] line[j]) == b[j - q] by {}
    assert forall|j: int| t <= j < line.len() implies (#[trigger] line[j]) == c[j - t] by {}
    assert forall|i: int| 0 <= i < line.len() implies (#[trigger] line[i]) != '\n' by {
        if i < p {
            assert(line[i] == a[i]);
        } else if q <= i < r {
            assert(line[i] == b[i - q]);
        } else if i >= t {
            assert(line[i] == c[i - t]);
        }
    }
    lemma_line_without_feeds(line);
    assert forall|j: int| 0 <= j < p implies (#[trigger] line[j]) != '`' && line[j] != '\\' by {
        assert(line[j] == a[j]);
    }
    lemma_span_skips(line, 0, p, None);
    assert(line[q] == b[0]);
    lemma_run_length(line, p, n);
    assert forall|j: int| q <= j < r implies (#[trigger] line[j]) != '`' && line[j] != '\\' by {
        assert(line[j] == b[j - q]);
    }
    lemma_span_skips(line, q, r, Some(n));
    if t < line.len() {
        assert(line[t] == c[0]);
    }
    lemma_run_length(line, r, m);
    assert forall|j: int| t <= j < line.len() implies (#[trigger] line[j]) != '`' by {
        assert(line[j] == c[j - t]);
    }
    if m == n {
        lemma_span_stays(line, t, None, 0);
    } else {
        lemma_span_stays(line, t, Some(n), 0);
    }
}

/// A backtick behind a backslash opens no code.
pub proof fn lemma_escaped_tick_opens_nothing(a: Seq<char>, b: Seq<char>)
    requires
        ordinary(a),
        ordinary(b),
    ensures
        !in_code_span(a + seq!['\\', '`'] + b),
{
    let line = a + seq!['\\', '`'] + b;
    let p = a.len() as int;
    assert forall|i: int| 0 <= i < line.len() implies (#[trigger] line[i]) != '\n' by {
        if i < p {
            assert(line[i] == a[i]);
        } else if i >= p + 2 {
            assert(line[i] == b[i - p - 2]);
        }
    }
    lemma_line_without_feeds(line);
    assert forall|j: int| 0 <= j < p implies (#[trigger] line[j]) != '`' && line[j] != '\\' by {
        assert(line[j] == a[j]);
    }
    lemma_span_skips(line, 0, p, None);
    assert(line[p] == '\\' && line[p + 1] == '`');
    assert forall|j: int| p + 2 <= j < line.len() implies (#[trigger] line[j]) != '`' by {
        assert(line[j] == b[j - p - 2]);
    }
    lemma_span_stays(line, p + 2, None, 0);
    assert(span_open(line, p, None, 0) == span_open(line, p + 1, None, 1));
    assert(span_open(line, p + 1, None, 1) == span_open(line, p + 2, None, 0));
}

/// Only the line at the end counts: code that is open on a line before it is
/// forgotten.
pub proof fn lemma_code_ends_with_its_line(s: Seq<char>, line: Seq<char>)
    requires
        forall|i: int| 0 <= i < line.len() ==> (#[trigger] line[i]) != '\n',
    ensures
        in_code_span(s.push('\n') + line) == in_code_span(line),
{
    let all = s.push('\n') + line;
    lemma_last_line(all, s.len() + 1int);
    assert(all.skip(s.len() + 1int) =~= line);
    lemma_line_without_feeds(line);
}

/// A separate response is set off by exactly an empty line: as many line feeds
/// are put in as are missing, and none where the response brings its own or
/// there is nothing before it.
pub proof fn lemma_separator_is_what_is_missing(s: Seq<char>, chunk: Seq<char>)
    ensures
        appended(Seq::empty(), chunk, true) == chunk,
        chunk.len() > 0 && chunk[0] == '\n' ==> appended(s, chunk, true) == s + chunk,
        s.len() >= 2 && s[s.len() - 1] == '\n' && s[s.len() - 2] == '\n' ==> appended(
            s,
            chunk,
            true,
        ) == s + chunk,
        (chunk.len() == 0 || chunk[0] != '\n') && s.len() >= 1 && s[s.len() - 1] == '\n' && (
        s.len() == 1 || s[s.len() - 2] != '\n') ==> appended(s, chunk, true) == s + seq!['\n']
            + chunk,
        (chunk.len() == 0 || chunk[0] != '\n') && s.len() >= 1 && s[s.len() - 1] != '\n'
            ==> appended(s, chunk, true) == s + seq!['\n', '\n'] + chunk,
{
    reveal_strlit("\n");
    reveal_strlit("\n\n");
    assert("\n"@ =~= seq!['\n']);
    assert("\n\n"@ =~= seq!['\n', '\n']);
    let none = Seq::<char>::empty();
    assert(none + none + chunk =~= chunk);
    assert(s + none + chunk =~= s + chunk);
    if s.len() >= 2 {
        let end = s.subrange(s.len() - 2, s.len() as int);
        assert(end[0] == s[s.len() - 2] && end[1] == s[s.len() - 1]);
        if s[s.len() - 1] == '\n' && s[s.len() - 2] == '\n' {
            assert(end =~= "\n\n"@);
        }
    }
}

} // verus!
