//! Output directives: `[[key:value]]` lines by which an agent steers delivery.
//!
//! Consecutive directive lines at the start of the output form the header.
//! `attach_image` may also stand later, alone on its line and outside fenced
//! code blocks. Directives are removed from the text that users see.

use vstd::prelude::*;
use vstd::slice::slice_subrange;

use crate::text::{
    ascii_alphanumeric, begins_with, byte_len, chars_of, control, find_chars, position_of, skip,
    spells, string_of, take, trim_chars, trim_start_chars,
};

verus! {

/// The longest message id that `reply_to` accepts.
pub const MAX_REPLY_ID_CHARS: usize = 64;

/// The longest path, in bytes, that an attachment directive accepts.
pub const MAX_PATH_BYTES: usize = 4096;

/// Parsed directives of an agent's output.
#[derive(Debug)]
pub struct OutputDirectives {
    /// Message to reply to.
    pub reply_to: Option<String>,
    /// Local image files to attach, in the order in which they were named.
    pub attach_images: Vec<String>,
    /// Other local files to attach, in the order in which they were named.
    pub attach_files: Vec<String>,
}

/// The directives as texts.
#[verifier::ext_equal]
pub struct DirectivesView {
    pub reply_to: Option<Seq<char>>,
    pub attach_images: Seq<Seq<char>>,
    pub attach_files: Seq<Seq<char>>,
}

impl View for OutputDirectives {
    type V = DirectivesView;

    open spec fn view(&self) -> DirectivesView {
        DirectivesView {
            reply_to: crate::text::opt_text(self.reply_to),
            attach_images: crate::text::texts(self.attach_images@),
            attach_files: crate::text::texts(self.attach_files@),
        }
    }
}

/// No directive at all.
pub open spec fn no_directives() -> DirectivesView {
    DirectivesView { reply_to: None, attach_images: Seq::empty(), attach_files: Seq::empty() }
}

impl Default for OutputDirectives {
    fn default() -> (r: Self)
        ensures
            r@ == no_directives(),
    {
        let r = OutputDirectives {
            reply_to: None,
            attach_images: Vec::new(),
            attach_files: Vec::new(),
        };
        assert(r@ =~= no_directives());
        r
    }
}

// ---------------------------------------------------------------------------
// One line
// ---------------------------------------------------------------------------

/// One `[[key:value]]` and what follows it on its line.
#[verifier::ext_equal]
pub struct DirectiveView {
    pub key: Seq<char>,
    pub value: Seq<char>,
    pub trailing: Seq<char>,
}

/// The directive with which a line begins: `[[`, a key, a colon, a value and
/// the first `]]`. White space around each part does not count.
pub open spec fn directive(line: Seq<char>) -> Option<DirectiveView> {
    let t = crate::text::trim(line);
    if !crate::text::begins(t, "[["@) {
        None
    } else {
        let after = t.skip(2);
        match crate::text::find(after, "]]"@) {
            None => None,
            Some(close) => {
                let inner = after.take(close);
                let colon = crate::text::position(inner, ':');
                if colon == inner.len() {
                    None
                } else {
                    Some(
                        DirectiveView {
                            key: crate::text::trim(inner.take(colon)),
                            value: crate::text::trim(inner.skip(colon + 1)),
                            trailing: crate::text::trim(after.skip(close + 2)),
                        },
                    )
                }
            },
        }
    }
}

/// A message id that `reply_to` accepts: not empty, at most 64 characters,
/// ASCII letters, digits, `.`, `-` and `_` only.
pub open spec fn valid_reply_id(v: Seq<char>) -> bool {
    &&& 0 < v.len() <= MAX_REPLY_ID_CHARS
    &&& forall|i: int| 0 <= i < v.len() ==> reply_id_char(#[trigger] v[i])
}

pub open spec fn reply_id_char(c: char) -> bool {
    crate::text::is_ascii_alphanumeric(c) || c == '.' || c == '-' || c == '_'
}

/// A path that an attachment directive accepts: not empty, at most 4096 bytes,
/// no control character but the tab.
pub open spec fn valid_path(v: Seq<char>) -> bool {
    &&& 0 < v.len()
    &&& crate::text::utf8_len(v) <= MAX_PATH_BYTES
    &&& forall|i: int|
        0 <= i < v.len() ==> !(crate::text::is_control(#[trigger] v[i]) && v[i] != '\t')
}

/// What one directive adds to those before it. A later valid `reply_to`
/// replaces an earlier one; an unknown key and an invalid value change nothing.
pub open spec fn apply(d: DirectivesView, x: DirectiveView) -> DirectivesView {
    if x.key == "reply_to"@ {
        if valid_reply_id(x.value) {
            DirectivesView { reply_to: Some(x.value), ..d }
        } else {
            d
        }
    } else if x.key == "attach_image"@ {
        if valid_path(x.value) {
            DirectivesView { attach_images: d.attach_images.push(x.value), ..d }
        } else {
            d
        }
    } else if x.key == "attach_file"@ {
        if valid_path(x.value) {
            DirectivesView { attach_files: d.attach_files.push(x.value), ..d }
        } else {
            d
        }
    } else {
        d
    }
}

struct Directive<'a> {
    key: &'a [char],
    value: &'a [char],
    trailing: &'a [char],
}

impl<'a> Directive<'a> {
    spec fn model(self) -> DirectiveView {
        DirectiveView { key: self.key@, value: self.value@, trailing: self.trailing@ }
    }
}

fn parse_directive<'a>(line: &'a [char]) -> (r: Option<Directive<'a>>)
    ensures
        match r {
            Some(x) => directive(line@) == Some(x.model()),
            None => directive(line@) is None,
        },
{
    proof {
        reveal_strlit("[[");
        reveal_strlit("]]");
    }
    let t = trim_chars(line);
    if !begins_with(t, "[[") {
        return None;
    }
    let after = skip(t, 2);
    match find_chars(after, "]]") {
        None => None,
        Some(close) => {
            proof {
                crate::text::lemma_find(after@, "]]"@, 0);
                assert(crate::text::occurs_at(after@, "]]"@, close as int));
                assert(close + 2 <= after.len());
            }
            let inner = take(after, close);
            let colon = position_of(inner, ':');
            if colon == inner.len() {
                None
            } else {
                Some(
                    Directive {
                        key: trim_chars(take(inner, colon)),
                        value: trim_chars(skip(inner, colon + 1)),
                        trailing: trim_chars(skip(after, close + 2)),
                    },
                )
            }
        },
    }
}

fn is_valid_reply_id(v: &[char]) -> (r: bool)
    ensures
        r == valid_reply_id(v@),
{
    if v.len() == 0 || v.len() > MAX_REPLY_ID_CHARS {
        return false;
    }
    let mut i: usize = 0;
    while i < v.len()
        invariant
            i <= v.len(),
            0 < v@.len() <= MAX_REPLY_ID_CHARS,
            forall|j: int| 0 <= j < i ==> reply_id_char(#[trigger] v@[j]),
        decreases v.len() - i,
    {
        let c = v[i];
        if !(ascii_alphanumeric(c) || c == '.' || c == '-' || c == '_') {
            assert(!reply_id_char(v@[i as int]));
            return false;
        }
        i += 1;
    }
    true
}

/// Whether an attachment directive accepts the value as a path.
pub fn is_valid_attachment_directive_path(value: &str) -> (r: bool)
    ensures
        r == valid_path(value@),
{
    let v = chars_of(value);
    if v.len() == 0 || byte_len(value) > MAX_PATH_BYTES {
        return false;
    }
    let mut i: usize = 0;
    while i < v.len()
        invariant
            i <= v.len(),
            v@ == value@,
            forall|j: int|
                0 <= j < i ==> !(crate::text::is_control(#[trigger] v@[j]) && v@[j] != '\t'),
        decreases v.len() - i,
    {
        if control(v[i]) && v[i] != '\t' {
            assert(crate::text::is_control(value@[i as int]));
            return false;
        }
        i += 1;
    }
    true
}

fn apply_directive(d: &mut OutputDirectives, x: &Directive)
    ensures
        final(d)@ == apply(old(d)@, x.model()),
{
    if spells(x.key, "reply_to") {
        if is_valid_reply_id(x.value) {
            d.reply_to = Some(string_of(x.value));
        }
    } else if spells(x.key, "attach_image") {
        let path = string_of(x.value);
        if is_valid_attachment_directive_path(path.as_str()) {
            let ghost before = d.attach_images@;
            d.attach_images.push(path);
            assert(crate::text::texts(d.attach_images@) =~= crate::text::texts(before).push(
                x.value@,
            ));
        }
    } else if spells(x.key, "attach_file") {
        let path = string_of(x.value);
        if is_valid_attachment_directive_path(path.as_str()) {
            let ghost before = d.attach_files@;
            d.attach_files.push(path);
            assert(crate::text::texts(d.attach_files@) =~= crate::text::texts(before).push(
                x.value@,
            ));
        }
    }
    assert(d@ =~= apply(old(d)@, x.model()));
}

// ---------------------------------------------------------------------------
// The header
// ---------------------------------------------------------------------------

/// What the header leaves: the directives, the text that followed the last of
/// them on its line, and the lines after the header.
#[verifier::ext_equal]
pub struct HeaderView {
    pub directives: DirectivesView,
    pub trailing: Seq<char>,
    pub rest: Seq<char>,
}

/// The header of an output: directive lines up to the first line that is none,
/// or up to and including the first with text behind its directive.
pub open spec fn header(s: Seq<char>, d: DirectivesView) -> HeaderView
    decreases s.len(),
{
    proof {
        crate::text::lemma_lines(s);
    }
    if s.len() == 0 {
        HeaderView { directives: d, trailing: Seq::empty(), rest: s }
    } else {
        match directive(crate::text::first_line(s)) {
            None => HeaderView { directives: d, trailing: Seq::empty(), rest: s },
            Some(x) => if x.trailing.len() > 0 {
                HeaderView {
                    directives: apply(d, x),
                    trailing: x.trailing,
                    rest: crate::text::later_lines(s),
                }
            } else {
                header(crate::text::later_lines(s), apply(d, x))
            },
        }
    }
}

struct Header<'a> {
    directives: OutputDirectives,
    trailing: &'a [char],
    rest: &'a [char],
}

fn later_lines<'a>(s: &'a [char], end: usize) -> (r: &'a [char])
    requires
        end == crate::text::position(s@, '\n'),
        end <= s@.len(),
    ensures
        r@ == crate::text::later_lines(s@),
{
    if end < s.len() {
        skip(s, end + 1)
    } else {
        let r = skip(s, end);
        assert(r@ =~= Seq::empty());
        r
    }
}

fn parse_header<'a>(content: &'a [char]) -> (r: Header<'a>)
    ensures
        header(content@, no_directives()) == (HeaderView {
            directives: r.directives@,
            trailing: r.trailing@,
            rest: r.rest@,
        }),
{
    let mut d = OutputDirectives::default();
    let mut rest = content;
    let nothing = slice_subrange(content, 0, 0);
    assert(nothing@ =~= Seq::<char>::empty());
    loop
        invariant
            header(content@, no_directives()) == header(rest@, d@),
            nothing@ == Seq::<char>::empty(),
        decreases rest@.len(),
    {
        proof {
            crate::text::lemma_lines(rest@);
        }
        if rest.len() == 0 {
            return Header { directives: d, trailing: nothing, rest };
        }
        let end = position_of(rest, '\n');
        match parse_directive(take(rest, end)) {
            None => {
                return Header { directives: d, trailing: nothing, rest };
            },
            Some(x) => {
                apply_directive(&mut d, &x);
                let later = later_lines(rest, end);
                if x.trailing.len() > 0 {
                    return Header { directives: d, trailing: x.trailing, rest: later };
                }
                rest = later;
            },
        }
    }
}

// ---------------------------------------------------------------------------
// Fenced code blocks
// ---------------------------------------------------------------------------

/// How many times `c` stands at the start of the text.
pub open spec fn leading(s: Seq<char>, c: char) -> nat
    decreases s.len(),
{
    if s.len() > 0 && s[0] == c {
        1 + leading(s.drop_first(), c)
    } else {
        0
    }
}

/// The fence that is open after a line, given the one open before it. A fence
/// opens with three or more backticks (and no backtick after them) or tildes;
/// it closes with a run of the same character, at least as long, alone on its
/// line.
pub open spec fn fence_after(open: Option<(char, nat)>, line: Seq<char>) -> Option<(char, nat)> {
    let t = crate::text::trim_start(line);
    match open {
        None => {
            let ticks = leading(t, '`');
            let tildes = leading(t, '~');
            if ticks >= 3 && crate::text::position(t.skip(ticks as int), '`') == t.len() - ticks {
                Some(('`', ticks))
            } else if tildes >= 3 {
                Some(('~', tildes))
            } else {
                None
            }
        },
        Some((c, n)) => {
            let run = leading(t, c);
            if run >= n && crate::text::trim(t.skip(run as int)).len() == 0 {
                None
            } else {
                open
            }
        },
    }
}

struct Fence {
    mark: char,
    run: usize,
}

spec fn fence_model(f: Option<Fence>) -> Option<(char, nat)> {
    match f {
        Some(x) => Some((x.mark, x.run as nat)),
        None => None,
    }
}

fn count_leading(s: &[char], c: char) -> (r: usize)
    ensures
        r == leading(s@, c),
        r <= s@.len(),
{
    let mut i: usize = 0;
    assert(s@.skip(0) =~= s@);
    while i < s.len() && s[i] == c
        invariant
            i <= s.len(),
            leading(s@, c) == i + leading(s@.skip(i as int), c),
        decreases s.len() - i,
    {
        assert(s@.skip(i as int).drop_first() =~= s@.skip(i + 1));
        i += 1;
    }
    i
}

fn next_fence(open: Option<Fence>, line: &[char]) -> (r: Option<Fence>)
    ensures
        fence_model(r) == fence_after(fence_model(open), line@),
{
    let t = trim_start_chars(line);
    match open {
        None => {
            let ticks = count_leading(t, '`');
            let tildes = count_leading(t, '~');
            if ticks >= 3 && position_of(skip(t, ticks), '`') == t.len() - ticks {
                Some(Fence { mark: '`', run: ticks })
            } else if tildes >= 3 {
                Some(Fence { mark: '~', run: tildes })
            } else {
                None
            }
        },
        Some(f) => {
            let run = count_leading(t, f.mark);
            if run >= f.run && trim_chars(skip(t, run)).len() == 0 {
                None
            } else {
                Some(f)
            }
        },
    }
}

// ---------------------------------------------------------------------------
// The body
// ---------------------------------------------------------------------------

/// The value of an `attach_image` directive that stands alone on its line.
pub open spec fn image_line(line: Seq<char>) -> Option<Seq<char>> {
    match directive(line) {
        Some(x) => if x.key == "attach_image"@ && x.trailing.len() == 0 {
            Some(x.value)
        } else {
            None
        },
        None => None,
    }
}

/// The text without its `attach_image` lines outside fenced code blocks, and
/// the images with the valid paths of those lines behind them.
pub open spec fn body(s: Seq<char>, fence: Option<(char, nat)>, images: Seq<Seq<char>>) -> (
    Seq<char>,
    Seq<Seq<char>>,
)
    decreases s.len(),
{
    proof {
        crate::text::lemma_lines(s);
    }
    if s.len() == 0 {
        (Seq::empty(), images)
    } else {
        let line = crate::text::first_line(s);
        let later = crate::text::later_lines(s);
        if fence is None && image_line(line) is Some {
            let path = image_line(line)->0;
            body(
                later,
                fence,
                if valid_path(path) {
                    images.push(path)
                } else {
                    images
                },
            )
        } else {
            let tail = body(later, fence_after(fence, line), images);
            (crate::text::first_line_whole(s) + tail.0, tail.1)
        }
    }
}

fn strip_body(
    content: &[char],
    start: Option<Fence>,
    images: &mut Vec<String>,
) -> (r: String)
    ensures
        body(content@, fence_model(start), crate::text::texts(old(images)@)) == (
            r@,
            crate::text::texts(final(images)@),
        ),
{
    let mut out = String::new();
    let mut rest = content;
    let mut fence = start;
    let ghost whole = body(content@, fence_model(start), crate::text::texts(images@));
    assert(Seq::<char>::empty() + whole.0 =~= whole.0);
    loop
        invariant
            whole == body(content@, fence_model(start), crate::text::texts(old(images)@)),
            whole.0 == out@ + body(
                rest@,
                fence_model(fence),
                crate::text::texts(images@),
            ).0,
            whole.1 == body(rest@, fence_model(fence), crate::text::texts(images@)).1,
        decreases rest@.len(),
    {
        proof {
            crate::text::lemma_lines(rest@);
        }
        if rest.len() == 0 {
            assert(whole.0 =~= out@);
            return out;
        }
        let end = position_of(rest, '\n');
        let line = take(rest, end);
        let later = later_lines(rest, end);
        let parsed = parse_directive(line);
        let mut image: Option<String> = None;
        if fence.is_none() {
            if let Some(x) = parsed {
                if spells(x.key, "attach_image") && x.trailing.len() == 0 {
                    image = Some(string_of(x.value));
                }
            }
        }
        match image {
            Some(path) => {
                if is_valid_attachment_directive_path(path.as_str()) {
                    let ghost before = images@;
                    images.push(path);
                    assert(crate::text::texts(images@) =~= crate::text::texts(before).push(path@));
                }
                rest = later;
            },
            None => {
                let kept = if end < rest.len() {
                    take(rest, end + 1)
                } else {
                    rest
                };
                let ghost tail = body(
                    later@,
                    fence_after(fence_model(fence), line@),
                    crate::text::texts(images@),
                );
                let ghost before = out@;
                let s = string_of(kept);
                out.push_str(s.as_str());
                assert(before + (kept@ + tail.0) =~= out@ + tail.0);
                fence = next_fence(fence, line);
                rest = later;
            },
        }
    }
}

// ---------------------------------------------------------------------------
// The whole output
// ---------------------------------------------------------------------------

/// The directives of an output and the text that is left of it.
pub open spec fn parsed(content: Seq<char>) -> (DirectivesView, Seq<char>) {
    let h = header(content, no_directives());
    let b = body(h.rest, fence_after(None, h.trailing), h.directives.attach_images);
    let d = DirectivesView { attach_images: b.1, ..h.directives };
    if h.trailing.len() == 0 {
        (d, b.0)
    } else if b.0.len() == 0 {
        (d, h.trailing)
    } else {
        (d, h.trailing + "\n"@ + b.0)
    }
}

/// Reads the directives of an agent's output and returns them with the text
/// that remains.
pub fn parse_output_directives(content: &str) -> (r: (OutputDirectives, String))
    ensures
        (r.0@, r.1@) == parsed(content@),
        r.0.reply_to is Some ==> valid_reply_id(r.0.reply_to->0@),
        forall|i: int|
            0 <= i < r.0.attach_images@.len() ==> valid_path(#[trigger] r.0.attach_images@[i]@),
        forall|i: int|
            0 <= i < r.0.attach_files@.len() ==> valid_path(#[trigger] r.0.attach_files@[i]@),
{
    let all = chars_of(content);
    let h = parse_header(all.as_slice());
    let mut d = h.directives;
    let fence = next_fence(None, h.trailing);
    let text = strip_body(h.rest, fence, &mut d.attach_images);
    proof {
        lemma_parsed_valid(content@);
        let v = parsed(content@).0;
        assert(d@ =~= v);
        assert forall|i: int| 0 <= i < d.attach_images@.len() implies valid_path(
            #[trigger] d.attach_images@[i]@,
        ) by {
            assert(v.attach_images[i] == d.attach_images@[i]@);
        }
        assert forall|i: int| 0 <= i < d.attach_files@.len() implies valid_path(
            #[trigger] d.attach_files@[i]@,
        ) by {
            assert(v.attach_files[i] == d.attach_files@[i]@);
        }
    }
    if h.trailing.len() == 0 {
        return (d, text);
    }
    let mut out = string_of(h.trailing);
    if !text.as_str().is_empty() {
        out.push_str("\n");
        out.push_str(text.as_str());
    }
    (d, out)
}

// ---------------------------------------------------------------------------
// Laws
// ---------------------------------------------------------------------------

/// Every value that the directives hold was accepted.
pub open spec fn all_valid(d: DirectivesView) -> bool {
    &&& d.reply_to is Some ==> valid_reply_id(d.reply_to->0)
    &&& forall|i: int| 0 <= i < d.attach_images.len() ==> valid_path(#[trigger] d.attach_images[i])
    &&& forall|i: int| 0 <= i < d.attach_files.len() ==> valid_path(#[trigger] d.attach_files[i])
}

proof fn lemma_header_valid(s: Seq<char>, d: DirectivesView)
    requires
        all_valid(d),
    ensures
        all_valid(header(s, d).directives),
    decreases s.len(),
{
    crate::text::lemma_lines(s);
    if s.len() > 0 {
        if let Some(x) = directive(crate::text::first_line(s)) {
            assert(all_valid(apply(d, x)));
            if x.trailing.len() == 0 {
                lemma_header_valid(crate::text::later_lines(s), apply(d, x));
            }
        }
    }
}

spec fn paths_valid(paths: Seq<Seq<char>>) -> bool {
    forall|i: int| 0 <= i < paths.len() ==> valid_path(#[trigger] paths[i])
}

proof fn lemma_body_valid(s: Seq<char>, fence: Option<(char, nat)>, images: Seq<Seq<char>>)
    requires
        paths_valid(images),
    ensures
        paths_valid(body(s, fence, images).1),
    decreases s.len(),
{
    crate::text::lemma_lines(s);
    if s.len() > 0 {
        let line = crate::text::first_line(s);
        let later = crate::text::later_lines(s);
        if fence is None && image_line(line) is Some {
            let path = image_line(line)->0;
            lemma_body_valid(
                later,
                fence,
                if valid_path(path) {
                    images.push(path)
                } else {
                    images
                },
            );
        } else {
            lemma_body_valid(later, fence_after(fence, line), images);
        }
    }
}

/// Whatever the agent writes, the directives that come out hold only accepted
/// message ids and accepted paths.
pub proof fn lemma_parsed_valid(content: Seq<char>)
    ensures
        all_valid(parsed(content).0),
{
    lemma_header_valid(content, no_directives());
    let h = header(content, no_directives());
    lemma_body_valid(h.rest, fence_after(None, h.trailing), h.directives.attach_images);
}

/// Whether a line of the text outside fenced code blocks is an `attach_image`
/// directive.
pub open spec fn shows_image_line(s: Seq<char>, fence: Option<(char, nat)>) -> bool
    decreases s.len(),
{
    proof {
        crate::text::lemma_lines(s);
    }
    if s.len() == 0 {
        false
    } else {
        let line = crate::text::first_line(s);
        ||| fence is None && image_line(line) is Some
        ||| shows_image_line(crate::text::later_lines(s), fence_after(fence, line))
    }
}

proof fn lemma_first_line_prefix(s: Seq<char>, tail: Seq<char>)
    requires
        s.len() > 0,
        crate::text::position(s, '\n') == s.len() ==> tail.len() == 0,
    ensures
        crate::text::first_line(crate::text::first_line_whole(s) + tail)
            == crate::text::first_line(s),
        crate::text::later_lines(crate::text::first_line_whole(s) + tail) == tail,
        (crate::text::first_line_whole(s) + tail).len() > 0,
{
    crate::text::lemma_position(s, '\n');
    let p = crate::text::position(s, '\n');
    let t = crate::text::first_line_whole(s) + tail;
    assert forall|j: int| 0 <= j < p implies t[j] != '\n' by {
        assert(t[j] == s[j]);
    }
    crate::text::lemma_position_is(t, '\n', p);
    assert(t.take(p) =~= s.take(p));
    if p < s.len() {
        assert(t.skip(p + 1) =~= tail);
    } else {
        assert(tail =~= Seq::empty());
    }
}

/// After the body has been read, no `attach_image` line is left to be seen
/// outside fenced code blocks.
pub proof fn lemma_image_lines_removed(
    s: Seq<char>,
    fence: Option<(char, nat)>,
    images: Seq<Seq<char>>,
)
    ensures
        !shows_image_line(body(s, fence, images).0, fence),
    decreases s.len(),
{
    crate::text::lemma_lines(s);
    if s.len() > 0 {
        let line = crate::text::first_line(s);
        let later = crate::text::later_lines(s);
        if fence is None && image_line(line) is Some {
            let path = image_line(line)->0;
            lemma_image_lines_removed(
                later,
                fence,
                if valid_path(path) {
                    images.push(path)
                } else {
                    images
                },
            );
        } else {
            let next = fence_after(fence, line);
            lemma_image_lines_removed(later, next, images);
            lemma_first_line_prefix(s, body(later, next, images).0);
        }
    }
}

/// A body without `attach_image` lines is kept as it is.
pub proof fn lemma_body_kept(s: Seq<char>, fence: Option<(char, nat)>, images: Seq<Seq<char>>)
    requires
        !shows_image_line(s, fence),
    ensures
        body(s, fence, images) == (s, images),
    decreases s.len(),
{
    crate::text::lemma_lines(s);
    if s.len() > 0 {
        let line = crate::text::first_line(s);
        lemma_body_kept(crate::text::later_lines(s), fence_after(fence, line), images);
    } else {
        assert(s =~= Seq::empty());
    }
}

/// Text that neither begins with a directive nor shows an `attach_image` line
/// is returned unchanged, and no directive comes out of it.
pub proof fn lemma_plain_text_kept(content: Seq<char>)
    requires
        directive(crate::text::first_line(content)) is None,
        !shows_image_line(content, None),
    ensures
        parsed(content) == (no_directives(), content),
{
    let h = header(content, no_directives());
    assert(h.rest == content && h.trailing == Seq::<char>::empty());
    lemma_no_fence_in_nothing();
    lemma_body_kept(content, None, Seq::empty());
    assert(parsed(content).0 =~= no_directives());
}

proof fn lemma_no_fence_in_nothing()
    ensures
        fence_after(None, Seq::empty()) is None,
{
    let e = Seq::<char>::empty();
    assert(crate::text::trim_start(e) == e);
}

proof fn lemma_header_stops(s: Seq<char>, d: DirectivesView)
    ensures
        ({
            let h = header(s, d);
            h.trailing.len() == 0 && h.rest.len() > 0 ==> directive(
                crate::text::first_line(h.rest),
            ) is None
        }),
    decreases s.len(),
{
    crate::text::lemma_lines(s);
    if s.len() > 0 {
        if let Some(x) = directive(crate::text::first_line(s)) {
            if x.trailing.len() == 0 {
                lemma_header_stops(crate::text::later_lines(s), apply(d, x));
            }
        }
    }
}

proof fn lemma_empty_is_no_directive()
    ensures
        directive(Seq::empty()) is None,
{
    let e = Seq::<char>::empty();
    assert(crate::text::trim_start(e) == e);
    assert(crate::text::trim_end(e) == e);
    reveal_strlit("[[");
}

/// Directives are read once: where the header ended without text behind its
/// last directive, the remaining text holds no directive, and reading it again
/// changes nothing.
pub proof fn lemma_read_once(content: Seq<char>)
    requires
        header(content, no_directives()).trailing.len() == 0,
    ensures
        parsed(parsed(content).1) == (no_directives(), parsed(content).1),
{
    let h = header(content, no_directives());
    let images = h.directives.attach_images;
    assert(h.trailing =~= Seq::<char>::empty());
    lemma_no_fence_in_nothing();
    let text = body(h.rest, None, images).0;
    assert(parsed(content).1 == text);
    lemma_header_stops(content, no_directives());
    lemma_image_lines_removed(h.rest, None, images);
    if h.rest.len() == 0 {
        lemma_empty_is_no_directive();
        assert(crate::text::first_line(text) =~= Seq::empty());
    } else {
        let line = crate::text::first_line(h.rest);
        assert(image_line(line) is None);
        lemma_first_line_prefix(
            h.rest,
            body(crate::text::later_lines(h.rest), fence_after(None, line), images).0,
        );
    }
    lemma_plain_text_kept(text);
}

/// The directives of the header lines, in order.
pub open spec fn header_lines(s: Seq<char>) -> Seq<DirectiveView>
    decreases s.len(),
{
    proof {
        crate::text::lemma_lines(s);
    }
    if s.len() == 0 {
        Seq::empty()
    } else {
        match directive(crate::text::first_line(s)) {
            None => Seq::empty(),
            Some(x) => if x.trailing.len() > 0 {
                seq![x]
            } else {
                seq![x] + header_lines(crate::text::later_lines(s))
            },
        }
    }
}

/// What several directives add, one after the other.
pub open spec fn applied(d: DirectivesView, xs: Seq<DirectiveView>) -> DirectivesView
    decreases xs.len(),
{
    if xs.len() == 0 {
        d
    } else {
        applied(apply(d, xs[0]), xs.drop_first())
    }
}

/// The header's directives are those of its lines, applied in order.
pub proof fn lemma_header_is_applied(s: Seq<char>, d: DirectivesView)
    ensures
        header(s, d).directives == applied(d, header_lines(s)),
    decreases s.len(),
{
    crate::text::lemma_lines(s);
    if s.len() > 0 {
        if let Some(x) = directive(crate::text::first_line(s)) {
            if x.trailing.len() == 0 {
                let later = crate::text::later_lines(s);
                lemma_header_is_applied(later, apply(d, x));
                assert(header_lines(s).drop_first() =~= header_lines(later));
            } else {
                assert(header_lines(s).drop_first() =~= Seq::empty());
                assert(applied(apply(d, x), Seq::empty()) == apply(d, x));
            }
        }
    }
}

/// A directive that names an accepted message to reply to.
pub open spec fn sets_reply(x: DirectiveView) -> bool {
    x.key == "reply_to"@ && valid_reply_id(x.value)
}

/// Of several valid `reply_to` directives in the header the last one wins.
pub proof fn lemma_last_reply_wins(content: Seq<char>, i: int)
    requires
        0 <= i < header_lines(content).len(),
        sets_reply(header_lines(content)[i]),
        forall|j: int| i < j < header_lines(content).len() ==> !sets_reply(
            #[trigger] header_lines(content)[j],
        ),
    ensures
        parsed(content).0.reply_to == Some(header_lines(content)[i].value),
{
    lemma_header_is_applied(content, no_directives());
    lemma_last_applied(no_directives(), header_lines(content), i);
}

proof fn lemma_last_applied(d: DirectivesView, xs: Seq<DirectiveView>, i: int)
    requires
        -1 <= i < xs.len(),
        i >= 0 ==> sets_reply(xs[i]),
        forall|j: int| i < j < xs.len() ==> !sets_reply(#[trigger] xs[j]),
    ensures
        i >= 0 ==> applied(d, xs).reply_to == Some(xs[i].value),
        i < 0 ==> applied(d, xs).reply_to == d.reply_to,
    decreases xs.len(),
{
    reveal_strlit("reply_to");
    if xs.len() > 0 {
        let rest = xs.drop_first();
        let k = if i >= 0 { i - 1 } else { -1 };
        assert forall|j: int| k < j < rest.len() implies !sets_reply(#[trigger] rest[j]) by {
            assert(rest[j] == xs[j + 1]);
        }
        lemma_last_applied(apply(d, xs[0]), rest, k);
        if i < 0 {
            assert(!sets_reply(xs[0]));
        }
    }
}

// ---------------------------------------------------------------------------
// What an agent can rely on
// ---------------------------------------------------------------------------

/// A text that can stand in a directive as it is: no white space at its ends, no
/// bracket that could close the directive, and one line.
pub open spec fn tidy(s: Seq<char>) -> bool {
    &&& crate::text::trimmed(s)
    &&& forall|i: int| 0 <= i < s.len() ==> (#[trigger] s[i]) != ']' && s[i] != '\n'
}

/// A text that can be a key: tidy, and without a colon.
pub open spec fn tidy_key(s: Seq<char>) -> bool {
    tidy(s) && forall|i: int| 0 <= i < s.len() ==> (#[trigger] s[i]) != ':'
}

/// A directive as an agent writes it.
pub open spec fn written(key: Seq<char>, value: Seq<char>) -> Seq<char> {
    "[["@ + key + ":"@ + value + "]]"@
}

proof fn lemma_written_is_read(key: Seq<char>, value: Seq<char>, trail: Seq<char>)
    requires
        tidy_key(key),
        tidy(value),
        crate::text::trimmed(trail),
    ensures
        directive(written(key, value) + trail) == Some(
            DirectiveView { key, value, trailing: trail },
        ),
{
    reveal_strlit("[[");
    reveal_strlit("]]");
    reveal_strlit(":");
    let line = written(key, value) + trail;
    assert(line[0] == '[');
    assert(line.last() == if trail.len() == 0 {
        ']'
    } else {
        trail.last()
    });
    crate::text::lemma_trim(line);
    assert(crate::text::trim(line) == line);
    assert(line.subrange(0, 2) =~= "[["@);
    let after = line.skip(2);
    let inner = key + ":"@ + value;
    let p = inner.len() as int;
    assert(after =~= inner + "]]"@ + trail);
    assert(after.subrange(p, p + 2) =~= "]]"@);
    crate::text::lemma_find(after, "]]"@, 0);
    let q = crate::text::find(after, "]]"@)->0;
    assert(crate::text::occurs_at(after, "]]"@, p));
    assert(q == p) by {
        if q < p {
            assert(after.subrange(q, q + 2)[0] == ']');
            assert(after[q] == ']');
            assert(after[q] == inner[q]);
            if q < key.len() {
                assert(inner[q] == key[q]);
            } else if q > key.len() {
                assert(inner[q] == value[q - key.len() - 1]);
            }
        }
    }
    assert(after.take(p) =~= inner);
    assert forall|j: int| 0 <= j < key.len() implies inner[j] != ':' by {
        assert(inner[j] == key[j]);
    }
    crate::text::lemma_position_is(inner, ':', key.len() as int);
    assert(inner.take(key.len() as int) =~= key);
    assert(inner.skip(key.len() + 1int) =~= value);
    assert(after.skip(p + 2) =~= trail);
    crate::text::lemma_trim(key);
    crate::text::lemma_trim(value);
    crate::text::lemma_trim(trail);
}

proof fn lemma_first_of_lines(line: Seq<char>, rest: Seq<char>)
    requires
        forall|i: int| 0 <= i < line.len() ==> (#[trigger] line[i]) != '\n',
    ensures
        crate::text::first_line(line + "\n"@ + rest) == line,
        crate::text::later_lines(line + "\n"@ + rest) == rest,
        crate::text::first_line_whole(line + "\n"@ + rest) == line + "\n"@,
        (line + "\n"@ + rest).len() > 0,
{
    reveal_strlit("\n");
    let s = line + "\n"@ + rest;
    assert forall|j: int| 0 <= j < line.len() implies s[j] != '\n' by {
        assert(s[j] == line[j]);
    }
    crate::text::lemma_position_is(s, '\n', line.len() as int);
    assert(s.take(line.len() as int) =~= line);
    assert(s.skip(line.len() + 1int) =~= rest);
    assert(s.take(line.len() + 1int) =~= line + "\n"@);
}

/// What comes later in the header adds to what came before it: images and files
/// behind those before them, and the message to reply to in place of another.
proof fn lemma_header_adds(s: Seq<char>, d: DirectivesView)
    ensures
        ({
            let h = header(s, d);
            let alone = header(s, no_directives());
            &&& h.trailing == alone.trailing
            &&& h.rest == alone.rest
            &&& h.directives.attach_images == d.attach_images + alone.directives.attach_images
            &&& h.directives.attach_files == d.attach_files + alone.directives.attach_files
            &&& h.directives.reply_to == if alone.directives.reply_to is Some {
                alone.directives.reply_to
            } else {
                d.reply_to
            }
        }),
    decreases s.len(),
{
    crate::text::lemma_lines(s);
    let none = no_directives();
    let h = header(s, d);
    let alone = header(s, none);
    if s.len() > 0 && directive(crate::text::first_line(s)) is Some {
        let x = directive(crate::text::first_line(s))->0;
        lemma_apply_adds(d, x);
        if x.trailing.len() == 0 {
            let later = crate::text::later_lines(s);
            lemma_header_adds(later, apply(d, x));
            lemma_header_adds(later, apply(none, x));
            let rest = header(later, none).directives;
            assert(h.directives.attach_images =~= d.attach_images + alone.directives.attach_images);
            assert(h.directives.attach_files =~= d.attach_files + alone.directives.attach_files);
        }
    } else {
        assert(h.directives.attach_images =~= d.attach_images + alone.directives.attach_images);
        assert(h.directives.attach_files =~= d.attach_files + alone.directives.attach_files);
    }
}

/// What a directive adds does not depend on those before it.
proof fn lemma_apply_adds(d: DirectivesView, x: DirectiveView)
    ensures
        ({
            let alone = apply(no_directives(), x);
            &&& apply(d, x).attach_images == d.attach_images + alone.attach_images
            &&& apply(d, x).attach_files == d.attach_files + alone.attach_files
            &&& apply(d, x).reply_to == if alone.reply_to is Some {
                alone.reply_to
            } else {
                d.reply_to
            }
        }),
{
    let alone = apply(no_directives(), x);
    assert(apply(d, x).attach_images =~= d.attach_images + alone.attach_images);
    assert(apply(d, x).attach_files =~= d.attach_files + alone.attach_files);
}

proof fn lemma_body_adds(s: Seq<char>, fence: Option<(char, nat)>, images: Seq<Seq<char>>)
    ensures
        body(s, fence, images).0 == body(s, fence, Seq::empty()).0,
        body(s, fence, images).1 == images + body(s, fence, Seq::empty()).1,
    decreases s.len(),
{
    crate::text::lemma_lines(s);
    let none = Seq::<Seq<char>>::empty();
    if s.len() == 0 {
        assert(images + none =~= images);
    } else {
        let line = crate::text::first_line(s);
        let later = crate::text::later_lines(s);
        if fence is None && image_line(line) is Some {
            let path = image_line(line)->0;
            if valid_path(path) {
                lemma_body_adds(later, fence, images.push(path));
                lemma_body_adds(later, fence, none.push(path));
                let more = body(later, fence, none).1;
                assert(images.push(path) + more =~= images + (none.push(path) + more));
            } else {
                lemma_body_adds(later, fence, images);
            }
        } else {
            lemma_body_adds(later, fence_after(fence, line), images);
        }
    }
}

/// A directive line at the start of an output is taken off, and the rest is read
/// as if it stood alone: the line only adds what it says, before what the rest
/// says. This holds whatever other directives the rest has.
pub proof fn lemma_directive_line_is_read(key: Seq<char>, value: Seq<char>, rest: Seq<char>)
    requires
        tidy_key(key),
        tidy(value),
    ensures
        ({
            let (d, text) = parsed(written(key, value) + "\n"@ + rest);
            let (r, left) = parsed(rest);
            &&& text == left
            &&& d.attach_images == if key == "attach_image"@ && valid_path(value) {
                seq![value] + r.attach_images
            } else {
                r.attach_images
            }
            &&& d.attach_files == if key == "attach_file"@ && valid_path(value) {
                seq![value] + r.attach_files
            } else {
                r.attach_files
            }
            &&& d.reply_to == if r.reply_to is None && key == "reply_to"@ && valid_reply_id(
                value,
            ) {
                Some(value)
            } else {
                r.reply_to
            }
        }),
{
    reveal_strlit("[[");
    reveal_strlit("]]");
    reveal_strlit(":");
    reveal_strlit("attach_image");
    reveal_strlit("attach_file");
    reveal_strlit("reply_to");
    assert("attach_image"@.len() == 12 && "attach_file"@.len() == 11 && "reply_to"@.len() == 8);
    let line = written(key, value);
    let content = line + "\n"@ + rest;
    let none = no_directives();
    assert(line + Seq::<char>::empty() =~= line);
    lemma_written_is_read(key, value, Seq::empty());
    assert forall|i: int| 0 <= i < line.len() implies (#[trigger] line[i]) != '\n' by {
        if 2 <= i < 2 + key.len() {
            assert(line[i] == key[i - 2]);
        } else if 3 + key.len() <= i < 3 + key.len() + value.len() {
            assert(line[i] == value[i - 3 - key.len()]);
        }
    }
    lemma_first_of_lines(line, rest);
    let x = DirectiveView { key, value, trailing: Seq::empty() };
    let added = apply(none, x);
    lemma_header_adds(rest, added);
    let h = header(rest, none);
    let f = fence_after(None, h.trailing);
    assert(header(content, none) == header(rest, added));
    lemma_body_adds(h.rest, f, header(rest, added).directives.attach_images);
    lemma_body_adds(h.rest, f, h.directives.attach_images);
    let later = body(h.rest, f, Seq::empty()).1;
    assert(parsed(content).0.attach_images == added.attach_images + h.directives.attach_images
        + later);
    assert(parsed(rest).0.attach_images == h.directives.attach_images + later);
    assert(parsed(content).0.attach_images =~= added.attach_images + parsed(rest).0.attach_images);
    assert(parsed(content).0.attach_files =~= added.attach_files + parsed(rest).0.attach_files);
    if key == "attach_image"@ && valid_path(value) {
        assert(added.attach_images =~= seq![value]);
        assert(added.attach_files =~= Seq::empty());
    } else {
        assert(added.attach_images =~= Seq::empty());
        assert(parsed(content).0.attach_images =~= parsed(rest).0.attach_images);
    }
    if key == "attach_file"@ && valid_path(value) {
        assert(added.attach_files =~= seq![value]);
    } else {
        assert(added.attach_files =~= Seq::empty());
        assert(parsed(content).0.attach_files =~= parsed(rest).0.attach_files);
    }
}

/// The valid paths of the image directives among these, in order.
pub open spec fn image_paths(xs: Seq<DirectiveView>) -> Seq<Seq<char>>
    decreases xs.len(),
{
    if xs.len() == 0 {
        Seq::empty()
    } else {
        let rest = image_paths(xs.drop_first());
        if xs[0].key == "attach_image"@ && valid_path(xs[0].value) {
            seq![xs[0].value] + rest
        } else {
            rest
        }
    }
}

/// The valid paths of the file directives among these, in order.
pub open spec fn file_paths(xs: Seq<DirectiveView>) -> Seq<Seq<char>>
    decreases xs.len(),
{
    if xs.len() == 0 {
        Seq::empty()
    } else {
        let rest = file_paths(xs.drop_first());
        if xs[0].key == "attach_file"@ && valid_path(xs[0].value) {
            seq![xs[0].value] + rest
        } else {
            rest
        }
    }
}

proof fn lemma_applied_paths(d: DirectivesView, xs: Seq<DirectiveView>)
    ensures
        applied(d, xs).attach_images == d.attach_images + image_paths(xs),
        applied(d, xs).attach_files == d.attach_files + file_paths(xs),
    decreases xs.len(),
{
    reveal_strlit("attach_image");
    reveal_strlit("attach_file");
    reveal_strlit("reply_to");
    assert("attach_image"@.len() == 12 && "attach_file"@.len() == 11 && "reply_to"@.len() == 8);
    if xs.len() == 0 {
        assert(d.attach_images + image_paths(xs) =~= d.attach_images);
        assert(d.attach_files + file_paths(xs) =~= d.attach_files);
    } else {
        lemma_applied_paths(apply(d, xs[0]), xs.drop_first());
        assert(applied(d, xs).attach_images =~= d.attach_images + image_paths(xs));
        assert(applied(d, xs).attach_files =~= d.attach_files + file_paths(xs));
    }
}

/// The images are the valid paths of the header's image lines, in order and
/// whatever else stands in the header, and then those of the body; the files are
/// those of the header's file lines.
pub proof fn lemma_every_named_file_is_attached(content: Seq<char>)
    ensures
        ({
            let xs = header_lines(content);
            let h = header(content, no_directives());
            let later = body(h.rest, fence_after(None, h.trailing), Seq::empty()).1;
            &&& parsed(content).0.attach_images == image_paths(xs) + later
            &&& parsed(content).0.attach_files == file_paths(xs)
            &&& forall|i: int|
                0 <= i < xs.len() && (#[trigger] xs[i]).key == "attach_image"@ && valid_path(
                    xs[i].value,
                ) ==> parsed(content).0.attach_images.contains(xs[i].value)
        }),
{
    let xs = header_lines(content);
    let h = header(content, no_directives());
    let none = no_directives();
    lemma_header_is_applied(content, none);
    lemma_applied_paths(none, xs);
    lemma_body_adds(h.rest, fence_after(None, h.trailing), h.directives.attach_images);
    assert(none.attach_images + image_paths(xs) =~= image_paths(xs));
    assert(none.attach_files + file_paths(xs) =~= file_paths(xs));
    let all = parsed(content).0.attach_images;
    assert forall|i: int|
        0 <= i < xs.len() && (#[trigger] xs[i]).key == "attach_image"@ && valid_path(
            xs[i].value,
        ) implies all.contains(xs[i].value) by {
        lemma_path_is_listed(xs, i);
        let k = choose|k: int| 0 <= k < image_paths(xs).len() && image_paths(xs)[k] == xs[i].value;
        assert(all[k] == xs[i].value);
    }
}

proof fn lemma_path_is_listed(xs: Seq<DirectiveView>, i: int)
    requires
        0 <= i < xs.len(),
        xs[i].key == "attach_image"@,
        valid_path(xs[i].value),
    ensures
        image_paths(xs).contains(xs[i].value),
    decreases xs.len(),
{
    if i == 0 {
        assert(image_paths(xs)[0] == xs[0].value);
    } else {
        let rest = xs.drop_first();
        assert(rest[i - 1] == xs[i]);
        lemma_path_is_listed(rest, i - 1);
        let few = image_paths(rest);
        let k = choose|k: int| 0 <= k < few.len() && few[k] == xs[i].value;
        let n = image_paths(xs).len() - few.len();
        assert(image_paths(xs)[n + k] == xs[i].value);
    }
}

/// A message id is accepted exactly if it has one to sixty-four characters, each
/// an ASCII letter or digit, a dot, a hyphen or an underscore.
pub proof fn lemma_which_ids_are_accepted(v: Seq<char>)
    ensures
        valid_reply_id(v) <==> 1 <= v.len() <= 64 && forall|i: int|
            0 <= i < v.len() ==> ('0' <= (#[trigger] v[i]) <= '9' || 'a' <= v[i] <= 'z' || 'A'
                <= v[i] <= 'Z' || v[i] == '.' || v[i] == '-' || v[i] == '_'),
{
    if valid_reply_id(v) {
        assert forall|i: int| 0 <= i < v.len() implies ('0' <= (#[trigger] v[i]) <= '9' || 'a'
            <= v[i] <= 'z' || 'A' <= v[i] <= 'Z' || v[i] == '.' || v[i] == '-' || v[i]
            == '_') by {
            assert(reply_id_char(v[i]));
        }
    }
}

/// A path is accepted exactly if it is not empty, takes at most 4096 bytes and
/// holds no control character but the tab.
pub proof fn lemma_which_paths_are_accepted(v: Seq<char>)
    ensures
        valid_path(v) <==> v.len() > 0 && vstd::utf8::encode_utf8(v).len() <= 4096 && forall|i: int|
            0 <= i < v.len() ==> (#[trigger] v[i]) == '\t' || !(v[i] <= '\u{1f}' || '\u{7f}'
                <= v[i] <= '\u{9f}'),
{
    if valid_path(v) {
        assert forall|i: int| 0 <= i < v.len() implies (#[trigger] v[i]) == '\t' || !(v[i]
            <= '\u{1f}' || '\u{7f}' <= v[i] <= '\u{9f}') by {
            assert(!(crate::text::is_control(v[i]) && v[i] != '\t'));
        }
    }
}

/// A text without brackets and fences: nothing in it is read.
pub open spec fn plain(s: Seq<char>) -> bool {
    forall|i: int|
        0 <= i < s.len() ==> (#[trigger] s[i]) != '[' && s[i] != '`' && s[i] != '~'
}

proof fn lemma_plain_line(line: Seq<char>)
    requires
        plain(line),
    ensures
        directive(line) is None,
        image_line(line) is None,
        fence_after(None, line) is None,
{
    reveal_strlit("[[");
    crate::text::lemma_trim(line);
    let t = crate::text::trim(line);
    if crate::text::begins(t, "[["@) {
        assert(t.subrange(0, 2)[0] == '[');
        assert(line.contains(t[0]));
    }
    crate::text::lemma_trim_start(line);
    let u = crate::text::trim_start(line);
    if u.len() > 0 {
        assert(u[0] == line[line.len() - u.len()]);
    }
    assert(leading(u, '`') == 0);
    assert(leading(u, '~') == 0);
}

/// Whole lines of plain text stay in front of what follows them.
proof fn lemma_plain_lines_stay(front: Seq<char>, x: Seq<char>, images: Seq<Seq<char>>)
    requires
        plain(front),
        front.len() == 0 || front.last() == '\n',
    ensures
        body(front + x, None, images).0 == front + body(x, None, images).0,
        body(front + x, None, images).1 == body(x, None, images).1,
    decreases front.len(),
{
    if front.len() == 0 {
        assert(front + x =~= x);
        assert(front + body(x, None, images).0 =~= body(x, None, images).0);
    } else {
        crate::text::lemma_position(front, '\n');
        let p = crate::text::position(front, '\n');
        assert(p < front.len()) by {
            if p == front.len() {
                assert(front[front.len() - 1] != '\n');
            }
        }
        reveal_strlit("\n");
        let line = front.take(p);
        let rest = front.skip(p + 1);
        assert(front =~= line + "\n"@ + rest);
        assert(front + x =~= line + "\n"@ + (rest + x));
        assert forall|i: int| 0 <= i < line.len() implies (#[trigger] line[i]) != '\n' by {
            assert(line[i] == front[i]);
        }
        assert(plain(line)) by {
            assert forall|i: int| 0 <= i < line.len() implies (#[trigger] line[i]) != '[' && line[i]
                != '`' && line[i] != '~' by {
                assert(line[i] == front[i]);
            }
        }
        assert(plain(rest)) by {
            assert forall|i: int| 0 <= i < rest.len() implies (#[trigger] rest[i]) != '[' && rest[i]
                != '`' && rest[i] != '~' by {
                assert(rest[i] == front[p + 1 + i]);
            }
        }
        if rest.len() > 0 {
            assert(rest.last() == front.last());
        }
        lemma_plain_line(line);
        lemma_first_of_lines(line, rest + x);
        lemma_plain_lines_stay(rest, x, images);
        let tail = body(x, None, images).0;
        assert(line + "\n"@ + (rest + tail) =~= front + tail);
    }
}

proof fn lemma_starts_plain(front: Seq<char>, x: Seq<char>)
    requires
        plain(front),
        front.len() > 0,
        front.last() == '\n',
    ensures
        header(front + x, no_directives()) == (HeaderView {
            directives: no_directives(),
            trailing: Seq::empty(),
            rest: front + x,
        }),
        parsed(front + x).0 == (DirectivesView {
            attach_images: body(front + x, None, Seq::empty()).1,
            ..no_directives()
        }),
        parsed(front + x).1 == body(front + x, None, Seq::empty()).0,
{
    let s = front + x;
    crate::text::lemma_position(front, '\n');
    let p = crate::text::position(front, '\n');
    if p == front.len() {
        assert(front[front.len() - 1] != '\n');
    }
    assert forall|j: int| 0 <= j < p implies s[j] != '\n' by {
        assert(s[j] == front[j]);
    }
    assert(s[p] == front[p]);
    crate::text::lemma_position_is(s, '\n', p);
    let line = crate::text::first_line(s);
    assert(plain(line)) by {
        assert forall|i: int| 0 <= i < line.len() implies (#[trigger] line[i]) != '[' && line[i]
            != '`' && line[i] != '~' by {
            assert(line[i] == front[i]);
        }
    }
    lemma_plain_line(line);
    lemma_no_fence_in_nothing();
}

/// An image line that comes later, alone on its line and outside code, is taken
/// out and its image attached; everything else is as if the line were not there.
pub proof fn lemma_later_image_is_attached(front: Seq<char>, path: Seq<char>, rest: Seq<char>)
    requires
        plain(front),
        front.len() > 0,
        front.last() == '\n',
        tidy(path),
        valid_path(path),
    ensures
        ({
            let (d, text) = parsed(front + (written("attach_image"@, path) + "\n"@ + rest));
            let (r, left) = parsed(front + rest);
            &&& text == left
            &&& d == (DirectivesView { attach_images: seq![path] + r.attach_images, ..r })
        }),
{
    reveal_strlit("attach_image");
    reveal_strlit("[[");
    reveal_strlit("]]");
    reveal_strlit(":");
    let line = written("attach_image"@, path);
    let x = line + "\n"@ + rest;
    let none = Seq::<Seq<char>>::empty();
    lemma_key_is_tidy();
    assert(line + Seq::<char>::empty() =~= line);
    lemma_written_is_read("attach_image"@, path, Seq::empty());
    assert forall|i: int| 0 <= i < line.len() implies (#[trigger] line[i]) != '\n' by {
        if 2 <= i < 14 {
            assert(line[i] == "attach_image"@[i - 2]);
        } else if 15 <= i < 15 + path.len() {
            assert(line[i] == path[i - 15]);
        }
    }
    lemma_first_of_lines(line, rest);
    lemma_starts_plain(front, x);
    lemma_starts_plain(front, rest);
    lemma_plain_lines_stay(front, x, none);
    lemma_plain_lines_stay(front, rest, none);
    assert(image_line(line) == Some(path));
    assert(body(x, None, none) == body(rest, None, none.push(path)));
    lemma_body_adds(rest, None, none.push(path));
    assert(none.push(path) =~= seq![path]);
}

proof fn lemma_key_is_tidy()
    ensures
        tidy_key("attach_image"@),
{
    reveal_strlit("attach_image");
    let k = "attach_image"@;
    assert(k =~= seq!['a', 't', 't', 'a', 'c', 'h', '_', 'i', 'm', 'a', 'g', 'e']);
}

/// Code is left alone: in a fenced block, nothing is read and nothing is taken
/// out, whatever it holds, until the block ends.
pub proof fn lemma_code_is_left_alone(code: Seq<char>)
    requires
        forall|i: int| 0 <= i < code.len() ==> (#[trigger] code[i]) != '`',
    ensures
        parsed("```\n"@ + code) == (no_directives(), "```\n"@ + code),
{
    reveal_strlit("```\n");
    reveal_strlit("\n");
    reveal_strlit("[[");
    let fence = seq!['`', '`', '`'];
    let content = "```\n"@ + code;
    assert(content =~= fence + "\n"@ + code);
    lemma_first_of_lines(fence, code);
    lemma_fence_opens();
    let none = Seq::<Seq<char>>::empty();
    lemma_inside_code(code, none);
    lemma_no_fence_in_nothing();
    assert(header(content, no_directives()).rest == content);
    assert(body(content, None, none).0 =~= content);
    assert(parsed(content).0 =~= no_directives());
}

proof fn lemma_fence_opens()
    ensures
        directive(seq!['`', '`', '`']) is None,
        image_line(seq!['`', '`', '`']) is None,
        fence_after(None, seq!['`', '`', '`']) == Some(('`', 3nat)),
{
    reveal_strlit("[[");
    let fence = seq!['`', '`', '`'];
    crate::text::lemma_trim(fence);
    crate::text::lemma_trim_start(fence);
    assert(crate::text::trim_start(fence) == fence);
    assert(crate::text::trim(fence) == fence);
    if crate::text::begins(fence, "[["@) {
        assert(fence.subrange(0, 2)[0] == '[');
    }
    assert(fence.drop_first() =~= seq!['`', '`']);
    assert(seq!['`', '`'].drop_first() =~= seq!['`']);
    assert(seq!['`'].drop_first() =~= Seq::<char>::empty());
    assert(leading(Seq::empty(), '`') == 0);
    assert(leading(seq!['`'], '`') == 1);
    assert(leading(seq!['`', '`'], '`') == 2);
    assert(leading(fence, '`') == 3);
    assert(fence.skip(3) =~= Seq::<char>::empty());
    crate::text::lemma_position(fence.skip(3), '`');
}

proof fn lemma_inside_code(code: Seq<char>, images: Seq<Seq<char>>)
    requires
        forall|i: int| 0 <= i < code.len() ==> (#[trigger] code[i]) != '`',
    ensures
        body(code, Some(('`', 3nat)), images) == (code, images),
    decreases code.len(),
{
    crate::text::lemma_lines(code);
    if code.len() > 0 {
        let line = crate::text::first_line(code);
        let later = crate::text::later_lines(code);
        crate::text::lemma_position(code, '\n');
        let u = crate::text::trim_start(line);
        crate::text::lemma_trim_start(line);
        if u.len() > 0 {
            assert(u[0] == line[line.len() - u.len()]);
            assert(u[0] == code[line.len() - u.len()]);
        }
        assert(leading(u, '`') == 0);
        let p = crate::text::position(code, '\n');
        assert forall|i: int| 0 <= i < later.len() implies (#[trigger] later[i]) != '`' by {
            assert(later[i] == code[p + 1 + i]);
        }
        lemma_inside_code(later, images);
    } else {
        assert(code =~= Seq::empty());
    }
}

/// Text behind a directive on its line is kept, in front of the lines after it,
/// and ends the header.
pub proof fn lemma_text_behind_a_directive_is_kept(
    key: Seq<char>,
    value: Seq<char>,
    trail: Seq<char>,
    rest: Seq<char>,
)
    requires
        tidy_key(key),
        tidy(value),
        trail.len() > 0,
        crate::text::trimmed(trail),
        plain(trail),
        forall|i: int| 0 <= i < trail.len() ==> (#[trigger] trail[i]) != '\n',
        plain(rest),
        rest.len() == 0 || rest.last() == '\n',
    ensures
        ({
            let (d, text) = parsed(written(key, value) + trail + "\n"@ + rest);
            &&& text == if rest.len() == 0 {
                trail
            } else {
                trail + "\n"@ + rest
            }
            &&& d.attach_images == if key == "attach_image"@ && valid_path(value) {
                seq![value]
            } else {
                Seq::empty()
            }
            &&& d.reply_to == if key == "reply_to"@ && valid_reply_id(value) {
                Some(value)
            } else {
                None
            }
        }),
{
    reveal_strlit("[[");
    reveal_strlit("]]");
    reveal_strlit(":");
    reveal_strlit("attach_image");
    reveal_strlit("attach_file");
    reveal_strlit("reply_to");
    assert("attach_image"@.len() == 12 && "attach_file"@.len() == 11 && "reply_to"@.len() == 8);
    let start = written(key, value);
    let line = start + trail;
    let content = line + "\n"@ + rest;
    lemma_written_is_read(key, value, trail);
    assert forall|i: int| 0 <= i < line.len() implies (#[trigger] line[i]) != '\n' by {
        if 2 <= i < 2 + key.len() {
            assert(line[i] == key[i - 2]);
        } else if 3 + key.len() <= i < 3 + key.len() + value.len() {
            assert(line[i] == value[i - 3 - key.len()]);
        } else if i >= start.len() {
            assert(line[i] == trail[i - start.len()]);
        }
    }
    lemma_first_of_lines(line, rest);
    lemma_plain_line(trail);
    let x = DirectiveView { key, value, trailing: trail };
    let d = apply(no_directives(), x);
    let none = Seq::<Seq<char>>::empty();
    lemma_plain_lines_stay(rest, Seq::empty(), d.attach_images);
    assert(rest + Seq::<char>::empty() =~= rest);
    assert(body(Seq::empty(), None, d.attach_images) == (Seq::<char>::empty(), d.attach_images));
    assert(body(rest, None, d.attach_images).0 =~= rest);
    assert(none.push(value) =~= seq![value]);
}

/// A carriage return at the end of a directive line makes no difference.
pub proof fn lemma_carriage_return_is_dropped(key: Seq<char>, value: Seq<char>, rest: Seq<char>)
    requires
        tidy_key(key),
        tidy(value),
    ensures
        parsed(written(key, value) + "\r\n"@ + rest) == parsed(
            written(key, value) + "\n"@ + rest,
        ),
{
    reveal_strlit("[[");
    reveal_strlit("]]");
    reveal_strlit(":");
    reveal_strlit("\r\n");
    reveal_strlit("\n");
    let line = written(key, value);
    let long = line.push('\r');
    assert forall|i: int| 0 <= i < line.len() implies (#[trigger] line[i]) != '\n' by {
        if 2 <= i < 2 + key.len() {
            assert(line[i] == key[i - 2]);
        } else if 3 + key.len() <= i < 3 + key.len() + value.len() {
            assert(line[i] == value[i - 3 - key.len()]);
        }
    }
    assert forall|i: int| 0 <= i < long.len() implies (#[trigger] long[i]) != '\n' by {
        if i < line.len() {
            assert(long[i] == line[i]);
        }
    }
    lemma_first_of_lines(line, rest);
    lemma_first_of_lines(long, rest);
    assert(line + "\r\n"@ + rest =~= long + "\n"@ + rest);
    assert(line[0] == '[');
    assert(crate::text::trim_start(line) == line);
    assert(crate::text::trim_start(long) == long);
    assert(long.drop_last() =~= line);
    assert(crate::text::trim(long) == crate::text::trim(line));
    assert(directive(long) == directive(line));
    assert(line + Seq::<char>::empty() =~= line);
    lemma_written_is_read(key, value, Seq::empty());
}

/// A code block ends with its fence: what follows is read again.
pub proof fn lemma_reading_resumes_after_code(code: Seq<char>, path: Seq<char>, rest: Seq<char>)
    requires
        forall|i: int| 0 <= i < code.len() ==> (#[trigger] code[i]) != '`',
        code.len() == 0 || code.last() == '\n',
        tidy(path),
        valid_path(path),
    ensures
        ({
            let block = "```\n"@ + code + "```\n"@;
            let (d, text) = parsed(block + (written("attach_image"@, path) + "\n"@ + rest));
            let (r, left) = parsed(block + rest);
            &&& text == left
            &&& d == (DirectivesView { attach_images: seq![path] + r.attach_images, ..r })
        }),
{
    reveal_strlit("attach_image");
    reveal_strlit("[[");
    reveal_strlit("]]");
    reveal_strlit(":");
    let line = written("attach_image"@, path);
    let x = line + "\n"@ + rest;
    let none = Seq::<Seq<char>>::empty();
    lemma_key_is_tidy();
    assert(line + Seq::<char>::empty() =~= line);
    lemma_written_is_read("attach_image"@, path, Seq::empty());
    assert forall|i: int| 0 <= i < line.len() implies (#[trigger] line[i]) != '\n' by {
        if 2 <= i < 14 {
            assert(line[i] == "attach_image"@[i - 2]);
        } else if 15 <= i < 15 + path.len() {
            assert(line[i] == path[i - 15]);
        }
    }
    lemma_first_of_lines(line, rest);
    lemma_block_then(code, x);
    lemma_block_then(code, rest);
    assert(image_line(line) == Some(path));
    assert(body(x, None, none) == body(rest, None, none.push(path)));
    lemma_body_adds(rest, None, none.push(path));
    assert(none.push(path) =~= seq![path]);
}

proof fn lemma_block_then(code: Seq<char>, x: Seq<char>)
    requires
        forall|i: int| 0 <= i < code.len() ==> (#[trigger] code[i]) != '`',
        code.len() == 0 || code.last() == '\n',
    ensures
        ({
            let block = "```\n"@ + code + "```\n"@;
            let b = body(x, None, Seq::empty());
            parsed(block + x) == (
                DirectivesView { attach_images: b.1, ..no_directives() },
                block + b.0,
            )
        }),
{
    reveal_strlit("```\n");
    reveal_strlit("\n");
    let fence = seq!['`', '`', '`'];
    let block = "```\n"@ + code + "```\n"@;
    let content = block + x;
    let inner = code + "```\n"@ + x;
    let none = Seq::<Seq<char>>::empty();
    assert(content =~= fence + "\n"@ + inner);
    lemma_first_of_lines(fence, inner);
    lemma_fence_opens();
    lemma_no_fence_in_nothing();
    lemma_code_then(code, x, none);
    assert(header(content, no_directives()).rest == content);
    assert(fence + "\n"@ + (code + "```\n"@ + body(x, None, none).0) =~= block + body(
        x,
        None,
        none,
    ).0);
}

proof fn lemma_code_then(code: Seq<char>, x: Seq<char>, images: Seq<Seq<char>>)
    requires
        forall|i: int| 0 <= i < code.len() ==> (#[trigger] code[i]) != '`',
        code.len() == 0 || code.last() == '\n',
    ensures
        body(code + "```\n"@ + x, Some(('`', 3nat)), images).0 == code + "```\n"@ + body(
            x,
            None,
            images,
        ).0,
        body(code + "```\n"@ + x, Some(('`', 3nat)), images).1 == body(x, None, images).1,
    decreases code.len(),
{
    reveal_strlit("```\n");
    reveal_strlit("\n");
    let fence = seq!['`', '`', '`'];
    let tail = "```\n"@ + x;
    if code.len() == 0 {
        assert(code + "```\n"@ + x =~= fence + "\n"@ + x);
        lemma_first_of_lines(fence, x);
        lemma_fence_closes();
        assert(code + "```\n"@ + body(x, None, images).0 =~= fence + "\n"@ + body(
            x,
            None,
            images,
        ).0);
    } else {
        crate::text::lemma_position(code, '\n');
        let p = crate::text::position(code, '\n');
        if p == code.len() {
            assert(code[code.len() - 1] != '\n');
        }
        let line = code.take(p);
        let later = code.skip(p + 1);
        assert forall|i: int| 0 <= i < line.len() implies (#[trigger] line[i]) != '\n' by {
            assert(line[i] == code[i]);
        }
        assert forall|i: int| 0 <= i < later.len() implies (#[trigger] later[i]) != '`' by {
            assert(later[i] == code[p + 1 + i]);
        }
        if later.len() > 0 {
            assert(later.last() == code.last());
        }
        assert(code + "```\n"@ + x =~= line + "\n"@ + (later + "```\n"@ + x));
        lemma_first_of_lines(line, later + "```\n"@ + x);
        let u = crate::text::trim_start(line);
        crate::text::lemma_trim_start(line);
        if u.len() > 0 {
            assert(u[0] == line[line.len() - u.len()]);
            assert(u[0] == code[line.len() - u.len()]);
        }
        assert(leading(u, '`') == 0);
        lemma_code_then(later, x, images);
        let b = body(x, None, images).0;
        assert(line + "\n"@ + (later + "```\n"@ + b) =~= code + "```\n"@ + b);
    }
}

proof fn lemma_fence_closes()
    ensures
        fence_after(Some(('`', 3nat)), seq!['`', '`', '`']) is None,
{
    let fence = seq!['`', '`', '`'];
    lemma_fence_opens();
    crate::text::lemma_trim_start(fence);
    assert(crate::text::trim_start(fence) == fence);
    assert(fence.drop_first() =~= seq!['`', '`']);
    assert(seq!['`', '`'].drop_first() =~= seq!['`']);
    assert(seq!['`'].drop_first() =~= Seq::<char>::empty());
    assert(leading(Seq::empty(), '`') == 0);
    assert(leading(seq!['`'], '`') == 1);
    assert(leading(seq!['`', '`'], '`') == 2);
    assert(leading(fence, '`') == 3);
    let e = fence.skip(3);
    assert(e =~= Seq::<char>::empty());
    crate::text::lemma_trim(e);
    assert(crate::text::trimmed(e));
}

/// A run of one character.
pub open spec fn run_of(c: char, n: nat) -> Seq<char> {
    Seq::new(n, |i: int| c)
}

proof fn lemma_leading_run(c: char, n: nat)
    ensures
        leading(run_of(c, n), c) == n,
    decreases n,
{
    if n > 0 {
        assert(run_of(c, n).drop_first() =~= run_of(c, (n - 1) as nat));
        lemma_leading_run(c, (n - 1) as nat);
    }
}

/// Any fence opens a code block: three or more backticks or tildes. In the block
/// nothing is read and nothing is taken out; fewer than three open none.
pub proof fn lemma_any_fence_opens_a_block(c: char, n: nat, code: Seq<char>)
    requires
        c == '`' || c == '~',
        n >= 3,
        forall|i: int| 0 <= i < code.len() ==> (#[trigger] code[i]) != c,
    ensures
        parsed(run_of(c, n) + "\n"@ + code) == (
            no_directives(),
            run_of(c, n) + "\n"@ + code,
        ),
        fence_after(None, run_of(c, 1)) is None,
        fence_after(None, run_of(c, 2)) is None,
{
    reveal_strlit("[[");
    let fence = run_of(c, n);
    let content = fence + "\n"@ + code;
    lemma_first_of_lines(fence, code);
    lemma_run_is_a_fence(c, n);
    lemma_run_is_a_fence(c, 1);
    lemma_run_is_a_fence(c, 2);
    lemma_no_fence_in_nothing();
    let none = Seq::<Seq<char>>::empty();
    lemma_inside_block(c, n, code, none);
    assert(header(content, no_directives()).rest == content);
    assert(body(content, None, none).0 =~= content);
    assert(parsed(content).0 =~= no_directives());
}

proof fn lemma_run_is_a_fence(c: char, n: nat)
    requires
        c == '`' || c == '~',
        n > 0,
    ensures
        directive(run_of(c, n)) is None,
        image_line(run_of(c, n)) is None,
        fence_after(None, run_of(c, n)) == if n >= 3 {
            Some((c, n))
        } else {
            None
        },
{
    reveal_strlit("[[");
    let fence = run_of(c, n);
    crate::text::lemma_trim(fence);
    crate::text::lemma_trim_start(fence);
    assert(fence[0] == c && fence.last() == c);
    assert(crate::text::trim_start(fence) == fence);
    assert(crate::text::trim(fence) == fence);
    if crate::text::begins(fence, "[["@) {
        assert(fence.subrange(0, 2)[0] == '[');
    }
    lemma_leading_run(c, n);
    let other = if c == '`' {
        '~'
    } else {
        '`'
    };
    assert(leading(fence, other) == 0);
    assert(fence.skip(n as int) =~= Seq::<char>::empty());
    crate::text::lemma_position(fence.skip(n as int), '`');
}

proof fn lemma_inside_block(c: char, n: nat, code: Seq<char>, images: Seq<Seq<char>>)
    requires
        n >= 3,
        forall|i: int| 0 <= i < code.len() ==> (#[trigger] code[i]) != c,
    ensures
        body(code, Some((c, n)), images) == (code, images),
    decreases code.len(),
{
    crate::text::lemma_lines(code);
    if code.len() > 0 {
        let line = crate::text::first_line(code);
        let later = crate::text::later_lines(code);
        crate::text::lemma_position(code, '\n');
        let u = crate::text::trim_start(line);
        crate::text::lemma_trim_start(line);
        if u.len() > 0 {
            assert(u[0] == line[line.len() - u.len()]);
            assert(u[0] == code[line.len() - u.len()]);
        }
        assert(leading(u, c) == 0);
        let p = crate::text::position(code, '\n');
        assert forall|i: int| 0 <= i < later.len() implies (#[trigger] later[i]) != c by {
            assert(later[i] == code[p + 1 + i]);
        }
        lemma_inside_block(c, n, later, images);
    } else {
        assert(code =~= Seq::empty());
    }
}

/// A block is closed by a run of its own character that is at least as long as
/// the one that opened it, and by nothing else.
pub proof fn lemma_what_closes_a_block(c: char, n: nat, m: nat)
    requires
        c == '`' || c == '~',
        n >= 3,
        m > 0,
    ensures
        m >= n ==> fence_after(Some((c, n)), run_of(c, m)) is None,
        m < n ==> fence_after(Some((c, n)), run_of(c, m)) == Some((c, n)),
        fence_after(
            Some((c, n)),
            run_of(
                if c == '`' {
                    '~'
                } else {
                    '`'
                },
                m,
            ),
        ) == Some((c, n)),
{
    let run = run_of(c, m);
    crate::text::lemma_trim_start(run);
    assert(run[0] == c);
    assert(crate::text::trim_start(run) == run);
    lemma_leading_run(c, m);
    let e = run.skip(m as int);
    assert(e =~= Seq::<char>::empty());
    crate::text::lemma_trim(e);
    assert(crate::text::trimmed(e));
    let d = if c == '`' {
        '~'
    } else {
        '`'
    };
    let other = run_of(d, m);
    crate::text::lemma_trim_start(other);
    assert(other[0] == d);
    assert(crate::text::trim_start(other) == other);
    assert(leading(other, c) == 0);
}

} // verus!
