//! Fitting text into messages of limited length.

use vstd::prelude::*;
use vstd::slice::slice_subrange;

use crate::text::{chars_of, skip, string_of, take};

verus! {

/// The room for one message: a limit of nothing counts as one character.
pub open spec fn room(limit: nat) -> nat {
    if limit == 0 {
        1
    } else {
        limit
    }
}

/// The number of characters up to and including the last line feed among the
/// first `n`; nothing without one.
pub open spec fn last_break(s: Seq<char>, n: int) -> int
    decreases n,
{
    if n <= 0 || n > s.len() {
        0
    } else if s[n - 1] == '\n' {
        n
    } else {
        last_break(s, n - 1)
    }
}

/// How many characters the first message takes: everything that fits, cut
/// behind the last line feed if not all fits and there is one.
pub open spec fn cut(s: Seq<char>, limit: nat) -> int {
    if s.len() <= room(limit) {
        s.len() as int
    } else if last_break(s, room(limit) as int) > 0 {
        last_break(s, room(limit) as int)
    } else {
        room(limit) as int
    }
}

proof fn lemma_last_break(s: Seq<char>, n: int)
    requires
        0 <= n <= s.len(),
    ensures
        0 <= last_break(s, n) <= n,
    decreases n,
{
    if n > 0 && s[n - 1] != '\n' {
        lemma_last_break(s, n - 1);
    }
}

/// The first message of a text takes something and not more than fits.
pub proof fn lemma_cut(s: Seq<char>, limit: nat)
    ensures
        0 <= cut(s, limit) <= s.len(),
        cut(s, limit) <= room(limit),
        s.len() > 0 ==> cut(s, limit) > 0,
{
    if s.len() > room(limit) {
        lemma_last_break(s, room(limit) as int);
    }
}

/// The messages of a text, none of them longer than the limit.
pub open spec fn messages(s: Seq<char>, limit: nat) -> Seq<Seq<char>>
    decreases s.len(),
{
    proof {
        lemma_cut(s, limit);
    }
    if s.len() == 0 {
        Seq::empty()
    } else {
        let n = cut(s, limit);
        seq![s.take(n)] + messages(s.skip(n), limit)
    }
}

/// Splits a text into messages of at most `limit` characters, behind line
/// feeds where possible. Nothing of the text is lost.
pub fn split_message(content: &str, limit: usize) -> (r: Vec<String>)
    ensures
        crate::text::texts(r@) == messages(content@, limit as nat),
        content@.len() > 0 ==> r@.len() > 0,
{
    let all = chars_of(content);
    let most: usize = if limit == 0 {
        1
    } else {
        limit
    };
    let mut out: Vec<String> = Vec::new();
    let mut rest = all.as_slice();
    assert(crate::text::texts(out@) + messages(rest@, limit as nat) =~= messages(
        rest@,
        limit as nat,
    ));
    while rest.len() > 0
        invariant
            most == room(limit as nat),
            messages(content@, limit as nat) == crate::text::texts(out@) + messages(
                rest@,
                limit as nat,
            ),
        decreases rest@.len(),
    {
        proof {
            lemma_cut(rest@, limit as nat);
        }
        let mut n: usize = rest.len();
        if rest.len() > most {
            let mut k: usize = most;
            while k > 0 && rest[k - 1] != '\n'
                invariant
                    k <= most,
                    most < rest@.len(),
                    last_break(rest@, most as int) == last_break(rest@, k as int),
                decreases k,
            {
                k -= 1;
            }
            n = if k > 0 {
                k
            } else {
                most
            };
        }
        assert(n == cut(rest@, limit as nat));
        let ghost before = out@;
        let ghost tail = messages(rest@.skip(n as int), limit as nat);
        out.push(string_of(take(rest, n)));
        proof {
            assert(crate::text::texts(out@) =~= crate::text::texts(before).push(
                rest@.take(n as int),
            ));
            assert(crate::text::texts(before) + (seq![rest@.take(n as int)] + tail)
                =~= crate::text::texts(out@) + tail);
        }
        rest = skip(rest, n);
    }
    proof {
        assert(messages(rest@, limit as nat) =~= Seq::empty());
        assert(crate::text::texts(out@) =~= messages(content@, limit as nat));
        assert(crate::text::texts(out@).len() == out@.len());
    }
    out
}

/// Splitting loses nothing: the messages, one after the other, are the text.
pub proof fn lemma_messages_lossless(s: Seq<char>, limit: nat)
    ensures
        messages(s, limit).flatten() == s,
    decreases s.len(),
{
    lemma_cut(s, limit);
    if s.len() > 0 {
        let n = cut(s, limit);
        lemma_messages_lossless(s.skip(n), limit);
        assert(messages(s, limit).drop_first() =~= messages(s.skip(n), limit));
        assert(messages(s, limit).first() == s.take(n));
        assert(s.take(n) + s.skip(n) =~= s);
    } else {
        assert(s =~= Seq::empty());
    }
}

/// Every message holds something and fits the limit.
pub proof fn lemma_messages_fit(s: Seq<char>, limit: nat)
    ensures
        forall|i: int|
            0 <= i < messages(s, limit).len() ==> 0 < (#[trigger] messages(s, limit)[i]).len()
                <= room(limit),
    decreases s.len(),
{
    lemma_cut(s, limit);
    if s.len() > 0 {
        let n = cut(s, limit);
        let tail = messages(s.skip(n), limit);
        lemma_messages_fit(s.skip(n), limit);
        assert forall|i: int| 0 <= i < messages(s, limit).len() implies 0 < (
        #[trigger] messages(s, limit)[i]).len() <= room(limit) by {
            if i > 0 {
                assert(messages(s, limit)[i] == tail[i - 1]);
            }
        }
    }
}

/// The last `limit` characters of a text, or the whole of a shorter one.
pub open spec fn tail(s: Seq<char>, limit: nat) -> Seq<char> {
    if s.len() <= limit {
        s
    } else {
        s.skip(s.len() - limit)
    }
}

/// Keeps the last `limit` characters of a text.
pub fn truncate_chars_tail(value: &str, limit: usize) -> (r: String)
    ensures
        r@ == tail(value@, limit as nat),
        r@.len() <= limit,
{
    let all = chars_of(value);
    if all.len() <= limit {
        return string_of(all.as_slice());
    }
    string_of(slice_subrange(all.as_slice(), all.len() - limit, all.len()))
}

/// Nothing is cut without need: a text that fits is one message, and every
/// message but the last is full or ends a line. The first is as long as can be:
/// where it ends a line, no later line feed would have fitted.
pub proof fn lemma_messages_are_as_long_as_can_be(s: Seq<char>, limit: nat)
    ensures
        s.len() == 0 ==> messages(s, limit).len() == 0,
        0 < s.len() <= room(limit) ==> messages(s, limit) == seq![s],
        limit > 0 ==> room(limit) == limit,
        forall|i: int|
            0 <= i < messages(s, limit).len() - 1 ==> (#[trigger] messages(s, limit)[i]).len()
                == room(limit) || messages(s, limit)[i].last() == '\n',
        s.len() > room(limit) ==> {
            let n = messages(s, limit)[0].len();
            &&& messages(s, limit)[0] == s.take(n as int)
            &&& forall|j: int| n <= j < room(limit) ==> s[j] != '\n'
        },
    decreases s.len(),
{
    lemma_cut(s, limit);
    if s.len() > 0 {
        let n = cut(s, limit);
        let tail = messages(s.skip(n), limit);
        let all = messages(s, limit);
        lemma_messages_are_as_long_as_can_be(s.skip(n), limit);
        if s.len() <= room(limit) {
            assert(s.skip(n) =~= Seq::empty());
            assert(s.take(n) =~= s);
            assert(all =~= seq![s]);
        } else {
            lemma_last_break_is_last(s, room(limit) as int);
            assert forall|i: int| 0 <= i < all.len() - 1 implies (#[trigger] all[i]).len() == room(
                limit,
            ) || all[i].last() == '\n' by {
                if i > 0 {
                    assert(all[i] == tail[i - 1]);
                }
            }
        }
    }
}

proof fn lemma_last_break_is_last(s: Seq<char>, n: int)
    requires
        0 <= n <= s.len(),
    ensures
        0 <= last_break(s, n) <= n,
        last_break(s, n) > 0 ==> s[last_break(s, n) - 1] == '\n',
        forall|j: int| last_break(s, n) <= j < n ==> s[j] != '\n',
    decreases n,
{
    if n > 0 && s[n - 1] != '\n' {
        lemma_last_break_is_last(s, n - 1);
    }
}

/// The end of a text is as long as the limit allows, and ends as the text does.
pub proof fn lemma_tail_is_the_end(s: Seq<char>, limit: nat)
    ensures
        tail(s, limit).len() == if s.len() <= limit {
            s.len()
        } else {
            limit
        },
        forall|i: int|
            0 <= i < tail(s, limit).len() ==> tail(s, limit)[i] == s[s.len() - tail(s, limit).len()
                + i],
{
}

} // verus!
