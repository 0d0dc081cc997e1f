//! Recovering article ids from already-posted messages: an id is
//! recognized either in an embed's canonical article link or after an
//! explicit `ID:` marker in the message body; the result is a
//! deduplicated, order-independent collection.

use vstd::prelude::*;

use crate::text::{
    contains_u64, find_match, is_digit, match_at, parse_u64_chars, parses_u64, str_chars, views_of,
};

verus! {

/// One already-posted chat message: the links of its embeds and its
/// body text.
pub struct PostedMessage {
    pub embed_urls: Vec<String>,
    pub content: String,
}

impl PostedMessage {
    pub fn new(embed_urls: Vec<String>, content: String) -> (r: PostedMessage)
        ensures
            r.embed_urls == embed_urls,
            r.content == content,
    {
        PostedMessage { embed_urls, content }
    }
}

/// The canonical article link fragment that carries the article id.
pub open spec fn url_marker() -> Seq<char> {
    "playstartrekonline.com/en/news/article/"@
}

/// The explicit id marker recognized in message bodies.
pub open spec fn id_marker() -> Seq<char> {
    "ID:"@
}

/// Whether the marker occurs at `i` with at least one digit after it.
pub open spec fn qualifying(s: Seq<char>, m: Seq<char>, i: int) -> bool {
    match_at(s, m, i) && i + m.len() < s.len() && is_digit(s[i + m.len()])
}

/// The first qualifying marker occurrence at or after `from`.
pub open spec fn first_qualifying(s: Seq<char>, m: Seq<char>, from: int) -> Option<int>
    decreases s.len() + 1 - from,
{
    if !(0 <= from <= s.len()) {
        None
    } else if qualifying(s, m, from) {
        Some(from)
    } else if from == s.len() {
        None
    } else {
        first_qualifying(s, m, from + 1)
    }
}

/// Where the run of digits beginning at `from` ends.
pub open spec fn digit_run_end(s: Seq<char>, from: int) -> int
    decreases s.len() - from,
{
    if 0 <= from < s.len() && is_digit(s[from]) {
        digit_run_end(s, from + 1)
    } else {
        from
    }
}

/// The id that a text yields for a marker: the maximal digit run after
/// the first marker occurrence that any digit follows, provided the
/// run's value fits.
pub open spec fn marker_id(s: Seq<char>, m: Seq<char>) -> Option<u64> {
    match first_qualifying(s, m, 0) {
        Some(i) => {
            let start = i + m.len();
            parses_u64(s.subrange(start as int, digit_run_end(s, start as int)))
        },
        None => None,
    }
}

/// Whether one character is a decimal digit.
fn exec_is_digit(c: char) -> (r: bool)
    ensures
        r == is_digit(c),
{
    let u: u32 = c as u32;
    48 <= u && u <= 57
}

proof fn lemma_first_qualifying_some(s: Seq<char>, m: Seq<char>, from: int, i: int)
    requires
        0 <= from <= s.len(),
        from <= i,
        qualifying(s, m, i),
        forall|j: int| from <= j < i ==> !qualifying(s, m, j),
    ensures
        first_qualifying(s, m, from) == Some(i),
    decreases i - from,
{
    if qualifying(s, m, from) {
        if i != from {
            assert(!qualifying(s, m, from));
        }
    } else {
        assert(from != i);
        assert(i + m.len() < s.len());
        assert(from < s.len());
        lemma_first_qualifying_some(s, m, from + 1, i);
    }
}

proof fn lemma_first_qualifying_none(s: Seq<char>, m: Seq<char>, from: int)
    requires
        0 <= from <= s.len(),
        forall|j: int| from <= j ==> !qualifying(s, m, j),
    ensures
        first_qualifying(s, m, from) is None,
    decreases s.len() - from,
{
    if from < s.len() {
        lemma_first_qualifying_none(s, m, from + 1);
    }
}

proof fn lemma_digit_run_end(s: Seq<char>, start: int, end: int)
    requires
        0 <= start <= end <= s.len(),
        forall|j: int| start <= j < end ==> is_digit(s[j]),
        end == s.len() || !is_digit(s[end]),
    ensures
        digit_run_end(s, start) == end,
    decreases end - start,
{
    if start == end {
    } else {
        assert(is_digit(s[start]));
        lemma_digit_run_end(s, start + 1, end);
    }
}

/// Extract the id that one text yields for one marker.
pub fn extract_marker_id(text: &str, marker: &str) -> (r: Option<u64>)
    ensures
        r == marker_id(text@, marker@),
{
    let chars = str_chars(text);
    let m = str_chars(marker);
    let n = chars.len();
    let mlen = m.len();
    let mut pos: usize = 0;
    loop
        invariant
            chars@ == text@,
            m@ == marker@,
            n == chars@.len(),
            mlen == m@.len(),
            0 <= pos <= n,
            forall|j: int| 0 <= j < pos ==> !qualifying(text@, marker@, j),
        ensures
            forall|j: int| 0 <= j ==> !qualifying(text@, marker@, j),
        decreases n - pos,
    {
        match find_match(&chars, &m, pos) {
            Some(i) => {
                proof {
                    assert forall|j: int| 0 <= j < i implies !qualifying(text@, marker@, j) by {
                        if j >= pos {
                            assert(!match_at(text@, marker@, j));
                        }
                    }
                }
                if i + mlen < n && exec_is_digit(chars[i + mlen]) {
                    proof {
                        assert(qualifying(text@, marker@, i as int));
                        lemma_first_qualifying_some(text@, marker@, 0, i as int);
                    }
                    let start = i + mlen;
                    let mut end: usize = start;
                    while end < n && exec_is_digit(chars[end])
                        invariant
                            chars@ == text@,
                            n == chars@.len(),
                            start <= end <= n,
                            forall|j: int| start <= j < end ==> is_digit(text@[j]),
                        decreases n - end,
                    {
                        end = end + 1;
                    }
                    proof {
                        lemma_digit_run_end(text@, start as int, end as int);
                    }
                    return parse_u64_chars(&chars, start, end);
                } else {
                    proof {
                        assert(!qualifying(text@, marker@, i as int)) by {
                            if i + mlen < n {
                                assert(!is_digit(text@[i + mlen]));
                            }
                        }
                    }
                    if i >= n {
                        proof {
                            assert forall|j: int| 0 <= j implies !qualifying(
                                text@,
                                marker@,
                                j,
                            ) by {
                                if j >= pos {
                                    if j < i {
                                        assert(!match_at(text@, marker@, j));
                                    } else if j == i {
                                    } else {
                                        assert(!(j + marker@.len() < text@.len()));
                                    }
                                }
                            }
                        }
                        break;
                    }
                    pos = i + 1;
                }
            },
            None => {
                proof {
                    assert forall|j: int| 0 <= j implies !qualifying(text@, marker@, j) by {
                        if j >= pos {
                            assert(!match_at(text@, marker@, j));
                        }
                    }
                }
                break;
            },
        }
    }
    proof {
        lemma_first_qualifying_none(text@, marker@, 0);
    }
    None
}

/// The id the embeds of one message yield: the first link that yields
/// one.
pub open spec fn first_embed_id(urls: Seq<Seq<char>>) -> Option<u64>
    decreases urls.len(),
{
    if urls.len() == 0 {
        None
    } else {
        match marker_id(urls[0], url_marker()) {
            Some(id) => Some(id),
            None => first_embed_id(urls.drop_first()),
        }
    }
}

/// Whether `id` is visible in one of the messages, in an embed link or
/// after the body marker.
pub open spec fn posted_id(msgs: Seq<PostedMessage>, id: u64) -> bool {
    exists|k: int|
        0 <= k < msgs.len() && (first_embed_id(views_of(msgs[k].embed_urls@)) == Some(id)
            || marker_id(msgs[k].content@, id_marker()) == Some(id))
}

/// The id one message's embeds yield.
fn embed_id_of(msg: &PostedMessage) -> (r: Option<u64>)
    ensures
        r == first_embed_id(views_of(msg.embed_urls@)),
{
    let mut j: usize = 0;
    let n = msg.embed_urls.len();
    proof {
        assert(views_of(msg.embed_urls@).skip(0) =~= views_of(msg.embed_urls@));
    }
    loop
        invariant
            0 <= j <= n,
            n == msg.embed_urls@.len(),
            first_embed_id(views_of(msg.embed_urls@)) == first_embed_id(
                views_of(msg.embed_urls@).skip(j as int),
            ),
        ensures
            j <= n,
            first_embed_id(views_of(msg.embed_urls@)) == (if j < n {
                marker_id(msg.embed_urls@[j as int]@, url_marker())
            } else {
                None
            }),
        decreases n - j,
    {
        if j >= n {
            proof {
                assert(views_of(msg.embed_urls@).skip(j as int).len() == 0);
            }
            break;
        }
        let ghost rest = views_of(msg.embed_urls@).skip(j as int);
        proof {
            assert(rest[0] == msg.embed_urls@[j as int]@);
            assert(rest.drop_first() =~= views_of(msg.embed_urls@).skip(j + 1));
        }
        let r = extract_marker_id(
            msg.embed_urls[j].as_str(),
            "playstartrekonline.com/en/news/article/",
        );
        match r {
            Some(_) => {
                proof {
                    assert(first_embed_id(rest) == r);
                }
                break;
            },
            None => {
                j = j + 1;
            },
        }
    }
    if j < n {
        extract_marker_id(msg.embed_urls[j].as_str(), "playstartrekonline.com/en/news/article/")
    } else {
        None
    }
}

/// Collect, without duplicates, every article id visible in the given
/// messages.
pub fn get_ids_from_messages(messages: &Vec<PostedMessage>) -> (r: Vec<u64>)
    ensures
        r@.no_duplicates(),
        forall|id: u64| #[trigger] r@.contains(id) <==> posted_id(messages@, id),
{
    let mut out: Vec<u64> = Vec::new();
    let mut k: usize = 0;
    while k < messages.len()
        invariant
            0 <= k <= messages@.len(),
            out@.no_duplicates(),
            forall|id: u64| #[trigger]
                out@.contains(id) <==> posted_id(messages@.take(k as int), id),
        decreases messages@.len() - k,
    {
        let ghost prefix = messages@.take(k as int);
        let ghost t = messages@.take(k + 1);
        proof {
            assert(t.drop_last() =~= prefix);
            assert(t.last() == messages@[k as int]);
        }
        let msg = &messages[k];
        let e = embed_id_of(msg);
        let c = extract_marker_id(msg.content.as_str(), "ID:");
        let ghost before = out@;
        if let Some(id) = e {
            if !contains_u64(&out, id) {
                out.push(id);
            }
        }
        let ghost mid = out@;
        if let Some(id) = c {
            if !contains_u64(&out, id) {
                out.push(id);
            }
        }
        proof {
            assert forall|id: u64| #[trigger]
                out@.contains(id) <==> posted_id(t, id) by {
                if out@.contains(id) {
                    if before.contains(id) {
                        assert(posted_id(prefix, id));
                        let i = choose|i: int|
                            0 <= i < prefix.len() && (first_embed_id(
                                views_of(prefix[i].embed_urls@),
                            ) == Some(id) || marker_id(prefix[i].content@, id_marker())
                                == Some(id));
                        assert(t[i] == prefix[i]);
                        assert(posted_id(t, id));
                    } else {
                        assert(e == Some(id) || c == Some(id)) by {
                            if mid.contains(id) {
                                if !before.contains(id) {
                                    let j = choose|j: int|
                                        0 <= j < mid.len() && mid[j] == id;
                                    assert(j == mid.len() - 1);
                                }
                            } else {
                                let j = choose|j: int| 0 <= j < out@.len() && out@[j] == id;
                                assert(j == out@.len() - 1);
                            }
                        }
                        assert(t[k as int] == messages@[k as int]);
                        assert(posted_id(t, id));
                    }
                }
                if posted_id(t, id) {
                    let i = choose|i: int|
                        0 <= i < t.len() && (first_embed_id(views_of(t[i].embed_urls@)) == Some(
                            id,
                        ) || marker_id(t[i].content@, id_marker()) == Some(id));
                    if i < k {
                        assert(prefix[i] == t[i]);
                        assert(posted_id(prefix, id));
                        assert(before.contains(id));
                        assert forall|j: int|
                            0 <= j < before.len() implies out@.contains(before[j]) by {
                            assert(out@[j] == before[j]);
                        }
                        assert(out@.contains(id));
                    } else {
                        assert(e == Some(id) || c == Some(id));
                        if e == Some(id) {
                            if before.contains(id) {
                                let j = choose|j: int|
                                    0 <= j < before.len() && before[j] == id;
                                assert(out@[j] == id);
                            } else {
                                assert(mid[mid.len() - 1] == id);
                                let j = mid.len() - 1;
                                assert(out@[j as int] == id);
                            }
                        } else {
                            if mid.contains(id) {
                                let j = choose|j: int| 0 <= j < mid.len() && mid[j] == id;
                                assert(out@[j] == id);
                            } else {
                                assert(out@[out@.len() - 1] == id);
                            }
                        }
                    }
                    assert(out@.contains(id));
                }
            }
        }
        k = k + 1;
    }
    proof {
        assert(messages@.take(messages@.len() as int) =~= messages@);
    }
    out
}

} // verus!
