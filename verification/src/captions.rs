//! Captions and titles: phrases out of words, lines that fit, and the drawing
//! commands for them.

use vstd::prelude::*;

use crate::float::Real;
use crate::fonts;
use crate::fonts::{measure_text_px, resolve_font_family, Fonts, FontsV};
use crate::model;
use crate::model::{TextAlign, TextStyle, TranscriptDoc, TranscriptV, Word, WordV};
use crate::render;
use crate::render::secs;
use crate::seqs;
use crate::seqs::Duplicate;
use crate::text;
use crate::text::{byte_len, chars_of, copy_text, int_to_text, join, nat_to_text, push_text, replace_all, split_words, strip_start, trim_head};
use crate::time;
use crate::time::{max2, min2, minus, plus, TimeUs};

verus! {

/// 0.86: how much of the frame width a caption can use.
pub const WIDTH_BITS: u64 = 0x3feb_851e_b851_eb85;

/// 0.52: the usual width of a character in its size.
pub const CHAR_WIDTH_BITS: u64 = 0x3fe0_a3d7_0a3d_70a4;

/// 0.6 in single precision.
pub const LINE_LIMIT_BITS: u64 = 0x3fe3_3333_4000_0000;

/// 1.6 in single precision: a word alone is larger.
pub const WORD_SCALE_BITS: u64 = 0x3ff9_9999_a000_0000;

/// A pause longer than this starts a new caption.
pub const CAPTION_GAP_US: TimeUs = 900_000;

/// No caption stays longer than this.
pub const CAPTION_MAX_DUR_US: TimeUs = 6_000_000;

/// A caption lingers this long behind its last word.
pub const CAPTION_LINGER_US: TimeUs = 600_000;

// ---- phrases ----

/// A caption: its text, and from when to when it shows.
pub type Phrase = (String, TimeUs, TimeUs);

/// The contents of a `Phrase`.
pub type PhraseV = (Seq<char>, TimeUs, TimeUs);

/// The contents of phrases.
pub open spec fn phrase_views(v: Seq<Phrase>) -> Seq<PhraseV> {
    v.map_values(|x: Phrase| (x.0@, x.1, x.2))
}

/// The words that are not rejected.
pub open spec fn kept(words: Seq<WordV>) -> Seq<WordV>
    decreases words.len(),
{
    if words.len() == 0 {
        words
    } else if words.last().rejected {
        kept(words.drop_last())
    } else {
        kept(words.drop_last()).push(words.last())
    }
}

/// The words that captions are made of are those that are not rejected: none of
/// the others is among them, and none of these is missing or out of its order.
pub proof fn law_kept_words(words: Seq<WordV>)
    ensures
        kept(words) == words.filter(|w: WordV| !w.rejected),
        forall|i: int| 0 <= i < kept(words).len() ==> !(#[trigger] kept(words)[i]).rejected,
        forall|i: int|
            0 <= i < words.len() && !(#[trigger] words[i]).rejected ==> kept(words).contains(
                words[i],
            ),
        (forall|i: int| 0 <= i < words.len() ==> !(#[trigger] words[i]).rejected) ==> kept(words)
            == words,
    decreases words.len(),
{
    reveal(Seq::filter);
    if words.len() > 0 {
        let less = words.drop_last();
        law_kept_words(less);
        assert forall|i: int| 0 <= i < words.len() && !(#[trigger] words[i]).rejected implies kept(
            words,
        ).contains(words[i]) by {
            if i < less.len() {
                assert(less[i] == words[i]);
                let k = kept(less).index_of(words[i]);
                assert(kept(words)[k] == words[i]);
            } else {
                assert(kept(words).last() == words[i]);
            }
        }
        if forall|i: int| 0 <= i < words.len() ==> !(#[trigger] words[i]).rejected {
            assert(!words[words.len() - 1].rejected);
            assert forall|i: int| 0 <= i < less.len() implies !(#[trigger] less[i]).rejected by {
                assert(less[i] == words[i]);
            }
            assert(kept(words) =~= words);
        }
    }
}

/// Keeps the words that are not rejected.
pub fn keep_words(words: &Vec<Word>) -> (r: Vec<Word>)
    ensures
        seqs::views(r@) == kept(seqs::views(words@)),
        seqs::views(r@) == seqs::views(words@).filter(|w: WordV| !w.rejected),
{
    proof {
        law_kept_words(seqs::views(words@));
    }
    let ghost all = seqs::views(words@);
    let mut r: Vec<Word> = Vec::new();
    let mut i: usize = 0;
    assert(seqs::views(r@) =~= all.take(0));
    while i < words.len()
        invariant
            i <= words.len(),
            all == seqs::views(words@),
            seqs::views(r@) == kept(all.take(i as int)),
        decreases words.len() - i,
    {
        proof {
            assert(all.take(i as int + 1).drop_last() =~= all.take(i as int));
            assert(all.take(i as int + 1).last() == words@[i as int]@);
        }
        if !words[i].rejected {
            let ghost before = r@;
            r.push(words[i].duplicate());
            assert(seqs::views(r@) =~= seqs::views(before).push(words@[i as int]@));
        }
        i = i + 1;
    }
    assert(all.take(i as int) =~= all);
    r
}

/// The bytes of words from one up to another, with a space between each two.
pub open spec fn line_bytes(words: Seq<WordV>, from: int, to: int) -> nat
    decreases to - from,
{
    if to <= from + 1 {
        text::byte_count(words[from].label())
    } else {
        line_bytes(words, from, to - 1) + 1 + text::byte_count(words[to - 1].label())
    }
}

/// How many words a caption holds at the most.
pub open spec fn word_limit(max_words: Option<u32>) -> Option<nat> {
    match max_words {
        Some(n) => Some(
            if n < 1 {
                1
            } else if n > 20 {
                20
            } else {
                n as nat
            },
        ),
        None => None,
    }
}

/// Whether a word starts a new caption behind one that starts with another.
pub open spec fn breaks(
    words: Seq<WordV>,
    first: int,
    i: int,
    max_chars: nat,
    limit: Option<nat>,
) -> bool {
    let full = match limit {
        Some(n) => i - first >= n,
        None => line_bytes(words, first, i) + 1 + text::byte_count(words[i].label()) > max_chars,
    };
    full || time::sooner(words[i].start_us, words[i - 1].end_us) > CAPTION_GAP_US || time::sooner(
        words[i].end_us,
        words[first].start_us,
    ) > CAPTION_MAX_DUR_US
}

/// The first word of the caption of a word.
pub open spec fn first_of(words: Seq<WordV>, i: int, max_chars: nat, limit: Option<nat>) -> int
    decreases i,
{
    if i <= 0 {
        0
    } else {
        let first = first_of(words, i - 1, max_chars, limit);
        if breaks(words, first, i, max_chars, limit) {
            i
        } else {
            first
        }
    }
}

/// The words below a number that start a caption.
pub open spec fn starts_below(words: Seq<WordV>, n: int, max_chars: nat, limit: Option<nat>) -> Seq<int>
    decreases n,
{
    if n <= 0 {
        Seq::<int>::empty()
    } else if first_of(words, n - 1, max_chars, limit) == n - 1 {
        starts_below(words, n - 1, max_chars, limit).push(n - 1)
    } else {
        starts_below(words, n - 1, max_chars, limit)
    }
}

/// The labels of words.
pub open spec fn labels_of(words: Seq<WordV>) -> Seq<Seq<char>> {
    words.map_values(|w: WordV| w.label())
}

/// The caption of words from one up to another.
pub open spec fn phrase_of(words: Seq<WordV>, from: int, to: int) -> PhraseV {
    let start = words[from].start_us;
    let natural = time::later(words[to - 1].end_us, CAPTION_LINGER_US);
    let end = if to < words.len() {
        time::min_time(natural, words[to].start_us)
    } else {
        natural
    };
    (
        text::joined(labels_of(words.subrange(from, to)), " "@),
        start,
        time::max_time(end, time::later(start, 1)),
    )
}

/// Where the caption with a number ends.
pub open spec fn phrase_end(starts: Seq<int>, k: int, n: int) -> int {
    if k + 1 < starts.len() {
        starts[k + 1]
    } else {
        n
    }
}

/// The captions of words.
pub open spec fn word_phrases(words: Seq<WordV>, max_chars: nat, limit: Option<nat>) -> Seq<PhraseV> {
    let starts = starts_below(words, words.len() as int, max_chars, limit);
    Seq::new(
        starts.len(),
        |k: int| phrase_of(words, starts[k], phrase_end(starts, k, words.len() as int)),
    )
}

/// The captions of a transcript: of its words, or its segments where it has no
/// words.
pub open spec fn phrases_of(doc: TranscriptV, max_chars: nat, max_words: Option<u32>) -> Seq<PhraseV> {
    let words = kept(doc.words);
    if words.len() == 0 {
        doc.segments.map_values(|s: model::SegmentV| (s.text, s.start_us, s.end_us))
    } else {
        word_phrases(words, max_chars, word_limit(max_words))
    }
}

proof fn lemma_first_of(words: Seq<WordV>, i: int, max_chars: nat, limit: Option<nat>)
    requires
        0 <= i,
    ensures
        0 <= first_of(words, i, max_chars, limit) <= i,
    decreases i,
{
    if i > 0 {
        lemma_first_of(words, i - 1, max_chars, limit);
    }
}

/// The starts of captions rise, the first one is the first word, and all words
/// from a start up to the next have that start as their first.
pub proof fn law_captions_cover(words: Seq<WordV>, n: int, max_chars: nat, limit: Option<nat>)
    requires
        0 < n <= words.len(),
    ensures
        ({
            let starts = starts_below(words, n, max_chars, limit);
            &&& starts.len() > 0
            &&& starts[0] == 0
            &&& forall|k: int| 0 <= k < starts.len() ==> 0 <= #[trigger] starts[k] < n
            &&& forall|k: int|
                0 < k < starts.len() ==> starts[k - 1] < #[trigger] starts[k]
            &&& starts.last() == first_of(words, n - 1, max_chars, limit)
            &&& forall|k: int, i: int|
                0 <= k < starts.len() && starts[k] <= i < phrase_end(starts, k, n) ==> (#[trigger] first_of(
                    words,
                    i,
                    max_chars,
                    limit,
                )) == #[trigger] starts[k]
        }),
    decreases n,
{
    let starts = starts_below(words, n, max_chars, limit);
    lemma_first_of(words, n - 1, max_chars, limit);
    if n == 1 {
        assert(starts_below(words, 0, max_chars, limit) =~= Seq::<int>::empty());
        assert(starts =~= seq![0int]);
    } else {
        law_captions_cover(words, n - 1, max_chars, limit);
        let less = starts_below(words, n - 1, max_chars, limit);
        assert forall|k: int, i: int|
            0 <= k < starts.len() && starts[k] <= i < phrase_end(starts, k, n) implies (#[trigger] first_of(
            words,
            i,
            max_chars,
            limit,
        )) == #[trigger] starts[k] by {
            if first_of(words, n - 1, max_chars, limit) == n - 1 {
                if k < less.len() {
                    assert(starts[k] == less[k]);
                    assert(phrase_end(starts, k, n) == phrase_end(less, k, n - 1));
                }
            } else {
                assert(starts[k] == less[k]);
                if i < n - 1 {
                    assert(phrase_end(less, k, n - 1) >= i + 1 || k == less.len() - 1);
                }
            }
        }
    }
}

proof fn lemma_starts_rise(words: Seq<WordV>, max_chars: nat, limit: Option<nat>)
    requires
        0 < words.len(),
    ensures
        ({
            let starts = starts_below(words, words.len() as int, max_chars, limit);
            &&& forall|k: int| 0 <= k < starts.len() ==> 0 <= #[trigger] starts[k] < words.len()
            &&& forall|k: int| 0 < k < starts.len() ==> starts[k - 1] < #[trigger] starts[k]
        }),
{
    law_captions_cover(words, words.len() as int, max_chars, limit);
}

/// With a limit of words no caption has more of them.
pub proof fn law_word_limit(words: Seq<WordV>, max_chars: nat, limit: nat, k: int)
    requires
        0 < words.len(),
        limit >= 1,
        0 <= k < starts_below(words, words.len() as int, max_chars, Some(limit)).len(),
    ensures
        ({
            let starts = starts_below(words, words.len() as int, max_chars, Some(limit));
            phrase_end(starts, k, words.len() as int) - starts[k] <= limit
        }),
{
    let n = words.len() as int;
    let starts = starts_below(words, n, max_chars, Some(limit));
    law_captions_cover(words, n, max_chars, Some(limit));
    let end = phrase_end(starts, k, n);
    if end - starts[k] > limit {
        let i = starts[k] + limit;
        assert(first_of(words, i, max_chars, Some(limit)) == starts[k]);
        assert(first_of(words, i - 1, max_chars, Some(limit)) == starts[k]);
        assert(breaks(words, starts[k], i, max_chars, Some(limit)));
    }
}

proof fn lemma_bytes_add(a: Seq<char>, b: Seq<char>)
    ensures
        text::byte_count(a + b) == text::byte_count(a) + text::byte_count(b),
    decreases b.len(),
{
    if b.len() == 0 {
        assert(a + b =~= a);
    } else {
        assert((a + b).drop_last() =~= a + b.drop_last());
        lemma_bytes_add(a, b.drop_last());
    }
}

proof fn lemma_line_bytes(words: Seq<WordV>, from: int, to: int)
    requires
        0 <= from < to <= words.len(),
    ensures
        line_bytes(words, from, to) == text::byte_count(
            text::joined(labels_of(words.subrange(from, to)), " "@),
        ),
    decreases to - from,
{
    let l = labels_of(words.subrange(from, to));
    if to == from + 1 {
        assert(l[0] == words[from].label());
    } else {
        lemma_line_bytes(words, from, to - 1);
        assert(l.drop_last() =~= labels_of(words.subrange(from, to - 1)));
        assert(l.last() == words[to - 1].label());
        let head = text::joined(l.drop_last(), " "@);
        lemma_bytes_add(head + " "@, l.last());
        lemma_bytes_add(head, " "@);
        reveal_strlit(" ");
        assert(" "@ =~= seq![' ']);
        assert(" "@.drop_last() =~= Seq::<char>::empty());
        assert(text::byte_count(" "@.drop_last()) == 0);
        assert(text::char_bytes(' ') == 1);
    }
}

/// Whether a caption is that of words from one up to another. It says their
/// labels with a space between each two, from the start of the first word until
/// the next caption comes, or a little longer than its last word. No pause in it
/// is long, it does not last long, and it is not overfull, unless it has one word
/// alone; and with the next word it would not be so any more.
pub open spec fn captions_words(
    words: Seq<WordV>,
    from: int,
    to: int,
    x: PhraseV,
    max_chars: nat,
    limit: Option<nat>,
) -> bool {
    &&& 0 <= from < to <= words.len()
    &&& x.0 == text::joined(words.subrange(from, to).map_values(|w: WordV| w.label()), " "@)
    &&& x.1 == words[from].start_us
    &&& x.2 > x.1 || x.1 == i64::MAX
    &&& x.2 <= words[to - 1].end_us + 600_000 || x.2 <= x.1 + 1
    &&& to < words.len() ==> x.2 <= words[to].start_us || x.2 <= x.1 + 1
    &&& x.2 == words[to - 1].end_us + 600_000 || x.2 == i64::MAX || x.2 <= x.1 + 1 || to < words.len()
        && x.2 == words[to].start_us
    &&& forall|i: int|
        from < i < to ==> (#[trigger] words[i]).start_us - words[i - 1].end_us <= 900_000
            && words[i].end_us - words[from].start_us <= 6_000_000
    &&& match limit {
        Some(n) => to - from <= n || to == from + 1,
        None => text::byte_count(x.0) <= max_chars || to == from + 1,
    }
    &&& to < words.len() ==> words[to].start_us - words[to - 1].end_us > 900_000
        || words[to].end_us - words[from].start_us > 6_000_000 || match limit {
        Some(n) => to - from >= n,
        None => text::byte_count(x.0) + 1 + text::byte_count(words[to].label()) > max_chars,
    }
}

/// Whether captions are those of words: they take the words one after the other,
/// from the first one to the last.
pub open spec fn captions_all(
    words: Seq<WordV>,
    cuts: Seq<int>,
    r: Seq<PhraseV>,
    max_chars: nat,
    limit: Option<nat>,
) -> bool {
    &&& cuts.len() == r.len() + 1
    &&& cuts[0] == 0
    &&& cuts.last() == words.len()
    &&& forall|k: int|
        0 <= k < r.len() ==> captions_words(
            words,
            cuts[k],
            cuts[k + 1],
            #[trigger] r[k],
            max_chars,
            limit,
        )
}

proof fn lemma_span(words: Seq<WordV>, max_chars: nat, limit: Option<nat>, k: int)
    requires
        words.len() > 0,
        0 <= k < starts_below(words, words.len() as int, max_chars, limit).len(),
    ensures
        ({
            let n = words.len() as int;
            let starts = starts_below(words, n, max_chars, limit);
            let a = starts[k];
            let b = phrase_end(starts, k, n);
            &&& 0 <= a < b <= n
            &&& forall|i: int|
                a < i < b ==> !(#[trigger] breaks(words, a, i, max_chars, limit))
            &&& b < n ==> breaks(words, a, b, max_chars, limit)
        }),
{
    let n = words.len() as int;
    let starts = starts_below(words, n, max_chars, limit);
    law_captions_cover(words, n, max_chars, limit);
    let a = starts[k];
    let b = phrase_end(starts, k, n);
    assert(0 <= a < b <= n) by {
        if k + 1 < starts.len() {
            assert(starts[k] < starts[k + 1]);
        }
    }
    assert forall|i: int| a < i < b implies !(#[trigger] breaks(words, a, i, max_chars, limit)) by {
        assert(first_of(words, i, max_chars, limit) == starts[k]);
        assert(first_of(words, i - 1, max_chars, limit) == starts[k]);
    }
    if b < n {
        assert(first_of(words, b - 1, max_chars, limit) == starts[k]);
        assert(b < phrase_end(starts, k + 1, n)) by {
            if k + 2 < starts.len() {
                assert(starts[k + 1] < starts[k + 2]);
            }
        }
        assert(first_of(words, b, max_chars, limit) == starts[k + 1]);
    }
}

proof fn lemma_caption(words: Seq<WordV>, a: int, b: int, max_chars: nat, limit: Option<nat>)
    requires
        0 <= a < b <= words.len(),
        forall|i: int| a < i < b ==> !(#[trigger] breaks(words, a, i, max_chars, limit)),
        b < words.len() ==> breaks(words, a, b, max_chars, limit),
    ensures
        captions_words(words, a, b, phrase_of(words, a, b), max_chars, limit),
{
    lemma_line_bytes(words, a, b);
    assert forall|i: int| a < i < b implies (#[trigger] words[i]).start_us - words[i - 1].end_us
        <= 900_000 && words[i].end_us - words[a].start_us <= 6_000_000 by {
        assert(!breaks(words, a, i, max_chars, limit));
    }
    if b > a + 1 {
        assert(!breaks(words, a, b - 1, max_chars, limit));
        assert(line_bytes(words, a, b) == line_bytes(words, a, b - 1) + 1 + text::byte_count(
            words[b - 1].label(),
        ));
    }
    assert(labels_of(words.subrange(a, b)) =~= words.subrange(a, b).map_values(
        |w: WordV| w.label(),
    ));
}

/// The captions of a transcript say every word that is not rejected, in order,
/// each in one caption, and no other word. A limit of words is kept from one to
/// twenty.
pub proof fn law_captions_say_the_words(
    doc: TranscriptV,
    max_chars: nat,
    max_words: Option<u32>,
    limit: Option<nat>,
)
    requires
        match max_words {
            Some(n) => limit is Some && 1 <= limit->Some_0 <= 20 && (1 <= n <= 20
                ==> limit->Some_0 == n) && (n == 0 ==> limit->Some_0 == 1) && (n > 20
                ==> limit->Some_0 == 20),
            None => limit is None,
        },
    ensures
        ({
            let words = doc.words.filter(|w: WordV| !w.rejected);
            let r = phrases_of(doc, max_chars, max_words);
            if words.len() == 0 {
                r == doc.segments.map_values(|s: model::SegmentV| (s.text, s.start_us, s.end_us))
            } else {
                exists|cuts: Seq<int>| captions_all(words, cuts, r, max_chars, limit)
            }
        }),
{
    law_kept_words(doc.words);
    let words = kept(doc.words);
    if words.len() > 0 {
        let n = words.len() as int;
        assert(limit == word_limit(max_words));
        let starts = starts_below(words, n, max_chars, limit);
        let r = phrases_of(doc, max_chars, max_words);
        assert(starts.len() > 0 && starts[0] == 0) by {
            law_captions_cover(words, n, max_chars, limit);
        }
        let cuts = starts.push(n);
        assert forall|k: int| 0 <= k < r.len() implies captions_words(
            words,
            cuts[k],
            cuts[k + 1],
            #[trigger] r[k],
            max_chars,
            limit,
        ) by {
            lemma_span(words, max_chars, limit, k);
            lemma_caption(words, starts[k], phrase_end(starts, k, n), max_chars, limit);
            assert(cuts[k] == starts[k] && cuts[k + 1] == phrase_end(starts, k, n));
        }
        assert(captions_all(words, cuts, r, max_chars, limit));
    }
}

fn find_starts(words: &Vec<Word>, max_chars: usize, limit: Option<usize>) -> (r: Vec<usize>)
    requires
        words.len() > 0,
    ensures
        r@.map_values(|x: usize| x as int) == starts_below(
            seqs::views(words@),
            words@.len() as int,
            max_chars as nat,
            match limit {
                Some(n) => Some(n as nat),
                None => None,
            },
        ),
{
    let ghost all = seqs::views(words@);
    let ghost lim: Option<nat> = match limit {
        Some(n) => Some(n as nat),
        None => None,
    };
    let mut r: Vec<usize> = Vec::new();
    r.push(0);
    let mut first: usize = 0;
    let mut chars: u128 = byte_len(words[0].label());
    let mut i: usize = 1;
    proof {
        assert(all[0] == words@[0]@);
        assert(starts_below(all, 0, max_chars as nat, lim) =~= Seq::<int>::empty());
        assert(r@.map_values(|x: usize| x as int) =~= seq![0int]);
    }
    while i < words.len()
        invariant
            1 <= i <= words.len(),
            first < i,
            all == seqs::views(words@),
            lim == (match limit {
                Some(n) => Some(n as nat),
                None => None::<nat>,
            }),
            first == first_of(all, i - 1, max_chars as nat, lim),
            r@.map_values(|x: usize| x as int) == starts_below(all, i as int, max_chars as nat, lim),
            limit is None ==> chars == line_bytes(all, first as int, i as int),
            limit is None ==> chars <= 5 * (usize::MAX as u128),
        decreases words.len() - i,
    {
        let w: &Word = &words[i];
        assert(all[i as int] == w@);
        assert(all[i - 1] == words@[i - 1]@);
        assert(all[first as int] == words@[first as int]@);
        let own: u128 = byte_len(w.label());
        let full: bool = match limit {
            Some(n) => i - first >= n,
            None => chars + 1 + own > max_chars as u128,
        };
        let gap: bool = minus(w.start_us, words[i - 1].end_us) > CAPTION_GAP_US;
        let slow: bool = minus(w.end_us, words[first].start_us) > CAPTION_MAX_DUR_US;
        let ghost before = r@;
        if full || gap || slow {
            r.push(i);
            first = i;
            chars = own;
            assert(r@.map_values(|x: usize| x as int) =~= before.map_values(
                |x: usize| x as int,
            ).push(i as int));
        } else if limit.is_none() {
            chars = chars + 1 + own;
        }
        i = i + 1;
    }
    r
}

fn label_list(words: &Vec<Word>, from: usize, to: usize) -> (r: Vec<String>)
    requires
        from <= to <= words.len(),
    ensures
        text::texts(r@) == labels_of(seqs::views(words@).subrange(from as int, to as int)),
{
    let ghost all = labels_of(seqs::views(words@).subrange(from as int, to as int));
    let mut r: Vec<String> = Vec::new();
    let mut i: usize = from;
    while i < to
        invariant
            from <= i <= to <= words.len(),
            all == labels_of(seqs::views(words@).subrange(from as int, to as int)),
            text::texts(r@) == all.take(i - from),
        decreases to - i,
    {
        let s: String = copy_text(words[i].label());
        assert(all[i - from] == s@);
        push_text(&mut r, s);
        assert(text::texts(r@) =~= all.take(i - from + 1));
        i = i + 1;
    }
    assert(all.take(to - from) =~= all);
    assert(text::texts(r@) =~= all);
    r
}

fn make_phrase(words: &Vec<Word>, from: usize, to: usize) -> (r: Phrase)
    requires
        from < to <= words.len(),
    ensures
        (r.0@, r.1, r.2) == phrase_of(seqs::views(words@), from as int, to as int),
{
    let ghost all = seqs::views(words@);
    assert(all[from as int] == words@[from as int]@);
    assert(all[to - 1] == words@[to - 1]@);
    let labels: Vec<String> = label_list(words, from, to);
    let line: String = join(&labels, " ");
    let start: TimeUs = words[from].start_us;
    let natural: TimeUs = plus(words[to - 1].end_us, CAPTION_LINGER_US);
    let end: TimeUs = if to < words.len() {
        assert(all[to as int] == words@[to as int]@);
        min2(natural, words[to].start_us)
    } else {
        natural
    };
    (line, start, max2(end, plus(start, 1)))
}

fn push_phrase(v: &mut Vec<Phrase>, x: Phrase)
    ensures
        phrase_views(final(v)@) == phrase_views(old(v)@).push((x.0@, x.1, x.2)),
{
    v.push(x);
    assert(phrase_views(v@) =~= phrase_views(old(v)@).push((x.0@, x.1, x.2)));
}

fn segment_phrases(doc: &TranscriptDoc) -> (r: Vec<Phrase>)
    ensures
        phrase_views(r@) == doc@.segments.map_values(
            |s: model::SegmentV| (s.text, s.start_us, s.end_us),
        ),
{
    let ghost all = doc@.segments.map_values(|s: model::SegmentV| (s.text, s.start_us, s.end_us));
    let mut r: Vec<Phrase> = Vec::new();
    let mut i: usize = 0;
    assert(phrase_views(r@) =~= all.take(0));
    while i < doc.segments.len()
        invariant
            i <= doc.segments.len(),
            all == doc@.segments.map_values(
                |s: model::SegmentV| (s.text, s.start_us, s.end_us),
            ),
            phrase_views(r@) == all.take(i as int),
        decreases doc.segments.len() - i,
    {
        let s: &model::Segment = &doc.segments[i];
        assert(all[i as int] == (s.text@, s.start_us, s.end_us));
        push_phrase(&mut r, (s.text.clone(), s.start_us, s.end_us));
        assert(phrase_views(r@) =~= all.take(i as int + 1));
        i = i + 1;
    }
    assert(all.take(i as int) =~= all);
    r
}

/// Makes the phrases of captions from a transcript.
pub fn caption_phrases(doc: &TranscriptDoc, max_chars: usize, max_words: Option<u32>) -> (r: Vec<Phrase>)
    ensures
        phrase_views(r@) == phrases_of(doc@, max_chars as nat, max_words),
{
    let words: Vec<Word> = keep_words(&doc.words);
    let ghost all = seqs::views(words@);
    assert(all.len() == words.len());
    if words.len() == 0 {
        return segment_phrases(doc);
    }
    let limit: Option<usize> = match max_words {
        Some(n) => Some(
            if n < 1 {
                1
            } else if n > 20 {
                20
            } else {
                n as usize
            },
        ),
        None => None,
    };
    let ghost lim = word_limit(max_words);
    let starts: Vec<usize> = find_starts(&words, max_chars, limit);
    let ghost ss = starts_below(all, all.len() as int, max_chars as nat, lim);
    assert(starts@.map_values(|x: usize| x as int) == ss);
    let ghost whole = word_phrases(all, max_chars as nat, lim);
    proof {
        lemma_starts_rise(all, max_chars as nat, lim);
        assert(starts.len() == ss.len());
    }
    let mut r: Vec<Phrase> = Vec::new();
    let mut k: usize = 0;
    assert(phrase_views(r@) =~= whole.take(0));
    while k < starts.len()
        invariant
            k <= starts.len(),
            all == seqs::views(words@),
            starts.len() == ss.len(),
            starts@.map_values(|x: usize| x as int) == ss,
            ss == starts_below(all, all.len() as int, max_chars as nat, lim),
            whole == word_phrases(all, max_chars as nat, lim),
            forall|j: int| 0 <= j < ss.len() ==> 0 <= #[trigger] ss[j] < all.len(),
            forall|j: int| 0 < j < ss.len() ==> ss[j - 1] < #[trigger] ss[j],
            phrase_views(r@) == whole.take(k as int),
        decreases starts.len() - k,
    {
        assert(ss[k as int] == starts@[k as int] as int);
        let to: usize = if k + 1 < starts.len() {
            assert(ss[k + 1] == starts@[k + 1] as int);
            starts[k + 1]
        } else {
            words.len()
        };
        let p: Phrase = make_phrase(&words, starts[k], to);
        assert(whole[k as int] == (p.0@, p.1, p.2));
        push_phrase(&mut r, p);
        assert(phrase_views(r@) =~= whole.take(k as int + 1));
        k = k + 1;
    }
    assert(whole.take(k as int) =~= whole);
    r
}

/// Cuts a transcript into phrases by its words, for reading: text, start and
/// end of each. The length of a phrase is kept from 8 to 200 bytes.
pub fn transcript_phrases(doc: &TranscriptDoc, max_chars: usize) -> (r: Vec<Phrase>)
    ensures
        phrase_views(r@) == phrases_of(
            doc@,
            if max_chars < 8 {
                8
            } else if max_chars > 200 {
                200
            } else {
                max_chars as nat
            },
            None,
        ),
{
    let n: usize = if max_chars < 8 {
        8
    } else if max_chars > 200 {
        200
    } else {
        max_chars
    };
    caption_phrases(doc, n, None)
}

/// Cuts a transcript into captions. A new one starts where the line is full,
/// after a pause, or where it would stay too long; with a limit of words a line
/// is full when it has that many.
pub fn caption_phrases_pub(doc: &TranscriptDoc, max_chars: usize, max_words: Option<u32>) -> (r: Vec<
    Phrase,
>)
    ensures
        phrase_views(r@) == phrases_of(doc@, max_chars as nat, max_words),
{
    caption_phrases(doc, max_chars, max_words)
}

/// Cuts a transcript into captions, as the export and the preview do.
pub fn caption_phrases_for_test(doc: &TranscriptDoc, max_chars: usize, max_words: Option<u32>) -> (r: Vec<
    Phrase,
>)
    ensures
        phrase_views(r@) == phrases_of(doc@, max_chars as nat, max_words),
{
    caption_phrases(doc, max_chars, max_words)
}

/// How many characters fit into a caption line: from 12 to 64, and none where
/// the size is no number.
pub open spec fn line_chars(out_w: u32, px: Real) -> nat {
    let x = Real::of(out_w as int).times(Real { bits: WIDTH_BITS }).over(
        px.times(Real { bits: CHAR_WIDTH_BITS }),
    );
    let n = x.to_nearest_int();
    if x.is_nan() {
        0
    } else if n < 12 {
        12
    } else if n > 64 {
        64
    } else {
        n as nat
    }
}

/// How many characters fit into a caption line of a frame width and a size.
pub fn caption_max_chars(out_w: u32, px: Real) -> (n: usize)
    ensures
        n == line_chars(out_w, px),
{
    let x: Real = Real::from_int(out_w as i64).mul(Real { bits: WIDTH_BITS }).div(
        px.mul(Real { bits: CHAR_WIDTH_BITS }),
    );
    let n: i64 = x.round_to_int();
    if x.not_a_number() {
        0
    } else if n < 12 {
        12
    } else if n > 64 {
        64
    } else {
        n as usize
    }
}

// ---- lines that fit ----

/// A whole number as a real one.
pub open spec fn count_real(n: nat) -> Real {
    Real::of(time::held(n as int) as int)
}

/// A count as a number.
pub fn real_count(n: usize) -> (x: Real)
    ensures
        x == count_real(n as nat),
{
    Real::from_int(time::hold(n as i128))
}

/// The width of a word in pixels: measured, or guessed where the font cannot be
/// read.
pub open spec fn word_px(f: FontsV, path: Option<Seq<char>>, word: Seq<char>, px: Real) -> Real {
    match path {
        Some(p) => match fonts::text_width(f, p, word, px) {
            Some(w) => w,
            None => px.times(Real { bits: fonts::HALF_BITS }).times(count_real(word.len())),
        },
        None => px.times(Real { bits: CHAR_WIDTH_BITS }).times(count_real(word.len())),
    }
}

/// Measures a word; without a font its width is guessed from its length.
pub fn word_width(fonts: &Fonts, path: &Option<String>, word: &str, px: Real) -> (r: Real)
    ensures
        r == word_px(fonts@, model::opt_text(*path), word@, px),
{
    let v: Vec<char> = chars_of(word);
    let n: Real = real_count(v.len());
    match path {
        Some(p) => match measure_text_px(fonts, p.as_str(), word, px) {
            Some(w) => w,
            None => px.mul(Real { bits: fonts::HALF_BITS }).mul(n),
        },
        None => px.mul(Real { bits: CHAR_WIDTH_BITS }).mul(n),
    }
}

/// Lines that are full, the line that is not, and its width.
pub type Wrap = (Seq<Seq<Seq<char>>>, Seq<Seq<char>>, Real);

/// The state after one more word.
pub open spec fn wrap_step(
    w: Wrap,
    f: FontsV,
    path: Option<Seq<char>>,
    word: Seq<char>,
    px: Real,
    max_w: Real,
) -> Wrap {
    let own = word_px(f, path, word, px);
    let more = if w.1.len() == 0 {
        own
    } else {
        word_px(f, path, " "@, px).plus(own)
    };
    if w.1.len() > 0 && max_w.less(w.2.plus(more)) {
        (w.0.push(w.1), seq![word], own)
    } else {
        (w.0, w.1.push(word), w.2.plus(more))
    }
}

/// The state after words.
pub open spec fn wrap_state(
    f: FontsV,
    path: Option<Seq<char>>,
    words: Seq<Seq<char>>,
    px: Real,
    max_w: Real,
) -> Wrap
    decreases words.len(),
{
    if words.len() == 0 {
        (Seq::<Seq<Seq<char>>>::empty(), Seq::<Seq<char>>::empty(), Real::of(0))
    } else {
        wrap_step(
            wrap_state(f, path, words.drop_last(), px, max_w),
            f,
            path,
            words.last(),
            px,
            max_w,
        )
    }
}

/// Words in lines that fit a width.
pub open spec fn wrapped(
    f: FontsV,
    path: Option<Seq<char>>,
    words: Seq<Seq<char>>,
    px: Real,
    max_w: Real,
) -> Seq<Seq<Seq<char>>> {
    let w = wrap_state(f, path, words, px, max_w);
    if w.1.len() > 0 {
        w.0.push(w.1)
    } else {
        w.0
    }
}

/// Lists of texts.
pub open spec fn lines_view(v: Seq<Vec<String>>) -> Seq<Seq<Seq<char>>> {
    v.map_values(|l: Vec<String>| text::texts(l@))
}

fn push_line(v: &mut Vec<Vec<String>>, l: Vec<String>)
    ensures
        lines_view(final(v)@) == lines_view(old(v)@).push(text::texts(l@)),
{
    v.push(l);
    assert(lines_view(v@) =~= lines_view(old(v)@).push(text::texts(l@)));
}

/// The words of lines one after the other.
pub open spec fn unwrapped(lines: Seq<Seq<Seq<char>>>) -> Seq<Seq<char>>
    decreases lines.len(),
{
    if lines.len() == 0 {
        Seq::<Seq<char>>::empty()
    } else {
        unwrapped(lines.drop_last()) + lines.last()
    }
}

/// Wrapping keeps all words in their order, and no line is empty.
#[verifier::spinoff_prover]
#[verifier::rlimit(40)]
pub proof fn law_wrap_keeps_words(
    f: FontsV,
    path: Option<Seq<char>>,
    words: Seq<Seq<char>>,
    px: Real,
    max_w: Real,
)
    ensures
        unwrapped(wrapped(f, path, words, px, max_w)) == words,
        forall|i: int|
            0 <= i < wrapped(f, path, words, px, max_w).len() ==> (#[trigger] wrapped(
                f,
                path,
                words,
                px,
                max_w,
            )[i]).len() > 0,
        unwrapped(wrap_state(f, path, words, px, max_w).0) + wrap_state(f, path, words, px, max_w).1
            == words,
    decreases words.len(),
{
    let w = wrap_state(f, path, words, px, max_w);
    if words.len() > 0 {
        let less = words.drop_last();
        law_wrap_keeps_words(f, path, less, px, max_w);
        let before = wrap_state(f, path, less, px, max_w);
        assert(words =~= less.push(words.last()));
        if before.1.len() > 0 {
            assert(wrapped(f, path, less, px, max_w).drop_last() =~= before.0);
        }
        assert forall|i: int| 0 <= i < before.0.len() implies (#[trigger] before.0[i]).len() > 0 by {
            assert(wrapped(f, path, less, px, max_w)[i] == before.0[i]);
        }
        assert(before.0.push(before.1).drop_last() =~= before.0);
        assert(unwrapped(w.0) + w.1 =~= words);
    } else {
        assert(unwrapped(w.0) + w.1 =~= words);
    }
    assert(w.0.push(w.1).drop_last() =~= w.0);
    assert(w.1.len() == 0 ==> unwrapped(w.0) + w.1 =~= unwrapped(w.0));
}

/// Lays words out in lines that fit a width. A word that is too wide has a line
/// of its own; none is broken.
pub fn wrap_words(fonts: &Fonts, path: &Option<String>, words: &Vec<String>, px: Real, max_w: Real) -> (r:
    Vec<Vec<String>>)
    ensures
        lines_view(r@) == wrapped(
            fonts@,
            model::opt_text(*path),
            text::texts(words@),
            px,
            max_w,
        ),
{
    let ghost all = text::texts(words@);
    let ghost pv = model::opt_text(*path);
    let gap: Real = word_width(fonts, path, " ", px);
    let mut lines: Vec<Vec<String>> = Vec::new();
    let mut line: Vec<String> = Vec::new();
    let mut width: Real = Real::from_int(0);
    let mut i: usize = 0;
    proof {
        assert(all.take(0) =~= Seq::<Seq<char>>::empty());
        assert(lines_view(lines@) =~= Seq::<Seq<Seq<char>>>::empty());
        assert(text::texts(line@) =~= Seq::<Seq<char>>::empty());
    }
    while i < words.len()
        invariant
            i <= words.len(),
            all == text::texts(words@),
            pv == model::opt_text(*path),
            gap == word_px(fonts@, pv, " "@, px),
            wrap_state(fonts@, pv, all.take(i as int), px, max_w) == (
                lines_view(lines@),
                text::texts(line@),
                width,
            ),
        decreases words.len() - i,
    {
        proof {
            assert(all.take(i as int + 1).drop_last() =~= all.take(i as int));
            assert(all.take(i as int + 1).last() == words@[i as int]@);
            assert(text::texts(line@).len() == line.len());
        }
        let own: Real = word_width(fonts, path, words[i].as_str(), px);
        let more: Real = if line.len() == 0 {
            own
        } else {
            gap.add(own)
        };
        let word: String = words[i].clone();
        if line.len() > 0 && max_w.lt(width.add(more)) {
            let ghost full = text::texts(line@);
            push_line(&mut lines, line);
            line = Vec::new();
            push_text(&mut line, word);
            assert(text::texts(line@) =~= seq![words@[i as int]@]);
            width = own;
        } else {
            push_text(&mut line, word);
            width = width.add(more);
        }
        i = i + 1;
    }
    assert(all.take(i as int) =~= all);
    assert(text::texts(line@).len() == line.len());
    if line.len() > 0 {
        push_line(&mut lines, line);
    }
    lines
}

/// A text in lines that fit a width.
pub open spec fn wrapped_text(f: FontsV, path: Option<Seq<char>>, s: Seq<char>, px: Real, max_w: Real) -> Seq<
    Seq<char>,
> {
    wrapped(f, path, text::words_of(s), px, max_w).map_values(
        |l: Seq<Seq<char>>| text::joined(l, " "@),
    )
}

/// Lays a text out in lines that fit a width.
pub fn wrap_text(fonts: &Fonts, path: &Option<String>, s: &str, px: Real, max_w: Real) -> (r: Vec<String>)
    ensures
        text::texts(r@) == wrapped_text(fonts@, model::opt_text(*path), s@, px, max_w),
{
    let words: Vec<String> = split_words(s);
    let lines: Vec<Vec<String>> = wrap_words(fonts, path, &words, px, max_w);
    let ghost all = wrapped_text(fonts@, model::opt_text(*path), s@, px, max_w);
    let mut r: Vec<String> = Vec::new();
    let mut i: usize = 0;
    assert(lines_view(lines@).len() == lines.len());
    assert(text::texts(r@) =~= all.take(0));
    while i < lines.len()
        invariant
            i <= lines.len(),
            lines.len() == all.len(),
            all == wrapped_text(fonts@, model::opt_text(*path), s@, px, max_w),
            lines_view(lines@) == wrapped(
                fonts@,
                model::opt_text(*path),
                text::words_of(s@),
                px,
                max_w,
            ),
            text::texts(r@) == all.take(i as int),
        decreases lines.len() - i,
    {
        let l: String = join(&lines[i], " ");
        assert(lines_view(lines@)[i as int] == text::texts(lines@[i as int]@));
        assert(all[i as int] == l@);
        push_text(&mut r, l);
        assert(text::texts(r@) =~= all.take(i as int + 1));
        i = i + 1;
    }
    assert(all.take(i as int) =~= all);
    r
}

// ---- drawing commands ----

/// How far a line is from the middle of its block.
pub open spec fn line_shift(i: nat, n: nat, px: Real, line_height: Real) -> Real {
    let step = px.times(line_height.larger(Real { bits: LINE_LIMIT_BITS }));
    count_real(i).minus(count_real(n).minus(Real::of(1)).over(Real::of(2))).times(step)
}

/// How far a line of a block lies from the middle of the block.
pub fn line_y_offset(i: usize, n: usize, px: Real, line_height: Real) -> (r: Real)
    ensures
        r == line_shift(i as nat, n as nat, px, line_height),
{
    let step: Real = px.mul(line_height.max(Real { bits: LINE_LIMIT_BITS }));
    real_count(i).sub(real_count(n).sub(Real::from_int(1)).div(Real::from_int(2))).mul(step)
}

/// The whole part of a number, kept in 32 bits.
pub open spec fn small(x: Real) -> nat {
    let n = x.to_whole_int();
    if n < 0 {
        0
    } else if n > u32::MAX {
        u32::MAX as nat
    } else {
        n as nat
    }
}

/// A number as a small count: what is out of range is brought into it.
pub fn to_small(x: Real) -> (n: u32)
    ensures
        n == small(x),
{
    let n: i64 = x.to_int();
    if n < 0 {
        0
    } else if n > u32::MAX as i64 {
        u32::MAX
    } else {
        n as u32
    }
}

/// A text as drawtext takes it.
pub open spec fn escaped(s: Seq<char>) -> Seq<char> {
    text::replaced(
        text::replaced(
            text::replaced(text::replaced(s, "\\"@, "\\\\\\\\"@), "'"@, "’"@),
            ":"@,
            "\\:"@,
        ),
        "%"@,
        "\\%"@,
    )
}

fn escape_drawtext(s: &str) -> (r: String)
    ensures
        r@ == escaped(s@),
{
    proof {
        reveal_strlit("\\");
        reveal_strlit("'");
        reveal_strlit(":");
        reveal_strlit("%");
    }
    let a: String = replace_all(s, "\\", "\\\\\\\\");
    let b: String = replace_all(a.as_str(), "'", "’");
    let c: String = replace_all(b.as_str(), ":", "\\:");
    replace_all(c.as_str(), "%", "\\%")
}

/// The font of a style as drawtext takes it.
pub open spec fn font_part(f: FontsV, style: TextStyle, fallback: Seq<char>) -> Seq<char> {
    match fonts::font_of(f, style.font@) {
        Some(x) => "fontfile="@ + x,
        None => fallback,
    }
}

/// Names the font of a style for drawtext.
pub fn font_part_for(fonts: &Fonts, style: &TextStyle, fallback: &str) -> (r: String)
    ensures
        r@ == font_part(fonts@, *style, fallback@),
{
    match resolve_font_family(fonts, style.font.as_str()) {
        Some(x) => {
            let mut r: String = copy_text("fontfile=");
            r.append(x.as_str());
            r
        },
        None => copy_text(fallback),
    }
}

/// Where a text stands across the frame.
pub open spec fn x_expr(style: TextStyle, scale: Real) -> Seq<char> {
    let off = style.x_offset.times(scale).to_nearest_int() as i64;
    let margin = Real::of(48).times(scale).to_nearest_int() as i64;
    match style.align {
        TextAlign::Left => text::int_text(time::later(margin, off) as int),
        TextAlign::Center => "(w-text_w)/2+"@ + text::int_text(off as int),
        TextAlign::Right => "w-text_w-"@ + text::int_text(time::sooner(margin, off) as int),
    }
}

fn x_expr_for(style: &TextStyle, scale: Real) -> (r: String)
    ensures
        r@ == x_expr(*style, scale),
{
    let off: i64 = style.x_offset.mul(scale).round_to_int();
    let margin: i64 = Real::from_int(48).mul(scale).round_to_int();
    match style.align {
        TextAlign::Left => int_to_text(plus(margin, off)),
        TextAlign::Center => {
            let mut r: String = copy_text("(w-text_w)/2+");
            let d1: String = int_to_text(off);
            r.append(d1.as_str());
            r
        },
        TextAlign::Right => {
            let mut r: String = copy_text("w-text_w-");
            let d2: String = int_to_text(minus(margin, off));
            r.append(d2.as_str());
            r
        },
    }
}

/// From when to when a command draws; nothing for always.
pub open spec fn enable_text(window: Option<(TimeUs, TimeUs)>) -> Seq<char> {
    match window {
        Some(w) => ":enable='between(t,"@ + render::secs_text(w.0) + ","@ + render::secs_text(w.1) + ")'"@,
        None => ""@,
    }
}

fn enable_clause(window: Option<(TimeUs, TimeUs)>) -> (r: String)
    ensures
        r@ == enable_text(window),
{
    match window {
        Some(w) => {
            let mut r: String = copy_text(":enable='between(t,");
            let d1: String = secs(w.0);
            r.append(d1.as_str());
            r.append(",");
            let d2: String = secs(w.1);
            r.append(d2.as_str());
            r.append(")'");
            r
        },
        None => copy_text(""),
    }
}

/// The size of a text in whole pixels.
pub open spec fn size_px(size: Real, scale: Real) -> Real {
    size.times(scale).rounded().larger(Real::of(8))
}

/// The width of the border of a text.
pub open spec fn border(scale: Real) -> nat {
    small(Real::of(2).times(scale).rounded().larger(Real::of(1)))
}

/// A command that draws a text at a place.
#[verifier::opaque]
pub open spec fn draw_text(
    font: Seq<char>,
    content: Seq<char>,
    size: nat,
    color: Seq<char>,
    x: Seq<char>,
    y: TimeUs,
    scale: Real,
    enable: Option<(TimeUs, TimeUs)>,
) -> Seq<char> {
    "drawtext="@ + font + ":text='"@ + escaped(content) + "':fontsize="@ + text::digits(size) + ":fontcolor="@ + color + ":borderw="@ + text::digits(border(scale)) + ":bordercolor=black@0.6:x="@ + x + ":y=(h-text_h)/2+"@ + text::int_text(y as int) + enable_text(enable)
}

/// Writes one line of text at a place, shown during a time.
pub fn drawtext_at(
    font: &str,
    content: &str,
    size: u32,
    color: &str,
    x: &str,
    y: i64,
    scale: Real,
    enable: Option<(TimeUs, TimeUs)>,
) -> (r: String)
    ensures
        r@ == draw_text(font@, content@, size as nat, color@, x@, y, scale, enable),
{
    reveal(draw_text);
    let safe: String = escape_drawtext(content);
    let edge: u32 = to_small(Real::from_int(2).mul(scale).round().max(Real::from_int(1)));
    let when: String = enable_clause(enable);
    let mut r: String = copy_text("drawtext=");
    r.append(font);
    r.append(":text='");
    r.append(safe.as_str());
    r.append("':fontsize=");
    let d1: String = nat_to_text((size) as u128);
    r.append(d1.as_str());
    r.append(":fontcolor=");
    r.append(color);
    r.append(":borderw=");
    let d2: String = nat_to_text((edge) as u128);
    r.append(d2.as_str());
    r.append(":bordercolor=black@0.6:x=");
    r.append(x);
    r.append(":y=(h-text_h)/2+");
    let d3: String = int_to_text(y);
    r.append(d3.as_str());
    r.append(when.as_str());
    r
}

/// The vertical place of a line.
#[verifier::opaque]
pub open spec fn line_place(y_off: Real, scale: Real, i: nat, n: nat, px: Real, line_height: Real) -> i64 {
    time::later(
        y_off.times(scale).to_nearest_int() as i64,
        line_shift(i, n, px, line_height).to_nearest_int() as i64,
    )
}

/// Finds the vertical place of a line.
pub fn place_line(y_off: Real, scale: Real, i: usize, n: usize, px: Real, line_height: Real) -> (y: i64)
    ensures
        y == line_place(y_off, scale, i as nat, n as nat, px, line_height),
{
    reveal(line_place);
    plus(y_off.mul(scale).round_to_int(), line_y_offset(i, n, px, line_height).round_to_int())
}

/// The commands that draw a text, one for each of its lines.
pub open spec fn draw_lines(
    f: FontsV,
    fallback: Seq<char>,
    content: Seq<char>,
    style: TextStyle,
    size: Real,
    scale: Real,
    enable: Option<(TimeUs, TimeUs)>,
    out_w: u32,
) -> Seq<Seq<char>> {
    let px = size_px(size, scale);
    let font = font_part(f, style, fallback);
    let max_w = Real::of(out_w as int).times(Real { bits: WIDTH_BITS });
    let lines = wrapped_text(f, text::without_prefix(font, "fontfile="@), content, px, max_w);
    Seq::new(
        lines.len(),
        |i: int|
            draw_text(
                font,
                lines[i],
                small(px),
                "0x"@ + text::cut_head(style.color@, '#'),
                x_expr(style, scale),
                line_place(style.y_offset, scale, i as nat, lines.len(), px, style.line_height),
                scale,
                enable,
            ),
    )
}

/// Writes one line of text in its style.
pub fn drawtext_for(
    fonts: &Fonts,
    fallback: &str,
    content: &str,
    style: &TextStyle,
    size: Real,
    scale: Real,
    enable: Option<(TimeUs, TimeUs)>,
    out_w: u32,
) -> (r: Vec<String>)
    ensures
        text::texts(r@) == draw_lines(
            fonts@,
            fallback@,
            content@,
            *style,
            size,
            scale,
            enable,
            out_w,
        ),
{
    let px: Real = size.mul(scale).round().max(Real::from_int(8));
    let font: String = font_part_for(fonts, style, fallback);
    let path: Option<String> = strip_start(font.as_str(), "fontfile=");
    let max_w: Real = Real::from_int(out_w as i64).mul(Real { bits: WIDTH_BITS });
    let lines: Vec<String> = wrap_text(fonts, &path, content, px, max_w);
    let bare: String = trim_head(style.color.as_str(), '#');
    let mut color: String = copy_text("0x");
    color.append(bare.as_str());
    let x: String = x_expr_for(style, scale);
    let ghost all = draw_lines(
        fonts@,
        fallback@,
        content@,
        *style,
        size,
        scale,
        enable,
        out_w,
    );
    let ghost ll = text::texts(lines@);
    assert(ll.len() == lines.len());
    let mut r: Vec<String> = Vec::new();
    let mut i: usize = 0;
    assert(text::texts(r@) =~= all.take(0));
    while i < lines.len()
        invariant
            i <= lines.len(),
            ll == text::texts(lines@),
            all.len() == lines.len(),
            ll == wrapped_text(fonts@, text::without_prefix(font@, "fontfile="@), content@, px, max_w),
            px == size_px(size, scale),
            font@ == font_part(fonts@, *style, fallback@),
            max_w == Real::of(out_w as int).times(Real { bits: WIDTH_BITS }),
            color@ == "0x"@ + text::cut_head(style.color@, '#'),
            x@ == x_expr(*style, scale),
            all == draw_lines(
                fonts@,
                fallback@,
                content@,
                *style,
                size,
                scale,
                enable,
                out_w,
            ),
            text::texts(r@) == all.take(i as int),
        decreases lines.len() - i,
    {
        assert(ll[i as int] == lines@[i as int]@);
        let y: i64 = place_line(style.y_offset, scale, i, lines.len(), px, style.line_height);
        let s: String = drawtext_at(
            font.as_str(),
            lines[i].as_str(),
            to_small(px),
            color.as_str(),
            x.as_str(),
            y,
            scale,
            enable,
        );
        assert(all[i as int] == s@);
        push_text(&mut r, s);
        assert(text::texts(r@) =~= all.take(i as int + 1));
        i = i + 1;
    }
    assert(all.take(i as int) =~= all);
    r
}

} // verus!
