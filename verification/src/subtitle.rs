//! Subtitle entries: building them from recognized words and serializing
//! them as SubRip blocks.

use vstd::prelude::*;
use vstd::string::StrSliceExecFns;
use vstd::string::StringExecFns;
use crate::time_format::dec_rep;
use crate::time_format::dec_string;
use crate::time_format::format_time;
use crate::time_format::spec_format_time;

verus! {

/// One recognized word: its text and its start and end offsets from the
/// beginning of the audio, in milliseconds.
pub struct Word {
    pub text: String,
    pub start_ms: u64,
    pub end_ms: u64,
}

/// A word's timing is well-formed when it does not end before it starts.
pub open spec fn word_wf(w: Word) -> bool {
    w.start_ms <= w.end_ms
}

/// The characters with the Unicode `White_Space` property, the ones `trim`
/// strips from either end of a string.
pub open spec fn is_space_char(c: char) -> bool {
    let u = c as u32;
    (9 <= u && u <= 13) || u == 32 || u == 0x85 || u == 0xA0 || u == 0x1680 || (0x2000 <= u
        && u <= 0x200A) || u == 0x2028 || u == 0x2029 || u == 0x202F || u == 0x205F || u == 0x3000
}

/// A text is blank when trimming would leave nothing of it: every character
/// is whitespace. The empty text is blank.
pub open spec fn spec_blank(t: Seq<char>) -> bool {
    forall|i: int| 0 <= i < t.len() ==> is_space_char(t[i])
}

fn char_is_space(c: char) -> (b: bool)
    ensures
        b == is_space_char(c),
{
    let u: u32 = c as u32;
    (9 <= u && u <= 13) || u == 32 || u == 0x85 || u == 0xA0 || u == 0x1680 || (0x2000 <= u
        && u <= 0x200A) || u == 0x2028 || u == 0x2029 || u == 0x202F || u == 0x205F || u == 0x3000
}

/// Whether `s` is empty after trimming, that is, has no non-whitespace
/// character. Words with blank text get no subtitle entry.
pub fn is_blank(s: &str) -> (b: bool)
    ensures
        b == spec_blank(s@),
{
    let len: usize = s.unicode_len();
    let mut i: usize = 0;
    while i < len
        invariant
            i <= len,
            len == s@.len(),
            forall|j: int| 0 <= j < i ==> is_space_char(s@[j]),
        decreases len - i,
    {
        let c = s.get_char(i);
        if !char_is_space(c) {
            return false;
        }
        i = i + 1;
    }
    true
}

/// One subtitle: a 1-based index, start and end times in milliseconds, and
/// the caption text.
pub struct SubtitleEntry {
    pub index: usize,
    pub start_ms: u64,
    pub end_ms: u64,
    pub text: String,
}

impl SubtitleEntry {
    /// The invariant every built entry satisfies: indices start at 1, the
    /// entry ends no earlier than it starts, and its text is not blank (so
    /// in particular not empty).
    pub open spec fn wf(self) -> bool {
        self.index >= 1 && self.start_ms <= self.end_ms && !spec_blank(self.text@)
            && self.text@.len() > 0
    }

    /// The SubRip block for one entry: index line, `start --> end` time
    /// line, text line, then a blank separator line.
    pub open spec fn spec_srt_block(self) -> Seq<char> {
        dec_rep(self.index as nat) + "\n"@ + spec_format_time(self.start_ms as nat) + " --> "@
            + spec_format_time(self.end_ms as nat) + "\n"@ + self.text@ + "\n\n"@
    }

    /// Serializes this entry as its SubRip block.
    pub fn to_srt(&self) -> (r: String)
        ensures
            r@ == self.spec_srt_block(),
    {
        let mut r = dec_string(self.index as u64);
        r.append("\n");
        let start = format_time(self.start_ms);
        r.append(start.as_str());
        r.append(" --> ");
        let end = format_time(self.end_ms);
        r.append(end.as_str());
        r.append("\n");
        r.append(self.text.as_str());
        r.append("\n\n");
        proof {
            assert(r@ =~= self.spec_srt_block());
        }
        r
    }
}

/// The words of `ws` whose text is not blank, in order.
pub open spec fn filter_nonblank(ws: Seq<Word>) -> Seq<Word>
    decreases ws.len(),
{
    if ws.len() == 0 {
        Seq::empty()
    } else {
        filter_nonblank(ws.drop_last()) + (if spec_blank(ws.last().text@) {
            Seq::empty()
        } else {
            seq![ws.last()]
        })
    }
}

/// All words that get a subtitle entry, in encounter order: alternatives in
/// order, words in order within each, blank-text words left out.
pub open spec fn qualifying_words(alts: Seq<Vec<Word>>) -> Seq<Word>
    decreases alts.len(),
{
    if alts.len() == 0 {
        Seq::empty()
    } else {
        qualifying_words(alts.drop_last()) + filter_nonblank(alts.last()@)
    }
}

/// How many words the alternatives hold in all, blank or not.
pub open spec fn total_words(alts: Seq<Vec<Word>>) -> nat
    decreases alts.len(),
{
    if alts.len() == 0 {
        0
    } else {
        total_words(alts.drop_last()) + alts.last()@.len()
    }
}

/// Entry `e` carries word `w` under index `idx`: same text, same timing.
pub open spec fn entry_matches(e: SubtitleEntry, w: Word, idx: int) -> bool {
    e.index == idx && e.start_ms == w.start_ms && e.end_ms == w.end_ms && e.text@ == w.text@
}

/// The entries carry exactly the words, pairwise in order, indexed 1 upward
/// without gaps.
pub open spec fn entries_match_words(es: Seq<SubtitleEntry>, ws: Seq<Word>) -> bool {
    es.len() == ws.len() && (forall|i: int| 0 <= i < es.len() ==> entry_matches(es[i], ws[i], i + 1))
}

proof fn lemma_filter_take_succ(ws: Seq<Word>, j: int)
    requires
        0 <= j < ws.len(),
    ensures
        filter_nonblank(ws.take(j + 1)) == filter_nonblank(ws.take(j)) + (if spec_blank(
            ws[j].text@,
        ) {
            Seq::<Word>::empty()
        } else {
            seq![ws[j]]
        }),
{
    assert(ws.take(j + 1).drop_last() =~= ws.take(j));
    assert(ws.take(j + 1).last() == ws[j]);
}

proof fn lemma_filter_len_le(ws: Seq<Word>)
    ensures
        filter_nonblank(ws).len() <= ws.len(),
    decreases ws.len(),
{
    if ws.len() > 0 {
        lemma_filter_len_le(ws.drop_last());
    }
}

proof fn lemma_qual_take_succ(alts: Seq<Vec<Word>>, a: int)
    requires
        0 <= a < alts.len(),
    ensures
        qualifying_words(alts.take(a + 1)) == qualifying_words(alts.take(a)) + filter_nonblank(
            alts[a]@,
        ),
{
    assert(alts.take(a + 1).drop_last() =~= alts.take(a));
    assert(alts.take(a + 1).last() == alts[a]);
}

proof fn lemma_qual_len_le_total(alts: Seq<Vec<Word>>)
    ensures
        qualifying_words(alts).len() <= total_words(alts),
    decreases alts.len(),
{
    if alts.len() > 0 {
        lemma_qual_len_le_total(alts.drop_last());
        lemma_filter_len_le(alts.last()@);
    }
}

proof fn lemma_total_take_succ(alts: Seq<Vec<Word>>, a: int)
    requires
        0 <= a < alts.len(),
    ensures
        total_words(alts.take(a + 1)) == total_words(alts.take(a)) + alts[a]@.len(),
{
    assert(alts.take(a + 1).drop_last() =~= alts.take(a));
    assert(alts.take(a + 1).last() == alts[a]);
}

proof fn lemma_total_take_le(alts: Seq<Vec<Word>>, k: int)
    requires
        0 <= k <= alts.len(),
    ensures
        total_words(alts.take(k)) <= total_words(alts),
    decreases alts.len(),
{
    if k == alts.len() {
        assert(alts.take(k) =~= alts);
    } else {
        assert(alts.take(k) =~= alts.drop_last().take(k));
        lemma_total_take_le(alts.drop_last(), k);
    }
}

proof fn lemma_filter_nonblank_wf(ws: Seq<Word>)
    ensures
        forall|i: int|
            0 <= i < filter_nonblank(ws).len() ==> !spec_blank(filter_nonblank(ws)[i].text@),
        (forall|k: int| 0 <= k < ws.len() ==> word_wf(ws[k])) ==> (forall|i: int|
            0 <= i < filter_nonblank(ws).len() ==> word_wf(filter_nonblank(ws)[i])),
    decreases ws.len(),
{
    if ws.len() > 0 {
        lemma_filter_nonblank_wf(ws.drop_last());
        let f = filter_nonblank(ws);
        let fd = filter_nonblank(ws.drop_last());
        assert forall|i: int| 0 <= i < f.len() implies !spec_blank(f[i].text@) by {
            if i < fd.len() {
                assert(f[i] == fd[i]);
            } else {
                assert(f[i] == ws.last());
            }
        }
        if forall|k: int| 0 <= k < ws.len() ==> word_wf(ws[k]) {
            assert forall|k: int| 0 <= k < ws.drop_last().len() implies word_wf(
                ws.drop_last()[k],
            ) by {
                assert(ws.drop_last()[k] == ws[k]);
            }
            assert forall|i: int| 0 <= i < f.len() implies word_wf(f[i]) by {
                if i < fd.len() {
                    assert(f[i] == fd[i]);
                } else {
                    assert(f[i] == ws.last());
                    assert(word_wf(ws[ws.len() - 1]));
                }
            }
        }
    }
}

/// Every qualifying word has non-blank text; and when every source word is
/// well-formed, so is every qualifying word.
proof fn lemma_qual_wf(alts: Seq<Vec<Word>>)
    ensures
        forall|i: int|
            0 <= i < qualifying_words(alts).len() ==> !spec_blank(qualifying_words(alts)[i].text@),
        (forall|j: int, k: int|
            0 <= j < alts.len() && 0 <= k < alts[j]@.len() ==> word_wf(alts[j]@[k])) ==> (forall|
            i: int,
        |
            0 <= i < qualifying_words(alts).len() ==> word_wf(qualifying_words(alts)[i])),
    decreases alts.len(),
{
    if alts.len() > 0 {
        lemma_qual_wf(alts.drop_last());
        lemma_filter_nonblank_wf(alts.last()@);
        let q = qualifying_words(alts);
        let qd = qualifying_words(alts.drop_last());
        let fl = filter_nonblank(alts.last()@);
        assert forall|i: int| 0 <= i < q.len() implies !spec_blank(q[i].text@) by {
            if i < qd.len() {
                assert(q[i] == qd[i]);
            } else {
                assert(q[i] == fl[i - qd.len()]);
            }
        }
        if forall|j: int, k: int|
            0 <= j < alts.len() && 0 <= k < alts[j]@.len() ==> word_wf(alts[j]@[k]) {
            assert forall|j: int, k: int|
                0 <= j < alts.drop_last().len() && 0 <= k < alts.drop_last()[j]@.len() implies
                word_wf(alts.drop_last()[j]@[k]) by {
                assert(alts.drop_last()[j] == alts[j]);
            }
            assert forall|k: int| 0 <= k < alts.last()@.len() implies word_wf(alts.last()@[k]) by {
                assert(alts.last() == alts[alts.len() - 1]);
            }
            assert forall|i: int| 0 <= i < q.len() implies word_wf(q[i]) by {
                if i < qd.len() {
                    assert(q[i] == qd[i]);
                } else {
                    assert(q[i] == fl[i - qd.len()]);
                }
            }
        }
    }
}

/// Builds one subtitle entry per non-blank word, walking the alternatives in
/// order and each alternative's words in order, and numbering the entries
/// 1, 2, 3, ... with no gaps: only words that get an entry advance the index.
///
/// A blank text (one that trimming would empty) gets no entry and does not
/// advance the index, so the output indices stay contiguous however many
/// words were skipped.
pub fn build_subtitles(alts: &Vec<Vec<Word>>) -> (out: Vec<SubtitleEntry>)
    requires
        total_words(alts@) <= usize::MAX,
    ensures
        entries_match_words(out@, qualifying_words(alts@)),
        forall|i: int| 0 <= i < out@.len() ==> !spec_blank(out@[i].text@),
        (forall|j: int, k: int|
            0 <= j < alts@.len() && 0 <= k < alts@[j]@.len() ==> word_wf(alts@[j]@[k])) ==> (forall|
            i: int,
        |
            0 <= i < out@.len() ==> out@[i].wf()),
{
    let mut out: Vec<SubtitleEntry> = Vec::new();
    let mut a: usize = 0;
    while a < alts.len()
        invariant
            a <= alts@.len(),
            total_words(alts@) <= usize::MAX,
            entries_match_words(out@, qualifying_words(alts@.take(a as int))),
        decreases alts@.len() - a,
    {
        let words: &Vec<Word> = &alts[a];
        let mut j: usize = 0;
        while j < words.len()
            invariant
                a < alts@.len(),
                j <= words@.len(),
                words@ == alts@[a as int]@,
                total_words(alts@) <= usize::MAX,
                entries_match_words(
                    out@,
                    qualifying_words(alts@.take(a as int)) + filter_nonblank(words@.take(j as int)),
                ),
            decreases words@.len() - j,
        {
            let w: &Word = &words[j];
            if !is_blank(w.text.as_str()) {
                proof {
                    lemma_qual_len_le_total(alts@.take(a as int));
                    lemma_filter_len_le(words@.take(j as int));
                    lemma_total_take_succ(alts@, a as int);
                    lemma_total_take_le(alts@, a as int + 1);
                }
                let idx: usize = out.len() + 1;
                out.push(
                    SubtitleEntry {
                        index: idx,
                        start_ms: w.start_ms,
                        end_ms: w.end_ms,
                        text: w.text.clone(),
                    },
                );
            }
            proof {
                lemma_filter_take_succ(words@, j as int);
                if !spec_blank(words@[j as int].text@) {
                    assert(qualifying_words(alts@.take(a as int)) + filter_nonblank(
                        words@.take(j as int + 1),
                    ) =~= (qualifying_words(alts@.take(a as int)) + filter_nonblank(
                        words@.take(j as int),
                    )).push(words@[j as int]));
                } else {
                    assert(qualifying_words(alts@.take(a as int)) + filter_nonblank(
                        words@.take(j as int + 1),
                    ) =~= qualifying_words(alts@.take(a as int)) + filter_nonblank(
                        words@.take(j as int),
                    ));
                }
            }
            j = j + 1;
        }
        proof {
            assert(words@.take(words@.len() as int) =~= words@);
            lemma_qual_take_succ(alts@, a as int);
        }
        a = a + 1;
    }
    proof {
        assert(alts@.take(alts@.len() as int) =~= alts@);
        lemma_qual_wf(alts@);
    }
    out
}

/// The whole subtitle file: every entry's block, in order, with nothing
/// between or around them. Zero entries give the empty text.
pub open spec fn spec_render(es: Seq<SubtitleEntry>) -> Seq<char>
    decreases es.len(),
{
    if es.len() == 0 {
        Seq::empty()
    } else {
        spec_render(es.drop_last()) + es.last().spec_srt_block()
    }
}

/// Concatenates every entry's SubRip block in order.
pub fn render_srt(entries: &Vec<SubtitleEntry>) -> (r: String)
    ensures
        r@ == spec_render(entries@),
{
    let mut r = String::new();
    let mut i: usize = 0;
    while i < entries.len()
        invariant
            i <= entries@.len(),
            r@ == spec_render(entries@.take(i as int)),
        decreases entries@.len() - i,
    {
        let block = entries[i].to_srt();
        r.append(block.as_str());
        proof {
            assert(entries@.take(i + 1).drop_last() =~= entries@.take(i as int));
            assert(entries@.take(i + 1).last() == entries@[i as int]);
        }
        i = i + 1;
    }
    proof {
        assert(entries@.take(entries@.len() as int) =~= entries@);
    }
    r
}

} // verus!
