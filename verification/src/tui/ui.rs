//! Fitting text into a number of terminal columns.
//!
//! Widths are counted in character cells as `unicode-width` reports them, so
//! wide characters take two columns and control characters none.

use vstd::prelude::*;

use crate::text::{
    chars_of, concat, space_string, spaces, str_width, string_from, text_columns, views, whitespace,
    is_whitespace,
};

verus! {

/// `text` followed by enough spaces to fill `width` columns.
pub open spec fn padded(text: Seq<char>, width: int) -> Seq<char> {
    if width > text_columns(text) {
        text + spaces((width - text_columns(text)) as nat)
    } else {
        text
    }
}

/// Pad `text` with spaces so a highlighted row fills its width.
pub fn pad(text: &str, width: usize) -> (r: String)
    ensures
        r@ == padded(text@, width as int),
{
    let used = str_width(text);
    let fill = if width > used { width - used } else { 0 };
    let gap = space_string(fill);
    let r = concat(text, gap.as_str());
    assert(fill == 0 ==> gap@ =~= Seq::<char>::empty());
    assert(fill == 0 ==> r@ =~= text@);
    r
}

/// The end of `text` before position `k` that fits in `width` columns once
/// `used` are taken, kept whole characters at a time.
pub open spec fn tail_fit(text: Seq<char>, k: int, width: int, used: int) -> Seq<char>
    decreases k,
{
    if 0 < k <= text.len() && used + text_columns(seq![text[k - 1]]) <= width {
        tail_fit(text, k - 1, width, used + text_columns(seq![text[k - 1]])).push(text[k - 1])
    } else {
        seq![]
    }
}

/// `text` trimmed to `width` columns, keeping the end, which is the filename,
/// behind a leading ellipsis.
pub open spec fn fitted(text: Seq<char>, width: int) -> Seq<char> {
    if text_columns(text) <= width {
        text
    } else if width <= 1 {
        Seq::new(width as nat, |i: int| '…')
    } else {
        seq!['…'] + tail_fit(text, text.len() as int, width, 1)
    }
}

/// Trim `text` to `width` columns, keeping the end, which is the filename.
pub fn fit(text: &str, width: usize) -> (r: String)
    ensures
        r@ == fitted(text@, width as int),
{
    if str_width(text) <= width {
        return text.to_owned();
    }
    if width <= 1 {
        let mut out: Vec<char> = Vec::new();
        let mut k: usize = 0;
        while k < width
            invariant
                k <= width,
                out@ == Seq::new(k as nat, |i: int| '…'),
            decreases width - k,
        {
            out.push('…');
            k += 1;
            assert(out@ =~= Seq::new(k as nat, |i: int| '…'));
        }
        return string_from(out.as_slice());
    }
    let characters = chars_of(text);
    let mut start: usize = characters.len();
    let mut used: usize = 1;
    while start > 0
        invariant
            start <= characters@.len(),
            characters@ == text@,
            1 <= used <= width,
            tail_fit(text@, text@.len() as int, width as int, 1) == tail_fit(text@, start as int, width as int, used as int) + text@.subrange(start as int, text@.len() as int),
        ensures
            tail_fit(text@, start as int, width as int, used as int) =~= Seq::<char>::empty(),
        decreases start,
    {
        let one = string_from(&[characters[start - 1]]);
        assert(one@ =~= seq![text@[start - 1]]);
        let cw = str_width(one.as_str());
        if cw > width - used {
            break;
        }
        let ghost before = tail_fit(text@, start as int, width as int, used as int);
        used = used + cw;
        start -= 1;
        assert(text@.subrange(start as int, text@.len() as int) =~= seq![text@[start as int]] + text@.subrange(start + 1, text@.len() as int));
        assert(before == tail_fit(text@, start as int, width as int, used as int).push(text@[start as int]));
    }
    let tail = crate::paths::slice_string(&characters, start, characters.len());
    let r = concat("…", tail.as_str());
    proof {
        reveal_strlit("…");
        assert(tail@ =~= text@.subrange(start as int, text@.len() as int));
    }
    r
}

/// The finished words and the word in progress, after reading `s` left to
/// right: words are the maximal runs of characters that are not white space.
pub open spec fn word_state(s: Seq<char>) -> (Seq<Seq<char>>, Seq<char>)
    decreases s.len(),
{
    if s.len() == 0 {
        (seq![], seq![])
    } else {
        let (done, current) = word_state(s.drop_last());
        let c = s.last();
        if !whitespace(c) {
            (done, current.push(c))
        } else if current.len() > 0 {
            (done.push(current), seq![])
        } else {
            (done, seq![])
        }
    }
}

/// The words of `s`, as `str::split_whitespace` gives them.
pub open spec fn words(s: Seq<char>) -> Seq<Seq<char>> {
    let (done, current) = word_state(s);
    if current.len() > 0 {
        done.push(current)
    } else {
        done
    }
}

/// The finished lines and the line in progress after laying out `ws` greedily
/// in `width` columns: a word joins the line, after a space, while it fits.
pub open spec fn line_state(ws: Seq<Seq<char>>, width: int) -> (Seq<Seq<char>>, Seq<char>)
    decreases ws.len(),
{
    if ws.len() == 0 {
        (seq![], seq![])
    } else {
        let (lines, current) = line_state(ws.drop_last(), width);
        let word = ws.last();
        if current.len() == 0 {
            (lines, word)
        } else if text_columns(current) + 1 + text_columns(word) <= width {
            (lines, current + seq![' '] + word)
        } else {
            (lines.push(current), word)
        }
    }
}

/// `text` broken into lines on word boundaries, at most `width` columns wide
/// less two for the margin, and never narrower than eight.
pub open spec fn wrapped(text: Seq<char>, width: int) -> Seq<Seq<char>> {
    let room = if width - 2 > 8 { width - 2 } else { 8 };
    let (lines, current) = line_state(words(text), room);
    if current.len() > 0 {
        lines.push(current)
    } else {
        lines
    }
}

fn split_words(text: &str) -> (r: Vec<String>)
    ensures
        views(r@) == words(text@),
        forall|k: int| 0 <= k < r@.len() ==> (#[trigger] r@[k])@.len() > 0,
{
    let characters = chars_of(text);
    let mut done: Vec<String> = Vec::new();
    let mut current: Vec<char> = Vec::new();
    let mut index: usize = 0;
    while index < characters.len()
        invariant
            index <= characters.len(),
            characters@ == text@,
            word_state(characters@.take(index as int)) == (views(done@), current@),
            forall|k: int| 0 <= k < done@.len() ==> (#[trigger] done@[k])@.len() > 0,
        decreases characters.len() - index,
    {
        let character = characters[index];
        proof {
            assert(characters@.take(index + 1).drop_last() =~= characters@.take(index as int));
        }
        if !is_whitespace(character) {
            current.push(character);
        } else if current.len() > 0 {
            let word = string_from(current.as_slice());
            done.push(word);
            current = Vec::new();
            assert(views(done@) =~= word_state(characters@.take(index as int)).0.push(
                word_state(characters@.take(index as int)).1,
            ));
        }
        index += 1;
    }
    assert(characters@.take(index as int) =~= characters@);
    if current.len() > 0 {
        let word = string_from(current.as_slice());
        done.push(word);
        assert(views(done@) =~= words(text@));
    }
    done
}

/// Break `text` into lines of at most `width` columns, on word boundaries.
pub fn wrap(text: &str, width: usize) -> (r: Vec<String>)
    ensures
        views(r@) == wrapped(text@, width as int),
{
    let room: usize = if width > 10 { width - 2 } else { 8 };
    let ws = split_words(text);
    let mut lines: Vec<String> = Vec::new();
    let mut current = string_from(&[]);
    assert(current@ =~= Seq::<char>::empty());
    let mut k: usize = 0;
    while k < ws.len()
        invariant
            k <= ws@.len(),
            room as int == (if width - 2 > 8 { width - 2 } else { 8 }),
            line_state(views(ws@).take(k as int), room as int) == (views(lines@), current@),
            forall|m: int| 0 <= m < ws@.len() ==> (#[trigger] ws@[m])@.len() > 0,
            k > 0 ==> current@.len() > 0,
        decreases ws.len() - k,
    {
        let word = &ws[k];
        proof {
            assert(views(ws@).take(k + 1).drop_last() =~= views(ws@).take(k as int));
        }
        if current.as_str().is_empty() {
            current = word.clone();
        } else {
            let current_width = str_width(current.as_str());
            let word_width = str_width(word.as_str());
            if current_width < room && word_width <= room - current_width - 1 {
                let spaced = concat(current.as_str(), " ");
                proof {
                    reveal_strlit(" ");
                }
                current = concat(spaced.as_str(), word.as_str());
            } else {
                let finished = current;
                lines.push(finished);
                current = word.clone();
            }
        }
        k += 1;
    }
    assert(views(ws@).take(k as int) =~= views(ws@));
    if !current.as_str().is_empty() {
        lines.push(current);
    }
    lines
}

// ------------------------------------------------------------------ step bar

/// `x - y`, or zero when `y` is larger.
pub open spec fn less_or_zero(x: int, y: int) -> int {
    if x > y { x - y } else { 0 }
}

/// How far in the row of dots starts, so the first label, centred on its dot,
/// does not run off the left edge.
pub open spec fn bar_lead(widths: Seq<usize>) -> int {
    if widths.len() == 0 { 0 } else { less_or_zero(widths[0] as int, 1) / 2 }
}

/// The column of the dot of step `index`.
pub open spec fn dot_column(widths: Seq<usize>, stride: int, index: int) -> int {
    index * stride + bar_lead(widths)
}

/// Where the labels of the first `n` steps begin and end: each centred on its
/// dot, but never starting before the previous label ends.
pub open spec fn label_spans(widths: Seq<usize>, stride: int, n: int) -> Seq<(int, int)>
    decreases n,
{
    if n <= 0 {
        seq![]
    } else {
        let before = label_spans(widths, stride, n - 1);
        let used = if n == 1 { 0 } else { before.last().1 };
        let w = widths[n - 1] as int;
        let centred = less_or_zero(dot_column(widths, stride, n - 1), less_or_zero(w, 1) / 2);
        let begin = if centred > used { centred } else { used };
        before.push((begin, begin + w))
    }
}

/// The columns the whole bar takes: the row of dots or the row of labels,
/// whichever is wider.
pub open spec fn bar_width(widths: Seq<usize>, stride: int) -> int {
    let dots = bar_lead(widths) + (widths.len() - 1) * stride + 1;
    let spans = label_spans(widths, stride, widths.len() as int);
    let used = if spans.len() == 0 { 0 } else { spans.last().1 };
    if dots > used { dots } else { used }
}

/// The sum of `widths`.
pub open spec fn width_sum(widths: Seq<usize>) -> int
    decreases widths.len(),
{
    if widths.len() == 0 { 0 } else { width_sum(widths.drop_last()) + widths.last() }
}

proof fn lemma_label_spans(widths: Seq<usize>, stride: int, n: int)
    requires
        0 <= n <= widths.len(),
        0 <= stride,
    ensures
        label_spans(widths, stride, n).len() == n,
        n > 0 ==> label_spans(widths, stride, n).last().1 <= n * stride + bar_lead(widths) + width_sum(widths.take(n)),
        forall|k: int| 0 <= k < n ==> 0 <= #[trigger] label_spans(widths, stride, n)[k].0
            && label_spans(widths, stride, n)[k].0 + widths[k] == label_spans(widths, stride, n)[k].1,
    decreases n,
{
    if n > 0 {
        lemma_label_spans(widths, stride, n - 1);
        assert(widths.take(n).drop_last() =~= widths.take(n - 1));
        let before = label_spans(widths, stride, n - 1);
        assert forall|k: int| 0 <= k < n - 1 implies label_spans(widths, stride, n)[k] == before[k] by {}
        assert((n - 1) * stride <= n * stride) by (nonlinear_arith)
            requires
                n >= 1,
                stride >= 0,
        ;
        assert((n - 1) * stride >= 0) by (nonlinear_arith)
            requires
                n >= 1,
                stride >= 0,
        ;
        assert(width_sum(widths.take(n)) == width_sum(widths.take(n - 1)) + widths[n - 1]);
        lemma_width_sum_nonneg(widths.take(n - 1));
        let w = widths[n - 1] as int;
        let dot = dot_column(widths, stride, n - 1);
        let centred = less_or_zero(dot, less_or_zero(w, 1) / 2);
        assert(0 <= centred <= dot);
        let used = if n == 1 { 0 } else { before.last().1 };
        assert(used <= (n - 1) * stride + bar_lead(widths) + width_sum(widths.take(n - 1)));
    }
}

/// Lay out the step bar: how far in its dots start, where each step's label
/// begins and ends, and how wide the whole bar is, for labels `widths`
/// columns wide and dots `stride` columns apart.
pub fn step_bar(widths: &Vec<usize>, stride: usize) -> (r: (usize, Vec<(usize, usize)>, usize))
    requires
        widths@.len() > 0,
        widths@.len() * stride + bar_lead(widths@) + width_sum(widths@) + 1 <= usize::MAX,
    ensures
        r.0 == bar_lead(widths@),
        r.1@.len() == widths@.len(),
        forall|k: int| 0 <= k < widths@.len() ==> (#[trigger] r.1@[k]).0 == label_spans(widths@, stride as int, widths@.len() as int)[k].0
            && r.1@[k].1 == label_spans(widths@, stride as int, widths@.len() as int)[k].1,
        r.2 == bar_width(widths@, stride as int),
{
    let n = widths.len();
    let ghost s = stride as int;
    let lead: usize = if widths[0] > 1 { (widths[0] - 1) / 2 } else { 0 };
    proof {
        lemma_label_spans(widths@, s, n as int);
        assert(widths@.take(n as int) =~= widths@);
    }
    let mut spans: Vec<(usize, usize)> = Vec::new();
    let mut used: usize = 0;
    let mut index: usize = 0;
    while index < n
        invariant
            n == widths@.len(),
            n > 0,
            index <= n,
            lead == bar_lead(widths@),
            n * stride + bar_lead(widths@) + width_sum(widths@) + 1 <= usize::MAX,
            label_spans(widths@, s, n as int).len() == n,
            label_spans(widths@, s, n as int).last().1 <= n * s + bar_lead(widths@) + width_sum(widths@),
            spans@.len() == index,
            forall|k: int| 0 <= k < index ==> (#[trigger] spans@[k]).0 == label_spans(widths@, s, n as int)[k].0
                && spans@[k].1 == label_spans(widths@, s, n as int)[k].1,
            used == if index == 0 { 0int } else { label_spans(widths@, s, index as int).last().1 },
            s == stride as int,
        decreases n - index,
    {
        proof {
            lemma_label_spans(widths@, s, index + 1);
            lemma_label_spans(widths@, s, n as int);
            lemma_spans_prefix(widths@, s, index + 1, n as int);
            lemma_width_sum_prefix(widths@, index + 1);
            assert(widths@.take(n as int) =~= widths@);
            assert((index + 1) * s <= n * s) by (nonlinear_arith)
                requires
                    index + 1 <= n,
                    s >= 0,
            ;
            assert(index * s <= n * s) by (nonlinear_arith)
                requires
                    index <= n,
                    s >= 0,
            ;
        }
        let w = widths[index];
        let dot = index * stride + lead;
        let half = if w > 1 { (w - 1) / 2 } else { 0 };
        let centred = if dot > half { dot - half } else { 0 };
        let begin = if centred > used { centred } else { used };
        let end = begin + w;
        spans.push((begin, end));
        used = end;
        index += 1;
    }
    let dots = lead + (n - 1) * stride + 1;
    let width = if dots > used { dots } else { used };
    (lead, spans, width)
}

proof fn lemma_spans_prefix(widths: Seq<usize>, stride: int, m: int, n: int)
    requires
        0 <= m <= n <= widths.len(),
    ensures
        forall|k: int| 0 <= k < m ==> #[trigger] label_spans(widths, stride, n)[k] == label_spans(widths, stride, m)[k],
    decreases n - m,
{
    if m < n {
        lemma_spans_prefix(widths, stride, m, n - 1);
        lemma_spans_len(widths, stride, n - 1);
    }
}

proof fn lemma_spans_len(widths: Seq<usize>, stride: int, n: int)
    requires
        0 <= n,
    ensures
        label_spans(widths, stride, n).len() == n,
    decreases n,
{
    if n > 0 {
        lemma_spans_len(widths, stride, n - 1);
    }
}

proof fn lemma_width_sum_nonneg(widths: Seq<usize>)
    ensures
        width_sum(widths) >= 0,
    decreases widths.len(),
{
    if widths.len() > 0 {
        lemma_width_sum_nonneg(widths.drop_last());
    }
}

proof fn lemma_width_sum_prefix(widths: Seq<usize>, m: int)
    requires
        0 <= m <= widths.len(),
    ensures
        width_sum(widths.take(m)) <= width_sum(widths),
    decreases widths.len() - m,
{
    if m < widths.len() {
        lemma_width_sum_prefix(widths, m + 1);
        assert(widths.take(m + 1).drop_last() =~= widths.take(m));
    } else {
        assert(widths.take(m) =~= widths);
    }
}

} // verus!
