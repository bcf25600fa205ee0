//! Reading the text of a video: what is read, in what order, and what is reported.

use vstd::prelude::*;

use crate::clock::{clock_says, iso_text, now_iso};
use crate::error::Error;
use crate::probe::VideoInfo;
use crate::text::{blank, decimal, is_blank_str, join, joined, number, texts};

verus! {

/// How a video is read: samples a second, and the language as a BCP 47 tag.
pub struct OcrOpts<F> {
    pub rate: F,
    pub lang: String,
}

/// A word and where it stands. `F` is the type of coordinates and times.
pub struct Word<F> {
    pub text: String,
    /// x, y, w, h in source video pixels, origin top-left.
    pub rect: [F; 4],
}

/// A line of text in one frame.
pub struct Line<F> {
    pub t: F,
    pub text: String,
    /// The recogniser gives no confidence; the field is kept so the schema does not change later.
    pub conf: F,
    pub rect: [F; 4],
    pub words: Vec<Word<F>>,
}

/// All text that was read from a video.
pub struct OcrResult<F> {
    pub video: String,
    pub video_sha256: String,
    pub width: u32,
    pub height: u32,
    pub duration: F,
    /// Sampling rate used. `video_fps` is the source's own rate: when they match, every frame
    /// was read and nothing has to be inferred between readings.
    pub rate: F,
    pub video_fps: F,
    pub engine: String,
    pub lang: String,
    pub generated: String,
    /// Below one where the frame exceeded the recogniser's largest image and had to be made
    /// smaller. The rects are already scaled back to source pixels.
    pub ocr_scale: F,
    pub lines: Vec<Line<F>>,
}

/// Where the edges of a word stand among those of its line: of two edges the one further to the
/// left or to the top has the smaller rank.
#[derive(Clone, Copy)]
pub struct Edges {
    pub left: i64,
    pub top: i64,
    pub right: i64,
    pub bottom: i64,
}

/// Which words of a line bound it on each side.
#[derive(Clone, Copy)]
pub struct Bounds {
    pub left: usize,
    pub top: usize,
    pub right: usize,
    pub bottom: usize,
}

/// The first of the smallest ranks stands at `at`.
pub open spec fn least_at(ranks: Seq<i64>, at: int) -> bool {
    &&& 0 <= at < ranks.len()
    &&& forall|k: int| 0 <= k < ranks.len() ==> ranks[at] <= #[trigger] ranks[k]
    &&& forall|k: int| 0 <= k < at ==> ranks[at] < #[trigger] ranks[k]
}

/// The first of the largest ranks stands at `at`.
pub open spec fn greatest_at(ranks: Seq<i64>, at: int) -> bool {
    &&& 0 <= at < ranks.len()
    &&& forall|k: int| 0 <= k < ranks.len() ==> ranks[at] >= #[trigger] ranks[k]
    &&& forall|k: int| 0 <= k < at ==> ranks[at] > #[trigger] ranks[k]
}

pub open spec fn lefts(words: Seq<Edges>) -> Seq<i64> {
    words.map_values(|w: Edges| w.left)
}

pub open spec fn tops(words: Seq<Edges>) -> Seq<i64> {
    words.map_values(|w: Edges| w.top)
}

pub open spec fn rights(words: Seq<Edges>) -> Seq<i64> {
    words.map_values(|w: Edges| w.right)
}

pub open spec fn bottoms(words: Seq<Edges>) -> Seq<i64> {
    words.map_values(|w: Edges| w.bottom)
}

/// The words reach from somewhere to somewhere: a right edge does not lie before some left edge.
pub open spec fn has_extent(words: Seq<Edges>) -> bool {
    exists|i: int, j: int|
        0 <= i < words.len() && 0 <= j < words.len() && (#[trigger] words[i]).left <= (
        #[trigger] words[j]).right
}

/// Union of the word rects: the recogniser reports a rect per word, not per line. The words whose
/// edges lie outermost are named; a line without words, or whose right end lies before its left
/// end, has no extent.
pub fn union(words: &[Edges]) -> (r: Option<Bounds>)
    ensures
        match r {
            Some(b) => {
                &&& least_at(lefts(words@), b.left as int)
                &&& least_at(tops(words@), b.top as int)
                &&& greatest_at(rights(words@), b.right as int)
                &&& greatest_at(bottoms(words@), b.bottom as int)
                &&& words@[b.left as int].left <= words@[b.right as int].right
                &&& b.left < words@.len() && b.top < words@.len() && b.right < words@.len()
                    && b.bottom < words@.len()
                &&& forall|k: int|
                    0 <= k < words@.len() ==> {
                        &&& words@[b.left as int].left <= (#[trigger] words@[k]).left
                        &&& words@[b.top as int].top <= words@[k].top
                        &&& words@[b.right as int].right >= words@[k].right
                        &&& words@[b.bottom as int].bottom >= words@[k].bottom
                    }
            },
            None => forall|i: int, j: int|
                0 <= i < words@.len() && 0 <= j < words@.len() ==> (#[trigger] words@[i]).left > (
                #[trigger] words@[j]).right,
        },
        r is Some <==> has_extent(words@),
{
    if words.len() == 0 {
        return None;
    }
    let mut b = Bounds { left: 0, top: 0, right: 0, bottom: 0 };
    for i in 1..words.len()
        invariant
            words@.len() >= 1,
            least_at(lefts(words@).take(i as int), b.left as int),
            least_at(tops(words@).take(i as int), b.top as int),
            greatest_at(rights(words@).take(i as int), b.right as int),
            greatest_at(bottoms(words@).take(i as int), b.bottom as int),
    {
        let w = words[i];
        proof {
            lemma_least(lefts(words@), b.left as int, i as int);
            lemma_least(tops(words@), b.top as int, i as int);
            lemma_greatest(rights(words@), b.right as int, i as int);
            lemma_greatest(bottoms(words@), b.bottom as int, i as int);
        }
        if w.left < words[b.left].left {
            b.left = i;
        }
        if w.top < words[b.top].top {
            b.top = i;
        }
        if w.right > words[b.right].right {
            b.right = i;
        }
        if w.bottom > words[b.bottom].bottom {
            b.bottom = i;
        }
    }
    proof {
        let n = words@.len() as int;
        assert(lefts(words@).take(n) == lefts(words@));
        assert(tops(words@).take(n) == tops(words@));
        assert(rights(words@).take(n) == rights(words@));
        assert(bottoms(words@).take(n) == bottoms(words@));
        assert forall|i: int, j: int|
            0 <= i < n && 0 <= j < n && words@[b.left as int].left
                > words@[b.right as int].right implies (#[trigger] words@[i]).left > (
        #[trigger] words@[j]).right by {
            assert(lefts(words@)[i] == words@[i].left);
            assert(rights(words@)[j] == words@[j].right);
        }
        assert forall|k: int| 0 <= k < n implies {
            &&& words@[b.left as int].left <= (#[trigger] words@[k]).left
            &&& words@[b.top as int].top <= words@[k].top
            &&& words@[b.right as int].right >= words@[k].right
            &&& words@[b.bottom as int].bottom >= words@[k].bottom
        } by {
            assert(lefts(words@)[k] == words@[k].left && tops(words@)[k] == words@[k].top);
            assert(rights(words@)[k] == words@[k].right && bottoms(words@)[k] == words@[k].bottom);
        }
        if words@[b.left as int].left <= words@[b.right as int].right {
            assert(has_extent(words@));
        }
    }
    if words[b.right].right < words[b.left].left {
        None
    } else {
        Some(b)
    }
}

/// Another rank is smaller than all before it, or the place of the smallest stays.
proof fn lemma_least(ranks: Seq<i64>, at: int, i: int)
    requires
        0 <= i < ranks.len(),
        least_at(ranks.take(i), at),
    ensures
        0 <= at < i,
        ranks.take(i)[at] == ranks[at],
        least_at(
            ranks.take(i + 1),
            if ranks[i] < ranks[at] {
                i
            } else {
                at
            },
        ),
{
    let all = ranks.take(i + 1);
    assert forall|k: int| 0 <= k < all.len() implies (if ranks[i] < ranks[at] {
        ranks[i]
    } else {
        ranks[at]
    }) <= #[trigger] all[k] by {
        if k < i {
            assert(ranks.take(i)[k] == all[k]);
        }
    }
    assert forall|k: int| 0 <= k < i && ranks[i] < ranks[at] implies ranks[i]
        < #[trigger] all[k] by {
        assert(ranks.take(i)[k] == all[k]);
    }
    assert forall|k: int| 0 <= k < at implies ranks[at] < #[trigger] all[k] by {
        assert(ranks.take(i)[k] == all[k]);
    }
}

/// Another rank is larger than all before it, or the place of the largest stays.
proof fn lemma_greatest(ranks: Seq<i64>, at: int, i: int)
    requires
        0 <= i < ranks.len(),
        greatest_at(ranks.take(i), at),
    ensures
        0 <= at < i,
        ranks.take(i)[at] == ranks[at],
        greatest_at(
            ranks.take(i + 1),
            if ranks[i] > ranks[at] {
                i
            } else {
                at
            },
        ),
{
    let all = ranks.take(i + 1);
    assert forall|k: int| 0 <= k < all.len() implies (if ranks[i] > ranks[at] {
        ranks[i]
    } else {
        ranks[at]
    }) >= #[trigger] all[k] by {
        if k < i {
            assert(ranks.take(i)[k] == all[k]);
        }
    }
    assert forall|k: int| 0 <= k < i && ranks[i] > ranks[at] implies ranks[i]
        > #[trigger] all[k] by {
        assert(ranks.take(i)[k] == all[k]);
    }
    assert forall|k: int| 0 <= k < at implies ranks[at] > #[trigger] all[k] by {
        assert(ranks.take(i)[k] == all[k]);
    }
}

/// The frames of a list with one more, in the order of their numbers: it goes behind those with
/// the same number or a smaller one.
pub open spec fn placed<T>(frames: Seq<(usize, T)>, frame: (usize, T)) -> Seq<(usize, T)>
    decreases frames.len(),
{
    if frames.len() == 0 || frames.last().0 <= frame.0 {
        frames.push(frame)
    } else {
        placed(frames.drop_last(), frame).push(frames.last())
    }
}

/// The frames in the order of their numbers, those with the same number in the order in which
/// they came.
pub open spec fn by_number<T>(frames: Seq<(usize, T)>) -> Seq<(usize, T)>
    decreases frames.len(),
{
    if frames.len() == 0 {
        frames
    } else {
        placed(by_number(frames.drop_last()), frames.last())
    }
}

/// The lines of the frames, one frame after the other.
pub open spec fn lines_of<F>(frames: Seq<(usize, Vec<Line<F>>)>) -> Seq<Line<F>>
    decreases frames.len(),
{
    if frames.len() == 0 {
        Seq::empty()
    } else {
        lines_of(frames.drop_last()) + frames.last().1@
    }
}

/// How many lines the frames hold together.
pub open spec fn line_count<F>(frames: Seq<(usize, Vec<Line<F>>)>) -> nat
    decreases frames.len(),
{
    if frames.len() == 0 {
        0
    } else {
        line_count(frames.drop_last()) + frames.last().1@.len()
    }
}

/// No line is lost and none is made up: line `j` of a frame stands behind all lines of the frames
/// before it and `j` lines of its own, and there are as many lines as the frames hold together.
pub proof fn every_line_of_every_frame_is_kept<F>(
    front: Seq<(usize, Vec<Line<F>>)>,
    frame: (usize, Vec<Line<F>>),
    back: Seq<(usize, Vec<Line<F>>)>,
    j: int,
)
    ensures
        line_count(Seq::<(usize, Vec<Line<F>>)>::empty()) == 0,
        line_count(front + seq![frame] + back) == line_count(front) + frame.1@.len() + line_count(
            back,
        ),
        lines_of(front + seq![frame] + back).len() == line_count(front + seq![frame] + back),
        0 <= j < frame.1@.len() ==> lines_of(front + seq![frame] + back)[line_count(front) + j]
            == frame.1@[j],
{
    let one = seq![frame];
    assert(one.drop_last() =~= Seq::<(usize, Vec<Line<F>>)>::empty());
    reveal_with_fuel(lines_of, 2);
    reveal_with_fuel(line_count, 2);
    assert(lines_of(one) =~= frame.1@);
    lemma_lines_of(front, one);
    lemma_lines_of(front + one, back);
    lemma_line_count(front, one);
    lemma_line_count(front + one, back);
    lemma_count_is_length(front);
    lemma_count_is_length(front + one + back);
}

proof fn lemma_line_count<F>(front: Seq<(usize, Vec<Line<F>>)>, back: Seq<(usize, Vec<Line<F>>)>)
    ensures
        line_count(front + back) == line_count(front) + line_count(back),
    decreases back.len(),
{
    if back.len() == 0 {
        assert(front + back =~= front);
    } else {
        assert((front + back).drop_last() =~= front + back.drop_last());
        lemma_line_count(front, back.drop_last());
    }
}

proof fn lemma_count_is_length<F>(frames: Seq<(usize, Vec<Line<F>>)>)
    ensures
        lines_of(frames).len() == line_count(frames),
    decreases frames.len(),
{
    if frames.len() > 0 {
        lemma_count_is_length(frames.drop_last());
    }
}

/// Each frame has a larger number than those before it.
pub open spec fn ascending<T>(frames: Seq<(usize, T)>) -> bool {
    forall|i: int, j: int|
        0 <= i < j < frames.len() ==> (#[trigger] frames[i]).0 < (#[trigger] frames[j]).0
}

/// No two frames have the same number.
pub open spec fn distinct<T>(frames: Seq<(usize, T)>) -> bool {
    forall|i: int, j: int|
        0 <= i < j < frames.len() ==> (#[trigger] frames[i]).0 != (#[trigger] frames[j]).0
}

proof fn lemma_placed_multiset<T>(frames: Seq<(usize, T)>, frame: (usize, T))
    ensures
        placed(frames, frame).to_multiset() == frames.to_multiset().insert(frame),
    decreases frames.len(),
{
    broadcast use vstd::seq_lib::group_to_multiset_ensures;

    if frames.len() > 0 && frames.last().0 > frame.0 {
        lemma_placed_multiset(frames.drop_last(), frame);
        assert(frames == frames.drop_last().push(frames.last()));
        assert(placed(frames, frame).to_multiset() =~= frames.to_multiset().insert(frame));
    }
}

proof fn lemma_by_number_multiset<T>(frames: Seq<(usize, T)>)
    ensures
        by_number(frames).to_multiset() == frames.to_multiset(),
    decreases frames.len(),
{
    broadcast use vstd::seq_lib::group_to_multiset_ensures;

    if frames.len() > 0 {
        lemma_by_number_multiset(frames.drop_last());
        lemma_placed_multiset(by_number(frames.drop_last()), frames.last());
        assert(frames == frames.drop_last().push(frames.last()));
    }
}

proof fn lemma_placed_ascending<T>(frames: Seq<(usize, T)>, frame: (usize, T))
    requires
        ascending(frames),
        forall|i: int| 0 <= i < frames.len() ==> (#[trigger] frames[i]).0 != frame.0,
    ensures
        ascending(placed(frames, frame)),
        forall|i: int|
            0 <= i < placed(frames, frame).len() ==> (#[trigger] placed(frames, frame)[i]).0
                <= frame.0 || exists|k: int|
                0 <= k < frames.len() && placed(frames, frame)[i].0 == (#[trigger] frames[k]).0,
    decreases frames.len(),
{
    if frames.len() > 0 && frames.last().0 > frame.0 {
        let rest = frames.drop_last();
        lemma_placed_ascending(rest, frame);
        let front = placed(rest, frame);
        let all = placed(frames, frame);
        assert forall|i: int| 0 <= i < front.len() implies (#[trigger] front[i]).0
            < frames.last().0 by {
            if front[i].0 > frame.0 {
                let k = choose|k: int|
                    0 <= k < rest.len() && front[i].0 == (#[trigger] rest[k]).0;
                assert(frames[k].0 < frames[frames.len() - 1].0);
            }
        }
        assert forall|i: int| 0 <= i < all.len() implies (#[trigger] all[i]).0 <= frame.0
            || exists|k: int| 0 <= k < frames.len() && all[i].0 == (#[trigger] frames[k]).0 by {
            if i < front.len() {
                if front[i].0 > frame.0 {
                    let k = choose|k: int|
                        0 <= k < rest.len() && front[i].0 == (#[trigger] rest[k]).0;
                    assert(frames[k].0 == front[i].0);
                }
            } else {
                assert(all[i].0 == frames[frames.len() - 1].0);
            }
        }
    } else {
        let all = placed(frames, frame);
        assert forall|i: int, j: int| 0 <= i < j < all.len() implies (#[trigger] all[i]).0 < (
        #[trigger] all[j]).0 by {
            if j == frames.len() {
                assert(i < frames.len());
                assert(frames[i].0 <= frames.last().0) by {
                    if i < frames.len() - 1 {
                        assert(frames[i].0 < frames[frames.len() - 1].0);
                    }
                }
                assert(frames[frames.len() - 1].0 != frame.0);
            }
        }
    }
}

proof fn lemma_by_number_ascending<T>(frames: Seq<(usize, T)>)
    requires
        distinct(frames),
    ensures
        ascending(by_number(frames)),
    decreases frames.len(),
{
    broadcast use vstd::seq_lib::group_to_multiset_ensures;

    if frames.len() > 0 {
        let rest = frames.drop_last();
        assert(distinct(rest)) by {
            assert forall|i: int, j: int| 0 <= i < j < rest.len() implies (#[trigger] rest[i]).0
                != (#[trigger] rest[j]).0 by {
                assert(frames[i].0 != frames[j].0);
            }
        }
        lemma_by_number_ascending(rest);
        lemma_by_number_multiset(rest);
        let sorted = by_number(rest);
        assert forall|i: int| 0 <= i < sorted.len() implies (#[trigger] sorted[i]).0
            != frames.last().0 by {
            assert(sorted.contains(sorted[i]));
            assert(sorted.to_multiset().count(sorted[i]) > 0);
            assert(rest.contains(sorted[i]));
            let k = choose|k: int| 0 <= k < rest.len() && rest[k] == sorted[i];
            assert(frames[k].0 != frames[frames.len() - 1].0);
        }
        lemma_placed_ascending(sorted, frames.last());
    }
}

/// Two ascending lists of the same frames are one list.
proof fn lemma_ascending_is_unique<T>(a: Seq<(usize, T)>, b: Seq<(usize, T)>)
    requires
        ascending(a),
        ascending(b),
        a.to_multiset() == b.to_multiset(),
    ensures
        a == b,
    decreases a.len(),
{
    broadcast use vstd::seq_lib::group_to_multiset_ensures;

    assert(a.len() == a.to_multiset().len() && b.len() == b.to_multiset().len());
    if a.len() > 0 {
        let x = a.last();
        let y = b.last();
        assert(a.contains(x) && b.contains(y));
        assert(b.to_multiset().count(x) > 0 && a.to_multiset().count(y) > 0);
        assert(b.contains(x) && a.contains(y));
        let i = choose|i: int| 0 <= i < b.len() && b[i] == x;
        let j = choose|j: int| 0 <= j < a.len() && a[j] == y;
        if i < b.len() - 1 {
            assert(b[i].0 < b[b.len() - 1].0);
            if j < a.len() - 1 {
                assert(a[j].0 < a[a.len() - 1].0);
            }
        }
        assert(x == y);
        let a_rest = a.drop_last();
        let b_rest = b.drop_last();
        assert(a == a_rest.push(x) && b == b_rest.push(x));
        assert(a.to_multiset() == a_rest.to_multiset().insert(x));
        assert(b.to_multiset() == b_rest.to_multiset().insert(x));
        assert(a_rest.to_multiset() =~= a.to_multiset().remove(x));
        assert(b_rest.to_multiset() =~= b.to_multiset().remove(x));
        assert(ascending(a_rest)) by {
            assert forall|i: int, j: int| 0 <= i < j < a_rest.len() implies (
            #[trigger] a_rest[i]).0 < (#[trigger] a_rest[j]).0 by {
                assert(a[i].0 < a[j].0);
            }
        }
        assert(ascending(b_rest)) by {
            assert forall|i: int, j: int| 0 <= i < j < b_rest.len() implies (
            #[trigger] b_rest[i]).0 < (#[trigger] b_rest[j]).0 by {
                assert(b[i].0 < b[j].0);
            }
        }
        lemma_ascending_is_unique(a_rest, b_rest);
    }
}

/// Frames are read in parallel and come back in any order; they are put together in the order of
/// the video all the same.
pub proof fn frames_never_shuffle<T>(a: Seq<(usize, T)>, b: Seq<(usize, T)>)
    requires
        distinct(a),
        distinct(b),
        a.to_multiset() == b.to_multiset(),
    ensures
        ascending(by_number(a)),
        forall|i: int, j: int|
            0 <= i < j < by_number(a).len() ==> (#[trigger] by_number(a)[i]).0 < (
            #[trigger] by_number(a)[j]).0,
        by_number(a).to_multiset() == a.to_multiset(),
        by_number(a) == by_number(b),
{
    lemma_by_number_ascending(a);
    lemma_by_number_ascending(b);
    lemma_by_number_multiset(a);
    lemma_by_number_multiset(b);
    lemma_ascending_is_unique(by_number(a), by_number(b));
}

/// The frames of several batches, one batch after the other.
pub open spec fn all_frames<T>(batches: Seq<Seq<(usize, T)>>) -> Seq<(usize, T)>
    decreases batches.len(),
{
    if batches.len() == 0 {
        Seq::empty()
    } else {
        all_frames(batches.drop_last()) + batches.last()
    }
}

/// What has been read once the batches have been recognised, one after the other.
pub open spec fn lines_after<F>(batches: Seq<Seq<(usize, Vec<Line<F>>)>>) -> Seq<Line<F>>
    decreases batches.len(),
{
    if batches.len() == 0 {
        Seq::empty()
    } else {
        lines_after(batches.drop_last()) + lines_of(by_number(batches.last()))
    }
}

/// No frame has a smaller number than a frame of an earlier batch.
pub open spec fn batches_ascend<T>(batches: Seq<Seq<(usize, T)>>) -> bool {
    forall|a: int, b: int, i: int, j: int|
        #![trigger batches[a][i], batches[b][j]]
        0 <= a < b < batches.len() && 0 <= i < batches[a].len() && 0 <= j < batches[b].len()
            ==> batches[a][i].0 <= batches[b][j].0
}

/// A frame with no smaller number than those in front finds its place behind them.
proof fn lemma_placed_behind<T>(front: Seq<(usize, T)>, back: Seq<(usize, T)>, frame: (usize, T))
    requires
        forall|i: int| 0 <= i < front.len() ==> (#[trigger] front[i]).0 <= frame.0,
    ensures
        placed(front + back, frame) == front + placed(back, frame),
    decreases back.len(),
{
    let all = front + back;
    if back.len() == 0 {
        assert(all =~= front);
        if front.len() > 0 {
            assert(front[front.len() - 1].0 <= frame.0);
        }
        assert(front.push(frame) =~= front + back.push(frame));
    } else {
        assert(all.last() == back.last());
        assert(all.drop_last() =~= front + back.drop_last());
        if back.last().0 <= frame.0 {
            assert(all.push(frame) =~= front + back.push(frame));
        } else {
            lemma_placed_behind(front, back.drop_last(), frame);
            assert((front + placed(back.drop_last(), frame)).push(back.last()) =~= front + placed(
                back.drop_last(),
                frame,
            ).push(back.last()));
        }
    }
}

/// Frames behind others stay behind them.
proof fn lemma_by_number_behind<T>(front: Seq<(usize, T)>, back: Seq<(usize, T)>)
    requires
        forall|i: int, j: int|
            0 <= i < front.len() && 0 <= j < back.len() ==> (#[trigger] front[i]).0 <= (
            #[trigger] back[j]).0,
    ensures
        by_number(front + back) == by_number(front) + by_number(back),
    decreases back.len(),
{
    broadcast use vstd::seq_lib::group_to_multiset_ensures;

    if back.len() == 0 {
        assert(front + back =~= front);
        assert(by_number(front) + by_number(back) =~= by_number(front));
    } else {
        let all = front + back;
        let rest = back.drop_last();
        assert(all.drop_last() =~= front + rest);
        assert forall|i: int, j: int| 0 <= i < front.len() && 0 <= j < rest.len() implies (
        #[trigger] front[i]).0 <= (#[trigger] rest[j]).0 by {
            assert(front[i].0 <= back[j].0);
        }
        lemma_by_number_behind(front, rest);
        lemma_by_number_multiset(front);
        let sorted = by_number(front);
        assert forall|i: int| 0 <= i < sorted.len() implies (#[trigger] sorted[i]).0
            <= back.last().0 by {
            assert(sorted.contains(sorted[i]));
            assert(sorted.to_multiset().count(sorted[i]) > 0);
            assert(front.contains(sorted[i]));
            let k = choose|k: int| 0 <= k < front.len() && front[k] == sorted[i];
            assert(front[k].0 <= back[back.len() - 1].0);
        }
        lemma_placed_behind(sorted, by_number(rest), back.last());
    }
}

/// The lines of two lists of frames are those of the first, then those of the second.
proof fn lemma_lines_of<F>(front: Seq<(usize, Vec<Line<F>>)>, back: Seq<(usize, Vec<Line<F>>)>)
    ensures
        lines_of(front + back) == lines_of(front) + lines_of(back),
    decreases back.len(),
{
    let all = front + back;
    if back.len() == 0 {
        assert(all =~= front);
        assert(lines_of(front) + lines_of(back) =~= lines_of(front));
    } else {
        assert(all.drop_last() =~= front + back.drop_last());
        lemma_lines_of(front, back.drop_last());
        assert(lines_of(front) + lines_of(back.drop_last()) + back.last().1@ =~= lines_of(front) + (
        lines_of(back.drop_last()) + back.last().1@));
    }
}

/// A frame of several batches is a frame of one of them.
proof fn lemma_all_frames<T>(batches: Seq<Seq<(usize, T)>>, i: int) -> (at: (int, int))
    requires
        0 <= i < all_frames(batches).len(),
    ensures
        0 <= at.0 < batches.len(),
        0 <= at.1 < batches[at.0].len(),
        all_frames(batches)[i] == batches[at.0][at.1],
    decreases batches.len(),
{
    let before = all_frames(batches.drop_last());
    if i < before.len() {
        lemma_all_frames(batches.drop_last(), i)
    } else {
        (batches.len() - 1, i - before.len())
    }
}

/// A video that is read batch by batch gives the lines of all its frames in the order of the
/// video: how the frames are cut into batches makes no difference.
pub proof fn batches_make_no_difference<F>(batches: Seq<Seq<(usize, Vec<Line<F>>)>>)
    requires
        batches_ascend(batches),
    ensures
        lines_after(batches) == lines_of(by_number(all_frames(batches))),
    decreases batches.len(),
{
    if batches.len() > 0 {
        let rest = batches.drop_last();
        let front = all_frames(rest);
        let back = batches.last();
        assert(batches_ascend(rest)) by {
            assert forall|a: int, b: int, i: int, j: int|
                #![trigger rest[a][i], rest[b][j]]
                0 <= a < b < rest.len() && 0 <= i < rest[a].len() && 0 <= j
                    < rest[b].len() implies rest[a][i].0 <= rest[b][j].0 by {
                assert(batches[a][i].0 <= batches[b][j].0);
            }
        }
        batches_make_no_difference(rest);
        assert forall|i: int, j: int| 0 <= i < front.len() && 0 <= j < back.len() implies (
        #[trigger] front[i]).0 <= (#[trigger] back[j]).0 by {
            let at = lemma_all_frames(rest, i);
            assert(batches[at.0][at.1].0 <= batches[batches.len() - 1][j].0);
        }
        lemma_by_number_behind(front, back);
        lemma_lines_of(by_number(front), by_number(back));
    }
}

proof fn lemma_placed_count<F>(
    frames: Seq<(usize, Vec<Line<F>>)>,
    frame: (usize, Vec<Line<F>>),
)
    ensures
        line_count(placed(frames, frame)) == line_count(frames) + frame.1@.len(),
    decreases frames.len(),
{
    if frames.len() == 0 || frames.last().0 <= frame.0 {
        assert(frames.push(frame).drop_last() =~= frames);
    } else {
        let front = placed(frames.drop_last(), frame);
        lemma_placed_count(frames.drop_last(), frame);
        assert(front.push(frames.last()).drop_last() =~= front);
    }
}

/// Putting frames in order loses no line.
proof fn lemma_sorted_count<F>(frames: Seq<(usize, Vec<Line<F>>)>)
    ensures
        line_count(by_number(frames)) == line_count(frames),
    decreases frames.len(),
{
    if frames.len() > 0 {
        lemma_sorted_count(frames.drop_last());
        lemma_placed_count(by_number(frames.drop_last()), frames.last());
    }
}

/// Frames that come in the order of their numbers stay as they are.
pub proof fn frames_in_order_stay_in_order<T>(frames: Seq<(usize, T)>)
    requires
        forall|i: int, j: int|
            0 <= i < j < frames.len() ==> (#[trigger] frames[i]).0 <= (#[trigger] frames[j]).0,
    ensures
        by_number(frames) == frames,
    decreases frames.len(),
{
    if frames.len() > 0 {
        let front = frames.drop_last();
        assert forall|i: int, j: int| 0 <= i < j < front.len() implies (#[trigger] front[i]).0 <= (
        #[trigger] front[j]).0 by {
            assert(frames[i].0 <= frames[j].0);
        }
        frames_in_order_stay_in_order(front);
        if front.len() > 0 {
            assert(frames[front.len() - 1].0 <= frames[front.len() as int].0);
        }
        assert(front.push(frames.last()) =~= frames);
    }
}

/// Of two frames of a batch the one with the smaller number comes first, whatever their order was;
/// of two with the same number the one that came first. No frame is lost and none is made up.
pub proof fn two_frames_are_put_in_order<T>(a: (usize, T), b: (usize, T))
    ensures
        by_number(seq![a, b]) == (if a.0 <= b.0 {
            seq![a, b]
        } else {
            seq![b, a]
        }),
{
    reveal_with_fuel(by_number, 3);
    reveal_with_fuel(placed, 3);
    let both = seq![a, b];
    assert(both.drop_last() =~= seq![a]);
    assert(seq![a].drop_last() =~= Seq::<(usize, T)>::empty());
    assert(by_number(seq![a]) =~= seq![a]);
    assert(by_number(both) =~= (if a.0 <= b.0 {
        seq![a, b]
    } else {
        seq![b, a]
    }));
}

/// The place of a frame is behind the last one that has no larger number.
proof fn lemma_placed_at<T>(frames: Seq<(usize, T)>, frame: (usize, T), at: int)
    requires
        0 <= at <= frames.len(),
        at > 0 ==> frames[at - 1].0 <= frame.0,
        forall|k: int| at <= k < frames.len() ==> (#[trigger] frames[k]).0 > frame.0,
    ensures
        placed(frames, frame) == frames.insert(at, frame),
    decreases frames.len(),
{
    if at < frames.len() {
        assert(frames[frames.len() - 1].0 > frame.0);
        lemma_placed_at(frames.drop_last(), frame, at);
        assert(placed(frames, frame) =~= frames.insert(at, frame));
    } else {
        assert(frames.push(frame) =~= frames.insert(at, frame));
    }
}

/// The frames in the order of their numbers.
fn sort_frames<T>(frames: Vec<(usize, T)>) -> (r: Vec<(usize, T)>)
    ensures
        r@ == by_number(frames@),
{
    let ghost all = frames@;
    let mut rest = frames;
    let mut sorted: Vec<(usize, T)> = Vec::new();
    while rest.len() > 0
        invariant
            rest@.len() <= all.len(),
            rest@ == all.skip(all.len() - rest@.len()),
            sorted@ == by_number(all.take(all.len() - rest@.len())),
        decreases rest.len(),
    {
        let ghost n = all.len() - rest@.len();
        let ghost before = rest@;
        let frame = rest.remove(0);
        assert(rest@ =~= all.skip(n + 1)) by {
            assert(before[0] == all[n]);
        }
        assert(frame == all[n]);
        let mut at: usize = sorted.len();
        while at > 0 && sorted[at - 1].0 > frame.0
            invariant
                at <= sorted.len(),
                forall|k: int| at <= k < sorted.len() ==> (#[trigger] sorted@[k]).0 > frame.0,
            decreases at,
        {
            at -= 1;
        }
        proof {
            lemma_placed_at(sorted@, frame, at as int);
            assert(all.take(n + 1).drop_last() =~= all.take(n));
        }
        sorted.insert(at, frame);
    }
    assert(all.take(all.len() as int) =~= all);
    sorted
}

/// What happened while a video is read.
pub enum OcrEvent<F> {
    /// Another batch is due; the user has asked to stop, or not.
    Due { cancelled: bool },
    /// So many frames were read for the batch.
    Read { count: usize },
    /// The frames of the batch with the lines found in each, in any order.
    Recognized { frames: Vec<(usize, Vec<Line<F>>)> },
}

/// What is to be done next.
pub enum OcrAction {
    /// Read a batch of at most this many frames.
    Read { most: usize },
    /// Recognise the text in the frames of the batch.
    Recognize,
    /// Report the progress, once for every count from `first` to `done`; another batch is due.
    Report { first: usize, done: usize, total: usize },
    /// Report the progress; all frames have been read.
    Finish { done: usize, total: usize },
    /// Give up with this error.
    Cancel(Error),
}

/// A video that is being read.
pub struct OcrRun<F> {
    /// The frames that are recognised at a time.
    pub workers: usize,
    /// How many frames there seem to be.
    pub total: usize,
    /// How many have been read.
    pub done: usize,
    /// What was read in them.
    pub lines: Vec<Line<F>>,
}

pub open spec fn larger(a: usize, b: usize) -> usize {
    if a >= b {
        a
    } else {
        b
    }
}

fn max(a: usize, b: usize) -> (r: usize)
    ensures
        r == larger(a, b),
{
    if a >= b {
        a
    } else {
        b
    }
}

/// The larger of two numbers is one of them, and neither is above it.
pub proof fn the_larger_is_above_both(a: usize, b: usize)
    ensures
        larger(a, b) >= a,
        larger(a, b) >= b,
        larger(a, b) == a || larger(a, b) == b,
{
}

/// The counts from `first` to `done`.
pub open spec fn counts(first: int, done: int) -> Seq<int> {
    Seq::new(
        if first <= done {
            (done + 1 - first) as nat
        } else {
            0
        },
        |i: int| first + i,
    )
}

/// How many frames several batches hold.
pub open spec fn frames_in(sizes: Seq<nat>) -> int
    decreases sizes.len(),
{
    if sizes.len() == 0 {
        0
    } else {
        frames_in(sizes.drop_last()) + sizes.last()
    }
}

/// The counts that are reported while batches of these sizes are recognised, one after the other.
pub open spec fn counts_reported(sizes: Seq<nat>) -> Seq<int>
    decreases sizes.len(),
{
    if sizes.len() == 0 {
        Seq::empty()
    } else {
        let before = frames_in(sizes.drop_last());
        counts_reported(sizes.drop_last()) + counts(before + 1, before + sizes.last())
    }
}

/// Progress is reported for every frame, once and in order, however the frames are cut into
/// batches.
pub proof fn every_frame_is_reported(sizes: Seq<nat>)
    ensures
        frames_in(sizes) >= 0,
        counts_reported(sizes) == counts(1, frames_in(sizes)),
        counts_reported(sizes).len() == frames_in(sizes),
        forall|i: int|
            0 <= i < counts_reported(sizes).len() ==> #[trigger] counts_reported(sizes)[i] == i + 1,
    decreases sizes.len(),
{
    if sizes.len() > 0 {
        every_frame_is_reported(sizes.drop_last());
    }
    assert(counts_reported(sizes) =~= counts(1, frames_in(sizes)));
}

impl<F> OcrRun<F> {
    /// Nothing has been read yet. There is at least one frame to be expected.
    pub fn new(workers: usize, estimate: usize) -> (r: Self)
        ensures
            r.workers == workers,
            r.total == larger(estimate, 1),
            r.done == 0,
            r.lines@ == Seq::<Line<F>>::empty(),
    {
        OcrRun { workers, total: max(estimate, 1), done: 0, lines: Vec::new() }
    }

    /// What is to be done after an event.
    pub fn step(&mut self, event: OcrEvent<F>) -> (r: OcrAction)
        requires
            event matches OcrEvent::Recognized { frames } ==> old(self).done < usize::MAX && old(
                self,
            ).done + frames@.len() <= usize::MAX,
        ensures
            final(self).workers == old(self).workers,
            final(self).total == old(self).total,
            match event {
                OcrEvent::Due { cancelled } => {
                    &&& *final(self) == *old(self)
                    &&& cancelled ==> r is Cancel && r->Cancel_0.text() == "cancelled after "@ + decimal(
                        old(self).done as nat,
                    ) + " frames"@
                    &&& !cancelled ==> r == (OcrAction::Read { most: old(self).workers })
                },
                OcrEvent::Read { count } => {
                    &&& *final(self) == *old(self)
                    &&& r == (if count == 0 {
                        OcrAction::Finish { done: old(self).done, total: larger(old(self).done, 1) }
                    } else {
                        OcrAction::Recognize
                    })
                },
                OcrEvent::Recognized { frames } => {
                    &&& final(self).done == old(self).done + frames@.len()
                    &&& final(self).lines@ == old(self).lines@ + lines_of(by_number(frames@))
                    &&& final(self).lines@.len() == old(self).lines@.len() + line_count(frames@)
                    &&& r == (OcrAction::Report {
                        first: (old(self).done + 1) as usize,
                        done: final(self).done,
                        total: larger(old(self).total, final(self).done),
                    })
                },
            },
    {
        match event {
            OcrEvent::Due { cancelled } => {
                if cancelled {
                    let mut text = "cancelled after ".to_owned();
                    text.append(number(self.done as u64).as_str());
                    text.append(" frames");
                    OcrAction::Cancel(Error(text))
                } else {
                    OcrAction::Read { most: self.workers }
                }
            },
            OcrEvent::Read { count } => {
                if count == 0 {
                    OcrAction::Finish { done: self.done, total: max(self.done, 1) }
                } else {
                    OcrAction::Recognize
                }
            },
            OcrEvent::Recognized { frames } => {
                let first = self.done + 1;
                self.done = self.done + frames.len();
                proof {
                    lemma_sorted_count(frames@);
                    lemma_count_is_length(by_number(frames@));
                }
                self.extend(sort_frames(frames));
                OcrAction::Report { first, done: self.done, total: max(self.total, self.done) }
            },
        }
    }

    fn extend(&mut self, frames: Vec<(usize, Vec<Line<F>>)>)
        ensures
            final(self).workers == old(self).workers,
            final(self).total == old(self).total,
            final(self).done == old(self).done,
            final(self).lines@ == old(self).lines@ + lines_of(frames@),
    {
        let ghost all = frames@;
        let ghost start = self.lines@;
        let mut rest = frames;
        assert(start + lines_of(all.take(0)) =~= start);
        while rest.len() > 0
            invariant
                rest@.len() <= all.len(),
                rest@ == all.skip(all.len() - rest@.len()),
                self.lines@ == start + lines_of(all.take(all.len() - rest@.len())),
                self.workers == old(self).workers,
                self.total == old(self).total,
                self.done == old(self).done,
            decreases rest.len(),
        {
            let ghost n = all.len() - rest@.len();
            let ghost before = rest@;
            let frame = rest.remove(0);
            assert(before[0] == all[n]);
            assert(rest@ =~= all.skip(n + 1));
            let mut lines = frame.1;
            self.lines.append(&mut lines);
            assert(all.take(n + 1).drop_last() =~= all.take(n));
            assert(self.lines@ =~= start + lines_of(all.take(n + 1)));
        }
        assert(all.take(all.len() as int) =~= all);
    }

    /// All that was read, with what it was read from and how. `video` is the file's name, if it
    /// has one.
    pub fn finish(
        self,
        info: VideoInfo<F>,
        video: Option<String>,
        rate: F,
        lang: String,
        ocr_scale: F,
    ) -> (r: OcrResult<F>)
        ensures
            r.video@ == (match video {
                Some(name) => name@,
                None => Seq::empty(),
            }),
            r.video_sha256 == info.sha256,
            r.width == info.width,
            r.height == info.height,
            r.duration == info.duration,
            r.rate == rate,
            r.video_fps == info.fps,
            r.engine@ == "Windows.Media.Ocr"@,
            r.lang == lang,
            exists|seconds: u64|
                clock_says(seconds) && r.generated@ == #[trigger] iso_text(seconds as nat),
            r.ocr_scale == ocr_scale,
            r.lines == self.lines,
    {
        OcrResult {
            video: match video {
                Some(name) => name,
                None => String::new(),
            },
            video_sha256: info.sha256,
            width: info.width,
            height: info.height,
            duration: info.duration,
            rate,
            video_fps: info.fps,
            engine: "Windows.Media.Ocr".to_owned(),
            lang,
            generated: now_iso(),
            ocr_scale,
            lines: self.lines,
        }
    }
}

/// A line as the recogniser found it, with the union of its words' rects. The time of the frame is
/// not known yet, so it is `zero`, and so is the confidence. A blank line is passed over.
pub fn found_line<F: Copy>(text: String, words: Vec<Word<F>>, rect: [F; 4], zero: F) -> (r: Option<
    Line<F>,
>)
    ensures
        r == (if blank(text@) {
            None
        } else {
            Some(Line { t: zero, text, conf: zero, rect, words })
        }),
{
    if is_blank_str(text.as_str()) {
        return None;
    }
    Some(Line { t: zero, text, conf: zero, rect, words })
}

/// The lines of a frame with the frame's time on each.
pub fn stamp<F: Copy>(lines: Vec<Line<F>>, t: F) -> (r: Vec<Line<F>>)
    ensures
        r@.len() == lines@.len(),
        forall|i: int|
            0 <= i < lines@.len() ==> #[trigger] r@[i] == (Line {
                t,
                text: lines@[i].text,
                conf: lines@[i].conf,
                rect: lines@[i].rect,
                words: lines@[i].words,
            }),
{
    let ghost all = lines@;
    let mut rest = lines;
    let mut out: Vec<Line<F>> = Vec::new();
    while rest.len() > 0
        invariant
            rest@.len() + out@.len() == all.len(),
            rest@ == all.skip(out@.len() as int),
            forall|i: int|
                0 <= i < out@.len() ==> #[trigger] out@[i] == (Line {
                    t,
                    text: all[i].text,
                    conf: all[i].conf,
                    rect: all[i].rect,
                    words: all[i].words,
                }),
        decreases rest.len(),
    {
        let ghost before = rest@;
        let line = rest.remove(0);
        assert(before[0] == all[out@.len() as int]);
        assert(rest@ =~= all.skip((out@.len() + 1) as int));
        out.push(
            Line { t, text: line.text, conf: line.conf, rect: line.rect, words: line.words },
        );
    }
    out
}

/// The filter that samples a video: `rate` is the numeral of the sampling rate. A frame that is
/// read at another width is scaled.
pub open spec fn sampling_filter(rate: Seq<char>, width: u32, size: (u32, u32)) -> Seq<char> {
    if size.0 != width {
        "fps="@ + rate + ",scale="@ + decimal(size.0 as nat) + ":"@ + decimal(size.1 as nat)
            + ":flags=lanczos"@
    } else {
        "fps="@ + rate
    }
}

/// The filter names the whole numeral of the rate, and behind it, where the frame is read at another
/// width, the size; nothing else.
pub proof fn a_filter_samples_at_the_rate(rate: Seq<char>, width: u32, size: (u32, u32))
    ensures
        ("fps="@ + rate).is_prefix_of(sampling_filter(rate, width, size)),
        size.0 == width ==> sampling_filter(rate, width, size).len() == "fps="@.len() + rate.len(),
        size.0 != width ==> sampling_filter(rate, width, size).skip(
            ("fps="@.len() + rate.len()) as int,
        ) == ",scale="@ + decimal(size.0 as nat) + ":"@ + decimal(size.1 as nat)
            + ":flags=lanczos"@,
{
    let s = sampling_filter(rate, width, size);
    let head = "fps="@ + rate;
    assert(s.take(head.len() as int) =~= head);
    if size.0 != width {
        assert(s.skip(head.len() as int) =~= ",scale="@ + decimal(size.0 as nat) + ":"@ + decimal(
            size.1 as nat,
        ) + ":flags=lanczos"@);
    }
}

/// Different rates have different filters.
pub proof fn filters_tell_rates_apart(a: Seq<char>, b: Seq<char>, width: u32, size: (u32, u32))
    requires
        sampling_filter(a, width, size) == sampling_filter(b, width, size),
    ensures
        a == b,
{
    let s = sampling_filter(a, width, size);
    let t = sampling_filter(b, width, size);
    let n = "fps="@.len() as int;
    let scale = ",scale="@ + decimal(size.0 as nat) + ":"@ + decimal(size.1 as nat)
        + ":flags=lanczos"@;
    if size.0 != width {
        assert(s =~= "fps="@ + a + scale);
        assert(t =~= "fps="@ + b + scale);
        assert(s.len() == n + a.len() + scale.len());
        assert(t.len() == n + b.len() + scale.len());
    } else {
        assert(s.len() == n + a.len());
        assert(t.len() == n + b.len());
    }
    assert(s.subrange(n, n + a.len()) =~= a);
    assert(t.subrange(n, n + b.len()) =~= b);
}

/// The filter that samples a video.
pub fn filter(rate: &str, width: u32, size: (u32, u32)) -> (r: String)
    ensures
        r@ == sampling_filter(rate@, width, size),
{
    let mut vf = "fps=".to_owned().concat(rate);
    if size.0 != width {
        vf.append(",scale=");
        vf.append(number(size.0 as u64).as_str());
        vf.append(":");
        vf.append(number(size.1 as u64).as_str());
        vf.append(":flags=lanczos");
    }
    vf
}

/// Refuses a sampling rate that is not positive.
pub fn check_rate(not_positive: bool) -> (r: Result<(), Error>)
    ensures
        r is Err <==> not_positive,
        r matches Err(e) ==> e.text() == "sampling rate must be > 0"@,
{
    if not_positive {
        return Err(Error("sampling rate must be > 0".to_owned()));
    }
    Ok(())
}

/// The error of a build without a recogniser.
pub fn unavailable() -> (r: Error)
    ensures
        r.text() == "OCR needs Windows.Media.Ocr; this build is not for Windows"@,
{
    Error("OCR needs Windows.Media.Ocr; this build is not for Windows".to_owned())
}

/// The largest side of an image that the recogniser accepts; where it does not say, 2600.
pub fn max_dim(reported: Option<u32>) -> (r: u32)
    ensures
        r == (match reported {
            Some(n) => n,
            None => 2600,
        }),
{
    match reported {
        Some(n) => n,
        None => 2600,
    }
}

/// A way to get a recogniser.
#[derive(Clone, Copy)]
pub enum Attempt {
    /// By the language asked for.
    Language,
    /// By the languages of the user's profile.
    Profile,
}

/// The way to try next: first the language, where one is asked for, then the user's profile.
pub fn next_attempt(lang: &str, failed: Option<Attempt>) -> (r: Option<Attempt>)
    ensures
        r == (match failed {
            None => Some(
                if blank(lang@) {
                    Attempt::Profile
                } else {
                    Attempt::Language
                },
            ),
            Some(Attempt::Language) => Some(Attempt::Profile),
            Some(Attempt::Profile) => None,
        }),
{
    match failed {
        None => if is_blank_str(lang) {
            Some(Attempt::Profile)
        } else {
            Some(Attempt::Language)
        },
        Some(Attempt::Language) => Some(Attempt::Profile),
        Some(Attempt::Profile) => None,
    }
}

/// The `Debug` text of a string.
pub uninterp spec fn debug_text(s: Seq<char>) -> Seq<char>;

/// `Debug` of `str`: the string in quotes, with escapes; it is only named.
#[verifier::external_body]
fn quoted(s: &str) -> (r: String)
    ensures
        r@ == debug_text(s@),
{
    format!("{s:?}")
}

/// The message for a language without a recogniser: which one, what there is, and where to get
/// it. `name` is the language in quotes.
pub open spec fn no_recognizer_text(name: Seq<char>, installed: Seq<Seq<char>>) -> Seq<char> {
    "no Windows OCR recognizer for "@ + name + ". Installed: ["@ + joined(installed, ", "@)
        + "]. Add one under Settings > Time & language > Language > (language) > Language options > Optional features > Optical character recognition."@
}

/// The message names the language that was asked for and then what is installed, and says where a
/// recogniser can be had.
pub proof fn the_message_names_what_is_missing(name: Seq<char>, installed: Seq<Seq<char>>)
    ensures
        ("no Windows OCR recognizer for "@ + name + ". Installed: ["@ + joined(installed, ", "@)
            + "]. Add one under Settings > "@).is_prefix_of(no_recognizer_text(name, installed)),
        "Optical character recognition."@.is_suffix_of(no_recognizer_text(name, installed)),
{
    let s = no_recognizer_text(name, installed);
    let head = "no Windows OCR recognizer for "@ + name + ". Installed: ["@ + joined(
        installed,
        ", "@,
    );
    let start = "]. Add one under Settings > "@;
    let whole =
        "]. Add one under Settings > Time & language > Language > (language) > Language options > Optional features > Optical character recognition."@;
    let end = "Optical character recognition."@;
    reveal_strlit("]. Add one under Settings > ");
    reveal_strlit(
        "]. Add one under Settings > Time & language > Language > (language) > Language options > Optional features > Optical character recognition.",
    );
    reveal_strlit("Optical character recognition.");
    assert(s =~= head + whole);
    assert(whole.take(start.len() as int) =~= start);
    assert(whole.skip(whole.len() - end.len()) =~= end);
    assert(s.take((head + start).len() as int) =~= head + start);
    assert(s.skip(s.len() - end.len()) =~= end);
}

/// The error for a language without a recogniser.
pub fn no_recognizer(lang: &str, installed: &[String]) -> (r: Error)
    ensures
        r.text() == no_recognizer_text(debug_text(lang@), texts(installed@)),
{
    no_recognizer_named(quoted(lang).as_str(), installed)
}

/// The error for a language without a recogniser, given its name in quotes.
pub fn no_recognizer_named(name: &str, installed: &[String]) -> (r: Error)
    ensures
        r.text() == no_recognizer_text(name@, texts(installed@)),
{
    let mut text = "no Windows OCR recognizer for ".to_owned().concat(name);
    text.append(". Installed: [");
    text.append(join(installed, ", ").as_str());
    text.append(
        "]. Add one under Settings > Time & language > Language > (language) > Language options > Optional features > Optical character recognition.",
    );
    Error(text)
}

/// `num_cpus::get`: the number of processors that the machine offers; nothing is claimed of it.
pub assume_specification[ num_cpus::get ]() -> usize
;

/// How many frames are recognised at a time on a machine with so many processors: one processor is
/// left to the rest of the system, but there is always one worker.
pub open spec fn workers_for(cpus: usize) -> usize {
    if cpus >= 2 {
        (cpus - 1) as usize
    } else {
        1
    }
}

/// Workers and the processor that is left to the system make up the machine, where it has more than
/// one; there is never a machine without a worker.
pub proof fn one_processor_is_left(cpus: usize)
    ensures
        workers_for(cpus) >= 1,
        cpus >= 2 ==> workers_for(cpus) + 1 == cpus,
        cpus < 2 ==> workers_for(cpus) == 1,
{
}

/// How many frames are recognised at a time on a machine with so many processors.
pub fn worker_count(cpus: usize) -> (r: usize)
    ensures
        r == workers_for(cpus),
{
    max(cpus.saturating_sub(1), 1)
}

/// How many frames are recognised at a time on this machine: the workers for the number of
/// processors that `num_cpus::get` returned. There is at least one.
pub fn ocr_workers() -> (r: usize)
    ensures
        r >= 1,
        exists|cpus: usize| call_ensures(num_cpus::get, (), cpus) && r == #[trigger] workers_for(cpus),
{
    worker_count(num_cpus::get())
}

/// The name of a worker's thread.
pub fn worker_name(i: usize) -> (r: String)
    ensures
        r@ == "autoblur-ocr-"@ + decimal(i as nat),
{
    "autoblur-ocr-".to_owned().concat(number(i as u64).as_str())
}

}
