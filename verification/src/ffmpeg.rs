//! Reading what ffmpeg prints: progress, diagnostics and the version line.

use vstd::prelude::*;
use vstd::utf8::{
    decode_utf8, decode_utf8_encode_utf8, decode_utf8_split, encode_utf8, encode_utf8_decode_utf8,
    encode_utf8_valid_utf8, is_char_boundary, is_char_boundary_iff_not_is_continuation_byte,
    is_char_boundary_start_end_of_seq, is_continuation_byte, length_of_first_scalar,
    pop_first_scalar, valid_first_scalar, valid_utf8, valid_utf8_split,
};

use crate::numeral::{float, is_float, numeral_char, numerals_are_made_of_digits_and_letters};
use crate::text::{
    a_separator_parts_the_pieces, a_text_is_parted_at_the_first_place, a_text_without_it_stays_whole,
    a_whole_text_is_one_piece, after, after_first, before, before_first, blank, chars, decimal, is_blank,
    is_white, join, joined, joined_lines_are_parted_again, joining_keeps_every_part, number, occurs,
    pieces, pieces_join_to_the_text, split, string, texts, the_first_place_parts_a_text, trim_chars,
    trim_start, trimmed, trimmed_start, trimmed_start_at, what_was_put_in_is_found, white,
};

verus! {

/// The text that `String::from_utf8_lossy` makes of bytes.
pub uninterp spec fn utf8_lossy(bytes: Seq<u8>) -> Seq<char>;

/// `String::from_utf8_lossy`: bytes that are UTF-8 are decoded; what is made of others is only
/// named.
#[verifier::external_body]
pub(crate) fn decode_lossy(bytes: &[u8]) -> (r: String)
    ensures
        r@ == utf8_lossy(bytes@),
        valid_utf8(bytes@) ==> r@ == decode_utf8(bytes@),
{
    String::from_utf8_lossy(bytes).into_owned()
}

/// The characters that end a line of ffmpeg's output: progress lines end in a bare carriage
/// return.
pub open spec fn breaks() -> Seq<char> {
    seq!['\r', '\n']
}

/// The longest line that is shown in full.
pub const CLIP: usize = 200;

/// The number of lines that are shown.
pub const SHOWN: usize = 12;

/// A line as it is shown: an overlong one is cut and its full length noted.
pub open spec fn clipped(line: Seq<char>) -> Seq<char> {
    if line.len() > CLIP {
        line.take(CLIP as int) + "… ["@ + decimal(line.len())
            + " chars of filtergraph elided]"@
    } else {
        line
    }
}

/// The lines of the output that are not blank.
pub open spec fn visible_lines(tail: Seq<char>) -> Seq<Seq<char>> {
    pieces(tail, breaks()).filter(|line: Seq<char>| !blank(line))
}

/// The lines that are not blank, as they are shown.
pub open spec fn shown_lines(tail: Seq<char>) -> Seq<Seq<char>> {
    visible_lines(tail).map_values(|line: Seq<char>| clipped(line))
}

/// The last `n` items of a list; all of them where there are no more.
pub open spec fn last_of<T>(list: Seq<T>, n: nat) -> Seq<T> {
    if list.len() > n {
        list.skip(list.len() - n)
    } else {
        list
    }
}

/// The message that is made of the end of ffmpeg's output.
pub open spec fn diagnostic(tail: Seq<char>) -> Seq<char> {
    joined(last_of(shown_lines(tail), SHOWN as nat), "\n"@)
}

fn clip(line: &[char]) -> (r: String)
    ensures
        r@ == clipped(line@),
{
    if line.len() > CLIP {
        let mut out = string(vstd::slice::slice_subrange(line, 0, CLIP));
        out.append("… [");
        out.append(number(line.len() as u64).as_str());
        out.append(" chars of filtergraph elided]");
        out
    } else {
        string(line)
    }
}

/// ffmpeg echoes the whole filtergraph back when it rejects one, as a single line thousands of
/// characters long, which shoves the actual diagnostic out of any tail you keep. Each line is
/// clipped so that the message survives.
pub fn readable_error(tail: &str) -> (r: String)
    ensures
        r@ == diagnostic(tail@),
{
    let v = chars(tail);
    let lines = split(v.as_slice(), &['\r', '\n']);
    let ghost all = pieces(tail@, breaks());
    let ghost visible = |line: Seq<char>| !blank(line);
    let ghost show = |line: Seq<char>| clipped(line);
    let mut shown: Vec<String> = Vec::new();
    assert(all.take(0).filter(visible) =~= Seq::empty()) by {
        reveal(Seq::filter);
    }
    for i in 0..lines.len()
        invariant
            visible == (|line: Seq<char>| !blank(line)),
            show == (|line: Seq<char>| clipped(line)),
            lines@.map_values(|v: Vec<char>| v@) == all,
            texts(shown@) == all.take(i as int).filter(visible).map_values(show),
    {
        let line = lines[i].as_slice();
        assert(line@ == all[i as int]);
        assert(all.take(i + 1).drop_last() == all.take(i as int));
        let ghost was = shown@;
        if !is_blank(line) {
            shown.push(clip(line));
            assert(texts(shown@) == texts(was).push(clipped(line@)));
        }
        assert(texts(shown@) =~= all.take(i + 1).filter(visible).map_values(show)) by {
            reveal(Seq::filter);
        }
    }
    assert(all.take(lines.len() as int) == all);
    let from: usize = if shown.len() > SHOWN {
        shown.len() - SHOWN
    } else {
        0
    };
    let kept = vstd::slice::slice_subrange(shown.as_slice(), from, shown.len());
    assert(texts(kept@) == last_of(texts(shown@), SHOWN as nat));
    join(kept, "\n")
}

/// The numerals of a `time=` entry, before they are read as numbers.
pub struct TimeFields {
    pub hours: String,
    pub minutes: String,
    pub seconds: String,
}

/// The word that follows the first `time=` of a line, up to white space or another `time=`;
/// `None` where there is none.
pub open spec fn time_word(line: Seq<char>) -> Option<Seq<char>> {
    match after_first(line, "time="@) {
        Some(rest) => {
            let entry = trimmed_start(before_first(rest, "time="@));
            if entry.len() == 0 {
                None
            } else {
                Some(first_word(entry))
            }
        },
        None => None,
    }
}

/// The text up to the first white space.
pub open spec fn first_word(s: Seq<char>) -> Seq<char>
    decreases s.len(),
{
    if s.len() == 0 || white(s[0]) {
        Seq::empty()
    } else {
        seq![s[0]] + first_word(s.skip(1))
    }
}

proof fn lemma_first_word(s: Seq<char>, n: int)
    requires
        0 <= n <= s.len(),
        forall|i: int| 0 <= i < n ==> !white(#[trigger] s[i]),
        n < s.len() ==> white(s[n]),
    ensures
        first_word(s) == s.take(n),
    decreases n,
{
    if n > 0 {
        assert forall|i: int| 0 <= i < n - 1 implies !white(#[trigger] s.skip(1)[i]) by {
            assert(!white(s[i + 1]));
        }
        lemma_first_word(s.skip(1), n - 1);
        assert(seq![s[0]] + s.skip(1).take(n - 1) == s.take(n));
    } else {
        assert(s.take(0) == Seq::<char>::empty());
    }
}

fn word(s: &[char]) -> (r: &[char])
    ensures
        r@ == first_word(s@),
{
    let mut n: usize = 0;
    while n < s.len() && !is_white(s[n])
        invariant
            n <= s.len(),
            forall|i: int| 0 <= i < n ==> !white(#[trigger] s@[i]),
        decreases s.len() - n,
    {
        n += 1;
    }
    proof {
        lemma_first_word(s@, n as int);
    }
    vstd::slice::slice_subrange(s, 0, n)
}

/// The time that a line reports: three numerals, parted by colons.
pub open spec fn time_of(line: Seq<char>) -> Option<(Seq<char>, Seq<char>, Seq<char>)> {
    match time_word(line) {
        Some(hms) => {
            let parts = pieces(hms, seq![':']);
            if parts.len() >= 3 && float(parts[0]) && float(parts[1]) && float(parts[2]) {
                Some((parts[0], parts[1], parts[2]))
            } else {
                None
            }
        },
        None => None,
    }
}

impl TimeFields {
    /// The three texts.
    pub open spec fn parts(&self) -> (Seq<char>, Seq<char>, Seq<char>) {
        (self.hours@, self.minutes@, self.seconds@)
    }
}

/// The three numerals in `... time=00:01:02.34 ...`: hours, minutes and seconds. They are
/// handed out as text; a line on which one of them is missing, or is no number, has no time.
pub fn parse_time(line: &str) -> (r: Option<TimeFields>)
    ensures
        match r {
            Some(f) => time_of(line@) == Some((f.hours@, f.minutes@, f.seconds@)),
            None => time_of(line@) is None,
        },
{
    let v = chars(line);
    let mark = chars("time=");
    let rest = match after(v.as_slice(), mark.as_slice()) {
        Some(rest) => rest,
        None => return None,
    };
    let entry = trim_start(before(rest, mark.as_slice()));
    if entry.len() == 0 {
        return None;
    }
    let hms = word(entry);
    let colon: [char; 1] = [':'];
    assert(colon@ == seq![':']);
    let fields = split(hms, &colon);
    let ghost parts = pieces(hms@, seq![':']);
    assert(fields@.map_values(|v: Vec<char>| v@) == parts);
    if fields.len() < 3 {
        return None;
    }
    assert(fields@[0]@ == parts[0] && fields@[1]@ == parts[1] && fields@[2]@ == parts[2]);
    if !(is_float(fields[0].as_slice()) && is_float(fields[1].as_slice())
        && is_float(fields[2].as_slice())) {
        return None;
    }
    Some(
        TimeFields {
            hours: string(fields[0].as_slice()),
            minutes: string(fields[1].as_slice()),
            seconds: string(fields[2].as_slice()),
        },
    )
}

/// The version that a tool reports: the first line of what `<tool> -version` printed, or
/// nothing where it could not be run.
pub open spec fn version_line(output: Seq<char>) -> Seq<char> {
    trimmed(before_first(output, "\n"@))
}

/// First line of `<tool> -version`, recorded in the export log. `output` is what the tool
/// printed, or `None` where it could not be run.
pub fn tool_version(output: Option<&[u8]>) -> (r: String)
    ensures
        match output {
            Some(bytes) => {
                &&& r@ == version_line(utf8_lossy(bytes@))
                &&& valid_utf8(bytes@) ==> r@ == version_line(decode_utf8(bytes@))
            },
            None => r@.len() == 0,
        },
{
    match output {
        Some(bytes) => version_of(decode_lossy(bytes).as_str()),
        None => String::new(),
    }
}

/// The version in what `<tool> -version` printed.
pub fn version_of(output: &str) -> (r: String)
    ensures
        r@ == version_line(output@),
{
    let v = chars(output);
    let end = chars("\n");
    string(trim_chars(before(v.as_slice(), end.as_slice())))
}

/// The end of the output is cut back once it is longer than this many bytes,
pub const TAIL_LIMIT: usize = 8000;

/// to this many.
pub const TAIL_KEPT: usize = 4000;

/// Whether `s` is so long that it is cut back.
pub open spec fn overlong(s: Seq<char>) -> bool {
    encode_utf8(s).len() > TAIL_LIMIT
}

/// The first place from `from` on at which a character starts or the text ends.
pub open spec fn next_start(bytes: Seq<u8>, from: int) -> int
    decreases bytes.len() - from,
{
    if from >= bytes.len() || is_char_boundary(bytes, from) {
        from
    } else {
        next_start(bytes, from + 1)
    }
}

/// What is kept of the output once `s` has been seen: an overlong text is cut back to its longest
/// end of at most so many bytes that starts with a whole character.
pub open spec fn kept(s: Seq<char>) -> Seq<char> {
    let bytes = encode_utf8(s);
    if overlong(s) {
        decode_utf8(bytes.skip(next_start(bytes, bytes.len() - TAIL_KEPT)))
    } else {
        s
    }
}

/// A place at which a character starts or the text ends is found, none before it is one.
proof fn lemma_next_start(bytes: Seq<u8>, from: int)
    requires
        valid_utf8(bytes),
        0 <= from <= bytes.len(),
    ensures
        from <= next_start(bytes, from) <= bytes.len(),
        is_char_boundary(bytes, next_start(bytes, from)),
        forall|k: int|
            from <= k < next_start(bytes, from) ==> !#[trigger] is_char_boundary(bytes, k),
    decreases bytes.len() - from,
{
    if from < bytes.len() && !is_char_boundary(bytes, from) {
        lemma_next_start(bytes, from + 1);
    } else if from == bytes.len() {
        is_char_boundary_start_end_of_seq(bytes);
    }
}

/// Of four bytes in a row one starts a character.
proof fn lemma_starts_are_near(bytes: Seq<u8>, i: int)
    requires
        valid_utf8(bytes),
        0 <= i,
        i + 3 < bytes.len(),
    ensures
        exists|k: int| i <= k <= i + 3 && !is_continuation_byte(#[trigger] bytes[k]),
    decreases bytes.len(),
{
    let first = length_of_first_scalar(bytes);
    let rest = pop_first_scalar(bytes);
    if i >= first {
        lemma_starts_are_near(rest, i - first);
        let k = choose|k: int|
            i - first <= k <= i - first + 3 && !is_continuation_byte(#[trigger] rest[k]);
        assert(bytes[k + first] == rest[k]);
    } else if i == 0 {
        assert(!is_continuation_byte(bytes[0]));
    } else {
        assert(valid_utf8(rest) && rest.len() > 0);
        reveal_with_fuel(valid_utf8, 2);
        assert(valid_first_scalar(rest));
        assert(bytes[first] == rest[0]);
        assert(!is_continuation_byte(bytes[first]));
    }
}

/// One line of the encoder's output, with the position that it reports, if any.
pub struct OutputLine {
    pub text: String,
    pub time: Option<TimeFields>,
}

impl OutputLine {
    /// The line is that of the output, with the time that it reports.
    pub open spec fn reads(&self, line: Seq<char>) -> bool {
        &&& self.text@ == line
        &&& match self.time {
            Some(f) => time_of(line) == Some(f.parts()),
            None => time_of(line) is None,
        }
    }
}

/// What the encoder has printed so far: only the end of it is kept.
pub struct EncoderOutput {
    tail: String,
}

impl View for EncoderOutput {
    type V = Seq<char>;

    closed spec fn view(&self) -> Seq<char> {
        self.tail@
    }
}

impl EncoderOutput {
    /// Nothing has been printed yet.
    pub fn new() -> (r: Self)
        ensures
            r@ == Seq::<char>::empty(),
    {
        EncoderOutput { tail: String::new() }
    }

    /// The end of the output.
    pub fn tail(&self) -> (r: &str)
        ensures
            r@ == self@,
    {
        self.tail.as_str()
    }

    /// Takes in another stretch of output and hands out its lines.
    pub fn feed_text(&mut self, text: &str) -> (r: Vec<OutputLine>)
        ensures
            final(self)@ == kept(old(self)@ + text@),
            r.len() == pieces(text@, breaks()).len(),
            forall|i: int|
                0 <= i < r.len() ==> (#[trigger] r[i]).reads(pieces(text@, breaks())[i]),
    {
        let lines = output_lines(text);
        self.tail.append(text);
        let len: usize = self.tail.as_str().as_bytes().len();
        if len > TAIL_LIMIT {
            let ghost all = encode_utf8(self.tail@);
            let ghost from = all.len() - TAIL_KEPT;
            let whole = self.tail.as_str();
            let mut cut: usize = len - TAIL_KEPT;
            proof {
                encode_utf8_valid_utf8(self.tail@);
                lemma_next_start(all, from);
            }
            while !whole.is_char_boundary(cut)
                invariant
                    all == encode_utf8(whole@),
                    cut <= len == all.len(),
                    next_start(all, cut as int) == next_start(all, from),
                    next_start(all, from) <= len,
                    is_char_boundary(all, next_start(all, from)),
                decreases len - cut,
            {
                cut += 1;
            }
            let (_, end) = whole.split_at(cut);
            proof {
                assert(all.subrange(cut as int, all.len() as int) == all.skip(cut as int));
                encode_utf8_decode_utf8(end@);
            }
            let kept_end = end.to_owned();
            self.tail = kept_end;
        }
        lines
    }

    /// Takes in another stretch of output, as the encoder wrote it, and hands out its lines.
    pub fn feed(&mut self, bytes: &[u8]) -> (r: Vec<OutputLine>)
        ensures
            valid_utf8(bytes@) ==> utf8_lossy(bytes@) == decode_utf8(bytes@),
            final(self)@ == kept(old(self)@ + utf8_lossy(bytes@)),
            r.len() == pieces(utf8_lossy(bytes@), breaks()).len(),
            forall|i: int|
                0 <= i < r.len() ==> (#[trigger] r[i]).reads(
                    pieces(utf8_lossy(bytes@), breaks())[i],
                ),
    {
        let text = decode_lossy(bytes);
        self.feed_text(text.as_str())
    }
}

/// The lines of a stretch of output.
fn output_lines(text: &str) -> (r: Vec<OutputLine>)
    ensures
        r.len() == pieces(text@, breaks()).len(),
        forall|i: int| 0 <= i < r.len() ==> (#[trigger] r[i]).reads(pieces(text@, breaks())[i]),
{
    let v = chars(text);
    let ends: [char; 2] = ['\r', '\n'];
    assert(ends@ == breaks());
    let lines = split(v.as_slice(), &ends);
    let ghost all = pieces(text@, breaks());
    let mut out: Vec<OutputLine> = Vec::new();
    for i in 0..lines.len()
        invariant
            lines@.map_values(|v: Vec<char>| v@) == all,
            out.len() == i,
            forall|k: int| 0 <= k < i ==> (#[trigger] out[k]).reads(all[k]),
    {
        let line = string(lines[i].as_slice());
        assert(line@ == all[i as int]);
        let time = parse_time(line.as_str());
        out.push(OutputLine { text: line, time });
    }
    out
}

/// What is kept of the output is the end of it, never longer than the limit. Where it is cut back
/// it is not more than three bytes short of what may be kept, and nothing longer would do: every
/// longer end that may be kept starts inside a character.
pub proof fn the_end_is_kept(s: Seq<char>)
    ensures
        kept(s).is_suffix_of(s),
        encode_utf8(kept(s)).len() <= TAIL_LIMIT,
        overlong(s) ==> TAIL_KEPT - 3 <= encode_utf8(kept(s)).len() <= TAIL_KEPT,
        overlong(s) ==> forall|n: int|
            encode_utf8(kept(s)).len() < n <= TAIL_KEPT ==> !#[trigger] is_char_boundary(
                encode_utf8(s),
                encode_utf8(s).len() - n,
            ),
{
    if overlong(s) {
        let bytes = encode_utf8(s);
        let from = bytes.len() - TAIL_KEPT;
        let cut = next_start(bytes, from);
        let end = bytes.subrange(cut, bytes.len() as int);
        encode_utf8_valid_utf8(s);
        encode_utf8_decode_utf8(s);
        lemma_next_start(bytes, from);
        lemma_starts_are_near(bytes, from);
        let k = choose|k: int| from <= k <= from + 3 && !is_continuation_byte(#[trigger] bytes[k]);
        is_char_boundary_iff_not_is_continuation_byte(bytes, k);
        valid_utf8_split(bytes, cut);
        decode_utf8_split(bytes, cut);
        decode_utf8_encode_utf8(end);
        assert(bytes.skip(cut) =~= end);
        assert(s.skip(s.len() - kept(s).len()) =~= kept(s));
    } else {
        assert(s.skip(0) =~= s);
    }
}

/// The last line that ffmpeg printed ends the message: in full where it is no longer than the
/// clip, whatever came before it.
pub proof fn the_last_line_survives(tail: Seq<char>)
    requires
        visible_lines(tail).len() > 0,
    ensures
        clipped(visible_lines(tail).last()).is_suffix_of(diagnostic(tail)),
        visible_lines(tail).last().len() <= CLIP ==> visible_lines(tail).last().is_suffix_of(
            diagnostic(tail),
        ),
{
    let shown = shown_lines(tail);
    let kept = last_of(shown, SHOWN as nat);
    assert(kept.last() == clipped(visible_lines(tail).last()));
    lemma_joined_suffix(kept, "\n"@);
}

proof fn lemma_joined_suffix(parts: Seq<Seq<char>>, separator: Seq<char>)
    requires
        parts.len() > 0,
    ensures
        parts.last().is_suffix_of(joined(parts, separator)),
{
    let all = joined(parts, separator);
    if parts.len() > 1 {
        let head = joined(parts.drop_last(), separator) + separator;
        assert(all == head + parts.last());
        assert(all.skip(head.len() as int) == parts.last());
    }
}

/// The longest note on the length of a clipped line.
pub const NOTE: usize = 52;

/// However much ffmpeg prints, the message has at most twelve lines of bounded length.
pub proof fn a_diagnostic_is_short(tail: Seq<char>)
    requires
        tail.len() <= u64::MAX,
    ensures
        diagnostic(tail).len() <= SHOWN * (CLIP + NOTE + 1),
{
    let kept = last_of(shown_lines(tail), SHOWN as nat);
    reveal_strlit("\n");
    assert forall|i: int| 0 <= i < kept.len() implies (#[trigger] kept[i]).len() <= CLIP + NOTE by {
        let lines = visible_lines(tail);
        let k = if lines.len() > SHOWN {
            lines.len() - SHOWN + i
        } else {
            i
        };
        assert(kept[i] == clipped(lines[k]));
        lemma_pieces_fit(tail, breaks());
        assert(pieces(tail, breaks()).contains(lines[k])) by {
            lemma_filter_from(pieces(tail, breaks()), |line: Seq<char>| !blank(line), k);
        }
        lemma_clipped_len(lines[k]);
    }
    lemma_joined_len(kept, "\n"@, (CLIP + NOTE) as nat);
    assert(kept.len() * (CLIP + NOTE + 1) <= SHOWN * (CLIP + NOTE + 1)) by (nonlinear_arith)
        requires
            kept.len() <= SHOWN,
    ;
}

proof fn lemma_filter_from<T>(s: Seq<T>, pred: spec_fn(T) -> bool, k: int)
    requires
        0 <= k < s.filter(pred).len(),
    ensures
        s.contains(s.filter(pred)[k]),
    decreases s.len(),
{
    reveal(Seq::filter);
    if s.len() > 0 {
        let before = s.drop_last().filter(pred);
        if k < before.len() {
            lemma_filter_from(s.drop_last(), pred, k);
            let i = choose|i: int| 0 <= i < s.len() - 1 && s.drop_last()[i] == before[k];
            assert(s[i] == before[k]);
        } else {
            assert(s[s.len() - 1] == s.filter(pred)[k]);
        }
    }
}

/// A piece is no longer than what it is a piece of.
proof fn lemma_pieces_fit(s: Seq<char>, separators: Seq<char>)
    ensures
        forall|p: Seq<char>|
            pieces(s, separators).contains(p) ==> #[trigger] p.len() <= s.len(),
    decreases s.len(),
{
    if s.len() > 0 {
        lemma_pieces_fit(s.drop_last(), separators);
        crate::text::some_piece(s.drop_last(), separators);
        let before = pieces(s.drop_last(), separators);
        assert forall|p: Seq<char>| pieces(s, separators).contains(p) implies #[trigger] p.len()
            <= s.len() by {
            let all = pieces(s, separators);
            let i = choose|i: int| 0 <= i < all.len() && all[i] == p;
            if i < before.len() {
                assert(before.contains(before[i]));
            }
        }
    }
}

proof fn lemma_clipped_len(line: Seq<char>)
    requires
        line.len() <= u64::MAX,
    ensures
        clipped(line).len() <= CLIP + NOTE,
{
    reveal_strlit("… [");
    reveal_strlit(" chars of filtergraph elided]");
    crate::text::u64_numerals_are_short(line.len());
}

proof fn lemma_joined_len(parts: Seq<Seq<char>>, separator: Seq<char>, most: nat)
    requires
        separator.len() == 1,
        forall|i: int| 0 <= i < parts.len() ==> (#[trigger] parts[i]).len() <= most,
    ensures
        joined(parts, separator).len() <= parts.len() * (most + 1),
    decreases parts.len(),
{
    if parts.len() > 1 {
        lemma_joined_len(parts.drop_last(), separator, most);
        assert((parts.len() - 1) * (most + 1) + most + 1 == parts.len() * (most + 1))
            by (nonlinear_arith);
    } else if parts.len() == 1 {
        assert(1 * (most + 1) == most + 1);
    }
}

/// A line ends at a carriage return and at a line feed, and nowhere else.
pub proof fn lines_end_at_returns_and_feeds(c: char)
    ensures
        breaks().contains(c) <==> c == '\r' || c == '\n',
{
    assert(breaks()[0] == '\r' && breaks()[1] == '\n');
}

/// A line of at most 200 characters is shown as it is. Of a longer one the first 200 are shown, and
/// behind them how many it has.
pub proof fn a_line_is_clipped_at_200_characters(line: Seq<char>)
    ensures
        line.len() <= 200 ==> clipped(line) == line,
        line.len() > 200 ==> clipped(line).take(200) == line.take(200) && clipped(line).skip(200)
            == "… ["@ + decimal(line.len()) + " chars of filtergraph elided]"@,
{
    if line.len() > 200 {
        let c = clipped(line);
        assert(c.take(200) =~= line.take(200));
        assert(c.skip(200) =~= "… ["@ + decimal(line.len()) + " chars of filtergraph elided]"@);
    }
}

proof fn lemma_filter_parts<T>(a: Seq<T>, b: Seq<T>, pred: spec_fn(T) -> bool)
    ensures
        (a + b).filter(pred) == a.filter(pred) + b.filter(pred),
    decreases b.len(),
{
    reveal(Seq::filter);
    if b.len() == 0 {
        assert(a + b =~= a);
        assert(a.filter(pred) + b.filter(pred) =~= a.filter(pred));
    } else {
        assert((a + b).drop_last() =~= a + b.drop_last());
        lemma_filter_parts(a, b.drop_last(), pred);
        assert((a + b).filter(pred) =~= a.filter(pred) + b.filter(pred));
    }
}

/// Every line is looked at by itself, in its order: one that holds nothing but white space is left
/// out, every other is shown, clipped. `line` is one without an end of line in it; `c` ends one.
pub proof fn only_blank_lines_are_left_out(
    front: Seq<char>,
    c: char,
    back: Seq<char>,
    line: Seq<char>,
)
    requires
        c == '\r' || c == '\n',
        forall|i: int| 0 <= i < line.len() ==> #[trigger] line[i] != '\r' && line[i] != '\n',
    ensures
        shown_lines(line) == (if forall|i: int| 0 <= i < line.len() ==> white(#[trigger] line[i]) {
            Seq::empty()
        } else {
            seq![clipped(line)]
        }),
        shown_lines(front.push(c) + back) == shown_lines(front) + shown_lines(back),
        visible_lines(front.push(c) + back) == visible_lines(front) + visible_lines(back),
{
    let visible = |line: Seq<char>| !blank(line);
    let show = |line: Seq<char>| clipped(line);
    lines_end_at_returns_and_feeds(c);
    assert forall|i: int| 0 <= i < line.len() implies !breaks().contains(#[trigger] line[i]) by {
        lines_end_at_returns_and_feeds(line[i]);
    }
    a_whole_text_is_one_piece(line, breaks());
    a_separator_parts_the_pieces(front, c, back, breaks());
    lemma_filter_parts(pieces(front, breaks()), pieces(back, breaks()), visible);
    let one = seq![line];
    assert(one.drop_last() =~= Seq::<Seq<char>>::empty());
    assert(one.filter(visible) =~= (if visible(line) {
        one
    } else {
        Seq::empty()
    })) by {
        reveal(Seq::filter);
        assert(one.drop_last().filter(visible) =~= Seq::<Seq<char>>::empty());
    }
    assert(visible_lines(line) == one.filter(visible));
    assert(shown_lines(line) =~= (if blank(line) {
        Seq::empty()
    } else {
        seq![clipped(line)]
    }));
    assert((visible_lines(front) + visible_lines(back)).map_values(show) =~= visible_lines(
        front,
    ).map_values(show) + visible_lines(back).map_values(show));
}

/// The message is made of the last twelve lines that are shown, or of all where there are no more,
/// one below the other.
pub proof fn a_diagnostic_shows_the_last_twelve_lines(tail: Seq<char>)
    ensures
        shown_lines(tail).len() <= 12 ==> diagnostic(tail) == joined(shown_lines(tail), "\n"@),
        shown_lines(tail).len() > 12 ==> diagnostic(tail) == joined(
            shown_lines(tail).skip(shown_lines(tail).len() - 12),
            "\n"@,
        ),
{
}

/// Output of short lines, none of them blank, is shown as it was printed: all of it, or its last
/// twelve lines.
pub proof fn short_lines_are_shown_as_they_are(lines: Seq<Seq<char>>)
    requires
        lines.len() > 0,
        forall|i: int| 0 <= i < lines.len() ==> (#[trigger] lines[i]).len() <= 200,
        forall|i: int| 0 <= i < lines.len() ==> !blank(#[trigger] lines[i]),
        forall|i: int, k: int|
            0 <= i < lines.len() && 0 <= k < lines[i].len() ==> #[trigger] lines[i][k] != '\r'
                && lines[i][k] != '\n',
    ensures
        lines.len() <= 12 ==> diagnostic(joined(lines, "\n"@)) == joined(lines, "\n"@),
        lines.len() > 12 ==> diagnostic(joined(lines, "\n"@)) == joined(
            lines.skip(lines.len() - 12),
            "\n"@,
        ),
{
    let visible = |line: Seq<char>| !blank(line);
    reveal_strlit("\n");
    assert("\n"@ =~= seq!['\n']);
    lines_end_at_returns_and_feeds('\n');
    assert forall|i: int, k: int| 0 <= i < lines.len() && 0 <= k < lines[i].len() implies !breaks()
        .contains(#[trigger] lines[i][k]) by {
        lines_end_at_returns_and_feeds(lines[i][k]);
    }
    joined_lines_are_parted_again(lines, '\n', breaks());
    lemma_filter_all(lines, visible);
    assert(shown_lines(joined(lines, "\n"@)) =~= lines);
}

proof fn lemma_filter_all<T>(s: Seq<T>, pred: spec_fn(T) -> bool)
    requires
        forall|i: int| 0 <= i < s.len() ==> pred(#[trigger] s[i]),
    ensures
        s.filter(pred) == s,
    decreases s.len(),
{
    reveal(Seq::filter);
    if s.len() > 0 {
        assert forall|i: int| 0 <= i < s.drop_last().len() implies pred(
            #[trigger] s.drop_last()[i],
        ) by {
            assert(pred(s[i]));
        }
        lemma_filter_all(s.drop_last(), pred);
        assert(pred(s[s.len() - 1]));
        assert(s.drop_last().push(s.last()) =~= s);
    } else {
        assert(s.filter(pred) =~= s);
    }
}

/// The first word goes up to the first white space, or to the end.
proof fn lemma_word_end(s: Seq<char>) -> (n: int)
    ensures
        0 <= n <= s.len(),
        first_word(s) == s.take(n),
        forall|i: int| 0 <= i < n ==> !white(#[trigger] s[i]),
        n < s.len() ==> white(s[n]),
    decreases s.len(),
{
    if s.len() == 0 || white(s[0]) {
        assert(s.take(0) =~= Seq::<char>::empty());
        0
    } else {
        let n = lemma_word_end(s.skip(1));
        assert(seq![s[0]] + s.skip(1).take(n) =~= s.take(n + 1));
        assert forall|i: int| 0 <= i < n + 1 implies !white(#[trigger] s[i]) by {
            if i > 0 {
                assert(s.skip(1)[i - 1] == s[i]);
            }
        }
        if n + 1 < s.len() {
            assert(s.skip(1)[n] == s[n + 1]);
        }
        n + 1
    }
}

/// Three numerals with colons between them.
pub open spec fn clock_text(hours: Seq<char>, minutes: Seq<char>, seconds: Seq<char>) -> Seq<char> {
    hours + ":"@ + minutes + ":"@ + seconds
}

proof fn lemma_clock_text(hours: Seq<char>, minutes: Seq<char>, seconds: Seq<char>)
    requires
        float(hours),
        float(minutes),
        float(seconds),
    ensures
        clock_text(hours, minutes, seconds).len() > 0,
        forall|i: int|
            0 <= i < clock_text(hours, minutes, seconds).len() ==> {
                let c = #[trigger] clock_text(hours, minutes, seconds)[i];
                !white(c) && c != '='
            },
        pieces(clock_text(hours, minutes, seconds), seq![':']) == seq![hours, minutes, seconds],
{
    let parts = seq![hours, minutes, seconds];
    let colon = seq![':'];
    let text = clock_text(hours, minutes, seconds);
    reveal_strlit(":");
    assert(":"@ =~= colon);
    numerals_are_made_of_digits_and_letters(hours);
    numerals_are_made_of_digits_and_letters(minutes);
    numerals_are_made_of_digits_and_letters(seconds);
    assert forall|i: int, k: int| 0 <= i < parts.len() && 0 <= k < parts[i].len() implies !colon
        .contains(#[trigger] parts[i][k]) by {
        assert(numeral_char(parts[i][k]));
    }
    assert(colon[0] == ':');
    joined_lines_are_parted_again(parts, ':', colon);
    reveal_with_fuel(joined, 3);
    assert(parts.drop_last() =~= seq![hours, minutes]);
    assert(seq![hours, minutes].drop_last() =~= seq![hours]);
    assert(joined(parts, colon) =~= text);
    let (h, m) = (hours.len() as int, minutes.len() as int);
    assert forall|i: int| 0 <= i < text.len() implies !white(#[trigger] text[i]) && text[i]
        != '=' by {
        if i < h {
            assert(text[i] == hours[i]);
        } else if i == h || i == h + 1 + m {
            assert(text[i] == ':');
        } else if i < h + 1 + m {
            assert(text[i] == minutes[i - h - 1]);
        } else {
            assert(text[i] == seconds[i - h - m - 2]);
        }
    }
}

/// What may follow the numerals of a time: nothing, white space, a colon, or another `time=`.
pub open spec fn ends_a_time(rest: Seq<char>) -> bool {
    ||| rest.len() == 0
    ||| white(rest[0])
    ||| rest[0] == ':'
    ||| rest.len() >= 5 && rest.take(5) == "time="@
}

/// No `time=` starts in a text without an equals sign that is followed by what may follow a time.
proof fn lemma_no_mark_in(core: Seq<char>, rest: Seq<char>, k: int)
    requires
        forall|i: int| 0 <= i < core.len() ==> #[trigger] core[i] != '=',
        ends_a_time(rest),
        0 <= k < core.len(),
        k + 5 <= core.len() + rest.len(),
    ensures
        (core + rest).subrange(k, k + 5) != "time="@,
{
    reveal_strlit("time=");
    let part = (core + rest).subrange(k, k + 5);
    if k + 4 < core.len() {
        assert(part[4] == core[k + 4]);
    } else {
        assert(part[core.len() - k] == rest[0]);
        if rest.len() >= 5 && rest.take(5) == "time="@ {
            assert(rest.take(5)[0] == rest[0]);
        }
    }
}

/// The time on a line is the three numerals behind its first `time=`, white space before them left
/// out, where the line ends behind them or goes on with white space, a colon or another `time=`.
pub proof fn a_time_stands_behind_its_mark(
    front: Seq<char>,
    gap: Seq<char>,
    hours: Seq<char>,
    minutes: Seq<char>,
    seconds: Seq<char>,
    rest: Seq<char>,
)
    requires
        float(hours),
        float(minutes),
        float(seconds),
        forall|i: int| 0 <= i < gap.len() ==> white(#[trigger] gap[i]),
        ends_a_time(rest),
        ({
            let line = front + "time="@ + (gap + clock_text(hours, minutes, seconds) + rest);
            forall|k: int| 0 <= k < front.len() ==> #[trigger] line.subrange(k, k + 5) != "time="@
        }),
    ensures
        time_of(front + "time="@ + (gap + clock_text(hours, minutes, seconds) + rest)) == Some(
            (hours, minutes, seconds),
        ),
{
    let mark = "time="@;
    let text = clock_text(hours, minutes, seconds);
    let tail = gap + text + rest;
    let line = front + mark + tail;
    reveal_strlit("time=");
    lemma_clock_text(hours, minutes, seconds);
    let at = front.len() as int;
    assert(line.subrange(at, at + 5) =~= mark);
    a_text_is_parted_at_the_first_place(line, mark, at);
    assert(line.skip(at + 5) =~= tail);
    let core = gap + text;
    assert forall|i: int| 0 <= i < core.len() implies #[trigger] core[i] != '=' by {
        if i < gap.len() {
            assert(core[i] == gap[i]);
        } else {
            assert(core[i] == text[i - gap.len()]);
        }
    }
    let entry = before_first(tail, mark);
    let n = core.len() as int;
    let after = lemma_entry(core, rest);
    assert(tail =~= core + rest);
    assert(entry == core + after);
    let kept = trimmed_start_at(entry);
    let g = gap.len() as int;
    assert(entry[g] == text[0]);
    assert(kept == g) by {
        if kept < g {
            assert(entry[kept] == gap[kept]);
        } else if kept > g {
            assert(white(entry[g]));
        }
    }
    let trimmed_entry = entry.skip(g);
    assert(trimmed_entry =~= text + after);
    let end = lemma_word_end(trimmed_entry);
    let t = text.len() as int;
    let word = first_word(trimmed_entry);
    assert(end >= t) by {
        if end < t {
            assert(trimmed_entry[end] == text[end]);
        }
    }
    if end == t {
        assert(word =~= text);
    } else {
        assert(trimmed_entry[t] == after[0]);
        let more = after.subrange(1, end - t);
        let colon = seq![':'];
        assert(colon[0] == ':');
        assert(word =~= text.push(':') + more);
        a_separator_parts_the_pieces(text, ':', more, colon);
    }
}

/// What a line holds up to another `time=`: the part without one, and something that starts with
/// white space or a colon, if anything.
proof fn lemma_entry(core: Seq<char>, rest: Seq<char>) -> (after: Seq<char>)
    requires
        forall|i: int| 0 <= i < core.len() ==> #[trigger] core[i] != '=',
        ends_a_time(rest),
    ensures
        before_first(core + rest, "time="@) == core + after,
        after.len() > 0 ==> white(after[0]) || after[0] == ':',
{
    let mark = "time="@;
    let tail = core + rest;
    let entry = before_first(tail, mark);
    reveal_strlit("time=");
    if occurs(tail, mark) {
        the_first_place_parts_a_text(tail, mark);
        let at = entry.len() as int;
        assert(tail.subrange(at, at + 5) =~= mark);
        if at < core.len() {
            lemma_no_mark_in(core, rest, at);
        }
        let n = core.len() as int;
        let after = rest.take(at - n);
        assert(entry =~= tail.take(at));
        assert(entry =~= core + after);
        if rest.len() >= 5 && rest.take(5) == mark && at > n {
            assert(tail.subrange(n, n + 5) =~= rest.take(5));
        }
        after
    } else {
        if rest.len() >= 5 && rest.take(5) == mark {
            what_was_put_in_is_found(core, mark, rest.skip(5));
            assert(core + mark + rest.skip(5) =~= tail);
        }
        rest
    }
}

/// A line without `time=` has no time.
pub proof fn a_line_without_the_mark_has_no_time(line: Seq<char>)
    requires
        forall|k: int| 0 <= k <= line.len() - 5 ==> #[trigger] line.subrange(k, k + 5) != "time="@,
    ensures
        time_of(line) is None,
{
    reveal_strlit("time=");
    a_text_without_it_stays_whole(line, "time="@);
}

/// A text with two colons or more starts with its first three pieces.
proof fn lemma_three_pieces(word: Seq<char>) -> (rest: Seq<char>)
    requires
        pieces(word, seq![':']).len() >= 3,
    ensures
        ({
            let parts = pieces(word, seq![':']);
            word == clock_text(parts[0], parts[1], parts[2]) + rest
        }),
        rest.len() > 0 ==> rest[0] == ':',
{
    let colon = seq![':'];
    let parts = pieces(word, colon);
    let three = parts.take(3);
    let more = parts.skip(3);
    reveal_strlit(":");
    assert(":"@ =~= colon);
    pieces_join_to_the_text(word, ':');
    assert(joined(three, colon) =~= clock_text(parts[0], parts[1], parts[2])) by {
        reveal_with_fuel(joined, 3);
        assert(three.drop_last() =~= seq![parts[0], parts[1]]);
        assert(three.drop_last().drop_last() =~= seq![parts[0]]);
    }
    if more.len() > 0 {
        joining_keeps_every_part(three, more, parts[0], colon);
        assert(three + more =~= parts);
        let rest = colon + joined(more, colon);
        assert(word =~= joined(three, colon) + rest);
        rest
    } else {
        assert(three =~= parts);
        assert(word =~= joined(three, colon) + Seq::<char>::empty());
        Seq::empty()
    }
}

/// What stands behind a `time=`: white space, the first word, and the rest.
proof fn lemma_behind_mark(tail: Seq<char>) -> (r: (Seq<char>, Seq<char>, Seq<char>))
    ensures
        tail == r.0 + r.1 + r.2,
        forall|i: int| 0 <= i < r.0.len() ==> white(#[trigger] r.0[i]),
        r.1 == first_word(trimmed_start(before_first(tail, "time="@))),
        ends_a_time(r.2),
{
    let mark = "time="@;
    let entry = before_first(tail, mark);
    let behind = if occurs(tail, mark) {
        the_first_place_parts_a_text(tail, mark);
        mark + after_first(tail, mark)->0
    } else {
        Seq::empty()
    };
    assert(tail =~= entry + behind);
    let g = trimmed_start_at(entry);
    let gap = entry.take(g);
    let kept = entry.skip(g);
    let end = lemma_word_end(kept);
    let word = kept.take(end);
    let rest = kept.skip(end) + behind;
    assert(tail =~= gap + word + rest);
    if end < kept.len() {
        assert(rest[0] == kept[end]);
    } else if behind.len() > 0 {
        reveal_strlit("time=");
        assert(rest.take(5) =~= mark);
    }
    assert forall|i: int| 0 <= i < gap.len() implies white(#[trigger] gap[i]) by {
        assert(gap[i] == entry[i]);
    }
    (gap, word, rest)
}

/// A time that is found stands on the line: behind a `time=`, with nothing but white space before it,
/// as three numerals with colons between them.
pub proof fn a_time_that_is_found_stands_on_the_line(line: Seq<char>) -> (r: (
    Seq<char>,
    Seq<char>,
    Seq<char>,
))
    requires
        time_of(line) is Some,
    ensures
        ({
            let (hours, minutes, seconds) = time_of(line)->0;
            let (front, gap, rest) = r;
            &&& line == front + "time="@ + (gap + clock_text(hours, minutes, seconds) + rest)
            &&& float(hours) && float(minutes) && float(seconds)
            &&& forall|i: int| 0 <= i < gap.len() ==> white(#[trigger] gap[i])
            &&& forall|k: int| 0 <= k < front.len() ==> #[trigger] line.subrange(k, k + 5) != "time="@
            &&& ends_a_time(rest)
        }),
{
    let mark = "time="@;
    let (hours, minutes, seconds) = time_of(line)->0;
    reveal_strlit("time=");
    if !occurs(line, mark) {
        assert(after_first(line, mark) is None);
    }
    the_first_place_parts_a_text(line, mark);
    let front = before_first(line, mark);
    let tail = after_first(line, mark)->0;
    let (gap, word, behind) = lemma_behind_mark(tail);
    assert(time_word(line) == Some(word));
    let more = lemma_three_pieces(word);
    let text = clock_text(hours, minutes, seconds);
    let rest = more + behind;
    assert(gap + (text + more) + behind =~= gap + text + rest);
    if more.len() > 0 {
        assert(rest[0] == more[0]);
    } else {
        assert(rest =~= behind);
    }
    (front, gap, rest)
}

/// A version is the first line, without white space at its ends.
pub proof fn a_version_is_the_first_line(line: Seq<char>, rest: Seq<char>)
    requires
        forall|i: int| 0 <= i < line.len() ==> #[trigger] line[i] != '\n',
    ensures
        version_line(line) == trimmed(line),
        version_line(line.push('\n') + rest) == trimmed(line),
{
    let end = "\n"@;
    let all = line.push('\n') + rest;
    reveal_strlit("\n");
    assert forall|k: int| 0 <= k <= line.len() - 1 implies #[trigger] line.subrange(k, k + 1)
        != end by {
        assert(line.subrange(k, k + 1)[0] == line[k]);
    }
    a_text_without_it_stays_whole(line, end);
    let at = line.len() as int;
    assert(all.subrange(at, at + 1) =~= end);
    assert forall|k: int| 0 <= k < at implies #[trigger] all.subrange(k, k + 1) != end by {
        assert(all.subrange(k, k + 1)[0] == line[k]);
    }
    a_text_is_parted_at_the_first_place(all, end, at);
    assert(all.take(at) =~= line);
}

/// Output of up to 8000 bytes is kept in full; of more, an end of at most 4000 bytes and at least
/// 3997.
pub proof fn output_is_kept_up_to_8000_bytes(s: Seq<char>)
    ensures
        encode_utf8(s).len() <= 8000 ==> kept(s) == s,
        encode_utf8(s).len() > 8000 ==> 3997 <= encode_utf8(kept(s)).len() <= 4000,
        kept(s).is_suffix_of(s),
{
    the_end_is_kept(s);
}

/// A line that is handed out has the text of the line, and its time exactly where the line has one.
pub proof fn a_line_is_handed_out_as_it_is(out: OutputLine, line: Seq<char>)
    requires
        out.reads(line),
    ensures
        out.text@ == line,
        out.time is Some <==> time_of(line) is Some,
        out.time is Some ==> {
            let (hours, minutes, seconds) = time_of(line)->0;
            &&& out.time->0.hours@ == hours
            &&& out.time->0.minutes@ == minutes
            &&& out.time->0.seconds@ == seconds
        },
{
}

}
