//! Raw frames out of ffmpeg's pipe.

use vstd::prelude::*;

use crate::error::Error;
use crate::text::{
    blank, contains, is_blank_str, occurs, slice_texts, strings, texts, trim, trimmed,
};

verus! {

/// The bytes of a frame: four to a pixel, blue, green, red and alpha.
pub open spec fn frame_size(width: u32, height: u32) -> nat {
    width as nat * height as nat * 4
}

/// How far the stream has been read: the number of the frame that is being put together, and
/// what there is of it.
pub struct Position {
    pub index: nat,
    pub pending: Seq<u8>,
}

/// What comes of another piece of the stream: the new position, and the frame that the piece
/// completes, if it does.
pub open spec fn advance(at: Position, data: Seq<u8>, size: nat) -> (
    Position,
    Option<(nat, Seq<u8>)>,
) {
    let got = at.pending + data;
    if got.len() >= size {
        (
            Position { index: at.index + 1, pending: Seq::empty() },
            Some((at.index, got)),
        )
    } else {
        (Position { index: at.index, pending: got }, None)
    }
}

/// What the reader wants or has, once a piece of the stream has come in.
pub enum Step {
    /// Read at most this many bytes more.
    Read(usize),
    /// A frame is complete: its number, from 0 on, and its bytes.
    Frame(usize, Vec<u8>),
    /// The stream is over. What there was of another frame is discarded.
    End,
}

/// Raw BGRA frames piped out of ffmpeg. Frame `i` is source time `i / rate` exactly. The stream
/// carries no header, so the geometry comes from the caller.
pub struct FrameReader {
    pub width: u32,
    pub height: u32,
    /// The number of the frame that is being put together.
    pub frame: usize,
    /// What there is of it.
    pub pending: Vec<u8>,
}

impl View for FrameReader {
    type V = Position;

    open spec fn view(&self) -> Position {
        Position { index: self.frame as nat, pending: self.pending@ }
    }
}

impl FrameReader {
    /// A frame fits into memory, and no more than a frame is held.
    pub open spec fn wf(&self) -> bool {
        &&& self.size() <= usize::MAX
        &&& self@.pending.len() <= self.size()
    }

    /// The bytes of a frame.
    pub open spec fn size(&self) -> nat {
        frame_size(self.width, self.height)
    }

    /// A reader at the start of the stream.
    pub fn new(width: u32, height: u32) -> (r: Self)
        requires
            frame_size(width, height) <= usize::MAX,
        ensures
            r.wf(),
            r.width == width,
            r.height == height,
            r@ == (Position { index: 0, pending: Seq::empty() }),
    {
        let r = FrameReader { width, height, frame: 0, pending: Vec::new() };
        assert(r@.pending =~= Seq::empty());
        r
    }

    /// Whether a frame of this geometry fits into memory.
    pub fn fits(width: u32, height: u32) -> (r: bool)
        ensures
            r == (frame_size(width, height) <= usize::MAX),
    {
        assert(width as nat * height as nat <= 0xffff_ffff * 0xffff_ffff) by (nonlinear_arith)
            requires
                width <= 0xffff_ffff,
                height <= 0xffff_ffff,
        ;
        width as u128 * height as u128 * 4 <= usize::MAX as u128
    }

    /// The bytes of a frame.
    pub fn frame_bytes(&self) -> (r: usize)
        requires
            self.wf(),
        ensures
            r == self.size(),
            r == 4 * (self.width as nat * self.height as nat),
    {
        assert(self.width as nat * self.height as nat <= self.size());
        self.width as usize * self.height as usize * 4
    }

    /// Starts on the next frame. Nothing is held of a frame that the stream ended in.
    pub fn next_frame(&mut self) -> (r: Step)
        requires
            old(self).wf(),
            old(self)@.index < usize::MAX,
        ensures
            final(self).wf(),
            final(self).width == old(self).width,
            final(self).height == old(self).height,
            r is Read || r is Frame,
            r matches Step::Read(n) ==> n == 4 * (old(self).width as nat * old(self).height as nat),
            r is Frame <==> old(self).width == 0 || old(self).height == 0,
            r matches Step::Frame(n, buf) ==> n == old(self)@.index && buf@.len() == 0,
            ({
                let start = Position { index: old(self)@.index, pending: Seq::empty() };
                let (end, frame) = advance(start, Seq::empty(), old(self).size());
                &&& final(self)@ == end
                &&& match frame {
                    Some((i, bytes)) => r matches Step::Frame(n, buf) && n == i && buf@ == bytes,
                    None => r == Step::Read(old(self).size() as usize),
                }
            }),
    {
        self.pending = Vec::new();
        assert(self.pending@ + Seq::<u8>::empty() =~= self.pending@);
        proof {
            a_pixel_takes_four_bytes(self.width, self.height, 0, 0);
        }
        self.settle()
    }

    /// Takes in what a read brought; nothing at all means that the stream is over.
    pub fn received(&mut self, data: &[u8]) -> (r: Step)
        requires
            old(self).wf(),
            old(self)@.index < usize::MAX,
            old(self)@.pending.len() + data@.len() <= old(self).size(),
        ensures
            final(self).wf(),
            final(self).width == old(self).width,
            final(self).height == old(self).height,
            data@.len() == 0 ==> r is End && final(self)@ == old(self)@,
            data@.len() > 0 ==> r is Read || r is Frame,
            r matches Step::Read(n) ==> {
                &&& n > 0
                &&& final(self)@.index == old(self)@.index
                &&& final(self)@.pending == old(self)@.pending + data@
                &&& n + final(self)@.pending.len() == 4 * (old(self).width as nat * old(
                    self,
                ).height as nat)
            },
            r matches Step::Frame(n, buf) ==> {
                &&& n == old(self)@.index
                &&& final(self)@.index == old(self)@.index + 1
                &&& final(self)@.pending.len() == 0
                &&& buf@ == old(self)@.pending + data@
                &&& buf@.len() == 4 * (old(self).width as nat * old(self).height as nat)
            },
            data@.len() > 0 ==> {
                let (end, frame) = advance(old(self)@, data@, old(self).size());
                &&& final(self)@ == end
                &&& match frame {
                    Some((i, bytes)) => r matches Step::Frame(n, buf) && n == i && buf@ == bytes,
                    None => r == Step::Read((old(self).size() - end.pending.len()) as usize),
                }
            },
    {
        if data.len() == 0 {
            return Step::End;
        }
        self.pending.extend_from_slice(data);
        assert(self.pending@ =~= old(self)@.pending + data@);
        self.settle()
    }

    /// Hands out the frame if it is complete.
    fn settle(&mut self) -> (r: Step)
        requires
            old(self).wf(),
            old(self)@.index < usize::MAX,
        ensures
            final(self).wf(),
            final(self).width == old(self).width,
            final(self).height == old(self).height,
            old(self)@.pending.len() < old(self).size() ==> final(self)@ == old(self)@ && r
                == Step::Read((old(self).size() - old(self)@.pending.len()) as usize),
            old(self)@.pending.len() >= old(self).size() ==> {
                &&& final(self)@ == (Position {
                    index: old(self)@.index + 1,
                    pending: Seq::empty(),
                })
                &&& r matches Step::Frame(n, buf) && n == old(self)@.index && buf@ == old(
                    self,
                )@.pending
            },
    {
        let size = self.frame_bytes();
        if self.pending.len() < size {
            return Step::Read(size - self.pending.len());
        }
        let mut frame: Vec<u8> = Vec::new();
        core::mem::swap(&mut frame, &mut self.pending);
        let i = self.frame;
        self.frame = i + 1;
        assert(self@.pending =~= Seq::empty());
        Step::Frame(i, frame)
    }

    /// Ends the reading, given all that ffmpeg wrote to its error stream: with ffmpeg's error where
    /// it speaks of one.
    pub fn finish(self, stderr: &str) -> (r: Result<(), Error>)
        ensures
            r is Err <==> !blank(stderr@) && occurs(stderr@, "Error"@),
            r matches Err(e) ==> e.text() == "ffmpeg: "@ + trimmed(stderr@),
    {
        if !is_blank_str(stderr) && contains(stderr, "Error") {
            return Err(Error("ffmpeg: ".to_owned().concat(trim(stderr).as_str())));
        }
        Ok(())
    }
}

/// The arguments with which ffmpeg is asked for raw frames of the file at `path`, filtered by
/// `vf`.
pub open spec fn reader_command(path: Seq<char>, vf: Seq<char>) -> Seq<Seq<char>> {
    seq![
        "-hide_banner"@,
        "-loglevel"@,
        "error"@,
        "-nostdin"@,
        "-i"@,
        path,
        "-vf"@,
        vf,
        "-pix_fmt"@,
        "bgra"@,
        "-f"@,
        "rawvideo"@,
        "-"@,
    ]
}

/// The arguments with which ffmpeg is asked for raw frames.
pub fn reader_args(path: &str, vf: &str) -> (r: Vec<String>)
    ensures
        texts(r@) == reader_command(path@, vf@),
{
    let list: [&str; 13] = [
        "-hide_banner",
        "-loglevel",
        "error",
        "-nostdin",
        "-i",
        path,
        "-vf",
        vf,
        "-pix_fmt",
        "bgra",
        "-f",
        "rawvideo",
        "-",
    ];
    assert(slice_texts(list@) =~= reader_command(path@, vf@));
    strings(&list)
}

/// A pixel takes four bytes: a frame is made of all its rows, and in it the bytes of pixel (x, y)
/// are the four from `4 * (y * width + x)` on. A row more makes a frame longer by its pixels.
pub proof fn a_pixel_takes_four_bytes(width: u32, height: u32, x: nat, y: nat)
    ensures
        frame_size(width, height) == 4 * (width as nat * height as nat),
        frame_size(width, height) == 0 <==> width == 0 || height == 0,
        height < u32::MAX ==> frame_size(width, (height + 1) as u32) == frame_size(width, height)
            + 4 * width,
        x < width && y < height ==> 4 * (y * width + x) + 4 <= frame_size(width, height),
        width > 0 && height > 0 ==> 4 * ((height - 1) * width + (width - 1)) + 4 == frame_size(
            width,
            height,
        ),
{
    let w = width as int;
    let h = height as int;
    assert(w * h == 0 <==> w == 0 || h == 0) by (nonlinear_arith);
    assert(w * (h + 1) == w * h + w) by (nonlinear_arith);
    assert((h - 1) * w + w == w * h) by (nonlinear_arith);
    if x < width && y < height {
        assert(y * w + x + 1 <= w * h) by (nonlinear_arith)
            requires
                x + 1 <= w,
                y + 1 <= h,
                0 <= y,
        ;
    }
}

/// A reader stands at the frame that it puts together and holds what there is of it, and that is never
/// more than a frame.
pub proof fn a_reader_stands_at_its_frame(reader: FrameReader)
    ensures
        reader@.index == reader.frame,
        reader@.pending == reader.pending@,
        reader.size() == 4 * (reader.width as nat * reader.height as nat),
        reader.wf() <==> reader.pending@.len() <= reader.size() <= usize::MAX,
{
    a_pixel_takes_four_bytes(reader.width, reader.height, 0, 0);
}

/// ffmpeg reads the file at the path it is given, filters it as it is told, and writes nothing but
/// raw frames of blue, green, red and alpha to the pipe.
pub proof fn the_reader_gets_raw_frames_of_the_file(path: Seq<char>, vf: Seq<char>)
    ensures
        reader_command(path, vf).len() == 13,
        reader_command(path, vf)[4] == "-i"@,
        reader_command(path, vf)[5] == path,
        reader_command(path, vf)[6] == "-vf"@,
        reader_command(path, vf)[7] == vf,
        reader_command(path, vf)[8] == "-pix_fmt"@,
        reader_command(path, vf)[9] == "bgra"@,
        reader_command(path, vf)[10] == "-f"@,
        reader_command(path, vf)[11] == "rawvideo"@,
        reader_command(path, vf).last() == "-"@,
        reader_command(path, vf).take(4) == seq!["-hide_banner"@, "-loglevel"@, "error"@, "-nostdin"@],
{
    assert(reader_command(path, vf).take(4) =~= seq![
        "-hide_banner"@,
        "-loglevel"@,
        "error"@,
        "-nostdin"@,
    ]);
}

/// The bytes of a stream that comes in pieces.
pub open spec fn stream(pieces: Seq<Seq<u8>>) -> Seq<u8>
    decreases pieces.len(),
{
    if pieces.len() == 0 {
        Seq::empty()
    } else {
        stream(pieces.drop_last()) + pieces.last()
    }
}

/// Where the reader stands after the pieces, and the frames that it has handed out.
pub open spec fn read_all(pieces: Seq<Seq<u8>>, size: nat) -> (Position, Seq<(nat, Seq<u8>)>)
    decreases pieces.len(),
{
    if pieces.len() == 0 {
        (Position { index: 0, pending: Seq::empty() }, Seq::empty())
    } else {
        let (at, frames) = read_all(pieces.drop_last(), size);
        let (next, frame) = advance(at, pieces.last(), size);
        (
            next,
            match frame {
                Some(frame) => frames.push(frame),
                None => frames,
            },
        )
    }
}

/// Every piece is no longer than the reader asked for.
pub open spec fn within_requests(pieces: Seq<Seq<u8>>, size: nat) -> bool
    decreases pieces.len(),
{
    pieces.len() == 0 || {
        &&& within_requests(pieces.drop_last(), size)
        &&& read_all(pieces.drop_last(), size).0.pending.len() + pieces.last().len() <= size
    }
}

/// However the stream is cut into reads, frame `i` is its `i`-th stretch of the frame's size,
/// and what is left over at the end is shorter than a frame.
pub proof fn frames_follow_each_other(pieces: Seq<Seq<u8>>, size: nat)
    requires
        size > 0,
        within_requests(pieces, size),
    ensures
        ({
            let (at, frames) = read_all(pieces, size);
            let bytes = stream(pieces);
            &&& at.index == frames.len()
            &&& at.pending.len() < size
            &&& bytes.len() == frames.len() * size + at.pending.len()
            &&& at.pending == bytes.skip((frames.len() * size) as int)
            &&& forall|i: int|
                #![trigger frames[i]]
                0 <= i < frames.len() ==> frames[i].0 == i && frames[i].1 == bytes.subrange(
                    i * size,
                    i * size + size,
                )
        }),
    decreases pieces.len(),
{
    if pieces.len() == 0 {
        assert(Seq::<u8>::empty().skip(0) =~= Seq::empty());
    } else {
        let before = pieces.drop_last();
        let data = pieces.last();
        frames_follow_each_other(before, size);
        let (at, frames) = read_all(before, size);
        let (next, all) = read_all(pieces, size);
        let old_bytes = stream(before);
        let bytes = stream(pieces);
        let n = frames.len();
        assert(n * size + size == (n + 1) * size) by (nonlinear_arith);
        assert forall|i: int| 0 <= i < n implies (#[trigger] frames[i]).0 == i && frames[i].1
            == bytes.subrange(i * size, i * size + size) by {
            assert(i * size + size <= n * size) by (nonlinear_arith)
                requires
                    0 <= i < n,
            ;
            assert(i * size >= 0) by (nonlinear_arith)
                requires
                    0 <= i,
            ;
            assert(bytes.subrange(i * size, i * size + size) =~= old_bytes.subrange(
                i * size,
                i * size + size,
            ));
        }
        assert(at.pending + data =~= bytes.skip((n * size) as int));
        if at.pending.len() + data.len() == size {
            assert(bytes.subrange((n * size) as int, (n * size + size) as int) =~= at.pending + data);
            assert(next.pending =~= bytes.skip(((n + 1) * size) as int));
        }
    }
}

/// A stream that comes in more pieces is what came before, and then them.
pub proof fn a_stream_is_its_pieces_in_order(a: Seq<Seq<u8>>, b: Seq<Seq<u8>>, piece: Seq<u8>)
    ensures
        stream(Seq::empty()) == Seq::<u8>::empty(),
        stream(seq![piece]) == piece,
        stream(a + b) == stream(a) + stream(b),
    decreases b.len(),
{
    reveal_with_fuel(stream, 2);
    assert(seq![piece].drop_last() =~= Seq::<Seq<u8>>::empty());
    assert(stream(seq![piece]) =~= piece);
    if b.len() == 0 {
        assert(a + b =~= a);
        assert(stream(a) + stream(b) =~= stream(a));
    } else {
        assert((a + b).drop_last() =~= a + b.drop_last());
        a_stream_is_its_pieces_in_order(a, b.drop_last(), piece);
        assert(stream(a + b) =~= stream(a) + stream(b));
    }
}

}
