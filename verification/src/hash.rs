//! The hash that anchors every result to the file it was made from.

use vstd::prelude::*;

use crate::frames::stream;

verus! {

#[verifier::external_type_specification]
#[verifier::external_body]
pub struct ExSha256(sha2::Sha256);

/// The bytes that a hasher has taken in.
pub uninterp spec fn absorbed(hasher: sha2::Sha256) -> Seq<u8>;

/// The SHA-256 digest of a sequence of bytes.
pub uninterp spec fn sha256(bytes: Seq<u8>) -> Seq<u8>;

/// SHA-256 counts the bits of its input in 64 bits, so the input has fewer bytes than this.
pub const INPUT_LIMIT: u64 = 0x2000_0000_0000_0000;

/// `Digest::new` of `Sha256`: a hasher that has taken in nothing.
#[verifier::external_body]
fn sha256_new() -> (r: sha2::Sha256)
    ensures
        absorbed(r) == Seq::<u8>::empty(),
{
    sha2::Digest::new()
}

/// `Digest::update` of `Sha256`: the bytes are taken in behind those before them.
#[verifier::external_body]
fn sha256_update(hasher: &mut sha2::Sha256, data: &[u8])
    requires
        absorbed(*old(hasher)).len() + data@.len() < INPUT_LIMIT,
    ensures
        absorbed(*final(hasher)) == absorbed(*old(hasher)) + data@,
{
    sha2::Digest::update(hasher, data);
}

/// `Digest::finalize` of `Sha256`: the digest of all that was taken in, 32 bytes.
#[verifier::external_body]
fn sha256_finalize(hasher: sha2::Sha256) -> (r: [u8; 32])
    requires
        absorbed(hasher).len() < INPUT_LIMIT,
    ensures
        r@ == sha256(absorbed(hasher)),
{
    sha2::Digest::finalize(hasher).into()
}

/// The character of a hexadecimal digit.
pub open spec fn hex_digit(d: int) -> char {
    if d < 10 {
        (d + 48) as char
    } else {
        (d + 87) as char
    }
}

/// Bytes in lower-case hexadecimal, two digits to a byte.
pub open spec fn hex(bytes: Seq<u8>) -> Seq<char> {
    Seq::new(
        2 * bytes.len(),
        |i: int|
            hex_digit(
                if i % 2 == 0 {
                    bytes[i / 2] as int / 16
                } else {
                    bytes[i / 2] as int % 16
                },
            ),
    )
}

proof fn lemma_hex_digit(x: int, y: int)
    requires
        0 <= x < 16,
        0 <= y < 16,
        hex_digit(x) == hex_digit(y),
    ensures
        x == y,
{
    assert(hex_digit(x) as u32 == (if x < 10 {
        x + 48
    } else {
        x + 87
    }));
    assert(hex_digit(y) as u32 == (if y < 10 {
        y + 48
    } else {
        y + 87
    }));
}

/// Different bytes have different hexadecimal texts.
pub proof fn hex_is_injective(a: Seq<u8>, b: Seq<u8>)
    requires
        hex(a) == hex(b),
    ensures
        a == b,
{
    assert(hex(a).len() == 2 * a.len() && hex(b).len() == 2 * b.len());
    assert forall|i: int| 0 <= i < a.len() implies a[i] == b[i] by {
        lemma_hex_at(a, i);
        lemma_hex_at(b, i);
        lemma_hex_digit(a[i] as int / 16, b[i] as int / 16);
        lemma_hex_digit(a[i] as int % 16, b[i] as int % 16);
    }
    assert(a =~= b);
}

/// A file has one hash: the same bytes have the same, and two files with the same hash have the same
/// digest.
pub proof fn a_file_has_one_hash(a: Seq<u8>, b: Seq<u8>)
    ensures
        a == b ==> hex(sha256(a)) == hex(sha256(b)),
        hex(sha256(a)) == hex(sha256(b)) <==> sha256(a) == sha256(b),
{
    if hex(sha256(a)) == hex(sha256(b)) {
        hex_is_injective(sha256(a), sha256(b));
    }
}

/// A byte is written as two digits, the high half first, and bytes are written one after the other.
pub proof fn bytes_are_written_high_half_first(a: Seq<u8>, b: Seq<u8>, byte: u8)
    ensures
        hex(seq![byte]) == seq![
            "0123456789abcdef"@[byte as int / 16],
            "0123456789abcdef"@[byte as int % 16],
        ],
        hex(a + b) == hex(a) + hex(b),
{
    reveal_strlit("0123456789abcdef");
    assert forall|d: int| 0 <= d < 16 implies #[trigger] hex_digit(d) == "0123456789abcdef"@[d] by {}
    assert(hex(seq![byte]) =~= seq![
        hex_digit(byte as int / 16),
        hex_digit(byte as int % 16),
    ]);
    assert forall|i: int| 0 <= i < 2 * b.len() implies hex(a + b)[2 * a.len() + i] == #[trigger] hex(
        b,
    )[i] by {
        assert((2 * a.len() + i) / 2 == a.len() + i / 2);
        assert((2 * a.len() + i) % 2 == i % 2);
    }
    assert forall|i: int| 0 <= i < 2 * a.len() implies hex(a + b)[i] == #[trigger] hex(a)[i] by {
        assert(i / 2 < a.len());
    }
    assert(hex(a + b) =~= hex(a) + hex(b)) by {
        assert forall|k: int| 0 <= k < 2 * (a.len() + b.len()) implies hex(a + b)[k] == (hex(a)
            + hex(b))[k] by {
            if k >= 2 * a.len() {
                assert(hex(a + b)[2 * a.len() + (k - 2 * a.len())] == hex(b)[k - 2 * a.len()]);
            } else {
                assert(hex(a + b)[k] == hex(a)[k]);
            }
        }
    }
}

/// However a file is cut into reads, its hash is that of all its bytes: `read` is what has been
/// taken in before the first read, after it, and so on.
pub proof fn reads_add_up(read: Seq<Seq<u8>>, pieces: Seq<Seq<u8>>)
    requires
        read.len() == pieces.len() + 1,
        read[0] == Seq::<u8>::empty(),
        forall|i: int| 0 <= i < pieces.len() ==> read[i + 1] == read[i] + #[trigger] pieces[i],
    ensures
        read.last() == stream(pieces),
        hex(sha256(read.last())) == hex(sha256(stream(pieces))),
    decreases pieces.len(),
{
    if pieces.len() > 0 {
        let n = pieces.len() - 1;
        let before = pieces.drop_last();
        assert forall|i: int| 0 <= i < before.len() implies read.drop_last()[i + 1]
            == read.drop_last()[i] + #[trigger] before[i] by {
            assert(read[i + 1] == read[i] + pieces[i]);
        }
        reads_add_up(read.drop_last(), before);
        assert(read[n + 1] == read[n] + pieces[n]);
    }
}

proof fn lemma_hex_range(bytes: Seq<u8>, i: int)
    requires
        0 <= i < 2 * bytes.len(),
    ensures
        '0' <= hex(bytes)[i] <= '9' || 'a' <= hex(bytes)[i] <= 'f',
{
    let d = if i % 2 == 0 {
        bytes[i / 2] as int / 16
    } else {
        bytes[i / 2] as int % 16
    };
    assert(0 <= d < 16);
    assert(hex(bytes)[i] == hex_digit(d));
}

proof fn lemma_hex_at(bytes: Seq<u8>, i: int)
    requires
        0 <= i < bytes.len(),
    ensures
        hex(bytes)[2 * i] == hex_digit(bytes[i] as int / 16),
        hex(bytes)[2 * i + 1] == hex_digit(bytes[i] as int % 16),
{
    assert((2 * i) / 2 == i && (2 * i + 1) / 2 == i);
    assert((2 * i) % 2 == 0 && (2 * i + 1) % 2 == 1);
}

fn hex_char(d: u8) -> (c: char)
    requires
        d < 16,
    ensures
        c == hex_digit(d as int),
{
    if d < 10 {
        (48 + d) as char
    } else {
        (87 + d) as char
    }
}

fn hex_string(bytes: &[u8]) -> (r: String)
    ensures
        r@ == hex(bytes@),
{
    let mut out = String::new();
    for i in 0..bytes.len()
        invariant
            out@ == hex(bytes@.take(i as int)),
    {
        let ghost before = out@;
        out.push(hex_char(bytes[i] / 16));
        out.push(hex_char(bytes[i] % 16));
        assert(out@ =~= hex(bytes@.take(i + 1))) by {
            assert(hex(bytes@.take(i + 1)).len() == before.len() + 2);
            assert((2 * i) / 2 == i && (2 * i + 1) / 2 == i);
            assert((2 * i) % 2 == 0 && (2 * i + 1) % 2 == 1);
        }
    }
    assert(bytes@.take(bytes.len() as int) == bytes@);
    out
}

/// The hash of a file that is read piece by piece.
pub struct FileHash {
    hasher: sha2::Sha256,
    len: u64,
}

impl View for FileHash {
    type V = Seq<u8>;

    /// The bytes read so far.
    closed spec fn view(&self) -> Seq<u8> {
        absorbed(self.hasher)
    }
}

impl FileHash {
    pub closed spec fn wf(&self) -> bool {
        &&& self.len == absorbed(self.hasher).len()
        &&& self.len < INPUT_LIMIT
    }

    /// Nothing has been read yet.
    pub fn new() -> (r: Self)
        ensures
            r.wf(),
            r@ == Seq::<u8>::empty(),
    {
        FileHash { hasher: sha256_new(), len: 0 }
    }

    /// Whether `n` more bytes stay below the limit of the hash.
    pub fn fits(&self, n: usize) -> (r: bool)
        requires
            self.wf(),
        ensures
            r == (self@.len() + n < INPUT_LIMIT),
            r == (self@.len() + n < 0x2000_0000_0000_0000),
    {
        (n as u64) < INPUT_LIMIT - self.len
    }

    /// The next piece of the file.
    pub fn update(&mut self, data: &[u8])
        requires
            old(self).wf(),
            old(self)@.len() + data@.len() < INPUT_LIMIT,
        ensures
            final(self).wf(),
            final(self)@ == old(self)@ + data@,
    {
        sha256_update(&mut self.hasher, data);
        self.len = self.len + data.len() as u64;
    }

    /// The hash of what was read, as 64 hexadecimal digits.
    pub fn finish(self) -> (r: String)
        requires
            self.wf(),
        ensures
            r@ == hex(sha256(self@)),
            r@.len() == 64,
            forall|i: int|
                0 <= i < 64 ==> '0' <= #[trigger] r@[i] <= '9' || 'a' <= r@[i] <= 'f',
    {
        let digest = sha256_finalize(self.hasher);
        let r = hex_string(&digest);
        assert forall|i: int| 0 <= i < 64 implies '0' <= #[trigger] r@[i] <= '9' || 'a' <= r@[i]
            <= 'f' by {
            lemma_hex_range(digest@, i);
        }
        r
    }
}

}
