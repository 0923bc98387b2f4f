//! Text encodings: UTF-8 first, GBK where the bytes are not UTF-8.
use vstd::prelude::*;
use vstd::utf8::valid_utf8;

verus! {

/// The encoding of a file's text.
#[derive(Debug, Clone, Copy, PartialEq, Eq, Structural)]
pub enum Encoding {
    Utf8,
    Gbk,
}

/// The most bytes that are decoded in one piece.
pub const DECODE_LIMIT: usize = 0x1000_0000;

/// The bytes at the start of a file that its encoding is told from.
pub const HEAD_BYTES: usize = 4096;

/// What `String::from_utf8_lossy` makes of bytes.
pub uninterp spec fn utf8_lossy(bytes: Seq<u8>) -> Seq<char>;

/// What `encoding_rs::GBK` makes of bytes, a byte order mark taken into
/// account.
pub uninterp spec fn gbk_text(bytes: Seq<u8>) -> Seq<char>;

/// Whether bytes end inside a character: they are not UTF-8, but with more bytes
/// behind them they are.
pub open spec fn utf8_cut_short(bytes: Seq<u8>) -> bool {
    &&& !valid_utf8(bytes)
    &&& exists|more: Seq<u8>| valid_utf8(#[trigger] (bytes + more))
}

/// How bytes stand to UTF-8.
#[derive(Debug, Clone, Copy, PartialEq, Eq, Structural)]
pub enum Utf8Check {
    Valid,
    /// Valid but for a character that the end of the bytes cuts off.
    CutShort,
    Invalid,
}

/// Calls `std::str::from_utf8`. It accepts exactly valid UTF-8; an error
/// without an `error_len` means that the bytes end inside a character, and
/// that more bytes can make it whole.
#[verifier::external_body]
fn check_utf8(bytes: &[u8]) -> (r: Utf8Check)
    ensures
        r == (if valid_utf8(bytes@) {
            Utf8Check::Valid
        } else if utf8_cut_short(bytes@) {
            Utf8Check::CutShort
        } else {
            Utf8Check::Invalid
        }),
{
    match std::str::from_utf8(bytes) {
        Ok(_) => Utf8Check::Valid,
        Err(e) => match e.error_len() {
            None => Utf8Check::CutShort,
            Some(_) => Utf8Check::Invalid,
        },
    }
}

/// Calls `String::from_utf8_lossy`. Valid UTF-8 comes out as its characters;
/// what stands in for invalid bytes is part of `utf8_lossy`.
#[verifier::external_body]
pub(crate) fn decode_utf8_lossy(bytes: &[u8]) -> (r: String)
    ensures
        r@ == utf8_lossy(bytes@),
        valid_utf8(bytes@) ==> r@ == vstd::utf8::decode_utf8(bytes@),
{
    String::from_utf8_lossy(bytes).into_owned()
}

/// Calls `encoding_rs::Encoding::decode` on `encoding_rs::GBK`, which is
/// defined for all bytes. It panics where the size of its buffer overflows, so
/// the length is bounded.
#[verifier::external_body]
pub(crate) fn decode_gbk(bytes: &[u8]) -> (r: String)
    requires
        bytes@.len() <= DECODE_LIMIT,
    ensures
        r@ == gbk_text(bytes@),
{
    encoding_rs::GBK.decode(bytes).0.into_owned()
}

/// The text of bytes in an encoding.
pub open spec fn text_of(encoding: Encoding, bytes: Seq<u8>) -> Seq<char> {
    match encoding {
        Encoding::Utf8 => utf8_lossy(bytes),
        Encoding::Gbk => gbk_text(bytes),
    }
}

/// Whether bytes start with the UTF-8 byte order mark.
pub open spec fn has_bom(head: Seq<u8>) -> bool {
    head.len() >= 3 && head[0] == 0xEF && head[1] == 0xBB && head[2] == 0xBF
}

/// The encoding that the start of a file shows: GBK exactly where bytes that
/// are not UTF-8 stand in it.
pub open spec fn encoding_of(head: Seq<u8>) -> Encoding {
    if has_bom(head) || valid_utf8(head) || utf8_cut_short(head) {
        Encoding::Utf8
    } else {
        Encoding::Gbk
    }
}

/// Tells the encoding from the first bytes of a file.
pub fn detect_encoding(head: &[u8]) -> (r: Encoding)
    ensures
        r == encoding_of(head@),
{
    if head.len() >= 3 && head[0] == 0xEF && head[1] == 0xBB && head[2] == 0xBF {
        return Encoding::Utf8;
    }
    encoding_from_check(check_utf8(head))
}

/// The encoding for bytes without a byte order mark, from how they stand to
/// UTF-8.
pub fn encoding_from_check(check: Utf8Check) -> (r: Encoding)
    ensures
        r == (match check {
            Utf8Check::Valid => Encoding::Utf8,
            Utf8Check::CutShort => Encoding::Utf8,
            Utf8Check::Invalid => Encoding::Gbk,
        }),
{
    match check {
        Utf8Check::Valid => Encoding::Utf8,
        Utf8Check::CutShort => Encoding::Utf8,
        Utf8Check::Invalid => Encoding::Gbk,
    }
}

impl Encoding {
    /// Decodes a piece of the file; bytes that do not fit come out as
    /// replacement characters.
    pub fn decode(self, bytes: &[u8]) -> (r: String)
        requires
            bytes@.len() <= DECODE_LIMIT,
        ensures
            r@ == text_of(self, bytes@),
    {
        match self {
            Encoding::Utf8 => decode_utf8_lossy(bytes),
            Encoding::Gbk => decode_gbk(bytes),
        }
    }

    /// The encoding's name as a search is given it.
    pub fn label(self) -> (r: &'static str)
        ensures
            r@ == self.name(),
    {
        match self {
            Encoding::Utf8 => "utf-8",
            Encoding::Gbk => "gbk",
        }
    }

    pub open spec fn name(self) -> Seq<char> {
        match self {
            Encoding::Utf8 => "utf-8"@,
            Encoding::Gbk => "gbk"@,
        }
    }
}

/// The start of a text in UTF-8 is taken for UTF-8, wherever it is cut off.
pub proof fn law_start_of_utf8_is_utf8(all: Seq<u8>, n: int)
    requires
        valid_utf8(all),
        0 <= n <= all.len(),
    ensures
        encoding_of(all.take(n)) == Encoding::Utf8,
{
    assert(all.take(n) + all.skip(n) =~= all);
}

/// The encoding is told from the bytes: a mark for UTF-8 settles it, bytes of UTF-8
/// are UTF-8, and bytes that no text in UTF-8 starts with are not.
pub proof fn law_encoding_is_told_from_the_bytes(head: Seq<u8>)
    ensures
        head.len() >= 3 && head[0] == 0xEF && head[1] == 0xBB && head[2] == 0xBF ==> encoding_of(
            head,
        ) == Encoding::Utf8,
        valid_utf8(head) ==> encoding_of(head) == Encoding::Utf8,
        !(head.len() >= 3 && head[0] == 0xEF && head[1] == 0xBB && head[2] == 0xBF) && (forall|
            more: Seq<u8>,
        |
            !valid_utf8(#[trigger] (head + more))) ==> encoding_of(head) == Encoding::Gbk,
{
    assert(head + Seq::<u8>::empty() =~= head);
}

} // verus!
