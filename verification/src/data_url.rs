//! Data URLs: binary data as `data:<mime type>;base64,<payload>`.
use crate::text::{chars_of, text_of};
use base64::Engine;
use vstd::prelude::*;

verus! {

/// Why a payload is not valid base64.
#[derive(Clone, Copy, Debug, PartialEq, Eq)]
pub enum Base64Error {
    /// A byte outside the alphabet, with its offset and the byte.
    InvalidByte(usize, u8),
    /// The length of the text fits no encoding.
    InvalidLength,
    /// The last symbol holds bits that no input gives, with its offset and
    /// the byte.
    InvalidLastSymbol(usize, u8),
    /// Padding is missing or misplaced.
    InvalidPadding,
}

/// Why a data URL gives no data.
#[derive(Clone, Copy, Debug, PartialEq, Eq)]
pub enum DataUrlError {
    /// The text does not hold `;base64,`.
    MissingMarker,
    /// What follows `;base64,` is not valid base64.
    InvalidPayload(Base64Error),
}

/// The standard base64 encoding, with padding, of the bytes.
pub uninterp spec fn base64_text(data: Seq<u8>) -> Seq<char>;

/// What decoding the text as standard base64 with padding gives: the bytes,
/// or the reason why there are none.
pub uninterp spec fn base64_decoded(text: Seq<char>) -> Result<Seq<u8>, Base64Error>;

/// The number of characters that the encoding of `len` bytes takes.
pub open spec fn encoded_len(len: nat) -> nat {
    (len + 2) / 3 * 4
}

/// The length of the marker `;base64,`.
pub const MARKER_LEN: usize = 8;

/// Whether `;base64,` stands at index `i` of the text.
pub open spec fn has_marker_at(s: Seq<char>, i: int) -> bool {
    &&& 0 <= i
    &&& i + MARKER_LEN <= s.len()
    &&& s[i] == ';'
    &&& s[i + 1] == 'b'
    &&& s[i + 2] == 'a'
    &&& s[i + 3] == 's'
    &&& s[i + 4] == 'e'
    &&& s[i + 5] == '6'
    &&& s[i + 6] == '4'
    &&& s[i + 7] == ','
}

/// The first index from `from` on at which `;base64,` stands, if any.
pub open spec fn find_marker(s: Seq<char>, from: int) -> Option<int>
    decreases s.len() - from,
{
    if from < 0 || from + MARKER_LEN > s.len() {
        None
    } else if has_marker_at(s, from) {
        Some(from)
    } else {
        find_marker(s, from + 1)
    }
}

/// The payload of a data URL: what follows the first `;base64,`.
pub open spec fn payload_of(s: Seq<char>) -> Option<Seq<char>> {
    match find_marker(s, 0) {
        Some(i) => Some(s.skip(i + MARKER_LEN)),
        None => None,
    }
}

/// The data URL of a mime type and an encoded payload.
pub open spec fn data_url_text(mime_type: Seq<char>, payload: Seq<char>) -> Seq<char> {
    seq!['d', 'a', 't', 'a', ':'] + mime_type + seq![';', 'b', 'a', 's', 'e', '6', '4', ','] + payload
}

/// In a data URL whose mime type holds no `;`, the first marker is the one
/// that the URL was put together with.
proof fn lemma_marker_of_data_url(mime_type: Seq<char>, payload: Seq<char>, from: int)
    requires
        forall|i: int| 0 <= i < mime_type.len() ==> mime_type[i] != ';',
        0 <= from <= 5 + mime_type.len(),
    ensures
        find_marker(data_url_text(mime_type, payload), from) == Some(5 + mime_type.len() as int),
    decreases 5 + mime_type.len() - from,
{
    let s = data_url_text(mime_type, payload);
    let at = 5 + mime_type.len() as int;
    assert(s.len() == at + MARKER_LEN + payload.len());
    if from < at {
        assert(s[from] != ';') by {
            if from >= 5 {
                assert(s[from] == mime_type[from - 5]);
            }
        }
        lemma_marker_of_data_url(mime_type, payload, from + 1);
    } else {
        assert(has_marker_at(s, at));
    }
}

/// What is put into a data URL comes out of it: the payload of the data URL
/// of a mime type without `;` and of a payload is that payload. Taking the
/// data out of the URL then decodes exactly what encoding has given.
pub proof fn lemma_payload_of_data_url(mime_type: Seq<char>, payload: Seq<char>)
    requires
        forall|i: int| 0 <= i < mime_type.len() ==> mime_type[i] != ';',
    ensures
        payload_of(data_url_text(mime_type, payload)) == Some(payload),
{
    let s = data_url_text(mime_type, payload);
    let at = 5 + mime_type.len() as int;
    lemma_marker_of_data_url(mime_type, payload, 0);
    assert(s.skip(at + MARKER_LEN) =~= payload);
}

/// Calls `base64::Engine::encode` of `base64::engine::general_purpose::STANDARD`:
/// the result is the encoding of the bytes. The call computes the encoded
/// length and allocates that many bytes, so the length must fit.
#[verifier::external_body]
fn base64_encode(data: &[u8]) -> (text: String)
    requires
        encoded_len(data@.len()) <= isize::MAX,
    ensures
        text@ == base64_text(data@),
{
    base64::engine::general_purpose::STANDARD.encode(data)
}

/// Calls `base64::Engine::decode` of `base64::engine::general_purpose::STANDARD`:
/// the result is what decoding the text gives, the error carried over variant
/// by variant.
#[verifier::external_body]
fn base64_decode(text: &str) -> (data: Result<Vec<u8>, Base64Error>)
    ensures
        match data {
            Ok(bytes) => base64_decoded(text@) == Ok::<Seq<u8>, Base64Error>(bytes@),
            Err(e) => base64_decoded(text@) == Err::<Seq<u8>, Base64Error>(e),
        },
{
    match base64::engine::general_purpose::STANDARD.decode(text) {
        Ok(bytes) => Ok(bytes),
        Err(base64::DecodeError::InvalidByte(at, byte)) => Err(Base64Error::InvalidByte(at, byte)),
        Err(base64::DecodeError::InvalidLength) => Err(Base64Error::InvalidLength),
        Err(base64::DecodeError::InvalidLastSymbol(at, byte)) => Err(
            Base64Error::InvalidLastSymbol(at, byte),
        ),
        Err(base64::DecodeError::InvalidPadding) => Err(Base64Error::InvalidPadding),
    }
}

/// Whether `;base64,` stands at index `i`.
fn marker_at(chars: &Vec<char>, i: usize) -> (found: bool)
    requires
        i + MARKER_LEN <= chars.len(),
    ensures
        found == has_marker_at(chars@, i as int),
{
    chars[i] == ';' && chars[i + 1] == 'b' && chars[i + 2] == 'a' && chars[i + 3] == 's' && chars[i
        + 4] == 'e' && chars[i + 5] == '6' && chars[i + 6] == '4' && chars[i + 7] == ','
}

/// The payload of a data URL: what follows the first `;base64,`, or `None`
/// where the text does not hold the marker.
pub fn base64_payload(data_url: &str) -> (payload: Option<String>)
    ensures
        payload is Some <==> payload_of(data_url@) is Some,
        payload is Some ==> payload_of(data_url@) == Some(payload->0@),
{
    let chars = chars_of(data_url);
    if chars.len() < MARKER_LEN {
        return None;
    }
    let last: usize = chars.len() - MARKER_LEN;
    let mut i: usize = 0;
    while i <= last
        invariant
            chars@ == data_url@,
            last + MARKER_LEN == chars.len(),
            i <= last + 1,
            find_marker(chars@, 0) == find_marker(chars@, i as int),
        decreases last + 1 - i,
    {
        if marker_at(&chars, i) {
            let mut rest: Vec<char> = Vec::new();
            let mut j: usize = i + MARKER_LEN;
            let from: usize = j;
            proof {
                assert(chars@.subrange(from as int, from as int) =~= Seq::<char>::empty());
            }
            while j < chars.len()
                invariant
                    from <= j <= chars.len(),
                    rest@ == chars@.subrange(from as int, j as int),
                decreases chars.len() - j,
            {
                rest.push(chars[j]);
                proof {
                    assert(chars@.subrange(from as int, j + 1) =~= chars@.subrange(
                        from as int,
                        j as int,
                    ).push(chars[j as int]));
                }
                j += 1;
            }
            proof {
                assert(chars@.subrange(from as int, chars.len() as int) =~= chars@.skip(
                    from as int,
                ));
            }
            return Some(text_of(&rest));
        }
        i += 1;
    }
    None
}

/// Takes the data out of a data URL: decodes what follows the first
/// `;base64,` as standard base64.
pub fn extract_base64_data(data_url: &str) -> (data: Result<Vec<u8>, DataUrlError>)
    ensures
        match payload_of(data_url@) {
            None => data == Err::<Vec<u8>, DataUrlError>(DataUrlError::MissingMarker),
            Some(payload) => match base64_decoded(payload) {
                Ok(bytes) => data is Ok && data->Ok_0@ == bytes,
                Err(e) => data == Err::<Vec<u8>, DataUrlError>(DataUrlError::InvalidPayload(e)),
            },
        },
{
    match base64_payload(data_url) {
        None => Err(DataUrlError::MissingMarker),
        Some(payload) => match base64_decode(payload.as_str()) {
            Ok(bytes) => Ok(bytes),
            Err(e) => Err(DataUrlError::InvalidPayload(e)),
        },
    }
}

/// Puts a mime type and an encoded payload together as a data URL.
pub fn data_url_of(mime_type: &str, payload: &str) -> (url: String)
    ensures
        url@ == data_url_text(mime_type@, payload@),
{
    let mut out: Vec<char> = Vec::new();
    out.push('d');
    out.push('a');
    out.push('t');
    out.push('a');
    out.push(':');
    let mime = chars_of(mime_type);
    let ghost head = out@;
    let mut i: usize = 0;
    while i < mime.len()
        invariant
            i <= mime.len(),
            out@ == head + mime@.take(i as int),
        decreases mime.len() - i,
    {
        out.push(mime[i]);
        proof {
            assert(mime@.take(i + 1) =~= mime@.take(i as int).push(mime[i as int]));
        }
        i += 1;
    }
    proof {
        assert(mime@.take(mime.len() as int) =~= mime@);
    }
    out.push(';');
    out.push('b');
    out.push('a');
    out.push('s');
    out.push('e');
    out.push('6');
    out.push('4');
    out.push(',');
    let body = chars_of(payload);
    let ghost marked = out@;
    let mut j: usize = 0;
    while j < body.len()
        invariant
            j <= body.len(),
            out@ == marked + body@.take(j as int),
        decreases body.len() - j,
    {
        out.push(body[j]);
        proof {
            assert(body@.take(j + 1) =~= body@.take(j as int).push(body[j as int]));
        }
        j += 1;
    }
    proof {
        assert(body@.take(body.len() as int) =~= body@);
        assert(out@ =~= data_url_text(mime_type@, payload@));
    }
    text_of(&out)
}

/// Encodes binary data as a data URL of the given mime type.
pub fn encode_to_base64_data_url(data: &[u8], mime_type: &str) -> (url: String)
    requires
        encoded_len(data@.len()) <= isize::MAX,
    ensures
        url@ == data_url_text(mime_type@, base64_text(data@)),
{
    let payload = base64_encode(data);
    data_url_of(mime_type, payload.as_str())
}

} // verus!
