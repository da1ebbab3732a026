//! What the conversions decide around their rendering and file handling: the
//! output size of a rendering, the name of a temporary file, and the result
//! that a converter remembers.
use crate::data_url::{base64_text, data_url_text, encode_to_base64_data_url, encoded_len};
use crate::text::{chars_of, text_of};
use vstd::prelude::*;

verus! {

/// The dimension that a request leaves open, so that the document keeps its
/// ratio: `given * own_missing / own_given`, rounded to the nearest integer
/// with halves upwards, and at most `u32::MAX`. A document without extent
/// along the given dimension has no ratio; the open dimension is then the
/// document's own.
pub open spec fn scaled_dimension(given: u32, own_given: u32, own_missing: u32) -> u32 {
    if own_given == 0 {
        own_missing
    } else {
        let nearest = (2 * (given * own_missing) + own_given) / (2 * own_given);
        if nearest > u32::MAX {
            u32::MAX
        } else {
            nearest as u32
        }
    }
}

/// The size at which a document is rendered. A request of zero by zero asks
/// for the document's own size. A request with one dimension of zero fixes
/// the other and scales the open one by the document's ratio. Any other
/// request is the size.
pub open spec fn chosen_size(width: u32, height: u32, own_width: u32, own_height: u32) -> (
    u32,
    u32,
) {
    if width == 0 && height == 0 {
        (own_width, own_height)
    } else if height == 0 {
        (width, scaled_dimension(width, own_width, own_height))
    } else if width == 0 {
        (scaled_dimension(height, own_height, own_width), height)
    } else {
        (width, height)
    }
}

/// The dimension that a request leaves open, by the document's ratio.
fn scale_dimension(given: u32, own_given: u32, own_missing: u32) -> (scaled: u32)
    ensures
        scaled == scaled_dimension(given, own_given, own_missing),
{
    if own_given == 0 {
        return own_missing;
    }
    assert(0 <= given * own_missing <= 0xFFFF_FFFF * 0xFFFF_FFFF) by (nonlinear_arith)
        requires
            0 <= given <= 0xFFFF_FFFF,
            0 <= own_missing <= 0xFFFF_FFFF,
    ;
    let product: u128 = (given as u128) * (own_missing as u128);
    let nearest: u128 = (2 * product + own_given as u128) / (2 * (own_given as u128));
    if nearest > u32::MAX as u128 {
        u32::MAX
    } else {
        nearest as u32
    }
}

/// The size at which a document of the size `own_width` by `own_height` is
/// rendered when `width` by `height` is requested: the document's own size
/// for zero by zero, the requested size where both dimensions are given, and
/// otherwise the given dimension with the other scaled by the document's
/// ratio.
pub fn output_size(width: u32, height: u32, own_width: u32, own_height: u32) -> (size: (u32, u32))
    ensures
        size == chosen_size(width, height, own_width, own_height),
{
    if width == 0 && height == 0 {
        (own_width, own_height)
    } else if height == 0 {
        (width, scale_dimension(width, own_width, own_height))
    } else if width == 0 {
        (scale_dimension(height, own_height, own_width), height)
    } else {
        (width, height)
    }
}

/// The number of characters before the first `.`, or the length of the text
/// where it holds none.
pub open spec fn stem_len(s: Seq<char>) -> int
    decreases s.len(),
{
    if s.len() == 0 || s[0] == '.' {
        0
    } else {
        1 + stem_len(s.skip(1))
    }
}

/// What is appended to the stem of a path to name its temporary copy.
pub open spec fn temp_suffix() -> Seq<char> {
    seq![
        '_',
        't',
        'e',
        'm',
        'p',
        '_',
        't',
        'e',
        'x',
        't',
        '2',
        'p',
        'a',
        't',
        'h',
        '.',
        's',
        'v',
        'g',
    ]
}

/// The path of the temporary copy of an input file: the input path up to
/// its first `.`, then `_temp_text2path.svg`.
pub open spec fn temp_path_text(input_path: Seq<char>) -> Seq<char> {
    input_path.take(stem_len(input_path)) + temp_suffix()
}

/// The stem ends at the first `.`.
proof fn lemma_stem_len(s: Seq<char>, n: int)
    requires
        0 <= n <= s.len(),
        forall|i: int| 0 <= i < n ==> s[i] != '.',
        n == s.len() || s[n] == '.',
    ensures
        stem_len(s) == n,
    decreases n,
{
    if n > 0 {
        let rest = s.skip(1);
        assert forall|i: int| 0 <= i < n - 1 implies rest[i] != '.' by {
            assert(rest[i] == s[i + 1]);
        }
        lemma_stem_len(rest, n - 1);
    }
}

/// The path of the temporary copy of an input file: the input path up to
/// its first `.`, then `_temp_text2path.svg`.
pub fn temp_svg_path(input_path: &str) -> (path: String)
    ensures
        path@ == temp_path_text(input_path@),
{
    let chars = chars_of(input_path);
    let mut out: Vec<char> = Vec::new();
    let mut i: usize = 0;
    while i < chars.len() && chars[i] != '.'
        invariant
            i <= chars.len(),
            out@ == chars@.take(i as int),
            forall|j: int| 0 <= j < i ==> chars[j] != '.',
        decreases chars.len() - i,
    {
        out.push(chars[i]);
        proof {
            assert(chars@.take(i + 1) =~= chars@.take(i as int).push(chars[i as int]));
        }
        i += 1;
    }
    proof {
        lemma_stem_len(chars@, i as int);
    }
    out.push('_');
    out.push('t');
    out.push('e');
    out.push('m');
    out.push('p');
    out.push('_');
    out.push('t');
    out.push('e');
    out.push('x');
    out.push('t');
    out.push('2');
    out.push('p');
    out.push('a');
    out.push('t');
    out.push('h');
    out.push('.');
    out.push('s');
    out.push('v');
    out.push('g');
    proof {
        assert(out@ =~= temp_path_text(input_path@));
    }
    text_of(&out)
}

/// A converter that remembers the bytes of its last successful conversion.
pub struct SvgConverter {
    last_result: Option<Vec<u8>>,
}

/// The mime type of the images that a converter hands out.
pub open spec fn png_mime() -> Seq<char> {
    seq!['i', 'm', 'a', 'g', 'e', '/', 'p', 'n', 'g']
}

/// The text before the reason of a failed rendering.
pub open spec fn render_failure_prefix() -> Seq<char> {
    "Error converting SVG to PNG: "@
}

/// The text before the reason of a failed tracing.
pub open spec fn trace_failure_prefix() -> Seq<char> {
    "Error converting PNG to SVG: "@
}

impl SvgConverter {
    /// The bytes of the last successful conversion, if there was one.
    pub closed spec fn remembered(&self) -> Option<Seq<u8>> {
        match self.last_result {
            Some(bytes) => Some(bytes@),
            None => None,
        }
    }

    /// A converter that remembers nothing yet.
    pub fn new() -> (converter: Self)
        ensures
            converter.remembered() is None,
    {
        SvgConverter { last_result: None }
    }

    /// Takes in the outcome of a rendering. Image bytes are remembered and
    /// handed out as a data URL of the type `image/png`; a failure leaves
    /// what is remembered and is handed on behind
    /// `Error converting SVG to PNG: `.
    pub fn svg_to_png(&mut self, rendered: Result<Vec<u8>, String>) -> (out: Result<String, String>)
        requires
            rendered is Ok ==> encoded_len(rendered->Ok_0@.len()) <= isize::MAX,
        ensures
            match rendered {
                Ok(png) => {
                    &&& final(self).remembered() == Some(png@)
                    &&& out is Ok
                    &&& out->Ok_0@ == data_url_text(png_mime(), base64_text(png@))
                },
                Err(reason) => {
                    &&& final(self).remembered() == old(self).remembered()
                    &&& out is Err
                    &&& out->Err_0@ == render_failure_prefix() + reason@
                },
            },
    {
        match rendered {
            Ok(png) => {
                proof {
                    reveal_strlit("image/png");
                    assert("image/png"@ =~= png_mime());
                }
                let url = encode_to_base64_data_url(png.as_slice(), "image/png");
                self.last_result = Some(png);
                Ok(url)
            },
            Err(reason) => Err(
                String::from_str("Error converting SVG to PNG: ").concat(reason.as_str()),
            ),
        }
    }

    /// Takes in the outcome of a tracing. A document is remembered as its
    /// UTF-8 bytes and handed out; a failure leaves what is remembered and is
    /// handed on behind `Error converting PNG to SVG: `.
    pub fn png_to_svg(&mut self, traced: Result<String, String>) -> (out: Result<String, String>)
        ensures
            match traced {
                Ok(svg) => {
                    &&& final(self).remembered() == Some(vstd::utf8::encode_utf8(svg@))
                    &&& out is Ok
                    &&& out->Ok_0@ == svg@
                },
                Err(reason) => {
                    &&& final(self).remembered() == old(self).remembered()
                    &&& out is Err
                    &&& out->Err_0@ == trace_failure_prefix() + reason@
                },
            },
    {
        match traced {
            Ok(svg) => {
                self.last_result = Some(svg.as_str().as_bytes_vec());
                Ok(svg)
            },
            Err(reason) => Err(
                String::from_str("Error converting PNG to SVG: ").concat(reason.as_str()),
            ),
        }
    }

    /// The bytes of the last successful conversion, if there was one.
    pub fn get_last_result(&self) -> (bytes: Option<Vec<u8>>)
        ensures
            bytes is Some <==> self.remembered() is Some,
            bytes is Some ==> self.remembered() == Some(bytes->0@),
    {
        match &self.last_result {
            Some(bytes) => {
                let mut copy: Vec<u8> = Vec::new();
                let mut i: usize = 0;
                while i < bytes.len()
                    invariant
                        i <= bytes.len(),
                        copy@ == bytes@.take(i as int),
                    decreases bytes.len() - i,
                {
                    copy.push(bytes[i]);
                    proof {
                        assert(bytes@.take(i + 1) =~= bytes@.take(i as int).push(bytes[i as int]));
                    }
                    i += 1;
                }
                proof {
                    assert(bytes@.take(bytes.len() as int) =~= bytes@);
                }
                Some(copy)
            },
            None => None,
        }
    }
}

} // verus!
