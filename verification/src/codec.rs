//! The binary pixel-map format: a two-line text header followed by raw
//! 3-byte RGB samples, with an encoder and a structured, non-panicking
//! reader.

use vstd::prelude::*;

use crate::image::Pixel;
use crate::image::Screen;

verus! {

pub const NEWLINE: u8 = 10;

pub const SPACE: u8 = 32;

/// An ASCII decimal digit.
pub open spec fn is_digit(b: u8) -> bool {
    48 <= b <= 57
}

/// Every byte of `s` is a decimal digit.
pub open spec fn all_digits(s: Seq<u8>) -> bool {
    forall|i: int| 0 <= i < s.len() ==> is_digit(#[trigger] s[i])
}

/// The number a digit string denotes, most significant digit first.
pub open spec fn dec_val(s: Seq<u8>) -> int
    decreases s.len(),
{
    if s.len() == 0 {
        0
    } else {
        dec_val(s.drop_last()) * 10 + (s.last() - 48)
    }
}

/// A string parses as a dimension when it is non-empty, all digits, and its
/// value fits the machine's word.
pub open spec fn parse_ok(s: Seq<u8>) -> bool {
    s.len() > 0 && all_digits(s) && dec_val(s) <= usize::MAX
}

/// The decimal digit string of `n`, without sign or leading zeros.
pub open spec fn dec_digits(n: int) -> Seq<u8>
    recommends
        n >= 0,
    decreases n,
{
    if n < 10 {
        seq![(48 + n) as u8]
    } else {
        dec_digits(n / 10).push((48 + n % 10) as u8)
    }
}

/// The digit string of a non-negative number is non-empty, all digits, and
/// denotes the number itself.
pub proof fn lemma_dec_digits(n: int)
    requires
        0 <= n,
    ensures
        dec_digits(n).len() >= 1,
        all_digits(dec_digits(n)),
        dec_val(dec_digits(n)) == n,
    decreases n,
{
    if n < 10 {
        let s = dec_digits(n);
        assert(s.drop_last() =~= Seq::<u8>::empty());
        assert((48 + n) as u8 == 48 + n);
        assert(s.last() == (48 + n) as u8);
        assert(dec_val(s) == dec_val(s.drop_last()) * 10 + (s.last() - 48));
    } else {
        lemma_dec_digits(n / 10);
        vstd::arithmetic::div_mod::lemma_fundamental_div_mod(n, 10);
        let p = dec_digits(n / 10);
        let s = dec_digits(n);
        assert(s.drop_last() =~= p);
        assert(s.last() == (48 + n % 10) as u8);
        assert(dec_val(s) == (n / 10) * 10 + n % 10);
        assert((n / 10) * 10 == 10 * (n / 10)) by (nonlinear_arith);
    }
}

/// A digit string denotes a non-negative number.
pub proof fn lemma_dec_val_nonneg(s: Seq<u8>)
    requires
        all_digits(s),
    ensures
        dec_val(s) >= 0,
    decreases s.len(),
{
    if s.len() > 0 {
        assert(all_digits(s.drop_last())) by {
            assert(forall|i: int|
                0 <= i < s.len() - 1 ==> #[trigger] s.drop_last()[i] == s[i]);
        }
        lemma_dec_val_nonneg(s.drop_last());
    }
}

/// Dropping trailing digits can only shrink the value.
pub proof fn lemma_dec_val_take(s: Seq<u8>, m: int)
    requires
        all_digits(s),
        0 <= m <= s.len(),
    ensures
        dec_val(s) >= dec_val(s.take(m)),
    decreases s.len(),
{
    if m == s.len() {
        assert(s.take(m) =~= s);
    } else {
        let p = s.drop_last();
        assert(all_digits(p)) by {
            assert(forall|i: int| 0 <= i < p.len() ==> #[trigger] p[i] == s[i]);
        }
        lemma_dec_val_take(p, m);
        assert(s.take(m) =~= p.take(m));
        lemma_dec_val_nonneg(p);
        assert(dec_val(s) >= dec_val(p));
    }
}

/// The decimal digits of `n`, most significant first.
pub fn format_usize(n: usize) -> (v: Vec<u8>)
    ensures
        v@ == dec_digits(n as int),
    decreases n,
{
    if n < 10 {
        let mut v: Vec<u8> = Vec::new();
        v.push(48 + (n as u8));
        proof {
            assert(v@ =~= dec_digits(n as int));
        }
        v
    } else {
        let mut v = format_usize(n / 10);
        v.push(48 + ((n % 10) as u8));
        proof {
            assert(v@ =~= dec_digits(n as int));
        }
        v
    }
}

/// Reads `data[start..end]` as a decimal number. Returns the value when the
/// range is non-empty, all digits, and the value fits; `None` otherwise.
#[verifier::loop_isolation(false)]
pub fn parse_usize(data: &Vec<u8>, start: usize, end: usize) -> (r: Option<usize>)
    requires
        start <= end <= data@.len(),
    ensures
        ({
            let s = data@.subrange(start as int, end as int);
            match r {
                Some(v) => parse_ok(s) && v == dec_val(s),
                None => !parse_ok(s),
            }
        }),
{
    let ghost s = data@.subrange(start as int, end as int);
    if start == end {
        return None;
    }
    let mut acc: usize = 0;
    let mut i = start;
    while i < end
        invariant
            start <= i <= end,
            all_digits(data@.subrange(start as int, i as int)),
            acc == dec_val(data@.subrange(start as int, i as int)),
        decreases end - i,
    {
        let b = data[i];
        let ghost p = data@.subrange(start as int, i as int);
        proof {
            assert(s[i - start] == b);
            assert(s.take(i - start + 1) =~= p.push(b));
            assert(p.push(b).drop_last() =~= p);
            assert(p.push(b).last() == b);
        }
        if b < 48 || b > 57 {
            return None;
        }
        let d = (b - 48) as usize;
        proof {
            vstd::arithmetic::div_mod::lemma_fundamental_div_mod(
                usize::MAX - d,
                10,
            );
        }
        if acc > (usize::MAX - d) / 10 {
            proof {
                if all_digits(s) {
                    lemma_dec_val_take(s, i - start + 1);
                    assert(dec_val(p.push(b)) == acc * 10 + d);
                    assert(dec_val(s) > usize::MAX);
                }
            }
            return None;
        }
        acc = acc * 10 + d;
        proof {
            assert(data@.subrange(start as int, i + 1 as int) =~= p.push(b));
        }
        i = i + 1;
    }
    proof {
        assert(s =~= data@.subrange(start as int, i as int));
    }
    Some(acc)
}

/// The first position at or after `from` where `b` occurs in `s`.
pub open spec fn find_byte(s: Seq<u8>, b: u8, from: int) -> Option<int>
    decreases s.len() - from,
{
    if !(0 <= from < s.len()) {
        None
    } else if s[from] == b {
        Some(from)
    } else {
        find_byte(s, b, from + 1)
    }
}

/// The file header: a magic line, then the two dimensions and the maximum
/// channel value 255 on one line. The first dimension written is the
/// height and the second the width; the reader takes the first as the
/// width, so only square images survive a round trip unchanged.
pub open spec fn header_bytes(height: int, width: int) -> Seq<u8> {
    seq![80u8, 54u8, NEWLINE] + dec_digits(height) + seq![SPACE] + dec_digits(width) + seq![
        SPACE,
        50u8,
        53u8,
        53u8,
        NEWLINE,
    ]
}

/// The raw sample bytes of a pixel sequence: red, green, blue of each pixel
/// in order, three bytes per pixel.
pub open spec fn pixel_bytes(p: Seq<Pixel>) -> Seq<u8> {
    Seq::new(
        3 * p.len(),
        |i: int|
            if i % 3 == 0 {
                p[i / 3].red
            } else if i % 3 == 1 {
                p[i / 3].green
            } else {
                p[i / 3].blue
            },
    )
}

/// The raw sample bytes of a grayscale image: each intensity repeated three
/// times, standing for equal red, green and blue channels.
pub open spec fn gray_bytes(samples: Seq<u8>) -> Seq<u8> {
    Seq::new(3 * samples.len(), |i: int| samples[i / 3])
}

/// A whole color image file.
pub open spec fn image_bytes(height: int, width: int, p: Seq<Pixel>) -> Seq<u8> {
    header_bytes(height, width) + pixel_bytes(p)
}

/// A whole grayscale image file.
pub open spec fn grayscale_bytes(height: int, width: int, samples: Seq<u8>) -> Seq<u8> {
    header_bytes(height, width) + gray_bytes(samples)
}

/// Appending pixel `k` contributes exactly its three channel bytes.
proof fn lemma_pixel_bytes_extend(p: Seq<Pixel>, k: int)
    requires
        0 <= k < p.len(),
    ensures
        pixel_bytes(p.take(k + 1)) == pixel_bytes(p.take(k)) + seq![
            p[k].red,
            p[k].green,
            p[k].blue,
        ],
{
    let a = pixel_bytes(p.take(k));
    let b3 = seq![p[k].red, p[k].green, p[k].blue];
    let lhs = pixel_bytes(p.take(k + 1));
    assert forall|i: int| 0 <= i < 3 * k + 3 implies lhs[i] == (a + b3)[i] by {
        if i < 3 * k {
            vstd::arithmetic::div_mod::lemma_multiply_divide_lt(i, 3, k);
            assert(3 * k == k * 3) by (nonlinear_arith);
            assert(p.take(k + 1)[i / 3] == p.take(k)[i / 3]);
        } else {
            vstd::arithmetic::div_mod::lemma_fundamental_div_mod_converse(i, 3, k, i - 3 * k);
        }
    }
    assert(lhs =~= a + b3);
}

/// Appending sample `k` contributes that byte three times.
proof fn lemma_gray_bytes_extend(samples: Seq<u8>, k: int)
    requires
        0 <= k < samples.len(),
    ensures
        gray_bytes(samples.take(k + 1)) == gray_bytes(samples.take(k)) + seq![
            samples[k],
            samples[k],
            samples[k],
        ],
{
    let a = gray_bytes(samples.take(k));
    let b3 = seq![samples[k], samples[k], samples[k]];
    let lhs = gray_bytes(samples.take(k + 1));
    assert forall|i: int| 0 <= i < 3 * k + 3 implies lhs[i] == (a + b3)[i] by {
        if i < 3 * k {
            vstd::arithmetic::div_mod::lemma_multiply_divide_lt(i, 3, k);
            assert(3 * k == k * 3) by (nonlinear_arith);
            assert(samples.take(k + 1)[i / 3] == samples.take(k)[i / 3]);
        } else {
            vstd::arithmetic::div_mod::lemma_fundamental_div_mod_converse(i, 3, k, i - 3 * k);
        }
    }
    assert(lhs =~= a + b3);
}

/// Writes the text header for an image of the given dimensions.
fn write_header(height: usize, width: usize) -> (v: Vec<u8>)
    ensures
        v@ == header_bytes(height as int, width as int),
{
    let mut v: Vec<u8> = Vec::new();
    v.push(80);
    v.push(54);
    v.push(NEWLINE);
    let mut hd = format_usize(height);
    v.append(&mut hd);
    v.push(SPACE);
    let mut wd = format_usize(width);
    v.append(&mut wd);
    v.push(SPACE);
    v.push(50);
    v.push(53);
    v.push(53);
    v.push(NEWLINE);
    proof {
        assert(v@ =~= header_bytes(height as int, width as int));
    }
    v
}

/// Serializes a color image: the header, then the three channel bytes of
/// every pixel in row-major order.
#[verifier::loop_isolation(false)]
pub fn encode_image(height: usize, width: usize, pixels: &Vec<Pixel>) -> (out: Vec<u8>)
    requires
        pixels@.len() == height * width,
    ensures
        out@ == image_bytes(height as int, width as int, pixels@),
{
    let mut out = write_header(height, width);
    let n = pixels.len();
    let mut k: usize = 0;
    while k < n
        invariant
            k <= n,
            out@ == header_bytes(height as int, width as int) + pixel_bytes(
                pixels@.take(k as int),
            ),
        decreases n - k,
    {
        let px = pixels[k];
        out.push(px.red);
        out.push(px.green);
        out.push(px.blue);
        proof {
            lemma_pixel_bytes_extend(pixels@, k as int);
        }
        k = k + 1;
    }
    proof {
        assert(pixels@.take(n as int) =~= pixels@);
    }
    out
}

/// Serializes a grayscale image: the header, then every intensity sample
/// written three times, standing for its equal red, green and blue channels.
#[verifier::loop_isolation(false)]
pub fn encode_grayscale(height: usize, width: usize, samples: &Vec<u8>) -> (out: Vec<u8>)
    requires
        samples@.len() == height * width,
    ensures
        out@ == grayscale_bytes(height as int, width as int, samples@),
{
    let mut out = write_header(height, width);
    let n = samples.len();
    let mut k: usize = 0;
    while k < n
        invariant
            k <= n,
            out@ == header_bytes(height as int, width as int) + gray_bytes(
                samples@.take(k as int),
            ),
        decreases n - k,
    {
        let b = samples[k];
        out.push(b);
        out.push(b);
        out.push(b);
        proof {
            lemma_gray_bytes_extend(samples@, k as int);
        }
        k = k + 1;
    }
    proof {
        assert(samples@.take(n as int) =~= samples@);
    }
    out
}

/// Pins `find_byte` to a known first occurrence.
pub proof fn lemma_find_byte_at(s: Seq<u8>, b: u8, from: int, i: int)
    requires
        0 <= from <= i < s.len(),
        s[i] == b,
        forall|j: int| from <= j < i ==> s[j] != b,
    ensures
        find_byte(s, b, from) == Some(i),
    decreases i - from,
{
    if from < i {
        lemma_find_byte_at(s, b, from + 1, i);
    }
}

/// Scans `data` for `b`, starting at `from`.
#[verifier::loop_isolation(false)]
pub fn find_byte_from(data: &Vec<u8>, b: u8, from: usize) -> (r: Option<usize>)
    requires
        from <= data@.len(),
    ensures
        match r {
            Some(i) => from <= i < data@.len() && find_byte(data@, b, from as int) == Some(
                i as int,
            ),
            None => find_byte(data@, b, from as int).is_none(),
        },
{
    let mut i = from;
    let n = data.len();
    while i < n
        invariant
            from <= i <= n,
            find_byte(data@, b, from as int) == find_byte(data@, b, i as int),
        decreases n - i,
    {
        if data[i] == b {
            return Some(i);
        }
        i = i + 1;
    }
    None
}

/// Why a file failed to parse as an image.
#[derive(Clone, Copy, Debug, PartialEq, Eq, Structural)]
pub enum ParseError {
    /// The file has no newline, so there is no second header line to read.
    MissingHeader,
    /// The dimension line has no two space-separated decimal numbers that
    /// fit the machine's word.
    BadDimensions,
    /// Nothing follows the header, so there are no sample bytes at all.
    MissingData,
}

/// The pixels encoded by the raw bytes after the header: consecutive 3-byte
/// chunks in encounter order; a trailing chunk of fewer than 3 bytes is
/// dropped.
pub open spec fn chunk_pixels(body: Seq<u8>) -> Seq<Pixel> {
    Seq::new(
        body.len() / 3,
        |i: int| Pixel { red: body[3 * i], green: body[3 * i + 1], blue: body[3 * i + 2] },
    )
}

/// What reading a file yields: either width, height and pixels, or the
/// error naming the first malformed part. The first line is ignored; the
/// second line's first two space-separated fields give the width and then
/// the height (any further fields are ignored); everything after the
/// second newline is raw sample bytes. The pixel count is not checked
/// against the dimensions.
pub open spec fn decode_spec(d: Seq<u8>) -> Result<(int, int, Seq<Pixel>), ParseError> {
    match find_byte(d, NEWLINE, 0) {
        Option::None => Result::Err(ParseError::MissingHeader),
        Option::Some(nl1) => {
            let l2s = nl1 + 1;
            let l2e = match find_byte(d, NEWLINE, l2s) {
                Option::Some(i) => i,
                Option::None => d.len() as int,
            };
            let line2 = d.subrange(l2s, l2e);
            match find_byte(line2, SPACE, 0) {
                Option::None => Result::Err(ParseError::BadDimensions),
                Option::Some(sp1) => {
                    let tok1 = line2.subrange(0, sp1);
                    let t2e = match find_byte(line2, SPACE, sp1 + 1) {
                        Option::Some(i) => i,
                        Option::None => line2.len() as int,
                    };
                    let tok2 = line2.subrange(sp1 + 1, t2e);
                    if !parse_ok(tok1) || !parse_ok(tok2) {
                        Result::Err(ParseError::BadDimensions)
                    } else if l2e + 1 >= d.len() {
                        Result::Err(ParseError::MissingData)
                    } else {
                        Result::Ok(
                            (
                                dec_val(tok1),
                                dec_val(tok2),
                                chunk_pixels(d.subrange(l2e + 1, d.len() as int)),
                            ),
                        )
                    }
                },
            }
        },
    }
}

/// Parses an image file. On success the buffer's width and height are taken
/// from the header and its pixels from the raw bytes in encounter order;
/// the two are not checked against each other, so the buffer may hold fewer
/// or more pixels than `width * height`.
#[verifier::loop_isolation(false)]
pub fn decode_image(data: &Vec<u8>) -> (r: Result<Screen, ParseError>)
    ensures
        match r {
            Result::Ok(s) => decode_spec(data@) == Result::<(int, int, Seq<Pixel>),
                ParseError,
            >::Ok((s.width as int, s.height as int, s.pixels@)),
            Result::Err(e) => decode_spec(data@) == Result::<(int, int, Seq<Pixel>),
                ParseError,
            >::Err(e),
        },
{
    let dlen = data.len();
    let nl1 = match find_byte_from(data, NEWLINE, 0) {
        Option::Some(i) => i,
        Option::None => {
            return Result::Err(ParseError::MissingHeader);
        },
    };
    proof {
        assert(nl1 < dlen);
    }
    let l2s = nl1 + 1;
    let l2e = match find_byte_from(data, NEWLINE, l2s) {
        Option::Some(i) => i,
        Option::None => data.len(),
    };
    let mut line2: Vec<u8> = Vec::new();
    let mut t = l2s;
    while t < l2e
        invariant
            l2s <= t <= l2e,
            l2e <= data@.len(),
            line2@ == data@.subrange(l2s as int, t as int),
        decreases l2e - t,
    {
        line2.push(data[t]);
        proof {
            assert(data@.subrange(l2s as int, t + 1 as int) =~= data@.subrange(
                l2s as int,
                t as int,
            ).push(data@[t as int]));
        }
        t = t + 1;
    }
    proof {
        assert(line2@ =~= data@.subrange(l2s as int, l2e as int));
    }
    let sp1 = match find_byte_from(&line2, SPACE, 0) {
        Option::Some(i) => i,
        Option::None => {
            return Result::Err(ParseError::BadDimensions);
        },
    };
    let t2e = match find_byte_from(&line2, SPACE, sp1 + 1) {
        Option::Some(i) => i,
        Option::None => line2.len(),
    };
    let w = match parse_usize(&line2, 0, sp1) {
        Option::Some(v) => v,
        Option::None => {
            return Result::Err(ParseError::BadDimensions);
        },
    };
    let h = match parse_usize(&line2, sp1 + 1, t2e) {
        Option::Some(v) => v,
        Option::None => {
            return Result::Err(ParseError::BadDimensions);
        },
    };
    if l2e >= data.len() || l2e + 1 == data.len() {
        return Result::Err(ParseError::MissingData);
    }
    let bstart = l2e + 1;
    let ghost body = data@.subrange(bstart as int, data@.len() as int);
    let m = (data.len() - bstart) / 3;
    proof {
        vstd::arithmetic::div_mod::lemma_fundamental_div_mod(
            data@.len() - bstart,
            3,
        );
    }
    let mut pixels: Vec<Pixel> = Vec::new();
    let mut k: usize = 0;
    while k < m
        invariant
            k <= m,
            pixels@ == chunk_pixels(body).take(k as int),
        decreases m - k,
    {
        let px = Pixel {
            red: data[bstart + 3 * k],
            green: data[bstart + 3 * k + 1],
            blue: data[bstart + 3 * k + 2],
        };
        pixels.push(px);
        proof {
            assert(chunk_pixels(body).take(k + 1 as int) =~= chunk_pixels(body).take(
                k as int,
            ).push(px));
        }
        k = k + 1;
    }
    proof {
        assert(chunk_pixels(body).take(m as int) =~= chunk_pixels(body));
    }
    Result::Ok(Screen { pixels, width: w, height: h })
}

/// Chunking the serialized bytes of a pixel sequence gives the sequence
/// back: the two body encodings are exact inverses.
pub proof fn lemma_chunk_pixel_bytes(p: Seq<Pixel>)
    ensures
        chunk_pixels(pixel_bytes(p)) == p,
{
    let b = pixel_bytes(p);
    assert(3 * p.len() == p.len() * 3) by (nonlinear_arith);
    vstd::arithmetic::div_mod::lemma_fundamental_div_mod_converse(
        3 * (p.len() as int),
        3,
        p.len() as int,
        0,
    );
    assert forall|i: int| 0 <= i < p.len() implies chunk_pixels(b)[i] == p[i] by {
        assert(3 * i == i * 3 && 3 * i + 1 == i * 3 + 1 && 3 * i + 2 == i * 3 + 2)
            by (nonlinear_arith);
        vstd::arithmetic::div_mod::lemma_fundamental_div_mod_converse(3 * i, 3, i, 0);
        vstd::arithmetic::div_mod::lemma_fundamental_div_mod_converse(3 * i + 1, 3, i, 1);
        vstd::arithmetic::div_mod::lemma_fundamental_div_mod_converse(3 * i + 2, 3, i, 2);
        assert(b[3 * i] == p[i].red);
        assert(b[3 * i + 1] == p[i].green);
        assert(b[3 * i + 2] == p[i].blue);
    }
    assert(chunk_pixels(b) =~= p);
}

/// Round trip: a serialized square image reads back with the same width,
/// height and pixel sequence. The header writes the height first while the
/// reader takes the width first, so the dimensions must be equal; and the
/// reader rejects empty sample data, so the image must have at least one
/// pixel.
pub proof fn lemma_encode_decode_round_trip(height: int, width: int, pixels: Seq<Pixel>)
    requires
        width == height,
        0 < width <= usize::MAX,
        pixels.len() == width * height,
    ensures
        decode_spec(image_bytes(height, width, pixels)) == Result::<(int, int, Seq<Pixel>),
            ParseError,
        >::Ok((width, height, pixels)),
{
    lemma_dec_digits(height);
    lemma_dec_digits(width);
    let dh = dec_digits(height);
    let dw = dec_digits(width);
    let lh = dh.len() as int;
    let lw = dw.len() as int;
    let hdr = header_bytes(height, width);
    let pb = pixel_bytes(pixels);
    let d = image_bytes(height, width, pixels);
    assert(pixels.len() >= 1) by (nonlinear_arith)
        requires
            pixels.len() == width * height && width > 0 && height > 0,
    ;
    assert(hdr.len() == lh + lw + 9);
    assert(d.len() == hdr.len() + 3 * pixels.len());

    // Where each part of the header sits in the file.
    assert(d[0] == 80 && d[1] == 54 && d[2] == NEWLINE);
    assert forall|j: int| 0 <= j < lh implies d[3 + j] == dh[j] && is_digit(dh[j]) by {}
    assert(d[3 + lh] == SPACE);
    assert forall|j: int| 0 <= j < lw implies d[4 + lh + j] == dw[j] && is_digit(dw[j]) by {}
    assert(d[4 + lh + lw] == SPACE);
    assert(d[5 + lh + lw] == 50);
    assert(d[6 + lh + lw] == 53);
    assert(d[7 + lh + lw] == 53);
    assert(d[8 + lh + lw] == NEWLINE);
    assert forall|j: int| 0 <= j < 3 * pixels.len() implies d[hdr.len() + j] == pb[j] by {}

    // The first newline ends the magic line.
    lemma_find_byte_at(d, NEWLINE, 0, 2);

    // The second newline ends the dimension line.
    let nl2 = lh + lw + 8;
    assert forall|j: int| 3 <= j < nl2 implies d[j] != NEWLINE by {
        if j < 3 + lh {
            assert(d[j] == dh[j - 3]);
            assert(is_digit(dh[j - 3]));
        } else if j == 3 + lh {
            assert(d[j] == SPACE);
        } else if j < 4 + lh + lw {
            assert(d[j] == dw[j - 4 - lh]);
            assert(is_digit(dw[j - 4 - lh]));
        }
    }
    lemma_find_byte_at(d, NEWLINE, 3, nl2);

    // The dimension line, as the reader slices it out.
    let line2 = d.subrange(3, nl2);
    let l2exp = dh + seq![SPACE] + dw + seq![SPACE, 50u8, 53u8, 53u8];
    assert forall|k: int| 0 <= k < nl2 - 3 implies line2[k] == l2exp[k] by {
        assert(line2[k] == d[3 + k]);
        if k < lh {
            assert(d[3 + k] == dh[k]);
        } else if k == lh {
            assert(d[3 + k] == SPACE);
        } else if k < 1 + lh + lw {
            assert(d[3 + k] == dw[k - 1 - lh]);
        }
    }
    assert(line2 =~= l2exp);

    // The first space separates the two dimension fields.
    assert forall|j: int| 0 <= j < lh implies line2[j] != SPACE by {
        assert(line2[j] == dh[j]);
        assert(is_digit(dh[j]));
    }
    assert(line2[lh] == SPACE);
    lemma_find_byte_at(line2, SPACE, 0, lh);
    let tok1 = line2.subrange(0, lh);
    assert(tok1 =~= dh);

    // The second space ends the second field.
    assert forall|j: int| lh + 1 <= j < lh + 1 + lw implies line2[j] != SPACE by {
        assert(line2[j] == dw[j - 1 - lh]);
        assert(is_digit(dw[j - 1 - lh]));
    }
    assert(line2[lh + 1 + lw] == SPACE);
    lemma_find_byte_at(line2, SPACE, lh + 1, lh + 1 + lw);
    let tok2 = line2.subrange(lh + 1, lh + 1 + lw);
    assert(tok2 =~= dw);

    assert(parse_ok(tok1) && dec_val(tok1) == height);
    assert(parse_ok(tok2) && dec_val(tok2) == width);

    // The sample bytes fill the rest of the file.
    assert(nl2 + 1 == hdr.len());
    assert(nl2 + 1 < d.len());
    let body = d.subrange(nl2 + 1, d.len() as int);
    assert(body =~= pb);
    lemma_chunk_pixel_bytes(pixels);
}

} // verus!
