//! The icons of plugins: where they come from, where they are kept, their pixels.
use vstd::prelude::*;

use crate::pictures::{is_tame, tame};
use crate::text::{
    alphanumeric, begins, cat2, chars_of, is_alphanumeric, is_empty, starts_with, string_of, trim,
    trimmed,
};

verus! {

/// The address of an icon, where `url` gives one: a scheme is put before one that begins with
/// two slashes, and everything but `http` and `https` is refused.
pub open spec fn icon_url(url: Seq<char>) -> Option<Seq<char>> {
    let t = trim(url);
    if t.len() == 0 {
        None
    } else if starts_with(t, "//"@) {
        Some("https:"@ + t)
    } else if starts_with(t, "http://"@) || starts_with(t, "https://"@) {
        Some(t)
    } else {
        None
    }
}

/// The address of an icon, where `url` gives one.
pub fn normalize_icon_url(url: &str) -> (r: Option<String>)
    ensures
        match r {
            Some(u) => icon_url(url@) == Some(u@),
            None => icon_url(url@) is None,
        },
{
    let cs = chars_of(url);
    let t = trimmed(&cs);
    if t.len() == 0 {
        None
    } else if begins(t, &chars_of("//")) {
        Some(cat2("https:", string_of(t).as_str()))
    } else if begins(t, &chars_of("http://")) || begins(t, &chars_of("https://")) {
        Some(string_of(t))
    } else {
        None
    }
}

/// `c`, or an underscore where it may not stand in a file name.
pub open spec fn cache_char(c: char) -> char {
    if is_alphanumeric(c) || c == '-' || c == '_' {
        c
    } else {
        '_'
    }
}

/// The name under which the icon of `slug` is kept.
pub open spec fn cache_name(slug: Seq<char>) -> Seq<char> {
    if slug.len() == 0 {
        "icon"@
    } else {
        Seq::new(slug.len(), |i: int| cache_char(slug[i]))
    }
}

/// The name under which the icon of `slug` is kept.
pub fn safe_cache_name(slug: &str) -> (r: String)
    ensures
        r@ == cache_name(slug@),
{
    if is_empty(slug) {
        return "icon".to_owned();
    }
    let cs = chars_of(slug);
    let n: usize = cs.len();
    let mut out = String::new();
    let ghost want = cache_name(slug@);
    assert(out@ == want.take(0));
    for i in 0..n
        invariant
            n == cs@.len(),
            n > 0,
            cs@ == slug@,
            want == cache_name(slug@),
            out@ == want.take(i as int),
    {
        if alphanumeric(cs[i]) || cs[i] == '-' || cs[i] == '_' {
            out.push(cs[i]);
        } else {
            out.push('_');
        }
        assert(want.take(i + 1) == want.take(i as int).push(want[i as int]));
    }
    assert(want.take(n as int) == want);
    out
}

/// The file in which the icon of `slug` is kept.
pub fn cache_file(slug: &str) -> (r: String)
    ensures
        r@ == cache_name(slug@) + ".bin"@,
{
    cat2(safe_cache_name(slug).as_str(), ".bin")
}

/// Whether that many bytes may be an icon.
pub fn icon_size_ok(len: usize) -> (r: bool)
    ensures
        r == (24 <= len <= 1_500_000),
{
    24 <= len && len <= 1_500_000
}

/// The pixels of an icon: for each four bytes, row by row.
pub struct IconPixels {
    pub width: u32,
    pub height: u32,
    pub rgba: Vec<u8>,
}

impl IconPixels {
    /// The icon has pixels, is no larger than 64 by 64, and has four bytes for each pixel.
    pub open spec fn wf(&self) -> bool {
        &&& 1 <= self.width <= 64
        &&& 1 <= self.height <= 64
        &&& self.rgba@.len() == 4 * self.width * self.height
    }
}

/// A decoded image.
#[verifier::external_type_specification]
#[verifier::external_body]
pub struct ExDynamicImage(image::DynamicImage);

/// Why bytes are no image.
#[verifier::external_type_specification]
#[verifier::external_body]
pub struct ExImageError(image::ImageError);

/// The width and height of the image that `image::load_from_memory` reads from bytes, where it
/// reads one.
pub uninterp spec fn image_size(bytes: Seq<u8>) -> Option<(u32, u32)>;

/// The width and height of a decoded image.
pub uninterp spec fn size_of_image(img: image::DynamicImage) -> (u32, u32);

/// How many bytes a pixel of a decoded image takes, and how many channels it has.
pub uninterp spec fn layout_of_image(img: image::DynamicImage) -> (u8, u8);

/// Whether `image::load_from_memory` reads the image from bytes.
pub uninterp spec fn is_decoded(bytes: Seq<u8>, img: image::DynamicImage) -> bool;

/// The pixels that `DynamicImage::thumbnail` for 64 by 64 and `to_rgba8` make of an image.
pub uninterp spec fn thumbnail_pixels(img: image::DynamicImage) -> Seq<u8>;

/// `image::load_from_memory`: whether it reads an image, and how large that is, depends on the
/// bytes alone; the image is one that it reads from them. Nothing is said of what the image shows,
/// which is the decoder's business. The decoder has to stay within the ranges of its sums and
/// places: where it leaves them, the call does not return.
#[verifier::external_body]
fn decode(bytes: &[u8]) -> (r: Result<image::DynamicImage, image::ImageError>)
    requires
        is_tame(bytes@),
    ensures
        match r {
            Ok(img) => image_size(bytes@) == Some(size_of_image(img)) && is_decoded(bytes@, img),
            Err(_) => image_size(bytes@) is None,
        },
{
    image::load_from_memory(bytes)
}

/// `DynamicImage::width` and `height`.
#[verifier::external_body]
fn dimensions(img: &image::DynamicImage) -> (r: (u32, u32))
    ensures
        r == size_of_image(*img),
{
    (img.width(), img.height())
}

/// `ColorType::bytes_per_pixel` and `channel_count`, for `DynamicImage::color`.
#[verifier::external_body]
fn layout(img: &image::DynamicImage) -> (r: (u8, u8))
    ensures
        r == layout_of_image(*img),
{
    (img.color().bytes_per_pixel(), img.color().channel_count())
}

/// Whether `n` is the whole number nearest to `64 * a / b`, or one where that is zero. Of two that
/// are equally near, it may be either.
pub open spec fn is_share(n: u32, a: u32, b: u32) -> bool {
    &&& n >= 1
    &&& (-b <= 2 * n * b - 128 * a <= b || (n == 1 && 128 * a <= b))
}

/// Whether an image of the size `from` has the size `to` once it is scaled to fit 64 by 64 in its
/// own proportions: its longer side is 64.
pub open spec fn is_scaled(from: (u32, u32), to: (u32, u32)) -> bool {
    if from.0 == 0 && from.1 == 0 {
        to.0 == 1 && to.1 == 1
    } else if from.0 >= from.1 {
        to.0 == 64 && is_share(to.1, from.1, from.0)
    } else {
        to.1 == 64 && is_share(to.0, from.0, from.1)
    }
}

/// How many pixels of a side of `from` pixels go into one of `to` pixels, at most: the whole side
/// into one, the same number into each where that divides the side, and else no more than the whole
/// number next above. The edges are reckoned with 24 bits: a side of that many is met exactly, and
/// what does not divide it is off by less than a part in 4,194,304.
pub open spec fn block_side(from: int, to: int) -> int {
    if to == 1 {
        from
    } else if from % to == 0 && from <= 16_777_216 {
        from / to
    } else {
        (from * (4_194_304 + to) + 4_194_304 * to - 1) / (4_194_304 * to)
    }
}

/// How many pixels the shorter side has at least once the longer one has 64: the whole number
/// nearest to `64 * shorter / longer`, the smaller one of two, and at least one.
pub open spec fn shorter_side(shorter: int, longer: int) -> int {
    let n = (128 * shorter + longer - 1) / (2 * longer);
    if n < 1 {
        1
    } else {
        n
    }
}

/// How many pixels of an image go into one of its thumbnail, at most.
pub open spec fn block_pixels(size: (u32, u32)) -> int {
    let longer = if size.0 >= size.1 {
        size.0 as int
    } else {
        size.1 as int
    };
    let shorter = if size.0 >= size.1 {
        size.1 as int
    } else {
        size.0 as int
    };
    if shorter == 0 {
        0
    } else {
        block_side(longer, 64) * block_side(shorter, shorter_side(shorter, longer))
    }
}

/// Whether the samples of the pixels that go into one of the thumbnail, and half their number,
/// add up to no more than 32 bits hold: 255 for each where a sample is one byte, else 65,535.
pub open spec fn sums_fit(size: (u32, u32), layout: (u8, u8)) -> bool {
    let sample = if layout.0 == layout.1 {
        255int
    } else {
        65_535int
    };
    block_pixels(size) * sample + block_pixels(size) / 2 <= u32::MAX
}

/// How many pixels of a side of `from` pixels go into one of `to` pixels, at most.
fn side_of_block(from: u32, to: u64) -> (r: u64)
    requires
        1 <= to <= 64,
    ensures
        r == block_side(from as int, to as int),
        r <= from + 1_026,
{
    let side: u64 = from as u64;
    if to == 1 {
        side
    } else if side % to == 0 && side <= 16_777_216 {
        side / to
    } else {
        let part: u64 = 4_194_304 * to;
        assert(side * (4_194_304 + to) <= side * 4_194_368) by (nonlinear_arith)
            requires
                to <= 64,
        ;
        let r: u64 = (side * (4_194_304 + to) + part - 1) / part;
        assert(r <= side + 1_026) by (nonlinear_arith)
            requires
                r == (side * (4_194_304 + to) + part - 1) / (part as int),
                part == 4_194_304 * to,
                2 <= to <= 64,
                side <= 0xffff_ffff,
        ;
        r
    }
}

/// Whether a thumbnail of an image can be made.
fn can_be_averaged(size: (u32, u32), layout: (u8, u8)) -> (r: bool)
    ensures
        r == sums_fit(size, layout),
{
    let (width, height) = size;
    let longer: u32 = if width >= height {
        width
    } else {
        height
    };
    let shorter: u32 = if width >= height {
        height
    } else {
        width
    };
    if shorter == 0 {
        return true;
    }
    let near: u64 = (128 * shorter as u64 + longer as u64 - 1) / (2 * longer as u64);
    assert(near <= 64) by (nonlinear_arith)
        requires
            near == (128 * shorter + longer - 1) / (2 * longer),
            0 < shorter <= longer,
    ;
    let least: u64 = if near < 1 {
        1
    } else {
        near
    };
    let across: u64 = side_of_block(longer, 64);
    let along: u64 = side_of_block(shorter, least);
    assert(across * along <= 4_294_968_321 * 4_294_968_321) by (nonlinear_arith)
        requires
            across <= 4_294_968_321,
            along <= 4_294_968_321,
    ;
    let block: u128 = across as u128 * along as u128;
    let sample: u128 = if layout.0 == layout.1 {
        255
    } else {
        65_535
    };
    assert(block * sample <= block * 65_535) by (nonlinear_arith)
        requires
            sample <= 65_535,
    ;
    block * sample + block / 2 <= u32::MAX as u128
}

/// `DynamicImage::thumbnail` for 64 by 64, with `to_rgba8` for its pixels: the image in its own
/// proportions, with at least one and at most 64 pixels either way, and four bytes for each, which
/// depend on the image alone. Each pixel is the average of a block of the image; the sums are made
/// in 32 bits, and have to fit.
#[verifier::external_body]
fn thumbnail(img: &image::DynamicImage) -> (r: (u32, u32, Vec<u8>))
    requires
        sums_fit(size_of_image(*img), layout_of_image(*img)),
    ensures
        is_scaled(size_of_image(*img), (r.0, r.1)),
        1 <= r.0 <= 64,
        1 <= r.1 <= 64,
        r.2@.len() == 4 * r.0 * r.1,
        r.2@ == thumbnail_pixels(*img),
{
    let rgba = img.thumbnail(64, 64).to_rgba8();
    let (width, height) = rgba.dimensions();
    (width, height, rgba.into_raw())
}

/// The icon with the given pixels; none where it has no pixels.
pub fn icon_of(width: u32, height: u32, rgba: Vec<u8>) -> (r: Option<IconPixels>)
    ensures
        match r {
            Some(p) => width != 0 && height != 0 && p.width == width && p.height == height
                && p.rgba@ == rgba@,
            None => width == 0 || height == 0,
        },
{
    if width == 0 || height == 0 {
        return None;
    }
    Some(IconPixels { width, height, rgba })
}

/// Whether `icon` is what is shown of the decoded image `img`: its thumbnail, or nothing where
/// that cannot be averaged.
pub open spec fn is_icon_of(icon: Option<IconPixels>, img: image::DynamicImage) -> bool {
    match icon {
        Some(p) => {
            &&& sums_fit(size_of_image(img), layout_of_image(img))
            &&& p.wf()
            &&& is_scaled(size_of_image(img), (p.width, p.height))
            &&& p.rgba@ == thumbnail_pixels(img)
        },
        None => !sums_fit(size_of_image(img), layout_of_image(img)),
    }
}

/// Whether `icon` is what is shown of `bytes`: of the image that is read from them, or nothing
/// where they are no image, or one that its decoder cannot read within its ranges.
pub open spec fn is_shown_of(icon: Option<IconPixels>, bytes: Seq<u8>) -> bool {
    if !is_tame(bytes) || image_size(bytes) is None {
        icon is None
    } else {
        exists|img: image::DynamicImage| #[trigger]
            is_decoded(bytes, img) && image_size(bytes) == Some(size_of_image(img)) && is_icon_of(
                icon,
                img,
            )
    }
}

/// The thumbnail of a decoded image; none where it cannot be averaged.
fn icon_of_image(img: &image::DynamicImage) -> (r: Option<IconPixels>)
    ensures
        is_icon_of(r, *img),
{
    if !can_be_averaged(dimensions(img), layout(img)) {
        return None;
    }
    let (width, height, rgba) = thumbnail(img);
    icon_of(width, height, rgba)
}

/// The icon that `bytes` are the image of, scaled to 64 by 64; none where they are no image, one
/// that its decoder cannot read within its ranges, or one so large that its pixels cannot be
/// averaged.
pub fn bytes_to_icon_pixels(bytes: &[u8]) -> (r: Option<IconPixels>)
    ensures
        is_shown_of(r, bytes@),
{
    if !tame(bytes) {
        return None;
    }
    match decode(bytes) {
        Ok(img) => icon_of_image(&img),
        Err(_) => None,
    }
}

/// The icon in what is kept or was downloaded: none where its size is not that of an icon.
pub fn icon_from_bytes(bytes: &[u8]) -> (r: Option<IconPixels>)
    ensures
        if 24 <= bytes@.len() <= 1_500_000 {
            is_shown_of(r, bytes@)
        } else {
            r is None
        },
{
    if icon_size_ok(bytes.len()) {
        bytes_to_icon_pixels(bytes)
    } else {
        None
    }
}

/// The address of an icon is taken where it begins with `http://` or `https://`; one that begins with
/// two slashes gets `https:` before it; any other, and a blank one, is refused. White space around it
/// does not matter.
pub proof fn law_address_of_an_icon(a: Seq<char>, url: Seq<char>, b: Seq<char>)
    requires
        forall|i: int| 0 <= i < a.len() ==> crate::text::is_white(#[trigger] a[i]),
        forall|i: int| 0 <= i < b.len() ==> crate::text::is_white(#[trigger] b[i]),
        url.len() > 0 ==> !crate::text::is_white(url.first()) && !crate::text::is_white(url.last()),
    ensures
        starts_with(url, "http://"@) || starts_with(url, "https://"@) ==> icon_url(a + url + b) == Some(
            url,
        ),
        starts_with(url, "//"@) ==> icon_url(a + url + b) == Some("https:"@ + url),
        !starts_with(url, "http://"@) && !starts_with(url, "https://"@) && !starts_with(url, "//"@)
            ==> icon_url(a + url + b) is None,
{
    crate::text::law_trim(a, url, b);
    reveal_strlit("//");
    reveal_strlit("http://");
    reveal_strlit("https://");
    crate::text::law_ends("//"@, url);
    crate::text::law_ends("http://"@, url);
    crate::text::law_ends("https://"@, url);
    assert("//"@[0] == '/' && "http://"@[0] == 'h' && "https://"@[0] == 'h');
    if starts_with(url, "//"@) && (starts_with(url, "http://"@) || starts_with(url, "https://"@)) {
        assert(url[0] == "//"@[0]);
    }
}

/// The name under which an icon is kept is as long as the plugin's, with an underscore for each
/// character that is not an ASCII letter or digit, a hyphen or an underscore; `icon` where that is
/// empty.
pub proof fn law_name_of_a_kept_icon(slug: Seq<char>, i: int)
    ensures
        slug.len() == 0 ==> cache_name(slug) == seq!['i', 'c', 'o', 'n'],
        slug.len() > 0 ==> cache_name(slug).len() == slug.len(),
        0 <= i < slug.len() ==> {
            let c = slug[i];
            if 'a' <= c <= 'z' || 'A' <= c <= 'Z' || '0' <= c <= '9' || c == '-' || c == '_' {
                cache_name(slug)[i] == c
            } else {
                cache_name(slug)[i] == '_'
            }
        },
{
    reveal_strlit("icon");
    assert("icon"@ =~= seq!['i', 'c', 'o', 'n']);
}

/// A picture that its decoder reads gets an icon, unless its pixels cannot be averaged: its own
/// thumbnail. What is no picture gets none.
pub proof fn law_icon_of_a_picture(icon: Option<IconPixels>, bytes: Seq<u8>)
    requires
        is_shown_of(icon, bytes),
    ensures
        image_size(bytes) is None ==> icon is None,
        is_tame(bytes) && image_size(bytes) is Some && icon is None ==> exists|img: image::DynamicImage|
            #[trigger] is_decoded(bytes, img) && !sums_fit(size_of_image(img), layout_of_image(img)),
        icon is Some ==> is_tame(bytes) && 1 <= icon->0.width <= 64 && 1 <= icon->0.height <= 64
            && icon->0.rgba@.len() == 4 * icon->0.width * icon->0.height && exists|
            img: image::DynamicImage,
        | #[trigger]
            is_decoded(bytes, img) && icon->0.rgba@ == thumbnail_pixels(img) && is_scaled(
                size_of_image(img),
                (icon->0.width, icon->0.height),
            ),
{
}

/// Every picture of up to 16,384 pixels either way with samples of one byte can be averaged.
pub proof fn law_usual_pictures_fit(size: (u32, u32), channels: u8)
    requires
        1 <= size.0 <= 16_384,
        1 <= size.1 <= 16_384,
    ensures
        sums_fit(size, (channels, channels)),
{
    let longer = if size.0 >= size.1 {
        size.0 as int
    } else {
        size.1 as int
    };
    let shorter = if size.0 >= size.1 {
        size.1 as int
    } else {
        size.0 as int
    };
    let n = shorter_side(shorter, longer);
    assert(n >= 1);
    lemma_block_side(longer, 64);
    lemma_block_side(shorter, n);
    let a = block_side(longer, 64);
    let b = block_side(shorter, n);
    assert(a <= 258) by {
        assert(longer / 64 <= 256);
    }
    assert(b <= 16_386);
    assert(a * b <= 258 * 16_386) by (nonlinear_arith)
        requires
            0 <= a <= 258,
            0 <= b <= 16_386,
    ;
}

proof fn lemma_block_side(from: int, to: int)
    requires
        1 <= from <= 16_384,
        1 <= to,
    ensures
        0 <= block_side(from, to) <= from / to + 2,
        block_side(from, to) <= from + 2,
{
    let q = from / to;
    assert(0 <= q <= from) by (nonlinear_arith)
        requires
            q == from / to,
            from >= 1,
            to >= 1,
    ;
    if to == 1 {
        assert(q == from);
    } else if !(from % to == 0) {
        let p = 4_194_304 * to;
        let x = from * (4_194_304 + to) + p - 1;
        let r = x / p;
        assert(r <= q + 2 && r >= 0) by (nonlinear_arith)
            requires
                r == x / p,
                p == 4_194_304 * to,
                x == from * (4_194_304 + to) + p - 1,
                q == from / to,
                1 <= from <= 16_384,
                to >= 1,
        ;
    }
}

} // verus!
