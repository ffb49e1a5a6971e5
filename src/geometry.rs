//! Page geometry: where an image of given pixel size goes on a page.
//!
//! All lengths are micrometres. A placement holds exact fractions; the spec
//! functions below state the computation over pairs `(numerator,
//! denominator)` of integers, compared by cross-multiplication.
use vstd::prelude::*;

use crate::error::PdfError;
use crate::{A4_HEIGHT_UM, A4_WIDTH_UM, DEFAULT_DPI, DEFAULT_MARGIN_UM, UM_PER_INCH};

verus! {

/// The fraction `a.0 / a.1` equals `b.0 / b.1` (both denominators positive).
pub open spec fn frac_eq(a: (int, int), b: (int, int)) -> bool {
    a.0 * b.1 == b.0 * a.1
}

/// The fraction `a` is at most `b` (both denominators positive).
pub open spec fn frac_le(a: (int, int), b: (int, int)) -> bool {
    a.0 * b.1 <= b.0 * a.1
}

/// The fraction `a` is less than `b` (both denominators positive).
pub open spec fn frac_lt(a: (int, int), b: (int, int)) -> bool {
    a.0 * b.1 < b.0 * a.1
}

pub open spec fn frac_add(a: (int, int), b: (int, int)) -> (int, int) {
    (a.0 * b.1 + b.0 * a.1, a.1 * b.1)
}

pub open spec fn frac_sub(a: (int, int), b: (int, int)) -> (int, int) {
    (a.0 * b.1 - b.0 * a.1, a.1 * b.1)
}

pub open spec fn frac_mul(a: (int, int), b: (int, int)) -> (int, int) {
    (a.0 * b.0, a.1 * b.1)
}

pub open spec fn frac_div(a: (int, int), b: (int, int)) -> (int, int) {
    (a.0 * b.1, a.1 * b.0)
}

pub open spec fn whole(n: int) -> (int, int) {
    (n, 1)
}

/// An exact non-negative fraction `num / den`.
#[derive(Debug, Clone, Copy, PartialEq, Eq, Structural)]
pub struct Ratio {
    pub num: u64,
    pub den: u64,
}

impl Ratio {
    pub open spec fn frac(self) -> (int, int) {
        (self.num as int, self.den as int)
    }
}

/// Page geometry and rendering settings of a conversion run.
#[derive(Debug, Clone)]
pub struct PdfConfig {
    /// Page width in micrometres.
    pub page_width_um: u32,
    /// Page height in micrometres.
    pub page_height_um: u32,
    /// Margin on each of the four sides, in micrometres.
    pub margin_um: u32,
    /// Pixels per inch assumed for every image.
    pub dpi: u32,
    /// Document title.
    pub title: String,
}

impl PdfConfig {
    /// Width of the printable area.
    pub open spec fn avail_width(self) -> int {
        self.page_width_um - 2 * self.margin_um
    }

    /// Height of the printable area.
    pub open spec fn avail_height(self) -> int {
        self.page_height_um - 2 * self.margin_um
    }

    /// A configuration that every operation accepts: a positive printable
    /// area, a positive resolution and a title.
    pub open spec fn is_valid(self) -> bool {
        &&& self.avail_width() > 0
        &&& self.avail_height() > 0
        &&& self.dpi > 0
        &&& self.title@.len() > 0
    }

    /// Length of `px` pixels at the configured resolution: `px * 25400 / dpi`.
    pub open spec fn pixels_to_length(self, px: int) -> (int, int) {
        (px * UM_PER_INCH, self.dpi as int)
    }

    /// The scale at which an image `w` pixels wide exactly fills the width.
    pub open spec fn scale_x(self, w: int) -> (int, int) {
        frac_div(whole(self.avail_width()), self.pixels_to_length(w))
    }

    /// The scale at which an image `h` pixels high exactly fills the height.
    pub open spec fn scale_y(self, h: int) -> (int, int) {
        frac_div(whole(self.avail_height()), self.pixels_to_length(h))
    }
}

impl Default for PdfConfig {
    /// An A4 portrait page with 20 mm margins at 300 dpi.
    fn default() -> (r: Self)
        ensures
            r.page_width_um == A4_WIDTH_UM,
            r.page_height_um == A4_HEIGHT_UM,
            r.margin_um == DEFAULT_MARGIN_UM,
            r.dpi == DEFAULT_DPI,
            r.title@ == "Generated PDF"@,
            r.is_valid(),
    {
        proof {
            reveal_strlit("Generated PDF");
        }
        PdfConfig {
            page_width_um: A4_WIDTH_UM,
            page_height_um: A4_HEIGHT_UM,
            margin_um: DEFAULT_MARGIN_UM,
            dpi: DEFAULT_DPI,
            title: "Generated PDF".to_owned(),
        }
    }
}

/// Where one image goes on its page: a uniform scale and the displayed
/// rectangle, whose lower-left corner is `(x, y)` from the page's lower-left
/// corner. Lengths are micrometres.
#[derive(Debug, Clone, Copy, PartialEq, Eq, Structural)]
pub struct Placement {
    pub scale: Ratio,
    pub width: Ratio,
    pub height: Ratio,
    pub x: Ratio,
    pub y: Ratio,
}

/// An image of `w` by `h` pixels can be placed under `c`.
pub open spec fn placeable(c: PdfConfig, w: int, h: int) -> bool {
    &&& w > 0
    &&& h > 0
    &&& c.dpi > 0
    &&& c.avail_width() > 0
    &&& c.avail_height() > 0
}

/// The width of the printable area binds the scale: `scale_x <= scale_y`.
pub open spec fn width_binds(c: PdfConfig, w: int, h: int) -> bool {
    c.avail_width() * h <= c.avail_height() * w
}

/// The placement of a `w` by `h` pixel image, in the exact form that
/// [`resolve`] returns.
pub open spec fn placement_of(c: PdfConfig, w: u32, h: u32) -> Placement {
    let aw = c.avail_width();
    let ah = c.avail_height();
    let m = c.margin_um as int;
    let d = c.dpi as int;
    if width_binds(c, w as int, h as int) {
        Placement {
            scale: Ratio { num: (aw * d) as u64, den: (w * UM_PER_INCH) as u64 },
            width: Ratio { num: aw as u64, den: 1 },
            height: Ratio { num: (aw * h) as u64, den: w as u64 },
            x: Ratio { num: m as u64, den: 1 },
            y: Ratio { num: (c.page_height_um * w - aw * h) as u64, den: (2 * w) as u64 },
        }
    } else {
        Placement {
            scale: Ratio { num: (ah * d) as u64, den: (h * UM_PER_INCH) as u64 },
            width: Ratio { num: (ah * w) as u64, den: h as u64 },
            height: Ratio { num: ah as u64, den: 1 },
            x: Ratio { num: (c.page_width_um * h - ah * w) as u64, den: (2 * h) as u64 },
            y: Ratio { num: m as u64, den: 1 },
        }
    }
}

proof fn lemma_mul_bound(a: int, b: int)
    requires
        0 <= a <= 0xffff_ffff,
        0 <= b <= 0xffff_ffff,
    ensures
        0 <= a * b <= 0xffff_fffe_0000_0001,
{
    assert(0 <= a * b <= 0xffff_ffff * 0xffff_ffff) by (nonlinear_arith)
        requires
            0 <= a <= 0xffff_ffff,
            0 <= b <= 0xffff_ffff,
    ;
}

proof fn lemma_mul_mono(a: int, b: int, c: int)
    requires
        0 <= a <= b,
        0 <= c,
    ensures
        a * c <= b * c,
{
    assert(a * c <= b * c) by (nonlinear_arith)
        requires
            0 <= a <= b,
            0 <= c,
    ;
}

/// The fields of `placement_of` hold their formulas without truncation.
proof fn lemma_placement_fields(c: PdfConfig, w: u32, h: u32)
    requires
        placeable(c, w as int, h as int),
    ensures
        ({
            let p = placement_of(c, w, h);
            let aw = c.avail_width();
            let ah = c.avail_height();
            let d = c.dpi as int;
            if width_binds(c, w as int, h as int) {
                &&& p.scale.num == aw * d
                &&& p.scale.den == w * UM_PER_INCH
                &&& p.width.num == aw
                &&& p.height.num == aw * h
                &&& p.height.den == w
                &&& p.x.num == c.margin_um
                &&& p.y.num == c.page_height_um * w - aw * h
                &&& p.y.den == 2 * w
            } else {
                &&& p.scale.num == ah * d
                &&& p.scale.den == h * UM_PER_INCH
                &&& p.width.num == ah * w
                &&& p.width.den == h
                &&& p.height.num == ah
                &&& p.x.num == c.page_width_um * h - ah * w
                &&& p.x.den == 2 * h
                &&& p.y.num == c.margin_um
            }
        }),
{
    let aw = c.avail_width();
    let ah = c.avail_height();
    lemma_mul_bound(aw, c.dpi as int);
    lemma_mul_bound(ah, c.dpi as int);
    lemma_mul_bound(aw, h as int);
    lemma_mul_bound(ah, w as int);
    lemma_mul_bound(c.page_height_um as int, w as int);
    lemma_mul_bound(c.page_width_um as int, h as int);
    lemma_mul_mono(ah, c.page_height_um as int, w as int);
    lemma_mul_mono(aw, c.page_width_um as int, h as int);
}

proof fn lemma_centred(g: int, a: int, wn: int, wd: int, dd: int)
    requires
        2 * g * wd == (a * wd - wn) * dd,
    ensures
        g * (wd * dd) == ((a * wd - wn) * dd - g * wd) * dd,
{
    assert(g * (wd * dd) == ((a * wd - wn) * dd - g * wd) * dd) by (nonlinear_arith)
        requires
            2 * g * wd == (a * wd - wn) * dd,
    ;
}

proof fn lemma_mul_pos(a: int, b: int)
    requires
        a > 0,
        b > 0,
    ensures
        a * b > 0,
{
    assert(a * b > 0) by (nonlinear_arith)
        requires
            a > 0,
            b > 0,
    ;
}

proof fn lemma_scale_cross(aw: int, ah: int, w: int, h: int, d: int, k: int)
    requires
        aw * h <= ah * w,
        d > 0,
        k > 0,
    ensures
        aw * d * (h * k) <= ah * d * (w * k),
{
    assert(aw * d * (h * k) <= ah * d * (w * k)) by (nonlinear_arith)
        requires
            aw * h <= ah * w,
            d > 0,
            k > 0,
    ;
}

proof fn lemma_size_identity(a: int, b: int, s: int, d: int, k: int)
    ensures
        s * b * (d * (a * k)) == b * k * (s * d) * a,
        s * (d * (a * k)) == a * k * (s * d) * 1,
{
    assert(s * b * (d * (a * k)) == b * k * (s * d) * a) by (nonlinear_arith);
    assert(s * (d * (a * k)) == a * k * (s * d) * 1) by (nonlinear_arith);
}

proof fn lemma_offset_identity(page: int, avail: int, m: int, cross: int, px: int)
    requires
        page == avail + 2 * m,
    ensures
        (page * px - cross) * (px * 2) == (m * (px * 2) + (avail * px - cross)) * (2 * px),
        (page * px - cross) - m * (2 * px) == avail * px - cross,
{
    assert((page * px - cross) * (px * 2) == (m * (px * 2) + (avail * px - cross)) * (2 * px))
        by (nonlinear_arith)
        requires
            page == avail + 2 * m,
    ;
    assert((page * px - cross) - m * (2 * px) == avail * px - cross) by (nonlinear_arith)
        requires
            page == avail + 2 * m,
    ;
}

/// `p` is placed by the layout rule for a `w` by `h` pixel image under `c`:
/// the scale is the smaller of `scale_x` and `scale_y`, the displayed size is
/// the image's physical size times the scale, and the offsets are
/// `margin + (available - displayed) / 2` on each axis.
pub open spec fn follows_layout_rule(c: PdfConfig, w: u32, h: u32, p: Placement) -> bool {
    let m = whole(c.margin_um as int);
    &&& p.scale.den > 0 && p.width.den > 0 && p.height.den > 0
    &&& p.x.den > 0 && p.y.den > 0
    &&& frac_le(p.scale.frac(), c.scale_x(w as int))
    &&& frac_le(p.scale.frac(), c.scale_y(h as int))
    &&& (frac_eq(p.scale.frac(), c.scale_x(w as int)) || frac_eq(
        p.scale.frac(),
        c.scale_y(h as int),
    ))
    &&& frac_eq(p.width.frac(), frac_mul(c.pixels_to_length(w as int), p.scale.frac()))
    &&& frac_eq(p.height.frac(), frac_mul(c.pixels_to_length(h as int), p.scale.frac()))
    &&& frac_eq(
        p.x.frac(),
        frac_add(m, frac_div(frac_sub(whole(c.avail_width()), p.width.frac()), whole(2))),
    )
    &&& frac_eq(
        p.y.frac(),
        frac_add(m, frac_div(frac_sub(whole(c.avail_height()), p.height.frac()), whole(2))),
    )
}

/// The exact placement follows the layout rule.
pub proof fn lemma_placement_follows_algorithm(c: PdfConfig, w: u32, h: u32)
    requires
        placeable(c, w as int, h as int),
    ensures
        follows_layout_rule(c, w, h, placement_of(c, w, h)),
{
    lemma_placement_fields(c, w, h);
    let p = placement_of(c, w, h);
    let aw = c.avail_width();
    let ah = c.avail_height();
    let d = c.dpi as int;
    let mm = c.margin_um as int;
    let wi = w as int;
    let hi = h as int;
    let k = UM_PER_INCH as int;
    lemma_mul_pos(wi, k);
    lemma_mul_pos(hi, k);
    if width_binds(c, wi, hi) {
        lemma_scale_cross(aw, ah, wi, hi, d, k);
        lemma_size_identity(wi, hi, aw, d, k);
        lemma_offset_identity(c.page_height_um as int, ah, mm, aw * hi, wi);
        assert(p.x.frac() == (mm, 1int));
        assert(p.width.frac() == (aw, 1int));
        assert(frac_sub(whole(aw), (aw, 1int)) == (0int, 1int));
        assert(frac_div((0int, 1int), whole(2)) == (0int, 2int));
        assert(frac_add(whole(mm), (0int, 2int)) == (mm * 2, 2int));
    } else {
        lemma_scale_cross(ah, aw, hi, wi, d, k);
        lemma_size_identity(hi, wi, ah, d, k);
        lemma_offset_identity(c.page_width_um as int, aw, mm, ah * wi, hi);
        assert(p.x.frac() == (c.page_width_um * hi - ah * wi, 2 * hi));
        assert(p.width.frac() == (ah * wi, hi));
        assert(frac_div(frac_sub(whole(aw), p.width.frac()), whole(2)) == (aw * hi - ah * wi, hi
            * 2));
    }
}

/// The displayed image never exceeds the printable area, lies within the
/// margins, and has equal gaps before and after it on both axes.
pub proof fn lemma_placement_fits_and_is_centred(c: PdfConfig, w: u32, h: u32)
    requires
        placeable(c, w as int, h as int),
    ensures
        ({
            let p = placement_of(c, w, h);
            let m = whole(c.margin_um as int);
            let gap_x = frac_sub(p.x.frac(), m);
            let gap_y = frac_sub(p.y.frac(), m);
            &&& frac_le(p.width.frac(), whole(c.avail_width()))
            &&& frac_le(p.height.frac(), whole(c.avail_height()))
            &&& frac_le(m, p.x.frac())
            &&& frac_le(m, p.y.frac())
            &&& frac_eq(gap_x, frac_sub(frac_sub(whole(c.avail_width()), p.width.frac()), gap_x))
            &&& frac_eq(gap_y, frac_sub(frac_sub(whole(c.avail_height()), p.height.frac()), gap_y))
        }),
{
    lemma_placement_fields(c, w, h);
    let aw = c.avail_width();
    let ah = c.avail_height();
    let mm = c.margin_um as int;
    let wi = w as int;
    let hi = h as int;
    if width_binds(c, wi, hi) {
        lemma_offset_identity(c.page_height_um as int, ah, mm, aw * hi, wi);
        let g = ah * wi - aw * hi;
        assert(2 * g * wi == (ah * wi - aw * hi) * (2 * wi)) by (nonlinear_arith)
            requires
                g == ah * wi - aw * hi,
        ;
        lemma_centred(g, ah, aw * hi, wi, 2 * wi);
        lemma_centred(0, aw, aw, 1, 1);
    } else {
        lemma_offset_identity(c.page_width_um as int, aw, mm, ah * wi, hi);
        let g = aw * hi - ah * wi;
        assert(2 * g * hi == (aw * hi - ah * wi) * (2 * hi)) by (nonlinear_arith)
            requires
                g == aw * hi - ah * wi,
        ;
        lemma_centred(g, aw, ah * wi, hi, 2 * hi);
        lemma_centred(0, ah, ah, 1, 1);
    }
}

/// An image with the printable area's aspect ratio has equal candidate
/// scales and fills the printable area exactly on both axes.
pub proof fn lemma_matching_aspect_fills_area(c: PdfConfig, w: u32, h: u32)
    requires
        placeable(c, w as int, h as int),
        w * c.avail_height() == h * c.avail_width(),
    ensures
        ({
            let p = placement_of(c, w, h);
            &&& frac_eq(c.scale_x(w as int), c.scale_y(h as int))
            &&& frac_eq(p.width.frac(), whole(c.avail_width()))
            &&& frac_eq(p.height.frac(), whole(c.avail_height()))
        }),
{
    lemma_placement_fields(c, w, h);
    let aw = c.avail_width();
    let ah = c.avail_height();
    let d = c.dpi as int;
    let wi = w as int;
    let hi = h as int;
    let k = UM_PER_INCH as int;
    assert(aw * d * (1 * (hi * k)) == ah * d * (1 * (wi * k))) by (nonlinear_arith)
        requires
            wi * ah == hi * aw,
    ;
    assert(aw * hi * 1 == ah * wi) by (nonlinear_arith)
        requires
            wi * ah == hi * aw,
    ;
}

/// A square image on a portrait page is bound by the width: `scale_x` is at
/// most `scale_y`, and the vertical gap exceeds the horizontal one.
pub proof fn lemma_square_on_portrait_page(c: PdfConfig, w: u32, h: u32)
    requires
        placeable(c, w as int, h as int),
        w == h,
        c.page_width_um < c.page_height_um,
    ensures
        ({
            let p = placement_of(c, w, h);
            let m = whole(c.margin_um as int);
            &&& frac_le(c.scale_x(w as int), c.scale_y(h as int))
            &&& frac_lt(frac_sub(p.x.frac(), m), frac_sub(p.y.frac(), m))
        }),
{
    lemma_placement_fields(c, w, h);
    let aw = c.avail_width();
    let ah = c.avail_height();
    let d = c.dpi as int;
    let mm = c.margin_um as int;
    let wi = w as int;
    let k = UM_PER_INCH as int;
    assert(aw * wi <= ah * wi) by (nonlinear_arith)
        requires
            aw < ah,
            wi > 0,
    ;
    assert(width_binds(c, wi, wi));
    assert(aw * d * (1 * (wi * k)) <= ah * d * (1 * (wi * k))) by (nonlinear_arith)
        requires
            aw < ah,
            wi > 0,
            d > 0,
            k > 0,
    ;
    assert(c.page_height_um as int == ah + 2 * mm);
    let yy = (ah + 2 * mm) * wi - aw * wi;
    assert(frac_lt(frac_sub(whole(mm), whole(mm)), frac_sub((yy, 2 * wi), whole(mm))))
        by (nonlinear_arith)
        requires
            yy == (ah + 2 * mm) * wi - aw * wi,
            aw < ah,
            wi > 0,
    ;
}

/// The outcome of [`resolve`]: where the image can be placed, a placement
/// that follows the layout rule, in the one representation `placement_of`
/// fixes (fractions are not reduced); else a geometry error that names the
/// image's size.
pub open spec fn resolve_outcome(c: PdfConfig, w: u32, h: u32, r: Result<Placement, PdfError>) -> bool {
    &&& r is Ok <==> placeable(c, w as int, h as int)
    &&& r is Ok ==> follows_layout_rule(c, w, h, r->Ok_0)
    &&& r is Ok ==> r->Ok_0 == placement_of(c, w, h)
    &&& r is Err ==> r->Err_0 == (PdfError::Geometry { width_px: w, height_px: h })
}

/// Resolving the same image size under the same configuration twice gives
/// the identical result.
pub proof fn lemma_resolve_is_deterministic(
    c: PdfConfig,
    w: u32,
    h: u32,
    r1: Result<Placement, PdfError>,
    r2: Result<Placement, PdfError>,
)
    requires
        resolve_outcome(c, w, h, r1),
        resolve_outcome(c, w, h, r2),
    ensures
        r1 == r2,
{
}

/// Places a `width_px` by `height_px` image on a page of `config`: the image
/// is scaled uniformly by the smaller of the two scales that make it fill the
/// printable width or height, and centred in the printable area.
pub fn resolve(width_px: u32, height_px: u32, config: &PdfConfig) -> (r: Result<
    Placement,
    PdfError,
>)
    ensures
        resolve_outcome(*config, width_px, height_px, r),
{
    let pw = width_px as u64;
    let ph = height_px as u64;
    let page_w = config.page_width_um as u64;
    let page_h = config.page_height_um as u64;
    let m = config.margin_um as u64;
    let d = config.dpi as u64;
    let m2 = 2 * m;
    if pw == 0 || ph == 0 || d == 0 || m2 >= page_w || m2 >= page_h {
        return Err(PdfError::Geometry { width_px, height_px });
    }
    let aw = page_w - m2;
    let ah = page_h - m2;
    proof {
        lemma_placement_fields(*config, width_px, height_px);
        lemma_placement_follows_algorithm(*config, width_px, height_px);
        lemma_mul_bound(aw as int, ph as int);
        lemma_mul_bound(ah as int, pw as int);
        lemma_mul_bound(aw as int, d as int);
        lemma_mul_bound(ah as int, d as int);
        lemma_mul_bound(page_h as int, pw as int);
        lemma_mul_bound(page_w as int, ph as int);
    }
    if aw * ph <= ah * pw {
        Ok(Placement {
            scale: Ratio { num: aw * d, den: pw * UM_PER_INCH },
            width: Ratio { num: aw, den: 1 },
            height: Ratio { num: aw * ph, den: pw },
            x: Ratio { num: m, den: 1 },
            y: Ratio { num: page_h * pw - aw * ph, den: 2 * pw },
        })
    } else {
        Ok(Placement {
            scale: Ratio { num: ah * d, den: ph * UM_PER_INCH },
            width: Ratio { num: ah * pw, den: ph },
            height: Ratio { num: ah, den: 1 },
            x: Ratio { num: page_w * ph - ah * pw, den: 2 * ph },
            y: Ratio { num: m, den: 1 },
        })
    }
}

} // verus!
