//! The RGB8 image buffer and the drawing operations on it.
//!
//! Coordinates have their origin at the bottom-left corner, `y` growing upwards;
//! the pixels are stored row by row from the top row down, so `(x, y)` lives at
//! index `width * (height - 1 - y) + x`.
use crate::codec::{
    decode_png_frame, encode_png_rgb8, png_frame, png_rgb8_encoded, PNG_RGB, PNG_RGBA,
};
use crate::geometry::{
    blend_channel, blend_px, in_border, in_box, lemma_layer_step, lemma_step_bounds, line_px,
    lower_coverage, ring, sample_px, step_position, thickness_fits, upper_coverage, SNAP_DIVISOR,
};
use crate::pixels::{
    bytes_of, bytes_to_rgb8, copy_pixels, lemma_bytes_determine_pixels, rgb8_to_bytes,
    strip_alpha, without_alpha,
};
use vstd::prelude::*;

verus! {

/// Why an operation on an image failed.
#[derive(Debug, Clone, Copy, PartialEq, Eq, Structural)]
pub enum ImageError {
    /// The byte count is not `width * height * 3`.
    InvalidByteLength,
    /// A decoded image does not have 8 bits per sample.
    UnsupportedBitDepth,
    /// A decoded image is neither RGB nor RGBA.
    UnsupportedColorType,
    /// The image container could not be decoded.
    DecodeError,
    /// The image container could not be encoded.
    EncodeError,
    /// Reading or writing the image failed.
    IoError,
    /// A coordinate is not less than the matching dimension.
    OutOfBounds,
    /// The border is too thick for the rectangle.
    ThicknessTooLarge,
}

/// How the samples of a decoded image are laid out.
#[derive(Debug, Clone, Copy, PartialEq, Eq, Structural)]
pub enum SampleLayout {
    /// Red, green, blue.
    Rgb,
    /// Red, green, blue, alpha.
    Rgba,
    /// Any other layout.
    Other,
}

/// What `clear` restores: one color, or the pixels an image was built from.
pub enum BackgroundRGB8 {
    Color([u8; 3]),
    Image(Vec<[u8; 3]>),
}

/// An RGB8 image that shapes are drawn onto.
pub struct ImageRGB8 {
    /// The width of the image
    pub width: usize,
    /// The height of the image
    pub height: usize,
    /// The image pixel data, top row first
    pub image_data: Vec<[u8; 3]>,
    /// What `clear` restores
    pub background_data: BackgroundRGB8,
}

/// The layout of samples of the PNG color type `color_type`.
pub open spec fn layout_of(color_type: u8) -> SampleLayout {
    if color_type == PNG_RGB {
        SampleLayout::Rgb
    } else if color_type == PNG_RGBA {
        SampleLayout::Rgba
    } else {
        SampleLayout::Other
    }
}

/// `r` is what building a `width` by `height` image from `bytes` gives: the
/// image whose bytes, and background, they are, or `InvalidByteLength` when
/// their count is not `width * height * 3`.
pub open spec fn built_from_bytes(
    r: Result<ImageRGB8, ImageError>,
    width: int,
    height: int,
    bytes: Seq<u8>,
) -> bool {
    &&& r.is_ok() <==> bytes.len() == width * height * 3
    &&& match r {
        Ok(img) => {
            &&& img.wf()
            &&& img.width == width
            &&& img.height == height
            &&& bytes_of(img.image_data@) == bytes
            &&& img.background() == img.image_data@
        },
        Err(e) => e == ImageError::InvalidByteLength,
    }
}

/// `r` is what building an image from decoded samples gives: an error for
/// a bit depth other than 8, else for a layout other than RGB or RGBA, else
/// the image built from the RGB bytes (RGBA with the alpha left out).
pub open spec fn built_from_decoded(
    r: Result<ImageRGB8, ImageError>,
    width: int,
    height: int,
    bit_depth: u8,
    layout: SampleLayout,
    samples: Seq<u8>,
) -> bool {
    if bit_depth != 8 {
        r == Err::<ImageRGB8, ImageError>(ImageError::UnsupportedBitDepth)
    } else if layout == SampleLayout::Rgb {
        built_from_bytes(r, width, height, samples)
    } else if layout == SampleLayout::Rgba {
        built_from_bytes(r, width, height, without_alpha(samples))
    } else {
        r == Err::<ImageRGB8, ImageError>(ImageError::UnsupportedColorType)
    }
}

/// Building an image from the bytes of an image succeeds and gives back the
/// same pixels.
pub proof fn lemma_round_trip(img: ImageRGB8, rebuilt: ImageRGB8)
    requires
        img.wf(),
        bytes_of(rebuilt.image_data@) == bytes_of(img.image_data@),
    ensures
        bytes_of(img.image_data@).len() == img.width * img.height * 3,
        rebuilt.image_data@ == img.image_data@,
{
    lemma_bytes_determine_pixels(rebuilt.image_data@, img.image_data@);
}

/// `after` is `before` with the pixel at `(x, y)` set to `color`.
pub open spec fn repainted(
    before: &ImageRGB8,
    after: &ImageRGB8,
    x: int,
    y: int,
    color: Seq<u8>,
) -> bool {
    &&& after.same_frame(before)
    &&& forall|a: int, b: int|
        #![trigger after.pixel(a, b)]
        before.in_bounds(a, b) ==> after.pixel(a, b) == if a == x && b == y {
            color
        } else {
            before.pixel(a, b)
        }
}

/// Every call on an image keeps its dimensions and background, so clearing
/// after any sequence of calls gives back exactly the background the image
/// started with; for an image just made by `new` or `from_bytes`, that is its
/// first pixel data (the fill color, or the pixels of the bytes).
pub proof fn lemma_clear_after_drawing(states: Seq<ImageRGB8>, cleared: ImageRGB8)
    requires
        states.len() > 0,
        forall|i: int| 0 <= i < states.len() - 1 ==> #[trigger] states[i + 1].same_frame(&states[i]),
        cleared.same_frame(&states.last()),
        cleared.image_data@ == states.last().background(),
    ensures
        cleared.same_frame(&states[0]),
        cleared.width == states[0].width && cleared.height == states[0].height,
        cleared.image_data@ == states[0].background(),
        states[0].background() == states[0].image_data@ ==> cleared.image_data@
            == states[0].image_data@,
    decreases states.len(),
{
    if states.len() > 1 {
        let rest = states.drop_last();
        assert forall|i: int| 0 <= i < rest.len() - 1 implies #[trigger] rest[i + 1].same_frame(
            &rest[i],
        ) by {
            assert(states[i + 1].same_frame(&states[i]));
        }
        let k = states.len() - 2;
        assert(states[k + 1].same_frame(&states[k]));
        assert(rest.last() == states[k]);
        let mid = ImageRGB8 {
            width: rest.last().width,
            height: rest.last().height,
            image_data: cleared.image_data,
            background_data: rest.last().background_data,
        };
        lemma_clear_after_drawing(rest, mid);
    }
}

/// After the pixel at `(x, y)` is set to `color`, it reads back as `color`.
pub proof fn lemma_get_after_set(
    before: &ImageRGB8,
    after: &ImageRGB8,
    x: int,
    y: int,
    color: Seq<u8>,
)
    requires
        before.in_bounds(x, y),
        repainted(before, after, x, y, color),
    ensures
        after.in_bounds(x, y),
        after.pixel(x, y) == color,
{
    assert(after.pixel(x, y) == color);
}

/// Index in the pixel data of the point `(x, y)`.
pub open spec fn pixel_index(width: int, height: int, x: int, y: int) -> int {
    width * (height - 1 - y) + x
}

proof fn lemma_index_in_range(width: int, height: int, x: int, y: int)
    requires
        0 <= x < width,
        0 <= y < height,
    ensures
        0 <= pixel_index(width, height, x, y) < width * height,
{
    assert(0 <= width * (height - 1 - y) <= width * (height - 1)) by (nonlinear_arith)
        requires
            0 <= x < width,
            0 <= y < height,
    ;
    assert(width * (height - 1) + width == width * height) by (nonlinear_arith);
}

proof fn lemma_index_injective(width: int, height: int, x: int, y: int, x2: int, y2: int)
    requires
        0 <= x < width,
        0 <= y < height,
        0 <= x2 < width,
        0 <= y2 < height,
        pixel_index(width, height, x, y) == pixel_index(width, height, x2, y2),
    ensures
        x == x2,
        y == y2,
{
    let r = height - 1 - y;
    let r2 = height - 1 - y2;
    if r < r2 {
        assert(width * r + width <= width * r2) by (nonlinear_arith)
            requires
                r < r2,
                0 < width,
        ;
    } else if r2 < r {
        assert(width * r2 + width <= width * r) by (nonlinear_arith)
            requires
                r2 < r,
                0 < width,
        ;
    }
}

impl ImageRGB8 {
    /// The pixel data has one entry per point, and so does a background image.
    pub open spec fn wf(&self) -> bool {
        &&& self.width * self.height <= usize::MAX
        &&& self.image_data@.len() == self.width * self.height
        &&& match self.background_data {
            BackgroundRGB8::Color(_) => true,
            BackgroundRGB8::Image(v) => v@.len() == self.width * self.height,
        }
    }

    /// The pixel data that `clear` restores.
    pub open spec fn background(&self) -> Seq<[u8; 3]> {
        match self.background_data {
            BackgroundRGB8::Color(c) => Seq::new((self.width * self.height) as nat, |i: int| c),
            BackgroundRGB8::Image(v) => v@,
        }
    }

    pub open spec fn in_bounds(&self, x: int, y: int) -> bool {
        0 <= x < self.width && 0 <= y < self.height
    }

    /// The channels of the pixel at `(x, y)`.
    pub open spec fn pixel(&self, x: int, y: int) -> Seq<u8> {
        self.image_data@[pixel_index(self.width as int, self.height as int, x, y)]@
    }

    /// `self` has the dimensions and background of `other`.
    pub open spec fn same_frame(&self, other: &Self) -> bool {
        &&& self.width == other.width
        &&& self.height == other.height
        &&& self.background_data == other.background_data
    }

    fn index_of(&self, x: usize, y: usize) -> (r: usize)
        requires
            self.wf(),
            self.in_bounds(x as int, y as int),
        ensures
            r == pixel_index(self.width as int, self.height as int, x as int, y as int),
            r < self.image_data@.len(),
    {
        proof {
            lemma_index_in_range(self.width as int, self.height as int, x as int, y as int);
        }
        self.width * (self.height - 1 - y) + x
    }

    /// Writes one pixel.
    fn put(&mut self, x: usize, y: usize, color: [u8; 3])
        requires
            old(self).wf(),
            old(self).in_bounds(x as int, y as int),
        ensures
            final(self).wf(),
            final(self).same_frame(old(self)),
            forall|a: int, b: int|
                #![trigger final(self).pixel(a, b)]
                final(self).in_bounds(a, b) ==> final(self).pixel(a, b) == if a == x && b == y {
                    color@
                } else {
                    old(self).pixel(a, b)
                },
    {
        let i = self.index_of(x, y);
        self.image_data.set(i, color);
        proof {
            assert forall|a: int, b: int| #[trigger]
                self.in_bounds(a, b) implies self.pixel(a, b) == if a == x && b == y {
                color@
            } else {
                old(self).pixel(a, b)
            } by {
                lemma_index_in_range(self.width as int, self.height as int, a, b);
                if pixel_index(self.width as int, self.height as int, a, b) == i {
                    lemma_index_injective(
                        self.width as int,
                        self.height as int,
                        a,
                        b,
                        x as int,
                        y as int,
                    );
                }
            }
        }
    }

    fn read(&self, x: usize, y: usize) -> (r: [u8; 3])
        requires
            self.wf(),
            self.in_bounds(x as int, y as int),
        ensures
            r@ == self.pixel(x as int, y as int),
    {
        let i = self.index_of(x, y);
        self.image_data[i]
    }

    /// Paints the pixels `(x, ya)` to `(x, yb)`.
    fn fill_column(&mut self, x: usize, ya: usize, yb: usize, color: [u8; 3])
        requires
            old(self).wf(),
            x < old(self).width,
            ya <= yb < old(self).height,
        ensures
            final(self).wf(),
            final(self).same_frame(old(self)),
            forall|a: int, b: int|
                #![trigger final(self).pixel(a, b)]
                final(self).in_bounds(a, b) ==> final(self).pixel(a, b) == if a == x && ya <= b
                    <= yb {
                    color@
                } else {
                    old(self).pixel(a, b)
                },
    {
        let mut y = ya;
        while y <= yb
            invariant
                self.wf(),
                self.same_frame(old(self)),
                ya <= y <= yb + 1,
                yb < self.height,
                x < self.width,
                forall|a: int, b: int|
                    #![trigger self.pixel(a, b)]
                    self.in_bounds(a, b) ==> self.pixel(a, b) == if a == x && ya <= b < y {
                        color@
                    } else {
                        old(self).pixel(a, b)
                    },
            decreases yb + 1 - y,
        {
            self.put(x, y, color);
            y = y + 1;
        }
    }

    /// Paints the pixels `(xa, y)` to `(xb, y)`.
    fn fill_row(&mut self, y: usize, xa: usize, xb: usize, color: [u8; 3])
        requires
            old(self).wf(),
            y < old(self).height,
            xa <= xb < old(self).width,
        ensures
            final(self).wf(),
            final(self).same_frame(old(self)),
            forall|a: int, b: int|
                #![trigger final(self).pixel(a, b)]
                final(self).in_bounds(a, b) ==> final(self).pixel(a, b) == if b == y && xa <= a
                    <= xb {
                    color@
                } else {
                    old(self).pixel(a, b)
                },
    {
        let mut x = xa;
        while x <= xb
            invariant
                self.wf(),
                self.same_frame(old(self)),
                xa <= x <= xb + 1,
                xb < self.width,
                y < self.height,
                forall|a: int, b: int|
                    #![trigger self.pixel(a, b)]
                    self.in_bounds(a, b) ==> self.pixel(a, b) == if b == y && xa <= a < x {
                        color@
                    } else {
                        old(self).pixel(a, b)
                    },
            decreases xb + 1 - x,
        {
            self.put(x, y, color);
            x = x + 1;
        }
    }

    /// Draws the sample of step `t` of a line stepped from `a_from` to `a_to`
    /// along `y` when `steep`, else along `x`.
    fn plot_step(
        &mut self,
        t: usize,
        a_from: usize,
        c_from: usize,
        a_to: usize,
        c_to: usize,
        color: [u8; 3],
        steep: bool,
    )
        requires
            old(self).wf(),
            a_from < a_to,
            t <= a_to - a_from,
            steep ==> a_to < old(self).height && c_from < old(self).width && c_to < old(
                self,
            ).width,
            !steep ==> a_to < old(self).width && c_from < old(self).height && c_to < old(
                self,
            ).height,
        ensures
            final(self).wf(),
            final(self).same_frame(old(self)),
            forall|x: int, y: int|
                #![trigger final(self).pixel(x, y)]
                final(self).in_bounds(x, y) ==> final(self).pixel(x, y) == if (if steep {
                    y
                } else {
                    x
                }) == a_from + t {
                    oriented_sample(
                        old(self).pixel(x, y),
                        color@,
                        x,
                        y,
                        steep,
                        a_from as int,
                        c_from as int,
                        a_to as int,
                        c_to as int,
                    )
                } else {
                    old(self).pixel(x, y)
                },
    {
        let d = a_to - a_from;
        let a = a_from + t;
        let (base, k) = step_position(c_from, c_to, t, d);
        proof {
            lemma_step_bounds(c_from as int, c_to as int, t as int, d as int);
        }
        let dd = d as u128;
        let dist = if k <= dd - k {
            k
        } else {
            dd - k
        };
        if dist * SNAP_DIVISOR < dd {
            let c = if 2 * k >= dd {
                base + 1
            } else {
                base
            };
            if steep {
                self.put(c, a, color);
            } else {
                self.put(a, c, color);
            }
        } else {
            let (lo, up) = if steep {
                (self.read(base, a), self.read(base + 1, a))
            } else {
                (self.read(a, base), self.read(a, base + 1))
            };
            let new_up: [u8; 3] = [
                blend_channel(up[0], color[0], k, dd),
                blend_channel(up[1], color[1], k, dd),
                blend_channel(up[2], color[2], k, dd),
            ];
            let new_lo: [u8; 3] = [
                blend_channel(lo[0], color[0], dd - k, dd),
                blend_channel(lo[1], color[1], dd - k, dd),
                blend_channel(lo[2], color[2], dd - k, dd),
            ];
            assert(new_up@ =~= blend_px(up@, color@, upper_coverage(k as int, d as int), d as int));
            assert(new_lo@ =~= blend_px(lo@, color@, lower_coverage(k as int, d as int), d as int));
            if steep {
                self.put(base + 1, a, new_up);
                self.put(base, a, new_lo);
            } else {
                self.put(a, base + 1, new_up);
                self.put(a, base, new_lo);
            }
        }
    }

    /// Draws the samples of every step of a line stepped from `a_from` to
    /// `a_to` along `y` when `steep`, else along `x`.
    fn draw_samples(
        &mut self,
        a_from: usize,
        c_from: usize,
        a_to: usize,
        c_to: usize,
        color: [u8; 3],
        steep: bool,
    )
        requires
            old(self).wf(),
            a_from < a_to,
            steep ==> a_to < old(self).height && c_from < old(self).width && c_to < old(
                self,
            ).width,
            !steep ==> a_to < old(self).width && c_from < old(self).height && c_to < old(
                self,
            ).height,
        ensures
            final(self).wf(),
            final(self).same_frame(old(self)),
            forall|x: int, y: int|
                #![trigger final(self).pixel(x, y)]
                final(self).in_bounds(x, y) ==> final(self).pixel(x, y) == oriented_sample(
                    old(self).pixel(x, y),
                    color@,
                    x,
                    y,
                    steep,
                    a_from as int,
                    c_from as int,
                    a_to as int,
                    c_to as int,
                ),
    {
        let d = a_to - a_from;
        let mut t: usize = 0;
        while t <= d
            invariant
                self.wf(),
                self.same_frame(old(self)),
                old(self).wf(),
                d == a_to - a_from,
                a_from < a_to,
                t <= d + 1,
                steep ==> a_to < self.height && c_from < self.width && c_to < self.width,
                !steep ==> a_to < self.width && c_from < self.height && c_to < self.height,
                forall|x: int, y: int|
                    #![trigger self.pixel(x, y)]
                    self.in_bounds(x, y) ==> self.pixel(x, y) == if (if steep {
                        y
                    } else {
                        x
                    }) < a_from + t {
                        oriented_sample(
                            old(self).pixel(x, y),
                            color@,
                            x,
                            y,
                            steep,
                            a_from as int,
                            c_from as int,
                            a_to as int,
                            c_to as int,
                        )
                    } else {
                        old(self).pixel(x, y)
                    },
            decreases d + 1 - t,
        {
            self.plot_step(t, a_from, c_from, a_to, c_to, color, steep);
            t = t + 1;
        }
    }

    /// Draws an anti-aliased line between `(x1, y1)` and `(x2, y2)`; the end
    /// points may come in either order.
    ///
    /// A vertical line paints its column from `(x1, y1)` to `(x1, y2)`. Any
    /// other line is stepped along `x` when it rises no more than it runs, else
    /// along `y`, from the end point with the smaller coordinate there.
    /// At each step the exact position is computed; within `1 / SNAP_DIVISOR`
    /// of a whole pixel that pixel is painted, else the two neighbouring pixels
    /// are blended towards `color` by how much of each the line covers.
    /// Fails with `OutOfBounds`, changing nothing, when a point is outside.
    pub fn draw_line(&mut self, x1: usize, y1: usize, x2: usize, y2: usize, color: [u8; 3]) -> (r:
        Result<(), ImageError>)
        requires
            old(self).wf(),
        ensures
            final(self).wf(),
            final(self).same_frame(old(self)),
            r.is_ok() <==> old(self).in_bounds(x1 as int, y1 as int) && old(self).in_bounds(
                x2 as int,
                y2 as int,
            ),
            r.is_err() ==> r == Err::<(), ImageError>(ImageError::OutOfBounds) && *final(self)
                == *old(self),
            r.is_ok() ==> forall|x: int, y: int|
                #![trigger final(self).pixel(x, y)]
                final(self).in_bounds(x, y) ==> final(self).pixel(x, y) == line_px(
                    old(self).pixel(x, y),
                    color@,
                    x,
                    y,
                    x1 as int,
                    y1 as int,
                    x2 as int,
                    y2 as int,
                ),
    {
        if x1 >= self.width || x2 >= self.width || y1 >= self.height || y2 >= self.height {
            return Err(ImageError::OutOfBounds);
        }
        let run = if x1 <= x2 {
            x2 - x1
        } else {
            x1 - x2
        };
        let rise = if y1 <= y2 {
            y2 - y1
        } else {
            y1 - y2
        };
        if x1 == x2 {
            if y1 <= y2 {
                self.fill_column(x1, y1, y2, color);
            } else {
                self.fill_column(x1, y2, y1, color);
            }
        } else if rise <= run {
            if x1 < x2 {
                self.draw_samples(x1, y1, x2, y2, color, false);
            } else {
                self.draw_samples(x2, y2, x1, y1, color, false);
            }
        } else {
            if y1 < y2 {
                self.draw_samples(y1, x1, y2, x2, color, true);
            } else {
                self.draw_samples(y2, x2, y1, x1, color, true);
            }
        }
        Ok(())
    }

    /// Draws the border of the box with corners `(x1, y1)` and `(x2, y2)`, given
    /// in any order, as `thickness` concentric one-pixel outlines, the first on
    /// the box's edge and each next one inset by a pixel (one outline when
    /// `thickness` is 0).
    /// Fails with `OutOfBounds` when a corner is outside the image, else with
    /// `ThicknessTooLarge` when the outlines would cross: `thickness` exceeds
    /// half the box's width or half its height, plus one. A failure changes
    /// nothing.
    pub fn draw_rectangle(
        &mut self,
        x1: usize,
        y1: usize,
        x2: usize,
        y2: usize,
        color: [u8; 3],
        thickness: usize,
    ) -> (r: Result<(), ImageError>)
        requires
            old(self).wf(),
        ensures
            final(self).wf(),
            final(self).same_frame(old(self)),
            r.is_ok() <==> old(self).in_bounds(x1 as int, y1 as int) && old(self).in_bounds(
                x2 as int,
                y2 as int,
            ) && thickness_fits(x1 as int, y1 as int, x2 as int, y2 as int, thickness as int),
            !(old(self).in_bounds(x1 as int, y1 as int) && old(self).in_bounds(x2 as int, y2 as int))
                ==> r == Err::<(), ImageError>(ImageError::OutOfBounds),
            r.is_err() ==> *final(self) == *old(self),
            r.is_ok() ==> forall|x: int, y: int|
                #![trigger final(self).pixel(x, y)]
                final(self).in_bounds(x, y) ==> final(self).pixel(x, y) == if in_border(
                    x,
                    y,
                    x1 as int,
                    y1 as int,
                    x2 as int,
                    y2 as int,
                    thickness as int,
                ) {
                    color@
                } else {
                    old(self).pixel(x, y)
                },
            r == Err::<(), ImageError>(ImageError::ThicknessTooLarge) <==> old(self).in_bounds(
                x1 as int,
                y1 as int,
            ) && old(self).in_bounds(x2 as int, y2 as int) && !thickness_fits(
                x1 as int,
                y1 as int,
                x2 as int,
                y2 as int,
                thickness as int,
            ),
    {
        if x1 >= self.width || x2 >= self.width || y1 >= self.height || y2 >= self.height {
            return Err(ImageError::OutOfBounds);
        }
        let sx = if x1 <= x2 { x1 } else { x2 };
        let bx = if x1 <= x2 { x2 } else { x1 };
        let sy = if y1 <= y2 { y1 } else { y2 };
        let by = if y1 <= y2 { y2 } else { y1 };
        if thickness > (bx - sx) / 2 + 1 || thickness > (by - sy) / 2 + 1 {
            return Err(ImageError::ThicknessTooLarge);
        }
        let n = if thickness < 1 { 1 } else { thickness };
        let mut j: usize = 0;
        while j < n
            invariant
                self.wf(),
                self.same_frame(old(self)),
                j <= n,
                n <= (bx - sx) / 2 + 1,
                n <= (by - sy) / 2 + 1,
                sx <= bx < self.width,
                sy <= by < self.height,
                forall|x: int, y: int|
                    #![trigger self.pixel(x, y)]
                    self.in_bounds(x, y) ==> self.pixel(x, y) == if in_box(
                        x,
                        y,
                        sx as int,
                        sy as int,
                        bx as int,
                        by as int,
                    ) && ring(x, y, sx as int, sy as int, bx as int, by as int) < j {
                        color@
                    } else {
                        old(self).pixel(x, y)
                    },
            decreases n - j,
        {
            self.fill_row(sy + j, sx + j, bx - j, color);
            self.fill_row(by - j, sx + j, bx - j, color);
            self.fill_column(sx + j, sy + j, by - j, color);
            self.fill_column(bx - j, sy + j, by - j, color);
            proof {
                assert forall|x: int, y: int|
                    #![trigger self.pixel(x, y)]
                    self.in_bounds(x, y) implies self.pixel(x, y) == if in_box(
                        x,
                        y,
                        sx as int,
                        sy as int,
                        bx as int,
                        by as int,
                    ) && ring(x, y, sx as int, sy as int, bx as int, by as int) < j + 1 {
                        color@
                    } else {
                        old(self).pixel(x, y)
                    } by {
                    lemma_layer_step(x, y, sx as int, sy as int, bx as int, by as int, j as int);
                }
            }
            j = j + 1;
        }
        Ok(())
    }

    /// Paints every pixel of the closed box with corners `(x1, y1)` and
    /// `(x2, y2)`, given in any order. Fails with `OutOfBounds`, changing
    /// nothing, when a corner is outside the image.
    pub fn draw_rectangle_filled(
        &mut self,
        x1: usize,
        y1: usize,
        x2: usize,
        y2: usize,
        color: [u8; 3],
    ) -> (r: Result<(), ImageError>)
        requires
            old(self).wf(),
        ensures
            final(self).wf(),
            final(self).same_frame(old(self)),
            r.is_ok() <==> old(self).in_bounds(x1 as int, y1 as int) && old(self).in_bounds(
                x2 as int,
                y2 as int,
            ),
            r.is_err() ==> r == Err::<(), ImageError>(ImageError::OutOfBounds) && *final(self)
                == *old(self),
            r.is_ok() ==> forall|x: int, y: int|
                #![trigger final(self).pixel(x, y)]
                final(self).in_bounds(x, y) ==> final(self).pixel(x, y) == if in_box(
                    x,
                    y,
                    x1 as int,
                    y1 as int,
                    x2 as int,
                    y2 as int,
                ) {
                    color@
                } else {
                    old(self).pixel(x, y)
                },
    {
        if x1 >= self.width || x2 >= self.width || y1 >= self.height || y2 >= self.height {
            return Err(ImageError::OutOfBounds);
        }
        let sx = if x1 <= x2 { x1 } else { x2 };
        let bx = if x1 <= x2 { x2 } else { x1 };
        let sy = if y1 <= y2 { y1 } else { y2 };
        let by = if y1 <= y2 { y2 } else { y1 };
        let mut y = sy;
        while y <= by
            invariant
                self.wf(),
                self.same_frame(old(self)),
                sy <= y <= by + 1,
                sx <= bx < self.width,
                by < self.height,
                forall|a: int, b: int|
                    #![trigger self.pixel(a, b)]
                    self.in_bounds(a, b) ==> self.pixel(a, b) == if sx <= a <= bx && sy <= b < y {
                        color@
                    } else {
                        old(self).pixel(a, b)
                    },
            decreases by + 1 - y,
        {
            self.fill_row(y, sx, bx, color);
            y = y + 1;
        }
        Ok(())
    }

    /// Builds an image of `width` by `height` pixels from `bytes`, three per
    /// pixel, top row first; `clear` restores these pixels. Fails with
    /// `InvalidByteLength` when there are not `width * height * 3` bytes.
    pub fn from_bytes(width: usize, height: usize, bytes: &[u8]) -> (r: Result<Self, ImageError>)
        ensures
            built_from_bytes(r, width as int, height as int, bytes@),
    {
        let len = bytes.len();
        let n = match width.checked_mul(height) {
            Some(n) => n,
            None => {
                assert(width * height * 3 >= width * height) by (nonlinear_arith);
                return Err(ImageError::InvalidByteLength);
            },
        };
        let m = match n.checked_mul(3) {
            Some(m) => m,
            None => {
                return Err(ImageError::InvalidByteLength);
            },
        };
        if m != len {
            return Err(ImageError::InvalidByteLength);
        }
        let img = bytes_to_rgb8(bytes);
        let image_data = copy_pixels(&img);
        assert(bytes_of(img@).len() == 3 * img@.len());
        Ok(Self { width, height, image_data, background_data: BackgroundRGB8::Image(img) })
    }

    /// Builds an image from samples that an image codec decoded: 8-bit RGB, or
    /// 8-bit RGBA whose alpha is dropped. Fails with `UnsupportedBitDepth` when
    /// `bit_depth` is not 8, else with `UnsupportedColorType` for another
    /// layout, else as `from_bytes` does on the RGB bytes.
    pub fn from_decoded(
        width: usize,
        height: usize,
        bit_depth: u8,
        layout: SampleLayout,
        samples: &[u8],
    ) -> (r: Result<Self, ImageError>)
        ensures
            built_from_decoded(r, width as int, height as int, bit_depth, layout, samples@),
    {
        if bit_depth != 8 {
            return Err(ImageError::UnsupportedBitDepth);
        }
        match layout {
            SampleLayout::Rgb => Self::from_bytes(width, height, samples),
            SampleLayout::Rgba => {
                let rgb = strip_alpha(samples);
                Self::from_bytes(width, height, rgb.as_slice())
            },
            SampleLayout::Other => Err(ImageError::UnsupportedColorType),
        }
    }

    /// Decodes the PNG held in `data`: its first frame, which must have bit
    /// depth 8 and be RGB or RGBA, becomes the image and its background.
    /// Fails with `DecodeError` when the codec cannot decode it, else as
    /// `from_decoded` does on what it decoded.
    pub fn decode_png(data: &[u8]) -> (r: Result<Self, ImageError>)
        ensures
            match png_frame(data@) {
                None => r == Err::<Self, ImageError>(ImageError::DecodeError),
                Some(f) => built_from_decoded(r, f.0 as int, f.1 as int, f.2, layout_of(f.3), f.4),
            },
    {
        match decode_png_frame(data) {
            None => Err(ImageError::DecodeError),
            Some((width, height, bit_depth, color_type, samples)) => {
                let layout = if color_type == PNG_RGB {
                    SampleLayout::Rgb
                } else if color_type == PNG_RGBA {
                    SampleLayout::Rgba
                } else {
                    SampleLayout::Other
                };
                Self::from_decoded(
                    width as usize,
                    height as usize,
                    bit_depth,
                    layout,
                    samples.as_slice(),
                )
            },
        }
    }

    /// Encodes the image as an 8-bit RGB PNG. Fails with `EncodeError` when a
    /// dimension does not fit in 32 bits, when the pixel data is not
    /// `width * height` pixels, or when the codec fails.
    pub fn encode_png(&self) -> (r: Result<Vec<u8>, ImageError>)
        ensures
            self.width > u32::MAX || self.height > u32::MAX || self.image_data@.len() != self.width
                * self.height ==> r == Err::<Vec<u8>, ImageError>(ImageError::EncodeError),
            self.width <= u32::MAX && self.height <= u32::MAX && self.image_data@.len()
                == self.width * self.height ==> match png_rgb8_encoded(
                self.width as u32,
                self.height as u32,
                bytes_of(self.image_data@),
            ) {
                None => r == Err::<Vec<u8>, ImageError>(ImageError::EncodeError),
                Some(png) => r.is_ok() && r.unwrap()@ == png,
            },
    {
        if self.width > u32::MAX as usize || self.height > u32::MAX as usize {
            return Err(ImageError::EncodeError);
        }
        let n = match self.width.checked_mul(self.height) {
            Some(n) => n,
            None => {
                return Err(ImageError::EncodeError);
            },
        };
        if n != self.image_data.len() {
            return Err(ImageError::EncodeError);
        }
        let samples = self.to_bytes();
        assert(samples@.len() == 3 * (self.width as u32) * (self.height as u32)) by (nonlinear_arith)
            requires
                samples@.len() == 3 * n,
                n == self.width * self.height,
                self.width <= u32::MAX,
                self.height <= u32::MAX,
        ;
        match encode_png_rgb8(self.width as u32, self.height as u32, samples) {
            Some(png) => Ok(png),
            None => Err(ImageError::EncodeError),
        }
    }

    /// The pixels as bytes, three per pixel, top row first.
    pub fn to_bytes(&self) -> (r: &[u8])
        ensures
            r@ == bytes_of(self.image_data@),
    {
        rgb8_to_bytes(self.image_data.as_slice())
    }

    /// The color of the pixel at `(x, y)`, or `OutOfBounds`.
    pub fn get_pixel(&self, x: usize, y: usize) -> (r: Result<[u8; 3], ImageError>)
        requires
            self.wf(),
        ensures
            r.is_ok() <==> self.in_bounds(x as int, y as int),
            match r {
                Ok(p) => p@ == self.pixel(x as int, y as int),
                Err(e) => e == ImageError::OutOfBounds,
            },
    {
        if x >= self.width || y >= self.height {
            return Err(ImageError::OutOfBounds);
        }
        Ok(self.read(x, y))
    }

    /// Sets the pixel at `(x, y)` to `color`. Fails with `OutOfBounds`,
    /// changing nothing, when the point is outside the image.
    pub fn set_pixel(&mut self, x: usize, y: usize, color: [u8; 3]) -> (r: Result<(), ImageError>)
        requires
            old(self).wf(),
        ensures
            final(self).wf(),
            final(self).same_frame(old(self)),
            r.is_ok() <==> old(self).in_bounds(x as int, y as int),
            r.is_err() ==> r == Err::<(), ImageError>(ImageError::OutOfBounds) && *final(self)
                == *old(self),
            r.is_ok() ==> repainted(old(self), final(self), x as int, y as int, color@),
    {
        if x >= self.width || y >= self.height {
            return Err(ImageError::OutOfBounds);
        }
        self.put(x, y, color);
        Ok(())
    }

    /// Not drawn yet: circles have no rasterizer.
    pub fn draw_circle() {
    }

    /// Not drawn yet: filled circles have no rasterizer.
    pub fn draw_circle_filled() {
    }

    /// Returns a new image of `width` by `height` pixels, all of color
    /// `background`, which is also what `clear` restores.
    pub fn new(width: usize, height: usize, background: [u8; 3]) -> (r: Self)
        requires
            width * height <= usize::MAX,
        ensures
            r.wf(),
            r.width == width,
            r.height == height,
            r.image_data@ == Seq::new((width * height) as nat, |i: int| background),
            r.background() == r.image_data@,
    {
        let n = width * height;
        let mut image_data: Vec<[u8; 3]> = Vec::with_capacity(n);
        let mut i: usize = 0;
        while i < n
            invariant
                i <= n,
                image_data@ == Seq::new(i as nat, |j: int| background),
            decreases n - i,
        {
            image_data.push(background);
            i = i + 1;
            assert(image_data@ =~= Seq::new(i as nat, |j: int| background));
        }
        let r = Self { width, height, image_data, background_data: BackgroundRGB8::Color(background) };
        assert(r.background() =~= r.image_data@);
        r
    }

    /// Restores every pixel from the background: the color the image was made
    /// with, or the pixels it was built from.
    pub fn clear(&mut self)
        requires
            old(self).wf(),
        ensures
            final(self).wf(),
            final(self).same_frame(old(self)),
            final(self).image_data@ == old(self).background(),
    {
        match &self.background_data {
            BackgroundRGB8::Color(c) => {
                let c = *c;
                let n = self.image_data.len();
                let mut i: usize = 0;
                while i < n
                    invariant
                        self.wf(),
                        self.same_frame(old(self)),
                        self.background_data == old(self).background_data,
                        n == self.image_data@.len(),
                        i <= n,
                        forall|j: int| 0 <= j < i ==> self.image_data@[j] == c,
                    decreases n - i,
                {
                    self.image_data.set(i, c);
                    i = i + 1;
                }
                assert(self.image_data@ =~= old(self).background());
            },
            BackgroundRGB8::Image(v) => {
                let copy = copy_pixels(v);
                self.image_data = copy;
            },
        }
    }
}

/// `sample_px` for a line stepped along `x` (`steep` false) or along `y`.
pub open spec fn oriented_sample(
    old: Seq<u8>,
    color: Seq<u8>,
    x: int,
    y: int,
    steep: bool,
    a_from: int,
    c_from: int,
    a_to: int,
    c_to: int,
) -> Seq<u8> {
    if steep {
        sample_px(old, color, y, x, a_from, c_from, a_to, c_to)
    } else {
        sample_px(old, color, x, y, a_from, c_from, a_to, c_to)
    }
}

} // verus!
