use vstd::prelude::*;
use crate::pixel::{opaque, opaque_rgb, ppm_pixel_text, Pixel, Rgb, BG_BLUE, BG_GREEN, BG_RED};
use crate::text::{decimal, push_decimal};

verus! {

/// Position of pixel (x, y) in a row-major buffer of the given width.
pub open spec fn pixel_index(width: int, x: int, y: int) -> int {
    x + y * width
}

/// Distinct in-range coordinates have distinct buffer positions, and each
/// position lies inside the buffer.
proof fn lemma_index_in_range(width: int, height: int, x: int, y: int)
    requires
        0 <= x < width,
        0 <= y < height,
    ensures
        0 <= pixel_index(width, x, y) < width * height,
{
    assert(0 <= pixel_index(width, x, y) < width * height) by (nonlinear_arith)
        requires
            0 <= x < width,
            0 <= y < height,
    ;
}

proof fn lemma_index_injective(width: int, x1: int, y1: int, x2: int, y2: int)
    requires
        0 <= x1 < width,
        0 <= x2 < width,
        0 <= y1,
        0 <= y2,
        pixel_index(width, x1, y1) == pixel_index(width, x2, y2),
    ensures
        x1 == x2,
        y1 == y2,
{
    if y1 < y2 {
        assert(y1 * width + width <= y2 * width) by (nonlinear_arith)
            requires
                y1 < y2,
                0 < width,
        ;
    } else if y2 < y1 {
        assert(y2 * width + width <= y1 * width) by (nonlinear_arith)
            requires
                y2 < y1,
                0 < width,
        ;
    }
}

/// Pixels per line of the plain PPM text: the widest pixel, " 255 255 255 ",
/// takes 13 characters, and five of them fit in 70 columns.
pub const PIXELS_PER_LINE: usize = 5;

/// The plain PPM text of the given pixels: each pixel's text, with a line
/// break after every fifth.
pub open spec fn ppm_body(pixels: Seq<Pixel>) -> Seq<char>
    decreases pixels.len(),
{
    if pixels.len() == 0 {
        seq![]
    } else {
        let i = pixels.len() - 1;
        ppm_body(pixels.drop_last()) + ppm_pixel_text(pixels.last()) + if i % PIXELS_PER_LINE as int
            == PIXELS_PER_LINE - 1 {
            seq!['\n']
        } else {
            seq![]
        }
    }
}

/// A whole image in the plain PPM format: the magic number, the size, the
/// largest channel value, then the pixels.
pub open spec fn ppm_text(width: nat, height: nat, pixels: Seq<Pixel>) -> Seq<char> {
    seq!['P', '3', '\n'] + decimal(width) + seq![' '] + decimal(height) + seq!['\n'] + decimal(255) + seq!['\n']
        + ppm_body(pixels)
}

/// 2D RGBA bitmap, stored row-major with the origin at the top left.
pub struct Bitmap {
    width: usize,
    height: usize,
    buffer: Vec<Pixel>,
}

impl Bitmap {
    /// The pixels, row after row.
    pub closed spec fn pixels(&self) -> Seq<Pixel> {
        self.buffer@
    }

    /// Number of columns.
    pub closed spec fn spec_width(&self) -> usize {
        self.width
    }

    /// Number of rows.
    pub closed spec fn spec_height(&self) -> usize {
        self.height
    }

    /// Number of columns.
    #[verifier::when_used_as_spec(spec_width)]
    pub fn width(&self) -> (w: usize)
        ensures
            w == self.spec_width(),
    {
        self.width
    }

    /// Number of rows.
    #[verifier::when_used_as_spec(spec_height)]
    pub fn height(&self) -> (h: usize)
        ensures
            h == self.spec_height(),
    {
        self.height
    }

    /// The buffer holds exactly one pixel per coordinate.
    pub open spec fn wf(&self) -> bool {
        self.pixels().len() == self.width() * self.height()
    }

    /// Whether (x, y) names a pixel of this bitmap.
    pub open spec fn in_bounds(&self, x: int, y: int) -> bool {
        0 <= x < self.width() && 0 <= y < self.height()
    }

    /// The pixel at (x, y).
    pub open spec fn at(&self, x: int, y: int) -> Pixel {
        self.pixels()[pixel_index(self.width() as int, x, y)]
    }

    /// `self` is `before` with every in-bounds pixel that `covers` selects
    /// set to `p`, and every other pixel kept.
    pub open spec fn repainted(&self, before: &Bitmap, covers: spec_fn(int, int) -> bool, p: Pixel) -> bool {
        &&& self.wf()
        &&& self.width() == before.width()
        &&& self.height() == before.height()
        &&& forall|u: int, v: int| #[trigger] self.in_bounds(u, v)
            ==> self.at(u, v) == if covers(u, v) { p } else { before.at(u, v) }
    }

    /// Creates a bitmap of the given size filled with the background colour.
    pub fn new(width: usize, height: usize) -> (b: Self)
        requires
            width * height <= usize::MAX,
        ensures
            b.wf(),
            b.width() == width,
            b.height() == height,
            forall|x: int, y: int| #[trigger] b.in_bounds(x, y)
                ==> b.at(x, y) == opaque(BG_RED, BG_GREEN, BG_BLUE),
    {
        let n: usize = width * height;
        let mut buffer: Vec<Pixel> = Vec::with_capacity(n);
        let mut i: usize = 0;
        while i < n
            invariant
                i <= n,
                buffer@.len() == i,
                forall|j: int| 0 <= j < i ==> #[trigger] buffer@[j] == opaque(BG_RED, BG_GREEN, BG_BLUE),
            decreases n - i,
        {
            buffer.push(Pixel::default());
            i = i + 1;
        }
        let b = Bitmap { width, height, buffer };
        assert forall|x: int, y: int| #[trigger] b.in_bounds(x, y) implies b.at(x, y) == opaque(BG_RED, BG_GREEN, BG_BLUE) by {
            lemma_index_in_range(width as int, height as int, x, y);
        }
        b
    }

    fn calculate_index(&self, x: usize, y: usize) -> (i: usize)
        requires
            self.wf(),
            self.in_bounds(x as int, y as int),
        ensures
            i == pixel_index(self.width as int, x as int, y as int),
            i < self.pixels().len(),
    {
        let n = self.buffer.len();
        proof {
            lemma_index_in_range(self.width as int, self.height as int, x as int, y as int);
            assert(y * self.width <= x + y * self.width < n) by (nonlinear_arith)
                requires
                    0 <= x + y * self.width < self.width * self.height,
                    n == self.width * self.height,
                    0 <= x,
            ;
        }
        x + y * self.width
    }

    /// Overwrites the pixel at (x, y).
    pub fn set_pixel(&mut self, x: usize, y: usize, pixel: Pixel)
        requires
            old(self).wf(),
            old(self).in_bounds(x as int, y as int),
        ensures
            final(self).wf(),
            final(self).width() == old(self).width(),
            final(self).height() == old(self).height(),
            forall|u: int, v: int| #[trigger] final(self).in_bounds(u, v)
                ==> final(self).at(u, v) == if u == x && v == y { pixel } else { old(self).at(u, v) },
    {
        let index = self.calculate_index(x, y);
        self.buffer[index] = pixel;
        proof {
            assert forall|u: int, v: int| #[trigger] final(self).in_bounds(u, v)
                implies final(self).at(u, v) == if u == x && v == y { pixel } else { old(self).at(u, v) } by {
                lemma_index_in_range(self.width as int, self.height as int, u, v);
                if pixel_index(self.width as int, u, v) == index as int {
                    lemma_index_injective(self.width as int, u, v, x as int, y as int);
                }
            }
        }
    }

    /// The pixel at (x, y).
    pub fn get_pixel(&self, x: usize, y: usize) -> (p: Pixel)
        requires
            self.wf(),
            self.in_bounds(x as int, y as int),
        ensures
            p == self.at(x as int, y as int),
    {
        let index = self.calculate_index(x, y);
        self.buffer[index]
    }

    /// Sets the red channel of the pixel at (x, y).
    pub fn set_red(&mut self, x: usize, y: usize, value: u8)
        requires
            old(self).wf(),
            old(self).in_bounds(x as int, y as int),
        ensures
            final(self).repainted(
                old(self),
                |u: int, v: int| u == x && v == y,
                Pixel { red: value, ..old(self).at(x as int, y as int) },
            ),
    {
        let p = self.get_pixel(x, y);
        self.set_pixel(x, y, Pixel { red: value, ..p });
    }

    /// Sets the green channel of the pixel at (x, y).
    pub fn set_green(&mut self, x: usize, y: usize, value: u8)
        requires
            old(self).wf(),
            old(self).in_bounds(x as int, y as int),
        ensures
            final(self).repainted(
                old(self),
                |u: int, v: int| u == x && v == y,
                Pixel { green: value, ..old(self).at(x as int, y as int) },
            ),
    {
        let p = self.get_pixel(x, y);
        self.set_pixel(x, y, Pixel { green: value, ..p });
    }

    /// Sets the blue channel of the pixel at (x, y).
    pub fn set_blue(&mut self, x: usize, y: usize, value: u8)
        requires
            old(self).wf(),
            old(self).in_bounds(x as int, y as int),
        ensures
            final(self).repainted(
                old(self),
                |u: int, v: int| u == x && v == y,
                Pixel { blue: value, ..old(self).at(x as int, y as int) },
            ),
    {
        let p = self.get_pixel(x, y);
        self.set_pixel(x, y, Pixel { blue: value, ..p });
    }

    /// Sets every pixel to `color`.
    pub fn fill(&mut self, color: &Rgb)
        requires
            old(self).wf(),
        ensures
            final(self).wf(),
            final(self).width() == old(self).width(),
            final(self).height() == old(self).height(),
            forall|i: int| 0 <= i < final(self).pixels().len() ==> #[trigger] final(self).pixels()[i] == opaque_rgb(*color),
    {
        let n = self.buffer.len();
        let mut i: usize = 0;
        while i < n
            invariant
                n == self.buffer@.len(),
                self.width == old(self).width,
                self.height == old(self).height,
                i <= n,
                n == old(self).pixels().len(),
                forall|j: int| 0 <= j < i ==> #[trigger] self.buffer@[j] == opaque_rgb(*color),
            decreases n - i,
        {
            self.buffer[i] = Pixel::from_rgb_tuple(*color);
            i = i + 1;
        }
    }

    /// Sets every pixel to the background colour.
    pub fn clear_buffer(&mut self)
        requires
            old(self).wf(),
        ensures
            final(self).wf(),
            final(self).width() == old(self).width(),
            final(self).height() == old(self).height(),
            forall|i: int| 0 <= i < final(self).pixels().len()
                ==> #[trigger] final(self).pixels()[i] == opaque(BG_RED, BG_GREEN, BG_BLUE),
    {
        let n = self.buffer.len();
        let mut i: usize = 0;
        while i < n
            invariant
                n == self.buffer@.len(),
                self.width == old(self).width,
                self.height == old(self).height,
                i <= n,
                n == old(self).pixels().len(),
                forall|j: int| 0 <= j < i ==> #[trigger] self.buffer@[j] == opaque(BG_RED, BG_GREEN, BG_BLUE),
            decreases n - i,
        {
            self.buffer[i] = Pixel::default();
            i = i + 1;
        }
    }

    /// Changes the size. The pixels keep their places in the row-major
    /// buffer: it is cut short, or lengthened with the background colour.
    pub fn resize(&mut self, width: usize, height: usize)
        requires
            width * height <= usize::MAX,
        ensures
            final(self).wf(),
            final(self).width() == width,
            final(self).height() == height,
            width * height <= old(self).pixels().len() ==> final(self).pixels() == old(self).pixels().take(
                width * height,
            ),
            width * height > old(self).pixels().len() ==> final(self).pixels() == old(self).pixels() + Seq::new(
                (width * height - old(self).pixels().len()) as nat,
                |i: int| opaque(BG_RED, BG_GREEN, BG_BLUE),
            ),
    {
        let n: usize = width * height;
        if n <= self.buffer.len() {
            self.buffer.truncate(n);
        } else {
            let ghost before = self.buffer@;
            while self.buffer.len() < n
                invariant
                    before.len() <= self.buffer@.len() <= n,
                    self.buffer@.subrange(0, before.len() as int) == before,
                    forall|j: int| before.len() <= j < self.buffer@.len()
                        ==> #[trigger] self.buffer@[j] == opaque(BG_RED, BG_GREEN, BG_BLUE),
                decreases n - self.buffer@.len(),
            {
                self.buffer.push(Pixel::default());
            }
            assert(self.buffer@ =~= before + Seq::new(
                (n - before.len()) as nat,
                |i: int| opaque(BG_RED, BG_GREEN, BG_BLUE),
            ));
        }
        self.width = width;
        self.height = height;
    }

    /// The pixels, row after row, top row first.
    pub fn raw_pixels(&self) -> (p: &[Pixel])
        ensures
            p@ == self.pixels(),
    {
        self.buffer.as_slice()
    }

    /// The bitmap in the plain PPM format.
    pub fn plain_ppm_format(&self) -> (s: String)
        requires
            self.wf(),
        ensures
            s@ == ppm_text(self.width() as nat, self.height() as nat, self.pixels()),
    {
        let mut s = String::new();
        proof {
            reveal_strlit("P3\n");
            reveal_strlit(" ");
            reveal_strlit("\n");
        }
        s.append("P3\n");
        push_decimal(&mut s, self.width as u64);
        s.append(" ");
        push_decimal(&mut s, self.height as u64);
        s.append("\n");
        push_decimal(&mut s, 255);
        s.append("\n");
        let ghost header = s@;
        let n = self.buffer.len();
        let mut i: usize = 0;
        proof {
            assert(self.buffer@.take(0) =~= Seq::<Pixel>::empty());
            assert(s@ =~= header + ppm_body(self.buffer@.take(0)));
        }
        while i < n
            invariant
                n == self.buffer@.len(),
                i <= n,
                s@ == header + ppm_body(self.buffer@.take(i as int)),
            decreases n - i,
        {
            let ghost prev = s@;
            let text = self.buffer[i].plain_ppm_pixel_format();
            s.append(text.as_str());
            let ghost brk: Seq<char> = if i % PIXELS_PER_LINE == PIXELS_PER_LINE - 1 { seq!['\n'] } else { seq![] };
            if i % PIXELS_PER_LINE == PIXELS_PER_LINE - 1 {
                s.append("\n");
            }
            proof {
                reveal_strlit("\n");
                let t = self.buffer@.take(i + 1);
                assert(t.drop_last() =~= self.buffer@.take(i as int));
                assert(t.last() == self.buffer@[i as int]);
                assert(t.len() - 1 == i);
                assert(ppm_body(t) == ppm_body(self.buffer@.take(i as int)) + ppm_pixel_text(self.buffer@[i as int]) + brk);
                assert(s@ =~= prev + ppm_pixel_text(self.buffer@[i as int]) + brk);
            }
            assert(s@ =~= header + ppm_body(self.buffer@.take(i + 1)));
            i = i + 1;
        }
        assert(self.buffer@.take(n as int) =~= self.buffer@);
        assert(s@ =~= ppm_text(self.width as nat, self.height as nat, self.buffer@));
        s
    }
}

/// Fills `bitmap` with a test pattern: blue grows along each row and green
/// down each column, both wrapping at 256 and shifted by the offsets.
pub fn render_wierd_gradient(bitmap: &mut Bitmap, blue_offset: u8, green_offset: u8)
    requires
        old(bitmap).wf(),
    ensures
        final(bitmap).wf(),
        final(bitmap).width() == old(bitmap).width(),
        final(bitmap).height() == old(bitmap).height(),
        forall|x: int, y: int| #[trigger] final(bitmap).in_bounds(x, y) ==> final(bitmap).at(x, y) == opaque(
            0,
            ((y % 256 + green_offset) % 256) as u8,
            ((x % 256 + blue_offset) % 256) as u8,
        ),
{
    let ghost start = *bitmap;
    let width = bitmap.width();
    let height = bitmap.height();
    let mut y: usize = 0;
    while y < height
        invariant
            start == *old(bitmap),
            bitmap.wf(),
            bitmap.width() == width,
            bitmap.height() == height,
            width == start.width(),
            height == start.height(),
            y <= height,
            forall|u: int, v: int| #[trigger] bitmap.in_bounds(u, v) && v < y ==> bitmap.at(u, v) == opaque(
                0,
                ((v % 256 + green_offset) % 256) as u8,
                ((u % 256 + blue_offset) % 256) as u8,
            ),
        decreases height - y,
    {
        let green = ((y % 256) as u8).wrapping_add(green_offset);
        let mut x: usize = 0;
        while x < width
            invariant
                bitmap.wf(),
                bitmap.width() == width,
                bitmap.height() == height,
                y < height,
                x <= width,
                green == ((y % 256 + green_offset) % 256) as u8,
                forall|u: int, v: int| #[trigger] bitmap.in_bounds(u, v) && (v < y || (v == y && u < x))
                    ==> bitmap.at(u, v) == opaque(
                    0,
                    ((v % 256 + green_offset) % 256) as u8,
                    ((u % 256 + blue_offset) % 256) as u8,
                ),
            decreases width - x,
        {
            let blue = ((x % 256) as u8).wrapping_add(blue_offset);
            let ghost mid = *bitmap;
            bitmap.set_pixel(x, y, Pixel::new(0, green, blue));
            proof {
                assert forall|u: int, v: int| #[trigger] bitmap.in_bounds(u, v) && (v < y || (v == y && u < x + 1))
                    implies bitmap.at(u, v) == opaque(
                    0,
                    ((v % 256 + green_offset) % 256) as u8,
                    ((u % 256 + blue_offset) % 256) as u8,
                ) by {
                    assert(mid.in_bounds(u, v));
                }
            }
            x = x + 1;
        }
        y = y + 1;
    }
}

impl Default for Bitmap {
    /// A bitmap of the default viewport's size.
    fn default() -> (b: Self)
        ensures
            b.wf(),
            b.width() == 960,
            b.height() == 540,
            forall|x: int, y: int| #[trigger] b.in_bounds(x, y)
                ==> b.at(x, y) == opaque(BG_RED, BG_GREEN, BG_BLUE),
    {
        Self::new(960, 540)
    }
}

} // verus!
