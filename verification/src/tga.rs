//! The TGA image codec: a width x height pixel buffer with bounds-checked
//! reads and writes, vertical and horizontal flips, run-length decoding of
//! the pixel stream, and encoding of the whole image to TGA file bytes.

use vstd::prelude::*;

verus! {

use vstd::arithmetic::mul::lemma_mul_inequality;

/// A color sample of up to four channels, stored in BGRA order.
/// `bytespp` says how many of the leading bytes are meaningful.
#[derive(Clone, Copy, Debug)]
pub struct TGAColor {
    pub bgra: [u8; 4],
    pub bytespp: u8,
}

impl TGAColor {
    /// An empty color: zero channels, all bytes zero.
    pub fn new() -> (r: Self)
        ensures
            r.bgra == [0u8, 0u8, 0u8, 0u8],
            r.bytespp == 0,
    {
        Self { bgra: [0, 0, 0, 0], bytespp: 0 }
    }

    /// A four-channel color from red, green, blue and alpha.
    pub fn new_rgba(r: u8, g: u8, b: u8, a: u8) -> (c: Self)
        ensures
            c.bgra == [b, g, r, a],
            c.bytespp == 4,
    {
        Self { bgra: [b, g, r, a], bytespp: 4 }
    }

    /// A color of `bpp` channels copied from the start of a raw byte slice;
    /// the remaining bytes are zero.
    pub fn new_raw(p: &[u8], bpp: u8) -> (c: Self)
        requires
            bpp <= 4,
            bpp as int <= p@.len(),
        ensures
            c.bytespp == bpp,
            forall|i: int| 0 <= i < 4 ==> c.bgra@[i] == if i < bpp { p@[i] } else { 0u8 },
    {
        let mut bgra: [u8; 4] = [0, 0, 0, 0];
        let mut i: usize = 0;
        while i < bpp as usize
            invariant
                i <= bpp <= 4,
                bpp as int <= p@.len(),
                forall|j: int| 0 <= j < 4 ==> bgra@[j] == if j < i { p@[j] } else { 0u8 },
            decreases bpp as int - i,
        {
            bgra[i] = p[i];
            i = i + 1;
        }
        Self { bgra, bytespp: bpp }
    }
}

/// The pixel formats the codec understands, each named by its bytes per
/// pixel.
#[allow(non_snake_case)]
pub struct Format {
    pub Grayscale: u8,
    pub RGB: u8,
    pub RGBA: u8,
}

/// The standard format table: grayscale is one byte per pixel, RGB three,
/// RGBA four.
pub fn tga_format() -> (r: Format)
    ensures
        r.Grayscale == 1 && r.RGB == 3 && r.RGBA == 4,
{
    Format { Grayscale: 1, RGB: 3, RGBA: 4 }
}

/// The fixed 18-byte TGA file header. Multi-byte fields are stored
/// little-endian in the file.
#[derive(Clone, Copy, Debug, PartialEq, Eq, Structural)]
pub struct TGAHeader {
    pub id_length: u8,
    pub color_map_type: u8,
    pub data_type_code: u8,
    pub color_map_origin: u16,
    pub color_map_length: u16,
    pub color_map_depth: u8,
    pub x_origin: u16,
    pub y_origin: u16,
    pub width: u16,
    pub height: u16,
    pub bits_per_pixel: u8,
    pub image_descriptor: u8,
}

/// The 18 bytes that a header occupies in a file, in order, with each
/// 16-bit field split into its low byte followed by its high byte.
pub open spec fn header_bytes(h: TGAHeader) -> Seq<u8> {
    seq![
        h.id_length,
        h.color_map_type,
        h.data_type_code,
        (h.color_map_origin % 256) as u8,
        (h.color_map_origin / 256) as u8,
        (h.color_map_length % 256) as u8,
        (h.color_map_length / 256) as u8,
        h.color_map_depth,
        (h.x_origin % 256) as u8,
        (h.x_origin / 256) as u8,
        (h.y_origin % 256) as u8,
        (h.y_origin / 256) as u8,
        (h.width % 256) as u8,
        (h.width / 256) as u8,
        (h.height % 256) as u8,
        (h.height / 256) as u8,
        h.bits_per_pixel,
        h.image_descriptor,
    ]
}

/// The 16-bit value stored little-endian as the two bytes `lo`, `hi`.
pub open spec fn le16(lo: u8, hi: u8) -> u16 {
    (lo + hi * 256) as u16
}

impl TGAHeader {
    /// A header with every field zero.
    pub fn new() -> (r: Self)
        ensures
            r == (TGAHeader {
                id_length: 0,
                color_map_type: 0,
                data_type_code: 0,
                color_map_origin: 0,
                color_map_length: 0,
                color_map_depth: 0,
                x_origin: 0,
                y_origin: 0,
                width: 0,
                height: 0,
                bits_per_pixel: 0,
                image_descriptor: 0,
            }),
    {
        Self {
            id_length: 0,
            color_map_type: 0,
            data_type_code: 0,
            color_map_origin: 0,
            color_map_length: 0,
            color_map_depth: 0,
            x_origin: 0,
            y_origin: 0,
            width: 0,
            height: 0,
            bits_per_pixel: 0,
            image_descriptor: 0,
        }
    }

    /// Serializes the header to exactly its 18 file bytes.
    pub fn to_bytes(&self) -> (r: Vec<u8>)
        ensures
            r@ == header_bytes(*self),
    {
        let mut r: Vec<u8> = Vec::new();
        r.push(self.id_length);
        r.push(self.color_map_type);
        r.push(self.data_type_code);
        r.push((self.color_map_origin % 256) as u8);
        r.push((self.color_map_origin / 256) as u8);
        r.push((self.color_map_length % 256) as u8);
        r.push((self.color_map_length / 256) as u8);
        r.push(self.color_map_depth);
        r.push((self.x_origin % 256) as u8);
        r.push((self.x_origin / 256) as u8);
        r.push((self.y_origin % 256) as u8);
        r.push((self.y_origin / 256) as u8);
        r.push((self.width % 256) as u8);
        r.push((self.width / 256) as u8);
        r.push((self.height % 256) as u8);
        r.push((self.height / 256) as u8);
        r.push(self.bits_per_pixel);
        r.push(self.image_descriptor);
        proof {
            assert(r@ =~= header_bytes(*self));
        }
        r
    }

    /// Reads a header from the first 18 bytes of `bytes`; `None` exactly
    /// when fewer than 18 bytes are present.
    pub fn parse(bytes: &[u8]) -> (r: Option<TGAHeader>)
        ensures
            r is Some <==> bytes@.len() >= 18,
            r is Some ==> {
                let h = r->0;
                &&& h.id_length == bytes@[0]
                &&& h.color_map_type == bytes@[1]
                &&& h.data_type_code == bytes@[2]
                &&& h.color_map_origin == le16(bytes@[3], bytes@[4])
                &&& h.color_map_length == le16(bytes@[5], bytes@[6])
                &&& h.color_map_depth == bytes@[7]
                &&& h.x_origin == le16(bytes@[8], bytes@[9])
                &&& h.y_origin == le16(bytes@[10], bytes@[11])
                &&& h.width == le16(bytes@[12], bytes@[13])
                &&& h.height == le16(bytes@[14], bytes@[15])
                &&& h.bits_per_pixel == bytes@[16]
                &&& h.image_descriptor == bytes@[17]
                &&& header_bytes(h) == bytes@.subrange(0, 18)
            },
    {
        if bytes.len() < 18 {
            return None;
        }
        let h = TGAHeader {
            id_length: bytes[0],
            color_map_type: bytes[1],
            data_type_code: bytes[2],
            color_map_origin: bytes[3] as u16 + bytes[4] as u16 * 256,
            color_map_length: bytes[5] as u16 + bytes[6] as u16 * 256,
            color_map_depth: bytes[7],
            x_origin: bytes[8] as u16 + bytes[9] as u16 * 256,
            y_origin: bytes[10] as u16 + bytes[11] as u16 * 256,
            width: bytes[12] as u16 + bytes[13] as u16 * 256,
            height: bytes[14] as u16 + bytes[15] as u16 * 256,
            bits_per_pixel: bytes[16],
            image_descriptor: bytes[17],
        };
        proof {
            assert(header_bytes(h) =~= bytes@.subrange(0, 18));
        }
        Some(h)
    }
}

/// Two headers with the same file bytes are equal; together with the
/// contracts of `to_bytes` and `parse`, parsing inverts serialization.
pub proof fn lemma_header_bytes_injective(a: TGAHeader, b: TGAHeader)
    requires
        header_bytes(a) == header_bytes(b),
    ensures
        a == b,
{
    assert(header_bytes(a)[0] == header_bytes(b)[0]);
    assert(header_bytes(a)[1] == header_bytes(b)[1]);
    assert(header_bytes(a)[2] == header_bytes(b)[2]);
    assert(header_bytes(a)[3] == header_bytes(b)[3]);
    assert(header_bytes(a)[4] == header_bytes(b)[4]);
    assert(header_bytes(a)[5] == header_bytes(b)[5]);
    assert(header_bytes(a)[6] == header_bytes(b)[6]);
    assert(header_bytes(a)[7] == header_bytes(b)[7]);
    assert(header_bytes(a)[8] == header_bytes(b)[8]);
    assert(header_bytes(a)[9] == header_bytes(b)[9]);
    assert(header_bytes(a)[10] == header_bytes(b)[10]);
    assert(header_bytes(a)[11] == header_bytes(b)[11]);
    assert(header_bytes(a)[12] == header_bytes(b)[12]);
    assert(header_bytes(a)[13] == header_bytes(b)[13]);
    assert(header_bytes(a)[14] == header_bytes(b)[14]);
    assert(header_bytes(a)[15] == header_bytes(b)[15]);
    assert(header_bytes(a)[16] == header_bytes(b)[16]);
    assert(header_bytes(a)[17] == header_bytes(b)[17]);
    assert(a.color_map_origin == 256 * (a.color_map_origin / 256) + a.color_map_origin % 256);
    assert(b.color_map_origin == 256 * (b.color_map_origin / 256) + b.color_map_origin % 256);
    assert(a.color_map_length == 256 * (a.color_map_length / 256) + a.color_map_length % 256);
    assert(b.color_map_length == 256 * (b.color_map_length / 256) + b.color_map_length % 256);
    assert(a.x_origin == 256 * (a.x_origin / 256) + a.x_origin % 256);
    assert(b.x_origin == 256 * (b.x_origin / 256) + b.x_origin % 256);
    assert(a.y_origin == 256 * (a.y_origin / 256) + a.y_origin % 256);
    assert(b.y_origin == 256 * (b.y_origin / 256) + b.y_origin % 256);
    assert(a.width == 256 * (a.width / 256) + a.width % 256);
    assert(b.width == 256 * (b.width / 256) + b.width % 256);
    assert(a.height == 256 * (a.height / 256) + a.height % 256);
    assert(b.height == 256 * (b.height / 256) + b.height % 256);
}

/// The bytes of the pixel at column `x` of row `y` in a buffer of `width`
/// pixels per row and `bpp` bytes per pixel.
pub open spec fn pixel_of(data: Seq<u8>, width: int, bpp: int, x: int, y: int) -> Seq<u8> {
    data.subrange((x + y * width) * bpp, (x + y * width) * bpp + bpp)
}

/// The bytes of row `y` in a buffer of `rowb` bytes per row.
pub open spec fn row_of(data: Seq<u8>, rowb: int, y: int) -> Seq<u8> {
    data.subrange(y * rowb, y * rowb + rowb)
}

/// A width x height pixel buffer of `bytespp` bytes per pixel, stored row
/// by row; the backing storage may be absent until an image is created or
/// decoded into it.
pub struct TGAImage {
    data: Option<Vec<u8>>,
    width: i32,
    height: i32,
    bytespp: i32,
}

impl View for TGAImage {
    type V = Seq<u8>;

    /// The raw bytes of the buffer; empty when no storage is present.
    closed spec fn view(&self) -> Seq<u8> {
        match self.data {
            Some(d) => d@,
            None => Seq::empty(),
        }
    }
}

impl TGAImage {
    pub closed spec fn spec_width(&self) -> int {
        self.width as int
    }

    pub closed spec fn spec_height(&self) -> int {
        self.height as int
    }

    pub closed spec fn spec_bytespp(&self) -> int {
        self.bytespp as int
    }

    pub closed spec fn has_data(&self) -> bool {
        self.data is Some
    }

    /// Total byte count of the buffer.
    pub open spec fn nbytes(&self) -> int {
        self.spec_width() * self.spec_height() * self.spec_bytespp()
    }

    /// Shape invariant: dimensions are non-negative, at most four bytes per
    /// pixel, the byte counts of a row and of the whole buffer fit in
    /// `i32`, and the storage, when present, holds exactly the buffer.
    pub open spec fn wf(&self) -> bool {
        &&& 0 <= self.spec_width()
        &&& 0 <= self.spec_height()
        &&& 0 <= self.spec_bytespp() <= 4
        &&& self.spec_width() * self.spec_bytespp() <= i32::MAX
        &&& self.spec_width() * self.spec_height() <= i32::MAX
        &&& self.nbytes() <= i32::MAX
        &&& (self.has_data() ==> self@.len() == self.nbytes())
        &&& (!self.has_data() ==> self@.len() == 0 && self.spec_width() == 0
            && self.spec_height() == 0 && self.spec_bytespp() == 0)
    }

    /// `(x, y)` names a pixel of the buffer.
    pub open spec fn in_bounds(&self, x: int, y: int) -> bool {
        0 <= x < self.spec_width() && 0 <= y < self.spec_height()
    }

    /// The two images have the same shape.
    pub open spec fn same_shape(&self, other: &TGAImage) -> bool {
        &&& self.spec_width() == other.spec_width()
        &&& self.spec_height() == other.spec_height()
        &&& self.spec_bytespp() == other.spec_bytespp()
        &&& self.has_data() == other.has_data()
    }

    /// An empty image: no storage, all dimensions zero.
    pub fn new() -> (r: Self)
        ensures
            r.wf(),
            !r.has_data(),
            r.spec_width() == 0,
            r.spec_height() == 0,
            r.spec_bytespp() == 0,
    {
        Self { data: None, width: 0, height: 0, bytespp: 0 }
    }

    /// A zero-filled image of the given shape.
    pub fn new_dimensions(w: i32, h: i32, bpp: i32) -> (r: Self)
        requires
            0 <= w,
            0 <= h,
            0 <= bpp <= 4,
            w * bpp <= i32::MAX,
            w * h <= i32::MAX,
            w * h * bpp <= i32::MAX,
        ensures
            r.wf(),
            r.has_data(),
            r.spec_width() == w,
            r.spec_height() == h,
            r.spec_bytespp() == bpp,
            r@ == Seq::new((w * h * bpp) as nat, |i: int| 0u8),
    {
        proof {
            assert(0 <= w * h && w * h * bpp == (w * h) * bpp && 0 <= w * h * bpp)
                by (nonlinear_arith)
                requires
                    0 <= w,
                    0 <= h,
                    0 <= bpp,
            ;
        }
        let nbytes = w * h * bpp;
        let data = zero_bytes(nbytes as usize);
        Self { data: Some(data), width: w, height: h, bytespp: bpp }
    }

    /// Whether the image has backing storage to read or write pixels in.
    pub fn has_storage(&self) -> (r: bool)
        ensures
            r == self.has_data(),
    {
        self.data.is_some()
    }

    pub fn get_width(&self) -> (r: i32)
        ensures
            r == self.spec_width(),
    {
        self.width
    }

    pub fn get_height(&self) -> (r: i32)
        ensures
            r == self.spec_height(),
    {
        self.height
    }

    /// Writes the first `bytespp` bytes of `c` into pixel `(x, y)`; a write
    /// outside the buffer, or into an image without storage, changes
    /// nothing and is not an error.
    pub fn set(&mut self, x: i32, y: i32, c: &TGAColor)
        requires
            old(self).wf(),
        ensures
            final(self).wf(),
            final(self).same_shape(old(self)),
            final(self)@.len() == old(self)@.len(),
            old(self).has_data() && old(self).in_bounds(x as int, y as int) ==> {
                let base = (x + y * old(self).spec_width()) * old(self).spec_bytespp();
                forall|i: int|
                    0 <= i < old(self)@.len() ==> final(self)@[i] == if base <= i < base + old(
                        self,
                    ).spec_bytespp() {
                        c.bgra@[i - base]
                    } else {
                        old(self)@[i]
                    }
            },
            old(self).has_data() && old(self).in_bounds(x as int, y as int) ==> pixel_of(
                final(self)@,
                old(self).spec_width(),
                old(self).spec_bytespp(),
                x as int,
                y as int,
            ) == c.bgra@.subrange(0, old(self).spec_bytespp()),
            !(old(self).has_data() && old(self).in_bounds(x as int, y as int)) ==> final(self)@
                == old(self)@,
    {
        if self.data.is_none() || x < 0 || y < 0 || x >= self.width || y >= self.height {
            return ;
        }
        let ghost w = self.spec_width();
        let ghost h = self.spec_height();
        let ghost bppg = self.spec_bytespp();
        proof {
            assert(0 <= x + y * w && x + y * w <= w * h - 1 && 0 <= (x + y * w) * bppg && (x + y
                * w) * bppg + bppg <= w * h * bppg && w * h * bppg == self.nbytes())
                by (nonlinear_arith)
                requires
                    0 <= x < w,
                    0 <= y < h,
                    0 <= bppg,
                    self.nbytes() == w * h * bppg,
            ;
        }
        let index = ((x + y * self.width) * self.bytespp) as usize;
        let bpp = self.bytespp as usize;
        let mut d = self.data.take().unwrap();
        let ghost d0 = d@;
        let mut t: usize = 0;
        while t < bpp
            invariant
                t <= bpp,
                index + bpp <= d@.len(),
                index + bpp <= i32::MAX,
                bpp <= 4,
                d@.len() == d0.len(),
                forall|i: int|
                    0 <= i < d@.len() ==> d@[i] == if index <= i < index + t {
                        c.bgra@[i - index]
                    } else {
                        d0[i]
                    },
            decreases bpp - t,
        {
            d.set(index + t, c.bgra[t]);
            t = t + 1;
        }
        self.data = Some(d);
        proof {
            assert(pixel_of(self@, w, bppg, x as int, y as int) =~= c.bgra@.subrange(0, bppg));
        }
    }

    /// Reads pixel `(x, y)` as a color of `bytespp` channels, the unused
    /// channel bytes zero; a read outside the buffer, or from an image
    /// without storage, yields the empty color.
    pub fn get(&self, x: i32, y: i32) -> (c: TGAColor)
        requires
            self.wf(),
        ensures
            self.has_data() && self.in_bounds(x as int, y as int) ==> {
                let base = (x + y * self.spec_width()) * self.spec_bytespp();
                &&& c.bytespp == self.spec_bytespp()
                &&& forall|i: int|
                    0 <= i < 4 ==> c.bgra@[i] == if i < self.spec_bytespp() {
                        self@[base + i]
                    } else {
                        0u8
                    }
                &&& c.bgra@.subrange(0, self.spec_bytespp()) == pixel_of(
                    self@,
                    self.spec_width(),
                    self.spec_bytespp(),
                    x as int,
                    y as int,
                )
            },
            !(self.has_data() && self.in_bounds(x as int, y as int)) ==> c.bytespp == 0 && c.bgra
                == [0u8, 0u8, 0u8, 0u8],
    {
        if self.data.is_none() || x < 0 || y < 0 || x >= self.width || y >= self.height {
            return TGAColor::new();
        }
        let ghost w = self.spec_width();
        let ghost h = self.spec_height();
        let ghost bppg = self.spec_bytespp();
        proof {
            assert(0 <= x + y * w && x + y * w <= w * h - 1 && 0 <= (x + y * w) * bppg && (x + y
                * w) * bppg + bppg <= w * h * bppg && w * h * bppg == self.nbytes())
                by (nonlinear_arith)
                requires
                    0 <= x < w,
                    0 <= y < h,
                    0 <= bppg,
                    self.nbytes() == w * h * bppg,
            ;
        }
        let index = ((x + y * self.width) * self.bytespp) as usize;
        let bpp = self.bytespp as usize;
        let d = self.data.as_ref().unwrap();
        let mut bgra: [u8; 4] = [0, 0, 0, 0];
        let mut t: usize = 0;
        while t < bpp
            invariant
                t <= bpp <= 4,
                index + bpp <= d@.len(),
                index + bpp <= i32::MAX,
                d@ == self@,
                forall|j: int|
                    0 <= j < 4 ==> bgra@[j] == if j < t {
                        self@[index + j]
                    } else {
                        0u8
                    },
            decreases bpp - t,
        {
            bgra[t] = d[index + t];
            t = t + 1;
        }
        let c = TGAColor { bgra, bytespp: self.bytespp as u8 };
        proof {
            assert(c.bgra@.subrange(0, bppg) =~= pixel_of(self@, w, bppg, x as int, y as int));
        }
        c
    }
}

/// Two sequences of equal length that agree on every index of a row have
/// equal rows.
proof fn lemma_row_of_agree(a: Seq<u8>, b: Seq<u8>, rowb: int, y: int)
    requires
        a.len() == b.len(),
        0 <= rowb,
        0 <= y,
        (y + 1) * rowb <= a.len(),
        forall|k: int| y * rowb <= k < y * rowb + rowb ==> a[k] == b[k],
    ensures
        row_of(a, rowb, y) == row_of(b, rowb, y),
{
    assert((y + 1) * rowb == y * rowb + rowb) by (nonlinear_arith);
    assert(row_of(a, rowb, y) =~= row_of(b, rowb, y));
}

/// A pixel's bytes are a slice of its row's bytes.
proof fn lemma_pixel_row(data: Seq<u8>, w: int, bpp: int, x: int, y: int)
    requires
        0 <= bpp,
        0 <= x < w,
        0 <= y,
        (y + 1) * (w * bpp) <= data.len(),
    ensures
        pixel_of(data, w, bpp, x, y) == row_of(data, w * bpp, y).subrange(x * bpp, x * bpp + bpp),
{
    let rowb = w * bpp;
    assert((x + y * w) * bpp == y * rowb + x * bpp && 0 <= x * bpp && x * bpp + bpp <= rowb && (y
        + 1) * rowb == y * rowb + rowb) by (nonlinear_arith)
        requires
            0 <= bpp,
            0 <= x < w,
            0 <= y,
            rowb == w * bpp,
    ;
    assert(0 <= y * rowb) by (nonlinear_arith)
        requires
            0 <= y,
            0 <= rowb,
    ;
    assert(pixel_of(data, w, bpp, x, y) =~= row_of(data, w * bpp, y).subrange(
        x * bpp,
        x * bpp + bpp,
    ));
}

impl TGAImage {
    /// Reverses the order of the rows in place: afterwards row `y` holds
    /// what row `height - 1 - y` held. Returns whether the image has
    /// storage; without storage nothing changes.
    pub fn flip_vertically(&mut self) -> (r: bool)
        requires
            old(self).wf(),
        ensures
            final(self).wf(),
            final(self).same_shape(old(self)),
            final(self)@.len() == old(self)@.len(),
            r == old(self).has_data(),
            forall|y: int|
                0 <= y < old(self).spec_height() ==> #[trigger] row_of(
                    final(self)@,
                    old(self).spec_width() * old(self).spec_bytespp(),
                    y,
                ) == row_of(
                    old(self)@,
                    old(self).spec_width() * old(self).spec_bytespp(),
                    old(self).spec_height() - 1 - y,
                ),
            forall|x: int, y: int|
                old(self).in_bounds(x, y) ==> #[trigger] pixel_of(
                    final(self)@,
                    old(self).spec_width(),
                    old(self).spec_bytespp(),
                    x,
                    y,
                ) == pixel_of(
                    old(self)@,
                    old(self).spec_width(),
                    old(self).spec_bytespp(),
                    x,
                    old(self).spec_height() - 1 - y,
                ),
            !old(self).has_data() ==> final(self)@ == old(self)@,
    {
        if self.data.is_none() {
            return false;
        }
        let ghost wi = self.spec_width();
        let ghost hi = self.spec_height();
        let ghost bppi = self.spec_bytespp();
        proof {
            assert(0 <= wi * bppi && wi * hi * bppi == hi * (wi * bppi)) by (nonlinear_arith)
                requires
                    0 <= wi,
                    0 <= hi,
                    0 <= bppi,
            ;
        }
        let rowb: usize = (self.width * self.bytespp) as usize;
        let h_us: usize = self.height as usize;
        let half: usize = (self.height / 2) as usize;
        let mut d = self.data.take().unwrap();
        let ghost orig = d@;
        let ghost rowbi = wi * bppi;
        let mut i: usize = 0;
        while i < half
            invariant
                i <= half,
                half == hi / 2,
                h_us == hi,
                rowb == rowbi,
                0 <= rowbi,
                d@.len() == orig.len(),
                orig.len() == hi * rowbi,
                orig.len() <= i32::MAX,
                forall|y: int|
                    0 <= y < hi ==> #[trigger] row_of(d@, rowbi, y) == if y < i || y > hi - 1 - i {
                        row_of(orig, rowbi, hi - 1 - y)
                    } else {
                        row_of(orig, rowbi, y)
                    },
            decreases half - i,
        {
            proof {
                let iI = i as int;
                lemma_mul_inequality(iI + 1, hi, rowbi);
                lemma_mul_inequality(hi - iI, hi, rowbi);
                lemma_mul_inequality(iI + 1, hi - 1 - iI, rowbi);
                assert((iI + 1) * rowbi == iI * rowbi + rowbi && (hi - iI) * rowbi == (hi - 1 - iI)
                    * rowbi + rowbi) by (nonlinear_arith);
                assert(0 <= iI * rowbi) by (nonlinear_arith)
                    requires
                        0 <= iI,
                        0 <= rowbi,
                ;
            }
            let l1: usize = i * rowb;
            let l2: usize = (h_us - 1 - i) * rowb;
            let ghost d0 = d@;
            let mut j: usize = 0;
            while j < rowb
                invariant
                    j <= rowb,
                    rowb == rowbi,
                    l1 == i as int * rowbi,
                    l2 == (hi - 1 - i as int) * rowbi,
                    l1 + rowb <= l2,
                    l1 + rowb <= d@.len(),
                    l2 + rowb <= d@.len(),
                    d@.len() <= i32::MAX,
                    d@.len() == d0.len(),
                    forall|k: int|
                        0 <= k < d@.len() && !(l1 <= k < l1 + j) && !(l2 <= k < l2 + j) ==> d@[k]
                            == d0[k],
                    forall|k: int| l1 <= k < l1 + j ==> d@[k] == d0[k - l1 + l2],
                    forall|k: int| l2 <= k < l2 + j ==> d@[k] == d0[k - l2 + l1],
                decreases rowb - j,
            {
                let tmp = d[l1 + j];
                let other = d[l2 + j];
                d.set(l1 + j, other);
                d.set(l2 + j, tmp);
                j = j + 1;
            }
            proof {
                let iI = i as int;
                let mirror = hi - 1 - iI;
                assert forall|k: int| 0 <= k < rowbi implies row_of(d@, rowbi, iI)[k] == row_of(
                    d0,
                    rowbi,
                    mirror,
                )[k] by {
                    assert(d@[l1 + k] == d0[l1 + k - l1 + l2]);
                }
                assert(row_of(d@, rowbi, iI) =~= row_of(d0, rowbi, mirror));
                assert forall|k: int| 0 <= k < rowbi implies row_of(d@, rowbi, mirror)[k]
                    == row_of(d0, rowbi, iI)[k] by {
                    assert(i < half);
                    assert(iI < hi - 1 - iI);
                    assert(d@[l2 + k] == d0[l2 + k - l2 + l1]);
                }
                assert(row_of(d@, rowbi, mirror) =~= row_of(d0, rowbi, iI));
                assert forall|y: int| 0 <= y < hi && y != iI && y != mirror implies #[trigger] row_of(
                    d@,
                    rowbi,
                    y,
                ) == row_of(d0, rowbi, y) by {
                    lemma_mul_inequality(y + 1, hi, rowbi);
                    assert((y + 1) * rowbi == y * rowbi + rowbi && (iI + 1) * rowbi == iI * rowbi
                        + rowbi && (mirror + 1) * rowbi == mirror * rowbi + rowbi)
                        by (nonlinear_arith);
                    assert(0 <= y * rowbi) by (nonlinear_arith)
                        requires
                            0 <= y,
                            0 <= rowbi,
                    ;
                    assert forall|k: int| y * rowbi <= k < y * rowbi + rowbi implies d@[k] == d0[k] by {
                        if y < iI {
                            lemma_mul_inequality(y + 1, iI, rowbi);
                        } else if y < mirror {
                            lemma_mul_inequality(iI + 1, y, rowbi);
                            lemma_mul_inequality(y + 1, mirror, rowbi);
                        } else {
                            lemma_mul_inequality(mirror + 1, y, rowbi);
                        }
                    }
                    lemma_row_of_agree(d@, d0, rowbi, y);
                }
            }
            i = i + 1;
        }
        self.data = Some(d);
        proof {
            assert forall|y: int| 0 <= y < hi implies #[trigger] row_of(self@, rowbi, y) == row_of(
                orig,
                rowbi,
                hi - 1 - y,
            ) by {
                if !(y < hi / 2 || y > hi - 1 - hi / 2) {
                    assert(y == hi - 1 - y);
                }
            }
            assert forall|x: int, y: int|
                0 <= x < wi && 0 <= y < hi implies #[trigger] pixel_of(self@, wi, bppi, x, y)
                == pixel_of(orig, wi, bppi, x, hi - 1 - y) by {
                lemma_mul_inequality(y + 1, hi, rowbi);
                lemma_mul_inequality(hi - y, hi, rowbi);
                lemma_pixel_row(self@, wi, bppi, x, y);
                lemma_pixel_row(orig, wi, bppi, x, hi - 1 - y);
            }
        }
        true
    }
}

/// Distinct pixels of one buffer occupy disjoint byte ranges.
proof fn lemma_pixel_disjoint(w: int, bpp: int, x1: int, y1: int, x2: int, y2: int)
    requires
        0 <= bpp,
        0 <= x1 < w,
        0 <= y1,
        0 <= x2 < w,
        0 <= y2,
        !(x1 == x2 && y1 == y2),
    ensures
        (x1 + y1 * w) * bpp + bpp <= (x2 + y2 * w) * bpp || (x2 + y2 * w) * bpp + bpp <= (x1 + y1
            * w) * bpp,
{
    let p1 = x1 + y1 * w;
    let p2 = x2 + y2 * w;
    assert(p1 != p2) by {
        if y1 < y2 {
            lemma_mul_inequality(y1 + 1, y2, w);
            assert((y1 + 1) * w == y1 * w + w) by (nonlinear_arith);
        } else if y2 < y1 {
            lemma_mul_inequality(y2 + 1, y1, w);
            assert((y2 + 1) * w == y2 * w + w) by (nonlinear_arith);
        }
    }
    if p1 < p2 {
        lemma_mul_inequality(p1 + 1, p2, bpp);
        assert((p1 + 1) * bpp == p1 * bpp + bpp) by (nonlinear_arith);
    } else {
        lemma_mul_inequality(p2 + 1, p1, bpp);
        assert((p2 + 1) * bpp == p2 * bpp + bpp) by (nonlinear_arith);
    }
}

/// A write that only touches the bytes of one pixel leaves every other
/// pixel unchanged.
proof fn lemma_other_pixels_unchanged(
    a: Seq<u8>,
    b: Seq<u8>,
    w: int,
    h: int,
    bpp: int,
    xt: int,
    yt: int,
)
    requires
        a.len() == b.len(),
        a.len() == w * h * bpp,
        0 <= bpp,
        0 <= xt < w,
        0 <= yt < h,
        forall|i: int|
            0 <= i < b.len() && !((xt + yt * w) * bpp <= i < (xt + yt * w) * bpp + bpp) ==> b[i]
                == a[i],
    ensures
        forall|x: int, y: int|
            0 <= x < w && 0 <= y < h && !(x == xt && y == yt) ==> #[trigger] pixel_of(
                b,
                w,
                bpp,
                x,
                y,
            ) == pixel_of(a, w, bpp, x, y),
{
    assert forall|x: int, y: int|
        0 <= x < w && 0 <= y < h && !(x == xt && y == yt) implies #[trigger] pixel_of(
        b,
        w,
        bpp,
        x,
        y,
    ) == pixel_of(a, w, bpp, x, y) by {
        lemma_pixel_disjoint(w, bpp, x, y, xt, yt);
        assert(0 <= (x + y * w) * bpp && (x + y * w) * bpp + bpp <= w * h * bpp)
            by (nonlinear_arith)
            requires
                0 <= x < w,
                0 <= y < h,
                0 <= bpp,
        ;
        assert(pixel_of(b, w, bpp, x, y) =~= pixel_of(a, w, bpp, x, y));
    }
}

impl TGAImage {
    /// Reverses the order of the pixels within each row: afterwards pixel
    /// `(x, y)` holds what pixel `(width - 1 - x, y)` held. Returns whether
    /// the image has storage; without storage nothing changes.
    pub fn flip_horizontally(&mut self) -> (r: bool)
        requires
            old(self).wf(),
        ensures
            final(self).wf(),
            final(self).same_shape(old(self)),
            final(self)@.len() == old(self)@.len(),
            r == old(self).has_data(),
            forall|x: int, y: int|
                old(self).in_bounds(x, y) ==> #[trigger] pixel_of(
                    final(self)@,
                    old(self).spec_width(),
                    old(self).spec_bytespp(),
                    x,
                    y,
                ) == pixel_of(
                    old(self)@,
                    old(self).spec_width(),
                    old(self).spec_bytespp(),
                    old(self).spec_width() - 1 - x,
                    y,
                ),
            !old(self).has_data() ==> final(self)@ == old(self)@,
    {
        if self.data.is_none() {
            return false;
        }
        let ghost wi = self.spec_width();
        let ghost hi = self.spec_height();
        let ghost bppi = self.spec_bytespp();
        let ghost orig = self@;
        let w = self.width;
        let h = self.height;
        let half = w / 2;
        let mut y: i32 = 0;
        while y < h
            invariant
                0 <= y <= hi,
                self.wf(),
                self.has_data(),
                self.spec_width() == wi,
                self.spec_height() == hi,
                self.spec_bytespp() == bppi,
                w == wi,
                h == hi,
                half == wi / 2,
                self@.len() == orig.len(),
                forall|a: int, b: int|
                    0 <= a < wi && 0 <= b < hi ==> #[trigger] pixel_of(self@, wi, bppi, a, b)
                        == if b < y && (a < wi / 2 || a > wi - 1 - wi / 2) {
                        pixel_of(orig, wi, bppi, wi - 1 - a, b)
                    } else {
                        pixel_of(orig, wi, bppi, a, b)
                    },
            decreases hi - y,
        {
            let mut x: i32 = 0;
            while x < half
                invariant
                    0 <= x <= wi / 2,
                    0 <= y < hi,
                    self.wf(),
                    self.has_data(),
                    self.spec_width() == wi,
                    self.spec_height() == hi,
                    self.spec_bytespp() == bppi,
                    w == wi,
                    h == hi,
                    half == wi / 2,
                    self@.len() == orig.len(),
                    forall|a: int, b: int|
                        0 <= a < wi && 0 <= b < hi ==> #[trigger] pixel_of(self@, wi, bppi, a, b)
                            == if (b < y && (a < wi / 2 || a > wi - 1 - wi / 2)) || (b == y && (a
                            < x || a > wi - 1 - x)) {
                            pixel_of(orig, wi, bppi, wi - 1 - a, b)
                        } else {
                            pixel_of(orig, wi, bppi, a, b)
                        },
                decreases half - x,
            {
                let mx = w - 1 - x;
                let c1 = self.get(x, y);
                let c2 = self.get(mx, y);
                let ghost s0 = self@;
                self.set(x, y, &c2);
                let ghost s1 = self@;
                self.set(mx, y, &c1);
                proof {
                    let xi = x as int;
                    let yi = y as int;
                    let mi = mx as int;
                    lemma_other_pixels_unchanged(s0, s1, wi, hi, bppi, xi, yi);
                    lemma_other_pixels_unchanged(s1, self@, wi, hi, bppi, mi, yi);
                    assert(pixel_of(s1, wi, bppi, xi, yi) == pixel_of(s0, wi, bppi, mi, yi));
                    assert(pixel_of(self@, wi, bppi, mi, yi) == pixel_of(s0, wi, bppi, xi, yi));
                    assert(pixel_of(self@, wi, bppi, xi, yi) == pixel_of(s0, wi, bppi, mi, yi));
                }
                x = x + 1;
            }
            proof {
                assert forall|a: int, b: int| 0 <= a < wi && 0 <= b < hi implies #[trigger] pixel_of(
                    self@,
                    wi,
                    bppi,
                    a,
                    b,
                ) == if b < y + 1 && (a < wi / 2 || a > wi - 1 - wi / 2) {
                    pixel_of(orig, wi, bppi, wi - 1 - a, b)
                } else {
                    pixel_of(orig, wi, bppi, a, b)
                } by {
                    if b == y && !(a < wi / 2 || a > wi - 1 - wi / 2) {
                        assert(a == wi - 1 - a);
                    }
                }
            }
            y = y + 1;
        }
        true
    }
}

/// `n` copies of `s`, concatenated.
pub open spec fn repeat_bytes(s: Seq<u8>, n: int) -> Seq<u8>
    decreases n,
{
    if n <= 0 {
        Seq::empty()
    } else {
        s + repeat_bytes(s, n - 1)
    }
}

proof fn lemma_repeat_bytes_len(s: Seq<u8>, n: int)
    requires
        0 <= n,
    ensures
        repeat_bytes(s, n).len() == n * s.len(),
    decreases n,
{
    if n == 0 {
        assert(0 * s.len() == 0) by (nonlinear_arith);
    } else {
        lemma_repeat_bytes_len(s, n - 1);
        assert(n * s.len() == (n - 1) * s.len() + s.len()) by (nonlinear_arith);
    }
}

proof fn lemma_repeat_bytes_snoc(s: Seq<u8>, n: int)
    requires
        0 <= n,
    ensures
        repeat_bytes(s, n + 1) == repeat_bytes(s, n) + s,
    decreases n,
{
    if n == 0 {
        assert(repeat_bytes(s, 1) =~= repeat_bytes(s, 0) + s);
    } else {
        lemma_repeat_bytes_snoc(s, n - 1);
        assert(repeat_bytes(s, n + 1) =~= repeat_bytes(s, n) + s);
    }
}

/// The result of decoding a run-length encoded TGA pixel stream: chunks of
/// `src` are read from offset `off` on; a chunk header byte below 128
/// introduces that many plus one literal pixels of `bpp` bytes each, and
/// any other header byte repeats the single following pixel the header
/// minus 127 times. Decoding succeeds exactly when whole chunks fill
/// `npix` pixels, with no chunk overshooting the pixel count and no read
/// running past the end of `src`.
pub open spec fn rle_decode_at(src: Seq<u8>, off: int, bpp: int, npix: int) -> Option<Seq<u8>>
    decreases npix,
{
    if npix <= 0 || off < 0 || src.len() < off + 1 {
        None
    } else {
        let ch = src[off] as int;
        if ch < 128 {
            let count = ch + 1;
            if src.len() < off + 1 + count * bpp {
                None
            } else if count > npix {
                None
            } else {
                let chunk = src.subrange(off + 1, off + 1 + count * bpp);
                if count == npix {
                    Some(chunk)
                } else {
                    match rle_decode_at(src, off + 1 + count * bpp, bpp, npix - count) {
                        None => None,
                        Some(rest) => Some(chunk + rest),
                    }
                }
            }
        } else {
            let count = ch - 127;
            if src.len() < off + 1 + bpp {
                None
            } else if count > npix {
                None
            } else {
                let chunk = repeat_bytes(src.subrange(off + 1, off + 1 + bpp), count);
                if count == npix {
                    Some(chunk)
                } else {
                    match rle_decode_at(src, off + 1 + bpp, bpp, npix - count) {
                        None => None,
                        Some(rest) => Some(chunk + rest),
                    }
                }
            }
        }
    }
}

impl TGAImage {
    /// Fills the pixel buffer by decoding the run-length encoded stream
    /// `src`, exactly as `rle_decode_at` describes. Returns `false`, with
    /// the buffer's shape intact but its contents unspecified, when the
    /// stream is malformed: a read would run past the end of `src`, or a
    /// chunk would overshoot the pixel count.
    #[verifier::loop_isolation(false)]
    #[verifier::rlimit(100)]
    pub fn load_rle_data(&mut self, src: &[u8]) -> (r: bool)
        requires
            old(self).wf(),
            old(self).has_data(),
        ensures
            final(self).wf(),
            final(self).same_shape(old(self)),
            final(self)@.len() == old(self)@.len(),
            r == rle_decode_at(
                src@,
                0,
                old(self).spec_bytespp(),
                old(self).spec_width() * old(self).spec_height(),
            ) is Some,
            r ==> final(self)@ == rle_decode_at(
                src@,
                0,
                old(self).spec_bytespp(),
                old(self).spec_width() * old(self).spec_height(),
            )->0,
    {
        let ghost wi = self.spec_width();
        let ghost hi = self.spec_height();
        let ghost bppi = self.spec_bytespp();
        let ghost npix0 = wi * hi;
        let ghost srcs = src@;
        let ghost len0 = self@.len() as int;
        proof {
            assert(0 <= wi * hi && (wi * hi) * bppi == wi * hi * bppi) by (nonlinear_arith)
                requires
                    0 <= wi,
                    0 <= hi,
                    0 <= bppi,
            ;
        }
        let pixelcount: usize = (self.width * self.height) as usize;
        let bpp: usize = self.bytespp as usize;
        let src_len: usize = src.len();
        let mut d = self.data.take().unwrap();
        if pixelcount == 0 {
            self.data = Some(d);
            proof {
                assert(rle_decode_at(srcs, 0, bppi, npix0) is None);
            }
            return false;
        }
        let mut pos: usize = 0;
        let mut current: usize = 0;
        let mut cb: usize = 0;
        while current < pixelcount
            invariant
                self.spec_width() == wi,
                self.spec_height() == hi,
                self.spec_bytespp() == bppi,
                0 <= bppi <= 4,
                bpp == bppi,
                pixelcount == npix0,
                current <= pixelcount,
                pos <= srcs.len(),
                src@ == srcs,
                src_len == srcs.len(),
                d@.len() == len0,
                len0 == npix0 * bppi,
                len0 == wi * hi * bppi,
                len0 <= i32::MAX,
                cb == current * bppi,
                cb <= len0,
                current < pixelcount ==> rle_decode_at(srcs, 0, bppi, npix0) == match rle_decode_at(
                    srcs,
                    pos as int,
                    bppi,
                    npix0 - current,
                ) {
                    None => None::<Seq<u8>>,
                    Some(rest) => Some(d@.subrange(0, cb as int) + rest),
                },
                current == pixelcount ==> rle_decode_at(srcs, 0, bppi, npix0) == Some(
                    d@.subrange(0, cb as int),
                ),
            decreases pixelcount - current,
        {
            let ghost rem0 = npix0 - current;
            let ghost cur0 = current as int;
            let ghost cb0 = cb as int;
            let ghost d0 = d@;
            let ghost w0 = d0.subrange(0, cb0);
            if src.len() - pos < 1 {
                self.data = Some(d);
                proof {
                    assert(rle_decode_at(srcs, pos as int, bppi, rem0) is None);
                }
                return false;
            }
            let chunkheader = src[pos];
            let ghost pos0 = pos as int;
            pos = pos + 1;
            if chunkheader < 128 {
                let count: usize = chunkheader as usize + 1;
                proof {
                    assert(count as int * bpp as int <= 512) by (nonlinear_arith)
                        requires
                            0 <= count as int <= 128,
                            0 <= bpp as int <= 4,
                    ;
                }
                let chunk_bytes: usize = count * bpp;
                if src.len() - pos < chunk_bytes {
                    self.data = Some(d);
                    proof {
                        assert(rle_decode_at(srcs, pos0, bppi, rem0) is None);
                    }
                    return false;
                }
                if pixelcount - current < count {
                    self.data = Some(d);
                    proof {
                        assert(rle_decode_at(srcs, pos0, bppi, rem0) is None);
                    }
                    return false;
                }
                proof {
                    lemma_mul_inequality(cur0 + count as int, npix0, bppi);
                    assert((cur0 + count as int) * bppi == cur0 * bppi + count as int * bppi)
                        by (nonlinear_arith);
                }
                let mut t: usize = 0;
                while t < chunk_bytes
                    invariant
                        t <= chunk_bytes,
                        chunk_bytes == count as int * bppi,
                        pos == pos0 + 1,
                        cb == cb0,
                        pos + chunk_bytes <= srcs.len(),
                        src@ == srcs,
                        src_len == srcs.len(),
                        cb + chunk_bytes <= d@.len(),
                        d@.len() == len0,
                        len0 <= i32::MAX,
                        forall|i: int|
                            0 <= i < d@.len() && !(cb0 <= i < cb0 + t) ==> d@[i] == d0[i],
                        forall|i: int| cb0 <= i < cb0 + t ==> d@[i] == srcs[pos0 + 1 + (i - cb0)],
                    decreases chunk_bytes - t,
                {
                    d.set(cb + t, src[pos + t]);
                    t = t + 1;
                }
                pos = pos + chunk_bytes;
                cb = cb + chunk_bytes;
                current = current + count;
                proof {
                    let cnt = count as int;
                    let chunk = srcs.subrange(pos0 + 1, pos0 + 1 + cnt * bppi);
                    assert(d@.subrange(0, cb as int) =~= w0 + chunk);
                    if current < pixelcount {
                        assert(rle_decode_at(srcs, pos0, bppi, rem0) == match rle_decode_at(
                            srcs,
                            pos0 + 1 + cnt * bppi,
                            bppi,
                            rem0 - cnt,
                        ) {
                            None => None::<Seq<u8>>,
                            Some(rest) => Some(chunk + rest),
                        });
                        match rle_decode_at(srcs, pos as int, bppi, npix0 - current) {
                            None => {},
                            Some(rest) => {
                                assert(w0 + (chunk + rest) =~= (w0 + chunk) + rest);
                            },
                        }
                    } else {
                        assert(rle_decode_at(srcs, pos0, bppi, rem0) == Some(chunk));
                    }
                }
            } else {
                let count: usize = chunkheader as usize - 127;
                if src.len() - pos < bpp {
                    self.data = Some(d);
                    proof {
                        assert(rle_decode_at(srcs, pos0, bppi, rem0) is None);
                    }
                    return false;
                }
                if pixelcount - current < count {
                    self.data = Some(d);
                    proof {
                        assert(rle_decode_at(srcs, pos0, bppi, rem0) is None);
                    }
                    return false;
                }
                let ghost pix = srcs.subrange(pos0 + 1, pos0 + 1 + bppi);
                proof {
                    lemma_mul_inequality(cur0 + count as int, npix0, bppi);
                    assert((cur0 + count as int) * bppi == cur0 * bppi + count as int * bppi)
                        by (nonlinear_arith);
                    assert(d@.subrange(cb0, cb0) =~= repeat_bytes(pix, 0));
                }
                let mut k: usize = 0;
                while k < count
                    invariant
                        k <= count,
                        cb == cb0 + k as int * bppi,
                        cb0 + count as int * bppi <= len0,
                        pos == pos0 + 1,
                        pos + bpp <= srcs.len(),
                        src@ == srcs,
                        src_len == srcs.len(),
                        bpp == bppi,
                        0 <= bppi,
                        d@.len() == len0,
                        len0 <= i32::MAX,
                        pix == srcs.subrange(pos0 + 1, pos0 + 1 + bppi),
                        forall|i: int| 0 <= i < d@.len() && !(cb0 <= i < cb) ==> d@[i] == d0[i],
                        d@.subrange(cb0, cb as int) == repeat_bytes(pix, k as int),
                    decreases count - k,
                {
                    proof {
                        assert((k as int + 1) * bppi == k as int * bppi + bppi)
                            by (nonlinear_arith);
                        assert(0 <= k as int * bppi) by (nonlinear_arith)
                            requires
                                0 <= k as int,
                                0 <= bppi,
                        ;
                        lemma_mul_inequality(k as int + 1, count as int, bppi);
                        lemma_repeat_bytes_len(pix, k as int);
                    }
                    let ghost dk = d@;
                    let ghost cbk = cb as int;
                    let mut t: usize = 0;
                    while t < bpp
                        invariant
                            t <= bpp,
                            cb == cbk,
                            cb + bpp <= d@.len(),
                            cb + bpp <= len0,
                            pos + bpp <= srcs.len(),
                            src@ == srcs,
                            d@.len() == len0,
                            len0 <= i32::MAX,
                            forall|i: int|
                                0 <= i < d@.len() && !(cbk <= i < cbk + t) ==> d@[i] == dk[i],
                            forall|i: int|
                                cbk <= i < cbk + t ==> d@[i] == srcs[pos as int + (i - cbk)],
                            cb0 <= cbk,
                            src_len == srcs.len(),
                        decreases bpp - t,
                    {
                        d.set(cb + t, src[pos + t]);
                        t = t + 1;
                    }
                    proof {
                        assert(d@.subrange(cbk, cbk + bppi) =~= pix);
                        assert(d@.subrange(cb0, cbk) =~= dk.subrange(cb0, cbk));
                        lemma_repeat_bytes_snoc(pix, k as int);
                        assert(d@.subrange(cb0, cbk + bppi) =~= repeat_bytes(pix, k as int)
                            + d@.subrange(cbk, cbk + bppi));
                    }
                    cb = cb + bpp;
                    k = k + 1;
                }
                pos = pos + bpp;
                current = current + count;
                proof {
                    let cnt = count as int;
                    let chunk = repeat_bytes(pix, cnt);
                    lemma_repeat_bytes_len(pix, cnt);
                    assert(d@.subrange(0, cb as int) =~= w0 + chunk);
                    if current < pixelcount {
                        assert(rle_decode_at(srcs, pos0, bppi, rem0) == match rle_decode_at(
                            srcs,
                            pos0 + 1 + bppi,
                            bppi,
                            rem0 - cnt,
                        ) {
                            None => None::<Seq<u8>>,
                            Some(rest) => Some(chunk + rest),
                        });
                        match rle_decode_at(srcs, pos as int, bppi, npix0 - current) {
                            None => {},
                            Some(rest) => {
                                assert(w0 + (chunk + rest) =~= (w0 + chunk) + rest);
                            },
                        }
                    } else {
                        assert(rle_decode_at(srcs, pos0, bppi, rem0) == Some(chunk));
                    }
                }
            }
        }
        proof {
            assert(d@.subrange(0, cb as int) =~= d@);
        }
        self.data = Some(d);
        true
    }
}

/// Why a TGA byte stream was rejected.
#[derive(Clone, Copy, Debug, PartialEq, Eq, Structural)]
pub enum TgaError {
    /// Fewer than 18 bytes: no complete header.
    TooShort,
    /// A data type code or pixel size the codec does not handle.
    Unsupported,
    /// The header describes a pixel buffer over the `i32` byte limit.
    TooLarge,
    /// The run-length encoded pixel stream is malformed.
    BadData,
}

/// The image width recorded in a TGA header.
pub open spec fn tga_width(b: Seq<u8>) -> int {
    le16(b[12], b[13]) as int
}

/// The image height recorded in a TGA header.
pub open spec fn tga_height(b: Seq<u8>) -> int {
    le16(b[14], b[15]) as int
}

/// The bytes per pixel recorded in a TGA header.
pub open spec fn tga_bytespp(b: Seq<u8>) -> int {
    b[16] as int / 8
}

/// The header names a run-length encoded image (color or grayscale) of a
/// pixel size the codec handles.
pub open spec fn tga_supported(b: Seq<u8>) -> bool {
    &&& (b[2] == 10 || b[2] == 11)
    &&& 1 <= tga_bytespp(b) <= 4
}

/// The decoded pixel stream of a TGA file: its bytes after the header,
/// run-length decoded to the pixel count the header gives.
pub open spec fn tga_pixels(b: Seq<u8>) -> Option<Seq<u8>> {
    rle_decode_at(
        b.subrange(18, b.len() as int),
        0,
        tga_bytespp(b),
        tga_width(b) * tga_height(b),
    )
}

impl TGAImage {
    /// Replaces this image with the one a TGA byte stream describes:
    /// header, run-length decoded pixels, then the vertical and horizontal
    /// flips the image descriptor byte calls for. On any error the image
    /// is left as it was; each error names the first check that failed.
    #[verifier::loop_isolation(false)]
    pub fn read_tga_data(&mut self, bytes: &[u8]) -> (r: Result<(), TgaError>)
        ensures
            r == Err::<(), TgaError>(TgaError::TooShort) <==> bytes@.len() < 18,
            r == Err::<(), TgaError>(TgaError::Unsupported) <==> bytes@.len() >= 18
                && !tga_supported(bytes@),
            r == Err::<(), TgaError>(TgaError::TooLarge) <==> bytes@.len() >= 18 && tga_supported(
                bytes@,
            ) && tga_width(bytes@) * tga_height(bytes@) * tga_bytespp(bytes@) > i32::MAX,
            r == Err::<(), TgaError>(TgaError::BadData) <==> bytes@.len() >= 18 && tga_supported(
                bytes@,
            ) && tga_width(bytes@) * tga_height(bytes@) * tga_bytespp(bytes@) <= i32::MAX
                && tga_pixels(bytes@) is None,
            r is Ok <==> bytes@.len() >= 18 && tga_supported(bytes@) && tga_width(bytes@)
                * tga_height(bytes@) * tga_bytespp(bytes@) <= i32::MAX && tga_pixels(
                bytes@,
            ) is Some,
            r is Err ==> *final(self) == *old(self),
            r is Ok ==> {
                let w = tga_width(bytes@);
                let h = tga_height(bytes@);
                let bpp = tga_bytespp(bytes@);
                let dec = tga_pixels(bytes@)->0;
                let desc = bytes@[17];
                &&& final(self).wf()
                &&& final(self).has_data()
                &&& final(self).spec_width() == w
                &&& final(self).spec_height() == h
                &&& final(self).spec_bytespp() == bpp
                &&& forall|x: int, y: int|
                    0 <= x < w && 0 <= y < h ==> #[trigger] pixel_of(final(self)@, w, bpp, x, y)
                        == pixel_of(
                        dec,
                        w,
                        bpp,
                        if desc & 0x10 != 0 {
                            w - 1 - x
                        } else {
                            x
                        },
                        if desc & 0x20 == 0 {
                            h - 1 - y
                        } else {
                            y
                        },
                    )
            },
    {
        let header = match TGAHeader::parse(bytes) {
            None => { return Err(TgaError::TooShort) },
            Some(h) => h,
        };
        if !(header.data_type_code == 10 || header.data_type_code == 11) {
            return Err(TgaError::Unsupported);
        }
        let bpp_u8: u8 = header.bits_per_pixel >> 3;
        proof {
            let bits = header.bits_per_pixel;
            assert(bits >> 3 == bits / 8) by (bit_vector);
        }
        if bpp_u8 < 1 || bpp_u8 > 4 {
            return Err(TgaError::Unsupported);
        }
        let w: i32 = header.width as i32;
        let h: i32 = header.height as i32;
        let bpp: i32 = bpp_u8 as i32;
        let ghost wi = w as int;
        let ghost hi = h as int;
        let ghost bppi = bpp as int;
        proof {
            assert(wi * hi <= 65535 * 65535 && wi * hi * bppi <= 65535 * 65535 * 4 && 0 <= wi * hi
                && 0 <= wi * hi * bppi
                && wi * bppi <= i32::MAX && (wi * hi <= i32::MAX || wi * hi * bppi > i32::MAX)
                && (wi * hi) * bppi == wi * hi * bppi) by (nonlinear_arith)
                requires
                    0 <= wi <= 65535,
                    0 <= hi <= 65535,
                    1 <= bppi <= 4,
            ;
        }
        let total: i64 = (w as i64) * (h as i64) * (bpp as i64);
        if total > i32::MAX as i64 {
            return Err(TgaError::TooLarge);
        }
        let mut img = TGAImage::new_dimensions(w, h, bpp);
        let sub = &bytes[18..bytes.len()];
        if !img.load_rle_data(sub) {
            return Err(TgaError::BadData);
        }
        let ghost dec = tga_pixels(bytes@)->0;
        assert(img@ == dec);
        let desc = header.image_descriptor;
        let ghost v0 = img@;
        if desc & 0x20 == 0 {
            img.flip_vertically();
        }
        let ghost v1 = img@;
        proof {
            assert forall|x: int, y: int| 0 <= x < wi && 0 <= y < hi implies #[trigger] pixel_of(
                v1,
                wi,
                bppi,
                x,
                y,
            ) == pixel_of(
                dec,
                wi,
                bppi,
                x,
                if desc & 0x20 == 0 {
                    hi - 1 - y
                } else {
                    y
                },
            ) by {}
        }
        if desc & 0x10 != 0 {
            img.flip_horizontally();
        }
        proof {
            assert forall|x: int, y: int| 0 <= x < wi && 0 <= y < hi implies #[trigger] pixel_of(
                img@,
                wi,
                bppi,
                x,
                y,
            ) == pixel_of(
                dec,
                wi,
                bppi,
                if desc & 0x10 != 0 {
                    wi - 1 - x
                } else {
                    x
                },
                if desc & 0x20 == 0 {
                    hi - 1 - y
                } else {
                    y
                },
            ) by {
                if desc & 0x10 != 0 {
                    assert(pixel_of(img@, wi, bppi, x, y) == pixel_of(v1, wi, bppi, wi - 1 - x, y));
                }
            }
        }
        *self = img;
        Ok(())
    }

    /// The TGA file bytes of the image: its 18-byte header followed by the
    /// raw pixel data. `rle` only selects the data type code recorded in
    /// the header; the pixel data itself is written uncompressed.
    pub fn write_tga_data(&self, rle: bool) -> (r: Vec<u8>)
        requires
            self.wf(),
            self.has_data(),
            self.spec_width() <= u16::MAX,
            self.spec_height() <= u16::MAX,
        ensures
            ({
                let h = TGAHeader {
                    id_length: 0,
                    color_map_type: 0,
                    data_type_code: if self.spec_bytespp() == 1 {
                        if rle {
                            11
                        } else {
                            3
                        }
                    } else {
                        if rle {
                            10
                        } else {
                            2
                        }
                    },
                    color_map_origin: 0,
                    color_map_length: 0,
                    color_map_depth: 0,
                    x_origin: 0,
                    y_origin: 0,
                    width: self.spec_width() as u16,
                    height: self.spec_height() as u16,
                    bits_per_pixel: (self.spec_bytespp() * 8) as u8,
                    image_descriptor: 0x20,
                };
                r@ == header_bytes(h) + self@
            }),
    {
        let mut header = TGAHeader::new();
        header.bits_per_pixel = (self.bytespp * 8) as u8;
        header.width = self.width as u16;
        header.height = self.height as u16;
        header.data_type_code = if self.bytespp == 1 {
            if rle {
                11
            } else {
                3
            }
        } else {
            if rle {
                10
            } else {
                2
            }
        };
        header.image_descriptor = 0x20;
        let mut r = header.to_bytes();
        let d = self.data.as_ref().unwrap();
        let n = d.len();
        let mut i: usize = 0;
        while i < n
            invariant
                i <= n,
                n == d@.len(),
                d@ == self@,
                r@ == header_bytes(header) + self@.subrange(0, i as int),
            decreases n - i,
        {
            r.push(d[i]);
            proof {
                assert(r@ =~= header_bytes(header) + self@.subrange(0, i + 1));
            }
            i = i + 1;
        }
        proof {
            assert(self@.subrange(0, self@.len() as int) =~= self@);
        }
        r
    }
}

/// A zero byte buffer of length `n`.
fn zero_bytes(n: usize) -> (v: Vec<u8>)
    ensures
        v@ == Seq::new(n as nat, |i: int| 0u8),
{
    let mut v: Vec<u8> = Vec::new();
    let mut i: usize = 0;
    while i < n
        invariant
            i <= n,
            v@ == Seq::new(i as nat, |j: int| 0u8),
        decreases n - i,
    {
        v.push(0);
        i = i + 1;
        proof {
            assert(v@ =~= Seq::new(i as nat, |j: int| 0u8));
        }
    }
    v
}

} // verus!
