//! A palette-indexed image and its encoding as bytes.
//!
//! An image holds one byte per pixel, row by row from the top left, each an
//! index into a table of at most 256 colors. Encoded, it is a file header,
//! an image header, the full color table and then the pixels as they are,
//! with nothing between one row and the next.

use vstd::prelude::*;

verus! {

/// Most colors an image can register.
pub const PALETTE_CAPACITY: usize = 256;

/// Bytes before the pixels of an encoded image: 14 of file header, 40 of
/// image header and four for each of the 256 entries of the color table.
pub const HEADER_SIZE: usize = 1078;

/// Most pixels an image can hold: with the headers they must fit the 32-bit
/// size field of the file header.
pub const MAX_PIXELS: usize = 0xffff_ffff - HEADER_SIZE;

/// Greatest width or height that the image header can record.
pub const MAX_SIDE: usize = 0x7fff_ffff;

/// Whether an image of this size can be encoded.
pub open spec fn encodable(width: nat, height: nat) -> bool {
    &&& width <= MAX_SIDE
    &&& height <= MAX_SIDE
    &&& width * height <= MAX_PIXELS
}

/// Tells whether an image of this size can be encoded.
pub fn can_encode(width: usize, height: usize) -> (yes: bool)
    ensures
        yes == encodable(width as nat, height as nat),
{
    if width > MAX_SIDE || height > MAX_SIDE {
        return false;
    }
    if height == 0 {
        assert(width * 0 == 0);
        return true;
    }
    let most: usize = MAX_PIXELS / height;
    proof {
        vstd::arithmetic::div_mod::lemma_fundamental_div_mod(MAX_PIXELS as int, height as int);
        if width <= most {
            assert(width * height <= most * height) by (nonlinear_arith)
                requires
                    width <= most,
            ;
            assert(most * height == height * most) by (nonlinear_arith);
        } else {
            assert(width * height >= (most + 1) * height) by (nonlinear_arith)
                requires
                    width >= most + 1,
            ;
            assert((most + 1) * height == height * most + height) by (nonlinear_arith);
        }
    }
    width <= most
}

/// The value of a hexadecimal digit.
pub open spec fn hex_digit(c: char) -> Option<nat> {
    let n = c as nat;
    if 48 <= n <= 57 {
        Some((n - 48) as nat)
    } else if 65 <= n <= 70 {
        Some((n - 55) as nat)
    } else if 97 <= n <= 102 {
        Some((n - 87) as nat)
    } else {
        None
    }
}

/// Whether `color` is a `#` followed by six hexadecimal digits.
pub open spec fn is_color(color: Seq<char>) -> bool {
    &&& color.len() == 7
    &&& color[0] == '#'
    &&& forall|i: int| 1 <= i < 7 ==> hex_digit(#[trigger] color[i]) is Some
}

/// The number that the first `n` digits after the `#` spell.
pub open spec fn hex_prefix(color: Seq<char>, n: nat) -> nat
    decreases n,
{
    if n == 0 {
        0
    } else {
        16 * hex_prefix(color, (n - 1) as nat) + hex_digit(color[n as int]).unwrap()
    }
}

/// The color that a descriptor names, as red, green and blue in the three
/// low bytes. A descriptor that is not of the form `#rrggbb` names black.
pub open spec fn color_value(color: Seq<char>) -> u32 {
    if is_color(color) {
        hex_prefix(color, 6) as u32
    } else {
        0
    }
}

/// Where `value` stands in `palette` once it is registered: its place if it
/// is there already, else the next free place, if there is one.
pub open spec fn palette_index(palette: Seq<u32>, value: u32) -> Option<u8> {
    if palette.contains(value) {
        Some(palette.index_of(value) as u8)
    } else if palette.len() < PALETTE_CAPACITY {
        Some(palette.len() as u8)
    } else {
        None
    }
}

/// The palette once `value` is registered: a color is added at the end
/// unless it is there already or the palette is full.
pub open spec fn palette_with(palette: Seq<u32>, value: u32) -> Seq<u32> {
    if palette.contains(value) || palette.len() >= PALETTE_CAPACITY {
        palette
    } else {
        palette.push(value)
    }
}

/// Two bytes, low byte first.
pub open spec fn le16(n: nat) -> Seq<u8> {
    seq![(n % 256) as u8, (n / 256 % 256) as u8]
}

/// Four bytes, low byte first.
pub open spec fn le32(n: nat) -> Seq<u8> {
    seq![
        (n % 256) as u8,
        (n / 256 % 256) as u8,
        (n / 65536 % 256) as u8,
        (n / 16777216 % 256) as u8,
    ]
}

/// The file header: the signature, the size of the whole file, four bytes
/// left at zero and the place where the pixels start.
pub open spec fn file_header(pixels: nat) -> Seq<u8> {
    seq![66u8, 77u8] + le32((HEADER_SIZE + pixels) as nat) + le32(0) + le32(HEADER_SIZE as nat)
}

/// The image header: its own size, the width, the height written as a
/// negative number because the rows run from the top, one plane, eight bits
/// per pixel, no compression, the number of pixel bytes, no print resolution,
/// 256 colors in the table, all of them needed.
pub open spec fn info_header(width: nat, height: nat) -> Seq<u8> {
    le32(40) + le32(width) + le32((0x1_0000_0000 - height) as nat) + le16(1) + le16(8) + le32(0)
        + le32(width * height) + le32(0) + le32(0) + le32(PALETTE_CAPACITY as nat) + le32(0)
}

/// Byte `i` of the color table: blue, green, red and a zero for each entry;
/// entries past the registered colors are zero.
pub open spec fn color_table_byte(palette: Seq<u32>, i: int) -> u8 {
    let entry = i / 4;
    if entry < palette.len() {
        let value = palette[entry] as nat;
        if i % 4 == 0 {
            (value % 256) as u8
        } else if i % 4 == 1 {
            (value / 256 % 256) as u8
        } else if i % 4 == 2 {
            (value / 65536 % 256) as u8
        } else {
            0
        }
    } else {
        0
    }
}

/// The color table, always 256 entries long.
pub open spec fn color_table(palette: Seq<u32>) -> Seq<u8> {
    Seq::new(4 * PALETTE_CAPACITY as nat, |i: int| color_table_byte(palette, i))
}

/// The encoded image.
pub open spec fn encode(image: BitMapView) -> Seq<u8> {
    file_header(image.pixels.len()) + info_header(image.width, image.height) + color_table(
        image.palette,
    ) + image.pixels
}

/// An encoded image is as long as its pixels and the headers before them.
pub proof fn lemma_encode_len(image: BitMapView)
    ensures
        encode(image).len() == HEADER_SIZE + image.pixels.len(),
        encode(image).subrange(HEADER_SIZE as int, encode(image).len() as int) == image.pixels,
{
    assert(encode(image).subrange(HEADER_SIZE as int, encode(image).len() as int)
        =~= image.pixels);
}

/// What an image holds.
pub struct BitMapView {
    pub width: nat,
    pub height: nat,
    /// The registered colors, each as red, green and blue in its three low
    /// bytes; the place of a color is its index.
    pub palette: Seq<u32>,
    /// One palette index per pixel, row by row from the top left.
    pub pixels: Seq<u8>,
}

/// A palette-indexed image.
#[derive(Debug)]
pub struct BitMap {
    width: usize,
    height: usize,
    palette: Vec<u32>,
    pixels: Vec<u8>,
}

impl View for BitMap {
    type V = BitMapView;

    closed spec fn view(&self) -> BitMapView {
        BitMapView {
            width: self.width as nat,
            height: self.height as nat,
            palette: self.palette@,
            pixels: self.pixels@,
        }
    }
}

fn digit_of(c: char) -> (d: Option<u32>)
    ensures
        d is Some <==> hex_digit(c) is Some,
        d is Some ==> d.unwrap() == hex_digit(c).unwrap(),
{
    let n: u32 = c as u32;
    if 48 <= n && n <= 57 {
        Some(n - 48)
    } else if 65 <= n && n <= 70 {
        Some(n - 55)
    } else if 97 <= n && n <= 102 {
        Some(n - 87)
    } else {
        None
    }
}

/// Resolves a color descriptor.
pub fn parse_color(color: &str) -> (value: u32)
    ensures
        value == color_value(color@),
        value <= 0xff_ffff,
{
    if color.unicode_len() != 7 {
        return 0;
    }
    if color.get_char(0) != '#' {
        return 0;
    }
    let mut value: u32 = 0;
    let mut i: usize = 1;
    while i < 7
        invariant
            1 <= i <= 7,
            color@.len() == 7,
            color@[0] == '#',
            forall|j: int| 1 <= j < i ==> hex_digit(#[trigger] color@[j]) is Some,
            value == hex_prefix(color@, (i - 1) as nat),
            value < pow16((i - 1) as nat),
        decreases 7 - i,
    {
        match digit_of(color.get_char(i)) {
            Some(d) => {
                proof {
                    reveal_with_fuel(pow16, 8);
                }
                value = 16 * value + d;
            },
            None => {
                return 0;
            },
        }
        i = i + 1;
    }
    proof {
        reveal_with_fuel(pow16, 8);
    }
    value
}

/// Sixteen to the power of `n`.
spec fn pow16(n: nat) -> nat
    decreases n,
{
    if n == 0 {
        1
    } else {
        16 * pow16((n - 1) as nat)
    }
}

fn push_le16(out: &mut Vec<u8>, n: u64)
    ensures
        final(out)@ == old(out)@ + le16(n as nat),
{
    out.push((n % 256) as u8);
    out.push((n / 256 % 256) as u8);
    assert(out@ =~= old(out)@ + le16(n as nat));
}

fn push_le32(out: &mut Vec<u8>, n: u64)
    ensures
        final(out)@ == old(out)@ + le32(n as nat),
{
    out.push((n % 256) as u8);
    out.push((n / 256 % 256) as u8);
    out.push((n / 65536 % 256) as u8);
    out.push((n / 16777216 % 256) as u8);
    assert(out@ =~= old(out)@ + le32(n as nat));
}

fn push_file_header(out: &mut Vec<u8>, pixels: usize)
    requires
        pixels <= MAX_PIXELS,
    ensures
        final(out)@ == old(out)@ + file_header(pixels as nat),
{
    out.push(66u8);
    out.push(77u8);
    assert(out@ =~= old(out)@ + seq![66u8, 77u8]);
    push_le32(out, (HEADER_SIZE + pixels) as u64);
    push_le32(out, 0);
    push_le32(out, HEADER_SIZE as u64);
    assert(out@ =~= old(out)@ + file_header(pixels as nat));
}

fn push_info_header(out: &mut Vec<u8>, width: usize, height: usize, pixels: usize)
    requires
        pixels == width * height,
        height <= MAX_SIDE,
    ensures
        final(out)@ == old(out)@ + info_header(width as nat, height as nat),
{
    push_le32(out, 40);
    push_le32(out, width as u64);
    push_le32(out, 0x1_0000_0000u64 - (height as u64));
    push_le16(out, 1);
    push_le16(out, 8);
    push_le32(out, 0);
    let ghost half = out@;
    push_le32(out, pixels as u64);
    push_le32(out, 0);
    push_le32(out, 0);
    push_le32(out, PALETTE_CAPACITY as u64);
    push_le32(out, 0);
    assert(half =~= old(out)@ + (le32(40) + le32(width as nat) + le32(
        (0x1_0000_0000 - height) as nat,
    ) + le16(1) + le16(8) + le32(0)));
    assert(out@ =~= old(out)@ + info_header(width as nat, height as nat));
}

fn push_color_table(out: &mut Vec<u8>, palette: &Vec<u32>)
    ensures
        final(out)@ == old(out)@ + color_table(palette@),
{
    let ghost head = out@;
    let mut entry: usize = 0;
    while entry < PALETTE_CAPACITY
        invariant
            entry <= PALETTE_CAPACITY,
            out@ == head + color_table(palette@).take(4 * entry),
        decreases PALETTE_CAPACITY - entry,
    {
        if entry < palette.len() {
            let value: u32 = palette[entry];
            out.push((value % 256) as u8);
            out.push((value / 256 % 256) as u8);
            out.push((value / 65536 % 256) as u8);
            out.push(0);
        } else {
            out.push(0);
            out.push(0);
            out.push(0);
            out.push(0);
        }
        entry = entry + 1;
        assert(out@ =~= head + color_table(palette@).take(4 * entry));
    }
    assert(out@ =~= head + color_table(palette@));
}

impl BitMap {
    /// The image holds a pixel for each place, no color twice and no more
    /// colors or pixels than its encoding has room for.
    pub open spec fn wf(&self) -> bool {
        &&& encodable(self@.width, self@.height)
        &&& self@.pixels.len() == self@.width * self@.height
        &&& self@.palette.len() <= PALETTE_CAPACITY
        &&& self@.palette.no_duplicates()
    }

    /// An image of the given size with no color registered and every pixel
    /// at index zero.
    pub fn new(width: usize, height: usize) -> (image: BitMap)
        requires
            encodable(width as nat, height as nat),
        ensures
            image.wf(),
            image@.width == width,
            image@.height == height,
            image@.palette == Seq::<u32>::empty(),
            image@.pixels == Seq::new((width * height) as nat, |i: int| 0u8),
    {
        let pixels: Vec<u8> = vec![0u8; width * height];
        let image = BitMap { width, height, palette: Vec::new(), pixels };
        assert(image@.pixels =~= Seq::new((width * height) as nat, |i: int| 0u8));
        image
    }

    /// Registers a color and returns its palette index. A color that is
    /// registered already keeps its index; a new one takes the next free
    /// index; when all 256 are taken a new color is refused.
    pub fn add_color(&mut self, color: &str) -> (index: Option<u8>)
        requires
            old(self).wf(),
        ensures
            final(self).wf(),
            index == palette_index(old(self)@.palette, color_value(color@)),
            final(self)@ == (BitMapView {
                palette: palette_with(old(self)@.palette, color_value(color@)),
                ..old(self)@
            }),
            index matches Some(i) ==> {
                &&& i < final(self)@.palette.len()
                &&& final(self)@.palette[i as int] == color_value(color@)
            },
    {
        let value: u32 = parse_color(color);
        let mut i: usize = 0;
        while i < self.palette.len()
            invariant
                i <= self.palette.len(),
                *self == *old(self),
                self.wf(),
                value == color_value(color@),
                forall|j: int| 0 <= j < i ==> self.palette@[j] != value,
            decreases self.palette.len() - i,
        {
            if self.palette[i] == value {
                proof {
                    let palette = old(self)@.palette;
                    assert(palette[i as int] == value);
                    assert(palette.contains(value));
                    assert(palette.index_of(value) == i);
                    assert(self@ == old(self)@);
                }
                return Some(i as u8);
            }
            i = i + 1;
        }
        assert(!self.palette@.contains(value));
        if self.palette.len() < PALETTE_CAPACITY {
            let index: u8 = self.palette.len() as u8;
            self.palette.push(value);
            Some(index)
        } else {
            None
        }
    }

    /// Replaces the pixels of the image.
    pub fn add_pixels(&mut self, pixels: &Vec<u8>)
        requires
            old(self).wf(),
            pixels@.len() == old(self)@.pixels.len(),
        ensures
            final(self).wf(),
            final(self)@ == (BitMapView { pixels: pixels@, ..old(self)@ }),
    {
        self.pixels = pixels.clone();
        assert(self.pixels@ =~= pixels@);
    }

    /// Encodes the image.
    pub fn to_vec(&self) -> (bytes: Vec<u8>)
        requires
            self.wf(),
        ensures
            bytes@ == encode(self@),
    {
        let mut bytes: Vec<u8> = Vec::new();
        push_file_header(&mut bytes, self.pixels.len());
        push_info_header(&mut bytes, self.width, self.height, self.pixels.len());
        push_color_table(&mut bytes, &self.palette);
        let ghost table = bytes@;
        let mut i: usize = 0;
        while i < self.pixels.len()
            invariant
                i <= self.pixels.len(),
                bytes@ == table + self.pixels@.take(i as int),
            decreases self.pixels.len() - i,
        {
            bytes.push(self.pixels[i]);
            i = i + 1;
            assert(bytes@ =~= table + self.pixels@.take(i as int));
        }
        assert(bytes@ =~= encode(self@));
        bytes
    }
}

} // verus!
