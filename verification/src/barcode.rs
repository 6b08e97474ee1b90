//! Barcodes: the Data Matrix symbol that labels a container or an item, as a
//! PNG image of one bit per module.
//!
//! The symbol encodes a marker and the identifier. Its modules are packed
//! into rows of whole bytes, most significant bit first, a set bit being a
//! light module; around a container's symbol lies a quiet zone of one light
//! module.

use vstd::prelude::*;
use crate::key::Id;

verus! {

/// Why no barcode was made.
#[derive(Clone, Copy, Debug, PartialEq, Eq, Structural)]
pub enum BarcodeError {
    /// The payload cannot be encoded as a symbol.
    Symbol,
    /// The symbol cannot be drawn as an image.
    Image,
}

/// A symbol: its size in modules, and the places of its dark modules as
/// column and row.
#[derive(Clone, Debug, PartialEq, Eq)]
pub struct Symbol {
    pub width: usize,
    pub height: usize,
    pub dark: Vec<(usize, usize)>,
}

/// A symbol as a mathematical value.
pub struct SymbolView {
    pub width: usize,
    pub height: usize,
    pub dark: Seq<(usize, usize)>,
}

impl View for Symbol {
    type V = SymbolView;

    open spec fn view(&self) -> SymbolView {
        SymbolView { width: self.width, height: self.height, dark: self.dark@ }
    }
}

/// The symbol that `datamatrix::DataMatrix::encode` makes of `data` with the
/// default list of symbol sizes, by the width, the height and the dark
/// modules of its bitmap; none where it refuses the data.
pub uninterp spec fn datamatrix_symbol(data: Seq<u8>) -> Option<
    (usize, usize, Seq<(usize, usize)>),
>;

/// The PNG file that the `png` encoder writes for a grayscale image of one
/// bit per pixel with the rows `raw`; none where it refuses the image.
pub uninterp spec fn png_gray1(width: u32, height: u32, raw: Seq<u8>) -> Option<Seq<u8>>;

/// The data opens with one of the two headers that the encoder takes for a
/// macro: `[)>`, the record separator, `05` or `06`, the group separator.
pub open spec fn opens_macro(data: Seq<u8>) -> bool {
    &&& data.len() >= 7
    &&& data[0] == 0x5b
    &&& data[1] == 0x29
    &&& data[2] == 0x3e
    &&& data[3] == 0x1e
    &&& data[4] == 0x30
    &&& (data[5] == 0x35 || data[5] == 0x36)
    &&& data[6] == 0x1d
}

/// The encoder can be given the data: it is not a macro header with less
/// than the two bytes of a trailer behind it, of which the encoder would cut
/// more than there is.
pub open spec fn encodable(data: Seq<u8>) -> bool {
    !(opens_macro(data) && data.len() < 9)
}

/// `datamatrix::DataMatrix::encode` with `SymbolList::default()`, then
/// `DataMatrix::bitmap` with its `width`, `height` and `pixels`: the symbol
/// for `data`, which depends on `data` alone. The dark modules lie inside
/// the symbol, as `pixels` counts them row by row. Left out is data that
/// opens with a macro header and is shorter than header and trailer, on
/// which the encoder panics.
#[verifier::external_body]
fn encode_symbol(data: &[u8]) -> (symbol: Option<Symbol>)
    requires
        encodable(data@),
    ensures
        match symbol {
            Some(symbol) => datamatrix_symbol(data@) == Some(
                (symbol.width, symbol.height, symbol.dark@),
            ),
            None => datamatrix_symbol(data@) is None,
        },
        symbol matches Some(symbol) ==> forall|i: int|
            0 <= i < symbol.dark@.len() ==> (#[trigger] symbol.dark@[i]).0 < symbol.width
                && symbol.dark@[i].1 < symbol.height,
{
    let code = datamatrix::DataMatrix::encode(data, datamatrix::SymbolList::default()).ok()?;
    let bitmap = code.bitmap();
    Some(Symbol { width: bitmap.width(), height: bitmap.height(), dark: bitmap.pixels().collect() })
}

/// `png::Encoder` with `ColorType::Grayscale` and `BitDepth::One`, then
/// `write_header` and `Writer::write_image_data` into a vector: the file for
/// the rows `raw`, which depends on the arguments alone. The rows have the
/// length that the encoder asks for.
#[verifier::external_body]
fn encode_png(width: u32, height: u32, raw: &[u8]) -> (file: Option<Vec<u8>>)
    requires
        raw@.len() == row_bytes(width as int) * height,
    ensures
        match file {
            Some(file) => png_gray1(width, height, raw@) == Some(file@),
            None => png_gray1(width, height, raw@) is None,
        },
{
    let mut file = Vec::new();
    let mut encoder = png::Encoder::new(&mut file, width, height);
    encoder.set_color(png::ColorType::Grayscale);
    encoder.set_depth(png::BitDepth::One);
    let mut writer = encoder.write_header().ok()?;
    writer.write_image_data(raw).ok()?;
    writer.finish().ok()?;
    Some(file)
}

/// The number of bytes that hold a row of `width` modules.
pub open spec fn row_bytes(width: int) -> int {
    (width + 7) / 8
}

/// The bit of `byte` at place `k`, counted from the most significant.
pub open spec fn bit_of(byte: u8, k: int) -> bool {
    (byte >> ((7 - k) as u8)) & 1u8 == 1u8
}

/// The width of the quiet zone.
pub open spec fn margin_of(quiet_zone: bool) -> int {
    if quiet_zone {
        1
    } else {
        0
    }
}

/// The symbol has a dark module at column `x` and row `y`.
pub open spec fn dark_at(s: SymbolView, x: int, y: int) -> bool {
    exists|i: int| 0 <= i < s.dark.len() && (#[trigger] s.dark[i]).0 == x && s.dark[i].1 == y
}

/// The symbol can be drawn: it is not empty, its image is not wider or
/// higher than a PNG file can say, its rows fit in memory, and its dark
/// modules lie inside it.
pub open spec fn drawable(s: SymbolView, quiet_zone: bool) -> bool {
    let width = s.width + 2 * margin_of(quiet_zone);
    let height = s.height + 2 * margin_of(quiet_zone);
    &&& 0 < width <= u32::MAX
    &&& 0 < height <= u32::MAX
    &&& row_bytes(width) * height <= usize::MAX
    &&& forall|i: int|
        0 <= i < s.dark.len() ==> (#[trigger] s.dark[i]).0 < s.width && s.dark[i].1 < s.height
}

/// `raw` holds the rows of the symbol's image: every module of the symbol
/// at its place inside the quiet zone, dark as a cleared bit, and every
/// other bit set.
pub open spec fn is_raster(raw: Seq<u8>, s: SymbolView, quiet_zone: bool) -> bool {
    let margin = margin_of(quiet_zone);
    let row = row_bytes(s.width + 2 * margin);
    let height = s.height + 2 * margin;
    &&& raw.len() == row * height
    &&& forall|at: int, k: int|
        0 <= at < raw.len() && 0 <= k < 8 ==> #[trigger] bit_of(raw[at], k) == !dark_at(
            s,
            (at % row) * 8 + k - margin,
            at / row - margin,
        )
}

/// The byte whose bit at place `k`, counted from the most significant, is
/// set where `bits(k)` holds.
pub open spec fn byte_of(bits: spec_fn(int) -> bool) -> u8 {
    place_bit(bits(0), 128) | place_bit(bits(1), 64) | place_bit(bits(2), 32) | place_bit(
        bits(3),
        16,
    ) | place_bit(bits(4), 8) | place_bit(bits(5), 4) | place_bit(bits(6), 2) | place_bit(
        bits(7),
        1,
    )
}

/// The bit `value` where `set` holds, and no bit where it does not.
pub open spec fn place_bit(set: bool, value: u8) -> u8 {
    if set {
        value
    } else {
        0
    }
}

/// The rows of the symbol's image: row by row and byte by byte, a bit is
/// set where the symbol has no dark module at its place.
pub open spec fn raster_of(s: SymbolView, quiet_zone: bool) -> Seq<u8> {
    let margin = margin_of(quiet_zone);
    let row = row_bytes(s.width + 2 * margin);
    let height = s.height + 2 * margin;
    Seq::new(
        (row * height) as nat,
        |at: int|
            byte_of(|k: int| !dark_at(s, (at % row) * 8 + k - margin, at / row - margin)),
    )
}

/// The image of a symbol: the PNG file for its rows, or why there is none.
pub open spec fn rendered(s: SymbolView, quiet_zone: bool) -> Result<Seq<u8>, BarcodeError> {
    if !drawable(s, quiet_zone) {
        Err(BarcodeError::Image)
    } else {
        match png_gray1(
            (s.width + 2 * margin_of(quiet_zone)) as u32,
            (s.height + 2 * margin_of(quiet_zone)) as u32,
            raster_of(s, quiet_zone),
        ) {
            Some(file) => Ok(file),
            None => Err(BarcodeError::Image),
        }
    }
}

/// The barcode for `payload`: none for a payload that the encoder cannot be
/// given or that it refuses.
pub open spec fn barcode_of(payload: Seq<u8>, quiet_zone: bool) -> Result<Seq<u8>, BarcodeError> {
    if !encodable(payload) {
        Err(BarcodeError::Symbol)
    } else {
        match datamatrix_symbol(payload) {
            None => Err(BarcodeError::Symbol),
            Some((width, height, dark)) => rendered(
                SymbolView { width, height, dark },
                quiet_zone,
            ),
        }
    }
}

/// The marker that opens the payload of a container's barcode: `HOMEBOX:C:`.
pub open spec fn container_marker() -> Seq<u8> {
    seq![72u8, 79u8, 77u8, 69u8, 66u8, 79u8, 88u8, 58u8, 67u8, 58u8]
}

/// The marker that opens the payload of an item's barcode: `HOMEBOX:I:`.
pub open spec fn item_marker() -> Seq<u8> {
    seq![72u8, 79u8, 77u8, 69u8, 66u8, 79u8, 88u8, 58u8, 73u8, 58u8]
}

proof fn lemma_bits(b: u8, k: u8, j: u8)
    requires
        k < 8,
        j < 8,
    ensures
        (255u8 >> j) & 1u8 == 1u8,
        j == k ==> ((b & !(1u8 << k)) >> j) & 1u8 == 0u8,
        j != k ==> ((b & !(1u8 << k)) >> j) & 1u8 == (b >> j) & 1u8,
{
    assert((255u8 >> j) & 1u8 == 1u8) by (bit_vector)
        requires
            j < 8,
    ;
    assert(j == k ==> ((b & !(1u8 << k)) >> j) & 1u8 == 0u8) by (bit_vector)
        requires
            k < 8,
            j < 8,
    ;
    assert(j != k ==> ((b & !(1u8 << k)) >> j) & 1u8 == (b >> j) & 1u8) by (bit_vector)
        requires
            k < 8,
            j < 8,
    ;
}

proof fn lemma_same_bits(a: u8, b: u8)
    requires
        forall|k: int| 0 <= k < 8 ==> bit_of(a, k) == bit_of(b, k),
    ensures
        a == b,
{
    assert(bit_of(a, 0) == bit_of(b, 0));
    assert(bit_of(a, 1) == bit_of(b, 1));
    assert(bit_of(a, 2) == bit_of(b, 2));
    assert(bit_of(a, 3) == bit_of(b, 3));
    assert(bit_of(a, 4) == bit_of(b, 4));
    assert(bit_of(a, 5) == bit_of(b, 5));
    assert(bit_of(a, 6) == bit_of(b, 6));
    assert(bit_of(a, 7) == bit_of(b, 7));
    assert(a == b) by (bit_vector)
        requires
            ((a >> 7u8) & 1u8 == 1u8) == ((b >> 7u8) & 1u8 == 1u8),
            ((a >> 6u8) & 1u8 == 1u8) == ((b >> 6u8) & 1u8 == 1u8),
            ((a >> 5u8) & 1u8 == 1u8) == ((b >> 5u8) & 1u8 == 1u8),
            ((a >> 4u8) & 1u8 == 1u8) == ((b >> 4u8) & 1u8 == 1u8),
            ((a >> 3u8) & 1u8 == 1u8) == ((b >> 3u8) & 1u8 == 1u8),
            ((a >> 2u8) & 1u8 == 1u8) == ((b >> 2u8) & 1u8 == 1u8),
            ((a >> 1u8) & 1u8 == 1u8) == ((b >> 1u8) & 1u8 == 1u8),
            ((a >> 0u8) & 1u8 == 1u8) == ((b >> 0u8) & 1u8 == 1u8),
    ;
}

/// The bits of a byte are those it was made of.
pub proof fn lemma_byte_of(bits: spec_fn(int) -> bool)
    ensures
        forall|k: int| 0 <= k < 8 ==> #[trigger] bit_of(byte_of(bits), k) == bits(k),
{
    let x0 = place_bit(bits(0), 128);
    let x1 = place_bit(bits(1), 64);
    let x2 = place_bit(bits(2), 32);
    let x3 = place_bit(bits(3), 16);
    let x4 = place_bit(bits(4), 8);
    let x5 = place_bit(bits(5), 4);
    let x6 = place_bit(bits(6), 2);
    let x7 = place_bit(bits(7), 1);
    let b = x0 | x1 | x2 | x3 | x4 | x5 | x6 | x7;
    assert({
        &&& ((b >> 7u8) & 1u8 == 1u8) == (x0 == 128u8)
        &&& ((b >> 6u8) & 1u8 == 1u8) == (x1 == 64u8)
        &&& ((b >> 5u8) & 1u8 == 1u8) == (x2 == 32u8)
        &&& ((b >> 4u8) & 1u8 == 1u8) == (x3 == 16u8)
        &&& ((b >> 3u8) & 1u8 == 1u8) == (x4 == 8u8)
        &&& ((b >> 2u8) & 1u8 == 1u8) == (x5 == 4u8)
        &&& ((b >> 1u8) & 1u8 == 1u8) == (x6 == 2u8)
        &&& ((b >> 0u8) & 1u8 == 1u8) == (x7 == 1u8)
    }) by (bit_vector)
        requires
            b == x0 | x1 | x2 | x3 | x4 | x5 | x6 | x7,
            x0 == 0u8 || x0 == 128u8,
            x1 == 0u8 || x1 == 64u8,
            x2 == 0u8 || x2 == 32u8,
            x3 == 0u8 || x3 == 16u8,
            x4 == 0u8 || x4 == 8u8,
            x5 == 0u8 || x5 == 4u8,
            x6 == 0u8 || x6 == 2u8,
            x7 == 0u8 || x7 == 1u8,
    ;
    assert forall|k: int| 0 <= k < 8 implies #[trigger] bit_of(byte_of(bits), k) == bits(k) by {
        if k == 0 {
        } else if k == 1 {
        } else if k == 2 {
        } else if k == 3 {
        } else if k == 4 {
        } else if k == 5 {
        } else if k == 6 {
        } else {
            assert(k == 7);
        }
    }
}

/// Every symbol has a raster: its rows as `raster_of` gives them.
pub proof fn lemma_raster_exists(s: SymbolView, quiet_zone: bool)
    ensures
        is_raster(raster_of(s, quiet_zone), s, quiet_zone),
{
    let margin = margin_of(quiet_zone);
    let row = row_bytes(s.width + 2 * margin);
    let height = s.height + 2 * margin;
    let raw = raster_of(s, quiet_zone);
    assert(row * height >= 0) by (nonlinear_arith)
        requires
            row >= 0,
            height >= 0,
    ;
    assert forall|at: int, k: int| 0 <= at < raw.len() && 0 <= k < 8 implies #[trigger] bit_of(
        raw[at],
        k,
    ) == !dark_at(s, (at % row) * 8 + k - margin, at / row - margin) by {
        lemma_byte_of(|k: int| !dark_at(s, (at % row) * 8 + k - margin, at / row - margin));
    }
}

/// A symbol has one raster only: the rows that `raster_of` gives.
pub proof fn lemma_raster_unique(a: Seq<u8>, b: Seq<u8>, s: SymbolView, quiet_zone: bool)
    requires
        is_raster(a, s, quiet_zone),
        is_raster(b, s, quiet_zone),
    ensures
        a == b,
        raster_of(s, quiet_zone) == a,
{
    assert forall|at: int| 0 <= at < a.len() implies a[at] == b[at] by {
        assert forall|k: int| 0 <= k < 8 implies bit_of(a[at], k) == bit_of(b[at], k) by {}
        lemma_same_bits(a[at], b[at]);
    }
    assert(a =~= b);
    lemma_raster_exists(s, quiet_zone);
    let made = raster_of(s, quiet_zone);
    assert forall|at: int| 0 <= at < a.len() implies a[at] == made[at] by {
        assert forall|k: int| 0 <= k < 8 implies bit_of(a[at], k) == bit_of(made[at], k) by {}
        lemma_same_bits(a[at], made[at]);
    }
    assert(a =~= made);
}

proof fn lemma_place(row: int, y: int, q: int, height: int)
    requires
        0 < row,
        0 <= q < row,
        0 <= y < height,
    ensures
        0 <= y * row + q < row * height,
        (y * row + q) / row == y,
        (y * row + q) % row == q,
{
    assert(0 <= y * row + q < row * height) by (nonlinear_arith)
        requires
            0 < row,
            0 <= q < row,
            0 <= y < height,
    ;
    vstd::arithmetic::div_mod::lemma_fundamental_div_mod_converse(y * row + q, row, y, q);
}

/// Packs the modules of a symbol into the rows of its image.
pub fn pack_symbol(symbol: &Symbol, quiet_zone: bool) -> (raw: Option<Vec<u8>>)
    ensures
        match raw {
            Some(bytes) => drawable(symbol@, quiet_zone) && is_raster(
                bytes@,
                symbol@,
                quiet_zone,
            ),
            None => !drawable(symbol@, quiet_zone),
        },
{
    let margin: usize = if quiet_zone {
        1
    } else {
        0
    };
    if quiet_zone && (symbol.width > usize::MAX - 2 || symbol.height > usize::MAX - 2) {
        return None;
    }
    let width = symbol.width + 2 * margin;
    let height = symbol.height + 2 * margin;
    if width == 0 || height == 0 || width > 0xffff_ffff || height > 0xffff_ffff {
        return None;
    }
    let row: usize = width / 8 + if width % 8 == 0 {
        0
    } else {
        1
    };
    assert(row == row_bytes(width as int));
    let len = match row.checked_mul(height) {
        Some(len) => len,
        None => {
            return None;
        },
    };
    let mut raw: Vec<u8> = Vec::new();
    let mut n: usize = 0;
    while n < len
        invariant
            n <= len,
            raw@.len() == n,
            forall|at: int| 0 <= at < n ==> raw@[at] == 255u8,
        decreases len - n,
    {
        raw.push(255u8);
        n += 1;
    }
    let ghost s = symbol@;
    let mut i: usize = 0;
    proof {
        assert forall|at: int, k: int| 0 <= at < raw@.len() && 0 <= k < 8 implies #[trigger] bit_of(
            raw@[at],
            k,
        ) by {
            lemma_bits(0u8, 0u8, (7 - k) as u8);
        }
    }
    while i < symbol.dark.len()
        invariant
            i <= symbol.dark@.len(),
            s == symbol@,
            margin == margin_of(quiet_zone),
            width == symbol.width + 2 * margin,
            height == symbol.height + 2 * margin,
            0 < width <= u32::MAX,
            0 < height <= u32::MAX,
            row == row_bytes(width as int),
            0 < row,
            len == row * height,
            raw@.len() == len,
            forall|j: int|
                0 <= j < i ==> (#[trigger] s.dark[j]).0 < s.width && s.dark[j].1 < s.height,
            forall|at: int, k: int|
                0 <= at < raw@.len() && 0 <= k < 8 ==> #[trigger] bit_of(raw@[at], k) == !(exists|
                    j: int,
                |
                    0 <= j < i && (#[trigger] s.dark[j]).0 == (at % (row as int)) * 8 + k - margin
                        && s.dark[j].1 == at / (row as int) - margin),
        decreases symbol.dark@.len() - i,
    {
        let (x, y) = symbol.dark[i];
        if x >= symbol.width || y >= symbol.height {
            assert(!(s.dark[i as int].0 < s.width && s.dark[i as int].1 < s.height));
            return None;
        }
        let column = x + margin;
        let line = y + margin;
        proof {
            lemma_place(row as int, line as int, (column / 8) as int, height as int);
        }
        let place = line * row + column / 8;
        let shift: u8 = (7 - column % 8) as u8;
        let before = raw[place];
        let ghost earlier = raw@;
        raw[place] = before & !(1u8 << shift);
        proof {
            assert forall|at: int, k: int|
                0 <= at < raw@.len() && 0 <= k < 8 implies #[trigger] bit_of(raw@[at], k) == !(
                exists|j: int|
                    0 <= j < i + 1 && (#[trigger] s.dark[j]).0 == (at % (row as int)) * 8 + k
                        - margin && s.dark[j].1 == at / (row as int) - margin) by {
                let here = at == place && k == column % 8;
                lemma_bits(before, shift, (7 - k) as u8);
                assert(bit_of(earlier[at], k) == !(exists|j: int|
                    0 <= j < i && (#[trigger] s.dark[j]).0 == (at % (row as int)) * 8 + k - margin
                        && s.dark[j].1 == at / (row as int) - margin));
                if here {
                    assert(s.dark[i as int].0 == (at % (row as int)) * 8 + k - margin
                        && s.dark[i as int].1 == at / (row as int) - margin);
                } else {
                    if at == place {
                        assert(bit_of(raw@[at], k) == bit_of(earlier[at], k));
                    }
                    assert(!(s.dark[i as int].0 == (at % (row as int)) * 8 + k - margin
                        && s.dark[i as int].1 == at / (row as int) - margin)) by {
                        if s.dark[i as int].1 == at / (row as int) - margin && s.dark[i as int].0
                            == (at % (row as int)) * 8 + k - margin {
                            assert(at / (row as int) == line);
                            assert(column == (at % (row as int)) * 8 + k);
                            assert(at == (row as int) * (at / (row as int)) + at % (row as int))
                                by {
                                vstd::arithmetic::div_mod::lemma_fundamental_div_mod(
                                    at,
                                    row as int,
                                );
                            }
                            assert(at == place) by (nonlinear_arith)
                                requires
                                    at == (row as int) * (at / (row as int)) + at % (row as int),
                                    at / (row as int) == line,
                                    column == (at % (row as int)) * 8 + k,
                                    0 <= k < 8,
                                    place == line * row + column / 8,
                            ;
                        }
                    }
                    if exists|j: int|
                        0 <= j < i + 1 && (#[trigger] s.dark[j]).0 == (at % (row as int)) * 8 + k
                            - margin && s.dark[j].1 == at / (row as int) - margin {
                        let j = choose|j: int|
                            0 <= j < i + 1 && (#[trigger] s.dark[j]).0 == (at % (row as int)) * 8
                                + k - margin && s.dark[j].1 == at / (row as int) - margin;
                        assert(j < i);
                    }
                }
            }
        }
        i += 1;
    }
    proof {
        assert forall|at: int, k: int|
            0 <= at < raw@.len() && 0 <= k < 8 implies #[trigger] bit_of(raw@[at], k) == !dark_at(
            s,
            (at % (row as int)) * 8 + k - margin,
            at / (row as int) - margin,
        ) by {
            let x = (at % (row as int)) * 8 + k - margin;
            let y = at / (row as int) - margin;
            if dark_at(s, x, y) {
                let j = choose|j: int|
                    0 <= j < s.dark.len() && (#[trigger] s.dark[j]).0 == x && s.dark[j].1 == y;
                assert(0 <= j < i && s.dark[j].0 == x && s.dark[j].1 == y);
            }
        }
    }
    Some(raw)
}

/// Draws a symbol as a PNG image.
pub fn render_symbol(symbol: &Symbol, quiet_zone: bool) -> (res: Result<Vec<u8>, BarcodeError>)
    ensures
        match res {
            Ok(file) => rendered(symbol@, quiet_zone) == Ok::<Seq<u8>, BarcodeError>(file@),
            Err(fault) => rendered(symbol@, quiet_zone) == Err::<Seq<u8>, BarcodeError>(fault),
        },
{
    let raw = match pack_symbol(symbol, quiet_zone) {
        Some(raw) => raw,
        None => {
            return Err(BarcodeError::Image);
        },
    };
    proof {
        lemma_raster_unique(raw@, raw@, symbol@, quiet_zone);
    }
    let margin: usize = if quiet_zone {
        1
    } else {
        0
    };
    let width = (symbol.width + 2 * margin) as u32;
    let height = (symbol.height + 2 * margin) as u32;
    match encode_png(width, height, raw.as_slice()) {
        Some(file) => Ok(file),
        None => Err(BarcodeError::Image),
    }
}

/// The payload of a barcode: the marker, then the identifier.
fn payload(marker: [u8; 10], id: &Id) -> (data: Vec<u8>)
    ensures
        data@ == marker@ + id@,
{
    let mut data: Vec<u8> = Vec::new();
    let mut i: usize = 0;
    while i < 10
        invariant
            i <= 10,
            data@ == marker@.subrange(0, i as int),
        decreases 10 - i,
    {
        data.push(marker[i]);
        assert(data@ =~= marker@.subrange(0, i + 1));
        i += 1;
    }
    assert(marker@.subrange(0, 10) =~= marker@);
    id.append_to(&mut data);
    data
}

/// Whether the encoder can be given the data.
pub fn is_encodable(data: &[u8]) -> (yes: bool)
    ensures
        yes == encodable(data@),
{
    if data.len() < 7 || data.len() >= 9 {
        return true;
    }
    !(data[0] == 0x5b && data[1] == 0x29 && data[2] == 0x3e && data[3] == 0x1e && data[4] == 0x30
        && (data[5] == 0x35 || data[5] == 0x36) && data[6] == 0x1d)
}

/// Draws the barcode for `data`, with a quiet zone around it or without. No
/// symbol is made of data that the encoder cannot be given.
pub fn barcode(data: &[u8], quiet_zone: bool) -> (res: Result<Vec<u8>, BarcodeError>)
    ensures
        match res {
            Ok(file) => barcode_of(data@, quiet_zone) == Ok::<Seq<u8>, BarcodeError>(file@),
            Err(fault) => barcode_of(data@, quiet_zone) == Err::<Seq<u8>, BarcodeError>(fault),
        },
{
    if !is_encodable(data) {
        return Err(BarcodeError::Symbol);
    }
    match encode_symbol(data) {
        Some(symbol) => render_symbol(&symbol, quiet_zone),
        None => Err(BarcodeError::Symbol),
    }
}

/// The barcode of the container `id`: the symbol for `HOMEBOX:C:` and the
/// identifier, with a quiet zone around it.
pub fn barcode_container(id: &Id) -> (res: Result<Vec<u8>, BarcodeError>)
    ensures
        match res {
            Ok(file) => barcode_of(container_marker() + id@, true) == Ok::<
                Seq<u8>,
                BarcodeError,
            >(file@),
            Err(fault) => barcode_of(container_marker() + id@, true) == Err::<
                Seq<u8>,
                BarcodeError,
            >(fault),
        },
{
    let marker: [u8; 10] = [72u8, 79u8, 77u8, 69u8, 66u8, 79u8, 88u8, 58u8, 67u8, 58u8];
    assert(marker@ =~= container_marker());
    let data = payload(marker, id);
    barcode(data.as_slice(), true)
}

/// The barcode of the item `id`: the symbol for `HOMEBOX:I:` and the
/// identifier, without a quiet zone.
pub fn barcode_item(id: &Id) -> (res: Result<Vec<u8>, BarcodeError>)
    ensures
        match res {
            Ok(file) => barcode_of(item_marker() + id@, false) == Ok::<Seq<u8>, BarcodeError>(
                file@,
            ),
            Err(fault) => barcode_of(item_marker() + id@, false) == Err::<Seq<u8>, BarcodeError>(
                fault,
            ),
        },
{
    let marker: [u8; 10] = [72u8, 79u8, 77u8, 69u8, 66u8, 79u8, 88u8, 58u8, 73u8, 58u8];
    assert(marker@ =~= item_marker());
    let data = payload(marker, id);
    barcode(data.as_slice(), false)
}

} // verus!
