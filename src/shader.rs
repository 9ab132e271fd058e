use vstd::prelude::*;
use crate::arith::{floor_div, lemma_div_bound, lemma_mul_bound};
use crate::geom::UNIT;

verus! {

/// Fixed-point scale of a color channel: `ONE` stands for full intensity.
pub const ONE: i64 = 1000;

/// Magnitude at which color arithmetic saturates.
pub const CMAX: i64 = 0x100_0000_0000;

/// A linear color in fixed point (`ONE` is full intensity), unclamped.
#[derive(Clone, Copy, Debug, PartialEq, Eq, Structural)]
pub struct Color {
    pub r: i64,
    pub g: i64,
    pub b: i64,
}

/// A diffusely reflecting surface of a given color.
#[derive(Clone, Copy, Debug, PartialEq, Eq, Structural)]
pub struct DiffuseShader {
    pub color: Color,
}

/// Highlights of the lights, sharpened by the exponent `alpha`.
#[derive(Clone, Copy, Debug, PartialEq, Eq, Structural)]
pub struct SpecularShader {
    pub alpha: u32,
}

/// A constant contribution independent of lights and occlusion.
#[derive(Clone, Copy, Debug, PartialEq, Eq, Structural)]
pub struct AmbientShader {
    pub color: Color,
}

/// One color everywhere.
#[derive(Clone, Copy, Debug, PartialEq, Eq, Structural)]
pub struct MonochromeShader {
    pub color: Color,
}

/// A checkerboard of two shaders over the surface coordinates, with square cells.
#[derive(Debug)]
pub struct ChessShader {
    pub shader1: Box<Shader>,
    pub shader2: Box<Shader>,
    pub size: i64,
}

/// The weighted sum of two shaders (weights in fixed point, `ONE` is 1).
#[derive(Debug)]
pub struct AdditiveShader {
    pub shader1: Box<Shader>,
    pub shader2: Box<Shader>,
    pub weight1: i64,
    pub weight2: i64,
}

/// The channel-wise product of two shaders.
#[derive(Debug)]
pub struct MultiplicativeShader {
    pub shader1: Box<Shader>,
    pub shader2: Box<Shader>,
}

/// A material: a tree of shaders.
#[derive(Debug)]
pub enum Shader {
    Diffuse(DiffuseShader),
    Specular(SpecularShader),
    Ambient(AmbientShader),
    Monochrome(MonochromeShader),
    Chess(ChessShader),
    Additive(AdditiveShader),
    Multiplicative(MultiplicativeShader),
    Mirror,
}

impl Shader {
    /// The number of nodes in the shader tree.
    pub open spec fn size(self) -> nat
        decreases self,
    {
        match self {
            Shader::Chess(c) => 1 + c.shader1.size() + c.shader2.size(),
            Shader::Additive(a) => 1 + a.shader1.size() + a.shader2.size(),
            Shader::Multiplicative(m) => 1 + m.shader1.size() + m.shader2.size(),
            _ => 1,
        }
    }

    /// The parameters are in the ranges the fixed-point arithmetic accepts.
    pub open spec fn ok(self) -> bool
        decreases self,
    {
        match self {
            Shader::Diffuse(d) => color_ok(d.color),
            Shader::Specular(_) => true,
            Shader::Ambient(a) => color_ok(a.color),
            Shader::Monochrome(m) => color_ok(m.color),
            Shader::Chess(c) => 0 < c.size <= CMAX / 2 && c.shader1.ok() && c.shader2.ok(),
            Shader::Additive(a) => -CMAX <= a.weight1 <= CMAX && -CMAX <= a.weight2 <= CMAX && a.shader1.ok()
                && a.shader2.ok(),
            Shader::Multiplicative(m) => m.shader1.ok() && m.shader2.ok(),
            Shader::Mirror => true,
        }
    }
}

/// Clamps a channel to the range where color arithmetic saturates.
pub open spec fn sat(x: int) -> int {
    if x > CMAX {
        CMAX as int
    } else if x < -CMAX {
        -CMAX as int
    } else {
        x
    }
}

pub open spec fn color_ok(c: Color) -> bool {
    -CMAX <= c.r <= CMAX && -CMAX <= c.g <= CMAX && -CMAX <= c.b <= CMAX
}

pub open spec fn add_spec(a: Color, b: Color) -> Color {
    Color { r: sat(a.r + b.r) as i64, g: sat(a.g + b.g) as i64, b: sat(a.b + b.b) as i64 }
}

/// Channel product in fixed point. A positive product rounds up, so that two
/// positive channels never multiply to black; any other rounds down.
pub open spec fn chan_mul(x: int, y: int) -> int {
    if x * y > 0 {
        sat((x * y + ONE - 1) / (ONE as int))
    } else {
        sat((x * y) / (ONE as int))
    }
}

pub open spec fn mul_spec(a: Color, b: Color) -> Color {
    Color { r: chan_mul(a.r as int, b.r as int) as i64, g: chan_mul(a.g as int, b.g as int) as i64, b: chan_mul(a.b as int, b.b as int) as i64 }
}

/// The color scaled by the fixed-point factor `w`.
pub open spec fn scale_spec(a: Color, w: int) -> Color {
    Color { r: chan_mul(a.r as int, w) as i64, g: chan_mul(a.g as int, w) as i64, b: chan_mul(a.b as int, w) as i64 }
}

/// One channel at eight bits: scaled by 255, clamped to `0 ..= 255`, rounded down.
pub open spec fn chan_u8(x: int) -> int {
    if x <= 0 {
        0
    } else if x * 255 / (ONE as int) >= 255 {
        255
    } else {
        x * 255 / (ONE as int)
    }
}

/// `x` reduced into `[0, b]` by whole multiples of `b`: a positive multiple of `b`
/// gives `b`, any other value its remainder.
pub open spec fn my_mod_spec(x: int, b: int) -> int {
    if x > 0 && x % b == 0 {
        b
    } else {
        x % b
    }
}

/// The cell parity of one coordinate: 0 when it falls in the first half of a
/// period of two cells, 1 in the second half.
pub open spec fn cell_spec(x: int, size: int) -> int {
    if my_mod_spec(x, 2 * size) <= size {
        0
    } else {
        1
    }
}

/// Whether a chess pattern of cell size `size` shows its first shader at `(u, v)`:
/// the two cell parities agree.
pub open spec fn chess_first(u: int, v: int, size: int) -> bool {
    let c = cell_spec(u, size) + cell_spec(v, size);
    c == 0 || c == 2
}

/// An eight-bit color.
#[derive(Clone, Copy, Debug, PartialEq, Eq, Structural)]
pub struct Rgb {
    pub r: u8,
    pub g: u8,
    pub b: u8,
}

fn sat_i128(x: i128) -> (r: i64)
    ensures
        r == sat(x as int),
{
    if x > CMAX as i128 {
        CMAX
    } else if x < -(CMAX as i128) {
        -CMAX
    } else {
        x as i64
    }
}

fn chan_mul_exec(x: i64, y: i64) -> (r: i64)
    requires
        -CMAX <= x <= CMAX,
        -CMAX <= y <= CMAX,
    ensures
        r == chan_mul(x as int, y as int),
        -CMAX <= r <= CMAX,
{
    proof {
        lemma_mul_bound(x as int, y as int, CMAX as int, CMAX as int);
        assert(CMAX * CMAX == 0x1_0000_0000_0000_0000_0000);
    }
    let p = (x as i128) * (y as i128);
    if p > 0 {
        sat_i128(floor_div(p + (ONE as i128 - 1), ONE as i128))
    } else {
        sat_i128(floor_div(p, ONE as i128))
    }
}

fn chan_u8_exec(x: i64) -> (r: u8)
    requires
        -CMAX <= x <= CMAX,
    ensures
        r == chan_u8(x as int),
{
    if x <= 0 {
        return 0;
    }
    let v = floor_div((x as i128) * 255, ONE as i128);
    if v >= 255 {
        255
    } else {
        proof {
            assert(v >= 0) by {
                vstd::arithmetic::div_mod::lemma_div_pos_is_pos(x * 255, ONE as int);
            }
        }
        v as u8
    }
}

impl Color {
    pub fn new(r: i64, g: i64, b: i64) -> (c: Color)
        ensures
            c == (Color { r, g, b }),
    {
        Color { r, g, b }
    }

    pub fn black() -> (c: Color)
        ensures
            c == (Color { r: 0, g: 0, b: 0 }),
    {
        Color { r: 0, g: 0, b: 0 }
    }

    /// Channel-wise sum, saturating.
    pub fn add(&self, o: &Color) -> (c: Color)
        requires
            color_ok(*self),
            color_ok(*o),
        ensures
            c == add_spec(*self, *o),
            color_ok(c),
    {
        Color {
            r: sat_i128(self.r as i128 + o.r as i128),
            g: sat_i128(self.g as i128 + o.g as i128),
            b: sat_i128(self.b as i128 + o.b as i128),
        }
    }

    /// Channel-wise product in fixed point.
    pub fn mul(&self, o: &Color) -> (c: Color)
        requires
            color_ok(*self),
            color_ok(*o),
        ensures
            c == mul_spec(*self, *o),
            color_ok(c),
    {
        Color { r: chan_mul_exec(self.r, o.r), g: chan_mul_exec(self.g, o.g), b: chan_mul_exec(self.b, o.b) }
    }

    /// The color scaled by the fixed-point factor `w`.
    pub fn scale(&self, w: i64) -> (c: Color)
        requires
            color_ok(*self),
            -CMAX <= w <= CMAX,
        ensures
            c == scale_spec(*self, w as int),
            color_ok(c),
    {
        Color { r: chan_mul_exec(self.r, w), g: chan_mul_exec(self.g, w), b: chan_mul_exec(self.b, w) }
    }

    /// The eight-bit color: each channel scaled by 255, clamped to `0 ..= 255`
    /// and rounded down.
    pub fn to_rgb8(&self) -> (c: Rgb)
        requires
            color_ok(*self),
        ensures
            c.r == chan_u8(self.r as int),
            c.g == chan_u8(self.g as int),
            c.b == chan_u8(self.b as int),
    {
        Rgb { r: chan_u8_exec(self.r), g: chan_u8_exec(self.g), b: chan_u8_exec(self.b) }
    }
}

fn my_mod(x: i64, b: i64) -> (r: i64)
    requires
        0 < b <= CMAX,
        -CMAX <= x <= CMAX,
    ensures
        r == my_mod_spec(x as int, b as int),
{
    let q = floor_div(x as i128, b as i128);
    proof {
        vstd::arithmetic::div_mod::lemma_fundamental_div_mod(x as int, b as int);
        vstd::arithmetic::div_mod::lemma_mod_bound(x as int, b as int);
        lemma_div_bound(x as int, b as int, CMAX as int);
        lemma_mul_bound(b as int, q as int, CMAX as int, CMAX as int);
    }
    let rem = (x as i128 - (b as i128) * q) as i64;
    if x > 0 && rem == 0 {
        b
    } else {
        rem
    }
}

impl ChessShader {
    /// Whether the pattern shows `shader1` at surface coordinates `(u, v)`.
    pub fn picks_first(&self, u: i64, v: i64) -> (r: bool)
        requires
            0 < self.size <= CMAX / 2,
            -CMAX <= u <= CMAX,
            -CMAX <= v <= CMAX,
        ensures
            r == chess_first(u as int, v as int, self.size as int),
    {
        let cu: i64 = if my_mod(u, 2 * self.size) <= self.size { 0 } else { 1 };
        let cv: i64 = if my_mod(v, 2 * self.size) <= self.size { 0 } else { 1 };
        let c = cu + cv;
        c == 0 || c == 2
    }
}

impl DiffuseShader {
    pub fn new(color: Color) -> (r: Shader)
        ensures
            r == Shader::Diffuse(DiffuseShader { color }),
    {
        Shader::Diffuse(DiffuseShader { color })
    }
}

impl SpecularShader {
    pub fn new(alpha: u32) -> (r: Shader)
        ensures
            r == Shader::Specular(SpecularShader { alpha }),
    {
        Shader::Specular(SpecularShader { alpha })
    }
}

impl AmbientShader {
    pub fn new(color: Color) -> (r: Shader)
        ensures
            r == Shader::Ambient(AmbientShader { color }),
    {
        Shader::Ambient(AmbientShader { color })
    }
}

impl MonochromeShader {
    pub fn new(color: Color) -> (r: Shader)
        ensures
            r == Shader::Monochrome(MonochromeShader { color }),
    {
        Shader::Monochrome(MonochromeShader { color })
    }
}

/// The weighted sum `weight1 * a + weight2 * b` (weights in fixed point).
pub fn combine_weighted(a: Shader, weight1: i64, b: Shader, weight2: i64) -> (r: Shader)
    ensures
        r == Shader::Additive(AdditiveShader { shader1: Box::new(a), shader2: Box::new(b), weight1, weight2 }),
{
    Shader::Additive(AdditiveShader { shader1: Box::new(a), shader2: Box::new(b), weight1, weight2 })
}

/// The plain sum `a + b`.
pub fn combine_sum(a: Shader, b: Shader) -> (r: Shader)
    ensures
        r == Shader::Additive(AdditiveShader { shader1: Box::new(a), shader2: Box::new(b), weight1: ONE, weight2: ONE }),
{
    combine_weighted(a, ONE, b, ONE)
}

/// The channel-wise product `a * b`.
pub fn combine_product(a: Shader, b: Shader) -> (r: Shader)
    ensures
        r == Shader::Multiplicative(MultiplicativeShader { shader1: Box::new(a), shader2: Box::new(b) }),
{
    Shader::Multiplicative(MultiplicativeShader { shader1: Box::new(a), shader2: Box::new(b) })
}

/// The Phong material of a color: half its diffuse light, specular highlights of
/// exponent 10, and eight tenths of the color as ambient light.
pub fn get_phong(color: Color) -> (r: Shader)
    ensures
        r == Shader::Additive(
            AdditiveShader {
                shader1: Box::new(
                    Shader::Additive(
                        AdditiveShader {
                            shader1: Box::new(Shader::Diffuse(DiffuseShader { color })),
                            shader2: Box::new(Shader::Specular(SpecularShader { alpha: 10 })),
                            weight1: 500,
                            weight2: ONE,
                        },
                    ),
                ),
                shader2: Box::new(Shader::Ambient(AmbientShader { color })),
                weight1: ONE,
                weight2: 800,
            },
        ),
{
    let diffuse_shader = DiffuseShader::new(color);
    let specular_shader = SpecularShader::new(10);
    let ambient_shader = AmbientShader::new(color);
    combine_weighted(combine_weighted(diffuse_shader, 500, specular_shader, ONE), ONE, ambient_shader, 800)
}

/// A black and white checkerboard with cells of one unit.
pub fn get_bw_chess() -> (r: Shader)
    ensures
        r == Shader::Chess(
            ChessShader {
                shader1: Box::new(Shader::Monochrome(MonochromeShader { color: Color { r: 0, g: 0, b: 0 } })),
                shader2: Box::new(Shader::Monochrome(MonochromeShader { color: Color { r: ONE, g: ONE, b: ONE } })),
                size: UNIT,
            },
        ),
{
    let black_shader = MonochromeShader::new(Color { r: 0, g: 0, b: 0 });
    let white_shader = MonochromeShader::new(Color { r: ONE, g: ONE, b: ONE });
    Shader::Chess(ChessShader { shader1: Box::new(black_shader), shader2: Box::new(white_shader), size: UNIT })
}

} // verus!
