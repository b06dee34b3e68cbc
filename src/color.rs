use vstd::prelude::*;

verus! {

/// An 8-bit RGB triple, used both as a tile key and as a query color.
#[derive(Clone, Copy, Debug, PartialEq, Eq, Structural, Hash)]
pub struct Rgb {
    pub r: u8,
    pub g: u8,
    pub b: u8,
}

/// Squared Euclidean distance between two colors in RGB space.
pub open spec fn sq_dist(a: Rgb, b: Rgb) -> int {
    (a.r - b.r) * (a.r - b.r) + (a.g - b.g) * (a.g - b.g) + (a.b - b.b) * (a.b - b.b)
}

/// A signed per-channel difference between two colors.
#[derive(Clone, Copy, Debug, PartialEq, Eq, Structural)]
pub struct Residual {
    pub r: i32,
    pub g: i32,
    pub b: i32,
}

/// The residual `q - k`, channel by channel.
pub open spec fn residual_of(q: Rgb, k: Rgb) -> Residual {
    Residual { r: (q.r - k.r) as i32, g: (q.g - k.g) as i32, b: (q.b - k.b) as i32 }
}

impl Rgb {
    pub fn new(r: u8, g: u8, b: u8) -> (c: Rgb)
        ensures
            c.r == r && c.g == g && c.b == b,
    {
        Rgb { r, g, b }
    }
}

fn channel_sq(x: u8, y: u8) -> (d: u32)
    ensures
        d == (x - y) * (x - y),
        d <= 65025,
{
    let diff: i32 = x as i32 - y as i32;
    assert(-255 <= diff <= 255);
    assert(0 <= diff * diff <= 65025) by (nonlinear_arith)
        requires
            -255 <= diff <= 255,
    ;
    (diff * diff) as u32
}

/// The color metric: squared Euclidean distance in RGB space. It orders
/// pairs of colors exactly as the Euclidean distance does.
pub fn distance_squared(a: &Rgb, b: &Rgb) -> (d: u32)
    ensures
        d == sq_dist(*a, *b),
{
    channel_sq(a.r, b.r) + channel_sq(a.g, b.g) + channel_sq(a.b, b.b)
}

/// The residual `q - k` per channel.
pub fn residual(q: &Rgb, k: &Rgb) -> (e: Residual)
    ensures
        e == residual_of(*q, *k),
        e.r == q.r - k.r && e.g == q.g - k.g && e.b == q.b - k.b,
{
    Residual { r: q.r as i32 - k.r as i32, g: q.g as i32 - k.g as i32, b: q.b as i32 - k.b as i32 }
}

/// The metric is zero exactly on equal colors, and symmetric.
pub proof fn lemma_distance_zero_and_symmetric(a: Rgb, b: Rgb)
    ensures
        sq_dist(a, a) == 0,
        sq_dist(a, b) == sq_dist(b, a),
        sq_dist(a, b) >= 0,
        sq_dist(a, b) == 0 <==> a == b,
{
    let dr: int = a.r - b.r;
    let dg: int = a.g - b.g;
    let db: int = a.b - b.b;
    assert(dr * dr >= 0 && dg * dg >= 0 && db * db >= 0) by (nonlinear_arith);
    assert(dr * dr == (b.r - a.r) * (b.r - a.r)) by (nonlinear_arith)
        requires
            dr == a.r - b.r,
    ;
    assert(dg * dg == (b.g - a.g) * (b.g - a.g)) by (nonlinear_arith)
        requires
            dg == a.g - b.g,
    ;
    assert(db * db == (b.b - a.b) * (b.b - a.b)) by (nonlinear_arith)
        requires
            db == a.b - b.b,
    ;
    if sq_dist(a, b) == 0 {
        assert(dr * dr == 0 ==> dr == 0) by (nonlinear_arith);
        assert(dg * dg == 0 ==> dg == 0) by (nonlinear_arith);
        assert(db * db == 0 ==> db == 0) by (nonlinear_arith);
    }
}

} // verus!
