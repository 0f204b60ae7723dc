use vstd::prelude::*;

verus! {

/// One step of a 2D affine transform, applied after those before it.
#[derive(Clone, Copy, Debug, PartialEq, Eq, Structural)]
pub enum Op {
    Translate(i64, i64),
    /// Rotation in degrees.
    RotateDeg(i32),
    Scale(u16, u16),
    /// Mirror across the vertical axis.
    FlipH,
    /// Mirror across the horizontal axis.
    FlipV,
}

/// One image to draw: the sprite it shows, the transform to draw it under, and
/// the rectangle `(x, y, width, height)` that it covers in that frame.
pub struct DrawItem {
    pub id: u128,
    pub transform: Vec<Op>,
    pub rect: (i64, i64, i64, i64),
}

pub type DrawView = (u128, Seq<Op>, (i64, i64, i64, i64));

pub open spec fn item_view(d: DrawItem) -> DrawView {
    (d.id, d.transform@, d.rect)
}

pub open spec fn items_view(s: Seq<DrawItem>) -> Seq<DrawView> {
    s.map_values(|d: DrawItem| item_view(d))
}

/// `a` followed by `b`.
pub fn concat(a: &Vec<Op>, b: &Vec<Op>) -> (r: Vec<Op>)
    ensures
        r@ == a@ + b@,
{
    let mut r: Vec<Op> = Vec::new();
    let mut i: usize = 0;
    while i < a.len()
        invariant
            i <= a@.len(),
            r@ == a@.subrange(0, i as int),
        decreases a@.len() - i,
    {
        r.push(a[i]);
        i += 1;
        assert(r@ =~= a@.subrange(0, i as int));
    }
    let mut j: usize = 0;
    while j < b.len()
        invariant
            j <= b@.len(),
            r@ == a@ + b@.subrange(0, j as int),
        decreases b@.len() - j,
    {
        r.push(b[j]);
        j += 1;
        assert(r@ =~= a@ + b@.subrange(0, j as int));
    }
    assert(b@.subrange(0, b@.len() as int) =~= b@);
    r
}

} // verus!
