use vstd::prelude::*;

use crate::transform::{concat, items_view, DrawItem, DrawView, Op};

verus! {

/// Relies on uuid::Uuid::new_v4 (random version 4 UUID) and Uuid::as_u128,
/// to give each new sprite its identifier. Nothing is promised of the value.
#[verifier::external_body]
fn fresh_id() -> (r: u128) {
    uuid::Uuid::new_v4().as_u128()
}

/// Thousandths: the anchor's unit, so that `ANCHOR_ONE` stands for the whole
/// width or height of the texture.
pub const ANCHOR_ONE: u16 = 1000;

/// A node of the scene tree: transform attributes, a texture handle with its
/// size in pixels, and the children it owns, in insertion order.
pub struct Sprite<T> {
    id: u128,
    /// Pivot, in thousandths of the texture's size on each axis.
    anchor: (u16, u16),
    position: (i32, i32),
    /// In degrees.
    rotation: i32,
    scale: (u16, u16),
    flip_x: bool,
    flip_y: bool,
    children: Vec<Sprite<T>>,
    texture: T,
    size: (u32, u32),
}

/// The attributes of a sprite other than its id, texture and children.
pub struct Attrs {
    pub anchor: (u16, u16),
    pub position: (i32, i32),
    pub rotation: i32,
    pub scale: (u16, u16),
    pub flip_x: bool,
    pub flip_y: bool,
    pub size: (u32, u32),
}

impl<T> Sprite<T> {
    pub closed spec fn spec_id(&self) -> u128 {
        self.id
    }

    pub closed spec fn spec_children(&self) -> Seq<Sprite<T>> {
        self.children@
    }

    pub closed spec fn spec_texture(&self) -> T {
        self.texture
    }

    pub closed spec fn attrs(&self) -> Attrs {
        Attrs {
            anchor: self.anchor,
            position: self.position,
            rotation: self.rotation,
            scale: self.scale,
            flip_x: self.flip_x,
            flip_y: self.flip_y,
            size: self.size,
        }
    }

    pub open spec fn spec_anchor(&self) -> (u16, u16) {
        self.attrs().anchor
    }

    pub open spec fn spec_position(&self) -> (i32, i32) {
        self.attrs().position
    }

    pub open spec fn spec_rotation(&self) -> i32 {
        self.attrs().rotation
    }

    pub open spec fn spec_scale(&self) -> (u16, u16) {
        self.attrs().scale
    }

    pub open spec fn spec_flip_x(&self) -> bool {
        self.attrs().flip_x
    }

    pub open spec fn spec_flip_y(&self) -> bool {
        self.attrs().flip_y
    }

    /// Width and height of the texture, in pixels.
    pub open spec fn spec_size(&self) -> (u32, u32) {
        self.attrs().size
    }

    /// A lookup that finds `id` on child `i` directly reaches that child.
    pub proof fn lemma_find_direct(&self, id: u128, i: int)
        requires
            self.direct_at(id, i),
        ensures
            self.find(id) == Some(self.spec_children()[i]),
    {
        let k = choose|k: int| self.direct_at(id, k);
        assert(self.direct_at(id, k));
        if k < i {
            assert(self.spec_children()[k].spec_id() != id);
        } else if i < k {
            assert(self.spec_children()[i].spec_id() != id);
        }
    }

    /// A lookup that goes below child `i` reaches what a lookup in that child does.
    pub proof fn lemma_find_deep(&self, id: u128, i: int)
        requires
            self.deep_at(id, i),
        ensures
            self.find(id) == self.spec_children()[i].find(id),
    {
        if exists|j: int| self.direct_at(id, j) {
            let j = choose|j: int| self.direct_at(id, j);
            assert(self.spec_children()[j].spec_id() != id);
        }
        let k = choose|k: int| self.deep_at(id, k);
        assert(self.deep_at(id, k));
        if k < i {
            assert(!self.spec_children()[k].has(id));
        } else if i < k {
            assert(!self.spec_children()[i].has(id));
        }
    }

    /// A lookup of an id held nowhere below reaches nothing.
    pub proof fn lemma_find_none(&self, id: u128)
        requires
            !self.has(id),
        ensures
            self.find(id).is_none(),
    {
        if exists|j: int| self.direct_at(id, j) {
            let j = choose|j: int| self.direct_at(id, j);
            assert(self.spec_children()[j].spec_id() == id);
        }
        if exists|j: int| self.deep_at(id, j) {
            let j = choose|j: int| self.deep_at(id, j);
            assert(self.spec_children()[j].has(id));
        }
    }

    /// The local box `(x, y, width, height)`: the texture scaled, placed so
    /// that the anchor sits at the position; rotation and children ignored.
    /// Fractions of a pixel in the anchor's offset are dropped.
    pub open spec fn bounds(&self) -> (int, int, int, int) {
        let w = self.spec_size().0 * self.spec_scale().0;
        let h = self.spec_size().1 * self.spec_scale().1;
        (
            self.spec_position().0 - self.spec_anchor().0 * w / (ANCHOR_ONE as int),
            self.spec_position().1 - self.spec_anchor().1 * h / (ANCHOR_ONE as int),
            w,
            h,
        )
    }

    /// How far the anchor lies from the texture's corner, in unscaled pixels.
    pub open spec fn anchor_offset(&self) -> (int, int) {
        (
            self.spec_anchor().0 * self.spec_size().0 / (ANCHOR_ONE as int),
            self.spec_anchor().1 * self.spec_size().1 / (ANCHOR_ONE as int),
        )
    }

    /// The sprite's own transform, relative to its parent's: translate to the
    /// position, rotate, then scale.
    pub open spec fn local_ops(&self) -> Seq<Op> {
        seq![
            Op::Translate(self.spec_position().0 as i64, self.spec_position().1 as i64),
            Op::RotateDeg(self.spec_rotation()),
            Op::Scale(self.spec_scale().0, self.spec_scale().1),
        ]
    }

    /// What mirroring adds after the sprite's transform: a shift by the texture's
    /// extent less twice the anchor offset on the mirrored axis, then the mirror.
    pub open spec fn flip_ops(&self) -> Seq<Op> {
        let (ax, ay) = self.anchor_offset();
        (if self.spec_flip_x() {
            seq![Op::Translate((self.spec_size().0 - 2 * ax) as i64, 0), Op::FlipH]
        } else {
            seq![]
        }) + (if self.spec_flip_y() {
            seq![Op::Translate(0, (self.spec_size().1 - 2 * ay) as i64), Op::FlipV]
        } else {
            seq![]
        })
    }

    /// The image this sprite draws under the parent transform `parent`.
    pub open spec fn item(&self, parent: Seq<Op>) -> DrawView {
        let (ax, ay) = self.anchor_offset();
        (
            self.spec_id(),
            parent + self.local_ops() + self.flip_ops(),
            ((-ax) as i64, (-ay) as i64, self.spec_size().0 as i64, self.spec_size().1 as i64),
        )
    }

    /// Everything drawn for this sprite and those below it, parent first, then
    /// each child's subtree in order, each child under this sprite's transform.
    pub open spec fn draws(&self, parent: Seq<Op>) -> Seq<DrawView>
        decreases *self, 0nat,
    {
        seq![self.item(parent)] + Self::draws_from(
            self.spec_children(),
            parent + self.local_ops(),
            self.spec_children().len(),
        )
    }

    /// The draws of the first `n` sprites of `cs`, each under `t`.
    pub open spec fn draws_from(cs: Seq<Sprite<T>>, t: Seq<Op>, n: nat) -> Seq<DrawView>
        decreases cs, n,
    {
        if n == 0 || n > cs.len() {
            seq![]
        } else {
            Self::draws_from(cs, t, (n - 1) as nat) + cs[n - 1].draws(t)
        }
    }

    /// Some descendant (a child, or a descendant of a child) carries `id`.
    pub open spec fn has(&self, id: u128) -> bool
        decreases self,
    {
        exists|i: int|
            0 <= i < self.spec_children().len() && ((#[trigger] self.spec_children()[i]).spec_id()
                == id || self.spec_children()[i].has(id))
    }

    /// `i` is the first direct child that carries `id`.
    pub open spec fn direct_at(&self, id: u128, i: int) -> bool {
        0 <= i < self.spec_children().len() && self.spec_children()[i].spec_id() == id
            && forall|j: int| 0 <= j < i ==> #[trigger] self.spec_children()[j].spec_id() != id
    }

    /// No direct child carries `id`, and `i` is the first child below which it is held.
    pub open spec fn deep_at(&self, id: u128, i: int) -> bool {
        &&& 0 <= i < self.spec_children().len()
        &&& self.spec_children()[i].has(id)
        &&& forall|j: int| 0 <= j < i ==> !(#[trigger] self.spec_children()[j]).has(id)
        &&& forall|j: int|
            0 <= j < self.spec_children().len() ==> #[trigger] self.spec_children()[j].spec_id()
                != id
    }

    /// The descendant a lookup of `id` reaches: the first direct child that
    /// carries it, else the one found below the first child that holds it.
    pub open spec fn find(&self, id: u128) -> Option<Sprite<T>>
        decreases self,
    {
        if exists|i: int| self.direct_at(id, i) {
            let i = choose|i: int| self.direct_at(id, i);
            Some(self.spec_children()[i])
        } else if exists|i: int| self.deep_at(id, i) {
            let i = choose|i: int| self.deep_at(id, i);
            if 0 <= i < self.spec_children().len() {
                self.spec_children()[i].find(id)
            } else {
                None
            }
        } else {
            None
        }
    }

    /// Every field but the children agrees.
    pub open spec fn same_attributes(a: Sprite<T>, b: Sprite<T>) -> bool {
        &&& a.spec_id() == b.spec_id()
        &&& a.attrs() == b.attrs()
        &&& a.spec_texture() == b.spec_texture()
    }

    /// `new` is `old` with its every attribute kept, and with the descendant that a
    /// lookup of `id` in `old` reaches replaced by `sub`.
    pub open spec fn replaced(old: Sprite<T>, new: Sprite<T>, id: u128, sub: Sprite<T>) -> bool
        decreases old,
    {
        &&& Self::same_attributes(old, new)
        &&& exists|i: int|
            #![trigger old.direct_at(id, i)]
            #![trigger old.deep_at(id, i)]
            0 <= i < old.spec_children().len() && ((old.direct_at(id, i) && new.spec_children()
                == old.spec_children().update(i, sub)) || (old.deep_at(id, i)
                && new.spec_children() =~= old.spec_children().update(i, new.spec_children()[i])
                && Self::replaced(old.spec_children()[i], new.spec_children()[i], id, sub)))
    }

    pub fn from_texture(texture: T, width: u32, height: u32) -> (r: Sprite<T>)
        ensures
            r.spec_children().len() == 0,
            r.spec_anchor() == (500u16, 500u16),
            r.spec_position() == (0i32, 0i32),
            r.spec_rotation() == 0,
            r.spec_scale() == (1u16, 1u16),
            !r.spec_flip_x(),
            !r.spec_flip_y(),
            r.spec_texture() == texture,
            r.spec_size() == (width, height),
    {
        Sprite {
            id: fresh_id(),
            anchor: (500, 500),
            position: (0, 0),
            rotation: 0,
            scale: (1, 1),
            flip_x: false,
            flip_y: false,
            children: Vec::new(),
            texture,
            size: (width, height),
        }
    }

    pub fn id(&self) -> (r: u128)
        ensures
            r == self.spec_id(),
    {
        self.id
    }

    /// The pivot, in thousandths of the texture's width and height.
    pub fn anchor(&self) -> (r: (u16, u16))
        ensures
            r == self.spec_anchor(),
    {
        self.anchor
    }

    pub fn set_anchor(&mut self, x: u16, y: u16)
        ensures
            final(self).attrs() == (Attrs { anchor: (x, y), ..old(self).attrs() }),
            final(self).spec_id() == old(self).spec_id(),
            final(self).spec_children() == old(self).spec_children(),
            final(self).spec_texture() == old(self).spec_texture(),
    {
        self.anchor = (x, y);
    }

    pub fn position(&self) -> (r: (i32, i32))
        ensures
            r == self.spec_position(),
    {
        self.position
    }

    pub fn set_position(&mut self, x: i32, y: i32)
        ensures
            final(self).attrs() == (Attrs { position: (x, y), ..old(self).attrs() }),
            final(self).spec_id() == old(self).spec_id(),
            final(self).spec_children() == old(self).spec_children(),
            final(self).spec_texture() == old(self).spec_texture(),
    {
        self.position = (x, y);
    }

    /// In degrees.
    pub fn rotation(&self) -> (r: i32)
        ensures
            r == self.spec_rotation(),
    {
        self.rotation
    }

    pub fn set_rotation(&mut self, deg: i32)
        ensures
            final(self).attrs() == (Attrs { rotation: deg, ..old(self).attrs() }),
            final(self).spec_id() == old(self).spec_id(),
            final(self).spec_children() == old(self).spec_children(),
            final(self).spec_texture() == old(self).spec_texture(),
    {
        self.rotation = deg;
    }

    pub fn flip_x(&self) -> (r: bool)
        ensures
            r == self.spec_flip_x(),
    {
        self.flip_x
    }

    pub fn set_flip_x(&mut self, flip_x: bool)
        ensures
            final(self).attrs() == (Attrs { flip_x, ..old(self).attrs() }),
            final(self).spec_id() == old(self).spec_id(),
            final(self).spec_children() == old(self).spec_children(),
            final(self).spec_texture() == old(self).spec_texture(),
    {
        self.flip_x = flip_x;
    }

    pub fn flip_y(&self) -> (r: bool)
        ensures
            r == self.spec_flip_y(),
    {
        self.flip_y
    }

    pub fn set_flip_y(&mut self, flip_y: bool)
        ensures
            final(self).attrs() == (Attrs { flip_y, ..old(self).attrs() }),
            final(self).spec_id() == old(self).spec_id(),
            final(self).spec_children() == old(self).spec_children(),
            final(self).spec_texture() == old(self).spec_texture(),
    {
        self.flip_y = flip_y;
    }

    pub fn texture(&self) -> (r: &T)
        ensures
            *r == self.spec_texture(),
    {
        &self.texture
    }

    /// The texture's size in pixels, width then height.
    pub fn texture_size(&self) -> (r: (u32, u32))
        ensures
            r == self.spec_size(),
    {
        self.size
    }

    pub fn set_texture(&mut self, texture: T, width: u32, height: u32)
        ensures
            final(self).attrs() == (Attrs { size: (width, height), ..old(self).attrs() }),
            final(self).spec_id() == old(self).spec_id(),
            final(self).spec_children() == old(self).spec_children(),
            final(self).spec_texture() == texture,
    {
        self.texture = texture;
        self.size = (width, height);
    }

    pub fn add_child(&mut self, sprite: Sprite<T>) -> (r: u128)
        ensures
            r == sprite.spec_id(),
            final(self).spec_children() == old(self).spec_children().push(sprite),
            Self::same_attributes(*old(self), *final(self)),
    {
        let id = sprite.id;
        self.children.push(sprite);
        id
    }

    /// Looks `id` up among the descendants: first among the direct children,
    /// then depth first below each child in order.
    pub fn child(&self, id: u128) -> (r: Option<&Sprite<T>>)
        ensures
            r.is_some() == self.has(id),
            r.is_some() ==> r.unwrap().spec_id() == id,
            match r {
                Some(x) => self.find(id) == Some(*x),
                None => self.find(id).is_none(),
            },
        decreases self,
    {
        let n = self.children.len();
        let mut i: usize = 0;
        while i < n
            invariant
                i <= n,
                n == self.children@.len(),
                forall|j: int| 0 <= j < i ==> #[trigger] self.children@[j].id != id,
            decreases n - i,
        {
            if self.children[i].id == id {
                proof {
                    assert(self.direct_at(id, i as int));
                    self.lemma_find_direct(id, i as int);
                }
                return Some(&self.children[i]);
            }
            i += 1;
        }
        let mut i: usize = 0;
        while i < n
            invariant
                i <= n,
                n == self.children@.len(),
                forall|j: int| 0 <= j < n ==> #[trigger] self.children@[j].id != id,
                forall|j: int| 0 <= j < i ==> !(#[trigger] self.children@[j]).has(id),
            decreases n - i,
        {
            assert(decreases_to!(self => self.children@[i as int]));
            match self.children[i].child(id) {
                Some(c) => {
                    proof {
                        assert(self.spec_children()[i as int].has(id));
                        assert(self.deep_at(id, i as int));
                        self.lemma_find_deep(id, i as int);
                    }
                    return Some(c);
                },
                None => {},
            }
            i += 1;
        }
        None
    }
    /// The offset `a * extent / ANCHOR_ONE`, without overflow.
    fn scaled_offset(a: u16, extent: u64) -> (r: i64)
        requires
            extent <= 0xffff_ffff_ffff,
        ensures
            r == a as int * extent as int / (ANCHOR_ONE as int),
            0 <= r < 0x0080_0000_0000_0000,
    {
        assert(a as int * extent as int <= 0xffff * 0xffff_ffff_ffff) by (nonlinear_arith)
            requires
                a <= 0xffff,
                extent <= 0xffff_ffff_ffff,
        ;
        let p: u128 = a as u128 * extent as u128;
        (p / (ANCHOR_ONE as u128)) as i64
    }

    /// Axis-aligned box in the sprite's own frame: `(x, y, width, height)`.
    pub fn bounding_box(&self) -> (r: (i64, i64, i64, i64))
        ensures
            (r.0 as int, r.1 as int, r.2 as int, r.3 as int) == self.bounds(),
    {
        assert(self.size.0 as int * self.scale.0 as int <= 0xffff_ffff * 0xffff) by (nonlinear_arith)
            requires
                self.size.0 <= 0xffff_ffff,
                self.scale.0 <= 0xffff,
        ;
        assert(self.size.1 as int * self.scale.1 as int <= 0xffff_ffff * 0xffff) by (nonlinear_arith)
            requires
                self.size.1 <= 0xffff_ffff,
                self.scale.1 <= 0xffff,
        ;
        let w: u64 = self.size.0 as u64 * self.scale.0 as u64;
        let h: u64 = self.size.1 as u64 * self.scale.1 as u64;
        let x = self.position.0 as i64 - Self::scaled_offset(self.anchor.0, w);
        let y = self.position.1 as i64 - Self::scaled_offset(self.anchor.1, h);
        (x, y, w as i64, h as i64)
    }

    fn local_vec(&self) -> (r: Vec<Op>)
        ensures
            r@ == self.local_ops(),
    {
        let mut r: Vec<Op> = Vec::new();
        r.push(Op::Translate(self.position.0 as i64, self.position.1 as i64));
        r.push(Op::RotateDeg(self.rotation));
        r.push(Op::Scale(self.scale.0, self.scale.1));
        assert(r@ =~= self.local_ops());
        r
    }

    fn flip_vec(&self) -> (r: Vec<Op>)
        ensures
            r@ == self.flip_ops(),
    {
        let ax = Self::scaled_offset(self.anchor.0, self.size.0 as u64);
        let ay = Self::scaled_offset(self.anchor.1, self.size.1 as u64);
        let mut r: Vec<Op> = Vec::new();
        if self.flip_x {
            r.push(Op::Translate(self.size.0 as i64 - 2 * ax, 0));
            r.push(Op::FlipH);
        }
        if self.flip_y {
            r.push(Op::Translate(0, self.size.1 as i64 - 2 * ay));
            r.push(Op::FlipV);
        }
        assert(r@ =~= self.flip_ops());
        r
    }

    /// Appends the image of this sprite, under `parent` composed with its own
    /// transform, and then those of its children's subtrees in order, each under
    /// this sprite's composed transform.
    pub fn draw(&self, parent: &Vec<Op>, out: &mut Vec<DrawItem>)
        ensures
            items_view(final(out)@) == items_view(old(out)@) + self.draws(parent@),
        decreases self,
    {
        let local = self.local_vec();
        let t = concat(parent, &local);
        let flips = self.flip_vec();
        let img = concat(&t, &flips);
        let ax = Self::scaled_offset(self.anchor.0, self.size.0 as u64);
        let ay = Self::scaled_offset(self.anchor.1, self.size.1 as u64);
        let ghost start = items_view(out@);
        out.push(DrawItem { id: self.id, transform: img, rect: (-ax, -ay, self.size.0 as i64, self.size.1 as i64) });
        let ghost base = start + seq![self.item(parent@)];
        assert(items_view(out@) =~= base);
        let n = self.children.len();
        let mut i: usize = 0;
        while i < n
            invariant
                i <= n,
                n == self.children@.len(),
                t@ == parent@ + self.local_ops(),
                items_view(out@) == base + Self::draws_from(self.children@, t@, i as nat),
            decreases n - i,
        {
            let ghost before = items_view(out@);
            assert(decreases_to!(self => self.children@[i as int]));
            self.children[i].draw(&t, out);
            i += 1;
            assert(Self::draws_from(self.children@, t@, i as nat) == Self::draws_from(
                self.children@,
                t@,
                (i - 1) as nat,
            ) + self.children@[i - 1].draws(t@));
            assert(items_view(out@) =~= base + Self::draws_from(self.children@, t@, i as nat));
        }
        assert(self.draws(parent@) =~= seq![self.item(parent@)] + Self::draws_from(
            self.children@,
            t@,
            n as nat,
        ));
    }

    /// Where a lookup of `id` goes from here: `(i, true)` where child `i` carries
    /// it, `(i, false)` where it lies below child `i`.
    fn route(&self, id: u128) -> (r: Option<(usize, bool)>)
        ensures
            r.is_some() == self.has(id),
            r matches Some(p) ==> (p.1 ==> self.direct_at(id, p.0 as int)) && (!p.1
                ==> self.deep_at(id, p.0 as int)),
    {
        let n = self.children.len();
        let mut i: usize = 0;
        while i < n
            invariant
                i <= n,
                n == self.children@.len(),
                forall|j: int| 0 <= j < i ==> #[trigger] self.children@[j].id != id,
            decreases n - i,
        {
            if self.children[i].id == id {
                assert(self.spec_children()[i as int].spec_id() == id);
                return Some((i, true));
            }
            i += 1;
        }
        let mut i: usize = 0;
        while i < n
            invariant
                i <= n,
                n == self.children@.len(),
                forall|j: int| 0 <= j < n ==> #[trigger] self.children@[j].id != id,
                forall|j: int| 0 <= j < i ==> !(#[trigger] self.children@[j]).has(id),
            decreases n - i,
        {
            if self.children[i].child(id).is_some() {
                assert(self.spec_children()[i as int].has(id));
                return Some((i, false));
            }
            i += 1;
        }
        None
    }

    /// Mutable counterpart of `child`: reaches the same descendant, and whatever
    /// the caller does to it is what becomes of that descendant in `self`.
    pub fn child_mut(&mut self, id: u128) -> (r: Option<&mut Sprite<T>>)
        ensures
            r.is_some() == old(self).has(id),
            match r {
                Some(m) => m.spec_id() == id && old(self).find(id) == Some(*m) && Self::replaced(
                    *old(self),
                    *final(self),
                    id,
                    *final(m),
                ),
                None => *final(self) == *old(self),
            },
        decreases *old(self),
    {
        match self.route(id) {
            None => None,
            Some((i, direct)) => {
                let ghost pre = *self;
                let c = &mut self.children[i];
                if direct {
                    assert(pre.direct_at(id, i as int));
                    proof {
                        pre.lemma_find_direct(id, i as int);
                    }
                    Some(c)
                } else {
                    assert(pre.deep_at(id, i as int));
                    proof {
                        pre.lemma_find_deep(id, i as int);
                    }
                    c.child_mut(id)
                }
            },
        }
    }
    /// A sprite added as a child can be looked up at once, and so can every
    /// sprite below it; whatever could be looked up before still can.
    pub proof fn lemma_added_child_found(before: Sprite<T>, after: Sprite<T>, c: Sprite<T>, id: u128)
        requires
            after.spec_children() == before.spec_children().push(c),
        ensures
            after.has(c.spec_id()),
            c.has(id) ==> after.has(id),
            before.has(id) ==> after.has(id),
    {
        let n = before.children@.len() as int;
        assert(after.children@[n] == c);
        if before.has(id) {
            let i = choose|i: int|
                0 <= i < before.children@.len() && ((#[trigger] before.children@[i]).id == id
                    || before.children@[i].has(id));
            assert(after.children@[i] == before.children@[i]);
        }
    }

    /// A change made to a sprite reached through `child_mut` stays reachable:
    /// the sprite itself, and every sprite below it.
    pub proof fn lemma_replaced_found(old: Sprite<T>, new: Sprite<T>, id: u128, sub: Sprite<T>, x: u128)
        requires
            Self::replaced(old, new, id, sub),
            sub.spec_id() == id,
        ensures
            new.has(id),
            sub.has(x) ==> new.has(x),
        decreases old,
    {
        let i = choose|i: int|
            #![trigger old.direct_at(id, i)]
            #![trigger old.deep_at(id, i)]
            0 <= i < old.children@.len() && ((old.direct_at(id, i) && new.children@
                == old.children@.update(i, sub)) || (old.deep_at(id, i) && new.children@
                =~= old.children@.update(i, new.children@[i]) && Self::replaced(
                old.children@[i],
                new.children@[i],
                id,
                sub,
            )));
        if old.direct_at(id, i) {
            assert(new.children@[i] == sub);
        } else {
            assert(decreases_to!(old => old.children@[i]));
            Self::lemma_replaced_found(old.children@[i], new.children@[i], id, sub, x);
        }
    }
    /// Transforms compose down the tree: a child is drawn under its parent's
    /// incoming transform, then the parent's own, then its own.
    pub proof fn lemma_child_composed(p: Sprite<T>, t: Seq<Op>, k: int)
        requires
            0 <= k < p.spec_children().len(),
        ensures
            p.draws(t)[0] == p.item(t),
            p.item(t).1 == t + p.local_ops() + p.flip_ops(),
            p.draws(t).contains(p.spec_children()[k].item(t + p.local_ops())),
            p.spec_children()[k].item(t + p.local_ops()).1 == t + p.local_ops()
                + p.spec_children()[k].local_ops() + p.spec_children()[k].flip_ops(),
    {
        let cs = p.children@;
        let u = t + p.local_ops();
        Self::lemma_draws_from_contains(cs, u, cs.len(), k);
        let f = Self::draws_from(cs, u, cs.len());
        let j = choose|j: int| 0 <= j < f.len() && f[j] == cs[k].item(u);
        assert(p.draws(t)[j + 1] == f[j]);
    }

    proof fn lemma_draws_from_contains(cs: Seq<Sprite<T>>, t: Seq<Op>, n: nat, k: int)
        requires
            0 <= k < n <= cs.len(),
        ensures
            Self::draws_from(cs, t, n).contains(cs[k].item(t)),
        decreases n,
    {
        let prev = Self::draws_from(cs, t, (n - 1) as nat);
        let f = Self::draws_from(cs, t, n);
        if k == n - 1 {
            assert(cs[k].draws(t)[0] == cs[k].item(t));
            assert(f[prev.len() as int] == cs[k].item(t));
        } else {
            Self::lemma_draws_from_contains(cs, t, (n - 1) as nat, k);
            let j = choose|j: int| 0 <= j < prev.len() && prev[j] == cs[k].item(t);
            assert(f[j] == prev[j]);
        }
    }

    /// Mirroring shifts the mirrored axis alone, by the texture's extent on it
    /// less twice the anchor offset, before the mirror itself.
    pub proof fn lemma_flip_shift(s: Sprite<T>)
        ensures
            s.anchor_offset() == (
                s.spec_anchor().0 * s.spec_size().0 / (ANCHOR_ONE as int),
                s.spec_anchor().1 * s.spec_size().1 / (ANCHOR_ONE as int),
            ),
            s.spec_flip_x() && !s.spec_flip_y() ==> s.flip_ops() == seq![
                Op::Translate((s.spec_size().0 - 2 * s.anchor_offset().0) as i64, 0),
                Op::FlipH,
            ],
            !s.spec_flip_x() && s.spec_flip_y() ==> s.flip_ops() == seq![
                Op::Translate(0, (s.spec_size().1 - 2 * s.anchor_offset().1) as i64),
                Op::FlipV,
            ],
            !s.spec_flip_x() && !s.spec_flip_y() ==> s.flip_ops() == Seq::<Op>::empty(),
    {
        assert(s.flip_ops() =~= if s.flip_x && !s.flip_y {
            seq![Op::Translate((s.size.0 - 2 * s.anchor_offset().0) as i64, 0), Op::FlipH]
        } else if !s.flip_x && s.flip_y {
            seq![Op::Translate(0, (s.size.1 - 2 * s.anchor_offset().1) as i64), Op::FlipV]
        } else if !s.flip_x && !s.flip_y {
            Seq::<Op>::empty()
        } else {
            s.flip_ops()
        });
    }
}

} // verus!
