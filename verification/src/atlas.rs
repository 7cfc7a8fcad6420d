//! Texture atlases: sprites are sorted by height, tallest first, and laid out
//! on shelves in the smallest square atlas, from 16 to 2048 pixels a side,
//! that holds them all.

use vstd::prelude::*;

use crate::naming::{
    animation_view, animations_named, ase_animations, ase_sprites, lemma_animations_name_sprites, sprite_names,
    AseTag, FrameSprite,
};

verus! {

/// Where a sprite stands in the atlas image, and how long it shows.
#[derive(Clone, Copy, Debug, PartialEq, Eq, Structural)]
pub struct AtlasFrame {
    pub x: u32,
    pub y: u32,
    pub w: u32,
    pub h: u32,
    pub duration: u32,
}

/// What an atlas records beside its image: the frame names of each animation
/// and the placement of each frame, both as named entries in the order they
/// were made. They stand for maps by name (`animations_map`, `frames_map`),
/// in which a later entry of a name replaces an earlier one.
pub struct AtlasMeta {
    pub animations: Vec<(String, Vec<String>)>,
    pub frames: Vec<(String, AtlasFrame)>,
}

/// The map that a list of named entries stands for: each name maps to the
/// value of its last entry, so every name has one value.
pub open spec fn named_map<V>(entries: Seq<(Seq<char>, V)>) -> Map<Seq<char>, V>
    decreases entries.len(),
{
    if entries.len() == 0 {
        Map::empty()
    } else {
        named_map(entries.drop_last()).insert(entries.last().0, entries.last().1)
    }
}

/// Frame entries by the text of their names.
pub open spec fn frame_entries(f: Seq<(String, AtlasFrame)>) -> Seq<(Seq<char>, AtlasFrame)> {
    f.map_values(|e: (String, AtlasFrame)| (e.0@, e.1))
}

impl AtlasMeta {
    /// The frames by name.
    pub open spec fn frames_map(&self) -> Map<Seq<char>, AtlasFrame> {
        named_map(frame_entries(self.frames@))
    }

    /// The frame names of the animations by name.
    pub open spec fn animations_map(&self) -> Map<Seq<char>, Seq<Seq<char>>> {
        named_map(self.animations@.map_values(|a: (String, Vec<String>)| animation_view(a)))
    }

    /// The frame recorded under `name`: its last entry, if any.
    pub fn frame(&self, name: &String) -> (res: Option<AtlasFrame>)
        ensures
            match res {
                Some(f) => self.frames_map().dom().contains(name@) && self.frames_map()[name@] == f,
                None => !self.frames_map().dom().contains(name@),
            },
    {
        let ghost e = frame_entries(self.frames@);
        let mut i = self.frames.len();
        assert(e.subrange(0, i as int) =~= e);
        while i > 0
            invariant
                i <= e.len(),
                e == frame_entries(self.frames@),
                named_map(e).dom().contains(name@) == named_map(e.subrange(0, i as int)).dom().contains(
                    name@,
                ),
                named_map(e).dom().contains(name@) ==> named_map(e)[name@] == named_map(
                    e.subrange(0, i as int),
                )[name@],
            decreases i,
        {
            let ghost pre = e.subrange(0, i - 1);
            assert(e.subrange(0, i as int).drop_last() =~= pre);
            assert(e.subrange(0, i as int).last() == e[i - 1]);
            if self.frames[i - 1].0 == *name {
                return Some(self.frames[i - 1].1);
            }
            i = i - 1;
        }
        assert(e.subrange(0, 0) =~= Seq::<(Seq<char>, AtlasFrame)>::empty());
        None
    }
}

/// A name has an entry in the map exactly when some entry carries it.
pub proof fn lemma_named_map_dom<V>(entries: Seq<(Seq<char>, V)>, n: Seq<char>)
    ensures
        named_map(entries).dom().contains(n) <==> exists|i: int|
            0 <= i < entries.len() && #[trigger] entries[i].0 == n,
    decreases entries.len(),
{
    if entries.len() > 0 {
        let pre = entries.drop_last();
        lemma_named_map_dom(pre, n);
        if exists|i: int| 0 <= i < pre.len() && #[trigger] pre[i].0 == n {
            let i = choose|i: int| 0 <= i < pre.len() && #[trigger] pre[i].0 == n;
            assert(entries[i].0 == n);
        }
        if exists|i: int| 0 <= i < entries.len() && #[trigger] entries[i].0 == n {
            let i = choose|i: int| 0 <= i < entries.len() && #[trigger] entries[i].0 == n;
            if i < pre.len() {
                assert(pre[i].0 == n);
            }
        }
    }
}

/// A name maps to the value of its last entry: when entry `i` carries `n`
/// and no later entry does, the map holds `n` with that entry's value.
pub proof fn lemma_named_map_last<V>(entries: Seq<(Seq<char>, V)>, n: Seq<char>, i: int)
    requires
        0 <= i < entries.len(),
        entries[i].0 == n,
        forall|k: int| i < k < entries.len() ==> #[trigger] entries[k].0 != n,
    ensures
        named_map(entries).dom().contains(n),
        named_map(entries)[n] == entries[i].1,
    decreases entries.len(),
{
    if i < entries.len() - 1 {
        let pre = entries.drop_last();
        assert forall|k: int| i < k < pre.len() implies #[trigger] pre[k].0 != n by {
            assert(pre[k] == entries[k]);
        }
        lemma_named_map_last(pre, n, i);
        assert(entries.last().0 != n);
    }
}

/// A sprite to place: its image, which the packing only carries along, its
/// name, its size in pixels and its duration.
pub struct Sprite<P> {
    pub pixmap: P,
    pub name: String,
    pub width: u32,
    pub height: u32,
    pub duration: u32,
}

/// Widths and heights of a sequence of sprites.
pub open spec fn dims<P>(s: Seq<Sprite<P>>) -> Seq<(u32, u32)> {
    s.map_values(|sp: Sprite<P>| (sp.width, sp.height))
}

/// Shelf packing of rectangles of the given sizes into a square atlas of side
/// `size`, from a cursor at (`x`, `y`) on a shelf that is `shelf` high so far.
/// A rectangle that does not fit beside the cursor opens a new shelf below the
/// current one. `None` when a rectangle is wider than the atlas or reaches
/// below it.
pub open spec fn shelf_positions(dims: Seq<(u32, u32)>, size: int, x: int, y: int, shelf: int) -> Option<
    Seq<(int, int)>,
>
    decreases dims.len(),
{
    if dims.len() == 0 {
        Some(Seq::empty())
    } else {
        let w = dims[0].0 as int;
        let h = dims[0].1 as int;
        if w > size {
            None
        } else {
            let wrap = x + w > size;
            let nx = if wrap { 0 } else { x };
            let ny = if wrap { y + shelf } else { y };
            let ns = if wrap { 0 } else { shelf };
            if ny + h > size {
                None
            } else {
                match shelf_positions(dims.drop_first(), size, nx + w, ny, if ns > h { ns } else { h }) {
                    Some(rest) => Some(seq![(nx, ny)] + rest),
                    None => None,
                }
            }
        }
    }
}

/// Shelf packing from the top left corner of an empty atlas.
pub open spec fn pack_positions(dims: Seq<(u32, u32)>, size: int) -> Option<Seq<(int, int)>> {
    shelf_positions(dims, size, 0, 0, 0)
}

/// `f` names and places the sprites `s` at the positions `pos`, in order.
pub open spec fn frames_match<P>(
    f: Seq<(String, AtlasFrame)>,
    s: Seq<Sprite<P>>,
    pos: Seq<(int, int)>,
) -> bool {
    &&& f.len() == s.len()
    &&& pos.len() == s.len()
    &&& forall|i: int|
        0 <= i < s.len() ==> {
            &&& (#[trigger] f[i]).0@ == s[i].name@
            &&& f[i].1.x == pos[i].0
            &&& f[i].1.y == pos[i].1
            &&& f[i].1.w == s[i].width
            &&& f[i].1.h == s[i].height
            &&& f[i].1.duration == s[i].duration
        }
}

/// A frame lies inside a square atlas of side `size`.
pub open spec fn inside(f: AtlasFrame, size: int) -> bool {
    f.x + f.w <= size && f.y + f.h <= size
}

/// Two frames share no pixel.
pub open spec fn disjoint(a: AtlasFrame, b: AtlasFrame) -> bool {
    a.x + a.w <= b.x || b.x + b.w <= a.x || a.y + a.h <= b.y || b.y + b.h <= a.y
}

/// Every frame lies inside the atlas and no two overlap.
pub open spec fn sound_layout(f: Seq<(String, AtlasFrame)>, size: int) -> bool {
    &&& forall|i: int| 0 <= i < f.len() ==> inside(#[trigger] f[i].1, size)
    &&& forall|i: int, j: int|
        0 <= i < j < f.len() ==> disjoint(#[trigger] f[i].1, #[trigger] f[j].1)
}

/// Where shelf packing places each rectangle, relative to the cursor it starts
/// from: beside the cursor on its shelf, or on a later shelf; and inside the
/// atlas.
proof fn lemma_shelf_placement(dims: Seq<(u32, u32)>, size: int, x: int, y: int, shelf: int)
    requires
        0 <= x,
        0 <= y,
        0 <= shelf,
        shelf_positions(dims, size, x, y, shelf) is Some,
    ensures
        ({
            let pos = shelf_positions(dims, size, x, y, shelf).unwrap();
            &&& pos.len() == dims.len()
            &&& forall|j: int|
                0 <= j < pos.len() ==> {
                    &&& (#[trigger] pos[j]).0 >= 0
                    &&& pos[j].1 >= 0
                    &&& pos[j].0 + dims[j].0 <= size
                    &&& pos[j].1 + dims[j].1 <= size
                    &&& (pos[j].1 == y && pos[j].0 >= x) || pos[j].1 >= y + shelf
                }
            &&& forall|i: int, j: int|
                0 <= i < j < pos.len() ==> {
                    ||| (#[trigger] pos[i]).0 + dims[i].0 <= (#[trigger] pos[j]).0
                    ||| pos[j].0 + dims[j].0 <= pos[i].0
                    ||| pos[i].1 + dims[i].1 <= pos[j].1
                    ||| pos[j].1 + dims[j].1 <= pos[i].1
                }
        }),
    decreases dims.len(),
{
    if dims.len() > 0 {
        let w = dims[0].0 as int;
        let h = dims[0].1 as int;
        let wrap = x + w > size;
        let nx = if wrap { 0 } else { x };
        let ny = if wrap { y + shelf } else { y };
        let ns = if wrap { 0 } else { shelf };
        let nshelf = if ns > h { ns } else { h };
        let rest_dims = dims.drop_first();
        lemma_shelf_placement(rest_dims, size, nx + w, ny, nshelf);
        let rest = shelf_positions(rest_dims, size, nx + w, ny, nshelf).unwrap();
        let pos = shelf_positions(dims, size, x, y, shelf).unwrap();
        assert(pos == seq![(nx, ny)] + rest);
        assert forall|j: int| 0 < j < pos.len() implies pos[j] == rest[j - 1] && dims[j]
            == rest_dims[j - 1] by {}
        assert forall|i: int, j: int| 0 <= i < j < pos.len() implies {
            ||| (#[trigger] pos[i]).0 + dims[i].0 <= (#[trigger] pos[j]).0
            ||| pos[j].0 + dims[j].0 <= pos[i].0
            ||| pos[i].1 + dims[i].1 <= pos[j].1
            ||| pos[j].1 + dims[j].1 <= pos[i].1
        } by {
            if i > 0 {
                assert(pos[i] == rest[i - 1]);
                assert(pos[j] == rest[j - 1]);
            } else {
                assert(pos[j] == rest[j - 1]);
            }
        }
    }
}

/// Height of the tallest of the first `i` rectangles that stand at height
/// `y`, or 0 when none does.
pub open spec fn shelf_max(d: Seq<(u32, u32)>, pos: Seq<(int, int)>, i: int, y: int) -> int
    decreases i,
{
    if i <= 0 {
        0
    } else {
        let m = shelf_max(d, pos, i - 1, y);
        if pos[i - 1].1 == y && d[i - 1].1 > m {
            d[i - 1].1 as int
        } else {
            m
        }
    }
}

/// Where a shelf layout puts rectangle `i`, given where the ones before it
/// stand: the first at the top left corner; a later one right of the one
/// before when it fits there across, else at the left edge of a new shelf
/// under the current one, as low as the tallest rectangle of that shelf.
pub open spec fn shelf_rule(d: Seq<(u32, u32)>, size: int, pos: Seq<(int, int)>, i: int) -> (int, int) {
    if i == 0 {
        (0, 0)
    } else if pos[i - 1].0 + d[i - 1].0 + d[i].0 <= size {
        (pos[i - 1].0 + d[i - 1].0, pos[i - 1].1)
    } else {
        (0, pos[i - 1].1 + shelf_max(d, pos, i, pos[i - 1].1))
    }
}

/// Rectangle `k` stands where the shelf rule puts it, inside the atlas.
pub open spec fn shelf_placed(d: Seq<(u32, u32)>, size: int, pos: Seq<(int, int)>, k: int) -> bool {
    &&& pos[k] == shelf_rule(d, size, pos, k)
    &&& pos[k].0 + d[k].0 <= size
    &&& pos[k].1 + d[k].1 <= size
}

/// `pos` places every rectangle of sizes `d` by the shelf rule, inside a
/// square atlas of side `size`.
pub open spec fn shelf_layout(d: Seq<(u32, u32)>, size: int, pos: Seq<(int, int)>) -> bool {
    &&& pos.len() == d.len()
    &&& forall|k: int| 0 <= k < d.len() ==> #[trigger] shelf_placed(d, size, pos, k)
}

proof fn lemma_shelf_max_nonneg(d: Seq<(u32, u32)>, pos: Seq<(int, int)>, i: int, y: int)
    ensures
        shelf_max(d, pos, i, y) >= 0,
    decreases i,
{
    if i > 0 {
        lemma_shelf_max_nonneg(d, pos, i - 1, y);
    }
}

proof fn lemma_shelf_max_absent(d: Seq<(u32, u32)>, pos: Seq<(int, int)>, i: int, y: int)
    requires
        forall|k: int| 0 <= k < i ==> #[trigger] pos[k].1 < y,
    ensures
        shelf_max(d, pos, i, y) == 0,
    decreases i,
{
    if i > 0 {
        lemma_shelf_max_absent(d, pos, i - 1, y);
    }
}

/// The cursor of shelf packing once the first `i` rectangles are placed at
/// `pos`: right of the last one, on its shelf, with that shelf's height.
spec fn shelf_cursor(d: Seq<(u32, u32)>, pos: Seq<(int, int)>, i: int) -> (int, int, int) {
    if i == 0 {
        (0, 0, 0)
    } else {
        (pos[i - 1].0 + d[i - 1].0, pos[i - 1].1, shelf_max(d, pos, i, pos[i - 1].1))
    }
}

proof fn lemma_shelf_from(d: Seq<(u32, u32)>, size: int, pos: Seq<(int, int)>, i: int)
    requires
        pos.len() == d.len(),
        0 <= i <= d.len(),
        forall|k: int| 0 <= k < i ==> #[trigger] shelf_placed(d, size, pos, k),
        forall|k: int|
            0 <= k < i ==> 0 <= (#[trigger] pos[k]).0 && 0 <= pos[k].1 <= shelf_cursor(d, pos, i).1,
    ensures
        shelf_positions(
            d.skip(i),
            size,
            shelf_cursor(d, pos, i).0,
            shelf_cursor(d, pos, i).1,
            shelf_cursor(d, pos, i).2,
        ) == Some(pos.skip(i)) <==> forall|k: int| i <= k < d.len() ==> #[trigger] shelf_placed(
            d,
            size,
            pos,
            k,
        ),
    decreases d.len() - i,
{
    let (x, y, sh) = shelf_cursor(d, pos, i);
    if i == d.len() {
        assert(d.skip(i) =~= Seq::<(u32, u32)>::empty());
        assert(pos.skip(i) =~= Seq::<(int, int)>::empty());
    } else {
        let ds = d.skip(i);
        assert(ds[0] == d[i]);
        assert(ds.drop_first() =~= d.skip(i + 1));
        assert(pos.skip(i) =~= seq![pos[i]] + pos.skip(i + 1));
        if i > 0 {
            lemma_shelf_max_nonneg(d, pos, i, pos[i - 1].1);
            assert(shelf_placed(d, size, pos, i - 1));
        }
        assert(x >= 0 && y >= 0 && sh >= 0);
        let w = d[i].0 as int;
        let h = d[i].1 as int;
        let wrap = x + w > size;
        let nx = if wrap { 0 } else { x };
        let ny = if wrap { y + sh } else { y };
        let ns = if wrap { 0 } else { sh };
        let nsh = if ns > h { ns } else { h };
        let lhs = shelf_positions(ds, size, x, y, sh) == Some(pos.skip(i));
        if w > size {
            assert(!lhs);
            assert(!shelf_placed(d, size, pos, i));
        } else {
            assert(shelf_rule(d, size, pos, i) == (nx, ny));
            if ny + h > size {
                assert(!lhs);
                assert(!shelf_placed(d, size, pos, i));
            } else if pos[i] != (nx, ny) {
                let rec = shelf_positions(d.skip(i + 1), size, nx + w, ny, nsh);
                assert(shelf_positions(ds, size, x, y, sh) == match rec {
                    Some(rest) => Some(seq![(nx, ny)] + rest),
                    None => None,
                });
                if lhs {
                    let rest = rec.unwrap();
                    assert((seq![(nx, ny)] + rest)[0] == (nx, ny));
                    assert(pos.skip(i)[0] == pos[i]);
                }
                assert(!lhs);
                assert(!shelf_placed(d, size, pos, i));
            } else {
                assert(shelf_placed(d, size, pos, i));
                let m = shelf_max(d, pos, i, ny);
                if i > 0 && wrap && sh > 0 {
                    lemma_shelf_max_absent(d, pos, i, ny);
                }
                assert(m == ns);
                assert(shelf_max(d, pos, i + 1, ny) == nsh);
                assert(shelf_cursor(d, pos, i + 1) == (nx + w, ny, nsh));
                lemma_shelf_from(d, size, pos, i + 1);
                let rec = shelf_positions(d.skip(i + 1), size, nx + w, ny, nsh);
                assert(shelf_positions(ds, size, x, y, sh) == match rec {
                    Some(rest) => Some(seq![(nx, ny)] + rest),
                    None => None,
                });
                if lhs {
                    let rest = rec.unwrap();
                    assert(rest =~= (seq![(nx, ny)] + rest).drop_first());
                    assert(rest =~= pos.skip(i + 1));
                }
                if rec == Some(pos.skip(i + 1)) {
                    assert(seq![(nx, ny)] + pos.skip(i + 1) =~= pos.skip(i));
                }
                assert(lhs == (rec == Some(pos.skip(i + 1))));
                assert((forall|k: int| i <= k < d.len() ==> #[trigger] shelf_placed(d, size, pos, k))
                    == (forall|k: int| i + 1 <= k < d.len() ==> #[trigger] shelf_placed(d, size, pos, k)));
            }
        }
    }
}

/// Shelf packing places the rectangles exactly as the shelf rule says: it
/// succeeds with the positions `pos` when, and only when, `pos` puts each
/// rectangle right of the one before where it fits across, else on a new
/// shelf under the tallest rectangle of the current shelf, and every
/// rectangle then lies inside the atlas.
pub proof fn lemma_shelf_layout(d: Seq<(u32, u32)>, size: int, pos: Seq<(int, int)>)
    ensures
        pack_positions(d, size) == Some(pos) <==> shelf_layout(d, size, pos),
{
    if pos.len() != d.len() {
        if pack_positions(d, size) is Some {
            lemma_shelf_placement(d, size, 0, 0, 0);
        }
    } else {
        assert(d.skip(0) =~= d);
        assert(pos.skip(0) =~= pos);
        lemma_shelf_from(d, size, pos, 0);
    }
}

/// Shelf packing lays its frames out inside the atlas, none over another.
pub proof fn lemma_pack_layout_sound<P>(s: Seq<Sprite<P>>, size: int, f: Seq<(String, AtlasFrame)>)
    requires
        pack_positions(dims(s), size) is Some,
        frames_match(f, s, pack_positions(dims(s), size).unwrap()),
    ensures
        sound_layout(f, size),
{
    let d = dims(s);
    lemma_shelf_placement(d, size, 0, 0, 0);
    let pos = pack_positions(d, size).unwrap();
    assert forall|i: int| 0 <= i < f.len() implies inside(#[trigger] f[i].1, size) by {
        assert(pos[i] == pos[i]);
        assert(d[i] == (s[i].width, s[i].height));
    }
    assert forall|i: int, j: int| 0 <= i < j < f.len() implies disjoint(
        #[trigger] f[i].1,
        #[trigger] f[j].1,
    ) by {
        assert(pos[i] == pos[i] && pos[j] == pos[j]);
        assert(d[i] == (s[i].width, s[i].height));
        assert(d[j] == (s[j].width, s[j].height));
    }
}

/// Lays the sprites out on shelves, in their order, in a square atlas of side
/// `atlas_size`; `None` when they do not all fit.
pub fn try_pack_shelf<P>(sprites: &[Sprite<P>], atlas_size: u32) -> (res: Option<
    Vec<(String, AtlasFrame)>,
>)
    ensures
        match pack_positions(dims(sprites@), atlas_size as int) {
            None => res is None,
            Some(pos) => res matches Some(f) && frames_match(f@, sprites@, pos),
        },
        res matches Some(f) ==> sound_layout(f@, atlas_size as int),
{
    let ghost d = dims(sprites@);
    let ghost size = atlas_size as int;
    let mut frames: Vec<(String, AtlasFrame)> = Vec::new();
    let mut cursor_x: u32 = 0;
    let mut cursor_y: u32 = 0;
    let mut shelf_height: u32 = 0;
    let ghost mut done: Seq<(int, int)> = Seq::empty();
    let n = sprites.len();
    assert(d.skip(0) =~= d);
    let mut i: usize = 0;
    while i < n
        invariant
            n == sprites@.len() == d.len(),
            d == dims(sprites@),
            size == atlas_size,
            i <= n,
            cursor_x <= atlas_size,
            cursor_y + shelf_height <= atlas_size,
            done.len() == i,
            frames@.len() == i,
            pack_positions(d, size) == match shelf_positions(
                d.skip(i as int),
                size,
                cursor_x as int,
                cursor_y as int,
                shelf_height as int,
            ) {
                Some(rest) => Some(done + rest),
                None => None::<Seq<(int, int)>>,
            },
            forall|k: int|
                0 <= k < i ==> {
                    &&& (#[trigger] frames@[k]).0@ == sprites@[k].name@
                    &&& frames@[k].1.x == done[k].0
                    &&& frames@[k].1.y == done[k].1
                    &&& frames@[k].1.w == sprites@[k].width
                    &&& frames@[k].1.h == sprites@[k].height
                    &&& frames@[k].1.duration == sprites@[k].duration
                },
        decreases n - i,
    {
        let w = sprites[i].width;
        let h = sprites[i].height;
        let ghost rest_dims = d.skip(i as int);
        assert(rest_dims[0] == d[i as int]);
        assert(rest_dims.drop_first() =~= d.skip(i + 1));
        if w > atlas_size {
            return None;
        }
        if cursor_x as u64 + w as u64 > atlas_size as u64 {
            cursor_x = 0;
            cursor_y = cursor_y + shelf_height;
            shelf_height = 0;
        }
        if cursor_y as u64 + h as u64 > atlas_size as u64 {
            return None;
        }
        frames.push(
            (
                sprites[i].name.clone(),
                AtlasFrame {
                    x: cursor_x,
                    y: cursor_y,
                    w,
                    h,
                    duration: sprites[i].duration,
                },
            ),
        );
        proof {
            done = done.push((cursor_x as int, cursor_y as int));
        }
        cursor_x = cursor_x + w;
        if h > shelf_height {
            shelf_height = h;
        }
        i = i + 1;
        assert forall|k: int| 0 <= k < i implies {
            &&& (#[trigger] frames@[k]).0@ == sprites@[k].name@
            &&& frames@[k].1.x == done[k].0
            &&& frames@[k].1.y == done[k].1
            &&& frames@[k].1.w == sprites@[k].width
            &&& frames@[k].1.h == sprites@[k].height
            &&& frames@[k].1.duration == sprites@[k].duration
        } by {}
    }
    proof {
        assert(d.skip(n as int) =~= Seq::<(u32, u32)>::empty());
        assert(done + Seq::<(int, int)>::empty() =~= done);
        lemma_pack_layout_sound(sprites@, size, frames@);
    }
    Some(frames)
}

/// Where `x` goes among `s`: after the leading sprites that are at least as
/// tall, before the first shorter one.
pub open spec fn insert_index<P>(s: Seq<Sprite<P>>, x: Sprite<P>) -> nat
    decreases s.len(),
{
    if s.len() == 0 || s[0].height < x.height {
        0
    } else {
        1 + insert_index(s.drop_first(), x)
    }
}

/// `s` with `x` put in at `insert_index(s, x)`.
pub open spec fn insert_by_height<P>(s: Seq<Sprite<P>>, x: Sprite<P>) -> Seq<Sprite<P>> {
    s.insert(insert_index(s, x) as int, x)
}

/// The sprites ordered by height, tallest first, sprites of equal height in
/// the order they came: the stable sort that `sort_by_key` with a reversed
/// height performs.
pub open spec fn sort_by_height<P>(s: Seq<Sprite<P>>) -> Seq<Sprite<P>>
    decreases s.len(),
{
    if s.len() == 0 {
        s
    } else {
        insert_by_height(sort_by_height(s.drop_last()), s.last())
    }
}

/// No sprite is taller than one before it.
pub open spec fn tallest_first<P>(s: Seq<Sprite<P>>) -> bool {
    forall|i: int, j: int| 0 <= i < j < s.len() ==> #[trigger] s[i].height >= #[trigger] s[j].height
}

proof fn lemma_insert_index_bounds<P>(s: Seq<Sprite<P>>, x: Sprite<P>)
    ensures
        insert_index(s, x) <= s.len(),
        forall|k: int| 0 <= k < insert_index(s, x) ==> #[trigger] s[k].height >= x.height,
        insert_index(s, x) < s.len() ==> s[insert_index(s, x) as int].height < x.height,
    decreases s.len(),
{
    if s.len() > 0 && s[0].height >= x.height {
        lemma_insert_index_bounds(s.drop_first(), x);
        assert forall|k: int| 0 <= k < insert_index(s, x) implies #[trigger] s[k].height
            >= x.height by {
            if k > 0 {
                assert(s[k] == s.drop_first()[k - 1]);
            }
        }
    }
}

/// The first index at which the sprite before is at least as tall as `x` and
/// the sprite there is shorter is `insert_index`.
proof fn lemma_insert_index_at<P>(s: Seq<Sprite<P>>, x: Sprite<P>, j: int)
    requires
        0 <= j <= s.len(),
        forall|k: int| 0 <= k < j ==> #[trigger] s[k].height >= x.height,
        j == s.len() || s[j].height < x.height,
    ensures
        insert_index(s, x) == j,
    decreases s.len(),
{
    if s.len() > 0 && j > 0 {
        assert(s[0].height >= x.height);
        assert forall|k: int| 0 <= k < j - 1 implies #[trigger] s.drop_first()[k].height
            >= x.height by {
            assert(s.drop_first()[k] == s[k + 1]);
        }
        lemma_insert_index_at(s.drop_first(), x, j - 1);
    }
}

/// The sorted sequence is ordered tallest first.
pub proof fn lemma_sort_tallest_first<P>(s: Seq<Sprite<P>>)
    ensures
        tallest_first(sort_by_height(s)),
        sort_by_height(s).len() == s.len(),
    decreases s.len(),
{
    if s.len() > 0 {
        let t = sort_by_height(s.drop_last());
        let x = s.last();
        lemma_sort_tallest_first(s.drop_last());
        lemma_insert_index_bounds(t, x);
        let j = insert_index(t, x) as int;
        let r = t.insert(j, x);
        t.insert_ensures(j, x);
        assert forall|a: int, b: int| 0 <= a < b < r.len() implies #[trigger] r[a].height
            >= #[trigger] r[b].height by {
            if b < j {
                assert(r[a] == t[a] && r[b] == t[b]);
            } else if b == j {
                assert(r[a] == t[a]);
            } else if a < j {
                assert(r[a] == t[a] && r[b] == t[b - 1]);
            } else if a == j {
                assert(r[b] == t[b - 1]);
                assert(t[j].height < x.height);
                if b - 1 > j {
                    assert(t[j].height >= t[b - 1].height);
                }
            } else {
                assert(r[a] == t[a - 1] && r[b] == t[b - 1]);
            }
        }
    }
}

/// Sorting keeps every sprite, as often as it came.
pub proof fn lemma_sort_permutes<P>(s: Seq<Sprite<P>>)
    ensures
        sort_by_height(s).to_multiset() == s.to_multiset(),
    decreases s.len(),
{
    broadcast use vstd::seq_lib::group_to_multiset_ensures;

    if s.len() > 0 {
        let t = sort_by_height(s.drop_last());
        lemma_sort_permutes(s.drop_last());
        lemma_insert_index_bounds(t, s.last());
        vstd::seq_lib::to_multiset_insert(t, insert_index(t, s.last()) as int, s.last());
        assert(s =~= s.drop_last().push(s.last()));
    }
}

/// Sprites of height `h`.
pub open spec fn of_height<P>(h: u32) -> spec_fn(Sprite<P>) -> bool {
    |sp: Sprite<P>| sp.height == h
}

proof fn lemma_filter_none<P>(s: Seq<Sprite<P>>, h: u32)
    requires
        forall|k: int| 0 <= k < s.len() ==> #[trigger] s[k].height != h,
    ensures
        s.filter(of_height(h)) == Seq::<Sprite<P>>::empty(),
    decreases s.len(),
{
    reveal(Seq::filter);
    if s.len() > 0 {
        lemma_filter_none(s.drop_last(), h);
    }
}

proof fn lemma_filter_push<P>(s: Seq<Sprite<P>>, x: Sprite<P>, h: u32)
    ensures
        s.push(x).filter(of_height(h)) == if x.height == h {
            s.filter(of_height(h)).push(x)
        } else {
            s.filter(of_height(h))
        },
{
    reveal(Seq::filter);
    assert(s.push(x).drop_last() =~= s);
}

/// The sort is stable: the sprites of any one height come out in the order
/// they came in.
pub proof fn lemma_sort_stable<P>(s: Seq<Sprite<P>>, h: u32)
    ensures
        sort_by_height(s).filter(of_height(h)) == s.filter(of_height(h)),
    decreases s.len(),
{
    if s.len() == 0 {
    } else {
        let t = sort_by_height(s.drop_last());
        let x = s.last();
        lemma_sort_stable(s.drop_last(), h);
        lemma_sort_tallest_first(s.drop_last());
        lemma_insert_index_bounds(t, x);
        let j = insert_index(t, x) as int;
        let front = t.subrange(0, j);
        let back = t.subrange(j, t.len() as int);
        assert(t =~= front + back);
        assert(t.insert(j, x) =~= front.push(x) + back);
        Seq::filter_distributes_over_add(front.push(x), back, of_height(h));
        Seq::filter_distributes_over_add(front, back, of_height(h));
        lemma_filter_push(front, x, h);
        if x.height == h {
            assert forall|k: int| 0 <= k < back.len() implies #[trigger] back[k].height != h by {
                assert(back[k] == t[j + k]);
                if k > 0 {
                    assert(t[j].height >= t[j + k].height);
                }
            }
            lemma_filter_none(back, h);
            assert(back.filter(of_height(h)) == Seq::<Sprite<P>>::empty());
            assert(front.filter(of_height(h)).push(x) + Seq::<Sprite<P>>::empty() =~= (
            front.filter(of_height(h)) + Seq::<Sprite<P>>::empty()).push(x));
        }
        assert(s =~= s.drop_last().push(x));
        lemma_filter_push(s.drop_last(), x, h);
    }
}

/// Where the sort puts each sprite depends on the heights alone, so sprites
/// of the same sizes come out in sizes that match.
proof fn lemma_sort_dims<P, Q>(a: Seq<Sprite<P>>, b: Seq<Sprite<Q>>)
    requires
        dims(a) == dims(b),
    ensures
        dims(sort_by_height(a)) == dims(sort_by_height(b)),
    decreases a.len(),
{
    assert(a.len() == dims(a).len() && b.len() == dims(b).len());
    if a.len() > 0 {
        assert(dims(a.drop_last()) =~= dims(a).drop_last());
        assert(dims(b.drop_last()) =~= dims(b).drop_last());
        lemma_sort_dims(a.drop_last(), b.drop_last());
        let ta = sort_by_height(a.drop_last());
        let tb = sort_by_height(b.drop_last());
        let x = a.last();
        let y = b.last();
        assert(dims(a)[a.len() - 1] == dims(b)[a.len() - 1]);
        assert(x.width == y.width && x.height == y.height);
        lemma_sort_tallest_first(a.drop_last());
        lemma_sort_tallest_first(b.drop_last());
        lemma_insert_index_bounds(ta, x);
        let j = insert_index(ta, x) as int;
        assert(dims(ta).len() == ta.len() && dims(tb).len() == tb.len());
        assert forall|k: int| 0 <= k < j implies #[trigger] tb[k].height >= y.height by {
            assert(dims(ta)[k] == dims(tb)[k]);
        }
        if j < ta.len() {
            assert(dims(ta)[j] == dims(tb)[j]);
        }
        lemma_insert_index_at(tb, y, j);
        ta.insert_ensures(j, x);
        tb.insert_ensures(j, y);
        assert(dims(ta.insert(j, x)) =~= dims(tb.insert(j, y))) by {
            assert forall|k: int| 0 <= k < ta.len() + 1 implies dims(ta.insert(j, x))[k] == dims(
                tb.insert(j, y),
            )[k] by {
                if k < j {
                    assert(dims(ta)[k] == dims(tb)[k]);
                } else if k > j {
                    assert(dims(ta)[k - 1] == dims(tb)[k - 1]);
                }
            }
        }
    }
}

/// Sorts the sprites by height, tallest first, keeping the order of sprites
/// of equal height.
pub fn sort_by_height_desc<P>(sprites: Vec<Sprite<P>>) -> (res: Vec<Sprite<P>>)
    ensures
        res@ == sort_by_height(sprites@),
{
    let ghost orig = sprites@;
    let mut rest = sprites;
    let mut sorted: Vec<Sprite<P>> = Vec::new();
    let ghost mut k: int = 0;
    assert(orig.subrange(0, 0) =~= Seq::<Sprite<P>>::empty());
    while rest.len() > 0
        invariant
            0 <= k <= orig.len(),
            rest@ == orig.subrange(k, orig.len() as int),
            sorted@ == sort_by_height(orig.subrange(0, k)),
        decreases rest.len(),
    {
        let x = rest.remove(0);
        let mut j: usize = 0;
        while j < sorted.len() && sorted[j].height >= x.height
            invariant
                j <= sorted@.len(),
                forall|m: int| 0 <= m < j ==> #[trigger] sorted@[m].height >= x.height,
            decreases sorted@.len() - j,
        {
            j = j + 1;
        }
        proof {
            lemma_insert_index_at(sorted@, x, j as int);
            assert(orig.subrange(0, k + 1).drop_last() =~= orig.subrange(0, k));
            assert(orig.subrange(0, k + 1).last() == x);
            assert(rest@ =~= orig.subrange(k + 1, orig.len() as int));
            k = k + 1;
        }
        sorted.insert(j, x);
    }
    assert(orig.subrange(0, orig.len() as int) =~= orig);
    sorted
}

/// The sides an atlas may have, smallest first.
pub open spec fn atlas_sides() -> Seq<u32> {
    seq![16u32, 32, 64, 128, 256, 512, 1024, 2048]
}

/// The first index, from `k` on, of a side in `atlas_sides` at which shelf
/// packing fits the sizes `d`.
pub open spec fn first_fit(d: Seq<(u32, u32)>, k: nat) -> Option<nat>
    decreases 8 - k,
{
    if k >= 8 {
        None
    } else if pack_positions(d, atlas_sides()[k as int] as int) is Some {
        Some(k)
    } else {
        first_fit(d, k + 1)
    }
}

/// The side chosen for the sprites `s`, when one fits.
pub open spec fn atlas_side_for<P>(s: Seq<Sprite<P>>) -> Option<u32> {
    match first_fit(dims(sort_by_height(s)), 0) {
        Some(k) => Some(atlas_sides()[k as int]),
        None => None,
    }
}

/// The side that `first_fit` picks is the smallest listed side at which the
/// sizes fit.
pub proof fn lemma_first_fit_smallest(d: Seq<(u32, u32)>, k: nat)
    requires
        first_fit(d, k) is Some,
    ensures
        k <= first_fit(d, k).unwrap() < 8,
        pack_positions(d, atlas_sides()[first_fit(d, k).unwrap() as int] as int) is Some,
        forall|m: int|
            k <= m < first_fit(d, k).unwrap() ==> pack_positions(
                d,
                #[trigger] atlas_sides()[m] as int,
            ) is None,
    decreases 8 - k,
{
    if k < 8 && pack_positions(d, atlas_sides()[k as int] as int) is None {
        lemma_first_fit_smallest(d, k + 1);
    }
}

proof fn lemma_first_fit_none(d: Seq<(u32, u32)>, k: nat)
    requires
        first_fit(d, k) is None,
    ensures
        forall|m: int| k <= m < 8 ==> pack_positions(d, #[trigger] atlas_sides()[m] as int) is None,
    decreases 8 - k,
{
    if k < 8 {
        lemma_first_fit_none(d, k + 1);
    }
}

/// The atlas sides run from 16 to 2048 pixels, each twice the one before.
pub proof fn lemma_atlas_sides()
    ensures
        atlas_sides().len() == 8,
        atlas_sides()[0] == 16,
        atlas_sides()[7] == 2048,
        forall|k: int| 0 <= k < 7 ==> #[trigger] atlas_sides()[k + 1] == 2 * atlas_sides()[k],
{
}

/// The side chosen for the sprites is the smallest side of `atlas_sides`
/// at which the sprites, sorted tallest first, have a shelf layout; when no
/// side is chosen, they have a shelf layout at none of them.
pub proof fn lemma_atlas_side_smallest_fitting<P>(s: Seq<Sprite<P>>)
    ensures
        atlas_side_for(s) matches Some(side) ==> {
            &&& atlas_sides().contains(side)
            &&& exists|pos: Seq<(int, int)>| shelf_layout(dims(sort_by_height(s)), side as int, pos)
            &&& forall|k: int, pos: Seq<(int, int)>|
                0 <= k < 8 && atlas_sides()[k] < side ==> !#[trigger] shelf_layout(
                    dims(sort_by_height(s)),
                    atlas_sides()[k] as int,
                    pos,
                )
        },
        atlas_side_for(s) is None ==> forall|k: int, pos: Seq<(int, int)>|
            0 <= k < 8 ==> !#[trigger] shelf_layout(dims(sort_by_height(s)), atlas_sides()[k] as int, pos),
{
    let d = dims(sort_by_height(s));
    if first_fit(d, 0) is Some {
        lemma_first_fit_smallest(d, 0);
        let f = first_fit(d, 0).unwrap() as int;
        let side = atlas_sides()[f];
        let pos = pack_positions(d, side as int).unwrap();
        lemma_shelf_layout(d, side as int, pos);
        assert(atlas_sides()[f] == side);
        assert forall|k: int, p: Seq<(int, int)>| 0 <= k < 8 && atlas_sides()[k] < side implies !#[trigger] shelf_layout(
            d,
            atlas_sides()[k] as int,
            p,
        ) by {
            assert(k < f);
            lemma_shelf_layout(d, atlas_sides()[k] as int, p);
        }
    } else {
        lemma_first_fit_none(d, 0);
        assert forall|k: int, p: Seq<(int, int)>| 0 <= k < 8 implies !#[trigger] shelf_layout(
            d,
            atlas_sides()[k] as int,
            p,
        ) by {
            lemma_shelf_layout(d, atlas_sides()[k] as int, p);
        }
    }
}

/// Whether the sprites fit, once sorted, into an atlas of at most 2048 pixels
/// a side.
pub fn fits_in_atlas<P>(sprites: &[Sprite<P>]) -> (res: bool)
    ensures
        res == (atlas_side_for(sprites@) is Some),
{
    let mut sizes: Vec<Sprite<()>> = Vec::new();
    let n = sprites.len();
    for i in 0..n
        invariant
            n == sprites@.len(),
            sizes@.len() == i,
            forall|k: int|
                0 <= k < i ==> (#[trigger] sizes@[k]).width == sprites@[k].width && sizes@[k].height
                    == sprites@[k].height,
    {
        sizes.push(
            Sprite {
                pixmap: (),
                name: String::new(),
                width: sprites[i].width,
                height: sprites[i].height,
                duration: sprites[i].duration,
            },
        );
    }
    assert(dims(sizes@) =~= dims(sprites@));
    let sorted = sort_by_height_desc(sizes);
    proof {
        lemma_sort_dims(sizes@, sprites@);
    }
    let ghost d = dims(sort_by_height(sprites@));
    let mut size: u32 = 16;
    let mut k: usize = 0;
    while k < 8
        invariant
            d == dims(sorted@),
            d == dims(sort_by_height(sprites@)),
            k <= 8,
            k < 8 ==> size == atlas_sides()[k as int],
            first_fit(d, 0) == first_fit(d, k as nat),
        decreases 8 - k,
    {
        if try_pack_shelf(sorted.as_slice(), size).is_some() {
            assert(pack_positions(d, atlas_sides()[k as int] as int) is Some);
            assert(first_fit(d, k as nat) == Some(k as nat));
            return true;
        }
        k = k + 1;
        if k < 8 {
            size = size * 2;
        }
    }
    false
}

/// Sorts the sprites tallest first and lays them out in the smallest atlas,
/// from 16 to 2048 pixels a side, doubling each time, that holds them all.
/// Returns that side, the sorted sprites and their frames.
pub fn pack_atlas<P>(sprites: Vec<Sprite<P>>) -> (res: (u32, Vec<Sprite<P>>, Vec<(String, AtlasFrame)>))
    requires
        atlas_side_for(sprites@) is Some,
    ensures
        res.0 == atlas_side_for(sprites@).unwrap(),
        res.1@ == sort_by_height(sprites@),
        frames_match(res.2@, res.1@, pack_positions(dims(res.1@), res.0 as int).unwrap()),
        sound_layout(res.2@, res.0 as int),
{
    let sorted = sort_by_height_desc(sprites);
    let ghost d = dims(sorted@);
    let mut size: u32 = 16;
    let ghost mut k: nat = 0;
    loop
        invariant
            d == dims(sorted@),
            sorted@ == sort_by_height(sprites@),
            k < 8,
            size == atlas_sides()[k as int],
            first_fit(d, 0) == first_fit(d, k),
            first_fit(d, k) is Some,
        decreases 8 - k,
    {
        if let Some(frames) = try_pack_shelf(sorted.as_slice(), size) {
            return (size, sorted, frames);
        }
        proof {
            k = k + 1;
        }
        size = size * 2;
    }
}

/// The animations as names.
pub open spec fn animations_view(a: Seq<(String, Vec<String>)>) -> Seq<(Seq<char>, Seq<Seq<char>>)> {
    a.map_values(|e: (String, Vec<String>)| animation_view(e))
}

/// Packs the sprites as `pack_atlas` does and records the animations and the
/// frames beside them. The side is one of `atlas_sides`, every frame lies
/// inside the atlas and no two overlap, and when every frame name of the
/// animations names one of the sprites, each such name has a frame.
pub fn assemble_atlas<P>(sprites: Vec<Sprite<P>>, animations: Vec<(String, Vec<String>)>) -> (res: (
    u32,
    Vec<Sprite<P>>,
    AtlasMeta,
))
    requires
        atlas_side_for(sprites@) is Some,
    ensures
        res.0 == atlas_side_for(sprites@).unwrap(),
        atlas_sides().contains(res.0),
        res.1@ == sort_by_height(sprites@),
        res.2.animations@ == animations@,
        frames_match(res.2.frames@, res.1@, pack_positions(dims(res.1@), res.0 as int).unwrap()),
        sound_layout(res.2.frames@, res.0 as int),
        animations_named(animations_view(animations@), sprite_name_seq(sprites@)) ==> forall|a: int, k: int|
            0 <= a < animations@.len() && 0 <= k < animations_view(animations@)[a].1.len()
                ==> res.2.frames_map().dom().contains(#[trigger] animations_view(animations@)[a].1[k]),
{
    let ghost orig = sprites@;
    let (side, sorted, frames) = pack_atlas(sprites);
    let meta = AtlasMeta { animations, frames };
    proof {
        let d = dims(sort_by_height(orig));
        let k = first_fit(d, 0).unwrap();
        lemma_first_fit_smallest(d, 0);
        assert(atlas_sides()[k as int] == side);
        if animations_named(animations_view(meta.animations@), sprite_name_seq(orig)) {
            lemma_animation_frames_in_atlas(orig, meta, pack_positions(dims(sorted@), side as int).unwrap());
        }
    }
    (side, sorted, meta)
}

/// The sprites made from planned frames and their images: each keeps the
/// frame's name and duration and takes the image with its width and height.
pub open spec fn frame_sprites<P>(planned: Seq<FrameSprite>, images: Seq<(P, u32, u32)>) -> Seq<Sprite<P>> {
    Seq::new(
        planned.len(),
        |i: int|
            Sprite {
                pixmap: images[i].0,
                name: planned[i].name,
                width: images[i].1,
                height: images[i].2,
                duration: planned[i].duration,
            },
    )
}

/// Appends to `sprites` one sprite for each planned frame, made from the
/// image drawn for it, in order.
pub fn add_frame_sprites<P>(planned: Vec<FrameSprite>, images: Vec<(P, u32, u32)>, sprites: &mut Vec<Sprite<P>>)
    requires
        images@.len() == planned@.len(),
    ensures
        final(sprites)@ == old(sprites)@ + frame_sprites(planned@, images@),
{
    let ghost p0 = planned@;
    let ghost i0 = images@;
    let ghost s0 = sprites@;
    let mut planned = planned;
    let mut images = images;
    let n = planned.len();
    let mut i: usize = 0;
    while i < n
        invariant
            n == p0.len(),
            i0.len() == n,
            i <= n,
            planned@ == p0.subrange(i as int, n as int),
            images@ == i0.subrange(i as int, n as int),
            sprites@ == s0 + frame_sprites(p0, i0).subrange(0, i as int),
        decreases n - i,
    {
        let f = planned.remove(0);
        let (pixmap, width, height) = images.remove(0);
        sprites.push(Sprite { pixmap, name: f.name, width, height, duration: f.duration });
        proof {
            assert(planned@ =~= p0.subrange(i + 1, n as int));
            assert(images@ =~= i0.subrange(i + 1, n as int));
            assert(frame_sprites(p0, i0).subrange(0, i + 1) =~= frame_sprites(p0, i0).subrange(
                0,
                i as int,
            ).push(frame_sprites(p0, i0)[i as int]));
        }
        i = i + 1;
    }
    assert(frame_sprites(p0, i0).subrange(0, n as int) =~= frame_sprites(p0, i0));
}

/// Reading one more Aseprite file keeps every frame name of the animations
/// naming a sprite: when that holds of the animations and sprites read so
/// far, it holds after `ase_read_sprites` plans the file's frames and
/// animations and `add_frame_sprites` makes a sprite of each planned frame.
pub proof fn lemma_reading_keeps_animations_named<P>(
    anims: Seq<(String, Vec<String>)>,
    sprites: Seq<Sprite<P>>,
    name: Seq<char>,
    durations: Seq<u32>,
    tags: Seq<AseTag>,
    planned: Seq<FrameSprite>,
    images: Seq<(P, u32, u32)>,
    new_anims: Seq<(String, Vec<String>)>,
)
    requires
        animations_named(animations_view(anims), sprite_name_seq(sprites)),
        planned.map_values(|f: FrameSprite| f@) == ase_sprites(name, durations, tags),
        animations_view(new_anims) == animations_view(anims) + ase_animations(name, durations, tags),
        images.len() == planned.len(),
    ensures
        animations_named(
            animations_view(new_anims),
            sprite_name_seq(sprites + frame_sprites(planned, images)),
        ),
{
    let old_names = sprite_name_seq(sprites);
    let file_names = sprite_names(ase_sprites(name, durations, tags));
    let all = sprite_name_seq(sprites + frame_sprites(planned, images));
    assert forall|i: int| 0 <= i < file_names.len() implies #[trigger] file_names[i] == all[old_names.len() + i] by {
        assert(planned.map_values(|f: FrameSprite| f@)[i] == planned[i]@);
    }
    lemma_animations_name_sprites(name, durations, tags);
    let olda = animations_view(anims);
    let filea = ase_animations(name, durations, tags);
    let newa = animations_view(new_anims);
    assert forall|a: int, k: int| 0 <= a < newa.len() && 0 <= k < newa[a].1.len() implies all.contains(
        #[trigger] newa[a].1[k],
    ) by {
        if a < olda.len() {
            assert(newa[a] == olda[a]);
            assert(old_names.contains(olda[a].1[k]));
            let i = choose|i: int| 0 <= i < old_names.len() && old_names[i] == olda[a].1[k];
            assert(all[i] == old_names[i]);
        } else {
            assert(newa[a] == filea[a - olda.len()]);
            assert(file_names.contains(filea[a - olda.len()].1[k]));
            let i = choose|i: int| 0 <= i < file_names.len() && file_names[i] == filea[a - olda.len()].1[k];
            assert(all[old_names.len() + i] == file_names[i]);
        }
    }
}

/// Names of a sequence of sprites.
pub open spec fn sprite_name_seq<P>(s: Seq<Sprite<P>>) -> Seq<Seq<char>> {
    s.map_values(|sp: Sprite<P>| sp.name@)
}

/// When every frame name of the animations names one of the sprites, then
/// once the sprites are packed every such name has a frame in the atlas.
pub proof fn lemma_animation_frames_in_atlas<P>(
    sprites: Seq<Sprite<P>>,
    meta: AtlasMeta,
    pos: Seq<(int, int)>,
)
    requires
        animations_named(
            meta.animations@.map_values(|a: (String, Vec<String>)| animation_view(a)),
            sprite_name_seq(sprites),
        ),
        frames_match(meta.frames@, sort_by_height(sprites), pos),
    ensures
        ({
            let anims = meta.animations@.map_values(|a: (String, Vec<String>)| animation_view(a));
            forall|a: int, k: int|
                0 <= a < anims.len() && 0 <= k < anims[a].1.len() ==> meta.frames_map().dom().contains(
                    #[trigger] anims[a].1[k],
                )
        }),
{
    broadcast use vstd::seq_lib::group_to_multiset_ensures;

    let anims = meta.animations@.map_values(|a: (String, Vec<String>)| animation_view(a));
    let sorted = sort_by_height(sprites);
    lemma_sort_permutes(sprites);
    assert forall|a: int, k: int| 0 <= a < anims.len() && 0 <= k < anims[a].1.len() implies meta.frames_map().dom().contains(
        #[trigger] anims[a].1[k],
    ) by {
        let n = anims[a].1[k];
        assert(sprite_name_seq(sprites).contains(n));
        let i = choose|i: int| 0 <= i < sprite_name_seq(sprites).len() && sprite_name_seq(sprites)[i] == n;
        assert(sprites.contains(sprites[i]));
        assert(sprites.to_multiset().count(sprites[i]) > 0);
        assert(sorted.contains(sprites[i]));
        let j = choose|j: int| 0 <= j < sorted.len() && sorted[j] == sprites[i];
        assert(meta.frames@[j].0@ == n);
        assert(frame_entries(meta.frames@)[j].0 == n);
        lemma_named_map_dom(frame_entries(meta.frames@), n);
    }
}

} // verus!
