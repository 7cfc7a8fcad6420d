//! Names of the sprites and animations that an Aseprite file gives: a file
//! without tags makes one animation named after the file with a sprite per
//! frame; a file with tags makes one animation per tag.

use vstd::prelude::*;

use crate::paths::{extension, extension_spec, file_stem, file_stem_spec};

verus! {

/// The decimal digits.
pub open spec fn digits() -> Seq<char> {
    seq!['0', '1', '2', '3', '4', '5', '6', '7', '8', '9']
}

/// The decimal notation of `n`, without leading zeros.
pub open spec fn decimal_spec(n: nat) -> Seq<char>
    decreases n,
{
    if n < 10 {
        seq![digits()[n as int]]
    } else {
        decimal_spec(n / 10).push(digits()[(n % 10) as int])
    }
}

/// The value of a decimal digit character.
pub open spec fn digit_value(c: char) -> int {
    c as int - '0' as int
}

/// The number that a string of decimal digits writes.
pub open spec fn decimal_value(s: Seq<char>) -> int
    decreases s.len(),
{
    if s.len() == 0 {
        0
    } else {
        decimal_value(s.drop_last()) * 10 + digit_value(s.last())
    }
}

/// `decimal_spec(n)` is the decimal notation of `n`: a non-empty string of
/// characters `0` to `9` that writes `n`, with no leading zero unless `n` is
/// zero.
pub proof fn lemma_decimal_writes(n: nat)
    ensures
        decimal_spec(n).len() > 0,
        forall|k: int| 0 <= k < decimal_spec(n).len() ==> '0' <= #[trigger] decimal_spec(n)[k] <= '9',
        decimal_value(decimal_spec(n)) == n,
        decimal_spec(n)[0] == '0' ==> n == 0,
    decreases n,
{
    let d = decimal_spec(n);
    if n < 10 {
        assert(d.drop_last() =~= Seq::<char>::empty());
        assert(decimal_value(d.drop_last()) == 0);
        assert(decimal_value(d) == digit_value(d[0]));
        if n == 0 {} else if n == 1 {} else if n == 2 {} else if n == 3 {} else if n == 4 {}
        else if n == 5 {} else if n == 6 {} else if n == 7 {} else if n == 8 {} else {}
    } else {
        lemma_decimal_writes(n / 10);
        let p = decimal_spec(n / 10);
        let r = (n % 10) as int;
        assert(d == p.push(digits()[r]));
        assert(d.drop_last() =~= p);
        assert(d[0] == p[0]);
        assert(n / 10 > 0);
        if r == 0 {} else if r == 1 {} else if r == 2 {} else if r == 3 {} else if r == 4 {}
        else if r == 5 {} else if r == 6 {} else if r == 7 {} else if r == 8 {} else {}
        assert(decimal_value(d) == (n / 10) * 10 + r);
        assert(n == (n / 10) * 10 + n % 10);
        assert forall|k: int| 0 <= k < d.len() implies '0' <= #[trigger] d[k] <= '9' by {
            if k < p.len() {
                assert(d[k] == p[k]);
            }
        }
    }
}

/// Different numbers have different decimal notations.
pub proof fn lemma_decimal_distinct(a: nat, b: nat)
    requires
        a != b,
    ensures
        decimal_spec(a) != decimal_spec(b),
{
    lemma_decimal_writes(a);
    lemma_decimal_writes(b);
}

fn digit_str(d: usize) -> (s: &'static str)
    requires
        d < 10,
    ensures
        s@ == seq![digits()[d as int]],
{
    proof {
        reveal_strlit("0");
        reveal_strlit("1");
        reveal_strlit("2");
        reveal_strlit("3");
        reveal_strlit("4");
        reveal_strlit("5");
        reveal_strlit("6");
        reveal_strlit("7");
        reveal_strlit("8");
        reveal_strlit("9");
    }
    let s = match d {
        0 => "0",
        1 => "1",
        2 => "2",
        3 => "3",
        4 => "4",
        5 => "5",
        6 => "6",
        7 => "7",
        8 => "8",
        _ => "9",
    };
    assert(s@ =~= seq![digits()[d as int]]);
    s
}

/// The decimal notation of `n`, as `format!("{n}")` writes it.
pub fn decimal(n: usize) -> (s: String)
    ensures
        s@ == decimal_spec(n as nat),
    decreases n,
{
    if n < 10 {
        String::from_str(digit_str(n))
    } else {
        let mut s = decimal(n / 10);
        s.append(digit_str(n % 10));
        s
    }
}

/// `a`, a dash and `b`.
pub open spec fn dashed(a: Seq<char>, b: Seq<char>) -> Seq<char> {
    a + seq!['-'] + b
}

fn append_dashed(s: &mut String, b: &str)
    ensures
        final(s)@ == dashed(old(s)@, b@),
{
    let dash = "-";
    proof {
        reveal_strlit("-");
    }
    s.append(dash);
    s.append(b);
}

/// A tag of an Aseprite file: a name and the range of frames it covers, both
/// ends included.
pub struct AseTag {
    pub name: String,
    pub from_frame: usize,
    pub to_frame: usize,
}

/// A frame of an Aseprite file to turn into a sprite: which frame, under which
/// name, and for how long it shows.
pub struct FrameSprite {
    pub frame_index: usize,
    pub name: String,
    pub duration: u32,
}

impl View for FrameSprite {
    type V = (usize, Seq<char>, u32);

    open spec fn view(&self) -> (usize, Seq<char>, u32) {
        (self.frame_index, self.name@, self.duration)
    }
}

/// An animation as names: its own and those of its frames.
pub open spec fn animation_view(a: (String, Vec<String>)) -> (Seq<char>, Seq<Seq<char>>) {
    (a.0@, a.1@.map_values(|s: String| s@))
}

/// Number of frames a tag covers.
pub open spec fn tag_len(t: AseTag) -> int {
    if t.from_frame <= t.to_frame {
        t.to_frame - t.from_frame + 1
    } else {
        0
    }
}

/// Sprites of a file without tags: `name-i` for frame `i`.
pub open spec fn untagged_sprites(name: Seq<char>, durations: Seq<u32>) -> Seq<(usize, Seq<char>, u32)> {
    Seq::new(
        durations.len(),
        |i: int| (i as usize, dashed(name, decimal_spec(i as nat)), durations[i]),
    )
}

/// Sprites of one tag: `name-tag-k` for the `k`-th frame of the tag.
pub open spec fn tag_sprites(name: Seq<char>, durations: Seq<u32>, t: AseTag) -> Seq<
    (usize, Seq<char>, u32),
> {
    Seq::new(
        tag_len(t) as nat,
        |k: int|
            (
                (t.from_frame + k) as usize,
                dashed(dashed(name, t.name@), decimal_spec(k as nat)),
                durations[t.from_frame + k],
            ),
    )
}

/// Sprites of the tags, one tag after the other.
pub open spec fn tagged_sprites(name: Seq<char>, durations: Seq<u32>, tags: Seq<AseTag>) -> Seq<
    (usize, Seq<char>, u32),
>
    decreases tags.len(),
{
    if tags.len() == 0 {
        Seq::empty()
    } else {
        tagged_sprites(name, durations, tags.drop_last()) + tag_sprites(name, durations, tags.last())
    }
}

/// Names of a sequence of sprites.
pub open spec fn sprite_names(s: Seq<(usize, Seq<char>, u32)>) -> Seq<Seq<char>> {
    s.map_values(|f: (usize, Seq<char>, u32)| f.1)
}

/// The sprites that a file with these frame durations and tags gives.
pub open spec fn ase_sprites(name: Seq<char>, durations: Seq<u32>, tags: Seq<AseTag>) -> Seq<
    (usize, Seq<char>, u32),
> {
    if tags.len() == 0 {
        untagged_sprites(name, durations)
    } else {
        tagged_sprites(name, durations, tags)
    }
}

/// The animations that a file with these frame durations and tags gives:
/// one named after the file, or one per tag named `name-tag`.
pub open spec fn ase_animations(name: Seq<char>, durations: Seq<u32>, tags: Seq<AseTag>) -> Seq<
    (Seq<char>, Seq<Seq<char>>),
> {
    if tags.len() == 0 {
        seq![(name, sprite_names(untagged_sprites(name, durations)))]
    } else {
        Seq::new(
            tags.len(),
            |t: int|
                (
                    dashed(name, tags[t].name@),
                    sprite_names(tag_sprites(name, durations, tags[t])),
                ),
        )
    }
}

proof fn lemma_dashed_cancel(a: Seq<char>, b: Seq<char>, c: Seq<char>)
    requires
        dashed(a, b) == dashed(a, c),
    ensures
        b == c,
{
    let n: int = a.len() as int + 1;
    assert(dashed(a, b).subrange(n, dashed(a, b).len() as int) =~= b);
    assert(dashed(a, c).subrange(n, dashed(a, c).len() as int) =~= c);
}

/// In a file without tags, frame `i` becomes the sprite `name-i`, with `i`
/// in decimal, and showing as long as the frame; so no two frames share a
/// sprite name. Likewise the `k`-th frame of a tag becomes `name-tag-k`,
/// and no two frames of one tag share a name.
pub proof fn lemma_sprite_names_distinct(name: Seq<char>, durations: Seq<u32>, t: AseTag)
    ensures
        untagged_sprites(name, durations).len() == durations.len(),
        forall|i: int|
            0 <= i < durations.len() ==> #[trigger] untagged_sprites(name, durations)[i] == (
                i as usize,
                name + seq!['-'] + decimal_spec(i as nat),
                durations[i],
            ),
        forall|i: int, j: int|
            0 <= i < j < durations.len() ==> #[trigger] untagged_sprites(name, durations)[i].1
                != #[trigger] untagged_sprites(name, durations)[j].1,
        forall|i: int, j: int|
            0 <= i < j < tag_len(t) ==> #[trigger] tag_sprites(name, durations, t)[i].1
                != #[trigger] tag_sprites(name, durations, t)[j].1,
{
    assert forall|i: int, j: int| 0 <= i < j < durations.len() implies #[trigger] untagged_sprites(
        name,
        durations,
    )[i].1 != #[trigger] untagged_sprites(name, durations)[j].1 by {
        lemma_decimal_distinct(i as nat, j as nat);
        if untagged_sprites(name, durations)[i].1 == untagged_sprites(name, durations)[j].1 {
            lemma_dashed_cancel(name, decimal_spec(i as nat), decimal_spec(j as nat));
        }
    }
    assert forall|i: int, j: int| 0 <= i < j < tag_len(t) implies #[trigger] tag_sprites(
        name,
        durations,
        t,
    )[i].1 != #[trigger] tag_sprites(name, durations, t)[j].1 by {
        lemma_decimal_distinct(i as nat, j as nat);
        if tag_sprites(name, durations, t)[i].1 == tag_sprites(name, durations, t)[j].1 {
            lemma_dashed_cancel(dashed(name, t.name@), decimal_spec(i as nat), decimal_spec(j as nat));
        }
    }
}

/// A tag covers its frames from `from_frame` to `to_frame`, both included,
/// and none when it ends before it starts. Its `k`-th frame becomes the
/// sprite `name-tag-k`, with `k` in decimal, showing as long as that frame.
/// A file without tags makes one animation, named after the file, of all
/// its sprites in frame order; a file with tags makes one animation per tag,
/// in tag order, named `name-tag`, of that tag's sprites.
pub proof fn lemma_tag_names(name: Seq<char>, durations: Seq<u32>, tags: Seq<AseTag>, t: AseTag)
    ensures
        tag_len(t) == if t.from_frame <= t.to_frame {
            t.to_frame - t.from_frame + 1
        } else {
            0
        },
        tag_sprites(name, durations, t).len() == tag_len(t),
        forall|k: int|
            0 <= k < tag_len(t) ==> #[trigger] tag_sprites(name, durations, t)[k] == (
                (t.from_frame + k) as usize,
                name + seq!['-'] + t.name@ + seq!['-'] + decimal_spec(k as nat),
                durations[t.from_frame + k],
            ),
        tags.len() == 0 ==> ase_animations(name, durations, tags) == seq![
            (name, Seq::new(durations.len(), |i: int| name + seq!['-'] + decimal_spec(i as nat))),
        ],
        tags.len() > 0 ==> ase_animations(name, durations, tags).len() == tags.len(),
        tags.len() > 0 ==> forall|i: int|
            0 <= i < tags.len() ==> #[trigger] ase_animations(name, durations, tags)[i] == (
                name + seq!['-'] + tags[i].name@,
                sprite_names(tag_sprites(name, durations, tags[i])),
            ),
{
    assert forall|k: int| 0 <= k < tag_len(t) implies #[trigger] tag_sprites(name, durations, t)[k] == (
        (t.from_frame + k) as usize,
        name + seq!['-'] + t.name@ + seq!['-'] + decimal_spec(k as nat),
        durations[t.from_frame + k],
    ) by {
        assert(dashed(dashed(name, t.name@), decimal_spec(k as nat)) =~= name + seq!['-'] + t.name@
            + seq!['-'] + decimal_spec(k as nat));
    }
    if tags.len() == 0 {
        assert(sprite_names(untagged_sprites(name, durations)) =~= Seq::new(
            durations.len(),
            |i: int| name + seq!['-'] + decimal_spec(i as nat),
        ));
    }
}

/// Every frame that a tag covers exists.
pub open spec fn tags_in_range(tags: Seq<AseTag>, frame_count: nat) -> bool {
    forall|t: int|
        0 <= t < tags.len() ==> #[trigger] tags[t].from_frame <= tags[t].to_frame ==> tags[t].to_frame
            < frame_count
}

proof fn lemma_push_sprite_view(s: Seq<FrameSprite>, x: FrameSprite)
    ensures
        s.push(x).map_values(|f: FrameSprite| f@) == s.map_values(|f: FrameSprite| f@).push(x@),
{
    assert(s.push(x).map_values(|f: FrameSprite| f@) =~= s.map_values(|f: FrameSprite| f@).push(
        x@,
    ));
}

proof fn lemma_push_name_view(s: Seq<String>, x: String)
    ensures
        s.push(x).map_values(|n: String| n@) == s.map_values(|n: String| n@).push(x@),
{
    assert(s.push(x).map_values(|n: String| n@) =~= s.map_values(|n: String| n@).push(x@));
}

proof fn lemma_push_animation_view(s: Seq<(String, Vec<String>)>, x: (String, Vec<String>))
    ensures
        s.push(x).map_values(|a: (String, Vec<String>)| animation_view(a)) == s.map_values(
            |a: (String, Vec<String>)| animation_view(a),
        ).push(animation_view(x)),
{
    assert(s.push(x).map_values(|a: (String, Vec<String>)| animation_view(a)) =~= s.map_values(
        |a: (String, Vec<String>)| animation_view(a),
    ).push(animation_view(x)));
}

proof fn lemma_names_push(s: Seq<(usize, Seq<char>, u32)>, k: int)
    requires
        0 <= k < s.len(),
    ensures
        sprite_names(s.subrange(0, k + 1)) == sprite_names(s.subrange(0, k)).push(s[k].1),
        s.subrange(0, k + 1) == s.subrange(0, k).push(s[k]),
{
    assert(s.subrange(0, k + 1) =~= s.subrange(0, k).push(s[k]));
    assert(sprite_names(s.subrange(0, k + 1)) =~= sprite_names(s.subrange(0, k)).push(s[k].1));
}

/// Appends to `sprites` the frames of an Aseprite file named `name`, whose
/// frames show for `durations` and which has the tags `tags`, under their
/// sprite names, and to `animations` the animations the file makes.
pub fn ase_read_sprites(
    name: &str,
    durations: &[u32],
    tags: &[AseTag],
    sprites: &mut Vec<FrameSprite>,
    animations: &mut Vec<(String, Vec<String>)>,
)
    requires
        tags_in_range(tags@, durations@.len()),
    ensures
        final(sprites)@.map_values(|f: FrameSprite| f@) == old(sprites)@.map_values(
            |f: FrameSprite| f@,
        ) + ase_sprites(name@, durations@, tags@),
        final(animations)@.map_values(|a: (String, Vec<String>)| animation_view(a)) == old(
            animations,
        )@.map_values(|a: (String, Vec<String>)| animation_view(a)) + ase_animations(
            name@,
            durations@,
            tags@,
        ),
{
    let ghost s0 = sprites@.map_values(|f: FrameSprite| f@);
    let ghost a0 = animations@.map_values(|a: (String, Vec<String>)| animation_view(a));
    if tags.len() == 0 {
        let mut animation: Vec<String> = Vec::new();
        let n = durations.len();
        for i in 0..n
            invariant
                n == durations@.len(),
                tags@.len() == 0,
                sprites@.map_values(|f: FrameSprite| f@) == s0 + untagged_sprites(
                    name@,
                    durations@,
                ).subrange(0, i as int),
                animation@.map_values(|s: String| s@) == sprite_names(
                    untagged_sprites(name@, durations@).subrange(0, i as int),
                ),
                animations@.map_values(|a: (String, Vec<String>)| animation_view(a)) == a0,
        {
            let mut frame_name = String::from_str(name);
            append_dashed(&mut frame_name, decimal(i).as_str());
            let ghost full = untagged_sprites(name@, durations@);
            proof {
                assert(full[i as int] == (i, frame_name@, durations@[i as int]));
            }
            let ghost prev_sprites = sprites@;
            let ghost prev_names = animation@;
            animation.push(frame_name.clone());
            let fs = FrameSprite { frame_index: i, name: frame_name, duration: durations[i] };
            proof {
                lemma_push_sprite_view(prev_sprites, fs);
                lemma_push_name_view(prev_names, animation@.last());
                lemma_names_push(full, i as int);
                assert(animation@ == prev_names.push(animation@.last()));
            }
            sprites.push(fs);
            assert(sprites@.map_values(|f: FrameSprite| f@) =~= s0 + full.subrange(0, i + 1));
        }
        let ghost full = untagged_sprites(name@, durations@);
        assert(full.subrange(0, n as int) =~= full);
        let entry = (String::from_str(name), animation);
        proof {
            lemma_push_animation_view(animations@, entry);
        }
        animations.push(entry);
        assert(animations@.map_values(|a: (String, Vec<String>)| animation_view(a)) =~= a0 + seq![
            (name@, sprite_names(full)),
        ]);
    } else {
        let nt = tags.len();
        for t in 0..nt
            invariant
                nt == tags@.len() > 0,
                tags_in_range(tags@, durations@.len()),
                sprites@.map_values(|f: FrameSprite| f@) == s0 + tagged_sprites(
                    name@,
                    durations@,
                    tags@.subrange(0, t as int),
                ),
                animations@.map_values(|a: (String, Vec<String>)| animation_view(a)) == a0
                    + ase_animations(name@, durations@, tags@).subrange(0, t as int),
        {
            let tag = &tags[t];
            let ghost ts = tag_sprites(name@, durations@, tags@[t as int]);
            let ghost before = sprites@.map_values(|f: FrameSprite| f@);
            let mut animation: Vec<String> = Vec::new();
            let mut prefix = String::from_str(name);
            append_dashed(&mut prefix, tag.name.as_str());
            if tag.from_frame <= tag.to_frame {
                assert(tags@[t as int].to_frame < durations@.len());
                let from = tag.from_frame;
                let to = tag.to_frame;
                assert(to < durations.len());
                let end = to + 1;
                for frame_index in from..end
                    invariant
                        t < tags@.len(),
                        end == to + 1,
                        from == tags@[t as int].from_frame,
                        to == tags@[t as int].to_frame < durations@.len(),
                        from <= to,
                        prefix@ == dashed(name@, tags@[t as int].name@),
                        ts == tag_sprites(name@, durations@, tags@[t as int]),
                        sprites@.map_values(|f: FrameSprite| f@) == before + ts.subrange(
                            0,
                            frame_index - from,
                        ),
                        animation@.map_values(|s: String| s@) == sprite_names(
                            ts.subrange(0, frame_index - from),
                        ),
                {
                    let mut frame_name = prefix.clone();
                    append_dashed(&mut frame_name, decimal(frame_index - from).as_str());
                    proof {
                        assert(ts[frame_index - from] == (
                            frame_index,
                            frame_name@,
                            durations@[frame_index as int],
                        ));
                    }
                    let ghost prev_sprites = sprites@;
                    let ghost prev_names = animation@;
                    animation.push(frame_name.clone());
                    let fs = FrameSprite {
                        frame_index,
                        name: frame_name,
                        duration: durations[frame_index],
                    };
                    proof {
                        lemma_push_sprite_view(prev_sprites, fs);
                        lemma_push_name_view(prev_names, animation@.last());
                        lemma_names_push(ts, frame_index - from);
                        assert(animation@ == prev_names.push(animation@.last()));
                    }
                    sprites.push(fs);
                    assert(sprites@.map_values(|f: FrameSprite| f@) =~= before + ts.subrange(
                        0,
                        frame_index + 1 - from,
                    ));
                }
                assert(ts.subrange(0, to + 1 - from) =~= ts);
            } else {
                assert(ts =~= Seq::<(usize, Seq<char>, u32)>::empty());
                assert(sprites@.map_values(|f: FrameSprite| f@) =~= before + ts);
                assert(animation@.map_values(|s: String| s@) =~= sprite_names(ts));
            }
            let ghost prev_anims = animations@;
            let entry = (prefix, animation);
            proof {
                lemma_push_animation_view(prev_anims, entry);
            }
            animations.push(entry);
            proof {
                assert(tags@.subrange(0, t + 1).drop_last() =~= tags@.subrange(0, t as int));
                assert(tags@.subrange(0, t + 1).last() == tags@[t as int]);
                assert(sprites@.map_values(|f: FrameSprite| f@) =~= s0 + tagged_sprites(
                    name@,
                    durations@,
                    tags@.subrange(0, t + 1),
                ));
                assert(animations@.map_values(|a: (String, Vec<String>)| animation_view(a))
                    =~= a0 + ase_animations(name@, durations@, tags@).subrange(0, t + 1));
            }
        }
        assert(tags@.subrange(0, nt as int) =~= tags@);
        assert(ase_animations(name@, durations@, tags@).subrange(0, nt as int) =~= ase_animations(
            name@,
            durations@,
            tags@,
        ));
    }
}

/// Whether `path` names an Aseprite file: its extension is `ase` or
/// `aseprite`.
pub fn is_aseprite_file(path: &str) -> (res: bool)
    ensures
        res == (extension_spec(path@) == Some(seq!['a', 's', 'e']) || extension_spec(path@) == Some(
            seq!['a', 's', 'e', 'p', 'r', 'i', 't', 'e'],
        )),
{
    match extension(path) {
        Some(ext) => {
            let short = String::from_str("ase");
            let long = String::from_str("aseprite");
            proof {
                reveal_strlit("ase");
                reveal_strlit("aseprite");
                assert(short@ =~= seq!['a', 's', 'e']);
                assert(long@ =~= seq!['a', 's', 'e', 'p', 'r', 'i', 't', 'e']);
            }
            ext == short || ext == long
        },
        None => false,
    }
}

/// The name of the sprites of the file at `path`: the stem of its file name,
/// or nothing when it has none.
pub fn sprite_name(path: &str) -> (res: String)
    ensures
        res@ == match file_stem_spec(path@) {
            Some(stem) => stem,
            None => Seq::<char>::empty(),
        },
{
    match file_stem(path) {
        Some(stem) => stem,
        None => String::new(),
    }
}

/// Every frame name of every animation is among `names`.
pub open spec fn animations_named(
    anims: Seq<(Seq<char>, Seq<Seq<char>>)>,
    names: Seq<Seq<char>>,
) -> bool {
    forall|a: int, k: int|
        0 <= a < anims.len() && 0 <= k < anims[a].1.len() ==> names.contains(
            #[trigger] anims[a].1[k],
        )
}

proof fn lemma_names_concat(a: Seq<(usize, Seq<char>, u32)>, b: Seq<(usize, Seq<char>, u32)>)
    ensures
        sprite_names(a + b) == sprite_names(a) + sprite_names(b),
{
    assert(sprite_names(a + b) =~= sprite_names(a) + sprite_names(b));
}

proof fn lemma_tag_names_within(name: Seq<char>, durations: Seq<u32>, tags: Seq<AseTag>, t: int)
    requires
        0 <= t < tags.len(),
    ensures
        forall|k: int|
            0 <= k < sprite_names(tag_sprites(name, durations, tags[t])).len() ==> sprite_names(
                tagged_sprites(name, durations, tags),
            ).contains(#[trigger] sprite_names(tag_sprites(name, durations, tags[t]))[k]),
    decreases tags.len(),
{
    let pre = tagged_sprites(name, durations, tags.drop_last());
    let last = tag_sprites(name, durations, tags.last());
    lemma_names_concat(pre, last);
    let all = sprite_names(tagged_sprites(name, durations, tags));
    assert(all == sprite_names(pre) + sprite_names(last));
    let mine = sprite_names(tag_sprites(name, durations, tags[t]));
    if t == tags.len() - 1 {
        assert forall|k: int| 0 <= k < mine.len() implies all.contains(#[trigger] mine[k]) by {
            assert(all[sprite_names(pre).len() + k] == mine[k]);
        }
    } else {
        lemma_tag_names_within(name, durations, tags.drop_last(), t);
        assert(tags.drop_last()[t] == tags[t]);
        assert forall|k: int| 0 <= k < mine.len() implies all.contains(#[trigger] mine[k]) by {
            assert(sprite_names(pre).contains(mine[k]));
            let i = choose|i: int| 0 <= i < sprite_names(pre).len() && sprite_names(pre)[i] == mine[k];
            assert(all[i] == mine[k]);
        }
    }
}

/// Every frame name of every animation that a file makes names one of the
/// sprites the file makes.
pub proof fn lemma_animations_name_sprites(name: Seq<char>, durations: Seq<u32>, tags: Seq<AseTag>)
    ensures
        animations_named(
            ase_animations(name, durations, tags),
            sprite_names(ase_sprites(name, durations, tags)),
        ),
{
    let anims = ase_animations(name, durations, tags);
    let names = sprite_names(ase_sprites(name, durations, tags));
    if tags.len() == 0 {
        assert forall|a: int, k: int| 0 <= a < anims.len() && 0 <= k < anims[a].1.len() implies names.contains(
            #[trigger] anims[a].1[k],
        ) by {
            assert(names[k] == anims[a].1[k]);
        }
    } else {
        assert forall|a: int, k: int| 0 <= a < anims.len() && 0 <= k < anims[a].1.len() implies names.contains(
            #[trigger] anims[a].1[k],
        ) by {
            lemma_tag_names_within(name, durations, tags, a);
            assert(anims[a].1 == sprite_names(tag_sprites(name, durations, tags[a])));
        }
    }
}

} // verus!
