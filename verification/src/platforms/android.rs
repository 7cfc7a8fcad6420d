//! Android: the shared atlases under `android/assets`, the string resources
//! and the launcher icons under `android/res`.

use vstd::prelude::*;

use crate::context::Context;
use crate::paths::{join, join_spec};
use crate::platforms::common::{common_plan, lemma_common_plan_len, SpriteDir};
use crate::task::{grown_by, paths_view, plan_view, Action, Task};

verus! {

/// Number of screen densities that icons are made for.
pub const DENSITY_COUNT: usize = 5;

/// Size in density-independent pixels of an adaptive icon layer.
pub const ADAPTIVE_ICON_DP: u32 = 108;

/// Size in density-independent pixels of a legacy icon.
pub const LEGACY_ICON_DP: u32 = 48;

/// Names of the screen densities, lowest first.
pub open spec fn density_names() -> Seq<Seq<char>> {
    seq!["mdpi"@, "hdpi"@, "xhdpi"@, "xxhdpi"@, "xxxhdpi"@]
}

/// Scale of each density in halves: 1, 1.5, 2, 3 and 4.
pub open spec fn density_halves() -> Seq<u32> {
    seq![2u32, 3, 4, 6, 8]
}

/// The name of density `k` and its scale in halves.
pub fn density(k: usize) -> (res: (&'static str, u32))
    requires
        k < DENSITY_COUNT,
    ensures
        res.0@ == density_names()[k as int],
        res.1 == density_halves()[k as int],
{
    match k {
        0 => ("mdpi", 2),
        1 => ("hdpi", 3),
        2 => ("xhdpi", 4),
        3 => ("xxhdpi", 6),
        _ => ("xxxhdpi", 8),
    }
}

/// Pixel size of a `dp`-sized image at a density whose scale is `halves`
/// halves: the scaled size, which is whole for the sizes used here.
pub open spec fn scaled_px(dp: u32, halves: u32) -> int {
    dp * halves / 2
}

/// Pixel sizes at density `k` of the adaptive icon layers and of the legacy
/// icon.
pub fn icon_px(k: usize) -> (res: (u32, u32))
    requires
        k < DENSITY_COUNT,
    ensures
        res.0 == scaled_px(ADAPTIVE_ICON_DP, density_halves()[k as int]),
        res.1 == scaled_px(LEGACY_ICON_DP, density_halves()[k as int]),
{
    let (_, halves) = density(k);
    (ADAPTIVE_ICON_DP * halves / 2, LEGACY_ICON_DP * halves / 2)
}

/// `android/assets` under `output`.
pub open spec fn assets_spec(output: Seq<char>) -> Seq<char> {
    join_spec(join_spec(output, "android"@), "assets"@)
}

/// `android/res` under `output`.
pub open spec fn res_spec(output: Seq<char>) -> Seq<char> {
    join_spec(join_spec(output, "android"@), "res"@)
}

/// The icon image `name` under the resource directory `input`.
pub open spec fn art_spec(input: Seq<char>, name: Seq<char>) -> Seq<char> {
    join_spec(join_spec(input, "art"@), name)
}

/// `mipmap-<density>` for density `k` under `res`.
pub open spec fn mipmap_spec(res: Seq<char>, k: int) -> Seq<char> {
    join_spec(res, "mipmap-"@ + density_names()[k])
}

/// The icon files written for each density: background, foreground, legacy.
pub open spec fn icon_file(j: int) -> Seq<char> {
    if j == 0 {
        "ic_launcher_background.png"@
    } else if j == 1 {
        "ic_launcher_foreground.png"@
    } else {
        "ic_launcher.png"@
    }
}

/// Everything the icon task writes: three files per density, then the two
/// adaptive icon descriptions.
pub open spec fn icon_outputs(res: Seq<char>) -> Seq<Seq<char>> {
    Seq::new(15, |i: int| join_spec(mipmap_spec(res, i / 3), icon_file(i % 3))) + seq![
        join_spec(join_spec(res, "mipmap-anydpi-v26"@), "ic_launcher.xml"@),
        join_spec(join_spec(res, "mipmap-anydpi-v26"@), "ic_launcher_round.xml"@),
    ]
}

/// The string resources task: no input, `values/strings.xml` as output.
pub open spec fn values_plan(output: Seq<char>) -> (Action, Seq<Seq<char>>, Seq<Seq<char>>) {
    (
        Action::AndroidValues,
        Seq::empty(),
        seq![join_spec(join_spec(res_spec(output), "values"@), "strings.xml"@)],
    )
}

/// The icon task: the icon background and foreground as inputs.
pub open spec fn icons_plan(input: Seq<char>, output: Seq<char>) -> (
    Action,
    Seq<Seq<char>>,
    Seq<Seq<char>>,
) {
    (
        Action::AndroidIcons,
        seq![art_spec(input, "icon-background.svg"@), art_spec(input, "icon-foreground.svg"@)],
        icon_outputs(res_spec(output)),
    )
}

/// Android's tasks: the atlases, the string resources, the icons.
pub open spec fn android_plan(input: Seq<char>, output: Seq<char>, dirs: Seq<SpriteDir>) -> Seq<
    (Action, Seq<Seq<char>>, Seq<Seq<char>>),
> {
    common_plan(assets_spec(output), dirs) + seq![values_plan(output), icons_plan(input, output)]
}

/// The launcher icons are drawn from `art/icon-background.svg` and
/// `art/icon-foreground.svg` under the resource directory, in that order.
/// They are written, for mdpi, hdpi, xhdpi, xxhdpi and xxxhdpi in turn, as
/// the background, foreground and legacy icon under
/// `android/res/mipmap-<density>`, then as the two adaptive icon
/// descriptions under `android/res/mipmap-anydpi-v26`. At those densities
/// the adaptive layers are 108, 162, 216, 324 and 432 pixels and the legacy
/// icon 48, 72, 96, 144 and 192 pixels a side.
pub proof fn lemma_android_icons(input: Seq<char>, output: Seq<char>)
    ensures
        icons_plan(input, output).0 == Action::AndroidIcons,
        icons_plan(input, output).1 == seq![
            join_spec(join_spec(input, "art"@), "icon-background.svg"@),
            join_spec(join_spec(input, "art"@), "icon-foreground.svg"@),
        ],
        icons_plan(input, output).2.len() == 17,
        forall|i: int|
            0 <= i < 15 ==> #[trigger] icons_plan(input, output).2[i] == join_spec(
                join_spec(
                    join_spec(join_spec(output, "android"@), "res"@),
                    "mipmap-"@ + seq!["mdpi"@, "hdpi"@, "xhdpi"@, "xxhdpi"@, "xxxhdpi"@][i / 3],
                ),
                seq![
                    "ic_launcher_background.png"@,
                    "ic_launcher_foreground.png"@,
                    "ic_launcher.png"@,
                ][i % 3],
            ),
        icons_plan(input, output).2[15] == join_spec(
            join_spec(join_spec(join_spec(output, "android"@), "res"@), "mipmap-anydpi-v26"@),
            "ic_launcher.xml"@,
        ),
        icons_plan(input, output).2[16] == join_spec(
            join_spec(join_spec(join_spec(output, "android"@), "res"@), "mipmap-anydpi-v26"@),
            "ic_launcher_round.xml"@,
        ),
        forall|k: int|
            0 <= k < 5 ==> scaled_px(ADAPTIVE_ICON_DP, #[trigger] density_halves()[k]) == seq![
                108int,
                162,
                216,
                324,
                432,
            ][k] && scaled_px(LEGACY_ICON_DP, density_halves()[k]) == seq![48int, 72, 96, 144, 192][k],
{
    let out = icons_plan(input, output).2;
    assert forall|i: int| 0 <= i < 15 implies #[trigger] out[i] == join_spec(
        join_spec(
            join_spec(join_spec(output, "android"@), "res"@),
            "mipmap-"@ + seq!["mdpi"@, "hdpi"@, "xhdpi"@, "xxhdpi"@, "xxxhdpi"@][i / 3],
        ),
        seq!["ic_launcher_background.png"@, "ic_launcher_foreground.png"@, "ic_launcher.png"@][i
            % 3],
    ) by {
        assert(0 <= i % 3 < 3);
    }
    assert forall|k: int| 0 <= k < 5 implies scaled_px(ADAPTIVE_ICON_DP, #[trigger] density_halves()[k])
        == seq![108int, 162, 216, 324, 432][k] && scaled_px(LEGACY_ICON_DP, density_halves()[k])
        == seq![48int, 72, 96, 144, 192][k] by {
        if k == 0 {
        } else if k == 1 {
        } else if k == 2 {
        } else if k == 3 {
        } else {
        }
    }
}

/// `android/assets` under the output directory.
pub fn assets_dir(ctx: &Context) -> (res: String)
    ensures
        res@ == assets_spec(ctx.output@),
{
    join(join(ctx.output.as_str(), "android").as_str(), "assets")
}

/// `android/res` under the output directory.
pub fn res_dir(ctx: &Context) -> (res: String)
    ensures
        res@ == res_spec(ctx.output@),
{
    join(join(ctx.output.as_str(), "android").as_str(), "res")
}

fn string_view_push(v: &mut Vec<String>, s: String)
    ensures
        paths_view(final(v)@) == paths_view(old(v)@).push(s@),
{
    let ghost before = v@;
    v.push(s);
    assert(paths_view(v@) =~= paths_view(before).push(s@));
}

/// The string resources task.
fn values_task(ctx: &Context) -> (res: Task)
    ensures
        res@ == values_plan(ctx.output@),
{
    let res_dir = res_dir(ctx);
    let values = join(res_dir.as_str(), "values");
    let mut outputs: Vec<String> = Vec::new();
    string_view_push(&mut outputs, join(values.as_str(), "strings.xml"));
    let task = Task::new(Action::AndroidValues, Vec::new(), outputs);
    assert(paths_view(task.inputs@) =~= Seq::<Seq<char>>::empty());
    assert(paths_view(task.outputs@) =~= values_plan(ctx.output@).2);
    task
}

/// The icon task.
fn icons_task(ctx: &Context) -> (res: Task)
    ensures
        res@ == icons_plan(ctx.input@, ctx.output@),
{
    let art = join(ctx.input.as_str(), "art");
    let mut inputs: Vec<String> = Vec::new();
    string_view_push(&mut inputs, join(art.as_str(), "icon-background.svg"));
    string_view_push(&mut inputs, join(art.as_str(), "icon-foreground.svg"));
    let res = res_dir(ctx);
    let ghost expected = icon_outputs(res@);
    let mut outputs: Vec<String> = Vec::new();
    for k in 0..DENSITY_COUNT
        invariant
            expected == icon_outputs(res@),
            paths_view(outputs@) =~= expected.subrange(0, 3 * k),
    {
        let (name, _) = density(k);
        let mut dir_name = String::from_str("mipmap-");
        dir_name.append(name);
        let dir = join(res.as_str(), dir_name.as_str());
        proof {
            assert(dir@ == mipmap_spec(res@, k as int));
            assert(expected[3 * k] == join_spec(dir@, icon_file(0)));
            assert(expected[3 * k + 1] == join_spec(dir@, icon_file(1)));
            assert(expected[3 * k + 2] == join_spec(dir@, icon_file(2)));
        }
        string_view_push(&mut outputs, join(dir.as_str(), "ic_launcher_background.png"));
        string_view_push(&mut outputs, join(dir.as_str(), "ic_launcher_foreground.png"));
        string_view_push(&mut outputs, join(dir.as_str(), "ic_launcher.png"));
        assert(paths_view(outputs@) =~= expected.subrange(0, 3 * k + 3));
    }
    let anydpi = join(res.as_str(), "mipmap-anydpi-v26");
    string_view_push(&mut outputs, join(anydpi.as_str(), "ic_launcher.xml"));
    string_view_push(&mut outputs, join(anydpi.as_str(), "ic_launcher_round.xml"));
    assert(paths_view(outputs@) =~= expected);
    let task = Task::new(Action::AndroidIcons, inputs, outputs);
    assert(paths_view(task.inputs@) =~= icons_plan(ctx.input@, ctx.output@).1);
    task
}

/// Android's tasks, in order.
pub fn tasks(ctx: &Context, dirs: &[SpriteDir]) -> (res: Vec<Task>)
    ensures
        plan_view(res@) == android_plan(ctx.input@, ctx.output@, dirs@),
{
    let assets = assets_dir(ctx);
    let mut res = crate::platforms::common::common_tasks(assets.as_str(), dirs);
    let ghost common = res@;
    res.push(values_task(ctx));
    res.push(icons_task(ctx));
    assert(res@ =~= common.push(res@[common.len() as int]).push(res@[common.len() + 1int]));
    assert(plan_view(res@) =~= android_plan(ctx.input@, ctx.output@, dirs@));
    res
}

/// Adds Android's tasks to the context.
pub fn add_tasks(ctx: &mut Context, dirs: &[SpriteDir])
    requires
        old(ctx).task_store.wf(),
        old(ctx).task_store@.len() + dirs@.len() + 2 <= usize::MAX,
    ensures
        final(ctx).task_store.wf(),
        final(ctx).input == old(ctx).input,
        final(ctx).output == old(ctx).output,
        grown_by(
            old(ctx).task_store@,
            final(ctx).task_store@,
            android_plan(old(ctx).input@, old(ctx).output@, dirs@),
        ),
{
    let plan = tasks(ctx, dirs);
    proof {
        lemma_common_plan_len(assets_spec(ctx.output@), dirs@);
        assert(plan@.len() == plan_view(plan@).len());
    }
    ctx.task_store.add_all(&plan);
}

} // verus!
