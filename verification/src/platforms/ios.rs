//! iOS: the app icon under `ios/Assets.xcassets/AppIcon.appiconset`.

use vstd::prelude::*;

use crate::context::Context;
use crate::paths::{join, join_spec};
use crate::platforms::android::{art_spec, icons_plan};
use crate::task::{grown_by, paths_view, plan_view, Action, Task};

verus! {

/// Side in pixels of the iOS app icon.
pub const IOS_ICON_PX: u32 = 1024;

/// `ios/Assets.xcassets/AppIcon.appiconset` under `output`.
pub open spec fn appiconset_spec(output: Seq<char>) -> Seq<char> {
    join_spec(join_spec(join_spec(output, "ios"@), "Assets.xcassets"@), "AppIcon.appiconset"@)
}

/// The icon task: background and foreground as inputs, the icon image and
/// its description as outputs.
pub open spec fn icon_plan(input: Seq<char>, output: Seq<char>) -> (
    Action,
    Seq<Seq<char>>,
    Seq<Seq<char>>,
) {
    (
        Action::IosIcon,
        seq![art_spec(input, "icon-background.svg"@), art_spec(input, "icon-foreground.svg"@)],
        seq![
            join_spec(appiconset_spec(output), "icon-1024.png"@),
            join_spec(appiconset_spec(output), "Contents.json"@),
        ],
    )
}

/// iOS's tasks.
pub open spec fn ios_plan(input: Seq<char>, output: Seq<char>) -> Seq<
    (Action, Seq<Seq<char>>, Seq<Seq<char>>),
> {
    seq![icon_plan(input, output)]
}

/// iOS has one task, the app icon, and it is drawn from exactly the two
/// images that the Android icons are drawn from: `art/icon-background.svg`
/// then `art/icon-foreground.svg` under the resource directory; it writes
/// the icon image and its description into the app icon set.
pub proof fn lemma_ios_icon_reads_both_images(input: Seq<char>, output: Seq<char>)
    ensures
        ios_plan(input, output).len() == 1,
        ios_plan(input, output)[0].0 == Action::IosIcon,
        ios_plan(input, output)[0].1 == seq![
            join_spec(join_spec(input, "art"@), "icon-background.svg"@),
            join_spec(join_spec(input, "art"@), "icon-foreground.svg"@),
        ],
        ios_plan(input, output)[0].2 == seq![
            join_spec(
                join_spec(join_spec(join_spec(output, "ios"@), "Assets.xcassets"@), "AppIcon.appiconset"@),
                "icon-1024.png"@,
            ),
            join_spec(
                join_spec(join_spec(join_spec(output, "ios"@), "Assets.xcassets"@), "AppIcon.appiconset"@),
                "Contents.json"@,
            ),
        ],
        ios_plan(input, output)[0].1 == icons_plan(input, output).1,
{
}

/// The app icon set directory under the output directory.
pub fn appiconset_dir(ctx: &Context) -> (res: String)
    ensures
        res@ == appiconset_spec(ctx.output@),
{
    let ios = join(ctx.output.as_str(), "ios");
    let assets = join(ios.as_str(), "Assets.xcassets");
    join(assets.as_str(), "AppIcon.appiconset")
}

/// iOS's tasks, in order.
pub fn tasks(ctx: &Context) -> (res: Vec<Task>)
    ensures
        plan_view(res@) == ios_plan(ctx.input@, ctx.output@),
{
    let art = join(ctx.input.as_str(), "art");
    let mut inputs: Vec<String> = Vec::new();
    inputs.push(join(art.as_str(), "icon-background.svg"));
    inputs.push(join(art.as_str(), "icon-foreground.svg"));
    let dir = appiconset_dir(ctx);
    let mut outputs: Vec<String> = Vec::new();
    outputs.push(join(dir.as_str(), "icon-1024.png"));
    outputs.push(join(dir.as_str(), "Contents.json"));
    let task = Task::new(Action::IosIcon, inputs, outputs);
    assert(paths_view(task.inputs@) =~= icon_plan(ctx.input@, ctx.output@).1);
    assert(paths_view(task.outputs@) =~= icon_plan(ctx.input@, ctx.output@).2);
    let mut res: Vec<Task> = Vec::new();
    res.push(task);
    assert(plan_view(res@) =~= ios_plan(ctx.input@, ctx.output@));
    res
}

/// Adds iOS's tasks to the context.
pub fn add_tasks(ctx: &mut Context)
    requires
        old(ctx).task_store.wf(),
        old(ctx).task_store@.len() + 1 <= usize::MAX,
    ensures
        final(ctx).task_store.wf(),
        final(ctx).input == old(ctx).input,
        final(ctx).output == old(ctx).output,
        grown_by(
            old(ctx).task_store@,
            final(ctx).task_store@,
            ios_plan(old(ctx).input@, old(ctx).output@),
        ),
{
    let plan = tasks(ctx);
    assert(plan@.len() == plan_view(plan@).len());
    ctx.task_store.add_all(&plan);
}

} // verus!
