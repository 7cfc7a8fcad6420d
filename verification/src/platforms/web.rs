//! The web: the shared atlases under `web/assets`.

use vstd::prelude::*;

use crate::context::Context;
use crate::paths::{join, join_spec};
use crate::platforms::common::{add_common_tasks, common_plan, SpriteDir};
use crate::task::{grown_by, Action};

verus! {

/// `web/assets` under `output`.
pub open spec fn assets_spec(output: Seq<char>) -> Seq<char> {
    join_spec(join_spec(output, "web"@), "assets"@)
}

/// The web's tasks: the atlases.
pub open spec fn web_plan(output: Seq<char>, dirs: Seq<SpriteDir>) -> Seq<
    (Action, Seq<Seq<char>>, Seq<Seq<char>>),
> {
    common_plan(assets_spec(output), dirs)
}

/// `web/assets` under the output directory.
pub fn assets_dir(ctx: &Context) -> (res: String)
    ensures
        res@ == assets_spec(ctx.output@),
{
    join(join(ctx.output.as_str(), "web").as_str(), "assets")
}

/// Adds the web's tasks to the context.
pub fn add_tasks(ctx: &mut Context, dirs: &[SpriteDir])
    requires
        old(ctx).task_store.wf(),
        old(ctx).task_store@.len() + dirs@.len() <= usize::MAX,
    ensures
        final(ctx).task_store.wf(),
        final(ctx).input == old(ctx).input,
        final(ctx).output == old(ctx).output,
        grown_by(old(ctx).task_store@, final(ctx).task_store@, web_plan(old(ctx).output@, dirs@)),
{
    let assets = assets_dir(ctx);
    add_common_tasks(ctx, assets.as_str(), dirs);
}

} // verus!
