//! The tasks that each platform needs: Android, iOS and the web.

pub mod android;
pub mod common;
pub mod ios;
pub mod web;

use vstd::prelude::*;

use crate::context::Context;
use crate::platforms::common::SpriteDir;
use crate::task::{grown_by, Action};

verus! {

/// The tasks of every platform, given the resource and output directories
/// and the sprite directories found in the resources: Android's, then iOS's,
/// then the web's.
pub open spec fn all_plan(input: Seq<char>, output: Seq<char>, dirs: Seq<SpriteDir>) -> Seq<
    (Action, Seq<Seq<char>>, Seq<Seq<char>>),
> {
    android::android_plan(input, output, dirs) + ios::ios_plan(input, output) + web::web_plan(
        output,
        dirs,
    )
}

/// Adds the tasks of every platform to the context.
pub fn add_tasks(ctx: &mut Context, dirs: &[SpriteDir])
    requires
        old(ctx).task_store.wf(),
        old(ctx).task_store@.len() + 2 * dirs@.len() + 3 <= usize::MAX,
    ensures
        final(ctx).task_store.wf(),
        final(ctx).input == old(ctx).input,
        final(ctx).output == old(ctx).output,
        grown_by(
            old(ctx).task_store@,
            final(ctx).task_store@,
            all_plan(old(ctx).input@, old(ctx).output@, dirs@),
        ),
{
    let ghost s0 = ctx.task_store@;
    proof {
        common::lemma_common_plan_len(android::assets_spec(ctx.output@), dirs@);
        common::lemma_common_plan_len(web::assets_spec(ctx.output@), dirs@);
    }
    android::add_tasks(ctx, dirs);
    let ghost s1 = ctx.task_store@;
    ios::add_tasks(ctx);
    let ghost s2 = ctx.task_store@;
    web::add_tasks(ctx, dirs);
    proof {
        let a = android::android_plan(ctx.input@, ctx.output@, dirs@);
        let b = ios::ios_plan(ctx.input@, ctx.output@);
        let c = web::web_plan(ctx.output@, dirs@);
        crate::task::lemma_grown_by_trans(s0, s1, s2, a, b);
        crate::task::lemma_grown_by_trans(s0, s2, ctx.task_store@, a + b, c);
    }
}

} // verus!
