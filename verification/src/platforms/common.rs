//! Tasks that every platform shares: one atlas per sprite directory.

use vstd::prelude::*;

use crate::context::Context;
use crate::paths::{join, join_spec, with_extension, with_extension_spec};
use crate::task::{grown_by, paths_view, plan_view, Action, Task};

verus! {

/// A directory of the sprite resources: its name and the files in it.
pub struct SpriteDir {
    pub name: String,
    pub files: Vec<String>,
}

/// The directory that holds the sprite directories of a resource directory.
pub fn sprites_dir(resource_dir: &str) -> (res: String)
    ensures
        res@ == join_spec(resource_dir@, "sprites"@),
{
    join(resource_dir, "sprites")
}

/// The atlas made from the sprite directory `dir` is written, under
/// `output`, to `sprites/<name>` with the extensions `json` and `png`.
pub open spec fn atlas_plan(output: Seq<char>, dir: SpriteDir) -> (
    Action,
    Seq<Seq<char>>,
    Seq<Seq<char>>,
) {
    let base = join_spec(join_spec(output, "sprites"@), dir.name@);
    (
        Action::Atlas,
        paths_view(dir.files@),
        seq![with_extension_spec(base, "json"@), with_extension_spec(base, "png"@)],
    )
}

/// The metadata and image paths of an atlas task, which writes exactly
/// two outputs; `None` for any other number.
pub fn atlas_outputs(outputs: &[String]) -> (res: Option<(&String, &String)>)
    ensures
        res is Some <==> outputs@.len() == 2,
        res matches Some((json, png)) ==> *json == outputs@[0] && *png == outputs@[1],
{
    if outputs.len() == 2 {
        Some((&outputs[0], &outputs[1]))
    } else {
        None
    }
}

/// One atlas task for each sprite directory that holds files, in order.
pub open spec fn common_plan(output: Seq<char>, dirs: Seq<SpriteDir>) -> Seq<
    (Action, Seq<Seq<char>>, Seq<Seq<char>>),
>
    decreases dirs.len(),
{
    if dirs.len() == 0 {
        Seq::empty()
    } else {
        common_plan(output, dirs.drop_last()) + if dirs.last().files@.len() > 0 {
            seq![atlas_plan(output, dirs.last())]
        } else {
            Seq::empty()
        }
    }
}

/// There is at most one atlas task per directory.
pub proof fn lemma_common_plan_len(output: Seq<char>, dirs: Seq<SpriteDir>)
    ensures
        common_plan(output, dirs).len() <= dirs.len(),
    decreases dirs.len(),
{
    if dirs.len() > 0 {
        lemma_common_plan_len(output, dirs.drop_last());
    }
}

/// Every sprite directory that holds files gives one atlas task, in the
/// order of the directories, and an empty one gives none. The task reads
/// the directory's files and writes, under `output`,
/// `sprites/<name>.json` then `sprites/<name>.png`.
pub proof fn lemma_common_plan_atlases(output: Seq<char>, dirs: Seq<SpriteDir>)
    ensures
        common_plan(output, dirs) == dirs.filter(|d: SpriteDir| d.files@.len() > 0).map_values(
            |d: SpriteDir| atlas_plan(output, d),
        ),
        forall|d: SpriteDir|
            #[trigger] atlas_plan(output, d) == (
                Action::Atlas,
                d.files@.map_values(|f: String| f@),
                seq![
                    with_extension_spec(join_spec(join_spec(output, "sprites"@), d.name@), "json"@),
                    with_extension_spec(join_spec(join_spec(output, "sprites"@), d.name@), "png"@),
                ],
            ),
    decreases dirs.len(),
{
    let pred = |d: SpriteDir| d.files@.len() > 0;
    let f = |d: SpriteDir| atlas_plan(output, d);
    reveal(Seq::filter);
    if dirs.len() > 0 {
        lemma_common_plan_atlases(output, dirs.drop_last());
        let pre = dirs.drop_last().filter(pred);
        if pred(dirs.last()) {
            assert(dirs.filter(pred) == pre.push(dirs.last()));
            assert(pre.push(dirs.last()).map_values(f) =~= pre.map_values(f) + seq![f(dirs.last())]);
        } else {
            assert(dirs.filter(pred) == pre);
            assert(pre.map_values(f) =~= pre.map_values(f) + Seq::empty());
        }
    } else {
        assert(dirs.filter(pred) =~= Seq::<SpriteDir>::empty());
        assert(dirs.filter(pred).map_values(f) =~= Seq::empty());
    }
}

proof fn lemma_plan_view_push(plan: Seq<Task>, t: Task)
    ensures
        plan_view(plan.push(t)) == plan_view(plan).push(t@),
{
    assert(plan_view(plan.push(t)) =~= plan_view(plan).push(t@));
}

/// The atlas tasks for the sprite directories `dirs`, writing under
/// `output`.
pub fn common_tasks(output: &str, dirs: &[SpriteDir]) -> (res: Vec<Task>)
    ensures
        plan_view(res@) == common_plan(output@, dirs@),
{
    let mut res: Vec<Task> = Vec::new();
    let n = dirs.len();
    proof {
        reveal_strlit("json");
        reveal_strlit("png");
    }
    assert(!"json"@.contains('/'));
    assert(!"png"@.contains('/'));
    assert(dirs@.subrange(0, 0) =~= Seq::<SpriteDir>::empty());
    for i in 0..n
        invariant
            n == dirs@.len(),
            !"json"@.contains('/'),
            !"png"@.contains('/'),
            plan_view(res@) == common_plan(output@, dirs@.subrange(0, i as int)),
    {
        let ghost prev = res@;
        proof {
            assert(dirs@.subrange(0, i + 1).drop_last() =~= dirs@.subrange(0, i as int));
            assert(dirs@.subrange(0, i + 1).last() == dirs@[i as int]);
        }
        let dir = &dirs[i];
        if dir.files.len() > 0 {
            let sprites = join(output, "sprites");
            let base = join(sprites.as_str(), dir.name.as_str());
            let mut outputs: Vec<String> = Vec::new();
            outputs.push(with_extension(base.as_str(), "json"));
            outputs.push(with_extension(base.as_str(), "png"));
            let task = Task::new(Action::Atlas, dir.files.clone(), outputs);
            proof {
                assert(task.inputs@ =~= dir.files@);
                assert(task@ == atlas_plan(output@, dirs@[i as int])) by {
                    assert(paths_view(task.outputs@) =~= seq![
                        with_extension_spec(base@, "json"@),
                        with_extension_spec(base@, "png"@),
                    ]);
                }
                lemma_plan_view_push(prev, task);
            }
            res.push(task);
        } else {
            assert(plan_view(res@) =~= plan_view(res@) + Seq::<
                (Action, Seq<Seq<char>>, Seq<Seq<char>>),
            >::empty());
        }
    }
    assert(dirs@.subrange(0, n as int) =~= dirs@);
    res
}

/// Adds to the context one atlas task for each sprite directory that holds
/// files, writing under `output`.
pub fn add_common_tasks(ctx: &mut Context, output: &str, dirs: &[SpriteDir])
    requires
        old(ctx).task_store.wf(),
        old(ctx).task_store@.len() + dirs@.len() <= usize::MAX,
    ensures
        final(ctx).task_store.wf(),
        final(ctx).input == old(ctx).input,
        final(ctx).output == old(ctx).output,
        grown_by(old(ctx).task_store@, final(ctx).task_store@, common_plan(output@, dirs@)),
{
    let plan = common_tasks(output, dirs);
    proof {
        lemma_common_plan_len(output@, dirs@);
        assert(plan@.len() == plan_view(plan@).len());
    }
    ctx.task_store.add_all(&plan);
}

} // verus!
