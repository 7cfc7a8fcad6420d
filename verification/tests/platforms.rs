use asset_pipeline::platforms::common::atlas_outputs;
use asset_pipeline::context::Context;
use asset_pipeline::platforms::android::{density, icon_px};
use asset_pipeline::platforms::common::{add_common_tasks, SpriteDir};
use asset_pipeline::platforms::{add_tasks, android, ios, web};
use asset_pipeline::task::Action;

const IN: &str = "/no/such/res";
const OUT: &str = "/no/such/out";

fn s(x: &str) -> String {
    x.to_string()
}

fn dirs() -> Vec<SpriteDir> {
    vec![
        SpriteDir { name: s("ui.v2"), files: vec![s("/no/such/res/sprites/ui.v2/button.ase")] },
        SpriteDir { name: s("empty"), files: vec![] },
        SpriteDir {
            name: s("ship"),
            files: vec![s("/no/such/res/sprites/ship/a.ase"), s("/no/such/res/sprites/ship/b.ase")],
        },
    ]
}

#[test]
fn new_context_is_empty() {
    let ctx = Context::new(s(IN), s(OUT));
    assert_eq!(ctx.task_store.len(), 0);
    assert_eq!(ctx.input, IN);
    assert_eq!(ctx.output, OUT);
}

#[test]
fn common_tasks_one_atlas_per_non_empty_dir() {
    let mut ctx = Context::new(s(IN), s(OUT));
    add_common_tasks(&mut ctx, "/no/such/out/web/assets", &dirs());
    assert_eq!(ctx.task_store.len(), 2);
    let first = ctx.task_store.task(0);
    assert_eq!(first.action, Action::Atlas);
    assert_eq!(first.inputs, vec![s("/no/such/res/sprites/ui.v2/button.ase")]);
    assert_eq!(
        first.outputs,
        vec![s("/no/such/out/web/assets/sprites/ui.json"), s("/no/such/out/web/assets/sprites/ui.png")]
    );
    let second = ctx.task_store.task(1);
    assert_eq!(second.inputs.len(), 2);
    assert_eq!(
        second.outputs,
        vec![s("/no/such/out/web/assets/sprites/ship.json"), s("/no/such/out/web/assets/sprites/ship.png")]
    );
}

#[test]
fn android_tasks() {
    let ctx = Context::new(s(IN), s(OUT));
    let tasks = android::tasks(&ctx, &dirs());
    assert_eq!(tasks.len(), 4);
    assert_eq!(tasks[0].outputs[0], "/no/such/out/android/assets/sprites/ui.json");
    assert_eq!(tasks[2].action, Action::AndroidValues);
    assert!(tasks[2].inputs.is_empty());
    assert_eq!(tasks[2].outputs, vec![s("/no/such/out/android/res/values/strings.xml")]);
    let icons = &tasks[3];
    assert_eq!(icons.action, Action::AndroidIcons);
    assert_eq!(
        icons.inputs,
        vec![s("/no/such/res/art/icon-background.svg"), s("/no/such/res/art/icon-foreground.svg")]
    );
    assert_eq!(icons.outputs.len(), 17);
    assert_eq!(icons.outputs[0], "/no/such/out/android/res/mipmap-mdpi/ic_launcher_background.png");
    assert_eq!(icons.outputs[4], "/no/such/out/android/res/mipmap-hdpi/ic_launcher_foreground.png");
    assert_eq!(icons.outputs[14], "/no/such/out/android/res/mipmap-xxxhdpi/ic_launcher.png");
    assert_eq!(icons.outputs[15], "/no/such/out/android/res/mipmap-anydpi-v26/ic_launcher.xml");
    assert_eq!(icons.outputs[16], "/no/such/out/android/res/mipmap-anydpi-v26/ic_launcher_round.xml");
    assert_eq!(android::assets_dir(&ctx), "/no/such/out/android/assets");
    assert_eq!(android::res_dir(&ctx), "/no/such/out/android/res");
}

#[test]
fn android_icon_sizes_match_float_scales() {
    let scales = [1.0f32, 1.5, 2.0, 3.0, 4.0];
    let names = ["mdpi", "hdpi", "xhdpi", "xxhdpi", "xxxhdpi"];
    for k in 0..5 {
        assert_eq!(density(k).0, names[k]);
        let (adaptive, legacy) = icon_px(k);
        assert_eq!(adaptive, (108.0f32 * scales[k]).round() as u32);
        assert_eq!(legacy, (48.0f32 * scales[k]).round() as u32);
    }
    assert_eq!(icon_px(1), (162, 72));
}

#[test]
fn ios_tasks() {
    let ctx = Context::new(s(IN), s(OUT));
    let tasks = ios::tasks(&ctx);
    assert_eq!(tasks.len(), 1);
    assert_eq!(tasks[0].action, Action::IosIcon);
    assert_eq!(
        tasks[0].outputs,
        vec![
            s("/no/such/out/ios/Assets.xcassets/AppIcon.appiconset/icon-1024.png"),
            s("/no/such/out/ios/Assets.xcassets/AppIcon.appiconset/Contents.json"),
        ]
    );
    assert_eq!(ios::appiconset_dir(&ctx), "/no/such/out/ios/Assets.xcassets/AppIcon.appiconset");
}

#[test]
fn web_assets_dir() {
    let ctx = Context::new(s(IN), s(OUT));
    assert_eq!(web::assets_dir(&ctx), "/no/such/out/web/assets");
}

#[test]
fn all_platforms_in_order() {
    let mut ctx = Context::new(s(IN), s(OUT));
    add_tasks(&mut ctx, &dirs());
    // android: 2 atlases, values, icons; ios: icon; web: 2 atlases
    assert_eq!(ctx.task_store.len(), 7);
    let actions: Vec<Action> = (0..7).map(|i| ctx.task_store.task(i).action).collect();
    assert_eq!(
        actions,
        vec![
            Action::Atlas,
            Action::Atlas,
            Action::AndroidValues,
            Action::AndroidIcons,
            Action::IosIcon,
            Action::Atlas,
            Action::Atlas,
        ]
    );
    assert_eq!(ctx.task_store.task(2).inputs, vec![String::new()]);
    assert_eq!(ctx.task_store.task(6).outputs[1], "/no/such/out/web/assets/sprites/ship.png");
    // both icon tasks read the same background image
    assert_eq!(ctx.task_store.tasks_for(&s("/no/such/res/art/icon-background.svg")), vec![3, 4]);
    assert_eq!(ctx.task_store.tasks_to_run().len(), 7);
}

#[test]
fn rebuilding_after_clear_gives_the_same_tasks() {
    let mut ctx = Context::new(s(IN), s(OUT));
    add_tasks(&mut ctx, &dirs());
    let first: Vec<(Action, Vec<String>, Vec<String>)> = (0..ctx.task_store.len())
        .map(|i| {
            let t = ctx.task_store.task(i);
            (t.action, t.inputs.clone(), t.outputs.clone())
        })
        .collect();
    ctx.task_store.clear();
    add_tasks(&mut ctx, &dirs());
    let second: Vec<(Action, Vec<String>, Vec<String>)> = (0..ctx.task_store.len())
        .map(|i| {
            let t = ctx.task_store.task(i);
            (t.action, t.inputs.clone(), t.outputs.clone())
        })
        .collect();
    assert_eq!(first, second);
}

#[test]
fn atlas_task_takes_exactly_two_outputs() {
    let outs = vec![s("a.json"), s("a.png")];
    assert_eq!(atlas_outputs(&outs), Some((&outs[0], &outs[1])));
    assert_eq!(atlas_outputs(&outs[..1]), None);
    assert_eq!(atlas_outputs(&[s("a"), s("b"), s("c")]), None);
}
