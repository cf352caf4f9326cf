use ability_game::ability::{AbilityInfo, Impact};
use ability_game::controls::{
    animation_commands, nudges, AnimationCommand, Heading, KeyInput, Keys, Nudge, FIRE_CLIP,
    FIRE_COOLDOWN, RUN_CLIP,
};
use ability_game::cooldown::{CoolDowns, Player};
use ability_game::loading::{gltf_mesh_label, plan_mesh_colliders, MeshEntity, Run};

fn keys() -> Keys {
    Keys { space: false, z: false, w: false, a: false, s: false, d: false }
}

fn input(pressed: Keys, just_pressed: Keys) -> KeyInput {
    KeyInput { pressed, just_pressed }
}

#[test]
fn new_cooldowns_are_ready() {
    assert_eq!(CoolDowns::new().0, [0, 0, 0, 0]);
}

#[test]
fn decrease_cds_ticks_running_cooldowns_and_keeps_zero() {
    let mut p = Player(CoolDowns([3, 0, 1, 1000]));
    p.decrease_cds();
    assert_eq!(p.0 .0, [2, 0, 0, 999]);
    p.decrease_cds();
    assert_eq!(p.0 .0, [1, 0, 0, 998]);
}

#[test]
fn decrease_cds_at_max() {
    let mut p = Player(CoolDowns([u32::MAX, 0, 0, 0]));
    p.decrease_cds();
    assert_eq!(p.0 .0, [u32::MAX - 1, 0, 0, 0]);
}

#[test]
fn fire_needs_space_and_a_ready_slot() {
    let mut p = Player(CoolDowns::new());
    assert!(!p.try_fire(&input(keys(), keys())));
    assert_eq!(p.0 .0, [0, 0, 0, 0]);
    let space = Keys { space: true, ..keys() };
    assert!(p.try_fire(&input(space, keys())));
    assert_eq!(p.0 .0, [FIRE_COOLDOWN, 0, 0, 0]);
    assert_eq!(FIRE_COOLDOWN, 1000);
    assert!(!p.try_fire(&input(space, space)));
    assert_eq!(p.0 .0, [1000, 0, 0, 0]);
}

#[test]
fn fireball_ready_again_after_its_cooldown() {
    let mut p = Player(CoolDowns([0, 5, 0, 0]));
    let space = Keys { space: true, ..keys() };
    assert!(p.try_fire(&input(space, space)));
    for _ in 0..999 {
        p.decrease_cds();
        assert!(!p.try_fire(&input(space, keys())));
    }
    assert_eq!(p.0 .0, [1, 0, 0, 0]);
    p.decrease_cds();
    assert!(p.try_fire(&input(space, keys())));
}

#[test]
fn nudges_follow_key_order() {
    assert_eq!(nudges(&keys()), vec![]);
    let all = Keys { space: true, z: true, w: true, a: true, s: true, d: true };
    assert_eq!(
        nudges(&all),
        vec![Nudge::Up, Nudge::Right, Nudge::Left, Nudge::Forward, Nudge::Back]
    );
    let wd = Keys { w: true, d: true, ..keys() };
    assert_eq!(nudges(&wd), vec![Nudge::Right, Nudge::Forward]);
}

#[test]
fn last_walking_key_sets_heading() {
    let wa = Keys { w: true, a: true, ..keys() };
    let last = nudges(&wa).iter().filter_map(|n| n.heading()).last();
    assert_eq!(last, Some(Heading::Forward));
    assert_eq!(Nudge::Up.heading(), None);
    assert_eq!(Nudge::Back.heading(), Some(Heading::Back));
    assert_eq!(Nudge::Right.heading(), Some(Heading::Right));
    assert_eq!(Nudge::Left.heading(), Some(Heading::Left));
}

#[test]
fn animation_on_space_and_walk() {
    let sw = Keys { space: true, w: true, ..keys() };
    assert_eq!(
        animation_commands(&input(sw, sw)),
        vec![AnimationCommand::Play(FIRE_CLIP), AnimationCommand::Play(RUN_CLIP)]
    );
    assert_eq!(FIRE_CLIP, 2);
    assert_eq!(RUN_CLIP, 0);
}

#[test]
fn animation_pauses_when_idle() {
    assert_eq!(animation_commands(&input(keys(), keys())), vec![AnimationCommand::Pause]);
    let z = Keys { z: true, ..keys() };
    assert_eq!(animation_commands(&input(z, z)), vec![AnimationCommand::Pause]);
}

#[test]
fn animation_keeps_playing_while_held() {
    let a = Keys { a: true, ..keys() };
    assert_eq!(animation_commands(&input(a, keys())), vec![]);
    let space = Keys { space: true, ..keys() };
    assert_eq!(animation_commands(&input(space, keys())), vec![]);
}

#[test]
fn scene_processed_once() {
    let mut run = Run(false);
    assert!(!run.scene_step(false));
    assert!(!run.0);
    assert!(run.scene_step(true));
    assert!(run.0);
    assert!(!run.scene_step(true));
    assert!(!run.scene_step(false));
    assert!(run.0);
}

#[test]
fn mesh_label_is_path_and_index() {
    assert_eq!(gltf_mesh_label("models/tiger.glb", 0), "models/tiger.glb#Mesh0");
    assert_eq!(gltf_mesh_label("models/tiger.glb", 12), "models/tiger.glb#Mesh12");
    assert_eq!(gltf_mesh_label("", 9), "#Mesh9");
    assert_eq!(gltf_mesh_label("a", 1000), "a#Mesh1000");
    assert_eq!(
        gltf_mesh_label("x", usize::MAX),
        format!("x#Mesh{}", usize::MAX)
    );
}

fn me(entity: u64, mesh: u64) -> MeshEntity {
    MeshEntity { entity, mesh }
}

#[test]
fn colliders_for_matching_meshes() {
    let mut run = Run(false);
    let scene = Some(vec![me(1, 10), me(2, 20), me(3, 30)]);
    let meshes = vec![Some(vec![20, 10]), Some(vec![30, 30]), Some(vec![99])];
    let out = plan_mesh_colliders(&mut run, &scene, &meshes);
    assert!(out == vec![me(1, 10), me(2, 20), me(3, 30), me(3, 30)]);
    assert!(run.0);
}

#[test]
fn colliders_missing_mesh_clears_run() {
    let mut run = Run(false);
    let scene = Some(vec![me(1, 10)]);
    let meshes = vec![Some(vec![10]), None];
    let out = plan_mesh_colliders(&mut run, &scene, &meshes);
    assert!(out == vec![me(1, 10)]);
    assert!(!run.0);
}

#[test]
fn colliders_scene_not_loaded() {
    let mut run = Run(false);
    let out = plan_mesh_colliders(&mut run, &None, &vec![Some(vec![10])]);
    assert!(out.is_empty());
    assert!(!run.0);
}

#[test]
fn colliders_empty_scene_keeps_run() {
    let mut run = Run(false);
    let out = plan_mesh_colliders(&mut run, &Some(vec![]), &vec![Some(vec![10])]);
    assert!(out.is_empty());
    assert!(!run.0);
}

#[test]
fn colliders_skipped_once_run() {
    let mut run = Run(true);
    let out = plan_mesh_colliders(&mut run, &Some(vec![me(1, 10)]), &vec![Some(vec![10])]);
    assert!(out.is_empty());
    assert!(run.0);
}

#[test]
fn ability_data_holds_values() {
    let info = AbilityInfo { damage: 10, distance: 20, speed: 5 };
    let impact = Impact { animation: "boom".to_string(), info, sound: "bang".to_string() };
    assert_eq!(impact.info.damage, 10);
    assert_eq!(impact.info.distance, 20);
    assert_eq!(impact.info.speed, 5);
    assert_eq!(impact.animation, "boom");
    assert_eq!(impact.sound, "bang");
}

#[test]
fn colliders_last_mesh_loaded_sets_run() {
    let mut run = Run(false);
    let scene = Some(vec![me(1, 10), me(2, 20)]);
    let meshes = vec![None, Some(vec![20])];
    let out = plan_mesh_colliders(&mut run, &scene, &meshes);
    assert!(out == vec![me(2, 20)]);
    assert!(run.0);
}

#[test]
fn colliders_repeated_entity_and_primitive() {
    let mut run = Run(false);
    let scene = Some(vec![me(1, 10), me(1, 10)]);
    let meshes = vec![Some(vec![10, 10]), Some(vec![10])];
    let out = plan_mesh_colliders(&mut run, &scene, &meshes);
    assert_eq!(out.len(), 6);
    assert!(out.iter().all(|x| *x == me(1, 10)));
    assert!(run.0);
}

#[test]
fn attempts_without_space_change_nothing() {
    let mut p = Player(CoolDowns([0, 3, 0, 0]));
    assert!(!p.try_fire(&input(keys(), keys())));
    assert_eq!(p.0 .0, [0, 3, 0, 0]);
    let space = Keys { space: true, ..keys() };
    assert!(p.try_fire(&input(space, keys())));
    assert!(!p.try_fire(&input(space, keys())));
    assert_eq!(p.0 .0, [1000, 3, 0, 0]);
}
