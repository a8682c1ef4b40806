use shared_types::behavior::{
    on_frame_update, ActionResult, AlwaysSucceed, ChildStep, ControllerAction, Fallback,
    Movement, ParallelSequence, PlayerActionState, Sequence, ShootIfAble, ShouldRecomputePath,
    TriggerRecomputePath,
};
use shared_types::bvh::TreeStopCriteria;
use shared_types::controls::{InputEffect, InputEvent, Key, PlayerControls};
use shared_types::game_controller::LocalGameController;
use shared_types::game_rules::{on_hit, shield_damage, shot_of, should_resolve, HitEffects, ShieldDamage};
use shared_types::ids::{ObjectId, ObjectType};
use shared_types::render::{CullLightProcessor, RenderOrder};
use shared_types::serializeable::{GlobalLightingInfo, RemoteObject};
use shared_types::shading::{
    should_render, Culling, RenderPassType, ShaderType, UniformKind,
};

fn act(v: u64) -> Option<ControllerAction> {
    Some(ControllerAction { fire: false, velocity: [v, 0, 0] })
}

fn obj(id: u32, tag: u64) -> RemoteObject {
    RemoteObject { mat: [[tag; 4]; 5], id: ObjectId::new(id), typ: ObjectType::Asteroid }
}

fn lighting() -> GlobalLightingInfo {
    GlobalLightingInfo { skybox: "s".to_string(), hdr: "h".to_string(), dir_light: [1, 2, 3] }
}

#[test]
fn sequence_returns_first_unsuccessful_child() {
    assert_eq!(Sequence::tick(&[ActionResult::Success(act(1)), ActionResult::Running(act(2)), ActionResult::Failure]), ActionResult::Running(act(2)));
    assert_eq!(Sequence::tick(&[ActionResult::Success(None), ActionResult::Failure, ActionResult::Running(None)]), ActionResult::Failure);
}

#[test]
fn sequence_without_children_succeeds() {
    assert_eq!(Sequence::start(), ActionResult::Success(None));
    assert_eq!(Sequence::tick(&[]), ActionResult::Success(None));
    assert_eq!(Sequence::on_child(Sequence::start(), ActionResult::Success(None)), ChildStep::Continue(ActionResult::Success(None)));
}

#[test]
fn sequence_keeps_last_requested_action() {
    assert_eq!(Sequence::tick(&[ActionResult::Success(act(1)), ActionResult::Success(None)]), ActionResult::Success(act(1)));
    assert_eq!(Sequence::tick(&[ActionResult::Success(act(1)), ActionResult::Success(act(2))]), ActionResult::Success(act(2)));
    assert_eq!(Sequence::tick(&[ActionResult::Success(None), ActionResult::Success(None)]), ActionResult::Success(None));
    assert_eq!(Sequence::on_child(Sequence::start(), ActionResult::Failure), ChildStep::Return(ActionResult::Failure));
}

#[test]
fn fallback_returns_first_non_failure() {
    assert_eq!(Fallback::tick(&[]), ActionResult::Failure);
    assert_eq!(Fallback::tick(&[ActionResult::Failure, ActionResult::Failure]), ActionResult::Failure);
    assert_eq!(Fallback::tick(&[ActionResult::Failure, ActionResult::Running(act(3)), ActionResult::Success(None)]), ActionResult::Running(act(3)));
    assert_eq!(Fallback::on_child(ActionResult::Success(None)), ChildStep::Return(ActionResult::Success(None)));
}

#[test]
fn parallel_sequence_returns_last_success() {
    assert_eq!(ParallelSequence::tick(&[]), ActionResult::Failure);
    assert_eq!(ParallelSequence::tick(&[ActionResult::Success(act(1)), ActionResult::Running(None), ActionResult::Success(act(2)), ActionResult::Failure]), ActionResult::Success(act(2)));
    assert_eq!(ParallelSequence::tick(&[ActionResult::Failure, ActionResult::Running(act(5)), ActionResult::Running(act(6))]), ActionResult::Running(act(5)));
    assert_eq!(ParallelSequence::tick(&[ActionResult::Failure, ActionResult::Failure]), ActionResult::Failure);
}

#[test]
fn leaf_nodes() {
    assert_eq!(AlwaysSucceed {}.tick(), ActionResult::Success(None));
    let should = ShouldRecomputePath {};
    assert_eq!(should.tick(None), ActionResult::Failure);
    assert_eq!(should.tick(Some(true)), ActionResult::Failure);
    assert_eq!(should.tick(Some(false)), ActionResult::Success(None));
    let mut target = Some(7u32);
    assert_eq!(TriggerRecomputePath {}.tick(&mut target), ActionResult::Success(None));
    assert_eq!(target, None);
}

#[test]
fn shoot_if_able_fires_twice_a_second() {
    let mut node = ShootIfAble::new(1000);
    assert_eq!(node.tick(false, 5000), ActionResult::Failure);
    assert_eq!(node.tick(true, 1400), ActionResult::Success(None));
    assert_eq!(node.tick(true, 1500), ActionResult::Success(None));
    let fired = node.tick(true, 1501);
    assert_eq!(fired, ActionResult::Success(Some(ControllerAction { fire: true, velocity: [0; 3] })));
    assert_eq!(node.last_time, 1501);
    assert_eq!(node.tick(true, 1800), ActionResult::Success(None));
}

#[test]
fn frame_update_sets_fire_state() {
    let fire = Some(ControllerAction { fire: true, velocity: [0; 3] });
    assert_eq!(on_frame_update(ActionResult::Running(fire)), (PlayerActionState::Fire, fire));
    assert_eq!(on_frame_update(ActionResult::Success(act(1))), (PlayerActionState::Idle, act(1)));
    assert_eq!(on_frame_update(ActionResult::Failure), (PlayerActionState::Idle, None));
}

#[test]
fn local_controller_sets_and_removes() {
    let mut c = LocalGameController::new(vec![obj(1, 1), obj(2, 2), obj(3, 3)], lighting());
    assert_eq!(c.get_player_stats().pid, ObjectId::new(3));
    assert_eq!(c.get_lighting_info().dir_light, [1, 2, 3]);
    assert!(c.can_set_objects(&[obj(2, 20), obj(9, 9)]));
    c.set_objects(&[obj(2, 20), obj(9, 9)]);
    let objs = c.get_game_objects();
    assert_eq!(objs.len(), 4);
    assert_eq!(objs[1].mat[0][0], 20);
    assert_eq!(objs[3].id, ObjectId::new(9));
    assert_eq!(c.object_index(ObjectId::new(9)), Some(3));
    assert!(c.can_remove_objects(&[ObjectId::new(1), ObjectId::new(42)]));
    c.remove_objects(&[ObjectId::new(1), ObjectId::new(42)]);
    let ids: Vec<u32> = c.get_game_objects().iter().map(|o| o.id.as_underlying_type()).collect();
    assert_eq!(ids, vec![9, 2, 3]);
    assert_eq!(c.object_index(ObjectId::new(9)), Some(0));
    assert_eq!(c.object_index(ObjectId::new(1)), None);
}

#[test]
fn removing_the_last_object_leaves_its_index_behind() {
    let mut c = LocalGameController::new(vec![obj(1, 1), obj(2, 2)], lighting());
    c.remove_objects(&[ObjectId::new(2)]);
    assert_eq!(c.get_game_objects().len(), 1);
    assert_eq!(c.object_index(ObjectId::new(2)), Some(1));
    assert!(!c.can_remove_objects(&[ObjectId::new(2)]));
    assert!(c.can_remove_objects(&[ObjectId::new(1)]));
    assert!(!c.can_set_objects(&[obj(2, 5)]));
}

#[test]
fn requested_ids_come_back_in_order() {
    let mut c = LocalGameController::new(vec![obj(4, 0)], lighting());
    assert_eq!(c.get_requested_ids(), None);
    c.request_n_ids(10);
    c.request_n_ids(3);
    assert_eq!(c.get_requested_ids(), Some((ObjectId::new(5), ObjectId::new(15))));
    assert_eq!(c.get_requested_ids(), Some((ObjectId::new(15), ObjectId::new(18))));
    assert_eq!(c.get_requested_ids(), None);
}

#[test]
fn shaders_for_inputs() {
    let pbr = UniformKind::Pbr { instancing: false, animated: false };
    let inst = UniformKind::Pbr { instancing: true, animated: true };
    let anim = UniformKind::Pbr { instancing: false, animated: true };
    assert_eq!(pbr.corresp_shader_type(RenderPassType::Visual), ShaderType::Pbr);
    assert_eq!(inst.corresp_shader_type(RenderPassType::Visual), ShaderType::PbrInstancedShader);
    assert_eq!(inst.corresp_shader_type(RenderPassType::Depth), ShaderType::DepthInstancedShader);
    assert_eq!(anim.corresp_shader_type(RenderPassType::Transparent(3)), ShaderType::ParallelAnimPbr);
    assert_eq!(anim.corresp_shader_type(RenderPassType::TransparentDepth), ShaderType::DepthShader);
    assert_eq!(UniformKind::Laser.corresp_shader_type(RenderPassType::Depth), ShaderType::DepthShader);
    assert_eq!(UniformKind::PrefilterHdrEnv.corresp_shader_type(RenderPassType::LayeredVisual), ShaderType::ParallelPrefilter);
    assert!(!UniformKind::Laser.has_shader(RenderPassType::TransparentDepth));
    assert!(!UniformKind::Text.has_shader(RenderPassType::Depth));
    assert!(UniformKind::Line.has_shader(RenderPassType::Transparent(0)));
    assert!(UniformKind::TriangleCollisions.has_shader(RenderPassType::Visual));
}

#[test]
fn draw_params() {
    let solid = ShaderType::Pbr.get_draw_params(RenderPassType::Visual);
    assert!(solid.depth_test_less && !solid.alpha_blending);
    assert_eq!(solid.culling, Culling::Clockwise);
    let cloud = ShaderType::Cloud.get_draw_params(RenderPassType::Visual);
    assert_eq!(cloud.culling, Culling::CounterClockwise);
    assert!(ShaderType::Line.get_draw_params(RenderPassType::Visual).line_polygons);
    let plain = ShaderType::Skybox.get_draw_params(RenderPassType::Visual);
    assert!(!plain.depth_test_less && !plain.alpha_blending && !plain.line_polygons);
}

#[test]
fn render_passes() {
    assert!(RenderPassType::Transparent(1) == RenderPassType::Transparent(2));
    assert!(RenderPassType::transparent_tag() == RenderPassType::Transparent(99));
    assert!(RenderPassType::Visual != RenderPassType::Depth);
    let passes = [RenderPassType::Visual, RenderPassType::Depth, RenderPassType::TransparentDepth];
    assert!(should_render(&passes, RenderPassType::Visual, None));
    assert!(should_render(&passes, RenderPassType::Depth, None));
    assert!(!should_render(&passes, RenderPassType::Depth, Some(true)));
    assert!(should_render(&passes, RenderPassType::TransparentDepth, Some(true)));
    assert!(!should_render(&passes, RenderPassType::TransparentDepth, None));
    assert!(!should_render(&passes, RenderPassType::LayeredVisual, None));
    assert_ne!(RenderOrder::First, RenderOrder::Last);
}

#[test]
fn light_culling_tiles() {
    let p = CullLightProcessor::new(1920, 1080, 16);
    assert_eq!(p.get_groups_x(), 120);
    assert_eq!(p.get_groups_y(), 68);
    assert_eq!(p.get_size(), (1920, 1080));
    assert_eq!(p.visible_light_buffer_len(), 120 * 68 * 1024);
    let odd = CullLightProcessor::new(1009, 17, 16);
    assert_eq!(odd.get_groups_x(), 63);
    assert_eq!(odd.get_groups_y(), 1);
}

#[test]
fn tree_stop_criteria() {
    assert_eq!(TreeStopCriteria::default(), TreeStopCriteria::MaxPrimitivesPerLeaf(1024));
    assert!(TreeStopCriteria::AlwaysStop.should_stop(5000, 0));
    assert!(TreeStopCriteria::MaxPrimitivesPerLeaf(32).should_stop(32, 0));
    assert!(!TreeStopCriteria::MaxPrimitivesPerLeaf(32).should_stop(33, 9));
    assert!(TreeStopCriteria::MaxDepth(4).should_stop(1000, 4));
    assert!(!TreeStopCriteria::MaxDepth(4).should_stop(1, 3));
}

#[test]
fn player_controls_react_to_input() {
    let mut c = PlayerControls::new();
    assert_eq!(c.get_movement(), Movement::Stopped);
    c.on_input(InputEvent::Key { key: Key::W, pressed: true });
    assert_eq!(c.get_movement(), Movement::Forward);
    c.on_input(InputEvent::Key { key: Key::S, pressed: false });
    assert_eq!(c.get_movement(), Movement::Stopped);
    c.on_input(InputEvent::Key { key: Key::S, pressed: true });
    assert_eq!(c.get_movement(), Movement::Backwards);
    c.on_input(InputEvent::Button { button: 1, pressed: true });
    assert_eq!(c.get_action_state(), PlayerActionState::Idle);
    assert_eq!(c.on_input(InputEvent::Key { key: Key::Escape, pressed: true }), InputEffect::SetCursorGrab(true));
    c.on_input(InputEvent::MouseMotion { dx: 1.5f64.to_bits(), dy: (-2.0f64).to_bits() });
    assert_eq!(c.get_roll(), 1.5f64.to_bits());
    assert_eq!(c.get_pitch(), (-2.0f64).to_bits());
    c.on_input(InputEvent::Button { button: 3, pressed: true });
    assert_eq!(c.get_action_state(), PlayerActionState::FireRope);
    c.on_input(InputEvent::Button { button: 3, pressed: false });
    assert_eq!(c.get_action_state(), PlayerActionState::CutRope);
    c.transition_action_state();
    assert_eq!(c.get_action_state(), PlayerActionState::Idle);
    assert_eq!(c.on_input(InputEvent::Key { key: Key::T, pressed: true }), InputEffect::StartVisibilityTransition);
    assert!(!c.visible);
    c.on_frame_update();
    assert_eq!((c.get_pitch(), c.get_roll()), (0, 0));
    c.on_death();
    assert!(c.visible);
    assert_eq!(c.on_input(InputEvent::Key { key: Key::Escape, pressed: true }), InputEffect::SetCursorGrab(false));
}

#[test]
fn collision_rules() {
    assert!(should_resolve(ObjectType::Ship, ObjectType::Asteroid));
    assert!(!should_resolve(ObjectType::Ship, ObjectType::Laser));
    assert!(!should_resolve(ObjectType::Hook, ObjectType::Asteroid));
    let laser = (ObjectType::Laser, ObjectId::new(7));
    let ship = (ObjectType::Ship, ObjectId::new(1));
    let rock = (ObjectType::Asteroid, ObjectId::new(2));
    let hook = (ObjectType::Hook, ObjectId::new(9));
    assert_eq!(on_hit(ship, laser), HitEffects { laser: Some(ObjectId::new(7)), ship_asteroid: false, hook: None });
    assert_eq!(on_hit(rock, ship), HitEffects { laser: None, ship_asteroid: true, hook: None });
    assert_eq!(on_hit(hook, rock), HitEffects { laser: None, ship_asteroid: false, hook: Some(ObjectId::new(9)) });
    assert_eq!(shield_damage(ObjectType::Laser), ShieldDamage::Laser);
    assert_eq!(shield_damage(ObjectType::Hook), ShieldDamage::NoDamage);
    assert_eq!(shield_damage(ObjectType::Asteroid), ShieldDamage::Impact);
    assert_eq!(shot_of(PlayerActionState::Fire, true), Some(ObjectType::Laser));
    assert_eq!(shot_of(PlayerActionState::FireRope, true), Some(ObjectType::Hook));
    assert_eq!(shot_of(PlayerActionState::Fire, false), None);
    assert_eq!(shot_of(PlayerActionState::CutRope, true), None);
}

#[test]
fn remote_game_starts_with_the_player_first() {
    let (objects, indices) =
        LocalGameController::initial_remote_objects(obj(7, 0), vec![obj(3, 1), obj(7, 2), obj(9, 3)]);
    let ids: Vec<u32> = objects.iter().map(|o| o.id.as_underlying_type()).collect();
    assert_eq!(ids, vec![7, 3, 7, 9]);
    assert_eq!(objects[0].mat, [[0; 4]; 5]);
    assert_eq!(indices.len(), 3);
    assert_eq!(indices[&7], 2);
    assert_eq!(indices[&3], 1);
    assert_eq!(indices[&9], 3);
}
