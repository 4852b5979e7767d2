use edge_physics::physics::BodyHandle;
use edge_physics::world::{Request, ServerWorld, SyncRequest};
use rapier3d::dynamics::{
    CCDSolver, ImpulseJointSet, IntegrationParameters, IslandManager, MultibodyJointSet, RigidBody,
    RigidBodyBuilder,
};
use rapier3d::geometry::{BroadPhase, ColliderBuilder, NarrowPhase};
use rapier3d::na::Vector3;
use rapier3d::pipeline::PhysicsPipeline;

struct Stepper {
    pipeline: PhysicsPipeline,
    islands: IslandManager,
    broad_phase: BroadPhase,
    narrow_phase: NarrowPhase,
    impulse_joints: ImpulseJointSet,
    multibody_joints: MultibodyJointSet,
    ccd: CCDSolver,
}

impl Stepper {
    fn new() -> Self {
        Stepper {
            pipeline: PhysicsPipeline::new(),
            islands: IslandManager::new(),
            broad_phase: BroadPhase::new(),
            narrow_phase: NarrowPhase::new(),
            impulse_joints: ImpulseJointSet::new(),
            multibody_joints: MultibodyJointSet::new(),
            ccd: CCDSolver::new(),
        }
    }

    fn step(&mut self, world: &mut ServerWorld, dt: f32) {
        let params = IntegrationParameters { dt, ..IntegrationParameters::default() };
        let gravity = Vector3::new(0.0, -9.81, 0.0);
        let (bodies, colliders) = world.stores_mut();
        self.pipeline.step(
            &gravity,
            &params,
            &mut self.islands,
            &mut self.broad_phase,
            &mut self.narrow_phase,
            bodies,
            colliders,
            &mut self.impulse_joints,
            &mut self.multibody_joints,
            &mut self.ccd,
            &(),
            &(),
        );
    }
}

fn body(entity: u64, y: f32) -> (u64, RigidBody) {
    (entity, RigidBodyBuilder::dynamic().translation(Vector3::new(0.0, y, 0.0)).user_data(entity as u128).build())
}

fn ball(entity: u64, r: f32) -> (u64, ColliderBuilder) {
    (entity, ColliderBuilder::ball(r).user_data(entity as u128))
}

fn y_of(world: &ServerWorld, h: BodyHandle) -> f32 {
    let handle = rapier3d::dynamics::RigidBodyHandle::from_raw_parts(h.index, h.generation);
    world.bodies().get(handle).unwrap().translation().y
}

#[test]
fn scenario_one_falling_ball() {
    let mut world = ServerWorld::new();
    let mut stepper = Stepper::new();
    let round = world.apply(SyncRequest { rigid_bodies: vec![body(1, 5.0)], colliders: vec![ball(1, 0.5)] });
    stepper.step(&mut world, 0.016);
    let resp = world.respond(round);
    assert_eq!(resp.rigid_body_handles.len(), 1);
    assert_eq!(resp.rigid_body_handles[0].0, 1);
    assert_eq!(resp.collider_handles.len(), 1);
    assert_eq!(resp.collider_handles[0].0, 1);
    let body_handle = resp.rigid_body_handles[0].1;
    assert_eq!(world.parent_of(resp.collider_handles[0].1), Some(body_handle));
    assert_eq!(resp.bodies.len(), 1);
    assert_eq!(resp.bodies[0], (1, body_handle));
    assert!(y_of(&world, body_handle) < 5.0);
}

#[test]
fn collider_without_body_stands_free() {
    let mut world = ServerWorld::new();
    let round = world.apply(SyncRequest { rigid_bodies: vec![], colliders: vec![ball(9, 1.0)] });
    assert_eq!(round.collider_handles.len(), 1);
    assert_eq!(world.parent_of(round.collider_handles[0].1), None);
    assert_eq!(world.collider_of(9), Some(round.collider_handles[0].1));
    assert_eq!(world.body_of(9), None);
}

#[test]
fn collider_finds_body_of_an_earlier_round() {
    let mut world = ServerWorld::new();
    let first = world.apply(SyncRequest { rigid_bodies: vec![body(4, 1.0)], colliders: vec![] });
    let second = world.apply(SyncRequest { rigid_bodies: vec![], colliders: vec![ball(4, 0.2)] });
    assert_eq!(world.parent_of(second.collider_handles[0].1), Some(first.rigid_body_handles[0].1));
}

#[test]
fn growth_over_several_rounds() {
    let mut world = ServerWorld::new();
    let mut stepper = Stepper::new();
    let mut body_pairs = Vec::new();
    let mut collider_pairs = Vec::new();
    let mut next = 1u64;
    for (b, c) in [(3usize, 2usize), (0, 4), (5, 5), (1, 0)] {
        let bodies: Vec<(u64, RigidBody)> = (0..b).map(|i| body(next + i as u64, 2.0 + i as f32 * 2.0)).collect();
        let colliders: Vec<(u64, ColliderBuilder)> = (0..c).map(|i| ball(next + i as u64, 0.3)).collect();
        next += 100;
        let round = world.apply(SyncRequest { rigid_bodies: bodies, colliders });
        stepper.step(&mut world, 0.016);
        assert_eq!(round.rigid_body_handles.len(), b);
        assert_eq!(round.collider_handles.len(), c);
        body_pairs.extend(round.rigid_body_handles);
        collider_pairs.extend(round.collider_handles);
    }
    assert_eq!(body_pairs.len(), 9);
    assert_eq!(collider_pairs.len(), 11);
    let mut entities: Vec<u64> = body_pairs.iter().map(|p| p.0).collect();
    entities.sort();
    entities.dedup();
    assert_eq!(entities.len(), 9);
    for (e, h) in &body_pairs {
        assert_eq!(world.body_of(*e), Some(*h));
    }
    for (e, h) in &collider_pairs {
        assert_eq!(world.collider_of(*e), Some(*h));
    }
    assert_eq!(world.body_count(), 9);
}

#[test]
fn answer_lists_every_body() {
    let mut world = ServerWorld::new();
    let mut stepper = Stepper::new();
    let round = world.apply(SyncRequest { rigid_bodies: (1..=4).map(|e| body(e, 3.0 * e as f32)).collect(), colliders: vec![] });
    stepper.step(&mut world, 0.016);
    assert_eq!(world.respond(round).bodies.len(), 4);
    let round = world.apply(SyncRequest { rigid_bodies: (5..=7).map(|e| body(e, 3.0 * e as f32)).collect(), colliders: vec![] });
    stepper.step(&mut world, 0.016);
    let resp = world.respond(round);
    assert_eq!(resp.rigid_body_handles.len(), 3);
    assert_eq!(resp.bodies.len(), 7);
    let listed: Vec<u64> = resp.bodies.iter().map(|p| p.0).collect();
    assert_eq!(listed, (1..=7).collect::<Vec<u64>>());
}

#[test]
fn shutdown_ends_the_session_without_an_answer() {
    let mut world = ServerWorld::new();
    world.apply(SyncRequest { rigid_bodies: vec![body(1, 1.0)], colliders: vec![] });
    assert!(world.handle(Request::Shutdown).is_none());
    assert_eq!(world.body_count(), 1);
    let round = world.handle(Request::SyncContext(SyncRequest { rigid_bodies: vec![body(2, 1.0)], colliders: vec![] }));
    assert_eq!(round.unwrap().rigid_body_handles.len(), 1);
    assert_eq!(world.body_count(), 2);
}

#[test]
fn empty_round_changes_nothing() {
    let mut world = ServerWorld::new();
    let round = world.apply(SyncRequest { rigid_bodies: vec![], colliders: vec![] });
    assert!(round.rigid_body_handles.is_empty() && round.collider_handles.is_empty());
    assert_eq!(world.body_count(), 0);
    assert!(world.respond(round).bodies.is_empty());
}

#[test]
fn pairs_follow_request_order() {
    let mut world = ServerWorld::new();
    let round = world.apply(SyncRequest {
        rigid_bodies: vec![body(30, 1.0), body(10, 4.0), body(20, 8.0)],
        colliders: vec![ball(20, 0.3), ball(99, 0.3), ball(30, 0.3)],
    });
    let bodies: Vec<u64> = round.rigid_body_handles.iter().map(|p| p.0).collect();
    assert_eq!(bodies, vec![30, 10, 20]);
    let colliders: Vec<u64> = round.collider_handles.iter().map(|p| p.0).collect();
    assert_eq!(colliders, vec![20, 99, 30]);
    assert_eq!(world.parent_of(round.collider_handles[0].1), Some(round.rigid_body_handles[2].1));
    assert_eq!(world.parent_of(round.collider_handles[1].1), None);
    assert_eq!(world.parent_of(round.collider_handles[2].1), Some(round.rigid_body_handles[0].1));
}
