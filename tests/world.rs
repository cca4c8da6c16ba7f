use family_replication::codec::{encode_family_create, FamilyCreate, FamilyScene};
use family_replication::family::{
    deselect, record_new_member, select, Actor, Budget, CreateOutcome, DeleteError, FamilyMode,
    SelectedFamily, SelectedFamilyCreated, World,
};
use family_replication::registry::{ActorPayload, DecodeError, Field, TypeRegistration, TypeRegistry};

fn payload(type_path: &str, name: &str) -> ActorPayload {
    ActorPayload {
        type_path: type_path.to_string(),
        fields: vec![Field { name: "name".to_string(), value: name.to_string() }],
    }
}

fn registry() -> TypeRegistry {
    let mut registry = TypeRegistry::new();
    for path in ["PayloadA", "PayloadB"] {
        registry.register(TypeRegistration {
            type_path: path.to_string(),
            field_names: vec!["name".to_string()],
            from_reflect: true,
            actor_bundle: true,
        });
    }
    registry
}

fn smiths(select: bool) -> FamilyCreate {
    FamilyCreate {
        scene: FamilyScene {
            name: "Smiths".to_string(),
            actors: vec![payload("PayloadA", "Ann"), payload("PayloadB", "Bo")],
        },
        select,
    }
}

#[test]
fn smiths_example() {
    let mut world = World::new();
    let bytes = encode_family_create(&smiths(true));
    let outcome = world.receive_create(&bytes, &registry(), 0, 42).unwrap();
    assert_eq!(outcome.family, 0);
    assert_eq!(outcome.confirmation, Some(SelectedFamilyCreated { client: 42, family: 0 }));
    let family = world.family(outcome.family).unwrap();
    assert_eq!(family.name, "Smiths");
    assert_eq!(family.members.0.len(), 2);
    assert_eq!(family.budget, Budget(20_000));
    assert_eq!(world.len(), 3);
}

#[test]
fn members_are_owned_by_the_new_family() {
    let mut world = World::new();
    world.apply_create(smiths(false), 0, 1);
    let outcome = world.apply_create(smiths(false), 1, 1);
    assert_eq!(outcome.family, 3);
    let members = world.family(3).unwrap().members.0.clone();
    assert_eq!(members, vec![4, 5]);
    for (i, m) in members.iter().enumerate() {
        let actor = world.actor(*m).unwrap();
        assert_eq!(actor.family_entity, 3);
        assert_eq!(actor.parent, Some(1));
        assert_eq!(actor.payload.type_path, ["PayloadA", "PayloadB"][i]);
    }
}

#[test]
fn no_confirmation_without_select() {
    let mut world = World::new();
    let outcome = world.apply_create(smiths(false), 0, 42);
    assert_eq!(outcome, CreateOutcome { family: 0, confirmation: None });
}

#[test]
fn family_without_actors() {
    let mut world = World::new();
    let request = FamilyCreate {
        scene: FamilyScene { name: "Empty".to_string(), actors: vec![] },
        select: true,
    };
    let outcome = world.apply_create(request, 0, 5);
    assert_eq!(world.family(outcome.family).unwrap().members.0.len(), 0);
    assert_eq!(outcome.confirmation, Some(SelectedFamilyCreated { client: 5, family: 0 }));
}

#[test]
fn rejected_request_changes_nothing() {
    let mut world = World::new();
    world.apply_create(smiths(false), 0, 1);
    let mut request = smiths(true);
    request.scene.actors.push(payload("PayloadZ", "Zed"));
    let bytes = encode_family_create(&request);
    let result = world.receive_create(&bytes, &registry(), 0, 42);
    assert_eq!(result.unwrap_err(), DecodeError::UnknownType);
    assert_eq!(world.len(), 3);
    assert!(world.family(3).is_none());
}

#[test]
fn truncated_request_changes_nothing() {
    let mut world = World::new();
    let bytes = encode_family_create(&smiths(true));
    let result = world.receive_create(&bytes[..bytes.len() - 1], &registry(), 0, 42);
    assert_eq!(result.unwrap_err(), DecodeError::SchemaViolation);
    assert_eq!(world.len(), 0);
}

#[test]
fn delete_removes_family_and_members() {
    let mut world = World::new();
    world.apply_create(smiths(false), 99, 1);
    world.apply_create(smiths(false), 99, 1);
    assert_eq!(world.apply_delete(0), Ok(()));
    assert!(!world.contains(0));
    assert!(!world.contains(1));
    assert!(!world.contains(2));
    assert!(world.family(3).is_some());
    assert!(world.actor(4).is_some());
    assert_eq!(world.family(3).unwrap().members.0, vec![4, 5]);
}

#[test]
fn second_delete_is_not_found() {
    let mut world = World::new();
    world.apply_create(smiths(false), 0, 1);
    assert_eq!(world.apply_delete(0), Ok(()));
    assert_eq!(world.apply_delete(0), Err(DeleteError::NotFound));
}

#[test]
fn delete_of_an_actor_or_nothing_is_not_found() {
    let mut world = World::new();
    world.apply_create(smiths(false), 0, 1);
    assert_eq!(world.apply_delete(1), Err(DeleteError::NotFound));
    assert_eq!(world.apply_delete(99), Err(DeleteError::NotFound));
    assert!(world.actor(1).is_some());
}

#[test]
fn select_marks_the_actors_family() {
    let mut world = World::new();
    world.apply_create(smiths(false), 0, 1);
    world.apply_create(smiths(false), 0, 1);
    select(&mut world, 5);
    assert_eq!(world.family(3).unwrap().selected, Some(SelectedFamily));
    assert_eq!(world.family(0).unwrap().selected, None);
    deselect(&mut world, 4);
    assert_eq!(world.family(3).unwrap().selected, None);
}

#[test]
fn select_of_a_non_actor_does_nothing() {
    let mut world = World::new();
    world.apply_create(smiths(false), 0, 1);
    select(&mut world, 0);
    select(&mut world, 50);
    assert_eq!(world.family(0).unwrap().selected, None);
}

#[test]
fn new_member_event_is_addressed_to_the_family() {
    let actor = Actor { family_entity: 3, parent: None, payload: payload("PayloadA", "Ann") };
    let event = record_new_member(9, &actor);
    assert_eq!(event.member, 9);
    assert_eq!(event.family, 3);
}

#[test]
fn budget_starts_at_twenty_thousand() {
    assert_eq!(Budget::default(), Budget(20_000));
}

#[test]
fn mode_glyphs() {
    assert_eq!(FamilyMode::Life.glyph(), "\u{1F46A}");
    assert_eq!(FamilyMode::Building.glyph(), "\u{1F3E0}");
}

#[test]
fn families_lists_live_families_in_order() {
    let mut world = World::new();
    assert!(world.families().is_empty());
    world.apply_create(smiths(false), 0, 1);
    world.apply_create(smiths(false), 0, 1);
    world.apply_create(smiths(false), 0, 1);
    assert_eq!(world.families(), vec![0, 3, 6]);
    world.apply_delete(3).unwrap();
    assert_eq!(world.families(), vec![0, 6]);
}

#[test]
fn target_that_is_not_there_gives_no_parent() {
    let mut world = World::new();
    world.apply_create(smiths(false), 7, 1);
    assert_eq!(world.actor(1).unwrap().parent, None);
    world.apply_create(smiths(false), 0, 1);
    assert_eq!(world.actor(4).unwrap().parent, Some(0));
}

fn single(name: &str) -> FamilyCreate {
    FamilyCreate {
        scene: FamilyScene { name: name.to_string(), actors: vec![payload("PayloadA", name)] },
        select: false,
    }
}

#[test]
fn delete_removes_what_hangs_under_members() {
    let mut world = World::new();
    world.apply_create(single("A"), 0, 1);
    world.apply_create(single("B"), 1, 1);
    assert_eq!(world.actor(3).unwrap().parent, Some(1));
    assert_eq!(world.family(2).unwrap().members.0, vec![3]);
    assert_eq!(world.apply_delete(0), Ok(()));
    assert!(!world.contains(0));
    assert!(!world.contains(1));
    assert!(!world.contains(3));
    assert!(world.family(2).unwrap().members.0.is_empty());
}

#[test]
fn delete_follows_the_whole_chain() {
    let mut world = World::new();
    world.apply_create(single("A"), 0, 1);
    world.apply_create(single("B"), 1, 1);
    world.apply_create(single("C"), 3, 1);
    world.apply_create(single("D"), 2, 1);
    assert_eq!(world.apply_delete(0), Ok(()));
    assert!(!world.contains(3));
    assert!(!world.contains(5));
    assert!(world.family(2).is_some());
    assert!(world.family(4).unwrap().members.0.is_empty());
    assert_eq!(world.family(6).unwrap().members.0, vec![7]);
    assert_eq!(world.actor(7).unwrap().parent, Some(2));
}

#[test]
fn member_announced_before_its_family_joins_it_later() {
    let mut world = World::new();
    let family = world.reserve();
    assert_eq!(family, 0);
    assert!(world.family(family).is_none());
    let ann = world.spawn_actor(family, 99, payload("PayloadA", "Ann")).unwrap();
    let bo = world.spawn_actor(family, ann, payload("PayloadB", "Bo")).unwrap();
    assert_eq!((ann, bo), (1, 2));
    assert_eq!(world.actor(bo).unwrap().parent, Some(1));
    assert!(world.init_family(family, "Late".to_string()));
    let f = world.family(family).unwrap();
    assert_eq!(f.name, "Late");
    assert_eq!(f.members.0, vec![1, 2]);
    assert_eq!(f.budget, Budget(20_000));
    assert!(!world.init_family(family, "Again".to_string()));
}

#[test]
fn held_events_wait_for_their_own_family() {
    let mut world = World::new();
    let first = world.reserve();
    let second = world.reserve();
    world.spawn_actor(second, 99, payload("PayloadA", "Ann")).unwrap();
    world.spawn_actor(first, 99, payload("PayloadA", "Bo")).unwrap();
    assert!(world.init_family(first, "First".to_string()));
    assert_eq!(world.family(first).unwrap().members.0, vec![3]);
    assert!(world.init_family(second, "Second".to_string()));
    assert_eq!(world.family(second).unwrap().members.0, vec![2]);
}

#[test]
fn spawn_into_a_family_appends_at_once() {
    let mut world = World::new();
    world.apply_create(smiths(false), 99, 1);
    let extra = world.spawn_actor(0, 1, payload("PayloadA", "Cy")).unwrap();
    assert_eq!(extra, 3);
    assert_eq!(world.family(0).unwrap().members.0, vec![1, 2, 3]);
}

#[test]
fn spawn_for_no_family_is_refused() {
    let mut world = World::new();
    world.apply_create(smiths(false), 99, 1);
    assert_eq!(world.spawn_actor(1, 0, payload("PayloadA", "Cy")), None);
    assert_eq!(world.spawn_actor(50, 0, payload("PayloadA", "Cy")), None);
    assert_eq!(world.len(), 3);
}

#[test]
fn delete_drops_held_events_of_removed_actors() {
    let mut world = World::new();
    world.apply_create(single("A"), 99, 1);
    let later = world.reserve();
    world.spawn_actor(later, 1, payload("PayloadA", "Under A")).unwrap();
    world.spawn_actor(later, 99, payload("PayloadA", "Free")).unwrap();
    assert_eq!(world.apply_delete(0), Ok(()));
    assert!(!world.contains(3));
    assert!(world.actor(4).is_some());
    assert!(world.init_family(later, "Later".to_string()));
    assert_eq!(world.family(later).unwrap().members.0, vec![4]);
}

#[test]
fn delete_spares_what_hangs_under_the_family_entity() {
    let mut world = World::new();
    world.apply_create(single("A"), 99, 1);
    world.apply_create(single("B"), 0, 1);
    assert_eq!(world.actor(3).unwrap().parent, Some(0));
    world.apply_create(single("C"), 3, 1);
    assert_eq!(world.apply_delete(0), Ok(()));
    assert!(!world.contains(0));
    assert!(!world.contains(1));
    assert_eq!(world.actor(3).unwrap().family_entity, 2);
    assert_eq!(world.family(2).unwrap().members.0, vec![3]);
    assert_eq!(world.family(4).unwrap().members.0, vec![5]);
}
