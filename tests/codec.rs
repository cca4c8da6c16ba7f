use family_replication::codec::{
    deserialize_family_create, encode_family_create, serialize_family_create, submit_create,
    FamilyCreate, FamilyScene,
};
use family_replication::registry::{
    fields_match, ActorPayload, DecodeError, Field, TypeRegistration, TypeRegistry,
};

fn field(name: &str, value: &str) -> Field {
    Field { name: name.to_string(), value: value.to_string() }
}

fn human(first: &str, last: &str) -> ActorPayload {
    ActorPayload {
        type_path: "game::actor::HumanBundle".to_string(),
        fields: vec![field("first_name", first), field("last_name", last), field("sex", "Female")],
    }
}

fn pet(name: &str) -> ActorPayload {
    ActorPayload { type_path: "game::actor::PetBundle".to_string(), fields: vec![field("name", name)] }
}

fn registry() -> TypeRegistry {
    let mut registry = TypeRegistry::new();
    registry.register(TypeRegistration {
        type_path: "game::actor::HumanBundle".to_string(),
        field_names: vec!["first_name".to_string(), "last_name".to_string(), "sex".to_string()],
        from_reflect: true,
        actor_bundle: true,
    });
    registry.register(TypeRegistration {
        type_path: "game::actor::PetBundle".to_string(),
        field_names: vec!["name".to_string()],
        from_reflect: true,
        actor_bundle: true,
    });
    registry
}

fn request(name: &str, actors: Vec<ActorPayload>, select: bool) -> FamilyCreate {
    FamilyCreate { scene: FamilyScene { name: name.to_string(), actors }, select }
}

fn same_payloads(a: &[ActorPayload], b: &[ActorPayload]) -> bool {
    a.len() == b.len()
        && a.iter().zip(b).all(|(x, y)| {
            x.type_path == y.type_path
                && x.fields.len() == y.fields.len()
                && x.fields.iter().zip(&y.fields).all(|(f, g)| f.name == g.name && f.value == g.value)
        })
}

fn decode_err(bytes: &[u8], registry: &TypeRegistry) -> DecodeError {
    match deserialize_family_create(bytes, registry) {
        Ok(_) => panic!("decoding was expected to fail"),
        Err(e) => e,
    }
}

#[test]
fn empty_request_bytes_are_exact() {
    let bytes = encode_family_create(&request("Smiths", vec![], true));
    assert_eq!(bytes, vec![6, b'S', b'm', b'i', b't', b'h', b's', 0, 1]);
}

#[test]
fn payload_bytes_are_exact() {
    let bytes = encode_family_create(&request("A", vec![pet("Rex")], false));
    let mut expected = vec![1, b'A', 1, 22];
    expected.extend_from_slice(b"game::actor::PetBundle");
    expected.extend_from_slice(&[1, 4]);
    expected.extend_from_slice(b"name");
    expected.push(3);
    expected.extend_from_slice(b"Rex");
    expected.push(0);
    assert_eq!(bytes, expected);
}

#[test]
fn long_name_takes_a_three_byte_length() {
    let name = "x".repeat(300);
    let bytes = encode_family_create(&request(&name, vec![], false));
    assert_eq!(&bytes[..3], &[251, 44, 1]);
    assert_eq!(bytes.len(), 3 + 300 + 2);
    let decoded = deserialize_family_create(&bytes, &registry()).unwrap();
    assert_eq!(decoded.scene.name, name);
}

#[test]
fn multibyte_name_counts_bytes() {
    let bytes = encode_family_create(&request("Ström", vec![], false));
    assert_eq!(bytes[0], 6);
    let decoded = deserialize_family_create(&bytes, &registry()).unwrap();
    assert_eq!(decoded.scene.name, "Ström");
}

#[test]
fn serialize_appends_to_what_is_there() {
    let mut out = vec![9, 9];
    serialize_family_create(&request("Smiths", vec![], false), &mut out);
    assert_eq!(out, vec![9, 9, 6, b'S', b'm', b'i', b't', b'h', b's', 0, 0]);
}

#[test]
fn round_trip_keeps_every_field() {
    let sent = request("Smiths", vec![human("Ann", "Smith"), pet("Rex"), human("Bo", "Smith")], true);
    let bytes = encode_family_create(&sent);
    let decoded = deserialize_family_create(&bytes, &registry()).unwrap();
    assert_eq!(decoded.scene.name, "Smiths");
    assert!(decoded.select);
    assert!(same_payloads(&decoded.scene.actors, &sent.scene.actors));
}

#[test]
fn round_trip_without_select() {
    let sent = request("Jones", vec![pet("Tom")], false);
    let decoded = deserialize_family_create(&encode_family_create(&sent), &registry()).unwrap();
    assert!(!decoded.select);
    assert!(same_payloads(&decoded.scene.actors, &sent.scene.actors));
}

#[test]
fn every_strict_prefix_is_a_schema_violation() {
    let bytes = encode_family_create(&request("Smiths", vec![human("Ann", "Smith"), pet("Rex")], true));
    let registry = registry();
    for n in 0..bytes.len() {
        assert_eq!(decode_err(&bytes[..n], &registry), DecodeError::SchemaViolation, "prefix {}", n);
    }
}

#[test]
fn trailing_bytes_are_not_read() {
    let mut bytes = encode_family_create(&request("Smiths", vec![pet("Rex")], true));
    bytes.extend_from_slice(&[7, 7, 7]);
    let decoded = deserialize_family_create(&bytes, &registry()).unwrap();
    assert_eq!(decoded.scene.name, "Smiths");
    assert_eq!(decoded.scene.actors.len(), 1);
}

#[test]
fn unknown_type_is_rejected() {
    let stranger = ActorPayload { type_path: "game::actor::Ghost".to_string(), fields: vec![] };
    let bytes = encode_family_create(&request("Smiths", vec![pet("Rex"), stranger], true));
    assert_eq!(decode_err(&bytes, &registry()), DecodeError::UnknownType);
}

#[test]
fn first_failing_payload_decides() {
    let stranger = ActorPayload { type_path: "game::actor::Ghost".to_string(), fields: vec![] };
    let misshapen = ActorPayload { type_path: "game::actor::PetBundle".to_string(), fields: vec![] };
    let bytes = encode_family_create(&request("Smiths", vec![misshapen, stranger], true));
    assert_eq!(decode_err(&bytes, &registry()), DecodeError::ReconstructionFailed);
}

#[test]
fn wrong_field_names_fail_reconstruction() {
    let odd = ActorPayload {
        type_path: "game::actor::PetBundle".to_string(),
        fields: vec![field("nickname", "Rex")],
    };
    let bytes = encode_family_create(&request("Smiths", vec![odd], false));
    assert_eq!(decode_err(&bytes, &registry()), DecodeError::ReconstructionFailed);
}

#[test]
fn type_without_from_reflect_fails_reconstruction() {
    let mut registry = TypeRegistry::new();
    registry.register(TypeRegistration {
        type_path: "game::actor::PetBundle".to_string(),
        field_names: vec!["name".to_string()],
        from_reflect: false,
        actor_bundle: true,
    });
    let bytes = encode_family_create(&request("Smiths", vec![pet("Rex")], false));
    assert_eq!(decode_err(&bytes, &registry), DecodeError::ReconstructionFailed);
}

#[test]
fn type_that_is_no_bundle_is_rejected() {
    let mut registry = TypeRegistry::new();
    registry.register(TypeRegistration {
        type_path: "game::actor::PetBundle".to_string(),
        field_names: vec!["name".to_string()],
        from_reflect: true,
        actor_bundle: false,
    });
    let bytes = encode_family_create(&request("Smiths", vec![pet("Rex")], false));
    assert_eq!(decode_err(&bytes, &registry), DecodeError::NotABundle);
}

#[test]
fn first_registration_wins() {
    let mut registry = registry();
    registry.register(TypeRegistration {
        type_path: "game::actor::PetBundle".to_string(),
        field_names: vec!["name".to_string()],
        from_reflect: true,
        actor_bundle: false,
    });
    assert_eq!(registry.len(), 3);
    let path = "game::actor::PetBundle".to_string();
    assert!(registry.get(&path).unwrap().actor_bundle);
    let bytes = encode_family_create(&request("Smiths", vec![pet("Rex")], false));
    assert!(deserialize_family_create(&bytes, &registry).is_ok());
}

#[test]
fn bad_flag_byte_is_a_schema_violation() {
    let mut bytes = encode_family_create(&request("Smiths", vec![], true));
    let last = bytes.len() - 1;
    bytes[last] = 2;
    assert_eq!(decode_err(&bytes, &registry()), DecodeError::SchemaViolation);
}

#[test]
fn invalid_utf8_is_a_schema_violation() {
    let bytes = vec![2, 0xC3, 0x28, 0, 0];
    assert_eq!(decode_err(&bytes, &registry()), DecodeError::SchemaViolation);
}

#[test]
fn reserved_length_marker_is_a_schema_violation() {
    assert_eq!(decode_err(&[254, 0, 0, 0], &registry()), DecodeError::SchemaViolation);
    assert_eq!(decode_err(&[255], &registry()), DecodeError::SchemaViolation);
}

#[test]
fn huge_declared_length_is_refused_without_allocating() {
    let bytes = vec![253, 255, 255, 255, 255, 255, 255, 255, 127, b'a'];
    assert_eq!(decode_err(&bytes, &registry()), DecodeError::SchemaViolation);
}

#[test]
fn huge_payload_count_is_refused() {
    let bytes = vec![1, b'A', 253, 255, 255, 255, 255, 255, 255, 255, 255];
    assert_eq!(decode_err(&bytes, &registry()), DecodeError::SchemaViolation);
}

#[test]
fn empty_input_is_a_schema_violation() {
    assert_eq!(decode_err(&[], &registry()), DecodeError::SchemaViolation);
}

#[test]
fn field_names_are_compared_in_order() {
    let fields = vec![field("a", "1"), field("b", "2")];
    assert!(fields_match(&fields, &vec!["a".to_string(), "b".to_string()]));
    assert!(!fields_match(&fields, &vec!["b".to_string(), "a".to_string()]));
    assert!(!fields_match(&fields, &vec!["a".to_string()]));
}

#[test]
fn submit_create_matches_encoding() {
    let bytes = submit_create("Smiths".to_string(), vec![pet("Rex")], true);
    assert_eq!(bytes, encode_family_create(&request("Smiths", vec![pet("Rex")], true)));
    let decoded = deserialize_family_create(&bytes, &registry()).unwrap();
    assert_eq!(decoded.scene.actors[0].fields[0].value, "Rex");
}
