//! Actor payloads and the registry of payload types that a receiver resolves
//! them against.

use vstd::prelude::*;

verus! {

/// One named field of a payload, its value as text.
pub struct Field {
    pub name: String,
    pub value: String,
}

pub struct FieldView {
    pub name: Seq<char>,
    pub value: Seq<char>,
}

impl View for Field {
    type V = FieldView;

    open spec fn view(&self) -> FieldView {
        FieldView { name: self.name@, value: self.value@ }
    }
}

/// A self-describing unit of typed data: the initial components of one actor,
/// tagged with the path of its type.
pub struct ActorPayload {
    pub type_path: String,
    pub fields: Vec<Field>,
}

pub struct PayloadView {
    pub type_path: Seq<char>,
    pub fields: Seq<FieldView>,
}

impl View for ActorPayload {
    type V = PayloadView;

    open spec fn view(&self) -> PayloadView {
        PayloadView { type_path: self.type_path@, fields: field_views(self.fields@) }
    }
}

pub open spec fn field_views(v: Seq<Field>) -> Seq<FieldView> {
    v.map_values(|f: Field| f@)
}

pub open spec fn string_views(v: Seq<String>) -> Seq<Seq<char>> {
    v.map_values(|n: String| n@)
}

pub open spec fn payload_views(v: Seq<ActorPayload>) -> Seq<PayloadView> {
    v.map_values(|p: ActorPayload| p@)
}

/// What a receiver knows of one payload type: its path, the names of its fields
/// in order, and whether it can be rebuilt from a generic value and turned into
/// an actor's components.
pub struct TypeRegistration {
    pub type_path: String,
    pub field_names: Vec<String>,
    pub from_reflect: bool,
    pub actor_bundle: bool,
}

pub struct RegistrationView {
    pub type_path: Seq<char>,
    pub field_names: Seq<Seq<char>>,
    pub from_reflect: bool,
    pub actor_bundle: bool,
}

impl View for TypeRegistration {
    type V = RegistrationView;

    open spec fn view(&self) -> RegistrationView {
        RegistrationView {
            type_path: self.type_path@,
            field_names: string_views(self.field_names@),
            from_reflect: self.from_reflect,
            actor_bundle: self.actor_bundle,
        }
    }
}

/// The payload types a receiver accepts, in order of registration.
pub struct TypeRegistry {
    registrations: Vec<TypeRegistration>,
}

impl View for TypeRegistry {
    type V = Seq<RegistrationView>;

    closed spec fn view(&self) -> Seq<RegistrationView> {
        self.registrations@.map_values(|r: TypeRegistration| r@)
    }
}

/// Why a creation request could not be decoded.
#[derive(Clone, Copy, Debug, PartialEq, Eq, Structural)]
pub enum DecodeError {
    /// The bytes are cut short or malformed at a field boundary.
    SchemaViolation,
    /// A payload names a type that the registry does not hold.
    UnknownType,
    /// A payload's fields do not fit its type, or the type cannot be rebuilt.
    ReconstructionFailed,
    /// A payload's type cannot be turned into an actor's components.
    NotABundle,
}

/// The registration of `path`: the first one made for it.
pub open spec fn lookup(regs: Seq<RegistrationView>, path: Seq<char>) -> Option<RegistrationView>
    decreases regs.len(),
{
    if regs.len() == 0 {
        None
    } else if regs[0].type_path == path {
        Some(regs[0])
    } else {
        lookup(regs.drop_first(), path)
    }
}

/// The fields carry exactly the names the type declares, in its order.
pub open spec fn shape_matches(fields: Seq<FieldView>, names: Seq<Seq<char>>) -> bool {
    &&& fields.len() == names.len()
    &&& forall|i: int| 0 <= i < fields.len() ==> #[trigger] fields[i].name == names[i]
}

/// What resolving a generic payload against the registry gives: the payload
/// itself where its type is registered, fits and is an actor bundle; otherwise
/// the first of those checks that fails.
pub open spec fn resolve_payload(regs: Seq<RegistrationView>, p: PayloadView) -> Result<PayloadView, DecodeError> {
    match lookup(regs, p.type_path) {
        None => Err(DecodeError::UnknownType),
        Some(reg) => if !reg.from_reflect || !shape_matches(p.fields, reg.field_names) {
            Err(DecodeError::ReconstructionFailed)
        } else if !reg.actor_bundle {
            Err(DecodeError::NotABundle)
        } else {
            Ok(p)
        },
    }
}

impl TypeRegistry {
    pub fn new() -> (r: TypeRegistry)
        ensures
            r@ == Seq::<RegistrationView>::empty(),
    {
        let r = TypeRegistry { registrations: Vec::new() };
        assert(r@ =~= Seq::<RegistrationView>::empty());
        r
    }

    /// Adds a payload type. A path registered before keeps its first registration.
    pub fn register(&mut self, registration: TypeRegistration)
        ensures
            final(self)@ == old(self)@.push(registration@),
    {
        self.registrations.push(registration);
        assert(self@ =~= old(self)@.push(registration@));
    }

    pub fn len(&self) -> (r: usize)
        ensures
            r == self@.len(),
    {
        self.registrations.len()
    }

    /// The registration of `type_path`, if any.
    pub fn get(&self, type_path: &String) -> (r: Option<&TypeRegistration>)
        ensures
            match r {
                Some(reg) => lookup(self@, type_path@) == Some(reg@),
                None => lookup(self@, type_path@) is None,
            },
    {
        let mut i: usize = 0;
        assert(self@.skip(0) =~= self@);
        while i < self.registrations.len()
            invariant
                i <= self.registrations@.len(),
                lookup(self@, type_path@) == lookup(self@.skip(i as int), type_path@),
            decreases self.registrations@.len() - i,
        {
            let reg = &self.registrations[i];
            assert(self@.skip(i as int)[0] == reg@);
            if reg.type_path == *type_path {
                return Some(reg);
            }
            assert(self@.skip(i as int).drop_first() =~= self@.skip(i + 1));
            i = i + 1;
        }
        assert(self@.skip(i as int) =~= Seq::<RegistrationView>::empty());
        None
    }

    /// Rebuilds a generic payload as a value of its registered type, ready to be
    /// put on an actor.
    pub fn resolve(&self, payload: ActorPayload) -> (r: Result<ActorPayload, DecodeError>)
        ensures
            match r {
                Ok(p) => resolve_payload(self@, payload@) == Ok::<PayloadView, DecodeError>(p@),
                Err(e) => resolve_payload(self@, payload@) == Err::<PayloadView, DecodeError>(e),
            },
    {
        match self.get(&payload.type_path) {
            None => Err(DecodeError::UnknownType),
            Some(reg) => {
                if !reg.from_reflect || !fields_match(&payload.fields, &reg.field_names) {
                    Err(DecodeError::ReconstructionFailed)
                } else if !reg.actor_bundle {
                    Err(DecodeError::NotABundle)
                } else {
                    Ok(payload)
                }
            },
        }
    }
}

/// Whether `fields` carry exactly `names`, in order.
pub fn fields_match(fields: &Vec<Field>, names: &Vec<String>) -> (r: bool)
    ensures
        r == shape_matches(field_views(fields@), string_views(names@)),
{
    let ghost fv = field_views(fields@);
    let ghost nv = string_views(names@);
    if fields.len() != names.len() {
        return false;
    }
    let mut i: usize = 0;
    while i < fields.len()
        invariant
            i <= fields@.len(),
            fields@.len() == names@.len(),
            fv == field_views(fields@),
            nv == string_views(names@),
            forall|j: int| 0 <= j < i ==> #[trigger] fv[j].name == nv[j],
        decreases fields@.len() - i,
    {
        if fields[i].name != names[i] {
            assert(fv[i as int].name != nv[i as int]);
            return false;
        }
        i = i + 1;
    }
    true
}

} // verus!
