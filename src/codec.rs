//! The wire form of a family creation request: its name, the number of actor
//! payloads, each payload (type path, field count, then each field's name and
//! value), and the selection flag, in that order.

use crate::registry::{
    field_views, payload_views, resolve_payload, ActorPayload, DecodeError, Field, FieldView,
    PayloadView, RegistrationView, TypeRegistry,
};
use crate::wire::{
    bool_bytes, bool_read, len_bytes, len_read, read_bool, read_len, read_string, str_bytes,
    str_read, lemma_reads_within, write_bool, write_len, write_string, starts_with, cut_of,
    lemma_starts_split, lemma_cut_split, lemma_str_read, lemma_str_cut, lemma_len_read,
    lemma_len_cut, lemma_bool_read,
};
use crate::registry::lookup;
use vstd::utf8::encode_utf8;
use vstd::prelude::*;

verus! {

/// A family as the client edited it: its name and the payload of each actor.
pub struct FamilyScene {
    pub name: String,
    pub actors: Vec<ActorPayload>,
}

/// A request to create a family; `select` asks the authority to confirm the
/// creation to the sender, which then selects the new family.
pub struct FamilyCreate {
    pub scene: FamilyScene,
    pub select: bool,
}

pub struct RequestView {
    pub name: Seq<char>,
    pub actors: Seq<PayloadView>,
    pub select: bool,
}

impl View for FamilyCreate {
    type V = RequestView;

    open spec fn view(&self) -> RequestView {
        RequestView {
            name: self.scene.name@,
            actors: payload_views(self.scene.actors@),
            select: self.select,
        }
    }
}

// ---- the encoding ----

pub open spec fn field_bytes(f: FieldView) -> Seq<u8> {
    str_bytes(f.name) + str_bytes(f.value)
}

pub open spec fn fields_bytes(fs: Seq<FieldView>) -> Seq<u8>
    decreases fs.len(),
{
    if fs.len() == 0 {
        Seq::empty()
    } else {
        field_bytes(fs[0]) + fields_bytes(fs.drop_first())
    }
}

pub open spec fn payload_bytes(p: PayloadView) -> Seq<u8> {
    str_bytes(p.type_path) + len_bytes(p.fields.len() as usize) + fields_bytes(p.fields)
}

pub open spec fn payloads_bytes(ps: Seq<PayloadView>) -> Seq<u8>
    decreases ps.len(),
{
    if ps.len() == 0 {
        Seq::empty()
    } else {
        payload_bytes(ps[0]) + payloads_bytes(ps.drop_first())
    }
}

/// The bytes of a creation request.
pub open spec fn request_bytes(r: RequestView) -> Seq<u8> {
    str_bytes(r.name) + len_bytes(r.actors.len() as usize) + payloads_bytes(r.actors) + bool_bytes(
        r.select,
    )
}

// ---- the decoding ----

/// A field at `pos`, and where it ends.
pub open spec fn parse_field(b: Seq<u8>, pos: int) -> Option<(FieldView, int)> {
    match str_read(b.skip(pos)) {
        None => None,
        Some((name, n1)) => match str_read(b.skip(pos + n1)) {
            None => None,
            Some((value, n2)) => Some((FieldView { name, value }, pos + n1 + n2)),
        },
    }
}

/// `k` fields from `pos`, and where they end.
pub open spec fn parse_fields(b: Seq<u8>, pos: int, k: nat) -> Option<(Seq<FieldView>, int)>
    decreases k,
{
    if k == 0 {
        Some((Seq::empty(), pos))
    } else {
        match parse_field(b, pos) {
            None => None,
            Some((f, next)) => match parse_fields(b, next, (k - 1) as nat) {
                None => None,
                Some((fs, end)) => Some((seq![f] + fs, end)),
            },
        }
    }
}

/// The generic form of a payload at `pos`, and where it ends.
pub open spec fn parse_generic(b: Seq<u8>, pos: int) -> Option<(PayloadView, int)> {
    match str_read(b.skip(pos)) {
        None => None,
        Some((path, n1)) => match len_read(b.skip(pos + n1)) {
            None => None,
            Some((count, n2)) => match parse_fields(b, pos + n1 + n2, count as nat) {
                None => None,
                Some((fields, p)) => Some((PayloadView { type_path: path, fields }, p)),
            },
        },
    }
}

/// A payload at `pos`, resolved against the registry, and where it ends.
pub open spec fn parse_payload(b: Seq<u8>, pos: int, regs: Seq<RegistrationView>) -> Result<
    (PayloadView, int),
    DecodeError,
> {
    match parse_generic(b, pos) {
        None => Err(DecodeError::SchemaViolation),
        Some((g, p)) => match resolve_payload(regs, g) {
            Ok(x) => Ok((x, p)),
            Err(e) => Err(e),
        },
    }
}

/// `k` payloads from `pos`, and where they end; the first failure stops it.
pub open spec fn parse_payloads(b: Seq<u8>, pos: int, k: nat, regs: Seq<RegistrationView>) -> Result<
    (Seq<PayloadView>, int),
    DecodeError,
>
    decreases k,
{
    if k == 0 {
        Ok((Seq::empty(), pos))
    } else {
        match parse_payload(b, pos, regs) {
            Err(e) => Err(e),
            Ok((x, next)) => match parse_payloads(b, next, (k - 1) as nat, regs) {
                Err(e) => Err(e),
                Ok((xs, end)) => Ok((seq![x] + xs, end)),
            },
        }
    }
}

/// What decoding `b` against the registry gives. Bytes after the flag are not read.
pub open spec fn parse_request(b: Seq<u8>, regs: Seq<RegistrationView>) -> Result<RequestView, DecodeError> {
    match str_read(b) {
        None => Err(DecodeError::SchemaViolation),
        Some((name, n1)) => match len_read(b.skip(n1 as int)) {
            None => Err(DecodeError::SchemaViolation),
            Some((count, n2)) => match parse_payloads(b, (n1 + n2) as int, count as nat, regs) {
                Err(e) => Err(e),
                Ok((actors, p)) => match bool_read(b.skip(p)) {
                    None => Err(DecodeError::SchemaViolation),
                    Some((select, _)) => Ok(RequestView { name, actors, select }),
                },
            },
        },
    }
}

// ---- what holds of encoded requests ----

/// A string whose UTF-8 length bincode can write.
pub open spec fn str_fits(s: Seq<char>) -> bool {
    encode_utf8(s).len() <= u64::MAX
}

pub open spec fn field_fits(f: FieldView) -> bool {
    str_fits(f.name) && str_fits(f.value)
}

pub open spec fn payload_fits(p: PayloadView) -> bool {
    &&& str_fits(p.type_path)
    &&& p.fields.len() <= usize::MAX
    &&& forall|i: int| 0 <= i < p.fields.len() ==> #[trigger] field_fits(p.fields[i])
}

/// Every length in the request fits the integers it is written as.
pub open spec fn request_fits(r: RequestView) -> bool {
    &&& str_fits(r.name)
    &&& r.actors.len() <= usize::MAX
    &&& forall|i: int| 0 <= i < r.actors.len() ==> #[trigger] payload_fits(r.actors[i])
}

/// The error of the first payload that does not resolve, if any.
pub open spec fn first_error(regs: Seq<RegistrationView>, ps: Seq<PayloadView>) -> Option<DecodeError>
    decreases ps.len(),
{
    if ps.len() == 0 {
        None
    } else {
        match resolve_payload(regs, ps[0]) {
            Err(e) => Some(e),
            Ok(_) => first_error(regs, ps.drop_first()),
        }
    }
}

/// A request that the receiver can take: its lengths fit and every payload
/// resolves against the registry.
pub open spec fn request_valid(r: RequestView, regs: Seq<RegistrationView>) -> bool {
    &&& request_fits(r)
    &&& forall|i: int| 0 <= i < r.actors.len() ==> (#[trigger] resolve_payload(regs, r.actors[i])) is Ok
}

proof fn lemma_field(f: FieldView, b: Seq<u8>, pos: int)
    requires
        0 <= pos <= b.len(),
        field_fits(f),
        starts_with(b.skip(pos), field_bytes(f)),
    ensures
        parse_field(b, pos) == Some((f, pos + field_bytes(f).len())),
{
    lemma_starts_split(b, pos, str_bytes(f.name), str_bytes(f.value));
    lemma_str_read(f.name, b.skip(pos));
    lemma_str_read(f.value, b.skip(pos + str_bytes(f.name).len()));
}

proof fn lemma_field_cut(f: FieldView, b: Seq<u8>, pos: int)
    requires
        0 <= pos <= b.len(),
        field_fits(f),
        cut_of(b.skip(pos), field_bytes(f)),
    ensures
        parse_field(b, pos) is None,
{
    lemma_cut_split(b, pos, str_bytes(f.name), str_bytes(f.value));
    if cut_of(b.skip(pos), str_bytes(f.name)) {
        lemma_str_cut(f.name, b.skip(pos));
    } else {
        lemma_str_read(f.name, b.skip(pos));
        lemma_str_cut(f.value, b.skip(pos + str_bytes(f.name).len()));
    }
}

proof fn lemma_fields(fs: Seq<FieldView>, b: Seq<u8>, pos: int)
    requires
        0 <= pos <= b.len(),
        forall|i: int| 0 <= i < fs.len() ==> #[trigger] field_fits(fs[i]),
        starts_with(b.skip(pos), fields_bytes(fs)),
    ensures
        parse_fields(b, pos, fs.len()) == Some((fs, pos + fields_bytes(fs).len())),
    decreases fs.len(),
{
    if fs.len() == 0 {
        assert(fs =~= Seq::<FieldView>::empty());
    } else {
        let e0 = field_bytes(fs[0]);
        let rest = fs.drop_first();
        lemma_starts_split(b, pos, e0, fields_bytes(rest));
        assert(field_fits(fs[0]));
        lemma_field(fs[0], b, pos);
        assert forall|i: int| 0 <= i < rest.len() implies #[trigger] field_fits(rest[i]) by {
            assert(field_fits(fs[i + 1]));
        }
        lemma_fields(rest, b, pos + e0.len());
        assert(seq![fs[0]] + rest =~= fs);
    }
}

proof fn lemma_fields_cut(fs: Seq<FieldView>, b: Seq<u8>, pos: int)
    requires
        0 <= pos <= b.len(),
        forall|i: int| 0 <= i < fs.len() ==> #[trigger] field_fits(fs[i]),
        cut_of(b.skip(pos), fields_bytes(fs)),
    ensures
        parse_fields(b, pos, fs.len()) is None,
    decreases fs.len(),
{
    if fs.len() > 0 {
        let e0 = field_bytes(fs[0]);
        let rest = fs.drop_first();
        lemma_cut_split(b, pos, e0, fields_bytes(rest));
        assert(field_fits(fs[0]));
        if cut_of(b.skip(pos), e0) {
            lemma_field_cut(fs[0], b, pos);
        } else {
            lemma_field(fs[0], b, pos);
            assert forall|i: int| 0 <= i < rest.len() implies #[trigger] field_fits(rest[i]) by {
                assert(field_fits(fs[i + 1]));
            }
            lemma_fields_cut(rest, b, pos + e0.len());
        }
    }
}

proof fn lemma_generic(p: PayloadView, b: Seq<u8>, pos: int)
    requires
        0 <= pos <= b.len(),
        payload_fits(p),
        starts_with(b.skip(pos), payload_bytes(p)),
    ensures
        parse_generic(b, pos) == Some((p, pos + payload_bytes(p).len())),
{
    let s = str_bytes(p.type_path);
    let l = len_bytes(p.fields.len() as usize);
    lemma_starts_split(b, pos, s + l, fields_bytes(p.fields));
    lemma_starts_split(b, pos, s, l);
    lemma_str_read(p.type_path, b.skip(pos));
    lemma_len_read(p.fields.len() as usize, b.skip(pos + s.len()));
    lemma_fields(p.fields, b, pos + s.len() + l.len());
}

proof fn lemma_generic_cut(p: PayloadView, b: Seq<u8>, pos: int)
    requires
        0 <= pos <= b.len(),
        payload_fits(p),
        cut_of(b.skip(pos), payload_bytes(p)),
    ensures
        parse_generic(b, pos) is None,
{
    let s = str_bytes(p.type_path);
    let l = len_bytes(p.fields.len() as usize);
    lemma_cut_split(b, pos, s + l, fields_bytes(p.fields));
    if cut_of(b.skip(pos), s + l) {
        lemma_cut_split(b, pos, s, l);
        if cut_of(b.skip(pos), s) {
            lemma_str_cut(p.type_path, b.skip(pos));
        } else {
            lemma_str_read(p.type_path, b.skip(pos));
            lemma_len_cut(p.fields.len() as usize, b.skip(pos + s.len()));
        }
    } else {
        lemma_starts_split(b, pos, s, l);
        lemma_str_read(p.type_path, b.skip(pos));
        lemma_len_read(p.fields.len() as usize, b.skip(pos + s.len()));
        lemma_fields_cut(p.fields, b, pos + s.len() + l.len());
    }
}

proof fn lemma_payloads(ps: Seq<PayloadView>, b: Seq<u8>, pos: int, regs: Seq<RegistrationView>)
    requires
        0 <= pos <= b.len(),
        forall|i: int| 0 <= i < ps.len() ==> #[trigger] payload_fits(ps[i]),
        starts_with(b.skip(pos), payloads_bytes(ps)),
    ensures
        parse_payloads(b, pos, ps.len(), regs) == match first_error(regs, ps) {
            None => Ok((ps, pos + payloads_bytes(ps).len())),
            Some(e) => Err(e),
        },
    decreases ps.len(),
{
    if ps.len() == 0 {
        assert(ps =~= Seq::<PayloadView>::empty());
    } else {
        let e0 = payload_bytes(ps[0]);
        let rest = ps.drop_first();
        lemma_starts_split(b, pos, e0, payloads_bytes(rest));
        assert(payload_fits(ps[0]));
        lemma_generic(ps[0], b, pos);
        assert forall|i: int| 0 <= i < rest.len() implies #[trigger] payload_fits(rest[i]) by {
            assert(payload_fits(ps[i + 1]));
        }
        lemma_payloads(rest, b, pos + e0.len(), regs);
        assert(seq![ps[0]] + rest =~= ps);
    }
}

proof fn lemma_payloads_cut(ps: Seq<PayloadView>, b: Seq<u8>, pos: int, regs: Seq<RegistrationView>)
    requires
        0 <= pos <= b.len(),
        forall|i: int| 0 <= i < ps.len() ==> #[trigger] payload_fits(ps[i]),
        first_error(regs, ps) is None,
        cut_of(b.skip(pos), payloads_bytes(ps)),
    ensures
        parse_payloads(b, pos, ps.len(), regs) == Err::<(Seq<PayloadView>, int), DecodeError>(
            DecodeError::SchemaViolation,
        ),
    decreases ps.len(),
{
    if ps.len() > 0 {
        let e0 = payload_bytes(ps[0]);
        let rest = ps.drop_first();
        lemma_cut_split(b, pos, e0, payloads_bytes(rest));
        assert(payload_fits(ps[0]));
        if cut_of(b.skip(pos), e0) {
            lemma_generic_cut(ps[0], b, pos);
        } else {
            lemma_generic(ps[0], b, pos);
            assert forall|i: int| 0 <= i < rest.len() implies #[trigger] payload_fits(rest[i]) by {
                assert(payload_fits(ps[i + 1]));
            }
            lemma_payloads_cut(rest, b, pos + e0.len(), regs);
        }
    }
}

proof fn lemma_no_error(regs: Seq<RegistrationView>, ps: Seq<PayloadView>)
    requires
        forall|i: int| 0 <= i < ps.len() ==> (#[trigger] resolve_payload(regs, ps[i])) is Ok,
    ensures
        first_error(regs, ps) is None,
    decreases ps.len(),
{
    if ps.len() > 0 {
        assert(resolve_payload(regs, ps[0]) is Ok);
        let rest = ps.drop_first();
        assert forall|i: int| 0 <= i < rest.len() implies (#[trigger] resolve_payload(regs, rest[i])) is Ok by {
            assert(resolve_payload(regs, ps[i + 1]) is Ok);
        }
        lemma_no_error(regs, rest);
    }
}

proof fn lemma_error_at(regs: Seq<RegistrationView>, ps: Seq<PayloadView>, i: int)
    requires
        0 <= i < ps.len(),
        resolve_payload(regs, ps[i]) is Err,
        forall|j: int| 0 <= j < i ==> (#[trigger] resolve_payload(regs, ps[j])) is Ok,
    ensures
        first_error(regs, ps) == Some(resolve_payload(regs, ps[i])->Err_0),
    decreases i,
{
    if i > 0 {
        assert(resolve_payload(regs, ps[0]) is Ok);
        let rest = ps.drop_first();
        assert(rest[i - 1] == ps[i]);
        assert forall|j: int| 0 <= j < i - 1 implies (#[trigger] resolve_payload(regs, rest[j])) is Ok by {
            assert(resolve_payload(regs, ps[j + 1]) is Ok);
        }
        lemma_error_at(regs, rest, i - 1);
    }
}

/// Decoding the bytes of a request gives the request back, unless one of its
/// payloads does not resolve against the registry: then the error of the first
/// such payload. Whatever follows the request is not read.
pub proof fn lemma_decode_encoded(r: RequestView, regs: Seq<RegistrationView>, b: Seq<u8>)
    requires
        request_fits(r),
        starts_with(b, request_bytes(r)),
    ensures
        parse_request(b, regs) == match first_error(regs, r.actors) {
            None => Ok(r),
            Some(e) => Err(e),
        },
{
    let s = str_bytes(r.name);
    let l = len_bytes(r.actors.len() as usize);
    let ps = payloads_bytes(r.actors);
    assert(b.skip(0) =~= b);
    lemma_starts_split(b, 0, s + l + ps, bool_bytes(r.select));
    lemma_starts_split(b, 0, s + l, ps);
    lemma_starts_split(b, 0, s, l);
    lemma_str_read(r.name, b);
    lemma_len_read(r.actors.len() as usize, b.skip(s.len() as int));
    assert forall|i: int| 0 <= i < r.actors.len() implies #[trigger] payload_fits(r.actors[i]) by {}
    lemma_payloads(r.actors, b, (s.len() + l.len()) as int, regs);
    lemma_bool_read(r.select, b.skip((s.len() + l.len() + ps.len()) as int));
}

/// Round trip: a valid request decodes to itself, field for field.
pub proof fn lemma_round_trip(r: RequestView, regs: Seq<RegistrationView>)
    requires
        request_valid(r, regs),
    ensures
        parse_request(request_bytes(r), regs) == Ok::<RequestView, DecodeError>(r),
{
    let b = request_bytes(r);
    assert(b.subrange(0, b.len() as int) =~= b);
    lemma_no_error(regs, r.actors);
    lemma_decode_encoded(r, regs, b);
}

/// Truncation: every strict prefix of a valid request's bytes is refused as a
/// schema violation.
pub proof fn lemma_truncated(r: RequestView, regs: Seq<RegistrationView>, n: int)
    requires
        request_valid(r, regs),
        0 <= n < request_bytes(r).len(),
    ensures
        parse_request(request_bytes(r).take(n), regs) == Err::<RequestView, DecodeError>(
            DecodeError::SchemaViolation,
        ),
{
    let b = request_bytes(r).take(n);
    let s = str_bytes(r.name);
    let l = len_bytes(r.actors.len() as usize);
    let ps = payloads_bytes(r.actors);
    lemma_no_error(regs, r.actors);
    assert(b.skip(0) =~= b);
    assert(cut_of(b.skip(0), request_bytes(r))) by {
        assert(b =~= request_bytes(r).subrange(0, b.len() as int));
    }
    assert forall|i: int| 0 <= i < r.actors.len() implies #[trigger] payload_fits(r.actors[i]) by {}
    lemma_cut_split(b, 0, s + l + ps, bool_bytes(r.select));
    if cut_of(b.skip(0), s + l + ps) {
        lemma_cut_split(b, 0, s + l, ps);
        if cut_of(b.skip(0), s + l) {
            lemma_cut_split(b, 0, s, l);
            if cut_of(b.skip(0), s) {
                lemma_str_cut(r.name, b);
            } else {
                lemma_str_read(r.name, b);
                lemma_len_cut(r.actors.len() as usize, b.skip(s.len() as int));
            }
        } else {
            lemma_starts_split(b, 0, s, l);
            lemma_str_read(r.name, b);
            lemma_len_read(r.actors.len() as usize, b.skip(s.len() as int));
            lemma_payloads_cut(r.actors, b, (s.len() + l.len()) as int, regs);
        }
    } else {
        lemma_starts_split(b, 0, s + l, ps);
        lemma_starts_split(b, 0, s, l);
        lemma_str_read(r.name, b);
        lemma_len_read(r.actors.len() as usize, b.skip(s.len() as int));
        lemma_payloads(r.actors, b, (s.len() + l.len()) as int, regs);
        assert(b.skip((s.len() + l.len() + ps.len()) as int).len() == 0);
    }
}

/// Unknown type: a request with a payload whose type the registry does not hold
/// is refused as a whole with `UnknownType`, when no payload before it fails.
pub proof fn lemma_unknown_type(r: RequestView, regs: Seq<RegistrationView>, i: int)
    requires
        request_fits(r),
        0 <= i < r.actors.len(),
        lookup(regs, r.actors[i].type_path) is None,
        forall|j: int| 0 <= j < i ==> (#[trigger] resolve_payload(regs, r.actors[j])) is Ok,
    ensures
        parse_request(request_bytes(r), regs) == Err::<RequestView, DecodeError>(
            DecodeError::UnknownType,
        ),
{
    let b = request_bytes(r);
    assert(b.subrange(0, b.len() as int) =~= b);
    lemma_error_at(regs, r.actors, i);
    lemma_decode_encoded(r, regs, b);
}

// ---- writing ----

fn write_fields(out: &mut Vec<u8>, fields: &Vec<Field>)
    ensures
        final(out)@ == old(out)@ + fields_bytes(field_views(fields@)),
{
    let ghost fv = field_views(fields@);
    let mut i: usize = 0;
    assert(fv.skip(0) =~= fv);
    while i < fields.len()
        invariant
            i <= fields@.len(),
            fv == field_views(fields@),
            out@ + fields_bytes(fv.skip(i as int)) == old(out)@ + fields_bytes(fv),
        decreases fields@.len() - i,
    {
        let ghost before = out@;
        assert(fv.skip(i as int).drop_first() =~= fv.skip(i + 1));
        let _ = write_string(out, &fields[i].name);
        let _ = write_string(out, &fields[i].value);
        assert(out@ + fields_bytes(fv.skip(i + 1)) =~= before + fields_bytes(fv.skip(i as int)));
        i = i + 1;
    }
    assert(fv.skip(i as int) =~= Seq::<FieldView>::empty());
    assert(out@ + fields_bytes(fv.skip(i as int)) =~= out@);
}

fn write_payload(out: &mut Vec<u8>, payload: &ActorPayload)
    ensures
        final(out)@ == old(out)@ + payload_bytes(payload@),
{
    let _ = write_string(out, &payload.type_path);
    let _ = write_len(out, payload.fields.len());
    write_fields(out, &payload.fields);
    assert(out@ =~= old(out)@ + payload_bytes(payload@));
}

/// Appends the wire form of `event` to `out`.
pub fn serialize_family_create(event: &FamilyCreate, out: &mut Vec<u8>)
    ensures
        final(out)@ == old(out)@ + request_bytes(event@),
{
    let actors = &event.scene.actors;
    let ghost pv = payload_views(actors@);
    let _ = write_string(out, &event.scene.name);
    let _ = write_len(out, actors.len());
    let ghost head = out@;
    let mut i: usize = 0;
    assert(pv.skip(0) =~= pv);
    while i < actors.len()
        invariant
            i <= actors@.len(),
            pv == payload_views(actors@),
            out@ + payloads_bytes(pv.skip(i as int)) == head + payloads_bytes(pv),
        decreases actors@.len() - i,
    {
        let ghost before = out@;
        assert(pv.skip(i as int).drop_first() =~= pv.skip(i + 1));
        write_payload(out, &actors[i]);
        assert(out@ + payloads_bytes(pv.skip(i + 1)) =~= before + payloads_bytes(pv.skip(i as int)));
        i = i + 1;
    }
    assert(pv.skip(i as int) =~= Seq::<PayloadView>::empty());
    assert(out@ + payloads_bytes(pv.skip(i as int)) =~= out@);
    let _ = write_bool(out, event.select);
    assert(out@ =~= old(out)@ + request_bytes(event@));
}

/// The wire form of `event`.
pub fn encode_family_create(event: &FamilyCreate) -> (r: Vec<u8>)
    ensures
        r@ == request_bytes(event@),
{
    let mut out: Vec<u8> = Vec::new();
    serialize_family_create(event, &mut out);
    assert(out@ =~= request_bytes(event@));
    out
}

/// Packages a local edit into the bytes of a creation request, ready to be sent
/// to the authority.
pub fn submit_create(name: String, actors: Vec<ActorPayload>, select: bool) -> (r: Vec<u8>)
    ensures
        r@ == request_bytes((RequestView { name: name@, actors: payload_views(actors@), select })),
{
    let request = FamilyCreate { scene: FamilyScene { name, actors }, select };
    encode_family_create(&request)
}

// ---- reading ----

fn read_field(bytes: &[u8], pos: usize) -> (r: Option<(Field, usize)>)
    requires
        pos <= bytes@.len(),
    ensures
        match r {
            Some((f, p)) => parse_field(bytes@, pos as int) == Some((f@, p as int)) && p
                <= bytes@.len(),
            None => parse_field(bytes@, pos as int) is None,
        },
{
    let (name, n1) = match read_string(bytes, pos) {
        Ok(x) => x,
        Err(_) => return None,
    };
    proof {
        lemma_reads_within(bytes@.skip(pos as int));
    }
    assert(pos + n1 <= bytes.len());
    let pos1 = pos + n1;
    let (value, n2) = match read_string(bytes, pos1) {
        Ok(x) => x,
        Err(_) => return None,
    };
    proof {
        lemma_reads_within(bytes@.skip(pos1 as int));
    }
    assert(pos1 + n2 <= bytes.len());
    Some((Field { name, value }, pos1 + n2))
}

fn read_fields(bytes: &[u8], pos: usize, count: usize) -> (r: Option<(Vec<Field>, usize)>)
    requires
        pos <= bytes@.len(),
    ensures
        match r {
            Some((fs, p)) => parse_fields(bytes@, pos as int, count as nat) == Some(
                (field_views(fs@), p as int),
            ) && p <= bytes@.len(),
            None => parse_fields(bytes@, pos as int, count as nat) is None,
        },
{
    let mut fields: Vec<Field> = Vec::new();
    let mut at = pos;
    let mut i: usize = 0;
    assert(field_views(fields@) + Seq::<FieldView>::empty() =~= Seq::<FieldView>::empty());
    while i < count
        invariant
            i <= count,
            at <= bytes@.len(),
            parse_fields(bytes@, pos as int, count as nat) == match parse_fields(
                bytes@,
                at as int,
                (count - i) as nat,
            ) {
                Some((rest, p)) => Some((field_views(fields@) + rest, p)),
                None => None,
            },
        decreases count - i,
    {
        let ghost done = field_views(fields@);
        match read_field(bytes, at) {
            None => return None,
            Some((f, next)) => {
                proof {
                    match parse_fields(bytes@, next as int, (count - i - 1) as nat) {
                        Some((rest, _)) => {
                            assert(done + (seq![f@] + rest) =~= done.push(f@) + rest);
                        },
                        None => {},
                    }
                }
                fields.push(f);
                assert(field_views(fields@) =~= done.push(f@));
                at = next;
            },
        }
        i = i + 1;
    }
    assert(field_views(fields@) + Seq::<FieldView>::empty() =~= field_views(fields@));
    Some((fields, at))
}

fn read_generic(bytes: &[u8], pos: usize) -> (r: Option<(ActorPayload, usize)>)
    requires
        pos <= bytes@.len(),
    ensures
        match r {
            Some((g, p)) => parse_generic(bytes@, pos as int) == Some((g@, p as int)) && p
                <= bytes@.len(),
            None => parse_generic(bytes@, pos as int) is None,
        },
{
    let (type_path, n1) = match read_string(bytes, pos) {
        Ok(x) => x,
        Err(_) => return None,
    };
    proof {
        lemma_reads_within(bytes@.skip(pos as int));
    }
    assert(pos + n1 <= bytes.len());
    let pos1 = pos + n1;
    let (count, n2) = match read_len(bytes, pos1) {
        Ok(x) => x,
        Err(_) => return None,
    };
    proof {
        lemma_reads_within(bytes@.skip(pos1 as int));
    }
    assert(pos1 + n2 <= bytes.len());
    let pos2 = pos1 + n2;
    match read_fields(bytes, pos2, count) {
        None => None,
        Some((fields, end)) => Some((ActorPayload { type_path, fields }, end)),
    }
}

fn read_payload(bytes: &[u8], pos: usize, registry: &TypeRegistry) -> (r: Result<
    (ActorPayload, usize),
    DecodeError,
>)
    requires
        pos <= bytes@.len(),
    ensures
        match r {
            Ok((x, p)) => parse_payload(bytes@, pos as int, registry@) == Ok::<
                (PayloadView, int),
                DecodeError,
            >((x@, p as int)) && p <= bytes@.len(),
            Err(e) => parse_payload(bytes@, pos as int, registry@) == Err::<
                (PayloadView, int),
                DecodeError,
            >(e),
        },
{
    match read_generic(bytes, pos) {
        None => Err(DecodeError::SchemaViolation),
        Some((generic, end)) => match registry.resolve(generic) {
            Ok(x) => Ok((x, end)),
            Err(e) => Err(e),
        },
    }
}

fn read_payloads(bytes: &[u8], pos: usize, count: usize, registry: &TypeRegistry) -> (r: Result<
    (Vec<ActorPayload>, usize),
    DecodeError,
>)
    requires
        pos <= bytes@.len(),
    ensures
        match r {
            Ok((xs, p)) => parse_payloads(bytes@, pos as int, count as nat, registry@) == Ok::<
                (Seq<PayloadView>, int),
                DecodeError,
            >((payload_views(xs@), p as int)) && p <= bytes@.len(),
            Err(e) => parse_payloads(bytes@, pos as int, count as nat, registry@) == Err::<
                (Seq<PayloadView>, int),
                DecodeError,
            >(e),
        },
{
    let mut actors: Vec<ActorPayload> = Vec::new();
    let mut at = pos;
    let mut i: usize = 0;
    assert(payload_views(actors@) + Seq::<PayloadView>::empty() =~= Seq::<PayloadView>::empty());
    while i < count
        invariant
            i <= count,
            at <= bytes@.len(),
            parse_payloads(bytes@, pos as int, count as nat, registry@) == match parse_payloads(
                bytes@,
                at as int,
                (count - i) as nat,
                registry@,
            ) {
                Ok((rest, p)) => Ok((payload_views(actors@) + rest, p)),
                Err(e) => Err(e),
            },
        decreases count - i,
    {
        let ghost done = payload_views(actors@);
        match read_payload(bytes, at, registry) {
            Err(e) => return Err(e),
            Ok((x, next)) => {
                proof {
                    match parse_payloads(bytes@, next as int, (count - i - 1) as nat, registry@) {
                        Ok((rest, _)) => {
                            assert(done + (seq![x@] + rest) =~= done.push(x@) + rest);
                        },
                        Err(_) => {},
                    }
                }
                actors.push(x);
                assert(payload_views(actors@) =~= done.push(x@));
                at = next;
            },
        }
        i = i + 1;
    }
    assert(payload_views(actors@) + Seq::<PayloadView>::empty() =~= payload_views(actors@));
    Ok((actors, at))
}

/// Decodes a creation request, resolving each payload against `registry`.
pub fn deserialize_family_create(bytes: &[u8], registry: &TypeRegistry) -> (r: Result<
    FamilyCreate,
    DecodeError,
>)
    ensures
        match r {
            Ok(c) => parse_request(bytes@, registry@) == Ok::<RequestView, DecodeError>(c@),
            Err(e) => parse_request(bytes@, registry@) == Err::<RequestView, DecodeError>(e),
        },
{
    assert(bytes@.skip(0) =~= bytes@);
    let (name, n1) = match read_string(bytes, 0) {
        Ok(x) => x,
        Err(_) => return Err(DecodeError::SchemaViolation),
    };
    proof {
        lemma_reads_within(bytes@);
    }
    let (count, n2) = match read_len(bytes, n1) {
        Ok(x) => x,
        Err(_) => return Err(DecodeError::SchemaViolation),
    };
    proof {
        lemma_reads_within(bytes@.skip(n1 as int));
    }
    assert(n1 + n2 <= bytes.len());
    let (actors, end) = match read_payloads(bytes, n1 + n2, count, registry) {
        Ok(x) => x,
        Err(e) => return Err(e),
    };
    let (select, _) = match read_bool(bytes, end) {
        Ok(x) => x,
        Err(_) => return Err(DecodeError::SchemaViolation),
    };
    Ok(FamilyCreate { scene: FamilyScene { name, actors }, select })
}

} // verus!
