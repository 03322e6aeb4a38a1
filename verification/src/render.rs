//! The renderer: from commands, events, the resolved types and constants to
//! the text of one TypeScript module.
//!
//! What is written is defined by the spec functions of this file; the
//! executable functions are proved to write exactly that.

use crate::commands::{command_shapes, text_of, wire_name, CommandDescriptor, CommandShape, qualify};
use crate::constants::{constant_shapes, ConstantEntry, ConstantShape};
use crate::definition::{
    collect_fields_refs, field_shapes, fields_refs, id_names, lemma_field_shapes_take, shape_refs,
    Field, FieldShape, Primitive, Shape, TypeDefinition, TypeId,
};
use crate::error::ExportError;
use crate::events::{event_shapes, EventDescriptor, EventShape};
use crate::type_table::{defined, definition_of, table_ids, NamedShape, TypeTable};
use vstd::prelude::*;
use vstd::string::StringExecFns;

verus! {

/// The word of the target language for a built-in type.
pub open spec fn primitive_text(p: Primitive) -> Seq<char> {
    match p {
        Primitive::Boolean => "boolean"@,
        Primitive::Number => "number"@,
        Primitive::BigInt => "bigint"@,
        Primitive::String => "string"@,
        Primitive::Null => "null"@,
        Primitive::Any => "any"@,
    }
}

/// The type expression for a shape. A reference is written as the name of
/// the type that it refers to, never as that type's definition.
pub open spec fn type_text(s: Shape) -> Seq<char>
    decreases s,
{
    match s {
        Shape::Primitive(p) => primitive_text(p),
        Shape::Record(fields) => "{ "@ + members_text(fields) + "}"@,
        Shape::Union(fields) => "(never"@ + variants_text(fields) + ")"@,
        Shape::Sequence(item) => "Array<"@ + type_text(*item) + ">"@,
        Shape::Dictionary(key, value) => "{ [key in "@ + type_text(*key) + "]: "@ + type_text(
            *value,
        ) + " }"@,
        Shape::Optional(item) => "("@ + type_text(*item) + " | null)"@,
        Shape::Reference(id) => id,
    }
}

/// One member of a record: the quoted name, the type, a semicolon.
pub open spec fn member_text(field: FieldShape) -> Seq<char>
    decreases field,
{
    "\""@ + field.name + "\": "@ + type_text(field.ty) + "; "@
}

/// The members of a record, in order.
pub open spec fn members_text(fields: Seq<FieldShape>) -> Seq<char>
    decreases fields,
{
    if fields.len() == 0 {
        Seq::empty()
    } else {
        members_text(fields.drop_last()) + member_text(fields.last())
    }
}

/// One variant of a union: an object whose single key is the variant's name.
pub open spec fn variant_text(field: FieldShape) -> Seq<char>
    decreases field,
{
    " | { \""@ + field.name + "\": "@ + type_text(field.ty) + " }"@
}

/// The variants of a union, in order.
pub open spec fn variants_text(fields: Seq<FieldShape>) -> Seq<char>
    decreases fields,
{
    if fields.len() == 0 {
        Seq::empty()
    } else {
        variants_text(fields.drop_last()) + variant_text(fields.last())
    }
}

/// The pieces that `piece` gives for each of `items`, one after the other.
pub open spec fn joined<T, A>(items: Seq<T>, piece: spec_fn(T) -> Seq<A>) -> Seq<A>
    decreases items.len(),
{
    if items.len() == 0 {
        Seq::empty()
    } else {
        joined(items.drop_last(), piece) + piece(items.last())
    }
}

/// `joined` over the first `i + 1` items is `joined` over the first `i`,
/// followed by the piece of item `i`; over all items it is `joined` itself.
pub proof fn lemma_joined_take<T, A>(items: Seq<T>, piece: spec_fn(T) -> Seq<A>, i: int)
    requires
        0 <= i <= items.len(),
    ensures
        i < items.len() ==> joined(items.take(i + 1), piece) == joined(items.take(i), piece)
            + piece(items[i]),
        i == 0 ==> joined(items.take(i), piece) == Seq::<A>::empty(),
        i == items.len() ==> joined(items.take(i), piece) == joined(items, piece),
{
    if i < items.len() {
        assert(items.take(i + 1).drop_last() =~= items.take(i));
    }
    if i == items.len() {
        assert(items.take(i) =~= items);
    }
}

/// What holds of every element of every piece holds of every element of
/// `joined`.
pub proof fn lemma_joined_all<T, A>(
    items: Seq<T>,
    piece: spec_fn(T) -> Seq<A>,
    good: spec_fn(A) -> bool,
)
    requires
        forall|i: int, j: int|
            0 <= i < items.len() && 0 <= j < piece(items[i]).len() ==> good(
                #[trigger] piece(items[i])[j],
            ),
    ensures
        forall|k: int| 0 <= k < joined(items, piece).len() ==> good(#[trigger] joined(items, piece)[k]),
    decreases items.len(),
{
    if items.len() > 0 {
        let front = items.drop_last();
        assert forall|i: int, j: int|
            0 <= i < front.len() && 0 <= j < piece(front[i]).len() implies good(
            #[trigger] piece(front[i])[j],
        ) by {
            assert(front[i] == items[i]);
        }
        lemma_joined_all(front, piece, good);
        let last = piece(items.last());
        assert forall|k: int| 0 <= k < joined(items, piece).len() implies good(
            #[trigger] joined(items, piece)[k],
        ) by {
            if k >= joined(front, piece).len() {
                let j = k - joined(front, piece).len();
                assert(joined(items, piece)[k] == piece(items[items.len() - 1])[j]);
            }
        }
    }
}

/// The declaration of a named type.
pub open spec fn declaration_text(id: Seq<char>, definition: Shape) -> Seq<char> {
    "export type "@ + id + " = "@ + type_text(definition) + ";"@
}

/// The declarations of the types of `closure`, in order, one per line.
pub open spec fn declarations_text(table: Seq<NamedShape>, closure: Seq<Seq<char>>) -> Seq<char> {
    joined(
        closure,
        |id: Seq<char>| declaration_text(id, definition_of(table, id)) + "\n"@,
    )
}

/// One parameter in a signature.
pub open spec fn param_text(field: FieldShape) -> Seq<char> {
    field.name + ": "@ + type_text(field.ty) + ", "@
}

/// The parameters of a signature, in order.
pub open spec fn params_text(fields: Seq<FieldShape>) -> Seq<char> {
    joined(fields, |f: FieldShape| param_text(f))
}

/// The arguments handed on under the parameters' names, in order.
pub open spec fn args_text(fields: Seq<FieldShape>) -> Seq<char> {
    joined(fields, |f: FieldShape| f.name + ", "@)
}

/// The call that sends a command under its wire name.
pub open spec fn invoke_text(prefix: Option<Seq<char>>, c: CommandShape) -> Seq<char> {
    "await TAURI_INVOKE(\""@ + wire_name(prefix, c.name) + "\", { "@ + args_text(c.params) + "})"@
}

/// The binding of one command. One without an error type returns the result
/// and lets a failure reject; one with an error type returns either outcome
/// as a value.
pub open spec fn command_text(prefix: Option<Seq<char>>, c: CommandShape) -> Seq<char> {
    match c.error {
        None => "  async \""@ + c.name + "\"("@ + params_text(c.params) + "): Promise<"@ + type_text(
            c.result,
        ) + "> {\n    return "@ + invoke_text(prefix, c) + ";\n  },\n"@,
        Some(e) => "  async \""@ + c.name + "\"("@ + params_text(c.params)
            + "): Promise<__Result__<"@ + type_text(c.result) + ", "@ + type_text(e)
            + ">> {\n    try {\n      return { status: \"ok\", data: "@ + invoke_text(prefix, c)
            + " };\n    } catch (e) {\n      if (e instanceof Error) throw e;\n      return { status: \"error\", error: e as any };\n    }\n  },\n"@,
    }
}

/// The bindings of the commands, in order.
pub open spec fn commands_text(prefix: Option<Seq<char>>, items: Seq<CommandShape>) -> Seq<char> {
    "export const commands = {\n"@ + joined(items, |c: CommandShape| command_text(prefix, c))
        + "};\n"@
}

/// The subscription helper of one event: it takes a callback for the payload
/// and returns the promise of a function that unsubscribes.
pub open spec fn event_text(e: EventShape) -> Seq<char> {
    "  \""@ + e.name + "\": (callback: (payload: "@ + type_text(e.payload)
        + ") => void): Promise<UnlistenFn> => TAURI_LISTEN(\""@ + e.name
        + "\", (event) => callback(event.payload as "@ + type_text(e.payload) + ")),\n"@
}

/// The subscription helpers of the events, in order.
pub open spec fn events_text(items: Seq<EventShape>) -> Seq<char> {
    "export const events = {\n"@ + joined(items, |e: EventShape| event_text(e)) + "};\n"@
}

/// The accessor of one constant: a typed value with its text written in.
pub open spec fn constant_text(c: ConstantShape) -> Seq<char> {
    "export const "@ + c.name + ": "@ + type_text(c.ty) + " = "@ + c.value + ";\n"@
}

/// The accessors of the constants, in order.
pub open spec fn constants_text(items: Seq<ConstantShape>) -> Seq<char> {
    joined(items, |c: ConstantShape| constant_text(c))
}

/// The identities that the signature of a command refers to.
pub open spec fn command_refs(c: CommandShape) -> Seq<Seq<char>> {
    fields_refs(c.params) + shape_refs(c.result) + match c.error {
        Some(e) => shape_refs(e),
        None => Seq::empty(),
    }
}

/// The identities that commands, events and constants refer to, in that
/// order, with repetitions.
pub open spec fn referenced(
    commands: Seq<CommandShape>,
    events: Seq<EventShape>,
    constants: Seq<ConstantShape>,
) -> Seq<Seq<char>> {
    joined(commands, |c: CommandShape| command_refs(c)) + joined(
        events,
        |e: EventShape| shape_refs(e.payload),
    ) + joined(constants, |c: ConstantShape| shape_refs(c.ty))
}

/// The identities that the definitions of the types of `closure` refer to.
pub open spec fn closure_refs(table: Seq<NamedShape>, closure: Seq<Seq<char>>) -> Seq<Seq<char>> {
    joined(closure, |id: Seq<char>| shape_refs(definition_of(table, id)))
}

/// The first of `ids` that is not among `allowed`.
pub open spec fn first_outside(ids: Seq<Seq<char>>, allowed: Seq<Seq<char>>) -> Option<Seq<char>>
    decreases ids.len(),
{
    if ids.len() == 0 {
        None
    } else if !allowed.contains(ids[0]) {
        Some(ids[0])
    } else {
        first_outside(ids.drop_first(), allowed)
    }
}

/// Where `first_outside` finds nothing, every one of `ids` is allowed, and
/// the other way round.
pub proof fn lemma_first_outside(ids: Seq<Seq<char>>, allowed: Seq<Seq<char>>)
    ensures
        first_outside(ids, allowed) is None <==> forall|i: int|
            0 <= i < ids.len() ==> allowed.contains(#[trigger] ids[i]),
        first_outside(ids, allowed) matches Some(id) ==> ids.contains(id) && !allowed.contains(id),
    decreases ids.len(),
{
    if ids.len() > 0 {
        let rest = ids.drop_first();
        lemma_first_outside(rest, allowed);
        if allowed.contains(ids[0]) {
            if first_outside(ids, allowed) is None {
                assert forall|i: int| 0 <= i < ids.len() implies allowed.contains(
                    #[trigger] ids[i],
                ) by {
                    if i > 0 {
                        assert(rest[i - 1] == ids[i]);
                    }
                }
            } else {
                let id = first_outside(rest, allowed)->Some_0;
                let k = choose|k: int| 0 <= k < rest.len() && rest[k] == id;
                assert(ids[k + 1] == id);
            }
            if forall|i: int| 0 <= i < ids.len() ==> allowed.contains(#[trigger] ids[i]) {
                assert forall|i: int| 0 <= i < rest.len() implies allowed.contains(
                    #[trigger] rest[i],
                ) by {
                    assert(rest[i] == ids[i + 1]);
                }
            }
        } else {
            assert(ids[0] == ids[0]);
        }
    }
}

/// The runtime support that every module starts with.
pub open spec fn preamble_text() -> Seq<char> {
    "import { invoke as TAURI_INVOKE } from \"@tauri-apps/api/core\";\nimport { listen as TAURI_LISTEN, type UnlistenFn } from \"@tauri-apps/api/event\";\n\nexport type __Result__<T, E> = { status: \"ok\"; data: T } | { status: \"error\"; error: E };\n\n"@
}

/// The whole module: the runtime support, one declaration for each type of
/// the closure, one binding for each command, one subscription helper for
/// each event, one accessor for each constant.
pub open spec fn module_text(
    prefix: Option<Seq<char>>,
    commands: Seq<CommandShape>,
    events: Seq<EventShape>,
    table: Seq<NamedShape>,
    closure: Seq<Seq<char>>,
    constants: Seq<ConstantShape>,
) -> Seq<char> {
    preamble_text() + declarations_text(table, closure) + commands_text(prefix, commands)
        + events_text(events) + constants_text(constants)
}

/// The members of a sequence of fields, extended by one field.
pub proof fn lemma_members_push(fields: Seq<FieldShape>, field: FieldShape)
    ensures
        members_text(fields.push(field)) == members_text(fields) + member_text(field),
        variants_text(fields.push(field)) == variants_text(fields) + variant_text(field),
{
    assert(fields.push(field).drop_last() =~= fields);
}

fn write_primitive(p: Primitive, out: &mut String)
    ensures
        final(out)@ == old(out)@ + primitive_text(p),
{
    match p {
        Primitive::Boolean => out.append("boolean"),
        Primitive::Number => out.append("number"),
        Primitive::BigInt => out.append("bigint"),
        Primitive::String => out.append("string"),
        Primitive::Null => out.append("null"),
        Primitive::Any => out.append("any"),
    }
}

/// Appends the type expression of `def` to `out`.
pub fn write_type(def: &TypeDefinition, out: &mut String)
    ensures
        final(out)@ == old(out)@ + type_text(def@),
    decreases def,
{
    match def {
        TypeDefinition::Primitive(p) => write_primitive(*p, out),
        TypeDefinition::Record(fields) => {
            out.append("{ ");
            write_members(fields, out);
            out.append("}");
            assert(out@ =~= old(out)@ + type_text(def@));
        },
        TypeDefinition::Union(fields) => {
            out.append("(never");
            write_variants(fields, out);
            out.append(")");
            assert(out@ =~= old(out)@ + type_text(def@));
        },
        TypeDefinition::Sequence(item) => {
            out.append("Array<");
            write_type(item, out);
            out.append(">");
            assert(out@ =~= old(out)@ + type_text(def@));
        },
        TypeDefinition::Dictionary(key, value) => {
            out.append("{ [key in ");
            write_type(key, out);
            out.append("]: ");
            write_type(value, out);
            out.append(" }");
            assert(out@ =~= old(out)@ + type_text(def@));
        },
        TypeDefinition::Optional(item) => {
            out.append("(");
            write_type(item, out);
            out.append(" | null)");
            assert(out@ =~= old(out)@ + type_text(def@));
        },
        TypeDefinition::Reference(id) => {
            out.append(id.name.as_str());
        },
    }
}

fn write_members(fields: &Vec<Field>, out: &mut String)
    ensures
        final(out)@ == old(out)@ + members_text(field_shapes(fields@)),
    decreases fields,
{
    let mut i: usize = 0;
    assert(out@ =~= old(out)@ + members_text(field_shapes(fields@.take(0))));
    while i < fields.len()
        invariant
            i <= fields.len(),
            out@ == old(out)@ + members_text(field_shapes(fields@.take(i as int))),
        decreases fields.len() - i,
    {
        let ghost before = out@;
        out.append("\"");
        out.append(fields[i].name.as_str());
        out.append("\": ");
        write_type(&fields[i].ty, out);
        out.append("; ");
        proof {
            lemma_field_shapes_take(fields@, i as int);
            lemma_members_push(field_shapes(fields@.take(i as int)), fields@[i as int]@);
            assert(out@ =~= before + member_text(fields@[i as int]@));
            assert(out@ =~= old(out)@ + members_text(field_shapes(fields@.take(i + 1))));
        }
        i += 1;
    }
    assert(fields@.take(fields.len() as int) =~= fields@);
}

fn write_variants(fields: &Vec<Field>, out: &mut String)
    ensures
        final(out)@ == old(out)@ + variants_text(field_shapes(fields@)),
    decreases fields,
{
    let mut i: usize = 0;
    assert(out@ =~= old(out)@ + variants_text(field_shapes(fields@.take(0))));
    while i < fields.len()
        invariant
            i <= fields.len(),
            out@ == old(out)@ + variants_text(field_shapes(fields@.take(i as int))),
        decreases fields.len() - i,
    {
        let ghost before = out@;
        out.append(" | { \"");
        out.append(fields[i].name.as_str());
        out.append("\": ");
        write_type(&fields[i].ty, out);
        out.append(" }");
        proof {
            lemma_field_shapes_take(fields@, i as int);
            lemma_members_push(field_shapes(fields@.take(i as int)), fields@[i as int]@);
            assert(out@ =~= before + variant_text(fields@[i as int]@));
            assert(out@ =~= old(out)@ + variants_text(field_shapes(fields@.take(i + 1))));
        }
        i += 1;
    }
    assert(fields@.take(fields.len() as int) =~= fields@);
}

/// The type expression of `def`.
pub fn render_type(def: &TypeDefinition) -> (text: String)
    ensures
        text@ == type_text(def@),
{
    let mut text = String::new();
    write_type(def, &mut text);
    assert(text@ =~= type_text(def@));
    text
}

/// What rendering gives: the module's text, or the name of the first type
/// that is missing. A type of the closure without a definition is missing;
/// so is a type that a command, an event, a constant or a definition of the
/// closure refers to and that the closure does not hold.
pub open spec fn render_outcome(
    prefix: Option<Seq<char>>,
    commands: Seq<CommandShape>,
    events: Seq<EventShape>,
    table: Seq<NamedShape>,
    closure: Seq<Seq<char>>,
    constants: Seq<ConstantShape>,
) -> Result<Seq<char>, Seq<char>> {
    match first_outside(closure, table_ids(table)) {
        Some(id) => Err(id),
        None => match first_outside(
            referenced(commands, events, constants) + closure_refs(table, closure),
            closure,
        ) {
            Some(id) => Err(id),
            None => Ok(module_text(prefix, commands, events, table, closure, constants)),
        },
    }
}

/// The first of `ids` whose name none of `allowed` has.
pub fn find_outside(ids: &Vec<TypeId>, allowed: &Vec<TypeId>) -> (found: Option<TypeId>)
    ensures
        match first_outside(id_names(ids@), id_names(allowed@)) {
            Some(id) => found matches Some(f) && f@ == id,
            None => found is None,
        },
{
    let mut i: usize = 0;
    assert(id_names(ids@).skip(0) =~= id_names(ids@));
    while i < ids.len()
        invariant
            i <= ids.len(),
            first_outside(id_names(ids@), id_names(allowed@)) == first_outside(
                id_names(ids@).skip(i as int),
                id_names(allowed@),
            ),
        decreases ids.len() - i,
    {
        assert(id_names(ids@).skip(i as int).drop_first() =~= id_names(ids@).skip(i + 1));
        assert(id_names(ids@).skip(i as int)[0] == ids@[i as int]@);
        if !crate::type_table::contains_id(allowed, &ids[i]) {
            return Some(ids[i].duplicate());
        }
        i += 1;
    }
    None
}

fn write_params(fields: &Vec<Field>, out: &mut String)
    ensures
        final(out)@ == old(out)@ + params_text(field_shapes(fields@)),
{
    let ghost shapes = field_shapes(fields@);
    let ghost piece = |f: FieldShape| param_text(f);
    proof {
        crate::definition::lemma_field_shapes(fields@);
        lemma_joined_take(shapes, piece, 0);
        assert(out@ =~= old(out)@ + joined(shapes.take(0), piece));
    }
    let mut i: usize = 0;
    while i < fields.len()
        invariant
            i <= fields.len(),
            shapes == field_shapes(fields@),
            shapes.len() == fields.len(),
            forall|j: int| 0 <= j < fields.len() ==> (#[trigger] shapes[j]) == fields@[j]@,
            piece == (|f: FieldShape| param_text(f)),
            out@ == old(out)@ + joined(shapes.take(i as int), piece),
        decreases fields.len() - i,
    {
        let ghost before = out@;
        out.append(fields[i].name.as_str());
        out.append(": ");
        write_type(&fields[i].ty, out);
        out.append(", ");
        proof {
            lemma_joined_take(shapes, piece, i as int);
            assert(out@ =~= before + param_text(shapes[i as int]));
            assert(out@ =~= old(out)@ + joined(shapes.take(i + 1), piece));
        }
        i += 1;
    }
    proof {
        lemma_joined_take(shapes, piece, fields.len() as int);
    }
}

fn write_args(fields: &Vec<Field>, out: &mut String)
    ensures
        final(out)@ == old(out)@ + args_text(field_shapes(fields@)),
{
    let ghost shapes = field_shapes(fields@);
    let ghost piece = |f: FieldShape| f.name + ", "@;
    proof {
        crate::definition::lemma_field_shapes(fields@);
        lemma_joined_take(shapes, piece, 0);
        assert(out@ =~= old(out)@ + joined(shapes.take(0), piece));
    }
    let mut i: usize = 0;
    while i < fields.len()
        invariant
            i <= fields.len(),
            shapes == field_shapes(fields@),
            shapes.len() == fields.len(),
            forall|j: int| 0 <= j < fields.len() ==> (#[trigger] shapes[j]) == fields@[j]@,
            piece == (|f: FieldShape| f.name + ", "@),
            out@ == old(out)@ + joined(shapes.take(i as int), piece),
        decreases fields.len() - i,
    {
        let ghost before = out@;
        out.append(fields[i].name.as_str());
        out.append(", ");
        proof {
            lemma_joined_take(shapes, piece, i as int);
            assert(out@ =~= before + piece(shapes[i as int]));
            assert(out@ =~= old(out)@ + joined(shapes.take(i + 1), piece));
        }
        i += 1;
    }
    proof {
        lemma_joined_take(shapes, piece, fields.len() as int);
    }
}

fn write_invoke(prefix: Option<&str>, c: &CommandDescriptor, out: &mut String)
    ensures
        final(out)@ == old(out)@ + invoke_text(text_of(prefix), c@),
{
    out.append("await TAURI_INVOKE(\"");
    let wire = qualify(prefix, c.name.as_str());
    out.append(wire.as_str());
    out.append("\", { ");
    write_args(&c.params, out);
    out.append("})");
    assert(out@ =~= old(out)@ + invoke_text(text_of(prefix), c@));
}

/// Appends the binding of one command to `out`.
pub fn write_command(prefix: Option<&str>, c: &CommandDescriptor, out: &mut String)
    ensures
        final(out)@ == old(out)@ + command_text(text_of(prefix), c@),
{
    out.append("  async \"");
    out.append(c.name.as_str());
    out.append("\"(");
    write_params(&c.params, out);
    match &c.error {
        None => {
            out.append("): Promise<");
            write_type(&c.result, out);
            out.append("> {\n    return ");
            write_invoke(prefix, c, out);
            out.append(";\n  },\n");
            assert(out@ =~= old(out)@ + command_text(text_of(prefix), c@));
        },
        Some(e) => {
            out.append("): Promise<__Result__<");
            write_type(&c.result, out);
            out.append(", ");
            write_type(e, out);
            out.append(">> {\n    try {\n      return { status: \"ok\", data: ");
            write_invoke(prefix, c, out);
            out.append(
                " };\n    } catch (e) {\n      if (e instanceof Error) throw e;\n      return { status: \"error\", error: e as any };\n    }\n  },\n",
            );
            assert(out@ =~= old(out)@ + command_text(text_of(prefix), c@));
        },
    }
}

fn write_commands(prefix: Option<&str>, items: &Vec<CommandDescriptor>, out: &mut String)
    ensures
        final(out)@ == old(out)@ + commands_text(text_of(prefix), command_shapes(items@)),
{
    let ghost shapes = command_shapes(items@);
    let ghost piece = |c: CommandShape| command_text(text_of(prefix), c);
    out.append("export const commands = {\n");
    let ghost start = out@;
    proof {
        lemma_joined_take(shapes, piece, 0);
        assert(out@ =~= start + joined(shapes.take(0), piece));
    }
    let mut i: usize = 0;
    while i < items.len()
        invariant
            i <= items.len(),
            shapes == command_shapes(items@),
            piece == (|c: CommandShape| command_text(text_of(prefix), c)),
            out@ == start + joined(shapes.take(i as int), piece),
        decreases items.len() - i,
    {
        let ghost before = out@;
        write_command(prefix, &items[i], out);
        proof {
            lemma_joined_take(shapes, piece, i as int);
            assert(out@ =~= start + joined(shapes.take(i + 1), piece));
        }
        i += 1;
    }
    proof {
        lemma_joined_take(shapes, piece, items.len() as int);
    }
    out.append("};\n");
    assert(out@ =~= old(out)@ + commands_text(text_of(prefix), shapes));
}

/// Appends the subscription helper of one event to `out`.
pub fn write_event(e: &EventDescriptor, out: &mut String)
    ensures
        final(out)@ == old(out)@ + event_text(e@),
{
    out.append("  \"");
    out.append(e.name.as_str());
    out.append("\": (callback: (payload: ");
    write_type(&e.payload, out);
    out.append(") => void): Promise<UnlistenFn> => TAURI_LISTEN(\"");
    out.append(e.name.as_str());
    out.append("\", (event) => callback(event.payload as ");
    write_type(&e.payload, out);
    out.append(")),\n");
    assert(out@ =~= old(out)@ + event_text(e@));
}

fn write_events(items: &Vec<EventDescriptor>, out: &mut String)
    ensures
        final(out)@ == old(out)@ + events_text(event_shapes(items@)),
{
    let ghost shapes = event_shapes(items@);
    let ghost piece = |e: EventShape| event_text(e);
    out.append("export const events = {\n");
    let ghost start = out@;
    proof {
        lemma_joined_take(shapes, piece, 0);
        assert(out@ =~= start + joined(shapes.take(0), piece));
    }
    let mut i: usize = 0;
    while i < items.len()
        invariant
            i <= items.len(),
            shapes == event_shapes(items@),
            piece == (|e: EventShape| event_text(e)),
            out@ == start + joined(shapes.take(i as int), piece),
        decreases items.len() - i,
    {
        write_event(&items[i], out);
        proof {
            lemma_joined_take(shapes, piece, i as int);
            assert(out@ =~= start + joined(shapes.take(i + 1), piece));
        }
        i += 1;
    }
    proof {
        lemma_joined_take(shapes, piece, items.len() as int);
    }
    out.append("};\n");
    assert(out@ =~= old(out)@ + events_text(shapes));
}

/// Appends the accessor of one constant to `out`.
pub fn write_constant(c: &ConstantEntry, out: &mut String)
    ensures
        final(out)@ == old(out)@ + constant_text(c@),
{
    out.append("export const ");
    out.append(c.name.as_str());
    out.append(": ");
    write_type(&c.ty, out);
    out.append(" = ");
    out.append(c.value.as_str());
    out.append(";\n");
    assert(out@ =~= old(out)@ + constant_text(c@));
}

fn write_constants(items: &Vec<ConstantEntry>, out: &mut String)
    ensures
        final(out)@ == old(out)@ + constants_text(constant_shapes(items@)),
{
    let ghost shapes = constant_shapes(items@);
    let ghost piece = |c: ConstantShape| constant_text(c);
    proof {
        lemma_joined_take(shapes, piece, 0);
        assert(out@ =~= old(out)@ + joined(shapes.take(0), piece));
    }
    let mut i: usize = 0;
    while i < items.len()
        invariant
            i <= items.len(),
            shapes == constant_shapes(items@),
            piece == (|c: ConstantShape| constant_text(c)),
            out@ == old(out)@ + joined(shapes.take(i as int), piece),
        decreases items.len() - i,
    {
        write_constant(&items[i], out);
        proof {
            lemma_joined_take(shapes, piece, i as int);
            assert(out@ =~= old(out)@ + joined(shapes.take(i + 1), piece));
        }
        i += 1;
    }
    proof {
        lemma_joined_take(shapes, piece, items.len() as int);
    }
}

/// The declaration of a named type.
pub fn render_declaration(id: &TypeId, definition: &TypeDefinition) -> (text: String)
    ensures
        text@ == declaration_text(id@, definition@),
{
    let mut text = String::from_str("export type ");
    text.append(id.name.as_str());
    text.append(" = ");
    write_type(definition, &mut text);
    text.append(";");
    assert(text@ =~= declaration_text(id@, definition@));
    text
}

fn write_declarations(table: &TypeTable, closure: &Vec<TypeId>, out: &mut String)
    requires
        forall|i: int| 0 <= i < closure.len() ==> defined(table@, #[trigger] id_names(closure@)[i]),
    ensures
        final(out)@ == old(out)@ + declarations_text(table@, id_names(closure@)),
{
    let ghost names = id_names(closure@);
    let ghost piece = |id: Seq<char>| declaration_text(id, definition_of(table@, id)) + "\n"@;
    proof {
        lemma_joined_take(names, piece, 0);
        assert(out@ =~= old(out)@ + joined(names.take(0), piece));
    }
    let mut i: usize = 0;
    while i < closure.len()
        invariant
            i <= closure.len(),
            names == id_names(closure@),
            forall|j: int| 0 <= j < closure.len() ==> defined(table@, #[trigger] names[j]),
            piece == (|id: Seq<char>| declaration_text(id, definition_of(table@, id)) + "\n"@),
            out@ == old(out)@ + joined(names.take(i as int), piece),
        decreases closure.len() - i,
    {
        assert(defined(table@, names[i as int]));
        match table.get(&closure[i]) {
            Some(entry) => {
                let line = render_declaration(&closure[i], &entry.definition);
                out.append(line.as_str());
                out.append("\n");
            },
            None => {
                assert(false);
            },
        }
        proof {
            lemma_joined_take(names, piece, i as int);
            assert(out@ =~= old(out)@ + joined(names.take(i + 1), piece));
        }
        i += 1;
    }
    proof {
        lemma_joined_take(names, piece, closure.len() as int);
    }
}

fn collect_command_refs(c: &CommandDescriptor, out: &mut Vec<TypeId>)
    ensures
        id_names(final(out)@) == id_names(old(out)@) + command_refs(c@),
{
    collect_fields_refs(&c.params, out);
    c.result.collect_refs(out);
    match &c.error {
        Some(e) => {
            e.collect_refs(out);
        },
        None => {},
    }
    assert(id_names(out@) =~= id_names(old(out)@) + command_refs(c@));
}

/// The identities that commands, events and constants refer to, in that
/// order, with repetitions.
pub fn collect_referenced(
    commands: &Vec<CommandDescriptor>,
    events: &Vec<EventDescriptor>,
    constants: &Vec<ConstantEntry>,
) -> (refs: Vec<TypeId>)
    ensures
        id_names(refs@) == referenced(
            command_shapes(commands@),
            event_shapes(events@),
            constant_shapes(constants@),
        ),
{
    let mut refs: Vec<TypeId> = Vec::new();
    let ghost cs = command_shapes(commands@);
    let ghost cp = |c: CommandShape| command_refs(c);
    proof {
        lemma_joined_take(cs, cp, 0);
        assert(id_names(refs@) =~= joined(cs.take(0), cp));
    }
    let mut i: usize = 0;
    while i < commands.len()
        invariant
            i <= commands.len(),
            cs == command_shapes(commands@),
            cp == (|c: CommandShape| command_refs(c)),
            id_names(refs@) == joined(cs.take(i as int), cp),
        decreases commands.len() - i,
    {
        collect_command_refs(&commands[i], &mut refs);
        proof {
            lemma_joined_take(cs, cp, i as int);
        }
        i += 1;
    }
    proof {
        lemma_joined_take(cs, cp, commands.len() as int);
    }
    let ghost es = event_shapes(events@);
    let ghost ep = |e: EventShape| shape_refs(e.payload);
    proof {
        lemma_joined_take(es, ep, 0);
        assert(id_names(refs@) =~= joined(cs, cp) + joined(es.take(0), ep));
    }
    let mut j: usize = 0;
    while j < events.len()
        invariant
            j <= events.len(),
            es == event_shapes(events@),
            ep == (|e: EventShape| shape_refs(e.payload)),
            id_names(refs@) == joined(cs, cp) + joined(es.take(j as int), ep),
        decreases events.len() - j,
    {
        events[j].payload.collect_refs(&mut refs);
        proof {
            lemma_joined_take(es, ep, j as int);
            assert(id_names(refs@) =~= joined(cs, cp) + joined(es.take(j + 1), ep));
        }
        j += 1;
    }
    proof {
        lemma_joined_take(es, ep, events.len() as int);
    }
    let ghost ks = constant_shapes(constants@);
    let ghost kp = |c: ConstantShape| shape_refs(c.ty);
    proof {
        lemma_joined_take(ks, kp, 0);
        assert(id_names(refs@) =~= joined(cs, cp) + joined(es, ep) + joined(ks.take(0), kp));
    }
    let mut k: usize = 0;
    while k < constants.len()
        invariant
            k <= constants.len(),
            ks == constant_shapes(constants@),
            kp == (|c: ConstantShape| shape_refs(c.ty)),
            id_names(refs@) == joined(cs, cp) + joined(es, ep) + joined(ks.take(k as int), kp),
        decreases constants.len() - k,
    {
        constants[k].ty.collect_refs(&mut refs);
        proof {
            lemma_joined_take(ks, kp, k as int);
            assert(id_names(refs@) =~= joined(cs, cp) + joined(es, ep) + joined(
                ks.take(k + 1),
                kp,
            ));
        }
        k += 1;
    }
    proof {
        lemma_joined_take(ks, kp, constants.len() as int);
    }
    refs
}

fn collect_closure_refs(table: &TypeTable, closure: &Vec<TypeId>, out: &mut Vec<TypeId>)
    requires
        forall|i: int| 0 <= i < closure.len() ==> defined(table@, #[trigger] id_names(closure@)[i]),
    ensures
        id_names(final(out)@) == id_names(old(out)@) + closure_refs(table@, id_names(closure@)),
{
    let ghost names = id_names(closure@);
    let ghost piece = |id: Seq<char>| shape_refs(definition_of(table@, id));
    proof {
        lemma_joined_take(names, piece, 0);
        assert(id_names(out@) =~= id_names(old(out)@) + joined(names.take(0), piece));
    }
    let mut i: usize = 0;
    while i < closure.len()
        invariant
            i <= closure.len(),
            names == id_names(closure@),
            forall|j: int| 0 <= j < closure.len() ==> defined(table@, #[trigger] names[j]),
            piece == (|id: Seq<char>| shape_refs(definition_of(table@, id))),
            id_names(out@) == id_names(old(out)@) + joined(names.take(i as int), piece),
        decreases closure.len() - i,
    {
        assert(defined(table@, names[i as int]));
        match table.get(&closure[i]) {
            Some(entry) => {
                entry.definition.collect_refs(out);
            },
            None => {
                assert(false);
            },
        }
        proof {
            lemma_joined_take(names, piece, i as int);
            assert(id_names(out@) =~= id_names(old(out)@) + joined(names.take(i + 1), piece));
        }
        i += 1;
    }
    proof {
        lemma_joined_take(names, piece, closure.len() as int);
    }
}

/// Renders the module, or names the first type that is missing.
///
/// Nothing is kept between calls, and nothing but the arguments is read: the
/// same arguments give the same text, character for character.
pub fn render(
    prefix: Option<&str>,
    commands: &Vec<CommandDescriptor>,
    events: &Vec<EventDescriptor>,
    table: &TypeTable,
    closure: &Vec<TypeId>,
    constants: &Vec<ConstantEntry>,
) -> (r: Result<String, ExportError>)
    ensures
        match render_outcome(
            text_of(prefix),
            command_shapes(commands@),
            event_shapes(events@),
            table@,
            id_names(closure@),
            constant_shapes(constants@),
        ) {
            Ok(text) => r matches Ok(s) && s@ == text,
            Err(id) => r matches Err(ExportError::RenderInconsistency(name)) && name@ == id,
        },
{
    let known = table.ids();
    match find_outside(closure, &known) {
        Some(id) => {
            return Err(ExportError::RenderInconsistency(id.name));
        },
        None => {},
    }
    proof {
        lemma_first_outside(id_names(closure@), table_ids(table@));
    }
    let mut refs = collect_referenced(commands, events, constants);
    collect_closure_refs(table, closure, &mut refs);
    match find_outside(&refs, closure) {
        Some(id) => {
            return Err(ExportError::RenderInconsistency(id.name));
        },
        None => {},
    }
    let mut out = String::from_str(
        "import { invoke as TAURI_INVOKE } from \"@tauri-apps/api/core\";\nimport { listen as TAURI_LISTEN, type UnlistenFn } from \"@tauri-apps/api/event\";\n\nexport type __Result__<T, E> = { status: \"ok\"; data: T } | { status: \"error\"; error: E };\n\n",
    );
    write_declarations(table, closure, &mut out);
    write_commands(prefix, commands, &mut out);
    write_events(events, &mut out);
    write_constants(constants, &mut out);
    Ok(out)
}

} // verus!
