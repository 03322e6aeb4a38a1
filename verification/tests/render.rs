use tauri_specta::render::{
    collect_referenced, find_outside, render, render_declaration, render_type, write_command,
    write_constant, write_event, write_type,
};
use tauri_specta::{
    CommandDescriptor, ConstantEntry, EventDescriptor, ExportError, Field, NamedType, Primitive,
    TypeDefinition, TypeId, TypeTable,
};

const PREAMBLE: &str = "import { invoke as TAURI_INVOKE } from \"@tauri-apps/api/core\";\nimport { listen as TAURI_LISTEN, type UnlistenFn } from \"@tauri-apps/api/event\";\n\nexport type __Result__<T, E> = { status: \"ok\"; data: T } | { status: \"error\"; error: E };\n\n";

fn tid(name: &str) -> TypeId {
    TypeId::new(String::from(name))
}

fn prim(p: Primitive) -> TypeDefinition {
    TypeDefinition::Primitive(p)
}

fn refer(name: &str) -> TypeDefinition {
    TypeDefinition::Reference(tid(name))
}

fn field(name: &str, ty: TypeDefinition) -> Field {
    Field::new(String::from(name), ty)
}

#[test]
fn primitives_render_as_the_words_of_the_language() {
    assert_eq!(render_type(&prim(Primitive::Boolean)), "boolean");
    assert_eq!(render_type(&prim(Primitive::Number)), "number");
    assert_eq!(render_type(&prim(Primitive::BigInt)), "bigint");
    assert_eq!(render_type(&prim(Primitive::String)), "string");
    assert_eq!(render_type(&prim(Primitive::Null)), "null");
    assert_eq!(render_type(&prim(Primitive::Any)), "any");
}

#[test]
fn a_record_renders_its_members_in_order() {
    let record = TypeDefinition::Record(vec![
        field("a", prim(Primitive::Number)),
        field("b", prim(Primitive::String)),
    ]);
    assert_eq!(render_type(&record), "{ \"a\": number; \"b\": string; }");
    assert_eq!(render_type(&TypeDefinition::Record(Vec::new())), "{ }");
}

#[test]
fn a_union_renders_one_keyed_object_per_variant() {
    let union = TypeDefinition::Union(vec![
        field("Ok", prim(Primitive::Number)),
        field("Err", prim(Primitive::String)),
    ]);
    assert_eq!(render_type(&union), "(never | { \"Ok\": number } | { \"Err\": string })");
    assert_eq!(render_type(&TypeDefinition::Union(Vec::new())), "(never)");
}

#[test]
fn containers_render_around_their_items() {
    assert_eq!(
        render_type(&TypeDefinition::Sequence(Box::new(prim(Primitive::Number)))),
        "Array<number>"
    );
    assert_eq!(
        render_type(&TypeDefinition::Dictionary(
            Box::new(prim(Primitive::String)),
            Box::new(prim(Primitive::Boolean))
        )),
        "{ [key in string]: boolean }"
    );
    assert_eq!(
        render_type(&TypeDefinition::Optional(Box::new(refer("User")))),
        "(User | null)"
    );
    assert_eq!(
        render_type(&TypeDefinition::Sequence(Box::new(TypeDefinition::Optional(Box::new(
            TypeDefinition::Record(vec![field("next", refer("Node"))])
        ))))),
        "Array<({ \"next\": Node; } | null)>"
    );
}

#[test]
fn a_reference_renders_as_the_name_and_never_as_the_definition() {
    assert_eq!(render_type(&refer("User")), "User");
    let mut out = String::from("x: ");
    write_type(&refer("User"), &mut out);
    assert_eq!(out, "x: User");
}

#[test]
fn a_declaration_names_the_type() {
    let line = render_declaration(
        &tid("User"),
        &TypeDefinition::Record(vec![field("age", prim(Primitive::Number))]),
    );
    assert_eq!(line, "export type User = { \"age\": number; };");
}

#[test]
fn a_command_without_an_error_type_returns_the_result() {
    let add = CommandDescriptor {
        name: String::from("add"),
        params: vec![field("a", prim(Primitive::Number)), field("b", prim(Primitive::Number))],
        result: prim(Primitive::Number),
        error: None,
        handler: 0,
    };
    let mut out = String::new();
    write_command(None, &add, &mut out);
    assert_eq!(
        out,
        "  async \"add\"(a: number, b: number, ): Promise<number> {\n    return await TAURI_INVOKE(\"add\", { a, b, });\n  },\n"
    );
}

#[test]
fn a_command_with_an_error_type_returns_either_outcome() {
    let load = CommandDescriptor {
        name: String::from("load"),
        params: vec![field("path", prim(Primitive::String))],
        result: refer("Document"),
        error: Some(prim(Primitive::String)),
        handler: 0,
    };
    let mut out = String::new();
    write_command(Some("files"), &load, &mut out);
    assert_eq!(
        out,
        "  async \"load\"(path: string, ): Promise<__Result__<Document, string>> {\n    try {\n      return { status: \"ok\", data: await TAURI_INVOKE(\"files:load\", { path, }) };\n    } catch (e) {\n      if (e instanceof Error) throw e;\n      return { status: \"error\", error: e as any };\n    }\n  },\n"
    );
}

#[test]
fn a_command_without_parameters_sends_an_empty_object() {
    let ping = CommandDescriptor {
        name: String::from("ping"),
        params: Vec::new(),
        result: prim(Primitive::Null),
        error: None,
        handler: 0,
    };
    let mut out = String::new();
    write_command(None, &ping, &mut out);
    assert_eq!(
        out,
        "  async \"ping\"(): Promise<null> {\n    return await TAURI_INVOKE(\"ping\", { });\n  },\n"
    );
}

#[test]
fn an_event_helper_listens_under_the_event_name() {
    let tick = EventDescriptor {
        name: String::from("tick"),
        payload: TypeDefinition::Record(vec![field("seq", prim(Primitive::Number))]),
    };
    let mut out = String::new();
    write_event(&tick, &mut out);
    assert_eq!(
        out,
        "  \"tick\": (callback: (payload: { \"seq\": number; }) => void): Promise<UnlistenFn> => TAURI_LISTEN(\"tick\", (event) => callback(event.payload as { \"seq\": number; })),\n"
    );
}

#[test]
fn a_constant_is_written_with_its_type_and_its_text() {
    let version = ConstantEntry {
        name: String::from("VERSION"),
        ty: prim(Primitive::String),
        value: String::from("\"1.0\""),
    };
    let mut out = String::new();
    write_constant(&version, &mut out);
    assert_eq!(out, "export const VERSION: string = \"1.0\";\n");
}

#[test]
fn an_empty_module_holds_the_runtime_support_and_empty_sections() {
    let text = render(
        None,
        &Vec::new(),
        &Vec::new(),
        &TypeTable::new(),
        &Vec::new(),
        &Vec::new(),
    )
    .unwrap();
    assert_eq!(
        text,
        format!("{PREAMBLE}export const commands = {{\n}};\nexport const events = {{\n}};\n")
    );
}

#[test]
fn the_sections_come_in_a_fixed_order() {
    let mut table = TypeTable::new();
    table
        .register(NamedType::new(
            tid("User"),
            TypeDefinition::Record(vec![field("age", prim(Primitive::Number))]),
        ))
        .unwrap();
    let commands = vec![CommandDescriptor {
        name: String::from("me"),
        params: Vec::new(),
        result: refer("User"),
        error: None,
        handler: 0,
    }];
    let events = vec![EventDescriptor { name: String::from("joined"), payload: refer("User") }];
    let constants = vec![ConstantEntry {
        name: String::from("LIMIT"),
        ty: prim(Primitive::Number),
        value: String::from("10"),
    }];
    let text =
        render(Some("people"), &commands, &events, &table, &vec![tid("User")], &constants).unwrap();
    assert_eq!(
        text,
        format!(
            "{PREAMBLE}export type User = {{ \"age\": number; }};\nexport const commands = {{\n  async \"me\"(): Promise<User> {{\n    return await TAURI_INVOKE(\"people:me\", {{ }});\n  }},\n}};\nexport const events = {{\n  \"joined\": (callback: (payload: User) => void): Promise<UnlistenFn> => TAURI_LISTEN(\"joined\", (event) => callback(event.payload as User)),\n}};\nexport const LIMIT: number = 10;\n"
        )
    );
}

#[test]
fn a_closure_entry_without_a_definition_fails_the_render() {
    let got = render(
        None,
        &Vec::new(),
        &Vec::new(),
        &TypeTable::new(),
        &vec![tid("Ghost")],
        &Vec::new(),
    );
    assert!(matches!(got, Err(ExportError::RenderInconsistency(name)) if name == "Ghost"));
}

#[test]
fn a_reference_outside_the_closure_fails_the_render() {
    let mut table = TypeTable::new();
    table.register(NamedType::new(tid("User"), prim(Primitive::Number))).unwrap();
    let events = vec![EventDescriptor { name: String::from("joined"), payload: refer("User") }];
    let got = render(None, &Vec::new(), &events, &table, &Vec::new(), &Vec::new());
    assert!(matches!(&got, Err(ExportError::RenderInconsistency(name)) if name == "User"));
    assert_eq!(got.unwrap_err().message(), "type referenced but never registered: User");
}

#[test]
fn a_reference_inside_a_definition_must_be_in_the_closure_too() {
    let mut table = TypeTable::new();
    table.register(NamedType::new(tid("A"), refer("B"))).unwrap();
    table.register(NamedType::new(tid("B"), prim(Primitive::Number))).unwrap();
    let got = render(None, &Vec::new(), &Vec::new(), &table, &vec![tid("A")], &Vec::new());
    assert!(matches!(got, Err(ExportError::RenderInconsistency(name)) if name == "B"));
    let ok = render(None, &Vec::new(), &Vec::new(), &table, &vec![tid("A"), tid("B")], &Vec::new());
    assert!(ok.unwrap().contains("export type A = B;\nexport type B = number;\n"));
}

#[test]
fn referenced_types_are_collected_from_commands_then_events_then_constants() {
    let commands = vec![CommandDescriptor {
        name: String::from("c"),
        params: vec![field("p", refer("P"))],
        result: refer("R"),
        error: Some(refer("E")),
        handler: 0,
    }];
    let events = vec![EventDescriptor { name: String::from("e"), payload: refer("V") }];
    let constants = vec![ConstantEntry {
        name: String::from("K"),
        ty: refer("C"),
        value: String::from("null"),
    }];
    let refs = collect_referenced(&commands, &events, &constants);
    let names: Vec<&str> = refs.iter().map(|id| id.name.as_str()).collect();
    assert_eq!(names, vec!["P", "R", "E", "V", "C"]);
}

#[test]
fn the_first_identity_outside_the_allowed_ones_is_found() {
    let ids = vec![tid("A"), tid("B"), tid("C")];
    assert_eq!(find_outside(&ids, &vec![tid("A"), tid("C")]).unwrap().name, "B");
    assert_eq!(find_outside(&ids, &Vec::new()).unwrap().name, "A");
    assert!(find_outside(&ids, &vec![tid("C"), tid("B"), tid("A")]).is_none());
    assert!(find_outside(&Vec::new(), &Vec::new()).is_none());
}
