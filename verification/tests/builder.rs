use std::collections::BTreeMap;
use tauri_specta::{
    Builder, CommandDescriptor, Commands, ConstantTable, EventDescriptor, Events, ExportError,
    Field, NamedType, Primitive, TypeDefinition, TypeId, Typescript,
};

const PREAMBLE: &str = "import { invoke as TAURI_INVOKE } from \"@tauri-apps/api/core\";\nimport { listen as TAURI_LISTEN, type UnlistenFn } from \"@tauri-apps/api/event\";\n\nexport type __Result__<T, E> = { status: \"ok\"; data: T } | { status: \"error\"; error: E };\n\n";

fn number() -> TypeDefinition {
    TypeDefinition::Primitive(Primitive::Number)
}

fn refer(name: &str) -> TypeDefinition {
    TypeDefinition::Reference(TypeId::new(String::from(name)))
}

fn field(name: &str, ty: TypeDefinition) -> Field {
    Field::new(String::from(name), ty)
}

fn named(name: &str, definition: TypeDefinition) -> NamedType {
    NamedType::new(TypeId::new(String::from(name)), definition)
}

fn command(name: &str, result: TypeDefinition) -> CommandDescriptor {
    CommandDescriptor { name: String::from(name), params: Vec::new(), result, error: None, handler: 0 }
}

fn count_of(text: &str, part: &str) -> usize {
    text.matches(part).count()
}

#[test]
fn end_to_end_module_with_a_command_an_event_and_a_constant() {
    let mut commands = Commands::new();
    commands
        .add(CommandDescriptor {
            name: String::from("add"),
            params: vec![field("a", number()), field("b", number())],
            result: number(),
            error: None,
            handler: 0,
        })
        .unwrap();
    let mut events = Events::new();
    events
        .add(EventDescriptor {
            name: String::from("tick"),
            payload: TypeDefinition::Record(vec![field("seq", number())]),
        })
        .unwrap();
    let builder = Builder::new()
        .commands(commands)
        .events(events)
        .constant(
            String::from("VERSION"),
            TypeDefinition::Primitive(Primitive::String),
            Vec::new(),
            serde_json::to_value("1.0"),
        )
        .unwrap();
    let text = builder
        .export_ts(Typescript::new().header(String::from("// generated")))
        .unwrap();
    assert_eq!(
        text,
        format!(
            "// generated\n{PREAMBLE}export const commands = {{\n  async \"add\"(a: number, b: number, ): Promise<number> {{\n    return await TAURI_INVOKE(\"add\", {{ a, b, }});\n  }},\n}};\nexport const events = {{\n  \"tick\": (callback: (payload: {{ \"seq\": number; }}) => void): Promise<UnlistenFn> => TAURI_LISTEN(\"tick\", (event) => callback(event.payload as {{ \"seq\": number; }})),\n}};\nexport const VERSION: string = \"1.0\";\n"
        )
    );
}

#[test]
fn exporting_twice_gives_the_same_text() {
    let mut commands = Commands::new();
    commands.add(command("me", refer("User"))).unwrap();
    commands.ty(named("User", TypeDefinition::Record(vec![field("friend", refer("User"))])));
    let builder = Builder::new().plugin_name("people").commands(commands);
    let first = builder.export_ts(Typescript::new()).unwrap();
    let second = builder.export_ts(Typescript::new()).unwrap();
    assert_eq!(first, second);
    assert!(first.starts_with("\nimport "));
}

#[test]
fn setting_the_commands_again_replaces_the_whole_set() {
    let mut first = Commands::new();
    first.add(command("old", number())).unwrap();
    first.add(command("kept", number())).unwrap();
    let mut second = Commands::new();
    second.add(command("kept", number())).unwrap();
    let builder = Builder::new().commands(first).commands(second);
    let text = builder.export_ts(Typescript::new()).unwrap();
    assert!(!text.contains("\"old\""));
    assert_eq!(count_of(&text, "async \"kept\""), 1);
    assert!(builder.invoke_handler().dispatch("old").is_err());
}

#[test]
fn setting_the_events_or_the_plugin_name_again_replaces_them() {
    let mut first = Events::new();
    first.add(EventDescriptor { name: String::from("old"), payload: number() }).unwrap();
    let mut second = Events::new();
    second.add(EventDescriptor { name: String::from("new"), payload: number() }).unwrap();
    let mut commands = Commands::new();
    commands.add(command("go", number())).unwrap();
    let builder = Builder::new()
        .plugin_name("one")
        .events(first)
        .commands(commands)
        .events(second)
        .plugin_name("two");
    assert_eq!(builder.mount_events(), vec![String::from("new")]);
    let text = builder.export_ts(Typescript::new()).unwrap();
    assert!(text.contains("TAURI_INVOKE(\"two:go\""));
    assert!(!text.contains("one:go"));
    assert!(!text.contains("\"old\""));
}

#[test]
fn a_self_referential_type_is_declared_once() {
    let builder = Builder::new()
        .ty(named(
            "Tree",
            TypeDefinition::Record(vec![field(
                "children",
                TypeDefinition::Sequence(Box::new(refer("Tree"))),
            )]),
        ), Vec::new())
        .unwrap();
    let text = builder.export_ts(Typescript::new()).unwrap();
    assert_eq!(count_of(&text, "export type Tree ="), 1);
    assert!(text.contains("export type Tree = { \"children\": Array<Tree>; };\n"));
}

#[test]
fn mutually_referential_types_are_each_declared_once() {
    let mut commands = Commands::new();
    commands.add(command("first", refer("Even"))).unwrap();
    commands.ty(named("Odd", TypeDefinition::Optional(Box::new(refer("Even")))));
    commands.ty(named("Even", TypeDefinition::Optional(Box::new(refer("Odd")))));
    let text = Builder::new().commands(commands).export_ts(Typescript::new()).unwrap();
    assert_eq!(count_of(&text, "export type Even ="), 1);
    assert_eq!(count_of(&text, "export type Odd ="), 1);
    assert!(text.contains(
        "export type Even = (Odd | null);\nexport type Odd = (Even | null);\nexport const commands"
    ));
}

#[test]
fn a_type_shared_by_commands_events_and_the_builder_is_declared_once() {
    let user = || named("User", TypeDefinition::Record(vec![field("age", number())]));
    let mut commands = Commands::new();
    commands.add(command("me", refer("User"))).unwrap();
    commands.ty(user());
    commands.ty(user());
    let mut events = Events::new();
    events.add(EventDescriptor { name: String::from("joined"), payload: refer("User") }).unwrap();
    events.ty(user());
    let builder = Builder::new().ty(user(), Vec::new()).unwrap().commands(commands).events(events);
    let text = builder.export_ts(Typescript::new()).unwrap();
    assert_eq!(count_of(&text, "export type User ="), 1);
}

#[test]
fn a_constant_keeps_its_value_through_the_export() {
    let mut object = serde_json::Map::new();
    object.insert(String::from("count"), serde_json::Value::from(3));
    let value = serde_json::Value::Object(object);
    let builder = Builder::new()
        .constant(
            String::from("LIMITS"),
            TypeDefinition::Record(vec![field("count", number())]),
            Vec::new(),
            Ok(value.clone()),
        )
        .unwrap();
    let text = builder.export_ts(Typescript::new()).unwrap();
    let line = text.lines().find(|line| line.starts_with("export const LIMITS")).unwrap();
    assert_eq!(line, "export const LIMITS: { \"count\": number; } = {\"count\":3};");
    let written = line
        .strip_prefix("export const LIMITS: { \"count\": number; } = ")
        .unwrap()
        .strip_suffix(";")
        .unwrap();
    let decoded: serde_json::Value = serde_json::from_str(written).unwrap();
    assert_eq!(decoded, value);
}

#[test]
fn a_constant_that_cannot_be_serialized_is_reported_under_its_name() {
    let mut keyed_by_pairs: BTreeMap<(i32, i32), i32> = BTreeMap::new();
    keyed_by_pairs.insert((1, 2), 3);
    let failed = serde_json::to_value(&keyed_by_pairs);
    assert!(failed.is_err());
    let got = Builder::new().constant(String::from("GRID"), number(), Vec::new(), failed);
    let error = got.err().unwrap();
    assert!(matches!(&error, ExportError::ValueEncoding(name) if name == "GRID"));
    assert_eq!(error.message(), "failed to serialize constant: GRID");
}

#[test]
fn a_failed_constant_leaves_the_table_as_it_was() {
    let mut table = ConstantTable::new();
    table
        .insert_value(String::from("A"), number(), serde_json::to_value(1))
        .unwrap();
    let failed = table.insert_value(
        String::from("A"),
        number(),
        serde_json::from_str::<serde_json::Value>("{"),
    );
    assert!(matches!(failed, Err(ExportError::ValueEncoding(name)) if name == "A"));
    assert_eq!(table.entries().len(), 1);
    assert_eq!(table.entries()[0].value, "1");
}

#[test]
fn a_later_constant_of_a_name_overwrites_the_earlier_one_in_place() {
    let builder = Builder::new()
        .constant(String::from("A"), number(), Vec::new(), serde_json::to_value(1))
        .unwrap()
        .constant(String::from("B"), number(), Vec::new(), serde_json::to_value(2))
        .unwrap()
        .constant(
            String::from("A"),
            TypeDefinition::Primitive(Primitive::String),
            Vec::new(),
            serde_json::to_value("one"),
        )
        .unwrap();
    let text = builder.export_ts(Typescript::new()).unwrap();
    assert!(text.ends_with("export const A: string = \"one\";\nexport const B: number = 2;\n"));
    assert_eq!(count_of(&text, "export const A:"), 1);
}

#[test]
fn a_constant_brings_the_types_that_its_type_refers_to() {
    let builder = Builder::new()
        .constant(
            String::from("ORIGIN"),
            refer("Point"),
            vec![named("Point", TypeDefinition::Record(vec![field("x", number())]))],
            serde_json::from_str::<serde_json::Value>("{\"x\": 0}"),
        )
        .unwrap();
    let text = builder.export_ts(Typescript::new()).unwrap();
    assert!(text.contains("export type Point = { \"x\": number; };\n"));
    assert!(text.ends_with("export const ORIGIN: Point = {\"x\":0};\n"));
}

#[test]
fn a_constant_whose_types_collide_is_refused() {
    let builder = Builder::new().ty(named("Point", number()), Vec::new()).unwrap();
    let got = builder.constant(
        String::from("ORIGIN"),
        refer("Point"),
        vec![named("Other", number()), named("Point", refer("Other"))],
        serde_json::to_value(0),
    );
    assert!(matches!(got, Err(ExportError::TypeCollision(name)) if name == "Point"));
}

#[test]
fn registering_a_type_twice_with_the_builder_is_idempotent() {
    let builder = Builder::new()
        .ty(named("User", number()), Vec::new())
        .unwrap()
        .ty(named("User", number()), Vec::new())
        .unwrap();
    let text = builder.export_ts(Typescript::new()).unwrap();
    assert_eq!(count_of(&text, "export type User = number;"), 1);
    let refused = builder.ty(named("User", TypeDefinition::Primitive(Primitive::String)), Vec::new());
    let error = refused.err().unwrap();
    assert!(matches!(&error, ExportError::TypeCollision(name) if name == "User"));
    assert_eq!(error.message(), "type registered with two definitions: User");
}

#[test]
fn colliding_types_of_commands_and_events_fail_the_export() {
    let mut commands = Commands::new();
    commands.ty(named("User", number()));
    let mut events = Events::new();
    events.ty(named("User", TypeDefinition::Primitive(Primitive::String)));
    let builder = Builder::new().commands(commands).events(events);
    let got = builder.export_ts(Typescript::new());
    assert!(matches!(got, Err(ExportError::TypeCollision(name)) if name == "User"));
}

#[test]
fn a_reference_to_a_type_that_nobody_registered_fails_the_export() {
    let mut commands = Commands::new();
    commands.add(command("me", refer("User"))).unwrap();
    let got = Builder::new().commands(commands).export_ts(Typescript::new());
    assert!(matches!(got, Err(ExportError::RenderInconsistency(name)) if name == "User"));
}

#[test]
fn extra_types_are_exported_though_nothing_refers_to_them() {
    let builder = Builder::new()
        .ty(named("Settings", TypeDefinition::Record(vec![field("theme", refer("Theme"))])), Vec::new())
        .unwrap()
        .ty(named(
            "Theme",
            TypeDefinition::Union(vec![
                field("Light", TypeDefinition::Primitive(Primitive::Null)),
                field("Dark", TypeDefinition::Primitive(Primitive::Null)),
            ]),
        ), Vec::new())
        .unwrap();
    let text = builder.export_ts(Typescript::new().header(String::from("/* eslint-disable */"))).unwrap();
    assert_eq!(
        text,
        format!(
            "/* eslint-disable */\n{PREAMBLE}export type Settings = {{ \"theme\": Theme; }};\nexport type Theme = (never | {{ \"Light\": null }} | {{ \"Dark\": null }});\nexport const commands = {{\n}};\nexport const events = {{\n}};\n"
        )
    );
}

#[test]
fn events_are_mounted_under_their_own_names() {
    let mut events = Events::new();
    events.add(EventDescriptor { name: String::from("tick"), payload: number() }).unwrap();
    events.add(EventDescriptor { name: String::from("tock"), payload: number() }).unwrap();
    let refused = events.add(EventDescriptor { name: String::from("tick"), payload: number() });
    let error = refused.err().unwrap();
    assert!(matches!(&error, ExportError::DuplicateName(name) if name == "tick"));
    assert_eq!(error.message(), "name registered twice: tick");
    assert_eq!(events.items().len(), 2);
    assert_eq!(events.names(), vec![String::from("tick"), String::from("tock")]);
    let builder = Builder::new().plugin_name("clock").events(events);
    assert_eq!(builder.mount_events(), vec![String::from("tick"), String::from("tock")]);
    let text = builder.export_ts(Typescript::new()).unwrap();
    assert!(text.contains("TAURI_LISTEN(\"tick\""));
    assert!(text.contains("TAURI_LISTEN(\"tock\""));
}

#[test]
fn a_new_builder_is_empty() {
    let fresh = Builder::new().export_ts(Typescript::new()).unwrap();
    let default = Builder::default().export_ts(Typescript::new()).unwrap();
    assert_eq!(fresh, default);
    assert_eq!(
        fresh,
        format!("\n{PREAMBLE}export const commands = {{\n}};\nexport const events = {{\n}};\n")
    );
    assert!(Builder::new().mount_events().is_empty());
    assert_eq!(Builder::new().invoke_handler().len(), 0);
}

#[test]
fn the_constant_table_keeps_the_order_of_first_insertion() {
    let mut table = ConstantTable::new();
    let entry = |name: &str, value: &str| tauri_specta::ConstantEntry {
        name: String::from(name),
        ty: number(),
        value: String::from(value),
    };
    table.insert(entry("A", "1"));
    table.insert(entry("B", "2"));
    table.insert(entry("A", "3"));
    let got: Vec<(&str, &str)> = table
        .entries()
        .iter()
        .map(|c| (c.name.as_str(), c.value.as_str()))
        .collect();
    assert_eq!(got, vec![("A", "3"), ("B", "2")]);
    table.insert(entry("0", "4"));
    let stored: Vec<&str> = table.entries().iter().map(|c| c.name.as_str()).collect();
    assert_eq!(stored, vec!["A", "B", "0"]);
    let sorted = table.canonical();
    let by_name: Vec<(&str, &str)> =
        sorted.iter().map(|c| (c.name.as_str(), c.value.as_str())).collect();
    assert_eq!(by_name, vec![("0", "4"), ("A", "3"), ("B", "2")]);
}

#[test]
fn the_export_does_not_depend_on_the_order_of_registration() {
    let one = Builder::new()
        .ty(named("A", number()), Vec::new())
        .unwrap()
        .ty(named("B", number()), Vec::new())
        .unwrap()
        .constant(String::from("X"), number(), Vec::new(), serde_json::to_value(1))
        .unwrap()
        .constant(String::from("Y"), number(), Vec::new(), serde_json::to_value(2))
        .unwrap();
    let other = Builder::new()
        .constant(String::from("Y"), number(), Vec::new(), serde_json::to_value(2))
        .unwrap()
        .ty(named("B", number()), Vec::new())
        .unwrap()
        .constant(String::from("X"), number(), Vec::new(), serde_json::to_value(1))
        .unwrap()
        .ty(named("A", number()), Vec::new())
        .unwrap();
    let first = one.export_ts(Typescript::new()).unwrap();
    let second = other.export_ts(Typescript::new()).unwrap();
    assert_eq!(first, second);
    assert_eq!(
        first,
        format!(
            "\n{PREAMBLE}export type A = number;\nexport type B = number;\nexport const commands = {{\n}};\nexport const events = {{\n}};\nexport const X: number = 1;\nexport const Y: number = 2;\n"
        )
    );
}

#[test]
fn the_builders_types_are_declared_in_the_order_of_their_names() {
    let builder = Builder::new()
        .ty(named("Zebra", number()), Vec::new())
        .unwrap()
        .ty(named("Ant", refer("Zebra")), Vec::new())
        .unwrap()
        .ty(named("Mole", number()), Vec::new())
        .unwrap();
    let text = builder.export_ts(Typescript::new()).unwrap();
    assert!(text.contains(
        "export type Ant = Zebra;\nexport type Mole = number;\nexport type Zebra = number;\nexport const commands"
    ));
}

#[test]
fn a_type_is_registered_behind_the_types_that_it_refers_to() {
    let builder = Builder::new()
        .ty(
            named("A", refer("B")),
            vec![named("B", TypeDefinition::Optional(Box::new(refer("C")))), named("C", number())],
        )
        .unwrap();
    let text = builder.export_ts(Typescript::new()).unwrap();
    assert_eq!(
        text,
        format!(
            "\n{PREAMBLE}export type A = B;\nexport type B = (C | null);\nexport type C = number;\nexport const commands = {{\n}};\nexport const events = {{\n}};\n"
        )
    );
    let alone = Builder::new().ty(named("A", refer("B")), Vec::new()).unwrap();
    assert!(matches!(
        alone.export_ts(Typescript::new()),
        Err(ExportError::RenderInconsistency(name)) if name == "B"
    ));
}

#[test]
fn a_discovered_type_that_collides_is_reported_and_nothing_is_registered() {
    let builder = Builder::new().ty(named("B", number()), Vec::new()).unwrap();
    let refused = builder.ty(
        named("A", refer("B")),
        vec![named("C", number()), named("B", refer("C"))],
    );
    assert!(matches!(refused, Err(ExportError::TypeCollision(name)) if name == "B"));
}

#[test]
fn types_that_refer_to_themselves_or_to_each_other_are_registered_once() {
    let tree = || {
        named(
            "N",
            TypeDefinition::Record(vec![field(
                "next",
                TypeDefinition::Optional(Box::new(refer("N"))),
            )]),
        )
    };
    let a = || {
        named(
            "A",
            TypeDefinition::Record(vec![field(
                "b",
                TypeDefinition::Sequence(Box::new(refer("B"))),
            )]),
        )
    };
    let b = || {
        named(
            "B",
            TypeDefinition::Record(vec![field(
                "a",
                TypeDefinition::Optional(Box::new(refer("A"))),
            )]),
        )
    };
    let builder = Builder::new()
        .ty(tree(), vec![tree()])
        .unwrap()
        .ty(a(), vec![b(), a()])
        .unwrap();
    let text = builder.export_ts(Typescript::new()).unwrap();
    assert_eq!(count_of(&text, "export type N ="), 1);
    assert_eq!(count_of(&text, "export type A ="), 1);
    assert_eq!(count_of(&text, "export type B ="), 1);
    assert!(text.contains("export type A = { \"b\": Array<B>; };\n"));
    assert!(text.contains("export type B = { \"a\": (A | null); };\n"));
    assert!(text.contains("export type N = { \"next\": (N | null); };\n"));
}

#[test]
fn a_builder_can_always_be_asked_for_what_holds_of_it() {
    let builder = Builder::new()
        .ty(named("A", number()), vec![named("A", number())])
        .unwrap()
        .constant(String::from("K"), refer("A"), vec![named("A", number())], serde_json::to_value(1))
        .unwrap();
    builder.invariants();
    let text = builder.export_ts(Typescript::new()).unwrap();
    assert_eq!(count_of(&text, "export type A = number;"), 1);
    assert!(text.ends_with("export const K: A = 1;\n"));
}
