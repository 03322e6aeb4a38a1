use tauri_specta::definition::{
    duplicate_fields, member, positional, same_fields, wide_integer, BigIntExportBehavior,
};
use tauri_specta::order::name_before;
use tauri_specta::{ExportError, Field, NamedType, Primitive, TypeDefinition, TypeId, TypeTable};

fn id(name: &str) -> TypeId {
    TypeId::new(String::from(name))
}

fn number() -> TypeDefinition {
    TypeDefinition::Primitive(Primitive::Number)
}

fn reference(name: &str) -> TypeDefinition {
    TypeDefinition::Reference(id(name))
}

fn record(fields: Vec<(&str, TypeDefinition)>) -> TypeDefinition {
    TypeDefinition::Record(
        fields
            .into_iter()
            .map(|(name, ty)| Field::new(String::from(name), ty))
            .collect(),
    )
}

fn named(name: &str, definition: TypeDefinition) -> NamedType {
    NamedType::new(id(name), definition)
}

fn names(ids: &[TypeId]) -> Vec<&str> {
    ids.iter().map(|id| id.name.as_str()).collect()
}

#[test]
fn registering_a_type_returns_its_identity() {
    let mut table = TypeTable::new();
    let got = table.register(named("User", record(vec![("age", number())]))).unwrap();
    assert_eq!(got.name, "User");
    assert_eq!(table.len(), 1);
    assert!(table.contains(&id("User")));
    assert!(!table.contains(&id("Other")));
}

#[test]
fn registering_the_same_type_twice_keeps_one_definition() {
    let mut table = TypeTable::new();
    let first = table.register(named("User", record(vec![("age", number())]))).unwrap();
    let second = table.register(named("User", record(vec![("age", number())]))).unwrap();
    assert!(first.same(&second));
    assert_eq!(table.len(), 1);
    let closure = table.resolve_closure(&vec![id("User"), id("User")]);
    assert_eq!(names(&closure), vec!["User"]);
}

#[test]
fn registering_another_definition_under_a_known_identity_is_refused() {
    let mut table = TypeTable::new();
    table.register(named("User", record(vec![("age", number())]))).unwrap();
    let refused = table.register(named("User", record(vec![("name", number())])));
    assert!(matches!(refused, Err(ExportError::TypeCollision(name)) if name == "User"));
    assert_eq!(table.len(), 1);
    let kept = table.get(&id("User")).unwrap();
    assert!(kept.definition.same(&record(vec![("age", number())])));
}

#[test]
fn register_all_is_all_or_nothing() {
    let mut table = TypeTable::new();
    table.register(named("A", number())).unwrap();
    let refused = table.register_all(&vec![
        named("B", number()),
        named("A", TypeDefinition::Primitive(Primitive::String)),
        named("C", number()),
    ]);
    assert!(matches!(refused, Err(ExportError::TypeCollision(name)) if name == "A"));
    assert_eq!(names(&table.ids()), vec!["A"]);
    table.register_all(&vec![named("B", number()), named("A", number())]).unwrap();
    assert_eq!(names(&table.ids()), vec!["A", "B"]);
}

#[test]
fn closure_follows_references_in_order_of_discovery() {
    let mut table = TypeTable::new();
    table.register(named("Leaf", number())).unwrap();
    table
        .register(named(
            "Pair",
            record(vec![("left", reference("Left")), ("right", reference("Right"))]),
        ))
        .unwrap();
    table.register(named("Right", record(vec![("leaf", reference("Leaf"))]))).unwrap();
    table.register(named("Left", record(vec![("leaf", reference("Leaf"))]))).unwrap();
    table.register(named("Unused", number())).unwrap();
    let closure = table.resolve_closure(&vec![id("Pair")]);
    assert_eq!(names(&closure), vec!["Pair", "Left", "Right", "Leaf"]);
}

#[test]
fn closure_of_no_roots_is_empty() {
    let mut table = TypeTable::new();
    table.register(named("A", number())).unwrap();
    assert!(table.resolve_closure(&Vec::new()).is_empty());
}

#[test]
fn closure_of_a_self_reference_holds_the_type_once() {
    let mut table = TypeTable::new();
    table
        .register(named(
            "Tree",
            record(vec![(
                "children",
                TypeDefinition::Sequence(Box::new(reference("Tree"))),
            )]),
        ))
        .unwrap();
    let closure = table.resolve_closure(&vec![id("Tree")]);
    assert_eq!(names(&closure), vec!["Tree"]);
}

#[test]
fn closure_of_a_mutual_reference_holds_each_type_once() {
    let mut table = TypeTable::new();
    table
        .register(named("Even", TypeDefinition::Optional(Box::new(reference("Odd")))))
        .unwrap();
    table
        .register(named("Odd", TypeDefinition::Optional(Box::new(reference("Even")))))
        .unwrap();
    assert_eq!(names(&table.resolve_closure(&vec![id("Even")])), vec!["Even", "Odd"]);
    assert_eq!(names(&table.resolve_closure(&vec![id("Odd")])), vec!["Odd", "Even"]);
}

#[test]
fn closure_passes_over_what_is_not_registered() {
    let mut table = TypeTable::new();
    table
        .register(named("A", record(vec![("b", reference("B")), ("c", reference("C"))])))
        .unwrap();
    table.register(named("C", number())).unwrap();
    let closure = table.resolve_closure(&vec![id("Missing"), id("A")]);
    assert_eq!(names(&closure), vec!["A", "C"]);
}

#[test]
fn references_are_listed_as_written() {
    let definition = record(vec![
        ("a", reference("A")),
        (
            "m",
            TypeDefinition::Dictionary(Box::new(reference("K")), Box::new(reference("A"))),
        ),
        ("u", TypeDefinition::Union(vec![Field::new(String::from("V"), reference("B"))])),
        ("n", number()),
    ]);
    assert_eq!(names(&definition.references()), vec!["A", "K", "A", "B"]);
    assert!(number().references().is_empty());
}

#[test]
fn structural_equality_looks_at_names_order_and_types() {
    let a = record(vec![("x", number()), ("y", reference("T"))]);
    assert!(a.same(&record(vec![("x", number()), ("y", reference("T"))])));
    assert!(!a.same(&record(vec![("y", reference("T")), ("x", number())])));
    assert!(!a.same(&record(vec![("x", number())])));
    assert!(!a.same(&record(vec![("x", number()), ("y", reference("U"))])));
    assert!(!a.same(&TypeDefinition::Union(vec![
        Field::new(String::from("x"), number()),
        Field::new(String::from("y"), reference("T")),
    ])));
    assert!(!number().same(&TypeDefinition::Primitive(Primitive::BigInt)));
    assert!(TypeDefinition::Sequence(Box::new(number()))
        .same(&TypeDefinition::Sequence(Box::new(number()))));
    assert!(!TypeDefinition::Sequence(Box::new(number()))
        .same(&TypeDefinition::Optional(Box::new(number()))));
}

#[test]
fn a_duplicate_has_the_same_shape() {
    let a = record(vec![
        ("x", TypeDefinition::Optional(Box::new(reference("T")))),
        (
            "y",
            TypeDefinition::Dictionary(
                Box::new(TypeDefinition::Primitive(Primitive::String)),
                Box::new(TypeDefinition::Primitive(Primitive::Any)),
            ),
        ),
    ]);
    assert!(a.duplicate().same(&a));
    let fields = vec![Field::new(String::from("x"), number())];
    let copy = duplicate_fields(&fields);
    assert!(same_fields(&fields, &copy));
    assert_eq!(copy[0].name, "x");
    assert!(fields[0].duplicate().ty.same(&number()));
    let entry = named("N", number());
    let twin = entry.duplicate();
    assert!(twin.id.same(&entry.id) && twin.definition.same(&entry.definition));
    assert!(id("N").duplicate().same(&id("N")));
    assert!(!id("N").same(&id("n")));
}

#[test]
fn a_table_copy_is_independent() {
    let mut table = TypeTable::new();
    table.register(named("A", number())).unwrap();
    let mut copy = table.duplicate();
    copy.register(named("B", number())).unwrap();
    assert_eq!(names(&table.ids()), vec!["A"]);
    assert_eq!(names(&copy.ids()), vec!["A", "B"]);
    assert!(table.get(&id("B")).is_none());
}

#[test]
fn names_are_ordered_as_in_a_dictionary() {
    assert!(name_before("A", "B"));
    assert!(!name_before("B", "A"));
    assert!(!name_before("A", "A"));
    assert!(name_before("", "A"));
    assert!(!name_before("A", ""));
    assert!(!name_before("", ""));
    assert!(name_before("Ab", "Abc"));
    assert!(!name_before("Abc", "Ab"));
    assert!(name_before("Abc", "Abd"));
    assert!(name_before("Z", "a"));
    assert!(name_before("z", "\u{e9}"));
    assert!(name_before("\u{e9}", "\u{4e2d}"));
    assert!(!name_before("\u{1f600}", "\u{4e2d}"));
}

#[test]
fn a_canonical_table_holds_the_same_types_in_the_order_of_their_names() {
    let mut table = TypeTable::new();
    table.register(named("Mole", number())).unwrap();
    table.register(named("Zebra", reference("Ant"))).unwrap();
    table.register(named("Ant", number())).unwrap();
    let sorted = table.canonical();
    assert_eq!(names(&sorted.ids()), vec!["Ant", "Mole", "Zebra"]);
    assert_eq!(names(&table.ids()), vec!["Mole", "Zebra", "Ant"]);
    assert!(sorted.get(&id("Zebra")).unwrap().definition.same(&reference("Ant")));
    assert!(TypeTable::new().canonical().ids().is_empty());
}

#[test]
fn wide_integers_are_written_as_the_setting_says() {
    assert_eq!(wide_integer(BigIntExportBehavior::String), Some(Primitive::String));
    assert_eq!(wide_integer(BigIntExportBehavior::Number), Some(Primitive::Number));
    assert_eq!(wide_integer(BigIntExportBehavior::BigInt), Some(Primitive::BigInt));
    assert_eq!(wide_integer(BigIntExportBehavior::Fail), None);
}

#[test]
fn members_without_names_become_null_their_own_type_or_a_record() {
    assert!(positional(Vec::new()).same(&TypeDefinition::Primitive(Primitive::Null)));
    assert!(positional(vec![Field::new(String::from("0"), reference("T"))]).same(&reference("T")));
    let pair = positional(vec![
        Field::new(String::from("0"), number()),
        Field::new(String::from("1"), reference("T")),
    ]);
    assert!(pair.same(&record(vec![("0", number()), ("1", reference("T"))])));
}

#[test]
fn a_member_that_may_be_left_out_has_an_optional_type() {
    let plain = member(String::from("age"), number(), false);
    assert_eq!(plain.name, "age");
    assert!(plain.ty.same(&number()));
    let optional = member(String::from("age"), number(), true);
    assert_eq!(optional.name, "age");
    assert!(optional.ty.same(&TypeDefinition::Optional(Box::new(number()))));
}
