//! The builder: it owns the commands, the events, the extra types and the
//! constants, and turns them into the text of the client module.

use crate::commands::{command_names, routes_of, text_of, Commands, CommandsView, Dispatcher};
use crate::constants::{
    canonical_constants, constant_names, inserted, json_encoding, ConstantShape, ConstantTable,
};
use crate::definition::{id_names, shape_refs, Shape, TypeDefinition};
use crate::error::{ExportError, Failure};
use crate::events::{event_names, texts, Events, EventsView};
use crate::order::{distinct_names, lemma_sorted_whatever_the_order};
use crate::render::{
    closure_refs, collect_referenced, constants_text, commands_text, declarations_text,
    events_text, joined, lemma_first_outside, lemma_joined_all, preamble_text, referenced, render,
    render_outcome,
};
use crate::type_table::{
    canonical_types, closure_of, covers, defined, definition_of, distinct_ids, first_collision,
    lemma_canonical_types, lemma_closure, lemma_registered_all, named_shapes, registered_all,
    table_ids, NamedShape, NamedType, TypeTable,
};
use vstd::prelude::*;
use vstd::string::StringExecFns;

verus! {

/// How the module is written for TypeScript.
#[derive(Debug)]
pub struct Typescript {
    /// Text that stands before everything else in the file, on lines of its
    /// own.
    pub header: String,
}

impl Typescript {
    /// The settings without a header.
    pub fn new() -> (language: Typescript)
        ensures
            language.header@ == Seq::<char>::empty(),
    {
        Typescript { header: String::new() }
    }

    /// The same settings with `header` as the file's header.
    pub fn header(self, header: String) -> (language: Typescript)
        ensures
            language.header@ == header@,
    {
        Typescript { header }
    }
}

/// Collects what the client module is generated from.
///
/// A builder starts empty and changes only through the calls below. Setting
/// the commands, the events or the plugin name again replaces what was set
/// before as a whole; nothing is merged.
pub struct Builder {
    plugin_name: Option<&'static str>,
    commands: Commands,
    events: Events,
    types: TypeTable,
    constants: ConstantTable,
}

/// The mathematical model of a [`Builder`].
pub struct BuilderView {
    pub plugin_name: Option<Seq<char>>,
    pub commands: CommandsView,
    pub events: EventsView,
    pub types: Seq<NamedShape>,
    pub constants: Seq<ConstantShape>,
}

impl BuilderView {
    /// The state after the plugin name is set.
    pub open spec fn with_plugin_namespace(self, name: Seq<char>) -> BuilderView {
        BuilderView { plugin_name: Some(name), ..self }
    }

    /// The state after the commands are set.
    pub open spec fn with_commands(self, commands: CommandsView) -> BuilderView {
        BuilderView { commands, ..self }
    }

    /// The state after the events are set.
    pub open spec fn with_events(self, events: EventsView) -> BuilderView {
        BuilderView { events, ..self }
    }

    /// No identity is registered twice, and no two commands, no two events
    /// and no two constants have the same name.
    pub open spec fn well_formed(self) -> bool {
        &&& distinct_ids(self.types)
        &&& command_names(self.commands.items).no_duplicates()
        &&& event_names(self.events.items).no_duplicates()
        &&& constant_names(self.constants).no_duplicates()
    }

    /// The state after a type is registered behind the named types that it
    /// refers to, where all of them are accepted.
    pub open spec fn with_type(self, ty: NamedShape, discovered: Seq<NamedShape>) -> Option<
        BuilderView,
    > {
        match registered_all(self.types, discovered.push(ty)) {
            Some(types) => Some(BuilderView { types, ..self }),
            None => None,
        }
    }

    /// The state after a constant with the text `value` is registered
    /// together with the named types that its type refers to, where these
    /// are accepted.
    pub open spec fn with_constant(
        self,
        name: Seq<char>,
        ty: Shape,
        discovered: Seq<NamedShape>,
        value: Seq<char>,
    ) -> Option<BuilderView> {
        match registered_all(self.types, discovered) {
            Some(types) => Some(
                BuilderView {
                    types,
                    constants: inserted(self.constants, ConstantShape { name, ty, value }),
                    ..self
                },
            ),
            None => None,
        }
    }

    /// The types to start the closure from: what commands, events and
    /// constants refer to, then the types registered with the builder. The
    /// constants are taken in the order of their names and the builder's
    /// types in the order of their identities.
    pub open spec fn roots(self) -> Seq<Seq<char>> {
        referenced(self.commands.items, self.events.items, canonical_constants(self.constants))
            + table_ids(canonical_types(self.types))
    }

    /// The table that an export resolves types in, or the collision that
    /// stops it: beside the builder's own types, in the order of their
    /// identities, stand the types that came with the commands and then
    /// those that came with the events.
    pub open spec fn export_table(self) -> Result<Seq<NamedShape>, Failure> {
        let own = canonical_types(self.types);
        match registered_all(own, self.commands.types) {
            None => Err(Failure::TypeCollision(first_collision(own, self.commands.types))),
            Some(with_commands) => match registered_all(with_commands, self.events.types) {
                None => Err(
                    Failure::TypeCollision(first_collision(with_commands, self.events.types)),
                ),
                Some(table) => Ok(table),
            },
        }
    }

    /// The types that an export declares, in the order of their
    /// declarations.
    pub open spec fn export_closure(self) -> Seq<Seq<char>> {
        closure_of(self.export_table()->Ok_0, self.roots())
    }

    /// What an export gives: the text of the file, or the failure.
    ///
    /// The closure of the roots is resolved in the export table; the module
    /// is rendered from it, with the constants in the order of their names,
    /// and stands behind the header and a line break. The order in which
    /// types and constants were registered with the builder plays no part.
    pub open spec fn exported(self, header: Seq<char>) -> Result<Seq<char>, Failure> {
        match self.export_table() {
            Err(failure) => Err(failure),
            Ok(table) => match render_outcome(
                self.plugin_name,
                self.commands.items,
                self.events.items,
                table,
                self.export_closure(),
                canonical_constants(self.constants),
            ) {
                Ok(text) => Ok(header + "\n"@ + text),
                Err(id) => Err(Failure::RenderInconsistency(id)),
            },
        }
    }
}

/// The model of the outcome of an export.
pub open spec fn outcome_view(r: Result<String, ExportError>) -> Result<Seq<char>, Failure> {
    match r {
        Ok(text) => Ok(text@),
        Err(e) => Err(e@),
    }
}

/// Every identity that a definition of the table refers to is defined in
/// the table.
pub open spec fn closed_under_references(table: Seq<NamedShape>) -> bool {
    forall|i: int, j: int|
        0 <= i < table.len() && 0 <= j < shape_refs(table[i].definition).len() ==> defined(
            table,
            #[trigger] shape_refs(table[i].definition)[j],
        )
}

/// An export succeeds where no registration collides, everything that a
/// command, an event or a constant refers to is registered, and everything
/// that a registered definition refers to is registered.
pub proof fn lemma_export_succeeds(b: BuilderView, header: Seq<char>)
    requires
        b.export_table() is Ok,
        closed_under_references(b.export_table()->Ok_0),
        forall|k: int|
            0 <= k < b.roots().len() ==> defined(b.export_table()->Ok_0, #[trigger] b.roots()[k]),
    ensures
        b.exported(header) is Ok,
{
    let table = b.export_table()->Ok_0;
    let roots = b.roots();
    let closure = closure_of(table, roots);
    let asked = referenced(b.commands.items, b.events.items, canonical_constants(b.constants));
    lemma_closure(table, roots);
    assert forall|i: int| 0 <= i < closure.len() implies table_ids(table).contains(
        #[trigger] closure[i],
    ) by {
        assert(defined(table, closure[i]));
    }
    lemma_first_outside(closure, table_ids(table));
    let piece = |id: Seq<char>| shape_refs(definition_of(table, id));
    let good = |id: Seq<char>| closure.contains(id);
    assert forall|i: int, j: int|
        0 <= i < closure.len() && 0 <= j < piece(closure[i]).len() implies good(
        #[trigger] piece(closure[i])[j],
    ) by {
        assert(defined(table, closure[i]));
        let at = table_ids(table).index_of(closure[i]);
        assert(0 <= at < table.len());
        assert(definition_of(table, closure[i]) == table[at].definition);
        let target = shape_refs(table[at].definition)[j];
        assert(defined(table, target));
        assert(covers(table, closure, shape_refs(definition_of(table, closure[i]))));
    }
    lemma_joined_all(closure, piece, good);
    let all = asked + closure_refs(table, closure);
    assert forall|k: int| 0 <= k < all.len() implies closure.contains(#[trigger] all[k]) by {
        if k < asked.len() {
            assert(roots[k] == asked[k]);
            assert(defined(table, roots[k]));
        } else {
            assert(all[k] == closure_refs(table, closure)[k - asked.len()]);
            assert(good(joined(closure, piece)[k - asked.len()]));
        }
    }
    lemma_first_outside(all, closure);
}

/// The text of a successful export declares each type of the closure once:
/// the closure holds no identity twice, each of its members is registered,
/// every registered root is among them, and the declarations are one per
/// member, in the closure's order, between the runtime support and the
/// commands.
pub proof fn lemma_each_type_declared_once(b: BuilderView, header: Seq<char>)
    requires
        b.exported(header) is Ok,
    ensures
        b.export_table() is Ok,
        b.export_closure().no_duplicates(),
        forall|i: int|
            0 <= i < b.export_closure().len() ==> defined(
                b.export_table()->Ok_0,
                #[trigger] b.export_closure()[i],
            ),
        covers(b.export_table()->Ok_0, b.export_closure(), b.roots()),
        b.exported(header)->Ok_0 == header + "\n"@ + preamble_text() + declarations_text(
            b.export_table()->Ok_0,
            b.export_closure(),
        ) + commands_text(b.plugin_name, b.commands.items) + events_text(b.events.items)
            + constants_text(canonical_constants(b.constants)),
{
    lemma_closure(b.export_table()->Ok_0, b.roots());
    let text = preamble_text() + declarations_text(b.export_table()->Ok_0, b.export_closure())
        + commands_text(b.plugin_name, b.commands.items) + events_text(b.events.items)
        + constants_text(canonical_constants(b.constants));
    assert(b.exported(header)->Ok_0 == header + "\n"@ + text);
    assert(header + "\n"@ + text =~= header + "\n"@ + preamble_text() + declarations_text(
        b.export_table()->Ok_0,
        b.export_closure(),
    ) + commands_text(b.plugin_name, b.commands.items) + events_text(b.events.items)
        + constants_text(canonical_constants(b.constants)));
}

/// The order in which types and constants were registered plays no part in
/// an export: two builders with the same plugin name, commands and events
/// that hold the same types and the same constants have the same outcome.
pub proof fn lemma_export_whatever_the_order(
    one: BuilderView,
    other: BuilderView,
    header: Seq<char>,
)
    requires
        one.well_formed(),
        other.well_formed(),
        one.plugin_name == other.plugin_name,
        one.commands == other.commands,
        one.events == other.events,
        forall|entry: NamedShape| one.types.contains(entry) <==> other.types.contains(entry),
        forall|c: ConstantShape| one.constants.contains(c) <==> other.constants.contains(c),
    ensures
        canonical_types(one.types) == canonical_types(other.types),
        canonical_constants(one.constants) == canonical_constants(other.constants),
        one.exported(header) == other.exported(header),
{
    let id = |entry: NamedShape| entry.id;
    let name = |c: ConstantShape| c.name;
    assert(distinct_names(one.types, id) && distinct_names(other.types, id));
    assert(distinct_names(one.constants, name)) by {
        assert forall|i: int, j: int|
            0 <= i < one.constants.len() && 0 <= j < one.constants.len() && i != j implies name(
            #[trigger] one.constants[i],
        ) != name(#[trigger] one.constants[j]) by {
            assert(constant_names(one.constants)[i] != constant_names(one.constants)[j]);
        }
    }
    assert(distinct_names(other.constants, name)) by {
        assert forall|i: int, j: int|
            0 <= i < other.constants.len() && 0 <= j < other.constants.len() && i != j implies name(
            #[trigger] other.constants[i],
        ) != name(#[trigger] other.constants[j]) by {
            assert(constant_names(other.constants)[i] != constant_names(other.constants)[j]);
        }
    }
    lemma_sorted_whatever_the_order(one.types, other.types, id);
    lemma_sorted_whatever_the_order(one.constants, other.constants, name);
}

/// Two new types registered in either order, and two new constants
/// registered in either order, give builders with the same export.
pub proof fn lemma_registration_order(
    b: BuilderView,
    first: NamedShape,
    second: NamedShape,
    one: ConstantShape,
    other: ConstantShape,
    header: Seq<char>,
)
    requires
        b.well_formed(),
        first.id != second.id,
        !defined(b.types, first.id),
        !defined(b.types, second.id),
        one.name != other.name,
        !constant_names(b.constants).contains(one.name),
        !constant_names(b.constants).contains(other.name),
    ensures
        b.with_type(first, Seq::empty()) is Some,
        b.with_type(second, Seq::empty()) is Some,
        b.with_type(first, Seq::empty())->Some_0.with_type(second, Seq::empty()) is Some,
        b.with_type(second, Seq::empty())->Some_0.with_type(first, Seq::empty()) is Some,
        b.with_type(first, Seq::empty())->Some_0.with_type(second, Seq::empty())->Some_0.exported(
            header,
        ) == b.with_type(second, Seq::empty())->Some_0.with_type(
            first,
            Seq::empty(),
        )->Some_0.exported(header),
        (BuilderView {
            constants: inserted(inserted(b.constants, one), other),
            ..b
        }).exported(header) == (BuilderView {
            constants: inserted(inserted(b.constants, other), one),
            ..b
        }).exported(header),
{
    let none = Seq::<NamedShape>::empty();
    reveal_with_fuel(registered_all, 2);
    assert(none.push(first).drop_last() =~= none);
    assert(none.push(second).drop_last() =~= none);
    let t = b.types;
    let tf = t.push(first);
    let ts = t.push(second);
    assert(!defined(tf, second.id)) by {
        if defined(tf, second.id) {
            let k = choose|k: int| 0 <= k < table_ids(tf).len() && table_ids(tf)[k] == second.id;
            if k < t.len() {
                assert(table_ids(t)[k] == second.id);
            }
        }
    }
    assert(!defined(ts, first.id)) by {
        if defined(ts, first.id) {
            let k = choose|k: int| 0 <= k < table_ids(ts).len() && table_ids(ts)[k] == first.id;
            if k < t.len() {
                assert(table_ids(t)[k] == first.id);
            }
        }
    }
    let x = b.with_type(first, none)->Some_0.with_type(second, none)->Some_0;
    let y = b.with_type(second, none)->Some_0.with_type(first, none)->Some_0;
    assert(x.types == tf.push(second));
    assert(y.types == ts.push(first));
    crate::type_table::lemma_registered(t, first);
    crate::type_table::lemma_registered(tf, second);
    crate::type_table::lemma_registered(t, second);
    crate::type_table::lemma_registered(ts, first);
    assert forall|entry: NamedShape| x.types.contains(entry) <==> y.types.contains(entry) by {
        if x.types.contains(entry) {
            let k = choose|k: int| 0 <= k < x.types.len() && x.types[k] == entry;
            if k < t.len() {
                assert(y.types[k] == entry);
            } else if k == t.len() {
                assert(y.types[t.len() as int + 1] == entry);
            } else {
                assert(y.types[t.len() as int] == entry);
            }
        }
        if y.types.contains(entry) {
            let k = choose|k: int| 0 <= k < y.types.len() && y.types[k] == entry;
            if k < t.len() {
                assert(x.types[k] == entry);
            } else if k == t.len() {
                assert(x.types[t.len() as int + 1] == entry);
            } else {
                assert(x.types[t.len() as int] == entry);
            }
        }
    }
    lemma_export_whatever_the_order(x, y, header);

    let c = b.constants;
    let co = c.push(one);
    let cs = c.push(other);
    assert(!constant_names(co).contains(other.name)) by {
        if constant_names(co).contains(other.name) {
            let k = choose|k: int|
                0 <= k < constant_names(co).len() && constant_names(co)[k] == other.name;
            if k < c.len() {
                assert(constant_names(c)[k] == other.name);
            }
        }
    }
    assert(!constant_names(cs).contains(one.name)) by {
        if constant_names(cs).contains(one.name) {
            let k = choose|k: int|
                0 <= k < constant_names(cs).len() && constant_names(cs)[k] == one.name;
            if k < c.len() {
                assert(constant_names(c)[k] == one.name);
            }
        }
    }
    let p = BuilderView { constants: inserted(inserted(c, one), other), ..b };
    let q = BuilderView { constants: inserted(inserted(c, other), one), ..b };
    assert(p.constants == co.push(other));
    assert(q.constants == cs.push(one));
    assert forall|i: int, j: int|
        0 <= i < p.constants.len() && 0 <= j < p.constants.len() && i != j implies constant_names(
        p.constants,
    )[i] != constant_names(p.constants)[j] by {
        if i < c.len() && j < c.len() {
            assert(constant_names(c)[i] != constant_names(c)[j]);
        } else if i < c.len() {
            assert(constant_names(c)[i] == p.constants[i].name);
        } else if j < c.len() {
            assert(constant_names(c)[j] == p.constants[j].name);
        }
    }
    assert forall|i: int, j: int|
        0 <= i < q.constants.len() && 0 <= j < q.constants.len() && i != j implies constant_names(
        q.constants,
    )[i] != constant_names(q.constants)[j] by {
        if i < c.len() && j < c.len() {
            assert(constant_names(c)[i] != constant_names(c)[j]);
        } else if i < c.len() {
            assert(constant_names(c)[i] == q.constants[i].name);
        } else if j < c.len() {
            assert(constant_names(c)[j] == q.constants[j].name);
        }
    }
    assert forall|entry: ConstantShape|
        p.constants.contains(entry) <==> q.constants.contains(entry) by {
        if p.constants.contains(entry) {
            let k = choose|k: int| 0 <= k < p.constants.len() && p.constants[k] == entry;
            if k < c.len() {
                assert(q.constants[k] == entry);
            } else if k == c.len() {
                assert(q.constants[c.len() as int + 1] == entry);
            } else {
                assert(q.constants[c.len() as int] == entry);
            }
        }
        if q.constants.contains(entry) {
            let k = choose|k: int| 0 <= k < q.constants.len() && q.constants[k] == entry;
            if k < c.len() {
                assert(p.constants[k] == entry);
            } else if k == c.len() {
                assert(p.constants[c.len() as int + 1] == entry);
            } else {
                assert(p.constants[c.len() as int] == entry);
            }
        }
    }
    assert forall|entry: NamedShape| p.types.contains(entry) <==> q.types.contains(entry) by {}
    lemma_export_whatever_the_order(p, q, header);
}

/// Setting the commands, the events or the plugin name a second time leaves
/// nothing of the first setting.
pub proof fn lemma_last_wins(
    b: BuilderView,
    first_commands: CommandsView,
    second_commands: CommandsView,
    first_events: EventsView,
    second_events: EventsView,
    first_name: Seq<char>,
    second_name: Seq<char>,
)
    ensures
        b.with_commands(first_commands).with_commands(second_commands) == b.with_commands(
            second_commands,
        ),
        b.with_events(first_events).with_events(second_events) == b.with_events(second_events),
        b.with_plugin_namespace(first_name).with_plugin_namespace(second_name)
            == b.with_plugin_namespace(second_name),
        forall|header: Seq<char>|
            b.with_commands(first_commands).with_commands(second_commands).exported(header)
                == b.with_commands(second_commands).exported(header),
{
}

/// Two exports of the same state under the same header have the same
/// outcome, character for character.
pub proof fn lemma_export_deterministic(
    first: Result<String, ExportError>,
    second: Result<String, ExportError>,
    b: BuilderView,
    header: Seq<char>,
)
    requires
        outcome_view(first) == b.exported(header),
        outcome_view(second) == b.exported(header),
    ensures
        outcome_view(first) == outcome_view(second),
        first matches Ok(one) ==> second matches Ok(other) && one@ == other@,
{
}

impl View for Builder {
    type V = BuilderView;

    closed spec fn view(&self) -> BuilderView {
        BuilderView {
            plugin_name: text_of(self.plugin_name),
            commands: self.commands@,
            events: self.events@,
            types: self.types@,
            constants: self.constants@,
        }
    }
}

/// The model of a builder that nothing was registered with.
pub open spec fn empty_builder() -> BuilderView {
    BuilderView {
        plugin_name: None,
        commands: CommandsView { items: Seq::empty(), types: Seq::empty() },
        events: EventsView { items: Seq::empty(), types: Seq::empty() },
        types: Seq::empty(),
        constants: Seq::empty(),
    }
}

impl Default for Builder {
    fn default() -> (b: Builder)
        ensures
            b@ == empty_builder(),
            b@.well_formed(),
    {
        Builder::new()
    }
}

impl Builder {
    /// An empty builder: no plugin name, no commands, no events, no types,
    /// no constants.
    pub fn new() -> (b: Builder)
        ensures
            b@ == empty_builder(),
            b@.well_formed(),
    {
        let b = Builder {
            plugin_name: None,
            commands: Commands::new(),
            events: Events::new(),
            types: TypeTable::new(),
            constants: ConstantTable::new(),
        };
        b.invariants();
        b
    }

    /// What holds of every builder: no identity is registered twice, and no
    /// name is used twice among the commands, the events or the constants.
    pub fn invariants(&self)
        ensures
            self@.well_formed(),
    {
        let _ = self.types.len();
        let _ = self.commands.items();
        let _ = self.events.items();
        let _ = self.constants.entries();
    }

    /// Sets the name of the plugin, under which the commands are qualified.
    pub fn plugin_name(self, plugin_name: &'static str) -> (b: Builder)
        ensures
            b@ == self@.with_plugin_namespace(plugin_name@),
            b@.well_formed(),
    {
        let b = Builder { plugin_name: Some(plugin_name), ..self };
        b.invariants();
        b
    }

    /// Sets the commands. Commands that were set before are gone.
    pub fn commands(self, commands: Commands) -> (b: Builder)
        ensures
            b@ == self@.with_commands(commands@),
            b@.well_formed(),
    {
        let b = Builder { commands, ..self };
        b.invariants();
        b
    }

    /// Sets the events. Events that were set before are gone.
    pub fn events(self, events: Events) -> (b: Builder)
        ensures
            b@ == self@.with_events(events@),
            b@.well_formed(),
    {
        let b = Builder { events, ..self };
        b.invariants();
        b
    }

    /// Registers a type that is to be exported whether or not a command or
    /// an event refers to it, behind the named types that it refers to.
    ///
    /// Afterwards each of these types is registered once, with the
    /// definition that was handed in, what was registered before is
    /// registered as before, and nothing else has come. A type that refers
    /// to itself, or to one that refers back to it, is registered like any
    /// other. Where one of the types was registered before with another
    /// definition, the failure names the first such type.
    pub fn ty(self, ty: NamedType, discovered: Vec<NamedType>) -> (r: Result<Builder, ExportError>)
        ensures
            match self@.with_type(ty@, named_shapes(discovered@)) {
                Some(view) => {
                    &&& r matches Ok(b) && b@ == view && b@.well_formed()
                    &&& defined(view.types, ty@.id) && definition_of(view.types, ty@.id)
                        == ty@.definition
                    &&& forall|i: int|
                        0 <= i < discovered.len() ==> defined(
                            view.types,
                            (#[trigger] named_shapes(discovered@)[i]).id,
                        ) && definition_of(view.types, named_shapes(discovered@)[i].id)
                            == named_shapes(discovered@)[i].definition
                    &&& forall|id: Seq<char>|
                        defined(self@.types, id) ==> defined(view.types, id) && definition_of(
                            view.types,
                            id,
                        ) == definition_of(self@.types, id)
                    &&& forall|k: int|
                        0 <= k < view.types.len() ==> self@.types.contains(
                            #[trigger] view.types[k],
                        ) || view.types[k] == ty@ || named_shapes(discovered@).contains(
                            view.types[k],
                        )
                },
                None => r matches Err(ExportError::TypeCollision(name)) && name@
                    == first_collision(self@.types, named_shapes(discovered@).push(ty@)),
            },
    {
        self.invariants();
        let mut b = self;
        let mut all = discovered;
        let ghost found = named_shapes(all@);
        all.push(ty);
        let ghost asked = named_shapes(all@);
        assert(asked =~= found.push(ty@));
        match b.types.register_all(&all) {
            Ok(()) => {
                proof {
                    lemma_registered_all(self@.types, asked);
                    let after = registered_all(self@.types, asked)->Some_0;
                    assert(asked[found.len() as int] == ty@);
                    assert forall|i: int| 0 <= i < found.len() implies defined(
                        after,
                        (#[trigger] found[i]).id,
                    ) && definition_of(after, found[i].id) == found[i].definition by {
                        assert(asked[i] == found[i]);
                    }
                    assert forall|k: int| 0 <= k < after.len() implies self@.types.contains(
                        #[trigger] after[k],
                    ) || after[k] == ty@ || found.contains(after[k]) by {
                        if asked.contains(after[k]) {
                            let m = choose|m: int| 0 <= m < asked.len() && asked[m] == after[k];
                            if m < found.len() {
                                assert(found[m] == after[k]);
                            }
                        }
                    }
                }
                b.invariants();
                Ok(b)
            },
            Err(e) => Err(e),
        }
    }

    /// Registers a constant from the outcome of serializing its value,
    /// together with the named types that its type refers to.
    ///
    /// A value that could not be serialized, or that has no text, is reported
    /// under the constant's name. A type among `discovered` that was
    /// registered before with another definition is reported under its own.
    /// A later constant of a name replaces the earlier one.
    pub fn constant(
        self,
        k: String,
        ty: TypeDefinition,
        discovered: Vec<NamedType>,
        v: Result<serde_json::Value, serde_json::Error>,
    ) -> (r: Result<Builder, ExportError>)
        ensures
            match v {
                Ok(value) if json_encoding(value) is Some => match self@.with_constant(
                    k@,
                    ty@,
                    named_shapes(discovered@),
                    json_encoding(value)->Some_0,
                ) {
                    Some(view) => {
                        &&& r matches Ok(b) && b@ == view && b@.well_formed()
                        &&& forall|i: int|
                            0 <= i < discovered.len() ==> defined(
                                view.types,
                                (#[trigger] named_shapes(discovered@)[i]).id,
                            ) && definition_of(view.types, named_shapes(discovered@)[i].id)
                                == named_shapes(discovered@)[i].definition
                    },
                    None => r matches Err(ExportError::TypeCollision(name)) && name@
                        == first_collision(self@.types, named_shapes(discovered@)),
                },
                _ => r matches Err(ExportError::ValueEncoding(name)) && name@ == k@,
            },
    {
        self.invariants();
        let mut b = self;
        let mut constants = ConstantTable::new();
        std::mem::swap(&mut constants, &mut b.constants);
        match constants.insert_value(k, ty, v) {
            Ok(()) => {},
            Err(e) => {
                return Err(e);
            },
        }
        match b.types.register_all(&discovered) {
            Ok(()) => {},
            Err(e) => {
                return Err(e);
            },
        }
        proof {
            lemma_registered_all(self@.types, named_shapes(discovered@));
        }
        b.constants = constants;
        b.invariants();
        Ok(b)
    }

    /// The dispatcher for the commands, under the plugin name where one is
    /// set. It stays valid whatever becomes of the builder.
    pub fn invoke_handler(&self) -> (dispatcher: Dispatcher)
        ensures
            dispatcher@ == routes_of(self@.commands.items, self@.plugin_name),
            self@.well_formed(),
    {
        self.invariants();
        self.commands.dispatcher(self.plugin_name)
    }

    /// The names of the events to install into a running host, in order.
    pub fn mount_events(&self) -> (names: Vec<String>)
        ensures
            texts(names@) == event_names(self@.events.items),
            self@.well_formed(),
    {
        self.invariants();
        self.events.names()
    }

    /// Generates the text of the client module for TypeScript, behind the
    /// header of `language`. The builder is only read, and the text depends
    /// on what the builder holds alone: a second call, or a call on a builder
    /// that got the same types and constants in another order, gives the
    /// same text.
    pub fn export_ts(&self, language: Typescript) -> (r: Result<String, ExportError>)
        ensures
            outcome_view(r) == self@.exported(language.header@),
            self@.well_formed(),
    {
        self.invariants();
        let mut table = self.types.canonical();
        let mut roots_of_own = table.ids();
        match table.register_all(self.commands.types()) {
            Ok(()) => {},
            Err(e) => {
                return Err(e);
            },
        }
        match table.register_all(self.events.types()) {
            Ok(()) => {},
            Err(e) => {
                return Err(e);
            },
        }
        let constants = self.constants.canonical();
        let mut roots = collect_referenced(self.commands.items(), self.events.items(), &constants);
        let ghost before = id_names(roots@);
        roots.append(&mut roots_of_own);
        assert(id_names(roots@) =~= before + table_ids(canonical_types(self@.types)));
        let closure = table.resolve_closure(&roots);
        match render(
            self.plugin_name,
            self.commands.items(),
            self.events.items(),
            &table,
            &closure,
            &constants,
        ) {
            Ok(text) => {
                let mut out = language.header;
                out.append("\n");
                out.append(text.as_str());
                Ok(out)
            },
            Err(e) => Err(e),
        }
    }
}

} // verus!
