//! The set of callable commands and the dispatcher that routes a call to its
//! handler by wire name.

use crate::definition::{field_shapes, Field, FieldShape, Shape, TypeDefinition};
use crate::error::ExportError;
use crate::type_table::{named_shapes, NamedShape, NamedType};
use vstd::prelude::*;
use vstd::string::StringExecFns;

verus! {

/// A callable operation: its name, its parameters in order, what it returns,
/// what it fails with, and the index under which the host keeps its handler.
#[derive(Debug)]
pub struct CommandDescriptor {
    pub name: String,
    pub params: Vec<Field>,
    pub result: TypeDefinition,
    pub error: Option<TypeDefinition>,
    pub handler: usize,
}

/// The mathematical model of a [`CommandDescriptor`].
pub struct CommandShape {
    pub name: Seq<char>,
    pub params: Seq<FieldShape>,
    pub result: Shape,
    pub error: Option<Shape>,
    pub handler: usize,
}

impl View for CommandDescriptor {
    type V = CommandShape;

    open spec fn view(&self) -> CommandShape {
        CommandShape {
            name: self.name@,
            params: field_shapes(self.params@),
            result: self.result@,
            error: match self.error {
                Some(e) => Some(e@),
                None => None,
            },
            handler: self.handler,
        }
    }
}

/// The models of a sequence of descriptors, in order.
pub open spec fn command_shapes(items: Seq<CommandDescriptor>) -> Seq<CommandShape> {
    items.map_values(|c: CommandDescriptor| c@)
}

/// The names of a sequence of commands, in order.
pub open spec fn command_names(items: Seq<CommandShape>) -> Seq<Seq<char>> {
    items.map_values(|c: CommandShape| c.name)
}

/// The name under which a command travels: behind the prefix and a colon
/// where a prefix is set, bare where none is.
pub open spec fn wire_name(prefix: Option<Seq<char>>, name: Seq<char>) -> Seq<char> {
    match prefix {
        Some(p) => p + ":"@ + name,
        None => name,
    }
}

/// The model of an optional piece of text.
pub open spec fn text_of(text: Option<&str>) -> Option<Seq<char>> {
    match text {
        Some(t) => Some(t@),
        None => None,
    }
}

/// Computes the wire name of a command.
pub fn qualify(prefix: Option<&str>, name: &str) -> (wire: String)
    ensures
        wire@ == wire_name(text_of(prefix), name@),
{
    match prefix {
        Some(p) => String::from_str(p).concat(":").concat(name),
        None => String::from_str(name),
    }
}

/// One line of a dispatcher: a wire name and the handler behind it.
#[derive(Debug)]
pub struct Route {
    pub name: String,
    pub handler: usize,
}

/// The mathematical model of a [`Route`].
pub struct RouteShape {
    pub name: Seq<char>,
    pub handler: usize,
}

impl View for Route {
    type V = RouteShape;

    open spec fn view(&self) -> RouteShape {
        RouteShape { name: self.name@, handler: self.handler }
    }
}

/// The routes of a set of commands under a prefix, in the commands' order.
pub open spec fn routes_of(items: Seq<CommandShape>, prefix: Option<Seq<char>>) -> Seq<RouteShape> {
    items.map_values(
        |c: CommandShape| RouteShape { name: wire_name(prefix, c.name), handler: c.handler },
    )
}

/// The handler of the first route whose wire name is `name`.
pub open spec fn resolve(routes: Seq<RouteShape>, name: Seq<char>) -> Option<usize>
    decreases routes.len(),
{
    if routes.len() == 0 {
        None
    } else if routes[0].name == name {
        Some(routes[0].handler)
    } else {
        resolve(routes.drop_first(), name)
    }
}

/// A name that no route carries resolves to nothing.
pub proof fn lemma_resolve_unknown(routes: Seq<RouteShape>, name: Seq<char>)
    requires
        forall|i: int| 0 <= i < routes.len() ==> (#[trigger] routes[i]).name != name,
    ensures
        resolve(routes, name) is None,
    decreases routes.len(),
{
    if routes.len() > 0 {
        let rest = routes.drop_first();
        assert forall|i: int| 0 <= i < rest.len() implies (#[trigger] rest[i]).name != name by {
            assert(rest[i] == routes[i + 1]);
        }
        lemma_resolve_unknown(rest, name);
    }
}

/// Where no two routes carry the same name, the name of a route resolves to
/// that route's handler.
pub proof fn lemma_resolve_known(routes: Seq<RouteShape>, i: int)
    requires
        0 <= i < routes.len(),
        forall|a: int, b: int|
            0 <= a < routes.len() && 0 <= b < routes.len() && a != b ==> (#[trigger] routes[a]).name
                != (#[trigger] routes[b]).name,
    ensures
        resolve(routes, routes[i].name) == Some(routes[i].handler),
    decreases routes.len(),
{
    if i > 0 {
        let rest = routes.drop_first();
        assert(routes[0].name != routes[i].name);
        assert forall|a: int, b: int|
            0 <= a < rest.len() && 0 <= b < rest.len() && a != b implies (#[trigger] rest[a]).name != (
        #[trigger] rest[b]).name by {
            assert(rest[a] == routes[a + 1]);
            assert(rest[b] == routes[b + 1]);
        }
        assert(rest[i - 1] == routes[i]);
        lemma_resolve_known(rest, i - 1);
    }
}

/// The wire names of a set of commands.
pub open spec fn route_names(routes: Seq<RouteShape>) -> Seq<Seq<char>> {
    routes.map_values(|r: RouteShape| r.name)
}

/// Commands with different names have different wire names, with a prefix
/// and without.
pub proof fn lemma_qualified_names_distinct(items: Seq<CommandShape>, prefix: Option<Seq<char>>)
    requires
        command_names(items).no_duplicates(),
    ensures
        route_names(routes_of(items, prefix)).no_duplicates(),
{
    let routes = routes_of(items, prefix);
    assert forall|a: int, b: int|
        0 <= a < routes.len() && 0 <= b < routes.len() && a != b implies route_names(routes)[a]
        != route_names(routes)[b] by {
        assert(command_names(items)[a] != command_names(items)[b]);
        match prefix {
            Some(p) => {
                let head = p + ":"@;
                if routes[a].name == routes[b].name {
                    assert(items[a].name =~= routes[a].name.skip(head.len() as int));
                    assert(items[b].name =~= routes[b].name.skip(head.len() as int));
                }
            },
            None => {},
        }
    }
}

/// Under a prefix, a registered command is reached by its qualified name and
/// by no name that does not begin with the prefix and a colon: the bare name
/// of a command is refused unless it begins so itself.
pub proof fn lemma_namespaced_dispatch(items: Seq<CommandShape>, prefix: Seq<char>, i: int)
    requires
        0 <= i < items.len(),
        command_names(items).no_duplicates(),
    ensures
        resolve(routes_of(items, Some(prefix)), prefix + ":"@ + items[i].name) == Some(
            items[i].handler,
        ),
        forall|name: Seq<char>|
            !(prefix + ":"@).is_prefix_of(name) ==> resolve(routes_of(items, Some(prefix)), name)
                is None,
{
    let routes = routes_of(items, Some(prefix));
    let head = prefix + ":"@;
    lemma_qualified_names_distinct(items, Some(prefix));
    assert forall|a: int, b: int|
        0 <= a < routes.len() && 0 <= b < routes.len() && a != b implies (#[trigger] routes[a]).name
        != (#[trigger] routes[b]).name by {
        assert(route_names(routes)[a] != route_names(routes)[b]);
    }
    lemma_resolve_known(routes, i);
    assert forall|name: Seq<char>| !head.is_prefix_of(name) implies resolve(routes, name) is None by {
        assert forall|k: int| 0 <= k < routes.len() implies (#[trigger] routes[k]).name != name by {
            assert(routes[k].name.subrange(0, head.len() as int) =~= head);
        }
        lemma_resolve_unknown(routes, name);
    }
}

/// Without a prefix, a registered command is reached by its bare name, and a
/// name that no command has is refused.
pub proof fn lemma_plain_dispatch(items: Seq<CommandShape>, i: int)
    requires
        0 <= i < items.len(),
        command_names(items).no_duplicates(),
    ensures
        resolve(routes_of(items, None), items[i].name) == Some(items[i].handler),
        forall|name: Seq<char>|
            !command_names(items).contains(name) ==> resolve(routes_of(items, None), name) is None,
{
    let routes = routes_of(items, None);
    lemma_qualified_names_distinct(items, None);
    assert forall|a: int, b: int|
        0 <= a < routes.len() && 0 <= b < routes.len() && a != b implies (#[trigger] routes[a]).name
        != (#[trigger] routes[b]).name by {
        assert(route_names(routes)[a] != route_names(routes)[b]);
    }
    lemma_resolve_known(routes, i);
    assert forall|name: Seq<char>| !command_names(items).contains(name) implies resolve(
        routes,
        name,
    ) is None by {
        assert forall|k: int| 0 <= k < routes.len() implies (#[trigger] routes[k]).name != name by {
            assert(command_names(items)[k] == routes[k].name);
        }
        lemma_resolve_unknown(routes, name);
    }
}

/// The wire name that the client module sends for a command reaches that
/// command's handler, with a prefix and without: the renderer and the
/// dispatcher qualify names in the same way.
pub proof fn lemma_wire_name_is_dispatched(
    items: Seq<CommandShape>,
    prefix: Option<Seq<char>>,
    i: int,
)
    requires
        0 <= i < items.len(),
        command_names(items).no_duplicates(),
    ensures
        resolve(routes_of(items, prefix), wire_name(prefix, items[i].name)) == Some(
            items[i].handler,
        ),
{
    match prefix {
        Some(p) => lemma_namespaced_dispatch(items, p, i),
        None => lemma_plain_dispatch(items, i),
    }
}

/// A read-only table from wire names to handlers.
///
/// It holds no reference to the set of commands that it was made from, and a
/// lookup leaves it as it was: it can answer any number of calls, whatever
/// their outcome.
#[derive(Debug)]
pub struct Dispatcher {
    routes: Vec<Route>,
}

impl View for Dispatcher {
    type V = Seq<RouteShape>;

    closed spec fn view(&self) -> Seq<RouteShape> {
        self.routes@.map_values(|r: Route| r@)
    }
}

impl Dispatcher {
    /// The number of routes.
    pub fn len(&self) -> (n: usize)
        ensures
            n == self@.len(),
    {
        self.routes.len()
    }

    /// The handler registered under the wire name `name`, or the failure that
    /// says that there is none.
    pub fn dispatch(&self, name: &str) -> (r: Result<usize, ExportError>)
        ensures
            match resolve(self@, name@) {
                Some(handler) => r == Ok::<usize, ExportError>(handler),
                None => r matches Err(ExportError::UnknownCommand(n)) && n@ == name@,
            },
    {
        let wanted = String::from_str(name);
        let mut i: usize = 0;
        assert(self@.skip(0) =~= self@);
        while i < self.routes.len()
            invariant
                i <= self.routes.len(),
                wanted@ == name@,
                self@ == self.routes@.map_values(|r: Route| r@),
                resolve(self@, name@) == resolve(self@.skip(i as int), name@),
            decreases self.routes.len() - i,
        {
            assert(self@.skip(i as int).drop_first() =~= self@.skip(i + 1));
            assert(self@.skip(i as int)[0] == self.routes@[i as int]@);
            if self.routes[i].name == wanted {
                return Ok(self.routes[i].handler);
            }
            i += 1;
        }
        Err(ExportError::UnknownCommand(wanted))
    }
}

/// An ordered set of commands, with the named types that their signatures
/// refer to.
///
/// No two commands have the same name.
pub struct Commands {
    items: Vec<CommandDescriptor>,
    types: Vec<NamedType>,
}

/// The mathematical model of [`Commands`].
pub struct CommandsView {
    pub items: Seq<CommandShape>,
    pub types: Seq<NamedShape>,
}

impl View for Commands {
    type V = CommandsView;

    closed spec fn view(&self) -> CommandsView {
        CommandsView { items: command_shapes(self.items@), types: named_shapes(self.types@) }
    }
}

impl Commands {
    #[verifier::type_invariant]
    closed spec fn well_formed(self) -> bool {
        command_names(self@.items).no_duplicates()
    }

    /// The empty set.
    pub fn new() -> (commands: Commands)
        ensures
            commands@.items == Seq::<CommandShape>::empty(),
            commands@.types == Seq::<NamedShape>::empty(),
    {
        let commands = Commands { items: Vec::new(), types: Vec::new() };
        assert(commands@.items =~= Seq::<CommandShape>::empty());
        assert(commands@.types =~= Seq::<NamedShape>::empty());
        commands
    }

    /// The commands, in the order in which they were added.
    pub fn items(&self) -> (items: &Vec<CommandDescriptor>)
        ensures
            command_shapes(items@) == self@.items,
            command_names(self@.items).no_duplicates(),
    {
        proof {
            use_type_invariant(self);
        }
        &self.items
    }

    /// The named types that came with the commands, in the order in which
    /// they were added.
    pub fn types(&self) -> (types: &Vec<NamedType>)
        ensures
            named_shapes(types@) == self@.types,
    {
        &self.types
    }

    /// Adds a command behind the others. A command whose name is already in
    /// the set is refused, and the set stays as it is.
    pub fn add(&mut self, descriptor: CommandDescriptor) -> (r: Result<(), ExportError>)
        ensures
            final(self)@.types == old(self)@.types,
            command_names(final(self)@.items).no_duplicates(),
            if command_names(old(self)@.items).contains(descriptor.name@) {
                &&& final(self)@.items == old(self)@.items
                &&& r matches Err(ExportError::DuplicateName(n)) && n@ == descriptor.name@
            } else {
                &&& final(self)@.items == old(self)@.items.push(descriptor@)
                &&& r is Ok
            },
    {
        proof {
            use_type_invariant(&*self);
        }
        let ghost before = old(self)@.items;
        let mut i: usize = 0;
        while i < self.items.len()
            invariant
                i <= self.items.len(),
                *self == *old(self),
                before == command_shapes(self.items@),
                command_names(before).no_duplicates(),
                forall|j: int| 0 <= j < i ==> before[j].name != descriptor.name@,
            decreases self.items.len() - i,
        {
            if self.items[i].name == descriptor.name {
                assert(command_names(before)[i as int] == descriptor.name@);
                return Err(ExportError::DuplicateName(descriptor.name));
            }
            i += 1;
        }
        assert(!command_names(before).contains(descriptor.name@)) by {
            if command_names(before).contains(descriptor.name@) {
                let k = choose|k: int|
                    0 <= k < command_names(before).len() && command_names(before)[k]
                        == descriptor.name@;
                assert(before[k].name == descriptor.name@);
            }
        }
        let mut items: Vec<CommandDescriptor> = Vec::new();
        std::mem::swap(&mut items, &mut self.items);
        items.push(descriptor);
        proof {
            let after = command_shapes(items@);
            assert(after =~= before.push(descriptor@));
            assert forall|a: int, b: int|
                0 <= a < after.len() && 0 <= b < after.len() && a != b implies command_names(
                after,
            )[a] != command_names(after)[b] by {
                if a < before.len() && b < before.len() {
                    assert(command_names(before)[a] != command_names(before)[b]);
                }
            }
        }
        self.items = items;
        Ok(())
    }

    /// Adds a named type that a command's signature refers to.
    pub fn ty(&mut self, ty: NamedType)
        ensures
            final(self)@.items == old(self)@.items,
            final(self)@.types == old(self)@.types.push(ty@),
    {
        proof {
            use_type_invariant(&*self);
        }
        let mut types: Vec<NamedType> = Vec::new();
        std::mem::swap(&mut types, &mut self.types);
        types.push(ty);
        assert(named_shapes(types@) =~= old(self)@.types.push(ty@));
        self.types = types;
    }

    /// The dispatcher for these commands under `prefix`.
    pub fn dispatcher(&self, prefix: Option<&str>) -> (dispatcher: Dispatcher)
        ensures
            dispatcher@ == routes_of(self@.items, text_of(prefix)),
    {
        let mut routes: Vec<Route> = Vec::new();
        let mut i: usize = 0;
        while i < self.items.len()
            invariant
                i <= self.items.len(),
                routes.len() == i,
                forall|j: int|
                    0 <= j < i ==> routes@[j]@ == (RouteShape {
                        name: wire_name(text_of(prefix), self.items@[j].name@),
                        handler: self.items@[j].handler,
                    }),
            decreases self.items.len() - i,
        {
            let name = qualify(prefix, self.items[i].name.as_str());
            routes.push(Route { name, handler: self.items[i].handler });
            i += 1;
        }
        let dispatcher = Dispatcher { routes };
        assert(dispatcher@ =~= routes_of(self@.items, text_of(prefix)));
        dispatcher
    }
}

} // verus!
