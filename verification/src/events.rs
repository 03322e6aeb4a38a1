//! The set of declared events. Declaring an event needs no running host; the
//! names to install into a host are handed out on request.

use crate::definition::{Shape, TypeDefinition};
use crate::error::ExportError;
use crate::type_table::{named_shapes, NamedShape, NamedType};
use vstd::prelude::*;

verus! {

/// A notification channel: its name and the type of what it carries.
#[derive(Debug)]
pub struct EventDescriptor {
    pub name: String,
    pub payload: TypeDefinition,
}

/// The mathematical model of an [`EventDescriptor`].
pub struct EventShape {
    pub name: Seq<char>,
    pub payload: Shape,
}

impl View for EventDescriptor {
    type V = EventShape;

    open spec fn view(&self) -> EventShape {
        EventShape { name: self.name@, payload: self.payload@ }
    }
}

/// The models of a sequence of descriptors, in order.
pub open spec fn event_shapes(items: Seq<EventDescriptor>) -> Seq<EventShape> {
    items.map_values(|e: EventDescriptor| e@)
}

/// The names of a sequence of events, in order.
pub open spec fn event_names(items: Seq<EventShape>) -> Seq<Seq<char>> {
    items.map_values(|e: EventShape| e.name)
}

/// The views of a sequence of strings, in order.
pub open spec fn texts(items: Seq<String>) -> Seq<Seq<char>> {
    items.map_values(|s: String| s@)
}

/// An ordered set of events, with the named types that their payloads refer
/// to.
///
/// No two events have the same name.
pub struct Events {
    items: Vec<EventDescriptor>,
    types: Vec<NamedType>,
}

/// The mathematical model of [`Events`].
pub struct EventsView {
    pub items: Seq<EventShape>,
    pub types: Seq<NamedShape>,
}

impl View for Events {
    type V = EventsView;

    closed spec fn view(&self) -> EventsView {
        EventsView { items: event_shapes(self.items@), types: named_shapes(self.types@) }
    }
}

impl Events {
    #[verifier::type_invariant]
    closed spec fn well_formed(self) -> bool {
        event_names(self@.items).no_duplicates()
    }

    /// The empty set.
    pub fn new() -> (events: Events)
        ensures
            events@.items == Seq::<EventShape>::empty(),
            events@.types == Seq::<NamedShape>::empty(),
    {
        let events = Events { items: Vec::new(), types: Vec::new() };
        assert(events@.items =~= Seq::<EventShape>::empty());
        assert(events@.types =~= Seq::<NamedShape>::empty());
        events
    }

    /// The events, in the order in which they were added.
    pub fn items(&self) -> (items: &Vec<EventDescriptor>)
        ensures
            event_shapes(items@) == self@.items,
            event_names(self@.items).no_duplicates(),
    {
        proof {
            use_type_invariant(self);
        }
        &self.items
    }

    /// The named types that came with the events, in the order in which they
    /// were added.
    pub fn types(&self) -> (types: &Vec<NamedType>)
        ensures
            named_shapes(types@) == self@.types,
    {
        &self.types
    }

    /// Adds an event behind the others. An event whose name is already in the
    /// set is refused, and the set stays as it is.
    pub fn add(&mut self, descriptor: EventDescriptor) -> (r: Result<(), ExportError>)
        ensures
            final(self)@.types == old(self)@.types,
            event_names(final(self)@.items).no_duplicates(),
            if event_names(old(self)@.items).contains(descriptor.name@) {
                &&& final(self)@.items == old(self)@.items
                &&& r matches Err(ExportError::DuplicateName(n)) && n@ == descriptor.name@
            } else {
                &&& final(self)@.items == old(self)@.items.push(descriptor@)
                &&& r is Ok
            },
    {
        proof {
            use_type_invariant(&*self);
        }
        let ghost before = old(self)@.items;
        let mut i: usize = 0;
        while i < self.items.len()
            invariant
                i <= self.items.len(),
                *self == *old(self),
                before == event_shapes(self.items@),
                event_names(before).no_duplicates(),
                forall|j: int| 0 <= j < i ==> before[j].name != descriptor.name@,
            decreases self.items.len() - i,
        {
            if self.items[i].name == descriptor.name {
                assert(event_names(before)[i as int] == descriptor.name@);
                return Err(ExportError::DuplicateName(descriptor.name));
            }
            i += 1;
        }
        assert(!event_names(before).contains(descriptor.name@)) by {
            if event_names(before).contains(descriptor.name@) {
                let k = choose|k: int|
                    0 <= k < event_names(before).len() && event_names(before)[k] == descriptor.name@;
                assert(before[k].name == descriptor.name@);
            }
        }
        let mut items: Vec<EventDescriptor> = Vec::new();
        std::mem::swap(&mut items, &mut self.items);
        items.push(descriptor);
        proof {
            let after = event_shapes(items@);
            assert(after =~= before.push(descriptor@));
            assert forall|a: int, b: int|
                0 <= a < after.len() && 0 <= b < after.len() && a != b implies event_names(after)[a]
                != event_names(after)[b] by {
                if a < before.len() && b < before.len() {
                    assert(event_names(before)[a] != event_names(before)[b]);
                }
            }
        }
        self.items = items;
        Ok(())
    }

    /// Adds a named type that an event's payload refers to.
    pub fn ty(&mut self, ty: NamedType)
        ensures
            final(self)@.items == old(self)@.items,
            final(self)@.types == old(self)@.types.push(ty@),
    {
        proof {
            use_type_invariant(&*self);
        }
        let mut types: Vec<NamedType> = Vec::new();
        std::mem::swap(&mut types, &mut self.types);
        types.push(ty);
        assert(named_shapes(types@) =~= old(self)@.types.push(ty@));
        self.types = types;
    }

    /// The names of the declared events, in order: what a host's notification
    /// facility has to know for a later emit under one of them to succeed.
    pub fn names(&self) -> (names: Vec<String>)
        ensures
            texts(names@) == event_names(self@.items),
    {
        let mut names: Vec<String> = Vec::new();
        let mut i: usize = 0;
        while i < self.items.len()
            invariant
                i <= self.items.len(),
                names.len() == i,
                forall|j: int| 0 <= j < i ==> names@[j]@ == self.items@[j].name@,
            decreases self.items.len() - i,
        {
            names.push(self.items[i].name.clone());
            i += 1;
        }
        assert(texts(names@) =~= event_names(self@.items));
        names
    }
}

} // verus!
