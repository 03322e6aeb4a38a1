//! The registry of named types and the closure of what a set of roots
//! refers to.

use crate::definition::{id_names, lemma_id_names_push, shape_refs, Shape, TypeDefinition, TypeId};
use crate::error::ExportError;
use crate::order::{
    distinct_names, lemma_name_lt_asymmetric, lemma_sorted_by_name, name_before, position, put_in,
    sorted_by_name, strictly_sorted,
};
use vstd::prelude::*;

verus! {

/// A type definition under its identity.
#[derive(Debug)]
pub struct NamedType {
    pub id: TypeId,
    pub definition: TypeDefinition,
}

/// The mathematical model of a [`NamedType`].
pub struct NamedShape {
    pub id: Seq<char>,
    pub definition: Shape,
}

impl View for NamedType {
    type V = NamedShape;

    open spec fn view(&self) -> NamedShape {
        NamedShape { id: self.id@, definition: self.definition@ }
    }
}

impl NamedType {
    pub fn new(id: TypeId, definition: TypeDefinition) -> (ty: NamedType)
        ensures
            ty@ == (NamedShape { id: id@, definition: definition@ }),
    {
        NamedType { id, definition }
    }

    /// A copy with the same identity and shape.
    pub fn duplicate(&self) -> (ty: NamedType)
        ensures
            ty@ == self@,
    {
        NamedType { id: self.id.duplicate(), definition: self.definition.duplicate() }
    }
}

/// The models of a sequence of named types, in order.
pub open spec fn named_shapes(types: Seq<NamedType>) -> Seq<NamedShape> {
    types.map_values(|ty: NamedType| ty@)
}

/// The identities of a table's entries, in order of registration.
pub open spec fn table_ids(table: Seq<NamedShape>) -> Seq<Seq<char>> {
    table.map_values(|entry: NamedShape| entry.id)
}

/// Whether the table holds a definition for `id`.
pub open spec fn defined(table: Seq<NamedShape>, id: Seq<char>) -> bool {
    table_ids(table).contains(id)
}

/// The definition that the table holds for `id`, where it holds one.
pub open spec fn definition_of(table: Seq<NamedShape>, id: Seq<char>) -> Shape {
    table[table_ids(table).index_of(id)].definition
}

/// No two entries of the table have the same identity.
pub open spec fn distinct_ids(table: Seq<NamedShape>) -> bool {
    forall|i: int, j: int|
        0 <= i < table.len() && 0 <= j < table.len() && i != j ==> (#[trigger] table[i]).id != (
        #[trigger] table[j]).id
}

/// The entries of a table in the order of their identities: the order that
/// what the table holds fixes, whatever the order of registration was.
pub open spec fn canonical_types(table: Seq<NamedShape>) -> Seq<NamedShape> {
    sorted_by_name(table, |entry: NamedShape| entry.id)
}

/// Entries of different identities, put in the order of their identities,
/// are the same entries, each once, with different identities still.
pub proof fn lemma_canonical_types(table: Seq<NamedShape>)
    requires
        distinct_ids(table),
    ensures
        distinct_ids(canonical_types(table)),
        canonical_types(table).len() == table.len(),
        forall|entry: NamedShape| canonical_types(table).contains(entry) <==> table.contains(entry),
        forall|id: Seq<char>| defined(canonical_types(table), id) <==> defined(table, id),
{
    let name = |entry: NamedShape| entry.id;
    let sorted = canonical_types(table);
    lemma_sorted_by_name(table, name);
    assert forall|i: int, j: int|
        0 <= i < sorted.len() && 0 <= j < sorted.len() && i != j implies (#[trigger] sorted[i]).id
        != (#[trigger] sorted[j]).id by {
        lemma_name_lt_asymmetric(sorted[i].id, sorted[j].id);
        if i < j {
            assert(crate::order::name_lt(name(sorted[i]), name(sorted[j])));
        } else {
            assert(crate::order::name_lt(name(sorted[j]), name(sorted[i])));
        }
    }
    assert forall|id: Seq<char>| defined(sorted, id) <==> defined(table, id) by {
        if defined(sorted, id) {
            let k = choose|k: int| 0 <= k < table_ids(sorted).len() && table_ids(sorted)[k] == id;
            assert(sorted.contains(sorted[k]));
            assert(table.contains(sorted[k]));
            let m = choose|m: int| 0 <= m < table.len() && table[m] == sorted[k];
            assert(table_ids(table)[m] == id);
        }
        if defined(table, id) {
            let k = choose|k: int| 0 <= k < table_ids(table).len() && table_ids(table)[k] == id;
            assert(table.contains(table[k]));
            assert(sorted.contains(table[k]));
            let m = choose|m: int| 0 <= m < sorted.len() && sorted[m] == table[k];
            assert(table_ids(sorted)[m] == id);
        }
    }
}

/// The table after `ty` is registered: a new identity is appended, a known
/// identity with the same definition changes nothing, and a known identity
/// with another definition is refused.
pub open spec fn registered(table: Seq<NamedShape>, ty: NamedShape) -> Option<Seq<NamedShape>> {
    if !defined(table, ty.id) {
        Some(table.push(ty))
    } else if definition_of(table, ty.id) == ty.definition {
        Some(table)
    } else {
        None
    }
}

/// The table after each of `types` is registered in turn, or `None` with the
/// first that is refused.
pub open spec fn registered_all(table: Seq<NamedShape>, types: Seq<NamedShape>) -> Option<
    Seq<NamedShape>,
>
    decreases types.len(),
{
    if types.len() == 0 {
        Some(table)
    } else {
        match registered_all(table, types.drop_last()) {
            Some(t) => registered(t, types.last()),
            None => None,
        }
    }
}

/// The first identity among `types` whose registration is refused.
pub open spec fn first_collision(table: Seq<NamedShape>, types: Seq<NamedShape>) -> Seq<char>
    decreases types.len(),
{
    if types.len() == 0 {
        Seq::empty()
    } else {
        match registered_all(table, types.drop_last()) {
            Some(_) => types.last().id,
            None => first_collision(table, types.drop_last()),
        }
    }
}

/// Once a registration is refused, it stays refused however many types
/// follow, and the first collision stays the same.
pub proof fn lemma_collision_stays(table: Seq<NamedShape>, types: Seq<NamedShape>, k: int)
    requires
        0 <= k <= types.len(),
        registered_all(table, types.take(k)) is None,
    ensures
        registered_all(table, types) is None,
        first_collision(table, types) == first_collision(table, types.take(k)),
    decreases types.len(),
{
    if k == types.len() {
        assert(types.take(k) =~= types);
    } else {
        assert(types.drop_last().take(k) =~= types.take(k));
        lemma_collision_stays(table, types.drop_last(), k);
    }
}

/// What registering one type does to a table without repeated identities:
/// nothing is repeated afterwards, what was defined keeps its definition,
/// the type is defined as it was handed in, and nothing else has come.
pub proof fn lemma_registered(table: Seq<NamedShape>, ty: NamedShape)
    requires
        distinct_ids(table),
        registered(table, ty) is Some,
    ensures
        ({
            let after = registered(table, ty)->Some_0;
            &&& distinct_ids(after)
            &&& forall|id: Seq<char>|
                defined(table, id) ==> defined(after, id) && definition_of(after, id)
                    == definition_of(table, id)
            &&& defined(after, ty.id)
            &&& definition_of(after, ty.id) == ty.definition
            &&& forall|k: int|
                0 <= k < after.len() ==> table.contains(#[trigger] after[k]) || after[k] == ty
        }),
{
    let after = registered(table, ty)->Some_0;
    if !defined(table, ty.id) {
        assert forall|i: int, j: int|
            0 <= i < after.len() && 0 <= j < after.len() && i != j implies (#[trigger] after[i]).id
            != (#[trigger] after[j]).id by {
            if i == table.len() {
                assert(table_ids(table)[j] == after[j].id);
            } else if j == table.len() {
                assert(table_ids(table)[i] == after[i].id);
            } else {
                assert(table[i].id != table[j].id);
            }
        }
        assert forall|id: Seq<char>| defined(table, id) implies defined(after, id)
            && definition_of(after, id) == definition_of(table, id) by {
            let k = table_ids(table).index_of(id);
            assert(0 <= k < table.len() && table_ids(table)[k] == id);
            lemma_index_of_id(table, k);
            assert(after[k] == table[k]);
            lemma_index_of_id(after, k);
        }
        lemma_index_of_id(after, table.len() as int);
        assert forall|k: int| 0 <= k < after.len() implies table.contains(#[trigger] after[k])
            || after[k] == ty by {
            if k < table.len() {
                assert(table[k] == after[k]);
            }
        }
    } else {
        assert forall|k: int| 0 <= k < after.len() implies table.contains(#[trigger] after[k])
            || after[k] == ty by {
            assert(table[k] == after[k]);
        }
    }
}

/// What registering types in turn does to a table without repeated
/// identities: nothing is repeated afterwards, what was defined keeps its
/// definition, each of the types is defined as it was handed in, and nothing
/// else has come.
pub proof fn lemma_registered_all(table: Seq<NamedShape>, types: Seq<NamedShape>)
    requires
        distinct_ids(table),
        registered_all(table, types) is Some,
    ensures
        ({
            let after = registered_all(table, types)->Some_0;
            &&& distinct_ids(after)
            &&& forall|id: Seq<char>|
                defined(table, id) ==> defined(after, id) && definition_of(after, id)
                    == definition_of(table, id)
            &&& forall|i: int|
                0 <= i < types.len() ==> defined(after, (#[trigger] types[i]).id) && definition_of(
                    after,
                    types[i].id,
                ) == types[i].definition
            &&& forall|k: int|
                0 <= k < after.len() ==> table.contains(#[trigger] after[k]) || types.contains(
                    after[k],
                )
        }),
    decreases types.len(),
{
    if types.len() > 0 {
        let front = types.drop_last();
        let last = types.last();
        let middle = registered_all(table, front)->Some_0;
        let after = registered_all(table, types)->Some_0;
        lemma_registered_all(table, front);
        lemma_registered(middle, last);
        assert forall|i: int| 0 <= i < types.len() implies defined(after, (#[trigger] types[i]).id)
            && definition_of(after, types[i].id) == types[i].definition by {
            if i < front.len() {
                assert(front[i] == types[i]);
                assert(defined(middle, front[i].id));
            }
        }
        assert forall|k: int| 0 <= k < after.len() implies table.contains(#[trigger] after[k])
            || types.contains(after[k]) by {
            if middle.contains(after[k]) {
                let m = choose|m: int| 0 <= m < middle.len() && middle[m] == after[k];
                if front.contains(middle[m]) {
                    let n = choose|n: int| 0 <= n < front.len() && front[n] == middle[m];
                    assert(types[n] == after[k]);
                }
            } else {
                assert(types[types.len() - 1] == after[k]);
            }
        }
    }
}

/// The identities that the table defines and that no one has visited yet.
pub open spec fn unvisited(table: Seq<NamedShape>, visited: Seq<Seq<char>>) -> Set<Seq<char>> {
    table_ids(table).to_set().difference(visited.to_set())
}

/// To visit a defined identity for the first time leaves fewer to visit.
pub proof fn lemma_visit_shrinks(table: Seq<NamedShape>, visited: Seq<Seq<char>>, id: Seq<char>)
    requires
        defined(table, id),
        !visited.contains(id),
    ensures
        unvisited(table, visited.push(id)).len() < unvisited(table, visited).len(),
{
    vstd::seq_lib::seq_to_set_is_finite(table_ids(table));
    assert(unvisited(table, visited).finite());
    assert(unvisited(table, visited).contains(id));
    assert(unvisited(table, visited.push(id)) =~= unvisited(table, visited).remove(id)) by {
        assert forall|x: Seq<char>|
            visited.push(id).contains(x) <==> (visited.contains(x) || x == id) by {
            if visited.contains(x) {
                let k = choose|k: int| 0 <= k < visited.len() && visited[k] == x;
                assert(visited.push(id)[k] == x);
            }
            if x == id {
                assert(visited.push(id)[visited.len() as int] == x);
            }
        }
    }
}

/// The identities visited when the pending ones are taken in turn: one that
/// was visited before or has no definition is passed over, any other is
/// visited and what its definition refers to is queued behind the rest.
pub open spec fn discover(
    table: Seq<NamedShape>,
    pending: Seq<Seq<char>>,
    visited: Seq<Seq<char>>,
) -> Seq<Seq<char>>
    decreases unvisited(table, visited).len(), pending.len(),
{
    if pending.len() == 0 {
        visited
    } else if visited.contains(pending[0]) || !defined(table, pending[0]) {
        discover(table, pending.drop_first(), visited)
    } else {
        proof {
            lemma_visit_shrinks(table, visited, pending[0]);
        }
        discover(
            table,
            pending.drop_first() + shape_refs(definition_of(table, pending[0])),
            visited.push(pending[0]),
        )
    }
}

/// Every defined identity that can be reached from `roots`, each once, in the
/// order in which it is first discovered.
pub open spec fn closure_of(table: Seq<NamedShape>, roots: Seq<Seq<char>>) -> Seq<Seq<char>> {
    discover(table, roots, Seq::empty())
}

/// Every identity of `ids` that the table defines occurs in `found`.
pub open spec fn covers(table: Seq<NamedShape>, found: Seq<Seq<char>>, ids: Seq<Seq<char>>) -> bool {
    forall|j: int| 0 <= j < ids.len() && defined(table, ids[j]) ==> found.contains(#[trigger] ids[j])
}

/// `found[i]` is one of `roots`, or an earlier entry of `found` from `start`
/// on refers to it.
pub open spec fn reached(
    table: Seq<NamedShape>,
    found: Seq<Seq<char>>,
    roots: Seq<Seq<char>>,
    start: int,
    i: int,
) -> bool {
    roots.contains(found[i]) || exists|k: int|
        start <= k < i && (#[trigger] shape_refs(definition_of(table, found[k]))).contains(found[i])
}

/// What holds of the identities that `discover` visits: none occurs twice,
/// each is defined, those visited before come first, every defined pending
/// identity is among them, every defined reference of a newly visited one is
/// among them, and each newly visited one was pending or is referred to by
/// one visited before it.
pub proof fn lemma_discover(
    table: Seq<NamedShape>,
    pending: Seq<Seq<char>>,
    visited: Seq<Seq<char>>,
)
    requires
        visited.no_duplicates(),
        forall|i: int| 0 <= i < visited.len() ==> defined(table, #[trigger] visited[i]),
    ensures
        ({
            let found = discover(table, pending, visited);
            &&& found.no_duplicates()
            &&& forall|i: int| 0 <= i < found.len() ==> defined(table, #[trigger] found[i])
            &&& visited.is_prefix_of(found)
            &&& covers(table, found, pending)
            &&& forall|i: int|
                visited.len() <= i < found.len() ==> covers(
                    table,
                    found,
                    shape_refs(definition_of(table, #[trigger] found[i])),
                )
            &&& forall|i: int|
                visited.len() <= i < found.len() ==> #[trigger] reached(
                    table,
                    found,
                    pending,
                    visited.len() as int,
                    i,
                )
        }),
    decreases unvisited(table, visited).len(), pending.len(),
{
    let found = discover(table, pending, visited);
    if pending.len() == 0 {
    } else if visited.contains(pending[0]) || !defined(table, pending[0]) {
        let rest = pending.drop_first();
        lemma_discover(table, rest, visited);
        assert forall|j: int| 0 <= j < pending.len() && defined(table, pending[j]) implies found.contains(
            #[trigger] pending[j],
        ) by {
            if j == 0 {
                let k = choose|k: int| 0 <= k < visited.len() && visited[k] == pending[0];
                assert(found[k] == pending[0]);
            } else {
                assert(rest[j - 1] == pending[j]);
            }
        }
        assert forall|i: int| visited.len() <= i < found.len() implies #[trigger] reached(
            table,
            found,
            pending,
            visited.len() as int,
            i,
        ) by {
            assert(reached(table, found, rest, visited.len() as int, i));
            if rest.contains(found[i]) {
                let k = choose|k: int| 0 <= k < rest.len() && rest[k] == found[i];
                assert(pending[k + 1] == found[i]);
            }
        }
    } else {
        let id = pending[0];
        let rest = pending.drop_first();
        let refs = shape_refs(definition_of(table, id));
        let next = rest + refs;
        let seen = visited.push(id);
        lemma_visit_shrinks(table, visited, id);
        assert(seen.no_duplicates());
        lemma_discover(table, next, seen);
        assert(found[visited.len() as int] == seen[visited.len() as int]);
        assert(found[visited.len() as int] == id);
        assert(visited.is_prefix_of(found)) by {
            assert forall|i: int| 0 <= i < visited.len() implies visited[i] == found[i] by {
                assert(seen[i] == found[i]);
            }
        }
        assert forall|j: int| 0 <= j < pending.len() && defined(table, pending[j]) implies found.contains(
            #[trigger] pending[j],
        ) by {
            if j > 0 {
                assert(next[j - 1] == pending[j]);
            }
        }
        assert forall|i: int| visited.len() <= i < found.len() implies covers(
            table,
            found,
            shape_refs(definition_of(table, #[trigger] found[i])),
        ) by {
            if i == visited.len() {
                assert forall|j: int| 0 <= j < refs.len() && defined(table, refs[j]) implies found.contains(
                    #[trigger] refs[j],
                ) by {
                    assert(next[rest.len() + j] == refs[j]);
                }
            }
        }
        assert forall|i: int| visited.len() <= i < found.len() implies #[trigger] reached(
            table,
            found,
            pending,
            visited.len() as int,
            i,
        ) by {
            if i > visited.len() {
                assert(reached(table, found, next, seen.len() as int, i));
                if next.contains(found[i]) {
                    let k = choose|k: int| 0 <= k < next.len() && next[k] == found[i];
                    if k < rest.len() {
                        assert(pending[k + 1] == found[i]);
                    } else {
                        assert(refs[k - rest.len()] == found[i]);
                        assert(shape_refs(definition_of(table, found[visited.len() as int])).contains(
                            found[i],
                        ));
                    }
                }
            }
        }
    }
}

/// The closure holds no identity twice and only defined ones; it holds every
/// defined root and every defined reference of each of its members; and each
/// member is a root or is referred to by an earlier member.
pub proof fn lemma_closure(table: Seq<NamedShape>, roots: Seq<Seq<char>>)
    ensures
        closure_of(table, roots).no_duplicates(),
        forall|i: int|
            0 <= i < closure_of(table, roots).len() ==> defined(
                table,
                #[trigger] closure_of(table, roots)[i],
            ),
        covers(table, closure_of(table, roots), roots),
        forall|i: int|
            0 <= i < closure_of(table, roots).len() ==> covers(
                table,
                closure_of(table, roots),
                shape_refs(definition_of(table, #[trigger] closure_of(table, roots)[i])),
            ),
        forall|i: int|
            0 <= i < closure_of(table, roots).len() ==> #[trigger] reached(
                table,
                closure_of(table, roots),
                roots,
                0,
                i,
            ),
{
    lemma_discover(table, roots, Seq::empty());
}

/// Registering the same type a second time gives the same table again.
pub proof fn lemma_register_idempotent(table: Seq<NamedShape>, ty: NamedShape)
    requires
        registered(table, ty) is Some,
    ensures
        registered(registered(table, ty)->Some_0, ty) == registered(table, ty),
{
    if !defined(table, ty.id) {
        let after = table.push(ty);
        assert(table_ids(after)[table.len() as int] == ty.id);
        let k = table_ids(after).index_of(ty.id);
        assert(0 <= k < after.len() && table_ids(after)[k] == ty.id);
        if k < table.len() {
            assert(table_ids(table)[k] == ty.id);
        }
    }
}

/// An index that holds `id` is the one that `index_of` finds, where no
/// identity occurs twice.
pub proof fn lemma_index_of_id(table: Seq<NamedShape>, i: int)
    requires
        distinct_ids(table),
        0 <= i < table.len(),
    ensures
        defined(table, table[i].id),
        table_ids(table).index_of(table[i].id) == i,
        definition_of(table, table[i].id) == table[i].definition,
{
    let ids = table_ids(table);
    assert(ids[i] == table[i].id);
    let k = ids.index_of(table[i].id);
    assert(0 <= k < ids.len() && ids[k] == table[i].id);
    assert(table[k].id == table[i].id);
}

/// The registry of named type definitions, in order of registration.
///
/// No identity is registered twice.
pub struct TypeTable {
    entries: Vec<NamedType>,
}

impl View for TypeTable {
    type V = Seq<NamedShape>;

    closed spec fn view(&self) -> Seq<NamedShape> {
        named_shapes(self.entries@)
    }
}

impl TypeTable {
    #[verifier::type_invariant]
    closed spec fn well_formed(self) -> bool {
        distinct_ids(self@)
    }

    /// An empty table.
    pub fn new() -> (table: TypeTable)
        ensures
            table@ == Seq::<NamedShape>::empty(),
    {
        let table = TypeTable { entries: Vec::new() };
        assert(table@ =~= Seq::<NamedShape>::empty());
        table
    }

    /// The number of registered types.
    pub fn len(&self) -> (n: usize)
        ensures
            n == self@.len(),
            distinct_ids(self@),
    {
        proof {
            use_type_invariant(self);
        }
        self.entries.len()
    }

    /// Where `id` stands in the table.
    fn position(&self, id: &TypeId) -> (at: Option<usize>)
        ensures
            distinct_ids(self@),
            self@ == named_shapes(self.entries@),
            match at {
                Some(i) => i < self@.len() && self@[i as int].id == id@ && defined(self@, id@)
                    && definition_of(self@, id@) == self@[i as int].definition,
                None => !defined(self@, id@),
            },
    {
        proof {
            use_type_invariant(self);
        }
        let mut i: usize = 0;
        while i < self.entries.len()
            invariant
                i <= self.entries.len(),
                self@ == named_shapes(self.entries@),
                distinct_ids(self@),
                forall|j: int| 0 <= j < i ==> self@[j].id != id@,
            decreases self.entries.len() - i,
        {
            if self.entries[i].id.same(id) {
                proof {
                    lemma_index_of_id(self@, i as int);
                }
                return Some(i);
            }
            i += 1;
        }
        assert(!defined(self@, id@)) by {
            if defined(self@, id@) {
                let k = choose|k: int| 0 <= k < table_ids(self@).len() && table_ids(self@)[k] == id@;
                assert(self@[k].id == id@);
            }
        }
        None
    }

    /// Whether a definition is registered for `id`.
    pub fn contains(&self, id: &TypeId) -> (r: bool)
        ensures
            r == defined(self@, id@),
    {
        self.position(id).is_some()
    }

    /// The entry registered for `id`.
    pub fn get(&self, id: &TypeId) -> (entry: Option<&NamedType>)
        ensures
            match entry {
                Some(e) => defined(self@, id@) && e@.id == id@ && e@.definition == definition_of(
                    self@,
                    id@,
                ),
                None => !defined(self@, id@),
            },
    {
        match self.position(id) {
            Some(i) => Some(&self.entries[i]),
            None => None,
        }
    }

    /// The identities of the registered types, in order of registration.
    pub fn ids(&self) -> (ids: Vec<TypeId>)
        ensures
            id_names(ids@) == table_ids(self@),
    {
        let mut ids: Vec<TypeId> = Vec::new();
        let mut i: usize = 0;
        while i < self.entries.len()
            invariant
                i <= self.entries.len(),
                ids.len() == i,
                forall|j: int| 0 <= j < i ==> ids@[j]@ == self.entries@[j].id@,
            decreases self.entries.len() - i,
        {
            ids.push(self.entries[i].id.duplicate());
            i += 1;
        }
        assert(id_names(ids@) =~= table_ids(self@));
        ids
    }

    /// A copy of the table.
    pub fn duplicate(&self) -> (table: TypeTable)
        ensures
            table@ == self@,
    {
        proof {
            use_type_invariant(self);
        }
        let mut entries: Vec<NamedType> = Vec::new();
        let mut i: usize = 0;
        while i < self.entries.len()
            invariant
                i <= self.entries.len(),
                entries.len() == i,
                forall|j: int| 0 <= j < i ==> entries@[j]@ == self.entries@[j]@,
            decreases self.entries.len() - i,
        {
            entries.push(self.entries[i].duplicate());
            i += 1;
        }
        assert(named_shapes(entries@) =~= named_shapes(self.entries@));
        TypeTable { entries }
    }

    /// A copy of the table with the entries in the order of their
    /// identities.
    pub fn canonical(&self) -> (table: TypeTable)
        ensures
            table@ == canonical_types(self@),
            distinct_ids(self@),
    {
        proof {
            use_type_invariant(self);
        }
        let ghost name = |entry: NamedShape| entry.id;
        let mut entries: Vec<NamedType> = Vec::new();
        let mut i: usize = 0;
        assert(self@.take(0) =~= Seq::<NamedShape>::empty());
        assert(named_shapes(entries@) =~= Seq::<NamedShape>::empty());
        while i < self.entries.len()
            invariant
                i <= self.entries.len(),
                self@ == named_shapes(self.entries@),
                name == (|entry: NamedShape| entry.id),
                named_shapes(entries@) == sorted_by_name(self@.take(i as int), name),
            decreases self.entries.len() - i,
        {
            let ghost sorted = named_shapes(entries@);
            let entry = self.entries[i].duplicate();
            let mut at: usize = 0;
            assert(sorted.skip(0) =~= sorted);
            while at < entries.len() && name_before(
                entries[at].id.name.as_str(),
                entry.id.name.as_str(),
            )
                invariant
                    at <= entries.len(),
                    sorted == named_shapes(entries@),
                    name == (|entry: NamedShape| entry.id),
                    position(sorted, entry@.id, name) == at + position(
                        sorted.skip(at as int),
                        entry@.id,
                        name,
                    ),
                decreases entries.len() - at,
            {
                assert(sorted.skip(at as int)[0] == entries@[at as int]@);
                assert(sorted.skip(at as int).drop_first() =~= sorted.skip(at + 1));
                at += 1;
            }
            proof {
                if at < entries.len() {
                    assert(sorted.skip(at as int)[0] == entries@[at as int]@);
                }
                assert(position(sorted, entry@.id, name) == at);
                assert(self@.take(i + 1).drop_last() =~= self@.take(i as int));
                assert(self@.take(i + 1).last() == entry@);
            }
            entries.insert(at, entry);
            assert(named_shapes(entries@) =~= put_in(sorted, entry@, name));
            i += 1;
        }
        proof {
            assert(self@.take(self.entries.len() as int) =~= self@);
            lemma_canonical_types(self@);
        }
        TypeTable { entries }
    }

    /// Registers a type and returns its identity.
    ///
    /// A type that is already registered with a structurally identical
    /// definition leaves the table as it is. One that is registered with
    /// another definition is refused, and the table stays as it is.
    pub fn register(&mut self, ty: NamedType) -> (r: Result<TypeId, ExportError>)
        ensures
            distinct_ids(final(self)@),
            match registered(old(self)@, ty@) {
                Some(table) => final(self)@ == table && (r matches Ok(id) && id@ == ty.id@),
                None => final(self)@ == old(self)@ && (r matches Err(
                    ExportError::TypeCollision(name),
                ) && name@ == ty.id@),
            },
    {
        proof {
            use_type_invariant(&*self);
        }
        match self.position(&ty.id) {
            Some(i) => {
                if self.entries[i].definition.same(&ty.definition) {
                    Ok(ty.id)
                } else {
                    Err(ExportError::TypeCollision(ty.id.name))
                }
            },
            None => {
                let id = ty.id.duplicate();
                let ghost before = old(self)@;
                let mut entries: Vec<NamedType> = Vec::new();
                std::mem::swap(&mut entries, &mut self.entries);
                entries.push(ty);
                proof {
                    let after = named_shapes(entries@);
                    assert(after =~= before.push(ty@));
                    assert forall|i: int, j: int|
                        0 <= i < after.len() && 0 <= j < after.len() && i != j implies (
                    #[trigger] after[i]).id != (#[trigger] after[j]).id by {
                        if i == before.len() {
                            assert(table_ids(before)[j] == after[j].id);
                        } else if j == before.len() {
                            assert(table_ids(before)[i] == after[i].id);
                        } else {
                            assert(before[i].id != before[j].id);
                        }
                    }
                }
                self.entries = entries;
                Ok(id)
            },
        }
    }

    /// Registers each of `types` in turn. Where one of them is refused, the
    /// failure names it and the table stays as it was before the call.
    pub fn register_all(&mut self, types: &Vec<NamedType>) -> (r: Result<(), ExportError>)
        ensures
            distinct_ids(final(self)@),
            match registered_all(old(self)@, named_shapes(types@)) {
                Some(table) => final(self)@ == table && r is Ok,
                None => final(self)@ == old(self)@ && (r matches Err(
                    ExportError::TypeCollision(name),
                ) && name@ == first_collision(old(self)@, named_shapes(types@))),
            },
    {
        proof {
            use_type_invariant(&*self);
        }
        let ghost shapes = named_shapes(types@);
        let mut work = self.duplicate();
        let mut i: usize = 0;
        assert(shapes.take(0) =~= Seq::<NamedShape>::empty());
        while i < types.len()
            invariant
                i <= types.len(),
                *self == *old(self),
                distinct_ids(self@),
                shapes == named_shapes(types@),
                registered_all(old(self)@, shapes.take(i as int)) == Some(work@),
            decreases types.len() - i,
        {
            proof {
                assert(shapes.take(i + 1).drop_last() =~= shapes.take(i as int));
                assert(shapes.take(i + 1).last() == types@[i as int]@);
            }
            match work.register(types[i].duplicate()) {
                Ok(_) => {},
                Err(e) => {
                    proof {
                        lemma_collision_stays(old(self)@, shapes, i + 1);
                    }
                    return Err(e);
                },
            }
            i += 1;
        }
        assert(shapes.take(types.len() as int) =~= shapes);
        proof {
            use_type_invariant(&work);
        }
        *self = work;
        Ok(())
    }

    /// Every registered identity that can be reached from `roots`, each once,
    /// in the order in which it is first discovered. A root or a reference
    /// without a registered definition is passed over.
    pub fn resolve_closure(&self, roots: &Vec<TypeId>) -> (closure: Vec<TypeId>)
        ensures
            id_names(closure@) == closure_of(self@, id_names(roots@)),
    {
        let mut queue: Vec<TypeId> = Vec::new();
        let mut k: usize = 0;
        while k < roots.len()
            invariant
                k <= roots.len(),
                queue.len() == k,
                forall|j: int| 0 <= j < k ==> queue@[j]@ == roots@[j]@,
            decreases roots.len() - k,
        {
            queue.push(roots[k].duplicate());
            k += 1;
        }
        assert(id_names(queue@) =~= id_names(roots@));
        let mut visited: Vec<TypeId> = Vec::new();
        let mut head: usize = 0;
        assert(id_names(queue@).skip(0) =~= id_names(roots@));
        assert(id_names(visited@) =~= Seq::<Seq<char>>::empty());
        while head < queue.len()
            invariant
                head <= queue.len(),
                discover(self@, id_names(queue@).skip(head as int), id_names(visited@))
                    == closure_of(self@, id_names(roots@)),
            decreases unvisited(self@, id_names(visited@)).len(), queue.len() - head,
        {
            let ghost pending = id_names(queue@).skip(head as int);
            let ghost seen = id_names(visited@);
            assert(pending.len() > 0 && pending[0] == queue@[head as int]@);
            assert(pending.drop_first() =~= id_names(queue@).skip(head + 1));
            let id = queue[head].duplicate();
            if contains_id(&visited, &id) {
                head += 1;
            } else {
                match self.get(&id) {
                    None => {
                        head += 1;
                    },
                    Some(entry) => {
                        let ghost before = queue@;
                        entry.definition.collect_refs(&mut queue);
                        proof {
                            lemma_id_names_push(visited@, id);
                            lemma_visit_shrinks(self@, seen, id@);
                            assert(id_names(queue@).skip(head + 1) =~= pending.drop_first()
                                + shape_refs(definition_of(self@, id@)));
                        }
                        visited.push(id);
                        head += 1;
                    },
                }
            }
        }
        visited
    }
}

/// Whether `ids` holds an identity of the same name as `id`.
pub fn contains_id(ids: &Vec<TypeId>, id: &TypeId) -> (r: bool)
    ensures
        r == id_names(ids@).contains(id@),
{
    let mut i: usize = 0;
    while i < ids.len()
        invariant
            i <= ids.len(),
            forall|j: int| 0 <= j < i ==> ids@[j]@ != id@,
        decreases ids.len() - i,
    {
        if ids[i].same(id) {
            assert(id_names(ids@)[i as int] == id@);
            return true;
        }
        i += 1;
    }
    false
}

} // verus!
