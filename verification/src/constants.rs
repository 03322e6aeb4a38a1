//! Named constant values, each with its type and its text in the
//! interchange format.

use crate::definition::{Shape, TypeDefinition};
use crate::error::ExportError;
use crate::order::{name_before, position, put_in, sorted_by_name};
use vstd::prelude::*;

verus! {

/// `serde_json::Value`, a JSON value. It is carried as it comes: nothing is
/// known of what it holds.
#[verifier::external_type_specification]
#[verifier::external_body]
pub struct ExJsonValue(serde_json::Value);

/// `serde_json::Error`, what `serde_json` reports where it fails. It is
/// carried as it comes: nothing is known of what it holds.
#[verifier::external_type_specification]
#[verifier::external_body]
pub struct ExJsonError(serde_json::Error);

/// The compact JSON text that `serde_json::to_string` gives for a value, or
/// `None` where it fails.
pub uninterp spec fn json_encoding(value: serde_json::Value) -> Option<Seq<char>>;

/// Calls `serde_json::to_string` on a `serde_json::Value`. The contract
/// claims one thing only: that the outcome is the one that `json_encoding`
/// names for this value, text for text and failure for failure.
#[verifier::external_body]
pub(crate) fn encode(value: &serde_json::Value) -> (r: Result<String, serde_json::Error>)
    ensures
        match json_encoding(*value) {
            Some(text) => r matches Ok(s) && s@ == text,
            None => r is Err,
        },
{
    serde_json::to_string(value)
}

/// A constant: its name, the type of its value, and the value as text.
#[derive(Debug)]
pub struct ConstantEntry {
    pub name: String,
    pub ty: TypeDefinition,
    pub value: String,
}

/// The mathematical model of a [`ConstantEntry`].
pub struct ConstantShape {
    pub name: Seq<char>,
    pub ty: Shape,
    pub value: Seq<char>,
}

impl View for ConstantEntry {
    type V = ConstantShape;

    open spec fn view(&self) -> ConstantShape {
        ConstantShape { name: self.name@, ty: self.ty@, value: self.value@ }
    }
}

impl ConstantEntry {
    /// A copy with the same name, type and text.
    pub fn duplicate(&self) -> (entry: ConstantEntry)
        ensures
            entry@ == self@,
    {
        ConstantEntry {
            name: self.name.clone(),
            ty: self.ty.duplicate(),
            value: self.value.clone(),
        }
    }
}

/// The models of a sequence of entries, in order.
pub open spec fn constant_shapes(entries: Seq<ConstantEntry>) -> Seq<ConstantShape> {
    entries.map_values(|c: ConstantEntry| c@)
}

/// The names of a sequence of constants, in order.
pub open spec fn constant_names(entries: Seq<ConstantShape>) -> Seq<Seq<char>> {
    entries.map_values(|c: ConstantShape| c.name)
}

/// The constants in the order of their names: the order that what the table
/// holds fixes, whatever the order of registration was.
pub open spec fn canonical_constants(table: Seq<ConstantShape>) -> Seq<ConstantShape> {
    sorted_by_name(table, |c: ConstantShape| c.name)
}

/// The table after `entry` is stored: it takes the place of the entry of the
/// same name, or stands behind the others where there is none.
pub open spec fn inserted(table: Seq<ConstantShape>, entry: ConstantShape) -> Seq<ConstantShape> {
    if constant_names(table).contains(entry.name) {
        table.update(constant_names(table).index_of(entry.name), entry)
    } else {
        table.push(entry)
    }
}

/// The constants, in the order in which their names were first stored.
///
/// No two entries have the same name.
pub struct ConstantTable {
    entries: Vec<ConstantEntry>,
}

impl View for ConstantTable {
    type V = Seq<ConstantShape>;

    closed spec fn view(&self) -> Seq<ConstantShape> {
        constant_shapes(self.entries@)
    }
}

impl ConstantTable {
    #[verifier::type_invariant]
    closed spec fn well_formed(self) -> bool {
        constant_names(self@).no_duplicates()
    }

    /// An empty table.
    pub fn new() -> (table: ConstantTable)
        ensures
            table@ == Seq::<ConstantShape>::empty(),
    {
        let table = ConstantTable { entries: Vec::new() };
        assert(table@ =~= Seq::<ConstantShape>::empty());
        table
    }

    /// The entries, in order.
    pub fn entries(&self) -> (entries: &Vec<ConstantEntry>)
        ensures
            constant_shapes(entries@) == self@,
            constant_names(self@).no_duplicates(),
    {
        proof {
            use_type_invariant(self);
        }
        &self.entries
    }

    /// Copies of the entries, in the order of their names.
    pub fn canonical(&self) -> (entries: Vec<ConstantEntry>)
        ensures
            constant_shapes(entries@) == canonical_constants(self@),
            constant_names(self@).no_duplicates(),
    {
        proof {
            use_type_invariant(self);
        }
        let ghost name = |c: ConstantShape| c.name;
        let mut entries: Vec<ConstantEntry> = Vec::new();
        let mut i: usize = 0;
        assert(self@.take(0) =~= Seq::<ConstantShape>::empty());
        assert(constant_shapes(entries@) =~= Seq::<ConstantShape>::empty());
        while i < self.entries.len()
            invariant
                i <= self.entries.len(),
                self@ == constant_shapes(self.entries@),
                name == (|c: ConstantShape| c.name),
                constant_shapes(entries@) == sorted_by_name(self@.take(i as int), name),
            decreases self.entries.len() - i,
        {
            let ghost sorted = constant_shapes(entries@);
            let entry = self.entries[i].duplicate();
            let mut at: usize = 0;
            assert(sorted.skip(0) =~= sorted);
            while at < entries.len() && name_before(
                entries[at].name.as_str(),
                entry.name.as_str(),
            )
                invariant
                    at <= entries.len(),
                    sorted == constant_shapes(entries@),
                    name == (|c: ConstantShape| c.name),
                    position(sorted, entry@.name, name) == at + position(
                        sorted.skip(at as int),
                        entry@.name,
                        name,
                    ),
                decreases entries.len() - at,
            {
                assert(sorted.skip(at as int)[0] == entries@[at as int]@);
                assert(sorted.skip(at as int).drop_first() =~= sorted.skip(at + 1));
                at += 1;
            }
            proof {
                if at < entries.len() {
                    assert(sorted.skip(at as int)[0] == entries@[at as int]@);
                }
                assert(position(sorted, entry@.name, name) == at);
                assert(self@.take(i + 1).drop_last() =~= self@.take(i as int));
                assert(self@.take(i + 1).last() == entry@);
            }
            entries.insert(at, entry);
            assert(constant_shapes(entries@) =~= put_in(sorted, entry@, name));
            i += 1;
        }
        assert(self@.take(self.entries.len() as int) =~= self@);
        entries
    }

    /// Stores a constant. A later entry of a name overwrites the earlier one
    /// in its place.
    pub fn insert(&mut self, entry: ConstantEntry)
        ensures
            final(self)@ == inserted(old(self)@, entry@),
            constant_names(final(self)@).no_duplicates(),
    {
        proof {
            use_type_invariant(&*self);
        }
        let ghost before = old(self)@;
        let ghost names = constant_names(before);
        let mut entries: Vec<ConstantEntry> = Vec::new();
        std::mem::swap(&mut entries, &mut self.entries);
        let mut i: usize = 0;
        while i < entries.len()
            invariant
                i <= entries.len(),
                before == old(self)@,
                before == constant_shapes(entries@),
                names == constant_names(before),
                names.no_duplicates(),
                self.entries@ == Seq::<ConstantEntry>::empty(),
                forall|j: int| 0 <= j < i ==> before[j].name != entry.name@,
            decreases entries.len() - i,
        {
            if entries[i].name == entry.name {
                proof {
                    assert(names[i as int] == entry.name@);
                    let k = names.index_of(entry.name@);
                    assert(0 <= k < names.len() && names[k] == entry.name@);
                    assert(k == i);
                }
                entries.set(i, entry);
                proof {
                    let after = constant_shapes(entries@);
                    assert(after =~= before.update(i as int, entry@));
                    assert forall|a: int, b: int|
                        0 <= a < after.len() && 0 <= b < after.len() && a != b implies constant_names(
                        after,
                    )[a] != constant_names(after)[b] by {
                        assert(constant_names(after)[a] == names[a]);
                        assert(constant_names(after)[b] == names[b]);
                    }
                }
                self.entries = entries;
                return ;
            }
            i += 1;
        }
        assert(!names.contains(entry.name@)) by {
            if names.contains(entry.name@) {
                let k = choose|k: int| 0 <= k < names.len() && names[k] == entry.name@;
                assert(before[k].name == entry.name@);
            }
        }
        entries.push(entry);
        proof {
            let after = constant_shapes(entries@);
            assert(after =~= before.push(entry@));
            assert forall|a: int, b: int|
                0 <= a < after.len() && 0 <= b < after.len() && a != b implies constant_names(
                after,
            )[a] != constant_names(after)[b] by {
                if a < before.len() && b < before.len() {
                    assert(names[a] != names[b]);
                }
            }
        }
        self.entries = entries;
    }

    /// Stores a constant from the outcome of serializing its value: the text
    /// of the value where there is one, and the failure that names the
    /// constant where the value could not be serialized or has no text. A
    /// failure leaves the table as it is.
    pub fn insert_value(
        &mut self,
        name: String,
        ty: TypeDefinition,
        value: Result<serde_json::Value, serde_json::Error>,
    ) -> (r: Result<(), ExportError>)
        ensures
            constant_names(final(self)@).no_duplicates(),
            match value {
                Ok(v) if json_encoding(v) is Some => {
                    &&& r is Ok
                    &&& final(self)@ == inserted(
                        old(self)@,
                        ConstantShape { name: name@, ty: ty@, value: json_encoding(v)->Some_0 },
                    )
                },
                _ => {
                    &&& final(self)@ == old(self)@
                    &&& r matches Err(ExportError::ValueEncoding(n)) && n@ == name@
                },
            },
    {
        proof {
            use_type_invariant(&*self);
        }
        match value {
            Ok(v) => match encode(&v) {
                Ok(text) => {
                    self.insert(ConstantEntry { name, ty, value: text });
                    Ok(())
                },
                Err(_) => Err(ExportError::ValueEncoding(name)),
            },
            Err(_) => Err(ExportError::ValueEncoding(name)),
        }
    }
}

} // verus!
