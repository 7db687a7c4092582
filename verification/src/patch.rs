//! Patch operation data: tagged values, the three operation kinds, patch
//! files, and the non-fatal warnings the engine reports.

use vstd::prelude::*;

verus! {

/// A tagged patch value.  A record field is an untyped 32-bit word; the
/// value's tag alone decides how it is coerced into that word.  Floating
/// point values are carried as the bit pattern of the 32-bit float they
/// were narrowed to.
#[derive(Debug, Clone)]
pub enum ValueType {
    Int(i64),
    UInt(u64),
    FloatBits(u32),
    Bool(bool),
    Str(Vec<u8>),
}

/// Mathematical model of a `ValueType`.
pub ghost enum ValueV {
    Int(int),
    UInt(int),
    FloatBits(u32),
    Bool(bool),
    Str(Seq<u8>),
}

impl View for ValueType {
    type V = ValueV;

    open spec fn view(&self) -> ValueV {
        match self {
            ValueType::Int(v) => ValueV::Int(*v as int),
            ValueType::UInt(v) => ValueV::UInt(*v as int),
            ValueType::FloatBits(b) => ValueV::FloatBits(*b),
            ValueType::Bool(b) => ValueV::Bool(*b),
            ValueType::Str(s) => ValueV::Str(s@),
        }
    }
}

impl DeepView for ValueType {
    type V = ValueV;

    open spec fn deep_view(&self) -> ValueV {
        self.view()
    }
}

/// The word a value is stored as, when it has one.  In-range integers are
/// stored as themselves, float bit patterns verbatim, booleans as 1 or 0.
/// Out-of-range integers have no word (the assignment is dropped), and
/// strings are stored through interning, never coerced directly.
pub open spec fn coerce_word(v: ValueV) -> Option<u32> {
    match v {
        ValueV::Int(x) => if 0 <= x <= u32::MAX { Some(x as u32) } else { None },
        ValueV::UInt(x) => if x <= u32::MAX { Some(x as u32) } else { None },
        ValueV::FloatBits(b) => Some(b),
        ValueV::Bool(b) => Some(if b { 1u32 } else { 0u32 }),
        ValueV::Str(_) => None,
    }
}

impl ValueType {
    /// Coerces this value into a record word, exactly as `coerce_word`
    /// says; `None` means the assignment carrying it is dropped.
    pub fn as_u32(&self) -> (r: Option<u32>)
        ensures
            r == coerce_word(self@),
    {
        match self {
            ValueType::Int(v) => {
                if *v >= 0 && *v <= 0xffff_ffffi64 {
                    Some(*v as u32)
                } else {
                    None
                }
            },
            ValueType::UInt(v) => {
                if *v <= 0xffff_ffffu64 {
                    Some(*v as u32)
                } else {
                    None
                }
            },
            ValueType::FloatBits(b) => Some(*b),
            ValueType::Bool(b) => Some(
                if *b {
                    1
                } else {
                    0
                },
            ),
            ValueType::Str(_) => None,
        }
    }
}

/// One patch operation.  A key-column reference or a field reference is
/// either a decimal column index or a name resolved through the optional
/// name table; field maps pair each reference with the value to assign.
#[derive(Debug, Clone)]
pub enum PatchEntry {
    /// Modify the first record whose key column holds `key`.
    Update { key: u32, key_column: Option<Vec<u8>>, updates: Vec<(Vec<u8>, ValueType)> },
    /// Append a fresh zero-filled record, unless its key already exists.
    Insert { key: Option<u32>, key_column: Option<Vec<u8>>, values: Vec<(Vec<u8>, ValueType)> },
    /// Clone the first record whose key column holds `key`, modify the
    /// clone, and append it unless its key already exists.
    Copy { key: u32, key_column: Option<Vec<u8>>, updates: Vec<(Vec<u8>, ValueType)> },
}

/// Mathematical model of a `PatchEntry`.
pub ghost enum EntryV {
    Update { key: u32, key_column: Option<Seq<u8>>, updates: Seq<(Seq<u8>, ValueV)> },
    Insert { key: Option<u32>, key_column: Option<Seq<u8>>, values: Seq<(Seq<u8>, ValueV)> },
    Copy { key: u32, key_column: Option<Seq<u8>>, updates: Seq<(Seq<u8>, ValueV)> },
}

impl View for PatchEntry {
    type V = EntryV;

    open spec fn view(&self) -> EntryV {
        match self {
            PatchEntry::Update { key, key_column, updates } => EntryV::Update {
                key: *key,
                key_column: key_column.deep_view(),
                updates: updates.deep_view(),
            },
            PatchEntry::Insert { key, key_column, values } => EntryV::Insert {
                key: *key,
                key_column: key_column.deep_view(),
                values: values.deep_view(),
            },
            PatchEntry::Copy { key, key_column, updates } => EntryV::Copy {
                key: *key,
                key_column: key_column.deep_view(),
                updates: updates.deep_view(),
            },
        }
    }
}

impl DeepView for PatchEntry {
    type V = EntryV;

    open spec fn deep_view(&self) -> EntryV {
        self.view()
    }
}

/// A parsed patch document section: the table it targets and its
/// operations, in listed order.
#[derive(Debug, Clone)]
pub struct PatchFile {
    /// Name of the table this patch is meant for.
    pub dbc: Vec<u8>,
    /// The operations to apply, in order.
    pub changes: Vec<PatchEntry>,
}

/// Mathematical model of a `PatchFile`.
pub ghost struct PatchFileV {
    pub dbc: Seq<u8>,
    pub changes: Seq<EntryV>,
}

impl View for PatchFile {
    type V = PatchFileV;

    open spec fn view(&self) -> PatchFileV {
        PatchFileV { dbc: self.dbc@, changes: self.changes.deep_view() }
    }
}

impl DeepView for PatchFile {
    type V = PatchFileV;

    open spec fn deep_view(&self) -> PatchFileV {
        self.view()
    }
}

/// A non-fatal condition met while applying patch operations.  Warnings
/// never abort a pass; each operation's failure is isolated to itself.
#[derive(Debug, Clone)]
pub enum Warning {
    /// A key-column reference that is no index and is not in the name
    /// table; the key column defaults to 0.
    UnresolvedKeyColumn { name: Vec<u8> },
    /// A field reference that is no index and is not in the name table;
    /// that one assignment is skipped.
    UnknownField { name: Vec<u8> },
    /// A resolved field index at or beyond the record's length; that one
    /// assignment is skipped.
    FieldOutOfRange { index: usize, key: u32 },
    /// No record's key column holds the requested key; the operation does
    /// nothing.
    NoMatch { key: u32 },
    /// A record with the new record's key already exists; the new record
    /// is discarded.
    DuplicateKey { key: u32 },
}

/// Mathematical model of a `Warning`.
pub ghost enum WarnV {
    UnresolvedKeyColumn { name: Seq<u8> },
    UnknownField { name: Seq<u8> },
    FieldOutOfRange { index: usize, key: u32 },
    NoMatch { key: u32 },
    DuplicateKey { key: u32 },
}

impl View for Warning {
    type V = WarnV;

    open spec fn view(&self) -> WarnV {
        match self {
            Warning::UnresolvedKeyColumn { name } => WarnV::UnresolvedKeyColumn { name: name@ },
            Warning::UnknownField { name } => WarnV::UnknownField { name: name@ },
            Warning::FieldOutOfRange { index, key } => WarnV::FieldOutOfRange {
                index: *index,
                key: *key,
            },
            Warning::NoMatch { key } => WarnV::NoMatch { key: *key },
            Warning::DuplicateKey { key } => WarnV::DuplicateKey { key: *key },
        }
    }
}

impl DeepView for Warning {
    type V = WarnV;

    open spec fn deep_view(&self) -> WarnV {
        self.view()
    }
}

/// The optional name table of a table: lowercase field name to zero-based
/// column index, first entry winning on duplicate names.
#[derive(Debug, Clone)]
pub struct Schema {
    pub entries: Vec<(Vec<u8>, usize)>,
}

impl View for Schema {
    type V = Seq<(Seq<u8>, usize)>;

    open spec fn view(&self) -> Seq<(Seq<u8>, usize)> {
        self.entries.deep_view()
    }
}

/// The model of an optional name table.
pub open spec fn schema_view(schema: &Option<Schema>) -> Option<Seq<(Seq<u8>, usize)>> {
    match schema {
        Some(s) => Some(s@),
        None => None,
    }
}

} // verus!
