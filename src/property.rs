use vstd::prelude::*;

use crate::config::{bool_of, int_of, layers_lookup, text_of, ConfigStore, Layer, PropValue};

verus! {

/// The type that a configuration-derived field is read into.
#[derive(Debug, Clone, Copy, PartialEq, Eq, Structural)]
pub enum PropKind {
    I8,
    I16,
    I32,
    I64,
    I128,
    Isize,
    U8,
    U16,
    U32,
    U64,
    U128,
    Usize,
    Bool,
    Text,
}

/// Whether `k` is one of the integer types.
pub open spec fn is_int_kind(k: PropKind) -> bool {
    !(k is Bool || k is Text)
}

/// The least value of an integer type.
pub open spec fn kind_min(k: PropKind) -> int {
    match k {
        PropKind::I8 => i8::MIN as int,
        PropKind::I16 => i16::MIN as int,
        PropKind::I32 => i32::MIN as int,
        PropKind::I64 => i64::MIN as int,
        PropKind::I128 => i128::MIN as int,
        PropKind::Isize => isize::MIN as int,
        _ => 0,
    }
}

/// The greatest value of an integer type.
pub open spec fn kind_max(k: PropKind) -> int {
    match k {
        PropKind::I8 => i8::MAX as int,
        PropKind::I16 => i16::MAX as int,
        PropKind::I32 => i32::MAX as int,
        PropKind::I64 => i64::MAX as int,
        PropKind::I128 => i128::MAX as int,
        PropKind::Isize => isize::MAX as int,
        PropKind::U8 => u8::MAX as int,
        PropKind::U16 => u16::MAX as int,
        PropKind::U32 => u32::MAX as int,
        PropKind::U64 => u64::MAX as int,
        PropKind::U128 => u128::MAX as int,
        PropKind::Usize => usize::MAX as int,
        _ => 0,
    }
}

/// Whether the stored integer `v` fits the integer type `k`.
pub open spec fn fits(k: PropKind, v: int) -> bool {
    kind_min(k) <= v && v <= kind_max(k)
}

/// Reads a stored integer into the integer type `k`: a widening read always
/// succeeds, a narrowing one only where the value is in range.
pub fn coerce_int(k: PropKind, v: i64) -> (r: Option<i128>)
    requires
        is_int_kind(k),
    ensures
        fits(k, v as int) ==> r == Some(v as i128),
        !fits(k, v as int) ==> r is None,
{
    let w = v as i128;
    let ok = match k {
        PropKind::I8 => i8::MIN as i128 <= w && w <= i8::MAX as i128,
        PropKind::I16 => i16::MIN as i128 <= w && w <= i16::MAX as i128,
        PropKind::I32 => i32::MIN as i128 <= w && w <= i32::MAX as i128,
        PropKind::I64 | PropKind::I128 => true,
        PropKind::Isize => isize::MIN as i128 <= w && w <= isize::MAX as i128,
        PropKind::U8 => 0 <= w && w <= u8::MAX as i128,
        PropKind::U16 => 0 <= w && w <= u16::MAX as i128,
        PropKind::U32 => 0 <= w && w <= u32::MAX as i128,
        PropKind::U64 | PropKind::U128 => 0 <= w,
        PropKind::Usize => 0 <= w && w <= usize::MAX as i128,
        PropKind::Bool | PropKind::Text => false,
    };
    if ok {
        Some(w)
    } else {
        None
    }
}

/// How a configuration-derived field is declared: the key it is read from
/// (its explicit name, else the field's own), the type it is read into, the
/// literal that stands in where no source defines the key, and whether the
/// field is optional.
pub struct PropertyAttr {
    pub name: Option<String>,
    pub field: String,
    pub kind: PropKind,
    pub default_value: Option<PropValue>,
    pub optional: bool,
}

/// A configuration-derived value, read into its declared type.
#[derive(Debug, PartialEq)]
pub enum PropertyValue {
    Int(i128),
    Bool(bool),
    Text(String),
    /// An optional field whose key no source defines.
    Absent,
}

/// Why a configuration-derived field cannot be read.
#[derive(Debug, Clone, Copy, PartialEq, Eq, Structural)]
pub enum PropertyFault {
    /// The key is required, no source defines it and there is no default.
    Missing,
    /// The value does not read as the declared type, or is out of its range.
    Coercion,
}

/// The key that a field is read from.
pub open spec fn key_of(attr: PropertyAttr) -> Seq<char> {
    match attr.name {
        Some(n) => n@,
        None => attr.field@,
    }
}

/// The value that a field is read from: the configuration's, else the
/// declared default.
pub open spec fn raw_of(layers: Seq<Layer>, attr: PropertyAttr) -> Option<PropValue> {
    match layers_lookup(layers, key_of(attr)) {
        Some(v) => Some(v),
        None => attr.default_value,
    }
}

/// What keeps a field from being read, if anything.
pub open spec fn property_fault(layers: Seq<Layer>, attr: PropertyAttr) -> Option<
    PropertyFault,
> {
    match raw_of(layers, attr) {
        None => if attr.optional {
            None
        } else {
            Some(PropertyFault::Missing)
        },
        Some(v) => if attr.kind is Bool {
            if bool_of(v) is Some {
                None
            } else {
                Some(PropertyFault::Coercion)
            }
        } else if attr.kind is Text {
            if text_of(v) is Some {
                None
            } else {
                Some(PropertyFault::Coercion)
            }
        } else {
            match int_of(v) {
                Some(i) => if fits(attr.kind, i as int) {
                    None
                } else {
                    Some(PropertyFault::Coercion)
                },
                None => Some(PropertyFault::Coercion),
            }
        },
    }
}

/// Whether `r` is the value that a field without fault is read as.
pub open spec fn property_value(
    layers: Seq<Layer>,
    attr: PropertyAttr,
    r: PropertyValue,
) -> bool {
    match raw_of(layers, attr) {
        None => r == PropertyValue::Absent,
        Some(v) => if attr.kind is Bool {
            r == PropertyValue::Bool(bool_of(v)->0)
        } else if attr.kind is Text {
            r is Text && r->Text_0@ == text_of(v)->0
        } else {
            r == PropertyValue::Int(int_of(v)->0 as i128)
        },
    }
}

/// The key that the field that `attr` declares is read from.
pub fn property_key(attr: &PropertyAttr) -> (r: String)
    ensures
        r@ == key_of(*attr),
{
    match &attr.name {
        Some(n) => n.clone(),
        None => attr.field.clone(),
    }
}

/// The value that the field that `attr` declares is read from: the
/// configuration's, else the declared default.
pub fn raw_property(config: &ConfigStore, attr: &PropertyAttr) -> (r: Option<PropValue>)
    ensures
        r == raw_of(config.layers@, *attr),
{
    let key = property_key(attr);
    match config.lookup(key.as_str()) {
        Some(v) => Some(v),
        None => match &attr.default_value {
            Some(d) => Some(d.duplicate()),
            None => None,
        },
    }
}

/// Reads the field that `attr` declares from the configuration.
pub fn resolve_property(config: &ConfigStore, attr: &PropertyAttr) -> (r: Result<
    PropertyValue,
    PropertyFault,
>)
    ensures
        property_fault(config.layers@, *attr) is Some <==> r is Err,
        r is Err ==> r->Err_0 == property_fault(config.layers@, *attr)->0,
        r is Ok ==> property_value(config.layers@, *attr, r->Ok_0),
{
    match raw_property(config, attr) {
        None => if attr.optional {
            Ok(PropertyValue::Absent)
        } else {
            Err(PropertyFault::Missing)
        },
        Some(v) => match attr.kind {
            PropKind::Bool => match v.as_bool() {
                Some(b) => Ok(PropertyValue::Bool(b)),
                None => Err(PropertyFault::Coercion),
            },
            PropKind::Text => match v.as_text() {
                Some(t) => Ok(PropertyValue::Text(t)),
                None => Err(PropertyFault::Coercion),
            },
            _ => match v.as_int() {
                Some(i) => match coerce_int(attr.kind, i) {
                    Some(w) => Ok(PropertyValue::Int(w)),
                    None => Err(PropertyFault::Coercion),
                },
                None => Err(PropertyFault::Coercion),
            },
        },
    }
}

} // verus!
