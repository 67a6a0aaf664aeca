use vstd::prelude::*;

verus! {

/// A property value as it arrives on the bus, reduced to the kinds the
/// decoder reads.
#[derive(Debug, Clone, PartialEq, Eq)]
pub enum PropValue {
    Str(String),
    Bool(bool),
    I64(i64),
    /// Any other kind of value.
    Other,
}

/// Why a property dictionary could not be decoded.
#[derive(Debug, Clone, Copy, PartialEq, Eq, Structural)]
pub enum DecodeError {
    /// A required property is absent.
    MissingField,
    /// A required property holds a value of another kind.
    TypeMismatch,
}

/// A dictionary as it arrives on the bus: a list of (key, value) entries.
/// Where a key occurs more than once, the first entry counts.
pub type Entries<V> = Vec<(String, V)>;

/// Represents a boot environment object exposed on the bus.
#[derive(Debug, Clone, PartialEq, Eq)]
pub struct BootEnvironmentObject {
    /// The object path of this boot environment: its identity.
    pub path: String,
    /// The name of this boot environment.
    pub name: String,
    /// A description for this boot environment, if any.
    pub description: Option<String>,
    /// Whether the system is currently booted into this boot environment.
    pub active: bool,
    /// Whether the system will reboot into this environment.
    pub next_boot: bool,
    /// Whether the system will reboot into this environment temporarily.
    pub boot_once: bool,
    /// Unix timestamp for when this boot environment was created.
    pub created: i64,
}

/// The mathematical value of a [`BootEnvironmentObject`].
pub struct BootEnvironmentView {
    pub path: Seq<char>,
    pub name: Seq<char>,
    pub description: Option<Seq<char>>,
    pub active: bool,
    pub next_boot: bool,
    pub boot_once: bool,
    pub created: i64,
}

pub open spec fn opt_str_view(o: Option<String>) -> Option<Seq<char>> {
    match o {
        Some(s) => Some(s@),
        None => None,
    }
}

impl View for BootEnvironmentObject {
    type V = BootEnvironmentView;

    open spec fn view(&self) -> BootEnvironmentView {
        BootEnvironmentView {
            path: self.path@,
            name: self.name@,
            description: opt_str_view(self.description),
            active: self.active,
            next_boot: self.next_boot,
            boot_once: self.boot_once,
            created: self.created,
        }
    }
}

/// The views of a sequence of records, in the same order.
pub open spec fn views(s: Seq<BootEnvironmentObject>) -> Seq<BootEnvironmentView> {
    s.map_values(|r: BootEnvironmentObject| r@)
}

/// The index of the first entry at or after `from` whose key is `key`.
pub open spec fn first_key_index<V>(entries: Seq<(String, V)>, key: Seq<char>, from: int) -> Option<int>
    decreases entries.len() - from,
{
    if from < 0 || from >= entries.len() {
        None
    } else if entries[from].0@ == key {
        Some(from)
    } else {
        first_key_index(entries, key, from + 1)
    }
}

/// The value of the first entry whose key is `key`, if any.
pub open spec fn lookup<V>(entries: Seq<(String, V)>, key: Seq<char>) -> Option<V> {
    match first_key_index(entries, key, 0) {
        Some(i) => Some(entries[i].1),
        None => None,
    }
}

pub(crate) proof fn lemma_first_key_index_bounds<V>(entries: Seq<(String, V)>, key: Seq<char>, from: int)
    ensures
        match first_key_index(entries, key, from) {
            Some(i) => from <= i < entries.len() && entries[i].0@ == key,
            None => true,
        },
    decreases entries.len() - from,
{
    if 0 <= from < entries.len() && entries[from].0@ != key {
        lemma_first_key_index_bounds(entries, key, from + 1);
    }
}

/// Finds the index of the first entry whose key is `key`.
pub fn find_key<V>(entries: &Entries<V>, key: &String) -> (r: Option<usize>)
    ensures
        match r {
            Some(i) => first_key_index(entries@, key@, 0) == Some(i as int),
            None => first_key_index(entries@, key@, 0) is None,
        },
{
    let mut i: usize = 0;
    while i < entries.len()
        invariant
            i <= entries.len(),
            first_key_index(entries@, key@, 0) == first_key_index(entries@, key@, i as int),
        decreases entries.len() - i,
    {
        if entries[i].0 == *key {
            return Some(i);
        }
        i = i + 1;
    }
    None
}

pub open spec fn name_key() -> Seq<char> {
    "Name"@
}

pub open spec fn description_key() -> Seq<char> {
    "Description"@
}

pub open spec fn active_key() -> Seq<char> {
    "Active"@
}

pub open spec fn next_boot_key() -> Seq<char> {
    "NextBoot"@
}

pub open spec fn boot_once_key() -> Seq<char> {
    "BootOnce"@
}

pub open spec fn created_key() -> Seq<char> {
    "Created"@
}

/// The string held under `key`, or why there is none.
pub open spec fn str_prop(props: Seq<(String, PropValue)>, key: Seq<char>) -> Result<Seq<char>, DecodeError> {
    match lookup(props, key) {
        None => Err(DecodeError::MissingField),
        Some(PropValue::Str(s)) => Ok(s@),
        Some(_) => Err(DecodeError::TypeMismatch),
    }
}

/// The boolean held under `key`, or why there is none.
pub open spec fn bool_prop(props: Seq<(String, PropValue)>, key: Seq<char>) -> Result<bool, DecodeError> {
    match lookup(props, key) {
        None => Err(DecodeError::MissingField),
        Some(PropValue::Bool(b)) => Ok(b),
        Some(_) => Err(DecodeError::TypeMismatch),
    }
}

/// The 64-bit integer held under `key`, or why there is none.
pub open spec fn i64_prop(props: Seq<(String, PropValue)>, key: Seq<char>) -> Result<i64, DecodeError> {
    match lookup(props, key) {
        None => Err(DecodeError::MissingField),
        Some(PropValue::I64(n)) => Ok(n),
        Some(_) => Err(DecodeError::TypeMismatch),
    }
}

/// An empty description on the wire means that there is none.
pub open spec fn description_of(s: Seq<char>) -> Option<Seq<char>> {
    if s.len() == 0 {
        None
    } else {
        Some(s)
    }
}

/// The record that a property dictionary describes. The properties are read
/// in a fixed order (description, name, active, next boot, boot once,
/// created), and the first one that fails decides the error.
pub open spec fn decode(path: Seq<char>, props: Seq<(String, PropValue)>) -> Result<BootEnvironmentView, DecodeError> {
    match str_prop(props, description_key()) {
        Err(e) => Err(e),
        Ok(desc) => match str_prop(props, name_key()) {
            Err(e) => Err(e),
            Ok(name) => match bool_prop(props, active_key()) {
                Err(e) => Err(e),
                Ok(active) => match bool_prop(props, next_boot_key()) {
                    Err(e) => Err(e),
                    Ok(next_boot) => match bool_prop(props, boot_once_key()) {
                        Err(e) => Err(e),
                        Ok(boot_once) => match i64_prop(props, created_key()) {
                            Err(e) => Err(e),
                            Ok(created) => Ok(
                                BootEnvironmentView {
                                    path,
                                    name,
                                    description: description_of(desc),
                                    active,
                                    next_boot,
                                    boot_once,
                                    created,
                                },
                            ),
                        },
                    },
                },
            },
        },
    }
}

/// Relates an executable decoding result to its model.
pub open spec fn decoded_as(r: Result<BootEnvironmentObject, DecodeError>, m: Result<BootEnvironmentView, DecodeError>) -> bool {
    match (r, m) {
        (Ok(o), Ok(v)) => o@ == v,
        (Err(e), Err(f)) => e == f,
        _ => false,
    }
}

/// Decoding is total on well-formed dictionaries: where all six required
/// properties are present with the right kinds, the record holds exactly
/// those values.
pub proof fn lemma_decode_total(path: Seq<char>, props: Seq<(String, PropValue)>)
    requires
        str_prop(props, description_key()) is Ok,
        str_prop(props, name_key()) is Ok,
        bool_prop(props, active_key()) is Ok,
        bool_prop(props, next_boot_key()) is Ok,
        bool_prop(props, boot_once_key()) is Ok,
        i64_prop(props, created_key()) is Ok,
    ensures
        decode(path, props) == Ok::<BootEnvironmentView, DecodeError>(
            BootEnvironmentView {
                path,
                name: str_prop(props, name_key())->Ok_0,
                description: description_of(str_prop(props, description_key())->Ok_0),
                active: bool_prop(props, active_key())->Ok_0,
                next_boot: bool_prop(props, next_boot_key())->Ok_0,
                boot_once: bool_prop(props, boot_once_key())->Ok_0,
                created: i64_prop(props, created_key())->Ok_0,
            },
        ),
{
}

/// A dictionary that lacks one of the six required properties fails to
/// decode: no partial record comes out.
pub proof fn lemma_decode_missing(path: Seq<char>, props: Seq<(String, PropValue)>, key: Seq<char>)
    requires
        key == description_key() || key == name_key() || key == active_key()
            || key == next_boot_key() || key == boot_once_key() || key == created_key(),
        lookup(props, key) is None,
    ensures
        decode(path, props) is Err,
{
}

/// An empty description decodes to no description, and any other string to
/// itself.
pub proof fn lemma_decode_description(path: Seq<char>, props: Seq<(String, PropValue)>, desc: String)
    requires
        lookup(props, description_key()) == Some(PropValue::Str(desc)),
        str_prop(props, name_key()) is Ok,
        bool_prop(props, active_key()) is Ok,
        bool_prop(props, next_boot_key()) is Ok,
        bool_prop(props, boot_once_key()) is Ok,
        i64_prop(props, created_key()) is Ok,
    ensures
        decode(path, props) is Ok,
        desc@.len() == 0 ==> decode(path, props)->Ok_0.description is None,
        desc@.len() > 0 ==> decode(path, props)->Ok_0.description == Some(desc@),
{
}

fn get_str(props: &Entries<PropValue>, key: &str) -> (r: Result<String, DecodeError>)
    ensures
        match (r, str_prop(props@, key@)) {
            (Ok(s), Ok(t)) => s@ == t,
            (Err(e), Err(f)) => e == f,
            _ => false,
        },
{
    let k = key.to_owned();
    match find_key(props, &k) {
        None => Err(DecodeError::MissingField),
        Some(i) => {
            proof {
                lemma_first_key_index_bounds(props@, key@, 0);
            }
            match &props[i].1 {
                PropValue::Str(s) => Ok(s.clone()),
                _ => Err(DecodeError::TypeMismatch),
            }
        },
    }
}

fn get_bool(props: &Entries<PropValue>, key: &str) -> (r: Result<bool, DecodeError>)
    ensures
        r == bool_prop(props@, key@),
{
    let k = key.to_owned();
    match find_key(props, &k) {
        None => Err(DecodeError::MissingField),
        Some(i) => {
            proof {
                lemma_first_key_index_bounds(props@, key@, 0);
            }
            match &props[i].1 {
                PropValue::Bool(b) => Ok(*b),
                _ => Err(DecodeError::TypeMismatch),
            }
        },
    }
}

fn get_i64(props: &Entries<PropValue>, key: &str) -> (r: Result<i64, DecodeError>)
    ensures
        r == i64_prop(props@, key@),
{
    let k = key.to_owned();
    match find_key(props, &k) {
        None => Err(DecodeError::MissingField),
        Some(i) => {
            proof {
                lemma_first_key_index_bounds(props@, key@, 0);
            }
            match &props[i].1 {
                PropValue::I64(n) => Ok(*n),
                _ => Err(DecodeError::TypeMismatch),
            }
        },
    }
}

impl BootEnvironmentObject {
    /// Construct a BootEnvironmentObject from a dictionary of properties.
    /// Decoding is all or nothing: a missing or mistyped required property
    /// fails the whole record.
    pub fn from_properties(path: String, props: &Entries<PropValue>) -> (r: Result<Self, DecodeError>)
        ensures
            decoded_as(r, decode(path@, props@)),
    {
        let description_str = match get_str(props, "Description") {
            Ok(s) => s,
            Err(e) => return Err(e),
        };
        let description = if description_str.as_str().is_empty() {
            None
        } else {
            Some(description_str)
        };
        let name = match get_str(props, "Name") {
            Ok(s) => s,
            Err(e) => return Err(e),
        };
        let active = match get_bool(props, "Active") {
            Ok(b) => b,
            Err(e) => return Err(e),
        };
        let next_boot = match get_bool(props, "NextBoot") {
            Ok(b) => b,
            Err(e) => return Err(e),
        };
        let boot_once = match get_bool(props, "BootOnce") {
            Ok(b) => b,
            Err(e) => return Err(e),
        };
        let created = match get_i64(props, "Created") {
            Ok(n) => n,
            Err(e) => return Err(e),
        };
        Ok(BootEnvironmentObject { path, name, description, active, next_boot, boot_once, created })
    }
}

} // verus!
