//! Trusted declarations for the outside crates the library builds on:
//! indexmap's insertion-ordered set, dashmap's concurrent map, the regex
//! engine, and uuid generation; plus two small helpers over parts of std
//! that vstd does not specify. Each contract states only what the crate's
//! documentation promises; Verus believes these items without proof.

use crate::structures::MemView;
use crate::structures::Memory;
use crate::structures::OrderedSet;
use vstd::prelude::*;

verus! {

#[verifier::external_type_specification]
#[verifier::external_body]
#[verifier::reject_recursive_types(T)]
#[verifier::reject_recursive_types(S)]
pub struct ExIndexSet<T, S>(indexmap::IndexSet<T, S>);

/// The elements an `indexmap::IndexSet<String>` holds, in insertion order.
pub uninterp spec fn iset_elems(s: indexmap::IndexSet<String>) -> Seq<Seq<char>>;

/// Relies on indexmap::IndexSet::clone (nothing is assumed of the copy).
pub assume_specification<T, S>[ <indexmap::IndexSet<T, S> as Clone>::clone ](
    s: &indexmap::IndexSet<T, S>,
) -> indexmap::IndexSet<T, S> where T: Clone, S: Clone;

/// Relies on indexmap::IndexSet::new: an empty set.
#[verifier::external_body]
pub(crate) fn iset_new() -> (r: indexmap::IndexSet<String>)
    ensures
        iset_elems(r) == Seq::<Seq<char>>::empty(),
{
    indexmap::IndexSet::new()
}

/// Relies on indexmap::IndexSet::insert: appends a new value at the end,
/// keeping the existing order; a value already present is left where it
/// was, and `false` comes back.
#[verifier::external_body]
pub(crate) fn iset_insert(s: &mut indexmap::IndexSet<String>, value: String) -> (r: bool)
    ensures
        r == !iset_elems(*old(s)).contains(value@),
        r ==> iset_elems(*final(s)) == iset_elems(*old(s)).push(value@),
        !r ==> iset_elems(*final(s)) == iset_elems(*old(s)),
{
    s.insert(value)
}

/// Relies on indexmap::IndexSet::shift_remove: removes the value by
/// shifting the elements after it, preserving their relative order;
/// `false` and no change when the value is absent.
#[verifier::external_body]
pub(crate) fn iset_shift_remove(s: &mut indexmap::IndexSet<String>, value: &str) -> (r: bool)
    ensures
        r == iset_elems(*old(s)).contains(value@),
        iset_elems(*final(s)) == iset_elems(*old(s)).remove_value(value@),
{
    s.shift_remove(value)
}

/// Relies on indexmap::IndexSet::get_index_of: the position of the value
/// in insertion order, if it is present (the first position, which for a
/// set is the only one).
#[verifier::external_body]
pub(crate) fn iset_get_index_of(s: &indexmap::IndexSet<String>, value: &str) -> (r: Option<
    usize,
>)
    ensures
        match r {
            Some(i) => i < iset_elems(*s).len() && iset_elems(*s)[i as int] == value@ && (forall|
                j: int,
            | 0 <= j < i ==> iset_elems(*s)[j] != value@),
            None => !iset_elems(*s).contains(value@),
        },
{
    s.get_index_of(value)
}

/// Relies on indexmap::IndexSet::len: the number of elements.
#[verifier::external_body]
pub(crate) fn iset_len(s: &indexmap::IndexSet<String>) -> (r: usize)
    ensures
        r == iset_elems(*s).len(),
{
    s.len()
}

/// Relies on indexmap::IndexSet::iter: yields the elements in insertion
/// order; this helper clones each into a plain vector.
#[verifier::external_body]
pub(crate) fn iset_to_vec(s: &indexmap::IndexSet<String>) -> (r: Vec<String>)
    ensures
        r@.len() == iset_elems(*s).len(),
        forall|i: int| 0 <= i < r@.len() ==> r@[i]@ == iset_elems(*s)[i],
{
    s.iter().cloned().collect()
}

#[verifier::external_type_specification]
#[verifier::external_body]
#[verifier::reject_recursive_types(K)]
#[verifier::reject_recursive_types(V)]
#[verifier::reject_recursive_types(S)]
pub struct ExDashMap<K, V, S>(dashmap::DashMap<K, V, S>);

/// The entries a `dashmap::DashMap<String, Memory>` holds, keyed by the
/// id's characters.
pub uninterp spec fn mem_entries(m: dashmap::DashMap<String, Memory>) -> Map<Seq<char>, MemView>;

/// The contents of a `dashmap::DashMap<String, OrderedSet>`: for each cue,
/// the ordered ids its set holds.
pub uninterp spec fn set_entries(m: dashmap::DashMap<String, OrderedSet>) -> Map<
    Seq<char>,
    Seq<Seq<char>>,
>;

/// The empty id-to-memory map.
pub open spec fn empty_mem_map() -> Map<Seq<char>, MemView> {
    Map::empty()
}

/// The empty cue-to-ids map.
pub open spec fn empty_set_map() -> Map<Seq<char>, Seq<Seq<char>>> {
    Map::empty()
}

/// Relies on dashmap::DashMap::new: an empty map.
#[verifier::external_body]
pub(crate) fn dmm_new() -> (r: dashmap::DashMap<String, Memory>)
    ensures
        mem_entries(r) == empty_mem_map(),
{
    dashmap::DashMap::new()
}

/// Relies on dashmap::DashMap::insert: maps the key to the value, handing
/// back what the key mapped to before, if anything.
#[verifier::external_body]
pub(crate) fn dmm_insert(
    m: &mut dashmap::DashMap<String, Memory>,
    key: String,
    value: Memory,
) -> (r: Option<Memory>)
    ensures
        mem_entries(*final(m)) == mem_entries(*old(m)).insert(key@, value@),
        match r {
            Some(prev) => mem_entries(*old(m)).contains_key(key@) && prev@ == mem_entries(
                *old(m),
            )[key@],
            None => !mem_entries(*old(m)).contains_key(key@),
        },
{
    m.insert(key, value)
}

/// Relies on dashmap::DashMap::remove: removes the entry for the key and
/// hands it back, if it was there.
#[verifier::external_body]
pub(crate) fn dmm_remove(m: &mut dashmap::DashMap<String, Memory>, key: &str) -> (r: Option<
    Memory,
>)
    ensures
        mem_entries(*final(m)) == mem_entries(*old(m)).remove(key@),
        match r {
            Some(prev) => mem_entries(*old(m)).contains_key(key@) && prev@ == mem_entries(
                *old(m),
            )[key@],
            None => !mem_entries(*old(m)).contains_key(key@),
        },
{
    m.remove(key).map(|kv| kv.1)
}

/// Relies on dashmap::DashMap::get: the value for the key, if present;
/// this helper clones it out of the guard.
#[verifier::external_body]
pub(crate) fn dmm_get(m: &dashmap::DashMap<String, Memory>, key: &str) -> (r: Option<Memory>)
    ensures
        match r {
            Some(v) => mem_entries(*m).contains_key(key@) && v@ == mem_entries(*m)[key@],
            None => !mem_entries(*m).contains_key(key@),
        },
{
    m.get(key).map(|v| v.clone())
}

/// Relies on dashmap::DashMap::len: the number of entries.
#[verifier::external_body]
pub(crate) fn dmm_len(m: &dashmap::DashMap<String, Memory>) -> (r: usize)
    ensures
        r == mem_entries(*m).dom().len(),
{
    m.len()
}

/// Relies on dashmap::DashMap::iter: visits every entry exactly once; this
/// helper clones each into a plain vector, in no promised order.
#[verifier::external_body]
pub(crate) fn dmm_entries(m: &dashmap::DashMap<String, Memory>) -> (r: Vec<(String, Memory)>)
    ensures
        forall|i: int|
            0 <= i < r@.len() ==> #[trigger] mem_entries(*m).contains_key(r@[i].0@)
                && r@[i].1@ == mem_entries(*m)[r@[i].0@],
        forall|i: int, j: int| 0 <= i < j < r@.len() ==> r@[i].0@ != r@[j].0@,
        forall|k: Seq<char>|
            #[trigger] mem_entries(*m).contains_key(k) ==> exists|i: int|
                0 <= i < r@.len() && r@[i].0@ == k,
{
    m.iter().map(|e| (e.key().clone(), e.value().clone())).collect()
}

/// Relies on dashmap::DashMap::new: an empty map.
#[verifier::external_body]
pub(crate) fn dms_new() -> (r: dashmap::DashMap<String, OrderedSet>)
    ensures
        set_entries(r) == empty_set_map(),
{
    dashmap::DashMap::new()
}

/// Relies on dashmap::DashMap::insert: maps the key to the value.
#[verifier::external_body]
pub(crate) fn dms_insert(
    m: &mut dashmap::DashMap<String, OrderedSet>,
    key: String,
    value: OrderedSet,
)
    ensures
        set_entries(*final(m)) == set_entries(*old(m)).insert(key@, value.elems()),
{
    m.insert(key, value);
}

/// Relies on dashmap::DashMap::remove: removes the entry for the key and
/// hands it back, if it was there.
#[verifier::external_body]
pub(crate) fn dms_remove(m: &mut dashmap::DashMap<String, OrderedSet>, key: &str) -> (r: Option<
    OrderedSet,
>)
    ensures
        set_entries(*final(m)) == set_entries(*old(m)).remove(key@),
        match r {
            Some(prev) => set_entries(*old(m)).contains_key(key@) && prev.elems() == set_entries(
                *old(m),
            )[key@],
            None => !set_entries(*old(m)).contains_key(key@),
        },
{
    m.remove(key).map(|kv| kv.1)
}

/// Relies on dashmap::DashMap::get: the value for the key, if present;
/// this helper clones it out of the guard.
#[verifier::external_body]
pub(crate) fn dms_get(m: &dashmap::DashMap<String, OrderedSet>, key: &str) -> (r: Option<
    OrderedSet,
>)
    ensures
        match r {
            Some(v) => set_entries(*m).contains_key(key@) && v.elems() == set_entries(*m)[key@],
            None => !set_entries(*m).contains_key(key@),
        },
{
    m.get(key).map(|v| v.clone())
}

/// Relies on dashmap::DashMap::len: the number of entries.
#[verifier::external_body]
pub(crate) fn dms_len(m: &dashmap::DashMap<String, OrderedSet>) -> (r: usize)
    ensures
        r == set_entries(*m).dom().len(),
{
    m.len()
}

/// Relies on dashmap::DashMap::iter: visits every entry exactly once; this
/// helper clones each into a plain vector, in no promised order.
#[verifier::external_body]
pub(crate) fn dms_entries(m: &dashmap::DashMap<String, OrderedSet>) -> (r: Vec<
    (String, OrderedSet),
>)
    ensures
        forall|i: int|
            0 <= i < r@.len() ==> #[trigger] set_entries(*m).contains_key(r@[i].0@)
                && r@[i].1.elems() == set_entries(*m)[r@[i].0@],
        forall|i: int, j: int| 0 <= i < j < r@.len() ==> r@[i].0@ != r@[j].0@,
        forall|k: Seq<char>|
            #[trigger] set_entries(*m).contains_key(k) ==> exists|i: int|
                0 <= i < r@.len() && r@[i].0@ == k,
{
    m.iter().map(|e| (e.key().clone(), e.value().clone())).collect()
}

#[verifier::external_type_specification]
#[verifier::external_body]
pub struct ExRegex(regex::Regex);

/// The pattern a compiled `regex::Regex` was built from.
pub uninterp spec fn regex_pattern(re: regex::Regex) -> Seq<char>;

/// Whether `regex::Regex::new` accepts a pattern, as the regex crate
/// decides it: a function of the pattern alone under the default
/// configuration.
pub uninterp spec fn pattern_compiles(pat: Seq<char>) -> bool;

/// Whether the regular expression `pat` matches somewhere in `text`, as
/// the regex crate decides it.
pub uninterp spec fn regex_match_of(pat: Seq<char>, text: Seq<char>) -> bool;

/// The text after every non-overlapping match of `pat` in `text` is
/// replaced with `rep` (capture-group references expanded), as the regex
/// crate computes it.
pub uninterp spec fn regex_replace_of(pat: Seq<char>, text: Seq<char>, rep: Seq<char>) -> Seq<
    char,
>;

/// Relies on regex::Regex::new: compiles the pattern, or nothing when the
/// pattern is invalid; success depends on the pattern alone.
#[verifier::external_body]
pub(crate) fn regex_new(pat: &str) -> (r: Option<regex::Regex>)
    ensures
        r matches Some(re) ==> regex_pattern(re) == pat@,
        (r is Some) == pattern_compiles(pat@),
{
    regex::Regex::new(pat).ok()
}

/// Relies on regex::Regex::is_match: whether the haystack matches.
#[verifier::external_body]
pub(crate) fn regex_is_match(re: &regex::Regex, text: &str) -> (r: bool)
    ensures
        r == regex_match_of(regex_pattern(*re), text@),
{
    re.is_match(text)
}

/// Relies on regex::Regex::replace_all: replaces every match; a haystack
/// without a match comes back unchanged.
#[verifier::external_body]
pub(crate) fn regex_replace_all(re: &regex::Regex, text: &str, rep: &str) -> (r: String)
    ensures
        r@ == regex_replace_of(regex_pattern(*re), text@, rep@),
        !regex_match_of(regex_pattern(*re), text@) ==> r@ == text@,
{
    re.replace_all(text, rep).into_owned()
}

/// Relies on uuid::Uuid::new_v4: a fresh random uuid; hyphenated it is 36
/// characters. Nothing is promised about which value comes back.
#[verifier::external_body]
pub(crate) fn uuid_v4_string() -> (r: String)
    ensures
        r@.len() == 36,
{
    uuid::Uuid::new_v4().to_string()
}

/// The hyphenated version-5 uuid of a name in the OID namespace: a pure
/// digest of the name, as uuid::Uuid::new_v5 computes it.
pub uninterp spec fn uuid5_of(name: Seq<char>) -> Seq<char>;

/// Relies on uuid::Uuid::new_v5: the deterministic version-5 uuid of the
/// name's bytes in the OID namespace.
#[verifier::external_body]
pub(crate) fn uuid_v5_oid(name: &str) -> (r: String)
    ensures
        r@ == uuid5_of(name@),
        r@.len() == 36,
{
    uuid::Uuid::new_v5(&uuid::Uuid::NAMESPACE_OID, name.as_bytes()).to_string()
}

/// Relies on String::from_utf8: `Some` exactly when the bytes are valid
/// UTF-8, and then the string's UTF-8 form is the given bytes again.
#[verifier::external_body]
pub(crate) fn string_from_utf8(v: Vec<u8>) -> (r: Option<String>)
    ensures
        match r {
            Some(s) => vstd::utf8::encode_utf8(s@) == v@,
            None => true,
        },
{
    String::from_utf8(v).ok()
}

/// Relies on collect (FromIterator for Vec) over str::chars: the
/// characters of the string, in order.
#[verifier::external_body]
pub(crate) fn chars_of(s: &str) -> (r: Vec<char>)
    ensures
        r@ == s@,
{
    s.chars().collect()
}

/// Relies on collect (FromIterator for String) over characters: the
/// collected string holds exactly these characters.
#[verifier::external_body]
pub(crate) fn string_from_chars(v: &Vec<char>) -> (r: String)
    ensures
        r@ == v@,
{
    v.iter().collect()
}

/// Relies on char::from_u32: a character for every valid Unicode scalar
/// value (below the surrogate range or between it and the maximum), and
/// nothing otherwise; the character has exactly that scalar value.
#[verifier::external_body]
pub(crate) fn char_from_u32(u: u32) -> (r: Option<char>)
    ensures
        r matches Some(c) ==> c as u32 == u,
        r is Some <==> (u < 0xD800 || (0xE000 <= u && u < 0x110000)),
{
    char::from_u32(u)
}

} // verus!
