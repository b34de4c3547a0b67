//! The header fields of a message, kept in an `http::HeaderMap`.
//!
//! A header map is seen as the sequence of its names, in the order in which they were first added,
//! each with its values in the order in which they were added.
use vstd::prelude::*;

use crate::text::{is_tchar, is_token, lower_char};

verus! {

/// The names of a header map with their values.
pub type HeaderSeq = Seq<(Seq<char>, Seq<Seq<u8>>)>;

/// The most names that a header map of this library holds.
///
/// An `http::HeaderMap` may refuse a further name once five times its number of names reaches its
/// maximum table size of 32768.
pub const MAX_HEADER_NAMES: usize = 6553;

/// The name under which a header field called `s` is kept: its lower-case form, where it is a
/// token of at most 65535 characters.
pub open spec fn header_name(s: Seq<char>) -> Option<Seq<char>> {
    if is_token(s) && s.len() <= 65535 {
        Some(s.map_values(|c: char| lower_char(c)))
    } else {
        None
    }
}

/// The bytes may stand as a header value: no control character but the tab.
pub open spec fn is_header_value(value: Seq<u8>) -> bool {
    forall|i: int| 0 <= i < value.len() ==> is_value_byte(#[trigger] value[i])
}

/// The byte may stand in a header value.
pub open spec fn is_value_byte(b: u8) -> bool {
    b >= 32 && b != 127 || b == 9
}

/// The byte may stand in a header value and is ASCII.
pub open spec fn is_visible_byte(b: u8) -> bool {
    32 <= b < 127 || b == 9
}

/// The header value is readable as text: visible ASCII, blanks and tabs only.
pub open spec fn is_visible_text(value: Seq<u8>) -> bool {
    forall|i: int| 0 <= i < value.len() ==> is_visible_byte(#[trigger] value[i])
}

/// The map has a value under `name`.
pub open spec fn has_name(headers: HeaderSeq, name: Seq<char>) -> bool {
    exists|i: int| 0 <= i < headers.len() && (#[trigger] headers[i]).0 == name
}

/// The place of `name` among the names of the map.
pub open spec fn place_of(headers: HeaderSeq, name: Seq<char>) -> int {
    choose|i: int| 0 <= i < headers.len() && (#[trigger] headers[i]).0 == name
}

/// The map after a value was added behind the other values of its name.
pub open spec fn appended(headers: HeaderSeq, name: Seq<char>, value: Seq<u8>) -> HeaderSeq {
    if has_name(headers, name) {
        let i = place_of(headers, name);
        headers.update(i, (name, headers[i].1.push(value)))
    } else {
        headers.push((name, seq![value]))
    }
}

/// The map after a value took the place of all values of its name.
pub open spec fn inserted(headers: HeaderSeq, name: Seq<char>, value: Seq<u8>) -> HeaderSeq {
    if has_name(headers, name) {
        headers.update(place_of(headers, name), (name, seq![value]))
    } else {
        headers.push((name, seq![value]))
    }
}

/// The first value of a field, looked up by any spelling of its name.
pub open spec fn value_of(headers: HeaderSeq, field: Seq<char>) -> Option<Seq<u8>> {
    match header_name(field) {
        Some(name) => if has_name(headers, name) {
            Some(headers[place_of(headers, name)].1[0])
        } else {
            None
        },
        None => None,
    }
}

/// The map has a field, looked up by any spelling of its name.
pub open spec fn has_field(headers: HeaderSeq, field: Seq<char>) -> bool {
    match header_name(field) {
        Some(name) => has_name(headers, name),
        None => false,
    }
}

/// One pair of name and value for each value of a name.
pub open spec fn pairs(name: Seq<char>, values: Seq<Seq<u8>>) -> Seq<(Seq<char>, Seq<u8>)> {
    values.map_values(|v: Seq<u8>| (name, v))
}

/// All pairs of name and value of a map, name by name.
pub open spec fn flattened(headers: HeaderSeq) -> Seq<(Seq<char>, Seq<u8>)>
    decreases headers.len(),
{
    if headers.len() == 0 {
        seq![]
    } else {
        flattened(headers.drop_last()) + pairs(headers.last().0, headers.last().1)
    }
}

/// The map that results from adding pairs of name and value one after the other.
pub open spec fn built(list: Seq<(Seq<char>, Seq<u8>)>) -> HeaderSeq
    decreases list.len(),
{
    if list.len() == 0 {
        seq![]
    } else {
        appended(built(list.drop_last()), header_name(list.last().0)->0, list.last().1)
    }
}

/// Every pair of the list can be added to a map.
pub open spec fn all_addable(list: Seq<(Seq<char>, Seq<u8>)>) -> bool {
    forall|i: int|
        0 <= i < list.len() ==> header_name((#[trigger] list[i]).0) is Some && is_header_value(
            list[i].1,
        )
}

/// No name stands twice, each name is in its kept form and has at least one value, and every
/// value is a header value.
pub open spec fn well_formed(headers: HeaderSeq) -> bool {
    &&& headers.len() <= MAX_HEADER_NAMES
    &&& forall|i: int, j: int|
        0 <= i < j < headers.len() ==> (#[trigger] headers[i]).0 != (#[trigger] headers[j]).0
    &&& forall|i: int| 0 <= i < headers.len() ==> entry_well_formed(#[trigger] headers[i])
}

/// A name in its kept form, with at least one value, all of them header values.
pub open spec fn entry_well_formed(entry: (Seq<char>, Seq<Seq<u8>>)) -> bool {
    &&& header_name(entry.0) == Some(entry.0)
    &&& entry.1.len() > 0
    &&& forall|k: int| 0 <= k < entry.1.len() ==> is_header_value(#[trigger] entry.1[k])
}

/// The pairs that a vector of names and values holds.
pub open spec fn list_view(list: Seq<(String, Vec<u8>)>) -> Seq<(Seq<char>, Seq<u8>)> {
    list.map_values(|e: (String, Vec<u8>)| (e.0@, e.1@))
}

/// `http::HeaderMap`. Proofs see nothing of it but what `header_entries` names.
#[verifier::external_type_specification]
#[verifier::external_body]
#[verifier::reject_recursive_types(T)]
pub struct ExHeaderMap<T>(http::HeaderMap<T>);

/// `http::HeaderValue`. Proofs see nothing of it.
#[verifier::external_type_specification]
#[verifier::external_body]
pub struct ExHeaderValue(http::HeaderValue);

/// What an `http::HeaderMap` holds: its names in the order in which its iterator gives them, each
/// with its values in that order.
pub uninterp spec fn header_entries(map: http::HeaderMap) -> HeaderSeq;

/// `http::HeaderMap::new`: the map is empty.
#[verifier::external_body]
fn map_new() -> (map: http::HeaderMap)
    ensures
        header_entries(map) == Seq::<(Seq<char>, Seq<Seq<u8>>)>::empty(),
{
    http::HeaderMap::new()
}

/// `http::HeaderMap::append` under `http::HeaderName::from_bytes(name)`: the value is added behind
/// the other values of the name, or under a new last name.
///
/// It panics where the map is full, which needs more than `MAX_HEADER_NAMES` names.
#[verifier::external_body]
fn map_append(map: &mut http::HeaderMap, name: &str, value: &[u8])
    requires
        header_name(name@) is Some,
        is_header_value(value@),
        header_entries(*old(map)).len() <= MAX_HEADER_NAMES,
    ensures
        header_entries(*final(map)) == appended(
            header_entries(*old(map)),
            header_name(name@)->0,
            value@,
        ),
{
    let key = http::HeaderName::from_bytes(name.as_bytes()).unwrap();
    map.append(key, http::HeaderValue::from_bytes(value).unwrap());
}

/// `http::HeaderMap::insert` of a static name: the value takes the place of all values of the
/// name, or stands under a new last name.
///
/// It panics where the map is full, which needs more than `MAX_HEADER_NAMES` names.
#[verifier::external_body]
fn map_insert(map: &mut http::HeaderMap, name: &'static str, value: &[u8])
    requires
        header_name(name@) is Some,
        is_header_value(value@),
        header_entries(*old(map)).len() <= MAX_HEADER_NAMES,
    ensures
        header_entries(*final(map)) == inserted(
            header_entries(*old(map)),
            header_name(name@)->0,
            value@,
        ),
{
    map.insert(name, http::HeaderValue::from_bytes(value).unwrap());
}

/// `http::HeaderMap::get`: the first value of the field, whatever the case of the given name.
#[verifier::external_body]
fn map_get<'a>(map: &'a http::HeaderMap, name: &str) -> (value: Option<&'a [u8]>)
    ensures
        match value {
            Some(bytes) => value_of(header_entries(*map), name@) == Some(bytes@),
            None => value_of(header_entries(*map), name@) is None,
        },
{
    map.get(name).map(|value| value.as_bytes())
}

/// `http::HeaderMap::contains_key`: whether the map has the field, whatever the case of the given
/// name.
#[verifier::external_body]
fn map_contains_key(map: &http::HeaderMap, name: &str) -> (found: bool)
    ensures
        found == has_field(header_entries(*map), name@),
{
    map.contains_key(name)
}

/// `http::HeaderMap::iter`: every pair of name and value, name by name.
#[verifier::external_body]
fn map_list(map: &http::HeaderMap) -> (list: Vec<(String, Vec<u8>)>)
    ensures
        list_view(list@) == flattened(header_entries(*map)),
{
    map.iter().map(|(name, value)| (name.as_str().to_string(), value.as_bytes().to_vec())).collect()
}

/// `Clone` of `http::HeaderMap`: a map with the same contents.
#[verifier::external_body]
fn map_clone(map: &http::HeaderMap) -> (copy: http::HeaderMap)
    ensures
        header_entries(copy) == header_entries(*map),
{
    map.clone()
}

/// `http::HeaderName::from_bytes`: whether the text is a header name.
#[verifier::external_body]
pub(crate) fn accepts_name(name: &str) -> (accepted: bool)
    ensures
        accepted == (header_name(name@) is Some),
{
    http::HeaderName::from_bytes(name.as_bytes()).is_ok()
}

/// `http::HeaderValue::from_bytes`: whether the bytes are a header value.
#[verifier::external_body]
pub(crate) fn accepts_value(value: &[u8]) -> (accepted: bool)
    ensures
        accepted == is_header_value(value@),
{
    http::HeaderValue::from_bytes(value).is_ok()
}

/// The header fields of a message.
pub struct Headers {
    map: http::HeaderMap,
}

impl View for Headers {
    type V = HeaderSeq;

    closed spec fn view(&self) -> HeaderSeq {
        header_entries(self.map)
    }
}

impl Headers {
    /// No field yet.
    pub fn new() -> (headers: Headers)
        ensures
            headers@ == Seq::<(Seq<char>, Seq<Seq<u8>>)>::empty(),
            well_formed(headers@),
    {
        Headers { map: map_new() }
    }

    /// Adds a value behind the other values of its name.
    pub fn append(&mut self, name: &str, value: &[u8])
        requires
            well_formed(old(self)@),
            header_name(name@) is Some,
            is_header_value(value@),
            old(self)@.len() < MAX_HEADER_NAMES || has_field(old(self)@, name@),
        ensures
            final(self)@ == appended(old(self)@, header_name(name@)->0, value@),
            well_formed(final(self)@),
    {
        proof {
            lemma_appended_well_formed(self@, name@, value@);
        }
        map_append(&mut self.map, name, value);
    }

    /// Lets a value take the place of all values of its name.
    pub fn insert(&mut self, name: &'static str, value: &[u8])
        requires
            well_formed(old(self)@),
            header_name(name@) is Some,
            is_header_value(value@),
            old(self)@.len() < MAX_HEADER_NAMES || has_field(old(self)@, name@),
        ensures
            final(self)@ == inserted(old(self)@, header_name(name@)->0, value@),
            well_formed(final(self)@),
    {
        proof {
            lemma_inserted_well_formed(self@, name@, value@);
        }
        map_insert(&mut self.map, name, value);
    }

    /// The first value of a field.
    pub fn get(&self, name: &str) -> (value: Option<&[u8]>)
        ensures
            match value {
                Some(bytes) => value_of(self@, name@) == Some(bytes@),
                None => value_of(self@, name@) is None,
            },
    {
        map_get(&self.map, name)
    }

    /// Whether there is such a field.
    pub fn contains_key(&self, name: &str) -> (found: bool)
        ensures
            found == has_field(self@, name@),
    {
        map_contains_key(&self.map, name)
    }

    /// Every pair of name and value, name by name.
    pub fn list(&self) -> (list: Vec<(String, Vec<u8>)>)
        ensures
            list_view(list@) == flattened(self@),
    {
        map_list(&self.map)
    }

    /// A copy with the same fields.
    pub fn copy(&self) -> (copy: Headers)
        ensures
            copy@ == self@,
    {
        Headers { map: map_clone(&self.map) }
    }

    /// The fields that result from adding pairs of name and value one after the other.
    pub fn from_list(list: &Vec<(String, Vec<u8>)>) -> (headers: Headers)
        requires
            all_addable(list_view(list@)),
            built(list_view(list@)).len() <= MAX_HEADER_NAMES,
        ensures
            headers@ == built(list_view(list@)),
            well_formed(headers@),
    {
        let ghost pairs = list_view(list@);
        let mut headers = Headers::new();
        let mut i: usize = 0;
        assert(pairs.take(0) =~= Seq::<(Seq<char>, Seq<u8>)>::empty());
        while i < list.len()
            invariant
                pairs == list_view(list@),
                all_addable(pairs),
                built(pairs).len() <= MAX_HEADER_NAMES,
                i <= list@.len(),
                headers@ == built(pairs.take(i as int)),
                well_formed(headers@),
            decreases list@.len() - i,
        {
            let name = &list[i].0;
            let value = &list[i].1;
            proof {
                let next = pairs.take(i + 1);
                assert(next.drop_last() =~= pairs.take(i as int));
                assert(next.last() == pairs[i as int]);
                assert(pairs[i as int] == (name@, value@));
                lemma_built_grows(pairs, i + 1);
            }
            headers.append(name.as_str(), value.as_slice());
            i = i + 1;
        }
        assert(pairs.take(pairs.len() as int) =~= pairs);
        headers
    }
}

/// The kept form of a name is its own kept form.
pub proof fn lemma_kept_name(s: Seq<char>)
    requires
        header_name(s) is Some,
    ensures
        header_name(header_name(s)->0) == header_name(s),
        header_name(s)->0.len() == s.len(),
{
    let name = header_name(s)->0;
    assert forall|i: int| 0 <= i < name.len() implies is_tchar(#[trigger] name[i]) && lower_char(
        name[i],
    ) == name[i] by {
        assert(is_tchar(s[i]));
        assert(name[i] == lower_char(s[i]));
    }
    assert(name.map_values(|c: char| lower_char(c)) =~= name);
}

/// In a well-formed map, a name has one place.
pub proof fn lemma_one_place(headers: HeaderSeq, i: int)
    requires
        well_formed(headers),
        0 <= i < headers.len(),
    ensures
        has_name(headers, headers[i].0),
        place_of(headers, headers[i].0) == i,
{
    let p = place_of(headers, headers[i].0);
    assert(0 <= p < headers.len() && headers[p].0 == headers[i].0);
}

proof fn lemma_appended_well_formed(headers: HeaderSeq, field: Seq<char>, value: Seq<u8>)
    requires
        well_formed(headers),
        header_name(field) is Some,
        is_header_value(value),
        headers.len() < MAX_HEADER_NAMES || has_field(headers, field),
    ensures
        well_formed(appended(headers, header_name(field)->0, value)),
{
    let name = header_name(field)->0;
    lemma_kept_name(field);
    let after = appended(headers, name, value);
    if has_name(headers, name) {
        let p = place_of(headers, name);
        assert(entry_well_formed(headers[p]));
        let values = headers[p].1.push(value);
        assert forall|k: int| 0 <= k < values.len() implies is_header_value(
            #[trigger] values[k],
        ) by {
            if k < headers[p].1.len() {
                assert(values[k] == headers[p].1[k]);
            }
        }
        assert forall|i: int| 0 <= i < after.len() implies entry_well_formed(
            #[trigger] after[i],
        ) by {
            if i != p {
                assert(after[i] == headers[i]);
            }
        }
        assert forall|i: int, j: int| 0 <= i < j < after.len() implies (#[trigger] after[i]).0 != (
        #[trigger] after[j]).0 by {
            assert(after[i].0 == headers[i].0);
            assert(after[j].0 == headers[j].0);
        }
    } else {
        let values: Seq<Seq<u8>> = seq![value];
        assert(entry_well_formed((name, values)));
        assert forall|i: int| 0 <= i < after.len() implies entry_well_formed(
            #[trigger] after[i],
        ) by {
            if i < headers.len() {
                assert(after[i] == headers[i]);
            }
        }
    }
}

proof fn lemma_inserted_well_formed(headers: HeaderSeq, field: Seq<char>, value: Seq<u8>)
    requires
        well_formed(headers),
        header_name(field) is Some,
        is_header_value(value),
        headers.len() < MAX_HEADER_NAMES || has_field(headers, field),
    ensures
        well_formed(inserted(headers, header_name(field)->0, value)),
{
    let name = header_name(field)->0;
    lemma_kept_name(field);
    let after = inserted(headers, name, value);
    let values: Seq<Seq<u8>> = seq![value];
    assert(entry_well_formed((name, values)));
    if has_name(headers, name) {
        let p = place_of(headers, name);
        assert forall|i: int| 0 <= i < after.len() implies entry_well_formed(
            #[trigger] after[i],
        ) by {
            if i != p {
                assert(after[i] == headers[i]);
            }
        }
        assert forall|i: int, j: int| 0 <= i < j < after.len() implies (#[trigger] after[i]).0 != (
        #[trigger] after[j]).0 by {
            assert(after[i].0 == headers[i].0);
            assert(after[j].0 == headers[j].0);
        }
    } else {
        assert forall|i: int| 0 <= i < after.len() implies entry_well_formed(
            #[trigger] after[i],
        ) by {
            if i < headers.len() {
                assert(after[i] == headers[i]);
            }
        }
    }
}

/// Adding more pairs never takes a name away.
proof fn lemma_built_grows(list: Seq<(Seq<char>, Seq<u8>)>, n: int)
    requires
        0 <= n <= list.len(),
    ensures
        built(list.take(n)).len() <= built(list).len(),
    decreases list.len() - n,
{
    if n == list.len() {
        assert(list.take(n) =~= list);
    } else {
        lemma_built_grows(list, n + 1);
        assert(list.take(n + 1).drop_last() =~= list.take(n));
    }
}

/// There are at most as many names as pairs were added.
pub proof fn lemma_built_len(list: Seq<(Seq<char>, Seq<u8>)>)
    ensures
        built(list).len() <= list.len(),
    decreases list.len(),
{
    if list.len() > 0 {
        lemma_built_len(list.drop_last());
    }
}

proof fn lemma_prefix_well_formed(headers: HeaderSeq)
    requires
        well_formed(headers),
        headers.len() > 0,
    ensures
        well_formed(headers.drop_last()),
        !has_name(headers.drop_last(), headers.last().0),
{
    let rest = headers.drop_last();
    assert forall|i: int| 0 <= i < rest.len() implies entry_well_formed(#[trigger] rest[i])
        && rest[i].0 != headers.last().0 by {
        assert(rest[i] == headers[i]);
    }
    assert forall|i: int, j: int| 0 <= i < j < rest.len() implies (#[trigger] rest[i]).0 != (
    #[trigger] rest[j]).0 by {
        assert(rest[i] == headers[i] && rest[j] == headers[j]);
    }
}

/// The value of the pair stands under its name.
pub open spec fn has_pair(headers: HeaderSeq, pair: (Seq<char>, Seq<u8>)) -> bool {
    exists|i: int, k: int|
        0 <= i < headers.len() && 0 <= k < headers[i].1.len() && pair == (
            headers[i].0,
            #[trigger] headers[i].1[k],
        )
}

/// The pairs in the list of all pairs are those whose value stands under its name.
pub proof fn lemma_flattened(headers: HeaderSeq, pair: (Seq<char>, Seq<u8>))
    ensures
        flattened(headers).contains(pair) <==> has_pair(headers, pair),
    decreases headers.len(),
{
    if headers.len() > 0 {
        let rest = headers.drop_last();
        let last = headers.last();
        let before = flattened(rest);
        let behind = pairs(last.0, last.1);
        let all = flattened(headers);
        lemma_flattened(rest, pair);
        if all.contains(pair) {
            let j = all.index_of(pair);
            if j < before.len() {
                assert(before[j] == pair);
                let (i, k) = choose|i: int, k: int|
                    0 <= i < rest.len() && 0 <= k < rest[i].1.len() && pair == (
                        rest[i].0,
                        #[trigger] rest[i].1[k],
                    );
                assert(pair == (headers[i].0, headers[i].1[k]));
            } else {
                let i = headers.len() - 1;
                let k = j - before.len();
                assert(pair == behind[k]);
                assert(pair == (headers[i].0, headers[i].1[k]));
            }
        }
        if has_pair(headers, pair) {
            let (i, k) = choose|i: int, k: int|
                0 <= i < headers.len() && 0 <= k < headers[i].1.len() && pair == (
                    headers[i].0,
                    #[trigger] headers[i].1[k],
                );
            if i < rest.len() {
                assert(pair == (rest[i].0, rest[i].1[k]));
                let j = before.index_of(pair);
                assert(all[j] == pair);
            } else {
                assert(behind[k] == pair);
                assert(all[before.len() + k] == pair);
            }
        }
    }
}

/// Changing the values of one name changes the number of pairs by as much as the number of values.
proof fn lemma_flattened_update(headers: HeaderSeq, p: int, entry: (Seq<char>, Seq<Seq<u8>>))
    requires
        0 <= p < headers.len(),
    ensures
        flattened(headers.update(p, entry)).len() == flattened(headers).len() - headers[p].1.len()
            + entry.1.len(),
    decreases headers.len(),
{
    let after = headers.update(p, entry);
    if p == headers.len() - 1 {
        assert(after.drop_last() =~= headers.drop_last());
    } else {
        lemma_flattened_update(headers.drop_last(), p, entry);
        assert(after.drop_last() =~= headers.drop_last().update(p, entry));
    }
}

/// There are as many pairs as were added.
pub proof fn lemma_built_pairs(list: Seq<(Seq<char>, Seq<u8>)>)
    ensures
        flattened(built(list)).len() == list.len(),
    decreases list.len(),
{
    if list.len() > 0 {
        let before = built(list.drop_last());
        let name = header_name(list.last().0)->0;
        let value = list.last().1;
        lemma_built_pairs(list.drop_last());
        if has_name(before, name) {
            let p = place_of(before, name);
            assert(0 <= p < before.len() && before[p].0 == name);
            lemma_flattened_update(before, p, (name, before[p].1.push(value)));
        } else {
            let after = before.push((name, seq![value]));
            assert(after.drop_last() =~= before);
        }
    }
}

/// Adding the first `n` values of a new name, pair by pair.
proof fn lemma_built_values(
    before: Seq<(Seq<char>, Seq<u8>)>,
    name: Seq<char>,
    values: Seq<Seq<u8>>,
)
    requires
        well_formed(built(before)),
        header_name(name) == Some(name),
        !has_name(built(before), name),
        values.len() > 0,
    ensures
        built(before + pairs(name, values)) == built(before).push((name, values)),
    decreases values.len(),
{
    let rest = values.drop_last();
    let all = before + pairs(name, values);
    assert(all.drop_last() =~= before + pairs(name, rest));
    assert(all.last() == (name, values.last()));
    let base = built(before);
    if rest.len() == 0 {
        assert(before + pairs(name, rest) =~= before);
        assert(seq![values.last()] =~= values);
    } else {
        lemma_built_values(before, name, rest);
        let mid = base.push((name, rest));
        assert(mid[base.len() as int].0 == name);
        assert(has_name(mid, name));
        let p = place_of(mid, name);
        assert(0 <= p < mid.len() && mid[p].0 == name);
        assert(p == base.len()) by {
            if p < base.len() {
                assert(base[p].0 == name);
            }
        }
        assert(rest.push(values.last()) =~= values);
        assert(mid.update(p, (name, values)) =~= base.push((name, values)));
    }
}

/// Adding all pairs of a map, in their order, to an empty map gives the map back.
pub proof fn law_rebuilt_from_pairs(headers: HeaderSeq)
    requires
        well_formed(headers),
    ensures
        built(flattened(headers)) == headers,
        all_addable(flattened(headers)),
    decreases headers.len(),
{
    if headers.len() > 0 {
        let rest = headers.drop_last();
        let last = headers.last();
        lemma_prefix_well_formed(headers);
        law_rebuilt_from_pairs(rest);
        assert(entry_well_formed(last));
        lemma_built_values(flattened(rest), last.0, last.1);
        assert(rest.push(last) =~= headers);
        let all = flattened(headers);
        let before = flattened(rest);
        assert forall|i: int| 0 <= i < all.len() implies header_name((#[trigger] all[i]).0) is Some
            && is_header_value(all[i].1) by {
            if i < before.len() {
                assert(all[i] == before[i]);
            } else {
                assert(all[i] == (last.0, last.1[i - before.len()]));
            }
        }
    } else {
        assert(headers =~= Seq::<(Seq<char>, Seq<Seq<u8>>)>::empty());
    }
}

/// After a value was inserted, its field has that value first, and every other field has the
/// value it had.
pub proof fn law_insert_then_get(
    headers: HeaderSeq,
    field: Seq<char>,
    value: Seq<u8>,
    other: Seq<char>,
)
    requires
        well_formed(headers),
        header_name(field) is Some,
    ensures
        value_of(inserted(headers, header_name(field)->0, value), field) == Some(value),
        header_name(other) != header_name(field) ==> value_of(
            inserted(headers, header_name(field)->0, value),
            other,
        ) == value_of(headers, other),
{
    let name = header_name(field)->0;
    let after = inserted(headers, name, value);
    if has_name(headers, name) {
        let p = place_of(headers, name);
        assert(after[p].0 == name);
        assert forall|i: int| 0 <= i < after.len() implies after[i].0 == headers[i].0 by {}
        let q = place_of(after, name);
        assert(0 <= q < after.len() && after[q].0 == name);
        assert(headers[q].0 == name);
        assert(q == p) by {
            lemma_one_place(headers, q);
        }
    } else {
        assert(after[headers.len() as int].0 == name);
        let q = place_of(after, name);
        assert(0 <= q < after.len() && after[q].0 == name);
        if q < headers.len() {
            assert(headers[q].0 == name);
        }
    }
    if let Some(o) = header_name(other) {
        if o != name {
            if has_name(headers, o) {
                let p = place_of(headers, o);
                assert(0 <= p < headers.len() && headers[p].0 == o);
                assert(after[p] == headers[p]);
                let q = place_of(after, o);
                assert(0 <= q < after.len() && after[q].0 == o);
                assert(q < headers.len() && headers[q].0 == o);
                lemma_one_place(headers, p);
                lemma_one_place(headers, q);
            } else if has_name(after, o) {
                let q = place_of(after, o);
                assert(0 <= q < after.len() && after[q].0 == o);
                assert(q < headers.len() && headers[q].0 == o);
            }
        }
    }
}

} // verus!
