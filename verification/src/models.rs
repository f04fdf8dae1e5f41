use vstd::prelude::*;
use std::collections::HashMap;
use vstd::std_specs::hash::*;
use vstd::std_specs::iter::IteratorSpec;
use crate::names::{decode_name, decoded_name, name_decoded};
use crate::text::{
    ascii_lowercase, ascii_uppercase, eq_ignore_ascii_case, lemma_case_blind,
    lemma_ignoring_case_differs_only_in_letters, same_ignoring_ascii_case, same_letter_in_any_case,
};

verus! {

broadcast use vstd::std_specs::hash::group_hash_axioms;

/// A village of the world data (`village.txt`).
#[derive(Debug)]
pub struct Village {
    pub id: u32,
    pub name: String,
    pub x: u32,
    pub y: u32,
    pub player_id: u32,
    pub rank: u32,
}

/// A player of the world data (`player.txt`).
#[derive(Debug)]
pub struct Player {
    pub id: u32,
    pub name: String,
    pub tribe_id: u32,
    pub villages: u32,
    pub points: u32,
    pub rank: u32,
}

/// A tribe of the world data (`ally.txt`).
#[derive(Debug)]
pub struct Tribe {
    pub id: u32,
    pub name: String,
    pub tag: String,
    pub members: u32,
    pub villages: u32,
    pub points: u32,
    pub all_points: u32,
    pub rank: u32,
}

/// The world data: villages, players and tribes, each table keyed by id.
pub struct TribalWars {
    pub villages: HashMap<u32, Village>,
    pub players: HashMap<u32, Player>,
    pub tribes: HashMap<u32, Tribe>,
}

/// Which table of the world data held a name that does not decode.
#[derive(Debug, PartialEq, Eq, Clone, Copy)]
pub enum LoadError {
    Tribes,
    Players,
    Villages,
}

/// The table that inserting the records of `s` in order, each under its
/// key, leaves: a later record replaces an earlier one with the same key.
pub open spec fn keyed_table<T>(s: Seq<T>, key: spec_fn(T) -> u32) -> Map<u32, T>
    decreases s.len(),
{
    if s.len() == 0 {
        Map::empty()
    } else {
        keyed_table(s.drop_last(), key).insert(key(s.last()), s.last())
    }
}

pub open spec fn village_key(v: Village) -> u32 {
    v.id
}

pub open spec fn player_key(p: Player) -> u32 {
    p.id
}

pub open spec fn tribe_key(t: Tribe) -> u32 {
    t.id
}

/// `t` is the raw tribe record `raw` with its name decoded.
pub open spec fn tribe_decoded_from(t: Tribe, raw: Tribe) -> bool {
    &&& name_decoded(t.name@, raw.name@)
    &&& t.id == raw.id
    &&& t.tag@ == raw.tag@
    &&& t.members == raw.members
    &&& t.villages == raw.villages
    &&& t.points == raw.points
    &&& t.all_points == raw.all_points
    &&& t.rank == raw.rank
}

/// `p` is the raw player record `raw` with its name decoded.
pub open spec fn player_decoded_from(p: Player, raw: Player) -> bool {
    &&& name_decoded(p.name@, raw.name@)
    &&& p.id == raw.id
    &&& p.tribe_id == raw.tribe_id
    &&& p.villages == raw.villages
    &&& p.points == raw.points
    &&& p.rank == raw.rank
}

/// `v` is the raw village record `raw` with its name decoded.
pub open spec fn village_decoded_from(v: Village, raw: Village) -> bool {
    &&& name_decoded(v.name@, raw.name@)
    &&& v.id == raw.id
    &&& v.x == raw.x
    &&& v.y == raw.y
    &&& v.player_id == raw.player_id
    &&& v.rank == raw.rank
}

/// Every name of the records decodes.
pub open spec fn tribe_names_decode(s: Seq<Tribe>) -> bool {
    forall|i: int| 0 <= i < s.len() ==> (#[trigger] decoded_name(s[i].name@)) is Some
}

pub open spec fn player_names_decode(s: Seq<Player>) -> bool {
    forall|i: int| 0 <= i < s.len() ==> (#[trigger] decoded_name(s[i].name@)) is Some
}

pub open spec fn village_names_decode(s: Seq<Village>) -> bool {
    forall|i: int| 0 <= i < s.len() ==> (#[trigger] decoded_name(s[i].name@)) is Some
}

/// No name of the records holds a `%`, so every name decodes.
pub open spec fn plain_tribe_names(s: Seq<Tribe>) -> bool {
    forall|i: int| 0 <= i < s.len() ==> !(#[trigger] s[i]).name@.contains('%')
}

pub open spec fn plain_player_names(s: Seq<Player>) -> bool {
    forall|i: int| 0 <= i < s.len() ==> !(#[trigger] s[i]).name@.contains('%')
}

pub open spec fn plain_village_names(s: Seq<Village>) -> bool {
    forall|i: int| 0 <= i < s.len() ==> !(#[trigger] s[i]).name@.contains('%')
}

/// `table` holds, under the same keys, the records of `raw` with names decoded.
pub open spec fn tribes_loaded(table: Map<u32, Tribe>, raw: Map<u32, Tribe>) -> bool {
    &&& table.dom() == raw.dom()
    &&& forall|k: u32| #[trigger] table.contains_key(k) ==> tribe_decoded_from(table[k], raw[k])
}

pub open spec fn players_loaded(table: Map<u32, Player>, raw: Map<u32, Player>) -> bool {
    &&& table.dom() == raw.dom()
    &&& forall|k: u32| #[trigger] table.contains_key(k) ==> player_decoded_from(table[k], raw[k])
}

pub open spec fn villages_loaded(table: Map<u32, Village>, raw: Map<u32, Village>) -> bool {
    &&& table.dom() == raw.dom()
    &&& forall|k: u32| #[trigger] table.contains_key(k) ==> village_decoded_from(table[k], raw[k])
}

/// The values of a table in the order in which the table walks them (its
/// `values()` order), one entry per key.
pub open spec fn walk_of<V>(m: &HashMap<u32, V>) -> Seq<V> {
    into_iter_values(spec_values_iter(m))
}

/// The first element of `s` that satisfies `p`.
pub open spec fn first_match<T>(s: Seq<T>, p: spec_fn(T) -> bool) -> Option<T>
    decreases s.len(),
{
    if s.len() == 0 {
        None
    } else if p(s[0]) {
        Some(s[0])
    } else {
        first_match(s.drop_first(), p)
    }
}

/// The elements of `s` that satisfy `p`, in order.
pub open spec fn matching<T>(s: Seq<T>, p: spec_fn(T) -> bool) -> Seq<T>
    decreases s.len(),
{
    if s.len() == 0 {
        Seq::empty()
    } else if p(s.last()) {
        matching(s.drop_last(), p).push(s.last())
    } else {
        matching(s.drop_last(), p)
    }
}

/// The referenced value, if any.
pub open spec fn found<T>(r: Option<&T>) -> Option<T> {
    match r {
        Some(t) => Some(*t),
        None => None,
    }
}

/// Skipping elements that do not satisfy `p` keeps the first match.
proof fn lemma_first_match_skip<T>(s: Seq<T>, p: spec_fn(T) -> bool, i: int)
    requires
        0 <= i <= s.len(),
        forall|j: int| 0 <= j < i ==> !p(#[trigger] s[j]),
    ensures
        first_match(s, p) == first_match(s.skip(i), p),
    decreases i,
{
    if i > 0 {
        lemma_first_match_skip(s, p, i - 1);
        assert(s.skip(i - 1)[0] == s[i - 1]);
        assert(s.skip(i - 1).drop_first() == s.skip(i));
    } else {
        assert(s.skip(0) == s);
    }
}

/// The first match of `s` is at index `i` when no earlier element matches.
proof fn lemma_first_match_at<T>(s: Seq<T>, p: spec_fn(T) -> bool, i: int)
    requires
        0 <= i <= s.len(),
        forall|j: int| 0 <= j < i ==> !p(#[trigger] s[j]),
    ensures
        i < s.len() && p(s[i]) ==> first_match(s, p) == Some(s[i]),
        i == s.len() ==> first_match(s, p) is None,
{
    lemma_first_match_skip(s, p, i);
    if i < s.len() {
        assert(s.skip(i)[0] == s[i]);
    } else {
        assert(s.skip(i).len() == 0);
    }
}

/// Extending a prefix by one element extends its matches accordingly.
proof fn lemma_matching_step<T>(s: Seq<T>, p: spec_fn(T) -> bool, i: int)
    requires
        0 <= i < s.len(),
    ensures
        matching(s.take(i + 1), p) == if p(s[i]) {
            matching(s.take(i), p).push(s[i])
        } else {
            matching(s.take(i), p)
        },
{
    assert(s.take(i + 1).drop_last() == s.take(i));
    assert(s.take(i + 1).last() == s[i]);
}

/// Every record of `m` is stored under its own id.
pub open spec fn keyed_by_id<T>(m: Map<u32, T>, key: spec_fn(T) -> u32) -> bool {
    forall|k: u32| #[trigger] m.contains_key(k) ==> key(m[k]) == k
}

/// Processing the records of `s` from the last to the first and keeping the
/// first seen of each key gives the table of `s`.
proof fn lemma_keyed_table_step<T>(s: Seq<T>, key: spec_fn(T) -> u32, i: int, seen: Map<u32, T>)
    requires
        0 < i <= s.len(),
        keyed_table(s, key) == keyed_table(s.take(i), key).union_prefer_right(seen),
    ensures
        keyed_table(s, key) == keyed_table(s.take(i - 1), key).union_prefer_right(
            if seen.contains_key(key(s[i - 1])) {
                seen
            } else {
                seen.insert(key(s[i - 1]), s[i - 1])
            },
        ),
{
    assert(s.take(i).drop_last() == s.take(i - 1));
    assert(s.take(i).last() == s[i - 1]);
    let next = if seen.contains_key(key(s[i - 1])) {
        seen
    } else {
        seen.insert(key(s[i - 1]), s[i - 1])
    };
    assert(keyed_table(s.take(i), key).union_prefer_right(seen) =~= keyed_table(
        s.take(i - 1),
        key,
    ).union_prefer_right(next));
}

/// Every key of the table of `s` is the key of one of its records.
proof fn lemma_keyed_table_keys<T>(s: Seq<T>, key: spec_fn(T) -> u32)
    ensures
        forall|k: u32| #[trigger]
            keyed_table(s, key).contains_key(k) ==> key(keyed_table(s, key)[k]) == k,
        forall|i: int| 0 <= i < s.len() ==> keyed_table(s, key).contains_key(key(#[trigger] s[i])),
    decreases s.len(),
{
    if s.len() > 0 {
        lemma_keyed_table_keys(s.drop_last(), key);
        let prev = keyed_table(s.drop_last(), key);
        assert forall|k: u32| #[trigger] keyed_table(s, key).contains_key(k) implies key(
            keyed_table(s, key)[k],
        ) == k by {
            if k != key(s.last()) {
                assert(prev.contains_key(k));
            }
        }
        assert forall|i: int| 0 <= i < s.len() implies keyed_table(s, key).contains_key(
            key(#[trigger] s[i]),
        ) by {
            if i < s.len() - 1 {
                assert(s[i] == s.drop_last()[i]);
            }
        }
    }
}

/// When two record lists match record by record (same keys, related by
/// `rel`), their tables have the same keys and match key by key.
proof fn lemma_keyed_table_related<T>(d: Seq<T>, s: Seq<T>, key: spec_fn(T) -> u32, rel: spec_fn(T, T) -> bool)
    requires
        d.len() == s.len(),
        forall|j: int| 0 <= j < d.len() ==> rel(#[trigger] d[j], s[j]) && key(d[j]) == key(s[j]),
    ensures
        keyed_table(d, key).dom() == keyed_table(s, key).dom(),
        forall|k: u32| #[trigger] keyed_table(d, key).contains_key(k) ==> rel(keyed_table(d, key)[k], keyed_table(s, key)[k]),
    decreases d.len(),
{
    if d.len() > 0 {
        assert forall|j: int| 0 <= j < d.drop_last().len() implies rel(#[trigger] d.drop_last()[j], s.drop_last()[j])
            && key(d.drop_last()[j]) == key(s.drop_last()[j]) by {
            assert(d.drop_last()[j] == d[j]);
            assert(s.drop_last()[j] == s[j]);
        }
        lemma_keyed_table_related(d.drop_last(), s.drop_last(), key, rel);
        assert(rel(d.last(), s.last()));
        assert(keyed_table(d, key).dom() =~= keyed_table(s, key).dom());
    }
}

/// Puts the tribe records into a table keyed by id; a later record replaces an
/// earlier one with the same id.
pub fn tribe_table(records: Vec<Tribe>) -> (table: HashMap<u32, Tribe>)
    ensures
        table@ == keyed_table(records@, |r: Tribe| tribe_key(r)),
{
    let ghost s = records@;
    let ghost key = |r: Tribe| tribe_key(r);
    let mut rest = records;
    let mut table: HashMap<u32, Tribe> = HashMap::new();
    assert(keyed_table(s, key) =~= keyed_table(s.take(s.len() as int), key).union_prefer_right(table@)) by {
        assert(s.take(s.len() as int) == s);
    }
    while rest.len() > 0
        invariant
            s == records@,
            key == (|r: Tribe| tribe_key(r)),
            rest@ == s.take(rest.len() as int),
            rest.len() <= s.len(),
            keyed_table(s, key) == keyed_table(rest@, key).union_prefer_right(table@),
        decreases rest.len(),
    {
        let ghost i = rest.len() as int;
        proof {
            lemma_keyed_table_step(s, key, i, table@);
        }
        let record = rest.pop().unwrap();
        assert(record == s[i - 1]);
        assert(rest@ == s.take(i - 1));
        let id = record.id;
        assert(key(s[i - 1]) == id);
        if !table.contains_key(&id) {
            table.insert(id, record);
        }
    }
    assert(keyed_table(rest@, key) =~= Map::empty());
    assert(keyed_table(s, key) =~= table@);
    table
}

/// Decodes the names of the tribe records, in file order, and puts the
/// records into a table keyed by id. `None` at the first name that does not
/// decode.
pub fn load_tribes(records: Vec<Tribe>) -> (r: Option<HashMap<u32, Tribe>>)
    ensures
        r is Some <==> tribe_names_decode(records@),
        plain_tribe_names(records@) ==> r is Some,
        r matches Some(m) ==> tribes_loaded(m@, keyed_table(records@, |r: Tribe| tribe_key(r))),
{
    let ghost s = records@;
    let mut decoded: Vec<Tribe> = Vec::new();
    for raw in it: records.into_iter()
        invariant
            it.seq() == s,
            decoded@.len() == it.index(),
            forall|j: int| 0 <= j < it.index() ==> tribe_decoded_from(#[trigger] decoded@[j], s[j]),
    {
        let name = match decode_name(raw.name.as_str()) {
            Some(name) => name,
            None => {
                assert(decoded_name(s[it.index()].name@) is None);
                return None;
            },
        };
        let record = Tribe {
            id: raw.id,
            name,
            tag: raw.tag,
            members: raw.members,
            villages: raw.villages,
            points: raw.points,
            all_points: raw.all_points,
            rank: raw.rank,
        };
        decoded.push(record);
    }
    assert forall|j: int| 0 <= j < s.len() implies (#[trigger] decoded_name(s[j].name@)) is Some by {
        assert(tribe_decoded_from(decoded@[j], s[j]));
    }
    proof {
        lemma_keyed_table_related(decoded@, s, |r: Tribe| tribe_key(r), |a: Tribe, b: Tribe| tribe_decoded_from(a, b));
    }
    Some(tribe_table(decoded))
}

/// Puts the player records into a table keyed by id; a later record replaces an
/// earlier one with the same id.
pub fn player_table(records: Vec<Player>) -> (table: HashMap<u32, Player>)
    ensures
        table@ == keyed_table(records@, |r: Player| player_key(r)),
{
    let ghost s = records@;
    let ghost key = |r: Player| player_key(r);
    let mut rest = records;
    let mut table: HashMap<u32, Player> = HashMap::new();
    assert(keyed_table(s, key) =~= keyed_table(s.take(s.len() as int), key).union_prefer_right(table@)) by {
        assert(s.take(s.len() as int) == s);
    }
    while rest.len() > 0
        invariant
            s == records@,
            key == (|r: Player| player_key(r)),
            rest@ == s.take(rest.len() as int),
            rest.len() <= s.len(),
            keyed_table(s, key) == keyed_table(rest@, key).union_prefer_right(table@),
        decreases rest.len(),
    {
        let ghost i = rest.len() as int;
        proof {
            lemma_keyed_table_step(s, key, i, table@);
        }
        let record = rest.pop().unwrap();
        assert(record == s[i - 1]);
        assert(rest@ == s.take(i - 1));
        let id = record.id;
        assert(key(s[i - 1]) == id);
        if !table.contains_key(&id) {
            table.insert(id, record);
        }
    }
    assert(keyed_table(rest@, key) =~= Map::empty());
    assert(keyed_table(s, key) =~= table@);
    table
}

/// Decodes the names of the player records, in file order, and puts the
/// records into a table keyed by id. `None` at the first name that does not
/// decode.
pub fn load_players(records: Vec<Player>) -> (r: Option<HashMap<u32, Player>>)
    ensures
        r is Some <==> player_names_decode(records@),
        plain_player_names(records@) ==> r is Some,
        r matches Some(m) ==> players_loaded(m@, keyed_table(records@, |r: Player| player_key(r))),
{
    let ghost s = records@;
    let mut decoded: Vec<Player> = Vec::new();
    for raw in it: records.into_iter()
        invariant
            it.seq() == s,
            decoded@.len() == it.index(),
            forall|j: int| 0 <= j < it.index() ==> player_decoded_from(#[trigger] decoded@[j], s[j]),
    {
        let name = match decode_name(raw.name.as_str()) {
            Some(name) => name,
            None => {
                assert(decoded_name(s[it.index()].name@) is None);
                return None;
            },
        };
        let record = Player {
            id: raw.id,
            name,
            tribe_id: raw.tribe_id,
            villages: raw.villages,
            points: raw.points,
            rank: raw.rank,
        };
        decoded.push(record);
    }
    assert forall|j: int| 0 <= j < s.len() implies (#[trigger] decoded_name(s[j].name@)) is Some by {
        assert(player_decoded_from(decoded@[j], s[j]));
    }
    proof {
        lemma_keyed_table_related(decoded@, s, |r: Player| player_key(r), |a: Player, b: Player| player_decoded_from(a, b));
    }
    Some(player_table(decoded))
}

/// Puts the village records into a table keyed by id; a later record replaces an
/// earlier one with the same id.
pub fn village_table(records: Vec<Village>) -> (table: HashMap<u32, Village>)
    ensures
        table@ == keyed_table(records@, |r: Village| village_key(r)),
{
    let ghost s = records@;
    let ghost key = |r: Village| village_key(r);
    let mut rest = records;
    let mut table: HashMap<u32, Village> = HashMap::new();
    assert(keyed_table(s, key) =~= keyed_table(s.take(s.len() as int), key).union_prefer_right(table@)) by {
        assert(s.take(s.len() as int) == s);
    }
    while rest.len() > 0
        invariant
            s == records@,
            key == (|r: Village| village_key(r)),
            rest@ == s.take(rest.len() as int),
            rest.len() <= s.len(),
            keyed_table(s, key) == keyed_table(rest@, key).union_prefer_right(table@),
        decreases rest.len(),
    {
        let ghost i = rest.len() as int;
        proof {
            lemma_keyed_table_step(s, key, i, table@);
        }
        let record = rest.pop().unwrap();
        assert(record == s[i - 1]);
        assert(rest@ == s.take(i - 1));
        let id = record.id;
        assert(key(s[i - 1]) == id);
        if !table.contains_key(&id) {
            table.insert(id, record);
        }
    }
    assert(keyed_table(rest@, key) =~= Map::empty());
    assert(keyed_table(s, key) =~= table@);
    table
}

/// Decodes the names of the village records, in file order, and puts the
/// records into a table keyed by id. `None` at the first name that does not
/// decode.
pub fn load_villages(records: Vec<Village>) -> (r: Option<HashMap<u32, Village>>)
    ensures
        r is Some <==> village_names_decode(records@),
        plain_village_names(records@) ==> r is Some,
        r matches Some(m) ==> villages_loaded(m@, keyed_table(records@, |r: Village| village_key(r))),
{
    let ghost s = records@;
    let mut decoded: Vec<Village> = Vec::new();
    for raw in it: records.into_iter()
        invariant
            it.seq() == s,
            decoded@.len() == it.index(),
            forall|j: int| 0 <= j < it.index() ==> village_decoded_from(#[trigger] decoded@[j], s[j]),
    {
        let name = match decode_name(raw.name.as_str()) {
            Some(name) => name,
            None => {
                assert(decoded_name(s[it.index()].name@) is None);
                return None;
            },
        };
        let record = Village {
            id: raw.id,
            name,
            x: raw.x,
            y: raw.y,
            player_id: raw.player_id,
            rank: raw.rank,
        };
        decoded.push(record);
    }
    assert forall|j: int| 0 <= j < s.len() implies (#[trigger] decoded_name(s[j].name@)) is Some by {
        assert(village_decoded_from(decoded@[j], s[j]));
    }
    proof {
        lemma_keyed_table_related(decoded@, s, |r: Village| village_key(r), |a: Village, b: Village| village_decoded_from(a, b));
    }
    Some(village_table(decoded))
}

impl TribalWars {
    /// Every table stores each record under its own id.
    pub open spec fn wf(&self) -> bool {
        &&& keyed_by_id(self.villages@, |v: Village| village_key(v))
        &&& keyed_by_id(self.players@, |p: Player| player_key(p))
        &&& keyed_by_id(self.tribes@, |t: Tribe| tribe_key(t))
    }

    /// Builds the world data from the records of the three data files, read
    /// in file order: names have `+` read as a space and their percent-escapes
    /// decoded, and a later record replaces an earlier one with the same id.
    /// The error names the first table, in the order tribes, players,
    /// villages, that holds a name which does not decode.
    pub fn load(tribes: Vec<Tribe>, players: Vec<Player>, villages: Vec<Village>) -> (r: Result<
        TribalWars,
        LoadError,
    >)
        ensures
            r matches Ok(tw) ==> {
                &&& tribe_names_decode(tribes@)
                &&& player_names_decode(players@)
                &&& village_names_decode(villages@)
                &&& tribes_loaded(tw.tribes@, keyed_table(tribes@, |t: Tribe| tribe_key(t)))
                &&& players_loaded(tw.players@, keyed_table(players@, |p: Player| player_key(p)))
                &&& villages_loaded(tw.villages@, keyed_table(villages@, |v: Village| village_key(v)))
                &&& tw.wf()
            },
            plain_tribe_names(tribes@) && plain_player_names(players@) && plain_village_names(villages@)
                ==> r is Ok,
            r == Err::<TribalWars, LoadError>(LoadError::Tribes) <==> !tribe_names_decode(tribes@),
            r == Err::<TribalWars, LoadError>(LoadError::Players) <==> tribe_names_decode(tribes@)
                && !player_names_decode(players@),
            r == Err::<TribalWars, LoadError>(LoadError::Villages) <==> tribe_names_decode(tribes@)
                && player_names_decode(players@) && !village_names_decode(villages@),
    {
        let ghost tribe_records = tribes@;
        let ghost player_records = players@;
        let ghost village_records = villages@;
        let tribes = match load_tribes(tribes) {
            Some(t) => t,
            None => {
                return Err(LoadError::Tribes);
            },
        };
        let players = match load_players(players) {
            Some(p) => p,
            None => {
                return Err(LoadError::Players);
            },
        };
        let villages = match load_villages(villages) {
            Some(v) => v,
            None => {
                return Err(LoadError::Villages);
            },
        };
        proof {
            lemma_keyed_table_keys(tribe_records, |t: Tribe| tribe_key(t));
            lemma_keyed_table_keys(player_records, |p: Player| player_key(p));
            lemma_keyed_table_keys(village_records, |v: Village| village_key(v));
        }
        Ok(TribalWars { villages, players, tribes })
    }
}


/// `t` answers to `name`: its name or its tag, ASCII letters compared without case.
pub open spec fn tribe_named(t: Tribe, name: Seq<char>) -> bool {
    same_ignoring_ascii_case(t.name@, name) || same_ignoring_ascii_case(t.tag@, name)
}

/// `p` answers to `name`: its name, ASCII letters compared without case.
pub open spec fn player_named(p: Player, name: Seq<char>) -> bool {
    same_ignoring_ascii_case(p.name@, name)
}

/// `found` lists, once each when the table is keyed by id, exactly the players
/// of `players` whose tribe is `tribe_id`.
pub open spec fn members_listed(found: Seq<&Player>, players: Map<u32, Player>, tribe_id: u32) -> bool {
    &&& forall|i: int|
        0 <= i < found.len() ==> players.values().contains(*#[trigger] found[i]) && found[i].tribe_id
            == tribe_id
    &&& forall|p: Player|
        #[trigger] players.values().contains(p) && p.tribe_id == tribe_id ==> exists|i: int|
            0 <= i < found.len() && *found[i] == p
    &&& keyed_by_id(players, |p: Player| player_key(p)) ==> found.no_duplicates()
}

/// `found` lists, once each when the table is keyed by id, exactly the villages
/// of `villages` that belong to the player `player_id`.
pub open spec fn villages_listed(found: Seq<&Village>, villages: Map<u32, Village>, player_id: u32) -> bool {
    &&& forall|i: int|
        0 <= i < found.len() ==> villages.values().contains(*#[trigger] found[i])
            && found[i].player_id == player_id
    &&& forall|v: Village|
        #[trigger] villages.values().contains(v) && v.player_id == player_id ==> exists|i: int|
            0 <= i < found.len() && *found[i] == v
    &&& keyed_by_id(villages, |v: Village| village_key(v)) ==> found.no_duplicates()
}

/// A walk over all values of a table keyed by id meets each value once.
proof fn lemma_walk_distinct<V>(m: Map<u32, V>, walk: Seq<V>, key: spec_fn(V) -> u32)
    requires
        m.dom().finite(),
        walk.to_set() == m.values(),
        walk.len() == m.dom().len(),
        keyed_by_id(m, key),
    ensures
        walk.no_duplicates(),
{
    assert(m.is_injective()) by {
        assert forall|a1: u32, a2: u32|
            m.dom().contains(a1) && m.dom().contains(a2) && #[trigger] m[a1] == #[trigger] m[a2] implies a1 == a2 by {
            assert(m.contains_key(a1));
            assert(m.contains_key(a2));
        }
    }
    m.lemma_injective_values_len();
    walk.lemma_no_dup_set_cardinality();
}

impl TribalWars {
    /// The tribe with id `id`, if the data holds one: the first in the
    /// table's walk.
    pub fn tribe(&self, id: u32) -> (r: Option<&Tribe>)
        ensures
            found(r) == first_match(walk_of(&self.tribes), |t: Tribe| t.id == id),
            r matches Some(t) ==> self.tribes@.values().contains(*t) && t.id == id,
            r is None ==> forall|t: Tribe| #[trigger] self.tribes@.values().contains(t) ==> t.id != id,
    {
        let ghost walk = spec_values_iter(&self.tribes).remaining();
        for tribe in it: self.tribes.values()
            invariant
                it.seq() == walk,
                walk.unref() == walk_of(&self.tribes),
                walk.unref().to_set() == self.tribes@.values(),
                forall|j: int| 0 <= j < it.index() ==> (#[trigger] walk[j]).id != id,
        {
            if tribe.id == id {
                assert(walk.unref().to_set().contains(walk.unref()[it.index()]));
                proof {
                    lemma_first_match_at(walk.unref(), |t: Tribe| t.id == id, it.index());
                }
                return Some(tribe);
            }
        }
        proof {
            lemma_first_match_at(walk.unref(), |t: Tribe| t.id == id, walk.len() as int);
        }
        assert forall|t: Tribe| #[trigger] self.tribes@.values().contains(t) implies t.id != id by {
            assert(walk.unref().to_set().contains(t));
            let j = choose|j: int| 0 <= j < walk.unref().len() && walk.unref()[j] == t;
            assert(walk[j].id != id);
        }
        None
    }

    /// A tribe whose name or tag is `name`, ASCII letters compared without
    /// case; when several answer, the first of them in the table's walk.
    pub fn tribe_by_name(&self, name: &str) -> (r: Option<&Tribe>)
        ensures
            found(r) == first_match(walk_of(&self.tribes), |t: Tribe| tribe_named(t, name@)),
            r matches Some(t) ==> self.tribes@.values().contains(*t) && tribe_named(*t, name@),
            r is None ==> forall|t: Tribe| #[trigger] self.tribes@.values().contains(t) ==> !tribe_named(t, name@),
    {
        let ghost walk = spec_values_iter(&self.tribes).remaining();
        for tribe in it: self.tribes.values()
            invariant
                it.seq() == walk,
                walk.unref() == walk_of(&self.tribes),
                walk.unref().to_set() == self.tribes@.values(),
                forall|j: int| 0 <= j < it.index() ==> !tribe_named(*#[trigger] walk[j], name@),
        {
            if eq_ignore_ascii_case(tribe.name.as_str(), name) || eq_ignore_ascii_case(tribe.tag.as_str(), name) {
                assert(walk.unref().to_set().contains(walk.unref()[it.index()]));
                proof {
                    lemma_first_match_at(walk.unref(), |t: Tribe| tribe_named(t, name@), it.index());
                }
                return Some(tribe);
            }
        }
        proof {
            lemma_first_match_at(walk.unref(), |t: Tribe| tribe_named(t, name@), walk.len() as int);
        }
        assert forall|t: Tribe| #[trigger] self.tribes@.values().contains(t) implies !tribe_named(t, name@) by {
            assert(walk.unref().to_set().contains(t));
            let j = choose|j: int| 0 <= j < walk.unref().len() && walk.unref()[j] == t;
            assert(!tribe_named(*walk[j], name@));
        }
        None
    }

    /// The player with id `id`, if the data holds one.
    pub fn player(&self, id: u32) -> (r: Option<&Player>)
        ensures
            found(r) == first_match(walk_of(&self.players), |p: Player| p.id == id),
            r matches Some(p) ==> self.players@.values().contains(*p) && p.id == id,
            r is None ==> forall|p: Player| #[trigger] self.players@.values().contains(p) ==> p.id != id,
    {
        let ghost walk = spec_values_iter(&self.players).remaining();
        for player in it: self.players.values()
            invariant
                it.seq() == walk,
                walk.unref() == walk_of(&self.players),
                walk.unref().to_set() == self.players@.values(),
                forall|j: int| 0 <= j < it.index() ==> (#[trigger] walk[j]).id != id,
        {
            if player.id == id {
                assert(walk.unref().to_set().contains(walk.unref()[it.index()]));
                proof {
                    lemma_first_match_at(walk.unref(), |p: Player| p.id == id, it.index());
                }
                return Some(player);
            }
        }
        proof {
            lemma_first_match_at(walk.unref(), |p: Player| p.id == id, walk.len() as int);
        }
        assert forall|p: Player| #[trigger] self.players@.values().contains(p) implies p.id != id by {
            assert(walk.unref().to_set().contains(p));
            let j = choose|j: int| 0 <= j < walk.unref().len() && walk.unref()[j] == p;
            assert(walk[j].id != id);
        }
        None
    }

    /// A player whose name is `name`, ASCII letters compared without case;
    /// when several answer, the first of them in the table's walk.
    pub fn player_by_name(&self, name: &str) -> (r: Option<&Player>)
        ensures
            found(r) == first_match(walk_of(&self.players), |p: Player| player_named(p, name@)),
            r matches Some(p) ==> self.players@.values().contains(*p) && player_named(*p, name@),
            r is None ==> forall|p: Player| #[trigger] self.players@.values().contains(p) ==> !player_named(p, name@),
    {
        let ghost walk = spec_values_iter(&self.players).remaining();
        for player in it: self.players.values()
            invariant
                it.seq() == walk,
                walk.unref() == walk_of(&self.players),
                walk.unref().to_set() == self.players@.values(),
                forall|j: int| 0 <= j < it.index() ==> !player_named(*#[trigger] walk[j], name@),
        {
            if eq_ignore_ascii_case(player.name.as_str(), name) {
                assert(walk.unref().to_set().contains(walk.unref()[it.index()]));
                proof {
                    lemma_first_match_at(walk.unref(), |p: Player| player_named(p, name@), it.index());
                }
                return Some(player);
            }
        }
        proof {
            lemma_first_match_at(walk.unref(), |p: Player| player_named(p, name@), walk.len() as int);
        }
        assert forall|p: Player| #[trigger] self.players@.values().contains(p) implies !player_named(p, name@) by {
            assert(walk.unref().to_set().contains(p));
            let j = choose|j: int| 0 <= j < walk.unref().len() && walk.unref()[j] == p;
            assert(!player_named(*walk[j], name@));
        }
        None
    }

    /// The village with id `id`, if the data holds one.
    pub fn village(&self, id: &u32) -> (r: Option<&Village>)
        ensures
            found(r) == first_match(walk_of(&self.villages), |v: Village| v.id == *id),
            r matches Some(v) ==> self.villages@.values().contains(*v) && v.id == *id,
            r is None ==> forall|v: Village| #[trigger] self.villages@.values().contains(v) ==> v.id != *id,
    {
        let ghost walk = spec_values_iter(&self.villages).remaining();
        for village in it: self.villages.values()
            invariant
                it.seq() == walk,
                walk.unref() == walk_of(&self.villages),
                walk.unref().to_set() == self.villages@.values(),
                forall|j: int| 0 <= j < it.index() ==> (#[trigger] walk[j]).id != *id,
        {
            if village.id == *id {
                assert(walk.unref().to_set().contains(walk.unref()[it.index()]));
                proof {
                    lemma_first_match_at(walk.unref(), |v: Village| v.id == *id, it.index());
                }
                return Some(village);
            }
        }
        proof {
            lemma_first_match_at(walk.unref(), |v: Village| v.id == *id, walk.len() as int);
        }
        assert forall|v: Village| #[trigger] self.villages@.values().contains(v) implies v.id != *id by {
            assert(walk.unref().to_set().contains(v));
            let j = choose|j: int| 0 <= j < walk.unref().len() && walk.unref()[j] == v;
            assert(walk[j].id != *id);
        }
        None
    }

    /// A village at the coordinates `x|y`; which one, when several stand
    /// there, the first of them in the table's walk.
    pub fn village_at(&self, x: &u32, y: &u32) -> (r: Option<&Village>)
        ensures
            found(r) == first_match(walk_of(&self.villages), |v: Village| v.x == *x && v.y == *y),
            r matches Some(v) ==> self.villages@.values().contains(*v) && v.x == *x && v.y == *y,
            r is None ==> forall|v: Village| #[trigger] self.villages@.values().contains(v) ==> !(v.x == *x && v.y == *y),
    {
        let ghost walk = spec_values_iter(&self.villages).remaining();
        for village in it: self.villages.values()
            invariant
                it.seq() == walk,
                walk.unref() == walk_of(&self.villages),
                walk.unref().to_set() == self.villages@.values(),
                forall|j: int| 0 <= j < it.index() ==> !((#[trigger] walk[j]).x == *x && walk[j].y == *y),
        {
            if village.x == *x && village.y == *y {
                assert(walk.unref().to_set().contains(walk.unref()[it.index()]));
                proof {
                    lemma_first_match_at(walk.unref(), |v: Village| v.x == *x && v.y == *y, it.index());
                }
                return Some(village);
            }
        }
        proof {
            lemma_first_match_at(walk.unref(), |v: Village| v.x == *x && v.y == *y, walk.len() as int);
        }
        assert forall|v: Village| #[trigger] self.villages@.values().contains(v) implies !(v.x == *x && v.y == *y) by {
            assert(walk.unref().to_set().contains(v));
            let j = choose|j: int| 0 <= j < walk.unref().len() && walk.unref()[j] == v;
            assert(!(walk[j].x == *x && walk[j].y == *y));
        }
        None
    }

    /// The players of a tribe whose name or tag is `name` (chosen as by
    /// `tribe_by_name`), in the table's walk order; `None` when no tribe
    /// answers to `name`.
    pub fn players_by_tribe(&self, name: &str) -> (r: Option<Vec<&Player>>)
        ensures
            match first_match(walk_of(&self.tribes), |t: Tribe| tribe_named(t, name@)) {
                None => r is None,
                Some(t) => r matches Some(list) && list@.unref() == matching(
                    walk_of(&self.players),
                    |p: Player| p.tribe_id == t.id,
                ),
            },
            r is None <==> forall|t: Tribe| #[trigger] self.tribes@.values().contains(t) ==> !tribe_named(t, name@),
            r matches Some(found) ==> exists|t: Tribe|
                #[trigger] self.tribes@.values().contains(t) && tribe_named(t, name@)
                    && members_listed(found@, self.players@, t.id),
    {
        match self.tribe_by_name(name) {
            None => None,
            Some(tribe) => Some(self.members_of(tribe.id)),
        }
    }

    /// The players whose tribe is `tribe_id`, in the table's walk order.
    pub fn members_of(&self, tribe_id: u32) -> (found: Vec<&Player>)
        ensures
            found@.unref() == matching(walk_of(&self.players), |p: Player| p.tribe_id == tribe_id),
            members_listed(found@, self.players@, tribe_id),
    {
        let ghost walk = spec_values_iter(&self.players).remaining();
        let ghost keyed = keyed_by_id(self.players@, |p: Player| player_key(p));
        proof {
            if keyed {
                lemma_walk_distinct(self.players@, walk.unref(), |p: Player| player_key(p));
            }
        }
        let mut result: Vec<&Player> = Vec::new();
        let ghost mut origin: Seq<int> = Seq::empty();
        for player in it: self.players.values()
            invariant
                it.seq() == walk,
                walk.unref() == walk_of(&self.players),
                result@.unref() == matching(walk.unref().take(it.index()), |p: Player| p.tribe_id == tribe_id),
                walk.unref().to_set() == self.players@.values(),
                keyed == keyed_by_id(self.players@, |p: Player| player_key(p)),
                keyed ==> walk.unref().no_duplicates(),
                forall|i: int|
                    0 <= i < result@.len() ==> self.players@.values().contains(*#[trigger] result@[i])
                        && result@[i].tribe_id == tribe_id,
                origin.len() == result@.len(),
                forall|i: int| 0 <= i < result@.len() ==> 0 <= #[trigger] origin[i] < it.index() && result@[i] == walk[origin[i]],
                forall|j: int| 0 <= j < it.index() && (#[trigger] walk[j]).tribe_id == tribe_id ==> exists|i: int|
                    0 <= i < result@.len() && result@[i] == walk[j],
                keyed ==> result@.no_duplicates(),
        {
            let ghost idx = it.index();
            proof {
                lemma_matching_step(walk.unref(), |p: Player| p.tribe_id == tribe_id, idx);
            }
            if player.tribe_id == tribe_id {
                assert(walk.unref().to_set().contains(walk.unref()[idx]));
                proof {
                    if keyed {
                        assert forall|i: int| 0 <= i < result@.len() implies result@[i] != walk[idx] by {
                            let j = origin[i];
                            assert(walk.unref()[j] != walk.unref()[idx]);
                        }
                    }
                }
                let ghost before = result@;
                let ghost before_origin = origin;
                proof {
                    origin = origin.push(idx);
                }
                result.push(player);
                assert(result@.unref() =~= before.unref().push(walk.unref()[idx]));
                assert forall|i: int| 0 <= i < result@.len() implies 0 <= #[trigger] origin[i] < idx + 1 && result@[i] == walk[origin[i]] by {
                    if i < before.len() {
                        assert(result@[i] == before[i]);
                        assert(origin[i] == before_origin[i]);
                    }
                }
                assert forall|j: int| 0 <= j < idx + 1 && (#[trigger] walk[j]).tribe_id == tribe_id implies exists|i: int|
                    0 <= i < result@.len() && result@[i] == walk[j] by {
                    if j < idx {
                        let i = choose|i: int| 0 <= i < before.len() && before[i] == walk[j];
                        assert(result@[i] == walk[j]);
                    } else {
                        assert(result@[before.len() as int] == walk[j]);
                    }
                }
            }
        }
        assert forall|p: Player| #[trigger] self.players@.values().contains(p) && p.tribe_id == tribe_id implies exists|i: int|
            0 <= i < result@.len() && *result@[i] == p by {
            assert(walk.unref().to_set().contains(p));
            let j = choose|j: int| 0 <= j < walk.unref().len() && walk.unref()[j] == p;
            assert(walk[j].tribe_id == tribe_id);
        }
        assert(walk.unref().take(walk.len() as int) == walk.unref());
        result
    }

    /// The villages of a player whose name is `name` (chosen as by
    /// `player_by_name`), in the table's walk order; `None` when no player
    /// answers to `name`.
    pub fn villages_for(&self, name: &str) -> (r: Option<Vec<&Village>>)
        ensures
            match first_match(walk_of(&self.players), |p: Player| player_named(p, name@)) {
                None => r is None,
                Some(p) => r matches Some(list) && list@.unref() == matching(
                    walk_of(&self.villages),
                    |v: Village| v.player_id == p.id,
                ),
            },
            r is None <==> forall|p: Player| #[trigger] self.players@.values().contains(p) ==> !player_named(p, name@),
            r matches Some(found) ==> exists|p: Player|
                #[trigger] self.players@.values().contains(p) && player_named(p, name@)
                    && villages_listed(found@, self.villages@, p.id),
    {
        match self.player_by_name(name) {
            None => None,
            Some(player) => Some(self.villages_of(player.id)),
        }
    }

    /// The villages of the player `player_id`, in the table's walk order.
    pub fn villages_of(&self, player_id: u32) -> (found: Vec<&Village>)
        ensures
            found@.unref() == matching(walk_of(&self.villages), |v: Village| v.player_id == player_id),
            villages_listed(found@, self.villages@, player_id),
    {
        let ghost walk = spec_values_iter(&self.villages).remaining();
        let ghost keyed = keyed_by_id(self.villages@, |v: Village| village_key(v));
        proof {
            if keyed {
                lemma_walk_distinct(self.villages@, walk.unref(), |v: Village| village_key(v));
            }
        }
        let mut result: Vec<&Village> = Vec::new();
        let ghost mut origin: Seq<int> = Seq::empty();
        for village in it: self.villages.values()
            invariant
                it.seq() == walk,
                walk.unref() == walk_of(&self.villages),
                result@.unref() == matching(walk.unref().take(it.index()), |v: Village| v.player_id == player_id),
                walk.unref().to_set() == self.villages@.values(),
                keyed == keyed_by_id(self.villages@, |v: Village| village_key(v)),
                keyed ==> walk.unref().no_duplicates(),
                forall|i: int|
                    0 <= i < result@.len() ==> self.villages@.values().contains(*#[trigger] result@[i])
                        && result@[i].player_id == player_id,
                origin.len() == result@.len(),
                forall|i: int| 0 <= i < result@.len() ==> 0 <= #[trigger] origin[i] < it.index() && result@[i] == walk[origin[i]],
                forall|j: int| 0 <= j < it.index() && (#[trigger] walk[j]).player_id == player_id ==> exists|i: int|
                    0 <= i < result@.len() && result@[i] == walk[j],
                keyed ==> result@.no_duplicates(),
        {
            let ghost idx = it.index();
            proof {
                lemma_matching_step(walk.unref(), |v: Village| v.player_id == player_id, idx);
            }
            if village.player_id == player_id {
                assert(walk.unref().to_set().contains(walk.unref()[idx]));
                proof {
                    if keyed {
                        assert forall|i: int| 0 <= i < result@.len() implies result@[i] != walk[idx] by {
                            let j = origin[i];
                            assert(walk.unref()[j] != walk.unref()[idx]);
                        }
                    }
                }
                let ghost before = result@;
                let ghost before_origin = origin;
                proof {
                    origin = origin.push(idx);
                }
                result.push(village);
                assert(result@.unref() =~= before.unref().push(walk.unref()[idx]));
                assert forall|i: int| 0 <= i < result@.len() implies 0 <= #[trigger] origin[i] < idx + 1 && result@[i] == walk[origin[i]] by {
                    if i < before.len() {
                        assert(result@[i] == before[i]);
                        assert(origin[i] == before_origin[i]);
                    }
                }
                assert forall|j: int| 0 <= j < idx + 1 && (#[trigger] walk[j]).player_id == player_id implies exists|i: int|
                    0 <= i < result@.len() && result@[i] == walk[j] by {
                    if j < idx {
                        let i = choose|i: int| 0 <= i < before.len() && before[i] == walk[j];
                        assert(result@[i] == walk[j]);
                    } else {
                        assert(result@[before.len() as int] == walk[j]);
                    }
                }
            }
        }
        assert forall|v: Village| #[trigger] self.villages@.values().contains(v) && v.player_id == player_id implies exists|i: int|
            0 <= i < result@.len() && *result@[i] == v by {
            assert(walk.unref().to_set().contains(v));
            let j = choose|j: int| 0 <= j < walk.unref().len() && walk.unref()[j] == v;
            assert(walk[j].player_id == player_id);
        }
        assert(walk.unref().take(walk.len() as int) == walk.unref());
        result
    }
}


/// A name or tag answers to itself, so looking a tribe up by its own name or
/// tag always finds a tribe.
pub proof fn lemma_tribe_answers_to_own_name(t: Tribe)
    ensures
        tribe_named(t, t.name@),
        tribe_named(t, t.tag@),
{
}

/// A player's own name answers to it.
pub proof fn lemma_player_answers_to_own_name(p: Player)
    ensures
        player_named(p, p.name@),
{
}

/// After loading, the record last given for an id is the one stored under
/// that id, with its name decoded and every number (id, members, villages,
/// points, all points, rank) and the tag as given, and every stored record
/// with that id is that one: a lookup by the id gives back the last record
/// written for it.
pub proof fn lemma_load_keeps_last_tribe(table: Map<u32, Tribe>, raw: Seq<Tribe>, i: int)
    requires
        tribes_loaded(table, keyed_table(raw, |t: Tribe| tribe_key(t))),
        0 <= i < raw.len(),
        forall|j: int| i < j < raw.len() ==> (#[trigger] raw[j]).id != raw[i].id,
    ensures
        table.contains_key(raw[i].id),
        tribe_decoded_from(table[raw[i].id], raw[i]),
        table[raw[i].id].id == raw[i].id,
        table[raw[i].id].tag@ == raw[i].tag@,
        table[raw[i].id].members == raw[i].members,
        table[raw[i].id].villages == raw[i].villages,
        table[raw[i].id].points == raw[i].points,
        table[raw[i].id].all_points == raw[i].all_points,
        table[raw[i].id].rank == raw[i].rank,
        table.values().contains(table[raw[i].id]),
        forall|x: Tribe| #[trigger] table.values().contains(x) && x.id == raw[i].id ==> tribe_decoded_from(x, raw[i]),
{
    lemma_keyed_table_last(raw, |t: Tribe| tribe_key(t), i);
    lemma_keyed_table_keys(raw, |t: Tribe| tribe_key(t));
    assert(table.contains_key(raw[i].id));
    assert forall|x: Tribe| #[trigger] table.values().contains(x) && x.id == raw[i].id implies tribe_decoded_from(x, raw[i]) by {
        let k = choose|k: u32| #[trigger] table.contains_key(k) && table[k] == x;
        assert(tribe_decoded_from(table[k], keyed_table(raw, |t: Tribe| tribe_key(t))[k]));
    }
}

/// After loading, the record last given for an id is the one stored under
/// that id, with its name decoded and every number (id, tribe, villages,
/// points, rank) as given, and every stored record with that id is that one:
/// a lookup by the id gives back the last record written for it.
pub proof fn lemma_load_keeps_last_player(table: Map<u32, Player>, raw: Seq<Player>, i: int)
    requires
        players_loaded(table, keyed_table(raw, |p: Player| player_key(p))),
        0 <= i < raw.len(),
        forall|j: int| i < j < raw.len() ==> (#[trigger] raw[j]).id != raw[i].id,
    ensures
        table.contains_key(raw[i].id),
        player_decoded_from(table[raw[i].id], raw[i]),
        table[raw[i].id].id == raw[i].id,
        table[raw[i].id].tribe_id == raw[i].tribe_id,
        table[raw[i].id].villages == raw[i].villages,
        table[raw[i].id].points == raw[i].points,
        table[raw[i].id].rank == raw[i].rank,
        table.values().contains(table[raw[i].id]),
        forall|x: Player| #[trigger] table.values().contains(x) && x.id == raw[i].id ==> player_decoded_from(x, raw[i]),
{
    lemma_keyed_table_last(raw, |p: Player| player_key(p), i);
    lemma_keyed_table_keys(raw, |p: Player| player_key(p));
    assert(table.contains_key(raw[i].id));
    assert forall|x: Player| #[trigger] table.values().contains(x) && x.id == raw[i].id implies player_decoded_from(x, raw[i]) by {
        let k = choose|k: u32| #[trigger] table.contains_key(k) && table[k] == x;
        assert(player_decoded_from(table[k], keyed_table(raw, |p: Player| player_key(p))[k]));
    }
}

/// After loading, the record last given for an id is the one stored under
/// that id, with its name decoded and every number (id, x, y, owner, points)
/// as given, and every stored record with that id is that one: a lookup by
/// the id gives back the last record written for it.
pub proof fn lemma_load_keeps_last_village(table: Map<u32, Village>, raw: Seq<Village>, i: int)
    requires
        villages_loaded(table, keyed_table(raw, |v: Village| village_key(v))),
        0 <= i < raw.len(),
        forall|j: int| i < j < raw.len() ==> (#[trigger] raw[j]).id != raw[i].id,
    ensures
        table.contains_key(raw[i].id),
        village_decoded_from(table[raw[i].id], raw[i]),
        table[raw[i].id].id == raw[i].id,
        table[raw[i].id].x == raw[i].x,
        table[raw[i].id].y == raw[i].y,
        table[raw[i].id].player_id == raw[i].player_id,
        table[raw[i].id].rank == raw[i].rank,
        table.values().contains(table[raw[i].id]),
        forall|x: Village| #[trigger] table.values().contains(x) && x.id == raw[i].id ==> village_decoded_from(x, raw[i]),
{
    lemma_keyed_table_last(raw, |v: Village| village_key(v), i);
    lemma_keyed_table_keys(raw, |v: Village| village_key(v));
    assert(table.contains_key(raw[i].id));
    assert forall|x: Village| #[trigger] table.values().contains(x) && x.id == raw[i].id implies village_decoded_from(x, raw[i]) by {
        let k = choose|k: u32| #[trigger] table.contains_key(k) && table[k] == x;
        assert(village_decoded_from(table[k], keyed_table(raw, |v: Village| village_key(v))[k]));
    }
}

/// The last record of a key is what the table holds under it.
proof fn lemma_keyed_table_last<T>(s: Seq<T>, key: spec_fn(T) -> u32, i: int)
    requires
        0 <= i < s.len(),
        forall|j: int| i < j < s.len() ==> key(#[trigger] s[j]) != key(s[i]),
    ensures
        keyed_table(s, key).contains_key(key(s[i])),
        keyed_table(s, key)[key(s[i])] == s[i],
    decreases s.len(),
{
    if i < s.len() - 1 {
        assert(key(s[s.len() - 1]) != key(s[i]));
        assert forall|j: int| i < j < s.drop_last().len() implies key(#[trigger] s.drop_last()[j]) != key(s.drop_last()[i]) by {
            assert(s.drop_last()[j] == s[j]);
        }
        lemma_keyed_table_last(s.drop_last(), key, i);
        assert(s.drop_last()[i] == s[i]);
    }
}

/// In a table keyed by id, two records with the same id are the same
/// record, so a lookup by id has one answer.
pub proof fn lemma_tribe_id_unique(tw: TribalWars, a: Tribe, b: Tribe)
    requires
        tw.wf(),
        tw.tribes@.values().contains(a),
        tw.tribes@.values().contains(b),
        a.id == b.id,
    ensures
        a == b,
{
    let ka = choose|k: u32| #[trigger] tw.tribes@.contains_key(k) && tw.tribes@[k] == a;
    let kb = choose|k: u32| #[trigger] tw.tribes@.contains_key(k) && tw.tribes@[k] == b;
}

/// In a table keyed by id, two records with the same id are the same record.
pub proof fn lemma_player_id_unique(tw: TribalWars, a: Player, b: Player)
    requires
        tw.wf(),
        tw.players@.values().contains(a),
        tw.players@.values().contains(b),
        a.id == b.id,
    ensures
        a == b,
{
    let ka = choose|k: u32| #[trigger] tw.players@.contains_key(k) && tw.players@[k] == a;
    let kb = choose|k: u32| #[trigger] tw.players@.contains_key(k) && tw.players@[k] == b;
}

/// In a table keyed by id, two records with the same id are the same record.
pub proof fn lemma_village_id_unique(tw: TribalWars, a: Village, b: Village)
    requires
        tw.wf(),
        tw.villages@.values().contains(a),
        tw.villages@.values().contains(b),
        a.id == b.id,
    ensures
        a == b,
{
    let ka = choose|k: u32| #[trigger] tw.villages@.contains_key(k) && tw.villages@[k] == a;
    let kb = choose|k: u32| #[trigger] tw.villages@.contains_key(k) && tw.villages@[k] == b;
}


/// A player answers to `name` only when `name` is the player's name with
/// some ASCII letters in the other case: same length, and at every index the
/// same character or the same letter (so `big_boss` does not answer to
/// `big boss`). The same holds of a tribe's name and tag.
pub proof fn lemma_named_only_up_to_letter_case(p: Player, t: Tribe, name: Seq<char>)
    ensures
        player_named(p, name) <==> (p.name@.len() == name.len() && forall|i: int|
            0 <= i < name.len() ==> same_letter_in_any_case(#[trigger] p.name@[i], name[i])),
        tribe_named(t, name) <==> ((t.name@.len() == name.len() && forall|i: int|
            0 <= i < name.len() ==> same_letter_in_any_case(#[trigger] t.name@[i], name[i])) || (
        t.tag@.len() == name.len() && forall|i: int|
            0 <= i < name.len() ==> same_letter_in_any_case(#[trigger] t.tag@[i], name[i]))),
{
    lemma_ignoring_case_differs_only_in_letters(p.name@, name);
    lemma_ignoring_case_differs_only_in_letters(t.name@, name);
    lemma_ignoring_case_differs_only_in_letters(t.tag@, name);
}

/// Looking a player up by name does not depend on the ASCII case in which
/// the name is written: upper- or lower-casing it gives the same player.
pub proof fn lemma_player_lookup_ignores_case(tw: TribalWars, name: Seq<char>)
    ensures
        first_match(walk_of(&tw.players), |p: Player| player_named(p, ascii_uppercase(name)))
            == first_match(walk_of(&tw.players), |p: Player| player_named(p, name)),
        first_match(walk_of(&tw.players), |p: Player| player_named(p, ascii_lowercase(name)))
            == first_match(walk_of(&tw.players), |p: Player| player_named(p, name)),
{
    let f = |p: Player| player_named(p, name);
    let up = |p: Player| player_named(p, ascii_uppercase(name));
    let low = |p: Player| player_named(p, ascii_lowercase(name));
    assert forall|p: Player| #[trigger] up(p) == f(p) && low(p) == f(p) by {
        lemma_case_blind(p.name@, name);
    }
    assert(up =~= f);
    assert(low =~= f);
}

/// Looking a tribe up by name or tag does not depend on the ASCII case in
/// which it is written: upper- or lower-casing it gives the same tribe.
pub proof fn lemma_tribe_lookup_ignores_case(tw: TribalWars, name: Seq<char>)
    ensures
        first_match(walk_of(&tw.tribes), |t: Tribe| tribe_named(t, ascii_uppercase(name)))
            == first_match(walk_of(&tw.tribes), |t: Tribe| tribe_named(t, name)),
        first_match(walk_of(&tw.tribes), |t: Tribe| tribe_named(t, ascii_lowercase(name)))
            == first_match(walk_of(&tw.tribes), |t: Tribe| tribe_named(t, name)),
{
    let f = |t: Tribe| tribe_named(t, name);
    let up = |t: Tribe| tribe_named(t, ascii_uppercase(name));
    let low = |t: Tribe| tribe_named(t, ascii_lowercase(name));
    assert forall|t: Tribe| #[trigger] up(t) == f(t) && low(t) == f(t) by {
        lemma_case_blind(t.name@, name);
        lemma_case_blind(t.tag@, name);
    }
    assert(up =~= f);
    assert(low =~= f);
}

}
