//! The keystore: a map from names to recipes, read from and written to a
//! text of `<name>:<recipe wire form>` lines.

use vstd::prelude::*;
use vstd::utf8::{decode_utf8, encode_utf8, valid_utf8};
use crate::datastructs::{decode_utf8_chars, string_of_chars};
use crate::error::CipherError;
use crate::permutation::copy_range;
use crate::serialization::{
    Deserializer, Serializer, algo_text, decimal, layer_text, layers_text, lemma_decimal,
    lemma_text_round_trip, number_text, pad_text, parse_recipe, recipe_text, style_text, tag_text,
    w_bit, w_byte, w_char, w_group, w_padding, w_rail, w_simple, w_unpadding, w_vertical, word,
};
use crate::stacked::{AlgoModel, EncryptionStyle, LayerModel, PadApproach, StackedCypher, recipe_wf, style_ok};

verus! {

/// A named recipe.
pub type Entry = (Seq<char>, Seq<LayerModel>);

/// The map that a list of entries describes; a later entry wins over an
/// earlier one of the same name.
pub open spec fn entries_map(es: Seq<Entry>) -> Map<Seq<char>, Seq<LayerModel>>
    decreases es.len(),
{
    if es.len() == 0 {
        Map::empty()
    } else {
        entries_map(es.drop_last()).insert(es.last().0, es.last().1)
    }
}

pub open spec fn names_unique(es: Seq<Entry>) -> bool {
    forall|i: int, j: int| 0 <= i < es.len() && 0 <= j < es.len() && i != j ==> #[trigger] es[i].0 != #[trigger] es[j].0
}

proof fn lemma_map_has(es: Seq<Entry>, k: Seq<char>)
    ensures
        entries_map(es).contains_key(k) <==> exists|i: int| 0 <= i < es.len() && #[trigger] es[i].0 == k,
    decreases es.len(),
{
    if es.len() > 0 {
        let init = es.drop_last();
        lemma_map_has(init, k);
        if entries_map(init).contains_key(k) {
            let i = choose|i: int| 0 <= i < init.len() && #[trigger] init[i].0 == k;
            assert(es[i].0 == k);
        }
        if exists|i: int| 0 <= i < es.len() && #[trigger] es[i].0 == k {
            let i = choose|i: int| 0 <= i < es.len() && #[trigger] es[i].0 == k;
            if i < es.len() - 1 {
                assert(init[i].0 == k);
            }
        }
    }
}

proof fn lemma_map_at(es: Seq<Entry>, i: int)
    requires
        names_unique(es),
        0 <= i < es.len(),
    ensures
        entries_map(es).contains_key(es[i].0),
        entries_map(es)[es[i].0] == es[i].1,
    decreases es.len(),
{
    let init = es.drop_last();
    if i < es.len() - 1 {
        assert(names_unique(init)) by {
            assert forall|a: int, b: int| 0 <= a < init.len() && 0 <= b < init.len() && a != b implies #[trigger] init[a].0 != #[trigger] init[b].0 by {
                assert(es[a].0 != es[b].0);
            }
        }
        assert(init[i] == es[i]);
        lemma_map_at(init, i);
        assert(es.last().0 != es[i].0) by {
            assert(es[es.len() - 1].0 != es[i].0);
        }
    }
}

proof fn lemma_map_remove(es: Seq<Entry>, i: int)
    requires
        names_unique(es),
        0 <= i < es.len(),
    ensures
        entries_map(es.remove(i)) == entries_map(es).remove(es[i].0),
        names_unique(es.remove(i)),
    decreases es.len(),
{
    let init = es.drop_last();
    assert(names_unique(init)) by {
        assert forall|a: int, b: int| 0 <= a < init.len() && 0 <= b < init.len() && a != b implies #[trigger] init[a].0 != #[trigger] init[b].0 by {
            assert(es[a].0 != es[b].0);
        }
    }
    let r = es.remove(i);
    assert(names_unique(r)) by {
        assert forall|a: int, b: int| 0 <= a < r.len() && 0 <= b < r.len() && a != b implies #[trigger] r[a].0 != #[trigger] r[b].0 by {
            let a2 = if a < i { a } else { a + 1 };
            let b2 = if b < i { b } else { b + 1 };
            assert(es[a2].0 != es[b2].0);
        }
    }
    if i == es.len() - 1 {
        assert(r =~= init);
        lemma_map_has(init, es[i].0);
        assert forall|a: int| 0 <= a < init.len() implies #[trigger] init[a].0 != es[i].0 by {
            assert(es[a].0 != es[i].0);
        }
        assert(entries_map(r) =~= entries_map(es).remove(es[i].0));
    } else {
        lemma_map_remove(init, i);
        assert(r.drop_last() =~= init.remove(i));
        assert(r.last() == es.last());
        assert(es.last().0 != es[i].0) by {
            assert(es[es.len() - 1].0 != es[i].0);
        }
        assert(entries_map(r) =~= entries_map(es).remove(es[i].0));
    }
}

/// A name/recipe store with unique names.
#[derive(Debug, PartialEq, Eq)]
pub struct Database {
    pub(crate) data: Vec<(String, StackedCypher)>,
}

impl Database {
    /// The entries in their stored order.
    pub closed spec fn entries(&self) -> Seq<Entry> {
        self.data@.map_values(|e: (String, StackedCypher)| (e.0@, e.1@))
    }

    /// The name-to-recipe map.
    pub open spec fn map(&self) -> Map<Seq<char>, Seq<LayerModel>> {
        entries_map(self.entries())
    }

    #[verifier::type_invariant]
    pub open spec fn wf(&self) -> bool {
        &&& names_unique(self.entries())
        &&& entries_ok(self.entries())
    }

    /// An empty store.
    pub fn new() -> (r: Self)
        ensures
            r.map() == Map::<Seq<char>, Seq<LayerModel>>::empty(),
    {
        let r = Database { data: Vec::new() };
        proof {
            assert(r.entries() =~= Seq::<Entry>::empty());
        }
        r
    }

    /// The recipe stored under `key_name`.
    pub fn get(&self, key_name: &str) -> (r: Option<&StackedCypher>)
        ensures
            r is Some <==> self.map().contains_key(key_name@),
            r matches Some(c) ==> c@ == self.map()[key_name@],
    {
        proof {
            use_type_invariant(self);
            lemma_map_has(self.entries(), key_name@);
        }
        let key = key_name.to_owned();
        match position_in(&self.data, &key) {
            Some(i) => {
                proof {
                    lemma_map_at(self.entries(), i as int);
                }
                Some(&self.data[i].1)
            },
            None => None,
        }
    }

    /// Stores `value` under `key`, returning the recipe it replaces.
    pub fn add(&mut self, key: &str, value: StackedCypher) -> (r: Option<StackedCypher>)
        requires
            valid_name(key@),
        ensures
            final(self).map() == old(self).map().insert(key@, value@),
            r is Some <==> old(self).map().contains_key(key@),
            r matches Some(c) ==> c@ == old(self).map()[key@],
    {
        proof {
            use_type_invariant(&*self);
            lemma_map_has(self.entries(), key@);
        }
        let name = key.to_owned();
        let ghost es = self.entries();
        let ghost vm = value@;
        let _ = value.well_formed();
        let mut data: Vec<(String, StackedCypher)> = Vec::new();
        core::mem::swap(&mut self.data, &mut data);
        let found = position_in(&data, &name);
        let previous = match found {
            Some(i) => {
                proof {
                    lemma_map_at(es, i as int);
                    lemma_map_remove(es, i as int);
                }
                let (_, old_value) = data.remove(i);
                Some(old_value)
            },
            None => None,
        };
        let ghost before_push = data@.map_values(|e: (String, StackedCypher)| (e.0@, e.1@));
        data.push((name, value));
        proof {
            let now = data@.map_values(|e: (String, StackedCypher)| (e.0@, e.1@));
            assert(now =~= before_push.push((key@, vm)));
            assert(now.drop_last() =~= before_push);
            assert forall|a: int| 0 <= a < before_push.len() implies #[trigger] before_push[a].0 != key@ by {
                match found {
                    Some(i) => {
                        let a2 = if a < i { a } else { a + 1 };
                        assert(es[a2].0 != es[i as int].0);
                    },
                    None => {},
                }
            }
            match found {
                Some(i) => {
                    assert(before_push =~= es.remove(i as int));
                },
                None => {
                    assert(before_push =~= es);
                },
            }
            assert(names_unique(before_push));
            assert(entries_ok(now)) by {
                assert forall|a: int| 0 <= a < now.len() implies entry_ok(#[trigger] now[a]) by {
                    if a < before_push.len() {
                        assert(now[a] == before_push[a]);
                        match found {
                            Some(i) => {
                                let a2 = if a < i { a } else { a + 1 };
                                assert(before_push[a] == es[a2]);
                            },
                            None => {},
                        }
                    }
                }
            }
            assert(names_unique(now)) by {
                assert forall|a: int, b: int| 0 <= a < now.len() && 0 <= b < now.len() && a != b implies #[trigger] now[a].0 != #[trigger] now[b].0 by {
                    if a < before_push.len() && b < before_push.len() {
                        assert(now[a] == before_push[a]);
                        assert(now[b] == before_push[b]);
                    } else if a < before_push.len() {
                        assert(now[a] == before_push[a]);
                    } else if b < before_push.len() {
                        assert(now[b] == before_push[b]);
                    }
                }
            }
            match found {
                Some(i) => {
                    assert(before_push =~= es.remove(i as int));
                    assert(entries_map(now) =~= entries_map(es).insert(key@, vm));
                },
                None => {
                    assert(before_push =~= es);
                    assert(entries_map(now) =~= entries_map(es).insert(key@, vm));
                },
            }
        }
        core::mem::swap(&mut self.data, &mut data);
        previous
    }

    /// Removes the recipe stored under `key` and returns it.
    pub fn delete(&mut self, key: &str) -> (r: Option<StackedCypher>)
        ensures
            final(self).map() == old(self).map().remove(key@),
            r is Some <==> old(self).map().contains_key(key@),
            r matches Some(c) ==> c@ == old(self).map()[key@],
    {
        proof {
            use_type_invariant(&*self);
            lemma_map_has(self.entries(), key@);
        }
        let name = key.to_owned();
        let ghost es = self.entries();
        let mut data: Vec<(String, StackedCypher)> = Vec::new();
        core::mem::swap(&mut self.data, &mut data);
        let found = position_in(&data, &name);
        let removed = match found {
            Some(i) => {
                proof {
                    lemma_map_at(es, i as int);
                    lemma_map_remove(es, i as int);
                }
                let (_, old_value) = data.remove(i);
                proof {
                    let now = data@.map_values(|e: (String, StackedCypher)| (e.0@, e.1@));
                    assert(now =~= es.remove(i as int));
                    assert forall|a: int| 0 <= a < now.len() implies entry_ok(#[trigger] now[a]) by {
                        let a2 = if a < i { a } else { a + 1 };
                        assert(now[a] == es[a2]);
                    }
                }
                Some(old_value)
            },
            None => {
                proof {
                    assert(entries_map(es).remove(key@) =~= entries_map(es));
                }
                None
            },
        };
        core::mem::swap(&mut self.data, &mut data);
        removed
    }

    /// The stored names, each once.
    pub fn keys(&self) -> (r: Vec<String>)
        ensures
            forall|k: Seq<char>| self.map().contains_key(k) <==> exists|i: int| 0 <= i < r@.len() && #[trigger] r@[i]@ == k,
            forall|i: int, j: int| 0 <= i < r@.len() && 0 <= j < r@.len() && i != j ==> #[trigger] r@[i]@ != #[trigger] r@[j]@,
    {
        proof {
            use_type_invariant(self);
        }
        let mut r: Vec<String> = Vec::new();
        let mut i: usize = 0;
        while i < self.data.len()
            invariant
                0 <= i <= self.data@.len(),
                names_unique(self.entries()),
                r@.len() == i,
                forall|j: int| 0 <= j < i ==> #[trigger] r@[j]@ == self.entries()[j].0,
            decreases self.data@.len() - i,
        {
            r.push(self.data[i].0.clone());
            i = i + 1;
        }
        proof {
            assert forall|k: Seq<char>| self.map().contains_key(k) <==> exists|i: int| 0 <= i < r@.len() && #[trigger] r@[i]@ == k by {
                lemma_map_has(self.entries(), k);
                if exists|i: int| 0 <= i < r@.len() && #[trigger] r@[i]@ == k {
                    let i = choose|i: int| 0 <= i < r@.len() && #[trigger] r@[i]@ == k;
                    assert(self.entries()[i].0 == k);
                }
                if self.map().contains_key(k) {
                    let i = choose|i: int| 0 <= i < self.entries().len() && #[trigger] self.entries()[i].0 == k;
                    assert(r@[i]@ == k);
                }
            }
        }
        r
    }
}

fn position_in(data: &Vec<(String, StackedCypher)>, key: &String) -> (r: Option<usize>)
    ensures
        match r {
            Some(i) => i < data@.len() && data@[i as int].0@ == key@,
            None => forall|i: int| 0 <= i < data@.len() ==> #[trigger] data@[i].0@ != key@,
        },
{
    let mut i: usize = 0;
    while i < data.len()
        invariant
            0 <= i <= data@.len(),
            forall|j: int| 0 <= j < i ==> #[trigger] data@[j].0@ != key@,
        decreases data@.len() - i,
    {
        if data[i].0 == *key {
            return Some(i);
        }
        i = i + 1;
    }
    None
}

// ---- the text form ----

pub open spec fn newline() -> u8 {
    '\n' as u8
}

pub open spec fn colon() -> u8 {
    ':' as u8
}

/// The lines of `s`, split at every newline; there is always at least one.
pub open spec fn lines(s: Seq<u8>) -> Seq<Seq<u8>>
    decreases s.len(),
{
    if s.len() == 0 {
        seq![Seq::empty()]
    } else {
        let ls = lines(s.drop_last());
        if s.last() == newline() {
            ls.push(Seq::empty())
        } else {
            ls.update(ls.len() - 1, ls.last().push(s.last()))
        }
    }
}

proof fn lemma_lines_nonempty(s: Seq<u8>)
    ensures
        lines(s).len() >= 1,
    decreases s.len(),
{
    if s.len() > 0 {
        lemma_lines_nonempty(s.drop_last());
    }
}

/// Index of the first `b` in `s`, or -1.
pub open spec fn find_byte(s: Seq<u8>, b: u8) -> int
    decreases s.len(),
{
    if s.len() == 0 {
        -1
    } else if s.last() == b && find_byte(s.drop_last(), b) < 0 {
        s.len() - 1
    } else {
        find_byte(s.drop_last(), b)
    }
}

/// One line of the text: nothing when empty, else `<name>:<recipe>` with a
/// non-empty UTF-8 name and nothing after the recipe; `None` when malformed.
pub open spec fn parse_entry_line(line: Seq<u8>) -> Option<Option<Entry>> {
    if line.len() == 0 {
        Some(None)
    } else {
        let c = find_byte(line, colon());
        if c <= 0 || !valid_utf8(line.take(c)) {
            None
        } else {
            match parse_recipe(line.skip(c + 1)) {
                Some((ls, rest)) => if rest.len() == 0 {
                    Some(Some((decode_utf8(line.take(c)), ls)))
                } else {
                    None
                },
                None => None,
            }
        }
    }
}

pub open spec fn parse_lines(ls: Seq<Seq<u8>>) -> Option<Seq<Entry>>
    decreases ls.len(),
{
    if ls.len() == 0 {
        Some(Seq::empty())
    } else {
        match parse_lines(ls.drop_last()) {
            None => None,
            Some(es) => match parse_entry_line(ls.last()) {
                None => None,
                Some(None) => Some(es),
                Some(Some(e)) => Some(es.push(e)),
            },
        }
    }
}

/// The entries of a keystore text, in order, or `None` when a line is malformed.
pub open spec fn parse_entries(text: Seq<u8>) -> Option<Seq<Entry>> {
    parse_lines(lines(text))
}

pub open spec fn entry_text(e: Entry) -> Seq<u8> {
    encode_utf8(e.0).push(colon()) + recipe_text(e.1)
}

/// The entries joined by newlines.
pub open spec fn db_text(es: Seq<Entry>) -> Seq<u8>
    decreases es.len(),
{
    if es.len() == 0 {
        Seq::empty()
    } else if es.len() == 1 {
        entry_text(es[0])
    } else {
        db_text(es.drop_last()).push(newline()) + entry_text(es.last())
    }
}

proof fn lemma_parse_lines_fail(ls: Seq<Seq<u8>>, k: int)
    requires
        0 <= k <= ls.len(),
        parse_lines(ls.take(k)) is None,
    ensures
        parse_lines(ls) is None,
    decreases ls.len() - k,
{
    if k < ls.len() {
        assert(ls.take(k + 1).drop_last() =~= ls.take(k));
        lemma_parse_lines_fail(ls, k + 1);
    } else {
        assert(ls.take(k) =~= ls);
    }
}

/// Splits a text into its lines.
fn split_lines(text: &[u8]) -> (r: Vec<Vec<u8>>)
    ensures
        r@.map_values(|l: Vec<u8>| l@) == lines(text@),
{
    let mut done: Vec<Vec<u8>> = Vec::new();
    let mut cur: Vec<u8> = Vec::new();
    let mut i: usize = 0;
    proof {
        assert(text@.take(0) =~= Seq::<u8>::empty());
        assert(done@.map_values(|l: Vec<u8>| l@).push(cur@) =~= lines(text@.take(0)));
    }
    while i < text.len()
        invariant
            0 <= i <= text@.len(),
            done@.map_values(|l: Vec<u8>| l@).push(cur@) == lines(text@.take(i as int)),
        decreases text@.len() - i,
    {
        let b = text[i];
        let ghost before = done@.map_values(|l: Vec<u8>| l@);
        proof {
            assert(text@.take(i + 1).drop_last() =~= text@.take(i as int));
            lemma_lines_nonempty(text@.take(i as int));
        }
        if b == 10u8 {
            let mut line: Vec<u8> = Vec::new();
            core::mem::swap(&mut line, &mut cur);
            done.push(line);
            proof {
                assert(done@.map_values(|l: Vec<u8>| l@) =~= before.push(line@));
                assert(done@.map_values(|l: Vec<u8>| l@).push(cur@) =~= lines(text@.take(i + 1)));
            }
        } else {
            let ghost old_cur = cur@;
            cur.push(b);
            proof {
                assert(done@.map_values(|l: Vec<u8>| l@).push(cur@) =~= before.push(old_cur).update(before.len() as int, old_cur.push(b)));
                assert(done@.map_values(|l: Vec<u8>| l@).push(cur@) =~= lines(text@.take(i + 1)));
            }
        }
        i = i + 1;
    }
    done.push(cur);
    proof {
        assert(text@.take(text@.len() as int) =~= text@);
    }
    done
}

/// Index of the first `b` in `s`, if any.
fn find_in(s: &[u8], b: u8) -> (r: Option<usize>)
    ensures
        match r {
            Some(i) => i < s@.len() && find_byte(s@, b) == i,
            None => find_byte(s@, b) == -1,
        },
{
    let mut i: usize = 0;
    while i < s.len()
        invariant
            0 <= i <= s@.len(),
            find_byte(s@.take(i as int), b) == -1,
        decreases s@.len() - i,
    {
        proof {
            assert(s@.take(i + 1).drop_last() =~= s@.take(i as int));
        }
        if s[i] == b {
            proof {
                lemma_find_extends(s@, i as int + 1, b);
            }
            return Some(i);
        }
        i = i + 1;
    }
    proof {
        assert(s@.take(s@.len() as int) =~= s@);
    }
    None
}

proof fn lemma_find_extends(s: Seq<u8>, k: int, b: u8)
    requires
        0 <= k <= s.len(),
        find_byte(s.take(k), b) >= 0,
    ensures
        find_byte(s, b) == find_byte(s.take(k), b),
    decreases s.len() - k,
{
    if k < s.len() {
        assert(s.take(k + 1).drop_last() =~= s.take(k));
        lemma_find_extends(s, k + 1, b);
    } else {
        assert(s.take(k) =~= s);
    }
}

/// Reads one line of a keystore text.
fn read_entry_line(line: &[u8]) -> (r: Result<Option<(String, StackedCypher)>, CipherError>)
    requires
        lacks(line@, newline()),
    ensures
        match parse_entry_line(line@) {
            None => r == Err::<Option<(String, StackedCypher)>, CipherError>(CipherError::MalformedEntry),
            Some(None) => r matches Ok(None),
            Some(Some(e)) => r matches Ok(Some(x)) && x.0@ == e.0 && x.1@ == e.1 && valid_name(x.0@),
        },
{
    if line.len() == 0 {
        return Ok(None);
    }
    let c = match find_in(line, 58u8) {
        Some(c) => c,
        None => {
            return Err(CipherError::MalformedEntry);
        },
    };
    if c == 0 {
        return Err(CipherError::MalformedEntry);
    }
    let name_bytes = copy_range(line, 0, c);
    let chars = match decode_utf8_chars(name_bytes.as_slice()) {
        Some(chars) => chars,
        None => {
            proof {
                assert(name_bytes@ =~= line@.take(c as int));
            }
            return Err(CipherError::MalformedEntry);
        },
    };
    proof {
        assert(name_bytes@ =~= line@.take(c as int));
        lemma_find_prefix(line@, colon());
        assert(lacks(name_bytes@, newline())) by {
            assert forall|i: int| 0 <= i < name_bytes@.len() implies #[trigger] name_bytes@[i] != newline() by {
                assert(name_bytes@[i] == line@[i]);
            }
        }
        lemma_decode_plain(name_bytes@);
    }
    let body = copy_range(line, c + 1, line.len());
    proof {
        assert(body@ =~= line@.skip(c + 1));
    }
    let mut reader = Deserializer::new(body.as_slice());
    let recipe = match reader.read_cypher() {
        Ok(recipe) => recipe,
        Err(_) => {
            return Err(CipherError::MalformedEntry);
        },
    };
    if !reader.is_finished() {
        return Err(CipherError::MalformedEntry);
    }
    Ok(Some((string_of_chars(chars.as_slice()), recipe)))
}

impl Database {
    /// Reads a keystore text: one `<name>:<recipe>` entry per line, empty
    /// lines ignored, a later entry replacing an earlier one of the same name.
    pub fn parse(content: &[u8]) -> (r: Result<Database, CipherError>)
        ensures
            match parse_entries(content@) {
                None => r == Err::<Database, CipherError>(CipherError::MalformedEntry),
                Some(es) => r matches Ok(db) && db.map() == entries_map(es),
            },
    {
        let ls = split_lines(content);
        let ghost lsv = ls@.map_values(|l: Vec<u8>| l@);
        proof {
            lemma_lines_plain(content@);
        }
        let mut db = Database::new();
        let ghost acc: Seq<Entry> = Seq::empty();
        let mut k: usize = 0;
        proof {
            assert(lsv.take(0) =~= Seq::<Seq<u8>>::empty());
            assert(db.map() =~= entries_map(acc));
        }
        while k < ls.len()
            invariant
                lsv == ls@.map_values(|l: Vec<u8>| l@),
                lsv == lines(content@),
                forall|i: int| 0 <= i < lsv.len() ==> lacks(#[trigger] lsv[i], newline()),
                0 <= k <= ls@.len(),
                parse_lines(lsv.take(k as int)) == Some::<Seq<Entry>>(acc),
                db.map() == entries_map(acc),
            decreases ls@.len() - k,
        {
            proof {
                assert(lsv.take(k + 1).drop_last() =~= lsv.take(k as int));
                assert(lsv.take(k + 1).last() == ls@[k as int]@);
            }
            proof {
                assert(lacks(lsv[k as int], newline()));
            }
            match read_entry_line(ls[k].as_slice()) {
                Err(e) => {
                    proof {
                        lemma_parse_lines_fail(lsv, k + 1);
                    }
                    return Err(e);
                },
                Ok(None) => {},
                Ok(Some((name, recipe))) => {
                    let ghost e = (name@, recipe@);
                    db.add(name.as_str(), recipe);
                    proof {
                        assert(entries_map(acc.push(e)) == entries_map(acc).insert(e.0, e.1)) by {
                            assert(acc.push(e).drop_last() =~= acc);
                        }
                        acc = acc.push(e);
                    }
                },
            }
            k = k + 1;
        }
        proof {
            assert(lsv.take(ls@.len() as int) =~= lsv);
        }
        Ok(db)
    }

    /// Replaces the entries by those of `content`; on a malformed text the
    /// store is left as it was.
    pub fn reload_from(&mut self, content: &[u8]) -> (r: Result<(), CipherError>)
        ensures
            match parse_entries(content@) {
                None => r == Err::<(), CipherError>(CipherError::MalformedEntry) && final(self).map() == old(self).map(),
                Some(es) => r is Ok && final(self).map() == entries_map(es),
            },
    {
        let fresh = Database::parse(content)?;
        *self = fresh;
        Ok(())
    }

    /// The keystore text of the current entries, one line each; reading it
    /// back gives the same map.
    pub fn to_text(&self) -> (r: Vec<u8>)
        ensures
            r@ == db_text(self.entries()),
            parse_entries(r@) matches Some(es) && entries_map(es) == self.map(),
    {
        proof {
            use_type_invariant(self);
            lemma_db_text_round_trip(self.entries());
        }
        let mut out: Vec<u8> = Vec::new();
        let ghost es = self.entries();
        let mut i: usize = 0;
        while i < self.data.len()
            invariant
                es == self.entries(),
                0 <= i <= self.data@.len(),
                out@ == db_text(es.take(i as int)),
            decreases self.data@.len() - i,
        {
            let ghost before = out@;
            if i > 0 {
                out.push(10u8);
            }
            let entry = &self.data[i];
            let name = entry.0.as_str().as_bytes();
            let mut k: usize = 0;
            let ghost mid = out@;
            while k < name.len()
                invariant
                    0 <= k <= name@.len(),
                    out@ == mid + name@.take(k as int),
                decreases name@.len() - k,
            {
                out.push(name[k]);
                proof {
                    assert(out@ =~= mid + name@.take(k + 1));
                }
                k = k + 1;
            }
            out.push(58u8);
            let mut writer = Serializer::new();
            writer.write_cypher(&entry.1);
            let text = writer.into_inner();
            let mut k2: usize = 0;
            let ghost mid2 = out@;
            while k2 < text.len()
                invariant
                    0 <= k2 <= text@.len(),
                    out@ == mid2 + text@.take(k2 as int),
                decreases text@.len() - k2,
            {
                out.push(text[k2]);
                proof {
                    assert(out@ =~= mid2 + text@.take(k2 + 1));
                }
                k2 = k2 + 1;
            }
            proof {
                assert(name@.take(name@.len() as int) =~= name@);
                assert(text@.take(text@.len() as int) =~= text@);
                assert(es[i as int] == (entry.0@, entry.1@));
                assert(es.take(i + 1).drop_last() =~= es.take(i as int));
                if i == 0 {
                    assert(out@ =~= entry_text(es[0]));
                    assert(es.take(1)[0] == es[0]);
                } else {
                    assert(out@ =~= before.push(newline()) + entry_text(es[i as int]));
                }
            }
            i = i + 1;
        }
        proof {
            assert(es.take(self.data@.len() as int) =~= es);
        }
        out
    }
}

// ---- writing and reading back ----

pub open spec fn entry_texts(es: Seq<Entry>) -> Seq<Seq<u8>> {
    es.map_values(|e: Entry| entry_text(e))
}

/// `t` holds no byte `b`.
pub open spec fn lacks(t: Seq<u8>, b: u8) -> bool {
    forall|i: int| 0 <= i < t.len() ==> #[trigger] t[i] != b
}

/// A name the text form can hold: non-empty, without `:` or newline.
pub open spec fn valid_name(n: Seq<char>) -> bool {
    &&& n.len() > 0
    &&& forall|i: int| 0 <= i < n.len() ==> #[trigger] n[i] != ':' && n[i] != '\n'
}

proof fn lemma_high_bytes(y: u8)
    ensures
        (0x80u8 | y) >= 0x80u8,
        (0xC0u8 | y) >= 0x80u8,
        (0xE0u8 | y) >= 0x80u8,
        (0xF0u8 | y) >= 0x80u8,
{
    assert((0x80u8 | y) >= 0x80u8 && (0xC0u8 | y) >= 0x80u8 && (0xE0u8 | y) >= 0x80u8 && (0xF0u8 | y) >= 0x80u8) by (bit_vector);
}

proof fn lemma_low_scalar(v: u32)
    requires
        v <= 0x7f,
    ensures
        (v & 0x7f) == v,
{
    assert(v <= 0x7f ==> (v & 0x7f) == v) by (bit_vector);
}

/// The encoding of a scalar other than `:` and newline holds neither byte.
proof fn lemma_scalar_plain(c: char)
    requires
        c != ':',
        c != '\n',
    ensures
        lacks(vstd::utf8::encode_scalar(c as u32), colon()),
        lacks(vstd::utf8::encode_scalar(c as u32), newline()),
        vstd::utf8::encode_scalar(c as u32).len() > 0,
{
    let v = c as u32;
    let e = vstd::utf8::encode_scalar(v);
    lemma_high_bytes(((v >> 6) & 0x1F) as u8);
    lemma_high_bytes(((v >> 12) & 0x0F) as u8);
    lemma_high_bytes(((v >> 18) & 0x7) as u8);
    lemma_high_bytes((v & 0x3F) as u8);
    lemma_high_bytes(((v >> 6) & 0x3F) as u8);
    lemma_high_bytes(((v >> 12) & 0x3F) as u8);
    if vstd::utf8::has_width_1_encoding(v) {
        lemma_low_scalar(v);
        assert(':' as u32 == 58);
        assert('\n' as u32 == 10);
    }
}

/// The encoding of a valid name holds no `:` and no newline, and is not empty.
proof fn lemma_name_plain(n: Seq<char>)
    requires
        forall|i: int| 0 <= i < n.len() ==> #[trigger] n[i] != ':' && n[i] != '\n',
    ensures
        lacks(encode_utf8(n), colon()),
        lacks(encode_utf8(n), newline()),
        n.len() > 0 ==> encode_utf8(n).len() > 0,
    decreases n.len(),
{
    if n.len() > 0 {
        lemma_scalar_plain(n[0]);
        let rest = n.drop_first();
        assert forall|i: int| 0 <= i < rest.len() implies #[trigger] rest[i] != ':' && rest[i] != '\n' by {
            assert(rest[i] == n[i + 1]);
        }
        lemma_name_plain(rest);
    }
}

proof fn lemma_lacks_concat(a: Seq<u8>, b: Seq<u8>, x: u8)
    requires
        lacks(a, x),
        lacks(b, x),
    ensures
        lacks(a + b, x),
{
    assert forall|i: int| 0 <= i < (a + b).len() implies #[trigger] (a + b)[i] != x by {
        if i >= a.len() {
            assert((a + b)[i] == b[i - a.len()]);
        }
    }
}

proof fn lemma_tag_plain(w: Seq<char>)
    requires
        forall|i: int| 0 <= i < w.len() ==> 'a' <= #[trigger] w[i] <= 'z',
    ensures
        lacks(tag_text(w), newline()),
{
    assert forall|i: int| 0 <= i < tag_text(w).len() implies #[trigger] tag_text(w)[i] != newline() by {
        if i < w.len() {
            assert(tag_text(w)[i] == w[i] as u8);
        }
    }
}

proof fn lemma_number_plain(n: nat)
    ensures
        lacks(number_text(n), newline()),
{
    lemma_decimal(n);
    assert forall|i: int| 0 <= i < number_text(n).len() implies #[trigger] number_text(n)[i] != newline() by {
        if i < decimal(n).len() {
            assert(crate::serialization::is_digit(decimal(n)[i]));
        }
    }
}

proof fn lemma_numbers_plain(a: Seq<usize>)
    ensures
        lacks(crate::serialization::numbers_text(a), newline()),
    decreases a.len(),
{
    if a.len() > 0 {
        lemma_numbers_plain(a.drop_last());
        lemma_number_plain(a.last() as nat);
        lemma_lacks_concat(crate::serialization::numbers_text(a.drop_last()), number_text(a.last() as nat), newline());
    }
}

proof fn lemma_array_plain(a: Seq<usize>)
    ensures
        lacks(crate::serialization::array_text(a), newline()),
{
    lemma_number_plain(a.len());
    lemma_numbers_plain(a);
    lemma_lacks_concat(number_text(a.len()), crate::serialization::numbers_text(a), newline());
}

proof fn lemma_layer_plain(l: LayerModel)
    ensures
        lacks(layer_text(l), newline()),
{
    let nl = newline();
    match l.0 {
        PadApproach::Padding => lemma_tag_plain(w_padding()),
        PadApproach::Unpadding => lemma_tag_plain(w_unpadding()),
    }
    match l.1 {
        EncryptionStyle::Bit => lemma_tag_plain(w_bit()),
        EncryptionStyle::Byte => lemma_tag_plain(w_byte()),
        EncryptionStyle::Char => lemma_tag_plain(w_char()),
        EncryptionStyle::Group(g) => {
            lemma_tag_plain(w_group());
            lemma_number_plain(g as nat);
            lemma_lacks_concat(tag_text(w_group()), number_text(g as nat), nl);
        },
    }
    match l.2 {
        AlgoModel::Simple(p) => {
            lemma_tag_plain(w_simple());
            lemma_array_plain(p);
            lemma_lacks_concat(tag_text(w_simple()), crate::serialization::array_text(p), nl);
        },
        AlgoModel::Rail(r, c) => {
            lemma_tag_plain(w_rail());
            lemma_number_plain(c as nat);
            lemma_number_plain(r as nat);
            lemma_lacks_concat(tag_text(w_rail()), number_text(c as nat), nl);
            lemma_lacks_concat(tag_text(w_rail()) + number_text(c as nat), number_text(r as nat), nl);
        },
        AlgoModel::Vertical(r, c, pi) => {
            lemma_tag_plain(w_vertical());
            lemma_tag_plain(w_simple());
            lemma_number_plain(c as nat);
            lemma_number_plain(r as nat);
            lemma_array_plain(pi);
            let a1 = tag_text(w_vertical()) + number_text(c as nat);
            lemma_lacks_concat(tag_text(w_vertical()), number_text(c as nat), nl);
            lemma_lacks_concat(a1, number_text(r as nat), nl);
            lemma_lacks_concat(a1 + number_text(r as nat), tag_text(w_simple()), nl);
            lemma_lacks_concat(a1 + number_text(r as nat) + tag_text(w_simple()), crate::serialization::array_text(pi), nl);
        },
    }
    lemma_lacks_concat(pad_text(l.0), style_text(l.1), nl);
    lemma_lacks_concat(pad_text(l.0) + style_text(l.1), algo_text(l.2), nl);
}

proof fn lemma_recipe_plain(ls: Seq<LayerModel>)
    ensures
        lacks(layers_text(ls), newline()),
        lacks(recipe_text(ls), newline()),
    decreases ls.len(),
{
    if ls.len() > 0 {
        lemma_recipe_plain(ls.drop_last());
        lemma_layer_plain(ls.last());
        lemma_lacks_concat(layers_text(ls.drop_last()), layer_text(ls.last()), newline());
    }
    lemma_number_plain(ls.len());
    lemma_lacks_concat(number_text(ls.len()), layers_text(ls), newline());
}

proof fn lemma_find_absent(t: Seq<u8>, b: u8)
    requires
        lacks(t, b),
    ensures
        find_byte(t, b) == -1,
    decreases t.len(),
{
    if t.len() > 0 {
        lemma_find_absent(t.drop_last(), b);
    }
}

/// The first `b` of `t + [b] + rest` is right after `t` when `t` holds none.
proof fn lemma_find_first(t: Seq<u8>, b: u8, rest: Seq<u8>)
    requires
        lacks(t, b),
    ensures
        find_byte(t.push(b) + rest, b) == t.len(),
{
    let s = t.push(b) + rest;
    let k = t.len() as int;
    assert(s.take(k + 1) =~= t.push(b));
    assert(t.push(b).drop_last() =~= t);
    lemma_find_absent(t, b);
    lemma_find_extends(s, k + 1, b);
}

/// Appending text without newlines extends the last line.
proof fn lemma_lines_extend(s: Seq<u8>, t: Seq<u8>)
    requires
        lacks(t, newline()),
    ensures
        lines(s + t) == lines(s).update(lines(s).len() - 1, lines(s).last() + t),
    decreases t.len(),
{
    lemma_lines_nonempty(s);
    if t.len() == 0 {
        assert(s + t =~= s);
        assert(lines(s).last() + t =~= lines(s).last());
        assert(lines(s).update(lines(s).len() - 1, lines(s).last()) =~= lines(s));
    } else {
        let t2 = t.drop_last();
        assert(lacks(t2, newline())) by {
            assert forall|i: int| 0 <= i < t2.len() implies #[trigger] t2[i] != newline() by {
                assert(t2[i] == t[i]);
            }
        }
        lemma_lines_extend(s, t2);
        assert((s + t).drop_last() =~= s + t2);
        assert((s + t).last() == t.last());
        assert(t.last() != newline());
        lemma_lines_nonempty(s + t2);
        assert(lines(s + t) =~= lines(s).update(lines(s).len() - 1, lines(s).last() + t)) by {
            assert(lines(s).last() + t2 + seq![t.last()] =~= lines(s).last() + t);
            assert((lines(s).last() + t2).push(t.last()) =~= lines(s).last() + t);
        }
    }
}

/// The line of a named recipe reads back as that entry.
proof fn lemma_entry_line(e: Entry)
    requires
        valid_name(e.0),
        recipe_wf(e.1),
        e.1.len() <= usize::MAX,
        forall|i: int| 0 <= i < e.1.len() ==> style_ok(#[trigger] e.1[i].1),
    ensures
        parse_entry_line(entry_text(e)) == Some::<Option<Entry>>(Some(e)),
        lacks(entry_text(e), newline()),
{
    let name = encode_utf8(e.0);
    lemma_name_plain(e.0);
    lemma_recipe_plain(e.1);
    let line = entry_text(e);
    lemma_find_first(name, colon(), recipe_text(e.1));
    assert(line.take(name.len() as int) =~= name);
    assert(line.skip(name.len() as int + 1) =~= recipe_text(e.1) + Seq::<u8>::empty());
    vstd::utf8::encode_utf8_valid_utf8(e.0);
    vstd::utf8::encode_utf8_decode_utf8(e.0);
    crate::serialization::lemma_serializer_round_trip(e.1, Seq::empty());
    assert(recipe_text(e.1) + Seq::<u8>::empty() =~= recipe_text(e.1));
    assert(lacks(name.push(colon()), newline())) by {
        assert forall|i: int| 0 <= i < name.push(colon()).len() implies #[trigger] name.push(colon())[i] != newline() by {
            if i < name.len() {
                assert(name.push(colon())[i] == name[i]);
            }
        }
    }
    lemma_lacks_concat(name.push(colon()), recipe_text(e.1), newline());
}

/// Every entry can be written and read back.
pub open spec fn entry_ok(e: Entry) -> bool {
    &&& valid_name(e.0)
    &&& recipe_wf(e.1)
    &&& e.1.len() <= usize::MAX
    &&& forall|i: int| 0 <= i < e.1.len() ==> style_ok(#[trigger] e.1[i].1)
}

proof fn lemma_db_lines(es: Seq<Entry>)
    requires
        es.len() > 0,
        forall|i: int| 0 <= i < es.len() ==> entry_ok(#[trigger] es[i]),
    ensures
        lines(db_text(es)) == entry_texts(es),
    decreases es.len(),
{
    let last = es.last();
    assert(entry_ok(es[es.len() - 1]));
    lemma_entry_line(last);
    if es.len() == 1 {
        lemma_lines_extend(Seq::empty(), entry_text(es[0]));
        assert(Seq::<u8>::empty() + entry_text(es[0]) =~= entry_text(es[0]));
        assert(seq![Seq::<u8>::empty()].update(0, Seq::<u8>::empty() + entry_text(es[0])) =~= entry_texts(es));
    } else {
        let init = es.drop_last();
        assert forall|i: int| 0 <= i < init.len() implies entry_ok(#[trigger] init[i]) by {
            assert(init[i] == es[i]);
        }
        lemma_db_lines(init);
        let d = db_text(init);
        lemma_lines_extend(d.push(newline()), entry_text(last));
        assert(lines(d.push(newline())) == lines(d).push(Seq::empty())) by {
            assert(d.push(newline()).drop_last() =~= d);
        }
        assert(Seq::<u8>::empty() + entry_text(last) =~= entry_text(last));
        assert(lines(d).push(Seq::empty()).update(lines(d).len() as int, entry_text(last)) =~= lines(d).push(entry_text(last)));
        assert(entry_texts(es) =~= entry_texts(init).push(entry_text(last)));
    }
}

proof fn lemma_parse_entry_lines(es: Seq<Entry>)
    requires
        forall|i: int| 0 <= i < es.len() ==> entry_ok(#[trigger] es[i]),
    ensures
        parse_lines(entry_texts(es)) == Some::<Seq<Entry>>(es),
    decreases es.len(),
{
    if es.len() > 0 {
        let init = es.drop_last();
        assert forall|i: int| 0 <= i < init.len() implies entry_ok(#[trigger] init[i]) by {
            assert(init[i] == es[i]);
        }
        lemma_parse_entry_lines(init);
        assert(entry_ok(es[es.len() - 1]));
        lemma_entry_line(es.last());
        let m = entry_texts(es);
        assert(m.drop_last() =~= entry_texts(init));
        assert(init.push(es.last()) =~= es);
    }
}

/// Writing entries out and reading the text back gives the same entries,
/// when every name is non-empty without `:` or newline and every recipe is
/// valid with positive group sizes.
pub proof fn lemma_db_text_round_trip(es: Seq<Entry>)
    requires
        forall|i: int| 0 <= i < es.len() ==> entry_ok(#[trigger] es[i]),
    ensures
        parse_entries(db_text(es)) == Some::<Seq<Entry>>(es),
{
    if es.len() == 0 {
        assert(lines(db_text(es)) =~= seq![Seq::<u8>::empty()]);
        assert(seq![Seq::<u8>::empty()].drop_last() =~= Seq::<Seq<u8>>::empty());
        assert(parse_lines(Seq::<Seq<u8>>::empty()) == Some::<Seq<Entry>>(Seq::empty()));
        assert(es =~= Seq::<Entry>::empty());
    } else {
        lemma_db_lines(es);
        lemma_parse_entry_lines(es);
    }
}

pub open spec fn entries_ok(es: Seq<Entry>) -> bool {
    forall|i: int| 0 <= i < es.len() ==> entry_ok(#[trigger] es[i])
}

/// No line holds a newline.
proof fn lemma_lines_plain(s: Seq<u8>)
    ensures
        forall|i: int| 0 <= i < lines(s).len() ==> lacks(#[trigger] lines(s)[i], newline()),
    decreases s.len(),
{
    lemma_lines_nonempty(s);
    if s.len() > 0 {
        let init = s.drop_last();
        lemma_lines_plain(init);
        lemma_lines_nonempty(init);
        let ls = lines(init);
        if s.last() != newline() {
            let l2 = ls.last().push(s.last());
            assert(lacks(l2, newline())) by {
                assert(lacks(ls[ls.len() - 1], newline()));
                assert forall|j: int| 0 <= j < l2.len() implies #[trigger] l2[j] != newline() by {
                    if j < ls.last().len() {
                        assert(l2[j] == ls.last()[j]);
                    }
                }
            }
            assert forall|i: int| 0 <= i < lines(s).len() implies lacks(#[trigger] lines(s)[i], newline()) by {
                if i < ls.len() - 1 {
                    assert(lines(s)[i] == ls[i]);
                }
            }
        } else {
            assert forall|i: int| 0 <= i < lines(s).len() implies lacks(#[trigger] lines(s)[i], newline()) by {
                if i < ls.len() {
                    assert(lines(s)[i] == ls[i]);
                } else {
                    assert(lines(s)[i] =~= Seq::<u8>::empty());
                }
            }
        }
    }
}

proof fn lemma_find_bounds(s: Seq<u8>, b: u8)
    ensures
        -1 <= find_byte(s, b) < s.len(),
        find_byte(s, b) == -1 ==> lacks(s, b),
        find_byte(s, b) >= 0 ==> s[find_byte(s, b)] == b && lacks(s.take(find_byte(s, b)), b),
    decreases s.len(),
{
    if s.len() > 0 {
        let init = s.drop_last();
        lemma_find_bounds(init, b);
        let f = find_byte(init, b);
        if f >= 0 {
            assert(s.take(f) =~= init.take(f));
        } else if s.last() == b {
            assert(s.take(s.len() - 1) =~= init);
        } else {
            assert forall|i: int| 0 <= i < s.len() implies #[trigger] s[i] != b by {
                if i < init.len() {
                    assert(s[i] == init[i]);
                }
            }
        }
    }
}

/// The bytes before the first `b` hold no `b`.
proof fn lemma_find_prefix(s: Seq<u8>, b: u8)
    ensures
        find_byte(s, b) >= 0 ==> lacks(s.take(find_byte(s, b)), b),
{
    lemma_find_bounds(s, b);
}

/// An ASCII scalar in a sequence shows up as its byte in the encoding.
proof fn lemma_encode_shows(n: Seq<char>, i: int, c: char)
    requires
        0 <= i < n.len(),
        n[i] == c,
        (c as u32) <= 0x7f,
    ensures
        exists|j: int| 0 <= j < encode_utf8(n).len() && #[trigger] encode_utf8(n)[j] == c as u8,
    decreases n.len(),
{
    let first = vstd::utf8::encode_scalar(n[0] as u32);
    let rest = encode_utf8(n.drop_first());
    assert(encode_utf8(n) == first + rest);
    if i == 0 {
        lemma_low_scalar(c as u32);
        assert(first =~= seq![c as u8]);
        assert(encode_utf8(n)[0] == c as u8);
    } else {
        assert(n.drop_first()[i - 1] == c);
        lemma_encode_shows(n.drop_first(), i - 1, c);
        let j = choose|j: int| 0 <= j < rest.len() && #[trigger] rest[j] == c as u8;
        assert(encode_utf8(n)[first.len() + j] == c as u8);
    }
}

/// Valid UTF-8 without `:` and newline bytes decodes to a name without
/// `:` and newline; non-empty bytes give a non-empty name.
proof fn lemma_decode_plain(b: Seq<u8>)
    requires
        valid_utf8(b),
        lacks(b, colon()),
        lacks(b, newline()),
        b.len() > 0,
    ensures
        valid_name(decode_utf8(b)),
{
    let n = decode_utf8(b);
    vstd::utf8::decode_utf8_encode_utf8(b);
    assert(n.len() > 0);
    assert forall|i: int| 0 <= i < n.len() implies #[trigger] n[i] != ':' && n[i] != '\n' by {
        if n[i] == ':' {
            lemma_encode_shows(n, i, ':');
            let j = choose|j: int| 0 <= j < encode_utf8(n).len() && #[trigger] encode_utf8(n)[j] == ':' as u8;
            assert(b[j] == colon());
        }
        if n[i] == '\n' {
            lemma_encode_shows(n, i, '\n');
            let j = choose|j: int| 0 <= j < encode_utf8(n).len() && #[trigger] encode_utf8(n)[j] == '\n' as u8;
            assert(b[j] == newline());
        }
    }
}

} // verus!
