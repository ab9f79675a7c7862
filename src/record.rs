//! Projection of one JSON record onto a set of requested top-level keys.
use vstd::prelude::*;
use vstd::utf8::encode_utf8;
use crate::bitmaps::{LeveledColons, colon_at_depth, unmatched_close, escaped, is_byte, run_before, BACKSLASH, QUOTE};

verus! {

/// What is asked of a requested key: its value itself, or a path further inside it.
pub enum Field {
    Simple,
    Nested(Vec<String>),
}

/// A field's model: `None` for a simple field, else the rest of its path.
pub open spec fn field_model(f: Field) -> Option<Seq<Seq<char>>> {
    match f {
        Field::Simple => None,
        Field::Nested(rest) => Some(rest@.map_values(|s: String| s@)),
    }
}

/// The key paths, as sequences of strings.
pub open spec fn paths_model(paths: Seq<Vec<String>>) -> Seq<Seq<Seq<char>>> {
    paths.map_values(|p: Vec<String>| p@.map_values(|s: String| s@))
}

/// The fields that the first `upto` paths request, a later path replacing an earlier
/// one with the same first key; empty paths request nothing.
pub open spec fn requested(paths: Seq<Seq<Seq<char>>>, upto: int) -> Map<
    Seq<char>,
    Option<Seq<Seq<char>>>,
>
    decreases upto,
{
    if upto <= 0 {
        Map::empty()
    } else {
        let m = requested(paths, upto - 1);
        let p = paths[upto - 1];
        if p.len() == 0 {
            m
        } else {
            m.insert(
                p[0],
                if p.len() == 1 {
                    None
                } else {
                    Some(p.drop_first())
                },
            )
        }
    }
}

/// The longest path among the first `upto`, and at least 1.
pub open spec fn longest(paths: Seq<Seq<Seq<char>>>, upto: int) -> nat
    decreases upto,
{
    if upto <= 0 {
        1
    } else {
        let d = longest(paths, upto - 1);
        if paths[upto - 1].len() > d {
            paths[upto - 1].len()
        } else {
            d
        }
    }
}

/// A consumable set of requested keys: a key that a record has matched is taken out.
pub struct FieldSet {
    fields: Vec<(String, Field)>,
    depth: usize,
}

impl View for FieldSet {
    type V = Seq<(Seq<char>, Option<Seq<Seq<char>>>)>;

    closed spec fn view(&self) -> Self::V {
        self.fields@.map_values(|e: (String, Field)| (e.0@, field_model(e.1)))
    }
}

/// The index of the entry whose key is `key`, if any.
fn find_key(fields: &Vec<(String, Field)>, key: &String) -> (r: Option<usize>)
    ensures
        r matches Some(a) ==> a < fields.len() && fields@[a as int].0@ == key@,
        r is None ==> forall|b: int| 0 <= b < fields.len() ==> fields@[b].0@ != key@,
{
    let mut a: usize = 0;
    while a < fields.len()
        invariant
            a <= fields.len(),
            forall|b: int| 0 <= b < a ==> fields@[b].0@ != key@,
        decreases fields.len() - a,
    {
        if fields[a].0 == *key {
            return Some(a);
        }
        a = a + 1;
    }
    None
}

impl FieldSet {
    /// No key appears twice, and the depth bound is at least one level.
    pub open spec fn wf(&self) -> bool {
        &&& forall|a: int, b: int| 0 <= a < b < self@.len() ==> self@[a].0 != self@[b].0
        &&& self.depth_spec() >= 1
    }

    /// The entries hold exactly the keys of `m`, each with what `m` asks of it.
    pub open spec fn holds(&self, m: Map<Seq<char>, Option<Seq<Seq<char>>>>) -> bool {
        &&& forall|a: int| 0 <= a < self@.len() ==> #[trigger] m.contains_key(self@[a].0) && m[self@[a].0] == self@[a].1
        &&& forall|k: Seq<char>| #[trigger] m.contains_key(k) ==> exists|a: int| 0 <= a < self@.len() && self@[a].0 == k
    }

    #[verifier::type_invariant]
    spec fn inv(&self) -> bool {
        self.wf()
    }

    /// The depth bound that the set was built with.
    pub closed spec fn depth_spec(&self) -> nat {
        self.depth as nat
    }

    /// Requests the first component of each non-empty path; a later path with the same
    /// first key replaces an earlier one.
    pub fn new(key_paths: Vec<Vec<String>>) -> (r: Self)
        ensures
            r.wf(),
            r.holds(requested(paths_model(key_paths@), key_paths.len() as int)),
            r.depth_spec() == longest(paths_model(key_paths@), key_paths.len() as int),
    {
        let ghost paths = paths_model(key_paths@);
        let mut fields: Vec<(String, Field)> = Vec::with_capacity(key_paths.len());
        let mut depth: usize = 1;
        let mut j: usize = 0;
        while j < key_paths.len()
            invariant
                j <= key_paths.len(),
                paths == paths_model(key_paths@),
                depth == longest(paths, j as int),
                (FieldSet { fields, depth }).wf(),
                (FieldSet { fields, depth }).holds(requested(paths, j as int)),
            decreases key_paths.len() - j,
        {
            let path = &key_paths[j];
            let ghost old_set = FieldSet { fields, depth };
            assert(paths[j as int] == path@.map_values(|s: String| s@));
            assert(paths[j as int].len() == path.len());
            if path.len() > depth {
                depth = path.len();
            }
            if path.len() > 0 {
                let head = path[0].clone();
                let value = if path.len() == 1 {
                    Field::Simple
                } else {
                    let mut rest: Vec<String> = Vec::with_capacity(path.len() - 1);
                    let mut t: usize = 1;
                    while t < path.len()
                        invariant
                            1 <= t <= path.len(),
                            rest.len() == t - 1,
                            forall|b: int| 0 <= b < t - 1 ==> #[trigger] rest@[b] == path@[b + 1],
                        decreases path.len() - t,
                    {
                        rest.push(path[t].clone());
                        t = t + 1;
                    }
                    assert(rest@.map_values(|s: String| s@) =~= paths[j as int].drop_first());
                    Field::Nested(rest)
                };
                let ghost model = field_model(value);
                assert(model == if path.len() == 1 {
                    None
                } else {
                    Some(paths[j as int].drop_first())
                });
                let ghost m = requested(paths, j as int);
                let ghost key = head@;
                assert(key == paths[j as int][0]);
                let found = find_key(&fields, &head);
                match found {
                    Some(a) => {
                        fields.set(a, (head, value));
                    },
                    None => {
                        fields.push((head, value));
                    },
                }
                proof {
                    let new_set = FieldSet { fields, depth };
                    let m2 = m.insert(key, model);
                    assert(requested(paths, j + 1) == m2);
                    assert(new_set@.len() >= old_set@.len());
                    assert forall|b: int| 0 <= b < old_set@.len() && old_set@[b].0 != key implies new_set@[b] == old_set@[b] by {}
                    assert(old_set.wf() && old_set.holds(m));
                    match found {
                        Some(a) => {
                            assert(new_set@ =~= old_set@.update(a as int, (key, model)));
                        },
                        None => {
                            assert(new_set@ =~= old_set@.push((key, model)));
                        },
                    }
                    assert forall|a: int, b: int| 0 <= a < b < new_set@.len() implies new_set@[a].0 != new_set@[b].0 by {}
                    assert forall|a: int| 0 <= a < new_set@.len() implies #[trigger] m2.contains_key(new_set@[a].0) && m2[new_set@[a].0] == new_set@[a].1 by {
                        if a < old_set@.len() && old_set@[a].0 != key {
                            assert(new_set@[a] == old_set@[a]);
                            assert(m.contains_key(old_set@[a].0));
                        } else {
                            match found {
                                Some(f) => {
                                    if a != f {
                                        assert(old_set@[a].0 == old_set@[f as int].0);
                                    }
                                },
                                None => {},
                            }
                        }
                    }
                    assert forall|k: Seq<char>| #[trigger] m2.contains_key(k) implies exists|a: int| 0 <= a < new_set@.len() && new_set@[a].0 == k by {
                        if k != key {
                            let b = choose|b: int| 0 <= b < old_set@.len() && old_set@[b].0 == k;
                            assert(new_set@[b].0 == k);
                        } else {
                            match found {
                                Some(a) => { assert(new_set@[a as int].0 == k); },
                                None => { assert(new_set@[old_set@.len() as int].0 == k); },
                            }
                        }
                    }
                }
            }
            j = j + 1;
        }
        FieldSet { fields, depth }
    }

    /// Whether every requested key has been taken out.
    pub fn is_empty(&self) -> (r: bool)
        ensures
            r == (self@.len() == 0),
    {
        self.fields.len() == 0
    }

    /// The number of levels that a record must index to reach every requested path.
    pub fn max_depth(&self) -> (r: usize)
        ensures
            r == self.depth_spec(),
    {
        self.depth
    }
}

/// Whether the UTF-8 encoding of `k` is `bytes[start..end]`.
pub open spec fn key_is(k: Seq<char>, bytes: Seq<u8>, start: int, end: int) -> bool {
    encode_utf8(k) == bytes.subrange(start, end)
}

/// Whether `bytes[start..end]` is the UTF-8 encoding of `k`.
fn same_key(k: &String, bytes: &[u8], start: usize, end: usize) -> (r: bool)
    requires
        start <= end <= bytes.len(),
    ensures
        r == key_is(k@, bytes@, start as int, end as int),
{
    let kb = k.as_str().as_bytes();
    if kb.len() != end - start {
        return false;
    }
    let mut i: usize = 0;
    while i < kb.len()
        invariant
            kb@ == encode_utf8(k@),
            kb.len() == end - start,
            start <= end <= bytes.len(),
            i <= kb.len(),
            forall|j: int| 0 <= j < i ==> kb@[j] == bytes@[start + j],
        decreases kb.len() - i,
    {
        if kb[i] != bytes[start + i] {
            return false;
        }
        i = i + 1;
    }
    assert(kb@ =~= bytes@.subrange(start as int, end as int));
    true
}

impl FieldSet {
    /// Takes out the entry whose key is encoded by `bytes[start..end]`, if any.
    pub fn remove(&mut self, bytes: &[u8], start: usize, end: usize) -> (r: Option<(String, Field)>)
        requires
            start <= end <= bytes.len(),
        ensures
            final(self).depth_spec() == old(self).depth_spec(),
            r is None ==> final(self)@ == old(self)@ && forall|a: int|
                0 <= a < old(self)@.len() ==> !key_is(old(self)@[a].0, bytes@, start as int, end as int),
            r matches Some(e) ==> exists|a: int|
                0 <= a < old(self)@.len() && key_is(old(self)@[a].0, bytes@, start as int, end as int)
                    && e.0@ == old(self)@[a].0 && field_model(e.1) == old(self)@[a].1
                    && final(self)@ == old(self)@.remove(a),
    {
        proof {
            use_type_invariant(&*self);
        }
        let mut a: usize = 0;
        while a < self.fields.len()
            invariant
                a <= self.fields.len(),
                *self == *old(self),
                old(self).wf(),
                start <= end <= bytes.len(),
                forall|b: int| 0 <= b < a ==> !key_is(self@[b].0, bytes@, start as int, end as int),
            decreases self.fields.len() - a,
        {
            if same_key(&self.fields[a].0, bytes, start, end) {
                let ghost before = self@;
                let mut fields: Vec<(String, Field)> = Vec::new();
                std::mem::swap(&mut fields, &mut self.fields);
                let e = fields.remove(a);
                let ghost rest = FieldSet { fields, depth: self.depth };
                assert(rest@ =~= before.remove(a as int));
                assert forall|x: int, y: int| 0 <= x < y < rest@.len() implies rest@[x].0 != rest@[y].0 by {
                    let ox = if x < a { x } else { x + 1 };
                    let oy = if y < a { y } else { y + 1 };
                    assert(rest@[x] == before[ox] && rest@[y] == before[oy]);
                    assert(ox < oy < before.len());
                    assert(before[ox].0 != before[oy].0);
                }
                *self = FieldSet { fields, depth: self.depth };
                return Some(e);
            }
            a = a + 1;
        }
        None
    }
}

/// An ASCII whitespace byte: tab, line feed, carriage return or space.
pub open spec fn is_ws(b: u8) -> bool {
    b == 9 || b == 10 || b == 13 || b == 32
}

/// Scanning back from just before `i` over whitespace, the position of the quote found.
pub open spec fn closing_quote(bytes: Seq<u8>, i: int) -> Option<int>
    decreases i,
{
    if i <= 0 || i > bytes.len() {
        None
    } else if bytes[i - 1] == QUOTE {
        Some(i - 1)
    } else if is_ws(bytes[i - 1]) {
        closing_quote(bytes, i - 1)
    } else {
        None
    }
}

/// The last unescaped quote before `i`.
pub open spec fn opening_quote(bytes: Seq<u8>, i: int) -> Option<int>
    decreases i,
{
    if i <= 0 || i > bytes.len() {
        None
    } else if bytes[i - 1] == QUOTE && !escaped(bytes, i - 1) {
        Some(i - 1)
    } else {
        opening_quote(bytes, i - 1)
    }
}

/// The byte range of the key that a colon at `colon` follows, between its quotes.
pub open spec fn key_span(bytes: Seq<u8>, colon: int) -> Option<(int, int)> {
    match closing_quote(bytes, colon) {
        Some(e) => match opening_quote(bytes, e) {
            Some(s) => Some((s + 1, e)),
            None => None,
        },
        None => None,
    }
}

/// Number of backslashes that run up to position `p`.
fn backslash_run(bytes: &[u8], p: usize) -> (r: usize)
    requires
        p <= bytes.len(),
    ensures
        r == run_before(is_byte(bytes@, BACKSLASH), p as int),
{
    let mut j = p;
    while j > 0 && bytes[j - 1] == BACKSLASH
        invariant
            j <= p <= bytes.len(),
            run_before(is_byte(bytes@, BACKSLASH), p as int) == (p - j) + run_before(
                is_byte(bytes@, BACKSLASH),
                j as int,
            ),
        decreases j,
    {
        j = j - 1;
    }
    p - j
}

/// Scans back from just before `i` over whitespace to a quote.
fn closing_quote_before(bytes: &[u8], i: usize) -> (r: Option<usize>)
    requires
        i <= bytes.len(),
    ensures
        r matches Some(e) ==> e < i && closing_quote(bytes@, i as int) == Some(e as int),
        r is None ==> closing_quote(bytes@, i as int) is None,
{
    let mut j = i;
    while j > 0
        invariant
            j <= i <= bytes.len(),
            closing_quote(bytes@, i as int) == closing_quote(bytes@, j as int),
        decreases j,
    {
        let b = bytes[j - 1];
        if b == QUOTE {
            return Some(j - 1);
        } else if b == 9 || b == 10 || b == 13 || b == 32 {
            j = j - 1;
        } else {
            return None;
        }
    }
    None
}

/// Scans back from just before `i` to the nearest unescaped quote.
fn opening_quote_before(bytes: &[u8], i: usize) -> (r: Option<usize>)
    requires
        i <= bytes.len(),
    ensures
        r matches Some(s) ==> s < i && opening_quote(bytes@, i as int) == Some(s as int),
        r is None ==> opening_quote(bytes@, i as int) is None,
{
    let mut k = i;
    while k > 0
        invariant
            k <= i <= bytes.len(),
            opening_quote(bytes@, i as int) == opening_quote(bytes@, k as int),
        decreases k,
    {
        if bytes[k - 1] == QUOTE && backslash_run(bytes, k - 1) % 2 == 0 {
            return Some(k - 1);
        }
        k = k - 1;
    }
    None
}

/// Finds the key before the colon at `colon`: back over whitespace to its closing quote,
/// then back to the nearest quote that an odd run of backslashes does not escape.
pub fn key_span_before(bytes: &[u8], colon: usize) -> (r: Option<(usize, usize)>)
    requires
        colon <= bytes.len(),
    ensures
        r matches Some(sp) ==> sp.0 <= sp.1 < colon && key_span(bytes@, colon as int) == Some((sp.0 as int, sp.1 as int)),
        r is None ==> key_span(bytes@, colon as int) is None,
{
    match closing_quote_before(bytes, colon) {
        None => None,
        Some(end) => match opening_quote_before(bytes, end) {
            None => None,
            Some(open) => Some((open + 1, end)),
        },
    }
}

impl Field {
    /// A field that asks for the same thing.
    pub fn copy(&self) -> (r: Field)
        ensures
            field_model(r) == field_model(*self),
    {
        match self {
            Field::Simple => Field::Simple,
            Field::Nested(rest) => {
                let c = rest.clone();
                assert(c@ =~= rest@);
                Field::Nested(c)
            },
        }
    }
}

impl FieldSet {
    /// A field set with the same entries and depth bound, for a fresh record.
    pub fn copy(&self) -> (r: FieldSet)
        ensures
            r@ == self@,
            r.depth_spec() == self.depth_spec(),
    {
        let mut fields: Vec<(String, Field)> = Vec::with_capacity(self.fields.len());
        let mut a: usize = 0;
        while a < self.fields.len()
            invariant
                a <= self.fields.len(),
                fields.len() == a,
                forall|b: int| 0 <= b < a ==> (#[trigger] fields@[b]).0@ == self.fields@[b].0@
                    && field_model(fields@[b].1) == field_model(self.fields@[b].1),
            decreases self.fields.len() - a,
        {
            let e = &self.fields[a];
            fields.push((e.0.clone(), e.1.copy()));
            a = a + 1;
        }
        proof {
            use_type_invariant(self);
            assert((FieldSet { fields, depth: self.depth })@ =~= self@);
        }
        FieldSet { fields, depth: self.depth }
    }
}

/// One record being projected: its bytes, the keys still requested, and its top-level
/// colons with a cursor into them.
pub struct Record {
    bytes: Vec<u8>,
    fields: FieldSet,
    colons: Vec<usize>,
    next: usize,
}

impl Record {
    /// The record's bytes.
    pub closed spec fn bytes_spec(&self) -> Seq<u8> {
        self.bytes@
    }

    /// The keys that are still requested.
    pub closed spec fn fields_spec(&self) -> FieldSet {
        self.fields
    }

    /// The offsets of the record's top-level colons.
    pub closed spec fn colons_spec(&self) -> Seq<usize> {
        self.colons@
    }

    /// Index of the next colon to look at.
    pub closed spec fn cursor(&self) -> nat {
        self.next as nat
    }

    #[verifier::type_invariant]
    spec fn inv(&self) -> bool {
        &&& self.next <= self.colons.len()
        &&& forall|j: int| 0 <= j < self.colons@.len() ==> #[trigger] self.colons@[j] < self.bytes@.len()
    }

    /// Whether colon `j` of the list follows a key that is still requested.
    pub open spec fn requested_at(&self, j: int) -> bool {
        match key_span(self.bytes_spec(), self.colons_spec()[j] as int) {
            Some(sp) => exists|a: int|
                0 <= a < self.fields_spec()@.len() && #[trigger] key_is(
                    self.fields_spec()@[a].0,
                    self.bytes_spec(),
                    sp.0,
                    sp.1,
                ),
            None => false,
        }
    }

    /// Indexes `bytes` deep enough for `fields`, and lists its top-level colons. A record
    /// with a `}` that closes no object is malformed and abandoned: it lists no colon.
    pub fn new(bytes: Vec<u8>, fields: FieldSet) -> (r: Self)
        ensures
            r.bytes_spec() == bytes@,
            r.fields_spec() == fields,
            r.cursor() == 0,
            forall|a: int, b: int| 0 <= a < b < r.colons_spec().len() ==> r.colons_spec()[a] < r.colons_spec()[b],
            unmatched_close(bytes@) ==> r.colons_spec().len() == 0,
            forall|a: int| 0 <= a < r.colons_spec().len() ==> colon_at_depth(bytes@, 1)(#[trigger] r.colons_spec()[a] as int),
            !unmatched_close(bytes@) ==> forall|p: int| #[trigger] colon_at_depth(bytes@, 1)(p) ==> r.colons_spec().contains(p as usize),
    {
        proof {
            use_type_invariant(&fields);
        }
        let index = LeveledColons::build(&bytes, fields.max_depth());
        let colons = if index.unmatched() {
            Vec::new()
        } else {
            index.positions(0)
        };
        proof {
            assert(index@.len() >= 1);
            assert(crate::bitmaps::marks(index@[0], bytes@.len() as int, colon_at_depth(bytes@, 1)));
            assert forall|p: int| !unmatched_close(bytes@) && #[trigger] colon_at_depth(bytes@, 1)(p) implies colons@.contains(p as usize) by {
                assert(crate::bitmaps::has_bit(index@[0], p));
            }
        }
        Record { bytes, fields, colons, next: 0 }
    }

    /// The bytes of the record.
    pub fn bytes(&self) -> (r: &[u8])
        ensures
            r@ == self.bytes_spec(),
    {
        self.bytes.as_slice()
    }

    /// The span of the key that the colon at `colon` follows, if one can be read. The
    /// span's bytes are not decoded here: a span that is not UTF-8 encodes no requested
    /// key, so `next_hit` passes over its colon.
    pub fn key_preceding(&self, colon: usize) -> (r: Option<(usize, usize)>)
        requires
            colon <= self.bytes_spec().len(),
        ensures
            r matches Some(sp) ==> key_span(self.bytes_spec(), colon as int) == Some((sp.0 as int, sp.1 as int)),
            r is None ==> key_span(self.bytes_spec(), colon as int) is None,
    {
        key_span_before(&self.bytes, colon)
    }

    /// Moves to the next colon whose key is still requested, takes that key out of the
    /// field set, and returns it with what was asked of it and the offset just past the
    /// colon, where its value starts. Colons whose key cannot be read, or is not
    /// requested, are passed over.
    pub fn next_hit(&mut self) -> (r: Option<(String, Field, usize)>)
        ensures
            final(self).bytes_spec() == old(self).bytes_spec(),
            final(self).colons_spec() == old(self).colons_spec(),
            r is None ==> final(self).fields_spec()@ == old(self).fields_spec()@ && forall|j: int|
                old(self).cursor() <= j < old(self).colons_spec().len() ==> !#[trigger] old(self).requested_at(j),
            r matches Some(h) ==> exists|j: int, a: int|
                old(self).cursor() <= j < old(self).colons_spec().len() && 0 <= a < old(self).fields_spec()@.len()
                    && final(self).cursor() == j + 1
                    && (forall|i: int| old(self).cursor() <= i < j ==> !#[trigger] old(self).requested_at(i))
                    && (key_span(old(self).bytes_spec(), old(self).colons_spec()[j] as int) matches Some(sp)
                        && key_is(old(self).fields_spec()@[a].0, old(self).bytes_spec(), sp.0, sp.1))
                    && h.0@ == old(self).fields_spec()@[a].0
                    && field_model(h.1) == old(self).fields_spec()@[a].1
                    && final(self).fields_spec()@ == old(self).fields_spec()@.remove(a)
                    && h.2 == old(self).colons_spec()[j] + 1,
    {
        proof {
            use_type_invariant(&*self);
        }
        while self.next < self.colons.len()
            invariant
                self.next <= self.colons.len(),
                forall|j: int| 0 <= j < self.colons@.len() ==> #[trigger] self.colons@[j] < self.bytes@.len(),
                self.bytes == old(self).bytes,
                self.colons == old(self).colons,
                self.fields@ == old(self).fields@,
                self.fields.depth == old(self).fields.depth,
                old(self).cursor() <= self.next,
                forall|i: int| old(self).cursor() <= i < self.next ==> !#[trigger] old(self).requested_at(i),
            decreases self.colons.len() - self.next,
        {
            if self.fields.is_empty() {
                return None;
            }
            let j = self.next;
            let colon = self.colons[j];
            assert(colon == self.colons_spec()[j as int]);
            assert(colon < self.bytes_spec().len());
            assert(colon < self.bytes.len());
            self.next = self.next + 1;
            match key_span_before(&self.bytes, colon) {
                Some((start, end)) => {
                    let ghost before = self.fields;
                    let mut fields = FieldSet { fields: Vec::new(), depth: 1 };
                    std::mem::swap(&mut fields, &mut self.fields);
                    let taken = fields.remove(&self.bytes, start, end);
                    std::mem::swap(&mut fields, &mut self.fields);
                    match taken {
                        Some((key, field)) => {
                            proof {
                                let a = choose|a: int|
                                    0 <= a < before@.len() && key_is(before@[a].0, self.bytes@, start as int, end as int)
                                        && key@ == before@[a].0 && field_model(field) == before@[a].1
                                        && self.fields@ == before@.remove(a);
                                assert(self.cursor() == j + 1);
                                assert(old(self).fields_spec()@[a].0 == before@[a].0);
                                let jj = j as int;
                                assert(key_span(old(self).bytes_spec(), old(self).colons_spec()[jj] as int) == Some((start as int, end as int)));
                                assert(key_span(old(self).bytes_spec(), old(self).colons_spec()[jj] as int) matches Some(sp)
                                    && key_is(old(self).fields_spec()@[a].0, old(self).bytes_spec(), sp.0, sp.1));
                                assert(self.fields_spec()@ == old(self).fields_spec()@.remove(a));
                                assert(forall|i: int| old(self).cursor() <= i < jj ==> !#[trigger] old(self).requested_at(i));
                            }
                            return Some((key, field, colon + 1));
                        },
                        None => {
                            assert(self.fields@ == before@);
                            assert(!old(self).requested_at(j as int));
                        },
                    }
                },
                None => {},
            }
        }
        None
    }
}

/// A fixed set of requested key paths, applied to record after record.
pub struct Query {
    field_set: FieldSet,
}

impl Query {
    /// The keys that each record is searched for.
    pub closed spec fn field_set_spec(&self) -> FieldSet {
        self.field_set
    }

    /// A query for the given key paths.
    pub fn new(fields: Vec<Vec<String>>) -> (r: Self)
        ensures
            r.field_set_spec().holds(requested(paths_model(fields@), fields.len() as int)),
            r.field_set_spec().depth_spec() == longest(paths_model(fields@), fields.len() as int),
    {
        let field_set = FieldSet::new(fields);
        Query { field_set }
    }

    /// Starts the projection of one record, with every requested key still to find; a
    /// record with a `}` that closes no object yields nothing.
    pub fn record(&self, json: Vec<u8>) -> (r: Record)
        ensures
            r.bytes_spec() == json@,
            r.fields_spec()@ == self.field_set_spec()@,
            r.cursor() == 0,
            forall|a: int, b: int| 0 <= a < b < r.colons_spec().len() ==> r.colons_spec()[a] < r.colons_spec()[b],
            unmatched_close(json@) ==> r.colons_spec().len() == 0,
            forall|a: int| 0 <= a < r.colons_spec().len() ==> colon_at_depth(json@, 1)(#[trigger] r.colons_spec()[a] as int),
            !unmatched_close(json@) ==> forall|p: int| #[trigger] colon_at_depth(json@, 1)(p) ==> r.colons_spec().contains(p as usize),
    {
        Record::new(json, self.field_set.copy())
    }
}

} // verus!
