//! Restore record store: a persistent mapping from a trashed entry's
//! stored name to its original absolute path, kept as a flat text table
//! of `name = 'path'` lines. The whole file is parsed on load and
//! rewritten on every mutation; the store itself is append-one on trash
//! and remove-one on restore.

use vstd::prelude::*;
use crate::bytes::{bytes_eq, copy_bytes, copy_range};

verus! {

/// One restore record: a trashed name and the original absolute path.
pub struct Record {
    pub name: Vec<u8>,
    pub original_path: Vec<u8>,
}

/// The restore record store, ordered as the record file lists it.
pub struct RecordStore {
    pub entries: Vec<Record>,
}

/// The mathematical model of a record sequence: pairs of byte strings.
pub open spec fn rec_model(entries: Seq<Record>) -> Seq<(Seq<u8>, Seq<u8>)> {
    entries.map_values(|r: Record| (r.name@, r.original_path@))
}

/// Bytes a stored name may hold so that its record line parses back:
/// non-empty, no newline, no space.
pub open spec fn wf_key(k: Seq<u8>) -> bool {
    &&& k.len() > 0
    &&& forall|i: int| 0 <= i < k.len() ==> k[i] != 10 && k[i] != 32
}

/// Bytes a stored path may hold so that its record line parses back:
/// no newline, no single quote.
pub open spec fn wf_val(v: Seq<u8>) -> bool {
    forall|i: int| 0 <= i < v.len() ==> v[i] != 10 && v[i] != 39
}

/// A well-formed model: every entry is representable in the record file
/// format and no two entries share a name.
pub open spec fn wf_model(m: Seq<(Seq<u8>, Seq<u8>)>) -> bool {
    &&& forall|i: int| 0 <= i < m.len() ==> wf_key(#[trigger] m[i].0) && wf_val(m[i].1)
    &&& forall|i: int, j: int| 0 <= i < m.len() && 0 <= j < m.len() && i != j ==> m[i].0 != m[j].0
}

/// Whether some entry of the model carries the name `k`.
pub open spec fn key_present(m: Seq<(Seq<u8>, Seq<u8>)>, k: Seq<u8>) -> bool {
    exists|i: int| 0 <= i < m.len() && m[i].0 == k
}

/// The path recorded under `k`, scanning from the front.
pub open spec fn lookup_spec(m: Seq<(Seq<u8>, Seq<u8>)>, k: Seq<u8>) -> Option<Seq<u8>>
    decreases m.len(),
{
    if m.len() == 0 {
        None
    } else if m[0].0 == k {
        Some(m[0].1)
    } else {
        lookup_spec(m.drop_first(), k)
    }
}

/// The model with the first entry named `k` removed.
pub open spec fn remove_key_spec(m: Seq<(Seq<u8>, Seq<u8>)>, k: Seq<u8>) -> Seq<
    (Seq<u8>, Seq<u8>),
>
    decreases m.len(),
{
    if m.len() == 0 {
        m
    } else if m[0].0 == k {
        m.drop_first()
    } else {
        seq![m[0]] + remove_key_spec(m.drop_first(), k)
    }
}

/// The record file line for one entry: `name = 'path'` and a newline.
pub open spec fn line_of(k: Seq<u8>, v: Seq<u8>) -> Seq<u8> {
    k + seq![32u8, 61u8, 32u8, 39u8] + v + seq![39u8, 10u8]
}

/// The record file text for a whole model, one line per entry.
pub open spec fn serialize_spec(m: Seq<(Seq<u8>, Seq<u8>)>) -> Seq<u8>
    decreases m.len(),
{
    if m.len() == 0 {
        Seq::empty()
    } else {
        line_of(m[0].0, m[0].1) + serialize_spec(m.drop_first())
    }
}

/// Index of the first occurrence of `b` in `t`, if any.
pub open spec fn find_byte(t: Seq<u8>, b: u8) -> Option<int>
    decreases t.len(),
{
    if t.len() == 0 {
        None
    } else if t[0] == b {
        Some(0)
    } else {
        match find_byte(t.drop_first(), b) {
            None => None,
            Some(i) => Some(i + 1),
        }
    }
}

/// What `find_byte` returns is the first occurrence, or there is none.
pub proof fn lemma_find_byte_characterization(t: Seq<u8>, b: u8)
    ensures
        match find_byte(t, b) {
            Some(p) => 0 <= p < t.len() && t[p] == b && forall|i: int| 0 <= i < p ==> t[i] != b,
            None => forall|i: int| 0 <= i < t.len() ==> t[i] != b,
        },
    decreases t.len(),
{
    if t.len() > 0 && t[0] != b {
        let rest = t.drop_first();
        lemma_find_byte_characterization(rest, b);
        assert(forall|j: int| 0 <= j < rest.len() ==> rest[j] == t[j + 1]);
        match find_byte(rest, b) {
            Some(p) => {
                assert(find_byte(t, b) == Some(p + 1));
                assert(t[p + 1] == b);
                assert forall|i: int| 0 <= i < p + 1 implies t[i] != b by {
                    if i > 0 {
                        assert(rest[i - 1] != b);
                    }
                }
            },
            None => {
                assert forall|i: int| 0 <= i < t.len() implies t[i] != b by {
                    if i > 0 {
                        assert(rest[i - 1] != b);
                    }
                }
            },
        }
    }
}

/// A position that is an occurrence of `b` preceded by none is what
/// `find_byte` returns.
pub proof fn lemma_find_byte_at(t: Seq<u8>, b: u8, p: int)
    requires
        0 <= p < t.len(),
        t[p] == b,
        forall|i: int| 0 <= i < p ==> t[i] != b,
    ensures
        find_byte(t, b) == Some(p),
    decreases t.len(),
{
    if t[0] != b {
        lemma_find_byte_at(t.drop_first(), b, p - 1);
    }
}

/// One record line without its trailing newline, taken apart: the name is
/// everything before the first space, then ` = '` follows, and the path
/// runs to a closing quote at the end.
pub open spec fn parse_line_spec(line: Seq<u8>) -> Option<(Seq<u8>, Seq<u8>)> {
    match find_byte(line, 32) {
        None => None,
        Some(sp) => {
            if sp > 0 && sp + 5 <= line.len() && line[sp + 1] == 61 && line[sp + 2] == 32 && line[
                sp + 3] == 39 && line[line.len() - 1] == 39 && (forall|i: int|
                sp + 4 <= i < line.len() - 1 ==> line[i] != 39) {
                Some((line.subrange(0, sp), line.subrange(sp + 4, line.len() - 1)))
            } else {
                None
            }
        },
    }
}

/// The whole record file, taken apart line by line; rejects text with a
/// malformed line, a missing final newline, or a repeated name.
pub open spec fn parse_rec(t: Seq<u8>) -> Option<Seq<(Seq<u8>, Seq<u8>)>>
    decreases t.len(),
{
    if t.len() == 0 {
        Some(Seq::empty())
    } else {
        match find_byte(t, 10) {
            None => None,
            Some(nl) => if 0 <= nl < t.len() {
                match parse_line_spec(t.subrange(0, nl)) {
                    None => None,
                    Some(kv) => match parse_rec(t.subrange(nl + 1, t.len() as int)) {
                        None => None,
                        Some(rest) => if !key_present(rest, kv.0) {
                            Some(seq![kv] + rest)
                        } else {
                            None
                        },
                    },
                }
            } else {
                None
            },
        }
    }
}

/// Serialization distributes over concatenation of models.
pub proof fn lemma_serialize_add(a: Seq<(Seq<u8>, Seq<u8>)>, b: Seq<(Seq<u8>, Seq<u8>)>)
    ensures
        serialize_spec(a + b) == serialize_spec(a) + serialize_spec(b),
    decreases a.len(),
{
    broadcast use vstd::seq::axiom_seq_add_len;

    if a.len() == 0 {
        assert(a + b =~= b);
        assert(serialize_spec(a) + serialize_spec(b) =~= serialize_spec(b));
    } else {
        lemma_serialize_add(a.drop_first(), b);
        assert((a + b).drop_first() =~= a.drop_first() + b);
        assert((serialize_spec(a) + serialize_spec(b)) =~= line_of(a[0].0, a[0].1) + (
        serialize_spec(a.drop_first()) + serialize_spec(b)));
    }
}

/// A fresh name looked up right after it was appended yields its path.
pub proof fn lemma_lookup_push_fresh(m: Seq<(Seq<u8>, Seq<u8>)>, k: Seq<u8>, v: Seq<u8>)
    requires
        !key_present(m, k),
    ensures
        lookup_spec(m.push((k, v)), k) == Some(v),
    decreases m.len(),
{
    if m.len() == 0 {
        assert(m.push((k, v))[0] == (k, v));
    } else {
        assert(m[0].0 != k);
        assert(m.push((k, v)).drop_first() =~= m.drop_first().push((k, v)));
        assert(!key_present(m.drop_first(), k)) by {
            if key_present(m.drop_first(), k) {
                let i = choose|i: int| 0 <= i < m.drop_first().len() && m.drop_first()[i].0 == k;
                assert(m[i + 1].0 == k);
            }
        }
        lemma_lookup_push_fresh(m.drop_first(), k, v);
    }
}

/// Removing a fresh name right after it was appended restores the model.
pub proof fn lemma_remove_push_fresh(m: Seq<(Seq<u8>, Seq<u8>)>, k: Seq<u8>, v: Seq<u8>)
    requires
        !key_present(m, k),
    ensures
        remove_key_spec(m.push((k, v)), k) == m,
    decreases m.len(),
{
    if m.len() == 0 {
        assert(m.push((k, v))[0] == (k, v));
        assert(m.push((k, v)).drop_first() =~= m);
    } else {
        assert(m[0].0 != k);
        assert(m.push((k, v)).drop_first() =~= m.drop_first().push((k, v)));
        assert(!key_present(m.drop_first(), k)) by {
            if key_present(m.drop_first(), k) {
                let i = choose|i: int| 0 <= i < m.drop_first().len() && m.drop_first()[i].0 == k;
                assert(m[i + 1].0 == k);
            }
        }
        lemma_remove_push_fresh(m.drop_first(), k, v);
        assert(seq![m.push((k, v))[0]] + m.drop_first() =~= m);
    }
}

/// Index of the first occurrence of `b` in `t` between `from` and `to`,
/// as an absolute index into `t`.
fn find_in_range(t: &Vec<u8>, from: usize, to: usize, b: u8) -> (r: Option<usize>)
    requires
        from <= to <= t@.len(),
    ensures
        match r {
            Some(p) => from <= p < to && find_byte(t@.subrange(from as int, to as int), b)
                == Some(p - from),
            None => find_byte(t@.subrange(from as int, to as int), b) is None,
        },
{
    let ghost sub = t@.subrange(from as int, to as int);
    let mut i: usize = from;
    while i < to
        invariant
            from <= i <= to <= t@.len(),
            sub == t@.subrange(from as int, to as int),
            forall|j: int| 0 <= j < i - from ==> sub[j] != b,
        decreases to - i,
    {
        if t[i] == b {
            proof {
                assert(sub[i - from] == b);
                lemma_find_byte_at(sub, b, i - from);
            }
            return Some(i);
        }
        proof {
            assert(sub[i - from] == t@[i as int]);
        }
        i += 1;
    }
    proof {
        lemma_find_byte_characterization(sub, b);
    }
    None
}

/// Whether some record of `entries` carries the name `k`.
pub fn contains_key(entries: &Vec<Record>, k: &Vec<u8>) -> (r: bool)
    ensures
        r == key_present(rec_model(entries@), k@),
{
    let ghost m = rec_model(entries@);
    let mut i: usize = 0;
    while i < entries.len()
        invariant
            0 <= i <= entries@.len(),
            m == rec_model(entries@),
            forall|j: int| 0 <= j < i ==> m[j].0 != k@,
        decreases entries.len() - i,
    {
        if bytes_eq(&entries[i].name, k) {
            proof {
                assert(m[i as int].0 == k@);
            }
            return true;
        }
        proof {
            assert(m[i as int].0 == entries@[i as int].name@);
        }
        i += 1;
    }
    false
}

/// One line of the record file, between `start` and `end` (the line
/// without its newline), taken apart into name and path.
fn parse_line_exec(t: &Vec<u8>, start: usize, end: usize) -> (r: Option<(Vec<u8>, Vec<u8>)>)
    requires
        start <= end <= t@.len(),
    ensures
        match r {
            Some(kv) => parse_line_spec(t@.subrange(start as int, end as int)) == Some(
                (kv.0@, kv.1@),
            ),
            None => parse_line_spec(t@.subrange(start as int, end as int)) is None,
        },
{
    let ghost line = t@.subrange(start as int, end as int);
    match find_in_range(t, start, end, 32) {
        None => None,
        Some(sp_abs) => {
            let ghost sp = sp_abs - start;
            proof {
                assert(find_byte(line, 32) == Some(sp));
            }
            if sp_abs == start {
                return None;
            }
            if end - sp_abs < 5 {
                proof {
                    assert(!(sp + 5 <= line.len()));
                }
                return None;
            }
            proof {
                assert(line[sp + 1] == t@[sp_abs + 1]);
                assert(line[sp + 2] == t@[sp_abs + 2]);
                assert(line[sp + 3] == t@[sp_abs + 3]);
                assert(line[line.len() - 1] == t@[end - 1]);
            }
            if t[sp_abs + 1] != 61 || t[sp_abs + 2] != 32 || t[sp_abs + 3] != 39 {
                return None;
            }
            if t[end - 1] != 39 {
                return None;
            }
            let mut i: usize = sp_abs + 4;
            while i < end - 1
                invariant
                    start <= sp_abs,
                    sp_abs + 5 <= end <= t@.len(),
                    sp_abs + 4 <= i <= end - 1,
                    sp == sp_abs - start,
                    line == t@.subrange(start as int, end as int),
                    find_byte(line, 32) == Some(sp),
                    0 < sp && sp + 5 <= line.len(),
                    line[sp + 1] == 61 && line[sp + 2] == 32 && line[sp + 3] == 39,
                    line[line.len() - 1] == 39,
                    forall|j: int| sp + 4 <= j < i - start ==> line[j] != 39,
                decreases end - 1 - i,
            {
                if t[i] == 39 {
                    proof {
                        assert(line[i - start] == 39);
                        assert(sp + 4 <= i - start < line.len() - 1);
                        assert(!(forall|j: int| sp + 4 <= j < line.len() - 1 ==> line[j] != 39));
                    }
                    return None;
                }
                proof {
                    assert(line[i - start] == t@[i as int]);
                }
                i += 1;
            }
            let k = copy_range(t, start, sp_abs);
            let v = copy_range(t, sp_abs + 4, end - 1);
            proof {
                assert(k@ =~= line.subrange(0, sp));
                assert(v@ =~= line.subrange(sp + 4, line.len() - 1));
            }
            Some((k, v))
        },
    }
}

/// The record file from `pos` on, parsed into records; mirrors the
/// line-by-line shape of `parse_rec`.
fn parse_at(t: &Vec<u8>, pos: usize) -> (r: Option<Vec<Record>>)
    requires
        pos <= t@.len(),
    ensures
        match r {
            Some(entries) => parse_rec(t@.subrange(pos as int, t@.len() as int)) == Some(
                rec_model(entries@),
            ),
            None => parse_rec(t@.subrange(pos as int, t@.len() as int)) is None,
        },
    decreases t@.len() - pos,
{
    let ghost sub = t@.subrange(pos as int, t@.len() as int);
    if pos == t.len() {
        let entries: Vec<Record> = Vec::new();
        proof {
            assert(sub.len() == 0);
            assert(rec_model(entries@) =~= Seq::<(Seq<u8>, Seq<u8>)>::empty());
        }
        return Some(entries);
    }
    match find_in_range(t, pos, t.len(), 10) {
        None => None,
        Some(nl) => {
            let ghost nl_rel = nl - pos;
            proof {
                assert(find_byte(sub, 10) == Some(nl_rel));
                assert(sub.subrange(0, nl_rel) =~= t@.subrange(pos as int, nl as int));
            }
            match parse_line_exec(t, pos, nl) {
                None => None,
                Some((k, v)) => {
                    proof {
                        assert(sub.subrange(nl_rel + 1, sub.len() as int) =~= t@.subrange(
                            nl + 1,
                            t@.len() as int,
                        ));
                    }
                    match parse_at(t, nl + 1) {
                        None => None,
                        Some(mut rest) => {
                            if contains_key(&rest, &k) {
                                None
                            } else {
                                let ghost rest0 = rest@;
                                let rec = Record { name: k, original_path: v };
                                rest.insert(0, rec);
                                proof {
                                    assert(rec_model(rest@) =~= seq![(rec.name@, rec.original_path@)]
                                        + rec_model(rest0));
                                }
                                Some(rest)
                            }
                        },
                    }
                },
            }
        },
    }
}

/// Every model that parsing yields is well formed: names are non-empty
/// with no space or newline, paths hold no quote or newline, and no name
/// repeats.
pub proof fn lemma_parse_wf(t: Seq<u8>)
    ensures
        parse_rec(t) matches Some(m) ==> wf_model(m),
    decreases t.len(),
{
    if t.len() > 0 && parse_rec(t) is Some {
        let nl = find_byte(t, 10)->0;
        lemma_find_byte_characterization(t, 10);
        let line = t.subrange(0, nl);
        let sp = find_byte(line, 32)->0;
        lemma_find_byte_characterization(line, 32);
        let rest_t = t.subrange(nl + 1, t.len() as int);
        lemma_parse_wf(rest_t);
        let kv = parse_line_spec(line)->0;
        let rest = parse_rec(rest_t)->0;
        let m = parse_rec(t)->0;
        assert(kv.0 == line.subrange(0, sp));
        assert(kv.1 == line.subrange(sp + 4, line.len() - 1));
        assert(wf_key(kv.0)) by {
            assert(forall|i: int| 0 <= i < sp ==> line[i] != 32);
            assert(forall|i: int| 0 <= i < line.len() ==> line[i] == t[i] && line[i] != 10);
        }
        assert(wf_val(kv.1)) by {
            assert(forall|i: int| sp + 4 <= i < line.len() - 1 ==> line[i] != 39);
            assert(forall|i: int| 0 <= i < line.len() ==> line[i] == t[i] && line[i] != 10);
        }
        assert(m == seq![kv] + rest);
        assert forall|i: int, j: int|
            0 <= i < m.len() && 0 <= j < m.len() && i != j implies m[i].0 != m[j].0 by {
            if i == 0 {
                assert(m[j] == rest[j - 1]);
                assert(!key_present(rest, kv.0));
            } else if j == 0 {
                assert(m[i] == rest[i - 1]);
                assert(!key_present(rest, kv.0));
            } else {
                assert(m[i] == rest[i - 1] && m[j] == rest[j - 1]);
            }
        }
        assert forall|i: int| 0 <= i < m.len() implies wf_key(#[trigger] m[i].0) && wf_val(m[i].1) by {
            if i > 0 {
                assert(m[i] == rest[i - 1]);
            }
        }
    }
}

/// When the first `i` entries do not match, lookup is decided by the rest.
proof fn lemma_lookup_from(m: Seq<(Seq<u8>, Seq<u8>)>, k: Seq<u8>, i: int)
    requires
        0 <= i <= m.len(),
        forall|j: int| 0 <= j < i ==> m[j].0 != k,
    ensures
        lookup_spec(m, k) == lookup_spec(m.skip(i), k),
    decreases i,
{
    if i == 0 {
        assert(m.skip(0) =~= m);
    } else {
        assert(m[0].0 != k);
        lemma_lookup_from(m.drop_first(), k, i - 1);
        assert(m.skip(i) =~= m.drop_first().skip(i - 1));
    }
}

/// Removing the name found first at index `i` removes exactly that entry.
proof fn lemma_remove_key_at(m: Seq<(Seq<u8>, Seq<u8>)>, k: Seq<u8>, i: int)
    requires
        0 <= i < m.len(),
        m[i].0 == k,
        forall|j: int| 0 <= j < i ==> m[j].0 != k,
    ensures
        remove_key_spec(m, k) == m.remove(i),
    decreases i,
{
    if i == 0 {
        assert(m.remove(0) =~= m.drop_first());
    } else {
        assert(m[0].0 != k);
        lemma_remove_key_at(m.drop_first(), k, i - 1);
        assert(m.remove(i) =~= seq![m[0]] + m.drop_first().remove(i - 1));
    }
}

/// Removing a name that no entry carries changes nothing.
proof fn lemma_remove_key_absent(m: Seq<(Seq<u8>, Seq<u8>)>, k: Seq<u8>)
    requires
        !key_present(m, k),
    ensures
        remove_key_spec(m, k) == m,
    decreases m.len(),
{
    if m.len() > 0 {
        assert(m[0].0 != k);
        assert(!key_present(m.drop_first(), k)) by {
            if key_present(m.drop_first(), k) {
                let i = choose|i: int| 0 <= i < m.drop_first().len() && m.drop_first()[i].0 == k;
                assert(m[i + 1].0 == k);
            }
        }
        lemma_remove_key_absent(m.drop_first(), k);
        assert(seq![m[0]] + m.drop_first() =~= m);
    }
}

/// A well-formed model stays well formed when one entry is removed.
proof fn lemma_wf_remove(m: Seq<(Seq<u8>, Seq<u8>)>, i: int)
    requires
        wf_model(m),
        0 <= i < m.len(),
    ensures
        wf_model(m.remove(i)),
{
    let r = m.remove(i);
    m.remove_ensures(i);
    assert forall|a: int| 0 <= a < r.len() implies wf_key(#[trigger] r[a].0) && wf_val(r[a].1) by {
        let a0 = if a < i {
            a
        } else {
            a + 1
        };
        assert(r[a] == m[a0]);
        assert(wf_key(m[a0].0) && wf_val(m[a0].1));
    }
    assert forall|a: int, b: int|
        0 <= a < r.len() && 0 <= b < r.len() && a != b implies r[a].0 != r[b].0 by {
        let a0 = if a < i {
            a
        } else {
            a + 1
        };
        let b0 = if b < i {
            b
        } else {
            b + 1
        };
        assert(r[a] == m[a0] && r[b] == m[b0]);
        assert(m[a0].0 != m[b0].0);
    }
}

impl RecordStore {
    /// The mapping the store holds, as a sequence of (name, path) pairs.
    pub open spec fn model(self) -> Seq<(Seq<u8>, Seq<u8>)> {
        rec_model(self.entries@)
    }

    /// The store invariant: every entry representable, no name repeated.
    pub open spec fn wf(self) -> bool {
        wf_model(self.model())
    }

    /// An empty store, as created on first use.
    pub fn new() -> (s: Self)
        ensures
            s.model() == Seq::<(Seq<u8>, Seq<u8>)>::empty(),
            s.wf(),
    {
        let s = RecordStore { entries: Vec::new() };
        proof {
            assert(s.model() =~= Seq::<(Seq<u8>, Seq<u8>)>::empty());
        }
        s
    }

    /// Parse a whole record file. Yields the store it describes, or
    /// nothing when the text is not a well-formed record table.
    pub fn load(text: &Vec<u8>) -> (r: Option<RecordStore>)
        ensures
            match r {
                Some(s) => parse_rec(text@) == Some(s.model()) && s.wf(),
                None => parse_rec(text@) is None,
            },
    {
        proof {
            assert(text@.subrange(0, text@.len() as int) =~= text@);
        }
        match parse_at(text, 0) {
            None => None,
            Some(entries) => {
                proof {
                    lemma_parse_wf(text@);
                }
                Some(RecordStore { entries })
            },
        }
    }

    /// The recorded original path for `name`, if a record exists.
    pub fn lookup(&self, name: &Vec<u8>) -> (r: Option<Vec<u8>>)
        ensures
            match r {
                Some(v) => lookup_spec(self.model(), name@) == Some(v@),
                None => lookup_spec(self.model(), name@) is None,
            },
    {
        let ghost m = self.model();
        let mut i: usize = 0;
        while i < self.entries.len()
            invariant
                0 <= i <= self.entries@.len(),
                m == self.model(),
                forall|j: int| 0 <= j < i ==> m[j].0 != name@,
            decreases self.entries.len() - i,
        {
            if bytes_eq(&self.entries[i].name, name) {
                proof {
                    assert(m[i as int].0 == name@);
                    lemma_lookup_from(m, name@, i as int);
                    assert(m.skip(i as int)[0] == m[i as int]);
                }
                return Some(copy_bytes(&self.entries[i].original_path));
            }
            proof {
                assert(m[i as int].0 == self.entries@[i as int].name@);
            }
            i += 1;
        }
        proof {
            lemma_lookup_from(m, name@, m.len() as int);
            assert(m.skip(m.len() as int).len() == 0);
        }
        None
    }

    /// Append one record for a name not yet present; the trash move that
    /// reserved the name has already happened when this is called.
    pub fn append_record(&mut self, name: Vec<u8>, path: Vec<u8>)
        requires
            old(self).wf(),
            wf_key(name@),
            wf_val(path@),
            !key_present(old(self).model(), name@),
        ensures
            final(self).model() == old(self).model().push((name@, path@)),
            final(self).wf(),
    {
        let ghost m0 = self.model();
        self.entries.push(Record { name, original_path: path });
        proof {
            let m = self.model();
            assert(m =~= m0.push((name@, path@)));
            assert forall|i: int| 0 <= i < m.len() implies wf_key(#[trigger] m[i].0) && wf_val(
                m[i].1,
            ) by {
                if i < m0.len() {
                    assert(m[i] == m0[i]);
                }
            }
            assert forall|i: int, j: int|
                0 <= i < m.len() && 0 <= j < m.len() && i != j implies m[i].0 != m[j].0 by {
                if i < m0.len() && j < m0.len() {
                    assert(m[i] == m0[i] && m[j] == m0[j]);
                } else if i < m0.len() {
                    assert(m[i] == m0[i] && !key_present(m0, name@));
                } else {
                    assert(m[j] == m0[j] && !key_present(m0, name@));
                }
            }
        }
    }

    /// Remove the record for `name`, if one exists; reports whether it did.
    pub fn remove_record(&mut self, name: &Vec<u8>) -> (found: bool)
        requires
            old(self).wf(),
        ensures
            final(self).model() == remove_key_spec(old(self).model(), name@),
            found == key_present(old(self).model(), name@),
            final(self).wf(),
    {
        let ghost m = self.model();
        let mut i: usize = 0;
        while i < self.entries.len()
            invariant
                *self == *old(self),
                0 <= i <= self.entries@.len(),
                m == self.model(),
                wf_model(m),
                forall|j: int| 0 <= j < i ==> m[j].0 != name@,
            decreases self.entries.len() - i,
        {
            if bytes_eq(&self.entries[i].name, name) {
                proof {
                    assert(m[i as int].0 == name@);
                    lemma_remove_key_at(m, name@, i as int);
                    lemma_wf_remove(m, i as int);
                }
                let ghost entries0 = self.entries@;
                self.entries.remove(i);
                proof {
                    m.remove_ensures(i as int);
                    entries0.remove_ensures(i as int);
                    assert(self.model() =~= m.remove(i as int));
                }
                return true;
            }
            proof {
                assert(m[i as int].0 == self.entries@[i as int].name@);
            }
            i += 1;
        }
        proof {
            assert(!key_present(m, name@));
            lemma_remove_key_absent(m, name@);
        }
        false
    }

    /// Drop every record, as when the trash itself has been emptied.
    pub fn clear(&mut self)
        ensures
            final(self).model() == Seq::<(Seq<u8>, Seq<u8>)>::empty(),
            final(self).wf(),
    {
        self.entries.clear();
        proof {
            assert(self.model() =~= Seq::<(Seq<u8>, Seq<u8>)>::empty());
        }
    }

    /// The record file text for this store, one `name = 'path'` line per
    /// entry, in order.
    pub fn serialize(&self) -> (r: Vec<u8>)
        ensures
            r@ == serialize_spec(self.model()),
    {
        let ghost m = self.model();
        let mut out: Vec<u8> = Vec::new();
        let mut i: usize = 0;
        proof {
            assert(m.subrange(0, 0) =~= Seq::<(Seq<u8>, Seq<u8>)>::empty());
        }
        while i < self.entries.len()
            invariant
                0 <= i <= self.entries@.len(),
                m == self.model(),
                out@ == serialize_spec(m.subrange(0, i as int)),
            decreases self.entries.len() - i,
        {
            let ghost out0 = out@;
            let mut part = copy_bytes(&self.entries[i].name);
            out.append(&mut part);
            out.push(32);
            out.push(61);
            out.push(32);
            out.push(39);
            let mut part2 = copy_bytes(&self.entries[i].original_path);
            out.append(&mut part2);
            out.push(39);
            out.push(10);
            proof {
                let p = m[i as int];
                let single = seq![p];
                assert(out@ =~= out0 + line_of(p.0, p.1));
                lemma_serialize_add(m.subrange(0, i as int), single);
                assert(single.drop_first() =~= Seq::<(Seq<u8>, Seq<u8>)>::empty());
                assert(serialize_spec(Seq::<(Seq<u8>, Seq<u8>)>::empty()) == Seq::<u8>::empty());
                assert(serialize_spec(single) == line_of(single[0].0, single[0].1)
                    + serialize_spec(single.drop_first()));
                assert(serialize_spec(single) =~= line_of(p.0, p.1));
                assert(m.subrange(0, i + 1) =~= m.subrange(0, i as int) + single);
            }
            i += 1;
        }
        proof {
            assert(m.subrange(0, m.len() as int) =~= m);
        }
        out
    }
}

/// Law: the record file format round-trips. Serializing any well-formed
/// store and parsing the text back yields exactly that store.
pub proof fn lemma_parse_serialize_round_trip(m: Seq<(Seq<u8>, Seq<u8>)>)
    requires
        wf_model(m),
    ensures
        parse_rec(serialize_spec(m)) == Some(m),
    decreases m.len(),
{
    broadcast use vstd::seq::axiom_seq_add_len;

    if m.len() == 0 {
        assert(serialize_spec(m).len() == 0);
        assert(m =~= Seq::<(Seq<u8>, Seq<u8>)>::empty());
    } else {
        let k = m[0].0;
        let v = m[0].1;
        let rest = m.drop_first();
        let t = serialize_spec(m);
        let line_full = line_of(k, v);
        let rest_ser = serialize_spec(rest);
        assert(t == line_full + rest_ser);
        assert(line_full.len() == k.len() + v.len() + 6);
        let nl = k.len() + v.len() + 5;
        assert(wf_key(k) && wf_val(v));

        // where each byte of the line sits
        assert forall|i: int| 0 <= i < k.len() implies line_full[i] == k[i] by {}
        assert(line_full[k.len() as int] == 32);
        assert(line_full[k.len() as int + 1] == 61);
        assert(line_full[k.len() as int + 2] == 32);
        assert(line_full[k.len() as int + 3] == 39);
        assert forall|i: int| 0 <= i < v.len() implies line_full[k.len() + 4 + i] == v[i] by {}
        assert(line_full[k.len() + v.len() + 4int] == 39);
        assert(line_full[nl as int] == 10);
        assert forall|i: int| 0 <= i < line_full.len() implies t[i] == line_full[i] by {}

        // the first newline ends the first line
        assert forall|i: int| 0 <= i < nl implies t[i] != 10 by {
            if i < k.len() {
                assert(t[i] == k[i]);
            } else if i >= k.len() + 4 && i < k.len() + 4 + v.len() {
                assert(t[i] == v[i - k.len() - 4]);
            }
        }
        assert(t[nl as int] == 10);
        lemma_find_byte_at(t, 10, nl as int);

        // the first line parses back to exactly (k, v)
        let line = t.subrange(0, nl as int);
        assert(line.len() == nl);
        assert forall|i: int| 0 <= i < k.len() implies line[i] != 32 by {
            assert(line[i] == k[i]);
        }
        assert(line[k.len() as int] == 32);
        lemma_find_byte_at(line, 32, k.len() as int);
        assert(line[k.len() as int + 1] == 61);
        assert(line[k.len() as int + 2] == 32);
        assert(line[k.len() as int + 3] == 39);
        assert(line[line.len() - 1] == 39);
        assert forall|i: int| k.len() + 4 <= i < line.len() - 1 implies line[i] != 39 by {
            assert(line[i] == v[i - k.len() - 4]);
        }
        assert(line.subrange(0, k.len() as int) =~= k);
        assert(line.subrange(k.len() as int + 4, line.len() - 1) =~= v);
        assert(parse_line_spec(line) == Some((k, v)));

        // the rest of the text is the serialization of the rest of the model
        assert(t.subrange(nl as int + 1, t.len() as int) =~= rest_ser);
        assert(wf_model(rest)) by {
            assert forall|i: int| 0 <= i < rest.len() implies wf_key(#[trigger] rest[i].0)
                && wf_val(rest[i].1) by {
                assert(rest[i] == m[i + 1]);
                assert(wf_key(m[i + 1].0) && wf_val(m[i + 1].1));
            }
            assert forall|i: int, j: int|
                0 <= i < rest.len() && 0 <= j < rest.len() && i != j implies rest[i].0
                != rest[j].0 by {
                assert(rest[i] == m[i + 1] && rest[j] == m[j + 1]);
                assert(m[i + 1].0 != m[j + 1].0);
            }
        }
        lemma_parse_serialize_round_trip(rest);
        assert(!key_present(rest, k)) by {
            if key_present(rest, k) {
                let i = choose|i: int| 0 <= i < rest.len() && rest[i].0 == k;
                assert(rest[i] == m[i + 1]);
                assert(m[i + 1].0 != m[0].0);
            }
        }
        assert(parse_rec(t) == Some(seq![(k, v)] + rest));
        assert(seq![(k, v)] + rest =~= m);
    }
}

/// Lookup succeeds exactly when the name is present.
pub proof fn lemma_lookup_present(m: Seq<(Seq<u8>, Seq<u8>)>, k: Seq<u8>)
    ensures
        key_present(m, k) <==> lookup_spec(m, k) is Some,
    decreases m.len(),
{
    if m.len() > 0 && m[0].0 != k {
        lemma_lookup_present(m.drop_first(), k);
        assert(key_present(m.drop_first(), k) ==> key_present(m, k)) by {
            if key_present(m.drop_first(), k) {
                let i = choose|i: int| 0 <= i < m.drop_first().len() && m.drop_first()[i].0 == k;
                assert(m[i + 1].0 == k);
            }
        }
        assert(key_present(m, k) ==> key_present(m.drop_first(), k)) by {
            if key_present(m, k) {
                let i = choose|i: int| 0 <= i < m.len() && m[i].0 == k;
                assert(m.drop_first()[i - 1].0 == k);
            }
        }
    }
}

/// Removal introduces no name: whatever is present afterwards was before.
pub proof fn lemma_remove_key_present(m: Seq<(Seq<u8>, Seq<u8>)>, k: Seq<u8>, k2: Seq<u8>)
    requires
        key_present(remove_key_spec(m, k), k2),
    ensures
        key_present(m, k2),
    decreases m.len(),
{
    broadcast use vstd::seq::axiom_seq_add_len;

    let r = remove_key_spec(m, k);
    if m.len() > 0 {
        if m[0].0 == k {
            let i = choose|i: int| 0 <= i < r.len() && r[i].0 == k2;
            assert(m[i + 1].0 == k2);
        } else {
            let i = choose|i: int| 0 <= i < r.len() && r[i].0 == k2;
            if i == 0 {
                assert(m[0].0 == k2);
            } else {
                let tail = remove_key_spec(m.drop_first(), k);
                assert(r[i] == tail[i - 1]);
                lemma_remove_key_present(m.drop_first(), k, k2);
                let j = choose|j: int| 0 <= j < m.drop_first().len() && m.drop_first()[j].0 == k2;
                assert(m[j + 1].0 == k2);
            }
        }
    }
}

/// In a well-formed model, removing a name leaves no entry with it.
pub proof fn lemma_remove_key_gone(m: Seq<(Seq<u8>, Seq<u8>)>, k: Seq<u8>)
    requires
        wf_model(m),
    ensures
        !key_present(remove_key_spec(m, k), k),
    decreases m.len(),
{
    broadcast use vstd::seq::axiom_seq_add_len;

    let r = remove_key_spec(m, k);
    if m.len() > 0 {
        if m[0].0 == k {
            if key_present(r, k) {
                let i = choose|i: int| 0 <= i < r.len() && r[i].0 == k;
                assert(m[i + 1].0 == k);
                assert(m[i + 1].0 != m[0].0);
            }
        } else {
            assert(wf_model(m.drop_first())) by {
                assert forall|i: int| 0 <= i < m.drop_first().len() implies wf_key(
                    #[trigger] m.drop_first()[i].0,
                ) && wf_val(m.drop_first()[i].1) by {
                    assert(m.drop_first()[i] == m[i + 1]);
                    assert(wf_key(m[i + 1].0) && wf_val(m[i + 1].1));
                }
                assert forall|i: int, j: int|
                    0 <= i < m.drop_first().len() && 0 <= j < m.drop_first().len() && i != j implies
                    m.drop_first()[i].0 != m.drop_first()[j].0 by {
                    assert(m.drop_first()[i] == m[i + 1] && m.drop_first()[j] == m[j + 1]);
                    assert(m[i + 1].0 != m[j + 1].0);
                }
            }
            lemma_remove_key_gone(m.drop_first(), k);
            if key_present(r, k) {
                let i = choose|i: int| 0 <= i < r.len() && r[i].0 == k;
                if i > 0 {
                    let tail = remove_key_spec(m.drop_first(), k);
                    assert(r[i] == tail[i - 1]);
                }
            }
        }
    }
}

} // verus!
