//! The per-module accumulating symbol table, the range splitter, the
//! gap-filling reconciler, and the canonical output table.

use crate::lines::Lines;
use crate::name::{starts_with, str_starts_with};
use crate::symbol::{
    pub_merge_ok, BlockInfo, EBPInfo, InternalOffset, PDBSymbol, ProcedureRecord, PublicRecord,
    SelectedSymbol,
};
use crate::translate::{offset_to_internal_rva, offset_to_rva, rva_ranges};
use pdb::AddressMap;
use pdb_addr2line::TypeFormatter;
use std::rc::Rc;
use vstd::prelude::*;
use vstd::string::StrSliceExecFns;
use vstd::string::StringExecFns;

verus! {

/// Strictly increasing address keys.
pub open spec fn keys_sorted<V>(s: Seq<(u32, V)>) -> bool {
    forall|i: int, j: int| 0 <= i < j < s.len() ==> s[i].0 < s[j].0
}

/// The value stored at key `k`, if any.
pub open spec fn map_get<K, V>(s: Seq<(K, V)>, k: K) -> Option<V>
    decreases s.len(),
{
    if s.len() == 0 {
        None
    } else if s[0].0 == k {
        Some(s[0].1)
    } else {
        map_get(s.skip(1), k)
    }
}

/// Whether some entry carries key `k`.
pub open spec fn map_has<K, V>(s: Seq<(K, V)>, k: K) -> bool {
    map_get(s, k) is Some
}

proof fn lemma_map_get_at<K, V>(s: Seq<(K, V)>, i: int)
    requires
        0 <= i < s.len(),
        forall|j: int| 0 <= j < i ==> s[j].0 != s[i].0,
    ensures
        map_get(s, s[i].0) == Some(s[i].1),
    decreases s.len(),
{
    if i > 0 {
        let t = s.skip(1);
        assert(forall|j: int| 0 <= j < t.len() ==> t[j] == s[j + 1]);
        lemma_map_get_at(t, i - 1);
    }
}

proof fn lemma_map_get_none<K, V>(s: Seq<(K, V)>, k: K)
    requires
        forall|j: int| 0 <= j < s.len() ==> s[j].0 != k,
    ensures
        map_get(s, k) == None::<V>,
    decreases s.len(),
{
    if s.len() > 0 {
        let t = s.skip(1);
        assert(forall|j: int| 0 <= j < t.len() ==> t[j] == s[j + 1]);
        lemma_map_get_none(t, k);
    }
}

proof fn lemma_get_update_other<K, V>(s: Seq<(K, V)>, i: int, v: (K, V), k: K)
    requires
        0 <= i < s.len(),
        k != v.0,
        s[i].0 == v.0,
    ensures
        map_get(s.update(i, v), k) == map_get(s, k),
    decreases s.len(),
{
    let u = s.update(i, v);
    if s.len() > 0 {
        if i == 0 {
            assert(u.skip(1) =~= s.skip(1));
        } else {
            if s[0].0 == k {
            } else {
                assert(u.skip(1) =~= s.skip(1).update(i - 1, v));
                lemma_get_update_other(s.skip(1), i - 1, v, k);
            }
        }
    }
}

proof fn lemma_get_insert_other<K, V>(s: Seq<(K, V)>, i: int, v: (K, V), k: K)
    requires
        0 <= i <= s.len(),
        k != v.0,
    ensures
        map_get(s.insert(i, v), k) == map_get(s, k),
    decreases s.len(),
{
    let u = s.insert(i, v);
    if i == 0 {
        assert(u[0] == v);
        assert(u.skip(1) =~= s);
    } else {
        assert(u[0] == s[0]);
        if s[0].0 == k {
        } else {
            assert(u.skip(1) =~= s.skip(1).insert(i - 1, v));
            lemma_get_insert_other(s.skip(1), i - 1, v, k);
        }
    }
}

/// Inserts a value at an address key, replacing any entry already there; keys
/// stay strictly increasing.
fn insert_sorted<V>(v: &mut Vec<(u32, V)>, key: u32, val: V)
    requires
        keys_sorted(old(v)@),
    ensures
        keys_sorted(final(v)@),
        map_get(final(v)@, key) == Some(val),
        forall|k: u32| k != key ==> map_get(final(v)@, k) == map_get(old(v)@, k),
        final(v)@.len() == old(v)@.len() + (if map_has(old(v)@, key) {
            0int
        } else {
            1int
        }),
        final(v)@.len() >= 1,
        (old(v)@.len() == 0 || old(v)@.last().0 < key) ==> final(v)@ == old(v)@.push((key, val)),
        forall|t: int|
            0 <= t < final(v)@.len() ==> final(v)@[t] == (key, val) || exists|j: int|
                0 <= j < old(v)@.len() && final(v)@[t] == old(v)@[j],
{
    let n = v.len();
    let mut i: usize = 0;
    while i < n && v[i].0 < key
        invariant
            0 <= i <= n,
            n == v@.len(),
            forall|k: int| 0 <= k < i ==> v@[k].0 < key,
        decreases n - i,
    {
        i += 1;
    }
    let ghost pre = v@;
    if i < n && v[i].0 == key {
        v.remove(i);
        v.insert(i, (key, val));
        proof {
            let cur = v@;
            assert(cur =~= pre.update(i as int, (key, val)));
            assert(keys_sorted(cur));
            lemma_map_get_at(cur, i as int);
            assert forall|k: u32| k != key implies map_get(cur, k) == map_get(pre, k) by {
                lemma_get_update_other(pre, i as int, (key, val), k);
            }
            lemma_map_get_at(pre, i as int);
            assert forall|t: int|
                0 <= t < cur.len() implies cur[t] == (key, val) || exists|j: int|
                    0 <= j < pre.len() && cur[t] == pre[j] by {
                if t != i {
                    assert(cur[t] == pre[t]);
                }
            }
        }
    } else {
        proof {
            assert(forall|k: int| i <= k < pre.len() ==> pre[k].0 > key);
            lemma_map_get_none(pre, key);
        }
        v.insert(i, (key, val));
        proof {
            let cur = v@;
            assert(cur == pre.insert(i as int, (key, val)));
            assert forall|a: int, b: int| 0 <= a < b < cur.len() implies cur[a].0 < cur[b].0 by {
                if a < i && b > i {
                    assert(cur[a] == pre[a] && cur[b] == pre[b - 1]);
                } else if a == i {
                    assert(cur[b] == pre[b - 1]);
                } else if b == i {
                    assert(cur[a] == pre[a]);
                } else if b < i {
                    assert(cur[a] == pre[a] && cur[b] == pre[b]);
                } else {
                    assert(cur[a] == pre[a - 1] && cur[b] == pre[b - 1]);
                }
            }
            assert(forall|j: int| 0 <= j < i ==> cur[j].0 != key);
            lemma_map_get_at(cur, i as int);
            assert forall|k: u32| k != key implies map_get(cur, k) == map_get(pre, k) by {
                lemma_get_insert_other(pre, i as int, (key, val), k);
            }
            if pre.len() == 0 || pre.last().0 < key {
                assert(i == n);
                assert(cur =~= pre.push((key, val)));
            }
            assert forall|t: int|
                0 <= t < cur.len() implies cur[t] == (key, val) || exists|j: int|
                    0 <= j < pre.len() && cur[t] == pre[j] by {
                if t < i {
                    assert(cur[t] == pre[t]);
                } else if t > i {
                    assert(cur[t] == pre[t - 1]);
                }
            }
        }
    }
}

/// The canonical table: finalized symbols keyed by strictly increasing linear
/// address, non-overlapping by construction after gap-filling.
pub struct PDBSymbols {
    /// The `(address, symbol)` entries, address-ordered.
    pub entries: Vec<(u32, PDBSymbol)>,
}

impl PDBSymbols {
    /// The table's invariant: keys strictly increase.
    pub open spec fn wf(&self) -> bool {
        keys_sorted(self.entries@)
    }

    /// An empty canonical table.
    pub fn new() -> (r: PDBSymbols)
        ensures
            r.entries@ =~= Seq::<(u32, PDBSymbol)>::empty(),
            r.wf(),
    {
        PDBSymbols { entries: Vec::new() }
    }

    /// Read-only probe of the entry at an address.
    pub fn get(&self, rva: u32) -> (r: Option<&PDBSymbol>)
        ensures
            r matches Some(s) ==> map_get(self.entries@, rva) == Some(*s),
            r is None ==> map_get(self.entries@, rva) is None,
    {
        match find_index(&self.entries, rva) {
            Some(i) => {
                proof {
                    lemma_map_get_at(self.entries@, i as int);
                }
                Some(&self.entries[i].1)
            },
            None => {
                proof {
                    lemma_map_get_none(self.entries@, rva);
                }
                None
            },
        }
    }

    /// Inserts a symbol at an address, replacing any entry already there.
    pub fn insert(&mut self, rva: u32, sym: PDBSymbol)
        requires
            old(self).wf(),
        ensures
            final(self).wf(),
            map_get(final(self).entries@, rva) == Some(sym),
            forall|k: u32| k != rva ==> map_get(final(self).entries@, k) == map_get(
                old(self).entries@,
                k,
            ),
            final(self).entries@.len() == old(self).entries@.len() + (if map_has(
                old(self).entries@,
                rva,
            ) {
                0int
            } else {
                1int
            }),
            final(self).entries@.len() >= 1,
            (old(self).entries@.len() == 0 || old(self).entries@.last().0 < rva)
                ==> final(self).entries@ == old(self).entries@.push((rva, sym)),
            forall|t: int|
                0 <= t < final(self).entries@.len() ==> final(self).entries@[t] == (rva, sym)
                    || exists|j: int|
                    0 <= j < old(self).entries@.len() && final(self).entries@[t] == old(
                        self,
                    ).entries@[j],
    {
        insert_sorted(&mut self.entries, rva, sym);
    }
}

/// Lexicographically increasing `(start, length)` keys.
pub open spec fn range_keys_sorted(s: Seq<((u32, u32), usize)>) -> bool {
    forall|i: int, j: int| 0 <= i < j < s.len() ==> (s[i].0.0 < s[j].0.0 || (s[i].0.0 == s[j].0.0
        && s[i].0.1 < s[j].0.1))
}

/// The address-ordered `(start, length) -> symbol index` associations the range
/// splitter produces.
pub struct RangeTable {
    /// The `((start, length), index)` entries, key-ordered.
    pub entries: Vec<((u32, u32), usize)>,
}

impl RangeTable {
    /// The table's invariant: keys strictly increase lexicographically.
    pub open spec fn wf(&self) -> bool {
        range_keys_sorted(self.entries@)
    }

    /// An empty range table.
    pub fn new() -> (r: RangeTable)
        ensures
            r.entries@ =~= Seq::<((u32, u32), usize)>::empty(),
            r.wf(),
    {
        RangeTable { entries: Vec::new() }
    }

    /// Inserts an association, replacing any entry with the same key
    /// (last-write-wins on a key collision).
    pub fn insert(&mut self, key: (u32, u32), pos: usize)
        requires
            old(self).wf(),
        ensures
            final(self).wf(),
            map_get(final(self).entries@, key) == Some(pos),
            forall|k: (u32, u32)| k != key ==> map_get(final(self).entries@, k) == map_get(
                old(self).entries@,
                k,
            ),
            final(self).entries@.len() == old(self).entries@.len() + (if map_has(
                old(self).entries@,
                key,
            ) {
                0int
            } else {
                1int
            }),
            final(self).entries@.len() >= 1,
            forall|i: int|
                0 <= i < final(self).entries@.len() ==> final(self).entries@[i] == (key, pos)
                    || exists|j: int|
                    0 <= j < old(self).entries@.len() && final(self).entries@[i] == old(
                        self,
                    ).entries@[j],
    {
        let n = self.entries.len();
        let mut i: usize = 0;
        while i < n && (self.entries[i].0.0 < key.0 || (self.entries[i].0.0 == key.0
            && self.entries[i].0.1 < key.1))
            invariant
                0 <= i <= n,
                n == self.entries@.len(),
                forall|k: int| 0 <= k < i ==> (self.entries@[k].0.0 < key.0 || (
                self.entries@[k].0.0 == key.0 && self.entries@[k].0.1 < key.1)),
            decreases n - i,
        {
            i += 1;
        }
        let ghost pre = self.entries@;
        if i < n && self.entries[i].0.0 == key.0 && self.entries[i].0.1 == key.1 {
            self.entries.remove(i);
            self.entries.insert(i, (key, pos));
            proof {
                let cur = self.entries@;
                assert(cur =~= pre.update(i as int, (key, pos)));
                assert(range_keys_sorted(cur));
                assert(pre[i as int].0 == key);
                assert(forall|j: int| 0 <= j < i ==> cur[j].0 != key);
                lemma_map_get_at(cur, i as int);
                assert forall|k: (u32, u32)| k != key implies map_get(cur, k) == map_get(
                    pre,
                    k,
                ) by {
                    lemma_get_update_other(pre, i as int, (key, pos), k);
                }
                lemma_map_get_at(pre, i as int);
                assert forall|t: int| 0 <= t < cur.len() implies cur[t] == (key, pos) || exists|
                    j: int,
                | 0 <= j < pre.len() && cur[t] == pre[j] by {
                    if t != i {
                        assert(cur[t] == pre[t]);
                    }
                }
            }
        } else {
            proof {
                assert forall|k: int| i <= k < pre.len() implies pre[k].0 != key by {
                    if k > i {
                        assert(pre[i as int].0.0 < pre[k].0.0 || (pre[i as int].0.0 == pre[k].0.0
                            && pre[i as int].0.1 < pre[k].0.1));
                    }
                }
                lemma_map_get_none(pre, key);
            }
            self.entries.insert(i, (key, pos));
            proof {
                let cur = self.entries@;
                assert(cur == pre.insert(i as int, (key, pos)));
                assert forall|a: int, b: int| 0 <= a < b < cur.len() implies (cur[a].0.0
                    < cur[b].0.0 || (cur[a].0.0 == cur[b].0.0 && cur[a].0.1 < cur[b].0.1)) by {
                    if a < i && b > i {
                        assert(cur[a] == pre[a] && cur[b] == pre[b - 1]);
                    } else if a == i {
                        assert(cur[b] == pre[b - 1]);
                    } else if b == i {
                        assert(cur[a] == pre[a]);
                    } else if b < i {
                        assert(cur[a] == pre[a] && cur[b] == pre[b]);
                    } else {
                        assert(cur[a] == pre[a - 1] && cur[b] == pre[b - 1]);
                    }
                }
                assert(forall|j: int| 0 <= j < i ==> cur[j].0 != key);
                lemma_map_get_at(cur, i as int);
                assert forall|k: (u32, u32)| k != key implies map_get(cur, k) == map_get(
                    pre,
                    k,
                ) by {
                    lemma_get_insert_other(pre, i as int, (key, pos), k);
                }
                assert forall|t: int| 0 <= t < cur.len() implies cur[t] == (key, pos) || exists|
                    j: int,
                | 0 <= j < pre.len() && cur[t] == pre[j] by {
                    if t < i {
                        assert(cur[t] == pre[t]);
                    } else if t > i {
                        assert(cur[t] == pre[t - 1]);
                    }
                }
            }
        }
    }
}

/// Whether `k` is the `(start, length)` key of some well-formed translated
/// `(start, end)` pair of `rs`.
pub open spec fn is_translated_key(rs: Seq<(u32, u32)>, k: (u32, u32)) -> bool {
    exists|i: int|
        0 <= i < rs.len() && rs[i].0 < rs[i].1 && k.0 == rs[i].0 && k.1 == rs[i].1 - rs[i].0
}

impl RangeTable {
    /// Records the linear sub-ranges one finalized symbol occupies: each
    /// well-formed translated `(start, end)` pair becomes a `(start, end -
    /// start)` association to the symbol's position; empty or reversed pairs
    /// record nothing, and all other associations are untouched.
    pub fn record_translated(&mut self, rs: &Vec<(u32, u32)>, pos: usize)
        requires
            old(self).wf(),
        ensures
            final(self).wf(),
            forall|i: int|
                0 <= i < rs@.len() && rs@[i].0 < rs@[i].1 ==> map_get(
                    final(self).entries@,
                    (rs@[i].0, (rs@[i].1 - rs@[i].0) as u32),
                ) == Some(pos),
            forall|k: (u32, u32)|
                !is_translated_key(rs@, k) ==> map_get(final(self).entries@, k) == map_get(
                    old(self).entries@,
                    k,
                ),
            forall|t: int|
                0 <= t < final(self).entries@.len() ==> (final(self).entries@[t].1 == pos
                    && is_translated_key(rs@, final(self).entries@[t].0)) || exists|j: int|
                    0 <= j < old(self).entries@.len() && final(self).entries@[t] == old(
                        self,
                    ).entries@[j],
            (exists|i: int| 0 <= i < rs@.len() && rs@[i].0 < rs@[i].1)
                ==> final(self).entries@.len() >= 1,
    {
        let n = rs.len();
        let ghost pre = self.entries@;
        let mut t: usize = 0;
        proof {
            assert forall|q: int|
                0 <= q < self.entries@.len() implies (self.entries@[q].1 == pos
                && is_translated_key(rs@, self.entries@[q].0)) || exists|j: int|
                0 <= j < pre.len() && self.entries@[q] == pre[j] by {
                assert(self.entries@[q] == pre[q]);
            }
        }
        while t < n
            invariant
                0 <= t <= n,
                n == rs@.len(),
                self.wf(),
                forall|i: int|
                    0 <= i < t && rs@[i].0 < rs@[i].1 ==> map_get(
                        self.entries@,
                        (rs@[i].0, (rs@[i].1 - rs@[i].0) as u32),
                    ) == Some(pos),
                forall|k: (u32, u32)|
                    !is_translated_key(rs@.take(t as int), k) ==> map_get(self.entries@, k)
                        == map_get(pre, k),
                forall|q: int|
                    0 <= q < self.entries@.len() ==> (self.entries@[q].1 == pos
                        && is_translated_key(rs@, self.entries@[q].0)) || exists|j: int|
                        0 <= j < pre.len() && self.entries@[q] == pre[j],
                (exists|i: int| 0 <= i < t && rs@[i].0 < rs@[i].1) ==> self.entries@.len() >= 1,
            decreases n - t,
        {
            let (a, b) = rs[t];
            let ghost snap = self.entries@;
            if a < b {
                self.insert((a, b - a), pos);
            }
            proof {
                let tv = rs@.take(t + 1);
                assert(forall|x: int| 0 <= x < t + 1 ==> tv[x] == rs@[x]);
                if a < b {
                    assert(is_translated_key(rs@, (a, (b - a) as u32))) by {
                        assert(rs@[t as int].0 < rs@[t as int].1);
                    }
                }
                assert forall|i: int|
                    0 <= i < t + 1 && rs@[i].0 < rs@[i].1 implies map_get(
                    self.entries@,
                    (rs@[i].0, (rs@[i].1 - rs@[i].0) as u32),
                ) == Some(pos) by {
                    let ki = (rs@[i].0, (rs@[i].1 - rs@[i].0) as u32);
                    if a < b {
                        if ki != (a, (b - a) as u32) {
                            assert(map_get(self.entries@, ki) == map_get(snap, ki));
                        }
                    } else {
                        assert(self.entries@ == snap);
                        assert(i < t);
                    }
                }
                assert forall|k: (u32, u32)|
                    !is_translated_key(tv, k) implies map_get(self.entries@, k) == map_get(
                    pre,
                    k,
                ) by {
                    assert forall|k2: (u32, u32)|
                        is_translated_key(rs@.take(t as int), k2) implies is_translated_key(
                        tv,
                        k2,
                    ) by {
                        let x = choose|x: int|
                            0 <= x < t && rs@.take(t as int)[x].0 < rs@.take(t as int)[x].1
                                && k2.0 == rs@.take(t as int)[x].0 && k2.1 == rs@.take(
                                t as int,
                            )[x].1 - rs@.take(t as int)[x].0;
                        assert(tv[x] == rs@[x]);
                    }
                    if a < b {
                        assert(k != (a, (b - a) as u32)) by {
                            assert(tv[t as int] == rs@[t as int]);
                        }
                        assert(map_get(self.entries@, k) == map_get(snap, k));
                    } else {
                        assert(self.entries@ == snap);
                    }
                }
                assert forall|q: int|
                    0 <= q < self.entries@.len() implies (self.entries@[q].1 == pos
                    && is_translated_key(rs@, self.entries@[q].0)) || exists|j: int|
                    0 <= j < pre.len() && self.entries@[q] == pre[j] by {
                    if a < b {
                        if self.entries@[q] != ((a, (b - a) as u32), pos) {
                            let x = choose|x: int|
                                0 <= x < snap.len() && self.entries@[q] == snap[x];
                            assert((snap[x].1 == pos && is_translated_key(rs@, snap[x].0))
                                || exists|j: int| 0 <= j < pre.len() && snap[x] == pre[j]);
                        }
                    } else {
                        assert(self.entries@ == snap);
                    }
                }
            }
            t += 1;
        }
        proof {
            assert(rs@.take(n as int) =~= rs@);
        }
    }
}

/// Finds the entry carrying `key`, if any.
fn find_index<V>(v: &Vec<(u32, V)>, key: u32) -> (r: Option<usize>)
    ensures
        r matches Some(i) ==> i < v@.len() && v@[i as int].0 == key && (forall|j: int|
            0 <= j < i ==> v@[j].0 != key),
        r is None ==> forall|j: int| 0 <= j < v@.len() ==> v@[j].0 != key,
{
    let n = v.len();
    let mut i: usize = 0;
    while i < n
        invariant
            0 <= i <= n,
            n == v@.len(),
            forall|j: int| 0 <= j < i ==> v@[j].0 != key,
        decreases n - i,
    {
        if v[i].0 == key {
            return Some(i);
        }
        i += 1;
    }
    None
}

/// A name following the compiler's constant-string naming convention.
pub open spec fn is_constant_string_spec(s: Seq<char>) -> bool {
    starts_with(s, "??_C"@)
}

/// A name following a floating-point or vector constant naming convention.
pub open spec fn is_constant_number_spec(s: Seq<char>) -> bool {
    starts_with(s, "__real@"@) || starts_with(s, "__xmm@"@) || starts_with(s, "__ymm@"@)
}

/// Exported names that denote constants rather than code, dropped from the table.
pub open spec fn filter_public_spec(s: Seq<char>) -> bool {
    is_constant_string_spec(s) || is_constant_number_spec(s)
}

/// Whether an exported-symbol record may enter the table at all: it must carry
/// a code or function flag, or lie in a section known to hold code.
pub open spec fn public_eligible(p: PublicRecord) -> bool {
    p.code || p.function || p.in_code_section
}

/// A fresh public-only candidate made from an exported-symbol record named
/// `name` at location `off`, under identity `id`.
pub open spec fn fresh_public_ok(
    e: SelectedSymbol,
    name: Seq<char>,
    off: InternalOffset,
    id: usize,
) -> bool {
    &&& e.name@ == name
    &&& e.type_index == 0
    &&& e.module_index is None
    &&& e.is_public
    &&& !e.is_multiple
    &&& e.offset == off
    &&& e.sym_offset is None
    &&& e.len == 0
    &&& e.parameter_size == 0
    &&& e.source.lines@.len() == 0
    &&& e.ebp@.len() == 0
    &&& e.id == id
}

/// How an accepted exported-symbol record named `name` at location `off` lands
/// in the candidate map at address `rva`: a vacant address receives a fresh
/// public-only candidate and the identity counter advances; an occupied one
/// merges per `pub_merge_ok`; every other address is untouched.
pub open spec fn public_landing(
    pre: Seq<(u32, SelectedSymbol)>,
    pre_id: usize,
    name: Seq<char>,
    off: InternalOffset,
    rva: u32,
    post: Seq<(u32, SelectedSymbol)>,
    post_id: usize,
) -> bool {
    &&& (forall|k: u32| k != rva ==> map_get(post, k) == map_get(pre, k))
    &&& if map_has(pre, rva) {
        &&& (map_get(pre, rva) matches Some(prev) && map_get(post, rva) matches Some(e)
            && pub_merge_ok(prev, name, off, e))
        &&& post.len() == pre.len()
        &&& post_id == pre_id
    } else {
        &&& (map_get(post, rva) matches Some(e) && fresh_public_ok(e, name, off, pre_id))
        &&& post.len() == pre.len() + 1
        &&& post_id == pre_id + 1
    }
}

/// The per-module accumulating symbol table: candidate symbols keyed by
/// address, the currently open procedure scope, and the identity counter.
pub struct RvaSymbols {
    /// Candidate symbols keyed by strictly increasing address.
    pub map: Vec<(u32, SelectedSymbol)>,
    /// The address of the currently open procedure scope.
    pub rva: u32,
    /// The currently open procedure's candidate, not yet committed to the map.
    pub symbol: Option<SelectedSymbol>,
    /// The next table-local identity to hand out.
    pub last_id: usize,
}

impl RvaSymbols {
    /// The table's invariant: candidate keys strictly increase.
    pub open spec fn wf(&self) -> bool {
        keys_sorted(self.map@)
    }

    /// An empty accumulating table.
    pub fn new() -> (r: RvaSymbols)
        ensures
            r.wf(),
            r.map@.len() == 0,
            r.symbol is None,
            r.last_id == 0,
            r.rva == 0,
    {
        RvaSymbols { map: Vec::new(), rva: 0, symbol: None, last_id: 0 }
    }

    /// Read-only probe of the candidate at an address.
    pub fn get_symbol_at(&self, rva: u32) -> (r: Option<&SelectedSymbol>)
        ensures
            r matches Some(s) ==> map_get(self.map@, rva) == Some(*s),
            r is None ==> map_get(self.map@, rva) is None,
    {
        match find_index(&self.map, rva) {
            Some(i) => {
                proof {
                    lemma_map_get_at(self.map@, i as int);
                }
                Some(&self.map[i].1)
            },
            None => {
                proof {
                    lemma_map_get_none(self.map@, rva);
                }
                None
            },
        }
    }

    /// Opens a procedure scope: a new candidate at the scope's address, unless
    /// one already exists there, in which case only its collision flag is set
    /// (duplicate scopes at one address are identical generated code).
    pub fn add_procedure_symbol(
        &mut self,
        function: ProcedureRecord,
        block_info: BlockInfo,
        module_index: usize,
        source: Lines,
    )
        requires
            old(self).wf(),
            old(self).last_id < usize::MAX,
        ensures
            final(self).wf(),
            map_has(old(self).map@, block_info.rva) ==> ({
                &&& final(self).map@.len() == old(self).map@.len()
                &&& (map_get(old(self).map@, block_info.rva) matches Some(prev) && map_get(
                    final(self).map@,
                    block_info.rva,
                ) == Some(SelectedSymbol { is_multiple: true, ..prev }))
                &&& (forall|k: u32| k != block_info.rva ==> map_get(final(self).map@, k)
                    == map_get(old(self).map@, k))
                &&& final(self).symbol == old(self).symbol
                &&& final(self).rva == old(self).rva
                &&& final(self).last_id == old(self).last_id
            }),
            !map_has(old(self).map@, block_info.rva) ==> ({
                &&& final(self).map@ == old(self).map@
                &&& final(self).rva == block_info.rva
                &&& final(self).last_id == old(self).last_id + 1
                &&& (final(self).symbol matches Some(s) && {
                    &&& s.name@ == function.name@
                    &&& s.type_index == function.type_index
                    &&& s.module_index == Some(module_index)
                    &&& !s.is_public
                    &&& !s.is_multiple
                    &&& s.offset == block_info.offset
                    &&& s.sym_offset == Some(function.offset)
                    &&& s.len == block_info.len
                    &&& s.parameter_size == 0
                    &&& s.source.lines@ == source.lines@
                    &&& s.ebp@.len() == 0
                    &&& s.id == old(self).last_id
                })
            }),
    {
        match find_index(&self.map, block_info.rva) {
            Some(i) => {
                let ghost pre = self.map@;
                let (k, mut selected) = self.map.remove(i);
                selected.is_multiple = true;
                self.map.insert(i, (k, selected));
                proof {
                    let cur = self.map@;
                    let ghost prev = pre[i as int].1;
                    assert(cur =~= pre.update(i as int, (k, SelectedSymbol {
                        is_multiple: true,
                        ..prev
                    })));
                    assert(keys_sorted(cur));
                    lemma_map_get_at(pre, i as int);
                    lemma_map_get_at(cur, i as int);
                    assert forall|kk: u32| kk != block_info.rva implies map_get(cur, kk)
                        == map_get(pre, kk) by {
                        lemma_get_update_other(
                            pre,
                            i as int,
                            (k, SelectedSymbol { is_multiple: true, ..prev }),
                            kk,
                        );
                    }
                }
            },
            None => {
                proof {
                    lemma_map_get_none(self.map@, block_info.rva);
                }
                self.rva = block_info.rva;
                self.symbol = Some(
                    SelectedSymbol {
                        name: function.name,
                        type_index: function.type_index,
                        module_index: Some(module_index),
                        is_public: false,
                        is_multiple: false,
                        offset: block_info.offset,
                        sym_offset: Some(function.offset),
                        len: block_info.len,
                        parameter_size: 0,
                        source,
                        ebp: Vec::new(),
                        id: self.last_id,
                    },
                );
                self.last_id = self.last_id + 1;
            },
        }
    }

    /// Appends a frame-relative variable to the currently open procedure's
    /// list; a no-op when no procedure scope is open.
    pub fn add_ebp(&mut self, ebp: EBPInfo)
        ensures
            final(self).wf() == old(self).wf(),
            final(self).map@ == old(self).map@,
            final(self).rva == old(self).rva,
            final(self).last_id == old(self).last_id,
            old(self).symbol is None ==> final(self).symbol is None,
            old(self).symbol matches Some(s) ==> (final(self).symbol matches Some(s2) && {
                &&& s2.ebp@ == s.ebp@.push(ebp)
                &&& s2.name@ == s.name@
                &&& s2.type_index == s.type_index
                &&& s2.module_index == s.module_index
                &&& s2.is_public == s.is_public
                &&& s2.is_multiple == s.is_multiple
                &&& s2.offset == s.offset
                &&& s2.sym_offset == s.sym_offset
                &&& s2.len == s.len
                &&& s2.parameter_size == s.parameter_size
                &&& s2.source.lines@ == s.source.lines@
                &&& s2.id == s.id
            }),
    {
        let cur = self.symbol.take();
        match cur {
            Some(mut s) => {
                s.ebp.push(ebp);
                self.symbol = Some(s);
            },
            None => {},
        }
    }

    /// Commits the currently open candidate into the table at its address and
    /// clears the open slot.
    pub fn close_procedure(&mut self)
        requires
            old(self).wf(),
        ensures
            final(self).wf(),
            final(self).symbol is None,
            final(self).rva == old(self).rva,
            final(self).last_id == old(self).last_id,
            old(self).symbol is None ==> final(self).map@ == old(self).map@,
            old(self).symbol matches Some(s) ==> ({
                &&& map_get(final(self).map@, old(self).rva) == Some(s)
                &&& (forall|k: u32| k != old(self).rva ==> map_get(final(self).map@, k)
                    == map_get(old(self).map@, k))
            }),
    {
        let cur = self.symbol.take();
        match cur {
            Some(s) => {
                insert_sorted(&mut self.map, self.rva, s);
            },
            None => {},
        }
    }

    /// Merges an already-built candidate at an address: an occupied address only
    /// has its collision flag set, a vacant one receives the candidate.
    pub fn add_symbol(&mut self, function: SelectedSymbol, block_info: BlockInfo)
        requires
            old(self).wf(),
        ensures
            final(self).wf(),
            final(self).symbol == old(self).symbol,
            final(self).rva == old(self).rva,
            final(self).last_id == old(self).last_id,
            map_has(old(self).map@, block_info.rva) ==> ({
                &&& final(self).map@.len() == old(self).map@.len()
                &&& (map_get(old(self).map@, block_info.rva) matches Some(prev) && map_get(
                    final(self).map@,
                    block_info.rva,
                ) == Some(SelectedSymbol { is_multiple: true, ..prev }))
                &&& (forall|k: u32| k != block_info.rva ==> map_get(final(self).map@, k)
                    == map_get(old(self).map@, k))
            }),
            !map_has(old(self).map@, block_info.rva) ==> ({
                &&& map_get(final(self).map@, block_info.rva) == Some(function)
                &&& (forall|k: u32| k != block_info.rva ==> map_get(final(self).map@, k)
                    == map_get(old(self).map@, k))
                &&& final(self).map@.len() == old(self).map@.len() + 1
            }),
    {
        match find_index(&self.map, block_info.rva) {
            Some(i) => {
                let ghost pre = self.map@;
                let (k, mut selected) = self.map.remove(i);
                selected.is_multiple = true;
                self.map.insert(i, (k, selected));
                proof {
                    let cur = self.map@;
                    let ghost prev = pre[i as int].1;
                    assert(cur =~= pre.update(i as int, (k, SelectedSymbol {
                        is_multiple: true,
                        ..prev
                    })));
                    assert(keys_sorted(cur));
                    lemma_map_get_at(pre, i as int);
                    lemma_map_get_at(cur, i as int);
                    assert forall|kk: u32| kk != block_info.rva implies map_get(cur, kk)
                        == map_get(pre, kk) by {
                        lemma_get_update_other(
                            pre,
                            i as int,
                            (k, SelectedSymbol { is_multiple: true, ..prev }),
                            kk,
                        );
                    }
                }
            },
            None => {
                proof {
                    lemma_map_get_none(self.map@, block_info.rva);
                }
                insert_sorted(&mut self.map, block_info.rva, function);
            },
        }
    }

    /// Whether the name follows the compiler's constant-string convention.
    pub fn is_constant_string(name: &str) -> (r: bool)
        ensures
            r == is_constant_string_spec(name@),
    {
        str_starts_with(name, "??_C")
    }

    /// Whether the name follows a floating-point or vector constant convention.
    pub fn is_constant_number(name: &str) -> (r: bool)
        ensures
            r == is_constant_number_spec(name@),
    {
        str_starts_with(name, "__real@") || str_starts_with(name, "__xmm@") || str_starts_with(
            name,
            "__ymm@",
        )
    }

    /// Whether an exported name denotes a constant and is dropped from the table.
    pub fn filter_public(name: &str) -> (r: bool)
        ensures
            r == filter_public_spec(name@),
    {
        Self::is_constant_string(name) || Self::is_constant_number(name)
    }

    /// Merges an exported-symbol record whose address is already resolved:
    /// ineligible or constant-named records are dropped; a vacant address gets a
    /// public-only candidate; an occupied one merges per `pub_merge_ok`.
    pub fn add_public_symbol_at(&mut self, symbol: PublicRecord, rva: u32)
        requires
            old(self).wf(),
            old(self).last_id < usize::MAX,
        ensures
            final(self).wf(),
            final(self).symbol == old(self).symbol,
            final(self).rva == old(self).rva,
            !(public_eligible(symbol) && !filter_public_spec(symbol.name@)) ==> final(self).map@
                == old(self).map@ && final(self).last_id == old(self).last_id,
            (public_eligible(symbol) && !filter_public_spec(symbol.name@)) ==> public_landing(
                old(self).map@,
                old(self).last_id,
                symbol.name@,
                symbol.offset,
                rva,
                final(self).map@,
                final(self).last_id,
            ),
    {
        if !(symbol.code || symbol.function || symbol.in_code_section) {
            return ;
        }
        if Self::filter_public(symbol.name.as_str()) {
            return ;
        }
        match find_index(&self.map, rva) {
            Some(i) => {
                let ghost pre = self.map@;
                let (k, mut prev) = self.map.remove(i);
                prev.update_public(symbol);
                self.map.insert(i, (k, prev));
                proof {
                    let cur = self.map@;
                    assert(cur =~= pre.update(i as int, (k, prev)));
                    assert(keys_sorted(cur));
                    lemma_map_get_at(pre, i as int);
                    lemma_map_get_at(cur, i as int);
                    assert forall|kk: u32| kk != rva implies map_get(cur, kk) == map_get(
                        pre,
                        kk,
                    ) by {
                        lemma_get_update_other(pre, i as int, (k, prev), kk);
                    }
                }
            },
            None => {
                proof {
                    lemma_map_get_none(self.map@, rva);
                }
                let off = symbol.offset;
                insert_sorted(
                    &mut self.map,
                    rva,
                    SelectedSymbol {
                        name: symbol.name,
                        type_index: 0,
                        module_index: None,
                        is_public: true,
                        is_multiple: false,
                        offset: off,
                        sym_offset: None,
                        len: 0,
                        parameter_size: 0,
                        source: Lines::new(),
                        ebp: Vec::new(),
                        id: self.last_id,
                    },
                );
                self.last_id = self.last_id + 1;
            },
        }
    }

    /// Merges an exported-symbol record, resolving its address through the
    /// external address map first. A record whose address does not resolve, or
    /// that is not in a code region, or whose name follows a constant-naming
    /// convention, is silently dropped and the table is left unchanged; every
    /// accepted record lands at its one translated address per `public_landing`.
    pub fn add_public_symbol(&mut self, symbol: PublicRecord, address_map: &AddressMap)
        requires
            old(self).wf(),
            old(self).last_id < usize::MAX,
        ensures
            final(self).wf(),
            final(self).symbol == old(self).symbol,
            final(self).rva == old(self).rva,
            !(public_eligible(symbol) && !filter_public_spec(symbol.name@)) ==> final(self).map@
                == old(self).map@ && final(self).last_id == old(self).last_id,
            (final(self).map@ == old(self).map@ && final(self).last_id == old(self).last_id) || (
            public_eligible(symbol) && !filter_public_spec(symbol.name@) && exists|rva: u32|
                #[trigger] public_landing(
                    old(self).map@,
                    old(self).last_id,
                    symbol.name@,
                    symbol.offset,
                    rva,
                    final(self).map@,
                    final(self).last_id,
                )),
    {
        let off = symbol.offset;
        match offset_to_rva(address_map, off) {
            Some(rva) => {
                self.add_public_symbol_at(symbol, rva);
            },
            None => {},
        }
    }

    /// Finalizes every candidate and splits each into the linear address ranges
    /// it occupies, recording which finalized symbol owns each range. A
    /// zero-length symbol occupies one degenerate range; a symbol whose location
    /// the address map cannot translate keeps its untranslated range, clamped to
    /// the address space.
    pub fn split_and_collect(self, formatter: &TypeFormatter, address_map: &AddressMap) -> (r: (
        Vec<PDBSymbol>,
        RangeTable,
    ))
        requires
            self.wf(),
        ensures
            r.1.wf(),
            forall|i: int| 0 <= i < r.1.entries@.len() ==> r.1.entries@[i].1 < r.0@.len(),
            forall|i: int|
                0 <= i < r.1.entries@.len() ==> r.1.entries@[i].0.0 + r.1.entries@[i].0.1
                    <= u32::MAX,
            r.0@.len() == self.map@.len(),
            forall|k: int|
                0 <= k < r.0@.len() ==> r.0@[k].id == self.map@[k].1.id && r.0@[k].is_public
                    == self.map@[k].1.is_public && r.0@[k].is_multiple
                    == self.map@[k].1.is_multiple && r.0@[k].len == self.map@[k].1.len,
            forall|k: int|
                0 <= k < r.0@.len() && r.0@[k].len == 0 ==> map_get(
                    r.1.entries@,
                    (self.map@[k].0, 0u32),
                ) == Some(k as usize),
    {
        let mut ranges = RangeTable::new();
        let mut all_syms: Vec<PDBSymbol> = Vec::new();
        let mut m = self.map;
        let ghost orig = m@;
        proof {
            assert(m@ =~= orig.skip(0));
        }
        while m.len() > 0
            invariant
                all_syms@.len() <= orig.len(),
                m@ == orig.skip(all_syms@.len() as int),
                keys_sorted(orig),
                ranges.wf(),
                forall|i: int|
                    0 <= i < ranges.entries@.len() ==> ranges.entries@[i].1 < all_syms@.len(),
                forall|i: int|
                    0 <= i < ranges.entries@.len() ==> ranges.entries@[i].0.0
                        + ranges.entries@[i].0.1 <= u32::MAX,
                forall|k: int|
                    0 <= k < all_syms@.len() ==> all_syms@[k].id == orig[k].1.id
                        && all_syms@[k].is_public == orig[k].1.is_public
                        && all_syms@[k].is_multiple == orig[k].1.is_multiple && all_syms@[k].len
                        == orig[k].1.len,
                forall|k: int|
                    0 <= k < all_syms@.len() && all_syms@[k].len == 0 ==> map_get(
                        ranges.entries@,
                        (orig[k].0, 0u32),
                    ) == Some(k as usize),
            decreases m@.len(),
        {
            let ghost done = all_syms@.len() as int;
            let (rva, sym) = m.remove(0);
            proof {
                assert(orig.skip(done)[0] == orig[done]);
                assert(m@ =~= orig.skip(done + 1));
                assert(rva == orig[done].0);
            }
            let (psym, offset) = sym.mv_to_pdb_symbol(formatter);
            let last = all_syms.len();
            let ghost snap = ranges.entries@;
            if psym.len == 0 {
                ranges.insert((rva, 0), last);
                proof {
                    assert forall|k: int|
                        0 <= k < done && all_syms@[k].len == 0 implies map_get(
                        ranges.entries@,
                        (orig[k].0, 0u32),
                    ) == Some(k as usize) by {
                        assert(orig[k].0 < orig[done].0);
                        assert((orig[k].0, 0u32) != (rva, 0u32));
                        assert(map_get(ranges.entries@, (orig[k].0, 0u32)) == map_get(
                            snap,
                            (orig[k].0, 0u32),
                        ));
                    }
                }
            } else {
                match offset_to_internal_rva(address_map, offset) {
                    Some(start) => {
                        if start <= u32::MAX - psym.len {
                            let end = start + psym.len;
                            let rs = rva_ranges(address_map, start, end);
                            ranges.record_translated(&rs, last);
                            proof {
                                assert forall|k: int|
                                    0 <= k < done && all_syms@[k].len == 0 implies map_get(
                                    ranges.entries@,
                                    (orig[k].0, 0u32),
                                ) == Some(k as usize) by {
                                    assert(!is_translated_key(rs@, (orig[k].0, 0u32))) by {
                                        if is_translated_key(rs@, (orig[k].0, 0u32)) {
                                            let x = choose|x: int|
                                                0 <= x < rs@.len() && rs@[x].0 < rs@[x].1 && (
                                                orig[k].0, 0u32).0 == rs@[x].0 && (
                                                orig[k].0,
                                                0u32,
                                                ).1 == rs@[x].1 - rs@[x].0;
                                            assert(rs@[x].1 - rs@[x].0 > 0);
                                        }
                                    }
                                    assert(map_get(ranges.entries@, (orig[k].0, 0u32))
                                        == map_get(snap, (orig[k].0, 0u32)));
                                }
                                assert forall|i: int|
                                    0 <= i < ranges.entries@.len() implies ranges.entries@[i].0.0
                                    + ranges.entries@[i].0.1 <= u32::MAX by {
                                    if ranges.entries@[i].1 == last && is_translated_key(
                                        rs@,
                                        ranges.entries@[i].0,
                                    ) {
                                        let x = choose|x: int|
                                            0 <= x < rs@.len() && rs@[x].0 < rs@[x].1
                                                && ranges.entries@[i].0.0 == rs@[x].0
                                                && ranges.entries@[i].0.1 == rs@[x].1 - rs@[x].0;
                                    }
                                }
                            }
                        }
                    },
                    None => {},
                }
            }
            all_syms.push(psym);
        }
        proof {
            assert(orig.skip(all_syms@.len() as int).len() == 0);
        }
        (all_syms, ranges)
    }

    /// Finalizes the whole table: candidates are resolved, split into their
    /// linear ranges, and gap-filled into the canonical address-ordered table.
    /// Every entry descends from some candidate; a table holding a zero-length
    /// candidate never reconciles to an empty result, and a table all of whose
    /// candidates' ranges were eliminated by translation reconciles to an empty
    /// one.
    pub fn mv_to_pdb_symbols(self, formatter: &TypeFormatter, address_map: &AddressMap) -> (r:
        PDBSymbols)
        requires
            self.wf(),
        ensures
            r.wf(),
            self.map@.len() == 0 ==> r.entries@.len() == 0,
            (exists|j: int| 0 <= j < self.map@.len() && self.map@[j].1.len == 0)
                ==> r.entries@.len() > 0,
            entries_from_candidates(r.entries@, self.map@),
    {
        if self.map.len() == 0 {
            return PDBSymbols::new();
        }
        let ghost pre = self.map@;
        let (all_syms, ranges) = self.split_and_collect(formatter, address_map);
        if ranges.entries.len() == 0 {
            // Translation eliminated every candidate's address range: nothing
            // occupies any linear address.
            proof {
                if exists|j: int| 0 <= j < pre.len() && pre[j].1.len == 0 {
                    let j = choose|j: int| 0 <= j < pre.len() && pre[j].1.len == 0;
                    assert(all_syms@[j].len == 0);
                    assert(map_get(ranges.entries@, (pre[j].0, 0u32)) == Some(j as usize));
                }
            }
            return PDBSymbols::new();
        }
        let r = fill_the_gaps(&all_syms, &ranges);
        proof {
            lemma_entries_from_candidates(r.entries@, all_syms@, pre);
        }
        r
    }
}

/// The sentinel's display name: an unknown-symbol marker wrapping the module
/// context, when one is given.
pub open spec fn dummy_name_spec(m: Seq<char>) -> Seq<char> {
    if m.len() == 0 {
        "<unknown>"@
    } else {
        "<unknown in "@ + m + ">"@
    }
}

/// The sentinel's address: just past the last entry's end, one further for a
/// zero-length last entry.
pub open spec fn dummy_rva_spec(last: PDBSymbol) -> int {
    if last.len == 0 {
        last.rva + last.len + 1
    } else {
        last.rva + last.len
    }
}

/// Appends a trailing placeholder symbol just past the last entry's end, with
/// an identity one greater than the last entry's, marking the upper bound of
/// known coverage; an empty table is handed back unchanged.
pub fn append_dummy_symbol(syms: PDBSymbols, name: &str) -> (r: PDBSymbols)
    requires
        syms.wf(),
        syms.entries@.len() > 0 ==> dummy_rva_spec(syms.entries@.last().1) <= u32::MAX
            && syms.entries@.last().1.id + 1 <= usize::MAX,
    ensures
        r.wf(),
        syms.entries@.len() == 0 ==> r.entries@ == syms.entries@,
        syms.entries@.len() > 0 ==> ({
            let rva = dummy_rva_spec(syms.entries@.last().1) as u32;
            &&& (map_get(r.entries@, rva) matches Some(d) && {
                &&& d.name@ == dummy_name_spec(name@)
                &&& d.is_public
                &&& !d.is_multiple
                &&& d.rva == rva
                &&& d.len == 0
                &&& d.parameter_size == 0
                &&& d.source.lines@.len() == 0
                &&& d.id == syms.entries@.last().1.id + 1
            })
            &&& (forall|k: u32| k != rva ==> map_get(r.entries@, k) == map_get(syms.entries@, k))
        }),
{
    let n = syms.entries.len();
    if n == 0 {
        return syms;
    }
    let (rva0, len0, id0) = {
        let e = &syms.entries[n - 1];
        (e.1.rva, e.1.len, e.1.id)
    };
    let rva = if len0 == 0 {
        rva0 + len0 + 1
    } else {
        rva0 + len0
    };
    let dummy_name = if name.is_empty() {
        "<unknown>".to_owned()
    } else {
        String::from_str("<unknown in ").concat(name).concat(">")
    };
    let mut out = syms;
    out.insert(
        rva,
        PDBSymbol {
            name: dummy_name,
            is_public: true,
            is_multiple: false,
            rva,
            len: 0,
            parameter_size: 0,
            source: Rc::new(Lines::new()),
            id: id0 + 1,
        },
    );
    out
}

/// The `(start, length, symbol position)` triples a range table holds.
pub open spec fn range_triples(rs: Seq<((u32, u32), usize)>) -> Seq<(int, int, int)> {
    Seq::new(rs.len(), |i: int| (rs[i].0.0 as int, rs[i].0.1 as int, rs[i].1 as int))
}

/// The identity each finalized symbol carries, by position.
pub open spec fn sym_ids(syms: Seq<PDBSymbol>) -> Seq<int> {
    Seq::new(syms.len(), |i: int| syms[i].id as int)
}

/// One pass of the gap-filling reconciler over address-ordered `(start, length,
/// symbol position)` range associations: consecutive ranges whose symbols share
/// one identity merge into a single widened range running from the first
/// range's start through the last range's end, holes included; a change of
/// identity commits the accumulated range and starts a new one.
pub open spec fn gap_fill(rs: Seq<(int, int, int)>, ids: Seq<int>) -> Seq<(int, int, int)>
    decreases rs.len(),
{
    if rs.len() <= 1 {
        rs
    } else if ids[rs[0].2] == ids[rs[1].2] {
        gap_fill(seq![(rs[0].0, rs[1].0 - rs[0].0 + rs[1].1, rs[0].2)] + rs.skip(2), ids)
    } else {
        seq![rs[0]] + gap_fill(rs.skip(1), ids)
    }
}

/// The canonical table's entries are address-ordered and pairwise
/// non-overlapping: over range associations with strictly increasing starts and
/// non-overlapping spans, gap-filling produces entries with strictly increasing
/// starts whose spans never reach into the next entry.
pub proof fn lemma_gap_fill_ordered_disjoint(rs: Seq<(int, int, int)>, ids: Seq<int>)
    requires
        forall|i: int| 0 <= i < rs.len() ==> rs[i].1 >= 0,
        forall|i: int, j: int| 0 <= i < j < rs.len() ==> rs[i].0 < rs[j].0,
        forall|i: int, j: int| 0 <= i < j < rs.len() ==> rs[i].0 + rs[i].1 <= rs[j].0,
    ensures
        (gap_fill(rs, ids).len() == 0) == (rs.len() == 0),
        rs.len() > 0 ==> gap_fill(rs, ids)[0].0 == rs[0].0,
        forall|i: int| 0 <= i < gap_fill(rs, ids).len() ==> gap_fill(rs, ids)[i].1 >= 0,
        forall|i: int, j: int| 0 <= i < j < gap_fill(rs, ids).len() ==> gap_fill(rs, ids)[i].0
            < gap_fill(rs, ids)[j].0,
        forall|i: int, j: int| 0 <= i < j < gap_fill(rs, ids).len() ==> gap_fill(rs, ids)[i].0
            + gap_fill(rs, ids)[i].1 <= gap_fill(rs, ids)[j].0,
    decreases rs.len(),
{
    let gf = gap_fill(rs, ids);
    if rs.len() <= 1 {
    } else if ids[rs[0].2] == ids[rs[1].2] {
        let merged = (rs[0].0, rs[1].0 - rs[0].0 + rs[1].1, rs[0].2);
        let rs2 = seq![merged] + rs.skip(2);
        assert(forall|k: int| 0 <= k < rs.skip(2).len() ==> rs.skip(2)[k] == rs[k + 2]);
        assert(rs2[0] == merged);
        assert(forall|k: int| 1 <= k < rs2.len() ==> rs2[k] == rs[k + 1]);
        assert(merged.1 >= 0);
        lemma_gap_fill_ordered_disjoint(rs2, ids);
        assert(gf == gap_fill(rs2, ids));
    } else {
        let tail = rs.skip(1);
        assert(forall|k: int| 0 <= k < tail.len() ==> tail[k] == rs[k + 1]);
        lemma_gap_fill_ordered_disjoint(tail, ids);
        let gt = gap_fill(tail, ids);
        assert(gf == seq![rs[0]] + gt);
        assert(gf[0] == rs[0]);
        assert(forall|k: int| 1 <= k < gf.len() ==> gf[k] == gt[k - 1]);
        assert(gt[0].0 == rs[1].0);
        assert forall|j: int| 1 <= j < gf.len() implies gf[0].0 < #[trigger] gf[j].0 && gf[0].0
            + gf[0].1 <= gf[j].0 by {
            if j > 1 {
                assert(gt[0].0 < gt[j - 1].0);
            }
            assert(rs[0].0 + rs[0].1 <= rs[1].0);
        }
    }
}

/// Consecutive ranges that all share one symbol identity merge into exactly one
/// entry whose span runs from the first range's start through the last range's
/// end, and which keeps the first range's symbol.
pub proof fn lemma_gap_fill_single_identity(rs: Seq<(int, int, int)>, ids: Seq<int>)
    requires
        rs.len() >= 1,
        forall|i: int, j: int| 0 <= i < j < rs.len() ==> rs[i].0 <= rs[j].0,
        forall|i: int, j: int| 0 <= i < j < rs.len() ==> ids[rs[i].2] == ids[rs[j].2],
    ensures
        gap_fill(rs, ids).len() == 1,
        gap_fill(rs, ids)[0].0 == rs[0].0,
        gap_fill(rs, ids)[0].1 == rs.last().0 - rs[0].0 + rs.last().1,
        gap_fill(rs, ids)[0].2 == rs[0].2,
    decreases rs.len(),
{
    if rs.len() == 1 {
        assert(rs.last() == rs[0]);
    } else {
        assert(ids[rs[0].2] == ids[rs[1].2]);
        let merged = (rs[0].0, rs[1].0 - rs[0].0 + rs[1].1, rs[0].2);
        let rs2 = seq![merged] + rs.skip(2);
        assert(forall|k: int| 0 <= k < rs.skip(2).len() ==> rs.skip(2)[k] == rs[k + 2]);
        assert(rs2[0] == merged);
        assert(forall|k: int| 1 <= k < rs2.len() ==> rs2[k] == rs[k + 1]);
        lemma_gap_fill_single_identity(rs2, ids);
        if rs.len() == 2 {
            assert(rs2.last() == merged);
            assert(rs.last() == rs[1]);
        } else {
            assert(rs2.last() == rs[rs.len() - 1]);
        }
        assert(gap_fill(rs, ids) == gap_fill(rs2, ids));
    }
}

/// Gap-filling never merges across an identity boundary: a change of owning
/// identity at position `m` splits the walk into two independent walks.
pub proof fn lemma_gap_fill_split(rs: Seq<(int, int, int)>, ids: Seq<int>, m: int)
    requires
        0 <= m <= rs.len(),
        m == 0 || m == rs.len() || ids[rs[m - 1].2] != ids[rs[m].2],
    ensures
        gap_fill(rs, ids) == gap_fill(rs.take(m), ids) + gap_fill(rs.skip(m), ids),
    decreases rs.len(),
{
    if m == 0 {
        assert(rs.take(0) =~= Seq::<(int, int, int)>::empty());
        assert(rs.skip(0) =~= rs);
        assert(gap_fill(rs.take(0), ids) + gap_fill(rs, ids) =~= gap_fill(rs, ids));
    } else if m == rs.len() {
        assert(rs.take(m) =~= rs);
        assert(rs.skip(m) =~= Seq::<(int, int, int)>::empty());
        assert(gap_fill(rs, ids) + gap_fill(rs.skip(m), ids) =~= gap_fill(rs, ids));
    } else if rs.len() >= 2 && m == 1 {
        assert(ids[rs[0].2] != ids[rs[1].2]);
        assert(gap_fill(rs, ids) == seq![rs[0]] + gap_fill(rs.skip(1), ids));
        assert(rs.take(1) =~= seq![rs[0]]);
        assert(gap_fill(rs.take(1), ids) == rs.take(1));
        assert(gap_fill(rs.take(1), ids) =~= seq![rs[0]]);
    } else {
        assert(rs.len() >= 2 && 2 <= m < rs.len());
        let front = rs.take(m);
        assert(front.len() == m);
        assert(forall|x: int| 0 <= x < m ==> front[x] == rs[x]);
        if ids[rs[0].2] == ids[rs[1].2] {
            let merged = (rs[0].0, rs[1].0 - rs[0].0 + rs[1].1, rs[0].2);
            let rs2 = seq![merged] + rs.skip(2);
            assert(forall|x: int| 0 <= x < rs.skip(2).len() ==> rs.skip(2)[x] == rs[x + 2]);
            assert(forall|x: int| 1 <= x < rs2.len() ==> rs2[x] == rs[x + 1]);
            assert(rs2[m - 1].2 == rs[m].2);
            if m == 2 {
                assert(rs2[0].2 == rs[0].2);
                assert(ids[rs[0].2] == ids[rs[1].2]);
            } else {
                assert(rs2[m - 2] == rs[m - 1]);
            }
            assert(ids[rs2[m - 2].2] != ids[rs2[m - 1].2]);
            lemma_gap_fill_split(rs2, ids, m - 1);
            assert(gap_fill(rs, ids) == gap_fill(rs2, ids));
            assert(rs2.skip(m - 1) =~= rs.skip(m));
            let front2 = rs2.take(m - 1);
            assert(front2 =~= seq![merged] + front.skip(2));
            assert(front[0] == rs[0] && front[1] == rs[1]);
            assert(gap_fill(front, ids) == gap_fill(seq![(front[0].0, front[1].0 - front[0].0
                + front[1].1, front[0].2)] + front.skip(2), ids));
            assert(seq![(front[0].0, front[1].0 - front[0].0 + front[1].1, front[0].2)]
                + front.skip(2) =~= front2);
        } else {
            assert(gap_fill(rs, ids) == seq![rs[0]] + gap_fill(rs.skip(1), ids));
            let tail = rs.skip(1);
            assert(forall|x: int| 0 <= x < tail.len() ==> tail[x] == rs[x + 1]);
            assert(tail[m - 2].2 == rs[m - 1].2 && tail[m - 1].2 == rs[m].2);
            lemma_gap_fill_split(tail, ids, m - 1);
            assert(tail.skip(m - 1) =~= rs.skip(m));
            assert(front.len() >= 2);
            assert(front[0] == rs[0] && front[1] == rs[1]);
            assert(gap_fill(front, ids) == seq![front[0]] + gap_fill(front.skip(1), ids));
            assert(front.skip(1) =~= tail.take(m - 1));
            assert(gap_fill(rs, ids) =~= (seq![rs[0]] + gap_fill(tail.take(m - 1), ids))
                + gap_fill(rs.skip(m), ids));
            assert(seq![rs[0]] + gap_fill(tail.take(m - 1), ids) =~= gap_fill(front, ids));
        }
    }
}

/// A maximal run of consecutive ranges sharing one symbol identity yields
/// exactly one table entry: it spans from the run's first start through the
/// run's last end, holes included, and keeps the run's first symbol; the walks
/// before and after the run are unaffected.
pub proof fn lemma_gap_fill_maximal_run(rs: Seq<(int, int, int)>, ids: Seq<int>, a: int, b: int)
    requires
        0 <= a < b <= rs.len(),
        forall|i: int, j: int| 0 <= i < j < rs.len() ==> rs[i].0 <= rs[j].0,
        forall|i: int, j: int| a <= i < b && a <= j < b ==> ids[rs[i].2] == ids[rs[j].2],
        a == 0 || ids[rs[a - 1].2] != ids[rs[a].2],
        b == rs.len() || ids[rs[b - 1].2] != ids[rs[b].2],
    ensures
        gap_fill(rs, ids) == gap_fill(rs.take(a), ids) + seq![
            (rs[a].0, rs[b - 1].0 - rs[a].0 + rs[b - 1].1, rs[a].2),
        ] + gap_fill(rs.skip(b), ids),
{
    lemma_gap_fill_split(rs, ids, a);
    let back = rs.skip(a);
    assert(forall|x: int| 0 <= x < back.len() ==> back[x] == rs[x + a]);
    if b < rs.len() {
        assert(back[b - a - 1].2 == rs[b - 1].2 && back[b - a].2 == rs[b].2);
    }
    lemma_gap_fill_split(back, ids, b - a);
    let run = back.take(b - a);
    assert(forall|x: int| 0 <= x < b - a ==> run[x] == rs[x + a]);
    lemma_gap_fill_single_identity(run, ids);
    assert(run[0] == rs[a] && run.last() == rs[b - 1]);
    assert(gap_fill(run, ids) =~= seq![(rs[a].0, rs[b - 1].0 - rs[a].0 + rs[b - 1].1, rs[a].2)]);
    assert(back.skip(b - a) =~= rs.skip(b));
    assert(gap_fill(rs, ids) =~= gap_fill(rs.take(a), ids) + seq![
        (rs[a].0, rs[b - 1].0 - rs[a].0 + rs[b - 1].1, rs[a].2),
    ] + gap_fill(rs.skip(b), ids));
}

/// Whether range starts strictly increase (no two associations share a start).
pub open spec fn strict_starts(rs: Seq<((u32, u32), usize)>) -> bool {
    forall|i: int, j: int| 0 <= i < j < rs.len() ==> rs[i].0.0 < rs[j].0.0
}

/// Whether no range association reaches into a later one's span.
pub open spec fn ranges_disjoint(rs: Seq<((u32, u32), usize)>) -> bool {
    forall|i: int, j: int| 0 <= i < j < rs.len() ==> rs[i].0.0 + rs[i].0.1 <= rs[j].0.0
}

/// The final canonical table's entries are address-ordered and pairwise
/// non-overlapping: a table that realizes the gap-filled model of range
/// associations with strictly increasing starts and disjoint spans has strictly
/// increasing addresses, and no entry's span reaches the next entry.
pub proof fn lemma_canonical_table_disjoint(
    entries: Seq<(u32, PDBSymbol)>,
    rs: Seq<((u32, u32), usize)>,
    syms: Seq<PDBSymbol>,
)
    requires
        strict_starts(rs),
        ranges_disjoint(rs),
        entries.len() == gap_fill(range_triples(rs), sym_ids(syms)).len(),
        forall|k: int|
            0 <= k < entries.len() ==> gf_entry_ok(
                gap_fill(range_triples(rs), sym_ids(syms))[k],
                syms,
                entries[k],
            ),
    ensures
        forall|i: int, j: int| 0 <= i < j < entries.len() ==> entries[i].0 < entries[j].0,
        forall|i: int, j: int|
            0 <= i < j < entries.len() ==> entries[i].0 + entries[i].1.len <= entries[j].0,
{
    let ts = range_triples(rs);
    assert(forall|i: int| 0 <= i < ts.len() ==> ts[i].1 >= 0);
    assert(forall|i: int, j: int| 0 <= i < j < ts.len() ==> ts[i].0 < ts[j].0);
    assert(forall|i: int, j: int| 0 <= i < j < ts.len() ==> ts[i].0 + ts[i].1 <= ts[j].0);
    lemma_gap_fill_ordered_disjoint(ts, sym_ids(syms));
}

/// All range associations sharing one symbol identity collapse into exactly one
/// table entry, spanning from the first range's start through the last range's
/// end with every internal hole closed.
pub proof fn lemma_canonical_table_single_span(
    entries: Seq<(u32, PDBSymbol)>,
    rs: Seq<((u32, u32), usize)>,
    syms: Seq<PDBSymbol>,
)
    requires
        rs.len() >= 1,
        strict_starts(rs),
        forall|i: int, j: int|
            0 <= i < rs.len() && 0 <= j < rs.len() ==> 0 <= rs[i].1 < syms.len() && syms[rs[i].1
                as int].id == syms[rs[j].1 as int].id,
        entries.len() == gap_fill(range_triples(rs), sym_ids(syms)).len(),
        forall|k: int|
            0 <= k < entries.len() ==> gf_entry_ok(
                gap_fill(range_triples(rs), sym_ids(syms))[k],
                syms,
                entries[k],
            ),
    ensures
        entries.len() == 1,
        entries[0].0 == rs[0].0.0,
        entries[0].1.len == rs.last().0.0 - rs[0].0.0 + rs.last().0.1,
        entries[0].1.id == syms[rs[0].1 as int].id,
{
    let ts = range_triples(rs);
    let ids = sym_ids(syms);
    assert(forall|i: int, j: int| 0 <= i < j < ts.len() ==> ts[i].0 <= ts[j].0);
    assert(forall|i: int| 0 <= i < ts.len() ==> ids[ts[i].2] == syms[rs[i].1 as int].id);
    assert(forall|i: int, j: int| 0 <= i < j < ts.len() ==> ids[ts[i].2] == ids[ts[j].2]);
    lemma_gap_fill_single_identity(ts, ids);
    assert(ts.last() == (rs.last().0.0 as int, rs.last().0.1 as int, rs.last().1 as int));
}

/// One table entry descends from one of the finalized symbols: its identity
/// and provenance flags come from that symbol.
pub open spec fn entry_from_symbol(e: (u32, PDBSymbol), syms: Seq<PDBSymbol>) -> bool {
    exists|p: int|
        #![trigger syms[p]]
        0 <= p < syms.len() && e.1.id == syms[p].id && e.1.is_public == syms[p].is_public
            && e.1.is_multiple == syms[p].is_multiple
}

/// Every entry descends from one of the finalized symbols.
pub open spec fn entries_from_symbols(
    entries: Seq<(u32, PDBSymbol)>,
    syms: Seq<PDBSymbol>,
) -> bool {
    forall|k: int|
        0 <= k < entries.len() ==> #[trigger] entry_from_symbol(entries[k], syms)
}

/// One table entry descends from one of the candidates: its identity and
/// provenance flags come from that candidate.
pub open spec fn entry_from_candidate(
    e: (u32, PDBSymbol),
    map: Seq<(u32, SelectedSymbol)>,
) -> bool {
    exists|j: int|
        #![trigger map[j]]
        0 <= j < map.len() && e.1.id == map[j].1.id && e.1.is_public == map[j].1.is_public
            && e.1.is_multiple == map[j].1.is_multiple
}

/// Every entry descends from one of the candidates.
pub open spec fn entries_from_candidates(
    entries: Seq<(u32, PDBSymbol)>,
    map: Seq<(u32, SelectedSymbol)>,
) -> bool {
    forall|k: int|
        0 <= k < entries.len() ==> #[trigger] entry_from_candidate(entries[k], map)
}

proof fn lemma_entries_from_candidates(
    entries: Seq<(u32, PDBSymbol)>,
    syms: Seq<PDBSymbol>,
    map: Seq<(u32, SelectedSymbol)>,
)
    requires
        entries_from_symbols(entries, syms),
        syms.len() == map.len(),
        forall|k: int|
            0 <= k < syms.len() ==> syms[k].id == map[k].1.id && syms[k].is_public
                == map[k].1.is_public && syms[k].is_multiple == map[k].1.is_multiple,
    ensures
        entries_from_candidates(entries, map),
{
    assert forall|k: int|
        0 <= k < entries.len() implies #[trigger] entry_from_candidate(entries[k], map) by {
        assert(entry_from_symbol(entries[k], syms));
        let p = choose|p: int|
            #![trigger syms[p]]
            0 <= p < syms.len() && entries[k].1.id == syms[p].id && entries[k].1.is_public
                == syms[p].is_public && entries[k].1.is_multiple == syms[p].is_multiple;
        assert(0 <= p < map.len() && entries[k].1.id == map[p].1.id && entries[k].1.is_public
            == map[p].1.is_public && entries[k].1.is_multiple == map[p].1.is_multiple);
    }
}

/// How a canonical-table entry realizes one gap-filled `(start, length,
/// position)` triple: the symbol at that position, re-emitted over the widened
/// range with its line table narrowed on demand.
pub open spec fn gf_entry_ok(
    t: (int, int, int),
    syms: Seq<PDBSymbol>,
    e: (u32, PDBSymbol),
) -> bool {
    &&& e.0 == t.0
    &&& e.1.rva == t.0
    &&& e.1.len == t.1
    &&& 0 <= t.2 < syms.len()
    &&& e.1.name@ == syms[t.2].name@
    &&& e.1.is_public == syms[t.2].is_public
    &&& e.1.is_multiple == syms[t.2].is_multiple
    &&& e.1.parameter_size == syms[t.2].parameter_size
    &&& e.1.id == syms[t.2].id
    &&& e.1.source.lines@ == crate::lines::retain_model(
        syms[t.2].source.lines@,
        t.0 as u32,
        t.1 as u32,
    )
}

/// Walks the ordered range associations and coalesces consecutive ranges owned
/// by one symbol identity into a single widened range, closing the holes
/// between them; a change of identity commits the accumulated range.
pub fn fill_the_gaps(all_syms: &Vec<PDBSymbol>, ranges: &RangeTable) -> (r: PDBSymbols)
    requires
        ranges.wf(),
        ranges.entries@.len() > 0,
        forall|i: int| 0 <= i < ranges.entries@.len() ==> ranges.entries@[i].1 < all_syms@.len(),
        forall|i: int|
            0 <= i < ranges.entries@.len() ==> ranges.entries@[i].0.0 + ranges.entries@[i].0.1
                <= u32::MAX,
    ensures
        r.wf(),
        r.entries@.len() > 0,
        entries_from_symbols(r.entries@, all_syms@),
        strict_starts(ranges.entries@) ==> ({
            let gf = gap_fill(range_triples(ranges.entries@), sym_ids(all_syms@));
            &&& r.entries@.len() == gf.len()
            &&& (forall|k: int| 0 <= k < gf.len() ==> gf_entry_ok(gf[k], all_syms@, r.entries@[k]))
        }),
        (strict_starts(ranges.entries@) && ranges_disjoint(ranges.entries@)) ==> (forall|
            i: int,
            j: int,
        |
            0 <= i < j < r.entries@.len() ==> r.entries@[i].0 + r.entries@[i].1.len
                <= r.entries@[j].0),
{
    let n = ranges.entries.len();
    let (first_key, first_pos) = ranges.entries[0];
    let mut last_rva = first_key.0;
    let mut last_len = first_key.1;
    let mut last_pos = first_pos;
    let mut syms = PDBSymbols::new();
    let ghost whole = range_triples(ranges.entries@);
    let ghost idsq = sym_ids(all_syms@);
    let ghost strict = strict_starts(ranges.entries@);
    proof {
        assert(seq![(last_rva as int, last_len as int, last_pos as int)] + whole.skip(1)
            =~= whole);
        assert(gap_fill(whole, idsq).skip(0) =~= gap_fill(whole, idsq));
    }
    let mut i: usize = 1;
    while i < n
        invariant
            1 <= i <= n,
            n == ranges.entries@.len(),
            ranges.wf(),
            whole == range_triples(ranges.entries@),
            idsq == sym_ids(all_syms@),
            strict == strict_starts(ranges.entries@),
            forall|t: int| 0 <= t < n ==> ranges.entries@[t].1 < all_syms@.len(),
            forall|t: int|
                0 <= t < n ==> ranges.entries@[t].0.0 + ranges.entries@[t].0.1 <= u32::MAX,
            last_pos < all_syms@.len(),
            exists|a: int|
                0 <= a < i && last_rva == ranges.entries@[a].0.0 && last_rva as int + last_len
                    as int <= ranges.entries@[a].0.0 + u32::MAX,
            last_rva as int + last_len as int <= u32::MAX + ranges.entries@[0].0.0,
            syms.wf(),
            entries_from_symbols(syms.entries@, all_syms@),
            strict ==> ({
                let cur = (last_rva as int, last_len as int, last_pos as int);
                let gf = gap_fill(whole, idsq);
                let rem = gap_fill(seq![cur] + whole.skip(i as int), idsq);
                &&& gf.len() == syms.entries@.len() + rem.len()
                &&& gf.skip(syms.entries@.len() as int) == rem
                &&& (forall|k: int|
                    0 <= k < syms.entries@.len() ==> gf_entry_ok(gf[k], all_syms@,
                    syms.entries@[k]))
                &&& (syms.entries@.len() == 0 || syms.entries@.last().0 < last_rva)
                &&& last_rva as int + last_len as int <= u32::MAX
            }),
        decreases n - i,
    {
        let (key_i, pos_i) = ranges.entries[i];
        let rva_i = key_i.0;
        let len_i = key_i.1;
        let ghost cur = (last_rva as int, last_len as int, last_pos as int);
        let ghost pending = seq![cur] + whole.skip(i as int);
        proof {
            assert(whole.skip(i as int)[0] == whole[i as int]);
            assert(pending[1] == whole[i as int]);
            assert(whole[i as int] == (rva_i as int, len_i as int, pos_i as int));
            let a = choose|a: int| 0 <= a < i && last_rva == ranges.entries@[a].0.0;
            assert(ranges.entries@[a].0.0 <= rva_i || ranges.entries@[a].0.0 == rva_i);
            assert(last_rva <= rva_i);
        }
        if all_syms[last_pos].id == all_syms[pos_i].id {
            proof {
                assert(idsq[cur.2] == idsq[pending[1].2]);
            }
            last_len = rva_i - last_rva + len_i;
            proof {
                if strict {
                    let merged = (cur.0, pending[1].0 - cur.0 + pending[1].1, cur.2);
                    assert(merged == (last_rva as int, last_len as int, last_pos as int));
                    assert(gap_fill(pending, idsq) == gap_fill(
                        seq![merged] + pending.skip(2),
                        idsq,
                    ));
                    assert(seq![merged] + pending.skip(2) =~= seq![merged] + whole.skip(
                        i as int + 1,
                    ));
                }
            }
        } else {
            proof {
                assert(idsq[cur.2] != idsq[pending[1].2]);
            }
            let entry = all_syms[last_pos].get_from(last_rva, last_len);
            let ghost committed = syms.entries@;
            syms.insert(last_rva, entry);
            proof {
                assert forall|q: int|
                    0 <= q < syms.entries@.len() implies #[trigger] entry_from_symbol(
                    syms.entries@[q],
                    all_syms@,
                ) by {
                    if syms.entries@[q] != (last_rva, entry) {
                        let x = choose|x: int|
                            0 <= x < committed.len() && syms.entries@[q] == committed[x];
                        assert(entry_from_symbol(committed[x], all_syms@));
                    } else {
                        assert(syms.entries@[q].1.id == all_syms@[last_pos as int].id);
                        assert(0 <= last_pos < all_syms@.len());
                    }
                }
                if strict {
                    let gf = gap_fill(whole, idsq);
                    assert(gap_fill(pending, idsq) == seq![cur] + gap_fill(
                        pending.skip(1),
                        idsq,
                    ));
                    assert(pending.skip(1) =~= whole.skip(i as int));
                    assert(gf.skip(committed.len() as int)[0] == cur);
                    assert(gf[committed.len() as int] == cur);
                    assert(syms.entries@ == committed.push((last_rva, entry)));
                    assert(gf_entry_ok(cur, all_syms@, (last_rva, entry)));
                    assert(gf.skip(committed.len() as int).skip(1) =~= gf.skip(
                        committed.len() as int + 1,
                    ));
                    assert(gap_fill(seq![whole[i as int]] + whole.skip(i as int + 1), idsq)
                        == gap_fill(whole.skip(i as int), idsq)) by {
                        assert(seq![whole[i as int]] + whole.skip(i as int + 1) =~= whole.skip(
                            i as int,
                        ));
                    }
                }
            }
            last_rva = rva_i;
            last_len = len_i;
            last_pos = pos_i;
        }
        i += 1;
    }
    let entry = all_syms[last_pos].get_from(last_rva, last_len);
    let ghost committed = syms.entries@;
    let ghost cur = (last_rva as int, last_len as int, last_pos as int);
    proof {
        assert(whole.skip(n as int) =~= Seq::<(int, int, int)>::empty());
        assert(seq![cur] + whole.skip(n as int) =~= seq![cur]);
    }
    syms.insert(last_rva, entry);
    proof {
        assert forall|q: int|
            0 <= q < syms.entries@.len() implies #[trigger] entry_from_symbol(
            syms.entries@[q],
            all_syms@,
        ) by {
            if syms.entries@[q] != (last_rva, entry) {
                let x = choose|x: int| 0 <= x < committed.len() && syms.entries@[q] == committed[x];
                assert(entry_from_symbol(committed[x], all_syms@));
            } else {
                assert(syms.entries@[q].1.id == all_syms@[last_pos as int].id);
                assert(0 <= last_pos < all_syms@.len());
            }
        }
        if strict {
            let gf = gap_fill(whole, idsq);
            assert(gap_fill(seq![cur], idsq) == seq![cur]);
            assert(gf.skip(committed.len() as int) == seq![cur]);
            assert(gf.len() == committed.len() + 1);
            assert(gf.skip(committed.len() as int)[0] == cur);
            assert(gf[committed.len() as int] == cur);
            assert(syms.entries@ == committed.push((last_rva, entry)));
            assert(gf_entry_ok(cur, all_syms@, (last_rva, entry)));
        }
        if strict && ranges_disjoint(ranges.entries@) {
            lemma_canonical_table_disjoint(syms.entries@, ranges.entries@, all_syms@);
        }
    }
    syms
}

} // verus!
