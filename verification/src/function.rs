use vstd::prelude::*;
use crate::byteutil::{twos_complement, ByteView, Endian};
use crate::command::chars_of;
use crate::pg::{
    format_item_ids, format_va_extinfo, format_varatt_external, heap_tuple_of, heap_tuple_text,
    item_ids_text, le_at, page_header_of, page_header_text, parse_heap_tuple_header,
    parse_pg_page_header, va_extinfo_text, varatt_external_text,
};
use crate::text_util::{push_char, push_str};
use crate::util::bytes_to_vec;

verus! {

/// The functions that can be registered: each turns a byte buffer into a report.
#[derive(Debug, Clone, Copy, PartialEq, Eq, Structural)]
pub enum FunctionFn {
    Hello,
    PgPageHeader,
    ItemData,
    PgHeapTuple,
    FormatVaExtinfo,
    FormatVarattExternal,
}

/// The report of function `f` on the bytes `b` (read little-endian).
pub open spec fn function_output(f: FunctionFn, b: Seq<u8>) -> Seq<char> {
    match f {
        FunctionFn::Hello => "hello"@,
        FunctionFn::PgPageHeader => if b.len() < 24 {
            "pg_page_header < 24"@
        } else {
            page_header_text(page_header_of(b))
        },
        FunctionFn::ItemData => if b.len() < 4 {
            "item_ids < 4"@
        } else {
            item_ids_text(b, b.len() / 4)
        },
        FunctionFn::PgHeapTuple => if b.len() < 23 {
            "heap_tuple_header < 23"@
        } else {
            heap_tuple_text(heap_tuple_of(b))
        },
        FunctionFn::FormatVaExtinfo => if b.len() < 4 {
            "buf < 4"@
        } else {
            va_extinfo_text(le_at(b, 0, 4))
        },
        FunctionFn::FormatVarattExternal => if b.len() < 18 {
            "buf < 18"@
        } else if b[0] != 1 || b[1] != 18 {
            "is varattrib_1b_e"@
        } else {
            varatt_external_text(
                twos_complement(le_at(b, 2, 4) as int, 0x8000_0000),
                le_at(b, 6, 4),
                le_at(b, 10, 4),
                le_at(b, 14, 4),
            )
        },
    }
}

/// The greeting function.
pub fn hello(buf: &[u8]) -> (r: String)
    ensures
        r@ == "hello"@,
{
    String::from_str("hello")
}

impl FunctionFn {
    /// Runs the function on `buf`.
    pub fn call(self, buf: &[u8]) -> (r: String)
        ensures
            r@ == function_output(self, buf@),
    {
        match self {
            FunctionFn::Hello => hello(buf),
            FunctionFn::PgPageHeader => parse_pg_page_header(&ByteView::new(bytes_to_vec(buf), Endian::Little)),
            FunctionFn::ItemData => format_item_ids(&ByteView::new(bytes_to_vec(buf), Endian::Little)),
            FunctionFn::PgHeapTuple => parse_heap_tuple_header(&ByteView::new(bytes_to_vec(buf), Endian::Little)),
            FunctionFn::FormatVaExtinfo => format_va_extinfo(&ByteView::new(bytes_to_vec(buf), Endian::Little)),
            FunctionFn::FormatVarattExternal => format_varatt_external(
                &ByteView::new(bytes_to_vec(buf), Endian::Little),
            ),
        }
    }
}

/// Names with distinct keys.
pub open spec fn distinct_names(s: Seq<(Vec<char>, FunctionFn)>) -> bool {
    forall|i: int, j: int| 0 <= i < j < s.len() ==> (#[trigger] s[i]).0@ != (#[trigger] s[j]).0@
}

/// A table from function names to functions.
pub struct FunctionRegistry {
    entries: Vec<(Vec<char>, FunctionFn)>,
}

impl FunctionRegistry {
    /// The index of the entry named `k`.
    pub closed spec fn slot(&self, k: Seq<char>) -> int {
        choose|i: int| 0 <= i < self.entries@.len() && (#[trigger] self.entries@[i]).0@ == k
    }

    pub closed spec fn has(&self, k: Seq<char>) -> bool {
        exists|i: int| 0 <= i < self.entries@.len() && (#[trigger] self.entries@[i]).0@ == k
    }

    /// The table as a map from names to functions.
    pub closed spec fn view(&self) -> Map<Seq<char>, FunctionFn> {
        Map::new(|k: Seq<char>| self.has(k), |k: Seq<char>| self.entries@[self.slot(k)].1)
    }

    /// No name occurs twice.
    pub closed spec fn wf(&self) -> bool {
        distinct_names(self.entries@)
    }

    /// The number of entries.
    pub closed spec fn count(&self) -> nat {
        self.entries@.len()
    }

    proof fn lemma_count(&self)
        requires
            self.wf(),
        ensures
            self.view().dom().finite(),
            self.view().dom().len() == self.count(),
        decreases self.entries@.len(),
    {
        let keys = Set::new(|k: Seq<char>| self.has(k));
        let s = self.entries@.map_values(|e: (Vec<char>, FunctionFn)| e.0@);
        assert(keys =~= s.to_set()) by {
            assert forall|k: Seq<char>| keys.contains(k) implies s.to_set().contains(k) by {
                let i = choose|i: int| 0 <= i < self.entries@.len() && (#[trigger] self.entries@[i]).0@ == k;
                assert(s[i] == k);
            }
            assert forall|k: Seq<char>| s.to_set().contains(k) implies keys.contains(k) by {
                let i = choose|i: int| 0 <= i < s.len() && s[i] == k;
                assert(self.entries@[i].0@ == k);
            }
        }
        assert(s.no_duplicates()) by {
            assert forall|i: int, j: int| 0 <= i < s.len() && 0 <= j < s.len() && i != j implies s[i] != s[j] by {
                if i < j {
                    assert(self.entries@[i].0@ != self.entries@[j].0@);
                } else {
                    assert(self.entries@[j].0@ != self.entries@[i].0@);
                }
            }
        }
        s.unique_seq_to_set();
        assert(self.view().dom() =~= keys);
    }

    /// An empty table.
    pub fn new() -> (r: FunctionRegistry)
        ensures
            r.wf(),
            r.view() == Map::<Seq<char>, FunctionFn>::empty(),
    {
        let r = FunctionRegistry { entries: Vec::new() };
        assert(r.view() =~= Map::<Seq<char>, FunctionFn>::empty());
        r
    }

    /// The index of the entry named `name`, if any.
    fn find(&self, name: &Vec<char>) -> (r: Option<usize>)
        requires
            self.wf(),
        ensures
            match r {
                Some(i) => i < self.entries@.len() && self.entries@[i as int].0@ == name@,
                None => !self.has(name@),
            },
    {
        let mut i: usize = 0;
        while i < self.entries.len()
            invariant
                i <= self.entries@.len(),
                forall|k: int| 0 <= k < i ==> (#[trigger] self.entries@[k]).0@ != name@,
            decreases self.entries@.len() - i,
        {
            let key = &self.entries[i].0;
            if same_chars(key, name) {
                return Some(i);
            }
            i = i + 1;
        }
        None
    }

    /// Adds `f` under `name`, replacing any function already there.
    pub fn insert(&mut self, name: &str, f: FunctionFn)
        requires
            old(self).wf(),
        ensures
            final(self).wf(),
            final(self).view() == old(self).view().insert(name@, f),
    {
        let key = chars_of(name);
        let ghost before = *self;
        match self.find(&key) {
            Some(i) => {
                self.entries.set(i, (key, f));
                proof {
                    assert forall|a: int, b: int| 0 <= a < b < self.entries@.len() implies (#[trigger] self.entries@[a]).0@
                        != (#[trigger] self.entries@[b]).0@ by {
                        assert(before.entries@[a].0@ != before.entries@[b].0@);
                    }
                    assert forall|k: Seq<char>| #![auto] self.view().dom().contains(k) == before.view().insert(name@, f).dom().contains(k) by {
                        if self.has(k) {
                            let j = choose|j: int| 0 <= j < self.entries@.len() && (#[trigger] self.entries@[j]).0@ == k;
                            if j != i {
                                assert(before.entries@[j].0@ == k);
                            }
                        }
                        if before.has(k) {
                            let j = choose|j: int| 0 <= j < before.entries@.len() && (#[trigger] before.entries@[j]).0@ == k;
                            if j != i {
                                assert(self.entries@[j].0@ == k);
                            } else {
                                assert(self.entries@[i as int].0@ == k);
                            }
                        }
                        if k == name@ {
                            assert(self.entries@[i as int].0@ == k);
                        }
                    }
                    assert forall|k: Seq<char>| #![auto] self.view().dom().contains(k) implies self.view()[k]
                        == before.view().insert(name@, f)[k] by {
                        let j = self.slot(k);
                        if k == name@ {
                            assert(self.entries@[i as int].0@ == k);
                            assert(j == i);
                        } else {
                            assert(before.entries@[j].0@ == k);
                            let jb = before.slot(k);
                            assert(before.entries@[jb].0@ == k);
                            assert(jb == j);
                        }
                    }
                    assert(self.view() =~= before.view().insert(name@, f));
                }
            },
            None => {
                self.entries.push((key, f));
                proof {
                    let n = before.entries@.len() as int;
                    assert forall|a: int, b: int| 0 <= a < b < self.entries@.len() implies (#[trigger] self.entries@[a]).0@
                        != (#[trigger] self.entries@[b]).0@ by {
                        if b < n {
                            assert(before.entries@[a].0@ != before.entries@[b].0@);
                        } else {
                            assert(before.entries@[a].0@ != name@);
                        }
                    }
                    assert forall|k: Seq<char>| #![auto] self.view().dom().contains(k) == before.view().insert(name@, f).dom().contains(k) by {
                        if self.has(k) {
                            let j = choose|j: int| 0 <= j < self.entries@.len() && (#[trigger] self.entries@[j]).0@ == k;
                            if j < n {
                                assert(before.entries@[j].0@ == k);
                            }
                        }
                        if before.has(k) {
                            let j = choose|j: int| 0 <= j < before.entries@.len() && (#[trigger] before.entries@[j]).0@ == k;
                            assert(self.entries@[j].0@ == k);
                        }
                        if k == name@ {
                            assert(self.entries@[n].0@ == k);
                        }
                    }
                    assert forall|k: Seq<char>| #![auto] self.view().dom().contains(k) implies self.view()[k]
                        == before.view().insert(name@, f)[k] by {
                        let j = self.slot(k);
                        if k == name@ {
                            assert(self.entries@[n].0@ == k);
                            assert(j == n);
                        } else {
                            assert(j < n);
                            assert(before.entries@[j].0@ == k);
                            let jb = before.slot(k);
                            assert(before.entries@[jb].0@ == k);
                            assert(jb == j);
                        }
                    }
                    assert(self.view() =~= before.view().insert(name@, f));
                }
            },
        }
    }

    /// The function registered under `name`.
    pub fn get(&self, name: &str) -> (r: Option<FunctionFn>)
        requires
            self.wf(),
        ensures
            r == (if self.view().contains_key(name@) { Some(self.view()[name@]) } else { None }),
    {
        let key = chars_of(name);
        match self.find(&key) {
            Some(i) => {
                proof {
                    let j = self.slot(name@);
                    assert(self.entries@[j].0@ == name@);
                    assert(j == i);
                }
                Some(self.entries[i].1)
            },
            None => None,
        }
    }

    /// The registered names, in table order.
    pub fn names(&self) -> (r: Vec<Vec<char>>)
        requires
            self.wf(),
        ensures
            r@.len() == self.count(),
            forall|k: Seq<char>| self.view().contains_key(k) <==> exists|i: int| 0 <= i < r@.len() && (#[trigger] r@[i])@ == k,
            forall|i: int, j: int| 0 <= i < j < r@.len() ==> (#[trigger] r@[i])@ != (#[trigger] r@[j])@,
    {
        let mut out: Vec<Vec<char>> = Vec::new();
        let mut i: usize = 0;
        while i < self.entries.len()
            invariant
                self.wf(),
                i <= self.entries@.len(),
                out@.len() == i,
                forall|k: int| 0 <= k < i ==> (#[trigger] out@[k])@ == self.entries@[k].0@,
            decreases self.entries@.len() - i,
        {
            out.push(self.entries[i].0.clone());
            i = i + 1;
        }
        proof {
            assert forall|k: Seq<char>| self.view().contains_key(k) implies exists|i: int| 0 <= i < out@.len() && (#[trigger] out@[i])@ == k by {
                let j = choose|j: int| 0 <= j < self.entries@.len() && (#[trigger] self.entries@[j]).0@ == k;
                assert(out@[j]@ == k);
            }
            assert forall|k: Seq<char>| (exists|i: int| 0 <= i < out@.len() && (#[trigger] out@[i])@ == k) implies self.view().contains_key(k) by {
                let j = choose|j: int| 0 <= j < out@.len() && (#[trigger] out@[j])@ == k;
                assert(self.entries@[j].0@ == k);
            }
            assert forall|a: int, b: int| 0 <= a < b < out@.len() implies (#[trigger] out@[a])@ != (#[trigger] out@[b])@ by {
                assert(self.entries@[a].0@ != self.entries@[b].0@);
            }
        }
        out
    }
}

/// Whether `a` and `b` hold the same characters.
fn same_chars(a: &Vec<char>, b: &Vec<char>) -> (r: bool)
    ensures
        r == (a@ == b@),
{
    if a.len() != b.len() {
        return false;
    }
    let mut i: usize = 0;
    while i < a.len()
        invariant
            a@.len() == b@.len(),
            i <= a@.len(),
            forall|k: int| 0 <= k < i ==> a@[k] == b@[k],
        decreases a@.len() - i,
    {
        if a[i] != b[i] {
            return false;
        }
        i = i + 1;
    }
    assert(a@ =~= b@);
    true
}

/// Registers `f` under `name` in `registry`.
pub fn register(registry: &mut FunctionRegistry, name: &str, f: FunctionFn)
    requires
        old(registry).wf(),
    ensures
        final(registry).wf(),
        final(registry).view() == old(registry).view().insert(name@, f),
{
    registry.insert(name, f);
}

/// What looking up `k` in the table `m` gives.
pub open spec fn lookup_result(m: Map<Seq<char>, FunctionFn>, k: Seq<char>) -> Option<FunctionFn> {
    if m.contains_key(k) {
        Some(m[k])
    } else {
        None
    }
}

/// The function registered under `name` in `registry`.
pub fn lookup(registry: &FunctionRegistry, name: &str) -> (r: Option<FunctionFn>)
    requires
        registry.wf(),
    ensures
        r == lookup_result(registry.view(), name@),
{
    registry.get(name)
}

/// A lookup after registering a name finds what was registered under it, and every other
/// name finds what it found before.
pub proof fn lemma_lookup_after_register(before: Map<Seq<char>, FunctionFn>, name: Seq<char>, f: FunctionFn, other: Seq<char>)
    ensures
        lookup_result(before.insert(name, f), name) == Some(f),
        other != name ==> lookup_result(before.insert(name, f), other) == lookup_result(before, other),
{
}


/// `a` sorts before `b` as strings do: at the first difference `a` has the smaller
/// character, or `a` is a proper prefix of `b`.
pub open spec fn name_lt(a: Seq<char>, b: Seq<char>) -> bool
    decreases a.len(),
{
    if a.len() == 0 {
        b.len() > 0
    } else if b.len() == 0 {
        false
    } else if a[0] != b[0] {
        (a[0] as u32) < (b[0] as u32)
    } else {
        name_lt(a.drop_first(), b.drop_first())
    }
}

proof fn lemma_name_lt_irreflexive(a: Seq<char>)
    ensures
        !name_lt(a, a),
    decreases a.len(),
{
    if a.len() > 0 {
        lemma_name_lt_irreflexive(a.drop_first());
    }
}

proof fn lemma_name_lt_transitive(a: Seq<char>, b: Seq<char>, c: Seq<char>)
    requires
        name_lt(a, b),
        name_lt(b, c),
    ensures
        name_lt(a, c),
    decreases a.len(),
{
    if a.len() > 0 && b.len() > 0 && c.len() > 0 && a[0] == b[0] && b[0] == c[0] {
        lemma_name_lt_transitive(a.drop_first(), b.drop_first(), c.drop_first());
    }
}

proof fn lemma_name_lt_total(a: Seq<char>, b: Seq<char>)
    requires
        a != b,
    ensures
        name_lt(a, b) || name_lt(b, a),
    decreases a.len(),
{
    if a.len() > 0 && b.len() > 0 {
        if a[0] == b[0] {
            if a.drop_first() == b.drop_first() {
                assert(a =~= seq![a[0]] + a.drop_first());
                assert(b =~= seq![b[0]] + b.drop_first());
            }
            lemma_name_lt_total(a.drop_first(), b.drop_first());
        } else {
            vstd::utf8::char_u32_cast(a[0], a[0] as u32);
            vstd::utf8::char_u32_cast(b[0], b[0] as u32);
        }
    } else if a.len() == 0 && b.len() == 0 {
        assert(a =~= b);
    }
}

/// Whether `a` sorts before `b`.
fn names_lt(a: &Vec<char>, b: &Vec<char>) -> (r: bool)
    ensures
        r == name_lt(a@, b@),
{
    let mut i: usize = 0;
    proof {
        assert(a@.skip(0) =~= a@);
        assert(b@.skip(0) =~= b@);
    }
    while i < a.len() && i < b.len() && a[i] == b[i]
        invariant
            i <= a@.len(),
            i <= b@.len(),
            name_lt(a@, b@) == name_lt(a@.skip(i as int), b@.skip(i as int)),
        decreases a@.len() - i,
    {
        proof {
            assert(a@.skip(i as int).drop_first() =~= a@.skip(i + 1));
            assert(b@.skip(i as int).drop_first() =~= b@.skip(i + 1));
        }
        i = i + 1;
    }
    if i == a.len() {
        i < b.len()
    } else if i == b.len() {
        false
    } else {
        (a[i] as u32) < (b[i] as u32)
    }
}

/// Names in strictly increasing order.
pub open spec fn strictly_sorted(s: Seq<Seq<char>>) -> bool {
    forall|i: int, j: int| 0 <= i < j < s.len() ==> name_lt(#[trigger] s[i], #[trigger] s[j])
}

/// The names of a list of name vectors.
pub open spec fn name_views(s: Seq<Vec<char>>) -> Seq<Seq<char>> {
    s.map_values(|v: Vec<char>| v@)
}

/// `names` in increasing order (the names are distinct).
fn sorted_names(names: &Vec<Vec<char>>) -> (r: Vec<Vec<char>>)
    requires
        forall|i: int, j: int| 0 <= i < j < names@.len() ==> (#[trigger] names@[i])@ != (#[trigger] names@[j])@,
    ensures
        strictly_sorted(name_views(r@)),
        r@.len() == names@.len(),
        forall|k: Seq<char>| name_views(r@).contains(k) <==> name_views(names@).contains(k),
{
    let mut out: Vec<Vec<char>> = Vec::new();
    let mut i: usize = 0;
    while i < names.len()
        invariant
            i <= names@.len(),
            forall|a: int, b: int| 0 <= a < b < names@.len() ==> (#[trigger] names@[a])@ != (#[trigger] names@[b])@,
            strictly_sorted(name_views(out@)),
            out@.len() == i,
            forall|k: Seq<char>| name_views(out@).contains(k) <==> name_views(names@.take(i as int)).contains(k),
        decreases names@.len() - i,
    {
        let x = names[i].clone();
        let ghost xs = x@;
        proof {
            assert(xs == names@[i as int]@);
            assert forall|q: int| 0 <= q < out@.len() implies (#[trigger] out@[q])@ != xs by {
                if out@[q]@ == xs {
                    assert(name_views(out@)[q] == xs);
                    assert(name_views(out@).contains(xs));
                    let w = choose|w: int| 0 <= w < name_views(names@.take(i as int)).len() && name_views(names@.take(i as int))[w] == xs;
                    assert(names@[w]@ == xs);
                }
            }
        }
        let mut p: usize = 0;
        while p < out.len() && !names_lt(&x, &out[p])
            invariant
                p <= out@.len(),
                xs == x@,
                forall|q: int| 0 <= q < p ==> name_lt(#[trigger] out@[q]@, xs),
                forall|q: int| 0 <= q < out@.len() ==> (#[trigger] out@[q])@ != xs,
            decreases out@.len() - p,
        {
            proof {
                lemma_name_lt_total(xs, out@[p as int]@);
            }
            p = p + 1;
        }
        let ghost before = out@;
        proof {
            assert(forall|k: Seq<char>|
                #![trigger name_views(before).contains(k)]
                #![trigger name_views(names@.take(i as int)).contains(k)]
                name_views(before).contains(k) <==> name_views(names@.take(i as int)).contains(k));
            assert(strictly_sorted(name_views(before)));
            assert forall|q: int| p <= q < before.len() implies name_lt(xs, #[trigger] before[q]@) by {
                if q > p {
                    assert(name_lt(name_views(before)[p as int], name_views(before)[q]));
                    lemma_name_lt_transitive(xs, before[p as int]@, before[q]@);
                }
            }
        }
        out.insert(p, x);
        proof {
            let nv = name_views(out@);
            assert forall|a: int, b: int| 0 <= a < b < nv.len() implies name_lt(#[trigger] nv[a], #[trigger] nv[b]) by {
                if a < p && b < p {
                    assert(name_lt(name_views(before)[a], name_views(before)[b]));
                } else if a < p && b == p {
                } else if a < p {
                    assert(name_lt(name_views(before)[a], name_views(before)[b - 1]));
                } else if a == p {
                } else {
                    assert(name_lt(name_views(before)[a - 1], name_views(before)[b - 1]));
                }
            }
            assert(names@.take(i + 1) =~= names@.take(i as int).push(names@[i as int]));
            assert forall|k: Seq<char>| nv.contains(k) <==> name_views(names@.take(i + 1)).contains(k) by {
                if nv.contains(k) {
                    let w = choose|w: int| 0 <= w < nv.len() && nv[w] == k;
                    if w == p {
                        assert(name_views(names@.take(i + 1))[i as int] == k);
                    } else if w < p {
                        assert(name_views(before)[w] == k);
                        assert(name_views(before).contains(k));
                        let u = choose|u: int| 0 <= u < name_views(names@.take(i as int)).len() && #[trigger] name_views(names@.take(i as int))[u] == k;
                        assert(name_views(names@.take(i + 1))[u] == k);
                    } else {
                        assert(name_views(before)[w - 1] == k);
                        assert(name_views(before).contains(k));
                        let u = choose|u: int| 0 <= u < name_views(names@.take(i as int)).len() && #[trigger] name_views(names@.take(i as int))[u] == k;
                        assert(name_views(names@.take(i + 1))[u] == k);
                    }
                }
                if name_views(names@.take(i + 1)).contains(k) {
                    let w = choose|w: int| 0 <= w < name_views(names@.take(i + 1)).len() && #[trigger] name_views(names@.take(i + 1))[w] == k;
                    if w == i {
                        assert(nv[p as int] == k);
                    } else {
                        assert(name_views(names@.take(i as int))[w] == k);
                        assert(name_views(names@.take(i as int)).contains(k));
                        assert(name_views(before).contains(k));
                        let u = choose|u: int| 0 <= u < name_views(before).len() && #[trigger] name_views(before)[u] == k;
                        if u < p {
                            assert(nv[u] == k);
                        } else {
                            assert(nv[u + 1] == k);
                        }
                    }
                }
            }
        }
        i = i + 1;
    }
    proof {
        assert(names@.take(names@.len() as int) =~= names@);
    }
    out
}

/// The listing of sorted names: one `* name` line each.
pub open spec fn listing(s: Seq<Seq<char>>) -> Seq<char>
    decreases s.len(),
{
    if s.len() == 0 {
        Seq::empty()
    } else if s.len() == 1 {
        seq!['*', ' '] + s[0]
    } else {
        listing(s.drop_last()) + seq!['\n', '*', ' '] + s.last()
    }
}

/// The plugin that runs registered functions on a buffer.
pub struct FunctionPlugin {
    function_registry: FunctionRegistry,
}

/// A source of named functions over buffers.
pub trait Plugin {
    /// The result of the function `name` on `buf`.
    fn eval(&self, name: &str, buf: &[u8]) -> String;

    /// A listing of the available functions.
    fn list(&self) -> String;
}

impl FunctionPlugin {
    pub closed spec fn view(&self) -> Map<Seq<char>, FunctionFn> {
        self.function_registry.view()
    }

    /// The table never names a function twice.
    #[verifier::type_invariant]
    spec fn wf(&self) -> bool {
        self.function_registry.wf()
    }

    /// The plugin with the built-in functions.
    pub fn new() -> (r: FunctionPlugin)
        ensures
            r.view() == Map::<Seq<char>, FunctionFn>::empty().insert("hello"@, FunctionFn::Hello).insert(
                "pg_page_header"@,
                FunctionFn::PgPageHeader,
            ).insert("item_data"@, FunctionFn::ItemData).insert("pg_heap_tuple"@, FunctionFn::PgHeapTuple).insert(
                "format_va_extinfo"@,
                FunctionFn::FormatVaExtinfo,
            ).insert("format_varatt_external"@, FunctionFn::FormatVarattExternal),
    {
        let mut function_registry = FunctionRegistry::new();
        function_registry.insert("hello", FunctionFn::Hello);
        function_registry.insert("pg_page_header", FunctionFn::PgPageHeader);
        function_registry.insert("item_data", FunctionFn::ItemData);
        function_registry.insert("pg_heap_tuple", FunctionFn::PgHeapTuple);
        function_registry.insert("format_va_extinfo", FunctionFn::FormatVaExtinfo);
        function_registry.insert("format_varatt_external", FunctionFn::FormatVarattExternal);
        FunctionPlugin { function_registry }
    }

    /// The registered names (in no particular order).
    pub fn list_registered_functions(&self) -> (r: Vec<String>)
        ensures
            r@.len() == self.view().dom().len(),
            forall|k: Seq<char>| self.view().contains_key(k) <==> exists|i: int| 0 <= i < r@.len() && (#[trigger] r@[i])@ == k,
    {
        proof {
            use_type_invariant(self);
        }
        let names = self.function_registry.names();
        proof {
            self.function_registry.lemma_count();
        }
        let mut out: Vec<String> = Vec::new();
        let mut i: usize = 0;
        while i < names.len()
            invariant
                i <= names@.len(),
                out@.len() == i,
                forall|k: int| 0 <= k < i ==> (#[trigger] out@[k])@ == names@[k]@,
            decreases names@.len() - i,
        {
            out.push(crate::command::string_of(names[i].as_slice()));
            i = i + 1;
        }
        proof {
            assert forall|k: Seq<char>| self.view().contains_key(k) implies exists|i: int| 0 <= i < out@.len() && (#[trigger] out@[i])@ == k by {
                let j = choose|j: int| 0 <= j < names@.len() && (#[trigger] names@[j])@ == k;
                assert(out@[j]@ == k);
            }
            assert forall|k: Seq<char>| (exists|i: int| 0 <= i < out@.len() && (#[trigger] out@[i])@ == k) implies self.view().contains_key(k) by {
                let j = choose|j: int| 0 <= j < out@.len() && (#[trigger] out@[j])@ == k;
                assert(names@[j]@ == k);
            }
        }
        out
    }
}

impl Plugin for FunctionPlugin {
    fn eval(&self, name: &str, buf: &[u8]) -> (r: String)
        ensures
            r@ == match lookup_result(self.view(), name@) {
                Some(f) => function_output(f, buf@),
                None => "no function call"@,
            },
    {
        proof {
            use_type_invariant(self);
        }
        match lookup(&self.function_registry, name) {
            Some(f) => f.call(buf),
            None => String::from_str("no function call"),
        }
    }

    fn list(&self) -> (r: String)
        ensures
            self.view().dom().len() == 0 ==> r@ == "No functions registered."@,
            self.view().dom().len() > 0 ==> exists|s: Seq<Seq<char>>| strictly_sorted(s) && (forall|k: Seq<char>|
                s.contains(k) <==> self.view().contains_key(k)) && r@ == #[trigger] listing(s),
    {
        proof {
            use_type_invariant(self);
        }
        let names = self.function_registry.names();
        proof {
            self.function_registry.lemma_count();
        }
        if names.len() == 0 {
            return String::from_str("No functions registered.");
        }
        let sorted = sorted_names(&names);
        let ghost sv = name_views(sorted@);
        let mut out = String::new();
        let mut i: usize = 0;
        while i < sorted.len()
            invariant
                sv == name_views(sorted@),
                i <= sorted@.len(),
                out@ == listing(sv.take(i as int)),
            decreases sorted@.len() - i,
        {
            if i > 0 {
                push_char(&mut out, '\n');
            }
            push_str(&mut out, "* ");
            let name = crate::command::string_of(sorted[i].as_slice());
            push_str(&mut out, name.as_str());
            proof {
                reveal_strlit("* ");
                assert(sv.take(i + 1).drop_last() =~= sv.take(i as int));
                assert(sv.take(i + 1).last() == sv[i as int]);
                if i == 0 {
                    assert(sv.take(1) =~= seq![sv[0]]);
                }
            }
            i = i + 1;
        }
        proof {
            assert(sv.take(sorted@.len() as int) =~= sv);
            assert forall|k: Seq<char>| sv.contains(k) <==> self.view().contains_key(k) by {
                if name_views(names@).contains(k) {
                    let w = choose|w: int| 0 <= w < name_views(names@).len() && #[trigger] name_views(names@)[w] == k;
                    assert(names@[w]@ == k);
                }
                if self.view().contains_key(k) {
                    let w = choose|w: int| 0 <= w < names@.len() && (#[trigger] names@[w])@ == k;
                    assert(name_views(names@)[w] == k);
                }
            }
        }
        out
    }
}

} // verus!
