use vstd::prelude::*;
use std::collections::HashMap;
use crate::command::chars_of;

verus! {

broadcast use vstd::std_specs::hash::group_hash_axioms;

/// The mask of character `c` over the first `n` pattern characters: all ones, with bit `i`
/// cleared for each `i < n` where the pattern holds `c`.
pub open spec fn char_mask(p: Seq<char>, c: char, n: int) -> usize
    decreases n,
{
    if n <= 0 {
        !0usize
    } else {
        let rest = char_mask(p, c, n - 1);
        if p[n - 1] == c {
            rest & !(1usize << ((n - 1) as usize))
        } else {
            rest
        }
    }
}

/// One step of the exact search: or in the character's mask, then shift.
pub open spec fn exact_step(r: usize, mask: usize) -> usize {
    (r | mask) << 1usize
}

/// One cell of a step of the fuzzy search: row `j` allows `j` edits; it takes the exact
/// step of its old value and clears bits for a substitution, an insertion or a deletion
/// from row `j - 1` (old and new).
pub open spec fn fuzzy_cell(old: Seq<usize>, mask: usize, j: int) -> usize
    decreases j,
{
    if j <= 0 {
        exact_step(old[0], mask)
    } else {
        exact_step(old[j], mask) & old[j - 1] & (fuzzy_cell(old, mask, j - 1) << 1usize) & (old[j - 1] << 1usize)
    }
}

/// The rows after one character of the fuzzy search.
pub open spec fn fuzzy_step(old: Seq<usize>, mask: usize) -> Seq<usize> {
    Seq::new(old.len(), |j: int| fuzzy_cell(old, mask, j))
}

/// The first row, from `k` on, whose bit `m` is clear (no row: `None`).
pub open spec fn first_clear(rows: Seq<usize>, m: int, k: int) -> Option<int>
    decreases rows.len() - k,
{
    if k < 0 || k >= rows.len() {
        None
    } else if rows[k] & (1usize << (m as usize)) == 0 {
        Some(k)
    } else {
        first_clear(rows, m, k + 1)
    }
}

/// A fuzzy occurrence: how many edits it needs and the index of its last character.
#[derive(Debug, Clone, Copy, PartialEq, Eq, Structural)]
pub struct Match {
    pub distance: usize,
    pub end: usize,
}

/// The bitap (shift-or) matcher of one pattern.
pub struct Bitap {
    length: usize,
    masks: HashMap<u32, usize>,
}

/// The mask stored for `c`, all ones when `c` has none.
fn stored_mask(masks: &HashMap<u32, usize>, c: char) -> (r: usize)
    ensures
        r == (if masks@.contains_key(c as u32) { masks@[c as u32] } else { !0usize }),
{
    match masks.get(&(c as u32)) {
        Some(v) => *v,
        None => !0usize,
    }
}

/// After an exact step, the bits above `k + 1` are still all set when those above `k` were.
proof fn lemma_high_bits_step(r: usize, mask: usize, k: usize)
    requires
        k + 1 < usize::BITS,
        r >> k == !0usize >> k,
    ensures
        exact_step(r, mask) >> ((k + 1) as usize) == !0usize >> ((k + 1) as usize),
{
    let k1 = (k + 1) as usize;
    assert(((r | mask) << 1usize) >> k1 == !0usize >> k1) by (bit_vector)
        requires
            k1 == k + 1,
            k1 < usize::BITS,
            r >> k == !0usize >> k;
}

/// A bit at or above `k` is set when all bits from `k` up are.
proof fn lemma_high_bit_set(r: usize, k: usize, m: usize)
    requires
        k <= m < usize::BITS,
        r >> k == !0usize >> k,
    ensures
        r & (1usize << m) != 0,
{
    assert(r & (1usize << m) != 0) by (bit_vector)
        requires
            k <= m < usize::BITS,
            r >> k == !0usize >> k;
}

impl Bitap {
    /// The pattern length.
    pub closed spec fn len(&self) -> nat {
        self.length as nat
    }

    /// The mask of character `c`.
    pub closed spec fn mask(&self, c: char) -> usize {
        if self.masks@.contains_key(c as u32) {
            self.masks@[c as u32]
        } else {
            !0usize
        }
    }

    /// The state of the exact search after the first `t` characters of `text`.
    pub open spec fn exact_state(&self, text: Seq<char>, t: int) -> usize
        decreases t,
    {
        if t <= 0 {
            !1usize
        } else {
            exact_step(self.exact_state(text, t - 1), self.mask(text[t - 1]))
        }
    }

    /// The start positions the exact search reports within the first `t` characters: one
    /// for each character after which bit `len` of the state is clear.
    pub open spec fn exact_hits(&self, text: Seq<char>, t: int) -> Seq<usize>
        decreases t,
    {
        if t <= 0 {
            Seq::empty()
        } else {
            let rest = self.exact_hits(text, t - 1);
            if self.exact_state(text, t) & (1usize << (self.len() as usize)) == 0 {
                rest.push((t - self.len()) as usize)
            } else {
                rest
            }
        }
    }

    /// The rows of the fuzzy search with `d` edit rows after the first `t` characters.
    pub open spec fn fuzzy_rows(&self, text: Seq<char>, d: int, t: int) -> Seq<usize>
        decreases t,
    {
        if t <= 0 {
            Seq::new((d + 1) as nat, |j: int| !1usize << (j as usize))
        } else {
            fuzzy_step(self.fuzzy_rows(text, d, t - 1), self.mask(text[t - 1]))
        }
    }

    /// The matches the fuzzy search reports within the first `t` characters: after each
    /// character, the fewest edits whose row has bit `len` clear.
    pub open spec fn fuzzy_hits(&self, text: Seq<char>, d: int, t: int) -> Seq<Match>
        decreases t,
    {
        if t <= 0 {
            Seq::empty()
        } else {
            let rest = self.fuzzy_hits(text, d, t - 1);
            match first_clear(self.fuzzy_rows(text, d, t), self.len() as int, 0) {
                Some(k) => rest.push(Match { distance: k as usize, end: (t - 1) as usize }),
                None => rest,
            }
        }
    }

    /// Builds the character masks of `pattern`.
    pub fn new(pattern: &str) -> (r: Bitap)
        requires
            pattern@.len() < usize::BITS,
        ensures
            r.len() == pattern@.len(),
            forall|c: char| #[trigger] r.mask(c) == char_mask(pattern@, c, pattern@.len() as int),
    {
        let chars = chars_of(pattern);
        let mut masks: HashMap<u32, usize> = HashMap::new();
        let mut length: usize = 0;
        let mut i: usize = 0;
        while i < chars.len()
            invariant
                chars@ == pattern@,
                chars@.len() < usize::BITS,
                i <= chars@.len(),
                length == i,
                forall|c: char| #![trigger char_mask(pattern@, c, i as int)]
                    (if masks@.contains_key(c as u32) { masks@[c as u32] } else { !0usize }) == char_mask(pattern@, c, i as int),
            decreases chars@.len() - i,
        {
            let b = chars[i];
            let ghost old_masks = masks@;
            let bit: usize = 1usize << i;
            let old = stored_mask(&masks, b);
            masks.insert(b as u32, old & !bit);
            proof {
                assert forall|c: char| #![trigger char_mask(pattern@, c, (i + 1) as int)]
                    (if masks@.contains_key(c as u32) { masks@[c as u32] } else { !0usize }) == char_mask(pattern@, c, (i + 1) as int) by {
                    assert(char_mask(pattern@, c, i as int) == char_mask(pattern@, c, i as int));
                    if c == b {
                        assert(pattern@[i as int] == c);
                        assert(masks@.contains_key(c as u32));
                        assert(masks@[c as u32] == old & !bit);
                        assert(old == char_mask(pattern@, c, i as int));
                        assert(bit == 1usize << (i as usize));
                        assert(char_mask(pattern@, c, (i + 1) as int) == char_mask(pattern@, c, i as int) & !(1usize << (i as usize)));
                    } else {
                        vstd::utf8::char_u32_cast(c, c as u32);
                        vstd::utf8::char_u32_cast(b, b as u32);
                        assert(c as u32 != b as u32);
                        assert(char_mask(pattern@, c, (i + 1) as int) == char_mask(pattern@, c, i as int));
                        assert(masks@.contains_key(c as u32) == old_masks.contains_key(c as u32));
                    }
                }
            }
            length = length + 1;
            i = i + 1;
        }
        Bitap { length, masks }
    }

    /// The start of each exact occurrence of the pattern in `text`, in order.
    pub fn search(&self, text: &str) -> (r: Vec<usize>)
        requires
            self.len() < usize::BITS,
        ensures
            r@ == self.exact_hits(text@, text@.len() as int),
    {
        let m = self.length;
        let chars = chars_of(text);
        let mut r: usize = !1usize;
        let mut out: Vec<usize> = Vec::new();
        let mut i: usize = 0;
        proof {
            assert(!1usize >> 1usize == !0usize >> 1usize) by (bit_vector);
        }
        while i < chars.len()
            invariant
                chars@ == text@,
                m == self.len(),
                m < usize::BITS,
                i <= chars@.len(),
                r == self.exact_state(text@, i as int),
                out@ == self.exact_hits(text@, i as int),
                i + 1 < usize::BITS ==> r >> ((i + 1) as usize) == !0usize >> ((i + 1) as usize),
            decreases chars@.len() - i,
        {
            let mask = stored_mask(&self.masks, chars[i]);
            proof {
                if i + 2 < usize::BITS {
                    lemma_high_bits_step(r, mask, (i + 1) as usize);
                }
            }
            r = r | mask;
            r = r << 1usize;
            if r & (1usize << m) == 0 {
                proof {
                    if i + 2 < usize::BITS && m >= i + 2 {
                        lemma_high_bit_set(r, (i + 2) as usize, m);
                    }
                }
                out.push(i + 1 - m);
            }
            i = i + 1;
        }
        out
    }

    /// For each character of `text`, the fewest edits (up to `max_distance`, and at most
    /// the pattern length) with which the pattern ends there, when some number does.
    pub fn fuzzy_search(&self, text: &str, max_distance: usize) -> (r: Vec<Match>)
        requires
            self.len() < usize::BITS,
        ensures
            r@ == self.fuzzy_hits(
                text@,
                if max_distance <= self.len() { max_distance as int } else { self.len() as int },
                text@.len() as int,
            ),
    {
        let m = self.length;
        let d = if max_distance <= m {
            max_distance
        } else {
            m
        };
        let ghost dd = d as int;
        let chars = chars_of(text);
        let mut rows: Vec<usize> = Vec::new();
        let mut k: usize = 0;
        while k <= d
            invariant
                d <= m < usize::BITS,
                k <= d + 1,
                rows@.len() == k,
                forall|j: int| 0 <= j < k ==> #[trigger] rows@[j] == !1usize << (j as usize),
            decreases d + 1 - k,
        {
            rows.push(!1usize << k);
            k = k + 1;
        }
        proof {
            assert(rows@ =~= self.fuzzy_rows(text@, dd, 0));
        }
        let mut out: Vec<Match> = Vec::new();
        let mut i: usize = 0;
        while i < chars.len()
            invariant
                chars@ == text@,
                m == self.len(),
                d <= m < usize::BITS,
                dd == d,
                i <= chars@.len(),
                rows@ == self.fuzzy_rows(text@, dd, i as int),
                rows@.len() == d + 1,
                out@ == self.fuzzy_hits(text@, dd, i as int),
            decreases chars@.len() - i,
        {
            let mask = stored_mask(&self.masks, chars[i]);
            let ghost old_rows = rows@;
            let mut prev_parent = rows[0];
            let first = (rows[0] | mask) << 1usize;
            rows.set(0, first);
            let mut j: usize = 1;
            while j < rows.len()
                invariant
                    rows@.len() == old_rows.len(),
                    old_rows.len() == d + 1,
                    1 <= j <= rows@.len(),
                    prev_parent == old_rows[j - 1],
                    forall|q: int| 0 <= q < j ==> #[trigger] rows@[q] == fuzzy_cell(old_rows, mask, q),
                    forall|q: int| j <= q < rows@.len() ==> #[trigger] rows@[q] == old_rows[q],
                decreases rows@.len() - j,
            {
                let prev = rows[j];
                let current = (prev | mask) << 1usize;
                let replace = prev_parent << 1usize;
                let delete = rows[j - 1] << 1usize;
                let insert = prev_parent;
                rows.set(j, current & insert & delete & replace);
                prev_parent = prev;
                j = j + 1;
            }
            proof {
                assert(rows@ =~= fuzzy_step(old_rows, mask));
            }
            let ghost new_rows = rows@;
            let mut k: usize = 0;
            let mut found: Option<usize> = None;
            while k < rows.len() && found.is_none()
                invariant
                    rows@ == new_rows,
                    m < usize::BITS,
                    k <= rows@.len(),
                    found matches Some(q) ==> first_clear(new_rows, m as int, 0) == Some(q as int),
                    found is None ==> first_clear(new_rows, m as int, 0) == first_clear(new_rows, m as int, k as int),
                decreases rows@.len() - k + (if found is None { 1int } else { 0int }),
            {
                if rows[k] & (1usize << m) == 0 {
                    found = Some(k);
                } else {
                    k = k + 1;
                }
            }
            if let Some(q) = found {
                out.push(Match { distance: q, end: i });
            }
            i = i + 1;
        }
        out
    }
}


proof fn lemma_first_clear_bounds(rows: Seq<usize>, m: int, k: int)
    ensures
        first_clear(rows, m, k) matches Some(j) ==> k <= j < rows.len(),
    decreases rows.len() - k,
{
    if 0 <= k < rows.len() && rows[k] & (1usize << (m as usize)) != 0 {
        lemma_first_clear_bounds(rows, m, k + 1);
    }
}

/// Bit `i` of `x`.
pub open spec fn bit(x: usize, i: usize) -> usize {
    (x >> i) & 1usize
}

proof fn lemma_bit_clear(x: usize, k: usize, i: usize)
    requires
        k < usize::BITS,
        i < usize::BITS,
    ensures
        bit(x & !(1usize << k), i) == if i == k { 0usize } else { bit(x, i) },
{
    assert(((x & !(1usize << k)) >> i) & 1usize == if i == k { 0usize } else { (x >> i) & 1usize }) by (bit_vector)
        requires
            k < usize::BITS,
            i < usize::BITS;
}

proof fn lemma_bit_step(r: usize, mask: usize, j: usize)
    requires
        1 <= j < usize::BITS,
    ensures
        bit(exact_step(r, mask), j) == (bit(r, (j - 1) as usize) | bit(mask, (j - 1) as usize)),
        bit(exact_step(r, mask), 0) == 0,
{
    let j1 = (j - 1) as usize;
    assert(((((r | mask) << 1usize) >> j) & 1usize) == (((r >> j1) & 1usize) | ((mask >> j1) & 1usize))) by (bit_vector)
        requires
            1 <= j < usize::BITS,
            j1 == j - 1;
    assert(((((r | mask) << 1usize) >> 0usize) & 1usize) == 0usize) by (bit_vector);
}

proof fn lemma_bit_consts(i: usize)
    requires
        i < usize::BITS,
    ensures
        bit(!0usize, i) == 1,
        bit(!1usize, i) == if i == 0 { 0usize } else { 1usize },
{
    assert(((!0usize) >> i) & 1usize == 1usize) by (bit_vector)
        requires
            i < usize::BITS;
    assert(((!1usize) >> i) & 1usize == if i == 0 { 0usize } else { 1usize }) by (bit_vector)
        requires
            i < usize::BITS;
}

proof fn lemma_bit_test(x: usize, m: usize)
    requires
        m < usize::BITS,
    ensures
        (x & (1usize << m) == 0) == (bit(x, m) == 0),
{
    assert((x & (1usize << m) == 0usize) == (((x >> m) & 1usize) == 0usize)) by (bit_vector)
        requires
            m < usize::BITS;
}

/// Bit `i` of a character's mask is clear exactly where the pattern holds the character.
proof fn lemma_char_mask_bit(p: Seq<char>, c: char, n: int, i: usize)
    requires
        0 <= n <= p.len(),
        p.len() < usize::BITS,
        i < usize::BITS,
    ensures
        (bit(char_mask(p, c, n), i) == 0) == (i < n && p[i as int] == c),
    decreases n,
{
    if n <= 0 {
        lemma_bit_consts(i);
    } else {
        lemma_char_mask_bit(p, c, n - 1, i);
        if p[n - 1] == c {
            lemma_bit_clear(char_mask(p, c, n - 1), (n - 1) as usize, i);
        }
    }
}

impl Bitap {
    /// Bit `j` of the exact search's state is clear exactly when the `j` characters before
    /// position `t` spell the first `j` pattern characters.
    proof fn lemma_exact_state_bits(&self, p: Seq<char>, text: Seq<char>, t: int, j: usize)
        requires
            self.len() == p.len(),
            p.len() < usize::BITS,
            forall|c: char| #[trigger] self.mask(c) == char_mask(p, c, p.len() as int),
            0 <= t <= text.len(),
            j <= p.len(),
        ensures
            (bit(self.exact_state(text, t), j) == 0) == (j <= t && text.subrange(t - j, t) == p.subrange(0, j as int)),
        decreases t,
    {
        if t == 0 {
            lemma_bit_consts(j);
            if j == 0 {
                assert(text.subrange(0, 0) =~= p.subrange(0, 0));
            }
        } else if j == 0 {
            lemma_bit_step(self.exact_state(text, t - 1), self.mask(text[t - 1]), 1);
            assert(text.subrange(t, t) =~= p.subrange(0, 0));
        } else {
            let j1 = (j - 1) as usize;
            lemma_bit_step(self.exact_state(text, t - 1), self.mask(text[t - 1]), j);
            self.lemma_exact_state_bits(p, text, t - 1, j1);
            lemma_char_mask_bit(p, text[t - 1], p.len() as int, j1);
            let prev_ok = j1 <= t - 1 && text.subrange(t - 1 - j1, t - 1) == p.subrange(0, j1 as int);
            let here_ok = p[j1 as int] == text[t - 1];
            let r = self.exact_state(text, t - 1);
            let mk = self.mask(text[t - 1]);
            assert(bit(r, j1) <= 1 && bit(mk, j1) <= 1) by (bit_vector);
            assert((bit(r, j1) | bit(mk, j1) == 0) == (bit(r, j1) == 0 && bit(mk, j1) == 0)) by (bit_vector);
            if j <= t && text.subrange(t - j, t) == p.subrange(0, j as int) {
                assert(text.subrange(t - j, t - 1) =~= text.subrange(t - j, t).subrange(0, j1 as int));
                assert(p.subrange(0, j1 as int) =~= p.subrange(0, j as int).subrange(0, j1 as int));
                assert(text[t - 1] == text.subrange(t - j, t)[j1 as int]);
                assert(prev_ok && here_ok);
            }
            if prev_ok && here_ok {
                assert(text.subrange(t - j, t) =~= p.subrange(0, j as int)) by {
                    assert forall|k: int| 0 <= k < j implies text.subrange(t - j, t)[k] == p.subrange(0, j as int)[k] by {
                        if k < j1 {
                            assert(text.subrange(t - 1 - j1, t - 1)[k] == p.subrange(0, j1 as int)[k]);
                        }
                    }
                }
            }
        }
    }

    /// The fuzzy search's row of no edits is the exact search's state.
    proof fn lemma_row0_exact(&self, text: Seq<char>, d: int, t: int)
        requires
            0 <= d,
            0 <= t <= text.len(),
        ensures
            self.fuzzy_rows(text, d, t).len() == d + 1,
            self.fuzzy_rows(text, d, t)[0] == self.exact_state(text, t),
        decreases t,
    {
        if t <= 0 {
            assert((!1usize << 0usize) == !1usize) by (bit_vector);
        } else {
            self.lemma_row0_exact(text, d, t - 1);
        }
    }

    /// The fuzzy search reports, after each character, a distance of no edits exactly where
    /// the pattern occurs exactly and ends there, and never more edits than allowed; every
    /// exact occurrence is reported with distance 0.
    pub proof fn lemma_fuzzy_exact_is_zero(&self, p: Seq<char>, text: Seq<char>, d: int, t: int)
        requires
            self.len() == p.len(),
            1 <= p.len() < usize::BITS,
            forall|c: char| #[trigger] self.mask(c) == char_mask(p, c, p.len() as int),
            0 <= d <= p.len(),
            0 <= t <= text.len(),
            text.len() <= usize::MAX,
        ensures
            forall|i: int| 0 <= i < self.fuzzy_hits(text, d, t).len() ==> (#[trigger] self.fuzzy_hits(text, d, t)[i]).distance <= d
                && self.fuzzy_hits(text, d, t)[i].end < t && (self.fuzzy_hits(text, d, t)[i].distance == 0 <==> (
                self.fuzzy_hits(text, d, t)[i].end + 1 >= p.len() && text.subrange(
                    self.fuzzy_hits(text, d, t)[i].end + 1 - p.len(),
                    self.fuzzy_hits(text, d, t)[i].end + 1,
                ) == p)),
            forall|e: int| 0 <= e < t && e + 1 >= p.len() && #[trigger] text.subrange(e + 1 - p.len(), e + 1) == p
                ==> self.fuzzy_hits(text, d, t).contains(Match { distance: 0, end: e as usize }),
        decreases t,
    {
        if t > 0 {
            self.lemma_fuzzy_exact_is_zero(p, text, d, t - 1);
            self.lemma_row0_exact(text, d, t);
            let m = p.len() as int;
            let rows = self.fuzzy_rows(text, d, t);
            self.lemma_exact_state_bits(p, text, t, p.len() as usize);
            lemma_bit_test(self.exact_state(text, t), p.len() as usize);
            lemma_first_clear_bounds(rows, m, 0);
            lemma_first_clear_bounds(rows, m, 1);
            assert(p.subrange(0, m) =~= p);
            let exact = m <= t && text.subrange(t - m, t) == p;
            assert((rows[0] & (1usize << (m as usize)) == 0) == exact);
            let rest = self.fuzzy_hits(text, d, t - 1);
            let all = self.fuzzy_hits(text, d, t);
            assert forall|i: int| 0 <= i < all.len() implies (#[trigger] all[i]).distance <= d && all[i].end < t && (all[i].distance == 0
                <==> (all[i].end + 1 >= p.len() && text.subrange(all[i].end + 1 - p.len(), all[i].end + 1) == p)) by {
                if i < rest.len() {
                    assert(all[i] == rest[i]);
                } else {
                    let k = first_clear(rows, m, 0)->0;
                    assert(all[i] == Match { distance: k as usize, end: (t - 1) as usize });
                    assert(k == 0 <==> rows[0] & (1usize << (m as usize)) == 0);
                    assert(all[i].end + 1 == t);
                }
            }
            assert forall|e: int| 0 <= e < t && e + 1 >= p.len() && #[trigger] text.subrange(e + 1 - p.len(), e + 1) == p
                implies all.contains(Match { distance: 0, end: e as usize }) by {
                if e < t - 1 {
                    let j = choose|j: int| 0 <= j < rest.len() && rest[j] == Match { distance: 0, end: e as usize };
                    assert(all[j] == rest[j]);
                } else {
                    assert(first_clear(rows, m, 0) == Some(0int));
                    assert(all[all.len() - 1] == Match { distance: 0, end: e as usize });
                }
            }
        }
    }

    /// The exact search reports a start exactly where the pattern occurs (for a non-empty
    /// pattern shorter than a machine word), and each one once, in increasing order.
    pub proof fn lemma_exact_hits(&self, p: Seq<char>, text: Seq<char>, t: int)
        requires
            self.len() == p.len(),
            1 <= p.len() < usize::BITS,
            forall|c: char| #[trigger] self.mask(c) == char_mask(p, c, p.len() as int),
            0 <= t <= text.len(),
            text.len() <= usize::MAX,
        ensures
            forall|s: usize| #[trigger] self.exact_hits(text, t).contains(s) <==> (s + p.len() <= t && text.subrange(
                s as int,
                s + p.len(),
            ) == p),
            forall|a: int, b: int| 0 <= a < b < self.exact_hits(text, t).len() ==> #[trigger] self.exact_hits(text, t)[a]
                < #[trigger] self.exact_hits(text, t)[b],
            forall|a: int| 0 <= a < self.exact_hits(text, t).len() ==> #[trigger] self.exact_hits(text, t)[a] + p.len() <= t,
        decreases t,
    {
        let m = p.len() as int;
        if t > 0 {
            self.lemma_exact_hits(p, text, t - 1);
            self.lemma_exact_state_bits(p, text, t, p.len() as usize);
            lemma_bit_test(self.exact_state(text, t), p.len() as usize);
            assert(p.subrange(0, m) =~= p);
            let rest = self.exact_hits(text, t - 1);
            let all = self.exact_hits(text, t);
            let hit = self.exact_state(text, t) & (1usize << (self.len() as usize)) == 0;
            assert(hit == (m <= t && text.subrange(t - m, t) == p));
            if hit {
                assert(all == rest.push((t - m) as usize));
            } else {
                assert(all == rest);
            }
            assert forall|a: int, b: int| 0 <= a < b < all.len() implies #[trigger] all[a] < #[trigger] all[b] by {
                if b < rest.len() {
                    assert(rest[a] < rest[b]);
                } else {
                    assert(rest[a] + m <= t - 1);
                }
            }
            assert forall|a: int| 0 <= a < all.len() implies #[trigger] all[a] + m <= t by {
                if a < rest.len() {
                    assert(rest[a] + m <= t - 1);
                }
            }
            assert forall|s: usize| #[trigger] all.contains(s) <==> (s + m <= t && text.subrange(s as int, s + m) == p) by {
                if all.contains(s) {
                    let k = choose|k: int| 0 <= k < all.len() && all[k] == s;
                    if k < rest.len() {
                        assert(rest[k] == s);
                        assert(rest.contains(s));
                    }
                }
                if s + m <= t - 1 && text.subrange(s as int, s + m) == p {
                    assert(rest.contains(s));
                    let k = choose|k: int| 0 <= k < rest.len() && rest[k] == s;
                    assert(all[k] == s);
                }
                if s + m == t && text.subrange(s as int, s + m) == p {
                    assert(all[all.len() - 1] == s);
                }
            }
        }
    }
}

} // verus!
