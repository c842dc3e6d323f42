use vstd::prelude::*;
use crate::byteutil::Endian;
use crate::text_util::push_char;

verus! {

/// The characters of a string, in order.
pub fn chars_of(s: &str) -> (r: Vec<char>)
    ensures
        r@ == s@,
{
    let mut out: Vec<char> = Vec::new();
    for c in it: s.chars()
        invariant
            out@ == it.seq().take(it.index() as int),
            it.seq() == s@,
    {
        out.push(c);
    }
    proof {
        assert(out@ =~= s@);
    }
    out
}

/// A string holding the characters `cs`.
pub fn string_of(cs: &[char]) -> (r: String)
    ensures
        r@ == cs@,
{
    let mut s = String::new();
    let mut i: usize = 0;
    while i < cs.len()
        invariant
            i <= cs@.len(),
            s@ == cs@.take(i as int),
        decreases cs@.len() - i,
    {
        push_char(&mut s, cs[i]);
        i = i + 1;
        proof {
            assert(s@ =~= cs@.take(i as int));
        }
    }
    proof {
        assert(s@ =~= cs@);
    }
    s
}

/// Unicode `White_Space`, which `char::is_whitespace` tests.
pub open spec fn is_white(c: char) -> bool {
    let u = c as u32;
    (0x09 <= u <= 0x0d) || u == 0x20 || u == 0x85 || u == 0xa0 || u == 0x1680 || (0x2000 <= u
        <= 0x200a) || u == 0x2028 || u == 0x2029 || u == 0x202f || u == 0x205f || u == 0x3000
}

pub fn is_whitespace(c: char) -> (r: bool)
    ensures
        r == is_white(c),
{
    let u = c as u32;
    (0x09 <= u && u <= 0x0d) || u == 0x20 || u == 0x85 || u == 0xa0 || u == 0x1680 || (0x2000
        <= u && u <= 0x200a) || u == 0x2028 || u == 0x2029 || u == 0x202f || u == 0x205f || u
        == 0x3000
}

/// Length of the run of non-whitespace characters that `s` starts with.
pub open spec fn word_len(s: Seq<char>) -> nat
    decreases s.len(),
{
    if s.len() == 0 || is_white(s[0]) {
        0
    } else {
        1 + word_len(s.drop_first())
    }
}

/// The whitespace-separated words of `s`, as `str::split_whitespace` gives them.
pub open spec fn words(s: Seq<char>) -> Seq<Seq<char>>
    decreases s.len(),
{
    if s.len() == 0 {
        Seq::empty()
    } else if is_white(s[0]) {
        words(s.drop_first())
    } else {
        let k = word_len(s);
        proof {
            lemma_word_len_bound(s);
        }
        seq![s.take(k as int)] + words(s.skip(k as int))
    }
}

pub proof fn lemma_word_len_bound(s: Seq<char>)
    ensures
        word_len(s) <= s.len(),
        s.len() > 0 && !is_white(s[0]) ==> word_len(s) >= 1,
        forall|i: int| 0 <= i < word_len(s) ==> !is_white(#[trigger] s[i]),
        word_len(s) < s.len() ==> is_white(s[word_len(s) as int]),
    decreases s.len(),
{
    if s.len() > 0 && !is_white(s[0]) {
        lemma_word_len_bound(s.drop_first());
        assert forall|i: int| 0 <= i < word_len(s) implies !is_white(#[trigger] s[i]) by {
            if i > 0 {
                assert(s[i] == s.drop_first()[i - 1]);
            }
        }
    }
}

proof fn lemma_word_len_of_run(s: Seq<char>, k: int)
    requires
        0 <= k <= s.len(),
        forall|i: int| 0 <= i < k ==> !is_white(#[trigger] s[i]),
        k == s.len() || is_white(s[k]),
    ensures
        word_len(s) == k,
    decreases k,
{
    if k > 0 {
        assert forall|i: int| 0 <= i < k - 1 implies !is_white(#[trigger] s.drop_first()[i]) by {
            assert(s.drop_first()[i] == s[i + 1]);
        }
        if k < s.len() {
            assert(s.drop_first()[k - 1] == s[k]);
        }
        lemma_word_len_of_run(s.drop_first(), k - 1);
    }
}

proof fn lemma_words_skip(s: Seq<char>, from: int)
    requires
        0 <= from < s.len(),
        is_white(s[from]),
    ensures
        words(s.skip(from)) == words(s.skip(from + 1)),
{
    assert(s.skip(from).drop_first() =~= s.skip(from + 1));
}

proof fn lemma_words_take(s: Seq<char>, from: int, k: int)
    requires
        0 <= from < from + k <= s.len(),
        forall|i: int| from <= i < from + k ==> !is_white(#[trigger] s[i]),
        from + k == s.len() || is_white(s[from + k]),
    ensures
        words(s.skip(from)) == seq![s.subrange(from, from + k)] + words(s.skip(from + k)),
{
    let t = s.skip(from);
    assert forall|i: int| 0 <= i < k implies !is_white(#[trigger] t[i]) by {
        assert(t[i] == s[from + i]);
    }
    if from + k < s.len() {
        assert(t[k] == s[from + k]);
    }
    lemma_word_len_of_run(t, k);
    assert(t.take(k) =~= s.subrange(from, from + k));
    assert(t.skip(k) =~= s.skip(from + k));
}

/// The whitespace-separated words of `s`.
pub fn split_whitespace(s: &[char]) -> (r: Vec<Vec<char>>)
    ensures
        r@.len() == words(s@).len(),
        forall|i: int| 0 <= i < r@.len() ==> #[trigger] r@[i]@ == words(s@)[i],
{
    let mut out: Vec<Vec<char>> = Vec::new();
    let mut i: usize = 0;
    let ghost done: Seq<Seq<char>> = Seq::empty();
    proof {
        assert(s@.skip(0) =~= s@);
        assert(done + words(s@) =~= words(s@));
    }
    while i < s.len()
        invariant
            i <= s@.len(),
            out@.len() == done.len(),
            forall|j: int| 0 <= j < out@.len() ==> #[trigger] out@[j]@ == done[j],
            done + words(s@.skip(i as int)) == words(s@),
        decreases s@.len() - i,
    {
        if is_whitespace(s[i]) {
            proof {
                lemma_words_skip(s@, i as int);
            }
            i = i + 1;
        } else {
            let mut word: Vec<char> = Vec::new();
            let start = i;
            while i < s.len() && !is_whitespace(s[i])
                invariant
                    start <= i <= s@.len(),
                    word@ == s@.subrange(start as int, i as int),
                    forall|j: int| start <= j < i ==> !is_white(#[trigger] s@[j]),
                decreases s@.len() - i,
            {
                word.push(s[i]);
                i = i + 1;
                proof {
                    assert(word@ =~= s@.subrange(start as int, i as int));
                }
            }
            proof {
                lemma_words_take(s@, start as int, (i - start) as int);
                done = done.push(word@);
                assert(done + words(s@.skip(i as int)) =~= words(s@)) by {
                    assert(done.drop_last() + seq![word@] =~= done);
                }
            }
            out.push(word);
        }
    }
    proof {
        assert(s@.skip(i as int) =~= Seq::<char>::empty());
        assert(done =~= words(s@));
    }
    out
}


/// Whether `w` holds exactly the characters `lit`.
fn same_chars(w: &[char], lit: &[char]) -> (r: bool)
    ensures
        r == (w@ == lit@),
{
    if w.len() != lit.len() {
        return false;
    }
    let mut i: usize = 0;
    while i < w.len()
        invariant
            w@.len() == lit@.len(),
            i <= w@.len(),
            forall|j: int| 0 <= j < i ==> w@[j] == lit@[j],
        decreases w@.len() - i,
    {
        if w[i] != lit[i] {
            return false;
        }
        i = i + 1;
    }
    proof {
        assert(w@ =~= lit@);
    }
    true
}

pub open spec fn is_dec_digit(c: char) -> bool {
    '0' <= c <= '9'
}

/// The value of a string of decimal digits.
pub open spec fn digits_value(d: Seq<char>) -> nat
    decreases d.len(),
{
    if d.len() == 0 {
        0
    } else {
        digits_value(d.drop_last()) * 10 + ((d.last() as u32) - 48) as nat
    }
}

/// The digits of an unsigned number: all of `s`, less a leading `+`.
pub open spec fn unsigned_digits(s: Seq<char>) -> Seq<char> {
    if s.len() > 0 && s[0] == '+' {
        s.drop_first()
    } else {
        s
    }
}

/// What `usize::from_str` accepts: an optional `+`, then one or more decimal digits whose
/// value fits in `usize`.
pub open spec fn parsed_usize(s: Seq<char>) -> Option<usize> {
    let d = unsigned_digits(s);
    if d.len() == 0 || exists|i: int| 0 <= i < d.len() && !is_dec_digit(#[trigger] d[i]) {
        None
    } else if digits_value(d) > usize::MAX {
        None
    } else {
        Some(digits_value(d) as usize)
    }
}

proof fn lemma_digits_value_grows(d: Seq<char>, i: int)
    requires
        0 <= i <= d.len(),
        forall|j: int| 0 <= j < d.len() ==> is_dec_digit(#[trigger] d[j]),
    ensures
        digits_value(d.take(i)) <= digits_value(d),
    decreases d.len() - i,
{
    if i < d.len() {
        assert(d.drop_last().take(i) =~= d.take(i));
        assert forall|j: int| 0 <= j < d.drop_last().len() implies is_dec_digit(
            #[trigger] d.drop_last()[j],
        ) by {
            assert(d.drop_last()[j] == d[j]);
        }
        lemma_digits_value_grows(d.drop_last(), i);
    } else {
        assert(d.take(i) =~= d);
    }
}

/// `usize::from_str` on the characters `s`.
pub fn parse_usize(s: &[char]) -> (r: Option<usize>)
    ensures
        r == parsed_usize(s@),
{
    let start: usize = if s.len() > 0 && s[0] == '+' { 1 } else { 0 };
    let ghost d = unsigned_digits(s@);
    proof {
        assert(d =~= s@.skip(start as int));
    }
    if start == s.len() {
        return None;
    }
    let mut i = start;
    while i < s.len()
        invariant
            start <= i <= s@.len(),
            d == s@.skip(start as int),
            d == unsigned_digits(s@),
            forall|j: int| start <= j < i ==> is_dec_digit(#[trigger] s@[j]),
        decreases s@.len() - i,
    {
        if !('0' <= s[i] && s[i] <= '9') {
            proof {
                assert(d[i - start] == s@[i as int]);
                assert(!is_dec_digit(d[i - start]));
            }
            return None;
        }
        i = i + 1;
    }
    proof {
        assert forall|j: int| 0 <= j < d.len() implies is_dec_digit(#[trigger] d[j]) by {
            assert(d[j] == s@[start + j]);
        }
    }
    let mut v: usize = 0;
    let mut k = start;
    while k < s.len()
        invariant
            start <= k <= s@.len(),
            d == s@.skip(start as int),
            d == unsigned_digits(s@),
            forall|j: int| 0 <= j < d.len() ==> is_dec_digit(#[trigger] d[j]),
            v == digits_value(d.take(k - start)),
        decreases s@.len() - k,
    {
        let u = s[k] as u32;
        proof {
            assert(d.take(k + 1 - start).drop_last() =~= d.take(k - start));
            assert(d[k - start] == s@[k as int]);
            assert(is_dec_digit(d[k - start]));
        }
        let digit = (u - 48) as usize;
        match v.checked_mul(10) {
            Some(t) => match t.checked_add(digit) {
                Some(n) => {
                    v = n;
                },
                None => {
                    proof {
                        lemma_digits_value_grows(d, k + 1 - start);
                    }
                    return None;
                },
            },
            None => {
                proof {
                    lemma_digits_value_grows(d, k + 1 - start);
                }
                return None;
            },
        }
        k = k + 1;
    }
    proof {
        assert(d.take(k - start) =~= d);
    }
    Some(v)
}

pub open spec fn is_hex_byte(c: u8) -> bool {
    (48 <= c <= 57) || (65 <= c <= 70) || (97 <= c <= 102)
}

pub open spec fn hex_value(c: u8) -> u8 {
    if c <= 57 {
        (c - 48) as u8
    } else if c <= 70 {
        (c - 55) as u8
    } else {
        (c - 87) as u8
    }
}

/// The bytes that pairs of hex digits spell, high digit first.
pub open spec fn hex_bytes(d: Seq<u8>) -> Seq<u8> {
    Seq::new(d.len() / 2, |i: int| (hex_value(d[2 * i]) * 16 + hex_value(d[2 * i + 1])) as u8)
}

/// `hex::decode`: `Some` exactly when `data` has even length and only hex digits (either
/// case), and then the bytes that each pair of digits spells. The crate's error, which says
/// which of the two failed, is dropped.
#[verifier::external_body]
fn hex_decode(data: &[u8]) -> (r: Option<Vec<u8>>)
    ensures
        r is Some <==> (data@.len() % 2 == 0 && forall|i: int|
            0 <= i < data@.len() ==> is_hex_byte(#[trigger] data@[i])),
        r matches Some(v) ==> v@ == hex_bytes(data@),
{
    hex::decode(data).ok()
}

/// Whether every character is an ASCII hex digit.
pub open spec fn all_hex_chars(cs: Seq<char>) -> bool {
    forall|i: int| 0 <= i < cs.len() ==> (#[trigger] (cs[i] as u32)) < 128 && is_hex_byte(
        (cs[i] as u32) as u8,
    )
}

/// The bytes of characters that are all ASCII.
pub open spec fn ascii_bytes(cs: Seq<char>) -> Seq<u8> {
    Seq::new(cs.len(), |i: int| (cs[i] as u32) as u8)
}

/// What `hex::decode` makes of the UTF-8 encoding of `cs`: `None` unless every character is
/// an ASCII hex digit and there is an even number of them.
pub open spec fn decoded_hex(cs: Seq<char>) -> Option<Seq<u8>> {
    if all_hex_chars(cs) && cs.len() % 2 == 0 {
        Some(hex_bytes(ascii_bytes(cs)))
    } else {
        None
    }
}

/// Decodes hex digits given as characters, through `hex::decode` on their bytes.
fn decode_hex_chars(cs: &[char]) -> (r: Option<Vec<u8>>)
    ensures
        r matches Some(v) ==> decoded_hex(cs@) == Some(v@),
        r is None ==> decoded_hex(cs@) is None,
{
    let mut bytes: Vec<u8> = Vec::new();
    let mut i: usize = 0;
    while i < cs.len()
        invariant
            i <= cs@.len(),
            bytes@ == ascii_bytes(cs@.take(i as int)),
            forall|j: int| 0 <= j < i ==> (cs@[j] as u32) < 128,
        decreases cs@.len() - i,
    {
        let u = cs[i] as u32;
        if u >= 128 {
            return None;
        }
        bytes.push(u as u8);
        i = i + 1;
        proof {
            assert(bytes@ =~= ascii_bytes(cs@.take(i as int)));
        }
    }
    proof {
        assert(cs@.take(i as int) =~= cs@);
    }
    let r = hex_decode(bytes.as_slice());
    proof {
        if r is Some {
            assert(all_hex_chars(cs@)) by {
                assert forall|j: int| 0 <= j < cs@.len() implies (#[trigger] (cs@[j] as u32)) < 128
                    && is_hex_byte((cs@[j] as u32) as u8) by {
                    assert(is_hex_byte(bytes@[j]));
                }
            }
        } else {
            if all_hex_chars(cs@) && cs@.len() % 2 == 0 {
                assert forall|j: int| 0 <= j < bytes@.len() implies is_hex_byte(#[trigger] bytes@[j]) by {
                    assert((cs@[j] as u32) < 128);
                }
            }
        }
    }
    r
}


/// The characters of `s` that are not whitespace, in order.
pub open spec fn without_white(s: Seq<char>) -> Seq<char>
    decreases s.len(),
{
    if s.len() == 0 {
        Seq::empty()
    } else {
        without_white(s.drop_last()) + (if is_white(s.last()) {
            Seq::empty()
        } else {
            seq![s.last()]
        })
    }
}

/// `v` with every leading `0x` removed, as `trim_start_matches("0x")` does.
pub open spec fn strip_hex_prefix(v: Seq<char>) -> Seq<char>
    decreases v.len(),
{
    if v.len() >= 2 && v[0] == '0' && v[1] == 'x' {
        strip_hex_prefix(v.skip(2))
    } else {
        v
    }
}

pub open spec fn starts_with_hex_prefix(v: Seq<char>) -> bool {
    v.len() >= 2 && v[0] == '0' && v[1] == 'x'
}

/// A value to look for: raw bytes given in hex, or text.
#[derive(Debug, PartialEq)]
pub enum Value {
    Hex(Vec<u8>),
    Ascii(String),
}

/// `v` as a value: after a `0x` the hex bytes it spells (none when it is not valid hex),
/// otherwise the text itself.
pub open spec fn value_of(v: Seq<char>, r: Value) -> bool {
    if starts_with_hex_prefix(v) {
        r matches Value::Hex(b) && b@ == (match decoded_hex(strip_hex_prefix(v)) {
            Some(x) => x,
            None => Seq::empty(),
        })
    } else {
        r matches Value::Ascii(t) && t@ == v
    }
}

/// A byte count and the file to cut them into.
#[derive(Debug, PartialEq)]
pub struct CutFile {
    count: usize,
    filepath: String,
}

impl CutFile {
    pub closed spec fn count_of(&self) -> usize {
        self.count
    }

    pub closed spec fn path_of(&self) -> Seq<char> {
        self.filepath@
    }

    pub fn new(count: usize, filepath: &str) -> (r: CutFile)
        ensures
            r.count_of() == count,
            r.path_of() == filepath@,
    {
        CutFile { count, filepath: String::from_str(filepath) }
    }

    pub fn get_count(&self) -> (r: usize)
        ensures
            r == self.count_of(),
    {
        self.count
    }

    pub fn get_filepath(&self) -> (r: &str)
        ensures
            r@ == self.path_of(),
    {
        self.filepath.as_str()
    }
}

/// A byte range and the file to cut it into.
#[derive(Debug, PartialEq)]
pub struct CutSelFile {
    start: usize,
    end: usize,
    filepath: String,
}

impl CutSelFile {
    pub closed spec fn start_of(&self) -> usize {
        self.start
    }

    pub closed spec fn end_of(&self) -> usize {
        self.end
    }

    pub closed spec fn path_of(&self) -> Seq<char> {
        self.filepath@
    }

    pub fn new(start: usize, end: usize, filepath: &str) -> (r: CutSelFile)
        ensures
            r.start_of() == start,
            r.end_of() == end,
            r.path_of() == filepath@,
    {
        CutSelFile { start, end, filepath: String::from_str(filepath) }
    }

    pub fn get_start(&self) -> (r: usize)
        ensures
            r == self.start_of(),
    {
        self.start
    }

    pub fn get_end(&self) -> (r: usize)
        ensures
            r == self.end_of(),
    {
        self.end
    }

    pub fn get_filepath(&self) -> (r: &str)
        ensures
            r@ == self.path_of(),
    {
        self.filepath.as_str()
    }
}

/// A command line of the viewer.
#[derive(Debug, PartialEq)]
pub enum Command {
    Empty,
    Back,
    SetEndian(Endian),
    Jump(usize),
    Find(Value),
    Search(Value),
    Fuzzy(Value),
    GTop,
    GBottom,
    StrInput(String),
    Cut(CutFile),
    CutSel(CutSelFile),
    Call(String),
    ListFunc,
    HexInput(Vec<u8>),
    Insert(usize),
}

/// Length of the part of `v` before its first `=` (all of `v` when there is none).
pub open spec fn eq_pos(v: Seq<char>) -> nat
    decreases v.len(),
{
    if v.len() == 0 || v[0] == '=' {
        0
    } else {
        1 + eq_pos(v.drop_first())
    }
}

/// Where the first `=` of `v` is, and that none comes before it.
pub proof fn lemma_eq_pos(v: Seq<char>)
    ensures
        eq_pos(v) <= v.len(),
        forall|i: int| 0 <= i < eq_pos(v) ==> #[trigger] v[i] != '=',
        eq_pos(v) < v.len() ==> v[eq_pos(v) as int] == '=',
    decreases v.len(),
{
    if v.len() > 0 && v[0] != '=' {
        lemma_eq_pos(v.drop_first());
        assert forall|i: int| 0 <= i < eq_pos(v) implies #[trigger] v[i] != '=' by {
            if i > 0 {
                assert(v[i] == v.drop_first()[i - 1]);
            }
        }
    }
}

proof fn lemma_eq_pos_of(v: Seq<char>, p: int)
    requires
        0 <= p <= v.len(),
        forall|i: int| 0 <= i < p ==> #[trigger] v[i] != '=',
        p == v.len() || v[p] == '=',
    ensures
        eq_pos(v) == p,
    decreases p,
{
    if p > 0 {
        assert forall|i: int| 0 <= i < p - 1 implies #[trigger] v.drop_first()[i] != '=' by {
            assert(v.drop_first()[i] == v[i + 1]);
        }
        if p < v.len() {
            assert(v.drop_first()[p - 1] == v[p]);
        }
        lemma_eq_pos_of(v.drop_first(), p - 1);
    }
}

/// The pieces of `v` between `=` signs, as `str::split('=')` gives them.
pub open spec fn split_eq(v: Seq<char>) -> Seq<Seq<char>>
    decreases v.len(),
{
    let p = eq_pos(v);
    proof {
        lemma_eq_pos(v);
    }
    if p >= v.len() {
        seq![v]
    } else {
        seq![v.take(p as int)] + split_eq(v.skip(p as int + 1))
    }
}

/// Whether `c` lower-cases to `l` (a lower-case ASCII letter).
pub open spec fn lowers_to(c: char, l: char) -> bool {
    if 'A' <= c <= 'Z' {
        (c as u32) + 32 == (l as u32)
    } else {
        c == l
    }
}

/// Whether `w` lower-cased is `lit` (lower-case ASCII letters). Only ASCII upper-case
/// letters lower-case to ASCII letters, so ASCII folding decides it.
pub open spec fn lower_is(w: Seq<char>, lit: Seq<char>) -> bool {
    w.len() == lit.len() && forall|i: int| 0 <= i < w.len() ==> lowers_to(#[trigger] w[i], lit[i])
}

/// The result of `/set v`: `v` must be `endian=` and a byte order, else the input is kept as
/// text.
pub open spec fn set_command(input: Seq<char>, v: Seq<char>, r: Command) -> bool {
    let parts = split_eq(v);
    if parts.len() == 2 && parts[0] == seq!['e', 'n', 'd', 'i', 'a', 'n'] && lower_is(
        parts[1],
        seq!['b', 'i', 'g'],
    ) {
        r == Command::SetEndian(Endian::Big)
    } else if parts.len() == 2 && parts[0] == seq!['e', 'n', 'd', 'i', 'a', 'n'] && lower_is(
        parts[1],
        seq!['l', 'i', 't', 't', 'l', 'e'],
    ) {
        r == Command::SetEndian(Endian::Little)
    } else {
        r matches Command::StrInput(t) && t@ == input
    }
}

/// What `Command::parse` makes of `input`, decided by its whitespace-separated words.
pub open spec fn command_of(input: Seq<char>, r: Command) -> bool {
    let w = words(input);
    let kept = r matches Command::StrInput(t) && t@ == input;
    if w == seq![seq!['/', 'b']] {
        r == Command::Back
    } else if w == seq![seq!['/', 'g']] {
        r == Command::GTop
    } else if w == seq![seq!['/', 'G']] {
        r == Command::GBottom
    } else if w == seq![seq!['/', 'l', 'f']] {
        r == Command::ListFunc
    } else if w.len() == 2 && w[0] == seq!['/', 's', 'e', 't'] {
        set_command(input, w[1], r)
    } else if w.len() == 2 && w[0] == seq!['/', 'j'] && parsed_usize(w[1]) is Some {
        r == Command::Jump(parsed_usize(w[1])->0)
    } else if w.len() == 2 && w[0] == seq!['/', 'f'] {
        r matches Command::Find(v) && value_of(w[1], v)
    } else if w.len() == 2 && w[0] == seq!['/', 's', 's'] {
        r matches Command::Search(v) && value_of(w[1], v)
    } else if w.len() == 2 && w[0] == seq!['/', 's'] {
        r matches Command::Fuzzy(v) && value_of(w[1], v)
    } else if w.len() == 3 && w[0] == seq!['/', 'c', 'u', 't'] && parsed_usize(w[1]) is Some {
        r matches Command::Cut(c) && c.count_of() == parsed_usize(w[1])->0 && c.path_of() == w[2]
    } else if w.len() == 4 && w[0] == seq!['/', 'c', 'u', 't'] {
        if parsed_usize(w[1]) is Some && parsed_usize(w[2]) is Some {
            r matches Command::CutSel(c) && c.start_of() == parsed_usize(w[1])->0 && c.end_of()
                == parsed_usize(w[2])->0 && c.path_of() == w[3]
        } else {
            kept
        }
    } else if w.len() == 2 && w[0] == seq!['/', 'c', 'a', 'l', 'l'] {
        r matches Command::Call(f) && f@ == w[1]
    } else if w.len() == 2 && w[0] == seq!['/', 'i'] {
        if parsed_usize(w[1]) is Some {
            r == Command::Insert(parsed_usize(w[1])->0)
        } else {
            kept
        }
    } else {
        match decoded_hex(without_white(input)) {
            Some(b) => r matches Command::HexInput(v) && v@ == b,
            None => kept,
        }
    }
}

fn is_lit(w: &Vec<Vec<char>>, n: usize, k: usize, lit: &[char]) -> (r: bool)
    requires
        k < n,
    ensures
        r == (w@.len() == n && w@[k as int]@ == lit@),
{
    if w.len() != n {
        return false;
    }
    same_chars(w[k].as_slice(), lit)
}

fn lower_matches(w: &[char], lit: &[char]) -> (r: bool)
    ensures
        r == lower_is(w@, lit@),
{
    if w.len() != lit.len() {
        return false;
    }
    let mut i: usize = 0;
    while i < w.len()
        invariant
            w@.len() == lit@.len(),
            i <= w@.len(),
            forall|j: int| 0 <= j < i ==> lowers_to(#[trigger] w@[j], lit@[j]),
        decreases w@.len() - i,
    {
        let c = w[i];
        let ok = if 'A' <= c && c <= 'Z' {
            (c as u32) + 32 == lit[i] as u32
        } else {
            c == lit[i]
        };
        if !ok {
            return false;
        }
        i = i + 1;
    }
    true
}

/// The two pieces of `v` around its only `=`, or `None` when it holds none or several.
fn split_once_eq(v: &[char]) -> (r: Option<(Vec<char>, Vec<char>)>)
    ensures
        r is Some <==> split_eq(v@).len() == 2,
        r matches Some(pq) ==> pq.0@ == split_eq(v@)[0] && pq.1@ == split_eq(v@)[1],
{
    let mut p: usize = 0;
    while p < v.len() && v[p] != '='
        invariant
            p <= v@.len(),
            forall|i: int| 0 <= i < p ==> #[trigger] v@[i] != '=',
        decreases v@.len() - p,
    {
        p = p + 1;
    }
    proof {
        lemma_eq_pos_of(v@, p as int);
    }
    if p == v.len() {
        return None;
    }
    let mut q: usize = p + 1;
    while q < v.len() && v[q] != '='
        invariant
            p < q <= v@.len(),
            forall|i: int| p < i < q ==> #[trigger] v@[i] != '=',
        decreases v@.len() - q,
    {
        q = q + 1;
    }
    let ghost rest = v@.skip(p + 1);
    proof {
        assert forall|i: int| 0 <= i < q - p - 1 implies #[trigger] rest[i] != '=' by {
            assert(rest[i] == v@[p + 1 + i]);
        }
        if q < v@.len() {
            assert(rest[q - p - 1] == v@[q as int]);
        }
        lemma_eq_pos_of(rest, q - p - 1);
    }
    if q < v.len() {
        proof {
            lemma_eq_pos(rest.skip(q - p));
            lemma_eq_pos(rest);
            let more = split_eq(rest.skip(q - p));
            assert(more.len() >= 1);
            assert(split_eq(rest) == seq![rest.take(q - p - 1)] + more);
            assert(split_eq(rest).len() >= 2);
            lemma_eq_pos(v@);
            assert(split_eq(v@) == seq![v@.take(p as int)] + split_eq(rest));
        }
        return None;
    }
    let mut a: Vec<char> = Vec::new();
    let mut i: usize = 0;
    while i < p
        invariant
            p < v@.len(),
            i <= p,
            a@ == v@.take(i as int),
        decreases p - i,
    {
        a.push(v[i]);
        i = i + 1;
        proof {
            assert(a@ =~= v@.take(i as int));
        }
    }
    let mut b: Vec<char> = Vec::new();
    let mut j: usize = p + 1;
    while j < v.len()
        invariant
            p < j <= v@.len(),
            b@ == v@.subrange(p + 1, j as int),
        decreases v@.len() - j,
    {
        b.push(v[j]);
        j = j + 1;
        proof {
            assert(b@ =~= v@.subrange(p + 1, j as int));
        }
    }
    proof {
        assert(rest =~= v@.subrange(p + 1, v@.len() as int));
        assert(split_eq(rest) == seq![rest]);
    }
    Some((a, b))
}


fn remove_whitespace(cs: &[char]) -> (r: Vec<char>)
    ensures
        r@ == without_white(cs@),
{
    let mut out: Vec<char> = Vec::new();
    let mut i: usize = 0;
    while i < cs.len()
        invariant
            i <= cs@.len(),
            out@ == without_white(cs@.take(i as int)),
        decreases cs@.len() - i,
    {
        proof {
            assert(cs@.take(i + 1).drop_last() =~= cs@.take(i as int));
        }
        if !is_whitespace(cs[i]) {
            out.push(cs[i]);
        }
        i = i + 1;
        proof {
            assert(out@ =~= without_white(cs@.take(i as int)));
        }
    }
    proof {
        assert(cs@.take(i as int) =~= cs@);
    }
    out
}

fn value_from(v: &[char]) -> (r: Value)
    ensures
        value_of(v@, r),
{
    if v.len() >= 2 && v[0] == '0' && v[1] == 'x' {
        let mut k: usize = 0;
        proof {
            assert(v@.skip(0) =~= v@);
        }
        while v.len() - k >= 2 && v[k] == '0' && v[k + 1] == 'x'
            invariant
                k <= v@.len(),
                k % 2 == 0,
                strip_hex_prefix(v@) == strip_hex_prefix(v@.skip(k as int)),
            decreases v@.len() - k,
        {
            proof {
                assert(v@.skip(k as int).skip(2) =~= v@.skip(k + 2));
            }
            k = k + 2;
        }
        proof {
            let t = v@.skip(k as int);
            if t.len() >= 2 {
                assert(t[0] == v@[k as int]);
                assert(t[1] == v@[k + 1]);
            }
            assert(strip_hex_prefix(t) == t);
        }
        let rest = &v[k..v.len()];
        proof {
            assert(rest@ =~= v@.skip(k as int));
        }
        match decode_hex_chars(rest) {
            Some(bytes) => Value::Hex(bytes),
            None => Value::Hex(Vec::new()),
        }
    } else {
        Value::Ascii(string_of(v))
    }
}

impl Command {
    /// The bytes of a hex-input command.
    pub fn get_hex_bytes(&self) -> (r: Option<&[u8]>)
        ensures
            self matches Command::HexInput(b) ==> r matches Some(x) && x@ == b@,
            !(self is HexInput) ==> r is None,
    {
        match self {
            Command::HexInput(bytes) => Some(bytes.as_slice()),
            _ => None,
        }
    }

    /// The bytes that `input`, whitespace removed, spells in hex digits; `None` unless it is
    /// an even number of hex digits.
    pub fn parse_hex_input(input: &str) -> (r: Option<Vec<u8>>)
        ensures
            r matches Some(v) ==> decoded_hex(without_white(input@)) == Some(v@),
            r is None ==> decoded_hex(without_white(input@)) is None,
    {
        let cs = chars_of(input);
        let cleaned = remove_whitespace(cs.as_slice());
        decode_hex_chars(cleaned.as_slice())
    }

    /// Reads a command line: a command word with its arguments, else hex input, else the
    /// text itself.
    pub fn parse(input: &str) -> (r: Command)
        ensures
            command_of(input@, r),
    {
        let cs = chars_of(input);
        let w = split_whitespace(cs.as_slice());
        let ghost ws = words(input@);
        proof {
            assert(w@.len() == ws.len());
        }
        if is_lit(&w, 1, 0, &['/', 'b']) {
            proof {
                assert(ws =~= seq![seq!['/', 'b']]);
            }
            return Command::Back;
        }
        if is_lit(&w, 1, 0, &['/', 'g']) {
            proof {
                assert(ws =~= seq![seq!['/', 'g']]);
            }
            return Command::GTop;
        }
        if is_lit(&w, 1, 0, &['/', 'G']) {
            proof {
                assert(ws =~= seq![seq!['/', 'G']]);
            }
            return Command::GBottom;
        }
        if is_lit(&w, 1, 0, &['/', 'l', 'f']) {
            proof {
                assert(ws =~= seq![seq!['/', 'l', 'f']]);
            }
            return Command::ListFunc;
        }
        proof {
            if ws.len() == 1 {
                assert(ws != seq![seq!['/', 'b']] ==> true);
                assert(ws[0] != seq!['/', 'b'] ==> ws != seq![seq!['/', 'b']]);
            }
        }
        if is_lit(&w, 2, 0, &['/', 's', 'e', 't']) {
            let v = w[1].as_slice();
            return match split_once_eq(v) {
                Some((a, b)) => {
                    if same_chars(a.as_slice(), &['e', 'n', 'd', 'i', 'a', 'n']) {
                        if lower_matches(b.as_slice(), &['b', 'i', 'g']) {
                            Command::SetEndian(Endian::Big)
                        } else if lower_matches(b.as_slice(), &['l', 'i', 't', 't', 'l', 'e']) {
                            Command::SetEndian(Endian::Little)
                        } else {
                            Command::StrInput(String::from_str(input))
                        }
                    } else {
                        Command::StrInput(String::from_str(input))
                    }
                },
                None => Command::StrInput(String::from_str(input)),
            };
        }
        if is_lit(&w, 2, 0, &['/', 'j']) {
            if let Some(n) = parse_usize(w[1].as_slice()) {
                return Command::Jump(n);
            }
        }
        if is_lit(&w, 2, 0, &['/', 'f']) {
            return Command::Find(value_from(w[1].as_slice()));
        }
        if is_lit(&w, 2, 0, &['/', 's', 's']) {
            return Command::Search(value_from(w[1].as_slice()));
        }
        if is_lit(&w, 2, 0, &['/', 's']) {
            return Command::Fuzzy(value_from(w[1].as_slice()));
        }
        if is_lit(&w, 3, 0, &['/', 'c', 'u', 't']) {
            if let Some(count) = parse_usize(w[1].as_slice()) {
                return Command::Cut(CutFile { count: count, filepath: string_of(w[2].as_slice()) });
            }
        }
        if is_lit(&w, 4, 0, &['/', 'c', 'u', 't']) {
            let start = parse_usize(w[1].as_slice());
            let end = parse_usize(w[2].as_slice());
            return match (start, end) {
                (Some(start), Some(end)) => Command::CutSel(
                    CutSelFile { start: start, end: end, filepath: string_of(w[3].as_slice()) },
                ),
                _ => Command::StrInput(String::from_str(input)),
            };
        }
        if is_lit(&w, 2, 0, &['/', 'c', 'a', 'l', 'l']) {
            return Command::Call(string_of(w[1].as_slice()));
        }
        if is_lit(&w, 2, 0, &['/', 'i']) {
            return match parse_usize(w[1].as_slice()) {
                Some(count) => Command::Insert(count),
                None => Command::StrInput(String::from_str(input)),
            };
        }
        match Self::parse_hex_input(input) {
            Some(bytes) => Command::HexInput(bytes),
            None => Command::StrInput(String::from_str(input)),
        }
    }
}

} // verus!
