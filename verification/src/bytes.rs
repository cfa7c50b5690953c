//! Byte-level building blocks of the lexer: whitespace trimming, comment
//! stripping, splitting a source text into lines, and decimal numerals.
use vstd::prelude::*;

verus! {

/// Whitespace that is trimmed inside a line: space and tab.
pub open spec fn is_line_ws(b: u8) -> bool {
    b == (' ' as u8) || b == ('\t' as u8)
}

pub open spec fn is_digit(b: u8) -> bool {
    ('0' as u8) <= b <= ('9' as u8)
}

/// Index of the first non-whitespace byte, or `s.len()` if all are whitespace.
pub open spec fn first_non_ws(s: Seq<u8>) -> int
    decreases s.len(),
{
    if s.len() == 0 {
        0
    } else if !is_line_ws(s[0]) {
        0
    } else {
        1 + first_non_ws(s.drop_first())
    }
}

/// Index such that everything from it on is whitespace and the byte before it
/// (if any) is not; `0` when the whole sequence is whitespace.
pub open spec fn ws_suffix_start(s: Seq<u8>) -> int
    decreases s.len(),
{
    if s.len() == 0 {
        0
    } else if !is_line_ws(s.last()) {
        s.len() as int
    } else {
        ws_suffix_start(s.drop_last())
    }
}

pub open spec fn trim_start(s: Seq<u8>) -> Seq<u8> {
    s.skip(first_non_ws(s))
}

pub open spec fn trim_end(s: Seq<u8>) -> Seq<u8> {
    s.take(ws_suffix_start(s))
}

/// Surrounding whitespace removed, as `str::trim` does for spaces and tabs.
pub open spec fn trim(s: Seq<u8>) -> Seq<u8> {
    trim_end(trim_start(s))
}

pub proof fn lemma_first_non_ws(s: Seq<u8>)
    ensures
        0 <= first_non_ws(s) <= s.len(),
        forall|j: int| 0 <= j < first_non_ws(s) ==> is_line_ws(s[j]),
        first_non_ws(s) < s.len() ==> !is_line_ws(s[first_non_ws(s)]),
    decreases s.len(),
{
    if s.len() == 0 {
    } else if !is_line_ws(s[0]) {
    } else {
        lemma_first_non_ws(s.drop_first());
        assert forall|j: int| 0 <= j < first_non_ws(s) implies is_line_ws(s[j]) by {
            if j > 0 {
                assert(is_line_ws(s.drop_first()[j - 1]));
            }
        }
    }
}

pub proof fn lemma_ws_suffix_start(s: Seq<u8>)
    ensures
        0 <= ws_suffix_start(s) <= s.len(),
        forall|j: int| ws_suffix_start(s) <= j < s.len() ==> is_line_ws(s[j]),
        ws_suffix_start(s) > 0 ==> !is_line_ws(s[ws_suffix_start(s) - 1]),
    decreases s.len(),
{
    if s.len() == 0 {
    } else if !is_line_ws(s.last()) {
    } else {
        lemma_ws_suffix_start(s.drop_last());
        assert forall|j: int| ws_suffix_start(s) <= j < s.len() implies is_line_ws(s[j]) by {
            if j < s.len() - 1 {
                assert(is_line_ws(s.drop_last()[j]));
            }
        }
    }
}

/// Position of the first `//`, or `None` if the line has no comment.
pub open spec fn find_comment(s: Seq<u8>) -> Option<int>
    decreases s.len(),
{
    if s.len() < 2 {
        Option::None
    } else if s[0] == ('/' as u8) && s[1] == ('/' as u8) {
        Option::Some(0)
    } else {
        match find_comment(s.drop_first()) {
            Option::Some(i) => Option::Some(i + 1),
            Option::None => Option::None,
        }
    }
}

pub proof fn lemma_find_comment(s: Seq<u8>)
    ensures
        match find_comment(s) {
            Option::Some(i) => {
                &&& 0 <= i
                &&& i + 1 < s.len()
                &&& s[i] == ('/' as u8)
                &&& s[i + 1] == ('/' as u8)
                &&& forall|j: int|
                    0 <= j < i ==> !(#[trigger] s[j] == ('/' as u8) && s[j + 1] == ('/' as u8))
            },
            Option::None => forall|j: int|
                0 <= j && j + 1 < s.len() ==> !(#[trigger] s[j] == ('/' as u8) && s[j + 1] == ('/' as u8)),
        },
    decreases s.len(),
{
    if s.len() < 2 {
    } else if s[0] == ('/' as u8) && s[1] == ('/' as u8) {
    } else {
        lemma_find_comment(s.drop_first());
        match find_comment(s.drop_first()) {
            Option::Some(i) => {
                assert forall|j: int| 0 <= j < i + 1 implies !(#[trigger] s[j] == ('/' as u8)
                    && s[j + 1] == ('/' as u8)) by {
                    if j > 0 {
                        assert(!(s.drop_first()[j - 1] == ('/' as u8) && s.drop_first()[j]
                            == ('/' as u8)));
                    }
                }
            },
            Option::None => {
                assert forall|j: int| 0 <= j && j + 1 < s.len() implies !(#[trigger] s[j]
                    == ('/' as u8) && s[j + 1] == ('/' as u8)) by {
                    if j > 0 {
                        assert(!(s.drop_first()[j - 1] == ('/' as u8) && s.drop_first()[j]
                            == ('/' as u8)));
                    }
                }
            },
        }
    }
}

/// Everything from the first `//` on removed.
pub open spec fn strip_comment(s: Seq<u8>) -> Seq<u8> {
    match find_comment(s) {
        Option::Some(i) => s.take(i),
        Option::None => s,
    }
}

/// A single trailing carriage return removed, as reading a `\r\n` line does.
pub open spec fn chomp_cr(s: Seq<u8>) -> Seq<u8> {
    if s.len() > 0 && s.last() == ('\r' as u8) {
        s.drop_last()
    } else {
        s
    }
}

/// Position of the first `b`, or `None`.
pub open spec fn find_byte(s: Seq<u8>, b: u8) -> Option<int>
    decreases s.len(),
{
    if s.len() == 0 {
        Option::None
    } else if s[0] == b {
        Option::Some(0)
    } else {
        match find_byte(s.drop_first(), b) {
            Option::Some(i) => Option::Some(i + 1),
            Option::None => Option::None,
        }
    }
}

pub proof fn lemma_find_byte(s: Seq<u8>, b: u8)
    ensures
        match find_byte(s, b) {
            Option::Some(i) => {
                &&& 0 <= i < s.len()
                &&& s[i] == b
                &&& forall|j: int| 0 <= j < i ==> s[j] != b
            },
            Option::None => forall|j: int| 0 <= j < s.len() ==> s[j] != b,
        },
    decreases s.len(),
{
    if s.len() == 0 {
    } else if s[0] == b {
    } else {
        lemma_find_byte(s.drop_first(), b);
        match find_byte(s.drop_first(), b) {
            Option::Some(i) => {
                assert forall|j: int| 0 <= j < i + 1 implies s[j] != b by {
                    if j > 0 {
                        assert(s.drop_first()[j - 1] != b);
                    }
                }
            },
            Option::None => {
                assert forall|j: int| 0 <= j < s.len() implies s[j] != b by {
                    if j > 0 {
                        assert(s.drop_first()[j - 1] != b);
                    }
                }
            },
        }
    }
}

/// The source text as a sequence of lines, split on `\n`; the terminators are
/// not part of the lines.
pub open spec fn split_lines(s: Seq<u8>) -> Seq<Seq<u8>>
    decreases s.len(),
{
    match find_byte(s, '\n' as u8) {
        Option::None => seq![s],
        Option::Some(i) => if 0 <= i < s.len() {
            seq![s.take(i)] + split_lines(s.skip(i + 1))
        } else {
            seq![s]
        },
    }
}

/// The value of a string of decimal digits (most significant first).
pub open spec fn numeral_value(s: Seq<u8>) -> int
    decreases s.len(),
{
    if s.len() == 0 {
        0
    } else {
        numeral_value(s.drop_last()) * 10 + (s.last() - ('0' as u8))
    }
}

pub open spec fn all_digits(s: Seq<u8>) -> bool {
    forall|j: int| 0 <= j < s.len() ==> is_digit(s[j])
}

/// A symbol that the encoder reads as a plain address: a non-empty string of
/// digits whose value fits in 15 bits.
pub open spec fn is_numeric_symbol(s: Seq<u8>) -> bool {
    s.len() > 0 && all_digits(s) && numeral_value(s) <= 32767
}

/// Extending an all-digit prefix with further digits can only grow the value.
pub proof fn lemma_numeral_value_prefix(s: Seq<u8>, i: int)
    requires
        0 <= i <= s.len(),
        forall|j: int| i <= j < s.len() ==> is_digit(s[j]),
        numeral_value(s.take(i)) >= 0,
    ensures
        numeral_value(s) >= numeral_value(s.take(i)),
    decreases s.len() - i,
{
    if i == s.len() {
        assert(s.take(i) =~= s);
    } else {
        assert(s.take(i + 1).drop_last() =~= s.take(i));
        assert(s.take(i + 1).last() == s[i]);
        assert(is_digit(s[i]));
        assert(numeral_value(s.take(i + 1)) == numeral_value(s.take(i)) * 10 + (s[i] - ('0' as u8)));
        lemma_numeral_value_prefix(s, i + 1);
    }
}

/// Copy of `v[from..to]`.
pub fn subvec(v: &Vec<u8>, from: usize, to: usize) -> (r: Vec<u8>)
    requires
        from <= to <= v.len(),
    ensures
        r@ == v@.subrange(from as int, to as int),
{
    let mut r: Vec<u8> = Vec::new();
    let mut i: usize = from;
    while i < to
        invariant
            from <= i <= to <= v.len(),
            r@ == v@.subrange(from as int, i as int),
        decreases to - i,
    {
        r.push(v[i]);
        assert(v@.subrange(from as int, i + 1 as int) =~= v@.subrange(from as int, i as int).push(
            v@[i as int],
        ));
        i += 1;
    }
    r
}

/// A copy of the byte string.
pub fn copy_bytes(v: &Vec<u8>) -> (r: Vec<u8>)
    ensures
        r@ == v@,
{
    let r = subvec(v, 0, v.len());
    proof {
        assert(v@.subrange(0, v@.len() as int) =~= v@);
    }
    r
}

/// Whether the two byte strings are equal.
pub fn bytes_eq(a: &Vec<u8>, b: &Vec<u8>) -> (r: bool)
    ensures
        r == (a@ == b@),
{
    if a.len() != b.len() {
        return false;
    }
    let mut i: usize = 0;
    while i < a.len()
        invariant
            0 <= i <= a.len(),
            a.len() == b.len(),
            forall|j: int| 0 <= j < i ==> a@[j] == b@[j],
        decreases a.len() - i,
    {
        if a[i] != b[i] {
            return false;
        }
        i += 1;
    }
    assert(a@ =~= b@);
    true
}

/// First position of two adjacent slashes before `limit`, if any.
fn find_two_slashes(v: &Vec<u8>, limit: usize) -> (r: Option<usize>)
    requires
        limit <= v.len(),
    ensures
        match r {
            Option::Some(i) => {
                &&& i + 1 < limit
                &&& v@[i as int] == ('/' as u8)
                &&& v@[i + 1] == ('/' as u8)
                &&& forall|j: int|
                    0 <= j < i ==> !(#[trigger] v@[j] == ('/' as u8) && v@[j + 1] == ('/' as u8))
            },
            Option::None => forall|j: int|
                0 <= j && j + 1 < limit ==> !(#[trigger] v@[j] == ('/' as u8) && v@[j + 1] == ('/' as u8)),
        },
{
    let mut i: usize = 0;
    while limit - i > 1
        invariant
            limit <= v.len(),
            0 <= i <= limit,
            forall|j: int| 0 <= j < i ==> !(#[trigger] v@[j] == ('/' as u8) && v@[j + 1] == ('/' as u8)),
        decreases limit - i,
    {
        if v[i] == ('/' as u8) && v[i + 1] == ('/' as u8) {
            return Some(i);
        }
        i += 1;
    }
    None
}

/// Comment stripped and surrounding whitespace trimmed, the cleaning every
/// raw line goes through.
#[verifier::rlimit(60)]
pub fn clean_line_bytes(line: &Vec<u8>) -> (r: Vec<u8>)
    ensures
        r@ == trim(strip_comment(chomp_cr(line@))),
{
    // one trailing carriage return goes first
    let chomped_len: usize = if line.len() > 0 && line[line.len() - 1] == ('\r' as u8) {
        line.len() - 1
    } else {
        line.len()
    };
    let ghost ch = chomp_cr(line@);
    proof {
        assert(ch =~= line@.take(chomped_len as int));
    }
    // then everything from the first `//` on
    let slashes = find_two_slashes(line, chomped_len);
    let end: usize = match slashes {
        Some(i) => i,
        None => chomped_len,
    };
    proof {
        lemma_find_comment(ch);
        match slashes {
            Option::Some(i) => {
                assert(ch[i as int] == ('/' as u8) && ch[i + 1] == ('/' as u8));
                match find_comment(ch) {
                    Option::Some(k) => {
                        if k < i {
                            assert(!(ch[k] == ('/' as u8) && ch[k + 1] == ('/' as u8)));
                        }
                        if k > i {
                            assert(!(ch[i as int] == ('/' as u8) && ch[i + 1] == ('/' as u8)));
                        }
                        assert(k == i);
                    },
                    Option::None => {
                        assert(!(ch[i as int] == ('/' as u8) && ch[i + 1] == ('/' as u8)));
                    },
                }
                assert(strip_comment(ch) == ch.take(i as int));
            },
            Option::None => {
                match find_comment(ch) {
                    Option::Some(k) => {
                        assert(!(ch[k] == ('/' as u8) && ch[k + 1] == ('/' as u8)));
                    },
                    Option::None => {},
                }
                assert(strip_comment(ch) == ch);
                assert(ch =~= ch.take(end as int));
            },
        }
    }
    let ghost st = strip_comment(ch);
    proof {
        assert(st == ch.take(end as int));
        assert(st =~= line@.take(end as int));
    }
    // and surrounding spaces and tabs last
    let mut lo: usize = 0;
    while lo < end && (line[lo] == (' ' as u8) || line[lo] == ('\t' as u8))
        invariant
            0 <= lo <= end <= line.len(),
            forall|j: int| 0 <= j < lo ==> is_line_ws(st[j]),
            st == line@.take(end as int),
        decreases end - lo,
    {
        lo += 1;
    }
    let mut hi: usize = end;
    while hi > lo && (line[hi - 1] == (' ' as u8) || line[hi - 1] == ('\t' as u8))
        invariant
            lo <= hi <= end <= line.len(),
            forall|j: int| hi <= j < end ==> is_line_ws(st[j]),
            st == line@.take(end as int),
        decreases hi,
    {
        hi -= 1;
    }
    proof {
        lemma_first_non_ws(st);
        let f = first_non_ws(st);
        if f < lo {
            assert(!is_line_ws(st[f]));
            assert(is_line_ws(st[f]));
        }
        if f > lo {
            assert(lo < st.len());
            assert(!is_line_ws(st[lo as int]));
            assert(is_line_ws(st[lo as int]));
        }
        assert(f == lo);
        let t = trim_start(st);
        assert(t =~= line@.subrange(lo as int, end as int));
        lemma_ws_suffix_start(t);
        let h = ws_suffix_start(t);
        assert(t.len() == end - lo);
        if h < hi - lo {
            if hi > lo {
                assert(!is_line_ws(st[hi - 1]));
                assert(t[hi - lo - 1] == st[hi - 1]);
                assert(is_line_ws(t[hi - lo - 1]));
            }
        }
        if h > hi - lo {
            assert(!is_line_ws(t[h - 1]));
            assert(st[lo + h - 1] == t[h - 1]);
            assert(is_line_ws(st[lo + h - 1]));
        }
        assert(h == hi - lo);
        assert(trim_end(t) =~= line@.subrange(lo as int, hi as int));
    }
    subvec(line, lo, hi)
}


/// Position of the first `b` at or after `from`, if any.
pub fn find_byte_from(v: &Vec<u8>, b: u8, from: usize) -> (r: Option<usize>)
    requires
        from <= v.len(),
    ensures
        match r {
            Option::Some(i) => {
                &&& from <= i < v.len()
                &&& v@[i as int] == b
                &&& forall|j: int| from <= j < i ==> v@[j] != b
            },
            Option::None => forall|j: int| from <= j < v.len() ==> v@[j] != b,
        },
{
    let mut i: usize = from;
    while i < v.len()
        invariant
            from <= i <= v.len(),
            forall|j: int| from <= j < i ==> v@[j] != b,
        decreases v.len() - i,
    {
        if v[i] == b {
            return Some(i);
        }
        i += 1;
    }
    None
}

/// Surrounding spaces and tabs removed.
pub fn trim_bytes(v: &Vec<u8>) -> (r: Vec<u8>)
    ensures
        r@ == trim(v@),
{
    let mut lo: usize = 0;
    while lo < v.len() && (v[lo] == (' ' as u8) || v[lo] == ('\t' as u8))
        invariant
            0 <= lo <= v.len(),
            forall|j: int| 0 <= j < lo ==> is_line_ws(v@[j]),
        decreases v.len() - lo,
    {
        lo += 1;
    }
    let mut hi: usize = v.len();
    while hi > lo && (v[hi - 1] == (' ' as u8) || v[hi - 1] == ('\t' as u8))
        invariant
            lo <= hi <= v.len(),
            forall|j: int| hi <= j < v.len() ==> is_line_ws(v@[j]),
        decreases hi,
    {
        hi -= 1;
    }
    proof {
        lemma_first_non_ws(v@);
        let f = first_non_ws(v@);
        if f < lo {
            assert(is_line_ws(v@[f]));
        }
        if f > lo {
            assert(is_line_ws(v@[lo as int]));
        }
        assert(f == lo);
        let t = trim_start(v@);
        assert(t =~= v@.subrange(lo as int, v@.len() as int));
        lemma_ws_suffix_start(t);
        let h = ws_suffix_start(t);
        if h < hi - lo {
            assert(hi > lo);
            assert(!is_line_ws(v@[hi - 1]));
            assert(is_line_ws(t[hi - lo - 1]));
        }
        if h > hi - lo {
            assert(!is_line_ws(t[h - 1]));
            assert(is_line_ws(v@[lo + h - 1]));
        }
        assert(h == hi - lo);
        assert(trim_end(t) =~= v@.subrange(lo as int, hi as int));
    }
    subvec(v, lo, hi)
}

} // verus!
