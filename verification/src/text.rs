use vstd::prelude::*;
use vstd::string::StrSliceExecFns;

verus! {

/// The whitespace characters this library's trims strip.
pub open spec fn is_space(c: char) -> bool {
    c == ' ' || c == '\t' || c == '\n' || c == '\r' || c == '\x0b' || c == '\x0c'
}

/// The same whitespace, read on raw bytes.
pub open spec fn is_space_byte(b: u8) -> bool {
    b == 32 || b == 9 || b == 10 || b == 13 || b == 11 || b == 12
}

/// `s` with leading and trailing whitespace dropped.
pub open spec fn trim_chars(s: Seq<char>) -> Seq<char>
    decreases s.len(),
{
    if s.len() == 0 {
        s
    } else if is_space(s[0]) {
        trim_chars(s.drop_first())
    } else if is_space(s.last()) {
        trim_chars(s.drop_last())
    } else {
        s
    }
}

/// `b` with leading and trailing whitespace bytes dropped.
pub open spec fn trim_bytes(b: Seq<u8>) -> Seq<u8>
    decreases b.len(),
{
    if b.len() == 0 {
        b
    } else if is_space_byte(b[0]) {
        trim_bytes(b.drop_first())
    } else if is_space_byte(b.last()) {
        trim_bytes(b.drop_last())
    } else {
        b
    }
}

/// A trim is the subrange that is left once a whitespace prefix and
/// suffix are cut away.
proof fn lemma_trim_is_subrange(s: Seq<char>, lo: int, hi: int)
    requires
        0 <= lo <= hi <= s.len(),
        forall|i: int| 0 <= i < lo ==> is_space(#[trigger] s[i]),
        forall|i: int| hi <= i < s.len() ==> is_space(#[trigger] s[i]),
        lo < hi ==> !is_space(s[lo]) && !is_space(s[hi - 1]),
        lo == hi ==> lo == s.len(),
    ensures
        trim_chars(s) =~= s.subrange(lo, hi),
    decreases s.len(),
{
    if s.len() == 0 {
    } else if is_space(s[0]) {
        lemma_trim_is_subrange(s.drop_first(), lo - 1, hi - 1);
        assert(s.drop_first().subrange(lo - 1, hi - 1) =~= s.subrange(lo, hi));
    } else if is_space(s.last()) {
        lemma_trim_is_subrange(s.drop_last(), lo, hi);
        assert(s.drop_last().subrange(lo, hi) =~= s.subrange(lo, hi));
    } else {
        assert(s.subrange(lo, hi) =~= s);
    }
}

/// The byte-level twin of `lemma_trim_is_subrange`.
pub proof fn lemma_trim_bytes_is_subrange(b: Seq<u8>, lo: int, hi: int)
    requires
        0 <= lo <= hi <= b.len(),
        forall|i: int| 0 <= i < lo ==> is_space_byte(#[trigger] b[i]),
        forall|i: int| hi <= i < b.len() ==> is_space_byte(#[trigger] b[i]),
        lo < hi ==> !is_space_byte(b[lo]) && !is_space_byte(b[hi - 1]),
        lo == hi ==> lo == b.len(),
    ensures
        trim_bytes(b) =~= b.subrange(lo, hi),
    decreases b.len(),
{
    if b.len() == 0 {
    } else if is_space_byte(b[0]) {
        lemma_trim_bytes_is_subrange(b.drop_first(), lo - 1, hi - 1);
        assert(b.drop_first().subrange(lo - 1, hi - 1) =~= b.subrange(lo, hi));
    } else if is_space_byte(b.last()) {
        lemma_trim_bytes_is_subrange(b.drop_last(), lo, hi);
        assert(b.drop_last().subrange(lo, hi) =~= b.subrange(lo, hi));
    } else {
        assert(b.subrange(lo, hi) =~= b);
    }
}

/// Whether `b` is one of the whitespace bytes the trims strip.
pub fn is_space_byte_exec(b: u8) -> (r: bool)
    ensures
        r == is_space_byte(b),
{
    b == 32 || b == 9 || b == 10 || b == 13 || b == 11 || b == 12
}

/// Whether `c` is one of the whitespace characters the trims strip.
pub fn is_space_char(c: char) -> (r: bool)
    ensures
        r == is_space(c),
{
    c == ' ' || c == '\t' || c == '\n' || c == '\r' || c == '\x0b' || c == '\x0c'
}

/// `s` without its whitespace prefix and suffix.
pub fn trim_str<'a>(s: &'a str) -> (r: &'a str)
    ensures
        r@ == trim_chars(s@),
{
    let n = s.unicode_len();
    let mut lo: usize = 0;
    while lo < n && is_space_char(s.get_char(lo))
        invariant
            lo <= n,
            n == s@.len(),
            forall|i: int| 0 <= i < lo ==> is_space(#[trigger] s@[i]),
        decreases n - lo,
    {
        lo = lo + 1;
    }
    if lo == n {
        proof {
            lemma_trim_is_subrange(s@, n as int, n as int);
        }
        return s.substring_char(n, n);
    }
    let mut hi: usize = n;
    while hi > lo && is_space_char(s.get_char(hi - 1))
        invariant
            lo <= hi <= n,
            n == s@.len(),
            forall|i: int| hi <= i < n ==> is_space(#[trigger] s@[i]),
        decreases hi,
    {
        hi = hi - 1;
    }
    proof {
        lemma_trim_is_subrange(s@, lo as int, hi as int);
    }
    s.substring_char(lo, hi)
}

/// `s` with the carriage return that closed its source line dropped:
/// that byte belongs to the line ending, not to the value.
pub open spec fn chomp_cr_chars(s: Seq<char>) -> Seq<char> {
    if s.len() > 0 && s.last() == '\r' {
        s.drop_last()
    } else {
        s
    }
}

/// Drop one trailing carriage return, if any.
pub fn chomp_cr_str(s: &str) -> (r: String)
    ensures
        r@ == chomp_cr_chars(s@),
{
    let n = s.unicode_len();
    if n > 0 && s.get_char(n - 1) == '\r' {
        let head = s.substring_char(0, n - 1);
        proof {
            assert(s@.subrange(0, n as int - 1) =~= s@.drop_last());
        }
        head.to_owned()
    } else {
        s.to_owned()
    }
}

/// Whether two string slices spell the same characters.
pub fn str_eq(a: &str, b: &str) -> (r: bool)
    ensures
        r == (a@ == b@),
{
    let n = a.unicode_len();
    if n != b.unicode_len() {
        return false;
    }
    let mut i: usize = 0;
    while i < n
        invariant
            i <= n,
            n == a@.len() == b@.len(),
            forall|j: int| 0 <= j < i ==> a@[j] == b@[j],
        decreases n - i,
    {
        if a.get_char(i) != b.get_char(i) {
            return false;
        }
        i = i + 1;
    }
    proof {
        assert(a@ =~= b@);
    }
    true
}

/// An upper-case ASCII letter byte folded to lower case; all else
/// unchanged.
pub open spec fn lower_byte(b: u8) -> u8 {
    if 65 <= b && b <= 90 {
        (b + 32) as u8
    } else {
        b
    }
}

/// `s` folded byte-wise to ASCII lower case.
pub open spec fn lower_bytes(s: Seq<u8>) -> Seq<u8> {
    s.map_values(|b: u8| lower_byte(b))
}

/// The ASCII lower-case fold of one byte.
pub fn lower_byte_exec(b: u8) -> (r: u8)
    ensures
        r == lower_byte(b),
{
    if 65 <= b && b <= 90 {
        b + 32
    } else {
        b
    }
}

/// An upper-case ASCII letter folded to lower case; all else unchanged.
pub open spec fn lower_char(c: char) -> char {
    if 'A' <= c && c <= 'Z' {
        (((c as u32) + 32) as char)
    } else {
        c
    }
}

/// `s` folded to lower case, ASCII letters only.
pub open spec fn lower_chars(s: Seq<char>) -> Seq<char> {
    s.map_values(|c: char| lower_char(c))
}

/// The ASCII lower-case fold of one character.
pub fn lower_char_exec(c: char) -> (r: char)
    ensures
        r == lower_char(c),
{
    if 'A' <= c && c <= 'Z' {
        (((c as u32) + 32) as u8) as char
    } else {
        c
    }
}

/// Whether `s`, trimmed and folded to ASCII lower case, spells `word`.
pub fn trimmed_lower_is(s: &str, word: &str) -> (r: bool)
    ensures
        r == (lower_chars(trim_chars(s@)) == word@),
{
    let t = trim_str(s);
    let n = t.unicode_len();
    if n != word.unicode_len() {
        proof {
            assert(lower_chars(trim_chars(s@)).len() == trim_chars(s@).len());
        }
        return false;
    }
    let mut i: usize = 0;
    while i < n
        invariant
            i <= n,
            t@ == trim_chars(s@),
            n == t@.len() == word@.len(),
            forall|j: int| 0 <= j < i ==> lower_char(#[trigger] t@[j]) == word@[j],
        decreases n - i,
    {
        if lower_char_exec(t.get_char(i)) != word.get_char(i) {
            proof {
                assert(lower_chars(t@)[i as int] != word@[i as int]);
            }
            return false;
        }
        i = i + 1;
    }
    proof {
        assert(lower_chars(trim_chars(s@)) =~= word@);
    }
    true
}

} // verus!
