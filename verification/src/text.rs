//! Byte-level text primitives: searching a UTF-8 encoded string for a
//! substring, cutting it at byte offsets, and gluing strings together.
//!
//! Every text is modelled by its UTF-8 encoding (`encode_utf8` of its
//! characters), so that byte offsets mean exactly what `str::find` and
//! `&s[a..b]` mean in Rust.
use vstd::prelude::*;
use vstd::utf8::*;

verus! {

broadcast use vstd::utf8::group_utf8_lib;

/// The UTF-8 bytes of a character sequence.
pub open spec fn utf8(s: Seq<char>) -> Seq<u8> {
    encode_utf8(s)
}

/// `needle` occurs in `hay` starting at byte `i`.
pub open spec fn occurs_at(hay: Seq<u8>, needle: Seq<u8>, i: int) -> bool {
    &&& 0 <= i
    &&& i + needle.len() <= hay.len()
    &&& hay.subrange(i, i + needle.len()) == needle
}

/// `i` is the leftmost start of an occurrence of `needle` in `hay`.
pub open spec fn is_first_occurrence(hay: Seq<u8>, needle: Seq<u8>, i: int) -> bool {
    &&& occurs_at(hay, needle, i)
    &&& forall|j: int| 0 <= j < i ==> !occurs_at(hay, needle, j)
}

/// `i` is the rightmost start of an occurrence of `needle` in `hay`.
pub open spec fn is_last_occurrence(hay: Seq<u8>, needle: Seq<u8>, i: int) -> bool {
    &&& occurs_at(hay, needle, i)
    &&& forall|j: int| i < j ==> !occurs_at(hay, needle, j)
}

/// What `str::find` returns: the byte offset of the leftmost occurrence.
pub open spec fn find_first(hay: Seq<u8>, needle: Seq<u8>) -> Option<int> {
    if exists|i: int| is_first_occurrence(hay, needle, i) {
        Some(choose|i: int| is_first_occurrence(hay, needle, i))
    } else {
        None
    }
}

/// What `str::rfind` returns: the byte offset of the rightmost occurrence.
pub open spec fn find_last(hay: Seq<u8>, needle: Seq<u8>) -> Option<int> {
    if exists|i: int| is_last_occurrence(hay, needle, i) {
        Some(choose|i: int| is_last_occurrence(hay, needle, i))
    } else {
        None
    }
}

/// `needle` occurs somewhere in `hay` (what `str::contains` answers).
pub open spec fn contains_bytes(hay: Seq<u8>, needle: Seq<u8>) -> bool {
    exists|i: int| occurs_at(hay, needle, i)
}


/// `&s[a..b]` does not panic: the range is ordered, in bounds, and both ends
/// are character boundaries.
pub open spec fn can_cut(s: Seq<char>, a: int, b: int) -> bool {
    &&& 0 <= a <= b
    &&& is_char_boundary(utf8(s), a)
    &&& is_char_boundary(utf8(s), b)
}

/// A `Result` of strings seen through the UTF-8 bytes of its `Ok` text and
/// the characters of its error message.
pub open spec fn outcome(r: Result<String, String>) -> Result<Seq<u8>, Seq<char>> {
    match r {
        Ok(s) => Ok(utf8(s@)),
        Err(e) => Err(e@),
    }
}

/// Every character is ASCII, and so is every byte of the encoding.
pub proof fn lemma_ascii_utf8(c: Seq<char>)
    requires
        is_ascii_chars(c),
    ensures
        utf8(c).len() == c.len(),
        forall|k: int| 0 <= k < c.len() ==> #[trigger] utf8(c)[k] == c[k] as u8,
        forall|k: int| 0 <= k < c.len() ==> #[trigger] utf8(c)[k] < 0x80,
{
    is_ascii_chars_encode_utf8(c);
    assert forall|k: int| 0 <= k < c.len() implies #[trigger] utf8(c)[k] < 0x80 by {
        assert(c[k] as u8 == utf8(c)[k]);
    }
}

/// Encoding distributes over concatenation.
pub proof fn lemma_utf8_concat(a: Seq<char>, b: Seq<char>)
    ensures
        utf8(a + b) == utf8(a) + utf8(b),
    decreases a.len(),
{
    if a.len() == 0 {
        assert(a + b =~= b);
    } else {
        lemma_utf8_concat(a.drop_first(), b);
        assert((a + b).drop_first() =~= a.drop_first() + b);
        assert(utf8(a + b) =~= encode_scalar(a[0] as u32) + utf8(a.drop_first() + b));
    }
}

pub proof fn lemma_first_unique(hay: Seq<u8>, needle: Seq<u8>, i: int)
    requires
        is_first_occurrence(hay, needle, i),
    ensures
        find_first(hay, needle) == Some(i),
{
    let k = choose|k: int| is_first_occurrence(hay, needle, k);
    assert(is_first_occurrence(hay, needle, k));
    if k < i {
        assert(!occurs_at(hay, needle, k));
    }
    if i < k {
        assert(!occurs_at(hay, needle, i));
    }
}

pub proof fn lemma_last_unique(hay: Seq<u8>, needle: Seq<u8>, i: int)
    requires
        is_last_occurrence(hay, needle, i),
    ensures
        find_last(hay, needle) == Some(i),
{
    let k = choose|k: int| is_last_occurrence(hay, needle, k);
    assert(is_last_occurrence(hay, needle, k));
    if k < i {
        assert(!occurs_at(hay, needle, i));
    }
    if i < k {
        assert(!occurs_at(hay, needle, k));
    }
}

/// Whether `needle` occurs in `hay` at byte `i`.
fn occurs_at_exec(hay: &[u8], needle: &[u8], i: usize) -> (r: bool)
    requires
        i + needle@.len() <= hay@.len(),
    ensures
        r == occurs_at(hay@, needle@, i as int),
{
    let n = needle.len();
    let hl = hay.len();
    let mut k: usize = 0;
    while k < n
        invariant
            i + n <= hay@.len(),
            hl == hay@.len(),
            n == needle@.len(),
            k <= n,
            forall|m: int| 0 <= m < k ==> hay@[i + m] == needle@[m],
        decreases n - k,
    {
        if hay[i + k] != needle[k] {
            assert(hay@.subrange(i as int, i + n)[k as int] != needle@[k as int]);
            return false;
        }
        k = k + 1;
    }
    assert(hay@.subrange(i as int, i + n) =~= needle@);
    true
}

/// Byte offset of the leftmost occurrence of `needle` in `hay`.
pub fn find_bytes(hay: &[u8], needle: &[u8]) -> (r: Option<usize>)
    ensures
        match r {
            Some(i) => find_first(hay@, needle@) == Some(i as int),
            None => find_first(hay@, needle@) is None,
        },
        r is Some <==> contains_bytes(hay@, needle@),
{
    if needle.len() > hay.len() {
        assert forall|j: int| !occurs_at(hay@, needle@, j) by {}
        return None;
    }
    if needle.len() == 0 {
        assert(hay@.subrange(0, 0) =~= needle@);
        proof {
            lemma_first_unique(hay@, needle@, 0);
        }
        return Some(0);
    }
    let last = hay.len() - needle.len();
    let hl = hay.len();
    let mut i: usize = 0;
    while i <= last
        invariant
            hl == hay@.len(),
            last + needle@.len() == hay@.len(),
            needle@.len() > 0,
            i <= last + 1,
            forall|j: int| 0 <= j < i ==> !occurs_at(hay@, needle@, j),
        decreases last + 1 - i,
    {
        if occurs_at_exec(hay, needle, i) {
            proof {
                lemma_first_unique(hay@, needle@, i as int);
            }
            return Some(i);
        }
        i = i + 1;
    }
    assert forall|j: int| !occurs_at(hay@, needle@, j) by {}
    None
}

/// Byte offset of the rightmost occurrence of `needle` in `hay`.
pub fn rfind_bytes(hay: &[u8], needle: &[u8]) -> (r: Option<usize>)
    ensures
        match r {
            Some(i) => find_last(hay@, needle@) == Some(i as int),
            None => find_last(hay@, needle@) is None,
        },
        r is Some <==> contains_bytes(hay@, needle@),
{
    if needle.len() > hay.len() {
        assert forall|j: int| !occurs_at(hay@, needle@, j) by {}
        return None;
    }
    if needle.len() == 0 {
        let end = hay.len();
        assert(hay@.subrange(end as int, end as int) =~= needle@);
        proof {
            lemma_last_unique(hay@, needle@, end as int);
        }
        return Some(end);
    }
    let mut i: usize = hay.len() - needle.len() + 1;
    while i > 0
        invariant
            i + needle@.len() <= hay@.len() + 1,
            forall|j: int| i <= j ==> !occurs_at(hay@, needle@, j),
        decreases i,
    {
        if occurs_at_exec(hay, needle, i - 1) {
            proof {
                lemma_last_unique(hay@, needle@, i - 1);
            }
            return Some(i - 1);
        }
        i = i - 1;
    }
    assert forall|j: int| !occurs_at(hay@, needle@, j) by {}
    None
}

/// In valid UTF-8, the bytes that follow a leading byte of width `w` are the
/// `w - 1` continuation bytes of that character.
proof fn lemma_boundary_after_ascii(bytes: Seq<u8>, i: int)
    requires
        valid_utf8(bytes),
        0 <= i < bytes.len(),
        bytes[i] < 0x80,
    ensures
        is_char_boundary(bytes, i + 1),
    decreases bytes.len(),
{
    let w = length_of_first_scalar(bytes);
    let rest = pop_first_scalar(bytes);
    if i == 0 {
        assert(w == 1);
        assert(is_char_boundary(rest, 0));
    } else {
        assert(1 <= w <= 4);
        if i < w {
            assert(is_continuation_byte(bytes[i]));
        }
        assert(i >= w);
        assert(rest =~= bytes.subrange(w, bytes.len() as int));
        assert(rest[i - w] == bytes[i]);
        lemma_boundary_after_ascii(rest, i - w);
    }
}

/// The offset just after an ASCII byte is a character boundary.
pub proof fn lemma_after_ascii_is_boundary(s: Seq<char>, i: int)
    requires
        0 <= i < utf8(s).len(),
        utf8(s)[i] < 0x80,
    ensures
        is_char_boundary(utf8(s), i + 1),
{
    lemma_boundary_after_ascii(utf8(s), i);
}

/// The offset of an ASCII byte is a character boundary.
pub proof fn lemma_ascii_is_boundary(s: Seq<char>, i: int)
    requires
        0 <= i < utf8(s).len(),
        utf8(s)[i] < 0x80,
    ensures
        is_char_boundary(utf8(s), i),
{
    is_char_boundary_iff_not_is_continuation_byte(utf8(s), i);
}

/// Whether `&s[a..b]` can be taken: `a <= b`, both on character
/// boundaries.
pub fn can_cut_exec(s: &str, a: usize, b: usize) -> (r: bool)
    ensures
        r == can_cut(s@, a as int, b as int),
{
    a <= b && s.is_char_boundary(a) && s.is_char_boundary(b)
}

/// `&s[a..b]` as an owned string.
pub fn cut_exec(s: &str, a: usize, b: usize) -> (r: String)
    requires
        can_cut(s@, a as int, b as int),
    ensures
        utf8(r@) == utf8(s@).subrange(a as int, b as int),
{
    let ghost bytes = utf8(s@);
    proof {
        assert(b <= bytes.len());
        assert(valid_utf8(bytes));
    }
    let (left, _) = s.split_at(b);
    let ghost lb = bytes.subrange(0, b as int);
    proof {
        assert(encode_utf8(left@) =~= lb);
        assert(valid_utf8(lb));
        if 0 < a < b {
            assert(lb[a as int] == bytes[a as int]);
            is_char_boundary_iff_not_is_continuation_byte(bytes, a as int);
            is_char_boundary_iff_not_is_continuation_byte(lb, a as int);
            assert(is_char_boundary(lb, a as int));
        } else if a == 0 {
        } else {
            assert(is_char_boundary(lb, lb.len() as int));
        }
    }
    let (_, piece) = left.split_at(a);
    proof {
        assert(encode_utf8(piece@) =~= bytes.subrange(a as int, b as int));
    }
    piece.to_owned()
}


/// The bytes of `s` with every occurrence of `pat` taken out, scanning from
/// the left without overlaps: what `str::replace(pat, "")` leaves.
pub open spec fn remove_matches(s: Seq<u8>, pat: Seq<u8>) -> Seq<u8>
    decreases s.len(),
{
    if pat.len() == 0 || s.len() == 0 {
        s
    } else if occurs_at(s, pat, 0) {
        remove_matches(s.skip(pat.len() as int), pat)
    } else {
        seq![s[0]] + remove_matches(s.skip(1), pat)
    }
}

/// Up to the first occurrence, removal keeps the bytes as they are.
proof fn lemma_remove_prefix(s: Seq<u8>, pat: Seq<u8>, k: int)
    requires
        pat.len() > 0,
        0 <= k <= s.len(),
        forall|j: int| 0 <= j < k ==> !occurs_at(s, pat, j),
    ensures
        remove_matches(s, pat) == s.take(k) + remove_matches(s.skip(k), pat),
    decreases k,
{
    if k == 0 {
        assert(s.take(0) + s.skip(0) =~= s.skip(0));
        assert(s.skip(0) =~= s);
    } else {
        let t = s.skip(1);
        assert forall|j: int| 0 <= j < k - 1 implies !occurs_at(t, pat, j) by {
            if occurs_at(t, pat, j) {
                assert(s.subrange(j + 1, j + 1 + pat.len()) =~= t.subrange(j, j + pat.len()));
                assert(occurs_at(s, pat, j + 1));
            }
        }
        lemma_remove_prefix(t, pat, k - 1);
        assert(!occurs_at(s, pat, 0));
        assert(t.skip(k - 1) =~= s.skip(k));
        assert(seq![s[0]] + t.take(k - 1) =~= s.take(k));
        assert(seq![s[0]] + (t.take(k - 1) + remove_matches(s.skip(k), pat)) =~= s.take(k)
            + remove_matches(s.skip(k), pat));
    }
}

/// `s` with every occurrence of the ASCII text `pat` removed.
pub fn remove_all(s: &str, pat: &str) -> (r: String)
    requires
        pat@.len() > 0,
        is_ascii_chars(pat@),
    ensures
        utf8(r@) == remove_matches(utf8(s@), utf8(pat@)),
{
    let bytes = s.as_bytes();
    let pb = pat.as_bytes();
    let len = bytes.len();
    let plen = pb.len();
    let ghost sb = utf8(s@);
    let ghost p = utf8(pat@);
    proof {
        lemma_ascii_utf8(pat@);
        assert(sb.skip(0) =~= sb);
    }
    let mut out = String::new();
    let mut pos: usize = 0;
    assert(utf8(out@) =~= Seq::<u8>::empty()) by {
        assert(out@ =~= Seq::<char>::empty());
    }
    while pos < len
        invariant
            sb == utf8(s@),
            p == utf8(pat@),
            bytes@ == sb,
            pb@ == p,
            len == sb.len(),
            plen == p.len(),
            p.len() == pat@.len(),
            p.len() > 0,
            forall|k: int| 0 <= k < p.len() ==> #[trigger] p[k] < 0x80,
            pos <= len,
            is_char_boundary(sb, pos as int),
            valid_utf8(sb),
            utf8(out@) + remove_matches(sb.skip(pos as int), p) == remove_matches(sb, p),
        decreases len - pos,
    {
        let rest = vstd::slice::slice_subrange(bytes, pos, len);
        let ghost tail = sb.skip(pos as int);
        assert(rest@ =~= tail);
        match find_bytes(rest, pb) {
            None => {
                proof {
                    assert forall|j: int| 0 <= j < tail.len() implies !occurs_at(tail, p, j) by {}
                    lemma_remove_prefix(tail, p, tail.len() as int);
                    assert(tail.skip(tail.len() as int) =~= Seq::<u8>::empty());
                    assert(remove_matches(tail.skip(tail.len() as int), p) =~= Seq::<u8>::empty());
                    assert(tail.take(tail.len() as int) =~= tail);
                    assert(remove_matches(tail, p) =~= tail);
                    is_char_boundary_start_end_of_seq(sb);
                    assert(is_char_boundary(sb, len as int));
                }
                let piece = cut_exec(s, pos, len);
                let ghost before = out@;
                out.append(piece.as_str());
                proof {
                    lemma_utf8_concat(before, piece@);
                    assert(sb.subrange(pos as int, len as int) =~= tail);
                    assert(utf8(out@) =~= remove_matches(sb, p));
                }
                return out;
            },
            Some(k) => {
                let ghost kk = k as int;
                proof {
                    let w = choose|i: int| is_first_occurrence(tail, p, i);
                    assert(is_first_occurrence(tail, p, w));
                    assert(w == kk);
                    lemma_remove_prefix(tail, p, kk);
                    assert(tail.subrange(kk, kk + p.len()) == p);
                    assert(sb[pos + kk] == tail[kk]);
                    assert(tail[kk] == p[0]);
                    lemma_ascii_is_boundary(s@, pos + kk);
                    assert(sb[pos + kk + p.len() - 1] == tail[kk + p.len() - 1]);
                    assert(tail[kk + p.len() - 1] == p[p.len() - 1]);
                    lemma_after_ascii_is_boundary(s@, pos + kk + p.len() - 1);
                    let after = tail.skip(kk);
                    assert(occurs_at(after, p, 0)) by {
                        assert(after.subrange(0, p.len() as int) =~= tail.subrange(kk, kk + p.len()));
                    }
                    assert(after.skip(p.len() as int) =~= sb.skip(pos + kk + p.len()));
                }
                let piece = cut_exec(s, pos, pos + k);
                let ghost before = out@;
                out.append(piece.as_str());
                proof {
                    lemma_utf8_concat(before, piece@);
                    assert(sb.subrange(pos as int, pos + kk) =~= tail.take(kk));
                }
                pos = pos + k + plen;
            },
        }
    }
    proof {
        assert(sb.skip(pos as int) =~= Seq::<u8>::empty());
        assert(utf8(out@) + Seq::<u8>::empty() =~= utf8(out@));
    }
    out
}


/// A found leftmost occurrence is an occurrence with none before it.
pub proof fn lemma_found_first(hay: Seq<u8>, needle: Seq<u8>, i: int)
    requires
        find_first(hay, needle) == Some(i),
    ensures
        is_first_occurrence(hay, needle, i),
{
}

/// A found rightmost occurrence is an occurrence with none after it.
pub proof fn lemma_found_last(hay: Seq<u8>, needle: Seq<u8>, i: int)
    requires
        find_last(hay, needle) == Some(i),
    ensures
        is_last_occurrence(hay, needle, i),
{
}

/// Byte offset of the leftmost occurrence of the ASCII text `pat` in the
/// bytes `hay`, with what the match says of the bytes there.
pub fn find_ascii(hay: &[u8], pat: &str) -> (r: Option<usize>)
    requires
        is_ascii_chars(pat@),
    ensures
        hay@.len() <= usize::MAX,
        match r {
            Some(i) => {
                &&& find_first(hay@, utf8(pat@)) == Some(i as int)
                &&& i + pat@.len() <= hay@.len()
                &&& forall|k: int| 0 <= k < pat@.len() ==> #[trigger] hay@[i + k] == pat@[k] as u8
            },
            None => find_first(hay@, utf8(pat@)) is None,
        },
{
    let _ = hay.len();
    proof {
        lemma_ascii_utf8(pat@);
    }
    let r = find_bytes(hay, pat.as_bytes());
    match r {
        Some(i) => {
            proof {
                lemma_found_first(hay@, utf8(pat@), i as int);
                assert forall|k: int| 0 <= k < pat@.len() implies #[trigger] hay@[i + k] == pat@[k] as u8 by {
                    assert(hay@.subrange(i as int, i + pat@.len())[k] == hay@[i + k]);
                }
            }
        },
        None => {},
    }
    r
}

/// Byte offset of the rightmost occurrence of the ASCII text `pat` in the
/// bytes `hay`, with what the match says of the bytes there.
pub fn rfind_ascii(hay: &[u8], pat: &str) -> (r: Option<usize>)
    requires
        is_ascii_chars(pat@),
    ensures
        hay@.len() <= usize::MAX,
        match r {
            Some(i) => {
                &&& find_last(hay@, utf8(pat@)) == Some(i as int)
                &&& i + pat@.len() <= hay@.len()
                &&& forall|k: int| 0 <= k < pat@.len() ==> #[trigger] hay@[i + k] == pat@[k] as u8
            },
            None => find_last(hay@, utf8(pat@)) is None,
        },
{
    let _ = hay.len();
    proof {
        lemma_ascii_utf8(pat@);
    }
    let r = rfind_bytes(hay, pat.as_bytes());
    match r {
        Some(i) => {
            proof {
                lemma_found_last(hay@, utf8(pat@), i as int);
                assert forall|k: int| 0 <= k < pat@.len() implies #[trigger] hay@[i + k] == pat@[k] as u8 by {
                    assert(hay@.subrange(i as int, i + pat@.len())[k] == hay@[i + k]);
                }
            }
        },
        None => {},
    }
    r
}


/// The byte `c` does not occur in `b`.
pub open spec fn lacks_byte(b: Seq<u8>, c: u8) -> bool {
    forall|k: int| 0 <= k < b.len() ==> b[k] != c
}

/// A byte that `a` lacks is first found just after `a`.
pub proof fn lemma_first_byte(a: Seq<u8>, c: u8, rest: Seq<u8>)
    requires
        lacks_byte(a, c),
    ensures
        find_first(a + seq![c] + rest, seq![c]) == Some(a.len() as int),
{
    let hay = a + seq![c] + rest;
    let n = seq![c];
    assert(hay.subrange(a.len() as int, a.len() + 1int) =~= n);
    assert forall|j: int| 0 <= j < a.len() implies !occurs_at(hay, n, j) by {
        if occurs_at(hay, n, j) {
            assert(hay.subrange(j, j + 1)[0] == hay[j]);
            assert(hay[j] == a[j]);
        }
    }
    lemma_first_unique(hay, n, a.len() as int);
}

/// A word whose first byte occurs nowhere else in it, placed after a prefix
/// that does not hold it, is first found just after that prefix.
pub proof fn lemma_word_after(pre: Seq<u8>, word: Seq<u8>, rest: Seq<u8>)
    requires
        word.len() > 0,
        forall|k: int| 1 <= k < word.len() ==> #[trigger] word[k] != word[0],
        !contains_bytes(pre, word),
    ensures
        find_first(pre + word + rest, word) == Some(pre.len() as int),
{
    let hay = pre + word + rest;
    let n = pre.len() as int;
    assert(hay.subrange(n, n + word.len()) =~= word);
    assert forall|j: int| 0 <= j < n implies !occurs_at(hay, word, j) by {
        if occurs_at(hay, word, j) {
            if j + word.len() <= n {
                assert(pre.subrange(j, j + word.len()) =~= hay.subrange(j, j + word.len()));
                assert(occurs_at(pre, word, j));
            } else {
                let d = n - j;
                assert(hay.subrange(j, j + word.len())[d] == hay[n]);
                assert(hay[n] == word[0]);
                assert(word[d] == word[0]);
            }
        }
    }
    lemma_first_unique(hay, word, n);
}

/// Taking out a pattern whose first byte occurs nowhere else in it leaves a
/// text that does not hold it as it is, and takes the pattern off the end
/// of such a text.
pub proof fn law_remove_pattern(s: Seq<u8>, pat: Seq<u8>)
    requires
        pat.len() > 0,
        forall|k: int| 1 <= k < pat.len() ==> #[trigger] pat[k] != pat[0],
        !contains_bytes(s, pat),
    ensures
        remove_matches(s, pat) == s,
        remove_matches(s + pat, pat) == s,
{
    assert forall|j: int| 0 <= j < s.len() implies !occurs_at(s, pat, j) by {}
    lemma_remove_prefix(s, pat, s.len() as int);
    assert(s.take(s.len() as int) =~= s);
    assert(s.skip(s.len() as int) =~= Seq::<u8>::empty());
    let t = s + pat;
    lemma_word_after(s, pat, Seq::<u8>::empty());
    assert(t + Seq::<u8>::empty() =~= t);
    let i = choose|i: int| is_first_occurrence(t, pat, i);
    assert(is_first_occurrence(t, pat, i));
    lemma_remove_prefix(t, pat, s.len() as int);
    assert(t.take(s.len() as int) =~= s);
    let rest = t.skip(s.len() as int);
    assert(rest =~= pat);
    assert(rest.subrange(0, pat.len() as int) =~= pat);
    assert(occurs_at(rest, pat, 0));
    assert(rest.skip(pat.len() as int) =~= Seq::<u8>::empty());
    assert(s + Seq::<u8>::empty() =~= s);
}

/// A byte that `rest` lacks is last found just before `rest`.
pub proof fn lemma_last_byte(a: Seq<u8>, c: u8, rest: Seq<u8>)
    requires
        lacks_byte(rest, c),
    ensures
        find_last(a + seq![c] + rest, seq![c]) == Some(a.len() as int),
{
    let hay = a + seq![c] + rest;
    let n = seq![c];
    assert(hay.subrange(a.len() as int, a.len() + 1int) =~= n);
    assert forall|j: int| a.len() < j implies !occurs_at(hay, n, j) by {
        if occurs_at(hay, n, j) {
            assert(hay.subrange(j, j + 1)[0] == hay[j]);
            assert(hay[j] == rest[j - a.len() - 1]);
        }
    }
    lemma_last_unique(hay, n, a.len() as int);
}

/// The bytes of a character: the character itself when it is ASCII, bytes
/// of 0x80 and above otherwise.
proof fn lemma_scalar_bytes(x: u32)
    requires
        is_scalar(x),
    ensures
        has_width_1_encoding(x) ==> encode_scalar(x) == seq![x as u8],
        !has_width_1_encoding(x) ==> forall|k: int|
            0 <= k < encode_scalar(x).len() ==> #[trigger] encode_scalar(x)[k] >= 0x80,
{
    if has_width_1_encoding(x) {
        assert((x & 0x7F) as u8 == x as u8) by (bit_vector)
            requires
                x <= 0x7F,
        ;
    } else {
        let b2 = ((x >> 6) & 0x1F) as u8;
        let b3 = ((x >> 12) & 0x0F) as u8;
        let b4 = ((x >> 18) & 0x7) as u8;
        let c1 = (x & 0x3F) as u8;
        let c2 = ((x >> 6) & 0x3F) as u8;
        let c3 = ((x >> 12) & 0x3F) as u8;
        assert(0xC0u8 | b2 >= 0x80) by (bit_vector);
        assert(0xE0u8 | b3 >= 0x80) by (bit_vector);
        assert(0xF0u8 | b4 >= 0x80) by (bit_vector);
        assert(0x80u8 | c1 >= 0x80) by (bit_vector);
        assert(0x80u8 | c2 >= 0x80) by (bit_vector);
        assert(0x80u8 | c3 >= 0x80) by (bit_vector);
    }
}

/// An ASCII character that a text lacks is not among the bytes of its
/// encoding.
pub proof fn lemma_utf8_lacks(s: Seq<char>, c: char)
    requires
        (c as u32) < 0x80,
        !s.contains(c),
    ensures
        lacks_byte(utf8(s), c as u8),
    decreases s.len(),
{
    if s.len() > 0 {
        let rest = s.drop_first();
        assert(!rest.contains(c)) by {
            if rest.contains(c) {
                let k = choose|k: int| 0 <= k < rest.len() && rest[k] == c;
                assert(s[k + 1] == c);
            }
        }
        lemma_utf8_lacks(rest, c);
        let x = s[0] as u32;
        char_is_scalar(s[0]);
        lemma_scalar_bytes(x);
        let e = encode_scalar(x);
        assert(utf8(s) == e + utf8(rest));
        assert forall|k: int| 0 <= k < utf8(s).len() implies utf8(s)[k] != c as u8 by {
            if k < e.len() {
                if has_width_1_encoding(x) {
                    assert(s[0] != c);
                    char_u32_cast(s[0], x);
                    char_u32_cast(c, c as u32);
                    assert(x != c as u32);
                    assert(e[k] == x as u8);
                } else {
                    assert(e[k] >= 0x80);
                }
            } else {
                assert(utf8(s)[k] == utf8(rest)[k - e.len()]);
            }
        }
    }
}

/// The text holds no square bracket.
pub open spec fn no_brackets(s: Seq<char>) -> bool {
    !s.contains('[') && !s.contains(']')
}

/// The bytes of `p[x]q`, and what the brackets bring.
pub proof fn lemma_bracketed_bytes(p: Seq<char>, x: Seq<char>, q: Seq<char>)
    ensures
        utf8(p + "["@ + x + "]"@ + q) == utf8(p) + seq![0x5Bu8] + utf8(x) + seq![0x5Du8] + utf8(q),
        utf8("["@) == seq![0x5Bu8],
        utf8("]"@) == seq![0x5Du8],
{
    reveal_strlit("[");
    reveal_strlit("]");
    lemma_ascii_utf8("["@);
    lemma_ascii_utf8("]"@);
    assert(utf8("["@) =~= seq![0x5Bu8]);
    assert(utf8("]"@) =~= seq![0x5Du8]);
    lemma_utf8_concat(p, "["@);
    lemma_utf8_concat(p + "["@, x);
    lemma_utf8_concat(p + "["@ + x, "]"@);
    lemma_utf8_concat(p + "["@ + x + "]"@, q);
}

/// A non-empty text has a non-empty encoding.
pub proof fn lemma_utf8_nonempty(t: Seq<char>)
    requires
        t.len() > 0,
    ensures
        utf8(t).len() > 0,
{
    encode_utf8_decode_utf8(t);
    if utf8(t).len() == 0 {
        assert(decode_utf8(utf8(t)) =~= Seq::<char>::empty());
    }
}


/// `prefix` followed by `tail`.
pub fn prefixed(prefix: &str, tail: &str) -> (r: String)
    ensures
        r@ == prefix@ + tail@,
{
    let mut m = prefix.to_owned();
    m.append(tail);
    m
}

} // verus!
