//! Monitoring: the use of a disk, read from what `df` prints.
use vstd::prelude::*;
use vstd::utf8::*;
use crate::database::word_bytes;
use crate::pattern::{regex_compile_error, regex_finds, Pattern};
use crate::answers::{decimal, digit_char};
use crate::text::{
    cut_exec, lemma_after_ascii_is_boundary, lemma_ascii_is_boundary, lemma_ascii_utf8,
    lemma_utf8_concat, utf8,
};

verus! {

/// The pieces of `b` between the bytes equal to `sep`, empty pieces
/// included: what `str::split` yields for an ASCII separator.
pub open spec fn split_bytes(b: Seq<u8>, sep: u8) -> Seq<Seq<u8>>
    decreases b.len(),
{
    if b.len() == 0 {
        seq![Seq::<u8>::empty()]
    } else {
        let pieces = split_bytes(b.drop_last(), sep);
        if b.last() == sep {
            pieces.push(Seq::<u8>::empty())
        } else {
            pieces.update(pieces.len() - 1, pieces.last().push(b.last()))
        }
    }
}

proof fn lemma_split_nonempty(b: Seq<u8>, sep: u8)
    ensures
        split_bytes(b, sep).len() >= 1,
    decreases b.len(),
{
    if b.len() > 0 {
        lemma_split_nonempty(b.drop_last(), sep);
    }
}

/// Splits `s` at every occurrence of the ASCII byte `sep`.
pub fn split_at_byte(s: &str, sep: u8) -> (r: Vec<String>)
    requires
        sep < 0x80,
    ensures
        word_bytes(r@) == split_bytes(utf8(s@), sep),
{
    let b = s.as_bytes();
    let len = b.len();
    let ghost sb = utf8(s@);
    let mut out: Vec<String> = Vec::new();
    let mut start: usize = 0;
    let mut i: usize = 0;
    proof {
        assert(sb.take(0) =~= Seq::<u8>::empty());
        assert(sb.subrange(0, 0) =~= Seq::<u8>::empty());
        assert(word_bytes(out@).push(sb.subrange(0, 0)) =~= split_bytes(sb.take(0), sep));
        encode_utf8_valid_utf8(s@);
        is_char_boundary_start_end_of_seq(sb);
    }
    while i < len
        invariant
            sb == utf8(s@),
            b@ == sb,
            len == sb.len(),
            sep < 0x80,
            valid_utf8(sb),
            start <= i <= len,
            is_char_boundary(sb, start as int),
            word_bytes(out@).push(sb.subrange(start as int, i as int)) == split_bytes(
                sb.take(i as int),
                sep,
            ),
        decreases len - i,
    {
        let ghost before = word_bytes(out@);
        let ghost old_start = start;
        proof {
            assert(sb.take(i + 1).drop_last() =~= sb.take(i as int));
            assert(sb.take(i + 1).last() == sb[i as int]);
            lemma_split_nonempty(sb.take(i as int), sep);
        }
        if b[i] == sep {
            proof {
                lemma_ascii_is_boundary(s@, i as int);
                lemma_after_ascii_is_boundary(s@, i as int);
            }
            let piece = cut_exec(s, start, i);
            out.push(piece);
            start = i + 1;
            proof {
                assert(word_bytes(out@) =~= before.push(sb.subrange(old_start as int, i as int)));
                assert(sb.subrange(start as int, (i + 1) as int) =~= Seq::<u8>::empty());
            }
        } else {
            proof {
                assert(sb.subrange(start as int, (i + 1) as int) =~= sb.subrange(
                    start as int,
                    i as int,
                ).push(sb[i as int]));
                assert(before.push(sb.subrange(start as int, i as int)).update(
                    before.len() as int,
                    sb.subrange(start as int, (i + 1) as int),
                ) =~= before.push(sb.subrange(start as int, (i + 1) as int)));
            }
        }
        i = i + 1;
    }
    let piece = cut_exec(s, start, len);
    out.push(piece);
    proof {
        assert(sb.take(len as int) =~= sb);
    }
    out
}

/// The pieces put back together, with `sep` between two neighbours.
pub open spec fn joined(pieces: Seq<Seq<u8>>, sep: u8) -> Seq<u8>
    decreases pieces.len(),
{
    if pieces.len() <= 1 {
        if pieces.len() == 0 {
            Seq::<u8>::empty()
        } else {
            pieces[0]
        }
    } else {
        joined(pieces.drop_last(), sep).push(sep) + pieces.last()
    }
}

/// Splitting after a separator that ends `a` and before a piece `w`
/// without separator adds `w` as a last piece.
proof fn lemma_split_after(a: Seq<u8>, sep: u8, w: Seq<u8>)
    requires
        forall|k: int| 0 <= k < w.len() ==> #[trigger] w[k] != sep,
    ensures
        split_bytes(a.push(sep) + w, sep) == split_bytes(a, sep).push(w),
    decreases w.len(),
{
    if w.len() == 0 {
        assert(a.push(sep) + w =~= a.push(sep));
        assert(a.push(sep).drop_last() =~= a);
        assert(w =~= Seq::<u8>::empty());
        assert(a.push(sep).last() == sep);
    } else {
        let init = w.drop_last();
        lemma_split_after(a, sep, init);
        let b = a.push(sep) + w;
        assert(b.drop_last() =~= a.push(sep) + init);
        assert(b.last() == w.last());
        assert(w.last() == w[w.len() - 1]);
        assert(w.last() != sep);
        assert(init.push(w.last()) =~= w);
        let pcs = split_bytes(a, sep).push(init);
        assert(split_bytes(b.drop_last(), sep) == pcs);
        assert(pcs.last() == init);
        assert(split_bytes(b, sep) == pcs.update(pcs.len() - 1, pcs.last().push(b.last())));
        assert(split_bytes(a, sep).push(init).update(
            split_bytes(a, sep).len() as int,
            init.push(w.last()),
        ) =~= split_bytes(a, sep).push(w));
    }
}

/// A piece without separator splits into itself alone.
proof fn lemma_split_single(w: Seq<u8>, sep: u8)
    requires
        forall|k: int| 0 <= k < w.len() ==> #[trigger] w[k] != sep,
    ensures
        split_bytes(w, sep) == seq![w],
    decreases w.len(),
{
    if w.len() > 0 {
        let init = w.drop_last();
        lemma_split_single(init, sep);
        assert(w.last() == w[w.len() - 1]);
        assert(init.push(w.last()) =~= w);
        assert(seq![init].update(0, init.push(w.last())) =~= seq![w]);
    } else {
        assert(w =~= Seq::<u8>::empty());
    }
}

/// Splitting pieces that hold no separator, put back together with the
/// separator between them, gives back the pieces, in order, empty ones
/// included.
pub proof fn law_split_undoes_join(pieces: Seq<Seq<u8>>, sep: u8)
    requires
        pieces.len() >= 1,
        forall|i: int, k: int|
            0 <= i < pieces.len() && 0 <= k < pieces[i].len() ==> #[trigger] pieces[i][k] != sep,
    ensures
        split_bytes(joined(pieces, sep), sep) == pieces,
    decreases pieces.len(),
{
    if pieces.len() == 1 {
        let w = pieces[0];
        assert forall|k: int| 0 <= k < w.len() implies #[trigger] w[k] != sep by {
            assert(pieces[0][k] != sep);
        }
        lemma_split_single(w, sep);
        assert(seq![w] =~= pieces);
    } else {
        let init = pieces.drop_last();
        assert forall|i: int, k: int|
            0 <= i < init.len() && 0 <= k < init[i].len() implies #[trigger] init[i][k] != sep by {
            assert(init[i] == pieces[i]);
            assert(pieces[i][k] != sep);
        }
        law_split_undoes_join(init, sep);
        let w = pieces.last();
        assert forall|k: int| 0 <= k < w.len() implies #[trigger] w[k] != sep by {
            assert(pieces[pieces.len() - 1][k] != sep);
        }
        lemma_split_after(joined(init, sep), sep, w);
        assert(init.push(w) =~= pieces);
    }
}

/// The pieces that are not empty.
pub open spec fn nonempty(pieces: Seq<Seq<u8>>) -> Seq<Seq<u8>> {
    pieces.filter(|p: Seq<u8>| p.len() > 0)
}

/// The words, in order, of the lines in which the regular expression
/// `disk` finds a match, the words of all such lines put together.
pub open spec fn disk_fields(lines: Seq<Seq<u8>>, disk: Seq<char>) -> Seq<Seq<u8>>
    decreases lines.len(),
{
    if lines.len() == 0 {
        seq![]
    } else {
        let before = disk_fields(lines.drop_last(), disk);
        if regex_finds(disk, decode_utf8(lines.last())) {
            before + nonempty(split_bytes(lines.last(), 0x20))
        } else {
            before
        }
    }
}

/// The words of the `df` lines that the regular expression `disk` finds;
/// an error when `disk` does not compile.
pub fn disk_status_fields(df_output: &String, disk: &String) -> (r: Result<Vec<String>, String>)
    ensures
        match r {
            Ok(fields) => {
                &&& regex_compile_error(disk@) is None
                &&& word_bytes(fields@) == disk_fields(split_bytes(utf8(df_output@), 0x0a), disk@)
            },
            Err(m) => {
                &&& regex_compile_error(disk@) is Some
                &&& m@ == "ERROR: fail to build system regex"@
            },
        },
{
    let lines = split_at_byte(df_output.as_str(), 0x0a);
    let disk_re = match Pattern::compile(disk.as_str()) {
        Ok(re) => re,
        Err(_) => return Err("ERROR: fail to build system regex".to_owned()),
    };
    let ghost all = word_bytes(lines@);
    let mut fields: Vec<String> = Vec::new();
    let mut i: usize = 0;
    proof {
        assert(all.take(0) =~= Seq::<Seq<u8>>::empty());
    }
    while i < lines.len()
        invariant
            i <= lines@.len(),
            all == word_bytes(lines@),
            disk_re@ == disk@,
            word_bytes(fields@) == disk_fields(all.take(i as int), disk@),
        decreases lines@.len() - i,
    {
        proof {
            assert(all.take(i + 1).drop_last() =~= all.take(i as int));
            assert(all.take(i + 1).last() == utf8(lines@[i as int]@));
            encode_utf8_decode_utf8(lines@[i as int]@);
        }
        let line = lines[i].as_str();
        if disk_re.is_match(line) {
            let pieces = split_at_byte(line, 0x20);
            let ghost ps = word_bytes(pieces@);
            let ghost start = word_bytes(fields@);
            let mut j: usize = 0;
            proof {
                assert(ps.take(0) =~= Seq::<Seq<u8>>::empty());
                reveal_with_fuel(Seq::filter, 1);
                assert(start + nonempty(ps.take(0)) =~= start);
            }
            while j < pieces.len()
                invariant
                    j <= pieces@.len(),
                    ps == word_bytes(pieces@),
                    word_bytes(fields@) == start + nonempty(ps.take(j as int)),
                decreases pieces@.len() - j,
            {
                reveal_with_fuel(Seq::filter, 1);
                let piece = &pieces[j];
                let ghost before = word_bytes(fields@);
                proof {
                    assert(ps.take(j + 1).drop_last() =~= ps.take(j as int));
                    assert(ps.take(j + 1).last() == utf8(piece@));
                }
                if piece.as_str().as_bytes().len() > 0 {
                    fields.push(piece.clone());
                    proof {
                        assert(word_bytes(fields@) =~= before.push(utf8(piece@)));
                    }
                }
                j = j + 1;
            }
            proof {
                assert(ps.take(pieces@.len() as int) =~= ps);
            }
        }
        i = i + 1;
    }
    proof {
        assert(all.take(lines@.len() as int) =~= all);
    }
    Ok(fields)
}


/// The byte is an ASCII decimal digit.
pub open spec fn is_digit(c: u8) -> bool {
    0x30 <= c <= 0x39
}

/// The number written by a sequence of decimal digits.
pub open spec fn digits_value(d: Seq<u8>) -> int
    decreases d.len(),
{
    if d.len() == 0 {
        0
    } else {
        digits_value(d.drop_last()) * 10 + (d.last() - 0x30)
    }
}

/// The length of the sign (`+` or `-`) that starts `b`, if any.
pub open spec fn sign_len(b: Seq<u8>) -> int {
    if b.len() > 0 && (b[0] == 0x2d || b[0] == 0x2b) {
        1
    } else {
        0
    }
}

/// Every byte is a decimal digit.
pub open spec fn all_digits(d: Seq<u8>) -> bool {
    forall|k: int| 0 <= k < d.len() ==> is_digit(#[trigger] d[k])
}

/// What `str::parse::<i32>` gives for the bytes `b`: an optional `+` or `-`
/// sign followed by at least one decimal digit and nothing else, whose
/// value fits in an `i32`.
pub open spec fn parse_i32_spec(b: Seq<u8>) -> Option<i32> {
    let d = b.skip(sign_len(b));
    if d.len() == 0 || !all_digits(d) {
        None
    } else {
        let v = if b[0] == 0x2d {
            -digits_value(d)
        } else {
            digits_value(d)
        };
        if i32::MIN <= v <= i32::MAX {
            Some(v as i32)
        } else {
            None
        }
    }
}

proof fn lemma_digits_grow(d: Seq<u8>, k: int)
    requires
        0 <= k <= d.len(),
        all_digits(d),
    ensures
        digits_value(d.take(k)) <= digits_value(d),
        0 <= digits_value(d.take(k)),
    decreases d.len() - k,
{
    if k < d.len() {
        lemma_digits_grow(d, k + 1);
        assert(d.take(k + 1).drop_last() =~= d.take(k));
        assert(d.take(k + 1).last() == d[k]);
    } else {
        assert(d.take(k) =~= d);
        lemma_digits_nonneg(d);
    }
}

proof fn lemma_digits_nonneg(d: Seq<u8>)
    requires
        all_digits(d),
    ensures
        0 <= digits_value(d),
    decreases d.len(),
{
    if d.len() > 0 {
        assert(forall|m: int| 0 <= m < d.drop_last().len() ==> d.drop_last()[m] == d[m]);
        lemma_digits_nonneg(d.drop_last());
    }
}

/// Reads a decimal `i32`, as `str::parse::<i32>` does.
pub fn parse_i32(s: &str) -> (r: Option<i32>)
    ensures
        r == parse_i32_spec(utf8(s@)),
{
    let b = s.as_bytes();
    let len = b.len();
    let ghost sb = utf8(s@);
    let negative = len > 0 && b[0] == 0x2d;
    let signed = len > 0 && (b[0] == 0x2d || b[0] == 0x2b);
    let first: usize = if signed {
        1
    } else {
        0
    };
    let ghost d = sb.skip(sign_len(sb));
    if first == len {
        return None;
    }
    let mut acc: i64 = 0;
    let mut i: usize = first;
    proof {
        assert(d.take(0) =~= Seq::<u8>::empty());
    }
    while i < len
        invariant
            b@ == sb,
            sb == utf8(s@),
            first == sign_len(sb),
            negative == (len > 0 && sb[0] == 0x2d),
            len == sb.len(),
            first <= i <= len,
            first <= 1,
            d == sb.skip(first as int),
            forall|k: int| 0 <= k < i - first ==> is_digit(#[trigger] d[k]),
            acc == digits_value(d.take(i - first)),
            0 <= acc <= 2147483648,
        decreases len - i,
    {
        let c = b[i];
        if c < 0x30 || c > 0x39 {
            proof {
                assert(d[i - first] == c);
                assert(!is_digit(d[i - first]));
                assert(!all_digits(d));
            }
            return None;
        }
        proof {
            assert(d[i - first] == c);
            assert(d.take(i + 1 - first).drop_last() =~= d.take(i - first));
            assert(d.take(i + 1 - first).last() == c);
        }
        acc = acc * 10 + (c - 0x30) as i64;
        i = i + 1;
        if acc > 2147483648 {
            proof {
                if all_digits(d) {
                    lemma_digits_grow(d, i - first);
                }
            }
            return None;
        }
    }
    proof {
        assert(d.take(len - first) =~= d);
    }
    if negative {
        Some((-acc) as i32)
    } else if acc <= 2147483647 {
        Some(acc as i32)
    } else {
        None
    }
}

/// What a line of `df` reports when its words are `fields`: six words, the
/// fifth of which, without its last byte (the `%` sign), is the use in
/// percent.
pub open spec fn usage_spec(fields: Seq<Seq<u8>>) -> Result<i32, Seq<char>> {
    if fields.len() == 6 {
        let raw = fields[4];
        match parse_i32_spec(raw.subrange(0, raw.len() - 1)) {
            Some(v) => Ok(v),
            None => Err("ERROR: convert disk usage in Integer"@),
        }
    } else {
        Err("ERROR: fail to read disk usage"@)
    }
}

/// The words on which reading the use panics: the fifth of six words is
/// empty or does not end with a one-byte character.
pub open spec fn usage_faults(fields: Seq<Seq<u8>>) -> bool {
    fields.len() == 6 && !(fields[4].len() >= 1 && is_char_boundary(
        fields[4],
        fields[4].len() - 1,
    ))
}

/// Reads the use of a disk, in percent, from the words of its `df` line.
pub fn disk_usage_from_fields(disk_status: &Vec<String>) -> (r: Result<i32, String>)
    requires
        !usage_faults(word_bytes(disk_status@)),
    ensures
        match r {
            Ok(v) => usage_spec(word_bytes(disk_status@)) == Ok::<i32, Seq<char>>(v),
            Err(m) => usage_spec(word_bytes(disk_status@)) == Err::<i32, Seq<char>>(m@),
        },
{
    if disk_status.len() == 6 {
        let raw = disk_status[4].as_str();
        let n = raw.as_bytes().len();
        proof {
            assert(word_bytes(disk_status@)[4] == utf8(raw@));
            encode_utf8_valid_utf8(raw@);
            assert(is_char_boundary(utf8(raw@), 0));
        }
        let clean = cut_exec(raw, 0, n - 1);
        match parse_i32(clean.as_str()) {
            Some(v) => Ok(v),
            None => Err("ERROR: convert disk usage in Integer".to_owned()),
        }
    } else {
        Err("ERROR: fail to read disk usage".to_owned())
    }
}


/// The use, in percent, of the disk that `disk` finds in the output of
/// `df`; `None` where reading it would panic (see `usage_faults`).
pub open spec fn disk_usage_spec(df_output: Seq<char>, disk: Seq<char>) -> Option<
    Result<i32, Seq<char>>,
> {
    match regex_compile_error(disk) {
        Some(_) => Some(Err("ERROR: fail to build system regex"@)),
        None => {
            let fields = disk_fields(split_bytes(utf8(df_output), 0x0a), disk);
            if usage_faults(fields) {
                None
            } else {
                Some(usage_spec(fields))
            }
        },
    }
}

/// Reads the use of a disk from the output of `df`: the words of the lines
/// that the regular expression `disk` finds; `None` where the fifth word
/// cannot be cut before its last character.
pub fn disk_usage(df_output: &String, disk: &String) -> (r: Option<Result<i32, String>>)
    ensures
        match r {
            None => disk_usage_spec(df_output@, disk@) is None,
            Some(Ok(v)) => disk_usage_spec(df_output@, disk@) == Some(Ok::<i32, Seq<char>>(v)),
            Some(Err(m)) => disk_usage_spec(df_output@, disk@) == Some(Err::<i32, Seq<char>>(m@)),
        },
{
    let fields = match disk_status_fields(df_output, disk) {
        Ok(f) => f,
        Err(m) => return Some(Err(m)),
    };
    if fields.len() == 6 {
        let raw = fields[4].as_str();
        let n = raw.as_bytes().len();
        proof {
            assert(word_bytes(fields@)[4] == utf8(raw@));
        }
        if n == 0 || !raw.is_char_boundary(n - 1) {
            return None;
        }
    }
    Some(disk_usage_from_fields(&fields))
}

/// The decimal writing of `n` is ASCII digits, at least one, whose value
/// is `n`.
proof fn lemma_decimal_bytes(n: nat)
    ensures
        is_ascii_chars(decimal(n)),
        utf8(decimal(n)).len() >= 1,
        all_digits(utf8(decimal(n))),
        digits_value(utf8(decimal(n))) == n,
    decreases n,
{
    let c = digit_char(n % 10);
    assert((c as u32) < 0x80);
    if n < 10 {
        assert(decimal(n) =~= seq![c]);
        lemma_ascii_utf8(decimal(n));
        let b = utf8(decimal(n));
        assert(b.drop_last() =~= Seq::<u8>::empty());
        assert(b.last() == c as u8);
        assert((c as u8) == n % 10 + 48);
        vstd::arithmetic::div_mod::lemma_small_mod(n, 10);
        assert(digits_value(b) == digits_value(b.drop_last()) * 10 + (b.last() - 0x30));
        assert(digits_value(Seq::<u8>::empty()) == 0);
    } else {
        lemma_decimal_bytes(n / 10);
        let head = decimal(n / 10);
        assert(decimal(n) =~= head + seq![c]);
        assert(is_ascii_chars(decimal(n))) by {
            assert forall|k: int| 0 <= k < decimal(n).len() implies ((#[trigger] decimal(n)[k]) as u32)
                < 0x80 by {
                if k < head.len() {
                    assert(decimal(n)[k] == head[k]);
                }
            }
        }
        lemma_utf8_concat(head, seq![c]);
        lemma_ascii_utf8(seq![c]);
        let hb = utf8(head);
        let b = utf8(decimal(n));
        assert(utf8(seq![c]) =~= seq![c as u8]);
        assert(b =~= hb.push(c as u8));
        assert(b.drop_last() =~= hb);
        assert(all_digits(b)) by {
            assert forall|k: int| 0 <= k < b.len() implies is_digit(#[trigger] b[k]) by {
                if k < hb.len() {
                    assert(b[k] == hb[k]);
                }
            }
        }
        vstd::arithmetic::div_mod::lemma_fundamental_div_mod(n as int, 10);
        assert(b.last() == c as u8);
        assert((c as u8) == n % 10 + 48);
        assert(digits_value(b) == digits_value(hb) * 10 + (b.last() - 0x30));
        assert(digits_value(hb) == n / 10);
    }
}

/// A `df` line whose fifth of six words is the decimal writing of a number
/// `n` followed by `%` reports the use `n`, whatever the other words: the
/// whole fifth word is read, up to its `%` sign.
pub proof fn law_usage_reads_the_whole_percentage(fields: Seq<Seq<u8>>, n: nat)
    requires
        fields.len() == 6,
        n <= i32::MAX,
        fields[4] == utf8(decimal(n) + "%"@),
    ensures
        !usage_faults(fields),
        usage_spec(fields) == Ok::<i32, Seq<char>>(n as i32),
{
    reveal_strlit("%");
    lemma_decimal_bytes(n);
    lemma_utf8_concat(decimal(n), "%"@);
    lemma_ascii_utf8("%"@);
    let d = utf8(decimal(n));
    let raw = fields[4];
    assert(raw =~= d + seq![0x25u8]);
    assert(raw[raw.len() - 1] == 0x25);
    lemma_ascii_is_boundary(decimal(n) + "%"@, raw.len() - 1);
    assert(raw.subrange(0, raw.len() - 1) =~= d);
    assert(is_digit(d[0]));
    assert(d.skip(0) =~= d);
}

/// Reading an `i32` gives back the number of its decimal writing, with an
/// optional sign in front, when the value fits; a writing with a trailing
/// `%` is refused.
pub proof fn law_parse_decimal(n: nat)
    ensures
        n <= i32::MAX ==> parse_i32_spec(utf8(decimal(n))) == Some(n as i32),
        n <= i32::MAX ==> parse_i32_spec(utf8("+"@ + decimal(n))) == Some(n as i32),
        n <= 0x8000_0000 ==> parse_i32_spec(utf8("-"@ + decimal(n))) == Some((-n) as i32),
        n > i32::MAX ==> parse_i32_spec(utf8(decimal(n))) is None,
        parse_i32_spec(utf8(decimal(n) + "%"@)) is None,
{
    reveal_strlit("+");
    reveal_strlit("-");
    reveal_strlit("%");
    lemma_decimal_bytes(n);
    let d = utf8(decimal(n));
    assert(is_digit(d[0]));
    assert(d.skip(0) =~= d);
    lemma_ascii_utf8("+"@);
    lemma_ascii_utf8("-"@);
    lemma_ascii_utf8("%"@);
    lemma_utf8_concat("+"@, decimal(n));
    lemma_utf8_concat("-"@, decimal(n));
    lemma_utf8_concat(decimal(n), "%"@);
    assert(utf8("+"@ + decimal(n)).skip(1) =~= d);
    assert(utf8("-"@ + decimal(n)).skip(1) =~= d);
    let e = utf8(decimal(n) + "%"@);
    assert(e.skip(0) =~= e);
    assert(e[e.len() - 1] == 0x25);
    assert(!is_digit(e[e.len() - 1]));
}

} // verus!
