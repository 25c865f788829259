//! Byte-level text utilities shared by the Hershey decoder and the
//! NewStroke composer: line splitting, whitespace tokenization, trimming,
//! and integer parsing. All inputs are treated as ASCII-compatible byte
//! strings.

use vstd::prelude::*;
use vstd::string::StrSliceExecFns;

verus! {

/// ASCII line feed.
pub const LF: u8 = 10;

/// ASCII carriage return.
pub const CR: u8 = 13;

/// Is `b` an ASCII whitespace byte (space, tab, line feed, vertical tab,
/// form feed, carriage return)?
pub open spec fn is_space(b: u8) -> bool {
    b == 32 || (9 <= b <= 13)
}

/// Executable form of [`is_space`].
pub fn byte_is_space(b: u8) -> (r: bool)
    ensures
        r == is_space(b),
{
    b == 32 || (9 <= b && b <= 13)
}

/// The first index at or after `from` holding byte `b`, or the length if
/// there is none.
pub open spec fn find_byte(s: Seq<u8>, b: u8, from: int) -> int
    decreases s.len() - from,
{
    if from < 0 || from >= s.len() {
        s.len() as int
    } else if s[from] == b {
        from
    } else {
        find_byte(s, b, from + 1)
    }
}

/// `find_byte` stays between its starting point and the length.
pub proof fn lemma_find_byte_bounds(s: Seq<u8>, b: u8, from: int)
    requires
        0 <= from <= s.len(),
    ensures
        from <= find_byte(s, b, from) <= s.len(),
    decreases s.len() - from,
{
    if from < s.len() && s[from] != b {
        lemma_find_byte_bounds(s, b, from + 1);
    }
}

/// `find_byte` returns `i` exactly when no earlier position from `from` on
/// holds `b` and `i` does (or `i` is the length).
pub proof fn lemma_find_byte_at(s: Seq<u8>, b: u8, from: int, i: int)
    requires
        0 <= from <= i <= s.len(),
        forall|k: int| from <= k < i ==> s[k] != b,
        i < s.len() ==> s[i] == b,
    ensures
        find_byte(s, b, from) == i,
    decreases i - from,
{
    if from < i {
        lemma_find_byte_at(s, b, from + 1, i);
    }
}

/// Find the first occurrence of `b` at or after `from`.
pub fn find_byte_from(s: &[u8], b: u8, from: usize) -> (r: usize)
    requires
        from <= s@.len(),
    ensures
        r as int == find_byte(s@, b, from as int),
        from <= r <= s@.len(),
        r < s@.len() ==> s@[r as int] == b,
{
    let n = s.len();
    let mut i: usize = from;
    while i < n
        invariant
            from <= i <= n,
            n == s@.len(),
            forall|k: int| from <= k < i ==> s@[k] != b,
        decreases n - i,
    {
        if s[i] == b {
            proof {
                lemma_find_byte_at(s@, b, from as int, i as int);
            }
            return i;
        }
        i = i + 1;
    }
    proof {
        lemma_find_byte_at(s@, b, from as int, n as int);
    }
    n
}

/// Copy the bytes of `s` from `a` up to `b` into a fresh vector.
pub fn copy_range(s: &[u8], a: usize, b: usize) -> (r: Vec<u8>)
    requires
        a <= b <= s@.len(),
    ensures
        r@ == s@.subrange(a as int, b as int),
{
    let mut r: Vec<u8> = Vec::new();
    let mut k: usize = a;
    while k < b
        invariant
            a <= k <= b <= s@.len(),
            r@ == s@.subrange(a as int, k as int),
        decreases b - k,
    {
        r.push(s[k]);
        proof {
            assert(r@ =~= s@.subrange(a as int, k as int + 1));
        }
        k = k + 1;
    }
    r
}

/// The first index at or after `from` holding a non-whitespace byte, or the
/// length if there is none.
pub open spec fn skip_spaces(s: Seq<u8>, from: int) -> int
    decreases s.len() - from,
{
    if from < 0 || from >= s.len() {
        s.len() as int
    } else if is_space(s[from]) {
        skip_spaces(s, from + 1)
    } else {
        from
    }
}

/// `skip_spaces` stays between its starting point and the length.
pub proof fn lemma_skip_spaces_bounds(s: Seq<u8>, from: int)
    requires
        0 <= from <= s.len(),
    ensures
        from <= skip_spaces(s, from) <= s.len(),
    decreases s.len() - from,
{
    if from < s.len() && is_space(s[from]) {
        lemma_skip_spaces_bounds(s, from + 1);
    }
}

/// `skip_spaces` returns `i` exactly when everything from `from` up to `i`
/// is whitespace and `i` is not (or `i` is the length).
pub proof fn lemma_skip_spaces_at(s: Seq<u8>, from: int, i: int)
    requires
        0 <= from <= i <= s.len(),
        forall|k: int| from <= k < i ==> is_space(s[k]),
        i < s.len() ==> !is_space(s[i]),
    ensures
        skip_spaces(s, from) == i,
    decreases i - from,
{
    if from < i {
        lemma_skip_spaces_at(s, from + 1, i);
    }
}

/// The first index at or after `from` holding a whitespace byte, or the
/// length if there is none.
pub open spec fn find_space(s: Seq<u8>, from: int) -> int
    decreases s.len() - from,
{
    if from < 0 || from >= s.len() {
        s.len() as int
    } else if is_space(s[from]) {
        from
    } else {
        find_space(s, from + 1)
    }
}

/// `find_space` stays between its starting point and the length.
pub proof fn lemma_find_space_bounds(s: Seq<u8>, from: int)
    requires
        0 <= from <= s.len(),
    ensures
        from <= find_space(s, from) <= s.len(),
    decreases s.len() - from,
{
    if from < s.len() && !is_space(s[from]) {
        lemma_find_space_bounds(s, from + 1);
    }
}

/// `find_space` returns `i` exactly when nothing from `from` up to `i` is
/// whitespace and `i` is (or `i` is the length).
pub proof fn lemma_find_space_at(s: Seq<u8>, from: int, i: int)
    requires
        0 <= from <= i <= s.len(),
        forall|k: int| from <= k < i ==> !is_space(s[k]),
        i < s.len() ==> is_space(s[i]),
    ensures
        find_space(s, from) == i,
    decreases i - from,
{
    if from < i {
        lemma_find_space_at(s, from + 1, i);
    }
}

/// A line with its terminating line feed removed also loses one trailing
/// carriage return, if present.
pub open spec fn strip_cr(l: Seq<u8>) -> Seq<u8> {
    if l.len() > 0 && l.last() == CR {
        l.drop_last()
    } else {
        l
    }
}

/// The lines of `s` starting at `from`: segments split at line feeds, each
/// segment that was terminated by a line feed losing one trailing carriage
/// return. A final line feed ends the last line rather than opening an
/// empty one.
pub open spec fn spec_lines_from(s: Seq<u8>, from: int) -> Seq<Seq<u8>>
    decreases s.len() - from,
    via spec_lines_from_decreases
{
    if from < 0 || from >= s.len() {
        Seq::empty()
    } else {
        let j = find_byte(s, LF, from);
        if j < s.len() {
            seq![strip_cr(s.subrange(from, j))] + spec_lines_from(s, j + 1)
        } else {
            seq![s.subrange(from, s.len() as int)]
        }
    }
}

#[via_fn]
proof fn spec_lines_from_decreases(s: Seq<u8>, from: int) {
    if 0 <= from < s.len() {
        lemma_find_byte_bounds(s, LF, from);
    }
}

/// The lines of a whole byte string.
pub open spec fn spec_lines(s: Seq<u8>) -> Seq<Seq<u8>> {
    spec_lines_from(s, 0)
}

/// The deep view of a vector of byte vectors is the sequence of their
/// views.
pub proof fn lemma_deep_view_is_views(v: &Vec<Vec<u8>>)
    ensures
        v.deep_view().len() == v@.len(),
        forall|i: int| 0 <= i < v@.len() ==> v.deep_view()[i] == (#[trigger] v@[i])@,
{
    assert forall|i: int| 0 <= i < v@.len() implies v.deep_view()[i] == (#[trigger] v@[i])@ by {
        assert(v@[i].deep_view() =~= v@[i]@);
    }
}

/// Split a byte string into its lines.
pub fn split_lines(s: &[u8]) -> (r: Vec<Vec<u8>>)
    ensures
        r.deep_view() == spec_lines(s@),
{
    let n = s.len();
    let mut out: Vec<Vec<u8>> = Vec::new();
    let mut cur: Vec<u8> = Vec::new();
    let mut start: usize = 0;
    let mut i: usize = 0;
    proof {
        assert(out.deep_view() + spec_lines_from(s@, 0) =~= spec_lines_from(s@, 0));
    }
    while i < n
        invariant
            n == s@.len(),
            start <= i <= n,
            cur@ == s@.subrange(start as int, i as int),
            forall|k: int| start <= k < i ==> s@[k] != LF,
            spec_lines(s@) == out.deep_view() + spec_lines_from(s@, start as int),
        decreases n - i,
    {
        let b = s[i];
        if b == LF {
            proof {
                lemma_find_byte_at(s@, LF, start as int, i as int);
            }
            if cur.len() > 0 && cur[cur.len() - 1] == CR {
                cur.pop();
            }
            proof {
                assert(cur@ =~= strip_cr(s@.subrange(start as int, i as int)));
            }
            let ghost old_out = out.deep_view();
            proof {
                lemma_deep_view_is_views(&out);
            }
            out.push(cur);
            proof {
                lemma_deep_view_is_views(&out);
                assert(out.deep_view() =~= old_out.push(strip_cr(
                    s@.subrange(start as int, i as int),
                )));
                assert(spec_lines_from(s@, start as int) == seq![
                    strip_cr(s@.subrange(start as int, i as int)),
                ] + spec_lines_from(s@, i as int + 1));
                assert(out.deep_view() + spec_lines_from(s@, i as int + 1) =~= old_out + (seq![
                    strip_cr(s@.subrange(start as int, i as int)),
                ] + spec_lines_from(s@, i as int + 1)));
            }
            cur = Vec::new();
            start = i + 1;
            proof {
                assert(cur@ =~= s@.subrange(start as int, start as int));
            }
        } else {
            cur.push(b);
            proof {
                assert(cur@ =~= s@.subrange(start as int, i as int + 1));
            }
        }
        i = i + 1;
    }
    if cur.len() > 0 {
        proof {
            lemma_find_byte_at(s@, LF, start as int, n as int);
            assert(cur@ =~= s@.subrange(start as int, n as int));
        }
        let ghost old_out = out.deep_view();
        proof {
            lemma_deep_view_is_views(&out);
        }
        out.push(cur);
        proof {
            lemma_deep_view_is_views(&out);
            assert(out.deep_view() =~= old_out.push(s@.subrange(start as int, n as int)));
            assert(spec_lines_from(s@, start as int) =~= seq![
                s@.subrange(start as int, n as int),
            ]);
            assert(out.deep_view() =~= old_out + spec_lines_from(s@, start as int));
        }
    } else {
        proof {
            assert(start == i);
            assert(spec_lines_from(s@, start as int) =~= Seq::<Seq<u8>>::empty());
            assert(out.deep_view() + spec_lines_from(s@, start as int) =~= out.deep_view());
        }
    }
    out
}

/// The whitespace-delimited tokens of `s` starting at `from`: maximal runs
/// of non-whitespace bytes, in order.
pub open spec fn spec_tokens_from(s: Seq<u8>, from: int) -> Seq<Seq<u8>>
    decreases s.len() - from,
    via spec_tokens_from_decreases
{
    if from < 0 {
        Seq::empty()
    } else {
        let a = skip_spaces(s, from);
        if a >= s.len() {
            Seq::empty()
        } else {
            let b = find_space(s, a + 1);
            seq![s.subrange(a, b)] + spec_tokens_from(s, b)
        }
    }
}

#[via_fn]
proof fn spec_tokens_from_decreases(s: Seq<u8>, from: int) {
    if 0 <= from {
        if from <= s.len() {
            lemma_skip_spaces_bounds(s, from);
        }
        let a = skip_spaces(s, from);
        if a < s.len() {
            lemma_find_space_bounds(s, a + 1);
        }
    }
}

/// The whitespace-delimited tokens of a whole byte string.
pub open spec fn spec_tokens(s: Seq<u8>) -> Seq<Seq<u8>> {
    spec_tokens_from(s, 0)
}

/// Advancing over a whitespace byte reaches the same tokens.
proof fn lemma_tokens_skip_space(s: Seq<u8>, from: int)
    requires
        0 <= from < s.len(),
        is_space(s[from]),
    ensures
        spec_tokens_from(s, from) == spec_tokens_from(s, from + 1),
{
    assert(skip_spaces(s, from) == skip_spaces(s, from + 1));
}

/// Split a byte string into its whitespace-delimited tokens.
pub fn tokenize(s: &[u8]) -> (r: Vec<Vec<u8>>)
    ensures
        r.deep_view() == spec_tokens(s@),
{
    let n = s.len();
    let mut out: Vec<Vec<u8>> = Vec::new();
    let mut i: usize = 0;
    proof {
        assert(out.deep_view() + spec_tokens_from(s@, 0) =~= spec_tokens_from(s@, 0));
    }
    while i < n
        invariant
            n == s@.len(),
            i <= n,
            spec_tokens(s@) == out.deep_view() + spec_tokens_from(s@, i as int),
        decreases n - i,
    {
        let b = s[i];
        if byte_is_space(b) {
            proof {
                lemma_tokens_skip_space(s@, i as int);
            }
            i = i + 1;
        } else {
            proof {
                lemma_skip_spaces_at(s@, i as int, i as int);
            }
            let start = i;
            let mut tok: Vec<u8> = Vec::new();
            tok.push(b);
            i = i + 1;
            proof {
                assert(tok@ =~= s@.subrange(start as int, i as int));
            }
            while i < n && !byte_is_space(s[i])
                invariant
                    n == s@.len(),
                    start < i <= n,
                    tok@ == s@.subrange(start as int, i as int),
                    forall|k: int| start <= k < i ==> !is_space(s@[k]),
                decreases n - i,
            {
                tok.push(s[i]);
                proof {
                    assert(tok@ =~= s@.subrange(start as int, i as int + 1));
                }
                i = i + 1;
            }
            proof {
                lemma_find_space_at(s@, start as int + 1, i as int);
                assert(find_space(s@, start as int + 1) == i as int);
            }
            let ghost old_out = out.deep_view();
            proof {
                lemma_deep_view_is_views(&out);
            }
            out.push(tok);
            proof {
                lemma_deep_view_is_views(&out);
                assert(out.deep_view() =~= old_out.push(s@.subrange(start as int, i as int)));
                assert(spec_tokens_from(s@, start as int) == seq![
                    s@.subrange(start as int, i as int),
                ] + spec_tokens_from(s@, i as int));
                assert(out.deep_view() + spec_tokens_from(s@, i as int) =~= old_out + (seq![
                    s@.subrange(start as int, i as int),
                ] + spec_tokens_from(s@, i as int)));
            }
        }
    }
    proof {
        assert(skip_spaces(s@, n as int) == n as int);
        assert(spec_tokens_from(s@, n as int) =~= Seq::<Seq<u8>>::empty());
        assert(out.deep_view() + spec_tokens_from(s@, n as int) =~= out.deep_view());
    }
    out
}

/// Is `b` an ASCII decimal digit?
pub open spec fn is_digit(b: u8) -> bool {
    48 <= b <= 57
}

/// Are all bytes of `s` ASCII decimal digits?
pub open spec fn all_digits(s: Seq<u8>) -> bool {
    forall|i: int| 0 <= i < s.len() ==> is_digit(#[trigger] s[i])
}

/// The decimal value of a digit string (unspecified digits contribute
/// their byte value less 48).
pub open spec fn digits_val(s: Seq<u8>) -> int
    decreases s.len(),
{
    if s.len() == 0 {
        0
    } else {
        digits_val(s.drop_last()) * 10 + (s.last() - 48)
    }
}

/// A digit string's value is nonnegative.
pub proof fn lemma_digits_val_nonneg(s: Seq<u8>)
    requires
        all_digits(s),
    ensures
        digits_val(s) >= 0,
    decreases s.len(),
{
    if s.len() > 0 {
        assert(all_digits(s.drop_last())) by {
            assert(forall|i: int|
                0 <= i < s.len() - 1 ==> #[trigger] s.drop_last()[i] == s[i]);
        }
        lemma_digits_val_nonneg(s.drop_last());
    }
}

/// A digit string's value is at least the value of any of its prefixes.
pub proof fn lemma_digits_val_prefix(s: Seq<u8>, j: int)
    requires
        all_digits(s),
        0 <= j <= s.len(),
    ensures
        digits_val(s) >= digits_val(s.take(j)),
    decreases s.len(),
{
    if j == s.len() {
        assert(s.take(j) =~= s);
    } else {
        assert(all_digits(s.drop_last())) by {
            assert(forall|i: int|
                0 <= i < s.len() - 1 ==> #[trigger] s.drop_last()[i] == s[i]);
        }
        lemma_digits_val_prefix(s.drop_last(), j);
        assert(s.drop_last().take(j) =~= s.take(j));
        lemma_digits_val_nonneg(s.drop_last());
    }
}

/// The value of a nonempty, all-digit byte string, when it does not exceed
/// `max`; `None` for anything else.
pub open spec fn parse_uint(s: Seq<u8>, max: int) -> Option<int> {
    if s.len() > 0 && all_digits(s) && digits_val(s) <= max {
        Some(digits_val(s))
    } else {
        None
    }
}

/// The value of an optionally sign-prefixed digit string, when it lies in
/// `[lo, hi]`; `None` for anything else.
pub open spec fn parse_sint(s: Seq<u8>, lo: int, hi: int) -> Option<int> {
    let neg = s.len() > 0 && s[0] == 45;
    let ds = if s.len() > 0 && (s[0] == 45 || s[0] == 43) {
        s.drop_first()
    } else {
        s
    };
    if ds.len() > 0 && all_digits(ds) {
        let v = if neg {
            -digits_val(ds)
        } else {
            digits_val(ds)
        };
        if lo <= v <= hi {
            Some(v)
        } else {
            None
        }
    } else {
        None
    }
}

/// Parse the decimal digits of `s` from position `from` on as a `u64`.
/// Returns `None` when a byte is not a digit, nothing follows `from`, or
/// the value does not fit.
pub fn parse_u64_from(s: &[u8], from: usize) -> (r: Option<u64>)
    requires
        from <= s@.len(),
    ensures
        match r {
            Some(v) => parse_uint(s@.skip(from as int), u64::MAX as int) == Some(v as int),
            None => parse_uint(s@.skip(from as int), u64::MAX as int) is None,
        },
{
    let ghost ds = s@.skip(from as int);
    let n = s.len();
    if from == n {
        return None;
    }
    let mut acc: u128 = 0;
    let mut i: usize = from;
    proof {
        assert(ds.take(0) =~= Seq::<u8>::empty());
    }
    while i < n
        invariant
            from <= i <= n,
            n == s@.len(),
            ds == s@.skip(from as int),
            acc <= u64::MAX,
            all_digits(ds.take(i - from)),
            acc == digits_val(ds.take(i - from)),
        decreases n - i,
    {
        let b = s[i];
        proof {
            assert(ds[i - from] == s@[i as int]);
        }
        if b < 48 || b > 57 {
            proof {
                assert(!is_digit(ds[i - from]));
                assert(!all_digits(ds));
            }
            return None;
        }
        let ghost pre = ds.take(i - from);
        let ghost cur = ds.take(i - from + 1);
        proof {
            assert(cur.drop_last() =~= pre);
            assert(cur.last() == ds[i - from]);
            assert(all_digits(cur)) by {
                assert(forall|k: int| 0 <= k < cur.len() ==> cur[k] == ds[k]);
            }
        }
        let acc2: u128 = acc * 10 + ((b - 48) as u128);
        proof {
            assert(acc2 == digits_val(cur));
        }
        if acc2 > u64::MAX as u128 {
            proof {
                if all_digits(ds) {
                    lemma_digits_val_prefix(ds, i - from + 1);
                }
            }
            return None;
        }
        acc = acc2;
        i = i + 1;
    }
    proof {
        assert(ds.take(n - from) =~= ds);
    }
    Some(acc as u64)
}

/// Parse an optionally sign-prefixed decimal byte string as an `i32`.
pub fn parse_i32(s: &[u8]) -> (r: Option<i32>)
    ensures
        match r {
            Some(v) => parse_sint(s@, i32::MIN as int, i32::MAX as int) == Some(v as int),
            None => parse_sint(s@, i32::MIN as int, i32::MAX as int) is None,
        },
{
    let n = s.len();
    if n == 0 {
        return None;
    }
    let b0 = s[0];
    let neg = b0 == 45;
    let signed = neg || b0 == 43;
    let start: usize = if signed {
        1
    } else {
        0
    };
    let ghost ds = if signed {
        s@.drop_first()
    } else {
        s@
    };
    proof {
        assert(ds =~= s@.skip(start as int));
    }
    match parse_u64_from(s, start) {
        None => {
            proof {
                if ds.len() > 0 && all_digits(ds) {
                    lemma_digits_val_nonneg(ds);
                    if digits_val(ds) <= u64::MAX {
                        assert(parse_uint(ds, u64::MAX as int) is Some);
                    }
                }
            }
            None
        }
        Some(v) => {
            if neg {
                if v > 0x8000_0000u64 {
                    None
                } else {
                    Some((-(v as i64)) as i32)
                }
            } else {
                if v > 0x7FFF_FFFFu64 {
                    None
                } else {
                    Some(v as i32)
                }
            }
        }
    }
}

/// The first token index at or past `from`, joined with single spaces:
/// how a token tail reads when glued back into one byte string.
pub open spec fn spec_join(ts: Seq<Seq<u8>>, from: int) -> Seq<u8>
    decreases ts.len() - from,
{
    if from < 0 || from >= ts.len() {
        Seq::empty()
    } else if from == ts.len() - 1 {
        ts[from]
    } else {
        ts[from] + seq![32u8] + spec_join(ts, from + 1)
    }
}

/// Join the tokens from `from` on with single spaces.
pub fn join_tokens(ts: &Vec<Vec<u8>>, from: usize) -> (r: Vec<u8>)
    requires
        from <= ts@.len(),
    ensures
        r@ == spec_join(ts.deep_view(), from as int),
    decreases ts@.len() - from,
{
    let n = ts.len();
    let mut r: Vec<u8> = Vec::new();
    if from >= n {
        proof {
            lemma_deep_view_is_views(ts);
            assert(r@ =~= spec_join(ts.deep_view(), from as int));
        }
        return r;
    }
    let first = &ts[from];
    let mut k: usize = 0;
    while k < first.len()
        invariant
            k <= first@.len(),
            first@ == ts@[from as int]@,
            r@ == first@.take(k as int),
        decreases first@.len() - k,
    {
        r.push(first[k]);
        proof {
            assert(r@ =~= first@.take(k + 1));
        }
        k = k + 1;
    }
    proof {
        assert(r@ =~= ts@[from as int]@);
        lemma_deep_view_is_views(ts);
    }
    if from == n - 1 {
        proof {
            assert(r@ == spec_join(ts.deep_view(), from as int));
        }
        return r;
    }
    r.push(32);
    let rest = join_tokens(ts, from + 1);
    let mut j: usize = 0;
    let ghost mid = r@;
    while j < rest.len()
        invariant
            j <= rest@.len(),
            r@ == mid + rest@.take(j as int),
        decreases rest@.len() - j,
    {
        r.push(rest[j]);
        proof {
            assert(r@ =~= mid + rest@.take(j + 1));
        }
        j = j + 1;
    }
    proof {
        assert(rest@.take(rest@.len() as int) =~= rest@);
        assert(r@ =~= (ts.deep_view()[from as int] + seq![32u8]) + rest@);
        assert(r@ =~= ts.deep_view()[from as int] + seq![32u8] + rest@);
    }
    r
}

/// The bytes of an ASCII keyword, character by character.
pub open spec fn kw(s: Seq<char>) -> Seq<u8> {
    Seq::new(s.len(), |i: int| s[i] as u8)
}

/// Is this token the given keyword, byte for byte?
pub fn token_is(t: &[u8], kws: &str) -> (r: bool)
    ensures
        r == (t@ == kw(kws@)),
{
    let n = kws.unicode_len();
    if t.len() != n {
        proof {
            assert(t@ != kw(kws@)) by {
                assert(kw(kws@).len() == kws@.len());
            }
        }
        return false;
    }
    let mut i: usize = 0;
    while i < n
        invariant
            n == kws@.len(),
            n == t@.len(),
            i <= n,
            forall|k: int| 0 <= k < i ==> t@[k] == kw(kws@)[k],
        decreases n - i,
    {
        let c = kws.get_char(i);
        let cb = c as u8;
        if t[i] != cb {
            proof {
                assert(kw(kws@)[i as int] == kws@[i as int] as u8);
                assert(t@ != kw(kws@)) by {
                    if t@ == kw(kws@) {
                        assert(t@[i as int] == kw(kws@)[i as int]);
                    }
                }
            }
            return false;
        }
        i = i + 1;
    }
    proof {
        assert(t@ =~= kw(kws@));
    }
    true
}

/// Do two byte strings hold the same bytes?
pub fn bytes_eq(a: &[u8], b: &[u8]) -> (r: bool)
    ensures
        r == (a@ == b@),
{
    if a.len() != b.len() {
        return false;
    }
    let n = a.len();
    let mut i: usize = 0;
    while i < n
        invariant
            i <= n,
            n == a@.len() == b@.len(),
            forall|k: int| 0 <= k < i ==> a@[k] == b@[k],
        decreases n - i,
    {
        if a[i] != b[i] {
            return false;
        }
        i = i + 1;
    }
    proof {
        assert(a@ =~= b@);
    }
    true
}

/// Where trimming leading whitespace of `s` starts.
pub open spec fn trim_start_idx(s: Seq<u8>) -> int {
    skip_spaces(s, 0)
}

/// Where trimming trailing whitespace of `s` ends: the index just past the
/// last non-whitespace byte, or 0 if there is none.
pub open spec fn trim_end_idx(s: Seq<u8>) -> int
    decreases s.len(),
{
    if s.len() == 0 {
        0
    } else if is_space(s.last()) {
        trim_end_idx(s.drop_last())
    } else {
        s.len() as int
    }
}

/// `s` with leading and trailing whitespace removed.
pub open spec fn spec_trim(s: Seq<u8>) -> Seq<u8> {
    if trim_start_idx(s) < trim_end_idx(s) {
        s.subrange(trim_start_idx(s), trim_end_idx(s))
    } else {
        Seq::empty()
    }
}

/// `trim_end_idx` returns `e` exactly when everything from `e` on is
/// whitespace and the byte before `e` is not (or `e` is 0).
pub proof fn lemma_trim_end_at(s: Seq<u8>, e: int)
    requires
        0 <= e <= s.len(),
        forall|k: int| e <= k < s.len() ==> is_space(s[k]),
        e > 0 ==> !is_space(s[e - 1]),
    ensures
        trim_end_idx(s) == e,
    decreases s.len(),
{
    if s.len() == 0 {
    } else if is_space(s.last()) {
        assert(e < s.len());
        assert(forall|k: int| e <= k < s.len() - 1 ==> is_space(s.drop_last()[k]));
        lemma_trim_end_at(s.drop_last(), e);
    }
}

/// `trim_end_idx` stays within the sequence.
pub proof fn lemma_trim_end_bounds(s: Seq<u8>)
    ensures
        0 <= trim_end_idx(s) <= s.len(),
    decreases s.len(),
{
    if s.len() > 0 && is_space(s.last()) {
        lemma_trim_end_bounds(s.drop_last());
    }
}

/// Remove leading and trailing whitespace.
pub fn trim(s: &[u8]) -> (r: Vec<u8>)
    ensures
        r@ == spec_trim(s@),
{
    let n = s.len();
    let mut a: usize = 0;
    while a < n && byte_is_space(s[a])
        invariant
            n == s@.len(),
            a <= n,
            forall|k: int| 0 <= k < a ==> is_space(s@[k]),
        decreases n - a,
    {
        a = a + 1;
    }
    proof {
        lemma_skip_spaces_at(s@, 0, a as int);
    }
    let mut e: usize = n;
    while e > a && byte_is_space(s[e - 1])
        invariant
            n == s@.len(),
            a <= e <= n,
            forall|k: int| e <= k < n ==> is_space(s@[k]),
        decreases e,
    {
        e = e - 1;
    }
    let mut r: Vec<u8> = Vec::new();
    if a == e {
        proof {
            if a < n {
                assert(is_space(s@[a as int]));
                assert(false);
            }
            lemma_trim_end_bounds(s@);
            assert(r@ =~= spec_trim(s@));
        }
        return r;
    }
    proof {
        assert(!is_space(s@[e - 1]));
        lemma_trim_end_at(s@, e as int);
    }
    let mut k: usize = a;
    while k < e
        invariant
            a <= k <= e <= n,
            n == s@.len(),
            r@ == s@.subrange(a as int, k as int),
        decreases e - k,
    {
        r.push(s[k]);
        proof {
            assert(r@ =~= s@.subrange(a as int, k as int + 1));
        }
        k = k + 1;
    }
    proof {
        assert(trim_start_idx(s@) == a as int);
        assert(trim_end_idx(s@) == e as int);
    }
    r
}

} // verus!
