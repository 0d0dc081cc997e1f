//! Character-level text utilities: conversions between `String` and
//! `Vec<char>`, decimal rendering and parsing of unsigned integers,
//! whitespace trimming, and comma-separated field splitting.

use vstd::prelude::*;

verus! {

/// Relies on `String::push`: appends one character to the string.
pub assume_specification[ String::push ](s: &mut String, ch: char)
    ensures
        final(s)@ == old(s)@.push(ch),
;

/// Copy the characters of a string slice into a vector.
pub fn str_chars(s: &str) -> (v: Vec<char>)
    ensures
        v@ == s@,
{
    let n: usize = s.unicode_len();
    let mut v: Vec<char> = Vec::new();
    let mut i: usize = 0;
    while i < n
        invariant
            n == s@.len(),
            0 <= i <= n,
            v@ == s@.take(i as int),
        decreases n - i,
    {
        v.push(s.get_char(i));
        i = i + 1;
        proof {
            assert(v@ =~= s@.take(i as int));
        }
    }
    proof {
        assert(v@ =~= s@);
    }
    v
}

/// Build a string from a range of a character vector.
pub fn chars_string(v: &Vec<char>, from: usize, to: usize) -> (s: String)
    requires
        from <= to <= v@.len(),
    ensures
        s@ == v@.subrange(from as int, to as int),
{
    let mut s = String::new();
    let mut i: usize = from;
    while i < to
        invariant
            from <= i <= to <= v@.len(),
            s@ == v@.subrange(from as int, i as int),
        decreases to - i,
    {
        s.push(v[i]);
        i = i + 1;
        proof {
            assert(s@ =~= v@.subrange(from as int, i as int));
        }
    }
    s
}

pub open spec fn is_ws(c: char) -> bool {
    c == ' ' || c == '\t' || c == '\r' || c == '\n'
}

pub open spec fn is_digit(c: char) -> bool {
    48 <= (c as u32) && (c as u32) <= 57
}

pub open spec fn digit_val(c: char) -> nat
    recommends
        is_digit(c),
{
    ((c as u32) - 48) as nat
}

pub open spec fn all_digits(s: Seq<char>) -> bool {
    forall|i: int| 0 <= i < s.len() ==> is_digit(s[i])
}

/// Numeric value of a sequence of decimal digit characters.
pub open spec fn dec_val(s: Seq<char>) -> nat
    decreases s.len(),
{
    if s.len() == 0 {
        0
    } else {
        dec_val(s.drop_last()) * 10 + digit_val(s.last())
    }
}

pub open spec fn digit_char(d: nat) -> char
    recommends
        d < 10,
{
    ((48 + d) as u8) as char
}

/// Canonical decimal rendering of a natural number, no leading zeros.
pub open spec fn dec_digits(n: nat) -> Seq<char>
    decreases n,
{
    if n < 10 {
        seq![digit_char(n)]
    } else {
        dec_digits(n / 10).push(digit_char(n % 10))
    }
}

pub proof fn lemma_dec_digits_all_digits(n: nat)
    ensures
        dec_digits(n).len() >= 1,
        all_digits(dec_digits(n)),
    decreases n,
{
    if n < 10 {
    } else {
        lemma_dec_digits_all_digits(n / 10);
    }
}

/// Rendering a number and reading it back gives the number again.
pub proof fn lemma_dec_digits_val(n: nat)
    ensures
        dec_val(dec_digits(n)) == n,
    decreases n,
{
    if n < 10 {
        let s1 = seq![digit_char(n)];
        assert(dec_digits(n) =~= s1);
        assert(s1.len() == 1);
        assert(s1.last() == digit_char(n));
        assert(s1.drop_last() =~= Seq::<char>::empty());
        assert(dec_val(s1.drop_last()) == 0);
        assert(dec_val(s1) == dec_val(s1.drop_last()) * 10 + digit_val(s1.last()));
        assert(digit_val(digit_char(n)) == n);
    } else {
        lemma_dec_digits_val(n / 10);
        let s = dec_digits(n);
        assert(s.drop_last() =~= dec_digits(n / 10));
        assert(s.last() == digit_char(n % 10));
        assert(digit_val(digit_char(n % 10)) == n % 10);
        assert(dec_val(s) == (n / 10) * 10 + n % 10);
        assert((n / 10) * 10 + n % 10 == n) by (nonlinear_arith);
    }
}

/// Append the decimal rendering of `n` to a character vector.
pub fn push_dec_u64(v: &mut Vec<char>, n: u64)
    ensures
        final(v)@ == old(v)@ + dec_digits(n as nat),
    decreases n,
{
    if n < 10 {
        let c: char = (48 + n as u8) as char;
        proof {
            assert(c == digit_char(n as nat));
        }
        v.push(c);
        proof {
            assert(v@ =~= old(v)@ + dec_digits(n as nat));
        }
    } else {
        push_dec_u64(v, n / 10);
        let c: char = (48 + (n % 10) as u8) as char;
        proof {
            assert(c == digit_char((n % 10) as nat));
            assert(n as nat / 10 == (n / 10) as nat);
        }
        v.push(c);
        proof {
            assert(v@ =~= old(v)@ + dec_digits(n as nat));
        }
    }
}

/// What a digit string denotes as a `u64`: defined exactly when the
/// string is nonempty, all digits, and the value fits.
pub open spec fn parses_u64(s: Seq<char>) -> Option<u64> {
    if s.len() >= 1 && all_digits(s) && dec_val(s) <= u64::MAX {
        Some(dec_val(s) as u64)
    } else {
        None
    }
}

/// The value of a digit string is at least the value of any prefix.
proof fn lemma_dec_val_prefix(s: Seq<char>, k: int)
    requires
        0 <= k <= s.len(),
    ensures
        dec_val(s) >= dec_val(s.take(k)),
    decreases s.len() - k,
{
    if k == s.len() {
        assert(s.take(k) =~= s);
    } else {
        lemma_dec_val_prefix(s, k + 1);
        let t = s.take(k + 1);
        assert(t.drop_last() =~= s.take(k));
        assert(dec_val(t) == dec_val(s.take(k)) * 10 + digit_val(t.last()));
        assert(dec_val(s.take(k)) * 10 >= dec_val(s.take(k))) by (nonlinear_arith);
    }
}

/// Parse the characters `v[from..to]` as a decimal `u64`.
pub fn parse_u64_chars(v: &Vec<char>, from: usize, to: usize) -> (r: Option<u64>)
    requires
        from <= to <= v@.len(),
    ensures
        r == parses_u64(v@.subrange(from as int, to as int)),
{
    let ghost s = v@.subrange(from as int, to as int);
    if from == to {
        return None;
    }
    let mut acc: u64 = 0;
    let mut i: usize = from;
    while i < to
        invariant
            from <= i <= to <= v@.len(),
            s == v@.subrange(from as int, to as int),
            all_digits(s.take(i - from)),
            acc as nat == dec_val(s.take(i - from)),
        decreases to - i,
    {
        let c = v[i];
        let u: u32 = c as u32;
        proof {
            assert(s[i - from] == c);
        }
        if !(48 <= u && u <= 57) {
            proof {
                assert(!is_digit(s[i - from]));
                assert(!all_digits(s));
            }
            return None;
        }
        let d: u64 = (u - 48) as u64;
        let wide: u128 = (acc as u128) * 10 + (d as u128);
        proof {
            let t = s.take(i - from + 1);
            assert(t.drop_last() =~= s.take(i - from));
            assert(t.last() == c);
            assert(is_digit(c));
            assert(digit_val(c) == d as nat);
            assert(wide as nat == dec_val(t));
        }
        if wide > u64::MAX as u128 {
            proof {
                lemma_dec_val_prefix(s, i - from + 1);
                assert(dec_val(s) > u64::MAX);
            }
            return None;
        }
        acc = wide as u64;
        i = i + 1;
    }
    proof {
        assert(s.take(to - from) =~= s);
    }
    Some(acc)
}

/// A sequence with its leading and trailing whitespace removed.
pub open spec fn trimmed(s: Seq<char>) -> Seq<char>
    decreases s.len(),
{
    if s.len() > 0 && is_ws(s[0]) {
        trimmed(s.drop_first())
    } else if s.len() > 0 && is_ws(s.last()) {
        trimmed(s.drop_last())
    } else {
        s
    }
}

/// Bounds of `v[from..to]` once whitespace at both ends is dropped.
pub fn trim_bounds(v: &Vec<char>, from: usize, to: usize) -> (r: (usize, usize))
    requires
        from <= to <= v@.len(),
    ensures
        from <= r.0 <= r.1 <= to,
        v@.subrange(r.0 as int, r.1 as int) == trimmed(v@.subrange(from as int, to as int)),
{
    let mut lo: usize = from;
    let mut hi: usize = to;
    loop
        invariant
            from <= lo <= hi <= to <= v@.len(),
            trimmed(v@.subrange(from as int, to as int)) == trimmed(
                v@.subrange(lo as int, hi as int),
            ),
        decreases hi - lo,
    {
        let ghost cur = v@.subrange(lo as int, hi as int);
        if lo < hi {
            let c = v[lo];
            if c == ' ' || c == '\t' || c == '\r' || c == '\n' {
                proof {
                    assert(cur[0] == c);
                    assert(cur.drop_first() =~= v@.subrange(lo + 1, hi as int));
                }
                lo = lo + 1;
                continue;
            }
            let d = v[hi - 1];
            if d == ' ' || d == '\t' || d == '\r' || d == '\n' {
                proof {
                    assert(cur.last() == d);
                    assert(!is_ws(cur[0]));
                    assert(cur.drop_last() =~= v@.subrange(lo as int, hi - 1));
                }
                hi = hi - 1;
                continue;
            }
            proof {
                assert(!is_ws(cur[0]));
                assert(!is_ws(cur.last()));
                assert(trimmed(cur) == cur);
            }
            return (lo, hi);
        }
        proof {
            assert(cur.len() == 0);
            assert(trimmed(cur) == cur);
        }
        return (lo, hi);
    }
}

/// The comma-separated fields of a sequence: each field trimmed of
/// whitespace, empty fields dropped. `cur` carries the characters of
/// the field read so far.
pub open spec fn csv_fields_from(s: Seq<char>, cur: Seq<char>) -> Seq<Seq<char>>
    decreases s.len(),
{
    if s.len() == 0 {
        let f = trimmed(cur);
        if f.len() > 0 {
            seq![f]
        } else {
            Seq::empty()
        }
    } else if s[0] == ',' {
        let f = trimmed(cur);
        (if f.len() > 0 {
            seq![f]
        } else {
            Seq::empty()
        }) + csv_fields_from(s.drop_first(), Seq::empty())
    } else {
        csv_fields_from(s.drop_first(), cur.push(s[0]))
    }
}

pub open spec fn csv_fields(s: Seq<char>) -> Seq<Seq<char>> {
    csv_fields_from(s, Seq::empty())
}

/// The distinct members of a sequence, first occurrences kept in order.
pub open spec fn dedup_first(s: Seq<Seq<char>>) -> Seq<Seq<char>>
    decreases s.len(),
{
    if s.len() == 0 {
        s
    } else {
        let p = dedup_first(s.drop_last());
        if p.contains(s.last()) {
            p
        } else {
            p.push(s.last())
        }
    }
}

pub proof fn lemma_dedup_first_members(s: Seq<Seq<char>>)
    ensures
        dedup_first(s).no_duplicates(),
        forall|x: Seq<char>| #[trigger] dedup_first(s).contains(x) <==> s.contains(x),
    decreases s.len(),
{
    if s.len() == 0 {
    } else {
        lemma_dedup_first_members(s.drop_last());
        let d = s.drop_last();
        let p = dedup_first(d);
        let r = dedup_first(s);
        assert forall|x: Seq<char>| s.contains(x) implies #[trigger] r.contains(x) by {
            let i = choose|i: int| 0 <= i < s.len() && s[i] == x;
            if i == s.len() - 1 {
                if !p.contains(x) {
                    assert(r[r.len() - 1] == x);
                }
            } else {
                assert(d[i] == x);
                assert(d.contains(x));
                assert(p.contains(x));
                if !p.contains(s.last()) {
                    let j = choose|j: int| 0 <= j < p.len() && p[j] == x;
                    assert(r[j] == x);
                }
            }
        }
        assert forall|x: Seq<char>| #[trigger] r.contains(x) implies s.contains(x) by {
            let j = choose|j: int| 0 <= j < r.len() && r[j] == x;
            if p.contains(s.last()) || j < p.len() {
                assert(p[j] == x);
                assert(p.contains(x));
                assert(d.contains(x));
                let i = choose|i: int| 0 <= i < d.len() && d[i] == x;
                assert(s[i] == x);
            } else {
                assert(x == s.last());
                assert(s[s.len() - 1] == x);
            }
        }
        if p.contains(s.last()) {
        } else {
            assert forall|i: int, j: int| 0 <= i < j < r.len() implies r[i] != r[j] by {
                if j < r.len() - 1 {
                    assert(r[i] == p[i] && r[j] == p[j]);
                } else {
                    assert(r[j] == s.last());
                    if r[i] == s.last() {
                        assert(p[i] == s.last());
                        assert(p.contains(s.last()));
                    }
                }
            }
        }
    }
}

/// The view of each string in a vector, as a sequence of char sequences.
pub open spec fn views_of(v: Seq<String>) -> Seq<Seq<char>> {
    v.map_values(|s: String| s@)
}

/// Whether some string in `v[..upto]` has view `x`.
pub fn contains_string(v: &Vec<String>, x: &String) -> (r: bool)
    ensures
        r == views_of(v@).contains(x@),
{
    let mut i: usize = 0;
    while i < v.len()
        invariant
            0 <= i <= v@.len(),
            forall|j: int| 0 <= j < i ==> v@[j]@ != x@,
        decreases v@.len() - i,
    {
        if v[i].eq(x) {
            proof {
                assert(views_of(v@)[i as int] == x@);
            }
            return true;
        }
        i = i + 1;
    }
    proof {
        assert forall|j: int| 0 <= j < views_of(v@).len() implies views_of(v@)[j] != x@ by {
            assert(v@[j]@ != x@);
        }
    }
    false
}

/// Whether `v` holds the number `x`.
pub fn contains_u64(v: &Vec<u64>, x: u64) -> (r: bool)
    ensures
        r == v@.contains(x),
{
    let mut i: usize = 0;
    while i < v.len()
        invariant
            0 <= i <= v@.len(),
            forall|j: int| 0 <= j < i ==> v@[j] != x,
        decreases v@.len() - i,
    {
        if v[i] == x {
            return true;
        }
        i = i + 1;
    }
    false
}

/// Split a comma-separated list into its distinct trimmed fields.
pub fn parse_fields(s: &str) -> (r: Vec<String>)
    ensures
        views_of(r@) == dedup_first(csv_fields(s@)),
        views_of(r@).no_duplicates(),
        forall|x: Seq<char>| views_of(r@).contains(x) <==> csv_fields(s@).contains(x),
{
    let chars = str_chars(s);
    let n = chars.len();
    let mut out: Vec<String> = Vec::new();
    let ghost mut fields: Seq<Seq<char>> = Seq::empty();
    let mut start: usize = 0;
    let mut i: usize = 0;
    proof {
        assert(chars@.skip(0) =~= chars@);
        assert(chars@.subrange(0, 0) =~= Seq::<char>::empty());
        assert(Seq::<Seq<char>>::empty() + csv_fields_from(chars@, Seq::empty())
            =~= csv_fields_from(chars@, Seq::empty()));
    }
    while i < n
        invariant
            chars@ == s@,
            n == chars@.len(),
            0 <= start <= i <= n,
            csv_fields(s@) == fields + csv_fields_from(
                chars@.skip(i as int),
                chars@.subrange(start as int, i as int),
            ),
            views_of(out@) == dedup_first(fields),
        decreases n - i,
    {
        let c = chars[i];
        let ghost rest = chars@.skip(i as int);
        let ghost cur = chars@.subrange(start as int, i as int);
        if c == ',' {
            proof {
                assert(rest[0] == ',');
                assert(rest.drop_first() =~= chars@.skip(i + 1));
            }
            let (lo, hi) = trim_bounds(&chars, start, i);
            if lo < hi {
                let f = chars_string(&chars, lo, hi);
                proof {
                    assert(f@ == trimmed(cur));
                    assert(fields + (seq![trimmed(cur)] + csv_fields_from(
                        chars@.skip(i + 1),
                        Seq::empty(),
                    )) =~= fields.push(trimmed(cur)) + csv_fields_from(
                        chars@.skip(i + 1),
                        Seq::empty(),
                    ));
                }
                let dup = contains_string(&out, &f);
                proof {
                    assert(fields.push(f@).drop_last() =~= fields);
                    assert(fields.push(f@).last() == f@);
                }
                if !dup {
                    out.push(f);
                    proof {
                        assert(views_of(out@) =~= dedup_first(fields).push(trimmed(cur)));
                    }
                }
                proof {
                    fields = fields.push(trimmed(cur));
                }
            } else {
                proof {
                    assert(trimmed(cur).len() == 0);
                    assert(Seq::<Seq<char>>::empty() + csv_fields_from(
                        chars@.skip(i + 1),
                        Seq::empty(),
                    ) =~= csv_fields_from(chars@.skip(i + 1), Seq::empty()));
                }
            }
            proof {
                assert(chars@.subrange(i + 1, i + 1) =~= Seq::<char>::empty());
            }
            start = i + 1;
            i = i + 1;
        } else {
            proof {
                assert(rest[0] == c);
                assert(rest.drop_first() =~= chars@.skip(i + 1));
                assert(cur.push(c) =~= chars@.subrange(start as int, i + 1));
            }
            i = i + 1;
        }
    }
    let ghost cur = chars@.subrange(start as int, i as int);
    proof {
        assert(chars@.skip(i as int).len() == 0);
    }
    let (lo, hi) = trim_bounds(&chars, start, n);
    if lo < hi {
        let f = chars_string(&chars, lo, hi);
        proof {
            assert(f@ == trimmed(cur));
            assert(fields + seq![trimmed(cur)] =~= fields.push(trimmed(cur)));
        }
        let dup = contains_string(&out, &f);
        proof {
            assert(fields.push(f@).drop_last() =~= fields);
            assert(fields.push(f@).last() == f@);
        }
        if !dup {
            out.push(f);
            proof {
                assert(views_of(out@) =~= dedup_first(fields).push(trimmed(cur)));
            }
        }
        proof {
            fields = fields.push(trimmed(cur));
        }
    } else {
        proof {
            assert(trimmed(cur).len() == 0);
            assert(fields + Seq::<Seq<char>>::empty() =~= fields);
        }
    }
    proof {
        assert(fields == csv_fields(s@));
        lemma_dedup_first_members(csv_fields(s@));
    }
    out
}


/// Whether `n` occurs in `h` starting at position `i`.
pub open spec fn match_at(h: Seq<char>, n: Seq<char>, i: int) -> bool {
    0 <= i && i + n.len() <= h.len() && h.subrange(i, i + n.len()) == n
}

/// Whether `n` occurs anywhere in `h`.
pub open spec fn contains_seq(h: Seq<char>, n: Seq<char>) -> bool {
    exists|i: int| match_at(h, n, i)
}

/// Whether the needle occurs at position `i` of the haystack.
pub fn is_match_at(h: &Vec<char>, n: &Vec<char>, i: usize) -> (r: bool)
    requires
        i <= h@.len(),
    ensures
        r == match_at(h@, n@, i as int),
{
    if h.len() - i < n.len() {
        return false;
    }
    let mut k: usize = 0;
    while k < n.len()
        invariant
            i + n@.len() <= h@.len(),
            h@.len() <= usize::MAX,
            0 <= k <= n@.len(),
            forall|j: int| 0 <= j < k ==> h@[i + j] == n@[j],
        decreases n@.len() - k,
    {
        proof {
            assert(i + k < h@.len());
        }
        if h[i + k] != n[k] {
            proof {
                if match_at(h@, n@, i as int) {
                    assert(h@.subrange(i as int, i + n@.len())[k as int] == n@[k as int]);
                }
            }
            return false;
        }
        k = k + 1;
    }
    proof {
        assert(h@.subrange(i as int, i + n@.len()) =~= n@);
    }
    true
}

/// The first position at or after `from` where the needle occurs.
pub fn find_match(h: &Vec<char>, n: &Vec<char>, from: usize) -> (r: Option<usize>)
    requires
        from <= h@.len(),
    ensures
        match r {
            Some(i) => from <= i && match_at(h@, n@, i as int) && forall|j: int|
                from <= j < i ==> !match_at(h@, n@, j),
            None => forall|j: int| j >= from ==> !match_at(h@, n@, j),
        },
{
    let mut i: usize = from;
    while i < h.len()
        invariant
            from <= i <= h@.len(),
            forall|j: int| from <= j < i ==> !match_at(h@, n@, j),
        decreases h@.len() - i,
    {
        if is_match_at(h, n, i) {
            return Some(i);
        }
        i = i + 1;
    }
    if is_match_at(h, n, h.len()) {
        return Some(h.len());
    }
    proof {
        assert forall|j: int| j >= from implies !match_at(h@, n@, j) by {
            if j > h@.len() {
                assert(!match_at(h@, n@, j));
            }
        }
    }
    None
}

/// Exact equality of two string slices.
pub fn str_eq(a: &str, b: &str) -> (r: bool)
    ensures
        r == (a@ == b@),
{
    let na = a.unicode_len();
    let nb = b.unicode_len();
    if na != nb {
        return false;
    }
    let mut i: usize = 0;
    while i < na
        invariant
            na == a@.len() && na == b@.len(),
            0 <= i <= na,
            forall|j: int| 0 <= j < i ==> a@[j] == b@[j],
        decreases na - i,
    {
        if a.get_char(i) != b.get_char(i) {
            return false;
        }
        i = i + 1;
    }
    proof {
        assert(a@ =~= b@);
    }
    true
}


/// Whether some string in `v` equals the slice `x`.
pub fn contains_str(v: &Vec<String>, x: &str) -> (r: bool)
    ensures
        r == views_of(v@).contains(x@),
{
    let mut i: usize = 0;
    while i < v.len()
        invariant
            0 <= i <= v@.len(),
            forall|j: int| 0 <= j < i ==> v@[j]@ != x@,
        decreases v@.len() - i,
    {
        if str_eq(v[i].as_str(), x) {
            proof {
                assert(views_of(v@)[i as int] == x@);
            }
            return true;
        }
        i = i + 1;
    }
    proof {
        assert forall|j: int| 0 <= j < views_of(v@).len() implies views_of(v@)[j] != x@ by {
            assert(v@[j]@ != x@);
        }
    }
    false
}


/// Append the characters of a string slice to a vector.
pub fn push_str_chars(v: &mut Vec<char>, s: &str)
    ensures
        final(v)@ == old(v)@ + s@,
{
    let n: usize = s.unicode_len();
    let mut i: usize = 0;
    while i < n
        invariant
            n == s@.len(),
            0 <= i <= n,
            v@ == old(v)@ + s@.take(i as int),
        decreases n - i,
    {
        v.push(s.get_char(i));
        i = i + 1;
        proof {
            assert(v@ =~= old(v)@ + s@.take(i as int));
        }
    }
    proof {
        assert(old(v)@ + s@.take(n as int) =~= old(v)@ + s@);
    }
}

/// The first position at or after `from` holding the character `c`.
pub fn find_char(v: &Vec<char>, c: char, from: usize) -> (r: Option<usize>)
    requires
        from <= v@.len(),
    ensures
        match r {
            Some(i) => from <= i < v@.len() && v@[i as int] == c && forall|j: int|
                from <= j < i ==> v@[j] != c,
            None => forall|j: int| from <= j < v@.len() ==> v@[j] != c,
        },
{
    let mut i: usize = from;
    while i < v.len()
        invariant
            from <= i <= v@.len(),
            forall|j: int| from <= j < i ==> v@[j] != c,
        decreases v@.len() - i,
    {
        if v[i] == c {
            return Some(i);
        }
        i = i + 1;
    }
    None
}

} // verus!
