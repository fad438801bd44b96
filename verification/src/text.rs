//! Text helpers the core logic needs: decimal rendering of identifiers,
//! list joining, whitespace trimming and ASCII case-insensitive comparison.

use vstd::prelude::*;
use vstd::string::StrSliceExecFns;
use vstd::string::StringExecFns;

verus! {

/// The Unicode whitespace characters recognized when trimming input.
pub open spec fn is_space_char(c: char) -> bool {
    c == '\u{0009}' || c == '\u{000A}' || c == '\u{000B}' || c == '\u{000C}' || c == '\u{000D}'
        || c == '\u{0020}' || c == '\u{0085}' || c == '\u{00A0}' || c == '\u{1680}' || ('\u{2000}'
        <= c && c <= '\u{200A}') || c == '\u{2028}' || c == '\u{2029}' || c == '\u{202F}' || c
        == '\u{205F}' || c == '\u{3000}'
}

fn is_space(c: char) -> (b: bool)
    ensures
        b == is_space_char(c),
{
    c == '\u{0009}' || c == '\u{000A}' || c == '\u{000B}' || c == '\u{000C}' || c == '\u{000D}'
        || c == '\u{0020}' || c == '\u{0085}' || c == '\u{00A0}' || c == '\u{1680}' || ('\u{2000}'
        <= c && c <= '\u{200A}') || c == '\u{2028}' || c == '\u{2029}' || c == '\u{202F}' || c
        == '\u{205F}' || c == '\u{3000}'
}

pub open spec fn spec_trim_front(s: Seq<char>) -> Seq<char>
    decreases s.len(),
{
    if s.len() > 0 && is_space_char(s[0]) {
        spec_trim_front(s.drop_first())
    } else {
        s
    }
}

pub open spec fn spec_trim_back(s: Seq<char>) -> Seq<char>
    decreases s.len(),
{
    if s.len() > 0 && is_space_char(s.last()) {
        spec_trim_back(s.drop_last())
    } else {
        s
    }
}

/// The input with leading and trailing whitespace removed.
pub open spec fn spec_trim(s: Seq<char>) -> Seq<char> {
    spec_trim_back(spec_trim_front(s))
}

proof fn lemma_trim_front_skip(s: Seq<char>, i: int)
    requires
        0 <= i <= s.len(),
        forall|k: int| 0 <= k < i ==> is_space_char(s[k]),
        i == s.len() || !is_space_char(s[i]),
    ensures
        spec_trim_front(s) == s.skip(i),
    decreases i,
{
    if i == 0 {
        assert(s.skip(0) =~= s);
    } else {
        assert(is_space_char(s[0]));
        let t = s.drop_first();
        assert(t =~= s.skip(1));
        lemma_trim_front_skip(t, i - 1);
        assert(t.skip(i - 1) =~= s.skip(i));
    }
}

proof fn lemma_trim_back_take(s: Seq<char>, e: int)
    requires
        0 <= e <= s.len(),
        forall|k: int| e <= k < s.len() ==> is_space_char(s[k]),
        e == 0 || !is_space_char(s[e - 1]),
    ensures
        spec_trim_back(s) == s.take(e),
    decreases s.len(),
{
    if e == s.len() {
        if s.len() == 0 {
            assert(s.take(0) =~= s);
        } else {
            assert(!is_space_char(s.last()));
            assert(s.take(e) =~= s);
        }
    } else {
        assert(is_space_char(s.last()));
        let t = s.drop_last();
        lemma_trim_back_take(t, e);
        assert(t.take(e) =~= s.take(e));
    }
}

/// Remove leading and trailing whitespace from a string slice.
pub fn trim_text<'a>(s: &'a str) -> (r: &'a str)
    ensures
        r@ == spec_trim(s@),
{
    let n = s.unicode_len();
    let mut start: usize = 0;
    while start < n && is_space(s.get_char(start))
        invariant
            start <= n,
            n == s@.len(),
            forall|k: int| 0 <= k < start ==> is_space_char(s@[k]),
        decreases n - start,
    {
        start += 1;
    }
    let mut end: usize = n;
    while end > start && is_space(s.get_char(end - 1))
        invariant
            start <= end <= n,
            n == s@.len(),
            forall|k: int| 0 <= k < start ==> is_space_char(s@[k]),
            forall|k: int| end <= k < n ==> is_space_char(s@[k]),
        decreases end,
    {
        end -= 1;
    }
    let r = s.substring_char(start, end);
    proof {
        lemma_trim_front_skip(s@, start as int);
        let t = s@.skip(start as int);
        lemma_trim_back_take(t, end - start);
        assert(t.take(end - start) =~= s@.subrange(start as int, end as int));
    }
    r
}

/// Whether the input holds nothing but whitespace.
pub fn is_blank_text(s: &str) -> (b: bool)
    ensures
        b == (spec_trim(s@).len() == 0),
{
    let t = trim_text(s);
    t.is_empty()
}

/// The decimal digit character for a value below ten.
pub open spec fn dec_digit(d: int) -> char {
    if d == 0 {
        '0'
    } else if d == 1 {
        '1'
    } else if d == 2 {
        '2'
    } else if d == 3 {
        '3'
    } else if d == 4 {
        '4'
    } else if d == 5 {
        '5'
    } else if d == 6 {
        '6'
    } else if d == 7 {
        '7'
    } else if d == 8 {
        '8'
    } else {
        '9'
    }
}

/// The decimal rendering of a non-negative number, most significant digit
/// first.
pub open spec fn dec_chars(n: nat) -> Seq<char>
    decreases n,
{
    if n < 10 {
        seq![dec_digit(n as int)]
    } else {
        dec_chars(n / 10).push(dec_digit((n % 10) as int))
    }
}

/// The decimal rendering of a signed number.
pub open spec fn spec_i32_dec(n: int) -> Seq<char> {
    if n < 0 {
        seq!['-'] + dec_chars((-n) as nat)
    } else {
        dec_chars(n as nat)
    }
}

fn digit_str(d: u32) -> (r: &'static str)
    requires
        d < 10,
    ensures
        r@ =~= seq![dec_digit(d as int)],
{
    let r = if d == 0 {
        "0"
    } else if d == 1 {
        "1"
    } else if d == 2 {
        "2"
    } else if d == 3 {
        "3"
    } else if d == 4 {
        "4"
    } else if d == 5 {
        "5"
    } else if d == 6 {
        "6"
    } else if d == 7 {
        "7"
    } else if d == 8 {
        "8"
    } else {
        "9"
    };
    proof {
        reveal_strlit("0");
        reveal_strlit("1");
        reveal_strlit("2");
        reveal_strlit("3");
        reveal_strlit("4");
        reveal_strlit("5");
        reveal_strlit("6");
        reveal_strlit("7");
        reveal_strlit("8");
        reveal_strlit("9");
    }
    r
}

fn push_u32_dec(s: &mut String, n: u32)
    ensures
        final(s)@ == old(s)@ + dec_chars(n as nat),
    decreases n,
{
    if n >= 10 {
        push_u32_dec(s, n / 10);
        let d = digit_str(n % 10);
        s.append(d);
        proof {
            assert(final(s)@ =~= old(s)@ + dec_chars(n as nat));
        }
    } else {
        let d = digit_str(n);
        s.append(d);
        proof {
            assert(final(s)@ =~= old(s)@ + dec_chars(n as nat));
        }
    }
}

/// Render a concept identifier in decimal, as it appears in messages.
pub fn i32_to_string(n: i32) -> (s: String)
    ensures
        s@ == spec_i32_dec(n as int),
{
    let mut s = String::new();
    if n < 0 {
        s.append("-");
        let m: u32 = if n < -2147483647 {
            2147483648
        } else {
            (-n) as u32
        };
        push_u32_dec(&mut s, m);
        proof {
            reveal_strlit("-");
            assert(Seq::<char>::empty() + "-"@ =~= "-"@);
            assert("-"@ =~= seq!['-']);
            assert(s@ =~= spec_i32_dec(n as int));
        }
    } else {
        push_u32_dec(&mut s, n as u32);
        proof {
            assert(Seq::<char>::empty() + dec_chars(n as nat) =~= dec_chars(n as nat));
        }
    }
    s
}

/// The decimal renderings of a list of identifiers, separated by a comma and
/// a space.
pub open spec fn joined_dec(ids: Seq<i32>) -> Seq<char>
    decreases ids.len(),
{
    if ids.len() == 0 {
        Seq::<char>::empty()
    } else if ids.len() == 1 {
        spec_i32_dec(ids[0] as int)
    } else {
        joined_dec(ids.drop_last()) + seq![',', ' '] + spec_i32_dec(ids.last() as int)
    }
}

/// Join the decimal renderings of the identifiers with `", "`.
pub fn join_ids(ids: &Vec<i32>) -> (s: String)
    ensures
        s@ == joined_dec(ids@),
{
    let mut s = String::new();
    proof {
        assert(ids@.take(0) =~= Seq::<i32>::empty());
        assert(s@ =~= joined_dec(ids@.take(0)));
    }
    let mut i: usize = 0;
    while i < ids.len()
        invariant
            i <= ids.len(),
            s@ == joined_dec(ids@.take(i as int)),
        decreases ids.len() - i,
    {
        if i > 0 {
            s.append(", ");
        }
        let part = i32_to_string(ids[i]);
        s.append(part.as_str());
        proof {
            reveal_strlit(", ");
            assert(", "@ =~= seq![',', ' ']);
            let t1 = ids@.take(i as int + 1);
            assert(t1.drop_last() =~= ids@.take(i as int));
            assert(t1.last() == ids@[i as int]);
            if i == 0 {
                assert(s@ =~= joined_dec(t1));
            } else {
                assert(s@ =~= joined_dec(t1));
            }
        }
        i += 1;
    }
    proof {
        assert(ids@.take(ids@.len() as int) =~= ids@);
    }
    s
}

/// The character with ASCII upper case folded to lower case, as a code
/// point.
pub open spec fn lower_code(c: char) -> int {
    if 'A' <= c && c <= 'Z' {
        (c as u32) + 32
    } else {
        (c as u32) as int
    }
}

/// Two texts are equal up to ASCII case.
pub open spec fn ascii_eq_nocase(a: Seq<char>, b: Seq<char>) -> bool {
    a.len() == b.len() && forall|i: int| 0 <= i < a.len() ==> lower_code(a[i]) == lower_code(b[i])
}

/// Compare two strings for equality ignoring ASCII case, as the search
/// filters do.
pub fn eq_ignore_ascii_case(a: &str, b: &str) -> (r: bool)
    ensures
        r == ascii_eq_nocase(a@, b@),
{
    let na = a.unicode_len();
    let nb = b.unicode_len();
    if na != nb {
        return false;
    }
    let mut i: usize = 0;
    while i < na
        invariant
            i <= na,
            na == a@.len(),
            na == b@.len(),
            forall|k: int| 0 <= k < i ==> lower_code(a@[k]) == lower_code(b@[k]),
        decreases na - i,
    {
        let ca = a.get_char(i);
        let cb = b.get_char(i);
        let la: u32 = if 'A' <= ca && ca <= 'Z' {
            (ca as u32) + 32
        } else {
            ca as u32
        };
        let lb: u32 = if 'A' <= cb && cb <= 'Z' {
            (cb as u32) + 32
        } else {
            cb as u32
        };
        if la != lb {
            return false;
        }
        i += 1;
    }
    true
}

/// The values of a comma-separated list, read left to right with `cur` the
/// segment gathered so far: each segment is trimmed, and segments that trim
/// to nothing are dropped.
pub open spec fn comma_values_from(s: Seq<char>, cur: Seq<char>) -> Seq<Seq<char>>
    decreases s.len(),
{
    if s.len() == 0 {
        if spec_trim(cur).len() == 0 {
            Seq::<Seq<char>>::empty()
        } else {
            seq![spec_trim(cur)]
        }
    } else if s[0] == ',' {
        (if spec_trim(cur).len() == 0 {
            Seq::<Seq<char>>::empty()
        } else {
            seq![spec_trim(cur)]
        }) + comma_values_from(s.drop_first(), Seq::<char>::empty())
    } else {
        comma_values_from(s.drop_first(), cur.push(s[0]))
    }
}

/// The values of a comma-separated list: split on commas, trim each
/// segment, drop the segments that trim to nothing.
pub open spec fn comma_values(s: Seq<char>) -> Seq<Seq<char>> {
    comma_values_from(s, Seq::<char>::empty())
}

/// Split a comma-separated filter value into its entries, trimmed, with
/// empty entries dropped.
#[verifier::loop_isolation(false)]
pub fn split_filter_values(s: &str) -> (r: Vec<String>)
    ensures
        texts(r@) == comma_values(s@),
{
    let n = s.unicode_len();
    let mut r: Vec<String> = Vec::new();
    let mut start: usize = 0;
    let mut i: usize = 0;
    proof {
        assert(s@.skip(0) =~= s@);
        assert(s@.subrange(0, 0) =~= Seq::<char>::empty());
        assert(texts(r@) =~= Seq::<Seq<char>>::empty());
        assert(Seq::<Seq<char>>::empty() + comma_values_from(s@, Seq::<char>::empty())
            =~= comma_values(s@));
    }
    while i < n
        invariant
            start <= i <= n,
            comma_values(s@) == texts(r@) + comma_values_from(
                s@.skip(i as int),
                s@.subrange(start as int, i as int),
            ),
        decreases n - i,
    {
        let c = s.get_char(i);
        proof {
            assert(s@.skip(i as int)[0] == s@[i as int]);
            assert(s@.skip(i as int).drop_first() =~= s@.skip(i as int + 1));
        }
        if c == ',' {
            let ghost cur = s@.subrange(start as int, i as int);
            let ghost emitted = if spec_trim(cur).len() == 0 {
                Seq::<Seq<char>>::empty()
            } else {
                seq![spec_trim(cur)]
            };
            let ghost old_texts = texts(r@);
            let seg = s.substring_char(start, i);
            let t = trim_text(seg);
            if !t.is_empty() {
                let ghost before = r@;
                r.push(t.to_owned());
                proof {
                    lemma_texts_push(before, r@.last());
                    assert(texts(r@) =~= old_texts + emitted);
                }
            } else {
                proof {
                    assert(texts(r@) =~= old_texts + emitted);
                }
            }
            proof {
                assert(comma_values_from(s@.skip(i as int), cur) == emitted + comma_values_from(
                    s@.skip(i as int + 1),
                    Seq::<char>::empty(),
                ));
                assert((old_texts + emitted) + comma_values_from(
                    s@.skip(i as int + 1),
                    Seq::<char>::empty(),
                ) =~= old_texts + (emitted + comma_values_from(
                    s@.skip(i as int + 1),
                    Seq::<char>::empty(),
                )));
                assert(s@.subrange(i as int + 1, i as int + 1) =~= Seq::<char>::empty());
            }
            start = i + 1;
        } else {
            proof {
                assert(s@.subrange(start as int, i as int + 1) =~= s@.subrange(
                    start as int,
                    i as int,
                ).push(s@[i as int]));
            }
        }
        i += 1;
    }
    let ghost cur = s@.subrange(start as int, n as int);
    let ghost emitted = if spec_trim(cur).len() == 0 {
        Seq::<Seq<char>>::empty()
    } else {
        seq![spec_trim(cur)]
    };
    let ghost old_texts = texts(r@);
    proof {
        assert(s@.skip(n as int).len() == 0);
        assert(comma_values_from(s@.skip(n as int), cur) == emitted);
    }
    let seg = s.substring_char(start, n);
    let t = trim_text(seg);
    if !t.is_empty() {
        let ghost before = r@;
        r.push(t.to_owned());
        proof {
            lemma_texts_push(before, r@.last());
            assert(texts(r@) =~= old_texts + emitted);
        }
    } else {
        proof {
            assert(texts(r@) =~= old_texts + emitted);
        }
    }
    r
}

/// A decimal digit.
pub open spec fn is_digit_char(c: char) -> bool {
    48 <= c as u32 && c as u32 <= 57
}

pub open spec fn digit_of(c: char) -> int {
    (c as u32) - 48
}

pub open spec fn all_digits(s: Seq<char>) -> bool {
    forall|i: int| 0 <= i < s.len() ==> is_digit_char(s[i])
}

/// The value of a digit string, most significant digit first.
pub open spec fn digits_val(s: Seq<char>) -> int
    decreases s.len(),
{
    if s.len() == 0 {
        0
    } else {
        digits_val(s.drop_last()) * 10 + digit_of(s.last())
    }
}

/// What parsing a signed 32-bit decimal accepts: an optional sign followed
/// by at least one digit, with the value in range.
pub open spec fn spec_parse_i32(s: Seq<char>) -> Option<i32> {
    let neg = s.len() > 0 && s[0] == '-';
    let ds = if s.len() > 0 && (s[0] == '-' || s[0] == '+') {
        s.skip(1)
    } else {
        s
    };
    if ds.len() == 0 || !all_digits(ds) {
        None
    } else if neg {
        if digits_val(ds) <= 2147483648 {
            Some((-digits_val(ds)) as i32)
        } else {
            None
        }
    } else {
        if digits_val(ds) <= 2147483647 {
            Some(digits_val(ds) as i32)
        } else {
            None
        }
    }
}

proof fn lemma_digits_val_bounds(s: Seq<char>, k: int)
    requires
        all_digits(s),
        0 <= k <= s.len(),
    ensures
        digits_val(s) >= digits_val(s.take(k)) >= 0,
    decreases s.len(),
{
    if s.len() == 0 {
        assert(s.take(k) =~= s);
    } else {
        let s0 = s.drop_last();
        assert(all_digits(s0)) by {
            assert(forall|i: int| 0 <= i < s0.len() ==> s0[i] == s[i]);
        }
        if k == s.len() {
            assert(s.take(k) =~= s);
            lemma_digits_val_bounds(s0, s0.len() as int);
            assert(digit_of(s.last()) >= 0);
        } else {
            assert(s.take(k) =~= s0.take(k));
            lemma_digits_val_bounds(s0, k);
            assert(digit_of(s.last()) >= 0);
            assert(digits_val(s) == digits_val(s0) * 10 + digit_of(s.last()));
            assert(digits_val(s) >= digits_val(s0));
        }
    }
}

/// Parse a signed 32-bit decimal, exactly as the numeric-query check needs
/// it: an optional `+` or `-` sign, then digits; anything else, or a value
/// out of range, is rejected.
#[verifier::loop_isolation(false)]
pub fn parse_i32(s: &str) -> (r: Option<i32>)
    ensures
        r == spec_parse_i32(s@),
{
    let n = s.unicode_len();
    if n == 0 {
        return None;
    }
    let c0 = s.get_char(0);
    let neg = c0 == '-';
    let has_sign = c0 == '-' || c0 == '+';
    let start: usize = if has_sign {
        1
    } else {
        0
    };
    let ghost ds = if has_sign {
        s@.skip(1)
    } else {
        s@
    };
    proof {
        if !has_sign {
            assert(s@.skip(0) =~= s@);
        }
        assert(ds.len() == n - start);
        assert(forall|j: int| 0 <= j < ds.len() ==> ds[j] == s@[j + start]);
    }
    if start >= n {
        return None;
    }
    let mut acc: u64 = 0;
    let mut i: usize = start;
    while i < n
        invariant
            start <= i <= n,
            all_digits(ds.take(i - start)),
            acc == digits_val(ds.take(i - start)),
            acc <= 2147483648,
        decreases n - i,
    {
        let c = s.get_char(i);
        let u = c as u32;
        if u < 48 || u > 57 {
            proof {
                assert(ds[i - start] == s@[i as int]);
                assert(!is_digit_char(ds[i - start]));
            }
            return None;
        }
        let d = (u - 48) as u64;
        proof {
            assert(ds.take(i - start + 1).drop_last() =~= ds.take(i - start));
            assert(ds.take(i - start + 1).last() == ds[i - start]);
            assert(ds[i - start] == s@[i as int]);
        }
        acc = acc * 10 + d;
        if acc > 2147483648 {
            proof {
                if all_digits(ds) {
                    lemma_digits_val_bounds(ds, i - start + 1);
                }
            }
            return None;
        }
        i += 1;
    }
    proof {
        assert(ds.take(n - start) =~= ds);
    }
    if neg {
        Some((-(acc as i64)) as i32)
    } else {
        if acc > 2147483647 {
            None
        } else {
            Some(acc as i32)
        }
    }
}

/// The views of a list of strings.
pub open spec fn texts(v: Seq<String>) -> Seq<Seq<char>> {
    v.map_values(|s: String| s@)
}

/// Whether some string of the list reads as `t`.
pub open spec fn text_in(list: Seq<String>, t: Seq<char>) -> bool {
    exists|j: int| 0 <= j < list.len() && list[j]@ == t
}

pub(crate) proof fn lemma_texts_push(v: Seq<String>, x: String)
    ensures
        texts(v.push(x)) =~= texts(v).push(x@),
{
}

/// What lowercasing returns for a given text; the full case-folding table
/// lives outside this crate, so only named facts about it are assumed.
pub uninterp spec fn lower_of(s: Seq<char>) -> Seq<char>;

/// Relies on str::to_lowercase: the result is a function of the characters
/// alone, and an empty string stays empty.
#[verifier::external_body]
pub fn lowercase(s: &str) -> (r: String)
    ensures
        r@ == lower_of(s@),
        s@.len() == 0 ==> r@.len() == 0,
{
    s.to_lowercase()
}

} // verus!
