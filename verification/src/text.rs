use vstd::prelude::*;
use vstd::string::*;

verus! {

broadcast use vstd::string::group_string_axioms;

/// The characters that have the Unicode `White_Space` property.
pub open spec fn is_white_space(c: char) -> bool {
    let n = c as u32;
    ||| 0x9 <= n <= 0xD
    ||| n == 0x20
    ||| n == 0x85
    ||| n == 0xA0
    ||| n == 0x1680
    ||| 0x2000 <= n <= 0x200A
    ||| n == 0x2028
    ||| n == 0x2029
    ||| n == 0x202F
    ||| n == 0x205F
    ||| n == 0x3000
}

/// `s` without its leading white space.
pub open spec fn trim_start(s: Seq<char>) -> Seq<char>
    decreases s.len(),
{
    if s.len() > 0 && is_white_space(s[0]) {
        trim_start(s.drop_first())
    } else {
        s
    }
}

/// `s` without its trailing white space.
pub open spec fn trim_end(s: Seq<char>) -> Seq<char>
    decreases s.len(),
{
    if s.len() > 0 && is_white_space(s.last()) {
        trim_end(s.drop_last())
    } else {
        s
    }
}

/// `s` without leading and trailing white space.
pub open spec fn trim(s: Seq<char>) -> Seq<char> {
    trim_end(trim_start(s))
}

/// Whether a character is white space, as `char::is_whitespace` decides it.
///
/// std documents `char::is_whitespace` as testing the Unicode `White_Space`
/// property; the contract states that property as `is_white_space`.
#[verifier::external_body]
fn char_is_whitespace(c: char) -> (r: bool)
    ensures
        r == is_white_space(c),
{
    c.is_whitespace()
}

/// The characters of `s`, in order.
pub fn chars_of(s: &str) -> (v: Vec<char>)
    ensures
        v@ == s@,
{
    let mut v: Vec<char> = Vec::new();
    for c in iter: s.chars()
        invariant
            iter.seq() == s@,
            v@ == iter.seq().take(iter.index() as int),
    {
        v.push(c);
    }
    v
}


proof fn lemma_subrange_drop_first(s: Seq<char>, lo: int, hi: int)
    requires
        0 <= lo < hi <= s.len(),
    ensures
        s.subrange(lo, hi).drop_first() == s.subrange(lo + 1, hi),
{
    assert(s.subrange(lo, hi).drop_first() =~= s.subrange(lo + 1, hi));
}

proof fn lemma_subrange_drop_last(s: Seq<char>, lo: int, hi: int)
    requires
        0 <= lo < hi <= s.len(),
    ensures
        s.subrange(lo, hi).drop_last() == s.subrange(lo, hi - 1),
{
    assert(s.subrange(lo, hi).drop_last() =~= s.subrange(lo, hi - 1));
}

/// The bounds of `v[lo..hi]` once white space is trimmed from both of its ends.
pub fn trim_bounds(v: &Vec<char>, lo: usize, hi: usize) -> (r: (usize, usize))
    requires
        lo <= hi <= v.len(),
    ensures
        lo <= r.0 <= r.1 <= hi,
        v@.subrange(r.0 as int, r.1 as int) == trim(v@.subrange(lo as int, hi as int)),
{
    let mut a = lo;
    while a < hi && char_is_whitespace(v[a])
        invariant
            lo <= a <= hi <= v.len(),
            trim_start(v@.subrange(lo as int, hi as int)) == trim_start(v@.subrange(a as int, hi as int)),
        decreases hi - a,
    {
        proof {
            lemma_subrange_drop_first(v@, a as int, hi as int);
        }
        a = a + 1;
    }
    assert(trim_start(v@.subrange(a as int, hi as int)) == v@.subrange(a as int, hi as int));
    let mut b = hi;
    while b > a && char_is_whitespace(v[b - 1])
        invariant
            lo <= a <= b <= hi <= v.len(),
            trim_end(v@.subrange(a as int, hi as int)) == trim_end(v@.subrange(a as int, b as int)),
        decreases b - a,
    {
        proof {
            lemma_subrange_drop_last(v@, a as int, b as int);
        }
        b = b - 1;
    }
    (a, b)
}

/// Whether `v[lo..hi]` is the word `w`.
pub fn range_is(v: &Vec<char>, lo: usize, hi: usize, w: &[char]) -> (r: bool)
    requires
        lo <= hi <= v.len(),
    ensures
        r == (v@.subrange(lo as int, hi as int) == w@),
{
    if hi - lo != w.len() {
        return false;
    }
    let mut i: usize = 0;
    while i < w.len()
        invariant
            lo <= hi <= v.len(),
            hi - lo == w@.len(),
            i <= w@.len(),
            forall|j: int| 0 <= j < i ==> v@[lo + j] == w@[j],
        decreases w.len() - i,
    {
        if v[lo + i] != w[i] {
            assert(v@.subrange(lo as int, hi as int)[i as int] != w@[i as int]);
            return false;
        }
        i = i + 1;
    }
    assert(v@.subrange(lo as int, hi as int) =~= w@);
    true
}

/// Whether `c` is one of the ASCII digits `0` to `9`.
pub open spec fn is_digit(c: char) -> bool {
    '0' <= c <= '9'
}

/// The value of the decimal digit `c`.
pub open spec fn digit_value(c: char) -> int {
    c as int - '0' as int
}

/// Whether every character of `s` is a decimal digit.
pub open spec fn all_digits(s: Seq<char>) -> bool {
    forall|i: int| 0 <= i < s.len() ==> is_digit(#[trigger] s[i])
}

/// The number that the decimal digits `s` write, most significant first.
pub open spec fn digits_value(s: Seq<char>) -> int
    decreases s.len(),
{
    if s.len() == 0 {
        0
    } else {
        digits_value(s.drop_last()) * 10 + digit_value(s.last())
    }
}

/// The `i32` that `s` writes in decimal, as `i32::from_str` reads it: an
/// optional `+` or `-`, then one or more ASCII digits, and a value in range.
pub open spec fn parse_i32(s: Seq<char>) -> Option<i32> {
    let neg = s.len() > 0 && s[0] == '-';
    let digits = if s.len() > 0 && (s[0] == '-' || s[0] == '+') { s.drop_first() } else { s };
    let value = if neg { -digits_value(digits) } else { digits_value(digits) };
    if digits.len() == 0 || !all_digits(digits) || value < i32::MIN || value > i32::MAX {
        None
    } else {
        Some(value as i32)
    }
}

proof fn lemma_digits_value_nonneg(s: Seq<char>)
    requires
        all_digits(s),
    ensures
        digits_value(s) >= 0,
    decreases s.len(),
{
    if s.len() > 0 {
        assert(all_digits(s.drop_last())) by {
            assert forall|i: int| 0 <= i < s.drop_last().len() implies is_digit(
                #[trigger] s.drop_last()[i],
            ) by {
                assert(s.drop_last()[i] == s[i]);
            }
        }
        lemma_digits_value_nonneg(s.drop_last());
        assert(is_digit(s[s.len() - 1]));
    }
}

proof fn lemma_digits_value_grows(s: Seq<char>, k: int)
    requires
        all_digits(s),
        0 <= k <= s.len(),
    ensures
        digits_value(s.take(k)) <= digits_value(s),
    decreases s.len(),
{
    if k < s.len() {
        let t = s.drop_last();
        assert(all_digits(t)) by {
            assert forall|i: int| 0 <= i < t.len() implies is_digit(#[trigger] t[i]) by {
                assert(t[i] == s[i]);
            }
        }
        lemma_digits_value_grows(t, k);
        assert(t.take(k) =~= s.take(k));
        lemma_digits_value_nonneg(t);
        assert(is_digit(s[s.len() - 1]));
    } else {
        assert(s.take(k) =~= s);
    }
}

/// The `i32` that `v[lo..hi]` writes in decimal, if it writes one.
pub fn parse_i32_range(v: &Vec<char>, lo: usize, hi: usize) -> (r: Option<i32>)
    requires
        lo <= hi <= v.len(),
    ensures
        r == parse_i32(v@.subrange(lo as int, hi as int)),
{
    let ghost s = v@.subrange(lo as int, hi as int);
    let mut start = lo;
    let mut neg = false;
    if lo < hi && (v[lo] == '-' || v[lo] == '+') {
        neg = v[lo] == '-';
        start = lo + 1;
        proof {
            lemma_subrange_drop_first(v@, lo as int, hi as int);
        }
    }
    let ghost digits = v@.subrange(start as int, hi as int);
    assert(digits == if s.len() > 0 && (s[0] == '-' || s[0] == '+') { s.drop_first() } else { s });
    if start == hi {
        return None;
    }
    let mut acc: i64 = 0;
    let mut i = start;
    while i < hi
        invariant
            lo <= start <= i <= hi <= v.len(),
            digits == v@.subrange(start as int, hi as int),
            s == v@.subrange(lo as int, hi as int),
            digits == if s.len() > 0 && (s[0] == '-' || s[0] == '+') { s.drop_first() } else { s },
            neg == (s.len() > 0 && s[0] == '-'),
            all_digits(digits.take(i - start)),
            acc == digits_value(digits.take(i - start)),
            0 <= acc <= 0x8000_0000,
        decreases hi - i,
    {
        let c = v[i];
        if !('0' <= c && c <= '9') {
            assert(digits[i - start] == c);
            assert(!is_digit(digits[i - start]));
            return None;
        }
        proof {
            assert(digits.take(i - start + 1).drop_last() =~= digits.take(i - start));
            assert(digits.take(i - start + 1).last() == c);
        }
        let d = (c as u32 - '0' as u32) as i64;
        acc = acc * 10 + d;
        proof {
            assert(all_digits(digits.take(i - start + 1))) by {
                assert forall|j: int| 0 <= j < i - start + 1 implies is_digit(
                    #[trigger] digits.take(i - start + 1)[j],
                ) by {
                    if j < i - start {
                        assert(digits.take(i - start)[j] == digits.take(i - start + 1)[j]);
                    }
                }
            }
        }
        i = i + 1;
        if acc > 0x8000_0000 {
            proof {
                if all_digits(digits) {
                    lemma_digits_value_grows(digits, i - start);
                }
            }
            return None;
        }
    }
    assert(digits.take(hi - start) =~= digits);
    if neg {
        Some((0 - acc) as i32)
    } else if acc > 0x7fff_ffff {
        None
    } else {
        Some(acc as i32)
    }
}

/// The pieces of `s` between single spaces, as `str::split(" ")` cuts them:
/// a string with `n` spaces has `n + 1` pieces, some of which may be empty.
pub open spec fn split_on_space(s: Seq<char>) -> Seq<Seq<char>>
    decreases s.len(),
{
    if s.len() == 0 {
        seq![Seq::<char>::empty()]
    } else {
        let rest = split_on_space(s.drop_last());
        if s.last() == ' ' {
            rest.push(Seq::<char>::empty())
        } else {
            rest.update(rest.len() - 1, rest.last().push(s.last()))
        }
    }
}

/// The candidate addresses written in a line: its pieces between spaces,
/// each trimmed of white space.
pub open spec fn address_token_views(s: Seq<char>) -> Seq<Seq<char>> {
    split_on_space(s).map_values(|p: Seq<char>| trim(p))
}

/// The views of a sequence of strings.
pub open spec fn string_views(v: Seq<String>) -> Seq<Seq<char>> {
    v.map_values(|x: String| x@)
}

proof fn lemma_split_on_space_nonempty(s: Seq<char>)
    ensures
        split_on_space(s).len() >= 1,
    decreases s.len(),
{
    if s.len() > 0 {
        lemma_split_on_space_nonempty(s.drop_last());
    }
}

/// The pieces of `text` between single spaces, each trimmed of white space:
/// the strings that a line of addresses is read from.
pub fn address_tokens(text: &str) -> (tokens: Vec<String>)
    ensures
        string_views(tokens@) == address_token_views(text@),
{
    let v = chars_of(text);
    let mut out: Vec<String> = Vec::new();
    let ghost mut pieces: Seq<Seq<char>> = Seq::empty();
    let mut start: usize = 0;
    let mut j: usize = 0;
    proof {
        assert(v@.take(0) =~= Seq::<char>::empty());
        assert(v@.subrange(0, 0) =~= Seq::<char>::empty());
        assert(pieces.push(v@.subrange(0, 0)) =~= seq![Seq::<char>::empty()]);
    }
    while j < v.len()
        invariant
            start <= j <= v.len(),
            v@ == text@,
            split_on_space(v@.take(j as int)) == pieces.push(v@.subrange(start as int, j as int)),
            string_views(out@) == pieces.map_values(|p: Seq<char>| trim(p)),
        decreases v.len() - j,
    {
        proof {
            assert(v@.take(j + 1).drop_last() =~= v@.take(j as int));
            assert(v@.take(j + 1).last() == v@[j as int]);
        }
        if v[j] == ' ' {
            let (a, b) = trim_bounds(&v, start, j);
            let piece = text.substring_char(a, b).to_owned();
            let ghost old_out = out@;
            out.push(piece);
            proof {
                let old_pieces = pieces;
                pieces = pieces.push(v@.subrange(start as int, j as int));
                assert(string_views(out@) =~= string_views(old_out).push(piece@));
                assert(pieces.map_values(|p: Seq<char>| trim(p)) =~= old_pieces.map_values(
                    |p: Seq<char>| trim(p),
                ).push(trim(v@.subrange(start as int, j as int))));
                assert(v@.subrange((j + 1) as int, (j + 1) as int) =~= Seq::<char>::empty());
            }
            start = j + 1;
        } else {
            proof {
                assert(v@.subrange(start as int, j + 1) =~= v@.subrange(start as int, j as int).push(
                    v@[j as int],
                ));
                assert(pieces.push(v@.subrange(start as int, j as int)).update(
                    pieces.len() as int,
                    v@.subrange(start as int, j + 1),
                ) =~= pieces.push(v@.subrange(start as int, j + 1)));
            }
        }
        j = j + 1;
    }
    let (a, b) = trim_bounds(&v, start, j);
    let piece = text.substring_char(a, b).to_owned();
    let ghost old_out = out@;
    out.push(piece);
    proof {
        assert(v@.take(j as int) =~= v@);
        assert(string_views(out@) =~= string_views(old_out).push(piece@));
        assert(pieces.push(v@.subrange(start as int, j as int)).map_values(|p: Seq<char>| trim(p))
            =~= pieces.map_values(|p: Seq<char>| trim(p)).push(
            trim(v@.subrange(start as int, j as int)),
        ));
    }
    out
}

proof fn lemma_trim_start_shape(s: Seq<char>)
    ensures
        trim_start(s).len() <= s.len(),
        trim_start(s) == s.skip(s.len() - trim_start(s).len()),
        trim_start(s).len() > 0 ==> !is_white_space(trim_start(s)[0]),
    decreases s.len(),
{
    if s.len() > 0 && is_white_space(s[0]) {
        lemma_trim_start_shape(s.drop_first());
        let t = trim_start(s);
        assert(s.drop_first().skip(s.drop_first().len() - t.len()) =~= s.skip(s.len() - t.len()));
    } else {
        assert(s.skip(0) =~= s);
    }
}

proof fn lemma_trim_end_shape(s: Seq<char>)
    ensures
        trim_end(s).len() <= s.len(),
        trim_end(s) == s.take(trim_end(s).len() as int),
        trim_end(s).len() > 0 ==> !is_white_space(trim_end(s).last()),
    decreases s.len(),
{
    if s.len() > 0 && is_white_space(s.last()) {
        lemma_trim_end_shape(s.drop_last());
        let t = trim_end(s);
        assert(s.drop_last().take(t.len() as int) =~= s.take(t.len() as int));
    } else {
        assert(s.take(s.len() as int) =~= s);
    }
}

/// A trimmed string neither begins nor ends with white space, and it is a
/// piece of the string it was trimmed from.
pub proof fn lemma_trim_has_no_outer_white_space(s: Seq<char>)
    ensures
        trim(s).len() > 0 ==> !is_white_space(trim(s)[0]) && !is_white_space(trim(s).last()),
        exists|i: int| 0 <= i <= s.len() - trim(s).len() && trim(s) == #[trigger] s.subrange(i, i + trim(s).len()),
{
    let a = trim_start(s);
    lemma_trim_start_shape(s);
    lemma_trim_end_shape(a);
    let t = trim(s);
    if t.len() > 0 {
        assert(t[0] == a[0]);
    }
    let i = s.len() - a.len();
    assert(t =~= s.subrange(i, i + t.len()));
}

proof fn lemma_trim_start_push_white(p: Seq<char>, c: char)
    requires
        is_white_space(c),
    ensures
        trim_start(p.push(c)) == if trim_start(p).len() == 0 {
            Seq::<char>::empty()
        } else {
            trim_start(p).push(c)
        },
    decreases p.len(),
{
    if p.len() == 0 {
        assert(p.push(c).drop_first() =~= Seq::<char>::empty());
        assert(p.push(c)[0] == c);
        assert(trim_start(Seq::<char>::empty()) =~= Seq::<char>::empty());
        assert(trim_start(p.push(c)) == trim_start(p.push(c).drop_first()));
    } else if is_white_space(p[0]) {
        assert(p.push(c).drop_first() =~= p.drop_first().push(c));
        assert(p.push(c)[0] == p[0]);
        lemma_trim_start_push_white(p.drop_first(), c);
        assert(trim_start(p.push(c)) == trim_start(p.push(c).drop_first()));
        assert(trim_start(p) == trim_start(p.drop_first()));
    } else {
        assert(p.push(c)[0] == p[0]);
    }
}

/// White space after a piece does not change the piece once it is trimmed.
pub proof fn lemma_trim_push_white(p: Seq<char>, c: char)
    requires
        is_white_space(c),
    ensures
        trim(p.push(c)) == trim(p),
{
    lemma_trim_start_push_white(p, c);
    let a = trim_start(p);
    if a.len() > 0 {
        assert(a.push(c).drop_last() =~= a);
        assert(a.push(c).last() == c);
    }
}

/// Every candidate address read from a line is trimmed: none begins or ends
/// with white space.
pub proof fn lemma_address_tokens_trimmed(s: Seq<char>)
    ensures
        forall|k: int|
            0 <= k < address_token_views(s).len() ==> (#[trigger] address_token_views(s)[k]).len() == 0
                || (!is_white_space(address_token_views(s)[k][0]) && !is_white_space(
                address_token_views(s)[k].last(),
            )),
{
    assert forall|k: int| 0 <= k < address_token_views(s).len() implies (
    #[trigger] address_token_views(s)[k]).len() == 0 || (!is_white_space(
        address_token_views(s)[k][0],
    ) && !is_white_space(address_token_views(s)[k].last())) by {
        lemma_trim_has_no_outer_white_space(split_on_space(s)[k]);
    }
}

/// White space other than a space at the end of a line, such as the newline
/// that ends a typed line, changes none of the addresses read from it.
pub proof fn lemma_address_tokens_ignore_trailing_white_space(s: Seq<char>, c: char)
    requires
        is_white_space(c),
        c != ' ',
    ensures
        address_token_views(s.push(c)) == address_token_views(s),
{
    lemma_split_on_space_nonempty(s);
    assert(s.push(c).drop_last() =~= s);
    let pieces = split_on_space(s);
    let last = pieces.len() - 1;
    lemma_trim_push_white(pieces[last], c);
    assert(address_token_views(s.push(c)) =~= address_token_views(s));
}

} // verus!
