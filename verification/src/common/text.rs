//! Text building blocks: equality, decimal numbers, UTF-8.
use vstd::prelude::*;
use vstd::utf8::*;

verus! {

/// `String::push` appends the character.
pub assume_specification[ String::push ](out: &mut String, c: char)
    ensures
        final(out)@ == old(out)@.push(c),
;

/// `String::from_utf8`: the text whose UTF-8 encoding is `bytes`, or `None`
/// where `bytes` is not valid UTF-8.
#[verifier::external_body]
pub(crate) fn text_from_utf8(bytes: Vec<u8>) -> (text: Option<String>)
    ensures
        match text {
            Some(t) => encode_utf8(t@) == bytes@,
            None => !valid_utf8(bytes@),
        },
{
    String::from_utf8(bytes).ok()
}

/// Whether two byte strings are equal.
pub fn same_bytes(a: &[u8], b: &[u8]) -> (same: bool)
    ensures
        same == (a@ == b@),
{
    if a.len() != b.len() {
        return false;
    }
    let mut i: usize = 0;
    while i < a.len()
        invariant
            i <= a@.len(),
            a@.len() == b@.len(),
            forall|j: int| 0 <= j < i ==> a@[j] == b@[j],
        decreases a.len() - i,
    {
        if a[i] != b[i] {
            return false;
        }
        i = i + 1;
    }
    assert(a@ =~= b@);
    true
}

/// Two texts with the same UTF-8 encoding are the same text.
pub proof fn lemma_utf8_injective(a: Seq<char>, b: Seq<char>)
    requires
        encode_utf8(a) == encode_utf8(b),
    ensures
        a == b,
{
    encode_utf8_decode_utf8(a);
    encode_utf8_decode_utf8(b);
}

/// Whether two texts are equal.
pub fn same_text(a: &str, b: &str) -> (same: bool)
    ensures
        same == (a@ == b@),
{
    let same = same_bytes(a.as_bytes(), b.as_bytes());
    proof {
        if same {
            lemma_utf8_injective(a@, b@);
        }
    }
    same
}

/// Whether `prefix` is at the start of `s`.
pub open spec fn begins<A>(s: Seq<A>, prefix: Seq<A>) -> bool {
    s.len() >= prefix.len() && s.take(prefix.len() as int) == prefix
}

/// Whether the first bytes of `data` are `prefix`.
pub fn bytes_begin(data: &[u8], prefix: &[u8]) -> (yes: bool)
    ensures
        yes == begins(data@, prefix@),
        yes <==> data@.len() >= prefix@.len() && forall|i: int| 0 <= i < prefix@.len() ==> #[trigger] prefix@[i] == data@[i],
{
    proof {
        if data@.len() >= prefix@.len() {
            let first = data@.take(prefix@.len() as int);
            if forall|i: int| 0 <= i < prefix@.len() ==> #[trigger] prefix@[i] == data@[i] {
                assert(first =~= prefix@);
            }
            if first == prefix@ {
                assert forall|i: int| 0 <= i < prefix@.len() implies #[trigger] prefix@[i] == data@[i] by {
                    assert(first[i] == data@[i]);
                }
            }
        }
    }
    if data.len() < prefix.len() {
        return false;
    }
    assert(data@.subrange(0, prefix@.len() as int) =~= data@.take(prefix@.len() as int));
    same_bytes(vstd::slice::slice_subrange(data, 0, prefix.len()), prefix)
}

/// Whether `suffix` is at the end of `s`.
pub open spec fn ends<A>(s: Seq<A>, suffix: Seq<A>) -> bool {
    s.len() >= suffix.len() && s.skip(s.len() - suffix.len()) == suffix
}

/// Whether the last bytes of `data` are `suffix`.
pub fn bytes_end(data: &[u8], suffix: &[u8]) -> (yes: bool)
    ensures
        yes == ends(data@, suffix@),
        yes <==> data@.len() >= suffix@.len() && data@.subrange(data@.len() - suffix@.len(), data@.len() as int)
            == suffix@,
{
    if data.len() < suffix.len() {
        return false;
    }
    let at: usize = data.len() - suffix.len();
    assert(data@.subrange(at as int, data@.len() as int) =~= data@.skip(at as int));
    same_bytes(vstd::slice::slice_subrange(data, at, data.len()), suffix)
}

/// The number that decimal digits spell.
pub open spec fn digits_value(b: Seq<u8>) -> Option<nat>
    decreases b.len(),
{
    if b.len() == 0 {
        Some(0)
    } else {
        match digits_value(b.drop_last()) {
            Some(v) => if 48 <= b.last() <= 57 {
                Some((10 * v + (b.last() - 48)) as nat)
            } else {
                None
            },
            None => None,
        }
    }
}

/// The 64-bit number that a text spells: decimal digits, with or without a
/// plus sign in front.
pub open spec fn u64_spec(b: Seq<u8>) -> Option<u64> {
    let digits = if b.len() > 0 && b[0] == 43 {
        b.skip(1)
    } else {
        b
    };
    if digits.len() == 0 {
        None
    } else {
        match digits_value(digits) {
            Some(v) => if v <= u64::MAX {
                Some(v as u64)
            } else {
                None
            },
            None => None,
        }
    }
}

/// Which texts are numbers: digits, at least one, with a plus sign in front or
/// without, that spell a number of 64 bits. Zeros in front change nothing.
pub proof fn numbers_are_digits(b: Seq<u8>, n: nat)
    requires
        b.len() > 0,
        b[0] != 43,
    ensures
        u64_spec(Seq::empty()) is None,
        u64_spec(seq![43u8]) is None,
        u64_spec(b) == u64_spec(seq![43u8] + b),
        u64_spec(b) is None <==> digits_value(b) is None || digits_value(b)->0 > u64::MAX,
        u64_spec(b) matches Some(v) ==> digits_value(b) == Some(v as nat),
        u64_spec(seq![48u8] + b) == u64_spec(b),
        digits_value(b) is Some <==> forall|i: int| 0 <= i < b.len() ==> 48 <= #[trigger] b[i] <= 57,
{
    assert((seq![43u8] + b).skip(1) =~= b);
    assert(seq![43u8].skip(1) =~= Seq::<u8>::empty());
    lemma_leading_zero(b);
    lemma_all_digits(b);
}

proof fn lemma_leading_zero(b: Seq<u8>)
    ensures
        digits_value(seq![48u8] + b) == digits_value(b),
    decreases b.len(),
{
    let z = seq![48u8] + b;
    if b.len() == 0 {
        assert(z.drop_last() =~= Seq::empty());
        assert(digits_value(z.drop_last()) == Some(0nat));
    } else {
        lemma_leading_zero(b.drop_last());
        assert(z.drop_last() =~= seq![48u8] + b.drop_last());
    }
}

proof fn lemma_all_digits(b: Seq<u8>)
    ensures
        digits_value(b) is Some <==> forall|i: int| 0 <= i < b.len() ==> 48 <= #[trigger] b[i] <= 57,
    decreases b.len(),
{
    if b.len() > 0 {
        let init = b.drop_last();
        lemma_all_digits(init);
        if digits_value(b) is Some {
            assert forall|i: int| 0 <= i < b.len() implies 48 <= #[trigger] b[i] <= 57 by {
                if i < init.len() {
                    assert(48 <= init[i] <= 57);
                }
            }
        }
        if forall|i: int| 0 <= i < b.len() ==> 48 <= #[trigger] b[i] <= 57 {
            assert forall|i: int| 0 <= i < init.len() implies 48 <= #[trigger] init[i] <= 57 by {
                assert(48 <= b[i] <= 57);
            }
            assert(48 <= b[b.len() - 1] <= 57);
        }
    }
}

proof fn lemma_digits_prefix(b: Seq<u8>, n: int)
    requires
        0 <= n <= b.len(),
    ensures
        digits_value(b.take(n)) is None ==> digits_value(b) is None,
        digits_value(b) is Some && digits_value(b.take(n)) is Some ==> digits_value(b.take(n))->0 <= digits_value(b)->0,
    decreases b.len(),
{
    if n < b.len() {
        lemma_digits_prefix(b.drop_last(), n);
        assert(b.drop_last().take(n) =~= b.take(n));
    } else {
        assert(b.take(n) =~= b);
    }
}

/// Reads a 64-bit decimal number.
pub fn parse_u64_bytes(b: &[u8]) -> (n: Option<u64>)
    ensures
        n == u64_spec(b@),
{
    let from: usize = if b.len() > 0 && b[0] == 43 {
        1
    } else {
        0
    };
    let ghost digits = b@.skip(from as int);
    proof {
        if from == 0 {
            assert(digits =~= b@);
        }
    }
    if from == b.len() {
        return None;
    }
    let mut value: u64 = 0;
    let mut i: usize = from;
    assert(digits.take(0) =~= Seq::empty());
    while i < b.len()
        invariant
            from <= i <= b@.len(),
            digits == b@.skip(from as int),
            digits.len() > 0,
            u64_spec(b@) == (match digits_value(digits) {
                Some(v) => if v <= u64::MAX {
                    Some(v as u64)
                } else {
                    None
                },
                None => None,
            }),
            digits_value(digits.take(i - from)) == Some(value as nat),
        decreases b.len() - i,
    {
        let c: u8 = b[i];
        proof {
            assert(digits.take(i - from + 1).drop_last() =~= digits.take(i - from));
            assert(digits.take(i - from + 1).last() == c);
            lemma_digits_prefix(digits, i - from + 1);
        }
        if c < 48 || c > 57 {
            return None;
        }
        let d: u64 = (c - 48) as u64;
        if value > (u64::MAX - d) / 10 {
            return None;
        }
        value = 10 * value + d;
        i = i + 1;
    }
    assert(digits.take(i - from) =~= digits);
    Some(value)
}

/// The decimal digit `d` as a character.
pub open spec fn digit_char(d: nat) -> char {
    (48 + d) as u8 as char
}

/// `n` in decimal, without leading zeros.
pub open spec fn decimal(n: nat) -> Seq<char>
    decreases n,
{
    if n < 10 {
        seq![digit_char(n)]
    } else {
        decimal(n / 10).push(digit_char(n % 10))
    }
}

/// Appends `n` in decimal.
pub fn push_decimal(out: &mut String, n: u64)
    ensures
        final(out)@ == old(out)@ + decimal(n as nat),
    decreases n,
{
    if n >= 10 {
        push_decimal(out, n / 10);
    }
    let ghost before = out@;
    let d: u8 = (n % 10) as u8;
    out.push((48 + d) as char);
    proof {
        if n < 10 {
            assert(out@ =~= old(out)@ + decimal(n as nat));
        } else {
            assert(out@ =~= old(out)@ + decimal(n as nat / 10).push(digit_char(n as nat % 10)));
        }
    }
}

/// `n` as a decimal text.
pub fn decimal_text(n: u64) -> (text: String)
    ensures
        text@ == decimal(n as nat),
{
    let mut out = String::new();
    push_decimal(&mut out, n);
    assert(Seq::<char>::empty() + decimal(n as nat) =~= decimal(n as nat));
    out
}

/// Texts are encoded one after the other.
pub proof fn lemma_encode_joined(a: Seq<char>, b: Seq<char>)
    ensures
        encode_utf8(a + b) == encode_utf8(a) + encode_utf8(b),
    decreases a.len(),
{
    if a.len() == 0 {
        assert(a + b =~= b);
        assert(encode_utf8(a) + encode_utf8(b) =~= encode_utf8(b));
    } else {
        assert((a + b).drop_first() =~= a.drop_first() + b);
        lemma_encode_joined(a.drop_first(), b);
        assert(encode_utf8(a + b) =~= encode_utf8(a) + encode_utf8(b));
    }
}

/// A decimal has decimal digits only.
pub proof fn lemma_decimal_digits(n: nat)
    ensures
        decimal(n).len() > 0,
        forall|i: int| 0 <= i < decimal(n).len() ==> '0' <= #[trigger] decimal(n)[i] <= '9',
    decreases n,
{
    if n >= 10 {
        lemma_decimal_digits(n / 10);
    }
}

proof fn lemma_decimal_value(n: nat)
    ensures
        digits_value(encode_utf8(decimal(n))) == Some(n),
    decreases n,
{
    let d = decimal(n);
    lemma_decimal_digits(n);
    assert(is_ascii_chars(d));
    is_ascii_chars_encode_utf8(d);
    let b = encode_utf8(d);
    if n < 10 {
        assert(b.drop_last() =~= Seq::empty());
        assert(b.last() == d[0] as u8);
        assert(digits_value(b.drop_last()) == Some(0nat));
    } else {
        let front = decimal(n / 10);
        lemma_decimal_value(n / 10);
        lemma_decimal_digits(n / 10);
        assert(is_ascii_chars(front));
        is_ascii_chars_encode_utf8(front);
        assert(b.drop_last() =~= encode_utf8(front)) by {
            assert forall|i: int| 0 <= i < front.len() implies b[i] == encode_utf8(front)[i] by {
                assert(d[i] == front[i]);
            }
        }
        assert(b.last() == d.last() as u8);
        assert(d.last() == digit_char(n % 10));
    }
}

/// A number in decimal reads back as itself.
pub proof fn decimal_reads_back(n: u64)
    ensures
        u64_spec(encode_utf8(decimal(n as nat))) == Some(n),
{
    let d = decimal(n as nat);
    lemma_decimal_digits(n as nat);
    lemma_decimal_value(n as nat);
    assert(is_ascii_chars(d));
    is_ascii_chars_encode_utf8(d);
    assert(encode_utf8(d)[0] == d[0] as u8);
    assert('0' <= d[0] <= '9');
}

/// The texts joined end to end.
pub fn join2(a: &str, b: &str) -> (text: String)
    ensures
        text@ == a@ + b@,
{
    let mut out = String::new();
    out.append(a);
    out.append(b);
    assert(out@ =~= a@ + b@);
    out
}

/// The texts joined end to end.
pub fn join3(a: &str, b: &str, c: &str) -> (text: String)
    ensures
        text@ == a@ + b@ + c@,
{
    let mut out = join2(a, b);
    out.append(c);
    out
}

/// What texts say.
pub open spec fn text_views(texts: Seq<String>) -> Seq<Seq<char>> {
    texts.map_values(|t: String| t@)
}

/// What byte strings say.
pub open spec fn byte_views(list: Seq<Vec<u8>>) -> Seq<Seq<u8>> {
    list.map_values(|v: Vec<u8>| v@)
}

/// What a list of texts says holds a text exactly where one of them is it; it
/// says as many, in the same order.
pub proof fn texts_say_what_they_hold(texts: Seq<String>, t: Seq<char>)
    ensures
        text_views(texts).len() == texts.len(),
        forall|i: int| 0 <= i < texts.len() ==> text_views(texts)[i] == (#[trigger] texts[i])@,
        text_views(texts).contains(t) <==> exists|i: int| 0 <= i < texts.len() && (#[trigger] texts[i])@ == t,
{
    let views = text_views(texts);
    if views.contains(t) {
        let i = choose|i: int| 0 <= i < views.len() && views[i] == t;
        assert(texts[i]@ == t);
    }
    if exists|i: int| 0 <= i < texts.len() && (#[trigger] texts[i])@ == t {
        let i = choose|i: int| 0 <= i < texts.len() && (#[trigger] texts[i])@ == t;
        assert(views[i] == t);
    }
}

/// What a list of byte strings says holds a byte string exactly where one of
/// them is it; it says as many, in the same order.
pub proof fn bytes_say_what_they_hold(list: Seq<Vec<u8>>, b: Seq<u8>)
    ensures
        byte_views(list).len() == list.len(),
        forall|i: int| 0 <= i < list.len() ==> byte_views(list)[i] == (#[trigger] list[i])@,
        byte_views(list).contains(b) <==> exists|i: int| 0 <= i < list.len() && (#[trigger] list[i])@ == b,
{
    let views = byte_views(list);
    if views.contains(b) {
        let i = choose|i: int| 0 <= i < views.len() && views[i] == b;
        assert(list[i]@ == b);
    }
    if exists|i: int| 0 <= i < list.len() && (#[trigger] list[i])@ == b {
        let i = choose|i: int| 0 <= i < list.len() && (#[trigger] list[i])@ == b;
        assert(views[i] == b);
    }
}

/// One more digit: writing `10 * n + d` puts the digit `d` behind `n`.
pub proof fn decimals_grow_digit_by_digit(n: nat, d: nat)
    requires
        d < 10,
    ensures
        decimal(d) == seq![(48 + d) as u8 as char],
        n > 0 ==> decimal(10 * n + d) == decimal(n).push((48 + d) as u8 as char),
{
    if n > 0 {
        assert((10 * n + d) / 10 == n && (10 * n + d) % 10 == d);
    }
}

/// The value of decimal digits: each adds its value to ten times that of those
/// before it; anything else has none.
pub proof fn digits_count_in_tens(b: Seq<u8>)
    ensures
        digits_value(b) is Some <==> forall|i: int| 0 <= i < b.len() ==> 48 <= #[trigger] b[i] <= 57,
        digits_value(b) matches Some(v) ==> v as int == b.fold_left(0int, |n: int, c: u8| 10 * n + (c - 48)),
    decreases b.len(),
{
    reveal(Seq::fold_left);
    if b.len() > 0 {
        let init = b.drop_last();
        digits_count_in_tens(init);
        if digits_value(b) is Some {
            assert forall|i: int| 0 <= i < b.len() implies 48 <= #[trigger] b[i] <= 57 by {
                if i < init.len() {
                    assert(48 <= init[i] <= 57);
                }
            }
        }
        if forall|i: int| 0 <= i < b.len() ==> 48 <= #[trigger] b[i] <= 57 {
            assert forall|i: int| 0 <= i < init.len() implies 48 <= #[trigger] init[i] <= 57 by {
                assert(48 <= b[i] <= 57);
            }
            assert(48 <= b[b.len() - 1] <= 57);
        }
    }
}

} // verus!
