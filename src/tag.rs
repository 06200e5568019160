//! Tags: short prefixes that stand for an entry's index, in two families.
use vstd::prelude::*;
use crate::text::push_chars;

verus! {

/// The ternary alphabet: the symbols for the digits 0, 1 and 2.
pub const SYMBOL_0: char = 'j';
pub const SYMBOL_1: char = 'k';
pub const SYMBOL_2: char = 'l';

/// The two families of tags.
#[derive(Clone, Copy, Debug, PartialEq, Eq, Structural)]
pub enum TagFamily {
    /// Base ten, no padding.
    Decimal,
    /// Base three over a fixed alphabet of three symbols, all tags of one width.
    Ternary,
}

/// Why a tag codec could not be set up.
#[derive(Clone, Copy, Debug, PartialEq, Eq, Structural)]
pub enum CodecError {
    /// No ternary width whose indices fit in `usize` covers this many entries.
    CapacityExceeded { count: usize },
}

/// Encodes indices `0..count` as tags of one family and decodes them back.
#[derive(Clone, Copy, Debug, PartialEq, Eq, Structural)]
pub struct TagCodec {
    pub family: TagFamily,
    /// How many entries are tagged: the valid indices are `0..count`.
    pub count: usize,
    /// The number of symbols of every ternary tag (0 for decimal tags).
    pub width: usize,
}

/// Three to the power `w`.
pub open spec fn pow3(w: nat) -> nat
    decreases w,
{
    if w == 0 {
        1
    } else {
        3 * pow3((w - 1) as nat)
    }
}

/// `w` is the least width of at least one whose tags number `n` or more.
pub open spec fn is_ternary_width(n: nat, w: nat) -> bool {
    &&& w >= 1
    &&& n <= pow3(w)
    &&& (w == 1 || pow3((w - 1) as nat) < n)
}

/// An ASCII decimal digit.
pub open spec fn is_digit(c: char) -> bool {
    '0' <= c && c <= '9'
}

/// The ASCII digit for `d`.
pub open spec fn digit_char(d: nat) -> char {
    ((48 + d) as u8) as char
}

/// The value of the ASCII digit `c`.
pub open spec fn digit_value(c: char) -> nat {
    (c as u32 - 48) as nat
}

/// One of the three ternary symbols.
pub open spec fn is_symbol(c: char) -> bool {
    c == SYMBOL_0 || c == SYMBOL_1 || c == SYMBOL_2
}

/// The ternary symbol for the digit `d`.
pub open spec fn symbol_char(d: nat) -> char {
    if d == 0 {
        SYMBOL_0
    } else if d == 1 {
        SYMBOL_1
    } else {
        SYMBOL_2
    }
}

/// The digit that the ternary symbol `c` stands for.
pub open spec fn symbol_value(c: char) -> nat {
    if c == SYMBOL_0 {
        0
    } else if c == SYMBOL_1 {
        1
    } else {
        2
    }
}

/// The base-ten digits of `i`, without leading zeros.
pub open spec fn decimal_digits(i: nat) -> Seq<char>
    decreases i,
{
    if i < 10 {
        seq![digit_char(i)]
    } else {
        decimal_digits(i / 10).push(digit_char(i % 10))
    }
}

/// The number that the decimal digits `s` spell.
pub open spec fn decimal_value(s: Seq<char>) -> nat
    decreases s.len(),
{
    if s.len() == 0 {
        0
    } else {
        decimal_value(s.drop_last()) * 10 + digit_value(s.last())
    }
}

/// How many digits `s` starts with.
pub open spec fn digit_run(s: Seq<char>) -> nat
    decreases s.len(),
{
    if s.len() > 0 && is_digit(s[0]) {
        1 + digit_run(s.drop_first())
    } else {
        0
    }
}

/// The lowest `w` base-three digits of `i`, most significant first, as symbols.
pub open spec fn ternary_digits(i: nat, w: nat) -> Seq<char>
    decreases w,
{
    if w == 0 {
        Seq::<char>::empty()
    } else {
        ternary_digits(i / 3, (w - 1) as nat).push(symbol_char(i % 3))
    }
}

/// The number that the symbols `s` spell in base three.
pub open spec fn ternary_value(s: Seq<char>) -> nat
    decreases s.len(),
{
    if s.len() == 0 {
        0
    } else {
        ternary_value(s.drop_last()) * 3 + symbol_value(s.last())
    }
}

impl TagCodec {
    /// Ternary codecs have the least width that covers `count`, and their indices fit in
    /// `usize`.
    pub open spec fn wf(self) -> bool {
        match self.family {
            TagFamily::Decimal => self.width == 0,
            TagFamily::Ternary => {
                &&& is_ternary_width(self.count as nat, self.width as nat)
                &&& pow3(self.width as nat) <= usize::MAX
            },
        }
    }

    /// The tag of index `i`.
    pub open spec fn encode_spec(self, i: nat) -> Seq<char> {
        match self.family {
            TagFamily::Decimal => decimal_digits(i),
            TagFamily::Ternary => ternary_digits(i, self.width as nat),
        }
    }

    /// The index whose tag `t` starts with, if any.
    pub open spec fn decode_spec(self, t: Seq<char>) -> Option<nat> {
        match self.family {
            TagFamily::Decimal => {
                let k = digit_run(t);
                let v = decimal_value(t.take(k as int));
                if k > 0 && v < self.count {
                    Some(v)
                } else {
                    None
                }
            },
            TagFamily::Ternary => {
                let w = self.width as int;
                let v = ternary_value(t.take(w));
                if t.len() >= w && (forall|k: int| 0 <= k < w ==> is_symbol(#[trigger] t[k]))
                    && v < self.count {
                    Some(v)
                } else {
                    None
                }
            },
        }
    }

    /// The separator that the family puts between a tag and a name.
    pub open spec fn separator_default_spec(self) -> Option<Seq<char>> {
        Some(seq![' '])
    }
}


/// Powers of three are positive and grow with the exponent.
pub proof fn lemma_pow3_mono(a: nat, b: nat)
    requires
        a <= b,
    ensures
        1 <= pow3(a) <= pow3(b),
    decreases b,
{
    if b > 0 {
        if a < b {
            lemma_pow3_mono(a, (b - 1) as nat);
        } else {
            lemma_pow3_mono((a - 1) as nat, (b - 1) as nat);
        }
    }
}

proof fn lemma_ternary_width_unique(n: nat, a: nat, b: nat)
    requires
        is_ternary_width(n, a),
        is_ternary_width(n, b),
    ensures
        a == b,
{
    if a < b {
        lemma_pow3_mono(a, (b - 1) as nat);
    } else if b < a {
        lemma_pow3_mono(b, (a - 1) as nat);
    }
}

/// Whether a codec for `count` entries can be had.
pub open spec fn codec_fits(numbered: bool, count: nat) -> bool {
    numbered || exists|w: nat| pow3(w) <= usize::MAX && count <= pow3(w)
}

/// The codec for `count` entries: decimal where `numbered`, else ternary of the least width.
pub open spec fn codec_for(numbered: bool, count: usize) -> TagCodec {
    if numbered {
        TagCodec { family: TagFamily::Decimal, count, width: 0 }
    } else {
        let w = choose|w: nat| is_ternary_width(count as nat, w);
        TagCodec { family: TagFamily::Ternary, count, width: w as usize }
    }
}

proof fn lemma_digit_char(d: nat)
    requires
        d < 10,
    ensures
        is_digit(digit_char(d)),
        digit_value(digit_char(d)) == d,
{
}

proof fn lemma_symbol_char(d: nat)
    requires
        d < 3,
    ensures
        is_symbol(symbol_char(d)),
        symbol_value(symbol_char(d)) == d,
{
}

proof fn lemma_decimal_digits(i: nat)
    ensures
        decimal_digits(i).len() >= 1,
        forall|k: int| 0 <= k < decimal_digits(i).len() ==> is_digit(#[trigger] decimal_digits(i)[k]),
        decimal_value(decimal_digits(i)) == i,
    decreases i,
{
    if i < 10 {
        lemma_digit_char(i);
        assert(decimal_digits(i).drop_last() == Seq::<char>::empty());
        assert(decimal_digits(i).last() == digit_char(i));
        assert(decimal_value(Seq::<char>::empty()) == 0);
    } else {
        lemma_digit_char(i % 10);
        lemma_decimal_digits(i / 10);
        assert(decimal_digits(i).drop_last() == decimal_digits(i / 10));
        assert(decimal_digits(i).last() == digit_char(i % 10));
        assert(i == (i / 10) * 10 + i % 10);
    }
}

proof fn lemma_digit_run_concat(p: Seq<char>, s: Seq<char>)
    requires
        forall|k: int| 0 <= k < p.len() ==> is_digit(#[trigger] p[k]),
        s.len() == 0 || !is_digit(s[0]),
    ensures
        digit_run(p + s) == p.len(),
    decreases p.len(),
{
    if p.len() > 0 {
        assert((p + s)[0] == p[0]);
        assert((p + s).drop_first() == p.drop_first() + s);
        assert forall|k: int| 0 <= k < p.drop_first().len() implies is_digit(
            #[trigger] p.drop_first()[k],
        ) by {
            assert(p.drop_first()[k] == p[k + 1]);
        }
        lemma_digit_run_concat(p.drop_first(), s);
    } else {
        assert(p + s == s);
    }
}

proof fn lemma_ternary_digits(i: nat, w: nat)
    requires
        i < pow3(w),
    ensures
        ternary_digits(i, w).len() == w,
        forall|k: int| 0 <= k < w ==> is_symbol(#[trigger] ternary_digits(i, w)[k]),
        ternary_value(ternary_digits(i, w)) == i,
    decreases w,
{
    if w > 0 {
        let w1 = (w - 1) as nat;
        assert(i / 3 < pow3(w1)) by (nonlinear_arith)
            requires
                i < 3 * pow3(w1),
        ;
        lemma_ternary_digits(i / 3, w1);
        lemma_symbol_char(i % 3);
        let t = ternary_digits(i, w);
        assert(t.drop_last() == ternary_digits(i / 3, w1));
        assert forall|k: int| 0 <= k < w implies is_symbol(#[trigger] t[k]) by {
            if k < w1 {
                assert(t[k] == ternary_digits(i / 3, w1)[k]);
            }
        }
    }
}

/// A decimal tag followed by text that does not start with a digit decodes to its index.
pub proof fn lemma_decimal_decode_prefix(c: TagCodec, i: nat, s: Seq<char>)
    requires
        c.wf(),
        c.family == TagFamily::Decimal,
        i < c.count,
        s.len() == 0 || !is_digit(s[0]),
    ensures
        c.decode_spec(c.encode_spec(i) + s) == Some(i),
{
    let p = decimal_digits(i);
    lemma_decimal_digits(i);
    lemma_digit_run_concat(p, s);
    assert((p + s).take(p.len() as int) == p);
}

/// A ternary tag followed by any text decodes to its index.
pub proof fn lemma_ternary_decode_prefix(c: TagCodec, i: nat, s: Seq<char>)
    requires
        c.wf(),
        c.family == TagFamily::Ternary,
        i < c.count,
    ensures
        c.decode_spec(c.encode_spec(i) + s) == Some(i),
{
    let w = c.width as nat;
    let p = ternary_digits(i, w);
    lemma_ternary_digits(i, w);
    let t = p + s;
    assert(t.take(w as int) == p);
    assert forall|k: int| 0 <= k < w implies is_symbol(#[trigger] t[k]) by {
        assert(t[k] == p[k]);
    }
}

/// Every tag is non-empty and made of digits or ternary symbols.
pub proof fn lemma_tag_shape(c: TagCodec, i: nat)
    requires
        c.wf(),
        i < c.count,
    ensures
        c.encode_spec(i).len() >= 1,
        forall|k: int|
            0 <= k < c.encode_spec(i).len() ==> is_digit(#[trigger] c.encode_spec(i)[k]) || is_symbol(
                c.encode_spec(i)[k],
            ),
{
    match c.family {
        TagFamily::Decimal => lemma_decimal_digits(i),
        TagFamily::Ternary => lemma_ternary_digits(i, c.width as nat),
    }
}

/// Round trip: the tag of every valid index decodes to that index.
pub proof fn lemma_round_trip(c: TagCodec, i: nat)
    requires
        c.wf(),
        i < c.count,
    ensures
        c.decode_spec(c.encode_spec(i)) == Some(i),
{
    let e = c.encode_spec(i);
    assert(e + Seq::<char>::empty() == e);
    match c.family {
        TagFamily::Decimal => lemma_decimal_decode_prefix(c, i, Seq::<char>::empty()),
        TagFamily::Ternary => lemma_ternary_decode_prefix(c, i, Seq::<char>::empty()),
    }
}

/// Injectivity: distinct valid indices have distinct tags.
pub proof fn lemma_injective(c: TagCodec, i: nat, j: nat)
    requires
        c.wf(),
        i < c.count,
        j < c.count,
        i != j,
    ensures
        c.encode_spec(i) != c.encode_spec(j),
{
    lemma_round_trip(c, i);
    lemma_round_trip(c, j);
}

/// Prefix-freedom of ternary tags: no tag of a valid index is a strict prefix of another.
pub proof fn lemma_ternary_prefix_free(c: TagCodec, i: nat, j: nat)
    requires
        c.wf(),
        c.family == TagFamily::Ternary,
        i < c.count,
        j < c.count,
        i != j,
    ensures
        c.encode_spec(i).len() == c.encode_spec(j).len(),
        !c.encode_spec(j).is_prefix_of(c.encode_spec(i)),
{
    lemma_ternary_digits(i, c.width as nat);
    lemma_ternary_digits(j, c.width as nat);
    lemma_injective(c, i, j);
    if c.encode_spec(j).is_prefix_of(c.encode_spec(i)) {
        assert(c.encode_spec(i) == c.encode_spec(j));
    }
}


proof fn lemma_decimal_value_mono(s: Seq<char>, k: int, m: int)
    requires
        0 <= k <= m <= s.len(),
    ensures
        decimal_value(s.take(k)) <= decimal_value(s.take(m)),
    decreases m - k,
{
    if k < m {
        lemma_decimal_value_mono(s, k, m - 1);
        assert(s.take(m).drop_last() == s.take(m - 1));
    }
}

proof fn lemma_digit_run_facts(s: Seq<char>)
    ensures
        digit_run(s) <= s.len(),
        forall|j: int| 0 <= j < digit_run(s) ==> is_digit(#[trigger] s[j]),
        digit_run(s) == s.len() || !is_digit(s[digit_run(s) as int]),
    decreases s.len(),
{
    if s.len() > 0 && is_digit(s[0]) {
        let t = s.drop_first();
        lemma_digit_run_facts(t);
        assert forall|j: int| 0 <= j < digit_run(s) implies is_digit(#[trigger] s[j]) by {
            if j > 0 {
                assert(s[j] == t[j - 1]);
            }
        }
        if digit_run(s) < s.len() {
            assert(s[digit_run(s) as int] == t[digit_run(t) as int]);
        }
    }
}

proof fn lemma_digit_run_exact(s: Seq<char>, k: int)
    requires
        0 <= k <= s.len(),
        forall|j: int| 0 <= j < k ==> is_digit(#[trigger] s[j]),
        k == s.len() || !is_digit(s[k]),
    ensures
        digit_run(s) == k,
{
    let p = s.take(k);
    let r = s.skip(k);
    assert forall|j: int| 0 <= j < p.len() implies is_digit(#[trigger] p[j]) by {
        assert(p[j] == s[j]);
    }
    if k < s.len() {
        assert(r[0] == s[k]);
    }
    lemma_digit_run_concat(p, r);
    assert(p + r == s);
}

fn digit_of(d: usize) -> (c: char)
    requires
        d < 10,
    ensures
        c == digit_char(d as nat),
{
    ((48 + d) as u8) as char
}

fn symbol_of(d: usize) -> (c: char)
    requires
        d < 3,
    ensures
        c == symbol_char(d as nat),
{
    if d == 0 {
        SYMBOL_0
    } else if d == 1 {
        SYMBOL_1
    } else {
        SYMBOL_2
    }
}

fn push_decimal(out: &mut String, i: usize)
    ensures
        final(out)@ == old(out)@ + decimal_digits(i as nat),
    decreases i,
{
    if i >= 10 {
        push_decimal(out, i / 10);
    }
    out.push(digit_of(i % 10));
    proof {
        if i >= 10 {
            assert(old(out)@ + decimal_digits(i as nat) == old(out)@ + decimal_digits(i as nat / 10)
                + seq![digit_char(i as nat % 10)]);
        }
    }
}

fn push_ternary(out: &mut String, i: usize, w: usize)
    ensures
        final(out)@ == old(out)@ + ternary_digits(i as nat, w as nat),
    decreases w,
{
    if w > 0 {
        push_ternary(out, i / 3, w - 1);
        out.push(symbol_of(i % 3));
        assert(old(out)@ + ternary_digits(i as nat, w as nat) == old(out)@ + ternary_digits(
            i as nat / 3,
            (w - 1) as nat,
        ) + seq![symbol_char(i as nat % 3)]);
    } else {
        assert(old(out)@ + ternary_digits(i as nat, w as nat) == old(out)@);
    }
}

impl TagCodec {
    /// The codec for `count` entries: decimal tags where `numbered`, else ternary tags of the
    /// least width that covers them.
    pub fn new(numbered: bool, count: usize) -> (r: Result<TagCodec, CodecError>)
        ensures
            match r {
                Ok(c) => {
                    &&& c.wf()
                    &&& c == codec_for(numbered, count)
                },
                Err(e) => {
                    &&& !numbered
                    &&& e == (CodecError::CapacityExceeded { count })
                    &&& forall|w: nat| pow3(w) <= usize::MAX ==> pow3(w) < count
                },
            },
            r is Ok <==> codec_fits(numbered, count as nat),
    {
        if numbered {
            return Ok(TagCodec { family: TagFamily::Decimal, count, width: 0 });
        }
        let mut w: usize = 1;
        let mut p: usize = 3;
        assert(pow3(1) == 3) by {
            reveal_with_fuel(pow3, 2);
        }
        while p < count
            invariant
                1 <= w,
                p == pow3(w as nat),
                w < p,
                !numbered,
                w == 1 || pow3((w - 1) as nat) < count,
            decreases usize::MAX - p,
        {
            if p > usize::MAX / 3 {
                proof {
                    assert(3 * p > usize::MAX) by (nonlinear_arith)
                        requires
                            p > usize::MAX / 3,
                    ;
                    assert(pow3((w + 1) as nat) == 3 * p);
                    assert forall|v: nat| pow3(v) <= usize::MAX implies pow3(v) < count by {
                        if v <= w {
                            lemma_pow3_mono(v, w as nat);
                        } else {
                            lemma_pow3_mono((w + 1) as nat, v);
                        }
                    }
                }
                return Err(CodecError::CapacityExceeded { count });
            }
            p = p * 3;
            w = w + 1;
        }
        proof {
            assert(is_ternary_width(count as nat, w as nat));
            let v = choose|v: nat| is_ternary_width(count as nat, v);
            lemma_ternary_width_unique(count as nat, w as nat, v);
        }
        Ok(TagCodec { family: TagFamily::Ternary, count, width: w })
    }

    /// The tag of index `i`.
    pub fn encode(&self, i: usize) -> (r: String)
        requires
            self.wf(),
            i < self.count,
        ensures
            r@ == self.encode_spec(i as nat),
    {
        let mut r = String::new();
        match self.family {
            TagFamily::Decimal => push_decimal(&mut r, i),
            TagFamily::Ternary => push_ternary(&mut r, i, self.width),
        }
        r
    }

    /// The index whose tag the characters `t` start with, if any.
    pub fn decode_chars(&self, t: &[char]) -> (r: Option<usize>)
        requires
            self.wf(),
        ensures
            r is Some <==> self.decode_spec(t@) is Some,
            r matches Some(v) ==> self.decode_spec(t@) == Some(v as nat),
            r matches Some(v) ==> v < self.count,
    {
        match self.family {
            TagFamily::Decimal => {
                if self.count == 0 {
                    return None;
                }
                let mut k: usize = 0;
                let mut v: u128 = 0;
                while k < t.len() && '0' <= t[k] && t[k] <= '9'
                    invariant
                        k <= t@.len(),
                        forall|j: int| 0 <= j < k ==> is_digit(#[trigger] t@[j]),
                        v == decimal_value(t@.take(k as int)),
                        v < self.count,
                        self.family == TagFamily::Decimal,
                    decreases t@.len() - k,
                {
                    let d = (t[k] as u32 - 48) as u128;
                    assert(t@.take(k + 1).drop_last() == t@.take(k as int));
                    assert(t@.take(k + 1).last() == t@[k as int]);
                    v = v * 10 + d;
                    assert(v == decimal_value(t@.take(k + 1)));
                    k = k + 1;
                    if v >= self.count as u128 {
                        proof {
                            let m = digit_run(t@) as int;
                            lemma_digit_run_facts(t@);
                            if m < k {
                                assert(is_digit(t@[m]));
                            }
                            lemma_decimal_value_mono(t@, k as int, m);
                            assert(decimal_value(t@.take(m)) >= self.count);
                        }
                        return None;
                    }
                }
                proof {
                    lemma_digit_run_exact(t@, k as int);
                }
                if k == 0 {
                    None
                } else {
                    Some(v as usize)
                }
            },
            TagFamily::Ternary => {
                let w = self.width;
                if t.len() < w {
                    return None;
                }
                let mut k: usize = 0;
                let mut v: usize = 0;
                while k < w
                    invariant
                        k <= w <= t@.len(),
                        w == self.width,
                        self.wf(),
                        self.family == TagFamily::Ternary,
                        forall|j: int| 0 <= j < k ==> is_symbol(#[trigger] t@[j]),
                        v == ternary_value(t@.take(k as int)),
                        v < pow3(k as nat),
                    decreases w - k,
                {
                    let c = t[k];
                    if c != SYMBOL_0 && c != SYMBOL_1 && c != SYMBOL_2 {
                        return None;
                    }
                    let d: usize = if c == SYMBOL_0 {
                        0
                    } else if c == SYMBOL_1 {
                        1
                    } else {
                        2
                    };
                    proof {
                        lemma_pow3_mono((k + 1) as nat, w as nat);
                        assert(v * 3 + d < 3 * pow3(k as nat)) by (nonlinear_arith)
                            requires
                                v < pow3(k as nat),
                                d < 3,
                        ;
                        assert(t@.take(k + 1).drop_last() == t@.take(k as int));
                    }
                    v = v * 3 + d;
                    k = k + 1;
                }
                if v < self.count {
                    Some(v)
                } else {
                    None
                }
            },
        }
    }

    /// The index whose tag `text` starts with, if any.
    pub fn decode(&self, text: &str) -> (r: Option<usize>)
        requires
            self.wf(),
        ensures
            r is Some <==> self.decode_spec(text@) is Some,
            r matches Some(v) ==> self.decode_spec(text@) == Some(v as nat),
            r matches Some(v) ==> v < self.count,
    {
        let cs = crate::text::chars_of(text);
        self.decode_chars(cs.as_slice())
    }

    /// The separator that the family puts between a tag and a name.
    pub fn separator_default(&self) -> (r: Option<&'static str>)
        ensures
            r is Some <==> self.separator_default_spec() is Some,
            r matches Some(s) ==> self.separator_default_spec() == Some(s@),
    {
        let s = " ";
        proof {
            reveal_strlit(" ");
        }
        assert(s@ == seq![' ']);
        Some(s)
    }
}

} // verus!
