//! The synset-key codec: a canonical identifier made of an eight-digit
//! zero-padded offset and one part-of-speech letter, written `"########-x"`.
//! Parsing and printing round-trip losslessly, and the order of the packed
//! form agrees with the order of the canonical strings.
use crate::wordnet::WordNetLoadError;
use vstd::prelude::*;

verus! {

/// The closed set of part-of-speech letters a synset key may carry.
pub open spec fn is_pos_letter(c: char) -> bool {
    c == 'n' || c == 'v' || c == 'a' || c == 'r' || c == 's' || c == 'p' || c == 'x'
}

pub open spec fn is_digit(c: char) -> bool {
    c == '0' || c == '1' || c == '2' || c == '3' || c == '4' || c == '5' || c == '6' || c == '7'
        || c == '8' || c == '9'
}

pub open spec fn digit_val(c: char) -> int {
    if c == '0' {
        0
    } else if c == '1' {
        1
    } else if c == '2' {
        2
    } else if c == '3' {
        3
    } else if c == '4' {
        4
    } else if c == '5' {
        5
    } else if c == '6' {
        6
    } else if c == '7' {
        7
    } else if c == '8' {
        8
    } else {
        9
    }
}

pub open spec fn digit_char(d: int) -> char {
    if d == 0 {
        '0'
    } else if d == 1 {
        '1'
    } else if d == 2 {
        '2'
    } else if d == 3 {
        '3'
    } else if d == 4 {
        '4'
    } else if d == 5 {
        '5'
    } else if d == 6 {
        '6'
    } else if d == 7 {
        '7'
    } else if d == 8 {
        '8'
    } else {
        '9'
    }
}

/// The number written by a sequence of decimal digits.
pub open spec fn digits_val(s: Seq<char>) -> int
    decreases s.len(),
{
    if s.len() == 0 {
        0
    } else {
        digits_val(s.drop_last()) * 10 + digit_val(s.last())
    }
}

/// The `w` low decimal digits of `n`, most significant first.
pub open spec fn digits_of(n: int, w: nat) -> Seq<char>
    decreases w,
{
    if w == 0 {
        Seq::empty()
    } else {
        digits_of(n / 10, (w - 1) as nat).push(digit_char(n % 10))
    }
}

pub open spec fn pow10(w: nat) -> int
    decreases w,
{
    if w == 0 {
        1
    } else {
        10 * pow10((w - 1) as nat)
    }
}

/// The ten-character canonical shape: eight digits, a dash and one
/// part-of-speech letter.
pub open spec fn valid_key_chars(s: Seq<char>) -> bool {
    s.len() == 10 && (forall|i: int| 0 <= i < 8 ==> is_digit(#[trigger] s[i])) && s[8] == '-'
        && is_pos_letter(s[9])
}

/// A canonical synset identifier: an offset below one hundred million and a
/// part-of-speech letter.
#[derive(Clone, Copy, Debug, PartialEq, Eq, Structural, Hash)]
pub struct WNKey {
    pub num: u32,
    pub pos: char,
}

impl WNKey {
    /// The packed form stands for a real identifier.
    pub open spec fn wf(self) -> bool {
        self.num < 100000000 && is_pos_letter(self.pos)
    }

    /// The canonical string of a key.
    pub open spec fn key_str(self) -> Seq<char> {
        digits_of(self.num as int, 8) + seq!['-', self.pos]
    }

    /// What parsing a canonical string yields.
    pub open spec fn spec_parse(s: Seq<char>) -> Option<WNKey> {
        if valid_key_chars(s) {
            Some(WNKey { num: digits_val(s.take(8)) as u32, pos: s[9] })
        } else {
            None
        }
    }

    /// Strict order on keys: by offset, then by part-of-speech letter.
    pub open spec fn spec_lt(self, other: WNKey) -> bool {
        self.num < other.num || (self.num == other.num && self.pos < other.pos)
    }
}

pub proof fn lemma_pow10_8()
    ensures
        pow10(8) == 100000000,
{
    assert(pow10(0) == 1);
    assert(pow10(1) == 10);
    assert(pow10(2) == 100);
    assert(pow10(3) == 1000);
    assert(pow10(4) == 10000);
    assert(pow10(5) == 100000);
    assert(pow10(6) == 1000000);
    assert(pow10(7) == 10000000);
}

/// A digit string of length `w` writes a number below `pow10(w)`.
pub proof fn lemma_digits_val_bound(s: Seq<char>)
    ensures
        0 <= digits_val(s) < pow10(s.len()),
    decreases s.len(),
{
    if s.len() > 0 {
        lemma_digits_val_bound(s.drop_last());
    }
}

/// Writing `n` as `w` digits and reading the digits back gives `n` again.
pub proof fn lemma_digits_of_val(n: int, w: nat)
    requires
        0 <= n < pow10(w),
    ensures
        digits_val(digits_of(n, w)) == n,
        digits_of(n, w).len() == w,
        forall|i: int| 0 <= i < w ==> is_digit(#[trigger] digits_of(n, w)[i]),
    decreases w,
{
    if w > 0 {
        assert(n / 10 < pow10((w - 1) as nat) && n / 10 >= 0) by (nonlinear_arith)
            requires
                0 <= n < 10 * pow10((w - 1) as nat),
                pow10((w - 1) as nat) > 0,
        {
        }
        assert(pow10((w - 1) as nat) > 0) by {
            lemma_pow10_pos((w - 1) as nat);
        }
        lemma_digits_of_val(n / 10, (w - 1) as nat);
        let d = digits_of(n, w);
        assert(d == digits_of(n / 10, (w - 1) as nat).push(digit_char(n % 10)));
        assert(d.drop_last() =~= digits_of(n / 10, (w - 1) as nat));
        assert(d.last() == digit_char(n % 10));
        assert(digits_val(d) == (n / 10) * 10 + digit_val(digit_char(n % 10)));
        assert(digit_val(digit_char(n % 10)) == n % 10);
        assert((n / 10) * 10 + n % 10 == n) by (nonlinear_arith);
    }
}

pub proof fn lemma_pow10_pos(w: nat)
    ensures
        pow10(w) >= 1,
    decreases w,
{
    if w > 0 {
        lemma_pow10_pos((w - 1) as nat);
    }
}

/// Reading a digit string and writing the number back gives the same
/// digits.
pub proof fn lemma_digits_roundtrip(s: Seq<char>)
    requires
        forall|i: int| 0 <= i < s.len() ==> is_digit(#[trigger] s[i]),
    ensures
        digits_of(digits_val(s), s.len()) == s,
    decreases s.len(),
{
    if s.len() > 0 {
        let hd = s.drop_last();
        assert(forall|i: int| 0 <= i < hd.len() ==> hd[i] == s[i]);
        lemma_digits_roundtrip(hd);
        let n = digits_val(s);
        let a = digits_val(hd);
        let b = digit_val(s.last());
        assert(is_digit(s.last()));
        assert(0 <= b < 10);
        assert(n == a * 10 + b);
        assert(a >= 0) by {
            lemma_digits_val_bound(hd);
        }
        assert(n / 10 == a && n % 10 == b) by (nonlinear_arith)
            requires
                n == a * 10 + b,
                0 <= b < 10,
                a >= 0,
        {
        }
        assert(digit_char(digit_val(s.last())) == s.last());
        assert(digits_of(n, s.len()) =~= s);
    }
}

/// The canonical string of a well-formed key has the canonical shape.
pub proof fn lemma_key_str_valid(k: WNKey)
    requires
        k.wf(),
    ensures
        valid_key_chars(k.key_str()),
        k.key_str().len() == 10,
{
    lemma_pow10_8();
    lemma_digits_of_val(k.num as int, 8);
    let s = k.key_str();
    assert(forall|i: int|
        0 <= i < 8 ==> s[i] == #[trigger] digits_of(k.num as int, 8)[i]);
}

/// Parsing the canonical string of a well-formed key gives the key back.
pub proof fn lemma_parse_key_str(k: WNKey)
    requires
        k.wf(),
    ensures
        WNKey::spec_parse(k.key_str()) == Some(k),
{
    lemma_key_str_valid(k);
    lemma_pow10_8();
    lemma_digits_of_val(k.num as int, 8);
    let s = k.key_str();
    assert(s.take(8) =~= digits_of(k.num as int, 8));
    assert(s[9] == k.pos);
}

/// Printing the key parsed from a valid canonical string gives the string
/// back.
pub proof fn lemma_key_str_parse(s: Seq<char>)
    requires
        valid_key_chars(s),
    ensures
        WNKey::spec_parse(s) matches Some(k) && k.wf() && k.key_str() == s,
{
    let digits = s.take(8);
    assert(forall|i: int| 0 <= i < 8 ==> digits[i] == #[trigger] s[i]);
    lemma_digits_val_bound(digits);
    lemma_pow10_8();
    lemma_digits_roundtrip(digits);
    let k = WNKey::spec_parse(s).unwrap();
    assert(k.num as int == digits_val(digits));
    assert(digits_of(k.num as int, 8) == digits);
    assert(k.key_str() =~= s);
}

/// The value of one decimal digit character, if it is one.
pub fn digit_value(c: char) -> (r: Option<u32>)
    ensures
        r matches Some(d) ==> is_digit(c) && d == digit_val(c) && d < 10,
        r is None ==> !is_digit(c),
{
    if c == '0' {
        Some(0)
    } else if c == '1' {
        Some(1)
    } else if c == '2' {
        Some(2)
    } else if c == '3' {
        Some(3)
    } else if c == '4' {
        Some(4)
    } else if c == '5' {
        Some(5)
    } else if c == '6' {
        Some(6)
    } else if c == '7' {
        Some(7)
    } else if c == '8' {
        Some(8)
    } else if c == '9' {
        Some(9)
    } else {
        None
    }
}

/// One decimal digit as a string literal.
fn digit_str(d: u32) -> (r: &'static str)
    requires
        d < 10,
    ensures
        r@ == seq![digit_char(d as int)],
{
    proof {
        reveal_strlit("0");
        reveal_strlit("1");
        reveal_strlit("2");
        reveal_strlit("3");
        reveal_strlit("4");
        reveal_strlit("5");
        reveal_strlit("6");
        reveal_strlit("7");
        reveal_strlit("8");
        reveal_strlit("9");
    }
    let r = if d == 0 {
        "0"
    } else if d == 1 {
        "1"
    } else if d == 2 {
        "2"
    } else if d == 3 {
        "3"
    } else if d == 4 {
        "4"
    } else if d == 5 {
        "5"
    } else if d == 6 {
        "6"
    } else if d == 7 {
        "7"
    } else if d == 8 {
        "8"
    } else {
        "9"
    };
    proof {
        assert(r@ =~= seq![digit_char(d as int)]);
    }
    r
}

/// The eight low decimal digits of `n`, zero padded, most significant
/// first.
fn digits_string(n: u32, w: u32) -> (r: String)
    ensures
        r@ == digits_of(n as int, w as nat),
    decreases w,
{
    if w == 0 {
        let r = String::new();
        proof {
            assert(r@ =~= digits_of(n as int, 0));
        }
        r
    } else {
        let mut r = digits_string(n / 10, w - 1);
        r.append(digit_str(n % 10));
        proof {
            assert(r@ =~= digits_of(n as int, w as nat));
        }
        r
    }
}

impl WNKey {
    /// Makes a key from an offset and a part-of-speech letter.
    pub fn new(num: u32, pos: char) -> (r: Result<WNKey, WordNetLoadError>)
        ensures
            num < 100000000 && is_pos_letter(pos) <==> (r matches Ok(k) && k == (WNKey {
                num,
                pos,
            }) && k.wf()),
            !(num < 100000000 && is_pos_letter(pos)) ==> (r matches Err(e) && e is BadKey),
    {
        if num < 100000000 && (pos == 'n' || pos == 'v' || pos == 'a' || pos == 'r' || pos == 's'
            || pos == 'p' || pos == 'x') {
            Ok(WNKey { num, pos })
        } else {
            Err(WordNetLoadError::BadKey(String::new()))
        }
    }

    /// Parses the ten-character canonical form; any other string is a bad
    /// key.
    pub fn parse(s: &str) -> (r: Result<WNKey, WordNetLoadError>)
        ensures
            valid_key_chars(s@) <==> (r matches Ok(k) && Some(k) == WNKey::spec_parse(s@)
                && k.wf() && k.key_str() == s@),
            !valid_key_chars(s@) ==> (r matches Err(e) && e is BadKey),
    {
        let len = s.unicode_len();
        if len != 10 {
            return Err(WordNetLoadError::BadKey(String::from_str(s)));
        }
        let mut num: u32 = 0;
        let mut i: usize = 0;
        proof {
            assert(s@.take(0) =~= Seq::<char>::empty());
            lemma_pow10_8();
        }
        while i < 8
            invariant
                i <= 8,
                s@.len() == 10,
                num == digits_val(s@.take(i as int)),
                0 <= num < pow10(i as nat),
                pow10(8) == 100000000,
                forall|j: int| 0 <= j < i ==> is_digit(#[trigger] s@[j]),
            decreases 8 - i,
        {
            let c = s.get_char(i);
            match digit_value(c) {
                Some(d) => {
                    proof {
                        lemma_pow10_mono(i as nat, 8);
                        assert(s@.take(i + 1).drop_last() =~= s@.take(i as int));
                        assert(s@.take(i + 1).last() == s@[i as int]);
                    }
                    num = num * 10 + d;
                },
                None => {
                    return Err(WordNetLoadError::BadKey(String::from_str(s)));
                },
            }
            i += 1;
        }
        if s.get_char(8) != '-' {
            return Err(WordNetLoadError::BadKey(String::from_str(s)));
        }
        let pos = s.get_char(9);
        if !(pos == 'n' || pos == 'v' || pos == 'a' || pos == 'r' || pos == 's' || pos == 'p'
            || pos == 'x') {
            return Err(WordNetLoadError::BadKey(String::from_str(s)));
        }
        proof {
            assert(valid_key_chars(s@));
            lemma_key_str_parse(s@);
            assert(s@.take(8) =~= s@.take(8));
        }
        Ok(WNKey { num, pos })
    }

    /// Writes the canonical ten-character form.
    pub fn to_string(&self) -> (r: String)
        requires
            self.wf(),
        ensures
            r@ == self.key_str(),
            valid_key_chars(r@),
    {
        let mut r = digits_string(self.num, 8);
        r.append(pos_str_dash(self.pos));
        proof {
            assert(r@ =~= self.key_str());
            lemma_key_str_valid(*self);
        }
        r
    }

    /// Strict codec order: by offset, then by letter.
    pub fn lt(&self, other: &WNKey) -> (r: bool)
        ensures
            r == self.spec_lt(*other),
    {
        self.num < other.num || (self.num == other.num && self.pos < other.pos)
    }

    /// Key equality.
    pub fn key_eq(&self, other: &WNKey) -> (r: bool)
        ensures
            r == (*self == *other),
    {
        self.num == other.num && self.pos == other.pos
    }
}

/// A dash followed by a part-of-speech letter.
fn pos_str_dash(c: char) -> (r: &'static str)
    requires
        is_pos_letter(c),
    ensures
        r@ == seq!['-', c],
{
    proof {
        reveal_strlit("-n");
        reveal_strlit("-v");
        reveal_strlit("-a");
        reveal_strlit("-r");
        reveal_strlit("-s");
        reveal_strlit("-p");
        reveal_strlit("-x");
    }
    let r = if c == 'n' {
        "-n"
    } else if c == 'v' {
        "-v"
    } else if c == 'a' {
        "-a"
    } else if c == 'r' {
        "-r"
    } else if c == 's' {
        "-s"
    } else if c == 'p' {
        "-p"
    } else {
        "-x"
    };
    proof {
        assert(r@ =~= seq!['-', c]);
    }
    r
}

pub proof fn lemma_pow10_mono(a: nat, b: nat)
    requires
        a <= b,
    ensures
        pow10(a) <= pow10(b),
    decreases b,
{
    if a < b {
        lemma_pow10_mono(a, (b - 1) as nat);
        lemma_pow10_pos((b - 1) as nat);
    }
}

/// Codec order is total: exactly one of `a < b`, `b < a` and `a == b`.
pub proof fn lemma_key_order_total(a: WNKey, b: WNKey)
    ensures
        a.spec_lt(b) || b.spec_lt(a) || a == b,
        a.spec_lt(b) ==> !b.spec_lt(a) && a != b,
{
}

/// A shared prefix does not decide a lexicographic comparison.
proof fn lemma_lex_common_prefix(p: Seq<char>, s: Seq<char>, t: Seq<char>)
    ensures
        crate::text::lex_lt(p + s, p + t) == crate::text::lex_lt(s, t),
    decreases p.len(),
{
    if p.len() == 0 {
        assert(p + s =~= s);
        assert(p + t =~= t);
    } else {
        lemma_lex_common_prefix(p.drop_first(), s, t);
        assert((p + s)[0] == p[0] && (p + t)[0] == p[0]);
        assert((p + s).drop_first() =~= p.drop_first() + s);
        assert((p + t).drop_first() =~= p.drop_first() + t);
        assert((p + s).len() > 0 && (p + t).len() > 0);
    }
}

/// Two different strings of one length decide a comparison before anything
/// appended after them.
proof fn lemma_lex_differing_heads(a: Seq<char>, b: Seq<char>, s: Seq<char>, t: Seq<char>)
    requires
        a.len() == b.len(),
        a != b,
    ensures
        crate::text::lex_lt(a + s, b + t) == crate::text::lex_lt(a, b),
    decreases a.len(),
{
    if a.len() == 0 {
        assert(a =~= b);
    } else if a[0] == b[0] {
        assert(a.drop_first().len() == b.drop_first().len());
        if a.drop_first() == b.drop_first() {
            assert forall|i: int| 0 <= i < a.len() implies a[i] == b[i] by {
                if i >= 1 {
                    assert(a[i] == a.drop_first()[i - 1]);
                    assert(b[i] == b.drop_first()[i - 1]);
                }
            }
            assert(a =~= b);
        }
        lemma_lex_differing_heads(a.drop_first(), b.drop_first(), s, t);
        assert((a + s)[0] == a[0] && (b + t)[0] == b[0]);
        assert((a + s).drop_first() =~= a.drop_first() + s);
        assert((b + t).drop_first() =~= b.drop_first() + t);
        assert((a + s).len() > 0 && (b + t).len() > 0);
    } else {
        assert((a + s)[0] == a[0] && (b + t)[0] == b[0]);
        assert((a + s).len() > 0 && (b + t).len() > 0);
    }
}

/// With equal lengths, a lexicographic comparison is decided by the front
/// strings first and the pushed characters last.
proof fn lemma_lex_push(a: Seq<char>, b: Seq<char>, x: char, y: char)
    requires
        a.len() == b.len(),
    ensures
        crate::text::lex_lt(a.push(x), b.push(y)) == (crate::text::lex_lt(a, b) || (a == b && x
            < y)),
{
    if a == b {
        crate::text::lemma_lex_trichotomy(a, b);
        assert(a.push(x) =~= a + seq![x]);
        assert(b.push(y) =~= b + seq![y]);
        lemma_lex_common_prefix(a, seq![x], seq![y]);
        let e = Seq::<char>::empty();
        assert(seq![x].drop_first() =~= e);
        assert(seq![y].drop_first() =~= e);
        assert(!crate::text::lex_lt(e, e));
        assert(crate::text::lex_lt(seq![x], seq![y]) == (x < y));
    } else {
        assert(a.push(x) =~= a + seq![x]);
        assert(b.push(y) =~= b + seq![y]);
        lemma_lex_differing_heads(a, b, seq![x], seq![y]);
    }
}

/// On equal-width digit strings, lexicographic order is numeric order.
proof fn lemma_digits_order(m: int, n: int, w: nat)
    requires
        0 <= m < pow10(w),
        0 <= n < pow10(w),
    ensures
        crate::text::lex_lt(digits_of(m, w), digits_of(n, w)) == (m < n),
        (digits_of(m, w) == digits_of(n, w)) == (m == n),
    decreases w,
{
    lemma_digits_of_val(m, w);
    lemma_digits_of_val(n, w);
    if w == 0 {
        assert(digits_of(m, w) =~= digits_of(n, w));
    } else {
        assert(pow10((w - 1) as nat) > 0) by {
            lemma_pow10_pos((w - 1) as nat);
        }
        assert(m / 10 < pow10((w - 1) as nat) && m / 10 >= 0) by (nonlinear_arith)
            requires
                0 <= m < 10 * pow10((w - 1) as nat),
                pow10((w - 1) as nat) > 0,
        {
        }
        assert(n / 10 < pow10((w - 1) as nat) && n / 10 >= 0) by (nonlinear_arith)
            requires
                0 <= n < 10 * pow10((w - 1) as nat),
                pow10((w - 1) as nat) > 0,
        {
        }
        lemma_digits_order(m / 10, n / 10, (w - 1) as nat);
        lemma_digits_of_val(m / 10, (w - 1) as nat);
        lemma_digits_of_val(n / 10, (w - 1) as nat);
        lemma_lex_push(
            digits_of(m / 10, (w - 1) as nat),
            digits_of(n / 10, (w - 1) as nat),
            digit_char(m % 10),
            digit_char(n % 10),
        );
        assert((digit_char(m % 10) < digit_char(n % 10)) == (m % 10 < n % 10));
        assert((digit_char(m % 10) == digit_char(n % 10)) == (m % 10 == n % 10));
        assert((m < n) == (m / 10 < n / 10 || (m / 10 == n / 10 && m % 10 < n % 10)))
            by (nonlinear_arith)
            requires
                m >= 0,
                n >= 0,
        {
        }
        if digits_of(m, w) == digits_of(n, w) {
            assert(digits_val(digits_of(m, w)) == digits_val(digits_of(n, w)));
        }
        if m == n {
            assert(digits_of(m, w) =~= digits_of(n, w));
        }
    }
}

/// Law: the canonical strings of two well-formed keys compare exactly as the
/// packed keys do — numerically by offset, then by part-of-speech letter —
/// so string range scans and packed-key range scans agree.
pub proof fn lemma_key_order_is_string_order(a: WNKey, b: WNKey)
    requires
        a.wf(),
        b.wf(),
    ensures
        crate::text::lex_lt(a.key_str(), b.key_str()) == a.spec_lt(b),
{
    lemma_pow10_8();
    lemma_digits_order(a.num as int, b.num as int, 8);
    let da = digits_of(a.num as int, 8);
    let db = digits_of(b.num as int, 8);
    if a.num == b.num {
        assert(da == db);
        lemma_lex_common_prefix(da, seq!['-', a.pos], seq!['-', b.pos]);
        let s = seq!['-', a.pos];
        let t = seq!['-', b.pos];
        assert(s[0] == t[0]);
        assert(s.drop_first() =~= seq![a.pos]);
        assert(t.drop_first() =~= seq![b.pos]);
        let e = Seq::<char>::empty();
        assert(seq![a.pos].drop_first() =~= e);
        assert(seq![b.pos].drop_first() =~= e);
        assert(!crate::text::lex_lt(e, e));
        assert(crate::text::lex_lt(seq![a.pos], seq![b.pos]) == (a.pos < b.pos));
        assert(crate::text::lex_lt(s, t) == (a.pos < b.pos));
    } else {
        lemma_digits_of_val(a.num as int, 8);
        lemma_digits_of_val(b.num as int, 8);
        lemma_lex_differing_heads(da, db, seq!['-', a.pos], seq!['-', b.pos]);
    }
}

} // verus!
