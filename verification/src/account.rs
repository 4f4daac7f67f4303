//! Canonical account identifiers and their byte-value order.

use vstd::prelude::*;
use vstd::string::StrSliceExecFns;

use crate::errors::RewardError;

verus! {

/// Width in bytes of a canonical account identifier.
pub const ACCOUNT_BYTES: usize = 20;

/// An account identifier in canonical form: a fixed-width byte string.
///
/// Equality, hashing and ordering go by these bytes, never by a display
/// string, so differently-cased spellings of one address denote one
/// account.
pub struct Account {
    bytes: Vec<u8>,
}

impl View for Account {
    type V = Seq<u8>;

    closed spec fn view(&self) -> Seq<u8> {
        self.bytes@
    }
}

/// Strict lexicographic order on byte strings: the order in which a
/// distribution table lists its accounts.
pub open spec fn bytes_lt(a: Seq<u8>, b: Seq<u8>) -> bool
    decreases a.len(),
{
    if b.len() == 0 {
        false
    } else if a.len() == 0 {
        true
    } else if a[0] != b[0] {
        a[0] < b[0]
    } else {
        bytes_lt(a.drop_first(), b.drop_first())
    }
}

/// `bytes_lt` is a strict total order: it is asymmetric, and two byte
/// strings that neither precede the other are equal.
pub proof fn lemma_bytes_order_total(a: Seq<u8>, b: Seq<u8>)
    ensures
        bytes_lt(a, b) ==> !bytes_lt(b, a),
        !bytes_lt(a, b) && !bytes_lt(b, a) ==> a == b,
    decreases a.len(),
{
    if a.len() > 0 && b.len() > 0 {
        lemma_bytes_order_total(a.drop_first(), b.drop_first());
        if !bytes_lt(a, b) && !bytes_lt(b, a) {
            assert(a[0] == b[0]);
            assert(a.drop_first() == b.drop_first());
            assert forall|i: int| 0 <= i < a.len() implies a[i] == b[i] by {
                if i > 0 {
                    assert(a.drop_first()[i - 1] == a[i]);
                    assert(b.drop_first()[i - 1] == b[i]);
                }
            }
            assert(a =~= b);
        }
    } else {
        if !bytes_lt(a, b) && !bytes_lt(b, a) {
            assert(a =~= b);
        }
    }
}

/// `bytes_lt` is transitive.
pub proof fn lemma_bytes_lt_trans(a: Seq<u8>, b: Seq<u8>, c: Seq<u8>)
    requires
        bytes_lt(a, b),
        bytes_lt(b, c),
    ensures
        bytes_lt(a, c),
    decreases a.len(),
{
    if a.len() > 0 {
        if a[0] == b[0] && b[0] == c[0] {
            lemma_bytes_lt_trans(a.drop_first(), b.drop_first(), c.drop_first());
        }
    }
}

/// Where two equally long byte strings first differ decides their order.
pub proof fn lemma_bytes_lt_at(a: Seq<u8>, b: Seq<u8>, i: int)
    requires
        a.len() == b.len(),
        0 <= i < a.len(),
        forall|j: int| 0 <= j < i ==> a[j] == b[j],
        a[i] != b[i],
    ensures
        bytes_lt(a, b) == (a[i] < b[i]),
    decreases i,
{
    if i == 0 {
    } else {
        assert(a[0] == b[0]);
        assert(a.drop_first()[i - 1] == a[i]);
        lemma_bytes_lt_at(a.drop_first(), b.drop_first(), i - 1);
    }
}

/// The numeric value of one hexadecimal digit, in either case.
pub open spec fn hex_val(c: char) -> Option<u8> {
    let n = c as int;
    if '0' as int <= n && n <= '9' as int {
        Some((n - '0' as int) as u8)
    } else if 'a' as int <= n && n <= 'f' as int {
        Some((n - 'a' as int + 10) as u8)
    } else if 'A' as int <= n && n <= 'F' as int {
        Some((n - 'A' as int + 10) as u8)
    } else {
        None
    }
}

/// Whether `c` is a digit of the canonical spelling: a decimal digit or
/// a lowercase hexadecimal letter.
pub open spec fn is_lower_hex_digit(c: char) -> bool {
    ('0' as int <= c as int && c as int <= '9' as int) || ('a' as int <= c as int && c as int
        <= 'f' as int)
}

/// The digit's value, defaulting to zero where it is no digit.
pub open spec fn hex_val_or_zero(c: char) -> u8 {
    match hex_val(c) {
        Some(v) => v,
        None => 0,
    }
}

/// The byte spelt by two hexadecimal digits.
pub open spec fn byte_of_digit_pair(hi: char, lo: char) -> u8 {
    (16 * hex_val_or_zero(hi) + hex_val_or_zero(lo)) as u8
}

/// The digits of an account spelling, once an optional `0x` prefix is
/// taken off.
pub open spec fn account_digits(s: Seq<char>) -> Seq<char> {
    if s.len() == 2 + 2 * ACCOUNT_BYTES && s[0] == '0' && (s[1] == 'x' || s[1] == 'X') {
        s.skip(2)
    } else {
        s
    }
}

/// What an account spelling denotes: `None` where it is malformed, else
/// the canonical bytes. A spelling is the canonical width of hexadecimal
/// digit pairs, in either letter case, with or without a `0x` prefix.
pub open spec fn spec_parse_account(s: Seq<char>) -> Option<Seq<u8>> {
    let d = account_digits(s);
    if d.len() == 2 * ACCOUNT_BYTES && (forall|i: int|
        0 <= i < d.len() ==> hex_val(#[trigger] d[i]) is Some) {
        Some(Seq::new(ACCOUNT_BYTES as nat, |i: int| byte_of_digit_pair(d[2 * i], d[2 * i + 1])))
    } else {
        None
    }
}

/// The value of one hexadecimal digit character, or `None`.
fn hex_digit(c: char) -> (r: Option<u8>)
    ensures
        r == hex_val(c),
        r matches Some(v) ==> v < 16,
{
    let n = c as u32;
    if '0' <= c && c <= '9' {
        Some((n - 48) as u8)
    } else if 'a' <= c && c <= 'f' {
        Some((n - 97 + 10) as u8)
    } else if 'A' <= c && c <= 'F' {
        Some((n - 65 + 10) as u8)
    } else {
        None
    }
}

/// The lowercase spelling of one hexadecimal digit.
pub(crate) fn hex_digit_str(d: u8) -> (r: &'static str)
    requires
        d < 16,
    ensures
        r@.len() == 1,
        hex_val(r@[0]) == Some(d),
        is_lower_hex_digit(r@[0]),
{
    let r: &'static str = match d {
        0 => "0",
        1 => "1",
        2 => "2",
        3 => "3",
        4 => "4",
        5 => "5",
        6 => "6",
        7 => "7",
        8 => "8",
        9 => "9",
        10 => "a",
        11 => "b",
        12 => "c",
        13 => "d",
        14 => "e",
        _ => "f",
    };
    proof {
        reveal_strlit("0");
        reveal_strlit("1");
        reveal_strlit("2");
        reveal_strlit("3");
        reveal_strlit("4");
        reveal_strlit("5");
        reveal_strlit("6");
        reveal_strlit("7");
        reveal_strlit("8");
        reveal_strlit("9");
        reveal_strlit("a");
        reveal_strlit("b");
        reveal_strlit("c");
        reveal_strlit("d");
        reveal_strlit("e");
        reveal_strlit("f");
    }
    r
}

impl Account {
    /// A well-formed account holds exactly the canonical width of bytes.
    pub open spec fn wf(&self) -> bool {
        self@.len() == ACCOUNT_BYTES
    }

    /// Wraps a canonical byte string as an account.
    pub fn from_bytes(bytes: Vec<u8>) -> (r: Account)
        requires
            bytes@.len() == ACCOUNT_BYTES,
        ensures
            r@ == bytes@,
            r.wf(),
    {
        Account { bytes }
    }

    /// The byte at one position of the canonical form.
    pub fn byte_at(&self, i: usize) -> (r: u8)
        requires
            i < self@.len(),
        ensures
            r == self@[i as int],
    {
        self.bytes[i]
    }

    /// The canonical byte string, for callers that serialize it.
    pub fn as_bytes(&self) -> (r: &Vec<u8>)
        ensures
            r@ == self@,
    {
        &self.bytes
    }

    /// Whether this account's canonical bytes precede another's.
    pub fn lt(&self, other: &Account) -> (r: bool)
        requires
            self.wf(),
            other.wf(),
        ensures
            r == bytes_lt(self@, other@),
    {
        let mut i: usize = 0;
        while i < ACCOUNT_BYTES
            invariant
                self.wf(),
                other.wf(),
                i <= ACCOUNT_BYTES,
                forall|j: int| 0 <= j < i ==> self@[j] == other@[j],
            decreases ACCOUNT_BYTES - i,
        {
            let a = self.bytes[i];
            let b = other.bytes[i];
            if a < b {
                proof {
                    lemma_bytes_lt_at(self@, other@, i as int);
                }
                return true;
            }
            if a > b {
                proof {
                    lemma_bytes_lt_at(self@, other@, i as int);
                }
                return false;
            }
            i += 1;
        }
        proof {
            assert(self@ =~= other@);
            lemma_bytes_order_total(self@, other@);
        }
        false
    }

    /// Parses an account spelling into canonical form; a malformed
    /// spelling fails with `RewardError::InvalidAccount`, exactly when
    /// `spec_parse_account` denotes nothing.
    pub fn parse(s: &str) -> (r: Result<Account, RewardError>)
        ensures
            r matches Ok(a) ==> spec_parse_account(s@) == Some(a@) && a.wf(),
            r is Err <==> spec_parse_account(s@) is None,
            r matches Err(e) ==> e is InvalidAccount,
    {
        let n = s.unicode_len();
        let offset: usize;
        if n == 2 + 2 * ACCOUNT_BYTES {
            let c0 = s.get_char(0);
            let c1 = s.get_char(1);
            if c0 == '0' && (c1 == 'x' || c1 == 'X') {
                offset = 2;
            } else {
                return Err(RewardError::InvalidAccount);
            }
        } else if n == 2 * ACCOUNT_BYTES {
            offset = 0;
        } else {
            return Err(RewardError::InvalidAccount);
        }
        let ghost d = account_digits(s@);
        proof {
            assert(d.len() == 2 * ACCOUNT_BYTES);
            assert(forall|k: int| 0 <= k < d.len() ==> d[k] == s@[offset + k]);
        }
        let mut bytes: Vec<u8> = Vec::new();
        let mut i: usize = 0;
        while i < ACCOUNT_BYTES
            invariant
                i <= ACCOUNT_BYTES,
                bytes@.len() == i,
                offset == 0 || offset == 2,
                offset + 2 * ACCOUNT_BYTES == s@.len(),
                d == account_digits(s@),
                d.len() == 2 * ACCOUNT_BYTES,
                forall|k: int| 0 <= k < d.len() ==> d[k] == s@[offset + k],
                forall|k: int| 0 <= k < 2 * i ==> hex_val(#[trigger] d[k]) is Some,
                forall|j: int|
                    0 <= j < i ==> bytes@[j] == byte_of_digit_pair(d[2 * j], d[2 * j + 1]),
            decreases ACCOUNT_BYTES - i,
        {
            let hi = match hex_digit(s.get_char(offset + 2 * i)) {
                Some(v) => v,
                None => {
                    proof {
                        assert(d[2 * i as int] == s@[offset + 2 * i]);
                        assert(hex_val(d[2 * i as int]) is None);
                    }
                    return Err(RewardError::InvalidAccount);
                },
            };
            let lo = match hex_digit(s.get_char(offset + 2 * i + 1)) {
                Some(v) => v,
                None => {
                    proof {
                        assert(d[2 * i as int + 1] == s@[offset + 2 * i + 1]);
                        assert(hex_val(d[2 * i as int + 1]) is None);
                    }
                    return Err(RewardError::InvalidAccount);
                },
            };
            bytes.push(16 * hi + lo);
            i += 1;
        }
        proof {
            let parsed = spec_parse_account(s@);
            assert(parsed matches Some(v) && v =~= bytes@);
        }
        Ok(Account::from_bytes(bytes))
    }

    /// The canonical lowercase `0x` spelling of the account.
    pub fn to_hex_string(&self) -> (r: String)
        requires
            self.wf(),
        ensures
            r@.len() == 2 + 2 * ACCOUNT_BYTES,
            r@[0] == '0' && r@[1] == 'x',
            forall|i: int| 2 <= i < r@.len() ==> is_lower_hex_digit(#[trigger] r@[i]),
            spec_parse_account(r@) == Some(self@),
    {
        let mut r = String::from_str("0x");
        proof {
            reveal_strlit("0x");
        }
        let mut i: usize = 0;
        while i < ACCOUNT_BYTES
            invariant
                self.wf(),
                i <= ACCOUNT_BYTES,
                r@.len() == 2 + 2 * i,
                r@[0] == '0' && r@[1] == 'x',
                forall|j: int|
                    0 <= j < 2 * i ==> hex_val(#[trigger] r@[2 + j]) == Some(
                        byte_nibble(self@, j),
                    ),
                forall|j: int| 0 <= j < 2 * i ==> is_lower_hex_digit(#[trigger] r@[2 + j]),
            decreases ACCOUNT_BYTES - i,
        {
            let b = self.byte_at(i);
            r.append(hex_digit_str(b / 16));
            r.append(hex_digit_str(b % 16));
            i += 1;
        }
        proof {
            assert forall|i: int| 2 <= i < r@.len() implies is_lower_hex_digit(
                #[trigger] r@[i],
            ) by {
                let j = i - 2;
                assert(is_lower_hex_digit(r@[2 + j]));
            }
            let d = account_digits(r@);
            assert(d =~= r@.skip(2));
            assert forall|k: int| 0 <= k < d.len() implies hex_val(#[trigger] d[k]) is Some by {
                assert(d[k] == r@[2 + k]);
            }
            let parsed = spec_parse_account(r@);
            assert forall|j: int| 0 <= j < ACCOUNT_BYTES implies parsed->Some_0[j] == self@[j] by {
                assert(d[2 * j] == r@[2 + 2 * j]);
                assert(d[2 * j + 1] == r@[2 + 2 * j + 1]);
                assert((2 * j + 1) % 2 == 1 && (2 * j + 1) / 2 == j && (2 * j) % 2 == 0 && (2 * j)
                    / 2 == j);
                let k = 2 * j + 1;
                assert(hex_val(r@[2 + k]) == Some(byte_nibble(self@, k)));
                assert(hex_val(d[2 * j]) == Some(byte_nibble(self@, 2 * j)));
                assert(hex_val(d[2 * j + 1]) == Some(byte_nibble(self@, 2 * j + 1)));
            }
            assert(parsed->Some_0 =~= self@);
        }
        r
    }
}

/// The high or low nibble that position `j` of a hex spelling shows.
pub open spec fn byte_nibble(bytes: Seq<u8>, j: int) -> u8 {
    if j % 2 == 0 {
        bytes[j / 2] / 16
    } else {
        bytes[j / 2] % 16
    }
}

impl Clone for Account {
    /// Cloning keeps the canonical bytes.
    fn clone(&self) -> (r: Self)
        ensures
            r@ == self@,
    {
        let bytes = self.bytes.clone();
        proof {
            assert(bytes@ =~= self.bytes@);
        }
        Account { bytes }
    }
}

impl PartialEq for Account {
    /// Accounts are equal exactly when their canonical bytes are.
    fn eq(&self, other: &Account) -> (r: bool) {
        let r = self.bytes == other.bytes;
        proof {
            if self.bytes@ =~= other.bytes@ {
                assert(self.bytes@ == other.bytes@);
            }
        }
        r
    }
}

impl Eq for Account {}

impl vstd::std_specs::cmp::PartialEqSpecImpl for Account {
    open spec fn obeys_eq_spec() -> bool {
        true
    }

    open spec fn eq_spec(&self, other: &Account) -> bool {
        self@ == other@
    }
}

} // verus!
