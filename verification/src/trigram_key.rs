//! The key under which a trigram is stored: up to twelve bytes of UTF-8 and
//! their count, handled as one 128-bit word.

use vstd::prelude::*;
use vstd::string::StringSliceAdditionalSpecFns;

verus! {

#[derive(Clone, Copy, PartialEq, Eq, PartialOrd, Ord, Hash, Debug)]
pub struct TrigramKey {
    pub bytes: [u8; 12],
    pub len: u8,
}

/// 256 to the power `k`.
pub open spec fn radix(k: nat) -> int
    decreases k,
{
    if k == 0 {
        1
    } else {
        256 * radix((k - 1) as nat)
    }
}

/// The bytes from position `i` on as a number in base 256, the byte at `i`
/// lowest.
pub open spec fn digits_from(bytes: Seq<u8>, i: int) -> int
    decreases bytes.len() - i,
{
    if i < 0 || i >= bytes.len() {
        0
    } else {
        bytes[i] + 256 * digits_from(bytes, i + 1)
    }
}

/// The 128-bit word of a token of at most twelve bytes: its bytes in the low
/// twelve places, its length in the place above them.
pub open spec fn pack(bytes: Seq<u8>) -> int {
    digits_from(bytes, 0) + bytes.len() * radix(12)
}

pub proof fn lemma_digits_bound(bytes: Seq<u8>, i: int)
    requires
        0 <= i <= bytes.len(),
    ensures
        0 <= digits_from(bytes, i) < radix((bytes.len() - i) as nat),
    decreases bytes.len() - i,
{
    if i < bytes.len() {
        lemma_digits_bound(bytes, i + 1);
    }
}

pub proof fn lemma_radix_grows(a: nat, b: nat)
    requires
        a <= b,
    ensures
        0 < radix(a) <= radix(b),
    decreases b,
{
    if a < b {
        lemma_radix_grows(a, (b - 1) as nat);
    } else if a > 0 {
        lemma_radix_grows((a - 1) as nat, (a - 1) as nat);
    }
}

/// Bytes that give the same number from place `i` on are the same from
/// there on.
pub proof fn lemma_digits_differ(a: Seq<u8>, b: Seq<u8>, i: int)
    requires
        a.len() == b.len(),
        0 <= i <= a.len(),
        digits_from(a, i) == digits_from(b, i),
    ensures
        forall|j: int| i <= j < a.len() ==> a[j] == b[j],
    decreases a.len() - i,
{
    if i < a.len() {
        let x = digits_from(a, i + 1);
        let y = digits_from(b, i + 1);
        assert(a[i] == b[i] && x == y) by (nonlinear_arith)
            requires
                a[i] + 256 * x == b[i] + 256 * y,
                0 <= a[i] < 256,
                0 <= b[i] < 256,
        ;
        lemma_digits_differ(a, b, i + 1);
    }
}

/// Tokens of at most twelve bytes with the same word are the same token.
pub proof fn lemma_pack_differs(a: Seq<u8>, b: Seq<u8>)
    requires
        a.len() <= 12,
        b.len() <= 12,
        pack(a) as u128 == pack(b) as u128,
    ensures
        a == b,
{
    lemma_pack_bound(a);
    lemma_pack_bound(b);
    lemma_digits_bound(a, 0);
    lemma_digits_bound(b, 0);
    lemma_radix_grows(a.len(), 12);
    lemma_radix_grows(b.len(), 12);
    let r = radix(12);
    let x = digits_from(a, 0);
    let y = digits_from(b, 0);
    assert(a.len() == b.len() && x == y) by (nonlinear_arith)
        requires
            x + a.len() * r == y + b.len() * r,
            0 <= x < r,
            0 <= y < r,
    ;
    lemma_digits_differ(a, b, 0);
    assert(a =~= b);
}

pub proof fn lemma_pack_bound(bytes: Seq<u8>)
    requires
        bytes.len() <= 12,
    ensures
        0 <= pack(bytes) < 13 * radix(12),
        13 * radix(12) < u128::MAX,
{
    lemma_digits_bound(bytes, 0);
    lemma_radix_grows(bytes.len(), 12);
    reveal_with_fuel(radix, 13);
    assert(bytes.len() * radix(12) <= 12 * radix(12)) by (nonlinear_arith)
        requires
            bytes.len() <= 12,
            radix(12) > 0,
    ;
}

impl TrigramKey {
    /// The key holds at most twelve bytes, and zeros behind them.
    pub open spec fn wf(&self) -> bool {
        &&& self.len <= 12
        &&& forall|i: int| self.len <= i < 12 ==> self.bytes@[i] == 0
    }

    /// The 128-bit word that stands for the key.
    pub open spec fn word(&self) -> u128 {
        pack(self@) as u128
    }

    /// The key of a token of at most twelve bytes.
    pub fn from_bytes(token: &[u8]) -> (key: Self)
        requires
            token@.len() <= 12,
        ensures
            key.wf(),
            key@ == token@,
    {
        let mut bytes: [u8; 12] = [0u8; 12];
        let mut i: usize = 0;
        while i < token.len()
            invariant
                i <= token@.len() <= 12,
                forall|j: int| 0 <= j < i ==> bytes@[j] == token@[j],
                forall|j: int| i <= j < 12 ==> bytes@[j] == 0,
            decreases token@.len() - i,
        {
            bytes[i] = token[i];
            i += 1;
        }
        let key = Self { bytes, len: token.len() as u8 };
        proof {
            assert(key@ =~= token@);
        }
        key
    }

    /// The key of a token: its UTF-8 bytes.
    pub fn from_utf8(s: &str) -> (key: Self)
        requires
            s.spec_bytes().len() <= 12,
        ensures
            key.wf(),
            key@ == s.spec_bytes(),
    {
        Self::from_bytes(s.as_bytes())
    }

    /// The key as one 128-bit word.
    pub fn as_u128(&self) -> (word: u128)
        requires
            self.wf(),
        ensures
            word == self.word(),
            word == pack(self@),
    {
        let len = self.len as usize;
        let mut acc: u128 = 0;
        let mut i: usize = len;
        proof {
            lemma_pack_bound(self@);
            reveal_with_fuel(radix, 13);
        }
        while i > 0
            invariant
                i <= len <= 12,
                len == self.len,
                acc == digits_from(self@, i as int),
                acc < radix((len - i) as nat),
            decreases i,
        {
            proof {
                lemma_radix_grows((len - i) as nat, 11);
                reveal_with_fuel(radix, 13);
            }
            i -= 1;
            acc = acc * 256 + self.bytes[i] as u128;
        }
        proof {
            reveal_with_fuel(radix, 13);
        }
        acc + (len as u128) * 0x1_0000_0000_0000_0000_0000_0000u128
    }

    /// The bytes of the token.
    pub fn to_bytes(&self) -> (token: Vec<u8>)
        requires
            self.wf(),
        ensures
            token@ == self@,
    {
        let mut token: Vec<u8> = Vec::new();
        let mut i: usize = 0;
        while i < self.len as usize
            invariant
                i <= self.len <= 12,
                token@ == self.bytes@.subrange(0, i as int),
            decreases self.len - i,
        {
            token.push(self.bytes[i]);
            proof {
                assert(token@ =~= self.bytes@.subrange(0, i + 1));
            }
            i += 1;
        }
        token
    }
}

impl View for TrigramKey {
    type V = Seq<u8>;

    /// The bytes of the token.
    open spec fn view(&self) -> Seq<u8> {
        self.bytes@.subrange(0, self.len as int)
    }
}

} // verus!
