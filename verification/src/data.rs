use vstd::prelude::*;
use rand::Rng;
use rand::seq::IndexedRandom;

use crate::consts::{MAX_RECORD_LENGTH, PADDING_CHAR};

verus! {

/// The data of one record: exactly `MAX_RECORD_LENGTH` bytes, the letters
/// followed by padding.
#[derive(Debug, PartialEq, Eq)]
pub struct Data {
    letters: Vec<u8>,
}

/// Why bytes could not be taken as the data of a record.
#[derive(Debug, Clone, Copy, PartialEq, Eq, Structural)]
pub enum DataError {
    /// The first byte is padding: an empty letters field is not allowed.
    EmptyLetters,
}

/// `s` cut or padded with `PADDING_CHAR` to exactly `MAX_RECORD_LENGTH` bytes.
pub open spec fn spec_padded(s: Seq<u8>) -> Seq<u8> {
    if s.len() >= MAX_RECORD_LENGTH {
        s.subrange(0, MAX_RECORD_LENGTH as int)
    } else {
        s + Seq::new((MAX_RECORD_LENGTH - s.len()) as nat, |i: int| PADDING_CHAR)
    }
}

/// The letters that random data is made of: lower and upper case ASCII
/// letters, the space and the decimal digits.
pub open spec fn is_allowed_letter(c: u8) -> bool {
    (97 <= c <= 122) || (65 <= c <= 90) || c == 32 || (48 <= c <= 57)
}

/// Letters of random data as shown: between 1 and `MAX_RECORD_LENGTH - 1`
/// allowed letters.
pub open spec fn spec_random_letters(d: Seq<u8>) -> bool {
    &&& 1 <= d.len() < MAX_RECORD_LENGTH
    &&& forall|i: int| 0 <= i < d.len() ==> is_allowed_letter(#[trigger] d[i])
}

/// `s` with its trailing padding bytes removed.
pub open spec fn spec_trim_padding(s: Seq<u8>) -> Seq<u8>
    decreases s.len(),
{
    if s.len() > 0 && s.last() == PADDING_CHAR {
        spec_trim_padding(s.drop_last())
    } else {
        s
    }
}

impl View for Data {
    type V = Seq<u8>;

    closed spec fn view(&self) -> Seq<u8> {
        self.letters@
    }
}

/// Picks one element of `items` uniformly at random (`IndexedRandom::choose`
/// on the thread-local generator). Claimed: the element is one of `items`.
#[verifier::external_body]
pub(crate) fn choose_from<T: Copy>(items: &[T]) -> (r: T)
    requires
        items@.len() > 0,
    ensures
        items@.contains(r),
{
    *items.choose(&mut rand::rng()).unwrap()
}

/// A random number in `low..high` (`Rng::random_range` on the thread-local
/// generator). Claimed: `low <= r < high`.
#[verifier::external_body]
pub(crate) fn random_range_usize(low: usize, high: usize) -> (r: usize)
    requires
        low < high,
    ensures
        low <= r < high,
{
    rand::rng().random_range(low..high)
}

/// The bytes random data is drawn from, in the order
/// `a..z`, `A..Z`, space, `1..9`, `0`.
fn allowed_data() -> (v: Vec<u8>)
    ensures
        v@.len() == 63,
        forall|i: int| 0 <= i < v@.len() ==> is_allowed_letter(#[trigger] v@[i]),
{
    let mut v: Vec<u8> = Vec::new();
    let mut c: u8 = 97;
    while c <= 122
        invariant
            97 <= c <= 123,
            v@.len() == c - 97,
            forall|i: int| 0 <= i < v@.len() ==> is_allowed_letter(#[trigger] v@[i]),
        decreases 123 - c,
    {
        v.push(c);
        c = c + 1;
    }
    let mut c: u8 = 65;
    while c <= 90
        invariant
            65 <= c <= 91,
            v@.len() == 26 + c - 65,
            forall|i: int| 0 <= i < v@.len() ==> is_allowed_letter(#[trigger] v@[i]),
        decreases 91 - c,
    {
        v.push(c);
        c = c + 1;
    }
    v.push(32);
    let mut c: u8 = 49;
    while c <= 57
        invariant
            49 <= c <= 58,
            v@.len() == 53 + c - 49,
            forall|i: int| 0 <= i < v@.len() ==> is_allowed_letter(#[trigger] v@[i]),
        decreases 58 - c,
    {
        v.push(c);
        c = c + 1;
    }
    v.push(48);
    v
}

impl Clone for Data {
    fn clone(&self) -> (d: Self)
        ensures
            d@ == self@,
    {
        Data { letters: self.to_bytes() }
    }
}

impl Data {
    #[verifier::type_invariant]
    spec fn letters_fit(&self) -> bool {
        self.letters@.len() == MAX_RECORD_LENGTH
    }

    /// One random letter out of the allowed ones.
    pub fn get_random_letter() -> (c: u8)
        ensures
            is_allowed_letter(c),
    {
        let allowed = allowed_data();
        let c = choose_from(allowed.as_slice());
        c
    }

    /// Data made of the given bytes (none: empty), cut or padded to
    /// `MAX_RECORD_LENGTH`.
    pub fn new(data: Option<Vec<u8>>) -> (d: Self)
        ensures
            d@ == spec_padded(
                match data {
                    Some(v) => v@,
                    None => Seq::<u8>::empty(),
                },
            ),
    {
        let mut letters = match data {
            Some(v) => v,
            None => Vec::with_capacity(MAX_RECORD_LENGTH),
        };
        let ghost before = letters@;
        letters.resize(MAX_RECORD_LENGTH, PADDING_CHAR);
        assert(letters@ =~= spec_padded(before));
        Self { letters }
    }

    /// Data taken from bytes; refused when the first byte is padding.
    pub fn try_from(value: &[u8]) -> (r: Result<Self, DataError>)
        requires
            value@.len() > 0,
        ensures
            value@[0] == PADDING_CHAR <==> r is Err,
            r matches Ok(d) ==> d@ == spec_padded(value@),
    {
        if value[0] == PADDING_CHAR {
            return Err(DataError::EmptyLetters);
        }
        let v = vstd::slice::slice_to_vec(value);
        Ok(Self::new(Some(v)))
    }

    /// The bytes of the data slot: letters and padding.
    pub fn to_bytes(&self) -> (b: Vec<u8>)
        ensures
            b@ == self@,
            b@.len() == MAX_RECORD_LENGTH,
    {
        proof {
            use_type_invariant(self);
        }
        let mut b: Vec<u8> = Vec::with_capacity(MAX_RECORD_LENGTH);
        let mut i: usize = 0;
        while i < self.letters.len()
            invariant
                i <= self.letters@.len(),
                b@ == self.letters@.subrange(0, i as int),
            decreases self.letters@.len() - i,
        {
            b.push(self.letters[i]);
            i = i + 1;
        }
        assert(b@ =~= self.letters@);
        b
    }

    /// The letters without the trailing padding, as the data is shown.
    pub fn trimmed_letters(&self) -> (b: Vec<u8>)
        ensures
            b@ == spec_trim_padding(self@),
    {
        let mut n: usize = self.letters.len();
        assert(self.letters@.subrange(0, n as int) =~= self.letters@);
        while n > 0 && self.letters[n - 1] == PADDING_CHAR
            invariant
                n <= self.letters@.len(),
                spec_trim_padding(self.letters@.subrange(0, n as int)) == spec_trim_padding(
                    self.letters@,
                ),
            decreases n,
        {
            assert(self.letters@.subrange(0, n as int).drop_last() =~= self.letters@.subrange(
                0,
                n - 1,
            ));
            n = n - 1;
        }
        let mut b: Vec<u8> = Vec::with_capacity(n);
        let mut i: usize = 0;
        while i < n
            invariant
                i <= n <= self.letters@.len(),
                b@ == self.letters@.subrange(0, i as int),
            decreases n - i,
        {
            b.push(self.letters[i]);
            i = i + 1;
        }
        b
    }

    /// Random data: between 1 and `MAX_RECORD_LENGTH - 1` allowed letters,
    /// then padding.
    pub fn random() -> (d: Self)
        ensures
            exists|n: int|
                1 <= n < MAX_RECORD_LENGTH && #[trigger] spec_padded(d@.subrange(0, n)) == d@
                    && (forall|i: int| 0 <= i < n ==> is_allowed_letter(#[trigger] d@[i])),
    {
        let n = random_range_usize(1, MAX_RECORD_LENGTH);
        let mut v: Vec<u8> = Vec::new();
        while v.len() < n
            invariant
                v@.len() <= n < MAX_RECORD_LENGTH,
                forall|i: int| 0 <= i < v@.len() ==> is_allowed_letter(#[trigger] v@[i]),
            decreases n - v@.len(),
        {
            let c = Self::get_random_letter();
            v.push(c);
        }
        let ghost vs = v@;
        let d = Self::new(Some(v));
        assert(d@.subrange(0, n as int) =~= vs);
        d
    }
}

/// Letters that do not end in padding come back whole from padding and
/// trimming.
proof fn lemma_trim_padded(l: Seq<u8>, k: nat)
    requires
        l.len() > 0,
        l.last() != PADDING_CHAR,
    ensures
        spec_trim_padding(l + Seq::new(k, |i: int| PADDING_CHAR)) == l,
    decreases k,
{
    let s = l + Seq::new(k, |i: int| PADDING_CHAR);
    if k > 0 {
        assert(s.drop_last() =~= l + Seq::new((k - 1) as nat, |i: int| PADDING_CHAR));
        lemma_trim_padded(l, (k - 1) as nat);
    } else {
        assert(s =~= l);
    }
}

/// Random data shows as its letters.
pub proof fn lemma_random_trimmed(d: Seq<u8>)
    requires
        exists|n: int|
            1 <= n < MAX_RECORD_LENGTH && #[trigger] spec_padded(d.subrange(0, n)) == d
                && (forall|i: int| 0 <= i < n ==> is_allowed_letter(#[trigger] d[i])),
    ensures
        spec_random_letters(spec_trim_padding(d)),
{
    let n = choose|n: int|
        1 <= n < MAX_RECORD_LENGTH && #[trigger] spec_padded(d.subrange(0, n)) == d
            && (forall|i: int| 0 <= i < n ==> is_allowed_letter(#[trigger] d[i]));
    let l = d.subrange(0, n);
    assert(is_allowed_letter(d[n - 1]));
    assert(l.last() == d[n - 1]);
    lemma_trim_padded(l, (MAX_RECORD_LENGTH - n) as nat);
    assert forall|i: int| 0 <= i < l.len() implies is_allowed_letter(#[trigger] l[i]) by {
        assert(l[i] == d[i]);
    }
}

} // verus!

verus! {

/// Law: data made from bytes `s` starts with `s`: its first bytes are those
/// of `s` (as many as fit), then padding up to `MAX_RECORD_LENGTH`.
pub proof fn lemma_padded_prefix(s: Seq<u8>)
    ensures
        spec_padded(s).len() == MAX_RECORD_LENGTH,
        forall|i: int| 0 <= i < s.len() && i < MAX_RECORD_LENGTH ==> #[trigger] spec_padded(s)[i] == s[i],
        forall|i: int| s.len() <= i < MAX_RECORD_LENGTH ==> #[trigger] spec_padded(s)[i] == PADDING_CHAR,
{
}

} // verus!
