use vstd::prelude::*;

use crate::data::{Data, choose_from, random_range_usize};
use crate::text::{spec_decimal, spec_is_ascii, spec_ascii_chars, lemma_decimal_ascii, push_decimal, ascii_string};

verus! {

/// A command of the interactive loop.
#[derive(Debug, PartialEq, Eq)]
pub enum Command {
    /// `l`: show the store counters.
    Log,
    /// `i <key> <data>`: insert a record; the data is the rest of the line
    /// from the space before it.
    Insert { key: u64, data: Vec<u8> },
    /// `d <key>`: delete a record.
    Delete { key: u64 },
    /// `u <old_key> <new_key> <data>`: update a record; the data, possibly
    /// empty, is the rest of the line from the space before it.
    Update { old_key: u64, new_key: u64, data: Vec<u8> },
    /// `s <key>`: search a record.
    Search { key: u64 },
}

/// Why a line is not a command.
#[derive(Debug, PartialEq, Eq, Clone, Copy)]
pub enum ParseError {
    /// The line has no field for the key.
    MissingKey,
    /// The line has no field for the old key.
    MissingOldKey,
    /// The line has no field for the new key.
    MissingNewKey,
    /// A key field is not a number that fits 64 bits.
    BadNumber,
    /// The line starts with no known operation.
    UnknownOperation,
}

/// The value of the decimal digits `s`.
pub open spec fn spec_digits_value(s: Seq<u8>) -> nat
    decreases s.len(),
{
    if s.len() == 0 {
        0
    } else {
        spec_digits_value(s.drop_last()) * 10 + (s.last() - 48) as nat
    }
}

/// `s` is made of decimal digits only.
pub open spec fn spec_all_digits(s: Seq<u8>) -> bool {
    forall|i: int| 0 <= i < s.len() ==> 48 <= #[trigger] s[i] <= 57
}

/// The unsigned number that the text `s` spells: an optional `+`, then at
/// least one decimal digit and nothing else, with a value that fits 64 bits.
pub open spec fn spec_parse_u64(s: Seq<u8>) -> Option<u64> {
    let d = if s.len() > 0 && s[0] == 43 { s.drop_first() } else { s };
    if d.len() > 0 && spec_all_digits(d) && spec_digits_value(d) <= u64::MAX {
        Some(spec_digits_value(d) as u64)
    } else {
        None
    }
}

/// Position of the `n`-th space (from 0) in `s` at or after `from`, if any.
pub open spec fn spec_nth_space(s: Seq<u8>, from: int, n: nat) -> Option<int>
    decreases s.len() - from, n,
{
    if from >= s.len() || from < 0 {
        None
    } else if s[from] == 32 {
        if n == 0 {
            Some(from)
        } else {
            spec_nth_space(s, from + 1, (n - 1) as nat)
        }
    } else {
        spec_nth_space(s, from + 1, n)
    }
}

/// Field `n` (from 0) of `s` cut at each single space: what lies between
/// the `n`-th space and the next one (or the end).
pub open spec fn spec_field(s: Seq<u8>, n: nat) -> Option<Seq<u8>> {
    let start = if n == 0 {
        Some(0int)
    } else {
        match spec_nth_space(s, 0, (n - 1) as nat) {
            Some(p) => Some(p + 1),
            None => None,
        }
    };
    match start {
        None => None,
        Some(b) => match spec_nth_space(s, b, 0) {
            Some(e) => Some(s.subrange(b, e)),
            None => Some(s.subrange(b, s.len() as int)),
        },
    }
}

/// The rest of `s` from its `n`-th space (from 0) on, that space included;
/// empty when there is none.
pub open spec fn spec_rest(s: Seq<u8>, n: nat) -> Seq<u8> {
    match spec_nth_space(s, 0, n) {
        Some(p) => s.subrange(p, s.len() as int),
        None => Seq::empty(),
    }
}

/// A key field: missing, or the number it spells.
pub open spec fn spec_key_field(s: Seq<u8>, n: nat, missing: ParseError) -> Result<u64, ParseError> {
    match spec_field(s, n) {
        None => Err(missing),
        Some(f) => match spec_parse_u64(f) {
            Some(k) => Ok(k),
            None => Err(ParseError::BadNumber),
        },
    }
}

/// What a line (with at least one byte) means as a command.
pub open spec fn spec_parse_command(s: Seq<u8>) -> Result<(u8, u64, u64, Seq<u8>), ParseError> {
    let op = s[0];
    if op == 108 {
        Ok((op, 0, 0, Seq::empty()))
    } else if op == 105 {
        match spec_key_field(s, 1, ParseError::MissingKey) {
            Ok(k) => Ok((op, k, 0, spec_rest(s, 1))),
            Err(e) => Err(e),
        }
    } else if op == 100 || op == 115 {
        match spec_key_field(s, 1, ParseError::MissingKey) {
            Ok(k) => Ok((op, k, 0, Seq::empty())),
            Err(e) => Err(e),
        }
    } else if op == 117 {
        match spec_key_field(s, 1, ParseError::MissingOldKey) {
            Ok(k1) => match spec_key_field(s, 2, ParseError::MissingNewKey) {
                Ok(k2) => Ok((op, k1, k2, spec_rest(s, 2))),
                Err(e) => Err(e),
            },
            Err(e) => Err(e),
        }
    } else {
        Err(ParseError::UnknownOperation)
    }
}

impl Command {
    /// The command as (operation letter, first key, second key, data).
    pub open spec fn spec_parts(&self) -> (u8, u64, u64, Seq<u8>) {
        match self {
            Command::Log => (108, 0, 0, Seq::empty()),
            Command::Insert { key, data } => (105, *key, 0, data@),
            Command::Delete { key } => (100, *key, 0, Seq::empty()),
            Command::Update { old_key, new_key, data } => (117, *old_key, *new_key, data@),
            Command::Search { key } => (115, *key, 0, Seq::empty()),
        }
    }
}

} // verus!

verus! {

/// A decimal number is at least as large as any of its prefixes.
pub proof fn lemma_digits_prefix(s: Seq<u8>, j: int)
    requires
        0 <= j <= s.len(),
    ensures
        spec_digits_value(s.subrange(0, j)) <= spec_digits_value(s),
    decreases s.len() - j,
{
    if j < s.len() {
        lemma_digits_prefix(s, j + 1);
        assert(s.subrange(0, j + 1).drop_last() =~= s.subrange(0, j));
    } else {
        assert(s.subrange(0, j) =~= s);
    }
}

/// The unsigned number that `s` spells, as `str::parse::<u64>` reads it.
pub fn parse_u64(s: &[u8]) -> (r: Option<u64>)
    ensures
        r == spec_parse_u64(s@),
{
    let start: usize = if s.len() > 0 && s[0] == 43 {
        1
    } else {
        0
    };
    let ghost d = if s@.len() > 0 && s@[0] == 43 {
        s@.drop_first()
    } else {
        s@
    };
    proof {
        assert(d =~= s@.subrange(start as int, s@.len() as int));
    }
    if start >= s.len() {
        return None;
    }
    let mut v: u64 = 0;
    let mut i: usize = start;
    while i < s.len()
        invariant
            start <= i <= s@.len(),
            d == s@.subrange(start as int, s@.len() as int),
            d == (if s@.len() > 0 && s@[0] == 43 {
                s@.drop_first()
            } else {
                s@
            }),
            v == spec_digits_value(s@.subrange(start as int, i as int)),
            spec_all_digits(s@.subrange(start as int, i as int)),
        decreases s@.len() - i,
    {
        let c = s[i];
        if c < 48 || c > 57 {
            proof {
                assert(d[i - start] == c);
                assert(!spec_all_digits(d));
            }
            return None;
        }
        let dig: u64 = (c - 48) as u64;
        let ghost next = s@.subrange(start as int, i + 1);
        proof {
            assert(next.drop_last() =~= s@.subrange(start as int, i as int));
            assert(spec_digits_value(next) == v * 10 + dig);
        }
        if v > (u64::MAX - dig) / 10 {
            proof {
                assert(v * 10 + dig > u64::MAX) by (nonlinear_arith)
                    requires
                        v > (u64::MAX - dig) / 10,
                        dig <= 9,
                ;
                if spec_all_digits(d) {
                    assert(next =~= d.subrange(0, i + 1 - start));
                    lemma_digits_prefix(d, i + 1 - start);
                    assert(spec_digits_value(d) > u64::MAX);
                }
            }
            return None;
        }
        proof {
            assert(v * 10 + dig <= u64::MAX) by (nonlinear_arith)
                requires
                    v <= (u64::MAX - dig) / 10,
                    dig <= 9,
            ;
        }
        v = v * 10 + dig;
        i = i + 1;
        proof {
            assert forall|k: int| 0 <= k < next.len() implies 48 <= #[trigger] next[k] <= 57 by {
                if k < next.len() - 1 {
                    assert(next[k] == s@.subrange(start as int, i - 1)[k]);
                }
            }
        }
    }
    proof {
        assert(s@.subrange(start as int, i as int) =~= d);
    }
    Some(v)
}

/// Position of the `n`-th space (from 0) in `s` at or after `from`.
pub fn nth_space(s: &[u8], from: usize, n: usize) -> (r: Option<usize>)
    ensures
        match r {
            Some(p) => spec_nth_space(s@, from as int, n as nat) == Some(p as int),
            None => spec_nth_space(s@, from as int, n as nat) is None,
        },
{
    let mut i: usize = from;
    let mut left: usize = n;
    while i < s.len()
        invariant
            from <= i,
            spec_nth_space(s@, from as int, n as nat) == spec_nth_space(s@, i as int, left as nat),
        decreases s@.len() - i,
    {
        if s[i] == 32 {
            if left == 0 {
                return Some(i);
            }
            left = left - 1;
        }
        i = i + 1;
    }
    None
}

/// Field `n` (from 0) of `s` cut at each single space.
pub fn field(s: &[u8], n: usize) -> (r: Option<Vec<u8>>)
    ensures
        match r {
            Some(f) => spec_field(s@, n as nat) == Some(f@),
            None => spec_field(s@, n as nat) is None,
        },
{
    proof {
        if n > 0 {
            lemma_space_in(s@, 0, (n - 1) as nat);
        }
    }
    let start = if n == 0 {
        0
    } else {
        match nth_space(s, 0, n - 1) {
            Some(p) => {
                let len = s.len();
                proof {
                    assert(p < s@.len());
                    assert(len == s@.len());
                }
                p + 1
            },
            None => {
                return None;
            },
        }
    };
    let end = match nth_space(s, start, 0) {
        Some(e) => e,
        None => s.len(),
    };
    proof {
        if n > 0 {
            lemma_space_in(s@, 0, (n - 1) as nat);
        }
        lemma_space_in(s@, start as int, 0);
    }
    Some(vstd::slice::slice_to_vec(vstd::slice::slice_subrange(s, start, end)))
}

/// A space found lies within the text, at or after where the search began.
pub proof fn lemma_space_in(s: Seq<u8>, from: int, n: nat)
    ensures
        spec_nth_space(s, from, n) is Some ==> from <= spec_nth_space(s, from, n)->0 < s.len()
            && s[spec_nth_space(s, from, n)->0] == 32,
    decreases s.len() - from, n,
{
    if from >= s.len() || from < 0 {
    } else if s[from] == 32 {
        if n > 0 {
            lemma_space_in(s, from + 1, (n - 1) as nat);
        }
    } else {
        lemma_space_in(s, from + 1, n);
    }
}

/// The rest of `s` from its `n`-th space (from 0) on, that space included.
pub fn rest(s: &[u8], n: usize) -> (r: Vec<u8>)
    ensures
        r@ == spec_rest(s@, n as nat),
{
    match nth_space(s, 0, n) {
        Some(p) => {
            proof {
                lemma_space_in(s@, 0, n as nat);
            }
            vstd::slice::slice_to_vec(vstd::slice::slice_subrange(s, p, s.len()))
        },
        None => Vec::new(),
    }
}

/// A key in field `n`; `missing` when the line has no such field.
fn key_field(s: &[u8], n: usize, missing: ParseError) -> (r: Result<u64, ParseError>)
    ensures
        r == spec_key_field(s@, n as nat, missing),
{
    match field(s, n) {
        None => Err(missing),
        Some(f) => match parse_u64(f.as_slice()) {
            Some(k) => Ok(k),
            None => Err(ParseError::BadNumber),
        },
    }
}

/// Reads a line of the interactive loop as a command: its first byte is
/// the operation, and the line is cut into fields at each single space.
pub fn parse_command(line: &[u8]) -> (r: Result<Command, ParseError>)
    requires
        line@.len() > 0,
    ensures
        match r {
            Ok(c) => spec_parse_command(line@) == Ok::<(u8, u64, u64, Seq<u8>), ParseError>(c.spec_parts()),
            Err(e) => spec_parse_command(line@) == Err::<(u8, u64, u64, Seq<u8>), ParseError>(e),
        },
{
    let op = line[0];
    if op == 108 {
        Ok(Command::Log)
    } else if op == 105 {
        let key = key_field(line, 1, ParseError::MissingKey)?;
        Ok(Command::Insert { key, data: rest(line, 1) })
    } else if op == 100 {
        let key = key_field(line, 1, ParseError::MissingKey)?;
        Ok(Command::Delete { key })
    } else if op == 115 {
        let key = key_field(line, 1, ParseError::MissingKey)?;
        Ok(Command::Search { key })
    } else if op == 117 {
        let old_key = key_field(line, 1, ParseError::MissingOldKey)?;
        let new_key = key_field(line, 2, ParseError::MissingNewKey)?;
        Ok(Command::Update { old_key, new_key, data: rest(line, 2) })
    } else {
        Err(ParseError::UnknownOperation)
    }
}

/// A generated instruction line: `i <k1> <data>`, `d <k1> ` or
/// `u <k1> <k2> <data>`, with a line break.
pub open spec fn spec_instruction(op: u8, k1: nat, k2: nat, data: Seq<u8>) -> Seq<u8> {
    if op == 105 {
        seq![105u8, 32u8] + spec_decimal(k1) + seq![32u8] + data + seq![10u8]
    } else if op == 100 {
        seq![100u8, 32u8] + spec_decimal(k1) + seq![32u8, 10u8]
    } else {
        seq![117u8, 32u8] + spec_decimal(k1) + seq![32u8] + spec_decimal(k2) + seq![32u8] + data + seq![10u8]
    }
}

/// The instruction line for operation `op` (`i`, `d` or `u`) with keys `k1`
/// and `k2` (the second only for `u`) and the data letters `letters`
/// (unused for `d`).
pub fn instruction_line(op: u8, k1: u64, k2: u64, letters: &[u8]) -> (s: String)
    requires
        op == 105 || op == 100 || op == 117,
        forall|j: int| 0 <= j < letters@.len() ==> #[trigger] letters@[j] < 128,
    ensures
        s@ == spec_ascii_chars(spec_instruction(op, k1 as nat, k2 as nat, letters@)),
{
    let mut out: Vec<u8> = Vec::new();
    out.push(op);
    out.push(32);
    push_decimal(&mut out, k1);
    out.push(32);
    if op == 117 {
        push_decimal(&mut out, k2);
        out.push(32);
    }
    let ghost prefix = out@;
    if op != 100 {
        let mut j: usize = 0;
        while j < letters.len()
            invariant
                j <= letters@.len(),
                out@ == prefix + letters@.subrange(0, j as int),
            decreases letters@.len() - j,
        {
            out.push(letters[j]);
            j = j + 1;
        }
        proof {
            assert(letters@.subrange(0, j as int) =~= letters@);
        }
    }
    out.push(10);
    proof {
        let s = spec_instruction(op, k1 as nat, k2 as nat, letters@);
        lemma_decimal_ascii(k1 as nat);
        lemma_decimal_ascii(k2 as nat);
        assert(out@ =~= s);
        assert(spec_is_ascii(out@)) by {
            assert forall|j: int| 0 <= j < out@.len() implies #[trigger] out@[j] < 128 by {
                assert(s[j] == out@[j]);
            }
        }
    }
    ascii_string(out)
}

/// One random instruction line for a test file: an operation drawn from
/// `instructions` (`i`, `d` or `u`), keys below `i`, and random data.
pub fn generate_instructions(i: usize, instructions: &[u8]) -> (s: String)
    requires
        i > 0,
        instructions@.len() > 0,
        forall|j: int| 0 <= j < instructions@.len() ==> #[trigger] instructions@[j] == 105 || instructions@[j] == 100
            || instructions@[j] == 117,
    ensures
        exists|op: u8, k1: nat, k2: nat, d: Seq<u8>|
            instructions@.contains(op) && k1 < i && k2 < i && crate::data::spec_random_letters(d) && s@
                == spec_ascii_chars(#[trigger] spec_instruction(op, k1, k2, d)),
{
    let op = choose_from(instructions);
    let k1 = random_range_usize(0, i);
    let mut k2: usize = 0;
    if op == 117 {
        k2 = random_range_usize(0, i);
    }
    let mut letters: Vec<u8> = vec![97u8];
    if op != 100 {
        let data = Data::random();
        letters = data.trimmed_letters();
        proof {
            crate::data::lemma_random_trimmed(data@);
        }
    }
    proof {
        assert(crate::data::spec_random_letters(letters@));
        assert(instructions@.contains(op));
        assert forall|j: int| 0 <= j < letters@.len() implies #[trigger] letters@[j] < 128 by {
            assert(crate::data::is_allowed_letter(letters@[j]));
        }
    }
    let s = instruction_line(op, k1 as u64, k2 as u64, letters.as_slice());
    proof {
        assert(s@ == spec_ascii_chars(spec_instruction(op, k1 as nat, k2 as nat, letters@)));
    }
    s
}

} // verus!

verus! {

/// Law: the decimal text of `n` is its base-ten numeral: at least one byte,
/// every byte an ASCII digit, no leading `0` unless `n` is zero, and reading
/// the digits back gives `n`.
pub proof fn lemma_decimal_is_numeral(n: nat)
    ensures
        spec_decimal(n).len() >= 1,
        spec_all_digits(spec_decimal(n)),
        spec_digits_value(spec_decimal(n)) == n,
        spec_decimal(n)[0] == 48 ==> n == 0,
    decreases n,
{
    let s = spec_decimal(n);
    if n >= 10 {
        lemma_decimal_is_numeral(n / 10);
        let t = spec_decimal(n / 10);
        assert(s == t.push((48 + n % 10) as u8));
        assert(s.drop_last() =~= t);
        assert(s[0] == t[0]);
        assert forall|i: int| 0 <= i < s.len() implies 48 <= #[trigger] s[i] <= 57 by {
            if i < t.len() {
                assert(s[i] == t[i]);
            }
        }
        assert(s.last() == (48 + n % 10) as u8);
        assert(((48 + n % 10) as u8) as int == 48 + n % 10);
        assert(n == (n / 10) * 10 + n % 10);
        assert(spec_digits_value(s) == spec_digits_value(t) * 10 + (s.last() - 48) as nat);
    } else {
        assert(s.drop_last() =~= Seq::<u8>::empty());
        assert(((48 + n) as u8) as int == 48 + n);
        assert(spec_digits_value(s) == spec_digits_value(s.drop_last()) * 10 + (s.last() - 48) as nat);
    }
}

/// Where the first space at or after `from` is, and that there is none
/// before it.
pub proof fn lemma_first_space(s: Seq<u8>, from: int)
    requires
        0 <= from,
    ensures
        match spec_nth_space(s, from, 0) {
            Some(p) => from <= p < s.len() && s[p] == 32 && forall|i: int| from <= i < p ==> s[i] != 32,
            None => forall|i: int| from <= i < s.len() ==> s[i] != 32,
        },
    decreases s.len() - from,
{
    if from < s.len() && s[from] != 32 {
        lemma_first_space(s, from + 1);
    }
}

/// The `n + 1`-th space is the `n`-th one after the first.
pub proof fn lemma_next_space(s: Seq<u8>, from: int, n: nat)
    requires
        0 <= from,
        spec_nth_space(s, from, 0) is Some,
    ensures
        spec_nth_space(s, from, n + 1) == spec_nth_space(s, spec_nth_space(s, from, 0)->0 + 1, n),
    decreases s.len() - from,
{
    if from < s.len() && s[from] != 32 {
        lemma_next_space(s, from + 1, n);
    }
}

/// A field of `s` lies between the space at `a` and `b`: no space in
/// between, and `b` is the next space or the end of the line.
pub open spec fn spec_gap(s: Seq<u8>, a: int, b: int) -> bool {
    &&& 0 <= a < b <= s.len()
    &&& s[a] == 32
    &&& forall|i: int| a < i < b ==> s[i] != 32
    &&& b < s.len() ==> s[b] == 32
}

/// The cut points of the first fields of a line: `a` is its first space,
/// and field 1 lies between `a` and `b`.
pub open spec fn spec_cut(s: Seq<u8>, a: int, b: int) -> bool {
    &&& forall|i: int| 0 <= i < a ==> s[i] != 32
    &&& spec_gap(s, a, b)
}

/// Law: an insert line is `i`, then the key field between the first and the
/// second space, then the data: the whole rest of the line from the second
/// space on (empty when there is none). The data holds no byte of the key
/// field.
pub proof fn lemma_insert_line(s: Seq<u8>)
    requires
        s.len() > 0,
        spec_parse_command(s) is Ok,
        spec_parse_command(s)->Ok_0.0 == 105,
    ensures
        s[0] == 105,
        exists|a: int, b: int|
            #![trigger spec_cut(s, a, b)]
            spec_cut(s, a, b) && spec_parse_u64(s.subrange(a + 1, b)) == Some(spec_parse_command(s)->Ok_0.1)
                && spec_parse_command(s)->Ok_0.3 == s.subrange(b, s.len() as int),
{
    lemma_first_space(s, 0);
    let a = spec_nth_space(s, 0, 0)->0;
    lemma_first_space(s, a + 1);
    lemma_next_space(s, 0, 0);
    let b = match spec_nth_space(s, a + 1, 0) {
        Some(p) => p,
        None => s.len() as int,
    };
    assert(spec_field(s, 1) == Some(s.subrange(a + 1, b)));
    if b == s.len() {
        assert(spec_rest(s, 1) =~= s.subrange(b, s.len() as int));
    }
    assert(spec_cut(s, a, b));
}

/// Law: an update line is `u`, the old key field, the new key field, then
/// the data: the whole rest of the line from the third space on (empty when
/// there is none).
pub proof fn lemma_update_line(s: Seq<u8>)
    requires
        s.len() > 0,
        spec_parse_command(s) is Ok,
        spec_parse_command(s)->Ok_0.0 == 117,
    ensures
        s[0] == 117,
        exists|a: int, b: int, c: int|
            #![trigger spec_cut(s, a, b), spec_gap(s, b, c)]
            spec_cut(s, a, b) && spec_gap(s, b, c) && spec_parse_u64(s.subrange(a + 1, b))
                == Some(spec_parse_command(s)->Ok_0.1) && spec_parse_u64(s.subrange(b + 1, c)) == Some(
                spec_parse_command(s)->Ok_0.2,
            ) && spec_parse_command(s)->Ok_0.3 == s.subrange(c, s.len() as int),
{
    lemma_first_space(s, 0);
    let a = spec_nth_space(s, 0, 0)->0;
    lemma_first_space(s, a + 1);
    lemma_next_space(s, 0, 0);
    lemma_next_space(s, 0, 1);
    assert(spec_field(s, 2) is Some);
    let b = spec_nth_space(s, a + 1, 0)->0;
    lemma_next_space(s, a + 1, 0);
    lemma_first_space(s, b + 1);
    let c = match spec_nth_space(s, b + 1, 0) {
        Some(p) => p,
        None => s.len() as int,
    };
    assert(spec_field(s, 1) == Some(s.subrange(a + 1, b)));
    assert(spec_field(s, 2) == Some(s.subrange(b + 1, c)));
    if c == s.len() {
        assert(spec_rest(s, 2) =~= s.subrange(c, s.len() as int));
    }
    assert(spec_cut(s, a, b));
    assert(spec_gap(s, b, c));
}

} // verus!
