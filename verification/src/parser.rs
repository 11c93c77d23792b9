//! The Bencode decoder: a recursive-descent parser over a byte buffer.
//!
//! The decoder makes a single left-to-right pass with no backtracking,
//! never reads past the end of the buffer, and reports every grammar
//! violation as an error value.  Its recursion depth follows the
//! nesting depth of the input, so a pathologically nested buffer can
//! exhaust the call stack: a known limitation of this design.

use vstd::prelude::*;

verus! {

/// A decoded Bencode value.
///
/// A dictionary is kept as a vector of key/value pairs with pairwise
/// distinct keys, in the order in which the keys were first encountered.
#[derive(Debug, PartialEq)]
pub enum Bencode {
    BInt(i64),
    BString(Vec<u8>),
    BList(Vec<Bencode>),
    BDict(Vec<(Vec<u8>, Bencode)>),
}

/// The mathematical model of a decoded value.
pub enum SpecValue {
    Int(int),
    Bytes(Seq<u8>),
    List(Seq<SpecValue>),
    Dict(Seq<(Seq<u8>, SpecValue)>),
}

impl View for Bencode {
    type V = SpecValue;

    open spec fn view(&self) -> SpecValue
        decreases self,
    {
        match self {
            Bencode::BInt(i) => SpecValue::Int(*i as int),
            Bencode::BString(s) => SpecValue::Bytes(s@),
            Bencode::BList(l) => SpecValue::List(views_of(l@)),
            Bencode::BDict(ps) => SpecValue::Dict(views_of_pairs(ps@)),
        }
    }
}

/// The view of a sequence of decoded values.
///
/// The range test in the closure only serves the termination check.
pub open spec fn views_of(vs: Seq<Bencode>) -> Seq<SpecValue>
    decreases vs,
{
    Seq::new(
        vs.len(),
        |i: int|
            if 0 <= i < vs.len() {
                vs[i]@
            } else {
                SpecValue::Int(0)
            },
    )
}

/// The view of a sequence of key/value pairs.
///
/// The range test in the closure only serves the termination check.
pub open spec fn views_of_pairs(ps: Seq<(Vec<u8>, Bencode)>) -> Seq<(Seq<u8>, SpecValue)>
    decreases ps,
{
    Seq::new(
        ps.len(),
        |i: int|
            if 0 <= i < ps.len() {
                (ps[i].0@, ps[i].1@)
            } else {
                (Seq::empty(), SpecValue::Int(0))
            },
    )
}

/// Why a decode failed.
#[derive(Debug, Clone, Copy, PartialEq, Eq, Structural)]
pub enum ParseError {
    /// The buffer ended before a production's declared or required
    /// content was fully consumed.
    TruncatedInput,
    /// A length prefix, integer literal or framing character did not
    /// match the grammar at the current position.
    MalformedToken,
    /// A dictionary key production yielded something other than a byte
    /// string.  The grammar as it stands cannot produce this; the
    /// variant guards against future grammar extensions.
    UnexpectedKeyType,
}

/// The outcome of running one grammar production at a position:
/// either a result together with the position just past the bytes the
/// production consumed, or a failure.
pub enum ParseStep<T> {
    Found(T, int),
    Fail(ParseError),
}

/// True for the ASCII digits `0` to `9`.
pub open spec fn is_digit(b: u8) -> bool {
    48 <= b <= 57
}

/// Number of consecutive ASCII digits starting at `pos`.
pub open spec fn digit_run_len(s: Seq<u8>, pos: int) -> int
    decreases s.len() - pos,
{
    if pos < 0 || pos >= s.len() || !is_digit(s[pos]) {
        0
    } else {
        1 + digit_run_len(s, pos + 1)
    }
}

/// The base-10 value of the digits `s[pos .. end]`.
pub open spec fn digits_value(s: Seq<u8>, pos: int, end: int) -> int
    decreases end - pos,
{
    if pos >= end {
        0
    } else {
        digits_value(s, pos, end - 1) * 10 + (s[end - 1] - 48)
    }
}

/// The integer production: `i`, an optional `-`, one or more digits,
/// `e`.  Leading zeros and `-0` are rejected, as canonical Bencode
/// demands, and so is a value outside the signed 64-bit range.
pub open spec fn spec_parse_int(s: Seq<u8>, pos: int) -> ParseStep<SpecValue> {
    if pos >= s.len() {
        ParseStep::Fail(ParseError::TruncatedInput)
    } else if s[pos] != 105 {  // 'i'
        ParseStep::Fail(ParseError::MalformedToken)
    } else {
        let neg = pos + 1 < s.len() && s[pos + 1] == 45;  // '-'
        let dstart = if neg {
            pos + 2
        } else {
            pos + 1
        };
        let k = digit_run_len(s, dstart);
        let dend = dstart + k;
        let v = digits_value(s, dstart, dend);
        if dstart >= s.len() {
            ParseStep::Fail(ParseError::TruncatedInput)
        } else if k == 0 {
            ParseStep::Fail(ParseError::MalformedToken)
        } else if dend >= s.len() {
            ParseStep::Fail(ParseError::TruncatedInput)
        } else if s[dend] != 101 {  // 'e'
            ParseStep::Fail(ParseError::MalformedToken)
        } else if s[dstart] == 48 && (k > 1 || neg) {
            ParseStep::Fail(ParseError::MalformedToken)
        } else if neg && v > 0x8000_0000_0000_0000 {
            ParseStep::Fail(ParseError::MalformedToken)
        } else if !neg && v > 0x7fff_ffff_ffff_ffff {
            ParseStep::Fail(ParseError::MalformedToken)
        } else {
            ParseStep::Found(
                SpecValue::Int(
                    if neg {
                        -v
                    } else {
                        v
                    },
                ),
                dend + 1,
            )
        }
    }
}

/// The byte-string production: one or more digits giving the length,
/// `:`, then exactly that many raw bytes.  Leading zeros in the length
/// are tolerated.
pub open spec fn spec_parse_bstring(s: Seq<u8>, pos: int) -> ParseStep<Seq<u8>> {
    if pos >= s.len() {
        ParseStep::Fail(ParseError::TruncatedInput)
    } else {
        let k = digit_run_len(s, pos);
        let n = digits_value(s, pos, pos + k);
        if k == 0 {
            ParseStep::Fail(ParseError::MalformedToken)
        } else if pos + k >= s.len() {
            ParseStep::Fail(ParseError::TruncatedInput)
        } else if s[pos + k] != 58 {  // ':'
            ParseStep::Fail(ParseError::MalformedToken)
        } else if pos + k + 1 + n > s.len() {
            ParseStep::Fail(ParseError::TruncatedInput)
        } else {
            ParseStep::Found(s.subrange(pos + k + 1, pos + k + 1 + n), pos + k + 1 + n)
        }
    }
}

/// Replaces the value of the first pair whose key is `k`, or appends
/// the pair when no key matches.
pub open spec fn spec_insert_pair(
    acc: Seq<(Seq<u8>, SpecValue)>,
    k: Seq<u8>,
    v: SpecValue,
) -> Seq<(Seq<u8>, SpecValue)>
    decreases acc.len(),
{
    if acc.len() == 0 {
        seq![(k, v)]
    } else if acc[0].0 == k {
        seq![(k, v)] + acc.drop_first()
    } else {
        seq![acc[0]] + spec_insert_pair(acc.drop_first(), k, v)
    }
}

/// Collapses duplicate keys, later pairs overwriting earlier ones in
/// place: each key keeps the position of its first occurrence and the
/// value of its last.
pub open spec fn spec_dedup(ps: Seq<(Seq<u8>, SpecValue)>) -> Seq<(Seq<u8>, SpecValue)>
    decreases ps.len(),
{
    if ps.len() == 0 {
        Seq::empty()
    } else {
        spec_insert_pair(spec_dedup(ps.drop_last()), ps.last().0, ps.last().1)
    }
}

/// The value production, dispatching on the leading byte:
/// `i` an integer, a digit a byte string, `l` a list, `d` a dictionary.
pub open spec fn spec_parse_value(s: Seq<u8>, pos: int) -> ParseStep<SpecValue>
    decreases s.len() - pos, 2int,
{
    if pos >= s.len() {
        ParseStep::Fail(ParseError::TruncatedInput)
    } else if s[pos] == 105 {  // 'i'
        spec_parse_int(s, pos)
    } else if is_digit(s[pos]) {
        match spec_parse_bstring(s, pos) {
            ParseStep::Found(b, end) => ParseStep::Found(SpecValue::Bytes(b), end),
            ParseStep::Fail(e) => ParseStep::Fail(e),
        }
    } else if s[pos] == 108 {  // 'l'
        spec_parse_list(s, pos)
    } else if s[pos] == 100 {  // 'd'
        spec_parse_dict(s, pos)
    } else {
        ParseStep::Fail(ParseError::MalformedToken)
    }
}

/// The list production: `l`, zero or more values, `e`.
pub open spec fn spec_parse_list(s: Seq<u8>, pos: int) -> ParseStep<SpecValue>
    decreases s.len() - pos, 1int,
{
    if pos >= s.len() {
        ParseStep::Fail(ParseError::TruncatedInput)
    } else if s[pos] != 108 {  // 'l'
        ParseStep::Fail(ParseError::MalformedToken)
    } else {
        match spec_parse_elems(s, pos + 1) {
            ParseStep::Found(vs, end) => ParseStep::Found(SpecValue::List(vs), end),
            ParseStep::Fail(e) => ParseStep::Fail(e),
        }
    }
}

/// The dictionary production: `d`, zero or more key/value pairs, `e`.
/// Duplicate keys are tolerated; the last pair wins.
pub open spec fn spec_parse_dict(s: Seq<u8>, pos: int) -> ParseStep<SpecValue>
    decreases s.len() - pos, 1int,
{
    if pos >= s.len() {
        ParseStep::Fail(ParseError::TruncatedInput)
    } else if s[pos] != 100 {  // 'd'
        ParseStep::Fail(ParseError::MalformedToken)
    } else {
        match spec_parse_pairs(s, pos + 1) {
            ParseStep::Found(ps, end) => ParseStep::Found(SpecValue::Dict(spec_dedup(ps)), end),
            ParseStep::Fail(e) => ParseStep::Fail(e),
        }
    }
}

/// Zero or more values up to and including a closing `e`.
pub open spec fn spec_parse_elems(s: Seq<u8>, pos: int) -> ParseStep<Seq<SpecValue>>
    decreases s.len() - pos, 3int,
{
    if pos >= s.len() {
        ParseStep::Fail(ParseError::TruncatedInput)
    } else if s[pos] == 101 {  // 'e'
        ParseStep::Found(Seq::empty(), pos + 1)
    } else {
        match spec_parse_value(s, pos) {
            ParseStep::Found(v, end) => if pos < end <= s.len() {
                match spec_parse_elems(s, end) {
                    ParseStep::Found(vs, e2) => ParseStep::Found(seq![v] + vs, e2),
                    ParseStep::Fail(e) => ParseStep::Fail(e),
                }
            } else {
                // A successful production always advances within bounds;
                // the test only justifies the recursion's termination.
                ParseStep::Fail(ParseError::MalformedToken)
            },
            ParseStep::Fail(e) => ParseStep::Fail(e),
        }
    }
}

/// Zero or more key/value pairs up to and including a closing `e`.
/// Keys must be byte strings.
pub open spec fn spec_parse_pairs(s: Seq<u8>, pos: int) -> ParseStep<Seq<(Seq<u8>, SpecValue)>>
    decreases s.len() - pos, 3int,
{
    if pos >= s.len() {
        ParseStep::Fail(ParseError::TruncatedInput)
    } else if s[pos] == 101 {  // 'e'
        ParseStep::Found(Seq::empty(), pos + 1)
    } else {
        match spec_parse_bstring(s, pos) {
            ParseStep::Found(kb, kend) => if pos < kend <= s.len() {
                match spec_parse_value(s, kend) {
                    ParseStep::Found(v, vend) => if kend < vend <= s.len() {
                        match spec_parse_pairs(s, vend) {
                            ParseStep::Found(ps, e2) => ParseStep::Found(seq![(kb, v)] + ps, e2),
                            ParseStep::Fail(e) => ParseStep::Fail(e),
                        }
                    } else {
                        ParseStep::Fail(ParseError::MalformedToken)
                    },
                    ParseStep::Fail(e) => ParseStep::Fail(e),
                }
            } else {
                ParseStep::Fail(ParseError::MalformedToken)
            },
            ParseStep::Fail(e) => ParseStep::Fail(e),
        }
    }
}

/// The whole input: a concatenation of zero or more values, ending
/// exactly at the end of the buffer.
pub open spec fn spec_parse_tops(s: Seq<u8>, pos: int) -> ParseStep<Seq<SpecValue>>
    decreases s.len() - pos, 3int,
{
    if pos >= s.len() {
        ParseStep::Found(Seq::empty(), pos)
    } else {
        match spec_parse_value(s, pos) {
            ParseStep::Found(v, end) => if pos < end <= s.len() {
                match spec_parse_tops(s, end) {
                    ParseStep::Found(vs, e2) => ParseStep::Found(seq![v] + vs, e2),
                    ParseStep::Fail(e) => ParseStep::Fail(e),
                }
            } else {
                ParseStep::Fail(ParseError::MalformedToken)
            },
            ParseStep::Fail(e) => ParseStep::Fail(e),
        }
    }
}

/// What decoding a buffer yields: the sequence of top-level values in
/// encounter order, or the first failure met in a single left-to-right
/// pass.
pub open spec fn spec_decode(s: Seq<u8>) -> Result<Seq<SpecValue>, ParseError> {
    match spec_parse_tops(s, 0) {
        ParseStep::Found(vs, end) => Ok(vs),
        ParseStep::Fail(e) => Err(e),
    }
}

/// A run of digits denotes a non-negative number.
proof fn lemma_digits_value_nonneg(s: Seq<u8>, pos: int, end: int)
    requires
        forall|i: int| pos <= i < end ==> is_digit(s[i]),
    ensures
        digits_value(s, pos, end) >= 0,
    decreases end - pos,
{
    if pos < end {
        lemma_digits_value_nonneg(s, pos, end - 1);
    }
}

/// Extending a run of digits to the right never shrinks its value.
proof fn lemma_digits_value_mono(s: Seq<u8>, pos: int, mid: int, end: int)
    requires
        pos <= mid <= end,
        forall|i: int| pos <= i < end ==> is_digit(s[i]),
    ensures
        digits_value(s, pos, end) >= digits_value(s, pos, mid),
    decreases end - mid,
{
    if mid < end {
        lemma_digits_value_mono(s, pos, mid, end - 1);
        lemma_digits_value_nonneg(s, pos, end - 1);
    }
}

/// Scans past the digits that begin at `pos`.
fn digit_run_end(bytes: &[u8], pos: usize) -> (end: usize)
    requires
        pos <= bytes@.len(),
    ensures
        pos <= end <= bytes@.len(),
        end - pos == digit_run_len(bytes@, pos as int),
        forall|i: int| pos <= i < end ==> is_digit(bytes@[i]),
        end < bytes@.len() ==> !is_digit(bytes@[end as int]),
{
    let n = bytes.len();
    let mut cur: usize = pos;
    while cur < n && 48 <= bytes[cur] && bytes[cur] <= 57
        invariant
            pos <= cur <= n == bytes@.len(),
            digit_run_len(bytes@, pos as int) == cur - pos + digit_run_len(bytes@, cur as int),
            forall|i: int| pos <= i < cur ==> is_digit(bytes@[i]),
        decreases n - cur,
    {
        cur = cur + 1;
    }
    cur
}

/// Reads the digits `bytes[pos .. end]` as a base-10 number, or
/// reports that the number does not fit in 64 bits.
fn scan_u64(bytes: &[u8], pos: usize, end: usize) -> (r: Option<u64>)
    requires
        pos <= end <= bytes@.len(),
        forall|i: int| pos <= i < end ==> is_digit(bytes@[i]),
    ensures
        (match r {
            Some(n) => n as int == digits_value(bytes@, pos as int, end as int),
            None => digits_value(bytes@, pos as int, end as int) > u64::MAX,
        }),
{
    let mut acc: u64 = 0;
    let mut cur: usize = pos;
    while cur < end
        invariant
            pos <= cur <= end <= bytes@.len(),
            forall|i: int| pos <= i < end ==> is_digit(bytes@[i]),
            acc as int == digits_value(bytes@, pos as int, cur as int),
        decreases end - cur,
    {
        let d = (bytes[cur] - 48) as u64;
        if acc > (u64::MAX - d) / 10 {
            proof {
                assert(acc * 10 + d > u64::MAX) by (nonlinear_arith)
                    requires
                        acc > (u64::MAX - d) / 10,
                        d <= 9,
                ;
                lemma_digits_value_mono(bytes@, pos as int, cur + 1, end as int);
            }
            return None;
        }
        proof {
            assert(acc * 10 + d <= u64::MAX) by (nonlinear_arith)
                requires
                    acc <= (u64::MAX - d) / 10,
                    d <= 9,
            ;
        }
        acc = acc * 10 + d;
        cur = cur + 1;
    }
    Some(acc)
}

/// Decodes the integer production at `pos`: `i`, an optional `-`, one
/// or more digits, `e`.  Returns the integer and the position just
/// past the token.
pub fn bint(bytes: &[u8], pos: usize) -> (r: Result<(i64, usize), ParseError>)
    ensures
        (match r {
            Ok((v, end)) => spec_parse_int(bytes@, pos as int) == ParseStep::Found(
                SpecValue::Int(v as int),
                end as int,
            ) && pos < end <= bytes@.len(),
            Err(e) => spec_parse_int(bytes@, pos as int) == ParseStep::<SpecValue>::Fail(e),
        }),
{
    let n = bytes.len();
    if pos >= n {
        return Err(ParseError::TruncatedInput);
    }
    if bytes[pos] != 105 {  // 'i'
        return Err(ParseError::MalformedToken);
    }
    let neg = pos + 1 < n && bytes[pos + 1] == 45;  // '-'
    let dstart = if neg {
        pos + 2
    } else {
        pos + 1
    };
    if dstart >= n {
        return Err(ParseError::TruncatedInput);
    }
    let dend = digit_run_end(bytes, dstart);
    if dend == dstart {
        return Err(ParseError::MalformedToken);
    }
    if dend >= n {
        return Err(ParseError::TruncatedInput);
    }
    if bytes[dend] != 101 {  // 'e'
        return Err(ParseError::MalformedToken);
    }
    if bytes[dstart] == 48 && (dend - dstart > 1 || neg) {  // '0...' or '-0'
        return Err(ParseError::MalformedToken);
    }
    let mag = match scan_u64(bytes, dstart, dend) {
        Some(m) => m,
        None => {
            return Err(ParseError::MalformedToken);
        },
    };
    if neg {
        if mag > 0x8000_0000_0000_0000u64 {
            return Err(ParseError::MalformedToken);
        }
        let v: i64 = if mag == 0x8000_0000_0000_0000u64 {
            i64::MIN
        } else {
            -(mag as i64)
        };
        Ok((v, dend + 1))
    } else {
        if mag > 0x7fff_ffff_ffff_ffffu64 {
            return Err(ParseError::MalformedToken);
        }
        Ok((mag as i64, dend + 1))
    }
}

/// Decodes the byte-string production at `pos`: a digit run giving the
/// length, `:`, then exactly that many raw bytes.  Returns the bytes
/// and the position just past them.
pub fn bstring(bytes: &[u8], pos: usize) -> (r: Result<(Vec<u8>, usize), ParseError>)
    ensures
        (match r {
            Ok((v, end)) => spec_parse_bstring(bytes@, pos as int) == ParseStep::Found(
                v@,
                end as int,
            ) && pos < end <= bytes@.len(),
            Err(e) => spec_parse_bstring(bytes@, pos as int) == ParseStep::<Seq<u8>>::Fail(e),
        }),
{
    let n = bytes.len();
    if pos >= n {
        return Err(ParseError::TruncatedInput);
    }
    let dend = digit_run_end(bytes, pos);
    if dend == pos {
        return Err(ParseError::MalformedToken);
    }
    if dend >= n {
        return Err(ParseError::TruncatedInput);
    }
    if bytes[dend] != 58 {  // ':'
        return Err(ParseError::MalformedToken);
    }
    let len64 = match scan_u64(bytes, pos, dend) {
        Some(m) => m,
        None => {
            return Err(ParseError::TruncatedInput);
        },
    };
    let start = dend + 1;
    if len64 > (n - start) as u64 {
        return Err(ParseError::TruncatedInput);
    }
    let len = len64 as usize;
    let content = vstd::slice::slice_to_vec(vstd::slice::slice_subrange(bytes, start, start + len));
    Ok((content, start + len))
}

/// Byte-for-byte equality of two byte vectors.
fn bytes_eq(a: &Vec<u8>, b: &Vec<u8>) -> (r: bool)
    ensures
        r == (a@ == b@),
{
    if a.len() != b.len() {
        return false;
    }
    let mut i: usize = 0;
    while i < a.len()
        invariant
            i <= a@.len() == b@.len(),
            forall|j: int| 0 <= j < i ==> a@[j] == b@[j],
        decreases a@.len() - i,
    {
        if a[i] != b[i] {
            return false;
        }
        i = i + 1;
    }
    proof {
        assert(a@ =~= b@);
    }
    true
}

/// Index of the first pair whose key equals `k`, if any.
fn find_key(acc: &Vec<(Vec<u8>, Bencode)>, k: &Vec<u8>) -> (r: Option<usize>)
    ensures
        (match r {
            Some(j) => j < acc@.len() && acc@[j as int].0@ == k@ && (forall|i: int|
                0 <= i < j ==> acc@[i].0@ != k@),
            None => forall|i: int| 0 <= i < acc@.len() ==> acc@[i].0@ != k@,
        }),
{
    let mut j: usize = 0;
    while j < acc.len()
        invariant
            j <= acc@.len(),
            forall|i: int| 0 <= i < j ==> acc@[i].0@ != k@,
        decreases acc@.len() - j,
    {
        if bytes_eq(&acc[j].0, k) {
            return Some(j);
        }
        j = j + 1;
    }
    None
}

/// Where the first pair with key `k` sits decides what the insertion
/// does: it overwrites that pair in place, or appends when `k` is new.
proof fn lemma_insert_pair_at(acc: Seq<(Seq<u8>, SpecValue)>, k: Seq<u8>, v: SpecValue, j: int)
    requires
        0 <= j <= acc.len(),
        forall|i: int| 0 <= i < j ==> acc[i].0 != k,
        j < acc.len() ==> acc[j].0 == k,
    ensures
        j < acc.len() ==> spec_insert_pair(acc, k, v) == acc.update(j, (k, v)),
        j == acc.len() ==> spec_insert_pair(acc, k, v) == acc.push((k, v)),
    decreases acc.len(),
{
    if acc.len() == 0 {
        assert(spec_insert_pair(acc, k, v) =~= acc.push((k, v)));
    } else if j == 0 {
        assert(spec_insert_pair(acc, k, v) =~= acc.update(0, (k, v)));
    } else {
        lemma_insert_pair_at(acc.drop_first(), k, v, j - 1);
        assert(acc[0].0 != k);
        if j < acc.len() {
            assert(spec_insert_pair(acc, k, v) =~= acc.update(j, (k, v)));
        } else {
            assert(spec_insert_pair(acc, k, v) =~= acc.push((k, v)));
        }
    }
}

/// Collapses a pair list into a map-like vector: pairwise distinct
/// keys, each key at the position of its first occurrence, each key
/// carrying the value of its last occurrence.
pub fn pairs_to_map(pairs: Vec<(Vec<u8>, Bencode)>) -> (m: Vec<(Vec<u8>, Bencode)>)
    ensures
        views_of_pairs(m@) == spec_dedup(views_of_pairs(pairs@)),
        unique_keys(views_of_pairs(m@)),
{
    let ghost pviews = views_of_pairs(pairs@);
    let mut rest = pairs;
    let mut acc: Vec<(Vec<u8>, Bencode)> = Vec::new();
    let ghost mut idx: int = 0;
    proof {
        assert(views_of_pairs(rest@) =~= pviews.skip(0));
        assert(views_of_pairs(acc@) =~= spec_dedup(pviews.take(0)));
    }
    while rest.len() > 0
        invariant
            0 <= idx <= pviews.len(),
            views_of_pairs(rest@) == pviews.skip(idx),
            views_of_pairs(acc@) == spec_dedup(pviews.take(idx)),
        decreases rest@.len(),
    {
        let ghost prev_rest = rest@;
        let ghost prev_acc_views = views_of_pairs(acc@);
        let (k, v) = rest.remove(0);
        proof {
            assert(views_of_pairs(prev_rest)[0] == (k@, v@));
            assert(views_of_pairs(prev_rest) == pviews.skip(idx));
            assert(views_of_pairs(prev_rest).len() == prev_rest.len());
            assert(pviews.len() - idx == prev_rest.len());
            vstd::seq_lib::lemma_seq_skip_index(pviews, idx, 0);
            assert(pviews.skip(idx)[0] == pviews[idx]);
            assert(pviews[idx] == (k@, v@));
            assert(rest@ == prev_rest.remove(0));
            assert forall|i: int| 0 <= i < rest@.len() implies views_of_pairs(rest@)[i]
                == pviews.skip(idx + 1)[i] by {
                assert(rest@[i] == prev_rest[i + 1]);
                assert(rest@.len() == prev_rest.len() - 1);
                vstd::seq_lib::lemma_seq_skip_index(pviews, idx + 1, i);
                vstd::seq_lib::lemma_seq_skip_index(pviews, idx, i + 1);
                assert(pviews.skip(idx + 1)[i] == pviews[idx + 1 + i]);
                assert(pviews.skip(idx)[i + 1] == pviews[idx + 1 + i]);
            }
            assert(views_of_pairs(rest@) =~= pviews.skip(idx + 1));
        }
        match find_key(&acc, &k) {
            Some(j) => {
                proof {
                    lemma_insert_pair_at(prev_acc_views, k@, v@, j as int);
                }
                acc[j] = (k, v);
                proof {
                    assert(views_of_pairs(acc@) =~= prev_acc_views.update(j as int, (k@, v@)));
                }
            },
            None => {
                proof {
                    lemma_insert_pair_at(prev_acc_views, k@, v@, prev_acc_views.len() as int);
                }
                acc.push((k, v));
                proof {
                    assert(views_of_pairs(acc@) =~= prev_acc_views.push((k@, v@)));
                }
            },
        }
        proof {
            idx = idx + 1;
            let t = pviews.take(idx);
            assert(t.drop_last() =~= pviews.take(idx - 1));
            assert(t.last() == pviews[idx - 1]);
            assert(spec_dedup(t) == spec_insert_pair(spec_dedup(t.drop_last()), t.last().0, t.last().1));
        }
    }
    proof {
        assert(pviews.take(idx) =~= pviews);
        lemma_dedup_unique(pviews);
    }
    acc
}

/// Loop invariant of the element loops: whatever the grammar says of
/// the rest of the input from `cur`, prefixing the values already
/// decoded gives what it says from `start`.
pub open spec fn elems_congruent(s: Seq<u8>, start: int, done: Seq<SpecValue>, cur: int) -> bool {
    match spec_parse_elems(s, cur) {
        ParseStep::Found(vs, e2) => spec_parse_elems(s, start) == ParseStep::Found(done + vs, e2),
        ParseStep::Fail(e) => spec_parse_elems(s, start) == ParseStep::<Seq<SpecValue>>::Fail(e),
    }
}

/// The pair-loop counterpart of `elems_congruent`.
pub open spec fn pairs_congruent(
    s: Seq<u8>,
    start: int,
    done: Seq<(Seq<u8>, SpecValue)>,
    cur: int,
) -> bool {
    match spec_parse_pairs(s, cur) {
        ParseStep::Found(ps, e2) => spec_parse_pairs(s, start) == ParseStep::Found(done + ps, e2),
        ParseStep::Fail(e) => spec_parse_pairs(s, start) == ParseStep::<
            Seq<(Seq<u8>, SpecValue)>,
        >::Fail(e),
    }
}

/// The top-level counterpart of `elems_congruent`.
pub open spec fn tops_congruent(s: Seq<u8>, start: int, done: Seq<SpecValue>, cur: int) -> bool {
    match spec_parse_tops(s, cur) {
        ParseStep::Found(vs, e2) => spec_parse_tops(s, start) == ParseStep::Found(done + vs, e2),
        ParseStep::Fail(e) => spec_parse_tops(s, start) == ParseStep::<Seq<SpecValue>>::Fail(e),
    }
}

/// Decodes the value at `pos`, dispatching on the leading byte.
pub fn bencode(bytes: &[u8], pos: usize) -> (r: Result<(Bencode, usize), ParseError>)
    ensures
        (match r {
            Ok((v, end)) => spec_parse_value(bytes@, pos as int) == ParseStep::Found(
                v@,
                end as int,
            ) && pos < end <= bytes@.len(),
            Err(e) => spec_parse_value(bytes@, pos as int) == ParseStep::<SpecValue>::Fail(e),
        }),
    decreases bytes@.len() - pos, 2int,
{
    let n = bytes.len();
    if pos >= n {
        return Err(ParseError::TruncatedInput);
    }
    let b = bytes[pos];
    if b == 105 {  // 'i'
        match bint(bytes, pos) {
            Ok((i, end)) => Ok((Bencode::BInt(i), end)),
            Err(e) => Err(e),
        }
    } else if 48 <= b && b <= 57 {  // digit
        match bstring(bytes, pos) {
            Ok((s, end)) => Ok((Bencode::BString(s), end)),
            Err(e) => Err(e),
        }
    } else if b == 108 {  // 'l'
        match blist(bytes, pos) {
            Ok((l, end)) => Ok((Bencode::BList(l), end)),
            Err(e) => Err(e),
        }
    } else if b == 100 {  // 'd'
        match bdict(bytes, pos) {
            Ok((ps, end)) => Ok((Bencode::BDict(ps), end)),
            Err(e) => Err(e),
        }
    } else {
        Err(ParseError::MalformedToken)
    }
}

/// Decodes the list at `pos`: `l`, zero or more values, `e`.
#[verifier::loop_isolation(false)]
pub fn blist(bytes: &[u8], pos: usize) -> (r: Result<(Vec<Bencode>, usize), ParseError>)
    ensures
        (match r {
            Ok((l, end)) => spec_parse_list(bytes@, pos as int) == ParseStep::Found(
                SpecValue::List(views_of(l@)),
                end as int,
            ) && pos < end <= bytes@.len(),
            Err(e) => spec_parse_list(bytes@, pos as int) == ParseStep::<SpecValue>::Fail(e),
        }),
    decreases bytes@.len() - pos, 1int,
{
    let n = bytes.len();
    if pos >= n {
        return Err(ParseError::TruncatedInput);
    }
    if bytes[pos] != 108 {  // 'l'
        return Err(ParseError::MalformedToken);
    }
    let mut items: Vec<Bencode> = Vec::new();
    let mut cur: usize = pos + 1;
    proof {
        assert(views_of(items@) =~= Seq::<SpecValue>::empty());
    }
    loop
        invariant
            pos < cur <= n == bytes@.len(),
            elems_congruent(bytes@, pos + 1, views_of(items@), cur as int),
        decreases n - cur,
    {
        if cur >= n {
            return Err(ParseError::TruncatedInput);
        }
        if bytes[cur] == 101 {  // 'e'
            proof {
                assert(views_of(items@) + Seq::<SpecValue>::empty() =~= views_of(items@));
            }
            return Ok((items, cur + 1));
        }
        let ghost prev_views = views_of(items@);
        match bencode(bytes, cur) {
            Ok((v, end)) => {
                items.push(v);
                proof {
                    assert(views_of(items@) =~= prev_views + seq![v@]);
                    assert forall|vs: Seq<SpecValue>| true implies prev_views + (seq![v@] + vs)
                        =~= views_of(items@) + vs by {}
                }
                cur = end;
            },
            Err(e) => {
                return Err(e);
            },
        }
    }
}

/// Decodes the dictionary at `pos`: `d`, zero or more key/value
/// pairs, `e`.  Duplicate keys collapse, the last pair winning.
#[verifier::loop_isolation(false)]
pub fn bdict(bytes: &[u8], pos: usize) -> (r: Result<(Vec<(Vec<u8>, Bencode)>, usize), ParseError>)
    ensures
        (match r {
            Ok((ps, end)) => spec_parse_dict(bytes@, pos as int) == ParseStep::Found(
                SpecValue::Dict(views_of_pairs(ps@)),
                end as int,
            ) && pos < end <= bytes@.len() && unique_keys(views_of_pairs(ps@)),
            Err(e) => spec_parse_dict(bytes@, pos as int) == ParseStep::<SpecValue>::Fail(e),
        }),
    decreases bytes@.len() - pos, 1int,
{
    let n = bytes.len();
    if pos >= n {
        return Err(ParseError::TruncatedInput);
    }
    if bytes[pos] != 100 {  // 'd'
        return Err(ParseError::MalformedToken);
    }
    let mut raw: Vec<(Vec<u8>, Bencode)> = Vec::new();
    let mut cur: usize = pos + 1;
    proof {
        assert(views_of_pairs(raw@) =~= Seq::<(Seq<u8>, SpecValue)>::empty());
    }
    loop
        invariant
            pos < cur <= n == bytes@.len(),
            pairs_congruent(bytes@, pos + 1, views_of_pairs(raw@), cur as int),
        decreases n - cur,
    {
        if cur >= n {
            return Err(ParseError::TruncatedInput);
        }
        if bytes[cur] == 101 {  // 'e'
            proof {
                let done = views_of_pairs(raw@);
                assert(done + Seq::<(Seq<u8>, SpecValue)>::empty() =~= done);
            }
            let m = pairs_to_map(raw);
            return Ok((m, cur + 1));
        }
        if !(48 <= bytes[cur] && bytes[cur] <= 57) {
            return Err(ParseError::MalformedToken);
        }
        let ghost prev_views = views_of_pairs(raw@);
        let (k, kend) = match bstring(bytes, cur) {
            Ok(p) => p,
            Err(e) => {
                return Err(e);
            },
        };
        match bencode(bytes, kend) {
            Ok((v, vend)) => {
                raw.push((k, v));
                proof {
                    assert(views_of_pairs(raw@) =~= prev_views + seq![(k@, v@)]);
                    assert forall|ps: Seq<(Seq<u8>, SpecValue)>| true implies prev_views + (
                    seq![(k@, v@)] + ps) =~= views_of_pairs(raw@) + ps by {}
                }
                cur = vend;
            },
            Err(e) => {
                return Err(e);
            },
        }
    }
}

/// Decodes the concatenation of values that runs from `pos` to the
/// end of the buffer.
#[verifier::loop_isolation(false)]
pub fn bencodes(bytes: &[u8], pos: usize) -> (r: Result<(Vec<Bencode>, usize), ParseError>)
    ensures
        (match r {
            Ok((vs, end)) => spec_parse_tops(bytes@, pos as int) == ParseStep::Found(
                views_of(vs@),
                end as int,
            ) && pos <= end,
            Err(e) => spec_parse_tops(bytes@, pos as int) == ParseStep::<Seq<SpecValue>>::Fail(e),
        }),
{
    let n = bytes.len();
    let mut items: Vec<Bencode> = Vec::new();
    proof {
        assert(views_of(items@) =~= Seq::<SpecValue>::empty());
    }
    if pos >= n {
        return Ok((items, pos));
    }
    let mut cur: usize = pos;
    loop
        invariant
            pos <= cur <= n == bytes@.len(),
            tops_congruent(bytes@, pos as int, views_of(items@), cur as int),
        decreases n - cur,
    {
        if cur >= n {
            proof {
                assert(views_of(items@) + Seq::<SpecValue>::empty() =~= views_of(items@));
            }
            return Ok((items, cur));
        }
        let ghost prev_views = views_of(items@);
        match bencode(bytes, cur) {
            Ok((v, end)) => {
                items.push(v);
                proof {
                    assert(views_of(items@) =~= prev_views + seq![v@]);
                    assert forall|vs: Seq<SpecValue>| true implies prev_views + (seq![v@] + vs)
                        =~= views_of(items@) + vs by {}
                }
                cur = end;
            },
            Err(e) => {
                return Err(e);
            },
        }
    }
}

/// Decodes a whole buffer: the sequence of top-level values in
/// encounter order, or the first failure met in a single
/// left-to-right pass.
pub fn parse(bytes: &[u8]) -> (r: Result<Vec<Bencode>, ParseError>)
    ensures
        (match r {
            Ok(vs) => spec_decode(bytes@) == Ok::<Seq<SpecValue>, ParseError>(views_of(vs@))
                && wf_values(views_of(vs@)),
            Err(e) => spec_decode(bytes@) == Err::<Seq<SpecValue>, ParseError>(e),
        }),
{
    proof {
        lemma_decode_wf(bytes@);
    }
    match bencodes(bytes, 0) {
        Ok((vs, _end)) => Ok(vs),
        Err(e) => Err(e),
    }
}

/// The digit bytes of a non-negative number, most significant first.
pub open spec fn spec_nat_digits(n: int) -> Seq<u8>
    recommends
        n >= 0,
    decreases n,
{
    if n < 10 {
        seq![(48 + n) as u8]
    } else {
        spec_nat_digits(n / 10).push((48 + n % 10) as u8)
    }
}

/// The encoding of a byte string: its length in decimal, `:`, then
/// the bytes themselves.
pub open spec fn spec_bstring_enc(s: Seq<u8>) -> Seq<u8> {
    spec_nat_digits(s.len() as int) + seq![58u8] + s
}

/// The canonical encoding of an integer: `i`, a `-` when negative,
/// the decimal digits, `e`.
pub open spec fn spec_int_enc(i: int) -> Seq<u8> {
    if i < 0 {
        seq![105u8, 45u8] + spec_nat_digits(-i) + seq![101u8]
    } else {
        seq![105u8] + spec_nat_digits(i) + seq![101u8]
    }
}

proof fn lemma_nat_digits_wf(n: int)
    requires
        n >= 0,
    ensures
        spec_nat_digits(n).len() >= 1,
        forall|i: int| 0 <= i < spec_nat_digits(n).len() ==> is_digit(#[trigger] spec_nat_digits(n)[i]),
        (spec_nat_digits(n)[0] == 48) == (n == 0),
    decreases n,
{
    vstd::arithmetic::div_mod::lemma_fundamental_div_mod(n, 10);
    if n >= 10 {
        lemma_nat_digits_wf(n / 10);
    }
}

proof fn lemma_digits_value_congruent(s1: Seq<u8>, s2: Seq<u8>, pos1: int, pos2: int, len: int)
    requires
        forall|i: int| 0 <= i < len ==> #[trigger] s1[pos1 + i] == s2[pos2 + i],
    ensures
        digits_value(s1, pos1, pos1 + len) == digits_value(s2, pos2, pos2 + len),
    decreases len,
{
    if len > 0 {
        lemma_digits_value_congruent(s1, s2, pos1, pos2, len - 1);
        assert(s1[pos1 + (len - 1)] == s2[pos2 + (len - 1)]);
    }
}

proof fn lemma_digits_value_inverse(n: int)
    requires
        n >= 0,
    ensures
        digits_value(spec_nat_digits(n), 0, spec_nat_digits(n).len() as int) == n,
    decreases n,
{
    let d = spec_nat_digits(n);
    if n < 10 {
        assert(digits_value(d, 0, 0) == 0);
        assert(digits_value(d, 0, 1) == d[0] - 48);
    } else {
        lemma_digits_value_inverse(n / 10);
        let p = spec_nat_digits(n / 10);
        let k = d.len() as int;
        assert(d == p.push((48 + n % 10) as u8));
        assert(forall|i: int| 0 <= i < p.len() ==> #[trigger] d[0 + i] == p[0 + i]);
        lemma_digits_value_congruent(d, p, 0, 0, p.len() as int);
        vstd::arithmetic::div_mod::lemma_fundamental_div_mod(n, 10);
        assert(d[k - 1] == (48 + n % 10) as u8);
        assert(digits_value(d, 0, k) == digits_value(d, 0, k - 1) * 10 + (d[k - 1] - 48));
    }
}

proof fn lemma_digit_run_exact(s: Seq<u8>, pos: int, end: int)
    requires
        0 <= pos <= end <= s.len(),
        forall|i: int| pos <= i < end ==> is_digit(s[i]),
        end < s.len() ==> !is_digit(s[end]),
    ensures
        digit_run_len(s, pos) == end - pos,
    decreases end - pos,
{
    if pos < end {
        lemma_digit_run_exact(s, pos + 1, end);
    }
}

/// Decoding the encoding `n:s` of any byte string `s` of length `n`
/// yields exactly that byte string, with no input left over.
pub proof fn lemma_bstring_roundtrip(s: Seq<u8>)
    ensures
        spec_decode(spec_bstring_enc(s)) == Ok::<Seq<SpecValue>, ParseError>(
            seq![SpecValue::Bytes(s)],
        ),
{
    let enc = spec_bstring_enc(s);
    let ln = s.len() as int;
    let d = spec_nat_digits(ln);
    let k = d.len() as int;
    lemma_nat_digits_wf(ln);
    assert(enc.len() == k + 1 + ln);
    assert(forall|i: int| 0 <= i < k ==> #[trigger] enc[0 + i] == d[0 + i]);
    assert(enc[k] == 58);
    lemma_digit_run_exact(enc, 0, k);
    lemma_digits_value_congruent(enc, d, 0, 0, k);
    lemma_digits_value_inverse(ln);
    assert(digits_value(enc, 0, k) == ln);
    assert(spec_parse_bstring(enc, 0) == ParseStep::Found(
        enc.subrange(k + 1, enc.len() as int),
        enc.len() as int,
    ));
    assert(enc.subrange(k + 1, enc.len() as int) =~= s);
    assert(is_digit(enc[0]) && enc[0] != 105);
    assert(spec_parse_value(enc, 0) == ParseStep::Found(SpecValue::Bytes(s), enc.len() as int));
    assert(spec_parse_tops(enc, enc.len() as int) == ParseStep::Found(
        Seq::<SpecValue>::empty(),
        enc.len() as int,
    ));
    assert(seq![SpecValue::Bytes(s)] + Seq::<SpecValue>::empty() =~= seq![SpecValue::Bytes(s)]);
    assert(spec_parse_tops(enc, 0) == ParseStep::Found(seq![SpecValue::Bytes(s)], enc.len() as int));
}

/// Decoding the canonical encoding `i{i}e` of any signed 64-bit
/// integer yields exactly that integer, with no input left over.
pub proof fn lemma_int_roundtrip(i: int)
    requires
        -0x8000_0000_0000_0000 <= i <= 0x7fff_ffff_ffff_ffff,
    ensures
        spec_decode(spec_int_enc(i)) == Ok::<Seq<SpecValue>, ParseError>(seq![SpecValue::Int(i)]),
{
    let enc = spec_int_enc(i);
    let m = if i < 0 {
        -i
    } else {
        i
    };
    let d = spec_nat_digits(m);
    let k = d.len() as int;
    let dstart: int = if i < 0 {
        2
    } else {
        1
    };
    lemma_nat_digits_wf(m);
    assert(enc.len() == dstart + k + 1);
    assert(enc[0] == 105);
    assert(i < 0 ==> enc[1] == 45);
    assert(forall|j: int| 0 <= j < k ==> #[trigger] enc[dstart + j] == d[0 + j]);
    assert(enc[dstart + k] == 101);
    lemma_digit_run_exact(enc, dstart, dstart + k);
    lemma_digits_value_congruent(enc, d, dstart, 0, k);
    lemma_digits_value_inverse(m);
    assert(digits_value(enc, dstart, dstart + k) == m);
    assert(i >= 0 ==> enc[1] != 45);
    assert(enc[dstart] == d[0]);
    assert(i < 0 ==> m > 0);
    assert(spec_parse_int(enc, 0) == ParseStep::Found(SpecValue::Int(i), enc.len() as int));
    assert(is_digit(101u8) == false);
    assert(spec_parse_value(enc, 0) == ParseStep::Found(SpecValue::Int(i), enc.len() as int));
    assert(spec_parse_tops(enc, enc.len() as int) == ParseStep::Found(
        Seq::<SpecValue>::empty(),
        enc.len() as int,
    ));
    assert(seq![SpecValue::Int(i)] + Seq::<SpecValue>::empty() =~= seq![SpecValue::Int(i)]);
    assert(spec_parse_tops(enc, 0) == ParseStep::Found(seq![SpecValue::Int(i)], enc.len() as int));
}

/// Decoding depends on nothing but the bytes themselves: the same
/// buffer decodes to the same tree, so re-decoding an unchanged
/// buffer yields a structurally equal result.
pub proof fn lemma_decode_deterministic(s1: Seq<u8>, s2: Seq<u8>)
    requires
        s1 == s2,
    ensures
        spec_decode(s1) == spec_decode(s2),
{
}

/// Pairwise distinct keys: the invariant of a decoded dictionary.
pub open spec fn unique_keys(ps: Seq<(Seq<u8>, SpecValue)>) -> bool {
    forall|i: int, j: int| 0 <= i < j < ps.len() ==> ps[i].0 != ps[j].0
}

proof fn lemma_insert_pair_keys(acc: Seq<(Seq<u8>, SpecValue)>, k: Seq<u8>, v: SpecValue, j: int)
    requires
        0 <= j < spec_insert_pair(acc, k, v).len(),
    ensures
        spec_insert_pair(acc, k, v)[j].0 == k || exists|i: int|
            0 <= i < acc.len() && acc[i].0 == #[trigger] spec_insert_pair(acc, k, v)[j].0,
    decreases acc.len(),
{
    let r = spec_insert_pair(acc, k, v);
    if acc.len() == 0 {
    } else if acc[0].0 == k {
        if j > 0 {
            assert(r[j] == acc.drop_first()[j - 1]);
            assert(acc[j].0 == r[j].0);
        }
    } else {
        if j == 0 {
            assert(r[0] == acc[0]);
            assert(acc[0].0 == r[0].0);
        } else {
            lemma_insert_pair_keys(acc.drop_first(), k, v, j - 1);
            let sub = spec_insert_pair(acc.drop_first(), k, v);
            assert(r[j] == sub[j - 1]);
            if sub[j - 1].0 != k {
                let i0 = choose|i: int|
                    0 <= i < acc.drop_first().len() && acc.drop_first()[i].0 == sub[j - 1].0;
                assert(acc[i0 + 1].0 == r[j].0);
            }
        }
    }
}

proof fn lemma_insert_pair_unique(acc: Seq<(Seq<u8>, SpecValue)>, k: Seq<u8>, v: SpecValue)
    requires
        unique_keys(acc),
    ensures
        unique_keys(spec_insert_pair(acc, k, v)),
    decreases acc.len(),
{
    let r = spec_insert_pair(acc, k, v);
    if acc.len() == 0 {
    } else if acc[0].0 == k {
        assert forall|i: int, j: int| 0 <= i < j < r.len() implies r[i].0 != r[j].0 by {
            if i == 0 {
                assert(r[j] == acc.drop_first()[j - 1]);
                assert(acc[j].0 != acc[0].0);
            } else {
                assert(r[i] == acc.drop_first()[i - 1]);
                assert(r[j] == acc.drop_first()[j - 1]);
                assert(acc[i].0 != acc[j].0);
            }
        }
    } else {
        assert(unique_keys(acc.drop_first())) by {
            assert forall|i: int, j: int|
                0 <= i < j < acc.drop_first().len() implies acc.drop_first()[i].0
                != acc.drop_first()[j].0 by {
                assert(acc[i + 1].0 != acc[j + 1].0);
            }
        }
        lemma_insert_pair_unique(acc.drop_first(), k, v);
        let sub = spec_insert_pair(acc.drop_first(), k, v);
        assert forall|i: int, j: int| 0 <= i < j < r.len() implies r[i].0 != r[j].0 by {
            if i == 0 {
                assert(r[j] == sub[j - 1]);
                lemma_insert_pair_keys(acc.drop_first(), k, v, j - 1);
                if sub[j - 1].0 != k {
                    let i0 = choose|i2: int|
                        0 <= i2 < acc.drop_first().len() && acc.drop_first()[i2].0 == sub[j - 1].0;
                    assert(acc[i0 + 1].0 != acc[0].0);
                }
            } else {
                assert(r[i] == sub[i - 1]);
                assert(r[j] == sub[j - 1]);
            }
        }
    }
}

/// A decoded dictionary's pairs carry pairwise distinct keys,
/// whatever the raw pair list held.
pub proof fn lemma_dedup_unique(ps: Seq<(Seq<u8>, SpecValue)>)
    ensures
        unique_keys(spec_dedup(ps)),
    decreases ps.len(),
{
    if ps.len() > 0 {
        lemma_dedup_unique(ps.drop_last());
        lemma_insert_pair_unique(spec_dedup(ps.drop_last()), ps.last().0, ps.last().1);
    }
}

/// A well-formed value: every dictionary node in the tree, at any
/// depth, carries pairwise distinct keys.
pub open spec fn wf_value(v: SpecValue) -> bool
    decreases v,
{
    match v {
        SpecValue::Int(_) => true,
        SpecValue::Bytes(_) => true,
        SpecValue::List(l) => wf_values(l),
        SpecValue::Dict(ps) => unique_keys(ps) && wf_pairs(ps),
    }
}

/// Well-formedness of each value of a sequence.
pub open spec fn wf_values(vs: Seq<SpecValue>) -> bool
    decreases vs,
{
    if vs.len() == 0 {
        true
    } else {
        wf_value(vs[0]) && wf_values(vs.drop_first())
    }
}

/// Well-formedness of each value of a pair list.
pub open spec fn wf_pairs(ps: Seq<(Seq<u8>, SpecValue)>) -> bool
    decreases ps,
{
    if ps.len() == 0 {
        true
    } else {
        wf_value(ps[0].1) && wf_pairs(ps.drop_first())
    }
}

proof fn lemma_wf_values_index(vs: Seq<SpecValue>)
    ensures
        wf_values(vs) <==> (forall|i: int| 0 <= i < vs.len() ==> wf_value(#[trigger] vs[i])),
    decreases vs.len(),
{
    if vs.len() > 0 {
        lemma_wf_values_index(vs.drop_first());
        assert forall|i: int| 0 <= i < vs.drop_first().len() implies vs.drop_first()[i] == vs[i
            + 1] by {}
        if wf_values(vs) {
            assert forall|i: int| 0 <= i < vs.len() implies wf_value(vs[i]) by {
                if i > 0 {
                    assert(vs[i] == vs.drop_first()[i - 1]);
                }
            }
        }
    }
}

proof fn lemma_wf_pairs_index(ps: Seq<(Seq<u8>, SpecValue)>)
    ensures
        wf_pairs(ps) <==> (forall|i: int| 0 <= i < ps.len() ==> wf_value(#[trigger] ps[i].1)),
    decreases ps.len(),
{
    if ps.len() > 0 {
        lemma_wf_pairs_index(ps.drop_first());
        if wf_pairs(ps) {
            assert forall|i: int| 0 <= i < ps.len() implies wf_value(ps[i].1) by {
                if i > 0 {
                    assert(ps[i] == ps.drop_first()[i - 1]);
                }
            }
        } else {
            assert(ps[0] == ps[0]);
        }
    }
}

proof fn lemma_insert_pair_elems(acc: Seq<(Seq<u8>, SpecValue)>, k: Seq<u8>, v: SpecValue, j: int)
    requires
        0 <= j < spec_insert_pair(acc, k, v).len(),
    ensures
        spec_insert_pair(acc, k, v)[j] == (k, v) || exists|i: int|
            0 <= i < acc.len() && acc[i] == #[trigger] spec_insert_pair(acc, k, v)[j],
    decreases acc.len(),
{
    let r = spec_insert_pair(acc, k, v);
    if acc.len() == 0 {
    } else if acc[0].0 == k {
        if j > 0 {
            assert(r[j] == acc.drop_first()[j - 1]);
            assert(acc[j] == r[j]);
        }
    } else {
        if j == 0 {
            assert(acc[0] == r[0]);
        } else {
            lemma_insert_pair_elems(acc.drop_first(), k, v, j - 1);
            let sub = spec_insert_pair(acc.drop_first(), k, v);
            assert(r[j] == sub[j - 1]);
            if sub[j - 1] != (k, v) {
                let i0 = choose|i: int|
                    0 <= i < acc.drop_first().len() && acc.drop_first()[i] == sub[j - 1];
                assert(acc[i0 + 1] == r[j]);
            }
        }
    }
}

proof fn lemma_dedup_elems(ps: Seq<(Seq<u8>, SpecValue)>, j: int)
    requires
        0 <= j < spec_dedup(ps).len(),
    ensures
        exists|i: int| 0 <= i < ps.len() && ps[i] == #[trigger] spec_dedup(ps)[j],
    decreases ps.len(),
{
    let pre = spec_dedup(ps.drop_last());
    lemma_insert_pair_elems(pre, ps.last().0, ps.last().1, j);
    if spec_dedup(ps)[j] == (ps.last().0, ps.last().1) {
        assert(ps[ps.len() - 1] == spec_dedup(ps)[j]);
    } else {
        let i0 = choose|i: int| 0 <= i < pre.len() && pre[i] == spec_dedup(ps)[j];
        lemma_dedup_elems(ps.drop_last(), i0);
        let i1 = choose|i: int|
            0 <= i < ps.drop_last().len() && ps.drop_last()[i] == spec_dedup(ps.drop_last())[i0];
        assert(ps[i1] == spec_dedup(ps)[j]);
    }
}

proof fn lemma_parse_value_wf(s: Seq<u8>, pos: int)
    ensures
        spec_parse_value(s, pos) matches ParseStep::Found(v, end) ==> wf_value(v),
    decreases s.len() - pos, 2int,
{
    if pos < s.len() {
        if s[pos] == 108 {
            lemma_parse_list_wf(s, pos);
        } else if s[pos] == 100 {
            lemma_parse_dict_wf(s, pos);
        }
    }
}

proof fn lemma_parse_list_wf(s: Seq<u8>, pos: int)
    ensures
        spec_parse_list(s, pos) matches ParseStep::Found(v, end) ==> wf_value(v),
    decreases s.len() - pos, 1int,
{
    if pos < s.len() && s[pos] == 108 {
        lemma_parse_elems_wf(s, pos + 1);
    }
}

proof fn lemma_parse_dict_wf(s: Seq<u8>, pos: int)
    ensures
        spec_parse_dict(s, pos) matches ParseStep::Found(v, end) ==> wf_value(v),
    decreases s.len() - pos, 1int,
{
    if pos < s.len() && s[pos] == 100 {
        lemma_parse_pairs_wf(s, pos + 1);
        match spec_parse_pairs(s, pos + 1) {
            ParseStep::Found(ps, end) => {
                lemma_dedup_unique(ps);
                lemma_wf_pairs_index(ps);
                assert forall|j: int| 0 <= j < spec_dedup(ps).len() implies wf_value(
                    #[trigger] spec_dedup(ps)[j].1,
                ) by {
                    lemma_dedup_elems(ps, j);
                    let i0 = choose|i: int| 0 <= i < ps.len() && ps[i] == spec_dedup(ps)[j];
                    assert(wf_value(ps[i0].1));
                }
                lemma_wf_pairs_index(spec_dedup(ps));
            },
            ParseStep::Fail(_) => {},
        }
    }
}

proof fn lemma_parse_elems_wf(s: Seq<u8>, pos: int)
    ensures
        spec_parse_elems(s, pos) matches ParseStep::Found(vs, end) ==> wf_values(vs),
    decreases s.len() - pos, 3int,
{
    if pos < s.len() && s[pos] != 101 {
        lemma_parse_value_wf(s, pos);
        match spec_parse_value(s, pos) {
            ParseStep::Found(v, end) => {
                if pos < end <= s.len() {
                    lemma_parse_elems_wf(s, end);
                    match spec_parse_elems(s, end) {
                        ParseStep::Found(vs, e2) => {
                            lemma_wf_values_index(vs);
                            lemma_wf_values_index(seq![v] + vs);
                            assert forall|i: int| 0 <= i < (seq![v] + vs).len() implies wf_value(
                                #[trigger] (seq![v] + vs)[i],
                            ) by {
                                if i > 0 {
                                    assert((seq![v] + vs)[i] == vs[i - 1]);
                                }
                            }
                        },
                        ParseStep::Fail(_) => {},
                    }
                }
            },
            ParseStep::Fail(_) => {},
        }
    }
}

proof fn lemma_parse_pairs_wf(s: Seq<u8>, pos: int)
    ensures
        spec_parse_pairs(s, pos) matches ParseStep::Found(ps, end) ==> wf_pairs(ps),
    decreases s.len() - pos, 3int,
{
    if pos < s.len() && s[pos] != 101 {
        match spec_parse_bstring(s, pos) {
            ParseStep::Found(kb, kend) => {
                if pos < kend <= s.len() {
                    lemma_parse_value_wf(s, kend);
                    match spec_parse_value(s, kend) {
                        ParseStep::Found(v, vend) => {
                            if kend < vend <= s.len() {
                                lemma_parse_pairs_wf(s, vend);
                                match spec_parse_pairs(s, vend) {
                                    ParseStep::Found(ps, e2) => {
                                        lemma_wf_pairs_index(ps);
                                        lemma_wf_pairs_index(seq![(kb, v)] + ps);
                                        assert forall|i: int|
                                            0 <= i < (seq![(kb, v)] + ps).len() implies wf_value(
                                            #[trigger] (seq![(kb, v)] + ps)[i].1,
                                        ) by {
                                            if i > 0 {
                                                assert((seq![(kb, v)] + ps)[i] == ps[i - 1]);
                                            }
                                        }
                                    },
                                    ParseStep::Fail(_) => {},
                                }
                            }
                        },
                        ParseStep::Fail(_) => {},
                    }
                }
            },
            ParseStep::Fail(_) => {},
        }
    }
}

proof fn lemma_parse_tops_wf(s: Seq<u8>, pos: int)
    ensures
        spec_parse_tops(s, pos) matches ParseStep::Found(vs, end) ==> wf_values(vs),
    decreases s.len() - pos, 3int,
{
    if pos < s.len() {
        lemma_parse_value_wf(s, pos);
        match spec_parse_value(s, pos) {
            ParseStep::Found(v, end) => {
                if pos < end <= s.len() {
                    lemma_parse_tops_wf(s, end);
                    match spec_parse_tops(s, end) {
                        ParseStep::Found(vs, e2) => {
                            lemma_wf_values_index(vs);
                            lemma_wf_values_index(seq![v] + vs);
                            assert forall|i: int| 0 <= i < (seq![v] + vs).len() implies wf_value(
                                #[trigger] (seq![v] + vs)[i],
                            ) by {
                                if i > 0 {
                                    assert((seq![v] + vs)[i] == vs[i - 1]);
                                }
                            }
                        },
                        ParseStep::Fail(_) => {},
                    }
                }
            },
            ParseStep::Fail(_) => {},
        }
    }
}

/// The structural invariant of decoding: every tree that a successful
/// decode yields is well-formed, so each dictionary node in it, at
/// any depth, carries pairwise distinct keys.
pub proof fn lemma_decode_wf(s: Seq<u8>)
    ensures
        spec_decode(s) matches Ok(vs) ==> wf_values(vs),
{
    lemma_parse_tops_wf(s, 0);
}

} // verus!
