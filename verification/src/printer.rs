//! The Bencode pretty-printer: renders a tree of values as indented text.
//!
//! Each top-level value becomes one bracketed block.  An integer
//! renders as its decimal value, a byte string as its UTF-8 text when
//! it decodes and as a byte-count placeholder (`[N bytes]`) when it
//! does not; the same policy applies to dictionary keys, so the
//! printer is total and never fails.  Nesting adds one space of
//! indentation per level, saturating at 255.

use vstd::prelude::*;
use vstd::string::StringExecFns;
use vstd::utf8::decode_utf8;
use vstd::utf8::valid_utf8;

use crate::parser::Bencode;
use crate::parser::SpecValue;
use crate::parser::views_of;
use crate::parser::views_of_pairs;

verus! {

/// The sequence of `n` spaces that begins every rendered line at
/// nesting depth `n`.
pub open spec fn spec_indent(n: nat) -> Seq<char> {
    Seq::new(n, |i: int| ' ')
}

/// Indentation one level deeper, capped so that the depth fits a byte.
pub open spec fn spec_next_level(level: nat) -> nat {
    if level < 255 {
        level + 1
    } else {
        255
    }
}

/// The character for a single decimal digit.
pub open spec fn spec_digit_char(d: int) -> char
    recommends
        0 <= d <= 9,
{
    ((48 + d) as u8) as char
}

/// The decimal digits of a non-negative number, most significant
/// first.
pub open spec fn spec_nat_decimal(n: int) -> Seq<char>
    recommends
        n >= 0,
    decreases n,
{
    if n < 10 {
        seq![spec_digit_char(n)]
    } else {
        spec_nat_decimal(n / 10).push(spec_digit_char(n % 10))
    }
}

/// The decimal rendering of a signed number.
pub open spec fn spec_decimal(i: int) -> Seq<char> {
    if i < 0 {
        seq!['-'] + spec_nat_decimal(-i)
    } else {
        spec_nat_decimal(i)
    }
}

/// How a byte string shows on a line: its text when it is valid
/// UTF-8, a byte-count placeholder otherwise.
pub open spec fn spec_bytes_text(b: Seq<u8>) -> Seq<char> {
    if valid_utf8(b) {
        decode_utf8(b)
    } else {
        seq!['['] + spec_nat_decimal(b.len() as int) + seq![' ', 'b', 'y', 't', 'e', 's', ']']
    }
}

/// The rendering of one value, already inside its block.
pub open spec fn spec_render_value(v: SpecValue, level: nat) -> Seq<char>
    decreases v,
{
    match v {
        SpecValue::Int(i) => spec_indent(level) + spec_decimal(i) + seq!['\n'],
        SpecValue::Bytes(b) => spec_indent(level) + spec_bytes_text(b) + seq!['\n'],
        SpecValue::List(l) => spec_render_blocks(l, level),
        SpecValue::Dict(ps) => spec_render_pairs(ps, level),
    }
}

/// The rendering of a sequence of values, one bracketed block each.
pub open spec fn spec_render_blocks(vs: Seq<SpecValue>, level: nat) -> Seq<char>
    decreases vs,
{
    if vs.len() == 0 {
        Seq::empty()
    } else {
        spec_indent(level) + seq!['[', '\n'] + spec_render_value(vs[0], spec_next_level(level))
            + spec_indent(level) + seq![']', '\n'] + spec_render_blocks(vs.drop_first(), level)
    }
}

/// The rendering of a dictionary's pairs: a `key =>` line, then the
/// value one level deeper.
pub open spec fn spec_render_pairs(ps: Seq<(Seq<u8>, SpecValue)>, level: nat) -> Seq<char>
    decreases ps,
{
    if ps.len() == 0 {
        Seq::empty()
    } else {
        spec_indent(level) + spec_bytes_text(ps[0].0) + seq![' ', '=', '>', '\n']
            + spec_render_value(ps[0].1, spec_next_level(level)) + spec_render_pairs(
            ps.drop_first(),
            level,
        )
    }
}

/// One unit of indentation per nesting level, as executable code.
pub fn indent(n: u8) -> (r: String)
    ensures
        r@ == spec_indent(n as nat),
{
    let mut s = String::new();
    let mut i: u8 = 0;
    while i < n
        invariant
            i <= n,
            s@ == spec_indent(i as nat),
        decreases n - i,
    {
        s.append(" ");
        proof {
            reveal_strlit(" ");
            assert(s@ =~= spec_indent((i + 1) as nat));
        }
        i = i + 1;
    }
    s
}

/// Relies on str::from_utf8, which succeeds exactly on the byte
/// sequences that are valid UTF-8 and yields the characters they
/// encode; vstd's `valid_utf8` and `decode_utf8` state the same
/// encoding, as its specification of str::from_utf8_unchecked shows.
#[verifier::external_body]
fn utf8_to_string(bytes: &[u8]) -> (r: Option<String>)
    ensures
        (match r {
            Some(t) => valid_utf8(bytes@) && t@ == decode_utf8(bytes@),
            None => !valid_utf8(bytes@),
        }),
{
    match std::str::from_utf8(bytes) {
        Ok(t) => Some(t.to_string()),
        Err(_) => None,
    }
}

/// The one-character string for a decimal digit.
fn digit_str(d: u64) -> (r: &'static str)
    requires
        d < 10,
    ensures
        r@ == seq![spec_digit_char(d as int)],
{
    proof {
        reveal_strlit("0");
        reveal_strlit("1");
        reveal_strlit("2");
        reveal_strlit("3");
        reveal_strlit("4");
        reveal_strlit("5");
        reveal_strlit("6");
        reveal_strlit("7");
        reveal_strlit("8");
        reveal_strlit("9");
    }
    if d == 0 {
        "0"
    } else if d == 1 {
        "1"
    } else if d == 2 {
        "2"
    } else if d == 3 {
        "3"
    } else if d == 4 {
        "4"
    } else if d == 5 {
        "5"
    } else if d == 6 {
        "6"
    } else if d == 7 {
        "7"
    } else if d == 8 {
        "8"
    } else {
        "9"
    }
}

/// The decimal digits of a non-negative number.
fn u64_to_decimal(n: u64) -> (r: String)
    ensures
        r@ == spec_nat_decimal(n as int),
    decreases n,
{
    if n < 10 {
        digit_str(n).to_owned()
    } else {
        let mut s = u64_to_decimal(n / 10);
        s.append(digit_str(n % 10));
        proof {
            assert(s@ =~= spec_nat_decimal(n as int));
        }
        s
    }
}

/// The decimal rendering of a signed number.
fn i64_to_decimal(i: i64) -> (r: String)
    ensures
        r@ == spec_decimal(i as int),
{
    if i >= 0 {
        u64_to_decimal(i as u64)
    } else {
        let mag: u64 = if i == i64::MIN {
            0x8000_0000_0000_0000u64
        } else {
            (-i) as u64
        };
        let mut s = "-".to_owned();
        proof {
            reveal_strlit("-");
        }
        s.append(u64_to_decimal(mag).as_str());
        proof {
            assert(s@ =~= spec_decimal(i as int));
        }
        s
    }
}

/// A byte string as one line's text: UTF-8 text, or the byte-count
/// placeholder.
fn bytes_text(s: &Vec<u8>) -> (r: String)
    ensures
        r@ == spec_bytes_text(s@),
{
    match utf8_to_string(s.as_slice()) {
        Some(t) => t,
        None => {
            let mut r = "[".to_owned();
            r.append(u64_to_decimal(s.len() as u64).as_str());
            r.append(" bytes]");
            proof {
                reveal_strlit("[");
                reveal_strlit(" bytes]");
                assert((" bytes]")@ =~= seq![' ', 'b', 'y', 't', 'e', 's', ']']);
                assert(r@ =~= spec_bytes_text(s@));
            }
            r
        },
    }
}

/// Renders a byte-string line: the text when the bytes decode as
/// UTF-8, the byte-count placeholder when they do not.
pub fn pp_bstring(s: &Vec<u8>, level: u8) -> (r: String)
    ensures
        r@ == spec_render_value(SpecValue::Bytes(s@), level as nat),
{
    let mut out = indent(level);
    out.append(bytes_text(s).as_str());
    out.append("\n");
    proof {
        reveal_strlit("\n");
        assert(out@ =~= spec_render_value(SpecValue::Bytes(s@), level as nat));
    }
    out
}

/// Renders a dictionary: one `key =>` line per pair, each value one
/// level deeper, pairs in their stored order.
#[verifier::loop_isolation(false)]
pub fn pp_dict(m: &Vec<(Vec<u8>, Bencode)>, level: u8) -> (r: String)
    ensures
        r@ == spec_render_pairs(views_of_pairs(m@), level as nat),
    decreases m@, 1int,
{
    let ghost pviews = views_of_pairs(m@);
    let ghost lvl = level as nat;
    let mut out = String::new();
    let mut i: usize = 0;
    let lvl2 = if level < 255 {
        level + 1
    } else {
        255
    };
    proof {
        assert(pviews.skip(0) =~= pviews);
        assert(Seq::<char>::empty() + spec_render_pairs(pviews, lvl) =~= spec_render_pairs(
            pviews,
            lvl,
        ));
    }
    while i < m.len()
        invariant
            i <= m@.len(),
            spec_render_pairs(pviews, lvl) == out@ + spec_render_pairs(
                pviews.skip(i as int),
                lvl,
            ),
        decreases m@.len() - i,
    {
        let ghost prev = out@;
        let ind = indent(level);
        out.append(ind.as_str());
        out.append(bytes_text(&m[i].0).as_str());
        out.append(" =>\n");
        let rendered = pp_bencode(&m[i].1, lvl2);
        out.append(rendered.as_str());
        proof {
            reveal_strlit(" =>\n");
            let rest = pviews.skip(i as int);
            assert(rest[0] == pviews[i as int]);
            assert(pviews[i as int] == (m@[i as int].0@, m@[i as int].1@));
            assert(rest.drop_first() =~= pviews.skip(i + 1));
            assert((" =>\n")@ =~= seq![' ', '=', '>', '\n']);
            assert(spec_render_pairs(rest, lvl) == spec_indent(lvl) + spec_bytes_text(rest[0].0)
                + seq![' ', '=', '>', '\n'] + spec_render_value(rest[0].1, spec_next_level(lvl))
                + spec_render_pairs(rest.drop_first(), lvl));
            assert(out@ =~= prev + (spec_indent(lvl) + spec_bytes_text(rest[0].0)
                + seq![' ', '=', '>', '\n'] + spec_render_value(rest[0].1, spec_next_level(lvl))));
            assert(out@ + spec_render_pairs(pviews.skip(i + 1), lvl) =~= prev + spec_render_pairs(
                rest,
                lvl,
            ));
        }
        i = i + 1;
    }
    proof {
        assert(pviews.skip(i as int) =~= Seq::<(Seq<u8>, SpecValue)>::empty());
        assert(out@ + Seq::<char>::empty() =~= out@);
    }
    out
}

/// Renders one value at the given nesting level.
pub fn pp_bencode(b: &Bencode, level: u8) -> (r: String)
    ensures
        r@ == spec_render_value(b@, level as nat),
    decreases b, 0int,
{
    match b {
        Bencode::BInt(i) => {
            let mut out = indent(level);
            out.append(i64_to_decimal(*i).as_str());
            out.append("\n");
            proof {
                reveal_strlit("\n");
                assert(out@ =~= spec_render_value(b@, level as nat));
            }
            out
        },
        Bencode::BString(s) => pp_bstring(s, level),
        Bencode::BList(l) => pp_bencodes(l, level),
        Bencode::BDict(m) => pp_dict(m, level),
    }
}

/// Renders a sequence of values, one bracketed block per value.
#[verifier::loop_isolation(false)]
pub fn pp_bencodes(bs: &Vec<Bencode>, level: u8) -> (r: String)
    ensures
        r@ == spec_render_blocks(views_of(bs@), level as nat),
    decreases bs@, 1int,
{
    let ghost bviews = views_of(bs@);
    let ghost lvl = level as nat;
    let mut out = String::new();
    let mut i: usize = 0;
    let lvl2 = if level < 255 {
        level + 1
    } else {
        255
    };
    proof {
        assert(bviews.skip(0) =~= bviews);
        assert(Seq::<char>::empty() + spec_render_blocks(bviews, lvl) =~= spec_render_blocks(
            bviews,
            lvl,
        ));
    }
    while i < bs.len()
        invariant
            i <= bs@.len(),
            spec_render_blocks(bviews, lvl) == out@ + spec_render_blocks(
                bviews.skip(i as int),
                lvl,
            ),
        decreases bs@.len() - i,
    {
        let ghost prev = out@;
        let ind = indent(level);
        out.append(ind.as_str());
        out.append("[\n");
        let rendered = pp_bencode(&bs[i], lvl2);
        out.append(rendered.as_str());
        out.append(ind.as_str());
        out.append("]\n");
        proof {
            reveal_strlit("[\n");
            reveal_strlit("]\n");
            let rest = bviews.skip(i as int);
            assert(rest[0] == bviews[i as int]);
            assert(bviews[i as int] == bs@[i as int]@);
            assert(rest.drop_first() =~= bviews.skip(i + 1));
            assert(("[\n")@ =~= seq!['[', '\n']);
            assert(("]\n")@ =~= seq![']', '\n']);
            assert(spec_render_blocks(rest, lvl) == spec_indent(lvl) + seq!['[', '\n']
                + spec_render_value(rest[0], spec_next_level(lvl)) + spec_indent(lvl)
                + seq![']', '\n'] + spec_render_blocks(rest.drop_first(), lvl));
            assert(out@ =~= prev + (spec_indent(lvl) + seq!['[', '\n'] + spec_render_value(
                rest[0],
                spec_next_level(lvl),
            ) + spec_indent(lvl) + seq![']', '\n']));
            assert(out@ + spec_render_blocks(bviews.skip(i + 1), lvl) =~= prev
                + spec_render_blocks(rest, lvl));
        }
        i = i + 1;
    }
    proof {
        assert(bviews.skip(i as int) =~= Seq::<SpecValue>::empty());
        assert(out@ + Seq::<char>::empty() =~= out@);
    }
    out
}

/// A byte string that is not valid UTF-8 renders as the byte-count
/// placeholder line, never a failure: the printer is total.
pub proof fn lemma_render_invalid_utf8(b: Seq<u8>, level: nat)
    ensures
        !valid_utf8(b) ==> spec_render_value(SpecValue::Bytes(b), level) == spec_indent(level) + (
        seq!['['] + spec_nat_decimal(b.len() as int) + seq![' ', 'b', 'y', 't', 'e', 's', ']'])
            + seq!['\n'],
{
}

} // verus!
